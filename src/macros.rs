use vstd::prelude::*;
use crate::string_map::StringMap;
use crate::text::{is_prefix, push_range, string_of_range, chars_of};

verus! {

/// The largest `len <= n` such that the first `len` characters of `t` are a key of `m`,
/// or -1 when there is none.
pub open spec fn best_len(m: Map<Seq<char>, Seq<char>>, t: Seq<char>, n: int) -> int
    decreases n + 1,
{
    if n < 0 {
        -1
    } else if m.contains_key(t.subrange(0, n)) {
        n
    } else {
        best_len(m, t, n - 1)
    }
}

/// Length of the longest key of `m` that `t` starts with, or -1 when none does.
pub open spec fn match_len(m: Map<Seq<char>, Seq<char>>, t: Seq<char>) -> int {
    best_len(m, t, t.len() as int)
}

/// `s` with every `$KEY` replaced by the value of `KEY` in `m`, scanning from the left,
/// the longest key winning; replaced text is not scanned again.
pub open spec fn subst(s: Seq<char>, m: Map<Seq<char>, Seq<char>>) -> Seq<char>
    decreases s.len(),
{
    if s.len() == 0 {
        Seq::empty()
    } else {
        let n = match_len(m, s.drop_first());
        if s[0] == '$' && 0 <= n < s.len() {
            m[s.subrange(1, n + 1)] + subst(s.subrange(n + 1, s.len() as int), m)
        } else {
            seq![s[0]] + subst(s.drop_first(), m)
        }
    }
}

/// Whether the scan of `subst` replaces anything.
pub open spec fn replaced(s: Seq<char>, m: Map<Seq<char>, Seq<char>>) -> bool
    decreases s.len(),
{
    if s.len() == 0 {
        false
    } else {
        let n = match_len(m, s.drop_first());
        if s[0] == '$' && 0 <= n < s.len() {
            true
        } else {
            replaced(s.drop_first(), m)
        }
    }
}

/// Some `$` of `s` is followed by a key of `m`.
pub open spec fn has_macro_ref(s: Seq<char>, m: Map<Seq<char>, Seq<char>>) -> bool {
    exists|i: int, k: Seq<char>|
        0 <= i < s.len() && s[i] == '$' && #[trigger] m.contains_key(k) && is_prefix(
            k,
            #[trigger] s.subrange(i + 1, s.len() as int),
        )
}

pub proof fn lemma_best_len(m: Map<Seq<char>, Seq<char>>, t: Seq<char>, n: int)
    requires
        -1 <= n <= t.len(),
    ensures
        -1 <= best_len(m, t, n) <= n,
        best_len(m, t, n) >= 0 ==> m.contains_key(t.subrange(0, best_len(m, t, n))),
        forall|k: Seq<char>|
            #[trigger] m.contains_key(k) && is_prefix(k, t) && k.len() <= n ==> k.len()
                <= best_len(m, t, n),
    decreases n + 1,
{
    if n >= 0 && !m.contains_key(t.subrange(0, n)) {
        lemma_best_len(m, t, n - 1);
        assert forall|k: Seq<char>|
            #[trigger] m.contains_key(k) && is_prefix(k, t) && k.len() <= n implies k.len()
                <= best_len(m, t, n) by {
            if k.len() == n {
                assert(t.subrange(0, n) == k);
            }
        }
    }
}

/// The key that `match_len` picks is a key, a prefix of `t`, and no key that is a prefix
/// of `t` is longer.
pub proof fn lemma_match_len(m: Map<Seq<char>, Seq<char>>, t: Seq<char>)
    ensures
        -1 <= match_len(m, t) <= t.len(),
        match_len(m, t) >= 0 ==> m.contains_key(t.subrange(0, match_len(m, t))),
        match_len(m, t) >= 0 ==> is_prefix(t.subrange(0, match_len(m, t)), t),
        forall|k: Seq<char>|
            #[trigger] m.contains_key(k) && is_prefix(k, t) ==> k.len() <= match_len(m, t),
{
    lemma_best_len(m, t, t.len() as int);
    if match_len(m, t) >= 0 {
        assert(t.subrange(0, match_len(m, t)).len() == match_len(m, t));
    }
}

/// The longest key of `map` that `cs[from..]` starts with, with its value.
fn longest_key_at(cs: &Vec<char>, from: usize, map: &StringMap) -> (r: Option<(usize, String)>)
    requires
        from <= cs@.len(),
    ensures
        match r {
            Some((l, v)) => l == match_len(map@, cs@.subrange(from as int, cs@.len() as int))
                && v@ == map@[cs@.subrange(from as int, from + l)],
            None => match_len(map@, cs@.subrange(from as int, cs@.len() as int)) == -1,
        },
{
    let ghost t = cs@.subrange(from as int, cs@.len() as int);
    let total = cs.len();
    let mut len: usize = total - from;
    loop
        invariant
            from <= cs@.len(),
            total == cs@.len(),
            t == cs@.subrange(from as int, cs@.len() as int),
            len <= t.len(),
            match_len(map@, t) == best_len(map@, t, len as int),
        decreases len,
    {
        let key = string_of_range(cs, from, from + len);
        assert(t.subrange(0, len as int) == cs@.subrange(from as int, from + len));
        match map.get(key.as_str()) {
            Some(v) => {
                return Some((len, v.clone()));
            },
            None => {
                if len == 0 {
                    assert(best_len(map@, t, -1) == -1);
                    return None;
                }
                len = len - 1;
            },
        }
    }
}

/// Replaces every `$KEY` in `line` by the value of `KEY` in `map`, the longest key first.
/// Returns whether anything was replaced.
pub fn replace_macros(line: &mut String, map: &StringMap) -> (r: bool)
    ensures
        final(line)@ == subst(old(line)@, map@),
        r == replaced(old(line)@, map@),
{
    let cs = chars_of(line.as_str());
    let ghost s = cs@;
    let n = cs.len();
    let mut out = String::new();
    let mut changed = false;
    let mut i: usize = 0;
    let mut copied: usize = 0;
    assert(s.subrange(0, n as int) == s);
    assert(s.subrange(0, 0) =~= Seq::<char>::empty());
    assert(out@ + s.subrange(0, 0) =~= Seq::<char>::empty());
    while i < n
        invariant
            cs@ == s,
            n == s.len(),
            copied <= i <= n,
            subst(s, map@) == out@ + s.subrange(copied as int, i as int) + subst(
                s.subrange(i as int, n as int),
                map@,
            ),
            replaced(s, map@) == (changed || replaced(s.subrange(i as int, n as int), map@)),
        decreases n - i,
    {
        let ghost rest = s.subrange(i as int, n as int);
        proof {
            assert(rest.drop_first() == s.subrange(i + 1, n as int));
            assert(rest[0] == s[i as int]);
            lemma_match_len(map@, rest.drop_first());
        }
        let found = if cs[i] == '$' {
            longest_key_at(&cs, i + 1, map)
        } else {
            None
        };
        match found {
            Some((l, v)) => {
                push_range(&mut out, &cs, copied, i);
                crate::text::push_str(&mut out, v.as_str());
                changed = true;
                proof {
                    assert(rest.subrange(1, l + 1) == s.subrange(i + 1, i + 1 + l));
                    assert(rest.subrange(l + 1, rest.len() as int) == s.subrange(
                        i + 1 + l,
                        n as int,
                    ));
                    assert(s.subrange(i + 1 + l, i + 1 + l) =~= Seq::<char>::empty());
                    assert(subst(rest, map@) == v@ + subst(
                        s.subrange(i + 1 + l, n as int),
                        map@,
                    ));
                    assert(out@ =~= old(line)@.subrange(0, 0) + out@);
                }
                i = i + 1 + l;
                copied = i;
                proof {
                    assert(s.subrange(copied as int, i as int) =~= Seq::<char>::empty());
                    assert(subst(s, map@) =~= out@ + s.subrange(copied as int, i as int) + subst(
                        s.subrange(i as int, n as int),
                        map@,
                    ));
                }
            },
            None => {
                proof {
                    assert(s.subrange(copied as int, i + 1) =~= s.subrange(
                        copied as int,
                        i as int,
                    ).push(s[i as int]));
                    assert(seq![s[i as int]] + subst(rest.drop_first(), map@) == subst(
                        rest,
                        map@,
                    ));
                    assert(out@ + s.subrange(copied as int, i as int) + subst(rest, map@)
                        =~= out@ + s.subrange(copied as int, i + 1) + subst(
                        rest.drop_first(),
                        map@,
                    ));
                }
                i = i + 1;
            },
        }
    }
    push_range(&mut out, &cs, copied, n);
    proof {
        assert(s.subrange(n as int, n as int) =~= Seq::<char>::empty());
        assert(out@ =~= subst(s, map@));
    }
    *line = out;
    changed
}

/// Keys that share a prefix do not shadow each other: where `$` is followed by a key `k2`
/// that extends a shorter key `k1`, and by no key longer than `k2`, the value of `k2` is
/// what replaces it.
pub proof fn lemma_longer_key_wins(
    m: Map<Seq<char>, Seq<char>>,
    k1: Seq<char>,
    k2: Seq<char>,
    rest: Seq<char>,
)
    requires
        m.contains_key(k1),
        m.contains_key(k2),
        is_prefix(k1, k2),
        k1.len() < k2.len(),
        forall|k: Seq<char>| #[trigger] m.contains_key(k) && is_prefix(k, k2 + rest) ==> k.len() <= k2.len(),
    ensures
        subst(seq!['$'] + k2 + rest, m) == m[k2] + subst(rest, m),
{
    let s = seq!['$'] + k2 + rest;
    let t = s.drop_first();
    assert(t =~= k2 + rest);
    assert(t.subrange(0, k2.len() as int) =~= k2);
    lemma_match_len(m, t);
    let n = match_len(m, t);
    assert(n == k2.len());
    assert(s.subrange(1, n + 1) =~= k2);
    assert(s.subrange(n + 1, s.len() as int) =~= rest);
    assert(subst(s, m) =~= m[k2] + subst(rest, m));
}

/// A string in which no `$` is followed by a key is left as it is, and so substituting
/// twice gives what substituting once gives.
pub proof fn lemma_subst_without_refs(s: Seq<char>, m: Map<Seq<char>, Seq<char>>)
    requires
        !has_macro_ref(s, m),
    ensures
        subst(s, m) == s,
        !replaced(s, m),
        subst(subst(s, m), m) == subst(s, m),
    decreases s.len(),
{
    if s.len() > 0 {
        let t = s.drop_first();
        lemma_match_len(m, t);
        if s[0] == '$' && match_len(m, t) >= 0 {
            let k = t.subrange(0, match_len(m, t));
            assert(s.subrange(1, s.len() as int) == t);
            assert(m.contains_key(k) && is_prefix(k, s.subrange(0int + 1, s.len() as int)));
            assert(has_macro_ref(s, m));
        }
        assert(!has_macro_ref(t, m)) by {
            if has_macro_ref(t, m) {
                let (i, k) = choose|i: int, k: Seq<char>|
                    0 <= i < t.len() && t[i] == '$' && #[trigger] m.contains_key(k) && is_prefix(
                        k,
                        #[trigger] t.subrange(i + 1, t.len() as int),
                    );
                assert(t.subrange(i + 1, t.len() as int) == s.subrange(i + 2, s.len() as int));
                assert(s[i + 1] == '$');
                assert(m.contains_key(k) && is_prefix(k, s.subrange((i + 1) + 1, s.len() as int)));
            }
        }
        lemma_subst_without_refs(t, m);
        assert(subst(s, m) =~= s);
    }
}

/// Substitutes the macros of one table into many strings.
pub struct FastReplacer {
    map: StringMap,
}

impl FastReplacer {
    /// The table it substitutes.
    pub closed spec fn map_view(&self) -> Map<Seq<char>, Seq<char>> {
        self.map@
    }

    pub fn new(map: &StringMap) -> (r: FastReplacer)
        ensures
            r.map_view() == map@,
    {
        FastReplacer { map: map.copy() }
    }

    /// `text` with its macros substituted (see `subst`).
    pub fn replace(&self, text: &str) -> (r: String)
        ensures
            r@ == subst(text@, self.map_view()),
    {
        let mut s = text.to_owned();
        replace_macros(&mut s, &self.map);
        s
    }
}

} // verus!
