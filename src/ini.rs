use vstd::prelude::*;
use crate::reader::{find_char, lemma_find_char, lines_of_text, split_lines};
use crate::string_map::StringMap;
use crate::text::{chars_of, push_range, push_str, string_of_range, trim, trim_spec};

verus! {

/// Index of the first entry of `s` named `name` at or after `from`, or -1.
pub open spec fn find_section(s: Seq<(Seq<char>, Map<Seq<char>, Seq<char>>)>, name: Seq<char>, from: int) -> int
    decreases s.len() - from,
{
    if from < 0 || from >= s.len() {
        -1
    } else if s[from].0 == name {
        from
    } else {
        find_section(s, name, from + 1)
    }
}

pub proof fn lemma_find_section(s: Seq<(Seq<char>, Map<Seq<char>, Seq<char>>)>, name: Seq<char>, from: int)
    requires
        0 <= from,
    ensures
        -1 <= find_section(s, name, from) < s.len(),
        find_section(s, name, from) >= 0 ==> from <= find_section(s, name, from) && s[find_section(s, name, from)].0 == name,
        find_section(s, name, from) == -1 ==> forall|k: int| from <= k < s.len() ==> s[k].0 != name,
        find_section(s, name, from) >= 0 ==> forall|k: int| from <= k < find_section(s, name, from) ==> s[k].0 != name,
    decreases s.len() - from,
{
    if from < s.len() && s[from].0 != name {
        lemma_find_section(s, name, from + 1);
    }
}

/// The value of `key` in section `sec` of `d`, each `${name}` or `${section:name}` of it
/// replaced by the value it names, resolved with one step less; `missing` where the key is
/// missing, `exhausted` where no steps are left.
pub open spec fn resolve(
    d: Map<Seq<char>, Map<Seq<char>, Seq<char>>>,
    sec: Seq<char>,
    key: Seq<char>,
    missing: Seq<char>,
    exhausted: Seq<char>,
    depth: nat,
) -> Seq<char>
    decreases depth, 1nat, 0nat,
{
    if depth == 0 {
        exhausted
    } else if d.contains_key(sec) && d[sec].contains_key(key) {
        expand(d, sec, d[sec][key], exhausted, depth)
    } else {
        missing
    }
}

/// What `get_value` gives: the value of `key` in `sec` resolved with at most `depth` steps,
/// `default` where the key is missing or the steps run out; a reference to a missing key
/// stands for the empty string.
pub open spec fn value_in(
    d: Map<Seq<char>, Map<Seq<char>, Seq<char>>>,
    sec: Seq<char>,
    key: Seq<char>,
    default: Seq<char>,
    depth: nat,
) -> Seq<char> {
    resolve(d, sec, key, default, default, depth)
}

/// Where the reference that starts at `i` of `v` ends (its `}`), or -1 when none starts
/// there.
pub open spec fn ref_end(v: Seq<char>, i: int) -> int {
    let c = find_char(v, '}', i + 2);
    if 0 <= i && i + 1 < v.len() && v[i] == '$' && v[i + 1] == '{' && i + 2 < c < v.len() {
        c
    } else {
        -1
    }
}

/// What the reference `${name}` stands for in section `sec`.
pub open spec fn ref_value(
    d: Map<Seq<char>, Map<Seq<char>, Seq<char>>>,
    sec: Seq<char>,
    name: Seq<char>,
    exhausted: Seq<char>,
    depth: nat,
) -> Seq<char>
    decreases depth, 2nat, 0nat,
{
    let colon = find_char(name, ':', 0);
    if 0 <= colon < name.len() {
        resolve(d, name.subrange(0, colon), name.subrange(colon + 1, name.len() as int), Seq::empty(), exhausted, depth)
    } else {
        resolve(d, sec, name, Seq::empty(), exhausted, depth)
    }
}

/// `v` with its references replaced, scanning from the left.
pub open spec fn expand(
    d: Map<Seq<char>, Map<Seq<char>, Seq<char>>>,
    sec: Seq<char>,
    v: Seq<char>,
    exhausted: Seq<char>,
    depth: nat,
) -> Seq<char>
    decreases depth, 0nat, v.len(),
{
    if v.len() == 0 || depth == 0 {
        v
    } else {
        let c = ref_end(v, 0);
        if 0 < c < v.len() {
            ref_value(d, sec, v.subrange(2, c), exhausted, (depth - 1) as nat) + expand(
                d,
                sec,
                v.subrange(c + 1, v.len() as int),
                exhausted,
                depth,
            )
        } else {
            seq![v[0]] + expand(d, sec, v.drop_first(), exhausted, depth)
        }
    }
}

/// A section with every value resolved.
pub open spec fn resolved_section(
    d: Map<Seq<char>, Map<Seq<char>, Seq<char>>>,
    sec: Seq<char>,
    depth: nat,
) -> Map<Seq<char>, Seq<char>> {
    Map::new(|k: Seq<char>| d[sec].contains_key(k), |k: Seq<char>| value_in(d, sec, k, Seq::empty(), depth))
}

/// The section that keys of `d` go to when `cur` is the current section.
pub open spec fn section_or_empty(d: Map<Seq<char>, Map<Seq<char>, Seq<char>>>, cur: Seq<char>) -> Map<Seq<char>, Seq<char>> {
    if d.contains_key(cur) {
        d[cur]
    } else {
        Map::empty()
    }
}

/// The data after reading `lines` into `d`, `cur` being the current section: blank lines
/// and lines starting with `;` or `#` are skipped, `[name]` starts a section, and
/// `key = value` sets a key of the current section (both sides trimmed).
pub open spec fn ini_lines(
    d: Map<Seq<char>, Map<Seq<char>, Seq<char>>>,
    cur: Seq<char>,
    lines: Seq<Seq<char>>,
) -> Map<Seq<char>, Map<Seq<char>, Seq<char>>>
    decreases lines.len(),
{
    if lines.len() == 0 {
        d
    } else {
        let t = trim_spec(lines[0]);
        let rest = lines.drop_first();
        let p = find_char(t, '=', 0);
        if t.len() == 0 || t[0] == ';' || t[0] == '#' {
            ini_lines(d, cur, rest)
        } else if t[0] == '[' && t.last() == ']' {
            ini_lines(d, t.subrange(1, t.len() - 1), rest)
        } else if 0 <= p < t.len() {
            ini_lines(
                d.insert(
                    cur,
                    section_or_empty(d, cur).insert(
                        trim_spec(t.subrange(0, p)),
                        trim_spec(t.subrange(p + 1, t.len() as int)),
                    ),
                ),
                cur,
                rest,
            )
        } else {
            ini_lines(d, cur, rest)
        }
    }
}

pub open spec fn sections_view(v: Seq<(String, StringMap)>) -> Seq<(Seq<char>, Map<Seq<char>, Seq<char>>)> {
    v.map_values(|e: (String, StringMap)| (e.0@, e.1@))
}

/// INI data: sections of keys and values, with references among values resolved on
/// demand.
pub struct IniParserEx {
    sections: Vec<(String, StringMap)>,
}

impl IniParserEx {
    pub closed spec fn secs(&self) -> Seq<(Seq<char>, Map<Seq<char>, Seq<char>>)> {
        sections_view(self.sections@)
    }

    pub closed spec fn view(&self) -> Map<Seq<char>, Map<Seq<char>, Seq<char>>> {
        Map::new(
            |n: Seq<char>| find_section(self.secs(), n, 0) >= 0,
            |n: Seq<char>| self.secs()[find_section(self.secs(), n, 0)].1,
        )
    }

    pub fn new() -> (r: IniParserEx)
        ensures
            r@ == Map::<Seq<char>, Map<Seq<char>, Seq<char>>>::empty(),
    {
        let r = IniParserEx { sections: Vec::new() };
        assert(r@ =~= Map::<Seq<char>, Map<Seq<char>, Seq<char>>>::empty());
        r
    }

    /// Position of the section named `name`.
    fn find_sec(&self, name: &str) -> (r: Option<usize>)
        ensures
            match r {
                Some(i) => i == find_section(self.secs(), name@, 0) && i < self.secs().len(),
                None => find_section(self.secs(), name@, 0) == -1,
            },
    {
        let mut i: usize = 0;
        while i < self.sections.len()
            invariant
                i <= self.sections@.len(),
                self.secs().len() == self.sections@.len(),
                find_section(self.secs(), name@, 0) == find_section(self.secs(), name@, i as int),
            decreases self.sections@.len() - i,
        {
            if crate::text::str_eq(self.sections[i].0.as_str(), name) {
                return Some(i);
            }
            i = i + 1;
        }
        None
    }

    /// `s` without white space around it.
    pub fn trim(s: &str) -> (r: String)
        ensures
            r@ == trim_spec(s@),
    {
        trim(s)
    }

    /// Whether a section named `section` holds keys.
    pub fn section_exists(&self, section: &str) -> (r: bool)
        ensures
            r == self@.contains_key(section@),
    {
        self.find_sec(section).is_some()
    }

    /// A copy of section `section`.
    pub fn get_section(&self, section: &str) -> (r: Option<StringMap>)
        ensures
            match r {
                Some(m) => self@.contains_key(section@) && m@ == self@[section@],
                None => !self@.contains_key(section@),
            },
    {
        match self.find_sec(section) {
            Some(i) => Some(self.sections[i].1.copy()),
            None => None,
        }
    }

    /// Sets `key` of section `section` to `value`, creating the section if needed.
    fn set_key(&mut self, section: &str, key: String, value: String)
        ensures
            final(self)@ == old(self)@.insert(
                section@,
                section_or_empty(old(self)@, section@).insert(key@, value@),
            ),
    {
        let ghost old_secs = self.secs();
        proof {
            lemma_find_section(old_secs, section@, 0);
        }
        match self.find_sec(section) {
            Some(i) => {
                let mut m = self.sections[i].1.copy();
                m.insert(key, value);
                let name = self.sections[i].0.clone();
                self.sections.set(i, (name, m));
                proof {
                    assert(self.secs() =~= old_secs.update(i as int, (section@, m@)));
                    assert forall|n: Seq<char>| find_section(self.secs(), n, 0) == find_section(old_secs, n, 0) by {
                        lemma_find_section(old_secs, n, 0);
                        lemma_find_section(self.secs(), n, 0);
                        if find_section(old_secs, n, 0) >= 0 {
                            assert(self.secs()[find_section(old_secs, n, 0)].0 == n);
                        }
                        if find_section(self.secs(), n, 0) >= 0 {
                            assert(old_secs[find_section(self.secs(), n, 0)].0 == n);
                        }
                        let a = find_section(old_secs, n, 0);
                        let b = find_section(self.secs(), n, 0);
                        if a >= 0 && b >= 0 && a != b {
                            if a < b {
                                assert(self.secs()[a].0 == n);
                            } else {
                                assert(old_secs[b].0 == n);
                            }
                        }
                    }
                    let target = old(self)@.insert(
                        section@,
                        section_or_empty(old(self)@, section@).insert(key@, value@),
                    );
                    assert forall|nm: Seq<char>| #[trigger] self@.contains_key(nm) == target.contains_key(nm) by {
                        lemma_find_section(old_secs, nm, 0);
                    }
                    assert forall|nm: Seq<char>| self@.contains_key(nm) implies #[trigger] self@[nm] == target[nm] by {
                        lemma_find_section(old_secs, nm, 0);
                        let a = find_section(old_secs, nm, 0);
                        if nm != section@ {
                            assert(a != i);
                            assert(self.secs()[a] == old_secs[a]);
                        }
                    }
                    assert(self@ =~= target);
                }
            },
            None => {
                let mut m = StringMap::new();
                m.insert(key, value);
                self.sections.push((section.to_owned(), m));
                proof {
                    assert(self.secs() =~= old_secs.push((section@, m@)));
                    assert forall|n: Seq<char>| n != section@ implies find_section(self.secs(), n, 0) == find_section(old_secs, n, 0) by {
                        lemma_find_section(old_secs, n, 0);
                        lemma_find_section(self.secs(), n, 0);
                        if find_section(old_secs, n, 0) >= 0 {
                            assert(self.secs()[find_section(old_secs, n, 0)].0 == n);
                        }
                        if find_section(self.secs(), n, 0) >= 0 {
                            let b = find_section(self.secs(), n, 0);
                            if b < old_secs.len() {
                                assert(old_secs[b].0 == n);
                            }
                        }
                        let a = find_section(old_secs, n, 0);
                        let b = find_section(self.secs(), n, 0);
                        if a >= 0 && b >= 0 && a != b {
                            if a < b {
                                assert(self.secs()[a].0 == n);
                            } else {
                                assert(old_secs[b].0 == n);
                            }
                        }
                    }
                    lemma_find_section(self.secs(), section@, 0);
                    assert(self.secs()[old_secs.len() as int].0 == section@);
                    assert forall|k: int| 0 <= k < old_secs.len() implies self.secs()[k].0 != section@ by {
                        assert(self.secs()[k] == old_secs[k]);
                    }
                    assert(find_section(self.secs(), section@, 0) == old_secs.len());
                    let target = old(self)@.insert(
                        section@,
                        section_or_empty(old(self)@, section@).insert(key@, value@),
                    );
                    assert(m@ == Map::<Seq<char>, Seq<char>>::empty().insert(key@, value@));
                    assert forall|nm: Seq<char>| self@.contains_key(nm) implies #[trigger] self@[nm] == target[nm] by {
                        lemma_find_section(old_secs, nm, 0);
                        if nm != section@ {
                            let a = find_section(old_secs, nm, 0);
                            assert(self.secs()[a] == old_secs[a]);
                        }
                    }
                    assert(self@ =~= old(self)@.insert(
                        section@,
                        section_or_empty(old(self)@, section@).insert(key@, value@),
                    ));
                }
            },
        }
    }

    /// Reads INI text into the data: see `ini_lines`. Keys before any section header go to
    /// the section with the empty name.
    pub fn load_text(&mut self, text: &str)
        ensures
            final(self)@ == ini_lines(old(self)@, Seq::empty(), split_lines(text@)),
    {
        let lines = lines_of_text(text);
        let ghost lv = lines@.map_values(|l: String| l@);
        let mut cur = String::new();
        let n = lines.len();
        let mut k: usize = 0;
        proof {
            assert(lv.subrange(0, n as int) =~= lv);
        }
        while k < n
            invariant
                n == lines@.len(),
                lv == lines@.map_values(|l: String| l@),
                lv == split_lines(text@),
                k <= n,
                ini_lines(old(self)@, Seq::empty(), lv) == ini_lines(self@, cur@, lv.subrange(k as int, n as int)),
            decreases n - k,
        {
            let ghost rest = lv.subrange(k as int, n as int);
            proof {
                assert(rest[0] == lines@[k as int]@);
                assert(rest.drop_first() =~= lv.subrange(k + 1, n as int));
            }
            let t = trim(lines[k].as_str());
            let tc = chars_of(t.as_str());
            let tn = tc.len();
            if tn == 0 || tc[0] == ';' || tc[0] == '#' {
            } else if tc[0] == '[' && tc[tn - 1] == ']' {
                cur = string_of_range(&tc, 1, tn - 1);
            } else {
                let mut p: usize = 0;
                while p < tn && tc[p] != '='
                    invariant
                        p <= tn,
                        tn == tc@.len(),
                        find_char(tc@, '=', 0) == find_char(tc@, '=', p as int),
                    decreases tn - p,
                {
                    p = p + 1;
                }
                if p < tn {
                    let left = string_of_range(&tc, 0, p);
                    let right = string_of_range(&tc, p + 1, tn);
                    let key = trim(left.as_str());
                    let value = trim(right.as_str());
                    self.set_key(cur.as_str(), key, value);
                }
            }
            k = k + 1;
        }
    }

    /// The value of `key` in `section`, references resolved with at most `depth` steps
    /// (see `resolve`).
    pub fn get_value(&self, section: &str, key: &str, default_value: &str, depth: usize) -> (r: String)
        ensures
            r@ == value_in(self@, section@, key@, default_value@, depth as nat),
    {
        self.resolve_value(section, key, default_value, default_value, depth)
    }

    /// See `resolve`.
    fn resolve_value(&self, section: &str, key: &str, missing: &str, exhausted: &str, depth: usize) -> (r: String)
        ensures
            r@ == resolve(self@, section@, key@, missing@, exhausted@, depth as nat),
        decreases depth, 1nat,
    {
        if depth == 0 {
            return exhausted.to_owned();
        }
        match self.find_sec(section) {
            Some(i) => match self.sections[i].1.get(key) {
                Some(v) => self.expand_value(section, v.as_str(), exhausted, depth),
                None => missing.to_owned(),
            },
            None => missing.to_owned(),
        }
    }

    /// What a reference `${name}` stands for.
    fn ref_value_of(&self, section: &str, name: &Vec<char>, exhausted: &str, depth: usize) -> (r: String)
        ensures
            r@ == ref_value(self@, section@, name@, exhausted@, depth as nat),
        decreases depth, 2nat,
    {
        let n = name.len();
        let mut c: usize = 0;
        while c < n && name[c] != ':'
            invariant
                c <= n,
                n == name@.len(),
                find_char(name@, ':', 0) == find_char(name@, ':', c as int),
            decreases n - c,
        {
            c = c + 1;
        }
        if c < n {
            let sec = string_of_range(name, 0, c);
            let key = string_of_range(name, c + 1, n);
            let none = String::new();
            self.resolve_value(sec.as_str(), key.as_str(), none.as_str(), exhausted, depth)
        } else {
            let key = string_of_range(name, 0, n);
            assert(name@.subrange(0, n as int) =~= name@);
            let none = String::new();
            self.resolve_value(section, key.as_str(), none.as_str(), exhausted, depth)
        }
    }

    /// `v` with its references replaced (see `expand`).
    fn expand_value(&self, section: &str, v: &str, exhausted: &str, depth: usize) -> (r: String)
        requires
            depth > 0,
        ensures
            r@ == expand(self@, section@, v@, exhausted@, depth as nat),
        decreases depth, 0nat,
    {
        let cs = chars_of(v);
        let ghost s = cs@;
        let n = cs.len();
        let mut out = String::new();
        let mut i: usize = 0;
        proof {
            assert(s.subrange(0, n as int) =~= s);
        }
        while i < n
            invariant
                cs@ == s,
                n == s.len(),
                i <= n,
                depth > 0,
                expand(self@, section@, s, exhausted@, depth as nat) == out@ + expand(
                    self@,
                    section@,
                    s.subrange(i as int, n as int),
                    exhausted@,
                    depth as nat,
                ),
            decreases n - i,
        {
            let ghost rest = s.subrange(i as int, n as int);
            // a reference starts here when `${` is followed by a name and `}`
            let mut c = n;
            if n - i > 1 && cs[i] == '$' && cs[i + 1] == '{' {
                let mut j = i + 2;
                while j < n && cs[j] != '}'
                    invariant
                        i + 2 <= j <= n,
                        n == s.len(),
                        cs@ == s,
                        find_char(s, '}', i + 2) == find_char(s, '}', j as int),
                    decreases n - j,
                {
                    j = j + 1;
                }
                if j < n && j > i + 2 {
                    c = j;
                }
            }
            proof {
                if n - i > 1 {
                    lemma_find_char(s, '}', i + 2);
                    lemma_find_char_shift(s, '}', i as int, 2);
                    assert(rest[0] == s[i as int] && rest[1] == s[i + 1]);
                }
            }
            if c < n {
                let name = string_of_range(&cs, i + 2, c);
                let name_cs = chars_of(name.as_str());
                let r = self.ref_value_of(section, &name_cs, exhausted, depth - 1);
                push_str(&mut out, r.as_str());
                proof {
                    assert(ref_end(rest, 0) == c - i);
                    assert(rest.subrange(2, c - i) =~= s.subrange(i + 2, c as int));
                    assert(rest.subrange(c - i + 1, rest.len() as int) =~= s.subrange(c + 1, n as int));
                }
                i = c + 1;
            } else {
                push_char_of(&mut out, &cs, i);
                proof {
                    assert(ref_end(rest, 0) == -1);
                    assert(rest.drop_first() =~= s.subrange(i + 1, n as int));
                }
                i = i + 1;
            }
        }
        proof {
            assert(s.subrange(n as int, n as int) =~= Seq::<char>::empty());
            assert(out@ =~= out@ + Seq::<char>::empty());
        }
        out
    }

    /// Section `section` with every value resolved with at most `depth` steps, keys in
    /// the order of the section; `None` when there is no such section.
    pub fn get_resolved_section(&self, section: &str, depth: usize) -> (r: Option<StringMap>)
        ensures
            match r {
                Some(m) => self@.contains_key(section@) && m@ == resolved_section(self@, section@, depth as nat),
                None => !self@.contains_key(section@),
            },
    {
        match self.find_sec(section) {
            Some(i) => {
                let sm = &self.sections[i].1;
                let mut r = StringMap::new();
                let len = sm.len();
                proof {
                    sm.lemma_view();
                }
                let mut j: usize = 0;
                while j < len
                    invariant
                        j <= len,
                        len == sm.pairs().len(),
                        crate::string_map::keys_unique(sm.pairs()),
                        sm@ == self@[section@],
                        self@.contains_key(section@),
                        r@ == Map::new(
                            |k: Seq<char>| exists|m: int| 0 <= m < j && sm.pairs()[m].0 == k,
                            |k: Seq<char>| value_in(self@, section@, k, Seq::empty(), depth as nat),
                        ),
                    decreases len - j,
                {
                    let key = sm.key_at(j);
                    let none = String::new();
                    let value = self.get_value(section, key.as_str(), none.as_str(), depth);
                    let ghost before = r@;
                    r.insert(key.clone(), value);
                    proof {
                        assert(r@ =~= Map::new(
                            |k: Seq<char>| exists|m: int| 0 <= m < j + 1 && sm.pairs()[m].0 == k,
                            |k: Seq<char>| value_in(self@, section@, k, Seq::empty(), depth as nat),
                        )) by {
                            assert forall|k: Seq<char>| #[trigger] r@.contains_key(k) <==> exists|m: int| 0 <= m < j + 1 && sm.pairs()[m].0 == k by {
                                if exists|m: int| 0 <= m < j + 1 && sm.pairs()[m].0 == k {
                                    let m = choose|m: int| 0 <= m < j + 1 && sm.pairs()[m].0 == k;
                                    if m < j {
                                        assert(before.contains_key(k));
                                    }
                                }
                                if before.contains_key(k) {
                                    let m = choose|m: int| 0 <= m < j && sm.pairs()[m].0 == k;
                                    assert(0 <= m < j + 1);
                                }
                            }
                        }
                    }
                    j = j + 1;
                }
                proof {
                    sm.lemma_view();
                    assert(r@ =~= resolved_section(self@, section@, depth as nat));
                }
                Some(r)
            },
            None => None,
        }
    }
}

/// Appends `cs[i]` to `s`.
fn push_char_of(s: &mut String, cs: &Vec<char>, i: usize)
    requires
        i < cs@.len(),
    ensures
        final(s)@ == old(s)@.push(cs@[i as int]),
{
    let n = cs.len();
    assert(i < n);
    push_range(s, cs, i, i + 1);
    assert(cs@.subrange(i as int, i + 1) =~= seq![cs@[i as int]]);
}

pub proof fn lemma_find_char_shift(v: Seq<char>, c: char, i: int, from: int)
    requires
        0 <= i <= v.len(),
        0 <= from,
    ensures
        find_char(v.subrange(i, v.len() as int), c, from) == find_char(v, c, i + from) - i,
    decreases v.len() - i - from,
{
    let w = v.subrange(i, v.len() as int);
    if from < w.len() {
        assert(w[from] == v[i + from]);
        if w[from] != c {
            lemma_find_char_shift(v, c, i, from + 1);
        }
    }
}

/// The text `${name}`.
pub open spec fn reference_to(name: Seq<char>) -> Seq<char> {
    seq!['$', '{'] + name + seq!['}']
}

proof fn lemma_reference_end(name: Seq<char>)
    requires
        name.len() > 0,
        forall|k: int| 0 <= k < name.len() ==> name[k] != '}',
    ensures
        ref_end(reference_to(name), 0) == 2 + name.len(),
        reference_to(name).subrange(2, 2 + name.len() as int) == name,
        reference_to(name).subrange(3 + name.len() as int, reference_to(name).len() as int) == Seq::<char>::empty(),
{
    let v = reference_to(name);
    let e = 2 + name.len() as int;
    lemma_find_char(v, '}', 2);
    let f = find_char(v, '}', 2);
    assert(v[e] == '}');
    if f < e {
        assert(v[f] == name[f - 2]);
    }
    if f > e {
        assert(v[e] != '}');
    }
    assert(v.subrange(2, e) =~= name);
    assert(v.subrange(3 + name.len() as int, v.len() as int) =~= Seq::<char>::empty());
}

/// Two keys whose values refer to each other (`A = ${B}`, `B = ${A}`) do not make
/// resolution run forever: after `depth` steps it stops, and what comes out is the
/// default of the outermost lookup.
pub proof fn lemma_reference_cycle(
    d: Map<Seq<char>, Map<Seq<char>, Seq<char>>>,
    sec: Seq<char>,
    a: Seq<char>,
    b: Seq<char>,
    default: Seq<char>,
    depth: nat,
)
    requires
        d.contains_key(sec),
        d[sec].contains_key(a),
        d[sec].contains_key(b),
        d[sec][a] == reference_to(b),
        d[sec][b] == reference_to(a),
        a.len() > 0,
        b.len() > 0,
        forall|k: int| 0 <= k < a.len() ==> a[k] != '}' && a[k] != ':',
        forall|k: int| 0 <= k < b.len() ==> b[k] != '}' && b[k] != ':',
    ensures
        value_in(d, sec, a, default, depth) == default,
{
    lemma_cycle_exhausts(d, sec, a, b, default, default, depth);
}

proof fn lemma_cycle_exhausts(
    d: Map<Seq<char>, Map<Seq<char>, Seq<char>>>,
    sec: Seq<char>,
    a: Seq<char>,
    b: Seq<char>,
    missing: Seq<char>,
    exhausted: Seq<char>,
    depth: nat,
)
    requires
        d.contains_key(sec),
        d[sec].contains_key(a),
        d[sec].contains_key(b),
        d[sec][a] == reference_to(b),
        d[sec][b] == reference_to(a),
        a.len() > 0,
        b.len() > 0,
        forall|k: int| 0 <= k < a.len() ==> a[k] != '}' && a[k] != ':',
        forall|k: int| 0 <= k < b.len() ==> b[k] != '}' && b[k] != ':',
    ensures
        resolve(d, sec, a, missing, exhausted, depth) == exhausted,
    decreases depth,
{
    if depth > 0 {
        let v = reference_to(b);
        lemma_reference_end(b);
        lemma_find_char(b, ':', 0);
        lemma_cycle_exhausts(d, sec, b, a, Seq::empty(), exhausted, (depth - 1) as nat);
        assert(ref_value(d, sec, b, exhausted, (depth - 1) as nat) == exhausted);
        assert(expand(d, sec, Seq::<char>::empty(), exhausted, depth) == Seq::<char>::empty());
        assert(expand(d, sec, v, exhausted, depth) =~= exhausted);
    }
}

/// Resolving a section is a function of the data, the section and the depth: two
/// resolutions with the same arguments give the same map.
pub proof fn lemma_resolved_section_stable(
    d: Map<Seq<char>, Map<Seq<char>, Seq<char>>>,
    sec: Seq<char>,
    depth: nat,
    first: Map<Seq<char>, Seq<char>>,
    second: Map<Seq<char>, Seq<char>>,
)
    requires
        first == resolved_section(d, sec, depth),
        second == resolved_section(d, sec, depth),
    ensures
        first == second,
        forall|k: Seq<char>| #[trigger] first.contains_key(k) ==> first[k] == value_in(d, sec, k, Seq::empty(), depth),
{
}

impl Default for IniParserEx {
    fn default() -> (r: IniParserEx)
        ensures
            r@ == Map::<Seq<char>, Map<Seq<char>, Seq<char>>>::empty(),
    {
        IniParserEx::new()
    }
}

} // verus!
