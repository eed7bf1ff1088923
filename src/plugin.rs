use vstd::prelude::*;
use crate::reader::find_char;
use crate::string_map::StringMap;
use crate::text::{chars_of, trim, trim_spec};

verus! {

/// Key of `get_params` under which a plugin lists its commands.
pub const PARAMS_GET_CMDS_KEY: &'static str = "cmds";

/// Key of `get_params` under which a plugin gives its version.
pub const PARAMS_GET_VERS_KEY: &'static str = "vers";

/// Configuration key that makes a plugin fault tolerant.
pub const PARAMS_FAULT_TOLERANT: &'static str = "FAULT_TOLERANT";

/// Configuration key that makes a plugin privileged.
pub const PARAMS_PRIVILEGED: &'static str = "PRIVILEGED";

/// What a plugin reports about itself: keys with lists of values.
pub type ParamsGet = Vec<(String, Vec<String>)>;

/// The operations of a plugin, as the host sees them.
pub trait PluginInterface {
    /// One-time preparation; may fail.
    fn do_init(&mut self) -> bool;

    /// Moves to the enabled state.
    fn do_enable(&mut self);

    /// Runs a command; on success the plugin's data holds the result.
    fn do_dispatch(&mut self, cmd: &str, args: &str) -> bool;

    /// Releases command-scoped resources.
    fn do_cleanup(&mut self);

    /// Installs configuration keys and values.
    fn set_params(&mut self, params: &StringMap) -> bool;

    /// Reports metadata: the commands under `cmds`, the version under `vers`.
    fn get_params(&self, params: &mut ParamsGet);

    /// The latest result.
    fn get_data(&self) -> String;

    /// Empties the result.
    fn reset_data(&mut self);

    fn is_initialized(&self) -> bool;

    fn is_enabled(&self) -> bool;

    fn is_privileged(&self) -> bool;

    fn is_fault_tolerant(&self) -> bool;
}

/// A dispatch counts as a success when the command succeeded or the plugin is fault
/// tolerant.
pub fn dispatch_succeeded(succeeded: bool, fault_tolerant: bool) -> (r: bool)
    ensures
        r == (succeeded || fault_tolerant),
{
    succeeded || fault_tolerant
}

/// Runs `cmd` on `plugin`, a failure of a fault-tolerant plugin counting as success.
pub fn plugin_dispatch<P: PluginInterface>(plugin: &mut P, cmd: &str, args: &str) -> bool {
    let succeeded = plugin.do_dispatch(cmd, args);
    let fault_tolerant = plugin.is_fault_tolerant();
    dispatch_succeeded(succeeded, fault_tolerant)
}

/// The values listed under `key`.
pub fn params_lookup<'a>(params: &'a ParamsGet, key: &str) -> (r: Option<&'a Vec<String>>)
    ensures
        match r {
            Some(v) => exists|i: int|
                0 <= i < params@.len() && params@[i].0@ == key@ && params@[i].1 == *v,
            None => forall|i: int| 0 <= i < params@.len() ==> params@[i].0@ != key@,
        },
{
    let mut i: usize = 0;
    while i < params.len()
        invariant
            i <= params@.len(),
            forall|k: int| 0 <= k < i ==> params@[k].0@ != key@,
        decreases params@.len() - i,
    {
        if crate::text::str_eq(params[i].0.as_str(), key) {
            return Some(&params[i].1);
        }
        i = i + 1;
    }
    None
}

/// Code of `c` with ASCII capitals taken as small letters.
pub open spec fn ascii_lower(c: char) -> u32 {
    if 'A' <= c && c <= 'Z' {
        (c as u32 + 32) as u32
    } else {
        c as u32
    }
}

/// `s` equals `lit` up to ASCII case.
pub open spec fn eq_ignore_ascii_case(s: Seq<char>, lit: Seq<char>) -> bool {
    s.len() == lit.len() && forall|i: int| 0 <= i < s.len() ==> ascii_lower(#[trigger] s[i]) == ascii_lower(lit[i])
}

fn lower_char(c: char) -> (r: u32)
    ensures
        r == ascii_lower(c),
{
    if 'A' <= c && c <= 'Z' {
        (c as u32) + 32
    } else {
        c as u32
    }
}

/// Whether `s` equals `lit` up to ASCII case.
pub fn eq_ascii_case(s: &str, lit: &str) -> (r: bool)
    ensures
        r == eq_ignore_ascii_case(s@, lit@),
{
    let a = chars_of(s);
    let b = chars_of(lit);
    if a.len() != b.len() {
        return false;
    }
    let mut i: usize = 0;
    while i < a.len()
        invariant
            a@ == s@,
            b@ == lit@,
            a@.len() == b@.len(),
            i <= a@.len(),
            forall|k: int| 0 <= k < i ==> ascii_lower(#[trigger] a@[k]) == ascii_lower(b@[k]),
        decreases a@.len() - i,
    {
        if lower_char(a[i]) != lower_char(b[i]) {
            return false;
        }
        i = i + 1;
    }
    true
}

/// The boolean that a configuration value spells: `true` or `false` in any ASCII case,
/// white space around it ignored.
pub open spec fn bool_of(s: Seq<char>) -> Option<bool> {
    if eq_ignore_ascii_case(trim_spec(s), "true"@) {
        Some(true)
    } else if eq_ignore_ascii_case(trim_spec(s), "false"@) {
        Some(false)
    } else {
        None
    }
}

/// Reads a boolean into `out`; returns whether `input` spelled one. `out` is left as it
/// was otherwise.
pub fn string_to_bool(input: &str, out: &mut bool) -> (r: bool)
    ensures
        r == bool_of(input@) is Some,
        r ==> *final(out) == bool_of(input@)->0,
        !r ==> *final(out) == *old(out),
{
    let s = trim(input);
    if eq_ascii_case(s.as_str(), "true") {
        *out = true;
        true
    } else if eq_ascii_case(s.as_str(), "false") {
        *out = false;
        true
    } else {
        false
    }
}

/// Value of a string of ASCII digits.
pub open spec fn digits_value(s: Seq<char>) -> nat
    decreases s.len(),
{
    if s.len() == 0 {
        0
    } else {
        digits_value(s.drop_last()) * 10 + ((s.last() as u32) - ('0' as u32)) as nat
    }
}

pub open spec fn all_digits(s: Seq<char>) -> bool {
    forall|i: int| 0 <= i < s.len() ==> '0' <= #[trigger] s[i] && s[i] <= '9'
}

/// What `str::parse::<u64>` reads from `s`: an optional `+` and one or more ASCII digits
/// whose value fits; `None` otherwise.
pub open spec fn parse_u64(s: Seq<char>) -> Option<nat> {
    let d = if s.len() > 0 && s[0] == '+' {
        s.drop_first()
    } else {
        s
    };
    if d.len() > 0 && all_digits(d) && digits_value(d) <= u64::MAX {
        Some(digits_value(d))
    } else {
        None
    }
}

/// The parts of `s` between dots.
pub open spec fn split_dots(s: Seq<char>) -> Seq<Seq<char>>
    decreases s.len(),
{
    let i = find_char(s, '.', 0);
    if i < 0 || i >= s.len() {
        seq![s]
    } else {
        seq![s.subrange(0, i)] + split_dots(s.subrange(i + 1, s.len() as int))
    }
}

/// The numbers of a version string; a part that is no number counts as 0.
pub open spec fn version_numbers(s: Seq<char>) -> Seq<nat> {
    split_dots(s).map_values(
        |p: Seq<char>|
            match parse_u64(p) {
                Some(v) => v,
                None => 0nat,
            },
    )
}

pub open spec fn at_or_zero(a: Seq<nat>, i: int) -> nat {
    if 0 <= i < a.len() {
        a[i]
    } else {
        0
    }
}

/// Compares `a` and `b` from position `i` on, the shorter padded with zeros: -1, 0 or 1.
pub open spec fn compare_from(a: Seq<nat>, b: Seq<nat>, i: int) -> int
    decreases a.len() + b.len() - i,
{
    if i < 0 || (i >= a.len() && i >= b.len()) {
        0
    } else if at_or_zero(a, i) < at_or_zero(b, i) {
        -1
    } else if at_or_zero(a, i) > at_or_zero(b, i) {
        1
    } else {
        compare_from(a, b, i + 1)
    }
}

/// The comparison rules that `compare_versions` knows.
pub open spec fn is_rule(rule: Seq<char>) -> bool {
    rule == "<"@ || rule == "<="@ || rule == "=="@ || rule == "!="@ || rule == ">"@ || rule == ">="@
}

/// Whether the ordering `ord` (-1, 0, 1) satisfies `rule`.
pub open spec fn rule_holds(ord: int, rule: Seq<char>) -> bool {
    if rule == "<"@ {
        ord == -1
    } else if rule == "<="@ {
        ord != 1
    } else if rule == "=="@ {
        ord == 0
    } else if rule == "!="@ {
        ord != 0
    } else if rule == ">"@ {
        ord == 1
    } else {
        ord != -1
    }
}

proof fn lemma_digits_value_grows(s: Seq<char>, n: int)
    requires
        0 <= n <= s.len(),
        all_digits(s),
    ensures
        digits_value(s.subrange(0, n)) <= digits_value(s),
    decreases s.len() - n,
{
    if n < s.len() {
        let t = s.subrange(0, n + 1);
        assert(t.drop_last() =~= s.subrange(0, n));
        assert(t.subrange(0, n + 1) =~= t);
        lemma_digits_value_grows(s, n + 1);
        assert(s.subrange(0, n + 1) == t);
    } else {
        assert(s.subrange(0, n) =~= s);
    }
}

/// What `str::parse::<u64>` gives for `s`, and 0 where it fails.
pub fn parse_u64_or_zero(s: &Vec<char>, from: usize, to: usize) -> (r: u64)
    requires
        from <= to <= s@.len(),
    ensures
        r == match parse_u64(s@.subrange(from as int, to as int)) {
            Some(v) => v,
            None => 0nat,
        },
{
    let ghost p = s@.subrange(from as int, to as int);
    let mut i = from;
    if i < to && s[i] == '+' {
        i = i + 1;
    }
    let ghost d = s@.subrange(i as int, to as int);
    proof {
        assert(p.len() > 0 ==> p[0] == s@[from as int]);
        if p.len() > 0 && p[0] == '+' {
            assert(d =~= p.drop_first());
        } else {
            assert(d =~= p);
        }
    }
    if i == to {
        return 0;
    }
    let mut acc: u64 = 0;
    let mut k = i;
    while k < to
        invariant
            i <= k <= to <= s@.len(),
            d == s@.subrange(i as int, to as int),
            p == s@.subrange(from as int, to as int),
            d == (if p.len() > 0 && p[0] == '+' {
                p.drop_first()
            } else {
                p
            }),
            d.len() > 0,
            all_digits(s@.subrange(i as int, k as int)),
            acc == digits_value(s@.subrange(i as int, k as int)),
        decreases to - k,
    {
        let c = s[k];
        if !('0' <= c && c <= '9') {
            proof {
                assert(d[k - i] == c);
            }
            return 0;
        }
        let digit = (c as u32 - '0' as u32) as u64;
        let ghost prev = s@.subrange(i as int, k as int);
        let ghost next = s@.subrange(i as int, k + 1);
        proof {
            assert(next.drop_last() =~= prev);
            assert(next.last() == c);
            assert(all_digits(next)) by {
                assert forall|m: int| 0 <= m < next.len() implies '0' <= #[trigger] next[m] && next[m] <= '9' by {
                    if m < prev.len() {
                        assert(next[m] == prev[m]);
                    }
                }
            }
        }
        if acc > (u64::MAX - digit) / 10 {
            proof {
                assert(acc * 10 + digit > u64::MAX) by (nonlinear_arith)
                    requires
                        acc > (u64::MAX - digit) / 10,
                        digit <= 9,
                ;
                assert(d.subrange(0, k + 1 - i) =~= next);
                if all_digits(d) {
                    lemma_digits_value_grows(d, k + 1 - i);
                }
            }
            return 0;
        }
        proof {
            assert(acc * 10 + digit <= u64::MAX) by (nonlinear_arith)
                requires
                    acc <= (u64::MAX - digit) / 10,
                    digit <= 9,
            ;
        }
        acc = acc * 10 + digit;
        k = k + 1;
    }
    acc
}

/// Splits a version string at its dots and reads each part as a number.
fn version_parts(v: &str) -> (r: Vec<u64>)
    ensures
        r@.map_values(|x: u64| x as nat) == version_numbers(v@),
{
    let cs = chars_of(v);
    let n = cs.len();
    let mut r: Vec<u64> = Vec::new();
    let mut start: usize = 0;
    proof {
        assert(cs@.subrange(0, n as int) =~= cs@);
        assert(r@.map_values(|x: u64| x as nat) + version_numbers(cs@) =~= version_numbers(cs@));
    }
    loop
        invariant
            n == cs@.len(),
            cs@ == v@,
            start <= n,
            version_numbers(v@) == r@.map_values(|x: u64| x as nat) + version_numbers(
                cs@.subrange(start as int, n as int),
            ),
        decreases n - start,
    {
        let ghost rest = cs@.subrange(start as int, n as int);
        let mut i = start;
        while i < n && cs[i] != '.'
            invariant
                start <= i <= n,
                n == cs@.len(),
                rest == cs@.subrange(start as int, n as int),
                find_char(rest, '.', 0) == find_char(rest, '.', i - start),
            decreases n - i,
        {
            assert(rest[i - start] == cs@[i as int]);
            i = i + 1;
        }
        proof {
            if i < n {
                assert(rest[i - start] == cs@[i as int]);
            }
            assert(rest.subrange(0, i - start) =~= cs@.subrange(start as int, i as int));
        }
        let x = parse_u64_or_zero(&cs, start, i);
        let ghost before = r@;
        r.push(x);
        proof {
            assert(r@.map_values(|x: u64| x as nat) =~= before.map_values(|x: u64| x as nat).push(x as nat));
        }
        if i >= n {
            proof {
                assert(rest.subrange(0, i - start) =~= rest);
                assert(version_numbers(rest) =~= seq![x as nat]);
                assert(version_numbers(v@) =~= r@.map_values(|x: u64| x as nat));
            }
            return r;
        }
        proof {
            assert(rest.subrange(i - start + 1, rest.len() as int) =~= cs@.subrange(i + 1, n as int));
            assert(version_numbers(rest) =~= seq![x as nat] + version_numbers(cs@.subrange(i + 1, n as int)));
            assert(version_numbers(v@) =~= r@.map_values(|x: u64| x as nat) + version_numbers(
                cs@.subrange(i + 1, n as int),
            ));
        }
        start = i + 1;
    }
}

/// Compares two version strings (`"1.2.3"`, `"2.0"`) with `rule`, one of `<`, `<=`, `==`,
/// `!=`, `>`, `>=`. Numbers are compared from the left, a missing one counting as 0.
pub fn compare_versions(v1: &str, rule: &str, v2: &str) -> (r: bool)
    requires
        is_rule(rule@),
    ensures
        r == rule_holds(compare_from(version_numbers(v1@), version_numbers(v2@), 0), rule@),
{
    let a = version_parts(v1);
    let b = version_parts(v2);
    let ghost av = a@.map_values(|x: u64| x as nat);
    let ghost bv = b@.map_values(|x: u64| x as nat);
    let len = if a.len() > b.len() {
        a.len()
    } else {
        b.len()
    };
    let mut ord: i8 = 0;
    let mut i: usize = 0;
    while i < len
        invariant_except_break
            ord == 0,
        invariant
            len == if a@.len() > b@.len() {
                a@.len()
            } else {
                b@.len()
            },
            av == a@.map_values(|x: u64| x as nat),
            bv == b@.map_values(|x: u64| x as nat),
            i <= len,
            compare_from(av, bv, 0) == compare_from(av, bv, i as int),
        ensures
            ord as int == compare_from(av, bv, 0),
        decreases len - i,
    {
        let x: u64 = if i < a.len() {
            a[i]
        } else {
            0
        };
        let y: u64 = if i < b.len() {
            b[i]
        } else {
            0
        };
        assert(x as nat == at_or_zero(av, i as int));
        assert(y as nat == at_or_zero(bv, i as int));
        if x < y {
            ord = -1;
            break;
        } else if x > y {
            ord = 1;
            break;
        }
        i = i + 1;
    }
    if str_is(rule, "<") {
        ord == -1
    } else if str_is(rule, "<=") {
        ord != 1
    } else if str_is(rule, "==") {
        ord == 0
    } else if str_is(rule, "!=") {
        ord != 0
    } else if str_is(rule, ">") {
        ord == 1
    } else {
        ord != -1
    }
}

fn str_is(a: &str, b: &str) -> (r: bool)
    ensures
        r == (a@ == b@),
{
    crate::text::str_eq(a, b)
}

} // verus!
