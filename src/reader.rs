use vstd::prelude::*;
use crate::grammar::{has_lit, lit_at};
use crate::text::{chars_of, string_of_range, trim, trim_spec};
use crate::token::{Item, Token};

verus! {

/// Index of the first `c` in `s` at or after `from`, or `s.len()`.
pub open spec fn find_char(s: Seq<char>, c: char, from: int) -> int
    decreases s.len() - from,
{
    if from < 0 || from >= s.len() {
        s.len() as int
    } else if s[from] == c {
        from
    } else {
        find_char(s, c, from + 1)
    }
}

pub proof fn lemma_find_char(s: Seq<char>, c: char, from: int)
    requires
        0 <= from <= s.len(),
    ensures
        from <= find_char(s, c, from) <= s.len(),
        find_char(s, c, from) < s.len() ==> s[find_char(s, c, from)] == c,
        forall|k: int| from <= k < find_char(s, c, from) ==> s[k] != c,
    decreases s.len() - from,
{
    if from < s.len() && s[from] != c {
        lemma_find_char(s, c, from + 1);
    }
}

/// `s` without one trailing carriage return.
pub open spec fn strip_cr(s: Seq<char>) -> Seq<char> {
    if s.len() > 0 && s.last() == '\r' {
        s.drop_last()
    } else {
        s
    }
}

/// The lines of `s`: split at each line feed, a carriage return before it dropped; a line
/// feed at the very end opens no further line.
pub open spec fn split_lines(s: Seq<char>) -> Seq<Seq<char>>
    decreases s.len(),
{
    if s.len() == 0 {
        Seq::empty()
    } else {
        let i = find_char(s, '\n', 0);
        if i < 0 || i >= s.len() {
            seq![strip_cr(s)]
        } else {
            seq![strip_cr(s.subrange(0, i))] + split_lines(s.subrange(i + 1, s.len() as int))
        }
    }
}

/// `s` without a leading byte-order mark.
pub open spec fn strip_bom(s: Seq<char>) -> Seq<char> {
    if s.len() > 0 && s[0] == '\u{feff}' {
        s.drop_first()
    } else {
        s
    }
}

pub open spec fn ends_with_lit(s: Seq<char>, lit: Seq<char>) -> bool {
    lit.len() <= s.len() && has_lit(s, s.len() - lit.len(), lit)
}

/// A trimmed line opens a block comment.
pub open spec fn opens_block(t: Seq<char>) -> bool {
    has_lit(t, 0, "---"@)
}

/// A trimmed line closes a block comment.
pub open spec fn closes_block(t: Seq<char>) -> bool {
    ends_with_lit(t, "!--"@)
}

/// The statement text of a trimmed line outside comments: what precedes the first `#`,
/// trimmed.
pub open spec fn statement_text(t: Seq<char>) -> Seq<char> {
    trim_spec(t.subrange(0, find_char(t, '#', 0)))
}

/// The statements that `lines` hold, `in_block` telling whether a block comment is open.
pub open spec fn statements(lines: Seq<Seq<char>>, in_block: bool) -> Seq<Seq<char>>
    decreases lines.len(),
{
    if lines.len() == 0 {
        Seq::empty()
    } else {
        let t = trim_spec(lines[0]);
        let rest = lines.drop_first();
        if in_block {
            statements(rest, !closes_block(t))
        } else if opens_block(t) {
            statements(rest, true)
        } else if t.len() == 0 || t[0] == '#' {
            statements(rest, false)
        } else {
            seq![statement_text(t)] + statements(rest, false)
        }
    }
}

/// The statement lines of a script text.
pub open spec fn script_lines(text: Seq<char>) -> Seq<Seq<char>> {
    statements(split_lines(strip_bom(text)), false)
}

/// Splits `text` into lines as `split_lines` says.
pub fn lines_of_text(text: &str) -> (r: Vec<String>)
    ensures
        r@.map_values(|l: String| l@) == split_lines(text@),
{
    let cs = chars_of(text);
    let n = cs.len();
    let mut r: Vec<String> = Vec::new();
    let mut start: usize = 0;
    proof {
        assert(cs@.subrange(0, n as int) =~= cs@);
    }
    while start < n
        invariant
            n == cs@.len(),
            cs@ == text@,
            start <= n,
            split_lines(text@) == r@.map_values(|l: String| l@) + split_lines(
                cs@.subrange(start as int, n as int),
            ),
        decreases n - start,
    {
        let ghost rest = cs@.subrange(start as int, n as int);
        let mut i = start;
        while i < n && cs[i] != '\n'
            invariant
                start <= i <= n,
                n == cs@.len(),
                rest == cs@.subrange(start as int, n as int),
                find_char(rest, '\n', 0) == find_char(rest, '\n', i - start),
            decreases n - i,
        {
            assert(rest[i - start] == cs@[i as int]);
            i = i + 1;
        }
        proof {
            if i < n {
                assert(rest[i - start] == cs@[i as int]);
            }
            assert(find_char(rest, '\n', 0) == i - start);
            assert(rest.subrange(0, i - start) =~= cs@.subrange(start as int, i as int));
        }
        let mut end = i;
        if end > start && cs[end - 1] == '\r' {
            end = end - 1;
        }
        let line = string_of_range(&cs, start, end);
        proof {
            assert(line@ == strip_cr(cs@.subrange(start as int, i as int)));
        }
        let ghost before = r@;
        r.push(line);
        proof {
            assert(r@.map_values(|l: String| l@) =~= before.map_values(|l: String| l@).push(
                line@,
            ));
        }
        if i >= n {
            proof {
                assert(rest.subrange(0, i - start) =~= rest);
                assert(cs@.subrange(n as int, n as int) =~= Seq::<char>::empty());
                assert(split_lines(rest) == seq![line@]);
                assert(split_lines(text@) =~= r@.map_values(|l: String| l@) + split_lines(
                    cs@.subrange(n as int, n as int),
                ));
            }
            start = n;
        } else {
            proof {
                assert(rest.subrange(i - start + 1, rest.len() as int) =~= cs@.subrange(
                    i + 1,
                    n as int,
                ));
                assert(split_lines(text@) =~= r@.map_values(|l: String| l@) + split_lines(
                    cs@.subrange(i + 1, n as int),
                ));
            }
            start = i + 1;
        }
    }
    proof {
        assert(cs@.subrange(n as int, n as int) =~= Seq::<char>::empty());
        assert(r@.map_values(|l: String| l@) =~= r@.map_values(|l: String| l@) + Seq::<
            Seq<char>,
        >::empty());
    }
    r
}

/// `t` ends with `lit`.
fn ends_with(t: &Vec<char>, lit: &str) -> (r: bool)
    ensures
        r == ends_with_lit(t@, lit@),
{
    let l = chars_of(lit);
    if l.len() > t.len() {
        return false;
    }
    lit_at(t, t.len() - l.len(), lit)
}

/// The statement text of a trimmed line.
fn statement_of(t: &Vec<char>) -> (r: String)
    ensures
        r@ == statement_text(t@),
{
    let n = t.len();
    let mut i: usize = 0;
    while i < n && t[i] != '#'
        invariant
            i <= n,
            n == t@.len(),
            find_char(t@, '#', 0) == find_char(t@, '#', i as int),
        decreases n - i,
    {
        i = i + 1;
    }
    let left = string_of_range(t, 0, i);
    trim(left.as_str())
}

/// Reads scripts out of their text.
pub struct ScriptReader {
    scriptpathname: String,
}

impl ScriptReader {
    pub fn new(scriptpathname: &str) -> (r: ScriptReader)
        ensures
            r.path_view() == scriptpathname@,
    {
        ScriptReader { scriptpathname: scriptpathname.to_owned() }
    }

    pub closed spec fn path_view(&self) -> Seq<char> {
        self.scriptpathname@
    }

    /// Where the script is read from.
    pub fn path(&self) -> (r: &str)
        ensures
            r@ == self.path_view(),
    {
        self.scriptpathname.as_str()
    }

    /// Appends to `output` one unclassified token per statement of `text`, in order, and
    /// returns the new length of `output`.
    pub fn read_script_text(&self, text: &str, output: &mut Vec<Item>) -> (r: usize)
        ensures
            final(output)@.len() == r,
            r == old(output)@.len() + script_lines(text@).len(),
            forall|i: int|
                0 <= i < old(output)@.len() ==> #[trigger] final(output)@[i] == old(output)@[i],
            forall|i: int|
                0 <= i < script_lines(text@).len() ==> (#[trigger] final(output)@[old(
                    output,
                )@.len() + i]).line@ == script_lines(text@)[i] && final(output)@[old(
                    output,
                )@.len() + i].token_type@ == Token::Unclassified,
    {
        let cs = chars_of(text);
        let body = if cs.len() > 0 && cs[0] == '\u{feff}' {
            string_of_range(&cs, 1, cs.len())
        } else {
            string_of_range(&cs, 0, cs.len())
        };
        proof {
            assert(cs@.subrange(0, cs@.len() as int) =~= cs@);
            assert(cs@.len() > 0 ==> cs@.subrange(1, cs@.len() as int) =~= cs@.drop_first());
        }
        let lines = lines_of_text(body.as_str());
        let ghost lv = lines@.map_values(|l: String| l@);
        let ghost base = output@;
        let ghost mut got: Seq<Seq<char>> = Seq::empty();
        let mut in_block = false;
        let n = lines.len();
        proof {
            assert(lv.subrange(0, n as int) =~= lv);
        }
        let mut k: usize = 0;
        while k < n
            invariant
                n == lines@.len(),
                lv == lines@.map_values(|l: String| l@),
                lv == split_lines(strip_bom(text@)),
                k <= n,
                base == old(output)@,
                output@.len() == base.len() + got.len(),
                forall|i: int| 0 <= i < base.len() ==> #[trigger] output@[i] == base[i],
                forall|i: int|
                    0 <= i < got.len() ==> (#[trigger] output@[base.len() + i]).line@ == got[i]
                        && output@[base.len() + i].token_type@ == Token::Unclassified,
                statements(lv, false) == got + statements(lv.subrange(k as int, n as int), in_block),
            decreases n - k,
        {
            let ghost rest = lv.subrange(k as int, n as int);
            proof {
                assert(rest[0] == lines@[k as int]@);
                assert(rest.drop_first() =~= lv.subrange(k + 1, n as int));
            }
            let t = trim(lines[k].as_str());
            let tc = chars_of(t.as_str());
            if in_block {
                in_block = !ends_with(&tc, "!--");
            } else if lit_at(&tc, 0, "---") {
                in_block = true;
            } else if tc.len() == 0 || tc[0] == '#' {
            } else {
                let s = statement_of(&tc);
                output.push(Item::new(s));
                proof {
                    assert(got.push(s@) + statements(rest.drop_first(), false) =~= got + (seq![
                        s@,
                    ] + statements(rest.drop_first(), false)));
                    got = got.push(s@);
                }
            }
            k = k + 1;
        }
        proof {
            assert(lv.subrange(n as int, n as int) =~= Seq::<Seq<char>>::empty());
            assert(got =~= got + Seq::<Seq<char>>::empty());
        }
        output.len()
    }
}

/// Reading the same text twice gives the same tokens: the tokens that `read_script_text`
/// appends are fixed by the text alone.
pub proof fn lemma_read_deterministic(text: Seq<char>, a: Seq<Item>, b: Seq<Item>)
    requires
        a.len() == script_lines(text).len(),
        b.len() == script_lines(text).len(),
        forall|i: int|
            0 <= i < a.len() ==> (#[trigger] a[i]).line@ == script_lines(text)[i]
                && a[i].token_type@ == Token::Unclassified,
        forall|i: int|
            0 <= i < b.len() ==> (#[trigger] b[i]).line@ == script_lines(text)[i]
                && b[i].token_type@ == Token::Unclassified,
    ensures
        crate::parser::lines_of(a) == crate::parser::lines_of(b),
        crate::token::kinds(a) == crate::token::kinds(b),
{
    assert(crate::parser::lines_of(a) =~= crate::parser::lines_of(b));
    assert(crate::token::kinds(a) =~= crate::token::kinds(b));
}

/// Inside a block comment that no later line closes, no line gives a statement.
pub proof fn lemma_unclosed_block(lines: Seq<Seq<char>>)
    requires
        forall|k: int| 0 <= k < lines.len() ==> !closes_block(trim_spec(#[trigger] lines[k])),
    ensures
        statements(lines, true) == Seq::<Seq<char>>::empty(),
    decreases lines.len(),
{
    if lines.len() > 0 {
        assert(!closes_block(trim_spec(lines[0])));
        assert forall|k: int| 0 <= k < lines.drop_first().len() implies !closes_block(
            trim_spec(#[trigger] lines.drop_first()[k]),
        ) by {
            assert(lines.drop_first()[k] == lines[k + 1]);
        }
        lemma_unclosed_block(lines.drop_first());
    }
}

/// A line that opens a block comment which no later line closes gives no statement, and
/// neither does any line after it.
pub proof fn lemma_unclosed_block_from(opener: Seq<char>, rest: Seq<Seq<char>>)
    requires
        opens_block(trim_spec(opener)),
        forall|k: int| 0 <= k < rest.len() ==> !closes_block(trim_spec(#[trigger] rest[k])),
    ensures
        statements(seq![opener] + rest, false) == Seq::<Seq<char>>::empty(),
{
    let lines = seq![opener] + rest;
    assert(lines.drop_first() =~= rest);
    lemma_unclosed_block(rest);
}

/// Whether a block comment is open after `lines`, starting with `in_block`.
pub open spec fn block_after(lines: Seq<Seq<char>>, in_block: bool) -> bool
    decreases lines.len(),
{
    if lines.len() == 0 {
        in_block
    } else {
        let t = trim_spec(lines[0]);
        let next = if in_block {
            !closes_block(t)
        } else if opens_block(t) {
            true
        } else {
            false
        };
        block_after(lines.drop_first(), next)
    }
}

pub proof fn lemma_statements_concat(a: Seq<Seq<char>>, b: Seq<Seq<char>>, in_block: bool)
    ensures
        statements(a + b, in_block) == statements(a, in_block) + statements(b, block_after(a, in_block)),
    decreases a.len(),
{
    if a.len() == 0 {
        assert(a + b =~= b);
    } else {
        assert((a + b).drop_first() =~= a.drop_first() + b);
        assert((a + b)[0] == a[0]);
        let t = trim_spec(a[0]);
        let next = if in_block {
            !closes_block(t)
        } else if opens_block(t) {
            true
        } else {
            false
        };
        lemma_statements_concat(a.drop_first(), b, next);
        if !in_block && !opens_block(t) && !(t.len() == 0 || t[0] == '#') {
            assert(seq![statement_text(t)] + statements(a.drop_first(), false) + statements(b, block_after(a, in_block))
                =~= seq![statement_text(t)] + (statements(a.drop_first(), false) + statements(b, block_after(a, in_block))));
        }
    }
}

/// A block comment that is opened outside a block and never closed swallows the rest of
/// the script: the lines from the opening one on give no statement, and the script gives
/// just the statements of the lines before it.
pub proof fn lemma_unclosed_block_in_script(before: Seq<Seq<char>>, opener: Seq<char>, rest: Seq<Seq<char>>)
    requires
        !block_after(before, false),
        opens_block(trim_spec(opener)),
        forall|k: int| 0 <= k < rest.len() ==> !closes_block(trim_spec(#[trigger] rest[k])),
    ensures
        statements(before + (seq![opener] + rest), false) == statements(before, false),
{
    lemma_statements_concat(before, seq![opener] + rest, false);
    lemma_unclosed_block_from(opener, rest);
    assert(statements(before, false) + Seq::<Seq<char>>::empty() =~= statements(before, false));
}

} // verus!
