use vstd::prelude::*;
use crate::text::{chars_of, is_prefix, prefix_at};

verus! {

/// Classes of characters that the script grammar uses.
#[derive(Clone, Copy, PartialEq, Eq, Structural)]
pub enum CharClass {
    /// space or tab
    Blank,
    /// `A-Z`
    Upper,
    /// `0-9`
    Digit,
    /// `A-Z 0-9 _`: plugin names and the tail of command names
    PluginChar,
    /// `A-Z a-z _`: first character of a macro name
    IdentStart,
    /// `A-Z a-z 0-9 _`: macro names and labels
    Word,
}

pub open spec fn in_class(cl: CharClass, c: char) -> bool {
    match cl {
        CharClass::Blank => c == ' ' || c == '\t',
        CharClass::Upper => 'A' <= c && c <= 'Z',
        CharClass::Digit => '0' <= c && c <= '9',
        CharClass::PluginChar => ('A' <= c && c <= 'Z') || ('0' <= c && c <= '9') || c == '_',
        CharClass::IdentStart => ('A' <= c && c <= 'Z') || ('a' <= c && c <= 'z') || c == '_',
        CharClass::Word => ('A' <= c && c <= 'Z') || ('a' <= c && c <= 'z') || ('0' <= c && c
            <= '9') || c == '_',
    }
}

pub fn is_in_class(cl: CharClass, c: char) -> (r: bool)
    ensures
        r == in_class(cl, c),
{
    match cl {
        CharClass::Blank => c == ' ' || c == '\t',
        CharClass::Upper => 'A' <= c && c <= 'Z',
        CharClass::Digit => '0' <= c && c <= '9',
        CharClass::PluginChar => ('A' <= c && c <= 'Z') || ('0' <= c && c <= '9') || c == '_',
        CharClass::IdentStart => ('A' <= c && c <= 'Z') || ('a' <= c && c <= 'z') || c == '_',
        CharClass::Word => ('A' <= c && c <= 'Z') || ('a' <= c && c <= 'z') || ('0' <= c && c
            <= '9') || c == '_',
    }
}

/// End of the longest run of `cl` characters of `s` that starts at `i`.
pub open spec fn span(s: Seq<char>, i: int, cl: CharClass) -> int
    decreases s.len() - i,
{
    if 0 <= i < s.len() && in_class(cl, s[i]) {
        span(s, i + 1, cl)
    } else {
        i
    }
}

pub proof fn lemma_span(s: Seq<char>, i: int, cl: CharClass)
    requires
        0 <= i <= s.len(),
    ensures
        i <= span(s, i, cl) <= s.len(),
        forall|k: int| i <= k < span(s, i, cl) ==> in_class(cl, #[trigger] s[k]),
        span(s, i, cl) < s.len() ==> !in_class(cl, s[span(s, i, cl)]),
    decreases s.len() - i,
{
    if i < s.len() && in_class(cl, s[i]) {
        lemma_span(s, i + 1, cl);
    }
}

pub fn span_of(cs: &Vec<char>, i: usize, cl: CharClass) -> (r: usize)
    requires
        i <= cs@.len(),
    ensures
        r == span(cs@, i as int, cl),
        i <= r <= cs@.len(),
{
    proof {
        lemma_span(cs@, i as int, cl);
    }
    let mut j = i;
    while j < cs.len() && is_in_class(cl, cs[j])
        invariant
            i <= j <= cs@.len(),
            span(cs@, i as int, cl) == span(cs@, j as int, cl),
        decreases cs@.len() - j,
    {
        j = j + 1;
    }
    j
}

/// `lit` occurs in `s` at `i`.
pub open spec fn has_lit(s: Seq<char>, i: int, lit: Seq<char>) -> bool {
    0 <= i <= s.len() && is_prefix(lit, s.subrange(i, s.len() as int))
}

pub fn lit_at(cs: &Vec<char>, i: usize, lit: &str) -> (r: bool)
    ensures
        r == has_lit(cs@, i as int, lit@),
{
    if i > cs.len() {
        return false;
    }
    let l = chars_of(lit);
    prefix_at(&l, cs, i)
}

pub proof fn lemma_has_lit(s: Seq<char>, i: int, lit: Seq<char>)
    requires
        has_lit(s, i, lit),
    ensures
        i + lit.len() <= s.len(),
        forall|k: int| 0 <= k < lit.len() ==> s[i + k] == #[trigger] lit[k],
{
    assert forall|k: int| 0 <= k < lit.len() implies s[i + k] == #[trigger] lit[k] by {
        assert(s.subrange(i, s.len() as int).subrange(0, lit.len() as int)[k] == lit[k]);
    }
}

} // verus!
