use vstd::prelude::*;
use crate::grammar::{CharClass, in_class, is_in_class, span, span_of, has_lit, lit_at};
use crate::macros::{replace_macros, subst};
use crate::string_map::StringMap;
use crate::text::{chars_of, string_of_range};
use crate::token::{Item, Token, TokenType, kinds};

verus! {

/// Length of the comparison operator of a `LOAD_PLUGIN` line at `a`, or 0.
pub open spec fn op_len(s: Seq<char>, a: int) -> int {
    if 0 <= a && a + 1 < s.len() && s[a] == '<' && s[a + 1] == '=' {
        2
    } else if 0 <= a < s.len() && s[a] == '<' {
        1
    } else if 0 <= a && a + 1 < s.len() && s[a] == '>' && s[a + 1] == '=' {
        2
    } else if 0 <= a < s.len() && s[a] == '>' {
        1
    } else if 0 <= a && a + 1 < s.len() && s[a] == '=' && s[a + 1] == '=' {
        2
    } else if 0 <= a && a + 1 < s.len() && s[a] == '!' && s[a + 1] == '=' {
        2
    } else {
        0
    }
}

/// `s[j..]` is `(.NUM)*` with `count` groups already seen and 1 to 3 groups in all.
pub open spec fn dots(s: Seq<char>, j: int, count: int) -> bool
    decreases s.len() - j,
{
    if j < 0 || j >= s.len() {
        j == s.len() && 1 <= count <= 3
    } else if s[j] == '.' && count < 3 {
        let e = span(s, j + 1, CharClass::Digit);
        j + 1 < e <= s.len() && dots(s, e, count + 1)
    } else {
        false
    }
}

/// `s[i..]` is `NUM(.NUM){1,3}`.
pub open spec fn version_ok(s: Seq<char>, i: int) -> bool {
    let e = span(s, i, CharClass::Digit);
    i < e && dots(s, e, 0)
}

/// `LOAD_PLUGIN <PLUGIN>` with an optional `<op> v<version>`.
pub open spec fn load_plugin_spec(s: Seq<char>) -> Option<Token> {
    let k = "LOAD_PLUGIN"@.len() as int;
    let w = span(s, k, CharClass::Blank);
    let e = span(s, w, CharClass::PluginChar);
    if !has_lit(s, 0, "LOAD_PLUGIN"@) || w == k || e == w {
        None
    } else if e == s.len() {
        Some(
            Token::LoadPlugin { plugin: s.subrange(w, e), rule: Seq::empty(), vers: Seq::empty() },
        )
    } else {
        let a = span(s, e, CharClass::Blank);
        let o = op_len(s, a);
        let b = span(s, a + o, CharClass::Blank);
        if o > 0 && b < s.len() && s[b] == 'v' && version_ok(s, b + 1) {
            Some(
                Token::LoadPlugin {
                    plugin: s.subrange(w, e),
                    rule: s.subrange(a, a + o),
                    vers: s.subrange(b + 1, s.len() as int),
                },
            )
        } else {
            None
        }
    }
}

/// `<IDENT> := <value>`.
pub open spec fn const_macro_spec(s: Seq<char>) -> Option<Token> {
    let e = span(s, 1, CharClass::Word);
    let a = span(s, e, CharClass::Blank);
    let b = span(s, a + 2, CharClass::Blank);
    if s.len() == 0 || !in_class(CharClass::IdentStart, s[0]) || !(a + 1 < s.len() && s[a]
        == ':' && s[a + 1] == '=') {
        None
    } else if b < s.len() {
        Some(Token::ConstantMacro { cmacro: s.subrange(0, e), value: s.subrange(b, s.len() as int) })
    } else if a + 2 < s.len() {
        Some(
            Token::ConstantMacro {
                cmacro: s.subrange(0, e),
                value: s.subrange(s.len() - 1, s.len() as int),
            },
        )
    } else {
        None
    }
}

/// `<PLUGIN>.<CMD>` with optional arguments after blanks, from `i` to the end:
/// (plugin, command, arguments).
pub open spec fn invocation_spec(s: Seq<char>, i: int) -> Option<
    (Seq<char>, Seq<char>, Seq<char>),
> {
    let p = span(s, i, CharClass::PluginChar);
    let c = span(s, p + 2, CharClass::PluginChar);
    let w = span(s, c, CharClass::Blank);
    if p == i || p + 1 >= s.len() || s[p] != '.' || !in_class(CharClass::Upper, s[p + 1]) {
        None
    } else if c == s.len() {
        Some((s.subrange(i, p), s.subrange(p + 1, c), Seq::empty()))
    } else if w == c {
        None
    } else {
        Some((s.subrange(i, p), s.subrange(p + 1, c), s.subrange(w, s.len() as int)))
    }
}

/// `<IDENT> ?= <PLUGIN>.<CMD> [args]`.
pub open spec fn var_macro_spec(s: Seq<char>) -> Option<Token> {
    let e = span(s, 1, CharClass::Word);
    let a = span(s, e, CharClass::Blank);
    let b = span(s, a + 2, CharClass::Blank);
    if s.len() == 0 || !in_class(CharClass::IdentStart, s[0]) || !(a + 1 < s.len() && s[a]
        == '?' && s[a + 1] == '=') {
        None
    } else {
        match invocation_spec(s, b) {
            Some((p, c, g)) => Some(
                Token::VariableMacro {
                    plugin: p,
                    command: c,
                    args: g,
                    vmacro: s.subrange(0, e),
                    value: Seq::empty(),
                },
            ),
            None => None,
        }
    }
}

/// `<PLUGIN>.<CMD> [args]`.
pub open spec fn command_spec(s: Seq<char>) -> Option<Token> {
    match invocation_spec(s, 0) {
        Some((p, c, g)) => Some(Token::Command { plugin: p, command: c, args: g }),
        None => None,
    }
}

/// `GOTO <LABEL>`, blanks allowed at the end, from `i`: the label.
pub open spec fn goto_at(s: Seq<char>, i: int) -> Option<Seq<char>> {
    let g = i + "GOTO"@.len();
    let w = span(s, g, CharClass::Blank);
    let l = span(s, w, CharClass::Word);
    if !has_lit(s, i, "GOTO"@) || w == g || l == w || span(s, l, CharClass::Blank) != s.len() {
        None
    } else {
        Some(s.subrange(w, l))
    }
}

/// At `j` start blanks and then a `GOTO` clause that runs to the end.
pub open spec fn tail_at(s: Seq<char>, j: int) -> bool {
    let k = span(s, j, CharClass::Blank);
    k > j && goto_at(s, k) is Some
}

/// The first `j >= from` at which `tail_at` holds, or -1.
pub open spec fn first_tail(s: Seq<char>, from: int) -> int
    decreases s.len() + 1 - from,
{
    if from < 0 || from > s.len() {
        -1
    } else if tail_at(s, from) {
        from
    } else {
        first_tail(s, from + 1)
    }
}

/// `[IF <condition>] GOTO <LABEL>`; the condition is the shortest that lets the rest match.
pub open spec fn if_goto_spec(s: Seq<char>) -> Option<Token> {
    let k = "IF"@.len() as int;
    let w = span(s, k, CharClass::Blank);
    let j = first_tail(s, w);
    if has_lit(s, 0, "IF"@) && w > k && j >= 0 {
        Some(
            Token::IfGoTo {
                condition: s.subrange(w, j),
                label: goto_at(s, span(s, j, CharClass::Blank))->0,
            },
        )
    } else if has_lit(s, 0, "IF"@) && w >= k + 2 && goto_at(s, w) is Some {
        Some(Token::IfGoTo { condition: Seq::empty(), label: goto_at(s, w)->0 })
    } else if goto_at(s, 0) is Some {
        Some(Token::IfGoTo { condition: Seq::empty(), label: goto_at(s, 0)->0 })
    } else {
        None
    }
}

/// `LABEL <LABEL>`.
pub open spec fn label_spec(s: Seq<char>) -> Option<Token> {
    let k = "LABEL"@.len() as int;
    let w = span(s, k, CharClass::Blank);
    let l = span(s, w, CharClass::Word);
    if !has_lit(s, 0, "LABEL"@) || w == k || l == w || l != s.len() {
        None
    } else {
        Some(Token::Label { label: s.subrange(w, l) })
    }
}

/// The kind of a statement: the first form that matches, in the order load, constant,
/// variable, command, jump, label.
pub open spec fn classify(s: Seq<char>) -> Option<Token> {
    if load_plugin_spec(s) is Some {
        load_plugin_spec(s)
    } else if const_macro_spec(s) is Some {
        const_macro_spec(s)
    } else if var_macro_spec(s) is Some {
        var_macro_spec(s)
    } else if command_spec(s) is Some {
        command_spec(s)
    } else if if_goto_spec(s) is Some {
        if_goto_spec(s)
    } else {
        label_spec(s)
    }
}

pub open spec fn opt_view(r: Option<TokenType>) -> Option<Token> {
    match r {
        Some(t) => Some(t@),
        None => None,
    }
}

/// The parse-time macro table after a token.
pub open spec fn bind(m: Map<Seq<char>, Seq<char>>, t: Token) -> Map<Seq<char>, Seq<char>> {
    match t {
        Token::ConstantMacro { cmacro, value } => m.insert(cmacro, value),
        _ => m,
    }
}

/// Parsing the lines `lines` with the parse-time macros `m`: the tokens, or the first line
/// (after substitution) that is no statement.
pub open spec fn parse_lines(lines: Seq<Seq<char>>, m: Map<Seq<char>, Seq<char>>) -> Result<
    Seq<Token>,
    Seq<char>,
>
    decreases lines.len(),
{
    if lines.len() == 0 {
        Ok(Seq::empty())
    } else {
        let l = subst(lines[0], m);
        match classify(l) {
            None => Err(l),
            Some(t) => match parse_lines(lines.drop_first(), bind(m, t)) {
                Ok(ts) => Ok(seq![t] + ts),
                Err(e) => Err(e),
            },
        }
    }
}

/// The parse-time macro table after parsing `lines` from `m`.
pub open spec fn macros_after(lines: Seq<Seq<char>>, m: Map<Seq<char>, Seq<char>>) -> Map<
    Seq<char>,
    Seq<char>,
>
    decreases lines.len(),
{
    if lines.len() == 0 {
        m
    } else {
        match classify(subst(lines[0], m)) {
            None => m,
            Some(t) => macros_after(lines.drop_first(), bind(m, t)),
        }
    }
}

pub open spec fn lines_of(items: Seq<Item>) -> Seq<Seq<char>> {
    items.map_values(|it: Item| it.line@)
}

pub open spec fn prepend(d: Seq<Token>, r: Result<Seq<Token>, Seq<char>>) -> Result<
    Seq<Token>,
    Seq<char>,
> {
    match r {
        Ok(ts) => Ok(d + ts),
        Err(e) => Err(e),
    }
}

fn op_len_of(cs: &Vec<char>, a: usize) -> (r: usize)
    requires
        a <= cs@.len(),
    ensures
        r == op_len(cs@, a as int),
        a + r <= cs@.len(),
{
    let n = cs.len();
    if n - a > 1 && cs[a] == '<' && cs[a + 1] == '=' {
        2
    } else if a < n && cs[a] == '<' {
        1
    } else if n - a > 1 && cs[a] == '>' && cs[a + 1] == '=' {
        2
    } else if a < n && cs[a] == '>' {
        1
    } else if n - a > 1 && cs[a] == '=' && cs[a + 1] == '=' {
        2
    } else if n - a > 1 && cs[a] == '!' && cs[a + 1] == '=' {
        2
    } else {
        0
    }
}

fn version_ok_at(cs: &Vec<char>, i: usize) -> (r: bool)
    requires
        i <= cs@.len(),
    ensures
        r == version_ok(cs@, i as int),
{
    let n = cs.len();
    let e = span_of(cs, i, CharClass::Digit);
    if e == i {
        return false;
    }
    let mut j = e;
    let mut count: usize = 0;
    loop
        invariant
            n == cs@.len(),
            j <= n,
            count <= 3,
            version_ok(cs@, i as int) == dots(cs@, j as int, count as int),
        decreases n - j,
    {
        if j == n {
            return 1 <= count && count <= 3;
        }
        if cs[j] == '.' && count < 3 {
            let e2 = span_of(cs, j + 1, CharClass::Digit);
            if e2 == j + 1 {
                return false;
            }
            j = e2;
            count = count + 1;
        } else {
            return false;
        }
    }
}

fn match_load_plugin(cs: &Vec<char>) -> (r: Option<TokenType>)
    ensures
        opt_view(r) == load_plugin_spec(cs@),
{
    let kw = chars_of("LOAD_PLUGIN");
    if !lit_at(cs, 0, "LOAD_PLUGIN") {
        return None;
    }
    let k = kw.len();
    proof {
        crate::grammar::lemma_has_lit(cs@, 0, kw@);
    }
    let w = span_of(cs, k, CharClass::Blank);
    let e = span_of(cs, w, CharClass::PluginChar);
    if w == k || e == w {
        return None;
    }
    let plugin = string_of_range(cs, w, e);
    if e == cs.len() {
        return Some(TokenType::LoadPlugin { plugin, rule: String::new(), vers: String::new() });
    }
    let a = span_of(cs, e, CharClass::Blank);
    let o = op_len_of(cs, a);
    let b = span_of(cs, a + o, CharClass::Blank);
    if o > 0 && b < cs.len() && cs[b] == 'v' && version_ok_at(cs, b + 1) {
        Some(
            TokenType::LoadPlugin {
                plugin,
                rule: string_of_range(cs, a, a + o),
                vers: string_of_range(cs, b + 1, cs.len()),
            },
        )
    } else {
        None
    }
}

fn match_const_macro(cs: &Vec<char>) -> (r: Option<TokenType>)
    ensures
        opt_view(r) == const_macro_spec(cs@),
{
    let n = cs.len();
    if n == 0 || !is_in_class(CharClass::IdentStart, cs[0]) {
        return None;
    }
    let e = span_of(cs, 1, CharClass::Word);
    let a = span_of(cs, e, CharClass::Blank);
    if !(n - a > 1 && cs[a] == ':' && cs[a + 1] == '=') {
        return None;
    }
    let b = span_of(cs, a + 2, CharClass::Blank);
    let cmacro = string_of_range(cs, 0, e);
    if b < n {
        Some(TokenType::ConstantMacro { cmacro, value: string_of_range(cs, b, n) })
    } else if a + 2 < n {
        Some(TokenType::ConstantMacro { cmacro, value: string_of_range(cs, n - 1, n) })
    } else {
        None
    }
}

fn match_invocation(cs: &Vec<char>, i: usize) -> (r: Option<(String, String, String)>)
    requires
        i <= cs@.len(),
    ensures
        match (r, invocation_spec(cs@, i as int)) {
            (Some((p, c, g)), Some((sp, sc, sg))) => p@ == sp && c@ == sc && g@ == sg,
            (None, None) => true,
            _ => false,
        },
{
    let n = cs.len();
    let p = span_of(cs, i, CharClass::PluginChar);
    if p == i || n - p <= 1 || cs[p] != '.' || !is_in_class(CharClass::Upper, cs[p + 1]) {
        return None;
    }
    let c = span_of(cs, p + 2, CharClass::PluginChar);
    let w = span_of(cs, c, CharClass::Blank);
    let plugin = string_of_range(cs, i, p);
    let command = string_of_range(cs, p + 1, c);
    if c == n {
        Some((plugin, command, String::new()))
    } else if w == c {
        None
    } else {
        Some((plugin, command, string_of_range(cs, w, n)))
    }
}

fn match_var_macro(cs: &Vec<char>) -> (r: Option<TokenType>)
    ensures
        opt_view(r) == var_macro_spec(cs@),
{
    let n = cs.len();
    if n == 0 || !is_in_class(CharClass::IdentStart, cs[0]) {
        return None;
    }
    let e = span_of(cs, 1, CharClass::Word);
    let a = span_of(cs, e, CharClass::Blank);
    if !(n - a > 1 && cs[a] == '?' && cs[a + 1] == '=') {
        return None;
    }
    let b = span_of(cs, a + 2, CharClass::Blank);
    match match_invocation(cs, b) {
        Some((plugin, command, args)) => Some(
            TokenType::VariableMacro {
                plugin,
                command,
                args,
                vmacro: string_of_range(cs, 0, e),
                value: String::new(),
            },
        ),
        None => None,
    }
}

fn match_command(cs: &Vec<char>) -> (r: Option<TokenType>)
    ensures
        opt_view(r) == command_spec(cs@),
{
    match match_invocation(cs, 0) {
        Some((plugin, command, args)) => Some(TokenType::Command { plugin, command, args }),
        None => None,
    }
}

fn match_goto(cs: &Vec<char>, i: usize) -> (r: Option<String>)
    requires
        i <= cs@.len(),
    ensures
        match (r, goto_at(cs@, i as int)) {
            (Some(l), Some(sl)) => l@ == sl,
            (None, None) => true,
            _ => false,
        },
{
    let n = cs.len();
    let kw = chars_of("GOTO");
    if !lit_at(cs, i, "GOTO") {
        return None;
    }
    proof {
        crate::grammar::lemma_has_lit(cs@, i as int, kw@);
    }
    let g = i + kw.len();
    let w = span_of(cs, g, CharClass::Blank);
    let l = span_of(cs, w, CharClass::Word);
    if w == g || l == w || span_of(cs, l, CharClass::Blank) != cs.len() {
        return None;
    }
    Some(string_of_range(cs, w, l))
}

fn is_tail_at(cs: &Vec<char>, j: usize) -> (r: bool)
    requires
        j <= cs@.len(),
    ensures
        r == tail_at(cs@, j as int),
{
    let k = span_of(cs, j, CharClass::Blank);
    k > j && match_goto(cs, k).is_some()
}

fn match_if_goto(cs: &Vec<char>) -> (r: Option<TokenType>)
    ensures
        opt_view(r) == if_goto_spec(cs@),
{
    let n = cs.len();
    let kw = chars_of("IF");
    let has_if = lit_at(cs, 0, "IF");
    if has_if {
        proof {
            crate::grammar::lemma_has_lit(cs@, 0, kw@);
        }
        let k = kw.len();
        let w = span_of(cs, k, CharClass::Blank);
        if w > k {
            let mut j = w;
            loop
                invariant
                    n == cs@.len(),
                    w <= j <= n,
                    has_lit(cs@, 0, "IF"@),
                    k == "IF"@.len(),
                    w == span(cs@, k as int, CharClass::Blank),
                    w > k,
                    first_tail(cs@, w as int) == first_tail(cs@, j as int),
                ensures
                    first_tail(cs@, w as int) == -1,
                decreases n - j,
            {
                if is_tail_at(cs, j) {
                    assert(first_tail(cs@, j as int) == j);
                    let t = span_of(cs, j, CharClass::Blank);
                    let label = match_goto(cs, t);
                    match label {
                        Some(label) => {
                            return Some(
                                TokenType::IfGoTo { condition: string_of_range(cs, w, j), label },
                            );
                        },
                        None => {
                            return None;
                        },
                    }
                }
                if j == n {
                    assert(first_tail(cs@, n + 1) == -1);
                    break;
                }
                j = j + 1;
            }
            if w - k >= 2 {
                if let Some(label) = match_goto(cs, w) {
                    return Some(TokenType::IfGoTo { condition: String::new(), label });
                }
            }
        }
    }
    match match_goto(cs, 0) {
        Some(label) => Some(TokenType::IfGoTo { condition: String::new(), label }),
        None => None,
    }
}

fn match_label(cs: &Vec<char>) -> (r: Option<TokenType>)
    ensures
        opt_view(r) == label_spec(cs@),
{
    let kw = chars_of("LABEL");
    if !lit_at(cs, 0, "LABEL") {
        return None;
    }
    proof {
        crate::grammar::lemma_has_lit(cs@, 0, kw@);
    }
    let k = kw.len();
    let w = span_of(cs, k, CharClass::Blank);
    let l = span_of(cs, w, CharClass::Word);
    if w == k || l == w || l != cs.len() {
        return None;
    }
    Some(TokenType::Label { label: string_of_range(cs, w, l) })
}

/// The kind of the statement `line`, if it is one.
pub fn classify_line(line: &str) -> (r: Option<TokenType>)
    ensures
        opt_view(r) == classify(line@),
{
    let cs = chars_of(line);
    if let Some(t) = match_load_plugin(&cs) {
        return Some(t);
    }
    if let Some(t) = match_const_macro(&cs) {
        return Some(t);
    }
    if let Some(t) = match_var_macro(&cs) {
        return Some(t);
    }
    if let Some(t) = match_command(&cs) {
        return Some(t);
    }
    if let Some(t) = match_if_goto(&cs) {
        return Some(t);
    }
    match_label(&cs)
}

/// A line that is no statement of the script language.
#[derive(Debug)]
pub enum ParseError {
    InvalidStatement(String),
}

impl ParseError {
    /// A message for the user.
    pub fn message(&self) -> String {
        match self {
            ParseError::InvalidStatement(line) => {
                let mut m = String::new();
                crate::text::push_str(&mut m, "Invalid item in script: ");
                crate::text::push_str(&mut m, line.as_str());
                m
            },
        }
    }
}

/// No token that `classify` gives is unclassified.
pub proof fn lemma_classify_not_unclassified(s: Seq<char>)
    ensures
        classify(s) matches Some(t) ==> !(t is Unclassified),
{
}

/// Every token of a successful parse is classified.
pub proof fn lemma_parse_lines_classified(lines: Seq<Seq<char>>, m: Map<Seq<char>, Seq<char>>)
    ensures
        parse_lines(lines, m) matches Ok(ts) ==> ts.len() == lines.len() && forall|i: int|
            0 <= i < ts.len() ==> !(#[trigger] ts[i] is Unclassified),
    decreases lines.len(),
{
    if lines.len() > 0 {
        let l = subst(lines[0], m);
        if let Some(t) = classify(l) {
            lemma_classify_not_unclassified(l);
            lemma_parse_lines_classified(lines.drop_first(), bind(m, t));
            if let Ok(ts) = parse_lines(lines, m) {
                let rest = parse_lines(lines.drop_first(), bind(m, t))->Ok_0;
                assert(ts == seq![t] + rest);
                assert forall|i: int| 0 <= i < ts.len() implies !(#[trigger] ts[i] is Unclassified) by {
                    if i > 0 {
                        assert(ts[i] == rest[i - 1]);
                    }
                }
            }
        }
    }
}

/// Classifies script tokens; keeps the constant macros met so far.
pub struct ScriptParser {
    macros: StringMap,
}

impl ScriptParser {
    /// The parse-time macro table.
    pub closed spec fn macros_view(&self) -> Map<Seq<char>, Seq<char>> {
        self.macros@
    }

    pub fn new() -> (r: ScriptParser)
        ensures
            r.macros_view() == Map::<Seq<char>, Seq<char>>::empty(),
    {
        ScriptParser { macros: StringMap::new() }
    }

    /// The parse-time macro table.
    pub fn macros(&self) -> (r: &StringMap)
        ensures
            r@ == self.macros_view(),
    {
        &self.macros
    }

    /// Substitutes the constant macros met so far into each line, then classifies it;
    /// a constant macro joins the table. Lines of classified tokens are cleared. Stops at
    /// the first line that is no statement.
    pub fn parse_script(&mut self, items: &mut Vec<Item>) -> (r: Result<(), ParseError>)
        ensures
            final(items)@.len() == old(items)@.len(),
            match parse_lines(lines_of(old(items)@), old(self).macros_view()) {
                Ok(ts) => r is Ok && kinds(final(items)@) == ts && final(self).macros_view()
                    == macros_after(lines_of(old(items)@), old(self).macros_view()) && forall|
                    i: int,
                | 0 <= i < final(items)@.len() ==> (#[trigger] final(items)@[i]).line@.len()
                    == 0,
                Err(l) => r matches Err(ParseError::InvalidStatement(e)) && e@ == l,
            },
            r is Ok ==> forall|i: int|
                0 <= i < final(items)@.len() ==> !((#[trigger] final(items)@[i]).token_type@ is Unclassified),
    {
        let ghost lines = lines_of(items@);
        let ghost m0 = self.macros@;
        let ghost old_items = items@;
        let n = items.len();
        let ghost mut done: Seq<Token> = Seq::empty();
        proof {
            lemma_parse_lines_classified(lines, m0);
            assert(lines.subrange(0, n as int) =~= lines);
        }
        let mut i: usize = 0;
        while i < n
            invariant
                n == items@.len(),
                n == old_items.len(),
                old_items == old(items)@,
                m0 == old(self).macros_view(),
                lines == lines_of(old_items),
                i <= n,
                done.len() == i,
                forall|j: int| 0 <= j < i ==> (#[trigger] items@[j]).token_type@ == done[j],
                forall|j: int| 0 <= j < i ==> (#[trigger] items@[j]).line@.len() == 0,
                forall|j: int| i <= j < n ==> #[trigger] items@[j] == old_items[j],
                parse_lines(lines, m0) == prepend(
                    done,
                    parse_lines(lines.subrange(i as int, n as int), self.macros@),
                ),
                macros_after(lines, m0) == macros_after(
                    lines.subrange(i as int, n as int),
                    self.macros@,
                ),
            decreases n - i,
        {
            let ghost rest = lines.subrange(i as int, n as int);
            proof {
                assert(rest[0] == items@[i as int].line@);
                assert(rest.drop_first() == lines.subrange(i + 1, n as int));
            }
            let mut line = items[i].line.clone();
            replace_macros(&mut line, &self.macros);
            match classify_line(line.as_str()) {
                None => {
                    return Err(ParseError::InvalidStatement(line));
                },
                Some(t) => {
                    let ghost tv = t@;
                    let ghost m_before = self.macros@;
                    if let TokenType::ConstantMacro { cmacro, value } = &t {
                        self.macros.insert(cmacro.clone(), value.clone());
                    }
                    items.set(i, Item { line: String::new(), token_type: t });
                    proof {
                        assert(self.macros@ == bind(m_before, tv));
                        let r1 = parse_lines(rest.drop_first(), self.macros@);
                        assert(parse_lines(rest, m_before) == match r1 {
                            Ok(ts) => Ok(seq![tv] + ts),
                            Err(e) => Err(e),
                        });
                        if let Ok(ts) = r1 {
                            assert(done.push(tv) + ts =~= done + (seq![tv] + ts));
                        }
                        done = done.push(tv);
                    }
                },
            }
            i = i + 1;
        }
        proof {
            assert(lines.subrange(n as int, n as int) =~= Seq::<Seq<char>>::empty());
            assert(done =~= done + Seq::<Token>::empty());
            assert(kinds(items@) =~= done);
        }
        Ok(())
    }
}

} // verus!
