use script_runtime::{
    replace_macros, FastReplacer, Item, ParseError, ScriptParser, ScriptReader, StringMap, TokenType,
};

fn items_of(lines: &[&str]) -> Vec<Item> {
    lines.iter().map(|l| Item::new(l.to_string())).collect()
}

fn parse(lines: &[&str]) -> (Result<(), ParseError>, Vec<Item>) {
    let mut items = items_of(lines);
    let mut parser = ScriptParser::new();
    let r = parser.parse_script(&mut items);
    (r, items)
}

fn table(pairs: &[(&str, &str)]) -> StringMap {
    let mut m = StringMap::new();
    for (k, v) in pairs {
        m.insert(k.to_string(), v.to_string());
    }
    m
}

#[test]
fn load_plugin_with_version_parses() {
    let (r, items) = parse(&["LOAD_PLUGIN UTILS >= v1.0.0.0"]);
    assert!(r.is_ok());
    match &items[0].token_type {
        TokenType::LoadPlugin { plugin, rule, vers } => {
            assert_eq!(plugin, "UTILS");
            assert_eq!(rule, ">=");
            assert_eq!(vers, "1.0.0.0");
        }
        other => panic!("unexpected {:?}", other),
    }
}

#[test]
fn load_plugin_lowercase_is_rejected() {
    let (r, _) = parse(&["LOAD_PLUGIN utils"]);
    match r {
        Err(ParseError::InvalidStatement(line)) => assert_eq!(line, "LOAD_PLUGIN utils"),
        other => panic!("unexpected {:?}", other),
    }
}

#[test]
fn load_plugin_without_version_and_with_short_version() {
    let (r, items) = parse(&["LOAD_PLUGIN MATH", "LOAD_PLUGIN MATH_2 <v3.4"]);
    assert!(r.is_ok());
    match &items[0].token_type {
        TokenType::LoadPlugin { plugin, rule, vers } => {
            assert_eq!(plugin, "MATH");
            assert_eq!(rule, "");
            assert_eq!(vers, "");
        }
        other => panic!("unexpected {:?}", other),
    }
    match &items[1].token_type {
        TokenType::LoadPlugin { plugin, rule, vers } => {
            assert_eq!(plugin, "MATH_2");
            assert_eq!(rule, "<");
            assert_eq!(vers, "3.4");
        }
        other => panic!("unexpected {:?}", other),
    }
}

#[test]
fn load_plugin_with_one_number_version_is_rejected() {
    let (r, _) = parse(&["LOAD_PLUGIN UTILS == v1"]);
    assert!(matches!(r, Err(ParseError::InvalidStatement(_))));
}

#[test]
fn every_statement_kind_is_classified() {
    let (r, items) = parse(&[
        "LOAD_PLUGIN UTILS",
        "NAME := world",
        "GREETING ?= UTILS.UECHO hi",
        "UTILS.UECHO $NAME",
        "IF true GOTO END",
        "GOTO END",
        "LABEL END",
    ]);
    assert!(r.is_ok());
    for item in &items {
        assert!(!matches!(item.token_type, TokenType::Unclassified));
        assert_eq!(item.line, "");
    }
    match &items[1].token_type {
        TokenType::ConstantMacro { cmacro, value } => {
            assert_eq!(cmacro, "NAME");
            assert_eq!(value, "world");
        }
        other => panic!("unexpected {:?}", other),
    }
    match &items[2].token_type {
        TokenType::VariableMacro { plugin, command, args, vmacro, value } => {
            assert_eq!(plugin, "UTILS");
            assert_eq!(command, "UECHO");
            assert_eq!(args, "hi");
            assert_eq!(vmacro, "GREETING");
            assert_eq!(value, "");
        }
        other => panic!("unexpected {:?}", other),
    }
    match &items[3].token_type {
        TokenType::Command { plugin, command, args } => {
            assert_eq!(plugin, "UTILS");
            assert_eq!(command, "UECHO");
            assert_eq!(args, "world");
        }
        other => panic!("unexpected {:?}", other),
    }
    match &items[4].token_type {
        TokenType::IfGoTo { condition, label } => {
            assert_eq!(condition, "true");
            assert_eq!(label, "END");
        }
        other => panic!("unexpected {:?}", other),
    }
    match &items[5].token_type {
        TokenType::IfGoTo { condition, label } => {
            assert_eq!(condition, "");
            assert_eq!(label, "END");
        }
        other => panic!("unexpected {:?}", other),
    }
    match &items[6].token_type {
        TokenType::Label { label } => assert_eq!(label, "END"),
        other => panic!("unexpected {:?}", other),
    }
}

#[test]
fn command_without_arguments() {
    let (r, items) = parse(&["MATH.MRESET"]);
    assert!(r.is_ok());
    match &items[0].token_type {
        TokenType::Command { plugin, command, args } => {
            assert_eq!(plugin, "MATH");
            assert_eq!(command, "MRESET");
            assert_eq!(args, "");
        }
        other => panic!("unexpected {:?}", other),
    }
}

#[test]
fn condition_with_spaces_is_kept_whole() {
    let (r, items) = parse(&["IF a b GOTO L1"]);
    assert!(r.is_ok());
    match &items[0].token_type {
        TokenType::IfGoTo { condition, label } => {
            assert_eq!(condition, "a b");
            assert_eq!(label, "L1");
        }
        other => panic!("unexpected {:?}", other),
    }
}

#[test]
fn parse_stops_at_first_invalid_line() {
    let (r, items) = parse(&["LOAD_PLUGIN UTILS", "what is this", "LABEL X"]);
    match r {
        Err(ParseError::InvalidStatement(line)) => assert_eq!(line, "what is this"),
        other => panic!("unexpected {:?}", other),
    }
    assert!(matches!(items[0].token_type, TokenType::LoadPlugin { .. }));
    assert!(matches!(items[2].token_type, TokenType::Unclassified));
}

#[test]
fn prefix_shadowed_constants_at_parse_time() {
    let (r, items) = parse(&["X := a", "XX := b", "MATH.MECHO $XX$X"]);
    assert!(r.is_ok());
    match &items[2].token_type {
        TokenType::Command { plugin, command, args } => {
            assert_eq!(plugin, "MATH");
            assert_eq!(command, "MECHO");
            assert_eq!(args, "ba");
        }
        other => panic!("unexpected {:?}", other),
    }
}

#[test]
fn constants_apply_forward_only() {
    let (r, items) = parse(&["MATH.MECHO $X", "X := a", "MATH.MECHO $X"]);
    assert!(r.is_ok());
    match &items[0].token_type {
        TokenType::Command { args, .. } => assert_eq!(args, "$X"),
        other => panic!("unexpected {:?}", other),
    }
    match &items[2].token_type {
        TokenType::Command { args, .. } => assert_eq!(args, "a"),
        other => panic!("unexpected {:?}", other),
    }
}

#[test]
fn parser_keeps_constant_table() {
    let mut items = items_of(&["X := 1", "Y := 2"]);
    let mut parser = ScriptParser::new();
    assert!(parser.parse_script(&mut items).is_ok());
    let m = parser.macros();
    assert_eq!(m.len(), 2);
    assert_eq!(m.get("X").map(|s| s.as_str()), Some("1"));
    assert_eq!(m.get("Y").map(|s| s.as_str()), Some("2"));
}

#[test]
fn longer_key_wins_over_its_prefix() {
    let m = table(&[("XXX", "short"), ("XXXX", "long")]);
    let mut s = String::from("This is $XXXX and also $XXX");
    assert!(replace_macros(&mut s, &m));
    assert_eq!(s, "This is long and also short");
}

#[test]
fn longest_key_then_rest_of_text() {
    let m = table(&[("X", "1"), ("XX", "2")]);
    let mut s = String::from("$XXX");
    assert!(replace_macros(&mut s, &m));
    assert_eq!(s, "2X");
}

#[test]
fn no_known_key_leaves_string_alone() {
    let m = table(&[("X", "1")]);
    let mut s = String::from("cost $ 5 and $Y");
    assert!(!replace_macros(&mut s, &m));
    assert_eq!(s, "cost $ 5 and $Y");
    assert!(!replace_macros(&mut s, &m));
    assert_eq!(s, "cost $ 5 and $Y");
}

#[test]
fn empty_table_changes_nothing() {
    let m = StringMap::new();
    let mut s = String::from("$A $B");
    assert!(!replace_macros(&mut s, &m));
    assert_eq!(s, "$A $B");
}

#[test]
fn replaced_text_is_not_scanned_again() {
    let m = table(&[("A", "$B"), ("B", "x")]);
    let mut s = String::from("$A");
    assert!(replace_macros(&mut s, &m));
    assert_eq!(s, "$B");
}

#[test]
fn fast_replacer_substitutes_many_texts() {
    let m = table(&[("XXX", "ValueXXX"), ("XXXX", "ValueXXXX")]);
    let r = FastReplacer::new(&m);
    assert_eq!(r.replace("Multiple $XXX $XXXX $XXX"), "Multiple ValueXXX ValueXXXX ValueXXX");
    assert_eq!(r.replace("No replacement here"), "No replacement here");
}

fn read(text: &str) -> Vec<String> {
    let reader = ScriptReader::new("script.txt");
    let mut out = Vec::new();
    let n = reader.read_script_text(text, &mut out);
    assert_eq!(n, out.len());
    for item in &out {
        assert!(matches!(item.token_type, TokenType::Unclassified));
    }
    out.into_iter().map(|i| i.line).collect()
}

#[test]
fn reader_strips_comments() {
    let text = "# heading\n\nLOAD_PLUGIN UTILS   # the plugin\n  UTILS.UECHO hello  \n";
    assert_eq!(read(text), vec!["LOAD_PLUGIN UTILS", "UTILS.UECHO hello"]);
}

#[test]
fn reader_drops_closed_block_comment() {
    let text = "LOAD_PLUGIN UTILS\n--- start\nUTILS.UECHO hidden\nend !--\nUTILS.UECHO shown\n";
    assert_eq!(read(text), vec!["LOAD_PLUGIN UTILS", "UTILS.UECHO shown"]);
}

#[test]
fn unclosed_block_comment_runs_to_end() {
    let text = "LOAD_PLUGIN UTILS\n---\nUTILS.UECHO a\nUTILS.UECHO b\n";
    assert_eq!(read(text), vec!["LOAD_PLUGIN UTILS"]);
}

#[test]
fn reader_handles_bom_and_crlf() {
    let text = "\u{feff}LOAD_PLUGIN UTILS\r\nUTILS.UECHO x\r\n";
    assert_eq!(read(text), vec!["LOAD_PLUGIN UTILS", "UTILS.UECHO x"]);
}

#[test]
fn reading_twice_gives_same_tokens() {
    let text = "LOAD_PLUGIN UTILS\nX := 1\n--- c\n!--\nUTILS.UECHO $X # c\n";
    assert_eq!(read(text), read(text));
}

#[test]
fn reader_appends_to_existing_tokens() {
    let reader = ScriptReader::new("s");
    let mut out = vec![Item::new("FIRST.CMD".to_string())];
    let n = reader.read_script_text("A.B\n", &mut out);
    assert_eq!(n, 2);
    assert_eq!(out[0].line, "FIRST.CMD");
    assert_eq!(out[1].line, "A.B");
    assert_eq!(reader.path(), "s");
}
