use script_runtime::{
    build_library_name, compare_versions, string_to_bool, IniParserEx, Item, MathPlugin, PluginInterface,
    PluginManager, RunError, ScriptParser, ScriptRunner, ScriptValidator, StringMap, UtilsPlugin,
    TokenType, ValidateError,
};

fn parsed(lines: &[&str]) -> Vec<Item> {
    let mut items: Vec<Item> = lines.iter().map(|l| Item::new(l.to_string())).collect();
    let mut parser = ScriptParser::new();
    parser.parse_script(&mut items).expect("script parses");
    items
}

fn ini(text: &str) -> IniParserEx {
    let mut p = IniParserEx::new();
    p.load_text(text);
    p
}

fn utils_manager(ini_text: &str) -> PluginManager<UtilsPlugin> {
    let mut m = PluginManager::new(ini(ini_text));
    m.load_plugin("UTILS", UtilsPlugin::new()).expect("UTILS loads");
    m
}

#[test]
fn ini_resolves_references() {
    let p = ini("; comment\nroot = /opt\n[common]\nbase=/srv\n[app]\npath = ${common:base}/bin\nname=${path}/x\nhome=${root}\n");
    assert_eq!(p.get_value("app", "name", "d", 5), "/srv/bin/x");
    assert_eq!(p.get_value("app", "path", "d", 5), "/srv/bin");
    assert_eq!(p.get_value("", "root", "d", 5), "/opt");
    assert_eq!(p.get_value("app", "home", "d", 5), "");
    assert_eq!(p.get_value("app", "missing", "d", 5), "d");
    assert_eq!(p.get_value("nowhere", "name", "d", 5), "d");
    assert!(p.section_exists("app"));
    assert!(!p.section_exists("nowhere"));
}

#[test]
fn ini_depth_limits_resolution() {
    let p = ini("[s]\na=${b}\nb=${c}\nc=end\n");
    assert_eq!(p.get_value("s", "a", "d", 3), "end");
    assert_eq!(p.get_value("s", "a", "d", 2), "d");
    assert_eq!(p.get_value("s", "a", "d", 1), "d");
    assert_eq!(p.get_value("s", "a", "d", 0), "d");
}

#[test]
fn ini_cycle_ends_with_default() {
    let p = ini("[S]\nA=${B}\nB=${A}\n");
    assert_eq!(p.get_value("S", "A", "default", 5), "default");
    assert_eq!(p.get_value("S", "A", "default", 1), "default");
    assert_eq!(p.get_value("S", "A", "default", 0), "default");
}

#[test]
fn ini_last_duplicate_wins_and_sections_copy() {
    let p = ini("[S]\nk=1\nk=2\n[Empty]\n");
    let s = p.get_section("S").expect("section");
    assert_eq!(s.len(), 1);
    assert_eq!(s.get("k").map(|v| v.as_str()), Some("2"));
    assert!(p.get_section("Empty").is_none());
    assert_eq!(IniParserEx::trim("  x y \t"), "x y");
}

#[test]
fn resolved_section_is_stable() {
    let p = ini("[UTILS]\nFAULT_TOLERANT = ${flag}\nflag = true\nother=${UTILS:flag}!\n");
    let a = p.get_resolved_section("UTILS", 5).expect("section");
    let b = p.get_resolved_section("UTILS", 5).expect("section");
    assert_eq!(a.len(), 3);
    assert_eq!(b.len(), 3);
    for key in ["FAULT_TOLERANT", "flag", "other"] {
        assert_eq!(a.get(key), b.get(key));
    }
    assert_eq!(a.get("FAULT_TOLERANT").map(|v| v.as_str()), Some("true"));
    assert_eq!(a.get("other").map(|v| v.as_str()), Some("true!"));
    assert!(p.get_resolved_section("MATH", 5).is_none());
}

#[test]
fn jumps_must_precede_their_labels() {
    let v = ScriptValidator::new();
    assert!(v.validate_jumps(&parsed(&["IF true GOTO END", "GOTO END", "LABEL END", "LABEL END"])));
    assert!(!v.validate_jumps(&parsed(&["LABEL END", "GOTO END"])));
    assert!(!v.validate_jumps(&parsed(&["GOTO END"])));
    assert!(!v.validate_jumps(&parsed(&["GOTO A", "LABEL A", "LABEL A"])));
    assert!(v.validate_jumps(&parsed(&["LOAD_PLUGIN UTILS"])));
}

#[test]
fn jump_label_mismatch_is_reported() {
    let v = ScriptValidator::new();
    let items = parsed(&["LOAD_PLUGIN UTILS", "GOTO NOWHERE", "UTILS.UECHO x"]);
    assert!(matches!(v.validate_declarations(&items), Err(ValidateError::JumpsLabelMismatch)));
}

#[test]
fn undeclared_plugin_is_refused() {
    let v = ScriptValidator::new();
    let items = parsed(&["UTILS.UECHO hi"]);
    assert!(matches!(v.validate_declarations(&items), Err(ValidateError::PluginNotSetForLoading)));
}

#[test]
fn declared_but_unused_plugin_is_refused() {
    let v = ScriptValidator::new();
    let items = parsed(&["LOAD_PLUGIN UTILS", "LOAD_PLUGIN MATH", "UTILS.UECHO hi"]);
    assert!(!v.validate_plugins_availability(&items));
    assert!(matches!(v.validate_declarations(&items), Err(ValidateError::PluginNotSetForLoading)));
}

#[test]
fn accepted_script_declares_each_used_plugin_once() {
    let v = ScriptValidator::new();
    let items = parsed(&[
        "LOAD_PLUGIN UTILS",
        "LOAD_PLUGIN MATH",
        "X ?= MATH.MECHO 1",
        "UTILS.UECHO a",
        "UTILS.URESET",
        "UTILS.UECHO b",
    ]);
    let uses = v.validate_declarations(&items).expect("accepted");
    assert_eq!(uses.plugins, vec!["UTILS".to_string(), "MATH".to_string()]);
    assert_eq!(uses.commands[0], vec!["UECHO".to_string(), "URESET".to_string()]);
    assert_eq!(uses.commands[1], vec!["MECHO".to_string()]);
}

#[test]
fn unsupported_command_is_named() {
    let v = ScriptValidator::new();
    let items = parsed(&["LOAD_PLUGIN UTILS", "UTILS.NOSUCH x"]);
    let uses = v.validate_declarations(&items).expect("declarations agree");
    let manager = utils_manager("");
    match v.validate_plugins_commands(&uses, &manager) {
        Err(ValidateError::PluginCommandAvailability { plugin, commands }) => {
            assert_eq!(plugin, "UTILS");
            assert_eq!(commands, vec!["NOSUCH".to_string()]);
        }
        other => panic!("unexpected {:?}", other),
    }
}

#[test]
fn supported_commands_pass_and_missing_plugin_fails() {
    let v = ScriptValidator::new();
    let items = parsed(&["LOAD_PLUGIN UTILS", "UTILS.UECHO x", "UTILS.UPRINT y"]);
    let uses = v.validate_declarations(&items).expect("declarations agree");
    let manager = utils_manager("");
    assert!(v.validate_plugins_commands(&uses, &manager).is_ok());
    let empty: PluginManager<UtilsPlugin> = PluginManager::new(IniParserEx::new());
    match v.validate_plugins_commands(&uses, &empty) {
        Err(ValidateError::PluginLoadingFailed { plugin }) => assert_eq!(plugin, "UTILS"),
        other => panic!("unexpected {:?}", other),
    }
}

#[test]
fn plain_command_runs_in_both_passes() {
    let mut items = parsed(&["LOAD_PLUGIN UTILS", "UTILS.UECHO hello"]);
    let v = ScriptValidator::new();
    let uses = v.validate_declarations(&items).expect("accepted");
    let mut manager = utils_manager("");
    assert!(v.validate_plugins_commands(&uses, &manager).is_ok());
    let dry = ScriptRunner::dry_invocations(&items);
    assert_eq!(dry.len(), 1);
    assert_eq!(dry[0].args, "hello");
    let mut runner = ScriptRunner::new();
    assert!(runner.run_script(&mut items, &mut manager).is_ok());
    assert_eq!(manager.get_data("UTILS").as_deref(), Some("hello"));
}

#[test]
fn variable_capture_feeds_later_arguments() {
    let mut items = parsed(&[
        "LOAD_PLUGIN UTILS",
        "GREETING ?= UTILS.UECHO hi",
        "UTILS.UECHO $GREETING-world",
    ]);
    let mut manager = utils_manager("");
    let mut runner = ScriptRunner::new();
    assert!(runner.run_script(&mut items, &mut manager).is_ok());
    assert_eq!(manager.get_data("UTILS").as_deref(), Some("hi-world"));
    let table = runner.macros();
    assert_eq!(table.len(), 1);
    assert_eq!(table.get("GREETING").map(|s| s.as_str()), Some("hi"));
    match &items[1].token_type {
        TokenType::VariableMacro { vmacro, value, args, .. } => {
            assert_eq!(vmacro, "GREETING");
            assert_eq!(value, "hi");
            assert_eq!(args, "hi");
        }
        other => panic!("unexpected {:?}", other),
    }
}

#[test]
fn true_condition_skips_to_label() {
    let items = parsed(&["LOAD_PLUGIN UTILS", "IF true GOTO END", "UTILS.UECHO never", "LABEL END"]);
    let dry = ScriptRunner::dry_invocations(&items);
    assert_eq!(dry.len(), 1);
    assert_eq!(dry[0].command, "UECHO");
    let mut runner = ScriptRunner::new();
    assert!(runner.next_invocation(&items).is_none());
}

#[test]
fn conditional_skip_in_a_full_run() {
    let mut items = parsed(&[
        "LOAD_PLUGIN UTILS",
        "UTILS.UECHO before",
        "IF TRUE GOTO END",
        "UTILS.UECHO never",
        "LABEL END",
    ]);
    let mut manager = utils_manager("");
    let mut runner = ScriptRunner::new();
    assert!(runner.run_script(&mut items, &mut manager).is_ok());
    assert_eq!(manager.get_data("UTILS").as_deref(), Some("before"));
}

#[test]
fn false_condition_does_not_jump() {
    let items = parsed(&["LOAD_PLUGIN UTILS", "IF no GOTO END", "UTILS.UECHO runs", "LABEL END"]);
    let mut runner = ScriptRunner::new();
    let inv = runner.next_invocation(&items).expect("a call");
    assert_eq!(inv.args, "runs");
    assert!(runner.next_invocation(&items).is_none());
}

#[test]
fn condition_from_variable_macro() {
    let items = parsed(&[
        "LOAD_PLUGIN UTILS",
        "FLAG ?= UTILS.UECHO true",
        "IF $FLAG GOTO END",
        "UTILS.UECHO skipped",
        "LABEL END",
    ]);
    let mut runner = ScriptRunner::new();
    let first = runner.next_invocation(&items).expect("a call");
    assert_eq!(first.capture.as_deref(), Some("FLAG"));
    runner.complete(&first, "true".to_string());
    assert!(runner.next_invocation(&items).is_none());
}

#[test]
fn failing_command_stops_the_run() {
    let mut items = parsed(&["LOAD_PLUGIN UTILS", "UTILS.NOSUCH x"]);
    let mut manager = utils_manager("");
    let mut runner = ScriptRunner::new();
    match runner.run_script(&mut items, &mut manager) {
        Err(RunError::ErrorExecutingCommand { plugin, command }) => {
            assert_eq!(plugin, "UTILS");
            assert_eq!(command, "NOSUCH");
        }
        other => panic!("unexpected {:?}", other),
    }
}

#[test]
fn fault_tolerant_plugin_keeps_going() {
    let mut items = parsed(&["LOAD_PLUGIN UTILS", "UTILS.NOSUCH x", "UTILS.UECHO after"]);
    let mut manager = utils_manager("[UTILS]\nFAULT_TOLERANT = True\n");
    let mut runner = ScriptRunner::new();
    assert!(runner.run_script(&mut items, &mut manager).is_ok());
    assert_eq!(manager.get_data("UTILS").as_deref(), Some("after"));
}

#[test]
fn missing_plugin_is_reported_by_runner() {
    let mut items = parsed(&["LOAD_PLUGIN MATH", "MATH.MECHO 1"]);
    let mut manager = utils_manager("");
    let mut runner = ScriptRunner::new();
    match runner.run_script(&mut items, &mut manager) {
        Err(RunError::PluginNotFound { plugin }) => assert_eq!(plugin, "MATH"),
        other => panic!("unexpected {:?}", other),
    }
}

#[test]
fn bad_configuration_fails_loading() {
    let mut manager: PluginManager<UtilsPlugin> = PluginManager::new(ini("[UTILS]\nPRIVILEGED = maybe\n"));
    match manager.load_plugin("UTILS", UtilsPlugin::new()) {
        Err(ValidateError::PluginLoadingFailed { plugin }) => assert_eq!(plugin, "UTILS"),
        other => panic!("unexpected {:?}", other),
    }
    assert_eq!(manager.len(), 0);
}

#[test]
fn plugins_are_unloaded_once_each() {
    let mut manager: PluginManager<MathPlugin> = PluginManager::new(IniParserEx::new());
    manager.load_plugin("A", MathPlugin::new()).expect("loads");
    manager.load_plugin("B", MathPlugin::new()).expect("loads");
    manager.load_plugin("A", MathPlugin::new()).expect("loads again");
    assert!(manager.enable_plugins());
    let out = manager.unload_all();
    let names: Vec<&str> = out.iter().map(|(n, _)| n.as_str()).collect();
    assert_eq!(names, vec!["A", "B"]);
    assert!(out.iter().all(|(_, p)| p.is_enabled()));
    assert_eq!(manager.len(), 0);
}

#[test]
fn plugins_report_their_commands() {
    let u = UtilsPlugin::new();
    let mut params = Vec::new();
    u.get_params(&mut params);
    assert_eq!(params[0].0, "cmds");
    assert_eq!(params[0].1, vec!["UECHO".to_string(), "URESET".to_string(), "UPRINT".to_string()]);
    assert_eq!(params[1].0, "vers");
    assert_eq!(params[1].1, vec!["1.0.0.0".to_string()]);
    let mut m = MathPlugin::new();
    assert!(m.MECHO("7"));
    assert_eq!(m.get_data(), "7");
    assert!(m.MRESET(""));
    assert_eq!(m.get_data(), "");
    assert!(!m.do_dispatch("UECHO", "x"));
}

#[test]
fn configuration_flags() {
    let mut m = MathPlugin::new();
    let mut params = StringMap::new();
    params.insert("FAULT_TOLERANT".to_string(), " true ".to_string());
    params.insert("PRIVILEGED".to_string(), "FALSE".to_string());
    params.insert("OTHER".to_string(), "ignored".to_string());
    assert!(m.set_params(&params));
    assert!(m.is_fault_tolerant());
    assert!(!m.is_privileged());
    assert!(m.is_initialized());
}

#[test]
fn strings_to_booleans() {
    let mut b = false;
    assert!(string_to_bool(" TRUE ", &mut b));
    assert!(b);
    assert!(string_to_bool("false", &mut b));
    assert!(!b);
    b = true;
    assert!(!string_to_bool("yes", &mut b));
    assert!(b);
}

#[test]
fn versions_compare_numerically() {
    assert!(compare_versions("1.2", "<", "1.10"));
    assert!(compare_versions("1.0", "==", "1.0.0"));
    assert!(compare_versions("2.0.1", ">", "2.0"));
    assert!(compare_versions("1.x", "==", "1.0"));
    assert!(compare_versions("3", ">=", "3.0.0.0"));
    assert!(compare_versions("1.2.3", "!=", "1.2.4"));
    assert!(compare_versions("+4", "<=", "4"));
    assert!(!compare_versions("1.2", ">", "1.2"));
    assert!(compare_versions("99999999999999999999", "==", "0"));
}

#[test]
fn library_names_are_lower_case() {
    assert_eq!(build_library_name("UTILS", "so"), "libutils_plugin.so");
    assert_eq!(build_library_name("My_Math2", "dll"), "libmy_math2_plugin.dll");
}

#[test]
fn enabling_no_plugins_succeeds() {
    let mut manager: PluginManager<UtilsPlugin> = PluginManager::new(IniParserEx::new());
    assert!(manager.enable_plugins());
}

#[test]
fn math_plugin_reports_commands_and_version() {
    let m = MathPlugin::new();
    let params = m.params();
    assert_eq!(params[0].0, "cmds");
    assert_eq!(params[0].1, vec!["MECHO".to_string(), "MRESET".to_string(), "MPRINT".to_string()]);
    assert_eq!(params[1].0, "vers");
    assert_eq!(params[1].1, vec!["1.0.0.0".to_string()]);
    assert!(!m.is_initialized() && !m.is_enabled() && !m.is_privileged() && !m.is_fault_tolerant());
    assert_eq!(m.get_data(), "");
}
