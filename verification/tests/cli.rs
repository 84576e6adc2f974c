use polyrust::{
    check_module_name, format_version, parse_check_arguments, parse_command, parse_emit_arguments,
    parse_explain_arguments, parse_options, parse_targets_arguments, valid_identifier,
    BackendVersion, Command, OptionValue,
};

fn args(values: &[&str]) -> Vec<String> {
    values.iter().map(|value| (*value).to_owned()).collect()
}

#[test]
fn option_pairs_split_at_the_first_equals_sign() {
    let options = parse_options(args(&["style=compact", "path=a=b", "empty="])).unwrap();
    assert_eq!(options.get("style"), Some(&OptionValue::Text("compact".to_owned())));
    assert_eq!(options.get("path"), Some(&OptionValue::Text("a=b".to_owned())));
    assert_eq!(options.get("empty"), Some(&OptionValue::Text(String::new())));
    assert_eq!(
        parse_options(args(&["novalue"])).unwrap_err(),
        "option \"novalue\" must be name=value"
    );
    assert_eq!(
        parse_options(args(&["=x"])).unwrap_err(),
        "option name \"\" is empty or duplicated"
    );
    assert_eq!(
        parse_options(args(&["a=1", "a=2"])).unwrap_err(),
        "option name \"a\" is empty or duplicated"
    );
}

#[test]
fn versions_are_written_major_minor_patch() {
    assert_eq!(format_version(BackendVersion::new(1, 20, 3)), "1.20.3");
    assert_eq!(format_version(BackendVersion::new(0, 0, 65535)), "0.0.65535");
}

#[test]
fn the_first_argument_names_the_command() {
    assert_eq!(parse_command(None), Command::Missing);
    assert_eq!(parse_command(Some("-h")), Command::Help);
    assert_eq!(parse_command(Some("help")), Command::Help);
    assert_eq!(parse_command(Some("check")), Command::Check);
    assert_eq!(parse_command(Some("emit")), Command::Emit);
    assert_eq!(parse_command(Some("targets")), Command::Targets);
    assert_eq!(parse_command(Some("explain")), Command::Explain);
    assert_eq!(
        parse_command(Some("build")),
        Command::Unknown("unknown command \"build\"".to_owned())
    );
}

#[test]
fn check_arguments_need_one_input() {
    let request = parse_check_arguments(&args(&["in.json", "--target", "org.x.y", "--json"])).unwrap();
    assert_eq!(request.input, "in.json");
    assert_eq!(request.target.as_deref(), Some("org.x.y"));
    assert!(request.json);
    assert_eq!(
        parse_check_arguments(&args(&["in.json", "--target"])).unwrap_err(),
        "--target requires a value"
    );
    assert_eq!(
        parse_check_arguments(&args(&["-x"])).unwrap_err(),
        "unknown check option \"-x\""
    );
    assert_eq!(
        parse_check_arguments(&args(&["a", "b"])).unwrap_err(),
        "check requires exactly one input path"
    );
}

#[test]
fn emit_arguments_need_input_target_and_output() {
    let request = parse_emit_arguments(&args(&[
        "in.json", "--target", "org.x.y", "--out", "dir", "--option", "a=1", "--dry-run",
        "--option", "b=2",
    ]))
    .unwrap();
    assert_eq!(request.input, "in.json");
    assert_eq!(request.target, "org.x.y");
    assert_eq!(request.output, "dir");
    assert!(request.dry_run);
    assert!(!request.json);
    assert_eq!(request.options, args(&["a=1", "b=2"]));
    assert_eq!(
        parse_emit_arguments(&args(&["in.json", "--out"])).unwrap_err(),
        "--out requires a value"
    );
    assert_eq!(
        parse_emit_arguments(&args(&["in.json", "other"])).unwrap_err(),
        "unexpected argument \"other\""
    );
    assert_eq!(
        parse_emit_arguments(&args(&["--bad"])).unwrap_err(),
        "unknown emit option \"--bad\""
    );
    assert_eq!(
        parse_emit_arguments(&args(&["in.json", "--target", "org.x.y"])).unwrap_err(),
        "emit requires input, --target, and --out"
    );
}

#[test]
fn targets_and_explain_arguments() {
    assert_eq!(parse_targets_arguments(&args(&[])), Ok(false));
    assert_eq!(parse_targets_arguments(&args(&["--json"])), Ok(true));
    assert_eq!(
        parse_targets_arguments(&args(&["x"])),
        Err("targets accepts only --json".to_owned())
    );
    assert_eq!(
        parse_explain_arguments(&args(&["P0001"])),
        Ok(("P0001".to_owned(), false))
    );
    assert_eq!(
        parse_explain_arguments(&args(&["P0001", "--json"])),
        Ok(("P0001".to_owned(), true))
    );
    assert_eq!(
        parse_explain_arguments(&args(&[])),
        Err("explain requires one diagnostic code and optional --json".to_owned())
    );
}

#[test]
fn portable_identifiers_and_module_names() {
    assert!(valid_identifier("_a1"));
    assert!(valid_identifier("Demo"));
    assert!(!valid_identifier(""));
    assert!(!valid_identifier("1a"));
    assert!(!valid_identifier("a-b"));
    assert!(!valid_identifier("é"));
    let mut diagnostics = Vec::new();
    check_module_name("demo", &mut diagnostics);
    assert!(diagnostics.is_empty());
    check_module_name("bad name", &mut diagnostics);
    assert_eq!(diagnostics.len(), 1);
    assert_eq!(diagnostics[0].code, "P0001");
    assert_eq!(
        diagnostics[0].message,
        "module name `bad name` is not a portable identifier"
    );
}
