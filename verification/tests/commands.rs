use germi::commands::CommandOutcome;
use germi::{Config, Error, Germi};

fn create_germi() -> Germi {
    let mut germi = Germi::default();
    germi.add_variable("TEST_VAR", "test_value");
    germi.add_variable("NESTED_VAR", "${TEST_VAR}");
    germi.add_variable("EMPTY_VAR", "");
    germi
}

fn create_germi_with_config(config: Config) -> Germi {
    let mut germi = Germi::with_config(config);
    germi.add_variable("TEST_VAR", "test_value");
    germi.add_variable("NESTED_VAR", "${TEST_VAR}");
    germi.add_variable("EMPTY_VAR", "");
    germi
}

/// Stands in for a shell: knows `echo`, fails on anything else.
fn run(line: &str) -> CommandOutcome {
    let unquoted: String = line.chars().filter(|c| *c != '"' && *c != '\'').collect();
    if let Some(rest) = unquoted.strip_prefix("echo ") {
        CommandOutcome::Output(format!("{}\n", rest))
    } else {
        CommandOutcome::Failed(format!("sh: {}: command not found", line))
    }
}

fn interpolate_commands(germi: &Germi, input: &str) -> Result<String, Error> {
    let mut pass = germi.begin_commands(input)?;
    while let Some(line) = germi.next_command(&mut pass)? {
        pass.supply(run(&line))?;
    }
    Ok(pass.finish())
}

#[test]
fn test_command_execution() {
    let germi = create_germi();
    let result = interpolate_commands(&germi, "Echo says: $(echo 'hello')").unwrap();
    assert_eq!(result, "Echo says: hello");
}

#[test]
fn test_command_with_variable() {
    let germi = create_germi();
    let result = interpolate_commands(&germi, "Value: $(echo ${TEST_VAR})").unwrap();
    assert_eq!(result, "Value: test_value");
}

#[test]
fn test_command_error() {
    let germi = create_germi();
    let result = interpolate_commands(&germi, "$(non_existent_command_12345)");
    assert!(matches!(result, Err(Error::CommandError(_)) | Err(Error::IoError(_))));
}

#[test]
fn test_commands_disabled() {
    let mut config = Config::default();
    config.features.commands = false;
    let germi = create_germi_with_config(config);

    let result = interpolate_commands(&germi, "$(echo hi)").unwrap();
    assert_eq!(result, "$(echo hi)");
}

#[test]
fn command_lines_are_handed_out_in_order() {
    let germi = create_germi();
    let mut pass = germi.begin_commands("a $(first ${TEST_VAR}) b `second` c").unwrap();
    let mut lines = Vec::new();
    while let Some(line) = germi.next_command(&mut pass).unwrap() {
        lines.push(line.clone());
        pass.supply(CommandOutcome::Output(format!("<{}>", line))).unwrap();
    }
    assert_eq!(lines, vec!["first test_value", "second"]);
    assert_eq!(pass.finish(), "a <first test_value> b <second> c");
}

#[test]
fn output_loses_only_its_trailing_newlines() {
    let germi = create_germi();
    let mut pass = germi.begin_commands("[$(cmd)]").unwrap();
    assert_eq!(germi.next_command(&mut pass).unwrap(), Some("cmd".to_string()));
    pass.supply(CommandOutcome::Output("\n one\ntwo \n\n\n".to_string())).unwrap();
    assert_eq!(germi.next_command(&mut pass).unwrap(), None);
    assert_eq!(pass.finish(), "[\n one\ntwo ]");
}

#[test]
fn output_of_newlines_only_is_empty() {
    let germi = create_germi();
    let mut pass = germi.begin_commands("[$(cmd)]").unwrap();
    germi.next_command(&mut pass).unwrap();
    pass.supply(CommandOutcome::Output("\n\n".to_string())).unwrap();
    germi.next_command(&mut pass).unwrap();
    assert_eq!(pass.finish(), "[]");
}

#[test]
fn failed_command_gives_command_error_with_stderr() {
    let germi = create_germi();
    let mut pass = germi.begin_commands("$(false)").unwrap();
    germi.next_command(&mut pass).unwrap();
    let result = pass.supply(CommandOutcome::Failed("boom\n".to_string()));
    assert_eq!(result, Err(Error::CommandError("boom\n".to_string())));
}

#[test]
fn command_that_cannot_start_gives_io_error() {
    let germi = create_germi();
    let mut pass = germi.begin_commands("$(missing)").unwrap();
    germi.next_command(&mut pass).unwrap();
    let result = pass.supply(CommandOutcome::NotStarted("No such file or directory".to_string()));
    assert_eq!(result, Err(Error::IoError("No such file or directory".to_string())));
}

#[test]
fn command_output_is_not_scanned_again() {
    let germi = create_germi();
    let mut pass = germi.begin_commands("$(cmd) ${TEST_VAR}").unwrap();
    germi.next_command(&mut pass).unwrap();
    pass.supply(CommandOutcome::Output("${MISSING} $(other)".to_string())).unwrap();
    assert_eq!(germi.next_command(&mut pass).unwrap(), None);
    assert_eq!(pass.finish(), "${MISSING} $(other) test_value");
}

#[test]
fn missing_variable_in_command_text_fails_before_the_command_runs() {
    let germi = create_germi();
    let mut pass = germi.begin_commands("a $(echo ${MISSING}) b").unwrap();
    assert_eq!(germi.next_command(&mut pass), Err(Error::MissingVar("MISSING".to_string())));
}

#[test]
fn unclosed_command_fails_when_commands_begin() {
    let germi = create_germi();
    let result = germi.begin_commands("before $(echo hi");
    match result {
        Err(Error::SyntaxError(message, position)) => {
            assert_eq!(message, "Unclosed command substitution starting at 7");
            assert_eq!(position, 7);
        }
        _ => panic!("expected a syntax error"),
    }
}

#[test]
fn commands_switched_off_but_escapes_still_resolved() {
    let mut config = Config::default();
    config.features.commands = false;
    config.features.backtick_commands = false;
    let germi = create_germi_with_config(config);
    let result = interpolate_commands(&germi, r"\$(a) $(b) `c` \`d\`").unwrap();
    assert_eq!(result, "$(a) $(b) `c` `d`");
}

#[test]
fn nested_parentheses_and_quotes_stay_in_one_command() {
    let germi = create_germi();
    let mut pass = germi.begin_commands(r#"$(echo (a) ")" ')' \) done) tail"#).unwrap();
    let line = germi.next_command(&mut pass).unwrap().unwrap();
    assert_eq!(line, r#"echo (a) ")" ')' ) done"#);
    pass.supply(CommandOutcome::Output("x".to_string())).unwrap();
    assert_eq!(germi.next_command(&mut pass).unwrap(), None);
    assert_eq!(pass.finish(), "x tail");
}

#[test]
fn command_in_a_value_is_run() {
    let mut germi = create_germi();
    germi.add_variable("CMD", "$(echo from ${TEST_VAR})");
    let mut pass = germi.begin_commands("got: ${CMD}").unwrap();
    assert_eq!(germi.next_command(&mut pass).unwrap(), Some("echo from test_value".to_string()));
    pass.supply(CommandOutcome::Output("from test_value\n".to_string())).unwrap();
    assert_eq!(germi.next_command(&mut pass).unwrap(), None);
    assert_eq!(pass.finish(), "got: from test_value");
}

#[test]
fn finish_before_the_end_gives_the_result_so_far() {
    let germi = create_germi();
    let mut pass = germi.begin_commands("a $(b) c").unwrap();
    germi.next_command(&mut pass).unwrap();
    assert_eq!(pass.finish(), "a ");
}
