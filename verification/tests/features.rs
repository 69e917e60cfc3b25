use germi::{Config, Germi};

fn create_germi() -> Germi {
    let mut germi = Germi::default();
    germi.add_variable("TEST_VAR", "test_value");
    germi.add_variable("NESTED_VAR", "${TEST_VAR}");
    germi.add_variable("EMPTY_VAR", "");
    germi
}

fn create_germi_with_config(config: Config) -> Germi {
    let mut germi = Germi::with_config(config);
    germi.add_variable("TEST_VAR", "test_value");
    germi.add_variable("NESTED_VAR", "${TEST_VAR}");
    germi.add_variable("EMPTY_VAR", "");
    germi
}

#[test]
fn test_default_value() {
    let germi = create_germi();
    let result = germi.interpolate("${MISSING:-default_val}").unwrap();
    assert_eq!(result, "default_val");

    let result = germi.interpolate("${EMPTY_VAR:-default_val}").unwrap();
    assert_eq!(result, "default_val");

    let result = germi.interpolate("${TEST_VAR:-default_val}").unwrap();
    assert_eq!(result, "test_value");
}

#[test]
fn test_alternate_value() {
    let germi = create_germi();
    let result = germi.interpolate("${MISSING-default_val}").unwrap();
    assert_eq!(result, "default_val");

    let result = germi.interpolate("${EMPTY_VAR-default_val}").unwrap();
    assert_eq!(result, "");

    let result = germi.interpolate("${TEST_VAR-default_val}").unwrap();
    assert_eq!(result, "test_value");
}

#[test]
fn test_conditional_value() {
    let germi = create_germi();

    let result = germi.interpolate("${TEST_VAR:+replaced}").unwrap();
    assert_eq!(result, "replaced");

    let result = germi.interpolate("${MISSING:+replaced}").unwrap();
    assert_eq!(result, "");
}

#[test]
fn test_defaults_disabled() {
    let mut config = Config::default();
    config.features.defaults = false;
    let germi = create_germi_with_config(config);

    let result = germi.interpolate("${MISSING:-default}");
    assert!(result.is_err());
}

#[test]
fn test_matrix_set_strict_default() {
    let germi = create_germi();
    let res = germi.interpolate("${TEST_VAR:-def}").unwrap();
    assert_eq!(res, "test_value");
}
#[test]
fn test_matrix_unset_strict_default() {
    let germi = create_germi();
    let res = germi.interpolate("${MISSING:-def}").unwrap();
    assert_eq!(res, "def");
}
#[test]
fn test_matrix_empty_strict_default() {
    let germi = create_germi();
    let res = germi.interpolate("${EMPTY_VAR:-def}").unwrap();
    assert_eq!(res, "def");
}

#[test]
fn test_matrix_set_loose_default() {
    let germi = create_germi();
    let res = germi.interpolate("${TEST_VAR-def}").unwrap();
    assert_eq!(res, "test_value");
}
#[test]
fn test_matrix_unset_loose_default() {
    let germi = create_germi();
    let res = germi.interpolate("${MISSING-def}").unwrap();
    assert_eq!(res, "def");
}
#[test]
fn test_matrix_empty_loose_default() {
    let germi = create_germi();
    let res = germi.interpolate("${EMPTY_VAR-def}").unwrap();
    assert_eq!(res, "");
}

#[test]
fn test_matrix_set_strict_conditional() {
    let germi = create_germi();
    let res = germi.interpolate("${TEST_VAR:+rep}").unwrap();
    assert_eq!(res, "rep");
}
#[test]
fn test_matrix_unset_strict_conditional() {
    let germi = create_germi();
    let res = germi.interpolate("${MISSING:+rep}").unwrap();
    assert_eq!(res, "");
}
#[test]
fn test_matrix_empty_strict_conditional() {
    let germi = create_germi();
    let res = germi.interpolate("${EMPTY_VAR:+rep}").unwrap();
    assert_eq!(res, "");
}

#[test]
fn test_matrix_set_loose_conditional() {
    let germi = create_germi();
    let res = germi.interpolate("${TEST_VAR+rep}").unwrap();
    assert_eq!(res, "rep");
}
#[test]
fn test_matrix_unset_loose_conditional() {
    let germi = create_germi();
    let res = germi.interpolate("${MISSING+rep}").unwrap();
    assert_eq!(res, "");
}
#[test]
fn test_matrix_empty_loose_conditional() {
    let germi = create_germi();
    let res = germi.interpolate("${EMPTY_VAR+rep}").unwrap();
    assert_eq!(res, "rep");
}
