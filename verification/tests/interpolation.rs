use germi::context::OverlayProvider;
use germi::interpolator::{is_plain_str, Interpolator};
use germi::{Config, Error, FeatureConfig, Germi, SimpleContext, VariableProvider};
use std::borrow::Cow;

fn engine(config: Config) -> Germi {
    let mut germi = Germi::with_config(config);
    germi.add_variable("TEST_VAR", "test_value");
    germi.add_variable("EMPTY_VAR", "");
    germi
}

fn standard() -> Germi {
    engine(Config::default())
}

fn with_features(change: fn(&mut FeatureConfig)) -> Germi {
    let mut config = Config::default();
    change(&mut config.features);
    engine(config)
}

#[test]
fn default_configuration() {
    let config = Config::default();
    assert_eq!(config.max_depth, 10);
    assert!(!config.strict_unsets);
    let f = FeatureConfig::default();
    assert!(f.variables && f.defaults && f.alternates && f.conditionals);
    assert!(f.escapes && f.commands && f.backtick_commands);
    let g = config.features;
    assert!(g.variables && g.defaults && g.alternates && g.conditionals);
    assert!(g.escapes && g.commands && g.backtick_commands);
}

#[test]
fn plain_text_comes_back_borrowed() {
    let germi = standard();
    for text in ["", "Just a plain string without variables", "a{b}c(d)e:-f+g\"h\" é🚀\n"] {
        let result = germi.interpolate(text).unwrap();
        assert!(matches!(result, Cow::Borrowed(s) if s == text));
    }
}

#[test]
fn unchanged_tokens_come_back_borrowed() {
    let germi = standard();
    for text in ["$(echo hi)", "`echo hi`", "a $ b", "'${NOT_INTERPOLATED}'", "it's"] {
        let result = germi.interpolate(text).unwrap();
        assert!(matches!(result, Cow::Borrowed(s) if s == text), "{}", text);
    }
    let off = with_features(|f| {
        f.variables = false;
        f.escapes = false;
    });
    for text in ["${TEST_VAR}", "$TEST_VAR and ${MISSING:-x}", r"a\nb"] {
        let result = off.interpolate(text).unwrap();
        assert!(matches!(result, Cow::Borrowed(s) if s == text), "{}", text);
    }
}

#[test]
fn rewritten_text_comes_back_owned() {
    let germi = standard();
    assert!(matches!(germi.interpolate("${TEST_VAR}").unwrap(), Cow::Owned(s) if s == "test_value"));
    assert!(matches!(germi.interpolate("${EMPTY_VAR}").unwrap(), Cow::Owned(s) if s.is_empty()));
    assert!(matches!(germi.interpolate(r"a\\b").unwrap(), Cow::Owned(s) if s == r"a\b"));
    assert!(matches!(germi.interpolate(r"\$").unwrap(), Cow::Owned(s) if s == "$"));
    assert!(matches!(germi.interpolate(r"a\xb").unwrap(), Cow::Owned(s) if s == "axb"));
}

#[test]
fn single_quoted_text_is_not_interpolated() {
    let germi = standard();
    let result = germi.interpolate("'${NOT_INTERPOLATED}'").unwrap();
    assert_eq!(result, "'${NOT_INTERPOLATED}'");
    let result = germi.interpolate("'$TEST_VAR' $TEST_VAR '`x` $(y)'").unwrap();
    assert_eq!(result, "'$TEST_VAR' test_value '`x` $(y)'");
}

#[test]
fn escapes_inside_single_quotes_are_still_unescaped() {
    let germi = standard();
    assert_eq!(germi.interpolate(r"'a\tb' \'$TEST_VAR\'").unwrap(), "'a\tb' 'test_value'");
}

#[test]
fn every_escape_sequence() {
    let germi = standard();
    assert_eq!(germi.interpolate(r"\n").unwrap(), "\n");
    assert_eq!(germi.interpolate(r"\r").unwrap(), "\r");
    assert_eq!(germi.interpolate(r"\t").unwrap(), "\t");
    assert_eq!(germi.interpolate(r"\\").unwrap(), "\\");
    assert_eq!(germi.interpolate(r#"\""#).unwrap(), "\"");
    assert_eq!(germi.interpolate(r"\'").unwrap(), "'");
    assert_eq!(germi.interpolate(r"\`").unwrap(), "`");
    assert_eq!(germi.interpolate(r"\$").unwrap(), "$");
    assert_eq!(germi.interpolate(r"\x\é\0").unwrap(), "xé0");
    assert_eq!(germi.interpolate(r"end\").unwrap(), r"end\");
    assert_eq!(germi.interpolate(r"\\n").unwrap(), r"\n");
    assert_eq!(germi.interpolate(r"a\\\nb").unwrap(), "a\\\nb");
}

#[test]
fn escaped_dollar_keeps_what_follows_literal() {
    let germi = standard();
    assert_eq!(germi.interpolate(r"\$TEST_VAR").unwrap(), "$TEST_VAR");
    assert_eq!(germi.interpolate(r"\$(echo hi)").unwrap(), "$(echo hi)");
    assert_eq!(germi.interpolate(r"\\${TEST_VAR}").unwrap(), r"\test_value");
}

#[test]
fn escapes_switched_off() {
    let germi = with_features(|f| f.escapes = false);
    assert_eq!(germi.interpolate(r"a\tb ${TEST_VAR}").unwrap(), r"a\tb test_value");
    assert_eq!(germi.interpolate(r"a\\b").unwrap(), r"a\\b");
}

#[test]
fn values_are_unescaped_too() {
    let mut germi = standard();
    germi.add_variable("TABBED", r"a\tb");
    assert_eq!(germi.interpolate("${TABBED}").unwrap(), "a\tb");
}

#[test]
fn simple_and_braced_forms() {
    let germi = standard();
    assert_eq!(germi.interpolate("$TEST_VAR").unwrap(), "test_value");
    assert_eq!(germi.interpolate("$TEST_VAR.txt").unwrap(), "test_value.txt");
    assert_eq!(germi.interpolate("<${TEST_VAR}>").unwrap(), "<test_value>");
    assert_eq!(germi.interpolate("$TEST_VAR$TEST_VAR").unwrap(), "test_valuetest_value");
    assert_eq!(germi.interpolate("$TEST_VARX"), Err(Error::MissingVar("TEST_VARX".to_string())));
}

#[test]
fn variables_switched_off_pass_through() {
    let germi = with_features(|f| f.variables = false);
    assert_eq!(germi.interpolate("$TEST_VAR ${MISSING:-d} ${X").is_err(), true);
    assert_eq!(germi.interpolate("$TEST_VAR ${MISSING:-d}").unwrap(), "$TEST_VAR ${MISSING:-d}");
    assert_eq!(germi.interpolate(r"$MISSING\n").unwrap(), "$MISSING\n");
}

#[test]
fn defaults_switched_off_fall_back_to_plain_lookup() {
    let germi = with_features(|f| f.defaults = false);
    assert_eq!(germi.interpolate("${MISSING:-d}"), Err(Error::MissingVar("MISSING".to_string())));
    assert_eq!(germi.interpolate("${EMPTY_VAR:-d}").unwrap(), "");
    assert_eq!(germi.interpolate("${TEST_VAR:-d}").unwrap(), "test_value");
    assert_eq!(germi.interpolate("${MISSING-d}").unwrap(), "d");
}

#[test]
fn alternates_switched_off_fall_back_to_plain_lookup() {
    let germi = with_features(|f| f.alternates = false);
    assert_eq!(germi.interpolate("${MISSING-d}"), Err(Error::MissingVar("MISSING".to_string())));
    assert_eq!(germi.interpolate("${EMPTY_VAR-d}").unwrap(), "");
    assert_eq!(germi.interpolate("${TEST_VAR-d}").unwrap(), "test_value");
    assert_eq!(germi.interpolate("${MISSING:-d}").unwrap(), "d");
}

#[test]
fn conditionals_switched_off_fall_back_to_plain_lookup() {
    let germi = with_features(|f| f.conditionals = false);
    assert_eq!(germi.interpolate("${TEST_VAR:+rep}").unwrap(), "test_value");
    assert_eq!(germi.interpolate("${TEST_VAR+rep}").unwrap(), "test_value");
    assert_eq!(germi.interpolate("${EMPTY_VAR+rep}").unwrap(), "");
    assert_eq!(germi.interpolate("${MISSING:+rep}"), Err(Error::MissingVar("MISSING".to_string())));
    assert_eq!(germi.interpolate("${MISSING+rep}"), Err(Error::MissingVar("MISSING".to_string())));
}

#[test]
fn replacement_text_is_looked_at_only_where_used() {
    let germi = standard();
    assert_eq!(germi.interpolate("${MISSING:+${ALSO_MISSING}}").unwrap(), "");
    assert_eq!(germi.interpolate("${MISSING+${ALSO_MISSING}}").unwrap(), "");
    assert_eq!(germi.interpolate("${EMPTY_VAR:+${ALSO_MISSING}}").unwrap(), "");
    assert_eq!(germi.interpolate("${TEST_VAR:-${ALSO_MISSING}}").unwrap(), "test_value");
    assert_eq!(germi.interpolate("${EMPTY_VAR-${ALSO_MISSING}}").unwrap(), "");
    assert_eq!(
        germi.interpolate("${TEST_VAR:+${ALSO_MISSING}}"),
        Err(Error::MissingVar("ALSO_MISSING".to_string()))
    );
    assert_eq!(
        germi.interpolate("${EMPTY_VAR+${ALSO_MISSING}}"),
        Err(Error::MissingVar("ALSO_MISSING".to_string()))
    );
    assert_eq!(
        germi.interpolate("${MISSING:-${ALSO_MISSING}}"),
        Err(Error::MissingVar("ALSO_MISSING".to_string()))
    );
}

#[test]
fn self_reference_fails_for_every_depth_limit() {
    for max_depth in [0usize, 1, 2, 3, 10, 50] {
        let mut config = Config::default();
        config.max_depth = max_depth;
        let mut germi = Germi::with_config(config);
        germi.add_variable("LOOP", "${LOOP}");
        assert_eq!(
            germi.interpolate("${LOOP}"),
            Err(Error::RecursiveLookup("${LOOP}".to_string())),
            "limit {}",
            max_depth
        );
    }
}

#[test]
fn depth_limit_counts_nested_expansions() {
    let mut config = Config::default();
    config.max_depth = 2;
    let mut germi = Germi::with_config(config);
    germi.add_variable("A", "a");
    germi.add_variable("B", "${A}");
    germi.add_variable("C", "${B}");
    assert_eq!(germi.interpolate("${A}").unwrap(), "a");
    assert_eq!(germi.interpolate("${B}").unwrap(), "a");
    assert_eq!(germi.interpolate("${C}"), Err(Error::RecursiveLookup("a".to_string())));
    assert_eq!(germi.interpolate("${X:-${Y:-z}}").unwrap(), "z");
    assert_eq!(germi.interpolate("${X:-${Y:-${Z:-w}}}"), Err(Error::RecursiveLookup("w".to_string())));
}

#[test]
fn depth_limit_of_zero_allows_no_expansion() {
    let mut config = Config::default();
    config.max_depth = 0;
    let germi = engine(config);
    assert_eq!(germi.interpolate("plain").unwrap(), "plain");
    assert_eq!(germi.interpolate(r"a\tb").unwrap(), "a\tb");
    assert_eq!(germi.interpolate("${MISSING:+x}").unwrap(), "");
    assert_eq!(germi.interpolate("${TEST_VAR}"), Err(Error::RecursiveLookup("test_value".to_string())));
    assert_eq!(germi.interpolate("${EMPTY_VAR}"), Err(Error::RecursiveLookup("".to_string())));
    assert_eq!(germi.interpolate("${MISSING:-d}"), Err(Error::RecursiveLookup("d".to_string())));
}

#[test]
fn first_failure_from_the_left_is_reported() {
    let germi = standard();
    assert_eq!(germi.interpolate("${MISSING} ${OPEN"), Err(Error::MissingVar("MISSING".to_string())));
    assert_eq!(germi.interpolate("${TEST_VAR} ${OPEN"), Err(Error::UnclosedBrace(12)));
    assert_eq!(germi.interpolate("é ${OPEN ${MISSING}"), Err(Error::UnclosedBrace(3)));
}

#[test]
fn error_positions_in_a_value_refer_to_the_value() {
    let mut germi = standard();
    germi.add_variable("BROKEN", "ab${");
    assert_eq!(germi.interpolate("0123456789 ${BROKEN}"), Err(Error::UnclosedBrace(2)));
}

#[test]
fn commands_stay_as_written() {
    let germi = standard();
    assert_eq!(germi.interpolate("a $(echo ${TEST_VAR}) b").unwrap(), "a $(echo ${TEST_VAR}) b");
    assert_eq!(germi.interpolate("${TEST_VAR} `echo $TEST_VAR`").unwrap(), "test_value `echo $TEST_VAR`");
    assert!(matches!(germi.interpolate("$(echo"), Err(Error::SyntaxError(_, 0))));
    assert_eq!(germi.interpolate("$(echo 'x)"), Err(Error::UnclosedQuote(7)));
}

#[test]
fn extra_variables_take_precedence_for_one_call() {
    let germi = standard();
    let mut extra = SimpleContext::new();
    extra.insert("TEST_VAR", "shadow");
    extra.insert("ONLY_EXTRA", "extra");
    let result = germi.interpolate_with("${TEST_VAR} ${ONLY_EXTRA} ${EMPTY_VAR:-e}", &extra).unwrap();
    assert_eq!(result, "shadow extra e");
    assert_eq!(germi.interpolate("${TEST_VAR}").unwrap(), "test_value");
    assert_eq!(germi.interpolate("${ONLY_EXTRA}"), Err(Error::MissingVar("ONLY_EXTRA".to_string())));
}

#[test]
fn extra_variables_may_refer_to_the_engine_s() {
    let germi = standard();
    let mut extra = SimpleContext::default();
    extra.insert("GREETING", "hello ${TEST_VAR}");
    assert_eq!(germi.interpolate_with("$GREETING!", &extra).unwrap(), "hello test_value!");
    assert!(matches!(germi.interpolate_with("plain", &extra).unwrap(), Cow::Borrowed("plain")));
}

#[test]
fn simple_context_looks_up() {
    let mut context = SimpleContext::new();
    assert_eq!(context.get_value("A"), None);
    context.insert("A", "1");
    context.insert("", "empty");
    context.insert("A", "2");
    assert_eq!(context.get_value("A"), Some("2"));
    assert_eq!(context.get_value(""), Some("empty"));
    assert_eq!(context.get_value("a"), None);
}

#[test]
fn overlay_answers_before_base() {
    let mut base = SimpleContext::new();
    base.insert("A", "base-a");
    base.insert("B", "base-b");
    let mut over = SimpleContext::new();
    over.insert("A", "over-a");
    over.insert("C", "");
    let provider = OverlayProvider { base: &base, overlay: &over };
    assert_eq!(provider.get_value("A"), Some("over-a"));
    assert_eq!(provider.get_value("B"), Some("base-b"));
    assert_eq!(provider.get_value("C"), Some(""));
    assert_eq!(provider.get_value("D"), None);
}

#[test]
fn interpolator_on_a_provider() {
    let mut context = SimpleContext::new();
    context.insert("NAME", "world");
    let config = Config::default();
    let interpolator = Interpolator::new(&context, &config);
    assert_eq!(interpolator.features().variables, true);
    assert_eq!(interpolator.interpolate("hello ${NAME:-you}").unwrap(), "hello world");
    let mut extra = SimpleContext::new();
    extra.insert("NAME", "there");
    assert_eq!(interpolator.interpolate_with("hello $NAME", &extra).unwrap(), "hello there");
}

#[test]
fn resolve_appends_and_reports_rewriting() {
    let mut context = SimpleContext::new();
    context.insert("NAME", "world");
    let config = Config::default();
    let interpolator = Interpolator::new(&context, &config);
    let text: Vec<char> = r"\$NAME is $NAME".chars().collect();
    let mut out = String::from("> ");
    assert_eq!(interpolator.resolve(&text, 0, false, &mut out), Ok(true));
    assert_eq!(out, "> $NAME is world");
    let mut kept = String::new();
    assert_eq!(interpolator.resolve(&text, 0, true, &mut kept), Ok(true));
    assert_eq!(kept, r"\$NAME is world");
    let plain: Vec<char> = "plain".chars().collect();
    let mut same = String::new();
    assert_eq!(interpolator.resolve(&plain, 0, false, &mut same), Ok(false));
    assert_eq!(same, "plain");
    let mut deep = String::new();
    assert_eq!(
        interpolator.resolve(&plain, 11, false, &mut deep),
        Err(Error::RecursiveLookup("plain".to_string()))
    );
}

#[test]
fn unescape_into_appends() {
    let text: Vec<char> = r#"a\nb\rc\td\\e\"f\'g\hi\"#.chars().collect();
    let mut out = String::from("[");
    Interpolator::<SimpleContext>::unescape_into(&mut out, &text);
    assert_eq!(out, "[a\nb\rc\td\\e\"f'ghi\\");
}

#[test]
fn resolve_variable_follows_the_modifier() {
    let mut context = SimpleContext::new();
    context.insert("SET", "v");
    context.insert("EMPTY", "");
    let config = Config::default();
    let interpolator = Interpolator::new(&context, &config);
    let run = |name: &str, default: Option<&str>, strict: bool, conditional: bool| {
        let name: Vec<char> = name.chars().collect();
        let default: Option<Vec<char>> = default.map(|d| d.chars().collect());
        let mut out = String::new();
        interpolator
            .resolve_variable(&name, default.as_deref(), strict, conditional, 0, false, &mut out)
            .map(|_| out)
    };
    assert_eq!(run("SET", None, false, false), Ok("v".to_string()));
    assert_eq!(run("UNSET", None, false, false), Err(Error::MissingVar("UNSET".to_string())));
    assert_eq!(run("EMPTY", Some("d"), true, false), Ok("d".to_string()));
    assert_eq!(run("EMPTY", Some("d"), false, false), Ok("".to_string()));
    assert_eq!(run("EMPTY", Some("d"), true, true), Ok("".to_string()));
    assert_eq!(run("EMPTY", Some("d"), false, true), Ok("d".to_string()));
    assert_eq!(run("UNSET", Some("${SET}"), true, false), Ok("v".to_string()));
    assert_eq!(run("UNSET", None, true, true), Err(Error::MissingVar("UNSET".to_string())));
}

#[test]
fn engine_starts_without_variables() {
    assert_eq!(Germi::new().interpolate("$A"), Err(Error::MissingVar("A".to_string())));
    assert_eq!(Germi::default().interpolate("${A:-d}").unwrap(), "d");
    assert_eq!(Germi::with_config(Config::default()).interpolate("x").unwrap(), "x");
}

#[test]
fn plain_check_looks_for_the_four_special_characters() {
    for text in ["", "abc", "a{b}c(d)e:-f+g\"h\"", "é🚀€ß", "\u{2424}\u{245c}\u{2427}\u{2460}", "§¤"] {
        assert!(is_plain_str(text), "{:?}", text);
    }
    for text in ["$", "a$b", "\\", "é\\", "'", "🚀'x", "`", "x`"] {
        assert!(!is_plain_str(text), "{:?}", text);
    }
}
