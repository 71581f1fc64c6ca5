use herdr_branch_labels::formatter::{settle_replacement, CompiledPattern, Formatter};
use herdr_branch_labels::json::{Json, JsonNumber};

fn convert(value: &serde_json::Value) -> Json {
    match value {
        serde_json::Value::Null => Json::Null,
        serde_json::Value::Bool(b) => Json::Bool(*b),
        serde_json::Value::Number(n) => Json::Number(if let Some(u) = n.as_u64() {
            JsonNumber::PosInt(u)
        } else if let Some(i) = n.as_i64() {
            JsonNumber::NegInt(i)
        } else {
            JsonNumber::Float(n.as_f64().unwrap().to_bits())
        }),
        serde_json::Value::String(s) => Json::Str(s.clone()),
        serde_json::Value::Array(items) => Json::Array(items.iter().map(convert).collect()),
        serde_json::Value::Object(map) => Json::Object(
            map.iter()
                .map(|(k, v)| (k.clone(), convert(v)))
                .collect(),
        ),
    }
}

fn j(text: &str) -> Json {
    convert(&serde_json::from_str::<serde_json::Value>(text).unwrap())
}

fn format(config: Json, branch: &str) -> String {
    Formatter::new(&config).unwrap().format(branch).unwrap()
}

#[test]
fn missing_or_null_pattern_is_exact_identity() {
    for config in [j("{}"), j(r#"{"pattern": null, "replacement": "$1"}"#)] {
        assert_eq!(format(config, " main \n"), " main \n");
    }
}

#[test]
fn consumer_pattern_keeps_lookahead_and_defaults_to_empty_replacement() {
    let config = j(r#"{"pattern": "^[^/]+/[0-9]{4}-[0-9]{2}-[0-9]{2}-(?=.)"}"#);
    assert_eq!(
        format(j(r#"{"pattern": "^[^/]+/[0-9]{4}-[0-9]{2}-[0-9]{2}-(?=.)"}"#), "feat/2026-09-10-invoice-validation"),
        "invoice-validation"
    );
    assert_eq!(format(config, "feat/2026-09-10-"), "feat/2026-09-10-");
}

#[test]
fn only_first_match_changes_and_empty_result_preserves_original() {
    assert_eq!(format(j(r#"{"pattern": "foo"}"#), "foo-foo"), "-foo");
    assert_eq!(format(j(r#"{"pattern": ".*"}"#), " original "), " original ");
    assert_eq!(format(j(r#"{"pattern": "missing"}"#), " main \n"), "main");
}

#[test]
fn native_numbered_named_and_literal_dollar_replacements() {
    let config = j(r#"{"pattern": "^(?<type>[^/]+)/(.+)$", "replacement": "${2} ($type) $$"}"#);
    assert_eq!(format(config, "feature/invoices"), "invoices (feature) $");
    assert_eq!(
        format(j(r#"{"pattern": "(foo)", "replacement": "\\1"}"#), "foo"),
        r"\1"
    );
}

#[test]
fn invalid_configuration_fails_before_formatting() {
    for config in [
        "null",
        "[]",
        r#"{"unknown": true}"#,
        r#"{"replacement": null}"#,
        r#"{"pattern": 1}"#,
        r#"{"pattern": "("}"#,
    ] {
        assert!(Formatter::new(&j(config)).is_err(), "{config}");
    }
}

#[test]
fn backtracking_failure_is_returned_as_an_error() {
    let formatter = Formatter::from_parts(
        Some(CompiledPattern::with_backtrack_limit(r"(?i)(a|b|ab)*(?>c)", 10).unwrap()),
        String::new(),
    );
    assert!(formatter
        .format("abababababababababababababababababababababababababababab")
        .is_err());
}

#[test]
fn configuration_errors_name_the_problem() {
    assert_eq!(
        Formatter::new(&j("[]")).err().unwrap(),
        "config.json accepts only pattern and replacement"
    );
    assert_eq!(
        Formatter::new(&j(r#"{"pattern": "x", "extra": 1}"#)).err().unwrap(),
        "config.json accepts only pattern and replacement"
    );
    assert_eq!(
        Formatter::new(&j(r#"{"replacement": 3, "pattern": 1}"#)).err().unwrap(),
        "replacement must be a string"
    );
    assert_eq!(
        Formatter::new(&j(r#"{"pattern": true}"#)).err().unwrap(),
        "pattern must be a string or null"
    );
    let message = Formatter::new(&j(r#"{"pattern": "("}"#)).err().unwrap();
    assert!(!message.is_empty());
    assert_ne!(message, "(");
}

#[test]
fn replacement_is_trimmed_and_first_match_only() {
    let formatter = Formatter::new(&j(r#"{"pattern": "x", "replacement": " "}"#)).unwrap();
    assert_eq!(formatter.format("axbxc").unwrap(), "a bxc");
    assert_eq!(formatter.format("x").unwrap(), "x");
    assert_eq!(formatter.format("  x  ").unwrap(), "  x  ");
    assert_eq!(formatter.format(" ab ").unwrap(), "ab");
}

#[test]
fn settle_replacement_keeps_branch_for_blank_results() {
    assert_eq!(settle_replacement("b", Ok(" \u{3000}\t".to_owned())).unwrap(), "b");
    assert_eq!(settle_replacement("b", Ok("\u{a0} x y \n".to_owned())).unwrap(), "x y");
    assert_eq!(settle_replacement("b", Err("e".to_owned())).unwrap_err(), "e");
}
