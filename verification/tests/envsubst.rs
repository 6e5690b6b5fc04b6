//! References to variables in a text.
use mirror_v3::config::LoadError;
use mirror_v3::envsubst::{expand, Env, EnvSubstError, OsEnv};
use mirror_v3::validate::expand_config;

fn env(pairs: &[(&'static str, &'static str)]) -> OsEnv {
    OsEnv {
        vars: pairs
            .iter()
            .map(|(name, value)| (name.to_string(), value.to_string()))
            .collect(),
    }
}

#[test]
fn plain_text_passes_through() {
    let e = env(&[]);
    assert_eq!(expand("hello world", &e).unwrap(), "hello world");
    assert_eq!(expand("", &e).unwrap(), "");
}

#[test]
fn var_required_present_is_substituted() {
    let e = env(&[("REGION", "us-east-1")]);
    assert_eq!(expand("region=${REGION}", &e).unwrap(), "region=us-east-1");
}

#[test]
fn var_required_missing_errors() {
    let e = env(&[]);
    let err = expand("region=${REGION}", &e).expect_err("must err");
    assert_eq!(err, EnvSubstError::UndefinedVariable("REGION".into()));
}

#[test]
fn var_with_default_used_when_missing() {
    let e = env(&[]);
    assert_eq!(
        expand("region=${REGION:-us-east-1}", &e).unwrap(),
        "region=us-east-1"
    );
}

#[test]
fn var_with_default_overridden_when_set() {
    let e = env(&[("REGION", "eu-west-1")]);
    assert_eq!(
        expand("region=${REGION:-us-east-1}", &e).unwrap(),
        "region=eu-west-1"
    );
}

#[test]
fn empty_default_is_distinct_from_no_default() {
    let e = env(&[]);
    assert_eq!(expand("x=${X:-}", &e).unwrap(), "x=");
    assert!(matches!(
        expand("x=${X}", &e),
        Err(EnvSubstError::UndefinedVariable(_))
    ));
}

#[test]
fn double_dollar_escapes_to_literal() {
    let e = env(&[("FOO", "BAD")]);
    assert_eq!(expand("$$FOO", &e).unwrap(), "$FOO");
    assert_eq!(expand("$${FOO}", &e).unwrap(), "${FOO}");
    assert_eq!(expand("$$$$", &e).unwrap(), "$$");
}

#[test]
fn bare_dollar_passes_through() {
    let e = env(&[("FOO", "BAR")]);
    // `$FOO` (no braces) is not a variable reference; left alone.
    assert_eq!(expand("price=$5", &e).unwrap(), "price=$5");
    assert_eq!(expand("$FOO", &e).unwrap(), "$FOO");
}

#[test]
fn trailing_dollar_passes_through() {
    let e = env(&[]);
    assert_eq!(expand("foo$", &e).unwrap(), "foo$");
}

#[test]
fn unterminated_braces_errors() {
    let e = env(&[]);
    assert_eq!(expand("oops ${FOO", &e), Err(EnvSubstError::Unterminated));
}

#[test]
fn invalid_variable_name_passes_through_literal() {
    // ${123} is not a valid name; we don't substitute, but we
    // also don't error -- pass through as literal so a user can
    // put `${1.2.3}` etc. in YAML strings (e.g. version refs).
    let e = env(&[]);
    assert_eq!(expand("${123}", &e).unwrap(), "${123}");
    assert_eq!(expand("${1.2.3}", &e).unwrap(), "${1.2.3}");
}

#[test]
fn multiple_references_in_one_string() {
    let e = env(&[("A", "1"), ("B", "2")]);
    assert_eq!(expand("${A}-${B}-${A}", &e).unwrap(), "1-2-1");
}

#[test]
fn substituted_values_are_not_rescanned() {
    // Single-pass: if A expands to "${B}", we DO NOT then expand B.
    let e = env(&[("A", "${B}"), ("B", "wrong")]);
    assert_eq!(expand("${A}", &e).unwrap(), "${B}");
}

#[test]
fn first_undefined_is_reported() {
    let e = env(&[]);
    // Two undefined refs; first one wins.
    let err = expand("${MISSING_A}-${MISSING_B}", &e).expect_err("must err");
    assert_eq!(err, EnvSubstError::UndefinedVariable("MISSING_A".into()));
}

#[test]
fn doubling_every_dollar_is_undone() {
    let e = env(&[("A", "x")]);
    let text = "a$b${A}$$c";
    let escaped = text.replace('$', "$$");
    assert_eq!(expand(&escaped, &e).unwrap(), text);
}

#[test]
fn the_first_pair_of_a_startup_variable_counts() {
    let e = OsEnv {
        vars: vec![
            ("A".to_string(), "1".to_string()),
            ("A".to_string(), "2".to_string()),
        ],
    };
    assert_eq!(e.lookup("A"), Some("1".to_string()));
    assert_eq!(e.lookup("B"), None);
    assert_eq!(expand("${A}", &e).unwrap(), "1");
}

#[test]
fn errors_of_references_have_a_text() {
    assert_eq!(
        EnvSubstError::UndefinedVariable("A\"B".into()).message(),
        "undefined variable \"A\\\"B\""
    );
    assert_eq!(
        EnvSubstError::Unterminated.message(),
        "unterminated `${...}` reference"
    );
}

#[test]
fn missing_required_var_errors() {
    let yaml = r#"
mirrors:
  - name: ops
    source: { bootstrap-servers: ${MISSING_BROKER} }
    topic: ops
    partition: 0
    destinations:
      - type: kafka
        bootstrap-servers: ${MISSING_TARGET}
"#;
    let err = expand_config(yaml, &env(&[])).expect_err("must error");
    assert!(matches!(err, LoadError::EnvSubst(_)));
    let msg = err.message();
    assert!(
        msg.contains("env interpolation") && msg.contains("MISSING_BROKER"),
        "got: {msg}"
    );
}
