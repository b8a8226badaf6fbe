use mcpg_expr::{env_references, resolve_env_in_string, ExprError};

fn vars(pairs: &[(&str, &str)]) -> Vec<(String, String)> {
    pairs
        .iter()
        .map(|p| (p.0.to_owned(), p.1.to_owned()))
        .collect()
}

#[test]
fn env_resolution_at_startup() {
    let vars = vars(&[("MCPGTEST_HOST", "prod.example.com")]);
    let result = resolve_env_in_string("https://${env.MCPGTEST_HOST}/api", &vars).unwrap();
    assert_eq!(result, "https://prod.example.com/api");
}

#[test]
fn env_resolution_missing_var_fails() {
    let result = resolve_env_in_string("${env.MCPG_DOES_NOT_EXIST_XYZ}", &Vec::new());
    assert!(result.is_err());
    assert!(result.unwrap_err().message().contains("not set"));
}

#[test]
fn env_resolution_leaves_non_env_untouched() {
    let result = resolve_env_in_string("${arguments.x}", &Vec::new()).unwrap();
    assert_eq!(result, "${arguments.x}");
}

#[test]
fn legacy_dollar_env_form_is_not_resolved() {
    let vars = vars(&[("MCPG_EXPR_LEGACY", "secret")]);
    let legacy = format!("${{{}env.MCPG_EXPR_LEGACY}}", '$');
    let result = resolve_env_in_string(&legacy, &vars).unwrap();
    assert_eq!(result, legacy);
}

#[test]
fn env_resolution_preserves_non_ascii() {
    let vars = vars(&[("MCPG_EXPR_NONASCII", "x")]);
    let result = resolve_env_in_string("café ${env.MCPG_EXPR_NONASCII} Zürich", &vars).unwrap();
    assert_eq!(result, "café x Zürich");
}

#[test]
fn env_resolution_matches_nested_brace() {
    let vars = vars(&[("MCPG_EXPR_NEST_${X}", "v")]);
    let result = resolve_env_in_string("${env.NEST${X}}", &vars);
    assert!(result.is_err());
}

#[test]
fn env_bare_form_resolves_dollar_prefix_does_not() {
    let vars = vars(&[("MCPG_EXPR_ENV_STD", "host.example")]);
    assert_eq!(
        resolve_env_in_string("https://${env.MCPG_EXPR_ENV_STD}/x", &vars).unwrap(),
        "https://host.example/x"
    );
    let legacy = format!("https://{}{}/x", '$', "{$env.MCPG_EXPR_ENV_STD}");
    assert_eq!(resolve_env_in_string(&legacy, &vars).unwrap(), legacy);
}

#[test]
fn a_nested_name_is_taken_whole() {
    let vars = vars(&[("NEST${X}", "v")]);
    assert_eq!(resolve_env_in_string("<${env.NEST${X}}>", &vars).unwrap(), "<v>");
}

#[test]
fn text_that_begins_outside_ascii_is_kept() {
    let vars = vars(&[("A", "1")]);
    assert_eq!(resolve_env_in_string("é${env.A}✓${env.A}ß", &vars).unwrap(), "é1✓1ß");
}

#[test]
fn other_markers_beside_references_are_kept() {
    let vars = vars(&[("A", "${env.B}")]);
    // A value is not looked into.
    assert_eq!(
        resolve_env_in_string("${arguments.x}${env.A}${cred://a/b}${", &vars).unwrap(),
        "${arguments.x}${env.B}${cred://a/b}${"
    );
}

#[test]
fn env_faults_are_reported() {
    let known = vars(&[("A", "1")]);
    assert_eq!(
        resolve_env_in_string("ab${env.A", &known).unwrap_err(),
        ExprError::UnclosedEnv { position: 2 }
    );
    assert_eq!(
        resolve_env_in_string("ab${env.A", &known).unwrap_err().message(),
        "unclosed ${env.} reference at position 2"
    );
    assert_eq!(
        resolve_env_in_string("${env.A}${env.}", &known).unwrap_err(),
        ExprError::EmptyEnvName { position: 8 }
    );
    assert_eq!(
        resolve_env_in_string("${env.}", &known).unwrap_err().message(),
        "empty env var name in ${env.} at position 0"
    );
    assert_eq!(
        resolve_env_in_string("${env.B}${env.}", &known).unwrap_err(),
        ExprError::EnvNotSet {
            name: "B".to_owned()
        }
    );
    assert_eq!(
        resolve_env_in_string("${env.B}", &known).unwrap_err().message(),
        "environment variable 'B' is not set"
    );
}

#[test]
fn only_the_references_matter() {
    let text = "${env.A}-${env.B}-${x}";
    assert_eq!(env_references(text), vec!["A".to_owned(), "B".to_owned()]);
    let few = vars(&[("A", "1"), ("B", "2")]);
    let many = vars(&[("C", "3"), ("B", "9"), ("A", "1"), ("B", "2")]);
    assert_eq!(
        resolve_env_in_string(text, &few).unwrap(),
        resolve_env_in_string(text, &many).unwrap()
    );
    assert_eq!(resolve_env_in_string(text, &few).unwrap(), "1-2-${x}");
}

#[test]
fn references_are_listed_up_to_a_fault() {
    assert_eq!(env_references("no reference"), Vec::<String>::new());
    assert_eq!(env_references("${env.A}${env.}${env.B}"), vec!["A".to_owned()]);
    assert_eq!(env_references("${env.A}${env.A}"), vec!["A".to_owned(), "A".to_owned()]);
}
