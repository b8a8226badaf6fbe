use mcpg_expr::{DynamicValue, ExprContext, ExprRequestContext, JsonValue};
use std::sync::Arc;

fn json(text: &str) -> JsonValue {
    let value: serde_json::Value = serde_json::from_str(text).unwrap();
    JsonValue::from_serde(&value)
}

fn resolved(template: &str, ctx: &ExprContext) -> String {
    DynamicValue::parse(template).unwrap().resolve(ctx).unwrap()
}

fn full_request() -> ExprContext {
    ExprContext {
        arguments: json(r#"{"x": 42}"#),
        tool_name: "test_tool".to_owned(),
        context: ExprRequestContext {
            principal_id: Some("user-1".to_owned()),
            trust_level: "verified".to_owned(),
            auth_provider: Some("google".to_owned()),
            session_id: Some("sess-1".to_owned()),
            transport: "http".to_owned(),
            roles: vec!["admin".to_owned(), "dev".to_owned()],
            groups: vec!["g1".to_owned()],
            scopes: Vec::new(),
            attributes: vec![
                ("team".to_owned(), "blue".to_owned()),
                ("team".to_owned(), "red".to_owned()),
            ],
        },
        steps: None,
        env: Arc::new(vec![("A".to_owned(), "1".to_owned()), ("A".to_owned(), "2".to_owned())]),
    }
}

#[test]
fn expr_context_provides_all_variables() {
    let ctx = ExprContext {
        arguments: json(r#"{"x": 42}"#),
        tool_name: "test_tool".to_owned(),
        context: ExprRequestContext {
            principal_id: Some("user-1".to_owned()),
            trust_level: "verified".to_owned(),
            auth_provider: Some("google".to_owned()),
            session_id: Some("sess-1".to_owned()),
            transport: "http".to_owned(),
            roles: Vec::new(),
            groups: Vec::new(),
            scopes: Vec::new(),
            attributes: Vec::new(),
        },
        steps: None,
        env: Arc::new(Vec::new()),
    };

    let dv = DynamicValue::parse("${tool_name}").unwrap();
    assert_eq!(dv.resolve(&ctx).unwrap(), "test_tool");

    let dv = DynamicValue::parse("${arguments.x}").unwrap();
    assert_eq!(dv.resolve(&ctx).unwrap(), "42");

    let dv = DynamicValue::parse("${context.principal_id}").unwrap();
    assert_eq!(dv.resolve(&ctx).unwrap(), "user-1");

    let dv = DynamicValue::parse("${context.trust_level}").unwrap();
    assert_eq!(dv.resolve(&ctx).unwrap(), "verified");
}

#[test]
fn args_alias_works_for_backward_compat() {
    let ctx = ExprContext {
        arguments: json(r#"{"name": "alice"}"#),
        ..Default::default()
    };
    let dv = DynamicValue::parse("${args.name}").unwrap();
    assert_eq!(dv.resolve(&ctx).unwrap(), "alice");
}

#[test]
fn steps_available_in_pipeline_context() {
    let ctx = ExprContext {
        arguments: json("{}"),
        steps: Some(json(r#"{"step1": {"output": {"result": "ok"}, "is_error": false}}"#)),
        ..Default::default()
    };

    let dv = DynamicValue::parse("${steps.step1.output.result}").unwrap();
    assert_eq!(dv.resolve(&ctx).unwrap(), "ok");
    assert_eq!(resolved("${steps.step1.is_error}", &ctx), "false");
}

#[test]
fn env_in_expr_context() {
    let ctx = ExprContext {
        env: Arc::new(vec![("API_KEY".to_owned(), "secret123".to_owned())]),
        ..Default::default()
    };

    let dv = DynamicValue::parse("${env.API_KEY}").unwrap();
    assert_eq!(dv.resolve(&ctx).unwrap(), "secret123");
}

#[test]
fn aliases_say_what_their_full_forms_say() {
    let ctx = full_request();
    for (alias, full) in [
        ("args.x", "arguments.x"),
        ("trust_level", "context.trust_level"),
        ("principal_id", "context.principal_id"),
        ("auth_provider", "context.auth_provider"),
        ("identity_kind", "context.transport"),
    ] {
        let template = format!("${{{} == {}}}", alias, full);
        assert_eq!(resolved(&template, &ctx), "true", "{}", template);
    }
}

#[test]
fn every_field_of_the_context_is_bound() {
    let ctx = full_request();
    assert_eq!(resolved("${context.auth_provider}", &ctx), "google");
    assert_eq!(resolved("${context.session_id}", &ctx), "sess-1");
    assert_eq!(resolved("${context.transport}", &ctx), "http");
    assert_eq!(resolved("${context.roles[0] + context.roles[1]}", &ctx), "admindev");
    assert_eq!(resolved("${\"g1\" in context.groups}", &ctx), "true");
    assert_eq!(resolved("${size(context.scopes)}", &ctx), "0");
    // The later of two pairs with one name counts.
    assert_eq!(resolved("${context.attributes.team}", &ctx), "red");
    assert_eq!(resolved("${env.A}", &ctx), "2");
    assert_eq!(resolved("${size(context)}", &ctx), "9");
}

#[test]
fn missing_fields_are_null() {
    let ctx = ExprContext::default();
    for name in [
        "principal_id",
        "auth_provider",
        "context.principal_id",
        "context.auth_provider",
        "context.session_id",
        "arguments",
        "args",
    ] {
        let template = format!("${{{} == null}}", name);
        assert_eq!(resolved(&template, &ctx), "true", "{}", template);
    }
    assert_eq!(resolved("${trust_level + tool_name + identity_kind}", &ctx), "");
}

#[test]
fn steps_are_bound_only_while_a_pipeline_runs() {
    let dv = DynamicValue::parse("${steps == null}").unwrap();
    assert!(dv.resolve(&ExprContext::default()).is_err());
    let ctx = ExprContext {
        steps: Some(JsonValue::Null),
        ..Default::default()
    };
    assert_eq!(dv.resolve(&ctx).unwrap(), "true");
}

#[test]
fn the_engine_context_holds_the_variables() {
    let ctx = full_request();
    let context = ctx.to_cel_context().unwrap();
    let program = cel::Program::compile("arguments.x + 1").unwrap();
    assert_eq!(program.execute(&context).unwrap(), cel::Value::Int(43));
    // A copy of the request gives the same.
    let copy = ctx.clone();
    let context = copy.to_cel_context().unwrap();
    assert_eq!(program.execute(&context).unwrap(), cel::Value::Int(43));
}

#[test]
fn the_context_depends_on_the_request_alone() {
    let one = full_request();
    let other = ExprContext {
        arguments: JsonValue::Null,
        tool_name: "other".to_owned(),
        context: one.context.clone(),
        steps: Some(json(r#"{"s": 1}"#)),
        env: Arc::new(Vec::new()),
    };
    let program = cel::Program::compile("context").unwrap();
    let context_of = |ctx: &ExprContext| program.execute(&ctx.to_cel_context().unwrap()).unwrap();
    assert_eq!(context_of(&one), context_of(&other));
}

#[test]
fn the_context_has_its_nine_fields_whatever_the_request() {
    for ctx in [ExprContext::default(), full_request()] {
        assert_eq!(resolved("${size(context)}", &ctx), "9");
        for name in [
            "principal_id", "trust_level", "auth_provider", "session_id", "transport", "roles", "groups", "scopes",
            "attributes",
        ] {
            assert_eq!(resolved(&format!("${{\"{}\" in context}}", name), &ctx), "true", "{}", name);
        }
    }
    let mut ctx = full_request();
    ctx.context.roles = vec!["b".to_owned(), "a".to_owned(), "b".to_owned()];
    assert_eq!(resolved("${context.roles == [\"b\", \"a\", \"b\"]}", &ctx), "true");
}
