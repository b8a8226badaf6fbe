use mcpg_expr::dynamic::{compile_outcome, render_outcome};
use mcpg_expr::{interpolation_to_cel, CompositeSegment, DynamicValue, ExprContext, ExprError, JsonValue};

fn json(text: &str) -> JsonValue {
    let value: serde_json::Value = serde_json::from_str(text).unwrap();
    JsonValue::from_serde(&value)
}

fn with_arguments(text: &str) -> ExprContext {
    ExprContext {
        arguments: json(text),
        ..Default::default()
    }
}

fn resolved(template: &str, ctx: &ExprContext) -> String {
    DynamicValue::parse(template).unwrap().resolve(ctx).unwrap()
}

#[test]
fn literal_string_no_interpolation() {
    let dv = DynamicValue::parse("hello world").unwrap();
    let ctx = ExprContext::default();
    assert_eq!(dv.resolve(&ctx).unwrap(), "hello world");
}

#[test]
fn single_expression_block() {
    let dv = DynamicValue::parse("${arguments.count > 10 ? \"high\" : \"low\"}").unwrap();
    let ctx = with_arguments(r#"{"count": 20}"#);
    let result = dv.resolve(&ctx).unwrap();
    assert_eq!(result, "high");
}

#[test]
fn mixed_literal_and_expression() {
    let dv = DynamicValue::parse("https://api.example.com/${arguments.path}").unwrap();
    let ctx = with_arguments(r#"{"path": "v2/data"}"#);
    let result = dv.resolve(&ctx).unwrap();
    assert_eq!(result, "https://api.example.com/v2/data");
}

#[test]
fn parse_preserves_non_ascii_string_literal() {
    let dv = DynamicValue::<String>::parse("${arguments.country == \"Zürich\" ? \"a\" : \"b\"}");
    assert!(dv.is_ok(), "non-ASCII CEL string constant should compile intact");
}

#[test]
fn matching_brace_handles_escaped_backslash() {
    let dv = DynamicValue::<String>::parse("prefix-${\"a\\\\\" + arguments.x}-suffix");
    assert!(dv.is_ok(), "trailing escaped backslash should not break brace matching");
}

#[test]
fn unclosed_expression_fails() {
    let result = DynamicValue::parse("${arguments.x");
    assert!(result.is_err());
    assert!(result.unwrap_err().message().contains("unclosed"));
}

#[test]
fn empty_expression_fails() {
    let result = DynamicValue::parse("${}");
    assert!(result.is_err());
    assert!(result.unwrap_err().message().contains("empty"));
}

#[test]
fn dollar_prefixed_variable_ref_is_rejected() {
    let prefixed = format!("{}{}", '$', "{$arguments.count}");
    assert!(DynamicValue::<String>::parse(&prefixed).is_err());
}

#[test]
fn ternary_expression_works() {
    let ctx = with_arguments(r#"{"count": 5}"#);
    let dv = DynamicValue::parse("${arguments.count > 3 ? \"many\" : \"few\"}").unwrap();
    assert_eq!(dv.resolve(&ctx).unwrap(), "many");
}

#[test]
fn numeric_expression_to_string() {
    let ctx = with_arguments(r#"{"count": 10}"#);
    let dv = DynamicValue::parse("${arguments.count}").unwrap();
    let resolved = dv.resolve(&ctx).unwrap();
    assert_eq!(resolved, "10");
}

#[test]
fn multiple_expressions_concatenated() {
    let cel = interpolation_to_cel("${arguments.a}-${arguments.b}").unwrap();
    assert!(cel.contains("arguments.a"));
    assert!(cel.contains("arguments.b"));
    assert!(cel.contains("\"-\""));

    let dv = DynamicValue::parse("${arguments.a}-${arguments.b}").unwrap();
    let ctx = with_arguments(r#"{"a": "hello", "b": "world"}"#);
    assert_eq!(dv.resolve(&ctx).unwrap(), "hello-world");
}

#[test]
fn boolean_expression_to_string() {
    let ctx = with_arguments(r#"{"enabled": true}"#);
    let dv = DynamicValue::parse("${arguments.enabled}").unwrap();
    assert_eq!(dv.resolve(&ctx).unwrap(), "true");
}

#[test]
fn cred_ref_parses_as_composite_and_resolves_via_callback() {
    let dv = DynamicValue::parse("Bearer ${cred://google/apikey}").unwrap();
    assert!(matches!(dv, DynamicValue::Composite { .. }));
    assert_eq!(dv.cred_refs(), vec!["cred://google/apikey"]);

    let ctx = ExprContext::default();
    assert!(dv.resolve(&ctx).is_err());
    let out = dv
        .resolve_with_credentials(&ctx, |uri| {
            (uri == "cred://google/apikey").then(|| "SECRET_KEY".to_owned())
        })
        .unwrap();
    assert_eq!(out, "Bearer SECRET_KEY");
}

#[test]
fn composite_mixes_literal_cred_and_cel() {
    let dv = DynamicValue::parse("Bearer ${cred://oauth/api} u=${arguments.user}").unwrap();
    assert!(matches!(dv, DynamicValue::Composite { .. }));
    assert_eq!(dv.cred_refs(), vec!["cred://oauth/api"]);
    let ctx = with_arguments(r#"{"user": "alice"}"#);
    let out = dv
        .resolve_with_credentials(&ctx, |uri| {
            (uri == "cred://oauth/api").then(|| "tok123".to_owned())
        })
        .unwrap();
    assert_eq!(out, "Bearer tok123 u=alice");
}

#[test]
fn bare_variable_ref_resolves_dollar_prefix_rejected() {
    let ctx = with_arguments(r#"{"path": "v2"}"#);
    assert_eq!(
        DynamicValue::parse("/${arguments.path}")
            .unwrap()
            .resolve(&ctx)
            .unwrap(),
        "/v2"
    );
    let prefixed = format!("/{}{}", '$', "{$arguments.path}");
    assert!(DynamicValue::<String>::parse(&prefixed).is_err());
}

#[test]
fn request_arg_value_can_never_introduce_a_cred_ref() {
    let dv = DynamicValue::parse("${arguments.x}").unwrap();
    assert!(matches!(dv, DynamicValue::Expression { .. }));
    assert!(dv.cred_refs().is_empty());

    for smuggled in ["cred://static/secret", "${cred://static/secret}"] {
        let mut arguments = serde_json::Map::new();
        arguments.insert("x".to_owned(), serde_json::Value::String(smuggled.to_owned()));
        let ctx = ExprContext {
            arguments: JsonValue::from_serde(&serde_json::Value::Object(arguments)),
            ..Default::default()
        };
        let out = dv
            .resolve_with_credentials(&ctx, |_uri| Some("LEAKED_SECRET".to_owned()))
            .unwrap();
        assert_eq!(out, smuggled, "request-arg value must pass through verbatim");
        assert!(
            !out.contains("LEAKED_SECRET"),
            "credential resolver must never run on request-argument data"
        );
    }
}

#[test]
fn request_values_beside_a_reference_stay_values() {
    let dv = DynamicValue::parse("${arguments.x}|${cred://a/b}").unwrap();
    assert_eq!(dv.cred_refs(), vec!["cred://a/b"]);
    let ctx = with_arguments(r#"{"x": "${cred://static/secret}"}"#);
    let out = dv
        .resolve_with_credentials(&ctx, |uri| Some(format!("<{}>", uri)))
        .unwrap();
    assert_eq!(out, "${cred://static/secret}|<cred://a/b>");
}

#[test]
fn a_template_from_the_usage_notes() {
    let url = DynamicValue::parse("https://api.example.com/v1/users/${arguments.user_id}").unwrap();
    let ctx = with_arguments(r#"{"user_id": "u-42"}"#);
    assert_eq!(url.resolve(&ctx).unwrap(), "https://api.example.com/v1/users/u-42");
}

#[test]
fn a_credential_from_the_usage_notes() {
    let header = DynamicValue::parse("Bearer ${cred://my-issuer/orders}").unwrap();
    assert_eq!(header.cred_refs(), vec!["cred://my-issuer/orders"]);
    let resolved = header
        .resolve_with_credentials(&ExprContext::default(), |uri| {
            (uri == "cred://my-issuer/orders").then(|| "opaque-token".to_owned())
        })
        .unwrap();
    assert_eq!(resolved, "Bearer opaque-token");
}

#[test]
fn composite_refuses_plain_resolve() {
    let template = "k=${cred://a/b}";
    let dv = DynamicValue::parse(template).unwrap();
    let error = dv.resolve(&ExprContext::default()).unwrap_err();
    assert_eq!(
        error,
        ExprError::NeedsCredentials {
            source: template.to_owned()
        }
    );
    assert_eq!(
        error.message(),
        "value carries ${cred://…} reference(s); resolve it via resolve_with_credentials: k=${cred://a/b}"
    );
    assert_eq!(error.cause(), None);
}

#[test]
fn references_are_listed_in_template_order() {
    let dv = DynamicValue::parse("${cred://b/2} ${ cred://a/1 } x ${1 + 1} ${cred://b/2}").unwrap();
    assert_eq!(dv.cred_refs(), vec!["cred://b/2", "cred://a/1", "cred://b/2"]);
    let out = dv
        .resolve_with_credentials(&ExprContext::default(), |uri| Some(uri.replace("cred://", "")))
        .unwrap();
    assert_eq!(out, "b/2 a/1 x 2 b/2");
}

#[test]
fn an_unknown_credential_is_an_error() {
    let dv = DynamicValue::parse("${cred://a/1}${cred://a/2}").unwrap();
    let error = dv
        .resolve_with_credentials(&ExprContext::default(), |uri| {
            (uri == "cred://a/1").then(|| "one".to_owned())
        })
        .unwrap_err();
    assert_eq!(
        error,
        ExprError::UnresolvedCredential {
            uri: "cred://a/2".to_owned()
        }
    );
    assert_eq!(error.message(), "unresolved credential reference: cred://a/2");
}

#[test]
fn a_failing_expression_stops_a_composite() {
    let dv = DynamicValue::parse("${arguments.missing}${cred://a/1}").unwrap();
    let error = dv
        .resolve_with_credentials(&with_arguments("{}"), |_uri| None)
        .unwrap_err();
    assert!(matches!(error, ExprError::Evaluate { ref expression, .. } if expression == "arguments.missing"));
}

#[test]
fn composite_segments_keep_their_order_and_text() {
    let dv = DynamicValue::parse("a ${cred://i/t} b ${ 1 + 2 }").unwrap();
    if let DynamicValue::Composite { source, segments } = dv {
        assert_eq!(source, "a ${cred://i/t} b ${ 1 + 2 }");
        assert_eq!(segments.len(), 4);
        assert!(matches!(&segments[0], CompositeSegment::Literal(s) if s == "a "));
        assert!(matches!(&segments[1], CompositeSegment::Cred(s) if s == "cred://i/t"));
        assert!(matches!(&segments[2], CompositeSegment::Literal(s) if s == " b "));
        assert!(matches!(&segments[3], CompositeSegment::Cel { source, .. } if source == "1 + 2"));
    } else {
        panic!("not a composite");
    }
}

#[test]
fn a_reference_must_begin_with_the_scheme() {
    // A string with the scheme in it is an expression like any other.
    let dv = DynamicValue::parse("${\"cred://a/b\"}").unwrap();
    assert!(matches!(dv, DynamicValue::Expression { .. }));
    assert_eq!(dv.resolve(&ExprContext::default()).unwrap(), "cred://a/b");
}

#[test]
fn plain_text_resolves_to_itself_whatever_the_request() {
    for text in ["", "$", "{x}", "$ {x}", "100 % \"sure\" \\", "naïve ✓"] {
        let dv = DynamicValue::parse(text).unwrap();
        assert!(matches!(dv, DynamicValue::Literal(_)));
        assert!(dv.cred_refs().is_empty());
        assert_eq!(dv.resolve(&with_arguments(r#"{"x": 1}"#)).unwrap(), text);
        let out = dv.resolve_with_credentials(&ExprContext::default(), |_uri| None);
        assert_eq!(out.unwrap(), text);
    }
}

#[test]
fn faults_are_reported_with_their_offset() {
    assert_eq!(
        DynamicValue::parse("ab${x").unwrap_err(),
        ExprError::UnclosedExpression { position: 2 }
    );
    assert_eq!(
        DynamicValue::parse("ab${x").unwrap_err().message(),
        "unclosed ${} expression at position 2"
    );
    // The offset counts bytes; white space of any kind is no expression.
    assert_eq!(
        DynamicValue::parse("é${1}${ \u{a0}\u{3000}\t}").unwrap_err(),
        ExprError::EmptyExpression { position: 6 }
    );
    assert_eq!(
        DynamicValue::parse("${ }").unwrap_err().message(),
        "empty expression at position 0"
    );
}

#[test]
fn the_first_fault_wins() {
    // The expression does not compile, and the marker after it is not closed.
    let error = DynamicValue::parse("${1 +}${x").unwrap_err();
    assert!(matches!(error, ExprError::Compile { ref expression, .. } if expression == "1 +"));
    let error = DynamicValue::parse("${}${1 +}").unwrap_err();
    assert_eq!(error, ExprError::EmptyExpression { position: 0 });
}

#[test]
fn compile_errors_name_the_expression_and_the_cause() {
    let error = DynamicValue::parse("v=${1 +}").unwrap_err();
    assert_eq!(error.message(), "expression source: 1 +");
    let cause = error.cause().unwrap();
    assert!(cause.starts_with("failed to compile expression: ERROR: "), "{}", cause);
    // Each block compiles, but the text between them is no CEL string.
    let template = "a\nb${1}";
    let error = DynamicValue::parse(template).unwrap_err();
    assert_eq!(error.message(), format!("expression source: {}", template));
}

#[test]
fn evaluation_errors_name_the_template_and_the_cause() {
    let dv = DynamicValue::parse("x${arguments.nope}").unwrap();
    let error = dv.resolve(&with_arguments("{}")).unwrap_err();
    assert_eq!(error.message(), "expression: x${arguments.nope}");
    assert!(error.cause().unwrap().starts_with("expression evaluation failed: "));
}

#[test]
fn lists_and_maps_have_no_text() {
    let dv = DynamicValue::parse("${[1, 2]}").unwrap();
    let error = dv.resolve(&ExprContext::default()).unwrap_err();
    assert_eq!(
        error,
        ExprError::NotScalar {
            expression: "${[1, 2]}".to_owned(),
            got: "List([Int(1), Int(2)])".to_owned()
        }
    );
    assert_eq!(
        error.cause().unwrap(),
        "expression must evaluate to a string, number, or boolean, got List([Int(1), Int(2)])"
    );
    let dv = DynamicValue::parse("${{\"a\": 1}}").unwrap();
    assert!(matches!(
        dv.resolve(&ExprContext::default()).unwrap_err(),
        ExprError::NotScalar { .. }
    ));
    let dv = DynamicValue::parse("${b\"x\"}").unwrap();
    assert!(matches!(
        dv.resolve(&ExprContext::default()).unwrap_err(),
        ExprError::NotScalar { .. }
    ));
}

#[test]
fn scalars_are_rendered() {
    let ctx = with_arguments(r#"{"f": 2.5, "big": 18446744073709551615, "none": null, "neg": -7}"#);
    assert_eq!(resolved("${arguments.f}", &ctx), "2.50");
    assert_eq!(resolved("${1.0 / 3.0}", &ctx), "0.33");
    assert_eq!(resolved("${arguments.big}", &ctx), "18446744073709551615");
    assert_eq!(resolved("${arguments.none}", &ctx), "");
    assert_eq!(resolved("${arguments.neg}", &ctx), "-7");
    assert_eq!(resolved("${1 > 2}", &ctx), "false");
}

#[test]
fn templates_become_cel_source() {
    assert_eq!(
        interpolation_to_cel("hello ${arguments.name}!").unwrap(),
        "\"hello \" + string(arguments.name) + \"!\""
    );
    // A single block is the expression itself.
    assert_eq!(interpolation_to_cel("${ a + b }").unwrap(), "a + b");
    // A block that begins with a quote is taken for a string already.
    assert_eq!(
        interpolation_to_cel("${\"x\" + y}${z}").unwrap(),
        "\"x\" + y + string(z)"
    );
    assert_eq!(interpolation_to_cel("").unwrap(), "");
    assert_eq!(interpolation_to_cel("plain").unwrap(), "\"plain\"");
}

#[test]
fn quotes_and_backslashes_in_text_survive() {
    assert_eq!(
        interpolation_to_cel("say \"hi\" \\ ${x}").unwrap(),
        "\"say \\\"hi\\\" \\\\ \" + string(x)"
    );
    let ctx = with_arguments(r#"{"x": "y"}"#);
    assert_eq!(
        resolved("say \"hi\" \\ ${arguments.x}", &ctx),
        "say \"hi\" \\ y"
    );
}

#[test]
fn braces_in_expressions_and_strings_are_matched() {
    let ctx = with_arguments(r#"{"x": 3}"#);
    assert_eq!(resolved("${{\"a\": arguments.x}.a}", &ctx), "3");
    assert_eq!(resolved("${\"}\"}", &ctx), "}");
    assert_eq!(resolved("<${\"\\\"}\"}>", &ctx), "<\"}>");
}

#[test]
fn outcomes_of_compiling_are_passed_on() {
    assert!(compile_outcome("1 + 1", cel::Program::compile("1 + 1")).is_ok());
    let error = compile_outcome("shown", cel::Program::compile("1 +")).unwrap_err();
    assert_eq!(error.message(), "expression source: shown");
    assert!(error.cause().unwrap().len() > "failed to compile expression: ".len());
}

#[test]
fn outcomes_of_evaluating_are_rendered() {
    assert_eq!(render_outcome("s", Ok(cel::Value::Int(-3))).unwrap(), "-3");
    assert_eq!(render_outcome("s", Ok(cel::Value::UInt(3))).unwrap(), "3");
    assert_eq!(render_outcome("s", Ok(cel::Value::Float(0.125))).unwrap(), "0.12");
    assert_eq!(render_outcome("s", Ok(cel::Value::Bool(true))).unwrap(), "true");
    assert_eq!(render_outcome("s", Ok(cel::Value::Null)).unwrap(), "");
    assert_eq!(
        render_outcome("s", Ok(cel::Value::String("t".to_owned().into()))).unwrap(),
        "t"
    );
    assert_eq!(
        render_outcome("s", Err(cel::ExecutionError::MissingArgumentOrTarget)).unwrap_err(),
        ExprError::Evaluate {
            expression: "s".to_owned(),
            detail: "Missing argument or target".to_owned()
        }
    );
}

#[test]
fn an_error_far_into_its_line_is_reported() {
    // The line feed stands in a string literal of the CEL source.
    let template = format!("{}${{1}}\n", "x".repeat(70_000));
    let error = DynamicValue::parse(&template).unwrap_err();
    assert_eq!(
        error,
        ExprError::Compile {
            expression: template.clone(),
            detail: "the error lies too far into its line to be shown".to_owned()
        }
    );
    let source = format!("{}$", " ".repeat(65_535));
    let error = compile_outcome("s", cel::Program::compile(&source)).unwrap_err();
    assert_eq!(
        error.cause().unwrap(),
        "failed to compile expression: the error lies too far into its line to be shown"
    );
}

#[test]
fn an_error_at_the_widest_column_is_shown() {
    // The second error lies at the end, in column 65535.
    let source = format!("{}$", " ".repeat(65_533));
    let error = compile_outcome("s", cel::Program::compile(&source)).unwrap_err();
    let cause = error.cause().unwrap();
    assert!(cause.starts_with("failed to compile expression: ERROR: <input>:1:65534"));
    assert!(cause.contains("<input>:1:65535"));
}

#[test]
fn the_template_decides_which_credentials_are_used() {
    let dv = DynamicValue::parse("${cred://a/1}${arguments.x}${cred://b/2}").unwrap();
    for (arguments, complete) in [
        (r#"{"x": "cred://c/3"}"#, true),
        (r#"{"x": "${cred://c/3}"}"#, true),
        (r#"{}"#, false),
    ] {
        let asked = std::cell::RefCell::new(Vec::new());
        let r = dv.resolve_with_credentials(&with_arguments(arguments), |uri| {
            asked.borrow_mut().push(uri.to_owned());
            Some("s".to_owned())
        });
        assert_eq!(r.is_ok(), complete);
        let all = dv.cred_refs();
        let asked = asked.into_inner();
        if complete {
            assert_eq!(asked, all);
        } else {
            assert_eq!(asked, all[..1]);
        }
    }
}

#[test]
fn resolvers_that_answer_the_references_alike_make_no_difference() {
    let dv = DynamicValue::parse("${cred://a/1}-${arguments.x}").unwrap();
    let ctx = with_arguments(r#"{"x": "cred://b/2"}"#);
    let one = dv.resolve_with_credentials(&ctx, |_uri| Some("s".to_owned()));
    let other = dv.resolve_with_credentials(&ctx, |uri| (uri == "cred://a/1").then(|| "s".to_owned()));
    assert_eq!(one, other);
    assert_eq!(one.unwrap(), "s-cred://b/2");
}

#[test]
fn without_references_a_resolver_adds_nothing() {
    let ctx = with_arguments(r#"{"x": 1}"#);
    for template in ["plain", "${arguments.x}", "a${arguments.x}", "${arguments.y}", "${[1]}"] {
        let dv = DynamicValue::parse(template).unwrap();
        let with = dv.resolve_with_credentials(&ctx, |_uri| panic!("asked"));
        assert_eq!(with, dv.resolve(&ctx));
    }
}
