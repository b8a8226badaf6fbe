use mcpg_expr::{validate_header_name, validate_header_value, ExprError};

#[test]
fn clean_header_value_passes() {
    validate_header_value("Authorization", "Bearer token123").unwrap();
}

#[test]
fn crlf_in_header_rejected() {
    let result = validate_header_value("X-Custom", "value\r\nX-Injected: evil");
    assert!(result.is_err());
    assert!(result.unwrap_err().message().contains("header injection"));
}

#[test]
fn newline_in_header_rejected() {
    let result = validate_header_value("X-Custom", "value\nevil");
    assert!(result.is_err());
}

#[test]
fn carriage_return_in_header_rejected() {
    assert_eq!(
        validate_header_value("X", "a\rb").unwrap_err(),
        ExprError::HeaderInjection {
            name: "X".to_owned()
        }
    );
}

#[test]
fn empty_names_are_rejected() {
    let error = validate_header_name("").unwrap_err();
    assert_eq!(error, ExprError::EmptyHeaderName);
    assert_eq!(error.message(), "header name must not be empty");
    // The name is looked at before the value.
    assert_eq!(validate_header_value("", "a\nb").unwrap_err(), ExprError::EmptyHeaderName);
}

#[test]
fn names_are_tokens() {
    validate_header_name("!#$%&'*+-.^_`|~09azAZ").unwrap();
    for bad in ["a b", "a:b", "a/b", "(a)", "é", "a\n", "\"", "@", "[", "{"] {
        let error = validate_header_name(bad).unwrap_err();
        assert_eq!(
            error,
            ExprError::InvalidHeaderName {
                name: bad.to_owned()
            }
        );
        assert_eq!(
            error.message(),
            format!("header name '{}' contains invalid characters", bad)
        );
    }
}

#[test]
fn accepted_headers_stay_on_their_line() {
    for value in ["", "plain", "tab\tand é", "a\u{85}b", "x\ry", "x\ny"] {
        let accepted = validate_header_value("X-A", value).is_ok();
        let line = format!("X-A: {}", value);
        assert_eq!(accepted, !line.contains('\n') && !line.contains('\r'));
    }
}
