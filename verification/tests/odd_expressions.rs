use mcpg_expr::{DynamicValue, ExprContext};

#[test]
fn odd_sources_are_refused() {
    for source in [
        "'", "\\", "\u{0}", "'\\u'", "'\\xZZ'", "\"\\U99999999\"", "99999999999999999999", "0x", "1..2", "a.", ".",
        "[", "(", "a ? b", "@", "#", "é", "`", "b'\\400'", "r'", "'''", "1u2", "a[", "{1:}", "x{", "f(,)",
        "a.b.c(", "!", "-", "&&", "||", "==", "in", "1e", "0xFFFFFFFFFFFFFFFFFF", "has(a)", "[1].map(1, 2)",
        "a.all(b.c, true)", "$x", "\u{feff}", "'\u{1f600}", "//", "18446744073709551616u",
    ] {
        let template = format!("${{{}}}", source);
        assert!(DynamicValue::<String>::parse(&template).is_err(), "{}", source);
    }
}

#[test]
fn failing_evaluations_are_errors() {
    for source in [
        "9223372036854775807 + 1",
        "-9223372036854775808 - 1",
        "9223372036854775807 * 2",
        "-(-9223372036854775808)",
        "0u - 1u",
        "18446744073709551615u + 1u",
        "-9223372036854775808 / -1",
        "-9223372036854775808 % -1",
        "1 / 0",
        "1 % 0",
        "1u / 0u",
        "int(1e300)",
        "int('x')",
        "uint(-1)",
        "[1][5]",
        "[1][-1]",
        "{'a': 1}.b",
        "'a' + 1",
        "nope",
        "nope()",
        "size(1)",
        "'a'.matches('(')",
        "timestamp('9999-12-31T23:59:59Z') + duration('1000000h')",
        "timestamp('x')",
        "duration('x')",
        "duration('9223372036s') + duration('9223372036854s')",
        "unknown.Type{a: 1}",
        "[1, 'a'].max()",
    ] {
        let template = format!("${{{}}}", source);
        if let Ok(value) = DynamicValue::parse(&template) {
            assert!(value.resolve(&ExprContext::default()).is_err(), "{}", source);
        }
    }
}
