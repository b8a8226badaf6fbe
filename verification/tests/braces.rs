use mcpg_expr::template::{find_matching_brace, piece_at};

#[test]
fn nested_braces_are_skipped() {
    assert_eq!(find_matching_brace("${a{b}c}d}", 2), Some(7));
    assert_eq!(find_matching_brace("${a{b}c", 2), None);
    assert_eq!(find_matching_brace("${}", 2), Some(2));
}

#[test]
fn braces_in_strings_do_not_count() {
    assert_eq!(find_matching_brace("${\"}\"}", 2), Some(5));
    assert_eq!(find_matching_brace("${\"{\"}", 2), Some(5));
    // An escaped quote does not end the string; an escaped backslash is no escape.
    assert_eq!(find_matching_brace("${\"\\\"}\"}", 2), Some(7));
    assert_eq!(find_matching_brace("${\"\\\\\"}", 2), Some(6));
    assert_eq!(find_matching_brace("${\"}", 2), None);
}

#[test]
fn a_search_beyond_the_text_finds_nothing() {
    assert_eq!(find_matching_brace("}", 1), None);
    assert_eq!(find_matching_brace("}", 5), None);
}

#[test]
fn pieces_are_read_one_by_one() {
    let text = "é ${ x } y";
    let first = piece_at(text, 0).unwrap();
    assert_eq!((first.text, first.code, first.next), ("é ", false, 3));
    let second = piece_at(text, first.next).unwrap();
    assert_eq!((second.text, second.code, second.next), ("x", true, 9));
    let third = piece_at(text, second.next).unwrap();
    assert_eq!((third.text, third.code, third.next), (" y", false, 11));
}
