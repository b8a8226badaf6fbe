//! Checks on HTTP header names and values.
use crate::error::{check_outcome, ErrorModel, ExprError};
use vstd::prelude::*;
use vstd::string::*;

verus! {

/// A character that RFC 7230 allows in a token.
pub open spec fn is_token_char(c: char) -> bool {
    ||| '0' <= c <= '9'
    ||| 'A' <= c <= 'Z'
    ||| 'a' <= c <= 'z'
    ||| c == '!'
    ||| c == '#'
    ||| c == '$'
    ||| c == '%'
    ||| c == '&'
    ||| c == '\''
    ||| c == '*'
    ||| c == '+'
    ||| c == '-'
    ||| c == '.'
    ||| c == '^'
    ||| c == '_'
    ||| c == '`'
    ||| c == '|'
    ||| c == '~'
}

/// All characters of `s` may stand in a token.
pub open spec fn all_token_chars(s: Seq<char>) -> bool {
    forall|i: int| 0 <= i < s.len() ==> is_token_char(#[trigger] s[i])
}

/// What a header name is checked for: it is not empty and is a token.
pub open spec fn header_name_check(name: Seq<char>) -> Result<(), ErrorModel> {
    if name.len() == 0 {
        Err(ErrorModel::EmptyHeaderName)
    } else if !all_token_chars(name) {
        Err(ErrorModel::InvalidHeaderName { name })
    } else {
        Ok(())
    }
}

/// What a header is checked for: its name is valid, and its value holds
/// neither a carriage return nor a line feed.
pub open spec fn header_value_check(name: Seq<char>, value: Seq<char>) -> Result<(), ErrorModel> {
    match header_name_check(name) {
        Err(e) => Err(e),
        Ok(()) => if value.contains('\r') || value.contains('\n') {
            Err(ErrorModel::HeaderInjection { name })
        } else {
            Ok(())
        },
    }
}

/// Whether a character is allowed in a token.
fn token_char(c: char) -> (r: bool)
    ensures
        r == is_token_char(c),
{
    ('0' <= c && c <= '9') || ('A' <= c && c <= 'Z') || ('a' <= c && c <= 'z') || c == '!' || c == '#' || c == '$'
        || c == '%' || c == '&' || c == '\'' || c == '*' || c == '+' || c == '-' || c == '.' || c == '^' || c == '_'
        || c == '`' || c == '|' || c == '~'
}

/// Checks that a header name is a token of RFC 7230.
pub fn validate_header_name(name: &str) -> (r: Result<(), ExprError>)
    ensures
        check_outcome(r) == header_name_check(name@),
{
    if name.is_empty() {
        return Err(ExprError::EmptyHeaderName);
    }
    for c in it: name.chars()
        invariant
            it.seq() == name@,
            name@.len() > 0,
            forall|k: int| 0 <= k < it.index() ==> is_token_char(#[trigger] name@[k]),
    {
        if !token_char(c) {
            assert(!is_token_char(name@[it.index() as int]));
            return Err(ExprError::InvalidHeaderName { name: name.to_owned() });
        }
    }
    Ok(())
}

/// Checks that a header's name is valid and that its value cannot end the
/// header line.
pub fn validate_header_value(name: &str, value: &str) -> (r: Result<(), ExprError>)
    ensures
        check_outcome(r) == header_value_check(name@, value@),
{
    validate_header_name(name)?;
    for c in it: value.chars()
        invariant
            it.seq() == value@,
            header_name_check(name@) is Ok,
            forall|k: int| 0 <= k < it.index() ==> #[trigger] value@[k] != '\r' && value@[k] != '\n',
    {
        if c == '\r' || c == '\n' {
            assert(value@[it.index() as int] == c);
            return Err(ExprError::HeaderInjection { name: name.to_owned() });
        }
    }
    Ok(())
}

/// A header that passes can neither end its line nor begin another: neither
/// its name nor its value holds a carriage return or a line feed, and its
/// name holds neither a colon nor a space.
pub proof fn law_accepted_header_stays_on_its_line(name: Seq<char>, value: Seq<char>)
    requires
        header_value_check(name, value) is Ok,
    ensures
        !value.contains('\r') && !value.contains('\n'),
        !name.contains('\r') && !name.contains('\n') && !name.contains(':') && !name.contains(' '),
        name.len() > 0,
{
    assert forall|c: char| !is_token_char(c) implies !name.contains(c) by {
        if name.contains(c) {
            let i = choose|i: int| 0 <= i < name.len() && name[i] == c;
            assert(is_token_char(name[i]));
        }
    }
}

/// A character of a token, by the list of RFC 7230: a letter, a digit, or one
/// of fifteen signs.
pub open spec fn is_rfc_token_char(c: char) -> bool {
    ||| 'a' <= c <= 'z'
    ||| 'A' <= c <= 'Z'
    ||| '0' <= c <= '9'
    ||| seq!['!', '#', '$', '%', '&', '\'', '*', '+', '-', '.', '^', '_', '`', '|', '~'].contains(c)
}

/// The list of signs, told one by one.
proof fn lemma_token_signs(c: char)
    ensures
        is_rfc_token_char(c) == is_token_char(c),
{
    let signs = seq!['!', '#', '$', '%', '&', '\'', '*', '+', '-', '.', '^', '_', '`', '|', '~'];
    assert(signs[0] == '!' && signs[1] == '#' && signs[2] == '$' && signs[3] == '%' && signs[4] == '&');
    assert(signs[5] == '\'' && signs[6] == '*' && signs[7] == '+' && signs[8] == '-' && signs[9] == '.');
    assert(signs[10] == '^' && signs[11] == '_' && signs[12] == '`' && signs[13] == '|' && signs[14] == '~');
    if is_token_char(c) && !('a' <= c <= 'z') && !('A' <= c <= 'Z') && !('0' <= c <= '9') {
        assert(signs.contains(c));
    }
}

/// A name is accepted exactly where it is a token: not empty, and made of
/// token characters alone. Otherwise the error says which of the two failed.
pub proof fn law_tokens_are_accepted(name: Seq<char>)
    ensures
        header_name_check(name) is Ok <==> name.len() > 0 && forall|i: int|
            0 <= i < name.len() ==> is_rfc_token_char(#[trigger] name[i]),
        name.len() == 0 ==> header_name_check(name) == Err::<(), ErrorModel>(ErrorModel::EmptyHeaderName),
        (exists|i: int| 0 <= i < name.len() && !is_rfc_token_char(#[trigger] name[i])) ==> header_name_check(name)
            == Err::<(), ErrorModel>(ErrorModel::InvalidHeaderName { name }),
{
    assert forall|c: char| is_rfc_token_char(c) == is_token_char(c) by {
        lemma_token_signs(c);
    }
    if exists|i: int| 0 <= i < name.len() && !is_rfc_token_char(#[trigger] name[i]) {
        let i = choose|i: int| 0 <= i < name.len() && !is_rfc_token_char(#[trigger] name[i]);
        assert(!is_token_char(name[i]));
    }
}

/// A header is accepted exactly where its name is a token and its value holds
/// neither a carriage return nor a line feed, whatever else it holds. A fault
/// in the name comes first; else the value is at fault, and the error names
/// the header.
pub proof fn law_headers_are_accepted(name: Seq<char>, value: Seq<char>)
    ensures
        header_value_check(name, value) is Ok <==> header_name_check(name) is Ok && forall|i: int|
            0 <= i < value.len() ==> #[trigger] value[i] != '\r' && value[i] != '\n',
        header_name_check(name) is Err ==> header_value_check(name, value) == header_name_check(name),
        header_name_check(name) is Ok && (exists|i: int|
            0 <= i < value.len() && (#[trigger] value[i] == '\r' || value[i] == '\n')) ==> header_value_check(
            name,
            value,
        ) == Err::<(), ErrorModel>(ErrorModel::HeaderInjection { name }),
{
    if exists|i: int| 0 <= i < value.len() && (#[trigger] value[i] == '\r' || value[i] == '\n') {
        let i = choose|i: int| 0 <= i < value.len() && (#[trigger] value[i] == '\r' || value[i] == '\n');
        assert(value.contains(value[i]));
    }
}

/// A value is accepted exactly where both of its halves are, wherever it is
/// cut.
pub proof fn law_values_are_accepted_in_halves(name: Seq<char>, a: Seq<char>, b: Seq<char>)
    ensures
        header_value_check(name, a + b) is Ok <==> header_value_check(name, a) is Ok && header_value_check(name, b)
            is Ok,
{
    law_headers_are_accepted(name, a);
    law_headers_are_accepted(name, b);
    law_headers_are_accepted(name, a + b);
    if header_value_check(name, a + b) is Ok {
        assert forall|i: int| 0 <= i < a.len() implies #[trigger] a[i] != '\r' && a[i] != '\n' by {
            assert((a + b)[i] == a[i]);
        }
        assert forall|i: int| 0 <= i < b.len() implies #[trigger] b[i] != '\r' && b[i] != '\n' by {
            assert((a + b)[a.len() + i] == b[i]);
        }
    }
}

}
