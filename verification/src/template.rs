//! The template grammar: literal text and `${...}` markers.
//!
//! Offsets are byte offsets into the UTF-8 text, as they stand in error
//! messages.
use crate::error::{text_outcome, ErrorModel, ExprError};
use crate::text::{escaped, escaped_char, lemma_ascii_boundaries, lemma_ascii_byte_is_char, lemma_ascii_char};
use crate::text::{lemma_encode_concat, quote, quoted, slice_text, text_between, trimmed};
use vstd::prelude::*;
use vstd::string::*;
use vstd::utf8::*;

verus! {

/// The byte `$`.
pub const DOLLAR: u8 = 0x24;

/// The byte `{`.
pub const OPEN: u8 = 0x7b;

/// The byte `}`.
pub const CLOSE: u8 = 0x7d;

/// The byte `"`.
pub const QUOTE: u8 = 0x22;

/// The byte `\`.
pub const BACKSLASH: u8 = 0x5c;

/// Where a byte of an expression stands: in the code itself, inside a
/// double-quoted string, or directly after a backslash inside such a string.
pub enum Lexical {
    Code,
    Quoted,
    Escaped,
}

/// Where the byte `at` stands, when the byte `start` is code.
pub open spec fn lexical(bytes: Seq<u8>, start: int, at: int) -> Lexical
    decreases at - start,
{
    if at <= start {
        Lexical::Code
    } else {
        let before = bytes[at - 1];
        match lexical(bytes, start, at - 1) {
            Lexical::Code => if before == QUOTE {
                Lexical::Quoted
            } else {
                Lexical::Code
            },
            Lexical::Quoted => if before == BACKSLASH {
                Lexical::Escaped
            } else if before == QUOTE {
                Lexical::Code
            } else {
                Lexical::Quoted
            },
            Lexical::Escaped => Lexical::Quoted,
        }
    }
}

/// The byte `at` is code, and it is `b`.
pub open spec fn code_byte(bytes: Seq<u8>, start: int, at: int, b: u8) -> bool {
    lexical(bytes, start, at) is Code && bytes[at] == b
}

/// How many more braces of the code in `start..at` open than close.
pub open spec fn open_braces(bytes: Seq<u8>, start: int, at: int) -> int
    decreases at - start,
{
    if at <= start {
        0
    } else {
        let before = open_braces(bytes, start, at - 1);
        if code_byte(bytes, start, at - 1, OPEN) {
            before + 1
        } else if code_byte(bytes, start, at - 1, CLOSE) {
            before - 1
        } else {
            before
        }
    }
}

/// The byte `at` is a closing brace of the code that closes none of the
/// braces opened since `start`.
pub open spec fn unmatched_close(bytes: Seq<u8>, start: int, at: int) -> bool {
    &&& start <= at < bytes.len()
    &&& code_byte(bytes, start, at, CLOSE)
    &&& open_braces(bytes, start, at) == 0
}

/// The byte `at` closes the brace that stands directly before `start`: it is
/// the first closing brace there that matches no later opening one.
pub open spec fn closes(bytes: Seq<u8>, start: int, at: int) -> bool {
    &&& unmatched_close(bytes, start, at)
    &&& forall|j: int| start <= j < at ==> !unmatched_close(bytes, start, j)
}

/// The offset of the brace that closes the one directly before `start`.
pub open spec fn matching_brace(bytes: Seq<u8>, start: int) -> Option<int> {
    if exists|at: int| closes(bytes, start, at) {
        Some(choose|at: int| closes(bytes, start, at))
    } else {
        None
    }
}

/// At most one brace closes another.
pub proof fn lemma_matching_brace(bytes: Seq<u8>, start: int, at: int)
    requires
        closes(bytes, start, at),
    ensures
        matching_brace(bytes, start) == Some(at),
{
    let found = choose|k: int| closes(bytes, start, k);
    assert(closes(bytes, start, found));
    assert(!(found < at));
    assert(!(at < found));
}

/// Before the first unmatched closing brace, no more braces close than open.
proof fn lemma_braces_stay_open(bytes: Seq<u8>, start: int, end: int, at: int)
    requires
        closes(bytes, start, end),
        start <= at <= end,
    ensures
        open_braces(bytes, start, at) >= 0,
    decreases at - start,
{
    if at > start {
        lemma_braces_stay_open(bytes, start, end, at - 1);
        assert(!unmatched_close(bytes, start, at - 1));
    }
}

/// Nesting is respected: between a brace and the one that closes it, as many
/// braces of the code close as open, and none closes before its partner opens.
pub proof fn law_matched_braces_are_balanced(bytes: Seq<u8>, start: int)
    requires
        matching_brace(bytes, start) is Some,
    ensures
        ({
            let end = matching_brace(bytes, start)->Some_0;
            &&& start <= end < bytes.len()
            &&& bytes[end] == CLOSE
            &&& open_braces(bytes, start, end) == 0
            &&& forall|at: int| start <= at <= end ==> #[trigger] open_braces(bytes, start, at) >= 0
        }),
{
    let end = matching_brace(bytes, start)->Some_0;
    assert(closes(bytes, start, end));
    assert forall|at: int| start <= at <= end implies #[trigger] open_braces(bytes, start, at) >= 0 by {
        lemma_braces_stay_open(bytes, start, end, at);
    }
}

/// Finds the closing `}` of the `{` that stands directly before the byte
/// offset `start`, skipping nested braces and double-quoted strings.
pub fn find_matching_brace(input: &str, start: usize) -> (r: Option<usize>)
    ensures
        match r {
            Some(at) => {
                &&& closes(input.spec_bytes(), start as int, at as int)
                &&& matching_brace(input.spec_bytes(), start as int) == Some(at as int)
            },
            None => matching_brace(input.spec_bytes(), start as int) is None,
        },
{
    let bytes = input.as_bytes();
    let mut inner: usize = 0;
    let mut in_string: bool = false;
    let mut escaped: bool = false;
    let mut i: usize = start;
    while i < bytes.len()
        invariant
            bytes@ == input.spec_bytes(),
            start <= i,
            i <= bytes.len() || i == start,
            inner == open_braces(bytes@, start as int, i as int),
            inner <= i - start,
            in_string == !(lexical(bytes@, start as int, i as int) is Code),
            escaped == (lexical(bytes@, start as int, i as int) is Escaped),
            forall|j: int| start <= j < i ==> !unmatched_close(bytes@, start as int, j),
        decreases bytes.len() - i,
    {
        let b: u8 = bytes[i];
        if in_string {
            if escaped {
                escaped = false;
            } else if b == BACKSLASH {
                escaped = true;
            } else if b == QUOTE {
                in_string = false;
            }
        } else if b == QUOTE {
            in_string = true;
        } else if b == OPEN {
            inner += 1;
        } else if b == CLOSE {
            if inner == 0 {
                proof {
                    assert(closes(bytes@, start as int, i as int));
                    lemma_matching_brace(bytes@, start as int, i as int);
                }
                return Some(i);
            }
            inner -= 1;
        }
        i += 1;
    }
    assert forall|at: int| !closes(bytes@, start as int, at) by {
        assert(!unmatched_close(bytes@, start as int, at));
    }
    None
}

/// A `${` marker stands at the byte offset `at`.
pub open spec fn marker_at(bytes: Seq<u8>, at: int) -> bool {
    &&& 0 <= at < bytes.len() - 1
    &&& bytes[at] == DOLLAR
    &&& bytes[at + 1] == OPEN
}

/// The offset of the first marker at or after `from`, or the end of the text.
pub open spec fn next_marker(bytes: Seq<u8>, from: int) -> int
    decreases bytes.len() - from,
{
    if from >= bytes.len() {
        bytes.len() as int
    } else if marker_at(bytes, from) {
        from
    } else {
        next_marker(bytes, from + 1)
    }
}

/// One piece of a template: a run of literal text, or the trimmed inside of a
/// marker; `next` is the offset after it.
pub struct PieceModel {
    pub text: Seq<char>,
    pub code: bool,
    pub next: int,
}

/// The piece of a template that begins at the offset `at`.
pub open spec fn piece(bytes: Seq<u8>, at: int) -> Result<PieceModel, ErrorModel> {
    if marker_at(bytes, at) {
        match matching_brace(bytes, at + 2) {
            None => Err(ErrorModel::UnclosedExpression { position: at }),
            Some(end) => {
                let raw = trimmed(text_between(bytes, at + 2, end));
                if raw.len() == 0 {
                    Err(ErrorModel::EmptyExpression { position: at })
                } else {
                    Ok(PieceModel { text: raw, code: true, next: end + 1 })
                }
            },
        }
    } else {
        let end = next_marker(bytes, at);
        Ok(PieceModel { text: text_between(bytes, at, end), code: false, next: end })
    }
}

/// The first marker lies at or after the place where the search begins.
pub proof fn lemma_next_marker(bytes: Seq<u8>, from: int)
    requires
        from <= bytes.len(),
    ensures
        from <= next_marker(bytes, from) <= bytes.len(),
        next_marker(bytes, from) < bytes.len() ==> marker_at(bytes, next_marker(bytes, from)),
    decreases bytes.len() - from,
{
    if from < bytes.len() && !marker_at(bytes, from) {
        lemma_next_marker(bytes, from + 1);
    }
}

/// Every piece takes up at least one byte.
pub proof fn lemma_piece_advances(bytes: Seq<u8>, at: int)
    requires
        0 <= at < bytes.len(),
        piece(bytes, at) is Ok,
    ensures
        at < piece(bytes, at)->Ok_0.next <= bytes.len(),
{
    if marker_at(bytes, at) {
        let end = matching_brace(bytes, at + 2)->Some_0;
        assert(closes(bytes, at + 2, end));
    } else {
        lemma_next_marker(bytes, at + 1);
    }
}

/// A piece of a template: literal text, or the inside of a marker.
pub struct Piece<'a> {
    pub text: &'a str,
    pub code: bool,
    pub next: usize,
}

impl<'a> View for Piece<'a> {
    type V = PieceModel;

    open spec fn view(&self) -> PieceModel {
        PieceModel { text: self.text@, code: self.code, next: self.next as int }
    }
}

/// Whether a marker stands at the byte offset `at`.
pub(crate) fn is_marker(bytes: &[u8], at: usize) -> (r: bool)
    ensures
        r == marker_at(bytes@, at as int),
{
    bytes.len() >= 2 && at <= bytes.len() - 2 && bytes[at] == DOLLAR && bytes[at + 1] == OPEN
}

/// Reads the piece of a template that begins at the byte offset `at`.
pub fn piece_at<'a>(input: &'a str, at: usize) -> (r: Result<Piece<'a>, ExprError>)
    requires
        at < input.spec_bytes().len(),
        is_char_boundary(input.spec_bytes(), at as int),
    ensures
        match r {
            Ok(p) => {
                &&& piece(input.spec_bytes(), at as int) == Ok::<PieceModel, ErrorModel>(p@)
                &&& at < p.next <= input.spec_bytes().len()
                &&& is_char_boundary(input.spec_bytes(), p.next as int)
            },
            Err(e) => piece(input.spec_bytes(), at as int) == Err::<PieceModel, ErrorModel>(e@),
        },
{
    let bytes = input.as_bytes();
    let len: usize = bytes.len();
    proof {
        encode_utf8_valid_utf8(input@);
    }
    if is_marker(bytes, at) {
        proof {
            lemma_ascii_boundaries(bytes@, at + 1);
        }
        match find_matching_brace(input, at + 2) {
            None => Err(ExprError::UnclosedExpression { position: at }),
            Some(end) => {
                proof {
                    lemma_ascii_boundaries(bytes@, end as int);
                }
                let raw = slice_text(input, at + 2, end).trim();
                if raw.is_empty() {
                    Err(ExprError::EmptyExpression { position: at })
                } else {
                    Ok(Piece { text: raw, code: true, next: end + 1 })
                }
            },
        }
    } else {
        let mut end: usize = at;
        while end < len && !is_marker(bytes, end)
            invariant
                at <= end <= len == bytes.len(),
                next_marker(bytes@, at as int) == next_marker(bytes@, end as int),
            decreases len - end,
        {
            end += 1;
        }
        proof {
            lemma_piece_advances(bytes@, at as int);
            if end < len {
                lemma_ascii_boundaries(bytes@, end as int);
            } else {
                is_char_boundary_start_end_of_seq(bytes@);
            }
        }
        Ok(Piece { text: slice_text(input, at, end), code: false, next: end })
    }
}

/// The CEL source of a piece: the inside of a marker as it stands, literal
/// text as a string literal.
pub open spec fn piece_source(p: PieceModel) -> Seq<char> {
    if p.code {
        p.text
    } else {
        quoted(p.text)
    }
}

/// The CEL sources of the pieces of a template from the offset `at` on, in
/// order, or the first fault among them.
pub open spec fn cel_parts(bytes: Seq<u8>, at: int) -> Result<Seq<Seq<char>>, ErrorModel>
    decreases bytes.len() - at,
{
    if at < 0 || at >= bytes.len() {
        Ok(seq![])
    } else {
        match piece(bytes, at) {
            Err(e) => Err(e),
            Ok(p) => {
                proof {
                    lemma_piece_advances(bytes, at);
                }
                prepended(seq![piece_source(p)], cel_parts(bytes, p.next))
            },
        }
    }
}

/// `done` before what is to come, unless that fails.
pub open spec fn prepended(
    done: Seq<Seq<char>>,
    rest: Result<Seq<Seq<char>>, ErrorModel>,
) -> Result<Seq<Seq<char>>, ErrorModel> {
    match rest {
        Err(e) => Err(e),
        Ok(parts) => Ok(done + parts),
    }
}

/// A part as an operand of a string concatenation: a string literal as it
/// stands, anything else converted to a string.
pub open spec fn operand(part: Seq<char>) -> Seq<char> {
    if part.len() > 0 && part[0] == '"' {
        part
    } else {
        "string("@ + part + ")"@
    }
}

/// The parts as one concatenation.
pub open spec fn concatenation(parts: Seq<Seq<char>>) -> Seq<char>
    decreases parts.len(),
{
    if parts.len() == 0 {
        seq![]
    } else if parts.len() == 1 {
        operand(parts[0])
    } else {
        concatenation(parts.drop_last()) + " + "@ + operand(parts.last())
    }
}

/// The CEL source of a whole template: a single part as it stands, several
/// parts concatenated.
pub open spec fn interpolated(bytes: Seq<u8>) -> Result<Seq<char>, ErrorModel> {
    match cel_parts(bytes, 0) {
        Err(e) => Err(e),
        Ok(parts) => Ok(
            if parts.len() == 1 {
                parts[0]
            } else {
                concatenation(parts)
            },
        ),
    }
}

/// The texts of some strings.
pub open spec fn texts(v: Seq<String>) -> Seq<Seq<char>> {
    v.map_values(|s: String| s@)
}

/// The parts as one concatenation.
fn concatenate(parts: &Vec<String>) -> (r: String)
    ensures
        r@ == concatenation(texts(parts@)),
{
    let mut r = String::new();
    let mut i: usize = 0;
    while i < parts.len()
        invariant
            i <= parts.len(),
            r@ == concatenation(texts(parts@).take(i as int)),
        decreases parts.len() - i,
    {
        let part: &str = parts[i].as_str();
        let ghost before = r@;
        if i > 0 {
            r.append(" + ");
        }
        if !part.is_empty() && part.get_char(0) == '"' {
            r.append(part);
        } else {
            r.append("string(");
            r.append(part);
            r.append(")");
        }
        proof {
            let taken = texts(parts@).take(i + 1);
            assert(taken.drop_last() =~= texts(parts@).take(i as int));
            assert(taken.last() == part@);
            if i == 0 {
                assert(r@ =~= operand(part@));
            } else {
                assert(r@ =~= before + " + "@ + operand(part@));
            }
        }
        i += 1;
    }
    assert(texts(parts@).take(parts.len() as int) =~= texts(parts@));
    r
}

/// Turns a template into CEL source: `hello ${arguments.name}!` becomes
/// `"hello " + string(arguments.name) + "!"`, and a template that is a single
/// `${expr}` becomes `expr`.
pub fn interpolation_to_cel(input: &str) -> (r: Result<String, ExprError>)
    ensures
        text_outcome(r) == interpolated(input.spec_bytes()),
{
    let len: usize = input.as_bytes().len();
    let ghost bytes = input.spec_bytes();
    let mut parts: Vec<String> = Vec::new();
    let mut i: usize = 0;
    proof {
        encode_utf8_valid_utf8(input@);
        is_char_boundary_start_end_of_seq(bytes);
        assert(prepended(texts(parts@), cel_parts(bytes, 0)) == cel_parts(bytes, 0)) by {
            if let Ok(rest) = cel_parts(bytes, 0) {
                assert(texts(parts@) + rest =~= rest);
            }
        }
    }
    while i < len
        invariant
            i <= len == bytes.len(),
            bytes == input.spec_bytes(),
            is_char_boundary(bytes, i as int),
            cel_parts(bytes, 0) == prepended(texts(parts@), cel_parts(bytes, i as int)),
        decreases len - i,
    {
        let p = piece_at(input, i)?;
        let ghost before = texts(parts@);
        parts.push(
            if p.code {
                p.text.to_owned()
            } else {
                quote(p.text)
            },
        );
        proof {
            assert(texts(parts@) =~= before.push(piece_source(p@)));
            if let Ok(rest) = cel_parts(bytes, p.next as int) {
                assert(before + (seq![piece_source(p@)] + rest) =~= texts(parts@) + rest);
            }
        }
        i = p.next;
    }
    assert(texts(parts@) + seq![] =~= texts(parts@));
    if parts.len() == 1 {
        let only = parts[0].clone();
        assert(texts(parts@)[0] == only@);
        return Ok(only);
    }
    Ok(concatenate(&parts))
}

/// A template that is a single marker is the expression inside it.
pub proof fn law_single_expression(bytes: Seq<u8>)
    requires
        marker_at(bytes, 0),
        matching_brace(bytes, 2) == Some(bytes.len() - 1),
        trimmed(text_between(bytes, 2, bytes.len() - 1)).len() > 0,
    ensures
        interpolated(bytes) == Ok::<Seq<char>, ErrorModel>(trimmed(text_between(bytes, 2, bytes.len() - 1))),
{
    let inside = trimmed(text_between(bytes, 2, bytes.len() - 1));
    assert(cel_parts(bytes, bytes.len() as int) == Ok::<Seq<Seq<char>>, ErrorModel>(seq![]));
    assert(cel_parts(bytes, 0) == Ok::<Seq<Seq<char>>, ErrorModel>(seq![inside] + seq![]));
    assert(seq![inside] + seq![] =~= seq![inside]);
}

/// Where two texts agree on a stretch of code, its bytes stand alike in both.
proof fn lemma_window(x: Seq<u8>, sx: int, y: Seq<u8>, sy: int, k: int)
    requires
        0 <= k,
        forall|i: int| 0 <= i < k ==> #[trigger] x[sx + i] == y[sy + i],
    ensures
        lexical(x, sx, sx + k) == lexical(y, sy, sy + k),
        open_braces(x, sx, sx + k) == open_braces(y, sy, sy + k),
    decreases k,
{
    if k > 0 {
        lemma_window(x, sx, y, sy, k - 1);
        assert(x[sx + (k - 1)] == y[sy + (k - 1)]);
    }
}

/// What stands before a text makes no difference to its braces.
proof fn lemma_braces_move(before: Seq<u8>, rest: Seq<u8>, start: int, at: int)
    requires
        0 <= start,
    ensures
        unmatched_close(before + rest, before.len() + start, before.len() + at) == unmatched_close(rest, start, at),
{
    let n = before.len() as int;
    let whole = before + rest;
    if start <= at < rest.len() {
        let k = at - start;
        assert forall|i: int| 0 <= i < k implies #[trigger] whole[n + start + i] == rest[start + i] by {}
        lemma_window(whole, n + start, rest, start, k);
        assert(whole[n + at] == rest[at]);
    }
}

/// What stands before a text makes no difference to which brace closes which.
pub proof fn lemma_matching_brace_moves(before: Seq<u8>, rest: Seq<u8>, start: int)
    requires
        0 <= start,
    ensures
        matching_brace(before + rest, before.len() + start) == match matching_brace(rest, start) {
            Some(end) => Some(before.len() + end),
            None => None,
        },
{
    let n = before.len() as int;
    let whole = before + rest;
    let moved = n + start;
    if exists|at: int| closes(rest, start, at) {
        let at = choose|at: int| closes(rest, start, at);
        lemma_braces_move(before, rest, start, at);
        assert forall|j: int| moved <= j < n + at implies !unmatched_close(whole, moved, j) by {
            lemma_braces_move(before, rest, start, j - n);
            assert(!unmatched_close(rest, start, j - n));
        }
        lemma_matching_brace(whole, moved, n + at);
    } else {
        assert forall|at: int| !closes(whole, moved, at) by {
            if closes(whole, moved, at) {
                lemma_braces_move(before, rest, start, at - n);
                assert forall|j: int| start <= j < at - n implies !unmatched_close(rest, start, j) by {
                    lemma_braces_move(before, rest, start, j);
                    assert(!unmatched_close(whole, moved, n + j));
                }
                assert(closes(rest, start, at - n));
            }
        }
    }
}

/// Code whose braces and strings are complete: nothing in it closes a brace
/// before it, and it leaves neither a brace nor a string open.
pub open spec fn self_contained(e: Seq<u8>) -> bool {
    &&& lexical(e, 0, e.len() as int) is Code
    &&& open_braces(e, 0, e.len() as int) == 0
    &&& forall|j: int| !unmatched_close(e, 0, j)
}

/// The brace directly after self-contained code closes the one directly
/// before it.
pub proof fn law_brace_after_code_closes(before: Seq<u8>, e: Seq<u8>, after: Seq<u8>)
    requires
        self_contained(e),
    ensures
        matching_brace(before + e + seq![CLOSE] + after, before.len() as int) == Some((before.len() + e.len()) as int),
{
    let rest = e + seq![CLOSE] + after;
    let end = e.len() as int;
    assert forall|j: int| 0 <= j < end implies !unmatched_close(rest, 0, j) by {
        assert(forall|i: int| 0 <= i < j ==> #[trigger] rest[0 + i] == e[0 + i]);
        lemma_window(rest, 0, e, 0, j);
        assert(rest[j] == e[j]);
        assert(!unmatched_close(e, 0, j));
    }
    assert(forall|i: int| 0 <= i < end ==> #[trigger] rest[0 + i] == e[0 + i]);
    lemma_window(rest, 0, e, 0, end);
    assert(rest[end] == CLOSE);
    assert(closes(rest, 0, end));
    lemma_matching_brace(rest, 0, end);
    lemma_matching_brace_moves(before, rest, 0);
    assert(before + rest =~= before + e + seq![CLOSE] + after);
}

/// Bytes without braces and quotes are self-contained code.
proof fn lemma_plain_bytes(e: Seq<u8>, k: int)
    requires
        0 <= k <= e.len(),
        forall|i: int| 0 <= i < e.len() ==> #[trigger] e[i] != OPEN && e[i] != CLOSE && e[i] != QUOTE,
    ensures
        lexical(e, 0, k) is Code,
        open_braces(e, 0, k) == 0,
        k == e.len() ==> self_contained(e),
    decreases k,
{
    if k > 0 {
        lemma_plain_bytes(e, k - 1);
        assert(e[k - 1] != OPEN && e[k - 1] != CLOSE && e[k - 1] != QUOTE);
    }
    if k == e.len() {
        assert forall|j: int| !unmatched_close(e, 0, j) by {
            if 0 <= j < e.len() {
                assert(e[j] != CLOSE);
            }
        }
    }
}

/// A text without braces and double quotes is self-contained code.
pub proof fn law_plain_code(e: Seq<char>)
    requires
        !e.contains('{') && !e.contains('}') && !e.contains('"'),
    ensures
        self_contained(encode_utf8(e)),
{
    let bytes = encode_utf8(e);
    assert forall|i: int| 0 <= i < bytes.len() implies #[trigger] bytes[i] != OPEN && bytes[i] != CLOSE && bytes[i]
        != QUOTE by {
        if bytes[i] < 0x80 {
            lemma_ascii_byte_is_char(e, i);
            let k = choose|k: int| 0 <= k < e.len() && #[trigger] e[k] == bytes[i] as char;
            assert(e.contains(e[k]));
        }
    }
    lemma_plain_bytes(bytes, bytes.len() as int);
}

/// Where the code so far is complete, what follows it counts anew.
proof fn lemma_after_code(a: Seq<u8>, b: Seq<u8>, k: int)
    requires
        self_contained(a),
        0 <= k <= b.len(),
    ensures
        lexical(a + b, 0, a.len() + k) == lexical(b, 0, k),
        open_braces(a + b, 0, a.len() + k) == open_braces(b, 0, k),
    decreases k,
{
    let whole = a + b;
    let n = a.len() as int;
    if k == 0 {
        assert(forall|i: int| 0 <= i < n ==> #[trigger] whole[0 + i] == a[0 + i]);
        lemma_window(whole, 0, a, 0, n);
    } else {
        lemma_after_code(a, b, k - 1);
        assert(whole[n + k - 1] == b[k - 1]);
    }
}

/// Self-contained code may be put together.
pub proof fn law_code_after_code(a: Seq<u8>, b: Seq<u8>)
    requires
        self_contained(a),
        self_contained(b),
    ensures
        self_contained(a + b),
{
    let whole = a + b;
    let n = a.len() as int;
    lemma_after_code(a, b, b.len() as int);
    assert forall|j: int| !unmatched_close(whole, 0, j) by {
        if 0 <= j < n {
            assert(forall|i: int| 0 <= i < j ==> #[trigger] whole[0 + i] == a[0 + i]);
            lemma_window(whole, 0, a, 0, j);
            assert(whole[j] == a[j]);
            assert(!unmatched_close(a, 0, j));
        } else if n <= j < whole.len() {
            lemma_after_code(a, b, j - n);
            assert(whole[j] == b[j - n]);
            assert(!unmatched_close(b, 0, j - n));
        }
    }
}

/// After an opening brace, one more brace is open.
proof fn lemma_in_braces(e: Seq<u8>, k: int)
    requires
        0 <= k <= e.len(),
    ensures
        lexical(seq![OPEN] + e, 0, k + 1) == lexical(e, 0, k),
        open_braces(seq![OPEN] + e, 0, k + 1) == open_braces(e, 0, k) + 1,
    decreases k,
{
    let whole = seq![OPEN] + e;
    if k == 0 {
        assert(whole[0] == OPEN);
        assert(lexical(whole, 0, 0) is Code);
        assert(code_byte(whole, 0, 0, OPEN));
        assert(open_braces(whole, 0, 0) == 0);
    } else {
        lemma_in_braces(e, k - 1);
        assert(whole[k] == e[k - 1]);
    }
}

/// Self-contained code in braces is self-contained.
#[verifier::rlimit(50)]
pub proof fn law_code_in_braces(e: Seq<u8>)
    requires
        self_contained(e),
    ensures
        self_contained(seq![OPEN] + e + seq![CLOSE]),
{
    let n = e.len() as int;
    let head = seq![OPEN] + e;
    let whole = head + seq![CLOSE];
    assert forall|k: int| 0 <= k <= n implies lexical(whole, 0, k + 1) == lexical(e, 0, k) && open_braces(
        whole,
        0,
        k + 1,
    ) == open_braces(e, 0, k) + 1 by {
        lemma_in_braces(e, k);
        assert(forall|i: int| 0 <= i < k + 1 ==> #[trigger] whole[0 + i] == head[0 + i]);
        lemma_window(whole, 0, head, 0, k + 1);
    }
    assert(lexical(whole, 0, n + 1) is Code && open_braces(whole, 0, n + 1) == 1);
    assert(whole[n + 1] == CLOSE);
    assert(code_byte(whole, 0, n + 1, CLOSE));
    assert(lexical(whole, 0, n + 2) is Code);
    assert(open_braces(whole, 0, n + 2) == 0);
    assert(whole.len() == n + 2);
    assert forall|j: int| !unmatched_close(whole, 0, j) by {
        if 1 <= j <= n {
            assert(lexical(whole, 0, (j - 1) + 1) == lexical(e, 0, j - 1));
            if unmatched_close(whole, 0, j) {
                assert(open_braces(e, 0, j - 1) == -1);
                lemma_never_below(e, j - 1);
            }
        } else if j == 0 {
            assert(whole[0] == OPEN);
        }
    }
}

/// In self-contained code no more braces close than open.
proof fn lemma_never_below(e: Seq<u8>, k: int)
    requires
        self_contained(e),
        0 <= k <= e.len(),
    ensures
        open_braces(e, 0, k) >= 0,
    decreases k,
{
    if k > 0 {
        lemma_never_below(e, k - 1);
        assert(!unmatched_close(e, 0, k - 1));
    }
}

/// Inside a string, bytes other than a quote and a backslash change nothing.
proof fn lemma_in_string(x: Seq<u8>, from: int, to: int)
    requires
        0 <= from <= to <= x.len(),
        lexical(x, 0, from) is Quoted,
        forall|i: int| from <= i < to ==> #[trigger] x[i] != QUOTE && x[i] != BACKSLASH,
    ensures
        lexical(x, 0, to) is Quoted,
        open_braces(x, 0, to) == open_braces(x, 0, from),
        forall|i: int| from <= i < to ==> !(#[trigger] lexical(x, 0, i) is Code),
    decreases to - from,
{
    if from < to {
        lemma_in_string(x, from, to - 1);
        assert(x[to - 1] != QUOTE && x[to - 1] != BACKSLASH);
        assert(lexical(x, 0, to - 1) is Quoted);
    }
}

/// An opening quote and an escaped text leave the string open, and count no
/// brace.
#[verifier::rlimit(50)]
proof fn lemma_open_string(s: Seq<char>)
    ensures
        ({
            let x = seq![QUOTE] + encode_utf8(escaped(s));
            &&& lexical(x, 0, x.len() as int) is Quoted
            &&& open_braces(x, 0, x.len() as int) == 0
            &&& forall|i: int| 0 < i < x.len() ==> !(#[trigger] lexical(x, 0, i) is Code)
        }),
    decreases s.len(),
{
    let x = seq![QUOTE] + encode_utf8(escaped(s));
    if s.len() == 0 {
        assert(encode_utf8(escaped(s)) =~= seq![]);
        assert(x =~= seq![QUOTE]);
        assert(lexical(x, 0, 0) is Code);
        assert(lexical(x, 0, 1) is Quoted);
        assert(open_braces(x, 0, 0) == 0);
        assert(open_braces(x, 0, 1) == 0);
    } else {
        let c = s.last();
        let init = escaped(s.drop_last());
        let y = seq![QUOTE] + encode_utf8(init);
        let n = y.len() as int;
        lemma_open_string(s.drop_last());
        lemma_encode_concat(init, escaped_char(c));
        let more = encode_utf8(escaped_char(c));
        assert(x =~= y + more);
        assert forall|k: int| 0 <= k <= n implies lexical(x, 0, k) == lexical(y, 0, k) && open_braces(x, 0, k)
            == open_braces(y, 0, k) by {
            assert(forall|i: int| 0 <= i < k ==> #[trigger] x[0 + i] == y[0 + i]);
            lemma_window(x, 0, y, 0, k);
        }
        assert(lexical(x, 0, n) is Quoted);
        if c == '\\' || c == '"' {
            lemma_encode_concat(seq!['\\'], seq![c]);
            lemma_ascii_char('\\');
            lemma_ascii_char(c);
            assert(escaped_char(c) =~= seq!['\\'] + seq![c]);
            assert(more =~= seq![BACKSLASH, c as u8]);
            assert(x[n] == BACKSLASH);
            assert(lexical(x, 0, n + 1) is Escaped);
            assert(lexical(x, 0, n + 2) is Quoted);
            assert(open_braces(x, 0, n + 1) == 0);
            assert(open_braces(x, 0, n + 2) == 0);
            assert(x.len() == n + 2);
            assert forall|i: int| 0 < i < x.len() implies !(#[trigger] lexical(x, 0, i) is Code) by {
                if i < n {
                    assert(!(lexical(y, 0, i) is Code));
                }
            }
        } else {
            assert(escaped_char(c) =~= seq![c]);
            assert forall|i: int| n <= i < x.len() implies #[trigger] x[i] != QUOTE && x[i] != BACKSLASH by {
                let b = more[i - n];
                assert(x[i] == b);
                if b < 0x80 {
                    lemma_ascii_byte_is_char(seq![c], i - n);
                }
            }
            lemma_in_string(x, n, x.len() as int);
            assert forall|i: int| 0 < i < x.len() implies !(#[trigger] lexical(x, 0, i) is Code) by {
                if i < n {
                    assert(!(lexical(y, 0, i) is Code));
                }
            }
        }
    }
}

/// A string literal is self-contained code whatever the string: braces,
/// quotes and backslashes inside it neither open nor close anything.
pub proof fn law_strings_hide_braces(s: Seq<char>)
    ensures
        self_contained(encode_utf8(quoted(s))),
{
    let inner = escaped(s);
    let x = seq![QUOTE] + encode_utf8(inner);
    let n = x.len() as int;
    let whole = encode_utf8(quoted(s));
    lemma_encode_concat(seq!['"'] + inner, seq!['"']);
    lemma_encode_concat(seq!['"'], inner);
    lemma_ascii_char('"');
    assert(whole =~= x + seq![QUOTE]);
    lemma_open_string(s);
    assert forall|k: int| 0 <= k <= n implies lexical(whole, 0, k) == lexical(x, 0, k) && open_braces(whole, 0, k)
        == open_braces(x, 0, k) by {
        assert(forall|i: int| 0 <= i < k ==> #[trigger] whole[0 + i] == x[0 + i]);
        lemma_window(whole, 0, x, 0, k);
    }
    assert(whole[n] == QUOTE);
    assert(lexical(whole, 0, n) is Quoted);
    assert(lexical(whole, 0, n + 1) is Code);
    assert(open_braces(whole, 0, n + 1) == 0);
    assert forall|j: int| !unmatched_close(whole, 0, j) by {
        if 0 < j < n {
            assert(!(lexical(x, 0, j) is Code));
        } else if j == 0 {
            assert(whole[0] == QUOTE);
        }
    }
}

/// Where more braces of the code have closed than opened, one of them closes
/// a brace before it.
proof fn lemma_below_zero(bytes: Seq<u8>, at: int) -> (j: int)
    requires
        0 <= at <= bytes.len(),
        open_braces(bytes, 0, at) < 0,
    ensures
        0 <= j < at,
        unmatched_close(bytes, 0, j),
    decreases at,
{
    if open_braces(bytes, 0, at - 1) < 0 {
        lemma_below_zero(bytes, at - 1)
    } else {
        at - 1
    }
}

/// Where some closing brace matches no opening one, the first such one closes.
proof fn lemma_first_unmatched(bytes: Seq<u8>, start: int, at: int)
    requires
        unmatched_close(bytes, start, at),
    ensures
        exists|first: int| closes(bytes, start, first),
    decreases at - start,
{
    if exists|j: int| start <= j < at && unmatched_close(bytes, start, j) {
        let j = choose|j: int| start <= j < at && unmatched_close(bytes, start, j);
        lemma_first_unmatched(bytes, start, j);
    } else {
        assert(closes(bytes, start, at));
    }
}

/// A brace that is not closed inside keeps the one around it from being
/// closed.
pub proof fn law_open_brace_stays_open(rest: Seq<u8>)
    requires
        matching_brace(rest, 0) is None,
    ensures
        matching_brace(seq![OPEN] + rest, 0) is None,
{
    let whole = seq![OPEN] + rest;
    assert forall|at: int| !closes(whole, 0, at) by {
        if closes(whole, 0, at) {
            if at == 0 {
                assert(whole[0] == OPEN);
            } else {
                lemma_in_braces(rest, at - 1);
                let j = lemma_below_zero(rest, at - 1);
                lemma_first_unmatched(rest, 0, j);
            }
        }
    }
}

/// Nothing after a double quote is code, up to the next double quote.
proof fn lemma_string_goes_on(t: Seq<u8>, k: int)
    requires
        0 <= k <= t.len(),
        forall|i: int| 0 <= i < t.len() ==> #[trigger] t[i] != QUOTE,
    ensures
        !(lexical(seq![QUOTE] + t, 0, k + 1) is Code),
    decreases k,
{
    let whole = seq![QUOTE] + t;
    if k == 0 {
        assert(whole[0] == QUOTE);
        assert(lexical(whole, 0, 0) is Code);
    } else {
        lemma_string_goes_on(t, k - 1);
        assert(whole[k] == t[k - 1]);
    }
}

/// A string that is not closed keeps the brace before it from being closed.
pub proof fn law_open_string_stays_open(t: Seq<u8>)
    requires
        forall|i: int| 0 <= i < t.len() ==> #[trigger] t[i] != QUOTE,
    ensures
        matching_brace(seq![QUOTE] + t, 0) is None,
{
    let whole = seq![QUOTE] + t;
    assert forall|at: int| !closes(whole, 0, at) by {
        if closes(whole, 0, at) {
            if at == 0 {
                assert(whole[0] == QUOTE);
            } else {
                lemma_string_goes_on(t, at - 1);
            }
        }
    }
}

/// Self-contained code makes no difference to whether a brace before it is
/// closed after it.
pub proof fn law_code_before_open(a: Seq<u8>, rest: Seq<u8>)
    requires
        self_contained(a),
        matching_brace(rest, 0) is None,
    ensures
        matching_brace(a + rest, 0) is None,
{
    let whole = a + rest;
    let n = a.len() as int;
    assert forall|at: int| !closes(whole, 0, at) by {
        if closes(whole, 0, at) {
            if at < n {
                assert(forall|i: int| 0 <= i < at ==> #[trigger] whole[0 + i] == a[0 + i]);
                lemma_window(whole, 0, a, 0, at);
                assert(whole[at] == a[at]);
                assert(!unmatched_close(a, 0, at));
            } else {
                lemma_after_code(a, rest, at - n);
                assert(whole[at] == rest[at - n]);
                lemma_first_unmatched(rest, 0, at - n);
            }
        }
    }
}

}
