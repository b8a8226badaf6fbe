//! What a template means, told from how it is written.
use crate::error::ErrorModel;
use crate::template::{
    cel_parts, closes, concatenation, interpolated, law_brace_after_code_closes, law_plain_code,
    lemma_matching_brace_moves, lemma_next_marker, lemma_piece_advances, marker_at, matching_brace, next_marker, piece, self_contained,
    PieceModel, CLOSE,
};
use crate::text::{
    all_white, edges_are_solid, is_white_space, law_trimming, lemma_ascii_byte_is_char, lemma_encode_concat,
    lemma_encode_nonempty, lemma_middle_text, lemma_word_bytes, lemma_word_in_bytes, occurs, quoted, text_between,
};
use vstd::prelude::*;
use vstd::string::*;
use vstd::utf8::*;

verus! {

/// An error as it reads where `n` more bytes stand before the text.
pub open spec fn moved(e: ErrorModel, n: int) -> ErrorModel {
    match e {
        ErrorModel::UnclosedExpression { position } => ErrorModel::UnclosedExpression { position: position + n },
        ErrorModel::EmptyExpression { position } => ErrorModel::EmptyExpression { position: position + n },
        ErrorModel::UnclosedEnv { position } => ErrorModel::UnclosedEnv { position: position + n },
        ErrorModel::EmptyEnvName { position } => ErrorModel::EmptyEnvName { position: position + n },
        _ => e,
    }
}

/// A part of a template as it is written: literal text, or the inside of a
/// `${}` marker.
pub enum Part {
    Text(Seq<char>),
    Block(Seq<char>),
}

/// A part as it is written.
pub open spec fn part_text(p: Part) -> Seq<char> {
    match p {
        Part::Text(t) => t,
        Part::Block(e) => "${"@ + e + "}"@,
    }
}

/// Parts as they are written, one after the other.
pub open spec fn template_text(parts: Seq<Part>) -> Seq<char>
    decreases parts.len(),
{
    if parts.len() == 0 {
        seq![]
    } else {
        part_text(parts[0]) + template_text(parts.drop_first())
    }
}

/// Parts that are told apart when they are written: literal text is not
/// empty, holds no `${`, and does not follow literal text; the inside of a
/// marker is self-contained, not empty, and has no white space at its ends.
pub open spec fn are_proper(parts: Seq<Part>) -> bool {
    forall|i: int|
        0 <= i < parts.len() ==> match #[trigger] parts[i] {
            Part::Text(t) => t.len() > 0 && !occurs(t, "${"@) && (i + 1 < parts.len() ==> parts[i + 1] is Block),
            Part::Block(e) => e.len() > 0 && edges_are_solid(e) && self_contained(encode_utf8(e)),
        }
}

/// The bytes of `${` and of `}`.
pub proof fn lemma_marker_words()
    ensures
        is_ascii_chars("${"@) && is_ascii_chars("}"@),
        "${"@ == seq!['$', '{'] && "}"@ == seq!['}'],
        encode_utf8("${"@) == seq![0x24u8, 0x7bu8],
        encode_utf8("}"@) == seq![0x7du8],
{
    reveal_strlit("${");
    reveal_strlit("}");
    is_ascii_chars_encode_utf8("${"@);
    is_ascii_chars_encode_utf8("}"@);
    assert("${"@ =~= seq!['$', '{']);
    assert("}"@ =~= seq!['}']);
    assert(encode_utf8("${"@) =~= seq![0x24u8, 0x7bu8]);
    assert(encode_utf8("}"@) =~= seq![0x7du8]);
}

/// A text without `${` has no marker.
pub proof fn law_no_marker(t: Seq<char>)
    requires
        !occurs(t, "${"@),
    ensures
        forall|at: int| !marker_at(encode_utf8(t), at),
{
    lemma_marker_words();
    let bytes = encode_utf8(t);
    assert forall|at: int| !marker_at(bytes, at) by {
        if marker_at(bytes, at) {
            let word = "${"@;
            assert forall|j: int| 0 <= j < word.len() implies #[trigger] bytes[at + j] == word[j] as u8 by {
                if j == 0 {
                    assert(bytes[at + 0] == 0x24);
                } else {
                    assert(bytes[at + 1] == 0x7b);
                }
            }
            lemma_word_in_bytes(t, word, at);
        }
    }
}

/// A text with `${` in it has a marker there.
pub proof fn law_marker(before: Seq<char>, after: Seq<char>)
    ensures
        marker_at(encode_utf8(before + "${"@ + after), encode_utf8(before).len() as int),
{
    lemma_marker_words();
    lemma_word_bytes(before, "${"@, after);
}

/// What stands before a text makes no difference to where its next marker is.
proof fn lemma_next_marker_moves(before: Seq<u8>, rest: Seq<u8>, at: int)
    requires
        0 <= at <= rest.len(),
    ensures
        next_marker(before + rest, before.len() + at) == before.len() + next_marker(rest, at),
    decreases rest.len() - at,
{
    let whole = before + rest;
    if at < rest.len() {
        assert(marker_at(whole, before.len() + at) == marker_at(rest, at)) by {
            assert(whole[before.len() + at] == rest[at]);
            if at + 1 < rest.len() {
                assert(whole[before.len() + at + 1] == rest[at + 1]);
            }
        }
        if !marker_at(rest, at) {
            lemma_next_marker_moves(before, rest, at + 1);
        }
    }
}

/// A stretch of a text is the same with something before the text.
pub proof fn lemma_text_moves(before: Seq<u8>, rest: Seq<u8>, from: int, to: int)
    requires
        0 <= from <= to <= rest.len(),
    ensures
        text_between(before + rest, before.len() + from, before.len() + to) == text_between(rest, from, to),
{
    assert((before + rest).subrange(before.len() + from, before.len() + to) =~= rest.subrange(from, to));
}

/// What stands before a text makes no difference to its pieces but to their
/// offsets.
pub proof fn lemma_piece_moves(before: Seq<u8>, rest: Seq<u8>, at: int)
    requires
        0 <= at < rest.len(),
    ensures
        piece(before + rest, before.len() + at) == match piece(rest, at) {
            Ok(p) => Ok(PieceModel { text: p.text, code: p.code, next: p.next + before.len() }),
            Err(e) => Err(moved(e, before.len() as int)),
        },
{
    let n = before.len() as int;
    let whole = before + rest;
    assert(marker_at(whole, n + at) == marker_at(rest, at)) by {
        assert(whole[n + at] == rest[at]);
        if at + 1 < rest.len() {
            assert(whole[n + at + 1] == rest[at + 1]);
        }
    }
    if marker_at(rest, at) {
        lemma_matching_brace_moves(before, rest, at + 2);
        if let Some(end) = matching_brace(rest, at + 2) {
            assert(closes(rest, at + 2, end));
            lemma_text_moves(before, rest, at + 2, end);
        }
    } else {
        lemma_next_marker_moves(before, rest, at);
        lemma_next_marker(rest, at);
        lemma_text_moves(before, rest, at, next_marker(rest, at));
    }
}

/// What stands before a text makes no difference to the parts of the rest.
proof fn lemma_parts_move(before: Seq<u8>, rest: Seq<u8>, at: int)
    requires
        0 <= at <= rest.len(),
    ensures
        cel_parts(before + rest, before.len() + at) == match cel_parts(rest, at) {
            Ok(parts) => Ok(parts),
            Err(e) => Err(moved(e, before.len() as int)),
        },
    decreases rest.len() - at,
{
    if at < rest.len() {
        lemma_piece_moves(before, rest, at);
        if let Ok(p) = piece(rest, at) {
            lemma_piece_advances(rest, at);
            lemma_parts_move(before, rest, p.next);
        }
    }
}

/// The first piece of a text that begins with literal text is that text, up
/// to the marker after it.
pub proof fn lemma_text_piece(t: Seq<char>, rest: Seq<char>)
    requires
        t.len() > 0,
        !occurs(t, "${"@),
        rest.len() == 0 || marker_at(encode_utf8(rest), 0),
    ensures
        piece(encode_utf8(t + rest), 0) == Ok::<PieceModel, ErrorModel>(
            PieceModel { text: t, code: false, next: encode_utf8(t).len() as int },
        ),
        encode_utf8(t + rest) == encode_utf8(t) + encode_utf8(rest),
        encode_utf8(t).len() > 0,
{
    let head = encode_utf8(t);
    let tail = encode_utf8(rest);
    let whole = head + tail;
    let n = head.len() as int;
    lemma_encode_concat(t, rest);
    lemma_encode_nonempty(t);
    law_no_marker(t);
    assert forall|at: int| 0 <= at < n implies !marker_at(whole, at) by {
        assert(!marker_at(head, at));
        assert(whole[at] == head[at]);
        if at + 1 < n {
            assert(whole[at + 1] == head[at + 1]);
        } else if tail.len() > 0 {
            lemma_encode_nonempty(rest);
            assert(whole[at + 1] == tail[0]);
        }
    }
    if rest.len() > 0 {
        assert(whole[n] == tail[0] && whole[n + 1] == tail[1]);
        assert(marker_at(whole, n));
    } else {
        assert(tail =~= seq![]);
    }
    lemma_next_marker_is(whole, 0, n);
    lemma_middle_text(seq![], t, tail);
    assert(Seq::<u8>::empty() + head + tail =~= whole);
}

/// Where no marker stands before a place, the search goes on to it.
pub proof fn lemma_next_marker_is(bytes: Seq<u8>, from: int, to: int)
    requires
        0 <= from <= to <= bytes.len(),
        forall|at: int| from <= at < to ==> !marker_at(bytes, at),
        to == bytes.len() || marker_at(bytes, to),
    ensures
        next_marker(bytes, from) == to,
    decreases to - from,
{
    if from < to {
        lemma_next_marker_is(bytes, from + 1, to);
    }
}

/// The first piece of a text that begins with a marker is the inside of the
/// marker, without white space at its ends.
pub proof fn lemma_block_piece(white: Seq<char>, e: Seq<char>, more: Seq<char>, rest: Seq<char>)
    requires
        all_white(white),
        all_white(more),
        e.len() > 0,
        edges_are_solid(e),
        self_contained(encode_utf8(white + e + more)),
    ensures
        ({
            let block = "${"@ + (white + e + more) + "}"@;
            &&& piece(encode_utf8(block + rest), 0) == Ok::<PieceModel, ErrorModel>(
                PieceModel { text: e, code: true, next: encode_utf8(block).len() as int },
            )
            &&& encode_utf8(block + rest) == encode_utf8(block) + encode_utf8(rest)
            &&& marker_at(encode_utf8(block + rest), 0)
            &&& encode_utf8(block).len() > 0
        }),
{
    let inside = white + e + more;
    let block = "${"@ + inside + "}"@;
    let body = encode_utf8(inside);
    let tail = encode_utf8(rest);
    let open = seq![0x24u8, 0x7bu8];
    lemma_marker_words();
    lemma_encode_concat(block, rest);
    lemma_encode_concat("${"@ + inside, "}"@);
    lemma_encode_concat("${"@, inside);
    let whole = encode_utf8(block + rest);
    assert(whole =~= open + body + seq![CLOSE] + tail);
    law_brace_after_code_closes(open, body, tail);
    assert(whole[0] == 0x24 && whole[1] == 0x7b);
    lemma_middle_text(open, inside, seq![CLOSE] + tail);
    assert(open + body + (seq![CLOSE] + tail) =~= whole);
    law_trimming(white, e, more);
}

/// Literal text before a marker stands quoted before the parts of the rest,
/// and alone where there is no rest.
pub proof fn law_text_comes_quoted(t: Seq<char>, rest: Seq<char>)
    requires
        t.len() > 0,
        !occurs(t, "${"@),
        rest.len() == 0 || marker_at(encode_utf8(rest), 0),
    ensures
        cel_parts(encode_utf8(t + rest), 0) == match cel_parts(encode_utf8(rest), 0) {
            Ok(parts) => Ok(seq![quoted(t)] + parts),
            Err(e) => Err(moved(e, encode_utf8(t).len() as int)),
        },
{
    lemma_text_piece(t, rest);
    lemma_parts_move(encode_utf8(t), encode_utf8(rest), 0);
}

/// The inside of a marker stands before the parts of the rest as it is,
/// without white space at its ends.
pub proof fn law_block_comes_trimmed(white: Seq<char>, e: Seq<char>, more: Seq<char>, rest: Seq<char>)
    requires
        all_white(white),
        all_white(more),
        e.len() > 0,
        edges_are_solid(e),
        self_contained(encode_utf8(white + e + more)),
    ensures
        ({
            let block = "${"@ + (white + e + more) + "}"@;
            cel_parts(encode_utf8(block + rest), 0) == match cel_parts(encode_utf8(rest), 0) {
                Ok(parts) => Ok(seq![e] + parts),
                Err(err) => Err(moved(err, encode_utf8(block).len() as int)),
            }
        }),
{
    let block = "${"@ + (white + e + more) + "}"@;
    lemma_block_piece(white, e, more, rest);
    lemma_parts_move(encode_utf8(block), encode_utf8(rest), 0);
}

/// The CEL source of a part: the inside of a marker as it is, literal text as
/// a string literal.
pub open spec fn part_source(p: Part) -> Seq<char> {
    match p {
        Part::Text(t) => quoted(t),
        Part::Block(e) => e,
    }
}

/// Without the first part, the rest is proper, and begins with a marker where
/// the first part is text.
pub proof fn lemma_proper_rest(parts: Seq<Part>)
    requires
        parts.len() > 0,
        are_proper(parts),
    ensures
        are_proper(parts.drop_first()),
        parts[0] is Text ==> {
            let rest = template_text(parts.drop_first());
            rest.len() == 0 || marker_at(encode_utf8(rest), 0)
        },
{
    let rest = parts.drop_first();
    assert forall|i: int| 0 <= i < rest.len() implies match #[trigger] rest[i] {
        Part::Text(t) => t.len() > 0 && !occurs(t, "${"@) && (i + 1 < rest.len() ==> rest[i + 1] is Block),
        Part::Block(e) => e.len() > 0 && edges_are_solid(e) && self_contained(encode_utf8(e)),
    } by {
        assert(rest[i] == parts[i + 1]);
        if i + 1 < rest.len() {
            assert(rest[i + 1] == parts[i + 2]);
        }
    }
    if parts[0] is Text && rest.len() > 0 {
        assert(parts[1] is Block);
        assert(rest[0] == parts[1]);
        let e = rest[0]->Block_0;
        let after = template_text(rest.drop_first());
        lemma_inside_alone(e);
        lemma_block_piece(seq![], e, seq![], after);
        assert(template_text(rest) == ("${"@ + e + "}"@) + after);
    }
}

/// A text with nothing around it.
pub proof fn lemma_inside_alone(e: Seq<char>)
    ensures
        Seq::<char>::empty() + e + Seq::<char>::empty() == e,
        all_white(seq![]),
{
    assert(Seq::<char>::empty() + e + Seq::<char>::empty() =~= e);
}

/// Every part of a template stands in its list of CEL sources, in order, and
/// nothing else does.
pub proof fn law_template_parts(parts: Seq<Part>)
    requires
        are_proper(parts),
    ensures
        cel_parts(encode_utf8(template_text(parts)), 0) == Ok::<Seq<Seq<char>>, ErrorModel>(
            parts.map_values(|p: Part| part_source(p)),
        ),
    decreases parts.len(),
{
    let sources = parts.map_values(|p: Part| part_source(p));
    if parts.len() == 0 {
        assert(encode_utf8(template_text(parts)) =~= seq![]);
        assert(sources =~= seq![]);
    } else {
        let rest = parts.drop_first();
        lemma_proper_rest(parts);
        law_template_parts(rest);
        assert(sources =~= seq![part_source(parts[0])] + rest.map_values(|p: Part| part_source(p)));
        match parts[0] {
            Part::Text(t) => {
                law_text_comes_quoted(t, template_text(rest));
            },
            Part::Block(e) => {
                lemma_inside_alone(e);
                law_block_comes_trimmed(seq![], e, seq![], template_text(rest));
            },
        }
    }
}

/// A part of a concatenation: itself where it begins with a double quote, and
/// `string(...)` around it otherwise.
pub open spec fn as_operand(x: Seq<char>) -> Seq<char> {
    if x.len() > 0 && x[0] == '"' {
        x
    } else {
        seq!['s', 't', 'r', 'i', 'n', 'g', '('] + x + seq![')']
    }
}

/// Every part of a concatenation stands in it: one more part adds ` + ` and
/// that part as an operand, however many there are already.
pub proof fn law_concatenation_grows(parts: Seq<Seq<char>>, x: Seq<char>)
    ensures
        parts.len() > 0 ==> concatenation(parts.push(x)) == concatenation(parts) + seq![' ', '+', ' '] + as_operand(x),
        parts.len() == 0 ==> concatenation(parts.push(x)) == as_operand(x),
{
    reveal_strlit(" + ");
    reveal_strlit("string(");
    reveal_strlit(")");
    assert(" + "@ =~= seq![' ', '+', ' ']);
    assert("string("@ =~= seq!['s', 't', 'r', 'i', 'n', 'g', '(']);
    assert(")"@ =~= seq![')']);
    assert(parts.push(x).drop_last() =~= parts);
}

/// The operands of a concatenation.
pub open spec fn operands(parts: Seq<Seq<char>>) -> Seq<Seq<char>> {
    parts.map_values(|x: Seq<char>| as_operand(x))
}

/// Texts with ` + ` between each two.
pub open spec fn summed(operands: Seq<Seq<char>>) -> Seq<char>
    decreases operands.len(),
{
    if operands.len() == 0 {
        seq![]
    } else if operands.len() == 1 {
        operands[0]
    } else {
        operands[0] + seq![' ', '+', ' '] + summed(operands.drop_first())
    }
}

proof fn lemma_summed_push(all: Seq<Seq<char>>, x: Seq<char>)
    requires
        all.len() > 0,
    ensures
        summed(all.push(x)) == summed(all) + seq![' ', '+', ' '] + x,
    decreases all.len(),
{
    let grown = all.push(x);
    if all.len() == 1 {
        assert(grown.drop_first() =~= seq![x]);
        assert(summed(seq![x]) == x);
    } else {
        assert(grown.drop_first() =~= all.drop_first().push(x));
        lemma_summed_push(all.drop_first(), x);
        assert(summed(grown) =~= summed(all) + seq![' ', '+', ' '] + x);
    }
}

/// As many operands stand in a concatenation as there are parts, in order.
pub proof fn law_concatenation_is_a_sum(parts: Seq<Seq<char>>)
    ensures
        concatenation(parts) == summed(operands(parts)),
    decreases parts.len(),
{
    if parts.len() > 0 {
        let init = parts.drop_last();
        law_concatenation_is_a_sum(init);
        law_concatenation_grows(init, parts.last());
        assert(init.push(parts.last()) =~= parts);
        assert(operands(parts) =~= operands(init).push(as_operand(parts.last())));
        if init.len() > 0 {
            lemma_summed_push(operands(init), as_operand(parts.last()));
        }
    }
}

/// A template of one part is the source of that part, and one of several is
/// the sum of all of them.
pub proof fn law_template_source(parts: Seq<Part>)
    requires
        are_proper(parts),
    ensures
        interpolated(encode_utf8(template_text(parts))) == Ok::<Seq<char>, ErrorModel>(
            if parts.len() == 1 {
                part_source(parts[0])
            } else {
                summed(operands(parts.map_values(|p: Part| part_source(p))))
            },
        ),
{
    law_template_parts(parts);
    law_concatenation_is_a_sum(parts.map_values(|p: Part| part_source(p)));
}

/// Without a closing brace after it no brace is closed.
proof fn lemma_nothing_closes(bytes: Seq<u8>, start: int)
    requires
        forall|i: int| start <= i < bytes.len() ==> #[trigger] bytes[i] != CLOSE,
    ensures
        matching_brace(bytes, start) is None,
{
    assert forall|at: int| !closes(bytes, start, at) by {
        if start <= at < bytes.len() {
            assert(bytes[at] != CLOSE);
        }
    }
}

/// A marker without a closing brace is reported, with the offset of its
/// dollar sign in bytes.
pub proof fn law_unclosed_marker(t: Seq<char>, e: Seq<char>)
    requires
        !occurs(t, "${"@),
        !e.contains('}'),
    ensures
        cel_parts(encode_utf8(t + ("${"@ + e)), 0) == Err::<Seq<Seq<char>>, ErrorModel>(
            ErrorModel::UnclosedExpression { position: encode_utf8(t).len() as int },
        ),
{
    let marker = "${"@ + e;
    let bytes = encode_utf8(marker);
    lemma_unclosed_piece(e);
    assert(cel_parts(bytes, 0) == Err::<Seq<Seq<char>>, ErrorModel>(ErrorModel::UnclosedExpression { position: 0 }));
    if t.len() > 0 {
        law_text_comes_quoted(t, marker);
    } else {
        assert(t + marker =~= marker);
        assert(encode_utf8(t) =~= seq![]);
    }
}

/// The piece at a marker without a closing brace.
pub proof fn lemma_unclosed_piece(e: Seq<char>)
    requires
        !e.contains('}'),
    ensures
        ({
            let bytes = encode_utf8("${"@ + e);
            &&& bytes.len() > 0
            &&& marker_at(bytes, 0)
            &&& piece(bytes, 0) == Err::<PieceModel, ErrorModel>(ErrorModel::UnclosedExpression { position: 0 })
        }),
{
    let bytes = encode_utf8("${"@ + e);
    lemma_marker_words();
    lemma_encode_concat("${"@, e);
    assert(bytes[0] == 0x24 && bytes[1] == 0x7b);
    assert forall|i: int| 2 <= i < bytes.len() implies #[trigger] bytes[i] != CLOSE by {
        let b = encode_utf8(e)[i - 2];
        assert(bytes[i] == b);
        if b < 0x80 {
            lemma_ascii_byte_is_char(e, i - 2);
            let k = choose|k: int| 0 <= k < e.len() && #[trigger] e[k] == encode_utf8(e)[i - 2] as char;
            assert(e.contains(e[k]));
        }
    }
    lemma_nothing_closes(bytes, 2);
}

/// A marker with nothing but white space in it is reported, with its offset
/// in bytes, whatever follows.
pub proof fn law_empty_marker(t: Seq<char>, white: Seq<char>, rest: Seq<char>)
    requires
        !occurs(t, "${"@),
        all_white(white),
    ensures
        cel_parts(encode_utf8(t + ("${"@ + white + "}"@ + rest)), 0) == Err::<Seq<Seq<char>>, ErrorModel>(
            ErrorModel::EmptyExpression { position: encode_utf8(t).len() as int },
        ),
{
    let marker = "${"@ + white + "}"@ + rest;
    lemma_empty_piece(white, rest);
    if t.len() > 0 {
        law_text_comes_quoted(t, marker);
    } else {
        assert(t + marker =~= marker);
        assert(encode_utf8(t) =~= seq![]);
    }
}

/// The piece at a marker with nothing but white space in it.
pub proof fn lemma_empty_piece(white: Seq<char>, rest: Seq<char>)
    requires
        all_white(white),
    ensures
        ({
            let bytes = encode_utf8("${"@ + white + "}"@ + rest);
            &&& bytes.len() > 0
            &&& marker_at(bytes, 0)
            &&& piece(bytes, 0) == Err::<PieceModel, ErrorModel>(ErrorModel::EmptyExpression { position: 0 })
        }),
{
    let bytes = encode_utf8("${"@ + white + "}"@ + rest);
    let body = encode_utf8(white);
    let tail = encode_utf8(rest);
    let open = seq![0x24u8, 0x7bu8];
    lemma_marker_words();
    lemma_encode_concat("${"@ + white + "}"@, rest);
    lemma_encode_concat("${"@ + white, "}"@);
    lemma_encode_concat("${"@, white);
    assert(bytes =~= open + body + seq![CLOSE] + tail);
    assert(!white.contains('{') && !white.contains('}') && !white.contains('"')) by {
        assert forall|c: char| white.contains(c) implies is_white_space(c) by {
            let i = choose|i: int| 0 <= i < white.len() && white[i] == c;
            assert(is_white_space(white[i]));
        }
    }
    law_plain_code(white);
    law_brace_after_code_closes(open, body, tail);
    assert(bytes[0] == 0x24 && bytes[1] == 0x7b);
    lemma_middle_text(open, white, seq![CLOSE] + tail);
    assert(open + body + (seq![CLOSE] + tail) =~= bytes);
    law_trimming(white, seq![], seq![]);
    assert(white + Seq::<char>::empty() + Seq::<char>::empty() =~= white);
}

/// The source of a template is that of its only part, or the sum of all its
/// parts; a fault among the parts is the fault of the template.
pub proof fn law_source_from_parts(bytes: Seq<u8>)
    ensures
        match cel_parts(bytes, 0) {
            Ok(parts) => interpolated(bytes) == Ok::<Seq<char>, ErrorModel>(
                if parts.len() == 1 {
                    parts[0]
                } else {
                    summed(operands(parts))
                },
            ),
            Err(e) => interpolated(bytes) == Err::<Seq<char>, ErrorModel>(e),
        },
{
    if let Ok(parts) = cel_parts(bytes, 0) {
        law_concatenation_is_a_sum(parts);
    }
}

}
