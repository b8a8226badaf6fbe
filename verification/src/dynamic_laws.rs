//! What configuration values are and come to, told from how they are written.
use crate::context::{standard_variables, ExprContext};
use crate::convert::scalar_text;
use crate::double::fixed_two;
use crate::dynamic::{
    compile_result, composed, composed_of, evaluated, has_marker, joined, law_split_templates_interpolate, parsed,
    rendered, resolved, resolved_with, segment_gives, segment_refs, segments_from, slices, value_refs,
    CompositeSegment,    DynamicValue, SegmentModel, ValueModel,
};
use crate::engine::{compiled, contents, described_as, error_positions, may_give, parse_errors_text, raw_outcome, reads_as};
use crate::error::ErrorModel;
use crate::template::{cel_parts, lemma_piece_advances, marker_at, piece, self_contained, texts};
use crate::template_laws::{
    are_proper, law_marker, law_no_marker, law_source_from_parts, law_template_source, lemma_block_piece,
    lemma_empty_piece, lemma_inside_alone, lemma_piece_moves, lemma_proper_rest, lemma_text_piece,
    lemma_unclosed_piece, moved, operands, part_source, part_text, summed, template_text, Part,
};
use crate::text::{
    all_white, begins_with, digits_value, edges_are_solid, is_digit, is_plain_decimal, is_plain_signed,
    law_decimal_is_plain, law_signed_decimal_is_plain, law_truth_words, occurs, occurs_at,
};
use crate::value::CelModel;
use vstd::prelude::*;
use vstd::string::*;
use vstd::utf8::*;

verus! {

/// How parse errors are reported: as CEL words them, where each of them lies
/// in the first 65535 columns of a line, and else as out of view.
pub open spec fn reported(e: cel::ParseErrors, detail: Seq<char>) -> bool {
    let near = forall|i: int|
        0 <= i < error_positions(e).len() ==> {
            let position = #[trigger] error_positions(e)[i];
            position.0 >= 0 && 0 <= position.1 && position.1 <= 65535
        };
    if near {
        detail == parse_errors_text(e)
    } else {
        detail == "the error lies too far into its line to be shown"@
    }
}

/// A program that compiles is passed on; parse errors are reported with the
/// expression as it is.
pub proof fn law_compile_report(expression: Seq<char>, outcome: Result<cel::Program, cel::ParseErrors>)
    ensures
        match outcome {
            Ok(program) => compile_result(expression, outcome) == Ok::<cel::Program, ErrorModel>(program),
            Err(e) => {
                &&& compile_result(expression, outcome) matches Err(ErrorModel::Compile { expression: told, detail })
                &&& told == expression
                &&& reported(e, detail)
            },
        },
{
}

/// What stands before a template makes no difference to the segments of the
/// rest.
proof fn lemma_segments_move(before: Seq<u8>, rest: Seq<u8>, at: int)
    requires
        0 <= at <= rest.len(),
    ensures
        segments_from(before + rest, before.len() + at) == match segments_from(rest, at) {
            Ok(segments) => Ok(segments),
            Err(e) => Err(moved(e, before.len() as int)),
        },
    decreases rest.len() - at,
{
    if at < rest.len() {
        lemma_piece_moves(before, rest, at);
        if let Ok(p) = piece(rest, at) {
            lemma_piece_advances(rest, at);
            lemma_segments_move(before, rest, p.next);
        }
    }
}

/// Literal text before a marker is a literal segment, as it is.
pub proof fn law_text_is_literal(t: Seq<char>, rest: Seq<char>)
    requires
        t.len() > 0,
        !occurs(t, "${"@),
        rest.len() == 0 || marker_at(encode_utf8(rest), 0),
    ensures
        segments_from(encode_utf8(t + rest), 0) == match segments_from(encode_utf8(rest), 0) {
            Ok(segments) => Ok(seq![SegmentModel::Literal(t)] + segments),
            Err(e) => Err(moved(e, encode_utf8(t).len() as int)),
        },
{
    lemma_text_piece(t, rest);
    lemma_segments_move(encode_utf8(t), encode_utf8(rest), 0);
}

/// A marker whose inside begins with `cred://` is a reference, by its whole
/// URI; any other is an expression, compiled from its inside as it is. One
/// that does not compile is reported whatever follows.
pub proof fn law_block_is_reference_or_expression(
    white: Seq<char>,
    e: Seq<char>,
    more: Seq<char>,
    rest: Seq<char>,
)
    requires
        all_white(white),
        all_white(more),
        e.len() > 0,
        edges_are_solid(e),
        self_contained(encode_utf8(white + e + more)),
    ensures
        ({
            let block = "${"@ + (white + e + more) + "}"@;
            let all = segments_from(encode_utf8(block + rest), 0);
            let others = segments_from(encode_utf8(rest), 0);
            let n = encode_utf8(block).len() as int;
            if occurs_at(e, "cred://"@, 0) {
                all == match others {
                    Ok(segments) => Ok(seq![SegmentModel::Cred(e)] + segments),
                    Err(err) => Err(moved(err, n)),
                }
            } else {
                match compiled(e) {
                    Ok(program) => all == match others {
                        Ok(segments) => Ok(seq![SegmentModel::Cel { source: e, program }] + segments),
                        Err(err) => Err(moved(err, n)),
                    },
                    Err(errors) => {
                        &&& all matches Err(ErrorModel::Compile { expression, detail })
                        &&& expression == e
                        &&& reported(errors, detail)
                    },
                }
            }
        }),
{
    let block = "${"@ + (white + e + more) + "}"@;
    lemma_block_piece(white, e, more, rest);
    lemma_segments_move(encode_utf8(block), encode_utf8(rest), 0);
    law_compile_report(e, compiled(e));
    let word = "cred://"@;
    if occurs_at(e, word, 0) {
        assert(e.subrange(0, word.len() as int) == word);
        assert(begins_with(e, word));
    } else if begins_with(e, word) {
        assert(e.subrange(0, word.len() as int) =~= word);
        assert(occurs_at(e, word, 0));
    }
}

/// The segment of a part: literal text as it is, a reference by its URI, an
/// expression with what it compiles to.
pub open spec fn part_segment(p: Part) -> SegmentModel {
    match p {
        Part::Text(t) => SegmentModel::Literal(t),
        Part::Block(e) => if occurs_at(e, "cred://"@, 0) {
            SegmentModel::Cred(e)
        } else {
            SegmentModel::Cel { source: e, program: compiled(e)->Ok_0 }
        },
    }
}

/// A part is a reference to a credential.
pub open spec fn is_reference(p: Part) -> bool {
    p matches Part::Block(e) && occurs_at(e, "cred://"@, 0)
}

/// Every expression among some parts compiles.
pub open spec fn all_compile(parts: Seq<Part>) -> bool {
    forall|i: int|
        0 <= i < parts.len() && parts[i] is Block && !is_reference(#[trigger] parts[i]) ==> compiled(
            parts[i]->Block_0,
        ) is Ok
}

/// A template's segments are its parts, one by one, in order.
pub proof fn law_template_segments(parts: Seq<Part>)
    requires
        are_proper(parts),
        all_compile(parts),
    ensures
        segments_from(encode_utf8(template_text(parts)), 0) == Ok::<Seq<SegmentModel>, ErrorModel>(
            parts.map_values(|p: Part| part_segment(p)),
        ),
    decreases parts.len(),
{
    let all = parts.map_values(|p: Part| part_segment(p));
    if parts.len() == 0 {
        assert(encode_utf8(template_text(parts)) =~= seq![]);
        assert(all =~= seq![]);
    } else {
        let rest = parts.drop_first();
        lemma_proper_rest(parts);
        assert forall|i: int| 0 <= i < rest.len() && rest[i] is Block && !is_reference(
            #[trigger] rest[i],
        ) implies compiled(rest[i]->Block_0) is Ok by {
            assert(rest[i] == parts[i + 1]);
        }
        law_template_segments(rest);
        assert(all =~= seq![part_segment(parts[0])] + rest.map_values(|p: Part| part_segment(p)));
        match parts[0] {
            Part::Text(t) => {
                law_text_is_literal(t, template_text(rest));
            },
            Part::Block(e) => {
                lemma_inside_alone(e);
                law_block_is_reference_or_expression(seq![], e, seq![], template_text(rest));
                assert(!is_reference(parts[0]) ==> compiled(parts[0]->Block_0) is Ok);
            },
        }
    }
}

/// A template with a marker among its parts has a marker.
proof fn lemma_block_is_marker(parts: Seq<Part>, i: int) -> (before: Seq<char>)
    requires
        0 <= i < parts.len(),
        parts[i] is Block,
    ensures
        exists|after: Seq<char>| template_text(parts) == before + "${"@ + after,
    decreases i,
{
    let rest = parts.drop_first();
    if i == 0 {
        let after = parts[0]->Block_0 + "}"@ + template_text(rest);
        assert(template_text(parts) =~= Seq::<char>::empty() + "${"@ + after);
        seq![]
    } else {
        assert(rest[i - 1] == parts[i]);
        let inner = lemma_block_is_marker(rest, i - 1);
        let after = choose|after: Seq<char>| template_text(rest) == inner + "${"@ + after;
        let before = part_text(parts[0]) + inner;
        assert(template_text(parts) =~= before + "${"@ + after);
        before
    }
}

/// What a template with a marker parses as. With a reference among its parts
/// it is the composite of all of them. Without one it is a single expression:
/// the only part, or the sum of all of them.
pub proof fn law_parsed_template(parts: Seq<Part>)
    requires
        are_proper(parts),
        all_compile(parts),
        exists|i: int| 0 <= i < parts.len() && #[trigger] parts[i] is Block,
    ensures
        ({
            let text = template_text(parts);
            if exists|i: int| 0 <= i < parts.len() && is_reference(#[trigger] parts[i]) {
                parsed(text) == Ok::<ValueModel, ErrorModel>(
                    ValueModel::Composite {
                        source: text,
                        segments: parts.map_values(|p: Part| part_segment(p)),
                    },
                )
            } else {
                let source = if parts.len() == 1 {
                    part_source(parts[0])
                } else {
                    summed(operands(parts.map_values(|p: Part| part_source(p))))
                };
                match compiled(source) {
                    Ok(program) => parsed(text) == Ok::<ValueModel, ErrorModel>(
                        ValueModel::Expression { source: text, program },
                    ),
                    Err(errors) => {
                        &&& parsed(text) matches Err(ErrorModel::Compile { expression, detail })
                        &&& expression == text
                        &&& reported(errors, detail)
                    },
                }
            }
        }),
{
    let text = template_text(parts);
    let segments = parts.map_values(|p: Part| part_segment(p));
    let b = choose|i: int| 0 <= i < parts.len() && #[trigger] parts[i] is Block;
    let before = lemma_block_is_marker(parts, b);
    let after = choose|after: Seq<char>| text == before + "${"@ + after;
    law_marker(before, after);
    assert(has_marker(encode_utf8(text)));
    law_template_segments(parts);
    law_template_source(parts);
    if exists|i: int| 0 <= i < parts.len() && is_reference(#[trigger] parts[i]) {
        let i = choose|i: int| 0 <= i < parts.len() && is_reference(#[trigger] parts[i]);
        assert(segments[i] is Cred);
    } else {
        assert forall|i: int| 0 <= i < segments.len() implies !(#[trigger] segments[i] is Cred) by {
            assert(!is_reference(parts[i]));
        }
        let source = if parts.len() == 1 {
            part_source(parts[0])
        } else {
            summed(operands(parts.map_values(|p: Part| part_source(p))))
        };
        law_compile_report(text, compiled(source));
    }
}

/// Joining goes text by text.
pub proof fn law_joined(a: Seq<Seq<char>>, b: Seq<Seq<char>>, t: Seq<char>)
    ensures
        joined(a + b) == joined(a) + joined(b),
        joined(seq![t]) == t,
    decreases b.len(),
{
    assert(seq![t].drop_last() =~= seq![]);
    assert(joined(seq![]) =~= seq![]);
    assert(joined(seq![t]) =~= t);
    if b.len() == 0 {
        assert(a + b =~= a);
        assert(joined(a) + joined(b) =~= joined(a));
    } else {
        law_joined(a, b.drop_last(), t);
        assert((a + b).drop_last() =~= a + b.drop_last());
        assert(joined(a + b) =~= joined(a) + joined(b));
    }
}

/// A single segment comes to what it gives.
proof fn lemma_single<F: Fn(&str) -> Option<String>>(
    s: SegmentModel,
    ctx: ExprContext,
    resolve_cred: F,
    r: Result<Seq<char>, ErrorModel>,
)
    ensures
        composed(seq![s], ctx, resolve_cred, r) <==> segment_gives(s, ctx, resolve_cred, r),
{
    let segments = seq![s];
    if composed(segments, ctx, resolve_cred, r) {
        let texts = choose|texts: Seq<Seq<char>>| composed_of(segments, ctx, resolve_cred, texts, r);
        if r is Ok {
            assert(segment_gives(segments[0], ctx, resolve_cred, Ok(texts[0])));
            assert(texts =~= seq![texts[0]]);
            law_joined(seq![], seq![], texts[0]);
        } else {
            assert(texts.len() == 0);
        }
    }
    if segment_gives(s, ctx, resolve_cred, r) {
        match r {
            Ok(text) => {
                law_joined(seq![], seq![], text);
                assert(composed_of(segments, ctx, resolve_cred, seq![text], r));
            },
            Err(e) => {
                assert(composed_of(segments, ctx, resolve_cred, seq![], r));
            },
        }
    }
}

/// Literal text alone comes to itself.
pub proof fn law_literal_segment<F: Fn(&str) -> Option<String>>(
    text: Seq<char>,
    ctx: ExprContext,
    resolve_cred: F,
    r: Result<Seq<char>, ErrorModel>,
)
    ensures
        composed(seq![SegmentModel::Literal(text)], ctx, resolve_cred, r) <==> r == Ok::<Seq<char>, ErrorModel>(text),
{
    lemma_single(SegmentModel::Literal(text), ctx, resolve_cred, r);
}

/// A reference alone comes to exactly what the resolver answers to its URI:
/// the credential as it is, or an error with the URI where there is none.
pub proof fn law_credential_segment<F: Fn(&str) -> Option<String>>(
    uri: Seq<char>,
    ctx: ExprContext,
    resolve_cred: F,
    r: Result<Seq<char>, ErrorModel>,
)
    ensures
        composed(seq![SegmentModel::Cred(uri)], ctx, resolve_cred, r) <==> exists|asked: &str, answer: Option<String>|
            {
                &&& #[trigger] call_ensures(resolve_cred, (asked,), answer)
                &&& asked@ == uri
                &&& answer is Some ==> r == Ok::<Seq<char>, ErrorModel>(answer->Some_0@)
                &&& answer is None ==> r == Err::<Seq<char>, ErrorModel>(ErrorModel::UnresolvedCredential { uri })
            },
{
    lemma_single(SegmentModel::Cred(uri), ctx, resolve_cred, r);
    if segment_gives(SegmentModel::Cred(uri), ctx, resolve_cred, r) {
        let (asked, answer) = choose|asked: &str, answer: Option<String>|
            {
                &&& #[trigger] call_ensures(resolve_cred, (asked,), answer)
                &&& asked@ == uri
                &&& r == match answer {
                    Some(secret) => Ok::<Seq<char>, ErrorModel>(secret@),
                    None => Err(ErrorModel::UnresolvedCredential { uri }),
                }
            };
        assert(call_ensures(resolve_cred, (asked,), answer));
    }
}

/// An expression alone comes to what CEL gives for its program on the
/// request's variables.
pub proof fn law_expression_segment<F: Fn(&str) -> Option<String>>(
    source: Seq<char>,
    program: cel::Program,
    ctx: ExprContext,
    resolve_cred: F,
    r: Result<Seq<char>, ErrorModel>,
)
    ensures
        composed(seq![SegmentModel::Cel { source, program }], ctx, resolve_cred, r) <==> exists|
            outcome: Result<CelModel, cel::ExecutionError>,
        | #[trigger]
            may_give(program, standard_variables(ctx), outcome) && reads(source, outcome, r),
{
    lemma_single(SegmentModel::Cel { source, program }, ctx, resolve_cred, r);
    law_expression(source, program, ctx, r);
}

/// The text of a scalar: a string as it is, an integer in its plain decimal
/// form, a double with two digits after the point, a truth value as a word,
/// null as nothing.
pub open spec fn is_text_of(value: CelModel, text: Seq<char>) -> bool {
    match value {
        CelModel::String(s) => text == s,
        CelModel::Int(n) => is_plain_signed(text, n as int),
        CelModel::UInt(n) => is_plain_decimal(text, n as nat),
        CelModel::Float(d) => text == fixed_two(d),
        CelModel::Bool(b) => text == (if b {
            seq!['t', 'r', 'u', 'e']
        } else {
            seq!['f', 'a', 'l', 's', 'e']
        }),
        CelModel::Null => text.len() == 0,
        _ => false,
    }
}

/// How what came of an evaluation reads: the text of a scalar; an error that
/// shows the value for anything else; an error with CEL's own words where CEL
/// failed. Both errors name the expression as it is.
pub open spec fn reads(
    source: Seq<char>,
    outcome: Result<CelModel, cel::ExecutionError>,
    r: Result<Seq<char>, ErrorModel>,
) -> bool {
    match outcome {
        Ok(value) => match value {
            CelModel::List(_) | CelModel::Mapping(_) | CelModel::Other => {
                &&& r matches Err(ErrorModel::NotScalar { expression, got })
                &&& expression == source
                &&& described_as(value, got)
            },
            _ => r matches Ok(text) && is_text_of(value, text),
        },
        Err(e) => {
            &&& r matches Err(ErrorModel::Evaluate { expression, detail })
            &&& expression == source
            &&& reads_as(e, detail)
        },
    }
}

/// Only one text is the plain decimal form of a number.
proof fn lemma_plain_decimal_unique(s: Seq<char>, t: Seq<char>, n: nat)
    requires
        is_plain_decimal(s, n),
        is_plain_decimal(t, n),
    ensures
        s == t,
    decreases s.len(),
{
    lemma_last_digit(s, n);
    lemma_last_digit(t, n);
    if s.len() == 1 {
        if t.len() > 1 {
            lemma_shorter(t, n);
        }
        assert(s =~= t);
    } else {
        lemma_shorter(s, n);
        if t.len() == 1 {
            assert(t.drop_last() =~= seq![]);
            assert(digits_value(seq![]) == 0);
        } else {
            lemma_shorter(t, n);
            lemma_plain_decimal_unique(s.drop_last(), t.drop_last(), n / 10);
            assert(s =~= s.drop_last().push(s.last()));
            assert(t =~= t.drop_last().push(t.last()));
        }
    }
}

proof fn lemma_last_digit(s: Seq<char>, n: nat)
    requires
        is_plain_decimal(s, n),
    ensures
        s.last() as nat == 48 + n % 10,
        s.last() == ((48 + n % 10) as char),
        digits_value(s.drop_last()) == n / 10,
{
    assert(is_digit(s[s.len() - 1]));
    let d = (s.last() as nat - 48) as nat;
    let v = digits_value(s.drop_last());
    assert(n == 10 * v + d && d < 10);
}

proof fn lemma_shorter(s: Seq<char>, n: nat)
    requires
        is_plain_decimal(s, n),
        s.len() > 1,
    ensures
        is_plain_decimal(s.drop_last(), n / 10),
        n >= 10,
{
    lemma_last_digit(s, n);
    let init = s.drop_last();
    assert forall|i: int| 0 <= i < init.len() implies is_digit(#[trigger] init[i]) by {
        assert(is_digit(s[i]));
    }
    assert(init[0] == s[0]);
    lemma_positive(init);
}

proof fn lemma_positive(s: Seq<char>)
    requires
        s.len() > 0,
        forall|i: int| 0 <= i < s.len() ==> is_digit(#[trigger] s[i]),
        s[0] != '0',
    ensures
        digits_value(s) > 0,
    decreases s.len(),
{
    assert(is_digit(s[s.len() - 1]));
    if s.len() > 1 {
        let init = s.drop_last();
        assert(init[0] == s[0]);
        assert forall|i: int| 0 <= i < init.len() implies is_digit(#[trigger] init[i]) by {
            assert(is_digit(s[i]));
        }
        lemma_positive(init);
    } else {
        assert(s[0] as nat != 48);
    }
}

/// What came of an evaluation is rendered exactly as it reads.
pub proof fn law_rendering(
    source: Seq<char>,
    outcome: Result<CelModel, cel::ExecutionError>,
    r: Result<Seq<char>, ErrorModel>,
)
    ensures
        rendered(source, outcome, r) <==> reads(source, outcome, r),
{
    if let Ok(value) = outcome {
        law_scalar_text(value);
        if let Ok(text) = r {
            match value {
                CelModel::Int(n) => {
                    let own = scalar_text(value)->Some_0;
                    if reads(source, outcome, r) {
                        if n < 0 {
                            lemma_plain_decimal_unique(text.drop_first(), own.drop_first(), (-n) as nat);
                            assert(text =~= seq!['-'] + text.drop_first());
                            assert(own =~= seq!['-'] + own.drop_first());
                        } else {
                            lemma_plain_decimal_unique(text, own, n as nat);
                        }
                    }
                },
                CelModel::UInt(n) => {
                    let own = scalar_text(value)->Some_0;
                    if reads(source, outcome, r) {
                        lemma_plain_decimal_unique(text, own, n as nat);
                    }
                },
                CelModel::Null => {
                    if reads(source, outcome, r) {
                        assert(text =~= seq![]);
                    }
                },
                _ => {},
            }
        }
    }
}

/// Every scalar has its text, and nothing else has one.
pub proof fn law_scalar_text(value: CelModel)
    ensures
        match scalar_text(value) {
            Some(text) => is_text_of(value, text),
            None => value is List || value is Mapping || value is Other,
        },
{
    law_truth_words();
    match value {
        CelModel::Int(n) => {
            law_signed_decimal_is_plain(n as int);
        },
        CelModel::UInt(n) => {
            law_decimal_is_plain(n as nat);
        },
        _ => {},
    }
}

/// An expression comes to what CEL gives for its program on the request's
/// variables.
pub proof fn law_expression(
    source: Seq<char>,
    program: cel::Program,
    ctx: ExprContext,
    r: Result<Seq<char>, ErrorModel>,
)
    ensures
        evaluated(program, source, ctx, r) <==> exists|outcome: Result<CelModel, cel::ExecutionError>| #[trigger]
            may_give(program, standard_variables(ctx), outcome) && reads(source, outcome, r),
        resolved(ValueModel::Expression { source, program }, ctx, r) <==> evaluated(program, source, ctx, r),
{
    if evaluated(program, source, ctx, r) {
        let outcome = choose|outcome: Result<CelModel, cel::ExecutionError>| #[trigger]
            may_give(program, standard_variables(ctx), outcome) && rendered(source, outcome, r);
        law_rendering(source, outcome, r);
    }
    if exists|outcome: Result<CelModel, cel::ExecutionError>| #[trigger]
        may_give(program, standard_variables(ctx), outcome) && reads(source, outcome, r) {
        let outcome = choose|outcome: Result<CelModel, cel::ExecutionError>| #[trigger]
            may_give(program, standard_variables(ctx), outcome) && reads(source, outcome, r);
        law_rendering(source, outcome, r);
    }
}

/// Segments put together come to their texts put together, or to the first
/// error: that of the first ones, or, where those give their text, that of
/// the others.
pub proof fn law_composition<F: Fn(&str) -> Option<String>>(
    a: Seq<SegmentModel>,
    b: Seq<SegmentModel>,
    ctx: ExprContext,
    resolve_cred: F,
    r: Result<Seq<char>, ErrorModel>,
)
    ensures
        composed(a + b, ctx, resolve_cred, r) <==> composes(a, b, ctx, resolve_cred, r),
{
    let whole = a + b;
    let n = a.len() as int;
    if composed(whole, ctx, resolve_cred, r) {
        let texts = choose|texts: Seq<Seq<char>>| composed_of(whole, ctx, resolve_cred, texts, r);
        if texts.len() < a.len() {
            assert forall|i: int| 0 <= i < texts.len() implies segment_gives(
                a[i],
                ctx,
                resolve_cred,
                Ok(#[trigger] texts[i]),
            ) by {
                assert(whole[i] == a[i]);
            }
            assert(whole[texts.len() as int] == a[texts.len() as int]);
            assert(composed_of(a, ctx, resolve_cred, texts, r));
        } else {
            let first = texts.take(n);
            let second = texts.skip(n);
            assert(first + second =~= texts);
            law_joined(first, second, seq![]);
            assert forall|i: int| 0 <= i < first.len() implies segment_gives(
                a[i],
                ctx,
                resolve_cred,
                Ok(#[trigger] first[i]),
            ) by {
                assert(whole[i] == a[i] && first[i] == texts[i]);
            }
            assert(composed_of(a, ctx, resolve_cred, first, Ok(joined(first))));
            assert forall|i: int| 0 <= i < second.len() implies segment_gives(
                b[i],
                ctx,
                resolve_cred,
                Ok(#[trigger] second[i]),
            ) by {
                assert(whole[n + i] == b[i] && second[i] == texts[n + i]);
            }
            let rest = match r {
                Ok(text) => Ok::<Seq<char>, ErrorModel>(joined(second)),
                Err(e) => Err(e),
            };
            if r is Err {
                assert(whole[texts.len() as int] == b[second.len() as int]);
            }
            assert(composed_of(b, ctx, resolve_cred, second, rest));
            assert(follows(b, ctx, resolve_cred, joined(first), rest, r));
        }
    }
    if composes(a, b, ctx, resolve_cred, r) {
        if composed(a, ctx, resolve_cred, r) && r is Err {
            let texts = choose|texts: Seq<Seq<char>>| composed_of(a, ctx, resolve_cred, texts, r);
            assert forall|i: int| 0 <= i < texts.len() implies segment_gives(
                whole[i],
                ctx,
                resolve_cred,
                Ok(#[trigger] texts[i]),
            ) by {
                assert(whole[i] == a[i]);
            }
            assert(whole[texts.len() as int] == a[texts.len() as int]);
            assert(composed_of(whole, ctx, resolve_cred, texts, r));
        } else {
            let (head, rest) = choose|head: Seq<char>, rest: Result<Seq<char>, ErrorModel>|
                composed(a, ctx, resolve_cred, Ok(head)) && #[trigger] follows(b, ctx, resolve_cred, head, rest, r);
            let first = choose|texts: Seq<Seq<char>>| composed_of(a, ctx, resolve_cred, texts, Ok(head));
            let second = choose|texts: Seq<Seq<char>>| composed_of(b, ctx, resolve_cred, texts, rest);
            let texts = first + second;
            law_joined(first, second, seq![]);
            assert forall|i: int| 0 <= i < texts.len() implies segment_gives(
                whole[i],
                ctx,
                resolve_cred,
                Ok(#[trigger] texts[i]),
            ) by {
                if i < n {
                    assert(whole[i] == a[i] && texts[i] == first[i]);
                } else {
                    assert(whole[i] == b[i - n] && texts[i] == second[i - n]);
                }
            }
            if r is Err {
                assert(whole[texts.len() as int] == b[second.len() as int]);
            }
            assert(composed_of(whole, ctx, resolve_cred, texts, r));
        }
    }
}

/// Segments come to this after others that come to the text `head`.
pub open spec fn follows<F: Fn(&str) -> Option<String>>(
    b: Seq<SegmentModel>,
    ctx: ExprContext,
    resolve_cred: F,
    head: Seq<char>,
    rest: Result<Seq<char>, ErrorModel>,
    r: Result<Seq<char>, ErrorModel>,
) -> bool {
    &&& composed(b, ctx, resolve_cred, rest)
    &&& rest is Ok ==> r == Ok::<Seq<char>, ErrorModel>(head + rest->Ok_0)
    &&& rest is Err ==> r == Err::<Seq<char>, ErrorModel>(rest->Err_0)
}

/// Two runs of segments, one after the other, come to this.
pub open spec fn composes<F: Fn(&str) -> Option<String>>(
    a: Seq<SegmentModel>,
    b: Seq<SegmentModel>,
    ctx: ExprContext,
    resolve_cred: F,
    r: Result<Seq<char>, ErrorModel>,
) -> bool {
    ||| r is Err && composed(a, ctx, resolve_cred, r)
    ||| exists|head: Seq<char>, rest: Result<Seq<char>, ErrorModel>|
        composed(a, ctx, resolve_cred, Ok(head)) && #[trigger] follows(b, ctx, resolve_cred, head, rest, r)
}

/// No segments come to nothing.
pub proof fn law_no_segments<F: Fn(&str) -> Option<String>>(
    ctx: ExprContext,
    resolve_cred: F,
    r: Result<Seq<char>, ErrorModel>,
)
    ensures
        composed(seq![], ctx, resolve_cred, r) <==> r == Ok::<Seq<char>, ErrorModel>(seq![]),
{
    assert(joined(seq![]) =~= seq![]);
    if r == Ok::<Seq<char>, ErrorModel>(seq![]) {
        assert(composed_of(seq![], ctx, resolve_cred, seq![], r));
    }
    if composed(seq![], ctx, resolve_cred, r) {
        let texts = choose|texts: Seq<Seq<char>>| composed_of(seq![], ctx, resolve_cred, texts, r);
        assert(texts =~= seq![]);
    }
}

/// To a URI, a resolver answers this credential and nothing else.
pub open spec fn answers<F: Fn(&str) -> Option<String>>(resolve_cred: F, uri: Seq<char>, secret: Seq<char>) -> bool {
    forall|asked: &str, answer: Option<String>| #[trigger]
        call_ensures(resolve_cred, (asked,), answer) && asked@ == uri ==> answer is Some && answer->Some_0@ == secret
}

/// A credential goes into the result as it is, between the texts around it.
pub proof fn law_credential_is_verbatim<F: Fn(&str) -> Option<String>>(
    before: Seq<char>,
    uri: Seq<char>,
    after: Seq<char>,
    secret: Seq<char>,
    ctx: ExprContext,
    resolve_cred: F,
    r: Result<Seq<char>, ErrorModel>,
)
    requires
        answers(resolve_cred, uri, secret),
    ensures
        composed(seq![SegmentModel::Cred(uri)], ctx, resolve_cred, r) ==> r == Ok::<Seq<char>, ErrorModel>(secret),
        composed(
            seq![SegmentModel::Literal(before), SegmentModel::Cred(uri), SegmentModel::Literal(after)],
            ctx,
            resolve_cred,
            r,
        ) ==> r == Ok::<Seq<char>, ErrorModel>(before + secret + after),
{
    let a = seq![SegmentModel::Literal(before)];
    let c = seq![SegmentModel::Cred(uri)];
    let b = seq![SegmentModel::Literal(after)];
    law_credential_segment(uri, ctx, resolve_cred, r);
    let all = seq![SegmentModel::Literal(before), SegmentModel::Cred(uri), SegmentModel::Literal(after)];
    if composed(all, ctx, resolve_cred, r) {
        assert(all =~= a + (c + b));
        law_composition(a, c + b, ctx, resolve_cred, r);
        law_literal_segment(before, ctx, resolve_cred, r);
        let (head, rest) = choose|head: Seq<char>, rest: Result<Seq<char>, ErrorModel>|
            composed(a, ctx, resolve_cred, Ok(head)) && #[trigger] follows(c + b, ctx, resolve_cred, head, rest, r);
        law_literal_segment(before, ctx, resolve_cred, Ok(head));
        law_composition(c, b, ctx, resolve_cred, rest);
        law_credential_segment(uri, ctx, resolve_cred, rest);
        let (middle, last) = choose|middle: Seq<char>, last: Result<Seq<char>, ErrorModel>|
            composed(c, ctx, resolve_cred, Ok(middle)) && #[trigger] follows(b, ctx, resolve_cred, middle, last, rest);
        law_credential_segment(uri, ctx, resolve_cred, Ok(middle));
        law_literal_segment(after, ctx, resolve_cred, last);
        assert(before + (secret + after) =~= before + secret + after);
    }
}

/// A template with one reference between two texts resolves to the texts with
/// the credential, as it is, between them.
#[verifier::rlimit(50)]
pub proof fn law_credential_template<F: Fn(&str) -> Option<String>>(
    before: Seq<char>,
    uri: Seq<char>,
    after: Seq<char>,
    secret: Seq<char>,
    ctx: ExprContext,
    resolve_cred: F,
    r: Result<Seq<char>, ErrorModel>,
)
    requires
        before.len() > 0 && !occurs(before, "${"@),
        after.len() > 0 && !occurs(after, "${"@),
        occurs_at(uri, "cred://"@, 0),
        edges_are_solid(uri),
        self_contained(encode_utf8(uri)),
        answers(resolve_cred, uri, secret),
    ensures
        ({
            let text = before + "${"@ + uri + "}"@ + after;
            &&& parsed(text) matches Ok(v)
            &&& value_refs(v) == seq![uri]
            &&& resolved(v, ctx, r) ==> r == Err::<Seq<char>, ErrorModel>(ErrorModel::NeedsCredentials { source: text })
            &&& resolved_with(v, ctx, resolve_cred, r) ==> r == Ok::<Seq<char>, ErrorModel>(before + secret + after)
        }),
{
    let text = before + "${"@ + uri + "}"@ + after;
    let parts = seq![Part::Text(before), Part::Block(uri), Part::Text(after)];
    let plain = seq![SegmentModel::Literal(before), SegmentModel::Cred(uri), SegmentModel::Literal(after)];
    assert(uri.len() > 0) by {
        reveal_strlit("cred://");
    }
    assert(parts[1] is Block && is_reference(parts[1]));
    lemma_three_parts(before, uri, after);
    assert(are_proper(parts));
    assert(all_compile(parts));
    law_parsed_template(parts);
    assert(parts.map_values(|p: Part| part_segment(p)) =~= plain);
    lemma_three_refs(before, uri, after);
    law_credential_is_verbatim(before, uri, after, secret, ctx, resolve_cred, r);
}

/// A marker between two texts as it is written.
proof fn lemma_three_parts(before: Seq<char>, e: Seq<char>, after: Seq<char>)
    ensures
        template_text(seq![Part::Text(before), Part::Block(e), Part::Text(after)]) == before + "${"@ + e + "}"@ + after,
{
    let parts = seq![Part::Text(before), Part::Block(e), Part::Text(after)];
    let two = seq![Part::Block(e), Part::Text(after)];
    let one = seq![Part::Text(after)];
    assert(parts.drop_first() =~= two);
    assert(two.drop_first() =~= one);
    assert(one.drop_first() =~= seq![]);
    assert(template_text(seq![]) == Seq::<char>::empty());
    assert(template_text(one) =~= after);
    assert(template_text(two) =~= "${"@ + e + "}"@ + after);
    assert(template_text(parts) =~= before + "${"@ + e + "}"@ + after);
}

/// A reference between two texts is the only one.
proof fn lemma_three_refs(before: Seq<char>, uri: Seq<char>, after: Seq<char>)
    ensures
        segment_refs(seq![SegmentModel::Literal(before), SegmentModel::Cred(uri), SegmentModel::Literal(after)])
            == seq![uri],
{
    let a = seq![SegmentModel::Literal(before)];
    let c = seq![SegmentModel::Cred(uri)];
    let b = seq![SegmentModel::Literal(after)];
    let all = seq![SegmentModel::Literal(before), SegmentModel::Cred(uri), SegmentModel::Literal(after)];
    assert(all =~= a + c + b);
    law_references(a + c, b);
    law_references(a, c);
    law_single_reference(SegmentModel::Literal(before));
    law_single_reference(SegmentModel::Cred(uri));
    law_single_reference(SegmentModel::Literal(after));
    assert(segment_refs(all) =~= seq![uri]);
}

/// The references of segments put together are theirs put together.
pub proof fn law_references(a: Seq<SegmentModel>, b: Seq<SegmentModel>)
    ensures
        segment_refs(a + b) == segment_refs(a) + segment_refs(b),
    decreases b.len(),
{
    if b.len() == 0 {
        assert(a + b =~= a);
        assert(segment_refs(a) + segment_refs(b) =~= segment_refs(a));
    } else {
        law_references(a, b.drop_last());
        assert((a + b).drop_last() =~= a + b.drop_last());
        assert(segment_refs(a + b) =~= segment_refs(a) + segment_refs(b));
    }
}

/// A reference refers to its URI, and no other segment refers to anything.
pub proof fn law_single_reference(s: SegmentModel)
    ensures
        segment_refs(seq![s]) == (match s {
            SegmentModel::Cred(uri) => seq![uri],
            _ => seq![],
        }),
{
    assert(seq![s].drop_last() =~= seq![]);
    assert(segment_refs(seq![]) =~= seq![]);
    assert(segment_refs(seq![s]) =~= (match s {
        SegmentModel::Cred(uri) => seq![uri],
        _ => seq![],
    }));
}

/// A composite refers to what its segments refer to, and no other value to
/// anything; a literal comes to itself, and a composite without a resolver to
/// an error that names its template.
pub proof fn law_values(v: ValueModel, ctx: ExprContext, r: Result<Seq<char>, ErrorModel>)
    ensures
        match v {
            ValueModel::Literal(text) => {
                &&& value_refs(v).len() == 0
                &&& resolved(v, ctx, r) <==> r == Ok::<Seq<char>, ErrorModel>(text)
            },
            ValueModel::Expression { source, program } => value_refs(v).len() == 0,
            ValueModel::Composite { source, segments } => {
                &&& value_refs(v) == segment_refs(segments)
                &&& resolved(v, ctx, r) <==> r == Err::<Seq<char>, ErrorModel>(
                    ErrorModel::NeedsCredentials { source },
                )
            },
        },
{
}

/// Values and segments hold what they are made of, segment by segment.
pub proof fn law_value_models(v: DynamicValue<String>, s: CompositeSegment)
    ensures
        match v {
            DynamicValue::Literal(text) => v@ == ValueModel::Literal(text@),
            DynamicValue::Expression { source, program } => v@ == (ValueModel::Expression { source: source@, program }),
            DynamicValue::Composite { source, segments } => {
                &&& v@ matches ValueModel::Composite { source: held, segments: all }
                &&& held == source@
                &&& all.len() == segments@.len()
                &&& forall|i: int| 0 <= i < segments@.len() ==> #[trigger] all[i] == segments@[i]@
            },
        },
        match s {
            CompositeSegment::Literal(text) => s@ == SegmentModel::Literal(text@),
            CompositeSegment::Cel { source, program } => s@ == (SegmentModel::Cel { source: source@, program }),
            CompositeSegment::Cred(uri) => s@ == SegmentModel::Cred(uri@),
        },
{
}

/// A text has a marker exactly where `${` stands in it.
pub proof fn law_markers(text: Seq<char>)
    ensures
        has_marker(encode_utf8(text)) <==> occurs(text, "${"@),
        !occurs(text, "${"@) ==> parsed(text) == Ok::<ValueModel, ErrorModel>(ValueModel::Literal(text)),
{
    let word = "${"@;
    if occurs(text, word) {
        let k = choose|k: int| occurs_at(text, word, k);
        let before = text.take(k);
        let after = text.skip(k + word.len());
        assert(text =~= before + word + after) by {
            assert(text.subrange(k, k + word.len()) =~= word);
            assert forall|i: int| 0 <= i < text.len() implies text[i] == (before + word + after)[i] by {
                if k <= i < k + word.len() {
                    assert(text.subrange(k, k + word.len())[i - k] == word[i - k]);
                }
            }
        }
        law_marker(before, after);
    } else {
        law_no_marker(text);
    }
}

/// What a text with a marker parses as, from its segments: a fault among them
/// is its fault; with a reference among them it is their composite; else it is
/// one expression, compiled from the source of the whole template.
pub proof fn law_parsed_from_segments(text: Seq<char>)
    requires
        occurs(text, "${"@),
    ensures
        ({
            let bytes = encode_utf8(text);
            match segments_from(bytes, 0) {
                Err(e) => parsed(text) == Err::<ValueModel, ErrorModel>(e),
                Ok(segments) => if segment_refs(segments).len() > 0 {
                    parsed(text) == Ok::<ValueModel, ErrorModel>(ValueModel::Composite { source: text, segments })
                } else {
                    &&& cel_parts(bytes, 0) matches Ok(parts)
                    &&& {
                        let source = if parts.len() == 1 {
                            parts[0]
                        } else {
                            summed(operands(parts))
                        };
                        match compiled(source) {
                            Ok(program) => parsed(text) == Ok::<ValueModel, ErrorModel>(
                                ValueModel::Expression { source: text, program },
                            ),
                            Err(errors) => {
                                &&& parsed(text) matches Err(ErrorModel::Compile { expression, detail })
                                &&& expression == text
                                &&& reported(errors, detail)
                            },
                        }
                    }
                },
            }
        }),
{
    let bytes = encode_utf8(text);
    law_markers(text);
    if let Ok(segments) = segments_from(bytes, 0) {
        law_split_templates_interpolate(bytes, 0);
        law_source_from_parts(bytes);
        lemma_refs_and_segments(segments);
        let parts = cel_parts(bytes, 0)->Ok_0;
        let source = if parts.len() == 1 {
            parts[0]
        } else {
            summed(operands(parts))
        };
        law_compile_report(text, compiled(source));
    }
}

/// Segments refer to something exactly where one of them is a reference.
proof fn lemma_refs_and_segments(segments: Seq<SegmentModel>)
    ensures
        segment_refs(segments).len() > 0 <==> exists|i: int| 0 <= i < segments.len() && segments[i] is Cred,
    decreases segments.len(),
{
    if segments.len() > 0 {
        let init = segments.drop_last();
        lemma_refs_and_segments(init);
        if segments.last() is Cred {
            assert(segments[segments.len() - 1] is Cred);
        } else {
            if exists|i: int| 0 <= i < init.len() && init[i] is Cred {
                let i = choose|i: int| 0 <= i < init.len() && init[i] is Cred;
                assert(segments[i] is Cred);
            }
            if exists|i: int| 0 <= i < segments.len() && segments[i] is Cred {
                let i = choose|i: int| 0 <= i < segments.len() && segments[i] is Cred;
                assert(init[i] is Cred);
            }
        }
    }
}

/// A composite comes to what its segments come to together; a resolver makes
/// no difference to another value.
pub proof fn law_composites<F: Fn(&str) -> Option<String>>(
    v: ValueModel,
    ctx: ExprContext,
    resolve_cred: F,
    r: Result<Seq<char>, ErrorModel>,
)
    ensures
        match v {
            ValueModel::Composite { source, segments } => resolved_with(v, ctx, resolve_cred, r) <==> composed(
                segments,
                ctx,
                resolve_cred,
                r,
            ),
            _ => resolved_with(v, ctx, resolve_cred, r) <==> resolved(v, ctx, r),
        },
{
}

/// A marker that is not closed, or has nothing but white space in it, is the
/// fault of a template, by its offset in bytes.
pub proof fn law_faulty_markers(t: Seq<char>, e: Seq<char>, white: Seq<char>, rest: Seq<char>)
    requires
        !occurs(t, "${"@),
        !e.contains('}'),
        all_white(white),
    ensures
        parsed(t + ("${"@ + e)) == Err::<ValueModel, ErrorModel>(
            ErrorModel::UnclosedExpression { position: encode_utf8(t).len() as int },
        ),
        parsed(t + ("${"@ + white + "}"@ + rest)) == Err::<ValueModel, ErrorModel>(
            ErrorModel::EmptyExpression { position: encode_utf8(t).len() as int },
        ),
{
    let unclosed = "${"@ + e;
    let empty = "${"@ + white + "}"@ + rest;
    lemma_unclosed_piece(e);
    lemma_empty_piece(white, rest);
    if t.len() > 0 {
        law_text_is_literal(t, unclosed);
        law_text_is_literal(t, empty);
    } else {
        assert(t + unclosed =~= unclosed);
        assert(t + empty =~= empty);
        assert(encode_utf8(t) =~= seq![]);
    }
    law_marker(t, e);
    assert(t + "${"@ + e =~= t + unclosed);
    law_marker(t, white + "}"@ + rest);
    assert(t + "${"@ + (white + "}"@ + rest) =~= t + empty);
}

/// Lists of strings hold their texts, each at its place; what came of an
/// evaluation holds the contents of the value, or the error.
pub proof fn law_lists_and_outcomes(
    borrowed: Seq<&str>,
    owned: Seq<String>,
    value: cel::Value,
    e: cel::ExecutionError,
)
    ensures
        slices(borrowed).len() == borrowed.len(),
        forall|i: int| 0 <= i < borrowed.len() ==> #[trigger] slices(borrowed)[i] == borrowed[i]@,
        texts(owned).len() == owned.len(),
        forall|i: int| 0 <= i < owned.len() ==> #[trigger] texts(owned)[i] == owned[i]@,
        raw_outcome(Ok(value)) == Ok::<CelModel, cel::ExecutionError>(contents(value)),
        raw_outcome(Err(e)) == Err::<CelModel, cel::ExecutionError>(e),
{
}

}
