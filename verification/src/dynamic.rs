//! Configuration values that may depend on the request.
use crate::context::{standard_variables, ExprContext};
use crate::convert::{cel_value_to_string, scalar_text};
use crate::engine::{compiled, describe, described_as, error_positions, execute, execution_error_to_text};
use crate::engine::{is_narrow, may_give, narrow, parse_errors_text, parse_errors_to_text, positions};
use crate::engine::{raw_outcome, reads_as};
use crate::error::{text_outcome, ErrorModel, ExprError};
use crate::template::{cel_parts, interpolated, interpolation_to_cel, is_marker, lemma_piece_advances, marker_at};
use crate::template::{matching_brace, piece, piece_at, PieceModel};
use crate::text::{begins_with, has_prefix, text_between, trimmed};
use crate::value::{CelModel, CelValue};
use vstd::prelude::*;
use vstd::string::*;
use vstd::utf8::*;

verus! {

/// A configuration value: a literal, a compiled expression, or a mixture of
/// literal text, expressions and credential references.
#[derive(Debug)]
pub enum DynamicValue<T: std::fmt::Debug> {
    /// A plain value, without `${` markers.
    Literal(T),
    /// A template without credential references, compiled as one expression.
    Expression {
        /// The template.
        source: String,
        /// The compiled expression.
        program: cel::Program,
    },
    /// A template with `${cred://issuer/target}` references.
    ///
    /// The references are taken from the template when it is parsed: what a
    /// request puts into a neighbouring expression is a value, and never adds
    /// a reference.
    Composite {
        /// The template.
        source: String,
        /// Its pieces, in order.
        segments: Vec<CompositeSegment>,
    },
}

/// One piece of a [`DynamicValue::Composite`].
#[derive(Debug)]
pub enum CompositeSegment {
    /// Text that stands for itself.
    Literal(String),
    /// A `${expr}` block.
    Cel {
        /// The expression.
        source: String,
        /// The compiled expression.
        program: cel::Program,
    },
    /// A `${cred://issuer/target}` reference: the whole URI, scheme included.
    Cred(String),
}

/// What a [`CompositeSegment`] holds.
pub enum SegmentModel {
    Literal(Seq<char>),
    Cel { source: Seq<char>, program: cel::Program },
    Cred(Seq<char>),
}

/// What a [`DynamicValue`] of text holds.
pub enum ValueModel {
    Literal(Seq<char>),
    Expression { source: Seq<char>, program: cel::Program },
    Composite { source: Seq<char>, segments: Seq<SegmentModel> },
}

impl View for CompositeSegment {
    type V = SegmentModel;

    open spec fn view(&self) -> SegmentModel {
        match *self {
            CompositeSegment::Literal(s) => SegmentModel::Literal(s@),
            CompositeSegment::Cel { source, program } => SegmentModel::Cel { source: source@, program },
            CompositeSegment::Cred(uri) => SegmentModel::Cred(uri@),
        }
    }
}

/// What some segments hold, in order.
pub open spec fn segment_models(segments: Seq<CompositeSegment>) -> Seq<SegmentModel> {
    segments.map_values(|s: CompositeSegment| s@)
}

impl View for DynamicValue<String> {
    type V = ValueModel;

    open spec fn view(&self) -> ValueModel {
        match *self {
            DynamicValue::Literal(s) => ValueModel::Literal(s@),
            DynamicValue::Expression { source, program } => ValueModel::Expression { source: source@, program },
            DynamicValue::Composite { source, segments } => ValueModel::Composite {
                source: source@,
                segments: segment_models(segments@),
            },
        }
    }
}

/// The text that stands for parse errors that lie too far into their line to
/// be shown.
pub const OUT_OF_VIEW: &'static str = "the error lies too far into its line to be shown";

/// What parse errors are reported as: CEL's own text, where it can be had.
pub open spec fn compile_detail(e: cel::ParseErrors) -> Seq<char> {
    if narrow(error_positions(e)) {
        parse_errors_text(e)
    } else {
        OUT_OF_VIEW@
    }
}

/// What comes of compiling an expression.
pub open spec fn compile_result(
    expression: Seq<char>,
    outcome: Result<cel::Program, cel::ParseErrors>,
) -> Result<cel::Program, ErrorModel> {
    match outcome {
        Ok(program) => Ok(program),
        Err(e) => Err(ErrorModel::Compile { expression, detail: compile_detail(e) }),
    }
}

/// Turns what CEL made of an expression into a program or an error.
pub fn compile_outcome(expression: &str, outcome: Result<cel::Program, cel::ParseErrors>) -> (r: Result<
    cel::Program,
    ExprError,
>)
    ensures
        match r {
            Ok(program) => compile_result(expression@, outcome) == Ok::<cel::Program, ErrorModel>(program),
            Err(e) => compile_result(expression@, outcome) == Err::<cel::Program, ErrorModel>(e@),
        },
{
    match outcome {
        Ok(program) => Ok(program),
        Err(e) => {
            let detail = if is_narrow(&positions(&e)) {
                parse_errors_to_text(&e)
            } else {
                OUT_OF_VIEW.to_owned()
            };
            Err(ExprError::Compile { expression: expression.to_owned(), detail })
        },
    }
}

/// A piece of a template as a segment: the inside of a marker is a credential
/// reference where it begins with `cred://`, and an expression otherwise.
pub open spec fn segment(p: PieceModel) -> Result<SegmentModel, ErrorModel> {
    if !p.code {
        Ok(SegmentModel::Literal(p.text))
    } else if begins_with(p.text, "cred://"@) {
        Ok(SegmentModel::Cred(p.text))
    } else {
        match compile_result(p.text, compiled(p.text)) {
            Ok(program) => Ok(SegmentModel::Cel { source: p.text, program }),
            Err(e) => Err(e),
        }
    }
}

/// `done` before what is to come, unless that fails.
pub open spec fn segments_prepended(
    done: Seq<SegmentModel>,
    rest: Result<Seq<SegmentModel>, ErrorModel>,
) -> Result<Seq<SegmentModel>, ErrorModel> {
    match rest {
        Err(e) => Err(e),
        Ok(segments) => Ok(done + segments),
    }
}

/// The segments of a template from the offset `at` on, in order, or the first
/// fault among them.
pub open spec fn segments_from(bytes: Seq<u8>, at: int) -> Result<Seq<SegmentModel>, ErrorModel>
    decreases bytes.len() - at,
{
    if at < 0 || at >= bytes.len() {
        Ok(seq![])
    } else {
        match piece(bytes, at) {
            Err(e) => Err(e),
            Ok(p) => {
                proof {
                    lemma_piece_advances(bytes, at);
                }
                match segment(p) {
                    Err(e) => Err(e),
                    Ok(s) => segments_prepended(seq![s], segments_from(bytes, p.next)),
                }
            },
        }
    }
}

/// Splits a template into its segments and compiles the expressions among
/// them.
fn parse_segments(input: &str) -> (r: Result<Vec<CompositeSegment>, ExprError>)
    ensures
        match r {
            Ok(segments) => segments_from(input.spec_bytes(), 0) == Ok::<Seq<SegmentModel>, ErrorModel>(
                segment_models(segments@),
            ),
            Err(e) => segments_from(input.spec_bytes(), 0) == Err::<Seq<SegmentModel>, ErrorModel>(e@),
        },
{
    let len: usize = input.as_bytes().len();
    let ghost bytes = input.spec_bytes();
    let mut segments: Vec<CompositeSegment> = Vec::new();
    let mut i: usize = 0;
    proof {
        encode_utf8_valid_utf8(input@);
        is_char_boundary_start_end_of_seq(bytes);
        if let Ok(rest) = segments_from(bytes, 0) {
            assert(segment_models(segments@) + rest =~= rest);
        }
    }
    while i < len
        invariant
            i <= len == bytes.len(),
            bytes == input.spec_bytes(),
            is_char_boundary(bytes, i as int),
            segments_from(bytes, 0) == segments_prepended(
                segment_models(segments@),
                segments_from(bytes, i as int),
            ),
        decreases len - i,
    {
        let p = piece_at(input, i)?;
        let ghost before = segment_models(segments@);
        let found = if !p.code {
            CompositeSegment::Literal(p.text.to_owned())
        } else if has_prefix(p.text, "cred://") {
            CompositeSegment::Cred(p.text.to_owned())
        } else {
            let program = compile_outcome(p.text, cel::Program::compile(p.text))?;
            CompositeSegment::Cel { source: p.text.to_owned(), program }
        };
        segments.push(found);
        proof {
            assert(segment(p@) == Ok::<SegmentModel, ErrorModel>(found@));
            assert(segment_models(segments@) =~= before.push(found@));
            if let Ok(rest) = segments_from(bytes, p.next as int) {
                assert(before + (seq![found@] + rest) =~= segment_models(segments@) + rest);
            }
        }
        i = p.next;
    }
    assert(segment_models(segments@) + seq![] =~= segment_models(segments@));
    Ok(segments)
}

/// Whether a text has a `${` marker in it.
pub open spec fn has_marker(bytes: Seq<u8>) -> bool {
    exists|at: int| marker_at(bytes, at)
}

/// Whether a text has a `${` marker in it.
fn contains_marker(input: &str) -> (r: bool)
    ensures
        r == has_marker(input.spec_bytes()),
{
    let bytes = input.as_bytes();
    let mut i: usize = 0;
    while i < bytes.len()
        invariant
            i <= bytes.len(),
            bytes@ == input.spec_bytes(),
            forall|at: int| at < i ==> !marker_at(bytes@, at),
        decreases bytes.len() - i,
    {
        if is_marker(bytes, i) {
            return true;
        }
        i += 1;
    }
    false
}

/// The credential references among some segments, in order.
pub open spec fn segment_refs(segments: Seq<SegmentModel>) -> Seq<Seq<char>>
    decreases segments.len(),
{
    if segments.len() == 0 {
        seq![]
    } else {
        let before = segment_refs(segments.drop_last());
        match segments.last() {
            SegmentModel::Cred(uri) => before.push(uri),
            _ => before,
        }
    }
}

/// The credential references of a value, in order.
pub open spec fn value_refs(v: ValueModel) -> Seq<Seq<char>> {
    match v {
        ValueModel::Composite { source, segments } => segment_refs(segments),
        _ => seq![],
    }
}

/// What a template parses as: a literal where it has no marker; a composite
/// where it has a credential reference; else one expression.
pub open spec fn parsed(text: Seq<char>) -> Result<ValueModel, ErrorModel> {
    let bytes = encode_utf8(text);
    if !has_marker(bytes) {
        Ok(ValueModel::Literal(text))
    } else {
        match segments_from(bytes, 0) {
            Err(e) => Err(e),
            Ok(segments) => if exists|i: int| 0 <= i < segments.len() && segments[i] is Cred {
                Ok(ValueModel::Composite { source: text, segments })
            } else {
                match interpolated(bytes) {
                    Err(e) => Err(e),
                    Ok(source) => match compile_result(text, compiled(source)) {
                        Err(e) => Err(e),
                        Ok(program) => Ok(ValueModel::Expression { source: text, program }),
                    },
                }
            },
        }
    }
}

/// Whether some segment is a credential reference.
fn any_cred(segments: &Vec<CompositeSegment>) -> (r: bool)
    ensures
        r == exists|i: int| 0 <= i < segments@.len() && segment_models(segments@)[i] is Cred,
{
    let mut i: usize = 0;
    while i < segments.len()
        invariant
            i <= segments.len(),
            forall|k: int| 0 <= k < i ==> !(#[trigger] segment_models(segments@)[k] is Cred),
        decreases segments.len() - i,
    {
        if let CompositeSegment::Cred(_) = &segments[i] {
            assert(segment_models(segments@)[i as int] is Cred);
            return true;
        }
        i += 1;
    }
    false
}

/// How what came of an evaluation is rendered: a scalar as its text, anything
/// else as an error.
pub open spec fn rendered(
    source: Seq<char>,
    outcome: Result<CelModel, cel::ExecutionError>,
    r: Result<Seq<char>, ErrorModel>,
) -> bool {
    match outcome {
        Ok(value) => match scalar_text(value) {
            Some(text) => r == Ok::<Seq<char>, ErrorModel>(text),
            None => {
                &&& r matches Err(ErrorModel::NotScalar { expression, got })
                &&& expression == source
                &&& described_as(value, got)
            },
        },
        Err(e) => {
            &&& r matches Err(ErrorModel::Evaluate { expression, detail })
            &&& expression == source
            &&& reads_as(e, detail)
        },
    }
}

/// Renders what came of an evaluation as text.
pub fn render_outcome(source: &str, outcome: Result<cel::Value, cel::ExecutionError>) -> (r: Result<
    String,
    ExprError,
>)
    ensures
        rendered(source@, raw_outcome(outcome), text_outcome(r)),
{
    match outcome {
        Ok(value) => match cel_value_to_string(&CelValue::from_cel(&value)) {
            Some(text) => Ok(text),
            None => Err(ExprError::NotScalar { expression: source.to_owned(), got: describe(&value) }),
        },
        Err(e) => Err(
            ExprError::Evaluate { expression: source.to_owned(), detail: execution_error_to_text(&e) },
        ),
    }
}

/// Whether evaluating a program for a request may come to this: CEL may give
/// some outcome on the request's variables that is rendered so.
pub open spec fn evaluated(
    program: cel::Program,
    source: Seq<char>,
    ctx: ExprContext,
    r: Result<Seq<char>, ErrorModel>,
) -> bool {
    exists|outcome: Result<CelModel, cel::ExecutionError>| #[trigger]
        may_give(program, standard_variables(ctx), outcome) && rendered(source, outcome, r)
}

/// Evaluates a program for a request and renders the result as text.
fn eval_program(program: &cel::Program, source: &str, ctx: &ExprContext) -> (r: Result<String, ExprError>)
    ensures
        evaluated(*program, source@, *ctx, text_outcome(r)),
{
    let context = ctx.to_cel_context()?;
    let outcome = execute(program, &context);
    let ghost raw = raw_outcome(outcome);
    let r = render_outcome(source, outcome);
    assert(may_give(*program, standard_variables(*ctx), raw));
    r
}

/// Whether a segment may come to this text or error for a request, with a
/// resolver for credentials.
pub open spec fn segment_gives<F: Fn(&str) -> Option<String>>(
    s: SegmentModel,
    ctx: ExprContext,
    resolve_cred: F,
    r: Result<Seq<char>, ErrorModel>,
) -> bool {
    match s {
        SegmentModel::Literal(text) => r == Ok::<Seq<char>, ErrorModel>(text),
        SegmentModel::Cel { source, program } => evaluated(program, source, ctx, r),
        SegmentModel::Cred(uri) => exists|asked: &str, answer: Option<String>|
            {
                &&& #[trigger] call_ensures(resolve_cred, (asked,), answer)
                &&& asked@ == uri
                &&& r == match answer {
                    Some(secret) => Ok::<Seq<char>, ErrorModel>(secret@),
                    None => Err(ErrorModel::UnresolvedCredential { uri }),
                }
            },
    }
}

/// Whether the first segments may come to these texts.
pub open spec fn segments_give<F: Fn(&str) -> Option<String>>(
    segments: Seq<SegmentModel>,
    ctx: ExprContext,
    resolve_cred: F,
    texts: Seq<Seq<char>>,
) -> bool {
    &&& texts.len() <= segments.len()
    &&& forall|i: int|
        0 <= i < texts.len() ==> segment_gives(
            segments[i],
            ctx,
            resolve_cred,
            Ok(#[trigger] texts[i]),
        )
}

/// The texts one after the other.
pub open spec fn joined(texts: Seq<Seq<char>>) -> Seq<char>
    decreases texts.len(),
{
    if texts.len() == 0 {
        seq![]
    } else {
        joined(texts.drop_last()) + texts.last()
    }
}

/// Whether some segments together may come to this, where the first ones come
/// to these texts: the texts of all of them, one after the other, or the
/// error of the first one that fails.
pub open spec fn composed_of<F: Fn(&str) -> Option<String>>(
    segments: Seq<SegmentModel>,
    ctx: ExprContext,
    resolve_cred: F,
    texts: Seq<Seq<char>>,
    r: Result<Seq<char>, ErrorModel>,
) -> bool {
    &&& segments_give(segments, ctx, resolve_cred, texts)
    &&& match r {
        Ok(text) => texts.len() == segments.len() && text == joined(texts),
        Err(e) => texts.len() < segments.len() && segment_gives(
            segments[texts.len() as int],
            ctx,
            resolve_cred,
            Err(e),
        ),
    }
}

/// Whether some segments together may come to this.
pub open spec fn composed<F: Fn(&str) -> Option<String>>(
    segments: Seq<SegmentModel>,
    ctx: ExprContext,
    resolve_cred: F,
    r: Result<Seq<char>, ErrorModel>,
) -> bool {
    exists|texts: Seq<Seq<char>>| composed_of(segments, ctx, resolve_cred, texts, r)
}

/// Whether a value may come to this for a request, where no credentials can
/// be had.
pub open spec fn resolved(v: ValueModel, ctx: ExprContext, r: Result<Seq<char>, ErrorModel>) -> bool {
    match v {
        ValueModel::Literal(text) => r == Ok::<Seq<char>, ErrorModel>(text),
        ValueModel::Expression { source, program } => evaluated(program, source, ctx, r),
        ValueModel::Composite { source, segments } => r == Err::<Seq<char>, ErrorModel>(
            ErrorModel::NeedsCredentials { source },
        ),
    }
}

/// Whether a value may come to this for a request, with a resolver for
/// credentials.
pub open spec fn resolved_with<F: Fn(&str) -> Option<String>>(
    v: ValueModel,
    ctx: ExprContext,
    resolve_cred: F,
    r: Result<Seq<char>, ErrorModel>,
) -> bool {
    match v {
        ValueModel::Composite { source, segments } => composed(segments, ctx, resolve_cred, r),
        _ => resolved(v, ctx, r),
    }
}

/// The texts of some string slices.
pub open spec fn slices(v: Seq<&str>) -> Seq<Seq<char>> {
    v.map_values(|s: &str| s@)
}

/// A reference among the segments is one of theirs.
proof fn lemma_segment_ref(segments: Seq<SegmentModel>, i: int)
    requires
        0 <= i < segments.len(),
        segments[i] is Cred,
    ensures
        segment_refs(segments).contains(segments[i]->Cred_0),
    decreases segments.len(),
{
    let before = segment_refs(segments.drop_last());
    if i == segments.len() - 1 {
        assert(segment_refs(segments).last() == segments[i]->Cred_0);
    } else {
        lemma_segment_ref(segments.drop_last(), i);
        let k = before.index_of(segments[i]->Cred_0);
        assert(segment_refs(segments)[k] == segments[i]->Cred_0);
    }
}

impl DynamicValue<String> {
    /// Parses a template.
    ///
    /// - Without a `${` marker it is a [`DynamicValue::Literal`].
    /// - With a `${cred://…}` reference it is a [`DynamicValue::Composite`].
    /// - Otherwise it is a [`DynamicValue::Expression`].
    pub fn parse(input: &str) -> (r: Result<Self, ExprError>)
        ensures
            match r {
                Ok(v) => parsed(input@) == Ok::<ValueModel, ErrorModel>(v@),
                Err(e) => parsed(input@) == Err::<ValueModel, ErrorModel>(e@),
            },
    {
        if !contains_marker(input) {
            return Ok(DynamicValue::Literal(input.to_owned()));
        }
        let segments = parse_segments(input)?;
        if any_cred(&segments) {
            return Ok(DynamicValue::Composite { source: input.to_owned(), segments });
        }
        let cel_source = interpolation_to_cel(input)?;
        let program = compile_outcome(input, cel::Program::compile(cel_source.as_str()))?;
        Ok(DynamicValue::Expression { source: input.to_owned(), program })
    }

    /// Resolves the value for a request: a literal as it stands, an
    /// expression by evaluating it. A value with credential references is
    /// refused: it goes through [`DynamicValue::resolve_with_credentials`].
    pub fn resolve(&self, ctx: &ExprContext) -> (r: Result<String, ExprError>)
        ensures
            resolved(self@, *ctx, text_outcome(r)),
    {
        match self {
            DynamicValue::Literal(s) => Ok(s.clone()),
            DynamicValue::Expression { source, program } => eval_program(program, source.as_str(), ctx),
            DynamicValue::Composite { source, .. } => Err(ExprError::NeedsCredentials { source: source.clone() }),
        }
    }

    /// The `cred://…` URIs in the template, in order.
    pub fn cred_refs(&self) -> (r: Vec<&str>)
        ensures
            slices(r@) == value_refs(self@),
    {
        let mut refs: Vec<&str> = Vec::new();
        if let DynamicValue::Composite { segments, .. } = self {
            let mut i: usize = 0;
            while i < segments.len()
                invariant
                    i <= segments.len(),
                    slices(refs@) == segment_refs(segment_models(segments@).take(i as int)),
                decreases segments.len() - i,
            {
                let ghost before = slices(refs@);
                if let CompositeSegment::Cred(uri) = &segments[i] {
                    refs.push(uri.as_str());
                    assert(slices(refs@) =~= before.push(uri@));
                }
                proof {
                    let models = segment_models(segments@);
                    assert(models.take(i + 1).drop_last() =~= models.take(i as int));
                    assert(models.take(i + 1).last() == segments@[i as int]@);
                }
                i += 1;
            }
            assert(segment_models(segments@).take(segments.len() as int) =~= segment_models(segments@));
        }
        refs
    }

    /// Resolves the value for a request, with `resolve_cred` to supply the
    /// credentials: it is asked for the references in the template, each by
    /// its whole URI, and for nothing else.
    pub fn resolve_with_credentials<F>(&self, ctx: &ExprContext, resolve_cred: F) -> (r: Result<String, ExprError>)
        where F: Fn(&str) -> Option<String>
        requires
            forall|uri: &str| value_refs(self@).contains(uri@) ==> #[trigger] call_requires(resolve_cred, (uri,)),
        ensures
            resolved_with(self@, *ctx, resolve_cred, text_outcome(r)),
    {
        match self {
            DynamicValue::Composite { segments, .. } => {
                let ghost models = segment_models(segments@);
                let ghost mut texts: Seq<Seq<char>> = seq![];
                let mut out = String::new();
                let mut i: usize = 0;
                while i < segments.len()
                    invariant
                        i <= segments.len(),
                        models == segment_models(segments@),
                        self@ matches ValueModel::Composite { segments: s, .. } && s == models,
                        forall|uri: &str| segment_refs(models).contains(uri@) ==> #[trigger] call_requires(resolve_cred, (uri,)),
                        texts.len() == i,
                        segments_give(models, *ctx, resolve_cred, texts),
                        out@ == joined(texts),
                    decreases segments.len() - i,
                {
                    let outcome = match &segments[i] {
                        CompositeSegment::Literal(s) => Ok(s.clone()),
                        CompositeSegment::Cel { source, program } => eval_program(program, source.as_str(), ctx),
                        CompositeSegment::Cred(uri) => {
                            proof {
                                assert(models[i as int] == SegmentModel::Cred(uri@));
                                lemma_segment_ref(models, i as int);
                            }
                            match resolve_cred(uri.as_str()) {
                                Some(secret) => Ok(secret),
                                None => Err(ExprError::UnresolvedCredential { uri: uri.clone() }),
                            }
                        },
                    };
                    assert(segment_gives(models[i as int], *ctx, resolve_cred, text_outcome(outcome)));
                    match outcome {
                        Err(e) => {
                            assert(composed_of(models, *ctx, resolve_cred, texts, Err(e@)));
                            return Err(e);
                        },
                        Ok(text) => {
                            out.append(text.as_str());
                            proof {
                                let before = texts;
                                texts = before.push(text@);
                                assert(texts.drop_last() =~= before);
                            }
                        },
                    }
                    i += 1;
                }
                assert(composed_of(models, *ctx, resolve_cred, texts, Ok(out@)));
                Ok(out)
            },
            _ => self.resolve(ctx),
        }
    }
}

/// A reference of some segments is one of the segments.
proof fn lemma_ref_is_segment(segments: Seq<SegmentModel>, uri: Seq<char>)
    requires
        segment_refs(segments).contains(uri),
    ensures
        exists|i: int| 0 <= i < segments.len() && segments[i] == SegmentModel::Cred(uri),
    decreases segments.len(),
{
    if segments.len() > 0 {
        let init = segments.drop_last();
        let refs = segment_refs(segments);
        let k = refs.index_of(uri);
        if segments.last() is Cred && k == refs.len() - 1 {
            assert(segments[segments.len() - 1] == SegmentModel::Cred(uri));
        } else {
            assert(segment_refs(init)[k] == uri);
            lemma_ref_is_segment(init, uri);
            let i = choose|i: int| 0 <= i < init.len() && init[i] == SegmentModel::Cred(uri);
            assert(segments[i] == init[i]);
        }
    }
}

/// A text without a `${` marker is a literal, and resolves to itself for
/// every request.
pub proof fn law_plain_text(text: Seq<char>, ctx: ExprContext, r: Result<Seq<char>, ErrorModel>)
    requires
        !has_marker(encode_utf8(text)),
    ensures
        parsed(text) == Ok::<ValueModel, ErrorModel>(ValueModel::Literal(text)),
        resolved(ValueModel::Literal(text), ctx, r) <==> r == Ok::<Seq<char>, ErrorModel>(text),
{
}

/// A template parses as a composite exactly where it has a credential
/// reference.
pub proof fn law_composite_has_references(text: Seq<char>, v: ValueModel)
    requires
        parsed(text) == Ok::<ValueModel, ErrorModel>(v),
    ensures
        v is Composite <==> value_refs(v).len() > 0,
{
    if let ValueModel::Composite { source, segments } = v {
        let i = choose|i: int| 0 <= i < segments.len() && segments[i] is Cred;
        lemma_segment_ref(segments, i);
    }
}

/// A credential reference stands in the text at the offset `at`: a `${`
/// marker around the URI, up to white space.
pub open spec fn reference_at(bytes: Seq<u8>, at: int, uri: Seq<char>) -> bool {
    &&& marker_at(bytes, at)
    &&& matching_brace(bytes, at + 2) matches Some(end)
    &&& uri == trimmed(text_between(bytes, at + 2, end))
    &&& begins_with(uri, "cred://"@)
}

/// Every reference among the segments of a template stands in its text.
proof fn lemma_references_stand_in_text(bytes: Seq<u8>, at: int, segments: Seq<SegmentModel>, i: int)
    requires
        segments_from(bytes, at) == Ok::<Seq<SegmentModel>, ErrorModel>(segments),
        0 <= i < segments.len(),
        segments[i] is Cred,
    ensures
        exists|place: int| reference_at(bytes, place, segments[i]->Cred_0),
    decreases bytes.len() - at,
{
    let p = piece(bytes, at)->Ok_0;
    let s = segment(p)->Ok_0;
    let rest = segments_from(bytes, p.next)->Ok_0;
    lemma_piece_advances(bytes, at);
    assert(segments == seq![s] + rest);
    if i == 0 {
        assert(reference_at(bytes, at, segments[0]->Cred_0));
    } else {
        lemma_references_stand_in_text(bytes, p.next, rest, i - 1);
    }
}

/// Credential references come from the template alone: each reference of a
/// parsed value stands in the template between a `${` and its brace.
pub proof fn law_references_come_from_template(text: Seq<char>, v: ValueModel, uri: Seq<char>)
    requires
        parsed(text) == Ok::<ValueModel, ErrorModel>(v),
        value_refs(v).contains(uri),
    ensures
        exists|place: int| reference_at(encode_utf8(text), place, uri),
{
    let segments = v->Composite_segments;
    lemma_ref_is_segment(segments, uri);
    let i = choose|i: int| 0 <= i < segments.len() && segments[i] == SegmentModel::Cred(uri);
    lemma_references_stand_in_text(encode_utf8(text), 0, segments, i);
}

/// Two resolvers may answer the same to each of these URIs.
pub open spec fn answer_alike<F: Fn(&str) -> Option<String>, G: Fn(&str) -> Option<String>>(
    one: F,
    other: G,
    uris: Seq<Seq<char>>,
) -> bool {
    forall|asked: &str, answer: Option<String>|
        #![trigger call_ensures(one, (asked,), answer)]
        #![trigger call_ensures(other, (asked,), answer)]
        uris.contains(asked@) ==> call_ensures(one, (asked,), answer) == call_ensures(other, (asked,), answer)
}

/// A segment comes to the same with resolvers that answer alike to the
/// references around it.
proof fn lemma_segment_gives_alike<F: Fn(&str) -> Option<String>, G: Fn(&str) -> Option<String>>(
    segments: Seq<SegmentModel>,
    i: int,
    ctx: ExprContext,
    one: F,
    other: G,
    r: Result<Seq<char>, ErrorModel>,
)
    requires
        0 <= i < segments.len(),
        answer_alike(one, other, segment_refs(segments)),
    ensures
        segment_gives(segments[i], ctx, one, r) == segment_gives(segments[i], ctx, other, r),
{
    if segments[i] is Cred {
        lemma_segment_ref(segments, i);
    }
}

/// Segments come to the same with resolvers that answer alike to their
/// references.
proof fn lemma_composed_alike<F: Fn(&str) -> Option<String>, G: Fn(&str) -> Option<String>>(
    segments: Seq<SegmentModel>,
    ctx: ExprContext,
    one: F,
    other: G,
    r: Result<Seq<char>, ErrorModel>,
)
    requires
        answer_alike(one, other, segment_refs(segments)),
        composed(segments, ctx, one, r),
    ensures
        composed(segments, ctx, other, r),
{
    let texts = choose|texts: Seq<Seq<char>>| composed_of(segments, ctx, one, texts, r);
    assert forall|i: int| 0 <= i < texts.len() implies segment_gives(
        segments[i],
        ctx,
        other,
        Ok(#[trigger] texts[i]),
    ) by {
        lemma_segment_gives_alike(segments, i, ctx, one, other, Ok(texts[i]));
    }
    if texts.len() < segments.len() {
        lemma_segment_gives_alike(segments, texts.len() as int, ctx, one, other, r);
    }
    assert(composed_of(segments, ctx, other, texts, r));
}

/// Only its credential references matter to a value: with two resolvers that
/// answer alike to those, it comes to the same. What a request puts into a
/// neighbouring expression reaches neither.
pub proof fn law_only_references_reach_the_resolver<
    F: Fn(&str) -> Option<String>,
    G: Fn(&str) -> Option<String>,
>(v: ValueModel, ctx: ExprContext, one: F, other: G, r: Result<Seq<char>, ErrorModel>)
    requires
        answer_alike(one, other, value_refs(v)),
    ensures
        resolved_with(v, ctx, one, r) == resolved_with(v, ctx, other, r),
{
    if let ValueModel::Composite { source, segments } = v {
        if composed(segments, ctx, one, r) {
            lemma_composed_alike(segments, ctx, one, other, r);
        }
        if composed(segments, ctx, other, r) {
            lemma_composed_alike(segments, ctx, other, one, r);
        }
    }
}

/// A literal or an expression has no references, and a resolver adds nothing
/// to it: it may come to the same with one as without. A literal comes to one
/// thing only.
pub proof fn law_no_references_resolve_alike<F: Fn(&str) -> Option<String>>(
    v: ValueModel,
    ctx: ExprContext,
    resolve_cred: F,
    with: Result<Seq<char>, ErrorModel>,
    without: Result<Seq<char>, ErrorModel>,
)
    requires
        !(v is Composite),
    ensures
        value_refs(v).len() == 0,
        resolved_with(v, ctx, resolve_cred, with) == resolved(v, ctx, with),
        v is Literal && resolved_with(v, ctx, resolve_cred, with) && resolved(v, ctx, without) ==> with == without,
{
}

/// Where two evaluations of an expression have the same outcome, they are
/// rendered alike: as the same text, or as an error both times.
pub proof fn law_one_outcome_one_text(
    source: Seq<char>,
    outcome: Result<CelModel, cel::ExecutionError>,
    one: Result<Seq<char>, ErrorModel>,
    other: Result<Seq<char>, ErrorModel>,
)
    requires
        rendered(source, outcome, one),
        rendered(source, outcome, other),
    ensures
        one is Ok ==> one == other,
        one is Err ==> other is Err,
{
}

/// The references that are reached where so many segments give their text:
/// all of them where every segment does, else those up to the segment that
/// fails.
pub open spec fn refs_reached(segments: Seq<SegmentModel>, done: nat, complete: bool) -> Seq<Seq<char>> {
    if complete {
        segment_refs(segments)
    } else {
        segment_refs(segments.take(done as int + 1))
    }
}

/// Whether a value may come to this, with these URIs put to the resolver, in
/// this order: those of the segments up to the one that fails.
pub open spec fn resolved_asking<F: Fn(&str) -> Option<String>>(
    v: ValueModel,
    ctx: ExprContext,
    resolve_cred: F,
    asked: Seq<Seq<char>>,
    r: Result<Seq<char>, ErrorModel>,
) -> bool {
    match v {
        ValueModel::Composite { source, segments } => exists|texts: Seq<Seq<char>>|
            {
                &&& #[trigger] composed_of(segments, ctx, resolve_cred, texts, r)
                &&& asked == refs_reached(segments, texts.len(), r is Ok)
            },
        _ => asked.len() == 0 && resolved(v, ctx, r),
    }
}

/// The references among the first segments come first.
proof fn lemma_refs_prefix(segments: Seq<SegmentModel>, n: int)
    requires
        0 <= n <= segments.len(),
    ensures
        segment_refs(segments.take(n)).is_prefix_of(segment_refs(segments)),
    decreases segments.len(),
{
    if n < segments.len() {
        let init = segments.drop_last();
        lemma_refs_prefix(init, n);
        assert(init.take(n) =~= segments.take(n));
        let few = segment_refs(segments.take(n));
        assert(segment_refs(init).take(few.len() as int) =~= segment_refs(segments).take(few.len() as int));
    } else {
        assert(segments.take(n) =~= segments);
        assert(segment_refs(segments).take(segment_refs(segments).len() as int) =~= segment_refs(segments));
    }
}

/// Every outcome comes with the URIs that were put to the resolver for it.
pub proof fn law_outcomes_come_with_their_references<F: Fn(&str) -> Option<String>>(
    v: ValueModel,
    ctx: ExprContext,
    resolve_cred: F,
    r: Result<Seq<char>, ErrorModel>,
)
    ensures
        resolved_with(v, ctx, resolve_cred, r) <==> exists|asked: Seq<Seq<char>>|
            resolved_asking(v, ctx, resolve_cred, asked, r),
{
    if resolved_with(v, ctx, resolve_cred, r) {
        if let ValueModel::Composite { source, segments } = v {
            let texts = choose|texts: Seq<Seq<char>>| composed_of(segments, ctx, resolve_cred, texts, r);
            let asked = refs_reached(segments, texts.len(), r is Ok);
            assert(resolved_asking(v, ctx, resolve_cred, asked, r));
        } else {
            assert(resolved_asking(v, ctx, resolve_cred, seq![], r));
        }
    }
}

/// The template alone decides which credentials are used: whatever the
/// request, the URIs put to the resolver are the first ones of the value's
/// references, in order, and all of them where the value resolves. So two
/// requests for which it resolves use the same.
pub proof fn law_template_decides_credentials<F: Fn(&str) -> Option<String>, G: Fn(&str) -> Option<String>>(
    v: ValueModel,
    ctx: ExprContext,
    resolve_cred: F,
    asked: Seq<Seq<char>>,
    r: Result<Seq<char>, ErrorModel>,
    other_ctx: ExprContext,
    other_resolve_cred: G,
    other_asked: Seq<Seq<char>>,
    other_r: Result<Seq<char>, ErrorModel>,
)
    requires
        resolved_asking(v, ctx, resolve_cred, asked, r),
        resolved_asking(v, other_ctx, other_resolve_cred, other_asked, other_r),
    ensures
        asked.is_prefix_of(value_refs(v)),
        r is Ok ==> asked == value_refs(v),
        r is Ok && other_r is Ok ==> asked == other_asked,
{
    if let ValueModel::Composite { source, segments } = v {
        let texts = choose|texts: Seq<Seq<char>>|
            {
                &&& #[trigger] composed_of(segments, ctx, resolve_cred, texts, r)
                &&& asked == refs_reached(segments, texts.len(), r is Ok)
            };
        if r is Err {
            lemma_refs_prefix(segments, texts.len() as int + 1);
        } else {
            lemma_refs_prefix(segments, segments.len() as int);
            assert(segments.take(segments.len() as int) =~= segments);
        }
    } else {
        assert(asked =~= value_refs(v));
        assert(other_asked =~= value_refs(v));
        assert(value_refs(v).take(0) =~= asked);
    }
}

/// A value with credential references is refused where no credentials can be
/// had.
pub proof fn law_references_refuse_plain_resolve(
    text: Seq<char>,
    v: ValueModel,
    ctx: ExprContext,
    r: Result<Seq<char>, ErrorModel>,
)
    requires
        parsed(text) == Ok::<ValueModel, ErrorModel>(v),
        value_refs(v).len() > 0,
        resolved(v, ctx, r),
    ensures
        r == Err::<Seq<char>, ErrorModel>(ErrorModel::NeedsCredentials { source: text }),
{
}

/// Splitting a template and turning it into one expression agree: where the
/// first succeeds, the second does.
pub proof fn law_split_templates_interpolate(bytes: Seq<u8>, at: int)
    requires
        segments_from(bytes, at) is Ok,
    ensures
        cel_parts(bytes, at) matches Ok(parts) && parts.len() == segments_from(bytes, at)->Ok_0.len(),
    decreases bytes.len() - at,
{
    if 0 <= at < bytes.len() {
        lemma_piece_advances(bytes, at);
        law_split_templates_interpolate(bytes, piece(bytes, at)->Ok_0.next);
    }
}

}
