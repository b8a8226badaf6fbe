//! The CEL engine: what the library asks of the `cel` crate.
use crate::value::{cel_entries, cel_items, cel_model, is_data, lemma_cel_items, plain, CelKey, CelModel};
use crate::value::{CelValue, KeyModel};
use cel::common::types::CelDouble;
use std::collections::HashMap;
use std::sync::Arc;
use vstd::prelude::*;

verus! {

/// [`cel::Program`], a compiled expression.
#[verifier::external_type_specification]
#[verifier::external_body]
pub struct ExProgram(cel::Program);

/// [`cel::ParseErrors`], why a source text could not be compiled.
#[verifier::external_type_specification]
#[verifier::external_body]
pub struct ExParseErrors(cel::ParseErrors);

/// [`cel::ExecutionError`], why a program could not be evaluated.
#[verifier::external_type_specification]
#[verifier::external_body]
pub struct ExExecutionError(cel::ExecutionError);

/// [`cel::Context`], the variables and functions that a program sees.
#[verifier::external_type_specification]
#[verifier::external_body]
pub struct ExContext<'p, 'v>(cel::Context<'p, 'v>);

/// [`cel::Value`], a value inside the engine.
#[verifier::external_type_specification]
#[verifier::external_body]
pub struct ExValue(cel::Value);

/// [`cel::objects::Key`], a key of a map inside the engine.
#[verifier::external_type_specification]
#[verifier::external_body]
pub struct ExKey(cel::objects::Key);

/// [`cel::objects::Map`], a map inside the engine.
#[verifier::external_type_specification]
#[verifier::external_body]
pub struct ExMap(cel::objects::Map);

/// What [`cel::Program::compile`] makes of a source text.
pub uninterp spec fn compiled(source: Seq<char>) -> Result<cel::Program, cel::ParseErrors>;

/// [`cel::Program::compile`] parses the source for the standard environment:
/// the outcome depends on the source alone. How deep a source may nest before
/// the parser runs out of stack depends on the machine and is not stated.
pub assume_specification[ cel::Program::compile ](source: &str) -> (r: Result<cel::Program, cel::ParseErrors>)
    ensures
        r == compiled(source@),
;

/// Where the errors in a [`cel::ParseErrors`] lie: the line and the column of
/// each, in order.
pub uninterp spec fn error_positions(e: cel::ParseErrors) -> Seq<(isize, isize)>;

/// Reads the public field `pos` of every error in a [`cel::ParseErrors`].
#[verifier::external_body]
pub(crate) fn positions(e: &cel::ParseErrors) -> (r: Vec<(isize, isize)>)
    ensures
        r@ == error_positions(*e),
{
    e.errors.iter().map(|error| error.pos).collect()
}

/// The greatest width that text can be padded to.
pub const MAX_WIDTH: isize = 65535;

/// No line is negative, and every column is a width that text can be padded to.
pub open spec fn narrow(positions: Seq<(isize, isize)>) -> bool {
    forall|i: int|
        0 <= i < positions.len() ==> 0 <= (#[trigger] positions[i]).0 && 0 <= positions[i].1 <= MAX_WIDTH
}

/// Whether no line is negative and every column is a width that text can be
/// padded to.
pub(crate) fn is_narrow(positions: &Vec<(isize, isize)>) -> (r: bool)
    ensures
        r == narrow(positions@),
{
    let mut i: usize = 0;
    while i < positions.len()
        invariant
            i <= positions.len(),
            forall|k: int|
                0 <= k < i ==> 0 <= (#[trigger] positions@[k]).0 && 0 <= positions@[k].1 <= MAX_WIDTH,
        decreases positions.len() - i,
    {
        let position = positions[i];
        if position.0 < 0 || position.1 < 0 || position.1 > MAX_WIDTH {
            assert(positions@[i as int] == position);
            return false;
        }
        i += 1;
    }
    true
}

/// How a [`cel::ParseErrors`] reads.
pub uninterp spec fn parse_errors_text(e: cel::ParseErrors) -> Seq<char>;

/// `to_string` of a [`cel::ParseErrors`]: its `Display` writes the errors it
/// holds, one after the other. Under each it sets a caret, padded to the
/// error's column, and padding panics on a column beyond [`MAX_WIDTH`]:
/// `narrow` leaves those out.
#[verifier::external_body]
pub(crate) fn parse_errors_to_text(e: &cel::ParseErrors) -> (r: String)
    requires
        narrow(error_positions(*e)),
    ensures
        r@ == parse_errors_text(*e),
{
    e.to_string()
}

/// The variables that a [`cel::Context`] binds, and what each is bound to.
pub uninterp spec fn variables(context: cel::Context<'_, '_>) -> Map<Seq<char>, CelModel>;

/// No variable at all.
pub open spec fn no_variables() -> Map<Seq<char>, CelModel> {
    Map::empty()
}

/// [`cel::Context::default`] makes a root context with the standard functions
/// and without variables.
#[verifier::external_body]
pub(crate) fn new_context<'p, 'v>() -> (r: cel::Context<'p, 'v>)
    ensures
        variables(r) == no_variables(),
{
    cel::Context::default()
}

/// [`cel::Context::add_variable`] on a [`cel::Value`] binds the name to the
/// value and leaves every other variable as it was. It cannot fail (its error
/// has no value), but panics on a value with a function in it: `plain` leaves
/// those out.
#[verifier::external_body]
pub(crate) fn bind(context: &mut cel::Context<'_, '_>, name: &str, value: cel::Value)
    requires
        plain(contents(value)),
    ensures
        variables(*final(context)) == variables(*old(context)).insert(name@, contents(value)),
{
    if let Err(never) = context.add_variable(name, value) {
        match never {}
    }
}

/// What a [`cel::Value`] holds. Bytes, durations, timestamps, functions,
/// structs and opaque values are [`CelModel::Other`].
pub uninterp spec fn contents(value: cel::Value) -> CelModel;

/// What a [`cel::objects::Key`] holds.
pub uninterp spec fn key_contents(key: cel::objects::Key) -> KeyModel;

/// What a [`cel::objects::Map`] holds.
pub uninterp spec fn map_contents(map: cel::objects::Map) -> Map<KeyModel, CelModel>;

/// A map without entries.
pub open spec fn no_entries() -> Map<KeyModel, CelModel> {
    Map::empty()
}

/// A [`cel::objects::Map`] around `HashMap::new`, which is empty.
#[verifier::external_body]
fn new_map() -> (r: cel::objects::Map)
    ensures
        map_contents(r) == no_entries(),
{
    cel::objects::Map { map: Arc::new(HashMap::new()) }
}

/// `HashMap::insert` on the map inside a [`cel::objects::Map`]: adds an entry,
/// and where the key is there already, puts the value in place of the old one.
#[verifier::external_body]
fn insert_entry(map: &mut cel::objects::Map, key: cel::objects::Key, value: cel::Value)
    ensures
        map_contents(*final(map)) == map_contents(*old(map)).insert(key_contents(key), contents(value)),
{
    Arc::make_mut(&mut map.map).insert(key, value);
}

/// The entries of a [`cel::objects::Map`], in the order in which its `HashMap`
/// is walked, each key once.
#[verifier::external_body]
fn map_entries(map: &cel::objects::Map) -> (r: Vec<(cel::objects::Key, cel::Value)>)
    ensures
        entries_contents(r@) == map_contents(*map),
        distinct_keys(r@),
{
    map.map.iter().map(|e| (e.0.clone(), e.1.clone())).collect()
}

/// A value of the engine, taken apart by one level.
pub enum Shape {
    Null,
    Bool(bool),
    Int(i64),
    UInt(u64),
    Float(CelDouble),
    String(String),
    List(Vec<cel::Value>),
    Mapping(cel::objects::Map),
}

/// What the items of a list hold, in order.
pub open spec fn items_contents(items: Seq<cel::Value>) -> Seq<CelModel> {
    Seq::new(items.len(), |i: int| contents(items[i]))
}

/// What the entries of a map hold; a later entry replaces an earlier one.
pub open spec fn entries_contents(entries: Seq<(cel::objects::Key, cel::Value)>) -> Map<KeyModel, CelModel>
    decreases entries.len(),
{
    if entries.len() == 0 {
        Map::empty()
    } else {
        entries_contents(entries.drop_last()).insert(key_contents(entries.last().0), contents(entries.last().1))
    }
}

/// What a value of the engine holds, told from its top level.
pub open spec fn shape_contents(shape: Shape) -> CelModel {
    match shape {
        Shape::Null => CelModel::Null,
        Shape::Bool(b) => CelModel::Bool(b),
        Shape::Int(n) => CelModel::Int(n),
        Shape::UInt(n) => CelModel::UInt(n),
        Shape::Float(d) => CelModel::Float(d),
        Shape::String(s) => CelModel::String(s@),
        Shape::List(items) => CelModel::List(items_contents(items@)),
        Shape::Mapping(map) => CelModel::Mapping(map_contents(map)),
    }
}

/// Whether no key occurs twice.
pub open spec fn distinct_keys(entries: Seq<(cel::objects::Key, cel::Value)>) -> bool {
    forall|i: int, j: int|
        #![trigger entries[i], entries[j]]
        0 <= i < j < entries.len() ==> key_contents(entries[i].0) != key_contents(entries[j].0)
}

/// Takes a [`cel::Value`] apart by one level, variant by variant; `None` for
/// the variants that JSON has no counterpart for.
#[verifier::external_body]
fn open_value(value: &cel::Value) -> (r: Option<Shape>)
    ensures
        match r {
            Some(shape) => contents(*value) == shape_contents(shape),
            None => contents(*value) == CelModel::Other,
        },
{
    Some(
        match value {
            cel::Value::Null => Shape::Null,
            cel::Value::Bool(b) => Shape::Bool(*b),
            cel::Value::Int(n) => Shape::Int(*n),
            cel::Value::UInt(n) => Shape::UInt(*n),
            cel::Value::Float(f) => Shape::Float(CelDouble::from(*f)),
            cel::Value::String(s) => Shape::String(s.to_string()),
            cel::Value::List(l) => Shape::List(l.to_vec()),
            cel::Value::Map(m) => Shape::Mapping(m.clone()),
            _ => return None,
        },
    )
}

/// Makes a [`cel::Value`] of its top level, variant by variant.
#[verifier::external_body]
fn close_value(shape: Shape) -> (r: cel::Value)
    ensures
        contents(r) == shape_contents(shape),
{
    match shape {
        Shape::Null => cel::Value::Null,
        Shape::Bool(b) => cel::Value::Bool(b),
        Shape::Int(n) => cel::Value::Int(n),
        Shape::UInt(n) => cel::Value::UInt(n),
        Shape::Float(d) => cel::Value::Float(d.into_inner()),
        Shape::String(s) => cel::Value::String(Arc::new(s)),
        Shape::List(items) => cel::Value::List(Arc::new(items)),
        Shape::Mapping(map) => cel::Value::Map(map),
    }
}

/// Reads a [`cel::objects::Key`], variant by variant.
#[verifier::external_body]
fn open_key(key: &cel::objects::Key) -> (r: CelKey)
    ensures
        r@ == key_contents(*key),
{
    match key {
        cel::objects::Key::Int(n) => CelKey::Int(*n),
        cel::objects::Key::Uint(n) => CelKey::Uint(*n),
        cel::objects::Key::Bool(b) => CelKey::Bool(*b),
        cel::objects::Key::String(s) => CelKey::String(s.to_string()),
    }
}

/// Makes a [`cel::objects::Key`], variant by variant.
#[verifier::external_body]
fn close_key(key: &CelKey) -> (r: cel::objects::Key)
    ensures
        key_contents(r) == key@,
{
    match key {
        CelKey::Int(n) => cel::objects::Key::Int(*n),
        CelKey::Uint(n) => cel::objects::Key::Uint(*n),
        CelKey::Bool(b) => cel::objects::Key::Bool(*b),
        CelKey::String(s) => cel::objects::Key::String(Arc::new(s.clone())),
    }
}

/// Whether a value that holds this may be described like this. More than one
/// text may do: a map is written in the order in which it is walked.
pub uninterp spec fn described_as(value: CelModel, text: Seq<char>) -> bool;

/// `format!` with `{:?}` on a [`cel::Value`], a description for people.
#[verifier::external_body]
pub(crate) fn describe(value: &cel::Value) -> (r: String)
    ensures
        described_as(contents(*value), r@),
{
    format!("{:?}", value)
}

/// Whether evaluating a program, where it sees these variables and the
/// standard functions, may give this outcome. More than one outcome may do:
/// a comprehension walks the `HashMap` of a map in no fixed order.
pub uninterp spec fn may_give(
    program: cel::Program,
    vars: Map<Seq<char>, CelModel>,
    outcome: Result<CelModel, cel::ExecutionError>,
) -> bool;

/// What came of an evaluation.
pub open spec fn raw_outcome(r: Result<cel::Value, cel::ExecutionError>) -> Result<CelModel, cel::ExecutionError> {
    match r {
        Ok(value) => Ok(contents(value)),
        Err(e) => Err(e),
    }
}

/// [`cel::Program::execute`] evaluates the program with the variables of the
/// context. Which value or error comes out is CEL's own affair; it is one
/// that this program may give on these variables.
#[verifier::external_body]
pub(crate) fn execute(program: &cel::Program, context: &cel::Context<'_, '_>) -> (r: Result<
    cel::Value,
    cel::ExecutionError,
>)
    ensures
        may_give(*program, variables(*context), raw_outcome(r)),
{
    program.execute(context)
}

/// Whether a [`cel::ExecutionError`] may read like this. A map that it holds
/// is written in the order in which it is walked.
pub uninterp spec fn reads_as(e: cel::ExecutionError, text: Seq<char>) -> bool;

/// `to_string` of a [`cel::ExecutionError`].
#[verifier::external_body]
pub(crate) fn execution_error_to_text(e: &cel::ExecutionError) -> (r: String)
    ensures
        reads_as(*e, r@),
{
    e.to_string()
}

/// The entries of a map have finitely many keys; each counts where no key
/// occurs twice.
proof fn lemma_entries_contents(entries: Seq<(cel::objects::Key, cel::Value)>)
    requires
        distinct_keys(entries),
    ensures
        entries_contents(entries).dom().finite(),
        forall|i: int|
            #![trigger entries[i]]
            0 <= i < entries.len() ==> entries_contents(entries).contains_key(key_contents(entries[i].0))
                && entries_contents(entries)[key_contents(entries[i].0)] == contents(entries[i].1),
    decreases entries.len(),
{
    if entries.len() > 0 {
        let init = entries.drop_last();
        assert forall|i: int, j: int|
            #![trigger init[i], init[j]]
            0 <= i < j < init.len() implies key_contents(init[i].0) != key_contents(init[j].0) by {
            assert(entries[i] == init[i] && entries[j] == init[j]);
        }
        lemma_entries_contents(init);
        assert forall|i: int|
            #![trigger entries[i]]
            0 <= i < entries.len() implies entries_contents(entries).contains_key(key_contents(entries[i].0))
            && entries_contents(entries)[key_contents(entries[i].0)] == contents(entries[i].1) by {
            if i < init.len() {
                assert(init[i] == entries[i]);
                assert(key_contents(entries[i].0) != key_contents(entries[entries.len() - 1].0));
            }
        }
    }
}

impl CelValue {
    /// Reads a value of the engine.
    pub fn from_cel(value: &cel::Value) -> (r: CelValue)
        ensures
            r@ == contents(*value),
        decreases contents(*value),
    {
        match open_value(value) {
            None => CelValue::Other,
            Some(Shape::Null) => CelValue::Null,
            Some(Shape::Bool(b)) => CelValue::Bool(b),
            Some(Shape::Int(n)) => CelValue::Int(n),
            Some(Shape::UInt(n)) => CelValue::UInt(n),
            Some(Shape::Float(d)) => CelValue::Float(d),
            Some(Shape::String(s)) => CelValue::String(s),
            Some(Shape::List(items)) => {
                let mut out: Vec<CelValue> = Vec::new();
                let mut i: usize = 0;
                while i < items.len()
                    invariant
                        contents(*value) == CelModel::List(items_contents(items@)),
                        i <= items.len(),
                        out.len() == i,
                        forall|k: int| 0 <= k < i ==> cel_model(#[trigger] out@[k]) == contents(items@[k]),
                    decreases items.len() - i,
                {
                    proof {
                        let all = contents(*value)->List_0;
                        assert(all[i as int] == contents(items@[i as int]));
                        assert(decreases_to!(contents(*value) => contents(*value)->List_0));
                        assert(decreases_to!(all => all[i as int]));
                    }
                    out.push(CelValue::from_cel(&items[i]));
                    i += 1;
                }
                proof {
                    lemma_cel_items(out@);
                    assert(cel_items(out@) =~= items_contents(items@));
                }
                CelValue::List(out)
            },
            Some(Shape::Mapping(map)) => {
                let entries = map_entries(&map);
                let mut out: Vec<(CelKey, CelValue)> = Vec::new();
                let mut i: usize = 0;
                proof {
                    lemma_entries_contents(entries@);
                }
                while i < entries.len()
                    invariant
                        contents(*value) == CelModel::Mapping(entries_contents(entries@)),
                        entries_contents(entries@).dom().finite(),
                        forall|k: int|
                            #![trigger entries@[k]]
                            0 <= k < entries@.len() ==> entries_contents(entries@).contains_key(
                                key_contents(entries@[k].0),
                            ) && entries_contents(entries@)[key_contents(entries@[k].0)] == contents(entries@[k].1),
                        i <= entries.len(),
                        cel_entries(out@) == entries_contents(entries@.take(i as int)),
                    decreases entries.len() - i,
                {
                    let ghost before = out@;
                    let entry = &entries[i];
                    proof {
                        let all = contents(*value)->Mapping_0;
                        assert(all[key_contents(entry.0)] == contents(entry.1));
                        assert(decreases_to!(contents(*value) => contents(*value)->Mapping_0));
                        assert(decreases_to!(all => all[key_contents(entry.0)]));
                    }
                    out.push((open_key(&entry.0), CelValue::from_cel(&entry.1)));
                    proof {
                        assert(out@.drop_last() =~= before);
                        assert(entries@.take(i + 1).drop_last() =~= entries@.take(i as int));
                    }
                    i += 1;
                }
                assert(entries@.take(entries.len() as int) =~= entries@);
                CelValue::Mapping(out)
            },
        }
    }

    /// Makes a value of the engine.
    pub fn to_cel(&self) -> (r: cel::Value)
        requires
            is_data(*self),
        ensures
            contents(r) == self@,
        decreases self,
    {
        match self {
            CelValue::Null => close_value(Shape::Null),
            CelValue::Bool(b) => close_value(Shape::Bool(*b)),
            CelValue::Int(n) => close_value(Shape::Int(*n)),
            CelValue::UInt(n) => close_value(Shape::UInt(*n)),
            CelValue::Float(d) => close_value(Shape::Float(*d)),
            CelValue::String(s) => close_value(Shape::String(s.clone())),
            CelValue::List(items) => {
                let mut out: Vec<cel::Value> = Vec::new();
                let mut i: usize = 0;
                while i < items.len()
                    invariant
                        *self == CelValue::List(*items),
                        forall|k: int| 0 <= k < items@.len() ==> is_data(#[trigger] items@[k]),
                        i <= items.len(),
                        out.len() == i,
                        forall|k: int| 0 <= k < i ==> contents(#[trigger] out@[k]) == cel_model(items@[k]),
                    decreases items.len() - i,
                {
                    assert(decreases_to!(self->List_0 => self->List_0@));
                    assert(decreases_to!(self->List_0@ => self->List_0@[i as int]));
                    out.push(items[i].to_cel());
                    i += 1;
                }
                proof {
                    lemma_cel_items(items@);
                    assert(items_contents(out@) =~= cel_items(items@));
                }
                close_value(Shape::List(out))
            },
            CelValue::Mapping(entries) => {
                let mut out = new_map();
                let mut i: usize = 0;
                while i < entries.len()
                    invariant
                        *self == CelValue::Mapping(*entries),
                        forall|k: int| 0 <= k < entries@.len() ==> is_data((#[trigger] entries@[k]).1),
                        i <= entries.len(),
                        map_contents(out) == cel_entries(entries@.take(i as int)),
                    decreases entries.len() - i,
                {
                    let entry = &entries[i];
                    assert(decreases_to!(self->Mapping_0 => self->Mapping_0@));
                    assert(decreases_to!(self->Mapping_0@ => self->Mapping_0@[i as int]));
                    assert(decreases_to!(self->Mapping_0@[i as int] => self->Mapping_0@[i as int].1));
                    insert_entry(&mut out, close_key(&entry.0), entry.1.to_cel());
                    assert(entries@.take(i + 1).drop_last() =~= entries@.take(i as int));
                    i += 1;
                }
                assert(entries@.take(entries.len() as int) =~= entries@);
                close_value(Shape::Mapping(out))
            },
            CelValue::Other => close_value(Shape::Null),
        }
    }
}

}
