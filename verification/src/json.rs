//! JSON values of the `serde_json` crate, read and made.
use crate::convert::{cel_as_json, cel_value_to_json, json_as_cel, json_to_cel, law_json_survives_cel};
use crate::double::is_finite;
use crate::engine::contents;
use crate::value::{is_finite_json, json_entries, json_items, json_model, lemma_finite_is_writable};
use crate::value::{lemma_finite_is_written, lemma_json_items, lemma_written_items, writable, written};
use crate::value::{written_entries, written_items, CelValue, JsonModel, JsonNumber, JsonValue};
use crate::value::NumberModel;
use cel::common::types::CelDouble;
use vstd::prelude::*;

verus! {

/// [`serde_json::Value`], a JSON value.
#[verifier::external_type_specification]
#[verifier::external_body]
pub struct ExJsonValue(serde_json::Value);

/// [`serde_json::Number`], a JSON number.
#[verifier::external_type_specification]
#[verifier::external_body]
pub struct ExJsonNumber(serde_json::Number);

/// [`serde_json::Map`], the entries of a JSON object.
#[verifier::external_type_specification]
#[verifier::external_body]
#[verifier::reject_recursive_types(K)]
#[verifier::reject_recursive_types(V)]
pub struct ExJsonMap<K, V>(serde_json::Map<K, V>);

/// What a [`serde_json::Value`] holds.
pub uninterp spec fn json_contents(value: serde_json::Value) -> JsonModel;

/// What a [`serde_json::Number`] holds: an integer between the least `i64`
/// and the greatest `u64`, or a finite double.
pub uninterp spec fn number_contents(n: serde_json::Number) -> NumberModel;

/// [`serde_json::Number::as_i64`]: the number where it is an integer that an
/// `i64` holds. An integer that none holds is above the greatest.
pub assume_specification[ serde_json::Number::as_i64 ](n: &serde_json::Number) -> (r: Option<i64>)
    ensures
        match r {
            Some(i) => number_contents(*n) == NumberModel::Integer(i as int),
            None => number_contents(*n) is Float || number_contents(*n)->Integer_0 > i64::MAX,
        },
;

/// [`serde_json::Number::as_u64`]: the number where it is an integer that a
/// `u64` holds. An integer that none holds is negative.
pub assume_specification[ serde_json::Number::as_u64 ](n: &serde_json::Number) -> (r: Option<u64>)
    ensures
        match r {
            Some(u) => number_contents(*n) == NumberModel::Integer(u as int),
            None => number_contents(*n) is Float || number_contents(*n)->Integer_0 < 0,
        },
;

/// [`serde_json::Number::as_f64`], the result as a [`CelDouble`]: there is
/// one for every number; where the number is a double, it is that double, and
/// finite.
#[verifier::external_body]
fn number_as_double(n: &serde_json::Number) -> (r: Option<CelDouble>)
    ensures
        r is Some,
        number_contents(*n) is Float ==> r == Some(number_contents(*n)->Float_0) && is_finite(r->Some_0),
{
    n.as_f64().map(CelDouble::from)
}

/// `From<u64>` of [`serde_json::Number`].
#[verifier::external_body]
fn number_from_u64(u: u64) -> (r: serde_json::Number)
    ensures
        number_contents(r) == NumberModel::Integer(u as int),
{
    serde_json::Number::from(u)
}

/// `From<i64>` of [`serde_json::Number`].
#[verifier::external_body]
fn number_from_i64(i: i64) -> (r: serde_json::Number)
    ensures
        number_contents(r) == NumberModel::Integer(i as int),
{
    serde_json::Number::from(i)
}

/// [`serde_json::Number::from_f64`]: a number for every finite double, and
/// for no other.
#[verifier::external_body]
fn number_from_double(d: CelDouble) -> (r: Option<serde_json::Number>)
    ensures
        match r {
            Some(n) => is_finite(d) && number_contents(n) == NumberModel::Float(d),
            None => !is_finite(d),
        },
{
    serde_json::Number::from_f64(d.into_inner())
}

/// A JSON value, looked at one level deep.
pub enum JsonParts<'a> {
    Null,
    Bool(bool),
    Number(&'a serde_json::Number),
    String(&'a String),
    Array(&'a Vec<serde_json::Value>),
    Object(Vec<(&'a String, &'a serde_json::Value)>),
}

/// What the items of an array hold, in order.
pub open spec fn array_contents(items: Seq<serde_json::Value>) -> Seq<JsonModel> {
    Seq::new(items.len(), |i: int| json_contents(items[i]))
}

/// What the entries of an object hold.
pub open spec fn object_contents(entries: Seq<(&String, &serde_json::Value)>) -> Map<Seq<char>, JsonModel>
    decreases entries.len(),
{
    if entries.len() == 0 {
        Map::empty()
    } else {
        object_contents(entries.drop_last()).insert(entries.last().0@, json_contents(*entries.last().1))
    }
}

/// What a JSON value holds, told from its top level.
pub open spec fn parts_contents(parts: JsonParts<'_>) -> JsonModel {
    match parts {
        JsonParts::Null => JsonModel::Null,
        JsonParts::Bool(b) => JsonModel::Bool(b),
        JsonParts::Number(n) => JsonModel::Number(number_contents(*n)),
        JsonParts::String(s) => JsonModel::String(s@),
        JsonParts::Array(items) => JsonModel::Array(array_contents(items@)),
        JsonParts::Object(entries) => JsonModel::Object(object_contents(entries@)),
    }
}

/// Whether no name occurs twice.
pub open spec fn distinct_names(parts: JsonParts<'_>) -> bool {
    parts matches JsonParts::Object(entries) ==> forall|i: int, j: int|
        #![trigger entries@[i], entries@[j]]
        0 <= i < j < entries@.len() ==> entries@[i].0@ != entries@[j].0@
}

/// Looks at a [`serde_json::Value`] one level deep, variant by variant. An
/// object has each name once.
#[verifier::external_body]
fn open_json<'a>(value: &'a serde_json::Value) -> (r: JsonParts<'a>)
    ensures
        json_contents(*value) == parts_contents(r),
        distinct_names(r),
{
    match value {
        serde_json::Value::Null => JsonParts::Null,
        serde_json::Value::Bool(b) => JsonParts::Bool(*b),
        serde_json::Value::Number(n) => JsonParts::Number(n),
        serde_json::Value::String(s) => JsonParts::String(s),
        serde_json::Value::Array(items) => JsonParts::Array(items),
        serde_json::Value::Object(map) => JsonParts::Object(map.iter().collect()),
    }
}

/// The top level of a JSON value that is to be made.
pub enum JsonShape {
    Null,
    Bool(bool),
    Number(serde_json::Number),
    String(String),
    Array(Vec<serde_json::Value>),
    Object(serde_json::Map<String, serde_json::Value>),
}

/// What a [`serde_json::Map`] holds.
pub uninterp spec fn map_contents(map: serde_json::Map<String, serde_json::Value>) -> Map<Seq<char>, JsonModel>;

/// An object without entries.
pub open spec fn no_entries() -> Map<Seq<char>, JsonModel> {
    Map::empty()
}

/// [`serde_json::Map::new`]: a map without entries.
#[verifier::external_body]
fn new_map() -> (r: serde_json::Map<String, serde_json::Value>)
    ensures
        map_contents(r) == no_entries(),
{
    serde_json::Map::new()
}

/// [`serde_json::Map::insert`]: adds an entry, and where the name is there
/// already, puts the value in place of the old one.
#[verifier::external_body]
fn insert_entry(map: &mut serde_json::Map<String, serde_json::Value>, name: String, value: serde_json::Value)
    ensures
        map_contents(*final(map)) == map_contents(*old(map)).insert(name@, json_contents(value)),
{
    map.insert(name, value);
}

/// What a JSON value will hold, told from its top level.
pub open spec fn json_shape_contents(shape: JsonShape) -> JsonModel {
    match shape {
        JsonShape::Null => JsonModel::Null,
        JsonShape::Bool(b) => JsonModel::Bool(b),
        JsonShape::Number(n) => JsonModel::Number(number_contents(n)),
        JsonShape::String(s) => JsonModel::String(s@),
        JsonShape::Array(items) => JsonModel::Array(array_contents(items@)),
        JsonShape::Object(map) => JsonModel::Object(map_contents(map)),
    }
}

/// Makes a [`serde_json::Value`] of its top level, variant by variant.
#[verifier::external_body]
fn close_json(shape: JsonShape) -> (r: serde_json::Value)
    ensures
        json_contents(r) == json_shape_contents(shape),
{
    match shape {
        JsonShape::Null => serde_json::Value::Null,
        JsonShape::Bool(b) => serde_json::Value::Bool(b),
        JsonShape::Number(n) => serde_json::Value::Number(n),
        JsonShape::String(s) => serde_json::Value::String(s),
        JsonShape::Array(items) => serde_json::Value::Array(items),
        JsonShape::Object(map) => serde_json::Value::Object(map),
    }
}

/// An object has finitely many names; each entry counts where no name occurs
/// twice.
proof fn lemma_object_contents(entries: Seq<(&String, &serde_json::Value)>)
    requires
        forall|i: int, j: int|
            #![trigger entries[i], entries[j]]
            0 <= i < j < entries.len() ==> entries[i].0@ != entries[j].0@,
    ensures
        object_contents(entries).dom().finite(),
        forall|i: int|
            #![trigger entries[i]]
            0 <= i < entries.len() ==> object_contents(entries).contains_key(entries[i].0@)
                && object_contents(entries)[entries[i].0@] == json_contents(*entries[i].1),
    decreases entries.len(),
{
    if entries.len() > 0 {
        let init = entries.drop_last();
        assert forall|i: int, j: int|
            #![trigger init[i], init[j]]
            0 <= i < j < init.len() implies init[i].0@ != init[j].0@ by {
            assert(entries[i] == init[i] && entries[j] == init[j]);
        }
        lemma_object_contents(init);
        assert forall|i: int|
            #![trigger entries[i]]
            0 <= i < entries.len() implies object_contents(entries).contains_key(entries[i].0@)
            && object_contents(entries)[entries[i].0@] == json_contents(*entries[i].1) by {
            if i < init.len() {
                assert(init[i] == entries[i]);
                assert(entries[i].0@ != entries[entries.len() - 1].0@);
            }
        }
    }
}

impl JsonNumber {
    /// Reads a number of `serde_json`.
    pub fn from_serde(n: &serde_json::Number) -> (r: JsonNumber)
        ensures
            r@ == number_contents(*n),
            r matches JsonNumber::Float(d) ==> is_finite(d),
    {
        if let Some(u) = n.as_u64() {
            JsonNumber::PosInt(u)
        } else if let Some(i) = n.as_i64() {
            JsonNumber::NegInt(i)
        } else {
            match number_as_double(n) {
                Some(d) => JsonNumber::Float(d),
                // Every number has a double.
                None => JsonNumber::PosInt(0),
            }
        }
    }
}

impl JsonValue {
    /// Reads a value of `serde_json`.
    pub fn from_serde(value: &serde_json::Value) -> (r: JsonValue)
        ensures
            r@ == json_contents(*value),
            is_finite_json(r),
        decreases json_contents(*value),
    {
        match open_json(value) {
            JsonParts::Null => JsonValue::Null,
            JsonParts::Bool(b) => JsonValue::Bool(b),
            JsonParts::Number(n) => JsonValue::Number(JsonNumber::from_serde(n)),
            JsonParts::String(s) => JsonValue::String(s.clone()),
            JsonParts::Array(items) => {
                let mut out: Vec<JsonValue> = Vec::new();
                let mut i: usize = 0;
                while i < items.len()
                    invariant
                        json_contents(*value) == JsonModel::Array(array_contents(items@)),
                        i <= items.len(),
                        out.len() == i,
                        forall|k: int| 0 <= k < i ==> json_model(#[trigger] out@[k]) == json_contents(items@[k]),
                        forall|k: int| 0 <= k < i ==> is_finite_json(#[trigger] out@[k]),
                    decreases items.len() - i,
                {
                    proof {
                        let all = json_contents(*value)->Array_0;
                        assert(all[i as int] == json_contents(items@[i as int]));
                        assert(decreases_to!(json_contents(*value) => json_contents(*value)->Array_0));
                        assert(decreases_to!(all => all[i as int]));
                    }
                    out.push(JsonValue::from_serde(&items[i]));
                    i += 1;
                }
                proof {
                    lemma_json_items(out@);
                    assert(json_items(out@) =~= array_contents(items@));
                }
                JsonValue::Array(out)
            },
            JsonParts::Object(entries) => {
                let mut out: Vec<(String, JsonValue)> = Vec::new();
                let mut i: usize = 0;
                proof {
                    lemma_object_contents(entries@);
                }
                while i < entries.len()
                    invariant
                        json_contents(*value) == JsonModel::Object(object_contents(entries@)),
                        object_contents(entries@).dom().finite(),
                        forall|k: int|
                            #![trigger entries@[k]]
                            0 <= k < entries@.len() ==> object_contents(entries@).contains_key(entries@[k].0@)
                                && object_contents(entries@)[entries@[k].0@] == json_contents(*entries@[k].1),
                        i <= entries.len(),
                        json_entries(out@) == object_contents(entries@.take(i as int)),
                        forall|k: int| 0 <= k < out.len() ==> is_finite_json((#[trigger] out@[k]).1),
                    decreases entries.len() - i,
                {
                    let ghost before = out@;
                    let entry = entries[i];
                    proof {
                        let all = json_contents(*value)->Object_0;
                        assert(all[entry.0@] == json_contents(*entry.1));
                        assert(decreases_to!(json_contents(*value) => json_contents(*value)->Object_0));
                        assert(decreases_to!(all => all[entry.0@]));
                    }
                    out.push((entry.0.clone(), JsonValue::from_serde(entry.1)));
                    proof {
                        assert(out@.drop_last() =~= before);
                        assert(entries@.take(i + 1).drop_last() =~= entries@.take(i as int));
                    }
                    i += 1;
                }
                assert(entries@.take(entries.len() as int) =~= entries@);
                JsonValue::Object(out)
            },
        }
    }

    /// Makes a value of `serde_json`. A double that JSON cannot write becomes
    /// null.
    pub fn to_serde(&self) -> (r: serde_json::Value)
        ensures
            json_contents(r) == written(*self),
        decreases self,
    {
        match self {
            JsonValue::Null => close_json(JsonShape::Null),
            JsonValue::Bool(b) => close_json(JsonShape::Bool(*b)),
            JsonValue::Number(JsonNumber::PosInt(u)) => close_json(JsonShape::Number(number_from_u64(*u))),
            JsonValue::Number(JsonNumber::NegInt(i)) => close_json(JsonShape::Number(number_from_i64(*i))),
            JsonValue::Number(JsonNumber::Float(d)) => match number_from_double(*d) {
                Some(n) => close_json(JsonShape::Number(n)),
                None => close_json(JsonShape::Null),
            },
            JsonValue::String(s) => close_json(JsonShape::String(s.clone())),
            JsonValue::Array(items) => {
                let mut out: Vec<serde_json::Value> = Vec::new();
                let mut i: usize = 0;
                while i < items.len()
                    invariant
                        *self == JsonValue::Array(*items),
                        i <= items.len(),
                        out.len() == i,
                        forall|k: int| 0 <= k < i ==> json_contents(#[trigger] out@[k]) == written(items@[k]),
                    decreases items.len() - i,
                {
                    assert(decreases_to!(self->Array_0 => self->Array_0@));
                    assert(decreases_to!(self->Array_0@ => self->Array_0@[i as int]));
                    out.push(items[i].to_serde());
                    i += 1;
                }
                proof {
                    lemma_written_items(items@);
                    assert(array_contents(out@) =~= written_items(items@));
                }
                close_json(JsonShape::Array(out))
            },
            JsonValue::Object(entries) => {
                let mut out = new_map();
                let mut i: usize = 0;
                while i < entries.len()
                    invariant
                        *self == JsonValue::Object(*entries),
                        i <= entries.len(),
                        map_contents(out) == written_entries(entries@.take(i as int)),
                    decreases entries.len() - i,
                {
                    let entry = &entries[i];
                    assert(decreases_to!(self->Object_0 => self->Object_0@));
                    assert(decreases_to!(self->Object_0@ => self->Object_0@[i as int]));
                    assert(decreases_to!(self->Object_0@[i as int] => self->Object_0@[i as int].1));
                    insert_entry(&mut out, entry.0.clone(), entry.1.to_serde());
                    assert(entries@.take(i + 1).drop_last() =~= entries@.take(i as int));
                    i += 1;
                }
                assert(entries@.take(entries.len() as int) =~= entries@);
                close_json(JsonShape::Object(out))
            },
        }
    }
}

/// Converts a JSON value of `serde_json` to a value of the engine.
pub fn serde_to_cel(value: &serde_json::Value) -> (r: cel::Value)
    ensures
        contents(r) == json_as_cel(json_contents(*value)),
        writable(json_contents(*value)),
{
    let json = JsonValue::from_serde(value);
    proof {
        lemma_finite_is_writable(json);
    }
    json_to_cel(&json).to_cel()
}

/// Converts a value of the engine to a JSON value of `serde_json`. Where two
/// keys of a map have the same text, which entry counts depends on the order
/// in which the map is walked.
pub fn cel_to_serde(value: &cel::Value) -> (r: serde_json::Value)
    ensures
        exists|v: CelValue| v@ == contents(*value) && json_contents(r) == #[trigger] cel_as_json(v),
{
    let v = CelValue::from_cel(value);
    let json = cel_value_to_json(&v);
    proof {
        lemma_finite_is_written(json);
    }
    let r = json.to_serde();
    assert(json_contents(r) == cel_as_json(v));
    r
}

/// A JSON value comes back unchanged from the engine.
pub proof fn law_json_survives_engine(value: serde_json::Value, inside: cel::Value, back: serde_json::Value)
    requires
        writable(json_contents(value)),
        contents(inside) == json_as_cel(json_contents(value)),
        exists|v: CelValue| v@ == contents(inside) && json_contents(back) == #[trigger] cel_as_json(v),
    ensures
        json_contents(back) == json_contents(value),
{
    let v = choose|v: CelValue| v@ == contents(inside) && json_contents(back) == #[trigger] cel_as_json(v);
    law_json_survives_cel(json_contents(value), v);
}

}
