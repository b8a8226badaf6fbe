//! JSON and CEL values, and what they hold.
use crate::double::is_finite;
use cel::common::types::CelDouble;
use vstd::prelude::*;

verus! {

/// A JSON number: a natural number, a negative integer, or a double.
#[derive(Debug, Clone, Copy, PartialEq)]
pub enum JsonNumber {
    PosInt(u64),
    NegInt(i64),
    Float(CelDouble),
}

/// A JSON value. Where a name occurs twice in an object, the later entry
/// counts.
#[derive(Debug, PartialEq)]
pub enum JsonValue {
    Null,
    Bool(bool),
    Number(JsonNumber),
    String(String),
    Array(Vec<JsonValue>),
    Object(Vec<(String, JsonValue)>),
}

/// A key of a CEL map.
#[derive(Debug, Clone, PartialEq, Eq)]
pub enum CelKey {
    Int(i64),
    Uint(u64),
    Bool(bool),
    String(String),
}

/// A CEL value. Where a key occurs twice in a map, the later entry counts.
/// What JSON has no counterpart for (bytes, durations, timestamps and the
/// like) is only known to be something else.
#[derive(Debug, PartialEq)]
pub enum CelValue {
    Null,
    Bool(bool),
    Int(i64),
    UInt(u64),
    Float(CelDouble),
    String(String),
    List(Vec<CelValue>),
    Mapping(Vec<(CelKey, CelValue)>),
    Other,
}

/// The number that a [`JsonNumber`] stands for.
pub enum NumberModel {
    Integer(int),
    Float(CelDouble),
}

/// What a [`JsonValue`] holds.
pub enum JsonModel {
    Null,
    Bool(bool),
    Number(NumberModel),
    String(Seq<char>),
    Array(Seq<JsonModel>),
    Object(Map<Seq<char>, JsonModel>),
}

/// What a [`CelKey`] holds.
pub enum KeyModel {
    Int(i64),
    Uint(u64),
    Bool(bool),
    String(Seq<char>),
}

/// What a [`CelValue`] holds.
pub enum CelModel {
    Null,
    Bool(bool),
    Int(i64),
    UInt(u64),
    Float(CelDouble),
    String(Seq<char>),
    List(Seq<CelModel>),
    Mapping(Map<KeyModel, CelModel>),
    Other,
}

impl View for JsonNumber {
    type V = NumberModel;

    open spec fn view(&self) -> NumberModel {
        match *self {
            JsonNumber::PosInt(n) => NumberModel::Integer(n as int),
            JsonNumber::NegInt(n) => NumberModel::Integer(n as int),
            JsonNumber::Float(d) => NumberModel::Float(d),
        }
    }
}

impl View for CelKey {
    type V = KeyModel;

    open spec fn view(&self) -> KeyModel {
        match *self {
            CelKey::Int(n) => KeyModel::Int(n),
            CelKey::Uint(n) => KeyModel::Uint(n),
            CelKey::Bool(b) => KeyModel::Bool(b),
            CelKey::String(s) => KeyModel::String(s@),
        }
    }
}

/// What a JSON value holds.
pub open spec fn json_model(v: JsonValue) -> JsonModel
    decreases v,
{
    match v {
        JsonValue::Null => JsonModel::Null,
        JsonValue::Bool(b) => JsonModel::Bool(b),
        JsonValue::Number(n) => JsonModel::Number(n@),
        JsonValue::String(s) => JsonModel::String(s@),
        JsonValue::Array(items) => JsonModel::Array(json_items(items@)),
        JsonValue::Object(entries) => JsonModel::Object(json_entries(entries@)),
    }
}

/// What the items of a JSON array hold, in order.
pub open spec fn json_items(items: Seq<JsonValue>) -> Seq<JsonModel>
    decreases items,
{
    if items.len() == 0 {
        seq![]
    } else {
        json_items(items.drop_last()).push(json_model(items.last()))
    }
}

/// What the entries of a JSON object hold; a later entry replaces an earlier one.
pub open spec fn json_entries(entries: Seq<(String, JsonValue)>) -> Map<Seq<char>, JsonModel>
    decreases entries,
{
    if entries.len() == 0 {
        Map::empty()
    } else {
        json_entries(entries.drop_last()).insert(entries.last().0@, json_model(entries.last().1))
    }
}

impl View for JsonValue {
    type V = JsonModel;

    open spec fn view(&self) -> JsonModel {
        json_model(*self)
    }
}

/// What a CEL value holds.
pub open spec fn cel_model(v: CelValue) -> CelModel
    decreases v,
{
    match v {
        CelValue::Null => CelModel::Null,
        CelValue::Bool(b) => CelModel::Bool(b),
        CelValue::Int(n) => CelModel::Int(n),
        CelValue::UInt(n) => CelModel::UInt(n),
        CelValue::Float(d) => CelModel::Float(d),
        CelValue::String(s) => CelModel::String(s@),
        CelValue::List(items) => CelModel::List(cel_items(items@)),
        CelValue::Mapping(entries) => CelModel::Mapping(cel_entries(entries@)),
        CelValue::Other => CelModel::Other,
    }
}

/// What the items of a CEL list hold, in order.
pub open spec fn cel_items(items: Seq<CelValue>) -> Seq<CelModel>
    decreases items,
{
    if items.len() == 0 {
        seq![]
    } else {
        cel_items(items.drop_last()).push(cel_model(items.last()))
    }
}

/// What the entries of a CEL map hold; a later entry replaces an earlier one.
pub open spec fn cel_entries(entries: Seq<(CelKey, CelValue)>) -> Map<KeyModel, CelModel>
    decreases entries,
{
    if entries.len() == 0 {
        Map::empty()
    } else {
        cel_entries(entries.drop_last()).insert(entries.last().0@, cel_model(entries.last().1))
    }
}

impl View for CelValue {
    type V = CelModel;

    open spec fn view(&self) -> CelModel {
        cel_model(*self)
    }
}

/// The models of the items of an array are those of each item.
pub proof fn lemma_json_items(items: Seq<JsonValue>)
    ensures
        json_items(items).len() == items.len(),
        forall|i: int| 0 <= i < items.len() ==> #[trigger] json_items(items)[i] == json_model(items[i]),
    decreases items.len(),
{
    if items.len() > 0 {
        lemma_json_items(items.drop_last());
    }
}

/// The models of the items of a list are those of each item.
pub proof fn lemma_cel_items(items: Seq<CelValue>)
    ensures
        cel_items(items).len() == items.len(),
        forall|i: int| 0 <= i < items.len() ==> #[trigger] cel_items(items)[i] == cel_model(items[i]),
    decreases items.len(),
{
    if items.len() > 0 {
        lemma_cel_items(items.drop_last());
    }
}

impl JsonNumber {
    /// The number as an `i64`, where it is an integer that fits.
    pub fn as_i64(&self) -> (r: Option<i64>)
        ensures
            r == match self@ {
                NumberModel::Integer(n) => if i64::MIN <= n <= i64::MAX {
                    Some(n as i64)
                } else {
                    None
                },
                NumberModel::Float(d) => None,
            },
    {
        match *self {
            JsonNumber::PosInt(n) => if n <= i64::MAX as u64 {
                Some(n as i64)
            } else {
                None
            },
            JsonNumber::NegInt(n) => Some(n),
            JsonNumber::Float(_) => None,
        }
    }

    /// The number as a `u64`, where it is an integer that fits.
    pub fn as_u64(&self) -> (r: Option<u64>)
        ensures
            r == match self@ {
                NumberModel::Integer(n) => if 0 <= n <= u64::MAX {
                    Some(n as u64)
                } else {
                    None
                },
                NumberModel::Float(d) => None,
            },
    {
        match *self {
            JsonNumber::PosInt(n) => Some(n),
            JsonNumber::NegInt(n) => if n >= 0 {
                Some(n as u64)
            } else {
                None
            },
            JsonNumber::Float(_) => None,
        }
    }
}

impl Clone for JsonValue {
    fn clone(&self) -> (r: Self)
        ensures
            r@ == self@,
        decreases self,
    {
        match self {
            JsonValue::Null => JsonValue::Null,
            JsonValue::Bool(b) => JsonValue::Bool(*b),
            JsonValue::Number(n) => JsonValue::Number(*n),
            JsonValue::String(s) => JsonValue::String(s.clone()),
            JsonValue::Array(items) => {
                let mut out: Vec<JsonValue> = Vec::new();
                let mut i: usize = 0;
                while i < items.len()
                    invariant
                        *self == JsonValue::Array(*items),
                        i <= items.len(),
                        out.len() == i,
                        forall|k: int| 0 <= k < i ==> json_model(#[trigger] out@[k]) == json_model(items@[k]),
                    decreases items.len() - i,
                {
                    assert(decreases_to!(self->Array_0 => self->Array_0@));
                    assert(decreases_to!(self->Array_0@ => self->Array_0@[i as int]));
                    out.push(items[i].clone());
                    i += 1;
                }
                proof {
                    lemma_json_items(items@);
                    lemma_json_items(out@);
                    assert(json_items(out@) =~= json_items(items@));
                }
                JsonValue::Array(out)
            },
            JsonValue::Object(entries) => {
                let mut out: Vec<(String, JsonValue)> = Vec::new();
                let mut i: usize = 0;
                while i < entries.len()
                    invariant
                        *self == JsonValue::Object(*entries),
                        i <= entries.len(),
                        json_entries(out@) == json_entries(entries@.take(i as int)),
                    decreases entries.len() - i,
                {
                    let ghost before = out@;
                    let entry = &entries[i];
                    assert(decreases_to!(self->Object_0 => self->Object_0@));
                    assert(decreases_to!(self->Object_0@ => self->Object_0@[i as int]));
                    assert(decreases_to!(self->Object_0@[i as int] => self->Object_0@[i as int].1));
                    out.push((entry.0.clone(), entry.1.clone()));
                    proof {
                        assert(out@.drop_last() =~= before);
                        assert(entries@.take(i + 1).drop_last() =~= entries@.take(i as int));
                    }
                    i += 1;
                }
                assert(entries@.take(entries.len() as int) =~= entries@);
                JsonValue::Object(out)
            },
        }
    }
}

/// A CEL value that is made of null, booleans, numbers, strings, lists and
/// maps alone.
pub open spec fn is_data(v: CelValue) -> bool
    decreases v,
{
    match v {
        CelValue::List(items) => forall|i: int| 0 <= i < items@.len() ==> is_data(#[trigger] items@[i]),
        CelValue::Mapping(entries) => forall|i: int|
            0 <= i < entries@.len() ==> is_data((#[trigger] entries@[i]).1),
        CelValue::Other => false,
        _ => true,
    }
}

/// The contents of a CEL value that is made of null, booleans, numbers,
/// strings, lists and maps alone.
pub open spec fn plain(m: CelModel) -> bool
    decreases m,
{
    match m {
        CelModel::List(items) => forall|i: int| 0 <= i < items.len() ==> plain(#[trigger] items[i]),
        CelModel::Mapping(entries) => forall|k: KeyModel| #[trigger]
            entries.contains_key(k) ==> plain(entries[k]),
        CelModel::Other => false,
        _ => true,
    }
}

/// The entry that counts for a key of a map.
proof fn lemma_entry_of_key(entries: Seq<(CelKey, CelValue)>, key: KeyModel)
    requires
        cel_entries(entries).contains_key(key),
    ensures
        exists|i: int|
            #![trigger entries[i]]
            0 <= i < entries.len() && cel_entries(entries)[key] == cel_model(entries[i].1),
    decreases entries.len(),
{
    let last = entries.last();
    if last.0@ == key {
        assert(entries[entries.len() - 1] == last);
    } else {
        let init = entries.drop_last();
        lemma_entry_of_key(init, key);
        let i = choose|i: int|
            #![trigger init[i]]
            0 <= i < init.len() && cel_entries(init)[key] == cel_model(init[i].1);
        assert(entries[i] == init[i]);
    }
}

/// Data holds plain contents.
pub proof fn lemma_data_is_plain(v: CelValue)
    requires
        is_data(v),
    ensures
        plain(v@),
    decreases v,
{
    match v {
        CelValue::List(list) => {
            let items = v->List_0@;
            lemma_cel_items(items);
            assert forall|i: int| 0 <= i < items.len() implies plain(#[trigger] cel_items(items)[i]) by {
                assert(decreases_to!(v->List_0 => items));
                assert(decreases_to!(items => items[i]));
                lemma_data_is_plain(items[i]);
            }
        },
        CelValue::Mapping(map) => {
            let entries = v->Mapping_0@;
            assert forall|k: KeyModel| #[trigger] cel_entries(entries).contains_key(k) implies plain(
                cel_entries(entries)[k],
            ) by {
                lemma_entry_of_key(entries, k);
                let i = choose|i: int|
                    #![trigger entries[i]]
                    0 <= i < entries.len() && cel_entries(entries)[k] == cel_model(entries[i].1);
                assert(decreases_to!(v->Mapping_0 => entries));
                assert(decreases_to!(entries => entries[i]));
                assert(decreases_to!(entries[i] => entries[i].1));
                lemma_data_is_plain(entries[i].1);
            }
        },
        _ => {},
    }
}

/// A value that JSON can write: its integers fit 64 bits and its doubles are finite.
pub open spec fn writable(j: JsonModel) -> bool
    decreases j,
{
    match j {
        JsonModel::Number(NumberModel::Integer(n)) => i64::MIN <= n <= u64::MAX,
        JsonModel::Number(NumberModel::Float(d)) => is_finite(d),
        JsonModel::Array(items) => forall|i: int| 0 <= i < items.len() ==> writable(#[trigger] items[i]),
        JsonModel::Object(entries) => forall|k: Seq<char>|
            #[trigger] entries.contains_key(k) ==> writable(entries[k]),
        _ => true,
    }
}

/// A JSON value with no other doubles than finite ones.
pub open spec fn is_finite_json(v: JsonValue) -> bool
    decreases v,
{
    match v {
        JsonValue::Number(JsonNumber::Float(d)) => is_finite(d),
        JsonValue::Array(items) => forall|i: int| 0 <= i < items@.len() ==> is_finite_json(#[trigger] items@[i]),
        JsonValue::Object(entries) => forall|i: int|
            0 <= i < entries@.len() ==> is_finite_json((#[trigger] entries@[i]).1),
        _ => true,
    }
}

/// The entry that counts for a name of an object.
proof fn lemma_entry_of_name(entries: Seq<(String, JsonValue)>, name: Seq<char>)
    requires
        json_entries(entries).contains_key(name),
    ensures
        exists|i: int|
            #![trigger entries[i]]
            0 <= i < entries.len() && json_entries(entries)[name] == json_model(entries[i].1),
    decreases entries.len(),
{
    let last = entries.last();
    if last.0@ == name {
        assert(entries[entries.len() - 1] == last);
    } else {
        let init = entries.drop_last();
        lemma_entry_of_name(init, name);
        let i = choose|i: int|
            #![trigger init[i]]
            0 <= i < init.len() && json_entries(init)[name] == json_model(init[i].1);
        assert(entries[i] == init[i]);
    }
}

/// JSON can write a value with no other doubles than finite ones.
pub proof fn lemma_finite_is_writable(v: JsonValue)
    requires
        is_finite_json(v),
    ensures
        writable(v@),
    decreases v,
{
    match v {
        JsonValue::Array(list) => {
            let items = v->Array_0@;
            lemma_json_items(items);
            assert forall|i: int| 0 <= i < items.len() implies writable(#[trigger] json_items(items)[i]) by {
                assert(decreases_to!(v->Array_0 => items));
                assert(decreases_to!(items => items[i]));
                lemma_finite_is_writable(items[i]);
            }
        },
        JsonValue::Object(map) => {
            let entries = v->Object_0@;
            assert forall|k: Seq<char>| #[trigger] json_entries(entries).contains_key(k) implies writable(
                json_entries(entries)[k],
            ) by {
                lemma_entry_of_name(entries, k);
                let i = choose|i: int|
                    #![trigger entries[i]]
                    0 <= i < entries.len() && json_entries(entries)[k] == json_model(entries[i].1);
                assert(decreases_to!(v->Object_0 => entries));
                assert(decreases_to!(entries => entries[i]));
                assert(decreases_to!(entries[i] => entries[i].1));
                lemma_finite_is_writable(entries[i].1);
            }
        },
        _ => {},
    }
}

/// A JSON value as it is written: a double that JSON cannot write becomes
/// null.
pub open spec fn written(v: JsonValue) -> JsonModel
    decreases v,
{
    match v {
        JsonValue::Null => JsonModel::Null,
        JsonValue::Bool(b) => JsonModel::Bool(b),
        JsonValue::Number(JsonNumber::Float(d)) => if is_finite(d) {
            JsonModel::Number(NumberModel::Float(d))
        } else {
            JsonModel::Null
        },
        JsonValue::Number(n) => JsonModel::Number(n@),
        JsonValue::String(s) => JsonModel::String(s@),
        JsonValue::Array(items) => JsonModel::Array(written_items(items@)),
        JsonValue::Object(entries) => JsonModel::Object(written_entries(entries@)),
    }
}

/// The items of an array as they are written, in order.
pub open spec fn written_items(items: Seq<JsonValue>) -> Seq<JsonModel>
    decreases items,
{
    if items.len() == 0 {
        seq![]
    } else {
        written_items(items.drop_last()).push(written(items.last()))
    }
}

/// The entries of an object as they are written; a later entry replaces an
/// earlier one.
pub open spec fn written_entries(entries: Seq<(String, JsonValue)>) -> Map<Seq<char>, JsonModel>
    decreases entries,
{
    if entries.len() == 0 {
        Map::empty()
    } else {
        written_entries(entries.drop_last()).insert(entries.last().0@, written(entries.last().1))
    }
}

/// The items of an array are written one by one.
pub proof fn lemma_written_items(items: Seq<JsonValue>)
    ensures
        written_items(items).len() == items.len(),
        forall|i: int| 0 <= i < items.len() ==> #[trigger] written_items(items)[i] == written(items[i]),
    decreases items.len(),
{
    if items.len() > 0 {
        lemma_written_items(items.drop_last());
    }
}

/// The entries of an object are written as they are where their values are.
proof fn lemma_written_entries(entries: Seq<(String, JsonValue)>)
    requires
        forall|i: int| 0 <= i < entries.len() ==> written((#[trigger] entries[i]).1) == json_model(entries[i].1),
    ensures
        written_entries(entries) == json_entries(entries),
    decreases entries.len(),
{
    if entries.len() > 0 {
        let init = entries.drop_last();
        assert forall|i: int| 0 <= i < init.len() implies written((#[trigger] init[i]).1) == json_model(
            init[i].1,
        ) by {
            assert(init[i] == entries[i]);
        }
        lemma_written_entries(init);
        assert(entries[entries.len() - 1] == entries.last());
    }
}

/// A value with no other doubles than finite ones is written as it is.
pub proof fn lemma_finite_is_written(v: JsonValue)
    requires
        is_finite_json(v),
    ensures
        written(v) == v@,
    decreases v,
{
    match v {
        JsonValue::Array(list) => {
            let items = v->Array_0@;
            lemma_json_items(items);
            lemma_written_items(items);
            assert forall|i: int| 0 <= i < items.len() implies written_items(items)[i] == json_items(items)[i] by {
                assert(decreases_to!(v->Array_0 => items));
                assert(decreases_to!(items => items[i]));
                lemma_finite_is_written(items[i]);
            }
            assert(written_items(items) =~= json_items(items));
        },
        JsonValue::Object(map) => {
            let entries = v->Object_0@;
            assert forall|i: int| 0 <= i < entries.len() implies written((#[trigger] entries[i]).1) == json_model(
                entries[i].1,
            ) by {
                assert(decreases_to!(v->Object_0 => entries));
                assert(decreases_to!(entries => entries[i]));
                assert(decreases_to!(entries[i] => entries[i].1));
                lemma_finite_is_written(entries[i].1);
            }
            lemma_written_entries(entries);
        },
        _ => {},
    }
}

/// What JSON can write is written as it is, and a double that it cannot write
/// as null, however deep they stand.
pub proof fn law_written_kinds(v: JsonValue)
    ensures
        match v {
            JsonValue::Null => written(v) == JsonModel::Null,
            JsonValue::Bool(b) => written(v) == JsonModel::Bool(b),
            JsonValue::Number(JsonNumber::PosInt(n)) => written(v) == JsonModel::Number(NumberModel::Integer(n as int)),
            JsonValue::Number(JsonNumber::NegInt(n)) => written(v) == JsonModel::Number(NumberModel::Integer(n as int)),
            JsonValue::Number(JsonNumber::Float(d)) => {
                &&& is_finite(d) ==> written(v) == JsonModel::Number(NumberModel::Float(d))
                &&& !is_finite(d) ==> written(v) == JsonModel::Null
            },
            JsonValue::String(s) => written(v) == JsonModel::String(s@),
            JsonValue::Array(items) => {
                &&& written(v) matches JsonModel::Array(out)
                &&& out.len() == items@.len()
                &&& forall|i: int| 0 <= i < items@.len() ==> #[trigger] out[i] == written(items@[i])
            },
            JsonValue::Object(entries) => written(v) == JsonModel::Object(written_entries(entries@)),
        },
{
    if let JsonValue::Array(items) = v {
        lemma_written_items(items@);
    }
}

/// An entry at the end of an object counts for its name and changes nothing
/// else, as it is held and as it is written.
pub proof fn law_json_entries(entries: Seq<(String, JsonValue)>, entry: (String, JsonValue), name: Seq<char>)
    ensures
        json_entries(entries.push(entry)).contains_key(entry.0@),
        json_entries(entries.push(entry))[entry.0@] == entry.1@,
        written_entries(entries.push(entry)).contains_key(entry.0@),
        written_entries(entries.push(entry))[entry.0@] == written(entry.1),
        name != entry.0@ ==> json_entries(entries.push(entry)).contains_key(name) == json_entries(entries).contains_key(
            name,
        ) && json_entries(entries.push(entry))[name] == json_entries(entries)[name],
        name != entry.0@ ==> written_entries(entries.push(entry)).contains_key(name) == written_entries(
            entries,
        ).contains_key(name) && written_entries(entries.push(entry))[name] == written_entries(entries)[name],
        !json_entries(seq![]).contains_key(name) && !written_entries(seq![]).contains_key(name),
{
    assert(entries.push(entry).drop_last() =~= entries);
}

/// An entry at the end of a CEL map counts for its key and changes nothing
/// else.
pub proof fn law_map_entries(entries: Seq<(CelKey, CelValue)>, entry: (CelKey, CelValue), key: KeyModel)
    ensures
        cel_entries(entries.push(entry)).contains_key(entry.0@),
        cel_entries(entries.push(entry))[entry.0@] == entry.1@,
        key != entry.0@ ==> cel_entries(entries.push(entry)).contains_key(key) == cel_entries(entries).contains_key(
            key,
        ) && cel_entries(entries.push(entry))[key] == cel_entries(entries)[key],
        !cel_entries(seq![]).contains_key(key),
{
    assert(entries.push(entry).drop_last() =~= entries);
}

/// A JSON value holds what it is made of, item by item.
pub proof fn law_json_models(v: JsonValue)
    ensures
        match v {
            JsonValue::Null => v@ == JsonModel::Null,
            JsonValue::Bool(b) => v@ == JsonModel::Bool(b),
            JsonValue::Number(JsonNumber::PosInt(n)) => v@ == JsonModel::Number(NumberModel::Integer(n as int)),
            JsonValue::Number(JsonNumber::NegInt(n)) => v@ == JsonModel::Number(NumberModel::Integer(n as int)),
            JsonValue::Number(JsonNumber::Float(d)) => v@ == JsonModel::Number(NumberModel::Float(d)),
            JsonValue::String(s) => v@ == JsonModel::String(s@),
            JsonValue::Array(items) => {
                &&& v@ matches JsonModel::Array(held)
                &&& held.len() == items@.len()
                &&& forall|i: int| 0 <= i < items@.len() ==> #[trigger] held[i] == items@[i]@
            },
            JsonValue::Object(entries) => v@ == JsonModel::Object(json_entries(entries@)),
        },
{
    if let JsonValue::Array(items) = v {
        lemma_json_items(items@);
    }
}

/// A CEL value holds what it is made of, item by item.
pub proof fn law_cel_models(v: CelValue, k: CelKey)
    ensures
        match v {
            CelValue::Null => v@ == CelModel::Null,
            CelValue::Bool(b) => v@ == CelModel::Bool(b),
            CelValue::Int(n) => v@ == CelModel::Int(n),
            CelValue::UInt(n) => v@ == CelModel::UInt(n),
            CelValue::Float(d) => v@ == CelModel::Float(d),
            CelValue::String(s) => v@ == CelModel::String(s@),
            CelValue::List(items) => {
                &&& v@ matches CelModel::List(held)
                &&& held.len() == items@.len()
                &&& forall|i: int| 0 <= i < items@.len() ==> #[trigger] held[i] == items@[i]@
            },
            CelValue::Mapping(entries) => v@ == CelModel::Mapping(cel_entries(entries@)),
            CelValue::Other => v@ == CelModel::Other,
        },
        match k {
            CelKey::Int(n) => k@ == KeyModel::Int(n),
            CelKey::Uint(n) => k@ == KeyModel::Uint(n),
            CelKey::Bool(b) => k@ == KeyModel::Bool(b),
            CelKey::String(s) => k@ == KeyModel::String(s@),
        },
{
    if let CelValue::List(items) = v {
        lemma_cel_items(items@);
    }
}

}
