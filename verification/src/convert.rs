//! The conversions between JSON values, CEL values and text.
use crate::double::{finite, fixed_two, fixed_two_text, is_finite};
use crate::text::{decimal, is_plain_decimal, is_plain_signed, law_decimal_is_plain, law_signed_decimal_is_plain};
use crate::text::{law_truth_words, signed_decimal, signed_text, truth, truth_text, unsigned_text};
use crate::value::{cel_entries, cel_items, cel_model, is_data, is_finite_json, json_entries, json_items};
use crate::value::{json_model, lemma_cel_items, lemma_json_items, writable, CelKey, CelModel, CelValue};
use crate::value::{JsonModel, JsonNumber, JsonValue, KeyModel, NumberModel};
use vstd::prelude::*;

verus! {

/// A JSON number as a CEL value: an `int` where it fits, else a `uint`, else
/// a `double`.
pub open spec fn number_as_cel(n: NumberModel) -> CelModel {
    match n {
        NumberModel::Integer(i) => if i64::MIN <= i <= i64::MAX {
            CelModel::Int(i as i64)
        } else if 0 <= i <= u64::MAX {
            CelModel::UInt(i as u64)
        } else {
            CelModel::Null
        },
        NumberModel::Float(d) => CelModel::Float(d),
    }
}

/// A JSON value as a CEL value.
pub open spec fn json_as_cel(j: JsonModel) -> CelModel
    decreases j,
{
    match j {
        JsonModel::Null => CelModel::Null,
        JsonModel::Bool(b) => CelModel::Bool(b),
        JsonModel::Number(n) => number_as_cel(n),
        JsonModel::String(s) => CelModel::String(s),
        JsonModel::Array(items) => CelModel::List(
            Seq::new(
                items.len(),
                |i: int|
                    if 0 <= i < items.len() {
                        json_as_cel(items[i])
                    } else {
                        CelModel::Null
                    },
            ),
        ),
        JsonModel::Object(entries) => CelModel::Mapping(
            Map::new(
                |k: KeyModel| k is String && entries.contains_key(k->String_0),
                |k: KeyModel|
                    if entries.contains_key(k->String_0) {
                        json_as_cel(entries[k->String_0])
                    } else {
                        CelModel::Null
                    },
            ),
        ),
    }
}

/// The entries of a JSON object as those of a CEL map.
pub open spec fn object_as_cel(entries: Map<Seq<char>, JsonModel>) -> Map<KeyModel, CelModel> {
    json_as_cel(JsonModel::Object(entries))->Mapping_0
}

/// Adding an entry before the conversion adds the converted entry after it.
proof fn lemma_object_insert(entries: Map<Seq<char>, JsonModel>, name: Seq<char>, value: JsonModel)
    ensures
        object_as_cel(entries.insert(name, value)) == object_as_cel(entries).insert(
            KeyModel::String(name),
            json_as_cel(value),
        ),
{
    let after = object_as_cel(entries.insert(name, value));
    let expected = object_as_cel(entries).insert(KeyModel::String(name), json_as_cel(value));
    assert forall|k: KeyModel| after.contains_key(k) implies after[k] == expected[k] by {
        if k->String_0 == name {
            assert(k == KeyModel::String(name));
        }
    }
    assert(after =~= expected);
}

/// Converts a JSON value to a CEL value.
pub fn json_to_cel(value: &JsonValue) -> (r: CelValue)
    ensures
        r@ == json_as_cel(value@),
        is_data(r),
    decreases value,
{
    match value {
        JsonValue::Null => CelValue::Null,
        JsonValue::Bool(b) => CelValue::Bool(*b),
        JsonValue::Number(n) => {
            if let Some(i) = n.as_i64() {
                CelValue::Int(i)
            } else if let Some(u) = n.as_u64() {
                CelValue::UInt(u)
            } else if let JsonNumber::Float(d) = n {
                CelValue::Float(*d)
            } else {
                CelValue::Null
            }
        },
        JsonValue::String(s) => CelValue::String(s.clone()),
        JsonValue::Array(items) => {
            let mut out: Vec<CelValue> = Vec::new();
            let mut i: usize = 0;
            while i < items.len()
                invariant
                    *value == JsonValue::Array(*items),
                    i <= items.len(),
                    out.len() == i,
                    forall|k: int| 0 <= k < i ==> cel_model(#[trigger] out@[k]) == json_as_cel(json_model(items@[k])),
                    forall|k: int| 0 <= k < i ==> is_data(#[trigger] out@[k]),
                decreases items.len() - i,
            {
                assert(decreases_to!(value->Array_0 => value->Array_0@));
                assert(decreases_to!(value->Array_0@ => value->Array_0@[i as int]));
                out.push(json_to_cel(&items[i]));
                i += 1;
            }
            proof {
                lemma_json_items(items@);
                lemma_cel_items(out@);
                assert(cel_items(out@) =~= json_as_cel(value@)->List_0);
            }
            CelValue::List(out)
        },
        JsonValue::Object(entries) => {
            let mut out: Vec<(CelKey, CelValue)> = Vec::new();
            let mut i: usize = 0;
            assert(cel_entries(out@) =~= object_as_cel(json_entries(entries@.take(0))));
            while i < entries.len()
                invariant
                    *value == JsonValue::Object(*entries),
                    i <= entries.len(),
                    cel_entries(out@) == object_as_cel(json_entries(entries@.take(i as int))),
                    forall|k: int| 0 <= k < out.len() ==> is_data((#[trigger] out@[k]).1),
                decreases entries.len() - i,
            {
                let ghost before = out@;
                let entry = &entries[i];
                assert(decreases_to!(value->Object_0 => value->Object_0@));
                assert(decreases_to!(value->Object_0@ => value->Object_0@[i as int]));
                assert(decreases_to!(value->Object_0@[i as int] => value->Object_0@[i as int].1));
                out.push((CelKey::String(entry.0.clone()), json_to_cel(&entry.1)));
                proof {
                    assert(out@.drop_last() =~= before);
                    assert(entries@.take(i + 1).drop_last() =~= entries@.take(i as int));
                    lemma_object_insert(json_entries(entries@.take(i as int)), entry.0@, json_model(entry.1));
                }
                i += 1;
            }
            assert(entries@.take(entries.len() as int) =~= entries@);
            CelValue::Mapping(out)
        },
    }
}

/// A key of a CEL map as the name of a JSON object's entry.
pub open spec fn key_text(k: KeyModel) -> Seq<char> {
    match k {
        KeyModel::String(s) => s,
        KeyModel::Int(n) => signed_decimal(n as int),
        KeyModel::Uint(n) => decimal(n as nat),
        KeyModel::Bool(b) => truth(b),
    }
}

/// A CEL value as a JSON value. A double that JSON cannot write, and what
/// JSON has no counterpart for, become null; where two keys of a map have the
/// same text, the later entry counts.
pub open spec fn cel_as_json(v: CelValue) -> JsonModel
    decreases v,
{
    match v {
        CelValue::Null => JsonModel::Null,
        CelValue::Bool(b) => JsonModel::Bool(b),
        CelValue::Int(n) => JsonModel::Number(NumberModel::Integer(n as int)),
        CelValue::UInt(n) => JsonModel::Number(NumberModel::Integer(n as int)),
        CelValue::Float(d) => if is_finite(d) {
            JsonModel::Number(NumberModel::Float(d))
        } else {
            JsonModel::Null
        },
        CelValue::String(s) => JsonModel::String(s@),
        CelValue::List(items) => JsonModel::Array(cel_items_as_json(items@)),
        CelValue::Mapping(entries) => JsonModel::Object(cel_entries_as_json(entries@)),
        CelValue::Other => JsonModel::Null,
    }
}

/// The items of a CEL list as JSON values, in order.
pub open spec fn cel_items_as_json(items: Seq<CelValue>) -> Seq<JsonModel>
    decreases items,
{
    if items.len() == 0 {
        seq![]
    } else {
        cel_items_as_json(items.drop_last()).push(cel_as_json(items.last()))
    }
}

/// The entries of a CEL map as those of a JSON object.
pub open spec fn cel_entries_as_json(entries: Seq<(CelKey, CelValue)>) -> Map<Seq<char>, JsonModel>
    decreases entries,
{
    if entries.len() == 0 {
        Map::empty()
    } else {
        cel_entries_as_json(entries.drop_last()).insert(
            key_text(entries.last().0@),
            cel_as_json(entries.last().1),
        )
    }
}

/// The items of a list become those of an array one by one.
pub proof fn lemma_cel_items_as_json(items: Seq<CelValue>)
    ensures
        cel_items_as_json(items).len() == items.len(),
        forall|i: int| 0 <= i < items.len() ==> #[trigger] cel_items_as_json(items)[i] == cel_as_json(items[i]),
    decreases items.len(),
{
    if items.len() > 0 {
        lemma_cel_items_as_json(items.drop_last());
    }
}

/// A key of a CEL map as text.
fn key_to_text(key: &CelKey) -> (r: String)
    ensures
        r@ == key_text(key@),
{
    match key {
        CelKey::String(s) => s.clone(),
        CelKey::Int(n) => signed_text(*n),
        CelKey::Uint(n) => unsigned_text(*n),
        CelKey::Bool(b) => truth_text(*b),
    }
}

/// Converts a CEL value to a JSON value.
pub fn cel_value_to_json(value: &CelValue) -> (r: JsonValue)
    ensures
        r@ == cel_as_json(*value),
        is_finite_json(r),
    decreases value,
{
    match value {
        CelValue::Null => JsonValue::Null,
        CelValue::Bool(b) => JsonValue::Bool(*b),
        CelValue::Int(n) => JsonValue::Number(
            if *n < 0 {
                JsonNumber::NegInt(*n)
            } else {
                JsonNumber::PosInt(*n as u64)
            },
        ),
        CelValue::UInt(n) => JsonValue::Number(JsonNumber::PosInt(*n)),
        CelValue::Float(d) => if finite(d) {
            JsonValue::Number(JsonNumber::Float(*d))
        } else {
            JsonValue::Null
        },
        CelValue::String(s) => JsonValue::String(s.clone()),
        CelValue::List(items) => {
            let mut out: Vec<JsonValue> = Vec::new();
            let mut i: usize = 0;
            while i < items.len()
                invariant
                    *value == CelValue::List(*items),
                    i <= items.len(),
                    out.len() == i,
                    forall|k: int| 0 <= k < i ==> json_model(#[trigger] out@[k]) == cel_as_json(items@[k]),
                    forall|k: int| 0 <= k < i ==> is_finite_json(#[trigger] out@[k]),
                decreases items.len() - i,
            {
                assert(decreases_to!(value->List_0 => value->List_0@));
                assert(decreases_to!(value->List_0@ => value->List_0@[i as int]));
                out.push(cel_value_to_json(&items[i]));
                i += 1;
            }
            proof {
                lemma_json_items(out@);
                lemma_cel_items_as_json(items@);
                assert(json_items(out@) =~= cel_items_as_json(items@));
            }
            JsonValue::Array(out)
        },
        CelValue::Mapping(entries) => {
            let mut out: Vec<(String, JsonValue)> = Vec::new();
            let mut i: usize = 0;
            while i < entries.len()
                invariant
                    *value == CelValue::Mapping(*entries),
                    i <= entries.len(),
                    json_entries(out@) == cel_entries_as_json(entries@.take(i as int)),
                    forall|k: int| 0 <= k < out.len() ==> is_finite_json((#[trigger] out@[k]).1),
                decreases entries.len() - i,
            {
                let ghost before = out@;
                let entry = &entries[i];
                assert(decreases_to!(value->Mapping_0 => value->Mapping_0@));
                assert(decreases_to!(value->Mapping_0@ => value->Mapping_0@[i as int]));
                assert(decreases_to!(value->Mapping_0@[i as int] => value->Mapping_0@[i as int].1));
                out.push((key_to_text(&entry.0), cel_value_to_json(&entry.1)));
                proof {
                    assert(out@.drop_last() =~= before);
                    assert(entries@.take(i + 1).drop_last() =~= entries@.take(i as int));
                }
                i += 1;
            }
            assert(entries@.take(entries.len() as int) =~= entries@);
            JsonValue::Object(out)
        },
        CelValue::Other => JsonValue::Null,
    }
}

/// A scalar CEL value as text: a double has two digits after the point, null
/// is empty. Lists, maps and the rest have no text.
pub open spec fn scalar_text(v: CelModel) -> Option<Seq<char>> {
    match v {
        CelModel::String(s) => Some(s),
        CelModel::Int(n) => Some(signed_decimal(n as int)),
        CelModel::UInt(n) => Some(decimal(n as nat)),
        CelModel::Float(d) => Some(fixed_two(d)),
        CelModel::Bool(b) => Some(truth(b)),
        CelModel::Null => Some(seq![]),
        _ => None,
    }
}

/// Renders a scalar CEL value as text.
pub fn cel_value_to_string(value: &CelValue) -> (r: Option<String>)
    ensures
        match r {
            Some(text) => scalar_text(value@) == Some(text@),
            None => scalar_text(value@) is None,
        },
{
    match value {
        CelValue::String(s) => Some(s.clone()),
        CelValue::Int(n) => Some(signed_text(*n)),
        CelValue::UInt(n) => Some(unsigned_text(*n)),
        CelValue::Float(d) => Some(fixed_two_text(d)),
        CelValue::Bool(b) => Some(truth_text(*b)),
        CelValue::Null => Some(String::new()),
        CelValue::List(_) | CelValue::Mapping(_) | CelValue::Other => None,
    }
}

/// No two keys of a map have the same text, nor those of a map inside.
pub open spec fn distinct_texts(m: CelModel) -> bool
    decreases m,
{
    match m {
        CelModel::List(items) => forall|i: int| 0 <= i < items.len() ==> distinct_texts(#[trigger] items[i]),
        CelModel::Mapping(entries) => {
            &&& texts_differ(entries)
            &&& forall|k: KeyModel| #[trigger] entries.contains_key(k) ==> distinct_texts(entries[k])
        },
        _ => true,
    }
}

/// No two keys have the same text.
pub open spec fn texts_differ(entries: Map<KeyModel, CelModel>) -> bool {
    forall|j: KeyModel, k: KeyModel| #[trigger]
        entries.contains_key(j) && #[trigger] entries.contains_key(k) && key_text(j) == key_text(k) ==> j == k
}

/// Where no two keys have the same text, the entry that counts for a key
/// counts for its text.
proof fn lemma_entry_that_counts(entries: Seq<(CelKey, CelValue)>, key: KeyModel)
    requires
        texts_differ(cel_entries(entries)),
        cel_entries(entries).contains_key(key),
    ensures
        cel_entries_as_json(entries).contains_key(key_text(key)),
        exists|i: int|
            #![trigger entries[i]]
            {
                &&& 0 <= i < entries.len()
                &&& cel_entries(entries)[key] == cel_model(entries[i].1)
                &&& cel_entries_as_json(entries)[key_text(key)] == cel_as_json(entries[i].1)
            },
    decreases entries.len(),
{
    let init = entries.drop_last();
    let last = entries.last();
    assert(cel_entries(entries).contains_key(last.0@));
    if last.0@ == key {
        assert(entries[entries.len() - 1] == last);
    } else {
        assert(key_text(last.0@) != key_text(key));
        assert forall|j: KeyModel, k: KeyModel| #[trigger]
            cel_entries(init).contains_key(j) && #[trigger] cel_entries(init).contains_key(k) && key_text(j)
                == key_text(k) implies j == k by {
            assert(cel_entries(entries).contains_key(j) && cel_entries(entries).contains_key(k));
        }
        lemma_entry_that_counts(init, key);
        let i = choose|i: int|
            #![trigger init[i]]
            {
                &&& 0 <= i < init.len()
                &&& cel_entries(init)[key] == cel_model(init[i].1)
                &&& cel_entries_as_json(init)[key_text(key)] == cel_as_json(init[i].1)
            };
        assert(entries[i] == init[i]);
    }
}

/// Every name of the JSON object is the text of a key.
proof fn lemma_name_of_key(entries: Seq<(CelKey, CelValue)>, name: Seq<char>)
    requires
        cel_entries_as_json(entries).contains_key(name),
    ensures
        exists|k: KeyModel| #[trigger] cel_entries(entries).contains_key(k) && key_text(k) == name,
    decreases entries.len(),
{
    let init = entries.drop_last();
    let last = entries.last();
    assert(cel_entries(entries).contains_key(last.0@));
    if key_text(last.0@) != name {
        lemma_name_of_key(init, name);
        let k = choose|k: KeyModel| #[trigger] cel_entries(init).contains_key(k) && key_text(k) == name;
        assert(cel_entries(entries).contains_key(k));
    }
}

/// The JSON form depends on what a value holds alone, and not on the order of
/// its entries, where no two keys of a map have the same text.
pub proof fn law_order_makes_no_difference(v: CelValue, w: CelValue)
    requires
        v@ == w@,
        distinct_texts(v@),
    ensures
        cel_as_json(v) == cel_as_json(w),
    decreases v,
{
    match v {
        CelValue::List(list) => {
            let items = v->List_0@;
            let others = w->List_0@;
            lemma_cel_items(items);
            lemma_cel_items(others);
            lemma_cel_items_as_json(items);
            lemma_cel_items_as_json(others);
            assert forall|i: int| 0 <= i < items.len() implies cel_items_as_json(items)[i] == cel_items_as_json(
                others,
            )[i] by {
                assert(v@->List_0 == cel_items(items));
                assert(distinct_texts(v@->List_0[i]));
                assert(cel_items(items)[i] == cel_items(others)[i]);
                assert(decreases_to!(v->List_0 => items));
                assert(decreases_to!(items => items[i]));
                law_order_makes_no_difference(items[i], others[i]);
            }
            assert(cel_items(items).len() == cel_items(others).len());
            assert(cel_items_as_json(items) =~= cel_items_as_json(others));
        },
        CelValue::Mapping(map) => {
            let entries = v->Mapping_0@;
            let others = w->Mapping_0@;
            let model = cel_entries(entries);
            let one = cel_entries_as_json(entries);
            let two = cel_entries_as_json(others);
            assert forall|name: Seq<char>| one.contains_key(name) == two.contains_key(name) by {
                if one.contains_key(name) {
                    lemma_name_of_key(entries, name);
                    let k = choose|k: KeyModel| #[trigger] model.contains_key(k) && key_text(k) == name;
                    lemma_entry_that_counts(others, k);
                }
                if two.contains_key(name) {
                    lemma_name_of_key(others, name);
                    let k = choose|k: KeyModel| #[trigger] model.contains_key(k) && key_text(k) == name;
                    lemma_entry_that_counts(entries, k);
                }
            }
            assert forall|name: Seq<char>| one.contains_key(name) implies one[name] == two[name] by {
                lemma_name_of_key(entries, name);
                let k = choose|k: KeyModel| #[trigger] model.contains_key(k) && key_text(k) == name;
                lemma_entry_that_counts(entries, k);
                lemma_entry_that_counts(others, k);
                let i = choose|i: int|
                    #![trigger entries[i]]
                    {
                        &&& 0 <= i < entries.len()
                        &&& cel_entries(entries)[k] == cel_model(entries[i].1)
                        &&& cel_entries_as_json(entries)[key_text(k)] == cel_as_json(entries[i].1)
                    };
                let j = choose|j: int|
                    #![trigger others[j]]
                    {
                        &&& 0 <= j < others.len()
                        &&& cel_entries(others)[k] == cel_model(others[j].1)
                        &&& cel_entries_as_json(others)[key_text(k)] == cel_as_json(others[j].1)
                    };
                assert(distinct_texts(model[k]));
                assert(decreases_to!(v->Mapping_0 => entries));
                assert(decreases_to!(entries => entries[i]));
                assert(decreases_to!(entries[i] => entries[i].1));
                law_order_makes_no_difference(entries[i].1, others[j].1);
            }
            assert(one =~= two);
        },
        _ => {},
    }
}

/// A JSON value comes back unchanged from CEL: whatever CEL value stands for
/// it converts back to it.
pub proof fn law_json_survives_cel(j: JsonModel, v: CelValue)
    requires
        writable(j),
        v@ == json_as_cel(j),
    ensures
        cel_as_json(v) == j,
    decreases v,
{
    match j {
        JsonModel::Array(items) => {
            let parts = v->List_0@;
            lemma_cel_items(parts);
            lemma_cel_items_as_json(parts);
            assert forall|i: int| 0 <= i < items.len() implies cel_items_as_json(parts)[i] == items[i] by {
                assert(cel_items(parts)[i] == json_as_cel(items[i]));
                assert(decreases_to!(v->List_0 => parts));
                assert(decreases_to!(parts => parts[i]));
                assert(writable(items[i]));
                law_json_survives_cel(items[i], parts[i]);
            }
            assert(cel_items_as_json(parts) =~= items);
        },
        JsonModel::Object(entries) => {
            let parts = v->Mapping_0@;
            let back = cel_entries_as_json(parts);
            assert(cel_entries(parts) == object_as_cel(entries));
            assert forall|name: Seq<char>| back.contains_key(name) == entries.contains_key(name) by {
                if entries.contains_key(name) {
                    lemma_entry_that_counts(parts, KeyModel::String(name));
                }
                if back.contains_key(name) {
                    lemma_name_of_key(parts, name);
                }
            }
            assert forall|name: Seq<char>| back.contains_key(name) implies back[name] == entries[name] by {
                let key = KeyModel::String(name);
                lemma_entry_that_counts(parts, key);
                let i = choose|i: int|
                    #![trigger parts[i]]
                    {
                        &&& 0 <= i < parts.len()
                        &&& cel_entries(parts)[key] == cel_model(parts[i].1)
                        &&& cel_entries_as_json(parts)[key_text(key)] == cel_as_json(parts[i].1)
                    };
                assert(decreases_to!(v->Mapping_0 => parts));
                assert(decreases_to!(parts => parts[i]));
                assert(decreases_to!(parts[i] => parts[i].1));
                assert(writable(entries[name]));
                law_json_survives_cel(entries[name], parts[i].1);
            }
            assert(back =~= entries);
        },
        _ => {},
    }
}

/// A JSON value becomes the CEL value of its kind: an integer an `int` where
/// it fits and a `uint` where only that does; arrays and objects item by item
/// and entry by entry, the names as they are.
pub proof fn law_json_kinds(j: JsonModel)
    ensures
        match j {
            JsonModel::Null => json_as_cel(j) == CelModel::Null,
            JsonModel::Bool(b) => json_as_cel(j) == CelModel::Bool(b),
            JsonModel::Number(NumberModel::Integer(n)) => {
                &&& -0x8000_0000_0000_0000 <= n <= 0x7fff_ffff_ffff_ffff ==> json_as_cel(j) is Int
                    && json_as_cel(j)->Int_0 == n
                &&& 0x7fff_ffff_ffff_ffff < n <= 0xffff_ffff_ffff_ffff ==> json_as_cel(j) is UInt
                    && json_as_cel(j)->UInt_0 == n
            },
            JsonModel::Number(NumberModel::Float(d)) => json_as_cel(j) == CelModel::Float(d),
            JsonModel::String(s) => json_as_cel(j) == CelModel::String(s),
            JsonModel::Array(items) => {
                &&& json_as_cel(j) matches CelModel::List(out)
                &&& out.len() == items.len()
                &&& forall|i: int| 0 <= i < items.len() ==> #[trigger] out[i] == json_as_cel(items[i])
            },
            JsonModel::Object(entries) => {
                &&& json_as_cel(j) matches CelModel::Mapping(out)
                &&& forall|k: KeyModel| #[trigger] out.contains_key(k) ==> k is String
                &&& forall|name: Seq<char>| #[trigger]
                    out.contains_key(KeyModel::String(name)) == entries.contains_key(name)
                &&& forall|name: Seq<char>| #[trigger]
                    entries.contains_key(name) ==> out[KeyModel::String(name)] == json_as_cel(entries[name])
            },
        },
{
}

/// The name that a key of a CEL map gets: text as it is, numbers in their
/// plain decimal form, truth values as words.
pub open spec fn is_name_of(k: KeyModel, name: Seq<char>) -> bool {
    match k {
        KeyModel::String(s) => name == s,
        KeyModel::Int(n) => is_plain_signed(name, n as int),
        KeyModel::Uint(n) => is_plain_decimal(name, n as nat),
        KeyModel::Bool(b) => name == (if b {
            seq!['t', 'r', 'u', 'e']
        } else {
            seq!['f', 'a', 'l', 's', 'e']
        }),
    }
}

/// Keys get their names.
pub proof fn law_key_names(k: KeyModel)
    ensures
        is_name_of(k, key_text(k)),
{
    law_truth_words();
    match k {
        KeyModel::Int(n) => {
            law_signed_decimal_is_plain(n as int);
        },
        KeyModel::Uint(n) => {
            law_decimal_is_plain(n as nat);
        },
        _ => {},
    }
}

/// A CEL value becomes the JSON value of its kind: integers of either type
/// the number they are, a double that JSON can write itself, lists item by
/// item; a double that JSON cannot write, and what JSON has no counterpart
/// for, become null.
pub proof fn law_cel_kinds(v: CelValue)
    ensures
        match v {
            CelValue::Null => cel_as_json(v) == JsonModel::Null,
            CelValue::Bool(b) => cel_as_json(v) == JsonModel::Bool(b),
            CelValue::Int(n) => cel_as_json(v) == JsonModel::Number(NumberModel::Integer(n as int)),
            CelValue::UInt(n) => cel_as_json(v) == JsonModel::Number(NumberModel::Integer(n as int)),
            CelValue::Float(d) => {
                &&& is_finite(d) ==> cel_as_json(v) == JsonModel::Number(NumberModel::Float(d))
                &&& !is_finite(d) ==> cel_as_json(v) == JsonModel::Null
            },
            CelValue::String(s) => cel_as_json(v) == JsonModel::String(s@),
            CelValue::List(items) => {
                &&& cel_as_json(v) matches JsonModel::Array(out)
                &&& out.len() == items@.len()
                &&& forall|i: int| 0 <= i < items@.len() ==> #[trigger] out[i] == cel_as_json(items@[i])
            },
            CelValue::Mapping(entries) => cel_as_json(v) == JsonModel::Object(cel_entries_as_json(entries@)),
            CelValue::Other => cel_as_json(v) == JsonModel::Null,
        },
{
    if let CelValue::List(items) = v {
        lemma_cel_items_as_json(items@);
    }
}

/// An entry at the end of a map counts under the name of its key, in place of
/// an earlier entry of that name, and changes nothing else.
pub proof fn law_cel_entries(entries: Seq<(CelKey, CelValue)>, entry: (CelKey, CelValue), name: Seq<char>)
    ensures
        ({
            let before = cel_entries_as_json(entries);
            let after = cel_entries_as_json(entries.push(entry));
            exists|own: Seq<char>|
                {
                    &&& #[trigger] is_name_of(entry.0@, own)
                    &&& after.contains_key(own) && after[own] == cel_as_json(entry.1)
                    &&& name != own ==> after.contains_key(name) == before.contains_key(name)
                    &&& name != own && before.contains_key(name) ==> after[name] == before[name]
                }
        }),
        !cel_entries_as_json(seq![]).contains_key(name),
{
    law_key_names(entry.0@);
    assert(entries.push(entry).drop_last() =~= entries);
}

}
