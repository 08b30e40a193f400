//! The parts of a JSON response that the verse logic reads.
use vstd::prelude::*;
use crate::books::same_text;

verus! {

/// One member of a JSON object: its key, its value when that is a string, and
/// its value when that is a number that fits in `u64` without sign or fraction.
#[derive(Debug, Clone)]
pub struct JsonField {
    pub key: String,
    pub text: Option<String>,
    pub number: Option<u64>,
}

/// A member as plain values: (key, string value, unsigned number value).
pub type FieldModel = (Seq<char>, Option<Seq<char>>, Option<u64>);

pub open spec fn opt_text(o: Option<String>) -> Option<Seq<char>> {
    match o {
        Some(s) => Some(s@),
        None => None,
    }
}

impl JsonField {
    pub open spec fn model(self) -> FieldModel {
        (self.key@, opt_text(self.text), self.number)
    }
}

/// The members of an object as plain values.
pub open spec fn object_model(v: Seq<JsonField>) -> Seq<FieldModel> {
    v.map_values(|f: JsonField| f.model())
}

/// The members of each object of an array as plain values.
pub open spec fn array_model(v: Seq<Vec<JsonField>>) -> Seq<Seq<FieldModel>> {
    v.map_values(|o: Vec<JsonField>| object_model(o@))
}

/// What serde_json's `from_str::<Value>` makes of `body`: the members of the
/// object it holds (none when the value is not an object), or the error's text.
pub uninterp spec fn json_value_of(body: Seq<char>) -> Result<Seq<FieldModel>, Seq<char>>;

/// What serde_json's `from_str::<Vec<Value>>` makes of `body`: for each element of
/// the array, the members of that element (none when it is not an object), or the
/// error's text.
pub uninterp spec fn json_array_of(body: Seq<char>) -> Result<Seq<Seq<FieldModel>>, Seq<char>>;

/// Parses `body` with serde_json's `from_str::<serde_json::Value>` and keeps, of
/// each top-level member, its key, its string value (`Value::as_str`) and its
/// unsigned value (`Value::as_u64`); a value that is not an object has no members.
/// An error becomes its `Display` text. The result is named `json_value_of`;
/// nothing more is claimed of serde_json's parser.
#[verifier::external_body]
pub(crate) fn parse_json_value(body: &str) -> (r: Result<Vec<JsonField>, String>)
    ensures
        match r {
            Ok(f) => json_value_of(body@) == Ok::<Seq<FieldModel>, Seq<char>>(object_model(f@)),
            Err(e) => json_value_of(body@) == Err::<Seq<FieldModel>, Seq<char>>(e@),
        },
{
    match serde_json::from_str::<serde_json::Value>(body) {
        Ok(v) => Ok(match v.as_object() {
            Some(m) => m.iter().map(|(k, x)| JsonField {
                key: k.clone(),
                text: x.as_str().map(|s| s.to_string()),
                number: x.as_u64(),
            }).collect(),
            None => Vec::new(),
        }),
        Err(e) => Err(e.to_string()),
    }
}

/// Parses `body` with serde_json's `from_str::<Vec<serde_json::Value>>` and keeps,
/// for every element, the members as `parse_json_value` does. An error becomes its
/// `Display` text. The result is named `json_array_of`; nothing more is claimed of
/// serde_json's parser.
#[verifier::external_body]
pub(crate) fn parse_json_array(body: &str) -> (r: Result<Vec<Vec<JsonField>>, String>)
    ensures
        match r {
            Ok(a) => json_array_of(body@) == Ok::<Seq<Seq<FieldModel>>, Seq<char>>(array_model(a@)),
            Err(e) => json_array_of(body@) == Err::<Seq<Seq<FieldModel>>, Seq<char>>(e@),
        },
{
    match serde_json::from_str::<Vec<serde_json::Value>>(body) {
        Ok(items) => Ok(items.iter().map(|v| match v.as_object() {
            Some(m) => m.iter().map(|(k, x)| JsonField {
                key: k.clone(),
                text: x.as_str().map(|s| s.to_string()),
                number: x.as_u64(),
            }).collect(),
            None => Vec::new(),
        }).collect()),
        Err(e) => Err(e.to_string()),
    }
}

/// The position of the first member named `key`.
pub open spec fn member_index(fields: Seq<FieldModel>, key: Seq<char>) -> Option<int>
    decreases fields.len(),
{
    if fields.len() == 0 {
        None
    } else {
        match member_index(fields.drop_last(), key) {
            Some(i) => Some(i),
            None => if fields.last().0 == key {
                Some(fields.len() - 1)
            } else {
                None
            },
        }
    }
}

/// The string value of member `key` (as `get(key).and_then(as_str)` reads it).
pub open spec fn member_text(fields: Seq<FieldModel>, key: Seq<char>) -> Option<Seq<char>> {
    match member_index(fields, key) {
        Some(i) => fields[i].1,
        None => None,
    }
}

/// The unsigned value of member `key` (as `get(key).and_then(as_u64)` reads it).
pub open spec fn member_number(fields: Seq<FieldModel>, key: Seq<char>) -> Option<u64> {
    match member_index(fields, key) {
        Some(i) => fields[i].2,
        None => None,
    }
}

proof fn lemma_member_index(fields: Seq<FieldModel>, key: Seq<char>)
    ensures
        match member_index(fields, key) {
            Some(i) => 0 <= i < fields.len() && fields[i].0 == key && forall|j: int|
                0 <= j < i ==> fields[j].0 != key,
            None => forall|j: int| 0 <= j < fields.len() ==> fields[j].0 != key,
        },
    decreases fields.len(),
{
    if fields.len() > 0 {
        lemma_member_index(fields.drop_last(), key);
        assert forall|j: int| 0 <= j < fields.len() - 1 implies fields[j] == fields.drop_last()[j] by {}
    }
}

fn find_member(fields: &Vec<JsonField>, key: &str) -> (r: Option<usize>)
    ensures
        match member_index(object_model(fields@), key@) {
            Some(i) => r == Some(i as usize),
            None => r is None,
        },
        r matches Some(i) ==> i < fields.len() && member_index(object_model(fields@), key@) == Some(
            i as int,
        ),
{
    let ghost m = object_model(fields@);
    proof {
        lemma_member_index(m, key@);
    }
    let mut i: usize = 0;
    while i < fields.len()
        invariant
            m == object_model(fields@),
            i <= fields.len(),
            forall|j: int| 0 <= j < i ==> m[j].0 != key@,
            match member_index(m, key@) {
                Some(p) => 0 <= p < m.len() && m[p].0 == key@ && forall|j: int|
                    0 <= j < p ==> m[j].0 != key@,
                None => forall|j: int| 0 <= j < m.len() ==> m[j].0 != key@,
            },
        decreases fields.len() - i,
    {
        assert(m[i as int] == fields@[i as int].model());
        if same_text(fields[i].key.as_str(), key) {
            proof {
                if member_index(m, key@) is Some {
                    let p = member_index(m, key@)->0;
                    if p > i {
                        assert(m[i as int].0 == key@);
                    }
                }
            }
            return Some(i);
        }
        i = i + 1;
    }
    None
}

/// The string value of member `key`, if it has one.
pub fn get_text(fields: &Vec<JsonField>, key: &str) -> (r: Option<String>)
    ensures
        opt_text(r) == member_text(object_model(fields@), key@),
{
    match find_member(fields, key) {
        Some(i) => {
            assert(object_model(fields@)[i as int] == fields@[i as int].model());
            match &fields[i].text {
                Some(t) => Some(t.clone()),
                None => None,
            }
        },
        None => None,
    }
}

/// The unsigned value of member `key`, if it has one.
pub fn get_number(fields: &Vec<JsonField>, key: &str) -> (r: Option<u64>)
    ensures
        r == member_number(object_model(fields@), key@),
{
    match find_member(fields, key) {
        Some(i) => {
            assert(object_model(fields@)[i as int] == fields@[i as int].model());
            fields[i].number
        },
        None => None,
    }
}

} // verus!
