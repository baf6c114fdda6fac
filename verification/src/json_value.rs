//! What is taken on trust of `serde_json`: its two types, what a value and
//! an object hold, and the few of its operations that flattening needs.
//! Nothing in this file is proved; everything else in the library is proved
//! from it.

use crate::document::{Doc, Fields};
use serde_json::Value;
use vstd::prelude::*;

verus! {

/// `serde_json::Value`, of which nothing but what the items below state is
/// known.
#[verifier::external_type_specification]
#[verifier::external_body]
pub struct ExValue(serde_json::Value);

/// `serde_json::Map`, of which nothing but what the items below state is
/// known.
#[verifier::external_type_specification]
#[verifier::external_body]
#[verifier::reject_recursive_types(K)]
#[verifier::reject_recursive_types(V)]
pub struct ExMap<K, V>(serde_json::Map<K, V>);

/// The document that a JSON value is: an array or an object of the
/// documents of its parts, or else a scalar, which is the value itself.
pub uninterp spec fn json_doc(value: Value) -> Doc<Value>;

/// The fields that a JSON object holds, each key with the document of its
/// value, in the order in which the object hands them out.
pub uninterp spec fn json_fields(object: serde_json::Map<String, Value>) -> Fields<Value>;

/// The documents of the values of a JSON array, in order.
pub open spec fn json_docs(items: Seq<Value>) -> Seq<Doc<Value>> {
    items.map_values(|item: Value| json_doc(item))
}

/// One level of a JSON value: its parts where it has any.
pub(crate) enum Shape<'a> {
    /// An object.
    Object(&'a serde_json::Map<String, Value>),
    /// An array.
    Array(&'a Vec<Value>),
    /// Null, a boolean, a number or a string.
    Scalar(&'a Value),
}

/// Tells the variants of `serde_json::Value` apart. The contract says what
/// document each variant is: an object is the object of its fields, an
/// array the array of the documents of its items, and any other value a
/// scalar that is the value itself.
#[verifier::external_body]
pub(crate) fn shape_of(value: &Value) -> (shape: Shape<'_>)
    ensures
        match shape {
            Shape::Object(object) => json_doc(*value) == Doc::Object(json_fields(*object)),
            Shape::Array(items) => json_doc(*value) == Doc::Array(json_docs(items@)),
            Shape::Scalar(scalar) => scalar == value && json_doc(*value) == Doc::Scalar(*value),
        },
{
    match value {
        Value::Object(object) => Shape::Object(object),
        Value::Array(items) => Shape::Array(items),
        Value::Null => Shape::Scalar(value),
        Value::Bool(_) => Shape::Scalar(value),
        Value::Number(_) => Shape::Scalar(value),
        Value::String(_) => Shape::Scalar(value),
    }
}

/// `Map::iter`, collected: the keys and values of an object in the order in
/// which it hands them out. These are the fields that the object holds, and
/// no two of them have the same key.
#[verifier::external_body]
pub(crate) fn object_entries(object: &serde_json::Map<String, Value>) -> (entries: Vec<
    (&String, &Value),
>)
    ensures
        entries@.len() == json_fields(*object).len(),
        forall|i: int|
            0 <= i < entries@.len() ==> json_fields(*object)[i] == (
                (#[trigger] entries@[i]).0@,
                json_doc(*entries@[i].1),
            ),
        forall|i: int, j: int|
            0 <= i < j < entries@.len() ==> (#[trigger] entries@[i]).0@ != (
            #[trigger] entries@[j]).0@,
{
    object.iter().collect()
}

/// `Value::clone`: the copy is the same value.
#[verifier::external_body]
pub(crate) fn value_clone(value: &Value) -> (copy: Value)
    ensures
        copy == *value,
{
    value.clone()
}

/// `Map::new`: an object without fields.
#[verifier::external_body]
pub(crate) fn object_new() -> (object: serde_json::Map<String, Value>)
    ensures
        json_fields(object) == Seq::<(Seq<char>, Doc<Value>)>::empty(),
{
    serde_json::Map::new()
}

/// No field has this key.
pub open spec fn lacks_key(fields: Fields<Value>, key: Seq<char>) -> bool {
    forall|i: int| 0 <= i < fields.len() ==> (#[trigger] fields[i]).0 != key
}

/// The field at index `at` has this key.
pub open spec fn has_key_at(fields: Fields<Value>, key: Seq<char>, at: int) -> bool {
    0 <= at < fields.len() && fields[at].0 == key
}

/// `Map::insert`, with the order of insertion preserved: a key that the
/// object does not have is added last and nothing is returned; a key that
/// it has keeps its place, has its value replaced, and the value that it
/// had is returned.
#[verifier::external_body]
pub(crate) fn object_insert(
    object: &mut serde_json::Map<String, Value>,
    key: String,
    value: Value,
) -> (previous: Option<Value>)
    ensures
        lacks_key(json_fields(*old(object)), key@) ==> previous is None && json_fields(
            *final(object),
        ) == json_fields(*old(object)).push((key@, json_doc(value))),
        forall|at: int| #[trigger]
            has_key_at(json_fields(*old(object)), key@, at) ==> (previous matches Some(replaced)
                && json_doc(replaced) == json_fields(*old(object))[at].1) && json_fields(
                *final(object),
            ) == json_fields(*old(object)).update(at, (key@, json_doc(value))),
{
    object.insert(key, value)
}

/// `Value::Array`: the JSON array of these values.
#[verifier::external_body]
pub(crate) fn array_value(items: Vec<Value>) -> (value: Value)
    ensures
        json_doc(value) == Doc::Array(json_docs(items@)),
{
    Value::Array(items)
}

} // verus!
