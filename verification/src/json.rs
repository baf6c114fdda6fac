//! Flattening of `serde_json` objects: the walk over a value, the
//! flattening and the filling of the result, proved from what is stated of
//! `serde_json` where its types are declared.

use crate::document::{fields_model, items_model, Doc, Fields, Node};
use crate::error::FlattenError;
use crate::flat_map::{entry_view, keys_distinct, Entries, Flat, FlatMap, FlatValue};
use crate::flatten::{
    child_path, fields_of, flatten_object, flattened, leaves_at, leaves_of_fields,
    leaves_of_items, node_of,
};
use crate::json_value::{
    array_value, json_doc, json_docs, json_fields, lacks_key, object_entries, object_insert,
    object_new, shape_of, value_clone, Shape,
};
use crate::laws::{
    is_flat, law_idempotent, law_identity_on_flat_input, law_scalars_from_document, scalars_of,
};
use serde_json::Value;
use vstd::prelude::*;

verus! {

/// A value that is a scalar document holds itself.
pub open spec fn is_json_scalar(value: Value) -> bool {
    json_doc(value) == Doc::Scalar(value)
}

/// Every scalar of the document is a JSON value that is that scalar.
pub open spec fn plain(node: Doc<Value>) -> bool
    decreases node,
{
    match node {
        Doc::Scalar(scalar) => is_json_scalar(scalar),
        Doc::Array(items) => plain_items(items),
        Doc::Object(fields) => plain_fields(fields),
    }
}

/// Every one of `items` is plain.
pub open spec fn plain_items(items: Seq<Doc<Value>>) -> bool
    decreases items,
{
    items.len() == 0 || (plain_items(items.drop_last()) && plain(items.last()))
}

/// The value of every one of `fields` is plain.
pub open spec fn plain_fields(fields: Fields<Value>) -> bool
    decreases fields,
{
    fields.len() == 0 || (plain_fields(fields.drop_last()) && plain(fields.last().1))
}

/// The leaves of a plain document are JSON scalars.
pub proof fn lemma_plain_leaves(path: Seq<char>, node: Doc<Value>)
    requires
        plain(node),
    ensures
        forall|k: int|
            0 <= k < leaves_at(path, node).len() ==> is_json_scalar(
                (#[trigger] leaves_at(path, node)[k]).1,
            ),
    decreases node,
{
    match node {
        Doc::Scalar(scalar) => {
            assert(leaves_at(path, node) == seq![(path, scalar)]);
        },
        Doc::Array(items) => {
            assert(leaves_at(path, node) == leaves_of_items(path, items));
            lemma_plain_leaves_of_items(path, items);
        },
        Doc::Object(fields) => {
            assert(leaves_at(path, node) == leaves_of_fields(Some(path), fields));
            lemma_plain_leaves_of_fields(Some(path), fields);
        },
    }
}

/// The leaves of plain items are JSON scalars.
pub proof fn lemma_plain_leaves_of_items(path: Seq<char>, items: Seq<Doc<Value>>)
    requires
        plain_items(items),
    ensures
        forall|k: int|
            0 <= k < leaves_of_items(path, items).len() ==> is_json_scalar(
                (#[trigger] leaves_of_items(path, items)[k]).1,
            ),
    decreases items,
{
    let all = leaves_of_items(path, items);
    if items.len() == 0 {
        assert(all == Seq::<(Seq<char>, Value)>::empty());
    } else {
        let earlier = leaves_of_items(path, items.drop_last());
        let last = leaves_at(path, items.last());
        assert(all == earlier + last);
        lemma_plain_leaves_of_items(path, items.drop_last());
        lemma_plain_leaves(path, items.last());
        assert forall|k: int| 0 <= k < all.len() implies is_json_scalar((#[trigger] all[k]).1) by {
            if k < earlier.len() {
                assert(all[k] == earlier[k]);
            } else {
                assert(all[k] == last[k - earlier.len()]);
            }
        }
    }
}

/// The leaves of plain fields are JSON scalars.
pub proof fn lemma_plain_leaves_of_fields(
    prefix: Option<Seq<char>>,
    fields: Fields<Value>,
)
    requires
        plain_fields(fields),
    ensures
        forall|k: int|
            0 <= k < leaves_of_fields(prefix, fields).len() ==> is_json_scalar(
                (#[trigger] leaves_of_fields(prefix, fields)[k]).1,
            ),
    decreases fields,
{
    let all = leaves_of_fields(prefix, fields);
    if fields.len() == 0 {
        assert(all == Seq::<(Seq<char>, Value)>::empty());
    } else {
        let earlier = leaves_of_fields(prefix, fields.drop_last());
        let last = leaves_at(child_path(prefix, fields.last().0), fields.last().1);
        assert(all == earlier + last);
        lemma_plain_leaves_of_fields(prefix, fields.drop_last());
        lemma_plain_leaves(child_path(prefix, fields.last().0), fields.last().1);
        assert forall|k: int| 0 <= k < all.len() implies is_json_scalar((#[trigger] all[k]).1) by {
            if k < earlier.len() {
                assert(all[k] == earlier[k]);
            } else {
                assert(all[k] == last[k - earlier.len()]);
            }
        }
    }
}

/// The document tree of a JSON value, with a copy of each scalar.
pub fn node_from_json(value: &Value) -> (node: Node<Value>)
    ensures
        node@ == json_doc(*value),
        plain(node@),
    decreases json_doc(*value), 1nat,
{
    match shape_of(value) {
        Shape::Scalar(scalar) => Node::Scalar(value_clone(scalar)),
        Shape::Array(items) => {
            let mut nodes: Vec<Node<Value>> = Vec::new();
            let mut i: usize = 0;
            proof {
                assert(json_doc(*value)->Array_0 == json_docs(items@));
            }
            while i < items.len()
                invariant
                    i <= items.len(),
                    decreases_to!(json_doc(*value) => json_docs(items@)),
                    nodes@.len() == i,
                    items_model(nodes@) == json_docs(items@).take(i as int),
                    plain_items(items_model(nodes@)),
                decreases items.len() - i,
            {
                proof {
                    assert(json_docs(items@)[i as int] == json_doc(items@[i as int]));
                    assert(decreases_to!(json_docs(items@) => json_docs(items@)[i as int]));
                }
                let child = node_from_json(&items[i]);
                let ghost before = nodes@;
                nodes.push(child);
                proof {
                    assert(nodes@.drop_last() =~= before);
                    assert(items_model(nodes@) == items_model(before).push(child@));
                    assert(items_model(nodes@).drop_last() =~= items_model(before));
                    assert(json_docs(items@).take(i + 1) =~= json_docs(items@).take(i as int).push(
                        json_docs(items@)[i as int],
                    ));
                }
                i = i + 1;
            }
            proof {
                assert(json_docs(items@).take(items@.len() as int) =~= json_docs(items@));
            }
            Node::Array(nodes)
        },
        Shape::Object(object) => {
            proof {
                assert(json_doc(*value)->Object_0 == json_fields(*object));
            }
            let fields = object_from_json(object);
            Node::Object(fields)
        },
    }
}

/// The fields of a JSON object as document trees, in the order in which the
/// object hands them out.
pub fn object_from_json(object: &serde_json::Map<String, Value>) -> (fields: Vec<
    (String, Node<Value>),
>)
    ensures
        fields_model(fields@) == json_fields(*object),
        plain_fields(fields_model(fields@)),
        keys_distinct(fields_model(fields@)),
    decreases Doc::Object(json_fields(*object)), 0nat,
{
    let entries = object_entries(object);
    let mut fields: Vec<(String, Node<Value>)> = Vec::new();
    let mut i: usize = 0;
    proof {
        assert(Doc::Object(json_fields(*object))->Object_0 == json_fields(*object));
        assert forall|a: int, b: int| 0 <= a < b < json_fields(*object).len() implies (
        #[trigger] json_fields(*object)[a]).0 != (#[trigger] json_fields(*object)[b]).0 by {
            assert(entries@[a].0@ != entries@[b].0@);
        }
    }
    while i < entries.len()
        invariant
            i <= entries.len(),
            entries@.len() == json_fields(*object).len(),
            forall|j: int|
                0 <= j < entries@.len() ==> json_fields(*object)[j] == (
                    (#[trigger] entries@[j]).0@,
                    json_doc(*entries@[j].1),
                ),
            decreases_to!(Doc::Object(json_fields(*object)) => json_fields(*object)),
            keys_distinct(json_fields(*object)),
            fields@.len() == i,
            fields_model(fields@) == json_fields(*object).take(i as int),
            plain_fields(fields_model(fields@)),
        decreases entries.len() - i,
    {
        let (key, value) = entries[i];
        proof {
            assert(json_fields(*object)[i as int] == (entries@[i as int].0@, json_doc(*value)));
            assert(decreases_to!(json_fields(*object) => json_fields(*object)[i as int]));
            assert(decreases_to!(
                json_fields(*object)[i as int] => json_fields(*object)[i as int].1
            ));
        }
        let child = node_from_json(value);
        let ghost before = fields@;
        fields.push((key.clone(), child));
        proof {
            assert(fields@.drop_last() =~= before);
            assert(fields_model(fields@) == fields_model(before).push((key@, child@)));
            assert(fields_model(fields@).drop_last() =~= fields_model(before));
            assert(json_fields(*object).take(i + 1) =~= json_fields(*object).take(i as int).push(
                json_fields(*object)[i as int],
            ));
        }
        i = i + 1;
    }
    proof {
        assert(json_fields(*object).take(entries@.len() as int) =~= json_fields(*object));
    }
    fields
}

/// The document of a flattened JSON value: that of the bare scalar, or the
/// array of those of the scalars of a sequence.
pub open spec fn json_node_of(value: Flat<Value>) -> Doc<Value> {
    match value {
        Flat::Scalar(scalar) => json_doc(scalar),
        Flat::Sequence(scalars) => Doc::Array(json_docs(scalars)),
    }
}

/// The fields of the JSON object that holds a flat map.
pub open spec fn json_fields_of(m: Entries<Value>) -> Fields<Value> {
    m.map_values(|entry: (Seq<char>, Flat<Value>)| (entry.0, json_node_of(entry.1)))
}

/// The JSON object that holds a flat map: a bare scalar as it is, a
/// sequence as a JSON array, under the same keys in the same order.
pub fn object_from_flat(flat: FlatMap<Value>) -> (object: serde_json::Map<String, Value>)
    ensures
        json_fields(object) == json_fields_of(flat@),
{
    let ghost m = flat@;
    let entries = flat.into_entries();
    let mut object = object_new();
    for entry in it: entries.into_iter()
        invariant
            it.seq() == entries@,
            entries@.map_values(|e: (String, FlatValue<Value>)| entry_view(e)) == m,
            keys_distinct(m),
            json_fields(object) == json_fields_of(m.take(it.index() as int)),
    {
        let ghost done = it.index() as int;
        let (key, value) = entry;
        proof {
            assert(m[done] == entry_view(entry));
            assert forall|i: int| 0 <= i < json_fields(object).len() implies (
            #[trigger] json_fields(object)[i]).0 != key@ by {
                assert(m[i].0 != m[done].0);
            }
            assert(lacks_key(json_fields(object), key@));
            assert(m.take(done + 1) =~= m.take(done).push(m[done]));
            assert(json_fields_of(m.take(done + 1)) =~= json_fields_of(m.take(done)).push(
                (key@, json_node_of(value@)),
            ));
        }
        let stored = match value {
            FlatValue::Scalar(scalar) => scalar,
            FlatValue::Sequence(scalars) => array_value(scalars),
        };
        object_insert(&mut object, key, stored);
    }
    proof {
        assert(m.take(m.len() as int) =~= m);
    }
    object
}

/// The flat map of a plain object is held by a JSON object as it reads: a
/// bare scalar as a scalar, a sequence as the array of its scalars.
pub proof fn lemma_json_fields_of_flattened(fields: Fields<Value>)
    requires
        plain_fields(fields),
    ensures
        json_fields_of(flattened(fields)) == fields_of(flattened(fields)),
{
    let m = flattened(fields);
    let leaves = leaves_of_fields(None, fields);
    lemma_plain_leaves_of_fields(None, fields);
    assert forall|i: int| 0 <= i < m.len() implies json_node_of(m[i].1) == node_of(m[i].1) by {
        assert forall|j: int| 0 <= j < scalars_of(m[i].1).len() implies is_json_scalar(
            #[trigger] scalars_of(m[i].1)[j],
        ) by {
            law_scalars_from_document(fields, i, j);
            let k = choose|k: int|
                0 <= k < leaves.len() && #[trigger] leaves[k] == (
                    m[i].0,
                    scalars_of(m[i].1)[j],
                );
            assert(is_json_scalar(leaves[k].1));
        }
        match m[i].1 {
            Flat::Scalar(scalar) => {
                assert(scalars_of(m[i].1)[0] == scalar);
            },
            Flat::Sequence(scalars) => {
                assert forall|j: int| 0 <= j < scalars.len() implies #[trigger] json_docs(
                    scalars,
                )[j] == Doc::Scalar(scalars[j]) by {
                    assert(is_json_scalar(scalars_of(m[i].1)[j]));
                }
                assert(json_docs(scalars) =~= scalars.map_values(|x: Value| Doc::Scalar(x)));
            },
        }
    }
    assert(json_fields_of(m) =~= fields_of(m));
}

/// Flattens a JSON object into a JSON object of one level. The fields of
/// the object are walked in the order in which it hands them out; the
/// result holds the flat map of the object, a bare scalar as it is and a
/// sequence as a JSON array. No object is refused. An object whose values
/// are all scalars comes back as it is, and flattening the result once
/// more changes nothing.
pub fn flatten_json(json: &serde_json::Map<String, Value>) -> (result: Result<
    serde_json::Map<String, Value>,
    FlattenError,
>)
    ensures
        result matches Ok(flat) && json_fields(flat) == fields_of(flattened(json_fields(*json))),
        result matches Ok(flat) && (is_flat(json_fields(*json)) ==> json_fields(flat)
            == json_fields(*json)),
        result matches Ok(flat) && fields_of(flattened(json_fields(flat))) == json_fields(flat),
{
    let object = object_from_json(json);
    proof {
        lemma_json_fields_of_flattened(json_fields(*json));
        law_idempotent(json_fields(*json));
        if is_flat(json_fields(*json)) {
            law_identity_on_flat_input(json_fields(*json));
        }
    }
    let flat = flatten_object(object);
    Ok(object_from_flat(flat))
}

} // verus!
