//! How deeply a document nests its containers, and a test of that depth
//! that itself never descends further than the limit it is given.

use crate::document::{
    fields_model, items_model, lemma_fields_model, lemma_items_model, Doc, Fields, Node,
};
use vstd::prelude::*;

verus! {

/// The number of containers on the longest way from `node` down to one of
/// its scalars or empty containers: a scalar has depth zero, a container
/// one more than its deepest child.
pub open spec fn depth<S>(node: Doc<S>) -> nat
    decreases node,
{
    match node {
        Doc::Scalar(_) => 0,
        Doc::Array(items) => 1 + deepest_item(items),
        Doc::Object(fields) => 1 + deepest_field(fields),
    }
}

/// The depth of the deepest of `items`, zero where there is none.
pub open spec fn deepest_item<S>(items: Seq<Doc<S>>) -> nat
    decreases items,
{
    if items.len() == 0 {
        0
    } else {
        let before = deepest_item(items.drop_last());
        let last = depth(items.last());
        if before >= last {
            before
        } else {
            last
        }
    }
}

/// The depth of the deepest value of `fields`, zero where there is none.
pub open spec fn deepest_field<S>(fields: Fields<S>) -> nat
    decreases fields,
{
    if fields.len() == 0 {
        0
    } else {
        let before = deepest_field(fields.drop_last());
        let last = depth(fields.last().1);
        if before >= last {
            before
        } else {
            last
        }
    }
}

/// The deepest item is within a bound exactly if every item is.
pub proof fn lemma_deepest_item<S>(items: Seq<Doc<S>>, bound: nat)
    ensures
        deepest_item(items) <= bound <==> forall|i: int|
            0 <= i < items.len() ==> depth(#[trigger] items[i]) <= bound,
    decreases items.len(),
{
    if items.len() > 0 {
        lemma_deepest_item(items.drop_last(), bound);
        if deepest_item(items) <= bound {
            assert forall|i: int| 0 <= i < items.len() implies depth(#[trigger] items[i])
                <= bound by {
                if i < items.len() - 1 {
                    assert(items.drop_last()[i] == items[i]);
                }
            }
        }
        if forall|i: int| 0 <= i < items.len() ==> depth(#[trigger] items[i]) <= bound {
            assert forall|i: int| 0 <= i < items.drop_last().len() implies depth(
                #[trigger] items.drop_last()[i],
            ) <= bound by {
                assert(items.drop_last()[i] == items[i]);
            }
            assert(depth(items[items.len() - 1]) <= bound);
        }
    }
}

/// The deepest field is within a bound exactly if every field is.
pub proof fn lemma_deepest_field<S>(fields: Fields<S>, bound: nat)
    ensures
        deepest_field(fields) <= bound <==> forall|i: int|
            0 <= i < fields.len() ==> depth((#[trigger] fields[i]).1) <= bound,
    decreases fields.len(),
{
    if fields.len() > 0 {
        lemma_deepest_field(fields.drop_last(), bound);
        if deepest_field(fields) <= bound {
            assert forall|i: int| 0 <= i < fields.len() implies depth((#[trigger] fields[i]).1)
                <= bound by {
                if i < fields.len() - 1 {
                    assert(fields.drop_last()[i] == fields[i]);
                }
            }
        }
        if forall|i: int| 0 <= i < fields.len() ==> depth((#[trigger] fields[i]).1) <= bound {
            assert forall|i: int| 0 <= i < fields.drop_last().len() implies depth(
                (#[trigger] fields.drop_last()[i]).1,
            ) <= bound by {
                assert(fields.drop_last()[i] == fields[i]);
            }
            assert(depth(fields[fields.len() - 1].1) <= bound);
        }
    }
}

/// Whether `node` nests no deeper than `limit`. The test stops descending
/// where the limit is used up, so it goes no deeper than `limit` itself.
pub fn within_depth<S>(node: &Node<S>, limit: usize) -> (fits: bool)
    ensures
        fits == (depth(node@) <= limit),
    decreases node,
{
    match node {
        Node::Scalar(_) => true,
        Node::Array(items) => {
            if limit == 0 {
                return false;
            }
            proof {
                lemma_items_model(items@);
                lemma_deepest_item(items_model(items@), (limit - 1) as nat);
            }
            let mut i: usize = 0;
            while i < items.len()
                invariant
                    i <= items.len(),
                    limit > 0,
                    decreases_to!(node => items),
                    node@ == Doc::Array(items_model(items@)),
                    items_model(items@).len() == items.len(),
                    forall|j: int|
                        0 <= j < items.len() ==> #[trigger] items_model(items@)[j] == items[j]@,
                    forall|j: int|
                        0 <= j < i ==> depth(#[trigger] items_model(items@)[j]) <= limit - 1,
                    deepest_item(items_model(items@)) <= limit - 1 <==> forall|j: int|
                        0 <= j < items.len() ==> depth(#[trigger] items_model(items@)[j]) <= limit
                            - 1,
                decreases items.len() - i,
            {
                if !within_depth(&items[i], limit - 1) {
                    assert(depth(items_model(items@)[i as int]) > limit - 1);
                    return false;
                }
                i = i + 1;
            }
            true
        },
        Node::Object(fields) => {
            if limit == 0 {
                return false;
            }
            proof {
                lemma_fields_model(fields@);
                lemma_deepest_field(fields_model(fields@), (limit - 1) as nat);
            }
            let mut i: usize = 0;
            while i < fields.len()
                invariant
                    i <= fields.len(),
                    limit > 0,
                    decreases_to!(node => fields),
                    node@ == Doc::Object(fields_model(fields@)),
                    fields_model(fields@).len() == fields.len(),
                    forall|j: int|
                        0 <= j < fields.len() ==> #[trigger] fields_model(fields@)[j] == (
                            fields[j].0@,
                            fields[j].1@,
                        ),
                    forall|j: int|
                        0 <= j < i ==> depth((#[trigger] fields_model(fields@)[j]).1) <= limit - 1,
                    deepest_field(fields_model(fields@)) <= limit - 1 <==> forall|j: int|
                        0 <= j < fields.len() ==> depth((#[trigger] fields_model(fields@)[j]).1)
                            <= limit - 1,
                decreases fields.len() - i,
            {
                if !within_depth(&fields[i].1, limit - 1) {
                    assert(depth(fields_model(fields@)[i as int].1) > limit - 1);
                    return false;
                }
                i = i + 1;
            }
            true
        },
    }
}

} // verus!
