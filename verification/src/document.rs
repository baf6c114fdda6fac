//! The document tree that is flattened, and its mathematical model.

use vstd::prelude::*;

verus! {

/// The mathematical model of a document node.
pub enum Doc<S> {
    /// Named children, in order.
    Object(Seq<(Seq<char>, Doc<S>)>),
    /// Unnamed children, in order.
    Array(Seq<Doc<S>>),
    /// A value without children.
    Scalar(S),
}

/// The fields of an object: each key with its value, in order.
pub type Fields<S> = Seq<(Seq<char>, Doc<S>)>;

/// One node of a document. The scalar type `S` is never inspected.
#[derive(Debug, PartialEq, Eq)]
pub enum Node<S> {
    /// Named children, in order.
    Object(Vec<(String, Node<S>)>),
    /// Unnamed children, in order.
    Array(Vec<Node<S>>),
    /// A value without children.
    Scalar(S),
}

impl<S> View for Node<S> {
    type V = Doc<S>;

    open spec fn view(&self) -> Doc<S>
        decreases self,
    {
        match self {
            Node::Object(fields) => Doc::Object(fields_model(fields@)),
            Node::Array(items) => Doc::Array(items_model(items@)),
            Node::Scalar(scalar) => Doc::Scalar(*scalar),
        }
    }
}

/// The models of the items of an array, in order.
pub open spec fn items_model<S>(items: Seq<Node<S>>) -> Seq<Doc<S>>
    decreases items,
{
    if items.len() == 0 {
        Seq::empty()
    } else {
        items_model(items.drop_last()).push(items.last()@)
    }
}

/// The models of the fields of an object, in order.
pub open spec fn fields_model<S>(fields: Seq<(String, Node<S>)>) -> Fields<S>
    decreases fields,
{
    if fields.len() == 0 {
        Seq::empty()
    } else {
        fields_model(fields.drop_last()).push((fields.last().0@, fields.last().1@))
    }
}

/// The model of an array has one item for each item of the array.
pub proof fn lemma_items_model<S>(items: Seq<Node<S>>)
    ensures
        items_model(items).len() == items.len(),
        forall|i: int| 0 <= i < items.len() ==> #[trigger] items_model(items)[i] == items[i]@,
    decreases items.len(),
{
    if items.len() == 0 {
        assert(items_model(items) == Seq::<Doc<S>>::empty());
    } else {
        lemma_items_model(items.drop_last());
        assert(items_model(items) == items_model(items.drop_last()).push(items.last()@));
        assert forall|i: int| 0 <= i < items.len() implies #[trigger] items_model(items)[i]
            == items[i]@ by {
            if i < items.len() - 1 {
                assert(items_model(items.drop_last())[i] == items.drop_last()[i]@);
            }
        }
    }
}

/// The model of an object has one field for each field of the object.
pub proof fn lemma_fields_model<S>(fields: Seq<(String, Node<S>)>)
    ensures
        fields_model(fields).len() == fields.len(),
        forall|i: int|
            0 <= i < fields.len() ==> #[trigger] fields_model(fields)[i] == (
                fields[i].0@,
                fields[i].1@,
            ),
    decreases fields.len(),
{
    if fields.len() == 0 {
        assert(fields_model(fields) == Seq::<(Seq<char>, Doc<S>)>::empty());
    } else {
        lemma_fields_model(fields.drop_last());
        assert(fields_model(fields) == fields_model(fields.drop_last()).push(
            (fields.last().0@, fields.last().1@),
        ));
        assert forall|i: int| 0 <= i < fields.len() implies #[trigger] fields_model(fields)[i] == (
            fields[i].0@,
            fields[i].1@,
        ) by {
            if i < fields.len() - 1 {
                assert(fields_model(fields.drop_last())[i] == (
                    fields.drop_last()[i].0@,
                    fields.drop_last()[i].1@,
                ));
            }
        }
    }
}

} // verus!
