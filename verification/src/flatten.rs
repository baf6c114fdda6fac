//! Flattening: the scalars of a document are listed depth first, each with
//! the dotted path of the object keys that lead to it, and recorded in that
//! order in a flat map.

use crate::depth::{depth, within_depth};
use crate::document::{fields_model, items_model, Doc, Fields, Node};
use crate::error::FlattenError;
use crate::flat_map::{
    lemma_record_well_formed, record, well_formed, Entries, Flat, FlatMap,
};
use vstd::prelude::*;
use vstd::string::StringExecFns;

verus! {

/// The scalars of a document in the order of a depth-first walk, each with
/// its path.
pub type Leaves<S> = Seq<(Seq<char>, S)>;

/// The path of the field `key` of an object that is reached by `prefix`.
pub open spec fn child_path(prefix: Option<Seq<char>>, key: Seq<char>) -> Seq<char> {
    match prefix {
        None => key,
        Some(parent) => parent + seq!['.'] + key,
    }
}

/// The scalars below `node`, which is reached by `path`. An array adds
/// nothing to the path of its items.
pub open spec fn leaves_at<S>(path: Seq<char>, node: Doc<S>) -> Leaves<S>
    decreases node,
{
    match node {
        Doc::Scalar(scalar) => seq![(path, scalar)],
        Doc::Array(items) => leaves_of_items(path, items),
        Doc::Object(fields) => leaves_of_fields(Some(path), fields),
    }
}

/// The scalars below the items of an array that is reached by `path`.
pub open spec fn leaves_of_items<S>(path: Seq<char>, items: Seq<Doc<S>>) -> Leaves<S>
    decreases items,
{
    if items.len() == 0 {
        Seq::empty()
    } else {
        leaves_of_items(path, items.drop_last()) + leaves_at(path, items.last())
    }
}

/// The scalars below the fields of an object that is reached by `prefix`;
/// the root object is reached by no prefix.
pub open spec fn leaves_of_fields<S>(
    prefix: Option<Seq<char>>,
    fields: Fields<S>,
) -> Leaves<S>
    decreases fields,
{
    if fields.len() == 0 {
        Seq::empty()
    } else {
        leaves_of_fields(prefix, fields.drop_last()) + leaves_at(
            child_path(prefix, fields.last().0),
            fields.last().1,
        )
    }
}

/// The map after all of `leaves` were recorded, first to last.
pub open spec fn record_all<S>(m: Entries<S>, leaves: Leaves<S>) -> Entries<S>
    decreases leaves.len(),
{
    if leaves.len() == 0 {
        m
    } else {
        record(record_all(m, leaves.drop_last()), leaves.last().0, leaves.last().1)
    }
}

/// The flat map of the object with these fields.
pub open spec fn flattened<S>(fields: Fields<S>) -> Entries<S> {
    record_all(Seq::empty(), leaves_of_fields(None, fields))
}

/// A flattened value read as a document node: a bare scalar is a scalar, a
/// sequence is the array of its scalars.
pub open spec fn node_of<S>(value: Flat<S>) -> Doc<S> {
    match value {
        Flat::Scalar(scalar) => Doc::Scalar(scalar),
        Flat::Sequence(scalars) => Doc::Array(scalars.map_values(|x: S| Doc::Scalar(x))),
    }
}

/// A flat map read as the fields of an object.
pub open spec fn fields_of<S>(m: Entries<S>) -> Fields<S> {
    m.map_values(|entry: (Seq<char>, Flat<S>)| (entry.0, node_of(entry.1)))
}

/// Recording one list after another is recording their concatenation.
pub proof fn lemma_record_all_concat<S>(m: Entries<S>, first: Leaves<S>, second: Leaves<S>)
    ensures
        record_all(m, first + second) == record_all(record_all(m, first), second),
    decreases second.len(),
{
    if second.len() == 0 {
        assert(first + second =~= first);
    } else {
        lemma_record_all_concat(m, first, second.drop_last());
        assert((first + second).drop_last() =~= first + second.drop_last());
        assert((first + second).last() == second.last());
    }
}

/// Recording keeps the invariant of a flat map.
pub proof fn lemma_record_all_well_formed<S>(m: Entries<S>, leaves: Leaves<S>)
    requires
        well_formed(m),
    ensures
        well_formed(record_all(m, leaves)),
    decreases leaves.len(),
{
    if leaves.len() > 0 {
        lemma_record_all_well_formed(m, leaves.drop_last());
        lemma_record_well_formed(
            record_all(m, leaves.drop_last()),
            leaves.last().0,
            leaves.last().1,
        );
    }
}

/// Recording a single leaf.
pub proof fn lemma_record_all_single<S>(m: Entries<S>, key: Seq<char>, scalar: S)
    ensures
        record_all(m, seq![(key, scalar)]) == record(m, key, scalar),
{
    let one = seq![(key, scalar)];
    assert(one.drop_last() =~= Seq::<(Seq<char>, S)>::empty());
    assert(record_all(m, one.drop_last()) == m);
}

/// The model of an optional path prefix.
pub open spec fn prefix_model(base_key: Option<&str>) -> Option<Seq<char>> {
    match base_key {
        Some(parent) => Some(parent@),
        None => None,
    }
}

/// Records `to_insert` under `key`: a new key holds the bare scalar, a key
/// that holds a bare scalar is promoted to the pair of both, and a key that
/// holds a sequence has the scalar appended.
pub fn insert_value<S>(base: &mut FlatMap<S>, key: &str, to_insert: S)
    ensures
        final(base)@ == record(old(base)@, key@, to_insert),
{
    base.record(key.to_owned(), to_insert);
}

/// Records the scalars below `node`, which is reached by `path`.
pub fn insert_node<S>(base: &mut FlatMap<S>, path: &str, node: Node<S>)
    ensures
        final(base)@ == record_all(old(base)@, leaves_at(path@, node@)),
    decreases node,
{
    match node {
        Node::Array(items) => {
            insert_array(base, path, items);
        },
        Node::Object(fields) => {
            insert_object(base, Some(path), fields);
        },
        Node::Scalar(scalar) => {
            proof {
                lemma_record_all_single(base@, path@, scalar);
            }
            insert_value(base, path, scalar);
        },
    }
}

/// Records the scalars below the items of an array under the array's own
/// path: the position of an item adds nothing to it.
pub fn insert_array<S>(base: &mut FlatMap<S>, base_key: &str, array: Vec<Node<S>>)
    ensures
        final(base)@ == record_all(old(base)@, leaves_of_items(base_key@, items_model(array@))),
    decreases array,
{
    let ghost start = base@;
    for item in it: array.into_iter()
        invariant
            it.seq() == array@,
            base@ == record_all(
                start,
                leaves_of_items(base_key@, items_model(array@.take(it.index() as int))),
            ),
    {
        let ghost before = array@.take(it.index() as int);
        let ghost after = array@.take(it.index() + 1);
        proof {
            assert(after.drop_last() =~= before);
            assert(after.last() == item);
            assert(items_model(after) == items_model(before).push(item@));
            assert(items_model(after).drop_last() =~= items_model(before));
            lemma_record_all_concat(
                start,
                leaves_of_items(base_key@, items_model(before)),
                leaves_at(base_key@, item@),
            );
        }
        insert_node(base, base_key, item);
    }
    proof {
        assert(array@.take(array@.len() as int) =~= array@);
    }
}

/// Records the scalars below the fields of an object. The path of a field
/// is its key, joined by a dot to the path of the object where it has one.
pub fn insert_object<S>(
    base: &mut FlatMap<S>,
    base_key: Option<&str>,
    object: Vec<(String, Node<S>)>,
)
    ensures
        final(base)@ == record_all(
            old(base)@,
            leaves_of_fields(prefix_model(base_key), fields_model(object@)),
        ),
    decreases object,
{
    let ghost start = base@;
    let ghost prefix = prefix_model(base_key);
    for field in it: object.into_iter()
        invariant
            it.seq() == object@,
            prefix == prefix_model(base_key),
            base@ == record_all(
                start,
                leaves_of_fields(prefix, fields_model(object@.take(it.index() as int))),
            ),
    {
        let ghost before = object@.take(it.index() as int);
        let ghost after = object@.take(it.index() + 1);
        let (key, value) = field;
        let new_key = match base_key {
            None => key,
            Some(parent) => {
                let mut joined = parent.to_owned();
                joined.append(".");
                joined.append(key.as_str());
                proof {
                    reveal_strlit(".");
                    assert("."@ =~= seq!['.']);
                }
                joined
            },
        };
        proof {
            assert(new_key@ == child_path(prefix, key@));
            assert(after.drop_last() =~= before);
            assert(after.last() == field);
            assert(fields_model(after) == fields_model(before).push((key@, value@)));
            assert(fields_model(after).drop_last() =~= fields_model(before));
            lemma_record_all_concat(
                start,
                leaves_of_fields(prefix, fields_model(before)),
                leaves_at(new_key@, value@),
            );
        }
        insert_node(base, new_key.as_str(), value);
    }
    proof {
        assert(object@.take(object@.len() as int) =~= object@);
    }
}

/// Flattens the object with these fields: the scalars below it are recorded
/// in an empty map in the order of a depth-first walk.
pub fn flatten_object<S>(object: Vec<(String, Node<S>)>) -> (flat: FlatMap<S>)
    ensures
        flat@ == flattened(fields_model(object@)),
        well_formed(flat@),
{
    let mut flat = FlatMap::new();
    proof {
        lemma_record_all_well_formed(
            Seq::<(Seq<char>, Flat<S>)>::empty(),
            leaves_of_fields(None, fields_model(object@)),
        );
    }
    insert_object(&mut flat, None, object);
    flat
}

/// Flattens a document whose root is an object, and refuses any other root
/// before anything is recorded.
pub fn flatten<S>(root: Node<S>) -> (result: Result<FlatMap<S>, FlattenError>)
    ensures
        match result {
            Ok(flat) => root@ matches Doc::Object(fields) && flat@ == flattened(fields)
                && well_formed(flat@),
            Err(error) => !(root@ is Object) && error == FlattenError::InvalidInput,
        },
{
    match root {
        Node::Object(fields) => Ok(flatten_object(fields)),
        Node::Array(_) => Err(FlattenError::InvalidInput),
        Node::Scalar(_) => Err(FlattenError::InvalidInput),
    }
}

/// Flattens a document whose root is an object and which nests its
/// containers no deeper than `max_depth`. Both conditions are tested before
/// anything is recorded; the root is tested first.
pub fn flatten_within<S>(root: Node<S>, max_depth: usize) -> (result: Result<
    FlatMap<S>,
    FlattenError,
>)
    ensures
        match result {
            Ok(flat) => root@ matches Doc::Object(fields) && depth(root@) <= max_depth && flat@
                == flattened(fields) && well_formed(flat@),
            Err(FlattenError::InvalidInput) => !(root@ is Object),
            Err(FlattenError::DepthExceeded) => root@ is Object && depth(root@) > max_depth,
        },
{
    match &root {
        Node::Object(_) => {},
        Node::Array(_) => {
            return Err(FlattenError::InvalidInput);
        },
        Node::Scalar(_) => {
            return Err(FlattenError::InvalidInput);
        },
    }
    if !within_depth(&root, max_depth) {
        return Err(FlattenError::DepthExceeded);
    }
    flatten(root)
}

} // verus!
