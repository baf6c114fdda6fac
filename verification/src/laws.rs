//! What holds of flattening whatever the document.

use crate::document::{Doc, Fields};
use crate::flat_map::{
    keys_distinct, lemma_position_absent, lemma_position_present, lemma_record_well_formed,
    position, record, well_formed, Entries, Flat,
};
use crate::flatten::{
    fields_of, flattened, leaves_at, leaves_of_fields, leaves_of_items, lemma_record_all_concat,
    lemma_record_all_single, lemma_record_all_well_formed, node_of, record_all, Leaves,
};
use vstd::prelude::*;

verus! {

/// Every field of the object is a scalar.
pub open spec fn is_flat<S>(fields: Fields<S>) -> bool {
    forall|i: int| 0 <= i < fields.len() ==> (#[trigger] fields[i]).1 is Scalar
}

/// The scalars of an array of scalars are listed in order, all under the
/// array's path.
proof fn lemma_leaves_of_scalars<S>(path: Seq<char>, scalars: Seq<S>)
    ensures
        leaves_of_items(path, scalars.map_values(|x: S| Doc::Scalar(x))) == scalars.map_values(
            |x: S| (path, x),
        ),
    decreases scalars.len(),
{
    let items = scalars.map_values(|x: S| Doc::Scalar(x));
    let listed = scalars.map_values(|x: S| (path, x));
    if scalars.len() == 0 {
        assert(leaves_of_items(path, items) =~= listed);
    } else {
        lemma_leaves_of_scalars(path, scalars.drop_last());
        assert(items.drop_last() =~= scalars.drop_last().map_values(|x: S| Doc::Scalar(x)));
        assert(leaves_at(path, items.last()) == seq![(path, scalars.last())]);
        assert(leaves_of_items(path, items) =~= listed);
    }
}

/// Recording the first `count` of `scalars` under a key that the map does
/// not have appends one entry: the bare scalar where `count` is one, the
/// sequence of those scalars where it is more.
proof fn lemma_record_run<S>(m: Entries<S>, key: Seq<char>, scalars: Seq<S>, count: int)
    requires
        keys_distinct(m),
        position(m, key) is None,
        1 <= count <= scalars.len(),
    ensures
        record_all(m, scalars.map_values(|x: S| (key, x)).take(count)) == m.push(
            (
                key,
                if count == 1 {
                    Flat::Scalar(scalars[0])
                } else {
                    Flat::Sequence(scalars.take(count))
                },
            ),
        ),
    decreases count,
{
    let listed = scalars.map_values(|x: S| (key, x));
    let now = listed.take(count);
    if count == 1 {
        assert(now =~= seq![(key, scalars[0])]);
        lemma_record_all_single(m, key, scalars[0]);
    } else {
        lemma_record_run(m, key, scalars, count - 1);
        let earlier = record_all(m, listed.take(count - 1));
        assert(now.drop_last() =~= listed.take(count - 1));
        assert(now.last() == (key, scalars[count - 1]));
        assert(record_all(m, now) == record(earlier, key, scalars[count - 1]));
        assert(keys_distinct(earlier)) by {
            assert forall|i: int, j: int| 0 <= i < j < earlier.len() implies (
            #[trigger] earlier[i]).0 != (#[trigger] earlier[j]).0 by {
                if j == m.len() {
                    assert(m[i].0 != key);
                } else {
                    assert(m[i].0 != m[j].0);
                }
            }
        }
        lemma_position_present(earlier, key, m.len() as int);
        if count == 2 {
            assert(scalars.take(2) =~= seq![scalars[0], scalars[1]]);
        } else {
            assert(scalars.take(count) =~= scalars.take(count - 1).push(scalars[count - 1]));
        }
        assert(record(earlier, key, scalars[count - 1]) =~= m.push(
            (key, Flat::Sequence(scalars.take(count))),
        ));
    }
}

/// Flattening a well-formed flat map that is read as an object gives the
/// map back.
pub proof fn lemma_flattened_fields_of<S>(m: Entries<S>)
    requires
        well_formed(m),
    ensures
        flattened(fields_of(m)) == m,
    decreases m.len(),
{
    let fields = fields_of(m);
    if m.len() == 0 {
        assert(fields =~= Seq::empty());
        assert(flattened(fields) =~= m);
    } else {
        let rest = m.drop_last();
        let (key, value) = m.last();
        assert(well_formed(rest)) by {
            assert forall|i: int, j: int| 0 <= i < j < rest.len() implies (#[trigger] rest[i]).0
                != (#[trigger] rest[j]).0 by {
                assert(m[i].0 != m[j].0);
            }
            assert forall|i: int| 0 <= i < rest.len() implies (
                (#[trigger] rest[i]).1 matches Flat::Sequence(xs) ==> xs.len() >= 2
            ) by {
                assert(rest[i] == m[i]);
            }
        }
        lemma_flattened_fields_of(rest);
        assert(fields.drop_last() =~= fields_of(rest));
        assert(fields.last() == (key, node_of(value)));
        let listed = leaves_at(key, node_of(value));
        lemma_record_all_concat(Seq::empty(), leaves_of_fields(None, fields_of(rest)), listed);
        assert(flattened(fields) == record_all(rest, listed));
        assert(position(rest, key) is None) by {
            assert forall|i: int| 0 <= i < rest.len() implies (#[trigger] rest[i]).0 != key by {
                assert(m[i].0 != m[m.len() - 1].0);
            }
            lemma_position_absent(rest, key);
        }
        match value {
            Flat::Scalar(scalar) => {
                lemma_record_all_single(rest, key, scalar);
            },
            Flat::Sequence(scalars) => {
                assert(m[m.len() - 1].1 matches Flat::Sequence(xs) ==> xs.len() >= 2);
                lemma_leaves_of_scalars(key, scalars);
                let pairs = scalars.map_values(|x: S| (key, x));
                assert(pairs.take(scalars.len() as int) =~= pairs);
                assert(scalars.take(scalars.len() as int) =~= scalars);
                lemma_record_run(rest, key, scalars, scalars.len() as int);
            },
        }
        assert(rest.push(m.last()) =~= m);
    }
}

/// Identity on flat input: an object whose fields are all scalars, under
/// keys that differ, flattens to itself.
pub proof fn law_identity_on_flat_input<S>(fields: Fields<S>)
    requires
        is_flat(fields),
        keys_distinct(fields),
    ensures
        fields_of(flattened(fields)) == fields,
        flattened(fields).len() == fields.len(),
        forall|i: int|
            0 <= i < fields.len() ==> #[trigger] flattened(fields)[i] == (
                fields[i].0,
                Flat::Scalar(fields[i].1->Scalar_0),
            ),
{
    let m = fields.map_values(|f: (Seq<char>, Doc<S>)| (f.0, Flat::Scalar(f.1->Scalar_0)));
    assert(well_formed(m)) by {
        assert forall|i: int, j: int| 0 <= i < j < m.len() implies (#[trigger] m[i]).0 != (
        #[trigger] m[j]).0 by {
            assert(fields[i].0 != fields[j].0);
        }
    }
    assert(fields_of(m) =~= fields) by {
        assert forall|i: int| 0 <= i < fields.len() implies fields_of(m)[i] == fields[i] by {
            assert(fields[i].1 is Scalar);
        }
    }
    lemma_flattened_fields_of(m);
}

/// Idempotence: flattening what flattening gave, read as an object, changes
/// nothing.
pub proof fn law_idempotent<S>(fields: Fields<S>)
    ensures
        flattened(fields_of(flattened(fields))) == flattened(fields),
{
    lemma_record_all_well_formed(
        Seq::<(Seq<char>, Flat<S>)>::empty(),
        leaves_of_fields(None, fields),
    );
    lemma_flattened_fields_of(flattened(fields));
}

/// The scalars that a flattened value holds, in order.
pub open spec fn scalars_of<S>(value: Flat<S>) -> Seq<S> {
    match value {
        Flat::Scalar(scalar) => seq![scalar],
        Flat::Sequence(scalars) => scalars,
    }
}

/// The scalars that the map holds under `key`, in order: none where the
/// key is not in it.
pub open spec fn held<S>(m: Entries<S>, key: Seq<char>) -> Seq<S> {
    match position(m, key) {
        None => Seq::empty(),
        Some(i) => scalars_of(m[i].1),
    }
}

/// The scalars that `leaves` lists under `key`, in order.
pub open spec fn listed_under<S>(leaves: Leaves<S>, key: Seq<char>) -> Seq<S>
    decreases leaves.len(),
{
    if leaves.len() == 0 {
        Seq::empty()
    } else if leaves.last().0 == key {
        listed_under(leaves.drop_last(), key).push(leaves.last().1)
    } else {
        listed_under(leaves.drop_last(), key)
    }
}

/// The keys of a flat map, in order.
pub open spec fn keys_of<S>(m: Entries<S>) -> Seq<Seq<char>> {
    m.map_values(|entry: (Seq<char>, Flat<S>)| entry.0)
}

/// The paths of `leaves` that are not in `known`, each once, in the order
/// in which they first occur.
pub open spec fn new_paths<S>(known: Seq<Seq<char>>, leaves: Leaves<S>) -> Seq<Seq<char>>
    decreases leaves.len(),
{
    if leaves.len() == 0 {
        Seq::empty()
    } else {
        let earlier = new_paths(known, leaves.drop_last());
        let path = leaves.last().0;
        if known.contains(path) || earlier.contains(path) {
            earlier
        } else {
            earlier.push(path)
        }
    }
}

/// Recording one scalar adds it behind what its key held, and changes
/// nothing under any other key.
pub proof fn lemma_record_held<S>(m: Entries<S>, key: Seq<char>, scalar: S, other: Seq<char>)
    requires
        well_formed(m),
    ensures
        held(record(m, key, scalar), other) == if other == key {
            held(m, key).push(scalar)
        } else {
            held(m, other)
        },
{
    let r = record(m, key, scalar);
    lemma_record_well_formed(m, key, scalar);
    match position(m, key) {
        None => {
            lemma_position_present(r, key, m.len() as int);
            if other != key {
                match position(m, other) {
                    None => {
                        assert forall|i: int| 0 <= i < r.len() implies (#[trigger] r[i]).0
                            != other by {
                            if i < m.len() {
                                assert(m[i].0 != other);
                            }
                        }
                        lemma_position_absent(r, other);
                    },
                    Some(at) => {
                        lemma_position_present(r, other, at);
                    },
                }
            } else {
                assert(held(r, key) =~= held(m, key).push(scalar));
            }
        },
        Some(at) => {
            lemma_position_present(r, key, at);
            if other != key {
                match position(m, other) {
                    None => {
                        assert forall|i: int| 0 <= i < r.len() implies (#[trigger] r[i]).0
                            != other by {
                            assert(r[i].0 == m[i].0);
                        }
                        lemma_position_absent(r, other);
                    },
                    Some(there) => {
                        lemma_position_present(r, other, there);
                    },
                }
            } else {
                assert(held(r, key) =~= held(m, key).push(scalar));
            }
        },
    }
}

/// Order of merging: what a key holds after a list of leaves was recorded
/// is what it held before, followed by the scalars that the list has
/// under that key, in the order of the list.
pub proof fn law_held_in_order<S>(m: Entries<S>, leaves: Leaves<S>, key: Seq<char>)
    requires
        well_formed(m),
    ensures
        held(record_all(m, leaves), key) == held(m, key) + listed_under(leaves, key),
    decreases leaves.len(),
{
    if leaves.len() == 0 {
        assert(held(m, key) + listed_under(leaves, key) =~= held(m, key));
    } else {
        let earlier = record_all(m, leaves.drop_last());
        law_held_in_order(m, leaves.drop_last(), key);
        lemma_record_all_well_formed(m, leaves.drop_last());
        lemma_record_held(earlier, leaves.last().0, leaves.last().1, key);
        assert(held(record_all(m, leaves), key) =~= held(m, key) + listed_under(leaves, key));
    }
}

/// A key is in a well-formed map exactly if it holds a scalar; it holds one
/// scalar bare and more than one as their sequence.
pub proof fn law_value_of_held<S>(m: Entries<S>, key: Seq<char>)
    requires
        well_formed(m),
    ensures
        position(m, key) is None <==> held(m, key).len() == 0,
        position(m, key) matches Some(i) ==> m[i].1 == if held(m, key).len() == 1 {
            Flat::Scalar(held(m, key)[0])
        } else {
            Flat::Sequence(held(m, key))
        },
{
    if let Some(i) = position(m, key) {
        assert(m[i].1 matches Flat::Sequence(xs) ==> xs.len() >= 2);
    }
}

/// Order of keys: recording appends the paths that the map did not have,
/// each once, in the order in which the list first has them.
pub proof fn law_keys_in_order<S>(m: Entries<S>, leaves: Leaves<S>)
    requires
        well_formed(m),
    ensures
        keys_of(record_all(m, leaves)) == keys_of(m) + new_paths(keys_of(m), leaves),
    decreases leaves.len(),
{
    if leaves.len() == 0 {
        assert(keys_of(m) + new_paths(keys_of(m), leaves) =~= keys_of(m));
    } else {
        let earlier = record_all(m, leaves.drop_last());
        let path = leaves.last().0;
        let fresh = new_paths(keys_of(m), leaves.drop_last());
        law_keys_in_order(m, leaves.drop_last());
        lemma_record_all_well_formed(m, leaves.drop_last());
        let now = record(earlier, path, leaves.last().1);
        match position(earlier, path) {
            None => {
                assert(!keys_of(earlier).contains(path)) by {
                    if keys_of(earlier).contains(path) {
                        let i = choose|i: int|
                            0 <= i < keys_of(earlier).len() && keys_of(earlier)[i] == path;
                        assert(earlier[i].0 == path);
                    }
                }
                assert(!keys_of(m).contains(path) && !fresh.contains(path)) by {
                    if keys_of(m).contains(path) {
                        let i = choose|i: int| 0 <= i < keys_of(m).len() && keys_of(m)[i] == path;
                        assert((keys_of(m) + fresh)[i] == path);
                    }
                    if fresh.contains(path) {
                        let i = choose|i: int| 0 <= i < fresh.len() && fresh[i] == path;
                        assert((keys_of(m) + fresh)[keys_of(m).len() + i] == path);
                    }
                }
                assert(keys_of(now) =~= keys_of(earlier).push(path));
                assert(keys_of(now) =~= keys_of(m) + fresh.push(path));
            },
            Some(at) => {
                assert(keys_of(earlier)[at] == path);
                assert(keys_of(m).contains(path) || fresh.contains(path)) by {
                    if at < keys_of(m).len() {
                        assert(keys_of(m)[at] == path);
                    } else {
                        assert(fresh[at - keys_of(m).len()] == path);
                    }
                }
                assert(keys_of(now) =~= keys_of(earlier));
            },
        }
    }
}

/// Every scalar that `leaves` lists under `key` is one of its leaves.
pub proof fn lemma_listed_under_is_leaf<S>(leaves: Leaves<S>, key: Seq<char>, j: int)
    requires
        0 <= j < listed_under(leaves, key).len(),
    ensures
        exists|k: int|
            0 <= k < leaves.len() && #[trigger] leaves[k] == (key, listed_under(leaves, key)[j]),
    decreases leaves.len(),
{
    if leaves.len() > 0 {
        let earlier = listed_under(leaves.drop_last(), key);
        if j < earlier.len() {
            lemma_listed_under_is_leaf(leaves.drop_last(), key, j);
            let k = choose|k: int|
                0 <= k < leaves.drop_last().len() && #[trigger] leaves.drop_last()[k] == (
                    key,
                    earlier[j],
                );
            assert(leaves[k] == (key, listed_under(leaves, key)[j]));
        } else {
            assert(leaves[leaves.len() - 1] == (key, listed_under(leaves, key)[j]));
        }
    }
}

/// Nothing is invented: every scalar that the flat map of an object holds
/// is a scalar of the object, listed under the key that holds it.
pub proof fn law_scalars_from_document<S>(fields: Fields<S>, i: int, j: int)
    requires
        0 <= i < flattened(fields).len(),
        0 <= j < scalars_of(flattened(fields)[i].1).len(),
    ensures
        exists|k: int|
            0 <= k < leaves_of_fields(None, fields).len() && #[trigger] leaves_of_fields(
                None,
                fields,
            )[k] == (flattened(fields)[i].0, scalars_of(flattened(fields)[i].1)[j]),
{
    let empty = Seq::<(Seq<char>, Flat<S>)>::empty();
    let leaves = leaves_of_fields(None, fields);
    let m = flattened(fields);
    let key = m[i].0;
    lemma_record_all_well_formed(empty, leaves);
    lemma_position_present(m, key, i);
    lemma_position_absent(empty, key);
    law_held_in_order(empty, leaves, key);
    assert(held(m, key) =~= listed_under(leaves, key));
    lemma_listed_under_is_leaf(leaves, key, j);
}

/// What the flat map of an object holds: under each key the scalars that
/// the depth-first walk of the object lists under that path, in the order
/// of the walk; and its keys are the paths of the walk, each once, in the
/// order in which the walk first comes to them.
pub proof fn law_flattened_by_key<S>(fields: Fields<S>, key: Seq<char>)
    ensures
        held(flattened(fields), key) == listed_under(leaves_of_fields(None, fields), key),
        keys_of(flattened(fields)) == new_paths(Seq::empty(), leaves_of_fields(None, fields)),
        keys_distinct(flattened(fields)),
{
    let empty = Seq::<(Seq<char>, Flat<S>)>::empty();
    let leaves = leaves_of_fields(None, fields);
    lemma_position_absent(empty, key);
    law_held_in_order(empty, leaves, key);
    assert(held(empty, key) + listed_under(leaves, key) =~= listed_under(leaves, key));
    law_keys_in_order(empty, leaves);
    assert(keys_of(empty) =~= Seq::<Seq<char>>::empty());
    assert(keys_of(empty) + new_paths(keys_of(empty), leaves) =~= new_paths(
        Seq::empty(),
        leaves,
    ));
    lemma_record_all_well_formed(empty, leaves);
}

} // verus!
