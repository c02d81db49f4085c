//! Shaping query results.
//!
//! The caller runs a query and decodes the cells it needs; these functions
//! turn the decoded rows into the value a query helper returns. A cell that
//! could not be decoded arrives as `None`.
use vstd::prelude::*;

use std::collections::HashMap;
use std::hash::Hash;

verus! {

broadcast use vstd::std_specs::hash::group_hash_axioms;

/// The decoded values among `fields`, in order.
pub open spec fn present<T>(fields: Seq<Option<T>>) -> Seq<T>
    decreases fields.len(),
{
    if fields.len() == 0 {
        Seq::empty()
    } else {
        let rest = present(fields.drop_last());
        match fields.last() {
            Some(v) => rest.push(v),
            None => rest,
        }
    }
}

/// The map that inserting each fully decoded `(key, value)` row builds, in
/// row order, so that a later row overwrites an earlier one with the same key.
pub open spec fn row_map<K, V>(rows: Seq<(Option<K>, Option<V>)>) -> Map<K, V>
    decreases rows.len(),
{
    if rows.len() == 0 {
        Map::empty()
    } else {
        let rest = row_map(rows.drop_last());
        match rows.last() {
            (Some(k), Some(v)) => rest.insert(k, v),
            _ => rest,
        }
    }
}

/// The rows that carry a key, grouped by key, each group in row order.
pub open spec fn groups<K, V>(rows: Seq<Option<(K, V)>>) -> Map<K, Seq<V>>
    decreases rows.len(),
{
    if rows.len() == 0 {
        Map::empty()
    } else {
        let rest = groups(rows.drop_last());
        match rows.last() {
            Some((k, v)) => rest.insert(
                k,
                if rest.contains_key(k) {
                    rest[k].push(v)
                } else {
                    seq![v]
                },
            ),
            None => rest,
        }
    }
}

/// The first field of the first row: `None` when no row came back, or when
/// the field could not be decoded.
pub fn first_field<T>(first_row: Option<Option<T>>) -> (r: Option<T>)
    ensures
        r == match first_row {
            Some(field) => field,
            None => None,
        },
{
    match first_row {
        Some(field) => field,
        None => None,
    }
}

/// The first column of every row, skipping the rows whose field could not be
/// decoded.
pub fn collect_column<T>(fields: Vec<Option<T>>) -> (r: Vec<T>)
    ensures
        r@ == present(fields@),
{
    let ghost all = fields@;
    let mut column: Vec<T> = Vec::new();
    for field in it: fields.into_iter()
        invariant
            it.seq() == all,
            column@ == present(all.take(it.index() as int)),
    {
        let ghost i = it.index() as int;
        proof {
            assert(all.take(i + 1).drop_last() =~= all.take(i));
        }
        match field {
            Some(value) => column.push(value),
            None => {},
        }
    }
    assert(all.take(all.len() as int) =~= all);
    column
}

/// A map from the first to the second column of every row; a row where
/// either could not be decoded is skipped, and of two rows with the same key
/// the later one wins.
pub fn collect_map<K: Eq + Hash, V>(rows: Vec<(Option<K>, Option<V>)>) -> (r: HashMap<K, V>)
    requires
        vstd::std_specs::hash::obeys_key_model::<K>(),
    ensures
        r@ == row_map(rows@),
{
    let ghost all = rows@;
    let mut map: HashMap<K, V> = HashMap::new();
    for row in it: rows.into_iter()
        invariant
            it.seq() == all,
            vstd::std_specs::hash::obeys_key_model::<K>(),
            map@ == row_map(all.take(it.index() as int)),
    {
        let ghost i = it.index() as int;
        proof {
            assert(all.take(i + 1).drop_last() =~= all.take(i));
        }
        match row {
            (Some(key), Some(value)) => {
                map.insert(key, value);
            },
            _ => {},
        }
    }
    assert(all.take(all.len() as int) =~= all);
    map
}

/// Groups the rows that carry a key by that key, keeping row order within
/// each group.
pub fn collect_grouped<K: Eq + Hash, V>(rows: Vec<Option<(K, V)>>) -> (r: HashMap<K, Vec<V>>)
    requires
        vstd::std_specs::hash::obeys_key_model::<K>(),
    ensures
        r@.dom() == groups(rows@).dom(),
        forall|k: K| #[trigger] r@.contains_key(k) ==> r@[k]@ == groups(rows@)[k],
{
    let ghost all = rows@;
    let mut map: HashMap<K, Vec<V>> = HashMap::new();
    for row in it: rows.into_iter()
        invariant
            it.seq() == all,
            vstd::std_specs::hash::obeys_key_model::<K>(),
            map@.dom() == groups(all.take(it.index() as int)).dom(),
            forall|k: K| #[trigger]
                map@.contains_key(k) ==> map@[k]@ == groups(all.take(it.index() as int))[k],
    {
        let ghost i = it.index() as int;
        let ghost before = groups(all.take(i));
        proof {
            assert(all.take(i + 1).drop_last() =~= all.take(i));
        }
        match row {
            Some((key, value)) => {
                let ghost old_map = map@;
                match map.remove(&key) {
                    Some(mut group) => {
                        group.push(value);
                        map.insert(key, group);
                    },
                    None => {
                        map.insert(key, vec![value]);
                    },
                }
                proof {
                    let after = groups(all.take(i + 1));
                    assert(map@.dom() =~= after.dom());
                    assert forall|k: K| #[trigger] map@.contains_key(k) implies map@[k]@
                        == after[k] by {
                        if k != key {
                            assert(old_map.contains_key(k));
                        }
                    }
                }
            },
            None => {},
        }
    }
    assert(all.take(all.len() as int) =~= all);
    map
}

/// Of two rows with the same key, the map keeps the value of the later one:
/// the value a key maps to is that of the last fully decoded row with it.
pub proof fn lemma_later_row_wins<K, V>(rows: Seq<(Option<K>, Option<V>)>, i: int, k: K, v: V)
    requires
        0 <= i < rows.len(),
        rows[i] == (Some(k), Some(v)),
        forall|j: int| i < j < rows.len() ==> !(#[trigger] rows[j].0 == Some(k) && rows[j].1 is Some),
    ensures
        row_map(rows).contains_key(k),
        row_map(rows)[k] == v,
    decreases rows.len(),
{
    let t = rows.drop_last();
    if i < rows.len() - 1 {
        assert forall|j: int| i < j < t.len() implies !(#[trigger] t[j].0 == Some(k) && t[j].1 is Some) by {
            assert(t[j] == rows[j]);
        }
        assert(t[i] == rows[i]);
        lemma_later_row_wins(t, i, k, v);
        assert(!(rows[rows.len() - 1].0 == Some(k) && rows[rows.len() - 1].1 is Some));
    }
}

} // verus!
