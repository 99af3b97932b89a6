//! The candle table: a `dashmap::DashMap` from (token, granularity, bucket
//! start) to the bucket's bar, seen by the rest of the library through
//! `stored`, the map of what it holds. The engine owns its table and
//! changes it only through `&mut`, so each call below sees no other writer.

use vstd::prelude::*;

use dashmap::DashMap;

use crate::kline::Bar;
use crate::time_interval::{TimeInterval, Timestamp};

verus! {

/// dashmap's concurrent map, opaque here: what it holds is read only
/// through `stored`.
#[verifier::external_type_specification]
#[verifier::external_body]
#[verifier::reject_recursive_types(K)]
#[verifier::reject_recursive_types(V)]
#[verifier::reject_recursive_types(S)]
pub struct ExDashMap<K, V, S>(DashMap<K, V, S>);

/// A bucket's identity: token, granularity and bucket start.
pub type TableKey = (String, TimeInterval, Timestamp);

/// The view of a bucket's identity.
pub type KeyView = (Seq<char>, TimeInterval, Timestamp);

/// The candle table.
pub type Table = DashMap<TableKey, Bar>;

pub open spec fn key_view(k: TableKey) -> KeyView {
    (k.0@, k.1, k.2)
}

/// What a candle table holds, keyed by the views of its keys.
pub uninterp spec fn stored(m: Table) -> Map<KeyView, Bar>;

/// Relies on dashmap::DashMap::new: a new map holds nothing.
#[verifier::external_body]
pub(crate) fn table_new() -> (r: Table)
    ensures
        stored(r).dom() == Set::<KeyView>::empty(),
{
    DashMap::new()
}

/// Relies on dashmap::DashMap::insert: afterwards the key maps to the value
/// and every other key keeps its entry.
#[verifier::external_body]
pub(crate) fn table_insert(
    m: &mut Table,
    k: TableKey,
    v: Bar,
)
    ensures
        stored(*final(m)) == stored(*old(m)).insert(key_view(k), v),
{
    m.insert(k, v);
}

/// Relies on dashmap::DashMap::get: the value stored under the key, if any.
#[verifier::external_body]
pub(crate) fn table_get(m: &Table, k: &TableKey) -> (r: Option<Bar>)
    ensures
        r == (if stored(*m).contains_key(key_view(*k)) {
            Some(stored(*m)[key_view(*k)])
        } else {
            None
        }),
{
    m.get(k).map(|e| *e.value())
}

/// Relies on dashmap::DashMap::iter: every entry exactly once, in an order
/// that the map does not promise.
#[verifier::external_body]
pub(crate) fn table_entries(m: &Table) -> (r: Vec<(TableKey, Bar)>)
    ensures
        forall|i: int|
            #![trigger r@[i]]
            0 <= i < r@.len() ==> stored(*m).contains_key(key_view(r@[i].0))
                && stored(*m)[key_view(r@[i].0)] == r@[i].1,
        forall|k: KeyView|
            #![trigger stored(*m).contains_key(k)]
            stored(*m).contains_key(k) ==> exists|i: int|
                #![trigger r@[i]]
                0 <= i < r@.len() && key_view(r@[i].0) == k,
        forall|i: int, j: int|
            #![trigger r@[i], r@[j]]
            0 <= i < j < r@.len() ==> key_view(r@[i].0) != key_view(r@[j].0),
{
    m.iter().map(|e| (e.key().clone(), *e.value())).collect()
}

} // verus!
