//! The database: a concurrent map from keys to stored values (`dashmap::DashMap`).
//!
//! `DashMap` changes through shared references; here every change goes
//! through a `&mut` borrow, so that what the map holds before and after a
//! change can be told apart. A server that shares the map between
//! connections puts it behind a lock.
use crate::types::{BitobaseObject, ObjectView};
use dashmap::DashMap;
use vstd::prelude::*;

verus! {

/// The map type of the `dashmap` crate, whose insides stay hidden.
#[verifier::external_type_specification]
#[verifier::external_body]
#[verifier::reject_recursive_types(K)]
#[verifier::reject_recursive_types(V)]
#[verifier::reject_recursive_types(S)]
pub struct ExDashMap<K, V, S>(DashMap<K, V, S>);

/// What a database holds: each key, by its characters, to the view of its value.
pub type DbView = Map<Seq<char>, ObjectView>;

/// What the map holds: each key, by its characters, to the view of its value.
pub uninterp spec fn db_contents(db: DashMap<String, BitobaseObject>) -> Map<Seq<char>, ObjectView>;

/// An empty map (`DashMap::new`).
#[verifier::external_body]
fn dashmap_new() -> (r: DashMap<String, BitobaseObject>)
    ensures
        db_contents(r) == DbView::empty(),
{
    DashMap::new()
}

/// An empty database: it holds no key.
pub fn db_new() -> (db: DashMap<String, BitobaseObject>)
    ensures
        db_contents(db) == DbView::empty(),
{
    dashmap_new()
}

/// The value stored under `key`, copied out (`DashMap::get`, then the derived
/// `Clone` of the value): `None` exactly when the key is absent, else a value
/// with the view of the stored one.
#[verifier::external_body]
pub(crate) fn db_get(db: &DashMap<String, BitobaseObject>, key: &str) -> (r: Option<
    BitobaseObject,
>)
    ensures
        match r {
            Some(v) => db_contents(*db).contains_key(key@) && v@ == db_contents(*db)[key@],
            None => !db_contents(*db).contains_key(key@),
        },
{
    match db.get(key) {
        Some(entry) => Some(entry.value().clone()),
        None => None,
    }
}

/// Stores `value` under `key`, replacing any earlier value, which it returns
/// (`DashMap::insert`); no other key changes.
#[verifier::external_body]
pub(crate) fn db_insert(
    db: &mut DashMap<String, BitobaseObject>,
    key: String,
    value: BitobaseObject,
) -> (r: Option<BitobaseObject>)
    ensures
        db_contents(*final(db)) == db_contents(*old(db)).insert(key@, value@),
        match r {
            Some(v) => db_contents(*old(db)).contains_key(key@) && v@ == db_contents(
                *old(db),
            )[key@],
            None => !db_contents(*old(db)).contains_key(key@),
        },
{
    db.insert(key, value)
}

} // verus!
