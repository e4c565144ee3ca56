//! The change-set model.
//!
//! A change batch is an ordered sequence of (key, optional value) pairs —
//! `Some` stages an upsert, `None` a deletion — for the main namespace,
//! and an ordered sequence of per-child batches.  `stage` interprets a
//! batch against a key/value map in sequence order, so on a repeated key
//! the later entry wins.

use vstd::prelude::*;
use crate::bytes::clone_bytes;

verus! {

/// A batch of staged changes for one namespace.
pub type StorageCollection = Vec<(Vec<u8>, Option<Vec<u8>>)>;

/// Per-child change batches, by child id.
pub type ChildStorageCollection = Vec<(Vec<u8>, StorageCollection)>;

/// The view of an optional value.
pub open spec fn opt_view(o: Option<Vec<u8>>) -> Option<Seq<u8>> {
    match o {
        Some(v) => Some(v@),
        None => None,
    }
}

/// The view of a change batch.
pub open spec fn changes_view(s: Seq<(Vec<u8>, Option<Vec<u8>>)>) -> Seq<
    (Seq<u8>, Option<Seq<u8>>),
> {
    s.map_values(|p: (Vec<u8>, Option<Vec<u8>>)| (p.0@, opt_view(p.1)))
}

/// The view of per-child change batches.
pub open spec fn child_changes_view(s: Seq<(Vec<u8>, StorageCollection)>) -> Seq<
    (Seq<u8>, Seq<(Seq<u8>, Option<Seq<u8>>)>),
> {
    s.map_values(|p: (Vec<u8>, StorageCollection)| (p.0@, changes_view(p.1@)))
}

/// A map with a change batch applied in sequence order.
pub open spec fn stage(
    m: Map<Seq<u8>, Seq<u8>>,
    c: Seq<(Seq<u8>, Option<Seq<u8>>)>,
) -> Map<Seq<u8>, Seq<u8>>
    decreases c.len(),
{
    if c.len() == 0 {
        m
    } else {
        let prev = stage(m, c.drop_last());
        match c.last().1 {
            Some(v) => prev.insert(c.last().0, v),
            None => prev.remove(c.last().0),
        }
    }
}

/// The change batch that bulk-loads a key/value list: one upsert per pair.
pub open spec fn upserts(s: Seq<(Seq<u8>, Seq<u8>)>) -> Seq<(Seq<u8>, Option<Seq<u8>>)> {
    s.map_values(|p: (Seq<u8>, Seq<u8>)| (p.0, Some(p.1)))
}

/// A fresh copy of an optional value.
pub fn clone_opt(o: &Option<Vec<u8>>) -> (r: Option<Vec<u8>>)
    ensures
        opt_view(r) == opt_view(*o),
{
    match o {
        Some(v) => Some(clone_bytes(v)),
        None => None,
    }
}

} // verus!
