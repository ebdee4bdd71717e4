//! The trusted boundary to the embedded backend. Each sub-tree of the
//! backend is an ordered, persistent map from byte strings to byte strings;
//! `tree_contents` names that map, and every wrapper below states, over that
//! name, what the one backend call in its body does. Nothing else in the
//! crate touches the backend directly.

use vstd::prelude::*;
use std::ops::Bound;
use crate::ende::{lex_lt, lex_le};
use crate::err::VsError;

verus! {

#[verifier::external_type_specification]
#[verifier::external_body]
pub struct ExDb(sled::Db);

#[verifier::external_type_specification]
#[verifier::external_body]
pub struct ExTree(sled::Tree);

/// What a backend sub-tree holds: its keys and their values.
pub uninterp spec fn tree_contents(t: sled::Tree) -> Map<Seq<u8>, Seq<u8>>;

/// A one-sided range bound over raw keys.
#[derive(Clone, Debug)]
pub enum RawBound {
    Incl(Vec<u8>),
    Excl(Vec<u8>),
}

pub open spec fn above_lo(lo: RawBound, k: Seq<u8>) -> bool {
    match lo {
        RawBound::Incl(b) => lex_le(b@, k),
        RawBound::Excl(b) => lex_lt(b@, k),
    }
}

pub open spec fn below_hi(hi: RawBound, k: Seq<u8>) -> bool {
    match hi {
        RawBound::Incl(b) => lex_le(k, b@),
        RawBound::Excl(b) => lex_lt(k, b@),
    }
}

pub open spec fn in_bounds(lo: RawBound, hi: RawBound, k: Seq<u8>) -> bool {
    above_lo(lo, k) && below_hi(hi, k)
}

/// The two maps agree everywhere except possibly at `key`: what a failed
/// single-key operation leaves behind.
pub open spec fn unchanged_except(c0: Map<Seq<u8>, Seq<u8>>, c1: Map<Seq<u8>, Seq<u8>>, key: Seq<u8>) -> bool {
    &&& forall|k: Seq<u8>| k != key ==> #[trigger] c1.contains_key(k) == c0.contains_key(k)
    &&& forall|k: Seq<u8>| k != key && #[trigger] c0.contains_key(k) ==> c1[k] == c0[k]
}

/// Relies on sled::Config::open: opens (creating it if missing) a store
/// rooted at the given directory; every handle into the store is a sub-tree
/// of it.
#[verifier::external_body]
pub(crate) fn sled_open_db(dir: &str) -> (r: Result<sled::Db, VsError>)
    ensures
        r matches Err(e) ==> e == VsError::BackendIo,
{
    sled::Config::new().path(dir).mode(sled::Mode::HighThroughput).open().map_err(|_|
        VsError::BackendIo,
    )
}

/// Relies on sled::Db::open_tree: returns the named sub-tree; its contents
/// are whatever the store already holds under that name, a finite map.
#[verifier::external_body]
pub(crate) fn sled_open_tree(db: &sled::Db, name: &[u8]) -> (r: Result<sled::Tree, VsError>)
    ensures
        r matches Ok(t) ==> tree_contents(t).dom().finite(),
        r matches Err(e) ==> e == VsError::BackendIo,
{
    db.open_tree(name).map_err(|_| VsError::BackendIo)
}

/// Relies on sled::Tree::get: returns the value stored at the key, if any;
/// the tree is read, never changed.
#[verifier::external_body]
pub(crate) fn tree_get(t: &sled::Tree, key: &[u8]) -> (r: Result<Option<Vec<u8>>, VsError>)
    ensures
        match r {
            Ok(Some(v)) => tree_contents(*t).contains_key(key@) && v@ == tree_contents(*t)[key@],
            Ok(None) => !tree_contents(*t).contains_key(key@),
            Err(e) => e == VsError::BackendIo,
        },
{
    match t.get(key) {
        Ok(Some(v)) => Ok(Some(v.to_vec())),
        Ok(None) => Ok(None),
        Err(_) => Err(VsError::BackendIo),
    }
}

/// Relies on sled::Tree::insert: stores the value at the key and returns the
/// value the key held before; a failed call touches no other key.
#[verifier::external_body]
pub(crate) fn tree_insert(t: &mut sled::Tree, key: &[u8], val: &[u8]) -> (r: Result<
    Option<Vec<u8>>,
    VsError,
>)
    ensures
        tree_contents(*final(t)).dom().finite(),
        match r {
            Ok(prior) => tree_contents(*final(t)) == tree_contents(*old(t)).insert(key@, val@)
                && (match prior {
                Some(p) => tree_contents(*old(t)).contains_key(key@) && p@ == tree_contents(
                    *old(t),
                )[key@],
                None => !tree_contents(*old(t)).contains_key(key@),
            }),
            Err(e) => e == VsError::BackendIo && unchanged_except(
                tree_contents(*old(t)),
                tree_contents(*final(t)),
                key@,
            ),
        },
{
    match t.insert(key, val) {
        Ok(Some(p)) => Ok(Some(p.to_vec())),
        Ok(None) => Ok(None),
        Err(_) => Err(VsError::BackendIo),
    }
}

/// Relies on sled::Tree::remove: deletes the key and returns the value it
/// held before; a failed call touches no other key.
#[verifier::external_body]
pub(crate) fn tree_remove(t: &mut sled::Tree, key: &[u8]) -> (r: Result<Option<Vec<u8>>, VsError>)
    ensures
        tree_contents(*final(t)).dom().finite(),
        match r {
            Ok(prior) => tree_contents(*final(t)) == tree_contents(*old(t)).remove(key@) && (match prior {
                Some(p) => tree_contents(*old(t)).contains_key(key@) && p@ == tree_contents(
                    *old(t),
                )[key@],
                None => !tree_contents(*old(t)).contains_key(key@),
            }),
            Err(e) => e == VsError::BackendIo && unchanged_except(
                tree_contents(*old(t)),
                tree_contents(*final(t)),
                key@,
            ),
        },
{
    match t.remove(key) {
        Ok(Some(p)) => Ok(Some(p.to_vec())),
        Ok(None) => Ok(None),
        Err(_) => Err(VsError::BackendIo),
    }
}

/// Relies on sled::Tree::flush: forces outstanding writes of this sub-tree
/// down to disk; the logical contents are not changed by it.
#[verifier::external_body]
pub(crate) fn tree_flush(t: &sled::Tree) -> (r: Result<(), VsError>)
    ensures
        r matches Err(e) ==> e == VsError::BackendIo,
{
    t.flush().map(|_| ()).map_err(|_| VsError::BackendIo)
}

/// Relies on sled::Tree::range: yields, in ascending lexicographic key
/// order, exactly the stored pairs whose keys lie within the bounds.
#[verifier::external_body]
pub(crate) fn tree_range_collect(t: &sled::Tree, lo: &RawBound, hi: &RawBound) -> (r: Result<
    Vec<(Vec<u8>, Vec<u8>)>,
    VsError,
>)
    ensures
        r matches Ok(v) ==> (forall|i: int, j: int|
            #![trigger v@[i], v@[j]]
            0 <= i < j < v@.len() ==> lex_lt(v@[i].0@, v@[j].0@)) && (forall|i: int|
            #![trigger v@[i]]
            0 <= i < v@.len() ==> tree_contents(*t).contains_key(v@[i].0@) && v@[i].1@
                == tree_contents(*t)[v@[i].0@] && in_bounds(*lo, *hi, v@[i].0@)) && (forall|
            k: Seq<u8>,
        |
            #![trigger tree_contents(*t).contains_key(k)]
            tree_contents(*t).contains_key(k) && in_bounds(*lo, *hi, k) ==> exists|i: int|
                0 <= i < v@.len() && v@[i].0@ == k),
        r matches Err(e) ==> e == VsError::BackendIo,
{
    let side = |b: &RawBound| match b {
        RawBound::Incl(x) => Bound::Included(x.clone()),
        RawBound::Excl(x) => Bound::Excluded(x.clone()),
    };
    let mut out: Vec<(Vec<u8>, Vec<u8>)> = Vec::new();
    for item in t.range::<Vec<u8>, _>((side(lo), side(hi))) {
        match item {
            Ok((k, v)) => out.push((k.to_vec(), v.to_vec())),
            Err(_) => return Err(VsError::BackendIo),
        }
    }
    Ok(out)
}

} // verus!
