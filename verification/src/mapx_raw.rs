//! The raw namespaced map: a logical ordered `bytes -> bytes` map pinned to
//! one 8-byte prefix. Every operation tags the user key with the prefix,
//! performs the one backend operation, and strips the tag from results; a
//! length counter lives in the meta sub-tree under the prefix's own bytes
//! and always equals the number of live keys.

use vstd::prelude::*;
use crate::ende::{
    be8, from_be8, lex_lt, lex_le, u64_to_be_vec, u64_from_be_slice, concat_bytes, bytes_eq,
    lemma_be8_round_trip, lemma_be8_injective, lemma_prefixed_inj, lemma_prefixed_parts,
    lemma_lex_concat_same_prefix, lemma_lex_concat_distinct_prefix, lemma_lex_le_extension,
    lemma_concat_order,
    lemma_be8_order,
};
use crate::engine::{
    tree_contents, tree_get, tree_insert, tree_remove, tree_range_collect, RawBound, in_bounds,
    above_lo, below_hi, unchanged_except,
};
use crate::err::VsError;
use crate::store::{VsStore, area_of, ns_of, lemma_ns_insert, lemma_ns_remove, lemma_ns_finite, AREAS, RESERVED};

verus! {

/// A bound over the user keys of one namespace.
pub enum KeyBound {
    Incl(Vec<u8>),
    Excl(Vec<u8>),
    Unbounded,
}

pub open spec fn above_key_lo(lo: KeyBound, k: Seq<u8>) -> bool {
    match lo {
        KeyBound::Incl(b) => lex_le(b@, k),
        KeyBound::Excl(b) => lex_lt(b@, k),
        KeyBound::Unbounded => true,
    }
}

pub open spec fn below_key_hi(hi: KeyBound, k: Seq<u8>) -> bool {
    match hi {
        KeyBound::Incl(b) => lex_le(k, b@),
        KeyBound::Excl(b) => lex_lt(k, b@),
        KeyBound::Unbounded => true,
    }
}

pub open spec fn key_in_bounds(lo: KeyBound, hi: KeyBound, k: Seq<u8>) -> bool {
    above_key_lo(lo, k) && below_key_hi(hi, k)
}

/// Namespaces other than `p` read the same in both stores.
pub open spec fn ns_frame(s0: VsStore, s1: VsStore, p: u64) -> bool {
    forall|q: u64| q != p ==> #[trigger] s1.ns(q) == s0.ns(q)
}

/// The meta sub-tree is unchanged but for the allocator cell and the length
/// cell of prefix `p`.
pub open spec fn meta_frame(s0: VsStore, s1: VsStore, p: u64) -> bool {
    &&& forall|k: Seq<u8>|
        k != be8(p) && k != VsStore::counter_key() ==> #[trigger] s1.meta_map().contains_key(k)
            == s0.meta_map().contains_key(k)
    &&& forall|k: Seq<u8>|
        k != be8(p) && k != VsStore::counter_key() && #[trigger] s0.meta_map().contains_key(k)
            ==> s1.meta_map()[k] == s0.meta_map()[k]
}

/// A single-key change to an area leaves every foreign namespace alone.
pub proof fn lemma_ns_unchanged_except(
    c0: Map<Seq<u8>, Seq<u8>>,
    c1: Map<Seq<u8>, Seq<u8>>,
    p: u64,
    k: Seq<u8>,
    q: u64,
)
    requires
        unchanged_except(c0, c1, be8(p) + k),
        q != p,
    ensures
        ns_of(c1, q) == ns_of(c0, q),
{
    assert forall|j: Seq<u8>| true implies #[trigger] ns_of(c1, q).contains_key(j) == ns_of(
        c0,
        q,
    ).contains_key(j) && (ns_of(c0, q).contains_key(j) ==> ns_of(c1, q)[j] == ns_of(c0, q)[j]) by {
        if be8(q) + j == be8(p) + k {
            lemma_prefixed_inj(q, j, p, k);
        }
    }
    assert(ns_of(c1, q) =~= ns_of(c0, q));
}


/// Tagging a key with the namespace prefix carries the user bounds to the
/// backend bounds built from the same prefix.
proof fn lemma_bound_lift(
    p: u64,
    k: Seq<u8>,
    lo: &KeyBound,
    lo_full: &RawBound,
    hi: &KeyBound,
    hi_full: &RawBound,
)
    requires
        p < u64::MAX,
        match (lo, lo_full) {
            (KeyBound::Incl(b), RawBound::Incl(fb)) => fb@ == be8(p) + b@,
            (KeyBound::Excl(b), RawBound::Excl(fb)) => fb@ == be8(p) + b@,
            (KeyBound::Unbounded, RawBound::Incl(fb)) => fb@ == be8(p),
            _ => false,
        },
        match (hi, hi_full) {
            (KeyBound::Incl(b), RawBound::Incl(fb)) => fb@ == be8(p) + b@,
            (KeyBound::Excl(b), RawBound::Excl(fb)) => fb@ == be8(p) + b@,
            (KeyBound::Unbounded, RawBound::Excl(fb)) => fb@ == be8((p + 1) as u64),
            _ => false,
        },
    ensures
        in_bounds(*lo_full, *hi_full, be8(p) + k) == key_in_bounds(*lo, *hi, k),
{
    match lo {
        KeyBound::Incl(b) => {
            lemma_concat_order(be8(p), b@, k);
        },
        KeyBound::Excl(b) => {
            lemma_concat_order(be8(p), b@, k);
        },
        KeyBound::Unbounded => {
            lemma_lex_le_extension(be8(p), k);
        },
    }
    match hi {
        KeyBound::Incl(b) => {
            lemma_concat_order(be8(p), k, b@);
        },
        KeyBound::Excl(b) => {
            lemma_concat_order(be8(p), k, b@);
        },
        KeyBound::Unbounded => {
            lemma_be8_order(p, (p + 1) as u64);
            lemma_lex_concat_distinct_prefix(be8(p), be8((p + 1) as u64), k, Seq::empty());
            assert(be8((p + 1) as u64) + Seq::<u8>::empty() =~= be8((p + 1) as u64));
        },
    }
}


/// What a range scan returns: sorted, exact values, and complete over the
/// keys of `view` within the bounds.
pub open spec fn range_post(
    view: Map<Seq<u8>, Seq<u8>>,
    lo: KeyBound,
    hi: KeyBound,
    v: Seq<(Vec<u8>, Vec<u8>)>,
) -> bool {
    &&& forall|a: int, b: int|
        #![trigger v[a], v[b]]
        0 <= a < b < v.len() ==> lex_lt(v[a].0@, v[b].0@)
    &&& forall|a: int|
        #![trigger v[a]]
        0 <= a < v.len() ==> view.contains_key(v[a].0@) && v[a].1@ == view[v[a].0@]
            && key_in_bounds(lo, hi, v[a].0@)
    &&& forall|k: Seq<u8>|
        #![trigger view.contains_key(k)]
        view.contains_key(k) && key_in_bounds(lo, hi, k) ==> exists|a: int|
            0 <= a < v.len() && v[a].0@ == k
}

/// A handle to one namespace: identity is the prefix alone, so handles are
/// cheap to copy and to serialise, and a copied handle aliases the same
/// stored data.
pub struct MapxRaw {
    pub prefix: u64,
}

impl MapxRaw {
    /// What this map holds in the given store.
    pub open spec fn view_in(&self, s: &VsStore) -> Map<Seq<u8>, Seq<u8>> {
        s.ns(self.prefix)
    }

    /// The handle is usable in the store: the prefix was allocated below
    /// the counter and the length cell agrees with the live contents.
    pub open spec fn wf_in(&self, s: &VsStore) -> bool {
        &&& RESERVED <= self.prefix < u64::MAX
        &&& self.prefix < s.counter()
        &&& self.view_in(s).dom().finite()
        &&& self.view_in(s).dom().len() <= u64::MAX
        &&& s.meta_map().contains_key(be8(self.prefix))
        &&& s.meta_map()[be8(self.prefix)] == be8(self.view_in(s).dom().len() as u64)
    }

    /// The area this namespace is routed to.
    fn area_idx(&self) -> (i: usize)
        ensures
            i == area_of(self.prefix),
            i < AREAS,
    {
        (self.prefix % 8) as usize
    }

    /// The full backend key of one user key.
    fn full_key(&self, key: &[u8]) -> (r: Vec<u8>)
        ensures
            r@ == be8(self.prefix) + key@,
    {
        let pb = u64_to_be_vec(self.prefix);
        concat_bytes(pb.as_slice(), key)
    }

    /// Reads the value at `key`, if the store holds one.
    pub fn get(&self, s: &VsStore, key: &[u8]) -> (r: Result<Option<Vec<u8>>, VsError>)
        requires
            s.wf(),
        ensures
            match r {
                Ok(Some(v)) => self.view_in(s).contains_key(key@) && v@ == self.view_in(s)[key@],
                Ok(None) => !self.view_in(s).contains_key(key@),
                Err(e) => e == VsError::BackendIo,
            },
    {
        let idx = self.area_idx();
        let fk = self.full_key(key);
        tree_get(&s.areas[idx], fk.as_slice())
    }

    /// Whether the store holds a value at `key`.
    pub fn contains_key(&self, s: &VsStore, key: &[u8]) -> (r: Result<bool, VsError>)
        requires
            s.wf(),
        ensures
            r matches Ok(b) ==> b == self.view_in(s).contains_key(key@),
            r matches Err(e) ==> e == VsError::BackendIo,
    {
        match self.get(s, key) {
            Ok(o) => Ok(o.is_some()),
            Err(e) => Err(e),
        }
    }

    /// How many keys the map holds; kept as a counter in the meta sub-tree
    /// so it survives restarts.
    pub fn len(&self, s: &VsStore) -> (r: Result<u64, VsError>)
        requires
            s.wf(),
            self.wf_in(s),
        ensures
            r matches Ok(n) ==> n == self.view_in(s).dom().len(),
            r matches Err(e) ==> e == VsError::BackendIo,
    {
        let lk = u64_to_be_vec(self.prefix);
        match tree_get(&s.meta, lk.as_slice()) {
            Ok(Some(v)) => {
                proof {
                    lemma_be8_round_trip(self.view_in(s).dom().len() as u64);
                }
                Ok(u64_from_be_slice(v.as_slice()))
            },
            Ok(None) => {
                proof {
                    assert(false);
                }
                Err(VsError::BackendIo)
            },
            Err(e) => Err(e),
        }
    }

    /// Whether the map holds nothing.
    pub fn is_empty(&self, s: &VsStore) -> (r: Result<bool, VsError>)
        requires
            s.wf(),
            self.wf_in(s),
        ensures
            r matches Ok(b) ==> b == (self.view_in(s).dom().len() == 0),
            r matches Err(e) ==> e == VsError::BackendIo,
    {
        match self.len(s) {
            Ok(n) => Ok(n == 0),
            Err(e) => Err(e),
        }
    }

    /// Stores `val` at `key` and hands back what the key held before. The
    /// length counter moves only on a genuine create.
    pub fn insert(&self, s: &mut VsStore, key: &[u8], val: &[u8]) -> (r: Result<
        Option<Vec<u8>>,
        VsError,
    >)
        requires
            old(s).wf(),
            self.wf_in(old(s)),
            old(s).ns(self.prefix).dom().len() < u64::MAX,
        ensures
            final(s).wf(),
            final(s).counter() == old(s).counter(),
            final(s).areas@.len() == old(s).areas@.len(),
            ns_frame(*old(s), *final(s), self.prefix),
            meta_frame(*old(s), *final(s), self.prefix),
            r matches Err(e) ==> e == VsError::BackendIo,
            r matches Ok(prior) ==> {
                &&& self.wf_in(final(s))
                &&& self.view_in(final(s)) == self.view_in(old(s)).insert(key@, val@)
                &&& match prior {
                    Some(p) => self.view_in(old(s)).contains_key(key@) && p@ == self.view_in(
                        old(s),
                    )[key@],
                    None => !self.view_in(old(s)).contains_key(key@),
                }
            },
    {
        let ghost p = self.prefix;
        let ghost v0 = self.view_in(old(s));
        let idx = self.area_idx();
        let fk = self.full_key(key);
        let res = tree_insert(&mut s.areas[idx], fk.as_slice(), val);
        proof {
            lemma_store_wf_after_area(*old(s), *s, idx as int);
        }
        let ghost smid = *s;
        match res {
            Ok(prior) => {
                proof {
                    lemma_ns_views_after_area_op(*old(s), *s, p, key@, val@, true);
                }
                let created = match &prior {
                    Some(_) => false,
                    None => true,
                };
                if created {
                    let lk = u64_to_be_vec(self.prefix);
                    let old_n = match tree_get(&s.meta, lk.as_slice()) {
                        Ok(Some(v)) => {
                            proof {
                                lemma_be8_round_trip(v0.dom().len() as u64);
                            }
                            u64_from_be_slice(v.as_slice())
                        },
                        Ok(None) => {
                            proof {
                                assert(false);
                            }
                            return Err(VsError::BackendIo);
                        },
                        Err(e) => {
                            proof {
                                lemma_meta_untouched(smid, *s, p);
                            }
                            return Err(e);
                        },
                    };
                    let nb = u64_to_be_vec(old_n + 1);
                    let wr = tree_insert(&mut s.meta, lk.as_slice(), nb.as_slice());
                    proof {
                        lemma_same_areas_same_ns(smid, *s);
                    }
                    match wr {
                        Ok(_) => {
                            proof {
                                assert(tree_contents(s.meta) == tree_contents(old(s).meta).insert(
                                    be8(p),
                                    nb@,
                                ));
                                lemma_store_wf_after_meta(*old(s), *s, p);
                                assert(self.view_in(s).dom() =~= v0.dom().insert(key@));
                            }
                            Ok(None)
                        },
                        Err(e) => {
                            proof {
                                lemma_store_wf_after_meta_failed(*old(s), *s, p);
                            }
                            Err(e)
                        },
                    }
                } else {
                    proof {
                        lemma_meta_untouched(smid, *s, p);
                        assert(self.view_in(s).dom() =~= v0.dom());
                    }
                    Ok(prior)
                }
            },
            Err(e) => {
                proof {
                    lemma_ns_frame_after_failed_area_op(*old(s), *s, p, key@);
                    lemma_meta_untouched(smid, *s, p);
                }
                Err(e)
            },
        }
    }

    /// The serialised form of the handle: its 8-byte prefix. Data is not
    /// copied; a handle read back addresses the same namespace.
    pub fn to_bytes(&self) -> (r: Vec<u8>)
        ensures
            r@ == be8(self.prefix),
    {
        u64_to_be_vec(self.prefix)
    }

    /// Rebuilds a handle from its serialised 8 bytes.
    pub fn from_bytes(b: &[u8]) -> (r: Option<MapxRaw>)
        ensures
            match r {
                Some(m) => b@.len() == 8 && m.prefix == from_be8(b@),
                None => b@.len() != 8,
            },
    {
        if b.len() == 8 {
            Some(MapxRaw { prefix: u64_from_be_slice(b) })
        } else {
            None
        }
    }

    /// Removes every key of this namespace and resets the length cell, so
    /// the map reads empty afterwards. Also how a freshly allocated
    /// namespace is scrubbed before first use.
    pub fn clear(&self, s: &mut VsStore) -> (r: Result<(), VsError>)
        requires
            old(s).wf(),
            RESERVED <= self.prefix < u64::MAX,
            self.prefix < old(s).counter(),
        ensures
            r matches Err(e) ==> e == VsError::BackendIo,
            r matches Ok(_) ==> {
                &&& final(s).wf()
                &&& final(s).counter() == old(s).counter()
                &&& ns_frame(*old(s), *final(s), self.prefix)
                &&& meta_frame(*old(s), *final(s), self.prefix)
                &&& self.wf_in(final(s))
                &&& self.view_in(final(s)) == Map::<Seq<u8>, Seq<u8>>::empty()
            },
    {
        let ghost p = self.prefix;
        let ghost v0 = self.view_in(old(s));
        let idx = self.area_idx();
        let pb = u64_to_be_vec(self.prefix);
        let pb2 = u64_to_be_vec(self.prefix + 1);
        let lo = RawBound::Incl(pb);
        let hi = RawBound::Excl(pb2);
        let items = match tree_range_collect(&s.areas[idx], &lo, &hi) {
            Ok(v) => v,
            Err(e) => {
                return Err(e);
            },
        };
        let ghost c0 = tree_contents(old(s).areas@[area_of(p)]);
        let n = items.len();
        let mut i: usize = 0;
        let pbr = u64_to_be_vec(self.prefix);
        while i < n
            invariant
                0 <= i <= n,
                n == items@.len(),
                s.wf(),
                s.meta == old(s).meta,
                s.areas@.len() == AREAS,
                RESERVED <= p < u64::MAX,
                idx == area_of(p),
                idx < AREAS,
                ns_frame(*old(s), *s, p),
                pbr@ == be8(p),
                v0 == ns_of(c0, p),
                forall|k: Seq<u8>|
                    #[trigger] s.ns(p).contains_key(k) <==> (v0.contains_key(k) && !(exists|j: int|
                        0 <= j < i && items@[j].0@ == be8(p) + k)),
            decreases n - i,
        {
            let ghost sprev = *s;
            let kb = &items[i];
            let tagged = kb.0.len() >= 8 && bytes_eq(
                vstd::slice::slice_subrange(kb.0.as_slice(), 0, 8),
                pbr.as_slice(),
            );
            if tagged {
                let ghost stripped = kb.0@.skip(8);
                proof {
                    assert(kb.0@ =~= kb.0@.subrange(0, 8) + kb.0@.skip(8));
                    assert(kb.0@ == be8(p) + stripped);
                }
                let res = tree_remove(&mut s.areas[idx], kb.0.as_slice());
                proof {
                    lemma_store_wf_after_area(sprev, *s, idx as int);
                }
                match res {
                    Ok(_) => {},
                    Err(e) => {
                        return Err(e);
                    },
                }
                proof {
                    lemma_ns_views_after_area_op(sprev, *s, p, stripped, Seq::empty(), false);
                    assert forall|k: Seq<u8>| #[trigger] s.ns(p).contains_key(k) <==> (
                    v0.contains_key(k) && !(exists|j: int|
                        0 <= j <= i && items@[j].0@ == be8(p) + k)) by {
                        if k == stripped {
                            assert(items@[i as int].0@ == be8(p) + k);
                        } else {
                            assert(s.ns(p).contains_key(k) == sprev.ns(p).contains_key(k));
                            assert forall|j: int|
                                0 <= j <= i && items@[j].0@ == be8(p) + k implies j < i by {
                                if j == i {
                                    lemma_prefixed_inj(p, k, p, stripped);
                                }
                            }
                        }
                    }
                }
            } else {
                proof {
                    assert forall|k: Seq<u8>| #[trigger] s.ns(p).contains_key(k) <==> (
                    v0.contains_key(k) && !(exists|j: int|
                        0 <= j <= i && items@[j].0@ == be8(p) + k)) by {
                        assert forall|j: int|
                            0 <= j <= i && items@[j].0@ == be8(p) + k implies j < i by {
                            if j == i {
                                lemma_prefixed_parts(p, k);
                            }
                        }
                    }
                }
            }
            i = i + 1;
            proof {
                assert forall|q: u64| q != p implies #[trigger] s.ns(q) == old(s).ns(q) by {
                    assert(s.ns(q) == sprev.ns(q));
                }
            }
        }
        proof {
            assert forall|k: Seq<u8>| !(#[trigger] s.ns(p).contains_key(k)) by {
                if s.ns(p).contains_key(k) {
                    assert(v0.contains_key(k));
                    assert(c0.contains_key(be8(p) + k));
                    lemma_lex_le_extension(be8(p), k);
                    lemma_be8_order(p, (p + 1) as u64);
                    lemma_lex_concat_distinct_prefix(be8(p), be8((p + 1) as u64), k, Seq::empty());
                    assert(be8((p + 1) as u64) + Seq::<u8>::empty() =~= be8((p + 1) as u64));
                    assert(in_bounds(lo, hi, be8(p) + k));
                }
            }
            assert(s.ns(p) =~= Map::<Seq<u8>, Seq<u8>>::empty());
        }
        let ghost smid = *s;
        let zb = u64_to_be_vec(0u64);
        let wr = tree_insert(&mut s.meta, pbr.as_slice(), zb.as_slice());
        proof {
            lemma_same_areas_same_ns(smid, *s);
        }
        match wr {
            Ok(_) => {
                proof {
                    assert(tree_contents(s.meta) == tree_contents(old(s).meta).insert(
                        be8(p),
                        zb@,
                    ));
                    lemma_store_wf_after_meta(*old(s), *s, p);
                    assert(self.view_in(s) =~= Map::<Seq<u8>, Seq<u8>>::empty());
                    assert(self.view_in(s).dom() =~= Map::<Seq<u8>, Seq<u8>>::empty().dom());
                }
                Ok(())
            },
            Err(e) => {
                proof {
                    lemma_store_wf_after_meta_failed(*old(s), *s, p);
                }
                Err(e)
            },
        }
    }

    /// Creates a fresh, empty map under a newly allocated prefix.
    pub fn new(s: &mut VsStore) -> (r: Result<MapxRaw, VsError>)
        requires
            old(s).wf(),
        ensures
            r matches Err(e) ==> e == VsError::BackendIo,
            r matches Ok(m) ==> {
                &&& final(s).wf()
                &&& m.wf_in(final(s))
                &&& m.prefix == old(s).counter()
                &&& final(s).counter() == m.prefix + 1
                &&& m.view_in(final(s)) == Map::<Seq<u8>, Seq<u8>>::empty()
                &&& ns_frame(*old(s), *final(s), m.prefix)
                &&& meta_frame(*old(s), *final(s), m.prefix)
            },
    {
        let p = match s.alloc_prefix() {
            Ok(p) => p,
            Err(e) => {
                return Err(e);
            },
        };
        let ghost salloc = *s;
        let m = MapxRaw { prefix: p };
        match m.clear(s) {
            Ok(_) => {
                proof {
                    assert forall|q: u64| q != p implies #[trigger] s.ns(q) == old(s).ns(q) by {
                        assert(s.ns(q) == salloc.ns(q));
                        assert(salloc.areas@ == old(s).areas@);
                        assert(salloc.areas@[area_of(q)] == old(s).areas@[area_of(q)]);
                    }
                    assert(be8(p).len() == 8);
                    assert(VsStore::counter_key().len() == 1);
                    assert(be8(p) != VsStore::counter_key());
                    assert forall|k: Seq<u8>|
                        k != be8(p) && k != VsStore::counter_key() implies #[trigger] s.meta_map().contains_key(
                        k,
                    ) == old(s).meta_map().contains_key(k) by {
                        assert(s.meta_map().contains_key(k) == salloc.meta_map().contains_key(k));
                        assert(salloc.meta_map() == old(s).meta_map().insert(
                            VsStore::counter_key(),
                            be8((p + 1) as u64),
                        ));
                    }
                    assert forall|k: Seq<u8>|
                        k != be8(p) && k != VsStore::counter_key() && #[trigger] old(s).meta_map().contains_key(
                        k,
                    ) implies s.meta_map()[k] == old(s).meta_map()[k] by {
                        assert(salloc.meta_map() == old(s).meta_map().insert(
                            VsStore::counter_key(),
                            be8((p + 1) as u64),
                        ));
                        assert(salloc.meta_map().contains_key(k));
                        assert(s.meta_map()[k] == salloc.meta_map()[k]);
                        assert(salloc.meta_map()[k] == old(s).meta_map()[k]);
                    }
                    assert(meta_frame(*old(s), *s, p));
                }
                Ok(m)
            },
            Err(e) => Err(e),
        }
    }

    /// The stored pairs whose keys lie within the bounds, in ascending key
    /// order: exactly the backend's bounded range scan, with the namespace
    /// tag stripped.
    #[verifier::rlimit(100)]
    #[verifier::spinoff_prover]
    pub fn range(&self, s: &VsStore, lo: &KeyBound, hi: &KeyBound) -> (r: Result<
        Vec<(Vec<u8>, Vec<u8>)>,
        VsError,
    >)
        requires
            s.wf(),
            RESERVED <= self.prefix < u64::MAX,
        ensures
            r matches Ok(v) ==> range_post(self.view_in(s), *lo, *hi, v@),
            r matches Err(e) ==> e == VsError::BackendIo,
    {
        let ghost p = self.prefix;
        let ghost v0 = self.view_in(s);
        let idx = self.area_idx();
        let pb = u64_to_be_vec(self.prefix);
        let lo_full = match lo {
            KeyBound::Incl(b) => RawBound::Incl(concat_bytes(pb.as_slice(), b.as_slice())),
            KeyBound::Excl(b) => RawBound::Excl(concat_bytes(pb.as_slice(), b.as_slice())),
            KeyBound::Unbounded => RawBound::Incl(u64_to_be_vec(self.prefix)),
        };
        let hi_full = match hi {
            KeyBound::Incl(b) => RawBound::Incl(concat_bytes(pb.as_slice(), b.as_slice())),
            KeyBound::Excl(b) => RawBound::Excl(concat_bytes(pb.as_slice(), b.as_slice())),
            KeyBound::Unbounded => RawBound::Excl(u64_to_be_vec(self.prefix + 1)),
        };
        proof {
            assert forall|k: Seq<u8>| #[trigger] in_bounds(lo_full, hi_full, be8(p) + k)
                == key_in_bounds(*lo, *hi, k) by {
                lemma_bound_lift(p, k, lo, &lo_full, hi, &hi_full);
            }
        }
        let items = match tree_range_collect(&s.areas[idx], &lo_full, &hi_full) {
            Ok(v) => v,
            Err(e) => {
                return Err(e);
            },
        };
        let ghost c0 = tree_contents(s.areas@[area_of(p)]);
        let n = items.len();
        let mut out: Vec<(Vec<u8>, Vec<u8>)> = Vec::new();
        let mut i: usize = 0;
        while i < n
            invariant
                0 <= i <= n,
                n == items@.len(),
                s.wf(),
                RESERVED <= p < u64::MAX,
                idx == area_of(p),
                idx < AREAS,
                pb@ == be8(p),
                v0 == ns_of(c0, p),
                c0 == tree_contents(s.areas@[area_of(p)]),
                forall|a: int, b: int|
                    #![trigger items@[a], items@[b]]
                    0 <= a < b < n ==> lex_lt(items@[a].0@, items@[b].0@),
                forall|a: int|
                    #![trigger items@[a]]
                    0 <= a < n ==> c0.contains_key(items@[a].0@) && items@[a].1@
                        == c0[items@[a].0@] && in_bounds(lo_full, hi_full, items@[a].0@),
                forall|k: Seq<u8>| #[trigger] in_bounds(lo_full, hi_full, be8(p) + k)
                    == key_in_bounds(*lo, *hi, k),
                forall|a: int|
                    #![trigger out@[a]]
                    0 <= a < out@.len() ==> v0.contains_key(out@[a].0@) && out@[a].1@
                        == v0[out@[a].0@] && key_in_bounds(*lo, *hi, out@[a].0@),
                forall|a: int|
                    #![trigger out@[a]]
                    0 <= a < out@.len() ==> exists|j: int|
                        0 <= j < i && items@[j].0@ == be8(p) + out@[a].0@,
                forall|a: int, b: int|
                    #![trigger out@[a], out@[b]]
                    0 <= a < b < out@.len() ==> lex_lt(out@[a].0@, out@[b].0@),
                forall|k: Seq<u8>|
                    #![trigger v0.contains_key(k)]
                    v0.contains_key(k) && key_in_bounds(*lo, *hi, k) && (exists|j: int|
                        0 <= j < i && items@[j].0@ == be8(p) + k) ==> exists|a: int|
                        0 <= a < out@.len() && out@[a].0@ == k,
            decreases n - i,
        {
            let kb = &items[i];
            let tagged = kb.0.len() >= 8 && bytes_eq(
                vstd::slice::slice_subrange(kb.0.as_slice(), 0, 8),
                pb.as_slice(),
            );
            if tagged {
                let ghost stripped = kb.0@.skip(8);
                proof {
                    assert(kb.0@ =~= kb.0@.subrange(0, 8) + kb.0@.skip(8));
                    assert(kb.0@ == be8(p) + stripped);
                    assert(v0.contains_key(stripped));
                    assert(v0[stripped] == c0[be8(p) + stripped]);
                    assert(key_in_bounds(*lo, *hi, stripped));
                }
                let sk = vstd::slice::slice_to_vec(
                    vstd::slice::slice_subrange(kb.0.as_slice(), 8, kb.0.len()),
                );
                let sv = vstd::slice::slice_to_vec(kb.1.as_slice());
                let ghost out_old = out@;
                out.push((sk, sv));
                proof {
                    assert(out@[out@.len() - 1].0@ == stripped);
                    assert forall|a: int, b: int|
                        #![trigger out@[a], out@[b]]
                        0 <= a < b < out@.len() implies lex_lt(out@[a].0@, out@[b].0@) by {
                        if b == out@.len() - 1 {
                            let j = choose|j: int|
                                0 <= j < i && items@[j].0@ == be8(p) + out_old[a].0@;
                            assert(lex_lt(items@[j].0@, items@[i as int].0@));
                            lemma_concat_order(be8(p), out_old[a].0@, stripped);
                        } else {
                            assert(out_old[a] == out@[a] && out_old[b] == out@[b]);
                        }
                    }
                    assert forall|a: int| #![trigger out@[a]] 0 <= a < out@.len() implies exists|
                        j: int,
                    | 0 <= j < i + 1 && items@[j].0@ == be8(p) + out@[a].0@ by {
                        if a < out@.len() - 1 {
                            let j = choose|j: int|
                                0 <= j < i && items@[j].0@ == be8(p) + out_old[a].0@;
                            assert(0 <= j < i + 1 && items@[j].0@ == be8(p) + out@[a].0@);
                        } else {
                            assert(items@[i as int].0@ == be8(p) + out@[a].0@);
                        }
                    }
                    assert forall|k: Seq<u8>|
                        #![trigger v0.contains_key(k)]
                        v0.contains_key(k) && key_in_bounds(*lo, *hi, k) && (exists|j: int|
                            0 <= j < i + 1 && items@[j].0@ == be8(p) + k) implies exists|a: int|
                        0 <= a < out@.len() && out@[a].0@ == k by {
                        let j = choose|j: int| 0 <= j < i + 1 && items@[j].0@ == be8(p) + k;
                        if j < i {
                            let a = choose|a: int| 0 <= a < out_old.len() && out_old[a].0@ == k;
                            assert(out@[a].0@ == k);
                        } else {
                            lemma_prefixed_inj(p, k, p, stripped);
                            assert(out@[out@.len() - 1].0@ == k);
                        }
                    }
                }
            } else {
                proof {
                    assert forall|k: Seq<u8>|
                        #![trigger v0.contains_key(k)]
                        v0.contains_key(k) && key_in_bounds(*lo, *hi, k) && (exists|j: int|
                            0 <= j < i + 1 && items@[j].0@ == be8(p) + k) implies exists|a: int|
                        0 <= a < out@.len() && out@[a].0@ == k by {
                        let j = choose|j: int| 0 <= j < i + 1 && items@[j].0@ == be8(p) + k;
                        if j == i {
                            lemma_prefixed_parts(p, k);
                            assert(items@[i as int].0@.len() >= 8);
                            assert(items@[i as int].0@.subrange(0, 8) == be8(p));
                            assert(false);
                        }
                    }
                }
            }
            i = i + 1;
        }
        proof {
            assert forall|k: Seq<u8>|
                #![trigger self.view_in(s).contains_key(k)]
                self.view_in(s).contains_key(k) && key_in_bounds(*lo, *hi, k) implies exists|a: int|
                0 <= a < out@.len() && out@[a].0@ == k by {
                assert(v0.contains_key(k));
                assert(c0.contains_key(be8(p) + k));
                assert(in_bounds(lo_full, hi_full, be8(p) + k));
            }
            assert(range_post(self.view_in(s), *lo, *hi, out@));
        }
        Ok(out)
    }

    /// Every stored pair in ascending key order.
    pub fn iter(&self, s: &VsStore) -> (r: Result<Vec<(Vec<u8>, Vec<u8>)>, VsError>)
        requires
            s.wf(),
            RESERVED <= self.prefix < u64::MAX,
        ensures
            r matches Ok(v) ==> range_post(
                self.view_in(s),
                KeyBound::Unbounded,
                KeyBound::Unbounded,
                v@,
            ),
            r matches Err(e) ==> e == VsError::BackendIo,
    {
        self.range(s, &KeyBound::Unbounded, &KeyBound::Unbounded)
    }

    /// The smallest stored pair whose key is at or above `key`.
    pub fn get_ge(&self, s: &VsStore, key: &[u8]) -> (r: Result<Option<(Vec<u8>, Vec<u8>)>, VsError>)
        requires
            s.wf(),
            RESERVED <= self.prefix < u64::MAX,
        ensures
            r matches Ok(o) ==> match o {
                Some(kv) => self.view_in(s).contains_key(kv.0@) && kv.1@ == self.view_in(s)[kv.0@]
                    && lex_le(key@, kv.0@) && (forall|k2: Seq<u8>|
                    #[trigger] self.view_in(s).contains_key(k2) && lex_le(key@, k2) ==> lex_le(
                        kv.0@,
                        k2,
                    )),
                None => forall|k2: Seq<u8>|
                    #[trigger] self.view_in(s).contains_key(k2) ==> !lex_le(key@, k2),
            },
    {
        let kv = vstd::slice::slice_to_vec(key);
        let lo = KeyBound::Incl(kv);
        let out = match self.range(s, &lo, &KeyBound::Unbounded) {
            Ok(v) => v,
            Err(e) => {
                return Err(e);
            },
        };
        if out.len() == 0 {
            proof {
                assert forall|k2: Seq<u8>| #[trigger] self.view_in(s).contains_key(k2) implies !lex_le(
                    key@,
                    k2,
                ) by {
                    if lex_le(key@, k2) {
                        assert(key_in_bounds(lo, KeyBound::Unbounded, k2));
                    }
                }
            }
            Ok(None)
        } else {
            let first = (
                vstd::slice::slice_to_vec(out[0].0.as_slice()),
                vstd::slice::slice_to_vec(out[0].1.as_slice()),
            );
            proof {
                assert forall|k2: Seq<u8>|
                    #[trigger] self.view_in(s).contains_key(k2) && lex_le(key@, k2) implies lex_le(
                    out@[0].0@,
                    k2,
                ) by {
                    assert(key_in_bounds(lo, KeyBound::Unbounded, k2));
                    let a = choose|a: int| 0 <= a < out@.len() && out@[a].0@ == k2;
                    if a > 0 {
                        assert(lex_lt(out@[0].0@, out@[a].0@));
                    }
                }
            }
            Ok(Some(first))
        }
    }

    /// The largest stored pair whose key is at or below `key`.
    pub fn get_le(&self, s: &VsStore, key: &[u8]) -> (r: Result<Option<(Vec<u8>, Vec<u8>)>, VsError>)
        requires
            s.wf(),
            RESERVED <= self.prefix < u64::MAX,
        ensures
            r matches Ok(o) ==> match o {
                Some(kv) => self.view_in(s).contains_key(kv.0@) && kv.1@ == self.view_in(s)[kv.0@]
                    && lex_le(kv.0@, key@) && (forall|k2: Seq<u8>|
                    #[trigger] self.view_in(s).contains_key(k2) && lex_le(k2, key@) ==> lex_le(
                        k2,
                        kv.0@,
                    )),
                None => forall|k2: Seq<u8>|
                    #[trigger] self.view_in(s).contains_key(k2) ==> !lex_le(k2, key@),
            },
    {
        let kv = vstd::slice::slice_to_vec(key);
        let hi = KeyBound::Incl(kv);
        let out = match self.range(s, &KeyBound::Unbounded, &hi) {
            Ok(v) => v,
            Err(e) => {
                return Err(e);
            },
        };
        if out.len() == 0 {
            proof {
                assert forall|k2: Seq<u8>| #[trigger] self.view_in(s).contains_key(k2) implies !lex_le(
                    k2,
                    key@,
                ) by {
                    if lex_le(k2, key@) {
                        assert(key_in_bounds(KeyBound::Unbounded, hi, k2));
                    }
                }
            }
            Ok(None)
        } else {
            let last_i = out.len() - 1;
            let last = (
                vstd::slice::slice_to_vec(out[last_i].0.as_slice()),
                vstd::slice::slice_to_vec(out[last_i].1.as_slice()),
            );
            proof {
                assert forall|k2: Seq<u8>|
                    #[trigger] self.view_in(s).contains_key(k2) && lex_le(k2, key@) implies lex_le(
                    k2,
                    out@[last_i as int].0@,
                ) by {
                    assert(key_in_bounds(KeyBound::Unbounded, hi, k2));
                    let a = choose|a: int| 0 <= a < out@.len() && out@[a].0@ == k2;
                    if a < last_i {
                        assert(lex_lt(out@[a].0@, out@[last_i as int].0@));
                    }
                }
            }
            Ok(Some(last))
        }
    }

    /// Deletes `key` and hands back what it held.
    pub fn remove(&self, s: &mut VsStore, key: &[u8]) -> (r: Result<Option<Vec<u8>>, VsError>)
        requires
            old(s).wf(),
            self.wf_in(old(s)),
        ensures
            final(s).wf(),
            final(s).counter() == old(s).counter(),
            final(s).areas@.len() == old(s).areas@.len(),
            ns_frame(*old(s), *final(s), self.prefix),
            meta_frame(*old(s), *final(s), self.prefix),
            r matches Err(e) ==> e == VsError::BackendIo,
            r matches Ok(prior) ==> {
                &&& self.wf_in(final(s))
                &&& self.view_in(final(s)) == self.view_in(old(s)).remove(key@)
                &&& match prior {
                    Some(p) => self.view_in(old(s)).contains_key(key@) && p@ == self.view_in(
                        old(s),
                    )[key@],
                    None => !self.view_in(old(s)).contains_key(key@),
                }
            },
    {
        let ghost p = self.prefix;
        let ghost v0 = self.view_in(old(s));
        let idx = self.area_idx();
        let fk = self.full_key(key);
        let res = tree_remove(&mut s.areas[idx], fk.as_slice());
        proof {
            lemma_store_wf_after_area(*old(s), *s, idx as int);
        }
        let ghost smid = *s;
        match res {
            Ok(prior) => {
                proof {
                    lemma_ns_views_after_area_op(*old(s), *s, p, key@, Seq::empty(), false);
                }
                let existed = match &prior {
                    Some(_) => true,
                    None => false,
                };
                if existed {
                    let lk = u64_to_be_vec(self.prefix);
                    let old_n = match tree_get(&s.meta, lk.as_slice()) {
                        Ok(Some(v)) => {
                            proof {
                                lemma_be8_round_trip(v0.dom().len() as u64);
                            }
                            u64_from_be_slice(v.as_slice())
                        },
                        Ok(None) => {
                            proof {
                                assert(false);
                            }
                            return Err(VsError::BackendIo);
                        },
                        Err(e) => {
                            proof {
                                lemma_meta_untouched(smid, *s, p);
                            }
                            return Err(e);
                        },
                    };
                    proof {
                        assert(v0.dom().contains(key@));
                        assert(v0.dom().len() >= 1) by {
                            vstd::set_lib::lemma_set_empty_equivalency_len(v0.dom());
                        }
                    }
                    let nb = u64_to_be_vec(old_n - 1);
                    let wr = tree_insert(&mut s.meta, lk.as_slice(), nb.as_slice());
                    proof {
                        lemma_same_areas_same_ns(smid, *s);
                    }
                    match wr {
                        Ok(_) => {
                            proof {
                                assert(tree_contents(s.meta) == tree_contents(old(s).meta).insert(
                                    be8(p),
                                    nb@,
                                ));
                                lemma_store_wf_after_meta(*old(s), *s, p);
                                assert(self.view_in(s).dom() =~= v0.dom().remove(key@));
                            }
                            Ok(prior)
                        },
                        Err(e) => {
                            proof {
                                lemma_store_wf_after_meta_failed(*old(s), *s, p);
                            }
                            Err(e)
                        },
                    }
                } else {
                    proof {
                        lemma_meta_untouched(smid, *s, p);
                        assert(self.view_in(s).dom() =~= v0.dom());
                        assert(self.view_in(s) =~= v0);
                    }
                    Ok(None)
                }
            },
            Err(e) => {
                proof {
                    lemma_ns_frame_after_failed_area_op(*old(s), *s, p, key@);
                    lemma_meta_untouched(smid, *s, p);
                }
                Err(e)
            },
        }
    }
}

/// After mutating one area tree, the store's shape and the untouched trees
/// are as before.
proof fn lemma_store_wf_after_area(s0: VsStore, s1: VsStore, idx: int)
    requires
        s0.wf(),
        0 <= idx < AREAS,
        s1.meta == s0.meta,
        s1.areas@.len() == s0.areas@.len(),
        forall|j: int| 0 <= j < AREAS && j != idx ==> s1.areas@[j] == s0.areas@[j],
        tree_contents(s1.areas@[idx]).dom().finite(),
    ensures
        s1.wf(),
        s1.counter() == s0.counter(),
{
    assert forall|i: int| 0 <= i < AREAS implies (#[trigger] s1.area_map(i)).dom().finite() by {
        if i != idx {
            assert(s1.areas@[i] == s0.areas@[i]);
            assert(s0.area_map(i).dom().finite());
        }
    }
}

/// After the area write at `be8(p) + k`, namespace `p` reads as updated (or
/// shrunk) and all other namespaces read as before.
proof fn lemma_ns_views_after_area_op(
    s0: VsStore,
    s1: VsStore,
    p: u64,
    k: Seq<u8>,
    v: Seq<u8>,
    ins: bool,
)
    requires
        s0.wf(),
        s1.areas@.len() == s0.areas@.len() == AREAS,
        forall|j: int| 0 <= j < AREAS && j != area_of(p) ==> s1.areas@[j] == s0.areas@[j],
        s1.meta == s0.meta,
        ins ==> tree_contents(s1.areas@[area_of(p)]) == tree_contents(s0.areas@[area_of(p)]).insert(
            be8(p) + k,
            v,
        ),
        !ins ==> tree_contents(s1.areas@[area_of(p)]) == tree_contents(
            s0.areas@[area_of(p)],
        ).remove(be8(p) + k),
        tree_contents(s1.areas@[area_of(p)]).dom().finite(),
    ensures
        ins ==> s1.ns(p) == s0.ns(p).insert(k, v),
        !ins ==> s1.ns(p) == s0.ns(p).remove(k),
        ns_frame(s0, s1, p),
        s1.ns(p).dom().finite(),
{
    let c0 = tree_contents(s0.areas@[area_of(p)]);
    if ins {
        lemma_ns_insert(c0, p, k, v, p);
    } else {
        lemma_ns_remove(c0, p, k, p);
    }
    lemma_ns_finite(tree_contents(s1.areas@[area_of(p)]), p);
    assert forall|q: u64| q != p implies #[trigger] s1.ns(q) == s0.ns(q) by {
        if area_of(q) == area_of(p) {
            if ins {
                lemma_ns_insert(c0, p, k, v, q);
            } else {
                lemma_ns_remove(c0, p, k, q);
            }
        } else {
            assert(s1.areas@[area_of(q)] == s0.areas@[area_of(q)]);
        }
    }
}

/// A failed area write still leaves every foreign namespace alone.
proof fn lemma_ns_frame_after_failed_area_op(s0: VsStore, s1: VsStore, p: u64, k: Seq<u8>)
    requires
        s0.wf(),
        s1.areas@.len() == s0.areas@.len() == AREAS,
        forall|j: int| 0 <= j < AREAS && j != area_of(p) ==> s1.areas@[j] == s0.areas@[j],
        s1.meta == s0.meta,
        unchanged_except(
            tree_contents(s0.areas@[area_of(p)]),
            tree_contents(s1.areas@[area_of(p)]),
            be8(p) + k,
        ),
    ensures
        ns_frame(s0, s1, p),
{
    let c0 = tree_contents(s0.areas@[area_of(p)]);
    let c1 = tree_contents(s1.areas@[area_of(p)]);
    assert forall|q: u64| q != p implies #[trigger] s1.ns(q) == s0.ns(q) by {
        if area_of(q) == area_of(p) {
            lemma_ns_unchanged_except(c0, c1, p, k, q);
        } else {
            assert(s1.areas@[area_of(q)] == s0.areas@[area_of(q)]);
        }
    }
}

/// Stores with the same areas read every namespace alike, and a meta-only
/// change keeps every area's finiteness.
proof fn lemma_same_areas_same_ns(s0: VsStore, s1: VsStore)
    requires
        s1.areas@ == s0.areas@,
        s0.areas@.len() == AREAS,
        forall|i: int| 0 <= i < AREAS ==> (#[trigger] s0.area_map(i)).dom().finite(),
    ensures
        forall|q: u64| #[trigger] s1.ns(q) == s0.ns(q),
        forall|i: int| 0 <= i < AREAS ==> (#[trigger] s1.area_map(i)).dom().finite(),
        s1.areas@.len() == AREAS,
{
    assert forall|q: u64| true implies #[trigger] s1.ns(q) == s0.ns(q) by {
        assert(s1.areas@[area_of(q)] == s0.areas@[area_of(q)]);
    }
    assert forall|i: int| 0 <= i < AREAS implies (#[trigger] s1.area_map(i)).dom().finite() by {
        assert(s1.areas@[i] == s0.areas@[i]);
        assert(s0.area_map(i).dom().finite());
    }
}

/// A failed rewrite of the length cell still leaves the store well formed
/// and other meta cells alone.
proof fn lemma_store_wf_after_meta_failed(s0: VsStore, s1: VsStore, p: u64)
    requires
        s0.wf(),
        s1.areas@.len() == AREAS,
        forall|i: int| 0 <= i < AREAS ==> (#[trigger] s1.area_map(i)).dom().finite(),
        tree_contents(s1.meta).dom().finite(),
        unchanged_except(tree_contents(s0.meta), tree_contents(s1.meta), be8(p)),
    ensures
        s1.wf(),
        s1.counter() == s0.counter(),
        meta_frame(s0, s1, p),
{
    assert(VsStore::counter_key().len() == 1);
    assert(be8(p).len() == 8);
    assert(be8(p) != VsStore::counter_key());
    assert(s0.meta_map().contains_key(VsStore::counter_key()));
    assert(s1.meta_map().contains_key(VsStore::counter_key()));
    assert(s1.meta_map()[VsStore::counter_key()] == s0.meta_map()[VsStore::counter_key()]);
}

/// A store whose meta sub-tree was not touched keeps its counter and its
/// meta cells.
proof fn lemma_meta_untouched(s0: VsStore, s1: VsStore, p: u64)
    requires
        s1.meta == s0.meta,
    ensures
        s1.counter() == s0.counter(),
        meta_frame(s0, s1, p),
        s1.meta_map() == s0.meta_map(),
{
}

/// After rewriting the length cell of `p`, the store stays well formed and
/// other meta cells keep their values.
proof fn lemma_store_wf_after_meta(s0: VsStore, s1: VsStore, p: u64)
    requires
        s0.wf(),
        RESERVED <= p,
        s1.areas@.len() == AREAS,
        forall|i: int| 0 <= i < AREAS ==> (#[trigger] s1.area_map(i)).dom().finite(),
        tree_contents(s1.meta).dom().finite(),
        exists|nv: Seq<u8>|
            tree_contents(s1.meta) == tree_contents(s0.meta).insert(be8(p), nv),
    ensures
        s1.wf(),
        s1.counter() == s0.counter(),
        meta_frame(s0, s1, p),
{
    assert(VsStore::counter_key().len() == 1);
    assert(be8(p).len() == 8);
    assert(be8(p) != VsStore::counter_key());
}

} // verus!
