//! The versioned store: every logical key owns an inner namespace holding
//! its history, an ordered map from version id to value-or-tombstone, and
//! an index namespace maps each key to its inner prefix. A write appends at
//! the branch's tip; a read walks the branch's ancestry over the history,
//! exactly as `resolve` says.

use vstd::prelude::*;
use crate::ende::{
    be8, from_be8, u64_to_be_vec, u64_from_be_slice, lemma_be8_round_trip, lemma_be8_injective,
    lemma_be8_injective_auto,
};
use crate::err::VsError;
use crate::ledger::{
    pruned, branch_ready, tip_has_descendants, Ledger, Hist, resolve, resolve_chain, probe,
    min64, lemma_probe_none, lemma_resolve_empty,
    lemma_branch_at, version_popped, lemma_vname_unique,
};
use crate::mapx_raw::{MapxRaw, ns_frame, meta_frame};
use crate::store::{VsStore, RESERVED};

verus! {

/// Reads one stored history cell: a leading one-byte tag marks a value; a
/// tombstone (or anything else) reads as absence.
pub open spec fn decode_vt(b: Seq<u8>) -> Option<Seq<u8>> {
    if b.len() >= 1 && b[0] == 1u8 {
        Some(b.drop_first())
    } else {
        None
    }
}

/// One key's history, read out of its inner namespace.
pub open spec fn vermap(m: Map<Seq<u8>, Seq<u8>>) -> Hist {
    Map::new(|vid: u64| m.contains_key(be8(vid)), |vid: u64| decode_vt(m[be8(vid)]))
}

/// Writing one version cell moves the history by exactly that version.
pub proof fn lemma_vermap_insert(m: Map<Seq<u8>, Seq<u8>>, vid: u64, b: Seq<u8>)
    ensures
        vermap(m.insert(be8(vid), b)) == vermap(m).insert(vid, decode_vt(b)),
{
    assert forall|w: u64| true implies #[trigger] vermap(m.insert(be8(vid), b)).contains_key(w)
        == vermap(m).insert(vid, decode_vt(b)).contains_key(w) && (vermap(
        m.insert(be8(vid), b),
    ).contains_key(w) ==> vermap(m.insert(be8(vid), b))[w] == vermap(m).insert(
        vid,
        decode_vt(b),
    )[w]) by {
        if be8(w) == be8(vid) {
            lemma_be8_injective(w, vid);
        }
    }
    assert(vermap(m.insert(be8(vid), b)) =~= vermap(m).insert(vid, decode_vt(b)));
}

/// Deleting one version cell removes exactly that version.
pub proof fn lemma_vermap_remove(m: Map<Seq<u8>, Seq<u8>>, vid: u64)
    ensures
        vermap(m.remove(be8(vid))) == vermap(m).remove(vid),
{
    assert forall|w: u64| true implies #[trigger] vermap(m.remove(be8(vid))).contains_key(w)
        == vermap(m).remove(vid).contains_key(w) && (vermap(m.remove(be8(vid))).contains_key(w)
        ==> vermap(m.remove(be8(vid)))[w] == vermap(m).remove(vid)[w]) by {
        if be8(w) == be8(vid) {
            lemma_be8_injective(w, vid);
        }
    }
    assert(vermap(m.remove(be8(vid))) =~= vermap(m).remove(vid));
}

/// An empty inner namespace is an empty history.
pub proof fn lemma_vermap_empty()
    ensures
        vermap(Map::<Seq<u8>, Seq<u8>>::empty()) == Map::<u64, Option<Seq<u8>>>::empty(),
{
    assert(vermap(Map::<Seq<u8>, Seq<u8>>::empty()) =~= Map::<u64, Option<Seq<u8>>>::empty());
}


/// What collapsing history below `cutoff` does to one key's history: the
/// removed versions are gone, everything else except `cutoff` is
/// untouched, an entry already at `cutoff` stays, and a freshly placed
/// `cutoff` entry carries exactly the newest removed entry's value — the
/// probe of the dropped versions — so a read at or above the cutoff keeps
/// resolving to what it resolved to before.
pub open spec fn folded(h0: Hist, h1: Hist, removed: Seq<u64>, cutoff: u64) -> bool {
    &&& forall|vid: u64|
        !removed.contains(vid) && vid != cutoff ==> #[trigger] h1.contains_key(vid)
            == h0.contains_key(vid) && (h0.contains_key(vid) ==> h1[vid] == h0[vid])
    &&& forall|vid: u64|
        removed.contains(vid) && vid != cutoff ==> !(#[trigger] h1.contains_key(vid))
    &&& (h0.contains_key(cutoff) ==> h1.contains_key(cutoff) && h1[cutoff] == h0[cutoff])
    &&& (!h0.contains_key(cutoff) ==> match probe(removed, h0, cutoff, removed.len() as int) {
        Some(w) => h1.contains_key(cutoff) && h1[cutoff] == h0[w],
        None => !h1.contains_key(cutoff),
    })
}

/// A versioned map: the handle is the prefix of its index namespace.
pub struct MapxRawVs {
    pub index: MapxRaw,
}

impl MapxRawVs {
    /// The inner-namespace prefix the index assigns to `k`, if any.
    pub open spec fn inner_pfx(&self, s: &VsStore, k: Seq<u8>) -> Option<u64> {
        let idx = self.index.view_in(s);
        if idx.contains_key(k) && idx[k].len() == 8 {
            Some(from_be8(idx[k]))
        } else {
            None
        }
    }

    /// The stored history of `k`.
    pub open spec fn hist_of(&self, s: &VsStore, k: Seq<u8>) -> Hist {
        match self.inner_pfx(s, k) {
            Some(q) => vermap(s.ns(q)),
            None => Map::empty(),
        }
    }

    /// The handle is usable: the index is sound and every assigned inner
    /// namespace is a distinct, usable map of its own.
    pub open spec fn wf_in(&self, s: &VsStore) -> bool {
        &&& self.index.wf_in(s)
        &&& forall|k: Seq<u8>|
            #[trigger] self.index.view_in(s).contains_key(k) ==> self.index.view_in(s)[k].len()
                == 8 && RESERVED <= from_be8(self.index.view_in(s)[k]) < u64::MAX && from_be8(
                self.index.view_in(s)[k],
            ) != self.index.prefix && (MapxRaw { prefix: from_be8(self.index.view_in(s)[k]) }).wf_in(
                s,
            )
        &&& forall|k1: Seq<u8>, k2: Seq<u8>|
            #[trigger] self.index.view_in(s).contains_key(k1)
                && #[trigger] self.index.view_in(s).contains_key(k2) && k1 != k2 ==> from_be8(
                self.index.view_in(s)[k1],
            ) != from_be8(self.index.view_in(s)[k2])
    }

    /// Creates a fresh, empty versioned map.
    pub fn new(s: &mut VsStore) -> (r: Result<MapxRawVs, VsError>)
        requires
            old(s).wf(),
        ensures
            r matches Ok(m) ==> {
                &&& final(s).wf()
                &&& m.wf_in(final(s))
                &&& forall|k: Seq<u8>| m.hist_of(final(s), k) == Map::<u64, Option<Seq<u8>>>::empty()
            },
    {
        let index = match MapxRaw::new(s) {
            Ok(m) => m,
            Err(e) => {
                return Err(e);
            },
        };
        let m = MapxRawVs { index };
        proof {
            assert forall|k: Seq<u8>| true implies m.hist_of(s, k) == Map::<
                u64,
                Option<Seq<u8>>,
            >::empty() by {
                assert(!m.index.view_in(s).contains_key(k));
            }
        }
        Ok(m)
    }

    /// Appends one history cell for `key` at the tip of the named branch.
    /// The write is rejected unless the branch exists and has a version.
    #[verifier::rlimit(100)]
    #[verifier::spinoff_prover]
    fn write_entry(&self, s: &mut VsStore, l: &Ledger, bname: &[u8], key: &[u8], entry: &[u8]) -> (r:
        Result<u64, VsError>)
        requires
            old(s).wf(),
            self.wf_in(old(s)),
            l.wf(),
        ensures
            r matches Ok(vid) ==> final(s).wf(),
            r matches Ok(vid) ==> self.wf_in(final(s)),
            r matches Ok(vid) ==> exists|bid: u64|
                {
                    &&& #[trigger] l.has_branch(bid)
                    &&& l.branch_at(bid).name@ == bname@
                    &&& l.branch_versions(bid).len() > 0
                    &&& vid == l.branch_versions(bid).last()
                },
            r matches Ok(vid) ==> self.hist_of(final(s), key@) == self.hist_of(old(s), key@).insert(
                vid,
                decode_vt(entry@),
            ),
            r matches Ok(vid) ==> forall|k: Seq<u8>|
                k != key@ ==> #[trigger] self.hist_of(final(s), k) == self.hist_of(old(s), k),
            (r == Err::<u64, VsError>(VsError::InvalidCoordinate)) == !branch_ready(l, bname@),
            branch_ready(l, bname@) ==> r is Ok || r == Err::<u64, VsError>(VsError::BackendIo),
    {
        let tip = match l.branch_tip(bname) {
            Ok(t) => t,
            Err(e) => {
                return Err(e);
            },
        };
        let bid = tip.0;
        let vid = tip.1;
        let vk = u64_to_be_vec(vid);
        let idxv = match self.index.get(s, key) {
            Ok(o) => o,
            Err(e) => {
                return Err(e);
            },
        };
        match idxv {
            Some(qb) => {
                if qb.len() == 8 {
                    let q = u64_from_be_slice(qb.as_slice());
                    let inner = MapxRaw { prefix: q };
                    let ghost hist0 = self.hist_of(old(s), key@);
                    let n = match inner.len(s) {
                        Ok(n) => n,
                        Err(e) => {
                            return Err(e);
                        },
                    };
                    if n == u64::MAX {
                        return Err(VsError::BackendIo);
                    }
                    match inner.insert(s, vk.as_slice(), entry) {
                        Ok(_) => {},
                        Err(e) => {
                            return Err(e);
                        },
                    }
                    proof {
                        lemma_vermap_insert(old(s).ns(q), vid, entry@);
                        assert(self.index.view_in(s) == self.index.view_in(old(s))) by {
                            assert(s.ns(self.index.prefix) == old(s).ns(self.index.prefix));
                        }
                        assert(self.index.wf_in(s)) by {
                            assert(s.meta_map()[be8(self.index.prefix)] == old(s).meta_map()[be8(
                                self.index.prefix,
                            )]) by {
                                lemma_be8_injective_auto();
                            }
                            assert(s.meta_map().contains_key(be8(self.index.prefix)));
                        }
                        assert forall|k: Seq<u8>| #[trigger] self.index.view_in(s).contains_key(k)
                            implies self.index.view_in(s)[k].len() == 8 && RESERVED <= from_be8(
                            self.index.view_in(s)[k],
                        ) < u64::MAX && from_be8(self.index.view_in(s)[k]) != self.index.prefix && (
                        MapxRaw { prefix: from_be8(self.index.view_in(s)[k]) }).wf_in(s) by {
                            assert(self.index.view_in(old(s)).contains_key(k));
                            assert(self.index.view_in(s)[k] == self.index.view_in(old(s))[k]);
                            let qk = from_be8(self.index.view_in(s)[k]);
                            if qk != q {
                                assert(s.ns(qk) == old(s).ns(qk));
                                assert(old(s).meta_map().contains_key(be8(qk)));
                                assert(be8(qk) != be8(q)) by {
                                    lemma_be8_injective_auto();
                                }
                                assert(be8(qk).len() == 8 && VsStore::counter_key().len() == 1);
                                assert(s.meta_map().contains_key(be8(qk)));
                                assert(s.meta_map()[be8(qk)] == old(s).meta_map()[be8(qk)]);
                            }
                        }
                        assert(self.hist_of(s, key@) == hist0.insert(vid, decode_vt(entry@)));
                        assert forall|k: Seq<u8>| k != key@ implies #[trigger] self.hist_of(s, k)
                            == self.hist_of(old(s), k) by {
                            if self.index.view_in(old(s)).contains_key(k) && self.index.view_in(old(s))[k].len() == 8 {
                                let qk = from_be8(self.index.view_in(old(s))[k]);
                                assert(qk != q);
                                assert(s.ns(qk) == old(s).ns(qk));
                            }
                        }
                    }
                    Ok(vid)
                } else {
                    proof {
                        assert(false);
                    }
                    Err(VsError::DecodeError)
                }
            },
            None => {
                let ghost hist0 = self.hist_of(old(s), key@);
                let ni = match self.index.len(s) {
                    Ok(n) => n,
                    Err(e) => {
                        return Err(e);
                    },
                };
                if ni == u64::MAX {
                    return Err(VsError::BackendIo);
                }
                let im = match MapxRaw::new(s) {
                    Ok(m) => m,
                    Err(e) => {
                        return Err(e);
                    },
                };
                let q = im.prefix;
                let ghost s1 = *s;
                proof {
                    assert(self.index.wf_in(&s1)) by {
                        assert(s1.ns(self.index.prefix) == old(s).ns(self.index.prefix));
                        assert(s1.meta_map()[be8(self.index.prefix)] == old(s).meta_map()[be8(
                            self.index.prefix,
                        )]) by {
                            lemma_be8_injective_auto();
                        }
                        assert(s1.meta_map().contains_key(be8(self.index.prefix)));
                    }
                }
                let qb = im.to_bytes();
                match self.index.insert(s, key, qb.as_slice()) {
                    Ok(_) => {},
                    Err(e) => {
                        return Err(e);
                    },
                }
                let ghost s2 = *s;
                proof {
                    lemma_be8_round_trip(q);
                    assert(im.wf_in(&s2)) by {
                        assert(s2.ns(q) == s1.ns(q));
                        assert(s2.meta_map()[be8(q)] == s1.meta_map()[be8(q)]) by {
                            lemma_be8_injective_auto();
                        }
                        assert(s2.meta_map().contains_key(be8(q)));
                    }
                    assert(s2.ns(q) == Map::<Seq<u8>, Seq<u8>>::empty());
                }
                match im.insert(s, vk.as_slice(), entry) {
                    Ok(_) => {},
                    Err(e) => {
                        return Err(e);
                    },
                }
                proof {
                    lemma_vermap_insert(s2.ns(q), vid, entry@);
                    lemma_vermap_empty();
                    assert(self.index.view_in(s) == self.index.view_in(old(s)).insert(key@, be8(q))) by {
                        assert(s.ns(self.index.prefix) == s2.ns(self.index.prefix));
                    }
                    assert(self.index.wf_in(s)) by {
                        assert(s.meta_map()[be8(self.index.prefix)] == s2.meta_map()[be8(
                            self.index.prefix,
                        )]) by {
                            lemma_be8_injective_auto();
                        }
                        assert(s.meta_map().contains_key(be8(self.index.prefix)));
                    }
                    assert forall|k: Seq<u8>| #[trigger] self.index.view_in(s).contains_key(k)
                        implies self.index.view_in(s)[k].len() == 8 && RESERVED <= from_be8(
                        self.index.view_in(s)[k],
                    ) < u64::MAX && from_be8(self.index.view_in(s)[k]) != self.index.prefix && (
                    MapxRaw { prefix: from_be8(self.index.view_in(s)[k]) }).wf_in(s) by {
                        let qk = from_be8(self.index.view_in(s)[k]);
                        if k == key@ {
                            assert(qk == q);
                            assert(RESERVED <= q < u64::MAX);
                            assert(q != self.index.prefix);
                        } else {
                            assert(self.index.view_in(old(s)).contains_key(k));
                            assert(self.index.view_in(s)[k] == self.index.view_in(old(s))[k]);
                            assert(qk != q);
                            assert(s.ns(qk) == old(s).ns(qk)) by {
                                assert(s.ns(qk) == s2.ns(qk));
                                assert(s2.ns(qk) == s1.ns(qk));
                                assert(s1.ns(qk) == old(s).ns(qk));
                            }
                            assert(old(s).meta_map().contains_key(be8(qk)));
                            assert(be8(qk) != be8(q) && be8(qk) != be8(self.index.prefix)) by {
                                lemma_be8_injective_auto();
                            }
                            assert(be8(qk).len() == 8 && VsStore::counter_key().len() == 1);
                            assert(s1.meta_map().contains_key(be8(qk)) && s1.meta_map()[be8(qk)]
                                == old(s).meta_map()[be8(qk)]);
                            assert(s2.meta_map().contains_key(be8(qk)) && s2.meta_map()[be8(qk)]
                                == s1.meta_map()[be8(qk)]);
                            assert(s.meta_map().contains_key(be8(qk)) && s.meta_map()[be8(qk)]
                                == s2.meta_map()[be8(qk)]);
                        }
                    }
                    assert forall|k1: Seq<u8>, k2: Seq<u8>|
                        #[trigger] self.index.view_in(s).contains_key(k1)
                            && #[trigger] self.index.view_in(s).contains_key(k2) && k1 != k2
                        implies from_be8(self.index.view_in(s)[k1]) != from_be8(
                        self.index.view_in(s)[k2],
                    ) by {
                        if k1 == key@ {
                            assert(from_be8(self.index.view_in(old(s))[k2]) < q);
                        } else if k2 == key@ {
                            assert(from_be8(self.index.view_in(old(s))[k1]) < q);
                        }
                    }
                    assert(self.hist_of(s, key@) == hist0.insert(vid, decode_vt(entry@))) by {
                        assert(self.hist_of(old(s), key@) == Map::<u64, Option<Seq<u8>>>::empty());
                        assert(s.ns(q) == s2.ns(q).insert(be8(vid), entry@));
                    }
                    assert forall|k: Seq<u8>| k != key@ implies #[trigger] self.hist_of(s, k)
                        == self.hist_of(old(s), k) by {
                        if self.index.view_in(old(s)).contains_key(k) && self.index.view_in(old(s))[k].len() == 8 {
                            let qk = from_be8(self.index.view_in(old(s))[k]);
                            assert(qk < q);
                            assert(s.ns(qk) == old(s).ns(qk)) by {
                                assert(s.ns(qk) == s2.ns(qk));
                                assert(s2.ns(qk) == s1.ns(qk));
                                assert(s1.ns(qk) == old(s).ns(qk));
                            }
                        }
                    }
                }
                Ok(vid)
            },
        }
    }

    /// Writes `value` for `key` at the tip of the named branch and returns
    /// the version id it was written under.
    pub fn insert(
        &self,
        s: &mut VsStore,
        l: &Ledger,
        bname: &[u8],
        key: &[u8],
        value: &[u8],
    ) -> (r: Result<u64, VsError>)
        requires
            old(s).wf(),
            self.wf_in(old(s)),
            l.wf(),
        ensures
            r matches Ok(vid) ==> final(s).wf() && self.wf_in(final(s)),
            r matches Ok(vid) ==> exists|bid: u64|
                {
                    &&& #[trigger] l.has_branch(bid)
                    &&& l.branch_at(bid).name@ == bname@
                    &&& l.branch_versions(bid).len() > 0
                    &&& vid == l.branch_versions(bid).last()
                },
            r matches Ok(vid) ==> self.hist_of(final(s), key@) == self.hist_of(old(s), key@).insert(
                vid,
                Some(value@),
            ),
            r matches Ok(vid) ==> forall|k: Seq<u8>|
                k != key@ ==> #[trigger] self.hist_of(final(s), k) == self.hist_of(old(s), k),
            (r == Err::<u64, VsError>(VsError::InvalidCoordinate)) == !branch_ready(l, bname@),
            branch_ready(l, bname@) ==> r is Ok || r == Err::<u64, VsError>(VsError::BackendIo),
    {
        let mut entry: Vec<u8> = Vec::new();
        entry.push(1u8);
        let mut i: usize = 0;
        while i < value.len()
            invariant
                0 <= i <= value@.len(),
                entry@ =~= seq![1u8] + value@.subrange(0, i as int),
            decreases value@.len() - i,
        {
            entry.push(value[i]);
            i = i + 1;
        }
        proof {
            assert(entry@ =~= seq![1u8] + value@);
            assert(entry@.drop_first() =~= value@);
            assert(decode_vt(entry@) == Some(value@));
        }
        self.write_entry(s, l, bname, key, entry.as_slice())
    }

    /// Appends a tombstone for `key` at the tip of the named branch: the
    /// key reads as absent from that version on, shadowing older writes.
    pub fn remove(&self, s: &mut VsStore, l: &Ledger, bname: &[u8], key: &[u8]) -> (r: Result<
        u64,
        VsError,
    >)
        requires
            old(s).wf(),
            self.wf_in(old(s)),
            l.wf(),
        ensures
            r matches Ok(vid) ==> final(s).wf() && self.wf_in(final(s)),
            r matches Ok(vid) ==> exists|bid: u64|
                {
                    &&& #[trigger] l.has_branch(bid)
                    &&& l.branch_at(bid).name@ == bname@
                    &&& l.branch_versions(bid).len() > 0
                    &&& vid == l.branch_versions(bid).last()
                },
            r matches Ok(vid) ==> self.hist_of(final(s), key@) == self.hist_of(old(s), key@).insert(
                vid,
                None,
            ),
            r matches Ok(vid) ==> forall|k: Seq<u8>|
                k != key@ ==> #[trigger] self.hist_of(final(s), k) == self.hist_of(old(s), k),
            (r == Err::<u64, VsError>(VsError::InvalidCoordinate)) == !branch_ready(l, bname@),
            branch_ready(l, bname@) ==> r is Ok || r == Err::<u64, VsError>(VsError::BackendIo),
    {
        let entry: Vec<u8> = vec![0u8];
        proof {
            assert(decode_vt(entry@) == None::<Seq<u8>>);
        }
        self.write_entry(s, l, bname, key, entry.as_slice())
    }

    /// Reads `key` as of `(branch, version)`, both given by name: the
    /// ancestry walk the resolution model describes.
    pub fn get_by_branch_version(
        &self,
        s: &VsStore,
        l: &Ledger,
        key: &[u8],
        bname: &[u8],
        vname: &[u8],
    ) -> (r: Result<Option<Vec<u8>>, VsError>)
        requires
            s.wf(),
            self.wf_in(s),
            l.wf(),
        ensures
            r matches Ok(o) ==> exists|bid: u64|
                {
                    &&& #[trigger] l.has_branch(bid)
                    &&& l.branch_at(bid).name@ == bname@
                    &&& l.has_vname(vname@)
                    &&& match o {
                        Some(v) => resolve(l, bid, l.vname_id(vname@), self.hist_of(s, key@))
                            == Some(v@),
                        None => resolve(l, bid, l.vname_id(vname@), self.hist_of(s, key@))
                            is None,
                    }
                },
            (r == Err::<Option<Vec<u8>>, VsError>(VsError::InvalidCoordinate)) == (!l.has_bname(
                bname@,
            ) || !l.has_vname(vname@)),
            l.has_bname(bname@) && l.has_vname(vname@) ==> r is Ok || r == Err::<
                Option<Vec<u8>>,
                VsError,
            >(VsError::BackendIo),
    {
        let bi = match l.find_branch(bname) {
            Some(i) => i,
            None => {
                return Err(VsError::InvalidCoordinate);
            },
        };
        let vid = match l.find_version_id(vname) {
            Some(v) => v,
            None => {
                return Err(VsError::InvalidCoordinate);
            },
        };
        let bid = l.branches[bi].id;
        proof {
            lemma_branch_at(l, bi as int);
            lemma_vname_unique(l, vname@, vid);
        }
        self.get_at(s, l, key, bi, bid, vid)
    }

    /// Reads `key` at the tip of the named branch.
    pub fn get(&self, s: &VsStore, l: &Ledger, key: &[u8], bname: &[u8]) -> (r: Result<
        Option<Vec<u8>>,
        VsError,
    >)
        requires
            s.wf(),
            self.wf_in(s),
            l.wf(),
        ensures
            r matches Ok(o) ==> exists|bid: u64|
                {
                    &&& #[trigger] l.has_branch(bid)
                    &&& l.branch_at(bid).name@ == bname@
                    &&& l.branch_versions(bid).len() > 0
                    &&& match o {
                        Some(v) => resolve(
                            l,
                            bid,
                            l.branch_versions(bid).last(),
                            self.hist_of(s, key@),
                        ) == Some(v@),
                        None => resolve(
                            l,
                            bid,
                            l.branch_versions(bid).last(),
                            self.hist_of(s, key@),
                        ) is None,
                    }
                },
            (r == Err::<Option<Vec<u8>>, VsError>(VsError::InvalidCoordinate)) == !branch_ready(
                l,
                bname@,
            ),
            branch_ready(l, bname@) ==> r is Ok || r == Err::<Option<Vec<u8>>, VsError>(
                VsError::BackendIo,
            ),
    {
        let bi = match l.find_branch(bname) {
            Some(i) => i,
            None => {
                proof {
                    assert(!branch_ready(l, bname@)) by {
                        if branch_ready(l, bname@) {
                            let k = choose|k: int|
                                0 <= k < l.branches@.len() && l.branches@[k].name@ == bname@
                                    && l.branches@[k].versions@.len() > 0;
                            assert(l.has_bname(bname@));
                        }
                    }
                }
                return Err(VsError::InvalidCoordinate);
            },
        };
        proof {
            crate::ledger::lemma_bname_at(l, bi as int);
        }
        if l.branches[bi].versions.len() == 0 {
            return Err(VsError::InvalidCoordinate);
        }
        let bid = l.branches[bi].id;
        let vid = l.branches[bi].versions[l.branches[bi].versions.len() - 1];
        proof {
            lemma_branch_at(l, bi as int);
        }
        self.get_at(s, l, key, bi, bid, vid)
    }

    /// The ancestry walk itself, over branch index `bi` at version `vid`.
    #[verifier::rlimit(100)]
    #[verifier::spinoff_prover]
    fn get_at(&self, s: &VsStore, l: &Ledger, key: &[u8], bi: usize, bid: u64, vid: u64) -> (r:
        Result<Option<Vec<u8>>, VsError>)
        requires
            s.wf(),
            self.wf_in(s),
            l.wf(),
            bi < l.branches@.len(),
            l.branches@[bi as int].id == bid,
        ensures
            r matches Ok(o) ==> match o {
                Some(v) => resolve(l, bid, vid, self.hist_of(s, key@)) == Some(v@),
                None => resolve(l, bid, vid, self.hist_of(s, key@)) is None,
            },
            r matches Err(e) ==> e == VsError::BackendIo,
    {
        proof {
            lemma_branch_at(l, bi as int);
        }
        let idxv = match self.index.get(s, key) {
            Ok(o) => o,
            Err(e) => {
                return Err(e);
            },
        };
        let q = match idxv {
            Some(qb) => {
                if qb.len() == 8 {
                    u64_from_be_slice(qb.as_slice())
                } else {
                    proof {
                        assert(false);
                    }
                    return Err(VsError::DecodeError);
                }
            },
            None => {
                proof {
                    assert(self.hist_of(s, key@) == Map::<u64, Option<Seq<u8>>>::empty());
                    lemma_resolve_empty(
                        l,
                        seq![(bid, vid)] + l.branch_chain(bid),
                        self.hist_of(s, key@),
                        vid,
                    );
                }
                return Ok(None);
            },
        };
        let inner = MapxRaw { prefix: q };
        let ghost hist = self.hist_of(s, key@);
        let ghost entries = seq![(bid, vid)] + l.branch_chain(bid);
        let chain_len = l.branches[bi].chain.len();
        proof {
            assert(entries.len() == chain_len + 1);
            assert(entries.skip(0) =~= entries);
        }
        let mut e: usize = 0;
        while e < chain_len + 1
            invariant
                s.wf(),
                self.wf_in(s),
                l.wf(),
                bi < l.branches@.len(),
                l.branches@[bi as int].id == bid,
                l.has_branch(bid),
                l.branch_at(bid) == l.branches@[bi as int],
                chain_len == l.branches@[bi as int].chain@.len(),
                entries == seq![(bid, vid)] + l.branch_chain(bid),
                entries.len() == chain_len + 1,
                hist == self.hist_of(s, key@),
                hist == vermap(s.ns(q)),
                inner == (MapxRaw { prefix: q }),
                RESERVED <= q < u64::MAX,
                0 <= e <= chain_len + 1,
                resolve(l, bid, vid, hist) == resolve_chain(l, entries.skip(e as int), hist, vid),
            decreases chain_len + 1 - e,
        {
            let af: (u64, u64) = if e == 0 {
                (bid, vid)
            } else {
                l.branches[bi].chain[e - 1]
            };
            let a = af.0;
            let f = af.1;
            proof {
                assert(entries[e as int] == (a, f));
            }
            let lim = if vid <= f {
                vid
            } else {
                f
            };
            let ai_opt = l.find_branch_by_id(a);
            match ai_opt {
                None => {
                    proof {
                        assert(l.branch_versions(a) =~= Seq::<u64>::empty());
                        lemma_probe_none(l.branch_versions(a), hist, min64(vid, f), 0);
                        assert(entries.skip(e as int).drop_first() =~= entries.skip(e + 1));
                    }
                },
                Some(ai) => {
                    proof {
                        lemma_branch_at(l, ai as int);
                    }
                    let ghost vers = l.branch_versions(a);
                    let vers_len = l.branches[ai].versions.len();
                    let mut j: usize = vers_len;
                    while j > 0
                        invariant
                            s.wf(),
                            self.wf_in(s),
                            l.wf(),
                            entries == seq![(bid, vid)] + l.branch_chain(bid),
                            0 <= e < entries.len(),
                            entries[e as int] == (a, f),
                            resolve(l, bid, vid, hist) == resolve_chain(
                                l,
                                entries.skip(e as int),
                                hist,
                                vid,
                            ),
                            ai < l.branches@.len(),
                            l.branches@[ai as int].id == a,
                            l.has_branch(a),
                            l.branch_at(a) == l.branches@[ai as int],
                            vers == l.branch_versions(a),
                            vers_len == vers.len(),
                            0 <= j <= vers_len,
                            hist == self.hist_of(s, key@),
                            hist == vermap(s.ns(q)),
                            inner == (MapxRaw { prefix: q }),
                            RESERVED <= q < u64::MAX,
                            lim == min64(vid, f),
                            probe(vers, hist, lim, vers.len() as int) == probe(
                                vers,
                                hist,
                                lim,
                                j as int,
                            ),
                        decreases j,
                    {
                        let v = l.branches[ai].versions[j - 1];
                        if v <= lim {
                            let vk = u64_to_be_vec(v);
                            let got = match inner.get(s, vk.as_slice()) {
                                Ok(o) => o,
                                Err(e2) => {
                                    return Err(e2);
                                },
                            };
                            match got {
                                Some(bytes) => {
                                    proof {
                                        assert(s.ns(q).contains_key(be8(v)));
                                        assert(hist.contains_key(v));
                                        assert(hist[v] == decode_vt(bytes@));
                                        assert(probe(vers, hist, lim, j as int) == Some(v));
                                        assert(resolve_chain(
                                            l,
                                            entries.skip(e as int),
                                            hist,
                                            vid,
                                        ) == hist[v]);
                                    }
                                    if bytes.len() >= 1 && bytes[0] == 1u8 {
                                        let out = vstd::slice::slice_to_vec(
                                            vstd::slice::slice_subrange(
                                                bytes.as_slice(),
                                                1,
                                                bytes.len(),
                                            ),
                                        );
                                        proof {
                                            assert(out@ =~= bytes@.drop_first());
                                        }
                                        return Ok(Some(out));
                                    } else {
                                        proof {
                                            assert(decode_vt(bytes@) is None);
                                        }
                                        return Ok(None);
                                    }
                                },
                                None => {
                                    proof {
                                        assert(!s.ns(q).contains_key(be8(v)));
                                        assert(!hist.contains_key(v));
                                        assert(probe(vers, hist, lim, j as int) == probe(
                                            vers,
                                            hist,
                                            lim,
                                            j - 1,
                                        ));
                                    }
                                },
                            }
                        } else {
                            proof {
                                assert(probe(vers, hist, lim, j as int) == probe(
                                    vers,
                                    hist,
                                    lim,
                                    j - 1,
                                ));
                            }
                        }
                        j = j - 1;
                    }
                    proof {
                        assert(probe(vers, hist, lim, vers.len() as int) == None::<u64>);
                        assert(entries.skip(e as int).drop_first() =~= entries.skip(e + 1));
                    }
                },
            }
            e = e + 1;
        }
        proof {
            assert(entries.skip(chain_len + 1) =~= Seq::<(u64, u64)>::empty());
        }
        Ok(None)
    }

    /// Collapses one key's history: deletes every `removed` version cell
    /// and, when the key has no cell at `cutoff` yet, moves the newest
    /// surviving removed value there.
    #[verifier::rlimit(100)]
    #[verifier::spinoff_prover]
    fn fold_key(s: &mut VsStore, inner: &MapxRaw, removed: &Vec<u64>, cutoff: u64) -> (r: Result<
        (),
        VsError,
    >)
        requires
            old(s).wf(),
            inner.wf_in(old(s)),
            forall|t: int| 0 <= t < removed@.len() ==> #[trigger] removed@[t] < cutoff,
            forall|a: int, b: int|
                #![trigger removed@[a], removed@[b]]
                0 <= a < b < removed@.len() ==> removed@[a] < removed@[b],
        ensures
            r matches Err(e) ==> e == VsError::BackendIo,
            r matches Ok(u2) ==> {
                &&& final(s).wf()
                &&& inner.wf_in(final(s))
                &&& final(s).counter() == old(s).counter()
                &&& ns_frame(*old(s), *final(s), inner.prefix)
                &&& meta_frame(*old(s), *final(s), inner.prefix)
                &&& folded(
                    vermap(old(s).ns(inner.prefix)),
                    vermap(final(s).ns(inner.prefix)),
                    removed@,
                    cutoff,
                )
            },
    {
        let ghost p = inner.prefix;
        let ghost h0 = vermap(old(s).ns(p));
        let mut cand: Option<Vec<u8>> = None;
        let n = removed.len();
        let mut t: usize = 0;
        while t < n
            invariant
                0 <= t <= n,
                n == removed@.len(),
                s.wf(),
                inner.wf_in(s),
                s.counter() == old(s).counter(),
                ns_frame(*old(s), *s, p),
                meta_frame(*old(s), *s, p),
                p == inner.prefix,
                h0 == vermap(old(s).ns(p)),
                forall|t2: int| 0 <= t2 < n ==> #[trigger] removed@[t2] < cutoff,
                forall|a: int, b: int|
                    #![trigger removed@[a], removed@[b]]
                    0 <= a < b < n ==> removed@[a] < removed@[b],
                forall|vid: u64|
                    !removed@.take(t as int).contains(vid) ==> #[trigger] vermap(
                        s.ns(p),
                    ).contains_key(vid) == h0.contains_key(vid),
                forall|vid: u64|
                    !removed@.take(t as int).contains(vid) && #[trigger] h0.contains_key(vid)
                        ==> vermap(s.ns(p))[vid] == h0[vid],
                forall|vid: u64|
                    removed@.take(t as int).contains(vid) ==> !(#[trigger] vermap(
                        s.ns(p),
                    ).contains_key(vid)),
                match cand {
                    Some(cb) => probe(removed@, h0, cutoff, t as int) matches Some(w)
                        && h0.contains_key(w) && decode_vt(cb@) == h0[w],
                    None => probe(removed@, h0, cutoff, t as int) is None,
                },
            decreases n - t,
        {
            let ghost sprev = *s;
            let vk = u64_to_be_vec(removed[t]);
            let prior = match inner.remove(s, vk.as_slice()) {
                Ok(o) => o,
                Err(e) => {
                    return Err(e);
                },
            };
            proof {
                lemma_vermap_remove(sprev.ns(p), removed@[t as int]);
                assert forall|q: u64| q != p implies #[trigger] s.ns(q) == old(s).ns(q) by {
                    assert(s.ns(q) == sprev.ns(q));
                    assert(sprev.ns(q) == old(s).ns(q));
                }
                assert forall|k: Seq<u8>|
                    k != be8(p) && k != VsStore::counter_key() implies #[trigger] s.meta_map().contains_key(
                    k,
                ) == old(s).meta_map().contains_key(k) by {
                    assert(s.meta_map().contains_key(k) == sprev.meta_map().contains_key(k));
                    assert(sprev.meta_map().contains_key(k) == old(s).meta_map().contains_key(k));
                }
                assert forall|k: Seq<u8>|
                    k != be8(p) && k != VsStore::counter_key() && #[trigger] old(
                        s,
                    ).meta_map().contains_key(k) implies s.meta_map()[k] == old(s).meta_map()[k] by {
                    assert(sprev.meta_map().contains_key(k));
                    assert(s.meta_map()[k] == sprev.meta_map()[k]);
                    assert(sprev.meta_map()[k] == old(s).meta_map()[k]);
                }
                assert(!removed@.take(t as int).contains(removed@[t as int])) by {
                    if removed@.take(t as int).contains(removed@[t as int]) {
                        let w = choose|w: int|
                            0 <= w < t && removed@.take(t as int)[w] == removed@[t as int];
                        assert(removed@[w] < removed@[t as int]);
                    }
                }
                assert(removed@.take(t + 1) =~= removed@.take(t as int).push(removed@[t as int]));
                assert forall|vid: u64| removed@.take(t + 1).contains(vid) implies !(
                #[trigger] vermap(s.ns(p)).contains_key(vid)) by {
                    if vid != removed@[t as int] {
                        assert(removed@.take(t as int).contains(vid));
                    }
                }
                assert forall|vid: u64| !removed@.take(t + 1).contains(vid) implies #[trigger] vermap(
                    s.ns(p),
                ).contains_key(vid) == h0.contains_key(vid) by {
                    assert(!removed@.take(t as int).contains(vid)) by {
                        if removed@.take(t as int).contains(vid) {
                            let w = choose|w: int| 0 <= w < t && removed@.take(t as int)[w] == vid;
                            assert(removed@.take(t + 1)[w] == vid);
                        }
                    }
                    assert(vid != removed@[t as int]) by {
                        if vid == removed@[t as int] {
                            assert(removed@.take(t + 1)[t as int] == vid);
                        }
                    }
                }
                assert forall|vid: u64|
                    !removed@.take(t + 1).contains(vid) && #[trigger] h0.contains_key(vid)
                    implies vermap(s.ns(p))[vid] == h0[vid] by {
                    assert(!removed@.take(t as int).contains(vid)) by {
                        if removed@.take(t as int).contains(vid) {
                            let w = choose|w: int| 0 <= w < t && removed@.take(t as int)[w] == vid;
                            assert(removed@.take(t + 1)[w] == vid);
                        }
                    }
                    assert(vid != removed@[t as int]) by {
                        if vid == removed@[t as int] {
                            assert(removed@.take(t + 1)[t as int] == vid);
                        }
                    }
                    assert(vermap(s.ns(p)).contains_key(vid) == h0.contains_key(vid));
                }
            }
            match prior {
                Some(pb) => {
                    proof {
                        assert(vermap(sprev.ns(p)).contains_key(removed@[t as int]));
                        assert(h0.contains_key(removed@[t as int]));
                        assert(h0[removed@[t as int]] == decode_vt(pb@));
                        assert(probe(removed@, h0, cutoff, t + 1) == Some(removed@[t as int]));
                    }
                    cand = Some(pb);
                },
                None => {
                    proof {
                        assert(!vermap(sprev.ns(p)).contains_key(removed@[t as int]));
                        assert(!h0.contains_key(removed@[t as int]));
                        assert(probe(removed@, h0, cutoff, t + 1) == probe(
                            removed@,
                            h0,
                            cutoff,
                            t as int,
                        ));
                    }
                },
            }
            t = t + 1;
        }
        proof {
            assert(removed@.take(n as int) =~= removed@);
            assert(!removed@.contains(cutoff)) by {
                if removed@.contains(cutoff) {
                    let w = choose|w: int| 0 <= w < removed@.len() && removed@[w] == cutoff;
                    assert(removed@[w] < cutoff);
                }
            }
        }
        match cand {
            Some(cb) => {
                let ck = u64_to_be_vec(cutoff);
                let has = match inner.contains_key(s, ck.as_slice()) {
                    Ok(b) => b,
                    Err(e) => {
                        return Err(e);
                    },
                };
                if has {
                    proof {
                        assert(vermap(s.ns(p)).contains_key(cutoff));
                        assert(h0.contains_key(cutoff));
                        assert(folded(h0, vermap(s.ns(p)), removed@, cutoff));
                    }
                    return Ok(());
                }
                let nlen = match inner.len(s) {
                    Ok(n2) => n2,
                    Err(e) => {
                        return Err(e);
                    },
                };
                if nlen == u64::MAX {
                    return Err(VsError::BackendIo);
                }
                let ghost smid = *s;
                proof {
                    assert forall|vid: u64| !removed@.contains(vid) implies #[trigger] vermap(
                        smid.ns(p),
                    ).contains_key(vid) == h0.contains_key(vid) && (h0.contains_key(vid) ==> vermap(
                        smid.ns(p),
                    )[vid] == h0[vid]) by {
                        assert(!removed@.take(n as int).contains(vid));
                        assert(vermap(s.ns(p)).contains_key(vid) == h0.contains_key(vid));
                        if h0.contains_key(vid) {
                            assert(vermap(s.ns(p))[vid] == h0[vid]);
                        }
                        assert(vermap(smid.ns(p)) == vermap(s.ns(p)));
                    }
                    assert(vermap(smid.ns(p)) == vermap(s.ns(p)));
                    assert(!vermap(smid.ns(p)).contains_key(cutoff));
                }
                match inner.insert(s, ck.as_slice(), cb.as_slice()) {
                    Ok(_) => {},
                    Err(e) => {
                        return Err(e);
                    },
                }
                proof {
                    lemma_vermap_insert(smid.ns(p), cutoff, cb@);
                    assert forall|q: u64| q != p implies #[trigger] s.ns(q) == old(s).ns(q) by {
                        assert(s.ns(q) == smid.ns(q));
                        assert(smid.ns(q) == old(s).ns(q));
                    }
                    assert forall|k: Seq<u8>|
                        k != be8(p) && k != VsStore::counter_key() implies #[trigger] s.meta_map().contains_key(
                        k,
                    ) == old(s).meta_map().contains_key(k) by {
                        assert(s.meta_map().contains_key(k) == smid.meta_map().contains_key(k));
                        assert(smid.meta_map().contains_key(k) == old(s).meta_map().contains_key(
                            k,
                        ));
                    }
                    assert forall|k: Seq<u8>|
                        k != be8(p) && k != VsStore::counter_key() && #[trigger] old(
                            s,
                        ).meta_map().contains_key(k) implies s.meta_map()[k] == old(
                        s,
                    ).meta_map()[k] by {
                        assert(smid.meta_map().contains_key(k));
                        assert(s.meta_map()[k] == smid.meta_map()[k]);
                        assert(smid.meta_map()[k] == old(s).meta_map()[k]);
                    }
                    assert(!vermap(smid.ns(p)).contains_key(cutoff));
                    assert(!h0.contains_key(cutoff));
                    assert(vermap(s.ns(p)) == vermap(smid.ns(p)).insert(cutoff, decode_vt(cb@)));
                    assert forall|vid: u64|
                        !removed@.contains(vid) && vid != cutoff implies #[trigger] vermap(
                        s.ns(p),
                    ).contains_key(vid) == h0.contains_key(vid) && (h0.contains_key(vid)
                        ==> vermap(s.ns(p))[vid] == h0[vid]) by {
                        assert(vermap(smid.ns(p)).contains_key(vid) == h0.contains_key(vid));
                    }
                    assert(folded(h0, vermap(s.ns(p)), removed@, cutoff));
                }
                Ok(())
            },
            None => {
                proof {
                    assert(!removed@.take(n as int).contains(cutoff));
                    assert(vermap(s.ns(p)).contains_key(cutoff) == h0.contains_key(cutoff));
                    assert(h0.contains_key(cutoff) ==> vermap(s.ns(p))[cutoff] == h0[cutoff]);
                    assert(folded(h0, vermap(s.ns(p)), removed@, cutoff));
                }
                Ok(())
            },
        }
    }

    /// Retains only the newest `keep` versions of the named branch:
    /// versions below the cutoff leave the ledger, and every key's history
    /// below the cutoff is collapsed into the cutoff coordinate. A
    /// collapsed tombstone is kept at the cutoff, so reads keep resolving
    /// exactly as before the prune.
    #[verifier::rlimit(100)]
    #[verifier::spinoff_prover]
    pub fn prune(&self, s: &mut VsStore, l: &mut Ledger, bname: &[u8], keep: usize) -> (r: Result<
        (),
        VsError,
    >)
        requires
            old(s).wf(),
            self.wf_in(old(s)),
            old(l).wf(),
        ensures
            final(l).wf(),
            r matches Ok(u2) ==> final(s).wf() && self.wf_in(final(s)),
            r matches Ok(u2) ==> (*final(l) == *old(l) && (forall|k: Seq<u8>|
                #[trigger] self.hist_of(final(s), k) == self.hist_of(old(s), k))) || (exists|
                cutoff: u64,
                removed: Seq<u64>,
            |
                {
                    &&& #[trigger] pruned(&*old(l), &*final(l), bname@, keep as nat, cutoff, removed)
                    &&& forall|k: Seq<u8>|
                        #[trigger] folded(
                            self.hist_of(old(s), k),
                            self.hist_of(final(s), k),
                            removed,
                            cutoff,
                        )
                }),
            (r == Err::<(), VsError>(VsError::InvalidCoordinate)) == (keep == 0 || !old(
                l,
            ).has_bname(bname@)),
            keep >= 1 && old(l).has_bname(bname@) ==> r is Ok || r == Err::<(), VsError>(
                VsError::BackendIo,
            ),
    {
        let pr = match l.prune(bname, keep) {
            Ok(o) => o,
            Err(e) => {
                return Err(e);
            },
        };
        let (cutoff, removed) = match pr {
            Some(cr) => cr,
            None => {
                return Ok(());
            },
        };
        match self.fold_all(s, &removed, cutoff) {
            Ok(_) => Ok(()),
            Err(e) => Err(e),
        }
    }

    /// Pops the tip version of the named branch: its entries leave every
    /// key's history, the version leaves the ledger, and its name is
    /// unregistered.
    pub fn version_pop(&self, s: &mut VsStore, l: &mut Ledger, bname: &[u8]) -> (r: Result<
        u64,
        VsError,
    >)
        requires
            old(s).wf(),
            self.wf_in(old(s)),
            old(l).wf(),
        ensures
            final(l).wf(),
            r matches Ok(vt) ==> final(s).wf() && self.wf_in(final(s)) && version_popped(
                &*old(l),
                &*final(l),
                bname@,
                vt,
            ) && forall|k: Seq<u8>|
                #[trigger] self.hist_of(final(s), k) == self.hist_of(old(s), k).remove(vt),
            (r == Err::<u64, VsError>(VsError::InvalidCoordinate)) == !branch_ready(
                &*old(l),
                bname@,
            ),
            (r == Err::<u64, VsError>(VsError::BranchHasDescendants)) == (branch_ready(
                &*old(l),
                bname@,
            ) && tip_has_descendants(&*old(l), bname@)),
            branch_ready(&*old(l), bname@) && !tip_has_descendants(&*old(l), bname@) ==> r is Ok
                || r == Err::<u64, VsError>(VsError::BackendIo),
    {
        let vt = match l.version_pop(bname) {
            Ok(v) => v,
            Err(e) => {
                return Err(e);
            },
        };
        match self.clean_all(s, vt) {
            Ok(_) => Ok(vt),
            Err(e) => Err(e),
        }
    }

    /// Runs the per-key collapse over every key of the collection.
    #[verifier::rlimit(100)]
    #[verifier::spinoff_prover]
    fn fold_all(&self, s: &mut VsStore, removed: &Vec<u64>, cutoff: u64) -> (r: Result<(), VsError>)
        requires
            old(s).wf(),
            self.wf_in(old(s)),
            forall|t: int| 0 <= t < removed@.len() ==> #[trigger] removed@[t] < cutoff,
            forall|a: int, b: int|
                #![trigger removed@[a], removed@[b]]
                0 <= a < b < removed@.len() ==> removed@[a] < removed@[b],
        ensures
            r matches Err(e) ==> e == VsError::BackendIo,
            r matches Ok(u2) ==> final(s).wf() && self.wf_in(final(s)) && forall|k: Seq<u8>|
                #[trigger] folded(
                    self.hist_of(old(s), k),
                    self.hist_of(final(s), k),
                    removed@,
                    cutoff,
                ),
    {
        let items = match self.index.iter(s) {
            Ok(v) => v,
            Err(e) => {
                return Err(e);
            },
        };
        let ghost view0 = self.index.view_in(old(s));
        proof {
            assert forall|a: int, b: int|
                #![trigger items@[a], items@[b]]
                0 <= a < b < items@.len() implies items@[a].0@ != items@[b].0@ by {
                crate::ende::lemma_lex_asymmetric(items@[a].0@, items@[b].0@);
            }
        }
        let n = items.len();
        let mut i: usize = 0;
        while i < n
            invariant
                0 <= i <= n,
                n == items@.len(),
                s.wf(),
                self.wf_in(s),
                view0 == self.index.view_in(old(s)),
                self.index.view_in(s) == view0,
                self.wf_in(old(s)),
                forall|t: int| 0 <= t < removed@.len() ==> #[trigger] removed@[t] < cutoff,
                forall|a: int, b: int|
                    #![trigger removed@[a], removed@[b]]
                    0 <= a < b < removed@.len() ==> removed@[a] < removed@[b],
                forall|a: int, b: int|
                    #![trigger items@[a], items@[b]]
                    0 <= a < b < n ==> items@[a].0@ != items@[b].0@,
                forall|a: int|
                    #![trigger items@[a]]
                    0 <= a < n ==> view0.contains_key(items@[a].0@) && items@[a].1@
                        == view0[items@[a].0@],
                forall|k: Seq<u8>|
                    #![trigger view0.contains_key(k)]
                    view0.contains_key(k) ==> exists|a: int| 0 <= a < n && items@[a].0@ == k,
                forall|k: Seq<u8>|
                    #![trigger self.hist_of(s, k)]
                    (exists|j: int| 0 <= j < i && items@[j].0@ == k) ==> folded(
                        self.hist_of(old(s), k),
                        self.hist_of(s, k),
                        removed@,
                        cutoff,
                    ),
                forall|k: Seq<u8>|
                    #![trigger self.hist_of(s, k)]
                    !(exists|j: int| 0 <= j < i && items@[j].0@ == k) ==> self.hist_of(s, k)
                        == self.hist_of(old(s), k),
            decreases n - i,
        {
            let ghost sprev = *s;
            let kb = &items[i];
            let q = if kb.1.len() == 8 {
                u64_from_be_slice(kb.1.as_slice())
            } else {
                proof {
                    assert(false);
                }
                return Err(VsError::DecodeError);
            };
            let inner = MapxRaw { prefix: q };
            match Self::fold_key(s, &inner, removed, cutoff) {
                Ok(_) => {},
                Err(e) => {
                    return Err(e);
                },
            }
            proof {
                lemma_fold_step(self, sprev, *s, *old(s), view0, items@, i as int, q, removed@, cutoff);
            }
            i = i + 1;
        }
        proof {
            assert forall|k: Seq<u8>| true implies #[trigger] folded(
                self.hist_of(old(s), k),
                self.hist_of(s, k),
                removed@,
                cutoff,
            ) by {
                if view0.contains_key(k) {
                    assert(exists|a: int| 0 <= a < n && items@[a].0@ == k);
                } else {
                    assert(self.hist_of(s, k) == self.hist_of(old(s), k));
                    assert(self.hist_of(old(s), k) =~= Map::<u64, Option<Seq<u8>>>::empty());
                    lemma_folded_empty(self.hist_of(old(s), k), removed@, cutoff);
                }
            }
        }
        Ok(())
    }

    /// Deletes the popped version's cell from every key's history.
    #[verifier::rlimit(100)]
    #[verifier::spinoff_prover]
    fn clean_all(&self, s: &mut VsStore, vt: u64) -> (r: Result<(), VsError>)
        requires
            old(s).wf(),
            self.wf_in(old(s)),
        ensures
            r matches Err(e) ==> e == VsError::BackendIo,
            r matches Ok(u2) ==> final(s).wf() && self.wf_in(final(s)) && forall|k: Seq<u8>|
                #[trigger] self.hist_of(final(s), k) == self.hist_of(old(s), k).remove(vt),
    {
        let items = match self.index.iter(s) {
            Ok(v) => v,
            Err(e) => {
                return Err(e);
            },
        };
        let ghost view0 = self.index.view_in(old(s));
        proof {
            assert forall|a: int, b: int|
                #![trigger items@[a], items@[b]]
                0 <= a < b < items@.len() implies items@[a].0@ != items@[b].0@ by {
                crate::ende::lemma_lex_asymmetric(items@[a].0@, items@[b].0@);
            }
        }
        let vk = u64_to_be_vec(vt);
        let n = items.len();
        let mut i: usize = 0;
        while i < n
            invariant
                0 <= i <= n,
                n == items@.len(),
                s.wf(),
                self.wf_in(s),
                view0 == self.index.view_in(old(s)),
                self.index.view_in(s) == view0,
                self.wf_in(old(s)),
                vk@ == be8(vt),
                forall|a: int, b: int|
                    #![trigger items@[a], items@[b]]
                    0 <= a < b < n ==> items@[a].0@ != items@[b].0@,
                forall|a: int|
                    #![trigger items@[a]]
                    0 <= a < n ==> view0.contains_key(items@[a].0@) && items@[a].1@
                        == view0[items@[a].0@],
                forall|k: Seq<u8>|
                    #![trigger view0.contains_key(k)]
                    view0.contains_key(k) ==> exists|a: int| 0 <= a < n && items@[a].0@ == k,
                forall|k: Seq<u8>|
                    #![trigger self.hist_of(s, k)]
                    (exists|j: int| 0 <= j < i && items@[j].0@ == k) ==> self.hist_of(s, k)
                        == self.hist_of(old(s), k).remove(vt),
                forall|k: Seq<u8>|
                    #![trigger self.hist_of(s, k)]
                    !(exists|j: int| 0 <= j < i && items@[j].0@ == k) ==> self.hist_of(s, k)
                        == self.hist_of(old(s), k),
            decreases n - i,
        {
            let ghost sprev = *s;
            let kb = &items[i];
            let q = if kb.1.len() == 8 {
                u64_from_be_slice(kb.1.as_slice())
            } else {
                proof {
                    assert(false);
                }
                return Err(VsError::DecodeError);
            };
            let inner = MapxRaw { prefix: q };
            match inner.remove(s, vk.as_slice()) {
                Ok(_) => {},
                Err(e) => {
                    return Err(e);
                },
            }
            proof {
                lemma_vermap_remove(sprev.ns(q), vt);
                lemma_clean_step(self, sprev, *s, *old(s), view0, items@, i as int, q, vt);
            }
            i = i + 1;
        }
        proof {
            assert forall|k: Seq<u8>| true implies #[trigger] self.hist_of(s, k) == self.hist_of(
                old(s),
                k,
            ).remove(vt) by {
                if view0.contains_key(k) {
                    assert(exists|a: int| 0 <= a < n && items@[a].0@ == k);
                } else {
                    assert(self.hist_of(s, k) == self.hist_of(old(s), k));
                    assert(self.hist_of(old(s), k) =~= Map::<u64, Option<Seq<u8>>>::empty());
                    assert(self.hist_of(old(s), k).remove(vt) =~= self.hist_of(old(s), k));
                }
            }
        }
        Ok(())
    }

    /// The serialised form of the handle: the index prefix's 8 bytes.
    pub fn to_bytes(&self) -> (r: Vec<u8>)
        ensures
            r@ == be8(self.index.prefix),
    {
        self.index.to_bytes()
    }

    /// Rebuilds a handle from its serialised bytes.
    pub fn from_bytes(b: &[u8]) -> (r: Option<MapxRawVs>)
        ensures
            match r {
                Some(m) => b@.len() == 8 && m.index.prefix == from_be8(b@),
                None => b@.len() != 8,
            },
    {
        match MapxRaw::from_bytes(b) {
            Some(index) => Some(MapxRawVs { index }),
            None => None,
        }
    }
}


/// An empty history is its own collapse.
proof fn lemma_folded_empty(h: Hist, removed: Seq<u64>, cutoff: u64)
    requires
        forall|vid: u64| !(#[trigger] h.contains_key(vid)),
    ensures
        folded(h, h, removed, cutoff),
{
    lemma_probe_none(removed, h, cutoff, removed.len() as int);
}

/// One key folded, every other namespace untouched: the iteration's facts.
#[verifier::rlimit(100)]
#[verifier::spinoff_prover]
proof fn lemma_fold_step(
    m: &MapxRawVs,
    s0: VsStore,
    s1: VsStore,
    sorig: VsStore,
    view0: Map<Seq<u8>, Seq<u8>>,
    items: Seq<(Vec<u8>, Vec<u8>)>,
    i: int,
    q: u64,
    removed: Seq<u64>,
    cutoff: u64,
)
    requires
        m.wf_in(&sorig),
        m.wf_in(&s0),
        s0.wf(),
        s1.wf(),
        view0 == m.index.view_in(&sorig),
        m.index.view_in(&s0) == view0,
        0 <= i < items.len(),
        view0.contains_key(items[i].0@),
        items[i].1@ == view0[items[i].0@],
        q == from_be8(items[i].1@),
        forall|a: int, b: int|
            #![trigger items[a], items[b]]
            0 <= a < b < items.len() ==> items[a].0@ != items[b].0@,
        forall|a: int|
            #![trigger items[a]]
            0 <= a < items.len() ==> view0.contains_key(items[a].0@) && items[a].1@
                == view0[items[a].0@],
        (MapxRaw { prefix: q }).wf_in(&s1),
        s1.counter() == s0.counter(),
        ns_frame(s0, s1, q),
        meta_frame(s0, s1, q),
        folded(vermap(s0.ns(q)), vermap(s1.ns(q)), removed, cutoff),
        forall|k: Seq<u8>|
            #![trigger m.hist_of(&s0, k)]
            (exists|j: int| 0 <= j < i && items[j].0@ == k) ==> folded(
                m.hist_of(&sorig, k),
                m.hist_of(&s0, k),
                removed,
                cutoff,
            ),
        forall|k: Seq<u8>|
            #![trigger m.hist_of(&s0, k)]
            !(exists|j: int| 0 <= j < i && items[j].0@ == k) ==> m.hist_of(&s0, k) == m.hist_of(
                &sorig,
                k,
            ),
    ensures
        m.wf_in(&s1),
        m.index.view_in(&s1) == view0,
        forall|k: Seq<u8>|
            #![trigger m.hist_of(&s1, k)]
            (exists|j: int| 0 <= j < i + 1 && items[j].0@ == k) ==> folded(
                m.hist_of(&sorig, k),
                m.hist_of(&s1, k),
                removed,
                cutoff,
            ),
        forall|k: Seq<u8>|
            #![trigger m.hist_of(&s1, k)]
            !(exists|j: int| 0 <= j < i + 1 && items[j].0@ == k) ==> m.hist_of(&s1, k)
                == m.hist_of(&sorig, k),
{
    let ki = items[i].0@;
    assert(m.index.view_in(&s0).contains_key(ki));
    assert(q != m.index.prefix);
    assert(m.index.view_in(&s1) == view0) by {
        assert(s1.ns(m.index.prefix) == s0.ns(m.index.prefix));
    }
    assert(m.index.wf_in(&s1)) by {
        assert(be8(q) != be8(m.index.prefix)) by {
            crate::ende::lemma_be8_injective_auto();
        }
        assert(be8(m.index.prefix).len() == 8 && VsStore::counter_key().len() == 1);
        assert(s0.meta_map().contains_key(be8(m.index.prefix)));
        assert(s1.meta_map().contains_key(be8(m.index.prefix)));
        assert(s1.meta_map()[be8(m.index.prefix)] == s0.meta_map()[be8(m.index.prefix)]);
    }
    assert forall|k: Seq<u8>| #[trigger] m.index.view_in(&s1).contains_key(k)
        implies m.index.view_in(&s1)[k].len() == 8 && RESERVED <= from_be8(
        m.index.view_in(&s1)[k],
    ) < u64::MAX && from_be8(m.index.view_in(&s1)[k]) != m.index.prefix && (MapxRaw {
        prefix: from_be8(m.index.view_in(&s1)[k]),
    }).wf_in(&s1) by {
        assert(m.index.view_in(&s0).contains_key(k));
        let qk = from_be8(m.index.view_in(&s0)[k]);
        if qk != q {
            assert(s1.ns(qk) == s0.ns(qk));
            assert(be8(qk) != be8(q)) by {
                crate::ende::lemma_be8_injective_auto();
            }
            assert(be8(qk).len() == 8 && VsStore::counter_key().len() == 1);
            assert(s0.meta_map().contains_key(be8(qk)));
            assert(s1.meta_map().contains_key(be8(qk)));
            assert(s1.meta_map()[be8(qk)] == s0.meta_map()[be8(qk)]);
        }
    }
    assert forall|k: Seq<u8>|
        #![trigger m.hist_of(&s1, k)]
        true implies ((exists|j: int| 0 <= j < i + 1 && items[j].0@ == k) ==> folded(
        m.hist_of(&sorig, k),
        m.hist_of(&s1, k),
        removed,
        cutoff,
    )) && (!(exists|j: int| 0 <= j < i + 1 && items[j].0@ == k) ==> m.hist_of(&s1, k) == m.hist_of(
        &sorig,
        k,
    )) by {
        if k == ki {
            assert(items[i].0@ == k);
            assert(!(exists|j: int| 0 <= j < i && items[j].0@ == k)) by {
                if exists|j: int| 0 <= j < i && items[j].0@ == k {
                    let j = choose|j: int| 0 <= j < i && items[j].0@ == k;
                    assert(items[j].0@ != items[i].0@);
                }
            }
            assert(m.hist_of(&s0, k) == m.hist_of(&sorig, k));
            assert(m.hist_of(&s0, k) == vermap(s0.ns(q)));
            assert(m.hist_of(&s1, k) == vermap(s1.ns(q)));
        } else {
            if m.index.view_in(&s0).contains_key(k) {
                let qk = from_be8(m.index.view_in(&s0)[k]);
                assert(qk != q) by {
                    assert(m.index.view_in(&s0).contains_key(ki));
                    assert(from_be8(m.index.view_in(&s0)[ki]) == q);
                }
                assert(s1.ns(qk) == s0.ns(qk));
                assert(m.hist_of(&s1, k) == m.hist_of(&s0, k));
            } else {
                assert(m.hist_of(&s1, k) == Map::<u64, Option<Seq<u8>>>::empty());
                assert(m.hist_of(&s0, k) == Map::<u64, Option<Seq<u8>>>::empty());
            }
            assert(m.hist_of(&s1, k) == m.hist_of(&s0, k));
            if exists|j: int| 0 <= j < i + 1 && items[j].0@ == k {
                let j = choose|j: int| 0 <= j < i + 1 && items[j].0@ == k;
                assert(j < i) by {
                    if j == i {
                        assert(items[i].0@ == k);
                    }
                }
                assert(exists|j2: int| 0 <= j2 < i && items[j2].0@ == k);
            }
        }
    }
}

/// One key's popped cell removed, every other namespace untouched.
#[verifier::rlimit(100)]
#[verifier::spinoff_prover]
proof fn lemma_clean_step(
    m: &MapxRawVs,
    s0: VsStore,
    s1: VsStore,
    sorig: VsStore,
    view0: Map<Seq<u8>, Seq<u8>>,
    items: Seq<(Vec<u8>, Vec<u8>)>,
    i: int,
    q: u64,
    vt: u64,
)
    requires
        m.wf_in(&sorig),
        m.wf_in(&s0),
        s0.wf(),
        s1.wf(),
        view0 == m.index.view_in(&sorig),
        m.index.view_in(&s0) == view0,
        0 <= i < items.len(),
        view0.contains_key(items[i].0@),
        items[i].1@ == view0[items[i].0@],
        q == from_be8(items[i].1@),
        forall|a: int, b: int|
            #![trigger items[a], items[b]]
            0 <= a < b < items.len() ==> items[a].0@ != items[b].0@,
        forall|a: int|
            #![trigger items[a]]
            0 <= a < items.len() ==> view0.contains_key(items[a].0@) && items[a].1@
                == view0[items[a].0@],
        (MapxRaw { prefix: q }).wf_in(&s1),
        s1.counter() == s0.counter(),
        ns_frame(s0, s1, q),
        meta_frame(s0, s1, q),
        vermap(s1.ns(q)) == vermap(s0.ns(q)).remove(vt),
        forall|k: Seq<u8>|
            #![trigger m.hist_of(&s0, k)]
            (exists|j: int| 0 <= j < i && items[j].0@ == k) ==> m.hist_of(&s0, k) == m.hist_of(
                &sorig,
                k,
            ).remove(vt),
        forall|k: Seq<u8>|
            #![trigger m.hist_of(&s0, k)]
            !(exists|j: int| 0 <= j < i && items[j].0@ == k) ==> m.hist_of(&s0, k) == m.hist_of(
                &sorig,
                k,
            ),
    ensures
        m.wf_in(&s1),
        m.index.view_in(&s1) == view0,
        forall|k: Seq<u8>|
            #![trigger m.hist_of(&s1, k)]
            (exists|j: int| 0 <= j < i + 1 && items[j].0@ == k) ==> m.hist_of(&s1, k) == m.hist_of(
                &sorig,
                k,
            ).remove(vt),
        forall|k: Seq<u8>|
            #![trigger m.hist_of(&s1, k)]
            !(exists|j: int| 0 <= j < i + 1 && items[j].0@ == k) ==> m.hist_of(&s1, k)
                == m.hist_of(&sorig, k),
{
    let ki = items[i].0@;
    assert(m.index.view_in(&s0).contains_key(ki));
    assert(q != m.index.prefix);
    assert(m.index.view_in(&s1) == view0) by {
        assert(s1.ns(m.index.prefix) == s0.ns(m.index.prefix));
    }
    assert(m.index.wf_in(&s1)) by {
        assert(be8(q) != be8(m.index.prefix)) by {
            crate::ende::lemma_be8_injective_auto();
        }
        assert(be8(m.index.prefix).len() == 8 && VsStore::counter_key().len() == 1);
        assert(s0.meta_map().contains_key(be8(m.index.prefix)));
        assert(s1.meta_map().contains_key(be8(m.index.prefix)));
        assert(s1.meta_map()[be8(m.index.prefix)] == s0.meta_map()[be8(m.index.prefix)]);
    }
    assert forall|k: Seq<u8>| #[trigger] m.index.view_in(&s1).contains_key(k)
        implies m.index.view_in(&s1)[k].len() == 8 && RESERVED <= from_be8(
        m.index.view_in(&s1)[k],
    ) < u64::MAX && from_be8(m.index.view_in(&s1)[k]) != m.index.prefix && (MapxRaw {
        prefix: from_be8(m.index.view_in(&s1)[k]),
    }).wf_in(&s1) by {
        assert(m.index.view_in(&s0).contains_key(k));
        let qk = from_be8(m.index.view_in(&s0)[k]);
        if qk != q {
            assert(s1.ns(qk) == s0.ns(qk));
            assert(be8(qk) != be8(q)) by {
                crate::ende::lemma_be8_injective_auto();
            }
            assert(be8(qk).len() == 8 && VsStore::counter_key().len() == 1);
            assert(s0.meta_map().contains_key(be8(qk)));
            assert(s1.meta_map().contains_key(be8(qk)));
            assert(s1.meta_map()[be8(qk)] == s0.meta_map()[be8(qk)]);
        }
    }
    assert forall|k: Seq<u8>|
        #![trigger m.hist_of(&s1, k)]
        true implies ((exists|j: int| 0 <= j < i + 1 && items[j].0@ == k) ==> m.hist_of(&s1, k)
        == m.hist_of(&sorig, k).remove(vt)) && (!(exists|j: int|
        0 <= j < i + 1 && items[j].0@ == k) ==> m.hist_of(&s1, k) == m.hist_of(&sorig, k)) by {
        if k == ki {
            assert(items[i].0@ == k);
            assert(!(exists|j: int| 0 <= j < i && items[j].0@ == k)) by {
                if exists|j: int| 0 <= j < i && items[j].0@ == k {
                    let j = choose|j: int| 0 <= j < i && items[j].0@ == k;
                    assert(items[j].0@ != items[i].0@);
                }
            }
            assert(m.hist_of(&s0, k) == m.hist_of(&sorig, k));
            assert(m.hist_of(&s0, k) == vermap(s0.ns(q)));
            assert(m.hist_of(&s1, k) == vermap(s1.ns(q)));
        } else {
            if m.index.view_in(&s0).contains_key(k) {
                let qk = from_be8(m.index.view_in(&s0)[k]);
                assert(qk != q) by {
                    assert(m.index.view_in(&s0).contains_key(ki));
                    assert(from_be8(m.index.view_in(&s0)[ki]) == q);
                }
                assert(s1.ns(qk) == s0.ns(qk));
                assert(m.hist_of(&s1, k) == m.hist_of(&s0, k));
            } else {
                assert(m.hist_of(&s1, k) == Map::<u64, Option<Seq<u8>>>::empty());
                assert(m.hist_of(&s0, k) == Map::<u64, Option<Seq<u8>>>::empty());
            }
            assert(m.hist_of(&s1, k) == m.hist_of(&s0, k));
            if exists|j: int| 0 <= j < i + 1 && items[j].0@ == k {
                let j = choose|j: int| 0 <= j < i + 1 && items[j].0@ == k;
                assert(j < i) by {
                    if j == i {
                        assert(items[i].0@ == k);
                    }
                }
                assert(exists|j2: int| 0 <= j2 < i && items[j2].0@ == k);
            }
        }
    }
}

} // verus!
