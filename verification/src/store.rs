//! The store: one backend opened at a directory, carved into a meta
//! sub-tree and a fixed ring of data areas. The meta sub-tree holds the
//! next-free prefix counter under the one-byte key `[0]` and a length
//! counter for each namespace under the prefix's own 8 bytes; every data key
//! is an 8-byte prefix followed by the user's bytes, and `ns` reads one such
//! namespace back out as a map.

use vstd::prelude::*;
use vstd::set_lib::lemma_set_subset_finite;
use crate::ende::{be8, from_be8, lemma_be8_round_trip, lemma_prefixed_inj, lemma_prefixed_parts};
use crate::engine::{
    tree_contents, sled_open_db, sled_open_tree, tree_get, tree_insert, tree_flush,
    unchanged_except,
};
use crate::err::VsError;

verus! {

/// Identifiers below this value are reserved for the library itself; user
/// allocations start here.
pub const RESERVED: u64 = 40000000;

/// The sentinel meaning "no branch".
pub const NULL_ID: u64 = 39999999;

/// The branch every store starts with.
pub const INITIAL_BRANCH_ID: u64 = 0;

/// How many physical areas the key space is fanned out over.
pub const AREAS: usize = 8;

/// The longest ancestor chain a branch may have.
pub const BRANCH_ANCESTORS_LIMIT: usize = 128;

/// The area a prefix is routed to.
pub open spec fn area_of(p: u64) -> int {
    (p % 8) as int
}

/// The namespace of prefix `p` within one area's contents: the keys tagged
/// with `p`, with the tag stripped.
pub open spec fn ns_of(c: Map<Seq<u8>, Seq<u8>>, p: u64) -> Map<Seq<u8>, Seq<u8>> {
    Map::new(|k: Seq<u8>| c.contains_key(be8(p) + k), |k: Seq<u8>| c[be8(p) + k])
}

/// Inserting a tagged key changes exactly its own namespace, at the
/// stripped key.
pub proof fn lemma_ns_insert(c: Map<Seq<u8>, Seq<u8>>, p: u64, k: Seq<u8>, v: Seq<u8>, q: u64)
    ensures
        p == q ==> ns_of(c.insert(be8(p) + k, v), q) == ns_of(c, p).insert(k, v),
        p != q ==> ns_of(c.insert(be8(p) + k, v), q) == ns_of(c, q),
{
    let c2 = c.insert(be8(p) + k, v);
    if p == q {
        assert forall|j: Seq<u8>| true implies #[trigger] ns_of(c2, q).contains_key(j) == ns_of(
            c,
            p,
        ).insert(k, v).contains_key(j) && (ns_of(c2, q).contains_key(j) ==> ns_of(c2, q)[j]
            == ns_of(c, p).insert(k, v)[j]) by {
            if be8(q) + j == be8(p) + k {
                lemma_prefixed_inj(q, j, p, k);
            }
        }
        assert(ns_of(c2, q) =~= ns_of(c, p).insert(k, v));
    } else {
        assert forall|j: Seq<u8>| true implies #[trigger] ns_of(c2, q).contains_key(j) == ns_of(
            c,
            q,
        ).contains_key(j) && (ns_of(c2, q).contains_key(j) ==> ns_of(c2, q)[j] == ns_of(c, q)[j]) by {
            if be8(q) + j == be8(p) + k {
                lemma_prefixed_inj(q, j, p, k);
            }
        }
        assert(ns_of(c2, q) =~= ns_of(c, q));
    }
}

/// Removing a tagged key changes exactly its own namespace.
pub proof fn lemma_ns_remove(c: Map<Seq<u8>, Seq<u8>>, p: u64, k: Seq<u8>, q: u64)
    ensures
        p == q ==> ns_of(c.remove(be8(p) + k), q) == ns_of(c, p).remove(k),
        p != q ==> ns_of(c.remove(be8(p) + k), q) == ns_of(c, q),
{
    let c2 = c.remove(be8(p) + k);
    if p == q {
        assert forall|j: Seq<u8>| true implies #[trigger] ns_of(c2, q).contains_key(j) == ns_of(
            c,
            p,
        ).remove(k).contains_key(j) && (ns_of(c2, q).contains_key(j) ==> ns_of(c2, q)[j] == ns_of(
            c,
            p,
        ).remove(k)[j]) by {
            if be8(q) + j == be8(p) + k {
                lemma_prefixed_inj(q, j, p, k);
            }
        }
        assert(ns_of(c2, q) =~= ns_of(c, p).remove(k));
    } else {
        assert forall|j: Seq<u8>| true implies #[trigger] ns_of(c2, q).contains_key(j) == ns_of(
            c,
            q,
        ).contains_key(j) && (ns_of(c2, q).contains_key(j) ==> ns_of(c2, q)[j] == ns_of(c, q)[j]) by {
            if be8(q) + j == be8(p) + k {
                lemma_prefixed_inj(q, j, p, k);
            }
        }
        assert(ns_of(c2, q) =~= ns_of(c, q));
    }
}

/// A namespace of a finite area is finite.
pub proof fn lemma_ns_finite(c: Map<Seq<u8>, Seq<u8>>, p: u64)
    requires
        c.dom().finite(),
    ensures
        ns_of(c, p).dom().finite(),
{
    let img = c.dom().map(|fk: Seq<u8>| fk.skip(8));
    c.dom().lemma_map_finite(|fk: Seq<u8>| fk.skip(8));
    assert forall|j: Seq<u8>| ns_of(c, p).dom().contains(j) implies img.contains(j) by {
        lemma_prefixed_parts(p, j);
        assert(c.dom().contains(be8(p) + j));
    }
    broadcast use lemma_set_subset_finite;

    assert(ns_of(c, p).dom() <= img);
}

/// Saturating increment, the step the allocator's counter takes.
pub open spec fn sat_inc(c: u64) -> u64 {
    if c == u64::MAX {
        u64::MAX
    } else {
        (c + 1) as u64
    }
}

/// What one atomic allocator step leaves in the counter cell.
pub open spec fn counter_step_spec(cur: Option<Seq<u8>>) -> u64 {
    match cur {
        Some(b) => if b.len() == 8 {
            sat_inc(from_be8(b))
        } else {
            sat_inc(RESERVED)
        },
        None => sat_inc(RESERVED),
    }
}

/// The step handed to the backend's atomic update: parse, bump, re-encode.
pub fn counter_step_bytes(cur: Option<&[u8]>) -> (r: Vec<u8>)
    ensures
        r@ == be8(counter_step_spec(match cur {
            Some(b) => Some(b@),
            None => None,
        })),
{
    let c: u64 = match cur {
        Some(b) => {
            if b.len() == 8 {
                crate::ende::u64_from_be_slice(b)
            } else {
                RESERVED
            }
        },
        None => RESERVED,
    };
    let n: u64 = if c == u64::MAX {
        u64::MAX
    } else {
        c + 1
    };
    crate::ende::u64_to_be_vec(n)
}

/// Relies on sled::Tree::update_and_fetch: atomically replaces the value at
/// the key with `counter_step_bytes` of its current value and returns the
/// new value; a failed call touches no other key.
#[verifier::external_body]
fn tree_bump(t: &mut sled::Tree, key: &[u8]) -> (r: Result<Vec<u8>, VsError>)
    ensures
        tree_contents(*final(t)).dom().finite(),
        match r {
            Ok(v) => v@ == be8(counter_step_spec(if tree_contents(*old(t)).contains_key(key@) {
                Some(tree_contents(*old(t))[key@])
            } else {
                None
            })) && tree_contents(*final(t)) == tree_contents(*old(t)).insert(key@, v@),
            Err(e) => e == VsError::BackendIo && unchanged_except(
                tree_contents(*old(t)),
                tree_contents(*final(t)),
                key@,
            ),
        },
{
    match t.update_and_fetch(key, |cur| Some(counter_step_bytes(cur))) {
        Ok(Some(v)) => Ok(v.to_vec()),
        _ => Err(VsError::BackendIo),
    }
}

/// An open store: the meta sub-tree and the data areas.
pub struct VsStore {
    pub meta: sled::Tree,
    pub areas: Vec<sled::Tree>,
}

impl VsStore {
    /// The meta sub-tree's contents.
    pub open spec fn meta_map(&self) -> Map<Seq<u8>, Seq<u8>> {
        tree_contents(self.meta)
    }

    /// One area's contents.
    pub open spec fn area_map(&self, i: int) -> Map<Seq<u8>, Seq<u8>> {
        tree_contents(self.areas@[i])
    }

    /// The namespace of prefix `p`.
    pub open spec fn ns(&self, p: u64) -> Map<Seq<u8>, Seq<u8>> {
        ns_of(self.area_map(area_of(p)), p)
    }

    /// The key the allocator's counter lives under.
    pub open spec fn counter_key() -> Seq<u8> {
        seq![0u8]
    }

    /// The next-free prefix.
    pub open spec fn counter(&self) -> u64 {
        from_be8(self.meta_map()[Self::counter_key()])
    }

    pub open spec fn wf(&self) -> bool {
        &&& self.areas@.len() == AREAS
        &&& self.meta_map().dom().finite()
        &&& (forall|i: int| 0 <= i < AREAS ==> (#[trigger] self.area_map(i)).dom().finite())
        &&& self.meta_map().contains_key(Self::counter_key())
        &&& self.meta_map()[Self::counter_key()].len() == 8
        &&& self.counter() >= RESERVED
    }

    /// Hands out the next free prefix and advances the counter: the heart of
    /// namespace allocation. The result is never handed out again by this
    /// store.
    pub fn alloc_prefix(&mut self) -> (r: Result<u64, VsError>)
        requires
            old(self).wf(),
        ensures
            final(self).areas == old(self).areas,
            r matches Ok(p) ==> final(self).wf(),
            r matches Ok(p) ==> p == old(self).counter() && RESERVED <= p < u64::MAX,
            r matches Ok(p) ==> final(self).counter() == p + 1,
            r matches Ok(p) ==> final(self).meta_map() == old(self).meta_map().insert(
                Self::counter_key(),
                be8((p + 1) as u64),
            ),
            r is Err ==> unchanged_except(
                old(self).meta_map(),
                final(self).meta_map(),
                Self::counter_key(),
            ),
            r matches Err(e) ==> e == VsError::BackendIo,
    {
        let key: Vec<u8> = vec![0u8];
        assert(key@ =~= Self::counter_key());
        let ghost c0 = self.counter();
        proof {
            lemma_be8_round_trip(c0);
            assert(self.meta_map()[Self::counter_key()] =~= be8(c0)) by {
                lemma_be8_bytes_of_len8(self.meta_map()[Self::counter_key()]);
            }
        }
        let bumped = tree_bump(&mut self.meta, key.as_slice());
        match bumped {
            Ok(v) => {
                let n = crate::ende::u64_from_be_slice(v.as_slice());
                proof {
                    lemma_be8_round_trip(sat_inc(c0));
                }
                if n == u64::MAX {
                    proof {
                        assert(unchanged_except(
                            old(self).meta_map(),
                            self.meta_map(),
                            Self::counter_key(),
                        ));
                    }
                    return Err(VsError::BackendIo);
                }
                proof {
                    lemma_be8_round_trip(n);
                    assert forall|i: int| 0 <= i < AREAS implies (#[trigger] self.area_map(
                        i,
                    )).dom().finite() by {
                        assert(self.areas@[i] == old(self).areas@[i]);
                        assert(old(self).area_map(i).dom().finite());
                    }
                    assert(self.meta_map() =~= old(self).meta_map().insert(
                        VsStore::counter_key(),
                        be8(n),
                    ));
                }
                Ok(n - 1)
            },
            Err(e) => Err(e),
        }
    }

    /// Branch identifiers are drawn from the same counter as prefixes, so
    /// the two kinds never collide.
    pub fn alloc_branch_id(&mut self) -> (r: Result<u64, VsError>)
        requires
            old(self).wf(),
        ensures
            final(self).areas == old(self).areas,
            r matches Ok(p) ==> final(self).wf() && p == old(self).counter() && RESERVED <= p
                < u64::MAX && final(self).counter() == p + 1 && final(self).meta_map() == old(
                self,
            ).meta_map().insert(Self::counter_key(), be8((p + 1) as u64)),
            r matches Err(e) ==> e == VsError::BackendIo,
    {
        self.alloc_prefix()
    }

    /// Version identifiers too are drawn from the same counter.
    pub fn alloc_version_id(&mut self) -> (r: Result<u64, VsError>)
        requires
            old(self).wf(),
        ensures
            final(self).areas == old(self).areas,
            r matches Ok(p) ==> final(self).wf() && p == old(self).counter() && RESERVED <= p
                < u64::MAX && final(self).counter() == p + 1 && final(self).meta_map() == old(
                self,
            ).meta_map().insert(Self::counter_key(), be8((p + 1) as u64)),
            r matches Err(e) ==> e == VsError::BackendIo,
    {
        self.alloc_prefix()
    }

    /// Opens (creating it if missing) the store rooted at `dir` and makes
    /// sure the allocator cell is initialised.
    pub fn open(dir: &str) -> (r: Result<VsStore, VsError>)
        ensures
            r matches Ok(s) ==> s.wf(),
    {
        let db = match sled_open_db(dir) {
            Ok(d) => d,
            Err(e) => {
                return Err(e);
            },
        };
        let meta_name: Vec<u8> = vec![255u8];
        let mut meta = match sled_open_tree(&db, meta_name.as_slice()) {
            Ok(t) => t,
            Err(e) => {
                return Err(e);
            },
        };
        let mut areas: Vec<sled::Tree> = Vec::new();
        let mut i: usize = 0;
        while i < AREAS
            invariant
                0 <= i <= AREAS,
                areas@.len() == i,
                forall|j: int| 0 <= j < i ==> (#[trigger] tree_contents(areas@[j])).dom().finite(),
            decreases AREAS - i,
        {
            let name: Vec<u8> = vec![i as u8];
            let t = match sled_open_tree(&db, name.as_slice()) {
                Ok(t) => t,
                Err(e) => {
                    return Err(e);
                },
            };
            areas.push(t);
            i = i + 1;
        }
        let ckey: Vec<u8> = vec![0u8];
        assert(ckey@ =~= VsStore::counter_key());
        let cur = match tree_get(&meta, ckey.as_slice()) {
            Ok(c) => c,
            Err(e) => {
                return Err(e);
            },
        };
        let ok = match cur {
            Some(v) => {
                if v.len() == 8 {
                    crate::ende::u64_from_be_slice(v.as_slice()) >= RESERVED
                } else {
                    false
                }
            },
            None => false,
        };
        if !ok {
            let init = crate::ende::u64_to_be_vec(RESERVED);
            match tree_insert(&mut meta, ckey.as_slice(), init.as_slice()) {
                Ok(_) => {},
                Err(e) => {
                    return Err(e);
                },
            }
            proof {
                lemma_be8_round_trip(RESERVED);
            }
        } else {
            proof {
                lemma_be8_bytes_of_len8(tree_contents(meta)[VsStore::counter_key()]);
            }
        }
        let s = VsStore { meta, areas };
        Ok(s)
    }

    /// Pushes every area and the meta sub-tree down to disk.
    pub fn flush(&self) -> (r: Result<(), VsError>) {
        let mut i: usize = 0;
        while i < self.areas.len()
            invariant
                0 <= i <= self.areas@.len(),
            decreases self.areas@.len() - i,
        {
            match tree_flush(&self.areas[i]) {
                Ok(_) => {},
                Err(e) => {
                    return Err(e);
                },
            }
            i = i + 1;
        }
        tree_flush(&self.meta)
    }
}

/// Prefix uniqueness: an allocation returns the counter and leaves it
/// strictly larger, and no operation of the library ever moves the counter
/// backwards; so of two allocations in one store's lifetime the later
/// returns a strictly larger, hence different, prefix.
pub proof fn lemma_prefix_uniqueness(
    s0: &VsStore,
    s1: &VsStore,
    s2: &VsStore,
    p1: u64,
    p2: u64,
)
    requires
        p1 == s0.counter(),
        s1.counter() == p1 + 1,
        s2.counter() >= s1.counter(),
        p2 == s2.counter(),
    ensures
        p1 < p2,
        p1 != p2,
{
}

/// An 8-byte string is the big-endian image of the integer it reads as.
pub proof fn lemma_be8_bytes_of_len8(s: Seq<u8>)
    requires
        s.len() == 8,
    ensures
        be8(from_be8(s)) == s,
{
    let x = from_be8(s);
    let b0 = s[0];
    let b1 = s[1];
    let b2 = s[2];
    let b3 = s[3];
    let b4 = s[4];
    let b5 = s[5];
    let b6 = s[6];
    let b7 = s[7];
    let y: u64 = ((b0 as u64) << 56) | ((b1 as u64) << 48) | ((b2 as u64) << 40) | ((b3 as u64)
        << 32) | ((b4 as u64) << 24) | ((b5 as u64) << 16) | ((b6 as u64) << 8) | (b7 as u64);
    assert(y == ((b0 as u64) << 56) | ((b1 as u64) << 48) | ((b2 as u64) << 40) | ((b3 as u64)
        << 32) | ((b4 as u64) << 24) | ((b5 as u64) << 16) | ((b6 as u64) << 8) | (b7 as u64)
        ==> ((y >> 56) as u8) == b0 && ((y >> 48) as u8) == b1 && ((y >> 40) as u8) == b2 && ((y
        >> 32) as u8) == b3 && ((y >> 24) as u8) == b4 && ((y >> 16) as u8) == b5 && ((y
        >> 8) as u8) == b6 && (y as u8) == b7) by (bit_vector);
    assert(be8(x) =~= s);
}

} // verus!
