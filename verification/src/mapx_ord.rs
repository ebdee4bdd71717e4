//! The typed ordered map: user keys and values cross into the raw
//! namespaced map through the codec traits. The key encoding is
//! order-preserving, so the backend's range scans read back in the keys'
//! own order.

use vstd::prelude::*;
use core::marker::PhantomData;
use crate::ende::{lex_lt, lex_le, KeyEnDeOrdered, ValueEnDe};
use crate::err::VsError;
use crate::mapx_raw::{MapxRaw, KeyBound, range_post, key_in_bounds, above_key_lo, below_key_hi};
use crate::store::{VsStore, RESERVED};

verus! {

/// A bound over typed keys.
pub enum KBound<K> {
    Incl(K),
    Excl(K),
    Unbounded,
}

pub open spec fn kb_lo_ok<K: KeyEnDeOrdered>(lo: &KBound<K>, ek: Seq<u8>) -> bool {
    match lo {
        KBound::Incl(k) => lex_le(k.kenc_spec(), ek),
        KBound::Excl(k) => lex_lt(k.kenc_spec(), ek),
        KBound::Unbounded => true,
    }
}

pub open spec fn kb_hi_ok<K: KeyEnDeOrdered>(hi: &KBound<K>, ek: Seq<u8>) -> bool {
    match hi {
        KBound::Incl(k) => lex_le(ek, k.kenc_spec()),
        KBound::Excl(k) => lex_lt(ek, k.kenc_spec()),
        KBound::Unbounded => true,
    }
}

/// What a typed range scan returns: sorted by the key order, exact encoded
/// values, and complete over the stored keys within the bounds.
pub open spec fn typed_range_post<K: KeyEnDeOrdered, V: ValueEnDe>(
    view: Map<Seq<u8>, Seq<u8>>,
    lo: KBound<K>,
    hi: KBound<K>,
    v: Seq<(K, V)>,
) -> bool {
    &&& forall|a: int, b: int|
        #![trigger v[a], v[b]]
        0 <= a < b < v.len() ==> lex_lt(v[a].0.kenc_spec(), v[b].0.kenc_spec())
    &&& forall|a: int|
        #![trigger v[a]]
        0 <= a < v.len() ==> view.contains_key(v[a].0.kenc_spec()) && v[a].1.enc_spec()
            == view[v[a].0.kenc_spec()] && kb_lo_ok(&lo, v[a].0.kenc_spec()) && kb_hi_ok(
            &hi,
            v[a].0.kenc_spec(),
        )
    &&& forall|ek: Seq<u8>|
        #![trigger view.contains_key(ek)]
        view.contains_key(ek) && kb_lo_ok(&lo, ek) && kb_hi_ok(&hi, ek) ==> exists|a: int|
            0 <= a < v.len() && v[a].0.kenc_spec() == ek
}

/// An ordered typed map: a raw namespace handle plus the two codecs.
pub struct MapxOrd<K, V> {
    pub raw: MapxRaw,
    pub _pd: PhantomData<(K, V)>,
}

impl<K: KeyEnDeOrdered, V: ValueEnDe> MapxOrd<K, V> {
    /// The stored bytes: encoded key to encoded value.
    pub open spec fn view_in(&self, s: &VsStore) -> Map<Seq<u8>, Seq<u8>> {
        self.raw.view_in(s)
    }

    pub open spec fn wf_in(&self, s: &VsStore) -> bool {
        self.raw.wf_in(s)
    }

    /// Creates a fresh, empty map under a newly allocated prefix.
    pub fn new(s: &mut VsStore) -> (r: Result<MapxOrd<K, V>, VsError>)
        requires
            old(s).wf(),
        ensures
            r matches Ok(m) ==> final(s).wf() && m.wf_in(final(s)) && m.view_in(final(s)) == Map::<
                Seq<u8>,
                Seq<u8>,
            >::empty(),
    {
        match MapxRaw::new(s) {
            Ok(raw) => Ok(MapxOrd { raw, _pd: PhantomData }),
            Err(e) => Err(e),
        }
    }

    /// The serialised form of the handle: the prefix's 8 bytes; data is not
    /// copied, and a handle read back addresses the same stored map.
    pub fn to_bytes(&self) -> (r: Vec<u8>)
        ensures
            r@ == crate::ende::be8(self.raw.prefix),
    {
        self.raw.to_bytes()
    }

    /// Rebuilds a handle from its serialised bytes.
    pub fn from_bytes(b: &[u8]) -> (r: Option<MapxOrd<K, V>>)
        ensures
            match r {
                Some(m) => b@.len() == 8 && m.raw.prefix == crate::ende::from_be8(b@),
                None => b@.len() != 8,
            },
    {
        match MapxRaw::from_bytes(b) {
            Some(raw) => Some(MapxOrd { raw, _pd: PhantomData }),
            None => None,
        }
    }

    /// How many pairs the map holds.
    pub fn len(&self, s: &VsStore) -> (r: Result<u64, VsError>)
        requires
            s.wf(),
            self.wf_in(s),
        ensures
            r matches Ok(n) ==> n == self.view_in(s).dom().len(),
    {
        self.raw.len(s)
    }

    pub fn is_empty(&self, s: &VsStore) -> (r: Result<bool, VsError>)
        requires
            s.wf(),
            self.wf_in(s),
        ensures
            r matches Ok(b) ==> b == (self.view_in(s).dom().len() == 0),
    {
        self.raw.is_empty(s)
    }

    /// Reads the value stored under `key`: exactly the one whose encoding
    /// the store holds, or an error if the held bytes decode to nothing.
    pub fn get(&self, s: &VsStore, key: &K) -> (r: Result<Option<V>, VsError>)
        requires
            s.wf(),
        ensures
            match r {
                Ok(Some(v)) => self.view_in(s).contains_key(key.kenc_spec()) && v.enc_spec()
                    == self.view_in(s)[key.kenc_spec()],
                Ok(None) => !self.view_in(s).contains_key(key.kenc_spec()),
                Err(_) => true,
            },
    {
        let kb = key.kencode();
        match self.raw.get(s, kb.as_slice()) {
            Ok(Some(bytes)) => match V::decode(bytes.as_slice()) {
                Some(v) => Ok(Some(v)),
                None => Err(VsError::DecodeError),
            },
            Ok(None) => Ok(None),
            Err(e) => Err(e),
        }
    }

    pub fn contains_key(&self, s: &VsStore, key: &K) -> (r: Result<bool, VsError>)
        requires
            s.wf(),
        ensures
            r matches Ok(b) ==> b == self.view_in(s).contains_key(key.kenc_spec()),
    {
        let kb = key.kencode();
        self.raw.contains_key(s, kb.as_slice())
    }

    /// Stores `value` under `key` and hands back the value the key held.
    pub fn insert(&self, s: &mut VsStore, key: &K, value: &V) -> (r: Result<Option<V>, VsError>)
        requires
            old(s).wf(),
            self.wf_in(old(s)),
        ensures
            final(s).wf(),
            r matches Ok(prior) ==> {
                &&& self.wf_in(final(s))
                &&& self.view_in(final(s)) == self.view_in(old(s)).insert(
                    key.kenc_spec(),
                    value.enc_spec(),
                )
                &&& match prior {
                    Some(pv) => self.view_in(old(s)).contains_key(key.kenc_spec())
                        && pv.enc_spec() == self.view_in(old(s))[key.kenc_spec()],
                    None => !self.view_in(old(s)).contains_key(key.kenc_spec()),
                }
            },
    {
        let n = match self.raw.len(s) {
            Ok(n) => n,
            Err(e) => {
                return Err(e);
            },
        };
        if n == u64::MAX {
            return Err(VsError::BackendIo);
        }
        let kb = key.kencode();
        let vb = value.encode();
        match self.raw.insert(s, kb.as_slice(), vb.as_slice()) {
            Ok(Some(pb)) => match V::decode(pb.as_slice()) {
                Some(pv) => Ok(Some(pv)),
                None => Err(VsError::DecodeError),
            },
            Ok(None) => Ok(None),
            Err(e) => Err(e),
        }
    }

    /// Stores `value` under `key` only when the key holds nothing yet.
    pub fn entry_or_insert(&self, s: &mut VsStore, key: &K, value: &V) -> (r: Result<(), VsError>)
        requires
            old(s).wf(),
            self.wf_in(old(s)),
        ensures
            final(s).wf(),
            r matches Ok(u) ==> {
                &&& self.wf_in(final(s))
                &&& self.view_in(final(s)) == (if self.view_in(old(s)).contains_key(
                    key.kenc_spec(),
                ) {
                    self.view_in(old(s))
                } else {
                    self.view_in(old(s)).insert(key.kenc_spec(), value.enc_spec())
                })
            },
    {
        let kb = key.kencode();
        let has = match self.raw.contains_key(s, kb.as_slice()) {
            Ok(b) => b,
            Err(e) => {
                return Err(e);
            },
        };
        if has {
            return Ok(());
        }
        let n = match self.raw.len(s) {
            Ok(n) => n,
            Err(e) => {
                return Err(e);
            },
        };
        if n == u64::MAX {
            return Err(VsError::BackendIo);
        }
        let vb = value.encode();
        match self.raw.insert(s, kb.as_slice(), vb.as_slice()) {
            Ok(_) => Ok(()),
            Err(e) => Err(e),
        }
    }

    /// Deletes `key` and hands back the value it held.
    pub fn remove(&self, s: &mut VsStore, key: &K) -> (r: Result<Option<V>, VsError>)
        requires
            old(s).wf(),
            self.wf_in(old(s)),
        ensures
            final(s).wf(),
            r matches Ok(prior) ==> {
                &&& self.wf_in(final(s))
                &&& self.view_in(final(s)) == self.view_in(old(s)).remove(key.kenc_spec())
                &&& match prior {
                    Some(pv) => self.view_in(old(s)).contains_key(key.kenc_spec())
                        && pv.enc_spec() == self.view_in(old(s))[key.kenc_spec()],
                    None => !self.view_in(old(s)).contains_key(key.kenc_spec()),
                }
            },
    {
        let kb = key.kencode();
        match self.raw.remove(s, kb.as_slice()) {
            Ok(Some(pb)) => match V::decode(pb.as_slice()) {
                Some(pv) => Ok(Some(pv)),
                None => Err(VsError::DecodeError),
            },
            Ok(None) => Ok(None),
            Err(e) => Err(e),
        }
    }

    /// Removes every pair, leaving the map empty.
    pub fn clear(&self, s: &mut VsStore) -> (r: Result<(), VsError>)
        requires
            old(s).wf(),
            self.wf_in(old(s)),
        ensures
            r matches Ok(u) ==> final(s).wf() && self.wf_in(final(s)) && self.view_in(final(s))
                == Map::<Seq<u8>, Seq<u8>>::empty(),
    {
        self.raw.clear(s)
    }

    /// The stored pairs whose keys lie within the bounds, decoded, in
    /// ascending key order.
    pub fn range(&self, s: &VsStore, lo: &KBound<K>, hi: &KBound<K>) -> (r: Result<
        Vec<(K, V)>,
        VsError,
    >)
        requires
            s.wf(),
            self.wf_in(s),
        ensures
            r matches Ok(v) ==> typed_range_post(self.view_in(s), *lo, *hi, v@),
    {
        let rlo = match lo {
            KBound::Incl(k) => KeyBound::Incl(k.kencode()),
            KBound::Excl(k) => KeyBound::Excl(k.kencode()),
            KBound::Unbounded => KeyBound::Unbounded,
        };
        let rhi = match hi {
            KBound::Incl(k) => KeyBound::Incl(k.kencode()),
            KBound::Excl(k) => KeyBound::Excl(k.kencode()),
            KBound::Unbounded => KeyBound::Unbounded,
        };
        proof {
            assert forall|ek: Seq<u8>| #[trigger] key_in_bounds(rlo, rhi, ek) == (kb_lo_ok(lo, ek)
                && kb_hi_ok(hi, ek)) by {}
        }
        let raw_out = match self.raw.range(s, &rlo, &rhi) {
            Ok(v) => v,
            Err(e) => {
                return Err(e);
            },
        };
        let mut out: Vec<(K, V)> = Vec::new();
        let n = raw_out.len();
        let mut i: usize = 0;
        while i < n
            invariant
                0 <= i <= n,
                n == raw_out@.len(),
                out@.len() == i,
                forall|a: int|
                    #![trigger out@[a]]
                    0 <= a < i ==> out@[a].0.kenc_spec() == raw_out@[a].0@ && out@[a].1.enc_spec()
                        == raw_out@[a].1@,
            decreases n - i,
        {
            let kd = match K::kdecode(raw_out[i].0.as_slice()) {
                Some(k) => k,
                None => {
                    return Err(VsError::DecodeError);
                },
            };
            let vd = match V::decode(raw_out[i].1.as_slice()) {
                Some(v) => v,
                None => {
                    return Err(VsError::DecodeError);
                },
            };
            out.push((kd, vd));
            i = i + 1;
        }
        proof {
            assert(range_post(self.view_in(s), rlo, rhi, raw_out@));
            assert forall|ek: Seq<u8>|
                #![trigger self.view_in(s).contains_key(ek)]
                self.view_in(s).contains_key(ek) && kb_lo_ok(lo, ek) && kb_hi_ok(hi, ek)
                    implies exists|a: int| 0 <= a < out@.len() && out@[a].0.kenc_spec() == ek by {
                assert(key_in_bounds(rlo, rhi, ek));
                let a = choose|a: int| 0 <= a < raw_out@.len() && raw_out@[a].0@ == ek;
                assert(out@[a].0.kenc_spec() == ek);
            }
            assert(typed_range_post(self.view_in(s), *lo, *hi, out@));
        }
        Ok(out)
    }

    /// Every stored pair, decoded, in ascending key order.
    pub fn iter(&self, s: &VsStore) -> (r: Result<Vec<(K, V)>, VsError>)
        requires
            s.wf(),
            self.wf_in(s),
        ensures
            r matches Ok(v) ==> typed_range_post(
                self.view_in(s),
                KBound::Unbounded,
                KBound::Unbounded,
                v@,
            ),
    {
        self.range(s, &KBound::Unbounded, &KBound::Unbounded)
    }

    /// The smallest stored pair at or above `key`.
    pub fn get_ge(&self, s: &VsStore, key: &K) -> (r: Result<Option<(K, V)>, VsError>)
        requires
            s.wf(),
            self.wf_in(s),
        ensures
            r matches Ok(o) ==> match o {
                Some(kv) => self.view_in(s).contains_key(kv.0.kenc_spec()) && kv.1.enc_spec()
                    == self.view_in(s)[kv.0.kenc_spec()] && lex_le(key.kenc_spec(), kv.0.kenc_spec())
                    && (forall|ek: Seq<u8>|
                    #[trigger] self.view_in(s).contains_key(ek) && lex_le(key.kenc_spec(), ek)
                        ==> lex_le(kv.0.kenc_spec(), ek)),
                None => forall|ek: Seq<u8>|
                    #[trigger] self.view_in(s).contains_key(ek) ==> !lex_le(key.kenc_spec(), ek),
            },
    {
        let kb = key.kencode();
        match self.raw.get_ge(s, kb.as_slice()) {
            Ok(Some(kv)) => {
                let kd = match K::kdecode(kv.0.as_slice()) {
                    Some(k) => k,
                    None => {
                        return Err(VsError::DecodeError);
                    },
                };
                let vd = match V::decode(kv.1.as_slice()) {
                    Some(v) => v,
                    None => {
                        return Err(VsError::DecodeError);
                    },
                };
                Ok(Some((kd, vd)))
            },
            Ok(None) => Ok(None),
            Err(e) => Err(e),
        }
    }

    /// The largest stored pair at or below `key`.
    pub fn get_le(&self, s: &VsStore, key: &K) -> (r: Result<Option<(K, V)>, VsError>)
        requires
            s.wf(),
            self.wf_in(s),
        ensures
            r matches Ok(o) ==> match o {
                Some(kv) => self.view_in(s).contains_key(kv.0.kenc_spec()) && kv.1.enc_spec()
                    == self.view_in(s)[kv.0.kenc_spec()] && lex_le(kv.0.kenc_spec(), key.kenc_spec())
                    && (forall|ek: Seq<u8>|
                    #[trigger] self.view_in(s).contains_key(ek) && lex_le(ek, key.kenc_spec())
                        ==> lex_le(ek, kv.0.kenc_spec())),
                None => forall|ek: Seq<u8>|
                    #[trigger] self.view_in(s).contains_key(ek) ==> !lex_le(ek, key.kenc_spec()),
            },
    {
        let kb = key.kencode();
        match self.raw.get_le(s, kb.as_slice()) {
            Ok(Some(kv)) => {
                let kd = match K::kdecode(kv.0.as_slice()) {
                    Some(k) => k,
                    None => {
                        return Err(VsError::DecodeError);
                    },
                };
                let vd = match V::decode(kv.1.as_slice()) {
                    Some(v) => v,
                    None => {
                        return Err(VsError::DecodeError);
                    },
                };
                Ok(Some((kd, vd)))
            },
            Ok(None) => Ok(None),
            Err(e) => Err(e),
        }
    }
}

} // verus!
