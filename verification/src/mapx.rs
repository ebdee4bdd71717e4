//! The unordered typed map: the same storage primitive as the ordered map,
//! but its key codec need only be reversible, so no ordered-range surface
//! is offered.

use vstd::prelude::*;
use core::marker::PhantomData;
use crate::ende::ValueEnDe;
use crate::err::VsError;
use crate::mapx_raw::MapxRaw;
use crate::store::VsStore;

verus! {

/// A typed map over reversible key and value codecs; identity is the
/// namespace prefix.
pub struct Mapx<K, V> {
    pub raw: MapxRaw,
    pub _pd: PhantomData<(K, V)>,
}

impl<K: ValueEnDe, V: ValueEnDe> Mapx<K, V> {
    /// The stored bytes: encoded key to encoded value.
    pub open spec fn view_in(&self, s: &VsStore) -> Map<Seq<u8>, Seq<u8>> {
        self.raw.view_in(s)
    }

    pub open spec fn wf_in(&self, s: &VsStore) -> bool {
        self.raw.wf_in(s)
    }

    /// Creates a fresh, empty map under a newly allocated prefix.
    pub fn new(s: &mut VsStore) -> (r: Result<Mapx<K, V>, VsError>)
        requires
            old(s).wf(),
        ensures
            r matches Ok(m) ==> final(s).wf() && m.wf_in(final(s)) && m.view_in(final(s)) == Map::<
                Seq<u8>,
                Seq<u8>,
            >::empty(),
    {
        match MapxRaw::new(s) {
            Ok(raw) => Ok(Mapx { raw, _pd: PhantomData }),
            Err(e) => Err(e),
        }
    }

    /// The serialised form of the handle: the prefix's 8 bytes.
    pub fn to_bytes(&self) -> (r: Vec<u8>)
        ensures
            r@ == crate::ende::be8(self.raw.prefix),
    {
        self.raw.to_bytes()
    }

    /// Rebuilds a handle from its serialised bytes.
    pub fn from_bytes(b: &[u8]) -> (r: Option<Mapx<K, V>>)
        ensures
            match r {
                Some(m) => b@.len() == 8 && m.raw.prefix == crate::ende::from_be8(b@),
                None => b@.len() != 8,
            },
    {
        match MapxRaw::from_bytes(b) {
            Some(raw) => Some(Mapx { raw, _pd: PhantomData }),
            None => None,
        }
    }

    /// How many pairs the map holds.
    pub fn len(&self, s: &VsStore) -> (r: Result<u64, VsError>)
        requires
            s.wf(),
            self.wf_in(s),
        ensures
            r matches Ok(n) ==> n == self.view_in(s).dom().len(),
    {
        self.raw.len(s)
    }

    pub fn is_empty(&self, s: &VsStore) -> (r: Result<bool, VsError>)
        requires
            s.wf(),
            self.wf_in(s),
        ensures
            r matches Ok(b) ==> b == (self.view_in(s).dom().len() == 0),
    {
        self.raw.is_empty(s)
    }

    /// Reads the value stored under `key`.
    pub fn get(&self, s: &VsStore, key: &K) -> (r: Result<Option<V>, VsError>)
        requires
            s.wf(),
        ensures
            match r {
                Ok(Some(v)) => self.view_in(s).contains_key(key.enc_spec()) && v.enc_spec()
                    == self.view_in(s)[key.enc_spec()],
                Ok(None) => !self.view_in(s).contains_key(key.enc_spec()),
                Err(_) => true,
            },
    {
        let kb = key.encode();
        match self.raw.get(s, kb.as_slice()) {
            Ok(Some(bytes)) => match V::decode(bytes.as_slice()) {
                Some(v) => Ok(Some(v)),
                None => Err(VsError::DecodeError),
            },
            Ok(None) => Ok(None),
            Err(e) => Err(e),
        }
    }

    pub fn contains_key(&self, s: &VsStore, key: &K) -> (r: Result<bool, VsError>)
        requires
            s.wf(),
        ensures
            r matches Ok(b) ==> b == self.view_in(s).contains_key(key.enc_spec()),
    {
        let kb = key.encode();
        self.raw.contains_key(s, kb.as_slice())
    }

    /// Stores `value` under `key` and hands back the value the key held.
    pub fn insert(&self, s: &mut VsStore, key: &K, value: &V) -> (r: Result<Option<V>, VsError>)
        requires
            old(s).wf(),
            self.wf_in(old(s)),
        ensures
            final(s).wf(),
            r matches Ok(prior) ==> {
                &&& self.wf_in(final(s))
                &&& self.view_in(final(s)) == self.view_in(old(s)).insert(
                    key.enc_spec(),
                    value.enc_spec(),
                )
                &&& match prior {
                    Some(pv) => self.view_in(old(s)).contains_key(key.enc_spec())
                        && pv.enc_spec() == self.view_in(old(s))[key.enc_spec()],
                    None => !self.view_in(old(s)).contains_key(key.enc_spec()),
                }
            },
    {
        let n = match self.raw.len(s) {
            Ok(n) => n,
            Err(e) => {
                return Err(e);
            },
        };
        if n == u64::MAX {
            return Err(VsError::BackendIo);
        }
        let kb = key.encode();
        let vb = value.encode();
        match self.raw.insert(s, kb.as_slice(), vb.as_slice()) {
            Ok(Some(pb)) => match V::decode(pb.as_slice()) {
                Some(pv) => Ok(Some(pv)),
                None => Err(VsError::DecodeError),
            },
            Ok(None) => Ok(None),
            Err(e) => Err(e),
        }
    }

    /// Deletes `key` and hands back the value it held.
    pub fn remove(&self, s: &mut VsStore, key: &K) -> (r: Result<Option<V>, VsError>)
        requires
            old(s).wf(),
            self.wf_in(old(s)),
        ensures
            final(s).wf(),
            r matches Ok(prior) ==> {
                &&& self.wf_in(final(s))
                &&& self.view_in(final(s)) == self.view_in(old(s)).remove(key.enc_spec())
                &&& match prior {
                    Some(pv) => self.view_in(old(s)).contains_key(key.enc_spec())
                        && pv.enc_spec() == self.view_in(old(s))[key.enc_spec()],
                    None => !self.view_in(old(s)).contains_key(key.enc_spec()),
                }
            },
    {
        let kb = key.encode();
        match self.raw.remove(s, kb.as_slice()) {
            Ok(Some(pb)) => match V::decode(pb.as_slice()) {
                Some(pv) => Ok(Some(pv)),
                None => Err(VsError::DecodeError),
            },
            Ok(None) => Ok(None),
            Err(e) => Err(e),
        }
    }

    /// Removes every pair, leaving the map empty.
    pub fn clear(&self, s: &mut VsStore) -> (r: Result<(), VsError>)
        requires
            old(s).wf(),
            self.wf_in(old(s)),
        ensures
            r matches Ok(u) ==> final(s).wf() && self.wf_in(final(s)) && self.view_in(final(s))
                == Map::<Seq<u8>, Seq<u8>>::empty(),
    {
        self.raw.clear(s)
    }
}

} // verus!
