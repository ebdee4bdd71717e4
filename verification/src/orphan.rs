//! The scalar cell: a single typed value in a namespace of its own — the
//! degenerate ordered map whose one key is the empty byte string.

use vstd::prelude::*;
use core::marker::PhantomData;
use crate::ende::ValueEnDe;
use crate::err::VsError;
use crate::mapx_raw::MapxRaw;
use crate::store::VsStore;

verus! {

/// A single typed cell, identified by its namespace prefix.
pub struct Orphan<T> {
    pub raw: MapxRaw,
    pub _pd: PhantomData<T>,
}

impl<T: ValueEnDe> Orphan<T> {
    /// The cell's key inside its namespace.
    pub open spec fn cell_key() -> Seq<u8> {
        Seq::empty()
    }

    pub open spec fn view_in(&self, s: &VsStore) -> Map<Seq<u8>, Seq<u8>> {
        self.raw.view_in(s)
    }

    pub open spec fn wf_in(&self, s: &VsStore) -> bool {
        self.raw.wf_in(s)
    }

    /// Creates a fresh, unset cell.
    pub fn new(s: &mut VsStore) -> (r: Result<Orphan<T>, VsError>)
        requires
            old(s).wf(),
        ensures
            r matches Ok(c) ==> final(s).wf() && c.wf_in(final(s)) && c.view_in(final(s)) == Map::<
                Seq<u8>,
                Seq<u8>,
            >::empty(),
    {
        match MapxRaw::new(s) {
            Ok(raw) => Ok(Orphan { raw, _pd: PhantomData }),
            Err(e) => Err(e),
        }
    }

    /// Reads the held value, if one was ever set.
    pub fn get_value(&self, s: &VsStore) -> (r: Result<Option<T>, VsError>)
        requires
            s.wf(),
        ensures
            match r {
                Ok(Some(v)) => self.view_in(s).contains_key(Self::cell_key()) && v.enc_spec()
                    == self.view_in(s)[Self::cell_key()],
                Ok(None) => !self.view_in(s).contains_key(Self::cell_key()),
                Err(_) => true,
            },
    {
        let key: Vec<u8> = Vec::new();
        proof {
            assert(key@ =~= Self::cell_key());
        }
        match self.raw.get(s, key.as_slice()) {
            Ok(Some(bytes)) => match T::decode(bytes.as_slice()) {
                Some(v) => Ok(Some(v)),
                None => Err(VsError::DecodeError),
            },
            Ok(None) => Ok(None),
            Err(e) => Err(e),
        }
    }

    /// Replaces the held value.
    pub fn set_value(&self, s: &mut VsStore, v: &T) -> (r: Result<(), VsError>)
        requires
            old(s).wf(),
            self.wf_in(old(s)),
        ensures
            final(s).wf(),
            r matches Ok(u) ==> self.wf_in(final(s)) && self.view_in(final(s)) == self.view_in(
                old(s),
            ).insert(Self::cell_key(), v.enc_spec()),
    {
        let n = match self.raw.len(s) {
            Ok(n) => n,
            Err(e) => {
                return Err(e);
            },
        };
        if n == u64::MAX {
            return Err(VsError::BackendIo);
        }
        let key: Vec<u8> = Vec::new();
        proof {
            assert(key@ =~= Self::cell_key());
        }
        let vb = v.encode();
        match self.raw.insert(s, key.as_slice(), vb.as_slice()) {
            Ok(_) => Ok(()),
            Err(e) => Err(e),
        }
    }
}

} // verus!
