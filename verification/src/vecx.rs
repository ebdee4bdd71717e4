//! The typed vector: indices encoded as fixed-width big-endian keys, so
//! iteration order over the namespace is index order.

use vstd::prelude::*;
use core::marker::PhantomData;
use crate::ende::{be8, ValueEnDe};
use crate::err::VsError;
use crate::mapx_raw::MapxRaw;
use crate::store::VsStore;

verus! {

/// An append-only indexable sequence of typed values.
pub struct Vecx<T> {
    pub raw: MapxRaw,
    pub _pd: PhantomData<T>,
}

impl<T: ValueEnDe> Vecx<T> {
    pub open spec fn view_in(&self, s: &VsStore) -> Map<Seq<u8>, Seq<u8>> {
        self.raw.view_in(s)
    }

    /// The vector invariant: the stored keys are exactly the indices below
    /// the length.
    pub open spec fn wf_in(&self, s: &VsStore) -> bool {
        &&& self.raw.wf_in(s)
        &&& forall|i: u64|
            i < self.view_in(s).dom().len() ==> #[trigger] self.view_in(s).contains_key(be8(i))
        &&& forall|bk: Seq<u8>|
            #[trigger] self.view_in(s).contains_key(bk) ==> exists|i: u64|
                i < self.view_in(s).dom().len() && bk == be8(i)
    }

    /// Creates a fresh, empty vector.
    pub fn new(s: &mut VsStore) -> (r: Result<Vecx<T>, VsError>)
        requires
            old(s).wf(),
        ensures
            r matches Ok(v) ==> final(s).wf() && v.wf_in(final(s)) && v.view_in(final(s)) == Map::<
                Seq<u8>,
                Seq<u8>,
            >::empty(),
    {
        match MapxRaw::new(s) {
            Ok(raw) => Ok(Vecx { raw, _pd: PhantomData }),
            Err(e) => Err(e),
        }
    }

    /// How many values the vector holds.
    pub fn len(&self, s: &VsStore) -> (r: Result<u64, VsError>)
        requires
            s.wf(),
            self.wf_in(s),
        ensures
            r matches Ok(n) ==> n == self.view_in(s).dom().len(),
    {
        self.raw.len(s)
    }

    /// Appends a value at the next index.
    pub fn push(&self, s: &mut VsStore, v: &T) -> (r: Result<u64, VsError>)
        requires
            old(s).wf(),
            self.wf_in(old(s)),
        ensures
            final(s).wf(),
            r matches Ok(i) ==> {
                &&& self.wf_in(final(s))
                &&& i == self.view_in(old(s)).dom().len()
                &&& self.view_in(final(s)) == self.view_in(old(s)).insert(be8(i), v.enc_spec())
            },
    {
        let n = match self.raw.len(s) {
            Ok(n) => n,
            Err(e) => {
                return Err(e);
            },
        };
        if n == u64::MAX {
            return Err(VsError::BackendIo);
        }
        let key = crate::ende::u64_to_be_vec(n);
        let vb = v.encode();
        proof {
            assert(!self.view_in(s).contains_key(be8(n))) by {
                if self.view_in(s).contains_key(be8(n)) {
                    let i = choose|i: u64|
                        i < self.view_in(s).dom().len() && be8(n) == be8(i);
                    crate::ende::lemma_be8_injective(n, i);
                }
            }
        }
        match self.raw.insert(s, key.as_slice(), vb.as_slice()) {
            Ok(_) => {
                proof {
                    assert forall|i: u64| i < self.view_in(s).dom().len() implies #[trigger] self
                        .view_in(s).contains_key(be8(i)) by {
                        if i < n {
                            assert(self.view_in(old(s)).contains_key(be8(i)));
                        }
                    }
                    assert forall|bk: Seq<u8>| #[trigger] self.view_in(s).contains_key(bk)
                        implies exists|i: u64|
                        i < self.view_in(s).dom().len() && bk == be8(i) by {
                        if bk != be8(n) {
                            assert(self.view_in(old(s)).contains_key(bk));
                            let i = choose|i: u64|
                                i < self.view_in(old(s)).dom().len() && bk == be8(i);
                            assert(i < self.view_in(s).dom().len() && bk == be8(i));
                        } else {
                            assert(n < self.view_in(s).dom().len() && bk == be8(n));
                        }
                    }
                }
                Ok(n)
            },
            Err(e) => Err(e),
        }
    }

    /// Reads the value at index `i`.
    pub fn get_at(&self, s: &VsStore, i: u64) -> (r: Result<Option<T>, VsError>)
        requires
            s.wf(),
            self.wf_in(s),
        ensures
            match r {
                Ok(Some(v)) => i < self.view_in(s).dom().len() && v.enc_spec() == self.view_in(
                    s,
                )[be8(i)],
                Ok(None) => i >= self.view_in(s).dom().len(),
                Err(_) => true,
            },
    {
        let key = crate::ende::u64_to_be_vec(i);
        match self.raw.get(s, key.as_slice()) {
            Ok(Some(bytes)) => {
                proof {
                    let j = choose|j: u64|
                        j < self.view_in(s).dom().len() && be8(i) == be8(j);
                    crate::ende::lemma_be8_injective(i, j);
                }
                match T::decode(bytes.as_slice()) {
                    Some(v) => Ok(Some(v)),
                    None => Err(VsError::DecodeError),
                }
            },
            Ok(None) => {
                proof {
                    if i < self.view_in(s).dom().len() {
                        assert(self.view_in(s).contains_key(be8(i)));
                    }
                }
                Ok(None)
            },
            Err(e) => Err(e),
        }
    }
}

} // verus!
