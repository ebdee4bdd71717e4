//! A small demonstration record: an index and a list of numbers, encoded
//! as fixed-width big-endian fields with a length prefix, so it can live as
//! a value in any collection of the library.

use vstd::prelude::*;
use crate::ende::{be8, from_be8, u64_to_be_vec, u64_from_be_slice, ValueEnDe, lemma_be8_round_trip};
use crate::store::lemma_be8_bytes_of_len8;

verus! {

#[derive(Clone, Debug, PartialEq, Eq)]
pub struct SampleBlock {
    pub idx: usize,
    pub data: Vec<usize>,
}

/// A sample record for index `idx`: its own index, and a list holding just
/// that index.
pub fn gen_sample(idx: usize) -> (r: SampleBlock)
    ensures
        r.idx == idx,
        r.data@ == seq![idx],
{
    let r = SampleBlock { idx, data: vec![idx] };
    proof {
        assert(r.data@ =~= seq![idx]);
    }
    r
}

/// The byte image of a list of numbers, 8 bytes each.
pub open spec fn enc_list(s: Seq<usize>) -> Seq<u8>
    decreases s.len(),
{
    if s.len() == 0 {
        Seq::empty()
    } else {
        be8(s[0] as u64) + enc_list(s.drop_first())
    }
}

/// The list read back from `n` fixed-width fields, when they cover the
/// bytes exactly.
pub open spec fn dec_list(b: Seq<u8>, n: nat) -> Option<Seq<usize>>
    decreases n,
{
    if n == 0 {
        if b.len() == 0 {
            Some(Seq::empty())
        } else {
            None
        }
    } else if b.len() < 8 {
        None
    } else if from_be8(b.take(8)) > usize::MAX {
        None
    } else {
        match dec_list(b.skip(8), (n - 1) as nat) {
            Some(rest) => Some(seq![from_be8(b.take(8)) as usize] + rest),
            None => None,
        }
    }
}

/// Reading an encoded list back yields the list.
proof fn lemma_list_round_trip(s: Seq<usize>)
    ensures
        dec_list(enc_list(s), s.len()) == Some(s),
    decreases s.len(),
{
    if s.len() == 0 {
        assert(enc_list(s).len() == 0);
        assert(s =~= Seq::<usize>::empty());
    } else {
        let b = enc_list(s);
        assert(b == be8(s[0] as u64) + enc_list(s.drop_first()));
        assert(b.take(8) =~= be8(s[0] as u64));
        assert(b.skip(8) =~= enc_list(s.drop_first()));
        lemma_be8_round_trip(s[0] as u64);
        lemma_list_round_trip(s.drop_first());
        assert(seq![from_be8(b.take(8)) as usize] + s.drop_first() =~= s);
    }
}

/// A successful read re-encodes to exactly the bytes it read.
proof fn lemma_dec_list_enc(b: Seq<u8>, n: nat, s: Seq<usize>)
    requires
        dec_list(b, n) == Some(s),
    ensures
        enc_list(s) == b,
        s.len() == n,
    decreases n,
{
    if n == 0 {
        assert(b.len() == 0);
        assert(enc_list(s) =~= b);
    } else {
        let rest = dec_list(b.skip(8), (n - 1) as nat).unwrap();
        lemma_dec_list_enc(b.skip(8), (n - 1) as nat, rest);
        assert(s == seq![from_be8(b.take(8)) as usize] + rest);
        assert(s[0] == from_be8(b.take(8)) as usize);
        assert(s.drop_first() =~= rest);
        lemma_be8_bytes_of_len8(b.take(8));
        assert(s[0] as u64 == from_be8(b.take(8))) by {
            assert(from_be8(b.take(8)) <= usize::MAX);
        }
        assert(enc_list(s) == be8(s[0] as u64) + enc_list(rest));
        assert(be8(s[0] as u64) + b.skip(8) =~= b);
    }
}

impl ValueEnDe for SampleBlock {
    open spec fn enc_spec(&self) -> Seq<u8> {
        be8(self.idx as u64) + be8(self.data@.len() as u64) + enc_list(self.data@)
    }

    fn encode(&self) -> (r: Vec<u8>) {
        let mut r = u64_to_be_vec(self.idx as u64);
        let lb = u64_to_be_vec(self.data.len() as u64);
        let mut i: usize = 0;
        while i < lb.len()
            invariant
                0 <= i <= lb@.len(),
                r@ =~= be8(self.idx as u64) + lb@.subrange(0, i as int),
                lb@ == be8(self.data@.len() as u64),
            decreases lb@.len() - i,
        {
            r.push(lb[i]);
            i = i + 1;
        }
        let ghost head = be8(self.idx as u64) + be8(self.data@.len() as u64);
        proof {
            assert(r@ =~= head);
        }
        let mut j: usize = 0;
        while j < self.data.len()
            invariant
                0 <= j <= self.data@.len(),
                r@ =~= head + enc_list(self.data@.take(j as int)),
                head == be8(self.idx as u64) + be8(self.data@.len() as u64),
            decreases self.data@.len() - j,
        {
            let eb = u64_to_be_vec(self.data[j] as u64);
            let mut k: usize = 0;
            while k < eb.len()
                invariant
                    0 <= k <= eb@.len(),
                    r@ =~= head + enc_list(self.data@.take(j as int)) + eb@.subrange(0, k as int),
                    eb@ == be8(self.data@[j as int] as u64),
                    0 <= j < self.data@.len(),
                    head == be8(self.idx as u64) + be8(self.data@.len() as u64),
                decreases eb@.len() - k,
            {
                r.push(eb[k]);
                k = k + 1;
            }
            proof {
                lemma_enc_list_snoc(self.data@, j as int);
                assert(r@ =~= head + enc_list(self.data@.take(j + 1)));
            }
            j = j + 1;
        }
        proof {
            assert(self.data@.take(self.data@.len() as int) =~= self.data@);
            assert(r@ =~= self.enc_spec());
        }
        r
    }

    fn decode(b: &[u8]) -> (r: Option<SampleBlock>) {
        if b.len() < 16 {
            proof {
                assert forall|v: SampleBlock| (#[trigger] v.enc_spec()) != b@ by {
                    lemma_split3(
                        be8(v.idx as u64),
                        be8(v.data@.len() as u64),
                        enc_list(v.data@),
                    );
                    assert(v.enc_spec().len() >= 16);
                }
            }
            return None;
        }
        let idx64 = u64_from_be_slice(vstd::slice::slice_subrange(b, 0, 8));
        proof {
            assert(b@.subrange(0, 8) =~= b@.take(8));
        }
        if idx64 > usize::MAX as u64 {
            proof {
                assert forall|v: SampleBlock| (#[trigger] v.enc_spec()) != b@ by {
                    if v.enc_spec() == b@ {
                        lemma_split3(
                            be8(v.idx as u64),
                            be8(v.data@.len() as u64),
                            enc_list(v.data@),
                        );
                        assert(b@.take(8) == be8(v.idx as u64));
                        lemma_be8_round_trip(v.idx as u64);
                    }
                }
            }
            return None;
        }
        let n64 = u64_from_be_slice(vstd::slice::slice_subrange(b, 8, 16));
        let body = vstd::slice::slice_subrange(b, 16, b.len());
        proof {
            assert(b@.subrange(8, 16) =~= b@.subrange(8, 16));
            assert(b@.subrange(16, b@.len() as int) =~= b@.skip(16));
        }
        match dec_list_exec(body, n64) {
            Some(data) => {
                let v = SampleBlock { idx: idx64 as usize, data };
                proof {
                    lemma_dec_list_enc(b@.skip(16), n64 as nat, v.data@);
                    lemma_be8_bytes_of_len8(b@.take(8));
                    lemma_be8_bytes_of_len8(b@.subrange(8, 16));
                    assert(be8(v.idx as u64) =~= b@.take(8));
                    assert(be8(v.data@.len() as u64) =~= b@.subrange(8, 16));
                    assert(v.enc_spec() =~= b@);
                }
                Some(v)
            },
            None => {
                proof {
                    assert(b@.len() <= usize::MAX);
                    assert forall|v: SampleBlock| (#[trigger] v.enc_spec()) != b@ by {
                        if v.enc_spec() == b@ {
                            lemma_split3(
                                be8(v.idx as u64),
                                be8(v.data@.len() as u64),
                                enc_list(v.data@),
                            );
                            lemma_enc_list_len(v.data@);
                            assert(b@.len() == 16 + 8 * v.data@.len());
                            assert(v.data@.len() <= usize::MAX);
                            assert(b@.subrange(8, 16) == be8(v.data@.len() as u64));
                            assert(b@.skip(16) == enc_list(v.data@));
                            lemma_be8_round_trip(v.data@.len() as u64);
                            assert(n64 == v.data@.len() as u64);
                            lemma_list_round_trip(v.data@);
                            assert(dec_list(b@.skip(16), n64 as nat) == Some(v.data@));
                        }
                    }
                }
                None
            },
        }
    }
}

/// An encoded list takes 8 bytes per element.
proof fn lemma_enc_list_len(s: Seq<usize>)
    ensures
        enc_list(s).len() == 8 * s.len(),
    decreases s.len(),
{
    if s.len() > 0 {
        lemma_enc_list_len(s.drop_first());
    }
}

/// Splitting two fixed 8-byte fields off the front of a concatenation.
proof fn lemma_split3(a: Seq<u8>, m: Seq<u8>, c: Seq<u8>)
    requires
        a.len() == 8,
        m.len() == 8,
    ensures
        (a + m + c).take(8) == a,
        (a + m + c).subrange(8, 16) == m,
        (a + m + c).skip(16) == c,
        (a + m + c).len() == 16 + c.len(),
{
    assert((a + m + c).take(8) =~= a);
    assert((a + m + c).subrange(8, 16) =~= m);
    assert((a + m + c).skip(16) =~= c);
}

/// Appending one more field to an encoded prefix of the list.
proof fn lemma_enc_list_snoc(s: Seq<usize>, j: int)
    requires
        0 <= j < s.len(),
    ensures
        enc_list(s.take(j + 1)) == enc_list(s.take(j)) + be8(s[j] as u64),
    decreases j,
{
    if j == 0 {
        assert(s.take(1) =~= seq![s[0]]);
        assert(enc_list(seq![s[0]]).len() == 8 + enc_list(seq![s[0]].drop_first()).len());
        assert(seq![s[0]].drop_first() =~= Seq::<usize>::empty());
        assert(enc_list(s.take(0)) =~= Seq::<u8>::empty());
        assert(enc_list(s.take(1)) =~= enc_list(s.take(0)) + be8(s[0] as u64));
    } else {
        let t = s.drop_first();
        lemma_enc_list_snoc(t, j - 1);
        assert(s.take(j + 1).drop_first() =~= t.take(j));
        assert(s.take(j).drop_first() =~= t.take(j - 1));
        assert(s.take(j + 1)[0] == s[0] && s.take(j)[0] == s[0]);
        assert(enc_list(s.take(j + 1)) == be8(s[0] as u64) + enc_list(t.take(j)));
        assert(enc_list(s.take(j)) == be8(s[0] as u64) + enc_list(t.take(j - 1)));
        assert(t[j - 1] == s[j]);
        assert(be8(s[0] as u64) + (enc_list(t.take(j - 1)) + be8(s[j] as u64)) =~= (be8(
            s[0] as u64,
        ) + enc_list(t.take(j - 1))) + be8(s[j] as u64));
    }
}

/// Reads `n` fixed-width fields covering the whole slice, or nothing.
fn dec_list_exec(b: &[u8], n: u64) -> (r: Option<Vec<usize>>)
    ensures
        match r {
            Some(v) => dec_list(b@, n as nat) == Some(v@),
            None => dec_list(b@, n as nat) is None,
        },
    decreases n,
{
    if n == 0 {
        if b.len() == 0 {
            let v: Vec<usize> = Vec::new();
            proof {
                assert(v@ =~= Seq::<usize>::empty());
            }
            Some(v)
        } else {
            None
        }
    } else if b.len() < 8 {
        None
    } else {
        let x = u64_from_be_slice(vstd::slice::slice_subrange(b, 0, 8));
        proof {
            assert(b@.subrange(0, 8) =~= b@.take(8));
        }
        if x > usize::MAX as u64 {
            return None;
        }
        let rest = vstd::slice::slice_subrange(b, 8, b.len());
        proof {
            assert(b@.subrange(8, b@.len() as int) =~= b@.skip(8));
        }
        match dec_list_exec(rest, n - 1) {
            Some(tail) => {
                let mut v: Vec<usize> = Vec::new();
                v.push(x as usize);
                let mut i: usize = 0;
                while i < tail.len()
                    invariant
                        0 <= i <= tail@.len(),
                        v@ =~= seq![x as usize] + tail@.subrange(0, i as int),
                    decreases tail@.len() - i,
                {
                    v.push(tail[i]);
                    i = i + 1;
                }
                proof {
                    assert(v@ =~= seq![x as usize] + tail@);
                }
                Some(v)
            },
            None => None,
        }
    }
}

} // verus!
