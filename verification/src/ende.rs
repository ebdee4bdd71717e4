//! Byte-level encoding and ordering: the lexicographic order on byte strings
//! that the backend sorts by, the fixed-width big-endian encoding of 64-bit
//! integers that namespace prefixes and version ids are stored under, and the
//! proofs that this encoding is reversible, injective and order-preserving.

use vstd::prelude::*;

verus! {

/// Strict lexicographic order on byte strings: the order in which the
/// backend keeps its keys. A proper prefix sorts before its extensions.
pub open spec fn lex_lt(a: Seq<u8>, b: Seq<u8>) -> bool
    decreases a.len(),
{
    if b.len() == 0 {
        false
    } else if a.len() == 0 {
        true
    } else if a[0] < b[0] {
        true
    } else if a[0] > b[0] {
        false
    } else {
        lex_lt(a.drop_first(), b.drop_first())
    }
}

pub open spec fn lex_le(a: Seq<u8>, b: Seq<u8>) -> bool {
    a == b || lex_lt(a, b)
}

/// The 8-byte big-endian image of a 64-bit integer.
pub open spec fn be8(x: u64) -> Seq<u8> {
    seq![
        (x >> 56) as u8,
        (x >> 48) as u8,
        (x >> 40) as u8,
        (x >> 32) as u8,
        (x >> 24) as u8,
        (x >> 16) as u8,
        (x >> 8) as u8,
        x as u8,
    ]
}

/// The integer read back from an 8-byte big-endian string.
pub open spec fn from_be8(s: Seq<u8>) -> u64
    recommends
        s.len() == 8,
{
    ((s[0] as u64) << 56) | ((s[1] as u64) << 48) | ((s[2] as u64) << 40) | ((s[3] as u64) << 32)
        | ((s[4] as u64) << 24) | ((s[5] as u64) << 16) | ((s[6] as u64) << 8) | (s[7] as u64)
}

pub proof fn lemma_be8_round_trip(x: u64)
    ensures
        from_be8(be8(x)) == x,
{
    assert(((((x >> 56) as u8) as u64) << 56) | ((((x >> 48) as u8) as u64) << 48)
        | ((((x >> 40) as u8) as u64) << 40) | ((((x >> 32) as u8) as u64) << 32)
        | ((((x >> 24) as u8) as u64) << 24) | ((((x >> 16) as u8) as u64) << 16)
        | ((((x >> 8) as u8) as u64) << 8) | ((x as u8) as u64) == x) by (bit_vector);
}

pub proof fn lemma_be8_injective(x: u64, y: u64)
    requires
        be8(x) == be8(y),
    ensures
        x == y,
{
    lemma_be8_round_trip(x);
    lemma_be8_round_trip(y);
}

/// The big-endian image determines the integer, for every pair at once.
pub proof fn lemma_be8_injective_auto()
    ensures
        forall|x: u64, y: u64| #![trigger be8(x), be8(y)] be8(x) == be8(y) ==> x == y,
{
    assert forall|x: u64, y: u64| #![trigger be8(x), be8(y)] be8(x) == be8(y) implies x == y by {
        lemma_be8_injective(x, y);
    }
}

/// While the first `i` bytes agree, the order is decided by the rests.
proof fn lemma_lex_skip_eq(a: Seq<u8>, b: Seq<u8>, i: int)
    requires
        0 <= i <= a.len(),
        i <= b.len(),
        forall|j: int| 0 <= j < i ==> a[j] == b[j],
    ensures
        lex_lt(a, b) <==> lex_lt(a.skip(i), b.skip(i)),
    decreases i,
{
    if i == 0 {
        assert(a.skip(0) =~= a);
        assert(b.skip(0) =~= b);
    } else {
        lemma_lex_step(a, b);
        assert(a.drop_first() =~= a.skip(1));
        assert(b.drop_first() =~= b.skip(1));
        lemma_lex_skip_eq(a.skip(1), b.skip(1), i - 1);
        assert(a.skip(1).skip(i - 1) =~= a.skip(i));
        assert(b.skip(1).skip(i - 1) =~= b.skip(i));
    }
}

/// When byte `i` is the first disagreement, it decides the order.
proof fn lemma_lex_decided_at(a: Seq<u8>, b: Seq<u8>, i: int)
    requires
        0 <= i < a.len(),
        i < b.len(),
        forall|j: int| 0 <= j < i ==> a[j] == b[j],
        a[i] != b[i],
    ensures
        lex_lt(a, b) <==> a[i] < b[i],
{
    lemma_lex_skip_eq(a, b, i);
    lemma_lex_step(a.skip(i), b.skip(i));
}

/// Big-endian encoding embeds the numeric order into the lexicographic order.
pub proof fn lemma_be8_order(x: u64, y: u64)
    ensures
        x < y <==> lex_lt(be8(x), be8(y)),
{
    let a = be8(x);
    let b = be8(y);
    if a == b {
        lemma_be8_injective(x, y);
        lemma_lex_asymmetric_self(a);
    } else if a[0] != b[0] {
        lemma_lex_decided_at(a, b, 0);
        assert(((x >> 56) as u8) != ((y >> 56) as u8) ==> (x < y <==> ((x >> 56) as u8) < ((y >> 56) as u8))) by (bit_vector);
    } else if a[1] != b[1] {
        lemma_lex_decided_at(a, b, 1);
        assert(((x >> 56) as u8) == ((y >> 56) as u8) && ((x >> 48) as u8) != ((y >> 48) as u8) ==> (x < y
            <==> ((x >> 48) as u8) < ((y >> 48) as u8))) by (bit_vector);
    } else if a[2] != b[2] {
        lemma_lex_decided_at(a, b, 2);
        assert(((x >> 56) as u8) == ((y >> 56) as u8) && ((x >> 48) as u8) == ((y >> 48) as u8) && ((x >> 40) as u8) != ((y >> 40) as u8) ==> (x < y <==> ((x >> 40) as u8) < ((y >> 40) as u8))) by (bit_vector);
    } else if a[3] != b[3] {
        lemma_lex_decided_at(a, b, 3);
        assert(((x >> 56) as u8) == ((y >> 56) as u8) && ((x >> 48) as u8) == ((y >> 48) as u8) && ((x >> 40) as u8) == ((y >> 40) as u8) && ((x >> 32) as u8) != ((y >> 32) as u8) ==> (x < y <==> ((x >> 32) as u8) < ((y >> 32) as u8))) by (bit_vector);
    } else if a[4] != b[4] {
        lemma_lex_decided_at(a, b, 4);
        assert(((x >> 56) as u8) == ((y >> 56) as u8) && ((x >> 48) as u8) == ((y >> 48) as u8) && ((x >> 40) as u8) == ((y >> 40) as u8) && ((x >> 32) as u8) == ((y >> 32) as u8) && ((x >> 24) as u8) != ((y >> 24) as u8) ==> (x < y <==> ((x >> 24) as u8) < ((y >> 24) as u8))) by (bit_vector);
    } else if a[5] != b[5] {
        lemma_lex_decided_at(a, b, 5);
        assert(((x >> 56) as u8) == ((y >> 56) as u8) && ((x >> 48) as u8) == ((y >> 48) as u8) && ((x >> 40) as u8) == ((y >> 40) as u8) && ((x >> 32) as u8) == ((y >> 32) as u8) && ((x >> 24) as u8) == ((y >> 24) as u8) && ((x >> 16) as u8) != ((y >> 16) as u8) ==> (x < y <==> ((x >> 16) as u8) < ((y >> 16) as u8))) by (bit_vector);
    } else if a[6] != b[6] {
        lemma_lex_decided_at(a, b, 6);
        assert(((x >> 56) as u8) == ((y >> 56) as u8) && ((x >> 48) as u8) == ((y >> 48) as u8) && ((x >> 40) as u8) == ((y >> 40) as u8) && ((x >> 32) as u8) == ((y >> 32) as u8) && ((x >> 24) as u8) == ((y >> 24) as u8) && ((x >> 16) as u8) == ((y >> 16) as u8) && ((x >> 8) as u8) != ((y >> 8) as u8) ==> (x < y <==> ((x >> 8) as u8) < ((y >> 8) as u8))) by (bit_vector);
    } else {
        assert(a[7] != b[7]) by {
            if a[7] == b[7] {
                assert(a =~= b);
            }
        }
        lemma_lex_decided_at(a, b, 7);
        assert(((x >> 56) as u8) == ((y >> 56) as u8) && ((x >> 48) as u8) == ((y >> 48) as u8) && ((x >> 40) as u8) == ((y >> 40) as u8) && ((x >> 32) as u8) == ((y >> 32) as u8) && ((x >> 24) as u8) == ((y >> 24) as u8) && ((x >> 16) as u8) == ((y >> 16) as u8) && ((x >> 8) as u8) == ((y >> 8) as u8) && (x as u8) != (y as u8) ==> (x < y <==> (x as u8)
            < (y as u8))) by (bit_vector);
    }
}

/// A string never sorts strictly below itself.
pub proof fn lemma_lex_asymmetric_self(a: Seq<u8>)
    ensures
        !lex_lt(a, a),
    decreases a.len(),
{
    if a.len() > 0 {
        lemma_lex_asymmetric_self(a.drop_first());
    }
}

/// One unfolding step of `lex_lt` on nonempty strings.
proof fn lemma_lex_step(a: Seq<u8>, b: Seq<u8>)
    requires
        a.len() >= 1,
        b.len() >= 1,
    ensures
        lex_lt(a, b) <==> (a[0] < b[0] || (a[0] == b[0] && lex_lt(a.drop_first(),
            b.drop_first()))),
{
}

/// Prepending a common string preserves the order.
pub proof fn lemma_lex_concat_same_prefix(p: Seq<u8>, s: Seq<u8>, t: Seq<u8>)
    ensures
        lex_lt(p + s, p + t) <==> lex_lt(s, t),
    decreases p.len(),
{
    if p.len() == 0 {
        assert(p + s =~= s);
        assert(p + t =~= t);
    } else {
        let ps = p + s;
        let pt = p + t;
        assert(ps.len() >= 1 && pt.len() >= 1);
        assert(ps[0] == p[0] && pt[0] == p[0]);
        lemma_lex_step(ps, pt);
        assert(ps.drop_first() =~= p.drop_first() + s);
        assert(pt.drop_first() =~= p.drop_first() + t);
        lemma_lex_concat_same_prefix(p.drop_first(), s, t);
    }
}

/// If two equally long strings are strictly ordered, every extension of the
/// smaller stays below every extension of the larger.
pub proof fn lemma_lex_concat_distinct_prefix(a: Seq<u8>, b: Seq<u8>, s: Seq<u8>, t: Seq<u8>)
    requires
        a.len() == b.len(),
        lex_lt(a, b),
    ensures
        lex_lt(a + s, b + t),
    decreases a.len(),
{
    if a.len() == 0 {
        assert(false);
    } else {
        let as_ = a + s;
        let bt = b + t;
        lemma_lex_step(a, b);
        lemma_lex_step(as_, bt);
        assert(as_[0] == a[0] && bt[0] == b[0]);
        if a[0] == b[0] {
            assert(as_.drop_first() =~= a.drop_first() + s);
            assert(bt.drop_first() =~= b.drop_first() + t);
            lemma_lex_concat_distinct_prefix(a.drop_first(), b.drop_first(), s, t);
        }
    }
}

/// The order is irreflexive and asymmetric.
pub proof fn lemma_lex_asymmetric(a: Seq<u8>, b: Seq<u8>)
    requires
        lex_lt(a, b),
    ensures
        !lex_lt(b, a),
        a != b,
    decreases a.len(),
{
    if b.len() == 0 {
    } else if a.len() == 0 {
    } else if a[0] == b[0] {
        lemma_lex_asymmetric(a.drop_first(), b.drop_first());
        assert(a != b) by {
            assert(a.drop_first() != b.drop_first());
        }
    }
}

/// Splitting a string prefixed with an 8-byte tag recovers both parts.
pub proof fn lemma_prefixed_parts(p: u64, k: Seq<u8>)
    ensures
        (be8(p) + k).len() == 8 + k.len(),
        (be8(p) + k).subrange(0, 8) =~= be8(p),
        (be8(p) + k).skip(8) =~= k,
{
}

/// Two tagged keys are equal only if both the tags and the rests are.
pub proof fn lemma_prefixed_inj(p: u64, k: Seq<u8>, q: u64, j: Seq<u8>)
    requires
        be8(p) + k == be8(q) + j,
    ensures
        p == q,
        k == j,
{
    lemma_prefixed_parts(p, k);
    lemma_prefixed_parts(q, j);
    assert(be8(p) =~= be8(q));
    lemma_be8_injective(p, q);
    assert(k =~= j);
}

/// Writes a 64-bit integer as its 8 big-endian bytes.
pub fn u64_to_be_vec(x: u64) -> (r: Vec<u8>)
    ensures
        r@ == be8(x),
{
    let mut r: Vec<u8> = Vec::new();
    r.push((x >> 56) as u8);
    r.push((x >> 48) as u8);
    r.push((x >> 40) as u8);
    r.push((x >> 32) as u8);
    r.push((x >> 24) as u8);
    r.push((x >> 16) as u8);
    r.push((x >> 8) as u8);
    r.push(x as u8);
    proof {
        assert(r@ =~= be8(x));
    }
    r
}

/// Reads a 64-bit integer back from 8 big-endian bytes.
pub fn u64_from_be_slice(s: &[u8]) -> (r: u64)
    requires
        s@.len() == 8,
    ensures
        r == from_be8(s@),
{
    let b0 = s[0];
    let b1 = s[1];
    let b2 = s[2];
    let b3 = s[3];
    let b4 = s[4];
    let b5 = s[5];
    let b6 = s[6];
    let b7 = s[7];
    ((b0 as u64) << 56) | ((b1 as u64) << 48) | ((b2 as u64) << 40) | ((b3 as u64) << 32) | ((
    b4 as u64) << 24) | ((b5 as u64) << 16) | ((b6 as u64) << 8) | (b7 as u64)
}

/// Prepending a common string changes neither order nor equality.
pub proof fn lemma_concat_order(pfx: Seq<u8>, a: Seq<u8>, b: Seq<u8>)
    ensures
        lex_lt(pfx + a, pfx + b) <==> lex_lt(a, b),
        (pfx + a == pfx + b) <==> a == b,
{
    lemma_lex_concat_same_prefix(pfx, a, b);
    if pfx + a == pfx + b {
        assert(a =~= (pfx + a).skip(pfx.len() as int));
        assert(b =~= (pfx + b).skip(pfx.len() as int));
    }
    if a == b {
        assert(pfx + a =~= pfx + b);
    }
}

/// Byte-for-byte equality of two strings.
pub fn bytes_eq(a: &[u8], b: &[u8]) -> (r: bool)
    ensures
        r <==> a@ == b@,
{
    if a.len() != b.len() {
        proof {
            assert(a@.len() != b@.len());
        }
        return false;
    }
    let mut i: usize = 0;
    while i < a.len()
        invariant
            0 <= i <= a@.len(),
            a@.len() == b@.len(),
            forall|j: int| 0 <= j < i ==> a@[j] == b@[j],
        decreases a@.len() - i,
    {
        if a[i] != b[i] {
            return false;
        }
        i = i + 1;
    }
    proof {
        assert(a@ =~= b@);
    }
    true
}

/// Appends a byte string to a buffer.
pub fn push_bytes(dst: &mut Vec<u8>, src: &[u8])
    ensures
        final(dst)@ == old(dst)@ + src@,
{
    let mut i: usize = 0;
    while i < src.len()
        invariant
            0 <= i <= src@.len(),
            dst@ =~= old(dst)@ + src@.subrange(0, i as int),
        decreases src@.len() - i,
    {
        dst.push(src[i]);
        i = i + 1;
    }
    proof {
        assert(dst@ =~= old(dst)@ + src@);
    }
}

/// Concatenation of two byte strings.
pub fn concat_bytes(a: &[u8], b: &[u8]) -> (r: Vec<u8>)
    ensures
        r@ == a@ + b@,
{
    let mut r: Vec<u8> = Vec::new();
    let mut i: usize = 0;
    while i < a.len()
        invariant
            0 <= i <= a@.len(),
            r@ =~= a@.subrange(0, i as int),
        decreases a@.len() - i,
    {
        r.push(a[i]);
        i = i + 1;
    }
    let mut j: usize = 0;
    while j < b.len()
        invariant
            0 <= j <= b@.len(),
            r@ =~= a@ + b@.subrange(0, j as int),
        decreases b@.len() - j,
    {
        r.push(b[j]);
        j = j + 1;
    }
    proof {
        assert(r@ =~= a@ + b@);
    }
    r
}

/// A string sorts no later than any of its extensions.
pub proof fn lemma_lex_le_extension(a: Seq<u8>, s: Seq<u8>)
    ensures
        lex_le(a, a + s),
    decreases a.len(),
{
    if a.len() == 0 {
        if s.len() == 0 {
            assert(a =~= a + s);
        } else {
            assert((a + s).len() > 0);
        }
    } else {
        assert((a + s)[0] == a[0]);
        lemma_lex_le_extension(a.drop_first(), s);
        assert((a + s).drop_first() =~= a.drop_first() + s);
        if a.drop_first() == a.drop_first() + s {
            assert(a =~= a + s) by {
                assert(a.len() == (a + s).len());
                assert(forall|i: int| 0 <= i < a.len() ==> a[i] == (a + s)[i]);
            }
        }
    }
}


/// A value type that can cross the byte boundary: encoding is injective
/// and decoding inverts it exactly.
pub trait ValueEnDe: Sized {
    spec fn enc_spec(&self) -> Seq<u8>;

    fn encode(&self) -> (r: Vec<u8>)
        ensures
            r@ == self.enc_spec(),
    ;

    /// Decoding returns the one value the bytes are the image of, or
    /// nothing when they are nobody's image.
    fn decode(b: &[u8]) -> (r: Option<Self>)
        ensures
            match r {
                Some(v) => v.enc_spec() == b@,
                None => forall|v: Self| (#[trigger] v.enc_spec()) != b@,
            },
    ;
}

/// A key type whose encoding besides being reversible carries the key's
/// order into the backend's byte order, so range scans read in semantic
/// order.
pub trait KeyEnDeOrdered: Sized {
    spec fn kenc_spec(&self) -> Seq<u8>;

    /// The semantic order of keys.
    spec fn klt(&self, other: &Self) -> bool;

    /// The byte order of encoded keys is the semantic order.
    proof fn lemma_kenc_order(&self, other: &Self)
        ensures
            lex_lt(self.kenc_spec(), other.kenc_spec()) <==> self.klt(other),
    ;

    fn kencode(&self) -> (r: Vec<u8>)
        ensures
            r@ == self.kenc_spec(),
    ;

    fn kdecode(b: &[u8]) -> (r: Option<Self>)
        ensures
            match r {
                Some(k) => k.kenc_spec() == b@,
                None => forall|k: Self| (#[trigger] k.kenc_spec()) != b@,
            },
    ;
}

impl ValueEnDe for u64 {
    open spec fn enc_spec(&self) -> Seq<u8> {
        be8(*self)
    }

    fn encode(&self) -> (r: Vec<u8>) {
        u64_to_be_vec(*self)
    }

    fn decode(b: &[u8]) -> (r: Option<u64>) {
        if b.len() == 8 {
            let x = u64_from_be_slice(b);
            proof {
                crate::store::lemma_be8_bytes_of_len8(b@);
            }
            Some(x)
        } else {
            None
        }
    }
}

impl KeyEnDeOrdered for u64 {
    open spec fn kenc_spec(&self) -> Seq<u8> {
        be8(*self)
    }

    open spec fn klt(&self, other: &Self) -> bool {
        *self < *other
    }

    proof fn lemma_kenc_order(&self, other: &Self) {
        lemma_be8_order(*self, *other);
    }

    fn kencode(&self) -> (r: Vec<u8>) {
        u64_to_be_vec(*self)
    }

    fn kdecode(b: &[u8]) -> (r: Option<u64>) {
        if b.len() == 8 {
            let x = u64_from_be_slice(b);
            proof {
                crate::store::lemma_be8_bytes_of_len8(b@);
            }
            Some(x)
        } else {
            None
        }
    }
}

impl KeyEnDeOrdered for usize {
    open spec fn kenc_spec(&self) -> Seq<u8> {
        be8(*self as u64)
    }

    open spec fn klt(&self, other: &Self) -> bool {
        *self < *other
    }

    proof fn lemma_kenc_order(&self, other: &Self) {
        lemma_be8_order(*self as u64, *other as u64);
    }

    fn kencode(&self) -> (r: Vec<u8>) {
        u64_to_be_vec(*self as u64)
    }

    fn kdecode(b: &[u8]) -> (r: Option<usize>) {
        if b.len() == 8 {
            let x = u64_from_be_slice(b);
            if x <= usize::MAX as u64 {
                proof {
                    crate::store::lemma_be8_bytes_of_len8(b@);
                }
                Some(x as usize)
            } else {
                proof {
                    assert forall|k: usize| (#[trigger] k.kenc_spec()) != b@ by {
                        if k.kenc_spec() == b@ {
                            lemma_be8_round_trip(k as u64);
                        }
                    }
                }
                None
            }
        } else {
            None
        }
    }
}

} // verus!
