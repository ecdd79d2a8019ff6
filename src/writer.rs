use vstd::prelude::*;
use vstd::arithmetic::power2::{pow2, lemma_pow2_unfold, lemma2_to64};
use bitvec::order::Msb0;
use bitvec::vec::BitVec;
use crate::bits::{bit_at, bit_len, bits_value};

verus! {

/// A growing sequence of bits, turned into bytes once complete. The
/// bit-vector is hidden from the verifier; `bits_of` names its contents.
#[verifier::external_body]
pub struct BitWriter {
    bits: BitVec<u8, Msb0>,
}

/// The bits held by a writer, in order.
pub uninterp spec fn bits_of(w: BitWriter) -> Seq<bool>;

/// The most bits a writer may hold: below the bit-vector's own capacity
/// (`usize::MAX >> 3` bits) on every target.
pub const MAX_BITS: usize = 0x1FFF_FFFF;

/// Relies on `BitVec::new`: a new bit-vector holds no bits.
#[verifier::external_body]
fn empty_bits() -> (r: BitWriter)
    ensures
        bits_of(r) == Seq::<bool>::empty(),
{
    BitWriter { bits: BitVec::new() }
}

/// Relies on `BitVec::push`: appends one bit; it panics only past
/// `usize::MAX >> 3` bits, which `requires` rules out.
#[verifier::external_body]
fn push_bit(v: &mut BitWriter, b: bool)
    requires
        bits_of(*old(v)).len() < MAX_BITS,
    ensures
        bits_of(*final(v)) == bits_of(*old(v)).push(b),
{
    v.bits.push(b)
}

/// Relies on `BitVec::len`: the number of bits held.
#[verifier::external_body]
fn bit_count(v: &BitWriter) -> (r: usize)
    ensures
        r == bits_of(*v).len(),
{
    v.bits.len()
}

/// Relies on `BitVec::into_vec` over `u8` with most-significant-bit-first
/// order: bit `i` is bit `7 - i % 8` of byte `i / 8`, and the bytes are
/// exactly those that hold a bit.
#[verifier::external_body]
fn writer_bytes(v: BitWriter) -> (r: Vec<u8>)
    ensures
        r@.len() == (bits_of(v).len() + 7) / 8,
        forall|i: int| 0 <= i < bits_of(v).len() ==> bit_at(r@, i) == #[trigger] bits_of(v)[i],
{
    v.bits.into_vec()
}

/// The `n` low bits of `v`, most significant first.
pub open spec fn to_bits(v: nat, n: nat) -> Seq<bool>
    decreases n,
{
    if n == 0 {
        Seq::empty()
    } else {
        to_bits(v / 2, (n - 1) as nat).push(v % 2 == 1)
    }
}

/// The bits of a byte sequence, eight per byte, most significant first.
pub open spec fn bytes_bits(w: Seq<u8>) -> Seq<bool>
    decreases w.len(),
{
    if w.len() == 0 {
        Seq::empty()
    } else {
        bytes_bits(w.drop_last()) + to_bits(w.last() as nat, 8)
    }
}

/// `buf` begins with the bits `b`.
pub open spec fn carries(buf: Seq<u8>, b: Seq<bool>) -> bool {
    &&& b.len() <= bit_len(buf)
    &&& forall|i: int| 0 <= i < b.len() ==> bit_at(buf, i) == #[trigger] b[i]
}

pub proof fn lemma_to_bits_len(v: nat, n: nat)
    ensures
        to_bits(v, n).len() == n,
    decreases n,
{
    if n > 0 {
        lemma_to_bits_len(v / 2, (n - 1) as nat);
    }
}

pub proof fn lemma_bytes_bits_len(w: Seq<u8>)
    ensures
        bytes_bits(w).len() == 8 * w.len(),
    decreases w.len(),
{
    if w.len() > 0 {
        lemma_bytes_bits_len(w.drop_last());
        lemma_to_bits_len(w.last() as nat, 8);
    }
}

/// Reading back `n` bits that were written as `to_bits(v, n)` gives `v`.
pub proof fn lemma_read_back(buf: Seq<u8>, b: Seq<bool>, p: int, v: nat, n: nat)
    requires
        carries(buf, b),
        0 <= p,
        p + n <= b.len(),
        b.subrange(p, p + n) == to_bits(v, n),
        v < pow2(n),
    ensures
        bits_value(buf, p, n) == v,
    decreases n,
{
    if n == 0 {
        lemma2_to64();
    } else {
        let m = (n - 1) as nat;
        lemma_to_bits_len(v / 2, m);
        lemma_pow2_unfold(n);
        assert(b.subrange(p, p + m) == to_bits(v / 2, m)) by {
            assert(b.subrange(p, p + m) =~= b.subrange(p, p + n).subrange(0, m as int));
        }
        lemma_read_back(buf, b, p, v / 2, m);
        assert(b[p + m] == b.subrange(p, p + n)[m as int]);
    }
}

/// Each byte of `w`, written as `bytes_bits(w)` at `p`, reads back as itself.
pub proof fn lemma_read_back_bytes(buf: Seq<u8>, b: Seq<bool>, p: int, w: Seq<u8>)
    requires
        carries(buf, b),
        0 <= p,
        p + 8 * w.len() <= b.len(),
        b.subrange(p, p + 8 * w.len()) == bytes_bits(w),
    ensures
        forall|j: int| 0 <= j < w.len() ==> bits_value(buf, p + 8 * j, 8) == #[trigger] w[j],
    decreases w.len(),
{
    if w.len() > 0 {
        let k = w.len() - 1;
        lemma_bytes_bits_len(w.drop_last());
        lemma_to_bits_len(w.last() as nat, 8);
        let bb = bytes_bits(w);
        assert(bb == bytes_bits(w.drop_last()) + to_bits(w.last() as nat, 8));
        assert(bb.subrange(0, 8 * k) =~= bytes_bits(w.drop_last()));
        assert(bb.subrange(8 * k, 8 * k + 8) =~= to_bits(w.last() as nat, 8));
        assert(b.subrange(p, p + 8 * k) =~= b.subrange(p, p + 8 * w.len()).subrange(0, 8 * k));
        lemma_read_back_bytes(buf, b, p, w.drop_last());
        assert(b.subrange(p + 8 * k, p + 8 * k + 8) =~= b.subrange(p, p + 8 * w.len()).subrange(
            8 * k,
            8 * k + 8,
        ));
        lemma2_to64();
        lemma_read_back(buf, b, p + 8 * k, w.last() as nat, 8);
        assert forall|j: int| 0 <= j < w.len() implies bits_value(buf, p + 8 * j, 8)
            == #[trigger] w[j] by {
            if j < k {
                assert(w[j] == w.drop_last()[j]);
            }
        }
    }
}

impl BitWriter {
    /// The bits written so far.
    pub open spec fn view(&self) -> Seq<bool> {
        bits_of(*self)
    }

    pub fn new() -> (r: BitWriter)
        ensures
            r.view() == Seq::<bool>::empty(),
    {
        empty_bits()
    }

    pub fn len(&self) -> (r: usize)
        ensures
            r == self.view().len(),
    {
        bit_count(self)
    }

    /// Appends the `n` low bits of `v`, most significant first.
    pub fn push_value(&mut self, v: u32, n: usize)
        requires
            n <= 32,
            old(self).view().len() + n <= MAX_BITS,
        ensures
            final(self).view() == old(self).view() + to_bits(v as nat, n as nat),
            final(self).view().len() == old(self).view().len() + n,
        decreases n,
    {
        if n > 0 {
            self.push_value(v / 2, n - 1);
            proof {
                lemma_to_bits_len((v / 2) as nat, (n - 1) as nat);
            }
            push_bit(self, v % 2 == 1);
            assert(self.view() =~= old(self).view() + to_bits(v as nat, n as nat));
            proof { lemma_to_bits_len(v as nat, n as nat); }
        } else {
            assert(self.view() =~= old(self).view() + to_bits(v as nat, n as nat));
        }
    }

    /// Appends a flag as one bit.
    pub fn push_flag(&mut self, b: bool)
        requires
            old(self).view().len() < MAX_BITS,
        ensures
            final(self).view() == old(self).view() + to_bits(if b { 1nat } else { 0nat }, 1),
            final(self).view().len() == old(self).view().len() + 1,
    {
        self.push_value(if b { 1u32 } else { 0u32 }, 1);
    }

    /// Appends each byte of `w` as eight bits.
    pub fn push_bytes(&mut self, w: &[u8])
        requires
            old(self).view().len() + 8 * w@.len() <= MAX_BITS,
        ensures
            final(self).view() == old(self).view() + bytes_bits(w@),
    {
        let mut k: usize = 0;
        while k < w.len()
            invariant
                k <= w@.len(),
                self.view() == old(self).view() + bytes_bits(w@.subrange(0, k as int)),
                old(self).view().len() + 8 * w@.len() <= MAX_BITS,
            decreases w@.len() - k,
        {
            proof {
                lemma_bytes_bits_len(w@.subrange(0, k as int));
            }
            self.push_value(w[k] as u32, 8);
            proof {
                let s = w@.subrange(0, k as int + 1);
                assert(s.drop_last() =~= w@.subrange(0, k as int));
            }
            k = k + 1;
            assert(self.view() =~= old(self).view() + bytes_bits(w@.subrange(0, k as int)));
        }
        assert(w@.subrange(0, w@.len() as int) =~= w@);
    }

    /// Room is left for `n` more bits.
    pub fn has_room(&self, n: usize) -> (r: bool)
        ensures
            r == (self.view().len() + n <= MAX_BITS),
    {
        let l = self.len();
        l <= MAX_BITS && n <= MAX_BITS - l
    }

    /// The bytes that carry the written bits, the last one padded when the
    /// bit count is not a multiple of eight.
    pub fn into_bytes(self) -> (r: Vec<u8>)
        ensures
            r@.len() == (self.view().len() + 7) / 8,
            carries(r@, self.view()),
    {
        writer_bytes(self)
    }
}

} // verus!
