use vstd::prelude::*;
use vstd::arithmetic::div_mod::lemma_fundamental_div_mod_converse;
use vstd::arithmetic::power2::{pow2, lemma_pow2_unfold, lemma2_to64};
use crate::error::DnsError;

verus! {

/// The bit at position `i` of `buf`, counting from the most significant bit
/// of the first byte.
pub open spec fn bit_at(buf: Seq<u8>, i: int) -> bool {
    (buf[i / 8] >> ((7 - i % 8) as u8)) & 1u8 == 1u8
}

/// The unsigned value of the `n` bits of `buf` that start at bit position
/// `pos`, most significant bit first.
pub open spec fn bits_value(buf: Seq<u8>, pos: int, n: nat) -> nat
    decreases n,
{
    if n == 0 {
        0
    } else {
        2 * bits_value(buf, pos, (n - 1) as nat) + if bit_at(buf, pos + n - 1) {
            1nat
        } else {
            0nat
        }
    }
}

/// The number of bits in `buf`.
pub open spec fn bit_len(buf: Seq<u8>) -> int {
    buf.len() as int * 8
}

/// The `k` whole bytes of `buf` that start at bit position `pos`.
pub open spec fn bytes_at(buf: Seq<u8>, pos: int, k: nat) -> Seq<u8> {
    Seq::new(k, |j: int| bits_value(buf, pos + 8 * j, 8) as u8)
}

pub proof fn lemma_bits_value_bound(buf: Seq<u8>, pos: int, n: nat)
    ensures
        bits_value(buf, pos, n) < pow2(n),
    decreases n,
{
    if n == 0 {
        lemma2_to64();
    } else {
        lemma_bits_value_bound(buf, pos, (n - 1) as nat);
        lemma_pow2_unfold(n);
    }
}

/// A position in a byte buffer at bit granularity: a byte index and the
/// number of bits already consumed in that byte.
#[derive(Clone, Copy, Debug, PartialEq, Eq, Structural)]
pub struct BitPos {
    pub byte: usize,
    pub bit: usize,
}

impl BitPos {
    /// The absolute bit index of the position.
    pub open spec fn index(self) -> int {
        self.byte * 8 + self.bit
    }

    pub open spec fn wf(self) -> bool {
        self.bit < 8
    }

    /// The position of the first bit of byte `byte`.
    pub fn at_byte(byte: usize) -> (r: BitPos)
        ensures
            r.wf(),
            r.index() == byte * 8,
    {
        BitPos { byte, bit: 0 }
    }

    /// The position one bit further on.
    fn next(self) -> (r: BitPos)
        requires
            self.wf(),
            self.byte < usize::MAX,
        ensures
            r.wf(),
            r.index() == self.index() + 1,
    {
        if self.bit == 7 {
            BitPos { byte: self.byte + 1, bit: 0 }
        } else {
            BitPos { byte: self.byte, bit: self.bit + 1 }
        }
    }
}

/// Reads one bit at `p`, which must lie inside `buf`.
fn read_bit(buf: &[u8], p: BitPos) -> (r: bool)
    requires
        p.wf(),
        p.byte < buf@.len(),
    ensures
        r == bit_at(buf@, p.index()),
{
    proof {
        lemma_fundamental_div_mod_converse(p.index(), 8, p.byte as int, p.bit as int);
    }
    (buf[p.byte] >> ((7 - p.bit) as u8)) & 1u8 == 1u8
}

/// Reads `n` bits (at most 32) starting at `at`, most significant first.
pub fn take_bits(buf: &[u8], at: BitPos, n: usize) -> (r: Result<(BitPos, u32), DnsError>)
    requires
        at.wf(),
        at.index() <= bit_len(buf@),
        n <= 32,
    ensures
        match r {
            Ok((p, v)) => {
                &&& at.index() + n <= bit_len(buf@)
                &&& p.wf()
                &&& p.index() == at.index() + n
                &&& v as nat == bits_value(buf@, at.index(), n as nat)
            },
            Err(e) => at.index() + n > bit_len(buf@) && e == DnsError::UnexpectedEndOfBuffer,
        },
{
    let mut p = at;
    let mut v: u64 = 0;
    let mut k: usize = 0;
    proof {
        lemma2_to64();
    }
    while k < n
        invariant
            p.wf(),
            p.index() == at.index() + k,
            p.index() <= bit_len(buf@),
            k <= n <= 32,
            v as nat == bits_value(buf@, at.index(), k as nat),
            pow2(32) == 0x1_0000_0000,
        decreases n - k,
    {
        if p.byte >= buf.len() {
            return Err(DnsError::UnexpectedEndOfBuffer);
        }
        let b = read_bit(buf, p);
        assert(p.index() < bit_len(buf@)) by (nonlinear_arith)
            requires
                p.byte < buf@.len(),
                p.bit < 8,
                p.index() == p.byte * 8 + p.bit,
                bit_len(buf@) == buf@.len() * 8;
        proof {
            lemma_bits_value_bound(buf@, at.index(), k as nat);
            vstd::arithmetic::power2::lemma_pow2_strictly_increases(k as nat, 32);
        }
        v = v * 2 + if b { 1u64 } else { 0u64 };
        p = p.next();
        k = k + 1;
    }
    proof {
        lemma_bits_value_bound(buf@, at.index(), n as nat);
        if n < 32 {
            vstd::arithmetic::power2::lemma_pow2_strictly_increases(n as nat, 32);
        }
    }
    Ok((p, v as u32))
}

/// What reading `n` bits at `at` yields: the position after them and their
/// value, or `UnexpectedEndOfBuffer` when fewer than `n` bits remain.
pub open spec fn take_at(buf: Seq<u8>, at: int, n: nat) -> Result<(int, nat), DnsError> {
    if at + n <= bit_len(buf) {
        Ok((at + n, bits_value(buf, at, n)))
    } else {
        Err(DnsError::UnexpectedEndOfBuffer)
    }
}

/// Reads one bit as a flag.
pub fn take_u1(buf: &[u8], at: BitPos) -> (r: Result<(BitPos, bool), DnsError>)
    requires
        at.wf(),
        at.index() <= bit_len(buf@),
    ensures
        match r {
            Ok((p, v)) => p.wf() && take_at(buf@, at.index(), 1) == Ok::<(int, nat), DnsError>(
                (p.index(), if v { 1nat } else { 0nat }),
            ),
            Err(e) => take_at(buf@, at.index(), 1) == Err::<(int, nat), DnsError>(e),
        },
{
    let (p, v) = take_bits(buf, at, 1)?;
    proof {
        lemma_bits_value_bound(buf@, at.index(), 1);
        lemma2_to64();
    }
    Ok((p, v == 1))
}

/// Reads three bits.
pub fn take_u3(buf: &[u8], at: BitPos) -> (r: Result<(BitPos, u8), DnsError>)
    requires
        at.wf(),
        at.index() <= bit_len(buf@),
    ensures
        match r {
            Ok((p, v)) => p.wf() && take_at(buf@, at.index(), 3) == Ok::<(int, nat), DnsError>(
                (p.index(), v as nat),
            ),
            Err(e) => take_at(buf@, at.index(), 3) == Err::<(int, nat), DnsError>(e),
        },
{
    let (p, v) = take_bits(buf, at, 3)?;
    proof {
        lemma_bits_value_bound(buf@, at.index(), 3);
        lemma2_to64();
    }
    Ok((p, v as u8))
}

/// Reads four bits.
pub fn take_u4(buf: &[u8], at: BitPos) -> (r: Result<(BitPos, u8), DnsError>)
    requires
        at.wf(),
        at.index() <= bit_len(buf@),
    ensures
        match r {
            Ok((p, v)) => p.wf() && take_at(buf@, at.index(), 4) == Ok::<(int, nat), DnsError>(
                (p.index(), v as nat),
            ),
            Err(e) => take_at(buf@, at.index(), 4) == Err::<(int, nat), DnsError>(e),
        },
{
    let (p, v) = take_bits(buf, at, 4)?;
    proof {
        lemma_bits_value_bound(buf@, at.index(), 4);
        lemma2_to64();
    }
    Ok((p, v as u8))
}

/// Reads eight bits.
pub fn take_u8(buf: &[u8], at: BitPos) -> (r: Result<(BitPos, u8), DnsError>)
    requires
        at.wf(),
        at.index() <= bit_len(buf@),
    ensures
        match r {
            Ok((p, v)) => p.wf() && take_at(buf@, at.index(), 8) == Ok::<(int, nat), DnsError>(
                (p.index(), v as nat),
            ),
            Err(e) => take_at(buf@, at.index(), 8) == Err::<(int, nat), DnsError>(e),
        },
{
    let (p, v) = take_bits(buf, at, 8)?;
    proof {
        lemma_bits_value_bound(buf@, at.index(), 8);
        lemma2_to64();
    }
    Ok((p, v as u8))
}

/// Reads sixteen bits.
pub fn take_u16(buf: &[u8], at: BitPos) -> (r: Result<(BitPos, u16), DnsError>)
    requires
        at.wf(),
        at.index() <= bit_len(buf@),
    ensures
        match r {
            Ok((p, v)) => p.wf() && take_at(buf@, at.index(), 16) == Ok::<(int, nat), DnsError>(
                (p.index(), v as nat),
            ),
            Err(e) => take_at(buf@, at.index(), 16) == Err::<(int, nat), DnsError>(e),
        },
{
    let (p, v) = take_bits(buf, at, 16)?;
    proof {
        lemma_bits_value_bound(buf@, at.index(), 16);
        lemma2_to64();
    }
    Ok((p, v as u16))
}

/// Reads thirty-two bits.
pub fn take_u32(buf: &[u8], at: BitPos) -> (r: Result<(BitPos, u32), DnsError>)
    requires
        at.wf(),
        at.index() <= bit_len(buf@),
    ensures
        match r {
            Ok((p, v)) => p.wf() && take_at(buf@, at.index(), 32) == Ok::<(int, nat), DnsError>(
                (p.index(), v as nat),
            ),
            Err(e) => take_at(buf@, at.index(), 32) == Err::<(int, nat), DnsError>(e),
        },
{
    take_bits(buf, at, 32)
}

/// Reads `count` whole bytes, eight bits each, starting at `at`.
pub fn take_bytes(buf: &[u8], at: BitPos, count: usize) -> (r: Result<(BitPos, Vec<u8>), DnsError>)
    requires
        at.wf(),
        at.index() <= bit_len(buf@),
    ensures
        match r {
            Ok((p, v)) => {
                &&& at.index() + 8 * count <= bit_len(buf@)
                &&& p.wf()
                &&& p.index() == at.index() + 8 * count
                &&& v@ == bytes_at(buf@, at.index(), count as nat)
            },
            Err(e) => at.index() + 8 * count > bit_len(buf@) && e == DnsError::UnexpectedEndOfBuffer,
        },
{
    let mut out: Vec<u8> = Vec::new();
    let mut p = at;
    let mut k: usize = 0;
    while k < count
        invariant
            p.wf(),
            p.index() == at.index() + 8 * k,
            p.index() <= bit_len(buf@),
            k <= count,
            out@ == bytes_at(buf@, at.index(), k as nat),
        decreases count - k,
    {
        match take_u8(buf, p) {
            Ok((q, b)) => {
                out.push(b);
                p = q;
                k = k + 1;
                assert(out@ =~= bytes_at(buf@, at.index(), k as nat));
            },
            Err(e) => {
                return Err(e);
            },
        }
    }
    Ok((p, out))
}

} // verus!
