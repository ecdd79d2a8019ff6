use vstd::prelude::*;
use crate::bits::{bit_len, bits_value, take_u1, take_u16, take_u3, take_u4, BitPos};
use crate::error::DnsError;
use crate::writer::{lemma_to_bits_len, to_bits, BitWriter, MAX_BITS};

verus! {

/// The kind of query, a 4-bit field of the header.
#[derive(Clone, Copy, Debug, PartialEq, Eq, Structural)]
pub enum Opcode {
    Query,
    InverseQuery,
    Status,
}

/// The response status, a 4-bit field of the header.
#[derive(Clone, Copy, Debug, PartialEq, Eq, Structural)]
pub enum Rcode {
    NoError,
    FormatError,
    NameError,
    NotImplemented,
    Refused,
}

/// The wire value of an opcode.
pub open spec fn opcode_code(o: Opcode) -> nat {
    match o {
        Opcode::Query => 0,
        Opcode::InverseQuery => 1,
        Opcode::Status => 2,
    }
}

/// The opcode with wire value `n`, if it is supported.
pub open spec fn opcode_from(n: nat) -> Option<Opcode> {
    if n == 0 {
        Some(Opcode::Query)
    } else if n == 1 {
        Some(Opcode::InverseQuery)
    } else if n == 2 {
        Some(Opcode::Status)
    } else {
        None
    }
}

/// The wire value of a response code.
pub open spec fn rcode_code(c: Rcode) -> nat {
    match c {
        Rcode::NoError => 0,
        Rcode::FormatError => 1,
        Rcode::NameError => 2,
        Rcode::NotImplemented => 3,
        Rcode::Refused => 4,
    }
}

/// The response code with wire value `n`, if it is supported.
pub open spec fn rcode_from(n: nat) -> Option<Rcode> {
    if n == 0 {
        Some(Rcode::NoError)
    } else if n == 1 {
        Some(Rcode::FormatError)
    } else if n == 2 {
        Some(Rcode::NameError)
    } else if n == 3 {
        Some(Rcode::NotImplemented)
    } else if n == 4 {
        Some(Rcode::Refused)
    } else {
        None
    }
}

impl Opcode {
    pub fn code(self) -> (r: u8)
        ensures
            r as nat == opcode_code(self),
    {
        match self {
            Opcode::Query => 0,
            Opcode::InverseQuery => 1,
            Opcode::Status => 2,
        }
    }

    /// Reads a 4-bit opcode; an unknown value is `UnsupportedOpcode`.
    pub fn deserialize(buf: &[u8], at: BitPos) -> (r: Result<(BitPos, Opcode), DnsError>)
        requires
            at.wf(),
            at.index() <= bit_len(buf@),
        ensures
            match r {
                Ok((p, o)) => {
                    &&& p.wf()
                    &&& at.index() + 4 <= bit_len(buf@)
                    &&& p.index() == at.index() + 4
                    &&& opcode_from(bits_value(buf@, at.index(), 4)) == Some(o)
                },
                Err(e) => if at.index() + 4 > bit_len(buf@) {
                    e == DnsError::UnexpectedEndOfBuffer
                } else {
                    opcode_from(bits_value(buf@, at.index(), 4)) is None && e
                        == DnsError::UnsupportedOpcode
                },
            },
    {
        let (p, code) = take_u4(buf, at)?;
        match code {
            0 => Ok((p, Opcode::Query)),
            1 => Ok((p, Opcode::InverseQuery)),
            2 => Ok((p, Opcode::Status)),
            _ => Err(DnsError::UnsupportedOpcode),
        }
    }
}

impl Rcode {
    pub fn code(self) -> (r: u8)
        ensures
            r as nat == rcode_code(self),
    {
        match self {
            Rcode::NoError => 0,
            Rcode::FormatError => 1,
            Rcode::NameError => 2,
            Rcode::NotImplemented => 3,
            Rcode::Refused => 4,
        }
    }

    /// Reads a 4-bit response code; an unknown value is `UnsupportedRcode`.
    pub fn deserialize(buf: &[u8], at: BitPos) -> (r: Result<(BitPos, Rcode), DnsError>)
        requires
            at.wf(),
            at.index() <= bit_len(buf@),
        ensures
            match r {
                Ok((p, c)) => {
                    &&& p.wf()
                    &&& at.index() + 4 <= bit_len(buf@)
                    &&& p.index() == at.index() + 4
                    &&& rcode_from(bits_value(buf@, at.index(), 4)) == Some(c)
                },
                Err(e) => if at.index() + 4 > bit_len(buf@) {
                    e == DnsError::UnexpectedEndOfBuffer
                } else {
                    rcode_from(bits_value(buf@, at.index(), 4)) is None && e
                        == DnsError::UnsupportedRcode
                },
            },
    {
        let (p, code) = take_u4(buf, at)?;
        match code {
            0 => Ok((p, Rcode::NoError)),
            1 => Ok((p, Rcode::FormatError)),
            2 => Ok((p, Rcode::NameError)),
            3 => Ok((p, Rcode::NotImplemented)),
            4 => Ok((p, Rcode::Refused)),
            _ => Err(DnsError::UnsupportedRcode),
        }
    }
}

/// The fixed 96-bit message header.
#[derive(Clone, Copy, Debug, PartialEq, Eq, Structural)]
pub struct Header {
    pub id: u16,
    pub qr: bool,
    pub opcode: Opcode,
    pub aa: bool,
    pub tc: bool,
    pub rd: bool,
    pub ra: bool,
    /// The 3-bit reserved field, kept as read.
    pub z: u8,
    pub rcode: Rcode,
    pub qdcount: u16,
    pub ancount: u16,
    pub nscount: u16,
    pub arcount: u16,
}

/// The number of bits in a header.
pub const HEADER_BITS: usize = 96;

pub open spec fn flag(b: bool) -> nat {
    if b {
        1
    } else {
        0
    }
}

/// The header's bits in wire order.
pub open spec fn header_bits(h: Header) -> Seq<bool> {
    to_bits(h.id as nat, 16) + to_bits(flag(h.qr), 1) + to_bits(opcode_code(h.opcode), 4) + to_bits(
        flag(h.aa),
        1,
    ) + to_bits(flag(h.tc), 1) + to_bits(flag(h.rd), 1) + to_bits(flag(h.ra), 1) + to_bits(
        h.z as nat,
        3,
    ) + to_bits(rcode_code(h.rcode), 4) + to_bits(h.qdcount as nat, 16) + to_bits(
        h.ancount as nat,
        16,
    ) + to_bits(h.nscount as nat, 16) + to_bits(h.arcount as nat, 16)
}

pub proof fn lemma_header_bits_len(h: Header)
    ensures
        header_bits(h).len() == 96,
{
    lemma_to_bits_len(h.id as nat, 16);
    lemma_to_bits_len(flag(h.qr), 1);
    lemma_to_bits_len(opcode_code(h.opcode), 4);
    lemma_to_bits_len(flag(h.aa), 1);
    lemma_to_bits_len(flag(h.tc), 1);
    lemma_to_bits_len(flag(h.rd), 1);
    lemma_to_bits_len(flag(h.ra), 1);
    lemma_to_bits_len(h.z as nat, 3);
    lemma_to_bits_len(rcode_code(h.rcode), 4);
    lemma_to_bits_len(h.qdcount as nat, 16);
    lemma_to_bits_len(h.ancount as nat, 16);
    lemma_to_bits_len(h.nscount as nat, 16);
    lemma_to_bits_len(h.arcount as nat, 16);
}

/// What decoding a header at bit `at` yields. Fields are read in wire
/// order, so an unsupported opcode is reported before a buffer that ends
/// after it, and likewise the response code.
pub open spec fn header_at(buf: Seq<u8>, at: int) -> Result<(int, Header), DnsError> {
    if at + 21 > bit_len(buf) {
        Err(DnsError::UnexpectedEndOfBuffer)
    } else if opcode_from(bits_value(buf, at + 17, 4)) is None {
        Err(DnsError::UnsupportedOpcode)
    } else if at + 32 > bit_len(buf) {
        Err(DnsError::UnexpectedEndOfBuffer)
    } else if rcode_from(bits_value(buf, at + 28, 4)) is None {
        Err(DnsError::UnsupportedRcode)
    } else if at + 96 > bit_len(buf) {
        Err(DnsError::UnexpectedEndOfBuffer)
    } else {
        Ok(
            (
                at + 96,
                Header {
                    id: bits_value(buf, at, 16) as u16,
                    qr: bits_value(buf, at + 16, 1) == 1,
                    opcode: opcode_from(bits_value(buf, at + 17, 4))->Some_0,
                    aa: bits_value(buf, at + 21, 1) == 1,
                    tc: bits_value(buf, at + 22, 1) == 1,
                    rd: bits_value(buf, at + 23, 1) == 1,
                    ra: bits_value(buf, at + 24, 1) == 1,
                    z: bits_value(buf, at + 25, 3) as u8,
                    rcode: rcode_from(bits_value(buf, at + 28, 4))->Some_0,
                    qdcount: bits_value(buf, at + 32, 16) as u16,
                    ancount: bits_value(buf, at + 48, 16) as u16,
                    nscount: bits_value(buf, at + 64, 16) as u16,
                    arcount: bits_value(buf, at + 80, 16) as u16,
                },
            ),
        )
    }
}

impl Header {
    /// The header of a fresh message: every flag false, every count zero,
    /// opcode `Query`, response code `NoError`.
    pub open spec fn fresh() -> Header {
        Header {
            id: 0,
            qr: false,
            opcode: Opcode::Query,
            aa: false,
            tc: false,
            rd: false,
            ra: false,
            z: 0,
            rcode: Rcode::NoError,
            qdcount: 0,
            ancount: 0,
            nscount: 0,
            arcount: 0,
        }
    }

    /// The reserved field fits its three bits.
    pub open spec fn wf(self) -> bool {
        self.z < 8
    }

    /// A header with every flag false, every count zero, opcode `Query` and
    /// response code `NoError`.
    pub fn new() -> (r: Header)
        ensures
            r == (Header {
                id: 0,
                qr: false,
                opcode: Opcode::Query,
                aa: false,
                tc: false,
                rd: false,
                ra: false,
                z: 0,
                rcode: Rcode::NoError,
                qdcount: 0,
                ancount: 0,
                nscount: 0,
                arcount: 0,
            }),
    {
        Header {
            id: 0,
            qr: false,
            opcode: Opcode::Query,
            aa: false,
            tc: false,
            rd: false,
            ra: false,
            z: 0,
            rcode: Rcode::NoError,
            qdcount: 0,
            ancount: 0,
            nscount: 0,
            arcount: 0,
        }
    }

    /// Reads a header at `at`.
    pub fn deserialize(buf: &[u8], at: BitPos) -> (r: Result<(BitPos, Header), DnsError>)
        requires
            at.wf(),
            at.index() <= bit_len(buf@),
        ensures
            match r {
                Ok((p, h)) => p.wf() && h.wf() && header_at(buf@, at.index()) == Ok::<
                    (int, Header),
                    DnsError,
                >((p.index(), h)),
                Err(e) => header_at(buf@, at.index()) == Err::<(int, Header), DnsError>(e),
            },
    {
        let (p, id) = take_u16(buf, at)?;
        let (p, qr) = take_u1(buf, p)?;
        let (p, opcode) = Opcode::deserialize(buf, p)?;
        let (p, aa) = take_u1(buf, p)?;
        let (p, tc) = take_u1(buf, p)?;
        let (p, rd) = take_u1(buf, p)?;
        let (p, ra) = take_u1(buf, p)?;
        let (p, z) = take_u3(buf, p)?;
        let (p, rcode) = Rcode::deserialize(buf, p)?;
        let (p, qdcount) = take_u16(buf, p)?;
        let (p, ancount) = take_u16(buf, p)?;
        let (p, nscount) = take_u16(buf, p)?;
        let (p, arcount) = take_u16(buf, p)?;
        proof {
            crate::bits::lemma_bits_value_bound(buf@, at.index() + 25, 3);
            vstd::arithmetic::power2::lemma2_to64();
        }
        Ok((p, Header { id, qr, opcode, aa, tc, rd, ra, z, rcode, qdcount, ancount, nscount, arcount }))
    }

    /// Appends the header's 96 bits.
    #[verifier::rlimit(50)]
    pub fn serialize(&self, w: &mut BitWriter)
        requires
            old(w).view().len() + HEADER_BITS <= MAX_BITS,
        ensures
            final(w).view() == old(w).view() + header_bits(*self),
    {
        let ghost v0 = w.view();
        w.push_value(self.id as u32, 16);
        let ghost a0 = to_bits(self.id as nat, 16);
        assert(w.view() =~= v0 + a0);
        w.push_flag(self.qr);
        let ghost a1 = a0 + to_bits(flag(self.qr), 1);
        assert(w.view() =~= v0 + a1);
        w.push_value(self.opcode.code() as u32, 4);
        let ghost a2 = a1 + to_bits(opcode_code(self.opcode), 4);
        assert(w.view() =~= v0 + a2);
        w.push_flag(self.aa);
        let ghost a3 = a2 + to_bits(flag(self.aa), 1);
        assert(w.view() =~= v0 + a3);
        w.push_flag(self.tc);
        let ghost a4 = a3 + to_bits(flag(self.tc), 1);
        assert(w.view() =~= v0 + a4);
        w.push_flag(self.rd);
        let ghost a5 = a4 + to_bits(flag(self.rd), 1);
        assert(w.view() =~= v0 + a5);
        w.push_flag(self.ra);
        let ghost a6 = a5 + to_bits(flag(self.ra), 1);
        assert(w.view() =~= v0 + a6);
        w.push_value(self.z as u32, 3);
        let ghost a7 = a6 + to_bits(self.z as nat, 3);
        assert(w.view() =~= v0 + a7);
        w.push_value(self.rcode.code() as u32, 4);
        let ghost a8 = a7 + to_bits(rcode_code(self.rcode), 4);
        assert(w.view() =~= v0 + a8);
        w.push_value(self.qdcount as u32, 16);
        let ghost a9 = a8 + to_bits(self.qdcount as nat, 16);
        assert(w.view() =~= v0 + a9);
        w.push_value(self.ancount as u32, 16);
        let ghost a10 = a9 + to_bits(self.ancount as nat, 16);
        assert(w.view() =~= v0 + a10);
        w.push_value(self.nscount as u32, 16);
        let ghost a11 = a10 + to_bits(self.nscount as nat, 16);
        assert(w.view() =~= v0 + a11);
        w.push_value(self.arcount as u32, 16);
        let ghost a12 = a11 + to_bits(self.arcount as nat, 16);
        assert(w.view() =~= v0 + a12);
        assert(a12 == header_bits(*self));
        assert(w.view() =~= old(w).view() + header_bits(*self));
    }
}

} // verus!
