use vstd::prelude::*;
use vstd::utf8::encode_utf8;
use crate::bits::{bit_len, bits_value, take_u16, BitPos};
use crate::error::DnsError;
use crate::name::{label_too_long, name_to_vec, name_wire, parse_name, text_name_at};
use crate::writer::{bytes_bits, lemma_bytes_bits_len, lemma_to_bits_len, to_bits, BitWriter, MAX_BITS};

verus! {

/// The record types this codec supports.
#[derive(Clone, Copy, Debug, PartialEq, Eq, Structural)]
pub enum Qtype {
    A,
    CNAME,
}

/// The record classes this codec supports.
#[derive(Clone, Copy, Debug, PartialEq, Eq, Structural)]
pub enum Qclass {
    IN,
}

pub open spec fn qtype_code(t: Qtype) -> nat {
    match t {
        Qtype::A => 1,
        Qtype::CNAME => 5,
    }
}

pub open spec fn qtype_from(n: nat) -> Option<Qtype> {
    if n == 1 {
        Some(Qtype::A)
    } else if n == 5 {
        Some(Qtype::CNAME)
    } else {
        None
    }
}

pub open spec fn qclass_code(c: Qclass) -> nat {
    match c {
        Qclass::IN => 1,
    }
}

pub open spec fn qclass_from(n: nat) -> Option<Qclass> {
    if n == 1 {
        Some(Qclass::IN)
    } else {
        None
    }
}

/// What reading a 16-bit type field at `at` yields.
pub open spec fn type_at(buf: Seq<u8>, at: int) -> Result<(int, Qtype), DnsError> {
    if at + 16 > bit_len(buf) {
        Err(DnsError::UnexpectedEndOfBuffer)
    } else {
        match qtype_from(bits_value(buf, at, 16)) {
            Some(t) => Ok((at + 16, t)),
            None => Err(DnsError::UnsupportedType),
        }
    }
}

/// What reading a 16-bit class field at `at` yields.
pub open spec fn class_at(buf: Seq<u8>, at: int) -> Result<(int, Qclass), DnsError> {
    if at + 16 > bit_len(buf) {
        Err(DnsError::UnexpectedEndOfBuffer)
    } else {
        match qclass_from(bits_value(buf, at, 16)) {
            Some(c) => Ok((at + 16, c)),
            None => Err(DnsError::UnsupportedClass),
        }
    }
}

/// The byte `b` with ASCII upper-case letters lowered.
pub open spec fn ascii_lower(b: u8) -> u8 {
    if 65 <= b <= 90 {
        (b + 32) as u8
    } else {
        b
    }
}

/// `t` equals `name` when ASCII letter case is ignored.
pub open spec fn same_ignoring_case(t: Seq<u8>, name: Seq<u8>) -> bool {
    t.len() == name.len() && forall|i: int| 0 <= i < t.len() ==> #[trigger] ascii_lower(t[i]) == ascii_lower(name[i])
}

/// The type whose name is `t`, ignoring ASCII case.
pub open spec fn qtype_named(t: Seq<u8>) -> Option<Qtype> {
    if same_ignoring_case(t, seq![65u8]) {
        Some(Qtype::A)
    } else if same_ignoring_case(t, seq![67u8, 78u8, 65u8, 77u8, 69u8]) {
        Some(Qtype::CNAME)
    } else {
        None
    }
}

fn lower(b: u8) -> (r: u8)
    ensures
        r == ascii_lower(b),
{
    if 65 <= b && b <= 90 {
        b + 32
    } else {
        b
    }
}

fn matches_ignoring_case(t: &[u8], name: &[u8]) -> (r: bool)
    ensures
        r == same_ignoring_case(t@, name@),
{
    if t.len() != name.len() {
        return false;
    }
    let mut i: usize = 0;
    while i < t.len()
        invariant
            i <= t@.len() == name@.len(),
            forall|j: int| 0 <= j < i ==> #[trigger] ascii_lower(t@[j]) == ascii_lower(name@[j]),
        decreases t@.len() - i,
    {
        if lower(t[i]) != lower(name[i]) {
            return false;
        }
        i = i + 1;
    }
    true
}

impl Qtype {
    /// The type named `s` (`A` or `CNAME`, in any ASCII letter case).
    pub fn from_name(s: &str) -> (r: Result<Qtype, DnsError>)
        ensures
            match r {
                Ok(t) => qtype_named(encode_utf8(s@)) == Some(t),
                Err(e) => qtype_named(encode_utf8(s@)) is None && e == DnsError::UnknownTypeName,
            },
    {
        let b = s.as_bytes();
        let a: [u8; 1] = [65u8];
        let cname: [u8; 5] = [67u8, 78u8, 65u8, 77u8, 69u8];
        assert(a@ =~= seq![65u8]);
        assert(cname@ =~= seq![67u8, 78u8, 65u8, 77u8, 69u8]);
        if matches_ignoring_case(b, a.as_slice()) {
            Ok(Qtype::A)
        } else if matches_ignoring_case(b, cname.as_slice()) {
            Ok(Qtype::CNAME)
        } else {
            Err(DnsError::UnknownTypeName)
        }
    }

    pub fn code(self) -> (r: u16)
        ensures
            r as nat == qtype_code(self),
    {
        match self {
            Qtype::A => 1,
            Qtype::CNAME => 5,
        }
    }

    /// Reads a 16-bit type: 1 is A, 5 is CNAME, anything else is
    /// `UnsupportedType`.
    pub fn deserialize(buf: &[u8], at: BitPos) -> (r: Result<(BitPos, Qtype), DnsError>)
        requires
            at.wf(),
            at.index() <= bit_len(buf@),
        ensures
            match r {
                Ok((p, t)) => p.wf() && type_at(buf@, at.index()) == Ok::<(int, Qtype), DnsError>(
                    (p.index(), t),
                ),
                Err(e) => type_at(buf@, at.index()) == Err::<(int, Qtype), DnsError>(e),
            },
    {
        let (p, code) = take_u16(buf, at)?;
        match code {
            1 => Ok((p, Qtype::A)),
            5 => Ok((p, Qtype::CNAME)),
            _ => Err(DnsError::UnsupportedType),
        }
    }
}

impl Qclass {
    pub fn code(self) -> (r: u16)
        ensures
            r as nat == qclass_code(self),
    {
        match self {
            Qclass::IN => 1,
        }
    }

    /// Reads a 16-bit class: 1 is IN, anything else is `UnsupportedClass`.
    pub fn deserialize(buf: &[u8], at: BitPos) -> (r: Result<(BitPos, Qclass), DnsError>)
        requires
            at.wf(),
            at.index() <= bit_len(buf@),
        ensures
            match r {
                Ok((p, c)) => p.wf() && class_at(buf@, at.index()) == Ok::<(int, Qclass), DnsError>(
                    (p.index(), c),
                ),
                Err(e) => class_at(buf@, at.index()) == Err::<(int, Qclass), DnsError>(e),
            },
    {
        let (p, code) = take_u16(buf, at)?;
        match code {
            1 => Ok((p, Qclass::IN)),
            _ => Err(DnsError::UnsupportedClass),
        }
    }
}

/// One entry of the question section.
#[derive(Debug)]
pub struct Question {
    pub qname: String,
    pub qtype: Qtype,
    pub qclass: Qclass,
}

/// What decoding a question at bit `at` of the packet `buf` yields: the
/// position after it, the name's text as bytes, the type and the class.
pub open spec fn question_at(buf: Seq<u8>, at: int) -> Result<(int, Seq<u8>, Qtype, Qclass), DnsError> {
    match text_name_at(buf, at, buf) {
        Err(e) => Err(e),
        Ok((name, p1)) => match type_at(buf, p1) {
            Err(e) => Err(e),
            Ok((p2, t)) => match class_at(buf, p2) {
                Err(e) => Err(e),
                Ok((p3, c)) => Ok((p3, name, t, c)),
            },
        },
    }
}

/// A question's bits: the uncompressed name, the type and the class.
pub open spec fn question_bits(name: Seq<u8>, t: Qtype, c: Qclass) -> Seq<bool> {
    bytes_bits(name_wire(name)) + to_bits(qtype_code(t), 16) + to_bits(qclass_code(c), 16)
}

impl View for Question {
    type V = (Seq<u8>, Qtype, Qclass);

    open spec fn view(&self) -> Self::V {
        (encode_utf8(self.qname@), self.qtype, self.qclass)
    }
}

impl Question {
    /// The question's name as text bytes.
    pub open spec fn name_bytes(&self) -> Seq<u8> {
        encode_utf8(self.qname@)
    }

    /// An empty name asking for an A record of class IN.
    pub fn new() -> (r: Question)
        ensures
            r.qname@.len() == 0,
            r.qtype == Qtype::A,
            r.qclass == Qclass::IN,
    {
        Question { qname: String::new(), qtype: Qtype::A, qclass: Qclass::IN }
    }

    /// Reads a question at `at` of the packet `buf`.
    pub fn deserialize(buf: &[u8], at: BitPos) -> (r: Result<(BitPos, Question), DnsError>)
        requires
            at.wf(),
            at.index() <= bit_len(buf@),
        ensures
            match r {
                Ok((p, q)) => p.wf() && question_at(buf@, at.index()) == Ok::<
                    (int, Seq<u8>, Qtype, Qclass),
                    DnsError,
                >((p.index(), q.name_bytes(), q.qtype, q.qclass)),
                Err(e) => question_at(buf@, at.index()) == Err::<
                    (int, Seq<u8>, Qtype, Qclass),
                    DnsError,
                >(e),
            },
    {
        let (p, qname) = parse_name(buf, at)?;
        let (p, qtype) = Qtype::deserialize(buf, p)?;
        let (p, qclass) = Qclass::deserialize(buf, p)?;
        Ok((p, Question { qname, qtype, qclass }))
    }

    /// Appends the question's bits. A label longer than 63 bytes is
    /// `LabelTooLong`; no room left in the writer is `MessageTooLong`. On
    /// error the writer is left as it was.
    pub fn serialize(&self, w: &mut BitWriter) -> (r: Result<(), DnsError>)
        ensures
            match r {
                Ok(()) => !label_too_long(self.name_bytes()) && final(w).view() == old(w).view()
                    + question_bits(self.name_bytes(), self.qtype, self.qclass),
                Err(e) => *final(w) == *old(w) && if label_too_long(self.name_bytes()) {
                    e == DnsError::LabelTooLong
                } else {
                    e == DnsError::MessageTooLong && old(w).view().len() + question_bits(
                        self.name_bytes(),
                        self.qtype,
                        self.qclass,
                    ).len() > MAX_BITS
                },
            },
    {
        let wire = name_to_vec(self.qname.as_str())?;
        proof {
            lemma_bytes_bits_len(wire@);
            lemma_to_bits_len(qtype_code(self.qtype), 16);
            lemma_to_bits_len(qclass_code(self.qclass), 16);
        }
        if wire.len() > MAX_BITS / 8 || !w.has_room(8 * wire.len() + 32) {
            return Err(DnsError::MessageTooLong);
        }
        w.push_bytes(wire.as_slice());
        w.push_value(self.qtype.code() as u32, 16);
        w.push_value(self.qclass.code() as u32, 16);
        assert(w.view() =~= old(w).view() + question_bits(self.name_bytes(), self.qtype, self.qclass));
        Ok(())
    }
}

} // verus!
