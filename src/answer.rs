use vstd::prelude::*;
use vstd::utf8::{encode_utf8, valid_utf8, is_leading_byte_width_1, pop_first_scalar};
use crate::bits::{bit_len, bytes_at, take_bytes, take_at, take_u16, take_u32, BitPos};
use crate::error::DnsError;
use crate::name::{parse_name, parse_name_in, string_from_utf8, text_name_at, DOT};
use crate::question::{class_at, type_at, Qclass, Qtype};

verus! {

/// The decimal digits of `n` as ASCII bytes, without leading zeros.
pub open spec fn decimal(n: nat) -> Seq<u8>
    decreases n,
{
    if n < 10 {
        seq![(48 + n) as u8]
    } else {
        decimal(n / 10).push((48 + n % 10) as u8)
    }
}

/// The first four bytes of `rd` as a dotted quad (`192.0.2.1`).
pub open spec fn dotted_quad(rd: Seq<u8>) -> Seq<u8> {
    decimal(rd[0] as nat) + seq![DOT] + decimal(rd[1] as nat) + seq![DOT] + decimal(rd[2] as nat)
        + seq![DOT] + decimal(rd[3] as nat)
}

/// The readable form of record data of type `ty`, as text bytes: a dotted
/// quad for A (which needs four bytes), the decoded name for CNAME (empty
/// data reads as the empty name). Names in the data may point into the
/// whole packet `raw`.
pub open spec fn rdata_text(ty: Qtype, rd: Seq<u8>, raw: Seq<u8>) -> Result<Seq<u8>, DnsError> {
    match ty {
        Qtype::A => if rd.len() >= 4 {
            Ok(dotted_quad(rd))
        } else {
            Err(DnsError::MalformedRdata)
        },
        Qtype::CNAME => if rd.len() == 0 {
            Ok(Seq::empty())
        } else {
            match text_name_at(rd, 0, raw) {
                Ok((t, _)) => Ok(t),
                Err(e) => Err(e),
            }
        },
    }
}

proof fn lemma_ascii_valid(b: Seq<u8>)
    requires
        forall|i: int| 0 <= i < b.len() ==> #[trigger] b[i] < 128,
    ensures
        valid_utf8(b),
    decreases b.len(),
{
    if b.len() > 0 {
        let c = b[0];
        assert(c < 128);
        assert(is_leading_byte_width_1(c));
        assert((c & 0x7f) <= 0x7f) by (bit_vector);
        assert(pop_first_scalar(b) =~= b.subrange(1, b.len() as int));
        lemma_ascii_valid(b.subrange(1, b.len() as int));
    }
}

proof fn lemma_decimal_ascii(n: nat)
    ensures
        forall|i: int| 0 <= i < decimal(n).len() ==> #[trigger] decimal(n)[i] < 128,
    decreases n,
{
    if n >= 10 {
        lemma_decimal_ascii(n / 10);
        let d = decimal(n / 10);
        assert(decimal(n) == d.push((48 + n % 10) as u8));
        assert forall|i: int| 0 <= i < decimal(n).len() implies #[trigger] decimal(n)[i] < 128 by {
            if i < d.len() {
                assert(decimal(n)[i] == d[i]);
            }
        }
    }
}

/// Appends the decimal digits of `n`.
fn push_decimal(out: &mut Vec<u8>, n: u8)
    ensures
        final(out)@ == old(out)@ + decimal(n as nat),
{
    if n >= 100 {
        out.push(48 + n / 100);
        out.push(48 + (n / 10) % 10);
        out.push(48 + n % 10);
        assert(decimal((n / 100) as nat) == seq![(48 + n / 100) as u8]);
        assert(decimal((n / 10) as nat) == decimal((n / 100) as nat).push((48 + (n / 10) % 10) as u8));
    } else if n >= 10 {
        out.push(48 + n / 10);
        out.push(48 + n % 10);
        assert(decimal((n / 10) as nat) == seq![(48 + n / 10) as u8]);
    } else {
        out.push(48 + n);
    }
    assert(out@ =~= old(out)@ + decimal(n as nat));
}

/// One resource record of the answer section.
#[derive(Debug)]
pub struct Answer {
    pub name: String,
    pub ty: Qtype,
    pub class: Qclass,
    pub ttl: u32,
    pub rdlength: u16,
    pub rddata: Vec<u8>,
}

/// What decoding an answer at bit `at` of the packet `buf` yields: the
/// position after it, then the owner name's text, type, class, TTL, data
/// length and data. The data must also have a readable form.
pub open spec fn answer_at(buf: Seq<u8>, at: int) -> Result<
    (int, (Seq<u8>, Qtype, Qclass, u32, u16, Seq<u8>)),
    DnsError,
> {
    match text_name_at(buf, at, buf) {
        Err(e) => Err(e),
        Ok((name, p1)) => match type_at(buf, p1) {
            Err(e) => Err(e),
            Ok((p2, t)) => match class_at(buf, p2) {
                Err(e) => Err(e),
                Ok((p3, c)) => match take_at(buf, p3, 32) {
                    Err(e) => Err(e),
                    Ok((p4, ttl)) => match take_at(buf, p4, 16) {
                        Err(e) => Err(e),
                        Ok((p5, len)) => if p5 + 8 * len > bit_len(buf) {
                            Err(DnsError::UnexpectedEndOfBuffer)
                        } else {
                            let rd = bytes_at(buf, p5, len);
                            match rdata_text(t, rd, buf) {
                                Err(e) => Err(e),
                                Ok(_) => Ok((p5 + 8 * len, (name, t, c, ttl as u32, len as u16, rd))),
                            }
                        },
                    },
                },
            },
        },
    }
}

impl View for Answer {
    type V = (Seq<u8>, Qtype, Qclass, u32, u16, Seq<u8>);

    open spec fn view(&self) -> Self::V {
        (encode_utf8(self.name@), self.ty, self.class, self.ttl, self.rdlength, self.rddata@)
    }
}

impl Answer {
    /// The data is as long as the record declares.
    pub open spec fn wf(&self) -> bool {
        self.rddata@.len() == self.rdlength
    }

    /// The readable form of the record data, computed afresh: a dotted quad
    /// for A, the target name for CNAME. `raw` is the whole packet the
    /// record came from, into which names may point.
    pub fn parse_record(&self, raw: &[u8]) -> (r: Result<String, DnsError>)
        ensures
            match r {
                Ok(s) => rdata_text(self.ty, self.rddata@, raw@) == Ok::<Seq<u8>, DnsError>(
                    encode_utf8(s@),
                ),
                Err(e) => rdata_text(self.ty, self.rddata@, raw@) == Err::<Seq<u8>, DnsError>(e),
            },
    {
        match self.ty {
            Qtype::A => {
                if self.rddata.len() < 4 {
                    return Err(DnsError::MalformedRdata);
                }
                let mut out: Vec<u8> = Vec::new();
                push_decimal(&mut out, self.rddata[0]);
                out.push(DOT);
                push_decimal(&mut out, self.rddata[1]);
                out.push(DOT);
                push_decimal(&mut out, self.rddata[2]);
                out.push(DOT);
                push_decimal(&mut out, self.rddata[3]);
                let ghost rd = self.rddata@;
                assert(out@ =~= dotted_quad(rd));
                proof {
                    lemma_decimal_ascii(rd[0] as nat);
                    lemma_decimal_ascii(rd[1] as nat);
                    lemma_decimal_ascii(rd[2] as nat);
                    lemma_decimal_ascii(rd[3] as nat);
                    assert forall|i: int| 0 <= i < out@.len() implies #[trigger] out@[i] < 128 by {
                        let l0 = decimal(rd[0] as nat).len();
                        let l1 = decimal(rd[1] as nat).len();
                        let l2 = decimal(rd[2] as nat).len();
                        if i < l0 {
                            assert(out@[i] == decimal(rd[0] as nat)[i]);
                        } else if i == l0 {
                        } else if i < l0 + 1 + l1 {
                            assert(out@[i] == decimal(rd[1] as nat)[i - l0 - 1]);
                        } else if i == l0 + 1 + l1 {
                        } else if i < l0 + l1 + 2 + l2 {
                            assert(out@[i] == decimal(rd[2] as nat)[i - l0 - l1 - 2]);
                        } else if i == l0 + l1 + 2 + l2 {
                        } else {
                            assert(out@[i] == decimal(rd[3] as nat)[i - l0 - l1 - l2 - 3]);
                        }
                    }
                    lemma_ascii_valid(out@);
                }
                match string_from_utf8(out) {
                    Some(s) => Ok(s),
                    None => Err(DnsError::MalformedText),
                }
            },
            Qtype::CNAME => {
                if self.rddata.len() == 0 {
                    return Ok(String::new());
                }
                let (_, s) = parse_name_in(self.rddata.as_slice(), BitPos::at_byte(0), raw)?;
                Ok(s)
            },
        }
    }

    /// Reads an answer at `at` of the packet `buf`: owner name, type,
    /// class, TTL, data length and that many bytes of data, whose readable
    /// form must exist.
    pub fn deserialize(buf: &[u8], at: BitPos) -> (r: Result<(BitPos, Answer), DnsError>)
        requires
            at.wf(),
            at.index() <= bit_len(buf@),
        ensures
            match r {
                Ok((p, a)) => p.wf() && p.index() <= bit_len(buf@) && a.wf() && answer_at(buf@, at.index()) == Ok::<
                    (int, (Seq<u8>, Qtype, Qclass, u32, u16, Seq<u8>)),
                    DnsError,
                >((p.index(), a@)),
                Err(e) => answer_at(buf@, at.index()) == Err::<
                    (int, (Seq<u8>, Qtype, Qclass, u32, u16, Seq<u8>)),
                    DnsError,
                >(e),
            },
    {
        let (p, name) = parse_name(buf, at)?;
        let (p, ty) = Qtype::deserialize(buf, p)?;
        let (p, class) = Qclass::deserialize(buf, p)?;
        let (p, ttl) = take_u32(buf, p)?;
        let (p, rdlength) = take_u16(buf, p)?;
        let (p, rddata) = take_bytes(buf, p, rdlength as usize)?;
        let a = Answer { name, ty, class, ttl, rdlength, rddata };
        let _ = a.parse_record(buf)?;
        Ok((p, a))
    }
}

} // verus!
