use vstd::prelude::*;
use vstd::slice::slice_to_vec;
use vstd::utf8::{
    encode_utf8, is_leading_byte_width_1, length_of_first_scalar, pop_first_scalar,
    valid_first_scalar, valid_utf8,
};
use crate::bits::{bit_len, bits_value, bytes_at, take_bytes, take_u16, take_u8, BitPos};
use crate::error::DnsError;

verus! {

/// The byte of the `.` that separates labels.
pub const DOT: u8 = 46;

/// Appends the already decoded remainder `rest` of a name to the label
/// `label`, with a dot between them unless the remainder is empty.
pub open spec fn join_label(label: Seq<u8>, rest: Seq<u8>) -> Seq<u8> {
    if rest.len() == 0 {
        label
    } else {
        label + seq![DOT] + rest
    }
}

/// The byte offset that a compression pointer's 16-bit value holds: its
/// low 14 bits.
pub open spec fn pointer_offset(v: nat) -> int {
    (v as u16 & 0x3fffu16) as int
}

/// Decodes the name whose first length byte is at bit `pos` of `cur`; a
/// compression pointer continues it at a byte offset of the whole packet
/// `raw`. The result is the dotted text as bytes and the bit position after
/// the name in `cur` (after its terminator or its pointer). Every pointer
/// followed costs one unit of `fuel`; when none is left the name is refused.
pub open spec fn name_at(cur: Seq<u8>, pos: int, raw: Seq<u8>, fuel: nat) -> Result<
    (Seq<u8>, int),
    DnsError,
>
    decreases fuel, bit_len(cur) - pos,
{
    if pos < 0 || pos + 8 > bit_len(cur) {
        Err(DnsError::UnexpectedEndOfBuffer)
    } else {
        let len = bits_value(cur, pos, 8);
        if len >= 192 {
            if pos + 16 > bit_len(cur) {
                Err(DnsError::UnexpectedEndOfBuffer)
            } else if fuel == 0 {
                Err(DnsError::PointerLoop)
            } else {
                let offset = pointer_offset(bits_value(cur, pos, 16));
                match name_at(raw, 8 * offset, raw, (fuel - 1) as nat) {
                    Ok((text, _)) => Ok((text, pos + 16)),
                    Err(e) => Err(e),
                }
            }
        } else if len == 0 {
            Ok((Seq::empty(), pos + 8))
        } else if pos + 8 + 8 * len > bit_len(cur) {
            Err(DnsError::UnexpectedEndOfBuffer)
        } else if !valid_utf8(bytes_at(cur, pos + 8, len)) {
            Err(DnsError::MalformedText)
        } else {
            match name_at(cur, pos + 8 + 8 * len, raw, fuel) {
                Ok((rest, end)) => Ok((join_label(bytes_at(cur, pos + 8, len), rest), end)),
                Err(e) => Err(e),
            }
        }
    }
}

/// Decodes the name at bit `pos` of `cur` against the packet `raw`. A
/// name may follow at most as many pointers as the packet has bytes; only
/// a pointer cycle needs more.
pub open spec fn text_name_at(cur: Seq<u8>, pos: int, raw: Seq<u8>) -> Result<(Seq<u8>, int), DnsError> {
    name_at(cur, pos, raw, raw.len())
}

/// Two valid texts joined by a dot are valid text.
pub proof fn lemma_valid_join_dot(a: Seq<u8>, b: Seq<u8>)
    requires
        valid_utf8(a),
        valid_utf8(b),
    ensures
        valid_utf8(a + seq![DOT] + b),
    decreases a.len(),
{
    let x = a + seq![DOT] + b;
    if a.len() == 0 {
        let c = x[0];
        assert(c == DOT);
        assert((c & 0x7f) <= 0x7f) by (bit_vector);
        assert(is_leading_byte_width_1(c));
        assert(valid_first_scalar(x));
        assert(pop_first_scalar(x) =~= b);
    } else {
        assert forall|i: int| 0 <= i < a.len() implies #[trigger] x[i] == a[i] by {}
        assert(valid_first_scalar(a));
        let k = length_of_first_scalar(a);
        assert(1 <= k <= a.len());
        assert(valid_first_scalar(x));
        assert(length_of_first_scalar(x) == k);
        assert(pop_first_scalar(x) =~= pop_first_scalar(a) + seq![DOT] + b);
        lemma_valid_join_dot(pop_first_scalar(a), b);
    }
}

/// A decoded name is valid text: each of its labels was.
pub proof fn lemma_name_valid(cur: Seq<u8>, pos: int, raw: Seq<u8>, fuel: nat)
    requires
        name_at(cur, pos, raw, fuel) is Ok,
    ensures
        valid_utf8(name_at(cur, pos, raw, fuel)->Ok_0.0),
    decreases fuel, bit_len(cur) - pos,
{
    let len = bits_value(cur, pos, 8);
    if len >= 192 {
        lemma_name_valid(raw, 8 * pointer_offset(bits_value(cur, pos, 16)), raw, (fuel - 1) as nat);
    } else if len == 0 {
        assert(valid_utf8(Seq::<u8>::empty()));
    } else {
        let next = pos + 8 + 8 * len;
        lemma_name_valid(cur, next, raw, fuel);
        let rest = name_at(cur, next, raw, fuel)->Ok_0.0;
        if rest.len() > 0 {
            lemma_valid_join_dot(bytes_at(cur, pos + 8, len), rest);
        }
    }
}

/// Relies on `String::from_utf8`: it accepts exactly the valid UTF-8 byte
/// sequences and returns the string whose bytes they are.
#[verifier::external_body]
pub(crate) fn string_from_utf8(b: Vec<u8>) -> (r: Option<String>)
    ensures
        match r {
            Some(s) => valid_utf8(b@) && encode_utf8(s@) == b@,
            None => !valid_utf8(b@),
        },
{
    String::from_utf8(b).ok()
}

/// The byte offset that a compression pointer holds: the low 14 bits of
/// its two bytes.
pub fn get_deref_ptr(ptr: u16) -> (r: usize)
    ensures
        r == pointer_offset(ptr as nat),
        r < 0x4000,
{
    assert(ptr & 0x3fffu16 < 0x4000) by (bit_vector);
    (ptr & 0x3fff) as usize
}

fn read_name(cur: &[u8], at: BitPos, raw: &[u8], fuel: usize) -> (r: Result<(BitPos, Vec<u8>), DnsError>)
    requires
        at.wf(),
        at.index() <= bit_len(cur@),
    ensures
        match r {
            Ok((p, t)) => p.wf() && p.index() <= bit_len(cur@) && name_at(cur@, at.index(), raw@, fuel as nat) == Ok::<
                (Seq<u8>, int),
                DnsError,
            >((t@, p.index())),
            Err(e) => name_at(cur@, at.index(), raw@, fuel as nat) == Err::<
                (Seq<u8>, int),
                DnsError,
            >(e),
        },
    decreases fuel, bit_len(cur@) - at.index(),
{
    let (p1, len) = take_u8(cur, at)?;
    if len >= 192 {
        let (p2, w) = take_u16(cur, at)?;
        if fuel == 0 {
            return Err(DnsError::PointerLoop);
        }
        let offset = get_deref_ptr(w);
        if offset > raw.len() {
            assert(name_at(raw@, 8 * offset, raw@, (fuel - 1) as nat) == Err::<(Seq<u8>, int), DnsError>(
                DnsError::UnexpectedEndOfBuffer,
            ));
            return Err(DnsError::UnexpectedEndOfBuffer);
        }
        let (_, text) = read_name(raw, BitPos::at_byte(offset), raw, fuel - 1)?;
        Ok((p2, text))
    } else if len == 0 {
        Ok((p1, Vec::new()))
    } else {
        let (p2, raw_label) = take_bytes(cur, p1, len as usize)?;
        let label = match string_from_utf8(raw_label) {
            Some(s) => slice_to_vec(s.as_str().as_bytes()),
            None => {
                return Err(DnsError::MalformedText);
            },
        };
        let (p3, rest) = read_name(cur, p2, raw, fuel)?;
        let mut text = label;
        if rest.len() > 0 {
            let mut tail = rest;
            text.push(DOT);
            text.append(&mut tail);
        }
        proof {
            assert(text@ =~= join_label(bytes_at(cur@, at.index() + 8, len as nat), rest@));
        }
        Ok((p3, text))
    }
}

/// Decodes the name that starts at `at` in `cur`; compression pointers are
/// byte offsets into the whole packet `raw`.
pub fn parse_name_in(cur: &[u8], at: BitPos, raw: &[u8]) -> (r: Result<(BitPos, String), DnsError>)
    requires
        at.wf(),
        at.index() <= bit_len(cur@),
    ensures
        match r {
            Ok((p, s)) => p.wf() && p.index() <= bit_len(cur@) && text_name_at(cur@, at.index(), raw@) == Ok::<
                (Seq<u8>, int),
                DnsError,
            >((encode_utf8(s@), p.index())),
            Err(e) => text_name_at(cur@, at.index(), raw@) == Err::<(Seq<u8>, int), DnsError>(e),
        },
{
    let (p, text) = read_name(cur, at, raw, raw.len())?;
    proof {
        lemma_name_valid(cur@, at.index(), raw@, raw@.len());
    }
    match string_from_utf8(text) {
        Some(s) => Ok((p, s)),
        None => Err(DnsError::MalformedText),
    }
}

/// Decodes the name that starts at `at` in the packet `buf`.
pub fn parse_name(buf: &[u8], at: BitPos) -> (r: Result<(BitPos, String), DnsError>)
    requires
        at.wf(),
        at.index() <= bit_len(buf@),
    ensures
        match r {
            Ok((p, s)) => p.wf() && p.index() <= bit_len(buf@) && text_name_at(buf@, at.index(), buf@) == Ok::<
                (Seq<u8>, int),
                DnsError,
            >((encode_utf8(s@), p.index())),
            Err(e) => text_name_at(buf@, at.index(), buf@) == Err::<(Seq<u8>, int), DnsError>(e),
        },
{
    parse_name_in(buf, at, buf)
}

/// The dot-separated segments of a text, empty ones included: one more
/// than the number of dots.
pub open spec fn split_dots(t: Seq<u8>) -> Seq<Seq<u8>>
    decreases t.len(),
{
    if t.len() == 0 {
        seq![Seq::empty()]
    } else {
        let r = split_dots(t.drop_last());
        if t.last() == DOT {
            r.push(Seq::empty())
        } else {
            r.update(r.len() - 1, r.last().push(t.last()))
        }
    }
}

/// The non-empty sequences among `s`, in order.
pub open spec fn nonempty(s: Seq<Seq<u8>>) -> Seq<Seq<u8>>
    decreases s.len(),
{
    if s.len() == 0 {
        Seq::empty()
    } else if s.last().len() > 0 {
        nonempty(s.drop_last()).push(s.last())
    } else {
        nonempty(s.drop_last())
    }
}

/// The labels of a dotted name: its non-empty segments.
pub open spec fn labels(t: Seq<u8>) -> Seq<Seq<u8>> {
    nonempty(split_dots(t))
}

/// Each label as a length byte followed by its bytes.
pub open spec fn segs_wire(l: Seq<Seq<u8>>) -> Seq<u8>
    decreases l.len(),
{
    if l.len() == 0 {
        Seq::empty()
    } else {
        segs_wire(l.drop_last()) + seq![l.last().len() as u8] + l.last()
    }
}

/// The uncompressed wire form of a dotted name: its labels, each after its
/// length byte, then a zero byte.
pub open spec fn name_wire(t: Seq<u8>) -> Seq<u8> {
    segs_wire(labels(t)).push(0)
}

/// Some segment of the name is longer than a label may be (63 bytes).
pub open spec fn label_too_long(t: Seq<u8>) -> bool {
    exists|k: int| 0 <= k < split_dots(t).len() && #[trigger] split_dots(t)[k].len() > 63
}

pub proof fn lemma_split_dots_nonempty(t: Seq<u8>)
    ensures
        split_dots(t).len() >= 1,
    decreases t.len(),
{
    if t.len() > 0 {
        lemma_split_dots_nonempty(t.drop_last());
    }
}

/// Encodes a dotted name without compression. Empty segments (from a
/// leading, trailing or doubled dot) are skipped; a segment longer than 63
/// bytes is refused.
pub fn name_to_vec(value: &str) -> (r: Result<Vec<u8>, DnsError>)
    ensures
        match r {
            Ok(w) => !label_too_long(encode_utf8(value@)) && w@ == name_wire(encode_utf8(value@)),
            Err(e) => label_too_long(encode_utf8(value@)) && e == DnsError::LabelTooLong,
        },
{
    let b = value.as_bytes();
    let ghost t = b@;
    let mut out: Vec<u8> = Vec::new();
    let mut cur: Vec<u8> = Vec::new();
    let mut too_long = false;
    let mut i: usize = 0;
    while i < b.len()
        invariant
            i <= b@.len(),
            t == b@,
            split_dots(t.subrange(0, i as int)).len() >= 1,
            cur@ == split_dots(t.subrange(0, i as int)).last(),
            too_long == exists|k: int|
                0 <= k < split_dots(t.subrange(0, i as int)).len() - 1
                    && #[trigger] split_dots(t.subrange(0, i as int))[k].len() > 63,
            !too_long ==> out@ == segs_wire(nonempty(split_dots(t.subrange(0, i as int)).drop_last())),
        decreases b@.len() - i,
    {
        let ghost s0 = split_dots(t.subrange(0, i as int));
        let ghost c0 = cur@;
        let ghost tl0 = too_long;
        let c = b[i];
        assert(t.subrange(0, i + 1).drop_last() =~= t.subrange(0, i as int));
        if c == DOT {
            if cur.len() > 63 {
                too_long = true;
            } else if cur.len() > 0 {
                out.push(cur.len() as u8);
                out.extend_from_slice(cur.as_slice());
            }
            cur = Vec::new();
            proof {
                let s1 = split_dots(t.subrange(0, i + 1));
                let d0 = nonempty(s0.drop_last());
                assert(s1 == s0.push(Seq::empty()));
                assert(s1.drop_last() =~= s0);
                assert(s0.drop_last().push(c0) =~= s0);
                if !too_long {
                    if c0.len() > 0 {
                        assert(nonempty(s0) == d0.push(c0));
                        assert(d0.push(c0).drop_last() =~= d0);
                        assert(segs_wire(d0.push(c0)) == segs_wire(d0) + seq![c0.len() as u8] + c0);
                    } else {
                        assert(nonempty(s0) == d0);
                    }
                    assert(out@ =~= segs_wire(nonempty(s1.drop_last())));
                }
                if too_long {
                    if tl0 {
                        let k = choose|k: int| 0 <= k < s0.len() - 1 && #[trigger] s0[k].len() > 63;
                        assert(s1[k] == s0[k]);
                    } else {
                        assert(s1[s0.len() - 1] == c0);
                    }
                }
                assert forall|k: int| 0 <= k < s1.len() - 1 && #[trigger] s1[k].len() > 63 implies too_long by {
                    assert(s1[k] == s0[k]);
                    if k < s0.len() - 1 {
                    } else {
                        assert(s0[k] == c0);
                    }
                }
            }
        } else {
            cur.push(c);
            proof {
                let s1 = split_dots(t.subrange(0, i + 1));
                assert(s1 == s0.update(s0.len() - 1, s0.last().push(c)));
                assert(s1.drop_last() =~= s0.drop_last());
                assert forall|k: int| 0 <= k < s1.len() - 1 implies #[trigger] s1[k] == s0[k] by {}
                if tl0 {
                    let k = choose|k: int| 0 <= k < s0.len() - 1 && #[trigger] s0[k].len() > 63;
                    assert(s1[k] == s0[k]);
                }
                assert forall|k: int| 0 <= k < s1.len() - 1 && #[trigger] s1[k].len() > 63 implies tl0 by {
                    assert(s1[k] == s0[k]);
                }
            }
        }
        i = i + 1;
    }
    assert(t.subrange(0, i as int) =~= t);
    let ghost s = split_dots(t);
    proof {
        assert(s =~= s.drop_last().push(s.last()));
    }
    if cur.len() > 63 {
        assert(s[s.len() - 1].len() > 63);
        return Err(DnsError::LabelTooLong);
    }
    if too_long {
        return Err(DnsError::LabelTooLong);
    }
    if cur.len() > 0 {
        out.push(cur.len() as u8);
        out.extend_from_slice(cur.as_slice());
    }
    out.push(0);
    proof {
        let d = nonempty(s.drop_last());
        if cur@.len() > 0 {
            assert(nonempty(s) == d.push(cur@));
            assert(d.push(cur@).drop_last() =~= d);
            assert(segs_wire(d.push(cur@)) == segs_wire(d) + seq![cur@.len() as u8] + cur@);
        } else {
            assert(nonempty(s) == d);
        }
        assert(out@ =~= name_wire(t));
        assert forall|k: int| 0 <= k < s.len() implies #[trigger] s[k].len() <= 63 by {
            if k < s.len() - 1 {
            }
        }
    }
    Ok(out)
}

} // verus!
