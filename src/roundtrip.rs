use vstd::prelude::*;
use vstd::arithmetic::div_mod::lemma_fundamental_div_mod_converse;
use vstd::utf8::{
    encode_utf8, encode_utf8_valid_utf8, is_continuation_byte, is_leading_byte_width_1,
    length_of_first_scalar, pop_first_scalar, valid_first_scalar, valid_utf8,
};
use crate::bits::{bit_at, bit_len, bits_value, bytes_at};
use crate::error::DnsError;
use crate::header::{
    flag, header_bits, header_at, lemma_header_bits_len, opcode_code, opcode_from, rcode_code,
    rcode_from, Header,
};
use crate::message::{
    answers_at, message_bits, message_of, query_header, questions_bits, questions_at, AnswerView, QuestionView,
};
use crate::question::{qclass_code, qtype_code, qtype_from, question_bits, question_at, Qclass, Qtype};
use crate::writer::{
    bytes_bits, carries, MAX_BITS, lemma_bytes_bits_len, lemma_read_back, lemma_read_back_bytes,
    lemma_to_bits_len, to_bits,
};
use vstd::arithmetic::power2::lemma2_to64;
use crate::name::{
    pointer_offset,
    join_label, label_too_long, labels, lemma_split_dots_nonempty, name_at, name_wire, nonempty,
    segs_wire, split_dots, text_name_at, DOT,
};

verus! {

/// The labels of `l` joined the way the decoder joins them.
pub open spec fn join_all(l: Seq<Seq<u8>>) -> Seq<u8>
    decreases l.len(),
{
    if l.len() == 0 {
        Seq::empty()
    } else {
        join_label(l[0], join_all(l.drop_first()))
    }
}

/// The segments of `s` with a dot between each two.
pub open spec fn sep_join(s: Seq<Seq<u8>>) -> Seq<u8>
    decreases s.len(),
{
    if s.len() <= 1 {
        if s.len() == 1 {
            s[0]
        } else {
            Seq::empty()
        }
    } else {
        sep_join(s.drop_last()) + seq![DOT] + s.last()
    }
}

/// A name with no leading, trailing or doubled dot (or the empty name).
pub open spec fn plain_name(t: Seq<u8>) -> bool {
    t.len() == 0 || forall|k: int| 0 <= k < split_dots(t).len() ==> #[trigger] split_dots(t)[k].len() > 0
}

proof fn lemma_sep_join_split(t: Seq<u8>)
    ensures
        sep_join(split_dots(t)) == t,
    decreases t.len(),
{
    if t.len() > 0 {
        let r = split_dots(t.drop_last());
        lemma_split_dots_nonempty(t.drop_last());
        lemma_sep_join_split(t.drop_last());
        if t.last() == DOT {
            assert(split_dots(t) == r.push(Seq::empty()));
            assert(r.push(Seq::<u8>::empty()).drop_last() =~= r);
            assert(sep_join(split_dots(t)) =~= t);
        } else {
            let s = r.update(r.len() - 1, r.last().push(t.last()));
            assert(split_dots(t) == s);
            if r.len() == 1 {
                assert(s.len() == 1);
                assert(sep_join(r) == r[0]);
                assert(sep_join(s) == s[0]);
                assert(s[0] == r[0].push(t.last()));
                assert(r[0] == t.drop_last());
                assert(t.drop_last().push(t.last()) =~= t);
            } else {
                assert(s.drop_last() =~= r.drop_last());
                assert(sep_join(s) == sep_join(r.drop_last()) + seq![DOT] + r.last().push(t.last()));
                assert(sep_join(r) == sep_join(r.drop_last()) + seq![DOT] + r.last());
                assert(t.drop_last().push(t.last()) =~= t);
                assert(sep_join(s) =~= sep_join(r).push(t.last()));
            }
        }
    }
}

proof fn lemma_sep_join_front(s: Seq<Seq<u8>>)
    requires
        s.len() >= 2,
    ensures
        sep_join(s) == s[0] + seq![DOT] + sep_join(s.drop_first()),
    decreases s.len(),
{
    if s.len() == 2 {
        assert(s.drop_last() =~= seq![s[0]]);
        assert(s.drop_first() =~= seq![s[1]]);
        assert(sep_join(s.drop_last()) == s[0]);
        assert(sep_join(s.drop_first()) == s[1]);
        assert(sep_join(s) =~= s[0] + seq![DOT] + sep_join(s.drop_first()));
    } else {
        lemma_sep_join_front(s.drop_last());
        assert(s.drop_last().drop_first() =~= s.drop_first().drop_last());
        assert(sep_join(s) =~= s[0] + seq![DOT] + sep_join(s.drop_first()));
    }
}

proof fn lemma_join_all_sep_join(s: Seq<Seq<u8>>)
    requires
        s.len() >= 1,
        forall|k: int| 0 <= k < s.len() ==> #[trigger] s[k].len() > 0,
    ensures
        join_all(s) == sep_join(s),
    decreases s.len(),
{
    if s.len() == 1 {
        assert(s.drop_first().len() == 0);
        assert(join_all(s.drop_first()) == Seq::<u8>::empty());
        assert(join_all(s) == s[0]);
    } else {
        assert forall|k: int| 0 <= k < s.drop_first().len() implies #[trigger] s.drop_first()[k].len() > 0 by {
            assert(s.drop_first()[k] == s[k + 1]);
        }
        lemma_join_all_sep_join(s.drop_first());
        lemma_sep_join_front(s);
        assert(s.drop_first()[0] == s[1]);
        assert(sep_join(s.drop_first()).len() > 0) by {
            if s.drop_first().len() == 1 {
            } else {
                lemma_sep_join_front(s.drop_first());
            }
        }
        assert(join_all(s) == join_label(s[0], join_all(s.drop_first())));
    }
}

proof fn lemma_nonempty_all(s: Seq<Seq<u8>>)
    requires
        forall|k: int| 0 <= k < s.len() ==> #[trigger] s[k].len() > 0,
    ensures
        nonempty(s) == s,
    decreases s.len(),
{
    if s.len() > 0 {
        lemma_nonempty_all(s.drop_last());
        assert(s.drop_last().push(s.last()) =~= s);
    }
}

proof fn lemma_nonempty_labels(s: Seq<Seq<u8>>)
    ensures
        forall|k: int| 0 <= k < nonempty(s).len() ==> (#[trigger] nonempty(s)[k]).len() > 0,
        forall|k: int| 0 <= k < nonempty(s).len() ==> exists|i: int| 0 <= i < s.len() && #[trigger] nonempty(s)[k] == s[i],
    decreases s.len(),
{
    if s.len() > 0 {
        lemma_nonempty_labels(s.drop_last());
        let d = nonempty(s.drop_last());
        assert forall|k: int| 0 <= k < nonempty(s).len() implies exists|i: int| 0 <= i < s.len() && #[trigger] nonempty(s)[k] == s[i] by {
            if k < d.len() {
                let i = choose|i: int| 0 <= i < s.drop_last().len() && d[k] == s.drop_last()[i];
                assert(nonempty(s)[k] == s[i]);
            } else {
                assert(nonempty(s)[k] == s[s.len() - 1]);
            }
        }
    }
}

/// A plain name is the decoder's joining of its own labels.
proof fn lemma_join_labels(t: Seq<u8>)
    requires
        plain_name(t),
    ensures
        join_all(labels(t)) == t,
{
    lemma_split_dots_nonempty(t);
    if t.len() == 0 {
        assert(split_dots(t) == seq![Seq::<u8>::empty()]);
        assert(split_dots(t).drop_last() =~= Seq::<Seq<u8>>::empty());
        assert(nonempty(Seq::<Seq<u8>>::empty()) == Seq::<Seq<u8>>::empty());
        assert(nonempty(split_dots(t)) == nonempty(split_dots(t).drop_last()));
        assert(labels(t) == Seq::<Seq<u8>>::empty());
    } else {
        lemma_nonempty_all(split_dots(t));
        lemma_join_all_sep_join(split_dots(t));
        lemma_sep_join_split(t);
    }
}

proof fn lemma_segs_wire_front(l: Seq<Seq<u8>>)
    requires
        l.len() >= 1,
    ensures
        segs_wire(l) == seq![l[0].len() as u8] + l[0] + segs_wire(l.drop_first()),
    decreases l.len(),
{
    if l.len() == 1 {
        assert(l.drop_last() =~= Seq::<Seq<u8>>::empty());
        assert(l.drop_first() =~= Seq::<Seq<u8>>::empty());
        assert(segs_wire(l) =~= seq![l[0].len() as u8] + l[0] + segs_wire(l.drop_first()));
    } else {
        lemma_segs_wire_front(l.drop_last());
        assert(l.drop_last().drop_first() =~= l.drop_first().drop_last());
        assert(segs_wire(l) =~= seq![l[0].len() as u8] + l[0] + segs_wire(l.drop_first()));
    }
}

/// Valid text stays valid on both sides of a dot: a dot byte is never part
/// of a longer character.
proof fn lemma_valid_split_at_dot(a: Seq<u8>, b: Seq<u8>)
    requires
        valid_utf8(a + seq![DOT] + b),
    ensures
        valid_utf8(a),
        valid_utf8(b),
    decreases a.len(),
{
    let x = a + seq![DOT] + b;
    assert(x[a.len() as int] == DOT);
    if a.len() == 0 {
        assert(x[0] == DOT);
        assert(is_leading_byte_width_1(x[0]));
        assert(pop_first_scalar(x) =~= b);
    } else {
        assert forall|i: int| 0 <= i < a.len() implies #[trigger] x[i] == a[i] by {}
        assert(valid_first_scalar(x));
        let k = length_of_first_scalar(x);
        assert(1 <= k <= 4);
        assert(k <= a.len()) by {
            if k > a.len() {
                assert(is_continuation_byte(x[a.len() as int]));
            }
        }
        assert(valid_first_scalar(a));
        assert(length_of_first_scalar(a) == k);
        assert(pop_first_scalar(x) =~= pop_first_scalar(a) + seq![DOT] + b);
        lemma_valid_split_at_dot(pop_first_scalar(a), b);
    }
}

proof fn lemma_sep_join_valid(s: Seq<Seq<u8>>)
    requires
        valid_utf8(sep_join(s)),
    ensures
        forall|k: int| 0 <= k < s.len() ==> valid_utf8(#[trigger] s[k]),
    decreases s.len(),
{
    if s.len() >= 2 {
        lemma_valid_split_at_dot(sep_join(s.drop_last()), s.last());
        lemma_sep_join_valid(s.drop_last());
        assert forall|k: int| 0 <= k < s.len() implies valid_utf8(#[trigger] s[k]) by {
            if k < s.len() - 1 {
                assert(s[k] == s.drop_last()[k]);
            }
        }
    }
}

/// Every label of valid text is valid text.
proof fn lemma_labels_valid(t: Seq<u8>)
    requires
        valid_utf8(t),
    ensures
        forall|k: int| 0 <= k < labels(t).len() ==> valid_utf8(#[trigger] labels(t)[k]),
{
    let s = split_dots(t);
    lemma_sep_join_split(t);
    lemma_sep_join_valid(s);
    lemma_nonempty_labels(s);
    assert forall|k: int| 0 <= k < labels(t).len() implies valid_utf8(#[trigger] labels(t)[k]) by {
        let i = choose|i: int| 0 <= i < s.len() && nonempty(s)[k] == s[i];
    }
}

/// Decoding the uncompressed wire form of labels `l`, laid out byte by byte
/// from bit `p` of `cur`, yields the labels joined by dots.
proof fn lemma_name_at_wire(cur: Seq<u8>, raw: Seq<u8>, p: int, l: Seq<Seq<u8>>, fuel: nat)
    requires
        0 <= p,
        p + 8 * segs_wire(l).push(0).len() <= bit_len(cur),
        forall|j: int| 0 <= j < segs_wire(l).push(0).len() ==> bits_value(cur, p + 8 * j, 8) == #[trigger] segs_wire(l).push(0)[j],
        forall|k: int| 0 <= k < l.len() ==> 1 <= #[trigger] l[k].len() <= 63,
        forall|k: int| 0 <= k < l.len() ==> valid_utf8(#[trigger] l[k]),
    ensures
        name_at(cur, p, raw, fuel) == Ok::<(Seq<u8>, int), DnsError>((join_all(l), p + 8 * segs_wire(l).push(0).len() as int)),
    decreases l.len(),
{
    let w = segs_wire(l).push(0);
    if l.len() == 0 {
        assert(w[0] == 0);
        assert(bits_value(cur, p + 8 * 0, 8) == 0);
    } else {
        lemma_segs_wire_front(l);
        let l0 = l[0];
        let n = l0.len();
        let rest = l.drop_first();
        let w2 = segs_wire(rest).push(0);
        assert(w =~= seq![n as u8] + l0 + w2);
        assert(w[0] == n as u8);
        assert(bits_value(cur, p + 8 * 0, 8) == n);
        assert forall|j: int| 0 <= j < n implies #[trigger] bytes_at(cur, p + 8, n)[j] == l0[j] by {
            assert(w[1 + j] == l0[j]);
            assert(bits_value(cur, p + 8 * (1 + j), 8) == w[1 + j]);
            assert(p + 8 * (1 + j) == p + 8 + 8 * j);
        }
        assert(bytes_at(cur, p + 8, n) =~= l0);
        let p2 = p + 8 + 8 * n;
        assert forall|j: int| 0 <= j < w2.len() implies bits_value(cur, p2 + 8 * j, 8) == #[trigger] w2[j] by {
            assert(w[1 + n + j] == w2[j]);
            assert(bits_value(cur, p + 8 * (1 + n + j), 8) == w[1 + n + j]);
            assert(p + 8 * (1 + n + j) == p2 + 8 * j);
        }
        assert forall|k: int| 0 <= k < rest.len() implies 1 <= #[trigger] rest[k].len() <= 63 && valid_utf8(rest[k]) by {
            assert(rest[k] == l[k + 1]);
        }
        assert(valid_utf8(l[0]));
        lemma_name_at_wire(cur, raw, p2, rest, fuel);
    }
}

/// The value of the eight bits of byte `j` is that byte.
pub proof fn lemma_byte_value(buf: Seq<u8>, j: int)
    requires
        0 <= j < buf.len(),
    ensures
        bits_value(buf, 8 * j, 8) == buf[j],
{
    reveal_with_fuel(bits_value, 9);
    let b = buf[j];
    assert forall|k: int| 0 <= k < 8 implies #[trigger] bit_at(buf, 8 * j + k) == ((b >> ((7 - k) as u8)) & 1u8 == 1u8) by {
        lemma_fundamental_div_mod_converse(8 * j + k, 8, j, k);
    }
    assert(b as nat == (if (b >> 7u8) & 1u8 == 1u8 { 128nat } else { 0nat }) + (if (b >> 6u8) & 1u8 == 1u8 { 64nat } else { 0nat })
        + (if (b >> 5u8) & 1u8 == 1u8 { 32nat } else { 0nat }) + (if (b >> 4u8) & 1u8 == 1u8 { 16nat } else { 0nat })
        + (if (b >> 3u8) & 1u8 == 1u8 { 8nat } else { 0nat }) + (if (b >> 2u8) & 1u8 == 1u8 { 4nat } else { 0nat })
        + (if (b >> 1u8) & 1u8 == 1u8 { 2nat } else { 0nat }) + (if (b >> 0u8) & 1u8 == 1u8 { 1nat } else { 0nat })) by {
        assert(b == (if (b >> 7u8) & 1u8 == 1u8 { 128u8 } else { 0u8 }) + (if (b >> 6u8) & 1u8 == 1u8 { 64u8 } else { 0u8 })
            + (if (b >> 5u8) & 1u8 == 1u8 { 32u8 } else { 0u8 }) + (if (b >> 4u8) & 1u8 == 1u8 { 16u8 } else { 0u8 })
            + (if (b >> 3u8) & 1u8 == 1u8 { 8u8 } else { 0u8 }) + (if (b >> 2u8) & 1u8 == 1u8 { 4u8 } else { 0u8 })
            + (if (b >> 1u8) & 1u8 == 1u8 { 2u8 } else { 0u8 }) + (if (b >> 0u8) & 1u8 == 1u8 { 1u8 } else { 0u8 })) by (bit_vector);
    }
    assert(bit_at(buf, 8 * j + 0) == ((b >> 7u8) & 1u8 == 1u8));
    assert(bit_at(buf, 8 * j + 1) == ((b >> 6u8) & 1u8 == 1u8));
    assert(bit_at(buf, 8 * j + 2) == ((b >> 5u8) & 1u8 == 1u8));
    assert(bit_at(buf, 8 * j + 3) == ((b >> 4u8) & 1u8 == 1u8));
    assert(bit_at(buf, 8 * j + 4) == ((b >> 3u8) & 1u8 == 1u8));
    assert(bit_at(buf, 8 * j + 5) == ((b >> 2u8) & 1u8 == 1u8));
    assert(bit_at(buf, 8 * j + 6) == ((b >> 1u8) & 1u8 == 1u8));
    assert(bit_at(buf, 8 * j + 7) == ((b >> 0u8) & 1u8 == 1u8));
}

/// Name round trip without compression: the wire form that `name_to_vec`
/// produces for a plain name whose labels fit, decoded from its start,
/// gives back the same text and ends after the last byte.
pub proof fn lemma_name_round_trip(t: Seq<u8>)
    requires
        plain_name(t),
        !label_too_long(t),
        valid_utf8(t),
    ensures
        text_name_at(name_wire(t), 0, name_wire(t)) == Ok::<(Seq<u8>, int), DnsError>(
            (t, 8 * name_wire(t).len() as int),
        ),
{
    let w = name_wire(t);
    let l = labels(t);
    lemma_labels_fit(t);
    assert forall|j: int| 0 <= j < w.len() implies bits_value(w, 0 + 8 * j, 8) == #[trigger] w[j] by {
        lemma_byte_value(w, j);
    }
    lemma_labels_valid(t);
    lemma_name_at_wire(w, w, 0, l, w.len() as nat);
    lemma_join_labels(t);
}

/// Every label of a name whose segments fit is 1 to 63 bytes long.
proof fn lemma_labels_fit(t: Seq<u8>)
    requires
        !label_too_long(t),
    ensures
        forall|k: int| 0 <= k < labels(t).len() ==> 1 <= #[trigger] labels(t)[k].len() <= 63,
{
    let s = split_dots(t);
    lemma_nonempty_labels(s);
    assert forall|k: int| 0 <= k < labels(t).len() implies 1 <= #[trigger] labels(t)[k].len() <= 63 by {
        let i = choose|i: int| 0 <= i < s.len() && nonempty(s)[k] == s[i];
        assert(!(s[i].len() > 63));
    }
}

/// Header round trip: a buffer that begins with a header's bits decodes,
/// from its first bit, to that same header, ending after 96 bits.
#[verifier::rlimit(60)]
pub proof fn lemma_header_round_trip(buf: Seq<u8>, h: Header, rest: Seq<bool>)
    requires
        h.wf(),
        carries(buf, header_bits(h) + rest),
    ensures
        header_at(buf, 0) == Ok::<(int, Header), DnsError>((96, h)),
{
    let b = header_bits(h) + rest;
    lemma_header_bits_len(h);
    lemma2_to64();
    lemma_to_bits_len(h.id as nat, 16);
    lemma_to_bits_len(flag(h.qr), 1);
    lemma_to_bits_len(opcode_code(h.opcode), 4);
    lemma_to_bits_len(flag(h.aa), 1);
    lemma_to_bits_len(flag(h.tc), 1);
    lemma_to_bits_len(flag(h.rd), 1);
    lemma_to_bits_len(flag(h.ra), 1);
    lemma_to_bits_len(h.z as nat, 3);
    lemma_to_bits_len(rcode_code(h.rcode), 4);
    lemma_to_bits_len(h.qdcount as nat, 16);
    lemma_to_bits_len(h.ancount as nat, 16);
    lemma_to_bits_len(h.nscount as nat, 16);
    lemma_to_bits_len(h.arcount as nat, 16);
    assert(b.subrange(0, 16) =~= to_bits(h.id as nat, 16));
    lemma_read_back(buf, b, 0, h.id as nat, 16);
    assert(b.subrange(16, 17) =~= to_bits(flag(h.qr), 1));
    lemma_read_back(buf, b, 16, flag(h.qr), 1);
    assert(b.subrange(17, 21) =~= to_bits(opcode_code(h.opcode), 4));
    lemma_read_back(buf, b, 17, opcode_code(h.opcode), 4);
    assert(b.subrange(21, 22) =~= to_bits(flag(h.aa), 1));
    lemma_read_back(buf, b, 21, flag(h.aa), 1);
    assert(b.subrange(22, 23) =~= to_bits(flag(h.tc), 1));
    lemma_read_back(buf, b, 22, flag(h.tc), 1);
    assert(b.subrange(23, 24) =~= to_bits(flag(h.rd), 1));
    lemma_read_back(buf, b, 23, flag(h.rd), 1);
    assert(b.subrange(24, 25) =~= to_bits(flag(h.ra), 1));
    lemma_read_back(buf, b, 24, flag(h.ra), 1);
    assert(b.subrange(25, 28) =~= to_bits(h.z as nat, 3));
    lemma_read_back(buf, b, 25, h.z as nat, 3);
    assert(b.subrange(28, 32) =~= to_bits(rcode_code(h.rcode), 4));
    lemma_read_back(buf, b, 28, rcode_code(h.rcode), 4);
    assert(b.subrange(32, 48) =~= to_bits(h.qdcount as nat, 16));
    lemma_read_back(buf, b, 32, h.qdcount as nat, 16);
    assert(b.subrange(48, 64) =~= to_bits(h.ancount as nat, 16));
    lemma_read_back(buf, b, 48, h.ancount as nat, 16);
    assert(b.subrange(64, 80) =~= to_bits(h.nscount as nat, 16));
    lemma_read_back(buf, b, 64, h.nscount as nat, 16);
    assert(b.subrange(80, 96) =~= to_bits(h.arcount as nat, 16));
    lemma_read_back(buf, b, 80, h.arcount as nat, 16);
    assert(opcode_from(opcode_code(h.opcode)) == Some(h.opcode));
    assert(rcode_from(rcode_code(h.rcode)) == Some(h.rcode));
    assert(header_at(buf, 0)->Ok_0.1 == h);
}

proof fn lemma_segs_wire_len(l: Seq<Seq<u8>>)
    requires
        forall|k: int| 0 <= k < l.len() ==> #[trigger] l[k].len() >= 1,
    ensures
        segs_wire(l).len() <= join_all(l).len() + 1,
    decreases l.len(),
{
    if l.len() > 0 {
        lemma_segs_wire_front(l);
        assert forall|k: int| 0 <= k < l.drop_first().len() implies #[trigger] l.drop_first()[k].len() >= 1 by {
            assert(l.drop_first()[k] == l[k + 1]);
        }
        lemma_segs_wire_len(l.drop_first());
    }
}

/// A built query whose plain name fits its labels and is at most 16 MiB
/// long fits the writer, so encoding it succeeds.
pub proof fn lemma_query_fits(id: u16, name: Seq<char>, ty: Qtype)
    requires
        plain_name(encode_utf8(name)),
        !label_too_long(encode_utf8(name)),
        encode_utf8(name).len() <= 0x0100_0000,
    ensures
        message_bits(query_header(id), seq![(encode_utf8(name), ty, Qclass::IN)]).len() <= MAX_BITS,
{
    let t = encode_utf8(name);
    let qs: Seq<QuestionView> = seq![(t, ty, Qclass::IN)];
    let w = name_wire(t);
    assert(qs.drop_last() =~= Seq::<QuestionView>::empty());
    assert(questions_bits(qs.drop_last()) == Seq::<bool>::empty());
    assert(qs.last() == (t, ty, Qclass::IN));
    lemma_header_bits_len(query_header(id));
    lemma_bytes_bits_len(w);
    lemma_to_bits_len(qtype_code(ty), 16);
    lemma_to_bits_len(qclass_code(Qclass::IN), 16);
    lemma_labels_fit(t);
    lemma_join_labels(t);
    lemma_segs_wire_len(labels(t));
}

/// Query round trip: the bytes that encoding a built query gives (a plain
/// name whose labels fit, any supported type) decode to the same header,
/// the same single question and no answer.
#[verifier::rlimit(60)]
pub proof fn lemma_query_round_trip(id: u16, name: Seq<char>, ty: Qtype, bytes: Seq<u8>)
    requires
        plain_name(encode_utf8(name)),
        !label_too_long(encode_utf8(name)),
        carries(bytes, message_bits(query_header(id), seq![(encode_utf8(name), ty, Qclass::IN)])),
        bytes.len() == (message_bits(query_header(id), seq![(encode_utf8(name), ty, Qclass::IN)]).len()
            + 7) / 8,
    ensures
        message_of(bytes) == Ok::<(Header, Seq<QuestionView>, Seq<AnswerView>), DnsError>(
            (query_header(id), seq![(encode_utf8(name), ty, Qclass::IN)], Seq::empty()),
        ),
{
    let h = query_header(id);
    let t = encode_utf8(name);
    let qs: Seq<QuestionView> = seq![(t, ty, Qclass::IN)];
    let w = name_wire(t);
    let q = question_bits(t, ty, Qclass::IN);
    let bits = message_bits(h, qs);
    encode_utf8_valid_utf8(name);
    assert(qs.drop_last() =~= Seq::<QuestionView>::empty());
    assert(questions_bits(qs.drop_last()) == Seq::<bool>::empty());
    assert(qs.last() == (t, ty, Qclass::IN));
    assert(questions_bits(qs) =~= q);
    assert(bits =~= header_bits(h) + q);
    lemma_header_bits_len(h);
    lemma_bytes_bits_len(w);
    lemma_to_bits_len(qtype_code(ty), 16);
    lemma_to_bits_len(qclass_code(Qclass::IN), 16);
    let m: int = 16 + w.len() as int;
    assert(bits.len() == 8 * m);
    lemma_fundamental_div_mod_converse(8 * m + 7, 8, m, 7);
    assert(bit_len(bytes) == bits.len());
    lemma_header_round_trip(bytes, h, q);
    let p1: int = 96 + 8 * w.len() as int;
    assert(bits.subrange(96, p1) =~= bytes_bits(w));
    lemma_read_back_bytes(bytes, bits, 96, w);
    lemma_labels_fit(t);
    lemma_labels_valid(t);
    lemma_name_at_wire(bytes, bytes, 96, labels(t), bytes.len() as nat);
    lemma_join_labels(t);
    assert(text_name_at(bytes, 96, bytes) == Ok::<(Seq<u8>, int), DnsError>((t, p1)));
    lemma2_to64();
    assert(bits.subrange(p1, p1 + 16) =~= to_bits(qtype_code(ty), 16));
    lemma_read_back(bytes, bits, p1, qtype_code(ty), 16);
    assert(qtype_from(qtype_code(ty)) == Some(ty));
    assert(bits.subrange(p1 + 16, p1 + 32) =~= to_bits(qclass_code(Qclass::IN), 16));
    lemma_read_back(bytes, bits, p1 + 16, qclass_code(Qclass::IN), 16);
    assert(question_at(bytes, 96) == Ok::<(int, Seq<u8>, Qtype, Qclass), DnsError>(
        (p1 + 32, t, ty, Qclass::IN),
    ));
    assert(questions_at(bytes, 96, 0) == Ok::<(int, Seq<QuestionView>), DnsError>((96, Seq::empty())));
    assert(Seq::<QuestionView>::empty().push((t, ty, Qclass::IN)) =~= qs);
    assert(questions_at(bytes, 96, 1) == Ok::<(int, Seq<QuestionView>), DnsError>((p1 + 32, qs)));
    assert(answers_at(bytes, p1 + 32, 0) == Ok::<(int, Seq<AnswerView>), DnsError>(
        (p1 + 32, Seq::empty()),
    ));
}

/// More pointer budget never changes a name that already decoded.
proof fn lemma_fuel_mono(cur: Seq<u8>, pos: int, raw: Seq<u8>, fuel: nat)
    requires
        name_at(cur, pos, raw, fuel) is Ok,
    ensures
        name_at(cur, pos, raw, fuel + 1) == name_at(cur, pos, raw, fuel),
    decreases fuel, bit_len(cur) - pos,
{
    if pos >= 0 && pos + 8 <= bit_len(cur) {
        let len = bits_value(cur, pos, 8);
        if len >= 192 {
            if pos + 16 <= bit_len(cur) && fuel > 0 {
                let offset = pointer_offset(bits_value(cur, pos, 16));
                lemma_fuel_mono(raw, 8 * offset, raw, (fuel - 1) as nat);
            }
        } else if len != 0 && pos + 8 + 8 * len <= bit_len(cur) {
            lemma_fuel_mono(cur, pos + 8 + 8 * len, raw, fuel);
        }
    }
}

/// Compression: when a name that starts with a pointer decodes, it decodes
/// to the text of the name at the byte offset the pointer holds, and ends
/// right after the pointer's two bytes.
pub proof fn lemma_pointer_resolves(buf: Seq<u8>, p: int)
    requires
        0 <= p,
        p + 16 <= bit_len(buf),
        bits_value(buf, p, 8) >= 192,
        text_name_at(buf, p, buf) is Ok,
    ensures
        text_name_at(buf, 8 * pointer_offset(bits_value(buf, p, 16)), buf) is Ok,
        text_name_at(buf, p, buf) == Ok::<(Seq<u8>, int), DnsError>(
            (text_name_at(buf, 8 * pointer_offset(bits_value(buf, p, 16)), buf)->Ok_0.0, p + 16),
        ),
{
    let x = 8 * pointer_offset(bits_value(buf, p, 16));
    let f = buf.len() as nat;
    assert(f > 0);
    assert(name_at(buf, x, buf, (f - 1) as nat) is Ok);
    lemma_fuel_mono(buf, x, buf, (f - 1) as nat);
}

proof fn lemma_fuel_up(cur: Seq<u8>, pos: int, raw: Seq<u8>, f0: nat, f: nat)
    requires
        f0 <= f,
        name_at(cur, pos, raw, f0) is Ok,
    ensures
        name_at(cur, pos, raw, f) == name_at(cur, pos, raw, f0),
    decreases f - f0,
{
    if f > f0 {
        lemma_fuel_up(cur, pos, raw, f0, (f - 1) as nat);
        lemma_fuel_mono(cur, pos, raw, (f - 1) as nat);
    }
}

/// Compression, from the target: when the name at the pointer's offset
/// decodes with one pointer less than the packet's budget, a name made of
/// just that pointer decodes to the same text and ends right after the
/// pointer's two bytes.
pub proof fn lemma_pointer_to_target(buf: Seq<u8>, p: int)
    requires
        0 <= p,
        p + 16 <= bit_len(buf),
        bits_value(buf, p, 8) >= 192,
        name_at(buf, 8 * pointer_offset(bits_value(buf, p, 16)), buf, (buf.len() - 1) as nat) is Ok,
    ensures
        text_name_at(buf, p, buf) == Ok::<(Seq<u8>, int), DnsError>(
            (text_name_at(buf, 8 * pointer_offset(bits_value(buf, p, 16)), buf)->Ok_0.0, p + 16),
        ),
{
    let x = 8 * pointer_offset(bits_value(buf, p, 16));
    assert(buf.len() > 0);
    lemma_fuel_mono(buf, x, buf, (buf.len() - 1) as nat);
}

/// Compression to a name that holds no pointer of its own (it decodes with
/// no pointer budget at all): the pointer decodes to that name's text, and
/// ends right after its two bytes.
pub proof fn lemma_pointer_to_plain_target(buf: Seq<u8>, p: int)
    requires
        0 <= p,
        p + 16 <= bit_len(buf),
        bits_value(buf, p, 8) >= 192,
        name_at(buf, 8 * pointer_offset(bits_value(buf, p, 16)), buf, 0) is Ok,
    ensures
        text_name_at(buf, p, buf) == Ok::<(Seq<u8>, int), DnsError>(
            (text_name_at(buf, 8 * pointer_offset(bits_value(buf, p, 16)), buf)->Ok_0.0, p + 16),
        ),
{
    let x = 8 * pointer_offset(bits_value(buf, p, 16));
    assert(buf.len() > 0);
    lemma_fuel_up(buf, x, buf, 0, (buf.len() - 1) as nat);
    lemma_pointer_to_target(buf, p);
}

} // verus!
