use vstd::prelude::*;
use vstd::utf8::encode_utf8;
use crate::answer::{answer_at, Answer};
use crate::bits::{bit_len, BitPos};
use crate::error::DnsError;
use crate::header::{header_bits, header_at, lemma_header_bits_len, Header};
use crate::name::label_too_long;
use crate::question::{qtype_named, question_bits, question_at, Qclass, Qtype, Question};
use crate::writer::{carries, BitWriter, MAX_BITS};

verus! {

/// A question as the codec sees it: name text bytes, type, class.
pub type QuestionView = (Seq<u8>, Qtype, Qclass);

/// An answer as the codec sees it: owner name text bytes, type, class,
/// TTL, data length, data.
pub type AnswerView = (Seq<u8>, Qtype, Qclass, u32, u16, Seq<u8>);

/// What decoding `n` questions in a row from bit `at` yields.
pub open spec fn questions_at(buf: Seq<u8>, at: int, n: nat) -> Result<(int, Seq<QuestionView>), DnsError>
    decreases n,
{
    if n == 0 {
        Ok((at, Seq::empty()))
    } else {
        match questions_at(buf, at, (n - 1) as nat) {
            Err(e) => Err(e),
            Ok((p, qs)) => match question_at(buf, p) {
                Err(e) => Err(e),
                Ok((p2, name, t, c)) => Ok((p2, qs.push((name, t, c)))),
            },
        }
    }
}

/// What decoding `n` answers in a row from bit `at` yields.
pub open spec fn answers_at(buf: Seq<u8>, at: int, n: nat) -> Result<(int, Seq<AnswerView>), DnsError>
    decreases n,
{
    if n == 0 {
        Ok((at, Seq::empty()))
    } else {
        match answers_at(buf, at, (n - 1) as nat) {
            Err(e) => Err(e),
            Ok((p, ans)) => match answer_at(buf, p) {
                Err(e) => Err(e),
                Ok((p2, a)) => Ok((p2, ans.push(a))),
            },
        }
    }
}

/// What decoding a whole packet yields: the header, then exactly as many
/// questions and answers as it declares. Bytes left over are a count
/// mismatch unless the header declares authority or additional records,
/// which this codec does not read.
pub open spec fn message_of(buf: Seq<u8>) -> Result<(Header, Seq<QuestionView>, Seq<AnswerView>), DnsError> {
    match header_at(buf, 0) {
        Err(e) => Err(e),
        Ok((p, h)) => match questions_at(buf, p, h.qdcount as nat) {
            Err(e) => Err(e),
            Ok((p2, qs)) => match answers_at(buf, p2, h.ancount as nat) {
                Err(e) => Err(e),
                Ok((p3, ans)) => if p3 < bit_len(buf) && h.nscount == 0 && h.arcount == 0 {
                    Err(DnsError::CountMismatch)
                } else {
                    Ok((h, qs, ans))
                },
            },
        },
    }
}

/// The header of a query built for transaction `id`: recursion desired,
/// one question, everything else as in a fresh header.
pub open spec fn query_header(id: u16) -> Header {
    Header { id, rd: true, qdcount: 1, ..Header::fresh() }
}

/// The bits of a sequence of questions, one after another.
pub open spec fn questions_bits(qs: Seq<QuestionView>) -> Seq<bool>
    decreases qs.len(),
{
    if qs.len() == 0 {
        Seq::empty()
    } else {
        questions_bits(qs.drop_last()) + question_bits(qs.last().0, qs.last().1, qs.last().2)
    }
}

/// The bits of a message that holds no answer: header, then questions.
pub open spec fn message_bits(h: Header, qs: Seq<QuestionView>) -> Seq<bool> {
    header_bits(h) + questions_bits(qs)
}

proof fn lemma_questions_err(buf: Seq<u8>, at: int, k: nat, n: nat)
    requires
        k <= n,
        questions_at(buf, at, k) is Err,
    ensures
        questions_at(buf, at, n) == questions_at(buf, at, k),
    decreases n,
{
    if n > k {
        lemma_questions_err(buf, at, k, (n - 1) as nat);
    }
}

proof fn lemma_answers_err(buf: Seq<u8>, at: int, k: nat, n: nat)
    requires
        k <= n,
        answers_at(buf, at, k) is Err,
    ensures
        answers_at(buf, at, n) == answers_at(buf, at, k),
    decreases n,
{
    if n > k {
        lemma_answers_err(buf, at, k, (n - 1) as nat);
    }
}

proof fn lemma_questions_bits_prefix(qs: Seq<QuestionView>, j: int)
    requires
        0 <= j <= qs.len(),
    ensures
        questions_bits(qs.subrange(0, j)).len() <= questions_bits(qs).len(),
    decreases qs.len(),
{
    if j < qs.len() {
        assert(qs.drop_last().subrange(0, j) =~= qs.subrange(0, j));
        lemma_questions_bits_prefix(qs.drop_last(), j);
    } else {
        assert(qs.subrange(0, j) =~= qs);
    }
}

/// Reads `n` questions in a row from `at`.
fn read_questions(data: &[u8], at: BitPos, n: u16) -> (r: Result<(BitPos, Vec<Question>), DnsError>)
    requires
        at.wf(),
        at.index() <= bit_len(data@),
    ensures
        match r {
            Ok((p, qs)) => p.wf() && p.index() <= bit_len(data@) && qs@.len() == n && questions_at(
                data@,
                at.index(),
                n as nat,
            ) == Ok::<(int, Seq<QuestionView>), DnsError>(
                (p.index(), qs@.map_values(|q: Question| q@)),
            ),
            Err(e) => questions_at(data@, at.index(), n as nat) == Err::<
                (int, Seq<QuestionView>),
                DnsError,
            >(e),
        },
{
    let mut p = at;
    let mut questions: Vec<Question> = Vec::new();
    let mut i: u16 = 0;
    assert(questions@.map_values(|q: Question| q@) =~= Seq::<QuestionView>::empty());
    while i < n
        invariant
            p.wf(),
            p.index() <= bit_len(data@),
            i <= n,
            questions@.len() == i,
            questions_at(data@, at.index(), i as nat) == Ok::<(int, Seq<QuestionView>), DnsError>(
                (p.index(), questions@.map_values(|q: Question| q@)),
            ),
        decreases n - i,
    {
        let ghost before = questions@.map_values(|q: Question| q@);
        match Question::deserialize(data, p) {
            Ok((p2, q)) => {
                let ghost qv = q@;
                questions.push(q);
                assert(questions@.map_values(|q: Question| q@) =~= before.push(qv));
                p = p2;
                i = i + 1;
            },
            Err(e) => {
                proof {
                    lemma_questions_err(data@, at.index(), (i + 1) as nat, n as nat);
                }
                return Err(e);
            },
        }
    }
    Ok((p, questions))
}

/// Reads `n` answers in a row from `at`.
fn read_answers(data: &[u8], at: BitPos, n: u16) -> (r: Result<(BitPos, Vec<Answer>), DnsError>)
    requires
        at.wf(),
        at.index() <= bit_len(data@),
    ensures
        match r {
            Ok((p, ans)) => p.wf() && p.index() <= bit_len(data@) && ans@.len() == n && answers_at(
                data@,
                at.index(),
                n as nat,
            ) == Ok::<(int, Seq<AnswerView>), DnsError>(
                (p.index(), ans@.map_values(|a: Answer| a@)),
            ),
            Err(e) => answers_at(data@, at.index(), n as nat) == Err::<
                (int, Seq<AnswerView>),
                DnsError,
            >(e),
        },
{
    let mut p = at;
    let mut answers: Vec<Answer> = Vec::new();
    let mut i: u16 = 0;
    assert(answers@.map_values(|a: Answer| a@) =~= Seq::<AnswerView>::empty());
    while i < n
        invariant
            p.wf(),
            p.index() <= bit_len(data@),
            i <= n,
            answers@.len() == i,
            answers_at(data@, at.index(), i as nat) == Ok::<(int, Seq<AnswerView>), DnsError>(
                (p.index(), answers@.map_values(|a: Answer| a@)),
            ),
        decreases n - i,
    {
        let ghost before = answers@.map_values(|a: Answer| a@);
        match Answer::deserialize(data, p) {
            Ok((p2, a)) => {
                let ghost av = a@;
                answers.push(a);
                assert(answers@.map_values(|a: Answer| a@) =~= before.push(av));
                p = p2;
                i = i + 1;
            },
            Err(e) => {
                proof {
                    lemma_answers_err(data@, at.index(), (i + 1) as nat, n as nat);
                }
                return Err(e);
            },
        }
    }
    Ok((p, answers))
}

/// A DNS message: header, questions, answers.
#[derive(Debug)]
pub struct Message {
    pub header: Header,
    pub questions: Vec<Question>,
    pub answers: Vec<Answer>,
}

impl Message {
    /// The header's question and answer counts match the records held.
    pub open spec fn wf(&self) -> bool {
        &&& self.header.qdcount == self.questions@.len()
        &&& self.header.ancount == self.answers@.len()
    }

    pub open spec fn question_views(&self) -> Seq<QuestionView> {
        self.questions@.map_values(|q: Question| q@)
    }

    pub open spec fn answer_views(&self) -> Seq<AnswerView> {
        self.answers@.map_values(|a: Answer| a@)
    }

    /// An empty message: a fresh header and no records.
    pub fn new() -> (r: Message)
        ensures
            r.wf(),
            r.header == Header::fresh(),
            r.questions@.len() == 0,
            r.answers@.len() == 0,
    {
        Message { header: Header::new(), questions: Vec::new(), answers: Vec::new() }
    }

    /// Decodes a whole packet.
    pub fn deserialize(data: &[u8]) -> (r: Result<Message, DnsError>)
        ensures
            match r {
                Ok(m) => m.wf() && message_of(data@) == Ok::<
                    (Header, Seq<QuestionView>, Seq<AnswerView>),
                    DnsError,
                >((m.header, m.question_views(), m.answer_views())),
                Err(e) => message_of(data@) == Err::<
                    (Header, Seq<QuestionView>, Seq<AnswerView>),
                    DnsError,
                >(e),
            },
    {
        let (p, header) = Header::deserialize(data, BitPos::at_byte(0))?;
        let (p, questions) = read_questions(data, p, header.qdcount)?;
        let (p, answers) = read_answers(data, p, header.ancount)?;
        if p.byte < data.len() && header.nscount == 0 && header.arcount == 0 {
            return Err(DnsError::CountMismatch);
        }
        Ok(Message { header, questions, answers })
    }

    /// Encodes the message: header, then each question with its name
    /// uncompressed. A message that holds an answer is not encoded.
    pub fn serialize(&self) -> (r: Result<Vec<u8>, DnsError>)
        ensures
            r matches Ok(b) ==> {
                &&& self.answers@.len() == 0
                &&& self.wf()
                &&& b@.len() == (message_bits(self.header, self.question_views()).len() + 7) / 8
                &&& carries(b@, message_bits(self.header, self.question_views()))
            },
            r matches Err(e) ==> (self.answers@.len() > 0 <==> e == DnsError::AnswerEncodingUnsupported),
            r matches Err(e) ==> (e == DnsError::LabelTooLong ==> exists|k: int|
                0 <= k < self.questions@.len() && label_too_long(
                    #[trigger] self.question_views()[k].0,
                )),
            r matches Err(e) ==> (e == DnsError::MessageTooLong ==> message_bits(
                self.header,
                self.question_views(),
            ).len() > MAX_BITS),
            r matches Err(e) ==> (e == DnsError::AnswerEncodingUnsupported || e
                == DnsError::CountMismatch || e == DnsError::LabelTooLong || e
                == DnsError::MessageTooLong),
            self.answers@.len() == 0 && !self.wf() ==> r == Err::<Vec<u8>, DnsError>(
                DnsError::CountMismatch,
            ),
            self.answers@.len() == 0 && self.wf() && message_bits(self.header, self.question_views()).len()
                <= MAX_BITS && (forall|k: int|
                0 <= k < self.questions@.len() ==> !label_too_long(
                    #[trigger] self.question_views()[k].0,
                )) ==> r is Ok,
    {
        if self.answers.len() > 0 {
            return Err(DnsError::AnswerEncodingUnsupported);
        }
        if self.header.qdcount as usize != self.questions.len() || self.header.ancount != 0 {
            return Err(DnsError::CountMismatch);
        }
        let ghost qs = self.question_views();
        let mut w = BitWriter::new();
        self.header.serialize(&mut w);
        let mut i: usize = 0;
        while i < self.questions.len()
            invariant
                i <= self.questions@.len(),
                self.answers@.len() == 0,
                self.wf(),
                qs == self.question_views(),
                w.view() == header_bits(self.header) + questions_bits(qs.subrange(0, i as int)),
            decreases self.questions@.len() - i,
        {
            proof {
                lemma_questions_bits_prefix(qs, i + 1);
                assert(qs.subrange(0, i + 1).drop_last() =~= qs.subrange(0, i as int));
            }
            match self.questions[i].serialize(&mut w) {
                Ok(()) => {},
                Err(e) => {
                    proof {
                        let qi = qs[i as int];
                        assert(self.questions@[i as int]@ == qi);
                        assert(qs.subrange(0, i + 1).last() == qi);
                        lemma_header_bits_len(self.header);
                        if e == DnsError::LabelTooLong {
                            assert(label_too_long(self.question_views()[i as int].0));
                        } else {
                            let pre = qs.subrange(0, i as int);
                            let pre1 = qs.subrange(0, i + 1);
                            assert(questions_bits(pre1) == questions_bits(pre) + question_bits(qi.0, qi.1, qi.2));
                            assert(w.view().len() == 96 + questions_bits(pre).len());
                            assert(questions_bits(pre1).len() <= questions_bits(qs).len());
                            assert(message_bits(self.header, qs).len() == 96 + questions_bits(qs).len());
                        }
                    }
                    return Err(e);
                },
            }
            i = i + 1;
            assert(w.view() =~= header_bits(self.header) + questions_bits(qs.subrange(0, i as int)));
        }
        assert(qs.subrange(0, i as int) =~= qs);
        Ok(w.into_bytes())
    }

    /// A query for `url` of the type named `ty` (`A` or `CNAME`, in any
    /// letter case), class IN, with recursion desired and transaction id
    /// `id`. An unknown type name is `UnknownTypeName`.
    pub fn build(id: u16, url: &str, ty: &str) -> (r: Result<Message, DnsError>)
        ensures
            match r {
                Ok(m) => {
                    &&& m.header == query_header(id)
                    &&& m.question_views() == seq![
                        (encode_utf8(url@), qtype_named(encode_utf8(ty@))->Some_0, Qclass::IN),
                    ]
                    &&& qtype_named(encode_utf8(ty@)) is Some
                    &&& m.answers@.len() == 0
                    &&& m.wf()
                },
                Err(e) => qtype_named(encode_utf8(ty@)) is None && e == DnsError::UnknownTypeName,
            },
    {
        let qtype = Qtype::from_name(ty)?;
        let mut header = Header::new();
        header.id = id;
        header.rd = true;
        header.qdcount = 1;
        let question = Question { qname: url.to_owned(), qtype, qclass: Qclass::IN };
        let mut message = Message::new();
        message.header = header;
        message.questions.push(question);
        assert(message.question_views() =~= seq![
            (encode_utf8(url@), qtype_named(encode_utf8(ty@))->Some_0, Qclass::IN),
        ]);
        Ok(message)
    }
}

} // verus!
