use vstd::prelude::*;

use crate::answer::{
    answer_at, answer_bytes, lemma_answer_round_trip, length_matches, well_formed_answer,
    write_answer, Answer, AnswerView,
};
use crate::error::DnsError;
use crate::header::{
    decode_header, encode_header, fields_fit, header_bytes, header_of, lemma_header_encode_decode,
    zero_header, Header,
};
use crate::name::{is_wire_name, lemma_decoded_name_is_wire, name_from};
use crate::question::{
    lemma_question_round_trip, question_at, question_bytes, write_question, Question, QuestionView,
};
use crate::traits::Serializable;
use crate::wire::{push_all, push_range, read_u16, read_u32};

verus! {

/// The RCODE a response carries for a request whose OPCODE is not a standard
/// query: not implemented.
pub const RCODE_NOT_IMPLEMENTED: u8 = 4;

/// The time to live of a synthesized answer, in seconds.
pub const SYNTHESIZED_TTL: u32 = 40;

/// A DNS message: header, questions and answers, and the raw bytes it was
/// parsed from (names in them may point back into those bytes).
#[derive(Debug)]
pub struct Message {
    pub bytes: Vec<u8>,
    pub header: Header,
    pub questions: Vec<Question>,
    pub answers: Vec<Answer>,
}

/// What a [`Message`] holds, its raw bytes aside.
pub struct MessageView {
    pub header: Header,
    pub questions: Seq<QuestionView>,
    pub answers: Seq<AnswerView>,
}

pub open spec fn questions_view(qs: Seq<Question>) -> Seq<QuestionView> {
    qs.map_values(|q: Question| q@)
}

pub open spec fn answers_view(ans: Seq<Answer>) -> Seq<AnswerView> {
    ans.map_values(|a: Answer| a@)
}

impl View for Message {
    type V = MessageView;

    open spec fn view(&self) -> MessageView {
        MessageView {
            header: self.header,
            questions: questions_view(self.questions@),
            answers: answers_view(self.answers@),
        }
    }
}

/// `count` questions, one after another from `pos` of `buf`, and the offset just
/// past the last.
pub open spec fn questions_at(buf: Seq<u8>, pos: int, count: nat) -> Option<
    (Seq<QuestionView>, int),
>
    decreases count,
{
    if count == 0 {
        Some((Seq::empty(), pos))
    } else {
        match questions_at(buf, pos, (count - 1) as nat) {
            Some((qs, e)) => match question_at(buf, e) {
                Some((q, e2)) => Some((qs.push(q), e2)),
                None => None,
            },
            None => None,
        }
    }
}

/// `count` answer records, one after another from `pos` of `buf`, and the
/// offset just past the last.
pub open spec fn answers_at(buf: Seq<u8>, pos: int, count: nat) -> Option<(Seq<AnswerView>, int)>
    decreases count,
{
    if count == 0 {
        Some((Seq::empty(), pos))
    } else {
        match answers_at(buf, pos, (count - 1) as nat) {
            Some((ans, e)) => match answer_at(buf, e) {
                Some((a, e2)) => Some((ans.push(a), e2)),
                None => None,
            },
            None => None,
        }
    }
}

/// The header a parsed request keeps: RCODE set to "not implemented" where the
/// OPCODE is not a standard query.
pub open spec fn checked_opcode(h: Header) -> Header {
    if h.OPCODE != 0 {
        Header { RCODE: RCODE_NOT_IMPLEMENTED, ..h }
    } else {
        h
    }
}

/// The message that `buf` holds: the header, QDCOUNT questions from offset 12,
/// then ANCOUNT answers right after them; `None` where any of it is truncated or
/// malformed.
pub open spec fn message_of(buf: Seq<u8>) -> Option<MessageView> {
    if buf.len() < 12 {
        None
    } else {
        let h = header_of(buf);
        match questions_at(buf, 12, h.QDCOUNT as nat) {
            Some((qs, e)) => match answers_at(buf, e, h.ANCOUNT as nat) {
                Some((ans, _)) => Some(
                    MessageView { header: checked_opcode(h), questions: qs, answers: ans },
                ),
                None => None,
            },
            None => None,
        }
    }
}

/// The answer synthesized for a question: same name, type and class, a TTL of
/// 40 seconds and the RDATA `8.8.8.8`.
pub open spec fn synthesized(q: QuestionView) -> AnswerView {
    AnswerView {
        name: q.name,
        q_type: q.q_type,
        q_class: q.q_class,
        ttl: SYNTHESIZED_TTL,
        length: 4,
        data: seq![8u8, 8u8, 8u8, 8u8],
    }
}

/// The questions' wire forms, one after another.
pub open spec fn questions_bytes(qs: Seq<QuestionView>) -> Seq<u8>
    decreases qs.len(),
{
    if qs.len() == 0 {
        Seq::empty()
    } else {
        questions_bytes(qs.drop_last()) + question_bytes(qs.last())
    }
}

/// The answers' wire forms, one after another.
pub open spec fn answers_bytes(ans: Seq<AnswerView>) -> Seq<u8>
    decreases ans.len(),
{
    if ans.len() == 0 {
        Seq::empty()
    } else {
        answers_bytes(ans.drop_last()) + answer_bytes(ans.last())
    }
}

/// Every answer's RDATA length field agrees with its RDATA.
pub open spec fn all_lengths_match(ans: Seq<AnswerView>) -> bool {
    forall|i: int| 0 <= i < ans.len() ==> length_matches(#[trigger] ans[i])
}

/// QDCOUNT and ANCOUNT count the questions and answers present.
pub open spec fn counts_match(m: MessageView) -> bool {
    m.header.QDCOUNT == m.questions.len() && m.header.ANCOUNT == m.answers.len()
}

/// The wire form of a message: header, questions, answers, every field written
/// as it stands.
pub open spec fn message_bytes(m: MessageView) -> Seq<u8> {
    header_bytes(m.header) + questions_bytes(m.questions) + answers_bytes(m.answers)
}

/// Once decoding a run of questions fails, decoding a longer run fails too.
proof fn lemma_questions_fail_on(buf: Seq<u8>, pos: int, k: nat, n: nat)
    requires
        k <= n,
        questions_at(buf, pos, k) is None,
    ensures
        questions_at(buf, pos, n) is None,
    decreases n - k,
{
    if k < n {
        lemma_questions_fail_on(buf, pos, k + 1, n);
    }
}

/// Once decoding a run of answers fails, decoding a longer run fails too.
proof fn lemma_answers_fail_on(buf: Seq<u8>, pos: int, k: nat, n: nat)
    requires
        k <= n,
        answers_at(buf, pos, k) is None,
    ensures
        answers_at(buf, pos, n) is None,
    decreases n - k,
{
    if k < n {
        lemma_answers_fail_on(buf, pos, k + 1, n);
    }
}

impl Default for Message {
    fn default() -> (m: Message)
        ensures
            m.bytes@.len() == 0,
            m.header == zero_header(),
            m.questions@.len() == 0,
            m.answers@.len() == 0,
    {
        Message {
            bytes: Vec::new(),
            header: Header::default(),
            questions: Vec::new(),
            answers: Vec::new(),
        }
    }
}

} // verus!

verus! {

impl Message {
    /// Decodes the name that begins at `offset` of the message bytes, following
    /// compression pointers; returns its uncompressed wire bytes and the offset
    /// just past it.
    pub fn parse_name(&self, offset: usize) -> (r: Result<(Vec<u8>, usize), DnsError>)
        ensures
            match crate::name::name_from(self.bytes@, offset as int) {
                Some((n, e)) => r matches Ok((v, end)) && v@ == n && end == e,
                None => r matches Err(DnsError::Parse(_)),
            },
    {
        crate::name::parse_name(&self.bytes, offset)
    }

    /// Decodes the header at the start of the message bytes.
    pub fn parse_header(&mut self) -> (r: Result<Header, DnsError>)
        ensures
            *final(self) == *old(self),
            old(self).bytes@.len() < 12 ==> r matches Err(DnsError::Parse(_)),
            old(self).bytes@.len() >= 12 ==> r == Ok::<Header, DnsError>(
                header_of(old(self).bytes@),
            ),
    {
        if self.bytes.len() < 12 {
            return Err(DnsError::parse("Header size must be at least 12 bytes"));
        }
        Ok(decode_header(&self.bytes))
    }

    /// Decodes the question that begins at `offset` of the message bytes;
    /// returns it and the offset just past it.
    pub fn parse_question(&mut self, offset: usize) -> (r: Result<(Question, usize), DnsError>)
        ensures
            *final(self) == *old(self),
            match question_at(old(self).bytes@, offset as int) {
                Some((q, e)) => r matches Ok((v, end)) && v@ == q && end == e,
                None => r matches Err(DnsError::Parse(_)),
            },
    {
        self.question_from(offset)
    }

    fn question_from(&self, offset: usize) -> (r: Result<(Question, usize), DnsError>)
        ensures
            match question_at(self.bytes@, offset as int) {
                Some((q, e)) => r matches Ok((v, end)) && v@ == q && end == e,
                None => r matches Err(DnsError::Parse(_)),
            },
    {
        let (name, pos) = match crate::name::parse_name(&self.bytes, offset) {
            Ok(found) => found,
            Err(e) => {
                return Err(e);
            },
        };
        if self.bytes.len() < 4 || pos > self.bytes.len() - 4 {
            return Err(DnsError::parse("Not enough bytes for QTYPE/QCLASS"));
        }
        let q_type = read_u16(&self.bytes, pos);
        let q_class = read_u16(&self.bytes, pos + 2);
        Ok((Question { name, q_type, q_class }, pos + 4))
    }

    /// Decodes the answer record that begins at `offset` of the message bytes;
    /// returns it and the offset just past it.
    pub fn parse_answer(&mut self, offset: usize) -> (r: Result<(Answer, usize), DnsError>)
        ensures
            *final(self) == *old(self),
            match answer_at(old(self).bytes@, offset as int) {
                Some((a, e)) => r matches Ok((v, end)) && v@ == a && end == e,
                None => r matches Err(DnsError::Parse(_)),
            },
    {
        self.answer_from(offset)
    }

    fn answer_from(&self, offset: usize) -> (r: Result<(Answer, usize), DnsError>)
        ensures
            match answer_at(self.bytes@, offset as int) {
                Some((a, e)) => r matches Ok((v, end)) && v@ == a && end == e,
                None => r matches Err(DnsError::Parse(_)),
            },
    {
        let (name, pos) = match crate::name::parse_name(&self.bytes, offset) {
            Ok(found) => found,
            Err(e) => {
                return Err(e);
            },
        };
        let len = self.bytes.len();
        if len < 10 || pos > len - 10 {
            return Err(DnsError::parse("Not enough bytes to parse answer header"));
        }
        let q_type = read_u16(&self.bytes, pos);
        let q_class = read_u16(&self.bytes, pos + 2);
        let ttl = read_u32(&self.bytes, pos + 4);
        let rdlength = read_u16(&self.bytes, pos + 8);
        let start = pos + 10;
        if rdlength as usize > len - start {
            return Err(DnsError::parse("Not enough bytes for RDATA"));
        }
        let end = start + rdlength as usize;
        let mut data: Vec<u8> = Vec::new();
        push_range(&mut data, &self.bytes, start, end);
        Ok((Answer { name, q_type, q_class, TTL: ttl, Length: rdlength, Data: data }, end))
    }

    /// Decodes `count` questions one after another from `offset`; returns them
    /// and the offset just past the last.
    fn questions_from(&self, offset: usize, count: u16) -> (r: Result<
        (Vec<Question>, usize),
        DnsError,
    >)
        ensures
            match questions_at(self.bytes@, offset as int, count as nat) {
                Some((qs, e)) => r matches Ok((v, end)) && questions_view(v@) == qs && end == e,
                None => r matches Err(DnsError::Parse(_)),
            },
    {
        let mut questions: Vec<Question> = Vec::new();
        let mut pos = offset;
        let mut i: u16 = 0;
        while i < count
            invariant
                i <= count,
                questions_at(self.bytes@, offset as int, i as nat) == Some(
                    (questions_view(questions@), pos as int),
                ),
            decreases count - i,
        {
            match self.question_from(pos) {
                Ok((q, next)) => {
                    let ghost before = questions@;
                    questions.push(q);
                    assert(questions_view(questions@) =~= questions_view(before).push(q@));
                    pos = next;
                },
                Err(e) => {
                    proof {
                        lemma_questions_fail_on(
                            self.bytes@,
                            offset as int,
                            (i + 1) as nat,
                            count as nat,
                        );
                    }
                    return Err(e);
                },
            }
            i = i + 1;
        }
        Ok((questions, pos))
    }

    /// Decodes `count` answer records one after another from `offset`; returns
    /// them and the offset just past the last.
    fn answers_from(&self, offset: usize, count: u16) -> (r: Result<
        (Vec<Answer>, usize),
        DnsError,
    >)
        ensures
            match answers_at(self.bytes@, offset as int, count as nat) {
                Some((ans, e)) => r matches Ok((v, end)) && answers_view(v@) == ans && end == e,
                None => r matches Err(DnsError::Parse(_)),
            },
    {
        let mut answers: Vec<Answer> = Vec::new();
        let mut pos = offset;
        let mut i: u16 = 0;
        while i < count
            invariant
                i <= count,
                answers_at(self.bytes@, offset as int, i as nat) == Some(
                    (answers_view(answers@), pos as int),
                ),
            decreases count - i,
        {
            match self.answer_from(pos) {
                Ok((a, next)) => {
                    let ghost before = answers@;
                    answers.push(a);
                    assert(answers_view(answers@) =~= answers_view(before).push(a@));
                    pos = next;
                },
                Err(e) => {
                    proof {
                        lemma_answers_fail_on(
                            self.bytes@,
                            offset as int,
                            (i + 1) as nat,
                            count as nat,
                        );
                    }
                    return Err(e);
                },
            }
            i = i + 1;
        }
        Ok((answers, pos))
    }

    /// Decodes QDCOUNT questions from offset 12 of the message bytes.
    pub fn parse_questions(&mut self) -> (r: Result<Vec<Question>, DnsError>)
        ensures
            *final(self) == *old(self),
            match questions_at(old(self).bytes@, 12, old(self).header.QDCOUNT as nat) {
                Some((qs, _)) => r matches Ok(v) && questions_view(v@) == qs,
                None => r matches Err(DnsError::Parse(_)),
            },
    {
        match self.questions_from(12, self.header.QDCOUNT) {
            Ok((questions, _)) => Ok(questions),
            Err(e) => Err(e),
        }
    }

    /// Decodes the ANCOUNT answer records that follow the QDCOUNT questions
    /// from offset 12 of the message bytes.
    pub fn parse_remote_answers(&mut self) -> (r: Result<Vec<Answer>, DnsError>)
        ensures
            *final(self) == *old(self),
            match questions_at(old(self).bytes@, 12, old(self).header.QDCOUNT as nat) {
                Some((_, e)) => match answers_at(
                    old(self).bytes@,
                    e,
                    old(self).header.ANCOUNT as nat,
                ) {
                    Some((ans, _)) => r matches Ok(v) && answers_view(v@) == ans,
                    None => r matches Err(DnsError::Parse(_)),
                },
                None => r matches Err(DnsError::Parse(_)),
            },
    {
        let pos = match self.questions_from(12, self.header.QDCOUNT) {
            Ok((_, pos)) => pos,
            Err(e) => {
                return Err(e);
            },
        };
        match self.answers_from(pos, self.header.ANCOUNT) {
            Ok((answers, _)) => Ok(answers),
            Err(e) => Err(e),
        }
    }

    /// Parses a whole packet into this message: the header, QDCOUNT questions
    /// from offset 12, then ANCOUNT answers after them, and keeps the packet in
    /// `bytes`. Where the OPCODE is not a standard query, RCODE becomes "not
    /// implemented". Where ANCOUNT is 0 the answers the message held are kept.
    /// On failure the message is left as it was.
    pub fn parse_message(&mut self, bytes: &[u8]) -> (r: Result<(), DnsError>)
        ensures
            match message_of(bytes@) {
                Some(m) => {
                    &&& r is Ok
                    &&& final(self).bytes@ == bytes@
                    &&& final(self)@.header == m.header
                    &&& final(self)@.questions == m.questions
                    &&& final(self)@.answers == if header_of(bytes@).ANCOUNT == 0 {
                        old(self)@.answers
                    } else {
                        m.answers
                    }
                },
                None => r matches Err(DnsError::Parse(_)) && *final(self) == *old(self),
            },
    {
        let mut copy: Vec<u8> = Vec::new();
        push_all(&mut copy, bytes);
        let mut parsed = Message {
            bytes: copy,
            header: Header::default(),
            questions: Vec::new(),
            answers: Vec::new(),
        };
        let mut header = match parsed.parse_header() {
            Ok(h) => h,
            Err(e) => {
                return Err(e);
            },
        };
        let (questions, pos) = match parsed.questions_from(12, header.QDCOUNT) {
            Ok(found) => found,
            Err(e) => {
                return Err(e);
            },
        };
        if header.OPCODE != 0 {
            header.RCODE = RCODE_NOT_IMPLEMENTED;
        }
        let (answers, _) = match parsed.answers_from(pos, header.ANCOUNT) {
            Ok(found) => found,
            Err(e) => {
                return Err(e);
            },
        };
        self.bytes = parsed.bytes;
        self.header = header;
        self.questions = questions;
        if header.ANCOUNT > 0 {
            self.answers = answers;
        }
        Ok(())
    }
}

} // verus!

verus! {

/// The answer synthesized for `q`; see [`synthesized`].
pub fn synthesize_answer(q: &Question) -> (a: Answer)
    ensures
        a@ == synthesized(q@),
{
    let mut name: Vec<u8> = Vec::new();
    push_all(&mut name, &q.name);
    let data: Vec<u8> = vec![8u8, 8u8, 8u8, 8u8];
    assert(name@ =~= q.name@);
    assert(data@ =~= seq![8u8, 8u8, 8u8, 8u8]);
    Answer {
        name,
        q_type: q.q_type,
        q_class: q.q_class,
        TTL: SYNTHESIZED_TTL,
        Length: 4,
        Data: data,
    }
}

impl Message {
    /// One synthesized answer per question, in question order; never fails.
    pub fn parse_answers(&mut self) -> (r: Result<Vec<Answer>, DnsError>)
        ensures
            *final(self) == *old(self),
            r matches Ok(v) && answers_view(v@) == old(self)@.questions.map_values(
                |q: QuestionView| synthesized(q),
            ),
    {
        let mut answers: Vec<Answer> = Vec::new();
        let mut i: usize = 0;
        while i < self.questions.len()
            invariant
                i <= self.questions@.len(),
                answers_view(answers@) =~= self@.questions.take(i as int).map_values(
                    |q: QuestionView| synthesized(q),
                ),
            decreases self.questions@.len() - i,
        {
            let a = synthesize_answer(&self.questions[i]);
            let ghost before = answers@;
            answers.push(a);
            assert(answers_view(answers@) =~= answers_view(before).push(a@));
            assert(self@.questions[i as int] == self.questions@[i as int]@);
            i = i + 1;
            assert(answers_view(answers@) =~= self@.questions.take(i as int).map_values(
                |q: QuestionView| synthesized(q),
            ));
        }
        assert(self@.questions.take(i as int) =~= self@.questions);
        Ok(answers)
    }

    /// The wire forms of the questions, one after another; never fails.
    pub fn create_questions_as_array_of_bytes(&mut self) -> (r: Result<Vec<u8>, DnsError>)
        ensures
            *final(self) == *old(self),
            r matches Ok(b) && b@ == questions_bytes(old(self)@.questions),
    {
        let mut bytes: Vec<u8> = Vec::new();
        let mut i: usize = 0;
        while i < self.questions.len()
            invariant
                i <= self.questions@.len(),
                bytes@ == questions_bytes(self@.questions.take(i as int)),
            decreases self.questions@.len() - i,
        {
            write_question(&mut bytes, &self.questions[i]);
            assert(self@.questions.take(i + 1).drop_last() =~= self@.questions.take(i as int));
            i = i + 1;
        }
        assert(self@.questions.take(i as int) =~= self@.questions);
        Ok(bytes)
    }

    /// The wire forms of the answers, one after another, each `Length` field
    /// written as it stands; never fails.
    pub fn create_answers_as_array_of_bytes(&mut self) -> (r: Result<Vec<u8>, DnsError>)
        ensures
            *final(self) == *old(self),
            r matches Ok(b) && b@ == answers_bytes(old(self)@.answers),
    {
        let mut bytes: Vec<u8> = Vec::new();
        let mut i: usize = 0;
        while i < self.answers.len()
            invariant
                i <= self.answers@.len(),
                bytes@ == answers_bytes(self@.answers.take(i as int)),
            decreases self.answers@.len() - i,
        {
            write_answer(&mut bytes, &self.answers[i]);
            assert(self@.answers.take(i + 1).drop_last() =~= self@.answers.take(i as int));
            i = i + 1;
        }
        assert(self@.answers.take(i as int) =~= self@.answers);
        Ok(bytes)
    }

    /// The whole message in wire form: header, questions, answers, the counts
    /// written as they stand (keeping them equal to the records present is the
    /// builder's part); never fails.
    pub fn create_response_bytes(&mut self) -> (r: Result<Vec<u8>, DnsError>)
        ensures
            *final(self) == *old(self),
            r matches Ok(v) && v@ == message_bytes(old(self)@),
    {
        let header_bytes = encode_header(&self.header);
        let question_bytes = match self.create_questions_as_array_of_bytes() {
            Ok(b) => b,
            Err(e) => {
                return Err(e);
            },
        };
        let answer_bytes = match self.create_answers_as_array_of_bytes() {
            Ok(b) => b,
            Err(e) => {
                return Err(e);
            },
        };
        let mut combined: Vec<u8> = Vec::new();
        push_all(&mut combined, &header_bytes);
        push_all(&mut combined, &question_bytes);
        push_all(&mut combined, &answer_bytes);
        Ok(combined)
    }
}

impl Serializable for Message {
    open spec fn encoding(&self) -> Seq<u8> {
        message_bytes(self@)
    }

    fn serialize(&mut self) -> (r: Result<Vec<u8>, DnsError>) {
        self.create_response_bytes()
    }
}

} // verus!

verus! {

/// A run of questions that decodes holds exactly as many as were asked for.
pub proof fn lemma_questions_count(buf: Seq<u8>, pos: int, count: nat)
    ensures
        match questions_at(buf, pos, count) {
            Some((qs, _)) => qs.len() == count,
            None => true,
        },
    decreases count,
{
    if count > 0 {
        lemma_questions_count(buf, pos, (count - 1) as nat);
    }
}

} // verus!

verus! {

/// Truncated input is rejected rather than read past its end: a packet shorter
/// than a header does not parse, nor does a name whose label length byte claims
/// more bytes than remain, nor one that ends in the first byte of a pointer.
pub proof fn lemma_truncated_input_rejected(buf: Seq<u8>, hops: nat, pos: int)
    ensures
        buf.len() < 12 ==> message_of(buf) is None,
        0 <= pos < buf.len() && 1 <= buf[pos] <= crate::name::MAX_LABEL_LEN && pos + 1
            + buf[pos] > buf.len() ==> crate::name::name_at(buf, hops, pos) is None,
        0 <= pos && pos + 1 == buf.len() && buf[pos] >= 0xC0 ==> crate::name::name_at(
            buf,
            hops,
            pos,
        ) is None,
{
}

} // verus!

verus! {

/// Every name among the questions and answers is in uncompressed wire form.
pub open spec fn names_are_wire(m: MessageView) -> bool {
    &&& forall|i: int| 0 <= i < m.questions.len() ==> is_wire_name(#[trigger] m.questions[i].name)
    &&& forall|i: int| 0 <= i < m.answers.len() ==> is_wire_name(#[trigger] m.answers[i].name)
}

/// The questions' wire forms, written at `pos`, decode back to the same
/// questions.
proof fn lemma_questions_round_trip(qs: Seq<QuestionView>, buf: Seq<u8>, pos: int)
    requires
        forall|i: int| 0 <= i < qs.len() ==> is_wire_name(#[trigger] qs[i].name),
        0 <= pos,
        pos + questions_bytes(qs).len() <= buf.len(),
        buf.subrange(pos, pos + questions_bytes(qs).len()) == questions_bytes(qs),
    ensures
        questions_at(buf, pos, qs.len()) == Some((qs, pos + questions_bytes(qs).len())),
    decreases qs.len(),
{
    if qs.len() == 0 {
        assert(qs =~= Seq::<QuestionView>::empty());
    } else {
        let init = qs.drop_last();
        let ib = questions_bytes(init);
        let lb = question_bytes(qs.last());
        let all = questions_bytes(qs);
        assert(all == ib + lb);
        assert forall|k: int| 0 <= k < all.len() implies buf[pos + k] == all[k] by {
            assert(buf.subrange(pos, pos + all.len())[k] == buf[pos + k]);
        }
        assert(all.subrange(0, ib.len() as int) =~= ib);
        assert(buf.subrange(pos, pos + ib.len()) =~= all.subrange(0, ib.len() as int));
        assert(forall|i: int| 0 <= i < init.len() ==> init[i] == qs[i]);
        lemma_questions_round_trip(init, buf, pos);
        assert(buf.subrange(pos + ib.len(), pos + all.len()) =~= all.subrange(
            ib.len() as int,
            all.len() as int,
        ));
        assert(all.subrange(ib.len() as int, all.len() as int) =~= lb);
        assert(is_wire_name(qs[qs.len() - 1].name));
        lemma_question_round_trip(qs.last(), buf, pos + ib.len());
        assert(init.push(qs.last()) =~= qs);
    }
}

/// The answers' wire forms, written at `pos`, decode back to the same answers.
proof fn lemma_answers_round_trip(ans: Seq<AnswerView>, buf: Seq<u8>, pos: int)
    requires
        forall|i: int| 0 <= i < ans.len() ==> is_wire_name(#[trigger] ans[i].name),
        all_lengths_match(ans),
        0 <= pos,
        pos + answers_bytes(ans).len() <= buf.len(),
        buf.subrange(pos, pos + answers_bytes(ans).len()) == answers_bytes(ans),
    ensures
        answers_at(buf, pos, ans.len()) == Some((ans, pos + answers_bytes(ans).len())),
    decreases ans.len(),
{
    if ans.len() == 0 {
        assert(ans =~= Seq::<AnswerView>::empty());
    } else {
        let init = ans.drop_last();
        let ib = answers_bytes(init);
        let lb = answer_bytes(ans.last());
        let all = answers_bytes(ans);
        assert(all == ib + lb);
        assert forall|k: int| 0 <= k < all.len() implies buf[pos + k] == all[k] by {
            assert(buf.subrange(pos, pos + all.len())[k] == buf[pos + k]);
        }
        assert(all.subrange(0, ib.len() as int) =~= ib);
        assert(buf.subrange(pos, pos + ib.len()) =~= all.subrange(0, ib.len() as int));
        assert(forall|i: int| 0 <= i < init.len() ==> init[i] == ans[i]);
        lemma_answers_round_trip(init, buf, pos);
        assert(buf.subrange(pos + ib.len(), pos + all.len()) =~= all.subrange(
            ib.len() as int,
            all.len() as int,
        ));
        assert(all.subrange(ib.len() as int, all.len() as int) =~= lb);
        assert(is_wire_name(ans[ans.len() - 1].name));
        assert(length_matches(ans[ans.len() - 1]));
        lemma_answer_round_trip(ans.last(), buf, pos + ib.len());
        assert(init.push(ans.last()) =~= ans);
    }
}

/// A message written in wire form parses back to the same questions and
/// answers and the same header, where its counts match its records, its RDATA
/// length fields match their RDATA, its names are uncompressed and its header
/// fields fit their widths; but for an OPCODE other than a standard query, whose
/// RCODE parsing sets to "not implemented".
pub proof fn lemma_message_round_trip(m: MessageView)
    requires
        counts_match(m),
        all_lengths_match(m.answers),
        names_are_wire(m),
        fields_fit(m.header),
    ensures
        message_of(message_bytes(m)) == Some(
            MessageView { header: checked_opcode(m.header), questions: m.questions, answers: m.answers },
        ),
        m.header.OPCODE == 0 ==> message_of(message_bytes(m)) == Some(m),
{
    let hb = header_bytes(m.header);
    let qb = questions_bytes(m.questions);
    let ab = answers_bytes(m.answers);
    let b = hb + qb + ab;
    assert(hb.len() == 12);
    assert(header_of(b) == header_of(hb)) by {
        assert(forall|i: int| 0 <= i < 12 ==> b[i] == hb[i]);
    }
    lemma_header_encode_decode(m.header);
    let q_end = 12 + qb.len() as int;
    assert(b.subrange(12, q_end) =~= qb);
    lemma_questions_round_trip(m.questions, b, 12);
    assert(b.subrange(q_end, q_end + ab.len()) =~= ab);
    lemma_answers_round_trip(m.answers, b, q_end);
}

} // verus!

verus! {

/// Every question of a run that decodes has an uncompressed name.
pub proof fn lemma_decoded_questions_are_wire(buf: Seq<u8>, pos: int, count: nat)
    ensures
        match questions_at(buf, pos, count) {
            Some((qs, _)) => forall|i: int| 0 <= i < qs.len() ==> is_wire_name(#[trigger] qs[i].name),
            None => true,
        },
    decreases count,
{
    if count > 0 {
        lemma_decoded_questions_are_wire(buf, pos, (count - 1) as nat);
        match questions_at(buf, pos, (count - 1) as nat) {
            Some((qs, e)) => {
                if name_from(buf, e) is Some {
                    lemma_decoded_name_is_wire(buf, buf.len(), e);
                }
            },
            None => {},
        }
    }
}

/// Every answer of a run that decodes has an uncompressed name and an RDATA
/// length field that agrees with its RDATA.
pub proof fn lemma_decoded_answers_are_well_formed(buf: Seq<u8>, pos: int, count: nat)
    ensures
        match answers_at(buf, pos, count) {
            Some((ans, _)) => forall|i: int|
                0 <= i < ans.len() ==> well_formed_answer(#[trigger] ans[i]),
            None => true,
        },
    decreases count,
{
    if count > 0 {
        lemma_decoded_answers_are_well_formed(buf, pos, (count - 1) as nat);
        match answers_at(buf, pos, (count - 1) as nat) {
            Some((ans, e)) => {
                if name_from(buf, e) is Some {
                    lemma_decoded_name_is_wire(buf, buf.len(), e);
                }
            },
            None => {},
        }
    }
}

/// The header fields that a decoding reads always fit their widths.
pub proof fn lemma_decoded_header_fits(b: Seq<u8>)
    requires
        b.len() >= 12,
    ensures
        fields_fit(header_of(b)),
{
    let x = b[2];
    let y = b[3];
    assert((x & 0x80) >> 7u8 < 2 && (x & 0x78) >> 3u8 < 16 && (x & 0x04) >> 2u8 < 2 && (x & 0x02)
        >> 1u8 < 2 && x & 0x01 < 2) by (bit_vector);
    assert((y & 0x80) >> 7u8 < 2 && (y & 0x70) >> 4u8 < 8 && y & 0x0F < 16) by (bit_vector);
}

} // verus!
