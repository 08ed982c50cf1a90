use vstd::prelude::*;

use crate::answer::{copy_answer, length_matches, well_formed_answer, Answer, AnswerView};
use crate::error::DnsError;
use crate::header::{header_bytes, header_of, zero_header, Header};
use crate::message::{
    all_lengths_match, answers_view, checked_opcode, lemma_decoded_answers_are_well_formed,
    lemma_decoded_header_fits, lemma_decoded_questions_are_wire, lemma_message_round_trip,
    lemma_questions_count, message_bytes, message_of, names_are_wire, questions_at, synthesized,
    Message, MessageView,
};
use crate::name::is_wire_name;
use crate::question::{copy_question, question_bytes, Question, QuestionView};

verus! {

/// What the server does with a request packet.
pub enum Step {
    /// Send these bytes back to the client.
    Reply(Vec<u8>),
    /// Resolve each question of this parsed request upstream, then build the
    /// response with [`finish_forwarded`].
    Forward(Message),
    /// Send nothing: the request holds no question.
    Ignore,
}

/// The response to a request answered locally: QR set, one synthesized answer
/// per question, ANCOUNT equal to QDCOUNT.
pub open spec fn local_reply(m: MessageView) -> MessageView {
    MessageView {
        header: Header { QR: 1, ANCOUNT: m.header.QDCOUNT, ..m.header },
        questions: m.questions,
        answers: m.questions.map_values(|q: QuestionView| synthesized(q)),
    }
}

/// The answers of the resolutions that succeeded, in the order given.
pub open spec fn successes(rs: Seq<Result<Answer, DnsError>>) -> Seq<AnswerView>
    decreases rs.len(),
{
    if rs.len() == 0 {
        Seq::empty()
    } else {
        let before = successes(rs.drop_last());
        match rs.last() {
            Ok(a) => before.push(a@),
            Err(_) => before,
        }
    }
}

/// The response to a forwarded request: QR set, the given answers, ANCOUNT
/// their number.
pub open spec fn forwarded_reply(m: MessageView, answers: Seq<AnswerView>) -> MessageView {
    MessageView {
        header: Header { QR: 1, ANCOUNT: answers.len() as u16, ..m.header },
        questions: m.questions,
        answers,
    }
}

/// The header of a query sent upstream: the given ID, RD set, one question,
/// everything else zero.
pub open spec fn query_header(id: u16) -> Header {
    Header { ID: id, RD: 1, QDCOUNT: 1, ..zero_header() }
}

/// A query upstream for one question.
pub open spec fn query_view(q: QuestionView, id: u16) -> MessageView {
    MessageView { header: query_header(id), questions: seq![q], answers: Seq::empty() }
}

/// The wire form of a query upstream for one question.
pub open spec fn query_bytes(q: QuestionView, id: u16) -> Seq<u8> {
    header_bytes(query_header(id)) + question_bytes(q)
}

/// Relies on `rand::random`: a 16-bit value drawn from the thread-local
/// generator; nothing is promised of it.
#[verifier::external_body]
fn random_id() -> (r: u16) {
    rand::random::<u16>()
}

/// Decides what to do with a request packet. A packet that does not parse
/// gets no response (the parse error is returned); one without questions gets
/// none either. When forwarding, the parsed request is handed back to be
/// resolved upstream; otherwise every question gets a synthesized answer and
/// the response bytes are returned.
pub fn handle_request(packet: &[u8], forwarding: bool) -> (r: Result<Step, DnsError>)
    ensures
        match message_of(packet@) {
            None => r matches Err(DnsError::Parse(_)),
            Some(m) => if m.questions.len() == 0 {
                r matches Ok(Step::Ignore)
            } else if forwarding {
                r matches Ok(Step::Forward(msg)) && msg@ == m && msg.bytes@ == packet@
            } else {
                r matches Ok(Step::Reply(v)) && v@ == message_bytes(local_reply(m))
            },
        },
{
    let mut msg = Message::default();
    match msg.parse_message(packet) {
        Ok(()) => {},
        Err(e) => {
            return Err(e);
        },
    }
    proof {
        let m = message_of(packet@)->Some_0;
        assert(msg@.answers =~= m.answers);
        assert(msg@ == m);
    }
    if msg.questions.len() == 0 {
        return Ok(Step::Ignore);
    }
    if forwarding {
        return Ok(Step::Forward(msg));
    }
    proof {
        lemma_questions_count(packet@, 12, msg.header.QDCOUNT as nat);
    }
    let ghost parsed = msg@;
    msg.header.QR = 1;
    msg.header.ANCOUNT = msg.header.QDCOUNT;
    let answers = match msg.parse_answers() {
        Ok(a) => a,
        Err(e) => {
            return Err(e);
        },
    };
    msg.answers = answers;
    assert(msg@.answers =~= local_reply(parsed).answers);
    assert(msg@ == local_reply(parsed));
    match msg.create_response_bytes() {
        Ok(bytes) => Ok(Step::Reply(bytes)),
        Err(e) => Err(e),
    }
}

/// Builds the response to a forwarded request from the outcomes of resolving its
/// questions: the answers of the resolutions that succeeded, in the order given
/// (the order of the questions, where each outcome stands at its question's
/// index); failures contribute nothing. QR is set and ANCOUNT counts the answers.
pub fn finish_forwarded(
    request: Message,
    results: Vec<Result<Answer, DnsError>>,
) -> (r: Result<Vec<u8>, DnsError>)
    ensures
        r matches Ok(v) && v@ == message_bytes(forwarded_reply(request@, successes(results@))),
{
    let mut msg = request;
    let mut answers: Vec<Answer> = Vec::new();
    let mut i: usize = 0;
    while i < results.len()
        invariant
            i <= results@.len(),
            answers_view(answers@) == successes(results@.take(i as int)),
        decreases results@.len() - i,
    {
        assert(results@.take(i + 1).drop_last() =~= results@.take(i as int));
        match &results[i] {
            Ok(a) => {
                let ghost before = answers@;
                answers.push(copy_answer(a));
                assert(answers_view(answers@) =~= answers_view(before).push(a@));
            },
            Err(_) => {},
        }
        i = i + 1;
    }
    assert(results@.take(i as int) =~= results@);
    let ghost request_view = msg@;
    msg.header.QR = 1;
    msg.header.ANCOUNT = answers.len() as u16;
    msg.answers = answers;
    assert(msg@ == forwarded_reply(request_view, successes(results@)));
    msg.create_response_bytes()
}

/// The query sent upstream for one question, with transaction ID `id`.
pub fn build_query(question: &Question, id: u16) -> (m: Message)
    ensures
        m@ == query_view(question@, id),
        m.bytes@.len() == 0,
{
    let mut m = Message::default();
    m.header.ID = id;
    m.header.RD = 1;
    m.header.QDCOUNT = 1;
    m.questions.push(copy_question(question));
    assert(m@.questions =~= seq![question@]);
    assert(m@.answers =~= Seq::<AnswerView>::empty());
    m
}

/// The wire form of the query sent upstream for one question, with transaction
/// ID `id`.
pub fn query_packet(question: &Question, id: u16) -> (r: Vec<u8>)
    ensures
        r@ == query_bytes(question@, id),
{
    let mut m = build_query(question, id);
    assert(m@.questions.drop_last() =~= Seq::<QuestionView>::empty());
    assert(m@.questions.last() == question@);
    assert(crate::message::questions_bytes(Seq::<QuestionView>::empty()) =~= Seq::<u8>::empty());
    assert(crate::message::questions_bytes(m@.questions) =~= question_bytes(question@));
    assert(crate::message::answers_bytes(m@.answers) =~= Seq::<u8>::empty());
    match m.create_response_bytes() {
        Ok(bytes) => {
            assert(bytes@ =~= query_bytes(question@, id));
            bytes
        },
        // Not taken: writing a message never fails.
        Err(_) => Vec::new(),
    }
}

/// The wire form of a query upstream for one question, with a random
/// transaction ID.
pub fn new_query_packet(question: &Question) -> (r: Vec<u8>)
    ensures
        exists|id: u16| r@ == query_bytes(question@, id),
{
    let id = random_id();
    query_packet(question, id)
}

/// The answer an upstream reply gives: its first answer record; the others are
/// dropped. Fails with a parse error where the reply does not parse, and with a
/// resolution error where it holds no answer.
pub fn answer_from_reply(reply: &[u8]) -> (r: Result<Answer, DnsError>)
    ensures
        match message_of(reply@) {
            None => r matches Err(DnsError::Parse(_)),
            Some(m) => if m.answers.len() > 0 {
                r matches Ok(a) && a@ == m.answers[0] && well_formed_answer(a@)
            } else {
                r matches Err(DnsError::Resolution(_))
            },
        },
{
    let mut msg = Message::default();
    match msg.parse_message(reply) {
        Ok(()) => {},
        Err(e) => {
            return Err(e);
        },
    }
    let ghost m = message_of(reply@)->Some_0;
    proof {
        assert(msg@.answers =~= m.answers);
    }
    if msg.answers.len() == 0 {
        return Err(DnsError::resolution("No answer received"));
    }
    proof {
        let h = header_of(reply@);
        let (_, e) = questions_at(reply@, 12, h.QDCOUNT as nat)->Some_0;
        lemma_decoded_answers_are_well_formed(reply@, e, h.ANCOUNT as nat);
        assert(well_formed_answer(m.answers[0]));
        assert(msg.answers@[0]@ == m.answers[0]);
    }
    Ok(copy_answer(&msg.answers[0]))
}

} // verus!

verus! {

/// The response built for a forwarded request parses back to the request's
/// header with QR set and ANCOUNT counting the answers, its questions, and the
/// answers of the resolutions that succeeded, in order. This holds where each
/// of those answers is well-formed, as every one that [`answer_from_reply`]
/// returns is, and there are at most 65535 of them.
pub proof fn lemma_forwarded_reply_parses_back(
    packet: Seq<u8>,
    results: Seq<Result<Answer, DnsError>>,
)
    requires
        message_of(packet) is Some,
        forall|i: int|
            0 <= i < successes(results).len() ==> well_formed_answer(
                #[trigger] successes(results)[i],
            ),
        successes(results).len() <= 0xFFFF,
    ensures
        match message_of(packet) {
            Some(m) => message_of(message_bytes(forwarded_reply(m, successes(results)))) == Some(
                forwarded_reply(m, successes(results)),
            ),
            None => false,
        },
{
    let m = message_of(packet)->Some_0;
    let ans = successes(results);
    let reply = forwarded_reply(m, ans);
    let h = header_of(packet);
    lemma_decoded_header_fits(packet);
    lemma_questions_count(packet, 12, h.QDCOUNT as nat);
    lemma_decoded_questions_are_wire(packet, 12, h.QDCOUNT as nat);
    assert(all_lengths_match(ans)) by {
        assert forall|i: int| 0 <= i < ans.len() implies length_matches(#[trigger] ans[i]) by {
            assert(well_formed_answer(ans[i]));
        }
    }
    assert(names_are_wire(reply)) by {
        assert forall|i: int| 0 <= i < ans.len() implies is_wire_name(#[trigger] ans[i].name) by {
            assert(well_formed_answer(ans[i]));
        }
    }
    lemma_message_round_trip(reply);
    assert(checked_opcode(reply.header) == reply.header);
}

} // verus!

verus! {

/// The query sent upstream for a question with an uncompressed name parses back
/// to that query: its header and its one question.
pub proof fn lemma_query_parses_back(q: QuestionView, id: u16)
    requires
        is_wire_name(q.name),
    ensures
        message_of(query_bytes(q, id)) == Some(query_view(q, id)),
{
    let m = query_view(q, id);
    assert(m.questions.drop_last() =~= Seq::<QuestionView>::empty());
    assert(crate::message::questions_bytes(Seq::<QuestionView>::empty()) =~= Seq::<u8>::empty());
    assert(crate::message::questions_bytes(m.questions) =~= question_bytes(q));
    assert(crate::message::answers_bytes(m.answers) =~= Seq::<u8>::empty());
    assert(message_bytes(m) =~= query_bytes(q, id));
    lemma_message_round_trip(m);
}

} // verus!
