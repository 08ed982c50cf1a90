use dns_codec::server::{
    answer_from_reply, build_query, finish_forwarded, handle_request, new_query_packet,
    query_packet, Step,
};
use dns_codec::{Answer, DnsError, Message, Question};

const SINGLE_QUESTION: [u8; 33] = [
    19, 58, 1, 0, 0, 1, 0, 0, 0, 0, 0, 0, 12, b'c', b'o', b'd', b'e', b'c', b'r', b'a', b'f',
    b't', b'e', b'r', b's', 2, b'i', b'o', 0, 0, 1, 0, 1,
];

fn name_of(labels: &[&str]) -> Vec<u8> {
    let mut out = Vec::new();
    for l in labels {
        out.push(l.len() as u8);
        out.extend_from_slice(l.as_bytes());
    }
    out.push(0);
    out
}

fn two_question_request() -> Vec<u8> {
    let mut packet = vec![0xAB, 0xCD, 0x01, 0x00, 0, 2, 0, 0, 0, 0, 0, 0];
    packet.extend(name_of(&["one", "example"]));
    packet.extend_from_slice(&[0, 1, 0, 1]);
    packet.extend(name_of(&["two", "example"]));
    packet.extend_from_slice(&[0, 1, 0, 1]);
    packet
}

fn upstream_reply(query: &[u8], data: [u8; 4]) -> Vec<u8> {
    let mut reply = query.to_vec();
    reply[2] |= 0x80;
    reply[7] = 1;
    reply.extend_from_slice(&[0xC0, 12, 0, 1, 0, 1, 0, 0, 1, 0, 0, 4]);
    reply.extend_from_slice(&data);
    reply
}

fn question(labels: &[&str]) -> Question {
    Question { name: name_of(labels), q_type: 1, q_class: 1 }
}

#[test]
fn local_synthesis_answers_each_question() {
    let reply = match handle_request(&SINGLE_QUESTION, false) {
        Ok(Step::Reply(bytes)) => bytes,
        _ => panic!("expected a reply"),
    };
    let mut parsed = Message::default();
    assert!(parsed.parse_message(&reply).is_ok());
    assert_eq!(parsed.header.QR, 1);
    assert_eq!(parsed.header.ANCOUNT, 1);
    assert_eq!(parsed.header.ID, 19 * 256 + 58);
    assert_eq!(parsed.answers.len(), 1);
    let answer = &parsed.answers[0];
    assert_eq!(answer.name, SINGLE_QUESTION[12..29].to_vec());
    assert_eq!(answer.q_type, 1);
    assert_eq!(answer.q_class, 1);
    assert_eq!(answer.TTL, 40);
    assert_eq!(answer.Data, vec![8, 8, 8, 8]);
    assert_eq!(reply[2] & 0x80, 0x80);
    assert_eq!(&reply[6..8], &[0, 1]);
}

#[test]
fn request_without_questions_is_ignored() {
    let packet = [1, 2, 1, 0, 0, 0, 0, 0, 0, 0, 0, 0];
    assert!(matches!(handle_request(&packet, false), Ok(Step::Ignore)));
    assert!(matches!(handle_request(&packet, true), Ok(Step::Ignore)));
}

#[test]
fn malformed_request_gets_parse_error() {
    assert!(matches!(handle_request(&SINGLE_QUESTION[..5], false), Err(DnsError::Parse(_))));
    assert!(matches!(handle_request(&SINGLE_QUESTION[..30], true), Err(DnsError::Parse(_))));
}

#[test]
fn forwarding_hands_back_parsed_request() {
    match handle_request(&two_question_request(), true) {
        Ok(Step::Forward(m)) => {
            assert_eq!(m.questions.len(), 2);
            assert_eq!(m.questions[1].name, name_of(&["two", "example"]));
        }
        _ => panic!("expected the request to be forwarded"),
    }
}

#[test]
fn query_packet_is_exact() {
    let q = question(&["one", "example"]);
    let packet = query_packet(&q, 0x1234);
    let mut expected = vec![0x12, 0x34, 0x01, 0x00, 0, 1, 0, 0, 0, 0, 0, 0];
    expected.extend(name_of(&["one", "example"]));
    expected.extend_from_slice(&[0, 1, 0, 1]);
    assert_eq!(packet, expected);
    let m = build_query(&q, 0x1234);
    assert_eq!(m.header.ID, 0x1234);
    assert_eq!(m.header.RD, 1);
    assert_eq!(m.header.QDCOUNT, 1);
    assert_eq!(m.questions.len(), 1);
    assert!(m.answers.is_empty());
}

#[test]
fn random_query_differs_only_in_id() {
    let q = question(&["one", "example"]);
    let packet = new_query_packet(&q);
    let fixed = query_packet(&q, 0);
    assert_eq!(packet.len(), fixed.len());
    assert_eq!(&packet[2..], &fixed[2..]);
}

#[test]
fn first_answer_of_reply_is_taken() {
    let q = question(&["one", "example"]);
    let mut reply = upstream_reply(&query_packet(&q, 7), [1, 1, 1, 1]);
    reply[7] = 2;
    reply.extend_from_slice(&[0xC0, 12, 0, 1, 0, 1, 0, 0, 0, 9, 0, 4, 2, 2, 2, 2]);
    let answer = answer_from_reply(&reply).unwrap();
    assert_eq!(answer.Data, vec![1, 1, 1, 1]);
    assert_eq!(answer.TTL, 256);
    assert_eq!(answer.name, name_of(&["one", "example"]));
}

#[test]
fn reply_without_answer_is_a_resolution_error() {
    let q = question(&["one", "example"]);
    let reply = query_packet(&q, 7);
    assert!(matches!(answer_from_reply(&reply), Err(DnsError::Resolution(_))));
    assert!(matches!(answer_from_reply(&reply[..3]), Err(DnsError::Parse(_))));
}

fn forwarded_response(order_swapped: bool) -> Message {
    let request = match handle_request(&two_question_request(), true) {
        Ok(Step::Forward(m)) => m,
        _ => panic!("expected the request to be forwarded"),
    };
    let replies: Vec<Vec<u8>> = request
        .questions
        .iter()
        .enumerate()
        .map(|(i, q)| upstream_reply(&query_packet(q, i as u16), [10, 0, 0, i as u8]))
        .collect();
    let mut results: Vec<Result<Answer, DnsError>> =
        replies.iter().map(|r| answer_from_reply(r)).collect();
    if order_swapped {
        results.reverse();
    }
    let bytes = finish_forwarded(request, results).unwrap();
    let mut parsed = Message::default();
    assert!(parsed.parse_message(&bytes).is_ok());
    parsed
}

#[test]
fn forwarding_assembles_both_answers() {
    let parsed = forwarded_response(false);
    assert_eq!(parsed.header.QR, 1);
    assert_eq!(parsed.header.ANCOUNT, 2);
    assert_eq!(parsed.header.ID, 0xABCD);
    assert_eq!(parsed.answers.len(), 2);
    assert_eq!(parsed.answers[0].name, name_of(&["one", "example"]));
    assert_eq!(parsed.answers[0].Data, vec![10, 0, 0, 0]);
    assert_eq!(parsed.answers[1].name, name_of(&["two", "example"]));
    assert_eq!(parsed.answers[1].Data, vec![10, 0, 0, 1]);
}

#[test]
fn forwarding_assembles_both_answers_out_of_order() {
    let parsed = forwarded_response(true);
    assert_eq!(parsed.header.ANCOUNT, 2);
    assert_eq!(parsed.answers.len(), 2);
    assert_eq!(parsed.answers[0].Data, vec![10, 0, 0, 1]);
    assert_eq!(parsed.answers[1].Data, vec![10, 0, 0, 0]);
}

#[test]
fn failed_resolutions_are_omitted() {
    let request = match handle_request(&two_question_request(), true) {
        Ok(Step::Forward(m)) => m,
        _ => panic!("expected the request to be forwarded"),
    };
    let query = query_packet(&request.questions[1], 3);
    let ok = answer_from_reply(&upstream_reply(&query, [4, 4, 4, 4]));
    let results = vec![Err(DnsError::Resolution("timeout".to_string())), ok];
    let bytes = finish_forwarded(request, results).unwrap();
    let mut parsed = Message::default();
    assert!(parsed.parse_message(&bytes).is_ok());
    assert_eq!(parsed.header.ANCOUNT, 1);
    assert_eq!(parsed.answers.len(), 1);
    assert_eq!(parsed.answers[0].Data, vec![4, 4, 4, 4]);
    assert_eq!(parsed.header.RCODE, 0);
}

#[test]
fn forwarded_answer_is_written_as_it_stands() {
    let request = match handle_request(&two_question_request(), true) {
        Ok(Step::Forward(m)) => m,
        _ => panic!("expected the request to be forwarded"),
    };
    let odd = Answer { name: vec![0], q_type: 1, q_class: 1, TTL: 1, Length: 9, Data: vec![1] };
    let bytes = finish_forwarded(request, vec![Ok(odd)]).unwrap();
    assert_eq!(&bytes[6..8], &[0, 1]);
    assert_eq!(&bytes[bytes.len() - 11..], &[0, 0, 1, 0, 1, 0, 0, 0, 1, 0, 9, 1][1..]);
}
