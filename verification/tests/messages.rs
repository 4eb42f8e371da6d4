use dns_server::answer::Answer;
use dns_server::dns;
use dns_server::header::{DnsHeader, Flags, HEADER_LEN};
use dns_server::message::Message;
use dns_server::question::Question;
use dns_server::server::{absorb_reply, forward_query, resolve_locally, write_questions};

fn query_bytes() -> Vec<u8> {
    // id 0x1234, rd set, two questions
    let mut b = vec![0x12, 0x34, 0x01, 0x00, 0, 2, 0, 0, 0, 0, 0, 0];
    b.extend_from_slice(&[3, b'a', b'b', b'c', 3, b'c', b'o', b'm', 0, 0, 1, 0, 1]);
    b.extend_from_slice(&[3, b'd', b'e', b'f', 0, 0, 28, 0, 1]);
    b
}

#[test]
fn message_new_and_flags() {
    let mut m = Message::new(42);
    assert_eq!(m.header, DnsHeader::new_reponse(42));
    assert!(m.questions.is_empty() && m.answers.is_empty());
    m.set_reply();
    assert!(m.header.flags.qr);
    m.set_request();
    assert!(!m.header.flags.qr);
}

#[test]
fn add_question_and_answer_update_counts() {
    let mut m = Message::new(1);
    m.add_question(Question::new("a.b".to_string(), 1, 1));
    m.add_question(Question::new("c".to_string(), 1, 1));
    assert_eq!(m.header.qdcount, 2);
    m.add_answer(Answer::new("a.b".to_string(), 1, 1, 60, 4, "1.2.3.4".to_string()));
    assert_eq!(m.header.ancount, 1);
    assert_eq!(m.questions.len(), 2);
}

#[test]
fn header_from_slice_sets_reply_rcode() {
    let b = query_bytes();
    let (m, n) = Message::header_from_slice(&b[..HEADER_LEN]);
    assert_eq!(n, HEADER_LEN);
    assert_eq!(m.header.id, 0x1234);
    assert_eq!(m.header.flags.rcode, 0);
    assert_eq!(m.header.qdcount, 2);

    let mut other = b.clone();
    other[2] = 0x08 | 0x01; // opcode 1 (inverse query), rd
    let (m, _) = Message::header_from_slice(&other[..HEADER_LEN]);
    assert_eq!(m.header.flags.opcode, 1);
    assert_eq!(m.header.flags.rcode, 4);
}

#[test]
fn questions_from_slice_reads_the_counted_questions() {
    let b = query_bytes();
    let (mut m, start) = Message::header_from_slice(&b[..HEADER_LEN]);
    assert!(m.questions_readable(&b[start..]));
    let n = m.questions_from_slice(&b[start..]);
    assert_eq!(n, b.len() - HEADER_LEN);
    assert_eq!(m.questions.len(), 2);
    assert_eq!(m.questions[0].field.name, "abc.com");
    assert_eq!(m.questions[1].field.name, "def");
    assert_eq!(m.questions[1].field.f_type, 28);
    assert_eq!(m.header.qdcount, 2);
}

#[test]
fn questions_readable_rejects_truncated_section() {
    let b = query_bytes();
    let (m, start) = Message::header_from_slice(&b[..HEADER_LEN]);
    assert!(!m.questions_readable(&b[start..b.len() - 1]));
}

#[test]
fn questions_roundtrip_through_a_message() {
    let b = query_bytes();
    let (mut m, start) = Message::header_from_slice(&b[..HEADER_LEN]);
    m.questions_from_slice(&b[start..]);
    let len = m.questions_wire_len().unwrap();
    assert_eq!(len, b.len() - HEADER_LEN);
    let mut out = vec![0u8; len];
    assert_eq!(m.questions_into_slice(&mut out), len);
    assert_eq!(&out[..], &b[HEADER_LEN..]);
}

#[test]
fn header_into_slice_writes_header() {
    let mut m = Message::new(0xbeef);
    m.set_reply();
    let mut out = [0u8; 12];
    assert_eq!(m.header_into_slice(&mut out), 12);
    assert_eq!(out, [0xbe, 0xef, 0x80, 0, 0, 0, 0, 0, 0, 0, 0, 0]);
}

#[test]
fn answers_roundtrip_through_a_message() {
    let mut m = Message::new(5);
    m.add_answer(Answer::new("a.io".to_string(), 1, 1, 60, 4, "9.8.7.6".to_string()));
    m.add_answer(Answer::new("b".to_string(), 1, 1, 30, 4, "1.1.1.1".to_string()));
    let mut out = vec![0u8; 64];
    let n = m.answers_into_slice(&mut out);
    assert_eq!(n, (10 + 10) + (7 + 10));
    let mut r = Message::new(5);
    r.header.ancount = 2;
    assert!(r.answers_readable(&out[..n]));
    assert_eq!(r.answers_from_slice(&out[..n]), n);
    assert_eq!(r.answers.len(), 2);
    assert_eq!(r.answers[0].data, 0x0908_0706);
    assert_eq!(r.answers[1].field.name, "b");
    assert_eq!(r.answers[1].ttl, 30);
    assert!(!r.answers_readable(&out[..n - 1]));
}

#[test]
fn write_questions_writes_a_query() {
    let mut m = Message::new(7);
    m.add_question(Question::new("abc.com".to_string(), 1, 1));
    let mut out = [0u8; 64];
    let n = write_questions(m, &mut out);
    assert_eq!(n, HEADER_LEN + 13);
    assert_eq!(&out[..HEADER_LEN], &[0, 7, 0, 0, 0, 1, 0, 0, 0, 0, 0, 0]);
    assert_eq!(&out[HEADER_LEN..n], &[3, b'a', b'b', b'c', 3, b'c', b'o', b'm', 0, 0, 1, 0, 1]);
    let h = DnsHeader::from_bytes(&out);
    assert_eq!(h.qdcount, 1);
    assert_eq!(h.flags, Flags::default());
}

#[test]
fn resolve_locally_answers_address_names() {
    let mut req = Message::new(99);
    req.add_question(Question::new("10.0.0.1".to_string(), 1, 1));
    req.add_question(Question::new("127.0.0.1".to_string(), 1, 1));
    let reply = resolve_locally(&req);
    assert_eq!(reply.header, DnsHeader::new_reponse(99));
    assert_eq!(reply.questions.len(), 2);
    assert_eq!(reply.answers.len(), 2);
    assert_eq!(reply.answers[0].data, 0x0a00_0001);
    assert_eq!(reply.answers[1].data, 0x7f00_0001);
    assert_eq!(reply.answers[1].ttl, 60);
    assert_eq!(reply.answers[1].length, 4);
    assert_eq!(reply.questions[1].field.name, "127.0.0.1");
}

#[test]
fn flat_header_flags_and_bytes() {
    let h = dns::DnsHeader::new_reponse(0x0102);
    assert!(h.qr);
    assert_eq!(h.flags_as_u16(), 0x8000);
    let mut buf = [0u8; 12];
    h.write_to(&mut buf);
    assert_eq!(buf, [1, 2, 0x80, 0, 0, 0, 0, 0, 0, 0, 0, 0]);
    let read = DnsHeader::from_bytes(&buf);
    assert_eq!(read.id, 0x0102);
    assert!(read.flags.qr);
}

#[test]
fn flat_message_writes_questions() {
    let mut m = dns::Message::new(3);
    m.add_question(dns::Question::new("codecrafters.io".to_string(), 1, 1));
    m.add_question(dns::Question::new("x".to_string(), 2, 1));
    assert_eq!(m.header.qdcount, 2);
    let mut head = [0u8; 12];
    m.write_header(&mut head);
    assert_eq!(head, [0, 3, 0x80, 0, 0, 2, 0, 0, 0, 0, 0, 0]);
    let mut out = [0u8; 64];
    let n = m.write_questions(&mut out);
    assert_eq!(n, 21 + 7);
    assert_eq!(&out[21..n], &[1, b'x', 0, 0, 2, 0, 1]);
    let mut one = [0u8; 21];
    assert_eq!(m.questions[0].read_question(&mut one), 21);
    assert_eq!(&one[..], &out[..21]);
}

#[test]
fn query_written_reads_back() {
    let mut m = Message::new(0x0a0b);
    m.add_question(Question::new("one.example".to_string(), 1, 1));
    m.add_question(Question::new("two".to_string(), 16, 1));
    let mut out = [0u8; 128];
    let n = write_questions(m, &mut out);
    let (mut r, start) = Message::header_from_slice(&out[..HEADER_LEN]);
    assert_eq!(r.header.id, 0x0a0b);
    assert_eq!(r.header.qdcount, 2);
    assert!(r.questions_readable(&out[start..n]));
    assert_eq!(r.questions_from_slice(&out[start..n]), n - HEADER_LEN);
    assert_eq!(r.questions[0].field.name, "one.example");
    assert_eq!(r.questions[1].field.name, "two");
    assert_eq!(r.questions[1].field.f_type, 16);
}

#[test]
fn forward_query_writes_one_question_query() {
    let mut out = [0xffu8; 40];
    let n = forward_query(0x0102, Question::new("abc.com".to_string(), 1, 1), &mut out);
    assert_eq!(n, HEADER_LEN + 13);
    assert_eq!(&out[..HEADER_LEN], &[1, 2, 0, 0, 0, 1, 0, 0, 0, 0, 0, 0]);
    assert_eq!(&out[HEADER_LEN..n], &[3, b'a', b'b', b'c', 3, b'c', b'o', b'm', 0, 0, 1, 0, 1]);
    assert!(out[n..].iter().all(|&b| b == 0xff));
}

fn resolver_reply() -> Vec<u8> {
    // id 7, response, one question, one answer
    let mut b = vec![0, 7, 0x81, 0x80, 0, 1, 0, 1, 0, 0, 0, 0];
    b.extend_from_slice(&[3, b'a', b'b', b'c', 0, 0, 1, 0, 1]);
    b.extend_from_slice(&[3, b'a', b'b', b'c', 0, 0, 1, 0, 1, 0, 0, 0, 60, 0, 4, 1, 2, 3, 4]);
    b
}

#[test]
fn absorb_reply_appends_questions_and_answers() {
    let mut resp = Message::new(7);
    resp.add_question(Question::new("old".to_string(), 1, 1));
    let header = resp.header;
    let reply = resolver_reply();
    assert_eq!(absorb_reply(&mut resp, &reply), Some(HEADER_LEN + 9));
    assert_eq!(resp.header, header);
    assert_eq!(resp.questions.len(), 2);
    assert_eq!(resp.questions[0].field.name, "old");
    assert_eq!(resp.questions[1].field.name, "abc");
    assert_eq!(resp.answers.len(), 1);
    assert_eq!(resp.answers[0].data, 0x0102_0304);
    assert_eq!(resp.answers[0].ttl, 60);
}

#[test]
fn absorb_reply_rejects_unreadable_replies() {
    let mut resp = Message::new(7);
    let reply = resolver_reply();
    assert_eq!(absorb_reply(&mut resp, &reply[..11]), None);
    assert_eq!(absorb_reply(&mut resp, &reply[..15]), None);
    assert_eq!(absorb_reply(&mut resp, &reply[..reply.len() - 1]), None);
    assert!(resp.questions.is_empty() && resp.answers.is_empty());
}

#[test]
fn adding_questions_keeps_order_and_count() {
    let mut m = dns::Message::new(11);
    for name in ["a", "b", "c"] {
        m.add_question(dns::Question::new(name.to_string(), 1, 1));
    }
    let names: Vec<&str> = m.questions.iter().map(|q| q.name.as_str()).collect();
    assert_eq!(names, ["a", "b", "c"]);
    let mut expected = dns::DnsHeader::new_reponse(11);
    expected.qdcount = 3;
    assert_eq!(m.header, expected);

    let mut n = Message::new(11);
    for name in ["x", "y"] {
        n.add_question(Question::new(name.to_string(), 1, 1));
    }
    assert_eq!(n.questions[1].field.name, "y");
    assert_eq!(n.header.qdcount, 2);
}

#[test]
fn absorb_two_replies_keeps_reply_order() {
    let mut resp = Message::new(7);
    let first = resolver_reply();
    let mut second = vec![0, 7, 0x81, 0x80, 0, 1, 0, 1, 0, 0, 0, 0];
    second.extend_from_slice(&[1, b'z', 0, 0, 1, 0, 1]);
    second.extend_from_slice(&[1, b'z', 0, 0, 1, 0, 1, 0, 0, 0, 9, 0, 4, 5, 6, 7, 8]);
    assert_eq!(absorb_reply(&mut resp, &first), Some(HEADER_LEN + 9));
    assert_eq!(absorb_reply(&mut resp, &second), Some(HEADER_LEN + 7));
    let names: Vec<&str> = resp.questions.iter().map(|q| q.field.name.as_str()).collect();
    assert_eq!(names, ["abc", "z"]);
    let data: Vec<u32> = resp.answers.iter().map(|a| a.data).collect();
    assert_eq!(data, [0x0102_0304, 0x0506_0708]);
}
