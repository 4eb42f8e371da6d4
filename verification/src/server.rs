//! What the server computes between receiving and sending: the query it forwards and
//! the reply it gives on its own.
use crate::answer::{Answer, AnswerView};
use crate::field::{field_encodable, field_wire, Field, FieldView};
use crate::header::{
    flags_fit, fresh_header, header_bytes, header_of, lemma_header_roundtrip, DnsHeader, HEADER_LEN,
};
use crate::ipv4::parse_ipv4;
use crate::message::{
    answer_views, fields_wire, lemma_fields_roundtrip, lemma_parse_answers_prefix,
    lemma_parse_fields_prefix, parse_answers, parse_fields, question_fields,
    Message,
};
use crate::question::Question;
use crate::wire::{lemma_splice_twice, splice};
use vstd::slice::slice_subrange;
use vstd::prelude::*;
use vstd::utf8::encode_utf8;

verus! {

/// The time to live of an answer the server gives on its own.
pub const LOCAL_TTL: u32 = 60;

/// The data length of an answer the server gives on its own: one IPv4 address.
pub const LOCAL_LENGTH: u16 = 4;

/// Writes `message` as a query: its header, then its questions; returns the number of
/// bytes written.
pub fn write_questions(message: Message, buf: &mut [u8]) -> (n: usize)
    requires
        HEADER_LEN + fields_wire(question_fields(message.questions@)).len() <= old(buf)@.len(),
    ensures
        final(buf)@ == splice(
            old(buf)@,
            0,
            header_bytes(message.header) + fields_wire(question_fields(message.questions@)),
        ),
        n == HEADER_LEN + fields_wire(question_fields(message.questions@)).len(),
{
    let ghost o = buf@;
    let start = message.header_into_slice(buf);
    let end = message.write_questions_at(buf, start);
    proof {
        lemma_splice_twice(o, 0, header_bytes(message.header), fields_wire(question_fields(message.questions@)));
    }
    end
}

/// A query as [`write_questions`] writes it reads back: the first twelve bytes as the
/// same header, and the bytes after them as the same questions, as many as the header
/// counts. This holds when the header counts the questions, its flag fields fit their
/// slots, and every name has only non-empty labels shorter than 256 bytes.
pub proof fn lemma_query_roundtrip(header: DnsHeader, fs: Seq<FieldView>, buf: Seq<u8>)
    requires
        flags_fit(header.flags),
        header.qdcount == fs.len(),
        forall|i: int| 0 <= i < fs.len() ==> field_encodable(#[trigger] fs[i]),
        buf.len() >= HEADER_LEN + fields_wire(fs).len(),
        buf.take(HEADER_LEN + fields_wire(fs).len()) == header_bytes(header) + fields_wire(fs),
    ensures
        header_of(buf) == header,
        parse_fields(buf.skip(HEADER_LEN as int), 0, header.qdcount as nat) == Some(
            (fs, fields_wire(fs).len() as int),
        ),
{
    let w = fields_wire(fs);
    let t = buf.take(HEADER_LEN + w.len());
    assert(buf.take(HEADER_LEN as int) =~= t.take(HEADER_LEN as int));
    assert(t.take(HEADER_LEN as int) =~= header_bytes(header));
    lemma_header_roundtrip(header, buf);
    let rest = buf.skip(HEADER_LEN as int);
    assert forall|k: int| 0 <= k < w.len() implies rest.subrange(0, w.len() as int)[k] == w[k] by {
        assert(rest[k] == t[HEADER_LEN + k]);
    }
    assert(rest.subrange(0, w.len() as int) =~= w);
    lemma_fields_roundtrip(fs, rest, 0);
}

/// Every question's name is a dotted-decimal IPv4 address.
pub open spec fn names_are_addresses(qs: Seq<Question>) -> bool {
    forall|i: int| 0 <= i < qs.len() ==> (#[trigger] parse_ipv4(encode_utf8(qs[i].field.name@))) is Some
}

/// The reply the server gives on its own to `request`: a fresh header with the request's
/// id, the same questions, and for each question an answer for its field with ttl 60,
/// length 4 and the address that the question's name spells. The counts of the header
/// stay zero.
pub fn resolve_locally(request: &Message) -> (reply: Message)
    requires
        names_are_addresses(request.questions@),
    ensures
        reply.header == fresh_header(request.header.id),
        question_fields(reply.questions@) == question_fields(request.questions@),
        reply.answers@.len() == request.questions@.len(),
        forall|i: int|
            0 <= i < reply.answers@.len() ==> {
                let a = #[trigger] reply.answers@[i];
                let q = request.questions@[i];
                &&& a.field@ == q.field@
                &&& a.ttl == LOCAL_TTL
                &&& a.length == LOCAL_LENGTH
                &&& a.data == parse_ipv4(encode_utf8(q.field.name@)).unwrap()
            },
{
    let mut m = Message::new(request.header.id);
    let mut i: usize = 0;
    while i < request.questions.len()
        invariant
            i <= request.questions@.len(),
            names_are_addresses(request.questions@),
            m.header == fresh_header(request.header.id),
            question_fields(m.questions@) == question_fields(request.questions@.take(i as int)),
            m.answers@.len() == i,
            forall|k: int|
                0 <= k < i ==> {
                    let a = #[trigger] m.answers@[k];
                    let q = request.questions@[k];
                    &&& a.field@ == q.field@
                    &&& a.ttl == LOCAL_TTL
                    &&& a.length == LOCAL_LENGTH
                    &&& a.data == parse_ipv4(encode_utf8(q.field.name@)).unwrap()
                },
        decreases request.questions@.len() - i,
    {
        let q = &request.questions[i];
        assert(parse_ipv4(encode_utf8(request.questions@[i as int].field.name@)) is Some);
        let answer = Answer::new(
            q.field.name.clone(),
            q.field.f_type,
            q.field.f_class,
            LOCAL_TTL,
            LOCAL_LENGTH,
            q.field.name.clone(),
        );
        m.answers.push(answer);
        let question = Question { field: Field { name: q.field.name.clone(), f_type: q.field.f_type, f_class: q.field.f_class } };
        let ghost before = m.questions@;
        m.questions.push(question);
        proof {
            assert(request.questions@.take(i + 1) =~= request.questions@.take(i as int).push(*q));
            assert(question_fields(m.questions@) =~= question_fields(before).push(q.field@));
            assert(question_fields(request.questions@.take(i + 1)) =~= question_fields(
                request.questions@.take(i as int),
            ).push(q.field@));
        }
        i = i + 1;
    }
    assert(request.questions@.take(request.questions@.len() as int) =~= request.questions@);
    m
}

/// The header of a query for one question: the given id, cleared flags and a question
/// count of one.
pub open spec fn one_question_header(id: u16) -> DnsHeader {
    DnsHeader { qdcount: 1, ..fresh_header(id) }
}

/// Writes the query the server forwards for one question: a header with the given id
/// and a question count of one, then the question; returns the number of bytes written.
pub fn forward_query(id: u16, question: Question, buf: &mut [u8]) -> (n: usize)
    requires
        HEADER_LEN + field_wire(question.field@).len() <= old(buf)@.len(),
    ensures
        final(buf)@ == splice(
            old(buf)@,
            0,
            header_bytes(one_question_header(id)) + field_wire(question.field@),
        ),
        n == HEADER_LEN + field_wire(question.field@).len(),
{
    let ghost f = question.field@;
    let mut msg = Message::new(id);
    msg.add_question(question);
    proof {
        assert(question_fields(msg.questions@) =~= seq![f]);
        assert(seq![f].drop_last() =~= Seq::<FieldView>::empty());
        assert(seq![f].last() == f);
        assert(fields_wire(Seq::<FieldView>::empty()) == Seq::<u8>::empty());
        assert(fields_wire(seq![f]) == fields_wire(seq![f].drop_last()) + field_wire(f));
        assert(fields_wire(seq![f]) =~= field_wire(f));
    }
    write_questions(msg, buf)
}

/// What a resolver's reply holds: the questions and answers its header counts, and the
/// length of the header and question section; `None` where the reply is shorter than a
/// header or a counted question or answer cannot be read.
pub open spec fn reply_parts(reply: Seq<u8>) -> Option<(Seq<FieldView>, Seq<AnswerView>, int)> {
    if reply.len() < HEADER_LEN {
        None
    } else {
        let h = header_of(reply);
        let rest = reply.skip(HEADER_LEN as int);
        match parse_fields(rest, 0, h.qdcount as nat) {
            Some((fs, q)) => match parse_answers(rest.skip(q), 0, h.ancount as nat) {
                Some((ans, _)) => Some((fs, ans, HEADER_LEN + q)),
                None => None,
            },
            None => None,
        }
    }
}

/// A reply gives as many questions as its question count (bytes 4 and 5) and as many
/// answers as its answer count (bytes 6 and 7), each count read big-endian, whatever
/// the other count is; the questions are read right after the twelve header bytes.
pub proof fn lemma_reply_counts(reply: Seq<u8>)
    requires
        reply_parts(reply) is Some,
    ensures
        ({
            let (fs, ans, n) = reply_parts(reply).unwrap();
            &&& fs.len() == reply[4] * 256 + reply[5]
            &&& ans.len() == reply[6] * 256 + reply[7]
            &&& parse_fields(reply.skip(HEADER_LEN as int), 0, fs.len()) == Some((fs, n - HEADER_LEN))
        }),
{
    let h = header_of(reply);
    crate::header::lemma_header_of_layout(reply);
    let rest = reply.skip(HEADER_LEN as int);
    lemma_parse_fields_prefix(rest, 0, h.qdcount as nat, h.qdcount as nat);
    let (fs, q) = parse_fields(rest, 0, h.qdcount as nat).unwrap();
    lemma_parse_answers_prefix(rest.skip(q), 0, h.ancount as nat, h.ancount as nat);
}

/// Adds to `response` the questions and answers of a resolver's reply, in order, and
/// returns the length of the reply's header and question section; leaves `response` as
/// it was and returns `None` where the reply cannot be read.
pub fn absorb_reply(response: &mut Message, reply: &[u8]) -> (r: Option<usize>)
    ensures
        match reply_parts(reply@) {
            None => r is None && *final(response) == *old(response),
            Some((fs, ans, n)) => {
                &&& r == Some(n as usize)
                &&& final(response).header == old(response).header
                &&& final(response).questions@.len() == old(response).questions@.len() + fs.len()
                &&& final(response).answers@.len() == old(response).answers@.len() + ans.len()
                &&& question_fields(final(response).questions@) == question_fields(
                    old(response).questions@,
                ) + fs
                &&& answer_views(final(response).answers@) == answer_views(old(response).answers@)
                    + ans
                &&& final(response).questions@.take(old(response).questions@.len() as int)
                    == old(response).questions@
                &&& question_fields(
                    final(response).questions@.skip(old(response).questions@.len() as int),
                ) == fs
                &&& final(response).answers@.take(old(response).answers@.len() as int)
                    == old(response).answers@
                &&& answer_views(final(response).answers@.skip(old(response).answers@.len() as int))
                    == ans
            },
        },
{
    if reply.len() < HEADER_LEN {
        return None;
    }
    let (mut received, len) = Message::header_from_slice(reply);
    let rest = slice_subrange(reply, len, reply.len());
    assert(rest@ == reply@.skip(HEADER_LEN as int));
    if !received.questions_readable(rest) {
        return None;
    }
    let qlen = received.questions_from_slice(rest);
    let answers = slice_subrange(rest, qlen, rest.len());
    assert(answers@ == rest@.skip(qlen as int));
    if !received.answers_readable(answers) {
        return None;
    }
    received.answers_from_slice(answers);
    proof {
        assert(received.questions@.skip(0) =~= received.questions@);
        assert(received.answers@.skip(0) =~= received.answers@);
    }
    let ghost old_q = response.questions@;
    let ghost old_a = response.answers@;
    let ghost new_q = received.questions@;
    let ghost new_a = received.answers@;
    response.questions.append(&mut received.questions);
    response.answers.append(&mut received.answers);
    proof {
        assert(response.questions@.take(old_q.len() as int) =~= old_q);
        assert(response.questions@.skip(old_q.len() as int) =~= new_q);
        assert(response.answers@.take(old_a.len() as int) =~= old_a);
        assert(response.answers@.skip(old_a.len() as int) =~= new_a);
        assert(question_fields(response.questions@) =~= question_fields(old_q) + question_fields(new_q));
        assert(answer_views(response.answers@) =~= answer_views(old_a) + answer_views(new_a));
    }
    Some(len + qlen)
}

} // verus!
