//! A DNS message: a header, its questions and its answers.
use crate::answer::{
    answer_wire, is_address, lemma_answer_roundtrip, parse_answer, Answer, AnswerView,
};
use crate::field::{field_encodable, field_wire, lemma_field_roundtrip, lemma_field_wire_len, parse_field, FieldView};
use crate::header::{
    flags_match_bytes, fresh_header, header_bytes, header_of, lemma_header_of_layout, DnsHeader,
    Flags, HEADER_LEN,
};
use crate::question::Question;
use crate::wire::{lemma_splice_twice, splice};
use vstd::prelude::*;

verus! {

/// The response code a reply carries for an operation other than a standard query.
pub const RCODE_NOT_IMPLEMENTED: u8 = 4;

/// A DNS message.
#[derive(Debug)]
pub struct Message {
    pub header: DnsHeader,
    pub questions: Vec<Question>,
    pub answers: Vec<Answer>,
}

/// The fields asked about by the questions.
pub open spec fn question_fields(qs: Seq<Question>) -> Seq<FieldView> {
    qs.map_values(|q: Question| q.field@)
}

/// What the answers hold.
pub open spec fn answer_views(ans: Seq<Answer>) -> Seq<AnswerView> {
    ans.map_values(|a: Answer| a@)
}

/// The wire forms of the fields, one after the other.
pub open spec fn fields_wire(fs: Seq<FieldView>) -> Seq<u8>
    decreases fs.len(),
{
    if fs.len() == 0 {
        Seq::empty()
    } else {
        fields_wire(fs.drop_last()) + field_wire(fs.last())
    }
}

/// The wire forms of the answers, one after the other.
pub open spec fn answers_wire(ans: Seq<AnswerView>) -> Seq<u8>
    decreases ans.len(),
{
    if ans.len() == 0 {
        Seq::empty()
    } else {
        answers_wire(ans.drop_last()) + answer_wire(ans.last())
    }
}

/// `n` fields read one after the other from `pos`, and the position after the last.
pub open spec fn parse_fields(buf: Seq<u8>, pos: int, n: nat) -> Option<(Seq<FieldView>, int)>
    decreases n,
{
    if n == 0 {
        Some((Seq::empty(), pos))
    } else {
        match parse_fields(buf, pos, (n - 1) as nat) {
            Some((fs, p)) => match parse_field(buf, p) {
                Some((f, q)) => Some((fs.push(f), q)),
                None => None,
            },
            None => None,
        }
    }
}

/// `n` answers read one after the other from `pos`, and the position after the last.
pub open spec fn parse_answers(buf: Seq<u8>, pos: int, n: nat) -> Option<(Seq<AnswerView>, int)>
    decreases n,
{
    if n == 0 {
        Some((Seq::empty(), pos))
    } else {
        match parse_answers(buf, pos, (n - 1) as nat) {
            Some((ans, p)) => match parse_answer(buf, p) {
                Some((a, q)) => Some((ans.push(a), q)),
                None => None,
            },
            None => None,
        }
    }
}

/// The header `h` with the response code that a reply to it carries: 0 for a standard
/// query (opcode 0), "not implemented" for any other opcode.
pub open spec fn with_reply_rcode(h: DnsHeader) -> DnsHeader {
    DnsHeader {
        flags: Flags { rcode: if h.flags.opcode == 0 { 0 } else { RCODE_NOT_IMPLEMENTED }, ..h.flags },
        ..h
    }
}

/// The header of a request as [`Message::header_from_slice`] reads it: the id, every
/// flag but the response code and the four counts as the request's first twelve bytes
/// hold them, and a response code of 0 when the request's opcode (bits 3 to 6 of byte 2)
/// is 0 and "not implemented" otherwise.
pub proof fn lemma_reply_header_layout(s: Seq<u8>)
    requires
        s.len() >= HEADER_LEN,
    ensures
        ({
            let h = with_reply_rcode(header_of(s));
            &&& h.id == s[0] * 256 + s[1]
            &&& flags_match_bytes(Flags { rcode: s[3] & 0xf, ..h.flags }, s[2], s[3])
            &&& h.flags.rcode == (if (s[2] >> 3u8) & 0xf == 0 { 0u8 } else { 4u8 })
            &&& h.qdcount == s[4] * 256 + s[5]
            &&& h.ancount == s[6] * 256 + s[7]
            &&& h.nscount == s[8] * 256 + s[9]
            &&& h.arcount == s[10] * 256 + s[11]
        }),
{
    lemma_header_of_layout(s);
}

/// Reading `n` fields gives `n` of them, and reading fewer gives the first ones.
pub proof fn lemma_parse_fields_prefix(buf: Seq<u8>, pos: int, m: nat, n: nat)
    requires
        m <= n,
        parse_fields(buf, pos, n) is Some,
    ensures
        parse_fields(buf, pos, m) is Some,
        parse_fields(buf, pos, n).unwrap().0.len() == n,
        parse_fields(buf, pos, m).unwrap().0 == parse_fields(buf, pos, n).unwrap().0.take(m as int),
    decreases n,
{
    if n > 0 {
        lemma_parse_fields_prefix(buf, pos, if m == n { (n - 1) as nat } else { m }, (n - 1) as nat);
        let prev = parse_fields(buf, pos, (n - 1) as nat).unwrap().0;
        let all = parse_fields(buf, pos, n).unwrap().0;
        assert(all.take(n - 1) =~= prev);
        if m < n {
            assert(all.take(m as int) =~= prev.take(m as int));
        } else {
            assert(all.take(m as int) =~= all);
        }
    } else {
        assert(parse_fields(buf, pos, n).unwrap().0.take(0) =~= Seq::<FieldView>::empty());
    }
}

/// Reading `n` answers gives `n` of them, and reading fewer gives the first ones.
pub proof fn lemma_parse_answers_prefix(buf: Seq<u8>, pos: int, m: nat, n: nat)
    requires
        m <= n,
        parse_answers(buf, pos, n) is Some,
    ensures
        parse_answers(buf, pos, m) is Some,
        parse_answers(buf, pos, n).unwrap().0.len() == n,
        parse_answers(buf, pos, m).unwrap().0 == parse_answers(buf, pos, n).unwrap().0.take(m as int),
    decreases n,
{
    if n > 0 {
        lemma_parse_answers_prefix(buf, pos, if m == n { (n - 1) as nat } else { m }, (n - 1) as nat);
        let prev = parse_answers(buf, pos, (n - 1) as nat).unwrap().0;
        let all = parse_answers(buf, pos, n).unwrap().0;
        assert(all.take(n - 1) =~= prev);
        if m < n {
            assert(all.take(m as int) =~= prev.take(m as int));
        } else {
            assert(all.take(m as int) =~= all);
        }
    } else {
        assert(parse_answers(buf, pos, n).unwrap().0.take(0) =~= Seq::<AnswerView>::empty());
    }
}

/// Fields whose names have only non-empty labels shorter than 256 bytes, written one
/// after the other, read back as the same fields.
pub proof fn lemma_fields_roundtrip(fs: Seq<FieldView>, buf: Seq<u8>, pos: int)
    requires
        forall|i: int| 0 <= i < fs.len() ==> field_encodable(#[trigger] fs[i]),
        0 <= pos,
        pos + fields_wire(fs).len() <= buf.len(),
        buf.subrange(pos, pos + fields_wire(fs).len()) == fields_wire(fs),
    ensures
        parse_fields(buf, pos, fs.len()) == Some((fs, pos + fields_wire(fs).len())),
    decreases fs.len(),
{
    if fs.len() == 0 {
        assert(fs =~= Seq::<FieldView>::empty());
    } else {
        let init = fs.drop_last();
        let w = fields_wire(fs);
        let wi = fields_wire(init);
        let p = pos + wi.len();
        assert forall|t: int| 0 <= t < w.len() implies buf[pos + t] == w[t] by {
            assert(buf[pos + t] == buf.subrange(pos, pos + w.len())[t]);
        }
        assert(buf.subrange(pos, p) =~= wi);
        assert forall|i: int| 0 <= i < init.len() implies field_encodable(#[trigger] init[i]) by {
            assert(init[i] == fs[i]);
        }
        lemma_fields_roundtrip(init, buf, pos);
        let lw = field_wire(fs.last());
        assert(w == wi + lw);
        assert forall|t: int| 0 <= t < lw.len() implies buf.subrange(p, p + lw.len())[t] == lw[t] by {
            assert(buf[p + t] == w[wi.len() + t]);
        }
        assert(buf.subrange(p, p + lw.len()) =~= lw);
        lemma_field_roundtrip(fs.last(), buf, p);
        assert(init.push(fs.last()) =~= fs);
    }
}

/// Address answers whose names have only non-empty labels shorter than 256 bytes,
/// written one after the other, read back as the same answers.
pub proof fn lemma_answers_roundtrip(ans: Seq<AnswerView>, buf: Seq<u8>, pos: int)
    requires
        forall|i: int|
            0 <= i < ans.len() ==> field_encodable((#[trigger] ans[i]).field) && is_address(
                ans[i].field.f_type,
                ans[i].length,
            ),
        0 <= pos,
        pos + answers_wire(ans).len() <= buf.len(),
        buf.subrange(pos, pos + answers_wire(ans).len()) == answers_wire(ans),
    ensures
        parse_answers(buf, pos, ans.len()) == Some((ans, pos + answers_wire(ans).len())),
    decreases ans.len(),
{
    if ans.len() == 0 {
        assert(ans =~= Seq::<AnswerView>::empty());
    } else {
        let init = ans.drop_last();
        let w = answers_wire(ans);
        let wi = answers_wire(init);
        let p = pos + wi.len();
        assert forall|t: int| 0 <= t < w.len() implies buf[pos + t] == w[t] by {
            assert(buf[pos + t] == buf.subrange(pos, pos + w.len())[t]);
        }
        assert(buf.subrange(pos, p) =~= wi);
        assert forall|i: int|
            0 <= i < init.len() implies field_encodable((#[trigger] init[i]).field) && is_address(
            init[i].field.f_type,
            init[i].length,
        ) by {
            assert(init[i] == ans[i]);
        }
        lemma_answers_roundtrip(init, buf, pos);
        let lw = answer_wire(ans.last());
        assert(w == wi + lw);
        assert forall|t: int| 0 <= t < lw.len() implies buf.subrange(p, p + lw.len())[t] == lw[t] by {
            assert(buf[p + t] == w[wi.len() + t]);
        }
        assert(buf.subrange(p, p + lw.len()) =~= lw);
        lemma_answer_roundtrip(ans.last(), buf, p);
        assert(init.push(ans.last()) =~= ans);
    }
}

/// `after` is `before` with `question` added as [`Message::add_question`] adds it.
pub open spec fn question_added(before: Message, question: Question, after: Message) -> bool {
    &&& after.questions@ == before.questions@.push(question)
    &&& after.answers == before.answers
    &&& after.header == (DnsHeader { qdcount: after.questions@.len() as u16, ..before.header })
}

proof fn lemma_add_questions_prefix(id: u16, qs: Seq<Question>, states: Seq<Message>, k: int)
    requires
        qs.len() < 65536,
        states.len() == qs.len() + 1,
        states[0].header == fresh_header(id),
        states[0].questions@.len() == 0,
        forall|i: int| 0 <= i < qs.len() ==> #[trigger] question_added(states[i], qs[i], states[i + 1]),
        0 <= k <= qs.len(),
    ensures
        states[k].questions@ == qs.take(k),
        states[k].answers == states[0].answers,
        states[k].header == (DnsHeader { qdcount: k as u16, ..fresh_header(id) }),
    decreases k,
{
    if k == 0 {
        assert(states[0].questions@ =~= qs.take(0));
    } else {
        lemma_add_questions_prefix(id, qs, states, k - 1);
        let j = k - 1;
        assert(question_added(states[j], qs[j], states[j + 1]));
        assert(states[j + 1] == states[k]);
        assert(qs.take(k - 1).push(qs[k - 1]) =~= qs.take(k));
    }
}

/// Starting from a new message and adding questions one after another keeps the
/// questions in call order, sets the question count to their number and leaves the
/// answers and every other header field as the new message had them.
pub proof fn lemma_add_questions(id: u16, qs: Seq<Question>, states: Seq<Message>)
    requires
        qs.len() < 65536,
        states.len() == qs.len() + 1,
        states[0].header == fresh_header(id),
        states[0].questions@.len() == 0,
        forall|i: int| 0 <= i < qs.len() ==> #[trigger] question_added(states[i], qs[i], states[i + 1]),
    ensures
        states.last().questions@ == qs,
        states.last().answers == states[0].answers,
        states.last().header == (DnsHeader { qdcount: qs.len() as u16, ..fresh_header(id) }),
{
    lemma_add_questions_prefix(id, qs, states, qs.len() as int);
    assert(qs.take(qs.len() as int) =~= qs);
}

impl Message {
    pub fn new(id: u16) -> (m: Self)
        ensures
            m.header == fresh_header(id),
            m.questions@.len() == 0,
            m.answers@.len() == 0,
    {
        Self { header: DnsHeader::new_reponse(id), questions: Vec::new(), answers: Vec::new() }
    }

    /// Marks the message as a query.
    pub fn set_request(&mut self)
        ensures
            final(self).header == (DnsHeader {
                flags: Flags { qr: false, ..old(self).header.flags },
                ..old(self).header
            }),
            final(self).questions == old(self).questions,
            final(self).answers == old(self).answers,
    {
        self.header.flags.set_req();
    }

    /// Marks the message as a response.
    pub fn set_reply(&mut self)
        ensures
            final(self).header == (DnsHeader {
                flags: Flags { qr: true, ..old(self).header.flags },
                ..old(self).header
            }),
            final(self).questions == old(self).questions,
            final(self).answers == old(self).answers,
    {
        self.header.flags.set_resp();
    }

    /// Reads the header from the first twelve bytes of `buf` into a message without
    /// questions or answers, with the response code a reply to it carries; returns it
    /// and the header length.
    pub fn header_from_slice(buf: &[u8]) -> (res: (Self, usize))
        requires
            buf@.len() >= HEADER_LEN,
        ensures
            res.0.header == with_reply_rcode(header_of(buf@)),
            res.0.questions@.len() == 0,
            res.0.answers@.len() == 0,
            res.1 == HEADER_LEN,
    {
        let mut header = DnsHeader::from_bytes(buf);
        header.flags.rcode = if header.flags.opcode == 0 { 0 } else { RCODE_NOT_IMPLEMENTED };
        (Self { header: header, questions: Vec::new(), answers: Vec::new() }, HEADER_LEN)
    }

    /// Whether the header's question count of questions can be read from the start of `buf`.
    pub fn questions_readable(&self, buf: &[u8]) -> (ok: bool)
        ensures
            ok == (parse_fields(buf@, 0, self.header.qdcount as nat) is Some),
    {
        let n = self.header.qdcount;
        let mut start: usize = 0;
        let mut i: u16 = 0;
        while i < n
            invariant
                i <= n,
                n == self.header.qdcount,
                parse_fields(buf@, 0, i as nat) == Some((parse_fields(buf@, 0, i as nat).unwrap().0, start as int)),
                (parse_fields(buf@, 0, n as nat) is Some) ==> (parse_fields(buf@, 0, i as nat) is Some),
            decreases n - i,
        {
            if !crate::field::Field::readable_at(buf, start) {
                proof {
                    if parse_fields(buf@, 0, n as nat) is Some {
                        lemma_parse_fields_prefix(buf@, 0, (i + 1) as nat, n as nat);
                    }
                }
                return false;
            }
            let (_q, end) = Question::read(buf, start);
            start = end;
            i = i + 1;
            proof {
                if parse_fields(buf@, 0, n as nat) is Some {
                    lemma_parse_fields_prefix(buf@, 0, i as nat, n as nat);
                }
            }
        }
        true
    }

    /// Reads the header's question count of questions from the start of `buf` and adds
    /// them; returns the number of bytes read.
    pub fn questions_from_slice(&mut self, buf: &[u8]) -> (n: usize)
        requires
            parse_fields(buf@, 0, old(self).header.qdcount as nat) is Some,
        ensures
            ({
                let (fs, end) = parse_fields(buf@, 0, old(self).header.qdcount as nat).unwrap();
                &&& n == end
                &&& final(self).questions@.len() == old(self).questions@.len() + fs.len()
                &&& question_fields(final(self).questions@) == question_fields(old(self).questions@)
                    + fs
                &&& final(self).questions@.take(old(self).questions@.len() as int)
                    == old(self).questions@
                &&& question_fields(final(self).questions@.skip(old(self).questions@.len() as int))
                    == fs
                &&& final(self).answers == old(self).answers
                &&& final(self).header == (DnsHeader {
                    qdcount: if fs.len() == 0 {
                        old(self).header.qdcount
                    } else {
                        final(self).questions@.len() as u16
                    },
                    ..old(self).header
                })
            }),
    {
        let count = self.header.qdcount;
        let ghost all = parse_fields(buf@, 0, count as nat).unwrap().0;
        let ghost old_len = self.questions@.len() as int;
        let mut start: usize = 0;
        let mut i: u16 = 0;
        proof { lemma_parse_fields_prefix(buf@, 0, 0, count as nat); }
        assert(question_fields(self.questions@.skip(old_len)) =~= all.take(0));
        assert(self.questions@.take(old_len) =~= old(self).questions@);
        while i < count
            invariant
                i <= count,
                count == old(self).header.qdcount,
                all == parse_fields(buf@, 0, count as nat).unwrap().0,
                all.len() == count,
                parse_fields(buf@, 0, count as nat) is Some,
                parse_fields(buf@, 0, i as nat) == Some((all.take(i as int), start as int)),
                old_len == old(self).questions@.len(),
                self.questions@.len() == old_len + i,
                self.questions@.take(old_len) == old(self).questions@,
                question_fields(self.questions@.skip(old_len)) == all.take(i as int),
                self.answers == old(self).answers,
                self.header == (DnsHeader {
                    qdcount: if i == 0 { old(self).header.qdcount } else { self.questions@.len() as u16 },
                    ..old(self).header
                }),
            decreases count - i,
        {
            proof { lemma_parse_fields_prefix(buf@, 0, (i + 1) as nat, count as nat); }
            let (question, end) = Question::read(buf, start);
            let ghost before = self.questions@;
            start = end;
            self.add_question(question);
            proof {
                assert(all.take(i as int).push(all[i as int]) =~= all.take(i + 1));
                assert(self.questions@.take(old_len) =~= before.take(old_len));
                assert(self.questions@.skip(old_len) =~= before.skip(old_len).push(question));
                assert(question_fields(self.questions@.skip(old_len)) =~= question_fields(
                    before.skip(old_len),
                ).push(question.field@));
            }
            i = i + 1;
        }
        assert(all.take(count as int) =~= all);
        assert(self.questions@ =~= self.questions@.take(old_len) + self.questions@.skip(old_len));
        assert(question_fields(self.questions@) =~= question_fields(old(self).questions@)
            + question_fields(self.questions@.skip(old_len)));
        start
    }

    /// Whether the header's answer count of answers can be read from the start of `buf`.
    pub fn answers_readable(&self, buf: &[u8]) -> (ok: bool)
        ensures
            ok == (parse_answers(buf@, 0, self.header.ancount as nat) is Some),
    {
        let n = self.header.ancount;
        let mut start: usize = 0;
        let mut i: u16 = 0;
        while i < n
            invariant
                i <= n,
                n == self.header.ancount,
                parse_answers(buf@, 0, i as nat) == Some((parse_answers(buf@, 0, i as nat).unwrap().0, start as int)),
                (parse_answers(buf@, 0, n as nat) is Some) ==> (parse_answers(buf@, 0, i as nat) is Some),
            decreases n - i,
        {
            if !Answer::readable_at(buf, start) {
                proof {
                    if parse_answers(buf@, 0, n as nat) is Some {
                        lemma_parse_answers_prefix(buf@, 0, (i + 1) as nat, n as nat);
                    }
                }
                return false;
            }
            let (_a, end) = Answer::read_at(buf, start);
            start = end;
            i = i + 1;
            proof {
                if parse_answers(buf@, 0, n as nat) is Some {
                    lemma_parse_answers_prefix(buf@, 0, i as nat, n as nat);
                }
            }
        }
        true
    }

    /// Reads the header's answer count of answers from the start of `buf` and adds them;
    /// returns the number of bytes read.
    pub fn answers_from_slice(&mut self, buf: &[u8]) -> (n: usize)
        requires
            parse_answers(buf@, 0, old(self).header.ancount as nat) is Some,
        ensures
            ({
                let (ans, end) = parse_answers(buf@, 0, old(self).header.ancount as nat).unwrap();
                &&& n == end
                &&& final(self).answers@.len() == old(self).answers@.len() + ans.len()
                &&& answer_views(final(self).answers@) == answer_views(old(self).answers@) + ans
                &&& final(self).answers@.take(old(self).answers@.len() as int)
                    == old(self).answers@
                &&& answer_views(final(self).answers@.skip(old(self).answers@.len() as int)) == ans
                &&& final(self).questions == old(self).questions
                &&& final(self).header == (DnsHeader {
                    ancount: if ans.len() == 0 {
                        old(self).header.ancount
                    } else {
                        final(self).answers@.len() as u16
                    },
                    ..old(self).header
                })
            }),
    {
        let count = self.header.ancount;
        let ghost all = parse_answers(buf@, 0, count as nat).unwrap().0;
        let ghost old_len = self.answers@.len() as int;
        let mut start: usize = 0;
        let mut i: u16 = 0;
        proof { lemma_parse_answers_prefix(buf@, 0, 0, count as nat); }
        assert(answer_views(self.answers@.skip(old_len)) =~= all.take(0));
        assert(self.answers@.take(old_len) =~= old(self).answers@);
        while i < count
            invariant
                i <= count,
                count == old(self).header.ancount,
                all == parse_answers(buf@, 0, count as nat).unwrap().0,
                all.len() == count,
                parse_answers(buf@, 0, count as nat) is Some,
                parse_answers(buf@, 0, i as nat) == Some((all.take(i as int), start as int)),
                old_len == old(self).answers@.len(),
                self.answers@.len() == old_len + i,
                self.answers@.take(old_len) == old(self).answers@,
                answer_views(self.answers@.skip(old_len)) == all.take(i as int),
                self.questions == old(self).questions,
                self.header == (DnsHeader {
                    ancount: if i == 0 { old(self).header.ancount } else { self.answers@.len() as u16 },
                    ..old(self).header
                }),
            decreases count - i,
        {
            proof { lemma_parse_answers_prefix(buf@, 0, (i + 1) as nat, count as nat); }
            let (answer, end) = Answer::read_at(buf, start);
            let ghost before = self.answers@;
            start = end;
            self.add_answer(answer);
            proof {
                assert(all.take(i as int).push(all[i as int]) =~= all.take(i + 1));
                assert(self.answers@.take(old_len) =~= before.take(old_len));
                assert(self.answers@.skip(old_len) =~= before.skip(old_len).push(answer));
                assert(answer_views(self.answers@.skip(old_len)) =~= answer_views(
                    before.skip(old_len),
                ).push(answer@));
            }
            i = i + 1;
        }
        assert(all.take(count as int) =~= all);
        assert(self.answers@ =~= self.answers@.take(old_len) + self.answers@.skip(old_len));
        assert(answer_views(self.answers@) =~= answer_views(old(self).answers@) + answer_views(
            self.answers@.skip(old_len),
        ));
        start
    }

    /// Adds a question and sets the question count to the number of questions.
    pub fn add_question(&mut self, question: Question)
        ensures
            question_added(*old(self), question, *final(self)),
    {
        self.questions.push(question);
        self.header.qdcount = self.questions.len() as u16;
    }

    /// Adds an answer and sets the answer count to the number of answers.
    pub fn add_answer(&mut self, answer: Answer)
        ensures
            final(self).answers@ == old(self).answers@.push(answer),
            final(self).questions == old(self).questions,
            final(self).header == (DnsHeader {
                ancount: final(self).answers@.len() as u16,
                ..old(self).header
            }),
    {
        self.answers.push(answer);
        self.header.ancount = self.answers.len() as u16;
    }

    /// Writes the header at the start of `buf`; returns its length.
    pub fn header_into_slice(&self, buf: &mut [u8]) -> (n: usize)
        requires
            old(buf)@.len() >= HEADER_LEN,
        ensures
            final(buf)@ == splice(old(buf)@, 0, header_bytes(self.header)),
            n == HEADER_LEN,
    {
        self.header.write_into_bytes(buf);
        HEADER_LEN
    }

    /// The number of bytes that the questions take on the wire, or `None` where that
    /// number does not fit a `usize`.
    pub fn questions_wire_len(&self) -> (n: Option<usize>)
        ensures
            n matches Some(k) ==> k == fields_wire(question_fields(self.questions@)).len(),
            n is None ==> fields_wire(question_fields(self.questions@)).len() > usize::MAX,
    {
        let ghost fs = question_fields(self.questions@);
        let mut total: usize = 0;
        let mut i: usize = 0;
        while i < self.questions.len()
            invariant
                i <= self.questions@.len(),
                fs == question_fields(self.questions@),
                total == fields_wire(fs.take(i as int)).len(),
            decreases self.questions@.len() - i,
        {
            let q = &self.questions[i];
            proof {
                assert(fs.take(i + 1).drop_last() =~= fs.take(i as int));
                lemma_field_wire_len(q.field@);
                lemma_fields_wire_len_grows(fs, (i + 1) as int, fs.len() as int);
            }
            let len = q.field.name.as_str().as_bytes().len();
            match total.checked_add(len) {
                Some(t) => match t.checked_add(6) {
                    Some(t) => {
                        total = t;
                    },
                    None => {
                        assert(fs.take(fs.len() as int) =~= fs);
                        return None;
                    },
                },
                None => {
                    assert(fs.take(fs.len() as int) =~= fs);
                    return None;
                },
            }
            i = i + 1;
        }
        assert(fs.take(fs.len() as int) =~= fs);
        Some(total)
    }

    /// Writes the questions one after the other at the start of `buf`; returns the
    /// number of bytes written.
    pub fn questions_into_slice(&self, buf: &mut [u8]) -> (n: usize)
        requires
            fields_wire(question_fields(self.questions@)).len() <= old(buf)@.len(),
        ensures
            final(buf)@ == splice(old(buf)@, 0, fields_wire(question_fields(self.questions@))),
            n == fields_wire(question_fields(self.questions@)).len(),
    {
        self.write_questions_at(buf, 0)
    }

    /// Writes the questions one after the other at `pos`; returns the position after them.
    pub fn write_questions_at(&self, buf: &mut [u8], pos: usize) -> (end: usize)
        requires
            pos + fields_wire(question_fields(self.questions@)).len() <= old(buf)@.len(),
        ensures
            final(buf)@ == splice(old(buf)@, pos as int, fields_wire(question_fields(self.questions@))),
            end == pos + fields_wire(question_fields(self.questions@)).len(),
    {
        let ghost fs = question_fields(self.questions@);
        let mut start: usize = pos;
        let mut i: usize = 0;
        assert(buf@ =~= splice(old(buf)@, pos as int, fields_wire(fs.take(0))));
        while i < self.questions.len()
            invariant
                i <= self.questions@.len(),
                fs == question_fields(self.questions@),
                pos + fields_wire(fs).len() <= old(buf)@.len(),
                buf@.len() == old(buf)@.len(),
                buf@ == splice(old(buf)@, pos as int, fields_wire(fs.take(i as int))),
                start == pos + fields_wire(fs.take(i as int)).len(),
            decreases self.questions@.len() - i,
        {
            let question = &self.questions[i];
            proof {
                assert(fs.take(i + 1).drop_last() =~= fs.take(i as int));
                lemma_fields_wire_len_grows(fs, (i + 1) as int, fs.len() as int);
                assert(fs.take(fs.len() as int) =~= fs);
                lemma_splice_twice(old(buf)@, pos as int, fields_wire(fs.take(i as int)), field_wire(question.field@));
            }
            start = question.field.write_at(buf, start);
            i = i + 1;
        }
        assert(fs.take(fs.len() as int) =~= fs);
        start
    }

    /// Writes the answers one after the other at the start of `buf`; returns the number
    /// of bytes written.
    pub fn answers_into_slice(&self, buf: &mut [u8]) -> (n: usize)
        requires
            answers_wire(answer_views(self.answers@)).len() <= old(buf)@.len(),
        ensures
            final(buf)@ == splice(old(buf)@, 0, answers_wire(answer_views(self.answers@))),
            n == answers_wire(answer_views(self.answers@)).len(),
    {
        let ghost ans = answer_views(self.answers@);
        let mut start: usize = 0;
        let mut i: usize = 0;
        assert(buf@ =~= splice(old(buf)@, 0, answers_wire(ans.take(0))));
        while i < self.answers.len()
            invariant
                i <= self.answers@.len(),
                ans == answer_views(self.answers@),
                answers_wire(ans).len() <= old(buf)@.len(),
                buf@.len() == old(buf)@.len(),
                buf@ == splice(old(buf)@, 0, answers_wire(ans.take(i as int))),
                start == answers_wire(ans.take(i as int)).len(),
            decreases self.answers@.len() - i,
        {
            let answer = &self.answers[i];
            proof {
                assert(ans.take(i + 1).drop_last() =~= ans.take(i as int));
                lemma_answers_wire_len_grows(ans, (i + 1) as int, ans.len() as int);
                assert(ans.take(ans.len() as int) =~= ans);
                lemma_splice_twice(old(buf)@, 0, answers_wire(ans.take(i as int)), answer_wire(answer@));
            }
            start = answer.write_at(buf, start);
            i = i + 1;
        }
        assert(ans.take(ans.len() as int) =~= ans);
        start
    }
}

/// The wire form of a prefix of the fields is no longer than that of a longer prefix.
pub proof fn lemma_fields_wire_len_grows(fs: Seq<FieldView>, m: int, n: int)
    requires
        0 <= m <= n <= fs.len(),
    ensures
        fields_wire(fs.take(m)).len() <= fields_wire(fs.take(n)).len(),
    decreases n - m,
{
    if m < n {
        lemma_fields_wire_len_grows(fs, m, n - 1);
        assert(fs.take(n).drop_last() =~= fs.take(n - 1));
    }
}

/// The wire form of a prefix of the answers is no longer than that of a longer prefix.
pub proof fn lemma_answers_wire_len_grows(ans: Seq<AnswerView>, m: int, n: int)
    requires
        0 <= m <= n <= ans.len(),
    ensures
        answers_wire(ans.take(m)).len() <= answers_wire(ans.take(n)).len(),
    decreases n - m,
{
    if m < n {
        lemma_answers_wire_len_grows(ans, m, n - 1);
        assert(ans.take(n).drop_last() =~= ans.take(n - 1));
    }
}

} // verus!
