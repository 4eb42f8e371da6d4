//! Header, question and message types that hold their fields directly, with the
//! flag fields in the header itself; they write queries.
use crate::field::{field_wire, FieldView};
use crate::header::{header_bytes, flags_fit, header_of, lemma_header_roundtrip, Flags, HEADER_LEN};
use crate::message::fields_wire;
use crate::name::write_name;
use crate::wire::{be16, lemma_splice_twice, put_u16, splice, write_u16_big_endian};
use vstd::prelude::*;

verus! {

/// A DNS header with the flag fields held directly.
#[derive(Debug, Clone, Copy, PartialEq, Eq, Structural)]
pub struct DnsHeader {
    pub id: u16,
    /// Query (`false`) or response (`true`).
    pub qr: bool,
    pub opcode: u8,
    /// Authoritative answer.
    pub aa: bool,
    /// Truncation.
    pub tc: bool,
    /// Recursion desired.
    pub rd: bool,
    /// Recursion available.
    pub ra: bool,
    /// Reserved.
    pub z: u8,
    /// Response code.
    pub rcode: u8,
    /// Question count.
    pub qdcount: u16,
    /// Answer record count.
    pub ancount: u16,
    /// Authority record count.
    pub nscount: u16,
    /// Additional record count.
    pub arcount: u16,
}

impl DnsHeader {
    /// The flag fields gathered as [`Flags`].
    pub open spec fn flags(self) -> Flags {
        Flags {
            qr: self.qr,
            opcode: self.opcode,
            aa: self.aa,
            tc: self.tc,
            rd: self.rd,
            ra: self.ra,
            z: self.z,
            rcode: self.rcode,
        }
    }

    /// The same header in the form of [`crate::header::DnsHeader`].
    pub open spec fn as_header(self) -> crate::header::DnsHeader {
        crate::header::DnsHeader {
            id: self.id,
            flags: self.flags(),
            qdcount: self.qdcount,
            ancount: self.ancount,
            nscount: self.nscount,
            arcount: self.arcount,
        }
    }
}

/// A header with the given id, the response flag set and every other field zero.
pub open spec fn response_header(id: u16) -> DnsHeader {
    DnsHeader {
        id,
        qr: true,
        opcode: 0,
        aa: false,
        tc: false,
        rd: false,
        ra: false,
        z: 0,
        rcode: 0,
        qdcount: 0,
        ancount: 0,
        nscount: 0,
        arcount: 0,
    }
}

/// What [`DnsHeader::write_to`] writes is read back by [`crate::header::DnsHeader::from_bytes`]
/// as the same header, when each flag field fits its slot.
pub proof fn lemma_written_header_reads_back(h: DnsHeader, s: Seq<u8>)
    requires
        flags_fit(h.flags()),
        s.len() >= HEADER_LEN,
        s.take(HEADER_LEN as int) == header_bytes(h.as_header()),
    ensures
        header_of(s) == h.as_header(),
{
    lemma_header_roundtrip(h.as_header(), s);
}

impl Default for DnsHeader {
    fn default() -> (h: Self)
        ensures
            h == (DnsHeader { qr: false, ..response_header(0) }),
    {
        DnsHeader {
            id: 0,
            qr: false,
            opcode: 0,
            aa: false,
            tc: false,
            rd: false,
            ra: false,
            z: 0,
            rcode: 0,
            qdcount: 0,
            ancount: 0,
            nscount: 0,
            arcount: 0,
        }
    }
}

impl DnsHeader {
    /// A header with the given id, the response flag set and every other field zero.
    pub fn new_reponse(id: u16) -> (h: Self)
        ensures
            h == response_header(id),
    {
        Self { id, qr: true, ..Default::default() }
    }

    /// The flags word: the flag fields packed into sixteen bits.
    pub fn flags_as_u16(&self) -> (flags: u16)
        ensures
            flags == crate::header::flags_to_bits(self.flags()),
    {
        let f = Flags {
            qr: self.qr,
            opcode: self.opcode,
            aa: self.aa,
            tc: self.tc,
            rd: self.rd,
            ra: self.ra,
            z: self.z,
            rcode: self.rcode,
        };
        u16::from(&f)
    }

    /// Writes the twelve header bytes at the start of `buf`.
    pub fn write_to(&self, buf: &mut [u8])
        requires
            old(buf)@.len() >= HEADER_LEN,
        ensures
            final(buf)@ == splice(old(buf)@, 0, header_bytes(self.as_header())),
    {
        let ghost o = buf@;
        let ghost flags = crate::header::flags_to_bits(self.flags());
        write_u16_big_endian(buf, 0, self.id);
        write_u16_big_endian(buf, 2, self.flags_as_u16());
        proof { lemma_splice_twice(o, 0, be16(self.id), be16(flags)); }
        let ghost w = be16(self.id) + be16(flags);
        write_u16_big_endian(buf, 4, self.qdcount);
        proof { lemma_splice_twice(o, 0, w, be16(self.qdcount)); }
        let ghost w = w + be16(self.qdcount);
        write_u16_big_endian(buf, 6, self.ancount);
        proof { lemma_splice_twice(o, 0, w, be16(self.ancount)); }
        let ghost w = w + be16(self.ancount);
        write_u16_big_endian(buf, 8, self.nscount);
        proof { lemma_splice_twice(o, 0, w, be16(self.nscount)); }
        let ghost w = w + be16(self.nscount);
        write_u16_big_endian(buf, 10, self.arcount);
        proof { lemma_splice_twice(o, 0, w, be16(self.arcount)); }
    }
}

/// A question with the name, type and class held directly.
pub struct Question {
    pub name: String,
    pub q_type: u16,
    pub q_class: u16,
}

impl View for Question {
    type V = FieldView;

    open spec fn view(&self) -> FieldView {
        FieldView { name: self.name@, f_type: self.q_type, f_class: self.q_class }
    }
}

impl Question {
    pub fn new(name: String, q_type: u16, q_class: u16) -> (q: Self)
        ensures
            q.name == name,
            q.q_type == q_type,
            q.q_class == q_class,
    {
        Self { q_type, q_class, name }
    }

    /// Writes the question (name, type, class) at the start of `buf`; returns the
    /// number of bytes written.
    pub fn read_question(&self, buf: &mut [u8]) -> (n: usize)
        requires
            field_wire(self@).len() <= old(buf)@.len(),
        ensures
            final(buf)@ == splice(old(buf)@, 0, field_wire(self@)),
            n == field_wire(self@).len(),
    {
        self.write_at(buf, 0)
    }

    fn write_at(&self, buf: &mut [u8], pos: usize) -> (end: usize)
        requires
            pos + field_wire(self@).len() <= old(buf)@.len(),
        ensures
            final(buf)@ == splice(old(buf)@, pos as int, field_wire(self@)),
            end == pos + field_wire(self@).len(),
    {
        let bytes = self.name.as_str().as_bytes();
        let start = write_name(bytes, buf, pos);
        let ghost nw = crate::name::name_wire(bytes@);
        assert(field_wire(self@).len() == nw.len() + 4);
        assert(start + 4 <= buf.len());
        put_u16(buf, start, self.q_type);
        put_u16(buf, start + 2, self.q_class);
        proof {
            assert(buf@ =~= splice(old(buf)@, pos as int, nw + be16(self.q_type) + be16(self.q_class)));
        }
        start + 4
    }
}

/// A message of a header and questions.
pub struct Message {
    pub header: DnsHeader,
    pub questions: Vec<Question>,
}

/// What the questions ask about.
pub open spec fn question_views(qs: Seq<Question>) -> Seq<FieldView> {
    qs.map_values(|q: Question| q@)
}

/// `after` is `before` with `question` added as [`Message::add_question`] adds it.
pub open spec fn question_added(before: Message, question: Question, after: Message) -> bool {
    &&& after.questions@ == before.questions@.push(question)
    &&& after.header == (DnsHeader { qdcount: after.questions@.len() as u16, ..before.header })
}

proof fn lemma_add_questions_prefix(id: u16, qs: Seq<Question>, states: Seq<Message>, k: int)
    requires
        qs.len() < 65536,
        states.len() == qs.len() + 1,
        states[0].header == response_header(id),
        states[0].questions@.len() == 0,
        forall|i: int| 0 <= i < qs.len() ==> #[trigger] question_added(states[i], qs[i], states[i + 1]),
        0 <= k <= qs.len(),
    ensures
        states[k].questions@ == qs.take(k),
        states[k].header == (DnsHeader { qdcount: k as u16, ..response_header(id) }),
    decreases k,
{
    if k == 0 {
        assert(states[0].questions@ =~= qs.take(0));
    } else {
        lemma_add_questions_prefix(id, qs, states, k - 1);
        let j = k - 1;
        assert(question_added(states[j], qs[j], states[j + 1]));
        assert(states[j + 1] == states[k]);
        assert(qs.take(k - 1).push(qs[k - 1]) =~= qs.take(k));
    }
}

/// Starting from a new message and adding questions one after another keeps the
/// questions in call order, sets the question count to their number and leaves every
/// other header field as the new message had it.
pub proof fn lemma_add_questions(id: u16, qs: Seq<Question>, states: Seq<Message>)
    requires
        qs.len() < 65536,
        states.len() == qs.len() + 1,
        states[0].header == response_header(id),
        states[0].questions@.len() == 0,
        forall|i: int| 0 <= i < qs.len() ==> #[trigger] question_added(states[i], qs[i], states[i + 1]),
    ensures
        states.last().questions@ == qs,
        states.last().header == (DnsHeader { qdcount: qs.len() as u16, ..response_header(id) }),
{
    lemma_add_questions_prefix(id, qs, states, qs.len() as int);
    assert(qs.take(qs.len() as int) =~= qs);
}

impl Message {
    /// A message with a response header of the given id and no questions.
    pub fn new(id: u16) -> (m: Self)
        ensures
            m.header == response_header(id),
            m.questions@.len() == 0,
    {
        Self { header: DnsHeader::new_reponse(id), questions: Vec::new() }
    }

    /// Adds a question and sets the question count to the number of questions.
    pub fn add_question(&mut self, question: Question)
        ensures
            question_added(*old(self), question, *final(self)),
    {
        self.questions.push(question);
        self.header.qdcount = self.questions.len() as u16;
    }

    /// Writes the header at the start of `buf`.
    pub fn write_header(&self, buf: &mut [u8])
        requires
            old(buf)@.len() >= HEADER_LEN,
        ensures
            final(buf)@ == splice(old(buf)@, 0, header_bytes(self.header.as_header())),
    {
        self.header.write_to(buf);
    }

    /// Writes the questions one after the other at the start of `buf`; returns the
    /// number of bytes written.
    pub fn write_questions(&self, buf: &mut [u8]) -> (n: usize)
        requires
            fields_wire(question_views(self.questions@)).len() <= old(buf)@.len(),
        ensures
            final(buf)@ == splice(old(buf)@, 0, fields_wire(question_views(self.questions@))),
            n == fields_wire(question_views(self.questions@)).len(),
    {
        let ghost fs = question_views(self.questions@);
        let mut start: usize = 0;
        let mut i: usize = 0;
        assert(buf@ =~= splice(old(buf)@, 0, fields_wire(fs.take(0))));
        while i < self.questions.len()
            invariant
                i <= self.questions@.len(),
                fs == question_views(self.questions@),
                fields_wire(fs).len() <= old(buf)@.len(),
                buf@.len() == old(buf)@.len(),
                buf@ == splice(old(buf)@, 0, fields_wire(fs.take(i as int))),
                start == fields_wire(fs.take(i as int)).len(),
            decreases self.questions@.len() - i,
        {
            let question = &self.questions[i];
            proof {
                assert(fs.take(i + 1).drop_last() =~= fs.take(i as int));
                crate::message::lemma_fields_wire_len_grows(fs, (i + 1) as int, fs.len() as int);
                assert(fs.take(fs.len() as int) =~= fs);
                lemma_splice_twice(old(buf)@, 0, fields_wire(fs.take(i as int)), field_wire(question@));
            }
            start = question.write_at(buf, start);
            i = i + 1;
        }
        assert(fs.take(fs.len() as int) =~= fs);
        start
    }
}

} // verus!
