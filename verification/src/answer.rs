//! An answer record of a DNS message.
use crate::field::{
    field_encodable, field_wire, lemma_field_rewrite, lemma_field_roundtrip, parse_field, Field,
    FieldView,
};
use crate::name::plain_labels_at;
use crate::ipv4::{parse_ipv4, parse_ipv4_str};
use crate::wire::{
    be16, be32, get_u16, get_u32, lemma_u16_bytes, lemma_u16_roundtrip, lemma_u32_bytes,
    lemma_u32_roundtrip, put_u16, put_u32,
    splice, u16_at, u32_at,
};
use vstd::prelude::*;
use vstd::utf8::encode_utf8;

verus! {

/// An answer record: the field answered, its time to live, the length of its data and,
/// for an address record, the IPv4 address.
#[derive(Debug)]
pub struct Answer {
    pub field: Field,
    pub ttl: u32,
    pub length: u16,
    pub data: u32,
}

/// What an [`Answer`] holds.
pub struct AnswerView {
    pub field: FieldView,
    pub ttl: u32,
    pub length: u16,
    pub data: u32,
}

impl View for Answer {
    type V = AnswerView;

    open spec fn view(&self) -> AnswerView {
        AnswerView { field: self.field@, ttl: self.ttl, length: self.length, data: self.data }
    }
}

/// The record type of an IPv4 address record.
pub const TYPE_A: u16 = 1;

/// The answer carries a four-byte IPv4 address: its type is `A` and its length is 4.
pub open spec fn is_address(f_type: u16, length: u16) -> bool {
    f_type == TYPE_A && length == 4
}

/// The wire form of an answer: the field, the ttl, the length and four data bytes.
pub open spec fn answer_wire(a: AnswerView) -> Seq<u8> {
    field_wire(a.field) + be32(a.ttl) + be16(a.length) + be32(a.data)
}

/// The answer read from `buf` at `pos` and the position after it. The address of an
/// address record is read after the length; any other record gets data 0 and the
/// reading stops after the length, before its data.
pub open spec fn parse_answer(buf: Seq<u8>, pos: int) -> Option<(AnswerView, int)> {
    match parse_field(buf, pos) {
        Some((field, p)) => if p + 6 <= buf.len() {
            let ttl = u32_at(buf, p);
            let length = u16_at(buf, p + 4);
            if is_address(field.f_type, length) {
                if p + 10 <= buf.len() {
                    Some((AnswerView { field, ttl, length, data: u32_at(buf, p + 6) }, p + 10))
                } else {
                    None
                }
            } else {
                Some((AnswerView { field, ttl, length, data: 0 }, p + 6))
            }
        } else {
            None
        },
        None => None,
    }
}

/// An address answer whose name has only non-empty labels shorter than 256 bytes reads
/// back from its wire form as the same answer, and the reading ends right after it.
pub proof fn lemma_answer_roundtrip(a: AnswerView, buf: Seq<u8>, pos: int)
    requires
        field_encodable(a.field),
        is_address(a.field.f_type, a.length),
        0 <= pos,
        pos + answer_wire(a).len() <= buf.len(),
        buf.subrange(pos, pos + answer_wire(a).len()) == answer_wire(a),
    ensures
        parse_answer(buf, pos) == Some((a, pos + answer_wire(a).len())),
{
    let w = answer_wire(a);
    let fw = field_wire(a.field);
    let p = pos + fw.len();
    assert forall|t: int| 0 <= t < w.len() implies buf[pos + t] == w[t] by {
        assert(buf[pos + t] == buf.subrange(pos, pos + w.len())[t]);
    }
    assert(buf.subrange(pos, p) =~= fw);
    lemma_field_roundtrip(a.field, buf, pos);
    assert forall|t: int| 0 <= t < 4 implies buf.subrange(p, p + 4)[t] == be32(a.ttl)[t] by {
        assert(buf[p + t] == w[fw.len() + t]);
    }
    assert(buf.subrange(p, p + 4) =~= be32(a.ttl));
    assert forall|t: int| 0 <= t < 2 implies buf.subrange(p + 4, p + 6)[t] == be16(a.length)[t] by {
        assert(buf[p + 4 + t] == w[fw.len() + 4 + t]);
    }
    assert(buf.subrange(p + 4, p + 6) =~= be16(a.length));
    assert forall|t: int| 0 <= t < 4 implies buf.subrange(p + 6, p + 10)[t] == be32(a.data)[t] by {
        assert(buf[p + 6 + t] == w[fw.len() + 6 + t]);
    }
    assert(buf.subrange(p + 6, p + 10) =~= be32(a.data));
    lemma_u32_roundtrip(a.ttl, buf, p);
    lemma_u16_roundtrip(a.length, buf, p + 4);
    lemma_u32_roundtrip(a.data, buf, p + 6);
}

/// An address answer read from the wire and written again gives back the bytes it was
/// read from, when its name has at least one label and none of its labels holds a
/// `'.'` byte.
pub proof fn lemma_answer_rewrite(buf: Seq<u8>, pos: int)
    requires
        parse_answer(buf, pos) is Some,
        is_address(
            parse_answer(buf, pos).unwrap().0.field.f_type,
            parse_answer(buf, pos).unwrap().0.length,
        ),
        plain_labels_at(buf, pos),
    ensures
        ({
            let (a, end) = parse_answer(buf, pos).unwrap();
            answer_wire(a) == buf.subrange(pos, end)
        }),
{
    let (f, p) = parse_field(buf, pos).unwrap();
    lemma_field_rewrite(buf, pos);
    lemma_u32_bytes(buf, p);
    lemma_u16_bytes(buf, p + 4);
    lemma_u32_bytes(buf, p + 6);
    let (a, end) = parse_answer(buf, pos).unwrap();
    assert(answer_wire(a) =~= buf.subrange(pos, end));
}

/// The four bytes from `i` read as a big-endian number.
pub open spec fn be_value32(s: Seq<u8>, i: int) -> int {
    ((s[i] * 256 + s[i + 1]) * 256 + s[i + 2]) * 256 + s[i + 3]
}

/// An answer is read from its place after the field: the ttl from the next four bytes
/// and the length from the two after them, each big-endian; an address record (type 1,
/// length 4) takes its address from the four bytes after the length and ends there,
/// any other record has data 0 and ends right after the length.
pub proof fn lemma_parse_answer_layout(buf: Seq<u8>, pos: int)
    requires
        parse_answer(buf, pos) is Some,
    ensures
        ({
            let (a, end) = parse_answer(buf, pos).unwrap();
            let (f, p) = parse_field(buf, pos).unwrap();
            &&& a.field == f
            &&& a.ttl == be_value32(buf, p)
            &&& a.length == buf[p + 4] * 256 + buf[p + 5]
            &&& if f.f_type == 1 && a.length == 4 {
                a.data == be_value32(buf, p + 6) && end == p + 10
            } else {
                a.data == 0 && end == p + 6
            }
        }),
{
}

/// An answer is written with the field first, then the ttl in four big-endian bytes,
/// the length in two and the data in four.
pub proof fn lemma_answer_wire_layout(a: AnswerView)
    ensures
        ({
            let w = answer_wire(a);
            let k = field_wire(a.field).len() as int;
            &&& w.len() == k + 10
            &&& w.subrange(0, k) == field_wire(a.field)
            &&& be_value32(w, k) == a.ttl
            &&& w[k + 4] * 256 + w[k + 5] == a.length
            &&& be_value32(w, k + 6) == a.data
        }),
{
    let w = answer_wire(a);
    let k = field_wire(a.field).len() as int;
    assert(w.subrange(0, k) =~= field_wire(a.field));
    assert(w.subrange(k, k + 4) =~= be32(a.ttl));
    assert(w.subrange(k + 4, k + 6) =~= be16(a.length));
    assert(w.subrange(k + 6, k + 10) =~= be32(a.data));
    lemma_u32_roundtrip(a.ttl, w, k);
    lemma_u16_roundtrip(a.length, w, k + 4);
    lemma_u32_roundtrip(a.data, w, k + 6);
}

impl Answer {
    /// An answer whose data is the IPv4 address written in `ip`.
    pub fn new(name: String, f_type: u16, f_class: u16, ttl: u32, length: u16, ip: String) -> (a:
        Self)
        requires
            parse_ipv4(encode_utf8(ip@)) is Some,
        ensures
            a.field.name == name,
            a.field.f_type == f_type,
            a.field.f_class == f_class,
            a.ttl == ttl,
            a.length == length,
            a.data == parse_ipv4(encode_utf8(ip@)).unwrap(),
    {
        Self {
            field: Field { name, f_type, f_class },
            ttl,
            data: Self::ip_to_u32(ip),
            length,
        }
    }

    fn ip_to_u32(ip: String) -> (n: u32)
        requires
            parse_ipv4(encode_utf8(ip@)) is Some,
        ensures
            n == parse_ipv4(encode_utf8(ip@)).unwrap(),
    {
        match parse_ipv4_str(ip.as_str()) {
            Some(n) => n,
            None => {
                assert(false);
                0
            },
        }
    }

    /// Reads an answer from the start of `buf`; returns it and the number of bytes read.
    pub fn from_slice(buf: &[u8]) -> (res: (Self, usize))
        requires
            parse_answer(buf@, 0) is Some,
        ensures
            parse_answer(buf@, 0) == Some((res.0@, res.1 as int)),
    {
        Self::read_at(buf, 0)
    }

    /// Reads an answer at `pos`; returns it and the position after it.
    pub fn read_at(buf: &[u8], pos: usize) -> (res: (Self, usize))
        requires
            parse_answer(buf@, pos as int) is Some,
        ensures
            parse_answer(buf@, pos as int) == Some((res.0@, res.1 as int)),
    {
        let (field, mut start) = Field::read_at(buf, pos);
        assert(start + 6 <= buf.len());
        let ttl = get_u32(buf, start);
        start += 4;
        let length = get_u16(buf, start);
        start += 2;
        let data = if field.f_type == TYPE_A && length == 4 {
            assert(start + 4 <= buf.len());
            let d = get_u32(buf, start);
            start += 4;
            d
        } else {
            0
        };
        (Self { field, ttl, length, data }, start)
    }

    /// Whether an answer can be read at `pos`.
    pub fn readable_at(buf: &[u8], pos: usize) -> (ok: bool)
        ensures
            ok == (parse_answer(buf@, pos as int) is Some),
    {
        if !Field::readable_at(buf, pos) {
            return false;
        }
        let (field, p) = Field::read_at(buf, pos);
        if p > buf.len() || buf.len() - p < 6 {
            return false;
        }
        let length = get_u16(buf, p + 4);
        if field.f_type == TYPE_A && length == 4 {
            buf.len() - p >= 10
        } else {
            true
        }
    }

    /// Writes the answer at the start of `buf`; returns the number of bytes written.
    pub fn into_slice(&self, buf: &mut [u8]) -> (n: usize)
        requires
            answer_wire(self@).len() <= old(buf)@.len(),
        ensures
            final(buf)@ == splice(old(buf)@, 0, answer_wire(self@)),
            n == answer_wire(self@).len(),
    {
        self.write_at(buf, 0)
    }

    /// Writes the answer at `pos`; returns the position after it.
    pub fn write_at(&self, buf: &mut [u8], pos: usize) -> (end: usize)
        requires
            pos + answer_wire(self@).len() <= old(buf)@.len(),
        ensures
            final(buf)@ == splice(old(buf)@, pos as int, answer_wire(self@)),
            end == pos + answer_wire(self@).len(),
    {
        let ghost fw = field_wire(self.field@);
        let mut start = self.field.write_at(buf, pos);
        assert(start + 10 <= buf.len());
        put_u32(buf, start, self.ttl);
        start += 4;
        put_u16(buf, start, self.length);
        start += 2;
        put_u32(buf, start, self.data);
        start += 4;
        proof {
            assert(buf@ =~= splice(old(buf)@, pos as int, answer_wire(self@)));
        }
        start
    }
}

} // verus!
