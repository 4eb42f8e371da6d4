//! A resource field: a domain name with a record type and class.
use crate::name::{
    labels_encodable, lemma_name_rewrite, lemma_name_roundtrip, lemma_name_wire_len,
    name_readable, name_wire, plain_labels_at, read_name, read_name_at, write_name,
};
use crate::wire::{be16, get_u16, lemma_u16_bytes, lemma_u16_roundtrip, put_u16, splice, u16_at};
use vstd::prelude::*;
use vstd::utf8::{encode_utf8, encode_utf8_decode_utf8, encode_utf8_valid_utf8};

verus! {

/// A domain name with its record type and class.
#[derive(Debug)]
pub struct Field {
    pub name: String,
    pub f_type: u16,
    pub f_class: u16,
}

/// What a [`Field`] holds: the name as text, its type and its class.
pub struct FieldView {
    pub name: Seq<char>,
    pub f_type: u16,
    pub f_class: u16,
}

impl View for Field {
    type V = FieldView;

    open spec fn view(&self) -> FieldView {
        FieldView { name: self.name@, f_type: self.f_type, f_class: self.f_class }
    }
}

/// The wire form of a field: the name, then type and class as big-endian `u16`s.
pub open spec fn field_wire(f: FieldView) -> Seq<u8> {
    name_wire(encode_utf8(f.name)) + be16(f.f_type) + be16(f.f_class)
}

/// The field read from `buf` at `pos` and the position after it; `None` where the name
/// cannot be read or fewer than four bytes follow it.
pub open spec fn parse_field(buf: Seq<u8>, pos: int) -> Option<(FieldView, int)> {
    match read_name(buf, pos) {
        Some((name, end)) => if end + 4 <= buf.len() {
            Some((FieldView { name, f_type: u16_at(buf, end), f_class: u16_at(buf, end + 2) }, end + 4))
        } else {
            None
        },
        None => None,
    }
}

/// The field's name reads back from its wire form: each label is non-empty and
/// shorter than 256 bytes.
pub open spec fn field_encodable(f: FieldView) -> bool {
    labels_encodable(encode_utf8(f.name))
}

/// The wire form of a field is six bytes longer than the UTF-8 bytes of its name.
pub proof fn lemma_field_wire_len(f: FieldView)
    ensures
        field_wire(f).len() == encode_utf8(f.name).len() + 6,
{
    lemma_name_wire_len(encode_utf8(f.name));
}

/// A field whose name has only non-empty labels shorter than 256 bytes reads back
/// from its wire form, wherever it stands in a buffer, as the same field, and the
/// reading ends right after it.
pub proof fn lemma_field_roundtrip(f: FieldView, buf: Seq<u8>, pos: int)
    requires
        field_encodable(f),
        0 <= pos,
        pos + field_wire(f).len() <= buf.len(),
        buf.subrange(pos, pos + field_wire(f).len()) == field_wire(f),
    ensures
        parse_field(buf, pos) == Some((f, pos + field_wire(f).len())),
{
    let b = encode_utf8(f.name);
    let w = field_wire(f);
    let nw = name_wire(b);
    let end = pos + nw.len();
    encode_utf8_valid_utf8(f.name);
    encode_utf8_decode_utf8(f.name);
    assert(buf.subrange(pos, end) =~= nw) by {
        assert forall|t: int| 0 <= t < nw.len() implies buf.subrange(pos, end)[t] == nw[t] by {
            assert(buf[pos + t] == buf.subrange(pos, pos + w.len())[t]);
        }
    }
    lemma_name_roundtrip(b, buf, pos);
    assert(buf.subrange(end, end + 2) =~= be16(f.f_type)) by {
        assert(buf[end] == buf.subrange(pos, pos + w.len())[nw.len() as int]);
        assert(buf[end + 1] == buf.subrange(pos, pos + w.len())[nw.len() as int + 1]);
    }
    assert(buf.subrange(end + 2, end + 4) =~= be16(f.f_class)) by {
        assert(buf[end + 2] == buf.subrange(pos, pos + w.len())[nw.len() as int + 2]);
        assert(buf[end + 3] == buf.subrange(pos, pos + w.len())[nw.len() as int + 3]);
    }
    lemma_u16_roundtrip(f.f_type, buf, end);
    lemma_u16_roundtrip(f.f_class, buf, end + 2);
}

/// A field read from the wire and written again gives back the bytes it was read from,
/// when its name has at least one label and none of its labels holds a `'.'` byte.
pub proof fn lemma_field_rewrite(buf: Seq<u8>, pos: int)
    requires
        parse_field(buf, pos) is Some,
        plain_labels_at(buf, pos),
    ensures
        ({
            let (f, end) = parse_field(buf, pos).unwrap();
            &&& 0 <= pos < end <= buf.len()
            &&& field_wire(f) == buf.subrange(pos, end)
        }),
{
    let (name, p) = read_name(buf, pos).unwrap();
    lemma_name_rewrite(buf, pos);
    lemma_u16_bytes(buf, p);
    lemma_u16_bytes(buf, p + 2);
    let (f, end) = parse_field(buf, pos).unwrap();
    assert(field_wire(f) =~= buf.subrange(pos, end));
}

/// A field is read as its name, then its type and class from the four bytes after the
/// name, each big-endian; the reading ends after those four bytes.
pub proof fn lemma_parse_field_layout(buf: Seq<u8>, pos: int)
    requires
        parse_field(buf, pos) is Some,
    ensures
        ({
            let (f, end) = parse_field(buf, pos).unwrap();
            let (name, p) = read_name(buf, pos).unwrap();
            &&& f.name == name
            &&& end == p + 4
            &&& f.f_type == buf[p] * 256 + buf[p + 1]
            &&& f.f_class == buf[p + 2] * 256 + buf[p + 3]
        }),
{
}

/// A field is written as its name, then its type and class in two big-endian bytes each.
pub proof fn lemma_field_wire_layout(f: FieldView)
    ensures
        ({
            let w = field_wire(f);
            let k = name_wire(encode_utf8(f.name)).len() as int;
            &&& w.len() == k + 4
            &&& w.subrange(0, k) == name_wire(encode_utf8(f.name))
            &&& w[k] * 256 + w[k + 1] == f.f_type
            &&& w[k + 2] * 256 + w[k + 3] == f.f_class
        }),
{
    let w = field_wire(f);
    let k = name_wire(encode_utf8(f.name)).len() as int;
    assert(w.subrange(0, k) =~= name_wire(encode_utf8(f.name)));
    assert(w.subrange(k, k + 2) =~= be16(f.f_type));
    assert(w.subrange(k + 2, k + 4) =~= be16(f.f_class));
    lemma_u16_roundtrip(f.f_type, w, k);
    lemma_u16_roundtrip(f.f_class, w, k + 2);
}

impl Field {
    pub fn new(name: String, f_type: u16, f_class: u16) -> (f: Self)
        ensures
            f.name == name,
            f.f_type == f_type,
            f.f_class == f_class,
    {
        Field { name, f_type, f_class }
    }

    /// Reads a field from the start of `buf`; returns it and the number of bytes read.
    pub fn from_slice(buf: &[u8]) -> (res: (Self, usize))
        requires
            parse_field(buf@, 0) is Some,
        ensures
            parse_field(buf@, 0) == Some((res.0@, res.1 as int)),
    {
        Self::read_at(buf, 0)
    }

    /// Reads a field at `pos`; returns it and the position after it.
    pub fn read_at(buf: &[u8], pos: usize) -> (res: (Self, usize))
        requires
            parse_field(buf@, pos as int) is Some,
        ensures
            parse_field(buf@, pos as int) == Some((res.0@, res.1 as int)),
    {
        let (name, start) = read_name_at(buf, pos);
        assert(start + 4 <= buf.len());
        let f_type = get_u16(buf, start);
        let f_class = get_u16(buf, start + 2);
        (Field { name, f_type, f_class }, start + 4)
    }

    /// Whether a field can be read at `pos`.
    pub fn readable_at(buf: &[u8], pos: usize) -> (ok: bool)
        ensures
            ok == (parse_field(buf@, pos as int) is Some),
    {
        if !name_readable(buf, pos) {
            return false;
        }
        let (_name, end) = read_name_at(buf, pos);
        end <= buf.len() && buf.len() - end >= 4
    }

    /// The number of bytes of the wire form.
    pub fn wire_len(&self) -> (n: usize)
        requires
            encode_utf8(self.name@).len() + 6 <= usize::MAX,
        ensures
            n == field_wire(self@).len(),
    {
        proof { lemma_field_wire_len(self@); }
        self.name.as_str().as_bytes().len() + 6
    }

    /// Writes the wire form at the start of `buf`; returns its length.
    pub fn into_slice(&self, buf: &mut [u8]) -> (n: usize)
        requires
            field_wire(self@).len() <= old(buf)@.len(),
        ensures
            final(buf)@ == splice(old(buf)@, 0, field_wire(self@)),
            n == field_wire(self@).len(),
    {
        self.write_at(buf, 0)
    }

    /// Writes the wire form at `pos`; returns the position after it.
    pub fn write_at(&self, buf: &mut [u8], pos: usize) -> (end: usize)
        requires
            pos + field_wire(self@).len() <= old(buf)@.len(),
        ensures
            final(buf)@ == splice(old(buf)@, pos as int, field_wire(self@)),
            end == pos + field_wire(self@).len(),
    {
        let bytes = self.name.as_str().as_bytes();
        let p = write_name(bytes, buf, pos);
        let ghost nw = name_wire(bytes@);
        assert(field_wire(self@).len() == nw.len() + 4);
        assert(p + 4 <= buf.len());
        put_u16(buf, p, self.f_type);
        put_u16(buf, p + 2, self.f_class);
        proof {
            assert(buf@ =~= splice(old(buf)@, pos as int, nw + be16(self.f_type) + be16(self.f_class)));
        }
        p + 4
    }
}

} // verus!
