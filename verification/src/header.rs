//! The fixed twelve-byte DNS message header and its flags word.
use crate::wire::{
    be16, get_u16, lemma_splice_twice, lemma_u16_bytes, lemma_u16_roundtrip, splice, u16_at,
    write_u16_big_endian,
};
use vstd::prelude::*;
use vstd::std_specs::convert::FromSpecImpl;

verus! {

/// The length in bytes of a DNS header.
pub const HEADER_LEN: usize = 12;

/// The flags word of a DNS header.
#[derive(Debug, Clone, Copy, PartialEq, Eq, Structural)]
pub struct Flags {
    /// Query (`false`) or response (`true`).
    pub qr: bool,
    pub opcode: u8,
    /// Authoritative answer.
    pub aa: bool,
    /// Truncation.
    pub tc: bool,
    /// Recursion desired.
    pub rd: bool,
    /// Recursion available.
    pub ra: bool,
    /// Reserved.
    pub z: u8,
    /// Response code.
    pub rcode: u8,
}

/// The flags with every bit clear.
pub open spec fn cleared_flags() -> Flags {
    Flags { qr: false, opcode: 0, aa: false, tc: false, rd: false, ra: false, z: 0, rcode: 0 }
}

/// The flags word packed into sixteen bits: `qr` at bit 15, `opcode` from bit 11, `aa`,
/// `tc`, `rd`, `ra` at bits 10 to 7, `z` from bit 4 and `rcode` from bit 0. Each field
/// is shifted as a `u16` and or-ed in, so bits of a field wider than its slot are lost
/// above bit 15 or overlap the fields above it.
pub open spec fn flags_to_bits(f: Flags) -> u16 {
    (if f.qr { 0x8000u16 } else { 0u16 }) | ((f.opcode as u16) << 11u16) | (if f.aa {
        0x400u16
    } else {
        0u16
    }) | (if f.tc { 0x200u16 } else { 0u16 }) | (if f.rd { 0x100u16 } else { 0u16 }) | (if f.ra {
        0x80u16
    } else {
        0u16
    }) | ((f.z as u16) << 4u16) | (f.rcode as u16)
}

/// The flags unpacked from sixteen bits.
pub open spec fn flags_of_bits(b: u16) -> Flags {
    Flags {
        qr: (b >> 15u16) & 1 == 1,
        opcode: ((b >> 11u16) & 0xf) as u8,
        aa: (b >> 10u16) & 1 == 1,
        tc: (b >> 9u16) & 1 == 1,
        rd: (b >> 8u16) & 1 == 1,
        ra: (b >> 7u16) & 1 == 1,
        z: ((b >> 4u16) & 0x7) as u8,
        rcode: (b & 0xf) as u8,
    }
}

/// Each field fits its slot in the flags word.
pub open spec fn flags_fit(f: Flags) -> bool {
    f.opcode < 16 && f.z < 8 && f.rcode < 16
}

proof fn lemma_bits_repacked(b: u16)
    by (bit_vector)
    ensures
        b == (if (b >> 15u16) & 1 == 1 { 0x8000u16 } else { 0u16 }) | (((((b >> 11u16) & 0xf) as u8)
            as u16) << 11u16) | (if (b >> 10u16) & 1 == 1 { 0x400u16 } else { 0u16 }) | (if (b
            >> 9u16) & 1 == 1 { 0x200u16 } else { 0u16 }) | (if (b >> 8u16) & 1 == 1 {
            0x100u16
        } else {
            0u16
        }) | (if (b >> 7u16) & 1 == 1 { 0x80u16 } else { 0u16 }) | (((((b >> 4u16) & 0x7) as u8)
            as u16) << 4u16) | (((b & 0xf) as u8) as u16),
{
}

proof fn lemma_bits_unpacked(
    qr: bool,
    opcode: u8,
    aa: bool,
    tc: bool,
    rd: bool,
    ra: bool,
    z: u8,
    rcode: u8,
    x: u16,
)
    by (bit_vector)
    requires
        opcode < 16,
        z < 8,
        rcode < 16,
        x == (if qr { 0x8000u16 } else { 0u16 }) | ((opcode as u16) << 11u16) | (if aa {
            0x400u16
        } else {
            0u16
        }) | (if tc { 0x200u16 } else { 0u16 }) | (if rd { 0x100u16 } else { 0u16 }) | (if ra {
            0x80u16
        } else {
            0u16
        }) | ((z as u16) << 4u16) | (rcode as u16),
    ensures
        ((x >> 15u16) & 1 == 1) == qr,
        ((x >> 11u16) & 0xf) as u8 == opcode,
        ((x >> 10u16) & 1 == 1) == aa,
        ((x >> 9u16) & 1 == 1) == tc,
        ((x >> 8u16) & 1 == 1) == rd,
        ((x >> 7u16) & 1 == 1) == ra,
        ((x >> 4u16) & 0x7) as u8 == z,
        (x & 0xf) as u8 == rcode,
{
}

/// Packing the flags unpacked from any sixteen bits gives those bits back.
pub proof fn lemma_flags_bits_roundtrip(b: u16)
    ensures
        flags_to_bits(flags_of_bits(b)) == b,
{
    lemma_bits_repacked(b);
}

/// Unpacking packed flags gives the same flags, when each field fits its slot.
pub proof fn lemma_flags_roundtrip(f: Flags)
    requires
        flags_fit(f),
    ensures
        flags_of_bits(flags_to_bits(f)) == f,
{
    lemma_bits_unpacked(f.qr, f.opcode, f.aa, f.tc, f.rd, f.ra, f.z, f.rcode, flags_to_bits(f));
}

/// Unpacked flags always fit their slots.
pub proof fn lemma_flags_of_bits_fit(b: u16)
    ensures
        flags_fit(flags_of_bits(b)),
{
    assert(((b >> 11u16) & 0xf) < 16 && ((b >> 4u16) & 0x7) < 8 && (b & 0xf) < 16) by (bit_vector);
}

proof fn lemma_word_byte_bits(w: u16, hi: u8, lo: u8)
    by (bit_vector)
    requires
        hi == (w >> 8u16) as u8,
        lo == (w & 0xff) as u8,
    ensures
        ((w >> 15u16) & 1 == 1) == (hi >> 7u8 == 1),
        ((w >> 11u16) & 0xf) as u8 == (hi >> 3u8) & 0xf,
        ((w >> 10u16) & 1 == 1) == ((hi >> 2u8) & 1 == 1),
        ((w >> 9u16) & 1 == 1) == ((hi >> 1u8) & 1 == 1),
        ((w >> 8u16) & 1 == 1) == (hi & 1 == 1),
        ((w >> 7u16) & 1 == 1) == (lo >> 7u8 == 1),
        ((w >> 4u16) & 0x7) as u8 == (lo >> 4u8) & 0x7,
        (w & 0xf) as u8 == lo & 0xf,
{
}

proof fn lemma_word_div(w: u16)
    by (bit_vector)
    ensures
        w / 256 == w >> 8u16,
        w % 256 == w & 0xff,
{
}

/// The flags read from the two bytes `hi`, `lo` of a flags word, bit by bit: `qr` is the
/// top bit of `hi`, `opcode` the next four, then `aa`, `tc`, `rd`; `ra` is the top bit of
/// `lo`, `z` the next three and `rcode` the low four.
pub open spec fn flags_match_bytes(f: Flags, hi: u8, lo: u8) -> bool {
    &&& f.qr == (hi >> 7u8 == 1)
    &&& f.opcode == (hi >> 3u8) & 0xf
    &&& f.aa == ((hi >> 2u8) & 1 == 1)
    &&& f.tc == ((hi >> 1u8) & 1 == 1)
    &&& f.rd == (hi & 1 == 1)
    &&& f.ra == (lo >> 7u8 == 1)
    &&& f.z == (lo >> 4u8) & 0x7
    &&& f.rcode == lo & 0xf
}

/// Every header field is read from its place in the first twelve bytes: the id from
/// bytes 0 and 1, each flag from its bit of bytes 2 and 3, and the four counts from
/// bytes 4 to 11, each big-endian.
pub proof fn lemma_header_of_layout(s: Seq<u8>)
    requires
        s.len() >= HEADER_LEN,
    ensures
        header_of(s).id == s[0] * 256 + s[1],
        flags_match_bytes(header_of(s).flags, s[2], s[3]),
        header_of(s).qdcount == s[4] * 256 + s[5],
        header_of(s).ancount == s[6] * 256 + s[7],
        header_of(s).nscount == s[8] * 256 + s[9],
        header_of(s).arcount == s[10] * 256 + s[11],
{
    let w = u16_at(s, 2);
    lemma_u16_bytes(s, 2);
    assert(s.subrange(2, 4)[0] == s[2] && s.subrange(2, 4)[1] == s[3]);
    lemma_word_div(w);
    lemma_word_byte_bits(w, s[2], s[3]);
}

/// The header is written with every field at its place: the id in bytes 0 and 1, each
/// flag at its bit of bytes 2 and 3 (when each flag field fits its slot), and the four
/// counts in bytes 4 to 11, each big-endian.
pub proof fn lemma_header_bytes_layout(h: DnsHeader)
    requires
        flags_fit(h.flags),
    ensures
        header_bytes(h).len() == HEADER_LEN,
        header_bytes(h)[0] * 256 + header_bytes(h)[1] == h.id,
        flags_match_bytes(h.flags, header_bytes(h)[2], header_bytes(h)[3]),
        header_bytes(h)[4] * 256 + header_bytes(h)[5] == h.qdcount,
        header_bytes(h)[6] * 256 + header_bytes(h)[7] == h.ancount,
        header_bytes(h)[8] * 256 + header_bytes(h)[9] == h.nscount,
        header_bytes(h)[10] * 256 + header_bytes(h)[11] == h.arcount,
{
    let s = header_bytes(h);
    lemma_header_roundtrip(h, s);
    assert(s.take(HEADER_LEN as int) =~= s);
    lemma_header_of_layout(s);
}

impl Flags {
    /// Marks the message as a query.
    pub fn set_req(&mut self)
        ensures
            *final(self) == (Flags { qr: false, ..*old(self) }),
    {
        self.qr = false;
    }

    /// Marks the message as a response.
    pub fn set_resp(&mut self)
        ensures
            *final(self) == (Flags { qr: true, ..*old(self) }),
    {
        self.qr = true;
    }
}

impl Default for Flags {
    fn default() -> (f: Self)
        ensures
            f == cleared_flags(),
    {
        Flags { qr: false, opcode: 0, aa: false, tc: false, rd: false, ra: false, z: 0, rcode: 0 }
    }
}

impl From<u16> for Flags {
    fn from(flags: u16) -> (f: Self) {
        Flags {
            qr: (flags >> 15u16) & 1 == 1,
            opcode: ((flags >> 11u16) & 0xf) as u8,
            aa: (flags >> 10u16) & 1 == 1,
            tc: (flags >> 9u16) & 1 == 1,
            rd: (flags >> 8u16) & 1 == 1,
            ra: (flags >> 7u16) & 1 == 1,
            z: ((flags >> 4u16) & 0x7) as u8,
            rcode: (flags & 0xf) as u8,
        }
    }
}

impl FromSpecImpl<u16> for Flags {
    open spec fn obeys_from_spec() -> bool {
        true
    }

    open spec fn from_spec(flags: u16) -> Flags {
        flags_of_bits(flags)
    }
}

impl<'a> From<&'a Flags> for u16 {
    fn from(flags: &'a Flags) -> (bits: Self) {
        (if flags.qr { 0x8000u16 } else { 0u16 }) | ((flags.opcode as u16) << 11u16) | (if flags.aa {
            0x400u16
        } else {
            0u16
        }) | (if flags.tc { 0x200u16 } else { 0u16 }) | (if flags.rd { 0x100u16 } else { 0u16 }) | (
        if flags.ra {
            0x80u16
        } else {
            0u16
        }) | ((flags.z as u16) << 4u16) | (flags.rcode as u16)
    }
}

impl<'a> FromSpecImpl<&'a Flags> for u16 {
    open spec fn obeys_from_spec() -> bool {
        true
    }

    open spec fn from_spec(flags: &'a Flags) -> u16 {
        flags_to_bits(*flags)
    }
}

/// The header of a DNS message.
#[derive(Debug, Clone, Copy, PartialEq, Eq, Structural)]
pub struct DnsHeader {
    pub id: u16,
    pub flags: Flags,
    /// Question count.
    pub qdcount: u16,
    /// Answer record count.
    pub ancount: u16,
    /// Authority record count.
    pub nscount: u16,
    /// Additional record count.
    pub arcount: u16,
}

/// The twelve wire bytes of a header: id, flags word and the four counts, each big-endian.
pub open spec fn header_bytes(h: DnsHeader) -> Seq<u8> {
    be16(h.id) + be16(flags_to_bits(h.flags)) + be16(h.qdcount) + be16(h.ancount) + be16(
        h.nscount,
    ) + be16(h.arcount)
}

/// The header read from the first twelve bytes of `s`.
pub open spec fn header_of(s: Seq<u8>) -> DnsHeader {
    DnsHeader {
        id: u16_at(s, 0),
        flags: flags_of_bits(u16_at(s, 2)),
        qdcount: u16_at(s, 4),
        ancount: u16_at(s, 6),
        nscount: u16_at(s, 8),
        arcount: u16_at(s, 10),
    }
}

/// A header with the given id, cleared flags and zero counts.
pub open spec fn fresh_header(id: u16) -> DnsHeader {
    DnsHeader { id, flags: cleared_flags(), qdcount: 0, ancount: 0, nscount: 0, arcount: 0 }
}

/// A header written and read back is the same header, when its flag fields fit their slots.
pub proof fn lemma_header_roundtrip(h: DnsHeader, s: Seq<u8>)
    requires
        flags_fit(h.flags),
        s.len() >= HEADER_LEN,
        s.take(HEADER_LEN as int) == header_bytes(h),
    ensures
        header_of(s) == h,
{
    let w = header_bytes(h);
    assert forall|k: int| 0 <= k < 12 implies s[k] == w[k] by {
        assert(s[k] == s.take(12)[k]);
    }
    assert(s.subrange(0, 2) =~= be16(h.id));
    assert(s.subrange(2, 4) =~= be16(flags_to_bits(h.flags)));
    assert(s.subrange(4, 6) =~= be16(h.qdcount));
    assert(s.subrange(6, 8) =~= be16(h.ancount));
    assert(s.subrange(8, 10) =~= be16(h.nscount));
    assert(s.subrange(10, 12) =~= be16(h.arcount));
    lemma_u16_roundtrip(h.id, s, 0);
    lemma_u16_roundtrip(flags_to_bits(h.flags), s, 2);
    lemma_u16_roundtrip(h.qdcount, s, 4);
    lemma_u16_roundtrip(h.ancount, s, 6);
    lemma_u16_roundtrip(h.nscount, s, 8);
    lemma_u16_roundtrip(h.arcount, s, 10);
    lemma_flags_roundtrip(h.flags);
}

/// Any twelve bytes read as a header and written again are the same bytes.
pub proof fn lemma_header_bytes_roundtrip(s: Seq<u8>)
    requires
        s.len() >= HEADER_LEN,
    ensures
        header_bytes(header_of(s)) == s.take(HEADER_LEN as int),
{
    lemma_u16_bytes(s, 0);
    lemma_u16_bytes(s, 2);
    lemma_u16_bytes(s, 4);
    lemma_u16_bytes(s, 6);
    lemma_u16_bytes(s, 8);
    lemma_u16_bytes(s, 10);
    lemma_flags_bits_roundtrip(u16_at(s, 2));
    assert(header_bytes(header_of(s)) =~= s.take(HEADER_LEN as int));
}

impl Default for DnsHeader {
    fn default() -> (h: Self)
        ensures
            h == fresh_header(0),
    {
        DnsHeader {
            id: 0,
            flags: Flags::default(),
            qdcount: 0,
            ancount: 0,
            nscount: 0,
            arcount: 0,
        }
    }
}

impl DnsHeader {
    /// A header with the given id, cleared flags and zero counts.
    pub fn new_reponse(id: u16) -> (h: Self)
        ensures
            h == fresh_header(id),
    {
        DnsHeader { id, ..Default::default() }
    }

    /// Writes the twelve header bytes at the start of `buf`; returns their number.
    pub fn write_into_bytes(&self, buf: &mut [u8]) -> (n: usize)
        requires
            old(buf)@.len() >= HEADER_LEN,
        ensures
            final(buf)@ == splice(old(buf)@, 0, header_bytes(*self)),
            n == HEADER_LEN,
    {
        let ghost o = buf@;
        write_u16_big_endian(buf, 0, self.id);
        write_u16_big_endian(buf, 2, u16::from(&self.flags));
        proof { lemma_splice_twice(o, 0, be16(self.id), be16(flags_to_bits(self.flags))); }
        let ghost w = be16(self.id) + be16(flags_to_bits(self.flags));
        write_u16_big_endian(buf, 4, self.qdcount);
        proof { lemma_splice_twice(o, 0, w, be16(self.qdcount)); }
        let ghost w = w + be16(self.qdcount);
        write_u16_big_endian(buf, 6, self.ancount);
        proof { lemma_splice_twice(o, 0, w, be16(self.ancount)); }
        let ghost w = w + be16(self.ancount);
        write_u16_big_endian(buf, 8, self.nscount);
        proof { lemma_splice_twice(o, 0, w, be16(self.nscount)); }
        let ghost w = w + be16(self.nscount);
        write_u16_big_endian(buf, 10, self.arcount);
        proof { lemma_splice_twice(o, 0, w, be16(self.arcount)); }
        HEADER_LEN
    }

    /// Reads a header from the first twelve bytes of `buf`.
    pub fn from_bytes(buf: &[u8]) -> (h: Self)
        requires
            buf@.len() >= HEADER_LEN,
        ensures
            h == header_of(buf@),
    {
        let flags_as_u16 = get_u16(buf, 2);
        let flags: Flags = flags_as_u16.into();
        DnsHeader {
            id: get_u16(buf, 0),
            flags,
            qdcount: get_u16(buf, 4),
            ancount: get_u16(buf, 6),
            nscount: get_u16(buf, 8),
            arcount: get_u16(buf, 10),
        }
    }
}

} // verus!
