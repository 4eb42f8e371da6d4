use dns_server::answer::Answer;
use dns_server::field::Field;
use dns_server::header::{DnsHeader, Flags, HEADER_LEN};
use dns_server::ipv4::parse_ipv4_str;
use dns_server::question::Question;

fn name_bytes(labels: &[&str]) -> Vec<u8> {
    let mut out = Vec::new();
    for l in labels {
        out.push(l.len() as u8);
        out.extend_from_slice(l.as_bytes());
    }
    out.push(0);
    out
}

#[test]
fn flags_unpack_each_field() {
    // qr=1, opcode=0b0011, aa=1, tc=0, rd=1, ra=0, z=0b101, rcode=0b0110
    let bits: u16 = 0b1_0011_1_0_1_0_101_0110;
    let f = Flags::from(bits);
    assert!(f.qr);
    assert_eq!(f.opcode, 3);
    assert!(f.aa);
    assert!(!f.tc);
    assert!(f.rd);
    assert!(!f.ra);
    assert_eq!(f.z, 5);
    assert_eq!(f.rcode, 6);
}

#[test]
fn flags_pack_lays_out_bits() {
    let f = Flags { qr: true, opcode: 2, aa: false, tc: true, rd: true, ra: false, z: 0, rcode: 3 };
    assert_eq!(u16::from(&f), 0x8000 | (2 << 11) | 0x200 | 0x100 | 3);
}

#[test]
fn flags_bits_roundtrip_on_every_word_sampled() {
    for bits in [0u16, 1, 0x8000, 0xffff, 0x1234, 0xabcd, 0x0780] {
        assert_eq!(u16::from(&Flags::from(bits)), bits);
    }
}

#[test]
fn flags_roundtrip_when_fields_fit() {
    let f = Flags { qr: true, opcode: 15, aa: true, tc: false, rd: true, ra: true, z: 7, rcode: 15 };
    assert_eq!(Flags::from(u16::from(&f)), f);
}

#[test]
fn flags_too_wide_opcode_overlaps_qr() {
    let f = Flags { qr: false, opcode: 0x1f, aa: false, tc: false, rd: false, ra: false, z: 0, rcode: 0 };
    assert_eq!(u16::from(&f), 0xf800);
    assert!(Flags::from(u16::from(&f)).qr);
}

#[test]
fn flags_default_is_cleared_and_setters() {
    let mut f = Flags::default();
    assert_eq!(u16::from(&f), 0);
    f.set_resp();
    assert!(f.qr);
    f.set_req();
    assert!(!f.qr);
}

#[test]
fn header_new_reponse_has_cleared_flags() {
    let h = DnsHeader::new_reponse(1234);
    assert_eq!(h.id, 1234);
    assert_eq!(h.flags, Flags::default());
    assert_eq!((h.qdcount, h.ancount, h.nscount, h.arcount), (0, 0, 0, 0));
}

#[test]
fn header_write_into_bytes_exact() {
    let mut h = DnsHeader::new_reponse(0x04d2);
    h.flags.set_resp();
    h.qdcount = 1;
    h.ancount = 2;
    h.nscount = 0x0304;
    h.arcount = 0xffff;
    let mut buf = [0xeeu8; 14];
    assert_eq!(h.write_into_bytes(&mut buf), HEADER_LEN);
    assert_eq!(buf, [0x04, 0xd2, 0x80, 0x00, 0, 1, 0, 2, 3, 4, 0xff, 0xff, 0xee, 0xee]);
}

#[test]
fn header_roundtrip() {
    let mut h = DnsHeader::new_reponse(77);
    h.flags = Flags { qr: true, opcode: 1, aa: true, tc: true, rd: false, ra: true, z: 2, rcode: 5 };
    h.qdcount = 3;
    h.arcount = 9;
    let mut buf = [0u8; 12];
    h.write_into_bytes(&mut buf);
    assert_eq!(DnsHeader::from_bytes(&buf), h);
}

#[test]
fn header_from_bytes_reads_fields() {
    let buf = [0x12, 0x34, 0x01, 0x00, 0, 1, 0, 0, 0, 0, 0, 0];
    let h = DnsHeader::from_bytes(&buf);
    assert_eq!(h.id, 0x1234);
    assert!(h.flags.rd);
    assert!(!h.flags.qr);
    assert_eq!(h.qdcount, 1);
}

#[test]
fn field_into_slice_exact() {
    let f = Field::new("codecrafters.io".to_string(), 1, 1);
    let mut buf = [0xaau8; 40];
    let n = f.into_slice(&mut buf);
    let mut expected = name_bytes(&["codecrafters", "io"]);
    expected.extend_from_slice(&[0, 1, 0, 1]);
    assert_eq!(n, expected.len());
    assert_eq!(&buf[..n], &expected[..]);
    assert!(buf[n..].iter().all(|&b| b == 0xaa));
    assert_eq!(f.wire_len(), n);
}

#[test]
fn field_from_slice_reads_name_type_class() {
    let mut bytes = name_bytes(&["www", "example", "com"]);
    bytes.extend_from_slice(&[0x00, 0x1c, 0x00, 0x01, 0x99]);
    let (f, n) = Field::from_slice(&bytes);
    assert_eq!(f.name, "www.example.com");
    assert_eq!(f.f_type, 28);
    assert_eq!(f.f_class, 1);
    assert_eq!(n, bytes.len() - 1);
}

#[test]
fn field_roundtrip_non_ascii_name() {
    let f = Field::new("bücher.de".to_string(), 5, 255);
    let mut buf = vec![0u8; f.wire_len() + 3];
    let n = f.into_slice(&mut buf);
    assert!(Field::readable_at(&buf, 0));
    let (g, m) = Field::from_slice(&buf);
    assert_eq!(m, n);
    assert_eq!(g.name, f.name);
    assert_eq!((g.f_type, g.f_class), (5, 255));
}

#[test]
fn field_trailing_dot_and_empty_name() {
    let f = Field::new("a.".to_string(), 1, 1);
    let mut buf = [0u8; 16];
    let n = f.into_slice(&mut buf);
    assert_eq!(&buf[..n], &[1, b'a', 0, 0, 0, 1, 0, 1]);
    let (g, m) = Field::from_slice(&buf);
    // the empty last label ends the name early: type and class are read one byte early
    assert_eq!(g.name, "a");
    assert_eq!(m, 7);
    assert_eq!((g.f_type, g.f_class), (0, 0x0100));

    let e = Field::new(String::new(), 2, 3);
    let n = e.into_slice(&mut buf);
    assert_eq!(&buf[..n], &[0, 0, 0, 2, 0, 3]);
}

#[test]
fn field_long_label_length_wraps() {
    let label = "x".repeat(300);
    let f = Field::new(label, 1, 1);
    let mut buf = vec![0u8; 310];
    let n = f.into_slice(&mut buf);
    assert_eq!(n, 306);
    assert_eq!(buf[0], (300 % 256) as u8);
}

#[test]
fn field_readable_rejects_bad_input() {
    // label runs past the end
    assert!(!Field::readable_at(&[3, b'a', b'b'], 0));
    // missing type and class
    assert!(!Field::readable_at(&[1, b'a', 0, 0, 1], 0));
    // not UTF-8
    assert!(!Field::readable_at(&[1, 0xff, 0, 0, 1, 0, 1], 0));
    // empty buffer
    assert!(!Field::readable_at(&[], 0));
    assert!(Field::readable_at(&[1, b'a', 0, 0, 1, 0, 1], 0));
}

#[test]
fn question_read_at_offset() {
    let mut bytes = vec![9, 9];
    bytes.extend(name_bytes(&["abc"]));
    bytes.extend_from_slice(&[0, 1, 0, 1]);
    let (q, end) = Question::read(&bytes, 2);
    assert_eq!(q.field.name, "abc");
    assert_eq!(end, bytes.len());
    let mut out = vec![0u8; 9];
    assert_eq!(q.into_slice(&mut out), 9);
    assert_eq!(&out[..], &bytes[2..]);
}

#[test]
fn ipv4_parsing() {
    assert_eq!(parse_ipv4_str("8.8.8.8"), Some(0x0808_0808));
    assert_eq!(parse_ipv4_str("192.168.0.1"), Some(0xc0a8_0001));
    assert_eq!(parse_ipv4_str("1.2"), Some(0x0102_0000));
    assert_eq!(parse_ipv4_str("+1.002.3.4"), Some(0x0102_0304));
    assert_eq!(parse_ipv4_str("256.1.1.1"), None);
    assert_eq!(parse_ipv4_str("1.2.3.4.5"), None);
    assert_eq!(parse_ipv4_str(""), None);
    assert_eq!(parse_ipv4_str("1..2"), None);
    assert_eq!(parse_ipv4_str("a.b.c.d"), None);
    assert_eq!(parse_ipv4_str("+.1"), None);
    assert_eq!(parse_ipv4_str("-1.2.3.4"), None);
    assert_eq!(parse_ipv4_str("codecrafters.io"), None);
}

#[test]
fn answer_new_parses_address() {
    let a = Answer::new("x.y".to_string(), 1, 1, 60, 4, "10.0.0.7".to_string());
    assert_eq!(a.data, 0x0a00_0007);
    assert_eq!((a.ttl, a.length), (60, 4));
    assert_eq!(a.field.name, "x.y");
}

#[test]
fn answer_roundtrip_address_record() {
    let a = Answer::new("codecrafters.io".to_string(), 1, 1, 60, 4, "8.8.8.8".to_string());
    let mut buf = [0u8; 64];
    let n = a.into_slice(&mut buf);
    let mut expected = name_bytes(&["codecrafters", "io"]);
    expected.extend_from_slice(&[0, 1, 0, 1, 0, 0, 0, 60, 0, 4, 8, 8, 8, 8]);
    assert_eq!(&buf[..n], &expected[..]);
    assert!(Answer::readable_at(&buf, 0));
    let (b, m) = Answer::from_slice(&buf);
    assert_eq!(m, n);
    assert_eq!(b.field.name, a.field.name);
    assert_eq!((b.ttl, b.length, b.data), (60, 4, 0x0808_0808));
}

#[test]
fn answer_other_records_leave_data_unread() {
    let mut bytes = name_bytes(&["a"]);
    bytes.extend_from_slice(&[0, 5, 0, 1, 0, 0, 1, 0, 0, 3, 7, 7, 7]);
    let (a, n) = Answer::from_slice(&bytes);
    assert_eq!(a.data, 0);
    assert_eq!(a.length, 3);
    assert_eq!(a.ttl, 256);
    assert_eq!(n, 3 + 4 + 6);
}

#[test]
fn answer_readable_rejects_short_address() {
    let mut bytes = name_bytes(&["a"]);
    bytes.extend_from_slice(&[0, 1, 0, 1, 0, 0, 0, 1, 0, 4, 1, 2]);
    assert!(!Answer::readable_at(&bytes, 0));
    bytes.extend_from_slice(&[3, 4]);
    assert!(Answer::readable_at(&bytes, 0));
}

#[test]
fn answer_read_then_written_gives_same_bytes() {
    let mut bytes = name_bytes(&["ns", "example"]);
    bytes.extend_from_slice(&[0, 1, 0, 1, 0, 1, 0x51, 0x80, 0, 4, 93, 184, 216, 34]);
    let (a, n) = Answer::from_slice(&bytes);
    assert_eq!(n, bytes.len());
    let mut out = vec![0u8; n];
    assert_eq!(a.into_slice(&mut out), n);
    assert_eq!(out, bytes);
}

#[test]
fn field_read_then_written_gives_same_bytes() {
    let mut bytes = name_bytes(&["mail", "example", "org"]);
    bytes.extend_from_slice(&[0, 15, 0, 1]);
    let (f, n) = Field::from_slice(&bytes);
    let mut out = vec![0u8; n];
    assert_eq!(f.into_slice(&mut out), n);
    assert_eq!(out, bytes);
}
