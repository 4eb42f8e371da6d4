//! Dotted-decimal IPv4 addresses, read as `u8::from_str` reads each part.
use crate::name::{
    join_labels, label_end, labels, lemma_labels_at_dot, lemma_labels_at_end, lemma_labels_nonempty,
    lemma_labels_of_join, DOT,
};
use crate::wire::{be32, lemma_u32_roundtrip};
use vstd::prelude::*;
use vstd::utf8::encode_utf8;

verus! {

/// The byte of `'+'`.
pub const PLUS: u8 = 43;

/// Every byte is an ASCII decimal digit.
pub open spec fn all_digits(d: Seq<u8>) -> bool {
    forall|i: int| 0 <= i < d.len() ==> 48 <= #[trigger] d[i] <= 57
}

/// The number that the decimal digits `d` stand for.
pub open spec fn decimal_value(d: Seq<u8>) -> int
    decreases d.len(),
{
    if d.len() == 0 {
        0
    } else {
        decimal_value(d.drop_last()) * 10 + (d.last() - 48)
    }
}

/// What `u8::from_str` makes of the bytes `s`: an optional `'+'`, then at least one
/// decimal digit, with a value below 256.
pub open spec fn parse_octet(s: Seq<u8>) -> Option<u8> {
    let d = if s.len() > 0 && s[0] == PLUS {
        s.drop_first()
    } else {
        s
    };
    if d.len() > 0 && all_digits(d) && decimal_value(d) <= 255 {
        Some(decimal_value(d) as u8)
    } else {
        None
    }
}

/// The address whose leading octets are `os` and whose missing octets are zero.
pub open spec fn octets_value(os: Seq<u8>) -> u32 {
    let o = |i: int| if i < os.len() { os[i] as int } else { 0 };
    (o(0) * 0x100_0000 + o(1) * 0x1_0000 + o(2) * 256 + o(3)) as u32
}

/// The address that the dotted text with bytes `b` stands for: at most four parts
/// separated by `'.'`, each read as a `u8`, the missing trailing octets zero; `None`
/// where a part is not a `u8` or there are more than four parts.
pub open spec fn parse_ipv4(b: Seq<u8>) -> Option<u32> {
    let parts = labels(b);
    if parts.len() <= 4 && forall|i: int| 0 <= i < parts.len() ==> (#[trigger] parse_octet(parts[i])) is Some {
        Some(octets_value(Seq::new(parts.len(), |i: int| parse_octet(parts[i]).unwrap())))
    } else {
        None
    }
}

/// The decimal digits of `n`, most significant first, without leading zeros.
pub open spec fn decimal_digits(n: nat) -> Seq<u8>
    decreases n,
{
    if n < 10 {
        seq![(48 + n) as u8]
    } else {
        decimal_digits(n / 10).push((48 + n % 10) as u8)
    }
}

/// The dotted-decimal text of the address `x`: its four bytes, most significant first,
/// each in decimal, separated by `'.'`.
pub open spec fn dotted(x: u32) -> Seq<u8> {
    decimal_digits((x / 0x100_0000) as nat) + seq![DOT] + decimal_digits((x / 0x1_0000 % 256) as nat)
        + seq![DOT] + decimal_digits((x / 256 % 256) as nat) + seq![DOT] + decimal_digits(
        (x % 256) as nat,
    )
}

proof fn lemma_decimal_digits(n: nat)
    ensures
        decimal_digits(n).len() >= 1,
        all_digits(decimal_digits(n)),
        decimal_value(decimal_digits(n)) == n,
        decimal_digits(n)[0] != PLUS,
        decimal_digits(n)[0] != DOT,
    decreases n,
{
    let d = decimal_digits(n);
    if n < 10 {
        assert(d.drop_last() =~= Seq::<u8>::empty());
        assert(decimal_value(Seq::<u8>::empty()) == 0);
        assert(d.last() == (48 + n) as u8);
        assert(decimal_value(d) == decimal_value(d.drop_last()) * 10 + (d.last() - 48));
    } else {
        lemma_decimal_digits(n / 10);
        let p = decimal_digits(n / 10);
        assert(d.drop_last() =~= p);
        assert(d.last() == (48 + n % 10) as u8);
        assert(decimal_value(d) == decimal_value(p) * 10 + (d.last() - 48));
        assert(n == (n / 10) * 10 + n % 10) by (nonlinear_arith);
        assert(d[0] == p[0]);
        assert forall|i: int| 0 <= i < d.len() implies 48 <= #[trigger] d[i] <= 57 by {
            if i < p.len() {
                assert(d[i] == p[i]);
            }
        }
    }
}

/// Every value a `u8` holds is read back from its decimal digits.
pub proof fn lemma_octet_parses(n: nat)
    requires
        n <= 255,
    ensures
        parse_octet(decimal_digits(n)) == Some(n as u8),
{
    lemma_decimal_digits(n);
}

/// The dotted-decimal text of any address parses back to that address.
pub proof fn lemma_dotted_parses(x: u32)
    ensures
        parse_ipv4(dotted(x)) == Some(x),
{
    let o0 = (x / 0x100_0000) as nat;
    let o1 = (x / 0x1_0000 % 256) as nat;
    let o2 = (x / 256 % 256) as nat;
    let o3 = (x % 256) as nat;
    let ls = seq![decimal_digits(o0), decimal_digits(o1), decimal_digits(o2), decimal_digits(o3)];
    lemma_decimal_digits(o0);
    lemma_decimal_digits(o1);
    lemma_decimal_digits(o2);
    lemma_decimal_digits(o3);
    let ls1 = ls.drop_first();
    let ls2 = ls1.drop_first();
    let ls3 = ls2.drop_first();
    assert(ls3 =~= seq![decimal_digits(o3)]);
    assert(join_labels(ls3) == decimal_digits(o3));
    assert(ls2 =~= seq![decimal_digits(o2), decimal_digits(o3)]);
    assert(join_labels(ls2) == decimal_digits(o2) + seq![DOT] + join_labels(ls3));
    assert(ls1 =~= seq![decimal_digits(o1), decimal_digits(o2), decimal_digits(o3)]);
    assert(join_labels(ls1) == decimal_digits(o1) + seq![DOT] + join_labels(ls2));
    assert(join_labels(ls) == decimal_digits(o0) + seq![DOT] + join_labels(ls1));
    assert(join_labels(ls) =~= dotted(x));
    assert forall|i: int, k: int| 0 <= i < ls.len() && 0 <= k < ls[i].len() implies #[trigger] ls[i][k] != DOT by {
        assert(48 <= ls[i][k] <= 57);
    }
    lemma_labels_of_join(ls);
    let parts = labels(dotted(x));
    assert(parts == ls);
    lemma_octet_parses(o0);
    lemma_octet_parses(o1);
    lemma_octet_parses(o2);
    lemma_octet_parses(o3);
    assert forall|i: int| 0 <= i < parts.len() implies (#[trigger] parse_octet(parts[i])) is Some by {
        if i == 0 {
        } else if i == 1 {
        } else if i == 2 {
        } else {
        }
    }
    let os = Seq::new(parts.len(), |i: int| parse_octet(parts[i]).unwrap());
    assert(os[0] == o0 as u8 && os[1] == o1 as u8 && os[2] == o2 as u8 && os[3] == o3 as u8);
    let b = be32(x);
    assert(b.subrange(0, 4) =~= b);
    lemma_u32_roundtrip(x, b, 0);
}

/// The octets `os` in decimal, separated by `'.'`.
pub open spec fn dotted_octets(os: Seq<u8>) -> Seq<u8> {
    join_labels(Seq::new(os.len(), |i: int| decimal_digits(os[i] as nat)))
}

/// Up to four octets written in decimal and separated by `'.'` parse to the address
/// whose leading bytes are those octets, most significant first, and whose missing
/// trailing bytes are zero; five or more octets do not parse.
pub proof fn lemma_dotted_octets_parse(os: Seq<u8>)
    requires
        os.len() >= 1,
    ensures
        os.len() <= 4 ==> parse_ipv4(dotted_octets(os)) == Some(
            ((os[0] as int) * 0x100_0000 + (if os.len() > 1 { os[1] as int } else { 0 }) * 0x1_0000
                + (if os.len() > 2 { os[2] as int } else { 0 }) * 256 + (if os.len() > 3 {
                os[3] as int
            } else {
                0
            })) as u32,
        ),
        os.len() > 4 ==> parse_ipv4(dotted_octets(os)) is None,
{
    let ls = Seq::new(os.len(), |i: int| decimal_digits(os[i] as nat));
    assert forall|i: int| 0 <= i < ls.len() implies ls[i].len() >= 1 && all_digits(ls[i])
        && decimal_value(ls[i]) == os[i] && ls[i][0] != PLUS by {
        lemma_decimal_digits(os[i] as nat);
    }
    assert forall|i: int, k: int| 0 <= i < ls.len() && 0 <= k < ls[i].len() implies #[trigger] ls[i][k] != DOT by {
        assert(48 <= ls[i][k] <= 57);
    }
    lemma_labels_of_join(ls);
    let parts = labels(dotted_octets(os));
    assert(parts == ls);
    assert forall|i: int| 0 <= i < parts.len() implies #[trigger] parse_octet(parts[i]) == Some(os[i]) by {
        lemma_octet_parses(os[i] as nat);
    }
    if os.len() <= 4 {
        let vs = Seq::new(parts.len(), |i: int| parse_octet(parts[i]).unwrap());
        assert(vs =~= os);
    }
}

proof fn lemma_decimal_monotone(d: Seq<u8>, m: int, n: int)
    requires
        0 <= m <= n <= d.len(),
        all_digits(d),
    ensures
        decimal_value(d.take(m)) <= decimal_value(d.take(n)),
    decreases n - m,
{
    if m < n {
        lemma_decimal_monotone(d, m, n - 1);
        assert(d.take(n).drop_last() =~= d.take(n - 1));
        assert(d.take(n).last() == d[n - 1]);
        assert(decimal_value(d.take(n - 1)) >= 0) by {
            lemma_decimal_nonneg(d.take(n - 1));
        }
    }
}

proof fn lemma_decimal_nonneg(d: Seq<u8>)
    requires
        all_digits(d),
    ensures
        decimal_value(d) >= 0,
    decreases d.len(),
{
    if d.len() > 0 {
        lemma_decimal_nonneg(d.drop_last());
        assert(d.last() == d[d.len() - 1]);
    }
}

/// Reads the bytes of `b` from `s` to `j` as `u8::from_str` does.
fn parse_octet_at(b: &[u8], s: usize, j: usize) -> (r: Option<u8>)
    requires
        s <= j <= b@.len(),
    ensures
        r == parse_octet(b@.subrange(s as int, j as int)),
{
    let ghost part = b@.subrange(s as int, j as int);
    let mut k = s;
    if k < j && b[k] == PLUS {
        k = k + 1;
    }
    let ghost d = b@.subrange(k as int, j as int);
    assert(d == (if part.len() > 0 && part[0] == PLUS {
        part.drop_first()
    } else {
        part
    }));
    if k == j {
        assert(parse_octet(part) is None);
        return None;
    }
    let start = k;
    let mut v: u32 = 0;
    assert(d.take(0) =~= Seq::<u8>::empty());
    while k < j
        invariant
            start <= k <= j <= b@.len(),
            d == b@.subrange(start as int, j as int),
            part == b@.subrange(s as int, j as int),
            d == (if part.len() > 0 && part[0] == PLUS {
                part.drop_first()
            } else {
                part
            }),
            d.len() > 0,
            all_digits(d.take(k - start)),
            v as int == decimal_value(d.take(k - start)),
            v <= 255,
        decreases j - k,
    {
        let c = b[k];
        assert(c == d[k - start]);
        if c < 48 || c > 57 {
            assert(!all_digits(d));
            assert(parse_octet(part) is None);
            return None;
        }
        proof {
            assert(d.take(k - start + 1).drop_last() =~= d.take(k - start));
            assert(d.take(k - start + 1).last() == c);
        }
        v = v * 10 + (c - 48) as u32;
        assert(all_digits(d.take(k - start + 1)));
        assert(v as int == decimal_value(d.take(k - start + 1)));
        if v > 255 {
            proof {
                if all_digits(d) {
                    lemma_decimal_monotone(d, k - start + 1, d.len() as int);
                    assert(d.take(d.len() as int) =~= d);
                }
                assert(parse_octet(part) is None);
            }
            return None;
        }
        k = k + 1;
    }
    assert(d.take(k - start) =~= d);
    Some(v as u8)
}

/// The address that the dotted-decimal text `ip` stands for, or `None` where a part
/// is not a `u8` or there are more than four parts.
pub fn parse_ipv4_str(ip: &str) -> (r: Option<u32>)
    ensures
        r == parse_ipv4(encode_utf8(ip@)),
{
    let b = ip.as_bytes();
    let ghost parts = labels(b@);
    let mut octets: Vec<u8> = Vec::new();
    let mut s: usize = 0;
    assert(b@.skip(0) =~= b@);
    assert(parts.skip(0) =~= parts);
    proof { lemma_labels_nonempty(b@); }
    loop
        invariant_except_break
            s <= b@.len(),
            labels(b@.skip(s as int)) == parts.skip(octets@.len() as int),
            octets@.len() < parts.len(),
        invariant
            b@ == encode_utf8(ip@),
            parts == labels(b@),
            octets@.len() <= 4,
            octets@.len() <= parts.len(),
            forall|i: int| 0 <= i < octets@.len() ==> parse_octet(parts[i]) == Some(#[trigger] octets@[i]),
        ensures
            octets@.len() == parts.len(),
        decreases b@.len() - s,
    {
        let j = label_end(b, s);
        let ghost k = octets@.len() as int;
        proof {
            if j < b@.len() {
                lemma_labels_at_dot(b@, s as int, j as int);
            } else {
                lemma_labels_at_end(b@, s as int);
                assert(b@.skip(s as int) =~= b@.subrange(s as int, j as int));
            }
            assert(parts[k] == parts.skip(k)[0]);
        }
        if octets.len() == 4 {
            return None;
        }
        match parse_octet_at(b, s, j) {
            None => {
                return None;
            },
            Some(o) => {
                octets.push(o);
            },
        }
        if j == b.len() {
            assert(parts.skip(k).len() == 1);
            break;
        }
        proof {
            assert(parts.skip(k).drop_first() =~= parts.skip(k + 1));
            lemma_labels_nonempty(b@.skip(j + 1));
        }
        s = j + 1;
    }
    let ghost os = Seq::new(parts.len(), |i: int| parse_octet(parts[i]).unwrap());
    assert(octets@ =~= os);
    proof { lemma_labels_nonempty(b@); }
    let n = octets.len();
    let o0: u32 = octets[0] as u32;
    let o1: u32 = if n > 1 { octets[1] as u32 } else { 0 };
    let o2: u32 = if n > 2 { octets[2] as u32 } else { 0 };
    let o3: u32 = if n > 3 { octets[3] as u32 } else { 0 };
    Some(o0 * 0x100_0000 + o1 * 0x1_0000 + o2 * 256 + o3)
}

} // verus!
