//! Dotted domain names and their wire form: each label is written as one
//! length byte followed by its bytes, and a zero byte ends the name.
use crate::wire::splice;
use vstd::prelude::*;
use vstd::string::*;
use vstd::utf8::{
    decode_utf8, encode_utf8, is_ascii_chars_encode_utf8, is_char_boundary,
    valid_utf8,
};

verus! {

/// The byte of the label separator `'.'`.
pub const DOT: u8 = 46;

/// The labels of a dotted name: the runs of bytes between separators. A name
/// with `n` separators has `n + 1` labels, some of them possibly empty.
pub open spec fn labels(b: Seq<u8>) -> Seq<Seq<u8>>
    decreases b.len(),
{
    if b.len() == 0 {
        seq![Seq::<u8>::empty()]
    } else {
        let rest = labels(b.drop_first());
        if b[0] == DOT {
            seq![Seq::<u8>::empty()] + rest
        } else {
            rest.update(0, seq![b[0]] + rest[0])
        }
    }
}

/// The labels joined again with separators.
pub open spec fn join_labels(ls: Seq<Seq<u8>>) -> Seq<u8>
    decreases ls.len(),
{
    if ls.len() == 0 {
        Seq::empty()
    } else if ls.len() == 1 {
        ls[0]
    } else {
        ls[0] + seq![DOT] + join_labels(ls.drop_first())
    }
}

/// Each label as its length (kept to its low eight bits) followed by its bytes.
pub open spec fn encode_labels(ls: Seq<Seq<u8>>) -> Seq<u8>
    decreases ls.len(),
{
    if ls.len() == 0 {
        Seq::empty()
    } else {
        seq![ls[0].len() as u8] + ls[0] + encode_labels(ls.drop_first())
    }
}

/// The wire form of the dotted name whose bytes are `b`.
pub open spec fn name_wire(b: Seq<u8>) -> Seq<u8> {
    encode_labels(labels(b)) + seq![0u8]
}

/// The labels read from `buf` at `pos`, up to the terminating zero length byte,
/// and the position just after it; `None` where a length or a label runs past the end.
pub open spec fn read_labels(buf: Seq<u8>, pos: int) -> Option<(Seq<Seq<u8>>, int)>
    decreases buf.len() - pos,
{
    if pos < 0 || pos >= buf.len() {
        None
    } else if buf[pos] == 0 {
        Some((Seq::empty(), pos + 1))
    } else if pos + 1 + buf[pos] > buf.len() {
        None
    } else {
        match read_labels(buf, pos + 1 + buf[pos]) {
            Some((ls, end)) => Some(
                (seq![buf.subrange(pos + 1, pos + 1 + buf[pos])] + ls, end),
            ),
            None => None,
        }
    }
}

/// Every label is well-formed UTF-8.
pub open spec fn all_valid_utf8(ls: Seq<Seq<u8>>) -> bool {
    forall|i: int| 0 <= i < ls.len() ==> valid_utf8(#[trigger] ls[i])
}

/// The name read from `buf` at `pos` as text, and the position after it; `None` where
/// the labels cannot be read or one of them is not UTF-8.
pub open spec fn read_name(buf: Seq<u8>, pos: int) -> Option<(Seq<char>, int)> {
    match read_labels(buf, pos) {
        Some((ls, end)) => if all_valid_utf8(ls) {
            Some((decode_utf8(join_labels(ls)), end))
        } else {
            None
        },
        None => None,
    }
}

/// Every label of the name is non-empty and shorter than 256 bytes: the names
/// whose wire form reads back as the same name.
pub open spec fn labels_encodable(b: Seq<u8>) -> bool {
    forall|i: int|
        0 <= i < labels(b).len() ==> 0 < (#[trigger] labels(b)[i]).len() && labels(b)[i].len() < 256
}

pub proof fn lemma_labels_nonempty(b: Seq<u8>)
    ensures
        labels(b).len() >= 1,
    decreases b.len(),
{
    if b.len() > 0 {
        lemma_labels_nonempty(b.drop_first());
    }
}

/// Scanning the bytes from `s` to `k` that hold no separator extends the first label.
pub proof fn lemma_labels_scan(b: Seq<u8>, s: int, k: int)
    requires
        0 <= s <= k <= b.len(),
        forall|t: int| s <= t < k ==> b[t] != DOT,
    ensures
        labels(b.skip(s)) == labels(b.skip(k)).update(
            0,
            b.subrange(s, k) + labels(b.skip(k))[0],
        ),
    decreases k - s,
{
    lemma_labels_nonempty(b.skip(k));
    if s == k {
        assert(b.subrange(s, k) + labels(b.skip(k))[0] =~= labels(b.skip(k))[0]);
        assert(labels(b.skip(k)).update(0, labels(b.skip(k))[0]) =~= labels(b.skip(k)));
    } else {
        lemma_labels_scan(b, s + 1, k);
        assert(b.skip(s).drop_first() =~= b.skip(s + 1));
        assert(b.skip(s)[0] == b[s]);
        let r = labels(b.skip(k));
        assert(seq![b[s]] + (b.subrange(s + 1, k) + r[0]) =~= b.subrange(s, k) + r[0]);
        assert(labels(b.skip(s)) =~= r.update(0, b.subrange(s, k) + r[0]));
    }
}

/// The first label runs up to the first separator, and the rest are the labels after it.
pub proof fn lemma_labels_at_dot(b: Seq<u8>, s: int, k: int)
    requires
        0 <= s <= k < b.len(),
        forall|t: int| s <= t < k ==> b[t] != DOT,
        b[k] == DOT,
    ensures
        labels(b.skip(s)) == seq![b.subrange(s, k)] + labels(b.skip(k + 1)),
{
    lemma_labels_scan(b, s, k);
    assert(b.skip(k).drop_first() =~= b.skip(k + 1));
    assert(b.skip(k)[0] == b[k]);
    let r = labels(b.skip(k + 1));
    assert(labels(b.skip(k)) == seq![Seq::<u8>::empty()] + r);
    assert(b.subrange(s, k) + Seq::<u8>::empty() =~= b.subrange(s, k));
    assert(labels(b.skip(s)) =~= seq![b.subrange(s, k)] + r);
}

/// With no separator after `s`, the rest of the bytes form one label.
pub proof fn lemma_labels_at_end(b: Seq<u8>, s: int)
    requires
        0 <= s <= b.len(),
        forall|t: int| s <= t < b.len() ==> b[t] != DOT,
    ensures
        labels(b.skip(s)) == seq![b.skip(s)],
{
    lemma_labels_scan(b, s, b.len() as int);
    assert(b.skip(b.len() as int) =~= Seq::<u8>::empty());
    assert(b.subrange(s, b.len() as int) + Seq::<u8>::empty() =~= b.skip(s));
    assert(labels(b.skip(s)) =~= seq![b.skip(s)]);
}

/// UTF-8 encoding distributes over concatenation.
pub proof fn lemma_encode_utf8_concat(a: Seq<char>, c: Seq<char>)
    ensures
        encode_utf8(a + c) == encode_utf8(a) + encode_utf8(c),
    decreases a.len(),
{
    if a.len() == 0 {
        assert(a + c =~= c);
        assert(encode_utf8(a) + encode_utf8(c) =~= encode_utf8(c));
    } else {
        assert((a + c).drop_first() =~= a.drop_first() + c);
        assert((a + c)[0] == a[0]);
        lemma_encode_utf8_concat(a.drop_first(), c);
        assert(encode_utf8(a + c) =~= encode_utf8(a) + encode_utf8(c));
    }
}

/// Joining one more label adds a separator and the label.
pub proof fn lemma_join_push(ls: Seq<Seq<u8>>, l: Seq<u8>)
    requires
        ls.len() >= 1,
    ensures
        join_labels(ls.push(l)) == join_labels(ls) + seq![DOT] + l,
    decreases ls.len(),
{
    if ls.len() == 1 {
        assert(ls.push(l).drop_first() =~= seq![l]);
        assert(join_labels(seq![l]) == l);
        assert(ls.push(l)[0] == ls[0]);
        assert(join_labels(ls) == ls[0]);
    } else {
        assert(ls.push(l).drop_first() =~= ls.drop_first().push(l));
        lemma_join_push(ls.drop_first(), l);
        assert(join_labels(ls.push(l)) =~= join_labels(ls) + seq![DOT] + l);
    }
}

/// The index of the first separator at or after `s` in `b`, or the end of `b`.
pub fn label_end(b: &[u8], s: usize) -> (j: usize)
    requires
        s <= b@.len(),
    ensures
        s <= j <= b@.len(),
        forall|t: int| s <= t < j ==> b@[t] != DOT,
        j < b@.len() ==> b@[j as int] == DOT,
{
    let mut j = s;
    while j < b.len() && b[j] != DOT
        invariant
            s <= j <= b@.len(),
            forall|t: int| s <= t < j ==> b@[t] != DOT,
        decreases b@.len() - j,
    {
        j = j + 1;
    }
    j
}

pub proof fn lemma_splice_push(o: Seq<u8>, pos: int, w: Seq<u8>, x: u8)
    requires
        0 <= pos,
        pos + w.len() < o.len(),
    ensures
        splice(o, pos, w).update(pos + w.len(), x) == splice(o, pos, w.push(x)),
{
    assert(splice(o, pos, w).update(pos + w.len(), x) =~= splice(o, pos, w.push(x)));
}

/// Writes the wire form of the dotted name with bytes `name` at `pos` and returns the
/// position after it.
pub fn write_name(name: &[u8], buf: &mut [u8], pos: usize) -> (end: usize)
    requires
        pos + name_wire(name@).len() <= old(buf)@.len(),
    ensures
        final(buf)@ == splice(old(buf)@, pos as int, name_wire(name@)),
        end == pos + name_wire(name@).len(),
{
    let ghost target = encode_labels(labels(name@));
    let ghost written = Seq::<u8>::empty();
    let mut p = pos;
    let mut s: usize = 0;
    assert(name@.skip(0) =~= name@);
    assert(buf@ =~= splice(old(buf)@, pos as int, written));
    loop
        invariant_except_break
            s <= name@.len(),
            written + encode_labels(labels(name@.skip(s as int))) == target,
        invariant
            pos + name_wire(name@).len() <= old(buf)@.len(),
            target == encode_labels(labels(name@)),
            buf@ == splice(old(buf)@, pos as int, written),
            p == pos + written.len(),
        ensures
            written == target,
            buf@ == splice(old(buf)@, pos as int, written),
            p == pos + written.len(),
        decreases name@.len() - s,
    {
        let j = label_end(name, s);
        let ghost label = name@.subrange(s as int, j as int);
        proof {
            if j < name@.len() {
                lemma_labels_at_dot(name@, s as int, j as int);
            } else {
                lemma_labels_at_end(name@, s as int);
                assert(name@.skip(s as int) =~= label);
            }
            let ls = labels(name@.skip(s as int));
            assert(ls[0] == label);
            assert(encode_labels(ls) == seq![label.len() as u8] + label + encode_labels(ls.drop_first()));
            assert(target.len() + 1 == name_wire(name@).len());
            assert(written.len() + 1 + label.len() <= target.len());
        }
        let ghost before = written;
        proof { lemma_splice_push(old(buf)@, pos as int, written, (j - s) as u8); }
        buf[p] = (j - s) as u8;
        p = p + 1;
        proof { written = written.push((j - s) as u8); }
        let mut t = s;
        while t < j
            invariant
                s <= t <= j <= name@.len(),
                label == name@.subrange(s as int, j as int),
                written == before + seq![label.len() as u8] + name@.subrange(s as int, t as int),
                before.len() + 1 + label.len() <= target.len(),
                target.len() + 1 == name_wire(name@).len(),
                pos + name_wire(name@).len() <= old(buf)@.len(),
                buf@ == splice(old(buf)@, pos as int, written),
                p == pos + written.len(),
            decreases j - t,
        {
            proof { lemma_splice_push(old(buf)@, pos as int, written, name@[t as int]); }
            buf[p] = name[t];
            p = p + 1;
            proof {
                assert(name@.subrange(s as int, t as int).push(name@[t as int]) =~= name@.subrange(s as int, t + 1));
                written = written.push(name@[t as int]);
            }
            t = t + 1;
        }
        proof {
            let ls = labels(name@.skip(s as int));
            assert(written =~= before + seq![label.len() as u8] + label);
            if j < name@.len() {
                assert(ls.drop_first() =~= labels(name@.skip(j + 1)));
                assert(written + encode_labels(labels(name@.skip(j + 1))) =~= before + encode_labels(ls));
            } else {
                assert(ls.drop_first() =~= Seq::<Seq<u8>>::empty());
                assert(written =~= before + encode_labels(ls));
            }
        }
        if j == name.len() {
            break;
        }
        s = j + 1;
    }
    proof { lemma_splice_push(old(buf)@, pos as int, written, 0u8); }
    buf[p] = 0;
    p = p + 1;
    proof {
        written = written.push(0u8);
        assert(written =~= name_wire(name@));
    }
    p
}


/// The labels at `pos` can be read and each of them is UTF-8.
pub open spec fn labels_ok(buf: Seq<u8>, pos: int) -> bool {
    match read_labels(buf, pos) {
        Some((ls, _)) => all_valid_utf8(ls),
        None => false,
    }
}

/// `core::str::from_utf8`: it succeeds exactly on well-formed UTF-8 and then gives the
/// string slice whose UTF-8 encoding is those bytes; the error itself is dropped.
#[verifier::external_body]
fn utf8_str(bytes: &[u8]) -> (res: Option<&str>)
    ensures
        res is Some <==> valid_utf8(bytes@),
        res matches Some(s) ==> s.spec_bytes() == bytes@,
{
    core::str::from_utf8(bytes).ok()
}

proof fn lemma_read_labels_step(buf: Seq<u8>, start: int)
    requires
        0 <= start < buf.len(),
        buf[start] != 0,
        start + 1 + buf[start] <= buf.len(),
    ensures
        labels_ok(buf, start) == (valid_utf8(buf.subrange(start + 1, start + 1 + buf[start]))
            && labels_ok(buf, start + 1 + buf[start])),
{
    let label = buf.subrange(start + 1, start + 1 + buf[start]);
    match read_labels(buf, start + 1 + buf[start]) {
        Some((ls2, end)) => {
            let ls = seq![label] + ls2;
            assert(ls[0] == label);
            assert forall|i: int| 0 <= i < ls2.len() implies ls[i + 1] == ls2[i] by {}
            if all_valid_utf8(ls) {
                assert forall|i: int| 0 <= i < ls2.len() implies valid_utf8(#[trigger] ls2[i]) by {
                    assert(ls[i + 1] == ls2[i]);
                }
            }
        },
        None => {},
    }
}

/// Whether a name can be read at `pos`: its labels fit in `buf` and each is UTF-8.
pub fn name_readable(buf: &[u8], pos: usize) -> (ok: bool)
    ensures
        ok == (read_name(buf@, pos as int) is Some),
{
    let mut start = pos;
    loop
        invariant
            pos <= start,
            labels_ok(buf@, pos as int) == labels_ok(buf@, start as int),
            (read_name(buf@, pos as int) is Some) == labels_ok(buf@, pos as int),
        decreases buf@.len() - start,
    {
        if start >= buf.len() {
            return false;
        }
        let len = buf[start] as usize;
        if len == 0 {
            return true;
        }
        if len > buf.len() - start - 1 {
            return false;
        }
        proof { lemma_read_labels_step(buf@, start as int); }
        let label = &buf[start + 1..start + 1 + len];
        assert(label@ == buf@.subrange(start + 1, start + 1 + len));
        if utf8_str(label).is_none() {
            return false;
        }
        start = start + 1 + len;
    }
}

/// Reads the name at `pos`: its labels decoded as UTF-8 and joined with `'.'`, and the
/// position after the terminating zero byte.
pub fn read_name_at(buf: &[u8], pos: usize) -> (res: (String, usize))
    requires
        read_name(buf@, pos as int) is Some,
    ensures
        read_name(buf@, pos as int) == Some((res.0@, res.1 as int)),
{
    let ghost ls = read_labels(buf@, pos as int).unwrap().0;
    let ghost end = read_labels(buf@, pos as int).unwrap().1;
    let mut start = pos;
    let mut name = String::new();
    let mut first = true;
    let ghost mut k: int = 0;
    assert(ls.skip(0) =~= ls);
    assert(ls.take(0) =~= Seq::<Seq<u8>>::empty());
    loop
        invariant_except_break
            0 <= k <= ls.len(),
            read_labels(buf@, start as int) == Some((ls.skip(k), end)),
            first == (k == 0),
        invariant
            all_valid_utf8(ls),
            read_labels(buf@, pos as int) == Some((ls, end)),
            encode_utf8(name@) == join_labels(ls.take(k)),
        ensures
            k == ls.len(),
            start == end,
        decreases buf@.len() - start,
    {
        let len = buf[start] as usize;
        if len == 0 {
            start = start + 1;
            break;
        }
        let ghost rest = read_labels(buf@, start + 1 + len).unwrap().0;
        assert(ls.skip(k) == seq![buf@.subrange(start + 1, start + 1 + len)] + rest);
        assert(ls[k] == ls.skip(k)[0]);
        assert(valid_utf8(ls[k]));
        let label = &buf[start + 1..start + 1 + len];
        assert(label@ == ls[k]);
        let word = utf8_str(label);
        match word {
            Some(w) => {
                let ghost before = name@;
                if !first {
                    name.append(".");
                    proof {
                        reveal_strlit(".");
                        is_ascii_chars_encode_utf8("."@);
                        assert(encode_utf8("."@) =~= seq![DOT]);
                        lemma_encode_utf8_concat(before, "."@);
                    }
                }
                let ghost mid = name@;
                name.append(w);
                proof {
                    lemma_encode_utf8_concat(mid, w@);
                    if k == 0 {
                        assert(ls.take(1) =~= seq![ls[0]]);
                        assert(ls.take(0) =~= Seq::<Seq<u8>>::empty());
                        assert(encode_utf8(mid) =~= Seq::<u8>::empty());
                    } else {
                        assert(ls.take(k).push(ls[k]) =~= ls.take(k + 1));
                        lemma_join_push(ls.take(k), ls[k]);
                    }
                }
            },
            None => {
                assert(false);
            },
        }
        start = start + 1 + len;
        proof {
            assert(ls.skip(k).drop_first() =~= ls.skip(k + 1));
            k = k + 1;
        }
        first = false;
    }
    proof {
        assert(ls.take(k) =~= ls);
        vstd::utf8::encode_utf8_decode_utf8(name@);
    }
    (name, start)
}


/// The index of the first separator in `b`, or its length when it holds none.
pub open spec fn first_dot(b: Seq<u8>) -> int
    decreases b.len(),
{
    if b.len() == 0 {
        0
    } else if b[0] == DOT {
        0
    } else {
        1 + first_dot(b.drop_first())
    }
}

pub proof fn lemma_first_dot(b: Seq<u8>)
    ensures
        0 <= first_dot(b) <= b.len(),
        forall|t: int| 0 <= t < first_dot(b) ==> b[t] != DOT,
        first_dot(b) < b.len() ==> b[first_dot(b)] == DOT,
    decreases b.len(),
{
    if b.len() > 0 && b[0] != DOT {
        lemma_first_dot(b.drop_first());
        assert forall|t: int| 0 <= t < first_dot(b) implies b[t] != DOT by {
            if t > 0 {
                assert(b[t] == b.drop_first()[t - 1]);
            }
        }
    }
}

/// Joining the labels of a name gives the name back.
pub proof fn lemma_join_labels(b: Seq<u8>)
    ensures
        join_labels(labels(b)) == b,
    decreases b.len(),
{
    if b.len() == 0 {
        assert(join_labels(labels(b)) == Seq::<u8>::empty());
        assert(b =~= Seq::<u8>::empty());
    } else {
        let rest = labels(b.drop_first());
        lemma_labels_nonempty(b.drop_first());
        lemma_join_labels(b.drop_first());
        if b[0] == DOT {
            let ls = seq![Seq::<u8>::empty()] + rest;
            assert(ls.drop_first() =~= rest);
            assert(ls[0] == Seq::<u8>::empty());
            assert(join_labels(ls) =~= b);
        } else {
            let ls = rest.update(0, seq![b[0]] + rest[0]);
            if rest.len() == 1 {
                assert(join_labels(rest) == rest[0]);
                assert(join_labels(ls) =~= b);
            } else {
                assert(ls.drop_first() =~= rest.drop_first());
                assert(join_labels(rest) == rest[0] + seq![DOT] + join_labels(rest.drop_first()));
                assert(ls[0] == seq![b[0]] + rest[0]);
                assert(join_labels(ls) == ls[0] + seq![DOT] + join_labels(ls.drop_first()));
                assert(join_labels(ls) =~= seq![b[0]] + join_labels(rest));
                assert(seq![b[0]] + b.drop_first() =~= b);
            }
        }
    }
}

/// The labels of well-formed UTF-8 are themselves well-formed UTF-8, since a
/// separator is a one-byte character.
pub proof fn lemma_labels_valid(b: Seq<u8>)
    requires
        valid_utf8(b),
    ensures
        all_valid_utf8(labels(b)),
    decreases b.len(),
{
    let i = first_dot(b);
    lemma_first_dot(b);
    assert(b.skip(0) =~= b);
    if i == b.len() {
        lemma_labels_at_end(b, 0);
    } else {
        lemma_labels_at_dot(b, 0, i);
        vstd::utf8::is_char_boundary_iff_is_leading_byte(b, i);
        vstd::utf8::valid_utf8_split(b, i);
        let c = b.subrange(i, b.len() as int);
        assert(c[0] == DOT);
        assert(is_char_boundary(c, 1)) by {
            reveal_with_fuel(is_char_boundary, 2);
        }
        vstd::utf8::valid_utf8_split(c, 1);
        assert(c.subrange(1, c.len() as int) =~= b.skip(i + 1));
        lemma_labels_valid(b.skip(i + 1));
        let ls = labels(b);
        assert(ls[0] == b.subrange(0, i));
        assert forall|t: int| 0 <= t < ls.len() implies valid_utf8(#[trigger] ls[t]) by {
            if t > 0 {
                assert(ls[t] == labels(b.skip(i + 1))[t - 1]);
            }
        }
    }
}

/// The labels written by [`encode_labels`] are read back by [`read_labels`] when each is
/// non-empty and shorter than 256 bytes.
pub proof fn lemma_read_encoded(buf: Seq<u8>, pos: int, ls: Seq<Seq<u8>>)
    requires
        0 <= pos,
        pos + encode_labels(ls).len() + 1 <= buf.len(),
        buf.subrange(pos, pos + encode_labels(ls).len() + 1) == encode_labels(ls) + seq![0u8],
        forall|i: int| 0 <= i < ls.len() ==> 0 < (#[trigger] ls[i]).len() < 256,
    ensures
        read_labels(buf, pos) == Some((ls, pos + encode_labels(ls).len() + 1)),
    decreases ls.len(),
{
    let enc = encode_labels(ls);
    assert(buf[pos] == buf.subrange(pos, pos + enc.len() + 1)[0]);
    if ls.len() == 0 {
        assert(buf[pos] == 0);
    } else {
        let l = ls[0];
        let rest = ls.drop_first();
        assert(enc == seq![l.len() as u8] + l + encode_labels(rest));
        assert((l.len() as u8) as int == l.len());
        assert(buf[pos] as int == l.len());
        let next = pos + 1 + l.len();
        assert(buf.subrange(next, next + encode_labels(rest).len() + 1) =~= encode_labels(rest)
            + seq![0u8]) by {
            assert forall|t: int| 0 <= t < encode_labels(rest).len() + 1 implies buf.subrange(
                next,
                next + encode_labels(rest).len() + 1,
            )[t] == (encode_labels(rest) + seq![0u8])[t] by {
                assert(buf[next + t] == buf.subrange(pos, pos + enc.len() + 1)[1 + l.len() + t]);
            }
        }
        assert(buf.subrange(pos + 1, next) =~= l) by {
            assert forall|t: int| 0 <= t < l.len() implies buf.subrange(pos + 1, next)[t] == l[t] by {
                assert(buf[pos + 1 + t] == buf.subrange(pos, pos + enc.len() + 1)[1 + t]);
            }
        }
        assert forall|i: int| 0 <= i < rest.len() implies 0 < (#[trigger] rest[i]).len() < 256 by {
            assert(rest[i] == ls[i + 1]);
        }
        lemma_read_encoded(buf, next, rest);
        assert(seq![l] + rest =~= ls);
    }
}

/// A name whose labels are non-empty and shorter than 256 bytes reads back from its
/// wire form as the same text, and the reading ends right after the wire form.
pub proof fn lemma_name_roundtrip(b: Seq<u8>, buf: Seq<u8>, pos: int)
    requires
        valid_utf8(b),
        labels_encodable(b),
        0 <= pos,
        pos + name_wire(b).len() <= buf.len(),
        buf.subrange(pos, pos + name_wire(b).len()) == name_wire(b),
    ensures
        read_name(buf, pos) == Some((decode_utf8(b), pos + name_wire(b).len())),
{
    let ls = labels(b);
    lemma_read_encoded(buf, pos, ls);
    lemma_labels_valid(b);
    lemma_join_labels(b);
}

/// The wire form of a name is two bytes longer than the name.
pub proof fn lemma_name_wire_len(b: Seq<u8>)
    ensures
        encode_labels(labels(b)).len() == b.len() + 1,
        name_wire(b).len() == b.len() + 2,
    decreases b.len(),
{
    if b.len() == 0 {
        let ls = labels(b);
        assert(ls == seq![Seq::<u8>::empty()]);
        assert(ls.drop_first() =~= Seq::<Seq<u8>>::empty());
        assert(encode_labels(ls).len() == 1 + ls[0].len() + encode_labels(ls.drop_first()).len());
    } else {
        lemma_name_wire_len(b.drop_first());
        lemma_labels_nonempty(b.drop_first());
        let rest = labels(b.drop_first());
        assert(encode_labels(rest).len() == 1 + rest[0].len() + encode_labels(
            rest.drop_first(),
        ).len());
        let ls = labels(b);
        assert(encode_labels(ls).len() == 1 + ls[0].len() + encode_labels(ls.drop_first()).len());
        if b[0] == DOT {
            assert(ls == seq![Seq::<u8>::empty()] + rest);
            assert(ls.drop_first() =~= rest);
            assert(ls[0].len() == 0);
        } else {
            assert(ls == rest.update(0, seq![b[0]] + rest[0]));
            assert(ls.drop_first() =~= rest.drop_first());
            assert(ls[0].len() == 1 + rest[0].len());
        }
    }
}

/// No label holds a separator byte.
pub open spec fn no_dots(ls: Seq<Seq<u8>>) -> bool {
    forall|i: int, k: int| 0 <= i < ls.len() && 0 <= k < ls[i].len() ==> #[trigger] ls[i][k] != DOT
}

/// The labels found in `buf` at `pos` hold no separator byte, and there is at least one.
pub open spec fn plain_labels_at(buf: Seq<u8>, pos: int) -> bool {
    match read_labels(buf, pos) {
        Some((ls, _)) => ls.len() >= 1 && no_dots(ls),
        None => false,
    }
}

proof fn lemma_join_valid(ls: Seq<Seq<u8>>)
    requires
        all_valid_utf8(ls),
    ensures
        valid_utf8(join_labels(ls)),
    decreases ls.len(),
{
    if ls.len() == 0 {
        assert(valid_utf8(join_labels(ls)));
    } else if ls.len() == 1 {
        assert(valid_utf8(ls[0]));
    } else {
        let rest = ls.drop_first();
        assert forall|i: int| 0 <= i < rest.len() implies valid_utf8(#[trigger] rest[i]) by {
            assert(rest[i] == ls[i + 1]);
        }
        lemma_join_valid(rest);
        let dot = seq!['.'];
        is_ascii_chars_encode_utf8(dot);
        assert(encode_utf8(dot) =~= seq![DOT]);
        vstd::utf8::encode_utf8_valid_utf8(dot);
        assert(valid_utf8(ls[0]));
        vstd::utf8::valid_utf8_concat(ls[0], seq![DOT]);
        vstd::utf8::valid_utf8_concat(ls[0] + seq![DOT], join_labels(rest));
    }
}

/// Splitting joined labels at the separators gives the labels back, when there is at
/// least one and none holds a separator.
pub proof fn lemma_labels_of_join(ls: Seq<Seq<u8>>)
    requires
        ls.len() >= 1,
        no_dots(ls),
    ensures
        labels(join_labels(ls)) == ls,
    decreases ls.len(),
{
    let b = join_labels(ls);
    if ls.len() == 1 {
        assert(b == ls[0]);
        assert forall|t: int| 0 <= t < b.len() implies b[t] != DOT by {
            assert(ls[0][t] != DOT);
        }
        lemma_labels_at_end(b, 0);
        assert(b.skip(0) =~= b);
        assert(seq![b] =~= ls);
    } else {
        let rest = ls.drop_first();
        assert forall|i: int, k: int| 0 <= i < rest.len() && 0 <= k < rest[i].len() implies #[trigger] rest[i][k] != DOT by {
            assert(rest[i] == ls[i + 1]);
            assert(ls[i + 1][k] != DOT);
        }
        lemma_labels_of_join(rest);
        let l0 = ls[0];
        assert(b == l0 + seq![DOT] + join_labels(rest));
        assert forall|t: int| 0 <= t < l0.len() implies b[t] != DOT by {
            assert(b[t] == l0[t]);
            assert(ls[0][t] != DOT);
        }
        lemma_labels_at_dot(b, 0, l0.len() as int);
        assert(b.skip(0) =~= b);
        assert(b.subrange(0, l0.len() as int) =~= l0);
        assert(b.skip(l0.len() as int + 1) =~= join_labels(rest));
        assert(seq![l0] + rest =~= ls);
    }
}

proof fn lemma_read_labels_bytes(buf: Seq<u8>, pos: int)
    requires
        read_labels(buf, pos) is Some,
    ensures
        ({
            let (ls, end) = read_labels(buf, pos).unwrap();
            &&& 0 <= pos < end <= buf.len()
            &&& buf.subrange(pos, end) == encode_labels(ls) + seq![0u8]
        }),
    decreases buf.len() - pos,
{
    if buf[pos] == 0 {
        assert(buf.subrange(pos, pos + 1) =~= encode_labels(Seq::<Seq<u8>>::empty()) + seq![0u8]);
    } else {
        let next = pos + 1 + buf[pos];
        lemma_read_labels_bytes(buf, next);
        let (rest, end) = read_labels(buf, next).unwrap();
        let l = buf.subrange(pos + 1, next);
        let ls = seq![l] + rest;
        assert(ls.drop_first() =~= rest);
        assert(ls[0] == l);
        assert((l.len() as u8) == buf[pos]);
        assert(buf.subrange(pos, end) =~= seq![l.len() as u8] + l + buf.subrange(next, end));
    }
}

/// A name read from the wire and written again gives back the bytes it was read from,
/// when it has at least one label and none of its labels holds a `'.'` byte.
pub proof fn lemma_name_rewrite(buf: Seq<u8>, pos: int)
    requires
        read_name(buf, pos) is Some,
        plain_labels_at(buf, pos),
    ensures
        ({
            let (name, end) = read_name(buf, pos).unwrap();
            &&& 0 <= pos < end <= buf.len()
            &&& name_wire(encode_utf8(name)) == buf.subrange(pos, end)
        }),
{
    let (ls, end) = read_labels(buf, pos).unwrap();
    lemma_join_valid(ls);
    vstd::utf8::decode_utf8_encode_utf8(join_labels(ls));
    lemma_labels_of_join(ls);
    lemma_read_labels_bytes(buf, pos);
}

/// The wire form of a name, label by label: a name without separators is written as its
/// length byte, its bytes and a zero byte; a name whose first separator follows the
/// label `l` is written as the length byte of `l`, the bytes of `l` and then the wire
/// form of the rest.
pub proof fn lemma_name_wire_layout(l: Seq<u8>, rest: Seq<u8>)
    requires
        forall|t: int| 0 <= t < l.len() ==> l[t] != DOT,
    ensures
        name_wire(l) == seq![l.len() as u8] + l + seq![0u8],
        name_wire(l + seq![DOT] + rest) == seq![l.len() as u8] + l + name_wire(rest),
{
    assert(l.skip(0) =~= l);
    lemma_labels_at_end(l, 0);
    let ls = labels(l);
    assert(ls.drop_first() =~= Seq::<Seq<u8>>::empty());
    assert(encode_labels(ls) == seq![l.len() as u8] + l + encode_labels(ls.drop_first()));
    assert(name_wire(l) =~= seq![l.len() as u8] + l + seq![0u8]);
    let b = l + seq![DOT] + rest;
    assert forall|t: int| 0 <= t < l.len() implies b[t] != DOT by {
        assert(b[t] == l[t]);
    }
    lemma_labels_at_dot(b, 0, l.len() as int);
    assert(b.skip(0) =~= b);
    assert(b.subrange(0, l.len() as int) =~= l);
    assert(b.skip(l.len() as int + 1) =~= rest);
    let bs = labels(b);
    assert(bs.drop_first() =~= labels(rest));
    assert(encode_labels(bs) == seq![l.len() as u8] + l + encode_labels(bs.drop_first()));
    assert(name_wire(b) =~= seq![l.len() as u8] + l + name_wire(rest));
}

} // verus!
