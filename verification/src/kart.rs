//! Kart dataset logic: base64 decoding of feature file names, primary-key
//! and legend decoding, GeoPackage geometry unwrapping and the mapping of
//! schema columns onto stored feature values.

use vstd::prelude::*;
use vstd::string::*;
use vstd::utf8::*;
use crate::git::git_oid;
use crate::msgpack::{
    all_encodable, decode, encodable, encode_value, lemma_encode_round_trip, models, spec_decode, DecodeError, Value,
    ValueModel,
};

verus! {

/// Why a Kart structure could not be read.
#[derive(Debug, Clone, Copy, PartialEq, Eq, Structural)]
pub enum KartError {
    /// A byte of base64 text that is neither a base64 digit nor white space.
    InvalidBase64Character(u8),
    /// The output buffer is too small for the decoded bytes.
    Base64BufferOverflow,
    /// The MessagePack data could not be decoded.
    Msgpack(DecodeError),
    /// A legend is not a MessagePack array.
    LegendNotArray,
    /// A legend array does not have two elements; it has this many.
    LegendWrongLength(usize),
    /// A legend element is not an array of column ids.
    LegendColumnsNotArray,
    /// A legend column id is not a string.
    LegendColumnNotString,
}

/// The value of a base64 digit, in the URL-safe alphabet or the standard one.
pub open spec fn base64_digit(b: u8) -> Option<u8> {
    if 0x41 <= b <= 0x5a {
        Some((b - 0x41) as u8)
    } else if 0x61 <= b <= 0x7a {
        Some((b - 0x61 + 26) as u8)
    } else if 0x30 <= b <= 0x39 {
        Some((b - 0x30 + 52) as u8)
    } else if b == 0x2d || b == 0x2b {
        Some(62u8)
    } else if b == 0x5f || b == 0x2f {
        Some(63u8)
    } else {
        None
    }
}

/// Space, carriage return, line feed and tab are skipped in base64 text.
pub open spec fn is_base64_space(b: u8) -> bool {
    b == 0x20 || b == 0x0d || b == 0x0a || b == 0x09
}

/// The optional prefix `base64:` of encoded text.
pub open spec fn base64_prefix() -> Seq<u8> {
    seq![0x62u8, 0x61, 0x73, 0x65, 0x36, 0x34, 0x3a]
}

/// The text without its trailing `=` padding.
pub open spec fn trim_padding(b: Seq<u8>) -> Seq<u8>
    decreases b.len(),
{
    if b.len() > 0 && b.last() == 0x3d {
        trim_padding(b.drop_last())
    } else {
        b
    }
}

/// The text that is decoded: the input without a leading `base64:` and
/// without trailing padding.
pub open spec fn base64_body(input: Seq<u8>) -> Seq<u8> {
    if input.len() >= 7 && input.subrange(0, 7) == base64_prefix() {
        trim_padding(input.subrange(7, input.len() as int))
    } else {
        trim_padding(input)
    }
}

/// The digit values of the text up to its first byte that is neither a
/// digit nor white space, and that byte when there is one.
pub open spec fn base64_scan(b: Seq<u8>) -> (Seq<u8>, Option<u8>)
    decreases b.len(),
{
    if b.len() == 0 {
        (Seq::empty(), None)
    } else {
        let (digits, bad) = base64_scan(b.drop_last());
        if bad is Some {
            (digits, bad)
        } else if is_base64_space(b.last()) {
            (digits, None)
        } else {
            match base64_digit(b.last()) {
                Some(v) => (digits.push(v), None),
                None => (digits, Some(b.last())),
            }
        }
    }
}

/// The three bytes that four digits (24 bits) encode.
pub open spec fn base64_group(a: u8, b: u8, c: u8, d: u8) -> Seq<u8> {
    seq![(a * 4 + b / 16) as u8, ((b % 16) * 16 + c / 4) as u8, ((c % 4) * 64 + d) as u8]
}

/// The bytes that a run of digits encodes: three bytes for each group of
/// four; a final group of two or three digits gives one or two bytes, and
/// a final single digit gives none.
pub open spec fn base64_decode_digits(d: Seq<u8>) -> Seq<u8>
    decreases d.len(),
{
    if d.len() >= 4 {
        base64_group(d[0], d[1], d[2], d[3]) + base64_decode_digits(d.subrange(4, d.len() as int))
    } else if d.len() >= 2 {
        base64_group(d[0], d[1], if d.len() == 3 { d[2] } else { 0 }, 0).subrange(0, d.len() - 1)
    } else {
        Seq::empty()
    }
}

/// What `base64_urlsafe_decode` gives for the bytes of its input.
pub open spec fn spec_base64_decode(input: Seq<u8>) -> Result<Seq<u8>, KartError> {
    let (digits, bad) = base64_scan(base64_body(input));
    match bad {
        Some(c) => Err(KartError::InvalidBase64Character(c)),
        None => Ok(base64_decode_digits(digits)),
    }
}

/// What `base64_urlsafe_decode_slice` gives for the bytes of its input and
/// an output buffer of `cap` bytes: the buffer overflows as soon as the
/// digits before the first invalid byte give more than `cap` bytes.
pub open spec fn spec_base64_decode_into(input: Seq<u8>, cap: nat) -> Result<Seq<u8>, KartError> {
    let (digits, bad) = base64_scan(base64_body(input));
    let out = base64_decode_digits(digits);
    if out.len() > cap {
        Err(KartError::Base64BufferOverflow)
    } else {
        match bad {
            Some(c) => Err(KartError::InvalidBase64Character(c)),
            None => Ok(out),
        }
    }
}

/// What `base64_urlsafe_decode_slice` leaves in a buffer that held `buf`:
/// the decoded bytes at its front when they fit, else as many of them as
/// fit; the rest of the buffer as it was.
pub open spec fn spec_base64_buffer_after(input: Seq<u8>, buf: Seq<u8>) -> Seq<u8> {
    let bytes = base64_decode_digits(base64_scan(base64_body(input)).0);
    if bytes.len() <= buf.len() {
        bytes + buf.subrange(bytes.len() as int, buf.len() as int)
    } else {
        bytes.subrange(0, buf.len() as int)
    }
}

/// The number of bytes that `n` base64 digits decode to.
pub open spec fn base64_decoded_len(n: nat) -> nat {
    (n / 4) * 3 + if n % 4 >= 2 { (n % 4 - 1) as nat } else { 0 }
}

proof fn lemma_decode_digits_len(d: Seq<u8>)
    ensures
        base64_decode_digits(d).len() == base64_decoded_len(d.len()),
    decreases d.len(),
{
    if d.len() >= 4 {
        lemma_decode_digits_len(d.subrange(4, d.len() as int));
    }
}

/// Decoding runs of whole groups can be split at a group boundary.
proof fn lemma_decode_digits_append(x: Seq<u8>, y: Seq<u8>)
    requires
        x.len() % 4 == 0,
    ensures
        base64_decode_digits(x + y) == base64_decode_digits(x) + base64_decode_digits(y),
    decreases x.len(),
{
    if x.len() == 0 {
        assert(x + y =~= y);
        assert(Seq::<u8>::empty() + base64_decode_digits(y) =~= base64_decode_digits(y));
    } else {
        let x1 = x.subrange(4, x.len() as int);
        assert((x + y).subrange(4, (x + y).len() as int) =~= x1 + y);
        lemma_decode_digits_append(x1, y);
        assert(base64_group(x[0], x[1], x[2], x[3]) + (base64_decode_digits(x1) + base64_decode_digits(y))
            =~= (base64_group(x[0], x[1], x[2], x[3]) + base64_decode_digits(x1)) + base64_decode_digits(y));
    }
}

/// What one more digit adds to the decoded bytes.
proof fn lemma_decode_digits_push(d: Seq<u8>, v: u8)
    ensures
        ({
            let r = d.len() % 4;
            let q = d.len() - r;
            let next = base64_decode_digits(d.push(v));
            let cur = base64_decode_digits(d);
            &&& r == 0 ==> next == cur
            &&& r == 1 ==> next == cur.push((d[q] * 4 + v / 16) as u8)
            &&& r == 2 ==> next == cur.push(((d[q + 1] % 16) * 16 + v / 4) as u8)
            &&& r == 3 ==> next == cur.push(((d[q + 2] % 4) * 64 + v) as u8)
        }),
{
    let r = d.len() % 4;
    let q = d.len() - r;
    let head = d.subrange(0, q);
    let tail = d.subrange(q, d.len() as int);
    assert(d =~= head + tail);
    assert(d.push(v) =~= head + tail.push(v));
    lemma_decode_digits_append(head, tail);
    lemma_decode_digits_append(head, tail.push(v));
    let t2 = tail.push(v);
    if r == 3 {
        assert(t2.len() == 4);
        assert(t2.subrange(4, t2.len() as int) =~= Seq::<u8>::empty());
        assert(base64_decode_digits(t2.subrange(4, t2.len() as int)) =~= Seq::<u8>::empty());
        assert(base64_decode_digits(t2) =~= base64_group(t2[0], t2[1], t2[2], t2[3]) + Seq::<u8>::empty());
    }
    assert(base64_decode_digits(head) + base64_decode_digits(tail.push(v)) =~= (if r == 0 {
        base64_decode_digits(head) + base64_decode_digits(tail)
    } else if r == 1 {
        (base64_decode_digits(head) + base64_decode_digits(tail)).push((d[q] * 4 + v / 16) as u8)
    } else if r == 2 {
        (base64_decode_digits(head) + base64_decode_digits(tail)).push(((d[q + 1] % 16) * 16 + v / 4) as u8)
    } else {
        (base64_decode_digits(head) + base64_decode_digits(tail)).push(((d[q + 2] % 4) * 64 + v) as u8)
    }));
}

/// Once an invalid byte has been met, later bytes change nothing.
proof fn lemma_scan_stops(p: Seq<u8>, q: Seq<u8>)
    requires
        base64_scan(p).1 is Some,
    ensures
        base64_scan(p + q) == base64_scan(p),
    decreases q.len(),
{
    if q.len() == 0 {
        assert(p + q =~= p);
    } else {
        let q1 = q.drop_last();
        lemma_scan_stops(p, q1);
        assert((p + q).drop_last() =~= p + q1);
    }
}

/// Scanning more text never loses digits.
proof fn lemma_scan_grows(p: Seq<u8>, q: Seq<u8>)
    ensures
        base64_scan(p).0.len() <= base64_scan(p + q).0.len(),
    decreases q.len(),
{
    if q.len() > 0 {
        let q1 = q.drop_last();
        assert((p + q).drop_last() =~= p + q1);
        lemma_scan_grows(p, q1);
    } else {
        assert(p + q =~= p);
    }
}

/// The digits scanned from a text start the digits scanned from any
/// longer text.
proof fn lemma_scan_prefix(p: Seq<u8>, q: Seq<u8>)
    ensures
        base64_scan(p).0.len() <= base64_scan(p + q).0.len(),
        base64_scan(p + q).0.subrange(0, base64_scan(p).0.len() as int) == base64_scan(p).0,
    decreases q.len(),
{
    if q.len() > 0 {
        let q1 = q.drop_last();
        assert((p + q).drop_last() =~= p + q1);
        lemma_scan_prefix(p, q1);
        let a = base64_scan(p).0;
        let b = base64_scan(p + q1).0;
        let c = base64_scan(p + q).0;
        assert(c.subrange(0, b.len() as int) =~= b);
        assert(c.subrange(0, a.len() as int) =~= b.subrange(0, a.len() as int));
    } else {
        assert(p + q =~= p);
        assert(base64_scan(p).0.subrange(0, base64_scan(p).0.len() as int) =~= base64_scan(p).0);
    }
}

/// Decoding a run of digits gives a prefix of what decoding any longer
/// run starting with it gives.
proof fn lemma_decode_prefix(d: Seq<u8>, e: Seq<u8>)
    requires
        d.len() <= e.len(),
        e.subrange(0, d.len() as int) == d,
    ensures
        base64_decode_digits(d).len() <= base64_decode_digits(e).len(),
        base64_decode_digits(e).subrange(0, base64_decode_digits(d).len() as int) == base64_decode_digits(d),
    decreases e.len() - d.len(),
{
    if d.len() == e.len() {
        assert(e =~= d);
        assert(base64_decode_digits(d).subrange(0, base64_decode_digits(d).len() as int) =~= base64_decode_digits(d));
    } else {
        let e1 = e.drop_last();
        assert(e1.subrange(0, d.len() as int) =~= d);
        lemma_decode_prefix(d, e1);
        assert(e1.push(e.last()) =~= e);
        lemma_decode_digits_push(e1, e.last());
        let a = base64_decode_digits(d);
        let b = base64_decode_digits(e1);
        let c = base64_decode_digits(e);
        assert(c.subrange(0, b.len() as int) =~= b);
        assert(c.subrange(0, a.len() as int) =~= b.subrange(0, a.len() as int));
    }
}

/// The range of `bytes` that `base64_body` keeps.
fn base64_body_range(bytes: &[u8]) -> (r: (usize, usize))
    ensures
        r.0 <= r.1 <= bytes@.len(),
        bytes@.subrange(r.0 as int, r.1 as int) == base64_body(bytes@),
{
    let len = bytes.len();
    let mut start: usize = 0;
    if len >= 7 && bytes[0] == 0x62 && bytes[1] == 0x61 && bytes[2] == 0x73 && bytes[3] == 0x65
        && bytes[4] == 0x36 && bytes[5] == 0x34 && bytes[6] == 0x3a {
        start = 7;
        assert(bytes@.subrange(0, 7) =~= base64_prefix());
    } else {
        assert(len >= 7 ==> bytes@.subrange(0, 7) != base64_prefix()) by {
            if len >= 7 && bytes@.subrange(0, 7) == base64_prefix() {
                assert(bytes@.subrange(0, 7)[0] == bytes@[0]);
                assert(bytes@.subrange(0, 7)[1] == bytes@[1]);
                assert(bytes@.subrange(0, 7)[2] == bytes@[2]);
                assert(bytes@.subrange(0, 7)[3] == bytes@[3]);
                assert(bytes@.subrange(0, 7)[4] == bytes@[4]);
                assert(bytes@.subrange(0, 7)[5] == bytes@[5]);
                assert(bytes@.subrange(0, 7)[6] == bytes@[6]);
            }
        }
        assert(bytes@.subrange(0, len as int) =~= bytes@);
    }
    let ghost rest = bytes@.subrange(start as int, len as int);
    let mut end = len;
    while end > start && bytes[end - 1] == 0x3d
        invariant
            start <= end <= len,
            len == bytes@.len(),
            trim_padding(rest) == trim_padding(bytes@.subrange(start as int, end as int)),
        decreases end,
    {
        assert(bytes@.subrange(start as int, end as int).drop_last() =~= bytes@.subrange(start as int, end - 1));
        end = end - 1;
    }
    (start, end)
}

/// The value of a base64 digit.
fn base64_digit_value(b: u8) -> (r: Option<u8>)
    ensures
        r == base64_digit(b),
{
    if 0x41 <= b && b <= 0x5a {
        Some(b - 0x41)
    } else if 0x61 <= b && b <= 0x7a {
        Some(b - 0x61 + 26)
    } else if 0x30 <= b && b <= 0x39 {
        Some(b - 0x30 + 52)
    } else if b == 0x2d || b == 0x2b {
        Some(62)
    } else if b == 0x5f || b == 0x2f {
        Some(63)
    } else {
        None
    }
}

/// How far a decoding is into its current group of four digits.
spec fn base64_state(buf: u32, bits: u32, d: Seq<u8>) -> bool {
    let r = d.len() % 4;
    let q = d.len() - r;
    if r == 0 {
        bits == 0 && buf == 0
    } else if r == 1 {
        bits == 6 && buf == d[q]
    } else if r == 2 {
        bits == 4 && buf == d[q + 1] % 16
    } else {
        bits == 2 && buf == d[q + 2] % 4
    }
}

spec fn all_digits(d: Seq<u8>) -> bool {
    forall|j: int| 0 <= j < d.len() ==> #[trigger] d[j] < 64
}

/// Adds one digit to the bit buffer; returns the completed byte, if any.
fn base64_push_digit(buf: &mut u32, bits: &mut u32, v: u8, d: Ghost<Seq<u8>>) -> (byte: Option<u8>)
    requires
        v < 64,
        all_digits(d@),
        base64_state(*old(buf), *old(bits), d@),
    ensures
        base64_state(*final(buf), *final(bits), d@.push(v)),
        match byte {
            Some(b) => base64_decode_digits(d@.push(v)) == base64_decode_digits(d@).push(b),
            None => base64_decode_digits(d@.push(v)) == base64_decode_digits(d@),
        },
{
    proof {
        lemma_decode_digits_push(d@, v);
    }
    let ghost r = d@.len() % 4;
    let ghost q = d@.len() - r;
    let ghost b0 = *buf;
    let val = v as u32;
    *buf = (*buf << 6) | val;
    *bits = *bits + 6;
    if *bits >= 8 {
        *bits = *bits - 8;
        proof {
            assert(1u32 << 4u32 == 16u32 && 1u32 << 2u32 == 4u32 && 1u32 << 0u32 == 1u32) by (bit_vector);
        }
        let byte = (*buf >> *bits) as u8;
        let ghost b1 = *buf;
        *buf = *buf & ((1u32 << *bits) - 1);
        proof {
            let ghost dd = d@.push(v);
            assert(dd.len() % 4 == (r + 1) % 4);
            if r == 1 {
                assert(((b0 << 6) | val) >> 4u32 == b0 * 4 + val / 16 && ((b0 * 4 + val / 16) as u8) == b0 * 4 + val / 16
                    && ((b0 << 6) | val) & 15u32 == val % 16 && (1u32 << 4u32) == 16u32) by (bit_vector)
                    requires b0 < 64, val < 64;
                assert(dd[q + 1] == v);
            } else if r == 2 {
                assert(((b0 << 6) | val) >> 2u32 == b0 * 16 + val / 4 && ((b0 * 16 + val / 4) as u8) == b0 * 16 + val / 4
                    && ((b0 << 6) | val) & 3u32 == val % 4 && (1u32 << 2u32) == 4u32) by (bit_vector)
                    requires b0 < 16, val < 64;
                assert(dd[q + 2] == v);
            } else {
                assert(((b0 << 6) | val) >> 0u32 == b0 * 64 + val && ((b0 * 64 + val) as u8) == b0 * 64 + val
                    && ((b0 << 6) | val) & 0u32 == 0u32 && (1u32 << 0u32) == 1u32) by (bit_vector)
                    requires b0 < 4, val < 64;
            }
        }
        Some(byte)
    } else {
        proof {
            assert((0u32 << 6) | val == val) by (bit_vector);
            assert(d@.push(v)[q] == v);
        }
        None
    }
}

/// Decodes base64 text in the URL-safe alphabet (the standard `+` and `/`
/// are accepted too), after an optional `base64:` prefix; trailing `=`
/// padding and white space are ignored.
pub fn base64_urlsafe_decode(input: &str) -> (res: Result<Vec<u8>, KartError>)
    ensures
        match spec_base64_decode(input.spec_bytes()) {
            Ok(out) => res matches Ok(v) && v@ == out,
            Err(e) => res == Err::<Vec<u8>, KartError>(e),
        },
{
    let bytes = input.as_bytes();
    assert(bytes@ == input.spec_bytes());
    let (start, end) = base64_body_range(bytes);
    let ghost body = base64_body(bytes@);
    let mut buf: u32 = 0;
    let mut bits: u32 = 0;
    let mut out: Vec<u8> = Vec::new();
    let ghost mut digits: Seq<u8> = Seq::empty();
    let mut i = start;
    assert(body.subrange(0, 0) =~= Seq::<u8>::empty());
    while i < end
        invariant
            start <= i <= end <= bytes@.len(),
            body == bytes@.subrange(start as int, end as int),
            body == base64_body(input.spec_bytes()),
            base64_scan(body.subrange(0, i - start)) == (digits, None::<u8>),
            all_digits(digits),
            out@ == base64_decode_digits(digits),
            base64_state(buf, bits, digits),
        decreases end - i,
    {
        let b = bytes[i];
        let ghost seen = body.subrange(0, i - start + 1);
        assert(seen.drop_last() =~= body.subrange(0, i - start));
        assert(seen.last() == b);
        if b == 0x20 || b == 0x0d || b == 0x0a || b == 0x09 {
            i = i + 1;
        } else {
            match base64_digit_value(b) {
                None => {
                    proof {
                        lemma_scan_stops(seen, body.subrange(i - start + 1, body.len() as int));
                        assert(seen + body.subrange(i - start + 1, body.len() as int) =~= body);
                        assert(base64_scan(seen) == (digits, Some(b)));
                        assert(base64_scan(body) == (digits, Some(b)));
                    }
                    return Err(KartError::InvalidBase64Character(b));
                },
                Some(v) => {
                    let byte = base64_push_digit(&mut buf, &mut bits, v, Ghost(digits));
                    match byte {
                        Some(x) => out.push(x),
                        None => {},
                    }
                    proof {
                        digits = digits.push(v);
                    }
                    i = i + 1;
                },
            }
        }
    }
    assert(body.subrange(0, end - start) =~= body);
    Ok(out)
}

proof fn lemma_decoded_len_monotone(n: nat, m: nat)
    requires
        n <= m,
    ensures
        base64_decoded_len(n) <= base64_decoded_len(m),
{
    assert(base64_decoded_len(n) == (6 * n) / 8);
    assert(base64_decoded_len(m) == (6 * m) / 8);
}

/// Decodes base64 text like [`base64_urlsafe_decode`] into `out`, and
/// returns the filled front of `out`; fails when `out` is too short.
pub fn base64_urlsafe_decode_slice<'a>(input: &str, out: &'a mut [u8]) -> (res: Result<&'a [u8], KartError>)
    ensures
        final(out)@.len() == old(out)@.len(),
        final(out)@ == spec_base64_buffer_after(input.spec_bytes(), old(out)@),
        match spec_base64_decode_into(input.spec_bytes(), old(out)@.len()) {
            Ok(bytes) => res matches Ok(r) && r@ == bytes
                && final(out)@ == bytes + old(out)@.subrange(bytes.len() as int, old(out)@.len() as int),
            Err(e) => res == Err::<&'a [u8], KartError>(e),
        },
{
    let bytes = input.as_bytes();
    let (start, end) = base64_body_range(bytes);
    let ghost body = base64_body(bytes@);
    let ghost initial = out@;
    let cap = out.len();
    let mut buf: u32 = 0;
    let mut bits: u32 = 0;
    let mut out_idx: usize = 0;
    let ghost mut digits: Seq<u8> = Seq::empty();
    let mut i = start;
    assert(body.subrange(0, 0) =~= Seq::<u8>::empty());
    assert(out@.subrange(0, 0) =~= Seq::<u8>::empty());
    while i < end
        invariant
            start <= i <= end <= bytes@.len(),
            bytes@ == input.spec_bytes(),
            body == bytes@.subrange(start as int, end as int),
            body == base64_body(input.spec_bytes()),
            base64_scan(body.subrange(0, i - start)) == (digits, None::<u8>),
            all_digits(digits),
            initial == old(out)@,
            cap == initial.len(),
            out@.len() == cap,
            out_idx <= cap,
            out_idx == base64_decode_digits(digits).len(),
            out@.subrange(0, out_idx as int) == base64_decode_digits(digits),
            out@.subrange(out_idx as int, cap as int) == initial.subrange(out_idx as int, cap as int),
            base64_state(buf, bits, digits),
        decreases end - i,
    {
        let b = bytes[i];
        let ghost seen = body.subrange(0, i - start + 1);
        let ghost rest = body.subrange(i - start + 1, body.len() as int);
        assert(seen.drop_last() =~= body.subrange(0, i - start));
        assert(seen.last() == b);
        assert(seen + rest =~= body);
        if b == 0x20 || b == 0x0d || b == 0x0a || b == 0x09 {
            i = i + 1;
        } else {
            match base64_digit_value(b) {
                None => {
                    proof {
                        lemma_scan_stops(seen, rest);
                        assert(base64_scan(seen) == (digits, Some(b)));
                        assert(base64_scan(body) == (digits, Some(b)));
                        assert(base64_decode_digits(digits).len() <= cap);
                        assert(spec_base64_decode_into(input.spec_bytes(), cap as nat) == Err::<Seq<u8>, KartError>(KartError::InvalidBase64Character(b)));
                        assert(out@.len() == cap);
                        assert(out@ =~= out@.subrange(0, out_idx as int) + out@.subrange(out_idx as int, cap as int));
                    }
                    return Err(KartError::InvalidBase64Character(b));
                },
                Some(v) => {
                    let byte = base64_push_digit(&mut buf, &mut bits, v, Ghost(digits));
                    match byte {
                        Some(x) => {
                            if out_idx >= cap {
                                proof {
                                    assert(base64_scan(seen) == (digits.push(v), None::<u8>));
                                    lemma_scan_grows(seen, rest);
                                    lemma_decode_digits_len(digits.push(v));
                                    lemma_decode_digits_len(base64_scan(body).0);
                                    lemma_decoded_len_monotone(digits.push(v).len(), base64_scan(body).0.len());
                                    lemma_scan_prefix(seen, rest);
                                    lemma_decode_prefix(digits.push(v), base64_scan(body).0);
                                    let full = base64_decode_digits(base64_scan(body).0);
                                    let mine = base64_decode_digits(digits.push(v));
                                    assert(mine.subrange(0, cap as int) =~= full.subrange(0, cap as int));
                                    assert(out@ =~= out@.subrange(0, out_idx as int));
                                }
                                return Err(KartError::Base64BufferOverflow);
                            }
                            let ghost prev = out@;
                            out[out_idx] = x;
                            proof {
                                assert(out@ == prev.update(out_idx as int, x));
                                assert forall|j: int| out_idx + 1 <= j < cap implies out@[j] == initial[j] by {
                                    assert(prev.subrange(out_idx as int, cap as int)[j - out_idx] == prev[j]);
                                    assert(initial.subrange(out_idx as int, cap as int)[j - out_idx] == initial[j]);
                                }
                                assert(out@.subrange(0, out_idx + 1) =~= base64_decode_digits(digits).push(x));
                                assert(out@.subrange(out_idx + 1, cap as int) =~= initial.subrange(out_idx + 1, cap as int));
                            }
                            out_idx = out_idx + 1;
                        },
                        None => {},
                    }
                    proof {
                        digits = digits.push(v);
                    }
                    i = i + 1;
                },
            }
        }
    }
    assert(body.subrange(0, end - start) =~= body);
    assert(out@ =~= out@.subrange(0, out_idx as int) + out@.subrange(out_idx as int, cap as int));
    let filled: &'a [u8] = out;
    Ok(vstd::slice::slice_subrange(filled, 0, out_idx))
}

/// The base64 character of the digit value `v` (below 64), in the URL-safe
/// alphabet or the standard one.
pub open spec fn base64_char(v: u8, url_safe: bool) -> u8 {
    if v < 26 {
        (0x41 + v) as u8
    } else if v < 52 {
        (0x61 + v - 26) as u8
    } else if v < 62 {
        (0x30 + v - 52) as u8
    } else if v == 62 {
        if url_safe { 0x2du8 } else { 0x2bu8 }
    } else {
        if url_safe { 0x5fu8 } else { 0x2fu8 }
    }
}

/// The base64 digit values of `b` (RFC 4648): four for every three bytes;
/// a final one or two bytes give two or three digits.
pub open spec fn base64_encode_digits(b: Seq<u8>) -> Seq<u8>
    decreases b.len(),
{
    if b.len() >= 3 {
        seq![
            b[0] / 4,
            ((b[0] % 4) * 16 + b[1] / 16) as u8,
            ((b[1] % 16) * 4 + b[2] / 64) as u8,
            b[2] % 64,
        ] + base64_encode_digits(b.subrange(3, b.len() as int))
    } else if b.len() == 2 {
        seq![b[0] / 4, ((b[0] % 4) * 16 + b[1] / 16) as u8, ((b[1] % 16) * 4) as u8]
    } else if b.len() == 1 {
        seq![b[0] / 4, ((b[0] % 4) * 16) as u8]
    } else {
        Seq::empty()
    }
}

/// The `=` padding that brings the encoding of `n` bytes to a multiple of
/// four characters.
pub open spec fn base64_padding(n: nat) -> Seq<u8> {
    if n % 3 == 1 {
        seq![0x3du8, 0x3d]
    } else if n % 3 == 2 {
        seq![0x3du8]
    } else {
        Seq::empty()
    }
}

/// The base64 text of `b` (RFC 4648), in the URL-safe or the standard
/// alphabet, with or without padding.
pub open spec fn base64_encode(b: Seq<u8>, url_safe: bool, padded: bool) -> Seq<u8> {
    base64_encode_digits(b).map_values(|v: u8| base64_char(v, url_safe)) + if padded {
        base64_padding(b.len())
    } else {
        Seq::<u8>::empty()
    }
}

proof fn lemma_group_round_trip(x: u8, y: u8, z: u8)
    ensures
        ((x / 4) * 4 + (((x % 4) * 16 + y / 16) as u8) / 16) as u8 == x,
        (((((x % 4) * 16 + y / 16) as u8) % 16) * 16 + (((y % 16) * 4 + z / 64) as u8) / 4) as u8 == y,
        (((((y % 16) * 4 + z / 64) as u8) % 4) * 64 + z % 64) as u8 == z,
        (((((x % 4) * 16 + y / 16) as u8) % 16) * 16 + (((y % 16) * 4) as u8) / 4) as u8 == y,
        ((x / 4) * 4 + (((x % 4) * 16) as u8) / 16) as u8 == x,
        ((x % 4) * 16 + y / 16) < 64,
        ((y % 16) * 4 + z / 64) < 64,
{
    assert(((x / 4) * 4 + (((x % 4) * 16 + y / 16) as u8) / 16) as u8 == x) by (bit_vector);
    assert((((((x % 4) * 16 + y / 16) as u8) % 16) * 16 + (((y % 16) * 4 + z / 64) as u8) / 4) as u8 == y) by (bit_vector);
    assert((((((y % 16) * 4 + z / 64) as u8) % 4) * 64 + z % 64) as u8 == z) by (bit_vector);
    assert((((((x % 4) * 16 + y / 16) as u8) % 16) * 16 + (((y % 16) * 4) as u8) / 4) as u8 == y) by (bit_vector);
    assert(((x / 4) * 4 + (((x % 4) * 16) as u8) / 16) as u8 == x) by (bit_vector);
    assert(((x % 4) * 16 + y / 16) < 64) by (bit_vector);
    assert(((y % 16) * 4 + z / 64) < 64) by (bit_vector);
}

/// Decoding the digits of an encoding gives the bytes back.
proof fn lemma_encode_digits_decode(b: Seq<u8>)
    ensures
        all_digits(base64_encode_digits(b)),
        base64_decode_digits(base64_encode_digits(b)) == b,
    decreases b.len(),
{
    let d = base64_encode_digits(b);
    if b.len() >= 3 {
        let rest = b.subrange(3, b.len() as int);
        lemma_encode_digits_decode(rest);
        lemma_group_round_trip(b[0], b[1], b[2]);
        let g = seq![
            b[0] / 4,
            ((b[0] % 4) * 16 + b[1] / 16) as u8,
            ((b[1] % 16) * 4 + b[2] / 64) as u8,
            b[2] % 64,
        ];
        assert(d == g + base64_encode_digits(rest));
        assert(d.subrange(4, d.len() as int) =~= base64_encode_digits(rest));
        assert(base64_group(d[0], d[1], d[2], d[3]) =~= b.subrange(0, 3));
        assert(b.subrange(0, 3) + rest =~= b);
        assert forall|j: int| 0 <= j < d.len() implies #[trigger] d[j] < 64 by {
            if j >= 4 {
                assert(d[j] == base64_encode_digits(rest)[j - 4]);
            }
        }
    } else if b.len() == 2 {
        lemma_group_round_trip(b[0], b[1], 0);
        assert(base64_decode_digits(d) =~= b);
    } else if b.len() == 1 {
        lemma_group_round_trip(b[0], 0, 0);
        assert(base64_decode_digits(d) =~= b);
    } else {
        assert(base64_decode_digits(d) =~= b);
    }
}

/// Text made of base64 characters scans to their digit values.
proof fn lemma_scan_chars(d: Seq<u8>, url_safe: bool)
    requires
        all_digits(d),
    ensures
        base64_scan(d.map_values(|v: u8| base64_char(v, url_safe))) == (d, None::<u8>),
    decreases d.len(),
{
    let t = d.map_values(|v: u8| base64_char(v, url_safe));
    if d.len() > 0 {
        let d1 = d.drop_last();
        assert(t.drop_last() =~= d1.map_values(|v: u8| base64_char(v, url_safe)));
        assert(all_digits(d1)) by {
            assert forall|j: int| 0 <= j < d1.len() implies #[trigger] d1[j] < 64 by {
                assert(d1[j] == d[j]);
            }
        }
        lemma_scan_chars(d1, url_safe);
        assert(d[d.len() - 1] < 64);
        assert(t.last() == base64_char(d.last(), url_safe));
        assert(d1.push(d.last()) =~= d);
    }
}

/// The base64 encoding of any bytes (RFC 4648), in either alphabet, with
/// or without padding, and with or without a `base64:` prefix, decodes back
/// to those bytes.
pub proof fn lemma_base64_round_trip(b: Seq<u8>, url_safe: bool, padded: bool)
    ensures
        spec_base64_decode(base64_encode(b, url_safe, padded)) == Ok::<Seq<u8>, KartError>(b),
        spec_base64_decode(base64_prefix() + base64_encode(b, url_safe, padded)) == Ok::<Seq<u8>, KartError>(b),
{
    let d = base64_encode_digits(b);
    lemma_encode_digits_decode(b);
    let chars = d.map_values(|v: u8| base64_char(v, url_safe));
    let pad = if padded { base64_padding(b.len()) } else { Seq::<u8>::empty() };
    let e = base64_encode(b, url_safe, padded);
    assert(e == chars + pad);
    assert forall|i: int| 0 <= i < chars.len() implies #[trigger] chars[i] != 0x3d && chars[i] != 0x3a by {
        assert(d[i] < 64);
    }
    // Padding is all that trimming removes.
    assert(trim_padding(chars) == chars) by {
        if chars.len() > 0 {
            assert(chars.last() != 0x3d);
        }
    }
    assert(trim_padding(e) == chars) by {
        if pad.len() == 0 {
            assert(e =~= chars);
        } else if pad.len() == 1 {
            assert(e.last() == 0x3d);
            assert(e.drop_last() =~= chars);
        } else {
            assert(e.last() == 0x3d);
            assert(e.drop_last() =~= chars.push(0x3d));
            assert(chars.push(0x3d).drop_last() =~= chars);
            assert(trim_padding(chars.push(0x3d)) == trim_padding(chars));
        }
    }
    // The text cannot itself start with the prefix: it holds no `:`.
    assert(!(e.len() >= 7 && e.subrange(0, 7) == base64_prefix())) by {
        if e.len() >= 7 && e.subrange(0, 7) == base64_prefix() {
            assert(e.subrange(0, 7)[6] == 0x3a);
            assert(e[6] == 0x3a);
            if 6 < chars.len() {
                assert(chars[6] != 0x3a);
            } else {
                assert(pad[6 - chars.len()] == 0x3d);
            }
        }
    }
    assert(base64_body(e) == chars);
    let pe = base64_prefix() + e;
    assert(pe.subrange(0, 7) =~= base64_prefix());
    assert(pe.subrange(7, pe.len() as int) =~= e);
    assert(base64_body(pe) == chars);
    lemma_scan_chars(d, url_safe);
}

/// A buffer as long as the input always has room for the decoded bytes,
/// and then decoding into it gives what decoding into a new vector gives.
pub proof fn lemma_decode_into_agrees(input: Seq<u8>, cap: nat)
    requires
        input.len() <= cap,
    ensures
        spec_base64_decode_into(input, cap) == spec_base64_decode(input),
{
    let body = base64_body(input);
    lemma_body_len(input);
    lemma_scan_len(body);
    let digits = base64_scan(body).0;
    lemma_decode_digits_len(digits);
    assert(base64_decoded_len(digits.len()) <= digits.len());
}

proof fn lemma_trim_len(b: Seq<u8>)
    ensures
        trim_padding(b).len() <= b.len(),
    decreases b.len(),
{
    if b.len() > 0 && b.last() == 0x3d {
        lemma_trim_len(b.drop_last());
    }
}

proof fn lemma_body_len(input: Seq<u8>)
    ensures
        base64_body(input).len() <= input.len(),
{
    lemma_trim_len(input);
    if input.len() >= 7 {
        lemma_trim_len(input.subrange(7, input.len() as int));
    }
}

proof fn lemma_scan_len(b: Seq<u8>)
    ensures
        base64_scan(b).0.len() <= b.len(),
    decreases b.len(),
{
    if b.len() > 0 {
        lemma_scan_len(b.drop_last());
    }
}

/// The column ids of a legend, in stored order.
#[derive(Debug, Clone)]
pub struct Legend {
    pub pk_columns: Vec<String>,
    pub non_pk_columns: Vec<String>,
}

/// The texts of a sequence of strings.
pub open spec fn string_views(v: Seq<String>) -> Seq<Seq<char>> {
    v.map_values(|s: String| s@)
}

impl Legend {
    /// The primary-key column ids and the other column ids.
    pub open spec fn view(&self) -> (Seq<Seq<char>>, Seq<Seq<char>>) {
        (string_views(self.pk_columns@), string_views(self.non_pk_columns@))
    }
}

/// The column ids listed by one legend element: an array of strings.
pub open spec fn spec_column_ids(v: ValueModel) -> Result<Seq<Seq<char>>, KartError> {
    match v {
        ValueModel::Array(items) => if forall|i: int| 0 <= i < items.len() ==> (#[trigger] items[i]) is String {
            Ok(items.map_values(|item: ValueModel| item->String_0))
        } else {
            Err(KartError::LegendColumnNotString)
        },
        _ => Err(KartError::LegendColumnsNotArray),
    }
}

/// What `Legend::parse` gives for a legend blob: a MessagePack array of two
/// arrays of column ids, the primary-key columns first.
pub open spec fn spec_legend_parse(bytes: Seq<u8>) -> Result<(Seq<Seq<char>>, Seq<Seq<char>>), KartError> {
    match spec_decode(bytes) {
        Err(e) => Err(KartError::Msgpack(e)),
        Ok(ValueModel::Array(a)) => if a.len() != 2 {
            Err(KartError::LegendWrongLength(a.len() as usize))
        } else {
            match spec_column_ids(a[0]) {
                Err(e) => Err(e),
                Ok(pk) => match spec_column_ids(a[1]) {
                    Err(e) => Err(e),
                    Ok(non_pk) => Ok((pk, non_pk)),
                },
            }
        },
        Ok(_) => Err(KartError::LegendNotArray),
    }
}

/// Column ids as MessagePack strings.
pub open spec fn id_strings(ids: Seq<Seq<char>>) -> Seq<ValueModel> {
    ids.map_values(|id: Seq<char>| ValueModel::String(id))
}

/// A legend as Kart stores it: an array of the primary-key column ids and
/// the array of the other column ids.
pub open spec fn legend_value(pk: Seq<Seq<char>>, non_pk: Seq<Seq<char>>) -> ValueModel {
    ValueModel::Array(seq![ValueModel::Array(id_strings(pk)), ValueModel::Array(id_strings(non_pk))])
}

/// Whether each id's UTF-8 bytes fit a 32-bit length.
pub open spec fn ids_fit(ids: Seq<Seq<char>>) -> bool {
    ids.len() < 0x1_0000_0000 && forall|i: int| 0 <= i < ids.len() ==> encode_utf8(#[trigger] ids[i]).len() < 0x1_0000_0000
}

proof fn lemma_id_strings_encodable(ids: Seq<Seq<char>>)
    requires
        forall|i: int| 0 <= i < ids.len() ==> encode_utf8(#[trigger] ids[i]).len() < 0x1_0000_0000,
    ensures
        all_encodable(id_strings(ids)),
    decreases ids.len(),
{
    if ids.len() > 0 {
        let rest = ids.subrange(1, ids.len() as int);
        assert forall|i: int| 0 <= i < rest.len() implies encode_utf8(#[trigger] rest[i]).len() < 0x1_0000_0000 by {
            assert(rest[i] == ids[i + 1]);
        }
        lemma_id_strings_encodable(rest);
        assert(id_strings(ids).subrange(1, ids.len() as int) =~= id_strings(rest));
        assert(encode_utf8(ids[0]).len() < 0x1_0000_0000);
        assert(id_strings(ids)[0] == ValueModel::String(ids[0]));
        assert(encodable(id_strings(ids)[0]));
    } else {
        assert(id_strings(ids).len() == 0);
    }
}

/// The ids read back from their strings are the ids.
proof fn lemma_column_ids_of_strings(ids: Seq<Seq<char>>)
    ensures
        spec_column_ids(ValueModel::Array(id_strings(ids))) == Ok::<Seq<Seq<char>>, KartError>(ids),
{
    let items = id_strings(ids);
    assert(forall|i: int| 0 <= i < items.len() ==> (#[trigger] items[i]) is String);
    assert(items.map_values(|item: ValueModel| item->String_0) =~= ids);
}

/// A legend blob that encodes column ids as Kart stores them (a MessagePack
/// array of the array of primary-key ids and the array of the other ids)
/// parses back to exactly those ids, the primary-key ids first.
pub proof fn lemma_legend_round_trip(pk: Seq<Seq<char>>, non_pk: Seq<Seq<char>>)
    requires
        ids_fit(pk),
        ids_fit(non_pk),
    ensures
        spec_legend_parse(encode_value(legend_value(pk, non_pk))) == Ok::<
            (Seq<Seq<char>>, Seq<Seq<char>>),
            KartError,
        >((pk, non_pk)),
{
    lemma_id_strings_encodable(pk);
    lemma_id_strings_encodable(non_pk);
    let a = seq![ValueModel::Array(id_strings(pk)), ValueModel::Array(id_strings(non_pk))];
    assert(encodable(ValueModel::Array(id_strings(pk))));
    assert(encodable(ValueModel::Array(id_strings(non_pk))));
    assert(a.subrange(1, 2)[0] == a[1]);
    assert(a.subrange(1, 2).subrange(1, 1) =~= Seq::<ValueModel>::empty());
    assert(all_encodable(a.subrange(1, 2).subrange(1, 1)));
    assert(encodable(a.subrange(1, 2)[0]));
    assert(all_encodable(a.subrange(1, 2)));
    assert(all_encodable(a));
    lemma_encode_round_trip(legend_value(pk, non_pk));
    lemma_column_ids_of_strings(pk);
    lemma_column_ids_of_strings(non_pk);
}

/// Reads the column ids of one legend element.
fn parse_column_ids(v: &Value) -> (res: Result<Vec<String>, KartError>)
    ensures
        match spec_column_ids(v.model()) {
            Ok(ids) => res matches Ok(r) && string_views(r@) == ids,
            Err(e) => res == Err::<Vec<String>, KartError>(e),
        },
{
    let items = match v.as_array() {
        Some(a) => a,
        None => return Err(KartError::LegendColumnsNotArray),
    };
    let ghost ms = models(items@);
    proof {
        lemma_models_index(items@);
    }
    let mut res: Vec<String> = Vec::new();
    let mut i: usize = 0;
    while i < items.len()
        invariant
            i <= items@.len(),
            ms == models(items@),
            ms.len() == items@.len(),
            v.model() == ValueModel::Array(ms),
            forall|j: int| 0 <= j < items@.len() ==> #[trigger] ms[j] == items@[j].model(),
            res@.len() == i,
            forall|j: int| 0 <= j < i ==> (#[trigger] ms[j]) is String,
            forall|j: int| 0 <= j < i ==> (#[trigger] res@[j])@ == ms[j]->String_0,
        decreases items@.len() - i,
    {
        assert(ms[i as int] == items@[i as int].model());
        let item = items[i].as_str();
        if item.is_none() {
            assert(!(ms[i as int] is String));
            return Err(KartError::LegendColumnNotString);
        }
        let s = item.unwrap();
        assert(items@[i as int] == Value::String(s));
        assert(ms[i as int] is String);
        let owned = s.to_owned();
        let ghost before = res@;
        res.push(owned);
        assert(res@[i as int]@ == ms[i as int]->String_0);
        assert forall|j: int| 0 <= j < i + 1 implies (#[trigger] res@[j])@ == ms[j]->String_0 by {
            if j < i {
                assert(res@[j] == before[j]);
            }
        }
        i = i + 1;
    }
    assert(string_views(res@) =~= ms.map_values(|item: ValueModel| item->String_0));
    Ok(res)
}

/// The content of each value in a sequence is the content of that value.
pub proof fn lemma_models_index<'a>(s: Seq<Value<'a>>)
    ensures
        models(s).len() == s.len(),
        forall|j: int| 0 <= j < s.len() ==> #[trigger] models(s)[j] == s[j].model(),
    decreases s.len(),
{
    if s.len() > 0 {
        lemma_models_index(s.subrange(0, s.len() - 1));
    }
}

impl Legend {
    /// Reads a legend blob: a MessagePack array of two arrays of column
    /// ids, the primary-key columns first.
    pub fn parse(bytes: &[u8]) -> (res: Result<Self, KartError>)
        ensures
            match spec_legend_parse(bytes@) {
                Ok(ids) => res matches Ok(l) && l.view() == ids,
                Err(e) => res matches Err(x) && x == e,
            },
    {
        let val = match decode(bytes) {
            Ok(v) => v,
            Err(e) => return Err(KartError::Msgpack(e)),
        };
        let arr = match val.as_array() {
            Some(a) => a,
            None => return Err(KartError::LegendNotArray),
        };
        proof {
            lemma_models_index(arr@);
        }
        if arr.len() != 2 {
            return Err(KartError::LegendWrongLength(arr.len()));
        }
        let pk_columns = match parse_column_ids(&arr[0]) {
            Ok(c) => c,
            Err(e) => return Err(e),
        };
        let non_pk_columns = match parse_column_ids(&arr[1]) {
            Ok(c) => c,
            Err(e) => return Err(e),
        };
        Ok(Legend { pk_columns, non_pk_columns })
    }
}

/// The primary-key values stored in decoded file-name bytes: the elements
/// of an array, or a single value on its own.
pub open spec fn spec_pk_from_bytes(decoded: Result<Seq<u8>, KartError>) -> Result<Seq<ValueModel>, KartError> {
    match decoded {
        Err(e) => Err(e),
        Ok(b) => match spec_decode(b) {
            Err(e) => Err(KartError::Msgpack(e)),
            Ok(ValueModel::Array(items)) => Ok(items),
            Ok(v) => Ok(seq![v]),
        },
    }
}

/// A feature file name made as Kart makes it (the base64 text, either
/// alphabet, padded or not, of the MessagePack encoding of the primary-key
/// values) decodes back to those values: the elements of an array, or the
/// single value otherwise.
pub proof fn lemma_pk_filename_round_trip(v: ValueModel, url_safe: bool, padded: bool)
    requires
        encodable(v),
    ensures
        spec_pk_from_bytes(spec_base64_decode(base64_encode(encode_value(v), url_safe, padded))) == Ok::<
            Seq<ValueModel>,
            KartError,
        >(match v {
            ValueModel::Array(items) => items,
            _ => seq![v],
        }),
{
    lemma_base64_round_trip(encode_value(v), url_safe, padded);
    lemma_encode_round_trip(v);
}

/// Calls `Vec::leak`, which gives up ownership of the vector's contents and
/// returns them as a slice that lives until the program ends.
#[verifier::external_body]
fn leak_bytes(v: Vec<u8>) -> (r: &'static [u8])
    ensures
        r@ == v@,
{
    v.leak()
}

/// Decodes the primary-key values of a feature from its file name: base64
/// of a MessagePack array of values, or of a single value. The decoded
/// bytes are kept for the rest of the program, as the values borrow them.
pub fn decode_pk_from_filename(filename: &str) -> (res: Result<Vec<Value<'static>>, KartError>)
    ensures
        match spec_pk_from_bytes(spec_base64_decode(filename.spec_bytes())) {
            Ok(ms) => res matches Ok(v) && models(v@) == ms,
            Err(e) => res matches Err(x) && x == e,
        },
{
    let bytes = match base64_urlsafe_decode(filename) {
        Ok(b) => b,
        Err(e) => return Err(e),
    };
    let kept = leak_bytes(bytes);
    let val = match decode(kept) {
        Ok(v) => v,
        Err(e) => return Err(KartError::Msgpack(e)),
    };
    match val {
        Value::Array(arr) => Ok(arr),
        single => {
            let v = vec![single];
            proof {
                assert(v@.len() == 1);
                assert(v@.subrange(0, 0) =~= Seq::<Value<'static>>::empty());
                assert(models(v@.subrange(0, 0)) =~= Seq::<ValueModel>::empty());
                assert(models(v@) =~= seq![v@[0].model()]);
            }
            Ok(v)
        },
    }
}

/// Decodes the primary-key values of a feature from its file name, like
/// [`decode_pk_from_filename`], without allocating: the decoded bytes go to
/// `byte_buf` and at most the first four values go to the front of
/// `out_vals`. Returns how many values were written.
pub fn decode_pk_into<'a>(
    filename: &str,
    byte_buf: &'a mut [u8],
    out_vals: &mut [Value<'a>; 4],
) -> (res: Result<usize, KartError>)
    ensures
        final(byte_buf)@ == spec_base64_buffer_after(filename.spec_bytes(), old(byte_buf)@),
        match spec_pk_from_bytes(spec_base64_decode_into(filename.spec_bytes(), old(byte_buf)@.len())) {
            Ok(ms) => res matches Ok(n) && n == (if ms.len() < 4 { ms.len() } else { 4 })
                && (forall|i: int| 0 <= i < n ==> (#[trigger] final(out_vals)@[i]).model() == ms[i])
                && (forall|i: int| n <= i < 4 ==> #[trigger] final(out_vals)@[i] == old(out_vals)@[i]),
            Err(e) => res matches Err(x) && x == e,
        },
{
    let bytes = match base64_urlsafe_decode_slice(filename, byte_buf) {
        Ok(b) => b,
        Err(e) => return Err(e),
    };
    let val = match decode(bytes) {
        Ok(v) => v,
        Err(e) => return Err(KartError::Msgpack(e)),
    };
    match val {
        Value::Array(arr) => {
            let ghost items = arr@;
            proof {
                lemma_models_index(arr@);
            }
            let n = if arr.len() < 4 { arr.len() } else { 4 };
            let mut arr = arr;
            arr.truncate(n);
            let ghost before = out_vals@;
            let mut k = n;
            while k > 0
                invariant
                    k <= n <= 4,
                    arr@ == items.subrange(0, k as int),
                    n <= items.len(),
                    forall|i: int| k <= i < n ==> (#[trigger] out_vals@[i]).model() == items[i].model(),
                    forall|i: int| 0 <= i < k || n <= i < 4 ==> #[trigger] out_vals@[i] == before[i],
                decreases k,
            {
                let v = arr.pop().unwrap();
                k = k - 1;
                out_vals[k] = v;
            }
            Ok(n)
        },
        single => {
            out_vals[0] = single;
            Ok(1)
        },
    }
}

/// The size in bytes of the envelope that the flags byte of a GeoPackage
/// geometry header announces.
pub open spec fn gpkg_envelope_size(flags: u8) -> int {
    let indicator = (flags / 2) % 8;
    if indicator == 1 {
        32
    } else if indicator == 2 || indicator == 3 {
        48
    } else if indicator == 4 {
        64
    } else {
        0
    }
}

/// The well-known binary geometry inside a GeoPackage geometry blob: what
/// follows the 8-byte header (magic `GP`, version, flags, SRS id) and the
/// envelope.
pub open spec fn spec_gpkg_to_wkb(g: Seq<u8>) -> Option<Seq<u8>> {
    if g.len() < 8 || g[0] != 0x47 || g[1] != 0x50 {
        None
    } else {
        let offset = 8 + gpkg_envelope_size(g[3]);
        if g.len() >= offset {
            Some(g.subrange(offset, g.len() as int))
        } else {
            None
        }
    }
}

/// The number of doubles in a GeoPackage envelope, by the envelope
/// indicator of the header flags: none, the x and y ranges, those with the
/// z range or with the m range, or all four ranges.
pub open spec fn envelope_doubles(indicator: u8) -> nat {
    if indicator == 1 {
        4
    } else if indicator == 2 || indicator == 3 {
        6
    } else if indicator == 4 {
        8
    } else {
        0
    }
}

/// A GeoPackage geometry blob made of its header (magic `GP`, a version
/// byte, flags whose bits 1 to 3 give the envelope indicator, a 4-byte SRS
/// id), the envelope that the indicator calls for and the well-known binary
/// geometry unwraps to exactly that geometry; a blob without the magic
/// unwraps to nothing.
pub proof fn lemma_gpkg_unwraps(version: u8, flags: u8, srs: Seq<u8>, envelope: Seq<u8>, wkb: Seq<u8>)
    requires
        srs.len() == 4,
        (flags >> 1) & 7 <= 4,
        envelope.len() == 8 * envelope_doubles((flags >> 1) & 7),
    ensures
        spec_gpkg_to_wkb(seq![0x47u8, 0x50u8, version, flags] + srs + envelope + wkb) == Some(wkb),
        forall|g: Seq<u8>| g.len() >= 2 && (g[0] != 0x47 || g[1] != 0x50) ==> #[trigger] spec_gpkg_to_wkb(g) is None,
{
    let g = seq![0x47u8, 0x50u8, version, flags] + srs + envelope + wkb;
    let ind: u8 = (flags >> 1) & 7;
    assert(ind == (flags / 2) % 8) by (bit_vector)
        requires ind == (flags >> 1) & 7;
    assert(g[0] == 0x47 && g[1] == 0x50 && g[3] == flags);
    let off = 8 + gpkg_envelope_size(flags);
    assert(off == 8 + envelope.len());
    assert(g.subrange(off, g.len() as int) =~= wkb);
}

/// Unwraps a GeoPackage geometry blob to its well-known binary geometry.
pub fn gpkg_to_wkb(gpkg_bytes: &[u8]) -> (res: Option<&[u8]>)
    ensures
        match spec_gpkg_to_wkb(gpkg_bytes@) {
            Some(w) => res matches Some(r) && r@ == w,
            None => res is None,
        },
{
    if gpkg_bytes.len() < 8 || gpkg_bytes[0] != 0x47 || gpkg_bytes[1] != 0x50 {
        return None;
    }
    let flags = gpkg_bytes[3];
    let envelope_indicator = (flags >> 1) & 0b111;
    assert(envelope_indicator == (flags / 2) % 8) by (bit_vector)
        requires envelope_indicator == (flags >> 1) & 0b111;
    let envelope_size: usize = if envelope_indicator == 1 {
        32
    } else if envelope_indicator == 2 || envelope_indicator == 3 {
        48
    } else if envelope_indicator == 4 {
        64
    } else {
        0
    };
    let wkb_offset = 8 + envelope_size;
    if gpkg_bytes.len() >= wkb_offset {
        Some(vstd::slice::slice_subrange(gpkg_bytes, wkb_offset, gpkg_bytes.len()))
    } else {
        None
    }
}

/// Whether two strings are equal, compared byte by byte.
pub fn str_eq(a: &str, b: &str) -> (r: bool)
    ensures
        r == (a@ == b@),
{
    let x = a.as_bytes();
    let y = b.as_bytes();
    proof {
        encode_utf8_decode_utf8(a@);
        encode_utf8_decode_utf8(b@);
    }
    if x.len() != y.len() {
        return false;
    }
    let mut i: usize = 0;
    while i < x.len()
        invariant
            x@ == a.spec_bytes(),
            y@ == b.spec_bytes(),
            x@.len() == y@.len(),
            i <= x@.len(),
            forall|j: int| 0 <= j < i ==> x@[j] == y@[j],
        decreases x@.len() - i,
    {
        if x[i] != y[i] {
            return false;
        }
        i = i + 1;
    }
    assert(x@ =~= y@);
    true
}

/// One column of a dataset's `schema.json`.
#[derive(Debug, Clone)]
pub struct ColumnSchema {
    pub id: String,
    pub name: String,
    pub data_type: String,
    pub primary_key_index: Option<usize>,
    pub size: Option<usize>,
    pub geometry_type: Option<String>,
    pub geometry_crs: Option<String>,
}

/// Where a feature stores the value of a schema column: at a position of
/// its primary-key values, at a position of its other values, or nowhere.
#[derive(Clone, Copy, Debug, PartialEq, Eq, Structural)]
pub enum ColumnSource {
    Pk(usize),
    NonPk(usize),
    NotFound,
}

/// The source of each schema column under one legend.
#[derive(Debug, Clone)]
pub struct CompiledLegend {
    pub sources: Vec<ColumnSource>,
}

/// The first position at or after `i` where `x` occurs in `s`.
pub open spec fn index_from(s: Seq<Seq<char>>, x: Seq<char>, i: int) -> Option<int>
    decreases s.len() - i,
{
    if i < 0 || i >= s.len() {
        None
    } else if s[i] == x {
        Some(i)
    } else {
        index_from(s, x, i + 1)
    }
}

/// Where the column with id `id` is stored under a legend listing the
/// primary-key column ids `pk` and the other column ids `non_pk`: its first
/// occurrence among the primary-key columns, else among the others.
pub open spec fn spec_column_source(id: Seq<char>, pk: Seq<Seq<char>>, non_pk: Seq<Seq<char>>) -> ColumnSource {
    match index_from(pk, id, 0) {
        Some(p) => ColumnSource::Pk(p as usize),
        None => match index_from(non_pk, id, 0) {
            Some(p) => ColumnSource::NonPk(p as usize),
            None => ColumnSource::NotFound,
        },
    }
}

/// The search from `i` finds the first occurrence of `x` at or after `i`.
proof fn lemma_index_from(s: Seq<Seq<char>>, x: Seq<char>, i: int)
    requires
        0 <= i,
    ensures
        match index_from(s, x, i) {
            Some(p) => i <= p < s.len() && s[p] == x && forall|j: int| i <= j < p ==> s[j] != x,
            None => forall|j: int| i <= j < s.len() ==> s[j] != x,
        },
    decreases s.len() - i,
{
    if i < s.len() && s[i] != x {
        lemma_index_from(s, x, i + 1);
    }
}

/// A column is found by its id: among the primary-key columns at the first
/// position that holds it, else among the other columns at the first
/// position that holds it, else nowhere.
pub proof fn lemma_column_source_finds_id(id: Seq<char>, pk: Seq<Seq<char>>, non_pk: Seq<Seq<char>>)
    requires
        pk.len() <= usize::MAX,
        non_pk.len() <= usize::MAX,
    ensures
        match spec_column_source(id, pk, non_pk) {
            ColumnSource::Pk(p) => p < pk.len() && pk[p as int] == id && forall|j: int| 0 <= j < p ==> pk[j] != id,
            ColumnSource::NonPk(p) => !pk.contains(id) && p < non_pk.len() && non_pk[p as int] == id && forall|j: int|
                0 <= j < p ==> non_pk[j] != id,
            ColumnSource::NotFound => !pk.contains(id) && !non_pk.contains(id),
        },
{
    lemma_index_from(pk, id, 0);
    lemma_index_from(non_pk, id, 0);
}

/// The sources of columns with the ids `ids` under a legend.
pub open spec fn spec_compile_legend(ids: Seq<Seq<char>>, pk: Seq<Seq<char>>, non_pk: Seq<Seq<char>>) -> Seq<ColumnSource> {
    ids.map_values(|id: Seq<char>| spec_column_source(id, pk, non_pk))
}

/// The ids of the columns of a schema.
pub open spec fn schema_ids(schema: Seq<ColumnSchema>) -> Seq<Seq<char>> {
    schema.map_values(|c: ColumnSchema| c.id@)
}

/// The first position at or after `start` of `id` in `ids`.
fn position_of(ids: &Vec<String>, id: &String) -> (r: Option<usize>)
    ensures
        r == (match index_from(string_views(ids@), id@, 0) {
            Some(p) => Some(p as usize),
            None => None::<usize>,
        }),
        r matches Some(p) ==> p < ids@.len(),
{
    let ghost s = string_views(ids@);
    let mut i: usize = 0;
    while i < ids.len()
        invariant
            i <= ids@.len(),
            s == string_views(ids@),
            s.len() == ids@.len(),
            index_from(s, id@, 0) == index_from(s, id@, i as int),
        decreases ids@.len() - i,
    {
        assert(s[i as int] == ids@[i as int]@);
        if ids[i] == *id {
            return Some(i);
        }
        i = i + 1;
    }
    None
}

/// The source of each schema column under a legend.
pub fn compile_legend(schema: &Vec<ColumnSchema>, legend: &Legend) -> (c: CompiledLegend)
    ensures
        c.sources@ == spec_compile_legend(schema_ids(schema@), legend.view().0, legend.view().1),
{
    let mut sources: Vec<ColumnSource> = Vec::new();
    let mut i: usize = 0;
    while i < schema.len()
        invariant
            i <= schema@.len(),
            sources@.len() == i,
            forall|j: int| 0 <= j < i ==> #[trigger] sources@[j] == spec_column_source(
                schema@[j].id@, legend.view().0, legend.view().1),
        decreases schema@.len() - i,
    {
        let id = &schema[i].id;
        let src = match position_of(&legend.pk_columns, id) {
            Some(p) => ColumnSource::Pk(p),
            None => match position_of(&legend.non_pk_columns, id) {
                Some(p) => ColumnSource::NonPk(p),
                None => ColumnSource::NotFound,
            },
        };
        sources.push(src);
        i = i + 1;
    }
    assert(sources@ =~= spec_compile_legend(schema_ids(schema@), legend.view().0, legend.view().1));
    CompiledLegend { sources }
}

/// The keys and column sources of a list of named compiled legends.
pub open spec fn legend_entries(v: Seq<(String, CompiledLegend)>) -> Seq<(Seq<char>, Seq<ColumnSource>)> {
    v.map_values(|e: (String, CompiledLegend)| (e.0@, e.1.sources@))
}

/// The legends among `blobs` that parse, in order, each with its key and
/// the sources it gives to the columns with ids `ids`.
pub open spec fn parsed_legends(ids: Seq<Seq<char>>, blobs: Seq<(String, Vec<u8>)>) -> Seq<(Seq<char>, Seq<ColumnSource>)>
    decreases blobs.len(),
{
    if blobs.len() == 0 {
        Seq::empty()
    } else {
        let prev = parsed_legends(ids, blobs.drop_last());
        match spec_legend_parse(blobs.last().1@) {
            Ok((pk, non_pk)) => prev.push((blobs.last().0@, spec_compile_legend(ids, pk, non_pk))),
            Err(_) => prev,
        }
    }
}

/// The entry last stored under `key`, as a map keeps it.
pub open spec fn lookup_last(entries: Seq<(Seq<char>, Seq<ColumnSource>)>, key: Seq<char>) -> Option<Seq<ColumnSource>>
    decreases entries.len(),
{
    if entries.len() == 0 {
        None
    } else if entries.last().0 == key {
        Some(entries.last().1)
    } else {
        lookup_last(entries.drop_last(), key)
    }
}

/// A lookup finds the last entry stored under the key, and nothing when
/// no entry has the key.
pub proof fn lemma_lookup_last_finds_last(entries: Seq<(Seq<char>, Seq<ColumnSource>)>, key: Seq<char>)
    ensures
        match lookup_last(entries, key) {
            Some(v) => exists|i: int|
                0 <= i < entries.len() && (#[trigger] entries[i]).0 == key && entries[i].1 == v && forall|j: int|
                    i < j < entries.len() ==> entries[j].0 != key,
            None => forall|j: int| 0 <= j < entries.len() ==> entries[j].0 != key,
        },
    decreases entries.len(),
{
    if entries.len() > 0 {
        let d = entries.drop_last();
        lemma_lookup_last_finds_last(d, key);
        let n = entries.len() - 1;
        if entries.last().0 == key {
            assert(entries[n].0 == key);
        } else {
            match lookup_last(d, key) {
                Some(v) => {
                    let i = choose|i: int|
                        0 <= i < d.len() && (#[trigger] d[i]).0 == key && d[i].1 == v && forall|j: int|
                            i < j < d.len() ==> d[j].0 != key;
                    assert(entries[i] == d[i]);
                    assert forall|j: int| i < j < entries.len() implies entries[j].0 != key by {
                        if j < n {
                            assert(entries[j] == d[j]);
                        }
                    }
                },
                None => {
                    assert forall|j: int| 0 <= j < entries.len() implies entries[j].0 != key by {
                        if j < n {
                            assert(entries[j] == d[j]);
                        }
                    }
                },
            }
        }
    }
}

/// There is at least one entry, and all entries share one key.
pub open spec fn single_key(entries: Seq<(Seq<char>, Seq<ColumnSource>)>) -> bool {
    entries.len() > 0 && forall|i: int| 0 <= i < entries.len() ==> (#[trigger] entries[i]).0 == entries[0].0
}

/// No key occurs twice.
pub open spec fn unique_keys(entries: Seq<(Seq<char>, Seq<ColumnSource>)>) -> bool {
    forall|i: int, j: int| 0 <= i < entries.len() && 0 <= j < entries.len() && i != j
        ==> (#[trigger] entries[i]).0 != (#[trigger] entries[j]).0
}

proof fn lemma_lookup_absent(e: Seq<(Seq<char>, Seq<ColumnSource>)>, k: Seq<char>)
    ensures
        lookup_last(e, k) is None <==> forall|i: int| 0 <= i < e.len() ==> (#[trigger] e[i]).0 != k,
    decreases e.len(),
{
    if e.len() > 0 {
        lemma_lookup_absent(e.drop_last(), k);
        assert forall|i: int| 0 <= i < e.len() - 1 implies #[trigger] e.drop_last()[i] == e[i] by {}
        if lookup_last(e, k) is None {
            assert forall|i: int| 0 <= i < e.len() implies (#[trigger] e[i]).0 != k by {
                if i < e.len() - 1 {
                    assert(e.drop_last()[i] == e[i]);
                }
            }
        }
    }
}

proof fn lemma_lookup_unique(e: Seq<(Seq<char>, Seq<ColumnSource>)>, i: int)
    requires
        unique_keys(e),
        0 <= i < e.len(),
    ensures
        lookup_last(e, e[i].0) == Some(e[i].1),
    decreases e.len(),
{
    if i < e.len() - 1 {
        let d = e.drop_last();
        assert(d[i] == e[i]);
        assert(unique_keys(d)) by {
            assert forall|a: int, b: int| 0 <= a < d.len() && 0 <= b < d.len() && a != b
                implies (#[trigger] d[a]).0 != (#[trigger] d[b]).0 by {
                assert(d[a] == e[a] && d[b] == e[b]);
            }
        }
        assert(e[e.len() - 1].0 != e[i].0);
        lemma_lookup_unique(d, i);
    }
}

/// Replacing the entry at a position, keeping its key, leaves the entries
/// found under other keys as they were.
proof fn lemma_lookup_update(
    e: Seq<(Seq<char>, Seq<ColumnSource>)>,
    idx: int,
    entry: (Seq<char>, Seq<ColumnSource>),
    k: Seq<char>,
)
    requires
        0 <= idx < e.len(),
        e[idx].0 == entry.0,
        k != entry.0,
    ensures
        lookup_last(e.update(idx, entry), k) == lookup_last(e, k),
    decreases e.len(),
{
    let u = e.update(idx, entry);
    if idx == e.len() - 1 {
        assert(u.drop_last() =~= e.drop_last());
    } else {
        assert(u.drop_last() =~= e.drop_last().update(idx, entry));
        lemma_lookup_update(e.drop_last(), idx, entry, k);
    }
}

/// The position of the legend stored under `key`.
fn find_legend(legends: &Vec<(String, CompiledLegend)>, key: &String) -> (r: Option<usize>)
    ensures
        match r {
            Some(i) => i < legends@.len() && legends@[i as int].0@ == key@,
            None => forall|i: int| 0 <= i < legends@.len() ==> (#[trigger] legends@[i]).0@ != key@,
        },
{
    let mut i: usize = 0;
    while i < legends.len()
        invariant
            i <= legends@.len(),
            forall|j: int| 0 <= j < i ==> (#[trigger] legends@[j]).0@ != key@,
        decreases legends@.len() - i,
    {
        if legends[i].0 == *key {
            return Some(i);
        }
        i = i + 1;
    }
    None
}

/// The position of the first column whose data type is `geometry`.
fn find_geometry_column(cols: &Vec<ColumnSchema>) -> (r: Option<usize>)
    ensures
        match r {
            Some(g) => g < cols@.len() && geometry_column(cols@) == Some(g as int),
            None => geometry_column(cols@) is None,
        },
{
    let geometry = "geometry";
    let ghost types = cols@.map_values(|c: ColumnSchema| c.data_type@);
    let mut i: usize = 0;
    while i < cols.len()
        invariant
            i <= cols@.len(),
            types == cols@.map_values(|c: ColumnSchema| c.data_type@),
            geometry@ == "geometry"@,
            index_from(types, "geometry"@, 0) == index_from(types, "geometry"@, i as int),
        decreases cols@.len() - i,
    {
        assert(types[i as int] == cols@[i as int].data_type@);
        if str_eq(cols[i].data_type.as_str(), geometry) {
            return Some(i);
        }
        i = i + 1;
    }
    None
}

/// A dataset ready to be scanned.
pub struct Dataset {
    pub name: String,
    pub schema: Vec<ColumnSchema>,
    pub legends: Vec<(String, CompiledLegend)>,
    pub single_legend: Option<CompiledLegend>,
    pub features: Vec<(String, git_oid)>,
}

fn copy_sources(v: &Vec<ColumnSource>) -> (r: Vec<ColumnSource>)
    ensures
        r@ == v@,
{
    let mut r: Vec<ColumnSource> = Vec::new();
    let mut i: usize = 0;
    while i < v.len()
        invariant
            i <= v@.len(),
            r@ == v@.subrange(0, i as int),
        decreases v@.len() - i,
    {
        r.push(v[i]);
        i = i + 1;
        assert(r@ =~= v@.subrange(0, i as int));
    }
    assert(v@.subrange(0, v@.len() as int) =~= v@);
    r
}

impl Dataset {
    /// Every legend gives a source to each schema column.
    pub open spec fn wf(&self) -> bool {
        &&& forall|i: int| 0 <= i < self.legends@.len()
            ==> (#[trigger] self.legends@[i]).1.sources@.len() == self.schema@.len()
        &&& (self.single_legend matches Some(c) ==> c.sources@.len() == self.schema@.len())
    }

    /// Assembles a dataset from its schema, its legend blobs (each under
    /// its file name) and its features. Legends that do not parse are left
    /// out; of legends stored under the same name, the last one is kept.
    /// When exactly one legend name remains, that legend is also kept as
    /// the dataset's single legend.
    #[verifier::rlimit(30)]
    pub fn from_parts(
        name: &str,
        schema: Vec<ColumnSchema>,
        legend_blobs: Vec<(String, Vec<u8>)>,
        features: Vec<(String, git_oid)>,
    ) -> (d: Dataset)
        ensures
            d.wf(),
            d.name@ == name@,
            d.schema@ == schema@,
            d.features@ == features@,
            unique_keys(legend_entries(d.legends@)),
            forall|k: Seq<char>| #[trigger] lookup_last(legend_entries(d.legends@), k)
                == lookup_last(parsed_legends(schema_ids(schema@), legend_blobs@), k),
            match d.single_legend {
                Some(c) => single_key(parsed_legends(schema_ids(schema@), legend_blobs@))
                    && lookup_last(parsed_legends(schema_ids(schema@), legend_blobs@),
                        parsed_legends(schema_ids(schema@), legend_blobs@)[0].0) == Some(c.sources@),
                None => !single_key(parsed_legends(schema_ids(schema@), legend_blobs@)),
            },
    {
        let ghost ids = schema_ids(schema@);
        let mut legends: Vec<(String, CompiledLegend)> = Vec::new();
        let mut b: usize = 0;
        while b < legend_blobs.len()
            invariant
                b <= legend_blobs@.len(),
                ids == schema_ids(schema@),
                unique_keys(legend_entries(legends@)),
                forall|i: int| 0 <= i < legends@.len()
                    ==> (#[trigger] legends@[i]).1.sources@.len() == schema@.len(),
                forall|k: Seq<char>| #[trigger] lookup_last(legend_entries(legends@), k)
                    == lookup_last(parsed_legends(ids, legend_blobs@.subrange(0, b as int)), k),
            decreases legend_blobs@.len() - b,
        {
            let ghost prefix = legend_blobs@.subrange(0, b as int);
            let ghost next = legend_blobs@.subrange(0, b + 1);
            assert(next.drop_last() =~= prefix);
            let (hash, blob) = &legend_blobs[b];
            match Legend::parse(blob.as_slice()) {
                Ok(legend) => {
                    let compiled = compile_legend(&schema, &legend);
                    let ghost entry = (hash@, compiled.sources@);
                    let ghost old_e = legend_entries(legends@);
                    let ghost old_legends = legends@;
                    let position = find_legend(&legends, hash);
                    if let Some(idx) = position {
                        assert(legends@[idx as int].0@ == hash@);
                        legends[idx] = (hash.clone(), compiled);
                        let ghost new_e = legend_entries(legends@);
                        assert(new_e =~= old_e.update(idx as int, entry));
                        assert(unique_keys(new_e)) by {
                            assert forall|i: int, j: int| 0 <= i < new_e.len() && 0 <= j < new_e.len() && i != j
                                implies (#[trigger] new_e[i]).0 != (#[trigger] new_e[j]).0 by {
                                assert(new_e[i].0 == old_e[i].0 && new_e[j].0 == old_e[j].0);
                            }
                        }
                        assert forall|k: Seq<char>| #[trigger] lookup_last(new_e, k)
                            == lookup_last(parsed_legends(ids, next), k) by {
                            assert(next.last() == legend_blobs@[b as int]);
                            assert(next.last().0@ == hash@);
                            assert(next.last().1@ == blob@);
                            assert(spec_legend_parse(blob@) is Ok);
                            assert(parsed_legends(ids, next) == parsed_legends(ids, prefix).push(entry));
                            assert(parsed_legends(ids, prefix).push(entry).drop_last() =~= parsed_legends(ids, prefix));
                            if k == hash@ {
                                lemma_lookup_unique(new_e, idx as int);
                            } else {
                                lemma_lookup_update(old_e, idx as int, entry, k);
                                assert(lookup_last(old_e, k) == lookup_last(parsed_legends(ids, prefix), k));
                            }
                        }
                    } else {
                        legends.push((hash.clone(), compiled));
                        let ghost new_e = legend_entries(legends@);
                        assert(new_e =~= old_e.push(entry));
                        assert(new_e.drop_last() =~= old_e);
                        assert(unique_keys(new_e)) by {
                            assert forall|i: int, j: int| 0 <= i < new_e.len() && 0 <= j < new_e.len() && i != j
                                implies (#[trigger] new_e[i]).0 != (#[trigger] new_e[j]).0 by {
                                if i < old_e.len() && j < old_e.len() {
                                    assert(new_e[i] == old_e[i] && new_e[j] == old_e[j]);
                                } else if i < old_e.len() {
                                    assert(old_legends[i].0@ != hash@);
                                } else {
                                    assert(old_legends[j].0@ != hash@);
                                }
                            }
                        }
                        assert forall|k: Seq<char>| #[trigger] lookup_last(new_e, k)
                            == lookup_last(parsed_legends(ids, next), k) by {
                            assert(parsed_legends(ids, next) == parsed_legends(ids, prefix).push(entry));
                            assert(parsed_legends(ids, prefix).push(entry).drop_last() =~= parsed_legends(ids, prefix));
                            assert(lookup_last(old_e, k) == lookup_last(parsed_legends(ids, prefix), k));
                        }
                    }
                },
                Err(_) => {
                    assert(parsed_legends(ids, next) == parsed_legends(ids, prefix));
                },
            }
            b = b + 1;
        }
        let ghost parsed = parsed_legends(ids, legend_blobs@);
        let ghost e = legend_entries(legends@);
        assert(legend_blobs@.subrange(0, legend_blobs@.len() as int) =~= legend_blobs@);
        let single_legend = if legends.len() == 1 {
            proof {
                lemma_lookup_unique(e, 0);
                lemma_lookup_absent(parsed, e[0].0);
                assert forall|j: int| 0 <= j < parsed.len() implies (#[trigger] parsed[j]).0 == parsed[0].0 by {
                    lemma_lookup_absent(parsed, parsed[j].0);
                    lemma_lookup_absent(e, parsed[j].0);
                    lemma_lookup_absent(parsed, parsed[0].0);
                    lemma_lookup_absent(e, parsed[0].0);
                }
                lemma_lookup_absent(e, parsed[0].0);
            }
            Some(CompiledLegend { sources: copy_sources(&legends[0].1.sources) })
        } else {
            proof {
                if single_key(parsed) {
                    let k = parsed[0].0;
                    lemma_lookup_absent(parsed, k);
                    lemma_lookup_absent(e, k);
                    let i = choose|i: int| 0 <= i < e.len() && (#[trigger] e[i]).0 == k;
                    let other: int = if i == 0 { 1 } else { 0 };
                    assert(e.len() >= 2);
                    lemma_lookup_unique(e, other);
                    lemma_lookup_absent(parsed, e[other].0);
                    let j = choose|j: int| 0 <= j < parsed.len() && (#[trigger] parsed[j]).0 == e[other].0;
                    assert(parsed[j].0 == k);
                }
            }
            None
        };
        Dataset {
            name: name.to_owned(),
            schema,
            legends,
            single_legend,
            features,
        }
    }

    /// Whether every legend gives a source to each schema column.
    pub fn covers_schema(&self) -> (b: bool)
        ensures
            b == self.wf(),
    {
        let n = self.schema.len();
        let mut i: usize = 0;
        while i < self.legends.len()
            invariant
                i <= self.legends@.len(),
                n == self.schema@.len(),
                forall|j: int| 0 <= j < i ==> (#[trigger] self.legends@[j]).1.sources@.len() == n,
            decreases self.legends@.len() - i,
        {
            if self.legends[i].1.sources.len() != n {
                return false;
            }
            i = i + 1;
        }
        match &self.single_legend {
            Some(c) => c.sources.len() == n,
            None => true,
        }
    }

    /// The legend stored under `hash`.
    pub fn legend(&self, hash: &str) -> (r: Option<&CompiledLegend>)
        ensures
            match lookup_last(legend_entries(self.legends@), hash@) {
                Some(srcs) => r matches Some(c) && c.sources@ == srcs,
                None => r is None,
            },
            self.wf() && r is Some ==> r->Some_0.sources@.len() == self.schema@.len(),
    {
        let ghost e = legend_entries(self.legends@);
        let mut i = self.legends.len();
        assert(e.subrange(0, i as int) =~= e);
        while i > 0
            invariant
                i <= self.legends@.len(),
                e == legend_entries(self.legends@),
                lookup_last(e, hash@) == lookup_last(e.subrange(0, i as int), hash@),
            decreases i,
        {
            let ghost sub = e.subrange(0, i as int);
            assert(sub.drop_last() =~= e.subrange(0, i - 1));
            if str_eq(self.legends[i - 1].0.as_str(), hash) {
                return Some(&self.legends[i - 1].1);
            }
            i = i - 1;
        }
        None
    }
}

/// A summary of one dataset of a repository.
pub struct DatasetInfo {
    pub name: String,
    pub dataset_type: String,
    pub feature_count: usize,
    pub geometry_crs: Option<String>,
    pub geometry_type: Option<String>,
}

/// The text of an optional string.
pub open spec fn opt_view(s: Option<String>) -> Option<Seq<char>> {
    match s {
        Some(x) => Some(x@),
        None => None,
    }
}

/// The first column whose data type is `geometry`.
pub open spec fn geometry_column(cols: Seq<ColumnSchema>) -> Option<int> {
    index_from(cols.map_values(|c: ColumnSchema| c.data_type@), "geometry"@, 0)
}

/// The geometry column of a schema is its first column whose data type is
/// `geometry`; there is none when no column has that data type.
pub proof fn lemma_geometry_column_is_first(cols: Seq<ColumnSchema>)
    ensures
        match geometry_column(cols) {
            Some(g) => 0 <= g < cols.len() && cols[g].data_type@ == "geometry"@ && forall|j: int|
                0 <= j < g ==> cols[j].data_type@ != "geometry"@,
            None => forall|j: int| 0 <= j < cols.len() ==> cols[j].data_type@ != "geometry"@,
        },
{
    let types = cols.map_values(|c: ColumnSchema| c.data_type@);
    lemma_index_from(types, "geometry"@, 0);
    match geometry_column(cols) {
        Some(g) => {
            assert(types[g] == cols[g].data_type@);
            assert forall|j: int| 0 <= j < g implies cols[j].data_type@ != "geometry"@ by {
                assert(types[j] == cols[j].data_type@);
            }
        },
        None => {
            assert forall|j: int| 0 <= j < cols.len() implies cols[j].data_type@ != "geometry"@ by {
                assert(types[j] == cols[j].data_type@);
            }
        },
    }
}

fn clone_opt(s: &Option<String>) -> (r: Option<String>)
    ensures
        opt_view(r) == opt_view(*s),
{
    match s {
        Some(x) => Some(x.clone()),
        None => None,
    }
}

/// Describes a table dataset from its name, its schema (when it could be
/// read) and its feature count; the geometry reference system and type are
/// those of the schema's first geometry column.
pub fn dataset_info(name: String, schema: Option<&Vec<ColumnSchema>>, feature_count: usize) -> (info: DatasetInfo)
    ensures
        info.name == name,
        info.dataset_type@ == "table"@,
        info.feature_count == feature_count,
        match schema {
            Some(cols) => match geometry_column(cols@) {
                Some(g) => opt_view(info.geometry_crs) == opt_view(cols@[g].geometry_crs)
                    && opt_view(info.geometry_type) == opt_view(cols@[g].geometry_type),
                None => info.geometry_crs is None && info.geometry_type is None,
            },
            None => info.geometry_crs is None && info.geometry_type is None,
        },
{
    let (geometry_crs, geometry_type) = match schema {
        Some(cols) => match find_geometry_column(cols) {
            Some(g) => {
                let crs = clone_opt(&cols[g].geometry_crs);
                let ty = clone_opt(&cols[g].geometry_type);
                (crs, ty)
            },
            None => (None, None),
        },
        None => (None, None),
    };
    DatasetInfo {
        name,
        dataset_type: "table".to_owned(),
        feature_count,
        geometry_crs,
        geometry_type,
    }
}

} // verus!
