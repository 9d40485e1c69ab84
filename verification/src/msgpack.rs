//! A small MessagePack decoder that borrows strings and binary data from
//! the buffer it decodes.

use vstd::prelude::*;
use vstd::string::*;
use vstd::utf8::*;
use vstd::arithmetic::power2::{lemma2_to64, lemma2_to64_rest, lemma_pow2_adds, lemma_pow2_pos, lemma_pow2_unfold, pow2};

verus! {

/// A decoded MessagePack value. Strings, binary data and extension
/// payloads borrow from the decoded buffer. Floating-point values are kept
/// as the IEEE 754 bit pattern of a 64-bit float; a 32-bit float is
/// widened to 64 bits.
#[derive(Debug, PartialEq)]
pub enum Value<'a> {
    Nil,
    Bool(bool),
    Integer(i64),
    Float(u64),
    String(&'a str),
    Binary(&'a [u8]),
    Array(Vec<Value<'a>>),
    MapPairs(Vec<(Value<'a>, Value<'a>)>),
    Extension(i8, &'a [u8]),
}

/// The mathematical content of a [`Value`].
pub enum ValueModel {
    Nil,
    Bool(bool),
    Integer(i64),
    Float(u64),
    String(Seq<char>),
    Binary(Seq<u8>),
    Array(Seq<ValueModel>),
    MapPairs(Seq<(ValueModel, ValueModel)>),
    Extension(i8, Seq<u8>),
}

impl<'a> Value<'a> {
    /// The content of this value.
    pub open spec fn model(&self) -> ValueModel
        decreases self,
    {
        match self {
            Value::Nil => ValueModel::Nil,
            Value::Bool(b) => ValueModel::Bool(*b),
            Value::Integer(i) => ValueModel::Integer(*i),
            Value::Float(f) => ValueModel::Float(*f),
            Value::String(s) => ValueModel::String(s@),
            Value::Binary(b) => ValueModel::Binary(b@),
            Value::Array(a) => ValueModel::Array(models(a@)),
            Value::MapPairs(m) => ValueModel::MapPairs(pair_models(m@)),
            Value::Extension(t, b) => ValueModel::Extension(*t, b@),
        }
    }
}

impl<'a> Value<'a> {
    /// The string, when this is a string.
    pub fn as_str(&self) -> (res: Option<&'a str>)
        ensures
            res == (match *self {
                Value::String(s) => Some(s),
                _ => None,
            }),
    {
        match self {
            Value::String(s) => Some(*s),
            _ => None,
        }
    }

    /// The integer, when this is an integer.
    pub fn as_i64(&self) -> (res: Option<i64>)
        ensures
            res == (match *self {
                Value::Integer(i) => Some(i),
                _ => None,
            }),
    {
        match self {
            Value::Integer(i) => Some(*i),
            _ => None,
        }
    }

    /// The boolean, when this is a boolean.
    pub fn as_bool(&self) -> (res: Option<bool>)
        ensures
            res == (match *self {
                Value::Bool(b) => Some(b),
                _ => None,
            }),
    {
        match self {
            Value::Bool(b) => Some(*b),
            _ => None,
        }
    }

    /// The bytes of binary data, or the UTF-8 bytes of a string.
    pub fn as_bytes(&self) -> (res: Option<&'a [u8]>)
        ensures
            match *self {
                Value::Binary(b) => res == Some(b),
                Value::String(s) => res matches Some(r) && r@ == s.spec_bytes(),
                _ => res is None,
            },
    {
        match self {
            Value::Binary(b) => Some(*b),
            Value::String(s) => Some(s.as_bytes()),
            _ => None,
        }
    }

    /// The elements, when this is an array.
    pub fn as_array(&self) -> (res: Option<&[Value<'a>]>)
        ensures
            match *self {
                Value::Array(a) => res matches Some(r) && r@ == a@,
                _ => res is None,
            },
    {
        match self {
            Value::Array(a) => Some(a.as_slice()),
            _ => None,
        }
    }

    /// The geometry bytes: the data of an extension of type 71 (`'G'`) or
    /// plain binary data.
    pub fn as_geom_bytes(&self) -> (res: Option<&'a [u8]>)
        ensures
            res == (match *self {
                Value::Extension(t, data) => if t == 71 {
                    Some(data)
                } else {
                    None
                },
                Value::Binary(b) => Some(b),
                _ => None,
            }),
    {
        match self {
            Value::Extension(71, data) => Some(*data),
            Value::Binary(b) => Some(*b),
            _ => None,
        }
    }
}

/// The contents of a sequence of values, element by element.
pub open spec fn models<'a>(s: Seq<Value<'a>>) -> Seq<ValueModel>
    decreases s,
{
    if s.len() == 0 {
        Seq::empty()
    } else {
        models(s.subrange(0, s.len() - 1)).push(s[s.len() - 1].model())
    }
}

/// The contents of a sequence of key/value pairs, pair by pair.
pub open spec fn pair_models<'a>(s: Seq<(Value<'a>, Value<'a>)>) -> Seq<(ValueModel, ValueModel)>
    decreases s,
{
    if s.len() == 0 {
        Seq::empty()
    } else {
        pair_models(s.subrange(0, s.len() - 1)).push(
            (s[s.len() - 1].0.model(), s[s.len() - 1].1.model()),
        )
    }
}


/// Why decoding stopped.
#[derive(Debug, Clone, Copy, PartialEq, Eq, Structural)]
pub enum DecodeError {
    /// The buffer ended where a single byte was expected.
    UnexpectedEofU8,
    /// The buffer ended where a run of the given number of bytes was expected.
    UnexpectedEofSlice(usize),
    /// The bytes of a string are not UTF-8.
    InvalidUtf8,
    /// The byte names no MessagePack type (0xc1 is the only such byte).
    UnsupportedTag(u8),
}

/// The unsigned number that a run of bytes spells in big-endian order.
pub open spec fn be_uint(b: Seq<u8>) -> nat
    decreases b.len(),
{
    if b.len() == 0 {
        0
    } else {
        be_uint(b.drop_last()) * 256 + b.last() as nat
    }
}

/// The two's complement reading of an `n`-byte unsigned number `u`.
pub open spec fn twos_complement(u: int, n: nat) -> int {
    let m: int = if n == 1 {
        0x100
    } else if n == 2 {
        0x1_0000
    } else if n == 4 {
        0x1_0000_0000
    } else {
        0x1_0000_0000_0000_0000
    };
    if u < m / 2 {
        u
    } else {
        u - m
    }
}

/// Reading one byte at `p`: the byte and the position after it.
pub open spec fn spec_read_u8(s: Seq<u8>, p: int) -> Result<(u8, int), DecodeError> {
    if 0 <= p < s.len() {
        Ok((s[p], p + 1))
    } else {
        Err(DecodeError::UnexpectedEofU8)
    }
}

/// Reading `n` bytes at `p`: the bytes and the position after them.
pub open spec fn spec_read_slice(s: Seq<u8>, p: int, n: nat) -> Result<(Seq<u8>, int), DecodeError> {
    if 0 <= p && p + n <= s.len() {
        Ok((s.subrange(p, p + n), p + n))
    } else {
        Err(DecodeError::UnexpectedEofSlice(n as usize))
    }
}

/// Reading an `n`-byte big-endian unsigned field at `p`.
pub open spec fn spec_read_uint(s: Seq<u8>, p: int, n: nat) -> Result<(nat, int), DecodeError> {
    if n == 1 {
        match spec_read_u8(s, p) {
            Ok((b, q)) => Ok((b as nat, q)),
            Err(e) => Err(e),
        }
    } else {
        match spec_read_slice(s, p, n) {
            Ok((b, q)) => Ok((be_uint(b), q)),
            Err(e) => Err(e),
        }
    }
}

/// Reading an `n`-byte big-endian two's complement field at `p`.
pub open spec fn spec_read_int(s: Seq<u8>, p: int, n: nat) -> Result<(int, int), DecodeError> {
    match spec_read_uint(s, p, n) {
        Ok((u, q)) => Ok((twos_complement(u as int, n), q)),
        Err(e) => Err(e),
    }
}

/// A string of `n` bytes at `p`.
pub open spec fn spec_decode_str(s: Seq<u8>, p: int, n: nat) -> Result<(ValueModel, int), DecodeError> {
    match spec_read_slice(s, p, n) {
        Ok((b, q)) => if valid_utf8(b) {
            Ok((ValueModel::String(decode_utf8(b)), q))
        } else {
            Err(DecodeError::InvalidUtf8)
        },
        Err(e) => Err(e),
    }
}

/// A string whose length is a `k`-byte field at `p`.
pub open spec fn spec_decode_str_field(s: Seq<u8>, p: int, k: nat) -> Result<(ValueModel, int), DecodeError> {
    match spec_read_uint(s, p, k) {
        Ok((n, q)) => spec_decode_str(s, q, n),
        Err(e) => Err(e),
    }
}

/// Binary data whose length is a `k`-byte field at `p`.
pub open spec fn spec_decode_bin(s: Seq<u8>, p: int, k: nat) -> Result<(ValueModel, int), DecodeError> {
    match spec_read_uint(s, p, k) {
        Ok((n, q)) => match spec_read_slice(s, q, n) {
            Ok((b, r)) => Ok((ValueModel::Binary(b), r)),
            Err(e) => Err(e),
        },
        Err(e) => Err(e),
    }
}

/// An extension: its type byte at `p`, then `n` bytes of data.
pub open spec fn spec_decode_fixext(s: Seq<u8>, p: int, n: nat) -> Result<(ValueModel, int), DecodeError> {
    match spec_read_int(s, p, 1) {
        Ok((t, q)) => match spec_read_slice(s, q, n) {
            Ok((b, r)) => Ok((ValueModel::Extension(t as i8, b), r)),
            Err(e) => Err(e),
        },
        Err(e) => Err(e),
    }
}

/// An extension whose data length is a `k`-byte field at `p`, followed by
/// the type byte and the data.
pub open spec fn spec_decode_ext(s: Seq<u8>, p: int, k: nat) -> Result<(ValueModel, int), DecodeError> {
    match spec_read_uint(s, p, k) {
        Ok((n, q)) => spec_decode_fixext(s, q, n),
        Err(e) => Err(e),
    }
}

/// An integer field of `n` bytes at `p`, unsigned or two's complement.
pub open spec fn spec_decode_int(s: Seq<u8>, p: int, n: nat, signed: bool) -> Result<(ValueModel, int), DecodeError> {
    match spec_read_uint(s, p, n) {
        Ok((u, q)) => {
            let i: int = if signed || n == 8 { twos_complement(u as int, n) } else { u as int };
            Ok((ValueModel::Integer(i as i64), q))
        },
        Err(e) => Err(e),
    }
}

/// Wraps decoded elements into an array value.
pub open spec fn into_array(r: Result<(Seq<ValueModel>, int), DecodeError>) -> Result<(ValueModel, int), DecodeError> {
    match r {
        Ok((items, q)) => Ok((ValueModel::Array(items), q)),
        Err(e) => Err(e),
    }
}

/// Wraps decoded key/value pairs into a map value.
pub open spec fn into_map(r: Result<(Seq<(ValueModel, ValueModel)>, int), DecodeError>) -> Result<(ValueModel, int), DecodeError> {
    match r {
        Ok((items, q)) => Ok((ValueModel::MapPairs(items), q)),
        Err(e) => Err(e),
    }
}

/// A subnormal 32-bit float's fraction `m` and the 64-bit exponent field
/// `e` it starts from, normalized: the fraction doubles and the exponent
/// drops by one until the leading one reaches bit 23.
pub open spec fn normalize_subnormal(m: nat, e: int) -> (nat, int)
    decreases 0x100_0000 - m,
{
    if m == 0 || m >= 0x80_0000 {
        (m, e)
    } else {
        normalize_subnormal(2 * m, e - 1)
    }
}

/// A NaN fraction with its quiet bit (bit 22) set.
pub open spec fn quiet_fraction(f: int) -> int {
    if f >= 0x40_0000 {
        f
    } else {
        f + 0x40_0000
    }
}

/// The bits of the 64-bit float that the 32-bit float with bits `b`
/// widens to (IEEE 754, without loss): the sign is kept; a normal number
/// has its exponent rebiased from 127 to 1023 and its 23-bit fraction
/// moved to the top of the 52-bit one; a subnormal number is normalized;
/// zeros and infinities stay what they are; a NaN keeps its payload and
/// becomes quiet.
#[verifier::opaque]
pub open spec fn widen_f32_bits(b: u32) -> u64 {
    let sign: int = (b / 0x8000_0000) as int;
    let exp: int = ((b / 0x80_0000) % 0x100) as int;
    let frac: int = (b % 0x80_0000) as int;
    let top: int = sign * 0x8000_0000_0000_0000;
    let bits: int = if exp == 0xff {
        if frac == 0 {
            top + 0x7ff0_0000_0000_0000
        } else {
            top + 0x7ff0_0000_0000_0000 + quiet_fraction(frac) * 0x2000_0000
        }
    } else if exp == 0 {
        if frac == 0 {
            top
        } else {
            let (m, e) = normalize_subnormal(frac as nat, 897);
            top + e * 0x10_0000_0000_0000 + (m - 0x80_0000) * 0x2000_0000
        }
    } else {
        top + (exp + 896) * 0x10_0000_0000_0000 + frac * 0x2000_0000
    };
    bits as u64
}

/// The value encoded at position `pos` of `s`, and the position just after
/// its encoding; or the reason it cannot be decoded.
pub open spec fn spec_decode_at(s: Seq<u8>, pos: int) -> Result<(ValueModel, int), DecodeError>
    decreases s.len() - pos, 0int,
{
    if pos < 0 || pos >= s.len() {
        Err(DecodeError::UnexpectedEofU8)
    } else {
        let tag = s[pos];
        let p = pos + 1;
        if tag <= 0x7f {
            Ok((ValueModel::Integer(tag as i64), p))
        } else if tag <= 0x8f {
            into_map(spec_decode_pairs(s, p, (tag - 0x80) as nat))
        } else if tag <= 0x9f {
            into_array(spec_decode_items(s, p, (tag - 0x90) as nat))
        } else if tag <= 0xbf {
            spec_decode_str(s, p, (tag - 0xa0) as nat)
        } else if tag == 0xc0 {
            Ok((ValueModel::Nil, p))
        } else if tag == 0xc1 {
            Err(DecodeError::UnsupportedTag(tag))
        } else if tag == 0xc2 {
            Ok((ValueModel::Bool(false), p))
        } else if tag == 0xc3 {
            Ok((ValueModel::Bool(true), p))
        } else if tag == 0xc4 {
            spec_decode_bin(s, p, 1)
        } else if tag == 0xc5 {
            spec_decode_bin(s, p, 2)
        } else if tag == 0xc6 {
            spec_decode_bin(s, p, 4)
        } else if tag == 0xc7 {
            spec_decode_ext(s, p, 1)
        } else if tag == 0xc8 {
            spec_decode_ext(s, p, 2)
        } else if tag == 0xc9 {
            spec_decode_ext(s, p, 4)
        } else if tag == 0xca {
            match spec_read_slice(s, p, 4) {
                Ok((b, q)) => Ok((ValueModel::Float(widen_f32_bits(be_uint(b) as u32)), q)),
                Err(e) => Err(e),
            }
        } else if tag == 0xcb {
            match spec_read_slice(s, p, 8) {
                Ok((b, q)) => Ok((ValueModel::Float(be_uint(b) as u64), q)),
                Err(e) => Err(e),
            }
        } else if tag == 0xcc {
            spec_decode_int(s, p, 1, false)
        } else if tag == 0xcd {
            spec_decode_int(s, p, 2, false)
        } else if tag == 0xce {
            spec_decode_int(s, p, 4, false)
        } else if tag == 0xcf {
            spec_decode_int(s, p, 8, false)
        } else if tag == 0xd0 {
            spec_decode_int(s, p, 1, true)
        } else if tag == 0xd1 {
            spec_decode_int(s, p, 2, true)
        } else if tag == 0xd2 {
            spec_decode_int(s, p, 4, true)
        } else if tag == 0xd3 {
            spec_decode_int(s, p, 8, true)
        } else if tag == 0xd4 {
            spec_decode_fixext(s, p, 1)
        } else if tag == 0xd5 {
            spec_decode_fixext(s, p, 2)
        } else if tag == 0xd6 {
            spec_decode_fixext(s, p, 4)
        } else if tag == 0xd7 {
            spec_decode_fixext(s, p, 8)
        } else if tag == 0xd8 {
            spec_decode_fixext(s, p, 16)
        } else if tag == 0xd9 {
            spec_decode_str_field(s, p, 1)
        } else if tag == 0xda {
            spec_decode_str_field(s, p, 2)
        } else if tag == 0xdb {
            spec_decode_str_field(s, p, 4)
        } else if tag == 0xdc || tag == 0xdd {
            let k: nat = if tag == 0xdc { 2 } else { 4 };
            match spec_read_uint(s, p, k) {
                Ok((n, q)) => into_array(spec_decode_items(s, q, n)),
                Err(e) => Err(e),
            }
        } else if tag == 0xde || tag == 0xdf {
            let k: nat = if tag == 0xde { 2 } else { 4 };
            match spec_read_uint(s, p, k) {
                Ok((n, q)) => into_map(spec_decode_pairs(s, q, n)),
                Err(e) => Err(e),
            }
        } else {
            Ok((ValueModel::Integer((tag - 0x100) as i64), p))
        }
    }
}

/// `n` consecutive values starting at `pos`, and the position after the last.
pub open spec fn spec_decode_items(s: Seq<u8>, pos: int, n: nat) -> Result<(Seq<ValueModel>, int), DecodeError>
    decreases s.len() - pos, n + 1,
{
    if n == 0 {
        Ok((Seq::empty(), pos))
    } else {
        match spec_decode_at(s, pos) {
            Err(e) => Err(e),
            Ok((v, p1)) => if pos < p1 <= s.len() {
                match spec_decode_items(s, p1, (n - 1) as nat) {
                    Ok((rest, p2)) => Ok((seq![v] + rest, p2)),
                    Err(e) => Err(e),
                }
            } else {
                Err(DecodeError::UnexpectedEofU8)
            },
        }
    }
}

/// `n` consecutive key/value pairs starting at `pos`, and the position
/// after the last.
pub open spec fn spec_decode_pairs(s: Seq<u8>, pos: int, n: nat) -> Result<(Seq<(ValueModel, ValueModel)>, int), DecodeError>
    decreases s.len() - pos, n + 1,
{
    if n == 0 {
        Ok((Seq::empty(), pos))
    } else {
        match spec_decode_at(s, pos) {
            Err(e) => Err(e),
            Ok((k, p1)) => if pos < p1 <= s.len() {
                match spec_decode_at(s, p1) {
                    Err(e) => Err(e),
                    Ok((v, p2)) => if p1 < p2 <= s.len() {
                        match spec_decode_pairs(s, p2, (n - 1) as nat) {
                            Ok((rest, p3)) => Ok((seq![(k, v)] + rest, p3)),
                            Err(e) => Err(e),
                        }
                    } else {
                        Err(DecodeError::UnexpectedEofU8)
                    },
                }
            } else {
                Err(DecodeError::UnexpectedEofU8)
            },
        }
    }
}

/// Where a decoder stands after reading an `n`-byte field at `p`: past the
/// field when it could be read, else still at `p`.
pub open spec fn read_stop(s: Seq<u8>, p: int, n: nat) -> int {
    match spec_read_uint(s, p, n) {
        Ok((_, q)) => q,
        Err(_) => p,
    }
}

/// Where a decoder stands after reading `n` bytes at `p`: past them when
/// they could be read, else still at `p`.
pub open spec fn slice_stop(s: Seq<u8>, p: int, n: nat) -> int {
    match spec_read_slice(s, p, n) {
        Ok((_, q)) => q,
        Err(_) => p,
    }
}

/// Where a decoder stands after reading a `k`-byte length field at `p` and
/// then that many bytes.
pub open spec fn field_slice_stop(s: Seq<u8>, p: int, k: nat) -> int {
    match spec_read_uint(s, p, k) {
        Ok((n, q)) => slice_stop(s, q, n),
        Err(_) => p,
    }
}

/// Where a decoder stands after reading an extension type byte at `p` and
/// then `n` bytes of data.
pub open spec fn fixext_stop(s: Seq<u8>, p: int, n: nat) -> int {
    match spec_read_uint(s, p, 1) {
        Ok((_, q)) => slice_stop(s, q, n),
        Err(_) => p,
    }
}

/// Where a decoder stands after reading a `k`-byte length field at `p`,
/// then an extension type byte and that many bytes of data.
pub open spec fn ext_stop(s: Seq<u8>, p: int, k: nat) -> int {
    match spec_read_uint(s, p, k) {
        Ok((n, q)) => fixext_stop(s, q, n),
        Err(_) => p,
    }
}

/// Where a decoder that starts at `pos` stands after decoding one value,
/// whether or not decoding succeeds: just past the value on success, else
/// where the failing read left it.
pub open spec fn spec_decode_stop(s: Seq<u8>, pos: int) -> int
    decreases s.len() - pos, 0int,
{
    if pos < 0 || pos >= s.len() {
        pos
    } else {
        let tag = s[pos];
        let p = pos + 1;
        if tag <= 0x7f {
            p
        } else if tag <= 0x8f {
            decode_pairs_stop(s, p, (tag - 0x80) as nat)
        } else if tag <= 0x9f {
            decode_items_stop(s, p, (tag - 0x90) as nat)
        } else if tag <= 0xbf {
            slice_stop(s, p, (tag - 0xa0) as nat)
        } else if tag <= 0xc3 {
            p
        } else if tag == 0xc4 || tag == 0xd9 {
            field_slice_stop(s, p, 1)
        } else if tag == 0xc5 || tag == 0xda {
            field_slice_stop(s, p, 2)
        } else if tag == 0xc6 || tag == 0xdb {
            field_slice_stop(s, p, 4)
        } else if tag == 0xc7 {
            ext_stop(s, p, 1)
        } else if tag == 0xc8 {
            ext_stop(s, p, 2)
        } else if tag == 0xc9 {
            ext_stop(s, p, 4)
        } else if tag == 0xca {
            slice_stop(s, p, 4)
        } else if tag == 0xcb {
            slice_stop(s, p, 8)
        } else if tag == 0xcc || tag == 0xd0 {
            read_stop(s, p, 1)
        } else if tag == 0xcd || tag == 0xd1 {
            read_stop(s, p, 2)
        } else if tag == 0xce || tag == 0xd2 {
            read_stop(s, p, 4)
        } else if tag == 0xcf || tag == 0xd3 {
            read_stop(s, p, 8)
        } else if tag == 0xd4 {
            fixext_stop(s, p, 1)
        } else if tag == 0xd5 {
            fixext_stop(s, p, 2)
        } else if tag == 0xd6 {
            fixext_stop(s, p, 4)
        } else if tag == 0xd7 {
            fixext_stop(s, p, 8)
        } else if tag == 0xd8 {
            fixext_stop(s, p, 16)
        } else if tag == 0xdc || tag == 0xdd {
            let k: nat = if tag == 0xdc { 2 } else { 4 };
            match spec_read_uint(s, p, k) {
                Ok((n, q)) => decode_items_stop(s, q, n),
                Err(_) => p,
            }
        } else if tag == 0xde || tag == 0xdf {
            let k: nat = if tag == 0xde { 2 } else { 4 };
            match spec_read_uint(s, p, k) {
                Ok((n, q)) => decode_pairs_stop(s, q, n),
                Err(_) => p,
            }
        } else {
            p
        }
    }
}

/// Where a decoder that starts at `pos` stands after decoding `n` values,
/// stopping at the first that fails.
pub open spec fn decode_items_stop(s: Seq<u8>, pos: int, n: nat) -> int
    decreases s.len() - pos, n + 1,
{
    if n == 0 {
        pos
    } else {
        match spec_decode_at(s, pos) {
            Err(_) => spec_decode_stop(s, pos),
            Ok((_, p1)) => if pos < p1 <= s.len() {
                decode_items_stop(s, p1, (n - 1) as nat)
            } else {
                p1
            },
        }
    }
}

/// Where a decoder that starts at `pos` stands after decoding `n` key/value
/// pairs, stopping at the first key or value that fails.
pub open spec fn decode_pairs_stop(s: Seq<u8>, pos: int, n: nat) -> int
    decreases s.len() - pos, n + 1,
{
    if n == 0 {
        pos
    } else {
        match spec_decode_at(s, pos) {
            Err(_) => spec_decode_stop(s, pos),
            Ok((_, p1)) => if pos < p1 <= s.len() {
                match spec_decode_at(s, p1) {
                    Err(_) => spec_decode_stop(s, p1),
                    Ok((_, p2)) => if p1 < p2 <= s.len() {
                        decode_pairs_stop(s, p2, (n - 1) as nat)
                    } else {
                        p2
                    },
                }
            } else {
                p1
            },
        }
    }
}

/// Puts already decoded elements in front of the rest.
pub open spec fn prepend_items(
    pre: Seq<ValueModel>,
    r: Result<(Seq<ValueModel>, int), DecodeError>,
) -> Result<(Seq<ValueModel>, int), DecodeError> {
    match r {
        Ok((rest, q)) => Ok((pre + rest, q)),
        Err(e) => Err(e),
    }
}

/// Puts already decoded pairs in front of the rest.
pub open spec fn prepend_pairs(
    pre: Seq<(ValueModel, ValueModel)>,
    r: Result<(Seq<(ValueModel, ValueModel)>, int), DecodeError>,
) -> Result<(Seq<(ValueModel, ValueModel)>, int), DecodeError> {
    match r {
        Ok((rest, q)) => Ok((pre + rest, q)),
        Err(e) => Err(e),
    }
}

/// What the whole buffer decodes to: the value encoded at its start.
pub open spec fn spec_decode(s: Seq<u8>) -> Result<ValueModel, DecodeError> {
    match spec_decode_at(s, 0) {
        Ok((v, _)) => Ok(v),
        Err(e) => Err(e),
    }
}


/// Reading a field that lies within `s` reads the same from `s + t`.
proof fn lemma_read_extend(s: Seq<u8>, t: Seq<u8>, p: int, n: nat)
    ensures
        spec_read_u8(s, p) is Ok ==> spec_read_u8(s + t, p) == spec_read_u8(s, p),
        spec_read_slice(s, p, n) is Ok ==> spec_read_slice(s + t, p, n) == spec_read_slice(s, p, n),
        spec_read_uint(s, p, n) is Ok ==> spec_read_uint(s + t, p, n) == spec_read_uint(s, p, n),
        spec_read_int(s, p, n) is Ok ==> spec_read_int(s + t, p, n) == spec_read_int(s, p, n),
{
    if 0 <= p && p + n <= s.len() {
        assert((s + t).subrange(p, p + n) =~= s.subrange(p, p + n));
    }
    if 0 <= p < s.len() {
        assert((s + t)[p] == s[p]);
    }
}

/// The value-level helpers read the same from `s + t` as from `s` when they
/// succeed on `s`.
proof fn lemma_helpers_extend(s: Seq<u8>, t: Seq<u8>, p: int, n: nat, signed: bool)
    ensures
        spec_decode_str(s, p, n) is Ok ==> spec_decode_str(s + t, p, n) == spec_decode_str(s, p, n),
        spec_decode_str_field(s, p, n) is Ok ==> spec_decode_str_field(s + t, p, n) == spec_decode_str_field(s, p, n),
        spec_decode_bin(s, p, n) is Ok ==> spec_decode_bin(s + t, p, n) == spec_decode_bin(s, p, n),
        spec_decode_fixext(s, p, n) is Ok ==> spec_decode_fixext(s + t, p, n) == spec_decode_fixext(s, p, n),
        spec_decode_ext(s, p, n) is Ok ==> spec_decode_ext(s + t, p, n) == spec_decode_ext(s, p, n),
        spec_decode_int(s, p, n, signed) is Ok ==> spec_decode_int(s + t, p, n, signed) == spec_decode_int(s, p, n, signed),
{
    lemma_read_extend(s, t, p, n);
    lemma_read_extend(s, t, p, 1);
    if let Ok((m, q)) = spec_read_uint(s, p, n) {
        lemma_read_extend(s, t, q, m);
    }
    if let Ok((_, q)) = spec_read_int(s, p, 1) {
        lemma_read_extend(s, t, q, n);
    }
    if let Ok((m, q)) = spec_read_uint(s, p, n) {
        if let Ok((_, r)) = spec_read_int(s, q, 1) {
            lemma_read_extend(s, t, r, m);
        }
        lemma_read_extend(s, t, q, 1);
    }
}

/// A value that decodes from `s` decodes the same, to the same end, from
/// `s` followed by any further bytes.
pub proof fn lemma_decode_at_extend(s: Seq<u8>, t: Seq<u8>, pos: int)
    requires
        spec_decode_at(s, pos) is Ok,
    ensures
        spec_decode_at(s + t, pos) == spec_decode_at(s, pos),
    decreases s.len() - pos, 0int,
{
    let tag = s[pos];
    let p = pos + 1;
    assert((s + t)[pos] == tag);
    lemma_helpers_extend(s, t, p, 1, false);
    lemma_helpers_extend(s, t, p, 2, false);
    lemma_helpers_extend(s, t, p, 4, false);
    lemma_helpers_extend(s, t, p, 8, false);
    lemma_helpers_extend(s, t, p, 1, true);
    lemma_helpers_extend(s, t, p, 2, true);
    lemma_helpers_extend(s, t, p, 4, true);
    lemma_helpers_extend(s, t, p, 8, true);
    lemma_helpers_extend(s, t, p, 16, false);
    lemma_read_extend(s, t, p, 2);
    lemma_read_extend(s, t, p, 4);
    lemma_read_extend(s, t, p, 8);
    if 0x80 <= tag <= 0x8f {
        lemma_pairs_extend(s, t, p, (tag - 0x80) as nat);
    } else if 0x90 <= tag <= 0x9f {
        lemma_items_extend(s, t, p, (tag - 0x90) as nat);
    } else if 0xa0 <= tag <= 0xbf {
        lemma_helpers_extend(s, t, p, (tag - 0xa0) as nat, false);
    } else if tag == 0xdc || tag == 0xdd {
        let k: nat = if tag == 0xdc { 2 } else { 4 };
        if let Ok((n, q)) = spec_read_uint(s, p, k) {
            lemma_items_extend(s, t, q, n);
        }
    } else if tag == 0xde || tag == 0xdf {
        let k: nat = if tag == 0xde { 2 } else { 4 };
        if let Ok((n, q)) = spec_read_uint(s, p, k) {
            lemma_pairs_extend(s, t, q, n);
        }
    }
}

proof fn lemma_items_extend(s: Seq<u8>, t: Seq<u8>, pos: int, n: nat)
    requires
        spec_decode_items(s, pos, n) is Ok,
    ensures
        spec_decode_items(s + t, pos, n) == spec_decode_items(s, pos, n),
    decreases s.len() - pos, n + 1,
{
    if n > 0 {
        lemma_decode_at_extend(s, t, pos);
        let (_, p1) = spec_decode_at(s, pos)->Ok_0;
        lemma_items_extend(s, t, p1, (n - 1) as nat);
    }
}

proof fn lemma_pairs_extend(s: Seq<u8>, t: Seq<u8>, pos: int, n: nat)
    requires
        spec_decode_pairs(s, pos, n) is Ok,
    ensures
        spec_decode_pairs(s + t, pos, n) == spec_decode_pairs(s, pos, n),
    decreases s.len() - pos, n + 1,
{
    if n > 0 {
        lemma_decode_at_extend(s, t, pos);
        let (_, p1) = spec_decode_at(s, pos)->Ok_0;
        lemma_decode_at_extend(s, t, p1);
        let (_, p2) = spec_decode_at(s, p1)->Ok_0;
        lemma_pairs_extend(s, t, p2, (n - 1) as nat);
    }
}

/// The end of a successful decoding result.
spec fn end_of<T>(r: Result<(T, int), DecodeError>) -> int {
    match r {
        Ok((_, q)) => q,
        Err(_) => 0,
    }
}

/// Whether a result read from `s` is read the same from its first `k`
/// bytes when it ends within them, and fails there when it starts within
/// them but ends beyond.
spec fn survives_truncation<T>(r: Result<(T, int), DecodeError>, ru: Result<(T, int), DecodeError>, p: int, k: int) -> bool {
    r is Ok ==> (end_of(r) <= k ==> ru == r) && (p <= k < end_of(r) ==> ru is Err)
}

/// Reading a field from the first `k` bytes of `s` reads it the same when
/// it ends within them, and fails when it starts within them but ends
/// beyond.
proof fn lemma_read_truncate(s: Seq<u8>, k: int, p: int, n: nat)
    requires
        0 <= k <= s.len(),
    ensures
        survives_truncation(spec_read_u8(s, p), spec_read_u8(s.subrange(0, k), p), p, k),
        survives_truncation(spec_read_slice(s, p, n), spec_read_slice(s.subrange(0, k), p, n), p, k),
        survives_truncation(spec_read_uint(s, p, n), spec_read_uint(s.subrange(0, k), p, n), p, k),
        survives_truncation(spec_read_int(s, p, n), spec_read_int(s.subrange(0, k), p, n), p, k),
{
    let u = s.subrange(0, k);
    if 0 <= p && p + n <= k {
        assert(u.subrange(p, p + n) =~= s.subrange(p, p + n));
    }
    if 0 <= p < k {
        assert(u[p] == s[p]);
    }
}

/// The value-level helpers survive truncation in the same way.
proof fn lemma_helpers_truncate(s: Seq<u8>, k: int, p: int, n: nat, signed: bool)
    requires
        0 <= k <= s.len(),
    ensures
        survives_truncation(spec_decode_str(s, p, n), spec_decode_str(s.subrange(0, k), p, n), p, k),
        survives_truncation(spec_decode_str_field(s, p, n), spec_decode_str_field(s.subrange(0, k), p, n), p, k),
        survives_truncation(spec_decode_bin(s, p, n), spec_decode_bin(s.subrange(0, k), p, n), p, k),
        survives_truncation(spec_decode_fixext(s, p, n), spec_decode_fixext(s.subrange(0, k), p, n), p, k),
        survives_truncation(spec_decode_ext(s, p, n), spec_decode_ext(s.subrange(0, k), p, n), p, k),
        survives_truncation(spec_decode_int(s, p, n, signed), spec_decode_int(s.subrange(0, k), p, n, signed), p, k),
{
    lemma_read_truncate(s, k, p, n);
    lemma_read_truncate(s, k, p, 1);
    if let Ok((m, q)) = spec_read_uint(s, p, n) {
        lemma_read_truncate(s, k, q, m);
        lemma_read_truncate(s, k, q, 1);
        if let Ok((_, r)) = spec_read_int(s, q, 1) {
            lemma_read_truncate(s, k, r, m);
        }
    }
    if let Ok((_, q)) = spec_read_int(s, p, 1) {
        lemma_read_truncate(s, k, q, n);
    }
}

/// A successful decoding at `pos` ends past `pos` and within `s`.
proof fn lemma_decode_at_advances(s: Seq<u8>, pos: int)
    ensures
        spec_decode_at(s, pos) matches Ok((_, q)) ==> pos < q <= s.len(),
    decreases s.len() - pos, 0int,
{
    if 0 <= pos < s.len() {
        let tag = s[pos];
        let p = pos + 1;
        if 0x80 <= tag <= 0x8f {
            lemma_pairs_advance(s, p, (tag - 0x80) as nat);
        } else if 0x90 <= tag <= 0x9f {
            lemma_items_advance(s, p, (tag - 0x90) as nat);
        } else if tag == 0xdc || tag == 0xdd {
            let w: nat = if tag == 0xdc { 2 } else { 4 };
            if let Ok((n, q)) = spec_read_uint(s, p, w) {
                lemma_items_advance(s, q, n);
            }
        } else if tag == 0xde || tag == 0xdf {
            let w: nat = if tag == 0xde { 2 } else { 4 };
            if let Ok((n, q)) = spec_read_uint(s, p, w) {
                lemma_pairs_advance(s, q, n);
            }
        }
    }
}

proof fn lemma_items_advance(s: Seq<u8>, pos: int, n: nat)
    ensures
        spec_decode_items(s, pos, n) matches Ok((_, q)) ==> pos <= q && (pos <= s.len() ==> q <= s.len()),
    decreases s.len() - pos, n + 1,
{
    if n > 0 {
        if let Ok((_, p1)) = spec_decode_at(s, pos) {
            if pos < p1 <= s.len() {
                lemma_items_advance(s, p1, (n - 1) as nat);
            }
        }
    }
}

proof fn lemma_pairs_advance(s: Seq<u8>, pos: int, n: nat)
    ensures
        spec_decode_pairs(s, pos, n) matches Ok((_, q)) ==> pos <= q && (pos <= s.len() ==> q <= s.len()),
    decreases s.len() - pos, n + 1,
{
    if n > 0 {
        if let Ok((_, p1)) = spec_decode_at(s, pos) {
            if pos < p1 <= s.len() {
                if let Ok((_, p2)) = spec_decode_at(s, p1) {
                    if p1 < p2 <= s.len() {
                        lemma_pairs_advance(s, p2, (n - 1) as nat);
                    }
                }
            }
        }
    }
}

/// A value decoded from `s` at `pos` decodes the same from the first `k`
/// bytes of `s` when its encoding ends within them, and fails to decode
/// there when its encoding starts within them but ends beyond.
#[verifier::rlimit(40)]
proof fn lemma_decode_at_truncate(s: Seq<u8>, k: int, pos: int)
    requires
        0 <= k <= s.len(),
    ensures
        survives_truncation(spec_decode_at(s, pos), spec_decode_at(s.subrange(0, k), pos), pos, k),
    decreases s.len() - pos, 0int,
{
    lemma_decode_at_advances(s, pos);
    if spec_decode_at(s, pos) is Ok && pos < k {
        let u = s.subrange(0, k);
        let tag = s[pos];
        let p = pos + 1;
        assert(u[pos] == tag);
        if 0x80 <= tag <= 0x8f {
            lemma_pairs_truncate(s, k, p, (tag - 0x80) as nat);
        } else if 0x90 <= tag <= 0x9f {
            lemma_items_truncate(s, k, p, (tag - 0x90) as nat);
        } else if 0xa0 <= tag <= 0xbf {
            lemma_helpers_truncate(s, k, p, (tag - 0xa0) as nat, false);
        } else if tag == 0xc4 || tag == 0xc7 || tag == 0xd9 || tag == 0xcc || tag == 0xd0 || tag == 0xd4 {
            lemma_helpers_truncate(s, k, p, 1, tag == 0xd0);
        } else if tag == 0xc5 || tag == 0xc8 || tag == 0xda || tag == 0xcd || tag == 0xd1 || tag == 0xd5 {
            lemma_helpers_truncate(s, k, p, 2, tag == 0xd1);
        } else if tag == 0xc6 || tag == 0xc9 || tag == 0xdb || tag == 0xce || tag == 0xd2 || tag == 0xd6 {
            lemma_helpers_truncate(s, k, p, 4, tag == 0xd2);
        } else if tag == 0xcf || tag == 0xd3 || tag == 0xd7 {
            lemma_helpers_truncate(s, k, p, 8, tag == 0xd3);
        } else if tag == 0xd8 {
            lemma_helpers_truncate(s, k, p, 16, false);
        } else if tag == 0xca {
            lemma_read_truncate(s, k, p, 4);
        } else if tag == 0xcb {
            lemma_read_truncate(s, k, p, 8);
        } else if tag == 0xdc || tag == 0xdd {
            let w: nat = if tag == 0xdc { 2 } else { 4 };
            lemma_read_truncate(s, k, p, w);
            if let Ok((n, q)) = spec_read_uint(s, p, w) {
                lemma_items_truncate(s, k, q, n);
            }
        } else if tag == 0xde || tag == 0xdf {
            let w: nat = if tag == 0xde { 2 } else { 4 };
            lemma_read_truncate(s, k, p, w);
            if let Ok((n, q)) = spec_read_uint(s, p, w) {
                lemma_pairs_truncate(s, k, q, n);
            }
        }
    }
}

proof fn lemma_items_truncate(s: Seq<u8>, k: int, pos: int, n: nat)
    requires
        0 <= k <= s.len(),
    ensures
        survives_truncation(spec_decode_items(s, pos, n), spec_decode_items(s.subrange(0, k), pos, n), pos, k),
    decreases s.len() - pos, n + 1,
{
    if n > 0 {
        lemma_decode_at_truncate(s, k, pos);
        if let Ok((_, p1)) = spec_decode_at(s, pos) {
            if pos < p1 <= s.len() {
                lemma_items_truncate(s, k, p1, (n - 1) as nat);
            }
        }
    }
}

proof fn lemma_pairs_truncate(s: Seq<u8>, k: int, pos: int, n: nat)
    requires
        0 <= k <= s.len(),
    ensures
        survives_truncation(spec_decode_pairs(s, pos, n), spec_decode_pairs(s.subrange(0, k), pos, n), pos, k),
    decreases s.len() - pos, n + 1,
{
    if n > 0 {
        lemma_decode_at_truncate(s, k, pos);
        if let Ok((_, p1)) = spec_decode_at(s, pos) {
            if pos < p1 <= s.len() {
                lemma_decode_at_truncate(s, k, p1);
                if let Ok((_, p2)) = spec_decode_at(s, p1) {
                    if p1 < p2 <= s.len() {
                        lemma_pairs_truncate(s, k, p2, (n - 1) as nat);
                    }
                }
            }
        }
    }
}

/// A fixstr tag `0xa0 + n` (`n` below 32) followed by `n` bytes of UTF-8
/// decodes to the string made of exactly those bytes and ends right after
/// them, whatever follows.
pub proof fn lemma_fixstr_decodes(n: nat, b: Seq<u8>, rest: Seq<u8>)
    requires
        n < 32,
        b.len() == n,
        valid_utf8(b),
    ensures
        spec_decode_at(seq![(0xa0 + n) as u8] + b + rest, 0) matches Ok((ValueModel::String(t), q))
            && encode_utf8(t) == b && q == n + 1,
{
    let s = seq![(0xa0 + n) as u8] + b + rest;
    assert(s[0] == (0xa0 + n) as u8);
    assert(s.subrange(1, 1 + n as int) =~= b);
    decode_utf8_encode_utf8(b);
}

/// A string whose length field of `k` bytes (1, 2 or 4, the tags `0xd9`,
/// `0xda`, `0xdb`) holds `n` big-endian, followed by `n` bytes of UTF-8,
/// decodes to the string made of exactly those bytes and ends right after
/// them, whatever follows.
pub proof fn lemma_str_field_decodes(k: nat, n: nat, b: Seq<u8>, rest: Seq<u8>)
    requires
        k == 1 || k == 2 || k == 4,
        n < pow2(8 * k),
        b.len() == n,
        valid_utf8(b),
    ensures
        spec_decode_at(
            seq![if k == 1 { 0xd9u8 } else if k == 2 { 0xdau8 } else { 0xdbu8 }] + be_bytes(n, k) + b + rest,
            0,
        ) matches Ok((ValueModel::String(t), q)) && encode_utf8(t) == b && q == 1 + k + n,
{
    let tag: u8 = if k == 1 { 0xd9u8 } else if k == 2 { 0xdau8 } else { 0xdbu8 };
    let s = seq![tag] + be_bytes(n, k) + b + rest;
    lemma_be_bytes(n, k);
    assert(s[0] == tag);
    assert(s.subrange(1, 1 + k as int) =~= be_bytes(n, k));
    if k == 1 {
        let bb = be_bytes(n, k);
        assert(s[1] == bb[0]);
        assert(bb.drop_last() =~= Seq::<u8>::empty());
        assert(be_uint(Seq::<u8>::empty()) == 0);
        assert(be_uint(bb) == bb[0] as nat);
    }
    assert(s.subrange(1 + k as int, 1 + k + n as int) =~= b);
    decode_utf8_encode_utf8(b);
}

/// The `k` bytes of `n` in big-endian order.
pub open spec fn be_bytes(n: nat, k: nat) -> Seq<u8>
    decreases k,
{
    if k == 0 {
        Seq::empty()
    } else {
        be_bytes(n / 256, (k - 1) as nat).push((n % 256) as u8)
    }
}

/// Writing a number below `256^k` as `k` big-endian bytes and reading them
/// back gives the number.
pub proof fn lemma_be_bytes(n: nat, k: nat)
    requires
        n < pow2(8 * k),
    ensures
        be_bytes(n, k).len() == k,
        be_uint(be_bytes(n, k)) == n,
    decreases k,
{
    if k == 0 {
        lemma2_to64();
    } else {
        lemma_pow2_unfold_bytes(k);
        assert(n / 256 < pow2(8 * (k - 1) as nat)) by (nonlinear_arith)
            requires
                n < pow2(8 * k),
                pow2(8 * k) == 256 * pow2(8 * (k - 1) as nat),
        ;
        lemma_be_bytes(n / 256, (k - 1) as nat);
        let b = be_bytes(n, k);
        assert(b.drop_last() == be_bytes(n / 256, (k - 1) as nat));
        assert(n == (n / 256) * 256 + n % 256);
    }
}

/// `2^(8k)` is 256 times `2^(8(k - 1))`.
proof fn lemma_pow2_unfold_bytes(k: nat)
    requires
        k > 0,
    ensures
        pow2(8 * k) == 256 * pow2(8 * (k - 1) as nat),
{
    let e = 8 * (k - 1) as nat;
    assert(8 * k == e + 8);
    lemma_pow2_unfold(e + 8);
    lemma_pow2_unfold((e + 7) as nat);
    lemma_pow2_unfold((e + 6) as nat);
    lemma_pow2_unfold((e + 5) as nat);
    lemma_pow2_unfold((e + 4) as nat);
    lemma_pow2_unfold((e + 3) as nat);
    lemma_pow2_unfold((e + 2) as nat);
    lemma_pow2_unfold((e + 1) as nat);
}

/// `m` positive fixints in a row, starting at `pos`, decode to the
/// integers they hold, in order, and end right after them.
proof fn lemma_fixint_items(s: Seq<u8>, pos: int, m: nat)
    requires
        0 <= pos,
        pos + m <= s.len(),
        forall|i: int| pos <= i < pos + m ==> #[trigger] s[i] < 0x80,
    ensures
        spec_decode_items(s, pos, m) == Ok::<(Seq<ValueModel>, int), DecodeError>((
            s.subrange(pos, pos + m).map_values(|x: u8| ValueModel::Integer(x as i64)),
            pos + m,
        )),
    decreases m,
{
    if m > 0 {
        lemma_fixint_items(s, pos + 1, (m - 1) as nat);
        assert(s[pos] < 0x80);
        assert(spec_decode_at(s, pos) == Ok::<(ValueModel, int), DecodeError>((ValueModel::Integer(s[pos] as i64), pos + 1)));
        let all = s.subrange(pos, pos + m).map_values(|x: u8| ValueModel::Integer(x as i64));
        let tail = s.subrange(pos + 1, pos + m).map_values(|x: u8| ValueModel::Integer(x as i64));
        assert(seq![ValueModel::Integer(s[pos] as i64)] + tail =~= all);
    } else {
        assert(s.subrange(pos, pos).map_values(|x: u8| ValueModel::Integer(x as i64)) =~= Seq::<ValueModel>::empty());
    }
}

/// A fixarray tag `0x90 + n` (`n` below 16) followed by `n` positive
/// fixints decodes to the array of exactly those `n` integers, in order,
/// and ends right after them, whatever follows.
pub proof fn lemma_fixarray_decodes(n: nat, b: Seq<u8>, rest: Seq<u8>)
    requires
        n < 16,
        b.len() == n,
        forall|i: int| 0 <= i < n ==> #[trigger] b[i] < 0x80,
    ensures
        spec_decode_at(seq![(0x90 + n) as u8] + b + rest, 0) == Ok::<(ValueModel, int), DecodeError>((
            ValueModel::Array(b.map_values(|x: u8| ValueModel::Integer(x as i64))),
            (n + 1) as int,
        )),
{
    let s = seq![(0x90 + n) as u8] + b + rest;
    assert(s[0] == (0x90 + n) as u8);
    assert forall|i: int| 1 <= i < 1 + n implies #[trigger] s[i] < 0x80 by {
        assert(s[i] == b[i - 1]);
    }
    lemma_fixint_items(s, 1, n);
    assert(s.subrange(1, 1 + n as int) =~= b);
}

/// A fixmap tag `0x80 + n` (`n` below 16) followed by `n` pairs of positive
/// fixints decodes to the map of exactly those `n` pairs, in order, and
/// ends right after them, whatever follows.
pub proof fn lemma_fixmap_decodes(n: nat, b: Seq<u8>, rest: Seq<u8>)
    requires
        n < 16,
        b.len() == 2 * n,
        forall|i: int| 0 <= i < 2 * n ==> #[trigger] b[i] < 0x80,
    ensures
        spec_decode_at(seq![(0x80 + n) as u8] + b + rest, 0) == Ok::<(ValueModel, int), DecodeError>((
            ValueModel::MapPairs(Seq::new(n, |i: int| (ValueModel::Integer(b[2 * i] as i64), ValueModel::Integer(b[2 * i + 1] as i64)))),
            (2 * n + 1) as int,
        )),
{
    let s = seq![(0x80 + n) as u8] + b + rest;
    assert(s[0] == (0x80 + n) as u8);
    assert forall|i: int| 1 <= i < 1 + 2 * n implies #[trigger] s[i] < 0x80 by {
        assert(s[i] == b[i - 1]);
    }
    lemma_fixint_pairs(s, 1, n);
    let got = Seq::new(n, |i: int| (ValueModel::Integer(s[1 + 2 * i] as i64), ValueModel::Integer(s[1 + 2 * i + 1] as i64)));
    let want = Seq::new(n, |i: int| (ValueModel::Integer(b[2 * i] as i64), ValueModel::Integer(b[2 * i + 1] as i64)));
    assert forall|i: int| 0 <= i < n implies got[i] == want[i] by {
        assert(s[1 + 2 * i] == b[2 * i]);
        assert(s[1 + 2 * i + 1] == b[2 * i + 1]);
    }
    assert(got =~= want);
}

/// `m` pairs of positive fixints starting at `pos` decode to those pairs.
proof fn lemma_fixint_pairs(s: Seq<u8>, pos: int, m: nat)
    requires
        0 <= pos,
        pos + 2 * m <= s.len(),
        forall|i: int| pos <= i < pos + 2 * m ==> #[trigger] s[i] < 0x80,
    ensures
        spec_decode_pairs(s, pos, m) == Ok::<(Seq<(ValueModel, ValueModel)>, int), DecodeError>((
            Seq::new(m, |i: int| (ValueModel::Integer(s[pos + 2 * i] as i64), ValueModel::Integer(s[pos + 2 * i + 1] as i64))),
            pos + 2 * m,
        )),
    decreases m,
{
    if m > 0 {
        lemma_fixint_pairs(s, pos + 2, (m - 1) as nat);
        assert(s[pos] < 0x80);
        assert(s[pos + 1] < 0x80);
        assert(spec_decode_at(s, pos) == Ok::<(ValueModel, int), DecodeError>((ValueModel::Integer(s[pos] as i64), pos + 1)));
        assert(spec_decode_at(s, pos + 1) == Ok::<(ValueModel, int), DecodeError>((ValueModel::Integer(s[pos + 1] as i64), pos + 2)));
        let all = Seq::new(m, |i: int| (ValueModel::Integer(s[pos + 2 * i] as i64), ValueModel::Integer(s[pos + 2 * i + 1] as i64)));
        let tail = Seq::new((m - 1) as nat, |i: int| (ValueModel::Integer(s[pos + 2 + 2 * i] as i64), ValueModel::Integer(s[pos + 2 + 2 * i + 1] as i64)));
        assert(seq![(ValueModel::Integer(s[pos] as i64), ValueModel::Integer(s[pos + 1] as i64))] + tail =~= all);
    } else {
        assert(Seq::new(0, |i: int| (ValueModel::Integer(s[pos + 2 * i] as i64), ValueModel::Integer(s[pos + 2 * i + 1] as i64)))
            =~= Seq::<(ValueModel, ValueModel)>::empty());
    }
}

/// A `k`-byte big-endian field (`k` of 1, 2, 4 or 8) holding `n` reads as
/// `n` and ends after the field.
proof fn lemma_read_be(s: Seq<u8>, p: int, n: nat, k: nat)
    requires
        k == 1 || k == 2 || k == 4 || k == 8,
        n < pow2(8 * k),
        0 <= p,
        p + k <= s.len(),
        s.subrange(p, p + k) == be_bytes(n, k),
    ensures
        spec_read_uint(s, p, k) == Ok::<(nat, int), DecodeError>((n, p + k)),
{
    lemma_be_bytes(n, k);
    if k == 1 {
        let bb = be_bytes(n, k);
        assert(s[p] == s.subrange(p, p + k)[0]);
        assert(bb.drop_last() =~= Seq::<u8>::empty());
        assert(be_uint(Seq::<u8>::empty()) == 0);
        assert(be_uint(bb) == bb[0] as nat);
    }
}

/// The tag of a format with a `k`-byte field, among the tags for 1, 2, 4
/// and 8 bytes.
pub open spec fn width_tag(k: nat, t1: u8, t2: u8, t4: u8, t8: u8) -> u8 {
    if k == 1 {
        t1
    } else if k == 2 {
        t2
    } else if k == 4 {
        t4
    } else {
        t8
    }
}

/// A single byte below 0x80 is the integer it holds; a byte from 0xe0 up is
/// the negative integer it holds in two's complement; 0xc0 is nil, 0xc2
/// false and 0xc3 true. Each takes one byte, whatever follows.
pub proof fn lemma_single_byte_values_decode(x: u8, rest: Seq<u8>)
    ensures
        x < 0x80 ==> spec_decode_at(seq![x] + rest, 0) == Ok::<(ValueModel, int), DecodeError>((ValueModel::Integer(x as i64), 1)),
        x >= 0xe0 ==> spec_decode_at(seq![x] + rest, 0) == Ok::<(ValueModel, int), DecodeError>((ValueModel::Integer((x - 256) as i64), 1)),
        x == 0xc0 ==> spec_decode_at(seq![x] + rest, 0) == Ok::<(ValueModel, int), DecodeError>((ValueModel::Nil, 1)),
        x == 0xc2 ==> spec_decode_at(seq![x] + rest, 0) == Ok::<(ValueModel, int), DecodeError>((ValueModel::Bool(false), 1)),
        x == 0xc3 ==> spec_decode_at(seq![x] + rest, 0) == Ok::<(ValueModel, int), DecodeError>((ValueModel::Bool(true), 1)),
{
    assert((seq![x] + rest)[0] == x);
}

/// An unsigned integer of `k` bytes (tags 0xcc, 0xcd, 0xce, 0xcf) holding
/// `n` decodes to `n`; a 64-bit one of 2^63 or more wraps around to a
/// negative `i64`, as a cast does. It ends after its field.
pub proof fn lemma_uint_decodes(k: nat, n: nat, rest: Seq<u8>)
    requires
        k == 1 || k == 2 || k == 4 || k == 8,
        n < pow2(8 * k),
    ensures
        spec_decode_at(seq![width_tag(k, 0xcc, 0xcd, 0xce, 0xcf)] + be_bytes(n, k) + rest, 0) == Ok::<
            (ValueModel, int),
            DecodeError,
        >((ValueModel::Integer((if n < 0x8000_0000_0000_0000 { n as int } else { n - 0x1_0000_0000_0000_0000 }) as i64), (1 + k) as int)),
{
    let s = seq![width_tag(k, 0xcc, 0xcd, 0xce, 0xcf)] + be_bytes(n, k) + rest;
    lemma_be_bytes(n, k);
    lemma2_to64();
    lemma2_to64_rest();
    assert(s[0] == width_tag(k, 0xcc, 0xcd, 0xce, 0xcf));
    assert(s.subrange(1, 1 + k as int) =~= be_bytes(n, k));
    lemma_read_be(s, 1, n, k);
}

/// A signed integer of `k` bytes (tags 0xd0, 0xd1, 0xd2, 0xd3) whose field
/// holds `i` in two's complement decodes to `i` and ends after its field.
pub proof fn lemma_int_decodes(k: nat, i: int, rest: Seq<u8>)
    requires
        k == 1 || k == 2 || k == 4 || k == 8,
        -pow2((8 * k - 1) as nat) <= i < pow2((8 * k - 1) as nat),
    ensures
        spec_decode_at(
            seq![width_tag(k, 0xd0, 0xd1, 0xd2, 0xd3)] + be_bytes(
                (if i >= 0 { i } else { i + pow2(8 * k) }) as nat,
                k,
            ) + rest,
            0,
        ) == Ok::<(ValueModel, int), DecodeError>((ValueModel::Integer(i as i64), (1 + k) as int)),
{
    lemma2_to64();
    lemma2_to64_rest();
    let n = (if i >= 0 { i } else { i + pow2(8 * k) }) as nat;
    let s = seq![width_tag(k, 0xd0, 0xd1, 0xd2, 0xd3)] + be_bytes(n, k) + rest;
    lemma_be_bytes(n, k);
    assert(s[0] == width_tag(k, 0xd0, 0xd1, 0xd2, 0xd3));
    assert(s.subrange(1, 1 + k as int) =~= be_bytes(n, k));
    lemma_read_be(s, 1, n, k);
    assert(twos_complement(n as int, k) == i);
}

/// A 64-bit float (tag 0xcb) decodes to its eight bytes' bits, read
/// big-endian, and ends after them.
pub proof fn lemma_float64_decodes(bits: u64, rest: Seq<u8>)
    ensures
        spec_decode_at(seq![0xcbu8] + be_bytes(bits as nat, 8) + rest, 0) == Ok::<(ValueModel, int), DecodeError>((
            ValueModel::Float(bits),
            9,
        )),
{
    lemma2_to64_rest();
    let s = seq![0xcbu8] + be_bytes(bits as nat, 8) + rest;
    lemma_be_bytes(bits as nat, 8);
    assert(s[0] == 0xcb);
    assert(s.subrange(1, 9) =~= be_bytes(bits as nat, 8));
}

/// Binary data whose length field of `k` bytes (tags 0xc4, 0xc5, 0xc6)
/// holds `n`, followed by `n` bytes, decodes to exactly those bytes and ends
/// after them.
pub proof fn lemma_bin_decodes(k: nat, b: Seq<u8>, rest: Seq<u8>)
    requires
        k == 1 || k == 2 || k == 4,
        b.len() < pow2(8 * k),
    ensures
        spec_decode_at(seq![width_tag(k, 0xc4, 0xc5, 0xc6, 0)] + be_bytes(b.len(), k) + b + rest, 0) == Ok::<
            (ValueModel, int),
            DecodeError,
        >((ValueModel::Binary(b), (1 + k + b.len()) as int)),
{
    let s = seq![width_tag(k, 0xc4, 0xc5, 0xc6, 0)] + be_bytes(b.len(), k) + b + rest;
    lemma_be_bytes(b.len(), k);
    assert(s[0] == width_tag(k, 0xc4, 0xc5, 0xc6, 0));
    assert(s.subrange(1, 1 + k as int) =~= be_bytes(b.len(), k));
    lemma_read_be(s, 1, b.len(), k);
    assert(s.subrange(1 + k as int, 1 + k + b.len() as int) =~= b);
}

/// An extension whose length field of `k` bytes (tags 0xc7, 0xc8, 0xc9)
/// holds `n`, then its type byte and `n` bytes of data, decodes to that
/// type, read as a signed byte, and exactly that data; it ends after them.
pub proof fn lemma_ext_decodes(k: nat, t: i8, data: Seq<u8>, rest: Seq<u8>)
    requires
        k == 1 || k == 2 || k == 4,
        data.len() < pow2(8 * k),
    ensures
        spec_decode_at(
            seq![width_tag(k, 0xc7, 0xc8, 0xc9, 0)] + be_bytes(data.len(), k) + seq![t as u8] + data + rest,
            0,
        ) == Ok::<(ValueModel, int), DecodeError>((ValueModel::Extension(t, data), (2 + k + data.len()) as int)),
{
    let s = seq![width_tag(k, 0xc7, 0xc8, 0xc9, 0)] + be_bytes(data.len(), k) + seq![t as u8] + data + rest;
    lemma_be_bytes(data.len(), k);
    assert(s[0] == width_tag(k, 0xc7, 0xc8, 0xc9, 0));
    assert(s.subrange(1, 1 + k as int) =~= be_bytes(data.len(), k));
    lemma_read_be(s, 1, data.len(), k);
    assert(s[1 + k as int] == t as u8);
    assert(twos_complement((t as u8) as int, 1) == t) by {
        assert((t as u8) as int == if t >= 0 { t as int } else { t + 256 }) by (bit_vector);
    }
    assert(s.subrange(2 + k as int, 2 + k + data.len() as int) =~= data);
}

/// A fixed extension of `n` bytes (`n` of 1, 2, 4, 8 or 16; tags 0xd4 to
/// 0xd8): its type byte and `n` bytes of data decode to that type, read as
/// a signed byte, and exactly that data, ending after them.
pub proof fn lemma_fixext_decodes(t: i8, data: Seq<u8>, rest: Seq<u8>)
    requires
        data.len() == 1 || data.len() == 2 || data.len() == 4 || data.len() == 8 || data.len() == 16,
    ensures
        spec_decode_at(
            seq![if data.len() == 1 { 0xd4u8 } else if data.len() == 2 { 0xd5u8 } else if data.len() == 4 { 0xd6u8 } else if data.len() == 8 { 0xd7u8 } else { 0xd8u8 }]
                + seq![t as u8] + data + rest,
            0,
        ) == Ok::<(ValueModel, int), DecodeError>((ValueModel::Extension(t, data), (2 + data.len()) as int)),
{
    let tag: u8 = if data.len() == 1 { 0xd4u8 } else if data.len() == 2 { 0xd5u8 } else if data.len() == 4 { 0xd6u8 } else if data.len() == 8 { 0xd7u8 } else { 0xd8u8 };
    let s = seq![tag] + seq![t as u8] + data + rest;
    assert(s[0] == tag);
    assert(s[1] == t as u8);
    assert(twos_complement((t as u8) as int, 1) == t) by {
        assert((t as u8) as int == if t >= 0 { t as int } else { t + 256 }) by (bit_vector);
    }
    assert(s.subrange(2, 2 + data.len() as int) =~= data);
}

/// An array whose count field of `k` bytes (2 or 4; tags 0xdc, 0xdd) holds
/// `n`, followed by `n` positive fixints, decodes to the array of exactly
/// those integers and ends after them.
pub proof fn lemma_array_field_decodes(k: nat, b: Seq<u8>, rest: Seq<u8>)
    requires
        k == 2 || k == 4,
        b.len() < pow2(8 * k),
        forall|i: int| 0 <= i < b.len() ==> #[trigger] b[i] < 0x80,
    ensures
        spec_decode_at(seq![if k == 2 { 0xdcu8 } else { 0xddu8 }] + be_bytes(b.len(), k) + b + rest, 0) == Ok::<
            (ValueModel, int),
            DecodeError,
        >((ValueModel::Array(b.map_values(|x: u8| ValueModel::Integer(x as i64))), (1 + k + b.len()) as int)),
{
    let tag: u8 = if k == 2 { 0xdcu8 } else { 0xddu8 };
    let s = seq![tag] + be_bytes(b.len(), k) + b + rest;
    lemma_be_bytes(b.len(), k);
    assert(s[0] == tag);
    assert(s.subrange(1, 1 + k as int) =~= be_bytes(b.len(), k));
    lemma_read_be(s, 1, b.len(), k);
    let p = 1 + k as int;
    assert forall|i: int| p <= i < p + b.len() implies #[trigger] s[i] < 0x80 by {
        assert(s[i] == b[i - p]);
    }
    lemma_fixint_items(s, p, b.len());
    assert(s.subrange(p, p + b.len()) =~= b);
}

/// A map whose count field of `k` bytes (2 or 4; tags 0xde, 0xdf) holds
/// `n`, followed by `n` pairs of positive fixints, decodes to exactly those
/// pairs and ends after them.
pub proof fn lemma_map_field_decodes(k: nat, n: nat, b: Seq<u8>, rest: Seq<u8>)
    requires
        k == 2 || k == 4,
        n < pow2(8 * k),
        b.len() == 2 * n,
        forall|i: int| 0 <= i < b.len() ==> #[trigger] b[i] < 0x80,
    ensures
        spec_decode_at(seq![if k == 2 { 0xdeu8 } else { 0xdfu8 }] + be_bytes(n, k) + b + rest, 0) == Ok::<
            (ValueModel, int),
            DecodeError,
        >((
            ValueModel::MapPairs(Seq::new(n, |i: int| (ValueModel::Integer(b[2 * i] as i64), ValueModel::Integer(b[2 * i + 1] as i64)))),
            (1 + k + 2 * n) as int,
        )),
{
    let tag: u8 = if k == 2 { 0xdeu8 } else { 0xdfu8 };
    let s = seq![tag] + be_bytes(n, k) + b + rest;
    lemma_be_bytes(n, k);
    assert(s[0] == tag);
    assert(s.subrange(1, 1 + k as int) =~= be_bytes(n, k));
    lemma_read_be(s, 1, n, k);
    let p = 1 + k as int;
    assert forall|i: int| p <= i < p + 2 * n implies #[trigger] s[i] < 0x80 by {
        assert(s[i] == b[i - p]);
    }
    lemma_fixint_pairs(s, p, n);
    let got = Seq::new(n, |i: int| (ValueModel::Integer(s[p + 2 * i] as i64), ValueModel::Integer(s[p + 2 * i + 1] as i64)));
    let want = Seq::new(n, |i: int| (ValueModel::Integer(b[2 * i] as i64), ValueModel::Integer(b[2 * i + 1] as i64)));
    assert forall|i: int| 0 <= i < n implies got[i] == want[i] by {
        assert(s[p + 2 * i] == b[2 * i]);
        assert(s[p + 2 * i + 1] == b[2 * i + 1]);
    }
    assert(got =~= want);
}

/// A result moved `d` bytes further on: the same value or error, ending `d`
/// bytes later.
pub open spec fn shifted<T>(r: Result<(T, int), DecodeError>, d: int) -> Result<(T, int), DecodeError> {
    match r {
        Ok((v, q)) => Ok((v, q + d)),
        Err(e) => Err(e),
    }
}

/// Reading a field after `a` more bytes in front reads the same, `a.len()`
/// bytes further on.
proof fn lemma_read_shift(a: Seq<u8>, s: Seq<u8>, p: int, n: nat)
    requires
        0 <= p,
    ensures
        spec_read_u8(a + s, a.len() + p) == shifted(spec_read_u8(s, p), a.len() as int),
        spec_read_slice(a + s, a.len() + p, n) == shifted(spec_read_slice(s, p, n), a.len() as int),
        spec_read_uint(a + s, a.len() + p, n) == shifted(spec_read_uint(s, p, n), a.len() as int),
        spec_read_int(a + s, a.len() + p, n) == shifted(spec_read_int(s, p, n), a.len() as int),
{
    if p + n <= s.len() {
        assert((a + s).subrange(a.len() + p, a.len() + p + n) =~= s.subrange(p, p + n));
    }
    if p < s.len() {
        assert((a + s)[a.len() + p] == s[p]);
    }
}

/// The value-level helpers read the same after more bytes in front.
proof fn lemma_helpers_shift(a: Seq<u8>, s: Seq<u8>, p: int, n: nat, signed: bool)
    requires
        0 <= p,
    ensures
        spec_decode_str(a + s, a.len() + p, n) == shifted(spec_decode_str(s, p, n), a.len() as int),
        spec_decode_str_field(a + s, a.len() + p, n) == shifted(spec_decode_str_field(s, p, n), a.len() as int),
        spec_decode_bin(a + s, a.len() + p, n) == shifted(spec_decode_bin(s, p, n), a.len() as int),
        spec_decode_fixext(a + s, a.len() + p, n) == shifted(spec_decode_fixext(s, p, n), a.len() as int),
        spec_decode_ext(a + s, a.len() + p, n) == shifted(spec_decode_ext(s, p, n), a.len() as int),
        spec_decode_int(a + s, a.len() + p, n, signed) == shifted(spec_decode_int(s, p, n, signed), a.len() as int),
{
    lemma_read_shift(a, s, p, n);
    lemma_read_shift(a, s, p, 1);
    if let Ok((m, q)) = spec_read_uint(s, p, n) {
        lemma_read_shift(a, s, q, m);
        lemma_read_shift(a, s, q, 1);
        if let Ok((_, r)) = spec_read_int(s, q, 1) {
            lemma_read_shift(a, s, r, m);
        }
    }
    if let Ok((_, q)) = spec_read_int(s, p, 1) {
        lemma_read_shift(a, s, q, n);
    }
}

/// Decoding after `a` more bytes in front gives the same value or error,
/// `a.len()` bytes further on: decoding never looks back.
#[verifier::spinoff_prover]
#[verifier::rlimit(80)]
pub proof fn lemma_decode_at_shift(a: Seq<u8>, s: Seq<u8>, pos: int)
    requires
        0 <= pos,
    ensures
        spec_decode_at(a + s, a.len() + pos) == shifted(spec_decode_at(s, pos), a.len() as int),
    decreases s.len() - pos, 0int,
{
    if pos < s.len() {
        let tag = s[pos];
        let p = pos + 1;
        assert((a + s)[a.len() + pos] == tag);
        assert(a.len() + pos + 1 == a.len() + p);
        if 0x80 <= tag <= 0x8f {
            lemma_pairs_shift(a, s, p, (tag - 0x80) as nat);
        } else if 0x90 <= tag <= 0x9f {
            lemma_items_shift(a, s, p, (tag - 0x90) as nat);
        } else if 0xa0 <= tag <= 0xbf {
            lemma_helpers_shift(a, s, p, (tag - 0xa0) as nat, false);
        } else if tag == 0xc4 || tag == 0xc7 || tag == 0xd9 || tag == 0xcc || tag == 0xd0 || tag == 0xd4 {
            lemma_helpers_shift(a, s, p, 1, tag == 0xd0);
        } else if tag == 0xc5 || tag == 0xc8 || tag == 0xda || tag == 0xcd || tag == 0xd1 || tag == 0xd5 {
            lemma_helpers_shift(a, s, p, 2, tag == 0xd1);
        } else if tag == 0xc6 || tag == 0xc9 || tag == 0xdb || tag == 0xce || tag == 0xd2 || tag == 0xd6 {
            lemma_helpers_shift(a, s, p, 4, tag == 0xd2);
        } else if tag == 0xcf || tag == 0xd3 || tag == 0xd7 {
            lemma_helpers_shift(a, s, p, 8, tag == 0xd3);
        } else if tag == 0xd8 {
            lemma_helpers_shift(a, s, p, 16, false);
        } else if tag == 0xca {
            lemma_read_shift(a, s, p, 4);
        } else if tag == 0xcb {
            lemma_read_shift(a, s, p, 8);
        } else if tag == 0xdc || tag == 0xdd {
            let w: nat = if tag == 0xdc { 2 } else { 4 };
            lemma_read_shift(a, s, p, w);
            if let Ok((n, q)) = spec_read_uint(s, p, w) {
                lemma_items_shift(a, s, q, n);
            }
        } else if tag == 0xde || tag == 0xdf {
            let w: nat = if tag == 0xde { 2 } else { 4 };
            lemma_read_shift(a, s, p, w);
            if let Ok((n, q)) = spec_read_uint(s, p, w) {
                lemma_pairs_shift(a, s, q, n);
            }
        }
    }
}

#[verifier::spinoff_prover]
#[verifier::rlimit(60)]
proof fn lemma_items_shift(a: Seq<u8>, s: Seq<u8>, pos: int, n: nat)
    requires
        0 <= pos,
    ensures
        spec_decode_items(a + s, a.len() + pos, n) == shifted(spec_decode_items(s, pos, n), a.len() as int),
    decreases s.len() - pos, n + 1,
{
    if n > 0 {
        lemma_decode_at_shift(a, s, pos);
        if let Ok((_, p1)) = spec_decode_at(s, pos) {
            if pos < p1 <= s.len() {
                lemma_items_shift(a, s, p1, (n - 1) as nat);
            }
        }
    }
}

#[verifier::spinoff_prover]
#[verifier::rlimit(100)]
proof fn lemma_pairs_shift(a: Seq<u8>, s: Seq<u8>, pos: int, n: nat)
    requires
        0 <= pos,
    ensures
        spec_decode_pairs(a + s, a.len() + pos, n) == shifted(spec_decode_pairs(s, pos, n), a.len() as int),
    decreases s.len() - pos, n + 1,
{
    if n > 0 {
        lemma_decode_at_shift(a, s, pos);
        if let Ok((_, p1)) = spec_decode_at(s, pos) {
            if pos < p1 <= s.len() {
                lemma_decode_at_shift(a, s, p1);
                if let Ok((_, p2)) = spec_decode_at(s, p1) {
                    if p1 < p2 <= s.len() {
                        lemma_pairs_shift(a, s, p2, (n - 1) as nat);
                    }
                }
            }
        }
    }
}

/// Byte runs joined in order.
pub open spec fn concat_all(es: Seq<Seq<u8>>) -> Seq<u8>
    decreases es.len(),
{
    if es.len() == 0 {
        Seq::empty()
    } else {
        es[0] + concat_all(es.subrange(1, es.len() as int))
    }
}

/// Whether each run of `es` is a complete encoding of the value at the same
/// place in `vs`: it decodes to that value and ends exactly at its end.
pub open spec fn encodes_each(es: Seq<Seq<u8>>, vs: Seq<ValueModel>) -> bool {
    es.len() == vs.len() && forall|i: int|
        0 <= i < es.len() ==> spec_decode_at(#[trigger] es[i], 0) == Ok::<(ValueModel, int), DecodeError>((vs[i], es[i].len() as int))
}

/// Complete encodings placed one after another decode, in order, to their
/// values and end right after the last one, whatever follows.
proof fn lemma_items_of_encodings(es: Seq<Seq<u8>>, vs: Seq<ValueModel>, rest: Seq<u8>)
    requires
        encodes_each(es, vs),
    ensures
        spec_decode_items(concat_all(es) + rest, 0, es.len()) == Ok::<(Seq<ValueModel>, int), DecodeError>((
            vs,
            concat_all(es).len() as int,
        )),
    decreases es.len(),
{
    if es.len() == 0 {
        assert(vs =~= Seq::<ValueModel>::empty());
    } else {
        let e0 = es[0];
        let es1 = es.subrange(1, es.len() as int);
        let vs1 = vs.subrange(1, vs.len() as int);
        assert(encodes_each(es1, vs1)) by {
            assert forall|i: int| 0 <= i < es1.len() implies spec_decode_at(#[trigger] es1[i], 0)
                == Ok::<(ValueModel, int), DecodeError>((vs1[i], es1[i].len() as int)) by {
                assert(es1[i] == es[i + 1] && vs1[i] == vs[i + 1]);
            }
        }
        lemma_items_of_encodings(es1, vs1, rest);
        let tail = concat_all(es1) + rest;
        assert(concat_all(es) + rest =~= e0 + tail);
        assert(spec_decode_at(e0, 0) == Ok::<(ValueModel, int), DecodeError>((vs[0], e0.len() as int)));
        lemma_decode_at_extend(e0, tail, 0);
        lemma_decode_at_advances(e0, 0);
        lemma_items_shift(e0, tail, 0, (es.len() - 1) as nat);
        assert(seq![vs[0]] + vs1 =~= vs);
    }
}

/// Complete encodings placed one after another decode, two by two, to
/// key/value pairs and end right after the last one, whatever follows.
#[verifier::spinoff_prover]
#[verifier::rlimit(60)]
proof fn lemma_pairs_of_encodings(es: Seq<Seq<u8>>, vs: Seq<ValueModel>, m: nat, rest: Seq<u8>)
    requires
        encodes_each(es, vs),
        es.len() == 2 * m,
    ensures
        spec_decode_pairs(concat_all(es) + rest, 0, m) == Ok::<(Seq<(ValueModel, ValueModel)>, int), DecodeError>((
            Seq::new(m, |i: int| (vs[2 * i], vs[2 * i + 1])),
            concat_all(es).len() as int,
        )),
    decreases m,
{
    if m == 0 {
        assert(Seq::new(m, |i: int| (vs[2 * i], vs[2 * i + 1])) =~= Seq::<(ValueModel, ValueModel)>::empty());
    } else {
        let e0 = es[0];
        let e1 = es[1];
        let es1 = es.subrange(1, es.len() as int);
        let es2 = es.subrange(2, es.len() as int);
        let vs2 = vs.subrange(2, vs.len() as int);
        assert(es1[0] == e1);
        assert(es1.subrange(1, es1.len() as int) =~= es2);
        assert(encodes_each(es2, vs2)) by {
            assert forall|i: int| 0 <= i < es2.len() implies spec_decode_at(#[trigger] es2[i], 0)
                == Ok::<(ValueModel, int), DecodeError>((vs2[i], es2[i].len() as int)) by {
                assert(es2[i] == es[i + 2] && vs2[i] == vs[i + 2]);
            }
        }
        lemma_pairs_of_encodings(es2, vs2, (m - 1) as nat, rest);
        let tail2 = concat_all(es2) + rest;
        let tail1 = e1 + tail2;
        assert(concat_all(es1) == e1 + concat_all(es2));
        assert(concat_all(es) == e0 + concat_all(es1));
        assert(concat_all(es) + rest =~= e0 + tail1);
        assert(spec_decode_at(e0, 0) == Ok::<(ValueModel, int), DecodeError>((vs[0], e0.len() as int)));
        assert(spec_decode_at(e1, 0) == Ok::<(ValueModel, int), DecodeError>((vs[1], e1.len() as int)));
        lemma_decode_at_extend(e0, tail1, 0);
        lemma_decode_at_advances(e0, 0);
        lemma_decode_at_extend(e1, tail2, 0);
        lemma_decode_at_advances(e1, 0);
        lemma_decode_at_shift(e0, tail1, 0);
        assert(e0 + tail1 =~= (e0 + e1) + tail2);
        lemma_pairs_shift(e0 + e1, tail2, 0, (m - 1) as nat);
        let want = Seq::new(m, |i: int| (vs[2 * i], vs[2 * i + 1]));
        let got_rest = Seq::new((m - 1) as nat, |i: int| (vs2[2 * i], vs2[2 * i + 1]));
        assert(seq![(vs[0], vs[1])] + got_rest =~= want);
    }
}

/// A fixarray tag `0x90 + n` (`n` below 16) followed by `n` complete
/// encodings decodes to the array of exactly their values, in order, and
/// ends right after them, whatever follows.
pub proof fn lemma_fixarray_of_encodings_decodes(es: Seq<Seq<u8>>, vs: Seq<ValueModel>, rest: Seq<u8>)
    requires
        encodes_each(es, vs),
        es.len() < 16,
    ensures
        spec_decode_at(seq![(0x90 + es.len()) as u8] + concat_all(es) + rest, 0) == Ok::<(ValueModel, int), DecodeError>((
            ValueModel::Array(vs),
            (1 + concat_all(es).len()) as int,
        )),
{
    let a = seq![(0x90 + es.len()) as u8];
    let x = concat_all(es) + rest;
    assert(a + concat_all(es) + rest =~= a + x);
    assert((a + x)[0] == (0x90 + es.len()) as u8);
    lemma_items_of_encodings(es, vs, rest);
    lemma_items_shift(a, x, 0, es.len());
}

/// An array whose count field of `k` bytes (2 or 4; tags 0xdc, 0xdd) holds
/// `n`, followed by `n` complete encodings, decodes to the array of exactly
/// their values, in order, and ends right after them.
pub proof fn lemma_array_of_encodings_decodes(k: nat, es: Seq<Seq<u8>>, vs: Seq<ValueModel>, rest: Seq<u8>)
    requires
        k == 2 || k == 4,
        encodes_each(es, vs),
        es.len() < pow2(8 * k),
    ensures
        spec_decode_at(seq![if k == 2 { 0xdcu8 } else { 0xddu8 }] + be_bytes(es.len(), k) + concat_all(es) + rest, 0)
            == Ok::<(ValueModel, int), DecodeError>((ValueModel::Array(vs), (1 + k + concat_all(es).len()) as int)),
{
    let a = seq![if k == 2 { 0xdcu8 } else { 0xddu8 }] + be_bytes(es.len(), k);
    let x = concat_all(es) + rest;
    lemma_be_bytes(es.len(), k);
    assert(seq![if k == 2 { 0xdcu8 } else { 0xddu8 }] + be_bytes(es.len(), k) + concat_all(es) + rest =~= a + x);
    assert((a + x)[0] == (if k == 2 { 0xdcu8 } else { 0xddu8 }));
    assert((a + x).subrange(1, 1 + k as int) =~= be_bytes(es.len(), k));
    lemma_read_be(a + x, 1, es.len(), k);
    lemma_items_of_encodings(es, vs, rest);
    lemma_items_shift(a, x, 0, es.len());
}

/// A fixmap tag `0x80 + n` (`n` below 16) followed by `2n` complete
/// encodings, keys and values in turn, decodes to exactly those key/value
/// pairs, in order, and ends right after them, whatever follows.
pub proof fn lemma_fixmap_of_encodings_decodes(n: nat, es: Seq<Seq<u8>>, vs: Seq<ValueModel>, rest: Seq<u8>)
    requires
        encodes_each(es, vs),
        n < 16,
        es.len() == 2 * n,
    ensures
        spec_decode_at(seq![(0x80 + n) as u8] + concat_all(es) + rest, 0) == Ok::<(ValueModel, int), DecodeError>((
            ValueModel::MapPairs(Seq::new(n, |i: int| (vs[2 * i], vs[2 * i + 1]))),
            (1 + concat_all(es).len()) as int,
        )),
{
    let a = seq![(0x80 + n) as u8];
    let x = concat_all(es) + rest;
    assert(a + concat_all(es) + rest =~= a + x);
    assert((a + x)[0] == (0x80 + n) as u8);
    lemma_pairs_of_encodings(es, vs, n, rest);
    lemma_pairs_shift(a, x, 0, n);
}

/// The MessagePack encoding of a value, in the shortest of the formats
/// that MessagePack defines for it here: fixints for 0 to 127 and -32 to -1,
/// int 64 for other integers, float 64, fixstr for strings of fewer than
/// 32 bytes and str 32 for longer ones, bin 32, fixarray and fixmap for
/// fewer than 16 elements and array 32 and map 32 for more, and ext 32.
pub open spec fn encode_value(v: ValueModel) -> Seq<u8>
    decreases v,
{
    match v {
        ValueModel::Nil => seq![0xc0u8],
        ValueModel::Bool(b) => seq![if b { 0xc3u8 } else { 0xc2u8 }],
        ValueModel::Integer(i) => if 0 <= i < 0x80 {
            seq![i as u8]
        } else if -32 <= i < 0 {
            seq![(i + 256) as u8]
        } else {
            seq![0xd3u8] + be_bytes((if i >= 0 { i as int } else { i + 0x1_0000_0000_0000_0000 }) as nat, 8)
        },
        ValueModel::Float(bits) => seq![0xcbu8] + be_bytes(bits as nat, 8),
        ValueModel::String(t) => {
            let b = encode_utf8(t);
            if b.len() < 32 {
                seq![(0xa0 + b.len()) as u8] + b
            } else {
                seq![0xdbu8] + be_bytes(b.len(), 4) + b
            }
        },
        ValueModel::Binary(b) => seq![0xc6u8] + be_bytes(b.len(), 4) + b,
        ValueModel::Array(items) => if items.len() < 16 {
            seq![(0x90 + items.len()) as u8] + encode_list(items)
        } else {
            seq![0xddu8] + be_bytes(items.len(), 4) + encode_list(items)
        },
        ValueModel::MapPairs(ps) => if ps.len() < 16 {
            seq![(0x80 + ps.len()) as u8] + encode_pairs(ps)
        } else {
            seq![0xdfu8] + be_bytes(ps.len(), 4) + encode_pairs(ps)
        },
        ValueModel::Extension(t, d) => seq![0xc9u8] + be_bytes(d.len(), 4) + seq![t as u8] + d,
    }
}

/// The encodings of values, one after another.
pub open spec fn encode_list(items: Seq<ValueModel>) -> Seq<u8>
    decreases items,
{
    if items.len() == 0 {
        Seq::empty()
    } else {
        encode_value(items[0]) + encode_list(items.subrange(1, items.len() as int))
    }
}

/// The encodings of key/value pairs, key then value, one pair after
/// another.
pub open spec fn encode_pairs(ps: Seq<(ValueModel, ValueModel)>) -> Seq<u8>
    decreases ps,
{
    if ps.len() == 0 {
        Seq::empty()
    } else {
        proof {
            assert(decreases_to!(ps => ps[0]));
        }
        encode_value(ps[0].0) + encode_value(ps[0].1) + encode_pairs(ps.subrange(1, ps.len() as int))
    }
}

/// Whether every length in a value fits the 32-bit length fields of the
/// formats `encode_value` uses.
pub open spec fn encodable(v: ValueModel) -> bool
    decreases v,
{
    match v {
        ValueModel::String(t) => encode_utf8(t).len() < 0x1_0000_0000,
        ValueModel::Binary(b) => b.len() < 0x1_0000_0000,
        ValueModel::Extension(_, d) => d.len() < 0x1_0000_0000,
        ValueModel::Array(items) => items.len() < 0x1_0000_0000 && all_encodable(items),
        ValueModel::MapPairs(ps) => ps.len() < 0x1_0000_0000 && all_pairs_encodable(ps),
        _ => true,
    }
}

/// Whether each value is encodable.
pub open spec fn all_encodable(items: Seq<ValueModel>) -> bool
    decreases items,
{
    items.len() == 0 || (encodable(items[0]) && all_encodable(items.subrange(1, items.len() as int)))
}

/// Whether each key and value is encodable.
pub open spec fn all_pairs_encodable(ps: Seq<(ValueModel, ValueModel)>) -> bool
    decreases ps,
{
    if ps.len() == 0 {
        true
    } else {
        proof {
            assert(decreases_to!(ps => ps[0]));
        }
        encodable(ps[0].0) && encodable(ps[0].1) && all_pairs_encodable(ps.subrange(1, ps.len() as int))
    }
}

/// One more complete encoding in front of a run of elements decodes first,
/// then the run, moved along.
proof fn lemma_items_step(e0: Seq<u8>, tail: Seq<u8>, v0: ValueModel, n: nat)
    requires
        spec_decode_at(e0, 0) == Ok::<(ValueModel, int), DecodeError>((v0, e0.len() as int)),
    ensures
        spec_decode_items(e0 + tail, 0, n + 1) == (match spec_decode_items(tail, 0, n) {
            Ok((vs, q)) => Ok((seq![v0] + vs, q + e0.len())),
            Err(e) => Err(e),
        }),
{
    lemma_decode_at_extend(e0, tail, 0);
    lemma_decode_at_advances(e0, 0);
    lemma_items_shift(e0, tail, 0, n);
}

/// One more key and value, each completely encoded, in front of a run of
/// pairs decode first, then the run, moved along.
#[verifier::spinoff_prover]
#[verifier::rlimit(100)]
proof fn lemma_pairs_step(k: Seq<u8>, v: Seq<u8>, tail: Seq<u8>, kv: ValueModel, vv: ValueModel, n: nat)
    requires
        spec_decode_at(k, 0) == Ok::<(ValueModel, int), DecodeError>((kv, k.len() as int)),
        spec_decode_at(v, 0) == Ok::<(ValueModel, int), DecodeError>((vv, v.len() as int)),
    ensures
        spec_decode_pairs(k + v + tail, 0, n + 1) == (match spec_decode_pairs(tail, 0, n) {
            Ok((ps, q)) => Ok((seq![(kv, vv)] + ps, q + k.len() + v.len())),
            Err(e) => Err(e),
        }),
{
    let tail1 = v + tail;
    assert(k + v + tail =~= k + tail1);
    lemma_decode_at_extend(k, tail1, 0);
    lemma_decode_at_advances(k, 0);
    lemma_decode_at_extend(v, tail, 0);
    lemma_decode_at_advances(v, 0);
    lemma_decode_at_shift(k, tail1, 0);
    assert(k + tail1 =~= (k + v) + tail);
    lemma_pairs_shift(k + v, tail, 0, n);
}

/// Nil, a boolean or an integer decodes back from its encoding.
#[verifier::spinoff_prover]
proof fn lemma_atom_round_trip(v: ValueModel)
    requires
        v is Nil || v is Bool || v is Integer,
    ensures
        spec_decode_at(encode_value(v), 0) == Ok::<(ValueModel, int), DecodeError>((v, encode_value(v).len() as int)),
{
    let e = encode_value(v);
    let empty = Seq::<u8>::empty();
    if v is Nil {
        lemma_single_byte_values_decode(0xc0, empty);
        assert(e == seq![0xc0u8]);
        assert(seq![0xc0u8] + empty =~= e);
        assert(spec_decode_at(e, 0) == Ok::<(ValueModel, int), DecodeError>((v, e.len() as int)));
    } else if let ValueModel::Bool(b) = v {
        let x: u8 = if b { 0xc3u8 } else { 0xc2u8 };
        lemma_single_byte_values_decode(x, empty);
        assert(e == seq![x]);
        assert(seq![x] + empty =~= e);
        assert(spec_decode_at(e, 0) == Ok::<(ValueModel, int), DecodeError>((v, e.len() as int)));
    } else if let ValueModel::Integer(i) = v {
        if 0 <= i < 0x80 {
            lemma_single_byte_values_decode(i as u8, empty);
            assert(e == seq![i as u8]);
            assert(seq![i as u8] + empty =~= e);
            assert(spec_decode_at(e, 0) == Ok::<(ValueModel, int), DecodeError>((v, e.len() as int)));
        } else if -32 <= i < 0 {
            let x = (i + 256) as u8;
            lemma_single_byte_values_decode(x, empty);
            assert(e == seq![x]);
            assert(seq![x] + empty =~= e);
            assert(spec_decode_at(e, 0) == Ok::<(ValueModel, int), DecodeError>((v, e.len() as int)));
        } else {
            lemma2_to64();
            lemma2_to64_rest();
            lemma_int_decodes(8, i as int, empty);
            let n = (if i >= 0 { i as int } else { i + 0x1_0000_0000_0000_0000 }) as nat;
            lemma_be_bytes(n, 8);
            assert(e == seq![0xd3u8] + be_bytes(n, 8));
            assert(seq![0xd3u8] + be_bytes(n, 8) + empty =~= e);
            assert(spec_decode_at(e, 0) == Ok::<(ValueModel, int), DecodeError>((v, e.len() as int)));
        }
    }
}

/// A float decodes back from its encoding.
proof fn lemma_float_round_trip(bits: u64)
    ensures
        spec_decode_at(encode_value(ValueModel::Float(bits)), 0) == Ok::<(ValueModel, int), DecodeError>((
            ValueModel::Float(bits),
            encode_value(ValueModel::Float(bits)).len() as int,
        )),
{
    let e = encode_value(ValueModel::Float(bits));
    lemma2_to64_rest();
    lemma_be_bytes(bits as nat, 8);
    lemma_float64_decodes(bits, Seq::<u8>::empty());
    assert(seq![0xcbu8] + be_bytes(bits as nat, 8) + Seq::<u8>::empty() =~= e);
}

/// A string decodes back from its encoding.
#[verifier::spinoff_prover]
proof fn lemma_string_round_trip(t: Seq<char>)
    requires
        encode_utf8(t).len() < 0x1_0000_0000,
    ensures
        spec_decode_at(encode_value(ValueModel::String(t)), 0) == Ok::<(ValueModel, int), DecodeError>((
            ValueModel::String(t),
            encode_value(ValueModel::String(t)).len() as int,
        )),
{
    let e = encode_value(ValueModel::String(t));
    let empty = Seq::<u8>::empty();
    let b = encode_utf8(t);
    lemma2_to64();
    encode_utf8_valid_utf8(t);
    encode_utf8_decode_utf8(t);
    if b.len() < 32 {
        lemma_fixstr_decodes(b.len(), b, empty);
        assert(seq![(0xa0 + b.len()) as u8] + b + empty =~= e);
    } else {
        lemma_be_bytes(b.len(), 4);
        lemma_str_field_decodes(4, b.len(), b, empty);
        assert(seq![0xdbu8] + be_bytes(b.len(), 4) + b + empty =~= e);
    }
    if let Ok((ValueModel::String(t2), _)) = spec_decode_at(e, 0) {
        encode_utf8_decode_utf8(t2);
    }
}

/// Binary data decodes back from its encoding.
proof fn lemma_binary_round_trip(b: Seq<u8>)
    requires
        b.len() < 0x1_0000_0000,
    ensures
        spec_decode_at(encode_value(ValueModel::Binary(b)), 0) == Ok::<(ValueModel, int), DecodeError>((
            ValueModel::Binary(b),
            encode_value(ValueModel::Binary(b)).len() as int,
        )),
{
    let e = encode_value(ValueModel::Binary(b));
    lemma2_to64();
    lemma_be_bytes(b.len(), 4);
    lemma_bin_decodes(4, b, Seq::<u8>::empty());
    assert(seq![0xc6u8] + be_bytes(b.len(), 4) + b + Seq::<u8>::empty() =~= e);
}

/// An extension decodes back from its encoding.
proof fn lemma_extension_round_trip(t: i8, d: Seq<u8>)
    requires
        d.len() < 0x1_0000_0000,
    ensures
        spec_decode_at(encode_value(ValueModel::Extension(t, d)), 0) == Ok::<(ValueModel, int), DecodeError>((
            ValueModel::Extension(t, d),
            encode_value(ValueModel::Extension(t, d)).len() as int,
        )),
{
    let e = encode_value(ValueModel::Extension(t, d));
    lemma2_to64();
    lemma_be_bytes(d.len(), 4);
    lemma_ext_decodes(4, t, d, Seq::<u8>::empty());
    assert(seq![0xc9u8] + be_bytes(d.len(), 4) + seq![t as u8] + d + Seq::<u8>::empty() =~= e);
}

/// An array header for `n` elements followed by a run that decodes to `n`
/// values, ending at its end, decodes to the array of those values.
#[verifier::spinoff_prover]
#[verifier::rlimit(60)]
proof fn lemma_array_header(items: Seq<ValueModel>, body: Seq<u8>)
    requires
        items.len() < 0x1_0000_0000,
        spec_decode_items(body, 0, items.len()) == Ok::<(Seq<ValueModel>, int), DecodeError>((items, body.len() as int)),
    ensures
        ({
            let a = if items.len() < 16 {
                seq![(0x90 + items.len()) as u8]
            } else {
                seq![0xddu8] + be_bytes(items.len(), 4)
            };
            spec_decode_at(a + body, 0) == Ok::<(ValueModel, int), DecodeError>((ValueModel::Array(items), (a + body).len() as int))
        }),
{
    lemma2_to64();
    let a = if items.len() < 16 {
        seq![(0x90 + items.len()) as u8]
    } else {
        seq![0xddu8] + be_bytes(items.len(), 4)
    };
    lemma_items_shift(a, body, 0, items.len());
    assert((a + body)[0] == a[0]);
    if items.len() >= 16 {
        lemma_be_bytes(items.len(), 4);
        assert((a + body).subrange(1, 5) =~= be_bytes(items.len(), 4));
        lemma_read_be(a + body, 1, items.len(), 4);
    }
}

/// A map header for `n` pairs followed by a run that decodes to `n` pairs,
/// ending at its end, decodes to the map of those pairs.
#[verifier::spinoff_prover]
#[verifier::rlimit(60)]
proof fn lemma_map_header(ps: Seq<(ValueModel, ValueModel)>, body: Seq<u8>)
    requires
        ps.len() < 0x1_0000_0000,
        spec_decode_pairs(body, 0, ps.len()) == Ok::<(Seq<(ValueModel, ValueModel)>, int), DecodeError>((ps, body.len() as int)),
    ensures
        ({
            let a = if ps.len() < 16 {
                seq![(0x80 + ps.len()) as u8]
            } else {
                seq![0xdfu8] + be_bytes(ps.len(), 4)
            };
            spec_decode_at(a + body, 0) == Ok::<(ValueModel, int), DecodeError>((ValueModel::MapPairs(ps), (a + body).len() as int))
        }),
{
    lemma2_to64();
    let a = if ps.len() < 16 {
        seq![(0x80 + ps.len()) as u8]
    } else {
        seq![0xdfu8] + be_bytes(ps.len(), 4)
    };
    lemma_pairs_shift(a, body, 0, ps.len());
    assert((a + body)[0] == a[0]);
    if ps.len() >= 16 {
        lemma_be_bytes(ps.len(), 4);
        assert((a + body).subrange(1, 5) =~= be_bytes(ps.len(), 4));
        lemma_read_be(a + body, 1, ps.len(), 4);
    }
}

/// Encoding a value and decoding the bytes gives the value back, and
/// decoding ends exactly at the end of the encoding.
pub proof fn lemma_encode_round_trip(v: ValueModel)
    requires
        encodable(v),
    ensures
        spec_decode_at(encode_value(v), 0) == Ok::<(ValueModel, int), DecodeError>((v, encode_value(v).len() as int)),
        spec_decode(encode_value(v)) == Ok::<ValueModel, DecodeError>(v),
    decreases v,
{
    let empty = Seq::<u8>::empty();
    match v {
        ValueModel::Array(items) => {
            lemma_list_round_trip(items, empty);
            assert(encode_list(items) + empty =~= encode_list(items));
            lemma_array_header(items, encode_list(items));
        },
        ValueModel::MapPairs(ps) => {
            lemma_pairs_round_trip(ps, empty);
            assert(encode_pairs(ps) + empty =~= encode_pairs(ps));
            lemma_map_header(ps, encode_pairs(ps));
        },
        ValueModel::Nil => lemma_atom_round_trip(v),
        ValueModel::Bool(_) => lemma_atom_round_trip(v),
        ValueModel::Integer(_) => lemma_atom_round_trip(v),
        ValueModel::Float(bits) => lemma_float_round_trip(bits),
        ValueModel::String(t) => lemma_string_round_trip(t),
        ValueModel::Binary(b) => lemma_binary_round_trip(b),
        ValueModel::Extension(t, d) => lemma_extension_round_trip(t, d),
    }
}

/// Encoded values placed one after another decode back to them, in order,
/// and decoding ends right after the last one, whatever follows.
proof fn lemma_list_round_trip(items: Seq<ValueModel>, rest: Seq<u8>)
    requires
        all_encodable(items),
    ensures
        spec_decode_items(encode_list(items) + rest, 0, items.len()) == Ok::<(Seq<ValueModel>, int), DecodeError>((
            items,
            encode_list(items).len() as int,
        )),
    decreases items,
{
    if items.len() == 0 {
        assert(items =~= Seq::<ValueModel>::empty());
    } else {
        let items1 = items.subrange(1, items.len() as int);
        let e0 = encode_value(items[0]);
        lemma_encode_round_trip(items[0]);
        lemma_list_round_trip(items1, rest);
        let tail = encode_list(items1) + rest;
        assert(encode_list(items) + rest =~= e0 + tail);
        lemma_items_step(e0, tail, items[0], (items.len() - 1) as nat);
        assert(seq![items[0]] + items1 =~= items);
    }
}

/// Encoded key/value pairs placed one after another decode back to them,
/// in order, and decoding ends right after the last one, whatever follows.
proof fn lemma_pairs_round_trip(ps: Seq<(ValueModel, ValueModel)>, rest: Seq<u8>)
    requires
        all_pairs_encodable(ps),
    ensures
        spec_decode_pairs(encode_pairs(ps) + rest, 0, ps.len()) == Ok::<(Seq<(ValueModel, ValueModel)>, int), DecodeError>((
            ps,
            encode_pairs(ps).len() as int,
        )),
    decreases ps,
{
    if ps.len() == 0 {
        assert(ps =~= Seq::<(ValueModel, ValueModel)>::empty());
    } else {
        assert(decreases_to!(ps => ps[0]));
        let ps1 = ps.subrange(1, ps.len() as int);
        let k = encode_value(ps[0].0);
        let v = encode_value(ps[0].1);
        lemma_encode_round_trip(ps[0].0);
        lemma_encode_round_trip(ps[0].1);
        lemma_pairs_round_trip(ps1, rest);
        let tail = encode_pairs(ps1) + rest;
        assert(encode_pairs(ps) + rest =~= k + v + tail);
        lemma_pairs_step(k, v, tail, ps[0].0, ps[0].1, (ps.len() - 1) as nat);
        assert(seq![(ps[0].0, ps[0].1)] + ps1 =~= ps);
    }
}

/// No strict prefix of a complete encoding decodes: when `e` decodes to a
/// value that ends exactly at its end, each shorter run of its first bytes
/// fails to decode.
pub proof fn lemma_decode_prefix_fails(e: Seq<u8>, k: int)
    requires
        spec_decode_at(e, 0) matches Ok((_, q)) && q == e.len(),
        0 <= k < e.len(),
    ensures
        spec_decode(e.subrange(0, k)) is Err,
{
    lemma_decode_at_truncate(e, k, 0);
}

/// Decoding reads only the bytes of the value it returns: when `s` decodes
/// successfully, so does `s` followed by any bytes `t`, to the same value.
pub proof fn lemma_decode_ignores_trailing_bytes(s: Seq<u8>, t: Seq<u8>)
    requires
        spec_decode(s) is Ok,
    ensures
        spec_decode(s + t) == spec_decode(s),
{
    lemma_decode_at_extend(s, t, 0);
}

/// Whether a decoding result agrees with its specification: on success
/// the value has the specified content and `end` is the specified end
/// position; on failure the error is the specified one.
pub open spec fn decoded_as<'a>(
    r: Result<Value<'a>, DecodeError>,
    spec: Result<(ValueModel, int), DecodeError>,
    end: int,
) -> bool {
    match spec {
        Ok((m, q)) => r matches Ok(v) && v.model() == m && end == q,
        Err(e) => r == Err::<Value<'a>, DecodeError>(e),
    }
}

/// Calls `std::str::from_utf8`, which succeeds exactly when the bytes are
/// valid UTF-8 and then gives a string slice made of those same bytes.
#[verifier::external_body]
pub(crate) fn str_from_utf8<'a>(bytes: &'a [u8]) -> (res: Option<&'a str>)
    ensures
        res is Some <==> valid_utf8(bytes@),
        res matches Some(s) ==> s.spec_bytes() == bytes@,
{
    std::str::from_utf8(bytes).ok()
}

/// The magnitude of a finite 32-bit float, from its bits, times 2^1074 (an
/// integer): the fraction with its implicit leading one times two to the
/// exponent, or the bare fraction for a subnormal number.
pub open spec fn f32_scaled_magnitude(b: u32) -> nat {
    let e = (b / 0x80_0000) % 0x100;
    let f = b % 0x80_0000;
    if e == 0 {
        (f * pow2(925)) as nat
    } else {
        ((0x80_0000 + f) * pow2((e + 924) as nat)) as nat
    }
}

/// The magnitude of a finite 64-bit float, from its bits, times 2^1074.
pub open spec fn f64_scaled_magnitude(bits: u64) -> nat {
    let e = (bits / 0x10_0000_0000_0000) % 0x800;
    let f = bits % 0x10_0000_0000_0000;
    if e == 0 {
        f as nat
    } else {
        ((0x10_0000_0000_0000 + f) * pow2((e - 1) as nat)) as nat
    }
}

/// Two to the power 24 or more is at least 2^24.
proof fn lemma_pow2_at_least_24(k: nat)
    requires
        k >= 24,
    ensures
        pow2(k) >= 0x100_0000,
{
    lemma2_to64();
    lemma_pow2_adds(24, (k - 24) as nat);
    lemma_pow2_pos((k - 24) as nat);
    assert(pow2(24) * pow2((k - 24) as nat) >= pow2(24)) by (nonlinear_arith)
        requires pow2((k - 24) as nat) >= 1, pow2(24) > 0;
    assert((24 + (k - 24)) as nat == k);
}

/// Normalizing a subnormal fraction doubles it until its leading one is at
/// bit 23, lowering the exponent once for each doubling, at most 23 times.
proof fn lemma_normalize_subnormal(m: nat, e: int)
    requires
        0 < m < 0x80_0000,
    ensures
        ({
            let (m2, e2) = normalize_subnormal(m, e);
            &&& 0x80_0000 <= m2 < 0x100_0000
            &&& e - 23 <= e2 < e
            &&& m2 == m * pow2((e - e2) as nat)
        }),
    decreases 0x100_0000 - m,
{
    lemma2_to64();
    assert(normalize_subnormal(m, e) == normalize_subnormal(2 * m, e - 1));
    let (m2, e2) = normalize_subnormal(m, e);
    if 2 * m >= 0x80_0000 {
        assert(normalize_subnormal(2 * m, e - 1) == (2 * m, e - 1));
        assert(pow2(1) == 2);
        assert(m2 == 2 * m && e2 == e - 1);
        assert((e - e2) as nat == 1);
        assert(0x80_0000 <= m2 < 0x100_0000);
        assert(m2 == m * pow2((e - e2) as nat));
    } else {
        lemma_normalize_subnormal(2 * m, e - 1);
        lemma_pow2_unfold((e - e2) as nat);
        assert(((e - e2) - 1) as nat == (e - 1 - e2) as nat);
        assert(m2 == m * pow2((e - e2) as nat)) by (nonlinear_arith)
            requires
                m2 == 2 * m * pow2((e - 1 - e2) as nat),
                pow2((e - e2) as nat) == 2 * pow2((e - 1 - e2) as nat),
        ;
        if e - e2 >= 24 {
            lemma_pow2_at_least_24((e - e2) as nat);
            assert(m2 >= pow2((e - e2) as nat)) by (nonlinear_arith)
                requires m2 == m * pow2((e - e2) as nat), m >= 1;
        }
        assert(0x80_0000 <= m2 < 0x100_0000);
        assert(e - 23 <= e2 < e);
    }
}

/// The sign, exponent and fraction fields of the 64-bit float bits that
/// they make up.
proof fn lemma_f64_fields(sg: int, e: int, f: int)
    requires
        0 <= sg < 2,
        0 <= e < 0x800,
        0 <= f < 0x10_0000_0000_0000,
    ensures
        ({
            let x = sg * 0x8000_0000_0000_0000 + e * 0x10_0000_0000_0000 + f;
            &&& 0 <= x < 0x1_0000_0000_0000_0000
            &&& (x as u64) / 0x8000_0000_0000_0000 == sg
            &&& ((x as u64) / 0x10_0000_0000_0000) % 0x800 == e
            &&& (x as u64) % 0x10_0000_0000_0000 == f
        }),
{
    let x = sg * 0x8000_0000_0000_0000 + e * 0x10_0000_0000_0000 + f;
    assert(0 <= x < 0x1_0000_0000_0000_0000);
    assert((x as u64) as int == x);
    vstd::arithmetic::div_mod::lemma_fundamental_div_mod_converse(x, 0x10_0000_0000_0000, sg * 0x800 + e, f);
    vstd::arithmetic::div_mod::lemma_fundamental_div_mod_converse(sg * 0x800 + e, 0x800, sg, e);
    vstd::arithmetic::div_mod::lemma_fundamental_div_mod_converse(x, 0x8000_0000_0000_0000, sg, e * 0x10_0000_0000_0000 + f);
}

/// Widening keeps a 32-bit float's sign and its value: a finite number
/// becomes the finite 64-bit number of the same magnitude, an infinity
/// stays infinite and a NaN stays a NaN.
pub proof fn lemma_widen_keeps_value(b: u32)
    ensures
        widen_f32_bits(b) / 0x8000_0000_0000_0000 == b / 0x8000_0000,
        (b / 0x80_0000) % 0x100 != 0xff ==> (widen_f32_bits(b) / 0x10_0000_0000_0000) % 0x800 != 0x7ff
            && f64_scaled_magnitude(widen_f32_bits(b)) == f32_scaled_magnitude(b),
        (b / 0x80_0000) % 0x100 == 0xff ==> (widen_f32_bits(b) / 0x10_0000_0000_0000) % 0x800 == 0x7ff
            && ((widen_f32_bits(b) % 0x10_0000_0000_0000 == 0) <==> (b % 0x80_0000 == 0)),
{
    reveal(widen_f32_bits);
    lemma2_to64();
    let sg: int = (b / 0x8000_0000) as int;
    let exp: int = ((b / 0x80_0000) % 0x100) as int;
    let frac: int = (b % 0x80_0000) as int;
    assert(0 <= sg < 2);
    if exp == 0xff {
        if frac == 0 {
            lemma_f64_fields(sg, 0x7ff, 0);
        } else {
            let q = quiet_fraction(frac);
            lemma_f64_fields(sg, 0x7ff, q * 0x2000_0000);
        }
    } else if exp == 0 {
        if frac == 0 {
            lemma_f64_fields(sg, 0, 0);
        } else {
            lemma_normalize_subnormal(frac as nat, 897);
            let (m, e) = normalize_subnormal(frac as nat, 897);
            let fr = (m - 0x80_0000) * 0x2000_0000;
            lemma_f64_fields(sg, e, fr);
            let k = (897 - e) as nat;
            lemma_pow2_adds(k, 29);
            lemma_pow2_adds((k + 29) as nat, (e - 1) as nat);
            assert((k + 29 + (e - 1)) as nat == 925);
            assert(pow2(29) == 0x2000_0000);
            assert((0x10_0000_0000_0000 + fr) * pow2((e - 1) as nat) == frac * pow2(925)) by (nonlinear_arith)
                requires
                    fr == (m - 0x80_0000) * 0x2000_0000,
                    m == frac * pow2(k),
                    pow2(k + 29) == pow2(k) * pow2(29),
                    pow2(925) == pow2(k + 29) * pow2((e - 1) as nat),
                    pow2(29) == 0x2000_0000,
            ;
        }
    } else {
        let fr = frac * 0x2000_0000;
        lemma_f64_fields(sg, exp + 896, fr);
        lemma_pow2_adds(29, (exp + 895) as nat);
        assert((29 + (exp + 895)) as nat == (exp + 924) as nat);
        assert(pow2(29) == 0x2000_0000);
        assert((0x10_0000_0000_0000 + fr) * pow2((exp + 895) as nat) == (0x80_0000 + frac) * pow2((exp + 924) as nat))
            by (nonlinear_arith)
            requires
                fr == frac * 0x2000_0000,
                pow2((exp + 924) as nat) == pow2(29) * pow2((exp + 895) as nat),
                pow2(29) == 0x2000_0000,
        ;
    }
}

/// Widens the bits of a 32-bit float to those of the equal 64-bit float.
pub fn widen_f32(b: u32) -> (r: u64)
    ensures
        r == widen_f32_bits(b),
{
    reveal(widen_f32_bits);
    let sign: u64 = (b / 0x8000_0000) as u64;
    let exp: u64 = ((b / 0x80_0000) % 0x100) as u64;
    let frac: u64 = (b % 0x80_0000) as u64;
    let top: u64 = sign * 0x8000_0000_0000_0000;
    if exp == 0xff {
        if frac == 0 {
            top + 0x7ff0_0000_0000_0000
        } else {
            let q: u64 = if frac >= 0x40_0000 { frac } else { frac + 0x40_0000 };
            top + 0x7ff0_0000_0000_0000 + q * 0x2000_0000
        }
    } else if exp == 0 {
        if frac == 0 {
            top
        } else {
            let mut m: u64 = frac;
            let mut e: u64 = 897;
            proof {
                lemma2_to64();
            }
            while m < 0x80_0000
                invariant
                    0 < m < 0x100_0000,
                    874 <= e <= 897,
                    m >= pow2((897 - e) as nat),
                    pow2(23) == 0x80_0000,
                    normalize_subnormal(frac as nat, 897) == normalize_subnormal(m as nat, e as int),
                decreases 0x100_0000 - m,
            {
                if e == 874 {
                    assert(false);
                }
                proof {
                    lemma_pow2_unfold((897 - e + 1) as nat);
                }
                m = 2 * m;
                e = e - 1;
            }
            top + e * 0x10_0000_0000_0000 + (m - 0x80_0000) * 0x2000_0000
        }
    } else {
        top + (exp + 896) * 0x10_0000_0000_0000 + frac * 0x2000_0000
    }
}

/// A cursor over a buffer of MessagePack data.
pub struct Decoder<'a> {
    buf: &'a [u8],
    pos: usize,
}

impl<'a> Decoder<'a> {
    /// The bytes being decoded.
    pub closed spec fn bytes(&self) -> Seq<u8> {
        self.buf@
    }

    /// The position of the next byte to decode.
    pub closed spec fn position(&self) -> int {
        self.pos as int
    }

    /// A decoder's position is never negative.
    pub proof fn lemma_position_nonnegative(&self)
        ensures
            0 <= self.position(),
    {
    }

    /// A decoder positioned at the start of `buf`.
    pub fn new(buf: &'a [u8]) -> (d: Self)
        ensures
            d.bytes() == buf@,
            d.position() == 0,
    {
        Self { buf, pos: 0 }
    }

    /// The number of bytes not yet decoded.
    pub open spec fn spec_remaining(&self) -> int {
        if self.position() <= self.bytes().len() {
            self.bytes().len() - self.position()
        } else {
            0
        }
    }

    /// The number of bytes not yet decoded.
    pub fn remaining(&self) -> (n: usize)
        ensures
            n == self.spec_remaining(),
    {
        self.buf.len().saturating_sub(self.pos)
    }

    /// Reads the next byte. A successful read consumes exactly that byte;
    /// a failed one consumes nothing.
    pub fn read_u8(&mut self) -> (res: Result<u8, DecodeError>)
        ensures
            final(self).bytes() == old(self).bytes(),
            res is Ok ==> final(self).spec_remaining() == old(self).spec_remaining() - 1,
            res is Err ==> final(self).position() == old(self).position(),
            match spec_read_u8(old(self).bytes(), old(self).position()) {
                Ok((b, q)) => res matches Ok(x) && x == b && final(self).position() == q,
                Err(e) => res == Err::<u8, DecodeError>(e) && final(self).position() == old(self).position(),
            },
    {
        if self.pos >= self.buf.len() {
            return Err(DecodeError::UnexpectedEofU8);
        }
        let b = self.buf[self.pos];
        self.pos = self.pos + 1;
        Ok(b)
    }

    /// Reads the next `len` bytes. A successful read consumes exactly those
    /// bytes; a failed one consumes nothing.
    pub fn read_slice(&mut self, len: usize) -> (res: Result<&'a [u8], DecodeError>)
        ensures
            final(self).bytes() == old(self).bytes(),
            res is Ok ==> final(self).spec_remaining() == old(self).spec_remaining() - len,
            res is Err ==> final(self).position() == old(self).position(),
            match spec_read_slice(old(self).bytes(), old(self).position(), len as nat) {
                Ok((b, q)) => res matches Ok(r) && r@ == b && final(self).position() == q,
                Err(e) => res == Err::<&'a [u8], DecodeError>(e) && final(self).position() == old(self).position(),
            },
    {
        if self.pos > self.buf.len() || len > self.buf.len() - self.pos {
            return Err(DecodeError::UnexpectedEofSlice(len));
        }
        let s = vstd::slice::slice_subrange(self.buf, self.pos, self.pos + len);
        self.pos = self.pos + len;
        Ok(s)
    }

    fn read_u16(&mut self) -> (res: Result<u16, DecodeError>)
        ensures
            final(self).bytes() == old(self).bytes(),
            match spec_read_uint(old(self).bytes(), old(self).position(), 2) {
                Ok((u, q)) => res matches Ok(x) && x == u && final(self).position() == q,
                Err(e) => res == Err::<u16, DecodeError>(e) && final(self).position() == old(self).position(),
            },
    {
        let s = match self.read_slice(2) {
            Ok(s) => s,
            Err(e) => return Err(e),
        };
        proof {
            reveal_with_fuel(be_uint, 3);
            assert(s@.drop_last().drop_last() =~= Seq::<u8>::empty());
        }
        Ok((s[0] as u16) * 0x100 + (s[1] as u16))
    }

    fn read_u32(&mut self) -> (res: Result<u32, DecodeError>)
        ensures
            final(self).bytes() == old(self).bytes(),
            match spec_read_uint(old(self).bytes(), old(self).position(), 4) {
                Ok((u, q)) => res matches Ok(x) && x == u && final(self).position() == q,
                Err(e) => res == Err::<u32, DecodeError>(e) && final(self).position() == old(self).position(),
            },
    {
        let s = match self.read_slice(4) {
            Ok(s) => s,
            Err(e) => return Err(e),
        };
        proof {
            reveal_with_fuel(be_uint, 5);
            assert(s@.drop_last().drop_last().drop_last().drop_last() =~= Seq::<u8>::empty());
        }
        Ok((s[0] as u32) * 0x100_0000 + (s[1] as u32) * 0x1_0000 + (s[2] as u32) * 0x100 + (s[3] as u32))
    }

    fn read_u64(&mut self) -> (res: Result<u64, DecodeError>)
        ensures
            final(self).bytes() == old(self).bytes(),
            match spec_read_uint(old(self).bytes(), old(self).position(), 8) {
                Ok((u, q)) => res matches Ok(x) && x == u && final(self).position() == q,
                Err(e) => res == Err::<u64, DecodeError>(e) && final(self).position() == old(self).position(),
            },
    {
        let s = match self.read_slice(8) {
            Ok(s) => s,
            Err(e) => return Err(e),
        };
        proof {
            reveal_with_fuel(be_uint, 9);
            assert(s@.drop_last().drop_last().drop_last().drop_last().drop_last().drop_last().drop_last().drop_last()
                =~= Seq::<u8>::empty());
        }
        Ok((s[0] as u64) * 0x100_0000_0000_0000 + (s[1] as u64) * 0x1_0000_0000_0000
            + (s[2] as u64) * 0x100_0000_0000 + (s[3] as u64) * 0x1_0000_0000
            + (s[4] as u64) * 0x100_0000 + (s[5] as u64) * 0x1_0000 + (s[6] as u64) * 0x100
            + (s[7] as u64))
    }

    fn read_i8(&mut self) -> (res: Result<i8, DecodeError>)
        ensures
            final(self).bytes() == old(self).bytes(),
            match spec_read_int(old(self).bytes(), old(self).position(), 1) {
                Ok((i, q)) => res matches Ok(x) && x == i && final(self).position() == q,
                Err(e) => res == Err::<i8, DecodeError>(e) && final(self).position() == old(self).position(),
            },
    {
        let b = match self.read_u8() {
            Ok(b) => b,
            Err(e) => return Err(e),
        };
        if b < 0x80 {
            Ok(b as i8)
        } else {
            Ok((b as i16 - 0x100) as i8)
        }
    }

    fn read_i16(&mut self) -> (res: Result<i16, DecodeError>)
        ensures
            final(self).bytes() == old(self).bytes(),
            match spec_read_int(old(self).bytes(), old(self).position(), 2) {
                Ok((i, q)) => res matches Ok(x) && x == i && final(self).position() == q,
                Err(e) => res == Err::<i16, DecodeError>(e) && final(self).position() == old(self).position(),
            },
    {
        let u = match self.read_u16() {
            Ok(u) => u,
            Err(e) => return Err(e),
        };
        if u < 0x8000 {
            Ok(u as i16)
        } else {
            Ok((u as i32 - 0x1_0000) as i16)
        }
    }

    fn read_i32(&mut self) -> (res: Result<i32, DecodeError>)
        ensures
            final(self).bytes() == old(self).bytes(),
            match spec_read_int(old(self).bytes(), old(self).position(), 4) {
                Ok((i, q)) => res matches Ok(x) && x == i && final(self).position() == q,
                Err(e) => res == Err::<i32, DecodeError>(e) && final(self).position() == old(self).position(),
            },
    {
        let u = match self.read_u32() {
            Ok(u) => u,
            Err(e) => return Err(e),
        };
        if u < 0x8000_0000 {
            Ok(u as i32)
        } else {
            Ok((u as i64 - 0x1_0000_0000) as i32)
        }
    }

    fn read_i64(&mut self) -> (res: Result<i64, DecodeError>)
        ensures
            final(self).bytes() == old(self).bytes(),
            match spec_read_int(old(self).bytes(), old(self).position(), 8) {
                Ok((i, q)) => res matches Ok(x) && x == i && final(self).position() == q,
                Err(e) => res == Err::<i64, DecodeError>(e) && final(self).position() == old(self).position(),
            },
    {
        let u = match self.read_u64() {
            Ok(u) => u,
            Err(e) => return Err(e),
        };
        if u < 0x8000_0000_0000_0000 {
            Ok(u as i64)
        } else {
            Ok((u - 0x8000_0000_0000_0000) as i64 + i64::MIN)
        }
    }

    /// Reads a `k`-byte length or count field.
    fn read_len(&mut self, k: usize) -> (res: Result<usize, DecodeError>)
        requires
            k == 1 || k == 2 || k == 4,
        ensures
            final(self).bytes() == old(self).bytes(),
            match spec_read_uint(old(self).bytes(), old(self).position(), k as nat) {
                Ok((u, q)) => res matches Ok(x) && x == u && final(self).position() == q,
                Err(e) => res == Err::<usize, DecodeError>(e) && final(self).position() == old(self).position(),
            },
    {
        if k == 1 {
            match self.read_u8() {
                Ok(b) => Ok(b as usize),
                Err(e) => Err(e),
            }
        } else if k == 2 {
            match self.read_u16() {
                Ok(u) => Ok(u as usize),
                Err(e) => Err(e),
            }
        } else {
            match self.read_u32() {
                Ok(u) => Ok(u as usize),
                Err(e) => Err(e),
            }
        }
    }

    fn decode_str(&mut self, len: usize) -> (res: Result<Value<'a>, DecodeError>)
        ensures
            old(self).position() <= old(self).bytes().len() ==> final(self).position() <= final(self).bytes().len(),
            final(self).position() == slice_stop(old(self).bytes(), old(self).position(), len as nat),
            final(self).bytes() == old(self).bytes(),
            old(self).position() <= final(self).position(),
            decoded_as(res, spec_decode_str(old(self).bytes(), old(self).position(), len as nat), final(self).position()),
    {
        let bytes = match self.read_slice(len) {
            Ok(b) => b,
            Err(e) => return Err(e),
        };
        match str_from_utf8(bytes) {
            Some(st) => {
                proof {
                    encode_utf8_decode_utf8(st@);
                }
                Ok(Value::String(st))
            },
            None => Err(DecodeError::InvalidUtf8),
        }
    }

    fn decode_str_field(&mut self, k: usize) -> (res: Result<Value<'a>, DecodeError>)
        requires
            k == 1 || k == 2 || k == 4,
        ensures
            old(self).position() <= old(self).bytes().len() ==> final(self).position() <= final(self).bytes().len(),
            final(self).position() == field_slice_stop(old(self).bytes(), old(self).position(), k as nat),
            final(self).bytes() == old(self).bytes(),
            old(self).position() <= final(self).position(),
            decoded_as(res, spec_decode_str_field(old(self).bytes(), old(self).position(), k as nat), final(self).position()),
    {
        let len = match self.read_len(k) {
            Ok(n) => n,
            Err(e) => return Err(e),
        };
        self.decode_str(len)
    }

    fn decode_bin(&mut self, k: usize) -> (res: Result<Value<'a>, DecodeError>)
        requires
            k == 1 || k == 2 || k == 4,
        ensures
            old(self).position() <= old(self).bytes().len() ==> final(self).position() <= final(self).bytes().len(),
            final(self).position() == field_slice_stop(old(self).bytes(), old(self).position(), k as nat),
            final(self).bytes() == old(self).bytes(),
            old(self).position() <= final(self).position(),
            decoded_as(res, spec_decode_bin(old(self).bytes(), old(self).position(), k as nat), final(self).position()),
    {
        let len = match self.read_len(k) {
            Ok(n) => n,
            Err(e) => return Err(e),
        };
        match self.read_slice(len) {
            Ok(b) => Ok(Value::Binary(b)),
            Err(e) => Err(e),
        }
    }

    fn decode_fixext(&mut self, len: usize) -> (res: Result<Value<'a>, DecodeError>)
        ensures
            old(self).position() <= old(self).bytes().len() ==> final(self).position() <= final(self).bytes().len(),
            final(self).position() == fixext_stop(old(self).bytes(), old(self).position(), len as nat),
            final(self).bytes() == old(self).bytes(),
            old(self).position() <= final(self).position(),
            decoded_as(res, spec_decode_fixext(old(self).bytes(), old(self).position(), len as nat), final(self).position()),
    {
        let ext_type = match self.read_i8() {
            Ok(t) => t,
            Err(e) => return Err(e),
        };
        match self.read_slice(len) {
            Ok(b) => Ok(Value::Extension(ext_type, b)),
            Err(e) => Err(e),
        }
    }

    fn decode_ext(&mut self, k: usize) -> (res: Result<Value<'a>, DecodeError>)
        requires
            k == 1 || k == 2 || k == 4,
        ensures
            old(self).position() <= old(self).bytes().len() ==> final(self).position() <= final(self).bytes().len(),
            final(self).position() == ext_stop(old(self).bytes(), old(self).position(), k as nat),
            final(self).bytes() == old(self).bytes(),
            old(self).position() <= final(self).position(),
            decoded_as(res, spec_decode_ext(old(self).bytes(), old(self).position(), k as nat), final(self).position()),
    {
        let len = match self.read_len(k) {
            Ok(n) => n,
            Err(e) => return Err(e),
        };
        self.decode_fixext(len)
    }

    fn decode_int(&mut self, n: usize, signed: bool) -> (res: Result<Value<'a>, DecodeError>)
        requires
            n == 1 || n == 2 || n == 4 || n == 8,
        ensures
            old(self).position() <= old(self).bytes().len() ==> final(self).position() <= final(self).bytes().len(),
            final(self).position() == read_stop(old(self).bytes(), old(self).position(), n as nat),
            final(self).bytes() == old(self).bytes(),
            old(self).position() <= final(self).position(),
            decoded_as(res, spec_decode_int(old(self).bytes(), old(self).position(), n as nat, signed), final(self).position()),
    {
        if n == 8 {
            match self.read_i64() {
                Ok(i) => Ok(Value::Integer(i)),
                Err(e) => Err(e),
            }
        } else if signed {
            if n == 1 {
                match self.read_i8() {
                    Ok(i) => Ok(Value::Integer(i as i64)),
                    Err(e) => Err(e),
                }
            } else if n == 2 {
                match self.read_i16() {
                    Ok(i) => Ok(Value::Integer(i as i64)),
                    Err(e) => Err(e),
                }
            } else {
                match self.read_i32() {
                    Ok(i) => Ok(Value::Integer(i as i64)),
                    Err(e) => Err(e),
                }
            }
        } else {
            match self.read_len(n) {
                Ok(u) => Ok(Value::Integer(u as i64)),
                Err(e) => Err(e),
            }
        }
    }

    #[verifier::rlimit(30)]
    fn decode_items(&mut self, count: usize) -> (res: Result<Vec<Value<'a>>, DecodeError>)
        requires
            old(self).position() <= old(self).bytes().len(),
        ensures
            final(self).position() <= final(self).bytes().len(),
            final(self).position() == decode_items_stop(old(self).bytes(), old(self).position(), count as nat),
            final(self).bytes() == old(self).bytes(),
            old(self).position() <= final(self).position(),
            match spec_decode_items(old(self).bytes(), old(self).position(), count as nat) {
                Ok((ms, q)) => res matches Ok(v) && models(v@) == ms && final(self).position() == q
                    && q <= final(self).bytes().len(),
                Err(e) => res == Err::<Vec<Value<'a>>, DecodeError>(e),
            },
        decreases old(self).bytes().len() - old(self).position(), count + 1,
    {
        let ghost s = self.bytes();
        let ghost start = self.position();
        let mut items: Vec<Value<'a>> = Vec::new();
        let mut k: usize = 0;
        while k < count
            invariant
                s == old(self).bytes(),
                start == old(self).position(),
                self.bytes() == s,
                start <= self.position() <= s.len(),
                k <= count,
                spec_decode_items(s, start, count as nat) == prepend_items(
                    models(items@),
                    spec_decode_items(s, self.position(), (count - k) as nat),
                ),
                decode_items_stop(s, start, count as nat) == decode_items_stop(s, self.position(), (count - k) as nat),
            decreases count - k,
        {
            let ghost before = self.position();
            let ghost done = models(items@);
            let v = match self.decode_value() {
                Ok(v) => v,
                Err(e) => return Err(e),
            };
            proof {
                let rest = spec_decode_items(s, self.position(), (count - k - 1) as nat);
                assert(items@.push(v).subrange(0, items@.len() as int) =~= items@);
                assert(models(items@.push(v)) == done.push(v.model()));
                match rest {
                    Ok((r, q)) => {
                        assert(done.push(v.model()) + r =~= done + (seq![v.model()] + r));
                    },
                    Err(e) => {},
                }
            }
            items.push(v);
            k = k + 1;
        }
        proof {
            assert(models(items@) + Seq::<ValueModel>::empty() =~= models(items@));
        }
        Ok(items)
    }

    #[verifier::rlimit(30)]
    fn decode_pairs(&mut self, count: usize) -> (res: Result<Vec<(Value<'a>, Value<'a>)>, DecodeError>)
        requires
            old(self).position() <= old(self).bytes().len(),
        ensures
            final(self).position() <= final(self).bytes().len(),
            final(self).position() == decode_pairs_stop(old(self).bytes(), old(self).position(), count as nat),
            final(self).bytes() == old(self).bytes(),
            old(self).position() <= final(self).position(),
            match spec_decode_pairs(old(self).bytes(), old(self).position(), count as nat) {
                Ok((ms, q)) => res matches Ok(v) && pair_models(v@) == ms && final(self).position() == q
                    && q <= final(self).bytes().len(),
                Err(e) => res == Err::<Vec<(Value<'a>, Value<'a>)>, DecodeError>(e),
            },
        decreases old(self).bytes().len() - old(self).position(), count + 1,
    {
        let ghost s = self.bytes();
        let ghost start = self.position();
        let mut pairs: Vec<(Value<'a>, Value<'a>)> = Vec::new();
        let mut k: usize = 0;
        while k < count
            invariant
                s == old(self).bytes(),
                start == old(self).position(),
                self.bytes() == s,
                start <= self.position() <= s.len(),
                k <= count,
                spec_decode_pairs(s, start, count as nat) == prepend_pairs(
                    pair_models(pairs@),
                    spec_decode_pairs(s, self.position(), (count - k) as nat),
                ),
                decode_pairs_stop(s, start, count as nat) == decode_pairs_stop(s, self.position(), (count - k) as nat),
            decreases count - k,
        {
            let ghost done = pair_models(pairs@);
            let key = match self.decode_value() {
                Ok(v) => v,
                Err(e) => return Err(e),
            };
            let val = match self.decode_value() {
                Ok(v) => v,
                Err(e) => return Err(e),
            };
            proof {
                let rest = spec_decode_pairs(s, self.position(), (count - k - 1) as nat);
                let pair = (key, val);
                assert(pairs@.push(pair).subrange(0, pairs@.len() as int) =~= pairs@);
                assert(pair_models(pairs@.push(pair)) == done.push((key.model(), val.model())));
                match rest {
                    Ok((r, q)) => {
                        assert(done.push((key.model(), val.model())) + r
                            =~= done + (seq![(key.model(), val.model())] + r));
                    },
                    Err(e) => {},
                }
            }
            pairs.push((key, val));
            k = k + 1;
        }
        proof {
            assert(pair_models(pairs@) + Seq::<(ValueModel, ValueModel)>::empty() =~= pair_models(pairs@));
        }
        Ok(pairs)
    }

    /// Decodes the value at the current position and moves past it.
    #[verifier::rlimit(80)]
    pub fn decode_value(&mut self) -> (res: Result<Value<'a>, DecodeError>)
        ensures
            final(self).position() == spec_decode_stop(old(self).bytes(), old(self).position()),
            final(self).bytes() == old(self).bytes(),
            decoded_as(res, spec_decode_at(old(self).bytes(), old(self).position()), final(self).position()),
            old(self).position() <= final(self).position(),
            res is Ok ==> old(self).position() < final(self).position() <= final(self).bytes().len(),
            old(self).position() <= old(self).bytes().len() ==> final(self).position() <= final(self).bytes().len(),
        decreases old(self).bytes().len() - old(self).position(), 0int,
    {
        let tag = match self.read_u8() {
            Ok(t) => t,
            Err(e) => return Err(e),
        };
        if tag <= 0x7f {
            Ok(Value::Integer(tag as i64))
        } else if tag <= 0x8f {
            match self.decode_pairs((tag - 0x80) as usize) {
                Ok(m) => Ok(Value::MapPairs(m)),
                Err(e) => Err(e),
            }
        } else if tag <= 0x9f {
            match self.decode_items((tag - 0x90) as usize) {
                Ok(a) => Ok(Value::Array(a)),
                Err(e) => Err(e),
            }
        } else if tag <= 0xbf {
            self.decode_str((tag - 0xa0) as usize)
        } else if tag == 0xc0 {
            Ok(Value::Nil)
        } else if tag == 0xc1 {
            Err(DecodeError::UnsupportedTag(tag))
        } else if tag == 0xc2 {
            Ok(Value::Bool(false))
        } else if tag == 0xc3 {
            Ok(Value::Bool(true))
        } else if tag == 0xc4 {
            self.decode_bin(1)
        } else if tag == 0xc5 {
            self.decode_bin(2)
        } else if tag == 0xc6 {
            self.decode_bin(4)
        } else if tag == 0xc7 {
            self.decode_ext(1)
        } else if tag == 0xc8 {
            self.decode_ext(2)
        } else if tag == 0xc9 {
            self.decode_ext(4)
        } else if tag == 0xca {
            match self.read_u32() {
                Ok(bits) => Ok(Value::Float(widen_f32(bits))),
                Err(e) => Err(e),
            }
        } else if tag == 0xcb {
            match self.read_u64() {
                Ok(bits) => Ok(Value::Float(bits)),
                Err(e) => Err(e),
            }
        } else if tag == 0xcc {
            self.decode_int(1, false)
        } else if tag == 0xcd {
            self.decode_int(2, false)
        } else if tag == 0xce {
            self.decode_int(4, false)
        } else if tag == 0xcf {
            self.decode_int(8, false)
        } else if tag == 0xd0 {
            self.decode_int(1, true)
        } else if tag == 0xd1 {
            self.decode_int(2, true)
        } else if tag == 0xd2 {
            self.decode_int(4, true)
        } else if tag == 0xd3 {
            self.decode_int(8, true)
        } else if tag == 0xd4 {
            self.decode_fixext(1)
        } else if tag == 0xd5 {
            self.decode_fixext(2)
        } else if tag == 0xd6 {
            self.decode_fixext(4)
        } else if tag == 0xd7 {
            self.decode_fixext(8)
        } else if tag == 0xd8 {
            self.decode_fixext(16)
        } else if tag == 0xd9 {
            self.decode_str_field(1)
        } else if tag == 0xda {
            self.decode_str_field(2)
        } else if tag == 0xdb {
            self.decode_str_field(4)
        } else if tag == 0xdc || tag == 0xdd {
            let k: usize = if tag == 0xdc { 2 } else { 4 };
            let count = match self.read_len(k) {
                Ok(n) => n,
                Err(e) => return Err(e),
            };
            match self.decode_items(count) {
                Ok(a) => Ok(Value::Array(a)),
                Err(e) => Err(e),
            }
        } else if tag == 0xde || tag == 0xdf {
            let k: usize = if tag == 0xde { 2 } else { 4 };
            let count = match self.read_len(k) {
                Ok(n) => n,
                Err(e) => return Err(e),
            };
            match self.decode_pairs(count) {
                Ok(m) => Ok(Value::MapPairs(m)),
                Err(e) => Err(e),
            }
        } else {
            Ok(Value::Integer(tag as i64 - 0x100))
        }
    }
}

/// Decodes the value at the start of `buf`; bytes after it are ignored.
pub fn decode<'a>(buf: &'a [u8]) -> (res: Result<Value<'a>, DecodeError>)
    ensures
        match spec_decode(buf@) {
            Ok(m) => res matches Ok(v) && v.model() == m,
            Err(e) => res == Err::<Value<'a>, DecodeError>(e),
        },
{
    let mut decoder = Decoder::new(buf);
    decoder.decode_value()
}

} // verus!
