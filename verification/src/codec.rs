use vstd::prelude::*;
use vstd::utf8::{valid_utf8, decode_utf8, encode_utf8};
use vstd::std_specs::iter::IteratorSpec;

verus! {

/// Why a packet payload could not be decoded or encoded.
#[derive(Debug, Clone, PartialEq, Eq)]
pub enum CodecError {
    /// The payload ended in the middle of a value.
    UnexpectedEof,
    /// A VarInt or VarLong ran past its longest legal encoding.
    VarIntTooLarge,
    /// A length prefix was negative.
    NegativeLength(i32),
    /// A length exceeded its protocol maximum.
    PacketTooLarge { actual: usize, maximum: usize },
    /// A string exceeded its maximum length.
    StringTooLong { actual: usize, maximum: usize },
    /// String bytes were not valid UTF-8.
    InvalidUtf8,
    /// The data broke a rule of its format; the text says which.
    InvalidData(String),
    /// Malformed NBT data.
    InvalidNbt,
}

/// A packet as framed on the wire: its id and its payload bytes.
#[derive(Debug, Clone, PartialEq, Eq)]
pub struct RawPacket {
    pub id: i32,
    pub payload: Vec<u8>,
}

impl RawPacket {
    pub fn new(id: i32, payload: Vec<u8>) -> (p: RawPacket)
        ensures
            p.id == id,
            p.payload@ == payload@,
    {
        RawPacket { id, payload }
    }
}

// ---------------------------------------------------------------------------
// Specifications of the wire formats.
// ---------------------------------------------------------------------------

/// Accumulated value of the first `n` bytes of a VarInt: byte `k`
/// contributes its low seven bits at bit `7 * k`, truncated to 32 bits.
pub open spec fn var32_acc(s: Seq<u8>, n: nat) -> u32
    decreases n,
{
    if n == 0 {
        0
    } else {
        var32_acc(s, (n - 1) as nat) | (((s[n - 1] & 0x7f) as u32) << ((7 * (n - 1)) as u32))
    }
}

/// Same as [`var32_acc`] for a VarLong, truncated to 64 bits.
pub open spec fn var64_acc(s: Seq<u8>, n: nat) -> u64
    decreases n,
{
    if n == 0 {
        0
    } else {
        var64_acc(s, (n - 1) as nat) | (((s[n - 1] & 0x7f) as u64) << ((7 * (n - 1)) as u64))
    }
}

/// Length of the variable-length integer at the start of `s`, scanning from
/// byte `i`, with at most `max` bytes allowed: the first byte below 0x80 ends
/// it; running out of bytes is `UnexpectedEof`; needing more than `max`
/// bytes is `VarIntTooLarge`.
pub open spec fn var_scan(s: Seq<u8>, i: nat, max: nat) -> Result<nat, CodecError>
    decreases max - i,
{
    if i >= max {
        Err(CodecError::VarIntTooLarge)
    } else if i >= s.len() {
        Err(CodecError::UnexpectedEof)
    } else if s[i as int] < 0x80 {
        Ok(i + 1)
    } else {
        var_scan(s, i + 1, max)
    }
}

/// Decoding of a VarInt at the start of `s`: its value and its length.
pub open spec fn parse_var_i32(s: Seq<u8>) -> Result<(i32, nat), CodecError> {
    match var_scan(s, 0, 5) {
        Ok(n) => Ok((var32_acc(s, n) as i32, n)),
        Err(e) => Err(e),
    }
}

/// Decoding of a VarLong at the start of `s`: its value and its length.
pub open spec fn parse_var_i64(s: Seq<u8>) -> Result<(i64, nat), CodecError> {
    match var_scan(s, 0, 10) {
        Ok(n) => Ok((var64_acc(s, n) as i64, n)),
        Err(e) => Err(e),
    }
}

/// VarInt encoding of an unsigned 32-bit value: seven bits per byte, low
/// group first, high bit set on every byte but the last.
pub open spec fn encode_var32(v: u32) -> Seq<u8>
    decreases v,
{
    if v < 0x80 {
        seq![v as u8]
    } else {
        proof {
            assert(v >= 0x80 ==> (v >> 7) < v) by (bit_vector);
        }
        seq![((v & 0x7f) | 0x80) as u8] + encode_var32(v >> 7)
    }
}

/// VarLong encoding of an unsigned 64-bit value.
pub open spec fn encode_var64(v: u64) -> Seq<u8>
    decreases v,
{
    if v < 0x80 {
        seq![v as u8]
    } else {
        proof {
            assert(v >= 0x80 ==> (v >> 7) < v) by (bit_vector);
        }
        seq![((v & 0x7f) | 0x80) as u8] + encode_var64(v >> 7)
    }
}

/// VarInt encoding of a signed value (its two's-complement bits).
pub open spec fn encode_var_i32(v: i32) -> Seq<u8> {
    encode_var32(v as u32)
}

/// VarLong encoding of a signed value (its two's-complement bits).
pub open spec fn encode_var_i64(v: i64) -> Seq<u8> {
    encode_var64(v as u64)
}

/// Big-endian unsigned value of the first two bytes.
pub open spec fn be_u16(s: Seq<u8>) -> u16 {
    (((s[0] as u16) << 8u16) | (s[1] as u16)) as u16
}

/// Big-endian value of the first four bytes.
pub open spec fn be_u32(s: Seq<u8>) -> u32 {
    ((s[0] as u32) << 24u32) | ((s[1] as u32) << 16u32) | ((s[2] as u32) << 8u32) | (s[3] as u32)
}

/// Big-endian value of the first eight bytes.
pub open spec fn be_u64(s: Seq<u8>) -> u64 {
    ((s[0] as u64) << 56u64) | ((s[1] as u64) << 48u64) | ((s[2] as u64) << 40u64) | ((s[3] as u64)
        << 32u64) | ((s[4] as u64) << 24u64) | ((s[5] as u64) << 16u64) | ((s[6] as u64) << 8u64)
        | (s[7] as u64)
}

/// Big-endian bytes of a 16-bit value.
pub open spec fn encode_u16_be(v: u16) -> Seq<u8> {
    seq![(v >> 8u16) as u8, (v & 0xff) as u8]
}

/// Number of UTF-16 code units of one character.
pub open spec fn char_units(c: char) -> nat {
    if (c as u32) >= 0x10000 { 2 } else { 1 }
}

/// Number of UTF-16 code units of a character sequence.
pub open spec fn utf16_len(s: Seq<char>) -> nat
    decreases s.len(),
{
    if s.len() == 0 {
        0
    } else {
        char_units(s[0]) + utf16_len(s.drop_first())
    }
}

/// Encoding of a protocol string: the VarInt byte length of its UTF-8
/// bytes, then those bytes.
pub open spec fn encode_string(s: Seq<char>) -> Seq<u8> {
    encode_var_i32(encode_utf8(s).len() as i32) + encode_utf8(s)
}

/// Decoding of a protocol string of at most `max_len` UTF-16 units at the
/// start of `s`: its characters and the bytes it took.
pub open spec fn parse_string(s: Seq<u8>, max_len: nat) -> Result<(Seq<char>, nat), CodecError> {
    match parse_var_i32(s) {
        Err(e) => Err(e),
        Ok((len, n)) => if len < 0 {
            Err(CodecError::NegativeLength(len))
        } else if len > max_len * 4 {
            Err(CodecError::StringTooLong { actual: len as usize, maximum: (max_len * 4) as usize })
        } else if n + len > s.len() {
            Err(CodecError::UnexpectedEof)
        } else if !valid_utf8(s.subrange(n as int, n + len)) {
            Err(CodecError::InvalidUtf8)
        } else if utf16_len(decode_utf8(s.subrange(n as int, n + len))) > max_len {
            Err(CodecError::StringTooLong {
                actual: utf16_len(decode_utf8(s.subrange(n as int, n + len))) as usize,
                maximum: max_len as usize,
            })
        } else {
            Ok((decode_utf8(s.subrange(n as int, n + len)), n + len as nat))
        },
    }
}

// ---------------------------------------------------------------------------
// Round-trip lemmas.
// ---------------------------------------------------------------------------

proof fn lemma_var_scan_prefix(s: Seq<u8>, rest: Seq<u8>, i: nat, max: nat)
    requires
        var_scan(s, i, max) is Ok,
    ensures
        var_scan(s + rest, i, max) == var_scan(s, i, max),
    decreases max - i,
{
    if i < max && i < s.len() && s[i as int] >= 0x80 {
        lemma_var_scan_prefix(s, rest, i + 1, max);
    }
}

/// A successful scan ends within the input, past its starting point.
pub proof fn lemma_var_scan_bound(s: Seq<u8>, i: nat, max: nat)
    ensures
        var_scan(s, i, max) matches Ok(n) ==> i < n <= s.len() && n <= max,
    decreases max - i,
{
    if i < max && i < s.len() && s[i as int] >= 0x80 {
        lemma_var_scan_bound(s, i + 1, max);
    }
}

proof fn lemma_var32_acc_prefix(s: Seq<u8>, rest: Seq<u8>, n: nat)
    requires
        n <= s.len(),
    ensures
        var32_acc(s + rest, n) == var32_acc(s, n),
    decreases n,
{
    if n > 0 {
        lemma_var32_acc_prefix(s, rest, (n - 1) as nat);
    }
}

proof fn lemma_var64_acc_prefix(s: Seq<u8>, rest: Seq<u8>, n: nat)
    requires
        n <= s.len(),
    ensures
        var64_acc(s + rest, n) == var64_acc(s, n),
    decreases n,
{
    if n > 0 {
        lemma_var64_acc_prefix(s, rest, (n - 1) as nat);
    }
}

spec fn cont32(x: u32) -> u8 {
    ((x & 0x7f) | 0x80) as u8
}

spec fn low7_32(b: u8) -> u32 {
    (b & 0x7f) as u32
}

proof fn lemma_var32_bits(v: u32)
    by (bit_vector)
    ensures
        v >> 7u32 == (v >> 7u32),
        (v >> 7u32) >> 7u32 == (v >> 14u32),
        (v >> 14u32) >> 7u32 == (v >> 21u32),
        (v >> 21u32) >> 7u32 == (v >> 28u32),
        v < 0x80u32 ==> v < 0x80,
        v < 0x80u32 ==> (v as u8) < 0x80,
        v < 0x80u32 ==> 0u32 | (low7_32((v as u8)) << 0u32) == v,
        0x80u32 <= v && v < 0x4000u32 ==> v >= 0x80,
        0x80u32 <= v && v < 0x4000u32 ==> cont32(v) >= 0x80,
        0x80u32 <= v && v < 0x4000u32 ==> (v >> 7u32) < 0x80,
        0x80u32 <= v && v < 0x4000u32 ==> ((v >> 7u32) as u8) < 0x80,
        0x80u32 <= v && v < 0x4000u32 ==> 0u32 | (low7_32(cont32(v)) << 0u32) | (low7_32(((v >> 7u32) as u8)) << 7u32) == v,
        0x4000u32 <= v && v < 0x200000u32 ==> v >= 0x80,
        0x4000u32 <= v && v < 0x200000u32 ==> cont32(v) >= 0x80,
        0x4000u32 <= v && v < 0x200000u32 ==> (v >> 7u32) >= 0x80,
        0x4000u32 <= v && v < 0x200000u32 ==> cont32((v >> 7u32)) >= 0x80,
        0x4000u32 <= v && v < 0x200000u32 ==> (v >> 14u32) < 0x80,
        0x4000u32 <= v && v < 0x200000u32 ==> ((v >> 14u32) as u8) < 0x80,
        0x4000u32 <= v && v < 0x200000u32 ==> 0u32 | (low7_32(cont32(v)) << 0u32) | (low7_32(cont32((v >> 7u32))) << 7u32) | (low7_32(((v >> 14u32) as u8)) << 14u32) == v,
        0x200000u32 <= v && v < 0x10000000u32 ==> v >= 0x80,
        0x200000u32 <= v && v < 0x10000000u32 ==> cont32(v) >= 0x80,
        0x200000u32 <= v && v < 0x10000000u32 ==> (v >> 7u32) >= 0x80,
        0x200000u32 <= v && v < 0x10000000u32 ==> cont32((v >> 7u32)) >= 0x80,
        0x200000u32 <= v && v < 0x10000000u32 ==> (v >> 14u32) >= 0x80,
        0x200000u32 <= v && v < 0x10000000u32 ==> cont32((v >> 14u32)) >= 0x80,
        0x200000u32 <= v && v < 0x10000000u32 ==> (v >> 21u32) < 0x80,
        0x200000u32 <= v && v < 0x10000000u32 ==> ((v >> 21u32) as u8) < 0x80,
        0x200000u32 <= v && v < 0x10000000u32 ==> 0u32 | (low7_32(cont32(v)) << 0u32) | (low7_32(cont32((v >> 7u32))) << 7u32) | (low7_32(cont32((v >> 14u32))) << 14u32) | (low7_32(((v >> 21u32) as u8)) << 21u32) == v,
        0x10000000u32 <= v ==> v >= 0x80,
        0x10000000u32 <= v ==> cont32(v) >= 0x80,
        0x10000000u32 <= v ==> (v >> 7u32) >= 0x80,
        0x10000000u32 <= v ==> cont32((v >> 7u32)) >= 0x80,
        0x10000000u32 <= v ==> (v >> 14u32) >= 0x80,
        0x10000000u32 <= v ==> cont32((v >> 14u32)) >= 0x80,
        0x10000000u32 <= v ==> (v >> 21u32) >= 0x80,
        0x10000000u32 <= v ==> cont32((v >> 21u32)) >= 0x80,
        0x10000000u32 <= v ==> (v >> 28u32) < 0x80,
        0x10000000u32 <= v ==> ((v >> 28u32) as u8) < 0x80,
        0x10000000u32 <= v ==> 0u32 | (low7_32(cont32(v)) << 0u32) | (low7_32(cont32((v >> 7u32))) << 7u32) | (low7_32(cont32((v >> 14u32))) << 14u32) | (low7_32(cont32((v >> 21u32))) << 21u32) | (low7_32(((v >> 28u32) as u8)) << 28u32) == v,
{
}

/// Decoding the VarInt encoding of `v`, followed by any bytes, gives back `v`
/// and consumes exactly the encoding.
pub proof fn lemma_var32_roundtrip(v: u32, rest: Seq<u8>)
    ensures
        1 <= encode_var32(v).len() <= 5,
        var_scan(encode_var32(v) + rest, 0, 5) == Ok::<nat, CodecError>(encode_var32(v).len()),
        var32_acc(encode_var32(v) + rest, encode_var32(v).len()) == v,
{
    reveal_with_fuel(encode_var32, 6);
    reveal_with_fuel(var32_acc, 6);
    reveal_with_fuel(var_scan, 7);
    lemma_var32_bits(v);
    let e = encode_var32(v);
    let s = e + rest;
    if v < 0x80u32 {
        assert(e =~= seq![(v as u8)]);
        assert(s[0] == (v as u8));
    } else if v < 0x4000u32 {
        assert(e =~= seq![cont32(v), ((v >> 7u32) as u8)]);
        assert(s[0] == cont32(v));
        assert(s[1] == ((v >> 7u32) as u8));
    } else if v < 0x200000u32 {
        assert(e =~= seq![cont32(v), cont32((v >> 7u32)), ((v >> 14u32) as u8)]);
        assert(s[0] == cont32(v));
        assert(s[1] == cont32((v >> 7u32)));
        assert(s[2] == ((v >> 14u32) as u8));
    } else if v < 0x10000000u32 {
        assert(e =~= seq![cont32(v), cont32((v >> 7u32)), cont32((v >> 14u32)), ((v >> 21u32) as u8)]);
        assert(s[0] == cont32(v));
        assert(s[1] == cont32((v >> 7u32)));
        assert(s[2] == cont32((v >> 14u32)));
        assert(s[3] == ((v >> 21u32) as u8));
    } else {
        assert(e =~= seq![cont32(v), cont32((v >> 7u32)), cont32((v >> 14u32)), cont32((v >> 21u32)), ((v >> 28u32) as u8)]);
        assert(s[0] == cont32(v));
        assert(s[1] == cont32((v >> 7u32)));
        assert(s[2] == cont32((v >> 14u32)));
        assert(s[3] == cont32((v >> 21u32)));
        assert(s[4] == ((v >> 28u32) as u8));
    }
}

spec fn cont64(x: u64) -> u8 {
    ((x & 0x7f) | 0x80) as u8
}

spec fn low7_64(b: u8) -> u64 {
    (b & 0x7f) as u64
}

proof fn lemma_var64_bits(v: u64)
    by (bit_vector)
    ensures
        v >> 7u64 == (v >> 7u64),
        (v >> 7u64) >> 7u64 == (v >> 14u64),
        (v >> 14u64) >> 7u64 == (v >> 21u64),
        (v >> 21u64) >> 7u64 == (v >> 28u64),
        (v >> 28u64) >> 7u64 == (v >> 35u64),
        (v >> 35u64) >> 7u64 == (v >> 42u64),
        (v >> 42u64) >> 7u64 == (v >> 49u64),
        (v >> 49u64) >> 7u64 == (v >> 56u64),
        (v >> 56u64) >> 7u64 == (v >> 63u64),
        v < 0x80u64 ==> v < 0x80,
        v < 0x80u64 ==> (v as u8) < 0x80,
        v < 0x80u64 ==> 0u64 | (low7_64((v as u8)) << 0u64) == v,
        0x80u64 <= v && v < 0x4000u64 ==> v >= 0x80,
        0x80u64 <= v && v < 0x4000u64 ==> cont64(v) >= 0x80,
        0x80u64 <= v && v < 0x4000u64 ==> (v >> 7u64) < 0x80,
        0x80u64 <= v && v < 0x4000u64 ==> ((v >> 7u64) as u8) < 0x80,
        0x80u64 <= v && v < 0x4000u64 ==> 0u64 | (low7_64(cont64(v)) << 0u64) | (low7_64(((v >> 7u64) as u8)) << 7u64) == v,
        0x4000u64 <= v && v < 0x200000u64 ==> v >= 0x80,
        0x4000u64 <= v && v < 0x200000u64 ==> cont64(v) >= 0x80,
        0x4000u64 <= v && v < 0x200000u64 ==> (v >> 7u64) >= 0x80,
        0x4000u64 <= v && v < 0x200000u64 ==> cont64((v >> 7u64)) >= 0x80,
        0x4000u64 <= v && v < 0x200000u64 ==> (v >> 14u64) < 0x80,
        0x4000u64 <= v && v < 0x200000u64 ==> ((v >> 14u64) as u8) < 0x80,
        0x4000u64 <= v && v < 0x200000u64 ==> 0u64 | (low7_64(cont64(v)) << 0u64) | (low7_64(cont64((v >> 7u64))) << 7u64) | (low7_64(((v >> 14u64) as u8)) << 14u64) == v,
        0x200000u64 <= v && v < 0x10000000u64 ==> v >= 0x80,
        0x200000u64 <= v && v < 0x10000000u64 ==> cont64(v) >= 0x80,
        0x200000u64 <= v && v < 0x10000000u64 ==> (v >> 7u64) >= 0x80,
        0x200000u64 <= v && v < 0x10000000u64 ==> cont64((v >> 7u64)) >= 0x80,
        0x200000u64 <= v && v < 0x10000000u64 ==> (v >> 14u64) >= 0x80,
        0x200000u64 <= v && v < 0x10000000u64 ==> cont64((v >> 14u64)) >= 0x80,
        0x200000u64 <= v && v < 0x10000000u64 ==> (v >> 21u64) < 0x80,
        0x200000u64 <= v && v < 0x10000000u64 ==> ((v >> 21u64) as u8) < 0x80,
        0x200000u64 <= v && v < 0x10000000u64 ==> 0u64 | (low7_64(cont64(v)) << 0u64) | (low7_64(cont64((v >> 7u64))) << 7u64) | (low7_64(cont64((v >> 14u64))) << 14u64) | (low7_64(((v >> 21u64) as u8)) << 21u64) == v,
        0x10000000u64 <= v && v < 0x800000000u64 ==> v >= 0x80,
        0x10000000u64 <= v && v < 0x800000000u64 ==> cont64(v) >= 0x80,
        0x10000000u64 <= v && v < 0x800000000u64 ==> (v >> 7u64) >= 0x80,
        0x10000000u64 <= v && v < 0x800000000u64 ==> cont64((v >> 7u64)) >= 0x80,
        0x10000000u64 <= v && v < 0x800000000u64 ==> (v >> 14u64) >= 0x80,
        0x10000000u64 <= v && v < 0x800000000u64 ==> cont64((v >> 14u64)) >= 0x80,
        0x10000000u64 <= v && v < 0x800000000u64 ==> (v >> 21u64) >= 0x80,
        0x10000000u64 <= v && v < 0x800000000u64 ==> cont64((v >> 21u64)) >= 0x80,
        0x10000000u64 <= v && v < 0x800000000u64 ==> (v >> 28u64) < 0x80,
        0x10000000u64 <= v && v < 0x800000000u64 ==> ((v >> 28u64) as u8) < 0x80,
        0x10000000u64 <= v && v < 0x800000000u64 ==> 0u64 | (low7_64(cont64(v)) << 0u64) | (low7_64(cont64((v >> 7u64))) << 7u64) | (low7_64(cont64((v >> 14u64))) << 14u64) | (low7_64(cont64((v >> 21u64))) << 21u64) | (low7_64(((v >> 28u64) as u8)) << 28u64) == v,
        0x800000000u64 <= v && v < 0x40000000000u64 ==> v >= 0x80,
        0x800000000u64 <= v && v < 0x40000000000u64 ==> cont64(v) >= 0x80,
        0x800000000u64 <= v && v < 0x40000000000u64 ==> (v >> 7u64) >= 0x80,
        0x800000000u64 <= v && v < 0x40000000000u64 ==> cont64((v >> 7u64)) >= 0x80,
        0x800000000u64 <= v && v < 0x40000000000u64 ==> (v >> 14u64) >= 0x80,
        0x800000000u64 <= v && v < 0x40000000000u64 ==> cont64((v >> 14u64)) >= 0x80,
        0x800000000u64 <= v && v < 0x40000000000u64 ==> (v >> 21u64) >= 0x80,
        0x800000000u64 <= v && v < 0x40000000000u64 ==> cont64((v >> 21u64)) >= 0x80,
        0x800000000u64 <= v && v < 0x40000000000u64 ==> (v >> 28u64) >= 0x80,
        0x800000000u64 <= v && v < 0x40000000000u64 ==> cont64((v >> 28u64)) >= 0x80,
        0x800000000u64 <= v && v < 0x40000000000u64 ==> (v >> 35u64) < 0x80,
        0x800000000u64 <= v && v < 0x40000000000u64 ==> ((v >> 35u64) as u8) < 0x80,
        0x800000000u64 <= v && v < 0x40000000000u64 ==> 0u64 | (low7_64(cont64(v)) << 0u64) | (low7_64(cont64((v >> 7u64))) << 7u64) | (low7_64(cont64((v >> 14u64))) << 14u64) | (low7_64(cont64((v >> 21u64))) << 21u64) | (low7_64(cont64((v >> 28u64))) << 28u64) | (low7_64(((v >> 35u64) as u8)) << 35u64) == v,
        0x40000000000u64 <= v && v < 0x2000000000000u64 ==> v >= 0x80,
        0x40000000000u64 <= v && v < 0x2000000000000u64 ==> cont64(v) >= 0x80,
        0x40000000000u64 <= v && v < 0x2000000000000u64 ==> (v >> 7u64) >= 0x80,
        0x40000000000u64 <= v && v < 0x2000000000000u64 ==> cont64((v >> 7u64)) >= 0x80,
        0x40000000000u64 <= v && v < 0x2000000000000u64 ==> (v >> 14u64) >= 0x80,
        0x40000000000u64 <= v && v < 0x2000000000000u64 ==> cont64((v >> 14u64)) >= 0x80,
        0x40000000000u64 <= v && v < 0x2000000000000u64 ==> (v >> 21u64) >= 0x80,
        0x40000000000u64 <= v && v < 0x2000000000000u64 ==> cont64((v >> 21u64)) >= 0x80,
        0x40000000000u64 <= v && v < 0x2000000000000u64 ==> (v >> 28u64) >= 0x80,
        0x40000000000u64 <= v && v < 0x2000000000000u64 ==> cont64((v >> 28u64)) >= 0x80,
        0x40000000000u64 <= v && v < 0x2000000000000u64 ==> (v >> 35u64) >= 0x80,
        0x40000000000u64 <= v && v < 0x2000000000000u64 ==> cont64((v >> 35u64)) >= 0x80,
        0x40000000000u64 <= v && v < 0x2000000000000u64 ==> (v >> 42u64) < 0x80,
        0x40000000000u64 <= v && v < 0x2000000000000u64 ==> ((v >> 42u64) as u8) < 0x80,
        0x40000000000u64 <= v && v < 0x2000000000000u64 ==> 0u64 | (low7_64(cont64(v)) << 0u64) | (low7_64(cont64((v >> 7u64))) << 7u64) | (low7_64(cont64((v >> 14u64))) << 14u64) | (low7_64(cont64((v >> 21u64))) << 21u64) | (low7_64(cont64((v >> 28u64))) << 28u64) | (low7_64(cont64((v >> 35u64))) << 35u64) | (low7_64(((v >> 42u64) as u8)) << 42u64) == v,
        0x2000000000000u64 <= v && v < 0x100000000000000u64 ==> v >= 0x80,
        0x2000000000000u64 <= v && v < 0x100000000000000u64 ==> cont64(v) >= 0x80,
        0x2000000000000u64 <= v && v < 0x100000000000000u64 ==> (v >> 7u64) >= 0x80,
        0x2000000000000u64 <= v && v < 0x100000000000000u64 ==> cont64((v >> 7u64)) >= 0x80,
        0x2000000000000u64 <= v && v < 0x100000000000000u64 ==> (v >> 14u64) >= 0x80,
        0x2000000000000u64 <= v && v < 0x100000000000000u64 ==> cont64((v >> 14u64)) >= 0x80,
        0x2000000000000u64 <= v && v < 0x100000000000000u64 ==> (v >> 21u64) >= 0x80,
        0x2000000000000u64 <= v && v < 0x100000000000000u64 ==> cont64((v >> 21u64)) >= 0x80,
        0x2000000000000u64 <= v && v < 0x100000000000000u64 ==> (v >> 28u64) >= 0x80,
        0x2000000000000u64 <= v && v < 0x100000000000000u64 ==> cont64((v >> 28u64)) >= 0x80,
        0x2000000000000u64 <= v && v < 0x100000000000000u64 ==> (v >> 35u64) >= 0x80,
        0x2000000000000u64 <= v && v < 0x100000000000000u64 ==> cont64((v >> 35u64)) >= 0x80,
        0x2000000000000u64 <= v && v < 0x100000000000000u64 ==> (v >> 42u64) >= 0x80,
        0x2000000000000u64 <= v && v < 0x100000000000000u64 ==> cont64((v >> 42u64)) >= 0x80,
        0x2000000000000u64 <= v && v < 0x100000000000000u64 ==> (v >> 49u64) < 0x80,
        0x2000000000000u64 <= v && v < 0x100000000000000u64 ==> ((v >> 49u64) as u8) < 0x80,
        0x2000000000000u64 <= v && v < 0x100000000000000u64 ==> 0u64 | (low7_64(cont64(v)) << 0u64) | (low7_64(cont64((v >> 7u64))) << 7u64) | (low7_64(cont64((v >> 14u64))) << 14u64) | (low7_64(cont64((v >> 21u64))) << 21u64) | (low7_64(cont64((v >> 28u64))) << 28u64) | (low7_64(cont64((v >> 35u64))) << 35u64) | (low7_64(cont64((v >> 42u64))) << 42u64) | (low7_64(((v >> 49u64) as u8)) << 49u64) == v,
        0x100000000000000u64 <= v && v < 0x8000000000000000u64 ==> v >= 0x80,
        0x100000000000000u64 <= v && v < 0x8000000000000000u64 ==> cont64(v) >= 0x80,
        0x100000000000000u64 <= v && v < 0x8000000000000000u64 ==> (v >> 7u64) >= 0x80,
        0x100000000000000u64 <= v && v < 0x8000000000000000u64 ==> cont64((v >> 7u64)) >= 0x80,
        0x100000000000000u64 <= v && v < 0x8000000000000000u64 ==> (v >> 14u64) >= 0x80,
        0x100000000000000u64 <= v && v < 0x8000000000000000u64 ==> cont64((v >> 14u64)) >= 0x80,
        0x100000000000000u64 <= v && v < 0x8000000000000000u64 ==> (v >> 21u64) >= 0x80,
        0x100000000000000u64 <= v && v < 0x8000000000000000u64 ==> cont64((v >> 21u64)) >= 0x80,
        0x100000000000000u64 <= v && v < 0x8000000000000000u64 ==> (v >> 28u64) >= 0x80,
        0x100000000000000u64 <= v && v < 0x8000000000000000u64 ==> cont64((v >> 28u64)) >= 0x80,
        0x100000000000000u64 <= v && v < 0x8000000000000000u64 ==> (v >> 35u64) >= 0x80,
        0x100000000000000u64 <= v && v < 0x8000000000000000u64 ==> cont64((v >> 35u64)) >= 0x80,
        0x100000000000000u64 <= v && v < 0x8000000000000000u64 ==> (v >> 42u64) >= 0x80,
        0x100000000000000u64 <= v && v < 0x8000000000000000u64 ==> cont64((v >> 42u64)) >= 0x80,
        0x100000000000000u64 <= v && v < 0x8000000000000000u64 ==> (v >> 49u64) >= 0x80,
        0x100000000000000u64 <= v && v < 0x8000000000000000u64 ==> cont64((v >> 49u64)) >= 0x80,
        0x100000000000000u64 <= v && v < 0x8000000000000000u64 ==> (v >> 56u64) < 0x80,
        0x100000000000000u64 <= v && v < 0x8000000000000000u64 ==> ((v >> 56u64) as u8) < 0x80,
        0x100000000000000u64 <= v && v < 0x8000000000000000u64 ==> 0u64 | (low7_64(cont64(v)) << 0u64) | (low7_64(cont64((v >> 7u64))) << 7u64) | (low7_64(cont64((v >> 14u64))) << 14u64) | (low7_64(cont64((v >> 21u64))) << 21u64) | (low7_64(cont64((v >> 28u64))) << 28u64) | (low7_64(cont64((v >> 35u64))) << 35u64) | (low7_64(cont64((v >> 42u64))) << 42u64) | (low7_64(cont64((v >> 49u64))) << 49u64) | (low7_64(((v >> 56u64) as u8)) << 56u64) == v,
        0x8000000000000000u64 <= v ==> v >= 0x80,
        0x8000000000000000u64 <= v ==> cont64(v) >= 0x80,
        0x8000000000000000u64 <= v ==> (v >> 7u64) >= 0x80,
        0x8000000000000000u64 <= v ==> cont64((v >> 7u64)) >= 0x80,
        0x8000000000000000u64 <= v ==> (v >> 14u64) >= 0x80,
        0x8000000000000000u64 <= v ==> cont64((v >> 14u64)) >= 0x80,
        0x8000000000000000u64 <= v ==> (v >> 21u64) >= 0x80,
        0x8000000000000000u64 <= v ==> cont64((v >> 21u64)) >= 0x80,
        0x8000000000000000u64 <= v ==> (v >> 28u64) >= 0x80,
        0x8000000000000000u64 <= v ==> cont64((v >> 28u64)) >= 0x80,
        0x8000000000000000u64 <= v ==> (v >> 35u64) >= 0x80,
        0x8000000000000000u64 <= v ==> cont64((v >> 35u64)) >= 0x80,
        0x8000000000000000u64 <= v ==> (v >> 42u64) >= 0x80,
        0x8000000000000000u64 <= v ==> cont64((v >> 42u64)) >= 0x80,
        0x8000000000000000u64 <= v ==> (v >> 49u64) >= 0x80,
        0x8000000000000000u64 <= v ==> cont64((v >> 49u64)) >= 0x80,
        0x8000000000000000u64 <= v ==> (v >> 56u64) >= 0x80,
        0x8000000000000000u64 <= v ==> cont64((v >> 56u64)) >= 0x80,
        0x8000000000000000u64 <= v ==> (v >> 63u64) < 0x80,
        0x8000000000000000u64 <= v ==> ((v >> 63u64) as u8) < 0x80,
        0x8000000000000000u64 <= v ==> 0u64 | (low7_64(cont64(v)) << 0u64) | (low7_64(cont64((v >> 7u64))) << 7u64) | (low7_64(cont64((v >> 14u64))) << 14u64) | (low7_64(cont64((v >> 21u64))) << 21u64) | (low7_64(cont64((v >> 28u64))) << 28u64) | (low7_64(cont64((v >> 35u64))) << 35u64) | (low7_64(cont64((v >> 42u64))) << 42u64) | (low7_64(cont64((v >> 49u64))) << 49u64) | (low7_64(cont64((v >> 56u64))) << 56u64) | (low7_64(((v >> 63u64) as u8)) << 63u64) == v,
{
}

/// Decoding the VarLong encoding of `v`, followed by any bytes, gives back `v`
/// and consumes exactly the encoding.
pub proof fn lemma_var64_roundtrip(v: u64, rest: Seq<u8>)
    ensures
        1 <= encode_var64(v).len() <= 10,
        var_scan(encode_var64(v) + rest, 0, 10) == Ok::<nat, CodecError>(encode_var64(v).len()),
        var64_acc(encode_var64(v) + rest, encode_var64(v).len()) == v,
{
    reveal_with_fuel(encode_var64, 11);
    reveal_with_fuel(var64_acc, 11);
    reveal_with_fuel(var_scan, 12);
    lemma_var64_bits(v);
    let e = encode_var64(v);
    let s = e + rest;
    if v < 0x80u64 {
        assert(e =~= seq![(v as u8)]);
        assert(s[0] == (v as u8));
    } else if v < 0x4000u64 {
        assert(e =~= seq![cont64(v), ((v >> 7u64) as u8)]);
        assert(s[0] == cont64(v));
        assert(s[1] == ((v >> 7u64) as u8));
    } else if v < 0x200000u64 {
        assert(e =~= seq![cont64(v), cont64((v >> 7u64)), ((v >> 14u64) as u8)]);
        assert(s[0] == cont64(v));
        assert(s[1] == cont64((v >> 7u64)));
        assert(s[2] == ((v >> 14u64) as u8));
    } else if v < 0x10000000u64 {
        assert(e =~= seq![cont64(v), cont64((v >> 7u64)), cont64((v >> 14u64)), ((v >> 21u64) as u8)]);
        assert(s[0] == cont64(v));
        assert(s[1] == cont64((v >> 7u64)));
        assert(s[2] == cont64((v >> 14u64)));
        assert(s[3] == ((v >> 21u64) as u8));
    } else if v < 0x800000000u64 {
        assert(e =~= seq![cont64(v), cont64((v >> 7u64)), cont64((v >> 14u64)), cont64((v >> 21u64)), ((v >> 28u64) as u8)]);
        assert(s[0] == cont64(v));
        assert(s[1] == cont64((v >> 7u64)));
        assert(s[2] == cont64((v >> 14u64)));
        assert(s[3] == cont64((v >> 21u64)));
        assert(s[4] == ((v >> 28u64) as u8));
    } else if v < 0x40000000000u64 {
        assert(e =~= seq![cont64(v), cont64((v >> 7u64)), cont64((v >> 14u64)), cont64((v >> 21u64)), cont64((v >> 28u64)), ((v >> 35u64) as u8)]);
        assert(s[0] == cont64(v));
        assert(s[1] == cont64((v >> 7u64)));
        assert(s[2] == cont64((v >> 14u64)));
        assert(s[3] == cont64((v >> 21u64)));
        assert(s[4] == cont64((v >> 28u64)));
        assert(s[5] == ((v >> 35u64) as u8));
    } else if v < 0x2000000000000u64 {
        assert(e =~= seq![cont64(v), cont64((v >> 7u64)), cont64((v >> 14u64)), cont64((v >> 21u64)), cont64((v >> 28u64)), cont64((v >> 35u64)), ((v >> 42u64) as u8)]);
        assert(s[0] == cont64(v));
        assert(s[1] == cont64((v >> 7u64)));
        assert(s[2] == cont64((v >> 14u64)));
        assert(s[3] == cont64((v >> 21u64)));
        assert(s[4] == cont64((v >> 28u64)));
        assert(s[5] == cont64((v >> 35u64)));
        assert(s[6] == ((v >> 42u64) as u8));
    } else if v < 0x100000000000000u64 {
        assert(e =~= seq![cont64(v), cont64((v >> 7u64)), cont64((v >> 14u64)), cont64((v >> 21u64)), cont64((v >> 28u64)), cont64((v >> 35u64)), cont64((v >> 42u64)), ((v >> 49u64) as u8)]);
        assert(s[0] == cont64(v));
        assert(s[1] == cont64((v >> 7u64)));
        assert(s[2] == cont64((v >> 14u64)));
        assert(s[3] == cont64((v >> 21u64)));
        assert(s[4] == cont64((v >> 28u64)));
        assert(s[5] == cont64((v >> 35u64)));
        assert(s[6] == cont64((v >> 42u64)));
        assert(s[7] == ((v >> 49u64) as u8));
    } else if v < 0x8000000000000000u64 {
        assert(e =~= seq![cont64(v), cont64((v >> 7u64)), cont64((v >> 14u64)), cont64((v >> 21u64)), cont64((v >> 28u64)), cont64((v >> 35u64)), cont64((v >> 42u64)), cont64((v >> 49u64)), ((v >> 56u64) as u8)]);
        assert(s[0] == cont64(v));
        assert(s[1] == cont64((v >> 7u64)));
        assert(s[2] == cont64((v >> 14u64)));
        assert(s[3] == cont64((v >> 21u64)));
        assert(s[4] == cont64((v >> 28u64)));
        assert(s[5] == cont64((v >> 35u64)));
        assert(s[6] == cont64((v >> 42u64)));
        assert(s[7] == cont64((v >> 49u64)));
        assert(s[8] == ((v >> 56u64) as u8));
    } else {
        assert(e =~= seq![cont64(v), cont64((v >> 7u64)), cont64((v >> 14u64)), cont64((v >> 21u64)), cont64((v >> 28u64)), cont64((v >> 35u64)), cont64((v >> 42u64)), cont64((v >> 49u64)), cont64((v >> 56u64)), ((v >> 63u64) as u8)]);
        assert(s[0] == cont64(v));
        assert(s[1] == cont64((v >> 7u64)));
        assert(s[2] == cont64((v >> 14u64)));
        assert(s[3] == cont64((v >> 21u64)));
        assert(s[4] == cont64((v >> 28u64)));
        assert(s[5] == cont64((v >> 35u64)));
        assert(s[6] == cont64((v >> 42u64)));
        assert(s[7] == cont64((v >> 49u64)));
        assert(s[8] == cont64((v >> 56u64)));
        assert(s[9] == ((v >> 63u64) as u8));
    }
}


// ---------------------------------------------------------------------------
// Text helpers.
// ---------------------------------------------------------------------------

/// `std::str::from_utf8`: returns a string exactly when the bytes are valid
/// UTF-8, and the returned string's UTF-8 bytes are the input bytes.
#[verifier::external_body]
fn str_from_utf8(bytes: &[u8]) -> (res: Option<&str>)
    ensures
        res is Some <==> valid_utf8(bytes@),
        res matches Some(s) ==> encode_utf8(s@) == bytes@,
{
    std::str::from_utf8(bytes).ok()
}

/// The characters of `s`, in order.
pub fn chars_of(s: &str) -> (v: Vec<char>)
    ensures
        v@ == s@,
{
    broadcast use vstd::string::axiom_spec_iter, vstd::string::next_postcondition;
    let mut it = s.chars();
    let mut v: Vec<char> = Vec::new();
    loop
        invariant
            v@ + it.remaining() == s@,
            it.obeys_prophetic_iter_laws(),
            it.decrease() is Some,
        decreases it.decrease()->0,
    {
        match it.next() {
            Some(c) => {
                v.push(c);
            },
            None => {
                return v;
            },
        }
    }
}

/// Number of UTF-16 code units of `s`.
pub fn utf16_length(s: &Vec<char>) -> (n: u128)
    ensures
        n == utf16_len(s@),
{
    let mut n: u128 = 0;
    let mut i: usize = 0;
    assert(s@.skip(0) =~= s@);
    while i < s.len()
        invariant
            i <= s@.len(),
            n + utf16_len(s@.skip(i as int)) == utf16_len(s@),
            n <= 2 * i,
        decreases s@.len() - i,
    {
        proof {
            assert(s@.skip(i as int).drop_first() =~= s@.skip(i + 1));
        }
        if (s[i] as u32) >= 0x10000 {
            n = n + 2;
        } else {
            n = n + 1;
        }
        i = i + 1;
    }
    proof {
        assert(s@.skip(i as int) =~= Seq::<char>::empty());
    }
    n
}

/// The UTF-8 encoding of a sequence takes at most three bytes per UTF-16 unit.
pub proof fn lemma_utf8_len_le_utf16(s: Seq<char>)
    ensures
        encode_utf8(s).len() <= 3 * utf16_len(s),
    decreases s.len(),
{
    if s.len() > 0 {
        lemma_utf8_len_le_utf16(s.drop_first());
        vstd::utf8::char_is_scalar(s[0]);
    }
}

// ---------------------------------------------------------------------------
// Reading.
// ---------------------------------------------------------------------------

/// A cursor over a packet payload.
#[derive(Clone, Copy)]
pub struct PacketReader<'a> {
    data: &'a [u8],
    pos: usize,
}

impl<'a> PacketReader<'a> {
    /// The cursor is within the payload.
    pub closed spec fn wf(&self) -> bool {
        self.pos <= self.data@.len()
    }

    /// The whole payload, read or not.
    pub closed spec fn source(&self) -> Seq<u8> {
        self.data@
    }

    /// The bytes not yet read.
    pub closed spec fn rest(&self) -> Seq<u8> {
        self.data@.subrange(self.pos as int, self.data@.len() as int)
    }

    /// A cursor at the start of `data`.
    pub fn new(data: &'a [u8]) -> (r: PacketReader<'a>)
        ensures
            r.wf(),
            r.rest() == data@,
    {
        let r = PacketReader { data, pos: 0 };
        proof {
            assert(r.rest() =~= data@);
        }
        r
    }

    /// Number of bytes not yet read.
    pub fn remaining(&self) -> (n: usize)
        requires
            self.wf(),
        ensures
            n == self.rest().len(),
    {
        self.data.len() - self.pos
    }

    /// Whether every byte has been read.
    pub fn is_empty(&self) -> (b: bool)
        requires
            self.wf(),
        ensures
            b == (self.rest().len() == 0),
    {
        self.pos == self.data.len()
    }

    /// Takes the next `n` bytes; fails, consuming nothing, when fewer remain.
    pub fn read_bytes(&mut self, n: usize) -> (res: Result<Vec<u8>, CodecError>)
        requires
            old(self).wf(),
        ensures
            final(self).wf(),
            final(self).source() == old(self).source(),
            n <= old(self).rest().len() ==> res == Ok::<Vec<u8>, CodecError>(res->Ok_0)
                && res->Ok_0@ == old(self).rest().take(n as int)
                && final(self).rest() == old(self).rest().skip(n as int),
            n > old(self).rest().len() ==> res == Err::<Vec<u8>, CodecError>(CodecError::UnexpectedEof)
                && final(self).rest() == old(self).rest(),
    {
        if n > self.data.len() - self.pos {
            return Err(CodecError::UnexpectedEof);
        }
        let slice = &self.data[self.pos..self.pos + n];
        let v = vstd::slice::slice_to_vec(slice);
        self.pos = self.pos + n;
        proof {
            assert(v@ =~= old(self).rest().take(n as int));
            assert(self.rest() =~= old(self).rest().skip(n as int));
        }
        Ok(v)
    }

    /// Takes every remaining byte.
    pub fn read_rest(&mut self) -> (v: Vec<u8>)
        requires
            old(self).wf(),
        ensures
            final(self).wf(),
            final(self).source() == old(self).source(),
            v@ == old(self).rest(),
            final(self).rest().len() == 0,
    {
        let slice = &self.data[self.pos..self.data.len()];
        let v = vstd::slice::slice_to_vec(slice);
        self.pos = self.data.len();
        proof {
            assert(v@ =~= old(self).rest());
        }
        v
    }
}

/// Reads one byte.
pub fn read_u8(input: &mut PacketReader) -> (res: Result<u8, CodecError>)
    requires
        old(input).wf(),
    ensures
        final(input).wf(),
        final(input).source() == old(input).source(),
        old(input).rest().len() >= 1 ==> res == Ok::<u8, CodecError>(old(input).rest()[0])
            && final(input).rest() == old(input).rest().skip(1),
        old(input).rest().len() < 1 ==> res == Err::<u8, CodecError>(CodecError::UnexpectedEof)
            && final(input).rest() == old(input).rest(),
{
    if input.pos >= input.data.len() {
        return Err(CodecError::UnexpectedEof);
    }
    let b = input.data[input.pos];
    input.pos = input.pos + 1;
    proof {
        assert(input.rest() =~= old(input).rest().skip(1));
    }
    Ok(b)
}

/// Reads a boolean byte: any non-zero byte is `true`.
pub fn read_bool(input: &mut PacketReader) -> (res: Result<bool, CodecError>)
    requires
        old(input).wf(),
    ensures
        final(input).wf(),
        final(input).source() == old(input).source(),
        old(input).rest().len() >= 1 ==> res == Ok::<bool, CodecError>(old(input).rest()[0] != 0)
            && final(input).rest() == old(input).rest().skip(1),
        old(input).rest().len() < 1 ==> res == Err::<bool, CodecError>(CodecError::UnexpectedEof)
            && final(input).rest() == old(input).rest(),
{
    match read_u8(input) {
        Ok(b) => Ok(b != 0),
        Err(e) => Err(e),
    }
}

/// Reads a big-endian unsigned 16-bit value.
pub fn read_u16_be(input: &mut PacketReader) -> (res: Result<u16, CodecError>)
    requires
        old(input).wf(),
    ensures
        final(input).wf(),
        final(input).source() == old(input).source(),
        old(input).rest().len() >= 2 ==> res == Ok::<u16, CodecError>(be_u16(old(input).rest()))
            && final(input).rest() == old(input).rest().skip(2),
        old(input).rest().len() < 2 ==> res == Err::<u16, CodecError>(CodecError::UnexpectedEof)
            && final(input).rest() == old(input).rest(),
{
    if input.data.len() - input.pos < 2 {
        return Err(CodecError::UnexpectedEof);
    }
    let p = input.pos;
    let v: u16 = ((input.data[p] as u16) << 8u16) | (input.data[p + 1] as u16);
    input.pos = p + 2;
    proof {
        assert(input.rest() =~= old(input).rest().skip(2));
    }
    Ok(v)
}

/// Reads a big-endian signed 32-bit value.
pub fn read_i32_be(input: &mut PacketReader) -> (res: Result<i32, CodecError>)
    requires
        old(input).wf(),
    ensures
        final(input).wf(),
        final(input).source() == old(input).source(),
        old(input).rest().len() >= 4 ==> res == Ok::<i32, CodecError>(be_u32(old(input).rest()) as i32)
            && final(input).rest() == old(input).rest().skip(4),
        old(input).rest().len() < 4 ==> res == Err::<i32, CodecError>(CodecError::UnexpectedEof)
            && final(input).rest() == old(input).rest(),
{
    if input.data.len() - input.pos < 4 {
        return Err(CodecError::UnexpectedEof);
    }
    let p = input.pos;
    let v: u32 = ((input.data[p] as u32) << 24u32) | ((input.data[p + 1] as u32) << 16u32) | ((
    input.data[p + 2] as u32) << 8u32) | (input.data[p + 3] as u32);
    input.pos = p + 4;
    proof {
        assert(input.rest() =~= old(input).rest().skip(4));
    }
    Ok(v as i32)
}

/// Reads a big-endian signed 64-bit value.
pub fn read_i64_be(input: &mut PacketReader) -> (res: Result<i64, CodecError>)
    requires
        old(input).wf(),
    ensures
        final(input).wf(),
        final(input).source() == old(input).source(),
        old(input).rest().len() >= 8 ==> res == Ok::<i64, CodecError>(be_u64(old(input).rest()) as i64)
            && final(input).rest() == old(input).rest().skip(8),
        old(input).rest().len() < 8 ==> res == Err::<i64, CodecError>(CodecError::UnexpectedEof)
            && final(input).rest() == old(input).rest(),
{
    if input.data.len() - input.pos < 8 {
        return Err(CodecError::UnexpectedEof);
    }
    let p = input.pos;
    let d = input.data;
    let v: u64 = ((d[p] as u64) << 56u64) | ((d[p + 1] as u64) << 48u64) | ((d[p + 2] as u64)
        << 40u64) | ((d[p + 3] as u64) << 32u64) | ((d[p + 4] as u64) << 24u64) | ((d[p + 5] as u64)
        << 16u64) | ((d[p + 6] as u64) << 8u64) | (d[p + 7] as u64);
    input.pos = p + 8;
    proof {
        assert(input.rest() =~= old(input).rest().skip(8));
    }
    Ok(v as i64)
}

/// Reads a VarInt.
pub fn read_var_i32(input: &mut PacketReader) -> (res: Result<i32, CodecError>)
    requires
        old(input).wf(),
    ensures
        final(input).wf(),
        final(input).source() == old(input).source(),
        match parse_var_i32(old(input).rest()) {
            Ok((v, n)) => res == Ok::<i32, CodecError>(v) && final(input).rest() == old(input).rest().skip(n as int),
            Err(e) => res == Err::<i32, CodecError>(e) && final(input).rest() == old(input).rest(),
        },
{
    let ghost s = input.rest();
    let mut result: u32 = 0;
    let mut i: usize = 0;
    loop
        invariant
            input.wf(),
            input.source() == old(input).source(),
            input.rest() == s,
            s == old(input).rest(),
            *input == *old(input),
            i < 5,
            result == var32_acc(s, i as nat),
            var_scan(s, 0, 5) == var_scan(s, i as nat, 5),
        decreases 5 - i,
    {
        if i >= input.data.len() - input.pos {
            return Err(CodecError::UnexpectedEof);
        }
        let b = input.data[input.pos + i];
        assert(b == s[i as int]);
        result = result | (((b & 0x7f) as u32) << ((7 * i) as u32));
        i = i + 1;
        if b < 0x80 {
            input.pos = input.pos + i;
            proof {
                assert(input.rest() =~= s.skip(i as int));
            }
            return Ok(#[verifier::truncate] (result as i32));
        }
        if i == 5 {
            return Err(CodecError::VarIntTooLarge);
        }
    }
}

/// Reads a VarLong.
pub fn read_var_i64(input: &mut PacketReader) -> (res: Result<i64, CodecError>)
    requires
        old(input).wf(),
    ensures
        final(input).wf(),
        final(input).source() == old(input).source(),
        match parse_var_i64(old(input).rest()) {
            Ok((v, n)) => res == Ok::<i64, CodecError>(v) && final(input).rest() == old(input).rest().skip(n as int),
            Err(e) => res == Err::<i64, CodecError>(e) && final(input).rest() == old(input).rest(),
        },
{
    let ghost s = input.rest();
    let mut result: u64 = 0;
    let mut i: usize = 0;
    loop
        invariant
            input.wf(),
            input.source() == old(input).source(),
            input.rest() == s,
            s == old(input).rest(),
            *input == *old(input),
            i < 10,
            result == var64_acc(s, i as nat),
            var_scan(s, 0, 10) == var_scan(s, i as nat, 10),
        decreases 10 - i,
    {
        if i >= input.data.len() - input.pos {
            return Err(CodecError::UnexpectedEof);
        }
        let b = input.data[input.pos + i];
        assert(b == s[i as int]);
        result = result | (((b & 0x7f) as u64) << ((7 * i) as u64));
        i = i + 1;
        if b < 0x80 {
            input.pos = input.pos + i;
            proof {
                assert(input.rest() =~= s.skip(i as int));
            }
            return Ok(#[verifier::truncate] (result as i64));
        }
        if i == 10 {
            return Err(CodecError::VarIntTooLarge);
        }
    }
}

// ---------------------------------------------------------------------------
// Writing.
// ---------------------------------------------------------------------------

/// Appends the VarInt encoding of `value`.
pub fn write_var_i32(value: i32, out: &mut Vec<u8>)
    ensures
        final(out)@ == old(out)@ + encode_var_i32(value),
{
    let mut v: u32 = value as u32;
    let ghost start = out@;
    loop
        invariant
            start + encode_var32(v) == old(out)@ + encode_var_i32(value),
            out@ == start,
        decreases v,
    {
        if v < 0x80 {
            out.push(v as u8);
            proof {
                assert(out@ =~= start + encode_var32(v));
            }
            return;
        }
        let b: u8 = ((v & 0x7f) | 0x80) as u8;
        out.push(b);
        proof {
            assert(v >= 0x80 ==> (v >> 7) < v) by (bit_vector);
            assert(start + encode_var32(v) =~= out@ + encode_var32(v >> 7));
            start = out@;
        }
        v = v >> 7;
    }
}

/// Appends the VarLong encoding of `value`.
pub fn write_var_i64(value: i64, out: &mut Vec<u8>)
    ensures
        final(out)@ == old(out)@ + encode_var_i64(value),
{
    let mut v: u64 = value as u64;
    let ghost start = out@;
    loop
        invariant
            start + encode_var64(v) == old(out)@ + encode_var_i64(value),
            out@ == start,
        decreases v,
    {
        if v < 0x80 {
            out.push(v as u8);
            proof {
                assert(out@ =~= start + encode_var64(v));
            }
            return;
        }
        let b: u8 = ((v & 0x7f) | 0x80) as u8;
        out.push(b);
        proof {
            assert(v >= 0x80 ==> (v >> 7) < v) by (bit_vector);
            assert(start + encode_var64(v) =~= out@ + encode_var64(v >> 7));
            start = out@;
        }
        v = v >> 7;
    }
}

/// Appends the big-endian bytes of `value`.
pub fn write_u16_be(value: u16, out: &mut Vec<u8>)
    ensures
        final(out)@ == old(out)@ + encode_u16_be(value),
{
    out.push((value >> 8u16) as u8);
    out.push((value & 0xff) as u8);
    proof {
        assert(out@ =~= old(out)@ + encode_u16_be(value));
    }
}


/// Reads a protocol string of at most `max_len` UTF-16 units.
pub fn read_string(input: &mut PacketReader, max_len: usize) -> (res: Result<String, CodecError>)
    requires
        old(input).wf(),
    ensures
        final(input).wf(),
        final(input).source() == old(input).source(),
        match parse_string(old(input).rest(), max_len as nat) {
            Ok((chars, n)) => res is Ok && res->Ok_0@ == chars && final(input).rest() == old(input).rest().skip(n as int),
            Err(e) => res == Err::<String, CodecError>(e) && final(input).rest() == old(input).rest(),
        },
{
    let ghost s0 = input.rest();
    let save = input.pos;
    let len = match read_var_i32(input) {
        Ok(l) => l,
        Err(e) => {
            return Err(e);
        },
    };
    let ghost n = parse_var_i32(s0)->Ok_0.1;
    proof {
        lemma_var_scan_bound(s0, 0, 5);
        assert(input.rest() == s0.skip(n as int));
        assert(input.rest().len() == s0.len() - n);
        assert(input.pos == save + n);
    }
    if len < 0 {
        input.pos = save;
        return Err(CodecError::NegativeLength(len));
    }
    let ulen = len as usize;
    match max_len.checked_mul(4) {
        Some(limit) => {
            if ulen > limit {
                input.pos = save;
                return Err(CodecError::StringTooLong { actual: ulen, maximum: limit });
            }
        },
        None => {},
    }
    if ulen > input.data.len() - input.pos {
        input.pos = save;
        return Err(CodecError::UnexpectedEof);
    }
    let start = input.pos;
    let bytes = &input.data[start..start + ulen];
    proof {
        assert(bytes@ =~= s0.subrange(n as int, (n + ulen) as int));
    }
    match str_from_utf8(bytes) {
        None => {
            input.pos = save;
            Err(CodecError::InvalidUtf8)
        },
        Some(text) => {
            let chars = chars_of(text);
            let units = utf16_length(&chars);
            proof {
                vstd::utf8::encode_utf8_decode_utf8(text@);
            }
            if units > max_len as u128 {
                input.pos = save;
                return Err(CodecError::StringTooLong { actual: #[verifier::truncate] (units as usize), maximum: max_len });
            }
            input.pos = start + ulen;
            proof {
                assert(input.rest() =~= s0.skip(n + ulen));
            }
            Ok(text.to_owned())
        },
    }
}

/// Decoding of a string with a two-byte big-endian byte length (the form
/// of tag names and string tags): its characters and the bytes it took.
pub open spec fn parse_short_string(s: Seq<u8>) -> Result<(Seq<char>, nat), CodecError> {
    if s.len() < 2 {
        Err(CodecError::UnexpectedEof)
    } else if 2 + be_u16(s) > s.len() {
        Err(CodecError::UnexpectedEof)
    } else if !valid_utf8(s.subrange(2, 2 + be_u16(s))) {
        Err(CodecError::InvalidUtf8)
    } else {
        Ok((decode_utf8(s.subrange(2, 2 + be_u16(s))), (2 + be_u16(s)) as nat))
    }
}

/// Reads a string with a two-byte length; on failure nothing is consumed.
pub fn read_short_string(input: &mut PacketReader) -> (res: Result<String, CodecError>)
    requires
        old(input).wf(),
    ensures
        final(input).wf(),
        final(input).source() == old(input).source(),
        match parse_short_string(old(input).rest()) {
            Ok((chars, n)) => res is Ok && res->Ok_0@ == chars && final(input).rest() == old(input).rest().skip(n as int),
            Err(e) => res == Err::<String, CodecError>(e) && final(input).rest() == old(input).rest(),
        },
{
    let ghost s0 = input.rest();
    let save = input.pos;
    let len = match read_u16_be(input) {
        Ok(l) => l as usize,
        Err(e) => {
            return Err(e);
        },
    };
    proof {
        assert(input.rest() == s0.skip(2));
        assert(input.rest().len() == s0.len() - 2);
        assert(input.pos == save + 2);
    }
    if len > input.data.len() - input.pos {
        input.pos = save;
        return Err(CodecError::UnexpectedEof);
    }
    let start = input.pos;
    let bytes = &input.data[start..start + len];
    proof {
        assert(bytes@ =~= s0.subrange(2, 2 + len));
    }
    match str_from_utf8(bytes) {
        None => {
            input.pos = save;
            Err(CodecError::InvalidUtf8)
        },
        Some(text) => {
            proof {
                vstd::utf8::encode_utf8_decode_utf8(text@);
            }
            input.pos = start + len;
            proof {
                assert(input.rest() =~= s0.skip(2 + len));
            }
            Ok(text.to_owned())
        },
    }
}

/// Appends a protocol string of at most `max_len` UTF-16 units; fails,
/// writing nothing, when the string is longer or its UTF-8 bytes do not fit
/// a VarInt length.
pub fn write_string(text: &str, max_len: usize, out: &mut Vec<u8>) -> (res: Result<(), CodecError>)
    ensures
        utf16_len(text@) > max_len ==> res == Err::<(), CodecError>(CodecError::StringTooLong {
            actual: utf16_len(text@) as usize,
            maximum: max_len,
        }) && final(out)@ == old(out)@,
        utf16_len(text@) <= max_len && encode_utf8(text@).len() > 0x7fff_ffff ==> res
            == Err::<(), CodecError>(CodecError::PacketTooLarge {
            actual: encode_utf8(text@).len() as usize,
            maximum: 0x7fff_ffff,
        }) && final(out)@ == old(out)@,
        utf16_len(text@) <= max_len && encode_utf8(text@).len() <= 0x7fff_ffff ==> res is Ok
            && final(out)@ == old(out)@ + encode_string(text@),
{
    let chars = chars_of(text);
    let units = utf16_length(&chars);
    if units > max_len as u128 {
        return Err(CodecError::StringTooLong { actual: #[verifier::truncate] (units as usize), maximum: max_len });
    }
    let bytes = text.as_bytes();
    if bytes.len() > 0x7fff_ffff {
        return Err(CodecError::PacketTooLarge { actual: bytes.len(), maximum: 0x7fff_ffff });
    }
    write_var_i32(bytes.len() as i32, out);
    let ghost mid = out@;
    out.extend_from_slice(bytes);
    proof {
        assert(out@ =~= mid + encode_utf8(text@));
    }
    Ok(())
}

// ---------------------------------------------------------------------------
// Laws of the codec.
// ---------------------------------------------------------------------------

proof fn lemma_i32_u32_cast(v: i32)
    by (bit_vector)
    ensures
        (v as u32) as i32 == v,
{
}

proof fn lemma_i64_u64_cast(v: i64)
    by (bit_vector)
    ensures
        (v as u64) as i64 == v,
{
}

/// Reading a VarInt back from its encoding, followed by anything, gives the
/// written value and consumes exactly the encoding, which is one to five
/// bytes long.
pub proof fn lemma_var_i32_roundtrip(v: i32, rest: Seq<u8>)
    ensures
        1 <= encode_var_i32(v).len() <= 5,
        parse_var_i32(encode_var_i32(v) + rest) == Ok::<(i32, nat), CodecError>((v, encode_var_i32(v).len())),
{
    lemma_var32_roundtrip(v as u32, rest);
    lemma_i32_u32_cast(v);
}

/// Reading a VarLong back from its encoding, followed by anything, gives the
/// written value and consumes exactly the encoding, which is one to ten
/// bytes long.
pub proof fn lemma_var_i64_roundtrip(v: i64, rest: Seq<u8>)
    ensures
        1 <= encode_var_i64(v).len() <= 10,
        parse_var_i64(encode_var_i64(v) + rest) == Ok::<(i64, nat), CodecError>((v, encode_var_i64(v).len())),
{
    lemma_var64_roundtrip(v as u64, rest);
    lemma_i64_u64_cast(v);
}

/// Reading a string back from what writing it produced, followed by
/// anything, gives the written characters and consumes exactly the written
/// bytes, for every string that writing accepts with the same maximum.
pub proof fn lemma_string_roundtrip(text: Seq<char>, max_len: nat, rest: Seq<u8>)
    requires
        utf16_len(text) <= max_len,
        encode_utf8(text).len() <= 0x7fff_ffff,
    ensures
        parse_string(encode_string(text) + rest, max_len) == Ok::<(Seq<char>, nat), CodecError>(
            (text, encode_string(text).len()),
        ),
{
    let b = encode_utf8(text);
    let len = b.len() as i32;
    let e = encode_var_i32(len);
    let whole = encode_string(text) + rest;
    assert(whole =~= e + (b + rest));
    lemma_var_i32_roundtrip(len, b + rest);
    lemma_utf8_len_le_utf16(text);
    let n = e.len();
    assert(whole.subrange(n as int, (n + b.len()) as int) =~= b);
    vstd::utf8::encode_utf8_valid_utf8(text);
    vstd::utf8::encode_utf8_decode_utf8(text);
}


/// Decoding of `count` consecutive VarInts.
pub open spec fn parse_var_list(s: Seq<u8>, count: nat) -> Result<(Seq<i32>, nat), CodecError>
    decreases count,
{
    if count == 0 {
        Ok((Seq::<i32>::empty(), 0))
    } else {
        match parse_var_list(s, (count - 1) as nat) {
            Err(e) => Err(e),
            Ok((vs, n)) => match parse_var_i32(s.skip(n as int)) {
                Err(e) => Err(e),
                Ok((v, m)) => Ok((vs.push(v), n + m)),
            },
        }
    }
}

/// Decoding of `count` consecutive big-endian 64-bit words.
pub open spec fn parse_long_list(s: Seq<u8>, count: nat) -> Result<(Seq<u64>, nat), CodecError>
    decreases count,
{
    if count == 0 {
        Ok((Seq::<u64>::empty(), 0))
    } else {
        match parse_long_list(s, (count - 1) as nat) {
            Err(e) => Err(e),
            Ok((vs, n)) => if s.len() < n + 8 {
                Err(CodecError::UnexpectedEof)
            } else {
                Ok((vs.push(be_u64(s.skip(n as int))), n + 8))
            },
        }
    }
}

/// Bytes taken by the whole VarInts read before a list of `count` of them
/// fails.
pub open spec fn var_list_taken(s: Seq<u8>, count: nat) -> nat
    decreases count,
{
    if count == 0 {
        0
    } else {
        match parse_var_list(s, (count - 1) as nat) {
            Err(_) => var_list_taken(s, (count - 1) as nat),
            Ok((_, n)) => n,
        }
    }
}

/// Bytes taken by the whole words read before a list of `count` of them
/// fails.
pub open spec fn long_list_taken(s: Seq<u8>, count: nat) -> nat
    decreases count,
{
    if count == 0 {
        0
    } else {
        match parse_long_list(s, (count - 1) as nat) {
            Err(_) => long_list_taken(s, (count - 1) as nat),
            Ok((_, n)) => n,
        }
    }
}

proof fn lemma_var_list_err(s: Seq<u8>, k: nat, count: nat)
    requires
        k <= count,
        parse_var_list(s, k) is Err,
    ensures
        parse_var_list(s, count) == parse_var_list(s, k),
        var_list_taken(s, count) == var_list_taken(s, k),
    decreases count - k,
{
    if k < count {
        lemma_var_list_err(s, k, (count - 1) as nat);
    }
}

proof fn lemma_long_list_err(s: Seq<u8>, k: nat, count: nat)
    requires
        k <= count,
        parse_long_list(s, k) is Err,
    ensures
        parse_long_list(s, count) == parse_long_list(s, k),
        long_list_taken(s, count) == long_list_taken(s, k),
    decreases count - k,
{
    if k < count {
        lemma_long_list_err(s, k, (count - 1) as nat);
    }
}

proof fn lemma_u64_i64_cast(v: u64)
    by (bit_vector)
    ensures
        (v as i64) as u64 == v,
{
}

/// Reads `count` consecutive VarInts; on failure the whole ones before the
/// failing one stay read.
pub fn read_var_list(input: &mut PacketReader, count: usize) -> (res: Result<Vec<i32>, CodecError>)
    requires
        old(input).wf(),
    ensures
        final(input).wf(),
        final(input).source() == old(input).source(),
        match parse_var_list(old(input).rest(), count as nat) {
            Ok((vs, n)) => res is Ok && res->Ok_0@ == vs && final(input).rest() == old(input).rest().skip(n as int),
            Err(e) => res == Err::<Vec<i32>, CodecError>(e) && final(input).rest() == old(input).rest().skip(
                var_list_taken(old(input).rest(), count as nat) as int,
            ),
        },
{
    let ghost s = input.rest();
    let ghost mut consumed: nat = 0;
    let mut out: Vec<i32> = Vec::new();
    let mut i: usize = 0;
    assert(s.skip(0) =~= s);
    while i < count
        invariant
            input.wf(),
            input.source() == old(input).source(),
            s == old(input).rest(),
            i <= count,
            parse_var_list(s, i as nat) == Ok::<(Seq<i32>, nat), CodecError>((out@, consumed)),
            input.rest() == s.skip(consumed as int),
            consumed <= s.len(),
        decreases count - i,
    {
        let v = match read_var_i32(input) {
            Ok(v) => v,
            Err(e) => {
                proof {
                    lemma_var_list_err(s, (i + 1) as nat, count as nat);
                }
                return Err(e);
            },
        };
        proof {
            let k = parse_var_i32(s.skip(consumed as int))->Ok_0.1;
            lemma_var_scan_bound(s.skip(consumed as int), 0, 5);
            assert(input.rest() =~= s.skip((consumed + k) as int));
            consumed = consumed + k;
        }
        out.push(v);
        i = i + 1;
    }
    Ok(out)
}

/// Reads `count` consecutive big-endian 64-bit words; on failure the whole
/// words before the failing one stay read.
pub fn read_long_list(input: &mut PacketReader, count: usize) -> (res: Result<Vec<u64>, CodecError>)
    requires
        old(input).wf(),
    ensures
        final(input).wf(),
        final(input).source() == old(input).source(),
        match parse_long_list(old(input).rest(), count as nat) {
            Ok((vs, n)) => res is Ok && res->Ok_0@ == vs && final(input).rest() == old(input).rest().skip(n as int),
            Err(e) => res == Err::<Vec<u64>, CodecError>(e) && final(input).rest() == old(input).rest().skip(
                long_list_taken(old(input).rest(), count as nat) as int,
            ),
        },
{
    let ghost s = input.rest();
    let ghost mut consumed: nat = 0;
    let mut out: Vec<u64> = Vec::new();
    let mut i: usize = 0;
    assert(s.skip(0) =~= s);
    while i < count
        invariant
            input.wf(),
            input.source() == old(input).source(),
            s == old(input).rest(),
            i <= count,
            parse_long_list(s, i as nat) == Ok::<(Seq<u64>, nat), CodecError>((out@, consumed)),
            input.rest() == s.skip(consumed as int),
            consumed <= s.len(),
        decreases count - i,
    {
        let v = match read_i64_be(input) {
            Ok(v) => v,
            Err(e) => {
                proof {
                    lemma_long_list_err(s, (i + 1) as nat, count as nat);
                }
                return Err(e);
            },
        };
        proof {
            lemma_u64_i64_cast(be_u64(s.skip(consumed as int)));
            assert(input.rest() =~= s.skip((consumed + 8) as int));
            consumed = consumed + 8;
        }
        out.push(#[verifier::truncate] (v as u64));
        i = i + 1;
    }
    Ok(out)
}

} // verus!
