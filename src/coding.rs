//! Byte-level codecs: base-128 varints, little-endian fixed-width integers and
//! length-prefixed byte strings.

use vstd::bytes::*;
use vstd::prelude::*;

verus! {

/// `128` raised to the `k`-th power.
pub open spec fn pow128(k: nat) -> nat
    decreases k,
{
    if k == 0 {
        1
    } else {
        128 * pow128((k - 1) as nat)
    }
}

/// The base-128 varint of `v`: seven bits per byte, least significant group
/// first, the high bit set on every byte but the last.
pub open spec fn varint_encoding(v: nat) -> Seq<u8>
    decreases v,
{
    if v < 128 {
        seq![v as u8]
    } else {
        seq![(v % 128 + 128) as u8] + varint_encoding(v / 128)
    }
}

/// The varint at the start of `s`, reading at most `limit` bytes: its value and
/// the number of bytes it takes, or `None` when no final byte comes in time.
pub open spec fn varint_decoding(s: Seq<u8>, limit: nat) -> Option<(nat, nat)>
    decreases limit,
{
    if limit == 0 || s.len() == 0 {
        None
    } else if s[0] < 128 {
        Some((s[0] as nat, 1nat))
    } else {
        match varint_decoding(s.drop_first(), (limit - 1) as nat) {
            Some((v, n)) => Some((((s[0] - 128) + 128 * v) as nat, n + 1)),
            None => None,
        }
    }
}

/// A 32-bit varint at the start of `s`: at most five bytes, and a value that
/// fits the width.
pub open spec fn varint32_decoding(s: Seq<u8>) -> Option<(u32, nat)> {
    match varint_decoding(s, 5) {
        Some((v, n)) => if v <= u32::MAX {
            Some((v as u32, n))
        } else {
            None
        },
        None => None,
    }
}

/// A 64-bit varint at the start of `s`: at most ten bytes, and a value that
/// fits the width.
pub open spec fn varint64_decoding(s: Seq<u8>) -> Option<(u64, nat)> {
    match varint_decoding(s, 10) {
        Some((v, n)) => if v <= u64::MAX {
            Some((v as u64, n))
        } else {
            None
        },
        None => None,
    }
}

/// A byte string prefixed with the 32-bit varint of its length.
pub open spec fn length_prefixed(data: Seq<u8>) -> Seq<u8> {
    varint_encoding(data.len()) + data
}

/// The length-prefixed byte string at the start of `s`, with the number of
/// bytes it takes.
pub open spec fn length_prefixed_decoding(s: Seq<u8>) -> Option<(Seq<u8>, nat)> {
    match varint32_decoding(s) {
        Some((len, n)) => if n + len <= s.len() {
            Some((s.subrange(n as int, n + len), (n + len) as nat))
        } else {
            None
        },
        None => None,
    }
}

proof fn lemma_varint_length(v: nat, k: nat)
    requires
        v < pow128(k),
        k >= 1,
    ensures
        1 <= varint_encoding(v).len() <= k,
    decreases v,
{
    if v >= 128 {
        let p = pow128((k - 1) as nat);
        assert(v / 128 < p) by (nonlinear_arith)
            requires
                v < 128 * p,
        ;
        lemma_varint_length(v / 128, (k - 1) as nat);
    }
}

pub proof fn lemma_varint_decoding_length(s: Seq<u8>, limit: nat)
    ensures
        varint_decoding(s, limit) matches Some((v, n)) ==> 1 <= n <= limit && n <= s.len(),
    decreases limit,
{
    if limit > 0 && s.len() > 0 && s[0] >= 128 {
        lemma_varint_decoding_length(s.drop_first(), (limit - 1) as nat);
    }
}

/// Decoding a varint reads only its own bytes.
pub proof fn lemma_varint_decoding_extends(s: Seq<u8>, t: Seq<u8>, limit: nat)
    requires
        varint_decoding(s, limit) is Some,
    ensures
        varint_decoding(s + t, limit) == varint_decoding(s, limit),
    decreases limit,
{
    assert((s + t)[0] == s[0]);
    if s[0] >= 128 {
        assert((s + t).drop_first() =~= s.drop_first() + t);
        lemma_varint_decoding_extends(s.drop_first(), t, (limit - 1) as nat);
    }
}

/// A varint of a 64-bit value takes one to ten bytes, of a 32-bit value one to five.
pub proof fn lemma_varint_length_bounds(v: nat)
    ensures
        1 <= varint_encoding(v).len(),
        v <= u64::MAX ==> varint_encoding(v).len() <= 10,
        v <= u32::MAX ==> varint_encoding(v).len() <= 5,
    decreases v,
{
    reveal_with_fuel(pow128, 11);
    if v <= u32::MAX {
        lemma_varint_length(v, 5);
    } else if v <= u64::MAX {
        lemma_varint_length(v, 10);
    } else if v >= 128 {
        lemma_varint_length_bounds(v / 128);
    }
}

/// Decoding a varint, whatever follows it, gives back its value and length.
pub proof fn lemma_varint_decodes(v: nat, rest: Seq<u8>, limit: nat)
    requires
        varint_encoding(v).len() <= limit,
    ensures
        varint_decoding(varint_encoding(v) + rest, limit) == Some((v, varint_encoding(v).len())),
    decreases v,
{
    let s = varint_encoding(v) + rest;
    if v >= 128 {
        let tail = varint_encoding(v / 128);
        assert(s.drop_first() =~= tail + rest);
        lemma_varint_decodes(v / 128, rest, (limit - 1) as nat);
    }
}

/// Round trip of a 64-bit varint: decoding the encoding of `v` gives `v` and the
/// encoding's length, which lies between one and ten.
pub proof fn lemma_varint64_round_trip(v: u64, rest: Seq<u8>)
    ensures
        varint64_decoding(varint_encoding(v as nat) + rest) == Some(
            (v, varint_encoding(v as nat).len()),
        ),
        1 <= varint_encoding(v as nat).len() <= 10,
{
    lemma_varint_length_bounds(v as nat);
    lemma_varint_decodes(v as nat, rest, 10);
}

/// Round trip of a 32-bit varint: decoding the encoding of `v` gives `v` and the
/// encoding's length, which lies between one and five.
pub proof fn lemma_varint32_round_trip(v: u32, rest: Seq<u8>)
    ensures
        varint32_decoding(varint_encoding(v as nat) + rest) == Some(
            (v, varint_encoding(v as nat).len()),
        ),
        1 <= varint_encoding(v as nat).len() <= 5,
{
    lemma_varint_length_bounds(v as nat);
    lemma_varint_decodes(v as nat, rest, 5);
}

/// Round trip of a length-prefixed byte string: decoding gives back `data` and
/// the number of bytes taken, the prefix's length plus the data's.
pub proof fn lemma_length_prefixed_round_trip(data: Seq<u8>, rest: Seq<u8>)
    requires
        data.len() <= u32::MAX,
    ensures
        length_prefixed_decoding(length_prefixed(data) + rest) == Some(
            (data, varint_encoding(data.len()).len() + data.len()),
        ),
{
    let enc = varint_encoding(data.len());
    let s = length_prefixed(data) + rest;
    assert(s =~= enc + (data + rest));
    lemma_varint32_round_trip(data.len() as u32, data + rest);
    assert(s.subrange(enc.len() as int, (enc.len() + data.len()) as int) =~= data);
}

/// Appends the varint of `value` to `buf`; returns the number of bytes added.
pub fn put_varint64(buf: &mut Vec<u8>, value: u64) -> (n: usize)
    ensures
        final(buf)@ == old(buf)@ + varint_encoding(value as nat),
        n == varint_encoding(value as nat).len(),
{
    proof {
        lemma_varint_length_bounds(value as nat);
    }
    let mut v = value;
    let mut n: usize = 0;
    while v >= 128
        invariant
            buf@ + varint_encoding(v as nat) == old(buf)@ + varint_encoding(value as nat),
            n + varint_encoding(v as nat).len() == varint_encoding(value as nat).len(),
            varint_encoding(value as nat).len() <= 10,
        decreases v,
    {
        proof {
            lemma_varint_length_bounds((v / 128) as nat);
        }
        let byte = (v % 128 + 128) as u8;
        assert(varint_encoding(v as nat) == seq![byte] + varint_encoding((v / 128) as nat));
        assert(buf@.push(byte) + varint_encoding((v / 128) as nat) =~= buf@ + varint_encoding(
            v as nat,
        ));
        buf.push(byte);
        v = v / 128;
        n = n + 1;
    }
    assert(varint_encoding(v as nat) == seq![v as u8]);
    assert(buf@.push(v as u8) =~= buf@ + varint_encoding(v as nat));
    buf.push(v as u8);
    n + 1
}

/// Appends the varint of `value` to `buf`; returns the number of bytes added.
pub fn put_varint32(buf: &mut Vec<u8>, value: u32) -> (n: usize)
    ensures
        final(buf)@ == old(buf)@ + varint_encoding(value as nat),
        n == varint_encoding(value as nat).len(),
{
    put_varint64(buf, value as u64)
}

/// Reads a varint of at most `limit` bytes at the start of `buf`; `None` where
/// the varint does not end in time or its value does not fit 64 bits.
fn decode_varint(buf: &[u8], limit: usize) -> (r: Option<(u64, usize)>)
    ensures
        match varint_decoding(buf@, limit as nat) {
            Some((v, n)) => if v <= u64::MAX {
                r == Some((v as u64, n as usize))
            } else {
                r is None
            },
            None => r is None,
        },
        r matches Some((v, n)) ==> 1 <= n <= limit && n <= buf@.len(),
    decreases limit,
{
    proof {
        lemma_varint_decoding_length(buf@, limit as nat);
    }
    if limit == 0 || buf.len() == 0 {
        return None;
    }
    let byte = buf[0];
    if byte < 128 {
        return Some((byte as u64, 1));
    }
    let rest = vstd::slice::slice_subrange(buf, 1, buf.len());
    assert(rest@ =~= buf@.drop_first());
    match decode_varint(rest, limit - 1) {
        Some((v, n)) => {
            let low = (byte - 128) as u64;
            if v > (u64::MAX - low) / 128 {
                assert(low + 128 * v > u64::MAX) by (nonlinear_arith)
                    requires
                        v > (u64::MAX - low) / 128,
                        low < 128,
                ;
                None
            } else {
                assert(low + 128 * v <= u64::MAX) by (nonlinear_arith)
                    requires
                        v <= (u64::MAX - low) / 128,
                        low < 128,
                ;
                Some((low + 128 * v, n + 1))
            }
        },
        None => None,
    }
}

/// Reads the 32-bit varint at the start of `buf`: its value and length, or
/// `None` where it runs past five bytes, past the end of `buf`, or past 32 bits.
pub fn decode_varint32(buf: &[u8]) -> (r: Option<(u32, usize)>)
    ensures
        match varint32_decoding(buf@) {
            Some((v, n)) => r == Some((v, n as usize)),
            None => r is None,
        },
{
    match decode_varint(buf, 5) {
        Some((v, n)) => if v <= u32::MAX as u64 {
            Some((v as u32, n))
        } else {
            None
        },
        None => None,
    }
}

/// Reads the 64-bit varint at the start of `buf`: its value and length, or
/// `None` where it runs past ten bytes, past the end of `buf`, or past 64 bits.
pub fn decode_varint64(buf: &[u8]) -> (r: Option<(u64, usize)>)
    ensures
        match varint64_decoding(buf@) {
            Some((v, n)) => r == Some((v, n as usize)),
            None => r is None,
        },
{
    decode_varint(buf, 10)
}

/// Appends `data` to `buf`.
pub fn append_bytes(buf: &mut Vec<u8>, data: &[u8])
    ensures
        final(buf)@ == old(buf)@ + data@,
{
    let mut i: usize = 0;
    while i < data.len()
        invariant
            i <= data@.len(),
            buf@ == old(buf)@ + data@.subrange(0, i as int),
        decreases data@.len() - i,
    {
        assert(data@.subrange(0, i + 1) =~= data@.subrange(0, i as int).push(data@[i as int]));
        buf.push(data[i]);
        i = i + 1;
    }
    assert(data@.subrange(0, i as int) =~= data@);
}

/// Appends `data` to `buf`, prefixed with the varint of its length.
pub fn put_length_prefixed_slice(buf: &mut Vec<u8>, data: &[u8])
    requires
        data@.len() <= u32::MAX,
    ensures
        final(buf)@ == old(buf)@ + length_prefixed(data@),
{
    put_varint32(buf, data.len() as u32);
    append_bytes(buf, data);
    assert(old(buf)@ + varint_encoding(data@.len()) + data@ =~= old(buf)@ + length_prefixed(data@));
}

/// Reads the length-prefixed byte string at the start of `data`: the string and
/// the number of bytes it takes, or `None` where the prefix is no valid 32-bit
/// varint or the string runs past the end of `data`.
pub fn decode_length_prefixed_slice(data: &[u8]) -> (r: Option<(&[u8], usize)>)
    ensures
        match length_prefixed_decoding(data@) {
            Some((s, n)) => r matches Some((v, m)) && v@ == s && m == n,
            None => r is None,
        },
{
    proof {
        lemma_varint_decoding_length(data@, 5);
    }
    let (length, offset) = match decode_varint32(data) {
        Some(p) => p,
        None => return None,
    };
    if length as usize > data.len() - offset {
        return None;
    }
    let end = offset + length as usize;
    Some((vstd::slice::slice_subrange(data, offset, end), end))
}

/// Appends the four little-endian bytes of `value` to `buf`.
pub fn put_fixed32(buf: &mut Vec<u8>, value: u32)
    ensures
        final(buf)@ == old(buf)@ + spec_u32_to_le_bytes(value),
{
    let bytes = u32_to_le_bytes(value);
    append_bytes(buf, bytes.as_slice());
}

/// Appends the eight little-endian bytes of `value` to `buf`.
pub fn put_fixed64(buf: &mut Vec<u8>, value: u64)
    ensures
        final(buf)@ == old(buf)@ + spec_u64_to_le_bytes(value),
{
    let bytes = u64_to_le_bytes(value);
    append_bytes(buf, bytes.as_slice());
}

/// Overwrites the bytes of `buf` from `offset` on with `bytes`.
fn overwrite_bytes(buf: &mut Vec<u8>, offset: usize, bytes: &[u8])
    requires
        offset + bytes@.len() <= old(buf)@.len(),
    ensures
        final(buf)@ == old(buf)@.subrange(0, offset as int) + bytes@ + old(buf)@.subrange(
            offset + bytes@.len(),
            old(buf)@.len() as int,
        ),
{
    let len = buf.len();
    let mut i: usize = 0;
    while i < bytes.len()
        invariant
            i <= bytes@.len(),
            offset + bytes@.len() <= len,
            buf@.len() == old(buf)@.len() == len,
            buf@ == old(buf)@.subrange(0, offset as int) + bytes@.subrange(0, i as int)
                + old(buf)@.subrange(offset + i, old(buf)@.len() as int),
        decreases bytes@.len() - i,
    {
        buf.set(offset + i, bytes[i]);
        assert(buf@ =~= old(buf)@.subrange(0, offset as int) + bytes@.subrange(0, i + 1)
            + old(buf)@.subrange(offset + i + 1, old(buf)@.len() as int));
        i = i + 1;
    }
    assert(bytes@.subrange(0, i as int) =~= bytes@);
}

/// Writes the four little-endian bytes of `value` into `buf` at `offset`.
pub fn encode_fixed32(buf: &mut Vec<u8>, offset: usize, value: u32)
    requires
        offset + 4 <= old(buf)@.len(),
    ensures
        final(buf)@ == old(buf)@.subrange(0, offset as int) + spec_u32_to_le_bytes(value)
            + old(buf)@.subrange(offset + 4, old(buf)@.len() as int),
{
    let bytes = u32_to_le_bytes(value);
    overwrite_bytes(buf, offset, bytes.as_slice());
}

/// Writes the eight little-endian bytes of `value` into `buf` at `offset`.
pub fn encode_fixed64(buf: &mut Vec<u8>, offset: usize, value: u64)
    requires
        offset + 8 <= old(buf)@.len(),
    ensures
        final(buf)@ == old(buf)@.subrange(0, offset as int) + spec_u64_to_le_bytes(value)
            + old(buf)@.subrange(offset + 8, old(buf)@.len() as int),
{
    let bytes = u64_to_le_bytes(value);
    overwrite_bytes(buf, offset, bytes.as_slice());
}

/// The little-endian `u32` in the first four bytes of `data`.
pub fn decode_fixed32(data: &[u8]) -> (r: u32)
    requires
        data@.len() >= 4,
    ensures
        r == spec_u32_from_le_bytes(data@.subrange(0, 4)),
{
    u32_from_le_bytes(vstd::slice::slice_subrange(data, 0, 4))
}

/// The little-endian `u64` in the first eight bytes of `data`.
pub fn decode_fixed64(data: &[u8]) -> (r: u64)
    requires
        data@.len() >= 8,
    ensures
        r == spec_u64_from_le_bytes(data@.subrange(0, 8)),
{
    u64_from_le_bytes(vstd::slice::slice_subrange(data, 0, 8))
}

} // verus!
