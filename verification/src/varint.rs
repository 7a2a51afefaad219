use vstd::prelude::*;
use vstd::slice::slice_subrange;

use crate::error::ProtocolError;

verus! {

/// The largest value a four-byte variable byte integer can hold.
pub const VARINT_MAX: usize = 268_435_455;

/// Weight of the `j`-th byte of a variable byte integer (128 to the power `j`).
pub open spec fn varint_weight(j: int) -> int {
    if j == 0 {
        1
    } else if j == 1 {
        128
    } else if j == 2 {
        16384
    } else {
        2097152
    }
}

/// Value of the first `n` bytes of `s` read as a variable byte integer,
/// least significant group first, continuation bits ignored.
pub open spec fn varint_value(s: Seq<u8>, n: int) -> int
    decreases n,
{
    if n <= 0 {
        0
    } else {
        varint_value(s, n - 1) + (s[n - 1] % 128) * varint_weight(n - 1)
    }
}

/// Decoding of a variable byte integer from byte `i` on: `Ok(None)` when the
/// input ends before the terminating byte, an error when no byte among the
/// first four terminates the number, else the value and the number of bytes used.
pub open spec fn varint_scan(s: Seq<u8>, i: int) -> Result<Option<(int, int)>, ProtocolError>
    decreases 4 - i,
{
    if i < 0 || i >= 4 {
        Err(ProtocolError::MalformedRemainingLength)
    } else if i >= s.len() {
        Ok(None)
    } else if s[i] < 128 {
        Ok(Some((varint_value(s, i + 1), i + 1)))
    } else if i + 1 >= 4 {
        Err(ProtocolError::MalformedRemainingLength)
    } else {
        varint_scan(s, i + 1)
    }
}

/// What decoding a variable byte integer from the start of `s` gives.
pub open spec fn spec_decode_varint(s: Seq<u8>) -> Result<Option<(int, int)>, ProtocolError> {
    varint_scan(s, 0)
}

/// The minimal variable byte integer encoding of `v`: seven bits per byte,
/// least significant group first, the high bit set on every byte but the last.
pub open spec fn spec_encode_varint(v: nat) -> Seq<u8>
    decreases v,
{
    if v / 128 > 0 {
        seq![((v % 128) + 128) as u8] + spec_encode_varint(v / 128)
    } else {
        seq![(v % 128) as u8]
    }
}

/// Decodes an MQTT variable byte integer from the start of `buf`.
///
/// Returns `Ok(Some((value, bytes_consumed)))` for a complete number and
/// moves `buf` past it, `Ok(None)` when `buf` ends before the number does, and
/// `Err(MalformedRemainingLength)` when four bytes all carry the continuation
/// bit; in those two cases `buf` is left as it was.
pub fn decode_varint(buf: &mut &[u8]) -> (r: Result<Option<(usize, usize)>, ProtocolError>)
    ensures
        r matches Ok(Some((v, n))) ==> v <= VARINT_MAX && 1 <= n <= 4,
        match r {
            Ok(Some((v, n))) => spec_decode_varint(old(buf)@) == Ok::<Option<(int, int)>, ProtocolError>(
                Some((v as int, n as int)),
            ) && final(buf)@ == old(buf)@.subrange(n as int, old(buf)@.len() as int),
            Ok(None) => spec_decode_varint(old(buf)@) == Ok::<Option<(int, int)>, ProtocolError>(None)
                && final(buf)@ == old(buf)@,
            Err(e) => spec_decode_varint(old(buf)@) == Err::<Option<(int, int)>, ProtocolError>(e)
                && final(buf)@ == old(buf)@,
        },
{
    let whole: &[u8] = *buf;
    let r = read_varint(whole);
    match r {
        Ok(Some((_, n))) => {
            *buf = slice_subrange(whole, n, whole.len());
        },
        _ => {},
    }
    r
}

/// Reads the MQTT variable byte integer at the start of `buf`, as
/// `decode_varint` does, without moving past it.
fn read_varint(buf: &[u8]) -> (r: Result<Option<(usize, usize)>, ProtocolError>)
    ensures
        r matches Ok(Some((v, n))) ==> v <= VARINT_MAX && 1 <= n <= 4 && n <= buf@.len(),
        match r {
            Ok(Some((v, n))) => spec_decode_varint(buf@) == Ok::<Option<(int, int)>, ProtocolError>(
                Some((v as int, n as int)),
            ),
            Ok(None) => spec_decode_varint(buf@) == Ok::<Option<(int, int)>, ProtocolError>(None),
            Err(e) => spec_decode_varint(buf@) == Err::<Option<(int, int)>, ProtocolError>(e),
        },
{
    let mut multiplier: usize = 1;
    let mut value: usize = 0;
    let mut bytes_read: usize = 0;
    let available = buf.len();

    loop
        invariant
            available == buf@.len(),
            bytes_read < 4,
            multiplier == varint_weight(bytes_read as int),
            value == varint_value(buf@, bytes_read as int),
            0 <= value < multiplier,
            forall|j: int| 0 <= j < bytes_read ==> buf@[j] >= 128,
            spec_decode_varint(buf@) == varint_scan(buf@, bytes_read as int),
        decreases 4 - bytes_read,
    {
        if bytes_read >= available {
            return Ok(None);
        }
        let encoded_byte = buf[bytes_read];
        assert(encoded_byte & 0x7F == encoded_byte % 128) by (bit_vector);
        assert((encoded_byte & 0x80 == 0) == (encoded_byte < 128)) by (bit_vector);
        bytes_read += 1;
        assert((encoded_byte % 128) * multiplier <= 127 * multiplier) by (nonlinear_arith)
            requires
                encoded_byte % 128 <= 127,
        ;
        value += ((encoded_byte & 0x7F) as usize) * multiplier;
        if multiplier > 128 * 128 * 128 {
            return Err(ProtocolError::MalformedRemainingLength);
        }
        if (encoded_byte & 0x80) == 0 {
            return Ok(Some((value, bytes_read)));
        }
        if bytes_read >= 4 {
            return Err(ProtocolError::MalformedRemainingLength);
        }
        multiplier *= 128;
    }
}

/// Appends the MQTT variable byte integer encoding of `value` to `dst`.
/// Values above `VARINT_MAX` are refused and leave `dst` as it was.
pub fn encode_varint(value: usize, dst: &mut Vec<u8>) -> (r: Result<(), ProtocolError>)
    ensures
        value > VARINT_MAX ==> r == Err::<(), ProtocolError>(ProtocolError::MalformedRemainingLength)
            && final(dst)@ == old(dst)@,
        value <= VARINT_MAX ==> r is Ok && final(dst)@ == old(dst)@ + spec_encode_varint(
            value as nat,
        ),
{
    if value > VARINT_MAX {
        return Err(ProtocolError::MalformedRemainingLength);
    }
    let ghost start = dst@;
    let ghost orig = value as nat;
    let mut rest = value;
    loop
        invariant_except_break
            dst@ + spec_encode_varint(rest as nat) == start + spec_encode_varint(orig),
        ensures
            dst@ == start + spec_encode_varint(orig),
        decreases rest,
    {
        let low = rest % 128;
        let mut encoded_byte = low as u8;
        let ghost cur = rest as nat;
        rest = rest / 128;
        if rest > 0 {
            assert(encoded_byte < 128 ==> encoded_byte | 0x80 == encoded_byte + 128) by (bit_vector);
            encoded_byte = encoded_byte | 0x80;
        }
        let ghost before = dst@;
        dst.push(encoded_byte);
        if rest == 0 {
            assert(spec_encode_varint(cur) == seq![encoded_byte]);
            assert(dst@ == before + spec_encode_varint(cur));
            break;
        }
        assert(spec_encode_varint(cur) == seq![encoded_byte] + spec_encode_varint(rest as nat));
        assert(dst@ + spec_encode_varint(rest as nat) == before + spec_encode_varint(cur));
    }
    Ok(())
}

/// The encoding of a value below 128 is that value.
proof fn lemma_encode_1(v: nat)
    requires
        v < 128,
    ensures
        spec_encode_varint(v) == seq![v as u8],
{
    reveal_with_fuel(spec_encode_varint, 2);
}

/// The encoding of a value below 16384 takes two bytes.
proof fn lemma_encode_2(v: nat)
    requires
        128 <= v < 16384,
    ensures
        spec_encode_varint(v) == seq![((v % 128) + 128) as u8, (v / 128) as u8],
{
    reveal_with_fuel(spec_encode_varint, 3);
    lemma_encode_1(v / 128);
}

/// The encoding of a value below 2097152 takes three bytes.
proof fn lemma_encode_3(v: nat)
    requires
        16384 <= v < 2097152,
    ensures
        spec_encode_varint(v) == seq![
            ((v % 128) + 128) as u8,
            (((v / 128) % 128) + 128) as u8,
            (v / 16384) as u8,
        ],
{
    reveal_with_fuel(spec_encode_varint, 2);
    lemma_encode_2(v / 128);
    assert(v / 128 / 128 == v / 16384);
}

/// The encoding of a value up to `VARINT_MAX` from 2097152 on takes four bytes.
proof fn lemma_encode_4(v: nat)
    requires
        2097152 <= v <= VARINT_MAX,
    ensures
        spec_encode_varint(v) == seq![
            ((v % 128) + 128) as u8,
            (((v / 128) % 128) + 128) as u8,
            (((v / 16384) % 128) + 128) as u8,
            (v / 2097152) as u8,
        ],
{
    reveal_with_fuel(spec_encode_varint, 2);
    lemma_encode_3(v / 128);
    assert(v / 128 / 128 == v / 16384);
    assert(v / 128 / 16384 == v / 2097152);
}

/// Decoding a one-byte encoding.
proof fn lemma_roundtrip_1(v: nat, rest: Seq<u8>)
    requires
        v < 128,
    ensures
        spec_decode_varint(spec_encode_varint(v) + rest) == Ok::<Option<(int, int)>, ProtocolError>(
            Some((v as int, 1)),
        ),
{
    lemma_encode_1(v);
    let s = spec_encode_varint(v) + rest;
    assert(s[0] == v);
    assert(varint_value(s, 0) == 0);
    assert(varint_value(s, 1) == v);
}

/// Decoding a two-byte encoding.
proof fn lemma_roundtrip_2(v: nat, rest: Seq<u8>)
    requires
        128 <= v < 16384,
    ensures
        spec_decode_varint(spec_encode_varint(v) + rest) == Ok::<Option<(int, int)>, ProtocolError>(
            Some((v as int, 2)),
        ),
{
    lemma_encode_2(v);
    let s = spec_encode_varint(v) + rest;
    assert(s[0] == v % 128 + 128);
    assert(s[1] == v / 128);
    assert(varint_scan(s, 0) == varint_scan(s, 1));
    assert(varint_value(s, 0) == 0);
    assert(varint_value(s, 1) == v % 128);
    assert(varint_value(s, 2) == v);
}

/// Decoding a three-byte encoding.
proof fn lemma_roundtrip_3(v: nat, rest: Seq<u8>)
    requires
        16384 <= v < 2097152,
    ensures
        spec_decode_varint(spec_encode_varint(v) + rest) == Ok::<Option<(int, int)>, ProtocolError>(
            Some((v as int, 3)),
        ),
{
    lemma_encode_3(v);
    let s = spec_encode_varint(v) + rest;
    assert(s[0] == v % 128 + 128);
    assert(s[1] == (v / 128) % 128 + 128);
    assert(s[2] == v / 16384);
    assert(varint_scan(s, 0) == varint_scan(s, 1));
    assert(varint_scan(s, 1) == varint_scan(s, 2));
    assert(varint_value(s, 0) == 0);
    assert(varint_value(s, 1) == v % 128);
    assert(varint_value(s, 2) == v % 128 + ((v / 128) % 128) * 128);
    assert(varint_value(s, 3) == v);
}

/// Decoding a four-byte encoding.
proof fn lemma_roundtrip_4(v: nat, rest: Seq<u8>)
    requires
        2097152 <= v <= VARINT_MAX,
    ensures
        spec_decode_varint(spec_encode_varint(v) + rest) == Ok::<Option<(int, int)>, ProtocolError>(
            Some((v as int, 4)),
        ),
{
    lemma_encode_4(v);
    let s = spec_encode_varint(v) + rest;
    assert(s[0] == v % 128 + 128);
    assert(s[1] == (v / 128) % 128 + 128);
    assert(s[2] == (v / 16384) % 128 + 128);
    assert(s[3] == v / 2097152);
    assert(varint_scan(s, 0) == varint_scan(s, 1));
    assert(varint_scan(s, 1) == varint_scan(s, 2));
    assert(varint_scan(s, 2) == varint_scan(s, 3));
    assert(varint_value(s, 0) == 0);
    assert(varint_value(s, 1) == v % 128);
    assert(varint_value(s, 2) == v % 128 + ((v / 128) % 128) * 128);
    assert(varint_value(s, 3) == v % 128 + ((v / 128) % 128) * 128 + ((v / 16384) % 128) * 16384);
    assert(varint_value(s, 4) == v);
}

/// Decoding the encoding of any value up to `VARINT_MAX`, whatever follows it,
/// gives back the value and the length of its encoding, which is one to four
/// bytes; moving past those bytes leaves exactly what followed.
pub proof fn lemma_varint_roundtrip(v: nat, rest: Seq<u8>)
    requires
        v <= VARINT_MAX,
    ensures
        1 <= spec_encode_varint(v).len() <= 4,
        spec_decode_varint(spec_encode_varint(v) + rest) == Ok::<Option<(int, int)>, ProtocolError>(
            Some((v as int, spec_encode_varint(v).len() as int)),
        ),
        (spec_encode_varint(v) + rest).subrange(
            spec_encode_varint(v).len() as int,
            (spec_encode_varint(v) + rest).len() as int,
        ) == rest,
{
    assert((spec_encode_varint(v) + rest).subrange(
        spec_encode_varint(v).len() as int,
        (spec_encode_varint(v) + rest).len() as int,
    ) =~= rest);
    if v < 128 {
        lemma_encode_1(v);
        lemma_roundtrip_1(v, rest);
    } else if v < 16384 {
        lemma_encode_2(v);
        lemma_roundtrip_2(v, rest);
    } else if v < 2097152 {
        lemma_encode_3(v);
        lemma_roundtrip_3(v, rest);
    } else {
        lemma_encode_4(v);
        lemma_roundtrip_4(v, rest);
    }
}
} // verus!
