use crate::error::Fatal;
use vstd::prelude::*;
use vstd::string::StringExecFns;

verus! {

/// The number that `n` little-endian bytes at the start of `bytes` stand for.
pub open spec fn le_value(bytes: Seq<u8>, n: nat) -> nat
    decreases n,
{
    if n == 0 {
        0
    } else {
        bytes[0] as nat + 256 * le_value(bytes.skip(1), (n - 1) as nat)
    }
}

/// The `n` little-endian bytes that stand for `value`, lowest first.
pub open spec fn le_bytes(value: nat, n: nat) -> Seq<u8>
    decreases n,
{
    if n == 0 {
        Seq::empty()
    } else {
        seq![(value % 256) as u8] + le_bytes(value / 256, (n - 1) as nat)
    }
}

/// 256 to the power `n`: the number of values that `n` bytes can hold.
pub open spec fn byte_range(n: nat) -> nat
    decreases n,
{
    if n == 0 {
        1
    } else {
        256 * byte_range((n - 1) as nat)
    }
}

/// Little-endian bytes always stand for a number below the range of their width.
pub proof fn lemma_le_value_bound(bytes: Seq<u8>, n: nat)
    requires
        n <= bytes.len(),
    ensures
        le_value(bytes, n) < byte_range(n),
    decreases n,
{
    if n > 0 {
        lemma_le_value_bound(bytes.skip(1), (n - 1) as nat);
    }
}

/// Encoding a number in `n` bytes yields exactly `n` bytes.
pub proof fn lemma_le_bytes_len(value: nat, n: nat)
    ensures
        le_bytes(value, n).len() == n,
    decreases n,
{
    if n > 0 {
        lemma_le_bytes_len(value / 256, (n - 1) as nat);
    }
}

/// Decoding what was encoded gives the number back, as long as it fits the width.
pub proof fn lemma_le_roundtrip(value: nat, n: nat)
    requires
        value < byte_range(n),
    ensures
        le_value(le_bytes(value, n), n) == value,
    decreases n,
{
    if n > 0 {
        let rest = le_bytes(value / 256, (n - 1) as nat);
        let all = le_bytes(value, n);
        assert(all.skip(1) =~= rest);
        assert(value / 256 < byte_range((n - 1) as nat)) by (nonlinear_arith)
            requires
                value < 256 * byte_range((n - 1) as nat),
        ;
        lemma_le_roundtrip(value / 256, (n - 1) as nat);
        assert(value == (value % 256) + 256 * (value / 256)) by (nonlinear_arith);
    }
}

/// Encoding what was decoded gives the first `n` bytes back.
pub proof fn lemma_le_bytes_of_value(bytes: Seq<u8>, n: nat)
    requires
        n <= bytes.len(),
    ensures
        le_bytes(le_value(bytes, n), n) == bytes.take(n as int),
    decreases n,
{
    if n == 0 {
        assert(bytes.take(0) =~= Seq::<u8>::empty());
    } else {
        let rest = le_value(bytes.skip(1), (n - 1) as nat);
        let v = le_value(bytes, n);
        lemma_le_bytes_of_value(bytes.skip(1), (n - 1) as nat);
        assert(v % 256 == bytes[0] as nat && v / 256 == rest) by (nonlinear_arith)
            requires
                v == bytes[0] as nat + 256 * rest,
                bytes[0] < 256,
        ;
        assert(bytes.take(n as int) =~= seq![bytes[0]] + bytes.skip(1).take(n - 1));
    }
}

/// The number that the first two bytes stand for, lowest first.
pub open spec fn spec_le2(bytes: Seq<u8>) -> nat {
    bytes[0] as nat + 256 * (bytes[1] as nat)
}

/// The number that the first three bytes stand for, lowest first.
pub open spec fn spec_le3(bytes: Seq<u8>) -> nat {
    bytes[0] as nat + 256 * (bytes[1] as nat) + 65536 * (bytes[2] as nat)
}

/// The number that the first four bytes stand for, lowest first.
pub open spec fn spec_le4(bytes: Seq<u8>) -> nat {
    bytes[0] as nat + 256 * (bytes[1] as nat) + 65536 * (bytes[2] as nat) + 16777216 * (
    bytes[3] as nat)
}

/// The closed forms agree with the general definition.
pub proof fn lemma_le_closed_forms(bytes: Seq<u8>)
    ensures
        bytes.len() >= 2 ==> spec_le2(bytes) == le_value(bytes, 2),
        bytes.len() >= 3 ==> spec_le3(bytes) == le_value(bytes, 3),
        bytes.len() >= 4 ==> spec_le4(bytes) == le_value(bytes, 4),
{
    reveal_with_fuel(le_value, 5);
    if bytes.len() >= 2 {
        assert(bytes.skip(1)[0] == bytes[1]);
    }
    if bytes.len() >= 3 {
        assert(bytes.skip(1).skip(1)[0] == bytes[2]);
    }
    if bytes.len() >= 4 {
        assert(bytes.skip(1).skip(1).skip(1)[0] == bytes[3]);
    }
}

/// A number of two bytes is read back from where its bytes stand in `buf`.
pub proof fn lemma_le2_at(buf: Seq<u8>, at: int, value: nat)
    requires
        0 <= at,
        at + 2 <= buf.len(),
        value < 0x1_0000,
        buf.subrange(at, at + 2) == le_bytes(value, 2),
    ensures
        spec_le2(buf.skip(at)) == value,
{
    reveal_with_fuel(byte_range, 3);
    let field = buf.subrange(at, at + 2);
    lemma_le_roundtrip(value, 2);
    lemma_le_closed_forms(field);
    assert(field[0] == buf.skip(at)[0] && field[1] == buf.skip(at)[1]);
}

/// A number of three bytes is read back from where its bytes stand in `buf`.
pub proof fn lemma_le3_at(buf: Seq<u8>, at: int, value: nat)
    requires
        0 <= at,
        at + 3 <= buf.len(),
        value < 0x100_0000,
        buf.subrange(at, at + 3) == le_bytes(value, 3),
    ensures
        spec_le3(buf.skip(at)) == value,
{
    reveal_with_fuel(byte_range, 4);
    let field = buf.subrange(at, at + 3);
    lemma_le_roundtrip(value, 3);
    lemma_le_closed_forms(field);
    assert(field[0] == buf.skip(at)[0] && field[1] == buf.skip(at)[1] && field[2] == buf.skip(
        at,
    )[2]);
}

/// A number of four bytes is read back from where its bytes stand in `buf`.
pub proof fn lemma_le4_at(buf: Seq<u8>, at: int, value: nat)
    requires
        0 <= at,
        at + 4 <= buf.len(),
        value < 0x1_0000_0000,
        buf.subrange(at, at + 4) == le_bytes(value, 4),
    ensures
        spec_le4(buf.skip(at)) == value,
{
    reveal_with_fuel(byte_range, 5);
    let field = buf.subrange(at, at + 4);
    lemma_le_roundtrip(value, 4);
    lemma_le_closed_forms(field);
    assert(field[0] == buf.skip(at)[0] && field[1] == buf.skip(at)[1] && field[2] == buf.skip(
        at,
    )[2] && field[3] == buf.skip(at)[3]);
}

/// The number that the first four bytes stand for, lowest first.
pub fn little_endian_4_bytes(bytes: &[u8]) -> (value: u32)
    requires
        bytes@.len() >= 4,
    ensures
        value == spec_le4(bytes@),
{
    let b0: u32 = bytes[0] as u32;
    let b1: u32 = bytes[1] as u32;
    let b2: u32 = bytes[2] as u32;
    let b3: u32 = bytes[3] as u32;
    assert((b0 | (b1 << 8) | (b2 << 16) | (b3 << 24)) == b0 + 256 * b1 + 65536 * b2 + 16777216
        * b3) by (bit_vector)
        requires
            b0 < 256,
            b1 < 256,
            b2 < 256,
            b3 < 256,
    ;
    b0 | (b1 << 8) | (b2 << 16) | (b3 << 24)
}

/// The number that the first three bytes stand for, lowest first.
pub fn little_endian_3_bytes(bytes: &[u8]) -> (value: u32)
    requires
        bytes@.len() >= 3,
    ensures
        value == spec_le3(bytes@),
        value < 0x100_0000,
{
    let b0: u32 = bytes[0] as u32;
    let b1: u32 = bytes[1] as u32;
    let b2: u32 = bytes[2] as u32;
    assert((b0 | (b1 << 8) | (b2 << 16)) == b0 + 256 * b1 + 65536 * b2) by (bit_vector)
        requires
            b0 < 256,
            b1 < 256,
            b2 < 256,
    ;
    b0 | (b1 << 8) | (b2 << 16)
}

/// The number that the first two bytes stand for, lowest first.
pub fn little_endian_2_bytes(bytes: &[u8]) -> (value: u16)
    requires
        bytes@.len() >= 2,
    ensures
        value == spec_le2(bytes@),
{
    let b0: u16 = bytes[0] as u16;
    let b1: u16 = bytes[1] as u16;
    assert((b0 | (b1 << 8)) == b0 + 256 * b1) by (bit_vector)
        requires
            b0 < 256,
            b1 < 256,
    ;
    b0 | (b1 << 8)
}


/// The one byte that two little-endian bytes stand for: `ValueTooLarge`
/// where the second is not 0.
pub fn little_endian_2_bytes_as_u8(bytes: &[u8]) -> (r: Result<u8, Fatal>)
    requires
        bytes@.len() >= 2,
    ensures
        r == if bytes@[1] != 0 {
            Err::<u8, Fatal>(Fatal::ValueTooLarge)
        } else {
            Ok::<u8, Fatal>(bytes@[0])
        },
{
    if bytes[1] != 0 {
        return Err(Fatal::ValueTooLarge);
    }
    Ok(bytes[0])
}

/// The character of a decimal digit.
pub open spec fn digit(d: nat) -> char {
    if d == 0 {
        '0'
    } else if d == 1 {
        '1'
    } else if d == 2 {
        '2'
    } else if d == 3 {
        '3'
    } else if d == 4 {
        '4'
    } else if d == 5 {
        '5'
    } else if d == 6 {
        '6'
    } else if d == 7 {
        '7'
    } else if d == 8 {
        '8'
    } else {
        '9'
    }
}

/// A number in decimal digits, without leading zeros.
pub open spec fn spec_decimal(n: nat) -> Seq<char>
    decreases n,
{
    if n < 10 {
        seq![digit(n)]
    } else {
        spec_decimal(n / 10).push(digit(n % 10))
    }
}

fn digit_str(d: u64) -> (r: &'static str)
    requires
        d < 10,
    ensures
        r@ == seq![digit(d as nat)],
{
    proof {
        reveal_strlit("0");
        reveal_strlit("1");
        reveal_strlit("2");
        reveal_strlit("3");
        reveal_strlit("4");
        reveal_strlit("5");
        reveal_strlit("6");
        reveal_strlit("7");
        reveal_strlit("8");
        reveal_strlit("9");
    }
    let r = if d == 0 {
        "0"
    } else if d == 1 {
        "1"
    } else if d == 2 {
        "2"
    } else if d == 3 {
        "3"
    } else if d == 4 {
        "4"
    } else if d == 5 {
        "5"
    } else if d == 6 {
        "6"
    } else if d == 7 {
        "7"
    } else if d == 8 {
        "8"
    } else {
        "9"
    };
    assert(r@ =~= seq![digit(d as nat)]);
    r
}

/// A number in decimal digits.
pub fn decimal(n: u64) -> (text: String)
    ensures
        text@ == spec_decimal(n as nat),
    decreases n,
{
    if n < 10 {
        digit_str(n).to_owned()
    } else {
        let mut text = decimal(n / 10);
        text.append(digit_str(n % 10));
        assert(text@ =~= spec_decimal(n as nat));
        text
    }
}

/// What stands before the words of an entry in a list: its key in decimal,
/// and an arrow.
pub open spec fn key_prefix(key: nat) -> Seq<char> {
    spec_decimal(key) + " => "@
}

/// What stands before the words of an entry in a list.
pub fn key_arrow(key: u64) -> (text: String)
    ensures
        text@ == key_prefix(key as nat),
{
    let mut text = decimal(key);
    text.append(" => ");
    text
}

/// A version in words: `V`, then the four bytes from the last to the first,
/// each in decimal, with dots between them.
pub open spec fn spec_version(bytes: Seq<u8>) -> Seq<char> {
    seq!['V'] + spec_decimal(bytes[3] as nat) + seq!['.'] + spec_decimal(bytes[2] as nat) + seq![
        '.',
    ] + spec_decimal(bytes[1] as nat) + seq!['.'] + spec_decimal(bytes[0] as nat)
}

/// The version that four bytes stand for, in words.
pub fn little_endian_4_version(bytes: &[u8]) -> (text: String)
    requires
        bytes@.len() >= 4,
    ensures
        text@ == spec_version(bytes@),
{
    let major = bytes[3];
    let minor = bytes[2];
    let patch = bytes[1];
    let build = bytes[0];
    proof {
        reveal_strlit("V");
        reveal_strlit(".");
        assert("V"@ =~= seq!['V']);
        assert("."@ =~= seq!['.']);
    }
    let mut text = "V".to_owned();
    text.append(decimal(major as u64).as_str());
    text.append(".");
    text.append(decimal(minor as u64).as_str());
    text.append(".");
    text.append(decimal(patch as u64).as_str());
    text.append(".");
    text.append(decimal(build as u64).as_str());
    text
}

} // verus!
