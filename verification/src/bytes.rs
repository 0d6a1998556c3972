//! Big-endian integers and decimal lengths as byte sequences.

use vstd::prelude::*;
use byteorder::{BigEndian, ByteOrder};

verus! {

/// 256 to the power `width`.
pub open spec fn pow256(width: nat) -> nat
    decreases width,
{
    if width == 0 {
        1
    } else {
        256 * pow256((width - 1) as nat)
    }
}

/// The `width` low-order base-256 digits of `u`, most significant first.
pub open spec fn be_bytes(u: nat, width: nat) -> Seq<u8>
    decreases width,
{
    if width == 0 {
        Seq::empty()
    } else {
        be_bytes(u / 256, (width - 1) as nat).push((u % 256) as u8)
    }
}

/// The number whose base-256 digits, most significant first, are `s`.
pub open spec fn be_value(s: Seq<u8>) -> nat
    decreases s.len(),
{
    if s.len() == 0 {
        0
    } else {
        be_value(s.drop_last()) * 256 + s.last() as nat
    }
}

/// The two's complement of `n` in `width` bytes, as an unsigned number.
pub open spec fn to_unsigned(n: int, width: nat) -> nat {
    if n < 0 {
        (n + pow256(width)) as nat
    } else {
        n as nat
    }
}

/// The signed number that `u` stands for in two's complement of `width` bytes.
pub open spec fn to_signed(u: nat, width: nat) -> int {
    if 2 * u >= pow256(width) {
        u - pow256(width)
    } else {
        u as int
    }
}

/// The big-endian two's complement bytes of a signed integer.
pub open spec fn be_signed(n: int, width: nat) -> Seq<u8> {
    be_bytes(to_unsigned(n, width), width)
}

/// The signed integer that big-endian two's complement bytes stand for.
pub open spec fn be_signed_value(s: Seq<u8>) -> int {
    to_signed(be_value(s), s.len())
}

/// The powers of 256 for the widths of the format.
pub proof fn lemma_pow256_values()
    ensures
        pow256(0) == 1,
        pow256(1) == 0x100,
        pow256(2) == 0x1_0000,
        pow256(4) == 0x1_0000_0000,
        pow256(8) == 0x1_0000_0000_0000_0000,
{
    reveal_with_fuel(pow256, 10);
}

/// A number written in `width` bytes is `width` bytes long.
pub proof fn lemma_be_bytes_len(u: nat, width: nat)
    ensures
        be_bytes(u, width).len() == width,
    decreases width,
{
    if width > 0 {
        lemma_be_bytes_len(u / 256, (width - 1) as nat);
    }
}

/// Reading back the digits of a number that fits in `width` bytes gives the number.
pub proof fn lemma_be_value_of_bytes(u: nat, width: nat)
    requires
        u < pow256(width),
    ensures
        be_value(be_bytes(u, width)) == u,
    decreases width,
{
    if width > 0 {
        let w = (width - 1) as nat;
        let s = be_bytes(u, width);
        lemma_be_bytes_len(u, width);
        assert(s.drop_last() =~= be_bytes(u / 256, w));
        assert(u / 256 < pow256(w)) by (nonlinear_arith)
            requires
                u < 256 * pow256(w),
        ;
        lemma_be_value_of_bytes(u / 256, w);
        assert(s.last() == (u % 256) as u8);
        assert((u / 256) * 256 + u % 256 == u) by (nonlinear_arith);
    }
}

/// A signed integer that fits in `width` bytes survives writing and reading.
pub proof fn lemma_be_signed_roundtrip(n: int, width: nat)
    requires
        -(pow256(width) as int) <= 2 * n < pow256(width),
    ensures
        be_signed(n, width).len() == width,
        be_signed_value(be_signed(n, width)) == n,
{
    lemma_be_bytes_len(to_unsigned(n, width), width);
    lemma_be_value_of_bytes(to_unsigned(n, width), width);
}

/// `byteorder::BigEndian::write_i16` on a buffer of two bytes: the two's
/// complement of `n`, most significant byte first.
#[verifier::external_body]
pub(crate) fn be_i16(n: i16) -> (r: [u8; 2])
    ensures
        r@ == be_signed(n as int, 2),
{
    let mut buf = [0u8; 2];
    BigEndian::write_i16(&mut buf, n);
    buf
}

/// `byteorder::BigEndian::write_i32` on a buffer of four bytes: the two's
/// complement of `n`, most significant byte first.
#[verifier::external_body]
pub(crate) fn be_i32(n: i32) -> (r: [u8; 4])
    ensures
        r@ == be_signed(n as int, 4),
{
    let mut buf = [0u8; 4];
    BigEndian::write_i32(&mut buf, n);
    buf
}

/// `byteorder::BigEndian::write_i64` on a buffer of eight bytes: the two's
/// complement of `n`, most significant byte first.
#[verifier::external_body]
pub(crate) fn be_i64(n: i64) -> (r: [u8; 8])
    ensures
        r@ == be_signed(n as int, 8),
{
    let mut buf = [0u8; 8];
    BigEndian::write_i64(&mut buf, n);
    buf
}

/// `byteorder::BigEndian::write_u32` on a buffer of four bytes: the base-256
/// digits of `n`, most significant byte first.
#[verifier::external_body]
pub(crate) fn be_u32(n: u32) -> (r: [u8; 4])
    ensures
        r@ == be_bytes(n as nat, 4),
{
    let mut buf = [0u8; 4];
    BigEndian::write_u32(&mut buf, n);
    buf
}

/// `byteorder::BigEndian::write_u64` on a buffer of eight bytes: the base-256
/// digits of `n`, most significant byte first.
#[verifier::external_body]
pub(crate) fn be_u64(n: u64) -> (r: [u8; 8])
    ensures
        r@ == be_bytes(n as nat, 8),
{
    let mut buf = [0u8; 8];
    BigEndian::write_u64(&mut buf, n);
    buf
}

/// `byteorder::BigEndian::read_i16`, which panics on fewer than two bytes:
/// the signed integer whose big-endian two's complement the two bytes are.
#[verifier::external_body]
pub(crate) fn i16_of_be(b: &[u8]) -> (r: i16)
    requires
        b@.len() == 2,
    ensures
        r as int == be_signed_value(b@),
{
    BigEndian::read_i16(b)
}

/// `byteorder::BigEndian::read_i32`, which panics on fewer than four bytes:
/// the signed integer whose big-endian two's complement the four bytes are.
#[verifier::external_body]
pub(crate) fn i32_of_be(b: &[u8]) -> (r: i32)
    requires
        b@.len() == 4,
    ensures
        r as int == be_signed_value(b@),
{
    BigEndian::read_i32(b)
}

/// `byteorder::BigEndian::read_i64`, which panics on fewer than eight bytes:
/// the signed integer whose big-endian two's complement the eight bytes are.
#[verifier::external_body]
pub(crate) fn i64_of_be(b: &[u8]) -> (r: i64)
    requires
        b@.len() == 8,
    ensures
        r as int == be_signed_value(b@),
{
    BigEndian::read_i64(b)
}

/// `byteorder::BigEndian::read_u32`, which panics on fewer than four bytes:
/// the number whose base-256 digits, most significant first, the four bytes are.
#[verifier::external_body]
pub(crate) fn u32_of_be(b: &[u8]) -> (r: u32)
    requires
        b@.len() == 4,
    ensures
        r as nat == be_value(b@),
{
    BigEndian::read_u32(b)
}

/// `byteorder::BigEndian::read_u64`, which panics on fewer than eight bytes:
/// the number whose base-256 digits, most significant first, the eight bytes are.
#[verifier::external_body]
pub(crate) fn u64_of_be(b: &[u8]) -> (r: u64)
    requires
        b@.len() == 8,
    ensures
        r as nat == be_value(b@),
{
    BigEndian::read_u64(b)
}

/// The number that a sequence of ASCII decimal digits stands for.
pub open spec fn decimal_value(s: Seq<u8>) -> nat
    decreases s.len(),
{
    if s.len() == 0 {
        0
    } else {
        decimal_value(s.drop_last()) * 10 + (s.last() - 48) as nat
    }
}

/// The ASCII decimal digits of `n`, without leading zeros; empty for zero.
pub open spec fn decimal_digits(n: nat) -> Seq<u8>
    decreases n,
{
    if n == 0 {
        Seq::empty()
    } else {
        decimal_digits(n / 10).push((48 + n % 10) as u8)
    }
}

/// An ASCII decimal digit.
pub open spec fn is_digit(b: u8) -> bool {
    48 <= b <= 57
}

/// Every byte is an ASCII decimal digit.
pub open spec fn all_digits(s: Seq<u8>) -> bool {
    forall|i: int| 0 <= i < s.len() ==> is_digit(#[trigger] s[i])
}

/// The digits of a positive number are digits, begin with none that is zero,
/// and stand for the number.
pub proof fn lemma_decimal_digits(n: nat)
    ensures
        all_digits(decimal_digits(n)),
        decimal_value(decimal_digits(n)) == n,
        n > 0 ==> decimal_digits(n).len() > 0 && decimal_digits(n)[0] != 48,
        n == 0 ==> decimal_digits(n).len() == 0,
    decreases n,
{
    if n > 0 {
        lemma_decimal_digits(n / 10);
        let s = decimal_digits(n);
        let p = decimal_digits(n / 10);
        assert(s == p.push((48 + n % 10) as u8));
        assert(s.drop_last() =~= p);
        assert((n / 10) * 10 + n % 10 == n) by (nonlinear_arith);
        if n / 10 > 0 {
            assert(s[0] == p[0]);
        }
    }
}

/// Appends the decimal digits of `n` to `out`; nothing for zero.
pub fn push_decimal(out: &mut Vec<u8>, n: usize)
    ensures
        final(out)@ == old(out)@ + decimal_digits(n as nat),
    decreases n,
{
    if n > 0 {
        push_decimal(out, n / 10);
        out.push(48 + (n % 10) as u8);
    }
}

} // verus!
