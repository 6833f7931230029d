//! Numbers as bytes, least significant byte first.

use vstd::arithmetic::div_mod::lemma_fundamental_div_mod_converse;
use vstd::arithmetic::power::pow;
use vstd::prelude::*;

verus! {

/// The number that the bytes stand for, least significant byte first.
pub open spec fn le_value(bytes: Seq<u8>) -> nat
    decreases bytes.len(),
{
    if bytes.len() == 0 {
        0
    } else {
        bytes.first() as nat + 256 * le_value(bytes.drop_first())
    }
}

/// The lowest `width` bytes of a number, least significant byte first.
pub open spec fn le_bytes(n: nat, width: nat) -> Seq<u8>
    decreases width,
{
    if width == 0 {
        Seq::empty()
    } else {
        seq![(n % 256) as u8] + le_bytes(n / 256, (width - 1) as nat)
    }
}

/// Powers of 256.
proof fn lemma_pow_256(width: nat)
    ensures
        pow(256, 0) == 1,
        pow(256, width) > 0,
        pow(256, width + 1) == 256 * pow(256, width),
{
    reveal(pow);
    vstd::arithmetic::power::lemma_pow_positive(256, width);
}

/// Bytes stand for a number that so many bytes can hold.
proof fn lemma_le_value_bound(bytes: Seq<u8>)
    ensures
        le_value(bytes) < pow(256, bytes.len()),
    decreases bytes.len(),
{
    lemma_pow_256(0);
    if bytes.len() > 0 {
        lemma_le_value_bound(bytes.drop_first());
        lemma_pow_256((bytes.len() - 1) as nat);
    }
}

/// The eighth power of 256 is one more than the greatest 64-bit number.
proof fn lemma_eight_bytes()
    ensures
        pow(256, 4) == u32::MAX + 1,
        pow(256, 8) == u64::MAX + 1,
{
    lemma_pow_256(0);
    lemma_pow_256(1);
    lemma_pow_256(2);
    lemma_pow_256(3);
    lemma_pow_256(4);
    lemma_pow_256(5);
    lemma_pow_256(6);
    lemma_pow_256(7);
}

/// A greater width holds more.
proof fn lemma_pow_256_grows(a: nat, b: nat)
    requires
        a <= b,
    ensures
        pow(256, a) <= pow(256, b),
    decreases b,
{
    if a < b {
        lemma_pow_256_grows(a, (b - 1) as nat);
        lemma_pow_256((b - 1) as nat);
    }
}

/// A number that fits in so many bytes is read back from them.
pub proof fn reading_bytes_undoes_writing(n: nat, width: nat)
    ensures
        le_bytes(n, width).len() == width,
        n < pow(256, width) ==> le_value(le_bytes(n, width)) == n,
    decreases width,
{
    lemma_pow_256(0);
    if width > 0 {
        let rest = (width - 1) as nat;
        lemma_pow_256(rest);
        reading_bytes_undoes_writing(n / 256, rest);
        assert(le_bytes(n, width).drop_first() =~= le_bytes(n / 256, rest));
    }
}

/// Every 32-bit number is read back from its four bytes, and every 64-bit number from its eight.
pub proof fn every_number_fits()
    ensures
        forall|n: u32| le_value(#[trigger] le_bytes(n as nat, 4)) == n,
        forall|n: u64| le_value(#[trigger] le_bytes(n as nat, 8)) == n,
{
    lemma_eight_bytes();
    assert forall|n: u32| le_value(#[trigger] le_bytes(n as nat, 4)) == n by {
        reading_bytes_undoes_writing(n as nat, 4);
    }
    assert forall|n: u64| le_value(#[trigger] le_bytes(n as nat, 8)) == n by {
        reading_bytes_undoes_writing(n as nat, 8);
    }
}

/// Bytes are written back from the number that they stand for.
pub proof fn writing_bytes_undoes_reading(bytes: Seq<u8>)
    ensures
        le_bytes(le_value(bytes), bytes.len()) == bytes,
    decreases bytes.len(),
{
    if bytes.len() > 0 {
        let rest = bytes.drop_first();
        writing_bytes_undoes_reading(rest);
        lemma_fundamental_div_mod_converse(
            le_value(bytes) as int,
            256,
            le_value(rest) as int,
            bytes.first() as int,
        );
        assert(le_bytes(le_value(bytes), bytes.len()) =~= seq![bytes.first()] + rest);
    }
    assert(le_bytes(le_value(bytes), bytes.len()) =~= bytes);
}

/// The number that at most eight bytes stand for.
pub fn read_le(bytes: &[u8]) -> (value: u64)
    requires
        bytes@.len() <= 8,
    ensures
        value == le_value(bytes@),
        value < pow(256, bytes@.len()),
{
    let mut value: u64 = 0;
    let mut i: usize = bytes.len();
    proof {
        assert(bytes@.skip(i as int) =~= Seq::<u8>::empty());
    }
    while i > 0
        invariant
            i <= bytes@.len() <= 8,
            value == le_value(bytes@.skip(i as int)),
        decreases i,
    {
        proof {
            let now = bytes@.skip(i - 1);
            assert(now.drop_first() =~= bytes@.skip(i as int));
            lemma_le_value_bound(now);
            lemma_eight_bytes();
            lemma_pow_256_grows(now.len(), 8);
        }
        i = i - 1;
        value = bytes[i] as u64 + 256 * value;
    }
    proof {
        assert(bytes@.skip(0) =~= bytes@);
        lemma_le_value_bound(bytes@);
    }
    value
}

/// The lowest bytes of a number.
pub fn write_le(n: u64, width: usize) -> (bytes: Vec<u8>)
    ensures
        bytes@ == le_bytes(n as nat, width as nat),
        bytes@.len() == width,
{
    let mut bytes: Vec<u8> = Vec::new();
    let mut rest: u64 = n;
    let mut i: usize = 0;
    while i < width
        invariant
            i <= width,
            bytes@.len() == i,
            le_bytes(n as nat, width as nat) == bytes@ + le_bytes(
                rest as nat,
                (width - i) as nat,
            ),
        decreases width - i,
    {
        let ghost before = bytes@;
        bytes.push((rest % 256) as u8);
        proof {
            assert(bytes@ + le_bytes(rest as nat / 256, (width - i - 1) as nat) =~= before
                + le_bytes(rest as nat, (width - i) as nat));
        }
        rest = rest / 256;
        i += 1;
    }
    proof {
        assert(bytes@ + le_bytes(rest as nat, 0) =~= bytes@);
    }
    bytes
}

/// The number that four bytes stand for.
pub fn read_u32(bytes: &[u8]) -> (value: u32)
    requires
        bytes@.len() == 4,
    ensures
        value == le_value(bytes@),
{
    proof {
        lemma_eight_bytes();
    }
    read_le(bytes) as u32
}

/// The bytes of a number are its digits to the base 256, the lowest first.
pub proof fn bytes_are_digits(n: nat, width: nat, i: int)
    requires
        0 <= i < width,
    ensures
        le_bytes(n, width).len() == width,
        le_bytes(n, width)[i] == (n as int / pow(256, i as nat)) % 256,
    decreases width,
{
    reading_bytes_undoes_writing(n, width);
    lemma_pow_256(0);
    if i > 0 {
        let lower = pow(256, (i - 1) as nat);
        lemma_pow_256((i - 1) as nat);
        bytes_are_digits(n / 256, (width - 1) as nat, i - 1);
        assert(le_bytes(n, width)[i] == le_bytes(n / 256, (width - 1) as nat)[i - 1]);
        vstd::arithmetic::div_mod::lemma_div_denominator(n as int, 256, lower);
    } else {
        assert(n as int / 1 == n);
    }
}

} // verus!
