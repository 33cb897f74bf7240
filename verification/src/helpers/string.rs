//! Little-endian conversions between byte slices and integers.

use vstd::prelude::*;

verus! {

/// 256 to the power `n`.
pub open spec fn pow256(n: nat) -> nat
    decreases n,
{
    if n == 0 {
        1
    } else {
        256 * pow256((n - 1) as nat)
    }
}

/// The value of a byte sequence read with its least significant byte first.
pub open spec fn le_value(bytes: Seq<u8>) -> nat
    decreases bytes.len(),
{
    if bytes.len() == 0 {
        0
    } else {
        bytes[0] as nat + 256 * le_value(bytes.drop_first())
    }
}

/// The `n` lowest base 256 digits of `value`, least significant first.
pub open spec fn le_digits(value: nat, n: nat) -> Seq<u8>
    decreases n,
{
    if n == 0 {
        Seq::empty()
    } else {
        seq![(value % 256) as u8] + le_digits(value / 256, (n - 1) as nat)
    }
}

/// The two's complement reading of a 32-bit value.
pub open spec fn signed32(value: nat) -> int {
    if value < 0x8000_0000 {
        value as int
    } else {
        value - 0x1_0000_0000
    }
}

/// Writing `value` in `n` bytes and reading the bytes gives back `value`, as
/// long as it fits.
pub proof fn lemma_le_round_trip(value: nat, n: nat)
    requires
        value < pow256(n),
    ensures
        le_digits(value, n).len() == n,
        le_value(le_digits(value, n)) == value,
    decreases n,
{
    if n > 0 {
        let digits = le_digits(value, n);
        lemma_le_round_trip(value / 256, (n - 1) as nat);
        assert(digits.drop_first() =~= le_digits(value / 256, (n - 1) as nat));
    }
}

/// Reading `n` bytes and writing the value in `n` bytes gives back the bytes.
pub proof fn lemma_le_round_trip_bytes(bytes: Seq<u8>)
    ensures
        le_value(bytes) < pow256(bytes.len()),
        le_digits(le_value(bytes), bytes.len()) == bytes,
    decreases bytes.len(),
{
    if bytes.len() > 0 {
        let rest = bytes.drop_first();
        lemma_le_round_trip_bytes(rest);
        assert(le_value(bytes) / 256 == le_value(rest));
        assert(le_value(bytes) % 256 == bytes[0] as nat);
        assert(le_digits(le_value(bytes), bytes.len()) =~= bytes);
    } else {
        assert(le_digits(le_value(bytes), bytes.len()) =~= bytes);
    }
}

pub proof fn lemma_pow256_8()
    ensures
        pow256(8) == 0x1_0000_0000_0000_0000,
{
    assert(pow256(8) == 0x1_0000_0000_0000_0000) by {
        reveal_with_fuel(pow256, 9);
    }
}

proof fn lemma_le_value_take(s: Seq<u8>, n: nat)
    requires
        n <= s.len(),
        0 < n,
    ensures
        le_value(s.take(n as int)) == s[0] as nat + 256 * le_value(
            s.drop_first().take((n - 1) as int),
        ),
{
    assert(s.take(n as int).drop_first() =~= s.drop_first().take((n - 1) as int));
}

/// Converts the first 2 bytes of a slice to a 16-bit unsigned integer.
pub fn to_u16(s: &[u8]) -> (res: u16)
    requires
        s@.len() >= 2,
    ensures
        res == le_value(s@.take(2)),
{
    proof {
        reveal_with_fuel(le_value, 3);
        lemma_le_value_take(s@, 2);
        lemma_le_value_take(s@.drop_first(), 1);
    }
    s[0] as u16 + 256 * (s[1] as u16)
}

/// Converts the first 4 bytes of a slice to a 32-bit unsigned integer.
pub fn to_u32(s: &[u8]) -> (res: u32)
    requires
        s@.len() >= 4,
    ensures
        res == le_value(s@.take(4)),
{
    proof {
        let t1 = s@.drop_first();
        let t2 = t1.drop_first();
        let t3 = t2.drop_first();
        reveal_with_fuel(le_value, 2);
        lemma_le_value_take(s@, 4);
        lemma_le_value_take(t1, 3);
        lemma_le_value_take(t2, 2);
        lemma_le_value_take(t3, 1);
        assert(t1[0] == s@[1] && t2[0] == s@[2] && t3[0] == s@[3]);
    }
    s[0] as u32 + 0x100 * (s[1] as u32) + 0x1_0000 * (s[2] as u32) + 0x100_0000 * (s[3] as u32)
}

/// Converts the first 8 bytes of a slice to a 64-bit unsigned integer.
pub fn to_u64(s: &[u8]) -> (res: u64)
    requires
        s@.len() >= 8,
    ensures
        res == le_value(s@.take(8)),
{
    let low: u32 = to_u32(s);
    let upper: &[u8] = &s[4..s.len()];
    let high: u32 = to_u32(upper);
    proof {
        let t1 = s@.drop_first();
        let t2 = t1.drop_first();
        let t3 = t2.drop_first();
        let t4 = t3.drop_first();
        reveal_with_fuel(le_value, 2);
        lemma_le_value_take(s@, 8);
        lemma_le_value_take(t1, 7);
        lemma_le_value_take(t2, 6);
        lemma_le_value_take(t3, 5);
        lemma_le_value_take(s@, 4);
        lemma_le_value_take(t1, 3);
        lemma_le_value_take(t2, 2);
        lemma_le_value_take(t3, 1);
        assert(t4.take(0) =~= Seq::<u8>::empty());
        assert(upper@ =~= t4);
    }
    low as u64 + 0x1_0000_0000 * (high as u64)
}

/// Converts the first 4 bytes of a slice to a 32-bit signed integer.
pub fn to_i32(s: &[u8]) -> (res: i32)
    requires
        s@.len() >= 4,
    ensures
        res == signed32(le_value(s@.take(4))),
{
    let value: u32 = to_u32(s);
    if value < 0x8000_0000 {
        value as i32
    } else {
        (value as i64 - 0x1_0000_0000) as i32
    }
}

/// Converts the first 4 bytes of a slice to a `usize`.
pub fn to_usize(s: &[u8]) -> (res: usize)
    requires
        s@.len() >= 4,
    ensures
        res == le_value(s@.take(4)),
{
    to_u32(s) as usize
}

/// Appends the 8 little-endian bytes of `value` to `out`.
pub fn push_u64(out: &mut Vec<u8>, value: u64)
    ensures
        final(out)@ == old(out)@ + le_digits(value as nat, 8),
{
    let mut rest: u64 = value;
    let mut n: usize = 0;
    proof {
        assert(old(out)@ + le_digits(value as nat, 8) =~= out@ + le_digits(rest as nat, 8));
    }
    while n < 8
        invariant
            n <= 8,
            old(out)@ + le_digits(value as nat, 8) == out@ + le_digits(rest as nat, (8 - n) as nat),
        decreases 8 - n,
    {
        let ghost before = out@;
        out.push((rest % 256) as u8);
        proof {
            assert(before + le_digits(rest as nat, (8 - n) as nat) =~= out@ + le_digits(
                (rest / 256) as nat,
                (8 - n - 1) as nat,
            ));
        }
        rest = rest / 256;
        n = n + 1;
    }
    proof {
        assert(out@ + le_digits(rest as nat, 0) =~= out@);
    }
}

} // verus!
