//! Little-endian integers in machine code.
use vstd::arithmetic::div_mod::lemma_div_denominator;
use vstd::arithmetic::mul::lemma_mul_strictly_positive;
use vstd::prelude::*;

verus! {

/// 256 to the power `n`.
pub open spec fn pow256(n: nat) -> nat
    decreases n,
{
    if n == 0 {
        1
    } else {
        256 * pow256((n - 1) as nat)
    }
}

/// The lowest `count` bytes of `value`, least significant first.
pub open spec fn le(value: nat, count: nat) -> Seq<u8>
    decreases count,
{
    if count == 0 {
        Seq::empty()
    } else {
        le(value, (count - 1) as nat).push(((value / pow256((count - 1) as nat)) % 256) as u8)
    }
}

/// The unsigned value of little-endian `bytes`.
pub open spec fn le_value(bytes: Seq<u8>) -> nat
    decreases bytes.len(),
{
    if bytes.len() == 0 {
        0
    } else {
        le_value(bytes.drop_last()) + pow256((bytes.len() - 1) as nat) * (bytes.last() as nat)
    }
}

/// The two's complement of `value` in `count` bytes.
pub open spec fn twos(value: int, count: nat) -> nat {
    if value < 0 {
        (value + pow256(count)) as nat
    } else {
        value as nat
    }
}

/// The signed value of `count` little-endian bytes read as `value`.
pub open spec fn signed(value: nat, count: nat) -> int {
    if count > 0 && value >= pow256(count) / 2 {
        value - pow256(count)
    } else {
        value as int
    }
}

/// Powers of 256 are positive.
pub proof fn lemma_pow256_positive(n: nat)
    ensures
        pow256(n) > 0,
    decreases n,
{
    if n > 0 {
        lemma_pow256_positive((n - 1) as nat);
    }
}

/// The length of `le`.
pub proof fn lemma_le_length(value: nat, count: nat)
    ensures
        le(value, count).len() == count,
    decreases count,
{
    if count > 0 {
        lemma_le_length(value, (count - 1) as nat);
    }
}

/// Appends the lowest `count` bytes of `value`, least significant first.
pub fn push_le(out: &mut Vec<u8>, value: u64, count: usize)
    requires
        count <= 8,
    ensures
        final(out)@ == old(out)@ + le(value as nat, count as nat),
{
    let ghost start = out@;
    let mut rest = value;
    assert(pow256(0) == 1);
    assert(value as nat / 1 == value as nat);
    let mut index: usize = 0;
    while index < count
        invariant
            index <= count,
            count <= 8,
            out@ == start + le(value as nat, index as nat),
            rest == value as nat / pow256(index as nat),
        decreases count - index,
    {
        proof {
            lemma_pow256_positive(index as nat);
            lemma_div_denominator(value as int, pow256(index as nat) as int, 256);
            assert(pow256((index + 1) as nat) == 256 * pow256(index as nat));
            assert(le(value as nat, (index + 1) as nat) == le(value as nat, index as nat).push(
                ((value as nat / pow256(index as nat)) % 256) as u8,
            ));
        }
        out.push((rest % 256) as u8);
        rest = rest / 256;
        index = index + 1;
    }
}

/// A little-endian value is its first byte plus 256 times the value of the rest.
pub proof fn lemma_le_value_first(bytes: Seq<u8>)
    requires
        bytes.len() > 0,
    ensures
        le_value(bytes) == bytes[0] + 256 * le_value(bytes.drop_first()),
    decreases bytes.len(),
{
    if bytes.len() == 1 {
        assert(bytes.drop_last().len() == 0);
        assert(bytes.drop_first().len() == 0);
        assert(le_value(bytes.drop_last()) == 0);
        assert(le_value(bytes.drop_first()) == 0);
        assert(pow256(0) == 1);
        assert(bytes.last() == bytes[0]);
    } else {
        let shorter = bytes.drop_last();
        let tail = bytes.drop_first();
        lemma_le_value_first(shorter);
        assert(shorter[0] == bytes[0]);
        assert(shorter.drop_first() == tail.drop_last());
        assert(tail.last() == bytes.last());
        let n = (bytes.len() - 1) as nat;
        assert(le_value(tail) == le_value(tail.drop_last()) + pow256((n - 1) as nat) * (
        tail.last() as nat));
        assert(le_value(bytes) == le_value(shorter) + pow256(n) * (bytes.last() as nat));
        assert(pow256(n) == 256 * pow256((n - 1) as nat));
        let a = pow256((n - 1) as nat);
        let last = bytes.last() as nat;
        assert(pow256(n) * last == 256 * (a * last)) by (nonlinear_arith)
            requires
                pow256(n) == 256 * a,
        ;
    }
}

/// A value of `count` bytes is below `256^count`.
pub proof fn lemma_le_value_bound(bytes: Seq<u8>)
    ensures
        le_value(bytes) < pow256(bytes.len()),
    decreases bytes.len(),
{
    if bytes.len() > 0 {
        lemma_le_value_bound(bytes.drop_last());
        let n = (bytes.len() - 1) as nat;
        assert(pow256(n) * bytes.last() <= pow256(n) * 255) by (nonlinear_arith)
            requires
                bytes.last() <= 255,
        ;
    }
}

/// Reads `count` little-endian bytes at `start`.
pub fn read_le(bytes: &[u8], start: usize, count: usize) -> (value: u64)
    requires
        count <= 8,
        start + count <= bytes@.len(),
    ensures
        value == le_value(bytes@.subrange(start as int, start + count)),
{
    let length = bytes.len();
    let mut value: u64 = 0;
    let mut index: usize = count;
    proof {
        reveal_with_fuel(pow256, 9);
    }
    while index > 0
        invariant
            index <= count,
            count <= 8,
            start + count <= bytes@.len(),
            length == bytes@.len(),
            value == le_value(bytes@.subrange(start + index, start + count)),
            pow256(8) == 0x1_0000_0000_0000_0000,
        decreases index,
    {
        let ghost rest = bytes@.subrange(start + index, start + count);
        let ghost piece = bytes@.subrange(start + index - 1, start + count);
        proof {
            lemma_le_value_first(piece);
            assert(piece.drop_first() == rest);
            lemma_le_value_bound(piece);
            lemma_pow_monotone(piece.len(), 8);
        }
        let position = start + (index - 1);
        value = value * 256 + bytes[position] as u64;
        index = index - 1;
    }
    value
}

/// Powers of 256 grow with the exponent.
pub proof fn lemma_pow_monotone(small: nat, large: nat)
    requires
        small <= large,
    ensures
        pow256(small) <= pow256(large),
    decreases large,
{
    if small < large {
        lemma_pow_monotone(small, (large - 1) as nat);
        lemma_pow256_positive((large - 1) as nat);
    }
}

/// Reading back the lowest `count` bytes of `value` gives `value` modulo
/// `256^count`.
pub proof fn lemma_le_round_trip(value: nat, count: nat)
    ensures
        le_value(le(value, count)) == value % pow256(count),
    decreases count,
{
    lemma_le_length(value, count);
    if count > 0 {
        let below = pow256((count - 1) as nat);
        lemma_pow256_positive((count - 1) as nat);
        lemma_le_round_trip(value, (count - 1) as nat);
        let bytes = le(value, count);
        assert(bytes.drop_last() == le(value, (count - 1) as nat));
        vstd::arithmetic::div_mod::lemma_mod_breakdown(value as int, below as int, 256);
        assert(pow256(count) == below * 256) by (nonlinear_arith)
            requires
                pow256(count) == 256 * below,
        ;
    }
}

/// A 32-bit displacement written in two's complement reads back as itself.
pub proof fn lemma_signed_round_trip(value: int)
    requires
        -0x8000_0000 <= value < 0x8000_0000,
    ensures
        signed(le_value(le(twos(value, 4), 4)), 4) == value,
{
    reveal_with_fuel(pow256, 5);
    lemma_le_round_trip(twos(value, 4), 4);
    assert(pow256(4) == 0x1_0000_0000);
    let stored = twos(value, 4);
    assert(stored < 0x1_0000_0000);
    assert(stored % 0x1_0000_0000 == stored);
}

} // verus!
