//! Fixed-width big-endian numbers: the byte layout of every scalar on the wire.
//!
//! A scalar of `width` bytes is the base-256 numeral of its bit pattern, most
//! significant digit first. Signed numbers use their two's complement pattern.

use vstd::prelude::*;

verus! {

/// How many bit patterns `width` bytes can hold: 256 to the power `width`.
pub open spec fn capacity(width: nat) -> nat
    decreases width,
{
    if width == 0 {
        1
    } else {
        256 * capacity((width - 1) as nat)
    }
}

/// The `width` low-order base-256 digits of `value`, most significant first.
pub open spec fn be_bytes(value: nat, width: nat) -> Seq<u8>
    decreases width,
{
    if width == 0 {
        Seq::empty()
    } else {
        be_bytes(value / 256, (width - 1) as nat).push((value % 256) as u8)
    }
}

/// The number whose base-256 numeral, most significant digit first, is `bytes`.
pub open spec fn be_value(bytes: Seq<u8>) -> nat
    decreases bytes.len(),
{
    if bytes.len() == 0 {
        0
    } else {
        256 * be_value(bytes.drop_last()) + bytes.last() as nat
    }
}

/// The bit pattern of a signed number in two's complement over `width` bytes.
pub open spec fn twos_complement(value: int, width: nat) -> nat {
    if value < 0 {
        (value + capacity(width)) as nat
    } else {
        value as nat
    }
}

/// The signed number that a two's complement bit pattern of `width` bytes stands for.
pub open spec fn from_twos_complement(bits: nat, width: nat) -> int {
    if 2 * bits >= capacity(width) {
        bits - capacity(width)
    } else {
        bits as int
    }
}

/// The capacities of the scalar widths of the wire format.
pub proof fn lemma_capacity_values()
    ensures
        capacity(0) == 1,
        capacity(1) == 0x100,
        capacity(2) == 0x1_0000,
        capacity(4) == 0x1_0000_0000,
        capacity(8) == 0x1_0000_0000_0000_0000,
        capacity(16) == 0x1_0000_0000_0000_0000_0000_0000_0000_0000,
{
    reveal_with_fuel(capacity, 17);
}

/// More bytes never hold fewer patterns.
pub proof fn lemma_capacity_monotonic(narrow: nat, wide: nat)
    requires
        narrow <= wide,
    ensures
        1 <= capacity(narrow) <= capacity(wide),
    decreases wide,
{
    if wide == 0 {
    } else if narrow == wide {
        lemma_capacity_monotonic((narrow - 1) as nat, (wide - 1) as nat);
    } else {
        lemma_capacity_monotonic(narrow, (wide - 1) as nat);
    }
}

/// A numeral of `width` digits has `width` bytes.
pub proof fn lemma_be_bytes_len(value: nat, width: nat)
    ensures
        be_bytes(value, width).len() == width,
    decreases width,
{
    if width > 0 {
        lemma_be_bytes_len(value / 256, (width - 1) as nat);
    }
}

/// A numeral of `n` digits stands for a number below `capacity(n)`.
pub proof fn lemma_be_value_bound(bytes: Seq<u8>)
    ensures
        be_value(bytes) < capacity(bytes.len()),
    decreases bytes.len(),
{
    if bytes.len() > 0 {
        lemma_be_value_bound(bytes.drop_last());
    }
}

/// Reading back the numeral of a number that fits gives the number.
pub proof fn lemma_be_value_of_bytes(value: nat, width: nat)
    requires
        value < capacity(width),
    ensures
        be_value(be_bytes(value, width)) == value,
    decreases width,
{
    if width > 0 {
        let high = be_bytes(value / 256, (width - 1) as nat);
        lemma_be_value_of_bytes(value / 256, (width - 1) as nat);
        lemma_be_bytes_len(value / 256, (width - 1) as nat);
        assert(be_bytes(value, width).drop_last() =~= high);
    }
}

/// Two's complement is undone by `from_twos_complement` on every number that
/// `width` bytes can hold.
pub proof fn lemma_twos_complement_inverse(value: int, width: nat)
    requires
        -(capacity(width) as int) <= 2 * value < capacity(width),
    ensures
        twos_complement(value, width) < capacity(width),
        from_twos_complement(twos_complement(value, width), width) == value,
{
}

/// A numeral followed by other bytes is read back from the front, and the
/// other bytes are what is left.
pub proof fn lemma_numeral_prefix(value: nat, width: nat, rest: Seq<u8>)
    requires
        value < capacity(width),
    ensures
        (be_bytes(value, width) + rest).len() >= width,
        be_value((be_bytes(value, width) + rest).take(width as int)) == value,
        (be_bytes(value, width) + rest).skip(width as int) == rest,
{
    lemma_be_bytes_len(value, width);
    lemma_be_value_of_bytes(value, width);
    assert((be_bytes(value, width) + rest).take(width as int) =~= be_bytes(value, width));
    assert((be_bytes(value, width) + rest).skip(width as int) =~= rest);
}

/// Appends the `width` low-order bytes of `bits`, most significant first.
pub fn put_be(data: &mut Vec<u8>, bits: u128, width: usize)
    ensures
        final(data)@ == old(data)@ + be_bytes(bits as nat, width as nat),
    decreases width,
{
    if width > 0 {
        put_be(data, bits / 256, width - 1);
        data.push((bits % 256) as u8);
        assert(data@ =~= old(data)@ + be_bytes(bits as nat, width as nat));
    } else {
        assert(data@ =~= old(data)@ + be_bytes(bits as nat, width as nat));
    }
}

/// Reads a big-endian numeral of at most sixteen bytes.
pub fn get_be(bytes: &[u8]) -> (bits: u128)
    requires
        bytes@.len() <= 16,
    ensures
        bits == be_value(bytes@),
        bits < capacity(bytes@.len()),
{
    let mut bits: u128 = 0;
    let mut i: usize = 0;
    while i < bytes.len()
        invariant
            i <= bytes@.len() <= 16,
            bits == be_value(bytes@.take(i as int)),
        decreases bytes@.len() - i,
    {
        proof {
            lemma_be_value_bound(bytes@.take(i as int));
            lemma_capacity_monotonic((i + 1) as nat, 16);
            lemma_capacity_values();
            assert(bytes@.take(i + 1).drop_last() =~= bytes@.take(i as int));
        }
        bits = bits * 256 + bytes[i] as u128;
        i += 1;
    }
    proof {
        assert(bytes@.take(i as int) =~= bytes@);
        lemma_be_value_bound(bytes@);
    }
    bits
}

/// The largest bit pattern of `width` bytes.
pub fn all_ones(width: usize) -> (bits: u128)
    requires
        width <= 16,
    ensures
        bits == capacity(width as nat) - 1,
    decreases width,
{
    if width == 0 {
        0
    } else {
        let low = all_ones(width - 1);
        proof {
            lemma_capacity_monotonic(width as nat, 16);
            lemma_capacity_values();
        }
        low * 256 + 255
    }
}

/// The two's complement bit pattern of a signed number over `width` bytes.
pub fn signed_to_bits(value: i128, width: usize) -> (bits: u128)
    requires
        width <= 16,
        -(capacity(width as nat) as int) <= 2 * value < capacity(width as nat),
    ensures
        bits == twos_complement(value as int, width as nat),
        bits < capacity(width as nat),
{
    if value >= 0 {
        value as u128
    } else {
        let ones = all_ones(width);
        let below = (-(value + 1)) as u128;
        ones - below
    }
}

/// The signed number that a two's complement bit pattern of `width` bytes stands for.
pub fn signed_from_bits(bits: u128, width: usize) -> (value: i128)
    requires
        1 <= width <= 16,
        bits < capacity(width as nat),
    ensures
        value == from_twos_complement(bits as nat, width as nat),
        -(capacity(width as nat) as int) <= 2 * value < capacity(width as nat),
{
    let ones = all_ones(width);
    proof {
        lemma_capacity_monotonic(width as nat, 16);
        lemma_capacity_monotonic(1, width as nat);
        lemma_capacity_values();
    }
    if bits > ones / 2 {
        let below = ones - bits;
        -(below as i128) - 1
    } else {
        bits as i128
    }
}

} // verus!
