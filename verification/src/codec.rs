//! Conversions between a pair of 16-bit registers and the 32-bit quantity
//! they carry. The register at the lower address holds the less-significant
//! half, for integers and for floats alike.

use vstd::prelude::*;

verus! {

/// An IEEE-754 single-precision number, held as its 32-bit pattern.
#[derive(Clone, Copy, Debug, PartialEq, Eq, Structural)]
pub struct Float32 {
    pub bits: u32,
}

/// The 32-bit quantity whose less-significant half is `lo` and whose
/// more-significant half is `hi`.
pub open spec fn join_halves(lo: u16, hi: u16) -> u32 {
    (lo as u32) | ((hi as u32) << 16)
}

/// The less-significant 16 bits of `val`.
pub open spec fn low_half(val: u32) -> u16 {
    (val & 0xffff) as u16
}

/// The more-significant 16 bits of `val`.
pub open spec fn high_half(val: u32) -> u16 {
    (val >> 16) as u16
}

/// The more-significant byte of a register.
pub open spec fn upper_byte(reg: u16) -> u8 {
    (reg >> 8) as u8
}

/// The less-significant byte of a register.
pub open spec fn lower_byte(reg: u16) -> u8 {
    (reg & 0xff) as u8
}

/// The register whose big-endian bytes are `b0`, `b1`.
pub open spec fn register_from_be(b0: u8, b1: u8) -> u16 {
    ((b0 as u16) << 8) | (b1 as u16)
}

/// The 32-bit word whose big-endian bytes are `b0`, `b1`, `b2`, `b3`.
pub open spec fn word_from_be(b0: u8, b1: u8, b2: u8, b3: u8) -> u32 {
    ((b0 as u32) << 24) | ((b1 as u32) << 16) | ((b2 as u32) << 8) | (b3 as u32)
}

/// Byte `k` (0 is the most significant) of the big-endian form of `val`.
pub open spec fn be_byte(val: u32, k: u32) -> u8 {
    ((val >> ((3 - k) * 8) as u32) & 0xff) as u8
}

/// Whether bit `i` of `val` is set.
pub open spec fn bit_of(val: u32, i: u32) -> bool {
    (val >> i) & 1 == 1
}

/// The 32 bits of `val`, bit 0 first.
pub open spec fn bits_of(val: u32) -> Seq<bool> {
    Seq::new(32, |i: int| bit_of(val, i as u32))
}

/// Reads a register pair as an unsigned 32-bit integer.
pub fn to_int(lo: u16, hi: u16) -> (val: u32)
    ensures
        val == join_halves(lo, hi),
        val == lo as int + (hi as int) * 65536,
{
    assert(((lo as u32) | ((hi as u32) << 16)) == (lo as u32) + (hi as u32) * 65536)
        by (bit_vector);
    (lo as u32) | ((hi as u32) << 16)
}

/// Splits an unsigned 32-bit integer into its register pair, the
/// less-significant half first.
pub fn from_int(val: u32) -> (regs: [u16; 2])
    ensures
        regs[0] == low_half(val),
        regs[1] == high_half(val),
        val == regs[0] as int + (regs[1] as int) * 65536,
{
    assert((val & 0xffff) < 0x10000 && (val >> 16) < 0x10000 && val == (val & 0xffff) + (val
        >> 16) * 65536) by (bit_vector);
    [(val & 0xffff) as u16, (val >> 16) as u16]
}

/// Reads a register pair as a single-precision float: the four bytes
/// `hi` then `lo`, each register big-endian, form the big-endian pattern.
pub fn to_float(lo: u16, hi: u16) -> (val: Float32)
    ensures
        val.bits == word_from_be(upper_byte(hi), lower_byte(hi), upper_byte(lo), lower_byte(lo)),
        val.bits == join_halves(lo, hi),
{
    assert((hi >> 8) < 0x100 && (hi & 0xff) < 0x100 && (lo >> 8) < 0x100 && (lo & 0xff) < 0x100)
        by (bit_vector);
    let b0: u8 = (hi >> 8) as u8;
    let b1: u8 = (hi & 0xff) as u8;
    let b2: u8 = (lo >> 8) as u8;
    let b3: u8 = (lo & 0xff) as u8;
    assert(word_from_be((hi >> 8) as u8, (hi & 0xff) as u8, (lo >> 8) as u8, (lo & 0xff) as u8)
        == (lo as u32) | ((hi as u32) << 16)) by (bit_vector);
    Float32 { bits: ((b0 as u32) << 24) | ((b1 as u32) << 16) | ((b2 as u32) << 8) | (b3 as u32) }
}

/// Splits a single-precision float into its register pair: the two
/// less-significant big-endian bytes form the first register, the two
/// more-significant ones the second.
pub fn from_float(val: Float32) -> (regs: [u16; 2])
    ensures
        regs[0] == register_from_be(be_byte(val.bits, 2), be_byte(val.bits, 3)),
        regs[1] == register_from_be(be_byte(val.bits, 0), be_byte(val.bits, 1)),
        regs[0] == low_half(val.bits),
        regs[1] == high_half(val.bits),
{
    let v: u32 = val.bits;
    assert(((v >> 24) & 0xff) < 0x100 && ((v >> 16) & 0xff) < 0x100 && ((v >> 8) & 0xff) < 0x100
        && (v & 0xff) < 0x100) by (bit_vector);
    let b0: u8 = ((v >> 24) & 0xff) as u8;
    let b1: u8 = ((v >> 16) & 0xff) as u8;
    let b2: u8 = ((v >> 8) & 0xff) as u8;
    let b3: u8 = (v & 0xff) as u8;
    assert(register_from_be(be_byte(v, 2), be_byte(v, 3)) == (v & 0xffff) as u16
        && register_from_be(be_byte(v, 0), be_byte(v, 1)) == (v >> 16) as u16
        && be_byte(v, 0) == ((v >> 24) & 0xff) as u8
        && be_byte(v, 1) == ((v >> 16) & 0xff) as u8
        && be_byte(v, 2) == ((v >> 8) & 0xff) as u8
        && be_byte(v, 3) == (v & 0xff) as u8) by (bit_vector);
    [((b2 as u16) << 8) | (b3 as u16), ((b0 as u16) << 8) | (b1 as u16)]
}

/// Expands a 32-bit integer into its bits, bit 0 first.
pub fn expand_bits(val: u32) -> (flags: [bool; 32])
    ensures
        flags@ == bits_of(val),
{
    let mut flags: [bool; 32] = [false; 32];
    let mut i: u32 = 0;
    while i < 32
        invariant
            i <= 32,
            forall|j: int| 0 <= j < i ==> flags@[j] == bit_of(val, j as u32),
        decreases 32 - i,
    {
        assert((val & (1u32 << i)) != 0 <==> (val >> i) & 1 == 1) by (bit_vector)
            requires
                i < 32,
        ;
        flags[i as usize] = (val & (1u32 << i)) != 0;
        i += 1;
    }
    assert(flags@ =~= bits_of(val));
    flags
}

/// Packs 32 booleans into a 32-bit integer: bit `i` is set exactly when
/// `flags[i]` is true.
pub fn pack_bits(flags: &[bool; 32]) -> (val: u32)
    ensures
        bits_of(val) == flags@,
{
    let mut val: u32 = 0;
    let mut i: u32 = 0;
    while i < 32
        invariant
            i <= 32,
            forall|j: int| 0 <= j < i ==> bit_of(val, j as u32) == flags@[j],
        decreases 32 - i,
    {
        let mask: u32 = 1u32 << i;
        let prev: u32 = val;
        if flags[i as usize] {
            val |= mask;
        } else {
            val &= !mask;
        }
        proof {
            assert(bit_of(prev | (1u32 << i), i) && !bit_of(prev & !(1u32 << i), i)) by (bit_vector)
                requires
                    i < 32,
            ;
            assert forall|j: int| 0 <= j < i implies bit_of(val, j as u32) == flags@[j] by {
                let k: u32 = j as u32;
                assert(bit_of(prev | (1u32 << i), k) == bit_of(prev, k) && bit_of(
                    prev & !(1u32 << i),
                    k,
                ) == bit_of(prev, k)) by (bit_vector)
                    requires
                        i < 32,
                        k < i,
                ;
            }
        }
        i += 1;
    }
    assert(bits_of(val) =~= flags@);
    val
}

/// Splitting an integer into registers and reading them back gives the
/// integer again.
pub proof fn lemma_int_round_trip(val: u32)
    ensures
        join_halves(low_half(val), high_half(val)) == val,
{
    assert((((val & 0xffff) as u16) as u32) | ((((val >> 16) as u16) as u32) << 16) == val)
        by (bit_vector);
}

/// Reading a register pair as an integer and splitting it again gives
/// the same pair.
pub proof fn lemma_registers_round_trip(lo: u16, hi: u16)
    ensures
        low_half(join_halves(lo, hi)) == lo,
        high_half(join_halves(lo, hi)) == hi,
{
    assert(((((lo as u32) | ((hi as u32) << 16)) & 0xffff) as u16) == lo && ((((lo as u32) | ((
        hi as u32) << 16)) >> 16) as u16) == hi) by (bit_vector);
}

/// A float survives the trip through its register pair with every bit of
/// its pattern intact, whatever the pattern (a NaN included): the
/// big-endian bytes taken apart and put together again are the pattern.
pub proof fn lemma_float_round_trip(val: Float32)
    ensures
        word_from_be(
            upper_byte(high_half(val.bits)),
            lower_byte(high_half(val.bits)),
            upper_byte(low_half(val.bits)),
            lower_byte(low_half(val.bits)),
        ) == val.bits,
        register_from_be(be_byte(val.bits, 2), be_byte(val.bits, 3)) == low_half(val.bits),
        register_from_be(be_byte(val.bits, 0), be_byte(val.bits, 1)) == high_half(val.bits),
{
    let v = val.bits;
    assert(word_from_be(
        upper_byte(high_half(v)),
        lower_byte(high_half(v)),
        upper_byte(low_half(v)),
        lower_byte(low_half(v)),
    ) == v) by (bit_vector);
    assert(register_from_be(be_byte(v, 2), be_byte(v, 3)) == low_half(v) && register_from_be(
        be_byte(v, 0),
        be_byte(v, 1),
    ) == high_half(v)) by (bit_vector);
}

/// Packing 32 booleans and expanding the result gives the same booleans;
/// a 32-bit integer is determined by its bits.
pub proof fn lemma_bits_round_trip(flags: Seq<bool>, val: u32)
    requires
        flags.len() == 32,
        bits_of(val) == flags,
    ensures
        forall|i: int| 0 <= i < 32 ==> flags[i] == bit_of(val, i as u32),
        forall|other: u32| bits_of(other) == flags ==> other == val,
{
    assert forall|i: int| 0 <= i < 32 implies flags[i] == bit_of(val, i as u32) by {
        assert(bits_of(val)[i] == bit_of(val, i as u32));
    }
    assert forall|other: u32| bits_of(other) == flags implies other == val by {
        lemma_bits_determine(other, val);
    }
}

/// Two integers with the same bits are equal.
pub proof fn lemma_bits_determine(a: u32, b: u32)
    requires
        bits_of(a) == bits_of(b),
    ensures
        a == b,
{
    assert forall|i: u32| i < 32 implies bit_of(a, i) == bit_of(b, i) by {
        assert(bits_of(a)[i as int] == bit_of(a, i));
        assert(bits_of(b)[i as int] == bit_of(b, i));
    }
    lemma_same_bits(a, b);
}

proof fn lemma_same_bits(a: u32, b: u32)
    requires
        forall|i: u32| i < 32 ==> bit_of(a, i) == bit_of(b, i),
    ensures
        a == b,
{
    let x: u32 = a ^ b;
    assert forall|i: u32| i < 32 implies !bit_of(x, i) by {
        assert(bit_of(a, i) == bit_of(b, i));
        assert(bit_of(a, i) == bit_of(b, i) ==> !bit_of(a ^ b, i)) by (bit_vector)
            requires
                i < 32,
        ;
    }
    assert(!bit_of(x, 0) && !bit_of(x, 1) && !bit_of(x, 2) && !bit_of(x, 3) && !bit_of(x, 4)
        && !bit_of(x, 5) && !bit_of(x, 6) && !bit_of(x, 7) && !bit_of(x, 8) && !bit_of(x, 9)
        && !bit_of(x, 10) && !bit_of(x, 11) && !bit_of(x, 12) && !bit_of(x, 13) && !bit_of(x, 14)
        && !bit_of(x, 15) && !bit_of(x, 16) && !bit_of(x, 17) && !bit_of(x, 18) && !bit_of(x, 19)
        && !bit_of(x, 20) && !bit_of(x, 21) && !bit_of(x, 22) && !bit_of(x, 23) && !bit_of(x, 24)
        && !bit_of(x, 25) && !bit_of(x, 26) && !bit_of(x, 27) && !bit_of(x, 28) && !bit_of(x, 29)
        && !bit_of(x, 30) && !bit_of(x, 31));
    assert(x == 0) by (bit_vector)
        requires
            !bit_of(x, 0) && !bit_of(x, 1) && !bit_of(x, 2) && !bit_of(x, 3) && !bit_of(x, 4)
                && !bit_of(x, 5) && !bit_of(x, 6) && !bit_of(x, 7) && !bit_of(x, 8) && !bit_of(
                x,
                9,
            ) && !bit_of(x, 10) && !bit_of(x, 11) && !bit_of(x, 12) && !bit_of(x, 13) && !bit_of(
                x,
                14,
            ) && !bit_of(x, 15) && !bit_of(x, 16) && !bit_of(x, 17) && !bit_of(x, 18) && !bit_of(
                x,
                19,
            ) && !bit_of(x, 20) && !bit_of(x, 21) && !bit_of(x, 22) && !bit_of(x, 23) && !bit_of(
                x,
                24,
            ) && !bit_of(x, 25) && !bit_of(x, 26) && !bit_of(x, 27) && !bit_of(x, 28) && !bit_of(
                x,
                29,
            ) && !bit_of(x, 30) && !bit_of(x, 31),
    ;
    assert(a ^ b == 0 ==> a == b) by (bit_vector);
}

} // verus!
