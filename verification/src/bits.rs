//! Bit fields of 64-bit register values.
use bitfield::{BitRange, BitRangeMut};
use vstd::prelude::*;

verus! {

/// The 64-bit word whose lowest `width` bits are set, and no others.
pub open spec fn low_mask(width: nat) -> u64 {
    if width >= 64 {
        u64::MAX
    } else {
        (((1u64 << (width as u64)) - 1) as u64)
    }
}

/// The bits `lsb..=msb` of `value`, moved down to bit zero.
pub open spec fn spec_bit_range(value: u64, msb: nat, lsb: nat) -> u64 {
    (value >> (lsb as u64)) & low_mask((msb - lsb + 1) as nat)
}

/// `value` with its bits `lsb..=msb` replaced by the low bits of `field`.
pub open spec fn spec_set_bit_range(value: u64, msb: nat, lsb: nat, field: u64) -> u64 {
    let mask = low_mask((msb - lsb + 1) as nat) << (lsb as u64);
    (value & !mask) | ((field << (lsb as u64)) & mask)
}

/// Calls `bitfield::BitRange::bit_range` on a `u64`, which shifts the bits above `msb` out
/// at the top and then the bits below `lsb` out at the bottom, and panics (in a checked
/// build) unless `lsb <= msb < 64`.
#[verifier::external_body]
pub(crate) fn bit_range_u64(value: u64, msb: usize, lsb: usize) -> (field: u64)
    requires
        lsb <= msb < 64,
    ensures
        field == spec_bit_range(value, msb as nat, lsb as nat),
{
    BitRange::<u64>::bit_range(&value, msb, lsb)
}

/// Calls `bitfield::BitRangeMut::set_bit_range` on a `u64`, which clears the bits
/// `lsb..=msb` and sets them to the low bits of `field`, and panics (in a checked build)
/// unless `lsb <= msb < 64`.
#[verifier::external_body]
pub(crate) fn set_bit_range_u64(value: u64, msb: usize, lsb: usize, field: u64) -> (updated: u64)
    requires
        lsb <= msb < 64,
    ensures
        updated == spec_set_bit_range(value, msb as nat, lsb as nat, field),
{
    let mut word = value;
    BitRangeMut::<u64>::set_bit_range(&mut word, msb, lsb, field);
    word
}

/// Whether bit `bit` of `value` is set.
pub open spec fn spec_bit(value: u64, bit: nat) -> bool {
    spec_bit_range(value, bit, bit) != 0
}

/// Whether bit `bit` of `value` is set.
pub fn bit(value: u64, index: usize) -> (set: bool)
    requires
        index < 64,
    ensures
        set == spec_bit(value, index as nat),
{
    bit_range_u64(value, index, index) != 0
}

/// `value` with bit `bit` set to `set`.
pub fn set_bit(value: u64, index: usize, set: bool) -> (updated: u64)
    requires
        index < 64,
    ensures
        updated == spec_set_bit_range(
            value,
            index as nat,
            index as nat,
            if set {
                1
            } else {
                0
            },
        ),
{
    set_bit_range_u64(
        value,
        index,
        index,
        if set {
            1
        } else {
            0
        },
    )
}

/// The masks of the widths of the fields that this crate reads.
pub proof fn lemma_low_masks()
    ensures
        low_mask(1) == 0x1,
        low_mask(2) == 0x3,
        low_mask(5) == 0x1f,
        low_mask(6) == 0x3f,
        low_mask(9) == 0x1ff,
        low_mask(16) == 0xffff,
        low_mask(25) == 0x1ff_ffff,
        low_mask(47) == 0x7fff_ffff_ffff,
{
    assert(((1u64 << 1u64) - 1) as u64 == 0x1 && ((1u64 << 2u64) - 1) as u64 == 0x3 && ((1u64
        << 5u64) - 1) as u64 == 0x1f && ((1u64 << 6u64) - 1) as u64 == 0x3f && ((1u64 << 9u64)
        - 1) as u64 == 0x1ff && ((1u64 << 16u64) - 1) as u64 == 0xffff && ((1u64 << 25u64)
        - 1) as u64 == 0x1ff_ffff && ((1u64 << 47u64) - 1) as u64 == 0x7fff_ffff_ffff)
        by (bit_vector);
}

/// A field read by [`spec_bit_range`] is no larger than the mask of its width.
pub proof fn lemma_bit_range_bound(value: u64, msb: nat, lsb: nat)
    ensures
        spec_bit_range(value, msb, lsb) <= low_mask((msb - lsb + 1) as nat),
{
    let shifted = value >> (lsb as u64);
    let mask = low_mask((msb - lsb + 1) as nat);
    assert(shifted & mask <= mask) by (bit_vector);
}

/// Setting a field of one bit sets or clears that bit and leaves the others.
pub proof fn lemma_set_single_bit(value: u64, bit: u64, set: bool)
    requires
        bit < 64,
    ensures
        spec_set_bit_range(
            value,
            bit as nat,
            bit as nat,
            if set {
                1
            } else {
                0
            },
        ) == (if set {
            value | (1u64 << bit)
        } else {
            value & !(1u64 << bit)
        }),
{
    lemma_low_masks();
    assert((value & !(1u64 << bit)) | ((1u64 << bit) & (1u64 << bit)) == value | (1u64 << bit) && (
    value & !(1u64 << bit)) | ((0u64 << bit) & (1u64 << bit)) == value & !(1u64 << bit))
        by (bit_vector);
}

} // verus!
