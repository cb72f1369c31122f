//! Network masks: the bit patterns that select the leading bits of an address.

use vstd::prelude::*;

verus! {

/// The 32-bit mask whose top `prefix_len` bits are set and whose other bits are clear.
/// A length of 32 or more selects every bit.
pub open spec fn mask_v4(prefix_len: u8) -> u32 {
    if prefix_len >= 32 {
        0xffff_ffffu32
    } else {
        !(0xffff_ffffu32 >> (prefix_len as u32))
    }
}

/// The 128-bit mask whose top `prefix_len` bits are set and whose other bits are clear.
/// A length of 128 or more selects every bit.
pub open spec fn mask_v6(prefix_len: u8) -> u128 {
    if prefix_len >= 128 {
        0xffff_ffff_ffff_ffff_ffff_ffff_ffff_ffffu128
    } else {
        !(0xffff_ffff_ffff_ffff_ffff_ffff_ffff_ffffu128 >> (prefix_len as u128))
    }
}

/// Computes the 32-bit mask for a prefix length.
pub fn prefix_mask_v4(prefix_len: u8) -> (mask: u32)
    ensures
        mask == mask_v4(prefix_len),
{
    if prefix_len >= 32 {
        u32::MAX
    } else {
        !(u32::MAX >> (prefix_len as u32))
    }
}

/// Computes the 128-bit mask for a prefix length.
pub fn prefix_mask_v6(prefix_len: u8) -> (mask: u128)
    ensures
        mask == mask_v6(prefix_len),
{
    if prefix_len >= 128 {
        u128::MAX
    } else {
        !(u128::MAX >> (prefix_len as u128))
    }
}

/// The top `prefix_len` bits of a 32-bit address, moved down to the low end.
/// No bits at all are the number 0.
pub open spec fn leading_bits_v4(addr: u32, prefix_len: u8) -> u32 {
    if prefix_len == 0 {
        0u32
    } else if prefix_len >= 32 {
        addr
    } else {
        addr >> ((32 - prefix_len) as u32)
    }
}

/// The top `prefix_len` bits of a 128-bit address, moved down to the low end.
/// No bits at all are the number 0.
pub open spec fn leading_bits_v6(addr: u128, prefix_len: u8) -> u128 {
    if prefix_len == 0 {
        0u128
    } else if prefix_len >= 128 {
        addr
    } else {
        addr >> ((128 - prefix_len) as u128)
    }
}

/// Bit `index` of a 32-bit mask, counted from the most significant bit, is set
/// exactly when `index` lies below the prefix length.
pub proof fn lemma_mask_v4_bits(prefix_len: u8, index: u32)
    requires
        prefix_len <= 32,
        index < 32,
    ensures
        ((mask_v4(prefix_len) >> ((31 - index) as u32)) & 1 == 1) <==> index < prefix_len,
{
    let m = mask_v4(prefix_len);
    let p: u32 = prefix_len as u32;
    assert(((m >> ((31 - index) as u32)) & 1 == 1) <==> index < p) by (bit_vector)
        requires
            p <= 32,
            index < 32,
            m == (if p >= 32 { 0xffff_ffffu32 } else { !(0xffff_ffffu32 >> p) }),
    ;
}

/// Bit `index` of a 128-bit mask, counted from the most significant bit, is set
/// exactly when `index` lies below the prefix length.
pub proof fn lemma_mask_v6_bits(prefix_len: u8, index: u128)
    requires
        prefix_len <= 128,
        index < 128,
    ensures
        ((mask_v6(prefix_len) >> ((127 - index) as u128)) & 1 == 1) <==> index < prefix_len,
{
    let m = mask_v6(prefix_len);
    let p: u128 = prefix_len as u128;
    assert(((m >> ((127 - index) as u128)) & 1 == 1) <==> index < p) by (bit_vector)
        requires
            p <= 128,
            index < 128,
            m == (if p >= 128 {
                0xffff_ffff_ffff_ffff_ffff_ffff_ffff_ffffu128
            } else {
                !(0xffff_ffff_ffff_ffff_ffff_ffff_ffff_ffffu128 >> p)
            }),
    ;
}

/// Two 32-bit addresses agree under the mask of a prefix exactly when their
/// leading bits, as many as the prefix is long, are the same.
pub proof fn lemma_mask_v4_selects_leading_bits(a: u32, b: u32, prefix_len: u8)
    requires
        prefix_len <= 32,
    ensures
        (a & mask_v4(prefix_len) == b & mask_v4(prefix_len)) <==> leading_bits_v4(a, prefix_len)
            == leading_bits_v4(b, prefix_len),
{
    let m = mask_v4(prefix_len);
    let p: u32 = prefix_len as u32;
    if prefix_len == 0 {
        assert(mask_v4(0) == 0u32) by (bit_vector);
        assert(a & 0u32 == b & 0u32) by (bit_vector);
    } else if prefix_len >= 32 {
        assert(a & 0xffff_ffffu32 == a) by (bit_vector);
        assert(b & 0xffff_ffffu32 == b) by (bit_vector);
    } else {
        assert((a & m == b & m) <==> (a >> ((32 - p) as u32)) == (b >> ((32 - p) as u32)))
            by (bit_vector)
            requires
                0 < p < 32,
                m == !(0xffff_ffffu32 >> p),
        ;
    }
}

/// Two 128-bit addresses agree under the mask of a prefix exactly when their
/// leading bits, as many as the prefix is long, are the same.
#[verifier::rlimit(100)]
pub proof fn lemma_mask_v6_selects_leading_bits(a: u128, b: u128, prefix_len: u8)
    requires
        prefix_len <= 128,
    ensures
        (a & mask_v6(prefix_len) == b & mask_v6(prefix_len)) <==> leading_bits_v6(a, prefix_len)
            == leading_bits_v6(b, prefix_len),
{
    let m = mask_v6(prefix_len);
    let p: u128 = prefix_len as u128;
    if prefix_len == 0 {
        assert(mask_v6(0) == 0u128) by (bit_vector);
        assert(a & 0u128 == b & 0u128) by (bit_vector);
    } else if prefix_len >= 128 {
        assert(a & 0xffff_ffff_ffff_ffff_ffff_ffff_ffff_ffffu128 == a) by (bit_vector);
        assert(b & 0xffff_ffff_ffff_ffff_ffff_ffff_ffff_ffffu128 == b) by (bit_vector);
    } else {
        assert((a & m == b & m) <==> (a >> ((128 - p) as u128)) == (b >> ((128 - p) as u128)))
            by (bit_vector)
            requires
                0 < p < 128,
                m == !(0xffff_ffff_ffff_ffff_ffff_ffff_ffff_ffffu128 >> p),
        ;
    }
}

} // verus!
