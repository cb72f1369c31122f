//! Addresses of the two IP families, as plain integers.

use vstd::prelude::*;

verus! {

/// One of the two address families.
#[derive(Clone, Copy, Debug, PartialEq, Eq, Hash, Structural)]
pub enum Family {
    /// Addresses of 32 bits, written in dotted decimal.
    V4,
    /// Addresses of 128 bits, written in colon-separated hexadecimal.
    V6,
}

impl Family {
    /// Number of bits in an address of this family.
    pub open spec fn bits_spec(&self) -> u8 {
        match self {
            Family::V4 => 32,
            Family::V6 => 128,
        }
    }

    /// Number of bits in an address of this family.
    #[verifier::when_used_as_spec(bits_spec)]
    pub fn bits(&self) -> (bits: u8)
        ensures
            bits == self.bits_spec(),
    {
        match self {
            Family::V4 => 32,
            Family::V6 => 128,
        }
    }
}

/// An IP address: an unsigned integer as wide as its family, most significant
/// bit first. `192.168.182.1` is `V4(0xc0a8_b601)`.
#[derive(Clone, Copy, Debug, PartialEq, Eq, Hash, Structural)]
pub enum Address {
    /// An address of the 32-bit family.
    V4(u32),
    /// An address of the 128-bit family.
    V6(u128),
}

/// The 32-bit number that four octets spell, the first of them on top.
pub open spec fn octets_value(a: u8, b: u8, c: u8, d: u8) -> u32 {
    (a * 0x100_0000 + b * 0x1_0000 + c * 0x100 + d) as u32
}

/// The 128-bit number that eight groups of 16 bits spell, the first of them on top.
pub open spec fn segments_value(segments: Seq<u16>) -> u128
    recommends
        segments.len() == 8,
{
    (segments[0] * 0x1_0000_0000_0000_0000_0000_0000_0000
        + segments[1] * 0x1_0000_0000_0000_0000_0000_0000
        + segments[2] * 0x1_0000_0000_0000_0000_0000
        + segments[3] * 0x1_0000_0000_0000_0000
        + segments[4] * 0x1_0000_0000_0000
        + segments[5] * 0x1_0000_0000
        + segments[6] * 0x1_0000
        + segments[7]) as u128
}

impl Address {
    /// The address of the 32-bit family that is written `a.b.c.d`.
    pub fn from_octets(a: u8, b: u8, c: u8, d: u8) -> (addr: Address)
        ensures
            addr == Address::V4(octets_value(a, b, c, d)),
    {
        let high: u32 = (a as u32) * 0x100_0000 + (b as u32) * 0x1_0000;
        let low: u32 = (c as u32) * 0x100 + (d as u32);
        Address::V4(high + low)
    }

    /// The address of the 128-bit family whose eight groups, as they are
    /// written between colons, are `segments`.
    pub fn from_segments(segments: [u16; 8]) -> (addr: Address)
        ensures
            addr == Address::V6(segments_value(segments@)),
    {
        let first: u128 = (segments[0] as u128) * 0x1_0000_0000_0000_0000_0000_0000_0000
            + (segments[1] as u128) * 0x1_0000_0000_0000_0000_0000_0000;
        let second: u128 = (segments[2] as u128) * 0x1_0000_0000_0000_0000_0000
            + (segments[3] as u128) * 0x1_0000_0000_0000_0000;
        let third: u128 = (segments[4] as u128) * 0x1_0000_0000_0000
            + (segments[5] as u128) * 0x1_0000_0000;
        let fourth: u128 = (segments[6] as u128) * 0x1_0000 + (segments[7] as u128);
        Address::V6(first + second + third + fourth)
    }

    /// The family this address belongs to.
    pub open spec fn family_spec(&self) -> Family {
        match self {
            Address::V4(_) => Family::V4,
            Address::V6(_) => Family::V6,
        }
    }

    /// The family this address belongs to.
    #[verifier::when_used_as_spec(family_spec)]
    pub fn family(&self) -> (family: Family)
        ensures
            family == self.family_spec(),
    {
        match self {
            Address::V4(_) => Family::V4,
            Address::V6(_) => Family::V6,
        }
    }
}

} // verus!
