//! Subnets and the containment test.

use vstd::prelude::*;

use crate::address::Address;
use crate::address::Family;
use crate::mask::leading_bits_v4;
use crate::mask::leading_bits_v6;
use crate::mask::lemma_mask_v4_selects_leading_bits;
use crate::mask::lemma_mask_v6_selects_leading_bits;
use crate::mask::mask_v4;
use crate::mask::mask_v6;
use crate::mask::prefix_mask_v4;
use crate::mask::prefix_mask_v6;

verus! {

/// A CIDR subnet: a base address and the number of its leading bits that an
/// address must share to lie inside. The base is kept as given; bits beyond
/// the prefix may be set and take no part in the test.
#[allow(inconsistent_fields)]
#[derive(Clone, Copy, Debug, PartialEq, Eq, Hash, Structural)]
pub enum Subnet {
    /// A subnet of the 32-bit family.
    V4 { base: u32, prefix_len: u8 },
    /// A subnet of the 128-bit family.
    V6 { base: u128, prefix_len: u8 },
}

impl Subnet {
    /// The family of the subnet.
    pub open spec fn family_spec(&self) -> Family {
        match *self {
            Subnet::V4 { .. } => Family::V4,
            Subnet::V6 { .. } => Family::V6,
        }
    }

    /// The base address.
    pub open spec fn base_spec(&self) -> Address {
        match *self {
            Subnet::V4 { base, .. } => Address::V4(base),
            Subnet::V6 { base, .. } => Address::V6(base),
        }
    }

    /// The prefix length.
    pub open spec fn prefix_len_spec(&self) -> u8 {
        match *self {
            Subnet::V4 { prefix_len, .. } => prefix_len,
            Subnet::V6 { prefix_len, .. } => prefix_len,
        }
    }

    /// A subnet is well formed when its prefix is no longer than an address of its family.
    pub open spec fn wf(&self) -> bool {
        self.prefix_len_spec() <= self.family_spec().bits_spec()
    }

    /// The subnet with the given base and prefix length.
    pub open spec fn of(base: Address, prefix_len: u8) -> Subnet {
        match base {
            Address::V4(base) => Subnet::V4 { base, prefix_len },
            Address::V6(base) => Subnet::V6 { base, prefix_len },
        }
    }

    /// Whether `addr` lies in the subnet: it is of the subnet's family and agrees
    /// with the base on every bit that the mask of the prefix selects.
    pub open spec fn contains_spec(&self, addr: &Address) -> bool {
        match (*self, *addr) {
            (Subnet::V4 { base, prefix_len }, Address::V4(a)) => {
                base & mask_v4(prefix_len) == a & mask_v4(prefix_len)
            },
            (Subnet::V6 { base, prefix_len }, Address::V6(a)) => {
                base & mask_v6(prefix_len) == a & mask_v6(prefix_len)
            },
            _ => false,
        }
    }

    /// Whether any of `addrs` lies in the subnet.
    pub open spec fn contains_any_spec(&self, addrs: Seq<Address>) -> bool {
        exists|k: int| 0 <= k < addrs.len() && self.contains_spec(&#[trigger] addrs[k])
    }

    /// Builds a subnet, or nothing if the prefix is longer than the family allows.
    pub fn new(base: Address, prefix_len: u8) -> (subnet: Option<Subnet>)
        ensures
            subnet is Some <==> prefix_len <= base.family_spec().bits_spec(),
            subnet is Some ==> subnet == Some(Subnet::of(base, prefix_len)),
            subnet matches Some(s) ==> s.wf(),
    {
        match base {
            Address::V4(base) => if prefix_len <= 32 {
                Some(Subnet::V4 { base, prefix_len })
            } else {
                None
            },
            Address::V6(base) => if prefix_len <= 128 {
                Some(Subnet::V6 { base, prefix_len })
            } else {
                None
            },
        }
    }

    /// The family of the subnet.
    #[verifier::when_used_as_spec(family_spec)]
    pub fn family(&self) -> (family: Family)
        ensures
            family == self.family_spec(),
    {
        match self {
            Subnet::V4 { .. } => Family::V4,
            Subnet::V6 { .. } => Family::V6,
        }
    }

    /// The base address, as it was given.
    #[verifier::when_used_as_spec(base_spec)]
    pub fn base(&self) -> (base: Address)
        ensures
            base == self.base_spec(),
    {
        match self {
            Subnet::V4 { base, .. } => Address::V4(*base),
            Subnet::V6 { base, .. } => Address::V6(*base),
        }
    }

    /// The prefix length.
    #[verifier::when_used_as_spec(prefix_len_spec)]
    pub fn prefix_len(&self) -> (prefix_len: u8)
        ensures
            prefix_len == self.prefix_len_spec(),
    {
        match self {
            Subnet::V4 { prefix_len, .. } => *prefix_len,
            Subnet::V6 { prefix_len, .. } => *prefix_len,
        }
    }

    /// Tests whether `addr` lies in the subnet. An address of the other family never does.
    #[verifier::when_used_as_spec(contains_spec)]
    pub fn contains(&self, addr: &Address) -> (inside: bool)
        requires
            self.wf(),
        ensures
            inside == self.contains_spec(addr),
    {
        match (self, addr) {
            (Subnet::V4 { base, prefix_len }, Address::V4(a)) => {
                let mask: u32 = prefix_mask_v4(*prefix_len);
                (*base & mask) == (*a & mask)
            },
            (Subnet::V6 { base, prefix_len }, Address::V6(a)) => {
                let mask: u128 = prefix_mask_v6(*prefix_len);
                (*base & mask) == (*a & mask)
            },
            _ => false,
        }
    }

    /// Tests whether any of `addrs` lies in the subnet, trying them in order.
    pub fn contains_any(&self, addrs: &[Address]) -> (inside: bool)
        requires
            self.wf(),
        ensures
            inside == self.contains_any_spec(addrs@),
    {
        let mut k: usize = 0;
        while k < addrs.len()
            invariant
                k <= addrs.len(),
                self.wf(),
                forall|j: int| 0 <= j < k ==> !self.contains_spec(&#[trigger] addrs@[j]),
            decreases addrs.len() - k,
        {
            if self.contains(&addrs[k]) {
                return true;
            }
            k += 1;
        }
        false
    }
}

/// An address lies in every subnet that is built on it, whatever the prefix length.
pub proof fn lemma_contains_own_base(base: Address, prefix_len: u8)
    requires
        Subnet::of(base, prefix_len).wf(),
    ensures
        Subnet::of(base, prefix_len).contains_spec(&base),
{
}

/// A subnet with prefix length 0 holds every address of its family.
pub proof fn lemma_zero_prefix_contains_family(base: Address, addr: Address)
    requires
        addr.family_spec() == base.family_spec(),
    ensures
        Subnet::of(base, 0).contains_spec(&addr),
{
    match (base, addr) {
        (Address::V4(b), Address::V4(a)) => {
            assert(mask_v4(0) == 0u32) by (bit_vector);
            assert(b & 0u32 == a & 0u32) by (bit_vector);
        },
        (Address::V6(b), Address::V6(a)) => {
            assert(mask_v6(0) == 0u128) by (bit_vector);
            assert(b & 0u128 == a & 0u128) by (bit_vector);
        },
        _ => {},
    }
}

/// A subnet whose prefix is as long as an address holds its base and nothing else.
pub proof fn lemma_full_prefix_contains_only_base(base: Address, addr: Address)
    ensures
        Subnet::of(base, base.family_spec().bits_spec()).contains_spec(&addr) <==> addr == base,
{
    match (base, addr) {
        (Address::V4(b), Address::V4(a)) => {
            assert(b & 0xffff_ffffu32 == b) by (bit_vector);
            assert(a & 0xffff_ffffu32 == a) by (bit_vector);
        },
        (Address::V6(b), Address::V6(a)) => {
            assert(b & 0xffff_ffff_ffff_ffff_ffff_ffff_ffff_ffffu128 == b) by (bit_vector);
            assert(a & 0xffff_ffff_ffff_ffff_ffff_ffff_ffff_ffffu128 == a) by (bit_vector);
        },
        _ => {},
    }
}

/// No subnet holds an address of the other family.
pub proof fn lemma_other_family_outside(subnet: Subnet, addr: Address)
    requires
        addr.family_spec() != subnet.family_spec(),
    ensures
        !subnet.contains_spec(&addr),
{
}

/// Bits of the base beyond the prefix take no part: two subnets of one prefix
/// length, the base of one lying in the other, hold the same addresses.
pub proof fn lemma_contains_ignores_host_bits(subnet: Subnet, other: Subnet, addr: Address)
    requires
        other.prefix_len_spec() == subnet.prefix_len_spec(),
        subnet.contains_spec(&other.base_spec()),
    ensures
        other.contains_spec(&addr) == subnet.contains_spec(&addr),
{
}

/// Containment compares leading bits: an address lies in a subnet exactly when it
/// is of the subnet's family and its first `prefix_len` bits are those of the base.
pub proof fn lemma_contains_compares_leading_bits(subnet: Subnet, addr: Address)
    requires
        subnet.wf(),
    ensures
        subnet.contains_spec(&addr) <==> match (subnet, addr) {
            (Subnet::V4 { base, prefix_len }, Address::V4(a)) => leading_bits_v4(a, prefix_len)
                == leading_bits_v4(base, prefix_len),
            (Subnet::V6 { base, prefix_len }, Address::V6(a)) => leading_bits_v6(a, prefix_len)
                == leading_bits_v6(base, prefix_len),
            _ => false,
        },
{
    match (subnet, addr) {
        (Subnet::V4 { base, prefix_len }, Address::V4(a)) => {
            lemma_mask_v4_selects_leading_bits(base, a, prefix_len);
        },
        (Subnet::V6 { base, prefix_len }, Address::V6(a)) => {
            lemma_mask_v6_selects_leading_bits(base, a, prefix_len);
        },
        _ => {},
    }
}

} // verus!
