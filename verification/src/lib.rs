//! Membership of IP addresses in CIDR subnets.
//!
//! A subnet is given as text, `192.168.182.0/24` or `2001:db8::/32`, and an
//! address as a value of [`Address`]. The four queries read the subnets and
//! say whether an address lies in one of them, in any of several or in all of
//! several, and whether any of several addresses lies in any of several
//! subnets.

pub mod address;
pub mod cidr;
pub mod mask;
pub mod query;
pub mod subnet;

pub use crate::address::Address;
pub use crate::address::Family;
pub use crate::cidr::parse_subnet;
pub use crate::cidr::ParseError;
pub use crate::query::addr_in_all_subnets;
pub use crate::query::addr_in_any_subnet;
pub use crate::query::addr_in_subnet;
pub use crate::query::any_addr_in_any_subnet;
pub use crate::subnet::Subnet;
