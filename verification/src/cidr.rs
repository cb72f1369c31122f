//! Reading a subnet from its text.
//!
//! A subnet text is an address literal, optionally followed by `/` and a prefix
//! length in decimal digits: `192.168.182.0/24`, `2001:db8::/32`, `10.1.2.3`.
//! A text without a prefix length names the single address it holds. The
//! literal decides the family; `netaddr2` reads it.

use vstd::prelude::*;
use vstd::slice::slice_subrange;
use vstd::string::StrSliceExecFns;
use vstd::string::StringExecFns;

use crate::address::Address;
use crate::subnet::Subnet;

verus! {

/// Reason given for an address literal that holds a space.
pub const INVALID_ADDRESS: &'static str = "invalid address";

/// Reason given for a prefix length that is not a decimal number or is longer
/// than the addresses of the family.
pub const INVALID_PREFIX: &'static str = "invalid prefix length";

/// What follows an address literal of the 32-bit family in the text that names
/// the single address as a network.
pub const HOST_SUFFIX_V4: &'static str = "/32";

/// What follows an address literal of the 128-bit family in the text that names
/// the single address as a network.
pub const HOST_SUFFIX_V6: &'static str = "/128";

/// The one failure of this library: a text that is no subnet.
#[derive(Clone, Debug, PartialEq, Eq)]
pub struct ParseError {
    /// The text that was turned down, as it was given.
    pub text: String,
    /// Why it was turned down.
    pub reason: String,
}

/// A `ParseError` as contracts see it.
pub struct ParseFault {
    /// The characters of the text that was turned down.
    pub text: Seq<char>,
    /// The characters of the reason.
    pub reason: Seq<char>,
}

impl View for ParseError {
    type V = ParseFault;

    open spec fn view(&self) -> ParseFault {
        ParseFault { text: self.text@, reason: self.reason@ }
    }
}

/// A result as contracts see it: the error by its view.
pub open spec fn fault_view<T>(result: Result<T, ParseError>) -> Result<T, ParseFault> {
    match result {
        Ok(value) => Ok(value),
        Err(error) => Err(error@),
    }
}

/// The address literal of a subnet text: all that stands before the first `/`.
pub open spec fn address_part(text: Seq<char>) -> Seq<char> {
    match text.index_of_first('/') {
        Some(slash) => text.take(slash),
        None => text,
    }
}

/// The prefix length of a subnet text as written: all that stands behind the
/// first `/`, where there is one.
pub open spec fn prefix_part(text: Seq<char>) -> Option<Seq<char>> {
    match text.index_of_first('/') {
        Some(slash) => Some(text.skip(slash + 1)),
        None => None,
    }
}

/// Whether `c` is one of the digits `0` to `9`.
pub open spec fn is_digit(c: char) -> bool {
    '0' <= c <= '9'
}

/// The number that a decimal digit stands for.
pub open spec fn digit_value(c: char) -> nat {
    (c as u32 - '0' as u32) as nat
}

/// Whether `text` is a decimal number: one digit or more, and nothing else.
pub open spec fn is_decimal(text: Seq<char>) -> bool {
    &&& text.len() > 0
    &&& forall|i: int| 0 <= i < text.len() ==> is_digit(#[trigger] text[i])
}

/// The number that a run of decimal digits stands for.
pub open spec fn decimal_value(digits: Seq<char>) -> nat
    decreases digits.len(),
{
    if digits.len() == 0 {
        0
    } else {
        decimal_value(digits.drop_last()) * 10 + digit_value(digits.last())
    }
}

/// The prefix length that `text` states for addresses of `bits` bits: its value
/// where it is a decimal number no greater than `bits`.
pub open spec fn prefix_len_of(text: Seq<char>, bits: u8) -> Option<u8> {
    if is_decimal(text) && decimal_value(text) <= bits {
        Some(decimal_value(text) as u8)
    } else {
        None
    }
}

/// What `netaddr2` makes of a text that it is asked to read as a network: the
/// network's address, tagged with its family, or the message of its error.
pub uninterp spec fn parsed_network(text: Seq<char>) -> Result<Address, Seq<char>>;

/// Hands `text` to `netaddr2`, which reads it in `from_str` of its `FromStr`
/// for `NetAddr`, and returns the address of the network it read, or the
/// message that its error carries. Nothing is proved of this function. Its
/// contract claims one thing: what comes back is decided by the characters of
/// `text` alone, so that `parsed_network` can stand for it.
#[verifier::external_body]
fn parse_network(text: &str) -> (network: Result<Address, String>)
    ensures
        match network {
            Ok(address) => parsed_network(text@) == Ok::<Address, Seq<char>>(address),
            Err(reason) => parsed_network(text@) == Err::<Address, Seq<char>>(reason@),
        },
{
    match text.parse::<netaddr2::NetAddr>() {
        Ok(netaddr2::NetAddr::V4(network)) => Ok(Address::V4(u32::from(network.addr()))),
        Ok(netaddr2::NetAddr::V6(network)) => Ok(Address::V6(u128::from(network.addr()))),
        Err(netaddr2::Error::ParseError(reason)) => Err(reason),
    }
}

/// The network text that names the single address of a literal. Only a
/// literal of the 128-bit family holds a colon.
pub open spec fn host_text(literal: Seq<char>) -> Seq<char> {
    if literal.contains(':') {
        literal + HOST_SUFFIX_V6@
    } else {
        literal + HOST_SUFFIX_V4@
    }
}

/// The subnet that the parts of a text make: `network` is what came of reading
/// the address literal, `prefix` the prefix length as written. A literal that
/// could not be read fails with the reader's reason. Without a prefix length
/// the subnet is the address alone; with one, the length must be a decimal
/// number within the width of the address.
pub open spec fn subnet_of_parts(
    text: Seq<char>,
    network: Result<Address, Seq<char>>,
    prefix: Option<Seq<char>>,
) -> Result<Subnet, ParseFault> {
    match network {
        Err(reason) => Err(ParseFault { text, reason }),
        Ok(base) => match prefix {
            None => Ok(Subnet::of(base, base.family_spec().bits_spec())),
            Some(digits) => match prefix_len_of(digits, base.family_spec().bits_spec()) {
                Some(prefix_len) => Ok(Subnet::of(base, prefix_len)),
                None => Err(ParseFault { text, reason: INVALID_PREFIX@ }),
            },
        },
    }
}

/// The subnet that a text stands for, or why it stands for none.
pub open spec fn subnet_of_text(text: Seq<char>) -> Result<Subnet, ParseFault> {
    if address_part(text).contains(' ') {
        Err(ParseFault { text, reason: INVALID_ADDRESS@ })
    } else {
        subnet_of_parts(text, parsed_network(host_text(address_part(text))), prefix_part(text))
    }
}

/// A prefix length as contracts see it.
pub open spec fn prefix_view(prefix: Option<&str>) -> Option<Seq<char>> {
    match prefix {
        Some(digits) => Some(digits@),
        None => None,
    }
}

/// What was read of an address literal, as contracts see it.
pub open spec fn network_view(network: Result<Address, String>) -> Result<Address, Seq<char>> {
    match network {
        Ok(address) => Ok(address),
        Err(reason) => Err(reason@),
    }
}

/// Reads a subnet from its text.
///
/// The address literal is all that stands before the first `/`. It may hold no
/// space: `netaddr2` takes a space for a separator, so such a text is turned
/// down here and never handed on. `netaddr2` reads networks, not addresses, so
/// the literal is handed to it as the network of its single address, which
/// keeps every bit of the literal. The prefix length is read here.
pub fn parse_subnet(text: &str) -> (subnet: Result<Subnet, ParseError>)
    ensures
        fault_view(subnet) == subnet_of_text(text@),
        subnet matches Ok(s) ==> s.wf(),
        subnet matches Err(e) ==> e.text@ == text@,
{
    let chars: Vec<char> = chars_of(text);
    let slash: Option<usize> = find_first(chars.as_slice(), '/');
    proof {
        chars@.index_of_first_ensures('/');
    }
    let literal_len: usize = match slash {
        Some(i) => i,
        None => chars.len(),
    };
    let prefix: Option<&str> = match slash {
        Some(i) => Some(text.substring_char(i + 1, chars.len())),
        None => None,
    };
    let literal: &[char] = slice_subrange(chars.as_slice(), 0, literal_len);
    assert(literal@ =~= address_part(text@));
    assert(prefix_view(prefix) =~= prefix_part(text@));
    if holds(literal, ' ') {
        return Err(ParseError { text: text.to_owned(), reason: INVALID_ADDRESS.to_owned() });
    }
    let suffix: &str = if holds(literal, ':') {
        HOST_SUFFIX_V6
    } else {
        HOST_SUFFIX_V4
    };
    let mut host: String = String::from_str(text.substring_char(0, literal_len));
    host.append(suffix);
    assert(host@ =~= host_text(address_part(text@)));
    let network: Result<Address, String> = parse_network(host.as_str());
    subnet_from_parts(text, network, prefix)
}

/// Makes a subnet of the parts of `text`: `network` is what came of reading its
/// address literal, `prefix` is its prefix length as written, if it has one.
pub fn subnet_from_parts(
    text: &str,
    network: Result<Address, String>,
    prefix: Option<&str>,
) -> (subnet: Result<Subnet, ParseError>)
    ensures
        fault_view(subnet) == subnet_of_parts(text@, network_view(network), prefix_view(prefix)),
        subnet matches Ok(s) ==> s.wf(),
        subnet matches Err(e) ==> e.text@ == text@,
{
    match network {
        Err(reason) => Err(ParseError { text: text.to_owned(), reason }),
        Ok(base) => {
            let bits: u8 = base.family().bits();
            let prefix_len: Option<u8> = match prefix {
                None => Some(bits),
                Some(digits) => parse_prefix_len(digits, bits),
            };
            match prefix_len {
                Some(prefix_len) => match Subnet::new(base, prefix_len) {
                    Some(subnet) => Ok(subnet),
                    None => Err(
                        ParseError { text: text.to_owned(), reason: INVALID_PREFIX.to_owned() },
                    ),
                },
                None => Err(
                    ParseError { text: text.to_owned(), reason: INVALID_PREFIX.to_owned() },
                ),
            }
        },
    }
}

/// Reads a prefix length for addresses of `bits` bits.
pub fn parse_prefix_len(text: &str, bits: u8) -> (prefix_len: Option<u8>)
    ensures
        prefix_len == prefix_len_of(text@, bits),
{
    let chars: Vec<char> = chars_of(text);
    if chars.len() == 0 {
        return None;
    }
    let mut value: u8 = 0;
    let mut i: usize = 0;
    while i < chars.len()
        invariant
            chars@ == text@,
            i <= chars.len(),
            forall|j: int| 0 <= j < i ==> is_digit(#[trigger] chars@[j]),
            value == decimal_value(chars@.take(i as int)),
            value <= bits,
        decreases chars.len() - i,
    {
        let c: char = chars[i];
        if !(c >= '0' && c <= '9') {
            return None;
        }
        let digit: u32 = (c as u32) - ('0' as u32);
        let next: u32 = (value as u32) * 10 + digit;
        proof {
            let head = chars@.take(i + 1);
            assert(head.drop_last() =~= chars@.take(i as int));
            assert(head.last() == c);
            assert(next == decimal_value(head));
        }
        if next > bits as u32 {
            proof {
                lemma_decimal_value_grows(chars@, i + 1);
            }
            return None;
        }
        value = next as u8;
        i += 1;
    }
    assert(chars@.take(i as int) =~= chars@);
    Some(value)
}

/// A text stands for a subnet exactly when its address literal holds no space
/// and is read as the base of the subnet, the subnet is well formed, and the
/// prefix length is either left out, for the subnet of the address alone, or
/// written as the decimal number that is the subnet's prefix length.
pub proof fn lemma_subnet_of_text_ok(text: Seq<char>, subnet: Subnet)
    ensures
        subnet_of_text(text) == Ok::<Subnet, ParseFault>(subnet) <==> {
            &&& !address_part(text).contains(' ')
            &&& parsed_network(host_text(address_part(text))) == Ok::<Address, Seq<char>>(
                subnet.base_spec(),
            )
            &&& subnet.wf()
            &&& match prefix_part(text) {
                None => subnet.prefix_len_spec() == subnet.family_spec().bits_spec(),
                Some(digits) => is_decimal(digits) && decimal_value(digits)
                    == subnet.prefix_len_spec(),
            }
        },
{
}

/// A failure names the text that was turned down, and a subnet that was read
/// is well formed.
pub proof fn lemma_subnet_of_text(text: Seq<char>)
    ensures
        subnet_of_text(text) matches Err(fault) ==> fault.text == text,
        subnet_of_text(text) matches Ok(subnet) ==> subnet.wf(),
{
}

/// Finds the first place at which `needle` stands in `text`.
fn find_first(text: &[char], needle: char) -> (place: Option<usize>)
    ensures
        match place {
            Some(i) => i < text.len() && text@.index_of_first(needle) == Some(i as int),
            None => text@.index_of_first(needle) is None,
        },
{
    let mut i: usize = 0;
    while i < text.len()
        invariant
            i <= text.len(),
            forall|j: int| 0 <= j < i ==> text@[j] != needle,
        decreases text.len() - i,
    {
        if text[i] == needle {
            proof {
                text@.index_of_first_ensures(needle);
            }
            return Some(i);
        }
        i += 1;
    }
    proof {
        text@.index_of_first_ensures(needle);
    }
    None
}

/// Tests whether `needle` stands anywhere in `text`.
fn holds(text: &[char], needle: char) -> (found: bool)
    ensures
        found == text@.contains(needle),
{
    proof {
        text@.index_of_first_ensures(needle);
    }
    find_first(text, needle).is_some()
}

/// The characters of a text, one by one.
fn chars_of(text: &str) -> (chars: Vec<char>)
    ensures
        chars@ == text@,
{
    let mut chars: Vec<char> = Vec::new();
    for c in it: text.chars()
        invariant
            chars@ == it.seq().take(it.index()),
            it.seq() == text@,
    {
        chars.push(c);
    }
    chars
}

/// A run of digits is worth at least as much as any of its beginnings.
proof fn lemma_decimal_value_grows(digits: Seq<char>, n: int)
    requires
        0 <= n <= digits.len(),
    ensures
        decimal_value(digits.take(n)) <= decimal_value(digits),
    decreases digits.len(),
{
    if n == digits.len() {
        assert(digits.take(n) =~= digits);
    } else {
        assert(digits.drop_last().take(n) =~= digits.take(n));
        lemma_decimal_value_grows(digits.drop_last(), n);
    }
}

} // verus!
