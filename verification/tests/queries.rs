use subnet_utils::addr_in_all_subnets;
use subnet_utils::addr_in_any_subnet;
use subnet_utils::addr_in_subnet;
use subnet_utils::any_addr_in_any_subnet;
use subnet_utils::cidr::INVALID_ADDRESS;
use subnet_utils::cidr::INVALID_PREFIX;
use subnet_utils::Address;
use subnet_utils::ParseError;

#[test]
fn test_addr_in_subnet() {
    let res = addr_in_subnet(&Address::from_octets(192, 168, 182, 1), "192.168.182.0/24").unwrap();
    assert!(res);
}

#[test]
fn test_addr_not_in_subnet() {
    let res = addr_in_subnet(&Address::from_octets(192, 168, 183, 1), "192.168.182.0/24").unwrap();
    assert!(!res);
}

#[test]
fn test_addr_in_any_subnet() {
    let subnets = vec!["192.168.181.0/24", "192.168.182.0/24"];
    let res = addr_in_any_subnet(&Address::from_octets(192, 168, 182, 1), &subnets).unwrap();
    assert!(res);
}

#[test]
fn test_addr_not_in_any_subnet() {
    let subnets = vec!["192.168.181.0/24", "192.168.182.0/24"];
    let res = addr_in_any_subnet(&Address::from_octets(192, 168, 183, 1), &subnets).unwrap();
    assert!(!res);
}

#[test]
fn test_addr_in_all_subnets() {
    let subnets = vec!["192.168.182.0/24", "192.168.182.1/32"];
    let res = addr_in_all_subnets(&Address::from_octets(192, 168, 182, 1), &subnets).unwrap();
    assert!(res);
}

#[test]
fn test_addr_not_in_all_subnets() {
    let subnets = vec!["192.168.182.0/24", "192.168.182.2/32"];
    let res = addr_in_all_subnets(&Address::from_octets(192, 168, 182, 1), &subnets).unwrap();
    assert!(!res);
}

#[test]
fn test_any_addr_in_any_subnet() {
    let addrs =
        vec![Address::from_octets(192, 168, 182, 1), Address::from_octets(192, 168, 182, 2)];
    let subnets = vec!["192.168.181.0/24", "192.168.182.2/32"];
    let res = any_addr_in_any_subnet(&addrs, &subnets).unwrap();
    assert!(res);
}

#[test]
fn test_any_addr_not_in_any_subnet() {
    let addrs =
        vec![Address::from_octets(192, 168, 182, 1), Address::from_octets(192, 168, 182, 2)];
    let subnets = vec!["192.168.181.0/24", "192.168.182.3/32"];
    let res = any_addr_in_any_subnet(&addrs, &subnets).unwrap();
    assert!(!res);
}

#[test]
fn single_subnet_of_the_other_family_is_false_not_an_error() {
    let v4 = Address::from_octets(10, 0, 0, 1);
    let v6 = Address::V6(1);
    assert_eq!(addr_in_subnet(&v4, "::/0"), Ok(false));
    assert_eq!(addr_in_subnet(&v6, "0.0.0.0/0"), Ok(false));
    assert_eq!(addr_in_subnet(&v6, "::/0"), Ok(true));
    assert_eq!(addr_in_subnet(&v4, "0.0.0.0/0"), Ok(true));
}

#[test]
fn single_subnet_without_prefix_is_the_address_alone() {
    let addr = Address::from_octets(10, 1, 2, 3);
    assert_eq!(addr_in_subnet(&addr, "10.1.2.3"), Ok(true));
    assert_eq!(addr_in_subnet(&addr, "10.1.2.4"), Ok(false));
    assert_eq!(addr_in_subnet(&Address::V6(1), "::1"), Ok(true));
    assert_eq!(addr_in_subnet(&Address::V6(2), "::1"), Ok(false));
}

#[test]
fn single_subnet_ignores_host_bits_of_the_base() {
    let addr = Address::from_octets(192, 168, 182, 1);
    assert_eq!(addr_in_subnet(&addr, "192.168.182.77/24"), Ok(true));
    assert_eq!(addr_in_subnet(&addr, "192.168.183.77/24"), Ok(false));
}

#[test]
fn single_subnet_of_the_wide_family() {
    let inside = Address::from_segments([0x2001, 0xdb8, 0xd00b, 0, 0, 0, 0, 1]);
    let outside = Address::from_segments([0x2001, 0xdb8, 0xd00c, 0, 0, 0, 0, 1]);
    assert_eq!(addr_in_subnet(&inside, "2001:db8:d00b::/48"), Ok(true));
    assert_eq!(addr_in_subnet(&outside, "2001:db8:d00b::/48"), Ok(false));
}

#[test]
fn single_subnet_malformed_surfaces_the_text() {
    let addr = Address::from_octets(10, 0, 0, 1);
    let error = addr_in_subnet(&addr, "10.0.0.0/33").unwrap_err();
    assert_eq!(error.text, "10.0.0.0/33");
    assert_eq!(error.reason, INVALID_PREFIX);
    let error = addr_in_subnet(&addr, "not-an-ip/24").unwrap_err();
    assert_eq!(error.text, "not-an-ip/24");
}

#[test]
fn any_subnet_over_no_subnets_is_false() {
    let none: Vec<&str> = Vec::new();
    assert_eq!(addr_in_any_subnet(&Address::from_octets(10, 0, 0, 1), &none), Ok(false));
    assert_eq!(addr_in_any_subnet(&Address::V6(7), &none), Ok(false));
}

#[test]
fn all_subnets_over_no_subnets_is_true() {
    let none: Vec<&str> = Vec::new();
    assert_eq!(addr_in_all_subnets(&Address::from_octets(10, 0, 0, 1), &none), Ok(true));
    assert_eq!(addr_in_all_subnets(&Address::V6(7), &none), Ok(true));
}

#[test]
fn any_addr_over_no_subnets_or_no_addrs_is_false() {
    let no_subnets: Vec<&str> = Vec::new();
    let no_addrs: Vec<Address> = Vec::new();
    let addrs = vec![Address::from_octets(10, 0, 0, 1)];
    assert_eq!(any_addr_in_any_subnet(&addrs, &no_subnets), Ok(false));
    assert_eq!(any_addr_in_any_subnet(&no_addrs, &["10.0.0.0/8"]), Ok(false));
    assert_eq!(any_addr_in_any_subnet(&no_addrs, &no_subnets), Ok(false));
}

#[test]
fn any_subnet_stops_at_the_first_match() {
    let addr = Address::from_octets(10, 1, 2, 3);
    assert_eq!(addr_in_any_subnet(&addr, &["10.0.0.0/8", "bogus"]), Ok(true));
    assert_eq!(addr_in_any_subnet(&addr, &["11.0.0.0/8", "10.0.0.0/8", "bogus"]), Ok(true));
}

#[test]
fn any_subnet_surfaces_a_malformed_text_met_before_a_match() {
    let addr = Address::from_octets(10, 1, 2, 3);
    let error = addr_in_any_subnet(&addr, &["bogus", "10.0.0.0/8"]).unwrap_err();
    assert_eq!(error.text, "bogus");
    let error =
        addr_in_any_subnet(&addr, &["11.0.0.0/8", "10.0.0.0/99", "10.0.0.0/8"]).unwrap_err();
    assert_eq!(
        error,
        ParseError { text: "10.0.0.0/99".to_string(), reason: INVALID_PREFIX.to_string() }
    );
}

#[test]
fn all_subnets_stops_at_the_first_subnet_without_the_address() {
    let addr = Address::from_octets(10, 1, 2, 3);
    assert_eq!(addr_in_all_subnets(&addr, &["11.0.0.0/8", "bogus"]), Ok(false));
    assert_eq!(addr_in_all_subnets(&addr, &["10.0.0.0/8", "10.2.0.0/16", "bogus"]), Ok(false));
}

#[test]
fn all_subnets_surfaces_a_malformed_text_met_before_a_negative_verdict() {
    let addr = Address::from_octets(10, 1, 2, 3);
    let error = addr_in_all_subnets(&addr, &["bogus", "11.0.0.0/8"]).unwrap_err();
    assert_eq!(error.text, "bogus");
    let error = addr_in_all_subnets(&addr, &["10.0.0.0/8", "10.1.0.0 255.255.0.0"]).unwrap_err();
    assert_eq!(
        error,
        ParseError { text: "10.1.0.0 255.255.0.0".to_string(), reason: INVALID_ADDRESS.to_string() }
    );
    let error = addr_in_all_subnets(&addr, &["10.0.0.0/8", "10.1.2.3/x"]).unwrap_err();
    assert_eq!(error.text, "10.1.2.3/x");
}

#[test]
fn any_addr_reads_each_subnet_before_its_addresses() {
    let addrs = vec![Address::from_octets(10, 1, 2, 3), Address::from_octets(172, 16, 0, 9)];
    assert_eq!(any_addr_in_any_subnet(&addrs, &["172.16.0.0/12", "bogus"]), Ok(true));
    let error = any_addr_in_any_subnet(&addrs, &["192.168.0.0/16", "bogus", "10.0.0.0/8"])
        .unwrap_err();
    assert_eq!(error.text, "bogus");
    let no_addrs: Vec<Address> = Vec::new();
    let error = any_addr_in_any_subnet(&no_addrs, &["bogus"]).unwrap_err();
    assert_eq!(error.text, "bogus");
}

#[test]
fn any_addr_mixes_families() {
    let addrs = vec![Address::from_octets(10, 1, 2, 3), Address::V6(1)];
    assert_eq!(any_addr_in_any_subnet(&addrs, &["192.168.0.0/16", "::/127"]), Ok(true));
    assert_eq!(any_addr_in_any_subnet(&addrs, &["192.168.0.0/16", "::2/127"]), Ok(false));
}

#[test]
fn verdicts_do_not_depend_on_the_order_of_subnets() {
    let addr = Address::from_octets(192, 168, 182, 1);
    let orders: [[&str; 3]; 6] = [
        ["192.168.181.0/24", "192.168.182.0/24", "192.168.182.1/32"],
        ["192.168.181.0/24", "192.168.182.1/32", "192.168.182.0/24"],
        ["192.168.182.0/24", "192.168.181.0/24", "192.168.182.1/32"],
        ["192.168.182.0/24", "192.168.182.1/32", "192.168.181.0/24"],
        ["192.168.182.1/32", "192.168.181.0/24", "192.168.182.0/24"],
        ["192.168.182.1/32", "192.168.182.0/24", "192.168.181.0/24"],
    ];
    for order in orders.iter() {
        assert_eq!(addr_in_any_subnet(&addr, order), Ok(true));
        assert_eq!(addr_in_all_subnets(&addr, order), Ok(false));
    }
    let other = Address::from_octets(192, 168, 180, 1);
    for order in orders.iter() {
        assert_eq!(addr_in_any_subnet(&other, order), Ok(false));
        assert_eq!(addr_in_all_subnets(&other, order), Ok(false));
    }
    assert_eq!(addr_in_all_subnets(&addr, &["192.168.182.0/24", "192.168.0.0/16"]), Ok(true));
    assert_eq!(addr_in_all_subnets(&addr, &["192.168.0.0/16", "192.168.182.0/24"]), Ok(true));
}

#[test]
fn queries_over_one_subnet_or_one_address_agree() {
    let addrs = [
        Address::from_octets(10, 1, 2, 3),
        Address::from_octets(192, 168, 182, 1),
        Address::V6(1),
    ];
    let texts = ["10.0.0.0/8", "192.168.182.0/24", "::/64", "10.1.2.3", "bogus", "10.0.0.0/40"];
    for addr in addrs.iter() {
        for text in texts.iter() {
            let one = addr_in_subnet(addr, text);
            assert_eq!(addr_in_any_subnet(addr, &[*text]), one);
            assert_eq!(addr_in_all_subnets(addr, &[*text]), one);
            assert_eq!(any_addr_in_any_subnet(&vec![*addr], &[*text]), one);
        }
        assert_eq!(any_addr_in_any_subnet(&vec![*addr], &texts), addr_in_any_subnet(addr, &texts));
    }
}
