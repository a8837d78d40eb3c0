use ip_in_subnet::{
    any_iface_in_any_subnet, iface_in_all_subnets, iface_in_any_subnet, iface_in_subnet,
};

#[test]
fn test_iface_in_subnet() {
    let res = iface_in_subnet("192.168.182.1", "192.168.182.0/24").unwrap();
    assert!(res);
}

#[test]
fn test_iface_not_in_subnet() {
    let res = iface_in_subnet("192.168.183.1", "192.168.182.0/24").unwrap();
    assert!(!res);
}

#[test]
fn test_iface_in_any_subnet() {
    let subnets = vec!["192.168.181.0/24", "192.168.182.0/24"];
    let res = iface_in_any_subnet("192.168.182.1", &subnets).unwrap();
    assert!(res);
}

#[test]
fn test_iface_not_in_any_subnet() {
    let subnets = vec!["192.168.181.0/24", "192.168.182.0/24"];
    let res = iface_in_any_subnet("192.168.183.1", &subnets).unwrap();
    assert!(!res);
}

#[test]
fn test_iface_in_all_subnets() {
    let subnets = vec!["192.168.182.0/24", "192.168.182.1/32"];
    let res = iface_in_all_subnets("192.168.182.1", &subnets).unwrap();
    assert!(res);
}

#[test]
fn test_iface_not_in_all_subnets() {
    let subnets = vec!["192.168.182.0/24", "192.168.182.2/32"];
    let res = iface_in_all_subnets("192.168.182.1", &subnets).unwrap();
    assert!(!res);
}

#[test]
fn test_any_iface_in_any_subnet() {
    let ifaces = vec!["192.168.182.1", "192.168.182.2"];
    let subnets = vec!["192.168.181.0/24", "192.168.182.2/32"];
    let res = any_iface_in_any_subnet(&ifaces, &subnets).unwrap();
    assert!(res);
}

#[test]
fn test_any_iface_not_in_any_subnet() {
    let ifaces = vec!["192.168.182.1", "192.168.182.2"];
    let subnets = vec!["192.168.181.0/24", "192.168.182.3/32"];
    let res = any_iface_in_any_subnet(&ifaces, &subnets).unwrap();
    assert!(!res);
}

#[test]
fn zero_prefix_contains_every_v4_address() {
    assert!(iface_in_subnet("10.1.2.3", "0.0.0.0/0").unwrap());
    assert!(iface_in_subnet("255.255.255.255", "192.168.0.0/0").unwrap());
}

#[test]
fn zero_prefix_contains_every_v6_address() {
    assert!(iface_in_subnet("::1", "::/0").unwrap());
    assert!(iface_in_subnet("ffff:ffff:ffff:ffff:ffff:ffff:ffff:ffff", "2001:db8::/0").unwrap());
}

#[test]
fn full_prefix_means_exact_match() {
    assert!(iface_in_subnet("192.168.182.1", "192.168.182.1/32").unwrap());
    assert!(!iface_in_subnet("192.168.182.1", "192.168.182.2/32").unwrap());
    assert!(iface_in_subnet("2001:db8::1", "2001:db8::1/128").unwrap());
    assert!(!iface_in_subnet("2001:db8::1", "2001:db8::2/128").unwrap());
}

#[test]
fn other_family_never_matches() {
    assert_eq!(iface_in_subnet("::1", "192.168.0.0/16"), Ok(false));
    assert_eq!(iface_in_subnet("1.2.3.4", "2001:db8::/32"), Ok(false));
}

#[test]
fn empty_list_all_is_vacuously_true() {
    let subnets: Vec<&str> = vec![];
    assert_eq!(iface_in_all_subnets("1.2.3.4", &subnets), Ok(true));
}

#[test]
fn empty_list_any_is_false() {
    let subnets: Vec<&str> = vec![];
    assert_eq!(iface_in_any_subnet("1.2.3.4", &subnets), Ok(false));
}

#[test]
fn empty_lists_cross_is_false() {
    let ifaces: Vec<&str> = vec![];
    let subnets: Vec<&str> = vec![];
    assert_eq!(any_iface_in_any_subnet(&ifaces, &subnets), Ok(false));
    let some_ifaces = vec!["10.0.0.1"];
    assert_eq!(any_iface_in_any_subnet(&some_ifaces, &subnets), Ok(false));
}

#[test]
fn malformed_candidate_is_false_not_error() {
    assert_eq!(iface_in_subnet("300.1.2.3", "10.0.0.0/8"), Ok(false));
    assert_eq!(iface_in_subnet("not an address", "10.0.0.0/8"), Ok(false));
    assert_eq!(iface_in_subnet("01.2.3.4", "0.0.0.0/0"), Ok(false));
    assert_eq!(iface_in_subnet("1.2.3", "10.0.0.0/8"), Ok(false));
}

#[test]
fn narrow_prefixes_split_neighbours() {
    assert!(iface_in_subnet("10.0.0.1", "10.0.0.0/31").unwrap());
    assert!(!iface_in_subnet("10.0.0.2", "10.0.0.0/31").unwrap());
    assert!(iface_in_subnet("2001:db8::1", "2001:db8::/127").unwrap());
    assert!(!iface_in_subnet("2001:db8::2", "2001:db8::/127").unwrap());
    assert!(iface_in_subnet("10.255.255.255", "10.0.0.0/8").unwrap());
    assert!(!iface_in_subnet("11.0.0.0", "10.0.0.0/8").unwrap());
}

#[test]
fn compressed_v6_expands_to_the_right_groups() {
    assert!(iface_in_subnet("1:2:3:4:5:6:7::", "1:2:3:4:5:6:7:0/128").unwrap());
    assert!(iface_in_subnet("::1:2:3:4:5:6:7", "0:1:2:3:4:5:6:7/128").unwrap());
    assert!(iface_in_subnet("1::8", "1:0:0:0:0:0:0:8/128").unwrap());
    assert!(iface_in_subnet("::", "0:0:0:0:0:0:0:0/128").unwrap());
    assert!(!iface_in_subnet("1::8", "1:0:0:0:0:0:8:0/128").unwrap());
}

#[test]
fn mixed_family_candidate_lists() {
    let ifaces = vec!["::1", "10.1.1.1"];
    let subnets = vec!["10.0.0.0/8"];
    assert_eq!(any_iface_in_any_subnet(&ifaces, &subnets), Ok(true));
    let v6_subnets = vec!["2001:db8::/32"];
    assert_eq!(any_iface_in_any_subnet(&ifaces, &v6_subnets), Ok(false));
}

#[test]
fn v6_containment_by_prefix() {
    assert!(iface_in_subnet("2001:db8::1", "2001:db8::/32").unwrap());
    assert!(!iface_in_subnet("2001:db9::1", "2001:db8::/32").unwrap());
    assert!(iface_in_subnet("2001:DB8::1", "2001:db8::/32").unwrap());
    assert!(iface_in_subnet("1:2:3:4:5:6:7:8", "1:2:3:4::/64").unwrap());
}
