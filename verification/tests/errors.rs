use ip_in_subnet::{
    any_iface_in_any_subnet, iface_in_all_subnets, iface_in_any_subnet, iface_in_subnet,
    NetworkParseError,
};

#[test]
fn malformed_network_is_an_error() {
    assert_eq!(iface_in_subnet("1.2.3.4", "nonsense"), Err(NetworkParseError));
    assert_eq!(iface_in_subnet("1.2.3.4", "10.0.0.0"), Err(NetworkParseError));
    assert_eq!(iface_in_subnet("1.2.3.4", "10.0.0.0/33"), Err(NetworkParseError));
    assert_eq!(iface_in_subnet("1.2.3.4", "10.0.0.256/24"), Err(NetworkParseError));
    assert_eq!(iface_in_subnet("1.2.3.4", "10.0.0.0/8/8"), Err(NetworkParseError));
    assert_eq!(iface_in_subnet("1.2.3.4", "10.0.0.0/"), Err(NetworkParseError));
    assert_eq!(iface_in_subnet("::1", "::/129"), Err(NetworkParseError));
    assert_eq!(iface_in_subnet("::1", "1::2::3/64"), Err(NetworkParseError));
    assert_eq!(iface_in_subnet("::1", ":::/64"), Err(NetworkParseError));
    assert_eq!(iface_in_subnet("::1", "1:2:3:4:5:6:7:8:9/64"), Err(NetworkParseError));
}

#[test]
fn malformed_network_in_any_list_is_an_error() {
    let head_bad = vec!["bogus", "192.168.182.0/24"];
    assert_eq!(iface_in_any_subnet("192.168.182.1", &head_bad), Err(NetworkParseError));
    let tail_bad = vec!["192.168.181.0/24", "bogus"];
    assert_eq!(iface_in_any_subnet("192.168.182.1", &tail_bad), Err(NetworkParseError));
}

#[test]
fn malformed_network_in_all_list_is_an_error() {
    let head_bad = vec!["bogus", "192.168.182.0/24"];
    assert_eq!(iface_in_all_subnets("192.168.182.1", &head_bad), Err(NetworkParseError));
    let tail_bad = vec!["192.168.182.0/24", "bogus"];
    assert_eq!(iface_in_all_subnets("192.168.182.1", &tail_bad), Err(NetworkParseError));
}

#[test]
fn malformed_network_in_cross_list_is_an_error() {
    let ifaces = vec!["192.168.182.1"];
    let head_bad = vec!["bogus", "192.168.182.0/24"];
    assert_eq!(any_iface_in_any_subnet(&ifaces, &head_bad), Err(NetworkParseError));
    let tail_bad = vec!["192.168.181.0/24", "bogus"];
    assert_eq!(any_iface_in_any_subnet(&ifaces, &tail_bad), Err(NetworkParseError));
}

#[test]
fn match_before_malformed_network_short_circuits() {
    let subnets = vec!["10.0.0.0/8", "bogus"];
    assert_eq!(iface_in_any_subnet("10.1.1.1", &subnets), Ok(true));
    let ifaces = vec!["10.1.1.1"];
    assert_eq!(any_iface_in_any_subnet(&ifaces, &subnets), Ok(true));
}

#[test]
fn non_match_before_malformed_network_short_circuits() {
    let subnets = vec!["10.0.0.0/8", "bogus"];
    assert_eq!(iface_in_all_subnets("11.1.1.1", &subnets), Ok(false));
}
