use hub::addr::{parse_address, Ipv4Addr};

fn read(s: &str) -> Option<Ipv4Addr> {
    let c: Vec<char> = s.chars().collect();
    parse_address(&c)
}

#[test]
fn an_address_reads_back() {
    for ip in [Ipv4Addr::new(0, 0, 0, 0), Ipv4Addr::new(255, 255, 255, 255), Ipv4Addr::new(10, 42, 0, 1)] {
        assert_eq!(read(&ip.text()), Some(ip));
    }
    assert_eq!(Ipv4Addr::new(10, 42, 0, 1).text(), "10.42.0.1");
}

#[test]
fn what_is_no_address_is_none() {
    for s in ["", "1.2.3", "1.2.3.4.5", "256.1.1.1", "1.2.3.x", "01.2.3.4", "1..2.3", " 1.2.3.4", "+1.2.3.4"] {
        assert_eq!(read(s), None, "{s}");
    }
}

#[test]
fn the_special_ranges_are_known() {
    assert!(Ipv4Addr::new(169, 254, 1, 1).is_link_local());
    assert!(!Ipv4Addr::new(169, 253, 1, 1).is_link_local());
    assert!(Ipv4Addr::new(127, 0, 0, 1).is_loopback());
    assert_eq!(Ipv4Addr::new(1, 2, 3, 4).octets(), [1, 2, 3, 4]);
}
