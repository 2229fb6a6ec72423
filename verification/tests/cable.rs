use hub::addr::Ipv4Addr;
use hub::cable::{beacon, read_beacon, BEACON_PORT};

fn from(ip: [u8; 4]) -> Option<Ipv4Addr> {
    Some(Ipv4Addr::new(ip[0], ip[1], ip[2], ip[3]))
}

#[test]
fn a_beacon_survives_the_round_trip() {
    let p = read_beacon(&beacon(8080, "Front Desk", "Grade 6 Science"), from([169, 254, 12, 34]))
        .expect("our own beacon must parse");
    assert_eq!(p.ip, Ipv4Addr::new(169, 254, 12, 34));
    assert_eq!(p.port, 8080);
    assert_eq!(p.name, "Front Desk");
    assert_eq!(p.folder, "Grade 6 Science");
}

#[test]
fn underscores_in_a_folder_name_are_left_alone() {
    let p = read_beacon(&beacon(8080, "laptop_2", "Year_7_Maths"), from([169, 254, 1, 1]))
        .expect("must parse");
    assert_eq!(p.name, "laptop_2");
    assert_eq!(p.folder, "Year_7_Maths");
}

#[test]
fn a_tab_in_a_name_cannot_forge_a_field() {
    let p = read_beacon(&beacon(8080, "a\tb", "c"), from([169, 254, 1, 1])).expect("must parse");
    assert_eq!(p.name, "a b");
    assert_eq!(p.folder, "c");
}

#[test]
fn other_traffic_on_the_port_is_ignored() {
    assert!(read_beacon(b"", from([169, 254, 1, 1])).is_none());
    assert!(read_beacon(b"hello", from([169, 254, 1, 1])).is_none());
    assert!(read_beacon(b"GORILLA_CABLE_HUB_V2\t8080\ta\tb", from([169, 254, 1, 1])).is_none());
    assert!(read_beacon(b"GORILLA_CABLE_HUB_V1\t8080", from([169, 254, 1, 1])).is_none());
    assert!(read_beacon(b"GORILLA_CABLE_HUB_V1\t0\ta\tb", from([169, 254, 1, 1])).is_none());
}

#[test]
fn a_beacon_that_is_no_text_is_ignored() {
    assert!(read_beacon(b"GORILLA_CABLE_HUB_V1\t8080\t\xff\tb", from([169, 254, 1, 1])).is_none());
}

#[test]
fn an_address_of_the_other_family_is_ignored() {
    assert!(read_beacon(&beacon(8080, "a", "b"), None).is_none());
    assert_eq!(BEACON_PORT, 42424);
}
