use hub::addr::Ipv4Addr;
use hub::dns::lookup::{is_answer_to, reverse_name};
use hub::dns::names::{read_name, skip_name};
use hub::dns::taken::{build_link_query, held_by, is_claimed_elsewhere};
use hub::dns::{
    answer, build_query, mdns_answer, parse_ptr, short_name, transaction_id, LOCAL_NAMES, OUR_NAMES,
};

const US: Ipv4Addr = Ipv4Addr { a: 169, b: 254, c: 87, d: 61 };

fn question(name: &str, qtype: u16) -> Vec<u8> {
    let mut q = vec![0x12, 0x34, 0x01, 0x00, 0, 1, 0, 0, 0, 0, 0, 0];
    for label in name.split('.') {
        q.push(label.len() as u8);
        q.extend_from_slice(label.as_bytes());
    }
    q.push(0);
    q.extend_from_slice(&qtype.to_be_bytes());
    q.extend_from_slice(&1u16.to_be_bytes());
    q
}

fn answered_ip(reply: &[u8]) -> Option<Ipv4Addr> {
    let n = reply.len();
    if n < 4 {
        return None;
    }
    Some(Ipv4Addr::new(reply[n - 4], reply[n - 3], reply[n - 2], reply[n - 1]))
}

#[test]
fn a_connectivity_probe_is_pointed_at_us() {
    for name in [
        "www.msftconnecttest.com",
        "connectivitycheck.gstatic.com",
        "captive.apple.com",
        "nmcheck.gnome.org",
    ] {
        let r = answer(&question(name, 1), US).expect("must answer");
        assert_eq!(answered_ip(&r), Some(US), "{name} was not pointed at us");
    }
}

#[test]
fn the_easy_name_resolves() {
    for name in OUR_NAMES {
        let r = answer(&question(name, 1), US).expect("must answer");
        assert_eq!(answered_ip(&r), Some(US));
    }
}

#[test]
fn the_transaction_id_and_question_come_back() {
    let q = question("gorilla", 1);
    let r = answer(&q, US).unwrap();
    assert_eq!(&r[0..2], &q[0..2], "id must be echoed or the client ignores it");
    assert_eq!(r[2] & 0x80, 0x80, "must be marked a response");
    assert_eq!(r[2] & 0x04, 0x04, "must be authoritative");
    assert_eq!(u16::from_be_bytes([r[4], r[5]]), 1, "one question");
    assert_eq!(u16::from_be_bytes([r[6], r[7]]), 1, "one answer");
    assert_eq!(&r[12..12 + (q.len() - 16)], &q[12..q.len() - 4], "question echoed");
}

#[test]
fn a_v6_question_is_answered_empty_rather_than_denied() {
    let r = answer(&question("gorilla", 28), US).expect("must still answer");
    assert_eq!(u16::from_be_bytes([r[6], r[7]]), 0, "no answer records");
    assert_eq!(r[3] & 0x0f, 0, "but not an error either");
}

#[test]
fn rubbish_is_not_answered() {
    assert!(answer(&[], US).is_none());
    assert!(answer(&[0u8; 12], US).is_none(), "no question section");
    let mut resp = question("gorilla", 1);
    resp[2] |= 0x80;
    assert!(answer(&resp, US).is_none());
    let mut bad = question("gorilla", 1);
    bad[12] = 200;
    assert!(answer(&bad, US).is_none());
}

#[test]
fn only_the_internet_class_is_answered() {
    let mut q = question("gorilla", 1);
    let n = q.len();
    q[n - 2] = 0;
    q[n - 1] = 3;
    assert!(answer(&q, US).is_none());
}

#[test]
fn the_whole_answer_is_as_it_should_be() {
    let r = answer(&question("hub", 1), US).unwrap();
    let expected: Vec<u8> = vec![
        0x12, 0x34, 0x85, 0x80, 0, 1, 0, 1, 0, 0, 0, 0, 3, 104, 117, 98, 0, 0, 1, 0, 1, 0xc0, 0x0c,
        0, 1, 0, 1,
    ];
    assert_eq!(&r[..expected.len()], &expected[..]);
    assert_eq!(&r[r.len() - 6..], &[0, 4, 169, 254, 87, 61]);
}

fn query(name: &str, qtype: u16, unicast_bit: bool) -> Vec<u8> {
    let mut q = vec![0, 0, 0, 0, 0, 1, 0, 0, 0, 0, 0, 0];
    for label in name.split('.') {
        q.push(label.len() as u8);
        q.extend_from_slice(label.as_bytes());
    }
    q.push(0);
    q.extend_from_slice(&qtype.to_be_bytes());
    let class: u16 = if unicast_bit { 0x8001 } else { 1 };
    q.extend_from_slice(&class.to_be_bytes());
    q
}

#[test]
fn the_name_a_person_types_is_answered() {
    for n in LOCAL_NAMES {
        let r = mdns_answer(&query(n, 1, false), US).expect("must answer");
        assert_eq!(answered_ip(&r), Some(US), "{n}");
        assert_eq!(r[2] & 0x84, 0x84, "response and authoritative");
    }
}

#[test]
fn the_unicast_request_bit_does_not_hide_the_class() {
    let r = mdns_answer(&query("gorilla.local", 1, true), US);
    assert!(r.is_some(), "a query asking for a direct reply is still a query");
}

#[test]
fn somebody_elses_name_is_left_alone() {
    assert!(mdns_answer(&query("printer.local", 1, false), US).is_none());
    assert!(mdns_answer(&query("gorilla.example.com", 1, false), US).is_none());
}

#[test]
fn case_does_not_matter() {
    assert!(mdns_answer(&query("GORILLA.local", 1, false), US).is_some());
}

#[test]
fn a_response_is_never_answered() {
    let mut r = query("gorilla.local", 1, false);
    r[2] |= 0x80;
    assert!(mdns_answer(&r, US).is_none(), "answering a response is a packet storm");
}

#[test]
fn rubbish_is_ignored() {
    assert!(mdns_answer(&[], US).is_none());
    assert!(mdns_answer(&[0u8; 12], US).is_none());
    let mut bad = query("gorilla.local", 1, false);
    bad[12] = 200;
    assert!(mdns_answer(&bad, US).is_none());
}

#[test]
fn ours_is_found_among_other_questions() {
    let mut q = vec![0, 0, 0, 0, 0, 2, 0, 0, 0, 0, 0, 0];
    for name in ["printer.local", "gorilla.local"] {
        for label in name.split('.') {
            q.push(label.len() as u8);
            q.extend_from_slice(label.as_bytes());
        }
        q.push(0);
        q.extend_from_slice(&1u16.to_be_bytes());
        q.extend_from_slice(&1u16.to_be_bytes());
    }
    assert!(mdns_answer(&q, US).is_some());
}

#[test]
fn the_whole_local_answer_is_as_it_should_be() {
    let r = mdns_answer(&query("hub.local", 1, false), US).unwrap();
    let expected: Vec<u8> = vec![
        0, 0, 0x84, 0, 0, 0, 0, 1, 0, 0, 0, 0, 3, 104, 117, 98, 5, 108, 111, 99, 97, 108, 0, 0, 1,
        0x80, 1, 0, 0, 0, 120, 0, 4, 169, 254, 87, 61,
    ];
    assert_eq!(r, expected);
}

fn synthetic_response(id: u16, name: &str) -> Vec<u8> {
    let mut m = Vec::new();
    m.extend_from_slice(&id.to_be_bytes());
    m.extend_from_slice(&0x8180u16.to_be_bytes());
    m.extend_from_slice(&1u16.to_be_bytes());
    m.extend_from_slice(&1u16.to_be_bytes());
    m.extend_from_slice(&[0, 0, 0, 0]);
    for label in ["90", "0", "42", "10", "in-addr", "arpa"] {
        m.push(label.len() as u8);
        m.extend_from_slice(label.as_bytes());
    }
    m.push(0);
    m.extend_from_slice(&12u16.to_be_bytes());
    m.extend_from_slice(&1u16.to_be_bytes());
    m.extend_from_slice(&[0xc0, 0x0c]);
    m.extend_from_slice(&12u16.to_be_bytes());
    m.extend_from_slice(&1u16.to_be_bytes());
    m.extend_from_slice(&60u32.to_be_bytes());
    let mut rdata = Vec::new();
    for label in name.split('.') {
        rdata.push(label.len() as u8);
        rdata.extend_from_slice(label.as_bytes());
    }
    rdata.push(0);
    m.extend_from_slice(&(rdata.len() as u16).to_be_bytes());
    m.extend_from_slice(&rdata);
    m
}

#[test]
fn reads_the_name_out_of_a_ptr_response() {
    let msg = synthetic_response(0x1234, "Xiaomi-11-Lite-5G-NE.lan");
    assert_eq!(parse_ptr(&msg).as_deref(), Some("Xiaomi-11-Lite-5G-NE.lan"));
    assert_eq!(short_name("Xiaomi-11-Lite-5G-NE.lan"), "Xiaomi-11-Lite-5G-NE");
}

#[test]
fn nxdomain_is_not_a_name() {
    let mut msg = synthetic_response(0x1234, "nope.lan");
    msg[3] |= 3;
    assert_eq!(parse_ptr(&msg), None);
}

#[test]
fn a_self_referential_pointer_does_not_hang() {
    let mut msg = synthetic_response(0x1234, "loop.lan");
    let rdata_start = msg.len() - 10;
    msg[rdata_start] = 0xc0;
    msg[rdata_start + 1] = rdata_start as u8;
    assert_eq!(parse_ptr(&msg), None, "a forward or self pointer must be refused");
}

#[test]
fn a_query_asks_for_the_reverse_name() {
    let name = reverse_name(Ipv4Addr::new(10, 42, 0, 90));
    assert_eq!(name, "90.0.42.10.in-addr.arpa");
    let q = build_query(0x1234, &name);
    let expected: Vec<u8> = vec![
        0x12, 0x34, 1, 0, 0, 1, 0, 0, 0, 0, 0, 0, 2, b'9', b'0', 1, b'0', 2, b'4', b'2', 2, b'1',
        b'0', 7, b'i', b'n', b'-', b'a', b'd', b'd', b'r', 4, b'a', b'r', b'p', b'a', 0, 0, 12, 0, 1,
    ];
    assert_eq!(q, expected);
    assert_eq!(skip_name(&q, 12), Some(q.len() - 4));
    assert_eq!(read_name(&q, 12, 0), Some(name));
}

#[test]
fn only_the_answer_to_our_own_question_counts() {
    let msg = synthetic_response(0x1234, "a.lan");
    assert!(is_answer_to(&msg, 0x1234));
    assert!(!is_answer_to(&msg, 0x1235));
    assert!(!is_answer_to(&[0x12], 0x1234));
    assert_eq!(transaction_id(Some((0x12, 0x34))), 0x1234);
}

#[test]
fn another_computer_with_our_name_is_noticed() {
    let other = Ipv4Addr::new(169, 254, 3, 9);
    let query = build_link_query("gorilla.local");
    let reply = mdns_answer(&query, other).expect("the name is theirs too");
    assert_eq!(held_by(&reply, "gorilla.local"), Some(other));
    assert_eq!(held_by(&reply, "Gorilla.LOCAL"), Some(other));
    assert_eq!(held_by(&reply, "hub.local"), None);
    assert!(is_claimed_elsewhere(&reply, "gorilla.local", &vec![US]));
    assert!(!is_claimed_elsewhere(&reply, "gorilla.local", &vec![US, other]));
    assert_eq!(held_by(&query, "gorilla.local"), None, "a question holds no name");
    for cut in 0..reply.len() {
        assert_eq!(held_by(&reply[..cut], "gorilla.local"), None);
    }
    let mut refused = reply.clone();
    refused[3] = 3;
    assert_eq!(held_by(&refused, "gorilla.local"), None);
    let mut second = vec![0, 0, 0x84, 0, 0, 1, 0, 2, 0, 0, 0, 0];
    second.extend_from_slice(&query[12..]);
    second.extend_from_slice(&[0xc0, 12, 0, 16, 0, 1, 0, 0, 0, 9, 0, 1, 7]);
    second.extend_from_slice(&[0xc0, 12, 0, 1, 0x80, 1, 0, 0, 0, 9, 0, 4, 169, 254, 3, 9]);
    assert_eq!(held_by(&second, "gorilla.local"), Some(other));
}
