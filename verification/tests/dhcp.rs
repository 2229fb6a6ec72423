use hub::addr::Ipv4Addr;
use hub::dhcp::leases::POOL;
use hub::dhcp::packet::{ACK, DISCOVER, OFFER, OPT_MSG_TYPE, OP_REPLY, OP_REQUEST, REQUEST};
use hub::dhcp::server::{handle, may_start, port_refused};
use hub::dhcp::{parse, reply, safe_to_offer, Leases, Refused, Request};

const COOKIE: [u8; 4] = [0x63, 0x82, 0x53, 0x63];

fn discover(mac: u8) -> Request {
    let mut chaddr = [0u8; 16];
    chaddr[..6].copy_from_slice(&[0xde, 0xad, 0xbe, 0xef, 0x00, mac]);
    Request { xid: [1, 2, 3, 4], chaddr, kind: DISCOVER, requested: None }
}

#[test]
fn two_machines_get_two_different_addresses() {
    let server = Ipv4Addr::new(169, 254, 5, 5);
    let mut l = Leases::new(server);
    let a = l.offer(discover(1).mac(), server).unwrap();
    let b = l.offer(discover(2).mac(), server).unwrap();
    assert_ne!(a, b, "two machines must never be given the same address");
}

#[test]
fn asking_twice_gets_the_same_address() {
    let server = Ipv4Addr::new(169, 254, 5, 5);
    let mut l = Leases::new(server);
    let a = l.offer(discover(1).mac(), server).unwrap();
    let b = l.offer(discover(1).mac(), server).unwrap();
    assert_eq!(a, b);
}

#[test]
fn we_never_hand_out_our_own_address() {
    let server = Ipv4Addr::new(169, 254, 0, 1);
    let mut l = Leases::new(server);
    for i in 0..POOL {
        if let Some(ip) = l.offer(discover(i).mac(), server) {
            assert_ne!(ip, server);
            assert_ne!(ip.octets()[3], 0);
            assert_ne!(ip.octets()[3], 255);
        }
    }
}

#[test]
fn a_released_address_can_be_given_out_again() {
    let server = Ipv4Addr::new(169, 254, 5, 5);
    let mut l = Leases::new(server);
    let a = l.offer(discover(1).mac(), server).unwrap();
    l.release(discover(1).mac());
    let b = l.offer(discover(2).mac(), server).unwrap();
    assert_eq!(a, b, "the freed address is the next one available");
}

#[test]
fn we_refuse_to_answer_where_a_router_exists() {
    let link_local = [Ipv4Addr::new(169, 254, 3, 4)];
    let routed = [Ipv4Addr::new(192, 168, 1, 50)];
    assert!(safe_to_offer(&link_local, None));
    assert!(!safe_to_offer(&link_local, Some(Ipv4Addr::new(192, 168, 1, 1))));
    assert!(
        safe_to_offer(&link_local, Some(Ipv4Addr::new(169, 254, 3, 1))),
        "a guessed link-local gateway must not count as a router"
    );
    assert!(!safe_to_offer(&routed, None));
    assert!(!safe_to_offer(&[], None));
}

#[test]
fn a_reply_is_a_dhcp_packet_the_client_can_read() {
    let req = discover(1);
    let p = reply(
        &req,
        OFFER,
        Ipv4Addr::new(169, 254, 0, 2),
        Ipv4Addr::new(169, 254, 0, 1),
        Ipv4Addr::new(255, 255, 0, 0),
    );
    assert_eq!(p[0], OP_REPLY);
    assert_eq!(p[236..240], COOKIE);
    assert_eq!(&p[4..8], &req.xid, "the transaction id must come back");
    assert_eq!(&p[16..20], &[169, 254, 0, 2], "the offered address");
    assert_eq!(p[10] & 0x80, 0x80, "the broadcast flag must be set");
}

#[test]
fn a_lying_length_field_does_not_read_off_the_end() {
    let mut p = vec![0u8; 244];
    p[0] = OP_REQUEST;
    p[236..240].copy_from_slice(&COOKIE);
    p[240] = OPT_MSG_TYPE;
    p[241] = 1;
    p[242] = DISCOVER;
    p[243] = 50;
    assert!(parse(&p).is_some());

    let mut q = vec![0u8; 245];
    q[0] = OP_REQUEST;
    q[236..240].copy_from_slice(&COOKIE);
    q[240] = OPT_MSG_TYPE;
    q[241] = 1;
    q[242] = DISCOVER;
    q[243] = 50;
    q[244] = 200;
    assert!(parse(&q).is_some());
}

#[test]
fn not_dhcp_is_rejected() {
    assert!(parse(&[]).is_none());
    assert!(parse(&[0u8; 240]).is_none(), "no cookie, not ours");
    let mut p = vec![0u8; 240];
    p[0] = OP_REQUEST;
    p[236..240].copy_from_slice(&COOKIE);
    assert!(parse(&p).is_none(), "no message type option, not answerable");
}

fn packet(mac: u8, kind: u8) -> Vec<u8> {
    let mut p = vec![0u8; 244];
    p[0] = OP_REQUEST;
    p[4..8].copy_from_slice(&[1, 2, 3, 4]);
    p[28..34].copy_from_slice(&[0xde, 0xad, 0xbe, 0xef, 0x00, mac]);
    p[236..240].copy_from_slice(&COOKIE);
    p[240] = OPT_MSG_TYPE;
    p[241] = 1;
    p[242] = kind;
    p[243] = 255;
    p
}

fn kind_of(p: &[u8]) -> u8 {
    assert_eq!(p[240], OPT_MSG_TYPE);
    p[242]
}

#[test]
fn a_whole_conversation_gives_one_address() {
    let server = Ipv4Addr::new(169, 254, 5, 5);
    let mut l = Leases::new(server);
    let offer = handle(&mut l, &packet(1, DISCOVER), server).unwrap();
    let ack = handle(&mut l, &packet(1, REQUEST), server).unwrap();
    assert_eq!(kind_of(&offer), OFFER);
    assert_eq!(kind_of(&ack), ACK);
    assert_eq!(&offer[16..20], &ack[16..20]);
    assert!(handle(&mut l, &offer, server).is_none(), "a reply is no request");
    assert!(handle(&mut l, b"noise", server).is_none());
}

#[test]
fn every_refusal_has_its_words() {
    let routed = [Ipv4Addr::new(192, 168, 1, 50)];
    assert!(may_start(&[Ipv4Addr::new(169, 254, 3, 4)], None).is_ok());
    let there = may_start(&routed, Some(Ipv4Addr::new(192, 168, 1, 1))).unwrap_err();
    assert!(!there.text().is_empty());
    let denied = port_refused(true, "denied");
    let busy = port_refused(false, "in use");
    assert_ne!(denied.text(), busy.text());
    assert!(matches!(denied, Refused::NeedsAdministrator));
    assert!(busy.text().contains("in use"));
}
