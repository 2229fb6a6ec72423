use hub::addr::Ipv4Addr;
use hub::cable::Peer;
use hub::cli::{
    arrived_text, cable_address, cable_get, cable_send, command, doctor, file_line, file_url, flag,
    found_line, hotspot_here, naming_lines, nothing_answered, plain_path, rest_of, say_again,
    sending_lines, serve_words, Command, Facts, Member, Sending, Taking, Wire,
};

fn words(v: &[&str]) -> Vec<String> {
    v.iter().map(|s| s.to_string()).collect()
}

fn wire(measured: bool) -> Wire {
    Wire {
        measured,
        adapter: "Ethernet".to_string(),
        megabits: 1000,
        cable: "Cat 5e or better".to_string(),
        chunk: 2_097_152,
    }
}

#[test]
fn each_word_means_its_command() {
    assert_eq!(command(&words(&["hub"])), Command::Screen);
    for (w, c) in [
        ("serve", Command::Serve),
        ("cable", Command::CableSend),
        ("cable-send", Command::CableSend),
        ("cable-get", Command::CableGet),
        ("cable-receive", Command::CableGet),
        ("fix-firewall", Command::FixFirewall),
        ("get", Command::Get),
        ("fetch", Command::Get),
        ("sums", Command::Sums),
        ("services", Command::Services),
        ("screen", Command::Screen),
        ("doctor", Command::Doctor),
        ("help", Command::Help),
        ("-V", Command::Version),
        ("nonsense", Command::Unknown),
    ] {
        assert_eq!(command(&words(&["hub", w])), c, "{w}");
    }
    assert_eq!(rest_of(&words(&["hub", "serve", "a", "b"])), words(&["hub", "a", "b"]));
    assert_eq!(rest_of(&words(&["hub"])), words(&["hub"]));
}

#[test]
fn a_flag_has_the_word_behind_it() {
    let a = words(&["hub", "--port", "9000", "--name"]);
    assert_eq!(flag(&a, "--port").as_deref(), Some("9000"));
    assert_eq!(flag(&a, "--name"), None);
    assert_eq!(flag(&a, "--into"), None);
}

#[test]
fn a_path_is_shown_as_people_write_it() {
    assert_eq!(plain_path(r"\\?\C:\Users\kid"), r"C:\Users\kid");
    assert_eq!(plain_path(r"\\?\UNC\server\share"), r"\\server\share");
    assert_eq!(plain_path("/home/kid"), "/home/kid");
}

#[test]
fn the_words_of_the_sending_command_are_read() {
    assert!(matches!(cable_send(&words(&["hub", "-h"])), Sending::Help));
    assert!(matches!(cable_send(&words(&["hub", "--addresses-anyway"])), Sending::NoFolder));
    match cable_send(&words(&["hub", "lessons", "--port", "99999", "--name", "Desk"])) {
        Sending::Go { folder, name, port, anyway } => {
            assert_eq!((folder.as_str(), name.as_deref(), port, anyway), ("lessons", Some("Desk"), 8080, false));
        }
        _ => panic!("a folder is sent"),
    }
    assert_eq!(serve_words("hub", "lessons", 8080), words(&["hub", "lessons", "--port", "8080"]));
}

#[test]
fn the_words_of_the_receiving_command_are_read() {
    assert!(matches!(cable_get(&words(&["hub", "--help"])), Taking::Help));
    match cable_get(&words(&["hub", "--wait", "5"])) {
        Taking::Go { into, wait } => assert_eq!((into.as_str(), wait), (".", 5)),
        _ => panic!("everything is taken"),
    }
}

#[test]
fn what_is_said_while_sending() {
    let s = sending_lines("lessons", &wire(true), None);
    assert_eq!(
        s,
        "Handing out lessons down the cable.\n  cable          Ethernet at 1000 Mbps, Cat 5e or better\n  finding        saying where this computer is, once a second"
    );
    assert!(sending_lines("x", &wire(false), Some("busy")).ends_with("not announcing (busy); type the address by hand"));
    let local = [Ipv4Addr::new(10, 0, 0, 5), Ipv4Addr::new(169, 254, 7, 7)];
    assert_eq!(cable_address(&local), Ipv4Addr::new(169, 254, 7, 7));
    assert_eq!(cable_address(&[]), Ipv4Addr::new(169, 254, 1, 1));
    assert_eq!(naming_lines(false, true, true, false, &local).len(), 2);
    assert_eq!(naming_lines(true, false, true, true, &[]).len(), 3);
    assert!(say_again("given out", "") && !say_again("looking", "") && !say_again("a", "a"));
}

#[test]
fn what_is_said_while_receiving() {
    let peer = Peer {
        ip: Ipv4Addr::new(169, 254, 1, 1),
        port: 8080,
        name: "Desk".to_string(),
        folder: "Lessons".to_string(),
    };
    assert_eq!(found_line(&peer), "Found Desk at 169.254.1.1, handing out Lessons.");
    assert_eq!(file_url(&peer.ip, 8080, "a b.txt"), "http://169.254.1.1:8080/a%20b.txt");
    assert_eq!(file_line(0, 4, "a.txt"), "  [1/4] a.txt");
    assert!(nothing_answered(60).starts_with("Nothing answered in 60 seconds.\n\nThings to check"));
    assert_eq!(arrived_text(3, &vec![]), "All 3 file(s) arrived.");
    assert_eq!(
        arrived_text(3, &words(&["a", "b"])),
        "2 of 3 did not arrive:\n  a\n  b\nRun the same command again. What already arrived is not fetched twice."
    );
}

fn facts() -> Facts {
    Facts {
        version: "1.2.3".to_string(),
        system: "linux".to_string(),
        threads: 8,
        helpers: 64,
        rows: 40,
        cols: 120,
        wifi: None,
        gateway: Some(Ipv4Addr::new(10, 0, 0, 1)),
        gateway_read: false,
        addresses: vec![Ipv4Addr::new(10, 42, 0, 1)],
        joined: Some(vec![
            Member { ip: Ipv4Addr::new(10, 42, 0, 9), name: Some("phone".to_string()) },
            Member { ip: Ipv4Addr::new(10, 42, 0, 10), name: None },
        ]),
        wire: wire(false),
        reachable: Some(false),
        bare_cable: false,
        chance: true,
    }
}

#[test]
fn the_doctor_says_what_is_wrong() {
    let s = doctor(&facts());
    for line in [
        "hub 1.2.3\n",
        "  processors     8\n",
        "  window         40 rows by 120 columns\n",
        "  wifi adapter   none found, so this computer cannot make a network\n",
        "  gateway        10.0.0.1 (a guess, not read from the system)\n",
        "  address        10.42.0.1\n",
        "  on your network 2 device(s)\n",
        "    10.42.0.9        phone\n",
        "    10.42.0.10       (no name; it did not give one)\n",
        "  cable          speed not readable, so 1 Gbps is assumed\n",
        "  sending pieces of 2048 KB at a time\n",
        "  reachable      NO. Run: hub fix-firewall\n",
        "  cable addresses  not offered here, which is correct on a network with a router\n",
    ] {
        assert!(s.contains(line), "{line:?} is missing from\n{s}");
    }
    assert!(s.ends_with("  password made  yes"));
}

#[test]
fn only_a_network_of_our_own_lists_everyone() {
    let own = Ipv4Addr::new(192, 168, 137, 1);
    assert_eq!(hotspot_here(&[Ipv4Addr::new(192, 168, 1, 5), own]), Some(own));
    assert_eq!(hotspot_here(&[Ipv4Addr::new(10, 41, 0, 1)]), None);
}
