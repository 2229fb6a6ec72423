use hub::addr::{parse_address, Ipv4Addr};
use hub::net::addresses::{parse_mac, Neighbours};
use hub::net::base64::base64;
use hub::net::channels::legal;
use hub::net::devices::mac_for;
use hub::net::{
    active_profile_on, active_wifi_connection, ask_name, candidate_servers, card_summary_from,
    channel_ranges, connected_addresses, default_gateway, describe_channel, device_tag,
    disabled_hotspot_services, gateway_from_route_print, guessed_gateway, hotspot_address_of,
    joined_devices, list_files, list_over, list_request, live_default_gateway, local_addresses,
    local_macs, mentions_address, name_request, parse_arp, parse_leases, parse_phy_channels,
    probe_targets, same_subnet, short_hash, start_value_from, suggest_password,
    switched_off_advice, sweep_targets, timestamp, tz_offset_seconds, unescape_terse, usable_name,
    wifi_interface, win_get, win_hotspot, NameCache, HOTSPOT_SERVICES,
};

fn ip(s: &str) -> Ipv4Addr {
    let c: Vec<char> = s.chars().collect();
    parse_address(&c).unwrap()
}

#[test]
fn the_card_is_described_from_its_own_report() {
    let drivers = "    Driver                    : Intel(R) Wi-Fi 6 AX201 160MHz\n    Vendor : Intel\n";
    let caps = "    P2P GO on 5 GHz                             : Supported\n    P2P GO on 6 GHz                             : Not Supported\n    P2P GO ports count                          : 1\n    Number of MLO Connections Supported         : 0\n";
    assert_eq!(
        card_summary_from(drivers, caps).unwrap(),
        "Intel(R) Wi-Fi 6 AX201 160MHz: a network on 2.4 GHz or 5 GHz, not 6 GHz; one network at a time; no multi-band (MLO); Windows picks the channel."
    );
    assert_eq!(card_summary_from("nothing useful", ""), None);
    assert_eq!(describe_channel(6), "2.4 GHz, channel 6");
    assert_eq!(describe_channel(149), "5 GHz, channel 149");
}

#[test]
fn the_router_is_read_from_the_route_table_not_guessed() {
    let text = "IPv4 Route Table
  Network Destination        Netmask          Gateway       Interface  Metric
          0.0.0.0          0.0.0.0      10.0.5.74        10.0.5.96     35
          0.0.0.0          0.0.0.0      10.0.0.1         10.0.0.5     50
";
    assert_eq!(gateway_from_route_print(text), Some(Ipv4Addr::new(10, 0, 5, 74)));
    assert_eq!(gateway_from_route_print("no routes here"), None);
}

#[test]
fn base64_matches_the_standard() {
    assert_eq!(base64(b""), "");
    assert_eq!(base64(b"f"), "Zg==");
    assert_eq!(base64(b"fo"), "Zm8=");
    assert_eq!(base64(b"foo"), "Zm9v");
    assert_eq!(base64(b"foobar"), "Zm9vYmFy");
}

#[test]
fn both_signs_are_used() {
    assert_eq!(base64(&[0xfb, 0xff, 0xfe]), "+//+");
}

#[test]
fn the_scripts_answer_is_read_line_by_line() {
    let lines = win_hotspot("noise\r\nHUB_STATE On\r\n  HUB_ERR  it broke  \r\nHUB_DONE\r\nHUB_STATE Off\r\n");
    assert_eq!(lines.len(), 4);
    assert_eq!(win_get(&lines, "STATE").as_deref(), Some("On"), "the first counts");
    assert_eq!(win_get(&lines, "ERR").as_deref(), Some("it broke"));
    assert_eq!(win_get(&lines, "DONE").as_deref(), Some(""));
    assert_eq!(win_get(&lines, "RADIO"), None);
}

#[test]
fn only_something_that_looks_like_a_name_is_used_as_one() {
    assert_eq!(usable_name("Teacher's laptop").as_deref(), Some("Teacher's laptop"));
    assert_eq!(usable_name("  Year 7 Maths \n").as_deref(), Some("Year 7 Maths"));

    assert_eq!(usable_name("<!doctype html><html>..."), None);
    assert_eq!(usable_name(""), None);
    assert_eq!(usable_name("   "), None);

    assert_eq!(usable_name("evil\u{1b}[2Jname"), None);
    assert_eq!(usable_name("two\nlines").as_deref(), Some("two"));

    assert_eq!(usable_name(&"x".repeat(41)), None);
    assert_eq!(usable_name(&"x".repeat(40)).as_deref(), Some("x".repeat(40)).as_deref());
}

#[test]
fn a_name_is_read_out_of_a_whole_answer() {
    assert_eq!(
        ask_name(b"HTTP/1.1 200 OK\r\nContent-Length: 4\r\n\r\nDesk").as_deref(),
        Some("Desk")
    );
    assert_eq!(ask_name(b"HTTP/1.1 200 OK\r\n\r\n<html>"), None);
    assert_eq!(ask_name(b"no head at all"), None);
    let r = name_request(Ipv4Addr::new(10, 0, 0, 1), 8080);
    assert!(r.starts_with("GET /?who HTTP/1.1\r\nHost: 10.0.0.1"));
    assert!(list_request(Ipv4Addr::new(10, 0, 0, 1), 8080).starts_with("GET /"));
}

#[test]
fn a_broken_name_is_mended_and_not_dropped() {
    assert_eq!(ask_name(b"HTTP/1.1 200 OK\r\n\r\nDe\xffsk").as_deref(), Some("De\u{fffd}sk"));
}

#[test]
fn a_listing_is_read_back() {
    let files = list_files(b"12\tnotes.txt\n7\tpicture one.jpg\nrubbish\n");
    let got: Vec<(String, u64)> = files.into_iter().map(|e| (e.name, e.size)).collect();
    assert_eq!(got, vec![("notes.txt".to_string(), 12), ("picture one.jpg".to_string(), 7)]);
    assert_eq!(list_over(b"HTTP/1.1 200 OK\r\nContent-Length: 40\r\n\r\n"), Some(40));
    assert_eq!(list_over(b"HTTP/1.1 404 Not Found\r\n\r\n"), None);
}

#[test]
fn an_address_is_matched_whole_and_not_as_a_prefix() {
    let text = "   IPv4 Address. . . . . : 10.29.136.94
   Mask: 255.255.240.0
";
    assert!(mentions_address(text, ip("10.29.136.94")));
    assert!(!mentions_address(text, ip("10.29.136.9")));
    let text2 = "   addr 110.29.136.941 and 10.29.136.94
";
    assert!(mentions_address(text2, ip("10.29.136.94")));
    assert!(!mentions_address(text, ip("10.29.136.4")));
}

#[test]
fn a_disconnected_adapters_address_is_absent_from_the_tools_output() {
    let text = "Wireless LAN adapter Wi-Fi:

   Media State . . . : Media disconnected
";
    assert!(!mentions_address(text, ip("10.29.136.94")));
}

#[test]
fn only_addresses_that_the_tool_still_shows_are_connected() {
    let held = vec![ip("10.0.0.5"), ip("192.168.1.7")];
    assert_eq!(connected_addresses(&held, Some("IPv4: 192.168.1.7")), vec![ip("192.168.1.7")]);
    assert_eq!(connected_addresses(&held, None), held);
}

#[test]
fn a_phone_on_the_hotspot_is_seen_with_its_own_name() {
    let ours: Ipv4Addr = ip("10.42.0.1");
    let text = "1787613223 aa:bb:cc:dd:ee:ff 10.42.0.90 Xiaomi-11-Lite-5G-NE 01:aa:bb:cc:dd:ee:ff\n\
                1787613300 aa:bb:cc:dd:ee:00 10.42.0.31 * 01:aa:bb:cc:dd:ee:00\n\
                1787613400 aa:bb:cc:dd:ee:11 192.168.1.5 SomewhereElse 01:x\n";
    let got = parse_leases(text, ours);
    assert_eq!(got.len(), 2, "expected the two on our subnet, got {got:?}");
    assert_eq!(got[0].ip, ip("10.42.0.90"));
    assert_eq!(got[0].name.as_deref(), Some("Xiaomi-11-Lite-5G-NE"));
    assert_eq!(got[1].name, None);
}

#[test]
fn arp_counts_only_complete_entries_on_our_subnet() {
    let ours: Ipv4Addr = ip("10.42.0.1");
    let text = "IP address       HW type     Flags       HW address            Mask     Device\n\
                10.42.0.90       0x1         0x2         aa:bb:cc:dd:ee:ff     *        wlan0\n\
                10.42.0.77       0x1         0x0         00:00:00:00:00:00     *        wlan0\n\
                10.42.0.1        0x1         0x2         aa:bb:cc:dd:ee:01     *        wlan0\n\
                192.168.1.5      0x1         0x2         aa:bb:cc:dd:ee:02     *        eth0\n";
    let got = parse_arp(text, ours);
    assert_eq!(got.len(), 1, "got {got:?}");
    assert_eq!(got[0].ip, ip("10.42.0.90"));
}

#[test]
fn devices_are_listed_once_and_in_order() {
    let ours: Ipv4Addr = ip("10.42.0.1");
    let leases = parse_leases(
        "1 aa:bb:cc:dd:ee:ff 10.42.0.90 phone 01:aa\n2 aa:bb:cc:dd:ee:0f 10.42.0.9 tablet 01:bb\n",
        ours,
    );
    let around = parse_arp(
        "IP address HW type Flags HW address Mask Device\n\
         10.42.0.90 0x1 0x2 aa:bb:cc:dd:ee:ff * wlan0\n\
         10.42.0.50 0x1 0x2 aa:bb:cc:dd:ee:aa * wlan0\n",
        ours,
    );
    let all = joined_devices(leases, around);
    let got: Vec<(Ipv4Addr, Option<String>)> = all.into_iter().map(|j| (j.ip, j.name)).collect();
    assert_eq!(
        got,
        vec![
            (ip("10.42.0.9"), Some("tablet".to_string())),
            (ip("10.42.0.50"), None),
            (ip("10.42.0.90"), Some("phone".to_string())),
        ]
    );
}

#[test]
fn a_device_tag_is_stable_short_and_leaks_nothing() {
    let a = short_hash("aa:bb:cc:dd:ee:ff");
    let b = short_hash("aa:bb:cc:dd:ee:ff");
    assert_eq!(a, b, "the tag must be stable for one device");
    assert_eq!(a.chars().count(), 4);
    let other = short_hash("11:22:33:44:55:66");
    assert_ne!(a, other, "two devices must not share a tag this easily");
    assert!(!a.contains("aa") && !a.contains("ff"), "{a}");
    assert!(
        a.chars().all(|c| "abcdefghjkmnpqrstuvwxyz23456789".contains(c)),
        "{a} has a character somebody will misread"
    );
}

#[test]
fn the_tag_of_a_known_text_is_known() {
    // The digest of "abc" begins ba 78 16 bf, and there are 31 letters.
    assert_eq!(short_hash("abc"), "a6zf");
}

#[test]
fn the_clock_produces_a_sane_recent_date() {
    let t = timestamp(1_790_000_000, tz_offset_seconds("+0130"));
    assert_eq!(t.len(), 14, "{t}");
    let (date, time) = t.split_once(' ').expect("date and time");
    let parts: Vec<&str> = date.split('-').collect();
    assert_eq!(parts.len(), 3, "{t}");
    let year: i64 = parts[0].parse().expect("year");
    assert!((25..=99).contains(&year), "year {year} out of range in {t}");
    let month: i64 = parts[1].parse().expect("month");
    assert!((1..=12).contains(&month), "month {month} in {t}");
    let day: i64 = parts[2].parse().expect("day");
    assert!((1..=31).contains(&day), "day {day} in {t}");
    let hh: i64 = time[..2].parse().expect("hour");
    assert!(hh < 24, "{t}");
}

#[test]
fn a_known_second_has_a_known_date() {
    assert_eq!(timestamp(0, 0), "70-01-01 00:00");
    assert_eq!(timestamp(951_782_399, 1), "00-02-29 00:00");
    assert_eq!(timestamp(0, -60), "69-12-31 23:59");
    assert_eq!(tz_offset_seconds("-0330"), -12_600);
    assert_eq!(tz_offset_seconds("nonsense"), 0);
}

#[test]
fn a_connection_name_survives_the_round_trip_through_terse_mode() {
    assert_eq!(unescape_terse(r"\:-\) staff \:-\) room"), ":-) staff :-) room");
    assert_eq!(unescape_terse("ASK4 Wireless"), "ASK4 Wireless");
    assert_eq!(unescape_terse(r"Room\:5"), "Room:5");
    assert_eq!(unescape_terse(r"back\\slash"), r"back\slash");
    assert_eq!(unescape_terse(r"trailing\"), r"trailing\");
}

#[test]
fn the_wifi_that_was_there_before_is_found() {
    assert_eq!(wifi_interface("lo:loopback\nwlan0:wifi\n").as_deref(), Some("wlan0"));
    assert_eq!(wifi_interface("eth0:ethernet\n"), None);
    let active = "wired:802-3-ethernet\nRoom\\:5:802-11-wireless\n";
    assert_eq!(active_wifi_connection(active).as_deref(), Some("Room:5"));
    assert_eq!(active_wifi_connection("wired:802-3-ethernet\n"), None);
    let on = "other:wlan1:802-11-wireless\nHotspot-1:wlan0:802-11-wireless\n";
    assert_eq!(active_profile_on(on, "wlan0").as_deref(), Some("Hotspot-1"));
    assert_eq!(hotspot_address_of("10.42.0.1/24\n"), Some(ip("10.42.0.1")));
    assert_eq!(hotspot_address_of("nothing\n"), None);
    assert_eq!(active_profile_on("", "wlan0"), None);
}

#[test]
fn the_channel_parser_keeps_what_may_speak_and_drops_the_rest() {
    let canned = "
        Frequencies:
            * 2412.0 MHz [1] (17.0 dBm)
            * 2417.0 MHz [2] (17.0 dBm)
            * 2467.0 MHz [12] (17.0 dBm) (no IR)
            * 2472.0 MHz [13] (17.0 dBm) (no IR)
            * 2484.0 MHz [14] (disabled)
            * 5180.0 MHz [36] (20.0 dBm)
            * 5200.0 MHz [40] (20.0 dBm)
            * 5260.0 MHz [52] (20.0 dBm) (radar detection)
        ";
    let chs = parse_phy_channels(canned);
    assert_eq!(chs, vec![1, 2, 36, 40, 52], "{chs:?}");
    assert_eq!(channel_ranges(&chs), "1-2, 36, 40, 52");
    assert_eq!(channel_ranges(&[1, 2, 3, 4, 5, 6, 7, 8, 9, 10, 11, 12, 13]), "1-13");
    assert_eq!(channel_ranges(&[]), "");
}

#[test]
fn where_nothing_is_known_the_usual_channels_are_legal() {
    assert!(legal(1, &[]) && legal(13, &[]));
    assert!(!legal(0, &[]) && !legal(14, &[]) && !legal(36, &[]));
    assert!(legal(36, &[1, 36]) && !legal(2, &[1, 36]));
    assert_eq!(describe_channel(14), "2.4 GHz, channel 14");
    assert_eq!(describe_channel(15), "5 GHz, channel 15");
    assert_eq!(describe_channel(177), "5 GHz, channel 177");
    assert_eq!(describe_channel(178), "6 GHz, channel 178");
}

#[test]
fn suggested_password_is_long_enough_and_readable() {
    let first: Vec<u8> = vec![7, 250, 31, 99, 0, 247, 248, 13, 60, 61, 200, 3, 4, 5, 6, 7];
    let second: Vec<u8> = vec![8, 17, 31, 99, 1, 240, 28, 13, 60, 61, 200, 3, 4, 5, 6, 7];
    let p = suggest_password(Some(&first));
    assert_eq!(p.chars().count(), 8, "WPA2 needs at least 8");
    assert!(
        p.chars().all(|c| "abcdefghjkmnpqrstuvwxyz23456789".contains(c)),
        "{p} has a character somebody will misread"
    );
    assert_ne!(p, suggest_password(Some(&second)));
}

#[test]
fn without_chance_there_is_no_password() {
    assert_eq!(suggest_password(None), "");
    assert_eq!(suggest_password(Some(&vec![1, 2, 3])), "");
    assert_eq!(suggest_password(Some(&vec![250; 64])), "", "unfair bytes are not used");
    assert_eq!(suggest_password(Some(&vec![0, 1, 2, 30, 31, 32, 247, 255, 3])), "abc9ab9d");
}

#[test]
fn a_real_arp_entry_produces_the_expected_tag() {
    let text = "IP address       HW type     Flags       HW address            Mask     Device\n\
                10.42.0.90       0x1         0x2         aa:bb:cc:dd:ee:ff     *        wlan0\n";
    let mac = mac_for(text, "10.42.0.90").unwrap();
    assert_eq!(mac, "aa:bb:cc:dd:ee:ff");
    let tag = device_tag(text, "10.42.0.90").expect("an ARP entry we just read must produce a tag");
    assert_eq!(tag, short_hash(&mac), "the tag must come from that entry's hardware address");
    assert_eq!(tag.chars().count(), 4);
}

#[test]
fn the_start_value_is_read_as_a_number_and_not_as_a_word() {
    let real = "\r\nHKEY_LOCAL_MACHINE\\SYSTEM\\CurrentControlSet\\Services\\icssvc\r\n    \
                Start    REG_DWORD    0x4\r\n\r\n";
    assert_eq!(start_value_from(real), Some(4), "disabled, from real output");

    assert_eq!(
        start_value_from("    Start    REG_DWORD    0x3"),
        Some(3),
        "3 is Manual, which is the Windows default for both of these"
    );
    assert_eq!(start_value_from("    Start    REG_DWORD    0x2"), Some(2));

    let german = "\r\nHKEY_LOCAL_MACHINE\\SYSTEM\\CurrentControlSet\\Services\\icssvc\r\n    \
                  Start    REG_DWORD    0x4\r\n";
    assert_eq!(start_value_from(german), Some(4));

    assert_eq!(start_value_from(""), None);
    assert_eq!(start_value_from("ERROR: The system was unable to find the key"), None);
    assert_eq!(start_value_from("    Start    REG_SZ    manual"), None);
}

#[test]
fn a_machine_with_nothing_switched_off_is_told_nothing() {
    assert!(switched_off_advice(&[]).is_none());
}

#[test]
fn the_advice_names_the_service_and_the_exact_words_to_type() {
    let off = [
        ("icssvc", "Windows Mobile Hotspot Service"),
        ("SharedAccess", "Internet Connection Sharing"),
    ];
    let s = switched_off_advice(&off).expect("something is off, so there must be advice");

    assert!(s.contains("it is not the wifi card"), "does not clear the hardware:\n{s}");
    assert!(s.contains("Windows Mobile Hotspot Service"), "no plain name:\n{s}");
    assert!(s.contains("(icssvc)"), "no service name to search for:\n{s}");
    assert!(s.contains("Set-Service icssvc -StartupType Manual"), "no command to type:\n{s}");
    assert!(
        s.contains("Set-Service SharedAccess -StartupType Manual"),
        "the second service is named but not fixed:\n{s}"
    );
    assert!(s.contains("ADMINISTRATOR"), "does not say it needs admin:\n{s}");
    assert!(s.contains("Mobile hotspot"), "does not say how to check it worked:\n{s}");
    assert!(s.contains("cable"), "no way out for somebody who is not allowed to do this:\n{s}");
}

#[test]
fn the_advice_does_not_name_services_that_are_fine() {
    let off = [("icssvc", "Windows Mobile Hotspot Service")];
    let s = switched_off_advice(&off).expect("advice");
    assert!(!s.contains("SharedAccess"), "names a service that is on:\n{s}");
    assert!(!s.contains("WFDSConMgrSvc"), "names a service that is on:\n{s}");
}

#[test]
fn the_list_holds_only_services_measured_to_matter() {
    assert_eq!(HOTSPOT_SERVICES.len(), 2, "a service was added without a measurement");
    assert!(
        !HOTSPOT_SERVICES.iter().any(|(s, _)| *s == "WFDSConMgrSvc"),
        "WFDSConMgrSvc was measured NOT to be needed; the hotspot started with it Disabled"
    );
    assert!(HOTSPOT_SERVICES.iter().any(|(s, _)| *s == "icssvc"));
    assert!(HOTSPOT_SERVICES.iter().any(|(s, _)| *s == "SharedAccess"));
}

#[test]
fn asking_this_machine_returns_only_names_we_know() {
    let off = "    Start    REG_DWORD    0x4";
    let manual = "    Start    REG_DWORD    0x3";
    for first in [None, Some(off), Some(manual)] {
        for second in [None, Some(off), Some(manual)] {
            let answer = disabled_hotspot_services(first, second);
            for (service, human) in &answer {
                assert!(
                    HOTSPOT_SERVICES.iter().any(|(s, h)| s == service && h == human),
                    "reported a service that is not on the list: {service}"
                );
            }
            let expected = (first == Some(off)) as usize + (second == Some(off)) as usize;
            assert_eq!(answer.len(), expected);
        }
    }
}

#[test]
fn a_lookup_is_tried_again_but_not_for_ever() {
    let mut cache = NameCache::new();
    let phone = ip("10.42.0.90");
    assert!(cache.ensure(phone, 0));
    assert!(!cache.ensure(phone, 1));
    let mut asked = 1;
    let mut now = 0;
    for _ in 0..50 {
        now += 60_000;
        if cache.ensure(phone, now) {
            asked += 1;
        }
    }
    assert!(asked > 1 && asked < 10, "{asked}");
    assert_eq!(cache.get(phone), None);
    cache.found(phone, "phone");
    assert_eq!(cache.get(phone).as_deref(), Some("phone"));
    assert!(!cache.ensure(phone, now + 60_000_000));
}

#[test]
fn a_sweep_asks_everyone_but_us() {
    let us = ip("192.168.7.20");
    let all = sweep_targets(us);
    assert_eq!(all.len(), 253);
    assert!(!all.contains(&us));
    assert!(all.contains(&ip("192.168.7.1")) && all.contains(&ip("192.168.7.254")));
    assert!(!all.contains(&ip("192.168.7.0")) && !all.contains(&ip("192.168.7.255")));
    assert!(same_subnet(us, ip("192.168.7.99")));
    assert!(!same_subnet(us, ip("192.168.8.20")));
}

#[test]
fn the_likely_servers_are_asked_first_and_once() {
    let gateway = Some(ip("10.42.0.1"));
    let locals = vec![ip("10.42.0.20")];
    let c = candidate_servers(gateway, &locals);
    assert_eq!(c[0], ip("10.42.0.1"));
    let mut seen = Vec::new();
    for a in &c {
        assert!(!seen.contains(a), "{a:?} is asked twice");
        seen.push(*a);
    }
    assert_eq!(probe_targets(gateway)[0], ip("10.42.0.1"));
    assert_eq!(guessed_gateway(Some(ip("192.168.5.44"))), Some(ip("192.168.5.1")));
    assert_eq!(guessed_gateway(None), None);
}

#[test]
fn a_gateway_counts_only_while_it_answers() {
    let table = "Iface Destination Gateway Flags\nwlan0 00000000 0105A8C0 0003\n";
    assert_eq!(default_gateway(table), Some(ip("192.168.5.1")));
    assert_eq!(default_gateway("Iface Destination\n"), None);
    let g = Some(ip("192.168.5.1"));
    assert_eq!(live_default_gateway(None, &Neighbours::Unasked), None);
    assert_eq!(live_default_gateway(g, &Neighbours::Unasked), None);
    assert_eq!(live_default_gateway(g, &Neighbours::Failed), g);
    let around = "? (192.168.5.1) at aa:bb:cc:dd:ee:ff";
    assert_eq!(live_default_gateway(g, &Neighbours::Told(around.to_string())), g);
    assert_eq!(live_default_gateway(g, &Neighbours::Told(String::new())), None);
    assert_eq!(live_default_gateway(Some(ip("169.254.3.1")), &Neighbours::Failed), None);
}

#[test]
fn hardware_addresses_are_read_in_either_spelling() {
    let want = Some([0xaa, 0xbb, 0xcc, 0xdd, 0xee, 0x0f]);
    assert_eq!(parse_mac("aa:bb:cc:dd:ee:0f"), want);
    assert_eq!(parse_mac("AA-BB-CC-DD-EE-0F"), want);
    assert_eq!(parse_mac("aa:bb:cc:dd:ee"), None);
    assert_eq!(parse_mac("not a mac"), None);
    assert_eq!(local_macs("link/ether aa:bb:cc:dd:ee:0f brd ff:ff:ff:ff:ff:ff")[0], want.unwrap());
}

#[test]
fn our_own_loop_is_no_address() {
    let all = local_addresses(&vec![ip("127.0.0.1"), ip("10.0.0.5"), ip("10.0.0.5")]);
    assert_eq!(all, vec![ip("10.0.0.5")]);
}
