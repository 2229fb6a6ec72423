use hub::serve::options::{Command, NetworkPlan};
use hub::serve::request::{head_complete, route, Route};
use hub::serve::{
    accept_move, accept_pending, address_text, bind_all, block_device, blocked_count,
    blocked_devices, claimed_name, clear_blocks, default_helpers, device_key, duplicate_claims,
    is_allowed, is_blocked, listen_address, mark_page_seen, note, note_direction, note_pending,
    our_names, pages_seen_count, parse_options, parse_range, pending_count, percent_decode,
    plain_listing, plan_network, plan_sending, read_request, redirect_base, redirect_captive,
    redirect_done, refuse_move, refuse_pending, respond, safe_join, set_allowed, set_claimed_name,
    transfers, unblock_device, unblock_key, urlencode, visible_files, write_file_head, Device,
    Direction, Item, Labels, Naming, Pending, Request, Sending, Ticked, Transfer,
};

const NAMING: Naming = Naming { windows: false, any_case: false };

fn device(ip: &str) -> Device {
    Device { ip: ip.to_string(), tag: None }
}

fn request(head: &str) -> Request {
    assert!(head_complete(&head.as_bytes().to_vec()));
    read_request(head.as_bytes())
}

fn everything() -> Ticked {
    Ticked { list: None }
}

#[test]
fn a_loopback_serve_leaves_port_80_alone() {
    let wanted = bind_all("127.0.0.1:0");
    assert!(!wanted.iter().any(|a| a.ends_with(":80")), "a loopback test must never own port 80: {wanted:?}");
    assert_eq!(wanted.len(), 1, "exactly the port that was asked for");
}

#[test]
fn a_wildcard_serve_still_binds_its_own_port() {
    let wanted = bind_all("0.0.0.0:0");
    assert!(wanted.contains(&"0.0.0.0:0".to_string()), "the requested port must always bind");
    assert!(wanted.iter().any(|a| a.ends_with(":80")), "and port 80 is tried for");
}

#[test]
fn a_paused_device_gets_nothing_and_a_freed_one_gets_it_back() {
    let d = device("127.0.0.1");
    let mut blocked = Labels::new();
    let none = Labels::new();
    let page = request("GET / HTTP/1.1\r\nHost: 127.0.0.1\r\n\r\n");
    let file = request("GET /lesson.txt HTTP/1.1\r\nHost: 127.0.0.1\r\n\r\n");
    let list = request("GET /?list HTTP/1.1\r\nHost: 127.0.0.1\r\n\r\n");
    let noted = request("POST /note HTTP/1.1\r\nHost: 127.0.0.1\r\nContent-Length: 12\r\n\r\n");
    let t = everything();

    assert!(!is_blocked(&blocked, &d));
    assert!(matches!(route(&t, &page, NAMING, false, is_blocked(&blocked, &d)), Route::ClassPage { .. }));
    assert!(matches!(route(&t, &file, NAMING, false, is_blocked(&blocked, &d)), Route::Fetch { .. }));
    assert!(matches!(route(&t, &list, NAMING, false, is_blocked(&blocked, &d)), Route::PlainList));
    assert!(matches!(route(&t, &noted, NAMING, false, is_blocked(&blocked, &d)), Route::Note { .. }));

    block_device(&mut blocked, &none, &none, &d);
    assert!(is_blocked(&blocked, &d));
    for r in [&page, &file, &list, &noted] {
        assert!(matches!(route(&t, r, NAMING, false, is_blocked(&blocked, &d)), Route::Paused { .. }));
    }

    unblock_device(&mut blocked, &d);
    assert!(!is_blocked(&blocked, &d));
    assert!(matches!(route(&t, &page, NAMING, false, is_blocked(&blocked, &d)), Route::ClassPage { .. }));
}

#[test]
fn a_block_is_filed_against_the_device_not_the_address() {
    let d = Device { ip: "10.42.0.90".to_string(), tag: Some("k3xq".to_string()) };
    let key = device_key(&d);
    assert!(key.starts_with("tag:"), "a device we know the hardware for must key by tag, got {key}");
    let mut blocked = Labels::new();
    let none = Labels::new();
    block_device(&mut blocked, &none, &none, &d);
    assert!(blocked_devices(&blocked).iter().any(|(k, _)| *k == key));
    let moved = Device { ip: "10.42.0.17".to_string(), tag: Some("k3xq".to_string()) };
    assert!(is_blocked(&blocked, &moved), "a new address is still the same device");
    unblock_key(&mut blocked, &key);
    assert!(!is_blocked(&blocked, &d), "the cleanup did not take");
}

#[test]
fn pausing_twice_leaves_one_entry() {
    let ip = device("203.0.113.7");
    let mut blocked = Labels::new();
    let none = Labels::new();
    let key = device_key(&ip);
    block_device(&mut blocked, &none, &none, &ip);
    block_device(&mut blocked, &none, &none, &ip);
    let mine = blocked_devices(&blocked).iter().filter(|(k, _)| *k == key).count();
    unblock_device(&mut blocked, &ip);
    assert_eq!(mine, 1, "a second pause added a second entry to undo");
    assert!(!is_blocked(&blocked, &ip));
}

#[test]
fn a_paused_device_that_disappears_keeps_its_label() {
    let ip = device("203.0.113.9");
    let mut blocked = Labels::new();
    let none = Labels::new();
    block_device(&mut blocked, &none, &none, &ip);
    let listed = blocked_devices(&blocked);
    let key = device_key(&ip);
    let kept = listed.iter().find(|(k, _)| *k == key).cloned();
    unblock_key(&mut blocked, &key);
    let (_, label) = kept.expect("a paused device must stay on the list");
    assert!(label.contains(&ip.ip), "the label has to name it somehow: {label}");
}

#[test]
fn everyone_can_be_let_back_in_at_once() {
    let mut blocked = Labels::new();
    let none = Labels::new();
    block_device(&mut blocked, &none, &none, &device("203.0.113.1"));
    block_device(&mut blocked, &none, &none, &device("203.0.113.2"));
    assert_eq!(blocked_count(&blocked), 2);
    clear_blocks(&mut blocked);
    assert_eq!(blocked_count(&blocked), 0);
}

#[test]
fn a_shared_name_is_told() {
    let mut claims = Labels::new();
    set_claimed_name(&mut claims, &device("10.0.0.1"), "Amina");
    set_claimed_name(&mut claims, &device("10.0.0.2"), "Amina");
    set_claimed_name(&mut claims, &device("10.0.0.3"), "Johnny");
    let shared = duplicate_claims(&claims);
    assert_eq!(shared, vec!["Amina"]);
    assert_eq!(claimed_name(&claims, &device("10.0.0.3")).as_deref(), Some("Johnny"));
}

#[test]
fn a_link_leads_back_to_its_file() {
    let name = "a folder/100% ë?.txt";
    assert_eq!(percent_decode(&urlencode(name)), name);
    assert_eq!(percent_decode("%zz%4"), "%zz%4");
    assert_eq!(percent_decode("%ff"), "\u{fffd}");
}

#[test]
fn no_path_leaves_the_folder() {
    assert_eq!(safe_join("a/b.txt", false), Some(vec!["a".to_string(), "b.txt".to_string()]));
    assert_eq!(safe_join("../secret", false), None);
    assert_eq!(safe_join("a/../../b", false), None);
}

#[test]
fn work_that_was_handed_in_is_never_served() {
    let t = everything();
    let r = request("GET /handed-in/essay.txt HTTP/1.1\r\nHost: x\r\n\r\n");
    assert!(!matches!(route(&t, &r, NAMING, false, false), Route::Fetch { .. }));
    let up = request("GET /../secret HTTP/1.1\r\nHost: x\r\n\r\n");
    assert!(!matches!(route(&t, &up, NAMING, false, false), Route::Fetch { .. }));
}

#[test]
fn a_probe_is_sent_to_the_page() {
    let t = everything();
    let r = request("GET /generate_204 HTTP/1.1\r\nHost: connectivitycheck.gstatic.com\r\n\r\n");
    assert!(matches!(route(&t, &r, NAMING, true, false), Route::Captive));
    assert!(redirect_captive(&redirect_base("10.42.0.1", 80)).contains("http://10.42.0.1/"));
    assert_eq!(address_text("10.42.0.1", 8080), "10.42.0.1:8080");
    assert!(redirect_done("note").contains("done=note"));
}

#[test]
fn only_what_is_ticked_is_shown() {
    let mut t = everything();
    assert!(is_allowed(&t, "a.txt"));
    set_allowed(&mut t, Some(vec!["a.txt".to_string()]));
    assert!(is_allowed(&t, "a.txt") && !is_allowed(&t, "b.txt"));
    let items = vec![
        Item { name: "a.txt".to_string(), is_file: true, size: 3 },
        Item { name: "b.txt".to_string(), is_file: true, size: 4 },
        Item { name: "sub".to_string(), is_file: false, size: 0 },
    ];
    assert_eq!(visible_files(&t, &items), vec![("a.txt".to_string(), 3)]);
}

#[test]
fn a_range_lies_inside_the_file() {
    assert_eq!(parse_range("bytes=0-9", 100), Some((0, 9)));
    assert_eq!(parse_range("bytes=90-", 100), Some((90, 99)));
    assert_eq!(parse_range("bytes=90-500", 100), Some((90, 99)));
    assert_eq!(parse_range("bytes=100-", 100), None);
    assert_eq!(parse_range("bytes=9-0", 100), None);
    assert_eq!(parse_range("bytes=0-", 0), None);
    assert_eq!(plan_sending(None, 100), Sending::Whole { len: 100 });
    assert_eq!(plan_sending(Some("bytes=0-9"), 100), Sending::Part { start: 0, end: 9 });
    assert_eq!(plan_sending(Some("bytes=200-"), 100), Sending::NotThere);
    let head = write_file_head(Sending::Part { start: 0, end: 9 }, 100, "text/plain", "a.txt", true);
    assert!(head.starts_with("HTTP/1.1 206"), "{head}");
    assert!(head.contains("Content-Range: bytes 0-9/100"), "{head}");
    assert!(respond(404, "text/plain", 3).starts_with("HTTP/1.1 404"));
}

#[test]
fn a_device_has_one_row() {
    let mut t: Vec<Transfer> = Vec::new();
    note(&mut t, "10.0.0.1:5000", "a.txt", 10, 100, 0);
    note(&mut t, "10.0.0.1:5001", "a.txt", 20, 100, 1);
    note_direction(&mut t, "10.0.0.2:5000", "b.txt", 5, 5, Direction::HandingIn, 1);
    let rows = transfers(&mut t, 1);
    assert_eq!(rows.len(), 2);
    let first = rows.iter().find(|r| r.peer.starts_with("10.0.0.1")).unwrap();
    assert_eq!((first.done, first.total), (30, 100));
}

#[test]
fn what_waits_is_accepted_or_refused_once() {
    let mut p: Vec<Pending> = Vec::new();
    note_pending(&mut p, "Amina", "essay.docx", "Amina--essay.docx", 9, "26-09-23 18:50");
    note_pending(&mut p, "Johnny", "b.docx", "Johnny--b.docx", 9, "26-09-23 18:51");
    assert_eq!(pending_count(&p), 2);
    assert_ne!(accept_move("Amina--essay.docx").to, refuse_move("Amina--essay.docx").to);
    accept_pending(&mut p, "Amina--essay.docx", true);
    assert_eq!(pending_count(&p), 1);
    refuse_pending(&mut p, "Johnny--b.docx", false);
    assert_eq!(pending_count(&p), 1, "what could not be moved still waits");
    refuse_pending(&mut p, "Johnny--b.docx", true);
    assert_eq!(pending_count(&p), 0);
}

#[test]
fn a_device_that_saw_the_page_is_counted_once() {
    let mut seen: Vec<String> = Vec::new();
    mark_page_seen(&mut seen, "10.0.0.1");
    mark_page_seen(&mut seen, "10.0.0.1");
    mark_page_seen(&mut seen, "10.0.0.2");
    assert_eq!(pages_seen_count(&seen), 2);
}

fn words(v: &[&str]) -> Vec<String> {
    v.iter().map(|s| s.to_string()).collect()
}

#[test]
fn the_words_of_the_serving_command_are_read() {
    match parse_options(&words(&["hub", "lessons", "--port", "9000"]), 8) {
        Command::Serve(o) => {
            assert_eq!(o.folder, "lessons");
            assert_eq!(o.port, 9000);
            assert_eq!(o.helpers, 8);
            assert_eq!(plan_network(&o), NetworkPlan::Existing);
            assert_eq!(listen_address(&o), "0.0.0.0:9000");
        }
        _ => panic!("a folder is served"),
    }
    assert!(matches!(parse_options(&words(&["hub", "--help"]), 8), Command::Help));
    match parse_options(&words(&["hub", "--nonsense"]), 8) {
        Command::NotAnOption(o) => assert_eq!(o, "--nonsense"),
        _ => panic!("an option that is none is told"),
    }
}

#[test]
fn helpers_follow_the_machine() {
    assert_eq!(default_helpers(Some("3"), Some(4)), 3);
    let by_machine = default_helpers(None, Some(4));
    assert!(by_machine > 0);
    assert_eq!(default_helpers(Some("not a number"), Some(4)), by_machine);
}

#[test]
fn our_own_names_are_the_addresses_and_more() {
    let names = our_names(&words(&["10.42.0.1"]), Some("gorilla.local"));
    assert!(names.contains(&"10.42.0.1".to_string()));
    assert!(names.contains(&"gorilla.local".to_string()));
    assert_eq!(plain_listing(&vec![("a.txt".to_string(), 3)]), "3\ta.txt\n");
}
