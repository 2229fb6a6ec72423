use hub::fetch::book::{damaged_line, piece_coming, prints_line, probed, resumed_lines, NO_FILE, NO_PRINTS};
use hub::fetch::wire::Head;
use hub::net::parse_mac_for_test;
use hub::page::paused_page;
use hub::serve::request::Route;
use hub::serve::{
    claimed_name, fetch_answer, forget_claim, handin_available, has_seen_page, is_running,
    keeps_open, listing, live_connections, mark_page_seen, note_pending, on_port_80, pending, roster_label,
    set_claimed_name, tag_for, total_sent, Answer, Device, Labels,
    ListRow, Service,
};

fn device() -> Device {
    Device { ip: "10.42.0.7".to_string(), tag: Some("3f".to_string()) }
}

#[test]
fn a_hardware_address_is_read() {
    assert_eq!(parse_mac_for_test("aa:bb:cc:00:01:ff"), Some([0xaa, 0xbb, 0xcc, 0x00, 0x01, 0xff]));
    assert_eq!(parse_mac_for_test("aa:bb:cc:00:01"), None);
}

#[test]
fn the_roster_shows_name_and_device() {
    let d = device();
    let mut claims = Labels::new();
    let mut names = Labels::new();
    assert_eq!(tag_for(&d).as_deref(), Some("3f"));
    assert_eq!(roster_label(&claims, &names, &d), "10.42.0.7");
    names.set("10.42.0.7", "phone");
    assert_eq!(roster_label(&claims, &names, &d), "phone");
    set_claimed_name(&mut claims, &d, "Ana");
    assert_eq!(roster_label(&claims, &names, &d), "Ana [phone]");
    forget_claim(&mut claims, &d);
    assert_eq!(claimed_name(&claims, &d), None);
    assert_eq!(roster_label(&claims, &names, &d), "phone");
}

#[test]
fn what_waits_and_who_looked_is_remembered() {
    let mut waiting = Vec::new();
    note_pending(&mut waiting, "Ana", "a.txt", "Ana--a.txt", 7, "10:00");
    note_pending(&mut waiting, "Ana", "a.txt", "Ana--a.txt", 7, "10:01");
    let shown = pending(&waiting);
    assert_eq!(shown.len(), 1);
    assert_eq!((shown[0].from.as_str(), shown[0].on_disk.as_str(), shown[0].bytes), ("Ana", "Ana--a.txt", 7));
    let mut seen = Vec::new();
    mark_page_seen(&mut seen, "10.42.0.7");
    assert!(has_seen_page(&seen, "10.42.0.7") && !has_seen_page(&seen, "10.42.0.8"));
}

#[test]
fn the_service_says_what_it_does() {
    let s = Service { served: 9, live: 2, running: true, handin_ok: false, port_80: true };
    assert_eq!((total_sent(&s), live_connections(&s)), (9, 2));
    assert!(is_running(&s) && !handin_available(&s) && on_port_80(&s));
}

#[test]
fn what_was_posted_ends_the_connection() {
    assert!(!keeps_open(&Route::HandIn, true));
    assert!(!keeps_open(&Route::Note { body: 3 }, true));
    assert!(!keeps_open(&Route::Name { body: 3 }, true));
    assert!(!keeps_open(&Route::Paused { drain: 0 }, true));
    assert!(!keeps_open(&Route::Captive, true) && !keeps_open(&Route::NothingSent, true));
    assert!(keeps_open(&Route::PlainList, true) && !keeps_open(&Route::PlainList, false));
    assert!(keeps_open(&Route::NotFound, true));
}

#[test]
fn a_path_is_answered_by_what_lies_there() {
    assert_eq!(fetch_answer(false, false, false), Answer::NotFound);
    assert_eq!(fetch_answer(true, true, true), Answer::Listing);
    assert_eq!(fetch_answer(true, false, true), Answer::Length);
    assert_eq!(fetch_answer(true, false, false), Answer::File);
}

#[test]
fn a_transfer_begins_with_what_is_there() {
    assert_eq!(probed(&Head { status: 206, len: 1, total: Some(10) }), Ok(10));
    assert_eq!(probed(&Head { status: 206, len: 1, total: Some(0) }), Err(NO_FILE));
    assert_eq!(probed(&Head { status: 206, len: 1, total: None }), Err(NO_FILE));
    assert_eq!(probed(&Head { status: 200, len: 1, total: Some(10) }), Err(NO_FILE));
    assert_eq!(piece_coming(&Head { status: 206, len: 5, total: None }), Ok(5));
    assert_eq!(piece_coming(&Head { status: 404, len: 5, total: None }), Err("expected 206, got 404".to_string()));
    assert_eq!(prints_line(true, 3).as_deref(), Some("checking every piece against 3 fingerprints"));
    assert_eq!(prints_line(true, 0).as_deref(), Some(NO_PRINTS));
    assert_eq!(prints_line(false, 0), None);
    assert_eq!(
        resumed_lines(5, 3, 9),
        vec![
            "2 pieces were recorded but not actually here, fetching them again".to_string(),
            "carrying on: 3 of 9 pieces are already here".to_string(),
        ]
    );
    assert!(resumed_lines(0, 0, 9).is_empty());
    assert_eq!(damaged_line(2).as_deref(), Some("2 of those were damaged and will be fetched again"));
    assert_eq!(damaged_line(0), None);
}

#[test]
fn a_folder_is_a_page_of_links() {
    let rows = vec![ListRow { way: "a/b.txt".to_string(), name: "b.txt".to_string(), size: "0.50 GB".to_string() }];
    assert_eq!(
        listing(&rows),
        "<!doctype html><meta charset=utf-8><title>files</title><body><h2>files</h2><ul>\
         <li><a href=\"/a/b.txt\">b.txt</a> 0.50 GB</li></ul></body>"
    );
    assert!(listing(&Vec::new()).ends_with("<ul></ul></body>"));
}

#[test]
fn a_paused_device_is_told_and_asks_again() {
    let page = paused_page();
    assert!(page.contains("paused this device") && page.contains("http-equiv=\"refresh\""));
}
