use std::collections::BTreeSet;
use hub::addr::Ipv4Addr;
use hub::dhcp::packet::{DECLINE, DISCOVER, RELEASE};
use hub::dhcp::server::handle;
use hub::dhcp::Leases;
use hub::dns::answer;
use hub::fetch::book::{empty_book, log, MESSAGES_KEPT};
use hub::fetch::{messages, not_an_address, same_shape, set_quiet};
use hub::fetch::plan::{pieces_to_fetch, without_damaged};
use hub::grid::Grid;
use hub::net::parse_mac_for_test;
use hub::page::upload::Plan;
use hub::page::{
    class_page, files_frame, fresh_token, read_name, read_note, read_plan, FileRow, NoteBook,
    NoteOutcome, PageParts,
};
use hub::serve::request::{route, Route};
use hub::serve::{
    claimed_name, duplicate_claims, listing, plan_sending, read_request, safe_join, urlencode,
    visible_files, write_file_head, Device, Item, Labels, ListRow, Naming, Sending, Ticked,
};
use hub::qr::field::{ec_codewords, gmul};
use hub::term::keys::Key;
use hub::term::width::{truncate, truncate_middle, width};
use hub::term::Frame;

fn everything() -> Ticked {
    Ticked { list: None }
}

fn sent_where(path: &str, windows: bool, any_case: bool) -> Route {
    let head = format!("GET {path} HTTP/1.1\r\nHost: hub\r\n\r\n");
    let naming = Naming { windows, any_case };
    route(&everything(), &read_request(head.as_bytes()), naming, false, false)
}

fn sent_to(path: &str) -> Route {
    sent_where(path, false, false)
}

#[test]
fn a_hardware_address_has_hexadecimal_pairs_only() {
    assert_eq!(parse_mac_for_test("+1:02:03:04:05:06"), None);
    assert_eq!(parse_mac_for_test("01:02:03:04:05:+6"), None);
    assert_eq!(parse_mac_for_test("01:02:03:04:05: 6"), None);
    assert_eq!(parse_mac_for_test("1:02:03:04:05:06"), None);
    assert_eq!(parse_mac_for_test("0A-0b-03-04-05-fF"), Some([10, 11, 3, 4, 5, 255]));
}

#[test]
fn nothing_is_cut_to_more_than_there_is_room_for() {
    for cols in 0..6 {
        for text in ["", "a", "abc", "abcdefgh", "\u{65e5}\u{672c}\u{8a9e}"] {
            assert!(width(&truncate(text, cols)) <= cols, "{text} to {cols}");
            assert!(width(&truncate_middle(text, cols)) <= cols, "{text} to {cols}");
        }
    }
    assert_eq!(truncate("abc", 0), "");
    assert_eq!(truncate("abc", 1), "~");
    assert_eq!(truncate_middle("abc", 0), "");
    let mut f = Frame::new(1, 0);
    f.push("abc");
    assert_eq!(f.used(), 1);
    assert_eq!(f.draw(), "\x1b[H\x1b[K");
}

#[test]
fn no_way_of_writing_a_path_leaves_the_folder() {
    assert_eq!(safe_join("C:\\x", true), None);
    assert_eq!(safe_join("..\\..\\x", true), None);
    assert_eq!(safe_join("a/C:/x", true), None);
    for windows in [false, true] {
        assert_eq!(safe_join("a/b", windows), Some(vec!["a".to_string(), "b".to_string()]));
        assert_eq!(safe_join("a/../b", windows), None);
        assert_eq!(safe_join("./a", windows), None);
        assert!(matches!(sent_where("/..%2F..%2Fx", windows, windows), Route::Forbidden));
        assert!(matches!(sent_where("/view/a.pdf", windows, windows), Route::View { .. }));
        assert!(matches!(sent_where("/view/..%2Fa.pdf", windows, windows), Route::NotFound));
    }
    assert!(matches!(sent_where("/C:%5Cx", true, true), Route::Forbidden));
    assert!(matches!(sent_where("/..%5C..%5Cx", true, true), Route::Forbidden));
    assert!(matches!(sent_where("/view/C:%5Cx", true, true), Route::NotFound));
}

#[test]
fn what_is_seen_can_be_fetched_whatever_its_name() {
    for name in ["Lesson 3: fractions.pdf", "a\\b.txt", "50% off?.txt", "\u{65e5}\u{672c}.mp4", "view"] {
        assert_eq!(safe_join(name, false), Some(vec![name.to_string()]));
        let link = format!("/{}?dl=1", urlencode(name));
        let Route::Fetch { way, head_only, download } = sent_to(&link) else {
            panic!("{name}");
        };
        assert_eq!((way, head_only, download), (vec![name.to_string()], false, true));
        let Route::View { name: shown } = sent_to(&format!("/view/{}", urlencode(name))) else {
            panic!("{name}");
        };
        assert_eq!(shown, name);
    }
    let link = format!("/{}?dl=1", urlencode("Lesson 3: fractions.pdf"));
    assert!(matches!(sent_where(&link, true, true), Route::Forbidden));
    assert!(matches!(sent_to("/files?dl=1"), Route::FileFrame));
}

#[test]
fn files_are_told_in_the_order_of_their_names() {
    let item = |name: &str, is_file: bool| Item { name: name.to_string(), is_file, size: 3 };
    let items = vec![item("b.txt", true), item("B.txt", true), item("a10", true), item("a2", true), item("\u{e9}", true), item("z", true), item("a", true), item("m", false)];
    let seen: Vec<String> = visible_files(&everything(), &items).into_iter().map(|f| f.0).collect();
    assert_eq!(seen, vec!["B.txt", "a", "a10", "a2", "b.txt", "z", "\u{e9}"]);
    let row = |name: &str, size: &str| ListRow { way: format!("w/{name}"), name: name.to_string(), size: size.to_string() };
    let page = listing(&vec![row("b", "2"), row("a", "1"), row("b", "3")]);
    let at = |text: &str| page.find(text).unwrap();
    assert!(at("<li><a href=\"/w/a\">a</a> 1</li>") < at("<li><a href=\"/w/b\">b</a> 2</li>"));
    assert!(at("b</a> 2</li>") < at("b</a> 3</li>"));
    assert!(hub::serve::order::is_before("a", "ab"));
    assert!(!hub::serve::order::is_before("a", "a"));
    assert!(!hub::serve::order::is_before("b", "ab"));
}

#[test]
fn handed_in_work_is_withheld_however_it_is_spelt() {
    assert!(matches!(sent_where("/HANDED-IN/x", false, true), Route::NotFound));
    assert!(matches!(sent_where("/Handed-In/x", false, true), Route::NotFound));
    assert!(matches!(sent_where("/handed-in%5Cx", true, true), Route::Forbidden));
    for any_case in [false, true] {
        assert!(matches!(sent_where("/handed-in/x", false, any_case), Route::NotFound));
        assert!(matches!(sent_where("//handed-in/x", false, any_case), Route::NotFound));
        assert!(matches!(sent_where("/handed-in-lists.txt", false, any_case), Route::Fetch { .. }));
    }
    assert!(matches!(sent_to("/Handed-In/x"), Route::Fetch { .. }));
}

#[test]
fn an_empty_file_is_announced_as_empty() {
    assert_eq!(plan_sending(None, 0), Sending::Whole { len: 0 });
    let head = write_file_head(plan_sending(None, 0), 0, "text/plain", "a.txt", false);
    assert!(head.contains("Content-Length: 0\r\n"));
}

fn packet(mac: u8, kind: u8) -> Vec<u8> {
    let mut p = vec![0u8; 240];
    p[0] = 1;
    p[1] = 1;
    p[2] = 6;
    p[28..34].copy_from_slice(&[0xde, 0xad, 0xbe, 0xef, 0, mac]);
    p[236..240].copy_from_slice(&[0x63, 0x82, 0x53, 0x63]);
    p.extend([53, 1, kind, 255]);
    p
}

#[test]
fn a_declined_address_is_not_offered_again() {
    let server = Ipv4Addr::new(169, 254, 5, 5);
    let mut l = Leases::new(server);
    let offered = |l: &mut Leases, mac: u8| {
        let r = handle(l, &packet(mac, DISCOVER), server).unwrap();
        [r[16], r[17], r[18], r[19]]
    };
    let first = offered(&mut l, 1);
    assert!(handle(&mut l, &packet(1, DECLINE), server).is_none());
    let second = offered(&mut l, 1);
    assert_ne!(first, second, "a bad address must not be offered again");
    assert_ne!(offered(&mut l, 2), first);
    assert!(handle(&mut l, &packet(1, RELEASE), server).is_none());
    assert_eq!(offered(&mut l, 3), second, "a released one is");
}

#[test]
fn the_wish_for_recursion_is_copied() {
    let us = Ipv4Addr::new(169, 254, 87, 61);
    for (asked, flags) in [(0x01u8, 0x85u8), (0x00, 0x84)] {
        let mut q = vec![0x12, 0x34, asked, 0, 0, 1, 0, 0, 0, 0, 0, 0, 3];
        q.extend(b"hub");
        q.extend([0, 0, 1, 0, 1]);
        let r = answer(&q, us).unwrap();
        assert_eq!((r[2], r[3]), (flags, 0x80));
    }
}

#[test]
fn what_is_no_web_address_is_told() {
    assert_eq!(not_an_address("ftp://x"), "That is not a web address: ftp://x");
}

#[test]
fn forms_are_read_as_bytes() {
    let mut book = NoteBook::new();
    let r = read_note(&mut book, "10.42.0.9", "Ana", b"token=a1&text=hello+there", 5);
    assert!(matches!(r, NoteOutcome::Kept(t) if t == "hello there"));
    let again = read_note(&mut book, "10.42.0.9", "Ana", b"token=a1&text=hello+there", 6);
    assert!(matches!(again, NoteOutcome::Dropped));
    assert!(matches!(read_note(&mut book, "10.42.0.9", "Ana", b"token=a2&text=+", 6), NoteOutcome::Empty));
    let d = Device { ip: "10.42.0.9".to_string(), tag: None };
    let mut claims = Labels::new();
    read_name(&mut claims, &d, b"who=Ana%20B");
    assert_eq!(claimed_name(&claims, &d).as_deref(), Some("Ana B"));
    let head = b"POST /handin HTTP/1.1\r\nContent-Length: 12\r\nContent-Type: multipart/form-data; boundary=xy\r\n\r\n";
    assert!(matches!(read_plan(head), Plan::Take { boundary, length: 12 } if boundary == "xy"));
    assert!(matches!(read_plan(b"POST /handin HTTP/1.1\r\n\r\n"), Plan::Empty));
}

#[test]
fn a_minute_brings_no_more_notes_than_it_may() {
    let mut book = NoteBook::new();
    let mut kept = 0;
    for i in 0..40u64 {
        let body = format!("token=t{i}&text=note {i}");
        if let NoteOutcome::Kept(_) = read_note(&mut book, "10.42.0.9", "Ana", body.as_bytes(), i * 1_000_000_000) {
            kept += 1;
        }
    }
    assert_eq!(kept, 6);
}

#[test]
fn messages_stay_in_order() {
    let mut b = empty_book();
    set_quiet(&mut b, true);
    for i in 0..200u32 {
        let text = format!("piece {i} {}", ["arrived", "lost", "found"][(i / 2 % 3) as usize]);
        log(&mut b, &text);
    }
    let all = messages(&b);
    assert_eq!(all.len(), MESSAGES_KEPT);
    assert!(all.iter().all(|m| m.times == 2));
    assert!(all.windows(2).all(|w| !same_shape(&w[0].text, &w[1].text)));
}

fn page_for(claimed: Option<&str>, rename: bool, handin: bool) -> String {
    class_page(&PageParts {
        notice: "see http://x/name and action=\"/name\"",
        done: Some("note"),
        claimed,
        rename,
        here: "10.42.0.1",
        handin,
        handin_token: &fresh_token(Some(vec![1, 2]), 7),
        note_token: &fresh_token(None, 255),
    })
}

#[test]
fn the_forms_stand_where_they_should() {
    for claimed in [None, Some("Ana"), Some("/name\" action=\"/note")] {
        for rename in [false, true] {
            for handin in [false, true] {
                let p = page_for(claimed, rename, handin);
                let asked = claimed.is_none() || rename;
                assert_eq!(p.contains("action=\"/name\""), asked);
                assert_eq!(p.contains("action=\"/note\""), !asked);
                assert_eq!(p.contains("src=\"/files\""), !asked);
                assert_eq!(p.contains("action=\"/handin\""), !asked && handin);
            }
        }
    }
    assert_eq!(fresh_token(Some(vec![1, 0xab]), 7), "01ab");
    assert_eq!(fresh_token(None, 255), "ff");
}

#[test]
fn exactly_the_ticked_files_are_linked() {
    let item = |name: &str, is_file: bool| Item { name: name.to_string(), is_file, size: 3 };
    let items = vec![item("a b.pdf", true), item(".x", true), item("c.txt", true), item("handed-in", false), item("d.zip", true)];
    let ticked = Ticked { list: Some(vec!["a b.pdf".to_string(), ".x".to_string(), "d.zip".to_string(), "handed-in".to_string()]) };
    let rows: Vec<FileRow> = visible_files(&ticked, &items)
        .into_iter()
        .map(|(name, size)| FileRow { name, size: format!("{size} B") })
        .collect();
    let frame = files_frame(true, &rows);
    let links: Vec<&str> = frame
        .split("<a class=btn href=\"/")
        .skip(1)
        .map(|s| s.split('"').next().unwrap())
        .collect();
    assert_eq!(links, vec!["a%20b.pdf?dl=1", "d.zip?dl=1"]);
}

#[test]
fn lines_show_the_list() {
    let cells: Vec<String> = (0..23).map(|i| format!("file-{i}-with-a-rather-long-name.txt")).collect();
    for sel in [0usize, 7, 22] {
        let g = Grid::lay(23, 34, 80, 5, sel, 0);
        let out = g.lines(&cells, Some(sel));
        assert_eq!(out.len(), g.per_col.min(g.n - g.first_col * g.per_col));
        assert_eq!(out.iter().map(|l| l.matches("\x1b[7m").count()).sum::<usize>(), 1);
        for l in &out {
            let seen = l.replace("\x1b[7m", "").replace("\x1b[0m", "");
            assert!(width(&seen) <= 2 + g.cols * g.colw + (g.cols - 1) * 3);
        }
        assert!(!g.lines(&cells, None).iter().any(|l| l.contains('\x1b')));
    }
}

#[test]
fn a_page_beyond_counting_still_ends_at_the_ends() {
    let far = usize::MAX / 2 + 2;
    let g = Grid { n: 10, cols: far, colw: 8, per_col: 4, first_col: 0 };
    assert_eq!(g.step(Key::PageDown, 3), Some(9));
    assert_eq!(g.step(Key::PageUp, 8), Some(0));
    let cells: Vec<String> = (0..10).map(|i| format!("f{i}")).collect();
    let lines = Grid { n: 10, cols: 3, colw: 4, per_col: 4, first_col: far }.lines(&cells, None);
    assert!(lines.is_empty());
    let whole = Grid { n: 10, cols: far - 2, colw: 4, per_col: 4, first_col: 0 }.lines(&cells, None);
    assert_eq!(whole[0], "  f0     f4     f8");
    assert_eq!(whole[3], "  f3     f7");
}

#[test]
fn a_name_that_three_claim_is_told_once() {
    let mut claims = Labels::new();
    for (key, name) in [("1", "Ada"), ("2", "Ben"), ("3", "Ada"), ("4", "Ada"), ("5", "Ben")] {
        claims.set(key, name);
    }
    assert_eq!(duplicate_claims(&claims), vec!["Ada", "Ben"]);
}

#[test]
fn damaged_pieces_are_fetched_again() {
    let done: BTreeSet<u64> = [0, 1, 3].into_iter().collect();
    let kept = without_damaged(done, &vec![3, 0, 7, 0]);
    assert_eq!(kept, [1].into_iter().collect());
    assert_eq!(pieces_to_fetch(5, &kept), vec![0, 2, 3, 4]);
    assert_eq!(without_damaged(kept.clone(), &vec![]), kept);
}

#[test]
fn weighted_codewords_cancel() {
    let data = b"gorilla.local".to_vec();
    for n in [7usize, 10, 18] {
        let mut block = data.clone();
        block.extend(ec_codewords(&data, n));
        for i in 0..n {
            let mut root = 1u8;
            for _ in 0..i {
                root = gmul(root, 2);
            }
            let mut sum = 0u8;
            for (j, c) in block.iter().enumerate() {
                let mut weight = 1u8;
                for _ in 0..block.len() - 1 - j {
                    weight = gmul(weight, root);
                }
                sum ^= gmul(*c, weight);
            }
            assert_eq!(sum, 0, "{n} {i}");
        }
    }
}
