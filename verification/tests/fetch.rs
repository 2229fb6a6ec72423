use hub::fetch::book::{
    arrived, begin, check_piece, could_not_connect, did_not_arrive, empty_book, log, outcome,
    take_piece, Check, Trouble, MESSAGES_KEPT,
};
use hub::fetch::command::{parse_command, Command};
use hub::fetch::plan::{
    chunk_count, claimed_pieces, kept_pieces, piece_len, piece_range, pieces_to_fetch, record_text,
    CHUNK,
};
use hub::fetch::prints::{is_damaged, offer_of, read_prints, Offer};
use hub::fetch::wire::{default_name, is_end_of_head, prints_url, read_head, request_text, Head};
use hub::fetch::{
    backoff, cancel, counts, describe, fetch_sums, messages, parse_url, plain_error, progress,
    same_shape, set_quiet,
};
use hub::serve::read_request;
use std::collections::BTreeSet;

#[test]
fn an_address_is_taken_apart() {
    let u = parse_url("http://10.42.0.1:8080/a%20b.txt").unwrap();
    assert_eq!((u.host.as_str(), u.port, u.path.as_str()), ("10.42.0.1", 8080, "/a%20b.txt"));
    let plain = parse_url("http://hub").unwrap();
    assert_eq!((plain.host.as_str(), plain.port, plain.path.as_str()), ("hub", 80, "/"));
    assert!(parse_url("https://hub/").is_none());
    assert!(parse_url("http://hub:99999/").is_none());
    assert_eq!(default_name(&u), "a%20b.txt");
    assert!(prints_url(&u).path.starts_with("/a%20b.txt"));
    assert_ne!(prints_url(&u).path, u.path);
}

#[test]
fn what_is_asked_for_is_understood() {
    let u = parse_url("http://10.42.0.1:8080/film.mp4").unwrap();
    let text = request_text(&u, Some((0, 9)));
    let r = read_request(text.as_bytes());
    assert_eq!(r.method, "GET");
    assert_eq!(r.path, "/film.mp4");
    assert_eq!(r.range.as_deref(), Some("bytes=0-9"));
    assert!(r.keep);
    assert_eq!(read_request(request_text(&u, None).as_bytes()).range, None);
}

#[test]
fn the_head_of_an_answer_is_read() {
    let lines: Vec<String> = ["HTTP/1.1 206 Partial Content\r\n", "Content-Length: 10\r\n", "Content-Range: bytes 0-9/4000\r\n", "\r\n"]
        .iter()
        .map(|s| s.to_string())
        .collect();
    assert_eq!(read_head(&lines, true), Head { status: 206, len: 10, total: Some(4000) });
    assert_eq!(read_head(&lines, false), Head { status: 206, len: 4000, total: Some(4000) });
    assert!(is_end_of_head("\r\n") && is_end_of_head("") && !is_end_of_head("A: b\r\n"));
}

#[test]
fn the_pieces_cover_the_file() {
    assert_eq!(chunk_count(0), 0);
    assert_eq!(chunk_count(1), 1);
    assert_eq!(chunk_count(CHUNK), 1);
    assert_eq!(chunk_count(CHUNK + 1), 2);
    let total = 2 * CHUNK + 7;
    assert_eq!(piece_range(0, total), (0, CHUNK - 1));
    assert_eq!(piece_range(2, total), (2 * CHUNK, total - 1));
    assert_eq!(piece_len(2, total), 7);
    let sum: u64 = (0..chunk_count(total)).map(|c| piece_len(c, total)).sum();
    assert_eq!(sum, total);
}

#[test]
fn a_record_is_only_a_claim() {
    let done: BTreeSet<u64> = [0, 2, 5].into_iter().collect();
    let text = record_text(&done);
    assert_eq!(text, "0\n2\n5\n");
    assert_eq!(claimed_pieces(&text), done);
    let kept = kept_pieces(&done, 2 * CHUNK, 10 * CHUNK);
    assert_eq!(kept.into_iter().collect::<Vec<u64>>(), vec![0], "a short file cannot hold the rest");
    assert_eq!(pieces_to_fetch(4, &done), vec![1, 3]);
}

#[test]
fn fingerprints_are_read_and_compared() {
    let m = read_prints("# chunk-size 2097152\n0 aa\n1 bb\nrubbish\n");
    assert_eq!(m.len(), 2);
    assert_eq!(m.get(&1).map(|s| s.as_str()), Some("bb"));
    assert_eq!(fetch_sums(b"0 a\xff\n").get(&0).map(|s| s.as_str()), Some("a\u{fffd}"));
    assert!(is_damaged(&m, 0, Some(&"cc".to_string())));
    assert!(!is_damaged(&m, 0, Some(&"aa".to_string())));
    assert_eq!(offer_of(404, 10), Offer::Absent);
    assert_eq!(offer_of(200, 10), Offer::List);
    assert_eq!(offer_of(200, u64::MAX), Offer::TooLong);
}

#[test]
fn a_wait_grows_up_to_a_limit() {
    assert_eq!(backoff(0), 0);
    assert_eq!(backoff(1), 500);
    assert_eq!(backoff(4), 2000);
    assert_eq!(backoff(1000), 15_000);
    assert_eq!(backoff(u32::MAX), 15_000);
}

#[test]
fn messages_that_differ_in_numbers_are_one() {
    assert!(same_shape("piece 12 did not arrive", "piece 345 did not arrive"));
    assert!(!same_shape("piece 12 did not arrive", "piece 12 arrived"));
    let mut b = empty_book();
    assert!(log(&mut b, "loud"), "a book that is not quiet has its messages printed");
    assert!(messages(&b).is_empty());
    set_quiet(&mut b, true);
    for i in 0..5 {
        assert!(!log(&mut b, &format!("piece {i} did not arrive")));
    }
    let m = messages(&b);
    assert_eq!(m.len(), 1);
    assert_eq!((m[0].text.as_str(), m[0].times), ("piece 4 did not arrive", 5));
    for i in 0..100 {
        log(&mut b, &"x".repeat(i + 1));
    }
    assert_eq!(messages(&b).len(), MESSAGES_KEPT);
}

#[test]
fn no_piece_is_lost_and_no_damage_is_kept() {
    let mut b = empty_book();
    set_quiet(&mut b, true);
    let none: BTreeSet<u64> = BTreeSet::new();
    begin(&mut b, 20, none, vec![0, 1]);
    let mut fails: u32 = 0;
    let c = take_piece(&mut b).unwrap();
    let (wait, say) = could_not_connect(&mut b, c, "no route", &mut fails);
    assert_eq!((wait, say, fails), (500, None, 1));
    let c = take_piece(&mut b).unwrap();
    let (wait, _) = did_not_arrive(&mut b, c, "cut off", &mut fails);
    assert_eq!((wait, fails), (1000, 2));
    let c = take_piece(&mut b).unwrap();
    let wrong = check_piece(Some(&"aaaaaaaabb".to_string()), Ok("ccccccccdd".to_string()));
    let a = arrived(&mut b, c, 10, &wrong, &mut fails);
    assert!(!a.recorded, "damage is not recorded");
    assert!(messages(&b).iter().any(|m| m.text.contains("fingerprint cccccccc not aaaaaaaa")));
    let mut left = 0;
    while let Some(c) = take_piece(&mut b) {
        let fine = check_piece(None, Ok("whatever".to_string()));
        assert!(matches!(fine, Check::Fine));
        assert!(arrived(&mut b, c, 10, &fine, &mut fails).recorded);
        left += 1;
    }
    assert_eq!(left, 2);
    assert_eq!(progress(&b), (20, 20));
    assert_eq!(counts(&b), (2, 1));
    assert!(outcome(&b).is_ok());
}

#[test]
fn an_end_says_what_to_do_next() {
    let mut b = empty_book();
    begin(&mut b, 20, BTreeSet::new(), vec![0, 1]);
    assert!(outcome(&b).unwrap_err().starts_with("Only 0 of 20 bytes arrived."));
    cancel(&mut b);
    assert_eq!(outcome(&b).unwrap_err(), "Stopped. Run the same thing again to carry on from here.");
    assert_eq!(plain_error("Connection refused (os error 111)"), "Connection refused");
    assert!(describe(Trouble::Refused, "x").starts_with("Nothing is handing out files"));
    assert!(describe(Trouble::TimedOut, "x").starts_with("No answer."));
    assert!(describe(Trouble::NotFound, "x").contains("but not that one"));
    assert_eq!(describe(Trouble::Other, "no route"), "Could not reach it: no route");
}

#[test]
fn a_piece_that_cannot_be_checked_is_said_so() {
    let k = check_piece(Some(&"aa".to_string()), Err("gone".to_string()));
    assert!(matches!(k, Check::Unreadable { .. }));
}

#[test]
fn the_words_of_the_fetching_command_are_read() {
    let words = |v: &[&str]| v.iter().map(|s| s.to_string()).collect::<Vec<String>>();
    assert!(matches!(parse_command(&words(&["hub"])), Command::Usage));
    assert!(matches!(parse_command(&words(&["hub", "--help"])), Command::Help));
    assert!(matches!(parse_command(&words(&["hub", "ftp://x"])), Command::BadAddress));
    match parse_command(&words(&["hub", "http://x/a.txt", "-n", "2", "-o", "b.txt", "--verify", "on"])) {
        Command::Fetch(c) => {
            assert_eq!((c.workers, c.out.as_str(), c.verify, c.bench), (2, "b.txt", true, false));
        }
        _ => panic!("a file is fetched"),
    }
}
