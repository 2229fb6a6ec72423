use hub::number::{parse_decimal, parse_radix};
use hub::page::{header_value, raw_field};
use hub::serve::{drop_pending, note_pending, redirect_home, respond_fresh, respond_length};
use hub::text::{
    find_text, join, rsplit_once, space, split_char, split_lines, split_text, split_words, strip,
    to_lower, trim, trim_end, trim_start,
};

const SAMPLES: [&str; 14] = [
    "", " ", "a", "a b", "  a\tb \u{a0}", "\u{3000}x\u{2028}", "one\ntwo\r\n\nthree", "\n", "a\r", "\r\n\r\n",
    "x.y.z", ".", "a--b--", "--",
];

fn chars(s: &str) -> Vec<char> {
    s.chars().collect()
}

fn texts(v: Vec<&[char]>) -> Vec<String> {
    v.into_iter().map(|p| p.iter().collect()).collect()
}

fn owned(v: Vec<&str>) -> Vec<String> {
    v.into_iter().map(String::from).collect()
}

#[test]
fn texts_are_taken_apart_as_the_standard_library_does() {
    for s in SAMPLES {
        let c = chars(s);
        assert_eq!(texts(split_lines(&c)), owned(s.lines().collect()), "{s:?}");
        assert_eq!(texts(split_words(&c)), owned(s.split_whitespace().collect()), "{s:?}");
        assert_eq!(texts(split_char(&c, '.')), owned(s.split('.').collect()), "{s:?}");
        assert_eq!(texts(split_text(&c, "--")), owned(s.split("--").collect()), "{s:?}");
        assert_eq!(trim(&c).iter().collect::<String>(), s.trim(), "{s:?}");
        assert_eq!(trim_start(&c).iter().collect::<String>(), s.trim_start(), "{s:?}");
        assert_eq!(trim_end(&c).iter().collect::<String>(), s.trim_end(), "{s:?}");
        assert_eq!(strip(&c, &['-', 'a']).iter().collect::<String>(), s.trim_matches(['-', 'a']), "{s:?}");
        assert_eq!(
            rsplit_once(&c, '.').map(|(a, b)| (a.iter().collect::<String>(), b.iter().collect::<String>())),
            s.rsplit_once('.').map(|(a, b)| (a.to_string(), b.to_string())),
            "{s:?}"
        );
        assert_eq!(find_text(&c, "b").is_some(), s.contains("b"), "{s:?}");
    }
    for n in 0..0x3100u32 {
        let c = char::from_u32(n).unwrap();
        assert_eq!(space(c), c.is_whitespace(), "{n:x}");
        assert_eq!(to_lower(c), c.to_ascii_lowercase(), "{n:x}");
    }
    assert_eq!(join(&vec!["a".to_string(), "b".to_string()], ", "), "a, b");
}

#[test]
fn numbers_are_read_as_the_standard_library_does() {
    for s in ["", "0", "007", "+7", "-1", " 1", "255", "256", "18446744073709551615", "18446744073709551616", "+"] {
        let c = chars(s);
        assert_eq!(parse_decimal(&c, 255), s.parse::<u8>().ok().map(u64::from), "{s:?}");
        assert_eq!(parse_decimal(&c, u64::MAX), s.parse::<u64>().ok(), "{s:?}");
    }
    for s in ["ff", "FF", "0x1", "g", "+a"] {
        assert_eq!(parse_radix(&chars(s), 16, u64::MAX), u64::from_str_radix(s, 16).ok(), "{s:?}");
    }
}

#[test]
fn heads_and_fields_are_read() {
    let head = "POST / HTTP/1.1\r\nContent-Length:  12 \r\nHOST: hub\r\n\r\n";
    assert_eq!(header_value(head, "content-length").as_deref(), Some("12"));
    assert_eq!(header_value(head, "host").as_deref(), Some("hub"));
    assert_eq!(header_value(head, "range"), None);
    assert_eq!(raw_field("token=a1&text=b+c", "text").as_deref(), Some("b+c"));
    assert_eq!(raw_field("token=a1", "text"), None);
}

#[test]
fn heads_are_written() {
    assert_eq!(redirect_home(), "HTTP/1.1 303 See Other\r\nLocation: /\r\nContent-Length: 0\r\n\r\n");
    let fresh = respond_fresh("text/html", 5);
    assert!(fresh.contains("no-store") && fresh.ends_with("Content-Length: 5\r\n\r\n"));
    assert_eq!(respond_length(7), "HTTP/1.1 200 OK\r\nAccept-Ranges: bytes\r\nContent-Length: 7\r\n\r\n");
}

#[test]
fn dropped_work_no_longer_waits() {
    let mut p = Vec::new();
    note_pending(&mut p, "Ana", "a.txt", "x", 1, "10:00");
    note_pending(&mut p, "Ben", "b.txt", "y", 2, "10:01");
    drop_pending(&mut p, "x");
    assert_eq!(p.len(), 1);
    assert_eq!(p[0].on_disk, "y");
}
