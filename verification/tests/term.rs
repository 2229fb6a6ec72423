use hub::term::{char_width, truncate, truncate_middle, width, Frame, Heard, Key, Keys};

fn typed(bytes: &[u8]) -> Vec<Key> {
    let mut keys = Keys::new();
    let mut out = Vec::new();
    for b in bytes {
        if let Some(k) = keys.next(Heard::Byte(*b)) {
            out.push(k);
        }
    }
    while keys.in_the_middle() {
        if let Some(k) = keys.next(Heard::Silence) {
            out.push(k);
        }
    }
    out
}

#[test]
fn the_arrows_are_read() {
    assert_eq!(typed(b"\x1b[A\x1b[B\x1b[C\x1b[D"), vec![Key::Up, Key::Down, Key::Right, Key::Left]);
    assert_eq!(typed(b"\x1bOA"), vec![Key::Up]);
}

#[test]
fn a_longer_sequence_is_swallowed_and_not_typed() {
    assert_eq!(typed(b"\x1b[15~a"), vec![Key::Nothing, Key::Char('a')]);
    assert_eq!(typed(b"\x1b[Ha"), vec![Key::Nothing, Key::Char('a')]);
}

#[test]
fn a_lone_escape_is_the_escape_key() {
    assert_eq!(typed(b"\x1b"), vec![Key::Esc]);
}

#[test]
fn a_typed_character_arrives() {
    assert_eq!(typed("aë😀".as_bytes()), vec![Key::Char('a'), Key::Char('ë'), Key::Char('😀')]);
    assert_eq!(typed(b"\r\t\x7f"), vec![Key::Enter, Key::Tab, Key::Backspace]);
}

#[test]
fn a_broken_character_is_no_key() {
    let k = typed(b"\xffa");
    assert!(!k.contains(&Key::Char('\u{ff}')));
    assert!(k.contains(&Key::Char('a')));
}

#[test]
fn an_input_that_is_gone_quits() {
    let mut keys = Keys::new();
    assert_eq!(keys.next(Heard::Gone), Some(Key::Quit));
}

#[test]
fn a_wide_character_takes_two_columns() {
    assert_eq!(char_width('a'), 1);
    assert_eq!(char_width('漢'), 2);
    assert_eq!(width("a漢"), 3);
    assert_eq!(truncate("a漢b", 4), "a漢b");
    assert!(width(&truncate("漢漢漢漢", 5)) <= 5);
    assert_eq!(truncate_middle("short", 28), "short");
}

#[test]
fn a_frame_is_as_high_as_the_screen() {
    let mut f = Frame::new(5, 20);
    f.push("one");
    f.blank();
    f.push_selected("two");
    f.push_dim("three");
    assert_eq!(f.used(), 4);
    f.fill_to(1);
    let s = f.draw();
    assert!(s.contains("one") && s.contains("two") && s.contains("three"));
    for line in 0..50 {
        f.push(&format!("line {line}"));
    }
    assert!(!f.draw().contains("line 40"), "what does not fit is not drawn");
}
