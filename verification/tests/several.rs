use hub::page::upload::{Phase, Upload};
use hub::page::{together, upload_outcome, End};

fn part(name: &str, content: &str) -> String {
    format!(
        "--b\r\nContent-Disposition: form-data; name=\"work\"; filename=\"{name}\"\r\n\
         Content-Type: text/plain\r\n\r\n{content}\r\n"
    )
}

/// Every file of a body that comes in pieces of a given length.
fn files(body: &str, piece: usize) -> Vec<(String, Vec<u8>)> {
    let mut u = Upload::new("b");
    let mut found = Vec::new();
    let mut content = Vec::new();
    for chunk in body.as_bytes().chunks(piece) {
        content.extend(u.feed(chunk));
        while u.phase() == Phase::Done {
            found.push((u.filename(), std::mem::take(&mut content)));
            let rest = u.another();
            content.extend(u.feed(&rest));
        }
    }
    found
}

#[test]
fn several_files_land_one_after_the_other() {
    let body = format!("{}{}{}--b--\r\n", part("one.txt", "first"), part("two.txt", "2\r\n--a"), part("3.txt", "x"));
    for piece in [1, 2, 7, 64, 4096] {
        let got = files(&body, piece);
        assert_eq!(
            got,
            vec![
                ("one.txt".to_string(), b"first".to_vec()),
                ("two.txt".to_string(), b"2\r\n--a".to_vec()),
                ("3.txt".to_string(), b"x".to_vec()),
            ],
            "in pieces of {piece}"
        );
    }
}

#[test]
fn one_file_is_followed_by_no_other() {
    let body = format!("{}--b--\r\n", part("one.txt", "only"));
    assert_eq!(files(&body, 5), vec![("one.txt".to_string(), b"only".to_vec())]);
    let mut u = Upload::new("b");
    assert!(u.another().is_empty());
    assert_eq!(u.phase(), Phase::First);
}

#[test]
fn a_file_that_is_cut_off_does_not_land() {
    let whole = format!("{}{}--b--\r\n", part("one.txt", "first"), part("two.txt", "second"));
    let cut = &whole[..whole.len() - 20];
    assert_eq!(files(cut, 9), vec![("one.txt".to_string(), b"first".to_vec())]);
}

#[test]
fn trouble_with_one_file_is_told() {
    let ends = [End::NothingSent, End::CannotSave, End::Landed { version: 2 }, End::NothingSent];
    let all = ends.iter().fold(End::NothingSent, |a, e| together(a, *e));
    assert_eq!(upload_outcome(all, "x").tag, "cantsave");
    assert_eq!(together(End::Landed { version: 1 }, End::NothingSent), End::Landed { version: 1 });
    assert_eq!(together(End::NothingSent, End::Already), End::Already);
    assert_eq!(together(End::Already, End::CannotSave), End::CannotSave);
    assert_eq!(upload_outcome(together(End::NothingSent, End::NothingSent), "").tag, "empty");
}
