use hub::fetch::plan::CHUNK;
use hub::fetch::prints::read_prints;
use hub::sha256::{digest, hex, Sha256};
use hub::sums::{asked, span, sums_text, Asked};

#[test]
fn every_piece_has_one_worker() {
    let total = 10 * CHUNK + 1;
    let mut next = 0;
    for me in 0..4 {
        let (first, last) = span(me, 4, total);
        if first < last {
            assert_eq!(first, next);
            next = last;
        }
    }
    assert_eq!(next, 11);
}

#[test]
fn the_list_reads_back() {
    let text = sums_text(7, &vec![Some("aa".to_string()), None]);
    assert_eq!(text, "# chunk-size 2097152\n# total 7\n0 aa\n1 MISSING\n");
    let m = read_prints(&text);
    assert_eq!(m.get(&0).map(|s| s.as_str()), Some("aa"));
    assert_eq!(m.get(&1).map(|s| s.as_str()), Some("MISSING"));
}

#[test]
fn what_is_asked_for_is_plain() {
    let words = |v: &[&str]| v.iter().map(|s| s.to_string()).collect::<Vec<String>>();
    assert_eq!(asked(&words(&["hub"])), Asked::Usage);
    assert_eq!(asked(&words(&["hub", "-h"])), Asked::Help);
    assert_eq!(asked(&words(&["hub", "a.txt"])), Asked::Files);
}

#[test]
fn the_digests_are_the_published_ones() {
    assert_eq!(hex(&digest(b"")), "e3b0c44298fc1c149afbf4c8996fb92427ae41e4649b934ca495991b7852b855");
    assert_eq!(hex(&digest(b"abc")), "ba7816bf8f01cfea414140de5dae2223b00361a396177a9cb410ff61f20015ad");
    assert_eq!(
        hex(&digest(b"abcdbcdecdefdefgefghfghighijhijkijkljklmklmnlmnomnopnopq")),
        "248d6a61d20638b8e5c026930c3e6039a33ce45964ff2167f6ecedd419db06c1"
    );
}

#[test]
fn the_pieces_of_an_input_do_not_matter() {
    let data: Vec<u8> = (0..1000u32).map(|i| (i * 7) as u8).collect();
    let mut h = Sha256::new();
    for piece in data.chunks(7) {
        h.update(piece);
    }
    assert_eq!(h.finish(), digest(&data));
}
