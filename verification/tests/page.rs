use hub::page::landing::{candidate_name, landing_step, upload_outcome, End, Landing, UploadOutcome};
use hub::page::names::sanitize_display_name;
use hub::page::notes::{form_decode, note_tag, record_line, NoteBook, NOTES_PER_MINUTE};
use hub::page::upload::{plan_upload, Phase, Plan, Upload, UPLOAD_CAP};
use hub::page::{
    claim_name, class_page, content_type, ext, files_frame, fresh_token, handed_in_dir, hex,
    html_escape, is_foreign_host, is_media, landing_base, linkify, notes, notice, openable, ordinal,
    refused_dir, sanitize_filename, set_notice, take_note, token_already_used, truncate_chars,
    versioned, view_page, waiting_dir, FileRow, Notice, PageParts,
};
use hub::serve::{claimed_name, device_label, full_label, set_device_name, Device, Labels};

fn device(ip: &str) -> Device {
    Device { ip: ip.to_string(), tag: None }
}

fn browser_shaped_upload(filename: &str, content: &[u8]) -> (String, Vec<u8>) {
    let b = "----WebKitFormBoundaryHubTest123";
    let mut body = Vec::new();
    body.extend_from_slice(
        format!(
            "--{b}\r\nContent-Disposition: form-data; name=\"token\"\r\n\r\nabc123\r\n--{b}\r\nContent-Disposition: form-data; name=\"work\"; filename=\"{filename}\"\r\nContent-Type: application/octet-stream\r\n\r\n"
        )
        .as_bytes(),
    );
    body.extend_from_slice(content);
    body.extend_from_slice(format!("\r\n--{b}--\r\n").as_bytes());
    let headers = format!(
        "POST /handin HTTP/1.1\r\nHost: 10.42.0.1\r\nContent-Type: multipart/form-data; boundary={b}\r\nContent-Length: {}\r\n\r\n",
        body.len()
    );
    (headers, body)
}

/// What a folder of handed-in work holds: names and their bytes.
struct Folder {
    files: Vec<(String, Vec<u8>)>,
    claims: Labels,
    names: Labels,
}

impl Folder {
    fn new() -> Folder {
        Folder { files: Vec::new(), claims: Labels::new(), names: Labels::new() }
    }

    fn read(&self, name: &str) -> Option<&Vec<u8>> {
        self.files.iter().find(|(n, _)| n == name).map(|(_, b)| b)
    }

    /// Takes an upload three bytes at a time, so that a boundary that straddles two
    /// pieces is the normal case.
    fn upload(&mut self, peer: &str, filename: &str, content: &[u8]) -> UploadOutcome {
        let (headers, body) = browser_shaped_upload(filename, content);
        let boundary = match plan_upload(&headers) {
            Plan::Take { boundary, length } => {
                assert_eq!(length, body.len() as u64);
                boundary
            }
            _ => panic!("a browser's upload must be taken"),
        };
        let mut u = Upload::new(&boundary);
        let mut bytes = Vec::new();
        for piece in body.chunks(3) {
            bytes.extend(u.feed(piece));
        }
        if u.phase() != Phase::Done {
            return upload_outcome(End::NothingSent, "");
        }
        let label = device_label(&self.claims, &self.names, &device(peer));
        let clean = sanitize_filename(&u.filename());
        let base = landing_base(&label, &u.filename());
        for version in 1..100u32 {
            let name = candidate_name(&base, version);
            let there = self.read(&name).cloned();
            let same = there.as_ref() == Some(&bytes);
            match landing_step(there.is_some(), same) {
                Landing::Here => {
                    self.files.push((name, bytes));
                    return upload_outcome(End::Landed { version }, &clean);
                }
                Landing::Already => return upload_outcome(End::Already, &clean),
                Landing::Next => {}
            }
        }
        upload_outcome(End::CannotSave, &clean)
    }
}

#[test]
fn a_browser_upload_lands_byte_for_byte() {
    let mut dir = Folder::new();
    let content = b"line one\r\n--not the boundary--\r\nline two".to_vec();
    let out = dir.upload("10.42.0.90", "homework.txt", &content);
    assert_eq!(out.tag, "handin");
    assert_eq!(
        dir.read("10.42.0.90--homework.txt"),
        Some(&content),
        "bytes must survive the trickle"
    );
}

#[test]
fn the_same_upload_twice_lands_once() {
    let mut dir = Folder::new();
    let content = b"same bytes".to_vec();
    assert_eq!(dir.upload("10.42.0.91", "hw.txt", &content).tag, "handin");
    assert_eq!(dir.upload("10.42.0.91", "hw.txt", &content).tag, "handin");
    assert_eq!(dir.files.len(), 1, "a retry must not multiply the file");
}

#[test]
fn a_changed_resubmission_becomes_a_second_version() {
    let mut dir = Folder::new();
    dir.upload("10.42.0.92", "essay.txt", b"first go");
    let out = dir.upload("10.42.0.92", "essay.txt", b"fixed it");
    assert_eq!(out.tag, "handin");
    assert!(out.shown.unwrap().contains("2nd version"));
    assert!(dir.read("10.42.0.92--essay.txt").is_some());
    assert!(dir.read("10.42.0.92--essay--v2.txt").is_some());
}

#[test]
fn a_hostile_filename_cannot_leave_the_folder() {
    let mut dir = Folder::new();
    let out = dir.upload("10.42.0.93", "../../../../etc/passwd", b"nope");
    assert_eq!(out.tag, "handin");
    assert_eq!(dir.files.len(), 1);
    let name = &dir.files[0].0;
    assert!(name.ends_with("passwd"), "{name}");
    assert!(!name.contains(".."), "{name}");
    assert!(!name.contains('/'), "{name}");
}

#[test]
fn sanitize_strips_paths_and_keeps_the_name() {
    assert_eq!(sanitize_filename("C:\\Users\\kid\\Desktop\\hw.docx"), "hw.docx");
    assert_eq!(sanitize_filename("../..//x.pdf"), "x.pdf");
    assert_eq!(sanitize_filename(".hidden"), "hidden");
    assert_eq!(sanitize_filename(""), "unnamed");
    assert_eq!(sanitize_filename("photo (1).jpg"), "photo _1_.jpg");
}

#[test]
fn foreign_hosts_are_probes_and_ours_are_not() {
    let ours = vec!["10.42.0.1".to_string(), "localhost".to_string()];
    assert!(is_foreign_host(Some("connectivitycheck.gstatic.com"), &ours));
    assert!(is_foreign_host(Some("www.msftconnecttest.com"), &ours));
    assert!(!is_foreign_host(Some("10.42.0.1"), &ours));
    assert!(!is_foreign_host(Some("10.42.0.1:8080"), &ours), "a port must not make us foreign");
    assert!(!is_foreign_host(Some("LOCALHOST"), &ours));
    assert!(!is_foreign_host(None, &ours), "HTTP/1.0 with no Host is served, not bounced");
}

#[test]
fn a_note_is_idempotent_and_budgeted() {
    let mut book = NoteBook::new();
    let ip = "10.42.0.94";
    let first = take_note(&mut book, ip, ip, "token=tok1&text=hello", 0);
    assert_eq!(note_tag(&first), "note");
    let again = take_note(&mut book, ip, ip, "token=tok1&text=hello", 0);
    assert_eq!(note_tag(&again), "note");
    let mine = |all: &Vec<(String, String)>| all.iter().filter(|(w, _)| w == ip).count();
    assert_eq!(mine(&notes(&book, 200)), 1, "a retried token must not land twice");
    for i in 2..=10 {
        let _ = take_note(&mut book, ip, ip, &format!("token=tok{i}&text=note number {i}"), 0);
    }
    let n = mine(&notes(&book, 200));
    assert!(n <= NOTES_PER_MINUTE as usize, "budget leaked: {n} notes");
    assert!(record_line(ip, "hello").contains("hello"));
}

#[test]
fn a_read_only_folder_answers_cantsave_instead_of_dropping() {
    let out = upload_outcome(End::CannotSave, "hw.txt");
    assert_eq!(out.tag, "cantsave", "a read-only drive must be an answer, not an error");
}

fn page<'a>(claimed: Option<&'a str>, handin: bool, here: &'a str) -> PageParts<'a> {
    PageParts {
        notice: "",
        done: None,
        claimed,
        rename: false,
        here,
        handin,
        handin_token: "t1",
        note_token: "t2",
    }
}

#[test]
fn the_page_asks_for_a_name_first_and_then_shows_files() {
    let d = device("10.42.0.201");
    let mut claims = Labels::new();
    let before = class_page(&page(claimed_name(&claims, &d).as_deref(), false, "10.42.0.1"));
    assert!(before.contains("type your name"), "an unnamed device must be asked first");
    assert!(!before.contains("Hand in your work"), "no forms before a name");
    claim_name(&mut claims, &d, "who=Amina+N.");
    let after = class_page(&page(claimed_name(&claims, &d).as_deref(), false, "10.42.0.1"));
    assert!(after.contains("You are <b>Amina N.</b>"), "{after}");
    assert!(
        after.contains("Send a note") || after.contains("Hand in"),
        "the page must open up after the name"
    );
}

#[test]
fn a_name_typed_as_markup_becomes_text_not_an_element() {
    let d = device("10.42.0.202");
    let mut claims = Labels::new();
    claim_name(&mut claims, &d, "who=%3Cscript%3Ezap%3C%2Fscript%3E");
    let got = claimed_name(&claims, &d).unwrap();
    assert!(!got.contains('<') && !got.contains('>'), "{got}");
    assert!(got.contains("script"), "letters survive, markup does not: {got}");
}

#[test]
fn a_note_from_a_named_device_is_attributable_in_the_permanent_record() {
    let d = device("10.42.0.203");
    let mut claims = Labels::new();
    let mut names = Labels::new();
    claim_name(&mut claims, &d, "who=Johnny");
    set_device_name(&mut names, "10.42.0.203", "Xiaomi-11-Lite-5G-NE");
    let sender = full_label(&claims, &names, &d);
    let txt = record_line(&sender, "the same message for kicks");
    assert!(
        txt.contains("Johnny [Xiaomi-11-Lite-5G-NE, 10.42.0.203]:"),
        "the reckoning line needs name, device AND address: {txt}"
    );
}

#[test]
fn a_named_device_hands_in_under_its_name() {
    let mut dir = Folder::new();
    claim_name(&mut dir.claims, &device("10.42.0.204"), "who=Amina");
    let out = dir.upload("10.42.0.204", "essay.docx", b"real work");
    assert_eq!(out.tag, "handin");
    assert!(
        dir.read("Amina--essay.docx").is_some(),
        "the teacher marks names, not phone models"
    );
}

#[test]
fn the_page_tells_a_sign_in_window_where_to_go_instead() {
    let d = device("10.42.0.210");
    let mut claims = Labels::new();
    claim_name(&mut claims, &d, "who=Amina");
    let page = class_page(&page(claimed_name(&claims, &d).as_deref(), true, "10.42.0.1"));
    assert!(page.contains("cannot send files"), "the escape hatch must be on the page");
    assert!(page.contains("10.42.0.1"), "and it must print the real address");
}

#[test]
fn an_empty_note_is_refused() {
    let mut book = NoteBook::new();
    let r = take_note(&mut book, "10.42.0.95", "10.42.0.95", "token=t&text=++", 0);
    assert_eq!(note_tag(&r), "empty");
    assert!(notes(&book, 10).is_empty());
}

#[test]
fn a_token_that_was_used_is_known_again() {
    let mut t: Vec<(String, Vec<String>)> = Vec::new();
    assert!(!token_already_used(&mut t, "10.0.0.1", "a"));
    assert!(token_already_used(&mut t, "10.0.0.1", "a"));
    assert!(!token_already_used(&mut t, "10.0.0.2", "a"), "another device has its own tokens");
}

#[test]
fn an_upload_that_cannot_be_taken_is_answered() {
    assert!(matches!(plan_upload("POST /handin HTTP/1.1\r\n\r\n"), Plan::Empty));
    let big = format!(
        "POST /handin HTTP/1.1\r\nContent-Type: multipart/form-data; boundary=b\r\nContent-Length: {}\r\n\r\n",
        UPLOAD_CAP + 1
    );
    assert!(matches!(plan_upload(&big), Plan::TooBig));
    assert_eq!(upload_outcome(End::NothingSent, "").tag, "empty");
    assert_eq!(upload_outcome(End::TooBig, "").tag, "toobig");
}

#[test]
fn a_form_without_a_file_ends_with_nothing() {
    let mut u = Upload::new("b");
    let out = u.feed(
        b"--b\r\nContent-Disposition: form-data; name=\"token\"\r\n\r\nabc\r\n--b--\r\n",
    );
    assert!(out.is_empty());
    assert_eq!(u.phase(), Phase::Nothing);
}

#[test]
fn markup_becomes_text() {
    assert_eq!(html_escape("<a href=\"x\">'&'</a>"), "&lt;a href=&quot;x&quot;&gt;'&amp;'&lt;/a&gt;");
    assert!(linkify("see http://example.org/x now").contains("<a href=\"http://example.org/x\""));
    assert_eq!(linkify("nothing here"), "nothing here");
}

#[test]
fn a_file_is_known_by_its_ending() {
    assert_eq!(ext("Photo.JPG"), "jpg");
    assert_eq!(ext("README"), "readme");
    assert!(openable("film.mp4") && is_media("film.mp4"));
    assert!(!openable("setup.exe"));
    assert_eq!(content_type("a.pdf"), "application/pdf");
    assert_eq!(content_type("a.unknown"), "application/octet-stream");
}

#[test]
fn a_token_is_fresh_where_there_is_chance() {
    assert_eq!(fresh_token(Some(vec![0x0a, 0xff, 0x10]), 7), hex(&[0x0a, 0xff, 0x10]));
    assert_eq!(hex(&[0x0a, 0xff, 0x10]), "0aff10");
    assert_eq!(fresh_token(None, 255), "ff");
}

#[test]
fn the_folders_lie_inside_one_another() {
    assert_eq!(handed_in_dir(), vec!["handed-in"]);
    assert_eq!(waiting_dir()[0], "handed-in");
    assert_eq!(refused_dir()[0], "handed-in");
}

#[test]
fn versions_are_named_and_counted() {
    assert_eq!(versioned("a--b.txt", 3), "a--b--v3.txt");
    assert_eq!(versioned("plain", 2), "plain--v2");
    assert_eq!(ordinal(2), "nd");
    assert_eq!(ordinal(3), "rd");
    assert_eq!(ordinal(4), "th");
    assert_eq!(ordinal(12), "th");
    assert_eq!(ordinal(22), "nd");
}

#[test]
fn names_are_cleaned_and_cut() {
    assert_eq!(sanitize_display_name("  Amina N. ").as_deref(), Some("Amina N."));
    assert_eq!(sanitize_display_name("<>"), None);
    assert_eq!(sanitize_display_name("Zoë").as_deref(), Some("Zoë"));
    assert_eq!(truncate_chars("abcdef", 3), "abc");
    assert_eq!(truncate_chars("ab", 3), "ab");
}

#[test]
fn a_form_field_is_read_back() {
    assert_eq!(form_decode("a+b%21%C3%AB"), "a b!ë");
}

#[test]
fn the_notice_is_what_was_set() {
    let mut n = Notice { text: String::new() };
    set_notice(&mut n, "Page 12, please");
    assert_eq!(notice(&n), "Page 12, please");
}

#[test]
fn the_list_names_every_file() {
    let rows = vec![
        FileRow { name: "a&b.txt".to_string(), size: "1 KB".to_string() },
        FileRow { name: "film.mp4".to_string(), size: "2 MB".to_string() },
    ];
    let s = files_frame(true, &rows);
    assert!(s.contains("a&amp;b.txt") && s.contains("film.mp4") && s.contains("2 MB"), "{s}");
    assert!(files_frame(false, &rows).contains("The folder cannot be reached right now."));
    assert!(view_page("film.mp4").contains("film.mp4"));
}
