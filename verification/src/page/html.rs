//! The pages a browser is shown.

use crate::number::{hex_byte, hex_char, hex_digit, push_hex_byte};
use crate::serve::paths::{escaped_bytes, urlencode};
use crate::text::{
    begins_with, chars_of, cut_last, holds, lemma_holds_middle, lower_all, lowered, pieces,
    push_chars, rsplit_once, same_text, split_char, starts_with_text, str_view, string_of, trim_end,
    trimmed_end, views,
};
use vstd::prelude::*;
use vstd::utf8::encode_utf8;

verus! {

// ------------------------------------------------------------- escaping

/// One character as it is written in HTML.
pub open spec fn html_char(c: char) -> Seq<char> {
    if c == '&' {
        "&amp;"@
    } else if c == '<' {
        "&lt;"@
    } else if c == '>' {
        "&gt;"@
    } else if c == '"' {
        "&quot;"@
    } else {
        seq![c]
    }
}

/// A text as it is written in HTML.
pub open spec fn html(s: Seq<char>) -> Seq<char>
    decreases s.len(),
{
    if s.len() == 0 {
        s
    } else {
        html(s.drop_last()) + html_char(s.last())
    }
}

/// A text as it is written in HTML.
pub fn html_escape(s: &str) -> (out: String)
    ensures
        out@ == html(s@),
{
    let chars: Vec<char> = chars_of(s);
    let mut out = String::new();
    let mut i: usize = 0;
    assert(s@.take(0) =~= Seq::<char>::empty());
    while i < chars.len()
        invariant
            chars@ == s@,
            i <= chars.len(),
            out@ == html(s@.take(i as int)),
        decreases chars.len() - i,
    {
        let c: char = chars[i];
        let ghost before = out@;
        assert(s@.take(i + 1).drop_last() =~= s@.take(i as int));
        if c == '&' {
            out.append("&amp;");
        } else if c == '<' {
            out.append("&lt;");
        } else if c == '>' {
            out.append("&gt;");
        } else if c == '"' {
            out.append("&quot;");
        } else {
            out.push(c);
        }
        assert(out@ =~= before + html_char(c));
        i = i + 1;
    }
    assert(s@.take(s@.len() as int) =~= s@);
    out
}

/// What somebody typed cannot become an element or leave an attribute: no angle
/// bracket and no double quote is left in it.
pub proof fn law_escaped_text_is_only_text(s: Seq<char>, i: int)
    requires
        0 <= i < html(s).len(),
    ensures
        html(s)[i] != '<' && html(s)[i] != '>' && html(s)[i] != '"',
    decreases s.len(),
{
    reveal_strlit("&amp;");
    reveal_strlit("&lt;");
    reveal_strlit("&gt;");
    reveal_strlit("&quot;");
    if s.len() > 0 {
        let head = html(s.drop_last());
        if i < head.len() {
            law_escaped_text_is_only_text(s.drop_last(), i);
        } else {
            assert(html(s)[i] == html_char(s.last())[i - head.len()]);
        }
    }
}

/// Some words, each followed by a space, with links made of those that are
/// addresses.
pub open spec fn linked(ws: Seq<Seq<char>>) -> Seq<char>
    decreases ws.len(),
{
    if ws.len() == 0 {
        Seq::empty()
    } else {
        let w = ws.last();
        let shown = if begins_with(w, "http://"@) || begins_with(w, "https://"@) {
            "<a href=\""@ + w + "\">"@ + w + "</a>"@
        } else {
            w
        };
        (linked(ws.drop_last()) + shown).push(' ')
    }
}

/// Make the addresses in a text, already written in HTML, tappable.
pub fn linkify(escaped: &str) -> (out: String)
    ensures
        out@ == trimmed_end(linked(pieces(escaped@, ' '))),
{
    let chars: Vec<char> = chars_of(escaped);
    let ws: Vec<&[char]> = split_char(chars.as_slice(), ' ');
    let ghost all = pieces(escaped@, ' ');
    let mut out = String::new();
    let mut i: usize = 0;
    assert(all.take(0) =~= Seq::empty());
    while i < ws.len()
        invariant
            views(ws@) == all,
            i <= ws.len(),
            out@ == linked(all.take(i as int)),
        decreases ws.len() - i,
    {
        let ghost before = out@;
        let w: &[char] = ws[i];
        assert(all[i as int] == w@);
        assert(all.take(i + 1).drop_last() =~= all.take(i as int));
        if starts_with_text(w, "http://") || starts_with_text(w, "https://") {
            out.append("<a href=\"");
            push_chars(&mut out, w);
            out.append("\">");
            push_chars(&mut out, w);
            out.append("</a>");
            assert(out@ =~= before + ("<a href=\""@ + w@ + "\">"@ + w@ + "</a>"@));
        } else {
            push_chars(&mut out, w);
        }
        out.push(' ');
        i = i + 1;
    }
    assert(all.take(all.len() as int) =~= all);
    let oc: Vec<char> = chars_of(out.as_str());
    string_of(trim_end(oc.as_slice()))
}

// ------------------------------------------------------------- kinds of files

/// The extension of a file name, in lower case; a name without one is its own.
pub open spec fn extension(name: Seq<char>) -> Seq<char> {
    match cut_last(name, '.') {
        Some((_, e)) => lower_all(e),
        None => lower_all(name),
    }
}

/// The extension of a file name, in lower case.
pub fn ext(name: &str) -> (e: String)
    ensures
        e@ == extension(name@),
{
    let chars: Vec<char> = chars_of(name);
    let low: Vec<char> = match rsplit_once(chars.as_slice(), '.') {
        Some((_, e)) => lowered(e),
        None => lowered(chars.as_slice()),
    };
    string_of(low.as_slice())
}

/// Pictures.
pub open spec fn is_picture(e: Seq<char>) -> bool {
    e == "jpg"@ || e == "jpeg"@ || e == "png"@ || e == "gif"@ || e == "webp"@
}

/// Films.
pub open spec fn is_film(e: Seq<char>) -> bool {
    e == "mp4"@ || e == "webm"@
}

/// Sound.
pub open spec fn is_sound(e: Seq<char>) -> bool {
    e == "mp3"@ || e == "ogg"@ || e == "m4a"@ || e == "wav"@
}

fn picture(e: &str) -> (b: bool)
    ensures
        b == is_picture(e@),
{
    same_text(e, "jpg") || same_text(e, "jpeg") || same_text(e, "png") || same_text(e, "gif")
        || same_text(e, "webp")
}

fn film(e: &str) -> (b: bool)
    ensures
        b == is_film(e@),
{
    same_text(e, "mp4") || same_text(e, "webm")
}

fn sound(e: &str) -> (b: bool)
    ensures
        b == is_sound(e@),
{
    same_text(e, "mp3") || same_text(e, "ogg") || same_text(e, "m4a") || same_text(e, "wav")
}

/// Whether a browser can show or play a file by itself.
pub open spec fn opens(name: Seq<char>) -> bool {
    let e = extension(name);
    e == "pdf"@ || e == "txt"@ || e == "html"@ || e == "htm"@ || is_picture(e) || is_film(e)
        || is_sound(e)
}

/// File types a browser can show or play by itself.
pub fn openable(name: &str) -> (b: bool)
    ensures
        b == opens(name@),
{
    let e: String = ext(name);
    same_text(e.as_str(), "pdf") || same_text(e.as_str(), "txt") || same_text(e.as_str(), "html")
        || same_text(e.as_str(), "htm") || picture(e.as_str()) || film(e.as_str()) || sound(
        e.as_str(),
    )
}

/// File types that play.
pub fn is_media(name: &str) -> (b: bool)
    ensures
        b == (is_film(extension(name@)) || is_sound(extension(name@))),
{
    let e: String = ext(name);
    film(e.as_str()) || sound(e.as_str())
}

/// The type that goes with an extension.
pub open spec fn type_of(e: Seq<char>) -> Seq<char> {
    if e == "pdf"@ {
        "application/pdf"@
    } else if e == "txt"@ {
        "text/plain; charset=utf-8"@
    } else if e == "html"@ || e == "htm"@ {
        "text/html; charset=utf-8"@
    } else if e == "jpg"@ || e == "jpeg"@ {
        "image/jpeg"@
    } else if e == "png"@ {
        "image/png"@
    } else if e == "gif"@ {
        "image/gif"@
    } else if e == "webp"@ {
        "image/webp"@
    } else if e == "mp4"@ {
        "video/mp4"@
    } else if e == "webm"@ {
        "video/webm"@
    } else if e == "mp3"@ {
        "audio/mpeg"@
    } else if e == "ogg"@ {
        "audio/ogg"@
    } else if e == "m4a"@ {
        "audio/mp4"@
    } else if e == "wav"@ {
        "audio/wav"@
    } else {
        "application/octet-stream"@
    }
}

/// The type the browser is told, which decides whether it opens a viewer.
pub fn content_type(name: &str) -> (t: &'static str)
    ensures
        t@ == type_of(extension(name@)),
{
    let s: String = ext(name);
    let e: &str = s.as_str();
    if same_text(e, "pdf") {
        "application/pdf"
    } else if same_text(e, "txt") {
        "text/plain; charset=utf-8"
    } else if same_text(e, "html") || same_text(e, "htm") {
        "text/html; charset=utf-8"
    } else if same_text(e, "jpg") || same_text(e, "jpeg") {
        "image/jpeg"
    } else if same_text(e, "png") {
        "image/png"
    } else if same_text(e, "gif") {
        "image/gif"
    } else if same_text(e, "webp") {
        "image/webp"
    } else if same_text(e, "mp4") {
        "video/mp4"
    } else if same_text(e, "webm") {
        "video/webm"
    } else if same_text(e, "mp3") {
        "audio/mpeg"
    } else if same_text(e, "ogg") {
        "audio/ogg"
    } else if same_text(e, "m4a") {
        "audio/mp4"
    } else if same_text(e, "wav") {
        "audio/wav"
    } else {
        "application/octet-stream"
    }
}

// ------------------------------------------------------------- tokens

/// Bytes as hexadecimal digits.
pub open spec fn hex_text(b: Seq<u8>) -> Seq<char>
    decreases b.len(),
{
    if b.len() == 0 {
        Seq::empty()
    } else {
        hex_text(b.drop_last()) + hex_byte(b.last(), false)
    }
}

/// Bytes as hexadecimal digits.
pub fn hex(b: &[u8]) -> (s: String)
    ensures
        s@ == hex_text(b@),
{
    let mut s = String::new();
    let mut i: usize = 0;
    assert(b@.take(0) =~= Seq::<u8>::empty());
    while i < b.len()
        invariant
            i <= b.len(),
            s@ == hex_text(b@.take(i as int)),
        decreases b.len() - i,
    {
        assert(b@.take(i + 1).drop_last() =~= b@.take(i as int));
        push_hex_byte(&mut s, b[i], false);
        i = i + 1;
    }
    assert(b@.take(b@.len() as int) =~= b@);
    s
}

/// A number in hexadecimal.
pub open spec fn hex_number(n: int) -> Seq<char>
    decreases n,
{
    if n < 16 {
        seq![hex_char(n, false)]
    } else {
        hex_number(n / 16).push(hex_char(n % 16, false))
    }
}

/// A number in hexadecimal.
pub fn hex_number_chars(n: u64) -> (v: Vec<char>)
    ensures
        v@ == hex_number(n as int),
    decreases n,
{
    let d: char = hex_digit((n % 16) as u8, false);
    if n < 16 {
        let mut v: Vec<char> = Vec::new();
        v.push(d);
        assert(v@ =~= seq![hex_char(n as int, false)]);
        v
    } else {
        let mut v: Vec<char> = hex_number_chars(n / 16);
        v.push(d);
        v
    }
}

/// Whether a character is a hexadecimal digit, its letter a small one.
pub open spec fn hex_small(c: char) -> bool {
    '0' <= c <= '9' || 'a' <= c <= 'f'
}

proof fn lemma_hex_text(b: Seq<u8>)
    ensures
        forall|i: int| 0 <= i < hex_text(b).len() ==> hex_small(#[trigger] hex_text(b)[i]),
    decreases b.len(),
{
    if b.len() > 0 {
        let head = hex_text(b.drop_last());
        let e = hex_byte(b.last(), false);
        lemma_hex_text(b.drop_last());
        assert forall|i: int| 0 <= i < hex_text(b).len() implies hex_small(
            #[trigger] hex_text(b)[i],
        ) by {
            if i < head.len() {
                assert(hex_text(b)[i] == head[i]);
            } else {
                assert(hex_text(b)[i] == e[i - head.len()]);
            }
        }
    }
}

proof fn lemma_hex_number(n: int)
    requires
        0 <= n,
    ensures
        forall|i: int| 0 <= i < hex_number(n).len() ==> hex_small(#[trigger] hex_number(n)[i]),
    decreases n,
{
    if n >= 16 {
        lemma_hex_number(n / 16);
        assert forall|i: int| 0 <= i < hex_number(n).len() implies hex_small(
            #[trigger] hex_number(n)[i],
        ) by {
            if i < hex_number(n / 16).len() {
                assert(hex_number(n)[i] == hex_number(n / 16)[i]);
            }
        }
    }
}

/// A token for a form: random bytes, or the number of the process where this
/// computer has none. It is of digits and letters, so that it fits into a form.
pub fn fresh_token(random: Option<Vec<u8>>, process: u32) -> (s: String)
    ensures
        s@ == (match random {
            Some(b) => hex_text(b@),
            None => hex_number(process as int),
        }),
        forall|i: int| 0 <= i < s@.len() ==> hex_small(#[trigger] s@[i]),
{
    match random {
        Some(b) => {
            proof {
                lemma_hex_text(b@);
            }
            hex(b.as_slice())
        },
        None => {
            proof {
                lemma_hex_number(process as int);
            }
            let v: Vec<char> = hex_number_chars(process as u64);
            string_of(v.as_slice())
        },
    }
}

// ------------------------------------------------------------- the class page

pub const PAGE_HEAD: &'static str = "<!doctype html><html><head><meta charset=\"utf-8\">\
    <meta name=\"viewport\" content=\"width=device-width, initial-scale=1\">\
    <title>Class files</title><style>\
    body{font-family:sans-serif;margin:0;padding:12px;background:#fff;color:#111;max-width:620px}\
    h1{font-size:1.3em}\
    .notice{background:#fff8d6;border:2px solid #d9c65a;padding:10px;font-size:1.15em;margin:10px 0;white-space:pre-wrap}\
    .done{background:#e2f7e2;border:2px solid #58a758;padding:10px;font-size:1.1em;margin:10px 0}\
    .file{margin:14px 0}\
    .name{font-size:1.1em;word-break:break-all}\
    .size{color:#666;font-size:.9em;margin-left:6px}\
    a.btn,button{display:inline-block;background:#1a6b1a;color:#fff;border:0;border-radius:6px;\
    padding:12px 20px;font-size:1.05em;text-decoration:none;margin:4px 8px 0 0}\
    a.read{background:#28527a}\
    textarea,input[type=file]{width:100%;font-size:1em;margin:6px 0}\
    textarea{height:4em}\
    form{margin:18px 0;border-top:1px solid #ddd;padding-top:12px}\
    .escape{background:#fff3cd;border:2px solid #d9a441;padding:10px;margin:8px 0}\
    .addr{font-size:1.6em;font-weight:bold;font-family:monospace;\
    text-align:center;padding:10px;margin:8px 0;background:#fff;border:2px dashed #666}\
    iframe{width:100%;border:0;min-height:340px}\
    </style></head><body>\n<h1>Class files</h1>\n";

pub const PAGE_END: &'static str = "</body></html>\n";

pub const NAME_FORM: &'static str = "<form method=\"post\" action=\"/name\">\
    <b>Before you start: type your name.</b><br>\
    Your teacher needs to know whose work is whose.<br>\
    <input type=\"text\" name=\"who\" value=\"";

pub const NAME_FORM_END: &'static str = "\" maxlength=\"24\" \
    style=\"width:100%;font-size:1.2em;margin:8px 0;padding:8px\"><br>\
    <button type=\"submit\">THAT'S ME</button></form>\n";

pub const FILE_IFRAME: &'static str = "<iframe src=\"/files\"></iframe>\n";

pub const HANDIN_FORM: &'static str = "<form method=\"post\" action=\"/handin\" enctype=\"multipart/form-data\">\
    <b>Hand in your work</b><br>\
    <input type=\"hidden\" name=\"token\" value=\"";

pub const HANDIN_FORM_END: &'static str = "\">\
    <input type=\"file\" name=\"work\" multiple><br>\
    <button type=\"submit\">SEND IT TO YOUR TEACHER</button></form>\n";

pub const ESCAPE_HATCH: &'static str = "<div class=escape><b>Tapping \"Choose file\" does nothing?</b><br>\
    You are in the wifi sign-in window, which cannot send files.<br>\
    Open your normal browser and go to:\
    <div class=addr>";

pub const ESCAPE_HATCH_END: &'static str = "</div>\
    Everything works there, and you stay on the class wifi.</div>\n";

pub const HANDIN_OFF: &'static str = "<form><b>Hand in your work</b><br>\
    Handing in is switched off: the teacher's folder cannot receive files right now.</form>\n";

pub const NOTE_FORM: &'static str = "<form method=\"post\" action=\"/note\">\
    <b>Send a note to your teacher</b><br>\
    <input type=\"hidden\" name=\"token\" value=\"";

pub const NOTE_FORM_END: &'static str = "\">\
    <textarea name=\"text\" placeholder=\"type here\"></textarea><br>\
    <button type=\"submit\">SEND THE NOTE</button></form>\n";

/// What the page says about what was just done.
pub open spec fn done_box(done: Option<Seq<char>>) -> Seq<char> {
    match done {
        Some(d) => if d == "handin"@ {
            "<div class=done>Handed in. Your teacher has it.</div>\n"@
        } else if d == "note"@ {
            "<div class=done>Sent. Your teacher can see it.</div>\n"@
        } else if d == "empty"@ {
            "<div class=done>Nothing was chosen, so nothing was sent.</div>\n"@
        } else if d == "toobig"@ {
            "<div class=done>That file is too big to hand in this way.</div>\n"@
        } else if d == "cantsave"@ {
            "<div class=done>It could not be saved on the teacher's computer. Tell your teacher.</div>\n"@
        } else {
            Seq::empty()
        },
        None => Seq::empty(),
    }
}

/// The notice, where there is one.
pub open spec fn notice_box(notice: Seq<char>) -> Seq<char> {
    if notice.len() == 0 {
        Seq::empty()
    } else {
        "<div class=notice><b>From your teacher</b><br>"@ + trimmed_end(
            linked(pieces(html(notice), ' ')),
        ) + "</div>\n"@
    }
}

/// The part of the page for handing in.
pub open spec fn handin_part(available: bool, token: Seq<char>, here: Seq<char>) -> Seq<char> {
    if available {
        HANDIN_FORM@ + token + HANDIN_FORM_END@ + ESCAPE_HATCH@ + html(here) + ESCAPE_HATCH_END@
    } else {
        HANDIN_OFF@
    }
}

/// Everything that goes into the class page.
pub struct PageParts<'a> {
    pub notice: &'a str,
    pub done: Option<&'a str>,
    /// The name the device has claimed.
    pub claimed: Option<&'a str>,
    /// Whether the device asked to give another name.
    pub rename: bool,
    /// The address the class was told to use.
    pub here: &'a str,
    pub handin: bool,
    pub handin_token: &'a str,
    pub note_token: &'a str,
}

/// The class page. A device without a name is asked for one first and shown
/// nothing else.
pub open spec fn class_page_text(p: &PageParts) -> Seq<char> {
    match str_view(p.claimed) {
        Some(me) => if p.rename {
            PAGE_HEAD@ + NAME_FORM@ + html(me) + NAME_FORM_END@ + PAGE_END@
        } else {
            PAGE_HEAD@ + "<p>You are <b>"@ + html(me)
                + "</b>. <a href=\"/?rename=1\">Not you?</a></p>\n"@ + done_box(str_view(p.done))
                + notice_box(p.notice@) + FILE_IFRAME@ + handin_part(
                p.handin,
                p.handin_token@,
                p.here@,
            ) + NOTE_FORM@ + p.note_token@ + NOTE_FORM_END@ + PAGE_END@
        },
        None => PAGE_HEAD@ + NAME_FORM@ + NAME_FORM_END@ + PAGE_END@,
    }
}

fn done_text(done: Option<&str>) -> (s: String)
    ensures
        s@ == done_box(str_view(done)),
{
    let mut s = String::new();
    if let Some(d) = done {
        if same_text(d, "handin") {
            s.append("<div class=done>Handed in. Your teacher has it.</div>\n");
        } else if same_text(d, "note") {
            s.append("<div class=done>Sent. Your teacher can see it.</div>\n");
        } else if same_text(d, "empty") {
            s.append("<div class=done>Nothing was chosen, so nothing was sent.</div>\n");
        } else if same_text(d, "toobig") {
            s.append("<div class=done>That file is too big to hand in this way.</div>\n");
        } else if same_text(d, "cantsave") {
            s.append(
                "<div class=done>It could not be saved on the teacher's computer. Tell your teacher.</div>\n",
            );
        }
    }
    assert(s@ =~= done_box(str_view(done)));
    s
}

/// The class page.
pub fn class_page(p: &PageParts) -> (s: String)
    ensures
        s@ == class_page_text(p),
{
    let mut s = String::new();
    s.append(PAGE_HEAD);
    if p.claimed.is_none() || p.rename {
        s.append(NAME_FORM);
        if let Some(me) = p.claimed {
            s.append(html_escape(me).as_str());
        }
        s.append(NAME_FORM_END);
        s.append(PAGE_END);
        assert(s@ =~= class_page_text(p));
        return s;
    }
    let me: &str = match p.claimed {
        Some(m) => m,
        None => "",
    };
    s.append("<p>You are <b>");
    s.append(html_escape(me).as_str());
    s.append("</b>. <a href=\"/?rename=1\">Not you?</a></p>\n");
    s.append(done_text(p.done).as_str());
    let nc: Vec<char> = chars_of(p.notice);
    if nc.len() > 0 {
        s.append("<div class=notice><b>From your teacher</b><br>");
        let escaped: String = html_escape(p.notice);
        s.append(linkify(escaped.as_str()).as_str());
        s.append("</div>\n");
    }
    s.append(FILE_IFRAME);
    if p.handin {
        s.append(HANDIN_FORM);
        s.append(p.handin_token);
        s.append(HANDIN_FORM_END);
        s.append(ESCAPE_HATCH);
        s.append(html_escape(p.here).as_str());
        s.append(ESCAPE_HATCH_END);
    } else {
        s.append(HANDIN_OFF);
    }
    s.append(NOTE_FORM);
    s.append(p.note_token);
    s.append(NOTE_FORM_END);
    s.append(PAGE_END);
    assert(s@ =~= class_page_text(p));
    s
}

// ------------------------------------------------------------- the file list

pub const FRAME_HEAD: &'static str = "<!doctype html><html><head><meta charset=\"utf-8\">\
    <meta name=\"viewport\" content=\"width=device-width, initial-scale=1\">\
    <meta http-equiv=\"refresh\" content=\"6\">\
    <style>body{font-family:sans-serif;margin:0;color:#111}\
    .file{margin:0 0 16px 0}.name{font-size:1.1em;word-break:break-all}\
    .size{color:#666;font-size:.9em;margin-left:6px}\
    a.btn{display:inline-block;background:#1a6b1a;color:#fff;border-radius:6px;\
    padding:12px 20px;font-size:1.05em;text-decoration:none;margin:4px 8px 0 0}\
    a.read{background:#28527a}</style></head><body>\n";

pub const NO_FOLDER: &'static str = "<p><b>The folder cannot be reached right now.</b> \
    If the files live on a USB drive, it may have been unplugged. Tell your teacher.</p>\n";

pub const NO_FILES: &'static str = "<p>Nothing is being handed out right now. This page checks by itself, just wait.</p>\n";

/// A file in the list: its name, and its size as it is shown.
pub struct FileRow {
    pub name: String,
    pub size: String,
}

/// The part of the list for one file: a button to open it where a browser can,
/// and one to keep it.
pub open spec fn file_part(name: Seq<char>, size: Seq<char>) -> Seq<char> {
    let url = escaped_bytes(encode_utf8(name));
    let verb = if is_film(extension(name)) || is_sound(extension(name)) {
        "PLAY"@
    } else {
        "READ"@
    };
    "<div class=file><span class=name>"@ + html(name) + "</span><span class=size>"@ + size
        + "</span><br>"@ + (if opens(name) {
        "<a class=\"btn read\" href=\"/view/"@ + url + "\">"@ + verb + "</a>"@
    } else {
        Seq::empty()
    }) + "<a class=btn href=\"/"@ + url + "?dl=1\">GET IT</a></div>\n"@
}

/// The parts of the list for the first `n` files.
pub open spec fn file_parts(rows: Seq<FileRow>, n: int) -> Seq<char>
    decreases n,
{
    if n <= 0 {
        Seq::empty()
    } else {
        file_parts(rows, n - 1) + file_part(rows[n - 1].name@, rows[n - 1].size@)
    }
}

/// The list of files inside the class page.
pub open spec fn frame_text(reachable: bool, rows: Seq<FileRow>) -> Seq<char> {
    FRAME_HEAD@ + (if !reachable {
        NO_FOLDER@
    } else if rows.len() == 0 {
        NO_FILES@
    } else {
        Seq::empty()
    }) + file_parts(rows, rows.len() as int) + PAGE_END@
}

fn file_text(name: &str, size: &str) -> (s: String)
    ensures
        s@ == file_part(name@, size@),
{
    let url: String = urlencode(name);
    let mut s = String::new();
    s.append("<div class=file><span class=name>");
    s.append(html_escape(name).as_str());
    s.append("</span><span class=size>");
    s.append(size);
    s.append("</span><br>");
    if openable(name) {
        s.append("<a class=\"btn read\" href=\"/view/");
        s.append(url.as_str());
        s.append("\">");
        if is_media(name) {
            s.append("PLAY");
        } else {
            s.append("READ");
        }
        s.append("</a>");
    }
    s.append("<a class=btn href=\"/");
    s.append(url.as_str());
    s.append("?dl=1\">GET IT</a></div>\n");
    assert(s@ =~= file_part(name@, size@));
    s
}

/// The refreshing list of files inside the class page.
pub fn files_frame(reachable: bool, rows: &Vec<FileRow>) -> (s: String)
    ensures
        s@ == frame_text(reachable, rows@),
{
    let mut s = String::new();
    s.append(FRAME_HEAD);
    if !reachable {
        s.append(NO_FOLDER);
    } else if rows.len() == 0 {
        s.append(NO_FILES);
    }
    let ghost top = s@;
    let mut i: usize = 0;
    assert(top + file_parts(rows@, 0) =~= top);
    while i < rows.len()
        invariant
            i <= rows.len(),
            s@ == top + file_parts(rows@, i as int),
        decreases rows.len() - i,
    {
        s.append(file_text(rows[i].name.as_str(), rows[i].size.as_str()).as_str());
        i = i + 1;
        assert(s@ =~= top + file_parts(rows@, i as int));
    }
    s.append(PAGE_END);
    assert(s@ =~= frame_text(reachable, rows@));
    s
}

// ------------------------------------------------------------- the viewer

pub const VIEW_HEAD: &'static str = "<!doctype html><html><head><meta charset=\"utf-8\">\
    <meta name=\"viewport\" content=\"width=device-width, initial-scale=1\">\
    <style>body{font-family:sans-serif;margin:0;background:#222;color:#eee}\
    .bar{position:sticky;top:0;background:#1a6b1a;padding:10px}\
    .bar a{color:#fff;font-size:1.1em;text-decoration:none;font-weight:bold}\
    .name{padding:6px 10px;color:#bbb;font-size:.9em;word-break:break-all}\
    img,video{max-width:100%;display:block;margin:0 auto}\
    iframe{width:100%;height:82vh;border:0;background:#fff}\
    audio{width:100%;margin:20px 0}</style></head><body>\n";

pub const VIEW_BAR: &'static str = "<div class=bar><a href=\"/\">&#8592; BACK TO THE FILES</a></div><div class=name>";

/// The viewer: a file, wrapped in a page whose first element is the way back.
pub open spec fn view_text(name: Seq<char>) -> Seq<char> {
    let url = escaped_bytes(encode_utf8(name));
    let e = extension(name);
    VIEW_HEAD@ + VIEW_BAR@ + html(name) + "</div>\n"@ + (if is_picture(e) {
        "<img src=\"/"@ + url + "\" alt=\""@ + html(name) + "\">\n"@
    } else if is_film(e) {
        "<video controls autoplay src=\"/"@ + url + "\"></video>\n"@
    } else if is_sound(e) {
        "<audio controls src=\"/"@ + url + "\"></audio>\n"@
    } else {
        "<iframe src=\"/"@ + url + "\"></iframe>\n"@
    }) + PAGE_END@
}

/// The viewer: a file, wrapped in a page whose first element is the way back.
pub fn view_page(name: &str) -> (s: String)
    ensures
        s@ == view_text(name@),
{
    let escaped: String = html_escape(name);
    let url: String = urlencode(name);
    let e: String = ext(name);
    let mut s = String::new();
    s.append(VIEW_HEAD);
    s.append(VIEW_BAR);
    s.append(escaped.as_str());
    s.append("</div>\n");
    if picture(e.as_str()) {
        s.append("<img src=\"/");
        s.append(url.as_str());
        s.append("\" alt=\"");
        s.append(escaped.as_str());
        s.append("\">\n");
    } else if film(e.as_str()) {
        s.append("<video controls autoplay src=\"/");
        s.append(url.as_str());
        s.append("\"></video>\n");
    } else if sound(e.as_str()) {
        s.append("<audio controls src=\"/");
        s.append(url.as_str());
        s.append("\"></audio>\n");
    } else {
        s.append("<iframe src=\"/");
        s.append(url.as_str());
        s.append("\"></iframe>\n");
    }
    s.append(PAGE_END);
    assert(s@ =~= view_text(name@));
    s
}

// ------------------------------------------------------------- paused

/// What a paused device sees. It asks again by itself, so that the class page comes
/// back on its own.
pub const PAUSED_PAGE: &'static str = "<!doctype html><html><head><meta charset=\"utf-8\">\
    <meta name=\"viewport\" content=\"width=device-width, initial-scale=1\">\
    <meta http-equiv=\"refresh\" content=\"10\"></head>\
    <body style=\"font-family:sans-serif;padding:12px\">\
    <h1>Paused</h1><p>Your teacher has paused this device.</p></body></html>";

/// What a paused device sees.
pub fn paused_page() -> (s: &'static str)
    ensures
        s@ == PAUSED_PAGE@,
{
    PAUSED_PAGE
}

// ------------------------------------------------------------- what a browser shows

/// What a browser shows of a text written in HTML, where it holds nothing but characters
/// and these four names of characters.
pub open spec fn as_shown(t: Seq<char>) -> Seq<char>
    decreases t.len(),
{
    if t.len() == 0 {
        t
    } else if begins_with(t, seq!['&', 'a', 'm', 'p', ';']) {
        seq!['&'] + as_shown(t.skip(5))
    } else if begins_with(t, seq!['&', 'l', 't', ';']) {
        seq!['<'] + as_shown(t.skip(4))
    } else if begins_with(t, seq!['&', 'g', 't', ';']) {
        seq!['>'] + as_shown(t.skip(4))
    } else if begins_with(t, seq!['&', 'q', 'u', 'o', 't', ';']) {
        seq!['"'] + as_shown(t.skip(6))
    } else {
        seq![t[0]] + as_shown(t.skip(1))
    }
}

proof fn lemma_html_first(s: Seq<char>)
    requires
        s.len() > 0,
    ensures
        html(s) == html_char(s[0]) + html(s.skip(1)),
    decreases s.len(),
{
    if s.len() == 1 {
        assert(s.drop_last() =~= Seq::<char>::empty());
        assert(s.skip(1) =~= Seq::<char>::empty());
        assert(html(s) =~= html_char(s[0]) + html(s.skip(1)));
    } else {
        lemma_html_first(s.drop_last());
        assert(s.drop_last().skip(1) =~= s.skip(1).drop_last());
        assert(html(s) =~= html_char(s[0]) + html(s.skip(1)));
    }
}

proof fn lemma_shown_first(e: Seq<char>, c: char, rest: Seq<char>)
    requires
        e == html_char(c),
    ensures
        as_shown(e + rest) == seq![c] + as_shown(rest),
{
    reveal_strlit("&amp;");
    reveal_strlit("&lt;");
    reveal_strlit("&gt;");
    reveal_strlit("&quot;");
    let t = e + rest;
    let amp = seq!['&', 'a', 'm', 'p', ';'];
    let lt = seq!['&', 'l', 't', ';'];
    let gt = seq!['&', 'g', 't', ';'];
    let quot = seq!['&', 'q', 'u', 'o', 't', ';'];
    assert(t.skip(e.len() as int) =~= rest);
    if c == '&' {
        assert(t.subrange(0, 5) =~= amp);
    } else if c == '<' {
        assert(t.subrange(0, 4) =~= lt);
        assert(t[1] == 'l');
        assert(!begins_with(t, amp)) by {
            if begins_with(t, amp) {
                assert(t.subrange(0, 5)[1] == 'a');
            }
        }
    } else if c == '>' {
        assert(t.subrange(0, 4) =~= gt);
        assert(t[1] == 'g');
        assert(!begins_with(t, amp)) by {
            if begins_with(t, amp) {
                assert(t.subrange(0, 5)[1] == 'a');
            }
        }
        assert(!begins_with(t, lt)) by {
            if begins_with(t, lt) {
                assert(t.subrange(0, 4)[1] == 'l');
            }
        }
    } else if c == '"' {
        assert(t.subrange(0, 6) =~= quot);
        assert(t[1] == 'q');
        assert(!begins_with(t, amp)) by {
            if begins_with(t, amp) {
                assert(t.subrange(0, 5)[1] == 'a');
            }
        }
        assert(!begins_with(t, lt)) by {
            if begins_with(t, lt) {
                assert(t.subrange(0, 4)[1] == 'l');
            }
        }
        assert(!begins_with(t, gt)) by {
            if begins_with(t, gt) {
                assert(t.subrange(0, 4)[1] == 'g');
            }
        }
    } else {
        assert(t[0] == c);
        assert(!begins_with(t, amp)) by {
            if begins_with(t, amp) {
                assert(t.subrange(0, 5)[0] == '&');
            }
        }
        assert(!begins_with(t, lt)) by {
            if begins_with(t, lt) {
                assert(t.subrange(0, 4)[0] == '&');
            }
        }
        assert(!begins_with(t, gt)) by {
            if begins_with(t, gt) {
                assert(t.subrange(0, 4)[0] == '&');
            }
        }
        assert(!begins_with(t, quot)) by {
            if begins_with(t, quot) {
                assert(t.subrange(0, 6)[0] == '&');
            }
        }
    }
}

/// What somebody typed is what a browser shows, character for character.
pub proof fn law_what_is_typed_is_shown(s: Seq<char>)
    ensures
        as_shown(html(s)) == s,
    decreases s.len(),
{
    if s.len() > 0 {
        lemma_html_first(s);
        law_what_is_typed_is_shown(s.skip(1));
        lemma_shown_first(html_char(s[0]), s[0], html(s.skip(1)));
        assert(seq![s[0]] + s.skip(1) =~= s);
    }
}

/// An address on its own becomes a link to itself, and any other word stays as it is; each
/// is followed by a space.
pub proof fn law_addresses_become_links(ws: Seq<Seq<char>>, w: Seq<char>)
    ensures
        ({
            let address = w.len() >= 7 && w.take(7) == seq!['h', 't', 't', 'p', ':', '/', '/'] || w.len()
                >= 8 && w.take(8) == seq!['h', 't', 't', 'p', 's', ':', '/', '/'];
            &&& address ==> linked(ws.push(w)) == linked(ws) + "<a href=\""@ + w + "\">"@ + w
                + "</a>"@ + seq![' ']
            &&& !address ==> linked(ws.push(w)) == linked(ws) + w + seq![' ']
        }),
{
    reveal_strlit("http://");
    reveal_strlit("https://");
    assert("http://"@ =~= seq!['h', 't', 't', 'p', ':', '/', '/']);
    assert("https://"@ =~= seq!['h', 't', 't', 'p', 's', ':', '/', '/']);
    assert(ws.push(w).drop_last() =~= ws);
    let a = "<a href=\""@ + w + "\">"@ + w + "</a>"@;
    assert((linked(ws) + a).push(' ') =~= linked(ws) + "<a href=\""@ + w + "\">"@ + w + "</a>"@
        + seq![' ']);
    assert((linked(ws) + w).push(' ') =~= linked(ws) + w + seq![' ']);
}

/// A file is told by what follows its last dot, in whatever case.
pub proof fn law_the_ending_tells_the_file(stem: Seq<char>, e: Seq<char>)
    requires
        forall|i: int| 0 <= i < e.len() ==> #[trigger] e[i] != '.',
    ensures
        extension(stem + seq!['.'] + e) == lower_all(e),
        extension(e) == lower_all(e),
{
    assert(!e.contains('.'));
    crate::text::law_a_text_is_cut_where_it_should(stem, '.', e);
    crate::text::law_a_text_is_cut_where_it_should(e, '.', e);
}

/// What a file opens as goes with what the browser is told of it: pictures, films and
/// sound are told as such and nothing else is, and a file opens exactly where the browser
/// is told more than that it is bytes.
pub proof fn law_what_opens_is_told(name: Seq<char>)
    ensures
        ({
            let e = extension(name);
            let t = type_of(e);
            &&& opens(name) <==> t != "application/octet-stream"@
            &&& is_picture(e) <==> begins_with(t, "image/"@)
            &&& is_film(e) <==> begins_with(t, "video/"@)
            &&& is_sound(e) <==> begins_with(t, "audio/"@)
        }),
{
    let e = extension(name);
    lemma_types();
    lemma_endings(e);
}

/// The three kinds of endings have nothing in common, nor with the other endings that open.
proof fn lemma_endings(e: Seq<char>)
    ensures
        is_picture(e) ==> !is_film(e) && !is_sound(e),
        is_film(e) ==> !is_sound(e),
        e == "pdf"@ || e == "txt"@ || e == "html"@ || e == "htm"@ ==> !is_picture(e) && !is_film(e)
            && !is_sound(e),
{
    reveal_strlit("pdf");
    reveal_strlit("txt");
    reveal_strlit("html");
    reveal_strlit("htm");
    reveal_strlit("jpg");
    reveal_strlit("jpeg");
    reveal_strlit("png");
    reveal_strlit("gif");
    reveal_strlit("webp");
    reveal_strlit("mp4");
    reveal_strlit("webm");
    reveal_strlit("mp3");
    reveal_strlit("ogg");
    reveal_strlit("m4a");
    reveal_strlit("wav");
    if e == "pdf"@ {
        assert(e[1] == 'd');
    } else if e == "txt"@ {
        assert(e[1] == 'x');
    } else if e == "html"@ || e == "htm"@ {
        assert(e[0] == 'h');
    } else if is_picture(e) {
        assert(e[0] != 'm' && e[0] != 'o');
        if e == "webp"@ {
            assert(e[3] == 'p');
        }
    } else if is_film(e) {
        assert(e.len() == 4 || e[2] == '4');
    }
}

proof fn lemma_types()
    ensures
        !begins_with("application/pdf"@, "image/"@),
        !begins_with("text/plain; charset=utf-8"@, "image/"@),
        !begins_with("text/html; charset=utf-8"@, "image/"@),
        !begins_with("application/octet-stream"@, "image/"@),
        begins_with("image/jpeg"@, "image/"@),
        begins_with("image/png"@, "image/"@),
        begins_with("image/gif"@, "image/"@),
        begins_with("image/webp"@, "image/"@),
        !begins_with("video/mp4"@, "image/"@),
        !begins_with("video/webm"@, "image/"@),
        !begins_with("audio/mpeg"@, "image/"@),
        !begins_with("audio/ogg"@, "image/"@),
        !begins_with("audio/mp4"@, "image/"@),
        !begins_with("audio/wav"@, "image/"@),
        !begins_with("application/pdf"@, "video/"@),
        !begins_with("text/plain; charset=utf-8"@, "video/"@),
        !begins_with("text/html; charset=utf-8"@, "video/"@),
        !begins_with("application/octet-stream"@, "video/"@),
        !begins_with("image/jpeg"@, "video/"@),
        !begins_with("image/png"@, "video/"@),
        !begins_with("image/gif"@, "video/"@),
        !begins_with("image/webp"@, "video/"@),
        begins_with("video/mp4"@, "video/"@),
        begins_with("video/webm"@, "video/"@),
        !begins_with("audio/mpeg"@, "video/"@),
        !begins_with("audio/ogg"@, "video/"@),
        !begins_with("audio/mp4"@, "video/"@),
        !begins_with("audio/wav"@, "video/"@),
        !begins_with("application/pdf"@, "audio/"@),
        !begins_with("text/plain; charset=utf-8"@, "audio/"@),
        !begins_with("text/html; charset=utf-8"@, "audio/"@),
        !begins_with("application/octet-stream"@, "audio/"@),
        !begins_with("image/jpeg"@, "audio/"@),
        !begins_with("image/png"@, "audio/"@),
        !begins_with("image/gif"@, "audio/"@),
        !begins_with("image/webp"@, "audio/"@),
        !begins_with("video/mp4"@, "audio/"@),
        !begins_with("video/webm"@, "audio/"@),
        begins_with("audio/mpeg"@, "audio/"@),
        begins_with("audio/ogg"@, "audio/"@),
        begins_with("audio/mp4"@, "audio/"@),
        begins_with("audio/wav"@, "audio/"@),
        "application/pdf"@ != "application/octet-stream"@,
        "text/plain; charset=utf-8"@ != "application/octet-stream"@,
        "text/html; charset=utf-8"@ != "application/octet-stream"@,
        "image/jpeg"@ != "application/octet-stream"@,
        "image/png"@ != "application/octet-stream"@,
        "image/gif"@ != "application/octet-stream"@,
        "image/webp"@ != "application/octet-stream"@,
        "video/mp4"@ != "application/octet-stream"@,
        "video/webm"@ != "application/octet-stream"@,
        "audio/mpeg"@ != "application/octet-stream"@,
        "audio/ogg"@ != "application/octet-stream"@,
        "audio/mp4"@ != "application/octet-stream"@,
        "audio/wav"@ != "application/octet-stream"@,
{
    reveal_strlit("image/");
    reveal_strlit("video/");
    reveal_strlit("audio/");
    reveal_strlit("application/pdf");
    reveal_strlit("text/plain; charset=utf-8");
    reveal_strlit("text/html; charset=utf-8");
    reveal_strlit("application/octet-stream");
    reveal_strlit("image/jpeg");
    reveal_strlit("image/png");
    reveal_strlit("image/gif");
    reveal_strlit("image/webp");
    reveal_strlit("video/mp4");
    reveal_strlit("video/webm");
    reveal_strlit("audio/mpeg");
    reveal_strlit("audio/ogg");
    reveal_strlit("audio/mp4");
    reveal_strlit("audio/wav");
    assert("image/jpeg"@.subrange(0, 6) =~= "image/"@);
    assert("image/png"@.subrange(0, 6) =~= "image/"@);
    assert("image/gif"@.subrange(0, 6) =~= "image/"@);
    assert("image/webp"@.subrange(0, 6) =~= "image/"@);
    assert("video/mp4"@.subrange(0, 6) =~= "video/"@);
    assert("video/webm"@.subrange(0, 6) =~= "video/"@);
    assert("audio/mpeg"@.subrange(0, 6) =~= "audio/"@);
    assert("audio/ogg"@.subrange(0, 6) =~= "audio/"@);
    assert("audio/mp4"@.subrange(0, 6) =~= "audio/"@);
    assert("audio/wav"@.subrange(0, 6) =~= "audio/"@);
    lemma_begins_otherwise("application/pdf"@, "image/"@);
    lemma_begins_otherwise("text/plain; charset=utf-8"@, "image/"@);
    lemma_begins_otherwise("text/html; charset=utf-8"@, "image/"@);
    lemma_begins_otherwise("application/octet-stream"@, "image/"@);
    lemma_begins_otherwise("video/mp4"@, "image/"@);
    lemma_begins_otherwise("video/webm"@, "image/"@);
    lemma_begins_otherwise("audio/mpeg"@, "image/"@);
    lemma_begins_otherwise("audio/ogg"@, "image/"@);
    lemma_begins_otherwise("audio/mp4"@, "image/"@);
    lemma_begins_otherwise("audio/wav"@, "image/"@);
    lemma_begins_otherwise("application/pdf"@, "video/"@);
    lemma_begins_otherwise("text/plain; charset=utf-8"@, "video/"@);
    lemma_begins_otherwise("text/html; charset=utf-8"@, "video/"@);
    lemma_begins_otherwise("application/octet-stream"@, "video/"@);
    lemma_begins_otherwise("image/jpeg"@, "video/"@);
    lemma_begins_otherwise("image/png"@, "video/"@);
    lemma_begins_otherwise("image/gif"@, "video/"@);
    lemma_begins_otherwise("image/webp"@, "video/"@);
    lemma_begins_otherwise("audio/mpeg"@, "video/"@);
    lemma_begins_otherwise("audio/ogg"@, "video/"@);
    lemma_begins_otherwise("audio/mp4"@, "video/"@);
    lemma_begins_otherwise("audio/wav"@, "video/"@);
    lemma_begins_otherwise("application/pdf"@, "audio/"@);
    lemma_begins_otherwise("text/plain; charset=utf-8"@, "audio/"@);
    lemma_begins_otherwise("text/html; charset=utf-8"@, "audio/"@);
    lemma_begins_otherwise("application/octet-stream"@, "audio/"@);
    lemma_begins_otherwise("image/jpeg"@, "audio/"@);
    lemma_begins_otherwise("image/png"@, "audio/"@);
    lemma_begins_otherwise("image/gif"@, "audio/"@);
    lemma_begins_otherwise("image/webp"@, "audio/"@);
    lemma_begins_otherwise("video/mp4"@, "audio/"@);
    lemma_begins_otherwise("video/webm"@, "audio/"@);
    assert("application/pdf"@.len() != "application/octet-stream"@.len());
    assert("text/plain; charset=utf-8"@[0] != "application/octet-stream"@[0]);
    assert("text/html; charset=utf-8"@[0] != "application/octet-stream"@[0]);
    assert("image/jpeg"@[0] != "application/octet-stream"@[0]);
    assert("image/png"@[0] != "application/octet-stream"@[0]);
    assert("image/gif"@[0] != "application/octet-stream"@[0]);
    assert("image/webp"@[0] != "application/octet-stream"@[0]);
    assert("video/mp4"@[0] != "application/octet-stream"@[0]);
    assert("video/webm"@[0] != "application/octet-stream"@[0]);
    assert("audio/mpeg"@[1] != "application/octet-stream"@[1]);
    assert("audio/ogg"@[1] != "application/octet-stream"@[1]);
    assert("audio/mp4"@[1] != "application/octet-stream"@[1]);
    assert("audio/wav"@[1] != "application/octet-stream"@[1]);
}

proof fn lemma_begins_otherwise(t: Seq<char>, p: Seq<char>)
    requires
        p.len() > 1,
        t.len() > 1,
        t[0] != p[0] || t[1] != p[1],
    ensures
        !begins_with(t, p),
{
    if begins_with(t, p) {
        assert(t.subrange(0, p.len() as int)[0] == t[0]);
        assert(t.subrange(0, p.len() as int)[1] == t[1]);
    }
}

/// Bytes written in hexadecimal stand one behind the other, two digits each.
pub proof fn law_each_byte_is_two_digits(b: Seq<u8>, i: int)
    requires
        0 <= i < b.len(),
    ensures
        hex_text(b).len() == 2 * b.len(),
        hex_text(b).subrange(2 * i, 2 * i + 2) == hex_byte(b[i], false),
    decreases b.len(),
{
    let d = b.drop_last();
    let t = hex_text(b);
    if d.len() == 0 {
        assert(hex_text(d) =~= Seq::<char>::empty());
    } else {
        law_each_byte_is_two_digits(d, 0);
    }
    if i < d.len() {
        law_each_byte_is_two_digits(d, i);
        assert(t.subrange(2 * i, 2 * i + 2) =~= hex_text(d).subrange(2 * i, 2 * i + 2));
    } else {
        assert(t.subrange(2 * i, 2 * i + 2) =~= hex_byte(b[i], false));
    }
}

/// Each hexadecimal digit of a number counts: what stands behind the last is that many
/// sixteens.
pub proof fn law_hexadecimal_numbers(n: int)
    requires
        0 <= n,
    ensures
        n < 10 ==> hex_number(n).len() == 1 && hex_number(n)[0] as int == 48 + n,
        10 <= n < 16 ==> hex_number(n).len() == 1 && hex_number(n)[0] as int == 87 + n,
        n >= 16 ==> hex_number(n) == hex_number(n / 16) + hex_number(n % 16),
{
    if n >= 16 {
        assert(hex_number(n % 16) == seq![hex_char(n % 16, false)]);
        assert(hex_number(n) =~= hex_number(n / 16) + hex_number(n % 16));
    }
}

/// Whoever has sent something is told what became of it, in words that are told for nothing
/// else; a tag that means nothing is passed over.
pub proof fn law_what_was_done_is_said(tag: Seq<char>)
    ensures
        ({
            let said = |t: Seq<char>, words: Seq<char>|
                done_box(Some(t)) == "<div class=done>"@ + words + "</div>\n"@;
            &&& said("handin"@, "Handed in. Your teacher has it."@)
            &&& said("note"@, "Sent. Your teacher can see it."@)
            &&& said("empty"@, "Nothing was chosen, so nothing was sent."@)
            &&& said("toobig"@, "That file is too big to hand in this way."@)
            &&& said(
                "cantsave"@,
                "It could not be saved on the teacher's computer. Tell your teacher."@,
            )
        }),
        tag != "handin"@ && tag != "note"@ && tag != "empty"@ && tag != "toobig"@ && tag
            != "cantsave"@ ==> done_box(Some(tag)).len() == 0,
        done_box(None).len() == 0,
{
    reveal_strlit("handin");
    reveal_strlit("note");
    reveal_strlit("empty");
    reveal_strlit("toobig");
    reveal_strlit("cantsave");
    assert("handin"@[0] == 'h' && "note"@[0] == 'n' && "empty"@[0] == 'e' && "toobig"@[0] == 't'
        && "cantsave"@[0] == 'c');
    assert("<div class=done>Handed in. Your teacher has it.</div>\n"@ =~= "<div class=done>"@
        + "Handed in. Your teacher has it."@ + "</div>\n"@) by {
        reveal_strlit("<div class=done>");
        reveal_strlit("</div>\n");
        reveal_strlit("<div class=done>Handed in. Your teacher has it.</div>\n");
        reveal_strlit("Handed in. Your teacher has it.");
    }
    assert("<div class=done>Sent. Your teacher can see it.</div>\n"@ =~= "<div class=done>"@
        + "Sent. Your teacher can see it."@ + "</div>\n"@) by {
        reveal_strlit("<div class=done>");
        reveal_strlit("</div>\n");
        reveal_strlit("<div class=done>Sent. Your teacher can see it.</div>\n");
        reveal_strlit("Sent. Your teacher can see it.");
    }
    assert("<div class=done>Nothing was chosen, so nothing was sent.</div>\n"@
        =~= "<div class=done>"@ + "Nothing was chosen, so nothing was sent."@ + "</div>\n"@) by {
        reveal_strlit("<div class=done>");
        reveal_strlit("</div>\n");
        reveal_strlit("<div class=done>Nothing was chosen, so nothing was sent.</div>\n");
        reveal_strlit("Nothing was chosen, so nothing was sent.");
    }
    assert("<div class=done>That file is too big to hand in this way.</div>\n"@
        =~= "<div class=done>"@ + "That file is too big to hand in this way."@ + "</div>\n"@) by {
        reveal_strlit("<div class=done>");
        reveal_strlit("</div>\n");
        reveal_strlit("<div class=done>That file is too big to hand in this way.</div>\n");
        reveal_strlit("That file is too big to hand in this way.");
    }
    assert("<div class=done>It could not be saved on the teacher's computer. Tell your teacher.</div>\n"@
        =~= "<div class=done>"@
        + "It could not be saved on the teacher's computer. Tell your teacher."@ + "</div>\n"@) by {
        reveal_strlit("<div class=done>");
        reveal_strlit("</div>\n");
        reveal_strlit(
            "<div class=done>It could not be saved on the teacher's computer. Tell your teacher.</div>\n",
        );
        reveal_strlit("It could not be saved on the teacher's computer. Tell your teacher.");
    }
}

/// The viewer holds the file itself, as a picture, a film, sound or a page of its own, by
/// what the browser is told of it.
pub proof fn law_the_viewer_holds_the_file(name: Seq<char>)
    ensures
        ({
            let url = escaped_bytes(encode_utf8(name));
            let t = type_of(extension(name));
            let v = view_text(name);
            &&& begins_with(t, "image/"@) ==> holds(v, "<img src=\"/"@ + url)
            &&& begins_with(t, "video/"@) ==> holds(v, "<video controls autoplay src=\"/"@ + url)
            &&& begins_with(t, "audio/"@) ==> holds(v, "<audio controls src=\"/"@ + url)
            &&& !begins_with(t, "image/"@) && !begins_with(t, "video/"@) && !begins_with(t, "audio/"@)
                ==> holds(v, "<iframe src=\"/"@ + url)
            &&& holds(v, html(name))
        }),
{
    law_what_opens_is_told(name);
    let url = escaped_bytes(encode_utf8(name));
    let e = extension(name);
    let front = VIEW_HEAD@ + VIEW_BAR@ + html(name) + "</div>\n"@;
    let (tag, back) = if is_picture(e) {
        ("<img src=\"/"@, "\" alt=\""@ + html(name) + "\">\n"@)
    } else if is_film(e) {
        ("<video controls autoplay src=\"/"@, "\"></video>\n"@)
    } else if is_sound(e) {
        ("<audio controls src=\"/"@, "\"></audio>\n"@)
    } else {
        ("<iframe src=\"/"@, "\"></iframe>\n"@)
    };
    lemma_holds_middle(front, tag + url, back + PAGE_END@);
    lemma_endings(e);
    if is_picture(e) {
        let b = "\" alt=\""@;
        let c = "\">\n"@;
        assert(tag + url + b + html(name) + c =~= (tag + url) + back);
    } else {
        assert(tag + url + back =~= (tag + url) + back);
    }
    assert(view_text(name) =~= front + (tag + url) + (back + PAGE_END@));
    let a = VIEW_HEAD@ + VIEW_BAR@;
    lemma_holds_middle(a, html(name), "</div>\n"@ + (tag + url + back + PAGE_END@));
    assert(view_text(name) =~= a + html(name) + ("</div>\n"@ + (tag + url + back + PAGE_END@)));
}

} // verus!
