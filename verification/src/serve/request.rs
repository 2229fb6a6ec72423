//! What a request asks for, and where it is sent.

use super::paths::{
    escaped_bytes, is_stray, law_link_leads_back, lemma_escaped_plain, lemma_first_named,
    lemma_slash_and_link, lemma_way_to_one, percent_decode, safe_join, strays, unescaped, way_to,
    Naming,
};
use super::roster::{in_sight, is_allowed, may_have, Ticked};
use crate::bytes::{lossy, lossy_text};
use crate::number::{parse_decimal, unsigned};
use crate::text::{
    begins_with, chars_of, contains_text, cut, find_char, holds, is_space, is_text,
    law_a_text_is_cut_where_it_should, law_lines_end_either_way,
    law_trimming_takes_what_stands_round, lemma_first_from, lemma_first_word, lemma_only_word,
    lines, lower_all, lowered, occurs_at, one_of, same_text, split_lines, split_once, split_words,
    starts_with_text, string_of, strip_start, stripped_start, text_view, texts, trim, trimmed,
    views, words,
};
use vstd::prelude::*;
use vstd::slice::slice_subrange;
use vstd::utf8::{encode_utf8, is_ascii_chars, is_ascii_chars_encode_utf8};

verus! {

/// The longest head of a request that is read.
pub const HEAD_CAP: usize = 8192;

/// Whether enough of a request has been read: it ends with an empty line, or it
/// has reached the cap.
pub open spec fn head_ends(head: Seq<u8>) -> bool {
    let n = head.len() as int;
    n >= HEAD_CAP || (n >= 4 && head[n - 4] == 13 && head[n - 3] == 10 && head[n - 2] == 13
        && head[n - 1] == 10)
}

/// Whether enough of a request has been read.
pub fn head_complete(head: &Vec<u8>) -> (b: bool)
    ensures
        b == head_ends(head@),
{
    let n: usize = head.len();
    n >= HEAD_CAP || (n >= 4 && head[n - 4] == 13 && head[n - 3] == 10 && head[n - 2] == 13
        && head[n - 1] == 10)
}

/// A request, taken apart.
pub struct Request {
    pub method: String,
    pub path: String,
    pub query: String,
    /// Whether the connection may be used again.
    pub keep: bool,
    pub range: Option<String>,
    pub host: Option<String>,
    /// The length of the body, zero where none is given.
    pub length: usize,
}

/// A request as plain text and numbers.
pub struct RequestModel {
    pub method: Seq<char>,
    pub path: Seq<char>,
    pub query: Seq<char>,
    pub keep: bool,
    pub range: Option<Seq<char>>,
    pub host: Option<Seq<char>>,
    pub length: int,
}

impl View for Request {
    type V = RequestModel;

    open spec fn view(&self) -> RequestModel {
        RequestModel {
            method: self.method@,
            path: self.path@,
            query: self.query@,
            keep: self.keep,
            range: text_view(self.range),
            host: text_view(self.host),
            length: self.length as int,
        }
    }
}

/// The `i`-th word of the first line, or a default.
pub open spec fn request_word(text: Seq<char>, i: int, default: Seq<char>) -> Seq<char> {
    let ls = lines(text);
    if ls.len() > 0 && i < words(ls[0]).len() {
        words(ls[0])[i]
    } else {
        default
    }
}

/// The value on the first line from `i` on that begins with this, whatever its
/// case.
pub open spec fn line_value_from(ls: Seq<Seq<char>>, i: int, prefix: Seq<char>) -> Option<
    Seq<char>,
>
    decreases ls.len() - i,
{
    if i >= ls.len() {
        None
    } else if begins_with(lower_all(ls[i]), prefix) {
        match cut(ls[i], ':') {
            Some((_, v)) => Some(trimmed(v)),
            None => None,
        }
    } else {
        line_value_from(ls, i + 1, prefix)
    }
}

/// The value on the first line of a text that begins with this, whatever its case.
pub open spec fn line_value(text: Seq<char>, prefix: Seq<char>) -> Option<Seq<char>> {
    line_value_from(lines(text), 0, prefix)
}

/// Whether a header line asks for the connection to be closed.
pub open spec fn asks_close(l: Seq<char>) -> bool {
    begins_with(lower_all(l), "connection:"@) && holds(lower_all(l), "close"@)
}

/// Whether the client will wait for the connection to be closed.
pub open spec fn wants_close(text: Seq<char>) -> bool {
    ||| exists|i: int| 0 <= i < lines(text).len() && asks_close(#[trigger] lines(text)[i])
    ||| request_word(text, 2, "HTTP/1.1"@) == "HTTP/1.0"@ && !holds(
        lower_all(text),
        "connection: keep-alive"@,
    )
}

/// The length of the body that a head announces.
pub open spec fn announced_length(text: Seq<char>) -> int {
    match line_value(text, "content-length:"@) {
        Some(v) => match unsigned(v, 10, usize::MAX as int) {
            Some(n) => n,
            None => 0,
        },
        None => 0,
    }
}

/// What stands before the question mark, and after it.
pub open spec fn path_and_query(raw: Seq<char>) -> (Seq<char>, Seq<char>) {
    match cut(raw, '?') {
        Some((p, q)) => (p, q),
        None => (raw, Seq::empty()),
    }
}

/// The request that a head makes.
pub open spec fn request_in(text: Seq<char>) -> RequestModel {
    let (path, query) = path_and_query(request_word(text, 1, "/"@));
    RequestModel {
        method: request_word(text, 0, Seq::empty()),
        path,
        query,
        keep: !wants_close(text),
        range: line_value(text, "range:"@),
        host: line_value(text, "host:"@),
        length: announced_length(text),
    }
}

fn word_or(ws: &Vec<&[char]>, i: usize, default: &str) -> (w: String)
    ensures
        w@ == (if i < ws.len() {
            ws@[i as int]@
        } else {
            default@
        }),
{
    if i < ws.len() {
        string_of(ws[i])
    } else {
        default.to_owned()
    }
}

fn first_line_value(ls: &Vec<&[char]>, prefix: &str) -> (v: Option<String>)
    ensures
        text_view(v) == line_value_from(views(ls@), 0, prefix@),
{
    let ghost all = views(ls@);
    let mut i: usize = 0;
    while i < ls.len()
        invariant
            all == views(ls@),
            i <= ls.len(),
            line_value_from(all, 0, prefix@) == line_value_from(all, i as int, prefix@),
        decreases ls.len() - i,
    {
        assert(all[i as int] == ls@[i as int]@);
        let low: Vec<char> = lowered(ls[i]);
        if starts_with_text(low.as_slice(), prefix) {
            return match split_once(ls[i], ':') {
                Some((_, v)) => Some(string_of(trim(v))),
                None => None,
            };
        }
        i = i + 1;
    }
    None
}

fn any_asks_close(ls: &Vec<&[char]>) -> (b: bool)
    ensures
        b == exists|i: int| 0 <= i < ls.len() && asks_close(#[trigger] views(ls@)[i]),
{
    let mut i: usize = 0;
    while i < ls.len()
        invariant
            i <= ls.len(),
            forall|k: int| 0 <= k < i ==> !asks_close(#[trigger] views(ls@)[k]),
        decreases ls.len() - i,
    {
        let low: Vec<char> = lowered(ls[i]);
        if starts_with_text(low.as_slice(), "connection:") && contains_text(
            low.as_slice(),
            "close",
        ) {
            assert(asks_close(views(ls@)[i as int]));
            return true;
        }
        i = i + 1;
    }
    false
}

/// Take the head of a request apart.
pub fn parse_request(text: &str) -> (r: Request)
    ensures
        r@ == request_in(text@),
{
    let chars: Vec<char> = chars_of(text);
    let ls: Vec<&[char]> = split_lines(chars.as_slice());
    let ws: Vec<&[char]> = if ls.len() > 0 {
        assert(views(ls@)[0] == ls@[0]@);
        split_words(ls[0])
    } else {
        Vec::new()
    };
    assert(ls.len() == lines(text@).len());
    assert(forall|i: int| 0 <= i < ws.len() ==> #[trigger] views(ws@)[i] == ws@[i]@);
    let method: String = word_or(&ws, 0, "");
    let raw: String = word_or(&ws, 1, "/");
    let version: String = word_or(&ws, 2, "HTTP/1.1");
    proof {
        reveal_strlit("");
        assert(""@ =~= Seq::<char>::empty());
        assert(method@ == request_word(text@, 0, Seq::empty()));
        assert(raw@ == request_word(text@, 1, "/"@));
        assert(version@ == request_word(text@, 2, "HTTP/1.1"@));
    }
    let all: Vec<char> = lowered(chars.as_slice());
    let close: bool = any_asks_close(&ls) || (same_text(version.as_str(), "HTTP/1.0")
        && !contains_text(all.as_slice(), "connection: keep-alive"));
    let range: Option<String> = first_line_value(&ls, "range:");
    let host: Option<String> = first_line_value(&ls, "host:");
    let length: usize = match first_line_value(&ls, "content-length:") {
        Some(v) => {
            let c: Vec<char> = chars_of(v.as_str());
            match parse_decimal(c.as_slice(), usize::MAX as u64) {
                Some(n) => n as usize,
                None => 0,
            }
        },
        None => 0,
    };
    let rc: Vec<char> = chars_of(raw.as_str());
    let (path, query): (String, String) = match split_once(rc.as_slice(), '?') {
        Some((p, q)) => (string_of(p), string_of(q)),
        None => (raw.clone(), String::new()),
    };
    Request { method, path, query, keep: !close, range, host, length }
}

/// Take the head of a request apart, as it was read.
pub fn read_request(head: &[u8]) -> (r: Request)
    ensures
        r@ == request_in(lossy(head@)),
{
    let text: String = lossy_text(head);
    parse_request(text.as_str())
}

// ------------------------------------------------------------- where it is sent

/// What a request is answered with.
pub enum Route {
    /// A redirect to the class page, for a host that is not ours.
    Captive,
    /// The page that says the device is paused, after reading this much body.
    Paused { drain: usize },
    /// A note whose body is this long.
    Note { body: usize },
    /// A claimed name whose body is this long.
    Name { body: usize },
    /// An upload.
    HandIn,
    /// A post to nowhere.
    NothingSent,
    /// The list of files for another copy of this program.
    PlainList,
    /// The class page; what was just done, and whether the name is asked again.
    ClassPage { done: Option<String>, rename: bool },
    /// The list of files inside the class page.
    FileFrame,
    /// The viewer round a file of this name, if there is such a file.
    View { name: String },
    NotFound,
    Forbidden,
    /// What lies at the end of these steps from the served folder, if anything:
    /// a listing of a folder, the length of a file, or the file.
    Fetch { way: Vec<String>, head_only: bool, download: bool },
}

/// A route as plain text and numbers.
pub enum RouteModel {
    Captive,
    Paused { drain: int },
    Note { body: int },
    Name { body: int },
    HandIn,
    NothingSent,
    PlainList,
    ClassPage { done: Option<Seq<char>>, rename: bool },
    FileFrame,
    View { name: Seq<char> },
    NotFound,
    Forbidden,
    Fetch { way: Seq<Seq<char>>, head_only: bool, download: bool },
}

impl View for Route {
    type V = RouteModel;

    open spec fn view(&self) -> RouteModel {
        match *self {
            Route::Captive => RouteModel::Captive,
            Route::Paused { drain } => RouteModel::Paused { drain: drain as int },
            Route::Note { body } => RouteModel::Note { body: body as int },
            Route::Name { body } => RouteModel::Name { body: body as int },
            Route::HandIn => RouteModel::HandIn,
            Route::NothingSent => RouteModel::NothingSent,
            Route::PlainList => RouteModel::PlainList,
            Route::ClassPage { done, rename } => RouteModel::ClassPage {
                done: text_view(done),
                rename,
            },
            Route::FileFrame => RouteModel::FileFrame,
            Route::View { name } => RouteModel::View { name: name@ },
            Route::NotFound => RouteModel::NotFound,
            Route::Forbidden => RouteModel::Forbidden,
            Route::Fetch { way, head_only, download } => RouteModel::Fetch {
                way: texts(way@),
                head_only,
                download,
            },
        }
    }
}

/// The most of a note, or of what a paused device sends, that is read.
pub const NOTE_BODY_CAP: usize = 65_536;

/// The most of a claimed name that is read.
pub const NAME_BODY_CAP: usize = 4096;

/// A length, but not more than a cap.
pub open spec fn capped(n: int, cap: int) -> int {
    if n < cap {
        n
    } else {
        cap
    }
}

/// What follows a prefix.
pub open spec fn after_prefix(s: Seq<char>, p: Seq<char>) -> Option<Seq<char>> {
    if begins_with(s, p) {
        Some(s.skip(p.len() as int))
    } else {
        None
    }
}

/// The first step of a path, its leading slashes taken off.
pub open spec fn first_step(decoded: Seq<char>) -> Seq<char> {
    let rel = stripped_start(decoded, seq!['/']);
    match cut(rel, '/') {
        Some((a, _)) => a,
        None => rel,
    }
}

/// Whether a name is that of the folder of handed-in work: however it is spelt, where
/// the case of a name does not count.
pub open spec fn for_handed_in(name: Seq<char>, any_case: bool) -> bool {
    name == "handed-in"@ || (any_case && lower_all(name) == "handed-in"@)
}

/// Whether something in the folder is kept from the network: handed-in work, hidden
/// files, and what has not been ticked.
pub open spec fn withheld(t: &Ticked, first: Seq<char>, any_case: bool) -> bool {
    for_handed_in(first, any_case) || (first.len() > 0 && first[0] == '.') || !may_have(t, first)
}

/// Where a request for a path in the folder is sent.
pub open spec fn fetch_route(
    t: &Ticked,
    r: RequestModel,
    naming: Naming,
    decoded: Seq<char>,
) -> RouteModel {
    match way_to(decoded, naming.windows) {
        None => RouteModel::Forbidden,
        Some(way) => if withheld(t, first_step(decoded), naming.any_case) {
            RouteModel::NotFound
        } else {
            RouteModel::Fetch {
                way,
                head_only: r.method == "HEAD"@,
                download: holds(r.query, "dl=1"@),
            }
        },
    }
}

/// Where a request to view a file is sent.
pub open spec fn view_route(t: &Ticked, naming: Naming, name: Seq<char>) -> RouteModel {
    if !name.contains('/') && !strays(name, naming.windows) && may_have(t, name) {
        RouteModel::View { name }
    } else {
        RouteModel::NotFound
    }
}

/// Where a request is sent, given whether its host is somebody else's and
/// whether the device is paused.
pub open spec fn route_of(
    t: &Ticked,
    r: RequestModel,
    naming: Naming,
    foreign: bool,
    blocked: bool,
) -> RouteModel {
    if foreign {
        RouteModel::Captive
    } else if blocked {
        RouteModel::Paused {
            drain: if r.method == "POST"@ {
                capped(r.length, NOTE_BODY_CAP as int)
            } else {
                0
            },
        }
    } else if r.method == "POST"@ {
        if r.path == "/note"@ {
            RouteModel::Note { body: capped(r.length, NOTE_BODY_CAP as int) }
        } else if r.path == "/name"@ {
            RouteModel::Name { body: capped(r.length, NAME_BODY_CAP as int) }
        } else if r.path == "/handin"@ {
            RouteModel::HandIn
        } else {
            RouteModel::NothingSent
        }
    } else if r.path == "/"@ {
        if holds(r.query, "list"@) {
            RouteModel::PlainList
        } else {
            RouteModel::ClassPage {
                done: after_prefix(r.query, "done="@),
                rename: holds(r.query, "rename=1"@),
            }
        }
    } else if r.path == "/files"@ {
        RouteModel::FileFrame
    } else {
        match after_prefix(r.path, "/view/"@) {
            Some(rest) => view_route(t, naming, lossy(unescaped(rest))),
            None => fetch_route(t, r, naming, lossy(unescaped(r.path))),
        }
    }
}

fn cap_len(n: usize, cap: usize) -> (r: usize)
    ensures
        r == capped(n as int, cap as int),
{
    if n < cap {
        n
    } else {
        cap
    }
}

fn strip_prefix<'a>(s: &'a [char], p: &str) -> (r: Option<&'a [char]>)
    ensures
        match r {
            Some(v) => after_prefix(s@, p@) == Some(v@),
            None => after_prefix(s@, p@) is None,
        },
{
    let q: Vec<char> = chars_of(p);
    if starts_with_text(s, p) {
        let v = slice_subrange(s, q.len(), s.len());
        assert(v@ =~= s@.skip(q.len() as int));
        Some(v)
    } else {
        None
    }
}

/// Where a request for a path in the folder is sent.
pub fn route_fetch(t: &Ticked, r: &Request, naming: Naming, decoded: &str) -> (route: Route)
    ensures
        route@ == fetch_route(t, r@, naming, decoded@),
{
    let way: Vec<String> = match safe_join(decoded, naming.windows) {
        None => {
            return Route::Forbidden;
        },
        Some(w) => w,
    };
    let chars: Vec<char> = chars_of(decoded);
    let slash: [char; 1] = ['/'];
    assert(slash@ =~= seq!['/']);
    let rel: &[char] = strip_start(chars.as_slice(), slash.as_slice());
    let k: usize = find_char(rel, '/');
    let first: &[char] = slice_subrange(rel, 0, k);
    assert(first@ =~= first_step(decoded@));
    let name: String = string_of(first);
    let low: Vec<char> = lowered(first);
    let handed_in: bool = is_text(first, "handed-in") || (naming.any_case && is_text(
        low.as_slice(),
        "handed-in",
    ));
    if handed_in || (first.len() > 0 && first[0] == '.') || !is_allowed(t, name.as_str()) {
        return Route::NotFound;
    }
    let q: Vec<char> = chars_of(r.query.as_str());
    Route::Fetch {
        way,
        head_only: same_text(r.method.as_str(), "HEAD"),
        download: contains_text(q.as_slice(), "dl=1"),
    }
}

/// Where a request to view a file is sent.
pub fn route_view(t: &Ticked, naming: Naming, name: String) -> (route: Route)
    ensures
        route@ == view_route(t, naming, name@),
{
    let chars: Vec<char> = chars_of(name.as_str());
    if !one_of('/', chars.as_slice()) && !is_stray(chars.as_slice(), naming.windows)
        && is_allowed(t, name.as_str()) {
        Route::View { name }
    } else {
        Route::NotFound
    }
}

/// Where a request is sent, given whether its host is somebody else's and
/// whether the device is paused.
pub fn route(
    t: &Ticked,
    r: &Request,
    naming: Naming,
    foreign: bool,
    blocked: bool,
) -> (route: Route)
    ensures
        route@ == route_of(t, r@, naming, foreign, blocked),
{
    if foreign {
        return Route::Captive;
    }
    let post: bool = same_text(r.method.as_str(), "POST");
    if blocked {
        return Route::Paused {
            drain: if post {
                cap_len(r.length, NOTE_BODY_CAP)
            } else {
                0
            },
        };
    }
    let path: Vec<char> = chars_of(r.path.as_str());
    let query: Vec<char> = chars_of(r.query.as_str());
    if post {
        if is_text(path.as_slice(), "/note") {
            return Route::Note { body: cap_len(r.length, NOTE_BODY_CAP) };
        }
        if is_text(path.as_slice(), "/name") {
            return Route::Name { body: cap_len(r.length, NAME_BODY_CAP) };
        }
        if is_text(path.as_slice(), "/handin") {
            return Route::HandIn;
        }
        return Route::NothingSent;
    }
    if is_text(path.as_slice(), "/") {
        if contains_text(query.as_slice(), "list") {
            return Route::PlainList;
        }
        let done: Option<String> = match strip_prefix(query.as_slice(), "done=") {
            Some(d) => Some(string_of(d)),
            None => None,
        };
        return Route::ClassPage { done, rename: contains_text(query.as_slice(), "rename=1") };
    }
    if is_text(path.as_slice(), "/files") {
        return Route::FileFrame;
    }
    match strip_prefix(path.as_slice(), "/view/") {
        Some(rest) => {
            let rest_text: String = string_of(rest);
            let name: String = percent_decode(rest_text.as_str());
            route_view(t, naming, name)
        },
        None => {
            let decoded: String = percent_decode(r.path.as_str());
            route_fetch(t, r, naming, decoded.as_str())
        },
    }
}

/// What is posted is taken for what it is: a note, a name, work that is handed in, each
/// by its path, with as much of its body as is read; a post to anywhere else is nothing.
pub proof fn law_what_is_posted_is_taken(t: &Ticked, r: RequestModel, naming: Naming)
    requires
        r.method == "POST"@,
        r.length >= 0,
    ensures
        ({
            let way = route_of(t, r, naming, false, false);
            &&& way is HandIn <==> r.path == "/handin"@
            &&& r.path == "/note"@ ==> (way matches RouteModel::Note { body } && body <= r.length
                && (r.length <= 65536 ==> body == r.length) && (r.length > 65536 ==> body
                == 65536))
            &&& r.path == "/name"@ ==> (way matches RouteModel::Name { body } && body <= r.length
                && (r.length <= 4096 ==> body == r.length) && (r.length > 4096 ==> body == 4096))
            &&& r.path != "/handin"@ && r.path != "/note"@ && r.path != "/name"@
                ==> way is NothingSent
        }),
{
    reveal_strlit("/note");
    reveal_strlit("/name");
    reveal_strlit("/handin");
    assert("/note"@[2] == 'o' && "/name"@[2] == 'a');
}

/// Pages lead where they say: the front page, the list of files inside it, the front page
/// again once something was done or another name is to be given, and the list that another
/// copy of this program asks for. A probe for another host is led to the front page, also
/// from a device that is paused.
pub proof fn law_pages_lead_where_they_say(
    t: &Ticked,
    r: RequestModel,
    naming: Naming,
    blocked: bool,
    tag: Seq<char>,
)
    requires
        r.method == "GET"@,
    ensures
        route_of(t, r, naming, true, blocked) is Captive,
        ({
            let way = route_of(t, r, naming, false, false);
            &&& r.path == "/files"@ ==> way is FileFrame
            &&& r.path == "/"@ && r.query == "list"@ ==> way is PlainList
            &&& r.path == "/"@ && r.query.len() == 0 ==> way == (RouteModel::ClassPage {
                done: None,
                rename: false,
            })
            &&& r.path == "/"@ && r.query == "rename=1"@ ==> way == (RouteModel::ClassPage {
                done: None,
                rename: true,
            })
            &&& r.path == "/"@ && r.query == "done="@ + tag && !holds("done="@ + tag, "list"@) ==> (
            way matches RouteModel::ClassPage { done, rename } && done == Some(tag) && rename
                == holds("done="@ + tag, "rename=1"@))
        }),
{
    reveal_strlit("GET");
    reveal_strlit("POST");
    reveal_strlit("/");
    reveal_strlit("/files");
    reveal_strlit("list");
    reveal_strlit("rename=1");
    reveal_strlit("done=");
    assert("GET"@.len() != "POST"@.len());
    let none = Seq::<char>::empty();
    lemma_first_from(r.query, "list"@, 0);
    lemma_first_from(r.query, "rename=1"@, 0);
    if r.query == "list"@ {
        assert("list"@.subrange(0, 4) =~= "list"@);
        assert(occurs_at(r.query, "list"@, 0));
    }
    if r.query == "rename=1"@ {
        let q = "rename=1"@;
        assert(q.subrange(0, 8) =~= q);
        assert(occurs_at(q, q, 0));
        if holds(q, "list"@) {
            let i = choose|i: int| 0 <= i && occurs_at(q, "list"@, i);
            assert(q.subrange(i, i + 4)[0] == q[i]);
            assert(false);
        }
        if begins_with(q, "done="@) {
            assert(q.subrange(0, 5)[0] == q[0]);
            assert(false);
        }
    }
    let d = "done="@ + tag;
    assert(d.subrange(0, 5) =~= "done="@);
    assert(d.skip(5) =~= tag);
}

/// A paused device is answered with the paused page and nothing else, whatever
/// it asks for and whatever it sends.
pub proof fn law_paused_device_gets_nothing(t: &Ticked, r: RequestModel, naming: Naming)
    ensures
        route_of(t, r, naming, false, true) is Paused,
{
}

/// Handed-in work is never handed out, nor is anything hidden or unticked: what
/// can be fetched lies under a first step that is none of these. The folder
/// itself is the one thing that can be fetched with no step at all.
pub proof fn law_handed_in_work_is_never_served(
    t: &Ticked,
    r: RequestModel,
    naming: Naming,
    foreign: bool,
    blocked: bool,
)
    ensures
        route_of(t, r, naming, foreign, blocked) matches RouteModel::Fetch { way, .. }
            ==> way.len() > 0 ==> {
            &&& !for_handed_in(way[0], naming.any_case)
            &&& way[0][0] != '.'
            &&& may_have(t, way[0])
        },
        route_of(t, r, naming, foreign, blocked) matches RouteModel::View { name } ==> {
            &&& may_have(t, name)
            &&& !name.contains('/')
            &&& !strays(name, naming.windows)
        },
{
    let decoded = lossy(unescaped(r.path));
    lemma_first_named(decoded);
}

proof fn lemma_files_stand_for_themselves()
    ensures
        escaped_bytes(encode_utf8("files"@)) == "files"@,
{
    reveal_strlit("files");
    let s = "files"@;
    assert(is_ascii_chars(s));
    is_ascii_chars_encode_utf8(s);
    let b = encode_utf8(s);
    assert(b =~= seq![0x66u8, 0x69, 0x6c, 0x65, 0x73]);
    reveal_with_fuel(escaped_bytes, 6);
    assert(escaped_bytes(b) =~= s);
}

/// What can be seen in the list can be fetched: a request for a file by its name, put into
/// a link, is sent to that file, whatever its name holds that the system takes for part of
/// a name. The one name with another meaning is that of the list itself.
pub proof fn law_what_is_seen_can_be_fetched(
    t: &Ticked,
    r: RequestModel,
    naming: Naming,
    name: Seq<char>,
)
    requires
        in_sight(t, name, true),
        name.len() > 0,
        name != "files"@,
        !name.contains('/'),
        !strays(name, naming.windows),
        !for_handed_in(name, naming.any_case),
        r.method != "POST"@,
        r.path == seq!['/'] + escaped_bytes(encode_utf8(name)),
    ensures
        route_of(t, r, naming, false, false) == (RouteModel::Fetch {
            way: seq![name],
            head_only: r.method == "HEAD"@,
            download: holds(r.query, "dl=1"@),
        }),
{
    let link = escaped_bytes(encode_utf8(name));
    reveal_strlit("/");
    reveal_strlit("/files");
    reveal_strlit("files");
    reveal_strlit("/view/");
    reveal_strlit(".");
    reveal_strlit("..");
    lemma_slash_and_link(name);
    lemma_way_to_one(name, naming.windows);
    law_link_leads_back(name);
    assert("/"@ =~= seq!['/']);
    if r.path == "/"@ {
        assert(link =~= Seq::empty());
        law_link_leads_back(Seq::empty());
        assert(escaped_bytes(encode_utf8(Seq::empty())) =~= link);
        assert(false);
    }
    if r.path == "/files"@ {
        assert(link =~= r.path.skip(1));
        assert(link =~= "files"@);
        lemma_files_stand_for_themselves();
        law_link_leads_back("files"@);
        assert(false);
    }
    if begins_with(r.path, "/view/"@) {
        assert("/view/"@[5] == r.path[5]);
        lemma_escaped_plain(encode_utf8(name), 4);
        assert(false);
    }
}

/// What can be seen in the list can be read in place: a request to view a file by its
/// name, put into a link, is sent to the viewer of that file.
pub proof fn law_what_is_seen_can_be_viewed(
    t: &Ticked,
    r: RequestModel,
    naming: Naming,
    name: Seq<char>,
)
    requires
        in_sight(t, name, true),
        !name.contains('/'),
        !strays(name, naming.windows),
        r.method != "POST"@,
        r.path == "/view/"@ + escaped_bytes(encode_utf8(name)),
    ensures
        route_of(t, r, naming, false, false) == (RouteModel::View { name }),
{
    let link = escaped_bytes(encode_utf8(name));
    reveal_strlit("/");
    reveal_strlit("/files");
    reveal_strlit("/view/");
    assert(r.path[1] == 'v');
    assert("/files"@[1] == 'f');
    assert(r.path.subrange(0, 6) =~= "/view/"@);
    assert(r.path.skip(6) =~= link);
    assert(after_prefix(r.path, "/view/"@) == Some(link));
    law_link_leads_back(name);
}

/// Whether a connection may be used again after this answer. What was posted or
/// paused or sent elsewhere ends it: its body has been read, and a clean start is worth
/// more than a handshake saved.
pub open spec fn stays_open(r: Route, keep: bool) -> bool {
    match r {
        Route::Captive => false,
        Route::Paused { .. } => false,
        Route::Note { .. } => false,
        Route::Name { .. } => false,
        Route::HandIn => false,
        Route::NothingSent => false,
        _ => keep,
    }
}

/// Whether a connection may be used again after this answer.
pub fn keeps_open(r: &Route, keep: bool) -> (b: bool)
    ensures
        b == stays_open(*r, keep),
{
    match r {
        Route::Captive | Route::HandIn | Route::NothingSent => false,
        Route::Paused { .. } | Route::Note { .. } | Route::Name { .. } => false,
        _ => keep,
    }
}

/// What is sent of what lies at the end of a path.
#[derive(Clone, Copy, PartialEq, Eq, Structural, Debug)]
pub enum Answer {
    NotFound,
    /// The names in a folder.
    Listing,
    /// How long a file is.
    Length,
    /// The file.
    File,
}

/// What is sent of what lies at the end of a path.
pub fn fetch_answer(exists_there: bool, folder: bool, head_only: bool) -> (a: Answer)
    ensures
        a == (if !exists_there {
            Answer::NotFound
        } else if folder {
            Answer::Listing
        } else if head_only {
            Answer::Length
        } else {
            Answer::File
        }),
{
    if !exists_there {
        Answer::NotFound
    } else if folder {
        Answer::Listing
    } else if head_only {
        Answer::Length
    } else {
        Answer::File
    }
}

// ------------------------------------------------------------- what a head says

/// A word of a request: not empty, and without white space.
pub open spec fn one_word(w: Seq<char>) -> bool {
    w.len() > 0 && forall|i: int| 0 <= i < w.len() ==> !is_space(#[trigger] w[i])
}

/// The first line of a request says what is to be done, with what, and how: the method, the
/// path, what follows its question mark if it has one, and the version.
pub proof fn law_a_request_says_what_it_wants(
    method: Seq<char>,
    path: Seq<char>,
    query: Seq<char>,
    version: Seq<char>,
    rest: Seq<char>,
)
    requires
        one_word(method),
        one_word(path),
        one_word(path + seq!['?'] + query),
        one_word(version),
        !path.contains('?'),
    ensures
        ({
            let r = request_in(method + seq![' '] + path + seq![' '] + version + seq!['\r', '\n'] + rest);
            r.method == method && r.path == path && r.query.len() == 0
        }),
        ({
            let r = request_in(
                method + seq![' '] + (path + seq!['?'] + query) + seq![' '] + version + seq![
                    '\r',
                    '\n',
                ] + rest,
            );
            r.method == method && r.path == path && r.query == query
        }),
        version == "HTTP/1.0"@ ==> request_word(
            method + seq![' '] + path + seq![' '] + version + seq!['\r', '\n'] + rest,
            2,
            "HTTP/1.1"@,
        ) == version,
{
    lemma_three_words(method, path, version, rest);
    lemma_three_words(method, path + seq!['?'] + query, version, rest);
    law_a_text_is_cut_where_it_should(path, '?', query);
}

proof fn lemma_three_words(a: Seq<char>, b: Seq<char>, c: Seq<char>, rest: Seq<char>)
    requires
        one_word(a),
        one_word(b),
        one_word(c),
    ensures
        ({
            let text = a + seq![' '] + b + seq![' '] + c + seq!['\r', '\n'] + rest;
            &&& lines(text).len() > 0
            &&& words(lines(text)[0]) == seq![a, b, c]
        }),
{
    let line = a + seq![' '] + b + seq![' '] + c;
    assert forall|i: int| 0 <= i < line.len() implies line[i] != '\n' by {
        if i < a.len() {
            assert(!is_space(a[i]));
        } else if i == a.len() {
        } else if i < a.len() + 1 + b.len() {
            assert(!is_space(b[i - a.len() - 1]));
        } else if i == a.len() + 1 + b.len() {
        } else {
            assert(!is_space(c[i - a.len() - b.len() - 2]));
        }
    }
    assert(!line.contains('\n'));
    assert(line.last() == c[c.len() - 1]);
    assert(!is_space(c[c.len() - 1]));
    law_lines_end_either_way(line, rest);
    lemma_first_word(a, ' ', b + seq![' '] + c);
    assert(line =~= a + seq![' '] + (b + seq![' '] + c));
    lemma_first_word(b, ' ', c);
    lemma_only_word(c);
    assert(seq![a] + (seq![b] + seq![c]) =~= seq![a, b, c]);
}

proof fn lemma_line_value_at(ls: Seq<Seq<char>>, i: int, k: int, p: Seq<char>, v: Seq<char>)
    requires
        0 <= i <= k < ls.len(),
        forall|j: int| i <= j < k ==> !begins_with(lower_all(#[trigger] ls[j]), p),
        begins_with(lower_all(ls[k]), p),
        cut(ls[k], ':') matches Some((_, w)) && trimmed(w) == v,
    ensures
        line_value_from(ls, i, p) == Some(v),
    decreases k - i,
{
    if i < k {
        assert(!begins_with(lower_all(ls[i]), p));
        lemma_line_value_at(ls, i + 1, k, p, v);
    }
}

proof fn lemma_named_line(name: Seq<char>, v: Seq<char>, low: Seq<char>)
    requires
        lower_all(name) == low,
        !low.contains(':'),
        v.len() > 0,
        !is_space(v[0]) && !is_space(v.last()),
    ensures
        begins_with(lower_all(name + seq![':', ' '] + v), low + seq![':']),
        cut(name + seq![':', ' '] + v, ':') == Some((name, seq![' '] + v)),
        trimmed(seq![' '] + v) == v,
{
    let l = name + seq![':', ' '] + v;
    assert(!name.contains(':')) by {
        if name.contains(':') {
            let i = choose|i: int| 0 <= i < name.len() && name[i] == ':';
            assert(lower_all(name)[i] == ':');
        }
    }
    assert(l =~= name + seq![':'] + (seq![' '] + v));
    law_a_text_is_cut_where_it_should(name, ':', seq![' '] + v);
    assert(lower_all(l).subrange(0, low.len() as int + 1) =~= low + seq![':']) by {
        assert forall|i: int| 0 <= i < low.len() implies lower_all(l)[i] == low[i] by {
            assert(l[i] == name[i]);
            assert(lower_all(name)[i] == low[i]);
        }
    }
    law_trimming_takes_what_stands_round(seq![' '], v, Seq::empty());
    assert(seq![' '] + v + Seq::<char>::empty() =~= seq![' '] + v);
}

/// A header is read wherever it stands, in whatever case its name is written: the part
/// that is asked for, the host and the length of what follows are those on the first line
/// that names them.
pub proof fn law_headers_are_read_wherever_they_stand(
    text: Seq<char>,
    k: int,
    name: Seq<char>,
    v: Seq<char>,
)
    requires
        0 <= k < lines(text).len(),
        lines(text)[k] == name + seq![':', ' '] + v,
        v.len() > 0,
        !is_space(v[0]) && !is_space(v.last()),
    ensures
        lower_all(name) == seq!['r', 'a', 'n', 'g', 'e'] && (forall|j: int|
            0 <= j < k ==> !begins_with(lower_all(#[trigger] lines(text)[j]), "range:"@))
            ==> request_in(text).range == Some(v),
        lower_all(name) == seq!['h', 'o', 's', 't'] && (forall|j: int|
            0 <= j < k ==> !begins_with(lower_all(#[trigger] lines(text)[j]), "host:"@))
            ==> request_in(text).host == Some(v),
        lower_all(name) == seq![
            'c',
            'o',
            'n',
            't',
            'e',
            'n',
            't',
            '-',
            'l',
            'e',
            'n',
            'g',
            't',
            'h',
        ] && (forall|j: int|
            0 <= j < k ==> !begins_with(lower_all(#[trigger] lines(text)[j]), "content-length:"@))
            ==> (unsigned(v, 10, usize::MAX as int) matches Some(n) ==> request_in(text).length
            == n),
{
    let ls = lines(text);
    let range = seq!['r', 'a', 'n', 'g', 'e'];
    let host = seq!['h', 'o', 's', 't'];
    let length = seq!['c', 'o', 'n', 't', 'e', 'n', 't', '-', 'l', 'e', 'n', 'g', 't', 'h'];
    reveal_strlit("range:");
    reveal_strlit("host:");
    reveal_strlit("content-length:");
    assert("range:"@ =~= range + seq![':']);
    assert("host:"@ =~= host + seq![':']);
    assert("content-length:"@ =~= length + seq![':']);
    if lower_all(name) == range && (forall|j: int|
        0 <= j < k ==> !begins_with(lower_all(#[trigger] ls[j]), "range:"@)) {
        lemma_named_line(name, v, range);
        lemma_line_value_at(ls, 0, k, "range:"@, v);
    }
    if lower_all(name) == host && (forall|j: int|
        0 <= j < k ==> !begins_with(lower_all(#[trigger] ls[j]), "host:"@)) {
        lemma_named_line(name, v, host);
        lemma_line_value_at(ls, 0, k, "host:"@, v);
    }
    if lower_all(name) == length && (forall|j: int|
        0 <= j < k ==> !begins_with(lower_all(#[trigger] ls[j]), "content-length:"@)) {
        lemma_named_line(name, v, length);
        lemma_line_value_at(ls, 0, k, "content-length:"@, v);
    }
}

/// A header that is on no line is not there.
pub proof fn law_what_is_not_asked_is_not_read(text: Seq<char>)
    ensures
        (forall|j: int|
            0 <= j < lines(text).len() ==> !begins_with(lower_all(#[trigger] lines(text)[j]), "range:"@))
            ==> request_in(text).range is None,
        (forall|j: int|
            0 <= j < lines(text).len() ==> !begins_with(lower_all(#[trigger] lines(text)[j]), "host:"@))
            ==> request_in(text).host is None,
        (forall|j: int|
            0 <= j < lines(text).len() ==> !begins_with(
                lower_all(#[trigger] lines(text)[j]),
                "content-length:"@,
            )) ==> request_in(text).length == 0,
{
    lemma_no_line_value(lines(text), 0, "range:"@);
    lemma_no_line_value(lines(text), 0, "host:"@);
    lemma_no_line_value(lines(text), 0, "content-length:"@);
}

proof fn lemma_no_line_value(ls: Seq<Seq<char>>, i: int, p: Seq<char>)
    requires
        0 <= i,
    ensures
        (forall|j: int| i <= j < ls.len() ==> !begins_with(lower_all(#[trigger] ls[j]), p))
            ==> line_value_from(ls, i, p) is None,
    decreases ls.len() - i,
{
    if i < ls.len() {
        lemma_no_line_value(ls, i + 1, p);
    }
}

/// A connection is kept where nobody asked for it to be closed: whoever does, in whatever
/// case and on whatever line, is heard; and an old client, which knows no better, has it
/// closed unless it asks for it to be kept.
pub proof fn law_a_connection_is_kept_unless_asked(text: Seq<char>, k: int, name: Seq<char>)
    ensures
        0 <= k < lines(text).len() && lines(text)[k] == name + seq![':', ' '] + "close"@ && lower_all(
            name,
        ) == "connection"@ ==> !request_in(text).keep,
        (forall|j: int|
            0 <= j < lines(text).len() ==> !begins_with(
                lower_all(#[trigger] lines(text)[j]),
                "connection:"@,
            )) && request_word(text, 2, "HTTP/1.1"@) == "HTTP/1.1"@ ==> request_in(text).keep,
        request_word(text, 2, "HTTP/1.1"@) == "HTTP/1.0"@ && !holds(
            lower_all(text),
            "connection: keep-alive"@,
        ) ==> !request_in(text).keep,
        (forall|j: int| 0 <= j < lines(text).len() ==> !holds(lower_all(#[trigger] lines(text)[j]), "close"@))
            && holds(lower_all(text), "connection: keep-alive"@) ==> request_in(text).keep,
{
    reveal_strlit("close");
    reveal_strlit("connection");
    reveal_strlit("connection:");
    reveal_strlit("HTTP/1.0");
    reveal_strlit("HTTP/1.1");
    assert("HTTP/1.0"@[7] == '0' && "HTTP/1.1"@[7] == '1');
    assert("connection:"@ =~= "connection"@ + seq![':']);
    let close = "close"@;
    let l = name + seq![':', ' '] + close;
    if 0 <= k < lines(text).len() && lines(text)[k] == l && lower_all(name) == "connection"@ {
        lemma_named_line(name, close, "connection"@);
        let low = lower_all(l);
        let n = name.len() as int + 2;
        assert(low.subrange(n, n + 5) =~= close) by {
            assert forall|i: int| 0 <= i < 5 implies low[n + i] == close[i] by {
                assert(l[n + i] == close[i]);
            }
        }
        assert(occurs_at(low, close, n));
        lemma_first_from(low, close, 0);
        assert(asks_close(lines(text)[k]));
    }
}

/// Enough of a head has been read at its empty line, or at eight kibibytes, and not before.
pub proof fn law_a_head_ends_at_its_empty_line(head: Seq<u8>)
    ensures
        head.len() >= 8192 ==> head_ends(head),
        head_ends(head + seq![13u8, 10, 13, 10]),
        head.len() < 8192 && head_ends(head) ==> head.len() >= 4 && head.skip(head.len() - 4)
            == seq![13u8, 10, 13, 10],
{
    if head.len() < 8192 && head_ends(head) {
        assert(head.skip(head.len() - 4) =~= seq![13u8, 10, 13, 10]);
    }
}

/// The folder of handed-in work is not there for anybody, nor is what lies in it: under its
/// own name always, and in any spelling where the system does not tell them apart.
pub proof fn law_the_folder_of_work_is_not_there(
    t: &Ticked,
    r: RequestModel,
    naming: Naming,
    decoded: Seq<char>,
)
    requires
        ({
            let first = first_step(decoded);
            let own = seq!['h', 'a', 'n', 'd', 'e', 'd', '-', 'i', 'n'];
            first == own || (naming.any_case && lower_all(first) == own)
        }),
    ensures
        fetch_route(t, r, naming, decoded) is NotFound || fetch_route(t, r, naming, decoded) is Forbidden,
{
    reveal_strlit("handed-in");
    assert("handed-in"@ =~= seq!['h', 'a', 'n', 'd', 'e', 'd', '-', 'i', 'n']);
}

/// The first step of a path is what stands before its second slash, however many slashes it
/// begins with.
pub proof fn law_the_first_step_of_a_path(slashes: Seq<char>, step: Seq<char>, rest: Seq<char>)
    requires
        forall|i: int| 0 <= i < slashes.len() ==> #[trigger] slashes[i] == '/',
        step.len() > 0,
        !step.contains('/'),
    ensures
        first_step(slashes + step) == step,
        first_step(slashes + (step + seq!['/'] + rest)) == step,
{
    let with = step + seq!['/'] + rest;
    assert(step[0] != '/');
    assert(with[0] == step[0]);
    lemma_slashes_go(slashes, step);
    lemma_slashes_go(slashes, with);
    law_a_text_is_cut_where_it_should(step, '/', rest);
}

proof fn lemma_slashes_go(slashes: Seq<char>, s: Seq<char>)
    requires
        forall|i: int| 0 <= i < slashes.len() ==> #[trigger] slashes[i] == '/',
        s.len() > 0,
        s[0] != '/',
    ensures
        stripped_start(slashes + s, seq!['/']) == s,
    decreases slashes.len(),
{
    let set = seq!['/'];
    assert(set[0] == '/');
    if slashes.len() > 0 {
        assert(slashes[0] == '/');
        assert(set.contains('/'));
        assert((slashes + s).skip(1) =~= slashes.skip(1) + s);
        assert forall|i: int| 0 <= i < slashes.skip(1).len() implies #[trigger] slashes.skip(1)[i]
            == '/' by {
            assert(slashes.skip(1)[i] == slashes[i + 1]);
        }
        lemma_slashes_go(slashes.skip(1), s);
    } else {
        assert(slashes + s =~= s);
        assert(!set.contains(s[0]));
    }
}

/// A file is sent to be kept where the link says so, and only its head where only that was
/// asked for.
pub proof fn law_a_link_says_what_is_sent(
    t: &Ticked,
    r: RequestModel,
    naming: Naming,
    decoded: Seq<char>,
)
    ensures
        fetch_route(t, r, naming, decoded) matches RouteModel::Fetch { head_only, download, .. } ==> {
            &&& head_only <==> r.method == seq!['H', 'E', 'A', 'D']
            &&& r.query == seq!['d', 'l', '=', '1'] ==> download
            &&& r.query.len() == 0 ==> !download
        },
{
    reveal_strlit("HEAD");
    reveal_strlit("dl=1");
    assert("HEAD"@ =~= seq!['H', 'E', 'A', 'D']);
    let dl = "dl=1"@;
    assert(dl =~= seq!['d', 'l', '=', '1']);
    lemma_first_from(r.query, dl, 0);
    if r.query == seq!['d', 'l', '=', '1'] {
        assert(r.query.subrange(0, 4) =~= dl);
        assert(occurs_at(r.query, dl, 0));
    }
}

} // verus!
