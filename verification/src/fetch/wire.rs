//! What is asked of the other machine, and the head of what it answers.

use crate::number::{decimal, law_decimal_reads_back, parse_decimal, push_decimal, unsigned};
use crate::serve::answers::range_text;
use crate::serve::request::{line_value_from, request_in};
use crate::text::{
    begins_with, char_at, chars_of, cut_last, find_char, is_space, last_char_at, lemma_char_at_is,
    lemma_first_word, lemma_lines_first, lemma_nothing_to_trim, lines, lower_all, lowered,
    rsplit_once, same_text, split_words, starts_with_text, string_of, texts, trim, trimmed,
    trimmed_start, views, words,
};
use vstd::prelude::*;
use vstd::slice::slice_subrange;

verus! {

/// Where a file is.
#[derive(Debug)]
pub struct Url {
    pub host: String,
    pub port: u16,
    pub path: String,
}

/// Where a file is, as plain text and a number.
pub struct UrlModel {
    pub host: Seq<char>,
    pub port: int,
    pub path: Seq<char>,
}

impl View for Url {
    type V = UrlModel;

    open spec fn view(&self) -> UrlModel {
        UrlModel { host: self.host@, port: self.port as int, path: self.path@ }
    }
}

/// What a web address means: the host up to the first slash, with a port behind
/// its last colon or port 80, and the path from that slash on.
pub open spec fn url_of(s: Seq<char>) -> Option<UrlModel> {
    if !begins_with(s, "http://"@) {
        None
    } else {
        let rest = s.skip("http://"@.len() as int);
        let k = char_at(rest, '/');
        let hostport = rest.take(k);
        let path = if k < rest.len() {
            rest.skip(k)
        } else {
            "/"@
        };
        match cut_last(hostport, ':') {
            Some((h, p)) => match unsigned(p, 10, 65535) {
                Some(n) => Some(UrlModel { host: h, port: n, path }),
                None => None,
            },
            None => Some(UrlModel { host: hostport, port: 80, path }),
        }
    }
}

/// What an optional place holds.
pub open spec fn url_view(u: Option<Url>) -> Option<UrlModel> {
    match u {
        Some(u) => Some(u@),
        None => None,
    }
}

/// Read a web address.
pub fn parse_url(s: &str) -> (u: Option<Url>)
    ensures
        url_view(u) == url_of(s@),
{
    let c: Vec<char> = chars_of(s);
    if !starts_with_text(c.as_slice(), "http://") {
        return None;
    }
    proof {
        reveal_strlit("http://");
    }
    let rest = slice_subrange(c.as_slice(), 7, c.len());
    assert(rest@ =~= s@.skip(7));
    let k: usize = find_char(rest, '/');
    let hostport = slice_subrange(rest, 0, k);
    assert(hostport@ =~= rest@.take(k as int));
    let path: String = if k < rest.len() {
        let p = slice_subrange(rest, k, rest.len());
        assert(p@ =~= rest@.skip(k as int));
        string_of(p)
    } else {
        "/".to_owned()
    };
    match rsplit_once(hostport, ':') {
        Some((h, p)) => match parse_decimal(p, 65535) {
            Some(n) => Some(Url { host: string_of(h), port: n as u16, path }),
            None => None,
        },
        None => Some(Url { host: string_of(hostport), port: 80, path }),
    }
}

/// Where the fingerprints of a file are.
pub fn prints_url(u: &Url) -> (r: Url)
    ensures
        r@ == (UrlModel { path: u.path@ + ".sums"@, ..u@ }),
{
    let mut path: String = u.path.clone();
    path.append(".sums");
    Url { host: u.host.clone(), port: u.port, path }
}

/// What stands behind the last slash of a path.
pub open spec fn last_step(path: Seq<char>) -> Seq<char> {
    match cut_last(path, '/') {
        Some((_, name)) => name,
        None => path,
    }
}

/// The name under which a file is saved where no other is given.
pub fn default_name(u: &Url) -> (s: String)
    ensures
        s@ == last_step(u.path@),
{
    let c: Vec<char> = chars_of(u.path.as_str());
    match rsplit_once(c.as_slice(), '/') {
        Some((_, name)) => string_of(name),
        None => u.path.clone(),
    }
}

/// The head of a request for a file, or for the part between two bytes.
pub open spec fn ask(path: Seq<char>, host: Seq<char>, range: Option<(u64, u64)>) -> Seq<char> {
    "GET "@ + path + " HTTP/1.1\r\nHost: "@ + host
        + "\r\nConnection: keep-alive\r\nAccept-Encoding: identity\r\n"@ + (match range {
        Some((a, b)) => "Range: "@ + range_text(a as int, b as int) + "\r\n"@,
        None => Seq::empty(),
    }) + "\r\n"@
}

/// The head of a request for a file, or for the part between two bytes.
pub fn request_text(u: &Url, range: Option<(u64, u64)>) -> (s: String)
    ensures
        s@ == ask(u.path@, u.host@, range),
{
    let mut s = String::new();
    s.append("GET ");
    s.append(u.path.as_str());
    s.append(" HTTP/1.1\r\nHost: ");
    s.append(u.host.as_str());
    s.append("\r\nConnection: keep-alive\r\nAccept-Encoding: identity\r\n");
    if let Some((a, b)) = range {
        s.append("Range: ");
        s.append("bytes=");
        push_decimal(&mut s, a);
        s.append("-");
        push_decimal(&mut s, b);
        s.append("\r\n");
    }
    s.append("\r\n");
    assert(s@ =~= ask(u.path@, u.host@, range));
    s
}

/// The head of an answer: its status, the length of what follows, and the length
/// of the whole file where the answer is a part of it.
#[derive(Clone, Copy, Debug, PartialEq, Eq, Structural)]
pub struct Head {
    pub status: u16,
    pub len: u64,
    pub total: Option<u64>,
}

/// A number, or zero where there is none.
pub open spec fn number_or_zero(s: Seq<char>) -> int {
    match unsigned(trimmed(s), 10, u64::MAX as int) {
        Some(n) => n,
        None => 0,
    }
}

/// The status on the first line of an answer, or zero.
pub open spec fn status_of(line: Seq<char>) -> int {
    let w = words(line);
    if w.len() > 1 {
        match unsigned(w[1], 10, 65535) {
            Some(n) => n,
            None => 0,
        }
    } else {
        0
    }
}

/// Whether a line, as it was read, ends the head.
pub open spec fn ends_head(line: Seq<char>) -> bool {
    line.len() == 0 || line == "\r\n"@ || line == "\n"@
}

/// What a header line makes of the lengths known so far.
pub open spec fn with_header(line: Seq<char>, len: int, total: Option<int>) -> (int, Option<int>) {
    let low = lower_all(line);
    (
        if begins_with(low, "content-length:"@) {
            number_or_zero(low.skip("content-length:"@.len() as int))
        } else {
            len
        },
        if begins_with(low, "content-range:"@) {
            Some(number_or_zero(last_step(low.skip("content-range:"@.len() as int))))
        } else {
            total
        },
    )
}

/// What the header lines from `i` on make of the lengths known so far.
pub open spec fn headers_from(
    ls: Seq<Seq<char>>,
    i: int,
    len: int,
    total: Option<int>,
) -> (int, Option<int>)
    decreases ls.len() - i,
{
    if i >= ls.len() || ends_head(ls[i]) {
        (len, total)
    } else {
        let (l, t) = with_header(ls[i], len, total);
        headers_from(ls, i + 1, l, t)
    }
}

/// What an optional number is.
pub open spec fn opt_int(n: Option<u64>) -> Option<int> {
    match n {
        Some(n) => Some(n as int),
        None => None,
    }
}

/// Whether a head says what the lines of an answer say. The length of the whole
/// file stands for the length of the answer where no part was asked for.
pub open spec fn head_matches(ls: Seq<Seq<char>>, ranged: bool, h: Head) -> bool {
    let (len, total) = headers_from(ls, 1, 0, None);
    &&& h.status == status_of(ls[0])
    &&& opt_int(h.total) == total
    &&& h.len == (if !ranged && total is Some && total.unwrap() > 0 {
        total.unwrap()
    } else {
        len
    })
}

fn number_of(s: &[char]) -> (n: u64)
    ensures
        n == number_or_zero(s@),
{
    match parse_decimal(trim(s), u64::MAX) {
        Some(n) => n,
        None => 0,
    }
}

fn status_in(line: &str) -> (n: u16)
    ensures
        n == status_of(line@),
{
    let c: Vec<char> = chars_of(line);
    let w: Vec<&[char]> = split_words(c.as_slice());
    assert(w.len() == words(line@).len());
    if w.len() > 1 {
        assert(views(w@)[1] == w@[1]@);
        match parse_decimal(w[1], 65535) {
            Some(n) => n as u16,
            None => 0,
        }
    } else {
        0
    }
}

/// Whether a line, as it was read, ends the head.
pub fn is_end_of_head(line: &str) -> (r: bool)
    ensures
        r == ends_head(line@),
{
    line.is_empty() || same_text(line, "\r\n") || same_text(line, "\n")
}

/// Read the head of an answer from its lines, the status line first.
pub fn read_head(ls: &Vec<String>, ranged: bool) -> (h: Head)
    requires
        ls.len() > 0,
    ensures
        head_matches(texts(ls@), ranged, h),
{
    let ghost all = texts(ls@);
    let status: u16 = status_in(ls[0].as_str());
    assert(all[0] == ls@[0]@);
    let mut len: u64 = 0;
    let mut total: Option<u64> = None;
    let mut i: usize = 1;
    while i < ls.len() && !is_end_of_head(ls[i].as_str())
        invariant
            all == texts(ls@),
            1 <= i <= ls.len(),
            headers_from(all, 1, 0, None) == headers_from(all, i as int, len as int, opt_int(total)),
        decreases ls.len() - i,
    {
        assert(all[i as int] == ls@[i as int]@);
        let c: Vec<char> = chars_of(ls[i].as_str());
        let low: Vec<char> = lowered(c.as_slice());
        let ghost (l, t) = with_header(all[i as int], len as int, opt_int(total));
        proof {
            reveal_strlit("content-length:");
            reveal_strlit("content-range:");
        }
        if starts_with_text(low.as_slice(), "content-length:") {
            let v = slice_subrange(low.as_slice(), 15, low.len());
            assert(v@ =~= low@.skip(15));
            len = number_of(v);
        }
        if starts_with_text(low.as_slice(), "content-range:") {
            let v = slice_subrange(low.as_slice(), 14, low.len());
            assert(v@ =~= low@.skip(14));
            let last = match rsplit_once(v, '/') {
                Some((_, n)) => n,
                None => v,
            };
            total = Some(number_of(last));
        }
        assert(l == len && t == opt_int(total));
        i = i + 1;
    }
    proof {
        if i < ls.len() {
            assert(all[i as int] == ls@[i as int]@);
        }
    }
    if !ranged {
        if let Some(t) = total {
            if t > 0 {
                len = t;
            }
        }
    }
    Head { status, len, total }
}

/// What ends a line of a head.
pub open spec fn line_end() -> Seq<char> {
    seq!['\r', '\n']
}

/// A line and what ends it stand first among the lines.
pub proof fn lemma_crlf_line(line: Seq<char>, rest: Seq<char>)
    requires
        forall|i: int| 0 <= i < line.len() ==> #[trigger] line[i] != '\n',
    ensures
        lines(line + line_end() + rest) == seq![line] + lines(rest),
{
    let l = line.push('\r');
    assert(line + line_end() + rest =~= l + seq!['\n'] + rest);
    lemma_lines_first(l, rest);
    assert(l.drop_last() =~= line);
}

spec fn first_line(path: Seq<char>) -> Seq<char> {
    "GET"@ + seq![' '] + (path + seq![' '] + "HTTP/1.1"@)
}

spec fn range_line(range: Seq<char>) -> Seq<char> {
    seq!['R', 'a', 'n', 'g', 'e', ':', ' '] + range
}

proof fn lemma_ask_is(path: Seq<char>, host: Seq<char>, a: u64, b: u64)
    ensures
        ask(path, host, Some((a, b))) == first_line(path) + line_end() + ("Host: "@ + host
            + line_end() + ("Connection: keep-alive"@ + line_end() + ("Accept-Encoding: identity"@
            + line_end() + (range_line(range_text(a as int, b as int)) + line_end() + (Seq::<
            char,
        >::empty() + line_end() + Seq::<char>::empty()))))),
{
    reveal_strlit("GET");
    reveal_strlit("GET ");
    reveal_strlit("HTTP/1.1");
    reveal_strlit("Host: ");
    reveal_strlit(" HTTP/1.1\r\nHost: ");
    reveal_strlit("\r\nConnection: keep-alive\r\nAccept-Encoding: identity\r\n");
    reveal_strlit("Connection: keep-alive");
    reveal_strlit("Accept-Encoding: identity");
    reveal_strlit("Range: ");
    reveal_strlit("\r\n");
    let e = line_end();
    let range = range_text(a as int, b as int);
    assert("GET "@ =~= "GET"@ + seq![' ']);
    assert(" HTTP/1.1\r\nHost: "@ =~= seq![' '] + "HTTP/1.1"@ + e + "Host: "@);
    assert("\r\nConnection: keep-alive\r\nAccept-Encoding: identity\r\n"@ =~= e
        + "Connection: keep-alive"@ + e + "Accept-Encoding: identity"@ + e);
    assert("Range: "@ =~= seq!['R', 'a', 'n', 'g', 'e', ':', ' ']);
    assert("\r\n"@ =~= e);
    lemma_regroup(
        "GET"@,
        path,
        "HTTP/1.1"@,
        e,
        "Host: "@,
        host,
        "Connection: keep-alive"@,
        "Accept-Encoding: identity"@,
        range_line(range),
    );
    assert("Range: "@ + range + "\r\n"@ == range_line(range) + e);
}

proof fn lemma_regroup(
    get: Seq<char>,
    path: Seq<char>,
    version: Seq<char>,
    e: Seq<char>,
    name: Seq<char>,
    host: Seq<char>,
    keep: Seq<char>,
    accept: Seq<char>,
    range: Seq<char>,
)
    ensures
        (get + seq![' ']) + path + (seq![' '] + version + e + name) + host + (e + keep + e + accept
            + e) + (range + e) + e == get + seq![' '] + (path + seq![' '] + version) + e + (name
            + host + e + (keep + e + (accept + e + (range + e + (Seq::<char>::empty() + e + Seq::<
            char,
        >::empty()))))),
{
    assert((get + seq![' ']) + path + (seq![' '] + version + e + name) + host + (e + keep + e
        + accept + e) + (range + e) + e =~= get + seq![' '] + (path + seq![' '] + version) + e + (
    name + host + e + (keep + e + (accept + e + (range + e + (Seq::<char>::empty() + e + Seq::<
        char,
    >::empty()))))));
}

proof fn lemma_range_has_no_space(a: int, b: int)
    requires
        0 <= a,
        0 <= b,
    ensures
        range_text(a, b).len() > 0,
        forall|i: int|
            0 <= i < range_text(a, b).len() ==> !is_space(#[trigger] range_text(a, b)[i]),
{
    reveal_strlit("bytes=");
    reveal_strlit("-");
    let range = range_text(a, b);
    let first = decimal(a);
    let last = decimal(b);
    law_decimal_reads_back(a, a);
    law_decimal_reads_back(b, b);
    assert forall|i: int| 0 <= i < range.len() implies !is_space(#[trigger] range[i]) by {
        if 6 <= i < 6 + first.len() {
            assert(range[i] == first[i - 6]);
        } else if i > 6 + first.len() {
            assert(range[i] == last[i - 7 - first.len()]);
        }
    }
}

spec fn asked_lines(path: Seq<char>, host: Seq<char>, range: Seq<char>) -> Seq<Seq<char>> {
    seq![
        first_line(path),
        "Host: "@ + host,
        "Connection: keep-alive"@,
        "Accept-Encoding: identity"@,
        range_line(range),
        Seq::empty(),
    ]
}

proof fn lemma_asked_lines(path: Seq<char>, host: Seq<char>, a: u64, b: u64)
    requires
        forall|i: int| 0 <= i < path.len() ==> #[trigger] path[i] != '\n',
        forall|i: int| 0 <= i < host.len() ==> #[trigger] host[i] != '\n',
    ensures
        lines(ask(path, host, Some((a, b)))) == asked_lines(
            path,
            host,
            range_text(a as int, b as int),
        ),
{
    let range = range_text(a as int, b as int);
    lemma_ask_is(path, host, a, b);
    lemma_range_has_no_space(a as int, b as int);
    reveal_strlit("GET");
    reveal_strlit("HTTP/1.1");
    reveal_strlit("Host: ");
    reveal_strlit("Connection: keep-alive");
    reveal_strlit("Accept-Encoding: identity");
    let e = line_end();
    let r5 = Seq::<char>::empty() + e + Seq::<char>::empty();
    let r4 = range_line(range) + e + r5;
    let r3 = "Accept-Encoding: identity"@ + e + r4;
    let r2 = "Connection: keep-alive"@ + e + r3;
    let r1 = "Host: "@ + host + e + r2;
    let l0 = first_line(path);
    assert forall|i: int| 0 <= i < l0.len() implies #[trigger] l0[i] != '\n' by {
        if 4 <= i < 4 + path.len() {
            assert(l0[i] == path[i - 4]);
        }
    }
    let l1 = "Host: "@ + host;
    assert forall|i: int| 0 <= i < l1.len() implies #[trigger] l1[i] != '\n' by {
        if 6 <= i {
            assert(l1[i] == host[i - 6]);
        }
    }
    let l4 = range_line(range);
    assert forall|i: int| 0 <= i < l4.len() implies #[trigger] l4[i] != '\n' by {
        if 7 <= i {
            assert(l4[i] == range[i - 7]);
        }
    }
    lemma_crlf_line(l0, r1);
    lemma_crlf_line(l1, r2);
    lemma_crlf_line("Connection: keep-alive"@, r3);
    lemma_crlf_line("Accept-Encoding: identity"@, r4);
    lemma_crlf_line(l4, r5);
    lemma_crlf_line(Seq::empty(), Seq::empty());
    assert(lines(Seq::<char>::empty()) =~= Seq::empty());
    assert(lines(ask(path, host, Some((a, b)))) =~= asked_lines(path, host, range));
}

proof fn lemma_other_header(line: Seq<char>, p: Seq<char>)
    requires
        line.len() > 0,
        p.len() > 0,
        lower_all(line)[0] != p[0],
    ensures
        !begins_with(lower_all(line), p),
{
    if begins_with(lower_all(line), p) {
        assert(lower_all(line).subrange(0, p.len() as int)[0] == lower_all(line)[0]);
    }
}

proof fn lemma_range_value(ls: Seq<Seq<char>>, path: Seq<char>, host: Seq<char>, range: Seq<char>)
    requires
        ls == asked_lines(path, host, range),
        range.len() > 0,
        forall|i: int| 0 <= i < range.len() ==> !is_space(#[trigger] range[i]),
    ensures
        line_value_from(ls, 0, "range:"@) == Some(range),
{
    reveal_strlit("GET");
    reveal_strlit("Host: ");
    reveal_strlit("Connection: keep-alive");
    reveal_strlit("Accept-Encoding: identity");
    reveal_strlit("range:");
    let p = "range:"@;
    lemma_other_header(ls[0], p);
    lemma_other_header(ls[1], p);
    lemma_other_header(ls[2], p);
    lemma_other_header(ls[3], p);
    assert(line_value_from(ls, 0, p) == line_value_from(ls, 1, p));
    assert(line_value_from(ls, 1, p) == line_value_from(ls, 2, p));
    assert(line_value_from(ls, 2, p) == line_value_from(ls, 3, p));
    assert(line_value_from(ls, 3, p) == line_value_from(ls, 4, p));
    let l4 = range_line(range);
    assert(lower_all(l4).subrange(0, p.len() as int) =~= p);
    lemma_char_at_is(l4, ':', 5);
    let value = l4.skip(6);
    assert(value =~= seq![' '] + range);
    assert(value.skip(1) =~= range);
    assert(trimmed_start(value) == trimmed_start(range));
    lemma_nothing_to_trim(range);
}

/// This program's own server reads a request for a part of a file as it was
/// meant: the same path and the same range.
pub proof fn law_request_is_understood(path: Seq<char>, host: Seq<char>, a: u64, b: u64)
    requires
        path.len() > 0,
        forall|i: int| 0 <= i < path.len() ==> !is_space(#[trigger] path[i]) && path[i] != '?',
        forall|i: int| 0 <= i < host.len() ==> #[trigger] host[i] != '\n',
    ensures
        ({
            let r = request_in(ask(path, host, Some((a, b))));
            &&& r.method == "GET"@
            &&& r.path == path
            &&& r.range == Some(range_text(a as int, b as int))
        }),
{
    let text = ask(path, host, Some((a, b)));
    let range = range_text(a as int, b as int);
    lemma_asked_lines(path, host, a, b);
    lemma_range_has_no_space(a as int, b as int);
    lemma_range_value(lines(text), path, host, range);
    reveal_strlit("GET");
    lemma_first_word("GET"@, ' ', path + seq![' '] + "HTTP/1.1"@);
    lemma_first_word(path, ' ', "HTTP/1.1"@);
    let w = words(lines(text)[0]);
    assert(w[0] == "GET"@ && w[1] == path);
    lemma_char_at_is(path, '?', path.len() as int);
}

/// What is said of a text that is not a web address.
pub fn not_an_address(s: &str) -> (r: String)
    ensures
        r@ == "That is not a web address: "@ + s@,
{
    let mut r = String::new();
    r.append("That is not a web address: ");
    r.append(s);
    assert(r@ =~= "That is not a web address: "@ + s@);
    r
}

proof fn lemma_no_such_char(s: Seq<char>, c: char)
    requires
        forall|i: int| 0 <= i < s.len() ==> #[trigger] s[i] != c,
    ensures
        last_char_at(s, c) == -1,
    decreases s.len(),
{
    if s.len() > 0 {
        assert(s[s.len() - 1] != c);
        assert forall|i: int| 0 <= i < s.drop_last().len() implies #[trigger] s.drop_last()[i]
            != c by {
            assert(s[i] != c);
        }
        lemma_no_such_char(s.drop_last(), c);
    }
}

proof fn lemma_last_place(s: Seq<char>, c: char, k: int)
    requires
        0 <= k < s.len(),
        s[k] == c,
        forall|j: int| k < j < s.len() ==> #[trigger] s[j] != c,
    ensures
        last_char_at(s, c) == k,
    decreases s.len(),
{
    if k < s.len() - 1 {
        assert(s[s.len() - 1] != c);
        assert forall|j: int| k < j < s.drop_last().len() implies #[trigger] s.drop_last()[j]
            != c by {
            assert(s[j] != c);
        }
        lemma_last_place(s.drop_last(), c, k);
    }
}

/// A web address means what it says: the host, the port behind the colon or else 80, and
/// the path with its slash; a file is saved under what stands behind the last slash.
pub proof fn law_an_address_means_what_it_says(
    host: Seq<char>,
    port: int,
    folder: Seq<char>,
    name: Seq<char>,
)
    requires
        forall|i: int| 0 <= i < host.len() ==> #[trigger] host[i] != '/' && host[i] != ':',
        0 <= port <= 65535,
        forall|i: int| 0 <= i < name.len() ==> #[trigger] name[i] != '/',
    ensures
        ({
            let path = seq!['/'] + folder + seq!['/'] + name;
            &&& url_of("http://"@ + host + path) == Some(UrlModel { host, port: 80, path })
            &&& url_of("http://"@ + host + seq![':'] + decimal(port) + path) == Some(
                UrlModel { host, port, path },
            )
            &&& url_of("http://"@ + host) == Some(UrlModel { host, port: 80, path: "/"@ })
            &&& last_step(path) == name
        }),
{
    reveal_strlit("http://");
    let p = "http://"@;
    let path = seq!['/'] + folder + seq!['/'] + name;
    let d = decimal(port);
    law_decimal_reads_back(port, 65535);
    lemma_no_such_char(host, ':');

    let s = p + host + path;
    assert(s.subrange(0, 7) =~= p);
    assert(s.skip(7) =~= host + path);
    let rest = host + path;
    lemma_char_at_is(rest, '/', host.len() as int);
    assert(rest.take(host.len() as int) =~= host);
    assert(rest.skip(host.len() as int) =~= path);

    let hp = host + seq![':'] + d;
    let s = p + host + seq![':'] + d + path;
    assert(s.subrange(0, 7) =~= p);
    assert(s.skip(7) =~= hp + path);
    let rest = hp + path;
    assert forall|j: int| 0 <= j < hp.len() implies rest[j] != '/' by {
        if j < host.len() {
            assert(rest[j] == host[j]);
        } else if j > host.len() {
            assert(rest[j] == d[j - host.len() - 1]);
        }
    }
    lemma_char_at_is(rest, '/', hp.len() as int);
    assert(rest.take(hp.len() as int) =~= hp);
    assert(rest.skip(hp.len() as int) =~= path);
    assert forall|j: int| host.len() < j < hp.len() implies #[trigger] hp[j] != ':' by {
        assert(hp[j] == d[j - host.len() - 1]);
    }
    lemma_last_place(hp, ':', host.len() as int);
    assert(hp.take(host.len() as int) =~= host);
    assert(hp.skip(host.len() as int + 1) =~= d);

    let s = p + host;
    assert(s.subrange(0, 7) =~= p);
    assert(s.skip(7) =~= host);
    lemma_char_at_is(host, '/', host.len() as int);
    assert(host.take(host.len() as int) =~= host);

    let k = 1 + folder.len() as int;
    assert(path[k] == '/');
    assert forall|j: int| k < j < path.len() implies #[trigger] path[j] != '/' by {
        assert(path[j] == name[j - k - 1]);
    }
    lemma_last_place(path, '/', k);
    assert(path.skip(k + 1) =~= name);
}

} // verus!
