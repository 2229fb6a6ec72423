//! What goes back over the wire: byte ranges and the heads of answers.

use crate::number::{
    decimal, law_decimal_reads_back, lemma_decimal_not_empty, lemma_unsigned_range, parse_decimal,
    push_decimal, unsigned,
};
use crate::text::{
    begins_with, chars_of, cut, lemma_char_at_is, split_once, starts_with_text, str_view, trim,
    trimmed, trimmed_start,
};
use vstd::prelude::*;
use vstd::slice::slice_subrange;

verus! {

/// The part of a file of `total` bytes that a range header asks for, first and
/// last byte: "bytes=a-b", "bytes=a-" for everything from a on, or "bytes=-n" for
/// the last n. Nothing where it asks for nothing there is.
pub open spec fn range_of(r: Seq<char>, total: int) -> Option<(int, int)> {
    if !begins_with(r, "bytes="@) {
        None
    } else {
        match cut(r.skip("bytes="@.len() as int), '-') {
            None => None,
            Some((x, y)) => {
                let a = trimmed(x);
                let b = trimmed(y);
                if a.len() == 0 {
                    match unsigned(b, 10, u64::MAX as int) {
                        Some(n) => if 0 < n <= total {
                            Some((total - n, total - 1))
                        } else {
                            None
                        },
                        None => None,
                    }
                } else {
                    match unsigned(a, 10, u64::MAX as int) {
                        None => None,
                        Some(s) => {
                            let e = if b.len() == 0 {
                                Some(total - 1)
                            } else {
                                unsigned(b, 10, u64::MAX as int)
                            };
                            match e {
                                None => None,
                                Some(e) => {
                                    let end = if e < total - 1 {
                                        e
                                    } else {
                                        total - 1
                                    };
                                    if s <= end {
                                        Some((s, end))
                                    } else {
                                        None
                                    }
                                },
                            }
                        },
                    }
                }
            },
        }
    }
}

/// A pair of numbers as mathematical ones.
pub open spec fn span_view(r: Option<(u64, u64)>) -> Option<(int, int)> {
    match r {
        Some((a, b)) => Some((a as int, b as int)),
        None => None,
    }
}

/// The part of a file that a range header asks for.
pub fn parse_range(r: &str, total: u64) -> (span: Option<(u64, u64)>)
    ensures
        span_view(span) == range_of(r@, total as int),
{
    let chars: Vec<char> = chars_of(r);
    let prefix: Vec<char> = chars_of("bytes=");
    if !starts_with_text(chars.as_slice(), "bytes=") {
        return None;
    }
    let rest: &[char] = slice_subrange(chars.as_slice(), prefix.len(), chars.len());
    assert(rest@ =~= r@.skip("bytes="@.len() as int));
    match split_once(rest, '-') {
        None => None,
        Some((x, y)) => {
            let a: &[char] = trim(x);
            let b: &[char] = trim(y);
            if a.len() == 0 {
                match parse_decimal(b, u64::MAX) {
                    Some(n) => if n > 0 && n <= total {
                        Some((total - n, total - 1))
                    } else {
                        None
                    },
                    None => None,
                }
            } else {
                match parse_decimal(a, u64::MAX) {
                    None => None,
                    Some(s) => {
                        if total == 0 {
                            return None;
                        }
                        let last: u64 = total - 1;
                        let end: u64 = if b.len() == 0 {
                            last
                        } else {
                            match parse_decimal(b, u64::MAX) {
                                Some(e) => if e < last {
                                    e
                                } else {
                                    last
                                },
                                None => {
                                    return None;
                                },
                            }
                        };
                        if s <= end {
                            Some((s, end))
                        } else {
                            None
                        }
                    },
                }
            }
        },
    }
}

/// A range that is answered lies inside the file.
pub proof fn law_range_lies_inside(r: Seq<char>, total: int)
    requires
        total >= 0,
    ensures
        range_of(r, total) matches Some((a, b)) ==> 0 <= a <= b < total,
{
    if let Some((x, y)) = cut(r.skip("bytes="@.len() as int), '-') {
        lemma_unsigned_range(trimmed(x), 10, u64::MAX as int);
    }
}

/// The header value with which a piece of a file is asked for.
pub open spec fn range_text(start: int, end: int) -> Seq<char> {
    "bytes="@ + decimal(start) + "-"@ + decimal(end)
}

proof fn lemma_digits_trimmed(s: Seq<char>)
    requires
        forall|i: int| 0 <= i < s.len() ==> '0' <= #[trigger] s[i] <= '9',
    ensures
        trimmed(s) == s,
{
    if s.len() > 0 {
        assert('0' <= s[0] <= '9');
        assert(trimmed_start(s) == s);
        assert('0' <= s[s.len() - 1] <= '9');
    }
}

/// A piece that a client asks for by its first and last byte is the piece it is
/// sent.
pub proof fn law_asked_for_is_sent(start: int, end: int, total: int)
    requires
        0 <= start <= end < total <= u64::MAX,
    ensures
        range_of(range_text(start, end), total) == Some((start, end)),
{
    let a = decimal(start);
    let b = decimal(end);
    let t = range_text(start, end);
    let max = u64::MAX as int;
    law_decimal_reads_back(start, max);
    law_decimal_reads_back(end, max);
    lemma_decimal_not_empty(start);
    reveal_strlit("bytes=");
    reveal_strlit("-");
    let p = "bytes="@;
    assert(t.subrange(0, p.len() as int) =~= p);
    let rest = t.skip(p.len() as int);
    assert(rest =~= a + seq!['-'] + b);
    assert forall|j: int| 0 <= j < a.len() implies rest[j] != '-' by {
        assert('0' <= a[j] <= '9');
    }
    lemma_char_at_is(rest, '-', a.len() as int);
    assert(rest.take(a.len() as int) =~= a);
    assert(rest.skip(a.len() as int + 1) =~= b);
    lemma_digits_trimmed(a);
    lemma_digits_trimmed(b);
    lemma_decimal_not_empty(end);
}

// ------------------------------------------------------------- sending a file

/// How a file is sent.
#[derive(Clone, Copy, PartialEq, Eq, Structural, Debug)]
pub enum Sending {
    /// All of it, this many bytes announced.
    Whole { len: u64 },
    /// From the first byte to the last one given.
    Part { start: u64, end: u64 },
    /// The range asked for is not there.
    NotThere,
}

/// How a file of `total` bytes is sent to somebody who asks for this range.
pub open spec fn sending_of(range: Option<Seq<char>>, total: u64) -> Sending {
    match range {
        None => Sending::Whole { len: total },
        Some(r) => match range_of(r, total as int) {
            Some((a, b)) => Sending::Part { start: a as u64, end: b as u64 },
            None => Sending::NotThere,
        },
    }
}

/// How a file of `total` bytes is sent to somebody who asks for this range.
pub fn plan_sending(range: Option<&str>, total: u64) -> (s: Sending)
    ensures
        s == sending_of(str_view(range), total),
{
    match range {
        None => Sending::Whole { len: total },
        Some(r) => match parse_range(r, total) {
            Some((start, end)) => Sending::Part { start, end },
            None => Sending::NotThere,
        },
    }
}

/// The header that makes a browser keep a file instead of opening it.
pub open spec fn attachment(name: Seq<char>, download: bool) -> Seq<char> {
    if download {
        "Content-Disposition: attachment; filename=\""@ + name + "\"\r\n"@
    } else {
        Seq::empty()
    }
}

/// The head with which a file, or a part of one, is sent.
pub open spec fn file_head(
    s: Sending,
    total: int,
    ctype: Seq<char>,
    name: Seq<char>,
    download: bool,
) -> Seq<char> {
    match s {
        Sending::NotThere => "HTTP/1.1 416 Range Not Satisfiable\r\nContent-Range: bytes */"@
            + decimal(total) + "\r\nContent-Length: 0\r\n\r\n"@,
        Sending::Part { start, end } => "HTTP/1.1 206 Partial Content\r\nAccept-Ranges: bytes\r\nContent-Type: "@
            + ctype + "\r\n"@ + attachment(name, download) + "Content-Range: bytes "@ + decimal(
            start as int,
        ) + "-"@ + decimal(end as int) + "/"@ + decimal(total) + "\r\nContent-Length: "@
            + decimal(end - start + 1) + "\r\n\r\n"@,
        Sending::Whole { len } => "HTTP/1.1 200 OK\r\nAccept-Ranges: bytes\r\nContent-Type: "@
            + ctype + "\r\n"@ + attachment(name, download) + "Content-Length: "@ + decimal(
            len as int,
        ) + "\r\n\r\n"@,
    }
}

/// The head with which a file, or a part of one, is sent.
pub fn write_file_head(
    s: Sending,
    total: u64,
    ctype: &str,
    name: &str,
    download: bool,
) -> (head: String)
    requires
        s matches Sending::Part { start, end } ==> start <= end < u64::MAX,
    ensures
        head@ == file_head(s, total as int, ctype@, name@, download),
{
    let mut attach = String::new();
    if download {
        attach.append("Content-Disposition: attachment; filename=\"");
        attach.append(name);
        attach.append("\"\r\n");
    }
    assert(attach@ =~= attachment(name@, download));
    let mut out = String::new();
    match s {
        Sending::NotThere => {
            out.append("HTTP/1.1 416 Range Not Satisfiable\r\nContent-Range: bytes */");
            push_decimal(&mut out, total);
            out.append("\r\nContent-Length: 0\r\n\r\n");
        },
        Sending::Part { start, end } => {
            out.append("HTTP/1.1 206 Partial Content\r\nAccept-Ranges: bytes\r\nContent-Type: ");
            out.append(ctype);
            out.append("\r\n");
            out.append(attach.as_str());
            out.append("Content-Range: bytes ");
            push_decimal(&mut out, start);
            out.append("-");
            push_decimal(&mut out, end);
            out.append("/");
            push_decimal(&mut out, total);
            out.append("\r\nContent-Length: ");
            push_decimal(&mut out, end - start + 1);
            out.append("\r\n\r\n");
        },
        Sending::Whole { len } => {
            out.append("HTTP/1.1 200 OK\r\nAccept-Ranges: bytes\r\nContent-Type: ");
            out.append(ctype);
            out.append("\r\n");
            out.append(attach.as_str());
            out.append("Content-Length: ");
            push_decimal(&mut out, len);
            out.append("\r\n\r\n");
        },
    }
    assert(out@ =~= file_head(s, total as int, ctype@, name@, download));
    out
}

// ------------------------------------------------------------- other answers

/// The words that go with a status code.
pub open spec fn reason(code: int) -> Seq<char> {
    if code == 206 {
        "Partial Content"@
    } else if code == 403 {
        "Forbidden"@
    } else if code == 404 {
        "Not Found"@
    } else if code == 416 {
        "Range Not Satisfiable"@
    } else {
        "OK"@
    }
}

/// The head of a plain answer.
pub open spec fn plain_head(code: int, ctype: Seq<char>, len: int) -> Seq<char> {
    "HTTP/1.1 "@ + decimal(code) + " "@ + reason(code) + "\r\nContent-Type: "@ + ctype
        + "\r\nContent-Length: "@ + decimal(len) + "\r\n\r\n"@
}

/// The head of a plain answer with a body of `len` bytes.
pub fn respond(code: u16, ctype: &str, len: u64) -> (head: String)
    ensures
        head@ == plain_head(code as int, ctype@, len as int),
{
    let mut out = String::new();
    out.append("HTTP/1.1 ");
    push_decimal(&mut out, code as u64);
    out.append(" ");
    if code == 206 {
        out.append("Partial Content");
    } else if code == 403 {
        out.append("Forbidden");
    } else if code == 404 {
        out.append("Not Found");
    } else if code == 416 {
        out.append("Range Not Satisfiable");
    } else {
        out.append("OK");
    }
    out.append("\r\nContent-Type: ");
    out.append(ctype);
    out.append("\r\nContent-Length: ");
    push_decimal(&mut out, len);
    out.append("\r\n\r\n");
    assert(out@ =~= plain_head(code as int, ctype@, len as int));
    out
}

/// The head of an answer that no cache may keep.
pub open spec fn fresh_head(ctype: Seq<char>, len: int) -> Seq<char> {
    "HTTP/1.1 200 OK\r\nContent-Type: "@ + ctype
        + "\r\nCache-Control: no-store, must-revalidate\r\nPragma: no-cache\r\nContent-Length: "@
        + decimal(len) + "\r\n\r\n"@
}

/// The head of an answer that no cache may keep, with a body of `len` bytes: a
/// page whose forms carry one-time tokens must never come out of a cache.
pub fn respond_fresh(ctype: &str, len: u64) -> (head: String)
    ensures
        head@ == fresh_head(ctype@, len as int),
{
    let mut out = String::new();
    out.append("HTTP/1.1 200 OK\r\nContent-Type: ");
    out.append(ctype);
    out.append(
        "\r\nCache-Control: no-store, must-revalidate\r\nPragma: no-cache\r\nContent-Length: ",
    );
    push_decimal(&mut out, len);
    out.append("\r\n\r\n");
    assert(out@ =~= fresh_head(ctype@, len as int));
    out
}

/// The answer that sends a browser back to the page with what was just done.
pub open spec fn done_head(tag: Seq<char>) -> Seq<char> {
    "HTTP/1.1 303 See Other\r\nLocation: /?done="@ + tag + "\r\nContent-Length: 0\r\n\r\n"@
}

/// The redirect every post answers with, so a refresh never sends it again.
pub fn redirect_done(tag: &str) -> (head: String)
    ensures
        head@ == done_head(tag@),
{
    let mut out = String::new();
    out.append("HTTP/1.1 303 See Other\r\nLocation: /?done=");
    out.append(tag);
    out.append("\r\nContent-Length: 0\r\n\r\n");
    assert(out@ =~= done_head(tag@));
    out
}

/// The redirect that a claimed name answers with.
pub fn redirect_home() -> (head: String)
    ensures
        head@ == "HTTP/1.1 303 See Other\r\nLocation: /\r\nContent-Length: 0\r\n\r\n"@,
{
    "HTTP/1.1 303 See Other\r\nLocation: /\r\nContent-Length: 0\r\n\r\n".to_owned()
}

/// An address as it is typed into a browser: port 80 goes without saying.
pub open spec fn typed_address(ip: Seq<char>, port: int) -> Seq<char> {
    if port == 80 {
        ip
    } else {
        ip + ":"@ + decimal(port)
    }
}

/// An address as it is typed into a browser.
pub fn address_text(ip: &str, port: u16) -> (s: String)
    ensures
        s@ == typed_address(ip@, port as int),
{
    let mut out = String::new();
    out.append(ip);
    if port != 80 {
        out.append(":");
        push_decimal(&mut out, port as u64);
    }
    assert(out@ =~= typed_address(ip@, port as int));
    out
}

/// Where the captive redirect points.
pub fn redirect_base(ip: &str, port: u16) -> (s: String)
    ensures
        s@ == "http://"@ + typed_address(ip@, port as int),
{
    let mut out = String::new();
    out.append("http://");
    out.append(address_text(ip, port).as_str());
    assert(out@ =~= "http://"@ + typed_address(ip@, port as int));
    out
}

/// The answer to a request that was not meant for us.
pub open spec fn captive_head(base: Seq<char>) -> Seq<char> {
    "HTTP/1.1 302 Found\r\nLocation: "@ + base
        + "/\r\nContent-Length: 0\r\nConnection: close\r\n\r\n"@
}

/// The answer to a request that was not meant for us.
pub fn redirect_captive(base: &str) -> (head: String)
    ensures
        head@ == captive_head(base@),
{
    let mut out = String::new();
    out.append("HTTP/1.1 302 Found\r\nLocation: ");
    out.append(base);
    out.append("/\r\nContent-Length: 0\r\nConnection: close\r\n\r\n");
    assert(out@ =~= captive_head(base@));
    out
}

/// The answer to a question about a file's length.
pub open spec fn length_head(len: int) -> Seq<char> {
    "HTTP/1.1 200 OK\r\nAccept-Ranges: bytes\r\nContent-Length: "@ + decimal(len) + "\r\n\r\n"@
}

/// The answer to a question about a file's length.
pub fn respond_length(len: u64) -> (head: String)
    ensures
        head@ == length_head(len as int),
{
    let mut out = String::new();
    out.append("HTTP/1.1 200 OK\r\nAccept-Ranges: bytes\r\nContent-Length: ");
    push_decimal(&mut out, len);
    out.append("\r\n\r\n");
    assert(out@ =~= length_head(len as int));
    out
}

} // verus!
