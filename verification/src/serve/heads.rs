//! That what is announced over the wire is what is sent.

use super::answers::{
    attachment, captive_head, done_head, file_head, fresh_head, length_head, plain_head, range_of,
    reason, typed_address, Sending,
};
use crate::fetch::wire::{
    ends_head, head_matches, headers_from, last_step, lemma_crlf_line, line_end, status_of,
    with_header, Head,
};
use crate::number::{decimal, law_decimal_reads_back, lemma_decimal_not_empty, unsigned};
use crate::text::{
    begins_with, cut, is_space, last_char_at, law_a_text_is_cut_where_it_should, lemma_char_at_is,
    lemma_first_word, lemma_nothing_to_trim, lines, lower, lower_all, trimmed, trimmed_start, words,
};
use vstd::prelude::*;

verus! {

// ------------------------------------------------------------- ranges

proof fn lemma_digits_stand_alone(n: int)
    requires
        0 <= n,
    ensures
        decimal(n).len() > 0,
        trimmed(decimal(n)) == decimal(n),
        lower_all(decimal(n)) == decimal(n),
        forall|i: int|
            0 <= i < decimal(n).len() ==> {
                &&& '0' <= #[trigger] decimal(n)[i] <= '9'
                &&& !is_space(decimal(n)[i])
            },
{
    let d = decimal(n);
    law_decimal_reads_back(n, n);
    lemma_decimal_not_empty(n);
    assert forall|i: int| 0 <= i < d.len() implies '0' <= #[trigger] d[i] <= '9' && !is_space(
        d[i],
    ) by {}
    assert(!is_space(d[0]) && !is_space(d[d.len() - 1]));
    lemma_nothing_to_trim(d);
    assert(lower_all(d) =~= d);
}

/// A range means what it says, for every file and every pair of numbers: from the first
/// byte to the second, or to the end of the file where that comes sooner, or from a byte
/// to the end, or the last so many. What begins behind the end, or ends before it begins,
/// is nothing.
pub proof fn law_a_range_means_what_it_says(a: int, b: int, total: int)
    requires
        0 <= a <= u64::MAX,
        0 <= b <= u64::MAX,
        0 <= total <= u64::MAX,
    ensures
        range_of("bytes="@ + decimal(a) + "-"@ + decimal(b), total) == (if a <= b && a < total {
            Some((a, if b < total {
                b
            } else {
                total - 1
            }))
        } else {
            None
        }),
        range_of("bytes="@ + decimal(a) + "-"@, total) == (if a < total {
            Some((a, total - 1))
        } else {
            None
        }),
        range_of("bytes=-"@ + decimal(b), total) == (if 0 < b <= total {
            Some((total - b, total - 1))
        } else {
            None
        }),
{
    reveal_strlit("bytes=");
    reveal_strlit("bytes=-");
    reveal_strlit("-");
    let p = "bytes="@;
    let x = decimal(a);
    let y = decimal(b);
    let max = u64::MAX as int;
    law_decimal_reads_back(a, max);
    law_decimal_reads_back(b, max);
    lemma_digits_stand_alone(a);
    lemma_digits_stand_alone(b);
    let none = Seq::<char>::empty();
    lemma_nothing_to_trim(none);

    let t = p + x + "-"@ + y;
    assert(t.subrange(0, 6) =~= p);
    let rest = t.skip(6);
    assert(rest =~= x + seq!['-'] + y);
    assert forall|j: int| 0 <= j < x.len() implies rest[j] != '-' by {
        assert('0' <= x[j] <= '9');
    }
    lemma_char_at_is(rest, '-', x.len() as int);
    assert(rest.take(x.len() as int) =~= x);
    assert(rest.skip(x.len() as int + 1) =~= y);

    let t = p + x + "-"@;
    assert(t.subrange(0, 6) =~= p);
    let rest = t.skip(6);
    assert(rest =~= x + seq!['-']);
    assert forall|j: int| 0 <= j < x.len() implies rest[j] != '-' by {
        assert('0' <= x[j] <= '9');
    }
    lemma_char_at_is(rest, '-', x.len() as int);
    assert(rest.take(x.len() as int) =~= x);
    assert(rest.skip(x.len() as int + 1) =~= none);

    let t = "bytes=-"@ + y;
    assert(t.subrange(0, 6) =~= p);
    let rest = t.skip(6);
    assert(rest =~= seq!['-'] + y);
    lemma_char_at_is(rest, '-', 0);
    assert(rest.take(0) =~= none);
    assert(rest.skip(1) =~= y);
}

// ------------------------------------------------------------- heads

/// Whether a text is one line.
pub open spec fn plain_text(s: Seq<char>) -> bool {
    forall|i: int| 0 <= i < s.len() ==> #[trigger] s[i] != '\n'
}

proof fn lemma_header_value(name: Seq<char>, v: Seq<char>)
    requires
        v.len() > 0,
        !is_space(v[0]),
        !is_space(v.last()),
        lower_all(v) == v,
    ensures
        ({
            let line = name + seq![' '] + v;
            &&& begins_with(lower_all(line), lower_all(name))
            &&& lower_all(line).skip(name.len() as int) == seq![' '] + v
            &&& trimmed(seq![' '] + v) == v
        }),
{
    let line = name + seq![' '] + v;
    let low = lower_all(line);
    assert(low.subrange(0, name.len() as int) =~= lower_all(name));
    assert(low.skip(name.len() as int) =~= seq![' '] + v) by {
        assert forall|i: int| 0 <= i < v.len() implies low.skip(name.len() as int)[i + 1]
            == v[i] by {
            assert(low[name.len() + 1 + i] == lower(v[i]));
            assert(lower_all(v)[i] == v[i]);
        }
    }
    assert((seq![' '] + v).skip(1) =~= v);
    assert(trimmed_start(seq![' '] + v) == trimmed_start(v));
    lemma_nothing_to_trim(v);
}

proof fn lemma_length_line(n: int)
    requires
        0 <= n <= u64::MAX,
    ensures
        ({
            let line = "Content-Length:"@ + seq![' '] + decimal(n);
            &&& !ends_head(line)
            &&& plain_text(line)
            &&& forall|len: int, total: Option<int>| #[trigger]
                with_header(line, len, total) == (n, total)
        }),
{
    reveal_strlit("Content-Length:");
    reveal_strlit("content-length:");
    reveal_strlit("content-range:");
    reveal_strlit("\r\n");
    reveal_strlit("\n");
    let name = "Content-Length:"@;
    let line = name + seq![' '] + decimal(n);
    lemma_digits_stand_alone(n);
    law_decimal_reads_back(n, u64::MAX as int);
    assert(lower_all(name) =~= "content-length:"@);
    lemma_header_value(name, decimal(n));
    assert(lower_all(line)[8] == 'l');
    if begins_with(lower_all(line), "content-range:"@) {
        assert(lower_all(line).subrange(0, 14)[8] == lower_all(line)[8]);
        assert(false);
    }
    assert(line[0] == 'C');
    assert forall|i: int| 0 <= i < line.len() implies #[trigger] line[i] != '\n' by {
        if i > 15 {
            assert(line[i] == decimal(n)[i - 16]);
        }
    }
}

proof fn lemma_range_line(a: int, b: int, t: int)
    requires
        0 <= a,
        0 <= b,
        0 <= t <= u64::MAX,
    ensures
        ({
            let line = "Content-Range:"@ + seq![' '] + ("bytes "@ + decimal(a) + "-"@ + decimal(b)
                + "/"@ + decimal(t));
            &&& !ends_head(line)
            &&& plain_text(line)
            &&& forall|len: int, total: Option<int>| #[trigger]
                with_header(line, len, total) == (len, Some(t))
        }),
{
    reveal_strlit("Content-Range:");
    reveal_strlit("content-length:");
    reveal_strlit("content-range:");
    reveal_strlit("bytes ");
    reveal_strlit("-");
    reveal_strlit("/");
    reveal_strlit("\r\n");
    reveal_strlit("\n");
    let name = "Content-Range:"@;
    let x = decimal(a);
    let y = decimal(b);
    let z = decimal(t);
    let front = "bytes "@ + x + "-"@ + y;
    let v = front + "/"@ + z;
    let line = name + seq![' '] + v;
    lemma_digits_stand_alone(a);
    lemma_digits_stand_alone(b);
    lemma_digits_stand_alone(t);
    law_decimal_reads_back(t, u64::MAX as int);
    assert(lower_all(name) =~= "content-range:"@);
    assert forall|i: int| 0 <= i < v.len() implies #[trigger] lower(v[i]) == v[i] && v[i]
        != '\n' by {
        if 6 <= i < 6 + x.len() {
            assert(v[i] == x[i - 6]);
        } else if 7 + x.len() <= i < 7 + x.len() + y.len() {
            assert(v[i] == y[i - 7 - x.len()]);
        } else if i >= 8 + x.len() + y.len() {
            assert(v[i] == z[i - 8 - x.len() - y.len()]);
        }
    }
    assert(lower_all(v) =~= v);
    assert(v[0] == 'b');
    assert(v.last() == z[z.len() - 1]);
    lemma_header_value(name, v);
    let w = seq![' '] + v;
    let k = 1 + front.len() as int;
    assert(w[k] == '/');
    assert forall|j: int| k < j < w.len() implies w[j] != '/' by {
        assert(w[j] == z[j - k - 1]);
    }
    lemma_last_is(w, '/', k);
    assert(w.skip(k + 1) =~= z);
    assert(last_step(w) == z);
    assert(lower_all(line)[8] == 'r');
    if begins_with(lower_all(line), "content-length:"@) {
        assert(lower_all(line).subrange(0, 15)[8] == lower_all(line)[8]);
        assert(false);
    }
    assert(line[0] == 'C');
    assert forall|i: int| 0 <= i < line.len() implies #[trigger] line[i] != '\n' by {
        if i > 14 {
            assert(line[i] == v[i - 15]);
        }
    }
}

proof fn lemma_last_is(s: Seq<char>, c: char, k: int)
    requires
        0 <= k < s.len(),
        s[k] == c,
        forall|j: int| k < j < s.len() ==> s[j] != c,
    ensures
        last_char_at(s, c) == k,
    decreases s.len(),
{
    if k < s.len() - 1 {
        assert(s.last() == s[s.len() - 1]);
        lemma_last_is(s.drop_last(), c, k);
    }
}

/// A header that says nothing of lengths.
proof fn lemma_idle_line(line: Seq<char>)
    requires
        line.len() > 8,
        lower(line[0]) != 'c' || (lower(line[8]) != 'l' && lower(line[8]) != 'r'),
    ensures
        !ends_head(line),
        forall|len: int, total: Option<int>| #[trigger]
            with_header(line, len, total) == (len, total),
{
    reveal_strlit("content-length:");
    reveal_strlit("content-range:");
    reveal_strlit("\r\n");
    reveal_strlit("\n");
    let low = lower_all(line);
    if begins_with(low, "content-length:"@) {
        assert(low.subrange(0, 15)[0] == low[0] && low.subrange(0, 15)[8] == low[8]);
    }
    if begins_with(low, "content-range:"@) {
        assert(low.subrange(0, 14)[0] == low[0] && low.subrange(0, 14)[8] == low[8]);
    }
}

proof fn lemma_status(code: Seq<char>, n: int, words_behind: Seq<char>)
    requires
        code.len() > 0,
        forall|i: int| 0 <= i < code.len() ==> !is_space(#[trigger] code[i]),
        unsigned(code, 10, 65535) == Some(n),
    ensures
        status_of("HTTP/1.1"@ + seq![' '] + (code + seq![' '] + words_behind)) == n,
{
    reveal_strlit("HTTP/1.1");
    lemma_first_word("HTTP/1.1"@, ' ', code + seq![' '] + words_behind);
    lemma_first_word(code, ' ', words_behind);
    let w = words("HTTP/1.1"@ + seq![' '] + (code + seq![' '] + words_behind));
    assert(w[1] == code);
}

proof fn lemma_number(code: Seq<char>, n: int)
    requires
        code == decimal(n),
        0 <= n <= 65535,
    ensures
        code.len() > 0,
        forall|i: int| 0 <= i < code.len() ==> !is_space(#[trigger] code[i]),
        unsigned(code, 10, 65535) == Some(n),
{
    lemma_digits_stand_alone(n);
    law_decimal_reads_back(n, 65535);
}

proof fn lemma_codes()
    ensures
        "200"@ == decimal(200),
        "206"@ == decimal(206),
        "416"@ == decimal(416),
{
    reveal_strlit("200");
    reveal_strlit("206");
    reveal_strlit("416");
    reveal_with_fuel(decimal, 4);
    assert("200"@ =~= decimal(200));
    assert("206"@ =~= decimal(206));
    assert("416"@ =~= decimal(416));
}

/// The lines of a head that are the same for a file and for a part of one.
spec fn common_lines(ctype: Seq<char>, name: Seq<char>, download: bool) -> Seq<Seq<char>> {
    if download {
        seq![
            "Accept-Ranges: bytes"@,
            "Content-Type: "@ + ctype,
            "Content-Disposition: attachment; filename=\""@ + name + "\""@,
        ]
    } else {
        seq!["Accept-Ranges: bytes"@, "Content-Type: "@ + ctype]
    }
}

proof fn lemma_common(ctype: Seq<char>, name: Seq<char>, download: bool, rest: Seq<char>)
    requires
        plain_text(ctype),
        plain_text(name),
    ensures
        lines(
            "Accept-Ranges: bytes\r\nContent-Type: "@ + ctype + "\r\n"@ + attachment(name, download)
                + rest,
        ) == common_lines(ctype, name, download) + lines(rest),
        forall|i: int|
            0 <= i < common_lines(ctype, name, download).len() ==> !ends_head(
                #[trigger] common_lines(ctype, name, download)[i],
            ) && forall|len: int, total: Option<int>| #[trigger]
                with_header(common_lines(ctype, name, download)[i], len, total) == (len, total),
{
    reveal_strlit("Accept-Ranges: bytes\r\nContent-Type: ");
    reveal_strlit("Accept-Ranges: bytes");
    reveal_strlit("Content-Type: ");
    reveal_strlit("\r\n");
    reveal_strlit("Content-Disposition: attachment; filename=\"");
    reveal_strlit("\"\r\n");
    reveal_strlit("\"");
    let e = line_end();
    let l0 = "Accept-Ranges: bytes"@;
    let l1 = "Content-Type: "@ + ctype;
    let l2 = "Content-Disposition: attachment; filename=\""@ + name + "\""@;
    assert("\r\n"@ =~= e);
    assert("\"\r\n"@ =~= "\""@ + e);
    assert("Accept-Ranges: bytes\r\nContent-Type: "@ =~= l0 + e + "Content-Type: "@);
    assert forall|i: int| 0 <= i < l1.len() implies #[trigger] l1[i] != '\n' by {
        if i >= 14 {
            assert(l1[i] == ctype[i - 14]);
        }
    }
    assert forall|i: int| 0 <= i < l2.len() implies #[trigger] l2[i] != '\n' by {
        let n = "Content-Disposition: attachment; filename=\""@.len() as int;
        if n <= i < n + name.len() {
            assert(l2[i] == name[i - n]);
        }
    }
    assert(l1[8] == 'T' && l2[8] == 'D' && l1[0] == 'C' && l2[0] == 'C');
    lemma_idle_line(l0);
    lemma_idle_line(l1);
    lemma_idle_line(l2);
    let whole = "Accept-Ranges: bytes\r\nContent-Type: "@ + ctype + "\r\n"@ + attachment(
        name,
        download,
    ) + rest;
    if download {
        assert(whole =~= l0 + e + (l1 + e + (l2 + e + rest)));
        lemma_crlf_line(l0, l1 + e + (l2 + e + rest));
        lemma_crlf_line(l1, l2 + e + rest);
        lemma_crlf_line(l2, rest);
        assert(lines(whole) =~= common_lines(ctype, name, download) + lines(rest));
    } else {
        assert(whole =~= l0 + e + (l1 + e + rest));
        lemma_crlf_line(l0, l1 + e + rest);
        lemma_crlf_line(l1, rest);
        assert(lines(whole) =~= common_lines(ctype, name, download) + lines(rest));
    }
}

/// Lines that say nothing of lengths are passed over.
proof fn lemma_idle_lines(ls: Seq<Seq<char>>, i: int, k: int, len: int, total: Option<int>)
    requires
        0 <= i <= k <= ls.len(),
        forall|j: int|
            i <= j < k ==> !ends_head(#[trigger] ls[j]) && forall|l: int, t: Option<int>| #[trigger]
                with_header(ls[j], l, t) == (l, t),
    ensures
        headers_from(ls, i, len, total) == headers_from(ls, k, len, total),
    decreases k - i,
{
    if i < k {
        assert(!ends_head(ls[i]) && with_header(ls[i], len, total) == (len, total));
        lemma_idle_lines(ls, i + 1, k, len, total);
    }
}

/// The last lines of a head.
proof fn lemma_ends(n: int)
    requires
        0 <= n <= u64::MAX,
    ensures
        lines("Content-Length: "@ + decimal(n) + "\r\n\r\n"@) == seq![
            "Content-Length:"@ + seq![' '] + decimal(n),
            Seq::<char>::empty(),
        ],
{
    reveal_strlit("Content-Length: ");
    reveal_strlit("Content-Length:");
    reveal_strlit("\r\n\r\n");
    let e = line_end();
    let none = Seq::<char>::empty();
    let l = "Content-Length:"@ + seq![' '] + decimal(n);
    lemma_length_line(n);
    assert("Content-Length: "@ + decimal(n) + "\r\n\r\n"@ =~= l + e + (none + e + none));
    lemma_crlf_line(l, none + e + none);
    lemma_crlf_line(none, none);
    assert(lines(none) =~= Seq::empty());
    assert(lines("Content-Length: "@ + decimal(n) + "\r\n\r\n"@) =~= seq![l, none]);
}

/// What is announced is what is sent: whoever reads the head of a file reads that it is
/// the file and how many bytes follow; of a part, that it is a part, that as many bytes
/// follow as lie between its two ends, both counted, and how long the whole is; and of a
/// part that is not there, that it is not and that nothing follows.
pub proof fn law_what_is_announced_is_what_is_sent(
    s: Sending,
    total: u64,
    ctype: Seq<char>,
    name: Seq<char>,
    download: bool,
    ranged: bool,
    h: Head,
)
    requires
        plain_text(ctype),
        plain_text(name),
        s matches Sending::Part { start, end } ==> start <= end < total && ranged,
        head_matches(lines(file_head(s, total as int, ctype, name, download)), ranged, h),
    ensures
        s matches Sending::Whole { len } ==> h.status == 200 && h.len == len && h.total is None,
        s matches Sending::Part { start, end } ==> h.status == 206 && h.len == end - start + 1
            && h.total == Some(total),
        s is NotThere && ranged ==> h.status == 416 && h.len == 0 && h.total == Some(total),
{
    match s {
        Sending::Whole { len } => {
            lemma_whole(len, total, ctype, name, download, ranged, h);
        },
        Sending::Part { start, end } => {
            lemma_part(start, end, total, ctype, name, download, h);
        },
        Sending::NotThere => {
            lemma_not_there(total, ranged, h);
        },
    }
}

proof fn lemma_whole_text(len: u64, t: int, ctype: Seq<char>, name: Seq<char>, download: bool)
    ensures
        file_head(Sending::Whole { len }, t, ctype, name, download) == "HTTP/1.1"@ + seq![' '] + (
        "200"@ + seq![' '] + "OK"@) + line_end() + ("Accept-Ranges: bytes\r\nContent-Type: "@
            + ctype + "\r\n"@ + attachment(name, download) + ("Content-Length: "@ + decimal(
            len as int,
        ) + "\r\n\r\n"@)),
{
    let e = line_end();
    let l0 = "HTTP/1.1"@ + seq![' '] + ("200"@ + seq![' '] + "OK"@);
    let accept = "Accept-Ranges: bytes\r\nContent-Type: "@;
    let head = "HTTP/1.1 200 OK\r\nAccept-Ranges: bytes\r\nContent-Type: "@;
    let extra = attachment(name, download);
    let n = decimal(len as int);
    assert(head =~= l0 + e + accept) by {
        reveal_strlit("HTTP/1.1");
        reveal_strlit("200");
        reveal_strlit("HTTP/1.1 200 OK\r\nAccept-Ranges: bytes\r\nContent-Type: ");
        reveal_strlit("Accept-Ranges: bytes\r\nContent-Type: ");
        reveal_strlit("OK");
    }
    let f = l0 + e;
    let m = accept + ctype + "\r\n"@ + extra;
    lemma_joined(f, accept, ctype);
    lemma_joined(f, accept + ctype, "\r\n"@);
    lemma_joined(f, accept + ctype + "\r\n"@, extra);
    lemma_joined(f, m, "Content-Length: "@);
    lemma_joined(f, m + "Content-Length: "@, n);
    lemma_joined(f, m + "Content-Length: "@ + n, "\r\n\r\n"@);
    lemma_joined(m, "Content-Length: "@, n);
    lemma_joined(m, "Content-Length: "@ + n, "\r\n\r\n"@);
}

proof fn lemma_whole(
    len: u64,
    total: u64,
    ctype: Seq<char>,
    name: Seq<char>,
    download: bool,
    ranged: bool,
    h: Head,
)
    requires
        plain_text(ctype),
        plain_text(name),
        head_matches(
            lines(file_head(Sending::Whole { len }, total as int, ctype, name, download)),
            ranged,
            h,
        ),
    ensures
        h.status == 200 && h.len == len && h.total is None,
{
    let n = len as int;
    let e = line_end();
    let text = file_head(Sending::Whole { len }, total as int, ctype, name, download);
    let l0 = "HTTP/1.1"@ + seq![' '] + ("200"@ + seq![' '] + "OK"@);
    let last = "Content-Length: "@ + decimal(n) + "\r\n\r\n"@;
    let mid = "Accept-Ranges: bytes\r\nContent-Type: "@ + ctype + "\r\n"@ + attachment(
        name,
        download,
    ) + last;
    lemma_whole_text(len, total as int, ctype, name, download);
    assert(plain_text(l0)) by {
        reveal_strlit("HTTP/1.1");
        reveal_strlit("200");
        reveal_strlit("OK");
    }
    lemma_crlf_line(l0, mid);
    lemma_common(ctype, name, download, last);
    lemma_ends(n);
    lemma_length_line(n);
    lemma_codes();
    lemma_number("200"@, 200);
    lemma_status("200"@, 200, "OK"@);
    let c = common_lines(ctype, name, download);
    let ls = lines(text);
    assert(ls =~= seq![l0] + (c + lines(last)));
    assert(ls.subrange(1, 1 + c.len() as int) =~= c);
    lemma_common_is_idle(ls, c, 1);
    let k = 1 + c.len() as int;
    assert(ls[k] == lines(last)[0] && ls[k + 1] == lines(last)[1]);
    lemma_idle_lines(ls, 1, k, 0, None);
    assert(headers_from(ls, k, 0, None) == headers_from(ls, k + 1, n, None));
}

spec fn part_line(a: int, b: int, t: int) -> Seq<char> {
    "Content-Range:"@ + seq![' '] + ("bytes "@ + decimal(a) + "-"@ + decimal(b) + "/"@ + decimal(
        t,
    ))
}

proof fn lemma_joined(a: Seq<char>, b: Seq<char>, c: Seq<char>)
    ensures
        a + b + c == a + (b + c),
{
    assert(a + b + c =~= a + (b + c));
}

proof fn lemma_value_joined(
    front: Seq<char>,
    field: Seq<char>,
    unit: Seq<char>,
    a: Seq<char>,
    d: Seq<char>,
    b: Seq<char>,
    s: Seq<char>,
    t: Seq<char>,
)
    ensures
        front + (field + unit) + a + d + b + s + t == front + (field + (unit + a + d + b + s + t)),
{
    lemma_joined(front, field, unit);
    lemma_joined(front + field, unit, a);
    lemma_joined(front + field, unit + a, d);
    lemma_joined(front + field, unit + a + d, b);
    lemma_joined(front + field, unit + a + d + b, s);
    lemma_joined(front + field, unit + a + d + b + s, t);
    lemma_joined(front, field, unit + a + d + b + s + t);
}

proof fn lemma_regroup(
    l0: Seq<char>,
    e: Seq<char>,
    accept: Seq<char>,
    ctype: Seq<char>,
    r: Seq<char>,
    extra: Seq<char>,
    line: Seq<char>,
    len: Seq<char>,
    n: Seq<char>,
    z: Seq<char>,
)
    ensures
        (l0 + e + accept) + ctype + r + extra + line + (e + len) + n + z == l0 + e + (accept + ctype
            + r + extra + (line + e + (len + n + z))),
{
    let f = l0 + e;
    lemma_joined(f, accept, ctype);
    lemma_joined(f, accept + ctype, r);
    lemma_joined(f, accept + ctype + r, extra);
    let m = accept + ctype + r + extra;
    lemma_joined(f, m, line);
    lemma_joined(f + (m + line), e, len);
    lemma_joined(f, m + line, e);
    lemma_joined(f, m + line + e, len);
    lemma_joined(f, m + line + e + len, n);
    lemma_joined(f, m + line + e + len + n, z);
    lemma_joined(m, line, e);
    lemma_joined(m, line + e, len);
    lemma_joined(m, line + e + len, n);
    lemma_joined(m, line + e + len + n, z);
    lemma_joined(line + e, len, n);
    lemma_joined(line + e, len + n, z);
}

proof fn lemma_part_text(
    start: u64,
    end: u64,
    t: int,
    ctype: Seq<char>,
    name: Seq<char>,
    download: bool,
)
    requires
        start <= end,
    ensures
        file_head(Sending::Part { start, end }, t, ctype, name, download) == "HTTP/1.1"@ + seq![' ']
            + ("206"@ + seq![' '] + "Partial Content"@) + line_end() + (
        "Accept-Ranges: bytes\r\nContent-Type: "@ + ctype + "\r\n"@ + attachment(name, download) + (
        part_line(start as int, end as int, t) + line_end() + ("Content-Length: "@ + decimal(
            end - start + 1,
        ) + "\r\n\r\n"@))),
{
    let e = line_end();
    let a = decimal(start as int);
    let b = decimal(end as int);
    let n = decimal(end - start + 1);
    let l0 = "HTTP/1.1"@ + seq![' '] + ("206"@ + seq![' '] + "Partial Content"@);
    let accept = "Accept-Ranges: bytes\r\nContent-Type: "@;
    let head = "HTTP/1.1 206 Partial Content\r\nAccept-Ranges: bytes\r\nContent-Type: "@;
    let extra = attachment(name, download);
    let field = "Content-Range:"@ + seq![' '] + "bytes "@;
    assert(head =~= l0 + e + accept) by {
        reveal_strlit("HTTP/1.1");
        reveal_strlit("206");
        reveal_strlit("HTTP/1.1 206 Partial Content\r\nAccept-Ranges: bytes\r\nContent-Type: ");
        reveal_strlit("Accept-Ranges: bytes\r\nContent-Type: ");
        reveal_strlit("Partial Content");
    }
    assert("Content-Range: bytes "@ =~= field) by {
        reveal_strlit("Content-Range: bytes ");
        reveal_strlit("Content-Range:");
        reveal_strlit("bytes ");
    }
    assert("\r\nContent-Length: "@ =~= e + "Content-Length: "@) by {
        reveal_strlit("\r\nContent-Length: ");
        reveal_strlit("Content-Length: ");
    }
    lemma_value_joined(
        head + ctype + "\r\n"@ + extra,
        "Content-Range:"@ + seq![' '],
        "bytes "@,
        a,
        "-"@,
        b,
        "/"@,
        decimal(t),
    );
    lemma_regroup(
        l0,
        e,
        accept,
        ctype,
        "\r\n"@,
        extra,
        part_line(start as int, end as int, t),
        "Content-Length: "@,
        n,
        "\r\n\r\n"@,
    );
}

proof fn lemma_part(
    start: u64,
    end: u64,
    total: u64,
    ctype: Seq<char>,
    name: Seq<char>,
    download: bool,
    h: Head,
)
    requires
        plain_text(ctype),
        plain_text(name),
        start <= end < total,
        head_matches(
            lines(file_head(Sending::Part { start, end }, total as int, ctype, name, download)),
            true,
            h,
        ),
    ensures
        h.status == 206 && h.len == end - start + 1 && h.total == Some(total),
{
    let a = start as int;
    let b = end as int;
    let t = total as int;
    let n = b - a + 1;
    let e = line_end();
    let text = file_head(Sending::Part { start, end }, t, ctype, name, download);
    let l0 = "HTTP/1.1"@ + seq![' '] + ("206"@ + seq![' '] + "Partial Content"@);
    let lr = part_line(a, b, t);
    let last = "Content-Length: "@ + decimal(n) + "\r\n\r\n"@;
    let tail = lr + e + last;
    let mid = "Accept-Ranges: bytes\r\nContent-Type: "@ + ctype + "\r\n"@ + attachment(
        name,
        download,
    ) + tail;
    lemma_part_text(start, end, t, ctype, name, download);
    assert(plain_text(l0)) by {
        reveal_strlit("HTTP/1.1");
        reveal_strlit("206");
        reveal_strlit("Partial Content");
    }
    lemma_crlf_line(l0, mid);
    lemma_common(ctype, name, download, tail);
    lemma_range_line(a, b, t);
    lemma_crlf_line(lr, last);
    lemma_ends(n);
    lemma_length_line(n);
    lemma_codes();
    lemma_number("206"@, 206);
    lemma_status("206"@, 206, "Partial Content"@);
    let c = common_lines(ctype, name, download);
    let ls = lines(text);
    assert(ls =~= seq![l0] + (c + (seq![lr] + lines(last))));
    assert(ls.subrange(1, 1 + c.len() as int) =~= c);
    lemma_common_is_idle(ls, c, 1);
    let k = 1 + c.len() as int;
    assert(ls[k] == lr && ls[k + 1] == lines(last)[0] && ls[k + 2] == lines(last)[1]);
    lemma_idle_lines(ls, 1, k, 0, None);
    assert(headers_from(ls, k, 0, None) == headers_from(ls, k + 1, 0, Some(t)));
    assert(headers_from(ls, k + 1, 0, Some(t)) == headers_from(ls, k + 2, n, Some(t)));
}

proof fn lemma_common_is_idle(ls: Seq<Seq<char>>, c: Seq<Seq<char>>, at: int)
    requires
        0 <= at,
        at + c.len() <= ls.len(),
        ls.subrange(at, at + c.len()) == c,
        forall|i: int|
            0 <= i < c.len() ==> !ends_head(#[trigger] c[i]) && forall|l: int, t: Option<
                int,
            >| #[trigger] with_header(c[i], l, t) == (l, t),
    ensures
        forall|j: int|
            at <= j < at + c.len() ==> !ends_head(#[trigger] ls[j]) && forall|l: int, t: Option<
                int,
            >| #[trigger] with_header(ls[j], l, t) == (l, t),
{
    assert forall|j: int| at <= j < at + c.len() implies !ends_head(#[trigger] ls[j]) && forall|
        l: int,
        t: Option<int>,
    | #[trigger] with_header(ls[j], l, t) == (l, t) by {
        assert(ls[j] == ls.subrange(at, at + c.len())[j - at]);
        assert(ls[j] == c[j - at]);
    }
}

proof fn lemma_not_there(total: u64, ranged: bool, h: Head)
    requires
        head_matches(
            lines(file_head(Sending::NotThere, total as int, Seq::empty(), Seq::empty(), false)),
            ranged,
            h,
        ),
    ensures
        ranged ==> h.status == 416 && h.len == 0 && h.total == Some(total),
{
    let e = line_end();
    let none = Seq::<char>::empty();
    let t = total as int;
    let text = file_head(Sending::NotThere, t, none, none, false);
    lemma_codes();
    reveal_strlit("HTTP/1.1");
    reveal_strlit("416");
    reveal_strlit("HTTP/1.1 416 Range Not Satisfiable\r\nContent-Range: bytes */");
    reveal_strlit("\r\nContent-Length: 0\r\n\r\n");
    reveal_strlit("Range Not Satisfiable");
    reveal_strlit("Content-Range:");
    reveal_strlit("content-range:");
    reveal_strlit("content-length:");
    reveal_strlit("Content-Length: ");
    reveal_strlit("\r\n\r\n");
    reveal_strlit("\r\n");
    reveal_strlit("\n");
    let z = decimal(t);
    let front = seq!['b', 'y', 't', 'e', 's', ' ', '*'];
    let v = front + seq!['/'] + z;
    let l0 = "HTTP/1.1"@ + seq![' '] + ("416"@ + seq![' '] + "Range Not Satisfiable"@);
    let lr = "Content-Range:"@ + seq![' '] + v;
    let zero = decimal(0);
    assert(zero =~= seq!['0']);
    let last = "Content-Length: "@ + zero + "\r\n\r\n"@;
    assert("HTTP/1.1 416 Range Not Satisfiable\r\nContent-Range: bytes */"@ =~= l0 + e
        + "Content-Range:"@ + seq![' '] + front + seq!['/']);
    assert("\r\nContent-Length: 0\r\n\r\n"@ =~= e + last);
    assert(text =~= l0 + e + (lr + e + last));
    lemma_digits_stand_alone(t);
    law_decimal_reads_back(t, u64::MAX as int);
    assert forall|i: int| 0 <= i < v.len() implies #[trigger] lower(v[i]) == v[i] && v[i]
        != '\n' by {
        if i >= 8 {
            assert(v[i] == z[i - 8]);
        }
    }
    assert(lower_all(v) =~= v);
    assert(v.last() == z[z.len() - 1]);
    assert(lower_all("Content-Range:"@) =~= "content-range:"@);
    lemma_header_value("Content-Range:"@, v);
    let w = seq![' '] + v;
    assert forall|j: int| 8 < j < w.len() implies w[j] != '/' by {
        assert(w[j] == z[j - 9]);
    }
    lemma_last_is(w, '/', 8);
    assert(w.skip(9) =~= z);
    assert forall|i: int| 0 <= i < lr.len() implies #[trigger] lr[i] != '\n' by {
        if i > 14 {
            assert(lr[i] == v[i - 15]);
        }
    }
    lemma_crlf_line(l0, lr + e + last);
    lemma_crlf_line(lr, last);
    lemma_ends(0);
    lemma_length_line(0);
    lemma_number("416"@, 416);
    lemma_status("416"@, 416, "Range Not Satisfiable"@);
    assert(lower_all(lr)[8] == 'r');
    if begins_with(lower_all(lr), "content-length:"@) {
        assert(lower_all(lr).subrange(0, 15)[8] == lower_all(lr)[8]);
        assert(false);
    }
    assert(lr[0] == 'C');
    assert(with_header(lr, 0, None) == (0int, Some(t)));
    let ls = lines(text);
    assert(ls =~= seq![l0, lr] + lines(last));
    assert(ls[2] == lines(last)[0] && ls[3] == lines(last)[1]);
    assert(headers_from(ls, 1, 0, None) == headers_from(ls, 2, 0, Some(t)));
    assert(headers_from(ls, 2, 0, Some(t)) == headers_from(ls, 3, 0, Some(t)));
}

// ------------------------------------------------------------- other answers

proof fn lemma_four_lines(a: Seq<char>, b: Seq<char>, c: Seq<char>)
    requires
        plain_text(a),
        plain_text(b),
        plain_text(c),
    ensures
        ({
            let e = line_end();
            &&& lines(a + e + (b + e + (c + e + e))) == seq![a, b, c, Seq::<char>::empty()]
            &&& lines(a + e + (b + e + e)) == seq![a, b, Seq::<char>::empty()]
        }),
{
    let e = line_end();
    let none = Seq::<char>::empty();
    lemma_crlf_line(none, none);
    assert(none + e + none =~= e);
    assert(lines(none) =~= Seq::empty());
    assert(lines(e) =~= seq![none]);
    assert(c + e + e == c + e + (none + e + none));
    assert(b + e + e == b + e + (none + e + none));
    lemma_crlf_line(c, none + e + none);
    lemma_crlf_line(b, none + e + none);
    lemma_crlf_line(b, c + e + e);
    lemma_crlf_line(a, b + e + (c + e + e));
    lemma_crlf_line(a, b + e + e);
    assert(seq![a] + (seq![b] + (seq![c] + seq![none])) =~= seq![a, b, c, none]);
    assert(seq![a] + (seq![b] + seq![none]) =~= seq![a, b, none]);
}

proof fn lemma_plain_number(n: int)
    requires
        0 <= n,
    ensures
        plain_text(decimal(n)),
{
    law_decimal_reads_back(n, n);
}

/// A plain answer says, line by line, how the request went, what follows and how many bytes
/// of it.
pub proof fn law_a_plain_answer_line_by_line(code: u16, ctype: Seq<char>, n: u64)
    requires
        plain_text(ctype),
    ensures
        ({
            let words = if code == 403 {
                "Forbidden"@
            } else if code == 404 {
                "Not Found"@
            } else if code == 206 {
                "Partial Content"@
            } else if code == 416 {
                "Range Not Satisfiable"@
            } else {
                "OK"@
            };
            lines(plain_head(code as int, ctype, n as int)) == seq![
                "HTTP/1.1 "@ + decimal(code as int) + " "@ + words,
                "Content-Type: "@ + ctype,
                "Content-Length: "@ + decimal(n as int),
                Seq::<char>::empty(),
            ]
        }),
{
    let e = line_end();
    let words = reason(code as int);
    let a = "HTTP/1.1 "@ + decimal(code as int) + " "@ + words;
    let b = "Content-Type: "@ + ctype;
    let c = "Content-Length: "@ + decimal(n as int);
    lemma_plain_number(code as int);
    lemma_plain_number(n as int);
    assert(plain_text(a) && plain_text(b) && plain_text(c)) by {
        reveal_strlit("HTTP/1.1 ");
        reveal_strlit(" ");
        reveal_strlit("Forbidden");
        reveal_strlit("Not Found");
        reveal_strlit("Partial Content");
        reveal_strlit("Range Not Satisfiable");
        reveal_strlit("OK");
        reveal_strlit("Content-Type: ");
        reveal_strlit("Content-Length: ");
        assert(plain_text(words));
    }
    assert("\r\nContent-Type: "@ =~= e + "Content-Type: "@ && "\r\nContent-Length: "@ =~= e
        + "Content-Length: "@ && "\r\n\r\n"@ =~= e + e) by {
        reveal_strlit("\r\nContent-Type: ");
        reveal_strlit("Content-Type: ");
        reveal_strlit("\r\nContent-Length: ");
        reveal_strlit("Content-Length: ");
        reveal_strlit("\r\n\r\n");
    }
    lemma_three_joined(a, e, "Content-Type: "@, ctype, "Content-Length: "@, decimal(n as int));
    lemma_four_lines(a, b, c);
}

proof fn lemma_three_joined(
    a: Seq<char>,
    e: Seq<char>,
    t: Seq<char>,
    ctype: Seq<char>,
    l: Seq<char>,
    n: Seq<char>,
)
    ensures
        a + (e + t) + ctype + (e + l) + n + (e + e) == a + e + ((t + ctype) + e + ((l + n) + e + e)),
{
    lemma_joined(a, e, t);
    lemma_joined(a + e, t, ctype);
    lemma_joined(a + e + (t + ctype), e, l);
    lemma_joined(a + e, t + ctype, e);
    lemma_joined(a + e, t + ctype + e, l);
    lemma_joined(a + e, t + ctype + e + l, n);
    lemma_joined(a + e, t + ctype + e + l + n, e + e);
    lemma_joined(t + ctype + e, l, n);
    lemma_joined(t + ctype + e, l + n, e + e);
    lemma_joined(l + n, e, e);
}

/// Whoever asks how long a file is reads that there is one and how many bytes it has.
pub proof fn law_a_length_is_answered_line_by_line(n: u64)
    ensures
        lines(length_head(n as int)) == seq![
            "HTTP/1.1 200 OK"@,
            "Accept-Ranges: bytes"@,
            "Content-Length: "@ + decimal(n as int),
            Seq::<char>::empty(),
        ],
{
    let e = line_end();
    let a = "HTTP/1.1 200 OK"@;
    let b = "Accept-Ranges: bytes"@;
    let l = "Content-Length: "@;
    let d = decimal(n as int);
    lemma_plain_number(n as int);
    assert(plain_text(a) && plain_text(b) && plain_text(l)) by {
        reveal_strlit("HTTP/1.1 200 OK");
        reveal_strlit("Accept-Ranges: bytes");
        reveal_strlit("Content-Length: ");
    }
    assert(plain_text(l + d));
    assert("HTTP/1.1 200 OK\r\nAccept-Ranges: bytes\r\nContent-Length: "@ =~= a + e + (b + e + l)
        && "\r\n\r\n"@ =~= e + e) by {
        reveal_strlit("HTTP/1.1 200 OK");
        reveal_strlit("Accept-Ranges: bytes");
        reveal_strlit("Content-Length: ");
        reveal_strlit("HTTP/1.1 200 OK\r\nAccept-Ranges: bytes\r\nContent-Length: ");
        reveal_strlit("\r\n\r\n");
    }
    lemma_joined(a + e, b + e + l, d);
    lemma_joined(b + e, l, d);
    lemma_joined(a + e, b + e + (l + d), e + e);
    lemma_joined(b + e, l + d, e + e);
    lemma_joined(l + d, e, e);
    lemma_four_lines(a, b, l + d);
}

/// A browser that has sent something is led back to the front page, with what became of it
/// behind the question mark; one that was meant for another host is led to our front page
/// and let go. Nothing follows either head.
pub proof fn law_redirects_line_by_line(tag: Seq<char>, base: Seq<char>)
    requires
        plain_text(tag),
        plain_text(base),
    ensures
        lines(done_head(tag)) == seq![
            "HTTP/1.1 303 See Other"@,
            "Location: /?done="@ + tag,
            "Content-Length: 0"@,
            Seq::<char>::empty(),
        ],
        lines(captive_head(base)) == seq![
            "HTTP/1.1 302 Found"@,
            "Location: "@ + base + "/"@,
            "Content-Length: 0"@,
            "Connection: close"@,
            Seq::<char>::empty(),
        ],
{
    let e = line_end();
    let none = Seq::<char>::empty();
    let a = "HTTP/1.1 303 See Other"@;
    let l = "Location: /?done="@;
    let z = "Content-Length: 0"@;
    assert(plain_text(a) && plain_text(l) && plain_text(z)) by {
        reveal_strlit("HTTP/1.1 303 See Other");
        reveal_strlit("Location: /?done=");
        reveal_strlit("Content-Length: 0");
    }
    assert(plain_text(l + tag));
    assert("HTTP/1.1 303 See Other\r\nLocation: /?done="@ =~= a + e + l
        && "\r\nContent-Length: 0\r\n\r\n"@ =~= e + (z + e + e)) by {
        reveal_strlit("HTTP/1.1 303 See Other");
        reveal_strlit("Location: /?done=");
        reveal_strlit("Content-Length: 0");
        reveal_strlit("HTTP/1.1 303 See Other\r\nLocation: /?done=");
        reveal_strlit("\r\nContent-Length: 0\r\n\r\n");
    }
    lemma_joined(a + e, l, tag);
    lemma_joined(a + e, l + tag, e + (z + e + e));
    lemma_joined(l + tag, e, z + e + e);
    lemma_four_lines(a, l + tag, z);
    let f = "HTTP/1.1 302 Found"@;
    let w = "Location: "@;
    let s = "/"@;
    let g = "Connection: close"@;
    assert(plain_text(f) && plain_text(w) && plain_text(s) && plain_text(g)) by {
        reveal_strlit("HTTP/1.1 302 Found");
        reveal_strlit("Location: ");
        reveal_strlit("/");
        reveal_strlit("Connection: close");
    }
    assert(plain_text(w + base + s));
    assert("HTTP/1.1 302 Found\r\nLocation: "@ =~= f + e + w
        && "/\r\nContent-Length: 0\r\nConnection: close\r\n\r\n"@ =~= s + (e + (z + e + (g + e + e))))
        by {
        reveal_strlit("HTTP/1.1 302 Found");
        reveal_strlit("Location: ");
        reveal_strlit("/");
        reveal_strlit("Connection: close");
        reveal_strlit("Content-Length: 0");
        reveal_strlit("HTTP/1.1 302 Found\r\nLocation: ");
        reveal_strlit("/\r\nContent-Length: 0\r\nConnection: close\r\n\r\n");
    }
    let tail = z + e + (g + e + e);
    lemma_joined(f + e, w, base);
    lemma_joined(f + e, w + base, s + (e + tail));
    lemma_joined(w + base, s, e + tail);
    lemma_joined(w + base + s, e, tail);
    lemma_four_lines(z, g, g);
    lemma_crlf_line(w + base + s, tail);
    lemma_crlf_line(f, (w + base + s) + e + tail);
    assert(seq![f] + (seq![w + base + s] + seq![z, g, none]) =~= seq![f, w + base + s, z, g, none]);
}

/// What is typed into a browser leads to the address and the port: the port is left out
/// exactly where it goes without saying.
pub proof fn law_what_is_typed_leads_to_us(ip: Seq<char>, port: u16)
    requires
        forall|i: int| 0 <= i < ip.len() ==> #[trigger] ip[i] != ':',
    ensures
        port == 80 ==> typed_address(ip, port as int) == ip,
        port != 80 ==> cut(typed_address(ip, port as int), ':') == Some((ip, decimal(port as int))),
{
    reveal_strlit(":");
    assert(":"@ =~= seq![':']);
    assert(!ip.contains(':'));
    law_a_text_is_cut_where_it_should(ip, ':', decimal(port as int));
}

/// A page that no cache may keep says so in both ways that caches know, besides what every
/// page says.
pub proof fn law_a_fresh_page_line_by_line(ctype: Seq<char>, n: u64)
    requires
        plain_text(ctype),
    ensures
        lines(fresh_head(ctype, n as int)) == seq![
            "HTTP/1.1 200 OK"@,
            "Content-Type: "@ + ctype,
            "Cache-Control: no-store, must-revalidate"@,
            "Pragma: no-cache"@,
            "Content-Length: "@ + decimal(n as int),
            Seq::<char>::empty(),
        ],
{
    let e = line_end();
    let none = Seq::<char>::empty();
    let a = "HTTP/1.1 200 OK"@;
    let t = "Content-Type: "@;
    let c = "Cache-Control: no-store, must-revalidate"@;
    let p = "Pragma: no-cache"@;
    let l = "Content-Length: "@;
    let d = decimal(n as int);
    lemma_plain_number(n as int);
    assert(plain_text(a) && plain_text(t) && plain_text(c) && plain_text(p) && plain_text(l)) by {
        reveal_strlit("HTTP/1.1 200 OK");
        reveal_strlit("Content-Type: ");
        reveal_strlit("Cache-Control: no-store, must-revalidate");
        reveal_strlit("Pragma: no-cache");
        reveal_strlit("Content-Length: ");
    }
    assert(plain_text(t + ctype) && plain_text(l + d));
    let middle = "\r\nCache-Control: no-store, must-revalidate\r\nPragma: no-cache\r\nContent-Length: "@;
    assert("HTTP/1.1 200 OK\r\nContent-Type: "@ =~= a + e + t && "\r\n\r\n"@ =~= e + e) by {
        reveal_strlit("HTTP/1.1 200 OK");
        reveal_strlit("Content-Type: ");
        reveal_strlit("HTTP/1.1 200 OK\r\nContent-Type: ");
        reveal_strlit("\r\n\r\n");
    }
    assert(middle =~= e + (c + e + (p + e + l))) by {
        reveal_strlit("Cache-Control: no-store, must-revalidate");
        reveal_strlit("Pragma: no-cache");
        reveal_strlit("Content-Length: ");
        reveal_strlit(
            "\r\nCache-Control: no-store, must-revalidate\r\nPragma: no-cache\r\nContent-Length: ",
        );
    }
    lemma_fresh_joined(a, e, t, ctype, c, p, l, d);
    lemma_four_lines(p, l + d, p);
    let tail = p + e + ((l + d) + e + e);
    lemma_crlf_line(c, tail);
    lemma_crlf_line(t + ctype, c + e + tail);
    lemma_crlf_line(a, (t + ctype) + e + (c + e + tail));
    assert(seq![a] + (seq![t + ctype] + (seq![c] + seq![p, l + d, none])) =~= seq![
        a,
        t + ctype,
        c,
        p,
        l + d,
        none,
    ]);
}

proof fn lemma_fresh_joined(
    a: Seq<char>,
    e: Seq<char>,
    t: Seq<char>,
    ctype: Seq<char>,
    c: Seq<char>,
    p: Seq<char>,
    l: Seq<char>,
    d: Seq<char>,
)
    ensures
        (a + e + t) + ctype + (e + (c + e + (p + e + l))) + d + (e + e) == a + e + ((t + ctype) + e + (
        c + e + (p + e + ((l + d) + e + e)))),
{
    let k = t + ctype;
    let r = c + e + (p + e + l);
    let z = e + e;
    lemma_joined(a + e, t, ctype);
    lemma_joined(a + e, k, e + r);
    lemma_joined(k, e, r);
    lemma_joined(a + e, k + e + r, d);
    lemma_joined(a + e, k + e + r + d, z);
    lemma_joined(k + e, r, d);
    lemma_joined(k + e, r + d, z);
    lemma_joined(c + e, p + e + l, d);
    lemma_joined(c + e, p + e + l + d, z);
    lemma_joined(p + e, l, d);
    lemma_joined(p + e, l + d, z);
    lemma_joined(l + d, e, e);
}

} // verus!
