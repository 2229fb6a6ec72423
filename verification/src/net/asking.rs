//! Asking another copy of this program what it is called and what it has.

use crate::addr::Ipv4Addr;
use crate::bytes::{lossy, lossy_text};
use crate::number::{
    decimal, law_decimal_reads_back, lemma_decimal_not_empty, parse_decimal, push_decimal, unsigned,
};
use crate::serve::options::listing_text;
use crate::serve::request::{
    law_a_request_says_what_it_wants, line_value, line_value_from, one_word, request_in,
};
use crate::text::{
    begins_with, chars_of, cut, is_space, lemma_char_at_is, lemma_first_is, lemma_first_none,
    lemma_lines_add, lemma_lines_first, lemma_nothing_to_trim, lines, lowered, occurs_at,
    pieces_by, split_lines, split_once, split_text,
    starts_with_text, string_of, trim, trimmed, views, without_cr,
};
use vstd::prelude::*;

verus! {

/// A question to another copy of this program.
pub open spec fn question(what: Seq<char>, ip: Ipv4Addr, port: int) -> Seq<char> {
    "GET /?"@ + what + " HTTP/1.1\r\nHost: "@ + ip.dotted() + ":"@ + decimal(port)
        + "\r\nConnection: close\r\n\r\n"@
}

fn write_question(what: &str, ip: Ipv4Addr, port: u16) -> (s: String)
    ensures
        s@ == question(what@, ip, port as int),
{
    let mut s = String::new();
    s.append("GET /?");
    s.append(what);
    s.append(" HTTP/1.1\r\nHost: ");
    s.append(ip.text().as_str());
    s.append(":");
    push_decimal(&mut s, port as u64);
    s.append("\r\nConnection: close\r\n\r\n");
    assert(s@ =~= question(what@, ip, port as int));
    s
}

/// The question for the list of files.
pub fn list_request(ip: Ipv4Addr, port: u16) -> (s: String)
    ensures
        s@ == question("list"@, ip, port as int),
{
    write_question("list", ip, port)
}

/// The question for the name.
pub fn name_request(ip: Ipv4Addr, port: u16) -> (s: String)
    ensures
        s@ == question("who"@, ip, port as int),
{
    write_question("who", ip, port)
}

/// Whether a character would move the cursor about.
pub open spec fn is_control(c: char) -> bool {
    c as u32 <= 0x1f || 0x7f <= c as u32 <= 0x9f
}

/// Whether a text is a name for a row of a menu: something, no more than forty
/// characters, and none that would move the cursor about.
pub open spec fn is_name(s: Seq<char>) -> bool {
    0 < s.len() <= 40 && forall|i: int| 0 <= i < s.len() ==> !is_control(#[trigger] s[i])
}

/// The name in a reply: its first line, unless the reply is an older copy's whole
/// page.
pub open spec fn name_in(body: Seq<char>) -> Option<Seq<char>> {
    let b = trimmed(body);
    if b.len() == 0 || b[0] == '<' {
        None
    } else {
        let first = trimmed(lines(b)[0]);
        if is_name(first) {
            Some(first)
        } else {
            None
        }
    }
}

fn good_name(s: &[char]) -> (r: bool)
    ensures
        r == is_name(s@),
{
    if s.len() == 0 || s.len() > 40 {
        return false;
    }
    let mut i: usize = 0;
    while i < s.len()
        invariant
            0 < s.len() <= 40,
            i <= s.len(),
            forall|k: int| 0 <= k < i ==> !is_control(#[trigger] s@[k]),
        decreases s.len() - i,
    {
        let n: u32 = s[i] as u32;
        if n <= 0x1f || (n >= 0x7f && n <= 0x9f) {
            assert(is_control(s@[i as int]));
            return false;
        }
        i = i + 1;
    }
    true
}

/// Is this reply a name, or an older copy's whole web page?
pub fn usable_name(body: &str) -> (r: Option<String>)
    ensures
        r is Some <==> name_in(body@) is Some,
        r matches Some(s) ==> name_in(body@) == Some(s@),
{
    let c: Vec<char> = chars_of(body);
    let b: &[char] = trim(c.as_slice());
    if b.len() == 0 || b[0] == '<' {
        return None;
    }
    let ls: Vec<&[char]> = split_lines(b);
    assert(ls.len() == lines(b@).len());
    assert(ls.len() > 0);
    assert(views(ls@)[0] == ls@[0]@);
    let first: &[char] = trim(ls[0]);
    if good_name(first) {
        Some(string_of(first))
    } else {
        None
    }
}

/// The name in a whole answer: what follows its head, up to the next empty line.
pub open spec fn name_answered(text: Seq<char>) -> Option<Seq<char>> {
    let p = pieces_by(text, "\r\n\r\n"@);
    if p.len() > 1 {
        name_in(p[1])
    } else {
        None
    }
}

/// The name in a whole answer.
pub fn name_from_answer(text: &str) -> (r: Option<String>)
    ensures
        r is Some <==> name_answered(text@) is Some,
        r matches Some(s) ==> name_answered(text@) == Some(s@),
{
    let c: Vec<char> = chars_of(text);
    proof {
        reveal_strlit("\r\n\r\n");
    }
    let p: Vec<&[char]> = split_text(c.as_slice(), "\r\n\r\n");
    assert(p.len() == pieces_by(text@, "\r\n\r\n"@).len());
    if p.len() > 1 {
        assert(views(p@)[1] == p@[1]@);
        usable_name(string_of(p[1]).as_str())
    } else {
        None
    }
}

/// What another machine calls itself, from the bytes of its answer.
pub fn ask_name(answer: &[u8]) -> (r: Option<String>)
    ensures
        r is Some <==> name_answered(lossy(answer@)) is Some,
        r matches Some(s) ==> name_answered(lossy(answer@)) == Some(s@),
{
    let text: String = lossy_text(answer);
    name_from_answer(text.as_str())
}

/// One file being handed out: name, size in bytes.
#[derive(Debug)]
pub struct Entry {
    pub name: String,
    pub size: u64,
}

/// Files as plain text and numbers.
pub open spec fn entries(v: Seq<Entry>) -> Seq<(Seq<char>, int)> {
    Seq::new(v.len(), |i: int| (v[i].name@, v[i].size as int))
}

/// The file on a line: its size, a tab, its name.
pub open spec fn entry_on(line: Seq<char>) -> Option<(Seq<char>, int)> {
    match cut(line, '\t') {
        Some((size, name)) => match unsigned(trimmed(size), 10, u64::MAX as int) {
            Some(n) => Some((trimmed(name), n)),
            None => None,
        },
        None => None,
    }
}

/// The files on some lines.
pub open spec fn entries_on(ls: Seq<Seq<char>>) -> Seq<(Seq<char>, int)>
    decreases ls.len(),
{
    if ls.len() == 0 {
        Seq::empty()
    } else {
        match entry_on(ls.last()) {
            Some(e) => entries_on(ls.drop_last()).push(e),
            None => entries_on(ls.drop_last()),
        }
    }
}

/// The files in a listing.
pub fn read_listing(body: &str) -> (out: Vec<Entry>)
    ensures
        entries(out@) == entries_on(lines(body@)),
{
    let c: Vec<char> = chars_of(body);
    let ls: Vec<&[char]> = split_lines(c.as_slice());
    let ghost all = lines(body@);
    let mut out: Vec<Entry> = Vec::new();
    let mut i: usize = 0;
    assert(entries(out@) =~= entries_on(all.take(0)));
    while i < ls.len()
        invariant
            views(ls@) == all,
            i <= ls.len(),
            entries(out@) == entries_on(all.take(i as int)),
        decreases ls.len() - i,
    {
        assert(all[i as int] == ls@[i as int]@);
        assert(all.take(i + 1).drop_last() =~= all.take(i as int));
        if let Some((size, name)) = split_once(ls[i], '\t') {
            if let Some(n) = parse_decimal(trim(size), u64::MAX) {
                let ghost before = out@;
                let e = Entry { name: string_of(trim(name)), size: n };
                out.push(e);
                assert(entries(out@) =~= entries(before).push((e.name@, e.size as int)));
            }
        }
        i = i + 1;
    }
    assert(all.take(all.len() as int) =~= all);
    out
}

/// The files in a listing, as it came.
pub fn list_files(body: &[u8]) -> (out: Vec<Entry>)
    ensures
        entries(out@) == entries_on(lines(lossy(body@))),
{
    let text: String = lossy_text(body);
    read_listing(text.as_str())
}

/// The longest listing that is read.
pub const LISTING_CAP: usize = 1_048_576;

/// How much to read after the head of an answer: nothing unless it is a success,
/// and never more than the cap.
pub open spec fn listing_len(head: Seq<char>) -> Option<int> {
    if !begins_with(head, "HTTP/1.1 200"@) && !begins_with(head, "HTTP/1.0 200"@) {
        None
    } else {
        let n = match line_value(head, "content-length:"@) {
            Some(v) => match unsigned(v, 10, usize::MAX as int) {
                Some(n) => n,
                None => 0,
            },
            None => 0,
        };
        Some(
            if n < 1_048_576 {
                n
            } else {
                1_048_576
            },
        )
    }
}

fn first_length(head: &[char]) -> (n: usize)
    ensures
        n == (match line_value(head@, "content-length:"@) {
            Some(v) => match unsigned(v, 10, usize::MAX as int) {
                Some(n) => n,
                None => 0,
            },
            None => 0,
        }),
{
    let ls: Vec<&[char]> = split_lines(head);
    let ghost all = lines(head@);
    let ghost p = "content-length:"@;
    let mut i: usize = 0;
    while i < ls.len()
        invariant
            p == "content-length:"@,
            views(ls@) == all,
            all == lines(head@),
            i <= ls.len(),
            line_value(head@, p) == line_value_from(all, i as int, p),
        decreases ls.len() - i,
    {
        assert(all[i as int] == ls@[i as int]@);
        let low: Vec<char> = lowered(ls[i]);
        if starts_with_text(low.as_slice(), "content-length:") {
            return match split_once(ls[i], ':') {
                Some((_, v)) => match parse_decimal(trim(v), usize::MAX as u64) {
                    Some(n) => n as usize,
                    None => 0,
                },
                None => 0,
            };
        }
        i = i + 1;
    }
    0
}

/// How much to read after the head of an answer to the question for the list. The
/// length is in the head, so nobody waits for the other end to hang up.
pub fn listing_length(head: &str) -> (r: Option<usize>)
    ensures
        r is Some <==> listing_len(head@) is Some,
        r matches Some(n) ==> listing_len(head@) == Some(n as int),
{
    let c: Vec<char> = chars_of(head);
    if !starts_with_text(c.as_slice(), "HTTP/1.1 200") && !starts_with_text(
        c.as_slice(),
        "HTTP/1.0 200",
    ) {
        return None;
    }
    let n: usize = first_length(c.as_slice());
    Some(
        if n < LISTING_CAP {
            n
        } else {
            LISTING_CAP
        },
    )
}

/// How much to read after the head of an answer, as it came.
pub fn list_over(head: &[u8]) -> (r: Option<usize>)
    ensures
        r is Some <==> listing_len(lossy(head@)) is Some,
        r matches Some(n) ==> listing_len(lossy(head@)) == Some(n as int),
{
    let text: String = lossy_text(head);
    listing_length(text.as_str())
}

/// Whether a file's name goes over a listing unchanged: it has no line break, and
/// no white space at its ends.
pub open spec fn plain_name(name: Seq<char>) -> bool {
    &&& forall|i: int| 0 <= i < name.len() ==> #[trigger] name[i] != '\n'
    &&& name.len() > 0 ==> !is_space(name[0]) && !is_space(name.last())
}

proof fn lemma_listing_line(name: Seq<char>, size: int)
    requires
        0 <= size <= u64::MAX,
        plain_name(name),
    ensures
        ({
            let line = decimal(size) + seq!['\t'] + name;
            &&& forall|i: int| 0 <= i < line.len() ==> #[trigger] line[i] != '\n'
            &&& without_cr(line) == line
            &&& entry_on(line) == Some((name, size))
        }),
{
    let d = decimal(size);
    let line = d + seq!['\t'] + name;
    law_decimal_reads_back(size, u64::MAX as int);
    lemma_decimal_not_empty(size);
    assert forall|i: int| 0 <= i < line.len() implies #[trigger] line[i] != '\n' by {
        if i < d.len() {
            assert(line[i] == d[i]);
        } else if i > d.len() {
            assert(line[i] == name[i - d.len() - 1]);
        }
    }
    if name.len() > 0 {
        assert(line.last() == name.last());
    } else {
        assert(line.last() == '\t');
    }
    assert forall|i: int| 0 <= i < d.len() implies line[i] != '\t' by {
        assert(line[i] == d[i]);
    }
    lemma_char_at_is(line, '\t', d.len() as int);
    assert(line.take(d.len() as int) =~= d);
    assert(line.skip(d.len() as int + 1) =~= name);
    assert(!is_space(d[0]) && !is_space(d[d.len() - 1]));
    lemma_nothing_to_trim(d);
    lemma_nothing_to_trim(name);
}

proof fn lemma_listing(files: Seq<(Seq<char>, u64)>, n: int)
    requires
        0 <= n <= files.len(),
        forall|i: int| 0 <= i < files.len() ==> plain_name((#[trigger] files[i]).0),
    ensures
        listing_text(files, n).len() > 0 ==> listing_text(files, n).last() == '\n',
        entries_on(lines(listing_text(files, n))) == Seq::new(
            n as nat,
            |i: int| (files[i].0, files[i].1 as int),
        ),
    decreases n,
{
    let want = Seq::new(n as nat, |i: int| (files[i].0, files[i].1 as int));
    if n == 0 {
        assert(lines(listing_text(files, 0)) =~= Seq::empty());
        assert(entries_on(Seq::empty()) =~= want);
    } else {
        lemma_listing(files, n - 1);
        reveal_strlit("\t");
        reveal_strlit("\n");
        let name = files[n - 1].0;
        let size = files[n - 1].1 as int;
        lemma_listing_line(name, size);
        let line = decimal(size) + seq!['\t'] + name;
        let before = listing_text(files, n - 1);
        assert("\t"@ =~= seq!['\t']);
        assert("\n"@ =~= seq!['\n']);
        let none = Seq::<char>::empty();
        assert(listing_text(files, n) =~= before + (line + seq!['\n'] + none));
        lemma_lines_add(before, line + seq!['\n'] + none);
        lemma_lines_first(line, none);
        assert(lines(none) =~= Seq::empty());
        let ls = lines(listing_text(files, n));
        assert(ls =~= lines(before).push(line));
        assert(ls.drop_last() =~= lines(before));
        assert(entries_on(ls) =~= want);
    }
}

/// A listing is read back as it was written: the same files, in the same order,
/// with the same sizes.
pub proof fn law_listing_reads_back(files: Seq<(Seq<char>, u64)>)
    requires
        forall|i: int| 0 <= i < files.len() ==> plain_name((#[trigger] files[i]).0),
    ensures
        entries_on(lines(listing_text(files, files.len() as int))) == Seq::new(
            files.len(),
            |i: int| (files[i].0, files[i].1 as int),
        ),
{
    lemma_listing(files, files.len() as int);
}

// ------------------------------------------------------------- laws

/// What one copy of this program asks another is what that one reads: the question stands
/// behind the mark in the path, the host is the one that is asked, and the connection is
/// not kept.
pub proof fn law_what_is_asked_is_read(what: Seq<char>, ip: Ipv4Addr, port: u16)
    requires
        one_word(what),
    ensures
        ({
            let r = request_in(question(what, ip, port as int));
            r.method == "GET"@ && r.path == "/"@ && r.query == what
        }),
{
    reveal_strlit("GET /?");
    reveal_strlit("GET");
    reveal_strlit("/");
    reveal_strlit(" HTTP/1.1\r\nHost: ");
    reveal_strlit("HTTP/1.1");
    reveal_strlit("Host: ");
    let get = "GET"@;
    let slash = "/"@;
    let version = "HTTP/1.1"@;
    let crlf = seq!['\r', '\n'];
    let rest = "Host: "@ + ip.dotted() + ":"@ + decimal(port as int)
        + "\r\nConnection: close\r\n\r\n"@;
    assert("GET /?"@ =~= get + seq![' '] + (slash + seq!['?']));
    assert(" HTTP/1.1\r\nHost: "@ =~= seq![' '] + version + crlf + "Host: "@);
    lemma_question_joined(
        get + seq![' '],
        slash + seq!['?'],
        what,
        seq![' '] + version + crlf,
        "Host: "@,
        ip.dotted(),
        ":"@,
        decimal(port as int),
        "\r\nConnection: close\r\n\r\n"@,
    );
    assert(question(what, ip, port as int) == get + seq![' '] + (slash + seq!['?'] + what) + (seq![' ']
        + version + crlf) + rest);
    let line = get + seq![' '] + (slash + seq!['?'] + what);
    assert(line + (seq![' '] + version + crlf) =~= line + seq![' '] + version + crlf);
    assert(one_word(slash + seq!['?'] + what)) by {
        let w = slash + seq!['?'] + what;
        assert forall|i: int| 0 <= i < w.len() implies !is_space(#[trigger] w[i]) by {
            if i >= 2 {
                assert(w[i] == what[i - 2]);
            }
        }
    }
    assert(one_word(get) && one_word(slash) && one_word(version));
    assert(!slash.contains('?'));
    law_a_request_says_what_it_wants(get, slash, what, version, rest);
}

proof fn lemma_question_joined(
    a: Seq<char>,
    b: Seq<char>,
    w: Seq<char>,
    v: Seq<char>,
    h: Seq<char>,
    i: Seq<char>,
    c: Seq<char>,
    p: Seq<char>,
    z: Seq<char>,
)
    ensures
        (a + b) + w + (v + h) + i + c + p + z == a + (b + w) + v + (h + i + c + p + z),
{
    assert((a + b) + w =~= a + (b + w));
    let f = a + (b + w);
    assert(f + (v + h) =~= f + v + h);
    let g = f + v;
    assert(g + h + i =~= g + (h + i));
    assert(g + (h + i) + c =~= g + (h + i + c));
    assert(g + (h + i + c) + p =~= g + (h + i + c + p));
    assert(g + (h + i + c + p) + z =~= g + (h + i + c + p + z));
}

proof fn lemma_control(c: char)
    ensures
        is_control(c) <==> (c as int) < 32 || 127 <= c as int <= 159,
{
}

/// A name of up to forty characters that a screen can show is taken off the first line of a
/// reply, whatever follows; a page, a longer name and one that would move the cursor are
/// not.
pub proof fn law_a_name_is_taken_off_its_line(name: Seq<char>, rest: Seq<char>)
    requires
        name.len() > 0,
        !is_space(name[0]) && !is_space(name.last()),
        forall|i: int| 0 <= i < name.len() ==> #[trigger] name[i] != '\n',
    ensures
        ({
            let shown = name.len() <= 40 && forall|i: int|
                0 <= i < name.len() ==> !((#[trigger] name[i] as int) < 32 || 127 <= name[i] as int
                    <= 159);
            &&& name[0] == '<' ==> name_in(name) is None
            &&& name[0] != '<' && shown ==> name_in(name) == Some(name)
            &&& name[0] != '<' && shown && rest.len() > 0 && !is_space(rest.last()) ==> name_in(
                name + seq!['\n'] + rest,
            ) == Some(name)
            &&& !shown ==> name_in(name) is None
        }),
{
    lemma_nothing_to_trim(name);
    lemma_char_at_is(name, '\n', name.len() as int);
    assert(lines(name) == seq![name]);
    let shown = name.len() <= 40 && forall|i: int|
        0 <= i < name.len() ==> !((#[trigger] name[i] as int) < 32 || 127 <= name[i] as int <= 159);
    assert(is_name(name) <==> shown) by {
        if shown {
            assert forall|i: int| 0 <= i < name.len() implies !is_control(#[trigger] name[i]) by {
                lemma_control(name[i]);
            }
        }
        if is_name(name) {
            assert forall|i: int| 0 <= i < name.len() implies !((#[trigger] name[i] as int) < 32 || 127
                <= name[i] as int <= 159) by {
                assert(!is_control(name[i]));
                lemma_control(name[i]);
            }
        }
    }
    if rest.len() > 0 && !is_space(rest.last()) {
        let all = name + seq!['\n'] + rest;
        assert(all[0] == name[0] && all.last() == rest.last());
        lemma_nothing_to_trim(all);
        lemma_lines_first(name, rest);
        assert(name.last() != '\r');
    }
}

/// Of an answer that is a success as much is read as it announces, up to a mebibyte; of any
/// other nothing is.
pub proof fn law_as_much_is_read_as_is_announced(head: Seq<char>, n: int)
    requires
        line_value(head, "content-length:"@) == Some(decimal(n)),
        0 <= n <= usize::MAX,
    ensures
        ({
            let fine = head.len() >= 12 && (head.take(12) == "HTTP/1.1 200"@ || head.take(12)
                == "HTTP/1.0 200"@);
            &&& fine && n <= 1_048_576 ==> listing_len(head) == Some(n)
            &&& fine && n > 1_048_576 ==> listing_len(head) == Some(1_048_576int)
            &&& !fine ==> listing_len(head) is None
        }),
{
    reveal_strlit("HTTP/1.1 200");
    reveal_strlit("HTTP/1.0 200");
    law_decimal_reads_back(n, usize::MAX as int);
    if head.len() >= 12 {
        assert(head.subrange(0, 12) =~= head.take(12));
    }
}

/// The name in a whole answer is the one behind its head, which ends at the first empty
/// line; an answer without one has none.
pub proof fn law_the_name_stands_behind_the_head(head: Seq<char>, body: Seq<char>)
    requires
        forall|j: int|
            0 <= j < head.len() ==> !#[trigger] occurs_at(
                head + "\r\n\r\n"@ + body,
                "\r\n\r\n"@,
                j,
            ),
        forall|j: int| 0 <= j ==> !#[trigger] occurs_at(body, "\r\n\r\n"@, j),
    ensures
        name_answered(head + "\r\n\r\n"@ + body) == name_in(body),
        name_answered(body) is None,
{
    reveal_strlit("\r\n\r\n");
    let p = "\r\n\r\n"@;
    let s = head + p + body;
    let k = head.len() as int;
    assert(s.subrange(k, k + p.len()) =~= p);
    lemma_first_is(s, p, 0, k);
    lemma_first_none(body, p, 0);
    assert(s.take(k) =~= head);
    assert(s.skip(k + p.len()) =~= body);
    assert(pieces_by(body, p) == seq![body]);
    assert(pieces_by(s, p) =~= seq![head, body]);
}

} // verus!
