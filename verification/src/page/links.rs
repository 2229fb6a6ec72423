//! Which files the list on the class page links to.

use super::html::{
    file_part, file_parts, frame_text, html, is_film, is_sound, extension, opens,
    law_escaped_text_is_only_text, FileRow, FRAME_HEAD, NO_FILES, NO_FOLDER, PAGE_END,
};
use crate::serve::order::{in_name_order, law_names_are_in_order, lemma_same_names};
use crate::serve::paths::{
    escaped_byte, escaped_bytes, law_link_leads_back, lemma_escaped_plain, strays, Naming,
};
use crate::serve::request::{
    for_handed_in, law_what_is_seen_can_be_fetched, path_and_query, route_of, RequestModel,
    RouteModel,
};
use crate::serve::roster::{in_sight, seen_files, sights, Item, Ticked};
use crate::text::{
    cut, first_at, lemma_char_at, lemma_char_at_is, lemma_first_from, lemma_first_is,
    lemma_first_none, lemma_pairless, lemma_pairless_join, occurs_at, pair_at, pairless,
};
use vstd::prelude::*;
use vstd::utf8::encode_utf8;

verus! {

/// How a link to keep a file begins.
pub const GET_LINK: &'static str = "<a class=btn href=\"/";

/// Where the links to keep a file lead, in their order: what stands behind the beginning
/// of each, up to the next quote.
pub open spec fn gets(s: Seq<char>) -> Seq<Seq<char>>
    decreases s.len(),
{
    match first_at(s, GET_LINK@) {
        None => Seq::empty(),
        Some(k) => {
            let rest = s.skip(k + GET_LINK@.len());
            match cut(rest, '"') {
                None => seq![rest],
                Some((to, more)) => {
                    proof {
                        lemma_first_from(s, GET_LINK@, 0);
                        lemma_char_at(rest, '"');
                    }
                    seq![to] + gets(more)
                },
            }
        },
    }
}

/// Where the link to keep a file leads.
pub open spec fn get_target(name: Seq<char>) -> Seq<char> {
    escaped_bytes(encode_utf8(name)) + "?dl=1"@
}

/// Whether no link begins in a text, nor at its end.
pub open spec fn linkless(s: Seq<char>) -> bool {
    &&& forall|j: int| !#[trigger] pair_at(s, '<', 'a', j)
    &&& s.len() > 0 ==> s.last() != '<'
}

proof fn lemma_linkless(s: Seq<char>)
    requires
        s.len() > 0,
        pairless(s, '<', 'a', 0, s.len() - 1),
        s.last() != '<',
    ensures
        linkless(s),
{
    lemma_pairless(s, '<', 'a', 0, s.len() - 1);
}

proof fn lemma_bracketless(s: Seq<char>)
    requires
        forall|i: int| 0 <= i < s.len() ==> #[trigger] s[i] != '<',
    ensures
        linkless(s),
{
}

proof fn lemma_linkless_both(a: Seq<char>, b: Seq<char>)
    requires
        linkless(a),
        linkless(b),
    ensures
        linkless(a + b),
{
    let s = a + b;
    assert forall|j: int| !#[trigger] pair_at(s, '<', 'a', j) by {
        if pair_at(s, '<', 'a', j) {
            if j + 1 < a.len() {
                assert(pair_at(a, '<', 'a', j));
            } else if j >= a.len() {
                assert(pair_at(b, '<', 'a', j - a.len()));
            } else {
                assert(s[j] == a.last());
            }
        }
    }
}

proof fn lemma_get_starts(s: Seq<char>, j: int)
    requires
        occurs_at(s, GET_LINK@, j),
    ensures
        pair_at(s, '<', 'a', j),
        s[j + 9] == 'b',
{
    reveal_strlit("<a class=btn href=\"/");
    let g = GET_LINK@;
    let w = s.subrange(j, j + g.len());
    assert(w[0] == g[0] && w[1] == g[1] && w[9] == g[9]);
}

proof fn lemma_nothing_before(pre: Seq<char>, s: Seq<char>, j: int)
    requires
        linkless(pre),
        0 <= j < pre.len(),
    ensures
        !occurs_at(pre + s, GET_LINK@, j),
{
    let t = pre + s;
    if occurs_at(t, GET_LINK@, j) {
        lemma_get_starts(t, j);
        if j + 1 < pre.len() {
            assert(pair_at(pre, '<', 'a', j));
        } else {
            assert(t[j] == pre.last());
        }
    }
}

proof fn lemma_occurs_behind(pre: Seq<char>, s: Seq<char>, j: int)
    requires
        0 <= j,
    ensures
        occurs_at(pre + s, GET_LINK@, pre.len() + j) == occurs_at(s, GET_LINK@, j),
{
    let g = GET_LINK@;
    if j + g.len() <= s.len() {
        assert((pre + s).subrange(pre.len() + j, pre.len() + j + g.len()) =~= s.subrange(
            j,
            j + g.len(),
        ));
    }
}

// What holds no link before some text leads nowhere else.
proof fn lemma_gets_behind(pre: Seq<char>, s: Seq<char>)
    requires
        linkless(pre),
    ensures
        gets(pre + s) == gets(s),
{
    let t = pre + s;
    let g = GET_LINK@;
    lemma_first_from(s, g, 0);
    assert forall|j: int| 0 <= j < pre.len() implies !#[trigger] occurs_at(t, g, j) by {
        lemma_nothing_before(pre, s, j);
    }
    match first_at(s, g) {
        Some(k) => {
            lemma_occurs_behind(pre, s, k);
            assert forall|j: int| 0 <= j < pre.len() + k implies !#[trigger] occurs_at(t, g, j) by {
                if j >= pre.len() {
                    lemma_occurs_behind(pre, s, j - pre.len());
                }
            }
            lemma_first_is(t, g, 0, pre.len() + k);
            assert(t.skip(pre.len() + k + g.len()) =~= s.skip(k + g.len()));
        },
        None => {
            assert forall|j: int| 0 <= j implies !#[trigger] occurs_at(t, g, j) by {
                if j >= pre.len() {
                    lemma_occurs_behind(pre, s, j - pre.len());
                }
            }
            lemma_first_none(t, g, 0);
        },
    }
}

proof fn lemma_target_is_plain(b: Seq<u8>)
    ensures
        forall|i: int|
            0 <= i < escaped_bytes(b).len() ==> #[trigger] escaped_bytes(b)[i] != '<'
                && escaped_bytes(b)[i] != '"',
    decreases b.len(),
{
    if b.len() > 0 {
        let head = escaped_bytes(b.drop_last());
        let e = escaped_byte(b.last());
        lemma_target_is_plain(b.drop_last());
        assert forall|i: int| 0 <= i < escaped_bytes(b).len() implies #[trigger] escaped_bytes(b)[i]
            != '<' && escaped_bytes(b)[i] != '"' by {
            if i < head.len() {
                assert(escaped_bytes(b)[i] == head[i]);
            } else {
                assert(escaped_bytes(b)[i] == e[i - head.len()]);
            }
        }
    }
}

// A link to a file leads there, and what stands behind it leads where it leads.
proof fn lemma_one_get(url: Seq<char>, s: Seq<char>)
    requires
        forall|i: int| 0 <= i < url.len() ==> #[trigger] url[i] != '<' && url[i] != '"',
    ensures
        gets(GET_LINK@ + (url + ("?dl=1\">GET IT</a></div>\n"@ + s))) == seq![url + "?dl=1"@] + gets(
            s,
        ),
{
    reveal_strlit("?dl=1\">GET IT</a></div>\n");
    reveal_strlit("?dl=1");
    let g = GET_LINK@;
    let tail = "?dl=1\">GET IT</a></div>\n"@;
    let rest = url + (tail + s);
    let t = g + rest;
    assert(t.subrange(0, g.len() as int) =~= g);
    lemma_first_is(t, g, 0, 0);
    assert(t.skip(g.len() as int) =~= rest);
    let n: int = url.len() + 5int;
    assert forall|j: int| 0 <= j < n implies rest[j] != '"' by {
        if j >= url.len() {
            assert(rest[j] == tail[j - url.len()]);
        }
    }
    lemma_char_at_is(rest, '"', n as int);
    assert(rest.take(n as int) =~= url + "?dl=1"@);
    let end = tail.skip(6);
    assert(rest.skip(n + 1) =~= end + s);
    assert(linkless(end)) by {
        reveal_with_fuel(pairless, 30);
        assert(pairless(tail, '<', 'a', 0, tail.len() - 1));
        lemma_pairless(tail, '<', 'a', 0, tail.len() - 1);
        assert forall|j: int| !#[trigger] pair_at(end, '<', 'a', j) by {
            if pair_at(end, '<', 'a', j) {
                assert(pair_at(tail, '<', 'a', j + 6));
            }
        }
    }
    lemma_gets_behind(end, s);
}

/// What stands before the links of a file: its name and its size.
spec fn file_top(name: Seq<char>, size: Seq<char>) -> Seq<char> {
    "<div class=file><span class=name>"@ + html(name) + "</span><span class=size>"@ + size
        + "</span><br>"@
}

proof fn lemma_file_top(name: Seq<char>, size: Seq<char>)
    requires
        !size.contains('<'),
    ensures
        linkless(file_top(name, size)),
{
    reveal_strlit("<div class=file><span class=name>");
    reveal_strlit("</span><span class=size>");
    reveal_strlit("</span><br>");
    let a = "<div class=file><span class=name>"@;
    let b = "</span><span class=size>"@;
    let c = "</span><br>"@;
    reveal_with_fuel(pairless, 40);
    lemma_linkless(a);
    lemma_linkless(b);
    lemma_linkless(c);
    assert forall|i: int| 0 <= i < html(name).len() implies #[trigger] html(name)[i] != '<' by {
        law_escaped_text_is_only_text(name, i);
    }
    lemma_bracketless(html(name));
    assert forall|i: int| 0 <= i < size.len() implies #[trigger] size[i] != '<' by {
        assert(size.contains(size[i]));
    }
    lemma_bracketless(size);
    lemma_linkless_both(a, html(name));
    lemma_linkless_both(a + html(name), b);
    lemma_linkless_both(a + html(name) + b, size);
    lemma_linkless_both(a + html(name) + b + size, c);
}

// A link to open a file is no link to keep it.
proof fn lemma_open_link(url: Seq<char>, verb: Seq<char>, s: Seq<char>)
    requires
        forall|i: int| 0 <= i < url.len() ==> #[trigger] url[i] != '<' && url[i] != '"',
        forall|i: int| 0 <= i < verb.len() ==> #[trigger] verb[i] != '<',
    ensures
        gets("<a class=\"btn read\" href=\"/view/"@ + url + "\">"@ + verb + "</a>"@ + s) == gets(s),
{
    reveal_strlit("<a class=\"btn read\" href=\"/view/");
    reveal_strlit("\">");
    reveal_strlit("</a>");
    let a = "<a class=\"btn read\" href=\"/view/"@;
    let b = "\">"@;
    let c = "</a>"@;
    let link = a + url + b + verb + c;
    let t = link + s;
    let g = GET_LINK@;
    let one = seq!['<'];
    let pre = link.skip(1);
    let a1 = a.skip(1);
    assert(linkless(a1)) by {
        reveal_with_fuel(pairless, 40);
        assert(pairless(a, '<', 'a', 1, a.len() - 1));
        lemma_pairless(a, '<', 'a', 1, a.len() - 1);
        assert forall|j: int| !#[trigger] pair_at(a1, '<', 'a', j) by {
            if pair_at(a1, '<', 'a', j) {
                assert(pair_at(a, '<', 'a', j + 1));
            }
        }
    }
    lemma_bracketless(url);
    lemma_bracketless(b);
    lemma_bracketless(verb);
    assert(linkless(c)) by {
        reveal_with_fuel(pairless, 5);
        lemma_linkless(c);
    }
    lemma_linkless_both(a1, url);
    lemma_linkless_both(a1 + url, b);
    lemma_linkless_both(a1 + url + b, verb);
    lemma_linkless_both(a1 + url + b + verb, c);
    assert(pre =~= a1 + url + b + verb + c);
    let rest = pre + s;
    assert(t =~= one + rest);
    lemma_gets_behind(pre, s);
    assert(!occurs_at(t, g, 0)) by {
        if occurs_at(t, g, 0) {
            lemma_get_starts(t, 0);
            assert(t[9] == a[9]);
        }
    }
    lemma_first_from(rest, g, 0);
    match first_at(rest, g) {
        Some(k) => {
            lemma_occurs_behind(one, rest, k);
            assert forall|j: int| 0 <= j < 1 + k implies !#[trigger] occurs_at(t, g, j) by {
                if j >= 1 {
                    lemma_occurs_behind(one, rest, j - 1);
                }
            }
            lemma_first_is(t, g, 0, 1 + k);
            assert(t.skip(1 + k + g.len()) =~= rest.skip(k + g.len()));
        },
        None => {
            assert forall|j: int| 0 <= j implies !#[trigger] occurs_at(t, g, j) by {
                if j >= 1 {
                    lemma_occurs_behind(one, rest, j - 1);
                }
            }
            lemma_first_none(t, g, 0);
        },
    }
}

proof fn lemma_file_part(name: Seq<char>, size: Seq<char>, s: Seq<char>)
    requires
        !size.contains('<'),
    ensures
        gets(file_part(name, size) + s) == seq![get_target(name)] + gets(s),
{
    let url = escaped_bytes(encode_utf8(name));
    let top = file_top(name, size);
    let get = GET_LINK@ + (url + ("?dl=1\">GET IT</a></div>\n"@ + s));
    lemma_target_is_plain(encode_utf8(name));
    lemma_file_top(name, size);
    lemma_one_get(url, s);
    if opens(name) {
        let verb = if is_film(extension(name)) || is_sound(extension(name)) {
            "PLAY"@
        } else {
            "READ"@
        };
        reveal_strlit("PLAY");
        reveal_strlit("READ");
        let link = "<a class=\"btn read\" href=\"/view/"@ + url + "\">"@ + verb + "</a>"@;
        assert(file_part(name, size) + s =~= top + (link + get));
        lemma_gets_behind(top, link + get);
        lemma_open_link(url, verb, get);
    } else {
        assert(file_part(name, size) + s =~= top + get);
        lemma_gets_behind(top, get);
    }
}

/// The parts of the list from a file on, and the end of the page.
spec fn parts_from(rows: Seq<FileRow>, i: int) -> Seq<char>
    decreases rows.len() - i,
{
    if i >= rows.len() {
        PAGE_END@
    } else {
        file_part(rows[i].name@, rows[i].size@) + parts_from(rows, i + 1)
    }
}

proof fn lemma_parts(rows: Seq<FileRow>, i: int)
    requires
        0 <= i <= rows.len(),
    ensures
        file_parts(rows, rows.len() as int) + PAGE_END@ == file_parts(rows, i) + parts_from(
            rows,
            i,
        ),
    decreases rows.len() - i,
{
    if i < rows.len() {
        lemma_parts(rows, i + 1);
        assert(file_parts(rows, i + 1) + parts_from(rows, i + 1) =~= file_parts(rows, i)
            + parts_from(rows, i));
    }
}

proof fn lemma_links_from(rows: Seq<FileRow>, i: int)
    requires
        0 <= i <= rows.len(),
        forall|k: int| 0 <= k < rows.len() ==> !(#[trigger] rows[k]).size@.contains('<'),
    ensures
        gets(parts_from(rows, i)) == Seq::new(
            (rows.len() - i) as nat,
            |k: int| get_target(rows[i + k].name@),
        ),
    decreases rows.len() - i,
{
    if i < rows.len() {
        lemma_links_from(rows, i + 1);
        lemma_file_part(rows[i].name@, rows[i].size@, parts_from(rows, i + 1));
        assert(gets(parts_from(rows, i)) =~= Seq::new(
            (rows.len() - i) as nat,
            |k: int| get_target(rows[i + k].name@),
        ));
    } else {
        lemma_end();
        let none = Seq::<char>::empty();
        lemma_gets_behind(PAGE_END@, none);
        assert(PAGE_END@ + none =~= PAGE_END@);
        lemma_first_from(none, GET_LINK@, 0);
        reveal_strlit("<a class=btn href=\"/");
        assert(gets(none) =~= Seq::empty());
        assert(gets(parts_from(rows, i)) =~= Seq::new(
            0,
            |k: int| get_target(rows[i + k].name@),
        ));
    }
}

proof fn lemma_end()
    ensures
        linkless(PAGE_END@),
{
    reveal_strlit(
        "</body></html>\n",
    );
    reveal_with_fuel(pairless, 41);
    let s = PAGE_END@;
    assert(pairless(s, '<', 'a', 0, 14));
    lemma_linkless(s);
}

proof fn lemma_head()
    ensures
        linkless(FRAME_HEAD@),
{
    reveal_strlit(
        "<!doctype html><html><head><meta charset=\"utf-8\">\
    <meta name=\"viewport\" content=\"width=device-width, initial-scale=1\">\
    <meta http-equiv=\"refresh\" content=\"6\">\
    <style>body{font-family:sans-serif;margin:0;color:#111}\
    .file{margin:0 0 16px 0}.name{font-size:1.1em;word-break:break-all}\
    .size{color:#666;font-size:.9em;margin-left:6px}\
    a.btn{display:inline-block;background:#1a6b1a;color:#fff;border-radius:6px;\
    padding:12px 20px;font-size:1.05em;text-decoration:none;margin:4px 8px 0 0}\
    a.read{background:#28527a}</style></head><body>\n",
    );
    reveal_with_fuel(pairless, 41);
    let s = FRAME_HEAD@;
    assert(pairless(s, '<', 'a', 0, 40));
    assert(pairless(s, '<', 'a', 40, 80));
    lemma_pairless_join(s, '<', 'a', 0, 40, 80);
    assert(pairless(s, '<', 'a', 80, 120));
    lemma_pairless_join(s, '<', 'a', 0, 80, 120);
    assert(pairless(s, '<', 'a', 120, 160));
    lemma_pairless_join(s, '<', 'a', 0, 120, 160);
    assert(pairless(s, '<', 'a', 160, 200));
    lemma_pairless_join(s, '<', 'a', 0, 160, 200);
    assert(pairless(s, '<', 'a', 200, 240));
    lemma_pairless_join(s, '<', 'a', 0, 200, 240);
    assert(pairless(s, '<', 'a', 240, 280));
    lemma_pairless_join(s, '<', 'a', 0, 240, 280);
    assert(pairless(s, '<', 'a', 280, 320));
    lemma_pairless_join(s, '<', 'a', 0, 280, 320);
    assert(pairless(s, '<', 'a', 320, 360));
    lemma_pairless_join(s, '<', 'a', 0, 320, 360);
    assert(pairless(s, '<', 'a', 360, 400));
    lemma_pairless_join(s, '<', 'a', 0, 360, 400);
    assert(pairless(s, '<', 'a', 400, 440));
    lemma_pairless_join(s, '<', 'a', 0, 400, 440);
    assert(pairless(s, '<', 'a', 440, 480));
    lemma_pairless_join(s, '<', 'a', 0, 440, 480);
    assert(pairless(s, '<', 'a', 480, 520));
    lemma_pairless_join(s, '<', 'a', 0, 480, 520);
    assert(pairless(s, '<', 'a', 520, 523));
    lemma_pairless_join(s, '<', 'a', 0, 520, 523);
    lemma_linkless(s);
}

proof fn lemma_no_folder()
    ensures
        linkless(NO_FOLDER@),
{
    reveal_strlit(
        "<p><b>The folder cannot be reached right now.</b> \
    If the files live on a USB drive, it may have been unplugged. Tell your teacher.</p>\n",
    );
    reveal_with_fuel(pairless, 41);
    let s = NO_FOLDER@;
    assert(pairless(s, '<', 'a', 0, 40));
    assert(pairless(s, '<', 'a', 40, 80));
    lemma_pairless_join(s, '<', 'a', 0, 40, 80);
    assert(pairless(s, '<', 'a', 80, 120));
    lemma_pairless_join(s, '<', 'a', 0, 80, 120);
    assert(pairless(s, '<', 'a', 120, 134));
    lemma_pairless_join(s, '<', 'a', 0, 120, 134);
    lemma_linkless(s);
}

proof fn lemma_no_files()
    ensures
        linkless(NO_FILES@),
{
    reveal_strlit(
        "<p>Nothing is being handed out right now. This page checks by itself, just wait.</p>\n",
    );
    reveal_with_fuel(pairless, 41);
    let s = NO_FILES@;
    assert(pairless(s, '<', 'a', 0, 40));
    assert(pairless(s, '<', 'a', 40, 80));
    lemma_pairless_join(s, '<', 'a', 0, 40, 80);
    assert(pairless(s, '<', 'a', 80, 84));
    lemma_pairless_join(s, '<', 'a', 0, 80, 84);
    lemma_linkless(s);
}

/// The list links to each of its files once, in their order, and to nothing else.
pub proof fn law_each_file_is_linked_once(reachable: bool, rows: Seq<FileRow>)
    requires
        forall|k: int| 0 <= k < rows.len() ==> !(#[trigger] rows[k]).size@.contains('<'),
    ensures
        gets(frame_text(reachable, rows)) == Seq::new(
            rows.len(),
            |k: int| get_target(rows[k].name@),
        ),
{
    let mid = if !reachable {
        NO_FOLDER@
    } else if rows.len() == 0 {
        NO_FILES@
    } else {
        Seq::empty()
    };
    lemma_head();
    lemma_no_folder();
    lemma_no_files();
    lemma_linkless_both(FRAME_HEAD@, mid);
    lemma_parts(rows, 0);
    let list = parts_from(rows, 0);
    assert(file_parts(rows, 0) + list =~= list);
    assert(frame_text(reachable, rows) =~= (FRAME_HEAD@ + mid) + list);
    lemma_gets_behind(FRAME_HEAD@ + mid, list);
    lemma_links_from(rows, 0);
    assert(gets(list) =~= Seq::new(rows.len(), |k: int| get_target(rows[k].name@)));
}

proof fn lemma_sights(t: &Ticked, items: Seq<Item>, n: int, name: Seq<char>)
    requires
        0 <= n <= items.len(),
    ensures
        (exists|k: int|
            0 <= k < sights(t, items, n).len() && (#[trigger] sights(t, items, n)[k]).0 == name)
            == (exists|i: int|
            0 <= i < n && (#[trigger] items[i]).name@ == name && in_sight(
                t,
                items[i].name@,
                items[i].is_file,
            )),
    decreases n,
{
    if n > 0 {
        lemma_sights(t, items, n - 1, name);
        let head = sights(t, items, n - 1);
        let all = sights(t, items, n);
        if exists|k: int| 0 <= k < all.len() && (#[trigger] all[k]).0 == name {
            let k = choose|k: int| 0 <= k < all.len() && (#[trigger] all[k]).0 == name;
            if k < head.len() {
                assert(head[k].0 == name);
                let i = choose|i: int|
                    0 <= i < n - 1 && (#[trigger] items[i]).name@ == name && in_sight(
                        t,
                        items[i].name@,
                        items[i].is_file,
                    );
                assert(items[i].name@ == name);
            } else {
                assert(items[n - 1].name@ == name);
            }
        }
        if exists|i: int|
            0 <= i < n && (#[trigger] items[i]).name@ == name && in_sight(
                t,
                items[i].name@,
                items[i].is_file,
            ) {
            let i = choose|i: int|
                0 <= i < n && (#[trigger] items[i]).name@ == name && in_sight(
                    t,
                    items[i].name@,
                    items[i].is_file,
                );
            if i < n - 1 {
                let k = choose|k: int| 0 <= k < head.len() && (#[trigger] head[k]).0 == name;
                assert(all[k] == head[k]);
            } else {
                assert(all[head.len() as int].0 == name);
            }
        }
    }
}

proof fn lemma_targets_differ(a: Seq<char>, b: Seq<char>)
    requires
        get_target(a) == get_target(b),
    ensures
        a == b,
{
    let x = escaped_bytes(encode_utf8(a));
    let y = escaped_bytes(encode_utf8(b));
    let end = "?dl=1"@;
    assert((x + end).take((x + end).len() - end.len()) =~= x);
    assert((y + end).take((y + end).len() - end.len()) =~= y);
    law_link_leads_back(a);
    law_link_leads_back(b);
}

/// The list links to exactly the files that the network can see: to a file of the folder
/// where it is ticked and not hidden, in the order of the names, however they were found,
/// and to nothing else, whatever lies beside it or in a folder of it.
pub proof fn law_exactly_the_ticked_files_are_linked(
    t: &Ticked,
    items: Seq<Item>,
    rows: Seq<FileRow>,
    name: Seq<char>,
)
    requires
        rows.len() == seen_files(t, items).len(),
        forall|k: int|
            0 <= k < rows.len() ==> (#[trigger] rows[k]).name@ == seen_files(t, items)[k].0
                && !rows[k].size@.contains('<'),
    ensures
        gets(frame_text(true, rows)) == Seq::new(
            rows.len(),
            |k: int| get_target(seen_files(t, items)[k].0),
        ),
        in_name_order(seen_files(t, items)),
        gets(frame_text(true, rows)).contains(get_target(name)) == (exists|i: int|
            0 <= i < items.len() && (#[trigger] items[i]).name@ == name && in_sight(
                t,
                items[i].name@,
                items[i].is_file,
            )),
{
    let n = items.len() as int;
    let found = sights(t, items, n);
    let seen = seen_files(t, items);
    law_names_are_in_order(found);
    law_each_file_is_linked_once(true, rows);
    let g = gets(frame_text(true, rows));
    assert(g =~= Seq::new(rows.len(), |k: int| get_target(seen[k].0)));
    lemma_sights(t, items, n, name);
    if g.contains(get_target(name)) {
        let k = choose|k: int| 0 <= k < g.len() && g[k] == get_target(name);
        lemma_targets_differ(seen[k].0, name);
        lemma_same_names(found, seen[k]);
        assert(seen.contains(seen[k]));
        let i = choose|i: int| 0 <= i < found.len() && found[i] == seen[k];
        assert(found[i].0 == name);
    }
    if exists|k: int| 0 <= k < found.len() && (#[trigger] found[k]).0 == name {
        let i = choose|i: int| 0 <= i < found.len() && (#[trigger] found[i]).0 == name;
        lemma_same_names(found, found[i]);
        assert(found.contains(found[i]));
        let k = choose|k: int| 0 <= k < seen.len() && seen[k] == found[i];
        assert(g[k] == get_target(name));
    }
}

/// Every link leads to its file: a request for the link to keep a file that can be seen
/// is answered with that file, to be kept, whatever its name holds that the system takes
/// for part of a name. The one name with another meaning is that of the list itself.
pub proof fn law_every_link_leads_to_its_file(
    t: &Ticked,
    r: RequestModel,
    naming: Naming,
    name: Seq<char>,
)
    requires
        in_sight(t, name, true),
        name.len() > 0,
        name != "files"@,
        !name.contains('/'),
        !strays(name, naming.windows),
        !for_handed_in(name, naming.any_case),
        r.method == "GET"@,
        (r.path, r.query) == path_and_query(seq!['/'] + get_target(name)),
    ensures
        route_of(t, r, naming, false, false) == (RouteModel::Fetch {
            way: seq![name],
            head_only: false,
            download: true,
        }),
{
    let b = encode_utf8(name);
    let path = seq!['/'] + escaped_bytes(b);
    let link = seq!['/'] + get_target(name);
    reveal_strlit("?dl=1");
    reveal_strlit("dl=1");
    reveal_strlit("GET");
    reveal_strlit("POST");
    reveal_strlit("HEAD");
    assert forall|j: int| 0 <= j < path.len() implies link[j] != '?' by {
        if j > 0 {
            lemma_escaped_plain(b, j - 1);
            assert(link[j] == escaped_bytes(b)[j - 1]);
        }
    }
    lemma_char_at_is(link, '?', path.len() as int);
    assert(link.take(path.len() as int) =~= path);
    assert(link.skip(path.len() as int + 1) =~= "dl=1"@);
    assert("dl=1"@.subrange(0, 4) =~= "dl=1"@);
    assert(occurs_at("dl=1"@, "dl=1"@, 0));
    lemma_first_is("dl=1"@, "dl=1"@, 0, 0);
    assert("GET"@.len() != "POST"@.len() && "GET"@.len() != "HEAD"@.len());
    law_what_is_seen_can_be_fetched(t, r, naming, name);
}

} // verus!
