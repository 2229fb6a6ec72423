//! Which forms stand on the class page, for whom.

use super::html::{
    class_page_text, done_box, handin_part, html, law_escaped_text_is_only_text, linked, notice_box,
    PageParts, ESCAPE_HATCH, ESCAPE_HATCH_END, FILE_IFRAME, HANDIN_FORM, HANDIN_FORM_END,
    HANDIN_OFF, NAME_FORM, NAME_FORM_END, NOTE_FORM, NOTE_FORM_END, PAGE_END, PAGE_HEAD,
};
use crate::serve::paths::Naming;
use crate::serve::request::{route_of, RequestModel};
use crate::serve::roster::Ticked;
use crate::text::{
    begins_with, char_at, holds, lemma_char_at, lemma_char_at_is, lemma_first_from, lemma_pairless, lemma_pairless_join,
    lemma_trimmed_end_within, occurs_at, pair_at, pairless, pieces, str_view, trimmed_end,
};
use vstd::prelude::*;

verus! {

/// Whether a path is called at a place: by the end of `action` or of `src`, an equals
/// sign, a quote and a slash.
spec fn call_at(s: Seq<char>, j: int) -> bool {
    &&& 0 <= j && j + 3 < s.len()
    &&& s[j] == 'n' || s[j] == 'c'
    &&& s[j + 1] == '='
    &&& s[j + 2] == '"'
    &&& s[j + 3] == '/'
}

/// Whether no path is called in a text.
spec fn no_call(s: Seq<char>) -> bool {
    forall|j: int| !#[trigger] call_at(s, j)
}

/// Whether a path is called at one place of a text and at no other.
spec fn one_call(s: Seq<char>, k: int) -> bool {
    forall|j: int| #[trigger] call_at(s, j) <==> j == k
}

/// Whether a text begins with nothing that could end a call.
spec fn opens_fine(s: Seq<char>) -> bool {
    s.len() > 0 ==> s[0] != '=' && s[0] != '/' && (s[0] == '"' ==> s.len() > 1 && s[1] != '/')
}

/// Whether a text ends with nothing that could begin a call.
spec fn ends_fine(s: Seq<char>) -> bool {
    ||| s.len() == 0
    ||| s.last() != 'n' && s.last() != 'c' && s.last() != '=' && s.last() != '"'
    ||| s.len() >= 3 && s.last() == '"' && s[s.len() - 3] == 'e'
}

proof fn lemma_calls(a: Seq<char>, b: Seq<char>)
    requires
        opens_fine(b) || ends_fine(a),
    ensures
        forall|j: int| #[trigger]
            call_at(a + b, j) == (call_at(a, j) || call_at(b, j - a.len())),
{
    let s = a + b;
    assert forall|j: int| #[trigger]
        call_at(s, j) == (call_at(a, j) || call_at(b, j - a.len())) by {
        if call_at(s, j) {
            if j + 3 < a.len() {
                assert(call_at(a, j));
            } else if j >= a.len() {
                assert(call_at(b, j - a.len()));
            } else if j + 1 == a.len() {
                assert(a.last() == s[j] && b[0] == '=');
            } else if j + 2 == a.len() {
                assert(a.last() == '=' && b[0] == '"' && b[1] == '/');
            } else {
                assert(a.last() == '"' && b[0] == '/' && a[a.len() - 3] == s[j]);
            }
        }
        if call_at(a, j) {
            assert(s[j] == a[j] && s[j + 1] == a[j + 1] && s[j + 2] == a[j + 2] && s[j + 3]
                == a[j + 3]);
        }
        if call_at(b, j - a.len()) {
            let k = j - a.len();
            assert(s[j] == b[k] && s[j + 1] == b[k + 1] && s[j + 2] == b[k + 2] && s[j + 3]
                == b[k + 3]);
        }
    }
}

/// Whether no quote opens a path in a text, nor at its end.
spec fn pathless(s: Seq<char>) -> bool {
    &&& forall|j: int| !#[trigger] pair_at(s, '"', '/', j)
    &&& s.len() > 0 ==> s.last() != '"'
}

proof fn lemma_pathless(s: Seq<char>)
    requires
        s.len() > 0,
        pairless(s, '"', '/', 0, s.len() - 1),
        s.last() != '"',
    ensures
        pathless(s),
{
    lemma_pairless(s, '"', '/', 0, s.len() - 1);
}

proof fn lemma_quoteless(s: Seq<char>)
    requires
        forall|i: int| 0 <= i < s.len() ==> #[trigger] s[i] != '"',
    ensures
        pathless(s),
{
}

proof fn lemma_pathless_both(a: Seq<char>, b: Seq<char>)
    requires
        pathless(a),
        pathless(b),
    ensures
        pathless(a + b),
{
    let s = a + b;
    assert forall|j: int| !#[trigger] pair_at(s, '"', '/', j) by {
        if pair_at(s, '"', '/', j) {
            if j + 1 < a.len() {
                assert(pair_at(a, '"', '/', j));
            } else if j >= a.len() {
                assert(pair_at(b, '"', '/', j - a.len()));
            } else {
                assert(s[j] == a.last());
            }
        }
    }
}

proof fn lemma_pathless_calls_nothing(s: Seq<char>)
    requires
        pathless(s),
    ensures
        no_call(s),
{
    assert forall|j: int| !#[trigger] call_at(s, j) by {
        if call_at(s, j) {
            assert(pair_at(s, '"', '/', j + 2));
        }
    }
}

proof fn lemma_typed(s: Seq<char>)
    ensures
        pathless(html(s)),
{
    assert forall|i: int| 0 <= i < html(s).len() implies #[trigger] html(s)[i] != '"' by {
        law_escaped_text_is_only_text(s, i);
    }
    lemma_quoteless(html(s));
}

// ------------------------------------------------------------- the notice

proof fn lemma_pieces_within(s: Seq<char>, c: char, i: int)
    requires
        0 <= i < pieces(s, c).len(),
    ensures
        forall|k: int| 0 <= k < pieces(s, c)[i].len() ==> s.contains(#[trigger] pieces(s, c)[i][k]),
    decreases s.len(),
{
    lemma_char_at(s, c);
    let k = crate::text::char_at(s, c);
    if k < s.len() {
        let rest = s.skip(k + 1);
        if i > 0 {
            lemma_pieces_within(rest, c, i - 1);
            assert forall|j: int| 0 <= j < pieces(s, c)[i].len() implies s.contains(
                #[trigger] pieces(s, c)[i][j],
            ) by {
                let x = pieces(rest, c)[i - 1][j];
                assert(rest.contains(x));
                let m = choose|m: int| 0 <= m < rest.len() && rest[m] == x;
                assert(s[m + k + 1] == x);
            }
        }
    }
}

proof fn lemma_linked(ws: Seq<Seq<char>>)
    requires
        forall|i: int, k: int|
            0 <= i < ws.len() && 0 <= k < ws[i].len() ==> #[trigger] ws[i][k] != '"',
    ensures
        pathless(linked(ws)),
    decreases ws.len(),
{
    if ws.len() > 0 {
        let head = ws.drop_last();
        let w = ws[ws.len() - 1];
        assert forall|i: int, k: int|
            0 <= i < head.len() && 0 <= k < head[i].len() implies #[trigger] head[i][k] != '"' by {
            assert(head[i][k] == ws[i][k]);
        }
        lemma_linked(head);
        assert forall|k: int| 0 <= k < w.len() implies #[trigger] w[k] != '"' by {
            assert(ws[ws.len() - 1][k] != '"');
        }
        lemma_quoteless(w);
        let space = seq![' '];
        lemma_quoteless(space);
        if begins_with(w, "http://"@) || begins_with(w, "https://"@) {
            reveal_strlit("http://");
            reveal_strlit("https://");
            reveal_strlit("<a href=\"");
            reveal_strlit("\">");
            reveal_strlit("</a>");
            let a = "<a href=\""@;
            let b = "\">"@;
            let c = "</a>"@;
            if begins_with(w, "http://"@) {
                assert(w.subrange(0, 7)[0] == 'h');
            } else {
                assert(w.subrange(0, 8)[0] == 'h');
            }
            let x = a + w;
            assert(pathless(x)) by {
                reveal_with_fuel(pairless, 10);
                assert(pairless(a, '"', '/', 0, 8));
                lemma_pairless(a, '"', '/', 0, 8);
                assert forall|j: int| !#[trigger] pair_at(x, '"', '/', j) by {
                    if pair_at(x, '"', '/', j) {
                        if j >= 9 {
                            assert(x[j] == w[j - 9]);
                        } else if j == 8 {
                            assert(x[9] == w[0]);
                        } else {
                            assert(pair_at(a, '"', '/', j));
                        }
                    }
                }
                assert(x.last() == w[w.len() - 1]);
            }
            assert(pathless(b) && pathless(c)) by {
                reveal_with_fuel(pairless, 5);
                lemma_pathless(b);
                lemma_pathless(c);
            }
            lemma_pathless_both(x, b);
            lemma_pathless_both(x + b, w);
            lemma_pathless_both(x + b + w, c);
            lemma_pathless_both(linked(head), a + w + b + w + c);
            lemma_pathless_both(linked(head) + (a + w + b + w + c), space);
            assert(linked(ws) =~= linked(head) + (a + w + b + w + c) + space);
        } else {
            lemma_pathless_both(linked(head), w);
            lemma_pathless_both(linked(head) + w, space);
            assert(linked(ws) =~= linked(head) + w + space);
        }
    }
}

proof fn lemma_notice(notice: Seq<char>)
    ensures
        pathless(notice_box(notice)),
        opens_fine(notice_box(notice)),
{
    if notice.len() > 0 {
        reveal_strlit("<div class=notice><b>From your teacher</b><br>");
        reveal_strlit("</div>\n");
        let a = "<div class=notice><b>From your teacher</b><br>"@;
        let c = "</div>\n"@;
        let h = html(notice);
        let ws = pieces(h, ' ');
        assert forall|i: int, k: int|
            0 <= i < ws.len() && 0 <= k < ws[i].len() implies #[trigger] ws[i][k] != '"' by {
            lemma_pieces_within(h, ' ', i);
            let x = ws[i][k];
            assert(h.contains(x));
            let m = choose|m: int| 0 <= m < h.len() && h[m] == x;
            law_escaped_text_is_only_text(notice, m);
        }
        lemma_linked(ws);
        let l = linked(ws);
        let t = trimmed_end(l);
        lemma_trimmed_end_within(l);
        assert(pathless(a) && pathless(c)) by {
            reveal_with_fuel(pairless, 46);
            lemma_pathless(a);
            lemma_pathless(c);
        }
        let x = a + t;
        let s = x + c;
        assert forall|j: int| !#[trigger] pair_at(s, '"', '/', j) by {
            if pair_at(s, '"', '/', j) {
                if j + 1 < a.len() {
                    assert(pair_at(a, '"', '/', j));
                } else if j + 1 == a.len() {
                    assert(s[j] == a.last());
                } else if j + 1 < x.len() {
                    assert(s[j] == l[j - a.len()] && s[j + 1] == l[j + 1 - a.len()]);
                    assert(pair_at(l, '"', '/', j - a.len()));
                } else if j + 1 == x.len() {
                    assert(s[j + 1] == c[0]);
                } else {
                    assert(pair_at(c, '"', '/', j - x.len()));
                }
            }
        }
        assert(s.last() == c.last());
    }
}

// ------------------------------------------------------------- what is fixed

proof fn lemma_page_head()
    ensures
        pathless(PAGE_HEAD@),
        opens_fine(PAGE_HEAD@),
{
    reveal_strlit(
        "<!doctype html><html><head><meta charset=\"utf-8\">\
    <meta name=\"viewport\" content=\"width=device-width, initial-scale=1\">\
    <title>Class files</title><style>\
    body{font-family:sans-serif;margin:0;padding:12px;background:#fff;color:#111;max-width:620px}\
    h1{font-size:1.3em}\
    .notice{background:#fff8d6;border:2px solid #d9c65a;padding:10px;font-size:1.15em;margin:10px 0;white-space:pre-wrap}\
    .done{background:#e2f7e2;border:2px solid #58a758;padding:10px;font-size:1.1em;margin:10px 0}\
    .file{margin:14px 0}\
    .name{font-size:1.1em;word-break:break-all}\
    .size{color:#666;font-size:.9em;margin-left:6px}\
    a.btn,button{display:inline-block;background:#1a6b1a;color:#fff;border:0;border-radius:6px;\
    padding:12px 20px;font-size:1.05em;text-decoration:none;margin:4px 8px 0 0}\
    a.read{background:#28527a}\
    textarea,input[type=file]{width:100%;font-size:1em;margin:6px 0}\
    textarea{height:4em}\
    form{margin:18px 0;border-top:1px solid #ddd;padding-top:12px}\
    .escape{background:#fff3cd;border:2px solid #d9a441;padding:10px;margin:8px 0}\
    .addr{font-size:1.6em;font-weight:bold;font-family:monospace;\
    text-align:center;padding:10px;margin:8px 0;background:#fff;border:2px dashed #666}\
    iframe{width:100%;border:0;min-height:340px}\
    </style></head><body>\n<h1>Class files</h1>\n",
    );
    reveal_with_fuel(pairless, 25);
    let s = PAGE_HEAD@;
    assert(pairless(s, '"', '/', 0, 24));
    assert(pairless(s, '"', '/', 24, 48));
    lemma_pairless_join(s, '"', '/', 0, 24, 48);
    assert(pairless(s, '"', '/', 48, 72));
    lemma_pairless_join(s, '"', '/', 0, 48, 72);
    assert(pairless(s, '"', '/', 72, 96));
    lemma_pairless_join(s, '"', '/', 0, 72, 96);
    assert(pairless(s, '"', '/', 96, 120));
    lemma_pairless_join(s, '"', '/', 0, 96, 120);
    assert(pairless(s, '"', '/', 120, 144));
    lemma_pairless_join(s, '"', '/', 0, 120, 144);
    assert(pairless(s, '"', '/', 144, 168));
    lemma_pairless_join(s, '"', '/', 0, 144, 168);
    assert(pairless(s, '"', '/', 168, 192));
    lemma_pairless_join(s, '"', '/', 0, 168, 192);
    assert(pairless(s, '"', '/', 192, 216));
    lemma_pairless_join(s, '"', '/', 0, 192, 216);
    assert(pairless(s, '"', '/', 216, 240));
    lemma_pairless_join(s, '"', '/', 0, 216, 240);
    assert(pairless(s, '"', '/', 240, 264));
    lemma_pairless_join(s, '"', '/', 0, 240, 264);
    assert(pairless(s, '"', '/', 264, 288));
    lemma_pairless_join(s, '"', '/', 0, 264, 288);
    assert(pairless(s, '"', '/', 288, 312));
    lemma_pairless_join(s, '"', '/', 0, 288, 312);
    assert(pairless(s, '"', '/', 312, 336));
    lemma_pairless_join(s, '"', '/', 0, 312, 336);
    assert(pairless(s, '"', '/', 336, 360));
    lemma_pairless_join(s, '"', '/', 0, 336, 360);
    assert(pairless(s, '"', '/', 360, 384));
    lemma_pairless_join(s, '"', '/', 0, 360, 384);
    assert(pairless(s, '"', '/', 384, 408));
    lemma_pairless_join(s, '"', '/', 0, 384, 408);
    assert(pairless(s, '"', '/', 408, 432));
    lemma_pairless_join(s, '"', '/', 0, 408, 432);
    assert(pairless(s, '"', '/', 432, 456));
    lemma_pairless_join(s, '"', '/', 0, 432, 456);
    assert(pairless(s, '"', '/', 456, 480));
    lemma_pairless_join(s, '"', '/', 0, 456, 480);
    assert(pairless(s, '"', '/', 480, 504));
    lemma_pairless_join(s, '"', '/', 0, 480, 504);
    assert(pairless(s, '"', '/', 504, 528));
    lemma_pairless_join(s, '"', '/', 0, 504, 528);
    assert(pairless(s, '"', '/', 528, 552));
    lemma_pairless_join(s, '"', '/', 0, 528, 552);
    assert(pairless(s, '"', '/', 552, 576));
    lemma_pairless_join(s, '"', '/', 0, 552, 576);
    assert(pairless(s, '"', '/', 576, 600));
    lemma_pairless_join(s, '"', '/', 0, 576, 600);
    assert(pairless(s, '"', '/', 600, 624));
    lemma_pairless_join(s, '"', '/', 0, 600, 624);
    assert(pairless(s, '"', '/', 624, 648));
    lemma_pairless_join(s, '"', '/', 0, 624, 648);
    assert(pairless(s, '"', '/', 648, 672));
    lemma_pairless_join(s, '"', '/', 0, 648, 672);
    assert(pairless(s, '"', '/', 672, 696));
    lemma_pairless_join(s, '"', '/', 0, 672, 696);
    assert(pairless(s, '"', '/', 696, 720));
    lemma_pairless_join(s, '"', '/', 0, 696, 720);
    assert(pairless(s, '"', '/', 720, 744));
    lemma_pairless_join(s, '"', '/', 0, 720, 744);
    assert(pairless(s, '"', '/', 744, 768));
    lemma_pairless_join(s, '"', '/', 0, 744, 768);
    assert(pairless(s, '"', '/', 768, 792));
    lemma_pairless_join(s, '"', '/', 0, 768, 792);
    assert(pairless(s, '"', '/', 792, 816));
    lemma_pairless_join(s, '"', '/', 0, 792, 816);
    assert(pairless(s, '"', '/', 816, 840));
    lemma_pairless_join(s, '"', '/', 0, 816, 840);
    assert(pairless(s, '"', '/', 840, 864));
    lemma_pairless_join(s, '"', '/', 0, 840, 864);
    assert(pairless(s, '"', '/', 864, 888));
    lemma_pairless_join(s, '"', '/', 0, 864, 888);
    assert(pairless(s, '"', '/', 888, 912));
    lemma_pairless_join(s, '"', '/', 0, 888, 912);
    assert(pairless(s, '"', '/', 912, 936));
    lemma_pairless_join(s, '"', '/', 0, 912, 936);
    assert(pairless(s, '"', '/', 936, 960));
    lemma_pairless_join(s, '"', '/', 0, 936, 960);
    assert(pairless(s, '"', '/', 960, 984));
    lemma_pairless_join(s, '"', '/', 0, 960, 984);
    assert(pairless(s, '"', '/', 984, 1008));
    lemma_pairless_join(s, '"', '/', 0, 984, 1008);
    assert(pairless(s, '"', '/', 1008, 1032));
    lemma_pairless_join(s, '"', '/', 0, 1008, 1032);
    assert(pairless(s, '"', '/', 1032, 1056));
    lemma_pairless_join(s, '"', '/', 0, 1032, 1056);
    assert(pairless(s, '"', '/', 1056, 1080));
    lemma_pairless_join(s, '"', '/', 0, 1056, 1080);
    assert(pairless(s, '"', '/', 1080, 1104));
    lemma_pairless_join(s, '"', '/', 0, 1080, 1104);
    assert(pairless(s, '"', '/', 1104, 1128));
    lemma_pairless_join(s, '"', '/', 0, 1104, 1128);
    assert(pairless(s, '"', '/', 1128, 1152));
    lemma_pairless_join(s, '"', '/', 0, 1128, 1152);
    assert(pairless(s, '"', '/', 1152, 1176));
    lemma_pairless_join(s, '"', '/', 0, 1152, 1176);
    assert(pairless(s, '"', '/', 1176, 1200));
    lemma_pairless_join(s, '"', '/', 0, 1176, 1200);
    assert(pairless(s, '"', '/', 1200, 1224));
    lemma_pairless_join(s, '"', '/', 0, 1200, 1224);
    assert(pairless(s, '"', '/', 1224, 1229));
    lemma_pairless_join(s, '"', '/', 0, 1224, 1229);
    lemma_pathless(s);
}

proof fn lemma_page_end()
    ensures
        pathless(PAGE_END@),
        opens_fine(PAGE_END@),
{
    reveal_strlit(
        "</body></html>\n",
    );
    reveal_with_fuel(pairless, 25);
    let s = PAGE_END@;
    assert(pairless(s, '"', '/', 0, 14));
    lemma_pathless(s);
}

proof fn lemma_name_form_end()
    ensures
        pathless(NAME_FORM_END@),
        opens_fine(NAME_FORM_END@),
{
    reveal_strlit(
        "\" maxlength=\"24\" \
    style=\"width:100%;font-size:1.2em;margin:8px 0;padding:8px\"><br>\
    <button type=\"submit\">THAT'S ME</button></form>\n",
    );
    reveal_with_fuel(pairless, 25);
    let s = NAME_FORM_END@;
    assert(pairless(s, '"', '/', 0, 24));
    assert(pairless(s, '"', '/', 24, 48));
    lemma_pairless_join(s, '"', '/', 0, 24, 48);
    assert(pairless(s, '"', '/', 48, 72));
    lemma_pairless_join(s, '"', '/', 0, 48, 72);
    assert(pairless(s, '"', '/', 72, 96));
    lemma_pairless_join(s, '"', '/', 0, 72, 96);
    assert(pairless(s, '"', '/', 96, 120));
    lemma_pairless_join(s, '"', '/', 0, 96, 120);
    assert(pairless(s, '"', '/', 120, 128));
    lemma_pairless_join(s, '"', '/', 0, 120, 128);
    lemma_pathless(s);
}

proof fn lemma_handin_form_end()
    ensures
        pathless(HANDIN_FORM_END@),
        opens_fine(HANDIN_FORM_END@),
{
    reveal_strlit(
        "\">\
    <input type=\"file\" name=\"work\" multiple><br>\
    <button type=\"submit\">SEND IT TO YOUR TEACHER</button></form>\n",
    );
    reveal_with_fuel(pairless, 25);
    let s = HANDIN_FORM_END@;
    assert(pairless(s, '"', '/', 0, 24));
    assert(pairless(s, '"', '/', 24, 48));
    lemma_pairless_join(s, '"', '/', 0, 24, 48);
    assert(pairless(s, '"', '/', 48, 72));
    lemma_pairless_join(s, '"', '/', 0, 48, 72);
    assert(pairless(s, '"', '/', 72, 96));
    lemma_pairless_join(s, '"', '/', 0, 72, 96);
    assert(pairless(s, '"', '/', 96, 107));
    lemma_pairless_join(s, '"', '/', 0, 96, 107);
    lemma_pathless(s);
}

proof fn lemma_hatch()
    ensures
        pathless(ESCAPE_HATCH@),
        opens_fine(ESCAPE_HATCH@),
{
    reveal_strlit(
        "<div class=escape><b>Tapping \"Choose file\" does nothing?</b><br>\
    You are in the wifi sign-in window, which cannot send files.<br>\
    Open your normal browser and go to:\
    <div class=addr>",
    );
    reveal_with_fuel(pairless, 25);
    let s = ESCAPE_HATCH@;
    assert(pairless(s, '"', '/', 0, 24));
    assert(pairless(s, '"', '/', 24, 48));
    lemma_pairless_join(s, '"', '/', 0, 24, 48);
    assert(pairless(s, '"', '/', 48, 72));
    lemma_pairless_join(s, '"', '/', 0, 48, 72);
    assert(pairless(s, '"', '/', 72, 96));
    lemma_pairless_join(s, '"', '/', 0, 72, 96);
    assert(pairless(s, '"', '/', 96, 120));
    lemma_pairless_join(s, '"', '/', 0, 96, 120);
    assert(pairless(s, '"', '/', 120, 144));
    lemma_pairless_join(s, '"', '/', 0, 120, 144);
    assert(pairless(s, '"', '/', 144, 168));
    lemma_pairless_join(s, '"', '/', 0, 144, 168);
    assert(pairless(s, '"', '/', 168, 178));
    lemma_pairless_join(s, '"', '/', 0, 168, 178);
    lemma_pathless(s);
}

proof fn lemma_hatch_end()
    ensures
        pathless(ESCAPE_HATCH_END@),
        opens_fine(ESCAPE_HATCH_END@),
{
    reveal_strlit(
        "</div>\
    Everything works there, and you stay on the class wifi.</div>\n",
    );
    reveal_with_fuel(pairless, 25);
    let s = ESCAPE_HATCH_END@;
    assert(pairless(s, '"', '/', 0, 24));
    assert(pairless(s, '"', '/', 24, 48));
    lemma_pairless_join(s, '"', '/', 0, 24, 48);
    assert(pairless(s, '"', '/', 48, 67));
    lemma_pairless_join(s, '"', '/', 0, 48, 67);
    lemma_pathless(s);
}

proof fn lemma_handin_off()
    ensures
        pathless(HANDIN_OFF@),
        opens_fine(HANDIN_OFF@),
{
    reveal_strlit(
        "<form><b>Hand in your work</b><br>\
    Handing in is switched off: the teacher's folder cannot receive files right now.</form>\n",
    );
    reveal_with_fuel(pairless, 25);
    let s = HANDIN_OFF@;
    assert(pairless(s, '"', '/', 0, 24));
    assert(pairless(s, '"', '/', 24, 48));
    lemma_pairless_join(s, '"', '/', 0, 24, 48);
    assert(pairless(s, '"', '/', 48, 72));
    lemma_pairless_join(s, '"', '/', 0, 48, 72);
    assert(pairless(s, '"', '/', 72, 96));
    lemma_pairless_join(s, '"', '/', 0, 72, 96);
    assert(pairless(s, '"', '/', 96, 120));
    lemma_pairless_join(s, '"', '/', 0, 96, 120);
    assert(pairless(s, '"', '/', 120, 121));
    lemma_pairless_join(s, '"', '/', 0, 120, 121);
    lemma_pathless(s);
}

proof fn lemma_note_form_end()
    ensures
        pathless(NOTE_FORM_END@),
        opens_fine(NOTE_FORM_END@),
{
    reveal_strlit(
        "\">\
    <textarea name=\"text\" placeholder=\"type here\"></textarea><br>\
    <button type=\"submit\">SEND THE NOTE</button></form>\n",
    );
    reveal_with_fuel(pairless, 25);
    let s = NOTE_FORM_END@;
    assert(pairless(s, '"', '/', 0, 24));
    assert(pairless(s, '"', '/', 24, 48));
    lemma_pairless_join(s, '"', '/', 0, 24, 48);
    assert(pairless(s, '"', '/', 48, 72));
    lemma_pairless_join(s, '"', '/', 0, 48, 72);
    assert(pairless(s, '"', '/', 72, 96));
    lemma_pairless_join(s, '"', '/', 0, 72, 96);
    assert(pairless(s, '"', '/', 96, 114));
    lemma_pairless_join(s, '"', '/', 0, 96, 114);
    lemma_pathless(s);
}

proof fn lemma_name_form()
    ensures
        one_call(NAME_FORM@, 25),
        NAME_FORM@.subrange(20, 34) == "action=\"/name\""@,
        NAME_FORM@.last() == '"',
        NAME_FORM@[NAME_FORM@.len() - 3] == 'e',
        NAME_FORM@.len() == 167,
        opens_fine(NAME_FORM@),
{
    reveal_strlit(
        "<form method=\"post\" action=\"/name\">\
    <b>Before you start: type your name.</b><br>\
    Your teacher needs to know whose work is whose.<br>\
    <input type=\"text\" name=\"who\" value=\"",
    );
    reveal_strlit("action=\"/name\"");
    reveal_with_fuel(pairless, 25);
    let s = NAME_FORM@;
    assert(pairless(s, '"', '/', 0, 24));
    assert(pairless(s, '"', '/', 24, 27));
    lemma_pairless_join(s, '"', '/', 0, 24, 27);
    lemma_pairless(s, '"', '/', 0, 27);
    assert(pairless(s, '"', '/', 28, 52));
    assert(pairless(s, '"', '/', 52, 76));
    lemma_pairless_join(s, '"', '/', 28, 52, 76);
    assert(pairless(s, '"', '/', 76, 100));
    lemma_pairless_join(s, '"', '/', 28, 76, 100);
    assert(pairless(s, '"', '/', 100, 124));
    lemma_pairless_join(s, '"', '/', 28, 100, 124);
    assert(pairless(s, '"', '/', 124, 148));
    lemma_pairless_join(s, '"', '/', 28, 124, 148);
    assert(pairless(s, '"', '/', 148, 166));
    lemma_pairless_join(s, '"', '/', 28, 148, 166);
    lemma_pairless(s, '"', '/', 28, 166);
    assert(call_at(s, 25));
    assert forall|j: int| call_at(s, j) implies j == 25 by {
        assert(pair_at(s, '"', '/', j + 2));
    }
    assert(s.subrange(20, 34) =~= "action=\"/name\""@);
}

proof fn lemma_handin_form()
    ensures
        one_call(HANDIN_FORM@, 25),
        HANDIN_FORM@.subrange(20, 36) == "action=\"/handin\""@,
        HANDIN_FORM@.last() == '"',
        HANDIN_FORM@[HANDIN_FORM@.len() - 3] == 'e',
        HANDIN_FORM@.len() == 136,
        opens_fine(HANDIN_FORM@),
{
    reveal_strlit(
        "<form method=\"post\" action=\"/handin\" enctype=\"multipart/form-data\">\
    <b>Hand in your work</b><br>\
    <input type=\"hidden\" name=\"token\" value=\"",
    );
    reveal_strlit("action=\"/handin\"");
    reveal_with_fuel(pairless, 25);
    let s = HANDIN_FORM@;
    assert(pairless(s, '"', '/', 0, 24));
    assert(pairless(s, '"', '/', 24, 27));
    lemma_pairless_join(s, '"', '/', 0, 24, 27);
    lemma_pairless(s, '"', '/', 0, 27);
    assert(pairless(s, '"', '/', 28, 52));
    assert(pairless(s, '"', '/', 52, 76));
    lemma_pairless_join(s, '"', '/', 28, 52, 76);
    assert(pairless(s, '"', '/', 76, 100));
    lemma_pairless_join(s, '"', '/', 28, 76, 100);
    assert(pairless(s, '"', '/', 100, 124));
    lemma_pairless_join(s, '"', '/', 28, 100, 124);
    assert(pairless(s, '"', '/', 124, 135));
    lemma_pairless_join(s, '"', '/', 28, 124, 135);
    lemma_pairless(s, '"', '/', 28, 135);
    assert(call_at(s, 25));
    assert forall|j: int| call_at(s, j) implies j == 25 by {
        assert(pair_at(s, '"', '/', j + 2));
    }
    assert(s.subrange(20, 36) =~= "action=\"/handin\""@);
}

proof fn lemma_note_form()
    ensures
        one_call(NOTE_FORM@, 25),
        NOTE_FORM@.subrange(20, 34) == "action=\"/note\""@,
        NOTE_FORM@.last() == '"',
        NOTE_FORM@[NOTE_FORM@.len() - 3] == 'e',
        NOTE_FORM@.len() == 114,
        opens_fine(NOTE_FORM@),
{
    reveal_strlit(
        "<form method=\"post\" action=\"/note\">\
    <b>Send a note to your teacher</b><br>\
    <input type=\"hidden\" name=\"token\" value=\"",
    );
    reveal_strlit("action=\"/note\"");
    reveal_with_fuel(pairless, 25);
    let s = NOTE_FORM@;
    assert(pairless(s, '"', '/', 0, 24));
    assert(pairless(s, '"', '/', 24, 27));
    lemma_pairless_join(s, '"', '/', 0, 24, 27);
    lemma_pairless(s, '"', '/', 0, 27);
    assert(pairless(s, '"', '/', 28, 52));
    assert(pairless(s, '"', '/', 52, 76));
    lemma_pairless_join(s, '"', '/', 28, 52, 76);
    assert(pairless(s, '"', '/', 76, 100));
    lemma_pairless_join(s, '"', '/', 28, 76, 100);
    assert(pairless(s, '"', '/', 100, 113));
    lemma_pairless_join(s, '"', '/', 28, 100, 113);
    lemma_pairless(s, '"', '/', 28, 113);
    assert(call_at(s, 25));
    assert forall|j: int| call_at(s, j) implies j == 25 by {
        assert(pair_at(s, '"', '/', j + 2));
    }
    assert(s.subrange(20, 34) =~= "action=\"/note\""@);
}

proof fn lemma_frame()
    ensures
        one_call(FILE_IFRAME@, 10),
        FILE_IFRAME@.subrange(8, 20) == "src=\"/files\""@,
        FILE_IFRAME@.last() == '\n',
        FILE_IFRAME@.len() == 31,
        opens_fine(FILE_IFRAME@),
{
    reveal_strlit(
        "<iframe src=\"/files\"></iframe>\n",
    );
    reveal_strlit("src=\"/files\"");
    reveal_with_fuel(pairless, 25);
    let s = FILE_IFRAME@;
    assert(pairless(s, '"', '/', 0, 12));
    lemma_pairless(s, '"', '/', 0, 12);
    assert(pairless(s, '"', '/', 13, 30));
    lemma_pairless(s, '"', '/', 13, 30);
    assert(call_at(s, 10));
    assert forall|j: int| call_at(s, j) implies j == 10 by {
        assert(pair_at(s, '"', '/', j + 2));
    }
    assert(s.subrange(8, 20) =~= "src=\"/files\""@);
}

proof fn lemma_done_handin()
    ensures
        pathless("<div class=done>Handed in. Your teacher has it.</div>\n"@),
        opens_fine("<div class=done>Handed in. Your teacher has it.</div>\n"@),
{
    reveal_strlit("<div class=done>Handed in. Your teacher has it.</div>\n");
    reveal_with_fuel(pairless, 25);
    let s = "<div class=done>Handed in. Your teacher has it.</div>\n"@;
    assert(pairless(s, '"', '/', 0, 24));
    assert(pairless(s, '"', '/', 24, 48));
    lemma_pairless_join(s, '"', '/', 0, 24, 48);
    assert(pairless(s, '"', '/', 48, 53));
    lemma_pairless_join(s, '"', '/', 0, 48, 53);
    lemma_pathless(s);
}

proof fn lemma_done_note()
    ensures
        pathless("<div class=done>Sent. Your teacher can see it.</div>\n"@),
        opens_fine("<div class=done>Sent. Your teacher can see it.</div>\n"@),
{
    reveal_strlit("<div class=done>Sent. Your teacher can see it.</div>\n");
    reveal_with_fuel(pairless, 25);
    let s = "<div class=done>Sent. Your teacher can see it.</div>\n"@;
    assert(pairless(s, '"', '/', 0, 24));
    assert(pairless(s, '"', '/', 24, 48));
    lemma_pairless_join(s, '"', '/', 0, 24, 48);
    assert(pairless(s, '"', '/', 48, 52));
    lemma_pairless_join(s, '"', '/', 0, 48, 52);
    lemma_pathless(s);
}

proof fn lemma_done_empty()
    ensures
        pathless("<div class=done>Nothing was chosen, so nothing was sent.</div>\n"@),
        opens_fine("<div class=done>Nothing was chosen, so nothing was sent.</div>\n"@),
{
    reveal_strlit("<div class=done>Nothing was chosen, so nothing was sent.</div>\n");
    reveal_with_fuel(pairless, 25);
    let s = "<div class=done>Nothing was chosen, so nothing was sent.</div>\n"@;
    assert(pairless(s, '"', '/', 0, 24));
    assert(pairless(s, '"', '/', 24, 48));
    lemma_pairless_join(s, '"', '/', 0, 24, 48);
    assert(pairless(s, '"', '/', 48, 62));
    lemma_pairless_join(s, '"', '/', 0, 48, 62);
    lemma_pathless(s);
}

proof fn lemma_done_toobig()
    ensures
        pathless("<div class=done>That file is too big to hand in this way.</div>\n"@),
        opens_fine("<div class=done>That file is too big to hand in this way.</div>\n"@),
{
    reveal_strlit("<div class=done>That file is too big to hand in this way.</div>\n");
    reveal_with_fuel(pairless, 25);
    let s = "<div class=done>That file is too big to hand in this way.</div>\n"@;
    assert(pairless(s, '"', '/', 0, 24));
    assert(pairless(s, '"', '/', 24, 48));
    lemma_pairless_join(s, '"', '/', 0, 24, 48);
    assert(pairless(s, '"', '/', 48, 63));
    lemma_pairless_join(s, '"', '/', 0, 48, 63);
    lemma_pathless(s);
}

proof fn lemma_done_cantsave()
    ensures
        pathless("<div class=done>It could not be saved on the teacher's computer. Tell your teacher.</div>\n"@),
        opens_fine("<div class=done>It could not be saved on the teacher's computer. Tell your teacher.</div>\n"@),
{
    reveal_strlit("<div class=done>It could not be saved on the teacher's computer. Tell your teacher.</div>\n");
    reveal_with_fuel(pairless, 25);
    let s = "<div class=done>It could not be saved on the teacher's computer. Tell your teacher.</div>\n"@;
    assert(pairless(s, '"', '/', 0, 24));
    assert(pairless(s, '"', '/', 24, 48));
    lemma_pairless_join(s, '"', '/', 0, 24, 48);
    assert(pairless(s, '"', '/', 48, 72));
    lemma_pairless_join(s, '"', '/', 0, 48, 72);
    assert(pairless(s, '"', '/', 72, 89));
    lemma_pairless_join(s, '"', '/', 0, 72, 89);
    lemma_pathless(s);
}

proof fn lemma_done(done: Option<Seq<char>>)
    ensures
        pathless(done_box(done)),
        opens_fine(done_box(done)),
{
    lemma_done_handin();
    lemma_done_note();
    lemma_done_empty();
    lemma_done_toobig();
    lemma_done_cantsave();
}

// ------------------------------------------------------------- the pages

/// Whether a device is asked for its name.
pub open spec fn asked_for_name(p: &PageParts) -> bool {
    p.claimed is None || p.rename
}

proof fn lemma_action(s: Seq<char>, what: Seq<char>, i: int)
    requires
        what.len() >= 11,
        what[5] == 'n' && what[6] == '=' && what[7] == '"' && what[8] == '/',
        occurs_at(s, what, i),
    ensures
        call_at(s, i + 5),
        s[i + 5] == what[5],
        s[i + 9] == what[9],
        s[i + 10] == what[10],
{
    let w = s.subrange(i, i + what.len());
    assert(w[5] == s[i + 5] && w[6] == s[i + 6] && w[7] == s[i + 7] && w[8] == s[i + 8] && w[9]
        == s[i + 9] && w[10] == s[i + 10]);
}

proof fn lemma_src(s: Seq<char>, what: Seq<char>, i: int)
    requires
        what.len() >= 6,
        what[2] == 'c' && what[3] == '=' && what[4] == '"' && what[5] == '/',
        occurs_at(s, what, i),
    ensures
        call_at(s, i + 2),
        s[i + 2] == 'c',
{
    let w = s.subrange(i, i + what.len());
    assert(w[2] == s[i + 2] && w[3] == s[i + 3] && w[4] == s[i + 4] && w[5] == s[i + 5]);
}

proof fn lemma_holds(s: Seq<char>, what: Seq<char>, i: int)
    requires
        occurs_at(s, what, i),
    ensures
        holds(s, what),
{
    lemma_first_from(s, what, 0);
}

// A page that asks for the name calls one path, which is that of the name.
proof fn lemma_asked(x: Seq<char>)
    requires
        pathless(x),
    ensures
        ({
            let s = PAGE_HEAD@ + (NAME_FORM@ + x + NAME_FORM_END@ + PAGE_END@);
            let h = PAGE_HEAD@.len() as int;
            &&& one_call(s, h + 25)
            &&& s.subrange(h + 20, h + 34) == "action=\"/name\""@
        }),
{
    lemma_page_head();
    lemma_name_form();
    lemma_name_form_end();
    lemma_page_end();
    lemma_pathless_calls_nothing(PAGE_HEAD@);
    lemma_pathless_calls_nothing(x);
    lemma_pathless_calls_nothing(NAME_FORM_END@);
    lemma_pathless_calls_nothing(PAGE_END@);
    let a = NAME_FORM@ + x;
    let b = a + NAME_FORM_END@;
    let form = b + PAGE_END@;
    let s = PAGE_HEAD@ + form;
    lemma_calls(NAME_FORM@, x);
    lemma_calls(a, NAME_FORM_END@);
    lemma_calls(b, PAGE_END@);
    assert(form[0] == NAME_FORM@[0]);
    assert(form[1] == NAME_FORM@[1]);
    lemma_calls(PAGE_HEAD@, form);
    let h = PAGE_HEAD@.len() as int;
    assert forall|j: int| #[trigger] call_at(s, j) <==> j == h + 25 by {
        assert(call_at(s, j) == (call_at(PAGE_HEAD@, j) || call_at(form, j - h)));
        assert(call_at(form, j - h) == (call_at(b, j - h) || call_at(PAGE_END@, j - h - b.len())));
        assert(call_at(b, j - h) == (call_at(a, j - h) || call_at(
            NAME_FORM_END@,
            j - h - a.len(),
        )));
        assert(call_at(a, j - h) == (call_at(NAME_FORM@, j - h) || call_at(
            x,
            j - h - NAME_FORM@.len(),
        )));
    }
    assert(s.subrange(h + 20, h + 34) =~= NAME_FORM@.subrange(20, 34));
}

/// What stands on the page above the list of files.
spec fn page_top(p: &PageParts, me: Seq<char>) -> Seq<char> {
    PAGE_HEAD@ + "<p>You are <b>"@ + html(me)
        + "</b>. <a href=\"/?rename=1\">Not you?</a></p>\n"@ + done_box(str_view(p.done))
        + notice_box(p.notice@)
}

proof fn lemma_top(p: &PageParts, me: Seq<char>)
    ensures
        no_call(page_top(p, me)),
{
    reveal_strlit("<p>You are <b>");
    reveal_strlit("</b>. <a href=\"/?rename=1\">Not you?</a></p>\n");
    let hello = "<p>You are <b>"@;
    let other = "</b>. <a href=\"/?rename=1\">Not you?</a></p>\n"@;
    let done = done_box(str_view(p.done));
    let notice = notice_box(p.notice@);
    lemma_page_head();
    lemma_typed(me);
    lemma_done(str_view(p.done));
    lemma_notice(p.notice@);
    assert(pathless(hello)) by {
        reveal_with_fuel(pairless, 41);
        lemma_pathless(hello);
    }
    let a = PAGE_HEAD@ + hello + html(me);
    lemma_pathless_both(PAGE_HEAD@, hello);
    lemma_pathless_both(PAGE_HEAD@ + hello, html(me));
    lemma_pathless_calls_nothing(a);
    assert(no_call(other)) by {
        let s = other;
        reveal_with_fuel(pairless, 41);
        assert(pairless(s, '"', '/', 0, 14));
        assert(pairless(s, '"', '/', 15, 46));
        lemma_pairless(s, '"', '/', 0, 14);
        lemma_pairless(s, '"', '/', 15, 46);
        assert forall|j: int| !#[trigger] call_at(s, j) by {
            if call_at(s, j) {
                assert(pair_at(s, '"', '/', j + 2));
                assert(j == 12);
            }
        }
    }
    lemma_calls(a, other);
    lemma_pathless_calls_nothing(done);
    lemma_calls(a + other, done);
    lemma_pathless_calls_nothing(notice);
    lemma_calls(a + other + done, notice);
}

proof fn lemma_handin(available: bool, token: Seq<char>, here: Seq<char>)
    requires
        !token.contains('"'),
    ensures
        ({
            let s = handin_part(available, token, here);
            &&& available ==> one_call(s, 25) && s.len() >= 36 && s.subrange(20, 36)
                == "action=\"/handin\""@
            &&& !available ==> no_call(s)
            &&& opens_fine(s)
        }),
{
    if available {
        lemma_handin_form();
        lemma_handin_form_end();
        lemma_hatch();
        lemma_hatch_end();
        lemma_typed(here);
        assert forall|i: int| 0 <= i < token.len() implies #[trigger] token[i] != '"' by {
            assert(token.contains(token[i]));
        }
        lemma_quoteless(token);
        let a = HANDIN_FORM@ + token;
        let b = a + HANDIN_FORM_END@;
        let c = b + ESCAPE_HATCH@;
        let d = c + html(here);
        let s = d + ESCAPE_HATCH_END@;
        lemma_pathless_calls_nothing(token);
        lemma_pathless_calls_nothing(HANDIN_FORM_END@);
        lemma_pathless_calls_nothing(ESCAPE_HATCH@);
        lemma_pathless_calls_nothing(html(here));
        lemma_pathless_calls_nothing(ESCAPE_HATCH_END@);
        lemma_calls(HANDIN_FORM@, token);
        lemma_calls(a, HANDIN_FORM_END@);
        lemma_calls(b, ESCAPE_HATCH@);
        lemma_hatch_ends();
        assert(c.last() == ESCAPE_HATCH@.last());
        lemma_calls(c, html(here));
        lemma_calls(d, ESCAPE_HATCH_END@);
        assert forall|j: int| #[trigger] call_at(s, j) <==> j == 25 by {
            assert(call_at(s, j) == (call_at(d, j) || call_at(ESCAPE_HATCH_END@, j - d.len())));
            assert(call_at(d, j) == (call_at(c, j) || call_at(html(here), j - c.len())));
            assert(call_at(c, j) == (call_at(b, j) || call_at(ESCAPE_HATCH@, j - b.len())));
            assert(call_at(b, j) == (call_at(a, j) || call_at(HANDIN_FORM_END@, j - a.len())));
            assert(call_at(a, j) == (call_at(HANDIN_FORM@, j) || call_at(
                token,
                j - HANDIN_FORM@.len(),
            )));
        }
        assert(s.subrange(20, 36) =~= HANDIN_FORM@.subrange(20, 36));
        assert(s[0] == HANDIN_FORM@[0]);
        assert(s[1] == HANDIN_FORM@[1]);
    } else {
        lemma_handin_off();
        lemma_pathless_calls_nothing(HANDIN_OFF@);
    }
}

proof fn lemma_hatch_ends()
    ensures
        ESCAPE_HATCH@.len() > 0,
        ESCAPE_HATCH@.last() == '>',
{
    reveal_strlit(
        "<div class=escape><b>Tapping \"Choose file\" does nothing?</b><br>\
    You are in the wifi sign-in window, which cannot send files.<br>\
    Open your normal browser and go to:\
    <div class=addr>",
    );
}

proof fn lemma_note(token: Seq<char>)
    requires
        !token.contains('"'),
    ensures
        ({
            let s = NOTE_FORM@ + token + NOTE_FORM_END@ + PAGE_END@;
            &&& one_call(s, 25)
            &&& s.len() >= 34
            &&& s.subrange(20, 34) == "action=\"/note\""@
            &&& opens_fine(s)
        }),
{
    lemma_note_form();
    lemma_note_form_end();
    lemma_page_end();
    assert forall|i: int| 0 <= i < token.len() implies #[trigger] token[i] != '"' by {
        assert(token.contains(token[i]));
    }
    lemma_quoteless(token);
    let a = NOTE_FORM@ + token;
    let b = a + NOTE_FORM_END@;
    let s = b + PAGE_END@;
    lemma_pathless_calls_nothing(token);
    lemma_pathless_calls_nothing(NOTE_FORM_END@);
    lemma_pathless_calls_nothing(PAGE_END@);
    lemma_calls(NOTE_FORM@, token);
    lemma_calls(a, NOTE_FORM_END@);
    lemma_calls(b, PAGE_END@);
    assert forall|j: int| #[trigger] call_at(s, j) <==> j == 25 by {
        assert(call_at(s, j) == (call_at(b, j) || call_at(PAGE_END@, j - b.len())));
        assert(call_at(b, j) == (call_at(a, j) || call_at(NOTE_FORM_END@, j - a.len())));
        assert(call_at(a, j) == (call_at(NOTE_FORM@, j) || call_at(
            token,
            j - NOTE_FORM@.len(),
        )));
    }
    assert(s.subrange(20, 34) =~= NOTE_FORM@.subrange(20, 34));
    assert(s[0] == NOTE_FORM@[0]);
    assert(s[1] == NOTE_FORM@[1]);
}

/// Where the paths are called on a page with files.
spec fn calls_of(top: int, hand: int, handin: bool, j: int) -> bool {
    j == top + 10 || (handin && j == top + 31 + 25) || j == top + 31 + hand + 25
}

proof fn lemma_open(p: &PageParts, me: Seq<char>)
    requires
        !p.handin_token@.contains('"'),
        !p.note_token@.contains('"'),
    ensures
        ({
            let top = page_top(p, me);
            let hand = handin_part(p.handin, p.handin_token@, p.here@);
            let note = NOTE_FORM@ + p.note_token@ + NOTE_FORM_END@ + PAGE_END@;
            let s = top + FILE_IFRAME@ + hand + note;
            let t = top.len() as int;
            let n = t + 31 + hand.len();
            &&& forall|j: int| #[trigger]
                call_at(s, j) <==> calls_of(t, hand.len() as int, p.handin, j)
            &&& s.len() >= n + 34
            &&& s.subrange(t + 8, t + 20) == "src=\"/files\""@
            &&& p.handin ==> hand.len() >= 36 && s.subrange(t + 51, t + 67)
                == "action=\"/handin\""@
            &&& s.subrange(n + 20, n + 34) == "action=\"/note\""@
        }),
{
    let top = page_top(p, me);
    let hand = handin_part(p.handin, p.handin_token@, p.here@);
    let note = NOTE_FORM@ + p.note_token@ + NOTE_FORM_END@ + PAGE_END@;
    lemma_top(p, me);
    lemma_frame();
    lemma_handin(p.handin, p.handin_token@, p.here@);
    lemma_note(p.note_token@);
    let a = top + FILE_IFRAME@;
    let b = a + hand;
    let s = b + note;
    let t = top.len() as int;
    let n = t + 31 + hand.len();
    lemma_calls(top, FILE_IFRAME@);
    lemma_calls(a, hand);
    lemma_calls(b, note);
    assert forall|j: int| #[trigger]
        call_at(s, j) <==> calls_of(t, hand.len() as int, p.handin, j) by {
        assert(call_at(s, j) == (call_at(b, j) || call_at(note, j - b.len())));
        assert(call_at(b, j) == (call_at(a, j) || call_at(hand, j - a.len())));
        assert(call_at(a, j) == (call_at(top, j) || call_at(FILE_IFRAME@, j - top.len())));
    }
    assert(s.subrange(t + 8, t + 20) =~= FILE_IFRAME@.subrange(8, 20));
    if p.handin {
        assert(s.subrange(t + 51, t + 67) =~= hand.subrange(20, 36));
    }
    assert(s.subrange(n + 20, n + 34) =~= note.subrange(20, 34));
}

// What the four calls look like.
proof fn lemma_four()
    ensures
        ({
            let name = "action=\"/name\""@;
            let note = "action=\"/note\""@;
            let handin = "action=\"/handin\""@;
            let files = "src=\"/files\""@;
            &&& name.len() == 14 && name[5] == 'n' && name[6] == '=' && name[7] == '"' && name[8]
                == '/' && name[9] == 'n' && name[10] == 'a'
            &&& note.len() == 14 && note[5] == 'n' && note[6] == '=' && note[7] == '"' && note[8]
                == '/' && note[9] == 'n' && note[10] == 'o'
            &&& handin.len() == 16 && handin[5] == 'n' && handin[6] == '=' && handin[7] == '"'
                && handin[8] == '/' && handin[9] == 'h'
            &&& files.len() == 12 && files[2] == 'c' && files[3] == '=' && files[4] == '"'
                && files[5] == '/'
        }),
{
    reveal_strlit("action=\"/name\"");
    reveal_strlit("action=\"/note\"");
    reveal_strlit("action=\"/handin\"");
    reveal_strlit("src=\"/files\"");
}

proof fn lemma_forms_when_asked(x: Seq<char>)
    requires
        pathless(x),
    ensures
        ({
            let s = PAGE_HEAD@ + (NAME_FORM@ + x + NAME_FORM_END@ + PAGE_END@);
            &&& holds(s, "action=\"/name\""@)
            &&& !holds(s, "action=\"/note\""@)
            &&& !holds(s, "src=\"/files\""@)
            &&& !holds(s, "action=\"/handin\""@)
        }),
{
    let s = PAGE_HEAD@ + (NAME_FORM@ + x + NAME_FORM_END@ + PAGE_END@);
    let name = "action=\"/name\""@;
    let note = "action=\"/note\""@;
    let handin = "action=\"/handin\""@;
    let files = "src=\"/files\""@;
    lemma_four();
    lemma_asked(x);
    lemma_name_form();
    let h = PAGE_HEAD@.len() as int;
    assert(s.len() >= h + 34);
    lemma_holds(s, name, h + 20);
    let w = s.subrange(h + 20, h + 34);
    assert(w[9] == s[h + 29] && w[10] == s[h + 30] && w[5] == s[h + 25]);
    lemma_first_from(s, note, 0);
    lemma_first_from(s, handin, 0);
    lemma_first_from(s, files, 0);
    if holds(s, note) {
        let i = choose|i: int| 0 <= i && occurs_at(s, note, i);
        lemma_action(s, note, i);
    }
    if holds(s, handin) {
        let i = choose|i: int| 0 <= i && occurs_at(s, handin, i);
        lemma_action(s, handin, i);
    }
    if holds(s, files) {
        let i = choose|i: int| 0 <= i && occurs_at(s, files, i);
        lemma_src(s, files, i);
    }
}

proof fn lemma_forms_when_open(p: &PageParts, me: Seq<char>)
    requires
        !p.handin_token@.contains('"'),
        !p.note_token@.contains('"'),
    ensures
        ({
            let s = page_top(p, me) + FILE_IFRAME@ + handin_part(
                p.handin,
                p.handin_token@,
                p.here@,
            ) + (NOTE_FORM@ + p.note_token@ + NOTE_FORM_END@ + PAGE_END@);
            &&& !holds(s, "action=\"/name\""@)
            &&& holds(s, "action=\"/note\""@)
            &&& holds(s, "src=\"/files\""@)
            &&& holds(s, "action=\"/handin\""@) == p.handin
        }),
{
    let top = page_top(p, me);
    let hand = handin_part(p.handin, p.handin_token@, p.here@);
    let s = top + FILE_IFRAME@ + hand + (NOTE_FORM@ + p.note_token@ + NOTE_FORM_END@ + PAGE_END@);
    let name = "action=\"/name\""@;
    let note = "action=\"/note\""@;
    let handin = "action=\"/handin\""@;
    let files = "src=\"/files\""@;
    lemma_four();
    lemma_open(p, me);
    let t = top.len() as int;
    let n = t + 31 + hand.len();
    lemma_holds(s, files, t + 8);
    lemma_holds(s, note, n + 20);
    let wf = s.subrange(t + 8, t + 20);
    let wn = s.subrange(n + 20, n + 34);
    assert(wf[2] == s[t + 10]);
    assert(wn[5] == s[n + 25] && wn[9] == s[n + 29] && wn[10] == s[n + 30]);
    if p.handin {
        lemma_holds(s, handin, t + 51);
        let wh = s.subrange(t + 51, t + 67);
        assert(wh[5] == s[t + 56] && wh[9] == s[t + 60]);
    }
    lemma_first_from(s, name, 0);
    lemma_first_from(s, handin, 0);
    if holds(s, name) {
        let i = choose|i: int| 0 <= i && occurs_at(s, name, i);
        lemma_action(s, name, i);
        assert(calls_of(t, hand.len() as int, p.handin, i + 5));
    }
    if holds(s, handin) && !p.handin {
        let i = choose|i: int| 0 <= i && occurs_at(s, handin, i);
        lemma_action(s, handin, i);
        assert(calls_of(t, hand.len() as int, p.handin, i + 5));
    }
}

/// The forms stand where they should: a device without a name, or one that asked to give
/// another, is asked for its name and for nothing else; every other has the list of files
/// and the form for a note, and the form for handing in exactly where work can land.
/// Nothing that somebody typed adds a form or takes one away.
pub proof fn law_forms_stand_where_they_should(p: &PageParts)
    requires
        !p.handin_token@.contains('"'),
        !p.note_token@.contains('"'),
    ensures
        holds(class_page_text(p), "action=\"/name\""@) == asked_for_name(p),
        holds(class_page_text(p), "action=\"/note\""@) == !asked_for_name(p),
        holds(class_page_text(p), "src=\"/files\""@) == !asked_for_name(p),
        holds(class_page_text(p), "action=\"/handin\""@) == (!asked_for_name(p) && p.handin),
{
    let s = class_page_text(p);
    match str_view(p.claimed) {
        Some(me) => {
            if p.rename {
                lemma_typed(me);
                lemma_forms_when_asked(html(me));
                assert(s =~= PAGE_HEAD@ + (NAME_FORM@ + html(me) + NAME_FORM_END@ + PAGE_END@));
            } else {
                lemma_forms_when_open(p, me);
                assert(s =~= page_top(p, me) + FILE_IFRAME@ + handin_part(
                    p.handin,
                    p.handin_token@,
                    p.here@,
                ) + (NOTE_FORM@ + p.note_token@ + NOTE_FORM_END@ + PAGE_END@));
            }
        },
        None => {
            let none = Seq::<char>::empty();
            lemma_quoteless(none);
            lemma_forms_when_asked(none);
            assert(s =~= PAGE_HEAD@ + (NAME_FORM@ + none + NAME_FORM_END@ + PAGE_END@));
        },
    }
}

// ------------------------------------------------------------- where the forms lead

/// What stands in a text from a place up to the next quote.
pub open spec fn up_to_quote(s: Seq<char>, k: int) -> Seq<char> {
    s.skip(k).take(char_at(s.skip(k), '"'))
}

proof fn lemma_up_to_quote(s: Seq<char>, k: int, what: Seq<char>, path: Seq<char>)
    requires
        0 <= k,
        k + what.len() <= s.len(),
        s.subrange(k, k + what.len()) == what,
        what.len() == 8 + path.len() + 1,
        what.subrange(8, 8 + path.len() as int) == path,
        what.last() == '"',
        !path.contains('"'),
    ensures
        up_to_quote(s, k + 8) == path,
{
    let rest = s.skip(k + 8);
    let n = path.len() as int;
    assert forall|j: int| 0 <= j < n implies rest[j] == path[j] by {
        assert(rest[j] == s.subrange(k, k + what.len())[8 + j]);
        assert(path[j] == what.subrange(8, 8 + path.len() as int)[j]);
    }
    assert(rest[n] == s.subrange(k, k + what.len())[8 + n]);
    assert forall|j: int| 0 <= j < n implies rest[j] != '"' by {
        assert(path.contains(path[j]));
    }
    lemma_char_at_is(rest, '"', n);
    assert(rest.take(n) =~= path);
}

proof fn lemma_paths()
    ensures
        ({
            let name = "action=\"/name\""@;
            let note = "action=\"/note\""@;
            let handin = "action=\"/handin\""@;
            &&& name.subrange(8, 13) == "/name"@ && name.last() == '"' && name.len() == 14
            &&& note.subrange(8, 13) == "/note"@ && note.last() == '"' && note.len() == 14
            &&& handin.subrange(8, 15) == "/handin"@ && handin.last() == '"' && handin.len() == 16
            &&& "/name"@.len() == 5 && !"/name"@.contains('"')
            &&& "/note"@.len() == 5 && !"/note"@.contains('"')
            &&& "/handin"@.len() == 7 && !"/handin"@.contains('"')
            &&& "/name"@ != "/note"@ && "/name"@ != "/handin"@ && "/note"@ != "/handin"@
        }),
{
    reveal_strlit("action=\"/name\"");
    reveal_strlit("action=\"/note\"");
    reveal_strlit("action=\"/handin\"");
    reveal_strlit("/name");
    reveal_strlit("/note");
    reveal_strlit("/handin");
    assert("action=\"/name\""@.subrange(8, 13) =~= "/name"@);
    assert("action=\"/note\""@.subrange(8, 13) =~= "/note"@);
    assert("action=\"/handin\""@.subrange(8, 15) =~= "/handin"@);
    assert("/name"@[2] == 'a' && "/note"@[2] == 'o');
}

/// Where an action stands on a page, and what it is.
proof fn lemma_where_actions_stand(p: &PageParts, k: int)
    requires
        !p.handin_token@.contains('"'),
        !p.note_token@.contains('"'),
        occurs_at(class_page_text(p), "action=\"/"@, k),
    ensures
        ({
            let path = up_to_quote(class_page_text(p), k + 8);
            &&& asked_for_name(p) ==> path == "/name"@
            &&& !asked_for_name(p) ==> path == "/note"@ || (p.handin && path == "/handin"@)
        }),
{
    let s = class_page_text(p);
    let what = "action=\"/"@;
    reveal_strlit("action=\"/");
    lemma_paths();
    assert(s.subrange(k, k + 9)[5] == s[k + 5]);
    assert(s.subrange(k, k + 9)[6] == s[k + 6]);
    assert(s.subrange(k, k + 9)[7] == s[k + 7]);
    assert(s.subrange(k, k + 9)[8] == s[k + 8]);
    assert(call_at(s, k + 5));
    lemma_name_form();
    let none = Seq::<char>::empty();
    lemma_quoteless(none);
    match str_view(p.claimed) {
        Some(me) => {
            if p.rename {
                lemma_typed(me);
                lemma_asked(html(me));
                assert(s =~= PAGE_HEAD@ + (NAME_FORM@ + html(me) + NAME_FORM_END@ + PAGE_END@));
                lemma_up_to_quote(s, k, "action=\"/name\""@, "/name"@);
            } else {
                lemma_open(p, me);
                let hand = handin_part(p.handin, p.handin_token@, p.here@);
                let t = page_top(p, me).len() as int;
                assert(s =~= page_top(p, me) + FILE_IFRAME@ + hand + (NOTE_FORM@ + p.note_token@
                    + NOTE_FORM_END@ + PAGE_END@));
                assert(calls_of(t, hand.len() as int, p.handin, k + 5));
                lemma_four();
                assert(s.subrange(t + 8, t + 20)[2] == s[t + 10]);
                if p.handin && k == t + 51 {
                    lemma_up_to_quote(s, k, "action=\"/handin\""@, "/handin"@);
                } else {
                    lemma_up_to_quote(s, k, "action=\"/note\""@, "/note"@);
                }
            }
        },
        None => {
            lemma_asked(none);
            assert(s =~= PAGE_HEAD@ + (NAME_FORM@ + none + NAME_FORM_END@ + PAGE_END@));
            lemma_up_to_quote(s, k, "action=\"/name\""@, "/name"@);
        },
    }
}

/// Whatever form of the class page a child sends is taken for what it is: a post to the
/// path that stands as the action of a form on the page is a name where the page asks for
/// one, and otherwise a note, or work that is handed in, by the form it came from. No form
/// leads nowhere.
pub proof fn law_every_form_on_the_page_is_taken(
    p: &PageParts,
    k: int,
    t: &Ticked,
    r: RequestModel,
    naming: Naming,
)
    requires
        !p.handin_token@.contains('"'),
        !p.note_token@.contains('"'),
        occurs_at(class_page_text(p), "action=\"/"@, k),
        r.method == "POST"@,
        r.path == up_to_quote(class_page_text(p), k + 8),
    ensures
        ({
            let way = route_of(t, r, naming, false, false);
            &&& asked_for_name(p) ==> way is Name
            &&& !asked_for_name(p) ==> way is Note || (way is HandIn && p.handin)
            &&& way is HandIn <==> r.path == "/handin"@
            &&& way is Note <==> r.path == "/note"@
            &&& way is Name <==> r.path == "/name"@
        }),
{
    lemma_where_actions_stand(p, k);
    lemma_paths();
}

} // verus!
