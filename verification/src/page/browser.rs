//! What a browser sends when work is handed in, and that it lands.

use super::landing::{
    candidate, end_tag, landed, landing_name, law_other_bytes_become_a_second_version, End, Folder,
};
use super::upload::{
    after_byte, after_chunk, after_chunks, after_text, at_start, filename_in, full_boundary,
    in_lines, law_a_whole_upload_lands, law_any_number_of_pieces, marker_of, second_piece, Phase,
    UploadModel, LINE_CAP,
};
use crate::bytes::lossy;
use crate::text::{
    begins_with, cut, cut_at, finishes_with, holds, is_space, lemma_char_at_is,
    lemma_first_from, lemma_first_is, lemma_first_none, lemma_pairless, lemma_trimmed_end_within,
    lower_all, occurs_at, pair_at, pairless, stripped, stripped_end, stripped_start, trimmed,
    trimmed_end, trimmed_start,
};
use vstd::prelude::*;

verus! {

/// Whether some bytes are one line: they end with a line feed and hold no other.
pub open spec fn is_line(b: Seq<u8>) -> bool {
    &&& 0 < b.len() <= LINE_CAP
    &&& b.last() == 10
    &&& forall|i: int| 0 <= i < b.len() - 1 ==> #[trigger] b[i] != 10
}

/// The state after some lines.
pub open spec fn after_lines(m: UploadModel, lines: Seq<Seq<u8>>) -> UploadModel
    decreases lines.len(),
{
    if lines.len() == 0 {
        m
    } else {
        after_text(after_lines(m, lines.drop_last()), lossy(lines.last()))
    }
}

proof fn lemma_line_from(m: UploadModel, line: Seq<u8>, k: int, rest: Seq<u8>)
    requires
        in_lines(m.phase),
        is_line(line),
        0 <= k < line.len(),
        m.line == line.take(k),
    ensures
        after_chunk(m, line.skip(k) + rest) == after_chunk(
            after_text(UploadModel { line: Seq::empty(), ..m }, lossy(line)),
            rest,
        ),
    decreases line.len() - k,
{
    let chunk = line.skip(k) + rest;
    assert(chunk[0] == line[k]);
    assert(m.line.push(line[k]) =~= line.take(k + 1));
    if k == line.len() - 1 {
        assert(line.take(k + 1) =~= line);
        assert(chunk.skip(1) =~= rest);
    } else {
        assert(chunk.skip(1) =~= line.skip(k + 1) + rest);
        let n = after_byte(m, line[k]);
        lemma_line_from(n, line, k + 1, rest);
        assert(UploadModel { line: Seq::empty(), ..n } == UploadModel { line: Seq::empty(), ..m });
    }
}

proof fn lemma_lines(m: UploadModel, lines: Seq<Seq<u8>>, rest: Seq<u8>)
    requires
        m.line.len() == 0,
        forall|i: int| 0 <= i < lines.len() ==> is_line(#[trigger] lines[i]),
        forall|k: int|
            0 <= k < lines.len() ==> in_lines((#[trigger] after_lines(m, lines.take(k))).phase),
    ensures
        after_chunk(m, lines.flatten() + rest) == after_chunk(after_lines(m, lines), rest),
        after_lines(m, lines).line == m.line,
        after_lines(m, lines).tail == m.tail,
        after_lines(m, lines).full == m.full,
    decreases lines.len(),
{
    if lines.len() == 0 {
        assert(lines =~= Seq::<Seq<u8>>::empty());
        assert(lines.flatten() + rest =~= rest);
    } else {
        let head = lines.drop_last();
        let last = lines[lines.len() - 1];
        assert(lines =~= head.push(last));
        head.lemma_flatten_push(last);
        assert(lines.flatten() + rest =~= head.flatten() + (last + rest));
        assert forall|i: int| 0 <= i < head.len() implies is_line(#[trigger] head[i]) by {
            assert(head[i] == lines[i]);
        }
        assert forall|k: int| 0 <= k < head.len() implies in_lines(
            (#[trigger] after_lines(m, head.take(k))).phase,
        ) by {
            assert(head.take(k) =~= lines.take(k));
        }
        lemma_lines(m, head, last + rest);
        let n = after_lines(m, head);
        assert(lines.take(head.len() as int) =~= head);
        assert(in_lines(n.phase));
        assert(n.line =~= last.take(0));
        assert(last.skip(0) =~= last);
        lemma_line_from(n, last, 0, rest);
        assert(UploadModel { line: Seq::empty(), ..n } =~= n);
    }
}

proof fn lemma_one_more(m: UploadModel, lines: Seq<Seq<u8>>, k: int)
    requires
        0 <= k < lines.len(),
    ensures
        after_lines(m, lines.take(k + 1)) == after_text(
            after_lines(m, lines.take(k)),
            lossy(lines[k]),
        ),
{
    assert(lines.take(k + 1).drop_last() =~= lines.take(k));
}

/// The header of the part with the token.
pub const TOKEN_HEADER: &'static str = "Content-Disposition: form-data; name=\"token\"";

/// The header of the part with the file, up to the file's name.
pub const FILE_HEADER: &'static str = "Content-Disposition: form-data; name=\"work\"; filename=\"";

/// The lines that a browser sends before the content of a file: the token in a part of
/// its own, and the headers of the file.
pub open spec fn browser_head(
    full: Seq<char>,
    token: Seq<char>,
    name: Seq<char>,
    kind: Seq<char>,
) -> Seq<Seq<char>> {
    seq![
        full + "\r\n"@,
        TOKEN_HEADER@ + "\r\n"@,
        "\r\n"@,
        token + "\r\n"@,
        full + "\r\n"@,
        FILE_HEADER@ + name + seq!['"'] + "\r\n"@,
        "Content-Type: "@ + kind + "\r\n"@,
        "\r\n"@,
    ]
}

/// What a browser makes of a form: the boundary does not end like the last line of the
/// form does, the token is of letters and digits, the name holds no quote and no second
/// name, and the type is there.
pub open spec fn browser_made(
    boundary: Seq<char>,
    token: Seq<char>,
    name: Seq<char>,
    kind: Seq<char>,
) -> bool {
    &&& boundary.len() > 0
    &&& !is_space(boundary.last())
    &&& !finishes_with(full_boundary(boundary), "--"@)
    &&& !token.contains('-')
    &&& name.len() > 0
    &&& !name.contains('"')
    &&& !holds(name, "filename="@)
    &&& kind.len() > 0
    &&& !is_space(kind.last())
}

proof fn lemma_line_end(s: Seq<char>)
    requires
        s.len() > 0 ==> !is_space(s.last()),
    ensures
        trimmed_end(s + "\r\n"@) == s,
{
    reveal_strlit("\r\n");
    let t = s + "\r\n"@;
    reveal_with_fuel(trimmed_end, 3);
    assert(t.last() == '\n');
    assert(t.drop_last().last() == '\r');
    assert(t.drop_last().drop_last() =~= s);
}

proof fn lemma_token_header()
    ensures
        begins_with(lower_all(TOKEN_HEADER@), "content-disposition:"@),
        !holds(lower_all(TOKEN_HEADER@), "filename="@),
        TOKEN_HEADER@.len() > 0,
        !is_space(TOKEN_HEADER@.last()),
{
    reveal_strlit("Content-Disposition: form-data; name=\"token\"");
    reveal_strlit("content-disposition:");
    reveal_strlit("filename=");
    let s = lower_all(TOKEN_HEADER@);
    let p = "filename="@;
    assert(s.subrange(0, 20) =~= "content-disposition:"@);
    assert(pairless(s, 'f', 'i', 0, 44)) by {
        reveal_with_fuel(pairless, 45);
    }
    lemma_pairless(s, 'f', 'i', 0, 44);
    assert forall|j: int| 0 <= j implies !#[trigger] occurs_at(s, p, j) by {
        if occurs_at(s, p, j) {
            assert(s.subrange(j, j + 9)[0] == p[0]);
            assert(s.subrange(j, j + 9)[1] == p[1]);
            assert(pair_at(s, 'f', 'i', j));
        }
    }
    lemma_first_none(s, p, 0);
}

proof fn lemma_no_quote_in_name(name: Seq<char>)
    requires
        !name.contains('"'),
        !holds(name, "filename="@),
    ensures
        !holds(seq!['"'] + name + seq!['"'], "filename="@),
{
    reveal_strlit("filename=");
    let p = "filename="@;
    let s = seq!['"'] + name + seq!['"'];
    lemma_first_from(name, p, 0);
    assert forall|j: int| 0 <= j implies !#[trigger] occurs_at(s, p, j) by {
        if occurs_at(s, p, j) {
            let w = s.subrange(j, j + 9);
            assert(w[0] == 'f' && w[8] == '=');
            assert(w[0] == s[j] && w[8] == s[j + 8]);
            assert(j > 0 && j + 9 < s.len());
            assert(name.subrange(j - 1, j + 8) =~= w);
            assert(occurs_at(name, p, j - 1));
        }
    }
    lemma_first_none(s, p, 0);
}

proof fn lemma_file_header(name: Seq<char>)
    requires
        name.len() > 0,
        !name.contains('"'),
        !holds(name, "filename="@),
    ensures
        ({
            let d = FILE_HEADER@ + name + seq!['"'];
            &&& begins_with(lower_all(d), "content-disposition:"@)
            &&& holds(lower_all(d), "filename="@)
            &&& filename_in(d) == name
        }),
{
    reveal_strlit("Content-Disposition: form-data; name=\"work\"; filename=\"");
    reveal_strlit("content-disposition:");
    reveal_strlit("filename=");
    let h = FILE_HEADER@;
    let p = "filename="@;
    let d = h + name + seq!['"'];
    let low = lower_all(d);
    assert(low.subrange(0, 20) =~= "content-disposition:"@);
    assert(low.subrange(45, 54) =~= p);
    assert(occurs_at(low, p, 45));
    lemma_first_from(low, p, 0);
    assert(pairless(h, 'f', 'i', 0, 45)) by {
        reveal_with_fuel(pairless, 46);
    }
    lemma_pairless(h, 'f', 'i', 0, 45);
    assert forall|j: int| 0 <= j < 45 implies !#[trigger] occurs_at(d, p, j) by {
        if occurs_at(d, p, j) {
            let w = d.subrange(j, j + 9);
            assert(w[0] == p[0] && w[1] == p[1]);
            assert(pair_at(h, 'f', 'i', j));
        }
    }
    assert(d.subrange(45, 54) =~= p);
    lemma_first_is(d, p, 0, 45);
    let q = seq!['"'] + name + seq!['"'];
    assert(d.skip(54) =~= q);
    lemma_no_quote_in_name(name);
    assert(cut_at(d, p) == Some((d.take(45), q)));
    assert(cut_at(q, p) is None);
    assert(second_piece(d, p) == Some(q));
    lemma_unquoted(name);
    let set = seq!['"'];
    lemma_char_at_is(name, '"', name.len() as int);
}

proof fn lemma_unquoted(name: Seq<char>)
    requires
        name.len() > 0,
        !name.contains('"'),
    ensures
        stripped(trimmed(seq!['"'] + name + seq!['"']), seq!['"']) == name,
{
    let set = seq!['"'];
    let q = set + name + set;
    assert(set[0] == '"');
    assert(set.contains('"'));
    assert(q[0] == '"' && q.last() == '"');
    assert(trimmed_start(q) == q);
    assert(trimmed(q) == q);
    let a = q.skip(1);
    assert(a[0] == name[0]);
    assert(name.contains(name[0]));
    assert(!set.contains(a[0]));
    assert(stripped_start(a, set) == a);
    assert(stripped_start(q, set) == a);
    assert(a.last() == '"');
    assert(a.drop_last() =~= name);
    assert(name.contains(name.last()));
    assert(!set.contains(name.last()));
    assert(stripped_end(name, set) == name);
    assert(stripped_end(a, set) == name);
}

proof fn lemma_token_is_no_boundary(boundary: Seq<char>, token: Seq<char>)
    requires
        !token.contains('-'),
    ensures
        !begins_with(trimmed_end(token + "\r\n"@), full_boundary(boundary)),
{
    reveal_strlit("--");
    reveal_strlit("\r\n");
    let full = full_boundary(boundary);
    let line = token + "\r\n"@;
    let t = trimmed_end(line);
    lemma_trimmed_end_within(line);
    if begins_with(t, full) {
        assert(t.subrange(0, full.len() as int)[0] == full[0]);
        assert(t[0] == '-');
        if token.len() > 0 {
            assert(token.contains(token[0]));
        }
    }
}

proof fn lemma_kind_header(kind: Seq<char>)
    requires
        kind.len() > 0,
        !is_space(kind.last()),
    ensures
        trimmed_end("Content-Type: "@ + kind + "\r\n"@) == "Content-Type: "@ + kind,
        !begins_with(lower_all("Content-Type: "@ + kind), "content-disposition:"@),
{
    reveal_strlit("Content-Type: ");
    reveal_strlit("content-disposition:");
    let s = "Content-Type: "@ + kind;
    assert(s.last() == kind.last());
    lemma_line_end(s);
    let low = lower_all(s);
    if begins_with(low, "content-disposition:"@) {
        assert(low.subrange(0, 20)[8] == "content-disposition:"@[8]);
        assert(low[8] == 't');
    }
}

/// The lines that a browser sends lead up to the content of the file, under the name
/// that the file has.
pub proof fn law_a_browsers_head_leads_to_the_content(
    boundary: Seq<char>,
    lines: Seq<Seq<u8>>,
    token: Seq<char>,
    name: Seq<char>,
    kind: Seq<char>,
)
    requires
        browser_made(boundary, token, name, kind),
        lines.len() == 8,
        forall|i: int| 0 <= i < 8 ==> is_line(#[trigger] lines[i]),
        forall|i: int|
            0 <= i < 8 ==> lossy(#[trigger] lines[i]) == browser_head(
                full_boundary(boundary),
                token,
                name,
                kind,
            )[i],
    ensures
        ({
            let m = at_start(full_boundary(boundary));
            let n = after_chunk(m, lines.flatten()).0;
            &&& n.phase == Phase::Payload
            &&& n.filename == name
            &&& n.tail.len() == 0
        }),
{
    let full = full_boundary(boundary);
    let m = at_start(full);
    let texts = browser_head(full, token, name, kind);
    let s0 = after_lines(m, lines.take(0));
    let s1 = after_lines(m, lines.take(1));
    let s2 = after_lines(m, lines.take(2));
    let s3 = after_lines(m, lines.take(3));
    let s4 = after_lines(m, lines.take(4));
    let s5 = after_lines(m, lines.take(5));
    let s6 = after_lines(m, lines.take(6));
    let s7 = after_lines(m, lines.take(7));
    let s8 = after_lines(m, lines.take(8));
    lemma_one_more(m, lines, 0);
    lemma_one_more(m, lines, 1);
    lemma_one_more(m, lines, 2);
    lemma_one_more(m, lines, 3);
    lemma_one_more(m, lines, 4);
    lemma_one_more(m, lines, 5);
    lemma_one_more(m, lines, 6);
    lemma_one_more(m, lines, 7);
    assert(s0 == m);
    assert(s1 == after_text(s0, texts[0]) && s2 == after_text(s1, texts[1]));
    assert(s3 == after_text(s2, texts[2]) && s4 == after_text(s3, texts[3]));
    assert(s5 == after_text(s4, texts[4]) && s6 == after_text(s5, texts[5]));
    assert(s7 == after_text(s6, texts[6]) && s8 == after_text(s7, texts[7]));
    let none = Seq::<char>::empty();
    assert(none + "\r\n"@ =~= "\r\n"@);
    lemma_line_end(none);
    lemma_token_header();
    lemma_line_end(TOKEN_HEADER@);
    assert(s1.phase == Phase::Headers);
    assert(s2.phase == Phase::Headers && s2.disposition == TOKEN_HEADER@);
    assert(s3.phase == Phase::Field);
    lemma_token_is_no_boundary(boundary, token);
    assert(s4 == s3);
    assert(full.last() == boundary.last());
    lemma_line_end(full);
    assert(full.subrange(0, full.len() as int) =~= full);
    assert(s5.phase == Phase::Headers);
    let d = FILE_HEADER@ + name + seq!['"'];
    lemma_file_header(name);
    assert(d.last() == '"');
    lemma_line_end(d);
    assert(s6.phase == Phase::Headers && s6.disposition == d);
    lemma_kind_header(kind);
    assert(s7 == s6);
    assert(s8.phase == Phase::Payload && s8.filename == name);
    assert forall|k: int| 0 <= k < lines.len() implies in_lines(
        (#[trigger] after_lines(m, lines.take(k))).phase,
    ) by {
        if k == 0 {
        } else if k == 1 {
        } else if k == 2 {
        } else if k == 3 {
        } else if k == 4 {
        } else if k == 5 {
        } else if k == 6 {
        } else {
        }
    }
    assert(lines.take(8) =~= lines);
    lemma_lines(m, lines, Seq::empty());
    assert(lines.flatten() + Seq::<u8>::empty() =~= lines.flatten());
    let n = after_lines(m, lines);
    super::upload::lemma_nothing_more(n);
}

/// What a browser hands in lands byte for byte, under the name that the file has,
/// however the bytes are cut on their way, as long as the content does not hold the
/// boundary.
pub proof fn law_a_browsers_upload_lands(
    boundary: Seq<char>,
    lines: Seq<Seq<u8>>,
    token: Seq<char>,
    name: Seq<char>,
    kind: Seq<char>,
    content: Seq<u8>,
    rest: Seq<u8>,
    chunks: Seq<Seq<u8>>,
)
    requires
        browser_made(boundary, token, name, kind),
        lines.len() == 8,
        forall|i: int| 0 <= i < 8 ==> is_line(#[trigger] lines[i]),
        forall|i: int|
            0 <= i < 8 ==> lossy(#[trigger] lines[i]) == browser_head(
                full_boundary(boundary),
                token,
                name,
                kind,
            )[i],
        forall|j: int|
            0 <= j < content.len() ==> !#[trigger] occurs_at(
                content + marker_of(full_boundary(boundary)) + rest,
                marker_of(full_boundary(boundary)),
                j,
            ),
        chunks.len() > 0,
        chunks.flatten() == lines.flatten() + (content + marker_of(full_boundary(boundary))
            + rest),
    ensures
        ({
            let (n, out) = after_chunks(at_start(full_boundary(boundary)), chunks);
            &&& out == content
            &&& n.phase == Phase::Done
            &&& n.filename == name
            &&& n.tail == rest
        }),
{
    let full = full_boundary(boundary);
    law_a_browsers_head_leads_to_the_content(boundary, lines, token, name, kind);
    law_a_whole_upload_lands(full, lines.flatten(), content, rest);
    law_any_number_of_pieces(at_start(full), chunks);
}

/// What a browser hands in is kept: under the name of the device and of the file, with
/// exactly its bytes, and told as handed in. Sent again it is told the same and adds
/// nothing; other bytes under the same name are kept beside it.
pub proof fn law_what_a_browser_hands_in_is_kept(
    boundary: Seq<char>,
    lines: Seq<Seq<u8>>,
    token: Seq<char>,
    name: Seq<char>,
    kind: Seq<char>,
    content: Seq<u8>,
    rest: Seq<u8>,
    chunks: Seq<Seq<u8>>,
    label: Seq<char>,
    folder: Folder,
    other: Seq<u8>,
)
    requires
        browser_made(boundary, token, name, kind),
        lines.len() == 8,
        forall|i: int| 0 <= i < 8 ==> is_line(#[trigger] lines[i]),
        forall|i: int|
            0 <= i < 8 ==> lossy(#[trigger] lines[i]) == browser_head(
                full_boundary(boundary),
                token,
                name,
                kind,
            )[i],
        forall|j: int|
            0 <= j < content.len() ==> !#[trigger] occurs_at(
                content + marker_of(full_boundary(boundary)) + rest,
                marker_of(full_boundary(boundary)),
                j,
            ),
        chunks.len() > 0,
        chunks.flatten() == lines.flatten() + (content + marker_of(full_boundary(boundary))
            + rest),
        !folder.contains_key(landing_name(label, name)),
        !folder.contains_key(candidate(landing_name(label, name), 2)),
        other != content,
    ensures
        ({
            let (n, out) = after_chunks(at_start(full_boundary(boundary)), chunks);
            let base = landing_name(label, n.filename);
            let once = folder.insert(landing_name(label, name), content);
            &&& landed(folder, base, out) == (once, End::Landed { version: 1 })
            &&& landed(once, base, out) == (once, End::Already)
            &&& landed(once, base, other) == (
                once.insert(candidate(base, 2), other),
                End::Landed { version: 2 },
            )
            &&& candidate(base, 2) != base
            &&& end_tag(End::Landed { version: 1 }) == "handin"@
            &&& end_tag(End::Already) == "handin"@
            &&& end_tag(End::Landed { version: 2 }) == "handin"@
        }),
{
    law_a_browsers_upload_lands(boundary, lines, token, name, kind, content, rest, chunks);
    let base = landing_name(label, name);
    law_other_bytes_become_a_second_version(folder, base, content, other);
    let once = folder.insert(base, content);
    assert(once.contains_key(candidate(base, 1)) && once[candidate(base, 1)] == content);
}

} // verus!
