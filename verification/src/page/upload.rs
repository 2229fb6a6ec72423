//! One multipart upload, taken apart as it arrives.
//!
//! The body is fed in pieces of any size. Header lines are gathered until they
//! are whole; of the payload, the last bytes that could be the start of the
//! boundary are held back until the next piece proves what they are.

use crate::bytes::{bytes_at, copied, find, lossy, lossy_text, push_bytes};
use crate::number::{parse_decimal, unsigned};
use crate::text::{
    begins_with, chars_of, contains_text, cut, cut_at, ends_with_text, finishes_with, first_at,
    holds, is_space, law_a_text_is_cut_where_it_should, law_trimming_takes_what_stands_round,
    lemma_first_from, lemma_first_is, lemma_first_none, lemma_nothing_to_trim, lines, lower_all,
    lowered, occurs_at, same_ignoring_case, split_at_text, split_lines, split_once, starts_with,
    starts_with_text, string_of, strip, stripped, stripped_end, stripped_start, text_view, trim,
    trim_end, trimmed, trimmed_end, views,
};
use vstd::prelude::*;
use vstd::slice::slice_subrange;
use vstd::utf8::encode_utf8;

verus! {

/// The largest body that is read: one gibibyte.
pub const UPLOAD_CAP: u64 = 1_073_741_824;

/// The longest line of a part's headers; a longer one is cut into several.
pub const LINE_CAP: usize = 16_384;

// ------------------------------------------------------------- request headers

/// The value of the first header among `ls` from `i` on with this name.
pub open spec fn header_from(ls: Seq<Seq<char>>, i: int, name: Seq<char>) -> Option<Seq<char>>
    decreases ls.len() - i,
{
    if i >= ls.len() {
        None
    } else {
        match cut(ls[i], ':') {
            Some((k, v)) => if lower_all(trimmed(k)) == lower_all(name) {
                Some(trimmed(v))
            } else {
                header_from(ls, i + 1, name)
            },
            None => header_from(ls, i + 1, name),
        }
    }
}

/// The value of the first header with this name, whatever its case.
pub open spec fn header(headers: Seq<char>, name: Seq<char>) -> Option<Seq<char>> {
    header_from(lines(headers), 0, name)
}

/// The value of the first header with this name, whatever its case.
pub fn header_value(headers: &str, name: &str) -> (v: Option<String>)
    ensures
        text_view(v) == header(headers@, name@),
{
    let chars: Vec<char> = chars_of(headers);
    let want: Vec<char> = chars_of(name);
    let ls: Vec<&[char]> = split_lines(chars.as_slice());
    let ghost all = lines(headers@);
    let mut i: usize = 0;
    while i < ls.len()
        invariant
            i <= ls.len(),
            all == lines(headers@),
            views(ls@) == all,
            want@ == name@,
            header(headers@, name@) == header_from(all, i as int, name@),
        decreases ls.len() - i,
    {
        assert(views(ls@)[i as int] == ls@[i as int]@);
        if let Some((k, v)) = split_once(ls[i], ':') {
            if same_ignoring_case(trim(k), want.as_slice()) {
                return Some(string_of(trim(v)));
            }
        }
        i = i + 1;
    }
    None
}

/// The piece of a text between the first and the second place of another.
pub open spec fn second_piece(s: Seq<char>, p: Seq<char>) -> Option<Seq<char>> {
    match cut_at(s, p) {
        None => None,
        Some((_, rest)) => match cut_at(rest, p) {
            None => Some(rest),
            Some((piece, _)) => Some(piece),
        },
    }
}

/// What an optional slice holds.
pub open spec fn slice_view(s: Option<&[char]>) -> Option<Seq<char>> {
    match s {
        Some(t) => Some(t@),
        None => None,
    }
}

fn piece_after<'a>(s: &'a [char], p: &str) -> (r: Option<&'a [char]>)
    ensures
        slice_view(r) == second_piece(s@, p@),
{
    match split_at_text(s, p) {
        None => None,
        Some((_, rest)) => match split_at_text(rest, p) {
            None => Some(rest),
            Some((piece, _)) => Some(piece),
        },
    }
}

/// What the request's headers say about the body.
pub enum Plan {
    /// No boundary or no body: there is nothing to take.
    Empty,
    /// More than will be read.
    TooBig,
    /// Read this many bytes, in parts separated by this boundary.
    Take { boundary: String, length: u64 },
}

/// The length of the body as the headers give it, zero where they do not.
pub open spec fn body_length(headers: Seq<char>) -> int {
    match header(headers, "content-length"@) {
        Some(v) => match unsigned(v, 10, u64::MAX as int) {
            Some(n) => n,
            None => 0,
        },
        None => 0,
    }
}

/// The boundary that the headers name, white space and quotes taken off.
pub open spec fn boundary_of(headers: Seq<char>) -> Option<Seq<char>> {
    match header(headers, "content-type"@) {
        Some(ct) => match second_piece(ct, "boundary="@) {
            Some(b) => Some(stripped(trimmed(b), seq!['"'])),
            None => None,
        },
        None => None,
    }
}

/// Decide from the headers what to do with the body of an upload.
pub fn plan_upload(headers: &str) -> (p: Plan)
    ensures
        match p {
            Plan::Empty => boundary_of(headers@) is None || body_length(headers@) == 0,
            Plan::TooBig => boundary_of(headers@) is Some && body_length(headers@) > UPLOAD_CAP,
            Plan::Take { boundary, length } => boundary_of(headers@) == Some(boundary@)
                && body_length(headers@) == length && 0 < length <= UPLOAD_CAP,
        },
{
    let length: u64 = match header_value(headers, "content-length") {
        Some(v) => {
            let c: Vec<char> = chars_of(v.as_str());
            match parse_decimal(c.as_slice(), u64::MAX) {
                Some(n) => n,
                None => 0,
            }
        },
        None => 0,
    };
    let ct: String = match header_value(headers, "content-type") {
        Some(ct) => ct,
        None => {
            return Plan::Empty;
        },
    };
    let chars: Vec<char> = chars_of(ct.as_str());
    let quotes: [char; 1] = ['"'];
    assert(quotes@ =~= seq!['"']);
    match piece_after(chars.as_slice(), "boundary=") {
        None => Plan::Empty,
        Some(b) => {
            let boundary: String = string_of(strip(trim(b), quotes.as_slice()));
            if length == 0 {
                Plan::Empty
            } else if length > UPLOAD_CAP {
                Plan::TooBig
            } else {
                Plan::Take { boundary, length }
            }
        },
    }
}

/// Decide from the head of a request, as it was read, what to do with the body of an
/// upload.
pub fn read_plan(head: &[u8]) -> (p: Plan)
    ensures
        match p {
            Plan::Empty => boundary_of(lossy(head@)) is None || body_length(lossy(head@)) == 0,
            Plan::TooBig => boundary_of(lossy(head@)) is Some && body_length(lossy(head@))
                > UPLOAD_CAP,
            Plan::Take { boundary, length } => boundary_of(lossy(head@)) == Some(boundary@)
                && body_length(lossy(head@)) == length && 0 < length <= UPLOAD_CAP,
        },
{
    let text: String = lossy_text(head);
    plan_upload(text.as_str())
}

// ------------------------------------------------------------- the parts

/// How far into the body the parser is.
#[derive(Clone, Copy, PartialEq, Eq, Structural, Debug)]
pub enum Phase {
    /// In the first line, which is the first boundary.
    First,
    /// In the headers of a part.
    Headers,
    /// In the content of a part that is not the file.
    Field,
    /// In the content of the file.
    Payload,
    /// Past the end of the file's content.
    Done,
    /// The form held no file.
    Nothing,
}

/// The state of the parser.
#[verifier::ext_equal]
pub struct UploadModel {
    pub full: Seq<char>,
    pub phase: Phase,
    pub line: Seq<u8>,
    pub disposition: Seq<char>,
    pub filename: Seq<char>,
    pub tail: Seq<u8>,
}

/// The line that separates parts.
pub open spec fn full_boundary(boundary: Seq<char>) -> Seq<char> {
    "--"@ + boundary
}

/// The bytes that end the content of a part.
pub open spec fn marker_of(full: Seq<char>) -> Seq<u8> {
    encode_utf8("\r\n"@ + full)
}

/// The file name in a content disposition, quotes and white space taken off.
pub open spec fn filename_in(disposition: Seq<char>) -> Seq<char> {
    match second_piece(disposition, "filename="@) {
        Some(p) => {
            let q = stripped(trimmed(p), seq!['"']);
            match cut(q, '"') {
                Some((a, _)) => a,
                None => q,
            }
        },
        None => Seq::empty(),
    }
}

/// The state after one whole line of bytes.
pub open spec fn after_line(m: UploadModel, line: Seq<u8>) -> UploadModel {
    after_text(m, lossy(line))
}

/// The state after one whole line of headers or of a field.
pub open spec fn after_text(m: UploadModel, text: Seq<char>) -> UploadModel {
    let t = trimmed_end(text);
    if m.phase == Phase::First {
        UploadModel { phase: Phase::Headers, disposition: Seq::empty(), ..m }
    } else if m.phase == Phase::Headers {
        if t.len() > 0 {
            if begins_with(lower_all(t), "content-disposition:"@) {
                UploadModel { disposition: t, ..m }
            } else {
                m
            }
        } else if holds(lower_all(m.disposition), "filename="@) {
            let name = filename_in(m.disposition);
            UploadModel {
                filename: name,
                phase: if name.len() == 0 {
                    Phase::Nothing
                } else {
                    Phase::Payload
                },
                ..m
            }
        } else {
            UploadModel { phase: Phase::Field, ..m }
        }
    } else if m.phase == Phase::Field && begins_with(t, m.full) {
        if finishes_with(t, "--"@) {
            UploadModel { phase: Phase::Nothing, ..m }
        } else {
            UploadModel { phase: Phase::Headers, disposition: Seq::empty(), ..m }
        }
    } else {
        m
    }
}

/// Whether the parser is gathering lines.
pub open spec fn in_lines(p: Phase) -> bool {
    p == Phase::First || p == Phase::Headers || p == Phase::Field
}

/// The state after one more byte of a line.
pub open spec fn after_byte(m: UploadModel, b: u8) -> UploadModel {
    let line = m.line.push(b);
    if b == 10 || line.len() >= LINE_CAP {
        after_line(UploadModel { line: Seq::empty(), ..m }, line)
    } else {
        UploadModel { line, ..m }
    }
}

/// The state after more of the file's content, and the bytes now known to be
/// payload: all that stands before the marker, or, while there is none, all but
/// as many bytes as the marker has. What stands behind the marker is kept: another
/// file may follow.
pub open spec fn after_payload(m: UploadModel, chunk: Seq<u8>) -> (UploadModel, Seq<u8>) {
    let x = m.tail + chunk;
    let k = marker_of(m.full).len() as int;
    match bytes_at(x, marker_of(m.full)) {
        Some(p) => (UploadModel { phase: Phase::Done, tail: x.skip(p + k), ..m }, x.take(p)),
        None => if x.len() > k {
            (UploadModel { tail: x.skip(x.len() - k), ..m }, x.take(x.len() - k))
        } else {
            (UploadModel { tail: x, ..m }, Seq::empty())
        },
    }
}

/// The state after a piece of the body, and the payload it brought.
pub open spec fn after_chunk(m: UploadModel, chunk: Seq<u8>) -> (UploadModel, Seq<u8>)
    decreases chunk.len(),
{
    if m.phase == Phase::Payload {
        after_payload(m, chunk)
    } else if in_lines(m.phase) && chunk.len() > 0 {
        after_chunk(after_byte(m, chunk[0]), chunk.skip(1))
    } else if m.phase == Phase::Done {
        (UploadModel { tail: m.tail + chunk, ..m }, Seq::empty())
    } else {
        (m, Seq::empty())
    }
}

/// A parser before the first byte of a body with this boundary.
pub open spec fn at_start(full: Seq<char>) -> UploadModel {
    UploadModel {
        full,
        phase: Phase::First,
        line: Seq::empty(),
        disposition: Seq::empty(),
        filename: Seq::empty(),
        tail: Seq::empty(),
    }
}

/// The state after several pieces, and the payload they brought together.
pub open spec fn after_chunks(m: UploadModel, chunks: Seq<Seq<u8>>) -> (UploadModel, Seq<u8>)
    decreases chunks.len(),
{
    if chunks.len() == 0 {
        (m, Seq::empty())
    } else {
        let (n, before) = after_chunks(m, chunks.drop_last());
        let (last, out) = after_chunk(n, chunks.last());
        (last, before + out)
    }
}

/// The parser of one upload.
pub struct Upload {
    full: Vec<char>,
    marker: Vec<u8>,
    phase: Phase,
    line: Vec<u8>,
    disposition: Vec<char>,
    filename: Vec<char>,
    tail: Vec<u8>,
}

impl View for Upload {
    type V = UploadModel;

    closed spec fn view(&self) -> UploadModel {
        UploadModel {
            full: self.full@,
            phase: self.phase,
            line: self.line@,
            disposition: self.disposition@,
            filename: self.filename@,
            tail: self.tail@,
        }
    }
}

impl Upload {
    /// The marker belongs to the boundary, and a line under way is short of the cap.
    pub closed spec fn wf(&self) -> bool {
        &&& self.marker@ == marker_of(self.full@)
        &&& self.line.len() < LINE_CAP
    }

    /// Ready for the first byte of a body with this boundary.
    pub fn new(boundary: &str) -> (u: Upload)
        ensures
            u.wf(),
            u@ == at_start(full_boundary(boundary@)),
    {
        let mut full = String::new();
        full.append("--");
        full.append(boundary);
        let mut marker = String::new();
        marker.append("\r\n");
        marker.append(full.as_str());
        proof {
            assert(full@ =~= full_boundary(boundary@));
            assert(marker@ =~= "\r\n"@ + full@);
        }
        Upload {
            full: chars_of(full.as_str()),
            marker: copied(marker.as_str().as_bytes()),
            phase: Phase::First,
            line: Vec::new(),
            disposition: Vec::new(),
            filename: Vec::new(),
            tail: Vec::new(),
        }
    }

    /// How far into the body the parser is.
    pub fn phase(&self) -> (p: Phase)
        ensures
            p == self@.phase,
    {
        self.phase
    }

    /// The name the device gave the file, once the file's content has begun.
    pub fn filename(&self) -> (s: String)
        ensures
            s@ == self@.filename,
    {
        string_of(self.filename.as_slice())
    }

    fn end_headers(&mut self)
        requires
            old(self).wf(),
            old(self)@.phase == Phase::Headers,
        ensures
            final(self).wf(),
            final(self)@ == ({
                let m = old(self)@;
                if holds(lower_all(m.disposition), "filename="@) {
                    let name = filename_in(m.disposition);
                    UploadModel {
                        filename: name,
                        phase: if name.len() == 0 {
                            Phase::Nothing
                        } else {
                            Phase::Payload
                        },
                        ..m
                    }
                } else {
                    UploadModel { phase: Phase::Field, ..m }
                }
            }),
    {
        let low: Vec<char> = lowered(self.disposition.as_slice());
        if contains_text(low.as_slice(), "filename=") {
            let quotes: [char; 1] = ['"'];
            assert(quotes@ =~= seq!['"']);
            let mut name: Vec<char> = Vec::new();
            if let Some(p) = piece_after(self.disposition.as_slice(), "filename=") {
                let q: &[char] = strip(trim(p), quotes.as_slice());
                let s: String = match split_once(q, '"') {
                    Some((a, _)) => string_of(a),
                    None => string_of(q),
                };
                name = chars_of(s.as_str());
            }
            assert(name@ =~= filename_in(self.disposition@));
            self.phase = if name.len() == 0 {
                Phase::Nothing
            } else {
                Phase::Payload
            };
            self.filename = name;
        } else {
            self.phase = Phase::Field;
        }
    }

    fn on_line(&mut self, line: &[u8])
        requires
            old(self).wf(),
            in_lines(old(self)@.phase),
        ensures
            final(self).wf(),
            final(self)@ == after_line(old(self)@, line@),
    {
        let text: String = lossy_text(line);
        self.take_line(text.as_str());
    }

    /// Take one whole line of headers or of a field.
    pub fn take_line(&mut self, text: &str)
        requires
            old(self).wf(),
            in_lines(old(self)@.phase),
        ensures
            final(self).wf(),
            final(self)@ == after_text(old(self)@, text@),
    {
        let chars: Vec<char> = chars_of(text);
        let t: &[char] = trim_end(chars.as_slice());
        match self.phase {
            Phase::First => {
                self.phase = Phase::Headers;
                self.disposition = Vec::new();
                assert(self@ =~= after_text(old(self)@, text@));
            },
            Phase::Headers => {
                if t.len() > 0 {
                    let low: Vec<char> = lowered(t);
                    if starts_with_text(low.as_slice(), "content-disposition:") {
                        let s: String = string_of(t);
                        self.disposition = chars_of(s.as_str());
                    }
                } else {
                    self.end_headers();
                }
                assert(self@ =~= after_text(old(self)@, text@));
            },
            _ => {
                if starts_with(t, self.full.as_slice()) {
                    if ends_with_text(t, "--") {
                        self.phase = Phase::Nothing;
                    } else {
                        self.phase = Phase::Headers;
                        self.disposition = Vec::new();
                    }
                }
                assert(self@ =~= after_text(old(self)@, text@));
            },
        }
    }

    fn on_byte(&mut self, b: u8)
        requires
            old(self).wf(),
            in_lines(old(self)@.phase),
        ensures
            final(self).wf(),
            final(self)@ == after_byte(old(self)@, b),
    {
        self.line.push(b);
        if b == 10 || self.line.len() >= LINE_CAP {
            let mut line: Vec<u8> = Vec::new();
            std::mem::swap(&mut line, &mut self.line);
            let ghost m = self@;
            assert(m =~= UploadModel { line: Seq::empty(), ..old(self)@ });
            self.on_line(line.as_slice());
        } else {
            assert(self@ =~= after_byte(old(self)@, b));
        }
    }

    fn on_payload(&mut self, chunk: &[u8]) -> (out: Vec<u8>)
        requires
            old(self).wf(),
            old(self)@.phase == Phase::Payload,
        ensures
            final(self).wf(),
            (final(self)@, out@) == after_payload(old(self)@, chunk@),
    {
        push_bytes(&mut self.tail, chunk);
        let ghost x = self.tail@;
        match find(self.tail.as_slice(), self.marker.as_slice()) {
            Some(p) => {
                let out: Vec<u8> = copied(slice_subrange(self.tail.as_slice(), 0, p));
                proof {
                    lemma_first_from(x, self.marker@, 0);
                }
                let past: usize = p + self.marker.len();
                let rest: Vec<u8> = copied(
                    slice_subrange(self.tail.as_slice(), past, self.tail.len()),
                );
                assert(rest@ =~= x.skip(past as int));
                self.phase = Phase::Done;
                self.tail = rest;
                assert(out@ =~= x.take(p as int));
                assert(self@ =~= after_payload(old(self)@, chunk@).0);
                out
            },
            None => {
                if self.tail.len() > self.marker.len() {
                    let keep: usize = self.tail.len() - self.marker.len();
                    let out: Vec<u8> = copied(slice_subrange(self.tail.as_slice(), 0, keep));
                    let rest: Vec<u8> = copied(
                        slice_subrange(self.tail.as_slice(), keep, self.tail.len()),
                    );
                    assert(out@ =~= x.take(keep as int));
                    assert(rest@ =~= x.skip(keep as int));
                    self.tail = rest;
                    assert(self@ =~= after_payload(old(self)@, chunk@).0);
                    out
                } else {
                    let out: Vec<u8> = Vec::new();
                    assert(out@ =~= Seq::empty());
                    assert(self@ =~= after_payload(old(self)@, chunk@).0);
                    out
                }
            },
        }
    }

    /// Take the next piece of the body; what comes back is payload to be kept.
    pub fn feed(&mut self, chunk: &[u8]) -> (out: Vec<u8>)
        requires
            old(self).wf(),
        ensures
            final(self).wf(),
            (final(self)@, out@) == after_chunk(old(self)@, chunk@),
    {
        let mut i: usize = 0;
        assert(chunk@.skip(0) =~= chunk@);
        while i < chunk.len() && (self.phase == Phase::First || self.phase == Phase::Headers
            || self.phase == Phase::Field)
            invariant
                self.wf(),
                i <= chunk.len(),
                after_chunk(old(self)@, chunk@) == after_chunk(self@, chunk@.skip(i as int)),
            decreases chunk.len() - i,
        {
            assert(chunk@.skip(i as int)[0] == chunk@[i as int]);
            assert(chunk@.skip(i as int).skip(1) =~= chunk@.skip(i + 1));
            self.on_byte(chunk[i]);
            i = i + 1;
        }
        if self.phase == Phase::Payload {
            let rest: &[u8] = slice_subrange(chunk, i, chunk.len());
            assert(rest@ =~= chunk@.skip(i as int));
            self.on_payload(rest)
        } else if self.phase == Phase::Done {
            let rest: &[u8] = slice_subrange(chunk, i, chunk.len());
            assert(rest@ =~= chunk@.skip(i as int));
            let ghost m = self@;
            push_bytes(&mut self.tail, rest);
            assert(self@ =~= UploadModel { tail: m.tail + rest@, ..m });
            let out: Vec<u8> = Vec::new();
            assert(out@ =~= Seq::empty());
            out
        } else {
            let out: Vec<u8> = Vec::new();
            assert(out@ =~= Seq::empty());
            out
        }
    }

    /// Turns to the file that may follow, once one is done: what has come of it is
    /// handed back, to be fed again.
    pub fn another(&mut self) -> (rest: Vec<u8>)
        requires
            old(self).wf(),
        ensures
            final(self).wf(),
            old(self)@.phase == Phase::Done ==> {
                &&& rest@ == old(self)@.tail
                &&& final(self)@ == at_start(old(self)@.full)
            },
            old(self)@.phase != Phase::Done ==> {
                &&& rest@ == Seq::<u8>::empty()
                &&& final(self)@ == old(self)@
            },
    {
        let mut rest: Vec<u8> = Vec::new();
        if self.phase == Phase::Done {
            std::mem::swap(&mut rest, &mut self.tail);
            self.phase = Phase::First;
            self.line = Vec::new();
            self.disposition = Vec::new();
            self.filename = Vec::new();
            assert(self@ =~= at_start(old(self)@.full));
        }
        assert(self.phase != Phase::First ==> rest@ =~= Seq::<u8>::empty());
        rest
    }
}

// ------------------------------------------------------------- laws

proof fn lemma_occurrence_in_longer<A>(s: Seq<A>, t: Seq<A>, p: Seq<A>, i: int)
    requires
        i + p.len() <= s.len(),
    ensures
        occurs_at(s, p, i) == occurs_at(s + t, p, i),
{
    if 0 <= i {
        assert(s.subrange(i, i + p.len()) =~= (s + t).subrange(i, i + p.len()));
    }
}

proof fn lemma_occurrence_in_rest<A>(s: Seq<A>, p: Seq<A>, d: int, i: int)
    requires
        0 <= d <= s.len(),
        0 <= i,
    ensures
        occurs_at(s.skip(d), p, i) == occurs_at(s, p, d + i),
{
    if i + p.len() <= s.len() - d {
        assert(s.skip(d).subrange(i, i + p.len()) =~= s.subrange(d + i, d + i + p.len()));
    }
}

proof fn lemma_marker_not_empty(full: Seq<char>)
    ensures
        marker_of(full).len() > 0,
{
    let t = "\r\n"@ + full;
    reveal_strlit("\r\n");
    assert(t.len() > 0);
    assert(encode_utf8(t).len() > 0);
}

proof fn lemma_payload_pieces(m: UploadModel, a: Seq<u8>, b: Seq<u8>)
    requires
        m.phase == Phase::Payload,
    ensures
        ({
            let (n, out_a) = after_payload(m, a);
            let (last, out_b) = after_chunk(n, b);
            after_payload(m, a + b) == (last, out_a + out_b)
        }),
{
    let marker = marker_of(m.full);
    let k = marker.len() as int;
    let x = m.tail + a;
    let whole = m.tail + (a + b);
    assert(whole =~= x + b);
    lemma_marker_not_empty(m.full);
    lemma_first_from(x, marker, 0);
    let (n, out_a) = after_payload(m, a);
    let (last, out_b) = after_chunk(n, b);
    match first_at(x, marker) {
        Some(p) => {
            lemma_occurrence_in_longer(x, b, marker, p);
            assert forall|j: int| 0 <= j < p implies !#[trigger] occurs_at(whole, marker, j) by {
                lemma_occurrence_in_longer(x, b, marker, j);
                assert(!occurs_at(x, marker, j));
            }
            lemma_first_is(whole, marker, 0, p);
            assert(whole.take(p) =~= x.take(p) + Seq::<u8>::empty());
            assert(whole.skip(p + k) =~= x.skip(p + k) + b);
        },
        None => {
            let d = if x.len() > k {
                x.len() - k
            } else {
                0
            };
            let y = n.tail + b;
            assert(n.tail =~= x.skip(d));
            assert(out_a =~= x.take(d));
            assert(y =~= whole.skip(d));
            lemma_first_from(y, marker, 0);
            assert forall|j: int| 0 <= j < d implies !#[trigger] occurs_at(whole, marker, j) by {
                lemma_occurrence_in_longer(x, b, marker, j);
                assert(!occurs_at(x, marker, j));
            }
            match first_at(y, marker) {
                Some(q) => {
                    lemma_occurrence_in_rest(whole, marker, d, q);
                    assert forall|j: int| 0 <= j < d + q implies !#[trigger] occurs_at(
                        whole,
                        marker,
                        j,
                    ) by {
                        if j >= d {
                            lemma_occurrence_in_rest(whole, marker, d, j - d);
                            assert(!occurs_at(y, marker, j - d));
                        }
                    }
                    lemma_first_is(whole, marker, 0, d + q);
                    assert(whole.take(d + q) =~= out_a + y.take(q));
                    assert(whole.skip(d + q + k) =~= y.skip(q + k));
                },
                None => {
                    assert forall|j: int| 0 <= j implies !#[trigger] occurs_at(
                        whole,
                        marker,
                        j,
                    ) by {
                        if j >= d {
                            lemma_occurrence_in_rest(whole, marker, d, j - d);
                            assert(!occurs_at(y, marker, j - d));
                        }
                    }
                    lemma_first_none(whole, marker, 0);
                    if y.len() > k {
                        assert(whole.take(whole.len() - k) =~= out_a + y.take(y.len() - k));
                        assert(whole.skip(whole.len() - k) =~= y.skip(y.len() - k));
                    } else if whole.len() > k {
                        assert(whole.len() - k == d);
                        assert(whole.take(d) =~= out_a + Seq::<u8>::empty());
                        assert(whole.skip(d) =~= y);
                    } else {
                        assert(d == 0);
                        assert(out_a + Seq::<u8>::empty() =~= Seq::<u8>::empty());
                        assert(whole =~= y);
                    }
                },
            }
        },
    }
}

/// A body may be cut anywhere: two pieces fed one after the other leave the
/// parser in the same state, and bring the same payload, as both at once.
pub proof fn law_pieces_do_not_matter(m: UploadModel, a: Seq<u8>, b: Seq<u8>)
    ensures
        ({
            let (n, out_a) = after_chunk(m, a);
            let (last, out_b) = after_chunk(n, b);
            after_chunk(m, a + b) == (last, out_a + out_b)
        }),
    decreases a.len(),
{
    let (n, out_a) = after_chunk(m, a);
    let (last, out_b) = after_chunk(n, b);
    if m.phase == Phase::Payload {
        lemma_payload_pieces(m, a, b);
    } else if in_lines(m.phase) && a.len() > 0 {
        law_pieces_do_not_matter(after_byte(m, a[0]), a.skip(1), b);
        assert((a + b)[0] == a[0]);
        assert((a + b).skip(1) =~= a.skip(1) + b);
    } else if in_lines(m.phase) {
        assert(a + b =~= b);
        assert(Seq::<u8>::empty() + out_b =~= out_b);
    } else if m.phase == Phase::Done {
        assert(m.tail + (a + b) =~= (m.tail + a) + b);
        assert(Seq::<u8>::empty() + Seq::<u8>::empty() =~= Seq::<u8>::empty());
    } else {
        assert(Seq::<u8>::empty() + Seq::<u8>::empty() =~= Seq::<u8>::empty());
    }
}

/// However many pieces a body comes in, what is kept is what the whole body
/// would have brought at once.
pub proof fn law_any_number_of_pieces(m: UploadModel, chunks: Seq<Seq<u8>>)
    requires
        chunks.len() > 0,
    ensures
        after_chunks(m, chunks) == after_chunk(m, chunks.flatten()),
    decreases chunks.len(),
{
    let head = chunks.drop_last();
    assert(chunks =~= head.push(chunks.last()));
    if head.len() == 0 {
        head.lemma_flatten_push(chunks.last());
        assert(head =~= Seq::<Seq<u8>>::empty());
        assert(head.flatten() =~= Seq::<u8>::empty());
        assert(chunks.flatten() =~= chunks.last());
        assert(after_chunks(m, head) == (m, Seq::<u8>::empty()));
        let (last, out) = after_chunk(m, chunks.last());
        assert(Seq::<u8>::empty() + out =~= out);
    } else {
        law_any_number_of_pieces(m, head);
        head.lemma_flatten_push(chunks.last());
        law_pieces_do_not_matter(m, head.flatten(), chunks.last());
    }
}

/// Once the file's content has begun, everything before the closing boundary
/// lands byte for byte, whatever the content is, as long as it does not hold
/// that boundary itself. What follows the boundary is kept whole for the next file.
pub proof fn law_content_lands_byte_for_byte(m: UploadModel, content: Seq<u8>, rest: Seq<u8>)
    requires
        m.phase == Phase::Payload,
        m.tail.len() == 0,
        forall|j: int|
            0 <= j < content.len() ==> !#[trigger] occurs_at(
                content + marker_of(m.full) + rest,
                marker_of(m.full),
                j,
            ),
    ensures
        after_chunk(m, content + marker_of(m.full) + rest).1 == content,
        after_chunk(m, content + marker_of(m.full) + rest).0.phase == Phase::Done,
        after_chunk(m, content + marker_of(m.full) + rest).0.tail == rest,
        after_chunk(m, content + marker_of(m.full) + rest).0.filename == m.filename,
{
    let marker = marker_of(m.full);
    let body = content + marker + rest;
    lemma_marker_not_empty(m.full);
    assert(m.tail + body =~= body);
    assert(body.subrange(content.len() as int, (content.len() + marker.len()) as int) =~= marker);
    assert(occurs_at(body, marker, content.len() as int));
    lemma_first_is(body, marker, 0, content.len() as int);
    assert(body.take(content.len() as int) =~= content);
    assert(body.skip((content.len() + marker.len()) as int) =~= rest);
}

/// Where lines lead up to a file's content, they bring no payload and leave the
/// boundary as it is.
proof fn lemma_lines_bring_nothing(m: UploadModel, head: Seq<u8>)
    requires
        m.tail.len() == 0,
    ensures
        after_chunk(m, head).0.full == m.full,
        after_chunk(m, head).0.phase == Phase::Payload && after_chunk(m, head).0.tail.len() == 0
            ==> after_chunk(m, head).1.len() == 0,
    decreases head.len(),
{
    if m.phase == Phase::Payload {
        lemma_marker_not_empty(m.full);
    } else if in_lines(m.phase) && head.len() > 0 {
        lemma_lines_bring_nothing(after_byte(m, head[0]), head.skip(1));
    }
}

/// Nothing more leaves a parser that has no tail yet as it is.
pub proof fn lemma_nothing_more(m: UploadModel)
    requires
        m.tail.len() == 0,
    ensures
        after_chunk(m, Seq::empty()).0 == m,
{
    if m.phase == Phase::Payload {
        let marker = marker_of(m.full);
        let x = m.tail + Seq::<u8>::empty();
        lemma_marker_not_empty(m.full);
        lemma_first_from(x, marker, 0);
        assert(x =~= m.tail);
    } else if m.phase == Phase::Done {
        assert(m.tail + Seq::<u8>::empty() =~= m.tail);
    }
}

/// A whole upload lands byte for byte: where the head of a body leads up to a file's
/// content, the content is what the body brings, and the parser then stands before
/// the rest.
pub proof fn law_a_whole_upload_lands(
    full: Seq<char>,
    head: Seq<u8>,
    content: Seq<u8>,
    rest: Seq<u8>,
)
    requires
        after_chunk(at_start(full), head).0.phase == Phase::Payload,
        after_chunk(at_start(full), head).0.tail.len() == 0,
        forall|j: int|
            0 <= j < content.len() ==> !#[trigger] occurs_at(
                content + marker_of(full) + rest,
                marker_of(full),
                j,
            ),
    ensures
        ({
            let (n, out) = after_chunk(at_start(full), head + (content + marker_of(full) + rest));
            &&& out == content
            &&& n.phase == Phase::Done
            &&& n.tail == rest
            &&& n.filename == after_chunk(at_start(full), head).0.filename
        }),
{
    let m = at_start(full);
    let body = content + marker_of(full) + rest;
    let (n, before) = after_chunk(m, head);
    lemma_lines_bring_nothing(m, head);
    law_pieces_do_not_matter(m, head, body);
    law_content_lands_byte_for_byte(n, content, rest);
    assert(before + content =~= content);
}

/// Each file of a form lands, however many there are: what follows one file is read
/// as a new parser would read it, so that a second file lands byte for byte too.
pub proof fn law_the_next_file_lands(
    full: Seq<char>,
    head: Seq<u8>,
    content: Seq<u8>,
    second_head: Seq<u8>,
    second: Seq<u8>,
    rest: Seq<u8>,
)
    requires
        after_chunk(at_start(full), head).0.phase == Phase::Payload,
        after_chunk(at_start(full), head).0.tail.len() == 0,
        after_chunk(at_start(full), second_head).0.phase == Phase::Payload,
        after_chunk(at_start(full), second_head).0.tail.len() == 0,
        forall|j: int|
            0 <= j < content.len() ==> !#[trigger] occurs_at(
                content + marker_of(full) + (second_head + (second + marker_of(full) + rest)),
                marker_of(full),
                j,
            ),
        forall|j: int|
            0 <= j < second.len() ==> !#[trigger] occurs_at(
                second + marker_of(full) + rest,
                marker_of(full),
                j,
            ),
    ensures
        ({
            let after = second_head + (second + marker_of(full) + rest);
            let (n, out) = after_chunk(at_start(full), head + (content + marker_of(full) + after));
            let (last, more) = after_chunk(at_start(full), n.tail);
            &&& out == content
            &&& n.phase == Phase::Done
            &&& more == second
            &&& last.phase == Phase::Done
            &&& last.tail == rest
        }),
{
    let after = second_head + (second + marker_of(full) + rest);
    law_a_whole_upload_lands(full, head, content, after);
    law_a_whole_upload_lands(full, second_head, second, rest);
}

/// An upload may be a gibibyte and no more, and a line of its headers sixteen kibibytes.
pub proof fn law_how_much_is_taken()
    ensures
        UPLOAD_CAP == 1024 * 1024 * 1024,
        LINE_CAP == 16 * 1024,
{
}

// ------------------------------------------------------------- what the headers say

/// A header is read off the first line that has its name, in whatever case it is written on
/// either side, with the white space round it taken off.
pub proof fn law_a_header_is_read_in_any_case(
    ls: Seq<Seq<char>>,
    i: int,
    k: int,
    name: Seq<char>,
    key: Seq<char>,
    v: Seq<char>,
)
    requires
        0 <= i <= k < ls.len(),
        ls[k] == key + seq![':', ' '] + v,
        lower_all(key) == lower_all(name),
        !key.contains(':'),
        key.len() > 0 && !is_space(key[0]) && !is_space(key.last()),
        v.len() > 0 && !is_space(v[0]) && !is_space(v.last()),
        forall|j: int| i <= j < k ==> (cut(#[trigger] ls[j], ':') matches Some((other, _)) ==> lower_all(
            trimmed(other),
        ) != lower_all(name)),
    ensures
        header_from(ls, i, name) == Some(v),
    decreases k - i,
{
    if i < k {
        assert(cut(ls[i], ':') matches Some((other, _)) ==> lower_all(trimmed(other)) != lower_all(
            name,
        ));
        law_a_header_is_read_in_any_case(ls, i + 1, k, name, key, v);
    } else {
        assert(ls[k] =~= key + seq![':'] + (seq![' '] + v));
        law_a_text_is_cut_where_it_should(key, ':', seq![' '] + v);
        lemma_nothing_to_trim(key);
        law_trimming_takes_what_stands_round(seq![' '], v, Seq::empty());
        assert(seq![' '] + v + Seq::<char>::empty() =~= seq![' '] + v);
    }
}

proof fn lemma_second_piece(front: Seq<char>, p: Seq<char>, b: Seq<char>)
    requires
        p.len() > 0,
        !front.contains(p[0]),
        forall|j: int| 0 <= j ==> !#[trigger] occurs_at(b, p, j),
    ensures
        second_piece(front + p + b, p) == Some(b),
{
    let s = front + p + b;
    let k = front.len() as int;
    assert(s.subrange(k, k + p.len()) =~= p);
    assert forall|j: int| 0 <= j < k implies !#[trigger] occurs_at(s, p, j) by {
        if occurs_at(s, p, j) {
            assert(s.subrange(j, j + p.len())[0] == s[j]);
            assert(s[j] == front[j]);
            assert(front.contains(front[j]));
        }
    }
    lemma_first_is(s, p, 0, k);
    assert(s.skip(k + p.len()) =~= b);
    lemma_first_none(b, p, 0);
}

proof fn lemma_unquoted(b: Seq<char>)
    requires
        b.len() > 0,
        !is_space(b[0]) && !is_space(b.last()),
        b[0] != '"' && b.last() != '"',
    ensures
        stripped(trimmed(b), seq!['"']) == b,
        stripped(trimmed(seq!['"'] + b + seq!['"']), seq!['"']) == b,
{
    let set = seq!['"'];
    lemma_nothing_to_trim(b);
    let q = seq!['"'] + b + seq!['"'];
    assert(q[0] == '"' && q.last() == '"');
    lemma_nothing_to_trim(q);
    assert(set[0] == '"');
    assert(!set.contains(b[0]) && !set.contains(b.last()));
    assert(set.contains('"'));
    let r = b + seq!['"'];
    assert(q.skip(1) =~= r);
    assert(r[0] == b[0]);
    assert(stripped_start(q, set) == stripped_start(r, set));
    assert(stripped_start(r, set) == r);
    assert(r.last() == '"');
    assert(r.drop_last() =~= b);
    assert(stripped_end(r, set) == stripped_end(b, set));
    assert(stripped_end(b, set) == b);
    assert(stripped_start(b, set) == b);
}

/// The boundary between the parts of an upload is what the type of the body says it is, in
/// quotes or without.
pub proof fn law_the_boundary_is_the_one_named(
    headers: Seq<char>,
    front: Seq<char>,
    b: Seq<char>,
    quoted: Seq<char>,
)
    requires
        quoted == seq!['"'] + b + seq!['"'],
        !front.contains('b'),
        b.len() > 0,
        !is_space(b[0]) && !is_space(b.last()),
        b[0] != '"' && b.last() != '"',
        forall|j: int| 0 <= j ==> !#[trigger] occurs_at(b, "boundary="@, j),
        forall|j: int| 0 <= j ==> !#[trigger] occurs_at(quoted, "boundary="@, j),
    ensures
        header(headers, "content-type"@) == Some(front + "boundary="@ + b) ==> boundary_of(headers)
            == Some(b),
        header(headers, "content-type"@) == Some(front + "boundary="@ + quoted) ==> boundary_of(headers) == Some(b),
        header(headers, "content-type"@) is None ==> boundary_of(headers) is None,
{
    reveal_strlit("boundary=");
    let p = "boundary="@;
    assert(p[0] == 'b');
    lemma_second_piece(front, p, b);
    lemma_second_piece(front, p, quoted);
    lemma_unquoted(b);
}

} // verus!
