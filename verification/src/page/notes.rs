//! Notes from the class, and the notice to it.

use super::names::{
    display_name, fitting, law_as_much_stays_as_fits, sanitize_display_name, truncate_chars,
};
use crate::bytes::{lossy, lossy_text};
use crate::serve::labels::{with_label, Labels};
use crate::serve::paths::{
    escaped_bytes, law_link_leads_back, law_links_hold_plain_characters, percent_decode, unescaped,
};
use crate::serve::roster::{key_of, listed, set_claimed_name, Device};
use crate::serve::transfers::{since, SECOND};
use crate::text::{
    char_at, chars_of, cut, is_space, is_text, law_a_text_is_cut_where_it_should, lemma_char_at,
    lemma_char_at_is, lemma_nothing_to_trim, pieces, same_text, split_char, split_once, string_of,
    text_view, texts, trim, trimmed, views,
};
use vstd::prelude::*;
use vstd::utf8::encode_utf8;

verus! {

/// The longest note, in bytes.
pub const NOTE_CAP: usize = 4096;

/// Tokens remembered per device.
pub const TOKENS_KEPT: usize = 32;

/// Notes allowed per device per minute.
pub const NOTES_PER_MINUTE: usize = 6;

/// Notes kept for the screen; the full record is on disk.
pub const NOTES_KEPT: usize = 200;

// ------------------------------------------------------------- the notice

/// The teacher's notice, shown at the top of every page.
pub struct Notice {
    pub text: String,
}

/// Replace the notice.
pub fn set_notice(n: &mut Notice, text: &str)
    ensures
        final(n).text@ == trimmed(text@),
{
    let chars: Vec<char> = chars_of(text);
    n.text = string_of(trim(chars.as_slice()));
}

/// The notice.
pub fn notice(n: &Notice) -> (s: String)
    ensures
        s@ == n.text@,
{
    n.text.clone()
}

// ------------------------------------------------------------- forms

/// The name and the value of one field of a form as it is sent.
pub open spec fn field_of(pair: Seq<char>) -> (Seq<char>, Seq<char>) {
    match cut(pair, '=') {
        Some((k, v)) => (k, v),
        None => (pair, Seq::empty()),
    }
}

/// The value of the last of the first `n` fields with this name.
pub open spec fn last_field(ps: Seq<Seq<char>>, n: int, name: Seq<char>) -> Option<Seq<char>>
    decreases n,
{
    if n <= 0 {
        None
    } else if field_of(ps[n - 1]).0 == name {
        Some(field_of(ps[n - 1]).1)
    } else {
        last_field(ps, n - 1, name)
    }
}

/// A text with every plus sign made a space.
pub open spec fn plus_to_space(s: Seq<char>) -> Seq<char> {
    Seq::new(
        s.len(),
        |i: int|
            if s[i] == '+' {
                ' '
            } else {
                s[i]
            },
    )
}

/// The bytes that the value of a form field stands for.
pub open spec fn form_bytes(v: Seq<char>) -> Seq<u8> {
    unescaped(plus_to_space(v))
}

/// The text of a form's field, empty where the form has no such field.
pub open spec fn form_field(body: Seq<char>, name: Seq<char>) -> Seq<char> {
    let ps = pieces(body, '&');
    match last_field(ps, ps.len() as int, name) {
        Some(v) => lossy(form_bytes(v)),
        None => Seq::empty(),
    }
}

/// Undo the encoding of a form field's value.
pub fn form_decode(s: &str) -> (out: String)
    ensures
        out@ == lossy(form_bytes(s@)),
        vstd::utf8::valid_utf8(form_bytes(s@)) ==> out@ == vstd::utf8::decode_utf8(
            form_bytes(s@),
        ),
{
    let chars: Vec<char> = chars_of(s);
    let mut t: Vec<char> = Vec::new();
    let mut i: usize = 0;
    while i < chars.len()
        invariant
            chars@ == s@,
            i <= chars.len(),
            t@ == plus_to_space(s@).take(i as int),
        decreases chars.len() - i,
    {
        t.push(if chars[i] == '+' { ' ' } else { chars[i] });
        i = i + 1;
        assert(t@ =~= plus_to_space(s@).take(i as int));
    }
    assert(t@ =~= plus_to_space(s@));
    let text: String = string_of(t.as_slice());
    percent_decode(text.as_str())
}

/// The raw value of a form's field, the last one where there are several.
pub fn raw_field(body: &str, name: &str) -> (v: Option<String>)
    ensures
        text_view(v) == last_field(pieces(body@, '&'), pieces(body@, '&').len() as int, name@),
{
    let chars: Vec<char> = chars_of(body);
    let ps: Vec<&[char]> = split_char(chars.as_slice(), '&');
    let ghost all = pieces(body@, '&');
    let mut i: usize = ps.len();
    assert(views(ps@).len() == ps.len());
    while i > 0
        invariant
            all == pieces(body@, '&'),
            views(ps@) == all,
            i <= ps.len(),
            last_field(all, all.len() as int, name@) == last_field(all, i as int, name@),
        decreases i,
    {
        assert(all[i - 1] == ps@[i - 1]@);
        match split_once(ps[i - 1], '=') {
            Some((k, v)) => {
                if is_text(k, name) {
                    return Some(string_of(v));
                }
            },
            None => {
                if is_text(ps[i - 1], name) {
                    let s = String::new();
                    assert(s@ =~= Seq::<char>::empty());
                    return Some(s);
                }
            },
        }
        i = i - 1;
    }
    None
}

fn decoded_field(body: &str, name: &str) -> (s: String)
    ensures
        s@ == form_field(body@, name@),
{
    match raw_field(body, name) {
        Some(v) => form_decode(v.as_str()),
        None => {
            let s = String::new();
            assert(s@ =~= Seq::<char>::empty());
            s
        },
    }
}

/// File the name that somebody typed, if anything is left of it once it is made
/// safe to show.
pub fn claim_typed(claims: &mut Labels, d: &Device, who: &str)
    requires
        old(claims).wf(),
    ensures
        final(claims).wf(),
        final(claims)@ == (match display_name(who@) {
            Some(name) => with_label(old(claims)@, key_of(d), name),
            None => old(claims)@,
        }),
{
    if let Some(name) = sanitize_display_name(who) {
        set_claimed_name(claims, d, name.as_str());
    }
}

/// A claimed name, arriving from the form on the page.
pub fn claim_name(claims: &mut Labels, d: &Device, body: &str)
    requires
        old(claims).wf(),
    ensures
        final(claims).wf(),
        final(claims)@ == (match display_name(form_field(body@, "who"@)) {
            Some(name) => with_label(old(claims)@, key_of(d), name),
            None => old(claims)@,
        }),
{
    let who: String = decoded_field(body, "who");
    claim_typed(claims, d, who.as_str());
}

/// A claimed name, as the bytes of the form came.
pub fn read_name(claims: &mut Labels, d: &Device, body: &[u8])
    requires
        old(claims).wf(),
    ensures
        final(claims).wf(),
        final(claims)@ == (match display_name(form_field(lossy(body@), "who"@)) {
            Some(name) => with_label(old(claims)@, key_of(d), name),
            None => old(claims)@,
        }),
{
    let text: String = lossy_text(body);
    claim_name(claims, d, text.as_str());
}

// ------------------------------------------------------------- tokens

/// The tokens honoured for each device, in the order of their devices.
pub type TokenTable = Seq<(Seq<char>, Seq<Seq<char>>)>;

/// The first place of a device from `i` on, or the length.
pub open spec fn device_from(t: TokenTable, ip: Seq<char>, i: int) -> int
    decreases t.len() - i,
{
    if i >= t.len() || t[i].0 == ip {
        i
    } else {
        device_from(t, ip, i + 1)
    }
}

/// The tokens honoured for a device.
pub open spec fn tokens_of(t: TokenTable, ip: Seq<char>) -> Seq<Seq<char>> {
    let p = device_from(t, ip, 0);
    if p < t.len() {
        t[p].1
    } else {
        Seq::empty()
    }
}

/// Whether a token was honoured before. A form without one never was.
pub open spec fn token_used(t: TokenTable, ip: Seq<char>, token: Seq<char>) -> bool {
    token.len() > 0 && tokens_of(t, ip).contains(token)
}

/// A list of tokens with one more, the oldest let go where there are too many.
pub open spec fn with_token(ts: Seq<Seq<char>>, token: Seq<char>) -> Seq<Seq<char>> {
    if ts.contains(token) {
        ts
    } else if ts.len() >= TOKENS_KEPT {
        ts.skip(1).push(token)
    } else {
        ts.push(token)
    }
}

/// The table after a token has been shown.
pub open spec fn after_token(t: TokenTable, ip: Seq<char>, token: Seq<char>) -> TokenTable {
    let p = device_from(t, ip, 0);
    if token.len() == 0 {
        t
    } else if p < t.len() {
        t.update(p, (ip, with_token(t[p].1, token)))
    } else {
        t.push((ip, seq![token]))
    }
}

/// What a table of tokens holds.
pub open spec fn token_table(v: Seq<(String, Vec<String>)>) -> TokenTable {
    Seq::new(v.len(), |i: int| (v[i].0@, texts(v[i].1@)))
}

fn copy_texts(v: &Vec<String>, from: usize) -> (c: Vec<String>)
    requires
        from <= v.len(),
    ensures
        texts(c@) == texts(v@).skip(from as int),
{
    let mut c: Vec<String> = Vec::new();
    let mut i: usize = from;
    while i < v.len()
        invariant
            from <= i <= v.len(),
            c.len() == i - from,
            forall|k: int| 0 <= k < c.len() ==> (#[trigger] c@[k])@ == v@[k + from]@,
        decreases v.len() - i,
    {
        c.push(v[i].clone());
        i = i + 1;
    }
    assert(texts(c@) =~= texts(v@).skip(from as int));
    c
}

/// Has this token been seen from this device before? It is recorded either way.
pub fn token_already_used(
    t: &mut Vec<(String, Vec<String>)>,
    ip: &str,
    token: &str,
) -> (used: bool)
    ensures
        used == token_used(token_table(old(t)@), ip@, token@),
        token_table(final(t)@) == after_token(token_table(old(t)@), ip@, token@),
{
    let tc: Vec<char> = chars_of(token);
    if tc.len() == 0 {
        return false;
    }
    let ghost before = token_table(t@);
    let mut p: usize = 0;
    while p < t.len() && !same_text(t[p].0.as_str(), ip)
        invariant
            before == token_table(t@),
            p <= t.len(),
            device_from(before, ip@, 0) == device_from(before, ip@, p as int),
        decreases t.len() - p,
    {
        p = p + 1;
    }
    if p < t.len() {
        assert(before[p as int].1 == texts(t@[p as int].1@));
        if listed(&t[p].1, token) {
            assert(token_table(t@) =~= after_token(before, ip@, token@));
            return true;
        }
        let from: usize = if t[p].1.len() >= TOKENS_KEPT {
            1
        } else {
            0
        };
        let mut ts: Vec<String> = copy_texts(&t[p].1, from);
        let ghost was = ts@;
        ts.push(token.to_owned());
        proof {
            assert(texts(ts@) =~= texts(was).push(token@));
            assert(texts(t@[p as int].1@).skip(0) =~= texts(t@[p as int].1@));
        }
        let entry: (String, Vec<String>) = (ip.to_owned(), ts);
        t.set(p, entry);
        assert(token_table(t@) =~= after_token(before, ip@, token@));
        false
    } else {
        let mut ts: Vec<String> = Vec::new();
        ts.push(token.to_owned());
        assert(texts(ts@) =~= seq![token@]);
        t.push((ip.to_owned(), ts));
        assert(token_table(t@) =~= after_token(before, ip@, token@));
        false
    }
}

proof fn lemma_device_from(t: TokenTable, ip: Seq<char>, i: int)
    requires
        0 <= i <= t.len(),
    ensures
        i <= device_from(t, ip, i) <= t.len(),
        device_from(t, ip, i) < t.len() ==> t[device_from(t, ip, i)].0 == ip,
        forall|j: int| i <= j < device_from(t, ip, i) ==> (#[trigger] t[j]).0 != ip,
    decreases t.len() - i,
{
    if i < t.len() && t[i].0 != ip {
        lemma_device_from(t, ip, i + 1);
    }
}

/// A token once shown counts as used from then on, until so many others of the same
/// device have pushed it out; those of other devices never do.
pub proof fn law_shown_token_is_used(
    t: TokenTable,
    ip: Seq<char>,
    token: Seq<char>,
    other: Seq<char>,
)
    requires
        token.len() > 0,
    ensures
        token_used(after_token(t, ip, token), ip, token),
        tokens_of(after_token(t, ip, token), ip) == with_token(tokens_of(t, ip), token),
        other != ip ==> tokens_of(after_token(t, ip, token), other) == tokens_of(t, other),
{
    let r = after_token(t, ip, token);
    lemma_device_from(t, ip, 0);
    lemma_device_from(r, ip, 0);
    let p = device_from(t, ip, 0);
    let q = device_from(r, ip, 0);
    if q < p {
        assert(r[q].0 == t[q].0);
    } else if q > p {
        assert(r[p].0 != ip);
    }
    assert(q == p);
    let ts = r[p].1;
    if p < t.len() {
        let old_ts = t[p].1;
        if !old_ts.contains(token) {
            assert(ts[ts.len() - 1] == token);
        }
    } else {
        assert(ts[0] == token);
        assert(ts =~= with_token(Seq::empty(), token));
    }
    if other != ip {
        lemma_device_from(t, other, 0);
        lemma_device_from(r, other, 0);
        let a = device_from(t, other, 0);
        let b = device_from(r, other, 0);
        if b < a && b < t.len() {
            assert(t[b].0 != other);
            assert(r[b].0 == t[b].0);
        } else if a < b && a < t.len() {
            assert(r[a].0 != other);
            assert(r[a].0 == t[a].0);
        }
        if b < r.len() && b < t.len() {
            assert(r[b] == t[b]);
        }
    }
}

// ------------------------------------------------------------- notes

/// Everything remembered about notes.
pub struct NoteBook {
    /// Address, label and text of each note.
    pub notes: Vec<(String, String, String)>,
    pub tokens: Vec<(String, Vec<String>)>,
    /// Address and moment of each note of the last minute.
    pub times: Vec<(String, u64)>,
}

/// What is remembered about notes, as plain text and numbers.
#[verifier::ext_equal]
pub struct BookModel {
    pub notes: Seq<(Seq<char>, Seq<char>, Seq<char>)>,
    pub tokens: TokenTable,
    pub times: Seq<(Seq<char>, int)>,
}

/// What a list of notes holds.
pub open spec fn notes_of(v: Seq<(String, String, String)>) -> Seq<
    (Seq<char>, Seq<char>, Seq<char>),
> {
    Seq::new(v.len(), |i: int| (v[i].0@, v[i].1@, v[i].2@))
}

/// What a list of moments holds.
pub open spec fn times_of(v: Seq<(String, u64)>) -> Seq<(Seq<char>, int)> {
    Seq::new(v.len(), |i: int| (v[i].0@, v[i].1 as int))
}

impl View for NoteBook {
    type V = BookModel;

    open spec fn view(&self) -> BookModel {
        BookModel {
            notes: notes_of(self.notes@),
            tokens: token_table(self.tokens@),
            times: times_of(self.times@),
        }
    }
}

/// The text of the latest note of a device among the first `n`.
pub open spec fn latest_note(
    notes: Seq<(Seq<char>, Seq<char>, Seq<char>)>,
    n: int,
    ip: Seq<char>,
) -> Option<Seq<char>>
    decreases n,
{
    if n <= 0 {
        None
    } else if notes[n - 1].0 == ip {
        Some(notes[n - 1].2)
    } else {
        latest_note(notes, n - 1, ip)
    }
}

/// The moments of the last minute.
pub open spec fn recent_times(times: Seq<(Seq<char>, int)>, now: int) -> Seq<(Seq<char>, int)>
    decreases times.len(),
{
    if times.len() == 0 {
        times
    } else {
        let head = recent_times(times.drop_last(), now);
        if since(now, times.last().1) / (SECOND as int) < 60 {
            head.push(times.last())
        } else {
            head
        }
    }
}

/// How many of some moments are a device's.
pub open spec fn times_by(times: Seq<(Seq<char>, int)>, ip: Seq<char>) -> int
    decreases times.len(),
{
    if times.len() == 0 {
        0
    } else {
        times_by(times.drop_last(), ip) + (if times.last().0 == ip {
            1int
        } else {
            0int
        })
    }
}

/// The notes with one more, the oldest let go where there are too many.
pub open spec fn with_note(
    notes: Seq<(Seq<char>, Seq<char>, Seq<char>)>,
    note: (Seq<char>, Seq<char>, Seq<char>),
) -> Seq<(Seq<char>, Seq<char>, Seq<char>)> {
    if notes.len() >= NOTES_KEPT {
        notes.skip(1).push(note)
    } else {
        notes.push(note)
    }
}

/// What became of a note.
pub enum NoteOutcome {
    /// Nothing was written.
    Empty,
    /// A repeat, or one too many: the sender is told it was sent.
    Dropped,
    /// Kept, with this text.
    Kept(String),
}

/// What became of a note, as plain text.
pub enum NoteResult {
    Empty,
    Dropped,
    Kept(Seq<char>),
}

impl View for NoteOutcome {
    type V = NoteResult;

    open spec fn view(&self) -> NoteResult {
        match *self {
            NoteOutcome::Empty => NoteResult::Empty,
            NoteOutcome::Dropped => NoteResult::Dropped,
            NoteOutcome::Kept(s) => NoteResult::Kept(s@),
        }
    }
}

/// The book after a note with this token and text, and what became of the note.
pub open spec fn after_note(
    b: BookModel,
    ip: Seq<char>,
    label: Seq<char>,
    token: Seq<char>,
    text: Seq<char>,
    now: int,
) -> (BookModel, NoteResult) {
    let t = fitting(trimmed(text), NOTE_CAP as int);
    if trimmed(text).len() == 0 {
        (b, NoteResult::Empty)
    } else if token_used(b.tokens, ip, token) {
        (BookModel { tokens: after_token(b.tokens, ip, token), ..b }, NoteResult::Dropped)
    } else {
        let c = BookModel { tokens: after_token(b.tokens, ip, token), ..b };
        if latest_note(b.notes, b.notes.len() as int, ip) == Some(t) {
            (c, NoteResult::Dropped)
        } else {
            let times = recent_times(b.times, now);
            if times_by(times, ip) >= NOTES_PER_MINUTE {
                (BookModel { times, ..c }, NoteResult::Dropped)
            } else {
                (
                    BookModel {
                        times: times.push((ip, now)),
                        notes: with_note(b.notes, (ip, label, t)),
                        ..c
                    },
                    NoteResult::Kept(t),
                )
            }
        }
    }
}

impl NoteBook {
    /// Nothing remembered yet.
    pub fn new() -> (b: NoteBook)
        ensures
            b@ == (BookModel {
                notes: Seq::empty(),
                tokens: Seq::empty(),
                times: Seq::empty(),
            }),
    {
        let b = NoteBook { notes: Vec::new(), tokens: Vec::new(), times: Vec::new() };
        assert(b@.notes =~= Seq::empty());
        assert(b@.tokens =~= Seq::empty());
        assert(b@.times =~= Seq::empty());
        b
    }

    fn repeats_latest(&self, ip: &str, text: &str) -> (b: bool)
        ensures
            b == (latest_note(self@.notes, self@.notes.len() as int, ip@) == Some(text@)),
    {
        let ghost all = notes_of(self.notes@);
        let mut i: usize = self.notes.len();
        while i > 0
            invariant
                all == notes_of(self.notes@),
                i <= self.notes.len(),
                latest_note(all, all.len() as int, ip@) == latest_note(all, i as int, ip@),
            decreases i,
        {
            assert(all[i - 1] == (self.notes@[i - 1].0@, self.notes@[i - 1].1@, self.notes@[i
                - 1].2@));
            if same_text(self.notes[i - 1].0.as_str(), ip) {
                return same_text(self.notes[i - 1].2.as_str(), text);
            }
            i = i - 1;
        }
        false
    }

    fn prune_times(&mut self, now: u64)
        ensures
            final(self)@ == (BookModel {
                times: recent_times(old(self)@.times, now as int),
                ..old(self)@
            }),
    {
        let ghost all = times_of(self.times@);
        let mut kept: Vec<(String, u64)> = Vec::new();
        let mut i: usize = 0;
        assert(all.take(0) =~= Seq::empty());
        assert(times_of(kept@) =~= Seq::empty());
        while i < self.times.len()
            invariant
                *self == *old(self),
                all == times_of(self.times@),
                i <= self.times.len(),
                times_of(kept@) == recent_times(all.take(i as int), now as int),
            decreases self.times.len() - i,
        {
            assert(all.take(i + 1).drop_last() =~= all.take(i as int));
            assert(all[i as int] == (self.times@[i as int].0@, self.times@[i as int].1 as int));
            if now.saturating_sub(self.times[i].1) / SECOND < 60 {
                let ghost before = kept@;
                kept.push((self.times[i].0.clone(), self.times[i].1));
                assert(times_of(kept@) =~= times_of(before).push(all[i as int]));
            }
            i = i + 1;
        }
        assert(all.take(all.len() as int) =~= all);
        self.times = kept;
    }

    fn count_times(&self, ip: &str) -> (n: usize)
        ensures
            n == times_by(self@.times, ip@),
    {
        let ghost all = times_of(self.times@);
        let mut n: usize = 0;
        let mut i: usize = 0;
        assert(all.take(0) =~= Seq::empty());
        while i < self.times.len()
            invariant
                all == times_of(self.times@),
                i <= self.times.len(),
                n <= i,
                n == times_by(all.take(i as int), ip@),
            decreases self.times.len() - i,
        {
            assert(all.take(i + 1).drop_last() =~= all.take(i as int));
            assert(all[i as int] == (self.times@[i as int].0@, self.times@[i as int].1 as int));
            if same_text(self.times[i].0.as_str(), ip) {
                n = n + 1;
            }
            i = i + 1;
        }
        assert(all.take(all.len() as int) =~= all);
        n
    }

    fn add_note(&mut self, ip: &str, label: &str, text: &str)
        ensures
            final(self)@ == (BookModel {
                notes: with_note(old(self)@.notes, (ip@, label@, text@)),
                ..old(self)@
            }),
    {
        let ghost all = notes_of(self.notes@);
        if self.notes.len() >= NOTES_KEPT {
            self.notes.remove(0);
            assert(notes_of(self.notes@) =~= all.skip(1));
        }
        let ghost before = self.notes@;
        self.notes.push((ip.to_owned(), label.to_owned(), text.to_owned()));
        assert(notes_of(self.notes@) =~= notes_of(before).push((ip@, label@, text@)));
    }

    /// A note with this token and text arrives from a device shown under this
    /// label.
    pub fn take_fields(
        &mut self,
        ip: &str,
        label: &str,
        token: &str,
        text: &str,
        now: u64,
    ) -> (r: NoteOutcome)
        ensures
            (final(self)@, r@) == after_note(old(self)@, ip@, label@, token@, text@, now as int),
    {
        let chars: Vec<char> = chars_of(text);
        let t: &[char] = trim(chars.as_slice());
        if t.len() == 0 {
            return NoteOutcome::Empty;
        }
        let whole: String = string_of(t);
        let kept: String = truncate_chars(whole.as_str(), NOTE_CAP);
        if token_already_used(&mut self.tokens, ip, token) {
            return NoteOutcome::Dropped;
        }
        if self.repeats_latest(ip, kept.as_str()) {
            return NoteOutcome::Dropped;
        }
        self.prune_times(now);
        if self.count_times(ip) >= NOTES_PER_MINUTE {
            return NoteOutcome::Dropped;
        }
        let ghost before = self.times@;
        self.times.push((ip.to_owned(), now));
        assert(times_of(self.times@) =~= times_of(before).push((ip@, now as int)));
        self.add_note(ip, label, kept.as_str());
        NoteOutcome::Kept(kept)
    }
}

/// One note arriving from the form on the page.
pub fn take_note(
    book: &mut NoteBook,
    ip: &str,
    label: &str,
    body: &str,
    now: u64,
) -> (r: NoteOutcome)
    ensures
        (final(book)@, r@) == after_note(
            old(book)@,
            ip@,
            label@,
            form_field(body@, "token"@),
            form_field(body@, "text"@),
            now as int,
        ),
{
    let token: String = decoded_field(body, "token");
    let text: String = decoded_field(body, "text");
    book.take_fields(ip, label, token.as_str(), text.as_str(), now)
}

/// One note, as the bytes of the form came.
pub fn read_note(
    book: &mut NoteBook,
    ip: &str,
    label: &str,
    body: &[u8],
    now: u64,
) -> (r: NoteOutcome)
    ensures
        (final(book)@, r@) == after_note(
            old(book)@,
            ip@,
            label@,
            form_field(lossy(body@), "token"@),
            form_field(lossy(body@), "text"@),
            now as int,
        ),
{
    let text: String = lossy_text(body);
    take_note(book, ip, label, text.as_str(), now)
}

/// What the page says about a note.
pub fn note_tag(r: &NoteOutcome) -> (tag: &'static str)
    ensures
        tag@ == (if r is Empty {
            "empty"@
        } else {
            "note"@
        }),
{
    match r {
        NoteOutcome::Empty => "empty",
        _ => "note",
    }
}

/// The line that a kept note adds to the permanent record.
pub fn record_line(sender: &str, text: &str) -> (line: String)
    ensures
        line@ == sender@ + ": "@ + text@ + "\n"@,
{
    let mut s = String::new();
    s.append(sender);
    s.append(": ");
    s.append(text);
    s.append("\n");
    assert(s@ =~= sender@ + ": "@ + text@ + "\n"@);
    s
}

/// Label and text of each note.
pub open spec fn shown_notes(
    notes: Seq<(Seq<char>, Seq<char>, Seq<char>)>,
) -> Seq<(Seq<char>, Seq<char>)> {
    Seq::new(notes.len(), |i: int| (notes[i].1, notes[i].2))
}

/// The last `n` of a sequence, or all of it.
pub open spec fn last_of<A>(s: Seq<A>, n: int) -> Seq<A> {
    if n < s.len() {
        s.skip(s.len() - n)
    } else {
        s
    }
}

/// The most recent notes, oldest first, for the teacher's roster.
pub fn notes(book: &NoteBook, last: usize) -> (v: Vec<(String, String)>)
    ensures
        crate::serve::labels::entries_of(v@) == last_of(shown_notes(book@.notes), last as int),
{
    let n: usize = book.notes.len();
    let from: usize = if last < n {
        n - last
    } else {
        0
    };
    let mut v: Vec<(String, String)> = Vec::new();
    let mut i: usize = from;
    while i < n
        invariant
            n == book.notes.len(),
            from <= i <= n,
            v.len() == i - from,
            forall|k: int|
                0 <= k < v.len() ==> (#[trigger] v@[k]).0@ == book.notes@[k + from].1@
                    && v@[k].1@ == book.notes@[k + from].2@,
        decreases n - i,
    {
        v.push((book.notes[i].1.clone(), book.notes[i].2.clone()));
        i = i + 1;
    }
    assert(crate::serve::labels::entries_of(v@) =~= last_of(
        shown_notes(book@.notes),
        last as int,
    ));
    v
}

/// The same submission, sent again, lands once: the second time nothing is kept,
/// whatever it says.
pub proof fn law_same_token_lands_once(
    b: BookModel,
    ip: Seq<char>,
    label: Seq<char>,
    token: Seq<char>,
    text: Seq<char>,
    again: Seq<char>,
    now: int,
    later: int,
)
    requires
        token.len() > 0,
        trimmed(text).len() > 0,
    ensures
        ({
            let (c, _) = after_note(b, ip, label, token, text, now);
            let (d, r) = after_note(c, ip, label, token, again, later);
            d.notes == c.notes && !(r is Kept)
        }),
{
    let (c, _) = after_note(b, ip, label, token, text, now);
    law_shown_token_is_used(b.tokens, ip, token, ip);
    assert(c.tokens == after_token(b.tokens, ip, token));
}

/// The budget holds: a device that has not had more than its share of the last
/// minute does not get more than its share by sending another note.
pub proof fn law_budget_is_kept(
    b: BookModel,
    ip: Seq<char>,
    label: Seq<char>,
    token: Seq<char>,
    text: Seq<char>,
    now: int,
)
    requires
        times_by(recent_times(b.times, now), ip) <= NOTES_PER_MINUTE,
        b.notes.len() <= NOTES_KEPT,
    ensures
        ({
            let (c, r) = after_note(b, ip, label, token, text, now);
            &&& r is Kept ==> times_by(c.times, ip) == times_by(recent_times(b.times, now), ip) + 1
                && times_by(c.times, ip) <= NOTES_PER_MINUTE
            &&& c.notes.len() <= NOTES_KEPT
            &&& !(r is Kept) ==> c.notes == b.notes
        }),
{
    let times = recent_times(b.times, now);
    assert(times.push((ip, now)).drop_last() =~= times);
}

/// When a note is answered how, and what adds nothing: nothing written is answered
/// with "empty" and leaves everything as it was; everything else is answered with
/// "note"; a token that was honoured before, or the same text as the device's latest
/// note, adds no note.
pub proof fn law_what_adds_no_note(
    b: BookModel,
    ip: Seq<char>,
    label: Seq<char>,
    token: Seq<char>,
    text: Seq<char>,
    now: int,
)
    ensures
        ({
            let (c, r) = after_note(b, ip, label, token, text, now);
            &&& r is Empty <==> trimmed(text).len() == 0
            &&& r is Empty ==> c == b
            &&& r is Kept ==> c.notes == with_note(
                b.notes,
                (ip, label, fitting(trimmed(text), NOTE_CAP as int)),
            )
            &&& !(r is Kept) ==> c.notes == b.notes
            &&& token_used(b.tokens, ip, token) ==> !(r is Kept)
            &&& latest_note(b.notes, b.notes.len() as int, ip) == Some(
                fitting(trimmed(text), NOTE_CAP as int),
            ) ==> !(r is Kept)
        }),
{
}

/// A note as it is sent.
pub struct Sent {
    pub ip: Seq<char>,
    pub label: Seq<char>,
    pub token: Seq<char>,
    pub text: Seq<char>,
    pub now: int,
}

/// The book after all of these notes, one after the other.
pub open spec fn after_notes(b: BookModel, sent: Seq<Sent>) -> BookModel
    decreases sent.len(),
{
    if sent.len() == 0 {
        b
    } else {
        let s = sent.last();
        after_note(after_notes(b, sent.drop_last()), s.ip, s.label, s.token, s.text, s.now).0
    }
}

/// How many of these notes are a device's and are kept.
pub open spec fn kept_of(b: BookModel, sent: Seq<Sent>, ip: Seq<char>) -> int
    decreases sent.len(),
{
    if sent.len() == 0 {
        0
    } else {
        let s = sent.last();
        let c = after_notes(b, sent.drop_last());
        kept_of(b, sent.drop_last(), ip) + (if s.ip == ip && after_note(
            c,
            s.ip,
            s.label,
            s.token,
            s.text,
            s.now,
        ).1 is Kept {
            1int
        } else {
            0int
        })
    }
}

/// How many of some moments are a device's and not before another.
spec fn times_from(times: Seq<(Seq<char>, int)>, ip: Seq<char>, start: int) -> int
    decreases times.len(),
{
    if times.len() == 0 {
        0
    } else {
        times_from(times.drop_last(), ip, start) + (if times.last().0 == ip && times.last().1
            >= start {
            1int
        } else {
            0int
        })
    }
}

proof fn lemma_times_from(times: Seq<(Seq<char>, int)>, ip: Seq<char>, start: int, now: int)
    requires
        start <= now,
        (now - start) / (SECOND as int) < 60,
    ensures
        times_from(recent_times(times, now), ip, start) == times_from(times, ip, start),
        times_from(times, ip, start) <= times_by(recent_times(times, now), ip),
    decreases times.len(),
{
    if times.len() > 0 {
        let head = recent_times(times.drop_last(), now);
        lemma_times_from(times.drop_last(), ip, start, now);
        assert(head.push(times.last()).drop_last() =~= head);
        if times.last().1 >= start {
            let a = since(now, times.last().1);
            assert(a <= now - start);
            assert(a / (SECOND as int) <= (now - start) / (SECOND as int));
        }
    }
}

proof fn lemma_kept_are_timed(b: BookModel, sent: Seq<Sent>, ip: Seq<char>, start: int)
    requires
        forall|i: int|
            0 <= i < sent.len() ==> start <= (#[trigger] sent[i]).now && (sent[i].now - start) / (
            SECOND as int) < 60,
    ensures
        kept_of(b, sent, ip) <= NOTES_PER_MINUTE,
        kept_of(b, sent, ip) <= times_from(after_notes(b, sent).times, ip, start),
    decreases sent.len(),
{
    if sent.len() == 0 {
        lemma_times_not_negative(b.times, ip, start);
    } else {
        let rest = sent.drop_last();
        assert forall|i: int| 0 <= i < rest.len() implies start <= (#[trigger] rest[i]).now && (
        rest[i].now - start) / (SECOND as int) < 60 by {
            assert(rest[i] == sent[i]);
        }
        lemma_kept_are_timed(b, rest, ip, start);
        let s = sent[sent.len() - 1];
        let c = after_notes(b, rest);
        let times = recent_times(c.times, s.now);
        lemma_times_from(c.times, ip, start, s.now);
        assert(times.push((s.ip, s.now)).drop_last() =~= times);
    }
}

proof fn lemma_times_not_negative(times: Seq<(Seq<char>, int)>, ip: Seq<char>, start: int)
    ensures
        0 <= times_from(times, ip, start),
    decreases times.len(),
{
    if times.len() > 0 {
        lemma_times_not_negative(times.drop_last(), ip, start);
    }
}

/// Whatever is sent within a minute, by a device and by others in between, and however
/// often: of one device no more notes are kept than it may have in a minute.
pub proof fn law_a_minute_brings_no_more_notes(
    b: BookModel,
    sent: Seq<Sent>,
    ip: Seq<char>,
    start: int,
)
    requires
        forall|i: int|
            0 <= i < sent.len() ==> start <= (#[trigger] sent[i]).now && (sent[i].now - start) / (
            SECOND as int) < 60,
    ensures
        kept_of(b, sent, ip) <= NOTES_PER_MINUTE,
{
    lemma_kept_are_timed(b, sent, ip, start);
}

// ------------------------------------------------------------- what a form says

proof fn lemma_pieces_push(s: Seq<char>, c: char, last: Seq<char>)
    requires
        !last.contains(c),
    ensures
        pieces(s + seq![c] + last, c) == pieces(s, c).push(last),
        pieces(last, c) == seq![last],
    decreases s.len(),
{
    let all = s + seq![c] + last;
    lemma_char_at(s, c);
    lemma_char_at_is(last, c, last.len() as int);
    let k = char_at(s, c);
    if k < s.len() {
        lemma_char_at_is(all, c, k);
        assert(all.take(k) =~= s.take(k));
        assert(all.skip(k + 1) =~= s.skip(k + 1) + seq![c] + last);
        lemma_pieces_push(s.skip(k + 1), c, last);
        assert(pieces(all, c) =~= pieces(s, c).push(last));
    } else {
        lemma_char_at_is(all, c, s.len() as int);
        assert(all.take(s.len() as int) =~= s);
        assert(all.skip(s.len() as int + 1) =~= last);
        assert(pieces(last, c) == seq![last]);
        assert(pieces(s, c) == seq![s]);
        assert(pieces(all, c) == seq![s] + pieces(last, c));
        assert(pieces(all, c) =~= pieces(s, c).push(last));
    }
}

proof fn lemma_last_field_push(ps: Seq<Seq<char>>, p: Seq<char>, n: int, name: Seq<char>)
    requires
        n <= ps.len(),
    ensures
        last_field(ps.push(p), n, name) == last_field(ps, n, name),
    decreases n,
{
    if n > 0 {
        lemma_last_field_push(ps, p, n - 1, name);
    }
}

/// What somebody typed is what is read: a text that a browser has encoded and put behind
/// the name of a field comes back as it was typed, whatever fields stand before it; and a
/// field of another name makes no difference.
pub proof fn law_what_was_typed_is_read(
    body: Seq<char>,
    name: Seq<char>,
    typed: Seq<char>,
    other: Seq<char>,
)
    requires
        !name.contains('=') && !name.contains('&'),
        !other.contains('=') && !other.contains('&'),
        other != name,
    ensures
        ({
            let value = escaped_bytes(encode_utf8(typed));
            let one = name + seq!['='] + value;
            &&& form_field(one, name) == typed
            &&& form_field(body + seq!['&'] + one, name) == typed
            &&& form_field(body + seq!['&'] + (other + seq!['='] + value), name) == form_field(
                body,
                name,
            )
        }),
{
    let b = encode_utf8(typed);
    let value = escaped_bytes(b);
    law_links_hold_plain_characters(b);
    law_link_leads_back(typed);
    assert(!value.contains('&'));
    assert(plus_to_space(value) =~= value);
    assert(lossy(form_bytes(value)) == typed);
    let one = name + seq!['='] + value;
    let two = other + seq!['='] + value;
    assert(!one.contains('&')) by {
        if one.contains('&') {
            let i = choose|i: int| 0 <= i < one.len() && one[i] == '&';
            if i < name.len() {
                assert(name[i] == '&');
            } else if i > name.len() {
                assert(value[i - name.len() - 1] == '&');
            }
        }
    }
    assert(!two.contains('&')) by {
        if two.contains('&') {
            let i = choose|i: int| 0 <= i < two.len() && two[i] == '&';
            if i < other.len() {
                assert(other[i] == '&');
            } else if i > other.len() {
                assert(value[i - other.len() - 1] == '&');
            }
        }
    }
    law_a_text_is_cut_where_it_should(name, '=', value);
    law_a_text_is_cut_where_it_should(other, '=', value);
    lemma_pieces_push(body, '&', one);
    lemma_pieces_push(body, '&', two);
    let ps = pieces(body, '&');
    lemma_last_field_push(ps, two, ps.len() as int, name);
}

/// A plus sign in a form stands for a space and everything else for itself, before what is
/// encoded is undone.
pub proof fn law_a_plus_is_a_space(v: Seq<char>, w: Seq<char>)
    requires
        w.len() == v.len(),
        forall|i: int| 0 <= i < v.len() ==> #[trigger] w[i] == (if v[i] == '+' { ' ' } else { v[i] }),
    ensures
        form_bytes(v) == unescaped(w),
{
    assert(plus_to_space(v) =~= w);
}

// ------------------------------------------------------------- when a note is kept

/// How many notes a device has had in the minute before a moment.
pub open spec fn lately(times: Seq<(Seq<char>, int)>, ip: Seq<char>, now: int) -> nat {
    times.filter(|t: (Seq<char>, int)| t.0 == ip && now - t.1 < 60_000_000_000).len()
}

proof fn lemma_lately(times: Seq<(Seq<char>, int)>, ip: Seq<char>, now: int)
    ensures
        times_by(recent_times(times, now), ip) == lately(times, ip, now),
    decreases times.len(),
{
    reveal(Seq::filter);
    if times.len() > 0 {
        let rest = times.drop_last();
        lemma_lately(rest, ip, now);
        let a = since(now, times.last().1);
        assert(a / (SECOND as int) < 60 <==> now - times.last().1 < 60_000_000_000);
        let head = recent_times(rest, now);
        assert(head.push(times.last()).drop_last() =~= head);
    }
}

proof fn lemma_latest_note(
    notes: Seq<(Seq<char>, Seq<char>, Seq<char>)>,
    n: int,
    ip: Seq<char>,
    text: Seq<char>,
)
    requires
        0 <= n <= notes.len(),
    ensures
        (forall|i: int| 0 <= i < n && (#[trigger] notes[i]).0 == ip ==> notes[i].2 != text)
            ==> latest_note(notes, n, ip) != Some(text),
        forall|i: int|
            0 <= i < n && (#[trigger] notes[i]).0 == ip && (forall|j: int|
                i < j < n ==> (#[trigger] notes[j]).0 != ip) ==> latest_note(notes, n, ip) == Some(
                notes[i].2,
            ),
    decreases n,
{
    if n > 0 {
        lemma_latest_note(notes, n - 1, ip, text);
    }
}

/// A note is kept as it was written, behind all that were kept before, where it is new:
/// its form was not sent before, the device has not said the same before, and it has had
/// fewer than six notes in the last minute. Of the notes before it the two hundred latest
/// stay in sight, with it.
pub proof fn law_a_new_note_is_kept(
    b: BookModel,
    ip: Seq<char>,
    label: Seq<char>,
    token: Seq<char>,
    text: Seq<char>,
    now: int,
)
    requires
        text.len() > 0,
        !is_space(text[0]) && !is_space(text.last()),
        encode_utf8(text).len() <= 4096,
        forall|i: int|
            0 <= i < b.tokens.len() && (#[trigger] b.tokens[i]).0 == ip ==> !b.tokens[i].1.contains(
                token,
            ),
        forall|i: int| 0 <= i < b.notes.len() && (#[trigger] b.notes[i]).0 == ip ==> b.notes[i].2
            != text,
    ensures
        ({
            let (c, r) = after_note(b, ip, label, token, text, now);
            let n = b.notes.len() as int;
            let k = c.notes.len() as int;
            &&& r is Kept <==> lately(b.times, ip, now) < 6
            &&& r is Kept ==> r == NoteResult::Kept(text)
            &&& r is Kept ==> k > 0 && c.notes[k - 1] == (ip, label, text)
            &&& r is Kept && n < 200 ==> k == n + 1 && forall|i: int|
                0 <= i < n ==> #[trigger] c.notes[i] == b.notes[i]
            &&& r is Kept && n == 200 ==> k == 200 && forall|i: int|
                0 <= i < 199 ==> #[trigger] c.notes[i] == b.notes[i + 1]
            &&& r is Kept ==> lately(c.times, ip, now) == lately(b.times, ip, now) + 1
        }),
{
    lemma_nothing_to_trim(text);
    law_as_much_stays_as_fits(text, 4096);
    lemma_device_from(b.tokens, ip, 0);
    lemma_latest_note(b.notes, b.notes.len() as int, ip, text);
    lemma_lately(b.times, ip, now);
    let p = device_from(b.tokens, ip, 0);
    if p < b.tokens.len() {
        assert(b.tokens[p].0 == ip);
    }
    assert(!token_used(b.tokens, ip, token));
    let times = recent_times(b.times, now);
    lemma_recent_again(b.times, now);
    lemma_lately(times.push((ip, now)), ip, now);
    assert(times.push((ip, now)).drop_last() =~= times);
    assert(recent_times(times.push((ip, now)), now) =~= times.push((ip, now)));
}

proof fn lemma_recent_again(times: Seq<(Seq<char>, int)>, now: int)
    ensures
        recent_times(recent_times(times, now), now) == recent_times(times, now),
    decreases times.len(),
{
    if times.len() > 0 {
        lemma_recent_again(times.drop_last(), now);
        let head = recent_times(times.drop_last(), now);
        assert(head.push(times.last()).drop_last() =~= head);
    }
}

/// What a device said last it cannot say again at once, nor anything with a form that was
/// honoured before.
pub proof fn law_nothing_is_said_twice(
    b: BookModel,
    ip: Seq<char>,
    label: Seq<char>,
    token: Seq<char>,
    text: Seq<char>,
    now: int,
    i: int,
)
    requires
        text.len() > 0,
        !is_space(text[0]) && !is_space(text.last()),
        encode_utf8(text).len() <= 4096,
        0 <= i < b.notes.len(),
        b.notes[i].0 == ip && b.notes[i].2 == text,
        forall|j: int| i < j < b.notes.len() ==> (#[trigger] b.notes[j]).0 != ip,
    ensures
        after_note(b, ip, label, token, text, now).1 is Dropped,
        after_note(b, ip, label, token, text, now).0.notes == b.notes,
{
    lemma_nothing_to_trim(text);
    law_as_much_stays_as_fits(text, 4096);
    lemma_latest_note(b.notes, b.notes.len() as int, ip, text);
}

/// A device's last thirty-two forms are remembered: one more pushes out the oldest at
/// most, and no other.
pub proof fn law_forms_are_remembered(ts: Seq<Seq<char>>, token: Seq<char>, i: int)
    requires
        0 <= i < ts.len() <= 32,
    ensures
        with_token(ts, token).contains(token),
        with_token(ts, token).len() <= 32,
        i > 0 || ts.len() < 32 ==> with_token(ts, token).contains(ts[i]),
{
    let u = with_token(ts, token);
    if !ts.contains(token) {
        assert(u[u.len() - 1] == token);
        if ts.len() < 32 {
            assert(u[i] == ts[i]);
        } else if i > 0 {
            assert(u[i - 1] == ts[i]);
        }
    } else {
        assert(u[i] == ts[i]);
    }
}

/// The notes shown are the latest, in the order in which they came.
pub proof fn law_the_latest_notes_are_shown(
    notes: Seq<(Seq<char>, Seq<char>, Seq<char>)>,
    n: int,
    i: int,
)
    requires
        0 <= n,
    ensures
        ({
            let shown = last_of(shown_notes(notes), n);
            let from = notes.len() - shown.len();
            &&& shown.len() == (if n < notes.len() { n } else { notes.len() as int })
            &&& 0 <= i < shown.len() ==> shown[i] == (notes[from + i].1, notes[from + i].2)
        }),
{
}

} // verus!
