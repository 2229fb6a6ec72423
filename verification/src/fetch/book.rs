//! What a running transfer keeps track of, and what it decides.

use super::plan::CHUNK;
use super::wire::Head;
use crate::number::{decimal, push_decimal};
use crate::text::{chars_of, cut_at, same, split_at_text, string_of, text_view, texts};
use std::collections::BTreeSet;
use vstd::prelude::*;
use vstd::slice::slice_subrange;

verus! {

broadcast use vstd::std_specs::btree::group_btree_axioms;

/// The shortest wait before a piece is asked for again, in milliseconds.
pub const RETRY_BASE_MS: u64 = 500;

/// The longest wait.
pub const RETRY_MAX_MS: u64 = 15_000;

/// How many messages are kept.
pub const MESSAGES_KEPT: usize = 40;

/// How long to wait after so many failures in a row, in milliseconds: longer each
/// time, up to a limit, so that a link that has just dropped is not hammered.
pub open spec fn wait_after(fails: int) -> int {
    if 500 * fails < 15_000 {
        500 * fails
    } else {
        15_000
    }
}

/// How long to wait after so many failures in a row, in milliseconds.
pub fn backoff(fails: u32) -> (ms: u64)
    ensures
        ms == wait_after(fails as int),
{
    let ms: u64 = RETRY_BASE_MS * fails as u64;
    if ms < RETRY_MAX_MS {
        ms
    } else {
        RETRY_MAX_MS
    }
}

/// One failure more. There are never so many that it matters where this stops.
pub open spec fn one_more(fails: u32) -> u32 {
    if fails < u32::MAX {
        (fails + 1) as u32
    } else {
        fails
    }
}

fn count_up(n: u32) -> (r: u32)
    ensures
        r == one_more(n),
{
    if n < u32::MAX {
        n + 1
    } else {
        n
    }
}

// ------------------------------------------------------------- messages

/// Something that happened, and how many times in a row.
#[derive(Debug)]
pub struct Message {
    pub text: String,
    pub times: u32,
}

/// Messages as plain text and numbers.
pub open spec fn shown(ms: Seq<Message>) -> Seq<(Seq<char>, u32)> {
    Seq::new(ms.len(), |i: int| (ms[i].text@, ms[i].times))
}

/// A text without its digits.
pub open spec fn shape(s: Seq<char>) -> Seq<char>
    decreases s.len(),
{
    if s.len() == 0 {
        Seq::empty()
    } else if '0' <= s.last() <= '9' {
        shape(s.drop_last())
    } else {
        shape(s.drop_last()).push(s.last())
    }
}

fn shape_of(s: &str) -> (r: Vec<char>)
    ensures
        r@ == shape(s@),
{
    let c: Vec<char> = chars_of(s);
    let mut r: Vec<char> = Vec::new();
    let mut i: usize = 0;
    assert(r@ =~= shape(c@.take(0)));
    while i < c.len()
        invariant
            i <= c.len(),
            r@ == shape(c@.take(i as int)),
        decreases c.len() - i,
    {
        assert(c@.take(i + 1).drop_last() =~= c@.take(i as int));
        if !(c[i] >= '0' && c[i] <= '9') {
            r.push(c[i]);
        }
        i = i + 1;
    }
    assert(c@.take(c@.len() as int) =~= c@);
    r
}

/// Whether two messages are the same sentence with different numbers.
pub fn same_shape(a: &str, b: &str) -> (r: bool)
    ensures
        r == (shape(a@) == shape(b@)),
{
    let x: Vec<char> = shape_of(a);
    let y: Vec<char> = shape_of(b);
    same(x.as_slice(), y.as_slice())
}

/// The messages with one more: counted on the last line where that says the same,
/// else on a line of its own, for which the oldest makes room.
pub open spec fn logged(ms: Seq<(Seq<char>, u32)>, msg: Seq<char>) -> Seq<(Seq<char>, u32)> {
    if ms.len() > 0 && shape(ms.last().0) == shape(msg) {
        ms.drop_last().push((msg, one_more(ms.last().1)))
    } else if ms.len() >= MESSAGES_KEPT {
        ms.skip(1).push((msg, 1))
    } else {
        ms.push((msg, 1))
    }
}

/// What always holds of the messages: there are not too many, each was said at least
/// once, and no two that stand together say the same but for their numbers.
pub open spec fn in_order(ms: Seq<(Seq<char>, u32)>) -> bool {
    &&& ms.len() <= MESSAGES_KEPT
    &&& forall|i: int| 0 <= i < ms.len() ==> (#[trigger] ms[i]).1 >= 1
    &&& forall|i: int, j: int|
        0 <= i < ms.len() && j == i + 1 && j < ms.len() ==> shape((#[trigger] ms[i]).0) != shape(
            (#[trigger] ms[j]).0,
        )
}

/// The messages after all of these, one after the other.
pub open spec fn logged_all(said: Seq<Seq<char>>) -> Seq<(Seq<char>, u32)>
    decreases said.len(),
{
    if said.len() == 0 {
        Seq::empty()
    } else {
        logged(logged_all(said.drop_last()), said.last())
    }
}

/// One message more keeps the messages in order, and it is the last of them.
pub proof fn law_a_message_keeps_the_order(ms: Seq<(Seq<char>, u32)>, msg: Seq<char>)
    requires
        in_order(ms),
    ensures
        in_order(logged(ms, msg)),
        logged(ms, msg).last().0 == msg,
{
    let r = logged(ms, msg);
    let n = ms.len() as int;
    let off: int = if n > 0 && shape(ms.last().0) == shape(msg) {
        0
    } else if n >= MESSAGES_KEPT {
        1
    } else {
        0
    };
    assert forall|i: int| 0 <= i < r.len() implies (#[trigger] r[i]).1 >= 1 by {
        if i < r.len() - 1 {
            assert(r[i] == ms[i + off]);
        }
    }
    assert forall|i: int, j: int|
        0 <= i < r.len() && j == i + 1 && j < r.len() implies shape((#[trigger] r[i]).0) != shape(
        (#[trigger] r[j]).0,
    ) by {
        assert(r[i] == ms[i + off]);
        if j < r.len() - 1 {
            assert(r[j] == ms[j + off]);
        } else if n > 0 && shape(ms.last().0) == shape(msg) {
            assert(shape(ms[i].0) != shape(ms[n - 1].0));
        }
    }
}

/// However long it goes on, there are never more messages than are kept, each was said
/// at least once, and neighbours differ.
pub proof fn law_messages_are_bounded(said: Seq<Seq<char>>)
    ensures
        in_order(logged_all(said)),
        said.len() > 0 ==> logged_all(said).last().0 == said.last(),
    decreases said.len(),
{
    if said.len() > 0 {
        law_messages_are_bounded(said.drop_last());
        law_a_message_keeps_the_order(logged_all(said.drop_last()), said.last());
    }
}

// ------------------------------------------------------------- the book

/// What a transfer keeps track of.
pub struct Book {
    /// Whether a screen shows the messages, so that nothing may be printed.
    pub quiet: bool,
    pub messages: Vec<Message>,
    /// How often a piece was asked for again.
    pub retries: u64,
    /// How many pieces arrived damaged.
    pub damaged: u64,
    pub done_bytes: u64,
    pub total: u64,
    pub cancelled: bool,
    /// The pieces still to be taken.
    pub queue: Vec<u64>,
    /// The pieces that are here.
    pub done: BTreeSet<u64>,
}

/// What a transfer keeps track of, as plain values.
#[verifier::ext_equal]
pub struct BookModel {
    pub quiet: bool,
    pub messages: Seq<(Seq<char>, u32)>,
    pub retries: u64,
    pub damaged: u64,
    pub done_bytes: u64,
    pub total: u64,
    pub cancelled: bool,
    pub queue: Seq<u64>,
    pub done: Set<u64>,
}

impl View for Book {
    type V = BookModel;

    open spec fn view(&self) -> BookModel {
        BookModel {
            quiet: self.quiet,
            messages: shown(self.messages@),
            retries: self.retries,
            damaged: self.damaged,
            done_bytes: self.done_bytes,
            total: self.total,
            cancelled: self.cancelled,
            queue: self.queue@,
            done: self.done@,
        }
    }
}

/// A book with nothing in it.
pub fn empty_book() -> (b: Book)
    ensures
        b@ == (BookModel {
            quiet: false,
            messages: Seq::empty(),
            retries: 0,
            damaged: 0,
            done_bytes: 0,
            total: 0,
            cancelled: false,
            queue: Seq::empty(),
            done: Set::empty(),
        }),
{
    let b = Book {
        quiet: false,
        messages: Vec::new(),
        retries: 0,
        damaged: 0,
        done_bytes: 0,
        total: 0,
        cancelled: false,
        queue: Vec::new(),
        done: BTreeSet::new(),
    };
    assert(shown(b.messages@) =~= Seq::empty());
    b
}

/// How often pieces were asked for again, and how many arrived damaged.
pub fn counts(b: &Book) -> (r: (u64, u64))
    ensures
        r == (b@.retries, b@.damaged),
{
    (b.retries, b.damaged)
}

/// Say whether a screen is showing the messages. One that starts to begins with
/// none.
pub fn set_quiet(b: &mut Book, q: bool)
    ensures
        final(b)@ == (BookModel {
            quiet: q,
            messages: if q {
                Seq::empty()
            } else {
                old(b)@.messages
            },
            ..old(b)@
        }),
{
    b.quiet = q;
    if q {
        b.messages.clear();
        assert(shown(b.messages@) =~= Seq::empty());
    }
}

/// The recent messages, each with how many times it has just happened.
pub fn messages(b: &Book) -> (r: Vec<Message>)
    ensures
        shown(r@) == b@.messages,
{
    let mut r: Vec<Message> = Vec::new();
    let mut i: usize = 0;
    while i < b.messages.len()
        invariant
            i <= b.messages.len(),
            shown(r@) == shown(b.messages@).take(i as int),
        decreases b.messages.len() - i,
    {
        let ghost before = r@;
        r.push(Message { text: b.messages[i].text.clone(), times: b.messages[i].times });
        proof {
            assert(shown(r@) =~= shown(before).push(shown(b.messages@)[i as int]));
            assert(shown(b.messages@).take(i + 1) =~= shown(b.messages@).take(i as int).push(
                shown(b.messages@)[i as int],
            ));
        }
        i = i + 1;
    }
    assert(shown(b.messages@).take(shown(b.messages@).len() as int) =~= shown(b.messages@));
    r
}

/// Ask the transfer to stop. It does so between pieces, so that nothing half
/// written is ever recorded as complete.
pub fn cancel(b: &mut Book)
    ensures
        final(b)@ == (BookModel { cancelled: true, ..old(b)@ }),
{
    b.cancelled = true;
}

/// The bytes so far, and the bytes expected.
pub fn progress(b: &Book) -> (r: (u64, u64))
    ensures
        r == (b@.done_bytes, b@.total),
{
    (b.done_bytes, b.total)
}

/// A book with one more message: kept where a screen shows them, else it is the
/// caller's to print.
pub open spec fn after_log(b: BookModel, msg: Seq<char>) -> BookModel {
    if b.quiet {
        BookModel { messages: logged(b.messages, msg), ..b }
    } else {
        b
    }
}

/// Note what happened. Whether it is for the caller to print.
pub fn log(b: &mut Book, msg: &str) -> (print: bool)
    ensures
        final(b)@ == after_log(old(b)@, msg@),
        print == !old(b)@.quiet,
{
    if !b.quiet {
        return true;
    }
    let ghost before = b.messages@;
    let n: usize = b.messages.len();
    if n > 0 && same_shape(b.messages[n - 1].text.as_str(), msg) {
        assert(shown(before).last() == (before[n - 1].text@, before[n - 1].times));
        let times: u32 = count_up(b.messages[n - 1].times);
        b.messages.pop();
        b.messages.push(Message { text: msg.to_owned(), times });
        assert(shown(b.messages@) =~= logged(shown(before), msg@));
    } else {
        assert(n > 0 ==> shown(before).last() == (before[n - 1].text@, before[n - 1].times));
        if n >= MESSAGES_KEPT {
            b.messages.remove(0);
            assert(b.messages@ =~= before.skip(1));
        }
        b.messages.push(Message { text: msg.to_owned(), times: 1 });
        assert(shown(b.messages@) =~= logged(shown(before), msg@));
    }
    false
}

/// A book for a new transfer: what is here already counts as whole pieces.
pub fn begin(b: &mut Book, total: u64, done: BTreeSet<u64>, queue: Vec<u64>)
    requires
        done@.len() * 2_097_152 <= u64::MAX,
    ensures
        final(b)@ == (BookModel {
            retries: 0,
            damaged: 0,
            done_bytes: (done@.len() * 2_097_152) as u64,
            total,
            cancelled: false,
            queue: queue@,
            done: done@,
            ..old(b)@
        }),
{
    b.retries = 0;
    b.damaged = 0;
    b.total = total;
    b.cancelled = false;
    b.done_bytes = done.len() as u64 * CHUNK;
    b.done = done;
    b.queue = queue;
}

/// Take a piece to fetch: none once the transfer is to stop, or when there are
/// none left.
pub fn take_piece(b: &mut Book) -> (c: Option<u64>)
    ensures
        c == (if old(b)@.cancelled || old(b)@.queue.len() == 0 {
            None
        } else {
            Some(old(b)@.queue.last())
        }),
        final(b)@ == (if c is Some {
            BookModel { queue: old(b)@.queue.drop_last(), ..old(b)@ }
        } else {
            old(b)@
        }),
{
    if b.cancelled {
        return None;
    }
    b.queue.pop()
}

/// What happened to a piece whose fingerprint was looked at.
pub enum Check {
    /// No fingerprint is known, or it is the right one.
    Fine,
    /// It has the first fingerprint and not the second.
    Damaged { got: String, expected: String },
    /// It could not be read back.
    Unreadable { why: String },
}

/// What a look at a piece's fingerprint means.
pub fn check_piece(expected: Option<&String>, got: Result<String, String>) -> (k: Check)
    ensures
        match expected {
            None => k is Fine,
            Some(e) => match got {
                Ok(g) => if g@ == e@ {
                    k is Fine
                } else {
                    k matches Check::Damaged { got: x, expected: y } && x@ == g@ && y@ == e@
                },
                Err(w) => k matches Check::Unreadable { why } && why@ == w@,
            },
        },
{
    match expected {
        None => Check::Fine,
        Some(e) => match got {
            Ok(g) => {
                if crate::text::same_text(g.as_str(), e.as_str()) {
                    Check::Fine
                } else {
                    Check::Damaged { got: g, expected: e.clone() }
                }
            },
            Err(why) => Check::Unreadable { why },
        },
    }
}

/// The first eight characters of a text.
pub open spec fn first_eight(s: Seq<char>) -> Seq<char> {
    s.take(
        if s.len() < 8 {
            s.len() as int
        } else {
            8
        },
    )
}

fn push_first_eight(out: &mut String, s: &str)
    ensures
        final(out)@ == old(out)@ + first_eight(s@),
{
    let c: Vec<char> = chars_of(s);
    let n: usize = if c.len() < 8 {
        c.len()
    } else {
        8
    };
    let part = slice_subrange(c.as_slice(), 0, n);
    assert(part@ =~= first_eight(s@));
    crate::text::push_chars(out, part);
}

/// What is said of a machine that could not be reached.
pub open spec fn lost_contact_text(why: Seq<char>) -> Seq<char> {
    "lost contact ("@ + why + "), waiting to try again"@
}

/// What is said of a piece that did not come.
pub open spec fn no_arrival_text(c: u64, why: Seq<char>) -> Seq<char> {
    "piece "@ + decimal(c as int) + " did not arrive ("@ + why + "), asking again"@
}

/// What is said of a piece that came damaged.
pub open spec fn damage_text(c: u64, got: Seq<char>, expected: Seq<char>) -> Seq<char> {
    "piece "@ + decimal(c as int) + " arrived damaged (fingerprint "@ + first_eight(got) + " not "@
        + first_eight(expected) + "), asking again"@
}

/// What is said of a piece that could not be checked: plainly, since checking was
/// asked for.
pub open spec fn unreadable_text(c: u64, why: Seq<char>) -> Seq<char> {
    "chunk "@ + decimal(c as int) + " COULD NOT BE VERIFIED ("@ + why
        + ") -- verification is not working, do not trust this file"@
}

/// A book after a piece was put back because something failed.
pub open spec fn after_failure(b: BookModel, c: u64, msg: Seq<char>) -> BookModel {
    let said = after_log(b, msg);
    BookModel { retries: b.retries.wrapping_add(1), queue: b.queue.push(c), ..said }
}

/// The other machine could not be reached for this piece: put it back and wait.
/// How long to wait, in milliseconds, and whether the message is to be printed.
pub fn could_not_connect(b: &mut Book, c: u64, why: &str, fails: &mut u32) -> (r: (
    u64,
    Option<String>,
))
    ensures
        final(b)@ == after_failure(old(b)@, c, lost_contact_text(why@)),
        *final(fails) == one_more(*old(fails)),
        r.0 == wait_after(one_more(*old(fails)) as int),
        r.1 is Some <==> !old(b)@.quiet,
        r.1 matches Some(t) ==> t@ == lost_contact_text(why@),
{
    let mut t = String::new();
    t.append("lost contact (");
    t.append(why);
    t.append("), waiting to try again");
    assert(t@ =~= lost_contact_text(why@));
    put_back(b, c, t, fails)
}

fn put_back(b: &mut Book, c: u64, t: String, fails: &mut u32) -> (r: (u64, Option<String>))
    ensures
        final(b)@ == after_failure(old(b)@, c, t@),
        *final(fails) == one_more(*old(fails)),
        r.0 == wait_after(one_more(*old(fails)) as int),
        r.1 is Some <==> !old(b)@.quiet,
        r.1 matches Some(s) ==> s@ == t@,
{
    b.retries = b.retries.wrapping_add(1);
    let print: bool = log(b, t.as_str());
    b.queue.push(c);
    *fails = count_up(*fails);
    let r: Option<String> = if print {
        Some(t)
    } else {
        None
    };
    (backoff(*fails), r)
}

/// A piece did not come whole: put it back and wait.
pub fn did_not_arrive(b: &mut Book, c: u64, why: &str, fails: &mut u32) -> (r: (
    u64,
    Option<String>,
))
    ensures
        final(b)@ == after_failure(old(b)@, c, no_arrival_text(c, why@)),
        *final(fails) == one_more(*old(fails)),
        r.0 == wait_after(one_more(*old(fails)) as int),
        r.1 is Some <==> !old(b)@.quiet,
        r.1 matches Some(t) ==> t@ == no_arrival_text(c, why@),
{
    let mut t = String::new();
    t.append("piece ");
    push_decimal(&mut t, c);
    t.append(" did not arrive (");
    t.append(why);
    t.append("), asking again");
    assert(t@ =~= no_arrival_text(c, why@));
    put_back(b, c, t, fails)
}

/// What to say about a check, if anything.
pub open spec fn check_text(c: u64, k: Check) -> Option<Seq<char>> {
    match k {
        Check::Fine => None,
        Check::Damaged { got, expected } => Some(damage_text(c, got@, expected@)),
        Check::Unreadable { why } => Some(unreadable_text(c, why@)),
    }
}

/// A book after a piece has come and was looked at: a damaged one is put back,
/// any other is recorded.
pub open spec fn after_arrival(b: BookModel, c: u64, n: u64, k: Check) -> BookModel {
    let said = match check_text(c, k) {
        Some(t) => after_log(b, t),
        None => b,
    };
    if k is Damaged {
        BookModel { damaged: b.damaged.wrapping_add(1), queue: b.queue.push(c), ..said }
    } else {
        BookModel { done_bytes: b.done_bytes.wrapping_add(n), done: b.done.insert(c), ..said }
    }
}

/// What a piece that has come makes to do next.
pub struct Arrival {
    /// Whether it is now recorded as being here.
    pub recorded: bool,
    /// How long to wait before the next, in milliseconds.
    pub wait: u64,
    /// What is to be printed.
    pub say: Option<String>,
}

fn check_message(c: u64, k: &Check) -> (t: Option<String>)
    ensures
        t is Some <==> check_text(c, *k) is Some,
        t matches Some(s) ==> check_text(c, *k) == Some(s@),
{
    match k {
        Check::Fine => None,
        Check::Damaged { got, expected } => {
            let mut t = String::new();
            t.append("piece ");
            push_decimal(&mut t, c);
            t.append(" arrived damaged (fingerprint ");
            push_first_eight(&mut t, got.as_str());
            t.append(" not ");
            push_first_eight(&mut t, expected.as_str());
            t.append("), asking again");
            assert(t@ =~= damage_text(c, got@, expected@));
            Some(t)
        },
        Check::Unreadable { why } => {
            let mut t = String::new();
            t.append("chunk ");
            push_decimal(&mut t, c);
            t.append(" COULD NOT BE VERIFIED (");
            t.append(why.as_str());
            t.append(") -- verification is not working, do not trust this file");
            assert(t@ =~= unreadable_text(c, why@));
            Some(t)
        },
    }
}

/// A piece of `n` bytes has come and was looked at.
pub fn arrived(b: &mut Book, c: u64, n: u64, k: &Check, fails: &mut u32) -> (a: Arrival)
    ensures
        final(b)@ == after_arrival(old(b)@, c, n, *k),
        a.recorded == !(k is Damaged),
        *final(fails) == (if k is Damaged {
            one_more(*old(fails))
        } else {
            0
        }),
        a.wait == (if k is Damaged {
            wait_after(one_more(*old(fails)) as int)
        } else {
            0
        }),
        a.say is Some <==> !old(b)@.quiet && check_text(c, *k) is Some,
        a.say matches Some(t) ==> check_text(c, *k) == Some(t@),
{
    let mut say: Option<String> = None;
    let ghost start = b@;
    if let Some(t) = check_message(c, k) {
        if log(b, t.as_str()) {
            say = Some(t);
        }
    }
    match k {
        Check::Damaged { .. } => {
            b.damaged = b.damaged.wrapping_add(1);
            b.queue.push(c);
            *fails = count_up(*fails);
            assert(b@ =~= after_arrival(start, c, n, *k));
            Arrival { recorded: false, wait: backoff(*fails), say }
        },
        _ => {
            b.done_bytes = b.done_bytes.wrapping_add(n);
            b.done.insert(c);
            *fails = 0;
            assert(b@ =~= after_arrival(start, c, n, *k));
            Arrival { recorded: true, wait: 0, say }
        },
    }
}

/// Whether every piece of a file is either here, waiting in the queue, or in
/// somebody's hands.
pub open spec fn accounted(b: BookModel, chunks: int, hands: Set<u64>) -> bool {
    forall|c: u64|
        c < chunks ==> #[trigger] b.done.contains(c) || b.queue.contains(c) || hands.contains(c)
}

proof fn lemma_push_contains(q: Seq<u64>, c: u64)
    ensures
        forall|x: u64| #[trigger] q.push(c).contains(x) <==> q.contains(x) || x == c,
{
    assert forall|x: u64| #[trigger] q.push(c).contains(x) <==> q.contains(x) || x == c by {
        if q.contains(x) {
            let k = choose|k: int| 0 <= k < q.len() && q[k] == x;
            assert(q.push(c)[k] == x);
        }
        assert(q.push(c)[q.len() as int] == c);
        if q.push(c).contains(x) && x != c {
            let k = choose|k: int| 0 <= k < q.push(c).len() && q.push(c)[k] == x;
            assert(q[k] == x);
        }
    }
}

/// No piece is ever lost: taking one puts it in somebody's hands, and whatever
/// becomes of it, it is then recorded or waits to be taken again.
pub proof fn law_no_piece_is_lost(
    b: BookModel,
    chunks: int,
    hands: Set<u64>,
    c: u64,
    n: u64,
    k: Check,
    msg: Seq<char>,
)
    requires
        accounted(b, chunks, hands),
    ensures
        b.queue.len() > 0 ==> accounted(
            BookModel { queue: b.queue.drop_last(), ..b },
            chunks,
            hands.insert(b.queue.last()),
        ),
        accounted(after_failure(b, c, msg), chunks, hands.remove(c)),
        accounted(after_arrival(b, c, n, k), chunks, hands.remove(c)),
{
    lemma_push_contains(b.queue, c);
    if b.queue.len() > 0 {
        lemma_push_contains(b.queue.drop_last(), b.queue.last());
        assert(b.queue.drop_last().push(b.queue.last()) =~= b.queue);
        let t = BookModel { queue: b.queue.drop_last(), ..b };
        assert forall|x: u64| x < chunks implies #[trigger] t.done.contains(x) || t.queue.contains(x)
            || hands.insert(b.queue.last()).contains(x) by {
            assert(b.done.contains(x) || b.queue.contains(x) || hands.contains(x));
        }
    }
    let f = after_failure(b, c, msg);
    assert forall|x: u64| x < chunks implies #[trigger] f.done.contains(x) || f.queue.contains(x)
        || hands.remove(c).contains(x) by {
        assert(b.done.contains(x) || b.queue.contains(x) || hands.contains(x));
    }
    let a = after_arrival(b, c, n, k);
    assert forall|x: u64| x < chunks implies #[trigger] a.done.contains(x) || a.queue.contains(x)
        || hands.remove(c).contains(x) by {
        assert(b.done.contains(x) || b.queue.contains(x) || hands.contains(x));
    }
}

/// A piece whose fingerprint is known and another is never recorded as here.
pub proof fn law_damage_is_not_recorded(b: BookModel, c: u64, n: u64, k: Check)
    requires
        k is Damaged,
    ensures
        after_arrival(b, c, n, k).done == b.done,
        after_arrival(b, c, n, k).done_bytes == b.done_bytes,
{
}

/// How a transfer ended.
pub open spec fn ending(b: BookModel) -> Option<Seq<char>> {
    if b.cancelled {
        Some("Stopped. Run the same thing again to carry on from here."@)
    } else if b.done_bytes < b.total {
        Some(
            "Only "@ + decimal(b.done_bytes as int) + " of "@ + decimal(b.total as int)
                + " bytes arrived. The signal was lost. Ask for it again and it will carry on from here."@,
        )
    } else {
        None
    }
}

/// How a transfer ended: well, or with a sentence that a teacher can act on.
pub fn outcome(b: &Book) -> (r: Result<(), String>)
    ensures
        r is Ok <==> ending(b@) is None,
        r matches Err(e) ==> ending(b@) == Some(e@),
{
    if b.cancelled {
        return Err("Stopped. Run the same thing again to carry on from here.".to_owned());
    }
    if b.done_bytes < b.total {
        let mut s = String::new();
        s.append("Only ");
        push_decimal(&mut s, b.done_bytes);
        s.append(" of ");
        push_decimal(&mut s, b.total);
        s.append(
            " bytes arrived. The signal was lost. Ask for it again and it will carry on from here.",
        );
        assert(s@ =~= ending(b@).unwrap());
        return Err(s);
    }
    Ok(())
}

// ------------------------------------------------------------- errors in words

/// An error without the number that the system puts behind it.
pub open spec fn without_number(s: Seq<char>) -> Seq<char> {
    match cut_at(s, " (os error"@) {
        Some((head, _)) => head,
        None => s,
    }
}

/// An error without the number that the system puts behind it, which says nothing
/// and looks alarming.
pub fn plain_error(s: &str) -> (r: String)
    ensures
        r@ == without_number(s@),
{
    let c: Vec<char> = chars_of(s);
    match split_at_text(c.as_slice(), " (os error") {
        Some((head, _)) => string_of(head),
        None => s.to_owned(),
    }
}

/// What kind of error it was.
#[derive(Clone, Copy, Debug, PartialEq, Eq, Structural)]
pub enum Trouble {
    Refused,
    TimedOut,
    NotFound,
    Other,
}

/// What to tell a teacher.
pub open spec fn advice(kind: Trouble, text: Seq<char>) -> Seq<char> {
    match kind {
        Trouble::Refused => "Nothing is handing out files at that address. Is the teacher's computer still running it?"@,
        Trouble::TimedOut => "No answer. The signal may be too weak, or you may be on a different network."@,
        Trouble::NotFound => "That computer is handing files out, but not that one."@,
        Trouble::Other => "Could not reach it: "@ + text,
    }
}

/// What to tell a teacher about an error.
pub fn describe(kind: Trouble, text: &str) -> (s: String)
    ensures
        s@ == advice(kind, text@),
{
    match kind {
        Trouble::Refused => "Nothing is handing out files at that address. Is the teacher's computer still running it?".to_owned(),
        Trouble::TimedOut => "No answer. The signal may be too weak, or you may be on a different network.".to_owned(),
        Trouble::NotFound => "That computer is handing files out, but not that one.".to_owned(),
        Trouble::Other => {
            let mut s = String::new();
            s.append("Could not reach it: ");
            s.append(text);
            assert(s@ =~= advice(kind, text@));
            s
        },
    }
}

// ------------------------------------------------------------- the beginning

pub const NO_FILE: &'static str = "That computer answered, but not with a file. Check the name is right.";

pub const NO_PRINTS: &'static str = "no fingerprints offered, so the pieces cannot be checked";

/// The length of the file that a first question brought to light: only where it can be
/// had in pieces, and is not empty.
pub open spec fn total_of(h: Head) -> Option<u64> {
    match h.total {
        Some(n) => if h.status == 206 && n > 0 {
            Some(n)
        } else {
            None
        },
        None => None,
    }
}

/// The length of the file that a first question brought to light, or what to say
/// where there is none.
pub fn probed(h: &Head) -> (r: Result<u64, &'static str>)
    ensures
        r == (match total_of(*h) {
            Some(n) => Ok::<u64, &'static str>(n),
            None => Err(NO_FILE),
        }),
{
    match h.total {
        Some(n) => if h.status == 206 && n > 0 {
            Ok(n)
        } else {
            Err(NO_FILE)
        },
        None => Err(NO_FILE),
    }
}

/// How much of a piece is to be read, or what is wrong with the answer.
pub fn piece_coming(h: &Head) -> (r: Result<u64, String>)
    ensures
        r is Ok <==> h.status == 206,
        r matches Ok(n) ==> n == h.len,
        r matches Err(e) ==> e@ == "expected 206, got "@ + decimal(h.status as int),
{
    if h.status == 206 {
        Ok(h.len)
    } else {
        let mut e = String::new();
        e.append("expected 206, got ");
        push_decimal(&mut e, h.status as u64);
        assert(e@ =~= "expected 206, got "@ + decimal(h.status as int));
        Err(e)
    }
}

/// What is said of the fingerprints that a transfer is checked against.
pub open spec fn prints_said(verify: bool, prints: int) -> Option<Seq<char>> {
    if prints > 0 {
        Some("checking every piece against "@ + decimal(prints) + " fingerprints"@)
    } else if verify {
        Some(NO_PRINTS@)
    } else {
        None
    }
}

/// What is said of the fingerprints that a transfer is checked against: their number,
/// or that none are offered where they were asked for.
pub fn prints_line(verify: bool, prints: u64) -> (r: Option<String>)
    ensures
        text_view(r) == prints_said(verify, prints as int),
{
    let mut t = String::new();
    if prints > 0 {
        t.append("checking every piece against ");
        push_decimal(&mut t, prints);
        t.append(" fingerprints");
        assert(t@ =~= "checking every piece against "@ + decimal(prints as int)
            + " fingerprints"@);
        Some(t)
    } else if verify {
        t.append(NO_PRINTS);
        assert(t@ =~= NO_PRINTS@);
        Some(t)
    } else {
        None
    }
}

/// What is said of the pieces that an earlier run recorded: those that are not here
/// after all, and those that are.
pub open spec fn resumed(claimed: int, kept: int, chunks: int) -> Seq<Seq<char>> {
    (if kept < claimed {
        seq![
            decimal(claimed - kept)
                + " pieces were recorded but not actually here, fetching them again"@,
        ]
    } else {
        Seq::empty()
    }) + (if kept > 0 {
        seq![
            "carrying on: "@ + decimal(kept) + " of "@ + decimal(chunks)
                + " pieces are already here"@,
        ]
    } else {
        Seq::empty()
    })
}

/// What is said of the pieces that an earlier run recorded, one line after the other.
pub fn resumed_lines(claimed: u64, kept: u64, chunks: u64) -> (v: Vec<String>)
    ensures
        texts(v@) == resumed(claimed as int, kept as int, chunks as int),
{
    let mut v: Vec<String> = Vec::new();
    if kept < claimed {
        let mut t = String::new();
        push_decimal(&mut t, claimed - kept);
        t.append(" pieces were recorded but not actually here, fetching them again");
        assert(t@ =~= decimal(claimed - kept)
            + " pieces were recorded but not actually here, fetching them again"@);
        v.push(t);
    }
    if kept > 0 {
        let mut t = String::new();
        t.append("carrying on: ");
        push_decimal(&mut t, kept);
        t.append(" of ");
        push_decimal(&mut t, chunks);
        t.append(" pieces are already here");
        assert(t@ =~= "carrying on: "@ + decimal(kept as int) + " of "@ + decimal(chunks as int)
            + " pieces are already here"@);
        v.push(t);
    }
    assert(texts(v@) =~= resumed(claimed as int, kept as int, chunks as int));
    v
}

/// What is said of the pieces that are here and damaged.
pub fn damaged_line(damaged: u64) -> (r: Option<String>)
    ensures
        text_view(r) == (if damaged > 0 {
            Some(decimal(damaged as int) + " of those were damaged and will be fetched again"@)
        } else {
            None
        }),
{
    if damaged == 0 {
        None
    } else {
        let mut t = String::new();
        push_decimal(&mut t, damaged);
        t.append(" of those were damaged and will be fetched again");
        assert(t@ =~= decimal(damaged as int)
            + " of those were damaged and will be fetched again"@);
        Some(t)
    }
}

// ------------------------------------------------------------- what is kept track of

/// The waits grow by half a second with each failure, and are never longer than a quarter
/// of a minute.
pub proof fn law_waits_grow_up_to_a_limit(fails: int, more: int)
    requires
        0 <= fails <= more,
    ensures
        fails <= 30 ==> wait_after(fails) == 500 * fails,
        fails >= 30 ==> wait_after(fails) == 15_000,
        wait_after(fails) <= wait_after(more) <= 15_000,
{
}

/// What a piece changes once it has come, and what it leaves: one that is fine, or that
/// could not be looked at, is here from now on with its bytes counted once, and what is
/// still to be fetched stays as it was; one that is damaged is to be fetched again, and
/// nothing more is here than before. One that did not come at all is to be fetched again
/// too. Each is counted where it belongs.
pub proof fn law_each_piece_is_counted_where_it_belongs(
    b: BookModel,
    c: u64,
    n: u64,
    k: Check,
    msg: Seq<char>,
)
    requires
        b.done_bytes + n <= u64::MAX,
        b.damaged < u64::MAX,
        b.retries < u64::MAX,
    ensures
        ({
            let a = after_arrival(b, c, n, k);
            &&& k !is Damaged ==> {
                &&& a.done == b.done.insert(c)
                &&& a.done_bytes == b.done_bytes + n
                &&& a.queue == b.queue
                &&& a.damaged == b.damaged
            }
            &&& k is Damaged ==> {
                &&& a.done == b.done
                &&& a.done_bytes == b.done_bytes
                &&& a.queue == b.queue.push(c)
                &&& a.damaged == b.damaged + 1
            }
            &&& a.retries == b.retries && a.total == b.total && a.cancelled == b.cancelled
        }),
        ({
            let f = after_failure(b, c, msg);
            &&& f.done == b.done
            &&& f.done_bytes == b.done_bytes
            &&& f.queue == b.queue.push(c)
            &&& f.retries == b.retries + 1
            &&& f.damaged == b.damaged && f.total == b.total && f.cancelled == b.cancelled
        }),
{
}

/// A transfer ended well exactly where nobody stopped it and every byte came.
pub proof fn law_a_transfer_ends_well_when_every_byte_came(b: BookModel)
    ensures
        ending(b) is None <==> !b.cancelled && b.done_bytes >= b.total,
{
}

/// A file can be had in pieces exactly where a part of it was sent and its length was
/// told, and it is not empty.
pub proof fn law_a_file_is_known_by_its_length(h: Head, n: u64)
    ensures
        total_of(h) == Some(n) <==> h.status == 206 && h.total == Some(n) && n > 0,
{
}

/// What says the same but for its numbers is counted on one line, and what says something
/// else has a line of its own; no other line is touched as long as there is room.
pub proof fn law_repeats_are_counted(ms: Seq<(Seq<char>, u32)>, a: Seq<char>, b: Seq<char>)
    requires
        ms.len() < 39,
        ms.len() > 0 ==> shape(ms.last().0) != shape(a),
    ensures
        logged(ms, a) == ms.push((a, 1u32)),
        shape(a) == shape(b) ==> logged(logged(ms, a), b) == ms.push((b, 2u32)),
        shape(a) != shape(b) ==> logged(logged(ms, a), b) == ms.push((a, 1u32)).push((b, 1u32)),
{
    let one = ms.push((a, 1u32));
    assert(one.drop_last() =~= ms);
}

/// Two messages are alike exactly in what is left of them without their digits: a digit
/// anywhere makes no difference, and any other character does.
pub proof fn law_numbers_make_no_difference(a: Seq<char>, d: char, b: Seq<char>)
    ensures
        shape(a + b) == shape(a) + shape(b),
        '0' <= d <= '9' ==> shape(seq![d]) == Seq::<char>::empty(),
        !('0' <= d <= '9') ==> shape(seq![d]) == seq![d],
    decreases b.len(),
{
    assert(seq![d].drop_last() =~= Seq::<char>::empty());
    assert(shape(seq![d].drop_last()) =~= Seq::<char>::empty());
    if !('0' <= d <= '9') {
        assert(shape(seq![d]) =~= seq![d]);
    }
    if b.len() == 0 {
        assert(a + b =~= a);
        assert(shape(a) + shape(b) =~= shape(a));
    } else {
        assert((a + b).drop_last() =~= a + b.drop_last());
        law_numbers_make_no_difference(a, d, b.drop_last());
        assert(shape(a + b) =~= shape(a) + shape(b));
    }
}

/// A transfer that did not end well says so: that it was stopped, or how many bytes of how
/// many arrived.
pub proof fn law_what_is_missing_is_counted(b: BookModel)
    ensures
        !b.cancelled && b.done_bytes < b.total ==> ending(b) == Some(
            "Only "@ + decimal(b.done_bytes as int) + " of "@ + decimal(b.total as int)
                + " bytes arrived. The signal was lost. Ask for it again and it will carry on from here."@,
        ),
        b.cancelled ==> ending(b) == Some(
            "Stopped. Run the same thing again to carry on from here."@,
        ),
{
}

} // verus!
