//! Who is getting or sending what right now: one row per device, not one per
//! connection.

use crate::text::{chars_of, cut, find_char, same_text, string_of};
use vstd::prelude::*;
use vstd::slice::slice_subrange;

verus! {

/// Which way the bytes are going.
#[derive(Clone, Copy, PartialEq, Eq, Structural, Debug)]
pub enum Direction {
    Getting,
    HandingIn,
    Done,
}

/// One second, in the unit of time used here.
pub const SECOND: u64 = 1_000_000_000;

/// One device, mid-transfer. Times are nanoseconds of one clock. The rate is the
/// bytes of the last whole window over the time it took; no time means no rate
/// yet.
pub struct Transfer {
    pub peer: String,
    pub file: String,
    pub done: u64,
    pub total: u64,
    pub rate_bytes: u64,
    pub rate_time: u64,
    pub finished: bool,
    pub updated: u64,
    pub window_bytes: u64,
    pub window_start: u64,
    pub handing_in: bool,
}

/// A row as plain text and numbers.
pub struct Row {
    pub peer: Seq<char>,
    pub file: Seq<char>,
    pub done: int,
    pub total: int,
    pub rate_bytes: int,
    pub rate_time: int,
    pub finished: bool,
    pub updated: int,
    pub window_bytes: int,
    pub window_start: int,
    pub handing_in: bool,
}

impl View for Transfer {
    type V = Row;

    open spec fn view(&self) -> Row {
        Row {
            peer: self.peer@,
            file: self.file@,
            done: self.done as int,
            total: self.total as int,
            rate_bytes: self.rate_bytes as int,
            rate_time: self.rate_time as int,
            finished: self.finished,
            updated: self.updated as int,
            window_bytes: self.window_bytes as int,
            window_start: self.window_start as int,
            handing_in: self.handing_in,
        }
    }
}

/// What a table of transfers holds.
pub open spec fn rows(v: Seq<Transfer>) -> Seq<Row> {
    Seq::new(v.len(), |i: int| v[i]@)
}

/// The address of a peer, without its port.
pub open spec fn address_of(peer: Seq<char>) -> Seq<char> {
    match cut(peer, ':') {
        Some((ip, _)) => ip,
        None => peer,
    }
}

/// The address of a peer, without its port.
pub fn peer_address(peer: &str) -> (ip: String)
    ensures
        ip@ == address_of(peer@),
{
    let chars: Vec<char> = chars_of(peer);
    let k: usize = find_char(chars.as_slice(), ':');
    let ip = slice_subrange(chars.as_slice(), 0, k);
    assert(k < chars.len() ==> ip@ =~= peer@.take(k as int));
    assert(k == chars.len() ==> ip@ =~= peer@);
    string_of(ip)
}

/// The smaller of two numbers.
pub open spec fn least(a: int, b: int) -> int {
    if a < b {
        a
    } else {
        b
    }
}

/// A total that can be divided by.
pub open spec fn at_least_one(total: int) -> int {
    if total < 1 {
        1
    } else {
        total
    }
}

/// Time passed since a moment, never negative.
pub open spec fn since(now: int, then_: int) -> int {
    if now < then_ {
        0
    } else {
        now - then_
    }
}

/// Some bytes that just moved, as the table hears of them.
pub struct Move {
    pub file: Seq<char>,
    pub delta: int,
    pub total: int,
    pub handing_in: bool,
    pub force_done: bool,
    pub now: int,
}

/// A device's first row.
pub open spec fn first_row(ip: Seq<char>, m: Move) -> Row {
    Row {
        peer: ip,
        file: m.file,
        done: least(m.delta, at_least_one(m.total)),
        total: m.total,
        rate_bytes: 0,
        rate_time: 0,
        finished: m.force_done,
        updated: m.now,
        window_bytes: m.delta,
        window_start: m.now,
        handing_in: m.handing_in,
    }
}

/// A device's row after more bytes moved. A second file starts again from zero;
/// a window of a second or more becomes the rate; a finished row says all of it.
pub open spec fn next_row(r: Row, m: Move) -> Row {
    let fresh = r.file != m.file;
    let done = least(
        (if fresh {
            0
        } else {
            r.done
        }) + m.delta,
        at_least_one(m.total),
    );
    let bytes = least(
        (if fresh {
            0
        } else {
            r.window_bytes
        }) + m.delta,
        u64::MAX as int,
    );
    let start = if fresh {
        m.now
    } else {
        r.window_start
    };
    let closes = since(m.now, start) >= SECOND;
    let finished = m.force_done || done >= m.total;
    Row {
        peer: r.peer,
        file: m.file,
        done: if finished {
            at_least_one(m.total)
        } else {
            done
        },
        total: m.total,
        rate_bytes: if closes {
            bytes
        } else {
            r.rate_bytes
        },
        rate_time: if closes {
            since(m.now, start)
        } else {
            r.rate_time
        },
        finished,
        updated: m.now,
        window_bytes: if closes {
            0
        } else {
            bytes
        },
        window_start: if closes {
            m.now
        } else {
            start
        },
        handing_in: m.handing_in,
    }
}

/// The first row from `i` on of a device, or the length.
pub open spec fn row_from(t: Seq<Row>, ip: Seq<char>, i: int) -> int
    decreases t.len() - i,
{
    if i >= t.len() || t[i].peer == ip {
        i
    } else {
        row_from(t, ip, i + 1)
    }
}

/// The table after bytes moved to or from a device.
pub open spec fn table_after(t: Seq<Row>, ip: Seq<char>, m: Move) -> Seq<Row> {
    let p = row_from(t, ip, 0);
    if p < t.len() {
        t.update(p, next_row(t[p], m))
    } else {
        t.push(first_row(ip, m))
    }
}

fn min_u64(a: u64, b: u64) -> (r: u64)
    ensures
        r == least(a as int, b as int),
{
    if a < b {
        a
    } else {
        b
    }
}

fn copy_of(t: &Transfer) -> (c: Transfer)
    ensures
        c@ == t@,
{
    Transfer {
        peer: t.peer.clone(),
        file: t.file.clone(),
        done: t.done,
        total: t.total,
        rate_bytes: t.rate_bytes,
        rate_time: t.rate_time,
        finished: t.finished,
        updated: t.updated,
        window_bytes: t.window_bytes,
        window_start: t.window_start,
        handing_in: t.handing_in,
    }
}

fn advance(
    e: &Transfer,
    file: &str,
    delta: u64,
    total: u64,
    handing_in: bool,
    force_done: bool,
    now: u64,
) -> (r: Transfer)
    ensures
        r@ == next_row(
            e@,
            (Move {
                file: file@,
                delta: delta as int,
                total: total as int,
                handing_in,
                force_done,
                now: now as int,
            }),
        ),
{
    let cap: u64 = if total < 1 {
        1
    } else {
        total
    };
    let fresh: bool = !same_text(e.file.as_str(), file);
    let had: u64 = if fresh {
        0
    } else {
        e.done
    };
    let done: u64 = min_u64(had.saturating_add(delta), cap);
    let window: u64 = if fresh {
        0
    } else {
        e.window_bytes
    };
    let bytes: u64 = window.saturating_add(delta);
    let start: u64 = if fresh {
        now
    } else {
        e.window_start
    };
    let elapsed: u64 = now.saturating_sub(start);
    let closes: bool = elapsed >= SECOND;
    let finished: bool = force_done || done >= total;
    Transfer {
        peer: e.peer.clone(),
        file: file.to_owned(),
        done: if finished {
            cap
        } else {
            done
        },
        total,
        rate_bytes: if closes {
            bytes
        } else {
            e.rate_bytes
        },
        rate_time: if closes {
            elapsed
        } else {
            e.rate_time
        },
        finished,
        updated: now,
        window_bytes: if closes {
            0
        } else {
            bytes
        },
        window_start: if closes {
            now
        } else {
            start
        },
        handing_in,
    }
}

/// Note bytes that moved to or from a device.
pub fn note_dir(
    t: &mut Vec<Transfer>,
    peer: &str,
    file: &str,
    delta: u64,
    total: u64,
    handing_in: bool,
    force_done: bool,
    now: u64,
)
    ensures
        rows(final(t)@) == table_after(
            rows(old(t)@),
            address_of(peer@),
            (Move {
                file: file@,
                delta: delta as int,
                total: total as int,
                handing_in,
                force_done,
                now: now as int,
            }),
        ),
{
    let ip: String = peer_address(peer);
    let mut p: usize = 0;
    while p < t.len() && !same_text(t[p].peer.as_str(), ip.as_str())
        invariant
            p <= t.len(),
            row_from(rows(t@), ip@, 0) == row_from(rows(t@), ip@, p as int),
        decreases t.len() - p,
    {
        p = p + 1;
    }
    let ghost before = t@;
    if p < t.len() {
        let r: Transfer = advance(&t[p], file, delta, total, handing_in, force_done, now);
        t.set(p, r);
        assert(rows(t@) =~= rows(before).update(p as int, r@));
    } else {
        let cap: u64 = if total < 1 {
            1
        } else {
            total
        };
        let r = Transfer {
            peer: ip,
            file: file.to_owned(),
            done: min_u64(delta, cap),
            total,
            rate_bytes: 0,
            rate_time: 0,
            finished: force_done,
            updated: now,
            window_bytes: delta,
            window_start: now,
            handing_in,
        };
        t.push(r);
        assert(rows(t@) =~= rows(before).push(r@));
    }
}

/// Note bytes that a device is getting.
pub fn note(t: &mut Vec<Transfer>, peer: &str, file: &str, delta: u64, total: u64, now: u64)
    ensures
        rows(final(t)@) == table_after(
            rows(old(t)@),
            address_of(peer@),
            (Move {
                file: file@,
                delta: delta as int,
                total: total as int,
                handing_in: false,
                force_done: false,
                now: now as int,
            }),
        ),
{
    note_dir(t, peer, file, delta, total, false, false, now);
}

/// Note bytes with their direction; an upload that is done says so.
pub fn note_direction(
    t: &mut Vec<Transfer>,
    peer: &str,
    file: &str,
    delta: u64,
    total: u64,
    dir: Direction,
    now: u64,
)
    ensures
        rows(final(t)@) == table_after(
            rows(old(t)@),
            address_of(peer@),
            (Move {
                file: file@,
                delta: delta as int,
                total: total as int,
                handing_in: dir != Direction::Getting,
                force_done: dir == Direction::Done,
                now: now as int,
            }),
        ),
{
    note_dir(
        t,
        peer,
        file,
        delta,
        total,
        dir != Direction::Getting,
        dir == Direction::Done,
        now,
    );
}

/// Whether a row is still worth showing: finished ones linger for twenty
/// seconds, others for sixty.
pub open spec fn still_shown(r: Row, now: int) -> bool {
    let age = since(now, r.updated) / (SECOND as int);
    if r.finished {
        age < 20
    } else {
        age < 60
    }
}

/// The rows still worth showing.
pub open spec fn shown_rows(t: Seq<Row>, now: int) -> Seq<Row>
    decreases t.len(),
{
    if t.len() == 0 {
        t
    } else {
        let head = shown_rows(t.drop_last(), now);
        if still_shown(t.last(), now) {
            head.push(t.last())
        } else {
            head
        }
    }
}

/// Drop what is no longer worth showing, and hand out a copy of the rest.
pub fn transfers(t: &mut Vec<Transfer>, now: u64) -> (v: Vec<Transfer>)
    ensures
        rows(final(t)@) == shown_rows(rows(old(t)@), now as int),
        rows(v@) == rows(final(t)@),
{
    let ghost q = rows(t@);
    let mut kept: Vec<Transfer> = Vec::new();
    let mut v: Vec<Transfer> = Vec::new();
    let mut i: usize = 0;
    assert(q.take(0) =~= Seq::empty());
    assert(rows(kept@) =~= Seq::empty());
    while i < t.len()
        invariant
            rows(t@) == q,
            i <= t.len(),
            rows(kept@) == shown_rows(q.take(i as int), now as int),
            rows(v@) == rows(kept@),
        decreases t.len() - i,
    {
        assert(q.take(i + 1).drop_last() =~= q.take(i as int));
        assert(q[i as int] == t@[i as int]@);
        let age: u64 = now.saturating_sub(t[i].updated) / SECOND;
        let stays: bool = if t[i].finished {
            age < 20
        } else {
            age < 60
        };
        if stays {
            let ghost before = kept@;
            let ghost shown = v@;
            kept.push(copy_of(&t[i]));
            v.push(copy_of(&t[i]));
            assert(rows(kept@) =~= rows(before).push(q[i as int]));
            assert(rows(v@) =~= rows(shown).push(q[i as int]));
        }
        i = i + 1;
    }
    assert(q.take(q.len() as int) =~= q);
    *t = kept;
    v
}

/// No device has two rows.
pub open spec fn one_row_each(t: Seq<Row>) -> bool {
    forall|i: int, j: int| 0 <= i < j < t.len() ==> (#[trigger] t[i]).peer != (#[trigger] t[j]).peer
}

proof fn lemma_row_from(t: Seq<Row>, ip: Seq<char>, i: int)
    requires
        0 <= i <= t.len(),
    ensures
        i <= row_from(t, ip, i) <= t.len(),
        row_from(t, ip, i) < t.len() ==> t[row_from(t, ip, i)].peer == ip,
        forall|j: int| i <= j < row_from(t, ip, i) ==> (#[trigger] t[j]).peer != ip,
    decreases t.len() - i,
{
    if i < t.len() && t[i].peer != ip {
        lemma_row_from(t, ip, i + 1);
    }
}

/// However many connections a device opens, it has one row, and no row ever says
/// more than the whole.
pub proof fn law_one_row_per_device(t: Seq<Row>, ip: Seq<char>, m: Move)
    requires
        one_row_each(t),
        m.delta >= 0,
        forall|i: int| 0 <= i < t.len() ==> (#[trigger] t[i]).done <= at_least_one(t[i].total),
    ensures
        one_row_each(table_after(t, ip, m)),
        forall|i: int|
            0 <= i < table_after(t, ip, m).len() ==> (#[trigger] table_after(t, ip, m)[i]).done
                <= at_least_one(table_after(t, ip, m)[i].total),
{
    lemma_row_from(t, ip, 0);
    let r = table_after(t, ip, m);
    assert forall|i: int, j: int| 0 <= i < j < r.len() implies (#[trigger] r[i]).peer != (
    #[trigger] r[j]).peer by {
        if j < t.len() {
            assert(t[i].peer != t[j].peer);
        } else {
            assert(t[i].peer != ip);
        }
    }
}

// ------------------------------------------------------------- what a row says

/// The table after many moves, each of some device.
pub open spec fn table_after_all(t: Seq<Row>, h: Seq<(Seq<char>, Move)>) -> Seq<Row>
    decreases h.len(),
{
    if h.len() == 0 {
        t
    } else {
        table_after(table_after_all(t, h.drop_last()), h.last().0, h.last().1)
    }
}

/// How many bytes moved to or from a device, all its moves together.
pub open spec fn moved(h: Seq<(Seq<char>, Move)>, ip: Seq<char>) -> int
    decreases h.len(),
{
    if h.len() == 0 {
        0
    } else if h.last().0 == ip {
        moved(h.drop_last(), ip) + h.last().1.delta
    } else {
        moved(h.drop_last(), ip)
    }
}

/// Whether a device has a row.
pub open spec fn has_row(t: Seq<Row>, ip: Seq<char>) -> bool {
    exists|i: int| 0 <= i < t.len() && (#[trigger] t[i]).peer == ip
}

/// Whether a device moved anything.
pub open spec fn has_move(h: Seq<(Seq<char>, Move)>, ip: Seq<char>) -> bool {
    exists|i: int| 0 <= i < h.len() && (#[trigger] h[i]).0 == ip
}

proof fn lemma_row_is(t: Seq<Row>, ip: Seq<char>, p: int)
    requires
        0 <= p <= t.len(),
        p < t.len() ==> t[p].peer == ip,
        forall|j: int| 0 <= j < p ==> (#[trigger] t[j]).peer != ip,
    ensures
        row_from(t, ip, 0) == p,
{
    lemma_row_from(t, ip, 0);
    let q = row_from(t, ip, 0);
    if q < p {
        assert(t[q].peer != ip);
    } else if p < q {
        assert(t[p].peer != ip);
    }
}

/// What one device moves changes no row but its own.
pub proof fn law_a_move_changes_one_row(t: Seq<Row>, ip: Seq<char>, m: Move)
    ensures
        ({
            let u = table_after(t, ip, m);
            &&& u.len() == (if has_row(t, ip) {
                t.len()
            } else {
                t.len() + 1
            })
            &&& has_row(u, ip)
            &&& forall|j: int| 0 <= j < t.len() && t[j].peer != ip ==> #[trigger] u[j] == t[j]
            &&& forall|j: int| 0 <= j < t.len() ==> (#[trigger] u[j]).peer == t[j].peer
        }),
{
    lemma_row_from(t, ip, 0);
    let p = row_from(t, ip, 0);
    let u = table_after(t, ip, m);
    assert(u[p].peer == ip);
    if p < t.len() {
        assert(t[p].peer == ip);
    }
}

proof fn lemma_other_row(t: Seq<Row>, ip: Seq<char>, other: Seq<char>, m: Move)
    requires
        ip != other,
    ensures
        ({
            let u = table_after(t, other, m);
            let p = row_from(t, ip, 0);
            let q = row_from(u, ip, 0);
            &&& p < t.len() ==> q == p && u[p] == t[p]
            &&& p == t.len() ==> q == u.len()
            &&& 0 <= p <= t.len() <= u.len()
        }),
{
    law_a_move_changes_one_row(t, other, m);
    lemma_row_from(t, ip, 0);
    lemma_row_from(t, other, 0);
    let u = table_after(t, other, m);
    let p = row_from(t, ip, 0);
    if p < t.len() {
        assert(u[p] == t[p]);
        assert forall|j: int| 0 <= j < p implies (#[trigger] u[j]).peer != ip by {
            assert(u[j].peer == t[j].peer);
        }
        lemma_row_is(u, ip, p);
    } else {
        assert forall|j: int| 0 <= j < u.len() implies (#[trigger] u[j]).peer != ip by {
            if j < t.len() {
                assert(u[j].peer == t[j].peer);
            }
        }
        lemma_row_is(u, ip, u.len() as int);
    }
}

proof fn lemma_own_row(t: Seq<Row>, ip: Seq<char>, m: Move)
    ensures
        ({
            let u = table_after(t, ip, m);
            let p = row_from(t, ip, 0);
            &&& 0 <= p <= t.len()
            &&& row_from(u, ip, 0) == p
            &&& p < u.len()
            &&& u[p].peer == ip
            &&& p < t.len() ==> u[p] == next_row(t[p], m)
            &&& p == t.len() ==> u[p] == first_row(ip, m)
        }),
{
    law_a_move_changes_one_row(t, ip, m);
    lemma_row_from(t, ip, 0);
    let u = table_after(t, ip, m);
    let p = row_from(t, ip, 0);
    assert forall|j: int| 0 <= j < p implies (#[trigger] u[j]).peer != ip by {
        assert(u[j].peer == t[j].peer);
    }
    lemma_row_is(u, ip, p);
}

proof fn lemma_counted(
    t: Seq<Row>,
    ip: Seq<char>,
    file: Seq<char>,
    total: int,
    h: Seq<(Seq<char>, Move)>,
)
    requires
        1 <= total,
        forall|i: int| 0 <= i < t.len() && (#[trigger] t[i]).peer == ip ==> t[i].file != file,
        forall|i: int|
            0 <= i < h.len() && (#[trigger] h[i]).0 == ip ==> h[i].1.file == file && h[i].1.total
                == total && h[i].1.delta >= 0 && !h[i].1.force_done,
    ensures
        ({
            let u = table_after_all(t, h);
            let p = row_from(u, ip, 0);
            let sum = moved(h, ip);
            &&& 0 <= p <= u.len()
            &&& sum >= 0
            &&& has_move(h, ip) ==> {
                &&& p < u.len()
                &&& u[p].peer == ip
                &&& u[p].file == file
                &&& u[p].total == total
                &&& u[p].done == (if sum < total {
                    sum
                } else {
                    total
                })
                &&& u[p].finished ==> sum >= total
                &&& has_row(t, ip) ==> u[p].finished == (sum >= total)
            }
            &&& !has_move(h, ip) ==> {
                &&& p < u.len() ==> u[p].peer == ip && u[p].file != file
                &&& p < u.len() <==> has_row(t, ip)
            }
        }),
    decreases h.len(),
{
    if h.len() == 0 {
        lemma_row_from(t, ip, 0);
        let p = row_from(t, ip, 0);
        if has_row(t, ip) {
            let i = choose|i: int| 0 <= i < t.len() && (#[trigger] t[i]).peer == ip;
            assert(p <= i);
        }
    } else {
        let g = h.drop_last();
        assert forall|i: int| 0 <= i < g.len() && (#[trigger] g[i]).0 == ip implies g[i].1.file
            == file && g[i].1.total == total && g[i].1.delta >= 0 && !g[i].1.force_done by {
            assert(g[i] == h[i]);
        }
        lemma_counted(t, ip, file, total, g);
        let v = table_after_all(t, g);
        let (who, m) = h.last();
        if has_move(g, ip) {
            let i = choose|i: int| 0 <= i < g.len() && (#[trigger] g[i]).0 == ip;
            assert(h[i].0 == ip);
        }
        if who == ip {
            assert(h[h.len() - 1].0 == ip);
            lemma_own_row(v, ip, m);
            if !has_move(g, ip) {
                lemma_no_move(g, ip);
            }
        } else {
            lemma_other_row(v, ip, who, m);
            if has_move(h, ip) {
                let i = choose|i: int| 0 <= i < h.len() && (#[trigger] h[i]).0 == ip;
                assert(g[i].0 == ip);
            }
        }
    }
}

proof fn lemma_no_move(h: Seq<(Seq<char>, Move)>, ip: Seq<char>)
    requires
        !has_move(h, ip),
    ensures
        moved(h, ip) == 0,
    decreases h.len(),
{
    if h.len() > 0 {
        assert(h[h.len() - 1].0 != ip);
        assert forall|i: int| 0 <= i < h.drop_last().len() implies (#[trigger] h.drop_last()[i]).0
            != ip by {
            assert(h[i].0 != ip);
        }
        lemma_no_move(h.drop_last(), ip);
    }
}

/// A row says what moved since the device began the file, and no more: however the moves
/// of other devices come in between, and whatever the device moved before, its row names
/// the file it is at, shows the bytes of that file that moved, all of them up to the
/// whole, and is finished only when the whole has moved.
pub proof fn law_a_row_counts_what_moved(
    t: Seq<Row>,
    ip: Seq<char>,
    file: Seq<char>,
    total: int,
    h: Seq<(Seq<char>, Move)>,
)
    requires
        1 <= total,
        forall|i: int| 0 <= i < t.len() && (#[trigger] t[i]).peer == ip ==> t[i].file != file,
        forall|i: int|
            0 <= i < h.len() && (#[trigger] h[i]).0 == ip ==> h[i].1.file == file && h[i].1.total
                == total && h[i].1.delta >= 0 && !h[i].1.force_done,
        has_move(h, ip),
    ensures
        exists|p: int|
            0 <= p < table_after_all(t, h).len() && {
                let r = #[trigger] table_after_all(t, h)[p];
                let sum = moved(h, ip);
                &&& r.peer == ip
                &&& r.file == file
                &&& r.total == total
                &&& r.done == (if sum < total {
                    sum
                } else {
                    total
                })
                &&& r.finished ==> sum >= total
                &&& has_row(t, ip) ==> r.finished == (sum >= total)
            },
{
    lemma_counted(t, ip, file, total, h);
    let u = table_after_all(t, h);
    let p = row_from(u, ip, 0);
    assert(u[p].peer == ip);
}

/// A file that is declared done is done: its row is finished, and a row that was there
/// says all of it. One that is neither declared done nor whole is not.
pub proof fn law_done_is_done(r: Row, ip: Seq<char>, m: Move)
    requires
        m.delta >= 0,
        r.done >= 0,
    ensures
        m.force_done ==> next_row(r, m).finished && first_row(ip, m).finished,
        next_row(r, m).finished && m.total >= 1 ==> next_row(r, m).done == m.total,
        !m.force_done && r.file != m.file && m.delta < m.total ==> !next_row(r, m).finished
            && next_row(r, m).done == m.delta,
        !m.force_done && r.file == m.file && r.done + m.delta < m.total ==> !next_row(
            r,
            m,
        ).finished && next_row(r, m).done == r.done + m.delta,
        next_row(r, m).handing_in == m.handing_in && first_row(ip, m).handing_in == m.handing_in,
        next_row(r, m).updated == m.now && first_row(ip, m).updated == m.now,
{
}

/// A rate is of at least a whole second: the bytes of the window that has just closed,
/// over the time since it opened. Until one closes the last rate stands, and what moved
/// waits in the window. A second file opens a window of its own.
pub proof fn law_a_rate_is_of_a_whole_second(r: Row, m: Move)
    requires
        0 <= m.delta,
        0 <= r.window_bytes,
        r.window_bytes + m.delta <= u64::MAX,
        r.window_start <= m.now,
    ensures
        ({
            let x = next_row(r, m);
            let elapsed = m.now - r.window_start;
            &&& r.file == m.file && elapsed < 1_000_000_000 ==> {
                &&& x.rate_bytes == r.rate_bytes && x.rate_time == r.rate_time
                &&& x.window_bytes == r.window_bytes + m.delta
                &&& x.window_start == r.window_start
            }
            &&& r.file == m.file && elapsed >= 1_000_000_000 ==> {
                &&& x.rate_bytes == r.window_bytes + m.delta && x.rate_time == elapsed
                &&& x.window_bytes == 0
                &&& x.window_start == m.now
            }
            &&& r.file != m.file ==> {
                &&& x.window_bytes == m.delta
                &&& x.window_start == m.now
            }
        }),
{
}

/// A finished row is shown for twenty seconds and any other for sixty, and what is shown
/// is the rows that there were, in their order.
pub proof fn law_rows_linger(t: Seq<Row>, now: int, i: int)
    requires
        0 <= i < t.len(),
        t[i].updated <= now,
    ensures
        ({
            let age = now - t[i].updated;
            let recent = age < (if t[i].finished {
                20_000_000_000int
            } else {
                60_000_000_000int
            });
            &&& recent ==> shown_rows(t, now).contains(t[i])
            &&& !recent ==> shown_rows(seq![t[i]], now).len() == 0
            &&& shown_rows(t, now) == shown_rows(t.take(i), now) + shown_rows(seq![t[i]], now)
                + shown_rows(t.skip(i + 1), now)
            &&& shown_rows(seq![t[i]], now).len() > 0 ==> shown_rows(seq![t[i]], now) == seq![t[i]]
        }),
{
    let one = seq![t[i]];
    assert(one.drop_last() =~= Seq::empty());
    assert(shown_rows(one.drop_last(), now) =~= Seq::empty());
    if still_shown(t[i], now) {
        assert(shown_rows(one, now) =~= one);
    } else {
        assert(shown_rows(one, now) =~= Seq::empty());
    }
    lemma_shown_of_both(t.take(i), one + t.skip(i + 1), now);
    lemma_shown_of_both(one, t.skip(i + 1), now);
    assert(t.take(i) + (one + t.skip(i + 1)) =~= t);
    let a = shown_rows(t.take(i), now);
    let b = shown_rows(one, now);
    let c = shown_rows(t.skip(i + 1), now);
    assert(shown_rows(t, now) =~= a + b + c);
    if b.len() > 0 {
        assert((a + b + c)[a.len() as int] == t[i]);
    }
}

proof fn lemma_shown_of_both(a: Seq<Row>, b: Seq<Row>, now: int)
    ensures
        shown_rows(a + b, now) == shown_rows(a, now) + shown_rows(b, now),
    decreases b.len(),
{
    if b.len() == 0 {
        assert(a + b =~= a);
        assert(shown_rows(a, now) + shown_rows(b, now) =~= shown_rows(a, now));
    } else {
        assert((a + b).drop_last() =~= a + b.drop_last());
        lemma_shown_of_both(a, b.drop_last(), now);
        assert(shown_rows(a + b, now) =~= shown_rows(a, now) + shown_rows(b, now));
    }
}

/// A device is told by its address, whatever port it comes from.
pub proof fn law_the_port_makes_no_difference(ip: Seq<char>, port: Seq<char>)
    requires
        forall|i: int| 0 <= i < ip.len() ==> #[trigger] ip[i] != ':',
    ensures
        address_of(ip + seq![':'] + port) == ip,
        address_of(ip) == ip,
{
    assert(!ip.contains(':'));
    crate::text::law_a_text_is_cut_where_it_should(ip, ':', port);
}

} // verus!
