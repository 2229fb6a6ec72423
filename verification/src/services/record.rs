//! What was changed, written down first, so that it can be put back exactly as it
//! was.

use crate::number::{
    decimal, law_decimal_reads_back, lemma_decimal_not_empty, parse_decimal, push_decimal,
    unsigned,
};
use crate::services::found::{
    idle_ones, led_to, off_ones, plan, sc_word, start_word, Found,
};
use crate::text::{
    chars_of, is_space, lemma_first_word, lemma_lines_add, lemma_lines_first, lemma_only_word,
    lines, lower_all, same_ignoring_case, split_lines, split_words, string_of, text_of, texts,
    views, without_cr, words,
};
use vstd::prelude::*;

verus! {

/// Entries of the record as plain values.
pub open spec fn entries(v: Seq<(String, u32)>) -> Seq<(Seq<char>, int)> {
    Seq::new(v.len(), |i: int| (v[i].0@, v[i].1 as int))
}

/// Whether one of the lines from `i` on is about a service.
pub open spec fn listed(ls: Seq<Seq<char>>, i: int, name: Seq<char>) -> bool
    decreases ls.len() - i,
{
    if i >= ls.len() {
        false
    } else {
        (words(ls[i]).len() > 0 && lower_all(words(ls[i])[0]) == lower_all(name)) || listed(
            ls,
            i + 1,
            name,
        )
    }
}

/// The line for a service.
pub open spec fn entry_line(e: (Seq<char>, int)) -> Seq<char> {
    e.0 + seq![' '] + decimal(e.1) + seq!['\n']
}

/// What is added to a record for the first `n` changes: a line for each service
/// that is not in it yet.
pub open spec fn added(
    existing: Seq<char>,
    changes: Seq<(Seq<char>, int)>,
    n: int,
) -> Seq<char>
    decreases n,
{
    if n <= 0 {
        Seq::empty()
    } else if listed(lines(existing), 0, changes[n - 1].0) {
        added(existing, changes, n - 1)
    } else {
        added(existing, changes, n - 1) + entry_line(changes[n - 1])
    }
}

fn is_listed(ls: &Vec<&[char]>, name: &str) -> (r: bool)
    ensures
        r == listed(views(ls@), 0, name@),
{
    let n: Vec<char> = chars_of(name);
    let ghost all = views(ls@);
    let mut i: usize = 0;
    while i < ls.len()
        invariant
            n@ == name@,
            all == views(ls@),
            i <= ls.len(),
            listed(all, 0, name@) == listed(all, i as int, name@),
        decreases ls.len() - i,
    {
        assert(all[i as int] == ls@[i as int]@);
        let w: Vec<&[char]> = split_words(ls[i]);
        assert(w.len() == words(all[i as int]).len());
        if w.len() > 0 {
            assert(views(w@)[0] == w@[0]@);
            if same_ignoring_case(w[0], n.as_slice()) {
                return true;
            }
        }
        i = i + 1;
    }
    false
}

/// The record with these changes in it, a name and a number on each line. What is
/// in it already stays: a second change must not put the mended number in the place
/// of the true one.
pub fn merge_before(existing: &str, changed: &[(String, u32)]) -> (s: String)
    ensures
        s@ == existing@ + added(existing@, entries(changed@), changed.len() as int),
{
    let c: Vec<char> = chars_of(existing);
    let ls: Vec<&[char]> = split_lines(c.as_slice());
    let ghost all = entries(changed@);
    let mut s = String::new();
    s.append(existing);
    let mut i: usize = 0;
    assert(s@ =~= existing@ + added(existing@, all, 0));
    while i < changed.len()
        invariant
            all == entries(changed@),
            views(ls@) == lines(existing@),
            i <= changed.len(),
            s@ == existing@ + added(existing@, all, i as int),
        decreases changed.len() - i,
    {
        assert(all[i as int] == (changed@[i as int].0@, changed@[i as int].1 as int));
        if !is_listed(&ls, changed[i].0.as_str()) {
            s.append(changed[i].0.as_str());
            s.push(' ');
            push_decimal(&mut s, changed[i].1 as u64);
            s.push('\n');
            assert(s@ =~= existing@ + (added(existing@, all, i as int) + entry_line(
                all[i as int],
            )));
        }
        i = i + 1;
    }
    s
}

/// What a line of the record says.
pub open spec fn entry_on(line: Seq<char>) -> Option<(Seq<char>, int)> {
    let w = words(line);
    if w.len() < 2 {
        None
    } else {
        match unsigned(w[1], 10, 0xffff_ffff) {
            Some(n) => Some((w[0], n)),
            None => None,
        }
    }
}

/// What some lines of the record say.
pub open spec fn entries_on(ls: Seq<Seq<char>>) -> Seq<(Seq<char>, int)>
    decreases ls.len(),
{
    if ls.len() == 0 {
        Seq::empty()
    } else {
        match entry_on(ls.last()) {
            Some(e) => entries_on(ls.drop_last()).push(e),
            None => entries_on(ls.drop_last()),
        }
    }
}

/// What a record says.
pub open spec fn record_of(text: Seq<char>) -> Seq<(Seq<char>, int)> {
    entries_on(lines(text))
}

fn read_entry(line: &[char]) -> (r: Option<(String, u32)>)
    ensures
        r is Some <==> entry_on(line@) is Some,
        r matches Some(e) ==> entry_on(line@) == Some((e.0@, e.1 as int)),
{
    let w: Vec<&[char]> = split_words(line);
    assert(w.len() == words(line@).len());
    if w.len() < 2 {
        return None;
    }
    assert(views(w@)[0] == w@[0]@ && views(w@)[1] == w@[1]@);
    match parse_decimal(w[1], 0xffff_ffff) {
        Some(n) => Some((string_of(w[0]), n as u32)),
        None => None,
    }
}

/// What a record says: each service that was changed, and what it was before.
pub fn parse_before(text: &str) -> (out: Vec<(String, u32)>)
    ensures
        entries(out@) == record_of(text@),
{
    let c: Vec<char> = chars_of(text);
    let ls: Vec<&[char]> = split_lines(c.as_slice());
    let ghost all = lines(text@);
    let mut out: Vec<(String, u32)> = Vec::new();
    let mut i: usize = 0;
    assert(entries(out@) =~= entries_on(all.take(0)));
    while i < ls.len()
        invariant
            views(ls@) == all,
            i <= ls.len(),
            entries(out@) == entries_on(all.take(i as int)),
        decreases ls.len() - i,
    {
        assert(all[i as int] == ls@[i as int]@);
        assert(all.take(i + 1).drop_last() =~= all.take(i as int));
        if let Some(e) = read_entry(ls[i]) {
            let ghost before = out@;
            let ghost plain = (e.0@, e.1 as int);
            out.push(e);
            assert(entries(out@) =~= entries(before).push(plain));
        }
        i = i + 1;
    }
    assert(all.take(all.len() as int) =~= all);
    out
}

/// What is written down of the first `n` that are raised: how they were set.
pub open spec fn originals(found: Seq<Found>, n: int) -> Seq<(Seq<char>, int)> {
    let off = off_ones(found, n);
    Seq::new(off.len(), |i: int| (off[i].name@, off[i].start.unwrap() as int))
}

/// What is about to be changed and how it was: a line for each one that is switched
/// off.
pub fn changed(found: &[Found]) -> (out: Vec<(String, u32)>)
    ensures
        entries(out@) == originals(found@, found.len() as int),
{
    let mut out: Vec<(String, u32)> = Vec::new();
    let mut i: usize = 0;
    assert(entries(out@) =~= originals(found@, 0));
    while i < found.len()
        invariant
            i <= found.len(),
            entries(out@) == originals(found@, i as int),
        decreases found.len() - i,
    {
        if let Some(start) = found[i].start {
            if start > found[i].want {
                let ghost before = out@;
                let mut name = String::new();
                name.append(found[i].name.as_str());
                assert(name@ =~= found@[i as int].name@);
                let ghost plain = (name@, start as int);
                out.push((name, start));
                assert(entries(out@) =~= entries(before).push(plain));
                assert(originals(found@, i + 1) =~= originals(found@, i as int).push(plain));
            } else {
                assert(originals(found@, i + 1) =~= originals(found@, i as int));
            }
        } else {
            assert(originals(found@, i + 1) =~= originals(found@, i as int));
        }
        i = i + 1;
    }
    out
}

/// Commands as plain text.
pub open spec fn commands(v: Seq<Vec<String>>) -> Seq<Seq<Seq<char>>> {
    Seq::new(v.len(), |i: int| texts(v[i]@))
}

/// The command that raises a service to what works.
pub open spec fn raise_words(f: Found) -> Seq<Seq<char>> {
    seq!["config"@, f.name@, "start="@, start_word(f.want)]
}

/// The command that starts a service.
pub open spec fn start_words(f: Found) -> Seq<Seq<char>> {
    seq!["start"@, f.name@]
}

/// The commands that carry the plan out, in order: everything that is switched off
/// is raised, and then what is needed and not running is started.
pub fn raise_commands(found: &[Found]) -> (out: Vec<Vec<String>>)
    ensures
        commands(out@) == off_ones(found@, found.len() as int).map_values(
            |f: Found| raise_words(f),
        ) + idle_ones(found@, found.len() as int).map_values(|f: Found| start_words(f)),
{
    let (raise, start) = plan(found);
    let ghost off = off_ones(found@, found.len() as int);
    let ghost idle = idle_ones(found@, found.len() as int);
    let ghost first = off.map_values(|f: Found| raise_words(f));
    let ghost second = idle.map_values(|f: Found| start_words(f));
    let mut out: Vec<Vec<String>> = Vec::new();
    let mut i: usize = 0;
    assert(commands(out@) =~= first.take(0));
    while i < raise.len()
        invariant
            led_to(raise@) == off,
            first == off.map_values(|f: Found| raise_words(f)),
            i <= raise.len(),
            commands(out@) == first.take(i as int),
        decreases raise.len() - i,
    {
        assert(off[i as int] == led_to(raise@)[i as int]);
        let ghost before = out@;
        let mut c: Vec<String> = Vec::new();
        c.push(text_of("config"));
        c.push(text_of(raise[i].name.as_str()));
        c.push(text_of("start="));
        c.push(text_of(sc_word(raise[i].want)));
        assert(texts(c@) =~= raise_words(off[i as int]));
        out.push(c);
        assert(commands(out@) =~= commands(before).push(first[i as int]));
        i = i + 1;
        assert(first.take(i as int) =~= first.take(i - 1).push(first[i - 1]));
    }
    assert(led_to(raise@).len() == raise.len());
    assert(first.take(first.len() as int) =~= first);
    i = 0;
    assert(first + second.take(0) =~= first);
    while i < start.len()
        invariant
            led_to(start@) == idle,
            second == idle.map_values(|f: Found| start_words(f)),
            i <= start.len(),
            commands(out@) == first + second.take(i as int),
        decreases start.len() - i,
    {
        assert(idle[i as int] == led_to(start@)[i as int]);
        let ghost before = out@;
        let mut c: Vec<String> = Vec::new();
        c.push(text_of("start"));
        c.push(text_of(start[i].name.as_str()));
        assert(texts(c@) =~= start_words(idle[i as int]));
        out.push(c);
        assert(commands(out@) =~= commands(before).push(second[i as int]));
        i = i + 1;
        assert(first + second.take(i as int) =~= (first + second.take(i - 1)).push(second[i - 1]));
    }
    assert(led_to(start@).len() == start.len());
    assert(second.take(second.len() as int) =~= second);
    out
}

/// One service that is put back.
pub struct Step {
    /// The command that stops it first, where it was disabled.
    pub stop: Option<Vec<String>>,
    /// The command that sets it to what it was.
    pub config: Vec<String>,
}

/// A command, if there is one, as plain text.
pub open spec fn command_view(c: Option<Vec<String>>) -> Option<Seq<Seq<char>>> {
    match c {
        Some(c) => Some(texts(c@)),
        None => None,
    }
}

/// What puts a service back: stopped first where it was disabled, and then set to
/// what it was.
pub open spec fn step_for(e: (Seq<char>, int)) -> (Option<Seq<Seq<char>>>, Seq<Seq<char>>) {
    (
        if e.1 == 4 {
            Some(seq!["stop"@, e.0])
        } else {
            None
        },
        seq!["config"@, e.0, "start="@, start_word(e.1 as u32)],
    )
}

/// Steps as plain text.
pub open spec fn steps(v: Seq<Step>) -> Seq<(Option<Seq<Seq<char>>>, Seq<Seq<char>>)> {
    Seq::new(v.len(), |i: int| (command_view(v[i].stop), texts(v[i].config@)))
}

/// The steps that put everything back as it was, one for each line of the record.
pub fn put_back_steps(record: &str) -> (out: Vec<Step>)
    ensures
        steps(out@) == record_of(record@).map_values(|e: (Seq<char>, int)| step_for(e)),
{
    let before: Vec<(String, u32)> = parse_before(record);
    let ghost all = record_of(record@);
    let ghost goal = all.map_values(|e: (Seq<char>, int)| step_for(e));
    let mut out: Vec<Step> = Vec::new();
    let mut i: usize = 0;
    assert(steps(out@) =~= goal.take(0));
    while i < before.len()
        invariant
            entries(before@) == all,
            goal == all.map_values(|e: (Seq<char>, int)| step_for(e)),
            i <= before.len(),
            steps(out@) == goal.take(i as int),
        decreases before.len() - i,
    {
        assert(all[i as int] == entries(before@)[i as int]);
        let name: &str = before[i].0.as_str();
        let start: u32 = before[i].1;
        let stop: Option<Vec<String>> = if start == 4 {
            let mut c: Vec<String> = Vec::new();
            c.push(text_of("stop"));
            c.push(text_of(name));
            assert(texts(c@) =~= seq!["stop"@, name@]);
            Some(c)
        } else {
            None
        };
        let mut config: Vec<String> = Vec::new();
        config.push(text_of("config"));
        config.push(text_of(name));
        config.push(text_of("start="));
        config.push(text_of(sc_word(start)));
        assert(texts(config@) =~= seq!["config"@, name@, "start="@, start_word(start)]);
        assert((command_view(stop), texts(config@)) == goal[i as int]);
        let ghost earlier = out@;
        out.push(Step { stop, config });
        assert(steps(out@) =~= steps(earlier).push(goal[i as int]));
        i = i + 1;
        assert(goal.take(i as int) =~= goal.take(i - 1).push(goal[i - 1]));
    }
    assert(goal.take(goal.len() as int) =~= goal);
    out
}

// ------------------------------------------------------------- laws

proof fn lemma_entries_add(a: Seq<Seq<char>>, b: Seq<Seq<char>>)
    ensures
        entries_on(a + b) == entries_on(a) + entries_on(b),
    decreases b.len(),
{
    if b.len() == 0 {
        assert(a + b =~= a);
        assert(entries_on(a) + entries_on(b) =~= entries_on(a));
    } else {
        lemma_entries_add(a, b.drop_last());
        assert((a + b).drop_last() =~= a + b.drop_last());
        assert((a + b).last() == b.last());
        match entry_on(b.last()) {
            Some(e) => {
                assert(entries_on(a) + entries_on(b.drop_last()).push(e) =~= (entries_on(a)
                    + entries_on(b.drop_last())).push(e));
            },
            None => {},
        }
    }
}

/// The record keeps what was there first: whatever is merged into it, everything
/// that it said is still said, before anything new.
pub proof fn law_the_first_record_is_kept(existing: Seq<char>, changes: Seq<(Seq<char>, int)>)
    requires
        existing.len() > 0 ==> existing.last() == '\n',
    ensures
        ({
            let after = record_of(existing + added(existing, changes, changes.len() as int));
            &&& after.len() >= record_of(existing).len()
            &&& after.take(record_of(existing).len() as int) == record_of(existing)
        }),
{
    let more = added(existing, changes, changes.len() as int);
    lemma_lines_add(existing, more);
    lemma_entries_add(lines(existing), lines(more));
    let after = record_of(existing + more);
    assert(after.take(record_of(existing).len() as int) =~= record_of(existing));
}

/// Whether a name can stand on a line of the record.
pub open spec fn plain_name(name: Seq<char>) -> bool {
    name.len() > 0 && forall|i: int| 0 <= i < name.len() ==> !is_space(#[trigger] name[i])
}

proof fn lemma_entry_line(e: (Seq<char>, int))
    requires
        plain_name(e.0),
        0 <= e.1 <= 0xffff_ffff,
    ensures
        record_of(entry_line(e)) == seq![e],
{
    let d = decimal(e.1);
    law_decimal_reads_back(e.1, 0xffff_ffff);
    lemma_decimal_not_empty(e.1);
    let line = e.0 + seq![' '] + d;
    assert forall|i: int| 0 <= i < line.len() implies #[trigger] line[i] != '\n' by {
        if i < e.0.len() {
            assert(line[i] == e.0[i]);
            assert(!is_space(e.0[i]));
        } else if i > e.0.len() {
            assert(line[i] == d[i - e.0.len() - 1]);
        }
    }
    let none = Seq::<char>::empty();
    lemma_lines_first(line, none);
    assert(line + seq!['\n'] + none =~= entry_line(e));
    assert(line.last() == d.last());
    assert(without_cr(line) == line);
    assert(lines(none) =~= Seq::empty());
    assert(lines(entry_line(e)) =~= seq![line]);
    assert forall|i: int| 0 <= i < d.len() implies !is_space(#[trigger] d[i]) by {
        assert('0' <= d[i] <= '9');
    }
    lemma_first_word(e.0, ' ', d);
    lemma_only_word(d);
    assert(words(line) =~= seq![e.0, d]);
    assert(entry_on(line) == Some(e));
    let one = seq![line];
    assert(one.drop_last() =~= Seq::empty());
    assert(entries_on(one.drop_last()) =~= Seq::empty());
    assert(entries_on(one) =~= seq![e]);
}

proof fn lemma_added_alone(changes: Seq<(Seq<char>, int)>, n: int)
    requires
        0 <= n <= changes.len(),
        forall|i: int| 0 <= i < n ==> plain_name(#[trigger] changes[i].0),
        forall|i: int| 0 <= i < n ==> 0 <= (#[trigger] changes[i]).1 <= 0xffff_ffff,
    ensures
        record_of(added(Seq::empty(), changes, n)) == changes.take(n),
        ({
            let text = added(Seq::empty(), changes, n);
            text.len() > 0 ==> text.last() == '\n'
        }),
    decreases n,
{
    let none = Seq::<char>::empty();
    assert(lines(none) =~= Seq::empty());
    if n == 0 {
        assert(entries_on(lines(none)) =~= Seq::empty());
        assert(changes.take(0) =~= Seq::empty());
    } else {
        lemma_added_alone(changes, n - 1);
        let before = added(none, changes, n - 1);
        let e = changes[n - 1];
        assert(plain_name(changes[n - 1].0));
        assert(!listed(lines(none), 0, e.0));
        lemma_entry_line(e);
        lemma_lines_add(before, entry_line(e));
        lemma_entries_add(lines(before), lines(entry_line(e)));
        assert(changes.take(n) =~= changes.take(n - 1) + seq![e]);
        assert(entry_line(e).last() == '\n');
        assert((before + entry_line(e)).last() == '\n');
    }
}

/// A new record says exactly what was written into it: every name without white
/// space, with its number.
pub proof fn law_a_new_record_reads_back(changes: Seq<(Seq<char>, int)>)
    requires
        forall|i: int| 0 <= i < changes.len() ==> plain_name(#[trigger] changes[i].0),
        forall|i: int| 0 <= i < changes.len() ==> 0 <= (#[trigger] changes[i]).1 <= 0xffff_ffff,
    ensures
        record_of(added(Seq::empty(), changes, changes.len() as int)) == changes,
{
    lemma_added_alone(changes, changes.len() as int);
    assert(changes.take(changes.len() as int) =~= changes);
}

/// Nothing is raised that is not written down: for each service that is raised there
/// is a line that holds its name and how it was set.
pub proof fn law_every_change_is_written_down(found: Seq<Found>, n: int)
    ensures
        originals(found, n).len() == off_ones(found, n).len(),
        forall|k: int|
            0 <= k < off_ones(found, n).len() ==> #[trigger] originals(found, n)[k] == (
                off_ones(found, n)[k].name@,
                off_ones(found, n)[k].start.unwrap() as int,
            ),
{
}

/// A service is put back as it was: one that was disabled is stopped first and disabled
/// again, one that started by itself or when called is set to that; and what is raised is
/// set to what works.
pub proof fn law_services_are_put_back_as_they_were(name: Seq<char>, f: Found)
    ensures
        step_for((name, 4)).0 == Some(seq!["stop"@, name]),
        step_for((name, 4)).1 == seq!["config"@, name, "start="@, "disabled"@],
        step_for((name, 3)).0 is None,
        step_for((name, 3)).1 == seq!["config"@, name, "start="@, "demand"@],
        step_for((name, 2)).0 is None,
        step_for((name, 2)).1 == seq!["config"@, name, "start="@, "auto"@],
        f.want == 2 ==> raise_words(f) == seq!["config"@, f.name@, "start="@, "auto"@],
        f.want == 3 ==> raise_words(f) == seq!["config"@, f.name@, "start="@, "demand"@],
        start_words(f) == seq!["start"@, f.name@],
{
}

/// A service is in the record where a line begins with its name, in whatever case.
pub proof fn law_the_record_knows_what_it_names(ls: Seq<Seq<char>>, i: int, name: Seq<char>)
    requires
        0 <= i,
    ensures
        listed(ls, i, name) <==> exists|k: int|
            i <= k < ls.len() && words(#[trigger] ls[k]).len() > 0 && lower_all(words(ls[k])[0])
                == lower_all(name),
    decreases ls.len() - i,
{
    if i < ls.len() {
        law_the_record_knows_what_it_names(ls, i + 1, name);
        if listed(ls, i, name) && !(words(ls[i]).len() > 0 && lower_all(words(ls[i])[0])
            == lower_all(name)) {
            let k = choose|k: int|
                i + 1 <= k < ls.len() && words(#[trigger] ls[k]).len() > 0 && lower_all(
                    words(ls[k])[0],
                ) == lower_all(name);
            assert(i <= k < ls.len());
        }
    }
}

} // verus!
