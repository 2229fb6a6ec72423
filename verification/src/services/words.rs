//! What is said on the screen about the parts of Windows that are switched off.

use crate::services::found::{
    idle_ones, led_to, needed, needed_names, needs, off_ones, plan, Found, Need,
};
use crate::services::record::{entries, parse_before, record_of};
use crate::text::{
    chars_of, join, joined_by, lower_all, same_ignoring_case, same_text, str_view, string_of,
    text_of, text_view, texts, trim_end, trimmed_end,
};
use vstd::prelude::*;

verus! {

pub const ALL_ON: &'static str = "Everything the hub needs is switched on.";

pub const NOTHING_TO_DO: &'static str = "Everything the hub needs is switched on. Nothing to do.";

pub const OFF_HERE: &'static str = "Switched off on this computer:\n";

pub const STOOD_ON: &'static str = "something the hub needs stands on it";

pub const NO_PERMISSION: &'static str = "Nothing was changed: the permission was not given.";

pub const WOULD_NOT_START: &'static str = "\nWindows would not start the part that switches them on.\n\
     Right-click the Gorilla Hub icon, choose \"Run as administrator\",\n\
     and try again.";

pub const ALL_BACK: &'static str = "\nAll switched back on. The hub can make a wifi network and use a cable now.\n\
     \nTo put them back exactly as they were later:  hub services --put-back";

pub const STILL_THERE: &'static str = "\nThese are still switched off:\n";

pub const HELD_OFF: &'static str = "\nSomething is holding them off, often a company or school policy.\n\
     Whoever manages this laptop has to allow them.";

pub const NOTHING_TO_PUT_BACK: &'static str = "Nothing to put back: the hub has not changed anything here.";

pub const WOULD_NOT_PUT_BACK: &'static str = "Windows would not start the part that puts them back.";

pub const HOW_TO_FIX: &'static str = "\nTo switch them on:  hub services --fix   (Windows will ask permission)";

/// What came of asking for permission.
pub enum Elevated {
    /// The person said no, which is their answer and no failure.
    Declined,
    /// It could not be started.
    Failed,
    /// It ran. Whether it worked is decided by looking again.
    Done,
}

/// What a service is for, from the `i`th need on.
pub open spec fn purpose_from(
    v: Seq<(Seq<char>, Seq<char>, int, Seq<char>)>,
    i: int,
    name: Seq<char>,
) -> Seq<char>
    decreases v.len() - i,
{
    if i >= v.len() {
        STOOD_ON@
    } else if lower_all(v[i].0) == lower_all(name) {
        v[i].3
    } else {
        purpose_from(v, i + 1, name)
    }
}

fn purpose(v: &Vec<Need>, name: &str) -> (r: &'static str)
    requires
        needs(v@) == needed_names(),
    ensures
        r@ == purpose_from(needed_names(), 0, name@),
{
    let n: Vec<char> = chars_of(name);
    let ghost all = needed_names();
    let mut i: usize = 0;
    assert(needs(v@).len() == v@.len());
    while i < v.len()
        invariant
            n@ == name@,
            needs(v@) == all,
            all == needed_names(),
            i <= v.len(),
            purpose_from(all, 0, name@) == purpose_from(all, i as int, name@),
        decreases v.len() - i,
    {
        assert(needs(v@)[i as int] == all[i as int]);
        let c: Vec<char> = chars_of(v[i].name);
        if same_ignoring_case(c.as_slice(), n.as_slice()) {
            return v[i].for_what;
        }
        i = i + 1;
    }
    assert(needs(v@).len() == v@.len());
    STOOD_ON
}

/// What is said of a service that is switched off.
pub open spec fn off_lines(f: Found) -> Seq<char> {
    "  "@ + f.label@ + "  ("@ + f.name@ + ")\n    needed for "@ + purpose_from(
        needed_names(),
        0,
        f.name@,
    ) + "\n"@
}

/// What is said of the first `n` that are switched off.
pub open spec fn off_report(off: Seq<Found>, n: int) -> Seq<char>
    decreases n,
{
    if n <= 0 {
        Seq::empty()
    } else {
        off_report(off, n - 1) + off_lines(off[n - 1])
    }
}

/// What is switched off, in words for the person who reads the screen.
pub open spec fn report_of(found: Seq<Found>) -> Seq<char> {
    let off = off_ones(found, found.len() as int);
    if off.len() == 0 {
        ALL_ON@
    } else {
        OFF_HERE@ + off_report(off, off.len() as int)
    }
}

/// What is switched off, in words for the person who reads the screen, and what
/// each of it is needed for.
pub fn report(found: &[Found]) -> (s: String)
    ensures
        s@ == report_of(found@),
{
    let (off, _start) = plan(found);
    let ghost all = off_ones(found@, found.len() as int);
    assert(led_to(off@).len() == off@.len());
    if off.len() == 0 {
        return text_of(ALL_ON);
    }
    let v: Vec<Need> = needed();
    let mut s = text_of(OFF_HERE);
    let mut i: usize = 0;
    assert(s@ =~= OFF_HERE@ + off_report(all, 0));
    while i < off.len()
        invariant
            needs(v@) == needed_names(),
            led_to(off@) == all,
            i <= off.len(),
            s@ == OFF_HERE@ + off_report(all, i as int),
        decreases off.len() - i,
    {
        assert(all[i as int] == led_to(off@)[i as int]);
        let why: &'static str = purpose(&v, off[i].name.as_str());
        s.append("  ");
        s.append(off[i].label.as_str());
        s.append("  (");
        s.append(off[i].name.as_str());
        s.append(")\n    needed for ");
        s.append(why);
        s.append("\n");
        assert(s@ =~= OFF_HERE@ + (off_report(all, i as int) + off_lines(all[i as int])));
        i = i + 1;
    }
    s
}

/// Whether everything is as it has to be: nothing is switched off and nothing that
/// is needed stands still.
pub fn nothing_to_do(found: &[Found]) -> (r: bool)
    ensures
        r == (off_ones(found@, found.len() as int).len() == 0 && idle_ones(
            found@,
            found.len() as int,
        ).len() == 0),
{
    let (raise, start) = plan(found);
    assert(led_to(raise@).len() == raise@.len());
    assert(led_to(start@).len() == start@.len());
    raise.len() == 0 && start.len() == 0
}

/// The lines for the first `n` that are still off.
pub open spec fn still_lines(off: Seq<Found>, n: int) -> Seq<char>
    decreases n,
{
    if n <= 0 {
        Seq::empty()
    } else {
        still_lines(off, n - 1) + "  "@ + off[n - 1].label@ + "  ("@ + off[n - 1].name@ + ")\n"@
    }
}

/// What is said after everything was to be switched on.
pub open spec fn outcome_of(after: Seq<Found>) -> Seq<char> {
    let still = off_ones(after, after.len() as int);
    if still.len() == 0 {
        ALL_BACK@
    } else {
        STILL_THERE@ + still_lines(still, still.len() as int) + HELD_OFF@
    }
}

fn push_outcome(s: &mut String, after: &[Found])
    ensures
        final(s)@ == old(s)@ + outcome_of(after@),
{
    let ghost start = s@;
    let (still, _idle) = plan(after);
    let ghost all = off_ones(after@, after.len() as int);
    assert(led_to(still@).len() == still@.len());
    if still.len() == 0 {
        s.append(ALL_BACK);
        return;
    }
    s.append(STILL_THERE);
    let mut i: usize = 0;
    assert(s@ =~= start + (STILL_THERE@ + still_lines(all, 0)));
    while i < still.len()
        invariant
            led_to(still@) == all,
            i <= still.len(),
            s@ == start + (STILL_THERE@ + still_lines(all, i as int)),
        decreases still.len() - i,
    {
        assert(all[i as int] == led_to(still@)[i as int]);
        s.append("  ");
        s.append(still[i].label.as_str());
        s.append("  (");
        s.append(still[i].name.as_str());
        s.append(")\n");
        i = i + 1;
        assert(s@ =~= start + (STILL_THERE@ + still_lines(all, i as int)));
    }
    s.append(HELD_OFF);
    assert(s@ =~= start + outcome_of(after@));
}

/// What is said of a mending: what was off, what came of asking for permission, and
/// what was found afterwards.
pub open spec fn fix_words(before: Seq<Found>, asked: Elevated, after: Seq<Found>) -> Seq<char> {
    if off_ones(before, before.len() as int).len() == 0 && idle_ones(
        before,
        before.len() as int,
    ).len() == 0 {
        NOTHING_TO_DO@
    } else {
        report_of(before) + (match asked {
            Elevated::Declined => "\n"@ + NO_PERMISSION@,
            Elevated::Failed => WOULD_NOT_START@,
            Elevated::Done => outcome_of(after),
        })
    }
}

/// What is said of a mending. Whether it worked is decided by what was found
/// afterwards, not by what the part that did it says.
pub fn fix(before: &[Found], asked: Elevated, after: &[Found]) -> (s: String)
    ensures
        s@ == fix_words(before@, asked, after@),
{
    if nothing_to_do(before) {
        return text_of(NOTHING_TO_DO);
    }
    let mut s: String = report(before);
    match asked {
        Elevated::Declined => {
            s.append("\n");
            s.append(NO_PERMISSION);
        },
        Elevated::Failed => {
            s.append(WOULD_NOT_START);
        },
        Elevated::Done => {
            push_outcome(&mut s, after);
        },
    }
    assert(s@ =~= fix_words(before@, asked, after@));
    s
}

/// The code with which the part that switches things on ends: zero where nothing is
/// left switched off, and three where no record could be written, so that nothing
/// was changed.
pub fn apply_code(recorded: bool, after: &[Found]) -> (r: i32)
    ensures
        r == (if !recorded {
            3int
        } else if off_ones(after@, after.len() as int).len() == 0 {
            0
        } else {
            1
        }),
{
    if !recorded {
        return 3;
    }
    let (off, _idle) = plan(after);
    assert(led_to(off@).len() == off@.len());
    if off.len() == 0 {
        0
    } else {
        1
    }
}

/// The names of the first `n` entries.
pub open spec fn entry_names(before: Seq<(Seq<char>, int)>) -> Seq<Seq<char>> {
    Seq::new(before.len(), |i: int| before[i].0)
}

/// How a service is set now, by its place in the record.
pub open spec fn now_at(now: Seq<Option<u32>>, i: int) -> Option<int> {
    if 0 <= i < now.len() && now[i] is Some {
        Some(now[i].unwrap() as int)
    } else {
        None
    }
}

/// The names of those of the first `n` that are not as they were.
pub open spec fn wrong_ones(before: Seq<(Seq<char>, int)>, now: Seq<Option<u32>>, n: int) -> Seq<
    Seq<char>,
>
    decreases n,
{
    if n <= 0 {
        Seq::empty()
    } else if now_at(now, n - 1) != Some(before[n - 1].1) {
        wrong_ones(before, now, n - 1).push(before[n - 1].0)
    } else {
        wrong_ones(before, now, n - 1)
    }
}

/// What is said after everything was to be put back.
pub open spec fn put_back_words(
    record: Option<Seq<char>>,
    asked: Elevated,
    now: Seq<Option<u32>>,
) -> Seq<char> {
    match record {
        None => NOTHING_TO_PUT_BACK@,
        Some(text) => match asked {
            Elevated::Declined => NO_PERMISSION@,
            Elevated::Failed => WOULD_NOT_PUT_BACK@,
            Elevated::Done => {
                let before = record_of(text);
                let wrong = wrong_ones(before, now, before.len() as int);
                if wrong.len() == 0 {
                    "Put back as they were: "@ + joined_by(entry_names(before), ", "@) + "."@
                } else {
                    "These could not be put back: "@ + joined_by(wrong, ", "@) + "."@
                }
            },
        },
    }
}

fn put_back_outcome(text: &str, now: &[Option<u32>]) -> (s: String)
    ensures
        s@ == put_back_words(Some(text@), Elevated::Done, now@),
{
    let before: Vec<(String, u32)> = parse_before(text);
    let ghost all = record_of(text@);
    let mut names: Vec<String> = Vec::new();
    let mut wrong: Vec<String> = Vec::new();
    let mut i: usize = 0;
    assert(entries(before@).len() == before@.len());
    assert(texts(names@) =~= entry_names(all).take(0));
    assert(texts(wrong@) =~= wrong_ones(all, now@, 0));
    while i < before.len()
        invariant
            entries(before@) == all,
            i <= before.len(),
            texts(names@) == entry_names(all).take(i as int),
            texts(wrong@) == wrong_ones(all, now@, i as int),
        decreases before.len() - i,
    {
        assert(all[i as int] == entries(before@)[i as int]);
        let ghost names_before = names@;
        let ghost wrong_before = wrong@;
        let name: String = text_of(before[i].0.as_str());
        let is_now: Option<u32> = if i < now.len() {
            now[i]
        } else {
            None
        };
        let right: bool = match is_now {
            Some(n) => n == before[i].1,
            None => false,
        };
        if !right {
            wrong.push(text_of(before[i].0.as_str()));
            assert(texts(wrong@) =~= texts(wrong_before).push(all[i as int].0));
        }
        names.push(name);
        assert(texts(names@) =~= texts(names_before).push(all[i as int].0));
        i = i + 1;
        assert(entry_names(all).take(i as int) =~= entry_names(all).take(i - 1).push(
            all[i - 1].0,
        ));
    }
    assert(entries(before@).len() == before@.len());
    assert(entry_names(all).take(all.len() as int) =~= entry_names(all));
    assert(texts(wrong@).len() == wrong@.len());
    let ghost goal = put_back_words(Some(text@), Elevated::Done, now@);
    if wrong.len() == 0 {
        let mut s = text_of("Put back as they were: ");
        let list: String = join(&names, ", ");
        s.append(list.as_str());
        s.append(".");
        assert(s@ =~= goal);
        s
    } else {
        let mut s = text_of("These could not be put back: ");
        let list: String = join(&wrong, ", ");
        s.append(list.as_str());
        s.append(".");
        assert(s@ =~= goal);
        s
    }
}

/// What is said after everything was to be put back: from the record, if there is
/// one, what came of asking for permission, and how each service in it is set now.
pub fn put_back(record: Option<&str>, asked: Elevated, now: &[Option<u32>]) -> (s: String)
    ensures
        s@ == put_back_words(str_view(record), asked, now@),
{
    match record {
        None => text_of(NOTHING_TO_PUT_BACK),
        Some(text) => match asked {
            Elevated::Declined => text_of(NO_PERMISSION),
            Elevated::Failed => text_of(WOULD_NOT_PUT_BACK),
            Elevated::Done => put_back_outcome(text, now),
        },
    }
}

/// What is printed of how things are: the report, and how to mend it where
/// something is off.
pub fn status(found: &[Found]) -> (r: (String, Option<String>))
    ensures
        r.0@ == trimmed_end(report_of(found@)),
        text_view(r.1) == (if off_ones(found@, found.len() as int).len() > 0 {
            Some(HOW_TO_FIX@)
        } else {
            None
        }),
{
    let t: String = report(found);
    let c: Vec<char> = chars_of(t.as_str());
    let (off, _idle) = plan(found);
    assert(led_to(off@).len() == off@.len());
    (
        string_of(trim_end(c.as_slice())),
        if off.len() > 0 {
            Some(text_of(HOW_TO_FIX))
        } else {
            None
        },
    )
}

/// What the command is asked to do.
pub enum Order {
    /// Switch things on, with permission already given, and this record.
    Apply(Option<String>),
    /// Put things back, with permission already given, from this record.
    Restore(Option<String>),
    Fix,
    PutBack,
    Status,
}

/// An order as plain values.
pub open spec fn order_of(args: Seq<Seq<char>>) -> (int, Option<Seq<char>>) {
    let record = if args.len() > 2 {
        Some(args[2])
    } else {
        None
    };
    if args.len() < 2 {
        (4, None)
    } else if args[1] == "--apply-elevated"@ {
        (0, record)
    } else if args[1] == "--put-back-elevated"@ {
        (1, record)
    } else if args[1] == "--fix"@ {
        (2, None)
    } else if args[1] == "--put-back"@ {
        (3, None)
    } else {
        (4, None)
    }
}

/// What an order is, as plain values.
pub open spec fn order_view(o: Order) -> (int, Option<Seq<char>>) {
    match o {
        Order::Apply(r) => (0, text_view(r)),
        Order::Restore(r) => (1, text_view(r)),
        Order::Fix => (2, None),
        Order::PutBack => (3, None),
        Order::Status => (4, None),
    }
}

/// What the words of a command ask for. The first word is the command itself.
pub fn run(args: &Vec<String>) -> (o: Order)
    ensures
        order_view(o) == order_of(texts(args@)),
{
    assert(texts(args@).len() == args@.len());
    if args.len() < 2 {
        return Order::Status;
    }
    assert(texts(args@)[1] == args@[1]@);
    let record: Option<String> = if args.len() > 2 {
        assert(texts(args@)[2] == args@[2]@);
        Some(text_of(args[2].as_str()))
    } else {
        None
    };
    let what: &str = args[1].as_str();
    if same_text(what, "--apply-elevated") {
        Order::Apply(record)
    } else if same_text(what, "--put-back-elevated") {
        Order::Restore(record)
    } else if same_text(what, "--fix") {
        Order::Fix
    } else if same_text(what, "--put-back") {
        Order::PutBack
    } else {
        Order::Status
    }
}

/// What a service is for is told by its name, in whatever case; one that nothing was said of
/// is told as what something stands on.
pub proof fn law_what_a_service_is_for(
    v: Seq<(Seq<char>, Seq<char>, int, Seq<char>)>,
    i: int,
    name: Seq<char>,
)
    requires
        0 <= i <= v.len(),
    ensures
        forall|k: int|
            i <= k < v.len() && lower_all((#[trigger] v[k]).0) == lower_all(name) && (forall|j: int|
                i <= j < k ==> lower_all((#[trigger] v[j]).0) != lower_all(name)) ==> purpose_from(
                v,
                i,
                name,
            ) == v[k].3,
        (forall|j: int| i <= j < v.len() ==> lower_all((#[trigger] v[j]).0) != lower_all(name))
            ==> purpose_from(v, i, name) == "something the hub needs stands on it"@,
    decreases v.len() - i,
{
    if i < v.len() {
        law_what_a_service_is_for(v, i + 1, name);
    }
}

/// A computer on which nothing is off is told so, before and after; on any other, each
/// service that is off is named.
pub proof fn law_everything_that_is_off_is_told(found: Seq<Found>)
    ensures
        (forall|i: int| 0 <= i < found.len() ==> !(#[trigger] found[i]).is_off()) ==> report_of(found)
            == ALL_ON@ && outcome_of(found) == ALL_BACK@,
        ({
            let off = off_ones(found, found.len() as int);
            off.len() > 0 ==> report_of(found) == OFF_HERE@ + off_report(off, off.len() as int)
                && outcome_of(found) == STILL_THERE@ + still_lines(off, off.len() as int) + HELD_OFF@
        }),
{
    if forall|i: int| 0 <= i < found.len() ==> !(#[trigger] found[i]).is_off() {
        lemma_none_off(found, found.len() as int);
    }
}

proof fn lemma_none_off(found: Seq<Found>, n: int)
    requires
        0 <= n <= found.len(),
        forall|i: int| 0 <= i < n ==> !(#[trigger] found[i]).is_off(),
    ensures
        off_ones(found, n).len() == 0,
    decreases n,
{
    if n > 0 {
        lemma_none_off(found, n - 1);
    }
}

/// A service that is off is told by its label, its name in brackets and, on the next line,
/// what it is needed for.
pub proof fn law_a_service_that_is_off_is_told(f: Found)
    ensures
        off_lines(f) == seq![' ', ' '] + f.label@ + seq![' ', ' ', '('] + f.name@ + seq![')', '\n']
            + "    needed for "@ + purpose_from(needed_names(), 0, f.name@) + seq!['\n'],
{
    assert("  "@ =~= seq![' ', ' '] && "  ("@ =~= seq![' ', ' ', '('] && "\n"@ =~= seq!['\n']
        && ")\n    needed for "@ =~= seq![')', '\n'] + "    needed for "@) by {
        reveal_strlit("  ");
        reveal_strlit("  (");
        reveal_strlit("\n");
        reveal_strlit(")\n    needed for ");
        reveal_strlit("    needed for ");
    }
    let a = seq![' ', ' '] + f.label@ + seq![' ', ' ', '('] + f.name@;
    assert(a + (seq![')', '\n'] + "    needed for "@) =~= a + seq![')', '\n'] + "    needed for "@);
}

} // verus!
