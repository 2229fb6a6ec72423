//! What is needed, what it stands on, and how it was found.
//!
//! Numbers are read, never words: the words are translated, and the numbers are the
//! same in every language.

use crate::text::{
    begins_with, chars_of, contains_text, cut, holds, is_space, is_text,
    law_a_text_is_cut_where_it_should, law_pieces_between_a_text,
    law_trimming_takes_what_stands_round, law_white_space_is_no_word, lemma_first_word,
    lemma_holds_middle, lemma_nothing_to_trim, lines, lower_all, pieces_by, same_ignoring_case,
    split_lines, split_once, split_text, split_words, starts_with_text, string_of, texts, trim,
    trim_start, trimmed, trimmed_start, views, words,
};
use vstd::prelude::*;

verus! {

/// A service that the hub needs, and what a fresh Windows sets it to: 2 starts by
/// itself, 3 starts when something asks for it.
pub struct Need {
    pub name: &'static str,
    pub label: &'static str,
    pub start: u32,
    pub for_what: &'static str,
}

/// The services that are needed, in order.
pub open spec fn needed_names() -> Seq<(Seq<char>, Seq<char>, int, Seq<char>)> {
    seq![
        ("icssvc"@, "Windows Mobile Hotspot Service"@, 3, "making a wifi network"@),
        ("SharedAccess"@, "Internet Connection Sharing"@, 3, "making a wifi network"@),
        ("WlanSvc"@, "WLAN AutoConfig"@, 2, "wifi at all"@),
        ("Wcmsvc"@, "Windows Connection Manager"@, 2, "wifi and the hotspot"@),
        ("BFE"@, "Base Filtering Engine"@, 2, "connection sharing and the firewall"@),
        ("Dhcp"@, "DHCP Client"@, 2, "getting an address, on wifi and on a cable"@),
        ("Dnscache"@, "DNS Client"@, 2, "names, including gorilla.local"@),
    ]
}

/// Needs as plain values.
pub open spec fn needs(v: Seq<Need>) -> Seq<(Seq<char>, Seq<char>, int, Seq<char>)> {
    Seq::new(v.len(), |i: int| (v[i].name@, v[i].label@, v[i].start as int, v[i].for_what@))
}

/// The services that are needed: two that were measured to matter, and what those
/// and the hub itself stand on.
pub fn needed() -> (v: Vec<Need>)
    ensures
        needs(v@) == needed_names(),
{
    let v: Vec<Need> = vec![
        Need {
            name: "icssvc",
            label: "Windows Mobile Hotspot Service",
            start: 3,
            for_what: "making a wifi network",
        },
        Need {
            name: "SharedAccess",
            label: "Internet Connection Sharing",
            start: 3,
            for_what: "making a wifi network",
        },
        Need { name: "WlanSvc", label: "WLAN AutoConfig", start: 2, for_what: "wifi at all" },
        Need {
            name: "Wcmsvc",
            label: "Windows Connection Manager",
            start: 2,
            for_what: "wifi and the hotspot",
        },
        Need {
            name: "BFE",
            label: "Base Filtering Engine",
            start: 2,
            for_what: "connection sharing and the firewall",
        },
        Need {
            name: "Dhcp",
            label: "DHCP Client",
            start: 2,
            for_what: "getting an address, on wifi and on a cable",
        },
        Need {
            name: "Dnscache",
            label: "DNS Client",
            start: 2,
            for_what: "names, including gorilla.local",
        },
    ];
    assert(needs(v@) =~= needed_names());
    v
}

/// One service as it was found.
#[derive(Clone, Debug, PartialEq)]
pub struct Found {
    pub name: String,
    pub label: String,
    /// How it starts. Nothing where it is not installed.
    pub start: Option<u32>,
    pub running: bool,
    /// The most switched off that it may be and still work.
    pub want: u32,
    /// Needed itself, rather than stood on. Only these are started; the others
    /// start when these ask for them.
    pub named: bool,
}

impl Found {
    /// Switched further off than works: a larger number is further off.
    pub open spec fn is_off(self) -> bool {
        self.start is Some && self.start.unwrap() > self.want
    }

    /// Needed itself, installed, and not running.
    pub open spec fn is_idle(self) -> bool {
        self.named && self.start is Some && !self.running
    }

    /// Whether it is switched further off than works.
    pub fn switched_off(&self) -> (r: bool)
        ensures
            r == self.is_off(),
    {
        match self.start {
            Some(s) => s > self.want,
            None => false,
        }
    }
}

/// The word for how a service starts, in the command's own syntax.
pub open spec fn start_word(start: u32) -> Seq<char> {
    if start == 0 {
        "boot"@
    } else if start == 1 {
        "system"@
    } else if start == 2 {
        "auto"@
    } else if start == 3 {
        "demand"@
    } else {
        "disabled"@
    }
}

/// The word for how a service starts, in the command's own syntax.
pub fn sc_word(start: u32) -> (w: &'static str)
    ensures
        w@ == start_word(start),
{
    if start == 0 {
        "boot"
    } else if start == 1 {
        "system"
    } else if start == 2 {
        "auto"
    } else if start == 3 {
        "demand"
    } else {
        "disabled"
    }
}

/// Where the registry keeps a service.
pub fn key(name: &str) -> (s: String)
    ensures
        s@ == "HKLM\\SYSTEM\\CurrentControlSet\\Services\\"@ + name@,
{
    let mut s = String::new();
    s.append("HKLM\\SYSTEM\\CurrentControlSet\\Services\\");
    s.append(name);
    assert(s@ =~= "HKLM\\SYSTEM\\CurrentControlSet\\Services\\"@ + name@);
    s
}

// ------------------------------------------------------------- reading

/// The services among the first `n` pieces: those that are not empty and not a
/// group.
pub open spec fn service_names(parts: Seq<Seq<char>>, n: int) -> Seq<Seq<char>>
    decreases n,
{
    if n <= 0 {
        Seq::empty()
    } else {
        let t = trimmed(parts[n - 1]);
        if t.len() > 0 && t[0] != '+' {
            service_names(parts, n - 1).push(t)
        } else {
            service_names(parts, n - 1)
        }
    }
}

/// The services that the first line from `i` on with a list names.
pub open spec fn stood_on(ls: Seq<Seq<char>>, i: int) -> Seq<Seq<char>>
    decreases ls.len() - i,
{
    if i >= ls.len() {
        Seq::empty()
    } else {
        let parts = pieces_by(ls[i], "REG_MULTI_SZ"@);
        if holds(ls[i], "REG_MULTI_SZ"@) && parts.len() > 1 {
            let items = pieces_by(trimmed(parts[1]), "\\0"@);
            service_names(items, items.len() as int)
        } else {
            stood_on(ls, i + 1)
        }
    }
}

fn names_in(value: &[char]) -> (out: Vec<String>)
    ensures
        texts(out@) == service_names(
            pieces_by(value@, "\\0"@),
            pieces_by(value@, "\\0"@).len() as int,
        ),
{
    proof {
        reveal_strlit("\\0");
    }
    let parts: Vec<&[char]> = split_text(value, "\\0");
    let ghost all = pieces_by(value@, "\\0"@);
    let mut out: Vec<String> = Vec::new();
    let mut i: usize = 0;
    assert(texts(out@) =~= service_names(all, 0));
    while i < parts.len()
        invariant
            views(parts@) == all,
            i <= parts.len(),
            texts(out@) == service_names(all, i as int),
        decreases parts.len() - i,
    {
        assert(all[i as int] == parts@[i as int]@);
        let t: &[char] = trim(parts[i]);
        if t.len() > 0 && t[0] != '+' {
            let ghost before = out@;
            let name: String = string_of(t);
            out.push(name);
            assert(texts(out@) =~= texts(before).push(t@));
        }
        i = i + 1;
    }
    out
}

/// The services that another stands on, from the registry's answer: one line with
/// the names between marks. A name with a plus is a group and no service.
pub fn dependencies_from(text: &str) -> (out: Vec<String>)
    ensures
        texts(out@) == stood_on(lines(text@), 0),
{
    proof {
        reveal_strlit("REG_MULTI_SZ");
    }
    let c: Vec<char> = chars_of(text);
    let ls: Vec<&[char]> = split_lines(c.as_slice());
    let ghost all = lines(text@);
    let mut i: usize = 0;
    while i < ls.len()
        invariant
            "REG_MULTI_SZ"@.len() > 0,
            views(ls@) == all,
            all == lines(text@),
            i <= ls.len(),
            stood_on(all, 0) == stood_on(all, i as int),
        decreases ls.len() - i,
    {
        assert(all[i as int] == ls@[i as int]@);
        let parts: Vec<&[char]> = split_text(ls[i], "REG_MULTI_SZ");
        assert(parts.len() == pieces_by(all[i as int], "REG_MULTI_SZ"@).len());
        if contains_text(ls[i], "REG_MULTI_SZ") && parts.len() > 1 {
            assert(views(parts@)[1] == parts@[1]@);
            return names_in(trim(parts[1]));
        }
        i = i + 1;
    }
    let out: Vec<String> = Vec::new();
    assert(texts(out@) =~= Seq::<Seq<char>>::empty());
    out
}

/// Whether the first line from `i` on with a state says that it is running.
pub open spec fn state_four(ls: Seq<Seq<char>>, i: int) -> bool
    decreases ls.len() - i,
{
    if i >= ls.len() {
        false
    } else {
        let t = trimmed_start(ls[i]);
        if begins_with(t, "STATE"@) && cut(t, ':') is Some {
            let w = words(cut(t, ':').unwrap().1);
            w.len() > 0 && w[0] == "4"@
        } else {
            state_four(ls, i + 1)
        }
    }
}

/// Whether a service is running, read as the number on its line of state: the word
/// behind the number is translated.
pub fn running_from(text: &str) -> (r: bool)
    ensures
        r == state_four(lines(text@), 0),
{
    let c: Vec<char> = chars_of(text);
    let ls: Vec<&[char]> = split_lines(c.as_slice());
    let ghost all = lines(text@);
    let mut i: usize = 0;
    while i < ls.len()
        invariant
            views(ls@) == all,
            all == lines(text@),
            i <= ls.len(),
            state_four(all, 0) == state_four(all, i as int),
        decreases ls.len() - i,
    {
        assert(all[i as int] == ls@[i as int]@);
        let t: &[char] = trim_start(ls[i]);
        if starts_with_text(t, "STATE") {
            if let Some((_, rest)) = split_once(t, ':') {
                let w: Vec<&[char]> = split_words(rest);
                assert(w.len() == words(rest@).len());
                if w.len() == 0 {
                    return false;
                }
                assert(views(w@)[0] == w@[0]@);
                return is_text(w[0], "4");
            }
        }
        i = i + 1;
    }
    false
}

// ------------------------------------------------------------- the walk

/// A service that is still to be looked at.
pub struct Ask {
    pub name: String,
    pub label: String,
    pub want: u32,
    pub named: bool,
}

/// A question as plain values.
pub open spec fn ask_view(a: Ask) -> (Seq<char>, Seq<char>, int, bool) {
    (a.name@, a.label@, a.want as int, a.named)
}

/// Questions as plain values.
pub open spec fn asks(v: Seq<Ask>) -> Seq<(Seq<char>, Seq<char>, int, bool)> {
    Seq::new(v.len(), |i: int| ask_view(v[i]))
}

/// What was found as plain values.
pub open spec fn found_names(v: Seq<Found>) -> Seq<Seq<char>> {
    Seq::new(v.len(), |i: int| v[i].name@)
}

/// The names of questions.
pub open spec fn ask_names(v: Seq<(Seq<char>, Seq<char>, int, bool)>) -> Seq<Seq<char>> {
    Seq::new(v.len(), |i: int| v[i].0)
}

/// Whether a name is among some, but for the case of Latin letters.
pub open spec fn among(names: Seq<Seq<char>>, name: Seq<char>) -> bool {
    exists|i: int|
        0 <= i < names.len() && lower_all(#[trigger] names[i]) == lower_all(name)
}

/// The questions that are left once those at the front whose answer is known have
/// been passed over.
pub open spec fn unanswered(
    known: Seq<Seq<char>>,
    queue: Seq<(Seq<char>, Seq<char>, int, bool)>,
) -> Seq<(Seq<char>, Seq<char>, int, bool)>
    decreases queue.len(),
{
    if queue.len() > 0 && among(known, queue[0].0) {
        unanswered(known, queue.skip(1))
    } else {
        queue
    }
}

/// The questions after the first `n` of the services that `name` stands on have
/// been added: each one that is neither answered nor asked yet.
pub open spec fn with_dependencies(
    known: Seq<Seq<char>>,
    queue: Seq<(Seq<char>, Seq<char>, int, bool)>,
    name: Seq<char>,
    deps: Seq<Seq<char>>,
    n: int,
) -> Seq<(Seq<char>, Seq<char>, int, bool)>
    decreases n,
{
    if n <= 0 {
        queue
    } else {
        let before = with_dependencies(known, queue, name, deps, n - 1);
        let dep = deps[n - 1];
        if among(known, dep) || among(ask_names(before), dep) {
            before
        } else {
            before.push((dep, dep + " (needed by "@ + name + ")"@, 3, false))
        }
    }
}

/// What is asked first: each service that is needed.
pub open spec fn first_questions() -> Seq<(Seq<char>, Seq<char>, int, bool)> {
    Seq::new(
        needed_names().len(),
        |i: int| (needed_names()[i].0, needed_names()[i].1, needed_names()[i].2, true),
    )
}

/// A walk over what is needed and everything that stands under it. What it stands
/// on is read and not listed: another laptop may have had something else switched
/// off.
pub struct Walk {
    pub out: Vec<Found>,
    pub queue: Vec<Ask>,
}

fn has_found(out: &Vec<Found>, name: &str) -> (r: bool)
    ensures
        r == among(found_names(out@), name@),
{
    let n: Vec<char> = chars_of(name);
    let ghost all = found_names(out@);
    let mut i: usize = 0;
    while i < out.len()
        invariant
            n@ == name@,
            all == found_names(out@),
            i <= out.len(),
            forall|k: int| 0 <= k < i ==> lower_all(#[trigger] all[k]) != lower_all(name@),
        decreases out.len() - i,
    {
        let c: Vec<char> = chars_of(out[i].name.as_str());
        assert(all[i as int] == c@);
        if same_ignoring_case(c.as_slice(), n.as_slice()) {
            return true;
        }
        i = i + 1;
    }
    false
}

fn has_asked(queue: &Vec<Ask>, name: &str) -> (r: bool)
    ensures
        r == among(ask_names(asks(queue@)), name@),
{
    let n: Vec<char> = chars_of(name);
    let ghost all = ask_names(asks(queue@));
    let mut i: usize = 0;
    while i < queue.len()
        invariant
            n@ == name@,
            all == ask_names(asks(queue@)),
            i <= queue.len(),
            forall|k: int| 0 <= k < i ==> lower_all(#[trigger] all[k]) != lower_all(name@),
        decreases queue.len() - i,
    {
        let c: Vec<char> = chars_of(queue[i].name.as_str());
        assert(all[i as int] == c@);
        if same_ignoring_case(c.as_slice(), n.as_slice()) {
            return true;
        }
        i = i + 1;
    }
    false
}

impl Walk {
    /// What was found so far.
    pub open spec fn known(self) -> Seq<Seq<char>> {
        found_names(self.out@)
    }

    /// A walk that asks first for everything that is needed.
    pub fn new() -> (w: Walk)
        ensures
            w.out@.len() == 0,
            asks(w.queue@) == first_questions(),
    {
        let v: Vec<Need> = needed();
        let mut queue: Vec<Ask> = Vec::new();
        let mut i: usize = 0;
        while i < v.len()
            invariant
                needs(v@) == needed_names(),
                i <= v.len(),
                queue.len() == i,
                forall|k: int|
                    0 <= k < i ==> ask_view(#[trigger] queue@[k]) == first_questions()[k],
            decreases v.len() - i,
        {
            assert(needs(v@)[i as int] == needed_names()[i as int]);
            let mut name = String::new();
            name.append(v[i].name);
            let mut label = String::new();
            label.append(v[i].label);
            assert(name@ =~= needed_names()[i as int].0);
            assert(label@ =~= needed_names()[i as int].1);
            queue.push(Ask { name, label, want: v[i].start, named: true });
            i = i + 1;
        }
        assert(needs(v@).len() == v@.len());
        assert(asks(queue@) =~= first_questions());
        Walk { out: Vec::new(), queue }
    }

    /// The next service to look at: the first that has not been looked at yet.
    /// Nothing once there is none.
    pub fn next(&mut self) -> (r: Option<Ask>)
        ensures
            ({
                let left = unanswered(old(self).known(), asks(old(self).queue@));
                &&& final(self).out == old(self).out
                &&& r is Some <==> left.len() > 0
                &&& r matches Some(a) ==> {
                    &&& ask_view(a) == left[0]
                    &&& asks(final(self).queue@) == left.skip(1)
                }
                &&& r is None ==> final(self).queue@.len() == 0
            }),
    {
        let ghost known = self.known();
        let ghost left = unanswered(known, asks(self.queue@));
        while self.queue.len() > 0
            invariant
                self.out == old(self).out,
                known == self.known(),
                known == old(self).known(),
                left == unanswered(old(self).known(), asks(old(self).queue@)),
                left == unanswered(known, asks(self.queue@)),
            decreases self.queue.len(),
        {
            let ghost before = asks(self.queue@);
            let a: Ask = self.queue.remove(0);
            assert(asks(self.queue@) =~= before.skip(1));
            assert(before[0] == ask_view(a));
            if !has_found(&self.out, a.name.as_str()) {
                return Some(a);
            }
        }
        None
    }

    /// Takes down what was found of a service, and asks for what it stands on.
    pub fn answer(&mut self, a: Ask, start: Option<u32>, deps: &Vec<String>, running: bool)
        ensures
            asks(final(self).queue@) == with_dependencies(
                old(self).known(),
                asks(old(self).queue@),
                a.name@,
                texts(deps@),
                deps.len() as int,
            ),
            final(self).out@ == old(self).out@.push(
                (Found {
                    name: a.name,
                    label: a.label,
                    start,
                    running: start is Some && running,
                    want: a.want,
                    named: a.named,
                }),
            ),
    {
        let ghost known = self.known();
        let ghost first = asks(self.queue@);
        let ghost all = texts(deps@);
        let mut i: usize = 0;
        while i < deps.len()
            invariant
                all == texts(deps@),
                self.out == old(self).out,
                known == self.known(),
                i <= deps.len(),
                asks(self.queue@) == with_dependencies(known, first, a.name@, all, i as int),
            decreases deps.len() - i,
        {
            assert(all[i as int] == deps@[i as int]@);
            let dep: &str = deps[i].as_str();
            if !has_found(&self.out, dep) && !has_asked(&self.queue, dep) {
                let ghost before = asks(self.queue@);
                let mut name = String::new();
                name.append(dep);
                assert(name@ =~= dep@);
                let mut label = String::new();
                label.append(dep);
                label.append(" (needed by ");
                label.append(a.name.as_str());
                label.append(")");
                assert(label@ =~= dep@ + " (needed by "@ + a.name@ + ")"@);
                self.queue.push(Ask { name, label, want: 3, named: false });
                assert(asks(self.queue@) =~= before.push(
                    (dep@, dep@ + " (needed by "@ + a.name@ + ")"@, 3, false),
                ));
            }
            i = i + 1;
        }
        let running: bool = match start {
            Some(_) => running,
            None => false,
        };
        self.out.push(
            Found { name: a.name, label: a.label, start, running, want: a.want, named: a.named },
        );
    }
}

/// Whether no two names are the same but for the case of Latin letters.
pub open spec fn all_different(names: Seq<Seq<char>>) -> bool {
    forall|i: int, j: int|
        0 <= i < j < names.len() ==> lower_all(#[trigger] names[i]) != lower_all(
            #[trigger] names[j],
        )
}

/// Each service is looked at once: what is asked for next is not among what was
/// found, so that no service is found twice.
pub proof fn law_each_service_is_found_once(
    known: Seq<Seq<char>>,
    queue: Seq<(Seq<char>, Seq<char>, int, bool)>,
)
    requires
        all_different(known),
    ensures
        unanswered(known, queue).len() > 0 ==> all_different(
            known.push(unanswered(known, queue)[0].0),
        ),
    decreases queue.len(),
{
    if queue.len() > 0 && among(known, queue[0].0) {
        law_each_service_is_found_once(known, queue.skip(1));
    } else if queue.len() > 0 {
        let name = queue[0].0;
        let more = known.push(name);
        assert forall|i: int, j: int| 0 <= i < j < more.len() implies lower_all(
            #[trigger] more[i],
        ) != lower_all(#[trigger] more[j]) by {
            assert(more[i] == known[i]);
            if j < known.len() {
                assert(more[j] == known[j]);
            } else {
                assert(!among(known, name));
                assert(lower_all(known[i]) != lower_all(name));
            }
        }
    }
}

/// Nothing that is stood on is forgotten: after an answer, each service that was
/// named in it has been found or is still asked for.
pub proof fn law_what_is_stood_on_is_asked_for(
    known: Seq<Seq<char>>,
    queue: Seq<(Seq<char>, Seq<char>, int, bool)>,
    name: Seq<char>,
    deps: Seq<Seq<char>>,
    n: int,
    i: int,
)
    requires
        0 <= i < n <= deps.len(),
    ensures
        among(known, deps[i]) || among(
            ask_names(with_dependencies(known, queue, name, deps, n)),
            deps[i],
        ),
    decreases n,
{
    let before = with_dependencies(known, queue, name, deps, n - 1);
    let after = with_dependencies(known, queue, name, deps, n);
    if i == n - 1 {
        if !among(known, deps[i]) && !among(ask_names(before), deps[i]) {
            assert(ask_names(after)[before.len() as int] == deps[i]);
        }
    } else {
        law_what_is_stood_on_is_asked_for(known, queue, name, deps, n - 1, i);
        if !among(known, deps[i]) {
            let k = choose|k: int|
                0 <= k < ask_names(before).len() && lower_all(#[trigger] ask_names(before)[k])
                    == lower_all(deps[i]);
            assert(ask_names(after)[k] == ask_names(before)[k]);
        }
    }
}

/// A walk after so many steps: what was found, and what is still asked for. What each
/// service stands on is a function of its name.
pub open spec fn walked(
    known: Seq<Seq<char>>,
    queue: Seq<(Seq<char>, Seq<char>, int, bool)>,
    deps: spec_fn(Seq<char>) -> Seq<Seq<char>>,
    steps: nat,
) -> (Seq<Seq<char>>, Seq<(Seq<char>, Seq<char>, int, bool)>)
    decreases steps,
{
    let left = unanswered(known, queue);
    if left.len() == 0 {
        (known, left)
    } else if steps == 0 {
        (known, queue)
    } else {
        let name = left[0].0;
        walked(
            known.push(name),
            with_dependencies(known, left.skip(1), name, deps(name), deps(name).len() as int),
            deps,
            (steps - 1) as nat,
        )
    }
}

/// Whether a service was found or is still asked for.
pub open spec fn in_hand(
    known: Seq<Seq<char>>,
    queue: Seq<(Seq<char>, Seq<char>, int, bool)>,
    name: Seq<char>,
) -> bool {
    among(known, name) || among(ask_names(queue), name)
}

proof fn lemma_passed_over(
    known: Seq<Seq<char>>,
    queue: Seq<(Seq<char>, Seq<char>, int, bool)>,
    name: Seq<char>,
)
    requires
        in_hand(known, queue, name),
    ensures
        in_hand(known, unanswered(known, queue), name),
    decreases queue.len(),
{
    if queue.len() > 0 && among(known, queue[0].0) {
        let rest = queue.skip(1);
        if !among(known, name) {
            let k = choose|k: int|
                0 <= k < ask_names(queue).len() && lower_all(#[trigger] ask_names(queue)[k])
                    == lower_all(name);
            if k == 0 {
                let i = choose|i: int|
                    0 <= i < known.len() && lower_all(#[trigger] known[i]) == lower_all(
                        queue[0].0,
                    );
                assert(lower_all(known[i]) == lower_all(name));
                assert(among(known, name));
            } else {
                assert(ask_names(rest)[k - 1] == ask_names(queue)[k]);
            }
        }
        lemma_passed_over(known, rest, name);
    }
}

proof fn lemma_stays_in_hand(
    known: Seq<Seq<char>>,
    queue: Seq<(Seq<char>, Seq<char>, int, bool)>,
    of: Seq<char>,
    deps: Seq<Seq<char>>,
    n: int,
    name: Seq<char>,
)
    requires
        0 <= n <= deps.len(),
        queue.len() > 0,
        in_hand(known, queue, name),
    ensures
        in_hand(
            known.push(queue[0].0),
            with_dependencies(known, queue.skip(1), of, deps, n),
            name,
        ),
    decreases n,
{
    let more = known.push(queue[0].0);
    if among(known, name) {
        let i = choose|i: int|
            0 <= i < known.len() && lower_all(#[trigger] known[i]) == lower_all(name);
        assert(more[i] == known[i]);
    } else if n == 0 {
        let k = choose|k: int|
            0 <= k < ask_names(queue).len() && lower_all(#[trigger] ask_names(queue)[k])
                == lower_all(name);
        if k == 0 {
            assert(more[known.len() as int] == queue[0].0);
        } else {
            assert(ask_names(queue.skip(1))[k - 1] == ask_names(queue)[k]);
        }
    } else {
        lemma_stays_in_hand(known, queue, of, deps, n - 1, name);
        let before = with_dependencies(known, queue.skip(1), of, deps, n - 1);
        let after = with_dependencies(known, queue.skip(1), of, deps, n);
        if among(ask_names(before), name) {
            let k = choose|k: int|
                0 <= k < ask_names(before).len() && lower_all(#[trigger] ask_names(before)[k])
                    == lower_all(name);
            assert(ask_names(after)[k] == ask_names(before)[k]);
        }
    }
}

/// What holds at every step of a walk: nothing was found twice, and whatever is wanted,
/// or is stood on by something found, was found or is still asked for.
pub open spec fn on_the_way(
    known: Seq<Seq<char>>,
    queue: Seq<(Seq<char>, Seq<char>, int, bool)>,
    deps: spec_fn(Seq<char>) -> Seq<Seq<char>>,
    wanted: Seq<Seq<char>>,
) -> bool {
    &&& all_different(known)
    &&& forall|i: int| 0 <= i < wanted.len() ==> in_hand(known, queue, #[trigger] wanted[i])
    &&& forall|i: int, j: int|
        0 <= i < known.len() && 0 <= j < deps(known[i]).len() ==> in_hand(
            known,
            queue,
            #[trigger] deps(known[i])[j],
        )
}

proof fn lemma_walk_goes_on(
    known: Seq<Seq<char>>,
    queue: Seq<(Seq<char>, Seq<char>, int, bool)>,
    deps: spec_fn(Seq<char>) -> Seq<Seq<char>>,
    wanted: Seq<Seq<char>>,
    steps: nat,
)
    requires
        on_the_way(known, queue, deps, wanted),
    ensures
        ({
            let (k, q) = walked(known, queue, deps, steps);
            on_the_way(k, q, deps, wanted)
        }),
    decreases steps,
{
    let left = unanswered(known, queue);
    assert forall|i: int| 0 <= i < wanted.len() implies in_hand(
        known,
        left,
        #[trigger] wanted[i],
    ) by {
        lemma_passed_over(known, queue, wanted[i]);
    }
    assert forall|i: int, j: int|
        0 <= i < known.len() && 0 <= j < deps(known[i]).len() implies in_hand(
        known,
        left,
        #[trigger] deps(known[i])[j],
    ) by {
        lemma_passed_over(known, queue, deps(known[i])[j]);
    }
    if left.len() > 0 && steps > 0 {
        let name = left[0].0;
        let d = deps(name);
        let n = d.len() as int;
        let more = known.push(name);
        let next = with_dependencies(known, left.skip(1), name, d, n);
        law_each_service_is_found_once(known, queue);
        assert forall|i: int| 0 <= i < wanted.len() implies in_hand(
            more,
            next,
            #[trigger] wanted[i],
        ) by {
            lemma_stays_in_hand(known, left, name, d, n, wanted[i]);
        }
        assert forall|i: int, j: int|
            0 <= i < more.len() && 0 <= j < deps(more[i]).len() implies in_hand(
            more,
            next,
            #[trigger] deps(more[i])[j],
        ) by {
            let x = deps(more[i])[j];
            if i < known.len() {
                assert(more[i] == known[i]);
                lemma_stays_in_hand(known, left, name, d, n, deps(known[i])[j]);
            } else {
                law_what_is_stood_on_is_asked_for(known, left.skip(1), name, d, n, j);
                if among(known, x) {
                    let k = choose|k: int|
                        0 <= k < known.len() && lower_all(#[trigger] known[k]) == lower_all(x);
                    assert(more[k] == known[k]);
                }
            }
        }
        lemma_walk_goes_on(more, next, deps, wanted, (steps - 1) as nat);
    }
}

/// The names of the services that are needed.
pub open spec fn wanted_names() -> Seq<Seq<char>> {
    Seq::new(needed_names().len(), |i: int| needed_names()[i].0)
}

/// A walk that has ended has found no service twice, every service that is needed, and
/// with each service everything that it stands on.
pub proof fn law_a_whole_walk_finds_everything(
    deps: spec_fn(Seq<char>) -> Seq<Seq<char>>,
    steps: nat,
)
    requires
        walked(Seq::empty(), first_questions(), deps, steps).1.len() == 0,
    ensures
        ({
            let found = walked(Seq::empty(), first_questions(), deps, steps).0;
            &&& all_different(found)
            &&& forall|i: int|
                0 <= i < wanted_names().len() ==> among(found, #[trigger] wanted_names()[i])
            &&& forall|i: int, j: int|
                0 <= i < found.len() && 0 <= j < deps(found[i]).len() ==> among(
                    found,
                    #[trigger] deps(found[i])[j],
                )
        }),
{
    let wanted = wanted_names();
    let q = first_questions();
    assert forall|i: int| 0 <= i < wanted.len() implies in_hand(
        Seq::empty(),
        q,
        #[trigger] wanted[i],
    ) by {
        assert(ask_names(q)[i] == wanted[i]);
    }
    lemma_walk_goes_on(Seq::empty(), q, deps, wanted, steps);
    let (found, rest) = walked(Seq::empty(), q, deps, steps);
    assert forall|i: int| 0 <= i < wanted.len() implies among(found, #[trigger] wanted[i]) by {
        assert(in_hand(found, rest, wanted[i]));
    }
    assert forall|i: int, j: int|
        0 <= i < found.len() && 0 <= j < deps(found[i]).len() implies among(
        found,
        #[trigger] deps(found[i])[j],
    ) by {
        assert(in_hand(found, rest, deps(found[i])[j]));
    }
}

// ------------------------------------------------------------- the plan

/// Those of the first `n` that are switched off.
pub open spec fn off_ones(found: Seq<Found>, n: int) -> Seq<Found>
    decreases n,
{
    if n <= 0 {
        Seq::empty()
    } else if found[n - 1].is_off() {
        off_ones(found, n - 1).push(found[n - 1])
    } else {
        off_ones(found, n - 1)
    }
}

/// Those of the first `n` that are to be started.
pub open spec fn idle_ones(found: Seq<Found>, n: int) -> Seq<Found>
    decreases n,
{
    if n <= 0 {
        Seq::empty()
    } else if found[n - 1].is_idle() {
        idle_ones(found, n - 1).push(found[n - 1])
    } else {
        idle_ones(found, n - 1)
    }
}

/// What some references lead to.
pub open spec fn led_to(v: Seq<&Found>) -> Seq<Found> {
    Seq::new(v.len(), |i: int| *v[i])
}

/// What would be changed: what is switched off is raised to what works, and what is
/// needed and not running is started.
pub fn plan<'a>(found: &'a [Found]) -> (r: (Vec<&'a Found>, Vec<&'a Found>))
    ensures
        led_to(r.0@) == off_ones(found@, found.len() as int),
        led_to(r.1@) == idle_ones(found@, found.len() as int),
{
    let mut raise: Vec<&'a Found> = Vec::new();
    let mut start: Vec<&'a Found> = Vec::new();
    let mut i: usize = 0;
    assert(led_to(raise@) =~= off_ones(found@, 0));
    assert(led_to(start@) =~= idle_ones(found@, 0));
    while i < found.len()
        invariant
            i <= found.len(),
            led_to(raise@) == off_ones(found@, i as int),
            led_to(start@) == idle_ones(found@, i as int),
        decreases found.len() - i,
    {
        let f: &'a Found = &found[i];
        if f.switched_off() {
            let ghost before = raise@;
            raise.push(f);
            assert(led_to(raise@) =~= led_to(before).push(found@[i as int]));
        }
        let installed: bool = match f.start {
            Some(_) => true,
            None => false,
        };
        if f.named && installed && !f.running {
            let ghost before = start@;
            start.push(f);
            assert(led_to(start@) =~= led_to(before).push(found@[i as int]));
        }
        i = i + 1;
    }
    (raise, start)
}

/// Only what is switched off is raised, and all of it.
pub proof fn law_only_what_is_off_is_raised(found: Seq<Found>, n: int)
    requires
        0 <= n <= found.len(),
    ensures
        forall|k: int| 0 <= k < off_ones(found, n).len() ==> (#[trigger] off_ones(found, n)[k]).is_off(),
        forall|i: int|
            0 <= i < n && (#[trigger] found[i]).is_off() ==> off_ones(found, n).contains(found[i]),
    decreases n,
{
    if n > 0 {
        law_only_what_is_off_is_raised(found, n - 1);
        let before = off_ones(found, n - 1);
        let after = off_ones(found, n);
        assert forall|i: int| 0 <= i < n && (#[trigger] found[i]).is_off() implies after.contains(
            found[i],
        ) by {
            if i < n - 1 {
                assert(before.contains(found[i]));
                let k = choose|k: int| 0 <= k < before.len() && before[k] == found[i];
                assert(after[k] == found[i]);
            } else {
                assert(after[before.len() as int] == found[i]);
            }
        }
    }
}

// ------------------------------------------------------------- laws

/// What is needed, by the names that the system knows it by, and what is enough for each:
/// the two services of the hotspot may wait until they are called, and the others have to
/// start by themselves. Each of them is asked for.
pub proof fn law_what_is_needed()
    ensures
        ({
            let n = needed_names();
            let q = first_questions();
            &&& n.len() == 7
            &&& n[0].0 == "icssvc"@ && n[0].2 == 3
            &&& n[1].0 == "SharedAccess"@ && n[1].2 == 3
            &&& n[2].0 == "WlanSvc"@ && n[2].2 == 2
            &&& n[3].0 == "Wcmsvc"@ && n[3].2 == 2
            &&& n[4].0 == "BFE"@ && n[4].2 == 2
            &&& n[5].0 == "Dhcp"@ && n[5].2 == 2
            &&& n[6].0 == "Dnscache"@ && n[6].2 == 2
            &&& q.len() == 7 && forall|i: int|
                0 <= i < 7 ==> (#[trigger] q[i]).0 == n[i].0 && q[i].1 == n[i].1 && q[i].2 == n[i].2
                    && q[i].3
        }),
{
}

/// A service is off where it starts later than it should: one that is disabled always is,
/// one that is not installed never, and one that starts early enough is not. What is needed
/// itself and not running is idle, however it is set.
pub proof fn law_what_counts_as_off(f: Found)
    ensures
        f.start == Some(4u32) && f.want <= 3 ==> f.is_off(),
        f.start == Some(3u32) && f.want == 2 ==> f.is_off(),
        f.start == Some(f.want) ==> !f.is_off(),
        f.start == Some(2u32) && f.want == 3 ==> !f.is_off(),
        f.start is None ==> !f.is_off() && !f.is_idle(),
        f.running ==> !f.is_idle(),
        !f.named ==> !f.is_idle(),
        f.named && !f.running && f.start is Some ==> f.is_idle(),
{
}

/// The five ways in which a service starts have five words.
pub proof fn law_each_way_to_start_has_its_word()
    ensures
        start_word(0) == seq!['b', 'o', 'o', 't'],
        start_word(1) == seq!['s', 'y', 's', 't', 'e', 'm'],
        start_word(2) == seq!['a', 'u', 't', 'o'],
        start_word(3) == seq!['d', 'e', 'm', 'a', 'n', 'd'],
        start_word(4) == seq!['d', 'i', 's', 'a', 'b', 'l', 'e', 'd'],
{
    reveal_strlit("boot");
    reveal_strlit("system");
    reveal_strlit("auto");
    reveal_strlit("demand");
    reveal_strlit("disabled");
    assert("boot"@ =~= seq!['b', 'o', 'o', 't']);
    assert("system"@ =~= seq!['s', 'y', 's', 't', 'e', 'm']);
    assert("auto"@ =~= seq!['a', 'u', 't', 'o']);
    assert("demand"@ =~= seq!['d', 'e', 'm', 'a', 'n', 'd']);
    assert("disabled"@ =~= seq!['d', 'i', 's', 'a', 'b', 'l', 'e', 'd']);
}

/// What a service stands on is read off the first line with a list: the names behind the
/// word for a list, each between two marks, without those that stand for groups.
pub proof fn law_what_a_service_stands_on_is_read(
    ls: Seq<Seq<char>>,
    i: int,
    front: Seq<char>,
    pad: Seq<char>,
    a: Seq<char>,
    b: Seq<char>,
)
    requires
        0 <= i < ls.len(),
        !front.contains('R'),
        forall|j: int| 0 <= j < pad.len() ==> #[trigger] pad[j] == ' ',
        a.len() > 0 && !is_space(a[0]) && !is_space(a.last()) && !a.contains('\\') && !a.contains('R')
            && a[0] != '+',
        b.len() > 0 && !is_space(b[0]) && !is_space(b.last()) && !b.contains('\\') && !b.contains('R'),
    ensures
        ls[i] == front + "REG_MULTI_SZ"@ + (pad + a) ==> stood_on(ls, i) == seq![a],
        ls[i] == front + "REG_MULTI_SZ"@ + (pad + (a + seq!['\\', '0'] + b)) ==> stood_on(ls, i) == (
        if b[0] == '+' {
            seq![a]
        } else {
            seq![a, b]
        }),
        !holds(ls[i], "REG_MULTI_SZ"@) ==> stood_on(ls, i) == stood_on(ls, i + 1),
{
    reveal_strlit("REG_MULTI_SZ");
    reveal_strlit("\\0");
    let p = "REG_MULTI_SZ"@;
    let z = "\\0"@;
    assert(p[0] == 'R');
    assert(z =~= seq!['\\', '0']);
    assert(z[0] == '\\');
    let both = a + z + b;
    assert forall|j: int| 0 <= j < pad.len() implies is_space(#[trigger] pad[j]) by {
        assert(pad[j] == ' ');
    }
    assert(both[0] == a[0] && both.last() == b.last());
    let none = Seq::<char>::empty();
    law_trimming_takes_what_stands_round(pad, a, none);
    law_trimming_takes_what_stands_round(pad, both, none);
    assert(pad + a + none =~= pad + a);
    assert(pad + both + none =~= pad + both);
    law_pieces_between_a_text(a, z, b);
    law_pieces_between_a_text(b, z, b);
    lemma_nothing_to_trim(a);
    lemma_nothing_to_trim(b);
    if ls[i] == front + p + (pad + a) {
        lemma_no_second(pad, a);
        law_pieces_between_a_text(front, p, pad + a);
        law_pieces_between_a_text(pad + a, p, none);
        lemma_holds_middle(front, p, pad + a);
        let parts = pieces_by(ls[i], p);
        assert(parts =~= seq![front, pad + a]);
        let items = seq![a];
        assert(service_names(items, 0) =~= Seq::<Seq<char>>::empty());
        assert(service_names(items, 1) =~= seq![a]);
    }
    if ls[i] == front + p + (pad + (a + seq!['\\', '0'] + b)) {
        assert(!both.contains('R')) by {
            if both.contains('R') {
                let j = choose|j: int| 0 <= j < both.len() && both[j] == 'R';
                if j < a.len() {
                    assert(a[j] == 'R');
                } else if j >= a.len() + 2 {
                    assert(b[j - a.len() - 2] == 'R');
                }
            }
        }
        lemma_no_second(pad, both);
        law_pieces_between_a_text(front, p, pad + both);
        law_pieces_between_a_text(pad + both, p, none);
        lemma_holds_middle(front, p, pad + both);
        let parts = pieces_by(ls[i], p);
        assert(parts =~= seq![front, pad + both]);
        let items = seq![a, b];
        assert(pieces_by(both, z) =~= items);
        assert(service_names(items, 0) =~= Seq::<Seq<char>>::empty());
        assert(service_names(items, 1) =~= seq![a]);
        if b[0] != '+' {
            assert(service_names(items, 2) =~= seq![a, b]);
        }
    }
}

proof fn lemma_no_second(pad: Seq<char>, s: Seq<char>)
    requires
        forall|j: int| 0 <= j < pad.len() ==> #[trigger] pad[j] == ' ',
        !s.contains('R'),
    ensures
        !(pad + s).contains('R'),
{
    if (pad + s).contains('R') {
        let j = choose|j: int| 0 <= j < (pad + s).len() && (pad + s)[j] == 'R';
        if j < pad.len() {
            assert(pad[j] == ' ');
        } else {
            assert(s[j - pad.len()] == 'R');
        }
    }
}

/// Whether a service runs is the number behind the colon on its line of state: four, and
/// nothing else, whatever word stands behind it. The first such line decides.
pub proof fn law_running_is_a_four(
    ls: Seq<Seq<char>>,
    i: int,
    pad: Seq<char>,
    number: Seq<char>,
    rest: Seq<char>,
)
    requires
        0 <= i < ls.len(),
        forall|j: int| 0 <= j < pad.len() ==> #[trigger] pad[j] == ' ',
        number.len() > 0,
        forall|j: int| 0 <= j < number.len() ==> !is_space(#[trigger] number[j]),
        ls[i] == pad + "STATE"@ + pad + seq![':'] + pad + number + seq![' '] + rest,
    ensures
        state_four(ls, i) <==> number == seq!['4'],
{
    reveal_strlit("STATE");
    reveal_strlit("4");
    assert("4"@ =~= seq!['4']);
    let st = "STATE"@;
    let behind = st + pad + seq![':'] + pad + number + seq![' '] + rest;
    assert(ls[i] =~= pad + behind);
    assert forall|j: int| 0 <= j < pad.len() implies is_space(#[trigger] pad[j]) by {
        assert(pad[j] == ' ');
    }
    assert(behind[0] == 'S');
    lemma_start_trimmed(pad, behind);
    assert(behind.subrange(0, 5) =~= st);
    let front = st + pad;
    assert(!front.contains(':')) by {
        if front.contains(':') {
            let j = choose|j: int| 0 <= j < front.len() && front[j] == ':';
            if j >= 5 {
                assert(pad[j - 5] == ' ');
            }
        }
    }
    let v = pad + number + seq![' '] + rest;
    assert(behind =~= front + seq![':'] + v);
    law_a_text_is_cut_where_it_should(front, ':', v);
    assert(v =~= pad + (number + seq![' '] + rest));
    law_white_space_is_no_word(pad, number + seq![' '] + rest);
    lemma_first_word(number, ' ', rest);
}

proof fn lemma_start_trimmed(pad: Seq<char>, s: Seq<char>)
    requires
        forall|j: int| 0 <= j < pad.len() ==> is_space(#[trigger] pad[j]),
        s.len() > 0 && !is_space(s[0]),
    ensures
        trimmed_start(pad + s) == s,
    decreases pad.len(),
{
    if pad.len() > 0 {
        assert(is_space(pad[0]));
        assert((pad + s).skip(1) =~= pad.skip(1) + s);
        assert forall|j: int| 0 <= j < pad.skip(1).len() implies is_space(#[trigger] pad.skip(1)[j]) by {
            assert(pad.skip(1)[j] == pad[j + 1]);
        }
        lemma_start_trimmed(pad.skip(1), s);
    } else {
        assert(pad + s =~= s);
    }
}

/// What something stands on has to start when it is called and is not needed for itself.
pub proof fn law_what_is_stood_on_starts_when_called(
    known: Seq<Seq<char>>,
    queue: Seq<(Seq<char>, Seq<char>, int, bool)>,
    name: Seq<char>,
    dep: Seq<char>,
)
    ensures
        ({
            let q = with_dependencies(known, queue, name, seq![dep], 1);
            let new = !among(known, dep) && !among(ask_names(queue), dep);
            &&& new ==> q.len() == queue.len() + 1 && q.last().0 == dep && q.last().2 == 3 && !q.last().3
                && q.drop_last() == queue
            &&& !new ==> q == queue
        }),
{
    reveal_with_fuel(with_dependencies, 2);
    let q = with_dependencies(known, queue, name, seq![dep], 1);
    if !among(known, dep) && !among(ask_names(queue), dep) {
        assert(q.drop_last() =~= queue);
    }
}

} // verus!
