//! What Windows says of itself, read by its numbers and never by its words, which
//! are translated.

use crate::addr::{address, law_address_reads_back, parse_address, Ipv4Addr};
use crate::number::{
    decimal, digits_value, law_decimal_reads_back, parse_decimal, parse_radix, unsigned,
};
use crate::text::{
    begins_with, chars_of, contains_text, cut, holds, is_space, is_text,
    law_a_text_is_cut_where_it_should, law_trimming_takes_what_stands_round,
    lemma_nothing_to_trim, lines, same_text, split_lines, split_once, split_words,
    starts_with_text, str_view, string_of, text_view, trim, trim_start, trimmed, trimmed_start,
    views, words,
};
use vstd::prelude::*;
use vstd::slice::slice_subrange;

verus! {

// ------------------------------------------------------------- services

/// The services that a hotspot needs, and what they are called on the screen. Both
/// were measured to matter.
pub const HOTSPOT_SERVICES: [(&'static str, &'static str); 2] = [
    ("icssvc", "Windows Mobile Hotspot Service"),
    ("SharedAccess", "Internet Connection Sharing"),
];

/// The number behind the mark of a hexadecimal one.
pub open spec fn hex_number(s: Seq<char>) -> Option<int> {
    if begins_with(s, "0x"@) || begins_with(s, "0X"@) {
        unsigned(s.skip(2), 16, 0xffff_ffff)
    } else {
        None
    }
}

/// The number at the end of the first line from `i` on that holds one.
pub open spec fn start_from(ls: Seq<Seq<char>>, i: int) -> Option<int>
    decreases ls.len() - i,
{
    if i >= ls.len() {
        None
    } else if !holds(ls[i], "REG_DWORD"@) {
        start_from(ls, i + 1)
    } else {
        let w = words(ls[i]);
        if w.len() > 0 {
            hex_number(w.last())
        } else {
            None
        }
    }
}

/// What an optional number is.
pub open spec fn opt_int(n: Option<u32>) -> Option<int> {
    match n {
        Some(n) => Some(n as int),
        None => None,
    }
}

fn hex_of(s: &[char]) -> (r: Option<u32>)
    ensures
        opt_int(r) == hex_number(s@),
{
    proof {
        reveal_strlit("0x");
        reveal_strlit("0X");
    }
    if !starts_with_text(s, "0x") && !starts_with_text(s, "0X") {
        return None;
    }
    let rest = slice_subrange(s, 2, s.len());
    assert(rest@ =~= s@.skip(2));
    match parse_radix(rest, 16, 0xffff_ffff) {
        Some(n) => Some(n as u32),
        None => None,
    }
}

/// How a service starts, from the registry's answer: 4 is disabled, 3 manual, 2
/// automatic, in every language.
pub fn start_value_from(text: &str) -> (r: Option<u32>)
    ensures
        opt_int(r) == start_from(lines(text@), 0),
{
    let c: Vec<char> = chars_of(text);
    let ls: Vec<&[char]> = split_lines(c.as_slice());
    let ghost all = lines(text@);
    let mut i: usize = 0;
    while i < ls.len()
        invariant
            views(ls@) == all,
            all == lines(text@),
            i <= ls.len(),
            start_from(all, 0) == start_from(all, i as int),
        decreases ls.len() - i,
    {
        assert(all[i as int] == ls@[i as int]@);
        if contains_text(ls[i], "REG_DWORD") {
            let w: Vec<&[char]> = split_words(ls[i]);
            assert(w.len() == words(all[i as int]).len());
            if w.len() == 0 {
                return None;
            }
            assert(views(w@).last() == w@[w@.len() - 1]@);
            return hex_of(w[w.len() - 1]);
        }
        i = i + 1;
    }
    None
}

/// Whether the registry says that a service is disabled. What cannot be asked is
/// no fault.
pub open spec fn is_disabled(answer: Option<Seq<char>>) -> bool {
    match answer {
        Some(text) => start_from(lines(text), 0) == Some(4int),
        None => false,
    }
}

/// Names as plain text.
pub open spec fn names(v: Seq<(&'static str, &'static str)>) -> Seq<(Seq<char>, Seq<char>)> {
    Seq::new(v.len(), |i: int| (v[i].0@, v[i].1@))
}

/// Which of the services a hotspot needs are disabled, by the registry's answer
/// for each of the two.
pub fn disabled_hotspot_services(first: Option<&str>, second: Option<&str>) -> (off: Vec<
    (&'static str, &'static str),
>)
    ensures
        names(off@) == (if is_disabled(str_view(first)) {
            seq![("icssvc"@, "Windows Mobile Hotspot Service"@)]
        } else {
            Seq::empty()
        }) + (if is_disabled(str_view(second)) {
            seq![("SharedAccess"@, "Internet Connection Sharing"@)]
        } else {
            Seq::empty()
        }),
{
    let mut off: Vec<(&'static str, &'static str)> = Vec::new();
    let a: bool = match first {
        Some(t) => match start_value_from(t) {
            Some(n) => n == 4,
            None => false,
        },
        None => false,
    };
    let b: bool = match second {
        Some(t) => match start_value_from(t) {
            Some(n) => n == 4,
            None => false,
        },
        None => false,
    };
    if a {
        off.push(("icssvc", "Windows Mobile Hotspot Service"));
    }
    if b {
        off.push(("SharedAccess", "Internet Connection Sharing"));
    }
    proof {
        let x = if a {
            seq![("icssvc"@, "Windows Mobile Hotspot Service"@)]
        } else {
            Seq::empty()
        };
        let y = if b {
            seq![("SharedAccess"@, "Internet Connection Sharing"@)]
        } else {
            Seq::empty()
        };
        assert(names(off@) =~= x + y);
    }
    off
}

/// What is wrong, and that it is not the hardware.
pub const WHAT_IS_WRONG: &'static str = "\nThis laptop cannot make a wifi network, and it is not the wifi card.\n\n\
     Parts of Windows have been switched off on this machine. This is very\n\
     common on a second-hand laptop: the lists that promise to speed Windows\n\
     up nearly all switch these off, because almost nobody shares a network\n\
     connection. Windows does not tell you that is why. It says it cannot set\n\
     up a mobile hotspot and leaves the box empty, so the laptop looks broken\n\
     when it is only switched off.\n\n\
     Switched off here:\n";

/// How it is put right with one permission.
pub const THE_HUB_CAN: &'static str = "\nThe hub can switch them back on for you. On its first screen choose\n\
     Check this computer, then Turn on the parts of Windows the hub needs.\n\
     Windows asks for permission once. Or type:  hub services --fix\n";

/// How it is put right by hand.
pub const BY_HAND: &'static str = "\nOr by hand: open Windows Terminal or PowerShell AS\n\
     ADMINISTRATOR. Right-click the Start button, and choose the entry with\n\
     (Admin) after it. Then type these lines, one at a time:\n\n";

/// How to know that it worked, and what to do where it is not allowed.
pub const AFTERWARDS: &'static str = "\nThen open Settings, Network and internet, Mobile hotspot. The boxes\n\
     for name and password should now be filled in instead of blank.\n\n\
     If it asks for an administrator password and you do not have one, this\n\
     laptop is managed by somebody else and they have to do it. Use a cable\n\
     instead: it needs none of this.\n";

/// The lines that name the first `n` services.
pub open spec fn named_lines(off: Seq<(Seq<char>, Seq<char>)>, n: int) -> Seq<char>
    decreases n,
{
    if n <= 0 {
        Seq::empty()
    } else {
        named_lines(off, n - 1) + "  "@ + off[n - 1].1 + "  ("@ + off[n - 1].0 + ")\n"@
    }
}

/// The lines to type for the first `n` services.
pub open spec fn typed_lines(off: Seq<(Seq<char>, Seq<char>)>, n: int) -> Seq<char>
    decreases n,
{
    if n <= 0 {
        Seq::empty()
    } else {
        typed_lines(off, n - 1) + "  Set-Service "@ + off[n - 1].0 + " -StartupType Manual\n"@
    }
}

/// What to tell somebody whose laptop has had these switched off: what is wrong,
/// what exactly to type, how to know that it worked, and what to do if it is not
/// theirs to do. Nothing where nothing is off.
pub open spec fn advice_for(off: Seq<(Seq<char>, Seq<char>)>) -> Option<Seq<char>> {
    if off.len() == 0 {
        None
    } else {
        Some(
            WHAT_IS_WRONG@ + named_lines(off, off.len() as int) + THE_HUB_CAN@ + BY_HAND@
                + typed_lines(off, off.len() as int) + "  Start-Service icssvc\n"@ + AFTERWARDS@,
        )
    }
}

fn push_named(s: &mut String, off: &[(&'static str, &'static str)])
    ensures
        final(s)@ == old(s)@ + named_lines(names(off@), off.len() as int),
{
    let ghost start = s@;
    let ghost all = names(off@);
    let mut i: usize = 0;
    assert(s@ =~= start + named_lines(all, 0));
    while i < off.len()
        invariant
            all == names(off@),
            i <= off.len(),
            s@ == start + named_lines(all, i as int),
        decreases off.len() - i,
    {
        let (service, human) = off[i];
        s.append("  ");
        s.append(human);
        s.append("  (");
        s.append(service);
        s.append(")\n");
        i = i + 1;
        assert(s@ =~= start + named_lines(all, i as int));
    }
}

fn push_typed(s: &mut String, off: &[(&'static str, &'static str)])
    ensures
        final(s)@ == old(s)@ + typed_lines(names(off@), off.len() as int),
{
    let ghost start = s@;
    let ghost all = names(off@);
    let mut i: usize = 0;
    assert(s@ =~= start + typed_lines(all, 0));
    while i < off.len()
        invariant
            all == names(off@),
            i <= off.len(),
            s@ == start + typed_lines(all, i as int),
        decreases off.len() - i,
    {
        let (service, _human) = off[i];
        s.append("  Set-Service ");
        s.append(service);
        s.append(" -StartupType Manual\n");
        i = i + 1;
        assert(s@ =~= start + typed_lines(all, i as int));
    }
}

/// What to tell somebody whose laptop has had these switched off.
pub fn switched_off_advice(off: &[(&'static str, &'static str)]) -> (r: Option<String>)
    ensures
        text_view(r) == advice_for(names(off@)),
{
    if off.len() == 0 {
        return None;
    }
    let mut s = String::new();
    s.append(WHAT_IS_WRONG);
    push_named(&mut s, off);
    s.append(THE_HUB_CAN);
    s.append(BY_HAND);
    push_typed(&mut s, off);
    s.append("  Start-Service icssvc\n");
    s.append(AFTERWARDS);
    assert(s@ =~= advice_for(names(off@)).unwrap());
    Some(s)
}

// ------------------------------------------------------------- routes

/// The gateway and the metric of a default route on a line of the route table:
/// numbers in every language.
pub open spec fn route_on(line: Seq<char>) -> Option<(Ipv4Addr, int)> {
    let f = words(line);
    if f.len() < 5 || f[0] != "0.0.0.0"@ || f[1] != "0.0.0.0"@ {
        None
    } else {
        match (address(f[2]), unsigned(f[4], 10, 0xffff_ffff)) {
            (Some(g), Some(m)) => Some((g, m)),
            _ => None,
        }
    }
}

/// The best default route on the first `n` lines: the one with the lowest metric,
/// the first of those that have it.
pub open spec fn best_route(ls: Seq<Seq<char>>, n: int) -> Option<(Ipv4Addr, int)>
    decreases n,
{
    if n <= 0 {
        None
    } else {
        let before = best_route(ls, n - 1);
        match route_on(ls[n - 1]) {
            None => before,
            Some((g, m)) => match before {
                None => Some((g, m)),
                Some((_, least)) => if m < least {
                    Some((g, m))
                } else {
                    before
                },
            },
        }
    }
}

/// What an optional route is.
pub open spec fn route_view(r: Option<(Ipv4Addr, u32)>) -> Option<(Ipv4Addr, int)> {
    match r {
        Some((g, m)) => Some((g, m as int)),
        None => None,
    }
}

fn read_route(line: &[char]) -> (r: Option<(Ipv4Addr, u32)>)
    ensures
        route_view(r) == route_on(line@),
{
    let f: Vec<&[char]> = split_words(line);
    assert(f.len() == words(line@).len());
    if f.len() < 5 {
        return None;
    }
    assert(views(f@)[0] == f@[0]@ && views(f@)[1] == f@[1]@ && views(f@)[2] == f@[2]@ && views(
        f@,
    )[4] == f@[4]@);
    if !is_text(f[0], "0.0.0.0") || !is_text(f[1], "0.0.0.0") {
        return None;
    }
    match (parse_address(f[2]), parse_decimal(f[4], 0xffff_ffff)) {
        (Some(g), Some(m)) => Some((g, m as u32)),
        _ => None,
    }
}

/// The router that this laptop really uses, from the route table.
pub fn gateway_from_route_print(text: &str) -> (r: Option<Ipv4Addr>)
    ensures
        r == (match best_route(lines(text@), lines(text@).len() as int) {
            Some((g, _)) => Some(g),
            None => None,
        }),
{
    let c: Vec<char> = chars_of(text);
    let ls: Vec<&[char]> = split_lines(c.as_slice());
    let ghost all = lines(text@);
    let mut best: Option<(Ipv4Addr, u32)> = None;
    let mut i: usize = 0;
    while i < ls.len()
        invariant
            views(ls@) == all,
            i <= ls.len(),
            route_view(best) == best_route(all, i as int),
        decreases ls.len() - i,
    {
        assert(all[i as int] == ls@[i as int]@);
        if let Some((g, m)) = read_route(ls[i]) {
            let better: bool = match best {
                None => true,
                Some((_, least)) => m < least,
            };
            if better {
                best = Some((g, m));
            }
        }
        i = i + 1;
    }
    match best {
        Some((g, _)) => Some(g),
        None => None,
    }
}

// ------------------------------------------------------------- the card

/// The value of a field in a report: what stands behind the colon of the first
/// line from `i` on that begins with its label.
pub open spec fn field_from(ls: Seq<Seq<char>>, i: int, label: Seq<char>) -> Option<Seq<char>>
    decreases ls.len() - i,
{
    if i >= ls.len() {
        None
    } else if begins_with(trimmed_start(ls[i]), label) {
        match cut(ls[i], ':') {
            Some((_, v)) => Some(trimmed(v)),
            None => None,
        }
    } else {
        field_from(ls, i + 1, label)
    }
}

/// The value of a field in a report.
pub open spec fn field_in(text: Seq<char>, label: Seq<char>) -> Option<Seq<char>> {
    field_from(lines(text), 0, label)
}

fn field(text: &str, label: &str) -> (r: Option<String>)
    ensures
        text_view(r) == field_in(text@, label@),
{
    let c: Vec<char> = chars_of(text);
    let ls: Vec<&[char]> = split_lines(c.as_slice());
    let ghost all = lines(text@);
    let mut i: usize = 0;
    while i < ls.len()
        invariant
            views(ls@) == all,
            all == lines(text@),
            i <= ls.len(),
            field_from(all, 0, label@) == field_from(all, i as int, label@),
        decreases ls.len() - i,
    {
        assert(all[i as int] == ls@[i as int]@);
        if starts_with_text(trim_start(ls[i]), label) {
            return match split_once(ls[i], ':') {
                Some((_, v)) => Some(string_of(trim(v))),
                None => None,
            };
        }
        i = i + 1;
    }
    None
}

/// Whether a field says that something is supported.
pub open spec fn supported(text: Seq<char>, label: Seq<char>) -> Option<bool> {
    match field_in(text, label) {
        Some(v) => Some(begins_with(v, "Supported"@)),
        None => None,
    }
}

/// The number in a field.
pub open spec fn count_in(text: Seq<char>, label: Seq<char>) -> Option<int> {
    match field_in(text, label) {
        Some(v) => unsigned(v, 10, 0xffff_ffff),
        None => None,
    }
}

fn is_supported(text: &str, label: &str) -> (r: Option<bool>)
    ensures
        r == supported(text@, label@),
{
    match field(text, label) {
        Some(v) => {
            let c: Vec<char> = chars_of(v.as_str());
            Some(starts_with_text(c.as_slice(), "Supported"))
        },
        None => None,
    }
}

fn count(text: &str, label: &str) -> (r: Option<u32>)
    ensures
        opt_int(r) == count_in(text@, label@),
{
    match field(text, label) {
        Some(v) => {
            let c: Vec<char> = chars_of(v.as_str());
            match parse_decimal(c.as_slice(), 0xffff_ffff) {
                Some(n) => Some(n as u32),
                None => None,
            }
        },
        None => None,
    }
}

/// What a wifi card can do as a hotspot, in one line. Nothing where its report
/// does not name it, rather than a guess.
pub open spec fn card_line(drivers: Seq<char>, caps: Seq<char>) -> Option<Seq<char>> {
    match field_in(drivers, "Driver"@) {
        None => None,
        Some(name) => Some(
            name + ": a network on 2.4 GHz"@ + (if supported(caps, "P2P GO on 5 GHz"@) == Some(
                true,
            ) {
                " or 5 GHz"@
            } else {
                Seq::empty()
            }) + (if supported(caps, "P2P GO on 6 GHz"@) == Some(true) {
                " or 6 GHz"@
            } else {
                Seq::empty()
            }) + (if supported(caps, "P2P GO on 6 GHz"@) == Some(false) {
                ", not 6 GHz"@
            } else {
                Seq::empty()
            }) + (if count_in(caps, "P2P GO ports count"@) == Some(1int) {
                "; one network at a time"@
            } else {
                Seq::empty()
            }) + (if count_in(caps, "Number of MLO Connections Supported"@) == Some(0int) {
                "; no multi-band (MLO)"@
            } else {
                Seq::empty()
            }) + "; Windows picks the channel."@,
        ),
    }
}

/// What a wifi card can do as a hotspot, in one line, from its own report.
pub fn card_summary_from(drivers: &str, caps: &str) -> (r: Option<String>)
    ensures
        text_view(r) == card_line(drivers@, caps@),
{
    let name: String = match field(drivers, "Driver") {
        Some(n) => n,
        None => {
            return None;
        },
    };
    let five: Option<bool> = is_supported(caps, "P2P GO on 5 GHz");
    let six: Option<bool> = is_supported(caps, "P2P GO on 6 GHz");
    let mlo: Option<u32> = count(caps, "Number of MLO Connections Supported");
    let ports: Option<u32> = count(caps, "P2P GO ports count");
    let mut s = String::new();
    s.append(name.as_str());
    s.append(": a network on 2.4 GHz");
    if let Some(yes) = five {
        if yes {
            s.append(" or 5 GHz");
        }
    }
    if let Some(yes) = six {
        if yes {
            s.append(" or 6 GHz");
        } else {
            s.append(", not 6 GHz");
        }
    }
    if let Some(n) = ports {
        if n == 1 {
            s.append("; one network at a time");
        }
    }
    if let Some(n) = mlo {
        if n == 0 {
            s.append("; no multi-band (MLO)");
        }
    }
    s.append("; Windows picks the channel.");
    assert(s@ =~= card_line(drivers@, caps@).unwrap());
    Some(s)
}

// ------------------------------------------------------------- the script

/// A line of the script's answer: a key and what it says.
#[derive(Debug)]
pub struct Said {
    pub key: String,
    pub value: String,
}

/// Answers as plain text.
pub open spec fn said(v: Seq<Said>) -> Seq<(Seq<char>, Seq<char>)> {
    Seq::new(v.len(), |i: int| (v[i].key@, v[i].value@))
}

/// What a line of output says, if it is meant for us: a key behind the mark, and
/// the rest.
pub open spec fn said_on(line: Seq<char>) -> Option<(Seq<char>, Seq<char>)> {
    let t = trimmed(line);
    if !begins_with(t, "HUB_"@) {
        None
    } else {
        let rest = t.skip(4);
        match cut(rest, ' ') {
            Some((k, v)) => Some((k, trimmed(v))),
            None => Some((rest, Seq::empty())),
        }
    }
}

/// What some lines of output say.
pub open spec fn said_in(ls: Seq<Seq<char>>) -> Seq<(Seq<char>, Seq<char>)>
    decreases ls.len(),
{
    if ls.len() == 0 {
        Seq::empty()
    } else {
        match said_on(ls.last()) {
            Some(e) => said_in(ls.drop_last()).push(e),
            None => said_in(ls.drop_last()),
        }
    }
}

fn read_said(line: &[char]) -> (r: Option<Said>)
    ensures
        r is Some <==> said_on(line@) is Some,
        r matches Some(e) ==> said_on(line@) == Some((e.key@, e.value@)),
{
    proof {
        reveal_strlit("HUB_");
    }
    let t: &[char] = trim(line);
    if !starts_with_text(t, "HUB_") {
        return None;
    }
    let rest = slice_subrange(t, 4, t.len());
    assert(rest@ =~= t@.skip(4));
    match split_once(rest, ' ') {
        Some((k, v)) => Some(Said { key: string_of(k), value: string_of(trim(v)) }),
        None => {
            let none = String::new();
            assert(none@ =~= Seq::<char>::empty());
            Some(Said { key: string_of(rest), value: none })
        },
    }
}

/// What the script's output says.
pub fn win_hotspot(output: &str) -> (out: Vec<Said>)
    ensures
        said(out@) == said_in(lines(output@)),
{
    let c: Vec<char> = chars_of(output);
    let ls: Vec<&[char]> = split_lines(c.as_slice());
    let ghost all = lines(output@);
    let mut out: Vec<Said> = Vec::new();
    let mut i: usize = 0;
    assert(said(out@) =~= said_in(all.take(0)));
    while i < ls.len()
        invariant
            views(ls@) == all,
            i <= ls.len(),
            said(out@) == said_in(all.take(i as int)),
        decreases ls.len() - i,
    {
        assert(all[i as int] == ls@[i as int]@);
        assert(all.take(i + 1).drop_last() =~= all.take(i as int));
        if let Some(e) = read_said(ls[i]) {
            let ghost before = out@;
            out.push(e);
            assert(said(out@) =~= said(before).push((e.key@, e.value@)));
        }
        i = i + 1;
    }
    assert(all.take(all.len() as int) =~= all);
    out
}

/// The first value for a key, from `i` on.
pub open spec fn value_from(v: Seq<(Seq<char>, Seq<char>)>, i: int, key: Seq<char>) -> Option<
    Seq<char>,
>
    decreases v.len() - i,
{
    if i >= v.len() {
        None
    } else if v[i].0 == key {
        Some(v[i].1)
    } else {
        value_from(v, i + 1, key)
    }
}

/// The first value for a key.
pub fn win_get(v: &Vec<Said>, key: &str) -> (r: Option<String>)
    ensures
        text_view(r) == value_from(said(v@), 0, key@),
{
    let ghost all = said(v@);
    let mut i: usize = 0;
    while i < v.len()
        invariant
            all == said(v@),
            i <= v.len(),
            value_from(all, 0, key@) == value_from(all, i as int, key@),
        decreases v.len() - i,
    {
        if same_text(v[i].key.as_str(), key) {
            return Some(v[i].value.clone());
        }
        i = i + 1;
    }
    None
}

// ------------------------------------------------------------- laws

/// A number in the registry's answer is the hexadecimal one at the end of the first line
/// that holds one, and a service is disabled where that is four.
pub proof fn law_disabled_is_a_four(text: Seq<char>, k: int)
    requires
        0 <= k < lines(text).len(),
        forall|j: int| 0 <= j < k ==> !holds(#[trigger] lines(text)[j], "REG_DWORD"@),
        holds(lines(text)[k], "REG_DWORD"@),
        words(lines(text)[k]).len() > 0,
    ensures
        ({
            let w = words(lines(text)[k]).last();
            &&& w == seq!['0', 'x', '4'] || w == seq!['0', 'X', '4'] ==> is_disabled(Some(text))
            &&& w == seq!['0', 'x', '3'] || w == seq!['0', 'x', '2'] || w == seq!['4'] ==> !is_disabled(
                Some(text),
            )
        }),
        is_disabled(None) == false,
{
    lemma_start_at(lines(text), 0, k);
    reveal_strlit("0x");
    reveal_strlit("0X");
    let w = words(lines(text)[k]).last();
    if w.len() == 3 {
        let d = w.skip(2);
        assert(d.drop_last() =~= Seq::<char>::empty());
        assert(digits_value(d.drop_last(), 16) == Some(0int));
        if w[1] == 'x' && w[0] == '0' {
            assert(w.subrange(0, 2) =~= "0x"@);
        }
        if w[1] == 'X' && w[0] == '0' {
            assert(w.subrange(0, 2) =~= "0X"@);
        }
        assert(d.last() == w[2]);
        if w[2] == '4' {
            assert(digits_value(d, 16) == Some(4int));
        } else if w[2] == '3' {
            assert(digits_value(d, 16) == Some(3int));
        } else if w[2] == '2' {
            assert(digits_value(d, 16) == Some(2int));
        }
    }
}

proof fn lemma_start_at(ls: Seq<Seq<char>>, i: int, k: int)
    requires
        0 <= i <= k < ls.len(),
        forall|j: int| i <= j < k ==> !holds(#[trigger] ls[j], "REG_DWORD"@),
        holds(ls[k], "REG_DWORD"@),
        words(ls[k]).len() > 0,
    ensures
        start_from(ls, i) == hex_number(words(ls[k]).last()),
    decreases k - i,
{
    if i < k {
        assert(!holds(ls[i], "REG_DWORD"@));
        lemma_start_at(ls, i + 1, k);
    }
}

/// A default route is read off its line, and the best of several is the one with the lowest
/// metric, wherever it stands: none is better, and none as good stands before it.
pub proof fn law_the_best_route_is_the_cheapest(ls: Seq<Seq<char>>, n: int)
    requires
        0 <= n <= ls.len(),
    ensures
        match best_route(ls, n) {
            Some((g, m)) => {
                &&& exists|k: int|
                    0 <= k < n && #[trigger] route_on(ls[k]) == Some((g, m)) && forall|j: int|
                        0 <= j < k ==> (#[trigger] route_on(ls[j]) matches Some((_, x)) ==> m < x)
                &&& forall|j: int|
                    0 <= j < n ==> (#[trigger] route_on(ls[j]) matches Some((_, x)) ==> m <= x)
            },
            None => forall|j: int| 0 <= j < n ==> #[trigger] route_on(ls[j]) is None,
        },
    decreases n,
{
    if n > 0 {
        law_the_best_route_is_the_cheapest(ls, n - 1);
        let r = route_on(ls[n - 1]);
        if let Some((g, m)) = best_route(ls, n) {
            if best_route(ls, n - 1) == Some((g, m)) {
                let k = choose|k: int|
                    0 <= k < n - 1 && #[trigger] route_on(ls[k]) == Some((g, m)) && forall|j: int|
                        0 <= j < k ==> (#[trigger] route_on(ls[j]) matches Some((_, x)) ==> m < x);
                assert(route_on(ls[k]) == Some((g, m)));
            } else {
                assert(route_on(ls[n - 1]) == Some((g, m)));
            }
        }
    }
}

/// A line of the route table is a default route where both its destination and its mask are
/// all zeros, with its gateway third and its metric fifth.
pub proof fn law_a_route_is_read_off_its_line(line: Seq<char>, g: Ipv4Addr, m: int)
    requires
        words(line).len() >= 5,
        words(line)[2] == g.dotted(),
        words(line)[4] == decimal(m),
        0 <= m <= 0xffff_ffff,
    ensures
        ({
            let none = seq!['0', '.', '0', '.', '0', '.', '0'];
            &&& words(line)[0] == none && words(line)[1] == none ==> route_on(line) == Some((g, m))
            &&& words(line)[0] != none || words(line)[1] != none ==> route_on(line) is None
        }),
{
    reveal_strlit("0.0.0.0");
    assert("0.0.0.0"@ =~= seq!['0', '.', '0', '.', '0', '.', '0']);
    law_address_reads_back(g);
    law_decimal_reads_back(m, 0xffff_ffff);
}

/// A field of a report is what stands behind the first colon of its line, however far the
/// label is indented, and only the first line that begins with the label counts.
pub proof fn law_a_field_stands_behind_its_colon(
    ls: Seq<Seq<char>>,
    i: int,
    label: Seq<char>,
    pad: Seq<char>,
    v: Seq<char>,
)
    requires
        0 <= i < ls.len(),
        label.len() > 0 && !is_space(label[0]) && !label.contains(':'),
        forall|j: int| 0 <= j < pad.len() ==> #[trigger] pad[j] == ' ',
        v.len() > 0 && !is_space(v[0]) && !is_space(v.last()),
    ensures
        ls[i] == pad + label + pad + seq![':'] + pad + v ==> field_from(ls, i, label) == Some(v),
        !begins_with(trimmed_start(ls[i]), label) ==> field_from(ls, i, label) == field_from(
            ls,
            i + 1,
            label,
        ),
{
    if ls[i] == pad + label + pad + seq![':'] + pad + v {
        let line = ls[i];
        let behind = label + pad + seq![':'] + pad + v;
        assert(line =~= pad + behind);
        assert(behind[0] == label[0]);
        assert forall|j: int| 0 <= j < pad.len() implies is_space(#[trigger] pad[j]) by {
            assert(pad[j] == ' ');
        }
        lemma_pad_goes(pad, behind);
        assert(behind.subrange(0, label.len() as int) =~= label);
        let front = pad + label + pad;
        assert(!front.contains(':')) by {
            if front.contains(':') {
                let j = choose|j: int| 0 <= j < front.len() && front[j] == ':';
                if j < pad.len() {
                    assert(pad[j] == ' ');
                } else if j < pad.len() + label.len() {
                    assert(label[j - pad.len()] == ':');
                } else {
                    assert(pad[j - pad.len() - label.len()] == ' ');
                }
            }
        }
        assert(line =~= front + seq![':'] + (pad + v));
        law_a_text_is_cut_where_it_should(front, ':', pad + v);
        law_trimming_takes_what_stands_round(pad, v, Seq::empty());
        assert(pad + v + Seq::<char>::empty() =~= pad + v);
    }
}

proof fn lemma_pad_goes(pad: Seq<char>, s: Seq<char>)
    requires
        forall|j: int| 0 <= j < pad.len() ==> is_space(#[trigger] pad[j]),
        s.len() > 0 && !is_space(s[0]),
    ensures
        trimmed_start(pad + s) == s,
    decreases pad.len(),
{
    if pad.len() > 0 {
        assert(is_space(pad[0]));
        assert((pad + s).skip(1) =~= pad.skip(1) + s);
        assert forall|j: int| 0 <= j < pad.skip(1).len() implies is_space(#[trigger] pad.skip(1)[j]) by {
            assert(pad.skip(1)[j] == pad[j + 1]);
        }
        lemma_pad_goes(pad.skip(1), s);
    } else {
        assert(pad + s =~= s);
    }
}

/// A line that is meant for us begins with our mark; behind it stand a key and, behind a
/// space, its value. Every such line counts, in its order, and no other does.
pub proof fn law_what_is_meant_for_us_is_heard(
    ls: Seq<Seq<char>>,
    key: Seq<char>,
    v: Seq<char>,
    line: Seq<char>,
)
    requires
        !key.contains(' '),
        v.len() > 0 && !is_space(v[0]) && !is_space(v.last()),
    ensures
        said_in(ls.push(seq!['H', 'U', 'B', '_'] + key + seq![' '] + v)) == said_in(ls).push((key, v)),
        line.len() > 0 && !is_space(line[0]) && line[0] != 'H' && !is_space(line.last()) ==> said_in(
            ls.push(line),
        ) == said_in(ls),
{
    reveal_strlit("HUB_");
    let mark = seq!['H', 'U', 'B', '_'];
    assert("HUB_"@ =~= mark);
    let l = mark + key + seq![' '] + v;
    assert(ls.push(l).drop_last() =~= ls);
    assert(ls.push(line).drop_last() =~= ls);
    assert(l[0] == 'H' && l.last() == v.last());
    lemma_nothing_to_trim(l);
    assert(l.subrange(0, 4) =~= mark);
    assert(l.skip(4) =~= key + seq![' '] + v);
    law_a_text_is_cut_where_it_should(key, ' ', v);
    lemma_nothing_to_trim(v);
    if line.len() > 0 && !is_space(line[0]) && line[0] != 'H' && !is_space(line.last()) {
        lemma_nothing_to_trim(line);
        if begins_with(line, "HUB_"@) {
            assert(line.subrange(0, 4)[0] == 'H');
        }
    }
}

/// A number in a report is read in decimal, and something is supported where its field says
/// so first.
pub proof fn law_fields_are_read_as_what_they_are(
    text: Seq<char>,
    label: Seq<char>,
    n: int,
    rest: Seq<char>,
)
    requires
        0 <= n <= 0xffff_ffff,
    ensures
        field_in(text, label) == Some(decimal(n)) ==> count_in(text, label) == Some(n),
        field_in(text, label) is None ==> count_in(text, label) is None && supported(text, label) is None,
        field_in(text, label) == Some("Supported"@ + rest) ==> supported(text, label) == Some(true),
        field_in(text, label) == Some("Not supported"@) ==> supported(text, label) == Some(false),
{
    reveal_strlit("Supported");
    reveal_strlit("Not supported");
    law_decimal_reads_back(n, 0xffff_ffff);
    let yes = "Supported"@;
    let no = "Not supported"@;
    assert((yes + rest).subrange(0, 9) =~= yes);
    if begins_with(no, yes) {
        assert(no.subrange(0, 9)[0] == 'N');
    }
}

/// The advice names each service on a line of its own, and says on a line of its own what to
/// type for it.
pub proof fn law_each_service_has_its_lines(off: Seq<(Seq<char>, Seq<char>)>, n: int)
    requires
        0 <= n < off.len(),
    ensures
        named_lines(off, n + 1) == named_lines(off, n) + seq![' ', ' '] + off[n].1 + seq![' ', ' ', '(']
            + off[n].0 + seq![')', '\n'],
        typed_lines(off, n + 1) == typed_lines(off, n) + seq![' ', ' '] + "Set-Service "@ + off[n].0
            + " -StartupType Manual"@ + seq!['\n'],
{
    assert("  "@ =~= seq![' ', ' '] && "  ("@ =~= seq![' ', ' ', '('] && ")\n"@ =~= seq![')', '\n']) by {
        reveal_strlit("  ");
        reveal_strlit("  (");
        reveal_strlit(")\n");
    }
    assert("  Set-Service "@ =~= seq![' ', ' '] + "Set-Service "@ && " -StartupType Manual\n"@
        =~= " -StartupType Manual"@ + seq!['\n']) by {
        reveal_strlit("  Set-Service ");
        reveal_strlit("Set-Service ");
        reveal_strlit(" -StartupType Manual\n");
        reveal_strlit(" -StartupType Manual");
    }
    let t = typed_lines(off, n);
    assert(t + (seq![' ', ' '] + "Set-Service "@) =~= t + seq![' ', ' '] + "Set-Service "@);
    let u = t + seq![' ', ' '] + "Set-Service "@ + off[n].0;
    assert(u + (" -StartupType Manual"@ + seq!['\n']) =~= u + " -StartupType Manual"@ + seq!['\n']);
}

} // verus!
