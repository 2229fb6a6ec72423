//! Keeping the network up for as long as it is wanted.
//!
//! A network that silently disappears is the worst thing that can happen in a room.
//! So the guard looks every few seconds, switches the network back on where it is
//! gone, and says so on the screen while it does.

use crate::net::windows::{opt_int, said, value_from, win_get, Said};
use crate::number::{
    decimal, law_decimal_reads_back, lemma_decimal_not_empty, parse_decimal, push_decimal, unsigned,
};
use crate::text::{
    begins_with, chars_of, join, joined_by, same_text, starts_with_text, text_of, text_view, texts,
};
use vstd::prelude::*;

verus! {

pub const COMING_BACK: &'static str = "The wifi network went off. Switching it back on...";

pub const RADIO_IS_OFF: &'static str = "THE WIFI NETWORK IS OFF: this laptop's wifi is switched off and \
     Windows would not let the hub switch it on. Switch wifi ON (it does \
     not need to join anything). The network comes back by itself.";

pub const STILL_OFF: &'static str = "THE WIFI NETWORK IS OFF and did not come back yet. Make sure this \
     laptop's wifi is switched ON (aeroplane mode off). The hub keeps trying.";

pub const GONE: &'static str = "network gone: the hotspot's address disappeared";

pub const FULLY_OFF: &'static str = "still no address after two starts: switched fully off, starting again";

/// What the guard remembers from one look to the next.
pub struct Guard {
    /// How many looks in a row found no network.
    pub misses: u32,
    /// How many looks there have been.
    pub beats: u32,
    /// The second at which the network went.
    pub down_since: Option<u64>,
    /// Starts that were accepted and still brought no address.
    pub empty_starts: u32,
    /// What is wrong, in words for the screen. Empty where all is well.
    pub problem: String,
    /// The channel that was last measured. Nothing while the network is not up.
    pub channel: Option<u32>,
    /// The network is on 5 GHz, because the person chose it; 2.4 GHz otherwise.
    pub five: bool,
}

/// The channel that the card says it broadcasts on. Zero is no channel.
pub open spec fn channel_said(answer: Seq<(Seq<char>, Seq<char>)>) -> Option<int> {
    match value_from(answer, 0, "CHANNEL"@) {
        Some(v) => match unsigned(v, 10, 0xffff_ffff) {
            Some(n) => if n > 0 {
                Some(n)
            } else {
                None
            },
            None => None,
        },
        None => None,
    }
}

/// The channel that the card says it broadcasts on.
pub fn channel_from(answer: &Vec<Said>) -> (r: Option<u32>)
    ensures
        opt_int(r) == channel_said(said(answer@)),
{
    match win_get(answer, "CHANNEL") {
        Some(v) => {
            let c: Vec<char> = chars_of(v.as_str());
            match parse_decimal(c.as_slice(), 0xffff_ffff) {
                Some(n) => if n > 0 {
                    Some(n as u32)
                } else {
                    None
                },
                None => None,
            }
        },
        None => None,
    }
}

/// What a look asks for.
#[derive(Clone, Copy, Debug, PartialEq, Eq, Structural)]
pub enum Next {
    /// Nothing: look again after the pause.
    Wait,
    /// The channel is to be measured.
    Measure,
    /// The network is to be switched back on.
    Restart,
}

/// How the network is to be switched back on.
#[derive(Clone, Copy, Debug, PartialEq, Eq, Structural)]
pub enum Restart {
    /// Not at all: it was stopped on purpose.
    LeftOff,
    /// By a start.
    Start,
    /// Fully off first, and then by a start.
    StopFirst,
}

/// A number that stays where it is at its end.
pub open spec fn up_by_one(n: u32) -> u32 {
    if n < 0xffff_ffff {
        (n + 1) as u32
    } else {
        n
    }
}

fn one_more(n: u32) -> (r: u32)
    ensures
        r == up_by_one(n),
{
    if n < 0xffff_ffff {
        n + 1
    } else {
        n
    }
}

/// A number that begins again at its end.
pub open spec fn next_beat(n: u32) -> u32 {
    if n < 0xffff_ffff {
        (n + 1) as u32
    } else {
        0
    }
}

/// How long the network was away.
pub open spec fn away_for(since: Option<u64>, now: u64) -> Option<Seq<char>> {
    match since {
        None => None,
        Some(t) => Some(
            "network back after "@ + decimal(
                if now >= t {
                    now - t
                } else {
                    0
                },
            ) + " s"@,
        ),
    }
}

fn away(since: Option<u64>, now: u64) -> (r: Option<String>)
    ensures
        text_view(r) == away_for(since, now),
{
    match since {
        None => None,
        Some(t) => {
            let mut s = String::new();
            s.append("network back after ");
            push_decimal(
                &mut s,
                if now >= t {
                    now - t
                } else {
                    0
                },
            );
            s.append(" s");
            assert(s@ =~= away_for(since, now).unwrap());
            Some(s)
        },
    }
}

/// The answers as they are written down, one after the other.
pub open spec fn answers(v: Seq<(Seq<char>, Seq<char>)>) -> Seq<Seq<char>> {
    Seq::new(v.len(), |i: int| v[i].0 + " "@ + v[i].1)
}

/// What is written down of an attempt.
pub fn attempt_line(answer: &Vec<Said>) -> (s: String)
    ensures
        s@ == "switching back on; Windows said: "@ + joined_by(answers(said(answer@)), " | "@),
{
    let mut parts: Vec<String> = Vec::new();
    let ghost all = answers(said(answer@));
    let mut i: usize = 0;
    while i < answer.len()
        invariant
            all == answers(said(answer@)),
            i <= answer.len(),
            parts.len() == i,
            forall|k: int| 0 <= k < i ==> (#[trigger] parts@[k])@ == all[k],
        decreases answer.len() - i,
    {
        let mut p = text_of(answer[i].key.as_str());
        p.append(" ");
        p.append(answer[i].value.as_str());
        assert(p@ =~= all[i as int]);
        parts.push(p);
        i = i + 1;
    }
    assert(texts(parts@) =~= all);
    let joined: String = join(&parts, " | ");
    let mut s = text_of("switching back on; Windows said: ");
    s.append(joined.as_str());
    s
}

/// Whether a start was accepted: only that is worth waiting for.
pub open spec fn start_accepted(answer: Seq<(Seq<char>, Seq<char>)>) -> bool {
    ||| value_from(answer, 0, "STATE"@) == Some("On"@)
    ||| (value_from(answer, 0, "START"@) is Some && begins_with(
        value_from(answer, 0, "START"@).unwrap(),
        "Success"@,
    ))
}

/// Whether the radio could not be switched on.
pub open spec fn radio_refused(answer: Seq<(Seq<char>, Seq<char>)>) -> bool {
    value_from(answer, 0, "RADIO"@) is Some && value_from(answer, 0, "RADIO"@) != Some("Allowed"@)
}

/// Whether a start was accepted: only that is worth waiting for.
pub fn accepted(answer: &Vec<Said>) -> (r: bool)
    ensures
        r == start_accepted(said(answer@)),
{
    if let Some(state) = win_get(answer, "STATE") {
        if same_text(state.as_str(), "On") {
            return true;
        }
    }
    match win_get(answer, "START") {
        Some(s) => {
            let c: Vec<char> = chars_of(s.as_str());
            starts_with_text(c.as_slice(), "Success")
        },
        None => false,
    }
}

fn refused(answer: &Vec<Said>) -> (r: bool)
    ensures
        r == radio_refused(said(answer@)),
{
    match win_get(answer, "RADIO") {
        Some(s) => !same_text(s.as_str(), "Allowed"),
        None => false,
    }
}

impl Guard {
    /// A guard that has not looked yet.
    pub fn new() -> (g: Guard)
        ensures
            g.misses == 0,
            g.beats == 0,
            g.down_since is None,
            g.empty_starts == 0,
            g.problem@ == Seq::<char>::empty(),
            g.channel is None,
            !g.five,
    {
        let problem = String::new();
        assert(problem@ =~= Seq::<char>::empty());
        Guard {
            misses: 0,
            beats: 0,
            down_since: None,
            empty_starts: 0,
            problem,
            channel: None,
            five: false,
        }
    }

    /// How many seconds until the next look: fewer while the network is missing.
    pub fn pause(&self) -> (r: u64)
        ensures
            r == (if self.misses > 0 {
                2int
            } else {
                3
            }),
    {
        if self.misses > 0 {
            2
        } else {
            3
        }
    }

    /// What is wrong with the network, or nothing where it is up as it should be.
    pub fn hotspot_problem(&self) -> (r: Option<String>)
        ensures
            text_view(r) == (if self.problem@.len() == 0 {
                None
            } else {
                Some(self.problem@)
            }),
    {
        let c: Vec<char> = chars_of(self.problem.as_str());
        if c.len() == 0 {
            None
        } else {
            Some(text_of(self.problem.as_str()))
        }
    }

    /// Chooses the band. It is kept, so that the network comes back on the same one.
    pub fn set_wifi_band_5(&mut self, five: bool)
        ensures
            *final(self) == (Guard { five, ..*old(self) }),
    {
        self.five = five;
    }

    /// The word for the band that was chosen.
    pub fn band(&self) -> (word: &'static str)
        ensures
            word@ == (if self.five {
                "5"@
            } else {
                "2.4"@
            }),
    {
        if self.five {
            "5"
        } else {
            "2.4"
        }
    }

    /// The channel that was last measured.
    pub fn hotspot_channel(&self) -> (r: Option<u32>)
        ensures
            r == self.channel,
    {
        self.channel
    }

    /// Takes down the channel that the card says it broadcasts on.
    pub fn measure(&mut self, answer: &Vec<Said>)
        ensures
            *final(self) == (Guard { channel: final(self).channel, ..*old(self) }),
            opt_int(final(self).channel) == channel_said(said(answer@)),
    {
        self.channel = channel_from(answer);
    }

    /// What one look asks for.
    pub open spec fn asks(self, wanted: bool, there: bool) -> Next {
        if !wanted {
            Next::Wait
        } else if there {
            if next_beat(self.beats) % 10 == 0 || self.channel is None {
                Next::Measure
            } else {
                Next::Wait
            }
        } else if up_by_one(self.misses) == 1 {
            Next::Wait
        } else {
            Next::Restart
        }
    }

    /// What one look writes down.
    pub open spec fn notes(self, wanted: bool, there: bool, now: u64) -> Option<Seq<char>> {
        if !wanted {
            None
        } else if there {
            away_for(self.down_since, now)
        } else if up_by_one(self.misses) == 1 {
            Some(GONE@)
        } else {
            None
        }
    }

    /// One look: whether the network is wanted and whether it is there. Gives what to
    /// do and what to write down.
    pub fn look(&mut self, wanted: bool, there: bool, now: u64) -> (r: (
        Next,
        Option<String>,
    ))
        ensures
            r.0 == old(self).asks(wanted, there),
            text_view(r.1) == old(self).notes(wanted, there, now),
            final(self).beats == next_beat(old(self).beats),
            final(self).five == old(self).five,
            final(self).channel == (if wanted && !there {
                None
            } else {
                old(self).channel
            }),
            final(self).empty_starts == old(self).empty_starts,
            final(self).misses == (if !wanted || there {
                0
            } else {
                up_by_one(old(self).misses)
            }),
            final(self).down_since == (if !wanted || there {
                None
            } else if up_by_one(old(self).misses) == 1 {
                Some(now)
            } else {
                old(self).down_since
            }),
            final(self).problem@ == (if !wanted || there {
                Seq::empty()
            } else if up_by_one(old(self).misses) == 1 {
                old(self).problem@
            } else {
                COMING_BACK@
            }),
    {
        self.beats = if self.beats < 0xffff_ffff {
            self.beats + 1
        } else {
            0
        };
        if !wanted || there {
            let note: Option<String> = if wanted {
                away(self.down_since, now)
            } else {
                None
            };
            self.problem = text_of("");
            proof {
                reveal_strlit("");
                assert(self.problem@ =~= Seq::<char>::empty());
            }
            self.misses = 0;
            self.down_since = None;
            let measured: bool = match self.channel {
                Some(_) => true,
                None => false,
            };
            if wanted && (self.beats % 10 == 0 || !measured) {
                return (Next::Measure, note);
            }
            return (Next::Wait, note);
        }
        self.channel = None;
        self.misses = one_more(self.misses);
        if self.misses == 1 {
            self.down_since = Some(now);
            return (Next::Wait, Some(text_of(GONE)));
        }
        self.problem = text_of(COMING_BACK);
        (Next::Restart, None)
    }

    /// How the network is switched back on, once nobody else is switching it:
    /// not at all where it was stopped on purpose meanwhile, and fully off first
    /// where two starts were accepted and brought nothing.
    pub fn restart(&mut self, still_wanted: bool) -> (r: (Restart, Option<String>))
        ensures
            r.0 == (if !still_wanted {
                Restart::LeftOff
            } else if old(self).empty_starts >= 2 {
                Restart::StopFirst
            } else {
                Restart::Start
            }),
            text_view(r.1) == (if r.0 == Restart::StopFirst {
                Some(FULLY_OFF@)
            } else {
                None
            }),
            final(self).empty_starts == (if r.0 == Restart::StopFirst {
                0
            } else {
                old(self).empty_starts
            }),
            final(self).misses == old(self).misses,
            final(self).beats == old(self).beats,
            final(self).down_since == old(self).down_since,
            final(self).problem == old(self).problem,
            final(self).channel == old(self).channel,
            final(self).five == old(self).five,
    {
        if !still_wanted {
            return (Restart::LeftOff, None);
        }
        if self.empty_starts >= 2 {
            self.empty_starts = 0;
            return (Restart::StopFirst, Some(text_of(FULLY_OFF)));
        }
        (Restart::Start, None)
    }

    /// What came of an attempt: whether the address came up after a start that was
    /// accepted. Gives whether the channel is to be measured, and what to write
    /// down.
    pub fn settle(&mut self, answer: &Vec<Said>, came_up: bool, now: u64) -> (r: (
        Next,
        Option<String>,
    ))
        ensures
            ({
                let yes = start_accepted(said(answer@));
                let up = yes && came_up;
                &&& r.0 == (if up {
                    Next::Measure
                } else {
                    Next::Wait
                })
                &&& text_view(r.1) == (if up {
                    away_for(old(self).down_since, now)
                } else {
                    None
                })
                &&& final(self).beats == old(self).beats
                &&& final(self).channel == old(self).channel
                &&& final(self).five == old(self).five
                &&& final(self).misses == (if up {
                    0
                } else {
                    old(self).misses
                })
                &&& final(self).down_since == (if up {
                    None
                } else {
                    old(self).down_since
                })
                &&& final(self).empty_starts == (if up {
                    0
                } else if yes {
                    up_by_one(old(self).empty_starts)
                } else {
                    old(self).empty_starts
                })
                &&& final(self).problem@ == (if up {
                    Seq::empty()
                } else if radio_refused(said(answer@)) {
                    RADIO_IS_OFF@
                } else {
                    STILL_OFF@
                })
            }),
    {
        let yes: bool = accepted(answer);
        if yes && came_up {
            let note: Option<String> = away(self.down_since, now);
            self.empty_starts = 0;
            self.down_since = None;
            self.problem = text_of("");
            proof {
                reveal_strlit("");
                assert(self.problem@ =~= Seq::<char>::empty());
            }
            self.misses = 0;
            return (Next::Measure, note);
        }
        if yes {
            self.empty_starts = one_more(self.empty_starts);
        }
        if refused(answer) {
            self.problem = text_of(RADIO_IS_OFF);
        } else {
            self.problem = text_of(STILL_OFF);
        }
        (Next::Wait, None)
    }
}

/// A moment's hiccup is no restart: only a look that finds the network missing
/// right after another that did asks for one, and only while it is wanted.
pub proof fn law_a_hiccup_is_no_restart(g: Guard, wanted: bool, there: bool)
    ensures
        g.asks(wanted, there) == Next::Restart <==> wanted && !there && g.misses > 0,
{
}

/// The network's coming back is written down where its going was: a guard that
/// remembers when the network went says how long it was away, and no other does.
pub proof fn law_every_absence_is_written_down(g: Guard, now: u64)
    ensures
        g.notes(true, true, now) is Some <==> g.down_since is Some,
        g.misses == 0 ==> g.notes(true, false, now) == Some(GONE@),
{
}

/// A network that is there is measured on every tenth look, and on each until something has
/// been measured; one that is not wanted is left alone.
pub proof fn law_when_the_channel_is_measured(g: Guard, there: bool)
    requires
        g.beats < 0xffff_ffff,
    ensures
        g.asks(true, true) == Next::Measure <==> (g.beats + 1) % 10 == 0 || g.channel is None,
        g.asks(false, there) == Next::Wait,
        g.asks(true, true) != Next::Restart,
{
}

/// How long the network was away is told in seconds, from the look that missed it to the
/// one that found it.
pub proof fn law_an_absence_is_told_in_seconds(t: u64, now: u64)
    requires
        t <= now,
    ensures
        ({
            let s = away_for(Some(t), now);
            &&& s is Some
            &&& s->0.len() > 21
            &&& unsigned(s->0.subrange(19, s->0.len() - 2), 10, u64::MAX as int) == Some(now - t)
            &&& s->0.skip(s->0.len() - 2) == seq![' ', 's']
        }),
{
    reveal_strlit("network back after ");
    reveal_strlit(" s");
    let d = decimal(now - t);
    let s = away_for(Some(t), now)->0;
    law_decimal_reads_back(now - t, u64::MAX as int);
    lemma_decimal_not_empty(now - t);
    assert(s.subrange(19, s.len() - 2) =~= d);
    assert(s.skip(s.len() - 2) =~= seq![' ', 's']);
}

proof fn lemma_value_at(v: Seq<(Seq<char>, Seq<char>)>, i: int, k: int, key: Seq<char>)
    requires
        0 <= i <= k < v.len(),
        v[k].0 == key,
        forall|j: int| i <= j < k ==> (#[trigger] v[j]).0 != key,
    ensures
        value_from(v, i, key) == Some(v[k].1),
    decreases k - i,
{
    if i < k {
        assert(v[i].0 != key);
        lemma_value_at(v, i + 1, k, key);
    }
}

proof fn lemma_value_missing(v: Seq<(Seq<char>, Seq<char>)>, i: int, key: Seq<char>)
    requires
        0 <= i,
        forall|j: int| i <= j < v.len() ==> (#[trigger] v[j]).0 != key,
    ensures
        value_from(v, i, key) is None,
    decreases v.len() - i,
{
    if i < v.len() {
        lemma_value_missing(v, i + 1, key);
    }
}

/// A start was accepted where the system says that the network is on, or that the start was
/// a success, and nowhere else; the radio could not be switched on where the system says
/// anything of it but that it was allowed.
pub proof fn law_what_the_system_said_counts(said: Seq<(Seq<char>, Seq<char>)>, k: int)
    requires
        0 <= k < said.len(),
        forall|j: int| 0 <= j < k ==> (#[trigger] said[j]).0 != said[k].0,
    ensures
        said[k].0 == "STATE"@ && said[k].1 == "On"@ ==> start_accepted(said),
        said[k].0 == "START"@ && said[k].1.len() >= 7 && said[k].1.take(7) == "Success"@
            ==> start_accepted(said),
        said[k].0 == "RADIO"@ ==> (radio_refused(said) <==> said[k].1 != "Allowed"@),
        said[k].0 == "CHANNEL"@ ==> forall|n: int|
            0 < n <= 0xffff_ffff && said[k].1 == #[trigger] decimal(n) ==> channel_said(said) == Some(n),
        (forall|j: int|
            0 <= j < said.len() ==> (#[trigger] said[j]).0 != "STATE"@ && said[j].0 != "START"@)
            ==> !start_accepted(said),
        (forall|j: int| 0 <= j < said.len() ==> (#[trigger] said[j]).0 != "RADIO"@)
            ==> !radio_refused(said),
{
    reveal_strlit("Success");
    lemma_value_at(said, 0, k, said[k].0);
    if said[k].1.len() >= 7 && said[k].1.take(7) == "Success"@ {
        assert(said[k].1.subrange(0, 7) =~= said[k].1.take(7));
    }
    assert forall|n: int| 0 < n <= 0xffff_ffff && said[k].1 == #[trigger] decimal(n) && said[k].0
        == "CHANNEL"@ implies channel_said(said) == Some(n) by {
        law_decimal_reads_back(n, 0xffff_ffff);
    }
    if forall|j: int|
        0 <= j < said.len() ==> (#[trigger] said[j]).0 != "STATE"@ && said[j].0 != "START"@ {
        lemma_value_missing(said, 0, "STATE"@);
        lemma_value_missing(said, 0, "START"@);
    }
    if forall|j: int| 0 <= j < said.len() ==> (#[trigger] said[j]).0 != "RADIO"@ {
        lemma_value_missing(said, 0, "RADIO"@);
    }
}

/// Each answer of the system is written down as its key and its value with a space between.
pub proof fn law_answers_are_written_down(v: Seq<(Seq<char>, Seq<char>)>, i: int)
    requires
        0 <= i < v.len(),
    ensures
        answers(v).len() == v.len(),
        answers(v)[i] == v[i].0 + seq![' '] + v[i].1,
{
    reveal_strlit(" ");
    assert(" "@ =~= seq![' ']);
}

} // verus!
