//! What was typed.

use super::wire::{default_name, last_step, parse_url, url_of, Url};
use crate::number::{decimal, law_decimal_reads_back, parse_decimal, unsigned};
use crate::text::{chars_of, same_text, texts};
use vstd::prelude::*;

verus! {

/// How a file is to be fetched.
#[derive(Debug)]
pub struct Choices {
    /// How many pieces at a time.
    pub workers: usize,
    /// Where to save it.
    pub out: String,
    /// Whether to check every piece.
    pub verify: bool,
    /// Whether to try several numbers of workers instead.
    pub bench: bool,
}

/// How a file is to be fetched, as plain values.
pub struct ChoicesModel {
    pub workers: int,
    pub out: Seq<char>,
    pub verify: bool,
    pub bench: bool,
}

impl View for Choices {
    type V = ChoicesModel;

    open spec fn view(&self) -> ChoicesModel {
        ChoicesModel {
            workers: self.workers as int,
            out: self.out@,
            verify: self.verify,
            bench: self.bench,
        }
    }
}

/// What one option with its value makes of the choices. Four workers are the
/// default; a number that cannot be read means eight.
pub open spec fn chosen(c: ChoicesModel, option: Seq<char>, value: Seq<char>) -> ChoicesModel {
    if option == "-n"@ {
        ChoicesModel {
            workers: match unsigned(value, 10, usize::MAX as int) {
                Some(n) => n,
                None => 8,
            },
            ..c
        }
    } else if option == "-o"@ {
        ChoicesModel { out: value, ..c }
    } else if option == "--verify"@ || option == "-v"@ {
        ChoicesModel { verify: value != "off"@, ..c }
    } else if option == "--bench"@ {
        ChoicesModel { bench: value != "off"@, ..c }
    } else {
        c
    }
}

/// What the options from `i` on, each with its value, make of the choices.
pub open spec fn chosen_from(args: Seq<Seq<char>>, i: int, c: ChoicesModel) -> ChoicesModel
    decreases args.len() + 1 - i,
{
    if i + 1 >= args.len() {
        c
    } else {
        chosen_from(args, i + 2, chosen(c, args[i], args[i + 1]))
    }
}

/// What to do about what was typed.
#[derive(Debug)]
pub enum Command {
    /// Nothing was asked for: say how it works, and fail.
    Usage,
    /// Say how it works.
    Help,
    /// That is no web address.
    BadAddress,
    Fetch(Choices),
}

/// Whether a command is what was typed, the program's own name first.
pub open spec fn command_matches(args: Seq<Seq<char>>, c: Command) -> bool {
    if args.len() < 2 {
        c is Usage
    } else if args[1] == "-h"@ || args[1] == "--help"@ {
        c is Help
    } else {
        match url_of(args[1]) {
            None => c is BadAddress,
            Some(u) => c matches Command::Fetch(o) && o@ == chosen_from(
                args,
                2,
                ChoicesModel { workers: 4, out: last_step(u.path), verify: false, bench: false },
            ),
        }
    }
}

fn choose_one(c: Choices, option: &str, value: &str) -> (r: Choices)
    ensures
        r@ == chosen(c@, option@, value@),
{
    let mut r: Choices = c;
    if same_text(option, "-n") {
        let v: Vec<char> = chars_of(value);
        r.workers = match parse_decimal(v.as_slice(), usize::MAX as u64) {
            Some(n) => n as usize,
            None => 8,
        };
    } else if same_text(option, "-o") {
        r.out = value.to_owned();
    } else if same_text(option, "--verify") || same_text(option, "-v") {
        r.verify = !same_text(value, "off");
    } else if same_text(option, "--bench") {
        r.bench = !same_text(value, "off");
    }
    r
}

/// Read what was typed.
pub fn parse_command(args: &Vec<String>) -> (c: Command)
    ensures
        command_matches(texts(args@), c),
{
    let ghost all = texts(args@);
    if args.len() < 2 {
        return Command::Usage;
    }
    assert(all[1] == args@[1]@);
    if same_text(args[1].as_str(), "-h") || same_text(args[1].as_str(), "--help") {
        return Command::Help;
    }
    let u: Url = match parse_url(args[1].as_str()) {
        Some(u) => u,
        None => {
            return Command::BadAddress;
        },
    };
    let mut c = Choices { workers: 4, out: default_name(&u), verify: false, bench: false };
    let ghost start = c@;
    let mut i: usize = 2;
    while i < args.len() && args.len() - i > 1
        invariant
            all == texts(args@),
            2 <= i,
            i <= args.len() + 1,
            chosen_from(all, 2, start) == chosen_from(all, i as int, c@),
        decreases args.len() + 1 - i,
    {
        assert(all[i as int] == args@[i as int]@ && all[i + 1] == args@[i + 1]@);
        c = choose_one(c, args[i].as_str(), args[i + 1].as_str());
        i = i + 2;
    }
    Command::Fetch(c)
}

/// Each option does what it says and leaves the rest as it was: how many pieces at a time,
/// where to save, whether to check and whether to measure. A number that cannot be read
/// means eight, and anything but "off" means on.
pub proof fn law_each_choice_is_its_own(c: ChoicesModel, value: Seq<char>, n: int, other: Seq<char>)
    requires
        0 <= n <= usize::MAX,
        other != "-n"@ && other != "-o"@ && other != "--verify"@ && other != "-v"@ && other
            != "--bench"@,
    ensures
        chosen(c, "-n"@, decimal(n)) == (ChoicesModel { workers: n, ..c }),
        unsigned(value, 10, usize::MAX as int) is None ==> chosen(c, "-n"@, value) == (ChoicesModel {
            workers: 8,
            ..c
        }),
        chosen(c, "-o"@, value) == (ChoicesModel { out: value, ..c }),
        value != seq!['o', 'f', 'f'] ==> chosen(c, "--verify"@, value) == (ChoicesModel {
            verify: true,
            ..c
        }) && chosen(c, "-v"@, value) == (ChoicesModel { verify: true, ..c }) && chosen(
            c,
            "--bench"@,
            value,
        ) == (ChoicesModel { bench: true, ..c }),
        value == seq!['o', 'f', 'f'] ==> chosen(c, "--verify"@, value) == (ChoicesModel {
            verify: false,
            ..c
        }) && chosen(c, "-v"@, value) == (ChoicesModel { verify: false, ..c }) && chosen(
            c,
            "--bench"@,
            value,
        ) == (ChoicesModel { bench: false, ..c }),
        chosen(c, other, value) == c,
{
    reveal_strlit("-n");
    reveal_strlit("-o");
    reveal_strlit("-v");
    reveal_strlit("--verify");
    reveal_strlit("--bench");
    reveal_strlit("off");
    assert("-n"@[1] == 'n' && "-o"@[1] == 'o' && "-v"@[1] == 'v' && "--verify"@[1] == '-'
        && "--bench"@[1] == '-');
    assert("--verify"@[2] == 'v' && "--bench"@[2] == 'b');
    assert("off"@ =~= seq!['o', 'f', 'f']);
    law_decimal_reads_back(n, usize::MAX as int);
}

/// The options of a line count one after the other, each with its value; one without a
/// value at the end does not.
pub proof fn law_choices_count_in_their_order(args: Seq<Seq<char>>, i: int, c: ChoicesModel)
    requires
        0 <= i <= args.len(),
    ensures
        i + 1 < args.len() ==> chosen_from(args, i, c) == chosen_from(
            args,
            i + 2,
            chosen(c, args[i], args[i + 1]),
        ),
        i + 1 >= args.len() ==> chosen_from(args, i, c) == c,
{
}

/// A line with nothing but an address fetches it four pieces at a time, unchecked, to a file
/// of its own name.
pub proof fn law_an_address_is_enough(prog: Seq<char>, at: Seq<char>, c: Command)
    requires
        at != "-h"@ && at != "--help"@,
        command_matches(seq![prog, at], c),
    ensures
        url_of(at) is None <==> c is BadAddress,
        url_of(at) matches Some(u) ==> (c matches Command::Fetch(o) && o.workers == 4 && o.out@
            == last_step(u.path) && !o.verify && !o.bench),
        command_matches(seq![prog], Command::Usage),
        command_matches(seq![prog, "-h"@], Command::Help),
        command_matches(seq![prog, "--help"@], Command::Help),
{
    let args = seq![prog, at];
    assert(args[1] == at && args.len() == 2);
    assert(seq![prog, "-h"@][1] == "-h"@);
    assert(seq![prog, "--help"@][1] == "--help"@);
}

} // verus!
