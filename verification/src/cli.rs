//! The command line: which command is meant, what its words say, and what is said
//! to the person who typed them.

use crate::addr::Ipv4Addr;
use crate::cable::Peer;
use crate::number::{decimal, law_decimal_reads_back, parse_decimal, push_decimal, unsigned};
use crate::serve::paths::{escaped_bytes, urlencode};
use crate::term::frame::{push_spaces, spaces};
use crate::text::{
    begins_with, chars_of, same_text, starts_with_text, string_of, text_of, text_view, texts,
};
use vstd::prelude::*;
use vstd::slice::slice_subrange;
use vstd::utf8::encode_utf8;

verus! {

// ------------------------------------------------------------- words

/// The place of a word among some, from `i` on.
pub open spec fn place_from(args: Seq<Seq<char>>, i: int, name: Seq<char>) -> Option<int>
    decreases args.len() - i,
{
    if i >= args.len() {
        None
    } else if args[i] == name {
        Some(i)
    } else {
        place_from(args, i + 1, name)
    }
}

/// The value of a flag: the word behind the first place where it stands.
pub open spec fn flag_of(args: Seq<Seq<char>>, name: Seq<char>) -> Option<Seq<char>> {
    match place_from(args, 0, name) {
        Some(i) => if i + 1 < args.len() {
            Some(args[i + 1])
        } else {
            None
        },
        None => None,
    }
}

fn place(args: &Vec<String>, name: &str) -> (r: Option<usize>)
    ensures
        r is Some <==> place_from(texts(args@), 0, name@) is Some,
        r matches Some(i) ==> i < args.len() && place_from(texts(args@), 0, name@) == Some(
            i as int,
        ),
{
    let ghost all = texts(args@);
    let mut i: usize = 0;
    while i < args.len()
        invariant
            all == texts(args@),
            i <= args.len(),
            place_from(all, 0, name@) == place_from(all, i as int, name@),
        decreases args.len() - i,
    {
        assert(all[i as int] == args@[i as int]@);
        if same_text(args[i].as_str(), name) {
            return Some(i);
        }
        i = i + 1;
    }
    assert(all.len() == args@.len());
    None
}

/// The value of a flag, if it has one.
pub fn flag(args: &Vec<String>, name: &str) -> (r: Option<String>)
    ensures
        text_view(r) == flag_of(texts(args@), name@),
{
    assert(texts(args@).len() == args@.len());
    match place(args, name) {
        Some(i) => if i + 1 < args.len() {
            assert(texts(args@)[i + 1] == args@[i + 1]@);
            Some(text_of(args[i + 1].as_str()))
        } else {
            None
        },
        None => None,
    }
}

fn has(args: &Vec<String>, name: &str) -> (r: bool)
    ensures
        r == (place_from(texts(args@), 0, name@) is Some),
{
    match place(args, name) {
        Some(_) => true,
        None => false,
    }
}

/// Whether help is asked for.
pub open spec fn wants_help(args: Seq<Seq<char>>) -> bool {
    place_from(args, 0, "-h"@) is Some || place_from(args, 0, "--help"@) is Some
}

/// A path that a person can read, without the prefix that is meant for programs.
pub open spec fn readable(path: Seq<char>) -> Seq<char> {
    if begins_with(path, "\\\\?\\UNC\\"@) {
        "\\\\"@ + path.skip(8)
    } else if begins_with(path, "\\\\?\\"@) {
        path.skip(4)
    } else {
        path
    }
}

/// A path that a person can read, without the prefix that is meant for programs.
pub fn plain_path(path: &str) -> (s: String)
    ensures
        s@ == readable(path@),
{
    proof {
        reveal_strlit("\\\\?\\UNC\\");
        reveal_strlit("\\\\?\\");
    }
    let c: Vec<char> = chars_of(path);
    if starts_with_text(c.as_slice(), "\\\\?\\UNC\\") {
        let rest = slice_subrange(c.as_slice(), 8, c.len());
        assert(rest@ =~= path@.skip(8));
        let tail: String = string_of(rest);
        let mut s = text_of("\\\\");
        s.append(tail.as_str());
        return s;
    }
    if starts_with_text(c.as_slice(), "\\\\?\\") {
        let rest = slice_subrange(c.as_slice(), 4, c.len());
        assert(rest@ =~= path@.skip(4));
        return string_of(rest);
    }
    text_of(path)
}

// ------------------------------------------------------------- commands

/// Which command is meant.
#[derive(Clone, Copy, Debug, PartialEq, Eq, Structural)]
pub enum Command {
    Screen,
    Serve,
    CableSend,
    CableGet,
    FixFirewall,
    Get,
    Sums,
    Services,
    Doctor,
    Help,
    Version,
    Unknown,
}

/// Which command a word means.
pub open spec fn meaning(word: Seq<char>) -> Command {
    if word == "serve"@ {
        Command::Serve
    } else if word == "cable"@ || word == "cable-send"@ {
        Command::CableSend
    } else if word == "cable-get"@ || word == "cable-receive"@ {
        Command::CableGet
    } else if word == "fix-firewall"@ {
        Command::FixFirewall
    } else if word == "get"@ || word == "fetch"@ {
        Command::Get
    } else if word == "sums"@ {
        Command::Sums
    } else if word == "services"@ {
        Command::Services
    } else if word == "screen"@ || word == "tui"@ {
        Command::Screen
    } else if word == "doctor"@ {
        Command::Doctor
    } else if word == "-h"@ || word == "--help"@ || word == "help"@ {
        Command::Help
    } else if word == "-V"@ || word == "--version"@ || word == "version"@ {
        Command::Version
    } else {
        Command::Unknown
    }
}

/// Which command the words of the command line mean. No words open the screen: that
/// is what a double click sends.
pub fn command(args: &Vec<String>) -> (c: Command)
    ensures
        c == (if args.len() < 2 {
            Command::Screen
        } else {
            meaning(args@[1]@)
        }),
{
    if args.len() < 2 {
        return Command::Screen;
    }
    let word: &str = args[1].as_str();
    if same_text(word, "serve") {
        Command::Serve
    } else if same_text(word, "cable") || same_text(word, "cable-send") {
        Command::CableSend
    } else if same_text(word, "cable-get") || same_text(word, "cable-receive") {
        Command::CableGet
    } else if same_text(word, "fix-firewall") {
        Command::FixFirewall
    } else if same_text(word, "get") || same_text(word, "fetch") {
        Command::Get
    } else if same_text(word, "sums") {
        Command::Sums
    } else if same_text(word, "services") {
        Command::Services
    } else if same_text(word, "screen") || same_text(word, "tui") {
        Command::Screen
    } else if same_text(word, "doctor") {
        Command::Doctor
    } else if same_text(word, "-h") || same_text(word, "--help") || same_text(word, "help") {
        Command::Help
    } else if same_text(word, "-V") || same_text(word, "--version") || same_text(
        word,
        "version",
    ) {
        Command::Version
    } else {
        Command::Unknown
    }
}

/// The words that a command sees: all but its own name.
pub fn rest_of(args: &Vec<String>) -> (out: Vec<String>)
    ensures
        texts(out@) == (if args.len() < 2 {
            texts(args@)
        } else {
            texts(args@).take(1) + texts(args@).skip(2)
        }),
{
    let mut out: Vec<String> = Vec::new();
    let ghost all = texts(args@);
    let ghost goal = if args.len() < 2 {
        all
    } else {
        all.take(1) + all.skip(2)
    };
    let mut i: usize = 0;
    while i < args.len()
        invariant
            all == texts(args@),
            goal == (if args.len() < 2 {
                all
            } else {
                all.take(1) + all.skip(2)
            }),
            i <= args.len(),
            out.len() == (if i < 2 {
                i as int
            } else {
                i - 1
            }),
            forall|k: int| 0 <= k < out.len() ==> (#[trigger] out@[k])@ == goal[k],
        decreases args.len() - i,
    {
        assert(all[i as int] == args@[i as int]@);
        if i != 1 {
            let t: String = text_of(args[i].as_str());
            assert(t@ == goal[out.len() as int]);
            out.push(t);
        }
        i = i + 1;
    }
    assert(texts(out@) =~= goal);
    out
}

// ------------------------------------------------------------- sending

/// What is asked for when a folder is to be sent down a cable.
pub enum Sending {
    Help,
    /// No folder was named.
    NoFolder,
    Go {
        folder: String,
        /// What to call this computer, where it was said.
        name: Option<String>,
        port: u16,
        /// Addresses are given out even beside another network.
        anyway: bool,
    },
}

/// The first word from `i` on that is no flag.
pub open spec fn plain_from(args: Seq<Seq<char>>, i: int) -> Option<Seq<char>>
    decreases args.len() - i,
{
    if i >= args.len() {
        None
    } else if !(args[i].len() > 0 && args[i][0] == '-') {
        Some(args[i])
    } else {
        plain_from(args, i + 1)
    }
}

/// The number of a flag, or another where it has none.
pub open spec fn number_of(value: Option<Seq<char>>, max: int, otherwise: int) -> int {
    match value {
        Some(v) => match unsigned(v, 10, max) {
            Some(n) => n,
            None => otherwise,
        },
        None => otherwise,
    }
}

/// What is asked for, as plain values.
pub open spec fn sending_view(s: Sending) -> Option<
    Option<(Seq<char>, Option<Seq<char>>, int, bool)>,
> {
    match s {
        Sending::Help => None,
        Sending::NoFolder => Some(None),
        Sending::Go { folder, name, port, anyway } => Some(
            Some((folder@, text_view(name), port as int, anyway)),
        ),
    }
}

/// What the words ask for.
pub open spec fn sending_of(args: Seq<Seq<char>>) -> Option<
    Option<(Seq<char>, Option<Seq<char>>, int, bool)>,
> {
    if wants_help(args) {
        None
    } else {
        match plain_from(args, 1) {
            None => Some(None),
            Some(folder) => Some(
                Some(
                    (
                        folder,
                        flag_of(args, "--name"@),
                        number_of(flag_of(args, "--port"@), 0xffff, 8080),
                        place_from(args, 0, "--addresses-anyway"@) is Some,
                    ),
                ),
            ),
        }
    }
}

fn first_plain(args: &Vec<String>) -> (r: Option<String>)
    ensures
        text_view(r) == plain_from(texts(args@), 1),
{
    let ghost all = texts(args@);
    assert(all.len() == args@.len());
    let mut i: usize = 1;
    while i < args.len()
        invariant
            all == texts(args@),
            i >= 1,
            plain_from(all, 1) == plain_from(all, i as int),
        decreases args.len() - i,
    {
        assert(all[i as int] == args@[i as int]@);
        let c: Vec<char> = chars_of(args[i].as_str());
        if !(c.len() > 0 && c[0] == '-') {
            return Some(text_of(args[i].as_str()));
        }
        i = i + 1;
    }
    assert(all.len() == args@.len());
    None
}

fn flag_number(args: &Vec<String>, name: &str, max: u64, otherwise: u64) -> (r: u64)
    requires
        otherwise <= max,
    ensures
        r == number_of(flag_of(texts(args@), name@), max as int, otherwise as int),
        r <= max,
{
    match flag(args, name) {
        Some(v) => {
            let c: Vec<char> = chars_of(v.as_str());
            match parse_decimal(c.as_slice(), max) {
                Some(n) => n,
                None => otherwise,
            }
        },
        None => otherwise,
    }
}

/// What the words of the sending command ask for.
pub fn cable_send(args: &Vec<String>) -> (s: Sending)
    ensures
        sending_view(s) == sending_of(texts(args@)),
{
    if has(args, "-h") || has(args, "--help") {
        return Sending::Help;
    }
    match first_plain(args) {
        None => Sending::NoFolder,
        Some(folder) => Sending::Go {
            folder,
            name: flag(args, "--name"),
            port: flag_number(args, "--port", 0xffff, 8080) as u16,
            anyway: has(args, "--addresses-anyway"),
        },
    }
}

/// The words that the serving command is given by the sending one.
pub fn serve_words(own: &str, folder: &str, port: u16) -> (v: Vec<String>)
    ensures
        texts(v@) == seq![own@, folder@, "--port"@, decimal(port as int)],
{
    let mut n = String::new();
    push_decimal(&mut n, port as u64);
    assert(n@ =~= decimal(port as int));
    let mut v: Vec<String> = Vec::new();
    v.push(text_of(own));
    v.push(text_of(folder));
    v.push(text_of("--port"));
    v.push(n);
    assert(texts(v@) =~= seq![own@, folder@, "--port"@, decimal(port as int)]);
    v
}

/// The first address from `i` on that a cable gives by itself.
pub open spec fn link_local_from(addresses: Seq<Ipv4Addr>, i: int) -> Option<Ipv4Addr>
    decreases addresses.len() - i,
{
    if i >= addresses.len() {
        None
    } else if addresses[i].link_local() {
        Some(addresses[i])
    } else {
        link_local_from(addresses, i + 1)
    }
}

fn link_local_one(addresses: &[Ipv4Addr]) -> (r: Option<Ipv4Addr>)
    ensures
        r == link_local_from(addresses@, 0),
{
    let mut i: usize = 0;
    while i < addresses.len()
        invariant
            i <= addresses.len(),
            link_local_from(addresses@, 0) == link_local_from(addresses@, i as int),
        decreases addresses.len() - i,
    {
        if addresses[i].is_link_local() {
            return Some(addresses[i]);
        }
        i = i + 1;
    }
    None
}

/// The address that a name on the cable is answered with.
pub fn cable_address(addresses: &[Ipv4Addr]) -> (r: Ipv4Addr)
    ensures
        r == (match link_local_from(addresses@, 0) {
            Some(ip) => ip,
            None => (Ipv4Addr { a: 169, b: 254, c: 1, d: 1 }),
        }),
{
    match link_local_one(addresses) {
        Some(ip) => ip,
        None => Ipv4Addr { a: 169, b: 254, c: 1, d: 1 },
    }
}

/// What is known of the cable.
pub struct Wire {
    pub measured: bool,
    pub adapter: String,
    pub megabits: u64,
    pub cable: String,
    pub chunk: u64,
}

/// What is said of a cable, with what is said where its speed cannot be read.
pub open spec fn wire_words(w: Wire, unknown: Seq<char>) -> Seq<char> {
    if w.measured {
        "  cable          "@ + w.adapter@ + " at "@ + decimal(w.megabits as int) + " Mbps, "@
            + w.cable@
    } else {
        "  cable          speed not readable, "@ + unknown
    }
}

/// What is said of a cable, with what is said where its speed cannot be read.
pub fn wire_line(w: &Wire, unknown: &str) -> (s: String)
    ensures
        s@ == wire_words(*w, unknown@),
{
    if w.measured {
        let mut s = text_of("  cable          ");
        s.append(w.adapter.as_str());
        s.append(" at ");
        push_decimal(&mut s, w.megabits);
        s.append(" Mbps, ");
        s.append(w.cable.as_str());
        s
    } else {
        let mut s = text_of("  cable          speed not readable, ");
        s.append(unknown);
        s
    }
}

pub const WARNING: &'static str = "\n  !! This computer is on another network as well as the cable, and you\n  \
     !! have asked for addresses to be given out regardless. If that other\n  \
     !! network has a router, this can take it down for everyone on it.\n";

pub const NAME_TAKEN: &'static str = "  name           NOT offered: another computer here already answers to\n                 \
     gorilla.local, so typing it would reach that one, or\n                 \
     whichever answers first. Use the address above, or on\n                 \
     the other computer choose \"Get files from another\n                 \
     computer\" and pick this one from the list by name.";

pub const NAME_OFFERED: &'static str = "  name           they can type  gorilla.local  instead of an address";

pub const WATCHING: &'static str = "  addresses      watching. Switch the other network off and this starts\n                 \
     on its own, without restarting anything.";

pub const NOT_YET: &'static str = "  open this      no cable address yet. Wait half a minute and look again.";

/// What is said at the start of a sending: that it has begun, how fast the cable is
/// and whether this computer can be found.
pub fn sending_lines(short: &str, w: &Wire, beacon: Option<&str>) -> (s: String)
    ensures
        s@ == "Handing out "@ + short@ + " down the cable.\n"@ + wire_words(
            *w,
            "assuming 1 Gbps"@,
        ) + "\n"@ + (match beacon {
            None => "  finding        saying where this computer is, once a second"@,
            Some(e) => "  finding        not announcing ("@ + e@
                + "); type the address by hand"@,
        }),
{
    let line: String = wire_line(w, "assuming 1 Gbps");
    let mut s = text_of("Handing out ");
    s.append(short);
    s.append(" down the cable.\n");
    s.append(line.as_str());
    s.append("\n");
    let ghost before = s@;
    match beacon {
        None => {
            s.append("  finding        saying where this computer is, once a second");
        },
        Some(e) => {
            s.append("  finding        not announcing (");
            s.append(e);
            s.append("); type the address by hand");
            assert(s@ =~= before + ("  finding        not announcing ("@ + e@
                + "); type the address by hand"@));
        },
    }
    s
}

/// What is said about addresses and the name while sending: a warning where
/// addresses are given out beside another network, whether the name is offered,
/// that the watch goes on, and that there is no cable address yet.
pub fn naming_lines(
    anyway: bool,
    safe: bool,
    answering: bool,
    taken: bool,
    addresses: &[Ipv4Addr],
) -> (v: Vec<&'static str>)
    ensures
        Seq::new(v@.len(), |i: int| v@[i]@) == (if anyway && !safe {
            seq![WARNING@]
        } else {
            Seq::empty()
        }) + (if answering {
            seq![
                if taken {
                    NAME_TAKEN@
                } else {
                    NAME_OFFERED@
                },
            ]
        } else {
            Seq::empty()
        }) + (if anyway {
            Seq::empty()
        } else {
            seq![WATCHING@]
        }) + (if link_local_from(addresses@, 0) is Some {
            Seq::empty()
        } else {
            seq![NOT_YET@]
        }),
{
    let mut v: Vec<&'static str> = Vec::new();
    if anyway && !safe {
        v.push(WARNING);
    }
    if answering {
        if taken {
            v.push(NAME_TAKEN);
        } else {
            v.push(NAME_OFFERED);
        }
    }
    if !anyway {
        v.push(WATCHING);
    }
    let local: Option<Ipv4Addr> = link_local_one(addresses);
    match local {
        Some(_) => {},
        None => {
            v.push(NOT_YET);
        },
    }
    v
}

/// Whether the state of the addresses is said again: when it has changed, and is
/// more than that somebody is looking.
pub fn say_again(now: &str, last: &str) -> (r: bool)
    ensures
        r == (now@ != last@ && !begins_with(now@, "looking"@)),
{
    let c: Vec<char> = chars_of(now);
    !same_text(now, last) && !starts_with_text(c.as_slice(), "looking")
}

// ------------------------------------------------------------- receiving

/// What is asked for when everything is to be taken from the other end.
pub enum Taking {
    Help,
    Go { into: String, wait: u64 },
}

/// What is asked for, as plain values.
pub open spec fn taking_view(t: Taking) -> Option<(Seq<char>, int)> {
    match t {
        Taking::Help => None,
        Taking::Go { into, wait } => Some((into@, wait as int)),
    }
}

/// What the words of the receiving command ask for.
pub fn cable_get(args: &Vec<String>) -> (t: Taking)
    ensures
        taking_view(t) == (if wants_help(texts(args@)) {
            None
        } else {
            Some(
                (
                    match flag_of(texts(args@), "--into"@) {
                        Some(d) => d,
                        None => "."@,
                    },
                    number_of(
                        flag_of(texts(args@), "--wait"@),
                        0xffff_ffff_ffff_ffff,
                        60,
                    ),
                ),
            )
        }),
{
    if has(args, "-h") || has(args, "--help") {
        return Taking::Help;
    }
    let into: String = match flag(args, "--into") {
        Some(d) => d,
        None => text_of("."),
    };
    Taking::Go { into, wait: flag_number(args, "--wait", 0xffff_ffff_ffff_ffff, 60) }
}

/// What is said where nothing answered.
pub fn nothing_answered(wait: u64) -> (s: String)
    ensures
        s@ == "Nothing answered in "@ + decimal(wait as int) + WHAT_TO_CHECK@,
{
    let mut s = text_of("Nothing answered in ");
    push_decimal(&mut s, wait);
    s.append(WHAT_TO_CHECK);
    s
}

pub const WHAT_TO_CHECK: &'static str = " seconds.\n\n\
     Things to check, in the order worth checking them:\n  \
     the cable is in both computers and the little light is on\n  \
     `hub cable <folder>` is running on the other computer\n  \
     both computers have been plugged in for half a minute\n  \
     the firewall here is not blocking it: run `hub fix-firewall`";

/// What is said once the other end was found.
pub fn found_line(peer: &Peer) -> (s: String)
    ensures
        s@ == "Found "@ + peer.name@ + " at "@ + peer.ip.dotted() + ", handing out "@
            + peer.folder@ + "."@,
{
    let ip: String = peer.ip.text();
    let mut s = text_of("Found ");
    s.append(peer.name.as_str());
    s.append(" at ");
    s.append(ip.as_str());
    s.append(", handing out ");
    s.append(peer.folder.as_str());
    s.append(".");
    s
}

/// Where a file of the other end is fetched from. The slash keeps the address and
/// the name apart.
pub fn file_url(ip: &Ipv4Addr, port: u16, name: &str) -> (s: String)
    ensures
        s@ == "http://"@ + ip.dotted() + ":"@ + decimal(port as int) + "/"@ + escaped_bytes(
            encode_utf8(name@),
        ),
{
    let at: String = ip.text();
    let escaped: String = urlencode(name);
    let mut s = text_of("http://");
    s.append(at.as_str());
    s.append(":");
    push_decimal(&mut s, port as u64);
    s.append("/");
    s.append(escaped.as_str());
    s
}

/// What is said as a file is begun.
pub fn file_line(i: u64, total: u64, name: &str) -> (s: String)
    requires
        i < 0xffff_ffff_ffff_ffff,
    ensures
        s@ == "  ["@ + decimal(i + 1) + "/"@ + decimal(total as int) + "] "@ + name@,
{
    let mut s = text_of("  [");
    push_decimal(&mut s, i + 1);
    s.append("/");
    push_decimal(&mut s, total);
    s.append("] ");
    s.append(name);
    s
}

/// The names of the first `n` files that did not arrive, one on each line.
pub open spec fn missing_lines(names: Seq<Seq<char>>, n: int) -> Seq<char>
    decreases n,
{
    if n <= 0 {
        Seq::empty()
    } else {
        missing_lines(names, n - 1) + "\n  "@ + names[n - 1]
    }
}

/// What is said at the end of a receiving.
pub open spec fn ending(total: int, failed: Seq<Seq<char>>) -> Seq<char> {
    if failed.len() == 0 {
        "All "@ + decimal(total) + " file(s) arrived."@
    } else {
        decimal(failed.len() as int) + " of "@ + decimal(total) + " did not arrive:"@
            + missing_lines(failed, failed.len() as int)
            + "\nRun the same command again. What already arrived is not fetched twice."@
    }
}

/// What is said at the end of a receiving: that all arrived, or which did not.
pub fn arrived_text(total: u64, failed: &Vec<String>) -> (s: String)
    ensures
        s@ == ending(total as int, texts(failed@)),
{
    let ghost all = texts(failed@);
    assert(all.len() == failed@.len());
    if failed.len() == 0 {
        let mut s = text_of("All ");
        push_decimal(&mut s, total);
        s.append(" file(s) arrived.");
        return s;
    }
    let mut s = String::new();
    push_decimal(&mut s, failed.len() as u64);
    s.append(" of ");
    push_decimal(&mut s, total);
    s.append(" did not arrive:");
    let ghost start = decimal(all.len() as int) + " of "@ + decimal(total as int)
        + " did not arrive:"@;
    assert(s@ =~= start);
    let mut i: usize = 0;
    assert(s@ =~= start + missing_lines(all, 0));
    while i < failed.len()
        invariant
            all == texts(failed@),
            i <= failed.len(),
            s@ == start + missing_lines(all, i as int),
        decreases failed.len() - i,
    {
        assert(all[i as int] == failed@[i as int]@);
        s.append("\n  ");
        s.append(failed[i].as_str());
        i = i + 1;
        assert(s@ =~= start + missing_lines(all, i as int));
    }
    s.append("\nRun the same command again. What already arrived is not fetched twice.");
    s
}

// ------------------------------------------------------------- the doctor

/// Whether an address is one that a computer has on a network of its own making.
pub open spec fn own_network(ip: Ipv4Addr) -> bool {
    (ip.a == 10 && ip.b == 42) || (ip.a == 192 && ip.b == 168 && (ip.c == 137 || ip.c == 43))
}

/// The first address from `i` on that is on a network of this computer's making.
pub open spec fn own_from(addresses: Seq<Ipv4Addr>, i: int) -> Option<Ipv4Addr>
    decreases addresses.len() - i,
{
    if i >= addresses.len() {
        None
    } else if own_network(addresses[i]) {
        Some(addresses[i])
    } else {
        own_from(addresses, i + 1)
    }
}

/// The address that this computer has on a network of its own making. Everyone is
/// listed only there: from inside an office it would be the whole building.
pub fn hotspot_here(addresses: &[Ipv4Addr]) -> (r: Option<Ipv4Addr>)
    ensures
        r == own_from(addresses@, 0),
{
    let mut i: usize = 0;
    while i < addresses.len()
        invariant
            i <= addresses.len(),
            own_from(addresses@, 0) == own_from(addresses@, i as int),
        decreases addresses.len() - i,
    {
        let ip: Ipv4Addr = addresses[i];
        if (ip.a == 10 && ip.b == 42) || (ip.a == 192 && ip.b == 168 && (ip.c == 137 || ip.c
            == 43)) {
            return Some(ip);
        }
        i = i + 1;
    }
    None
}

/// A device that has joined, and its name where it gave one.
pub struct Member {
    pub ip: Ipv4Addr,
    pub name: Option<String>,
}

/// What was found out about this computer.
pub struct Facts {
    pub version: String,
    pub system: String,
    pub threads: u64,
    pub helpers: u64,
    pub rows: u64,
    pub cols: u64,
    pub wifi: Option<String>,
    pub gateway: Option<Ipv4Addr>,
    /// The gateway was read from the system and is no guess.
    pub gateway_read: bool,
    pub addresses: Vec<Ipv4Addr>,
    /// Who has joined, where this computer makes the network.
    pub joined: Option<Vec<Member>>,
    pub wire: Wire,
    pub reachable: Option<bool>,
    /// Addresses can be given out on the cable.
    pub bare_cable: bool,
    /// This computer has a source of chance for passwords.
    pub chance: bool,
}

/// The first lines: the program and the machine.
pub open spec fn machine_words(f: Facts) -> Seq<char> {
    "hub "@ + f.version@ + "\n  built for      "@ + f.system@ + "\n  processors     "@ + decimal(
        f.threads as int,
    ) + "\n  devices at once (default)  "@ + decimal(f.helpers as int) + "\n  window         "@
        + decimal(f.rows as int) + " rows by "@ + decimal(f.cols as int) + " columns\n"@
}

fn push_machine(s: &mut String, f: &Facts)
    ensures
        final(s)@ == old(s)@ + machine_words(*f),
{
    let ghost start = s@;
    s.append("hub ");
    s.append(f.version.as_str());
    s.append("\n  built for      ");
    s.append(f.system.as_str());
    s.append("\n  processors     ");
    push_decimal(s, f.threads);
    s.append("\n  devices at once (default)  ");
    push_decimal(s, f.helpers);
    s.append("\n  window         ");
    push_decimal(s, f.rows);
    s.append(" rows by ");
    push_decimal(s, f.cols);
    s.append(" columns\n");
    assert(s@ =~= start + machine_words(*f));
}

/// The lines for the first `n` addresses.
pub open spec fn address_words(addresses: Seq<Ipv4Addr>, n: int) -> Seq<char>
    decreases n,
{
    if n <= 0 {
        Seq::empty()
    } else {
        address_words(addresses, n - 1) + "  address        "@ + addresses[n - 1].dotted() + "\n"@
    }
}

/// The lines about the network.
pub open spec fn network_words(f: Facts) -> Seq<char> {
    (match f.wifi {
        Some(i) => "  wifi adapter   "@ + i@,
        None => "  wifi adapter   none found, so this computer cannot make a network"@,
    }) + (match f.gateway {
        Some(g) => if f.gateway_read {
            "\n  gateway        "@ + g.dotted() + "\n"@
        } else {
            "\n  gateway        "@ + g.dotted() + " (a guess, not read from the system)\n"@
        },
        None => "\n  gateway        none, this computer has no route off itself\n"@,
    }) + (if f.addresses@.len() == 0 {
        "  addresses      none, so nobody can reach this computer\n"@
    } else {
        Seq::empty()
    }) + address_words(f.addresses@, f.addresses@.len() as int)
}

fn push_network(s: &mut String, f: &Facts)
    ensures
        final(s)@ == old(s)@ + network_words(*f),
{
    let ghost start = s@;
    let ghost first = match &f.wifi {
        Some(i) => "  wifi adapter   "@ + i@,
        None => "  wifi adapter   none found, so this computer cannot make a network"@,
    };
    let ghost second = match f.gateway {
        Some(g) => if f.gateway_read {
            "\n  gateway        "@ + g.dotted() + "\n"@
        } else {
            "\n  gateway        "@ + g.dotted() + " (a guess, not read from the system)\n"@
        },
        None => "\n  gateway        none, this computer has no route off itself\n"@,
    };
    let ghost third = if f.addresses@.len() == 0 {
        "  addresses      none, so nobody can reach this computer\n"@
    } else {
        Seq::empty()
    };
    match &f.wifi {
        Some(i) => {
            s.append("  wifi adapter   ");
            s.append(i.as_str());
        },
        None => {
            s.append("  wifi adapter   none found, so this computer cannot make a network");
        },
    }
    assert(s@ =~= start + first);
    match &f.gateway {
        Some(g) => {
            let at: String = g.text();
            s.append("\n  gateway        ");
            s.append(at.as_str());
            if f.gateway_read {
                s.append("\n");
            } else {
                s.append(" (a guess, not read from the system)\n");
            }
        },
        None => {
            s.append("\n  gateway        none, this computer has no route off itself\n");
        },
    }
    assert(s@ =~= start + first + second);
    if f.addresses.len() == 0 {
        s.append("  addresses      none, so nobody can reach this computer\n");
    }
    assert(s@ =~= start + (first + second + third));
    let mut i: usize = 0;
    assert(s@ =~= start + (first + second + third + address_words(f.addresses@, 0)));
    while i < f.addresses.len()
        invariant
            i <= f.addresses.len(),
            s@ == start + (first + second + third + address_words(f.addresses@, i as int)),
        decreases f.addresses.len() - i,
    {
        let at: String = f.addresses[i].text();
        s.append("  address        ");
        s.append(at.as_str());
        s.append("\n");
        i = i + 1;
        assert(s@ =~= start + (first + second + third + address_words(f.addresses@, i as int)));
    }
}

/// A text filled up with spaces to a width.
pub open spec fn padded(s: Seq<char>, width: int) -> Seq<char> {
    s + spaces(width - s.len())
}

/// The line for a device that has joined.
pub open spec fn member_words(m: Member) -> Seq<char> {
    "    "@ + padded(m.ip.dotted(), 16) + (match m.name {
        Some(n) => " "@ + n@ + "\n"@,
        None => " (no name; it did not give one)\n"@,
    })
}

/// The lines for the first `n` devices.
pub open spec fn members_words(v: Seq<Member>, n: int) -> Seq<char>
    decreases n,
{
    if n <= 0 {
        Seq::empty()
    } else {
        members_words(v, n - 1) + member_words(v[n - 1])
    }
}

/// The lines about who has joined.
pub open spec fn joined_words(joined: Option<Vec<Member>>) -> Seq<char> {
    match joined {
        None => Seq::empty(),
        Some(v) => "  on your network "@ + decimal(v@.len() as int) + " device(s)\n"@
            + members_words(v@, v@.len() as int) + (if v@.len() == 0 {
            "    nothing has joined yet\n"@
        } else {
            Seq::empty()
        }),
    }
}

fn push_member(s: &mut String, m: &Member)
    ensures
        final(s)@ == old(s)@ + member_words(*m),
{
    let ghost start = s@;
    let at: String = m.ip.text();
    let c: Vec<char> = chars_of(at.as_str());
    s.append("    ");
    s.append(at.as_str());
    push_spaces(
        s,
        if c.len() < 16 {
            16 - c.len()
        } else {
            0
        },
    );
    assert(s@ =~= start + ("    "@ + padded(m.ip.dotted(), 16)));
    match &m.name {
        Some(n) => {
            s.append(" ");
            s.append(n.as_str());
            s.append("\n");
        },
        None => {
            s.append(" (no name; it did not give one)\n");
        },
    }
    assert(s@ =~= start + member_words(*m));
}

fn push_joined(s: &mut String, joined: &Option<Vec<Member>>)
    ensures
        final(s)@ == old(s)@ + joined_words(*joined),
{
    let ghost start = s@;
    match joined {
        None => {
            assert(s@ =~= start + joined_words(*joined));
        },
        Some(v) => {
            s.append("  on your network ");
            push_decimal(s, v.len() as u64);
            s.append(" device(s)\n");
            let ghost head = "  on your network "@ + decimal(v@.len() as int) + " device(s)\n"@;
            let mut i: usize = 0;
            assert(s@ =~= start + (head + members_words(v@, 0)));
            while i < v.len()
                invariant
                    i <= v.len(),
                    s@ == start + (head + members_words(v@, i as int)),
                decreases v.len() - i,
            {
                push_member(s, &v[i]);
                assert(s@ =~= start + (head + (members_words(v@, i as int) + member_words(
                    v@[i as int],
                ))));
                i = i + 1;
            }
            if v.len() == 0 {
                s.append("    nothing has joined yet\n");
            }
            assert(s@ =~= start + joined_words(*joined));
        },
    }
}

/// The lines about the cable and the rest.
pub open spec fn rest_words(f: Facts) -> Seq<char> {
    wire_words(f.wire, "so 1 Gbps is assumed"@) + "\n  sending pieces of "@ + decimal(
        f.wire.chunk as int / 1024,
    ) + " KB at a time\n"@ + (match f.reachable {
        Some(yes) => if yes {
            "  reachable      yes, the firewall lets others in\n"@
        } else {
            "  reachable      NO. Run: hub fix-firewall\n"@
        },
        None => "  reachable      cannot tell on this system; try it and see\n"@,
    }) + (if f.bare_cable {
        "  cable addresses  this looks like a bare cable, so addresses can be given out\n"@
    } else {
        "  cable addresses  not offered here, which is correct on a network with a router\n"@
    }) + (if f.chance {
        "  password made  yes"@
    } else {
        "  password made  no, this computer has no random source"@
    })
}

fn push_rest(s: &mut String, f: &Facts)
    ensures
        final(s)@ == old(s)@ + rest_words(*f),
{
    let ghost start = s@;
    let line: String = wire_line(&f.wire, "so 1 Gbps is assumed");
    s.append(line.as_str());
    s.append("\n  sending pieces of ");
    push_decimal(s, f.wire.chunk / 1024);
    s.append(" KB at a time\n");
    match f.reachable {
        Some(yes) => {
            if yes {
                s.append("  reachable      yes, the firewall lets others in\n");
            } else {
                s.append("  reachable      NO. Run: hub fix-firewall\n");
            }
        },
        None => {
            s.append("  reachable      cannot tell on this system; try it and see\n");
        },
    }
    if f.bare_cable {
        s.append(
            "  cable addresses  this looks like a bare cable, so addresses can be given out\n",
        );
    } else {
        s.append(
            "  cable addresses  not offered here, which is correct on a network with a router\n",
        );
    }
    if f.chance {
        s.append("  password made  yes");
    } else {
        s.append("  password made  no, this computer has no random source");
    }
    assert(s@ =~= start + rest_words(*f));
}

/// What this computer can do, in one screen, for when it will not work and there is
/// nobody nearby to ask.
pub fn doctor(f: &Facts) -> (s: String)
    ensures
        s@ == machine_words(*f) + network_words(*f) + joined_words(f.joined) + rest_words(*f),
{
    let mut s = String::new();
    push_machine(&mut s, f);
    push_network(&mut s, f);
    push_joined(&mut s, &f.joined);
    push_rest(&mut s, f);
    assert(s@ =~= machine_words(*f) + network_words(*f) + joined_words(f.joined) + rest_words(
        *f,
    ));
    s
}

// ------------------------------------------------------------- laws

proof fn lemma_place(args: Seq<Seq<char>>, i: int, name: Seq<char>)
    requires
        0 <= i,
    ensures
        match place_from(args, i, name) {
            Some(k) => i <= k < args.len() && args[k] == name && forall|j: int|
                i <= j < k ==> #[trigger] args[j] != name,
            None => forall|j: int| i <= j < args.len() ==> #[trigger] args[j] != name,
        },
    decreases args.len() - i,
{
    if i < args.len() && args[i] != name {
        lemma_place(args, i + 1, name);
    }
}

/// The value of a flag is the word behind it, wherever it stands first; a flag that does not
/// stand there, or stands last, has none. Help is asked for by either of its words.
pub proof fn law_a_flag_is_followed_by_its_value(args: Seq<Seq<char>>, k: int, name: Seq<char>)
    requires
        0 <= k < args.len(),
    ensures
        args[k] == name && (forall|j: int| 0 <= j < k ==> #[trigger] args[j] != name) ==> {
            &&& k + 1 < args.len() ==> flag_of(args, name) == Some(args[k + 1])
            &&& k + 1 == args.len() ==> flag_of(args, name) is None
        },
        (forall|j: int| 0 <= j < args.len() ==> #[trigger] args[j] != name) ==> flag_of(args, name)
            is None,
        args[k] == "-h"@ || args[k] == "--help"@ ==> wants_help(args),
        wants_help(args) ==> exists|j: int|
            0 <= j < args.len() && (#[trigger] args[j] == "-h"@ || args[j] == "--help"@),
{
    lemma_place(args, 0, name);
    lemma_place(args, 0, "-h"@);
    lemma_place(args, 0, "--help"@);
    if wants_help(args) {
        if let Some(j) = place_from(args, 0, "-h"@) {
            assert(args[j] == "-h"@);
        } else {
            let j = place_from(args, 0, "--help"@)->0;
            assert(args[j] == "--help"@);
        }
    }
}

/// What is handed out is the first word that is no flag, under the name and on the port that
/// were asked for, or on 8080.
pub proof fn law_what_a_cable_hands_out(args: Seq<Seq<char>>, k: int)
    requires
        1 <= k < args.len(),
        args[k].len() == 0 || args[k][0] != '-',
        forall|j: int| 1 <= j < k ==> (#[trigger] args[j]).len() > 0 && args[j][0] == '-',
        !wants_help(args),
    ensures
        sending_of(args) is Some && sending_of(args)->0 is Some,
        ({
            let (folder, name, port, anyway) = sending_of(args)->0->0;
            &&& folder == args[k]
            &&& name == flag_of(args, "--name"@)
            &&& flag_of(args, "--port"@) is None ==> port == 8080
            &&& forall|n: int|
                0 <= n <= 65535 && flag_of(args, "--port"@) == Some(#[trigger] decimal(n)) ==> port == n
            &&& anyway <==> exists|j: int|
                0 <= j < args.len() && #[trigger] args[j] == "--addresses-anyway"@
        }),
{
    lemma_plain_at(args, 1, k);
    lemma_place(args, 0, "--addresses-anyway"@);
    assert forall|n: int| 0 <= n <= 65535 && flag_of(args, "--port"@) == Some(
        #[trigger] decimal(n),
    ) implies number_of(flag_of(args, "--port"@), 0xffff, 8080) == n by {
        law_decimal_reads_back(n, 0xffff);
    }
}

proof fn lemma_plain_at(args: Seq<Seq<char>>, i: int, k: int)
    requires
        0 <= i <= k < args.len(),
        args[k].len() == 0 || args[k][0] != '-',
        forall|j: int| i <= j < k ==> (#[trigger] args[j]).len() > 0 && args[j][0] == '-',
    ensures
        plain_from(args, i) == Some(args[k]),
    decreases k - i,
{
    if i < k {
        assert(args[i].len() > 0 && args[i][0] == '-');
        lemma_plain_at(args, i + 1, k);
    }
}

/// A path loses the mark that is meant for programs and nothing else, and one on another
/// computer still begins as such.
pub proof fn law_a_path_is_made_readable(rest: Seq<char>)
    ensures
        readable(seq!['\\', '\\', '?', '\\', 'U', 'N', 'C', '\\'] + rest) == seq!['\\', '\\'] + rest,
        !begins_with(rest, seq!['U', 'N', 'C', '\\']) ==> readable(seq!['\\', '\\', '?', '\\'] + rest)
            == rest,
        rest.len() == 0 || rest[0] != '\\' ==> readable(rest) == rest,
{
    reveal_strlit("\\\\?\\UNC\\");
    reveal_strlit("\\\\?\\");
    reveal_strlit("\\\\");
    let unc = seq!['\\', '\\', '?', '\\', 'U', 'N', 'C', '\\'];
    let long = seq!['\\', '\\', '?', '\\'];
    assert("\\\\?\\UNC\\"@ =~= unc);
    assert("\\\\?\\"@ =~= long);
    assert("\\\\"@ =~= seq!['\\', '\\']);
    let a = unc + rest;
    assert(a.subrange(0, 8) =~= unc);
    assert(a.skip(8) =~= rest);
    let b = long + rest;
    assert(b.subrange(0, 4) =~= long);
    assert(b.skip(4) =~= rest);
    if begins_with(b, unc) {
        assert(rest.subrange(0, 4) =~= b.subrange(0, 8).subrange(4, 8));
        assert(unc.subrange(4, 8) =~= seq!['U', 'N', 'C', '\\']);
    }
    if rest.len() == 0 || rest[0] != '\\' {
        if begins_with(rest, unc) {
            assert(rest.subrange(0, 8)[0] == rest[0]);
        }
        if begins_with(rest, long) {
            assert(rest.subrange(0, 4)[0] == rest[0]);
        }
    }
}

/// Of several addresses the first that a cable gave is taken, and so is the first of a
/// network that this computer made.
pub proof fn law_the_first_of_its_kind_is_taken(v: Seq<Ipv4Addr>, i: int)
    requires
        0 <= i,
    ensures
        match link_local_from(v, i) {
            Some(a) => a.a == 169 && a.b == 254 && exists|k: int|
                i <= k < v.len() && #[trigger] v[k] == a && forall|j: int|
                    i <= j < k ==> !((#[trigger] v[j]).a == 169 && v[j].b == 254),
            None => forall|j: int| i <= j < v.len() ==> !((#[trigger] v[j]).a == 169 && v[j].b == 254),
        },
        match own_from(v, i) {
            Some(a) => ((a.a == 10 && a.b == 42) || (a.a == 192 && a.b == 168 && (a.c == 137 || a.c
                == 43))) && exists|k: int|
                i <= k < v.len() && #[trigger] v[k] == a && forall|j: int|
                    i <= j < k ==> !own_network(#[trigger] v[j]),
            None => forall|j: int| i <= j < v.len() ==> !own_network(#[trigger] v[j]),
        },
        own_network(Ipv4Addr { a: 10, b: 42, c: 0, d: 1 }),
        own_network(Ipv4Addr { a: 192, b: 168, c: 137, d: 1 }),
        own_network(Ipv4Addr { a: 192, b: 168, c: 43, d: 1 }),
    decreases v.len() - i,
{
    if i < v.len() {
        law_the_first_of_its_kind_is_taken(v, i + 1);
        if let Some(a) = link_local_from(v, i) {
            if v[i].link_local() {
                assert(v[i] == a);
            } else {
                let k = choose|k: int|
                    i + 1 <= k < v.len() && #[trigger] v[k] == a && forall|j: int|
                        i + 1 <= j < k ==> !((#[trigger] v[j]).a == 169 && v[j].b == 254);
                assert(v[k] == a);
            }
        }
        if let Some(a) = own_from(v, i) {
            if own_network(v[i]) {
                assert(v[i] == a);
            } else {
                let k = choose|k: int|
                    i + 1 <= k < v.len() && #[trigger] v[k] == a && forall|j: int|
                        i + 1 <= j < k ==> !own_network(#[trigger] v[j]);
                assert(v[k] == a);
            }
        }
    }
}

/// What did not arrive is told by name and number, each on a line of its own, and where
/// nothing is missing that is told.
pub proof fn law_what_is_missing_is_told(total: int, failed: Seq<Seq<char>>, name: Seq<char>)
    ensures
        failed.len() == 0 ==> ending(total, failed) == "All "@ + decimal(total) + " file(s) arrived."@,
        failed.len() > 0 ==> begins_with(
            ending(total, failed),
            decimal(failed.len() as int) + " of "@ + decimal(total) + " did not arrive:"@,
        ),
        missing_lines(failed.push(name), failed.len() as int + 1) == missing_lines(
            failed,
            failed.len() as int,
        ) + seq!['\n', ' ', ' '] + name,
{
    reveal_strlit("\n  ");
    assert("\n  "@ =~= seq!['\n', ' ', ' ']);
    lemma_missing_more(failed, name, failed.len() as int);
    if failed.len() > 0 {
        let p = decimal(failed.len() as int) + " of "@ + decimal(total) + " did not arrive:"@;
        let e = ending(total, failed);
        assert(e.subrange(0, p.len() as int) =~= p);
    }
}

proof fn lemma_missing_more(failed: Seq<Seq<char>>, name: Seq<char>, n: int)
    requires
        0 <= n <= failed.len(),
    ensures
        missing_lines(failed.push(name), n) == missing_lines(failed, n),
    decreases n,
{
    if n > 0 {
        lemma_missing_more(failed, name, n - 1);
    }
}

/// What is sent at a time is told in kibibytes, and a cable that was measured by its name
/// and its speed.
pub proof fn law_the_cable_is_told_as_it_is(f: Facts, unknown: Seq<char>)
    ensures
        begins_with(
            rest_words(f),
            wire_words(f.wire, "so 1 Gbps is assumed"@) + "\n  sending pieces of "@ + decimal(
                f.wire.chunk as int / 1024,
            ) + " KB at a time\n"@,
        ),
        f.wire.measured ==> wire_words(f.wire, unknown) == "  cable          "@ + f.wire.adapter@
            + " at "@ + decimal(f.wire.megabits as int) + " Mbps, "@ + f.wire.cable@,
        !f.wire.measured ==> wire_words(f.wire, unknown)
            == "  cable          speed not readable, "@ + unknown,
{
    let p = wire_words(f.wire, "so 1 Gbps is assumed"@) + "\n  sending pieces of "@ + decimal(
        f.wire.chunk as int / 1024,
    ) + " KB at a time\n"@;
    assert(rest_words(f).subrange(0, p.len() as int) =~= p);
}

} // verus!
