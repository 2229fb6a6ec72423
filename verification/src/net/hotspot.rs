//! Making a wifi network out of this laptop, and putting back what was there
//! before.
//!
//! The commands are handed out as lists of words, and what came of them is handed
//! back in: the decisions and the wording stand here.

use crate::addr::Ipv4Addr;
use crate::net::channels::{channel_ranges, is_legal, legal, runs_from};
use crate::net::terse::{saved_in, saved_password};
use crate::net::windows::{
    advice_for, names, said, switched_off_advice, value_from, win_get, Said,
};
use crate::number::{decimal, push_decimal};
use crate::text::{
    chars_of, contains_text, holds, joined_by, lemma_holds_middle, lower_all, lowered, same_text,
    str_view, string_of, text_of, text_view, texts, trim, trimmed,
};
use vstd::prelude::*;
use vstd::utf8::encode_utf8;

verus! {

/// How many seconds the restore waits once nothing pushes it back.
pub const RESTORE_FUSE: u64 = 180;

/// How often it is pushed back.
pub const HEARTBEAT: u64 = 60;

/// A network that this program has made.
#[derive(Debug)]
pub struct Hotspot {
    pub ssid: String,
    pub iface: String,
    /// The wifi network that was connected before, so it can be put back.
    pub previous: Option<String>,
    /// The profile that really serves this network, read back from the system.
    pub profile: Option<String>,
    /// The password in force right now.
    pub password: String,
}

/// What came of running a command.
pub enum Ran {
    /// It could not be run at all.
    Broken(String),
    /// It ran and refused, with these words.
    Refused(String),
    Done,
}

pub const TOO_SHORT: &'static str = "A wifi password has to be at least 8 characters. That is a rule of WPA2, not ours.";

pub const BAD_NAME: &'static str = "The network name has to be between 1 and 32 letters long.";

pub const CHANNELS_HERE: &'static str = "Wifi channels go from 1 to 13 here. Leave it empty to let the computer choose.";

pub const CHANNELS_BEFORE: &'static str = "This radio, in this country, may broadcast on channels ";

pub const CHANNELS_AFTER: &'static str = ".                      Leave the field empty to let the computer choose.";

pub const NO_ADAPTER: &'static str = "No wifi adapter found. Is wifi switched on?";

pub const NOT_ALLOWED: &'static str = "This computer will not let a normal account create a network. \
     Close this, then start it again with `sudo hub`.";

pub const CANNOT: &'static str = "This wifi adapter cannot create a network, only join one. \
     Nothing is wrong with the computer; some adapters are built that way. \
     A phone hotspot will work instead.";

pub const WIFI_IS_OFF: &'static str = "Wifi is switched off. Turn it on and try again.";

fn copy_of(t: &Option<String>) -> (r: Option<String>)
    ensures
        text_view(r) == text_view(*t),
{
    match t {
        Some(t) => Some(text_of(t.as_str())),
        None => None,
    }
}

/// An answer as plain text.
pub open spec fn told<T>(r: Result<T, String>) -> Result<(), Seq<char>> {
    match r {
        Ok(_) => Ok(()),
        Err(e) => Err(e@),
    }
}

/// Words as plain text.
pub open spec fn strs(v: Seq<&str>) -> Seq<Seq<char>> {
    Seq::new(v.len(), |i: int| v[i]@)
}

fn owned(words: Vec<&str>) -> (r: Vec<String>)
    ensures
        texts(r@) == strs(words@),
{
    let mut r: Vec<String> = Vec::new();
    let mut i: usize = 0;
    while i < words.len()
        invariant
            i <= words.len(),
            r.len() == i,
            forall|k: int| 0 <= k < i ==> (#[trigger] r@[k])@ == words@[k]@,
        decreases words.len() - i,
    {
        r.push(text_of(words[i]));
        i = i + 1;
    }
    assert(texts(r@) =~= strs(words@));
    r
}

/// Whether a password is long enough for a wifi network.
pub open spec fn long_enough(password: Seq<char>) -> bool {
    password.len() >= 8
}

fn is_long_enough(password: &str) -> (r: bool)
    ensures
        r == long_enough(password@),
{
    let c: Vec<char> = chars_of(password);
    c.len() >= 8
}

/// The commands' own band for a channel.
pub open spec fn band_word(ch: u16) -> Seq<char> {
    if ch <= 14 {
        "bg"@
    } else {
        "a"@
    }
}

/// What is said of a channel that this radio may not use.
pub open spec fn wrong_channel(allowed: Seq<u16>) -> Seq<char> {
    if allowed.len() == 0 {
        CHANNELS_HERE@
    } else {
        CHANNELS_BEFORE@ + joined_by(runs_from(allowed, 0), ", "@) + CHANNELS_AFTER@
    }
}

/// The words that ask for a network, or why none is asked for.
pub open spec fn request_for(
    ssid: Seq<char>,
    password: Seq<char>,
    channel: Option<u16>,
    allowed: Seq<u16>,
    iface: Option<Seq<char>>,
) -> Result<Seq<Seq<char>>, Seq<char>> {
    if !long_enough(password) {
        Err(TOO_SHORT@)
    } else if channel is Some && !is_legal(channel.unwrap(), allowed) {
        Err(wrong_channel(allowed))
    } else {
        match iface {
            None => Err(NO_ADAPTER@),
            Some(iface) => {
                let base = seq![
                    "device"@,
                    "wifi"@,
                    "hotspot"@,
                    "ifname"@,
                    iface,
                    "ssid"@,
                    ssid,
                    "password"@,
                    password,
                ];
                match channel {
                    None => Ok(base),
                    Some(ch) => Ok(
                        base + seq!["band"@, band_word(ch), "channel"@, decimal(ch as int)],
                    ),
                }
            },
        }
    }
}

/// The words that ask for a network, or why none is asked for: the password is too
/// short, the channel is not one that this radio may use here, or there is no
/// adapter.
pub fn request(
    ssid: &str,
    password: &str,
    channel: Option<u16>,
    allowed: &[u16],
    iface: Option<&str>,
) -> (r: Result<Vec<String>, String>)
    ensures
        told(r) == (match request_for(
            ssid@,
            password@,
            channel,
            allowed@,
            str_view(iface),
        ) {
            Ok(_) => Ok(()),
            Err(e) => Err(e),
        }),
        r matches Ok(words) ==> request_for(ssid@, password@, channel, allowed@, str_view(iface))
            == Ok::<Seq<Seq<char>>, Seq<char>>(texts(words@)),
{
    if !is_long_enough(password) {
        return Err(text_of(TOO_SHORT));
    }
    if let Some(ch) = channel {
        if !legal(ch, allowed) {
            if allowed.len() == 0 {
                return Err(text_of(CHANNELS_HERE));
            }
            let mut e = text_of(CHANNELS_BEFORE);
            let ranges: String = channel_ranges(allowed);
            e.append(ranges.as_str());
            e.append(CHANNELS_AFTER);
            return Err(e);
        }
    }
    let iface: &str = match iface {
        Some(i) => i,
        None => {
            return Err(text_of(NO_ADAPTER));
        },
    };
    let base: Vec<&str> = vec![
        "device",
        "wifi",
        "hotspot",
        "ifname",
        iface,
        "ssid",
        ssid,
        "password",
        password,
    ];
    let mut words: Vec<String> = owned(base);
    let ghost asked = seq![
        "device"@,
        "wifi"@,
        "hotspot"@,
        "ifname"@,
        iface@,
        "ssid"@,
        ssid@,
        "password"@,
        password@,
    ];
    assert(texts(words@) =~= asked);
    if let Some(ch) = channel {
        let ghost before = words@;
        let mut n = String::new();
        push_decimal(&mut n, ch as u64);
        assert(n@ =~= decimal(ch as int));
        words.push(text_of("band"));
        words.push(
            if ch <= 14 {
                text_of("bg")
            } else {
                text_of("a")
            },
        );
        words.push(text_of("channel"));
        words.push(n);
        assert(texts(words@) =~= texts(before) + seq![
            "band"@,
            band_word(ch),
            "channel"@,
            decimal(ch as int),
        ]);
    }
    Ok(words)
}

/// Whether any of three phrases occurs.
pub open spec fn any_of(s: Seq<char>, a: Seq<char>, b: Seq<char>, c: Seq<char>) -> bool {
    holds(s, a) || holds(s, b) || holds(s, c)
}

/// A refusal in words for a teacher.
pub open spec fn explained(err: Seq<char>) -> Seq<char> {
    let low = lower_all(err);
    if any_of(low, "not authorized"@, "permission"@, "polkit"@) {
        NOT_ALLOWED@
    } else if any_of(low, "ap mode"@, "not supported"@, "no suitable"@) {
        CANNOT@
    } else if holds(low, "rfkill"@) || holds(low, "disabled"@) {
        WIFI_IS_OFF@
    } else {
        "The network could not be created.\n"@ + err
    }
}

/// A refusal in words for a teacher: the errors are written for administrators.
pub fn explain_nmcli(err: &str) -> (s: String)
    ensures
        s@ == explained(err@),
{
    let c: Vec<char> = chars_of(err);
    let low: Vec<char> = lowered(c.as_slice());
    if contains_text(low.as_slice(), "not authorized") || contains_text(
        low.as_slice(),
        "permission",
    ) || contains_text(low.as_slice(), "polkit") {
        return text_of(NOT_ALLOWED);
    }
    if contains_text(low.as_slice(), "ap mode") || contains_text(low.as_slice(), "not supported")
        || contains_text(low.as_slice(), "no suitable") {
        return text_of(CANNOT);
    }
    if contains_text(low.as_slice(), "rfkill") || contains_text(low.as_slice(), "disabled") {
        return text_of(WIFI_IS_OFF);
    }
    let mut s = text_of("The network could not be created.\n");
    s.append(err);
    s
}

fn trimmed_text(t: &str) -> (s: String)
    ensures
        s@ == trimmed(t@),
{
    let c: Vec<char> = chars_of(t);
    string_of(trim(c.as_slice()))
}

/// What is said where a command failed.
pub open spec fn failure(ran: Ran) -> Option<Seq<char>> {
    match ran {
        Ran::Broken(why) => Some("Could not run nmcli: "@ + why@),
        Ran::Refused(words) => Some(explained(trimmed(words@))),
        Ran::Done => None,
    }
}

fn failed(ran: &Ran) -> (r: Option<String>)
    ensures
        text_view(r) == failure(*ran),
{
    match ran {
        Ran::Broken(why) => {
            let mut s = text_of("Could not run nmcli: ");
            s.append(why.as_str());
            Some(s)
        },
        Ran::Refused(words) => {
            let t: String = trimmed_text(words.as_str());
            Some(explain_nmcli(t.as_str()))
        },
        Ran::Done => None,
    }
}

/// The network that came of the request, with what was there before and the
/// profile that serves it; or why there is none. What may not be asked for is refused,
/// whatever a command said.
pub fn hotspot_up(
    ssid: &str,
    password: &str,
    channel: Option<u16>,
    allowed: &[u16],
    iface: Option<&str>,
    previous: Option<&str>,
    ran: Ran,
    profile: Option<&str>,
) -> (r: Result<Hotspot, String>)
    ensures
        told(r) == (match request_for(ssid@, password@, channel, allowed@, str_view(iface)) {
            Err(e) => Err(e),
            Ok(_) => match failure(ran) {
                Some(e) => Err(e),
                None => Ok(()),
            },
        }),
        r matches Ok(h) ==> {
            &&& h.ssid@ == ssid@
            &&& str_view(iface) == Some(h.iface@)
            &&& text_view(h.previous) == str_view(previous)
            &&& text_view(h.profile) == str_view(profile)
            &&& h.password@ == password@
        },
{
    if let Err(e) = request(ssid, password, channel, allowed, iface) {
        return Err(e);
    }
    if let Some(e) = failed(&ran) {
        return Err(e);
    }
    Ok(
        Hotspot {
            ssid: text_of(ssid),
            iface: match iface {
                Some(i) => text_of(i),
                None => String::new(),
            },
            previous: match previous {
                Some(p) => Some(text_of(p)),
                None => None,
            },
            profile: match profile {
                Some(p) => Some(text_of(p)),
                None => None,
            },
            password: text_of(password),
        },
    )
}

// ------------------------------------------------------------- Windows

pub const NOT_YET: &'static str = "This laptop cannot make a wifi network yet.\n";

pub const PARTS_ARE_OFF: &'static str = "Windows would not make the wifi network: parts of Windows it needs are \
     switched off. Choose \"Fix problems with this computer\" on the first \
     screen, then try again.";

pub const WOULD_NOT: &'static str = "Windows would not switch the wifi network on.\n\n";

pub const CHECK_WIFI: &'static str = "\n\n\
     Check that wifi is switched on (the aeroplane mode button is off), \
     then try again.";

pub const BY_YOURSELF: &'static str = "On this system, switch the hotspot on yourself first: \
     Settings, Network and internet, Mobile hotspot. \
     Then come back here and the files will be handed out over it.";

/// Why Windows is not even asked, if it is not.
pub open spec fn not_asked(
    ssid: Seq<char>,
    password: Seq<char>,
    off: Seq<(Seq<char>, Seq<char>)>,
) -> Option<Seq<char>> {
    if !long_enough(password) {
        Some(TOO_SHORT@)
    } else if encode_utf8(ssid).len() == 0 || encode_utf8(ssid).len() > 32 {
        Some(BAD_NAME@)
    } else {
        match advice_for(off) {
            Some(advice) => Some(NOT_YET@ + advice),
            None => None,
        }
    }
}

/// Why Windows is not even asked for a network, if it is not: the password is too
/// short, the name does not fit, or parts of Windows are switched off.
pub fn refused_on_windows(
    ssid: &str,
    password: &str,
    off: &[(&'static str, &'static str)],
) -> (r: Option<String>)
    ensures
        text_view(r) == not_asked(ssid@, password@, names(off@)),
{
    if !is_long_enough(password) {
        return Some(text_of(TOO_SHORT));
    }
    let size: usize = ssid.as_bytes().len();
    if size == 0 || size > 32 {
        return Some(text_of(BAD_NAME));
    }
    match switched_off_advice(off) {
        Some(advice) => {
            let mut s = text_of(NOT_YET);
            s.append(advice.as_str());
            Some(s)
        },
        None => None,
    }
}

/// What Windows gave as its reason.
pub open spec fn reason(answer: Seq<(Seq<char>, Seq<char>)>) -> Seq<char> {
    match value_from(answer, 0, "ERR"@) {
        Some(e) => e,
        None => match value_from(answer, 0, "START"@) {
            Some(e) => e,
            None => "no answer from Windows"@,
        },
    }
}

/// Whether Windows says that the network is on.
pub open spec fn is_on(answer: Seq<(Seq<char>, Seq<char>)>) -> bool {
    value_from(answer, 0, "STATE"@) == Some("On"@)
}

/// What came of asking Windows.
pub open spec fn windows_said(answer: Seq<(Seq<char>, Seq<char>)>) -> Result<(), Seq<char>> {
    if is_on(answer) {
        Ok(())
    } else if holds(reason(answer), "0x83120001"@) {
        Err(PARTS_ARE_OFF@)
    } else {
        Err(WOULD_NOT@ + reason(answer) + CHECK_WIFI@)
    }
}

fn says_on(answer: &Vec<Said>) -> (r: bool)
    ensures
        r == is_on(said(answer@)),
{
    match win_get(answer, "STATE") {
        Some(s) => same_text(s.as_str(), "On"),
        None => false,
    }
}

/// The network that Windows has made, or why there is none. What Windows may not be asked
/// for is refused, whatever it said.
pub fn windows_hotspot(
    ssid: &str,
    password: &str,
    off: &[(&'static str, &'static str)],
    answer: &Vec<Said>,
) -> (r: Result<Hotspot, String>)
    ensures
        told(r) == (match not_asked(ssid@, password@, names(off@)) {
            Some(e) => Err(e),
            None => windows_said(said(answer@)),
        }),
        r matches Ok(h) ==> {
            &&& h.ssid@ == ssid@
            &&& h.iface@ == "Mobile hotspot"@
            &&& h.previous is None
            &&& h.profile is None
            &&& h.password@ == password@
        },
{
    if let Some(e) = refused_on_windows(ssid, password, off) {
        return Err(e);
    }
    if !says_on(answer) {
        let why: String = match win_get(answer, "ERR") {
            Some(e) => e,
            None => match win_get(answer, "START") {
                Some(e) => e,
                None => text_of("no answer from Windows"),
            },
        };
        let c: Vec<char> = chars_of(why.as_str());
        if contains_text(c.as_slice(), "0x83120001") {
            return Err(text_of(PARTS_ARE_OFF));
        }
        let mut e = text_of(WOULD_NOT);
        e.append(why.as_str());
        e.append(CHECK_WIFI);
        return Err(e);
    }
    Ok(
        Hotspot {
            ssid: text_of(ssid),
            iface: text_of("Mobile hotspot"),
            previous: None,
            profile: None,
            password: text_of(password),
        },
    )
}

/// No network is made with a password shorter than WPA2 takes: it is refused for that,
/// before any other reason, and there are no words to ask for it in.
pub proof fn law_a_short_password_makes_no_network(
    ssid: Seq<char>,
    password: Seq<char>,
    channel: Option<u16>,
    allowed: Seq<u16>,
    iface: Option<Seq<char>>,
    off: Seq<(Seq<char>, Seq<char>)>,
)
    requires
        !long_enough(password),
    ensures
        request_for(ssid, password, channel, allowed, iface) == Err::<Seq<Seq<char>>, Seq<char>>(
            TOO_SHORT@,
        ),
        not_asked(ssid, password, off) == Some(TOO_SHORT@),
{
}

/// What is said where the network has to be switched on by hand, with the advice
/// in time if the switch is going to refuse.
pub fn switch_it_on_yourself(off: &[(&'static str, &'static str)]) -> (s: String)
    ensures
        s@ == (match advice_for(names(off@)) {
            Some(advice) => BY_YOURSELF@ + "\n"@ + advice,
            None => BY_YOURSELF@,
        }),
{
    let mut s = text_of(BY_YOURSELF);
    if let Some(advice) = switched_off_advice(off) {
        s.append("\n");
        s.append(advice.as_str());
    }
    s
}

/// How many looks in a row have to find the address.
pub const STEADY: u32 = 6;

/// How many looks in a row found the address, after one more look: one that did
/// not starts again.
pub fn steady_after(steady: u32, there: bool) -> (r: u32)
    requires
        steady < STEADY,
    ensures
        r == (if there {
            steady + 1
        } else {
            0
        }),
        r <= STEADY,
{
    if there {
        steady + 1
    } else {
        0
    }
}

/// The address of the network on Windows. It counts only once the answer is that
/// address itself: until then the answer is whatever network the laptop is on.
pub fn address_on_windows(source: Option<Ipv4Addr>) -> (r: Option<Ipv4Addr>)
    ensures
        r == (if source == Some((Ipv4Addr { a: 192, b: 168, c: 137, d: 1 })) {
            source
        } else {
            None
        }),
{
    let own = Ipv4Addr { a: 192, b: 168, c: 137, d: 1 };
    match source {
        Some(ip) => if ip == own {
            source
        } else {
            None
        },
        None => None,
    }
}

// ------------------------------------------------------------- passwords

/// The first saved password from `i` on.
pub open spec fn saved_from(details: Seq<Seq<char>>, i: int, ssid: Seq<char>) -> Option<Seq<char>>
    decreases details.len() - i,
{
    if i >= details.len() {
        None
    } else {
        match saved_in(details[i], ssid) {
            Some(p) => Some(p),
            None => saved_from(details, i + 1, ssid),
        }
    }
}

/// The password that this machine last used for a network of this name, from the
/// details of each wireless connection it knows.
pub fn saved_hotspot_password(ssid: &str, details: &Vec<String>) -> (r: Option<String>)
    ensures
        text_view(r) == (if ssid@.len() == 0 {
            None
        } else {
            saved_from(texts(details@), 0, ssid@)
        }),
{
    let c: Vec<char> = chars_of(ssid);
    if c.len() == 0 {
        return None;
    }
    let ghost all = texts(details@);
    let mut i: usize = 0;
    while i < details.len()
        invariant
            ssid@.len() > 0,
            all == texts(details@),
            i <= details.len(),
            saved_from(all, 0, ssid@) == saved_from(all, i as int, ssid@),
        decreases details.len() - i,
    {
        assert(all[i as int] == details@[i as int]@);
        if let Some(p) = saved_password(details[i].as_str(), ssid) {
            return Some(p);
        }
        i = i + 1;
    }
    None
}

/// The one password that Windows keeps, if it is for a network of this name.
pub open spec fn kept_by_windows(
    answer: Seq<(Seq<char>, Seq<char>)>,
    ssid: Seq<char>,
) -> Option<Seq<char>> {
    match (value_from(answer, 0, "SSID"@), value_from(answer, 0, "PASS"@)) {
        (Some(name), Some(pass)) => if name == ssid && long_enough(pass) {
            Some(pass)
        } else {
            None
        },
        _ => None,
    }
}

/// The one password that Windows keeps, if it is for a network of this name.
pub fn saved_on_windows(ssid: &str, answer: &Vec<Said>) -> (r: Option<String>)
    ensures
        text_view(r) == kept_by_windows(said(answer@), ssid@),
{
    match (win_get(answer, "SSID"), win_get(answer, "PASS")) {
        (Some(name), Some(pass)) => {
            if same_text(name.as_str(), ssid) && is_long_enough(pass.as_str()) {
                Some(pass)
            } else {
                None
            }
        },
        _ => None,
    }
}

pub const NOT_KNOWN: &'static str = "Could not work out which network this computer is serving, \
     so the password was left alone. Nothing has changed.";

pub const NOT_BACK: &'static str = "The password was changed but the network did not come back up. \
     Stop and start handing out again.";

pub const IN_SETTINGS: &'static str = "On this system the password is changed where the hotspot was \
     switched on: Settings, Network and internet, Mobile hotspot.";

/// Which profile a password is changed on: the one read back when the network was
/// made, or else the one found to be serving now.
pub open spec fn profile_for(h: Hotspot, found: Option<Seq<char>>) -> Option<Seq<char>> {
    match h.profile {
        Some(p) => Some(p@),
        None => found,
    }
}

/// What came of changing the password.
pub open spec fn change_of(
    h: Hotspot,
    new: Seq<char>,
    found: Option<Seq<char>>,
    modified: Ran,
    raised: Ran,
) -> Result<(), Seq<char>> {
    if !long_enough(new) {
        Err(TOO_SHORT@)
    } else if profile_for(h, found) is None {
        Err(NOT_KNOWN@)
    } else if failure(modified) is Some {
        Err(failure(modified).unwrap())
    } else {
        match raised {
            Ran::Broken(why) => Err("Could not run nmcli: "@ + why@),
            Ran::Refused(words) => Err(
                "The password was changed but the network did not come back up.\n"@ + trimmed(
                    words@,
                ) + "\nThe old password no longer works. Stop and start the lesson again."@,
            ),
            Ran::Done => Ok(()),
        }
    }
}

impl Hotspot {
    /// The commands that put the wifi back the way it was found, in order: the
    /// network down by the name the system gave it, then the interface let go, then
    /// what was connected before brought up again.
    pub fn down(&self) -> (r: Vec<Vec<String>>)
        ensures
            r.len() == 3,
            texts(r@[0]@) == seq![
                "connection"@,
                "down"@,
                match self.profile {
                    Some(p) => p@,
                    None => "Hotspot"@,
                },
            ],
            texts(r@[1]@) == seq!["device"@, "disconnect"@, self.iface@],
            texts(r@[2]@) == (match self.previous {
                Some(p) => seq!["connection"@, "up"@, p@],
                None => seq!["device"@, "connect"@, self.iface@],
            }),
    {
        let profile: &str = match &self.profile {
            Some(p) => p.as_str(),
            None => "Hotspot",
        };
        let first: Vec<String> = owned(vec!["connection", "down", profile]);
        let second: Vec<String> = owned(vec!["device", "disconnect", self.iface.as_str()]);
        let third: Vec<String> = match &self.previous {
            Some(p) => owned(vec!["connection", "up", p.as_str()]),
            None => owned(vec!["device", "connect", self.iface.as_str()]),
        };
        let mut r: Vec<Vec<String>> = Vec::new();
        r.push(first);
        r.push(second);
        r.push(third);
        r
    }

    /// The commands that change the password and form the network again under it,
    /// or why there are none. Where it is not known which profile serves the room,
    /// nothing is changed rather than guessed.
    pub fn password_commands(&self, new: &str, found: Option<&str>) -> (r: Result<
        (Vec<String>, Vec<String>),
        String,
    >)
        ensures
            told(r) == (if !long_enough(new@) {
                Err(TOO_SHORT@)
            } else if profile_for(*self, str_view(found)) is None {
                Err(NOT_KNOWN@)
            } else {
                Ok(())
            }),
            r matches Ok((modify, up)) ==> {
                let p = profile_for(*self, str_view(found)).unwrap();
                &&& texts(modify@) == seq!["connection"@, "modify"@, p, "wifi-sec.psk"@, new@]
                &&& texts(up@) == seq!["connection"@, "up"@, p]
            },
    {
        if !is_long_enough(new) {
            return Err(text_of(TOO_SHORT));
        }
        let profile: &str = match &self.profile {
            Some(p) => p.as_str(),
            None => match found {
                Some(p) => p,
                None => {
                    return Err(text_of(NOT_KNOWN));
                },
            },
        };
        let modify: Vec<String> = owned(vec!["connection", "modify", profile, "wifi-sec.psk", new]);
        let up: Vec<String> = owned(vec!["connection", "up", profile]);
        Ok((modify, up))
    }

    /// Changes the password once its commands have run. It changes only where all
    /// went well; where it did not, what is on the screen stays what it was.
    pub fn change_password(
        &mut self,
        new: &str,
        found: Option<&str>,
        modified: Ran,
        raised: Ran,
    ) -> (r: Result<(), String>)
        ensures
            told(r) == change_of(*old(self), new@, str_view(found), modified, raised),
            r is Ok ==> {
                &&& final(self).password@ == new@
                &&& text_view(final(self).profile) == profile_for(*old(self), str_view(found))
                &&& final(self).ssid == old(self).ssid
                &&& final(self).iface == old(self).iface
                &&& final(self).previous == old(self).previous
            },
            r is Err ==> *final(self) == *old(self),
    {
        if !is_long_enough(new) {
            return Err(text_of(TOO_SHORT));
        }
        let profile: String = match copy_of(&self.profile) {
            Some(p) => p,
            None => match found {
                Some(p) => text_of(p),
                None => {
                    return Err(text_of(NOT_KNOWN));
                },
            },
        };
        if let Some(e) = failed(&modified) {
            return Err(e);
        }
        match raised {
            Ran::Broken(why) => {
                let mut e = text_of("Could not run nmcli: ");
                e.append(why.as_str());
                return Err(e);
            },
            Ran::Refused(words) => {
                let t: String = trimmed_text(words.as_str());
                let mut e = text_of(
                    "The password was changed but the network did not come back up.\n",
                );
                e.append(t.as_str());
                e.append(
                    "\nThe old password no longer works. Stop and start the lesson again.",
                );
                return Err(e);
            },
            Ran::Done => {},
        }
        self.profile = Some(profile);
        self.password = text_of(new);
        Ok(())
    }

    /// Changes the password once Windows has been asked to form the network again.
    pub fn change_password_on_windows(&mut self, new: &str, answer: &Vec<Said>) -> (r: Result<
        (),
        String,
    >)
        ensures
            told(r) == (if !long_enough(new@) {
                Err(TOO_SHORT@)
            } else if !is_on(said(answer@)) {
                Err(NOT_BACK@)
            } else {
                Ok(())
            }),
            r is Ok ==> {
                &&& final(self).password@ == new@
                &&& final(self).profile == old(self).profile
                &&& final(self).ssid == old(self).ssid
                &&& final(self).iface == old(self).iface
                &&& final(self).previous == old(self).previous
            },
            r is Err ==> *final(self) == *old(self),
    {
        if !is_long_enough(new) {
            return Err(text_of(TOO_SHORT));
        }
        if !says_on(answer) {
            return Err(text_of(NOT_BACK));
        }
        self.password = text_of(new);
        Ok(())
    }

    /// Arms the restore: from now on it is pushed back until it is disarmed.
    pub fn arm_restore(&self, safety: &mut Safety, seconds: u64) -> (r: Option<Vec<String>>)
        ensures
            final(safety).armed,
            final(safety).previous == old(safety).previous,
            words_of(r) == restore_words(text_view(old(safety).previous), seconds as int),
    {
        safety.armed = true;
        rearm_restore(safety, seconds)
    }

    /// Disarms the restore, and gives the commands that stop it. Stopping the
    /// service ends its wait before it can restore anything.
    pub fn disarm_restore(&self, safety: &mut Safety) -> (r: Vec<Vec<String>>)
        ensures
            !final(safety).armed,
            final(safety).previous == old(safety).previous,
            r.len() == 2,
            texts(r@[0]@) == seq!["--user"@, "stop"@, "hub-wifi-restore.service"@],
            texts(r@[1]@) == seq!["--user"@, "stop"@, "hub-wifi-restore.timer"@],
    {
        safety.armed = false;
        let first: Vec<String> = owned(vec!["--user", "stop", "hub-wifi-restore.service"]);
        let second: Vec<String> = owned(vec!["--user", "stop", "hub-wifi-restore.timer"]);
        let mut r: Vec<Vec<String>> = Vec::new();
        r.push(first);
        r.push(second);
        r
    }
}

// ------------------------------------------------------------- the restore

/// What brings the wifi back if this program is gone: whether it is armed, and
/// which network to put back.
pub struct Safety {
    pub armed: bool,
    pub previous: Option<String>,
}

/// The words of a command, if there is one.
pub open spec fn words_of(r: Option<Vec<String>>) -> Option<Seq<Seq<char>>> {
    match r {
        Some(v) => Some(texts(v@)),
        None => None,
    }
}

/// The command that waits and then puts a network back. The name is handed over as
/// an argument of its own and never as part of the script.
pub open spec fn restore_words(previous: Option<Seq<char>>, seconds: int) -> Option<
    Seq<Seq<char>>,
> {
    match previous {
        None => None,
        Some(name) => Some(
            seq![
                "--user"@,
                "--collect"@,
                "--unit=hub-wifi-restore"@,
                "sh"@,
                "-c"@,
                "sleep "@ + decimal(seconds) + "; exec nmcli connection up \"$0\""@,
                name,
            ],
        ),
    }
}

/// Nothing to put back yet.
pub fn nothing_to_restore() -> (s: Safety)
    ensures
        !s.armed,
        s.previous is None,
{
    Safety { armed: false, previous: None }
}

/// Remembers what was connected before. The newest network counts, not the first.
pub fn remember_wifi(safety: &mut Safety, previous: Option<&str>)
    ensures
        text_view(final(safety).previous) == str_view(previous),
        final(safety).armed == old(safety).armed,
{
    safety.previous = match previous {
        Some(p) => Some(text_of(p)),
        None => None,
    };
}

/// The command that puts the wifi back once nothing has pushed it off for this
/// many seconds. Nothing where nothing was connected before.
pub fn rearm_restore(safety: &Safety, seconds: u64) -> (r: Option<Vec<String>>)
    ensures
        words_of(r) == restore_words(text_view(safety.previous), seconds as int),
{
    match &safety.previous {
        None => None,
        Some(name) => {
            let mut script = text_of("sleep ");
            push_decimal(&mut script, seconds);
            script.append("; exec nmcli connection up \"$0\"");
            let v: Vec<String> = owned(
                vec![
                    "--user",
                    "--collect",
                    "--unit=hub-wifi-restore",
                    "sh",
                    "-c",
                    script.as_str(),
                    name.as_str(),
                ],
            );
            assert(texts(v@) =~= restore_words(
                text_view(safety.previous),
                seconds as int,
            ).unwrap());
            Some(v)
        },
    }
}

/// What a heartbeat does: it pushes the restore back while it is armed.
pub open spec fn pulse(armed: bool, previous: Option<Seq<char>>) -> Option<Seq<Seq<char>>> {
    if armed {
        restore_words(previous, RESTORE_FUSE as int)
    } else {
        None
    }
}

/// A heartbeat: pushes the restore back while it is armed, and does nothing once it
/// is disarmed.
pub fn heartbeat(safety: &Safety) -> (r: Option<Vec<String>>)
    ensures
        words_of(r) == pulse(safety.armed, text_view(safety.previous)),
{
    if safety.armed {
        rearm_restore(safety, RESTORE_FUSE)
    } else {
        None
    }
}

/// A slow heartbeat does not let the fuse run out: even one that is missed leaves
/// time for the next.
pub proof fn law_fuse_outlasts_the_heartbeat()
    ensures
        2 * HEARTBEAT < RESTORE_FUSE,
{
}

/// What is disarmed stays disarmed, and what is armed is pushed back: a heartbeat
/// runs a command exactly where there is a network to put back and the restore is
/// armed.
pub proof fn law_only_an_armed_restore_is_pushed_back(armed: bool, previous: Option<Seq<char>>)
    ensures
        pulse(armed, previous) is Some <==> armed && previous is Some,
{
}

/// A network that is asked for has a password of at least eight characters and a
/// channel that this radio may use, or leaves the channel open.
pub proof fn law_only_a_legal_network_is_asked_for(
    ssid: Seq<char>,
    password: Seq<char>,
    channel: Option<u16>,
    allowed: Seq<u16>,
    iface: Option<Seq<char>>,
)
    ensures
        request_for(ssid, password, channel, allowed, iface) is Ok <==> {
            &&& password.len() >= 8
            &&& channel is Some ==> is_legal(channel.unwrap(), allowed)
            &&& iface is Some
        },
{
}

// ------------------------------------------------------------- what is said and asked

/// A network is asked for by what it is to be: each thing that was chosen stands behind the
/// word for it, and a channel brings its band with it.
pub proof fn law_a_network_is_asked_for_as_chosen(
    ssid: Seq<char>,
    password: Seq<char>,
    ch: u16,
    allowed: Seq<u16>,
    iface: Seq<char>,
)
    requires
        password.len() >= 8,
    ensures
        ({
            let r = request_for(ssid, password, None, allowed, Some(iface));
            r matches Ok(w) && w.len() == 9 && w.subrange(3, 9) == seq![
                "ifname"@,
                iface,
                "ssid"@,
                ssid,
                "password"@,
                password,
            ]
        }),
        is_legal(ch, allowed) ==> {
            let r = request_for(ssid, password, Some(ch), allowed, Some(iface));
            r matches Ok(w) && w.len() == 13 && w.subrange(3, 9) == seq![
                "ifname"@,
                iface,
                "ssid"@,
                ssid,
                "password"@,
                password,
            ] && w[9] == "band"@ && w[11] == "channel"@ && w[12] == decimal(ch as int) && (ch < 15
                ==> w[10] == seq!['b', 'g']) && (ch >= 15 ==> w[10] == seq!['a'])
        },
{
    reveal_strlit("bg");
    reveal_strlit("a");
    assert("bg"@ =~= seq!['b', 'g']);
    assert("a"@ =~= seq!['a']);
    let six = seq!["ifname"@, iface, "ssid"@, ssid, "password"@, password];
    let w = request_for(ssid, password, None, allowed, Some(iface))->Ok_0;
    assert(w.subrange(3, 9) =~= six);
    if is_legal(ch, allowed) {
        let v = request_for(ssid, password, Some(ch), allowed, Some(iface))->Ok_0;
        assert(v.subrange(3, 9) =~= six);
    }
}

/// A refusal is told as what it is, wherever in the system's words the reason stands: that
/// it is not allowed before that it cannot be done, and that before that wifi is off. Words
/// that give no such reason are passed on as they are.
pub proof fn law_a_refusal_is_told_as_what_it_is(a: Seq<char>, b: Seq<char>)
    ensures
        explained(a + "not authorized"@ + b) == NOT_ALLOWED@,
        explained(a + "permission"@ + b) == NOT_ALLOWED@,
        explained(a + "polkit"@ + b) == NOT_ALLOWED@,
        ({
            let denied = |s: Seq<char>|
                holds(lower_all(s), "not authorized"@) || holds(lower_all(s), "permission"@) || holds(
                    lower_all(s),
                    "polkit"@,
                );
            let unable = |s: Seq<char>|
                holds(lower_all(s), "ap mode"@) || holds(lower_all(s), "not supported"@) || holds(
                    lower_all(s),
                    "no suitable"@,
                );
            let s = a + "not supported"@ + b;
            let t = a + "no suitable"@ + b;
            let u = a + "ap mode"@ + b;
            let v = a + "rfkill"@ + b;
            let w = a + "disabled"@ + b;
            &&& !denied(s) ==> explained(s) == CANNOT@
            &&& !denied(t) ==> explained(t) == CANNOT@
            &&& !denied(u) ==> explained(u) == CANNOT@
            &&& !denied(v) && !unable(v) ==> explained(v) == WIFI_IS_OFF@
            &&& !denied(w) && !unable(w) ==> explained(w) == WIFI_IS_OFF@
            &&& !denied(a) && !unable(a) && !holds(lower_all(a), "rfkill"@) && !holds(
                lower_all(a),
                "disabled"@,
            ) ==> explained(a) == "The network could not be created.\n"@ + a
        }),
{
    reveal_strlit("not authorized");
    reveal_strlit("permission");
    reveal_strlit("polkit");
    reveal_strlit("ap mode");
    reveal_strlit("not supported");
    reveal_strlit("no suitable");
    reveal_strlit("rfkill");
    reveal_strlit("disabled");
    lemma_small_middle(a, "not authorized"@, b);
    lemma_small_middle(a, "permission"@, b);
    lemma_small_middle(a, "polkit"@, b);
    lemma_small_middle(a, "ap mode"@, b);
    lemma_small_middle(a, "not supported"@, b);
    lemma_small_middle(a, "no suitable"@, b);
    lemma_small_middle(a, "rfkill"@, b);
    lemma_small_middle(a, "disabled"@, b);
}

proof fn lemma_small_middle(a: Seq<char>, p: Seq<char>, b: Seq<char>)
    requires
        forall|i: int| 0 <= i < p.len() ==> !('A' <= #[trigger] p[i] <= 'Z'),
    ensures
        holds(lower_all(a + p + b), p),
{
    assert(lower_all(p) =~= p);
    assert(lower_all(a + p + b) =~= lower_all(a) + p + lower_all(b));
    lemma_holds_middle(lower_all(a), p, lower_all(b));
}

/// Windows is asked for every network that it can make: the password has eight characters
/// or more, the name takes between one byte and thirty-two, and nothing that is needed is
/// switched off. Each refusal is told as what it is.
pub proof fn law_windows_is_asked_for_what_it_can_make(
    ssid: Seq<char>,
    password: Seq<char>,
    off: Seq<(Seq<char>, Seq<char>)>,
)
    ensures
        not_asked(ssid, password, off) is None <==> password.len() >= 8 && 1 <= encode_utf8(
            ssid,
        ).len() <= 32 && off.len() == 0,
        password.len() < 8 ==> not_asked(ssid, password, off) == Some(TOO_SHORT@),
        password.len() >= 8 && (encode_utf8(ssid).len() == 0 || encode_utf8(ssid).len() > 32)
            ==> not_asked(ssid, password, off) == Some(BAD_NAME@),
{
}

/// A network that Windows was asked for is there exactly where Windows says that it is on.
pub proof fn law_a_network_is_there_when_windows_says_so(
    rest: Seq<(Seq<char>, Seq<char>)>,
    state: Seq<char>,
)
    ensures
        ({
            let answer = seq![("STATE"@, state)] + rest;
            &&& windows_said(answer) is Ok <==> state == "On"@
            &&& (forall|j: int| 0 <= j < rest.len() ==> (#[trigger] rest[j]).0 != "STATE"@)
                ==> windows_said(rest) is Err
        }),
{
    let answer = seq![("STATE"@, state)] + rest;
    assert(answer[0] == ("STATE"@, state));
    if forall|j: int| 0 <= j < rest.len() ==> (#[trigger] rest[j]).0 != "STATE"@ {
        lemma_not_told(rest, 0, "STATE"@);
    }
}

proof fn lemma_not_told(v: Seq<(Seq<char>, Seq<char>)>, i: int, key: Seq<char>)
    requires
        0 <= i,
        forall|j: int| i <= j < v.len() ==> (#[trigger] v[j]).0 != key,
    ensures
        value_from(v, i, key) is None,
    decreases v.len() - i,
{
    if i < v.len() {
        lemma_not_told(v, i + 1, key);
    }
}

/// A password has been changed exactly where it can be one, the network it is for is known,
/// and both commands went through; it is changed on the profile that the network was made
/// with, if that is known.
pub proof fn law_when_a_password_is_changed(
    h: Hotspot,
    new: Seq<char>,
    found: Option<Seq<char>>,
    modified: Ran,
    raised: Ran,
)
    ensures
        change_of(h, new, found, modified, raised) is Ok <==> {
            &&& new.len() >= 8
            &&& h.profile is Some || found is Some
            &&& modified is Done
            &&& raised is Done
        },
        h.profile matches Some(p) ==> profile_for(h, found) == Some(p@),
        h.profile is None ==> profile_for(h, found) == found,
{
}

/// The network that was there before is put back by name, after three minutes without a
/// heartbeat; hearts beat every minute.
pub proof fn law_what_was_there_is_put_back(name: Seq<char>, seconds: int)
    ensures
        restore_words(None, seconds) is None,
        ({
            let w = restore_words(Some(name), seconds);
            &&& w is Some
            &&& w->0.last() == name
            &&& w->0[w->0.len() - 2] == "sleep "@ + decimal(seconds)
                + "; exec nmcli connection up \"$0\""@
        }),
        pulse(true, Some(name)) == restore_words(Some(name), 180),
        HEARTBEAT == 60,
{
}

/// The password that was last used is found among the details of all connections, whichever
/// of them holds it first; Windows keeps one, and it is taken for a network of its own name
/// alone.
pub proof fn law_the_first_saved_password_is_taken(
    details: Seq<Seq<char>>,
    i: int,
    k: int,
    ssid: Seq<char>,
    pass: Seq<char>,
    name: Seq<char>,
)
    requires
        0 <= i <= k < details.len(),
        forall|j: int| i <= j < k ==> saved_in(#[trigger] details[j], ssid) is None,
        saved_in(details[k], ssid) == Some(pass),
    ensures
        saved_from(details, i, ssid) == Some(pass),
        kept_by_windows(seq![("SSID"@, ssid), ("PASS"@, name)], ssid) == (if name.len() >= 8 {
            Some(name)
        } else {
            None
        }),
        name != ssid ==> kept_by_windows(seq![("SSID"@, name), ("PASS"@, pass)], ssid) is None,
    decreases k - i,
{
    reveal_strlit("SSID");
    reveal_strlit("PASS");
    assert("SSID"@[0] == 'S' && "PASS"@[0] == 'P');
    reveal_with_fuel(value_from, 3);
    if i < k {
        assert(saved_in(details[i], ssid) is None);
        law_the_first_saved_password_is_taken(details, i + 1, k, ssid, pass, name);
    }
}

/// A command that cannot be run is told as that, with the reason the system gave; one that
/// was refused is told as what the refusal means.
pub proof fn law_a_command_that_failed_is_told(why: String, h: Hotspot, new: Seq<char>)
    requires
        new.len() >= 8,
        h.profile is Some,
    ensures
        failure(Ran::Broken(why)) == Some("Could not run nmcli: "@ + why@),
        failure(Ran::Refused(why)) == Some(explained(trimmed(why@))),
        failure(Ran::Done) is None,
        change_of(h, new, None, Ran::Broken(why), Ran::Done) == Err::<(), Seq<char>>(
            "Could not run nmcli: "@ + why@,
        ),
        change_of(h, new, None, Ran::Done, Ran::Broken(why)) == Err::<(), Seq<char>>(
            "Could not run nmcli: "@ + why@,
        ),
        change_of(h, new, None, Ran::Done, Ran::Refused(why)) == Err::<(), Seq<char>>(
            "The password was changed but the network did not come back up.\n"@ + trimmed(why@)
                + "\nThe old password no longer works. Stop and start the lesson again."@,
        ),
{
}

/// A refusal by Windows that names the code for parts that are switched off is told as that,
/// wherever the code stands in the reason; any other is passed on.
pub proof fn law_parts_that_are_off_are_told(a: Seq<char>, b: Seq<char>, other: Seq<char>)
    ensures
        windows_said(seq![("ERR"@, a + "0x83120001"@ + b)]) == Err::<(), Seq<char>>(PARTS_ARE_OFF@),
        !holds(other, "0x83120001"@) ==> windows_said(seq![("ERR"@, other)]) == Err::<
            (),
            Seq<char>,
        >(WOULD_NOT@ + other + CHECK_WIFI@),
{
    reveal_strlit("ERR");
    reveal_strlit("STATE");
    assert("ERR"@.len() == 3 && "STATE"@.len() == 5);
    reveal_with_fuel(value_from, 3);
    lemma_holds_middle(a, "0x83120001"@, b);
    let v = seq![("ERR"@, a + "0x83120001"@ + b)];
    let w = seq![("ERR"@, other)];
    assert(v[0].0 == "ERR"@ && w[0].0 == "ERR"@);
    assert(value_from(v, 0, "STATE"@) is None);
    assert(value_from(w, 0, "STATE"@) is None);
}

/// What is asked of the system is a hotspot on a wifi device.
pub proof fn law_a_hotspot_is_what_is_asked_for(
    ssid: Seq<char>,
    password: Seq<char>,
    allowed: Seq<u16>,
    iface: Seq<char>,
)
    requires
        password.len() >= 8,
    ensures
        request_for(ssid, password, None, allowed, Some(iface)) matches Ok(w) && w.len() >= 3 && w[0]
            == seq!['d', 'e', 'v', 'i', 'c', 'e'] && w[1] == seq!['w', 'i', 'f', 'i'] && w[2] == seq![
            'h',
            'o',
            't',
            's',
            'p',
            'o',
            't',
        ],
{
    reveal_strlit("device");
    reveal_strlit("wifi");
    reveal_strlit("hotspot");
    assert("device"@ =~= seq!['d', 'e', 'v', 'i', 'c', 'e']);
    assert("wifi"@ =~= seq!['w', 'i', 'f', 'i']);
    assert("hotspot"@ =~= seq!['h', 'o', 't', 's', 'p', 'o', 't']);
}

} // verus!
