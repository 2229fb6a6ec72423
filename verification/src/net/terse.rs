//! What the network manager's terse output says.

use crate::addr::{address, law_address_reads_back, parse_address, Ipv4Addr};
use crate::number::{decimal, law_decimal_reads_back, lemma_decimal_not_empty};
use crate::text::{
    chars_of, contains_text, cut, cut_last, holds, is_space, is_text,
    law_a_text_is_cut_where_it_should, lemma_char_at_is, lemma_nothing_to_trim, lines, pieces,
    rsplit_once, same_text, split_char, split_lines, split_once, string_of, text_view, texts, trim,
    trimmed, views,
};
use vstd::prelude::*;

verus! {

/// A value without its escapes: a backslash stands for the character behind it,
/// and one with nothing behind it for itself.
pub open spec fn unescaped(s: Seq<char>) -> Seq<char>
    decreases s.len(),
{
    if s.len() == 0 {
        Seq::empty()
    } else if s[0] == '\\' && s.len() > 1 {
        seq![s[1]] + unescaped(s.skip(2))
    } else {
        seq![s[0]] + unescaped(s.skip(1))
    }
}

/// A value with its escapes: a colon or a backslash has a backslash before it.
pub open spec fn escaped(s: Seq<char>) -> Seq<char>
    decreases s.len(),
{
    if s.len() == 0 {
        Seq::empty()
    } else if s[0] == '\\' || s[0] == ':' {
        seq!['\\', s[0]] + escaped(s.skip(1))
    } else {
        seq![s[0]] + escaped(s.skip(1))
    }
}

fn unescape(s: &[char]) -> (r: String)
    ensures
        r@ == unescaped(s@),
{
    let mut r = String::new();
    let mut i: usize = 0;
    assert(s@.skip(0) =~= s@);
    assert(r@ + unescaped(s@) =~= unescaped(s@));
    while i < s.len()
        invariant
            i <= s.len(),
            r@ + unescaped(s@.skip(i as int)) == unescaped(s@),
        decreases s.len() - i,
    {
        let ghost before = r@;
        let ghost rest = s@.skip(i as int);
        if s[i] == '\\' && s.len() - i > 1 {
            r.push(s[i + 1]);
            proof {
                assert(rest.skip(2) =~= s@.skip(i + 2));
                assert(r@ + unescaped(s@.skip(i + 2)) =~= before + (seq![rest[1]] + unescaped(
                    rest.skip(2),
                )));
            }
            i = i + 2;
        } else {
            r.push(s[i]);
            proof {
                assert(rest.skip(1) =~= s@.skip(i + 1));
                assert(r@ + unescaped(s@.skip(i + 1)) =~= before + (seq![rest[0]] + unescaped(
                    rest.skip(1),
                )));
            }
            i = i + 1;
        }
    }
    assert(r@ + unescaped(s@.skip(s@.len() as int)) =~= r@);
    r
}

/// Undo the escapes of a value. The escaped form finds no connection, and says
/// nothing.
pub fn unescape_terse(s: &str) -> (r: String)
    ensures
        r@ == unescaped(s@),
{
    let c: Vec<char> = chars_of(s);
    unescape(c.as_slice())
}

/// A name comes back from its escapes as it was.
pub proof fn law_escaped_name_comes_back(s: Seq<char>)
    ensures
        unescaped(escaped(s)) == s,
    decreases s.len(),
{
    if s.len() > 0 {
        law_escaped_name_comes_back(s.skip(1));
        let e = escaped(s);
        if s[0] == '\\' || s[0] == ':' {
            assert(e[0] == '\\' && e[1] == s[0]);
            assert(e.skip(2) =~= escaped(s.skip(1)));
            assert(unescaped(e) =~= seq![s[0]] + s.skip(1));
        } else {
            assert(e[0] == s[0]);
            assert(e.skip(1) =~= escaped(s.skip(1)));
            assert(unescaped(e) =~= seq![s[0]] + s.skip(1));
        }
        assert(seq![s[0]] + s.skip(1) =~= s);
    }
}

/// The device of the first line from `i` on that is a wifi one.
pub open spec fn wifi_from(ls: Seq<Seq<char>>, i: int) -> Option<Seq<char>>
    decreases ls.len() - i,
{
    if i >= ls.len() {
        None
    } else {
        match cut(ls[i], ':') {
            Some((dev, kind)) => if kind == "wifi"@ {
                Some(dev)
            } else {
                wifi_from(ls, i + 1)
            },
            None => wifi_from(ls, i + 1),
        }
    }
}

/// The first wifi interface in a list of devices and their types.
pub fn wifi_interface(said: &str) -> (r: Option<String>)
    ensures
        text_view(r) == wifi_from(lines(said@), 0),
{
    let c: Vec<char> = chars_of(said);
    let ls: Vec<&[char]> = split_lines(c.as_slice());
    let ghost all = lines(said@);
    let mut i: usize = 0;
    while i < ls.len()
        invariant
            views(ls@) == all,
            all == lines(said@),
            i <= ls.len(),
            wifi_from(all, 0) == wifi_from(all, i as int),
        decreases ls.len() - i,
    {
        assert(all[i as int] == ls@[i as int]@);
        if let Some((dev, kind)) = split_once(ls[i], ':') {
            if is_text(kind, "wifi") {
                return Some(string_of(dev));
            }
        }
        i = i + 1;
    }
    None
}

/// The name of the first line from `i` on whose type is wireless. The name may
/// hold colons and the type cannot, so the line is cut at its last.
pub open spec fn wireless_from(ls: Seq<Seq<char>>, i: int) -> Option<Seq<char>>
    decreases ls.len() - i,
{
    if i >= ls.len() {
        None
    } else {
        match cut_last(ls[i], ':') {
            Some((name, kind)) => if holds(kind, "wireless"@) {
                Some(unescaped(name))
            } else {
                wireless_from(ls, i + 1)
            },
            None => wireless_from(ls, i + 1),
        }
    }
}

/// The wifi connection that is in use, in a list of names and types.
pub fn active_wifi_connection(said: &str) -> (r: Option<String>)
    ensures
        text_view(r) == wireless_from(lines(said@), 0),
{
    let c: Vec<char> = chars_of(said);
    let ls: Vec<&[char]> = split_lines(c.as_slice());
    let ghost all = lines(said@);
    let mut i: usize = 0;
    while i < ls.len()
        invariant
            views(ls@) == all,
            all == lines(said@),
            i <= ls.len(),
            wireless_from(all, 0) == wireless_from(all, i as int),
        decreases ls.len() - i,
    {
        assert(all[i as int] == ls@[i as int]@);
        if let Some((name, kind)) = rsplit_once(ls[i], ':') {
            if contains_text(kind, "wireless") {
                return Some(unescape(name));
            }
        }
        i = i + 1;
    }
    None
}

/// Name, device and type on a line, which are cut off from its end.
pub open spec fn three_fields(line: Seq<char>) -> (Seq<char>, Seq<char>, Seq<char>) {
    match cut_last(line, ':') {
        Some((rest, kind)) => match cut_last(rest, ':') {
            Some((name, dev)) => (name, dev, kind),
            None => (Seq::empty(), rest, kind),
        },
        None => (Seq::empty(), Seq::empty(), line),
    }
}

/// The name of the first line from `i` on that is wireless and on this device.
pub open spec fn profile_from(ls: Seq<Seq<char>>, i: int, iface: Seq<char>) -> Option<Seq<char>>
    decreases ls.len() - i,
{
    if i >= ls.len() {
        None
    } else {
        let (name, dev, kind) = three_fields(ls[i]);
        if dev == iface && holds(kind, "wireless"@) {
            Some(unescaped(name))
        } else {
            profile_from(ls, i + 1, iface)
        }
    }
}

fn profile_on(line: &[char], iface: &str) -> (r: Option<String>)
    ensures
        ({
            let (name, dev, kind) = three_fields(line@);
            text_view(r) == (if dev == iface@ && holds(kind, "wireless"@) {
                Some(unescaped(name))
            } else {
                None
            })
        }),
{
    match rsplit_once(line, ':') {
        Some((rest, kind)) => {
            if !contains_text(kind, "wireless") {
                return None;
            }
            match rsplit_once(rest, ':') {
                Some((name, dev)) => if is_text(dev, iface) {
                    Some(unescape(name))
                } else {
                    None
                },
                None => if is_text(rest, iface) {
                    let none = String::new();
                    assert(none@ =~= unescaped(Seq::empty()));
                    Some(none)
                } else {
                    None
                },
            }
        },
        None => if iface.is_empty() && contains_text(line, "wireless") {
            let none = String::new();
            assert(iface@ =~= Seq::<char>::empty());
            assert(none@ =~= unescaped(Seq::empty()));
            Some(none)
        } else {
            None
        },
    }
}

/// The profile in use on an interface, in a list of names, devices and types. It
/// is asked for because it is not reliably called what one would think.
pub fn active_profile_on(said: &str, iface: &str) -> (r: Option<String>)
    ensures
        text_view(r) == profile_from(lines(said@), 0, iface@),
{
    let c: Vec<char> = chars_of(said);
    let ls: Vec<&[char]> = split_lines(c.as_slice());
    let ghost all = lines(said@);
    let mut i: usize = 0;
    while i < ls.len()
        invariant
            views(ls@) == all,
            all == lines(said@),
            i <= ls.len(),
            profile_from(all, 0, iface@) == profile_from(all, i as int, iface@),
        decreases ls.len() - i,
    {
        assert(all[i as int] == ls@[i as int]@);
        if let Some(name) = profile_on(ls[i], iface) {
            return Some(name);
        }
        i = i + 1;
    }
    None
}

/// The names of the wireless connections on some lines.
pub open spec fn wireless_names(ls: Seq<Seq<char>>) -> Seq<Seq<char>>
    decreases ls.len(),
{
    if ls.len() == 0 {
        Seq::empty()
    } else {
        match wireless_from(seq![ls.last()], 0) {
            Some(name) => wireless_names(ls.drop_last()).push(name),
            None => wireless_names(ls.drop_last()),
        }
    }
}

/// The names of all wireless connections, in a list of names and types.
pub fn wireless_connections(said: &str) -> (out: Vec<String>)
    ensures
        texts(out@) == wireless_names(lines(said@)),
{
    let c: Vec<char> = chars_of(said);
    let ls: Vec<&[char]> = split_lines(c.as_slice());
    let ghost all = lines(said@);
    let mut out: Vec<String> = Vec::new();
    let mut i: usize = 0;
    assert(texts(out@) =~= wireless_names(all.take(0)));
    while i < ls.len()
        invariant
            views(ls@) == all,
            i <= ls.len(),
            texts(out@) == wireless_names(all.take(i as int)),
        decreases ls.len() - i,
    {
        assert(all[i as int] == ls@[i as int]@);
        assert(all.take(i + 1).drop_last() =~= all.take(i as int));
        let ghost one = seq![all[i as int]];
        proof {
            reveal_with_fuel(wireless_from, 3);
            assert(one[0] == all[i as int]);
        }
        if let Some((name, kind)) = rsplit_once(ls[i], ':') {
            if contains_text(kind, "wireless") {
                let ghost before = out@;
                let n: String = unescape(name);
                out.push(n);
                assert(texts(out@) =~= texts(before).push(n@));
            }
        }
        i = i + 1;
    }
    assert(all.take(all.len() as int) =~= all);
    out
}

/// The password that a connection's details hold, if it is the hotspot of this
/// name: three lines, the name, the mode and the password.
pub open spec fn saved_in(details: Seq<char>, ssid: Seq<char>) -> Option<Seq<char>> {
    let ls = lines(details);
    if ls.len() >= 3 && unescaped(ls[0]) == ssid && ls[1] == "ap"@ && unescaped(ls[2]).len() >= 8 {
        Some(unescaped(ls[2]))
    } else {
        None
    }
}

/// The password that a connection's details hold, if it is the hotspot of this
/// name.
pub fn saved_password(details: &str, ssid: &str) -> (r: Option<String>)
    ensures
        text_view(r) == saved_in(details@, ssid@),
{
    let c: Vec<char> = chars_of(details);
    let ls: Vec<&[char]> = split_lines(c.as_slice());
    assert(ls.len() == lines(details@).len());
    if ls.len() < 3 {
        return None;
    }
    assert(views(ls@)[0] == ls@[0]@ && views(ls@)[1] == ls@[1]@ && views(ls@)[2] == ls@[2]@);
    let name: String = unescape(ls[0]);
    let psk: String = unescape(ls[2]);
    let n: Vec<char> = chars_of(psk.as_str());
    if same_text(name.as_str(), ssid) && is_text(ls[1], "ap") && n.len() >= 8 {
        Some(psk)
    } else {
        None
    }
}

/// The first address among some lines from `i` on, each cut at its first slash.
pub open spec fn address_from(ls: Seq<Seq<char>>, i: int) -> Option<Ipv4Addr>
    decreases ls.len() - i,
{
    if i >= ls.len() {
        None
    } else {
        match address(pieces(trimmed(ls[i]), '/')[0]) {
            Some(ip) => Some(ip),
            None => address_from(ls, i + 1),
        }
    }
}

/// The address of an interface, from its details.
pub fn hotspot_address_of(said: &str) -> (r: Option<Ipv4Addr>)
    ensures
        r == address_from(lines(said@), 0),
{
    let c: Vec<char> = chars_of(said);
    let ls: Vec<&[char]> = split_lines(c.as_slice());
    let ghost all = lines(said@);
    let mut i: usize = 0;
    while i < ls.len()
        invariant
            views(ls@) == all,
            all == lines(said@),
            i <= ls.len(),
            address_from(all, 0) == address_from(all, i as int),
        decreases ls.len() - i,
    {
        assert(all[i as int] == ls@[i as int]@);
        let p: Vec<&[char]> = split_char(trim(ls[i]), '/');
        assert(views(p@)[0] == p@[0]@);
        if let Some(ip) = parse_address(p[0]) {
            return Some(ip);
        }
        i = i + 1;
    }
    None
}

// ------------------------------------------------------------- laws

/// The wifi interface is the first device whose type is wifi.
pub proof fn law_the_first_wifi_device_is_taken(ls: Seq<Seq<char>>, i: int, k: int, dev: Seq<char>)
    requires
        0 <= i <= k < ls.len(),
        !dev.contains(':'),
        ls[k] == dev + seq![':', 'w', 'i', 'f', 'i'],
        forall|j: int| i <= j < k ==> (cut(#[trigger] ls[j], ':') matches Some((_, kind)) ==> kind
            != seq!['w', 'i', 'f', 'i']),
    ensures
        wifi_from(ls, i) == Some(dev),
    decreases k - i,
{
    reveal_strlit("wifi");
    assert("wifi"@ =~= seq!['w', 'i', 'f', 'i']);
    if i < k {
        assert(cut(ls[i], ':') matches Some((_, kind)) ==> kind != seq!['w', 'i', 'f', 'i']);
        law_the_first_wifi_device_is_taken(ls, i + 1, k, dev);
    } else {
        law_a_text_is_cut_where_it_should(dev, ':', "wifi"@);
        assert(ls[k] =~= dev + seq![':'] + "wifi"@);
    }
}

/// The name of a connection is read as it was given, colons, backslashes and all, off the
/// first line whose type is wireless; and so is the one on a device, where the device
/// stands between the name and the type.
pub proof fn law_connections_are_read_by_name(
    ls: Seq<Seq<char>>,
    name: Seq<char>,
    dev: Seq<char>,
    kind: Seq<char>,
)
    requires
        ls.len() > 0,
        !dev.contains(':'),
        !kind.contains(':'),
    ensures
        ls[0] == escaped(name) + seq![':'] + kind ==> {
            &&& holds(kind, "wireless"@) ==> wireless_from(ls, 0) == Some(name)
            &&& !holds(kind, "wireless"@) ==> wireless_from(ls, 0) == wireless_from(ls, 1)
        },
        ls[0] == escaped(name) + seq![':'] + dev + seq![':'] + kind ==> {
            &&& three_fields(ls[0]) == (escaped(name), dev, kind)
            &&& holds(kind, "wireless"@) ==> profile_from(ls, 0, dev) == Some(name)
            &&& forall|other: Seq<char>|
                other != dev ==> #[trigger] profile_from(ls, 0, other) == profile_from(ls, 1, other)
        },
{
    law_escaped_name_comes_back(name);
    law_a_text_is_cut_where_it_should(escaped(name), ':', kind);
    law_a_text_is_cut_where_it_should(escaped(name), ':', dev);
    law_a_text_is_cut_where_it_should(escaped(name) + seq![':'] + dev, ':', kind);
}

/// All wireless connections are named, in their order, and nothing else is.
pub proof fn law_every_wireless_connection_is_named(
    ls: Seq<Seq<char>>,
    name: Seq<char>,
    kind: Seq<char>,
)
    requires
        !kind.contains(':'),
    ensures
        ({
            let more = ls.push(escaped(name) + seq![':'] + kind);
            &&& holds(kind, "wireless"@) ==> wireless_names(more) == wireless_names(ls).push(name)
            &&& !holds(kind, "wireless"@) ==> wireless_names(more) == wireless_names(ls)
        }),
{
    let line = escaped(name) + seq![':'] + kind;
    let more = ls.push(line);
    assert(more.drop_last() =~= ls);
    law_escaped_name_comes_back(name);
    law_a_text_is_cut_where_it_should(escaped(name), ':', kind);
    reveal_with_fuel(wireless_from, 2);
}

/// A password is found in the details of a hotspot of that name, where it is one that a
/// network can have; the details of anything else hold none.
pub proof fn law_a_saved_password_is_found(
    details: Seq<char>,
    name: Seq<char>,
    password: Seq<char>,
    other: Seq<char>,
)
    requires
        lines(details).len() >= 3,
        lines(details)[0] == escaped(name),
        lines(details)[2] == escaped(password),
    ensures
        lines(details)[1] == seq!['a', 'p'] && password.len() >= 8 ==> saved_in(details, name)
            == Some(password),
        lines(details)[1] != seq!['a', 'p'] || password.len() < 8 || other != name ==> saved_in(
            details,
            other,
        ) is None,
{
    reveal_strlit("ap");
    assert("ap"@ =~= seq!['a', 'p']);
    law_escaped_name_comes_back(name);
    law_escaped_name_comes_back(password);
}

/// The address of an interface is the one before the slash on the first line that has one.
pub proof fn law_the_address_stands_before_the_slash(
    ls: Seq<Seq<char>>,
    i: int,
    ip: Ipv4Addr,
    rest: Seq<char>,
)
    requires
        0 <= i < ls.len(),
        ls[i] == ip.dotted() + seq!['/'] + rest,
        rest.len() > 0 && !is_space(rest.last()),
    ensures
        address_from(ls, i) == Some(ip),
{
    let d = ip.dotted();
    law_address_reads_back(ip);
    law_decimal_reads_back(ip.a as int, 255);
    law_decimal_reads_back(ip.b as int, 255);
    law_decimal_reads_back(ip.c as int, 255);
    law_decimal_reads_back(ip.d as int, 255);
    lemma_decimal_not_empty(ip.a as int);
    let line = ls[i];
    assert(line[0] == decimal(ip.a as int)[0]);
    assert(line.last() == rest.last());
    lemma_nothing_to_trim(line);
    assert forall|j: int| 0 <= j < d.len() implies d[j] != '/' by {
        let a = decimal(ip.a as int);
        let b = decimal(ip.b as int);
        let c = decimal(ip.c as int);
        let e = decimal(ip.d as int);
        if j < a.len() {
            assert(d[j] == a[j]);
        } else if j == a.len() {
        } else if j < a.len() + 1 + b.len() {
            assert(d[j] == b[j - a.len() - 1]);
        } else if j == a.len() + 1 + b.len() {
        } else if j < a.len() + b.len() + 2 + c.len() {
            assert(d[j] == c[j - a.len() - b.len() - 2]);
        } else if j == a.len() + b.len() + 2 + c.len() {
        } else {
            assert(d[j] == e[j - a.len() - b.len() - c.len() - 3]);
        }
    }
    lemma_char_at_is(line, '/', d.len() as int);
    assert(line.take(d.len() as int) =~= d);
}

} // verus!
