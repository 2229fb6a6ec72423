//! How the service is started: its command line, the addresses it listens on,
//! how many helpers it has.

use super::order::{by_name, law_names_are_in_order, lemma_same_names, named_of, put_by_name};
use super::roster::{files_of, listed};
use crate::number::{decimal, law_decimal_reads_back, parse_decimal, push_decimal, unsigned};
use crate::text::{
    chars_of, cut_last, law_a_text_is_cut_where_it_should, rsplit_once, same_text, str_view,
    string_of, text_view, texts,
};
use vstd::prelude::*;

verus! {

// ------------------------------------------------------------- listening

/// The host part of an address: what stands before the last colon.
pub open spec fn host_of(addr: Seq<char>) -> Seq<char> {
    match cut_last(addr, ':') {
        Some((h, _)) => h,
        None => "0.0.0.0"@,
    }
}

/// Whether a host means every address of this machine.
pub open spec fn is_wildcard(host: Seq<char>) -> bool {
    host == "0.0.0.0"@ || host == "*"@ || host.len() == 0
}

/// The addresses to listen on: the one asked for, and port 80 beside it, but
/// only for a service on every address.
pub open spec fn wanted_addresses(addr: Seq<char>) -> Seq<Seq<char>> {
    let port_80 = host_of(addr) + ":80"@;
    if is_wildcard(host_of(addr)) && port_80 != addr {
        seq![addr, port_80]
    } else {
        seq![addr]
    }
}

/// The addresses to listen on. At least one of them has to be had.
pub fn bind_all(addr: &str) -> (wanted: Vec<String>)
    ensures
        texts(wanted@) == wanted_addresses(addr@),
{
    let chars: Vec<char> = chars_of(addr);
    let host: String = match rsplit_once(chars.as_slice(), ':') {
        Some((h, _)) => string_of(h),
        None => "0.0.0.0".to_owned(),
    };
    let mut port_80 = String::new();
    port_80.append(host.as_str());
    port_80.append(":80");
    assert(port_80@ =~= host_of(addr@) + ":80"@);
    let hc: Vec<char> = chars_of(host.as_str());
    let wildcard: bool = same_text(host.as_str(), "0.0.0.0") || same_text(host.as_str(), "*")
        || hc.len() == 0;
    let mut wanted: Vec<String> = Vec::new();
    wanted.push(addr.to_owned());
    if wildcard && !same_text(port_80.as_str(), addr) {
        wanted.push(port_80);
    }
    assert(texts(wanted@) =~= wanted_addresses(addr@));
    wanted
}

/// A service on one address only never asks for another port.
pub proof fn law_local_service_leaves_port_80_alone(addr: Seq<char>)
    requires
        !is_wildcard(host_of(addr)),
    ensures
        wanted_addresses(addr) == seq![addr],
{
}

/// How many helpers there are by default: what the environment asks for, or
/// eight for each hardware thread and sixteen at least.
pub open spec fn helper_count(asked: Option<Seq<char>>, threads: Option<usize>) -> int {
    let by_threads = {
        let t = match threads {
            Some(n) => n as int,
            None => 4,
        };
        if t * 8 < 16 {
            16
        } else {
            t * 8
        }
    };
    match asked {
        Some(v) => match unsigned(v, 10, usize::MAX as int) {
            Some(n) => n,
            None => by_threads,
        },
        None => by_threads,
    }
}

/// How many helpers there are by default.
pub fn default_helpers(asked: Option<&str>, threads: Option<usize>) -> (n: usize)
    requires
        threads matches Some(t) ==> t * 8 <= usize::MAX,
    ensures
        n == helper_count(str_view(asked), threads),
{
    if let Some(v) = asked {
        let c: Vec<char> = chars_of(v);
        if let Some(n) = parse_decimal(c.as_slice(), usize::MAX as u64) {
            return n as usize;
        }
    }
    let t: usize = match threads {
        Some(n) => n,
        None => 4,
    };
    if t * 8 < 16 {
        16
    } else {
        t * 8
    }
}

/// The names under which this machine may be addressed: the addresses it has,
/// the one the request came to, and itself.
pub fn our_names(addresses: &Vec<String>, local: Option<&str>) -> (names: Vec<String>)
    ensures
        texts(names@) == texts(addresses@) + (match str_view(local) {
            Some(l) => seq![l],
            None => Seq::empty(),
        }) + seq!["localhost"@, "127.0.0.1"@],
{
    let mut names: Vec<String> = Vec::new();
    let mut i: usize = 0;
    while i < addresses.len()
        invariant
            i <= addresses.len(),
            texts(names@) == texts(addresses@).take(i as int),
        decreases addresses.len() - i,
    {
        let ghost before = names@;
        names.push(addresses[i].clone());
        proof {
            assert(texts(names@) =~= texts(before).push(texts(addresses@)[i as int]));
            assert(texts(addresses@).take(i + 1) =~= texts(addresses@).take(i as int).push(
                texts(addresses@)[i as int],
            ));
        }
        i = i + 1;
    }
    assert(texts(names@) =~= texts(addresses@));
    if let Some(l) = local {
        names.push(l.to_owned());
    }
    names.push("localhost".to_owned());
    names.push("127.0.0.1".to_owned());
    assert(texts(names@) =~= texts(addresses@) + (match str_view(local) {
        Some(l) => seq![l],
        None => Seq::empty(),
    }) + seq!["localhost"@, "127.0.0.1"@]);
    names
}

// ------------------------------------------------------------- the list of files

/// One line for each of the first `n` files: its size, a tab, its name.
pub open spec fn listing_text(files: Seq<(Seq<char>, u64)>, n: int) -> Seq<char>
    decreases n,
{
    if n <= 0 {
        Seq::empty()
    } else {
        listing_text(files, n - 1) + decimal(files[n - 1].1 as int) + "\t"@ + files[n - 1].0 + "\n"@
    }
}

/// Size, tab and name, one file per line.
pub fn plain_listing(files: &Vec<(String, u64)>) -> (s: String)
    ensures
        s@ == listing_text(files_of(files@), files.len() as int),
{
    let ghost f = files_of(files@);
    let mut s = String::new();
    let mut i: usize = 0;
    while i < files.len()
        invariant
            f == files_of(files@),
            i <= files.len(),
            s@ == listing_text(f, i as int),
        decreases files.len() - i,
    {
        let ghost before = s@;
        push_decimal(&mut s, files[i].1);
        s.append("\t");
        s.append(files[i].0.as_str());
        s.append("\n");
        assert(s@ =~= before + decimal(f[i as int].1 as int) + "\t"@ + f[i as int].0 + "\n"@);
        i = i + 1;
    }
    s
}

/// One entry of a folder: where it lies, what it is called, how big it is said to be.
pub struct ListRow {
    pub way: String,
    pub name: String,
    pub size: String,
}

pub const LIST_HEAD: &'static str = "<!doctype html><meta charset=utf-8><title>files</title><body><h2>files</h2><ul>";

pub const LIST_END: &'static str = "</ul></body>";

/// One entry as a link.
pub open spec fn entry_text(r: ListRow) -> Seq<char> {
    "<li><a href=\"/"@ + r.way@ + "\">"@ + r.name@ + "</a> "@ + r.size@ + "</li>"@
}

/// The entries by their names, each with its place.
pub open spec fn placed(rows: Seq<ListRow>) -> Seq<(Seq<char>, usize)> {
    Seq::new(rows.len(), |i: int| (rows[i].name@, i as usize))
}

/// The first `n` entries of an order, each as a link.
pub open spec fn entries_text(
    rows: Seq<ListRow>,
    order: Seq<(Seq<char>, usize)>,
    n: int,
) -> Seq<char>
    decreases n,
{
    if n <= 0 {
        Seq::empty()
    } else {
        entries_text(rows, order, n - 1) + entry_text(rows[order[n - 1].1 as int])
    }
}

/// A folder as a page of links, in the order of the names, however they were found.
pub fn listing(rows: &Vec<ListRow>) -> (s: String)
    ensures
        s@ == LIST_HEAD@ + entries_text(rows@, by_name(placed(rows@)), rows.len() as int)
            + LIST_END@,
{
    let mut order: Vec<(String, usize)> = Vec::new();
    let ghost all = placed(rows@);
    let mut k: usize = 0;
    assert(named_of(order@) =~= by_name(all.take(0)));
    while k < rows.len()
        invariant
            all == placed(rows@),
            k <= rows.len(),
            named_of(order@) == by_name(all.take(k as int)),
        decreases rows.len() - k,
    {
        assert(all.take(k + 1).drop_last() =~= all.take(k as int));
        assert(all.take(k + 1).last() == all[k as int]);
        put_by_name(&mut order, rows[k].name.clone(), k);
        k = k + 1;
    }
    let ghost sorted = by_name(all);
    proof {
        assert(all.take(all.len() as int) =~= all);
        law_names_are_in_order(all);
        assert forall|i: int| 0 <= i < sorted.len() implies (#[trigger] sorted[i]).1
            < rows.len() by {
            lemma_same_names(all, sorted[i]);
            assert(sorted.contains(sorted[i]));
            let j = choose|j: int| 0 <= j < all.len() && all[j] == sorted[i];
        }
    }
    let mut s = String::new();
    s.append(LIST_HEAD);
    let mut i: usize = 0;
    assert(s@ =~= LIST_HEAD@ + entries_text(rows@, sorted, 0));
    assert(order.len() == named_of(order@).len());
    while i < order.len()
        invariant
            i <= order.len(),
            named_of(order@) == sorted,
            forall|i: int| 0 <= i < sorted.len() ==> (#[trigger] sorted[i]).1 < rows.len(),
            s@ == LIST_HEAD@ + entries_text(rows@, sorted, i as int),
        decreases order.len() - i,
    {
        let at: usize = order[i].1;
        assert(sorted[i as int].1 == at);
        s.append("<li><a href=\"/");
        s.append(rows[at].way.as_str());
        s.append("\">");
        s.append(rows[at].name.as_str());
        s.append("</a> ");
        s.append(rows[at].size.as_str());
        s.append("</li>");
        i = i + 1;
        assert(s@ =~= LIST_HEAD@ + entries_text(rows@, sorted, i as int));
    }
    s.append(LIST_END);
    s
}

// ------------------------------------------------------------- the command line

/// What the command line of the service asks for.
pub struct Options {
    pub folder: String,
    pub address: Option<String>,
    pub port: u16,
    pub helpers: usize,
    pub network: Option<String>,
    pub password: Option<String>,
    pub notice: Option<String>,
}

/// Options as plain text and numbers.
pub struct OptionsModel {
    pub folder: Seq<char>,
    pub address: Option<Seq<char>>,
    pub port: int,
    pub helpers: int,
    pub network: Option<Seq<char>>,
    pub password: Option<Seq<char>>,
    pub notice: Option<Seq<char>>,
}

impl View for Options {
    type V = OptionsModel;

    open spec fn view(&self) -> OptionsModel {
        OptionsModel {
            folder: self.folder@,
            address: text_view(self.address),
            port: self.port as int,
            helpers: self.helpers as int,
            network: text_view(self.network),
            password: text_view(self.password),
            notice: text_view(self.notice),
        }
    }
}

/// What comes of a command line.
pub enum Command {
    Help,
    /// Something that begins with a dash and is no option.
    NotAnOption(String),
    Serve(Options),
}

/// What comes of a command line, as plain text and numbers.
pub enum CommandModel {
    Help,
    NotAnOption(Seq<char>),
    Serve(OptionsModel),
}

impl View for Command {
    type V = CommandModel;

    open spec fn view(&self) -> CommandModel {
        match *self {
            Command::Help => CommandModel::Help,
            Command::NotAnOption(s) => CommandModel::NotAnOption(s@),
            Command::Serve(o) => CommandModel::Serve(o@),
        }
    }
}

/// The argument after the `i`-th.
pub open spec fn value_at(args: Seq<Seq<char>>, i: int) -> Option<Seq<char>> {
    if i + 1 < args.len() {
        Some(args[i + 1])
    } else {
        None
    }
}

/// A number an option gives, or what stood there before.
pub open spec fn number_or(v: Option<Seq<char>>, max: int, before: int) -> int {
    match v {
        Some(t) => match unsigned(t, 10, max) {
            Some(n) => n,
            None => before,
        },
        None => before,
    }
}

/// A number brought between two others.
pub open spec fn between(n: int, low: int, high: int) -> int {
    if n < low {
        low
    } else if n > high {
        high
    } else {
        n
    }
}

/// What is left of a command line from argument `i` on, given what came before
/// it and how many arguments were no options.
pub open spec fn options_from(
    args: Seq<Seq<char>>,
    i: int,
    o: OptionsModel,
    positional: int,
) -> CommandModel
    decreases args.len() + 1 - i,
{
    if i >= args.len() {
        CommandModel::Serve(o)
    } else {
        let a = args[i];
        let v = value_at(args, i);
        if a == "--name"@ {
            options_from(args, i + 2, OptionsModel { network: v, ..o }, positional)
        } else if a == "--notice"@ {
            options_from(
                args,
                i + 2,
                OptionsModel {
                    notice: if v is Some {
                        v
                    } else {
                        o.notice
                    },
                    ..o
                },
                positional,
            )
        } else if a == "--password"@ {
            options_from(args, i + 2, OptionsModel { password: v, ..o }, positional)
        } else if a == "--helpers"@ || a == "--workers"@ {
            options_from(
                args,
                i + 2,
                OptionsModel {
                    helpers: between(number_or(v, usize::MAX as int, o.helpers), 1, 512),
                    ..o
                },
                positional,
            )
        } else if a == "--port"@ {
            options_from(
                args,
                i + 2,
                OptionsModel { port: number_or(v, u16::MAX as int, o.port), ..o },
                positional,
            )
        } else if a == "--address"@ {
            options_from(args, i + 2, OptionsModel { address: v, ..o }, positional)
        } else if a.len() > 0 && a[0] == '-' {
            CommandModel::NotAnOption(a)
        } else if positional == 0 {
            options_from(args, i + 1, OptionsModel { folder: a, ..o }, 1)
        } else {
            options_from(
                args,
                i + 1,
                OptionsModel {
                    address: if o.address is None {
                        Some(a)
                    } else {
                        o.address
                    },
                    ..o
                },
                positional + 1,
            )
        }
    }
}

/// What comes of a command line, its first argument being the program itself.
pub open spec fn command_of(args: Seq<Seq<char>>, helpers: int) -> CommandModel {
    if args.contains("-h"@) || args.contains("--help"@) {
        CommandModel::Help
    } else {
        options_from(
            args,
            1,
            OptionsModel {
                folder: "."@,
                address: None,
                port: 8080,
                helpers,
                network: None,
                password: None,
                notice: None,
            },
            0,
        )
    }
}

fn value_after(args: &Vec<String>, i: usize) -> (v: Option<String>)
    requires
        i < args.len(),
    ensures
        text_view(v) == value_at(texts(args@), i as int),
{
    if args.len() - i > 1 {
        Some(args[i + 1].clone())
    } else {
        None
    }
}

fn number_from(v: Option<String>, max: u64, before: u64) -> (n: u64)
    requires
        before <= max,
    ensures
        n == number_or(text_view(v), max as int, before as int),
        n <= max,
{
    match v {
        Some(t) => {
            let c: Vec<char> = chars_of(t.as_str());
            match parse_decimal(c.as_slice(), max) {
                Some(n) => n,
                None => before,
            }
        },
        None => before,
    }
}

/// Read the command line of the service; `helpers` is the number there are by
/// default.
pub fn parse_options(args: &Vec<String>, helpers: usize) -> (c: Command)
    requires
        args.len() < usize::MAX - 1,
    ensures
        c@ == command_of(texts(args@), helpers as int),
{
    if listed(args, "-h") || listed(args, "--help") {
        return Command::Help;
    }
    let ghost all = texts(args@);
    let ghost want = command_of(all, helpers as int);
    let mut o = Options {
        folder: ".".to_owned(),
        address: None,
        port: 8080,
        helpers,
        network: None,
        password: None,
        notice: None,
    };
    let mut first: bool = true;
    let ghost mut positional: int = 0;
    let mut i: usize = 1;
    while i < args.len()
        invariant
            args.len() < usize::MAX - 1,
            all == texts(args@),
            want == command_of(all, helpers as int),
            1 <= i <= args.len() + 1 || i == 1,
            first == (positional == 0),
            positional >= 0,
            want == options_from(all, i as int, o@, positional),
        decreases args.len() + 1 - i,
    {
        let a: &str = args[i].as_str();
        assert(all[i as int] == a@);
        let chars: Vec<char> = chars_of(a);
        if same_text(a, "--name") {
            o.network = value_after(args, i);
            i = i + 2;
        } else if same_text(a, "--notice") {
            let v: Option<String> = value_after(args, i);
            if v.is_some() {
                o.notice = v;
            }
            i = i + 2;
        } else if same_text(a, "--password") {
            o.password = value_after(args, i);
            i = i + 2;
        } else if same_text(a, "--helpers") || same_text(a, "--workers") {
            let n: u64 = number_from(value_after(args, i), usize::MAX as u64, o.helpers as u64);
            o.helpers = if n < 1 {
                1
            } else if n > 512 {
                512
            } else {
                n as usize
            };
            i = i + 2;
        } else if same_text(a, "--port") {
            let n: u64 = number_from(value_after(args, i), u16::MAX as u64, o.port as u64);
            o.port = n as u16;
            i = i + 2;
        } else if same_text(a, "--address") {
            o.address = value_after(args, i);
            i = i + 2;
        } else if chars.len() > 0 && chars[0] == '-' {
            return Command::NotAnOption(args[i].clone());
        } else {
            if first {
                o.folder = args[i].clone();
                first = false;
            } else if o.address.is_none() {
                o.address = Some(args[i].clone());
            }
            proof {
                positional = positional + 1;
            }
            i = i + 1;
        }
    }
    Command::Serve(o)
}

/// What is to be done about a network of our own.
#[derive(Clone, Copy, PartialEq, Eq, Structural, Debug)]
pub enum NetworkPlan {
    /// Hand files out over whatever network already exists.
    Existing,
    /// Create one.
    Create,
    /// A name without a password: an open network is not made.
    NeedsPassword,
}

/// Whether to create a network, from the options.
pub fn plan_network(o: &Options) -> (p: NetworkPlan)
    ensures
        p == (match (o.network, o.password) {
            (Some(_), Some(_)) => NetworkPlan::Create,
            (Some(_), None) => NetworkPlan::NeedsPassword,
            (None, _) => NetworkPlan::Existing,
        }),
{
    if o.network.is_some() {
        if o.password.is_some() {
            NetworkPlan::Create
        } else {
            NetworkPlan::NeedsPassword
        }
    } else {
        NetworkPlan::Existing
    }
}

/// The address to listen on: the one given, or the port on every address.
pub fn listen_address(o: &Options) -> (a: String)
    ensures
        a@ == (match text_view(o.address) {
            Some(a) => a,
            None => "0.0.0.0:"@ + decimal(o.port as int),
        }),
{
    match &o.address {
        Some(a) => a.clone(),
        None => {
            let mut s = String::new();
            s.append("0.0.0.0:");
            push_decimal(&mut s, o.port as u64);
            assert(s@ =~= "0.0.0.0:"@ + decimal(o.port as int));
            s
        },
    }
}

// ------------------------------------------------------------- laws

/// A service on every address is also there where a browser looks first, on port 80, under
/// the same host; one that was asked for on a single address, or on that port already, is
/// nowhere else.
pub proof fn law_where_the_service_listens(host: Seq<char>, port: Seq<char>)
    requires
        forall|i: int| 0 <= i < port.len() ==> #[trigger] port[i] != ':',
    ensures
        ({
            let addr = host + seq![':'] + port;
            let every = host.len() == 0 || host == seq!['*'] || host == seq![
                '0',
                '.',
                '0',
                '.',
                '0',
                '.',
                '0',
            ];
            &&& every && port != seq!['8', '0'] ==> wanted_addresses(addr) == seq![
                addr,
                host + seq![':', '8', '0'],
            ]
            &&& !every || port == seq!['8', '0'] ==> wanted_addresses(addr) == seq![addr]
        }),
{
    reveal_strlit("0.0.0.0");
    reveal_strlit("*");
    reveal_strlit(":80");
    assert("0.0.0.0"@ =~= seq!['0', '.', '0', '.', '0', '.', '0']);
    assert("*"@ =~= seq!['*']);
    assert(":80"@ =~= seq![':', '8', '0']);
    let addr = host + seq![':'] + port;
    assert(!port.contains(':'));
    law_a_text_is_cut_where_it_should(host, ':', port);
    if host + ":80"@ == addr {
        assert(addr.skip(host.len() as int + 1) =~= port);
        assert((host + ":80"@).skip(host.len() as int + 1) =~= seq!['8', '0']);
    }
    if port == seq!['8', '0'] {
        assert(addr =~= host + ":80"@);
    }
}

/// As many helpers stand ready as were asked for; where nobody asked, or not with a number,
/// eight for each thread of the machine and never fewer than sixteen.
pub proof fn law_how_many_helpers_there_are(n: usize, threads: usize, words: Seq<char>)
    requires
        unsigned(words, 10, usize::MAX as int) is None,
    ensures
        helper_count(Some(decimal(n as int)), Some(threads)) == n,
        helper_count(None, Some(threads)) == helper_count(Some(words), Some(threads)),
        helper_count(None, Some(threads)) >= 16,
        threads >= 2 ==> helper_count(None, Some(threads)) == 8 * threads,
        threads < 2 ==> helper_count(None, Some(threads)) == 16,
        helper_count(None, None) == 32,
{
    law_decimal_reads_back(n as int, usize::MAX as int);
}

proof fn lemma_option_names()
    ensures
        "--name"@.len() > 0 && "--name"@[0] == '-',
        "--name"@ != "--notice"@ && "--name"@ != "--password"@ && "--name"@ != "--helpers"@
            && "--name"@ != "--workers"@ && "--name"@ != "--port"@ && "--name"@ != "--address"@,
        "--notice"@ != "--password"@ && "--notice"@ != "--helpers"@ && "--notice"@ != "--workers"@
            && "--notice"@ != "--port"@ && "--notice"@ != "--address"@,
        "--password"@ != "--helpers"@ && "--password"@ != "--workers"@ && "--password"@ != "--port"@
            && "--password"@ != "--address"@,
        "--helpers"@ != "--workers"@ && "--helpers"@ != "--port"@ && "--helpers"@ != "--address"@,
        "--workers"@ != "--port"@ && "--workers"@ != "--address"@,
        "--port"@ != "--address"@,
        "--notice"@[0] == '-' && "--password"@[0] == '-' && "--helpers"@[0] == '-' && "--workers"@[0]
            == '-' && "--port"@[0] == '-' && "--address"@[0] == '-',
        "--notice"@.len() > 0 && "--password"@.len() > 0 && "--helpers"@.len() > 0
            && "--workers"@.len() > 0 && "--port"@.len() > 0 && "--address"@.len() > 0,
{
    reveal_strlit("--name");
    reveal_strlit("--notice");
    reveal_strlit("--password");
    reveal_strlit("--helpers");
    reveal_strlit("--workers");
    reveal_strlit("--port");
    reveal_strlit("--address");
    assert("--name"@[2] == 'n' && "--name"@.len() == 6);
    assert("--notice"@[2] == 'n' && "--notice"@.len() == 8);
    assert("--password"@[2] == 'p' && "--password"@.len() == 10);
    assert("--helpers"@[2] == 'h');
    assert("--workers"@[2] == 'w');
    assert("--port"@[2] == 'p' && "--port"@.len() == 6);
    assert("--address"@[2] == 'a');
}

/// Each option of a command line does what it says and nothing else, wherever it stands:
/// it takes what follows it, and the rest of the line is read as if it had not been there.
pub proof fn law_each_option_does_what_it_says(
    args: Seq<Seq<char>>,
    i: int,
    o: OptionsModel,
    k: int,
)
    requires
        0 <= i,
        i + 1 < args.len(),
    ensures
        ({
            let v = args[i + 1];
            let onward = |p: OptionsModel| options_from(args, i + 2, p, k);
            let here = options_from(args, i, o, k);
            &&& args[i] == "--name"@ ==> here == onward(OptionsModel { network: Some(v), ..o })
            &&& args[i] == "--password"@ ==> here == onward(OptionsModel { password: Some(v), ..o })
            &&& args[i] == "--notice"@ ==> here == onward(OptionsModel { notice: Some(v), ..o })
            &&& args[i] == "--address"@ ==> here == onward(OptionsModel { address: Some(v), ..o })
            &&& args[i] == "--port"@ ==> forall|n: int|
                0 <= n <= 65535 && v == #[trigger] decimal(n) ==> here == onward(
                    OptionsModel { port: n, ..o },
                )
            &&& args[i] == "--helpers"@ || args[i] == "--workers"@ ==> forall|n: int|
                1 <= n <= 512 && v == #[trigger] decimal(n) ==> here == onward(
                    OptionsModel { helpers: n, ..o },
                )
        }),
{
    lemma_option_names();
    let v = args[i + 1];
    assert forall|n: int| 0 <= n <= 65535 && v == #[trigger] decimal(n) implies unsigned(
        v,
        10,
        u16::MAX as int,
    ) == Some(n) by {
        law_decimal_reads_back(n, u16::MAX as int);
    }
    assert forall|n: int| 1 <= n <= 512 && v == #[trigger] decimal(n) implies unsigned(
        v,
        10,
        usize::MAX as int,
    ) == Some(n) by {
        law_decimal_reads_back(n, usize::MAX as int);
    }
}

/// What is no option is the folder first and the address next; the end of the line ends it;
/// and what looks like an option and is none is told.
pub proof fn law_the_folder_comes_first(args: Seq<Seq<char>>, i: int, o: OptionsModel, k: int)
    requires
        0 <= i <= args.len(),
        0 <= k,
    ensures
        i == args.len() ==> options_from(args, i, o, k) == CommandModel::Serve(o),
        i < args.len() && (args[i].len() == 0 || args[i][0] != '-') ==> {
            let here = options_from(args, i, o, k);
            &&& k == 0 ==> here == options_from(
                args,
                i + 1,
                OptionsModel { folder: args[i], ..o },
                1,
            )
            &&& k > 0 && o.address is None ==> here == options_from(
                args,
                i + 1,
                OptionsModel { address: Some(args[i]), ..o },
                k + 1,
            )
            &&& k > 0 && o.address is Some ==> here == options_from(args, i + 1, o, k + 1)
        },
        i < args.len() && args[i].len() > 0 && args[i][0] == '-' && args[i] != "--name"@ && args[i]
            != "--notice"@ && args[i] != "--password"@ && args[i] != "--helpers"@ && args[i]
            != "--workers"@ && args[i] != "--port"@ && args[i] != "--address"@ ==> options_from(
            args,
            i,
            o,
            k,
        ) == CommandModel::NotAnOption(args[i]),
{
    lemma_option_names();
}

/// A command line that asks for help gets it, whatever else it says; and one that says
/// nothing hands out the folder it is in, on port 8080 of every address, over whatever
/// network there is.
pub proof fn law_help_is_given_and_nothing_is_needed(
    args: Seq<Seq<char>>,
    prog: Seq<char>,
    helpers: int,
    i: int,
)
    ensures
        0 <= i < args.len() && (args[i] == "-h"@ || args[i] == "--help"@) ==> command_of(args, helpers)
            is Help,
        prog != "-h"@ && prog != "--help"@ ==> (command_of(seq![prog], helpers) matches
            CommandModel::Serve(o) && o.folder == seq!['.'] && o.address is None && o.port == 8080
            && o.helpers == helpers && o.network is None && o.password is None && o.notice is None),
{
    reveal_strlit(".");
    assert("."@ =~= seq!['.']);
    if 0 <= i < args.len() && (args[i] == "-h"@ || args[i] == "--help"@) {
        assert(args.contains(args[i]));
    }
    let one = seq![prog];
    if prog != "-h"@ && prog != "--help"@ {
        assert(!one.contains("-h"@));
        assert(!one.contains("--help"@));
    }
}

/// An entry of a folder is a link to where it lies, under its name, with its size behind it.
pub proof fn law_an_entry_is_a_link(r: ListRow)
    ensures
        entry_text(r) == "<li>"@ + ("<a href=\"/"@ + r.way@ + "\">"@ + r.name@ + "</a>"@) + " "@ + r.size@
            + "</li>"@,
{
    assert("<li><a href=\"/"@ =~= "<li>"@ + "<a href=\"/"@ && "</a> "@ =~= "</a>"@ + " "@) by {
        reveal_strlit("<li><a href=\"/");
        reveal_strlit("<li>");
        reveal_strlit("<a href=\"/");
        reveal_strlit("</a> ");
        reveal_strlit("</a>");
        reveal_strlit(" ");
    }
    lemma_entry_joined(
        "<li>"@,
        "<a href=\"/"@,
        r.way@,
        "\">"@,
        r.name@,
        "</a>"@,
        " "@,
        r.size@,
        "</li>"@,
    );
}

proof fn lemma_entry_joined(
    a: Seq<char>,
    b: Seq<char>,
    w: Seq<char>,
    c: Seq<char>,
    n: Seq<char>,
    d: Seq<char>,
    e: Seq<char>,
    s: Seq<char>,
    z: Seq<char>,
)
    ensures
        (a + b) + w + c + n + (d + e) + s + z == a + (b + w + c + n + d) + e + s + z,
{
    assert((a + b) + w =~= a + (b + w));
    assert(a + (b + w) + c =~= a + (b + w + c));
    assert(a + (b + w + c) + n =~= a + (b + w + c + n));
    let f = b + w + c + n;
    assert(a + f + (d + e) =~= a + (f + d) + e);
}

} // verus!
