//! Names that came off the network, made safe to show and to store.

use crate::number::{decimal, push_decimal};
use crate::text::{
    chars_of, cut_last, lemma_trimmed_within, push_chars, rsplit_once, string_of, strip, stripped,
    stripped_end, stripped_start, text_view, trim, trimmed,
};
use vstd::prelude::*;
use vstd::slice::slice_subrange;

verus! {

/// What `char::is_alphanumeric` says of a character.
pub uninterp spec fn alphanumeric(c: char) -> bool;

/// `char::is_alphanumeric`: alphabetic or numeric in Unicode's sense. Among the
/// ASCII characters these are the letters and the digits; of the others nothing
/// more is claimed than that the answer depends on the character alone.
#[verifier::external_body]
fn is_alphanumeric(c: char) -> (b: bool)
    ensures
        b == alphanumeric(c),
        (c as u32) < 128 ==> b == ('a' <= c <= 'z' || 'A' <= c <= 'Z' || '0' <= c <= '9'),
{
    c.is_alphanumeric()
}

/// Whether a character may stand in a name that is shown, given whether it is
/// alphanumeric.
pub open spec fn shown_char(c: char, alnum: bool) -> bool {
    alnum || c == ' ' || c == '-' || c == '_' || c == '.' || c == '\''
}

/// Whether a character may stand in a name that is shown, given whether it is
/// alphanumeric.
pub fn keep_in_name(c: char, alnum: bool) -> (b: bool)
    ensures
        b == shown_char(c, alnum),
{
    alnum || c == ' ' || c == '-' || c == '_' || c == '.' || c == '\''
}

/// The longest name that is shown.
pub const NAME_CAP: usize = 24;

/// The first `NAME_CAP` characters of a text that may be shown.
pub open spec fn shown_chars(s: Seq<char>) -> Seq<char>
    decreases s.len(),
{
    if s.len() == 0 {
        s
    } else {
        let head = shown_chars(s.drop_last());
        if head.len() < NAME_CAP && shown_char(s.last(), alphanumeric(s.last())) {
            head.push(s.last())
        } else {
            head
        }
    }
}

/// The name that is shown for what somebody typed, if anything is left of it.
pub open spec fn display_name(raw: Seq<char>) -> Option<Seq<char>> {
    let name = trimmed(shown_chars(raw));
    if name.len() == 0 {
        None
    } else {
        Some(name)
    }
}

/// Whether a character is a letter or a digit of ASCII.
pub open spec fn letter_or_digit(c: char) -> bool {
    'a' <= c <= 'z' || 'A' <= c <= 'Z' || '0' <= c <= '9'
}

/// Whether the ASCII characters of a text are alphanumeric exactly where they are
/// letters or digits.
pub open spec fn plain_known(s: Seq<char>) -> bool {
    forall|i: int|
        0 <= i < s.len() && (#[trigger] s[i] as u32) < 128 ==> alphanumeric(s[i])
            == letter_or_digit(s[i])
}

/// Whether a character has a meaning in HTML.
pub open spec fn is_markup(c: char) -> bool {
    c == '<' || c == '>' || c == '"' || c == '&'
}

/// A name a teacher reads off a screen: letters, digits, spaces and a few
/// joiners, capped short. Somebody typing markup gets a name, not an element.
pub fn sanitize_display_name(raw: &str) -> (name: Option<String>)
    ensures
        text_view(name) == display_name(raw@),
        name matches Some(n) ==> 0 < n@.len() <= NAME_CAP && forall|i: int|
            0 <= i < n@.len() ==> !is_markup(#[trigger] n@[i]),
        plain_known(raw@),
{
    let chars: Vec<char> = chars_of(raw);
    let mut out: Vec<char> = Vec::new();
    let mut i: usize = 0;
    assert(raw@.take(0) =~= Seq::<char>::empty());
    while i < chars.len()
        invariant
            chars@ == raw@,
            i <= chars.len(),
            out@ == shown_chars(raw@.take(i as int)),
            out.len() <= NAME_CAP,
            forall|k: int| 0 <= k < out.len() ==> !is_markup(#[trigger] out@[k]),
            forall|k: int|
                0 <= k < i && (#[trigger] raw@[k] as u32) < 128 ==> alphanumeric(raw@[k])
                    == letter_or_digit(raw@[k]),
        decreases chars.len() - i,
    {
        let c: char = chars[i];
        assert(raw@.take(i + 1).drop_last() =~= raw@.take(i as int));
        let alnum: bool = is_alphanumeric(c);
        if out.len() < NAME_CAP && keep_in_name(c, alnum) {
            out.push(c);
        }
        i = i + 1;
    }
    assert(raw@.take(raw@.len() as int) =~= raw@);
    let name: &[char] = trim(out.as_slice());
    proof {
        lemma_trimmed_within(out@);
        assert forall|i: int| 0 <= i < name@.len() implies !is_markup(#[trigger] name@[i]) by {
            assert(out@.contains(trimmed(out@)[i]));
        }
    }
    if name.len() == 0 {
        None
    } else {
        Some(string_of(name))
    }
}

// ------------------------------------------------------------- lengths in bytes

/// How many bytes a character takes in UTF-8.
pub open spec fn char_bytes(c: char) -> int {
    let v = c as u32;
    if v < 0x80 {
        1
    } else if v < 0x800 {
        2
    } else if v < 0x10000 {
        3
    } else {
        4
    }
}

/// How many bytes a text takes in UTF-8.
pub open spec fn byte_len(s: Seq<char>) -> int
    decreases s.len(),
{
    if s.len() == 0 {
        0
    } else {
        byte_len(s.drop_last()) + char_bytes(s.last())
    }
}

/// The longest start of a text that takes at most `max` bytes.
pub open spec fn fitting(s: Seq<char>, max: int) -> Seq<char>
    decreases s.len(),
{
    if s.len() == 0 || byte_len(s) <= max {
        s
    } else {
        fitting(s.drop_last(), max)
    }
}

proof fn lemma_byte_len_grows(s: Seq<char>, k: int)
    requires
        0 <= k <= s.len(),
    ensures
        byte_len(s.take(k)) <= byte_len(s),
        byte_len(s) >= s.len(),
    decreases s.len(),
{
    if s.len() > 0 {
        if k < s.len() {
            lemma_byte_len_grows(s.drop_last(), k);
            assert(s.drop_last().take(k) =~= s.take(k));
        } else {
            assert(s.take(k) =~= s);
            lemma_byte_len_grows(s.drop_last(), 0);
        }
    } else {
        assert(s.take(k) =~= s);
    }
}

proof fn lemma_fitting_is(s: Seq<char>, max: int, k: int)
    requires
        0 <= k < s.len(),
        byte_len(s.take(k)) <= max,
        byte_len(s.take(k + 1)) > max,
    ensures
        fitting(s, max) == s.take(k),
    decreases s.len(),
{
    lemma_byte_len_grows(s, k + 1);
    if k + 1 == s.len() {
        assert(s.take(k + 1) =~= s);
        assert(s.drop_last() =~= s.take(k));
        assert(fitting(s.take(k), max) == s.take(k));
    } else {
        assert(s.drop_last().take(k) =~= s.take(k));
        assert(s.drop_last().take(k + 1) =~= s.take(k + 1));
        lemma_fitting_is(s.drop_last(), max, k);
    }
}

fn width_in_bytes(c: char) -> (n: usize)
    ensures
        n == char_bytes(c),
        1 <= n <= 4,
{
    let v: u32 = c as u32;
    if v < 0x80 {
        1
    } else if v < 0x800 {
        2
    } else if v < 0x10000 {
        3
    } else {
        4
    }
}

/// Cut a text to at most `max` bytes, never inside a character.
pub fn truncate_chars(s: &str, max: usize) -> (out: String)
    ensures
        out@ == fitting(s@, max as int),
{
    let chars: Vec<char> = chars_of(s);
    string_of(fit(chars.as_slice(), max))
}

fn fit<'a>(chars: &'a [char], max: usize) -> (out: &'a [char])
    ensures
        out@ == fitting(chars@, max as int),
{
    let mut used: usize = 0;
    let mut i: usize = 0;
    assert(chars@.take(0) =~= Seq::<char>::empty());
    while i < chars.len()
        invariant
            i <= chars.len(),
            used == byte_len(chars@.take(i as int)),
            used <= max,
        decreases chars.len() - i,
    {
        let w: usize = width_in_bytes(chars[i]);
        assert(chars@.take(i + 1).drop_last() =~= chars@.take(i as int));
        if w > max - used {
            proof {
                lemma_fitting_is(chars@, max as int, i as int);
            }
            let out = slice_subrange(chars, 0, i);
            assert(out@ =~= chars@.take(i as int));
            return out;
        }
        used = used + w;
        i = i + 1;
    }
    assert(chars@.take(i as int) =~= chars@);
    chars
}

// ------------------------------------------------------------- file names

/// What follows the last slash or backslash.
pub open spec fn base_name(s: Seq<char>) -> Seq<char>
    decreases s.len(),
{
    if s.len() == 0 || s.last() == '/' || s.last() == '\\' {
        Seq::empty()
    } else {
        base_name(s.drop_last()).push(s.last())
    }
}

/// A character of a file name, if it is harmless, and an underscore if it is not.
pub open spec fn safe_char(c: char) -> char {
    if 'a' <= c <= 'z' || 'A' <= c <= 'Z' || '0' <= c <= '9' || c == '.' || c == '-' || c == '_'
        || c == ' ' {
        c
    } else {
        '_'
    }
}

/// A text with every character made harmless.
pub open spec fn safe_chars(s: Seq<char>) -> Seq<char> {
    Seq::new(s.len(), |i: int| safe_char(s[i]))
}

/// The longest file name that is kept, in bytes.
pub const FILE_NAME_CAP: usize = 120;

/// The file name under which something sent in is kept.
pub open spec fn safe_name(name: Seq<char>) -> Seq<char> {
    let out = stripped(safe_chars(base_name(name)), seq![' ', '.']);
    if out.len() == 0 {
        "unnamed"@
    } else {
        fitting(out, FILE_NAME_CAP as int)
    }
}

fn after_last_separator<'a>(s: &'a [char]) -> (r: &'a [char])
    ensures
        r@ == base_name(s@),
{
    let mut i: usize = s.len();
    assert(s@.take(s@.len() as int) =~= s@);
    assert(s@.skip(s@.len() as int) =~= Seq::<char>::empty());
    assert(base_name(s@) =~= base_name(s@.take(i as int)) + s@.skip(i as int));
    while i > 0 && s[i - 1] != '/' && s[i - 1] != '\\'
        invariant
            i <= s.len(),
            base_name(s@) == base_name(s@.take(i as int)) + s@.skip(i as int),
        decreases i,
    {
        proof {
            assert(s@.take(i as int).drop_last() =~= s@.take(i - 1));
            assert(base_name(s@.take(i as int)) =~= base_name(s@.take(i - 1)).push(s@[i - 1]));
            assert(base_name(s@) =~= base_name(s@.take(i - 1)) + s@.skip(i - 1));
        }
        i = i - 1;
    }
    let r = slice_subrange(s, i, s.len());
    proof {
        assert(base_name(s@.take(i as int)) =~= Seq::<char>::empty());
        assert(r@ =~= base_name(s@));
    }
    r
}

/// Strip a file name to something safe: no paths, no traversal, no leading dots.
pub fn sanitize_filename(name: &str) -> (out: String)
    ensures
        out@ == safe_name(name@),
{
    let chars: Vec<char> = chars_of(name);
    let base: &[char] = after_last_separator(chars.as_slice());
    let mut safe: Vec<char> = Vec::new();
    let mut i: usize = 0;
    while i < base.len()
        invariant
            i <= base.len(),
            safe@ == safe_chars(base@).take(i as int),
        decreases base.len() - i,
    {
        let c: char = base[i];
        let harmless: bool = (c >= 'a' && c <= 'z') || (c >= 'A' && c <= 'Z') || (c >= '0' && c
            <= '9') || c == '.' || c == '-' || c == '_' || c == ' ';
        safe.push(if harmless { c } else { '_' });
        i = i + 1;
        assert(safe@ =~= safe_chars(base@).take(i as int));
    }
    assert(safe@ =~= safe_chars(base@));
    let ends: [char; 2] = [' ', '.'];
    assert(ends@ =~= seq![' ', '.']);
    let out: &[char] = strip(safe.as_slice(), ends.as_slice());
    if out.len() == 0 {
        let mut s = String::new();
        s.append("unnamed");
        assert(s@ =~= "unnamed"@);
        s
    } else {
        string_of(fit(out, FILE_NAME_CAP))
    }
}

proof fn lemma_stripped_start(s: Seq<char>, set: Seq<char>)
    ensures
        stripped_start(s, set).len() > 0 ==> !set.contains(stripped_start(s, set)[0]),
        forall|i: int|
            0 <= i < stripped_start(s, set).len() ==> s.contains(
                #[trigger] stripped_start(s, set)[i],
            ),
    decreases s.len(),
{
    if s.len() > 0 && set.contains(s[0]) {
        lemma_stripped_start(s.skip(1), set);
        assert forall|i: int| 0 <= i < stripped_start(s, set).len() implies s.contains(
            #[trigger] stripped_start(s, set)[i],
        ) by {
            let c = stripped_start(s, set)[i];
            assert(s.skip(1).contains(c));
            let j = choose|j: int| 0 <= j < s.skip(1).len() && s.skip(1)[j] == c;
            assert(s[j + 1] == c);
        }
    }
}

proof fn lemma_stripped_end(s: Seq<char>, set: Seq<char>)
    ensures
        stripped_end(s, set).len() <= s.len(),
        forall|i: int|
            0 <= i < stripped_end(s, set).len() ==> #[trigger] stripped_end(s, set)[i] == s[i],
    decreases s.len(),
{
    if s.len() > 0 && set.contains(s.last()) {
        lemma_stripped_end(s.drop_last(), set);
    }
}

proof fn lemma_fitting_prefix(s: Seq<char>, max: int)
    requires
        max >= 4,
    ensures
        fitting(s, max).len() <= s.len(),
        s.len() > 0 ==> fitting(s, max).len() > 0,
        fitting(s, max).len() <= max,
        forall|i: int|
            0 <= i < fitting(s, max).len() ==> #[trigger] fitting(s, max)[i] == s[i],
    decreases s.len(),
{
    if s.len() > 0 && byte_len(s) > max {
        if s.len() == 1 {
            assert(s.drop_last() =~= Seq::<char>::empty());
            assert(byte_len(s.drop_last()) == 0);
        }
        lemma_fitting_prefix(s.drop_last(), max);
    } else {
        lemma_no_shorter_in_bytes(s);
    }
}

proof fn lemma_no_shorter_in_bytes(s: Seq<char>)
    ensures
        s.len() <= byte_len(s),
    decreases s.len(),
{
    if s.len() > 0 {
        lemma_no_shorter_in_bytes(s.drop_last());
    }
}

/// A file name that came off the network cannot leave the folder it is put in:
/// it is not empty, holds no slash or backslash, begins with neither a dot nor a
/// space, and is no longer than a name may be.
pub proof fn law_safe_name_stays_in_its_folder(name: Seq<char>)
    ensures
        safe_name(name).len() > 0,
        safe_name(name).len() <= FILE_NAME_CAP,
        safe_name(name)[0] != '.',
        safe_name(name)[0] != ' ',
        forall|i: int|
            0 <= i < safe_name(name).len() ==> #[trigger] safe_name(name)[i] != '/'
                && safe_name(name)[i] != '\\',
{
    let set = seq![' ', '.'];
    let safe = safe_chars(base_name(name));
    let start = stripped_start(safe, set);
    let out = stripped(safe, set);
    if out.len() == 0 {
        reveal_strlit("unnamed");
    } else {
        lemma_stripped_start(safe, set);
        lemma_stripped_end(start, set);
        lemma_fitting_prefix(out, FILE_NAME_CAP as int);
        assert(set[1] == '.');
        assert(set.contains('.'));
        assert(set[0] == ' ');
        assert(set.contains(' '));
        assert forall|i: int| 0 <= i < safe_name(name).len() implies #[trigger] safe_name(name)[i]
            != '/' && safe_name(name)[i] != '\\' by {
            assert(safe_name(name)[i] == out[i]);
            assert(out[i] == start[i]);
            assert(safe.contains(start[i]));
            let j = choose|j: int| 0 <= j < safe.len() && safe[j] == start[i];
            assert(safe[j] == safe_char(base_name(name)[j]));
        }
    }
}

// ------------------------------------------------------------- versions

/// "name.ext" becomes "name--v2.ext"; without an extension the version is last.
pub open spec fn versioned_name(base: Seq<char>, version: int) -> Seq<char> {
    match cut_last(base, '.') {
        Some((stem, ext)) => stem + "--v"@ + decimal(version) + seq!['.'] + ext,
        None => base + "--v"@ + decimal(version),
    }
}

/// The name of a later version of a file.
pub fn versioned(base: &str, version: u32) -> (out: String)
    ensures
        out@ == versioned_name(base@, version as int),
{
    let chars: Vec<char> = chars_of(base);
    let mut out = String::new();
    match rsplit_once(chars.as_slice(), '.') {
        Some((stem, ext)) => {
            push_chars(&mut out, stem);
            out.append("--v");
            push_decimal(&mut out, version as u64);
            out.push('.');
            push_chars(&mut out, ext);
            assert(out@ =~= versioned_name(base@, version as int));
        },
        None => {
            out.append(base);
            out.append("--v");
            push_decimal(&mut out, version as u64);
            assert(out@ =~= versioned_name(base@, version as int));
        },
    }
    out
}

/// The ending of an ordinal number above one.
pub open spec fn ordinal_ending(n: int) -> Seq<char> {
    if n % 10 == 2 && n % 100 != 12 {
        "nd"@
    } else if n % 10 == 3 && n % 100 != 13 {
        "rd"@
    } else {
        "th"@
    }
}

/// The ending of an ordinal number above one.
pub fn ordinal(n: u32) -> (s: &'static str)
    ensures
        s@ == ordinal_ending(n as int),
{
    if n % 10 == 2 && n % 100 != 12 {
        "nd"
    } else if n % 10 == 3 && n % 100 != 13 {
        "rd"
    } else {
        "th"
    }
}

// ------------------------------------------------------------- laws

proof fn lemma_byte_len_front(c: char, s: Seq<char>)
    ensures
        byte_len(seq![c] + s) == char_bytes(c) + byte_len(s),
    decreases s.len(),
{
    let all = seq![c] + s;
    if s.len() == 0 {
        assert(all.drop_last() =~= s);
    } else {
        lemma_byte_len_front(c, s.drop_last());
        assert(all.drop_last() =~= seq![c] + s.drop_last());
    }
}

proof fn lemma_char_bytes(c: char)
    ensures
        vstd::utf8::encode_scalar(c as u32).len() == char_bytes(c),
{
}

/// The bytes that a text takes are those of its encoding.
pub proof fn law_bytes_are_those_of_the_encoding(s: Seq<char>)
    ensures
        byte_len(s) == vstd::utf8::encode_utf8(s).len(),
    decreases s.len(),
{
    if s.len() > 0 {
        law_bytes_are_those_of_the_encoding(s.drop_first());
        lemma_byte_len_front(s[0], s.drop_first());
        assert(s =~= seq![s[0]] + s.drop_first());
        lemma_char_bytes(s[0]);
        assert(vstd::utf8::encode_utf8(s) == vstd::utf8::encode_scalar(s[0] as u32)
            + vstd::utf8::encode_utf8(s.drop_first()));
    }
}

/// A text is cut to the most of its start that fits: what fits stays as it is, and of
/// what does not, one character more would be too much.
pub proof fn law_as_much_stays_as_fits(s: Seq<char>, max: int)
    requires
        0 <= max,
    ensures
        ({
            let t = fitting(s, max);
            let size = |u: Seq<char>| vstd::utf8::encode_utf8(u).len();
            &&& t.len() <= s.len() && t == s.take(t.len() as int)
            &&& size(t) <= max
            &&& size(s) <= max ==> t == s
            &&& t.len() < s.len() ==> size(s.take(t.len() as int + 1)) > max
        }),
    decreases s.len(),
{
    law_bytes_are_those_of_the_encoding(s);
    if s.len() > 0 && byte_len(s) > max {
        let d = s.drop_last();
        law_as_much_stays_as_fits(d, max);
        let t = fitting(s, max);
        assert(d.take(t.len() as int) =~= s.take(t.len() as int));
        if t.len() < d.len() {
            assert(d.take(t.len() as int + 1) =~= s.take(t.len() as int + 1));
        } else {
            assert(s.take(t.len() as int + 1) =~= s);
        }
    } else {
        assert(s.take(s.len() as int) =~= s);
    }
}

/// Whether a character stays in a name that is shown.
spec fn stays(c: char) -> bool {
    alphanumeric(c) || c == ' ' || c == '-' || c == '_' || c == '.' || c == '\''
}

proof fn lemma_shown_all(s: Seq<char>)
    requires
        s.len() <= 24,
        forall|i: int| 0 <= i < s.len() ==> stays(#[trigger] s[i]),
    ensures
        shown_chars(s) == s,
    decreases s.len(),
{
    if s.len() > 0 {
        lemma_shown_all(s.drop_last());
        assert(stays(s[s.len() - 1]));
        assert(s =~= s.drop_last().push(s.last()));
    }
}

proof fn lemma_shown_without(a: Seq<char>, c: char, b: Seq<char>)
    requires
        !stays(c),
    ensures
        shown_chars(a + seq![c] + b) == shown_chars(a + b),
    decreases b.len(),
{
    let s = a + seq![c] + b;
    if b.len() == 0 {
        assert(s.drop_last() =~= a);
        assert(a + b =~= a);
    } else {
        lemma_shown_without(a, c, b.drop_last());
        assert(s.drop_last() =~= a + seq![c] + b.drop_last());
        assert((a + b).drop_last() =~= a + b.drop_last());
    }
}

proof fn lemma_shown_full(a: Seq<char>, b: Seq<char>)
    requires
        a.len() == 24,
        forall|i: int| 0 <= i < a.len() ==> stays(#[trigger] a[i]),
    ensures
        shown_chars(a + b) == a,
    decreases b.len(),
{
    if b.len() == 0 {
        assert(a + b =~= a);
        lemma_shown_all(a);
    } else {
        lemma_shown_full(a, b.drop_last());
        assert((a + b).drop_last() =~= a + b.drop_last());
    }
}

/// A name of letters, digits, spaces and joiners that is short enough is shown as it was
/// typed.
pub proof fn law_an_ordinary_name_is_shown_as_it_is(raw: Seq<char>)
    requires
        0 < raw.len() <= 24,
        forall|i: int|
            0 <= i < raw.len() ==> alphanumeric(#[trigger] raw[i]) || raw[i] == ' ' || raw[i] == '-'
                || raw[i] == '_' || raw[i] == '.' || raw[i] == '\'',
        !crate::text::is_space(raw[0]),
        !crate::text::is_space(raw.last()),
    ensures
        display_name(raw) == Some(raw),
{
    assert forall|i: int| 0 <= i < raw.len() implies stays(#[trigger] raw[i]) by {}
    lemma_shown_all(raw);
    crate::text::lemma_nothing_to_trim(raw);
}

/// A character that is none of these makes no difference to the name, wherever it stands.
pub proof fn law_other_characters_leave_no_trace(a: Seq<char>, c: char, b: Seq<char>)
    requires
        !alphanumeric(c),
        c != ' ' && c != '-' && c != '_' && c != '.' && c != '\'',
    ensures
        display_name(a + seq![c] + b) == display_name(a + b),
{
    lemma_shown_without(a, c, b);
}

/// What follows the twenty-fourth character makes no difference either.
pub proof fn law_a_long_name_is_cut_short(a: Seq<char>, b: Seq<char>)
    requires
        a.len() == 24,
        forall|i: int|
            0 <= i < a.len() ==> alphanumeric(#[trigger] a[i]) || a[i] == ' ' || a[i] == '-' || a[i]
                == '_' || a[i] == '.' || a[i] == '\'',
    ensures
        display_name(a + b) == display_name(a),
{
    assert forall|i: int| 0 <= i < a.len() implies stays(#[trigger] a[i]) by {}
    lemma_shown_full(a, b);
    lemma_shown_all(a);
}

proof fn lemma_base_name_behind(folder: Seq<char>, sep: char, name: Seq<char>)
    requires
        sep == '/' || sep == '\\',
        forall|i: int| 0 <= i < name.len() ==> #[trigger] name[i] != '/' && name[i] != '\\',
    ensures
        base_name(folder + seq![sep] + name) == name,
    decreases name.len(),
{
    let s = folder + seq![sep] + name;
    if name.len() == 0 {
        assert(s.last() == sep);
    } else {
        lemma_base_name_behind(folder, sep, name.drop_last());
        assert(name[name.len() - 1] == s.last());
        assert(s.drop_last() =~= folder + seq![sep] + name.drop_last());
        assert(name =~= name.drop_last().push(name.last()));
    }
}

proof fn lemma_base_name_alone(name: Seq<char>)
    requires
        forall|i: int| 0 <= i < name.len() ==> #[trigger] name[i] != '/' && name[i] != '\\',
    ensures
        base_name(name) == name,
    decreases name.len(),
{
    if name.len() > 0 {
        lemma_base_name_alone(name.drop_last());
        assert(name[name.len() - 1] == name.last());
        assert(name =~= name.drop_last().push(name.last()));
    }
}

/// Whether a character stays as it is in the name of a file.
spec fn plain_in_file_name(c: char) -> bool {
    letter_or_digit(c) || c == '.' || c == '-' || c == '_' || c == ' '
}

proof fn lemma_ascii_len(s: Seq<char>)
    requires
        forall|i: int| 0 <= i < s.len() ==> (#[trigger] s[i] as u32) < 128,
    ensures
        byte_len(s) == s.len(),
    decreases s.len(),
{
    if s.len() > 0 {
        lemma_ascii_len(s.drop_last());
        assert((s[s.len() - 1] as u32) < 128);
    }
}

/// What somebody calls their work stays its name: whatever folders stand in front are
/// dropped, each letter, digit, dot, hyphen, underscore and space stays where it is, and
/// each other character becomes one underscore.
pub proof fn law_a_file_keeps_its_name(folder: Seq<char>, sep: char, name: Seq<char>)
    requires
        sep == '/' || sep == '\\',
        0 < name.len() <= 120,
        forall|i: int| 0 <= i < name.len() ==> #[trigger] name[i] != '/' && name[i] != '\\',
        name[0] != '.' && name[0] != ' ',
        name.last() != '.' && name.last() != ' ',
    ensures
        safe_name(folder + seq![sep] + name) == safe_name(name),
        safe_name(name).len() == name.len(),
        forall|i: int|
            0 <= i < name.len() ==> #[trigger] safe_name(name)[i] == (if 'a' <= name[i] <= 'z' || 'A'
                <= name[i] <= 'Z' || '0' <= name[i] <= '9' || name[i] == '.' || name[i] == '-'
                || name[i] == '_' || name[i] == ' ' {
                name[i]
            } else {
                '_'
            }),
{
    lemma_base_name_behind(folder, sep, name);
    lemma_base_name_alone(name);
    let safe = safe_chars(name);
    let set = seq![' ', '.'];
    assert(safe[0] != '.' && safe[0] != ' ');
    assert(safe.last() != '.' && safe.last() != ' ');
    assert(!set.contains(safe[0]));
    assert(!set.contains(safe.last()));
    assert(stripped(safe, set) == safe);
    assert forall|i: int| 0 <= i < safe.len() implies (#[trigger] safe[i] as u32) < 128 by {
        assert(plain_in_file_name(safe[i]));
    }
    lemma_ascii_len(safe);
}

/// Dots and spaces at the ends of a name go, and a name of nothing else is "unnamed".
pub proof fn law_dots_at_the_ends_go(a: Seq<char>, name: Seq<char>, b: Seq<char>)
    requires
        forall|i: int| 0 <= i < a.len() ==> #[trigger] a[i] == '.' || a[i] == ' ',
        forall|i: int| 0 <= i < b.len() ==> #[trigger] b[i] == '.' || b[i] == ' ',
        forall|i: int| 0 <= i < name.len() ==> #[trigger] name[i] != '/' && name[i] != '\\',
        name.len() > 0 ==> name[0] != '.' && name[0] != ' ' && name.last() != '.' && name.last()
            != ' ',
    ensures
        name.len() > 0 ==> safe_name(a + name + b) == safe_name(name),
        name.len() == 0 ==> safe_name(a + name + b) == "unnamed"@,
{
    let s = a + name + b;
    let set = seq![' ', '.'];
    assert(set[0] == ' ' && set[1] == '.');
    assert forall|i: int| 0 <= i < s.len() implies #[trigger] s[i] != '/' && s[i] != '\\' by {
        if i < a.len() {
            assert(s[i] == a[i]);
        } else if i < a.len() + name.len() {
            assert(s[i] == name[i - a.len()]);
        } else {
            assert(s[i] == b[i - a.len() - name.len()]);
        }
    }
    lemma_base_name_alone(s);
    lemma_base_name_alone(name);
    let m = safe_chars(name);
    assert(safe_chars(s) =~= safe_chars(a) + m + safe_chars(b));
    assert forall|i: int| 0 <= i < a.len() implies set.contains(#[trigger] safe_chars(a)[i]) by {
        assert(a[i] == '.' || a[i] == ' ');
    }
    assert forall|i: int| 0 <= i < b.len() implies set.contains(#[trigger] safe_chars(b)[i]) by {
        assert(b[i] == '.' || b[i] == ' ');
    }
    if name.len() > 0 {
        assert(m[0] != '.' && m[0] != ' ');
        assert(m.last() != '.' && m.last() != ' ');
        assert(!set.contains(m[0]));
        assert(!set.contains(m.last()));
        assert(safe_chars(s) =~= safe_chars(a) + (m + safe_chars(b)));
        lemma_stripped_front(safe_chars(a), m + safe_chars(b), set);
        lemma_stripped_back(m, safe_chars(b), set);
        lemma_stripped_front(Seq::empty(), m, set);
        assert(Seq::<char>::empty() + m =~= m);
        lemma_stripped_back(m, Seq::empty(), set);
        assert(m + Seq::<char>::empty() =~= m);
    } else {
        let all = safe_chars(a) + safe_chars(b);
        assert(safe_chars(s) =~= all);
        assert forall|i: int| 0 <= i < all.len() implies set.contains(#[trigger] all[i]) by {
            if i < a.len() {
                assert(all[i] == safe_chars(a)[i]);
            } else {
                assert(all[i] == safe_chars(b)[i - a.len()]);
            }
        }
        lemma_stripped_front(all, Seq::empty(), set);
        assert(all + Seq::<char>::empty() =~= all);
    }
}

proof fn lemma_stripped_front(a: Seq<char>, s: Seq<char>, set: Seq<char>)
    requires
        forall|i: int| 0 <= i < a.len() ==> set.contains(#[trigger] a[i]),
        s.len() > 0 ==> !set.contains(s[0]),
    ensures
        stripped_start(a + s, set) == s,
    decreases a.len(),
{
    if a.len() > 0 {
        assert(set.contains(a[0]));
        assert((a + s).skip(1) =~= a.skip(1) + s);
        assert forall|i: int| 0 <= i < a.skip(1).len() implies set.contains(
            #[trigger] a.skip(1)[i],
        ) by {
            assert(a.skip(1)[i] == a[i + 1]);
        }
        lemma_stripped_front(a.skip(1), s, set);
    } else {
        assert(a + s =~= s);
    }
}

proof fn lemma_stripped_back(s: Seq<char>, b: Seq<char>, set: Seq<char>)
    requires
        forall|i: int| 0 <= i < b.len() ==> set.contains(#[trigger] b[i]),
        s.len() > 0 ==> !set.contains(s.last()),
    ensures
        stripped_end(s + b, set) == s,
    decreases b.len(),
{
    if b.len() > 0 {
        assert(set.contains(b[b.len() - 1]));
        assert((s + b).drop_last() =~= s + b.drop_last());
        lemma_stripped_back(s, b.drop_last(), set);
    } else {
        assert(s + b =~= s);
    }
}

/// A later version keeps the ending of the file, which is what follows the last dot, and
/// two versions of one file have two names.
pub proof fn law_a_version_keeps_the_ending(stem: Seq<char>, ext: Seq<char>, n: int, m: int)
    requires
        forall|i: int| 0 <= i < ext.len() ==> #[trigger] ext[i] != '.',
        0 <= n,
        0 <= m,
    ensures
        versioned_name(stem + seq!['.'] + ext, n) == stem + seq!['-', '-', 'v'] + decimal(n) + seq![
            '.',
        ] + ext,
        versioned_name(ext, n) == ext + seq!['-', '-', 'v'] + decimal(n),
        n != m ==> versioned_name(stem + seq!['.'] + ext, n) != versioned_name(
            stem + seq!['.'] + ext,
            m,
        ),
{
    reveal_strlit("--v");
    assert("--v"@ =~= seq!['-', '-', 'v']);
    assert(!ext.contains('.'));
    crate::text::law_a_text_is_cut_where_it_should(stem, '.', ext);
    crate::text::law_a_text_is_cut_where_it_should(ext, '.', ext);
    if n != m {
        let a = stem + "--v"@ + decimal(n) + seq!['.'] + ext;
        let b = stem + "--v"@ + decimal(m) + seq!['.'] + ext;
        if a == b {
            let k = (stem + "--v"@).len() as int;
            let e = ext.len() as int;
            assert(a.subrange(k, a.len() - e - 1) =~= decimal(n));
            assert(b.subrange(k, b.len() - e - 1) =~= decimal(m));
            let top = if n > m {
                n
            } else {
                m
            };
            crate::number::law_decimal_reads_back(n, top);
            crate::number::law_decimal_reads_back(m, top);
        }
    }
}

/// The ending of an ordinal goes by its last two digits: the second and the third of each
/// ten have endings of their own, but for the twelfth and the thirteenth.
pub proof fn law_ordinals_end_as_they_are_said(hundreds: int, rest: int)
    requires
        0 <= hundreds,
        2 <= rest < 100,
    ensures
        ({
            let e = ordinal_ending(100 * hundreds + rest);
            let second = rest == 2 || rest == 22 || rest == 32 || rest == 42 || rest == 52 || rest
                == 62 || rest == 72 || rest == 82 || rest == 92;
            let third = rest == 3 || rest == 23 || rest == 33 || rest == 43 || rest == 53 || rest
                == 63 || rest == 73 || rest == 83 || rest == 93;
            &&& second ==> e == seq!['n', 'd']
            &&& third ==> e == seq!['r', 'd']
            &&& !second && !third ==> e == seq!['t', 'h']
        }),
{
    reveal_strlit("nd");
    reveal_strlit("rd");
    reveal_strlit("th");
    let n = 100 * hundreds + rest;
    assert(n % 100 == rest && n % 10 == rest % 10) by (nonlinear_arith)
        requires
            n == 100 * hundreds + rest,
            2 <= rest < 100,
    ;
    assert("nd"@ =~= seq!['n', 'd']);
    assert("rd"@ =~= seq!['r', 'd']);
    assert("th"@ =~= seq!['t', 'h']);
}

} // verus!
