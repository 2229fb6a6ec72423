//! Text as sequences of characters.

use vstd::prelude::*;
use vstd::slice::slice_subrange;

verus! {

/// `String::push` puts one character at the end.
pub assume_specification[ String::push ](s: &mut String, c: char)
    ensures
        final(s)@ == old(s)@.push(c),
;

/// The characters of a text.
pub fn chars_of(s: &str) -> (v: Vec<char>)
    ensures
        v@ == s@,
{
    let mut v: Vec<char> = Vec::new();
    for c in it: s.chars()
        invariant
            it.seq() == s@,
            v@ == s@.take(it.index() as int),
    {
        v.push(c);
        assert(v@ =~= s@.take(it.index() as int + 1));
    }
    assert(s@.take(s@.len() as int) =~= s@);
    v
}

/// The text with these characters.
pub fn string_of(v: &[char]) -> (s: String)
    ensures
        s@ == v@,
{
    let mut s = String::new();
    push_chars(&mut s, v);
    assert(s@ =~= v@);
    s
}

/// A text of its own with the same characters.
pub fn text_of(t: &str) -> (s: String)
    ensures
        s@ == t@,
{
    let mut s = String::new();
    s.append(t);
    assert(s@ =~= t@);
    s
}

/// Append characters to a text.
pub fn push_chars(s: &mut String, v: &[char])
    ensures
        final(s)@ == old(s)@ + v@,
{
    let ghost start = s@;
    let mut i: usize = 0;
    assert(start + v@.take(0) =~= start);
    while i < v.len()
        invariant
            i <= v.len(),
            s@ == start + v@.take(i as int),
        decreases v.len() - i,
    {
        s.push(v[i]);
        i = i + 1;
        assert(s@ =~= start + v@.take(i as int));
    }
    assert(v@.take(v@.len() as int) =~= v@);
}

// ------------------------------------------------------------- comparing

/// Whether two runs of characters are the same.
pub fn same(a: &[char], b: &[char]) -> (r: bool)
    ensures
        r == (a@ == b@),
{
    if a.len() != b.len() {
        return false;
    }
    let mut i: usize = 0;
    while i < a.len()
        invariant
            i <= a.len(),
            a.len() == b.len(),
            forall|k: int| 0 <= k < i ==> a@[k] == b@[k],
        decreases a.len() - i,
    {
        if a[i] != b[i] {
            assert(a@[i as int] != b@[i as int]);
            return false;
        }
        i = i + 1;
    }
    assert(a@ =~= b@);
    true
}

/// Whether a run of characters is this text.
pub fn is_text(a: &[char], t: &str) -> (r: bool)
    ensures
        r == (a@ == t@),
{
    let b: Vec<char> = chars_of(t);
    same(a, b.as_slice())
}

/// Whether two texts are the same.
pub fn same_text(a: &str, b: &str) -> (r: bool)
    ensures
        r == (a@ == b@),
{
    let x: Vec<char> = chars_of(a);
    is_text(x.as_slice(), b)
}

/// A letter of the Latin alphabet in lower case, anything else as it is.
pub open spec fn lower(c: char) -> char {
    if 'A' <= c <= 'Z' {
        ((c as u32 + 32) as u32) as char
    } else {
        c
    }
}

/// A text with its Latin letters in lower case.
pub open spec fn lower_all(s: Seq<char>) -> Seq<char> {
    Seq::new(s.len(), |i: int| lower(s[i]))
}

/// A letter of the Latin alphabet in lower case, anything else as it is.
pub fn to_lower(c: char) -> (r: char)
    ensures
        r == lower(c),
{
    if c >= 'A' && c <= 'Z' {
        ((c as u8) + 32) as char
    } else {
        c
    }
}

/// A text with its Latin letters in lower case.
pub fn lowered(s: &[char]) -> (r: Vec<char>)
    ensures
        r@ == lower_all(s@),
{
    let mut r: Vec<char> = Vec::new();
    let mut i: usize = 0;
    while i < s.len()
        invariant
            i <= s.len(),
            r@ == lower_all(s@).take(i as int),
        decreases s.len() - i,
    {
        r.push(to_lower(s[i]));
        i = i + 1;
        assert(r@ =~= lower_all(s@).take(i as int));
    }
    assert(r@ =~= lower_all(s@));
    r
}

/// Whether two runs of characters are the same but for the case of Latin letters.
pub fn same_ignoring_case(a: &[char], b: &[char]) -> (r: bool)
    ensures
        r == (lower_all(a@) == lower_all(b@)),
{
    let x: Vec<char> = lowered(a);
    let y: Vec<char> = lowered(b);
    same(x.as_slice(), y.as_slice())
}

// ------------------------------------------------------------- searching

/// Whether `p` stands in `s` at `i`.
pub open spec fn occurs_at<A>(s: Seq<A>, p: Seq<A>, i: int) -> bool {
    0 <= i && i + p.len() <= s.len() && s.subrange(i, i + p.len()) == p
}

/// The first place from `i` on at which `p` stands in `s`.
pub open spec fn first_from<A>(s: Seq<A>, p: Seq<A>, i: int) -> Option<int>
    decreases s.len() + 1 - i,
{
    if i + p.len() > s.len() {
        None
    } else if occurs_at(s, p, i) {
        Some(i)
    } else {
        first_from(s, p, i + 1)
    }
}

/// The first place at which `p` stands in `s`.
pub open spec fn first_at<A>(s: Seq<A>, p: Seq<A>) -> Option<int> {
    first_from(s, p, 0)
}

/// The first place is a place, and there is none before it.
pub proof fn lemma_first_from<A>(s: Seq<A>, p: Seq<A>, i: int)
    requires
        0 <= i,
    ensures
        match first_from(s, p, i) {
            Some(k) => i <= k && occurs_at(s, p, k) && forall|j: int|
                i <= j < k ==> !#[trigger] occurs_at(s, p, j),
            None => forall|j: int| i <= j ==> !#[trigger] occurs_at(s, p, j),
        },
    decreases s.len() + 1 - i,
{
    if i + p.len() <= s.len() && !occurs_at(s, p, i) {
        lemma_first_from(s, p, i + 1);
    }
}

/// A place with none before it is the first place.
pub proof fn lemma_first_is<A>(s: Seq<A>, p: Seq<A>, i: int, k: int)
    requires
        0 <= i <= k,
        occurs_at(s, p, k),
        forall|j: int| i <= j < k ==> !#[trigger] occurs_at(s, p, j),
    ensures
        first_from(s, p, i) == Some(k),
    decreases k - i,
{
    if i < k {
        assert(!occurs_at(s, p, i));
        lemma_first_is(s, p, i + 1, k);
    }
}

/// Where nothing occurs there is no first place.
pub proof fn lemma_first_none<A>(s: Seq<A>, p: Seq<A>, i: int)
    requires
        0 <= i,
        forall|j: int| i <= j ==> !#[trigger] occurs_at(s, p, j),
    ensures
        first_from(s, p, i) is None,
{
    lemma_first_from(s, p, i);
}

/// Whether `s` begins with `p`.
pub open spec fn begins_with<A>(s: Seq<A>, p: Seq<A>) -> bool {
    occurs_at(s, p, 0)
}

/// Whether `s` ends with `p`.
pub open spec fn finishes_with<A>(s: Seq<A>, p: Seq<A>) -> bool {
    p.len() <= s.len() && occurs_at(s, p, s.len() - p.len())
}

/// Whether `p` stands somewhere in `s`.
pub open spec fn holds<A>(s: Seq<A>, p: Seq<A>) -> bool {
    first_at(s, p) is Some
}

/// Whether a run of characters begins with another.
pub fn starts_with(s: &[char], p: &[char]) -> (r: bool)
    ensures
        r == begins_with(s@, p@),
{
    p.len() <= s.len() && same(slice_subrange(s, 0, p.len()), p)
}

/// Whether a run of characters begins with this text.
pub fn starts_with_text(s: &[char], p: &str) -> (r: bool)
    ensures
        r == begins_with(s@, p@),
{
    let q: Vec<char> = chars_of(p);
    starts_with(s, q.as_slice())
}

/// Whether a run of characters ends with another.
pub fn ends_with(s: &[char], p: &[char]) -> (r: bool)
    ensures
        r == finishes_with(s@, p@),
{
    p.len() <= s.len() && same(slice_subrange(s, s.len() - p.len(), s.len()), p)
}

/// Whether a run of characters ends with this text.
pub fn ends_with_text(s: &[char], p: &str) -> (r: bool)
    ensures
        r == finishes_with(s@, p@),
{
    let q: Vec<char> = chars_of(p);
    ends_with(s, q.as_slice())
}

/// The first place from `from` on at which a run of characters stands in another.
pub fn find_from(s: &[char], p: &[char], from: usize) -> (r: Option<usize>)
    requires
        from <= s.len(),
    ensures
        r matches Some(k) ==> first_from(s@, p@, from as int) == Some(k as int) && k + p.len()
            <= s.len(),
        r is None ==> first_from(s@, p@, from as int) is None,
{
    let mut i: usize = from;
    while p.len() <= s.len() - i
        invariant
            i <= s.len(),
            first_from(s@, p@, from as int) == first_from(s@, p@, i as int),
        decreases s.len() - i,
    {
        if same(slice_subrange(s, i, i + p.len()), p) {
            return Some(i);
        }
        if i == s.len() {
            assert(s@.subrange(i as int, i + p.len()) =~= p@);
            return None;
        }
        i = i + 1;
    }
    None
}

/// The first place at which this text stands in a run of characters.
pub fn find_text(s: &[char], p: &str) -> (r: Option<usize>)
    ensures
        r matches Some(k) ==> first_at(s@, p@) == Some(k as int) && k + p@.len() <= s.len(),
        r is None ==> first_at(s@, p@) is None,
{
    let q: Vec<char> = chars_of(p);
    find_from(s, q.as_slice(), 0)
}

/// Whether this text stands somewhere in a run of characters.
pub fn contains_text(s: &[char], p: &str) -> (r: bool)
    ensures
        r == holds(s@, p@),
{
    find_text(s, p).is_some()
}

/// The first place of a character at or after the start, or the length.
pub open spec fn char_at(s: Seq<char>, c: char) -> int
    decreases s.len(),
{
    if s.len() == 0 || s[0] == c {
        0
    } else {
        1 + char_at(s.skip(1), c)
    }
}

/// The last place of a character, or -1.
pub open spec fn last_char_at(s: Seq<char>, c: char) -> int
    decreases s.len(),
{
    if s.len() == 0 {
        -1
    } else if s.last() == c {
        s.len() - 1
    } else {
        last_char_at(s.drop_last(), c)
    }
}

/// What the first place of a character means.
pub proof fn lemma_char_at(s: Seq<char>, c: char)
    ensures
        0 <= char_at(s, c) <= s.len(),
        char_at(s, c) < s.len() ==> s[char_at(s, c)] == c,
        forall|j: int| 0 <= j < char_at(s, c) ==> s[j] != c,
    decreases s.len(),
{
    if s.len() > 0 && s[0] != c {
        lemma_char_at(s.skip(1), c);
        let k = char_at(s.skip(1), c);
        assert forall|j: int| 0 <= j < char_at(s, c) implies s[j] != c by {
            if j > 0 {
                assert(s.skip(1)[j - 1] == s[j]);
            }
        }
    }
}

/// A place of a character with none before it is the first; with none at all the
/// length is.
pub proof fn lemma_char_at_is(s: Seq<char>, c: char, k: int)
    requires
        0 <= k <= s.len(),
        k < s.len() ==> s[k] == c,
        forall|j: int| 0 <= j < k ==> s[j] != c,
    ensures
        char_at(s, c) == k,
{
    lemma_char_at(s, c);
    let m = char_at(s, c);
    if m < k {
        assert(s[m] != c);
    }
}

/// The last place of a character is a place, if there is one.
pub proof fn lemma_last_char_at(s: Seq<char>, c: char)
    ensures
        -1 <= last_char_at(s, c) < s.len(),
        last_char_at(s, c) >= 0 ==> s[last_char_at(s, c)] == c,
    decreases s.len(),
{
    if s.len() > 0 && s.last() != c {
        lemma_last_char_at(s.drop_last(), c);
    }
}

/// The first place of a character, or the length.
pub fn find_char(s: &[char], c: char) -> (k: usize)
    ensures
        k == char_at(s@, c),
        k <= s.len(),
        k < s.len() ==> s@[k as int] == c,
        forall|j: int| 0 <= j < k ==> s@[j] != c,
{
    let mut i: usize = 0;
    while i < s.len() && s[i] != c
        invariant
            i <= s.len(),
            forall|j: int| 0 <= j < i ==> s@[j] != c,
        decreases s.len() - i,
    {
        i = i + 1;
    }
    proof {
        lemma_char_at_is(s@, c, i as int);
    }
    i
}

/// The last place of a character.
pub fn find_last_char(s: &[char], c: char) -> (r: Option<usize>)
    ensures
        r matches Some(k) ==> k == last_char_at(s@, c) && k < s.len(),
        r is None ==> last_char_at(s@, c) == -1,
{
    let mut i: usize = s.len();
    assert(s@.take(s@.len() as int) =~= s@);
    while i > 0
        invariant
            i <= s.len(),
            last_char_at(s@, c) == last_char_at(s@.take(i as int), c),
        decreases i,
    {
        if s[i - 1] == c {
            return Some(i - 1);
        }
        assert(s@.take(i as int).drop_last() =~= s@.take(i - 1));
        i = i - 1;
    }
    None
}

// ------------------------------------------------------------- trimming

/// White space, as Unicode defines it.
pub open spec fn is_space(c: char) -> bool {
    ||| '\u{9}' <= c <= '\u{d}'
    ||| c == ' '
    ||| c == '\u{85}'
    ||| c == '\u{a0}'
    ||| c == '\u{1680}'
    ||| '\u{2000}' <= c <= '\u{200a}'
    ||| c == '\u{2028}'
    ||| c == '\u{2029}'
    ||| c == '\u{202f}'
    ||| c == '\u{205f}'
    ||| c == '\u{3000}'
}

/// White space, as Unicode defines it.
pub fn space(c: char) -> (r: bool)
    ensures
        r == is_space(c),
{
    (c >= '\u{9}' && c <= '\u{d}') || c == ' ' || c == '\u{85}' || c == '\u{a0}' || c
        == '\u{1680}' || (c >= '\u{2000}' && c <= '\u{200a}') || c == '\u{2028}' || c
        == '\u{2029}' || c == '\u{202f}' || c == '\u{205f}' || c == '\u{3000}'
}

/// A text without the white space at its start.
pub open spec fn trimmed_start(s: Seq<char>) -> Seq<char>
    decreases s.len(),
{
    if s.len() > 0 && is_space(s[0]) {
        trimmed_start(s.skip(1))
    } else {
        s
    }
}

/// A text without the white space at its end.
pub open spec fn trimmed_end(s: Seq<char>) -> Seq<char>
    decreases s.len(),
{
    if s.len() > 0 && is_space(s.last()) {
        trimmed_end(s.drop_last())
    } else {
        s
    }
}

/// A text without the white space at either end.
pub open spec fn trimmed(s: Seq<char>) -> Seq<char> {
    trimmed_end(trimmed_start(s))
}

/// Take the white space off the start.
pub fn trim_start<'a>(s: &'a [char]) -> (r: &'a [char])
    ensures
        r@ == trimmed_start(s@),
        r.len() <= s.len(),
{
    let mut i: usize = 0;
    assert(s@.skip(0) =~= s@);
    while i < s.len() && space(s[i])
        invariant
            i <= s.len(),
            trimmed_start(s@) == trimmed_start(s@.skip(i as int)),
        decreases s.len() - i,
    {
        assert(s@.skip(i as int).skip(1) =~= s@.skip(i + 1));
        i = i + 1;
    }
    let r = slice_subrange(s, i, s.len());
    assert(r@ =~= s@.skip(i as int));
    r
}

/// Take the white space off the end.
pub fn trim_end<'a>(s: &'a [char]) -> (r: &'a [char])
    ensures
        r@ == trimmed_end(s@),
        r.len() <= s.len(),
{
    let mut i: usize = s.len();
    assert(s@.take(i as int) =~= s@);
    while i > 0 && space(s[i - 1])
        invariant
            i <= s.len(),
            trimmed_end(s@) == trimmed_end(s@.take(i as int)),
        decreases i,
    {
        assert(s@.take(i as int).drop_last() =~= s@.take(i - 1));
        i = i - 1;
    }
    let r = slice_subrange(s, 0, i);
    assert(r@ =~= s@.take(i as int));
    r
}

/// Take the white space off both ends.
pub fn trim<'a>(s: &'a [char]) -> (r: &'a [char])
    ensures
        r@ == trimmed(s@),
        r.len() <= s.len(),
{
    trim_end(trim_start(s))
}

/// Trimming leaves only characters that were there, and no more of them.
pub proof fn lemma_trimmed_within(s: Seq<char>)
    ensures
        trimmed(s).len() <= s.len(),
        forall|i: int| 0 <= i < trimmed(s).len() ==> s.contains(#[trigger] trimmed(s)[i]),
{
    lemma_trimmed_start_within(s);
    lemma_trimmed_end_within(trimmed_start(s));
    assert forall|i: int| 0 <= i < trimmed(s).len() implies s.contains(
        #[trigger] trimmed(s)[i],
    ) by {
        assert(trimmed(s)[i] == trimmed_start(s)[i]);
    }
}

proof fn lemma_trimmed_start_within(s: Seq<char>)
    ensures
        trimmed_start(s).len() <= s.len(),
        forall|i: int|
            0 <= i < trimmed_start(s).len() ==> s.contains(#[trigger] trimmed_start(s)[i]),
    decreases s.len(),
{
    if s.len() > 0 && is_space(s[0]) {
        lemma_trimmed_start_within(s.skip(1));
        assert forall|i: int| 0 <= i < trimmed_start(s).len() implies s.contains(
            #[trigger] trimmed_start(s)[i],
        ) by {
            let c = trimmed_start(s)[i];
            assert(s.skip(1).contains(c));
            let j = choose|j: int| 0 <= j < s.skip(1).len() && s.skip(1)[j] == c;
            assert(s[j + 1] == c);
        }
    }
}

/// Trimming the end leaves a start of the text.
pub proof fn lemma_trimmed_end_within(s: Seq<char>)
    ensures
        trimmed_end(s).len() <= s.len(),
        forall|i: int| 0 <= i < trimmed_end(s).len() ==> #[trigger] trimmed_end(s)[i] == s[i],
    decreases s.len(),
{
    if s.len() > 0 && is_space(s.last()) {
        lemma_trimmed_end_within(s.drop_last());
    }
}

/// A text without the characters of a set at its start.
pub open spec fn stripped_start(s: Seq<char>, set: Seq<char>) -> Seq<char>
    decreases s.len(),
{
    if s.len() > 0 && set.contains(s[0]) {
        stripped_start(s.skip(1), set)
    } else {
        s
    }
}

/// A text without the characters of a set at its end.
pub open spec fn stripped_end(s: Seq<char>, set: Seq<char>) -> Seq<char>
    decreases s.len(),
{
    if s.len() > 0 && set.contains(s.last()) {
        stripped_end(s.drop_last(), set)
    } else {
        s
    }
}

/// A text without the characters of a set at either end.
pub open spec fn stripped(s: Seq<char>, set: Seq<char>) -> Seq<char> {
    stripped_end(stripped_start(s, set), set)
}

/// Whether a character is one of these.
pub fn one_of(c: char, set: &[char]) -> (r: bool)
    ensures
        r == set@.contains(c),
{
    let mut i: usize = 0;
    while i < set.len()
        invariant
            i <= set.len(),
            forall|k: int| 0 <= k < i ==> set@[k] != c,
        decreases set.len() - i,
    {
        if set[i] == c {
            assert(set@[i as int] == c);
            return true;
        }
        i = i + 1;
    }
    false
}

/// Take the characters of a set off the start.
pub fn strip_start<'a>(s: &'a [char], set: &[char]) -> (r: &'a [char])
    ensures
        r@ == stripped_start(s@, set@),
        r.len() <= s.len(),
{
    let mut i: usize = 0;
    assert(s@.skip(0) =~= s@);
    while i < s.len() && one_of(s[i], set)
        invariant
            i <= s.len(),
            stripped_start(s@, set@) == stripped_start(s@.skip(i as int), set@),
        decreases s.len() - i,
    {
        assert(s@.skip(i as int).skip(1) =~= s@.skip(i + 1));
        i = i + 1;
    }
    let r = slice_subrange(s, i, s.len());
    assert(r@ =~= s@.skip(i as int));
    r
}

/// Take the characters of a set off the end.
pub fn strip_end<'a>(s: &'a [char], set: &[char]) -> (r: &'a [char])
    ensures
        r@ == stripped_end(s@, set@),
        r.len() <= s.len(),
{
    let mut i: usize = s.len();
    assert(s@.take(i as int) =~= s@);
    while i > 0 && one_of(s[i - 1], set)
        invariant
            i <= s.len(),
            stripped_end(s@, set@) == stripped_end(s@.take(i as int), set@),
        decreases i,
    {
        assert(s@.take(i as int).drop_last() =~= s@.take(i - 1));
        i = i - 1;
    }
    let r = slice_subrange(s, 0, i);
    assert(r@ =~= s@.take(i as int));
    r
}

/// Take the characters of a set off both ends.
pub fn strip<'a>(s: &'a [char], set: &[char]) -> (r: &'a [char])
    ensures
        r@ == stripped(s@, set@),
        r.len() <= s.len(),
{
    strip_end(strip_start(s, set), set)
}

// ------------------------------------------------------------- splitting

/// The pieces of a text between the places of a character.
pub open spec fn pieces(s: Seq<char>, c: char) -> Seq<Seq<char>>
    decreases s.len(),
{
    let k = char_at(s, c);
    if 0 <= k < s.len() {
        seq![s.take(k)] + pieces(s.skip(k + 1), c)
    } else {
        seq![s]
    }
}

/// A line without the carriage return at its end, if it has one.
pub open spec fn without_cr(s: Seq<char>) -> Seq<char> {
    if s.len() > 0 && s.last() == '\r' {
        s.drop_last()
    } else {
        s
    }
}

/// The lines of a text: each ends at a line feed, with a carriage return before
/// it taken away as well; what follows the last line feed is a line if there is
/// anything.
pub open spec fn lines(s: Seq<char>) -> Seq<Seq<char>>
    decreases s.len(),
{
    let k = char_at(s, '\n');
    if s.len() == 0 {
        Seq::empty()
    } else if 0 <= k < s.len() {
        seq![without_cr(s.take(k))] + lines(s.skip(k + 1))
    } else {
        seq![s]
    }
}

/// The length of the run of characters other than white space at the start.
pub open spec fn word_len(s: Seq<char>) -> int
    decreases s.len(),
{
    if s.len() == 0 || is_space(s[0]) {
        0
    } else {
        1 + word_len(s.skip(1))
    }
}

pub proof fn lemma_word_len(s: Seq<char>)
    ensures
        0 <= word_len(s) <= s.len(),
        s.len() > 0 && !is_space(s[0]) ==> word_len(s) > 0,
    decreases s.len(),
{
    if s.len() > 0 && !is_space(s[0]) {
        lemma_word_len(s.skip(1));
    }
}

/// The words of a text: its longest runs of characters other than white space.
pub open spec fn words(s: Seq<char>) -> Seq<Seq<char>>
    decreases s.len(),
{
    if s.len() == 0 {
        Seq::empty()
    } else if is_space(s[0]) {
        words(s.skip(1))
    } else {
        let k = word_len(s);
        if 0 < k <= s.len() {
            seq![s.take(k)] + words(s.skip(k))
        } else {
            Seq::empty()
        }
    }
}

/// What some slices hold.
pub open spec fn views(v: Seq<&[char]>) -> Seq<Seq<char>> {
    Seq::new(v.len(), |i: int| v[i]@)
}

/// Split a text at the places of a character.
pub fn split_char<'a>(s: &'a [char], c: char) -> (r: Vec<&'a [char]>)
    ensures
        views(r@) == pieces(s@, c),
        r.len() > 0,
{
    let mut r: Vec<&'a [char]> = Vec::new();
    let mut i: usize = 0;
    let mut start: usize = 0;
    assert(s@.skip(0) =~= s@);
    assert(views(r@) + pieces(s@, c) =~= pieces(s@, c));
    while i < s.len()
        invariant
            start <= i <= s.len(),
            forall|j: int| start <= j < i ==> s@[j] != c,
            views(r@) + pieces(s@.skip(start as int), c) == pieces(s@, c),
        decreases s.len() - i,
    {
        if s[i] == c {
            let piece = slice_subrange(s, start, i);
            proof {
                let rest = s@.skip(start as int);
                lemma_char_at_is(rest, c, i - start);
                assert(rest.take(i - start) =~= piece@);
                assert(rest.skip(i - start + 1) =~= s@.skip(i + 1));
                assert(views(r@.push(piece)) =~= views(r@).push(piece@));
                assert(views(r@).push(piece@) + pieces(s@.skip(i + 1), c) =~= views(r@) + (
                seq![piece@] + pieces(s@.skip(i + 1), c)));
            }
            r.push(piece);
            start = i + 1;
        }
        i = i + 1;
    }
    let piece = slice_subrange(s, start, s.len());
    proof {
        let rest = s@.skip(start as int);
        lemma_char_at_is(rest, c, rest.len() as int);
        assert(rest =~= piece@);
        assert(views(r@.push(piece)) =~= views(r@) + seq![piece@]);
    }
    r.push(piece);
    r
}

/// Split a text into its lines.
pub fn split_lines<'a>(s: &'a [char]) -> (r: Vec<&'a [char]>)
    ensures
        views(r@) == lines(s@),
{
    let mut r: Vec<&'a [char]> = Vec::new();
    let mut i: usize = 0;
    let mut start: usize = 0;
    assert(s@.skip(0) =~= s@);
    assert(views(r@) + lines(s@) =~= lines(s@));
    while i < s.len()
        invariant
            start <= i <= s.len(),
            forall|j: int| start <= j < i ==> s@[j] != '\n',
            views(r@) + lines(s@.skip(start as int)) == lines(s@),
        decreases s.len() - i,
    {
        if s[i] == '\n' {
            let end: usize = if i > start && s[i - 1] == '\r' {
                i - 1
            } else {
                i
            };
            let piece = slice_subrange(s, start, end);
            proof {
                let rest = s@.skip(start as int);
                lemma_char_at_is(rest, '\n', i - start);
                assert(without_cr(rest.take(i - start)) =~= piece@);
                assert(rest.skip(i - start + 1) =~= s@.skip(i + 1));
                assert(views(r@.push(piece)) =~= views(r@).push(piece@));
                assert(views(r@).push(piece@) + lines(s@.skip(i + 1)) =~= views(r@) + (
                seq![piece@] + lines(s@.skip(i + 1))));
            }
            r.push(piece);
            start = i + 1;
        }
        i = i + 1;
    }
    if start < s.len() {
        let piece = slice_subrange(s, start, s.len());
        proof {
            let rest = s@.skip(start as int);
            lemma_char_at_is(rest, '\n', rest.len() as int);
            assert(rest =~= piece@);
            assert(views(r@.push(piece)) =~= views(r@) + seq![piece@]);
        }
        r.push(piece);
    } else {
        assert(views(r@) + lines(s@.skip(start as int)) =~= views(r@));
    }
    r
}

/// Split a text into its words.
pub fn split_words<'a>(s: &'a [char]) -> (r: Vec<&'a [char]>)
    ensures
        views(r@) == words(s@),
{
    let mut r: Vec<&'a [char]> = Vec::new();
    let mut i: usize = 0;
    assert(s@.skip(0) =~= s@);
    assert(views(r@) + words(s@) =~= words(s@));
    while i < s.len()
        invariant
            i <= s.len(),
            views(r@) + words(s@.skip(i as int)) == words(s@),
        decreases s.len() - i,
    {
        let ghost rest = s@.skip(i as int);
        if space(s[i]) {
            assert(rest.skip(1) =~= s@.skip(i + 1));
            i = i + 1;
        } else {
            let start: usize = i;
            while i < s.len() && !space(s[i])
                invariant
                    start <= i <= s.len(),
                    rest == s@.skip(start as int),
                    word_len(rest) == (i - start) + word_len(s@.skip(i as int)),
                decreases s.len() - i,
            {
                assert(s@.skip(i as int).skip(1) =~= s@.skip(i + 1));
                i = i + 1;
            }
            let piece = slice_subrange(s, start, i);
            proof {
                lemma_word_len(rest);
                assert(word_len(rest) == i - start);
                assert(rest.take(i - start) =~= piece@);
                assert(rest.skip(i - start) =~= s@.skip(i as int));
                assert(views(r@.push(piece)) =~= views(r@).push(piece@));
                assert(views(r@).push(piece@) + words(s@.skip(i as int)) =~= views(r@) + (
                seq![piece@] + words(s@.skip(i as int))));
            }
            r.push(piece);
        }
    }
    assert(views(r@) + words(s@.skip(i as int)) =~= views(r@));
    r
}

/// What stands before and after the first place of a character.
pub open spec fn cut(s: Seq<char>, c: char) -> Option<(Seq<char>, Seq<char>)> {
    let k = char_at(s, c);
    if k < s.len() {
        Some((s.take(k), s.skip(k + 1)))
    } else {
        None
    }
}

/// What stands before and after the last place of a character.
pub open spec fn cut_last(s: Seq<char>, c: char) -> Option<(Seq<char>, Seq<char>)> {
    let k = last_char_at(s, c);
    if k >= 0 {
        Some((s.take(k), s.skip(k + 1)))
    } else {
        None
    }
}

/// What stands before and after the first place of another text.
pub open spec fn cut_at(s: Seq<char>, p: Seq<char>) -> Option<(Seq<char>, Seq<char>)> {
    match first_at(s, p) {
        Some(k) => Some((s.take(k), s.skip(k + p.len()))),
        None => None,
    }
}

/// What two slices hold.
pub open spec fn pair_view(p: Option<(&[char], &[char])>) -> Option<(Seq<char>, Seq<char>)> {
    match p {
        Some((a, b)) => Some((a@, b@)),
        None => None,
    }
}

/// Cut a text at the first place of a character.
pub fn split_once<'a>(s: &'a [char], c: char) -> (r: Option<(&'a [char], &'a [char])>)
    ensures
        pair_view(r) == cut(s@, c),
{
    let k: usize = find_char(s, c);
    if k < s.len() {
        let a = slice_subrange(s, 0, k);
        let b = slice_subrange(s, k + 1, s.len());
        assert(a@ =~= s@.take(k as int));
        assert(b@ =~= s@.skip(k + 1));
        Some((a, b))
    } else {
        None
    }
}

/// Cut a text at the last place of a character.
pub fn rsplit_once<'a>(s: &'a [char], c: char) -> (r: Option<(&'a [char], &'a [char])>)
    ensures
        pair_view(r) == cut_last(s@, c),
{
    match find_last_char(s, c) {
        Some(k) => {
            let a = slice_subrange(s, 0, k);
            let b = slice_subrange(s, k + 1, s.len());
            assert(a@ =~= s@.take(k as int));
            assert(b@ =~= s@.skip(k + 1));
            Some((a, b))
        },
        None => None,
    }
}

/// Cut a text at the first place of another.
pub fn split_at_text<'a>(s: &'a [char], p: &str) -> (r: Option<(&'a [char], &'a [char])>)
    ensures
        pair_view(r) == cut_at(s@, p@),
{
    let q: Vec<char> = chars_of(p);
    match find_from(s, q.as_slice(), 0) {
        Some(k) => {
            proof {
                lemma_first_from(s@, q@, 0);
            }
            let a = slice_subrange(s, 0, k);
            let b = slice_subrange(s, k + q.len(), s.len());
            assert(a@ =~= s@.take(k as int));
            assert(b@ =~= s@.skip(k + q.len()));
            Some((a, b))
        },
        None => None,
    }
}

/// The first line of a text that has a line feed.
pub proof fn lemma_lines_first(line: Seq<char>, rest: Seq<char>)
    requires
        forall|i: int| 0 <= i < line.len() ==> #[trigger] line[i] != '\n',
    ensures
        lines(line + seq!['\n'] + rest) == seq![without_cr(line)] + lines(rest),
{
    let s = line + seq!['\n'] + rest;
    lemma_char_at_is(s, '\n', line.len() as int);
    assert(s.take(line.len() as int) =~= line);
    assert(s.skip(line.len() as int + 1) =~= rest);
}

/// A text that neither begins nor ends with white space has none to trim.
pub proof fn lemma_nothing_to_trim(s: Seq<char>)
    requires
        s.len() > 0 ==> !is_space(s[0]) && !is_space(s.last()),
    ensures
        trimmed(s) == s,
{
}

proof fn lemma_word_len_is(s: Seq<char>, k: int)
    requires
        0 <= k <= s.len(),
        forall|i: int| 0 <= i < k ==> !is_space(#[trigger] s[i]),
        k < s.len() ==> is_space(s[k]),
    ensures
        word_len(s) == k,
    decreases k,
{
    if k > 0 {
        assert(!is_space(s[0]));
        let t = s.skip(1);
        assert forall|i: int| 0 <= i < k - 1 implies !is_space(#[trigger] t[i]) by {
            assert(t[i] == s[i + 1]);
        }
        lemma_word_len_is(t, k - 1);
    }
}

/// The first word of a text that begins with one, up to some white space.
pub proof fn lemma_first_word(w: Seq<char>, c: char, rest: Seq<char>)
    requires
        w.len() > 0,
        forall|i: int| 0 <= i < w.len() ==> !is_space(#[trigger] w[i]),
        is_space(c),
    ensures
        words(w + seq![c] + rest) == seq![w] + words(rest),
{
    let s = w + seq![c] + rest;
    assert(s[0] == w[0]);
    assert forall|i: int| 0 <= i < w.len() implies !is_space(#[trigger] s[i]) by {
        assert(s[i] == w[i]);
    }
    lemma_word_len_is(s, w.len() as int);
    assert(s.take(w.len() as int) =~= w);
    let t = s.skip(w.len() as int);
    assert(t =~= seq![c] + rest);
    assert(t.skip(1) =~= rest);
    assert(words(t) == words(t.skip(1)));
}

/// A text without white space is one word.
pub proof fn lemma_only_word(w: Seq<char>)
    requires
        w.len() > 0,
        forall|i: int| 0 <= i < w.len() ==> !is_space(#[trigger] w[i]),
    ensures
        words(w) == seq![w],
{
    assert(!is_space(w[0]));
    lemma_word_len_is(w, w.len() as int);
    assert(w.take(w.len() as int) =~= w);
    assert(w.skip(w.len() as int) =~= Seq::<char>::empty());
    assert(words(w.skip(w.len() as int)) =~= Seq::<Seq<char>>::empty());
    assert(words(w) =~= seq![w]);
}

/// The pieces of a text between the places of another, which is not empty.
pub open spec fn pieces_by(s: Seq<char>, p: Seq<char>) -> Seq<Seq<char>>
    decreases s.len(),
{
    match first_at(s, p) {
        Some(k) => if p.len() > 0 && 0 <= k && k + p.len() <= s.len() {
            seq![s.take(k)] + pieces_by(s.skip(k + p.len()), p)
        } else {
            seq![s]
        },
        None => seq![s],
    }
}

/// Split a text at the places of another, which is not empty.
pub fn split_text<'a>(s: &'a [char], p: &str) -> (r: Vec<&'a [char]>)
    requires
        p@.len() > 0,
    ensures
        views(r@) == pieces_by(s@, p@),
        r.len() > 0,
{
    let q: Vec<char> = chars_of(p);
    let mut r: Vec<&'a [char]> = Vec::new();
    let mut start: usize = 0;
    assert(s@.skip(0) =~= s@);
    assert(views(r@) + pieces_by(s@, p@) =~= pieces_by(s@, p@));
    loop
        invariant_except_break
            p@.len() > 0,
            q@ == p@,
            start <= s.len(),
            views(r@) + pieces_by(s@.skip(start as int), p@) == pieces_by(s@, p@),
        ensures
            views(r@) == pieces_by(s@, p@),
            r.len() > 0,
        decreases s.len() - start,
    {
        let rest = slice_subrange(s, start, s.len());
        assert(rest@ =~= s@.skip(start as int));
        let ghost before = r@;
        match find_from(rest, q.as_slice(), 0) {
            Some(k) => {
                let piece = slice_subrange(rest, 0, k);
                assert(piece@ =~= rest@.take(k as int));
                r.push(piece);
                start = start + k + q.len();
                proof {
                    assert(s@.skip(start as int) =~= rest@.skip(k + q.len()));
                    assert(views(r@) =~= views(before).push(piece@));
                    assert(views(before) + (seq![piece@] + pieces_by(s@.skip(start as int), p@))
                        =~= views(r@) + pieces_by(s@.skip(start as int), p@));
                }
            },
            None => {
                r.push(rest);
                assert(views(r@) =~= views(before) + seq![rest@]);
                break ;
            },
        }
    }
    r
}

/// Lines of two texts, where the first ends with its last line.
pub proof fn lemma_lines_add(a: Seq<char>, b: Seq<char>)
    requires
        a.len() > 0 ==> a.last() == '\n',
    ensures
        lines(a + b) == lines(a) + lines(b),
    decreases a.len(),
{
    if a.len() == 0 {
        assert(a + b =~= b);
        assert(lines(a) + lines(b) =~= lines(b));
    } else {
        lemma_char_at(a, '\n');
        let k = char_at(a, '\n');
        assert(k < a.len()) by {
            if k >= a.len() {
                assert(a[a.len() - 1] != '\n');
            }
        }
        lemma_char_at_is(a + b, '\n', k);
        assert((a + b).take(k) =~= a.take(k));
        assert((a + b).skip(k + 1) =~= a.skip(k + 1) + b);
        if a.skip(k + 1).len() > 0 {
            assert(a.skip(k + 1).last() == a.last());
        }
        lemma_lines_add(a.skip(k + 1), b);
        assert(lines(a + b) == seq![without_cr(a.take(k))] + lines((a + b).skip(k + 1)));
        assert(lines(a) == seq![without_cr(a.take(k))] + lines(a.skip(k + 1)));
        assert(lines(a + b) =~= lines(a) + lines(b));
    }
}

/// What an optional text holds.
pub open spec fn str_view(s: Option<&str>) -> Option<Seq<char>> {
    match s {
        Some(t) => Some(t@),
        None => None,
    }
}

/// What an optional text holds.
pub open spec fn text_view(s: Option<String>) -> Option<Seq<char>> {
    match s {
        Some(t) => Some(t@),
        None => None,
    }
}

/// Texts with another between them.
pub open spec fn joined_by(parts: Seq<Seq<char>>, sep: Seq<char>) -> Seq<char>
    decreases parts.len(),
{
    if parts.len() == 0 {
        Seq::empty()
    } else if parts.len() == 1 {
        parts[0]
    } else {
        joined_by(parts.drop_last(), sep) + sep + parts.last()
    }
}

/// What some texts hold.
pub open spec fn texts(v: Seq<String>) -> Seq<Seq<char>> {
    Seq::new(v.len(), |i: int| v[i]@)
}

/// Join texts with another between them.
pub fn join(parts: &Vec<String>, sep: &str) -> (s: String)
    ensures
        s@ == joined_by(texts(parts@), sep@),
{
    let ghost all = texts(parts@);
    let mut s = String::new();
    let mut i: usize = 0;
    assert(s@ =~= joined_by(all.take(0), sep@));
    while i < parts.len()
        invariant
            all == texts(parts@),
            i <= parts.len(),
            s@ == joined_by(all.take(i as int), sep@),
        decreases parts.len() - i,
    {
        let ghost before = s@;
        if i > 0 {
            s.append(sep);
        }
        s.append(parts[i].as_str());
        proof {
            let next = all.take(i + 1);
            assert(next.drop_last() =~= all.take(i as int));
            if i == 0 {
                assert(before =~= Seq::<char>::empty());
            }
            assert(s@ =~= joined_by(next, sep@));
        }
        i = i + 1;
    }
    assert(all.take(all.len() as int) =~= all);
    s
}

/// Whether one character at a place is followed by another.
pub open spec fn pair_at(s: Seq<char>, a: char, b: char, i: int) -> bool {
    0 <= i && i + 1 < s.len() && s[i] == a && s[i + 1] == b
}

/// Whether one character is followed by another nowhere from `i` up to `n`.
pub open spec fn pairless(s: Seq<char>, a: char, b: char, i: int, n: int) -> bool
    decreases n - i,
{
    i >= n || (!pair_at(s, a, b, i) && pairless(s, a, b, i + 1, n))
}

/// Where a character is nowhere followed by another, it is not at any place.
pub proof fn lemma_pairless(s: Seq<char>, a: char, b: char, i: int, n: int)
    requires
        pairless(s, a, b, i, n),
    ensures
        forall|j: int| i <= j < n ==> !#[trigger] pair_at(s, a, b, j),
    decreases n - i,
{
    if i < n {
        lemma_pairless(s, a, b, i + 1, n);
    }
}

/// What holds up to a place and from there on holds all the way.
pub proof fn lemma_pairless_join(s: Seq<char>, a: char, b: char, i: int, k: int, n: int)
    requires
        i <= k <= n,
        pairless(s, a, b, i, k),
        pairless(s, a, b, k, n),
    ensures
        pairless(s, a, b, i, n),
    decreases k - i,
{
    if i < k {
        lemma_pairless_join(s, a, b, i + 1, k, n);
    }
}

// ------------------------------------------------------------- laws

/// White space is what Unicode says it is, by number.
pub proof fn law_white_space_is_unicodes(c: char)
    ensures
        is_space(c) <==> {
            let n = c as int;
            ||| n == 9 || n == 10 || n == 11 || n == 12 || n == 13 || n == 32 || n == 133 || n == 160
            ||| n == 5760 || n == 8232 || n == 8233 || n == 8239 || n == 8287 || n == 12288
            ||| n == 8192 || n == 8193 || n == 8194 || n == 8195 || n == 8196 || n == 8197
            ||| n == 8198 || n == 8199 || n == 8200 || n == 8201 || n == 8202
        },
{
}

/// The two alphabets stand side by side: each capital letter becomes the small letter of
/// its place, and nothing else changes.
pub proof fn law_capitals_become_small(s: Seq<char>, i: int)
    requires
        0 <= i < s.len(),
    ensures
        lower_all(s).len() == s.len(),
        ({
            let large = "ABCDEFGHIJKLMNOPQRSTUVWXYZ"@;
            let small = "abcdefghijklmnopqrstuvwxyz"@;
            &&& large.len() == 26 && small.len() == 26
            &&& forall|k: int|
                0 <= k < 26 && s[i] == #[trigger] large[k] ==> lower_all(s)[i] == small[k]
            &&& !large.contains(s[i]) ==> lower_all(s)[i] == s[i]
        }),
{
    reveal_strlit("ABCDEFGHIJKLMNOPQRSTUVWXYZ");
    reveal_strlit("abcdefghijklmnopqrstuvwxyz");
    let large = "ABCDEFGHIJKLMNOPQRSTUVWXYZ"@;
    if 'A' <= s[i] <= 'Z' {
        let k = s[i] as int - 'A' as int;
        assert(large[k] == s[i]);
        assert(large.contains(s[i]));
    }
}

proof fn lemma_trimmed_start_of(a: Seq<char>, s: Seq<char>)
    requires
        forall|i: int| 0 <= i < a.len() ==> is_space(#[trigger] a[i]),
        s.len() > 0 ==> !is_space(s[0]),
    ensures
        trimmed_start(a + s) == s,
    decreases a.len(),
{
    if a.len() > 0 {
        assert(is_space(a[0]));
        assert((a + s).skip(1) =~= a.skip(1) + s);
        assert forall|i: int| 0 <= i < a.skip(1).len() implies is_space(
            #[trigger] a.skip(1)[i],
        ) by {
            assert(a.skip(1)[i] == a[i + 1]);
        }
        lemma_trimmed_start_of(a.skip(1), s);
    } else {
        assert(a + s =~= s);
    }
}

proof fn lemma_trimmed_end_of(s: Seq<char>, b: Seq<char>)
    requires
        forall|i: int| 0 <= i < b.len() ==> is_space(#[trigger] b[i]),
        s.len() > 0 ==> !is_space(s.last()),
    ensures
        trimmed_end(s + b) == s,
    decreases b.len(),
{
    if b.len() > 0 {
        assert(is_space(b[b.len() - 1]));
        assert((s + b).drop_last() =~= s + b.drop_last());
        lemma_trimmed_end_of(s, b.drop_last());
    } else {
        assert(s + b =~= s);
    }
}

/// Trimming takes the white space at the two ends, all of it, and nothing else: a text
/// with white space round it comes back as it was, and of white space alone nothing is
/// left.
pub proof fn law_trimming_takes_what_stands_round(a: Seq<char>, s: Seq<char>, b: Seq<char>)
    requires
        forall|i: int| 0 <= i < a.len() ==> is_space(#[trigger] a[i]),
        forall|i: int| 0 <= i < b.len() ==> is_space(#[trigger] b[i]),
        s.len() > 0 ==> !is_space(s[0]) && !is_space(s.last()),
    ensures
        trimmed(a + s + b) == s,
{
    if s.len() > 0 {
        assert(a + s + b =~= a + (s + b));
        lemma_trimmed_start_of(a, s + b);
        lemma_trimmed_end_of(s, b);
    } else {
        let all = a + s + b;
        assert forall|i: int| 0 <= i < all.len() implies is_space(#[trigger] all[i]) by {
            if i < a.len() {
                assert(all[i] == a[i]);
            } else {
                assert(all[i] == b[i - a.len()]);
            }
        }
        lemma_trimmed_start_of(all, s);
        assert(all + s =~= all);
    }
}

/// A text is cut at the first place of a character, and at the last.
pub proof fn law_a_text_is_cut_where_it_should(a: Seq<char>, c: char, b: Seq<char>)
    ensures
        !a.contains(c) ==> cut(a + seq![c] + b, c) == Some((a, b)),
        !b.contains(c) ==> cut_last(a + seq![c] + b, c) == Some((a, b)),
        !a.contains(c) ==> cut(a, c) is None && cut_last(a, c) is None,
{
    let s = a + seq![c] + b;
    if !a.contains(c) {
        lemma_char_at_is(s, c, a.len() as int);
        assert(s.take(a.len() as int) =~= a);
        assert(s.skip(a.len() as int + 1) =~= b);
        lemma_char_at_is(a, c, a.len() as int);
        lemma_last_char_at(a, c);
    }
    if !b.contains(c) {
        lemma_last_char_is(a, c, b);
        assert(s.take(a.len() as int) =~= a);
        assert(s.skip(a.len() as int + 1) =~= b);
    }
}

proof fn lemma_last_char_is(a: Seq<char>, c: char, b: Seq<char>)
    requires
        !b.contains(c),
    ensures
        last_char_at(a + seq![c] + b, c) == a.len(),
    decreases b.len(),
{
    let s = a + seq![c] + b;
    if b.len() > 0 {
        assert(b[b.len() - 1] != c);
        assert(s.drop_last() =~= a + seq![c] + b.drop_last());
        assert forall|i: int| 0 <= i < b.drop_last().len() implies b.drop_last()[i] != c by {
            assert(b.contains(b[i]));
        }
        lemma_last_char_is(a, c, b.drop_last());
    }
}

/// Texts put together with something between them: one is itself, and of more the first
/// stands in front of the others put together.
pub proof fn law_joining_puts_in_between(first: Seq<char>, rest: Seq<Seq<char>>, sep: Seq<char>)
    ensures
        joined_by(seq![first], sep) == first,
        rest.len() > 0 ==> joined_by(seq![first] + rest, sep) == first + sep + joined_by(rest, sep),
    decreases rest.len(),
{
    let all = seq![first] + rest;
    if rest.len() == 1 {
        assert(all.drop_last() =~= seq![first]);
        assert(all.last() == rest[0]);
        assert(joined_by(all.drop_last(), sep) == first);
    } else if rest.len() > 1 {
        law_joining_puts_in_between(first, rest.drop_last(), sep);
        assert(all.drop_last() =~= seq![first] + rest.drop_last());
        assert(all.last() == rest.last());
        assert(first + sep + joined_by(rest.drop_last(), sep) + sep + rest.last() =~= first + sep
            + (joined_by(rest.drop_last(), sep) + sep + rest.last()));
    }
}

/// The pieces of a text make the text again, and none of them holds what it was cut at.
pub proof fn law_pieces_make_the_text_again(s: Seq<char>, c: char)
    ensures
        pieces(s, c).len() > 0,
        joined_by(pieces(s, c), seq![c]) == s,
        forall|i: int| 0 <= i < pieces(s, c).len() ==> !(#[trigger] pieces(s, c)[i]).contains(c),
    decreases s.len(),
{
    let k = char_at(s, c);
    lemma_char_at(s, c);
    if 0 <= k < s.len() {
        let rest = s.skip(k + 1);
        law_pieces_make_the_text_again(rest, c);
        law_joining_puts_in_between(s.take(k), pieces(rest, c), seq![c]);
        assert(s =~= s.take(k) + seq![c] + rest);
        assert forall|i: int| 0 <= i < pieces(s, c).len() implies !(#[trigger] pieces(
            s,
            c,
        )[i]).contains(c) by {
            if i > 0 {
                assert(pieces(s, c)[i] == pieces(rest, c)[i - 1]);
            }
        }
    } else {
        law_joining_puts_in_between(s, Seq::empty(), seq![c]);
        assert(!s.contains(c));
    }
}

/// White space in front of a text adds no word, nor does white space alone make one.
pub proof fn law_white_space_is_no_word(a: Seq<char>, s: Seq<char>)
    requires
        forall|i: int| 0 <= i < a.len() ==> is_space(#[trigger] a[i]),
    ensures
        words(a + s) == words(s),
        words(a).len() == 0,
    decreases a.len(),
{
    if a.len() > 0 {
        assert(is_space(a[0]));
        assert((a + s).skip(1) =~= a.skip(1) + s);
        assert forall|i: int| 0 <= i < a.skip(1).len() implies is_space(
            #[trigger] a.skip(1)[i],
        ) by {
            assert(a.skip(1)[i] == a[i + 1]);
        }
        law_white_space_is_no_word(a.skip(1), s);
    } else {
        assert(a + s =~= s);
    }
}

/// A line is what stands before a line feed, whether a carriage return stands before that
/// or not.
pub proof fn law_lines_end_either_way(line: Seq<char>, rest: Seq<char>)
    requires
        !line.contains('\n'),
        line.len() > 0 ==> line.last() != '\r',
    ensures
        lines(line + seq!['\n'] + rest) == seq![line] + lines(rest),
        lines(line + seq!['\r', '\n'] + rest) == seq![line] + lines(rest),
        line.len() > 0 ==> lines(line) == seq![line],
{
    assert forall|i: int| 0 <= i < line.len() implies #[trigger] line[i] != '\n' by {
        assert(line.contains(line[i]));
    }
    lemma_lines_first(line, rest);
    let r = line.push('\r');
    assert forall|i: int| 0 <= i < r.len() implies #[trigger] r[i] != '\n' by {
        if i < line.len() {
            assert(r[i] == line[i]);
        }
    }
    lemma_lines_first(r, rest);
    assert(r + seq!['\n'] + rest =~= line + seq!['\r', '\n'] + rest);
    assert(without_cr(r) =~= line);
    lemma_char_at_is(line, '\n', line.len() as int);
}

/// What stands in the middle of a text occurs in it.
pub proof fn lemma_holds_middle(a: Seq<char>, p: Seq<char>, b: Seq<char>)
    ensures
        holds(a + p + b, p),
{
    let s = a + p + b;
    assert(s.subrange(a.len() as int, (a.len() + p.len()) as int) =~= p);
    assert(occurs_at(s, p, a.len() as int));
    lemma_first_from(s, p, 0);
}

/// A text is taken apart at each place of another, the first piece being what stands before
/// its first place; a text without it is one piece.
pub proof fn law_pieces_between_a_text(head: Seq<char>, p: Seq<char>, tail: Seq<char>)
    requires
        p.len() > 0,
        !head.contains(p[0]),
    ensures
        pieces_by(head + p + tail, p) == seq![head] + pieces_by(tail, p),
        pieces_by(head, p) == seq![head],
{
    let s = head + p + tail;
    let k = head.len() as int;
    assert(s.subrange(k, k + p.len()) =~= p);
    assert forall|j: int| 0 <= j < k implies !#[trigger] occurs_at(s, p, j) by {
        if occurs_at(s, p, j) {
            assert(s.subrange(j, j + p.len())[0] == s[j]);
            assert(s[j] == head[j]);
            assert(head.contains(head[j]));
        }
    }
    lemma_first_is(s, p, 0, k);
    assert(s.take(k) =~= head);
    assert(s.skip(k + p.len()) =~= tail);
    assert forall|j: int| 0 <= j implies !#[trigger] occurs_at(head, p, j) by {
        if occurs_at(head, p, j) {
            assert(head.subrange(j, j + p.len())[0] == head[j]);
            assert(head.contains(head[j]));
        }
    }
    lemma_first_none(head, p, 0);
}

} // verus!
