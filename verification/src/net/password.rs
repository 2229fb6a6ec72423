//! A password that can be copied off a blackboard.

use super::devices::{letter, letter_of};
use vstd::prelude::*;

verus! {

/// How long a password is.
pub const LENGTH: usize = 8;

/// The bytes below this make every letter equally likely; the others are passed
/// over.
pub const FAIR: u8 = 248;

/// The letters that the first `n` bytes make, up to the length of a password.
pub open spec fn letters(bytes: Seq<u8>, n: int) -> Seq<char>
    decreases n,
{
    if n <= 0 {
        Seq::empty()
    } else {
        let before = letters(bytes, n - 1);
        if before.len() < LENGTH && bytes[n - 1] < FAIR {
            before.push(letter(bytes[n - 1] as int))
        } else {
            before
        }
    }
}

/// The password that some random bytes make: none, unless they make all of it.
pub open spec fn password(random: Option<Seq<u8>>) -> Seq<char> {
    match random {
        Some(b) => if letters(b, b.len() as int).len() == LENGTH {
            letters(b, b.len() as int)
        } else {
            Seq::empty()
        },
        None => Seq::empty(),
    }
}

/// What optional bytes are.
pub open spec fn bytes_view(b: Option<&Vec<u8>>) -> Option<Seq<u8>> {
    match b {
        Some(v) => Some(v@),
        None => None,
    }
}

/// Eight characters that a child can copy without asking which letter it is, from
/// random bytes of the system. Nothing where there are none, rather than
/// something that can be guessed.
pub fn suggest_password(random: Option<&Vec<u8>>) -> (s: String)
    ensures
        s@ == password(bytes_view(random)),
{
    let b: &Vec<u8> = match random {
        Some(b) => b,
        None => {
            return String::new();
        },
    };
    let mut s = String::new();
    let mut count: usize = 0;
    let mut i: usize = 0;
    assert(s@ =~= letters(b@, 0));
    while i < b.len()
        invariant
            i <= b.len(),
            count == s@.len(),
            s@ == letters(b@, i as int),
            count <= LENGTH,
        decreases b.len() - i,
    {
        if count < LENGTH && b[i] < FAIR {
            s.push(letter_of(b[i]));
            count = count + 1;
        }
        i = i + 1;
    }
    if count == LENGTH {
        s
    } else {
        String::new()
    }
}

/// Whether a character is one of those that cannot be taken for another.
pub open spec fn is_plain(c: char) -> bool {
    super::devices::ALPHABET@.contains(c)
}

/// A password is eight characters long, all of them plain, or there is none.
pub proof fn law_passwords_are_readable(random: Option<Seq<u8>>)
    ensures
        password(random).len() == 8 || password(random).len() == 0,
        forall|i: int| 0 <= i < password(random).len() ==> is_plain(#[trigger] password(random)[i]),
{
    if let Some(b) = random {
        lemma_letters(b, b.len() as int);
    }
}

proof fn lemma_letters(b: Seq<u8>, n: int)
    ensures
        letters(b, n).len() <= LENGTH,
        forall|i: int| 0 <= i < letters(b, n).len() ==> is_plain(#[trigger] letters(b, n)[i]),
    decreases n,
{
    if n > 0 {
        lemma_letters(b, n - 1);
        reveal_strlit("abcdefghjkmnpqrstuvwxyz23456789");
        let k = b[n - 1] as int % 31;
        assert(is_plain(super::devices::ALPHABET@[k]));
    }
}

/// Every letter of the alphabet is made by equally many bytes.
pub proof fn law_letters_are_fair(b: u8)
    requires
        b < FAIR,
    ensures
        letter(b as int) == super::devices::ALPHABET@[b as int % 31],
        FAIR as int == 8 * 31,
{
}

/// None of the characters that can be taken for another is ever used.
pub proof fn law_no_lookalikes()
    ensures
        !is_plain('0') && !is_plain('o') && !is_plain('1') && !is_plain('l') && !is_plain('i'),
{
    reveal_strlit("abcdefghjkmnpqrstuvwxyz23456789");
}

/// A random byte that would favour some letters is passed over as if it had not come, and
/// each other gives the letter of its number, until there are eight.
pub proof fn law_each_fair_byte_is_a_letter(bytes: Seq<u8>, b: u8)
    ensures
        ({
            let n = bytes.len() as int;
            let before = letters(bytes, n);
            let after = letters(bytes.push(b), n + 1);
            &&& b >= 248 || before.len() >= 8 ==> after == before
            &&& b < 248 && before.len() < 8 ==> after == before.push(
                "abcdefghjkmnpqrstuvwxyz23456789"@[b as int % 31],
            )
            &&& before.len() == 8 ==> password(Some(bytes)) == before
            &&& before.len() != 8 ==> password(Some(bytes)).len() == 0
        }),
        password(None).len() == 0,
{
    lemma_letters_of_more(bytes, b, bytes.len() as int);
}

proof fn lemma_letters_of_more(bytes: Seq<u8>, b: u8, n: int)
    requires
        0 <= n <= bytes.len(),
    ensures
        letters(bytes.push(b), n) == letters(bytes, n),
    decreases n,
{
    if n > 0 {
        lemma_letters_of_more(bytes, b, n - 1);
    }
}

} // verus!
