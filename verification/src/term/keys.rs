//! Keys, from the bytes that a terminal sends for them.

use crate::bytes::strict_text;
use crate::text::chars_of;
use vstd::prelude::*;
use vstd::utf8::{
    decode_utf8, encode_scalar, encode_utf8, encode_utf8_decode_utf8, encode_utf8_valid_utf8,
    valid_utf8,
};

verus! {

#[derive(Clone, Copy, Debug, PartialEq, Eq, Structural)]
pub enum Key {
    Up,
    Down,
    Left,
    Right,
    PageUp,
    PageDown,
    Home,
    End,
    Enter,
    Esc,
    Backspace,
    Tab,
    Char(char),
    Quit,
    /// Nothing was pressed, or nothing that means anything.
    Nothing,
}

/// What was heard from the terminal.
#[derive(Clone, Copy, Debug, PartialEq, Eq, Structural)]
pub enum Heard {
    Byte(u8),
    /// Nothing, for as long as was waited.
    Silence,
    /// Nothing ever again.
    Gone,
}

/// How far a key has been read.
#[derive(Clone, Copy, Debug, PartialEq, Eq, Structural)]
pub enum Step {
    /// Not at all.
    Start,
    /// An escape byte, which may be the Esc key.
    Escape,
    /// The opening of a key's sequence.
    Opened,
    /// The digits of a longer sequence, of which the rest is to be swallowed.
    Tail,
    /// The first bytes of a character, of which so many are missing.
    Character { missing: u8 },
}

/// How many bytes follow the first byte of a character.
pub open spec fn bytes_after(first: u8) -> Option<u8> {
    if first <= 0x7f {
        Some(0)
    } else if 0xc0 <= first <= 0xdf {
        Some(1)
    } else if 0xe0 <= first <= 0xef {
        Some(2)
    } else if 0xf0 <= first <= 0xf7 {
        Some(3)
    } else {
        None
    }
}

/// The key that some bytes of a character mean.
pub open spec fn character_key(b: Seq<u8>) -> Key {
    if valid_utf8(b) && decode_utf8(b).len() > 0 {
        Key::Char(decode_utf8(b)[0])
    } else {
        Key::Nothing
    }
}

/// What comes of something heard: how far the next key has been read and by which
/// bytes, and the key if there is one.
pub open spec fn after_hearing(step: Step, held: Seq<u8>, h: Heard) -> (Step, Seq<u8>, Option<Key>) {
    let none = Seq::<u8>::empty();
    match step {
        Step::Start => match h {
            Heard::Silence => (Step::Start, none, Some(Key::Nothing)),
            Heard::Gone => (Step::Start, none, Some(Key::Quit)),
            Heard::Byte(b) => {
                if b == 0x03 {
                    (Step::Start, none, Some(Key::Quit))
                } else if b == 13 || b == 10 {
                    (Step::Start, none, Some(Key::Enter))
                } else if b == 0x7f || b == 0x08 {
                    (Step::Start, none, Some(Key::Backspace))
                } else if b == 9 {
                    (Step::Start, none, Some(Key::Tab))
                } else if b == 0x1b {
                    (Step::Escape, none, None)
                } else if b < 0x20 {
                    (Step::Start, none, Some(Key::Nothing))
                } else {
                    match bytes_after(b) {
                        None => (Step::Start, none, Some(Key::Nothing)),
                        Some(n) => if n == 0 {
                            (Step::Start, none, Some(character_key(seq![b])))
                        } else {
                            (Step::Character { missing: n }, seq![b], None)
                        },
                    }
                }
            },
        },
        Step::Escape => if h == Heard::Byte(91) || h == Heard::Byte(79) {
            (Step::Opened, none, None)
        } else {
            (Step::Start, none, Some(Key::Esc))
        },
        Step::Opened => match h {
            Heard::Byte(b) => if b == 65 {
                (Step::Start, none, Some(Key::Up))
            } else if b == 66 {
                (Step::Start, none, Some(Key::Down))
            } else if b == 67 {
                (Step::Start, none, Some(Key::Right))
            } else if b == 68 {
                (Step::Start, none, Some(Key::Left))
            } else if 48 <= b <= 57 {
                (Step::Tail, none, None)
            } else {
                (Step::Start, none, Some(Key::Nothing))
            },
            _ => (Step::Start, none, Some(Key::Nothing)),
        },
        Step::Tail => match h {
            Heard::Byte(b) => if 65 <= b <= 90 || 97 <= b <= 122 || b == 126 {
                (Step::Start, none, Some(Key::Nothing))
            } else {
                (Step::Tail, none, None)
            },
            _ => (Step::Start, none, Some(Key::Nothing)),
        },
        Step::Character { missing } => match h {
            Heard::Byte(b) => if missing <= 1 {
                (Step::Start, none, Some(character_key(held.push(b))))
            } else {
                (Step::Character { missing: (missing - 1) as u8 }, held.push(b), None)
            },
            _ => (Step::Start, none, Some(Key::Nothing)),
        },
    }
}

/// Keys, from the bytes that a terminal sends for them. The bytes of one key come
/// together, so once one has begun the next is waited for only a moment.
pub struct Keys {
    pub step: Step,
    pub held: Vec<u8>,
}

impl Keys {
    /// Nothing heard yet.
    pub fn new() -> (k: Keys)
        ensures
            k.step == Step::Start,
            k.held@ == Seq::<u8>::empty(),
    {
        Keys { step: Step::Start, held: Vec::new() }
    }

    /// Whether a key has begun, so that what belongs to it is waited for only a
    /// moment.
    pub fn in_the_middle(&self) -> (r: bool)
        ensures
            r == (self.step != Step::Start),
    {
        match self.step {
            Step::Start => false,
            _ => true,
        }
    }

    fn character(b: &Vec<u8>) -> (k: Key)
        ensures
            k == character_key(b@),
    {
        match strict_text(b.as_slice()) {
            Some(s) => {
                let c: Vec<char> = chars_of(s.as_str());
                if c.len() > 0 {
                    Key::Char(c[0])
                } else {
                    Key::Nothing
                }
            },
            None => Key::Nothing,
        }
    }

    /// Take in what was heard: a key, or nothing yet.
    pub fn next(&mut self, h: Heard) -> (k: Option<Key>)
        ensures
            (final(self).step, final(self).held@, k) == after_hearing(
                old(self).step,
                old(self).held@,
                h,
            ),
    {
        let mut held: Vec<u8> = Vec::new();
        let ghost before = self.held@;
        let (step, key): (Step, Option<Key>) = match self.step {
            Step::Start => match h {
                Heard::Silence => (Step::Start, Some(Key::Nothing)),
                Heard::Gone => (Step::Start, Some(Key::Quit)),
                Heard::Byte(b) => {
                    if b == 0x03 {
                        (Step::Start, Some(Key::Quit))
                    } else if b == 13 || b == 10 {
                        (Step::Start, Some(Key::Enter))
                    } else if b == 0x7f || b == 0x08 {
                        (Step::Start, Some(Key::Backspace))
                    } else if b == 9 {
                        (Step::Start, Some(Key::Tab))
                    } else if b == 0x1b {
                        (Step::Escape, None)
                    } else if b < 0x20 {
                        (Step::Start, Some(Key::Nothing))
                    } else if b <= 0x7f {
                        held.push(b);
                        assert(held@ =~= seq![b]);
                        let k: Key = Self::character(&held);
                        held.clear();
                        (Step::Start, Some(k))
                    } else if b < 0xc0 || b > 0xf7 {
                        (Step::Start, Some(Key::Nothing))
                    } else {
                        held.push(b);
                        assert(held@ =~= seq![b]);
                        let missing: u8 = if b <= 0xdf {
                            1
                        } else if b <= 0xef {
                            2
                        } else {
                            3
                        };
                        (Step::Character { missing }, None)
                    }
                },
            },
            Step::Escape => match h {
                Heard::Byte(b) => if b == 91 || b == 79 {
                    (Step::Opened, None)
                } else {
                    (Step::Start, Some(Key::Esc))
                },
                _ => (Step::Start, Some(Key::Esc)),
            },
            Step::Opened => match h {
                Heard::Byte(b) => if b == 65 {
                    (Step::Start, Some(Key::Up))
                } else if b == 66 {
                    (Step::Start, Some(Key::Down))
                } else if b == 67 {
                    (Step::Start, Some(Key::Right))
                } else if b == 68 {
                    (Step::Start, Some(Key::Left))
                } else if b >= 48 && b <= 57 {
                    (Step::Tail, None)
                } else {
                    (Step::Start, Some(Key::Nothing))
                },
                _ => (Step::Start, Some(Key::Nothing)),
            },
            Step::Tail => match h {
                Heard::Byte(b) => if (b >= 65 && b <= 90) || (b >= 97 && b <= 122) || b == 126 {
                    (Step::Start, Some(Key::Nothing))
                } else {
                    (Step::Tail, None)
                },
                _ => (Step::Start, Some(Key::Nothing)),
            },
            Step::Character { missing } => match h {
                Heard::Byte(b) => {
                    let mut all: Vec<u8> = crate::bytes::copied(self.held.as_slice());
                    all.push(b);
                    if missing <= 1 {
                        (Step::Start, Some(Self::character(&all)))
                    } else {
                        held = all;
                        (Step::Character { missing: missing - 1 }, None)
                    }
                },
                _ => (Step::Start, Some(Key::Nothing)),
            },
        };
        self.step = step;
        self.held = held;
        assert(self.held@ =~= after_hearing(old(self).step, before, h).1);
        key
    }
}

/// What comes of some bytes, one after the other, from a step on: how far the
/// next key has been read, and the last thing that came of them.
pub open spec fn after_bytes(step: Step, held: Seq<u8>, bytes: Seq<u8>) -> (
    Step,
    Seq<u8>,
    Option<Key>,
)
    decreases bytes.len(),
{
    if bytes.len() == 0 {
        (step, held, None)
    } else if bytes.len() == 1 {
        after_hearing(step, held, Heard::Byte(bytes[0]))
    } else {
        let (s, b, _) = after_hearing(step, held, Heard::Byte(bytes[0]));
        after_bytes(s, b, bytes.skip(1))
    }
}

proof fn lemma_first_bytes(n: u32)
    by (bit_vector)
    ensures
        n <= 0x7f ==> (n & 0x7f) as u8 == n,
        0xC0u8 <= (0xC0u8 | ((n >> 6) & 0x1F) as u8) <= 0xDFu8,
        0xE0u8 <= (0xE0u8 | ((n >> 12) & 0x0F) as u8) <= 0xEFu8,
        0xF0u8 <= (0xF0u8 | ((n >> 18) & 0x7) as u8) <= 0xF7u8,
{
}

/// Any character that can be typed arrives as that character, whatever its
/// script: the bytes that encode it make exactly its key, and nothing is left
/// over.
pub proof fn law_typed_character_arrives(c: char)
    requires
        c as u32 >= 0x20,
        c as u32 != 0x7f,
    ensures
        after_bytes(Step::Start, Seq::empty(), encode_utf8(seq![c])) == (
            Step::Start,
            Seq::<u8>::empty(),
            Some(Key::Char(c)),
        ),
{
    let n = c as u32;
    let none = Seq::<u8>::empty();
    let all = encode_utf8(seq![c]);
    assert(seq![c].drop_first() =~= Seq::empty());
    assert(encode_utf8(seq![c].drop_first()) =~= none);
    assert(all =~= encode_scalar(n));
    encode_utf8_valid_utf8(seq![c]);
    encode_utf8_decode_utf8(seq![c]);
    assert(character_key(all) == Key::Char(c));
    lemma_first_bytes(n);
    let first = all[0];
    let s1 = all.skip(1);
    reveal_with_fuel(after_bytes, 5);
    if all.len() == 1 {
        assert(seq![first] =~= all);
    } else {
        let b = seq![first];
        if all.len() == 2 {
            assert(b.push(s1[0]) =~= all);
        } else {
            let b2 = b.push(s1[0]);
            let s2 = s1.skip(1);
            if all.len() == 3 {
                assert(b2.push(s2[0]) =~= all);
            } else {
                let b3 = b2.push(s2[0]);
                let s3 = s2.skip(1);
                assert(b3.push(s3[0]) =~= all);
            }
        }
    }
}

/// The arrows arrive whichever of the two ways a terminal sends them in, and leave nothing
/// behind.
pub proof fn law_arrows_arrive(way: u8, held: Seq<u8>)
    requires
        way == 91 || way == 79,
    ensures
        ({
            let none = Seq::<u8>::empty();
            &&& after_bytes(Step::Start, held, seq![27u8, way, 65]) == (Step::Start, none, Some(Key::Up))
            &&& after_bytes(Step::Start, held, seq![27u8, way, 66]) == (
                Step::Start,
                none,
                Some(Key::Down),
            )
            &&& after_bytes(Step::Start, held, seq![27u8, way, 67]) == (
                Step::Start,
                none,
                Some(Key::Right),
            )
            &&& after_bytes(Step::Start, held, seq![27u8, way, 68]) == (
                Step::Start,
                none,
                Some(Key::Left),
            )
        }),
{
    lemma_three(held, way, 65);
    lemma_three(held, way, 66);
    lemma_three(held, way, 67);
    lemma_three(held, way, 68);
}

proof fn lemma_three(held: Seq<u8>, way: u8, last: u8)
    requires
        way == 91 || way == 79,
    ensures
        after_bytes(Step::Start, held, seq![27u8, way, last]) == after_hearing(
            Step::Opened,
            Seq::empty(),
            Heard::Byte(last),
        ),
{
    let b = seq![27u8, way, last];
    assert(b.skip(1) =~= seq![way, last]);
    assert(seq![way, last].skip(1) =~= seq![last]);
    reveal_with_fuel(after_bytes, 4);
}

/// Single keys arrive as what they are: Ctrl-C and a terminal that is gone end it, both
/// ends of a line are Enter, both bytes for it are Backspace, Esc is what nothing follows,
/// and other control bytes mean nothing.
pub proof fn law_single_keys_arrive(b: u8, held: Seq<u8>)
    ensures
        ({
            let k = after_hearing(Step::Start, held, Heard::Byte(b)).2;
            &&& b == 3 ==> k == Some(Key::Quit)
            &&& b == 10 || b == 13 ==> k == Some(Key::Enter)
            &&& b == 8 || b == 127 ==> k == Some(Key::Backspace)
            &&& b == 9 ==> k == Some(Key::Tab)
            &&& b == 27 ==> k is None
            &&& b < 32 && b != 3 && b != 8 && b != 9 && b != 10 && b != 13 && b != 27 ==> k == Some(
                Key::Nothing,
            )
        }),
        after_hearing(Step::Start, held, Heard::Gone).2 == Some(Key::Quit),
        after_hearing(Step::Start, held, Heard::Silence).2 == Some(Key::Nothing),
        after_hearing(Step::Start, held, Heard::Byte(27)).0 != Step::Start,
        ({
            let (s, h, _) = after_hearing(Step::Start, held, Heard::Byte(27));
            after_hearing(s, h, Heard::Silence) == (Step::Start, Seq::<u8>::empty(), Some(Key::Esc))
        }),
{
}

proof fn lemma_tail_swallowed(held: Seq<u8>, digits: Seq<u8>, last: u8)
    requires
        forall|i: int|
            0 <= i < digits.len() ==> (48 <= #[trigger] digits[i] <= 57 || digits[i] == 59),
        last == 126 || 65 <= last <= 90 || 97 <= last <= 122,
    ensures
        after_bytes(Step::Tail, held, digits.push(last)) == (
            Step::Start,
            Seq::<u8>::empty(),
            Some(Key::Nothing),
        ),
    decreases digits.len(),
{
    let b = digits.push(last);
    if digits.len() > 0 {
        assert(48 <= digits[0] <= 57 || digits[0] == 59);
        assert(b[0] == digits[0]);
        assert(b.skip(1) =~= digits.skip(1).push(last));
        assert forall|i: int| 0 <= i < digits.skip(1).len() implies (48 <= #[trigger] digits.skip(
            1,
        )[i] <= 57 || digits.skip(1)[i] == 59) by {
            assert(digits.skip(1)[i] == digits[i + 1]);
        }
        lemma_tail_swallowed(Seq::empty(), digits.skip(1), last);
    }
}

/// A longer sequence, such as a function key sends, is swallowed whole: however many
/// numbers it holds, nothing of it is left to be taken for typing.
pub proof fn law_longer_sequences_are_swallowed(
    way: u8,
    first: u8,
    digits: Seq<u8>,
    last: u8,
    held: Seq<u8>,
)
    requires
        way == 91 || way == 79,
        48 <= first <= 57,
        forall|i: int|
            0 <= i < digits.len() ==> (48 <= #[trigger] digits[i] <= 57 || digits[i] == 59),
        last == 126 || 65 <= last <= 90 || 97 <= last <= 122,
    ensures
        after_bytes(Step::Start, held, seq![27u8, way, first] + digits.push(last)) == (
            Step::Start,
            Seq::<u8>::empty(),
            Some(Key::Nothing),
        ),
{
    let tail = digits.push(last);
    let b = seq![27u8, way, first] + tail;
    lemma_tail_swallowed(Seq::empty(), digits, last);
    assert(b.skip(1) =~= seq![way, first] + tail);
    assert(b.skip(1).skip(1) =~= seq![first] + tail);
    assert(b.skip(1).skip(1).skip(1) =~= tail);
    reveal_with_fuel(after_bytes, 4);
}

} // verus!
