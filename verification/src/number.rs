//! Whole numbers as text.

use vstd::prelude::*;
use vstd::slice::slice_subrange;

verus! {

/// The value of a digit in a base of at most 36, in either case.
pub open spec fn digit_of(c: char, radix: int) -> Option<int> {
    let d = if '0' <= c <= '9' {
        c as int - '0' as int
    } else if 'a' <= c <= 'z' {
        c as int - 'a' as int + 10
    } else if 'A' <= c <= 'Z' {
        c as int - 'A' as int + 10
    } else {
        radix
    };
    if d < radix {
        Some(d)
    } else {
        None
    }
}

/// The value of a run of digits, the empty run being zero.
pub open spec fn digits_value(s: Seq<char>, radix: int) -> Option<int>
    decreases s.len(),
{
    if s.len() == 0 {
        Some(0)
    } else {
        match (digits_value(s.drop_last(), radix), digit_of(s.last(), radix)) {
            (Some(v), Some(d)) => Some(v * radix + d),
            _ => None,
        }
    }
}

/// A text as an unsigned number of at most `max`: digits, at least one, with a
/// plus sign allowed in front.
pub open spec fn unsigned(s: Seq<char>, radix: int, max: int) -> Option<int> {
    let body = if s.len() > 1 && s[0] == '+' {
        s.skip(1)
    } else {
        s
    };
    match digits_value(body, radix) {
        Some(v) => if body.len() > 0 && v <= max {
            Some(v)
        } else {
            None
        },
        None => None,
    }
}

/// The character of a decimal digit.
pub open spec fn digit_char(d: int) -> char {
    ('0' as u32 + d) as char
}

/// A number in decimal.
pub open spec fn decimal(n: int) -> Seq<char>
    decreases n,
{
    if n < 10 {
        seq![digit_char(n)]
    } else {
        decimal(n / 10).push(digit_char(n % 10))
    }
}

/// A number in decimal with at least two digits.
pub open spec fn two_digits(n: int) -> Seq<char> {
    if n < 10 {
        seq!['0'] + decimal(n)
    } else {
        decimal(n)
    }
}

/// The character of a hexadecimal digit.
pub open spec fn hex_char(d: int, upper: bool) -> char {
    if d < 10 {
        digit_char(d)
    } else if upper {
        ('A' as u32 + (d - 10)) as char
    } else {
        ('a' as u32 + (d - 10)) as char
    }
}

/// A byte as two hexadecimal digits.
pub open spec fn hex_byte(b: u8, upper: bool) -> Seq<char> {
    seq![hex_char(b as int / 16, upper), hex_char(b as int % 16, upper)]
}

proof fn lemma_digits_grow(s: Seq<char>, k: int, radix: int)
    requires
        0 <= k <= s.len(),
        radix >= 1,
    ensures
        digits_value(s, radix) matches Some(v) ==> {
            &&& digits_value(s.take(k), radix) matches Some(w)
            &&& 0 <= w <= v
        },
    decreases s.len() - k,
{
    lemma_digits_not_negative(s, radix);
    if k < s.len() {
        lemma_digits_grow(s, k + 1, radix);
        assert(s.take(k + 1).drop_last() =~= s.take(k));
        lemma_digits_not_negative(s.take(k), radix);
        if let Some(w) = digits_value(s.take(k), radix) {
            assert(w * radix >= w) by (nonlinear_arith)
                requires
                    w >= 0,
                    radix >= 1,
            ;
        }
    } else {
        assert(s.take(k) =~= s);
    }
}

proof fn lemma_digits_not_negative(s: Seq<char>, radix: int)
    requires
        radix >= 1,
    ensures
        digits_value(s, radix) matches Some(v) ==> v >= 0,
    decreases s.len(),
{
    if s.len() > 0 {
        lemma_digits_not_negative(s.drop_last(), radix);
        if let Some(w) = digits_value(s.drop_last(), radix) {
            assert(w * radix >= 0) by (nonlinear_arith)
                requires
                    w >= 0,
                    radix >= 1,
            ;
        }
    }
}

/// The value of a digit in a base.
pub fn digit(c: char, radix: u64) -> (d: Option<u64>)
    requires
        2 <= radix <= 36,
    ensures
        d matches Some(x) ==> digit_of(c, radix as int) == Some(x as int) && x < radix,
        d is None ==> digit_of(c, radix as int) is None,
{
    let x: u64 = if c >= '0' && c <= '9' {
        c as u64 - '0' as u64
    } else if c >= 'a' && c <= 'z' {
        c as u64 - 'a' as u64 + 10
    } else if c >= 'A' && c <= 'Z' {
        c as u64 - 'A' as u64 + 10
    } else {
        radix
    };
    if x < radix {
        Some(x)
    } else {
        None
    }
}

/// Read an unsigned number of at most `max` in a base.
pub fn parse_radix(s: &[char], radix: u64, max: u64) -> (r: Option<u64>)
    requires
        2 <= radix <= 36,
    ensures
        r matches Some(v) ==> unsigned(s@, radix as int, max as int) == Some(v as int) && v <= max,
        r is None ==> unsigned(s@, radix as int, max as int) is None,
{
    let body: &[char] = if s.len() > 1 && s[0] == '+' {
        slice_subrange(s, 1, s.len())
    } else {
        s
    };
    proof {
        if s.len() > 1 && s@[0] == '+' {
            assert(body@ =~= s@.skip(1));
        }
    }
    if body.len() == 0 {
        return None;
    }
    let mut v: u64 = 0;
    let mut i: usize = 0;
    while i < body.len()
        invariant
            2 <= radix <= 36,
            body@ == (if s.len() > 1 && s@[0] == '+' {
                s@.skip(1)
            } else {
                s@
            }),
            i <= body.len(),
            v <= max,
            digits_value(body@.take(i as int), radix as int) == Some(v as int),
        decreases body.len() - i,
    {
        let ghost next = body@.take(i + 1);
        assert(next.drop_last() =~= body@.take(i as int));
        match digit(body[i], radix) {
            None => {
                proof {
                    lemma_digits_grow(body@, i + 1, radix as int);
                }
                return None;
            },
            Some(d) => {
                if d > max || v > (max - d) / radix {
                    proof {
                        lemma_digits_grow(body@, i + 1, radix as int);
                        if d <= max {
                            assert(v * radix + d > max) by (nonlinear_arith)
                                requires
                                    v > (max - d) / (radix as int),
                                    radix >= 2,
                                    d <= max,
                            ;
                        } else {
                            assert(v * radix >= 0) by (nonlinear_arith)
                                requires
                                    v >= 0,
                                    radix >= 2,
                            ;
                        }
                    }
                    return None;
                }
                proof {
                    assert(v * radix + d <= max) by (nonlinear_arith)
                        requires
                            v <= (max - d) / (radix as int),
                            radix >= 2,
                            d <= max,
                            v >= 0,
                    ;
                }
                v = v * radix + d;
            },
        }
        i = i + 1;
    }
    assert(body@.take(body@.len() as int) =~= body@);
    Some(v)
}

/// Read an unsigned decimal number of at most `max`.
pub fn parse_decimal(s: &[char], max: u64) -> (r: Option<u64>)
    ensures
        r matches Some(v) ==> unsigned(s@, 10, max as int) == Some(v as int) && v <= max,
        r is None ==> unsigned(s@, 10, max as int) is None,
{
    parse_radix(s, 10, max)
}

/// The characters of a number in decimal.
pub fn decimal_chars(n: u64) -> (v: Vec<char>)
    ensures
        v@ == decimal(n as int),
    decreases n,
{
    let d: char = (('0' as u8) + (n % 10) as u8) as char;
    assert(d == digit_char(n as int % 10));
    if n < 10 {
        let mut v: Vec<char> = Vec::new();
        v.push(d);
        assert(v@ =~= seq![digit_char(n as int)]);
        v
    } else {
        let mut v: Vec<char> = decimal_chars(n / 10);
        v.push(d);
        v
    }
}

/// Append a number in decimal.
pub fn push_decimal(s: &mut String, n: u64)
    ensures
        final(s)@ == old(s)@ + decimal(n as int),
{
    let v: Vec<char> = decimal_chars(n);
    crate::text::push_chars(s, v.as_slice());
}

/// Append a number in decimal with at least two digits.
pub fn push_two_digits(s: &mut String, n: u64)
    ensures
        final(s)@ == old(s)@ + two_digits(n as int),
{
    let ghost start = s@;
    if n < 10 {
        s.push('0');
    }
    push_decimal(s, n);
    assert(s@ =~= start + two_digits(n as int));
}

/// The character of a hexadecimal digit.
pub fn hex_digit(d: u8, upper: bool) -> (c: char)
    requires
        d < 16,
    ensures
        c == hex_char(d as int, upper),
{
    if d < 10 {
        (('0' as u8) + d) as char
    } else if upper {
        (('A' as u8) + (d - 10)) as char
    } else {
        (('a' as u8) + (d - 10)) as char
    }
}

/// Append a byte as two hexadecimal digits.
pub fn push_hex_byte(s: &mut String, b: u8, upper: bool)
    ensures
        final(s)@ == old(s)@ + hex_byte(b, upper),
{
    let ghost start = s@;
    s.push(hex_digit(b / 16, upper));
    s.push(hex_digit(b % 16, upper));
    assert(s@ =~= start + hex_byte(b, upper));
}

proof fn lemma_decimal_digits(n: int)
    requires
        0 <= n,
    ensures
        digits_value(decimal(n), 10) == Some(n),
        decimal(n).len() > 0,
        '0' <= decimal(n)[0] <= '9',
        forall|i: int| 0 <= i < decimal(n).len() ==> '0' <= #[trigger] decimal(n)[i] <= '9',
    decreases n,
{
    if n < 10 {
        let s = seq![digit_char(n)];
        assert(s.drop_last() =~= Seq::<char>::empty());
        assert(digits_value(s.drop_last(), 10) == Some(0int));
    } else {
        lemma_decimal_digits(n / 10);
        assert(decimal(n).drop_last() =~= decimal(n / 10));
    }
}

/// A number written in decimal is read back, and holds nothing but digits.
pub proof fn law_decimal_reads_back(n: int, max: int)
    requires
        0 <= n <= max,
    ensures
        unsigned(decimal(n), 10, max) == Some(n),
        forall|i: int| 0 <= i < decimal(n).len() ==> '0' <= #[trigger] decimal(n)[i] <= '9',
{
    lemma_decimal_digits(n);
}

/// A number that was read is not negative and not above the limit.
pub proof fn lemma_unsigned_range(s: Seq<char>, radix: int, max: int)
    requires
        radix >= 1,
    ensures
        unsigned(s, radix, max) matches Some(n) ==> 0 <= n <= max,
{
    lemma_digits_not_negative(s, radix);
    lemma_digits_not_negative(s.skip(1), radix);
}

/// A number in decimal has at least one digit.
pub proof fn lemma_decimal_not_empty(n: int)
    ensures
        decimal(n).len() > 0,
{
}

/// One more digit behind a number makes it ten times as large and the digit more; a
/// character that is no digit makes it no number at all.
pub proof fn law_each_digit_counts(s: Seq<char>, c: char, v: int, max: int)
    requires
        s.len() > 0,
        s[0] != '+',
        unsigned(s, 10, max) == Some(v),
    ensures
        '0' <= c <= '9' && v * 10 + (c as int - 48) <= max ==> unsigned(s.push(c), 10, max) == Some(
            v * 10 + (c as int - 48),
        ),
        '0' <= c <= '9' && v * 10 + (c as int - 48) > max ==> unsigned(s.push(c), 10, max) is None,
        !('0' <= c <= '9') ==> unsigned(s.push(c), 10, max) is None,
        unsigned(seq!['+'] + s, 10, max) == Some(v),
        unsigned(Seq::empty(), 10, max) is None,
{
    assert(s.push(c).drop_last() =~= s);
    assert((seq!['+'] + s).skip(1) =~= s);
}

/// A byte written in hexadecimal is two digits of one case, and is read back.
pub proof fn law_hexadecimal_reads_back(b: u8, upper: bool)
    ensures
        hex_byte(b, upper).len() == 2,
        unsigned(hex_byte(b, upper), 16, 255) == Some(b as int),
        forall|i: int|
            0 <= i < 2 ==> '0' <= #[trigger] hex_byte(b, upper)[i] <= '9' || (upper && 'A'
                <= hex_byte(b, upper)[i] <= 'F') || (!upper && 'a' <= hex_byte(b, upper)[i] <= 'f'),
{
    let s = hex_byte(b, upper);
    let one = s.drop_last();
    assert(one.drop_last() =~= Seq::<char>::empty());
    assert(digits_value(one.drop_last(), 16) == Some(0int));
    assert(digits_value(one, 16) == Some(b as int / 16));
    assert(digits_value(s, 16) == Some(b as int));
}

/// A number is written without zeros in front, but for zero itself; with two digits it is
/// the same number with a zero in front where it needs one.
pub proof fn law_numbers_are_written_plainly(n: int)
    requires
        0 <= n,
    ensures
        n > 0 ==> decimal(n)[0] != '0',
        n == 0 ==> decimal(n) == seq!['0'],
        n < 10 ==> two_digits(n).len() == 2 && two_digits(n)[0] == '0' && two_digits(n)[1] as int
            == 48 + n,
        10 <= n < 100 ==> two_digits(n).len() == 2 && two_digits(n)[0] as int == 48 + n / 10
            && two_digits(n)[1] as int == 48 + n % 10,
        n >= 100 ==> two_digits(n) == decimal(n),
    decreases n,
{
    if n >= 10 {
        law_numbers_are_written_plainly(n / 10);
        lemma_decimal_not_empty(n / 10);
        if n < 100 {
            assert(decimal(n / 10) == seq![digit_char(n / 10)]);
        }
    }
}

} // verus!
