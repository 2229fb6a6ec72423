//! Bytes as letters, digits and two signs.

use vstd::prelude::*;

verus! {

/// The character for six bits.
pub open spec fn sign_of(n: int) -> char {
    if n < 26 {
        ('A' as u32 + n) as char
    } else if n < 52 {
        ('a' as u32 + (n - 26)) as char
    } else if n < 62 {
        ('0' as u32 + (n - 52)) as char
    } else if n == 62 {
        '+'
    } else {
        '/'
    }
}

/// The six bits of a character.
pub open spec fn bits_of(c: char) -> int {
    if 'A' <= c <= 'Z' {
        c as int - 'A' as int
    } else if 'a' <= c <= 'z' {
        c as int - 'a' as int + 26
    } else if '0' <= c <= '9' {
        c as int - '0' as int + 52
    } else if c == '+' {
        62
    } else {
        63
    }
}

/// Four characters for up to three bytes.
pub open spec fn group(b: Seq<u8>) -> Seq<char> {
    let n = b[0] * 65536 + (if b.len() > 1 {
        b[1] as int
    } else {
        0
    }) * 256 + (if b.len() > 2 {
        b[2] as int
    } else {
        0
    });
    seq![
        sign_of(n / 262144),
        sign_of(n / 4096 % 64),
        if b.len() > 1 {
            sign_of(n / 64 % 64)
        } else {
            '='
        },
        if b.len() > 2 {
            sign_of(n % 64)
        } else {
            '='
        },
    ]
}

/// Bytes as characters, three at a time.
pub open spec fn encoded(b: Seq<u8>) -> Seq<char>
    decreases b.len(),
{
    if b.len() == 0 {
        Seq::empty()
    } else if b.len() <= 3 {
        group(b)
    } else {
        group(b.take(3)) + encoded(b.skip(3))
    }
}

fn sign(n: u32) -> (c: char)
    requires
        n < 64,
    ensures
        c == sign_of(n as int),
{
    if n < 26 {
        (65 + n as u8) as char
    } else if n < 52 {
        (97 + (n as u8 - 26)) as char
    } else if n < 62 {
        (48 + (n as u8 - 52)) as char
    } else if n == 62 {
        '+'
    } else {
        '/'
    }
}

/// Bytes as letters, digits and two signs, in the standard way.
pub fn base64(data: &[u8]) -> (s: String)
    ensures
        s@ == encoded(data@),
{
    let mut s = String::new();
    let mut i: usize = 0;
    assert(data@.skip(0) =~= data@);
    assert(s@ + encoded(data@) =~= encoded(data@));
    while i < data.len()
        invariant
            i <= data.len(),
            s@ + encoded(data@.skip(i as int)) == encoded(data@),
        decreases data.len() - i,
    {
        let left: usize = data.len() - i;
        let size: usize = if left < 3 {
            left
        } else {
            3
        };
        let ghost rest = data@.skip(i as int);
        let ghost b = rest.take(size as int);
        let n: u32 = data[i] as u32 * 65536 + (if size > 1 {
            data[i + 1] as u32
        } else {
            0
        }) * 256 + (if size > 2 {
            data[i + 2] as u32
        } else {
            0
        });
        let ghost before = s@;
        s.push(sign(n / 262144));
        s.push(sign(n / 4096 % 64));
        s.push(
            if size > 1 {
                sign(n / 64 % 64)
            } else {
                '='
            },
        );
        s.push(
            if size > 2 {
                sign(n % 64)
            } else {
                '='
            },
        );
        i = i + size;
        proof {
            assert(s@ =~= before + group(b));
            assert(rest.skip(size as int) =~= data@.skip(i as int));
            if left <= 3 {
                assert(b =~= rest);
                assert(data@.skip(i as int) =~= Seq::empty());
                assert(encoded(data@.skip(i as int)) =~= Seq::empty());
                assert(s@ + encoded(data@.skip(i as int)) =~= before + encoded(rest));
            } else {
                assert(s@ + encoded(data@.skip(i as int)) =~= before + (group(b) + encoded(
                    rest.skip(3),
                )));
            }
        }
    }
    assert(s@ + encoded(data@.skip(data@.len() as int)) =~= s@);
    s
}

/// The bytes that four characters stand for.
pub open spec fn ungroup(c: Seq<char>) -> Seq<u8> {
    let a = bits_of(c[0]);
    let b = bits_of(c[1]);
    let x = bits_of(c[2]);
    let y = bits_of(c[3]);
    let one = (a * 4 + b / 16) as u8;
    let two = (b % 16 * 16 + x / 4) as u8;
    let three = (x % 4 * 64 + y) as u8;
    if c[2] == '=' {
        seq![one]
    } else if c[3] == '=' {
        seq![one, two]
    } else {
        seq![one, two, three]
    }
}

/// The bytes that some characters stand for, four at a time.
pub open spec fn decoded(c: Seq<char>) -> Seq<u8>
    decreases c.len(),
{
    if c.len() < 4 {
        Seq::empty()
    } else {
        ungroup(c.take(4)) + decoded(c.skip(4))
    }
}

proof fn lemma_sign(n: int)
    requires
        0 <= n < 64,
    ensures
        bits_of(sign_of(n)) == n,
        sign_of(n) != '=',
{
}

/// Three bytes cut into four parts of six bits, and put together again.
proof fn lemma_parts(a: int, x: int, y: int)
    requires
        0 <= a < 256,
        0 <= x < 256,
        0 <= y < 256,
    ensures
        ({
            let n = a * 65536 + x * 256 + y;
            let p = n / 262144;
            let q = n / 4096 % 64;
            let r = n / 64 % 64;
            let t = n % 64;
            &&& 0 <= p < 64
            &&& p * 4 + q / 16 == a
            &&& q % 16 * 16 + r / 4 == x
            &&& r % 4 * 64 + t == y
        }),
{
    let n = a * 65536 + x * 256 + y;
    assert(n / 262144 == a / 4);
    assert(n / 4096 == a * 16 + x / 16);
    assert(n / 4096 % 64 == a % 4 * 16 + x / 16);
    assert(n / 64 == a * 1024 + x * 4 + y / 64);
    assert(n / 64 % 64 == x % 16 * 4 + y / 64);
    assert(n % 64 == y % 64);
}

proof fn lemma_group(b: Seq<u8>)
    requires
        1 <= b.len() <= 3,
    ensures
        ungroup(group(b)) == b,
{
    let x = if b.len() > 1 {
        b[1] as int
    } else {
        0
    };
    let y = if b.len() > 2 {
        b[2] as int
    } else {
        0
    };
    let n = b[0] * 65536 + x * 256 + y;
    let p = n / 262144;
    let q = n / 4096 % 64;
    let r = n / 64 % 64;
    let t = n % 64;
    lemma_parts(b[0] as int, x, y);
    lemma_sign(p);
    lemma_sign(q);
    lemma_sign(r);
    lemma_sign(t);
    let g = group(b);
    assert(bits_of(g[0]) == p && bits_of(g[1]) == q);
    if b.len() == 1 {
        assert(ungroup(g) =~= seq![b[0]]);
    } else if b.len() == 2 {
        assert(ungroup(g) =~= seq![b[0], b[1]]);
    } else {
        assert(ungroup(g) =~= seq![b[0], b[1], b[2]]);
    }
    assert(ungroup(g) =~= b);
}

/// What was written so is read back as it was.
pub proof fn law_encoding_reads_back(b: Seq<u8>)
    ensures
        decoded(encoded(b)) == b,
    decreases b.len(),
{
    let none = Seq::<char>::empty();
    if b.len() == 0 {
        assert(decoded(encoded(b)) =~= b);
    } else if b.len() <= 3 {
        lemma_group(b);
        let c = group(b);
        assert(c.take(4) =~= c);
        assert(c.skip(4) =~= none);
        assert(decoded(none) =~= Seq::empty());
        assert(decoded(c) =~= b);
    } else {
        let head = b.take(3);
        lemma_group(head);
        law_encoding_reads_back(b.skip(3));
        let c = encoded(b);
        assert(c.take(4) =~= group(head));
        assert(c.skip(4) =~= encoded(b.skip(3)));
        assert(head + b.skip(3) =~= b);
    }
}

/// The sixty-four characters, in their order.
pub proof fn law_the_alphabet_is_the_usual_one(n: int)
    requires
        0 <= n < 64,
    ensures
        sign_of(n) == "ABCDEFGHIJKLMNOPQRSTUVWXYZabcdefghijklmnopqrstuvwxyz0123456789+/"@[n],
{
    reveal_strlit("ABCDEFGHIJKLMNOPQRSTUVWXYZabcdefghijklmnopqrstuvwxyz0123456789+/");
}

/// There are as many groups of four characters as there are begun groups of three bytes, the
/// last one filled up where bytes are missing.
pub proof fn law_groups_are_filled_up(b: Seq<u8>)
    ensures
        encoded(b).len() == 4 * ((b.len() + 2) / 3),
        b.len() == 1 ==> encoded(b)[2] == '=' && encoded(b)[3] == '=',
        b.len() == 2 ==> encoded(b)[2] != '=' && encoded(b)[3] == '=',
        b.len() > 3 ==> encoded(b) == encoded(b.take(3)) + encoded(b.skip(3)),
    decreases b.len(),
{
    if b.len() > 3 {
        law_groups_are_filled_up(b.skip(3));
    } else if b.len() == 2 {
        let v = b[0] * 65536 + b[1] * 256;
        lemma_sign(v / 64 % 64);
    }
}

/// Three bytes are one number of twenty-four bits, and the four characters are that number
/// six bits at a time.
pub proof fn law_three_bytes_are_four_signs(b: Seq<u8>)
    requires
        b.len() == 3,
    ensures
        ({
            let c = encoded(b);
            b[0] * 65536 + b[1] * 256 + b[2] == bits_of(c[0]) * 262144 + bits_of(c[1]) * 4096
                + bits_of(c[2]) * 64 + bits_of(c[3])
        }),
{
    let v = b[0] * 65536 + b[1] * 256 + b[2];
    lemma_sign(v / 262144);
    lemma_sign(v / 4096 % 64);
    lemma_sign(v / 64 % 64);
    lemma_sign(v % 64);
}

} // verus!
