//! Arithmetic in GF(256) and the Reed-Solomon remainder built on it.

use vstd::prelude::*;

verus! {

/// Multiplication by `x` in GF(256) modulo x^8 + x^4 + x^3 + x^2 + 1 (0x11D).
pub open spec fn times_x(a: u8) -> u8 {
    if a & 0x80 != 0 {
        (a << 1) ^ 0x1d
    } else {
        a << 1
    }
}

/// `a` times the `i`-th power of `x`.
pub open spec fn shifted(a: u8, i: nat) -> u8
    decreases i,
{
    if i == 0 {
        a
    } else {
        times_x(shifted(a, (i - 1) as nat))
    }
}

/// Whether bit `i` of `b` is set.
pub open spec fn bit_set(b: u8, i: u8) -> bool {
    (b >> i) & 1 != 0
}

/// The part of a product that the lowest `n` bits of `b` contribute: the sum,
/// over those that are set, of `a` times that power of `x`.
pub open spec fn partial_product(a: u8, b: u8, n: nat) -> u8
    decreases n,
{
    if n == 0 {
        0
    } else {
        partial_product(a, b, (n - 1) as nat) ^ (if bit_set(b, (n - 1) as u8) {
            shifted(a, (n - 1) as nat)
        } else {
            0
        })
    }
}

/// The product of `a` and `b` as polynomials over GF(2), reduced modulo 0x11D.
pub open spec fn gf_mul(a: u8, b: u8) -> u8 {
    partial_product(a, b, 8)
}

/// Addition in the field is exclusive or: an abelian group in which every
/// element is its own inverse.
pub proof fn lemma_xor(a: u8, b: u8, c: u8)
    by (bit_vector)
    ensures
        a ^ b == b ^ a,
        (a ^ b) ^ c == a ^ (b ^ c),
        a ^ a == 0u8,
        a ^ 0u8 == a,
        0u8 ^ a == a,
{
}

proof fn lemma_times_x_linear(a: u8, b: u8)
    by (bit_vector)
    ensures
        times_x(a ^ b) == times_x(a) ^ times_x(b),
        times_x(0) == 0,
{
}

proof fn lemma_shifted_linear(a: u8, b: u8, i: nat)
    ensures
        shifted(a ^ b, i) == shifted(a, i) ^ shifted(b, i),
        shifted(0, i) == 0,
    decreases i,
{
    if i > 0 {
        lemma_shifted_linear(a, b, (i - 1) as nat);
        lemma_times_x_linear(shifted(a, (i - 1) as nat), shifted(b, (i - 1) as nat));
    }
}

proof fn lemma_four(a: u8, b: u8, c: u8, d: u8)
    by (bit_vector)
    ensures
        (a ^ b) ^ (c ^ d) == (a ^ c) ^ (b ^ d),
{
}

proof fn lemma_partial_linear(a: u8, b: u8, c: u8, n: nat)
    ensures
        partial_product(a ^ b, c, n) == partial_product(a, c, n) ^ partial_product(b, c, n),
        partial_product(0, c, n) == 0,
    decreases n,
{
    lemma_xor(0, 0, 0);
    if n > 0 {
        let m = (n - 1) as nat;
        lemma_partial_linear(a, b, c, m);
        lemma_shifted_linear(a, b, m);
        let s = bit_set(c, m as u8);
        lemma_four(
            partial_product(a, c, m),
            partial_product(b, c, m),
            if s { shifted(a, m) } else { 0u8 },
            if s { shifted(b, m) } else { 0u8 },
        );
    }
}

/// Multiplication distributes over addition, and zero annihilates.
pub proof fn lemma_gf_mul_distributes(a: u8, b: u8, c: u8)
    ensures
        gf_mul(a ^ b, c) == gf_mul(a, c) ^ gf_mul(b, c),
        gf_mul(0, c) == 0,
{
    lemma_partial_linear(a, b, c, 8);
}

proof fn lemma_partial_one(b: u8, n: nat)
    requires
        n <= 8,
    ensures
        partial_product(1, b, n) == b & (((1u16 << (n as u16)) - 1) as u8),
        n < 8 ==> shifted(1, n) == 1u8 << (n as u8),
    decreases n,
{
    if n == 0 {
        assert(b & (((1u16 << 0u16) - 1) as u8) == 0) by (bit_vector);
        assert(1u8 << 0u8 == 1) by (bit_vector);
    } else {
        let m = (n - 1) as u8;
        lemma_partial_one(b, (n - 1) as nat);
        assert((b & (((1u16 << (m as u16)) - 1) as u8)) ^ (if (b >> m) & 1 != 0 {
            1u8 << m
        } else {
            0u8
        }) == b & (((1u16 << ((m + 1) as u16)) - 1) as u8)) by (bit_vector)
            requires
                m < 8,
        ;
        assert(m < 7 ==> times_x(1u8 << m) == 1u8 << ((m + 1) as u8)) by (bit_vector);
    }
}

/// One is neutral.
pub proof fn lemma_gf_mul_one(b: u8)
    ensures
        gf_mul(1, b) == b,
{
    lemma_partial_one(b, 8);
    assert(b & (((1u16 << 8u16) - 1) as u8) == b) by (bit_vector);
}

proof fn lemma_shifted_inside(a: u8, i: nat)
    ensures
        shifted(times_x(a), i) == times_x(shifted(a, i)),
    decreases i,
{
    if i > 0 {
        lemma_shifted_inside(a, (i - 1) as nat);
    }
}

proof fn lemma_times_x_of_partial(a: u8, b: u8, n: nat)
    ensures
        times_x(partial_product(a, b, n)) == partial_product(times_x(a), b, n),
    decreases n,
{
    lemma_times_x_linear(0, 0);
    if n > 0 {
        let m = (n - 1) as nat;
        lemma_times_x_of_partial(a, b, m);
        lemma_shifted_inside(a, m);
        lemma_times_x_linear(
            partial_product(a, b, m),
            if bit_set(b, m as u8) { shifted(a, m) } else { 0u8 },
        );
    }
}

proof fn lemma_shifted_of_partial(a: u8, b: u8, n: nat, i: nat)
    ensures
        shifted(partial_product(a, b, n), i) == partial_product(shifted(a, i), b, n),
    decreases i,
{
    if i > 0 {
        lemma_shifted_of_partial(a, b, n, (i - 1) as nat);
        lemma_times_x_of_partial(shifted(a, (i - 1) as nat), b, n);
    }
}

proof fn lemma_partial_swap(a: u8, b: u8, c: u8, n: nat)
    ensures
        partial_product(gf_mul(a, b), c, n) == gf_mul(partial_product(a, c, n), b),
    decreases n,
{
    lemma_partial_linear(0, 0, b, 8);
    if n > 0 {
        let m = (n - 1) as nat;
        lemma_partial_swap(a, b, c, m);
        lemma_shifted_of_partial(a, b, 8, m);
        lemma_partial_linear(
            partial_product(a, c, m),
            if bit_set(c, m as u8) { shifted(a, m) } else { 0u8 },
            b,
            8,
        );
    }
}

/// Two factors may be applied in either order.
pub proof fn lemma_gf_mul_swap(a: u8, b: u8, c: u8)
    ensures
        gf_mul(gf_mul(a, b), c) == gf_mul(gf_mul(a, c), b),
{
    lemma_partial_swap(a, b, c, 8);
}

/// Multiply in the field the QR standard uses: GF(256) modulo 0x11D.
pub fn gmul(a: u8, b: u8) -> (p: u8)
    ensures
        p == gf_mul(a, b),
{
    let mut x: u8 = a;
    let mut y: u8 = b;
    let mut p: u8 = 0;
    let mut i: u8 = 0;
    assert(b >> 0u8 == b) by (bit_vector);
    while i < 8
        invariant
            i <= 8,
            y == b >> i,
            x == shifted(a, i as nat),
            p == partial_product(a, b, i as nat),
        decreases 8 - i,
    {
        proof {
            lemma_xor(p, 0, 0);
            assert((b >> i) >> 1u8 == b >> ((i + 1) as u8)) by (bit_vector)
                requires
                    i < 8,
            ;
        }
        if y & 1 != 0 {
            p = p ^ x;
        }
        let overflow: bool = x & 0x80 != 0;
        x = x << 1;
        if overflow {
            x = x ^ 0x1d;
        }
        y = y >> 1;
        i = i + 1;
    }
    p
}

/// The `k`-th power of two, the primitive element whose powers are the roots.
pub open spec fn alpha_pow(k: nat) -> u8
    decreases k,
{
    if k == 0 {
        1
    } else {
        gf_mul(alpha_pow((k - 1) as nat), 2)
    }
}

/// The polynomial `g` (highest degree first) times (x - root).
pub open spec fn times_linear(g: Seq<u8>, root: u8) -> Seq<u8> {
    Seq::new(
        g.len() + 1,
        |i: int|
            (if i < g.len() {
                g[i]
            } else {
                0
            }) ^ (if i > 0 {
                gf_mul(g[i - 1], root)
            } else {
                0
            }),
    )
}

/// The generator polynomial for `n` error correction codewords: the product of
/// (x - 2^i) for i below `n`, highest degree first.
pub open spec fn gen_poly(n: nat) -> Seq<u8>
    decreases n,
{
    if n == 0 {
        seq![1u8]
    } else {
        times_linear(gen_poly((n - 1) as nat), alpha_pow((n - 1) as nat))
    }
}

/// `p` with the multiple of `g` taken away that cancels its leading term.
pub open spec fn cancel_lead(p: Seq<u8>, g: Seq<u8>) -> Seq<u8> {
    Seq::new(
        p.len(),
        |j: int|
            p[j] ^ (if j < g.len() {
                gf_mul(g[j], p[0])
            } else {
                0
            }),
    )
}

/// The remainder of `p` divided by `g`, a polynomial with leading term one.
pub open spec fn remainder(p: Seq<u8>, g: Seq<u8>) -> Seq<u8>
    decreases p.len(),
{
    if g.len() == 0 || p.len() < g.len() {
        p
    } else {
        remainder(cancel_lead(p, g).drop_first(), g)
    }
}

/// `n` zero coefficients.
pub open spec fn zeros(n: nat) -> Seq<u8> {
    Seq::new(n, |i: int| 0u8)
}

/// The error correction codewords of a block: what is left of the data, moved
/// up `n` places, after division by the generator polynomial.
pub open spec fn ec_block(data: Seq<u8>, n: nat) -> Seq<u8> {
    remainder(data + zeros(n), gen_poly(n))
}

/// The value of the polynomial `p` (highest degree first) at `x`.
pub open spec fn eval(p: Seq<u8>, x: u8) -> u8
    decreases p.len(),
{
    if p.len() == 0 {
        0
    } else {
        gf_mul(eval(p.drop_last(), x), x) ^ p.last()
    }
}

/// The sum of two polynomials of one length.
pub open spec fn poly_add(p: Seq<u8>, q: Seq<u8>) -> Seq<u8> {
    Seq::new(p.len(), |i: int| p[i] ^ q[i])
}

/// The polynomial `p` times the constant `c`.
pub open spec fn poly_scale(p: Seq<u8>, c: u8) -> Seq<u8> {
    Seq::new(p.len(), |i: int| gf_mul(p[i], c))
}

proof fn lemma_eval_add(p: Seq<u8>, q: Seq<u8>, x: u8)
    requires
        p.len() == q.len(),
    ensures
        eval(poly_add(p, q), x) == eval(p, x) ^ eval(q, x),
    decreases p.len(),
{
    if p.len() == 0 {
        lemma_xor(0, 0, 0);
    } else {
        assert(poly_add(p, q).drop_last() =~= poly_add(p.drop_last(), q.drop_last()));
        lemma_eval_add(p.drop_last(), q.drop_last(), x);
        let a = eval(p.drop_last(), x);
        let b = eval(q.drop_last(), x);
        lemma_gf_mul_distributes(a, b, x);
        lemma_four(gf_mul(a, x), gf_mul(b, x), p.last(), q.last());
    }
}

proof fn lemma_eval_scale(p: Seq<u8>, c: u8, x: u8)
    ensures
        eval(poly_scale(p, c), x) == gf_mul(eval(p, x), c),
    decreases p.len(),
{
    if p.len() == 0 {
        lemma_gf_mul_distributes(0, 0, c);
    } else {
        assert(poly_scale(p, c).drop_last() =~= poly_scale(p.drop_last(), c));
        lemma_eval_scale(p.drop_last(), c, x);
        lemma_gf_mul_swap(eval(p.drop_last(), x), c, x);
        lemma_gf_mul_distributes(gf_mul(eval(p.drop_last(), x), x), p.last(), c);
    }
}

proof fn lemma_eval_trailing_zeros(p: Seq<u8>, n: nat, x: u8)
    requires
        eval(p, x) == 0,
    ensures
        eval(p + zeros(n), x) == 0,
    decreases n,
{
    if n == 0 {
        assert(p + zeros(n) =~= p);
    } else {
        assert((p + zeros(n)).drop_last() =~= p + zeros((n - 1) as nat));
        lemma_eval_trailing_zeros(p, (n - 1) as nat, x);
        lemma_gf_mul_distributes(0, 0, x);
        lemma_xor(0, 0, 0);
    }
}

proof fn lemma_eval_leading_zeros(n: nat, p: Seq<u8>, x: u8)
    ensures
        eval(zeros(n) + p, x) == eval(p, x),
    decreases n + p.len(),
{
    if p.len() > 0 {
        assert((zeros(n) + p).drop_last() =~= zeros(n) + p.drop_last());
        lemma_eval_leading_zeros(n, p.drop_last(), x);
    } else if n > 0 {
        assert((zeros(n) + p).drop_last() =~= zeros((n - 1) as nat) + p);
        lemma_eval_leading_zeros((n - 1) as nat, p, x);
        lemma_gf_mul_distributes(0, 0, x);
        lemma_xor(0, 0, 0);
    } else {
        assert(zeros(n) + p =~= p);
    }
}

proof fn lemma_eval_append_zero(p: Seq<u8>, x: u8)
    ensures
        eval(p.push(0), x) == gf_mul(eval(p, x), x),
{
    assert(p.push(0).drop_last() =~= p);
    lemma_xor(gf_mul(eval(p, x), x), 0, 0);
}

proof fn lemma_times_linear_root(g: Seq<u8>, root: u8, x: u8)
    requires
        eval(g, x) == 0 || x == root,
    ensures
        eval(times_linear(g, root), x) == 0,
{
    let high = g.push(0);
    let low = zeros(1) + g;
    lemma_gf_mul_distributes(0, 0, root);
    assert forall|i: int| 0 <= i < g.len() + 1 implies times_linear(g, root)[i] == poly_add(
        high,
        poly_scale(low, root),
    )[i] by {};
    assert(times_linear(g, root) =~= poly_add(high, poly_scale(low, root)));
    lemma_eval_add(high, poly_scale(low, root), x);
    lemma_eval_scale(low, root, x);
    lemma_eval_leading_zeros(1, g, x);
    lemma_eval_append_zero(g, x);
    lemma_gf_mul_distributes(0, 0, x);
    lemma_xor(gf_mul(eval(g, x), x), 0, 0);
}

proof fn lemma_gen_poly_shape(n: nat)
    ensures
        gen_poly(n).len() == n + 1,
        gen_poly(n)[0] == 1,
    decreases n,
{
    if n > 0 {
        lemma_gen_poly_shape((n - 1) as nat);
        lemma_xor(1, 0, 0);
    }
}

proof fn lemma_gen_poly_roots(n: nat, i: nat)
    requires
        i < n,
    ensures
        eval(gen_poly(n), alpha_pow(i)) == 0,
    decreases n,
{
    let m = (n - 1) as nat;
    if i < m {
        lemma_gen_poly_roots(m, i);
    }
    lemma_times_linear_root(gen_poly(m), alpha_pow(m), alpha_pow(i));
}

proof fn lemma_remainder_eval(p: Seq<u8>, g: Seq<u8>, x: u8)
    requires
        g.len() > 0,
        g[0] == 1,
        eval(g, x) == 0,
    ensures
        eval(remainder(p, g), x) == eval(p, x),
    decreases p.len(),
{
    if p.len() >= g.len() {
        let pad = (p.len() - g.len()) as nat;
        let multiple = poly_scale(g, p[0]) + zeros(pad);
        let c = cancel_lead(p, g);
        assert(c =~= poly_add(p, multiple));
        lemma_eval_scale(g, p[0], x);
        lemma_gf_mul_distributes(0, 0, p[0]);
        lemma_eval_trailing_zeros(poly_scale(g, p[0]), pad, x);
        lemma_eval_add(p, multiple, x);
        lemma_xor(eval(p, x), 0, 0);
        lemma_gf_mul_one(p[0]);
        lemma_xor(p[0], 0, 0);
        assert(c =~= zeros(1) + c.drop_first());
        lemma_eval_leading_zeros(1, c.drop_first(), x);
        lemma_remainder_eval(c.drop_first(), g, x);
    }
}

proof fn lemma_remainder_len(p: Seq<u8>, g: Seq<u8>)
    requires
        g.len() > 0,
        p.len() >= g.len() - 1,
    ensures
        remainder(p, g).len() == g.len() - 1,
    decreases p.len(),
{
    if p.len() >= g.len() {
        lemma_remainder_len(cancel_lead(p, g).drop_first(), g);
    }
}

/// A block has as many error correction codewords as were asked for.
pub proof fn lemma_ec_block_len(data: Seq<u8>, n: nat)
    ensures
        ec_block(data, n).len() == n,
{
    lemma_gen_poly_shape(n);
    lemma_remainder_len(data + zeros(n), gen_poly(n));
}

/// What a reader checks: data followed by its error correction codewords is a
/// multiple of the generator polynomial, so every syndrome of it is zero.
pub proof fn law_syndromes_are_zero(data: Seq<u8>, n: nat, i: nat)
    requires
        i < n,
    ensures
        eval(data + ec_block(data, n), alpha_pow(i)) == 0,
{
    let x = alpha_pow(i);
    let ec = ec_block(data, n);
    lemma_ec_block_len(data, n);
    lemma_gen_poly_shape(n);
    lemma_gen_poly_roots(n, i);
    let high = data + zeros(n);
    let low = zeros(data.len()) + ec;
    lemma_remainder_eval(high, gen_poly(n), x);
    lemma_eval_leading_zeros(data.len(), ec, x);
    lemma_eval_add(high, low, x);
    assert(data + ec =~= poly_add(high, low)) by {
        assert forall|j: int| 0 <= j < data.len() + n implies (data + ec)[j] == poly_add(
            high,
            low,
        )[j] by {
            lemma_xor((data + ec)[j], 0, 0);
        }
    }
    lemma_xor(eval(high, x), 0, 0);
}

proof fn lemma_gf_mul_commutes(a: u8, b: u8)
    ensures
        gf_mul(a, b) == gf_mul(b, a),
{
    lemma_gf_mul_one(a);
    lemma_gf_mul_one(b);
    lemma_gf_mul_swap(1, a, b);
}

proof fn lemma_gf_mul_groups(a: u8, b: u8, c: u8)
    ensures
        gf_mul(gf_mul(a, b), c) == gf_mul(a, gf_mul(b, c)),
{
    lemma_gf_mul_commutes(a, b);
    lemma_gf_mul_swap(b, a, c);
    lemma_gf_mul_commutes(gf_mul(b, c), a);
}

/// What the field is: what doubling does, and how factors may be moved.
pub proof fn lemma_field_laws(a: u8, b: u8, c: u8)
    ensures
        gf_mul(a, 2) == (if a < 128 {
            (2 * a) as u8
        } else {
            ((2 * a - 256) as u8) ^ 0x1du8
        }),
        gf_mul(a, 1) == a,
        gf_mul(a, b) == gf_mul(b, a),
        gf_mul(gf_mul(a, b), c) == gf_mul(a, gf_mul(b, c)),
{
    lemma_gf_mul_by_one(a);
    lemma_gf_mul_commutes(a, b);
    lemma_gf_mul_groups(a, b, c);
    lemma_double(a);
}

proof fn lemma_double(a: u8)
    ensures
        gf_mul(a, 2) == (if a < 128 {
            (2 * a) as u8
        } else {
            ((2 * a - 256) as u8) ^ 0x1du8
        }),
{
    assert(gf_mul(a, 2) == times_x(a)) by {
        reveal_with_fuel(partial_product, 9);
        assert(forall|i: u8| 2 <= i < 8 ==> (2u8 >> i) & 1 == 0) by (bit_vector);
        assert((2u8 >> 0u8) & 1 == 0 && (2u8 >> 1u8) & 1 != 0) by (bit_vector);
        assert(shifted(a, 0) == a);
        assert(shifted(a, 1) == times_x(a));
        lemma_xor(times_x(a), 0, 0);
        lemma_xor(0, 0, 0);
        assert(partial_product(a, 2, 1) == 0);
        assert(partial_product(a, 2, 2) == times_x(a));
    }
    assert(times_x(a) == (if a < 128 {
        (2 * a) as u8
    } else {
        ((2 * a - 256) as u8) ^ 0x1du8
    })) by (bit_vector);
}

proof fn lemma_alpha_pow_sum(a: nat, b: nat)
    ensures
        alpha_pow(a + b) == gf_mul(alpha_pow(a), alpha_pow(b)),
    decreases b,
{
    if b == 0 {
        lemma_gf_mul_by_one(alpha_pow(a));
    } else {
        let c = (b - 1) as nat;
        lemma_alpha_pow_sum(a, c);
        assert((a + b - 1) as nat == a + c);
        lemma_gf_mul_groups(alpha_pow(a), alpha_pow(c), 2);
    }
}

/// The first `n` codewords of a block, each times the power of two^i that its place
/// stands for, added up.
pub open spec fn syndrome(p: Seq<u8>, i: nat, n: nat) -> u8
    decreases n,
{
    if n == 0 {
        0
    } else {
        syndrome(p, i, (n - 1) as nat) ^ gf_mul(
            p[n - 1],
            alpha_pow((i * (p.len() - 1 - (n - 1))) as nat),
        )
    }
}

proof fn lemma_syndrome_of_longer(p: Seq<u8>, i: nat, n: nat)
    requires
        n < p.len(),
    ensures
        syndrome(p, i, n) == gf_mul(syndrome(p.drop_last(), i, n), alpha_pow(i)),
    decreases n,
{
    let q = p.drop_last();
    let x = alpha_pow(i);
    if n == 0 {
        lemma_gf_mul_distributes(0, 0, x);
    } else {
        let m = (n - 1) as nat;
        let k = (q.len() - 1 - m) as nat;
        lemma_syndrome_of_longer(p, i, m);
        assert(i * (k + 1) == i * k + i) by (nonlinear_arith);
        assert(i * k >= 0) by (nonlinear_arith);
        assert((i * (p.len() - 1 - m)) as nat == i * k + i);
        lemma_alpha_pow_sum(i * k, i);
        lemma_gf_mul_groups(q[m as int], alpha_pow(i * k), x);
        lemma_gf_mul_distributes(syndrome(q, i, m), gf_mul(q[m as int], alpha_pow(i * k)), x);
    }
}

proof fn lemma_eval_is_syndrome(p: Seq<u8>, i: nat)
    ensures
        eval(p, alpha_pow(i)) == syndrome(p, i, p.len()),
    decreases p.len(),
{
    if p.len() > 0 {
        let q = p.drop_last();
        lemma_eval_is_syndrome(q, i);
        lemma_syndrome_of_longer(p, i, q.len());
        assert(i * 0 == 0) by (nonlinear_arith);
        lemma_gf_mul_by_one(p.last());
    }
}

/// The syndromes written out: the codewords of a block with its error correction, each
/// times the power of two that its place stands for, add up to nothing.
pub proof fn law_weighted_codewords_cancel(data: Seq<u8>, n: nat, i: nat)
    requires
        i < n,
    ensures
        syndrome(data + ec_block(data, n), i, data.len() + n) == 0,
{
    lemma_ec_block_len(data, n);
    law_syndromes_are_zero(data, n, i);
    lemma_eval_is_syndrome(data + ec_block(data, n), i);
}

proof fn lemma_eval_at_one_of_change(p: Seq<u8>, k: int, v: u8)
    requires
        0 <= k < p.len(),
    ensures
        eval(p.update(k, v), 1) == eval(p, 1) ^ (p[k] ^ v),
    decreases p.len(),
{
    let q = p.update(k, v);
    let only = zeros(p.len()).update(k, p[k] ^ v);
    assert(q =~= poly_add(p, only)) by {
        assert forall|j: int| 0 <= j < p.len() implies q[j] == poly_add(p, only)[j] by {
            lemma_xor(p[j], p[j], v);
            lemma_xor(v, 0, 0);
        }
    }
    lemma_eval_add(p, only, 1);
    assert(only =~= zeros(k as nat) + (seq![p[k] ^ v] + zeros((p.len() - k - 1) as nat)));
    lemma_eval_leading_zeros(
        k as nat,
        seq![p[k] ^ v] + zeros((p.len() - k - 1) as nat),
        1,
    );
    lemma_eval_at_one_of_single(p[k] ^ v, (p.len() - k - 1) as nat);
}

proof fn lemma_eval_at_one_of_single(c: u8, n: nat)
    ensures
        eval(seq![c] + zeros(n), 1) == c,
    decreases n,
{
    let p = seq![c] + zeros(n);
    if n == 0 {
        assert(p.drop_last() =~= Seq::<u8>::empty());
        assert(eval(p.drop_last(), 1) == 0);
        lemma_gf_mul_distributes(0, 0, 1);
        lemma_xor(c, 0, 0);
    } else {
        assert(p.drop_last() =~= seq![c] + zeros((n - 1) as nat));
        lemma_eval_at_one_of_single(c, (n - 1) as nat);
        lemma_gf_mul_by_one(c);
        lemma_xor(c, 0, 0);
    }
}

proof fn lemma_gf_mul_by_one(a: u8)
    ensures
        gf_mul(a, 1) == a,
{
    reveal_with_fuel(partial_product, 9);
    assert(forall|i: u8| 1 <= i < 8 ==> (1u8 >> i) & 1 == 0) by (bit_vector);
    assert((1u8 >> 0u8) & 1 != 0) by (bit_vector);
    lemma_xor(a, 0, 0);
}

/// Damage is noticed: a block that checks and then has one codeword changed no
/// longer checks.
pub proof fn law_one_damaged_codeword_is_noticed(data: Seq<u8>, n: nat, k: int, v: u8)
    requires
        n > 0,
        0 <= k < data.len() + n,
        v != (data + ec_block(data, n))[k],
    ensures
        eval((data + ec_block(data, n)).update(k, v), alpha_pow(0)) != 0,
{
    let full = data + ec_block(data, n);
    lemma_ec_block_len(data, n);
    law_syndromes_are_zero(data, n, 0);
    lemma_eval_at_one_of_change(full, k, v);
    lemma_xor(full[k] ^ v, 0, 0);
    lemma_xor(full[k], full[k], v);
    lemma_xor(v, 0, 0);
}

/// The generator polynomial for `n` error correction codewords, highest degree
/// first.
pub fn generator(n: usize) -> (g: Vec<u8>)
    requires
        n < usize::MAX,
    ensures
        g@ == gen_poly(n as nat),
{
    let mut g: Vec<u8> = vec![1u8];
    let mut root: u8 = 1;
    let mut k: usize = 0;
    assert(g@ =~= seq![1u8]);
    while k < n
        invariant
            k <= n < usize::MAX,
            g@ == gen_poly(k as nat),
            root == alpha_pow(k as nat),
        decreases n - k,
    {
        proof {
            lemma_gen_poly_shape(k as nat);
        }
        let mut next: Vec<u8> = Vec::new();
        let mut i: usize = 0;
        while i <= g.len()
            invariant
                i <= g.len() + 1,
                g.len() == k + 1,
                k < n < usize::MAX,
                next.len() == i,
                forall|j: int| 0 <= j < i ==> next@[j] == times_linear(g@, root)[j],
            decreases g.len() + 1 - i,
        {
            let high: u8 = if i < g.len() {
                g[i]
            } else {
                0
            };
            let low: u8 = if i > 0 {
                gmul(g[i - 1], root)
            } else {
                0
            };
            next.push(high ^ low);
            i = i + 1;
        }
        assert(next@ =~= times_linear(g@, root));
        g = next;
        root = gmul(root, 2);
        k = k + 1;
    }
    g
}

/// Polynomial long division; the remainder is the error correction block.
pub fn ec_codewords(data: &[u8], n: usize) -> (ec: Vec<u8>)
    requires
        data.len() + n < usize::MAX,
    ensures
        ec@ == ec_block(data@, n as nat),
        ec.len() == n,
{
    let g: Vec<u8> = generator(n);
    let mut rem: Vec<u8> = Vec::new();
    let mut i: usize = 0;
    while i < data.len() + n
        invariant
            i <= data.len() + n < usize::MAX,
            rem.len() == i,
            forall|j: int| 0 <= j < i ==> rem@[j] == (data@ + zeros(n as nat))[j],
        decreases data.len() + n - i,
    {
        rem.push(if i < data.len() { data[i] } else { 0 });
        i = i + 1;
    }
    assert(rem@ =~= data@ + zeros(n as nat));
    proof {
        lemma_gen_poly_shape(n as nat);
        assert(rem@.subrange(0, rem.len() as int) =~= rem@);
    }
    i = 0;
    while i < data.len()
        invariant
            i <= data.len(),
            data.len() + n < usize::MAX,
            rem.len() == data.len() + n,
            g@ == gen_poly(n as nat),
            g.len() == n + 1,
            remainder(rem@.subrange(i as int, rem.len() as int), g@) == ec_block(
                data@,
                n as nat,
            ),
        decreases data.len() - i,
    {
        let ghost before = rem@;
        let ghost tail = rem@.subrange(i as int, rem.len() as int);
        let lead: u8 = rem[i];
        let mut j: usize = 0;
        while j < g.len()
            invariant
                j <= g.len(),
                i < data.len(),
                data.len() + n < usize::MAX,
                before.len() == data.len() + n,
                rem.len() == data.len() + n,
                g.len() == n + 1,
                tail == before.subrange(i as int, before.len() as int),
                lead == tail[0],
                forall|m: int|
                    i <= m < i + j ==> #[trigger] rem@[m] == cancel_lead(tail, g@)[m - i],
                forall|m: int| i + j <= m < before.len() ==> #[trigger] rem@[m] == before[m],
            decreases g.len() - j,
        {
            let c: u8 = rem[i + j] ^ gmul(g[j], lead);
            assert(c == cancel_lead(tail, g@)[j as int]);
            rem.set(i + j, c);
            j = j + 1;
        }
        assert(rem@.subrange(i + 1, rem.len() as int) =~= cancel_lead(tail, g@).drop_first()) by {
            assert forall|m: int| 0 <= m < rem.len() - i - 1 implies rem@.subrange(
                i + 1,
                rem.len() as int,
            )[m] == cancel_lead(tail, g@).drop_first()[m] by {
                lemma_xor(before[i + 1 + m], 0, 0);
            }
        }
        i = i + 1;
    }
    let mut ec: Vec<u8> = Vec::new();
    while i < data.len() + n
        invariant
            data.len() <= i <= data.len() + n < usize::MAX,
            rem.len() == data.len() + n,
            ec@ == rem@.subrange(data.len() as int, i as int),
        decreases data.len() + n - i,
    {
        ec.push(rem[i]);
        i = i + 1;
    }
    assert(ec@ =~= rem@.subrange(data.len() as int, rem.len() as int));
    ec
}

} // verus!
