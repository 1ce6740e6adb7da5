//! Rounding a fraction to the nearest `f64` and then toward zero, as
//! `(x as f64) as u64` does, in integer arithmetic.
use vstd::prelude::*;
use vstd::arithmetic::div_mod::*;
use vstd::arithmetic::mul::*;

verus! {

/// Two to the power `n`.
pub open spec fn two_pow(n: nat) -> nat
    decreases n,
{
    if n == 0 {
        1
    } else {
        2 * two_pow((n - 1) as nat)
    }
}

/// The number of binary digits of `n`; zero has none.
pub open spec fn bit_length(n: nat) -> nat
    decreases n,
{
    if n == 0 {
        0
    } else {
        1 + bit_length(n / 2)
    }
}

/// `x / d` rounded to the nearest integer, ties to the even one.
pub open spec fn round_half_even(x: nat, d: nat) -> nat {
    let q = x / d;
    let r = x % d;
    if 2 * r > d || (2 * r == d && q % 2 == 1) {
        q + 1
    } else {
        q
    }
}

/// `n`, or `u64::MAX` when `n` does not fit.
pub open spec fn saturate(n: nat) -> u64 {
    if n > u64::MAX {
        u64::MAX
    } else {
        n as u64
    }
}

/// `p / q` rounded to the nearest `f64`, ties to the even one, and then
/// rounded toward zero.
///
/// An `f64` holds 53 significant binary digits: where the whole part of
/// `p / q` has `b` of them, the `f64` values around it are the multiples of
/// 2^(b-53). Below one they are finer, but there the only question is
/// whether the rounding reaches one, and the multiples of 2^-53 answer it
/// alike. The exponent is taken without bound.
pub open spec fn float_floor(p: nat, q: nat) -> nat {
    let b = bit_length(p / q);
    if b > 53 {
        let u = two_pow((b - 53) as nat);
        round_half_even(p, q * u) * u
    } else {
        let u = two_pow((53 - b) as nat);
        round_half_even(p * u, q) / u
    }
}

// ---------------------------------------------------------------------------
// Powers of two and bit lengths
pub proof fn lemma_two_pow_pos(n: nat)
    ensures
        two_pow(n) >= 1,
    decreases n,
{
    if n > 0 {
        lemma_two_pow_pos((n - 1) as nat);
    }
}

pub proof fn lemma_two_pow_add(a: nat, b: nat)
    ensures
        two_pow(a + b) == two_pow(a) * two_pow(b),
    decreases b,
{
    if b > 0 {
        lemma_two_pow_add(a, (b - 1) as nat);
        let x = two_pow(a) as int;
        let y = two_pow((b - 1) as nat) as int;
        assert(two_pow(a + b) == 2 * two_pow((a + b - 1) as nat));
        assert(two_pow(b) == 2 * y);
        assert(2 * (x * y) == x * (2 * y)) by (nonlinear_arith);
    } else {
        assert(two_pow(0) == 1);
        assert(a + b == a);
        assert(two_pow(a) * 1 == two_pow(a));
    }
}

pub proof fn lemma_two_pow_mono(a: nat, b: nat)
    requires
        a <= b,
    ensures
        two_pow(a) <= two_pow(b),
    decreases b,
{
    if a < b {
        lemma_two_pow_mono(a, (b - 1) as nat);
        lemma_two_pow_pos((b - 1) as nat);
    }
}

pub proof fn lemma_two_pow_constants()
    ensures
        two_pow(52) == 0x10_0000_0000_0000,
        two_pow(53) == 0x20_0000_0000_0000,
        two_pow(54) == 0x40_0000_0000_0000,
        two_pow(64) == 0x1_0000_0000_0000_0000,
{
    reveal_with_fuel(two_pow, 17);
    assert(two_pow(16) == 0x1_0000);
    lemma_two_pow_add(16, 16);
    lemma_two_pow_add(32, 16);
    lemma_two_pow_add(48, 4);
    lemma_two_pow_add(48, 5);
    lemma_two_pow_add(48, 6);
    lemma_two_pow_add(48, 16);
    assert(two_pow(4) == 16);
    assert(two_pow(5) == 32);
    assert(two_pow(6) == 64);
}

/// `n` lies between the powers of two that its bit length names.
pub proof fn lemma_bit_length(n: nat)
    requires
        n > 0,
    ensures
        bit_length(n) >= 1,
        two_pow((bit_length(n) - 1) as nat) <= n < two_pow(bit_length(n)),
    decreases n,
{
    let m = n / 2;
    if m == 0 {
        assert(bit_length(0) == 0);
        assert(n == 1);
        assert(two_pow(1) == 2 * two_pow(0));
    } else {
        lemma_bit_length(m);
        let k = bit_length(m);
        assert(bit_length(n) == 1 + k);
        assert(two_pow(k) == 2 * two_pow((k - 1) as nat));
        assert(two_pow(k + 1) == 2 * two_pow(k));
    }
}

/// Below `2^k`, at most `k` binary digits.
pub proof fn lemma_bit_length_bound(n: nat, k: nat)
    requires
        n < two_pow(k),
    ensures
        bit_length(n) <= k,
{
    if n > 0 {
        lemma_bit_length(n);
        if bit_length(n) > k {
            lemma_two_pow_mono(k, (bit_length(n) - 1) as nat);
        }
    }
}

// ---------------------------------------------------------------------------
// Division facts
/// Comparing `x` with a multiple of `q` through the quotient and remainder.
proof fn lemma_compare_multiple(x: int, q: int, k: int)
    requires
        x >= 0,
        q > 0,
    ensures
        (x >= k * q) == (x / q >= k),
        (x == k * q) == (x / q == k && x % q == 0),
{
    lemma_fundamental_div_mod(x, q);
    lemma_mod_bound(x, q);
    let d = x / q;
    let r = x % q;
    if d >= k {
        assert(q * d >= q * k) by (nonlinear_arith)
            requires
                d >= k,
                q > 0,
        ;
        assert(x >= k * q);
    } else {
        assert(q * d + q <= q * k) by (nonlinear_arith)
            requires
                d <= k - 1,
                q > 0,
        ;
        assert(k * q == q * k) by (nonlinear_arith);
        assert(x < k * q);
    }
    if x == k * q {
        lemma_fundamental_div_mod_converse(x, q, k, 0);
    }
}

// ---------------------------------------------------------------------------
// The rounding, from the whole part and the remainder
/// Below 2^53 the rounding adds one to the whole part exactly when the
/// remainder reaches half a place of the last `f64` digit below the next
/// integer; at 2^53 and above it ties go to even.
pub proof fn lemma_float_floor_below(p: nat, q: nat)
    requires
        q > 0,
        bit_length(p / q) <= 53,
    ensures
        ({
            let i = p / q;
            let r = p % q;
            let b = bit_length(i);
            float_floor(p, q) == if b == 53 {
                if 2 * r > q || (2 * r == q && i % 2 == 1) {
                    i + 1
                } else {
                    i
                }
            } else {
                if r * two_pow(54) >= (two_pow(54) - two_pow(b)) * q {
                    i + 1
                } else {
                    i
                }
            }
        }),
{
    let i = (p / q) as int;
    let r = (p % q) as int;
    let b = bit_length(p / q);
    let t = (53 - b) as nat;
    let u = two_pow(t) as int;
    let qi = q as int;
    lemma_fundamental_div_mod(p as int, qi);
    lemma_mod_bound(p as int, qi);
    lemma_two_pow_pos(t);
    assert(r * u >= 0) by (nonlinear_arith)
        requires
            r >= 0,
            u >= 1,
    ;
    let g = (r * u) / qi;
    let r2 = (r * u) % qi;
    lemma_fundamental_div_mod(r * u, qi);
    lemma_mod_bound(r * u, qi);
    lemma_div_pos_is_pos(r * u, qi);
    assert(g < u) by (nonlinear_arith)
        requires
            r * u == qi * g + r2,
            0 <= r2,
            0 <= r < qi,
            u >= 1,
    ;
    assert(p * u == (i * u + g) * qi + r2) by (nonlinear_arith)
        requires
            p == qi * i + r,
            r * u == qi * g + r2,
    ;
    lemma_fundamental_div_mod_converse(p * u, qi, i * u + g, r2);
    let x = i * u + g;
    let c: int = if 2 * r2 > qi || (2 * r2 == qi && x % 2 == 1) {
        1
    } else {
        0
    };
    assert(round_half_even((p * u) as nat, q) == x + c);
    assert(x + c == i * u + (g + c));
    if g + c < u {
        lemma_fundamental_div_mod_converse(x + c, u, i, g + c);
        assert(float_floor(p, q) == i);
    } else {
        assert(x + c == (i + 1) * u + 0) by (nonlinear_arith)
            requires
                x + c == i * u + (g + c),
                g + c == u,
        ;
        lemma_fundamental_div_mod_converse(x + c, u, i + 1, 0);
        assert(float_floor(p, q) == i + 1);
    }
    if b == 53 {
        assert(t == 0);
        assert(u == 1);
        assert(r * u == 0 * qi + r) by (nonlinear_arith)
            requires
                u == 1,
        ;
        lemma_fundamental_div_mod_converse(r * u, qi, 0, r);
        assert(g == 0 && r2 == r);
    } else {
        let w = two_pow((t - 1) as nat) as int;
        assert(u == 2 * w);
        let v = two_pow(b) as int;
        lemma_two_pow_pos(b);
        lemma_two_pow_add(t + 1, b);
        assert(two_pow(t + 1) == 2 * u);
        assert((t + 1 + b) as nat == 54);
        let k = two_pow(54) as int;
        assert(k == 2 * u * v);
        if g == u - 1 {
            assert(x == 2 * (i * w + w - 1) + 1) by (nonlinear_arith)
                requires
                    x == i * u + g,
                    g == u - 1,
                    u == 2 * w,
            ;
            lemma_fundamental_div_mod_converse(x, 2, i * w + w - 1, 1);
        }
        // Rounding up happens exactly when 2·r·u reaches (2u - 1)·q.
        if g == u - 1 && 2 * r2 >= qi {
            assert(2 * r * u >= (2 * u - 1) * qi) by (nonlinear_arith)
                requires
                    r * u == qi * g + r2,
                    g == u - 1,
                    2 * r2 >= qi,
            ;
        } else {
            assert(2 * r * u < (2 * u - 1) * qi) by (nonlinear_arith)
                requires
                    r * u == qi * g + r2,
                    0 <= g < u,
                    0 <= r2 < qi,
                    !(g == u - 1 && 2 * r2 >= qi),
            ;
        }
        assert((2 * r * u >= (2 * u - 1) * qi) == (r * k >= (k - v) * qi)) by (nonlinear_arith)
            requires
                k == 2 * u * v,
                v >= 1,
        ;
    }
}

/// From 2^53 on, `p / q` is rounded to a multiple of `u = 2^(b-53)`:
/// up when the rest beyond the multiple exceeds half of `u`, or equals it
/// and the multiple is odd.
pub proof fn lemma_float_floor_above(p: nat, q: nat)
    requires
        q > 0,
        bit_length(p / q) > 53,
    ensures
        ({
            let i = p / q;
            let r = p % q;
            let b = bit_length(i);
            let u = two_pow((b - 53) as nat);
            let half = two_pow((b - 54) as nat);
            let hi = i / u;
            let lo = i % u;
            &&& u == 2 * half
            &&& float_floor(p, q) == (if lo > half || (lo == half && (r > 0 || hi % 2 == 1)) {
                hi + 1
            } else {
                hi
            }) * u
        }),
{
    let i = (p / q) as int;
    let r = (p % q) as int;
    let b = bit_length(p / q);
    let s = (b - 53) as nat;
    let u = two_pow(s) as int;
    let half = two_pow((b - 54) as nat) as int;
    let qi = q as int;
    assert(two_pow(s) == 2 * two_pow((s - 1) as nat));
    assert((s - 1) as nat == (b - 54) as nat);
    lemma_two_pow_pos((b - 54) as nat);
    lemma_fundamental_div_mod(p as int, qi);
    lemma_mod_bound(p as int, qi);
    lemma_fundamental_div_mod(i, u);
    lemma_mod_bound(i, u);
    let hi = i / u;
    let lo = i % u;
    let rest = qi * lo + r;
    assert(p == (qi * u) * hi + rest) by (nonlinear_arith)
        requires
            p == qi * i + r,
            i == u * hi + lo,
            rest == qi * lo + r,
    ;
    assert(0 <= rest < qi * u) by (nonlinear_arith)
        requires
            rest == qi * lo + r,
            0 <= lo < u,
            0 <= r < qi,
    ;
    lemma_fundamental_div_mod_converse(p as int, qi * u, hi, rest);
    if lo > half {
        assert(2 * rest > qi * u) by (nonlinear_arith)
            requires
                rest == qi * lo + r,
                lo >= half + 1,
                u == 2 * half,
                r >= 0,
                qi > 0,
        ;
    } else if lo < half {
        assert(qi * lo <= qi * (half - 1)) by (nonlinear_arith)
            requires
                lo <= half - 1,
                qi > 0,
        ;
        assert(qi * (half - 1) == qi * half - qi) by (nonlinear_arith);
        assert(qi * u == 2 * (qi * half)) by (nonlinear_arith)
            requires
                u == 2 * half,
        ;
        assert(2 * rest < qi * u);
    } else {
        assert(2 * rest == qi * u + 2 * r) by (nonlinear_arith)
            requires
                rest == qi * lo + r,
                lo == half,
                u == 2 * half,
        ;
    }
}

/// At or above 2^64, so is the rounded value.
pub proof fn lemma_float_floor_large(p: nat, q: nat)
    requires
        q > 0,
        p / q >= two_pow(64),
    ensures
        float_floor(p, q) >= two_pow(64),
{
    let i = p / q;
    lemma_two_pow_pos(64);
    lemma_bit_length(i);
    let b = bit_length(i);
    if b <= 64 {
        lemma_two_pow_mono(b, 64);
    }
    let s = (b - 53) as nat;
    let u = two_pow(s) as int;
    lemma_two_pow_pos(s);
    lemma_two_pow_add(52, s);
    assert((52 + s) as nat == (b - 1) as nat);
    let lo = two_pow(52) as int;
    lemma_div_denominator(p as int, q as int, u);
    lemma_div_is_ordered(lo * u, i as int, u);
    lemma_div_by_multiple(lo, u);
    let rhe = round_half_even(p, (q * u) as nat) as int;
    assert(rhe >= (p as int) / (q * u));
    lemma_mul_inequality(lo, rhe, u);
    lemma_two_pow_mono(64, (b - 1) as nat);
}

/// Below one half, the rounded value is zero.
pub proof fn lemma_float_floor_small(p: nat, q: nat)
    requires
        q > 0,
        2 * p < q,
    ensures
        float_floor(p, q) == 0,
{
    lemma_fundamental_div_mod_converse(p as int, q as int, 0, p as int);
    assert(bit_length(0) == 0);
    lemma_float_floor_below(p, q);
    lemma_two_pow_constants();
    assert(two_pow(0) == 1);
}

/// Whole numbers up to 2^53 are `f64` values: they round to themselves.
pub proof fn lemma_float_floor_whole(n: nat)
    requires
        n <= two_pow(53),
    ensures
        float_floor(n, 1) == n,
{
    lemma_fundamental_div_mod_converse(n as int, 1, n as int, 0);
    lemma_two_pow_constants();
    let b = bit_length(n);
    if b <= 53 {
        lemma_float_floor_below(n, 1);
        if b < 53 {
            lemma_two_pow_mono(b, 53);
        }
    } else {
        lemma_bit_length(n);
        if b > 54 {
            lemma_two_pow_mono(53, (b - 1) as nat);
            assert(two_pow(54) == 2 * two_pow(53));
            lemma_two_pow_mono(54, (b - 1) as nat);
        }
        assert(b == 54);
        assert(n == two_pow(53));
        lemma_float_floor_above(n, 1);
        assert(two_pow(1) == 2);
        assert(two_pow(0) == 1);
        lemma_fundamental_div_mod_converse(n as int, 2, 0x10_0000_0000_0000, 0);
    }
}

// ---------------------------------------------------------------------------
// Order and scaling
/// Rounding to the nearest integer keeps the order of fractions.
proof fn lemma_round_half_even_mono(x: nat, d: nat, y: nat, e: nat)
    requires
        d > 0,
        e > 0,
        x * e <= y * d,
    ensures
        round_half_even(x, d) <= round_half_even(y, e),
{
    let di = d as int;
    let ei = e as int;
    lemma_fundamental_div_mod(x as int, di);
    lemma_mod_bound(x as int, di);
    lemma_fundamental_div_mod(y as int, ei);
    lemma_mod_bound(y as int, ei);
    let qx = (x / d) as int;
    let rx = (x % d) as int;
    let qy = (y / e) as int;
    let ry = (y % e) as int;
    // The whole parts keep the order.
    assert(ei * (qx * di) <= di * y) by (nonlinear_arith)
        requires
            x == di * qx + rx,
            rx >= 0,
            x * ei <= y * di,
            ei > 0,
    ;
    assert(qx * ei <= y) by (nonlinear_arith)
        requires
            ei * (qx * di) <= di * y,
            di > 0,
    ;
    lemma_compare_multiple(y as int, ei, qx);
    if qx == qy {
        assert(rx * ei <= ry * di) by (nonlinear_arith)
            requires
                x == di * qx + rx,
                y == ei * qx + ry,
                x * ei <= y * di,
        ;
        if 2 * rx > di {
            assert(2 * ry > ei) by (nonlinear_arith)
                requires
                    rx * ei <= ry * di,
                    2 * rx > di,
                    di > 0,
                    ei > 0,
            ;
        } else if 2 * rx == di {
            assert(2 * ry >= ei) by (nonlinear_arith)
                requires
                    rx * ei <= ry * di,
                    2 * rx == di,
                    di > 0,
                    ei > 0,
            ;
        }
    }
}

/// The whole part of a fraction keeps the order of fractions.
proof fn lemma_div_mono(p1: nat, q1: nat, p2: nat, q2: nat)
    requires
        q1 > 0,
        q2 > 0,
        p1 * q2 <= p2 * q1,
    ensures
        p1 / q1 <= p2 / q2,
{
    let a = (p1 / q1) as int;
    lemma_fundamental_div_mod(p1 as int, q1 as int);
    lemma_mod_bound(p1 as int, q1 as int);
    assert(a * q2 <= p2) by (nonlinear_arith)
        requires
            p1 == q1 * a + (p1 % q1),
            p1 % q1 >= 0,
            p1 * q2 <= p2 * q1,
            q1 > 0,
            q2 > 0,
    ;
    lemma_compare_multiple(p2 as int, q2 as int, a);
}

/// The rounded value lies within the binary order of magnitude of `p / q`:
/// from the power of two at or below it up to the one above it.
proof fn lemma_float_floor_within(p: nat, q: nat)
    requires
        q > 0,
    ensures
        p / q > 0 ==> two_pow((bit_length(p / q) - 1) as nat) <= float_floor(p, q),
        float_floor(p, q) <= two_pow(bit_length(p / q)),
{
    let i = p / q;
    let b = bit_length(i);
    lemma_two_pow_constants();
    if i > 0 {
        lemma_bit_length(i);
    } else {
        assert(bit_length(0) == 0);
    }
    if b <= 53 {
        lemma_float_floor_below(p, q);
    } else {
        lemma_float_floor_above(p, q);
        let s = (b - 53) as nat;
        let u = two_pow(s) as int;
        let hi = (i / (u as nat)) as int;
        lemma_two_pow_pos(s);
        lemma_two_pow_add(52, s);
        lemma_two_pow_add(53, s);
        assert((52 + s) as nat == (b - 1) as nat);
        assert((53 + s) as nat == b);
        lemma_fundamental_div_mod(i as int, u);
        lemma_mod_bound(i as int, u);
        assert(hi < 0x20_0000_0000_0000) by (nonlinear_arith)
            requires
                i == u * hi + (i as int % u),
                (i as int % u) >= 0,
                i < 0x20_0000_0000_0000 * u,
                u > 0,
        ;
        assert(hi >= 0x10_0000_0000_0000) by (nonlinear_arith)
            requires
                i == u * hi + (i as int % u),
                (i as int % u) < u,
                i >= 0x10_0000_0000_0000 * u,
                u > 0,
        ;
        assert((hi + 1) * u <= 0x20_0000_0000_0000 * u) by (nonlinear_arith)
            requires
                hi < 0x20_0000_0000_0000,
                u > 0,
        ;
        assert(hi * u >= 0x10_0000_0000_0000 * u) by (nonlinear_arith)
            requires
                hi >= 0x10_0000_0000_0000,
                u > 0,
        ;
        assert(hi * u <= (hi + 1) * u) by (nonlinear_arith)
            requires
                u > 0,
        ;
    }
}

/// Rounding to the nearest `f64` keeps the order: `p1 / q1 <= p2 / q2`
/// gives `float_floor(p1, q1) <= float_floor(p2, q2)`.
pub proof fn lemma_float_floor_mono(p1: nat, q1: nat, p2: nat, q2: nat)
    requires
        q1 > 0,
        q2 > 0,
        p1 * q2 <= p2 * q1,
    ensures
        float_floor(p1, q1) <= float_floor(p2, q2),
{
    lemma_div_mono(p1, q1, p2, q2);
    let i1 = p1 / q1;
    let i2 = p2 / q2;
    let b1 = bit_length(i1);
    let b2 = bit_length(i2);
    if i1 > 0 {
        lemma_bit_length(i1);
        lemma_bit_length(i2);
        if b1 > b2 {
            lemma_two_pow_mono(b2, (b1 - 1) as nat);
        }
    } else {
        assert(bit_length(0) == 0);
    }
    if b1 < b2 {
        lemma_float_floor_within(p1, q1);
        lemma_float_floor_within(p2, q2);
        lemma_bit_length(i2);
        lemma_two_pow_mono(b1, (b2 - 1) as nat);
    } else {
        assert(b1 == b2);
        if b1 > 53 {
            let u = two_pow((b1 - 53) as nat);
            lemma_two_pow_pos((b1 - 53) as nat);
            assert(p1 * (q2 * u) <= p2 * (q1 * u)) by (nonlinear_arith)
                requires
                    p1 * q2 <= p2 * q1,
            ;
            assert(q1 * u > 0 && q2 * u > 0) by (nonlinear_arith)
                requires
                    q1 > 0,
                    q2 > 0,
                    u > 0,
            ;
            lemma_round_half_even_mono(p1, (q1 * u) as nat, p2, (q2 * u) as nat);
            let r1 = round_half_even(p1, (q1 * u) as nat);
            let r2 = round_half_even(p2, (q2 * u) as nat);
            assert(r1 * u <= r2 * u) by (nonlinear_arith)
                requires
                    r1 <= r2,
            ;
        } else {
            let u = two_pow((53 - b1) as nat);
            lemma_two_pow_pos((53 - b1) as nat);
            assert((p1 * u) * q2 <= (p2 * u) * q1) by (nonlinear_arith)
                requires
                    p1 * q2 <= p2 * q1,
            ;
            lemma_round_half_even_mono((p1 * u) as nat, q1, (p2 * u) as nat, q2);
            lemma_div_is_ordered(
                round_half_even((p1 * u) as nat, q1) as int,
                round_half_even((p2 * u) as nat, q2) as int,
                u as int,
            );
        }
    }
}

/// Scaling a fraction's terms alike does not change its rounding.
proof fn lemma_round_half_even_scale(x: nat, d: nat, k: nat)
    requires
        d > 0,
        k > 0,
    ensures
        round_half_even(k * x, k * d) == round_half_even(x, d),
{
    let di = d as int;
    let ki = k as int;
    lemma_fundamental_div_mod(x as int, di);
    lemma_mod_bound(x as int, di);
    let qx = (x / d) as int;
    let rx = (x % d) as int;
    assert(k * x == qx * (ki * di) + ki * rx) by (nonlinear_arith)
        requires
            x == di * qx + rx,
            ki == k,
            di == d,
    ;
    assert(0 <= ki * rx < ki * di) by (nonlinear_arith)
        requires
            0 <= rx < di,
            ki > 0,
    ;
    lemma_fundamental_div_mod_converse((k * x) as int, ki * di, qx, ki * rx);
    assert((2 * (ki * rx) > ki * di) == (2 * rx > di)) by (nonlinear_arith)
        requires
            ki > 0,
    ;
    assert((2 * (ki * rx) == ki * di) == (2 * rx == di)) by (nonlinear_arith)
        requires
            ki > 0,
    ;
}

/// A fraction that divides out rounds as its whole value does.
pub proof fn lemma_float_floor_whole_fraction(n: nat, q: nat)
    requires
        q > 0,
    ensures
        float_floor(n * q, q) == float_floor(n, 1),
{
    lemma_fundamental_div_mod_converse((n * q) as int, q as int, n as int, 0);
    lemma_fundamental_div_mod_converse(n as int, 1, n as int, 0);
    let b = bit_length(n);
    if b > 53 {
        let u = two_pow((b - 53) as nat);
        lemma_two_pow_pos((b - 53) as nat);
        lemma_round_half_even_scale(n, u, q);
        assert(q * n == n * q && q * u == q * u && 1 * u == u) by (nonlinear_arith);
    } else {
        let u = two_pow((53 - b) as nat);
        lemma_round_half_even_scale(n * u, 1, q);
        assert(q * (n * u) == (n * q) * u && q * 1 == q && n * u == (n * u)) by (nonlinear_arith);
    }
}

/// Doubling a whole number doubles its rounded value.
pub proof fn lemma_float_floor_double(n: nat)
    ensures
        float_floor(2 * n, 1) == 2 * float_floor(n, 1),
{
    lemma_fundamental_div_mod_converse(n as int, 1, n as int, 0);
    lemma_fundamental_div_mod_converse(2 * n as int, 1, 2 * n as int, 0);
    lemma_two_pow_constants();
    if n == 0 {
        lemma_float_floor_small(0, 1);
        return;
    }
    let b = bit_length(n);
    assert(bit_length(2 * n) == 1 + b) by {
        assert((2 * n) / 2 == n);
    }
    if b >= 53 {
        // Both on grids of a power of two: the grid doubles with the number.
        let s = (b - 52) as nat;
        let u = two_pow(s);
        assert(two_pow(s) == 2 * two_pow((s - 1) as nat));
        if b == 53 {
            lemma_float_floor_below(n, 1);
            lemma_float_floor_whole_below(n);
            assert(u == 2);
            lemma_round_half_even_scale(n, 1, 2);
            assert(round_half_even(n, 1) == n) by {
                lemma_fundamental_div_mod_converse(n as int, 1, n as int, 0);
            }
        } else {
            let v = two_pow((s - 1) as nat);
            lemma_two_pow_pos((s - 1) as nat);
            lemma_round_half_even_scale(n, v, 2);
            assert(2 * v == 1 * u);
            assert(float_floor(n, 1) == round_half_even(n, 1 * v) * v);
            assert(round_half_even(n, 1 * v) * v * 2 == round_half_even(n, v) * u) by (nonlinear_arith)
                requires
                    u == 2 * v,
            ;
        }
    } else {
        // Below 2^53 whole numbers round to themselves.
        lemma_bit_length(n);
        lemma_two_pow_mono(b, 52);
        lemma_float_floor_whole(n);
        assert(2 * n <= two_pow(53));
        lemma_float_floor_whole(2 * n);
    }
}

/// At 2^52 and above but below 2^53, a whole number rounds to itself.
proof fn lemma_float_floor_whole_below(n: nat)
    requires
        bit_length(n) == 53,
    ensures
        float_floor(n, 1) == n,
{
    lemma_bit_length(n);
    lemma_two_pow_constants();
    lemma_float_floor_whole(n);
}

// ---------------------------------------------------------------------------
// Computing it
/// Two to the power `n`, for `n <= 64`.
fn two_pow_of(n: u32) -> (r: u128)
    requires
        n <= 64,
    ensures
        r == two_pow(n as nat),
        1 <= r <= 0x1_0000_0000_0000_0000,
{
    proof {
        lemma_two_pow_constants();
    }
    let mut r: u128 = 1;
    let mut k: u32 = 0;
    while k < n
        invariant
            k <= n <= 64,
            r == two_pow(k as nat),
            two_pow(64) == 0x1_0000_0000_0000_0000,
        decreases n - k,
    {
        proof {
            lemma_two_pow_mono((k + 1) as nat, 64);
        }
        r = r * 2;
        k += 1;
    }
    proof {
        lemma_two_pow_mono(n as nat, 64);
        lemma_two_pow_pos(n as nat);
    }
    r
}

/// `p / q` rounded to the nearest `f64`, then toward zero, clamped to
/// `u64`: computed from the whole part `i` of `p / q`, the first 54 binary
/// digits `g` of its fraction, and whether any nonzero digit follows them.
pub(crate) fn rounded_whole(
    i: u128,
    g: u128,
    exact: bool,
    Ghost(p): Ghost<nat>,
    Ghost(q): Ghost<nat>,
) -> (r: u64)
    requires
        q > 0,
        i == p / q,
        g == ((p % q) * two_pow(54)) / q,
        exact == (((p % q) * two_pow(54)) % q == 0),
    ensures
        r == saturate(float_floor(p, q)),
{
    proof {
        lemma_two_pow_constants();
    }
    if i >= 0x1_0000_0000_0000_0000 {
        proof {
            lemma_float_floor_large(p, q);
        }
        return u64::MAX;
    }
    let ghost rem = p % q;
    let ghost x: int = (rem * two_pow(54)) as int;
    proof {
        lemma_mod_bound(p as int, q as int);
        lemma_compare_multiple(x, q as int, 0);
        lemma_bit_length_bound(i as nat, 64);
    }
    let mut n = i;
    let mut b: u32 = 0;
    while n > 0
        invariant
            bit_length(i as nat) == b + bit_length(n as nat),
            bit_length(i as nat) <= 64,
        decreases n,
    {
        n = n / 2;
        b = b + 1;
    }
    assert(bit_length(0) == 0);
    if b > 53 {
        let u = two_pow_of(b - 53);
        let half = u / 2;
        let hi = i / u;
        let lo = i % u;
        let rest = !(g == 0 && exact);
        let up = lo > half || (lo == half && (rest || hi % 2 == 1));
        proof {
            lemma_float_floor_above(p, q);
            assert(rest == (rem > 0));
            assert(hi * u <= i) by (nonlinear_arith)
                requires
                    hi == i / u,
                    u >= 1,
            ;
            assert(hi * u + u <= 0x1_0000_0000_0000_0000 + u);
            assert((hi + 1) * u == hi * u + u) by (nonlinear_arith);
        }
        let total: u128 = if up {
            (hi + 1) * u
        } else {
            hi * u
        };
        if total > u64::MAX as u128 {
            u64::MAX
        } else {
            total as u64
        }
    } else if b == 53 {
        let up = (g >= 0x20_0000_0000_0000 && !(g == 0x20_0000_0000_0000 && exact)) || (g
            == 0x20_0000_0000_0000 && exact && i % 2 == 1);
        proof {
            lemma_float_floor_below(p, q);
            lemma_compare_multiple(x, q as int, 0x20_0000_0000_0000);
            lemma_bit_length(i as nat);
        }
        if up {
            (i + 1) as u64
        } else {
            i as u64
        }
    } else {
        let v = two_pow_of(b);
        proof {
            lemma_two_pow_mono(b as nat, 53);
        }
        let up = g >= 0x40_0000_0000_0000 - v;
        proof {
            lemma_float_floor_below(p, q);
            lemma_compare_multiple(x, q as int, 0x40_0000_0000_0000 - v);
            if i > 0 {
                lemma_bit_length(i as nat);
            }
        }
        if up {
            (i + 1) as u64
        } else {
            i as u64
        }
    }
}

} // verus!
