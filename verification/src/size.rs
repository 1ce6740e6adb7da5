//! Sizes as `dnf` prints them: a number and a binary unit (`53 MiB`).
//!
//! The number is read as `str::parse::<f64>` reads it: an optional sign,
//! decimal digits with an optional fraction and exponent, or `inf`,
//! `infinity`, `nan` in any case. Its value is rounded to the nearest `f64`,
//! scaled by the unit, rounded toward zero, and clamped to the range of
//! `u64` (negative values and `nan` give 0), as `(n * unit) as u64` does.
use vstd::prelude::*;
use vstd::arithmetic::div_mod::*;
use vstd::arithmetic::mul::*;
use crate::text::{find_first, lemma_find_first, string_of, slice_of, equals_lit, chars_of};
use crate::float::{
    float_floor,
    lemma_float_floor_double,
    lemma_float_floor_mono,
    lemma_float_floor_whole_fraction,
    lemma_float_floor_large,
    lemma_float_floor_small,
    lemma_two_pow_constants,
    rounded_whole,
    saturate,
    two_pow,
};

verus! {

/// Why a size could not be read.
#[derive(Debug)]
pub enum SizeError {
    /// The number is not a floating-point literal.
    InvalidNumber { number: String },
    /// The unit is none of `GiB`, `MiB`, `KiB`, `B`.
    UnknownUnit { unit: String },
}

/// What a `SizeError` holds, as character sequences.
pub enum SizeErrorView {
    InvalidNumber { number: Seq<char> },
    UnknownUnit { unit: Seq<char> },
}

impl View for SizeError {
    type V = SizeErrorView;

    open spec fn view(&self) -> SizeErrorView {
        match self {
            SizeError::InvalidNumber { number } => SizeErrorView::InvalidNumber { number: number@ },
            SizeError::UnknownUnit { unit } => SizeErrorView::UnknownUnit { unit: unit@ },
        }
    }
}

/// An ASCII decimal digit.
pub open spec fn is_digit(c: char) -> bool {
    48 <= (c as u32) <= 57
}

/// The ASCII digit zero.
pub open spec fn is_zero_digit(c: char) -> bool {
    (c as u32) == 48
}

/// The value of an ASCII decimal digit.
pub open spec fn digit_value(c: char) -> nat {
    ((c as u32) - 48) as nat
}

/// Every character is an ASCII decimal digit.
pub open spec fn all_digits(s: Seq<char>) -> bool {
    forall|i: int| 0 <= i < s.len() ==> is_digit(#[trigger] s[i])
}

/// The value of a string of decimal digits.
pub open spec fn digits_value(s: Seq<char>) -> nat
    decreases s.len(),
{
    if s.len() == 0 {
        0
    } else {
        digits_value(s.drop_last()) * 10 + digit_value(s.last())
    }
}

/// Ten to the power `n`.
pub open spec fn pow10(n: nat) -> nat
    decreases n,
{
    if n == 0 {
        1
    } else {
        10 * pow10((n - 1) as nat)
    }
}

/// `s` equals the lower-case ASCII word `word`, ignoring ASCII case.
pub open spec fn eq_ignore_case(s: Seq<char>, word: Seq<char>) -> bool {
    &&& s.len() == word.len()
    &&& forall|i: int|
        0 <= i < s.len() ==> (#[trigger] s[i] == word[i] || (s[i] as u32) + 32 == (
        word[i] as u32))
}

/// An optional leading `+` or `-` and what follows it.
pub open spec fn split_sign(s: Seq<char>) -> (bool, Seq<char>) {
    if s.len() > 0 && s[0] == '-' {
        (true, s.drop_first())
    } else if s.len() > 0 && s[0] == '+' {
        (false, s.drop_first())
    } else {
        (false, s)
    }
}

/// The value of an exponent: an optional sign and at least one digit.
pub open spec fn exponent_value(t: Seq<char>) -> Option<int> {
    let (negative, d) = split_sign(t);
    if d.len() > 0 && all_digits(d) {
        Some(
            if negative {
                -(digits_value(d) as int)
            } else {
                digits_value(d) as int
            },
        )
    } else {
        None
    }
}

/// A floating-point literal: `digits × 10^exponent`, an infinity, or not a number.
pub enum Number {
    Finite { negative: bool, digits: Seq<char>, exponent: int },
    Infinite { negative: bool },
    NotANumber,
}

/// The exponent marker of a floating-point literal.
pub open spec fn is_exponent_mark(c: char) -> bool {
    c == 'e' || c == 'E'
}

/// The decimal point.
pub open spec fn is_point(c: char) -> bool {
    c == '.'
}

/// The exponent marker as a predicate value.
pub open spec fn exponent_mark_pred() -> spec_fn(char) -> bool {
    |c: char| is_exponent_mark(c)
}

/// The decimal point as a predicate value.
pub open spec fn point_pred() -> spec_fn(char) -> bool {
    |c: char| is_point(c)
}

/// What the literal `body` (after its sign) denotes when it is written
/// with digits: `whole[.fraction][e exponent]`.
pub open spec fn finite_number(negative: bool, body: Seq<char>) -> Option<Number> {
    let e = find_first(body, exponent_mark_pred());
    let mantissa = body.take(e as int);
    let exponent = if e >= body.len() {
        Some(0int)
    } else {
        exponent_value(body.skip(e + 1 as int))
    };
    let dot = find_first(mantissa, point_pred());
    let whole = mantissa.take(dot as int);
    let fraction = if dot < mantissa.len() {
        mantissa.skip(dot + 1 as int)
    } else {
        Seq::<char>::empty()
    };
    if all_digits(whole) && all_digits(fraction) && whole.len() + fraction.len() > 0
        && exponent is Some {
        Some(
            Number::Finite {
                negative,
                digits: whole + fraction,
                exponent: exponent.unwrap() - fraction.len(),
            },
        )
    } else {
        None
    }
}

/// What a floating-point literal denotes, or `None` when `s` is not one.
pub open spec fn number_value(s: Seq<char>) -> Option<Number> {
    let (negative, body) = split_sign(s);
    if eq_ignore_case(body, "inf"@) || eq_ignore_case(body, "infinity"@) {
        Some(Number::Infinite { negative })
    } else if eq_ignore_case(body, "nan"@) {
        Some(Number::NotANumber)
    } else {
        finite_number(negative, body)
    }
}

/// `value × scale × 10^exponent` as a fraction: numerator and denominator.
pub open spec fn scaled_fraction(value: nat, scale: nat, exponent: int) -> (nat, nat) {
    if exponent >= 0 {
        (value * scale * pow10(exponent as nat), 1)
    } else {
        (value * scale, pow10((-exponent) as nat))
    }
}

/// `value × scale × 10^exponent`, rounded toward zero.
spec fn scaled_floor(value: nat, scale: nat, exponent: int) -> nat {
    if exponent >= 0 {
        value * scale * pow10(exponent as nat)
    } else {
        (value * scale) / pow10((-exponent) as nat)
    }
}

/// A number scaled by the power of two `scale`, as an unsigned byte count.
///
/// The number is first rounded to the nearest `f64`; scaling it is then
/// exact. Where `f64` would overflow, the count is beyond `u64` anyway, and
/// where it would be subnormal, the count is zero either way.
pub open spec fn scaled_count(n: Number, scale: nat) -> u64 {
    match n {
        Number::NotANumber => 0,
        Number::Infinite { negative } => if negative {
            0
        } else {
            u64::MAX
        },
        Number::Finite { negative, digits, exponent } => if negative {
            0
        } else {
            let (p, q) = scaled_fraction(digits_value(digits), scale, exponent);
            saturate(float_floor(p, q))
        },
    }
}

/// The number of bytes in one of the units `dnf` prints.
pub open spec fn unit_scale(unit: Seq<char>) -> Option<nat> {
    if unit == "GiB"@ {
        Some(1073741824)
    } else if unit == "MiB"@ {
        Some(1048576)
    } else if unit == "KiB"@ {
        Some(1024)
    } else if unit == "B"@ {
        Some(1)
    } else {
        None
    }
}

/// The byte count that `number unit` denotes; the number is checked first.
pub open spec fn dnf_size(number: Seq<char>, unit: Seq<char>) -> Result<u64, SizeErrorView> {
    match number_value(number) {
        None => Err(SizeErrorView::InvalidNumber { number }),
        Some(n) => match unit_scale(unit) {
            None => Err(SizeErrorView::UnknownUnit { unit }),
            Some(scale) => Ok(scaled_count(n, scale)),
        },
    }
}

// ---------------------------------------------------------------------------
// Arithmetic facts
proof fn lemma_pow10_add(a: nat, b: nat)
    ensures
        pow10(a + b) == pow10(a) * pow10(b),
    decreases b,
{
    if b > 0 {
        lemma_pow10_add(a, (b - 1) as nat);
        let x = pow10(a) as int;
        let y = pow10((b - 1) as nat) as int;
        assert(pow10(a + b) == 10 * pow10((a + b - 1) as nat));
        assert(pow10(b) == 10 * y);
        assert(pow10((a + b - 1) as nat) == x * y);
        assert(pow10(a + b) == 10 * (x * y));
        assert(10 * (x * y) == x * (10 * y)) by (nonlinear_arith);
    } else {
        assert(pow10(0) == 1);
        assert(a + b == a);
    }
}

proof fn lemma_pow10_pos(n: nat)
    ensures
        pow10(n) >= 1,
    decreases n,
{
    if n > 0 {
        lemma_pow10_pos((n - 1) as nat);
    }
}

proof fn lemma_pow10_mono(a: nat, b: nat)
    requires
        a <= b,
    ensures
        pow10(a) <= pow10(b),
    decreases b,
{
    if a < b {
        lemma_pow10_mono(a, (b - 1) as nat);
        lemma_pow10_pos((b - 1) as nat);
    }
}

proof fn lemma_pow10_constants()
    ensures
        pow10(10) == 10000000000,
        pow10(20) == 100000000000000000000,
{
    reveal_with_fuel(pow10, 21);
}

proof fn lemma_digits_single(c: char)
    ensures
        digits_value(seq![c]) == digit_value(c),
{
    assert(seq![c].drop_last() =~= Seq::<char>::empty());
    assert(seq![c].last() == c);
    assert(digits_value(Seq::<char>::empty()) == 0);
}

proof fn lemma_digits_append(a: Seq<char>, b: Seq<char>)
    ensures
        digits_value(a + b) == digits_value(a) * pow10(b.len()) + digits_value(b),
    decreases b.len(),
{
    if b.len() == 0 {
        assert(a + b =~= a);
        assert(digits_value(b) == 0);
        assert(pow10(0) == 1);
        assert(digits_value(a) * 1 == digits_value(a));
    } else {
        let b1 = b.drop_last();
        assert((a + b).drop_last() =~= a + b1);
        assert((a + b).last() == b.last());
        lemma_digits_append(a, b1);
        let va = digits_value(a) as int;
        let p1 = pow10(b1.len()) as int;
        let vb1 = digits_value(b1) as int;
        let d = digit_value(b.last()) as int;
        assert(pow10(b.len()) == 10 * p1);
        assert((va * p1 + vb1) * 10 + d == va * (10 * p1) + (vb1 * 10 + d)) by (nonlinear_arith);
    }
}

proof fn lemma_all_digits_subrange(s: Seq<char>, a: int, b: int)
    requires
        all_digits(s),
        0 <= a <= b <= s.len(),
    ensures
        all_digits(s.subrange(a, b)),
{
    assert forall|i: int| 0 <= i < b - a implies is_digit(#[trigger] s.subrange(a, b)[i]) by {
        assert(s.subrange(a, b)[i] == s[a + i]);
    }
}

proof fn lemma_digits_bound(s: Seq<char>)
    requires
        all_digits(s),
    ensures
        digits_value(s) < pow10(s.len()),
    decreases s.len(),
{
    if s.len() > 0 {
        let t = s.drop_last();
        lemma_all_digits_subrange(s, 0, s.len() - 1);
        assert(t =~= s.subrange(0, s.len() - 1));
        lemma_digits_bound(t);
        assert(is_digit(s[s.len() - 1]));
        let v = digits_value(t) as int;
        let p = pow10(t.len()) as int;
        let d = digit_value(s.last()) as int;
        assert(v * 10 + d < 10 * p) by (nonlinear_arith)
            requires
                v < p,
                0 <= d <= 9,
        ;
    }
}

proof fn lemma_digits_lower(s: Seq<char>)
    requires
        all_digits(s),
        s.len() > 0,
        !is_zero_digit(s[0]),
    ensures
        digits_value(s) >= pow10((s.len() - 1) as nat),
{
    let head = s.take(1);
    let rest = s.skip(1);
    assert(head + rest =~= s);
    lemma_digits_append(head, rest);
    assert(head =~= seq![s[0]]);
    lemma_digits_single(s[0]);
    assert(is_digit(s[0]));
    let p = pow10(rest.len()) as int;
    let v = digits_value(head) as int;
    assert(v >= 1);
    assert(v * p >= p) by (nonlinear_arith)
        requires
            v >= 1,
            p >= 0,
    ;
}

proof fn lemma_digits_zeros(s: Seq<char>)
    requires
        forall|i: int| 0 <= i < s.len() ==> is_zero_digit(#[trigger] s[i]),
    ensures
        digits_value(s) == 0,
    decreases s.len(),
{
    if s.len() > 0 {
        let t = s.drop_last();
        assert forall|i: int| 0 <= i < t.len() implies is_zero_digit(#[trigger] t[i]) by {
            assert(t[i] == s[i]);
        }
        lemma_digits_zeros(t);
        assert(is_zero_digit(s[s.len() - 1]));
    }
}

// ---------------------------------------------------------------------------
// Scaling a digit string
/// The number of leading zero digits of `digits`.
fn leading_zeros(digits: &Vec<char>) -> (z: usize)
    ensures
        z <= digits@.len(),
        forall|i: int| 0 <= i < z ==> is_zero_digit(#[trigger] digits@[i]),
        z < digits@.len() ==> !is_zero_digit(digits@[z as int]),
{
    let n = digits.len();
    let mut z: usize = 0;
    while z < n && (digits[z] as u32) == 48
        invariant
            z <= n == digits@.len(),
            forall|i: int| 0 <= i < z ==> is_zero_digit(#[trigger] digits@[i]),
        decreases n - z,
    {
        z += 1;
    }
    z
}

/// The value of `digits[from..from + count]` followed by `zeros` zeros.
fn whole_value(digits: &Vec<char>, from: usize, count: usize, zeros: usize) -> (r: u128)
    requires
        all_digits(digits@),
        from + count <= digits@.len(),
        count + zeros <= 20,
    ensures
        r == digits_value(digits@.subrange(from as int, from + count)) * pow10(zeros as nat),
        r < pow10((count + zeros) as nat),
{
    proof {
        lemma_pow10_constants();
    }
    let mut r: u128 = 0;
    let mut i: usize = 0;
    let n = digits.len();
    assert(digits@.subrange(from as int, from as int) =~= Seq::<char>::empty());
    while i < count
        invariant
            n == digits@.len(),
            all_digits(digits@),
            from + count <= digits@.len(),
            count + zeros <= 20,
            i <= count,
            r == digits_value(digits@.subrange(from as int, from + i)),
            r < pow10(i as nat),
            pow10(20) == 100000000000000000000,
        decreases count - i,
    {
        let c = digits[from + i];
        assert(is_digit(c));
        let d = (c as u32 - 48) as u128;
        proof {
            let t = digits@.subrange(from as int, from + i + 1);
            assert(t.drop_last() =~= digits@.subrange(from as int, from + i));
            assert(t.last() == c);
            lemma_pow10_mono((i + 1) as nat, 20);
            assert(r * 10 + d < 10 * pow10(i as nat)) by (nonlinear_arith)
                requires
                    r < pow10(i as nat),
                    d <= 9,
            ;
        }
        r = r * 10 + d;
        i += 1;
    }
    let ghost v = r;
    let mut k: usize = 0;
    while k < zeros
        invariant
            count + zeros <= 20,
            k <= zeros,
            r == v * pow10(k as nat),
            r < pow10((count + k) as nat),
            pow10(20) == 100000000000000000000,
        decreases zeros - k,
    {
        proof {
            lemma_pow10_mono((count + k + 1) as nat, 20);
            let pk = pow10(k as nat) as int;
            assert(v * pk * 10 == v * (10 * pk)) by (nonlinear_arith);
        }
        r = r * 10;
        k += 1;
    }
    r
}

/// One more decimal digit `a` in front of `y`, which has `k` digits:
/// dividing by the next power of ten is dividing `a + y / 10^k` by ten, and
/// it leaves no remainder when neither division does.
proof fn lemma_digit_step(y: int, a: int, k: nat)
    requires
        y >= 0,
        a >= 0,
    ensures
        (a * pow10(k) + y) / pow10(k + 1) as int == (a + y / pow10(k) as int) / 10,
        ((a * pow10(k) + y) % pow10(k + 1) as int == 0) == ((a + y / pow10(k) as int) % 10 == 0
            && y % pow10(k) as int == 0),
{
    let pk = pow10(k) as int;
    lemma_pow10_pos(k);
    assert(pow10(k + 1) == 10 * pow10(k));
    lemma_fundamental_div_mod(y, pk);
    lemma_mod_bound(y, pk);
    lemma_div_pos_is_pos(y, pk);
    let cy = y / pk;
    let ry = y % pk;
    let w = a + cy;
    lemma_fundamental_div_mod(w, 10);
    lemma_mod_bound(w, 10);
    let c2 = w / 10;
    let r2 = w % 10;
    assert(a * pk + y == c2 * (10 * pk) + (r2 * pk + ry)) by (nonlinear_arith)
        requires
            y == pk * cy + ry,
            w == a + cy,
            w == 10 * c2 + r2,
    ;
    assert(0 <= r2 * pk + ry < 10 * pk) by (nonlinear_arith)
        requires
            0 <= r2 < 10,
            0 <= ry < pk,
    ;
    lemma_fundamental_div_mod_converse(a * pk + y, 10 * pk, c2, r2 * pk + ry);
    if r2 > 0 {
        assert(r2 * pk >= pk) by (nonlinear_arith)
            requires
                r2 >= 1,
                pk >= 1,
        ;
    } else {
        assert(r2 * pk == 0) by (nonlinear_arith)
            requires
                r2 == 0,
        ;
    }
}

/// `(digits[from..] × scale × 2^54) / 10^(len + zeros)`: the digits read as
/// a fraction behind `zeros` zeros, scaled, with 54 binary places; and
/// whether that division leaves no remainder.
fn fraction_bits(digits: &Vec<char>, from: usize, zeros: usize, scale: u64) -> (r: (u128, bool))
    requires
        all_digits(digits@),
        from <= digits@.len(),
        1 <= scale <= 1073741824,
    ensures
        ({
            let y = (digits_value(digits@.skip(from as int)) * scale * two_pow(54)) as int;
            let m = pow10((digits@.len() - from + zeros) as nat) as int;
            &&& r.0 == y / m
            &&& r.1 == (y % m == 0)
            &&& r.0 < scale * two_pow(54)
        }),
{
    proof {
        lemma_two_pow_constants();
    }
    let big: u128 = (scale as u128) * 0x40_0000_0000_0000;
    let n = digits.len();
    let mut carry: u128 = 0;
    let mut exact = true;
    let mut j: usize = n;
    proof {
        assert(digits@.subrange(n as int, n as int) =~= Seq::<char>::empty());
        assert(digits_value(Seq::<char>::empty()) == 0);
        assert(pow10(0) == 1);
        assert(0 * big == 0);
        lemma_div_of0(1);
        lemma_mod_self_0(1);
        lemma_small_mod(0, 1);
    }
    while j > from
        invariant
            from <= j <= n == digits@.len(),
            all_digits(digits@),
            1 <= scale <= 1073741824,
            big == scale * 0x40_0000_0000_0000,
            carry == (digits_value(digits@.subrange(j as int, n as int)) * big) as int / pow10(
                (n - j) as nat,
            ) as int,
            exact == ((digits_value(digits@.subrange(j as int, n as int)) * big) as int % pow10(
                (n - j) as nat,
            ) as int == 0),
            carry < big,
        decreases j,
    {
        let c = digits[j - 1];
        assert(is_digit(c));
        let d = (c as u32 - 48) as u128;
        proof {
            let tail = digits@.subrange(j as int, n as int);
            let m = (n - j) as nat;
            assert(digits@.subrange(j - 1, n as int) =~= seq![c] + tail);
            lemma_digits_append(seq![c], tail);
            lemma_digits_single(c);
            let pm = pow10(m) as int;
            let vt = digits_value(tail) as int;
            let bg = big as int;
            assert(vt * bg >= 0) by (nonlinear_arith)
                requires
                    vt >= 0,
                    bg >= 0,
            ;
            assert((d * pm + vt) * bg == (d * bg) * pm + vt * bg) by (nonlinear_arith);
            assert((m + 1) as nat == (n - (j - 1)) as nat);
            lemma_digit_step(vt * bg, d * bg, m);
            assert(d * big + carry <= 10 * big - 1) by (nonlinear_arith)
                requires
                    d <= 9,
                    carry < big,
            ;
        }
        let w = d * big + carry;
        exact = exact && w % 10 == 0;
        carry = w / 10;
        j -= 1;
    }
    let ghost y = (digits_value(digits@.skip(from as int)) * big) as int;
    let ghost len: int = n - from;
    assert(digits@.subrange(from as int, n as int) =~= digits@.skip(from as int));
    let mut k: usize = 0;
    while k < zeros
        invariant
            k <= zeros,
            len >= 0,
            y >= 0,
            carry == y / pow10((len + k) as nat) as int,
            exact == (y % pow10((len + k) as nat) as int == 0),
            carry < big,
        decreases zeros - k,
    {
        proof {
            let m = (len + k) as nat;
            lemma_digit_step(y, 0, m);
            assert(0 * pow10(m) + y == y);
            assert((len + (k + 1)) as nat == m + 1);
            lemma_div_nonincreasing(carry as int, 10);
        }
        exact = exact && carry % 10 == 0;
        carry = carry / 10;
        k += 1;
    }
    proof {
        let fv = digits_value(digits@.skip(from as int));
        assert(fv * scale * two_pow(54) == fv * big) by (nonlinear_arith)
            requires
                big == scale * 0x40_0000_0000_0000,
                two_pow(54) == 0x40_0000_0000_0000,
        ;
    }
    (carry, exact)
}

/// When the point lies at least 21 places right of the first nonzero digit,
/// the scaled value exceeds `u64::MAX`.
proof fn lemma_scaled_large(body: Seq<char>, scale: nat, exact: int)
    requires
        all_digits(body),
        body.len() > 0,
        !is_zero_digit(body[0]),
        scale >= 1,
        body.len() + exact >= 21,
    ensures
        scaled_floor(digits_value(body), scale, exact) > u64::MAX,
{
    let v = digits_value(body) as int;
    let len = body.len() as int;
    lemma_digits_lower(body);
    lemma_pow10_constants();
    let lo = pow10((len - 1) as nat) as int;
    let s = scale as int;
    lemma_pow10_mono(20, (len - 1 + exact) as nat);
    if exact >= 0 {
        lemma_pow10_add((len - 1) as nat, exact as nat);
        let pe = pow10(exact as nat) as int;
        assert(v * s >= v) by (nonlinear_arith)
            requires
                v >= 0,
                s >= 1,
        ;
        lemma_mul_inequality(lo, v * s, pe);
    } else {
        let m = (-exact) as nat;
        let rest = (len - 1 - m) as nat;
        lemma_pow10_add(rest, m);
        lemma_pow10_pos(m);
        let pm = pow10(m) as int;
        let pr = pow10(rest) as int;
        assert(v * s >= v) by (nonlinear_arith)
            requires
                v >= 0,
                s >= 1,
        ;
        lemma_div_is_ordered(pr * pm, v * s, pm);
        lemma_div_by_multiple(pr, pm);
    }
}

/// When the point lies at least 10 places left of the first digit, the
/// scaled value is below one half.
proof fn lemma_scaled_small(body: Seq<char>, scale: nat, exact: int)
    requires
        all_digits(body),
        1 <= scale <= 1073741824,
        body.len() + exact <= -10,
    ensures
        2 * scaled_fraction(digits_value(body), scale, exact).0 < scaled_fraction(
            digits_value(body),
            scale,
            exact,
        ).1,
{
    let v = digits_value(body) as int;
    let len = body.len();
    lemma_digits_bound(body);
    lemma_pow10_constants();
    let m = (-exact) as nat;
    lemma_pow10_add(len, 10);
    lemma_pow10_mono((len + 10) as nat, m);
    let s = scale as int;
    let pl = pow10(len) as int;
    assert(2 * (v * s) < pl * 10000000000) by (nonlinear_arith)
        requires
            0 <= v < pl,
            1 <= s <= 1073741824,
    ;
}

/// The scaled value rounded toward zero is the quotient of its fraction.
proof fn lemma_scaled_floor(value: nat, scale: nat, exponent: int)
    ensures
        scaled_fraction(value, scale, exponent).1 > 0,
        scaled_floor(value, scale, exponent) == scaled_fraction(value, scale, exponent).0
            / scaled_fraction(value, scale, exponent).1,
{
    if exponent >= 0 {
        let x = (value * scale * pow10(exponent as nat)) as int;
        lemma_fundamental_div_mod_converse(x, 1, x, 0);
    } else {
        lemma_pow10_pos((-exponent) as nat);
    }
}

/// A fraction `(base × q + y) / q` taken apart: its whole part and its
/// remainder, and the first binary places of the remainder read from
/// `(y × k) / q`.
proof fn lemma_fraction_parts(base: int, y: int, q: int, k: int)
    requires
        base >= 0,
        y >= 0,
        q > 0,
        k > 0,
    ensures
        (base * q + y) / q == base + y / q,
        (base * q + y) % q == y % q,
        ((y * k) / q) / k == y / q,
        ((y * k) / q) % k == ((y % q) * k) / q,
        ((y * k) % q == 0) == (((y % q) * k) % q == 0),
{
    lemma_fundamental_div_mod(y, q);
    lemma_mod_bound(y, q);
    let a = y / q;
    let r = y % q;
    assert(base * q + y == (base + a) * q + r) by (nonlinear_arith)
        requires
            y == q * a + r,
    ;
    lemma_fundamental_div_mod_converse(base * q + y, q, base + a, r);
    assert(r * k >= 0) by (nonlinear_arith)
        requires
            r >= 0,
            k > 0,
    ;
    lemma_fundamental_div_mod(r * k, q);
    lemma_mod_bound(r * k, q);
    lemma_div_pos_is_pos(r * k, q);
    let g = (r * k) / q;
    let r3 = (r * k) % q;
    assert(g < k) by (nonlinear_arith)
        requires
            r * k == q * g + r3,
            0 <= r3,
            0 <= r < q,
            k > 0,
    ;
    assert(y * k == (a * k + g) * q + r3) by (nonlinear_arith)
        requires
            y == q * a + r,
            r * k == q * g + r3,
    ;
    lemma_fundamental_div_mod_converse(y * k, q, a * k + g, r3);
    lemma_fundamental_div_mod_converse(a * k + g, k, a, g);
}

/// Leading zeros do not change the value.
proof fn lemma_strip_zeros(d: Seq<char>, z: int)
    requires
        0 <= z <= d.len(),
        forall|i: int| 0 <= i < z ==> is_zero_digit(#[trigger] d[i]),
    ensures
        digits_value(d) == digits_value(d.skip(z)),
{
    let lead = d.take(z);
    assert(lead + d.skip(z) =~= d);
    assert forall|i: int| 0 <= i < lead.len() implies is_zero_digit(#[trigger] lead[i]) by {}
    lemma_digits_zeros(lead);
    lemma_digits_append(lead, d.skip(z));
}

/// `digits × scale × 10^exponent` rounded to the nearest `f64`, then
/// toward zero, and clamped.
///
/// `exponent` is exact, or both it and the exact exponent lie beyond ±2^68.
fn scaled_digits(digits: &Vec<char>, exponent: i128, scale: u64, Ghost(exact): Ghost<int>) -> (r: u64)
    requires
        all_digits(digits@),
        1 <= scale <= 1073741824,
        -0x1_0000_0000_0000_0000_0000_0000 < exponent < 0x1_0000_0000_0000_0000_0000_0000,
        exponent == exact || (exponent > 0x10_0000_0000_0000_0000 && exact
            > 0x10_0000_0000_0000_0000) || (exponent < -0x10_0000_0000_0000_0000 && exact
            < -0x10_0000_0000_0000_0000),
    ensures
        r == saturate(
            float_floor(
                scaled_fraction(digits_value(digits@), scale as nat, exact).0,
                scaled_fraction(digits_value(digits@), scale as nat, exact).1,
            ),
        ),
{
    let n = digits.len();
    let z = leading_zeros(digits);
    let ghost d = digits@;
    let ghost body = d.skip(z as int);
    let ghost pp = scaled_fraction(digits_value(d), scale as nat, exact).0;
    let ghost qq = scaled_fraction(digits_value(d), scale as nat, exact).1;
    proof {
        lemma_strip_zeros(d, z as int);
        lemma_all_digits_subrange(d, z as int, n as int);
        assert(body =~= d.subrange(z as int, n as int));
        lemma_scaled_floor(digits_value(d), scale as nat, exact);
        lemma_two_pow_constants();
    }
    if z == n {
        proof {
            assert(body.len() == 0);
            assert(digits_value(d) == 0);
            assert(pp == 0) by (nonlinear_arith)
                requires
                    pp == scaled_fraction(0, scale as nat, exact).0,
            ;
            lemma_float_floor_small(pp, qq);
        }
        return 0;
    }
    let len = n - z;
    assert(body[0] == d[z as int]);
    let p: i128 = len as i128 + exponent;
    if p >= 21 {
        proof {
            lemma_scaled_large(body, scale as nat, exact);
            lemma_scaled_floor(digits_value(body), scale as nat, exact);
            lemma_float_floor_large(pp, qq);
        }
        return u64::MAX;
    }
    if p <= -10 {
        proof {
            assert(body.len() == len);
            assert(len <= usize::MAX);
            lemma_scaled_small(body, scale as nat, exact);
            lemma_float_floor_small(pp, qq);
        }
        return 0;
    }
    assert(exponent == exact);
    let whole: usize = if p <= 0 {
        0
    } else if p >= len as i128 {
        len
    } else {
        p as usize
    };
    let extra: usize = if p > len as i128 {
        (p - len as i128) as usize
    } else {
        0
    };
    let lead: usize = if p < 0 {
        (0 - p) as usize
    } else {
        0
    };
    let int_val = whole_value(digits, z, whole, extra);
    let (c, exact_bits) = fraction_bits(digits, z + whole, lead, scale);
    proof {
        lemma_pow10_constants();
        lemma_pow10_mono((whole + extra) as nat, 20);
    }
    assert(int_val * scale <= 100000000000000000000 * 1073741824) by (nonlinear_arith)
        requires
            int_val < 100000000000000000000,
            1 <= scale <= 1073741824,
    ;
    let i: u128 = int_val * (scale as u128) + c / 0x40_0000_0000_0000;
    let g: u128 = c % 0x40_0000_0000_0000;
    proof {
        let s = scale as int;
        let a = d.subrange(z as int, z + whole);
        let frac = d.skip(z + whole);
        assert(a + frac =~= body);
        lemma_digits_append(a, frac);
        let va = digits_value(a) as int;
        let fv = digits_value(frac) as int;
        let v = digits_value(body) as int;
        let m = (frac.len() + lead) as nat;
        assert((n - (z + whole) + lead) as nat == m);
        lemma_pow10_pos(m);
        let y = fv * s;
        assert(y >= 0) by (nonlinear_arith)
            requires
                y == fv * s,
                fv >= 0,
                s >= 0,
        ;
        if exponent >= 0 {
            assert(frac.len() == 0);
            assert(fv == 0);
            assert(y == 0) by (nonlinear_arith)
                requires
                    y == fv * s,
                    fv == 0,
            ;
            assert(lead == 0);
            assert(pow10(0) == 1);
            assert(v == va);
            assert(int_val == v * pow10(exact as nat));
            assert(qq == 1);
            assert(pp == int_val * s * qq + y) by (nonlinear_arith)
                requires
                    pp == v * s * pow10(exact as nat),
                    int_val == v * pow10(exact as nat),
                    qq == 1,
                    y == 0,
            ;
        } else {
            assert(extra == 0);
            assert(pow10(0) == 1);
            assert(int_val == va * pow10(0));
            assert(va * pow10(0) == va) by (nonlinear_arith)
                requires
                    pow10(0) == 1,
            ;
            assert(int_val == va);
            assert(m == (-exact) as nat);
            assert(qq == pow10(m));
            if p >= 0 {
                assert(lead == 0);
                assert(pp == int_val * s * qq + y) by (nonlinear_arith)
                    requires
                        pp == v * s,
                        v == va * qq + fv,
                        int_val == va,
                        y == fv * s,
                ;
            } else {
                assert(whole == 0);
                assert(a =~= Seq::<char>::empty());
                assert(va == 0);
                assert(v == fv);
                assert(pp == int_val * s * qq + y) by (nonlinear_arith)
                    requires
                        pp == v * s,
                        v == fv,
                        int_val == 0,
                        y == fv * s,
                ;
            }
        }
        assert(int_val * s >= 0) by (nonlinear_arith)
            requires
                int_val >= 0,
                s >= 0,
        ;
        lemma_fraction_parts(int_val * s, y, qq as int, 0x40_0000_0000_0000);
        assert(fv * scale * two_pow(54) == y * 0x40_0000_0000_0000) by (nonlinear_arith)
            requires
                y == fv * s,
                s == scale,
                two_pow(54) == 0x40_0000_0000_0000,
        ;
    }
    rounded_whole(i, g, exact_bits, Ghost(pp), Ghost(qq))
}


// ---------------------------------------------------------------------------
// Reading the text
/// Whether `v[from..]` equals the lower-case ASCII word `word`, ignoring ASCII case.
pub(crate) fn eq_ignore_case_at(v: &Vec<char>, from: usize, word: &str) -> (b: bool)
    requires
        from <= v@.len(),
    ensures
        b == eq_ignore_case(v@.skip(from as int), word@),
{
    let n = v.len();
    let m = word.unicode_len();
    if n - from != m {
        return false;
    }
    let mut i: usize = 0;
    while i < m
        invariant
            n == v@.len(),
            from <= n,
            n - from == m == word@.len(),
            i <= m,
            forall|j: int|
                0 <= j < i ==> (#[trigger] v@.skip(from as int)[j] == word@[j] || (v@.skip(
                    from as int,
                )[j] as u32) + 32 == (word@[j] as u32)),
        decreases m - i,
    {
        let c = v[from + i];
        let w = word.get_char(i);
        assert(v@.skip(from as int)[i as int] == c);
        if !(c == w || (c as u32 as u64) + 32 == (w as u32 as u64)) {
            return false;
        }
        i += 1;
    }
    true
}

/// Index of the first exponent marker in `v[from..]`, or `v.len()`.
fn find_exponent_mark(v: &Vec<char>, from: usize) -> (k: usize)
    requires
        from <= v@.len(),
    ensures
        from <= k <= v@.len(),
        find_first(v@.skip(from as int), exponent_mark_pred()) == k - from,
{
    let n = v.len();
    let mut k = from;
    while k < n && !(v[k] == 'e' || v[k] == 'E')
        invariant
            from <= k <= n == v@.len(),
            forall|j: int| from <= j < k ==> !is_exponent_mark(#[trigger] v@[j]),
        decreases n - k,
    {
        k += 1;
    }
    proof {
        let t = v@.skip(from as int);
        assert forall|j: int| 0 <= j < k - from implies !exponent_mark_pred()(#[trigger] t[j]) by {
            assert(t[j] == v@[from + j]);
        }
        if k < n {
            assert(t[k - from] == v@[k as int]);
        }
        lemma_find_first(t, exponent_mark_pred(), k - from);
    }
    k
}

/// Index of the first decimal point in `v[from..to]`, or `to`.
fn find_point(v: &Vec<char>, from: usize, to: usize) -> (k: usize)
    requires
        from <= to <= v@.len(),
    ensures
        from <= k <= to,
        find_first(v@.subrange(from as int, to as int), point_pred()) == k - from,
{
    let mut k = from;
    while k < to && v[k] != '.'
        invariant
            from <= k <= to <= v@.len(),
            forall|j: int| from <= j < k ==> !is_point(#[trigger] v@[j]),
        decreases to - k,
    {
        k += 1;
    }
    proof {
        let t = v@.subrange(from as int, to as int);
        assert forall|j: int| 0 <= j < k - from implies !point_pred()(#[trigger] t[j]) by {
            assert(t[j] == v@[from + j]);
        }
        if k < to {
            assert(t[k - from] == v@[k as int]);
        }
        lemma_find_first(t, point_pred(), k - from);
    }
    k
}

/// Whether every character of `v[from..to]` is a decimal digit.
fn digits_between(v: &Vec<char>, from: usize, to: usize) -> (b: bool)
    requires
        from <= to <= v@.len(),
    ensures
        b == all_digits(v@.subrange(from as int, to as int)),
{
    let mut k = from;
    while k < to
        invariant
            from <= k <= to <= v@.len(),
            forall|j: int| from <= j < k ==> is_digit(#[trigger] v@[j]),
        decreases to - k,
    {
        let u = v[k] as u32;
        if !(48 <= u && u <= 57) {
            assert(v@.subrange(from as int, to as int)[k - from] == v@[k as int]);
            return false;
        }
        k += 1;
    }
    assert forall|j: int| 0 <= j < to - from implies is_digit(
        #[trigger] v@.subrange(from as int, to as int)[j],
    ) by {
        assert(v@.subrange(from as int, to as int)[j] == v@[from + j]);
    }
    true
}

/// The value of the digits `v[from..to]`, or a value beyond 2^69 when
/// both it and the true value exceed 2^69.
fn capped_digits_value(v: &Vec<char>, from: usize, to: usize) -> (r: u128)
    requires
        from <= to <= v@.len(),
        all_digits(v@.subrange(from as int, to as int)),
    ensures
        r <= 0x200_0000_0000_0000_0000,
        r == digits_value(v@.subrange(from as int, to as int)) || (r > 0x20_0000_0000_0000_0000
            && digits_value(v@.subrange(from as int, to as int)) > 0x20_0000_0000_0000_0000),
{
    let mut acc: u128 = 0;
    let mut k = from;
    assert(v@.subrange(from as int, from as int) =~= Seq::<char>::empty());
    while k < to
        invariant
            from <= k <= to <= v@.len(),
            all_digits(v@.subrange(from as int, to as int)),
            acc <= 0x200_0000_0000_0000_0000,
            acc == digits_value(v@.subrange(from as int, k as int)) || (acc
                > 0x20_0000_0000_0000_0000 && digits_value(v@.subrange(from as int, k as int))
                > 0x20_0000_0000_0000_0000),
        decreases to - k,
    {
        let c = v[k];
        assert(v@.subrange(from as int, to as int)[k - from] == c);
        assert(is_digit(c));
        let d = (c as u32 - 48) as u128;
        let ghost prev = digits_value(v@.subrange(from as int, k as int));
        proof {
            let t = v@.subrange(from as int, k + 1);
            assert(t.drop_last() =~= v@.subrange(from as int, k as int));
            assert(t.last() == c);
        }
        if acc <= 0x20_0000_0000_0000_0000 {
            acc = acc * 10 + d;
        }
        k += 1;
    }
    acc
}

/// The exponent written in `v[from..]`: its sign and its magnitude, the
/// latter exact or, with the exact one, beyond 2^69.
fn exponent_part(v: &Vec<char>, from: usize) -> (r: Option<(bool, u128)>)
    requires
        from <= v@.len(),
    ensures
        match exponent_value(v@.skip(from as int)) {
            None => r is None,
            Some(x) => r matches Some((neg, mag)) && mag <= 0x200_0000_0000_0000_0000 && ((
            if neg {
                -(mag as int)
            } else {
                mag as int
            }) == x || (mag > 0x20_0000_0000_0000_0000 && (if neg {
                x < -0x20_0000_0000_0000_0000
            } else {
                x > 0x20_0000_0000_0000_0000
            }))),
        },
{
    let n = v.len();
    let signed = from < n && (v[from] == '-' || v[from] == '+');
    let negative = from < n && v[from] == '-';
    let ds: usize = if signed {
        from + 1
    } else {
        from
    };
    proof {
        let t = v@.skip(from as int);
        if signed {
            assert(t.drop_first() =~= v@.subrange(ds as int, n as int));
        } else {
            assert(t =~= v@.subrange(ds as int, n as int));
        }
        assert(split_sign(t).1 =~= v@.subrange(ds as int, n as int));
        assert(split_sign(t).0 == negative);
    }
    if !(ds < n && digits_between(v, ds, n)) {
        return None;
    }
    let mag = capped_digits_value(v, ds, n);
    Some((negative, mag))
}

/// A copy of `v[a..b]` followed by `v[c..d]`.
fn concat_ranges(v: &Vec<char>, a: usize, b: usize, c: usize, d: usize) -> (r: Vec<char>)
    requires
        a <= b <= v@.len(),
        c <= d <= v@.len(),
    ensures
        r@ == v@.subrange(a as int, b as int) + v@.subrange(c as int, d as int),
{
    let mut r = slice_of(v, a, b);
    let ghost head = r@;
    let mut i = c;
    while i < d
        invariant
            c <= i <= d <= v@.len(),
            r@ == head + v@.subrange(c as int, i as int),
        decreases d - i,
    {
        r.push(v[i]);
        i += 1;
        assert(r@ =~= head + v@.subrange(c as int, i as int));
    }
    r
}

/// Reads `v[start..]` as a literal written with digits and scales it by `scale`.
fn scaled_finite(v: &Vec<char>, start: usize, negative: bool, scale: u64) -> (r: Option<u64>)
    requires
        start <= v@.len(),
        1 <= scale <= 1073741824,
    ensures
        match finite_number(negative, v@.skip(start as int)) {
            None => r is None,
            Some(n) => r == Some(scaled_count(n, scale as nat)),
        },
{
    let n = v.len();
    let ghost body = v@.skip(start as int);
    let e = find_exponent_mark(v, start);
    let dot = find_point(v, start, e);
    let ghost mantissa = body.take(e - start);
    assert(mantissa =~= v@.subrange(start as int, e as int));
    let frac_from: usize = if dot < e {
        dot + 1
    } else {
        e
    };
    let ghost whole = mantissa.take(dot - start);
    let ghost fraction = if dot < e {
        mantissa.skip(dot - start + 1)
    } else {
        Seq::<char>::empty()
    };
    assert(whole =~= v@.subrange(start as int, dot as int));
    assert(fraction =~= v@.subrange(frac_from as int, e as int));
    if !(digits_between(v, start, dot) && digits_between(v, frac_from, e) && (dot - start) + (e
        - frac_from) > 0) {
        return None;
    }
    let mut exp_negative = false;
    let mut exp_abs: u128 = 0;
    let ghost mut exact_exp: int = 0;
    if e < n {
        assert(body.skip(e - start + 1) =~= v@.skip(e + 1));
        match exponent_part(v, e + 1) {
            None => {
                return None;
            },
            Some((neg, mag)) => {
                exp_negative = neg;
                exp_abs = mag;
                proof {
                    exact_exp = exponent_value(v@.skip(e + 1)).unwrap();
                }
            },
        }
    }
    assert(finite_number(negative, body) == Some(
        Number::Finite { negative, digits: whole + fraction, exponent: exact_exp - fraction.len() },
    ));
    if negative {
        return Some(0);
    }
    let digits = concat_ranges(v, start, dot, frac_from, e);
    let flen = (e - frac_from) as i128;
    let signed: i128 = if exp_negative {
        0 - (exp_abs as i128)
    } else {
        exp_abs as i128
    };
    let exponent = signed - flen;
    proof {
        assert forall|j: int| 0 <= j < digits@.len() implies is_digit(#[trigger] digits@[j]) by {
            if j < whole.len() {
                assert(digits@[j] == whole[j]);
            } else {
                assert(digits@[j] == fraction[j - whole.len()]);
            }
        }
    }
    Some(scaled_digits(&digits, exponent, scale, Ghost(exact_exp - fraction.len())))
}

/// Reads `s` as a floating-point literal and scales it by `scale`.
fn scaled_number(s: &Vec<char>, scale: u64) -> (r: Option<u64>)
    requires
        1 <= scale <= 1073741824,
    ensures
        match number_value(s@) {
            None => r is None,
            Some(n) => r == Some(scaled_count(n, scale as nat)),
        },
{
    let n = s.len();
    let negative = n > 0 && s[0] == '-';
    let start: usize = if n > 0 && (s[0] == '-' || s[0] == '+') {
        1
    } else {
        0
    };
    let ghost body = s@.skip(start as int);
    assert(split_sign(s@) == (negative, body)) by {
        if n > 0 && (s@[0] == '-' || s@[0] == '+') {
            assert(s@.drop_first() =~= body);
        } else {
            assert(s@ =~= body);
        }
    }
    if eq_ignore_case_at(s, start, "inf") || eq_ignore_case_at(s, start, "infinity") {
        return Some(
            if negative {
                0
            } else {
                u64::MAX
            },
        );
    }
    if eq_ignore_case_at(s, start, "nan") {
        return Some(0);
    }
    scaled_finite(s, start, negative, scale)
}

/// A string holding all of `v`.
fn string_all(v: &Vec<char>) -> (r: String)
    ensures
        r@ == v@,
{
    let r = string_of(v, 0, v.len());
    assert(v@.subrange(0, v@.len() as int) =~= v@);
    r
}

/// The number of bytes in `unit`, one of `GiB`, `MiB`, `KiB`, `B`.
fn unit_bytes(unit: &Vec<char>) -> (r: Option<u64>)
    ensures
        match unit_scale(unit@) {
            None => r is None,
            Some(k) => r == Some(k as u64),
        },
        r matches Some(k) ==> 1 <= k <= 1073741824,
{
    if equals_lit(unit, "GiB") {
        Some(1073741824)
    } else if equals_lit(unit, "MiB") {
        Some(1048576)
    } else if equals_lit(unit, "KiB") {
        Some(1024)
    } else if equals_lit(unit, "B") {
        Some(1)
    } else {
        None
    }
}

/// What a size result holds, as character sequences.
pub open spec fn size_result_view(r: Result<u64, SizeError>) -> Result<u64, SizeErrorView> {
    match r {
        Ok(n) => Ok(n),
        Err(e) => Err(e@),
    }
}

/// Reads the size `number unit` from character sequences.
pub fn parse_size_chars(number: &Vec<char>, unit: &Vec<char>) -> (r: Result<u64, SizeError>)
    ensures
        size_result_view(r) == dnf_size(number@, unit@),
{
    // Any valid unit gives the same verdict on the number.
    match scaled_number(number, 1) {
        None => Err(SizeError::InvalidNumber { number: string_all(number) }),
        Some(_) => match unit_bytes(unit) {
            None => Err(SizeError::UnknownUnit { unit: string_all(unit) }),
            Some(scale) => {
                let r = scaled_number(number, scale);
                match r {
                    Some(v) => Ok(v),
                    None => Err(SizeError::InvalidNumber { number: string_all(number) }),
                }
            },
        },
    }
}

/// Reads a size as `dnf` prints it, such as `53` and `MiB`: the number of
/// bytes, rounded toward zero and clamped to the range of `u64`.
pub fn parse_dnf_size(number: &str, unit: &str) -> (r: Result<u64, SizeError>)
    ensures
        size_result_view(r) == dnf_size(number@, unit@),
{
    let n = chars_of(number);
    let u = chars_of(unit);
    parse_size_chars(&n, &u)
}

// ---------------------------------------------------------------------------
// Laws
/// A text of decimal digits is the whole number those digits write.
pub proof fn lemma_digits_number(d: Seq<char>)
    requires
        all_digits(d),
        d.len() > 0,
    ensures
        number_value(d) == Some(Number::Finite { negative: false, digits: d, exponent: 0 }),
{
    assert(is_digit(d[0]));
    assert(d[0] != '-' && d[0] != '+');
    assert(split_sign(d) == (false, d));
    reveal_strlit("inf");
    reveal_strlit("infinity");
    reveal_strlit("nan");
    assert(!eq_ignore_case(d, "inf"@)) by {
        if d.len() == 3 {
            assert(!(d[0] == "inf"@[0] || (d[0] as u32) + 32 == ("inf"@[0] as u32)));
        }
    }
    assert(!eq_ignore_case(d, "infinity"@)) by {
        if d.len() == 8 {
            assert(!(d[0] == "infinity"@[0] || (d[0] as u32) + 32 == ("infinity"@[0] as u32)));
        }
    }
    assert(!eq_ignore_case(d, "nan"@)) by {
        if d.len() == 3 {
            assert(!(d[0] == "nan"@[0] || (d[0] as u32) + 32 == ("nan"@[0] as u32)));
        }
    }
    assert forall|j: int| 0 <= j < d.len() implies !exponent_mark_pred()(#[trigger] d[j]) by {
        assert(is_digit(d[j]));
    }
    lemma_find_first(d, exponent_mark_pred(), d.len() as int);
    assert(d.take(d.len() as int) =~= d);
    assert forall|j: int| 0 <= j < d.len() implies !point_pred()(#[trigger] d[j]) by {
        assert(is_digit(d[j]));
    }
    lemma_find_first(d, point_pred(), d.len() as int);
    assert(d + Seq::<char>::empty() =~= d);
    assert(all_digits(Seq::<char>::empty()));
}

/// The value of a finite number is at most that of another: it is negative,
/// or neither is negative and its fraction is at most the other's.
pub open spec fn number_at_most(x: Number, y: Number) -> bool {
    match (x, y) {
        (
            Number::Finite { negative: nx, digits: dx, exponent: ex },
            Number::Finite { negative: ny, digits: dy, exponent: ey },
        ) => nx || (!ny && ({
            let (px, qx) = scaled_fraction(digits_value(dx), 1, ex);
            let (py, qy) = scaled_fraction(digits_value(dy), 1, ey);
            px * qy <= py * qx
        })),
        _ => false,
    }
}

proof fn lemma_scaled_fraction_scale(value: nat, scale: nat, exponent: int)
    ensures
        scaled_fraction(value, scale, exponent).0 == scaled_fraction(value, 1, exponent).0 * scale,
        scaled_fraction(value, scale, exponent).1 == scaled_fraction(value, 1, exponent).1,
        scaled_fraction(value, scale, exponent).1 > 0,
{
    if exponent >= 0 {
        let pe = pow10(exponent as nat);
        assert(value * scale * pe == value * 1 * pe * scale) by (nonlinear_arith);
    } else {
        lemma_pow10_pos((-exponent) as nat);
        assert(value * scale == value * 1 * scale) by (nonlinear_arith);
    }
}

/// In one unit, a larger number never reads as fewer bytes.
pub proof fn sizes_keep_order(a: Seq<char>, b: Seq<char>, unit: Seq<char>)
    requires
        number_value(a) matches Some(x) && number_value(b) matches Some(y) && number_at_most(x, y),
        unit_scale(unit) is Some,
    ensures
        dnf_size(a, unit) matches Ok(m) && dnf_size(b, unit) matches Ok(n) && m <= n,
{
    let x = number_value(a)->Some_0;
    let y = number_value(b)->Some_0;
    let s = unit_scale(unit)->Some_0;
    if let (
        Number::Finite { negative: nx, digits: dx, exponent: ex },
        Number::Finite { negative: ny, digits: dy, exponent: ey },
    ) = (x, y) {
        if !nx {
            let vx = digits_value(dx);
            let vy = digits_value(dy);
            lemma_scaled_fraction_scale(vx, s, ex);
            lemma_scaled_fraction_scale(vy, s, ey);
            let (px, qx) = scaled_fraction(vx, 1, ex);
            let (py, qy) = scaled_fraction(vy, 1, ey);
            assert((px * s) * qy <= (py * s) * qx) by (nonlinear_arith)
                requires
                    px * qy <= py * qx,
            ;
            lemma_float_floor_mono(
                scaled_fraction(vx, s, ex).0,
                scaled_fraction(vx, s, ex).1,
                scaled_fraction(vy, s, ey).0,
                scaled_fraction(vy, s, ey).1,
            );
        }
    }
}

proof fn lemma_float_floor_times_two_pow(n: nat, k: nat)
    ensures
        float_floor(n * two_pow(k), 1) == float_floor(n, 1) * two_pow(k),
    decreases k,
{
    if k == 0 {
        assert(two_pow(0) == 1);
        assert(n * 1 == n);
        assert(float_floor(n, 1) * 1 == float_floor(n, 1));
    } else {
        let t = two_pow((k - 1) as nat);
        lemma_float_floor_times_two_pow(n, (k - 1) as nat);
        assert(two_pow(k) == 2 * t);
        assert(n * two_pow(k) == 2 * (n * t)) by (nonlinear_arith)
            requires
                two_pow(k) == 2 * t,
        ;
        lemma_float_floor_double(n * t);
        assert(2 * (float_floor(n, 1) * t) == float_floor(n, 1) * two_pow(k)) by (nonlinear_arith)
            requires
                two_pow(k) == 2 * t,
        ;
    }
}

/// A finite number whose value is a whole number (`5`, `5.0`, `5e0`, `-3`).
pub open spec fn is_whole(x: Number) -> bool {
    match x {
        Number::Finite { digits, exponent, .. } => {
            let (p, q) = scaled_fraction(digits_value(digits), 1, exponent);
            p % q == 0
        },
        _ => false,
    }
}

/// A whole number reads as 1024 times as many bytes in the next larger unit
/// (`KiB` against `B`, `MiB` against `KiB`, `GiB` against `MiB`), as long as
/// that count fits in `u64`.
pub proof fn units_differ_by_1024(a: Seq<char>, smaller: Seq<char>, larger: Seq<char>)
    requires
        number_value(a) matches Some(x) && is_whole(x),
        unit_scale(smaller) matches Some(s) && unit_scale(larger) == Some(1024 * s),
    ensures
        dnf_size(a, smaller) matches Ok(k) && (k * 1024 <= u64::MAX ==> dnf_size(a, larger) == Ok::<
            u64,
            SizeErrorView,
        >((k * 1024) as u64)),
{
    let s = unit_scale(smaller)->Some_0;
    if let Number::Finite { negative, digits, exponent } = number_value(a)->Some_0 {
        if !negative {
            let v = digits_value(digits);
            lemma_scaled_fraction_scale(v, s, exponent);
            lemma_scaled_fraction_scale(v, 1024 * s, exponent);
            let p = scaled_fraction(v, 1, exponent).0;
            let q = scaled_fraction(v, 1, exponent).1;
            let n = p / q;
            lemma_fundamental_div_mod(p as int, q as int);
            assert(p == n * q);
            assert(p * s == (n * s) * q && p * (1024 * s) == ((n * s) * 1024) * q) by (nonlinear_arith)
                requires
                    p == n * q,
            ;
            lemma_float_floor_whole_fraction(n * s, q);
            lemma_float_floor_whole_fraction((n * s) * 1024, q);
            reveal_with_fuel(two_pow, 11);
            assert(two_pow(10) == 1024);
            lemma_float_floor_times_two_pow(n * s, 10);
        }
    }
}

} // verus!
