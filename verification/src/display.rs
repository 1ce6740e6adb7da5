//! Texts of the upgrade summary: sizes, repository names, version changes,
//! column layout and the order of rows.
use vstd::prelude::*;
use crate::text::{push_char, chars_of, string_of, slice_of};
use crate::size::{
    Number,
    SizeErrorView,
    all_digits,
    digit_value,
    digits_value,
    dnf_size,
    is_digit,
    number_value,
    pow10,
    scaled_fraction,
    unit_scale,
};
use crate::float::{round_half_even, lemma_float_floor_whole, lemma_two_pow_constants};

verus! {

// ---------------------------------------------------------------------------
// Numbers as text
/// The ASCII digit for `d < 10`.
pub open spec fn digit_char(d: nat) -> char {
    ((d + 48) as u8) as char
}

/// The decimal digits of `n`, without leading zeros.
pub open spec fn decimal(n: nat) -> Seq<char>
    decreases n,
{
    if n < 10 {
        seq![digit_char(n)]
    } else {
        decimal(n / 10) + seq![digit_char(n % 10)]
    }
}

/// Appends the ASCII digit for `d`.
fn push_digit(s: &mut String, d: u64)
    requires
        d < 10,
    ensures
        final(s)@ == old(s)@ + seq![digit_char(d as nat)],
{
    let c = ((d as u8) + 48) as char;
    push_char(s, c);
    assert(final(s)@ =~= old(s)@ + seq![digit_char(d as nat)]);
}

/// Appends the decimal digits of `n`.
pub fn push_decimal(s: &mut String, n: u64)
    ensures
        final(s)@ == old(s)@ + decimal(n as nat),
    decreases n,
{
    if n < 10 {
        push_digit(s, n);
    } else {
        push_decimal(s, n / 10);
        push_digit(s, n % 10);
        assert(final(s)@ =~= old(s)@ + decimal(n as nat));
    }
}


/// The spacing of `f64` values around `b`: 1 below 2^53, doubling with each
/// further binary digit.
pub open spec fn float_ulp(b: nat) -> nat
    decreases b,
{
    if b < 0x20_0000_0000_0000 {
        1
    } else {
        2 * float_ulp(b / 2)
    }
}

/// The value of `b as f64`: `b` rounded to 53 significant bits, ties to even.
pub open spec fn as_float(b: nat) -> nat {
    round_half_even(b, float_ulp(b)) * float_ulp(b)
}

/// `bytes / unit` in tenths, rounded as `{:.1}` rounds the `f64` quotient.
pub open spec fn tenths(bytes: u64, unit: nat) -> nat {
    round_half_even(as_float(bytes as nat) * 10, unit)
}

/// A count of tenths with one decimal place: `12.5`.
pub open spec fn one_decimal(t: nat) -> Seq<char> {
    decimal(t / 10) + seq!['.'] + decimal(t % 10)
}

/// A byte count as the summary shows it: one decimal place in the largest
/// of GiB, MiB, KiB that it reaches, or whole bytes.
pub open spec fn size_text(bytes: u64) -> Seq<char> {
    if bytes >= 1073741824 {
        one_decimal(tenths(bytes, 1073741824)) + " GiB"@
    } else if bytes >= 1048576 {
        one_decimal(tenths(bytes, 1048576)) + " MiB"@
    } else if bytes >= 1024 {
        one_decimal(tenths(bytes, 1024)) + " KiB"@
    } else {
        decimal(bytes as nat) + " B"@
    }
}

/// `x / d` rounded to the nearest integer, ties to the even one.
fn round_even(x: u128, d: u128) -> (r: u128)
    requires
        0 < d < 0x1_0000_0000_0000_0000_0000_0000_0000,
        x < 0x1_0000_0000_0000_0000_0000_0000_0000,
    ensures
        r == round_half_even(x as nat, d as nat),
        r <= x / d + 1,
{
    let q = x / d;
    let rem = x % d;
    if 2 * rem > d || (2 * rem == d && q % 2 == 1) {
        q + 1
    } else {
        q
    }
}

/// The value of `bytes as f64`, as an integer.
fn float_value(bytes: u64) -> (f: u128)
    ensures
        f == as_float(bytes as nat),
        f <= 0x1_0000_0000_0000_1000,
{
    let mut b = bytes;
    let mut u: u128 = 1;
    while b >= 0x20_0000_0000_0000
        invariant
            float_ulp(bytes as nat) == u * float_ulp(b as nat),
            1 <= u <= 0x1000,
            u * b <= bytes,
        decreases b,
    {
        proof {
            let fb = float_ulp((b / 2) as nat);
            assert(float_ulp(b as nat) == 2 * fb);
            assert(u * (2 * fb) == (u * 2) * fb) by (nonlinear_arith);
            assert((u * 2) * (b / 2) <= u * b) by (nonlinear_arith)
                requires
                    u >= 1,
            ;
            assert(u * 0x20_0000_0000_0000 <= u * b) by (nonlinear_arith)
                requires
                    b >= 0x20_0000_0000_0000,
                    u >= 1,
            ;
            assert(u < 0x800) by (nonlinear_arith)
                requires
                    u * 0x20_0000_0000_0000 <= u * b,
                    u * b <= bytes,
                    bytes < 0x1_0000_0000_0000_0000,
            ;
        }
        b = b / 2;
        u = u * 2;
    }
    assert(u * 1 == u);
    let q = (bytes as u128) / u;
    let rem = (bytes as u128) % u;
    proof {
        assert(q * u <= bytes) by (nonlinear_arith)
            requires
                u >= 1,
                q == (bytes as u128) / u,
        ;
    }
    let r = round_even(bytes as u128, u);
    proof {
        assert(r * u <= q * u + u) by (nonlinear_arith)
            requires
                r <= q + 1,
                u >= 1,
        ;
    }
    r * u
}

/// Appends `t` tenths with one decimal place.
fn push_tenths(s: &mut String, t: u128)
    requires
        t < 0x1_0000_0000_0000_0000,
    ensures
        final(s)@ == old(s)@ + one_decimal(t as nat),
{
    push_decimal(s, (t / 10) as u64);
    push_char(s, '.');
    push_decimal(s, (t % 10) as u64);
    assert(final(s)@ =~= old(s)@ + one_decimal(t as nat));
}

/// `bytes` in tenths of `unit`.
fn tenths_of(bytes: u64, unit: u128) -> (t: u128)
    requires
        1024 <= unit <= 1073741824,
    ensures
        t == tenths(bytes, unit as nat),
        t < 0x1_0000_0000_0000_0000,
{
    let f = float_value(bytes);
    let t = round_even(f * 10, unit);
    proof {
        let x = (f * 10) as int;
        lemma_div_bound(x, unit as int);
    }
    t
}

proof fn lemma_div_bound(x: int, d: int)
    requires
        0 <= x <= 0xA_0000_0000_0000_A000,
        d >= 1024,
    ensures
        x / d < 0xFFFF_FFFF_FFFF_FFFF,
{
    vstd::arithmetic::div_mod::lemma_div_is_ordered_by_denominator(x, 1024, d);
    vstd::arithmetic::div_mod::lemma_div_is_ordered(x, 0xA_0000_0000_0000_A000, 1024);
}

/// A byte count as the summary shows it: `53.0 MiB`, `1.2 GiB`, `512 B`.
pub fn format_size(bytes: u64) -> (r: String)
    ensures
        r@ == size_text(bytes),
{
    let mut s = String::new();
    if bytes >= 1073741824 {
        let t = tenths_of(bytes, 1073741824);
        push_tenths(&mut s, t);
        s.append(" GiB");
    } else if bytes >= 1048576 {
        let t = tenths_of(bytes, 1048576);
        push_tenths(&mut s, t);
        s.append(" MiB");
    } else if bytes >= 1024 {
        let t = tenths_of(bytes, 1024);
        push_tenths(&mut s, t);
        s.append(" KiB");
    } else {
        push_decimal(&mut s, bytes);
        s.append(" B");
    }
    assert(s@ =~= size_text(bytes));
    s
}


// ---------------------------------------------------------------------------
// Repository names
/// An ASCII hexadecimal digit (`u8::is_ascii_hexdigit`).
pub open spec fn is_hex(c: char) -> bool {
    let u = c as u32;
    (48 <= u <= 57) || (65 <= u <= 70) || (97 <= u <= 102)
}

/// A repository name as shown: names of 20 or more hexadecimal digits
/// (such as those of local repositories) become their first two and last
/// two digits around `..`; others are kept.
pub open spec fn shortened_repo(r: Seq<char>) -> Seq<char> {
    if r.len() >= 20 && (forall|i: int| 0 <= i < r.len() ==> is_hex(#[trigger] r[i])) {
        r.take(2) + seq!['.', '.'] + r.skip(r.len() - 2)
    } else {
        r
    }
}

/// A repository name as shown: `0123456789abcdef0123` becomes `01..23`.
pub fn shorten_repo(repo: &str) -> (r: String)
    ensures
        r@ == shortened_repo(repo@),
{
    let v = chars_of(repo);
    let n = v.len();
    let mut all_hex = true;
    let mut i: usize = 0;
    while i < n
        invariant
            n == v@.len(),
            i <= n,
            all_hex == (forall|j: int| 0 <= j < i ==> is_hex(#[trigger] v@[j])),
        decreases n - i,
    {
        let u = v[i] as u32;
        let h = (48 <= u && u <= 57) || (65 <= u && u <= 70) || (97 <= u && u <= 102);
        proof {
            if !h {
                assert(!is_hex(v@[i as int]));
            }
        }
        all_hex = all_hex && h;
        i += 1;
    }
    if n >= 20 && all_hex {
        let mut s = string_of(&v, 0, 2);
        push_char(&mut s, '.');
        push_char(&mut s, '.');
        let tail = slice_of(&v, n - 2, n);
        crate::text::append_chars(&mut s, &tail);
        assert(s@ =~= shortened_repo(repo@));
        s
    } else {
        repo.to_owned()
    }
}

// ---------------------------------------------------------------------------
// Version changes
/// The length of the longest common prefix of `a` and `b`.
pub open spec fn common_prefix_len(a: Seq<char>, b: Seq<char>) -> nat
    decreases a.len(),
{
    if a.len() > 0 && b.len() > 0 && a[0] == b[0] {
        1 + common_prefix_len(a.drop_first(), b.drop_first())
    } else {
        0
    }
}

/// The length of the longest common suffix of `a` and `b`.
pub open spec fn common_suffix_len(a: Seq<char>, b: Seq<char>) -> nat
    decreases a.len(),
{
    if a.len() > 0 && b.len() > 0 && a.last() == b.last() {
        1 + common_suffix_len(a.drop_last(), b.drop_last())
    } else {
        0
    }
}

/// Two texts cut into a common prefix, the two differing middles and a common suffix.
pub struct DiffView {
    pub prefix: Seq<char>,
    pub old_mid: Seq<char>,
    pub new_mid: Seq<char>,
    pub suffix: Seq<char>,
}

/// How `old` and `new` differ: the longest common prefix, then the longest
/// common suffix of what remains, and the middles between them.
pub open spec fn diff_split(old: Seq<char>, new: Seq<char>) -> DiffView {
    let p = common_prefix_len(old, new);
    let o = old.skip(p as int);
    let n = new.skip(p as int);
    let s = common_suffix_len(o, n);
    DiffView {
        prefix: old.take(p as int),
        old_mid: o.take(o.len() - s),
        new_mid: n.take(n.len() - s),
        suffix: o.skip(o.len() - s),
    }
}

/// The parts of a version change, for highlighting what changed.
#[derive(Debug)]
pub struct DiffParts {
    pub prefix: String,
    pub old_mid: String,
    pub new_mid: String,
    pub suffix: String,
}

impl View for DiffParts {
    type V = DiffView;

    open spec fn view(&self) -> DiffView {
        DiffView {
            prefix: self.prefix@,
            old_mid: self.old_mid@,
            new_mid: self.new_mid@,
            suffix: self.suffix@,
        }
    }
}

proof fn lemma_common_prefix(a: Seq<char>, b: Seq<char>, k: int)
    requires
        0 <= k <= a.len(),
        k <= b.len(),
        forall|j: int| 0 <= j < k ==> #[trigger] a[j] == b[j],
        k == a.len() || k == b.len() || a[k] != b[k],
    ensures
        common_prefix_len(a, b) == k,
    decreases k,
{
    if k > 0 {
        assert(a[0] == b[0]);
        let a1 = a.drop_first();
        let b1 = b.drop_first();
        assert forall|j: int| 0 <= j < k - 1 implies #[trigger] a1[j] == b1[j] by {
            assert(a1[j] == a[j + 1]);
            assert(b1[j] == b[j + 1]);
        }
        if k < a.len() && k < b.len() {
            assert(a1[k - 1] == a[k]);
            assert(b1[k - 1] == b[k]);
        }
        lemma_common_prefix(a1, b1, k - 1);
    }
}

proof fn lemma_common_suffix(a: Seq<char>, b: Seq<char>, k: int)
    requires
        0 <= k <= a.len(),
        k <= b.len(),
        forall|j: int| 0 <= j < k ==> #[trigger] a[a.len() - 1 - j] == b[b.len() - 1 - j],
        k == a.len() || k == b.len() || a[a.len() - 1 - k] != b[b.len() - 1 - k],
    ensures
        common_suffix_len(a, b) == k,
    decreases k,
{
    if k > 0 {
        assert(a[a.len() - 1 - 0] == b[b.len() - 1 - 0]);
        let a1 = a.drop_last();
        let b1 = b.drop_last();
        assert forall|j: int| 0 <= j < k - 1 implies #[trigger] a1[a1.len() - 1 - j] == b1[b1.len()
            - 1 - j] by {
            assert(a1[a1.len() - 1 - j] == a[a.len() - 1 - (j + 1)]);
            assert(b1[b1.len() - 1 - j] == b[b.len() - 1 - (j + 1)]);
        }
        if k < a.len() && k < b.len() {
            assert(a1[a1.len() - 1 - (k - 1)] == a[a.len() - 1 - k]);
            assert(b1[b1.len() - 1 - (k - 1)] == b[b.len() - 1 - k]);
        }
        lemma_common_suffix(a1, b1, k - 1);
    }
}

/// Cuts `old` and `new` into their common prefix, the differing middles
/// and their common suffix (`1.2.3-1` and `1.2.4-1` give `1.2.`, `3`, `4`, `-1`).
pub fn split_diff(old: &str, new: &str) -> (r: DiffParts)
    ensures
        r@ == diff_split(old@, new@),
{
    let a = chars_of(old);
    let b = chars_of(new);
    let na = a.len();
    let nb = b.len();
    let mut p: usize = 0;
    while p < na && p < nb && a[p] == b[p]
        invariant
            na == a@.len(),
            nb == b@.len(),
            p <= na,
            p <= nb,
            forall|j: int| 0 <= j < p ==> #[trigger] a@[j] == b@[j],
        decreases na - p,
    {
        p += 1;
    }
    proof {
        lemma_common_prefix(a@, b@, p as int);
    }
    let mut s: usize = 0;
    while s < na - p && s < nb - p && a[na - 1 - s] == b[nb - 1 - s]
        invariant
            na == a@.len(),
            nb == b@.len(),
            p <= na,
            p <= nb,
            s <= na - p,
            s <= nb - p,
            forall|j: int| 0 <= j < s ==> #[trigger] a@[na - 1 - j] == b@[nb - 1 - j],
        decreases na - p - s,
    {
        s += 1;
    }
    proof {
        let o = a@.skip(p as int);
        let n = b@.skip(p as int);
        assert forall|j: int| 0 <= j < s implies #[trigger] o[o.len() - 1 - j] == n[n.len() - 1
            - j] by {
            assert(o[o.len() - 1 - j] == a@[na - 1 - j]);
            assert(n[n.len() - 1 - j] == b@[nb - 1 - j]);
        }
        if s < na - p && s < nb - p {
            assert(o[o.len() - 1 - s] == a@[na - 1 - s]);
            assert(n[n.len() - 1 - s] == b@[nb - 1 - s]);
        }
        lemma_common_suffix(o, n, s as int);
    }
    let r = DiffParts {
        prefix: string_of(&a, 0, p),
        old_mid: string_of(&a, p, na - s),
        new_mid: string_of(&b, p, nb - s),
        suffix: string_of(&a, na - s, na),
    };
    proof {
        let d = diff_split(old@, new@);
        let o = a@.skip(p as int);
        let n = b@.skip(p as int);
        assert(d.prefix =~= r.prefix@);
        assert(d.old_mid =~= r.old_mid@);
        assert(d.new_mid =~= r.new_mid@);
        assert(d.suffix =~= r.suffix@);
    }
    r
}

/// The parts of a version change put back together give both versions, and
/// the cut is as short as possible: the middles do not begin, nor end, with
/// the same character.
pub proof fn lemma_diff_split_parts(old: Seq<char>, new: Seq<char>)
    ensures
        ({
            let d = diff_split(old, new);
            &&& d.prefix + d.old_mid + d.suffix == old
            &&& d.prefix + d.new_mid + d.suffix == new
            &&& (d.old_mid.len() > 0 && d.new_mid.len() > 0) ==> d.old_mid[0] != d.new_mid[0]
            &&& (d.old_mid.len() > 0 && d.new_mid.len() > 0) ==> d.old_mid.last() != d.new_mid.last()
        }),
{
    let p = common_prefix_len(old, new);
    lemma_prefix_facts(old, new);
    let o = old.skip(p as int);
    let n = new.skip(p as int);
    lemma_suffix_facts(o, n);
    let s = common_suffix_len(o, n);
    let d = diff_split(old, new);
    assert(old.take(p as int) =~= new.take(p as int));
    assert(o.skip(o.len() - s) =~= n.skip(n.len() - s)) by {
        assert forall|j: int| 0 <= j < s implies #[trigger] o.skip(o.len() - s)[j] == n.skip(n.len() - s)[j] by {
            let k = s - 1 - j;
            assert(o[o.len() - 1 - k] == n[n.len() - 1 - k]);
        }
    }
    assert(d.prefix + d.old_mid + d.suffix =~= old);
    assert(d.prefix + d.new_mid + d.suffix =~= new);
    if d.old_mid.len() > 0 && d.new_mid.len() > 0 {
        assert(d.old_mid[0] == old[p as int]);
        assert(d.new_mid[0] == new[p as int]);
        assert(d.old_mid.last() == o[o.len() - 1 - s]);
        assert(d.new_mid.last() == n[n.len() - 1 - s]);
    }
}

proof fn lemma_prefix_facts(a: Seq<char>, b: Seq<char>)
    ensures
        common_prefix_len(a, b) <= a.len(),
        common_prefix_len(a, b) <= b.len(),
        forall|j: int| 0 <= j < common_prefix_len(a, b) ==> #[trigger] a[j] == b[j],
        common_prefix_len(a, b) < a.len() && common_prefix_len(a, b) < b.len() ==> a[common_prefix_len(
            a,
            b,
        ) as int] != b[common_prefix_len(a, b) as int],
    decreases a.len(),
{
    if a.len() > 0 && b.len() > 0 && a[0] == b[0] {
        let a1 = a.drop_first();
        let b1 = b.drop_first();
        lemma_prefix_facts(a1, b1);
        let k = common_prefix_len(a, b);
        assert forall|j: int| 0 <= j < k implies #[trigger] a[j] == b[j] by {
            if j > 0 {
                assert(a[j] == a1[j - 1]);
                assert(b[j] == b1[j - 1]);
            }
        }
        if k < a.len() && k < b.len() {
            assert(a[k as int] == a1[k - 1]);
            assert(b[k as int] == b1[k - 1]);
        }
    }
}

proof fn lemma_suffix_facts(a: Seq<char>, b: Seq<char>)
    ensures
        common_suffix_len(a, b) <= a.len(),
        common_suffix_len(a, b) <= b.len(),
        forall|j: int|
            0 <= j < common_suffix_len(a, b) ==> #[trigger] a[a.len() - 1 - j] == b[b.len() - 1 - j],
        common_suffix_len(a, b) < a.len() && common_suffix_len(a, b) < b.len() ==> a[a.len() - 1
            - common_suffix_len(a, b)] != b[b.len() - 1 - common_suffix_len(a, b)],
    decreases a.len(),
{
    if a.len() > 0 && b.len() > 0 && a.last() == b.last() {
        let a1 = a.drop_last();
        let b1 = b.drop_last();
        lemma_suffix_facts(a1, b1);
        let k = common_suffix_len(a, b);
        assert forall|j: int| 0 <= j < k implies #[trigger] a[a.len() - 1 - j] == b[b.len() - 1
            - j] by {
            if j > 0 {
                assert(a[a.len() - 1 - j] == a1[a1.len() - 1 - (j - 1)]);
                assert(b[b.len() - 1 - j] == b1[b1.len() - 1 - (j - 1)]);
            }
        }
        if k < a.len() && k < b.len() {
            assert(a[a.len() - 1 - k] == a1[a1.len() - 1 - (k - 1)]);
            assert(b[b.len() - 1 - k] == b1[b1.len() - 1 - (k - 1)]);
        }
    }
}


// ---------------------------------------------------------------------------
// Laws
proof fn lemma_digit_char(d: nat)
    requires
        d < 10,
    ensures
        is_digit(digit_char(d)),
        digit_value(digit_char(d)) == d,
{
    let c = digit_char(d);
    assert(((d + 48) as u8) as char as u32 == d + 48) by {
        vstd::utf8::char_u32_cast(c, c as u32);
    }
}

proof fn lemma_decimal_digits(n: nat)
    ensures
        all_digits(decimal(n)),
        decimal(n).len() >= 1,
        digits_value(decimal(n)) == n,
    decreases n,
{
    if n < 10 {
        lemma_digit_char(n);
        let s = decimal(n);
        assert(s.drop_last() =~= Seq::<char>::empty());
        assert(digits_value(Seq::<char>::empty()) == 0);
    } else {
        lemma_decimal_digits(n / 10);
        lemma_digit_char(n % 10);
        let s = decimal(n);
        assert(s.drop_last() =~= decimal(n / 10));
        assert(s.last() == digit_char(n % 10));
        assert forall|i: int| 0 <= i < s.len() implies is_digit(#[trigger] s[i]) by {
            if i < s.len() - 1 {
                assert(s[i] == decimal(n / 10)[i]);
            }
        }
    }
}

/// A byte count up to 2^53 written in decimal reads back as itself:
/// `dnf_size` of the digits of `n` with the unit `B` is `n`.
pub proof fn printed_bytes_read_back(n: u64)
    requires
        n <= 0x20_0000_0000_0000,
    ensures
        dnf_size(decimal(n as nat), "B"@) == Ok::<u64, SizeErrorView>(n),
{
    let d = decimal(n as nat);
    lemma_decimal_digits(n as nat);
    crate::size::lemma_digits_number(d);
    reveal_strlit("GiB");
    reveal_strlit("MiB");
    reveal_strlit("KiB");
    reveal_strlit("B");
    assert(number_value(d) == Some(Number::Finite { negative: false, digits: d, exponent: 0 }));
    assert("B"@.len() == 1);
    assert("GiB"@.len() == 3 && "MiB"@.len() == 3 && "KiB"@.len() == 3);
    assert("B"@ != "GiB"@ && "B"@ != "MiB"@ && "B"@ != "KiB"@);
    assert(unit_scale("B"@) == Some(1nat));
    assert(pow10(0) == 1);
    assert(scaled_fraction(n as nat, 1, 0) == (n as nat, 1nat));
    lemma_two_pow_constants();
    lemma_float_floor_whole(n as nat);
}

/// Below 2^53 bytes (where `f64` holds the count exactly) the size shown is
/// the nearest tenth of the unit: it is off by at most half a tenth.
pub proof fn shown_size_is_nearest_tenth(bytes: u64, unit: nat)
    requires
        bytes < 0x20_0000_0000_0000,
        unit > 0,
    ensures
        as_float(bytes as nat) == bytes,
        -(unit as int) <= 2 * (tenths(bytes, unit) * unit - 10 * bytes) <= unit,
{
    assert(float_ulp(bytes as nat) == 1);
    vstd::arithmetic::div_mod::lemma_div_by_multiple(bytes as int, 1);
    vstd::arithmetic::div_mod::lemma_mod_self_0(1);
    vstd::arithmetic::div_mod::lemma_small_mod(0, 1);
    vstd::arithmetic::div_mod::lemma_fundamental_div_mod(bytes as int, 1);
    vstd::arithmetic::div_mod::lemma_mod_bound(bytes as int, 1);
    let x = (bytes * 10) as int;
    let d = unit as int;
    let q = x / d;
    let r = x % d;
    vstd::arithmetic::div_mod::lemma_fundamental_div_mod(x, d);
    vstd::arithmetic::div_mod::lemma_mod_bound(x, d);
    let t = tenths(bytes, unit) as int;
    assert(t == q || t == q + 1);
    if t == q {
        assert(2 * r <= d);
        assert(t * d - x == -r) by (nonlinear_arith)
            requires
                x == d * q + r,
                t == q,
        ;
    } else {
        assert(2 * r >= d);
        assert(t * d - x == d - r) by (nonlinear_arith)
            requires
                x == d * q + r,
                t == q + 1,
        ;
    }
}

} // verus!
