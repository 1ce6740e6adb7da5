//! Character-level text operations: whitespace, lines, words, prefixes.
//!
//! Text is handled as `Seq<char>` in specifications and as `Vec<char>` in
//! executable code; every operation here states its result over the
//! character sequence.
use vstd::prelude::*;

verus! {

/// The Unicode `White_Space` property, as `char::is_whitespace` reports it.
pub open spec fn is_space(c: char) -> bool {
    let u = c as u32;
    ||| 0x09 <= u <= 0x0d
    ||| u == 0x20
    ||| u == 0x85
    ||| u == 0xa0
    ||| u == 0x1680
    ||| 0x2000 <= u <= 0x200a
    ||| u == 0x2028
    ||| u == 0x2029
    ||| u == 0x202f
    ||| u == 0x205f
    ||| u == 0x3000
}

/// Whether `c` is Unicode whitespace.
pub fn is_space_char(c: char) -> (b: bool)
    ensures
        b == is_space(c),
{
    let u = c as u32;
    (0x09 <= u && u <= 0x0d) || u == 0x20 || u == 0x85 || u == 0xa0 || u == 0x1680 || (0x2000
        <= u && u <= 0x200a) || u == 0x2028 || u == 0x2029 || u == 0x202f || u == 0x205f || u
        == 0x3000
}

/// Index of the first character of `s` that satisfies `p`, or `s.len()`.
pub open spec fn find_first(s: Seq<char>, p: spec_fn(char) -> bool) -> nat
    decreases s.len(),
{
    if s.len() == 0 || p(s[0]) {
        0
    } else {
        1 + find_first(s.drop_first(), p)
    }
}

/// `find_first` is the first index where `p` holds (or the length).
pub proof fn lemma_find_first(s: Seq<char>, p: spec_fn(char) -> bool, k: int)
    requires
        0 <= k <= s.len(),
        forall|j: int| 0 <= j < k ==> !p(#[trigger] s[j]),
        k == s.len() || p(s[k]),
    ensures
        find_first(s, p) == k,
    decreases k,
{
    if k > 0 {
        assert(!p(s[0]));
        let t = s.drop_first();
        assert forall|j: int| 0 <= j < k - 1 implies !p(#[trigger] t[j]) by {
            assert(t[j] == s[j + 1]);
        }
        if k < s.len() {
            assert(t[k - 1] == s[k]);
        }
        lemma_find_first(t, p, k - 1);
    }
}

/// `find_first` stays within the sequence, and no earlier character satisfies `p`.
pub proof fn lemma_find_first_bounds(s: Seq<char>, p: spec_fn(char) -> bool)
    ensures
        find_first(s, p) <= s.len(),
        forall|j: int| 0 <= j < find_first(s, p) ==> !p(#[trigger] s[j]),
        find_first(s, p) < s.len() ==> p(s[find_first(s, p) as int]),
    decreases s.len(),
{
    if s.len() > 0 && !p(s[0]) {
        let t = s.drop_first();
        lemma_find_first_bounds(t, p);
        assert forall|j: int| 0 <= j < find_first(s, p) implies !p(#[trigger] s[j]) by {
            if j > 0 {
                assert(s[j] == t[j - 1]);
            }
        }
        if find_first(s, p) < s.len() {
            assert(s[find_first(s, p) as int] == t[find_first(t, p) as int]);
        }
    }
}

/// Whether `c` is a line feed.
pub open spec fn is_newline(c: char) -> bool {
    c == '\n'
}

/// A line without its terminating carriage return, if it has one.
pub open spec fn strip_cr(s: Seq<char>) -> Seq<char> {
    if s.len() > 0 && s.last() == '\r' {
        s.drop_last()
    } else {
        s
    }
}

/// The lines of `s` as `str::lines` yields them: split at each `\n`, a `\r`
/// directly before the `\n` removed, and no empty line after a final `\n`.
pub open spec fn lines(s: Seq<char>) -> Seq<Seq<char>>
    decreases s.len(),
{
    if s.len() == 0 {
        seq![]
    } else {
        let k = find_first(s, |c: char| is_newline(c));
        if k >= s.len() {
            seq![s]
        } else {
            seq![strip_cr(s.take(k as int))] + lines(s.skip(k + 1 as int))
        }
    }
}

/// The views of a sequence of character vectors.
pub open spec fn views(v: Seq<Vec<char>>) -> Seq<Seq<char>> {
    v.map_values(|x: Vec<char>| x@)
}

/// The characters of `s`, in order.
pub fn chars_of(s: &str) -> (r: Vec<char>)
    ensures
        r@ == s@,
{
    let mut r: Vec<char> = Vec::new();
    for c in it: s.chars()
        invariant
            r@ == it.seq().take(it.index() as int),
    {
        r.push(c);
    }
    r
}

/// Appends one character to a string by calling `String::push`, which is
/// trusted here to append exactly `c` and change nothing else.
#[verifier::external_body]
pub(crate) fn push_char(s: &mut String, c: char)
    ensures
        final(s)@ == old(s)@.push(c),
{
    s.push(c);
}

/// A string holding `v[from..to]`.
pub fn string_of(v: &Vec<char>, from: usize, to: usize) -> (r: String)
    requires
        from <= to <= v@.len(),
    ensures
        r@ == v@.subrange(from as int, to as int),
{
    let mut r = String::new();
    let mut i = from;
    while i < to
        invariant
            from <= i <= to <= v@.len(),
            r@ == v@.subrange(from as int, i as int),
        decreases to - i,
    {
        push_char(&mut r, v[i]);
        i += 1;
        assert(r@ =~= v@.subrange(from as int, i as int));
    }
    r
}

/// A copy of `v[from..to]`.
pub fn slice_of(v: &Vec<char>, from: usize, to: usize) -> (r: Vec<char>)
    requires
        from <= to <= v@.len(),
    ensures
        r@ == v@.subrange(from as int, to as int),
{
    let mut r: Vec<char> = Vec::new();
    let mut i = from;
    while i < to
        invariant
            from <= i <= to <= v@.len(),
            r@ == v@.subrange(from as int, i as int),
        decreases to - i,
    {
        r.push(v[i]);
        i += 1;
        assert(r@ =~= v@.subrange(from as int, i as int));
    }
    r
}

/// Appends the characters of `t` to `s`.
pub fn append_chars(s: &mut String, t: &Vec<char>)
    ensures
        final(s)@ == old(s)@ + t@,
{
    let mut i: usize = 0;
    while i < t.len()
        invariant
            i <= t@.len(),
            s@ == old(s)@ + t@.take(i as int),
        decreases t@.len() - i,
    {
        push_char(s, t[i]);
        i += 1;
        assert(s@ =~= old(s)@ + t@.take(i as int));
    }
    assert(t@.take(t@.len() as int) =~= t@);
}

/// Whether `v[from..]` begins with the characters of `lit`.
pub fn has_prefix_at(v: &Vec<char>, from: usize, lit: &str) -> (b: bool)
    requires
        from <= v@.len(),
    ensures
        b == (lit@.len() <= v@.len() - from && v@.subrange(
            from as int,
            from + lit@.len(),
        ) == lit@),
{
    let n = lit.unicode_len();
    if n > v.len() - from {
        return false;
    }
    let mut i: usize = 0;
    while i < n
        invariant
            n == lit@.len(),
            from + n <= v@.len(),
            i <= n,
            forall|j: int| 0 <= j < i ==> v@[from + j] == lit@[j],
        decreases n - i,
    {
        let vlen = v.len();
        assert(from + i < vlen);
        if v[from + i] != lit.get_char(i) {
            assert(v@.subrange(from as int, from + n)[i as int] != lit@[i as int]);
            return false;
        }
        i += 1;
    }
    assert(v@.subrange(from as int, from + n) =~= lit@);
    true
}

/// Whether `v` is exactly the characters of `lit`.
pub fn equals_lit(v: &Vec<char>, lit: &str) -> (b: bool)
    ensures
        b == (v@ == lit@),
{
    let r = v.len() == lit.unicode_len() && has_prefix_at(v, 0, lit);
    proof {
        if v@.len() == lit@.len() {
            assert(v@.subrange(0, v@.len() as int) =~= v@);
        }
    }
    r
}

/// Splits `s` into its lines (`str::lines`).
pub fn split_lines(s: &Vec<char>) -> (r: Vec<Vec<char>>)
    ensures
        views(r@) == lines(s@),
{
    let mut r: Vec<Vec<char>> = Vec::new();
    let mut cur: Vec<char> = Vec::new();
    let mut i: usize = 0;
    let ghost mut start: int = 0;
    assert(s@.skip(0) =~= s@);
    assert(views(r@) + lines(s@) =~= lines(s@));
    while i < s.len()
        invariant
            0 <= start <= i <= s@.len(),
            cur@ == s@.subrange(start, i as int),
            forall|j: int| start <= j < i ==> s@[j] != '\n',
            lines(s@) == views(r@) + lines(s@.skip(start)),
        decreases s@.len() - i,
    {
        let c = s[i];
        if c == '\n' {
            let ghost t = s@.skip(start);
            let ghost k = i - start;
            proof {
                assert forall|j: int| 0 <= j < k implies !is_newline(#[trigger] t[j]) by {
                    assert(t[j] == s@[start + j]);
                }
                assert(t[k] == s@[i as int]);
                lemma_find_first(t, |c: char| is_newline(c), k);
                assert(t.take(k) =~= cur@);
                assert(t.skip(k + 1 as int) =~= s@.skip(i + 1));
            }
            let mut line = cur;
            let n = line.len();
            if n > 0 && line[n - 1] == '\r' {
                line.pop();
            }
            proof {
                assert(line@ == strip_cr(cur@));
                assert(views(r@.push(line)) =~= views(r@) + seq![line@]);
            }
            r.push(line);
            cur = Vec::new();
            proof {
                start = i + 1;
            }
        } else {
            cur.push(c);
        }
        i += 1;
        assert(cur@ =~= s@.subrange(start, i as int));
    }
    let ghost t = s@.skip(start);
    if cur.len() > 0 {
        proof {
            assert(cur@ =~= t);
            assert forall|j: int| 0 <= j < t.len() implies !is_newline(#[trigger] t[j]) by {
                assert(t[j] == s@[start + j]);
            }
            lemma_find_first(t, |c: char| is_newline(c), t.len() as int);
            assert(views(r@.push(cur)) =~= views(r@) + seq![cur@]);
        }
        r.push(cur);
    } else {
        assert(t.len() == 0);
        assert(views(r@) + lines(t) =~= views(r@));
    }
    r
}

/// Whitespace as a predicate value.
pub open spec fn space_pred() -> spec_fn(char) -> bool {
    |c: char| is_space(c)
}

/// The whitespace-separated words of `s` (`str::split_whitespace`).
pub open spec fn words(s: Seq<char>) -> Seq<Seq<char>>
    decreases s.len(),
{
    if s.len() == 0 {
        seq![]
    } else if is_space(s[0]) {
        words(s.drop_first())
    } else {
        let k = find_first(s, space_pred());
        proof {
            lemma_find_first_bounds(s, space_pred());
        }
        if k == 0 {
            seq![]
        } else {
            seq![s.take(k as int)] + words(s.skip(k as int))
        }
    }
}

/// Splits `s` into its whitespace-separated words (`str::split_whitespace`).
pub fn split_words(s: &Vec<char>) -> (r: Vec<Vec<char>>)
    ensures
        views(r@) == words(s@),
{
    let mut r: Vec<Vec<char>> = Vec::new();
    let mut i: usize = 0;
    let n = s.len();
    assert(s@.skip(0) =~= s@);
    assert(views(r@) + words(s@) =~= words(s@));
    while i < n
        invariant
            n == s@.len(),
            i <= n,
            words(s@) == views(r@) + words(s@.skip(i as int)),
        decreases n - i,
    {
        if is_space_char(s[i]) {
            proof {
                let t = s@.skip(i as int);
                assert(t[0] == s@[i as int]);
                assert(t.drop_first() =~= s@.skip(i + 1));
            }
            i += 1;
        } else {
            let start = i;
            let mut j = i + 1;
            while j < n && !is_space_char(s[j])
                invariant
                    n == s@.len(),
                    start < j <= n,
                    forall|m: int| start <= m < j ==> !is_space(#[trigger] s@[m]),
                decreases n - j,
            {
                j += 1;
            }
            let w = slice_of(s, start, j);
            proof {
                let t = s@.skip(start as int);
                let k = j - start;
                assert forall|m: int| 0 <= m < k implies !space_pred()(#[trigger] t[m]) by {
                    assert(t[m] == s@[start + m]);
                }
                if k < t.len() {
                    assert(t[k] == s@[j as int]);
                }
                lemma_find_first(t, space_pred(), k);
                assert(t[0] == s@[start as int]);
                assert(t.take(k) =~= w@);
                assert(t.skip(k) =~= s@.skip(j as int));
                assert(views(r@.push(w)) =~= views(r@) + seq![w@]);
            }
            r.push(w);
            i = j;
        }
    }
    assert(s@.skip(n as int) =~= Seq::<char>::empty());
    assert(views(r@) + words(Seq::<char>::empty()) =~= views(r@));
    r
}

/// `s` without its trailing whitespace (`str::trim_end`).
pub open spec fn trim_end(s: Seq<char>) -> Seq<char>
    decreases s.len(),
{
    if s.len() > 0 && is_space(s.last()) {
        trim_end(s.drop_last())
    } else {
        s
    }
}

/// `s` without its leading whitespace (`str::trim_start`).
pub open spec fn trim_start(s: Seq<char>) -> Seq<char>
    decreases s.len(),
{
    if s.len() > 0 && is_space(s[0]) {
        trim_start(s.drop_first())
    } else {
        s
    }
}

/// `s` without leading and trailing whitespace (`str::trim`).
pub open spec fn trim(s: Seq<char>) -> Seq<char> {
    trim_end(trim_start(s))
}

/// The number of characters left in `v[..to]` once trailing whitespace is removed.
pub fn trim_end_len(v: &Vec<char>, to: usize) -> (k: usize)
    requires
        to <= v@.len(),
    ensures
        k <= to,
        v@.subrange(0, k as int) == trim_end(v@.subrange(0, to as int)),
{
    let mut k = to;
    while k > 0 && is_space_char(v[k - 1])
        invariant
            k <= to <= v@.len(),
            trim_end(v@.subrange(0, k as int)) == trim_end(v@.subrange(0, to as int)),
        decreases k,
    {
        assert(v@.subrange(0, k as int).drop_last() =~= v@.subrange(0, k - 1));
        k -= 1;
    }
    k
}

/// The number of leading whitespace characters of `v[from..]`, added to `from`.
pub fn trim_start_pos(v: &Vec<char>, from: usize) -> (k: usize)
    requires
        from <= v@.len(),
    ensures
        from <= k <= v@.len(),
        v@.skip(k as int) == trim_start(v@.skip(from as int)),
{
    let mut k = from;
    while k < v.len() && is_space_char(v[k])
        invariant
            from <= k <= v@.len(),
            trim_start(v@.skip(k as int)) == trim_start(v@.skip(from as int)),
        decreases v@.len() - k,
    {
        assert(v@.skip(k as int)[0] == v@[k as int]);
        assert(v@.skip(k as int).drop_first() =~= v@.skip(k + 1));
        k += 1;
    }
    k
}

/// Trimming the start drops the leading whitespace and nothing else.
pub proof fn trim_start_law(s: Seq<char>)
    ensures
        exists|i: int|
            0 <= i <= s.len() && trim_start(s) == s.skip(i) && (forall|k: int|
                0 <= k < i ==> is_space(#[trigger] s[k])) && (i < s.len() ==> !is_space(s[i])),
    decreases s.len(),
{
    if s.len() > 0 && is_space(s[0]) {
        trim_start_law(s.drop_first());
        let t = s.drop_first();
        let i = choose|i: int|
            0 <= i <= t.len() && trim_start(t) == t.skip(i) && (forall|k: int|
                0 <= k < i ==> is_space(#[trigger] t[k])) && (i < t.len() ==> !is_space(t[i]));
        assert(t.skip(i) =~= s.skip(i + 1));
        assert forall|k: int| 0 <= k < i + 1 implies is_space(#[trigger] s[k]) by {
            if k > 0 {
                assert(s[k] == t[k - 1]);
            }
        }
        if i + 1 < s.len() {
            assert(s[i + 1] == t[i]);
        }
    } else {
        assert(s.skip(0) =~= s);
    }
}

/// Trimming the end drops the trailing whitespace and nothing else.
pub proof fn trim_end_law(s: Seq<char>)
    ensures
        exists|j: int|
            0 <= j <= s.len() && trim_end(s) == s.take(j) && (forall|k: int|
                j <= k < s.len() ==> is_space(#[trigger] s[k])) && (j > 0 ==> !is_space(s[j - 1])),
    decreases s.len(),
{
    if s.len() > 0 && is_space(s.last()) {
        trim_end_law(s.drop_last());
        let t = s.drop_last();
        let j = choose|j: int|
            0 <= j <= t.len() && trim_end(t) == t.take(j) && (forall|k: int|
                j <= k < t.len() ==> is_space(#[trigger] t[k])) && (j > 0 ==> !is_space(t[j - 1]));
        assert(t.take(j) =~= s.take(j));
        assert forall|k: int| j <= k < s.len() implies is_space(#[trigger] s[k]) by {
            if k < s.len() - 1 {
                assert(s[k] == t[k]);
            }
        }
        if j > 0 {
            assert(s[j - 1] == t[j - 1]);
        }
    } else {
        assert(s.take(s.len() as int) =~= s);
    }
}

/// Trimming keeps a stretch of the text that neither begins nor ends with
/// whitespace, and drops only whitespace around it.
pub proof fn trim_law(s: Seq<char>)
    ensures
        exists|i: int, j: int|
            0 <= i <= j <= s.len() && trim(s) == s.subrange(i, j) && (forall|k: int|
                0 <= k < i ==> is_space(#[trigger] s[k])) && (forall|k: int|
                j <= k < s.len() ==> is_space(#[trigger] s[k])) && (i < j ==> !is_space(s[i])
                && !is_space(s[j - 1])),
{
    trim_start_law(s);
    let i = choose|i: int|
        0 <= i <= s.len() && trim_start(s) == s.skip(i) && (forall|k: int|
            0 <= k < i ==> is_space(#[trigger] s[k])) && (i < s.len() ==> !is_space(s[i]));
    let t = s.skip(i);
    trim_end_law(t);
    let j = choose|j: int|
        0 <= j <= t.len() && trim_end(t) == t.take(j) && (forall|k: int|
            j <= k < t.len() ==> is_space(#[trigger] t[k])) && (j > 0 ==> !is_space(t[j - 1]));
    assert(t.take(j) =~= s.subrange(i, i + j));
    assert forall|k: int| i + j <= k < s.len() implies is_space(#[trigger] s[k]) by {
        assert(s[k] == t[k - i]);
    }
    if j > 0 {
        assert(s[i] == t[0]);
        assert(s[i + j - 1] == t[j - 1]);
        if is_space(s[i]) {
            assert(i < s.len());
        }
    }
    assert(trim(s) == s.subrange(i, i + j));
}

} // verus!
