//! Stable insertion sorting, stated once for any ordering, and the facts
//! about the text order that the sorts in this crate rely on.
use vstd::prelude::*;
use crate::stdout::text_less;

verus! {

/// `x` placed into `s` after every element that does not come after it.
pub open spec fn insert_stable<T>(s: Seq<T>, x: T, less: spec_fn(T, T) -> bool) -> Seq<T>
    decreases s.len(),
{
    if s.len() == 0 {
        seq![x]
    } else if less(x, s.last()) {
        insert_stable(s.drop_last(), x, less).push(s.last())
    } else {
        s.push(x)
    }
}

/// `s` sorted by insertion, element after element.
pub open spec fn sort_stable<T>(s: Seq<T>, less: spec_fn(T, T) -> bool) -> Seq<T>
    decreases s.len(),
{
    if s.len() == 0 {
        s
    } else {
        insert_stable(sort_stable(s.drop_last(), less), s.last(), less)
    }
}

/// No element comes after a later one.
pub open spec fn sorted_by<T>(s: Seq<T>, less: spec_fn(T, T) -> bool) -> bool {
    forall|i: int, j: int| 0 <= i < j < s.len() ==> !less(#[trigger] s[j], #[trigger] s[i])
}

/// `less` is a strict weak order: asymmetric, and "not less" is transitive.
pub open spec fn strict_weak_order<T>(less: spec_fn(T, T) -> bool) -> bool {
    &&& forall|a: T, b: T| #[trigger] less(a, b) ==> !less(b, a)
    &&& forall|a: T, b: T, c: T|
        !(#[trigger] less(a, b)) && !(#[trigger] less(b, c)) ==> !(#[trigger] less(a, c))
}

/// Neither comes before the other.
pub open spec fn equivalent<T>(less: spec_fn(T, T) -> bool, a: T, b: T) -> bool {
    !less(a, b) && !less(b, a)
}

proof fn lemma_insert_multiset<T>(s: Seq<T>, x: T, less: spec_fn(T, T) -> bool)
    ensures
        insert_stable(s, x, less).to_multiset() == s.to_multiset().insert(x),
    decreases s.len(),
{
    broadcast use vstd::seq_lib::group_to_multiset_ensures;

    if s.len() == 0 {
        assert(seq![x] =~= s.push(x));
    } else if less(x, s.last()) {
        let t = s.drop_last();
        lemma_insert_multiset(t, x, less);
        assert(t.push(s.last()) =~= s);
        assert(insert_stable(s, x, less).to_multiset() =~= t.to_multiset().insert(x).insert(
            s.last(),
        ));
        assert(s.to_multiset() =~= t.to_multiset().insert(s.last()));
    }
}

proof fn lemma_insert_sorted<T>(s: Seq<T>, x: T, less: spec_fn(T, T) -> bool)
    requires
        strict_weak_order(less),
        sorted_by(s, less),
    ensures
        sorted_by(insert_stable(s, x, less), less),
    decreases s.len(),
{
    broadcast use vstd::seq_lib::group_to_multiset_ensures;

    let r = insert_stable(s, x, less);
    if s.len() == 0 {
    } else if less(x, s.last()) {
        let t = s.drop_last();
        let last = s.last();
        assert(sorted_by(t, less)) by {
            assert forall|i: int, j: int| 0 <= i < j < t.len() implies !less(
                #[trigger] t[j],
                #[trigger] t[i],
            ) by {
                assert(t[i] == s[i] && t[j] == s[j]);
            }
        }
        lemma_insert_sorted(t, x, less);
        lemma_insert_multiset(t, x, less);
        let u = insert_stable(t, x, less);
        assert forall|i: int, j: int| 0 <= i < j < r.len() implies !less(
            #[trigger] r[j],
            #[trigger] r[i],
        ) by {
            if j == r.len() - 1 {
                assert(r[j] == last);
                assert(r[i] == u[i]);
                let e = u[i];
                assert(u.to_multiset().count(e) > 0);
                assert(t.to_multiset().insert(x).count(e) > 0);
                if e != x {
                    assert(t.to_multiset().count(e) > 0);
                    let k = choose|k: int| 0 <= k < t.len() && t[k] == e;
                    assert(s[k] == e);
                    assert(s[s.len() - 1] == last);
                }
            } else {
                assert(r[i] == u[i] && r[j] == u[j]);
            }
        }
    } else {
        assert forall|i: int, j: int| 0 <= i < j < r.len() implies !less(
            #[trigger] r[j],
            #[trigger] r[i],
        ) by {
            if j == r.len() - 1 {
                assert(r[j] == x);
                if i < s.len() - 1 {
                    assert(!less(s[s.len() - 1], s[i]));
                    assert(r[i] == s[i]);
                    assert(!less(x, s[s.len() - 1]));
                }
            } else {
                assert(r[i] == s[i] && r[j] == s[j]);
            }
        }
    }
}

proof fn lemma_insert_filter<T>(
    s: Seq<T>,
    x: T,
    less: spec_fn(T, T) -> bool,
    p: spec_fn(T) -> bool,
    k: T,
)
    requires
        strict_weak_order(less),
        forall|e: T| #[trigger] p(e) == equivalent(less, e, k),
    ensures
        insert_stable(s, x, less).filter(p) == s.push(x).filter(p),
    decreases s.len(),
{
    broadcast use vstd::seq::Seq::lemma_filter_push;

    if s.len() > 0 && less(x, s.last()) {
        let t = s.drop_last();
        let last = s.last();
        lemma_insert_filter(t, x, less, p, k);
        assert(t.push(last) =~= s);
        if p(x) && p(last) {
            assert(!less(x, k) && !less(k, last));
            assert(!less(x, last));
        }
        let u = insert_stable(t, x, less);
        assert(u.push(last).filter(p) == if p(last) {
            u.filter(p).push(last)
        } else {
            u.filter(p)
        });
        assert(t.push(x).filter(p) == if p(x) {
            t.filter(p).push(x)
        } else {
            t.filter(p)
        });
        assert(s.push(x).filter(p) == if p(x) {
            s.filter(p).push(x)
        } else {
            s.filter(p)
        });
        assert(t.push(last).filter(p) == if p(last) {
            t.filter(p).push(last)
        } else {
            t.filter(p)
        });
    } else if s.len() == 0 {
        assert(seq![x] =~= s.push(x));
    }
}

/// Sorting by insertion orders the elements: none comes after a later one.
pub proof fn sort_stable_is_sorted<T>(s: Seq<T>, less: spec_fn(T, T) -> bool)
    requires
        strict_weak_order(less),
    ensures
        sorted_by(sort_stable(s, less), less),
    decreases s.len(),
{
    if s.len() > 0 {
        sort_stable_is_sorted(s.drop_last(), less);
        lemma_insert_sorted(sort_stable(s.drop_last(), less), s.last(), less);
    }
}

/// Sorting by insertion keeps every element, as often as it occurs.
pub proof fn sort_stable_is_permutation<T>(s: Seq<T>, less: spec_fn(T, T) -> bool)
    ensures
        sort_stable(s, less).to_multiset() == s.to_multiset(),
    decreases s.len(),
{
    broadcast use vstd::seq_lib::group_to_multiset_ensures;

    if s.len() > 0 {
        let t = s.drop_last();
        sort_stable_is_permutation(t, less);
        lemma_insert_multiset(sort_stable(t, less), s.last(), less);
        assert(t.push(s.last()) =~= s);
    }
}

/// Sorting by insertion is stable: the elements equivalent to any `k` keep
/// their relative order.
pub proof fn sort_stable_keeps_order_of_equals<T>(
    s: Seq<T>,
    less: spec_fn(T, T) -> bool,
    p: spec_fn(T) -> bool,
    k: T,
)
    requires
        strict_weak_order(less),
        forall|e: T| #[trigger] p(e) == equivalent(less, e, k),
    ensures
        sort_stable(s, less).filter(p) == s.filter(p),
    decreases s.len(),
{
    broadcast use vstd::seq::Seq::lemma_filter_push;

    if s.len() > 0 {
        let t = s.drop_last();
        sort_stable_keeps_order_of_equals(t, less, p, k);
        lemma_insert_filter(sort_stable(t, less), s.last(), less, p, k);
        assert(t.push(s.last()) =~= s);
        assert(sort_stable(t, less).push(s.last()).filter(p) == if p(s.last()) {
            sort_stable(t, less).filter(p).push(s.last())
        } else {
            sort_stable(t, less).filter(p)
        });
        assert(t.push(s.last()).filter(p) == if p(s.last()) {
            t.filter(p).push(s.last())
        } else {
            t.filter(p)
        });
    }
}

// ---------------------------------------------------------------------------
// The text order
/// No text sorts before itself.
pub proof fn text_less_irreflexive(a: Seq<char>)
    ensures
        !text_less(a, a),
    decreases a.len(),
{
    if a.len() > 0 {
        text_less_irreflexive(a.drop_first());
    }
}

/// The text order is transitive.
pub proof fn text_less_transitive(a: Seq<char>, b: Seq<char>, c: Seq<char>)
    requires
        text_less(a, b),
        text_less(b, c),
    ensures
        text_less(a, c),
    decreases a.len(),
{
    if a.len() > 0 && b.len() > 0 && c.len() > 0 {
        if a[0] == b[0] && b[0] == c[0] {
            text_less_transitive(a.drop_first(), b.drop_first(), c.drop_first());
        }
    }
}

/// Of two different texts, one sorts before the other.
pub proof fn text_less_total(a: Seq<char>, b: Seq<char>)
    ensures
        a == b || text_less(a, b) || text_less(b, a),
    decreases a.len(),
{
    if a.len() > 0 && b.len() > 0 && a[0] == b[0] {
        text_less_total(a.drop_first(), b.drop_first());
        if a.drop_first() == b.drop_first() {
            assert(a =~= seq![a[0]] + a.drop_first());
            assert(b =~= seq![b[0]] + b.drop_first());
        }
    } else if a.len() > 0 && b.len() > 0 {
        assert((a[0] as u32) != (b[0] as u32)) by {
            assert(a[0] != b[0]);
            vstd::utf8::char_u32_cast(a[0], a[0] as u32);
            vstd::utf8::char_u32_cast(b[0], b[0] as u32);
        }
    } else if a.len() == 0 && b.len() == 0 {
        assert(a =~= b);
    }
}

/// The text order is asymmetric.
pub proof fn text_less_asymmetric(a: Seq<char>, b: Seq<char>)
    requires
        text_less(a, b),
    ensures
        !text_less(b, a),
{
    if text_less(b, a) {
        text_less_transitive(a, b, a);
        text_less_irreflexive(a);
    }
}

} // verus!
