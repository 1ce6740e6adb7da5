//! The package table described line by line: which lines are package
//! lines, when the table is well formed, and what each package line and its
//! `replacing` line become; and that the reader agrees with this description.
use vstd::prelude::*;
use crate::model::UpdateView;
use crate::size::dnf_size;
use crate::stdout::{
    ParseState,
    has_prefix,
    initial_state,
    new_update,
    normalized_version,
    parsed_updates,
    read_lines,
    replacing_mark,
    sort_by_name_laws,
    step,
    upgrading_heading,
};
use crate::text::{lines, trim_end, words};

verus! {

/// A line that begins with a space: an entry of the current section.
pub open spec fn is_indented(line: Seq<char>) -> bool {
    line.len() > 0 && line[0] == ' '
}

/// Whether the line at `i` lies in an `Upgrading:` section: the last line
/// before it that is not indented trims to `Upgrading:`.
pub open spec fn in_upgrading_at(ls: Seq<Seq<char>>, i: int) -> bool
    decreases i,
{
    if i <= 0 {
        false
    } else if !is_indented(ls[i - 1]) {
        trim_end(ls[i - 1]) == upgrading_heading()
    } else {
        in_upgrading_at(ls, i - 1)
    }
}

/// The line at `i` is a package line: indented, inside an `Upgrading:`
/// section, and not a `replacing` line.
pub open spec fn is_package_line(ls: Seq<Seq<char>>, i: int) -> bool {
    0 <= i < ls.len() && is_indented(ls[i]) && in_upgrading_at(ls, i) && !has_prefix(
        ls[i],
        replacing_mark(),
    )
}

/// The line at `i` is a `replacing` line inside an `Upgrading:` section.
pub open spec fn is_replacing_line(ls: Seq<Seq<char>>, i: int) -> bool {
    0 <= i < ls.len() && in_upgrading_at(ls, i) && has_prefix(ls[i], replacing_mark())
}

/// The fields of a `replacing` line after its mark.
pub open spec fn replacing_fields(line: Seq<char>) -> Seq<Seq<char>> {
    words(line.skip(replacing_mark().len() as int))
}

/// The package line at `i` is well formed: six fields, a size that reads,
/// and right after it a `replacing` line with at least four fields whose
/// first is the package's name.
pub open spec fn good_entry(ls: Seq<Seq<char>>, i: int) -> bool {
    let p = words(ls[i]);
    &&& p.len() == 6
    &&& dnf_size(p[4], p[5]) is Ok
    &&& i + 1 < ls.len()
    &&& has_prefix(ls[i + 1], replacing_mark())
    &&& replacing_fields(ls[i + 1]).len() >= 4
    &&& replacing_fields(ls[i + 1])[0] == p[0]
}

/// The table is well formed: every package line is, and every `replacing`
/// line follows a package line.
pub open spec fn well_formed_table(ls: Seq<Seq<char>>) -> bool {
    &&& forall|i: int| #[trigger] is_package_line(ls, i) ==> good_entry(ls, i)
    &&& forall|i: int| #[trigger] is_replacing_line(ls, i) ==> is_package_line(ls, i - 1)
}

/// The update that the package line at `i` and the `replacing` line after
/// it describe.
pub open spec fn entry_update(ls: Seq<Seq<char>>, i: int) -> UpdateView {
    let p = words(ls[i]);
    let q = replacing_fields(ls[i + 1]);
    UpdateView {
        name: p[0],
        arch: p[1],
        new_version: normalized_version(p[2]),
        new_repo: p[3],
        download_size: dnf_size(p[4], p[5])->Ok_0,
        old_version: normalized_version(q[2]),
        old_repo: q[3],
    }
}

/// The number of package lines before `k`.
pub open spec fn package_count(ls: Seq<Seq<char>>, k: int) -> nat
    decreases k,
{
    if k <= 0 {
        0
    } else {
        package_count(ls, k - 1) + if is_package_line(ls, k - 1) {
            1nat
        } else {
            0nat
        }
    }
}

// ---------------------------------------------------------------------------
// The reader against the description
proof fn lemma_read_push(st: ParseState, s: Seq<Seq<char>>, x: Seq<char>)
    ensures
        read_lines(st, s.push(x)) == match read_lines(st, s) {
            Err(e) => Err(e),
            Ok(t) => step(t, x),
        },
    decreases s.len(),
{
    if s.len() == 0 {
        assert(s.push(x).drop_first() =~= Seq::<Seq<char>>::empty());
        assert(s.push(x)[0] == x);
    } else {
        assert(s.push(x).drop_first() =~= s.drop_first().push(x));
        assert(s.push(x)[0] == s[0]);
        if let Ok(next) = step(st, s[0]) {
            lemma_read_push(next, s.drop_first(), x);
        }
    }
}

/// What the reader holds after the first `k` lines, when it has not failed.
pub open spec fn reader_matches(ls: Seq<Seq<char>>, k: int, st: ParseState) -> bool {
    &&& st.in_upgrading == in_upgrading_at(ls, k)
    &&& st.pending == if k > 0 && is_package_line(ls, k - 1) {
        Some(words(ls[k - 1])[0])
    } else {
        None::<Seq<char>>
    }
    &&& st.updates.len() == package_count(ls, k)
    &&& forall|i: int|
        #[trigger] is_package_line(ls, i) && i + 1 < k ==> st.updates[package_count(ls, i) as int]
            == entry_update(ls, i)
    &&& (k > 0 && is_package_line(ls, k - 1)) ==> st.updates[package_count(ls, k - 1) as int]
        == new_update(words(ls[k - 1]), dnf_size(words(ls[k - 1])[4], words(ls[k - 1])[5])->Ok_0)
    &&& forall|i: int| #[trigger] is_package_line(ls, i) && i + 1 < k ==> good_entry(ls, i)
    &&& forall|i: int|
        #[trigger] is_package_line(ls, i) && i < k ==> words(ls[i]).len() == 6 && dnf_size(
            words(ls[i])[4],
            words(ls[i])[5],
        ) is Ok
    &&& forall|i: int|
        #[trigger] is_replacing_line(ls, i) && i < k ==> is_package_line(ls, i - 1)
}

proof fn lemma_count_mono(ls: Seq<Seq<char>>, i: int, k: int)
    requires
        0 <= i <= k,
    ensures
        package_count(ls, i) <= package_count(ls, k),
        is_package_line(ls, i) && i < k ==> package_count(ls, i) < package_count(ls, k),
    decreases k - i,
{
    if i < k {
        lemma_count_mono(ls, i, k - 1);
    }
}

proof fn lemma_reader_step(ls: Seq<Seq<char>>, k: int, st: ParseState)
    requires
        0 <= k < ls.len(),
        reader_matches(ls, k, st),
    ensures
        match step(st, ls[k]) {
            Ok(next) => reader_matches(ls, k + 1, next),
            Err(_) => !well_formed_table(ls),
        },
{
    let line = ls[k];
    let m = replacing_mark();
    reveal_strlit("   replacing ");
    assert(in_upgrading_at(ls, k + 1) == if !is_indented(line) {
        trim_end(line) == upgrading_heading()
    } else {
        in_upgrading_at(ls, k)
    });
    assert(package_count(ls, k + 1) == package_count(ls, k) + if is_package_line(ls, k) {
        1nat
    } else {
        0nat
    });
    assert(has_prefix(line, m) ==> is_indented(line)) by {
        if has_prefix(line, m) {
            assert(line[0] == line.take(m.len() as int)[0]);
        }
    }
    if k > 0 && is_package_line(ls, k - 1) {
        // A package line waits for its `replacing` line.
        if !(is_indented(line) && has_prefix(line, m)) {
            assert(!good_entry(ls, k - 1));
            assert(is_package_line(ls, k - 1));
            return;
        }
        assert(in_upgrading_at(ls, k) == in_upgrading_at(ls, k - 1));
        assert(is_replacing_line(ls, k));
        let q = words(line.skip(m.len() as int));
        let p = words(ls[k - 1]);
        if q.len() < 4 || q[0] != p[0] {
            assert(!good_entry(ls, k - 1));
            assert(is_package_line(ls, k - 1));
            return;
        }
        if let Ok(next) = step(st, line) {
            lemma_count_mono(ls, k - 1, k);
            assert(!is_package_line(ls, k));
            assert(good_entry(ls, k - 1));
            assert forall|i: int| #[trigger] is_package_line(ls, i) && i + 1 < k + 1 implies next.updates[
                package_count(ls, i) as int] == entry_update(ls, i) by {
                if i < k - 1 {
                    lemma_count_mono(ls, i, k - 1);
                }
            }
            assert forall|i: int| #[trigger] is_replacing_line(ls, i) && i < k + 1 implies is_package_line(
                ls,
                i - 1,
            ) by {}
        }
    } else {
        if !is_indented(line) {
            if let Ok(next) = step(st, line) {
                assert forall|i: int| #[trigger] is_package_line(ls, i) && i + 1 < k + 1 implies next.updates[
                    package_count(ls, i) as int] == entry_update(ls, i) by {}
            }
        } else if !in_upgrading_at(ls, k) {
            assert(!is_package_line(ls, k));
            assert(!is_replacing_line(ls, k));
        } else if has_prefix(line, m) {
            assert(is_replacing_line(ls, k));
            assert(!well_formed_table(ls));
        } else {
            assert(is_package_line(ls, k));
            let p = words(line);
            if p.len() != 6 || dnf_size(p[4], p[5]) is Err {
                assert(!good_entry(ls, k));
                return;
            }
            if let Ok(next) = step(st, line) {
                assert forall|i: int| #[trigger] is_package_line(ls, i) && i + 1 < k + 1 implies next.updates[
                    package_count(ls, i) as int] == entry_update(ls, i) by {
                    lemma_count_mono(ls, i, k);
                }
            }
        }
    }
}

proof fn lemma_reader_prefix(ls: Seq<Seq<char>>, k: int)
    requires
        0 <= k <= ls.len(),
    ensures
        match read_lines(initial_state(), ls.take(k)) {
            Ok(st) => reader_matches(ls, k, st),
            Err(_) => !well_formed_table(ls),
        },
    decreases k,
{
    if k == 0 {
        assert(ls.take(0) =~= Seq::<Seq<char>>::empty());
    } else {
        lemma_reader_prefix(ls, k - 1);
        assert(ls.take(k) =~= ls.take(k - 1).push(ls[k - 1]));
        lemma_read_push(initial_state(), ls.take(k - 1), ls[k - 1]);
        if let Ok(st) = read_lines(initial_state(), ls.take(k - 1)) {
            lemma_reader_step(ls, k - 1, st);
        }
    }
}

/// The package table is read without error exactly when it is well formed;
/// then it gives one update per package line, each the update that the
/// package line and its `replacing` line describe, sorted by name.
pub proof fn parsed_table_laws(stdout: Seq<char>)
    ensures
        ({
            let ls = lines(stdout);
            &&& (parsed_updates(stdout) is Ok) == well_formed_table(ls)
            &&& parsed_updates(stdout) matches Ok(v) ==> {
                &&& v.len() == package_count(ls, ls.len() as int)
                &&& forall|i: int| #[trigger] is_package_line(ls, i) ==> v.contains(entry_update(ls, i))
            }
        }),
{
    let ls = lines(stdout);
    let n = ls.len() as int;
    lemma_reader_prefix(ls, n);
    assert(ls.take(n) =~= ls);
    if let Ok(st) = read_lines(initial_state(), ls) {
        if n > 0 && is_package_line(ls, n - 1) {
            assert(!good_entry(ls, n - 1));
        } else {
            assert(well_formed_table(ls));
            let v = crate::stdout::sort_by_name(st.updates);
            sort_by_name_laws(st.updates, Seq::empty());
            vstd::seq_lib::to_multiset_len(v);
            vstd::seq_lib::to_multiset_len(st.updates);
            assert forall|i: int| #[trigger] is_package_line(ls, i) implies v.contains(
                entry_update(ls, i),
            ) by {
                lemma_count_mono(ls, i, n);
                let u = entry_update(ls, i);
                assert(st.updates[package_count(ls, i) as int] == u);
                assert(st.updates.contains(u));
                vstd::seq_lib::to_multiset_contains(st.updates, u);
                vstd::seq_lib::to_multiset_contains(v, u);
            }
        }
    }
}

} // verus!
