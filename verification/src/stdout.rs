//! The package table that `dnf upgrade --assumeno` prints on standard output.
//!
//! Only the `Upgrading:` section is read. Each package line there has six
//! fields (name, architecture, new version, repository, size number, size
//! unit) and must be followed by a `   replacing ` line that names the same
//! package and gives, in its third and fourth fields, the installed version
//! and its repository.
use vstd::prelude::*;
use crate::model::{PackageUpdate, UpdateView, update_views};
use crate::order::{
    equivalent,
    insert_stable,
    sort_stable,
    sort_stable_is_permutation,
    sort_stable_is_sorted,
    sort_stable_keeps_order_of_equals,
    strict_weak_order,
    text_less_asymmetric,
    text_less_irreflexive,
    text_less_total,
    text_less_transitive,
};
use crate::size::{SizeError, SizeErrorView, dnf_size, parse_size_chars};
use crate::text::{
    lines,
    words,
    trim_end,
    views,
    chars_of,
    split_lines,
    split_words,
    string_of,
    has_prefix_at,
    trim_end_len,
    equals_lit,
};

verus! {

/// Why the package table could not be read.
#[derive(Debug)]
pub enum UpdateParseError {
    /// A section ended while a package waited for its `replacing` line.
    SectionEnded { name: String },
    /// A `replacing` line with no package line before it.
    UnexpectedReplacing { line: String },
    /// A `replacing` line with fewer than four fields.
    ReplacingFields { name: String, count: usize, line: String },
    /// A `replacing` line that names another package.
    ReplacingName { found: String, expected: String },
    /// A package line where a `replacing` line was expected.
    ExpectedReplacing { name: String, line: String },
    /// A package line without exactly six fields.
    PackageFields { count: usize, line: String },
    /// A package line whose size cannot be read.
    Size { line: String, error: SizeError },
    /// The output ended while a package waited for its `replacing` line.
    OutputEnded { name: String },
}

/// What an `UpdateParseError` holds, as character sequences.
pub enum UpdateErrorView {
    SectionEnded { name: Seq<char> },
    UnexpectedReplacing { line: Seq<char> },
    ReplacingFields { name: Seq<char>, count: nat, line: Seq<char> },
    ReplacingName { found: Seq<char>, expected: Seq<char> },
    ExpectedReplacing { name: Seq<char>, line: Seq<char> },
    PackageFields { count: nat, line: Seq<char> },
    Size { line: Seq<char>, error: SizeErrorView },
    OutputEnded { name: Seq<char> },
}

impl View for UpdateParseError {
    type V = UpdateErrorView;

    open spec fn view(&self) -> UpdateErrorView {
        match self {
            UpdateParseError::SectionEnded { name } => UpdateErrorView::SectionEnded { name: name@ },
            UpdateParseError::UnexpectedReplacing { line } => UpdateErrorView::UnexpectedReplacing {
                line: line@,
            },
            UpdateParseError::ReplacingFields { name, count, line } =>
                UpdateErrorView::ReplacingFields { name: name@, count: *count as nat, line: line@ },
            UpdateParseError::ReplacingName { found, expected } => UpdateErrorView::ReplacingName {
                found: found@,
                expected: expected@,
            },
            UpdateParseError::ExpectedReplacing { name, line } =>
                UpdateErrorView::ExpectedReplacing { name: name@, line: line@ },
            UpdateParseError::PackageFields { count, line } => UpdateErrorView::PackageFields {
                count: *count as nat,
                line: line@,
            },
            UpdateParseError::Size { line, error } => UpdateErrorView::Size {
                line: line@,
                error: error@,
            },
            UpdateParseError::OutputEnded { name } => UpdateErrorView::OutputEnded { name: name@ },
        }
    }
}

/// `v` without a leading epoch `0:`.
pub open spec fn normalized_version(v: Seq<char>) -> Seq<char> {
    if v.len() >= 2 && v[0] == '0' && v[1] == ':' {
        v.skip(2)
    } else {
        v
    }
}

/// `line` begins with `prefix`.
pub open spec fn has_prefix(line: Seq<char>, prefix: Seq<char>) -> bool {
    prefix.len() <= line.len() && line.take(prefix.len() as int) == prefix
}

/// The text that introduces the installed version of the package above.
pub open spec fn replacing_mark() -> Seq<char> {
    "   replacing "@
}

/// The heading of the section that lists upgrades.
pub open spec fn upgrading_heading() -> Seq<char> {
    "Upgrading:"@
}

/// Where the reading stands between two lines.
pub struct ParseState {
    /// The packages read so far, in output order.
    pub updates: Seq<UpdateView>,
    /// Whether the current section is `Upgrading:`.
    pub in_upgrading: bool,
    /// The last package read, while its `replacing` line is still due.
    pub pending: Option<Seq<char>>,
}

/// The state before the first line.
pub open spec fn initial_state() -> ParseState {
    ParseState { updates: Seq::empty(), in_upgrading: false, pending: None }
}

/// The update that a package line with fields `parts` and size `size` describes.
pub open spec fn new_update(parts: Seq<Seq<char>>, size: u64) -> UpdateView {
    UpdateView {
        name: parts[0],
        arch: parts[1],
        old_version: Seq::empty(),
        new_version: normalized_version(parts[2]),
        old_repo: Seq::empty(),
        new_repo: parts[3],
        download_size: size,
    }
}

/// `u` with the installed version and repository that `parts` gives.
pub open spec fn replaced(u: UpdateView, parts: Seq<Seq<char>>) -> UpdateView {
    UpdateView { old_version: normalized_version(parts[2]), old_repo: parts[3], ..u }
}

/// Reading a `replacing` line whose text after the mark is `rest`.
pub open spec fn step_replacing(st: ParseState, line: Seq<char>, rest: Seq<char>) -> Result<
    ParseState,
    UpdateErrorView,
> {
    match st.pending {
        None => Err(UpdateErrorView::UnexpectedReplacing { line }),
        Some(name) => {
            let parts = words(rest);
            if parts.len() < 4 {
                Err(UpdateErrorView::ReplacingFields { name, count: parts.len(), line })
            } else if parts[0] != name {
                Err(UpdateErrorView::ReplacingName { found: parts[0], expected: name })
            } else {
                let k = st.updates.len() - 1;
                Ok(
                    ParseState {
                        updates: st.updates.update(k, replaced(st.updates[k], parts)),
                        in_upgrading: st.in_upgrading,
                        pending: None,
                    },
                )
            }
        },
    }
}

/// Reading a package line.
pub open spec fn step_package(st: ParseState, line: Seq<char>) -> Result<
    ParseState,
    UpdateErrorView,
> {
    match st.pending {
        Some(name) => Err(UpdateErrorView::ExpectedReplacing { name, line }),
        None => {
            let parts = words(line);
            if parts.len() != 6 {
                Err(UpdateErrorView::PackageFields { count: parts.len(), line })
            } else {
                match dnf_size(parts[4], parts[5]) {
                    Err(error) => Err(UpdateErrorView::Size { line, error }),
                    Ok(size) => Ok(
                        ParseState {
                            updates: st.updates.push(new_update(parts, size)),
                            in_upgrading: st.in_upgrading,
                            pending: Some(parts[0]),
                        },
                    ),
                }
            }
        },
    }
}

/// Reading one line: a line that does not begin with a space starts a
/// section; indented lines count only inside `Upgrading:`.
pub open spec fn step(st: ParseState, line: Seq<char>) -> Result<ParseState, UpdateErrorView> {
    if !(line.len() > 0 && line[0] == ' ') {
        match st.pending {
            Some(name) => Err(UpdateErrorView::SectionEnded { name }),
            None => Ok(
                ParseState {
                    updates: st.updates,
                    in_upgrading: trim_end(line) == upgrading_heading(),
                    pending: None,
                },
            ),
        }
    } else if !st.in_upgrading {
        Ok(st)
    } else if has_prefix(line, replacing_mark()) {
        step_replacing(st, line, line.skip(replacing_mark().len() as int))
    } else {
        step_package(st, line)
    }
}

/// Reading `ls` in order from `st`, stopping at the first error.
pub open spec fn read_lines(st: ParseState, ls: Seq<Seq<char>>) -> Result<ParseState, UpdateErrorView>
    decreases ls.len(),
{
    if ls.len() == 0 {
        Ok(st)
    } else {
        match step(st, ls[0]) {
            Err(e) => Err(e),
            Ok(next) => read_lines(next, ls.drop_first()),
        }
    }
}

/// Whether `a` sorts strictly before `b`, as `str` orders text.
pub open spec fn text_less(a: Seq<char>, b: Seq<char>) -> bool
    decreases a.len(),
{
    if a.len() == 0 {
        b.len() > 0
    } else if b.len() == 0 {
        false
    } else if (a[0] as u32) < (b[0] as u32) {
        true
    } else if a[0] == b[0] {
        text_less(a.drop_first(), b.drop_first())
    } else {
        false
    }
}

/// `x` placed into `s` after every update whose name does not sort after its own.
pub open spec fn insert_by_name(s: Seq<UpdateView>, x: UpdateView) -> Seq<UpdateView>
    decreases s.len(),
{
    if s.len() == 0 {
        seq![x]
    } else if text_less(x.name, s.last().name) {
        insert_by_name(s.drop_last(), x).push(s.last())
    } else {
        s.push(x)
    }
}

/// `s` stably sorted by name.
pub open spec fn sort_by_name(s: Seq<UpdateView>) -> Seq<UpdateView>
    decreases s.len(),
{
    if s.len() == 0 {
        s
    } else {
        insert_by_name(sort_by_name(s.drop_last()), s.last())
    }
}

/// What the package table in `stdout` describes: its updates sorted by name,
/// or the first error met.
pub open spec fn parsed_updates(stdout: Seq<char>) -> Result<Seq<UpdateView>, UpdateErrorView> {
    match read_lines(initial_state(), lines(stdout)) {
        Err(e) => Err(e),
        Ok(st) => match st.pending {
            Some(name) => Err(UpdateErrorView::OutputEnded { name }),
            None => Ok(sort_by_name(st.updates)),
        },
    }
}

/// What a parse result holds, as views.
pub open spec fn parse_result_view(r: Result<Vec<PackageUpdate>, UpdateParseError>) -> Result<
    Seq<UpdateView>,
    UpdateErrorView,
> {
    match r {
        Ok(v) => Ok(update_views(v@)),
        Err(e) => Err(e@),
    }
}


// ---------------------------------------------------------------------------
// Reading
/// `v` without a leading epoch `0:`.
fn normalized_chars(v: &Vec<char>) -> (r: String)
    ensures
        r@ == normalized_version(v@),
{
    if v.len() >= 2 && v[0] == '0' && v[1] == ':' {
        let r = string_of(v, 2, v.len());
        assert(v@.skip(2) =~= v@.subrange(2, v@.len() as int));
        r
    } else {
        let r = string_of(v, 0, v.len());
        assert(v@ =~= v@.subrange(0, v@.len() as int));
        r
    }
}

/// A version without a leading epoch `0:` (`0:1.2-3` becomes `1.2-3`).
pub fn normalize_version(v: &str) -> (r: String)
    ensures
        r@ == normalized_version(v@),
{
    let c = chars_of(v);
    normalized_chars(&c)
}

/// A string holding all of `v`.
fn text_of(v: &Vec<char>) -> (r: String)
    ensures
        r@ == v@,
{
    let r = string_of(v, 0, v.len());
    assert(v@.subrange(0, v@.len() as int) =~= v@);
    r
}

/// The reader's state between two lines.
struct Reader {
    updates: Vec<PackageUpdate>,
    in_upgrading: bool,
    pending: Option<String>,
}

impl View for Reader {
    type V = ParseState;

    closed spec fn view(&self) -> ParseState {
        ParseState {
            updates: update_views(self.updates@),
            in_upgrading: self.in_upgrading,
            pending: match self.pending {
                Some(s) => Some(s@),
                None => None,
            },
        }
    }
}

impl Reader {
    /// Reads a `replacing` line; its text after the mark starts at `from`.
    fn read_replacing(&mut self, line: &Vec<char>, from: usize) -> (r: Result<(), UpdateParseError>)
        requires
            from <= line@.len(),
            old(self)@.pending is Some ==> old(self)@.updates.len() > 0,
        ensures
            match step_replacing(old(self)@, line@, line@.skip(from as int)) {
                Ok(st) => r is Ok && final(self)@ == st,
                Err(e) => r matches Err(x) && x@ == e,
            },
    {
        let name = match &self.pending {
            None => {
                return Err(UpdateParseError::UnexpectedReplacing { line: text_of(line) });
            },
            Some(name) => name.clone(),
        };
        let rest = string_of(line, from, line.len());
        assert(rest@ =~= line@.skip(from as int));
        let rest_chars = crate::text::slice_of(line, from, line.len());
        let parts = split_words(&rest_chars);
        assert(rest_chars@ =~= line@.skip(from as int));
        if parts.len() < 4 {
            return Err(
                UpdateParseError::ReplacingFields {
                    name,
                    count: parts.len(),
                    line: text_of(line),
                },
            );
        }
        let found = text_of(&parts[0]);
        assert(views(parts@)[0] == parts@[0]@);
        if !(found == name) {
            return Err(UpdateParseError::ReplacingName { found, expected: name });
        }
        let old_version = normalized_chars(&parts[2]);
        let old_repo = text_of(&parts[3]);
        assert(views(parts@)[2] == parts@[2]@);
        assert(views(parts@)[3] == parts@[3]@);
        let mut u = self.updates.pop().unwrap();
        u.old_version = old_version;
        u.old_repo = old_repo;
        self.updates.push(u);
        self.pending = None;
        proof {
            let k = old(self)@.updates.len() - 1;
            assert(update_views(self.updates@) =~= old(self)@.updates.update(
                k,
                replaced(old(self)@.updates[k], words(line@.skip(from as int))),
            ));
        }
        Ok(())
    }

    /// Reads a package line.
    fn read_package(&mut self, line: &Vec<char>) -> (r: Result<(), UpdateParseError>)
        ensures
            match step_package(old(self)@, line@) {
                Ok(st) => r is Ok && final(self)@ == st,
                Err(e) => r matches Err(x) && x@ == e,
            },
    {
        match &self.pending {
            Some(name) => {
                return Err(
                    UpdateParseError::ExpectedReplacing { name: name.clone(), line: text_of(line) },
                );
            },
            None => {},
        }
        let parts = split_words(line);
        if parts.len() != 6 {
            return Err(UpdateParseError::PackageFields { count: parts.len(), line: text_of(line) });
        }
        assert(forall|i: int| 0 <= i < 6 ==> #[trigger] views(parts@)[i] == parts@[i]@);
        let size = match parse_size_chars(&parts[4], &parts[5]) {
            Err(error) => {
                return Err(UpdateParseError::Size { line: text_of(line), error });
            },
            Ok(size) => size,
        };
        let u = PackageUpdate {
            name: text_of(&parts[0]),
            arch: text_of(&parts[1]),
            old_version: String::new(),
            new_version: normalized_chars(&parts[2]),
            old_repo: String::new(),
            new_repo: text_of(&parts[3]),
            download_size: size,
        };
        self.updates.push(u);
        self.pending = Some(text_of(&parts[0]));
        proof {
            assert(update_views(self.updates@) =~= old(self)@.updates.push(
                new_update(words(line@), size),
            ));
        }
        Ok(())
    }

    /// Reads one line.
    fn read_line(&mut self, line: &Vec<char>) -> (r: Result<(), UpdateParseError>)
        requires
            old(self)@.pending is Some ==> old(self)@.updates.len() > 0,
        ensures
            match step(old(self)@, line@) {
                Ok(st) => r is Ok && final(self)@ == st,
                Err(e) => r matches Err(x) && x@ == e,
            },
            r is Ok ==> (final(self)@.pending is Some ==> final(self)@.updates.len() > 0),
    {
        if !(line.len() > 0 && line[0] == ' ') {
            match &self.pending {
                Some(name) => {
                    return Err(UpdateParseError::SectionEnded { name: name.clone() });
                },
                None => {},
            }
            let k = trim_end_len(line, line.len());
            let heading = crate::text::slice_of(line, 0, k);
            assert(line@.subrange(0, line@.len() as int) =~= line@);
            self.in_upgrading = equals_lit(&heading, "Upgrading:");
            return Ok(());
        }
        if !self.in_upgrading {
            return Ok(());
        }
        if has_prefix_at(line, 0, "   replacing ") {
            let m = "   replacing ".unicode_len();
            assert(line@.subrange(0, m as int) == line@.take(m as int));
            self.read_replacing(line, m)
        } else {
            proof {
                if replacing_mark().len() <= line@.len() {
                    assert(line@.subrange(0, replacing_mark().len() as int) == line@.take(
                        replacing_mark().len() as int,
                    ));
                }
            }
            self.read_package(line)
        }
    }
}


// ---------------------------------------------------------------------------
// Sorting
/// Whether `a` sorts strictly before `b`.
pub fn less_text(a: &Vec<char>, b: &Vec<char>) -> (r: bool)
    ensures
        r == text_less(a@, b@),
{
    let mut i: usize = 0;
    assert(a@.skip(0) =~= a@);
    assert(b@.skip(0) =~= b@);
    while i < a.len() && i < b.len() && a[i] == b[i]
        invariant
            i <= a@.len(),
            i <= b@.len(),
            text_less(a@, b@) == text_less(a@.skip(i as int), b@.skip(i as int)),
        decreases a@.len() - i,
    {
        proof {
            let x = a@.skip(i as int);
            let y = b@.skip(i as int);
            assert(x[0] == a@[i as int]);
            assert(y[0] == b@[i as int]);
            assert(x.drop_first() =~= a@.skip(i + 1));
            assert(y.drop_first() =~= b@.skip(i + 1));
        }
        i += 1;
    }
    let ghost x = a@.skip(i as int);
    let ghost y = b@.skip(i as int);
    if i == a.len() {
        i < b.len()
    } else if i == b.len() {
        false
    } else {
        assert(x[0] == a@[i as int]);
        assert(y[0] == b@[i as int]);
        (a[i] as u32) < (b[i] as u32)
    }
}

/// Places `x` into the sorted `r` after every update whose name does not sort after its own.
fn insert_sorted(r: &mut Vec<PackageUpdate>, x: PackageUpdate)
    ensures
        update_views(final(r)@) == insert_by_name(update_views(old(r)@), x@),
{
    let ghost all = update_views(r@);
    let name = chars_of(x.name.as_str());
    let mut p = r.len();
    assert(all.take(p as int) =~= all);
    assert(all.skip(p as int) =~= Seq::<UpdateView>::empty());
    assert(insert_by_name(all, x@) =~= insert_by_name(all.take(p as int), x@) + all.skip(p as int));
    while p > 0 && less_text(&name, &chars_of(r[p - 1].name.as_str()))
        invariant
            p <= r@.len(),
            all == update_views(r@),
            name@ == x@.name,
            insert_by_name(all, x@) == insert_by_name(all.take(p as int), x@) + all.skip(p as int),
        decreases p,
    {
        proof {
            let t = all.take(p as int);
            assert(t.last() == all[p - 1]);
            assert(t.drop_last() =~= all.take(p - 1));
            assert(insert_by_name(t, x@) == insert_by_name(all.take(p - 1), x@).push(all[p - 1]));
            assert(insert_by_name(all.take(p - 1), x@).push(all[p - 1]) + all.skip(p as int)
                =~= insert_by_name(all.take(p - 1), x@) + all.skip(p - 1));
        }
        p -= 1;
    }
    proof {
        let t = all.take(p as int);
        if p > 0 {
            assert(t.last() == all[p - 1]);
        }
        assert(insert_by_name(t, x@) =~= t.push(x@));
    }
    r.insert(p, x);
    assert(update_views(r@) =~= all.take(p as int).push(x@) + all.skip(p as int));
}

/// `v` stably sorted by name.
fn sort_updates(v: Vec<PackageUpdate>) -> (r: Vec<PackageUpdate>)
    ensures
        update_views(r@) == sort_by_name(update_views(v@)),
{
    let ghost all = update_views(v@);
    let mut r: Vec<PackageUpdate> = Vec::new();
    let mut rest = v;
    let ghost mut done: Seq<UpdateView> = Seq::empty();
    assert(done + update_views(rest@) =~= all);
    while rest.len() > 0
        invariant
            update_views(r@) == sort_by_name(done),
            done + update_views(rest@) == all,
            done.len() + rest@.len() == all.len(),
        decreases rest@.len(),
    {
        let ghost before = rest@;
        let u = rest.remove(0);
        proof {
            assert(u == before[0]);
            assert(update_views(rest@) =~= update_views(before).drop_first());
            assert(done.push(u@) + update_views(rest@) =~= done + update_views(before));
        }
        insert_sorted(&mut r, u);
        proof {
            assert(done.push(u@).drop_last() =~= done);
            done = done.push(u@);
        }
    }
    assert(done =~= all);
    r
}


/// Reads the package table that `dnf upgrade --assumeno` prints: the
/// updates of its `Upgrading:` section, each with the version it replaces,
/// sorted by name (stably); or the first problem met, line by line.
pub fn parse_update_lines(stdout: &str) -> (r: Result<Vec<PackageUpdate>, UpdateParseError>)
    ensures
        parse_result_view(r) == parsed_updates(stdout@),
{
    let chars = chars_of(stdout);
    let ls = split_lines(&chars);
    let ghost all = lines(stdout@);
    let mut reader = Reader { updates: Vec::new(), in_upgrading: false, pending: None };
    let mut i: usize = 0;
    assert(reader@ == initial_state()) by {
        assert(update_views(reader.updates@) =~= Seq::<UpdateView>::empty());
    }
    assert(views(ls@).skip(0) =~= all);
    while i < ls.len()
        invariant
            i <= ls@.len(),
            views(ls@) == all,
            all == lines(stdout@),
            read_lines(initial_state(), all) == read_lines(reader@, all.skip(i as int)),
            reader@.pending is Some ==> reader@.updates.len() > 0,
        decreases ls@.len() - i,
    {
        let ghost before = reader@;
        assert(all.skip(i as int)[0] == ls@[i as int]@);
        assert(all.skip(i as int).drop_first() =~= all.skip(i + 1));
        match reader.read_line(&ls[i]) {
            Err(e) => {
                return Err(e);
            },
            Ok(()) => {},
        }
        i += 1;
    }
    assert(all.skip(i as int) =~= Seq::<Seq<char>>::empty());
    match reader.pending {
        Some(name) => Err(UpdateParseError::OutputEnded { name }),
        None => Ok(sort_updates(reader.updates)),
    }
}


// ---------------------------------------------------------------------------
// Laws of the result
/// The order of updates by name.
pub open spec fn name_less() -> spec_fn(UpdateView, UpdateView) -> bool {
    |a: UpdateView, b: UpdateView| text_less(a.name, b.name)
}

proof fn lemma_insert_by_name(s: Seq<UpdateView>, x: UpdateView)
    ensures
        insert_by_name(s, x) == insert_stable(s, x, name_less()),
    decreases s.len(),
{
    if s.len() > 0 {
        lemma_insert_by_name(s.drop_last(), x);
    }
}

proof fn lemma_sort_by_name(s: Seq<UpdateView>)
    ensures
        sort_by_name(s) == sort_stable(s, name_less()),
    decreases s.len(),
{
    if s.len() > 0 {
        lemma_sort_by_name(s.drop_last());
        lemma_insert_by_name(sort_by_name(s.drop_last()), s.last());
    }
}

proof fn lemma_name_order()
    ensures
        strict_weak_order(name_less()),
{
    let less = name_less();
    assert forall|a: UpdateView, b: UpdateView| #[trigger] less(a, b) implies !less(b, a) by {
        text_less_asymmetric(a.name, b.name);
    }
    assert forall|a: UpdateView, b: UpdateView, c: UpdateView|
        !(#[trigger] less(a, b)) && !(#[trigger] less(b, c)) implies !(#[trigger] less(a, c)) by {
        text_less_total(a.name, b.name);
        text_less_total(b.name, c.name);
        if text_less(a.name, c.name) {
            if text_less(b.name, a.name) && text_less(c.name, b.name) {
                text_less_transitive(c.name, b.name, a.name);
                text_less_asymmetric(a.name, c.name);
            } else if text_less(b.name, a.name) {
                text_less_transitive(c.name, b.name, a.name);
                text_less_asymmetric(a.name, c.name);
            } else if text_less(c.name, b.name) {
                text_less_asymmetric(a.name, c.name);
            } else {
                text_less_irreflexive(a.name);
            }
        }
    }
}

/// Sorting by name orders the updates by name, keeps every update, and is
/// stable: updates of one name stay in the order they were read.
pub proof fn sort_by_name_laws(s: Seq<UpdateView>, name: Seq<char>)
    ensures
        forall|i: int, j: int|
            0 <= i < j < sort_by_name(s).len() ==> !text_less(
                #[trigger] sort_by_name(s)[j].name,
                #[trigger] sort_by_name(s)[i].name,
            ),
        sort_by_name(s).to_multiset() == s.to_multiset(),
        sort_by_name(s).filter(|u: UpdateView| u.name == name) == s.filter(
            |u: UpdateView| u.name == name,
        ),
{
    lemma_sort_by_name(s);
    lemma_name_order();
    sort_stable_is_sorted(s, name_less());
    sort_stable_is_permutation(s, name_less());
    let k = UpdateView {
        name,
        arch: Seq::empty(),
        old_version: Seq::empty(),
        new_version: Seq::empty(),
        old_repo: Seq::empty(),
        new_repo: Seq::empty(),
        download_size: 0,
    };
    let p = |u: UpdateView| u.name == name;
    assert forall|e: UpdateView| #[trigger] p(e) == equivalent(name_less(), e, k) by {
        text_less_total(e.name, name);
        text_less_irreflexive(name);
    }
    sort_stable_keeps_order_of_equals(s, name_less(), p, k);
}

/// What `parse_update_lines` returns is sorted by name, holds exactly the
/// packages of the `Upgrading:` section, and keeps packages of one name in
/// the order `dnf` printed them.
pub proof fn parsed_updates_laws(stdout: Seq<char>, name: Seq<char>)
    ensures
        parsed_updates(stdout) matches Ok(us) ==> {
            let read = read_lines(initial_state(), lines(stdout))->Ok_0.updates;
            &&& forall|i: int, j: int|
                0 <= i < j < us.len() ==> !text_less(#[trigger] us[j].name, #[trigger] us[i].name)
            &&& us.to_multiset() == read.to_multiset()
            &&& us.filter(|u: UpdateView| u.name == name) == read.filter(
                |u: UpdateView| u.name == name,
            )
        },
{
    if let Ok(st) = read_lines(initial_state(), lines(stdout)) {
        sort_by_name_laws(st.updates, name);
    }
}

/// A version loses a leading epoch `0:` and nothing else: a version that
/// begins with `0:` is `0:` followed by the stored version, and any other
/// version, such as one with epoch `1:`, is stored as it is.
pub proof fn normalized_version_law(v: Seq<char>)
    ensures
        v.len() >= 2 && v.take(2) == "0:"@ ==> "0:"@ + normalized_version(v) == v,
        !(v.len() >= 2 && v.take(2) == "0:"@) ==> normalized_version(v) == v,
{
    reveal_strlit("0:");
    if v.len() >= 2 && v.take(2) == "0:"@ {
        assert(v[0] == v.take(2)[0]);
        assert(v[1] == v.take(2)[1]);
        assert("0:"@ + v.skip(2) =~= v);
    } else if v.len() >= 2 && v[0] == '0' && v[1] == ':' {
        assert(v.take(2) =~= "0:"@);
    }
}

} // verus!
