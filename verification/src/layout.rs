//! The upgrade summary as lines of text: a headline, then one row per
//! package, flat or grouped by repository, with aligned columns.
use vstd::prelude::*;
use vstd::utf8::encode_utf8;
use crate::display::{
    DiffParts,
    DiffView,
    decimal,
    diff_split,
    format_size,
    push_decimal,
    shorten_repo,
    shortened_repo,
    size_text,
    split_diff,
};
use crate::model::{PackageUpdate, SizeInfo, UpdateView, update_views};
use crate::stdout::text_less;
use crate::order::{
    equivalent,
    insert_stable,
    sort_stable,
    sort_stable_is_permutation,
    sort_stable_is_sorted,
    sort_stable_keeps_order_of_equals,
    strict_weak_order,
    text_less_irreflexive,
    text_less_total,
    text_less_transitive,
};
use crate::text::{chars_of, push_char};

verus! {

/// How the rows are arranged.
#[derive(Clone, Copy, Debug, PartialEq, Eq)]
pub enum GroupBy {
    /// Rows grouped under a heading per repository.
    Repository,
    /// Rows in the order given.
    Flat,
}

// ---------------------------------------------------------------------------
// Column widths
/// The length of `s` in UTF-8 bytes, as `str::len` returns it.
pub open spec fn byte_len(s: Seq<char>) -> nat {
    (encode_utf8(s).len() as usize) as nat
}

/// The largest `f(u)` over `us`, or 0.
pub open spec fn widest(us: Seq<UpdateView>, f: spec_fn(UpdateView) -> nat) -> nat
    decreases us.len(),
{
    if us.len() == 0 {
        0
    } else {
        let w = widest(us.drop_last(), f);
        let x = f(us.last());
        if x > w {
            x
        } else {
            w
        }
    }
}

/// Width of a name, in bytes.
pub open spec fn name_width() -> spec_fn(UpdateView) -> nat {
    |u: UpdateView| byte_len(u.name)
}

/// Width of an architecture, in bytes.
pub open spec fn arch_width() -> spec_fn(UpdateView) -> nat {
    |u: UpdateView| byte_len(u.arch)
}

/// Width of an installed version, in bytes.
pub open spec fn old_version_width() -> spec_fn(UpdateView) -> nat {
    |u: UpdateView| byte_len(u.old_version)
}

/// Width of a new version, in bytes.
pub open spec fn new_version_width() -> spec_fn(UpdateView) -> nat {
    |u: UpdateView| byte_len(u.new_version)
}

/// Width of a shown size, in bytes.
pub open spec fn size_width() -> spec_fn(UpdateView) -> nat {
    |u: UpdateView| byte_len(size_text(u.download_size))
}

/// The widths of the columns, each the widest entry of its column.
#[derive(Clone, Copy, Debug)]
pub struct Columns {
    pub name: usize,
    pub arch: usize,
    pub old_version: usize,
    pub new_version: usize,
    pub size: usize,
}

/// The columns are as wide as their widest entries.
pub open spec fn columns_fit(c: Columns, us: Seq<UpdateView>) -> bool {
    &&& c.name == widest(us, name_width())
    &&& c.arch == widest(us, arch_width())
    &&& c.old_version == widest(us, old_version_width())
    &&& c.new_version == widest(us, new_version_width())
    &&& c.size == widest(us, size_width())
}

/// The widths of the columns for `updates`, in bytes.
pub fn column_widths(updates: &Vec<PackageUpdate>) -> (c: Columns)
    ensures
        columns_fit(c, update_views(updates@)),
{
    let ghost us = update_views(updates@);
    let mut c = Columns { name: 0, arch: 0, old_version: 0, new_version: 0, size: 0 };
    let mut i: usize = 0;
    assert(us.take(0) =~= Seq::<UpdateView>::empty());
    while i < updates.len()
        invariant
            i <= updates@.len(),
            us == update_views(updates@),
            columns_fit(c, us.take(i as int)),
        decreases updates@.len() - i,
    {
        let u = &updates[i];
        let ghost t = us.take(i + 1 as int);
        assert(t.drop_last() =~= us.take(i as int));
        assert(t.last() == u@);
        let n = u.name.as_str().len();
        if n > c.name {
            c.name = n;
        }
        let a = u.arch.as_str().len();
        if a > c.arch {
            c.arch = a;
        }
        let o = u.old_version.as_str().len();
        if o > c.old_version {
            c.old_version = o;
        }
        let v = u.new_version.as_str().len();
        if v > c.new_version {
            c.new_version = v;
        }
        let st = format_size(u.download_size);
        let z = st.as_str().len();
        if z > c.size {
            c.size = z;
        }
        proof {
            assert(name_width()(t.last()) == n);
            assert(arch_width()(t.last()) == a);
            assert(old_version_width()(t.last()) == o);
            assert(new_version_width()(t.last()) == v);
            assert(size_width()(t.last()) == z);
        }
        i += 1;
    }
    assert(us.take(i as int) =~= us);
    c
}

// ---------------------------------------------------------------------------
// Rows
/// `n` spaces.
pub open spec fn spaces(n: nat) -> Seq<char> {
    Seq::new(n, |i: int| ' ')
}

/// `s` padded with spaces to `width` characters (`{:<width$}`).
pub open spec fn pad_right(s: Seq<char>, width: nat) -> Seq<char> {
    if s.len() < width {
        s + spaces((width - s.len()) as nat)
    } else {
        s
    }
}

/// The spaces that fill `used` up to `width` (`" ".repeat(width.saturating_sub(used))`).
pub open spec fn fill(width: nat, used: nat) -> Seq<char> {
    if used < width {
        spaces((width - used) as nat)
    } else {
        Seq::empty()
    }
}

/// The repository column of a row.
#[derive(Debug)]
pub enum RepoText {
    /// The package stays in this repository.
    Same(String),
    /// The package moves between repositories.
    Changed(DiffParts),
}

/// What a `RepoText` holds.
pub enum RepoView {
    Same(Seq<char>),
    Changed(DiffView),
}

impl View for RepoText {
    type V = RepoView;

    open spec fn view(&self) -> RepoView {
        match self {
            RepoText::Same(s) => RepoView::Same(s@),
            RepoText::Changed(d) => RepoView::Changed(d@),
        }
    }
}

/// The texts of one row, before colors are applied.
#[derive(Debug)]
pub struct RowText {
    /// The name, padded to the name column.
    pub name: String,
    /// The architecture padded to its column, when it is shown.
    pub arch: Option<String>,
    /// The installed and the new version, cut where they differ.
    pub version: DiffParts,
    /// Spaces after the installed version.
    pub old_pad: String,
    /// Spaces after the new version.
    pub new_pad: String,
    /// Spaces before the size.
    pub size_pad: String,
    /// The download size.
    pub size: String,
    /// The repository column.
    pub repo: RepoText,
}

/// What a `RowText` holds.
pub struct RowView {
    pub name: Seq<char>,
    pub arch: Option<Seq<char>>,
    pub version: DiffView,
    pub old_pad: Seq<char>,
    pub new_pad: Seq<char>,
    pub size_pad: Seq<char>,
    pub size: Seq<char>,
    pub repo: RepoView,
}

impl View for RowText {
    type V = RowView;

    open spec fn view(&self) -> RowView {
        RowView {
            name: self.name@,
            arch: match self.arch {
                Some(a) => Some(a@),
                None => None,
            },
            version: self.version@,
            old_pad: self.old_pad@,
            new_pad: self.new_pad@,
            size_pad: self.size_pad@,
            size: self.size@,
            repo: self.repo@,
        }
    }
}

/// The repository column: the new repository, or the move from the old one.
pub open spec fn repo_column(u: UpdateView) -> RepoView {
    if u.old_repo.len() == 0 || u.old_repo == u.new_repo {
        RepoView::Same(shortened_repo(u.new_repo))
    } else {
        RepoView::Changed(diff_split(shortened_repo(u.old_repo), shortened_repo(u.new_repo)))
    }
}

/// The row for `u` in columns `c`.
pub open spec fn row_view(u: UpdateView, c: Columns, show_arch: bool) -> RowView {
    RowView {
        name: pad_right(u.name, c.name as nat),
        arch: if show_arch {
            Some(pad_right(u.arch, c.arch as nat))
        } else {
            None
        },
        version: diff_split(u.old_version, u.new_version),
        old_pad: fill(c.old_version as nat, byte_len(u.old_version)),
        new_pad: fill(c.new_version as nat, byte_len(u.new_version)),
        size_pad: fill(c.size as nat, byte_len(size_text(u.download_size))),
        size: size_text(u.download_size),
        repo: repo_column(u),
    }
}

/// A string of `n` spaces.
fn spaces_string(n: usize) -> (r: String)
    ensures
        r@ == spaces(n as nat),
{
    let mut r = String::new();
    let mut i: usize = 0;
    while i < n
        invariant
            i <= n,
            r@ == spaces(i as nat),
        decreases n - i,
    {
        push_char(&mut r, ' ');
        i += 1;
        assert(r@ =~= spaces(i as nat));
    }
    r
}

/// `s` padded with spaces to `width` characters.
fn padded(s: &String, width: usize) -> (r: String)
    ensures
        r@ == pad_right(s@, width as nat),
{
    let n = s.as_str().unicode_len();
    let mut r = s.clone();
    if n < width {
        let sp = spaces_string(width - n);
        r.append(sp.as_str());
    }
    r
}

/// The spaces that fill `used` up to `width`.
fn filler(width: usize, used: usize) -> (r: String)
    ensures
        r@ == fill(width as nat, used as nat),
{
    if used < width {
        spaces_string(width - used)
    } else {
        String::new()
    }
}

/// The texts of the row for `update` in columns `columns`.
pub fn row_text(update: &PackageUpdate, columns: Columns, show_arch: bool) -> (r: RowText)
    ensures
        r@ == row_view(update@, columns, show_arch),
{
    let size = format_size(update.download_size);
    let repo = if update.old_repo.as_str().is_empty() || update.old_repo == update.new_repo {
        RepoText::Same(shorten_repo(update.new_repo.as_str()))
    } else {
        let o = shorten_repo(update.old_repo.as_str());
        let n = shorten_repo(update.new_repo.as_str());
        RepoText::Changed(split_diff(o.as_str(), n.as_str()))
    };
    assert(repo@ == repo_column(update@));
    let r = RowText {
        name: padded(&update.name, columns.name),
        arch: if show_arch {
            Some(padded(&update.arch, columns.arch))
        } else {
            None
        },
        version: split_diff(update.old_version.as_str(), update.new_version.as_str()),
        old_pad: filler(columns.old_version, update.old_version.as_str().len()),
        new_pad: filler(columns.new_version, update.new_version.as_str().len()),
        size_pad: filler(columns.size, size.as_str().len()),
        size,
        repo,
    };
    let ghost w = row_view(update@, columns, show_arch);
    assert(r@.name == w.name);
    assert(r@.arch == w.arch);
    assert(r@.version == w.version);
    assert(r@.old_pad == w.old_pad);
    assert(r@.size_pad == w.size_pad);
    assert(r@.repo == w.repo);
    r
}


// ---------------------------------------------------------------------------
// The headline
/// The sum of the download sizes.
pub open spec fn total_download(us: Seq<UpdateView>) -> nat
    decreases us.len(),
{
    if us.len() == 0 {
        0
    } else {
        total_download(us.drop_last()) + us.last().download_size as nat
    }
}

/// The magnitude of a negative disk change.
pub open spec fn magnitude(d: i64) -> u64 {
    (-(d as int)) as u64
}

/// A disk change with its sign: `+11.0 MiB`, `-5.0 MiB`.
pub open spec fn signed_size_text(d: i64) -> Seq<char> {
    if d >= 0 {
        seq!['+'] + size_text(d as u64)
    } else {
        seq!['-'] + size_text(magnitude(d))
    }
}

/// The sizes in the headline: download and disk change when reported,
/// else the sum of the package sizes (wrapping at 2^64).
pub open spec fn size_summary(us: Seq<UpdateView>, download: Option<u64>, disk: Option<i64>) -> Seq<
    char,
> {
    match (download, disk) {
        (Some(dl), Some(d)) => size_text(dl) + " download, "@ + signed_size_text(d) + " disk"@,
        (Some(dl), None) => size_text(dl),
        (None, Some(d)) => signed_size_text(d) + " disk"@,
        (None, None) => size_text((total_download(us) % 0x1_0000_0000_0000_0000) as u64),
    }
}

/// The headline: ` :: 3 packages to upgrade  (53.0 MiB download, +11.0 MiB disk)`.
pub open spec fn headline(count: nat, sizes: Seq<char>) -> Seq<char> {
    " :: "@ + decimal(count) + " package"@ + (if count == 1 {
        Seq::<char>::empty()
    } else {
        seq!['s']
    }) + " to upgrade  ("@ + sizes + seq![')']
}

/// A disk change with its sign.
fn signed_size(d: i64) -> (r: String)
    ensures
        r@ == signed_size_text(d),
{
    let mut s = String::new();
    if d >= 0 {
        push_char(&mut s, '+');
        let t = format_size(d as u64);
        s.append(t.as_str());
    } else {
        push_char(&mut s, '-');
        let m: u64 = if d == i64::MIN {
            0x8000_0000_0000_0000
        } else {
            (-d) as u64
        };
        let t = format_size(m);
        s.append(t.as_str());
    }
    assert(s@ =~= signed_size_text(d));
    s
}

/// The sum of the download sizes, wrapping at 2^64.
fn download_total(updates: &Vec<PackageUpdate>) -> (r: u64)
    ensures
        r == total_download(update_views(updates@)) % 0x1_0000_0000_0000_0000,
{
    let ghost us = update_views(updates@);
    let mut sum: u64 = 0;
    let mut i: usize = 0;
    assert(us.take(0) =~= Seq::<UpdateView>::empty());
    while i < updates.len()
        invariant
            i <= updates@.len(),
            us == update_views(updates@),
            sum == total_download(us.take(i as int)) % 0x1_0000_0000_0000_0000,
        decreases updates@.len() - i,
    {
        let x = updates[i].download_size;
        let ghost t = us.take(i + 1 as int);
        assert(t.drop_last() =~= us.take(i as int));
        assert(t.last().download_size == x);
        proof {
            vstd::arithmetic::div_mod::lemma_add_mod_noop(
                total_download(us.take(i as int)) as int,
                x as int,
                0x1_0000_0000_0000_0000,
            );
            vstd::arithmetic::div_mod::lemma_small_mod(x as nat, 0x1_0000_0000_0000_0000);
        }
        if sum > u64::MAX - x {
            proof {
                let y = (sum + x) as int;
                vstd::arithmetic::div_mod::lemma_fundamental_div_mod_converse(
                    y,
                    0x1_0000_0000_0000_0000,
                    1,
                    y - 0x1_0000_0000_0000_0000,
                );
            }
            sum = sum - (u64::MAX - x) - 1;
        } else {
            proof {
                vstd::arithmetic::div_mod::lemma_small_mod((sum + x) as nat, 0x1_0000_0000_0000_0000);
            }
            sum = sum + x;
        }
        i += 1;
    }
    assert(us.take(i as int) =~= us);
    sum
}

/// The headline for `updates` and the reported `sizes`.
pub fn summary_line(updates: &Vec<PackageUpdate>, sizes: &SizeInfo) -> (r: String)
    ensures
        r@ == headline(
            updates@.len(),
            size_summary(update_views(updates@), sizes.download, sizes.net_disk),
        ),
{
    let sz = match (sizes.download, sizes.net_disk) {
        (Some(dl), Some(d)) => {
            let mut s = format_size(dl);
            s.append(" download, ");
            let t = signed_size(d);
            s.append(t.as_str());
            s.append(" disk");
            s
        },
        (Some(dl), None) => format_size(dl),
        (None, Some(d)) => {
            let mut s = signed_size(d);
            s.append(" disk");
            s
        },
        (None, None) => format_size(download_total(updates)),
    };
    let mut s = String::new();
    s.append(" :: ");
    push_decimal(&mut s, updates.len() as u64);
    s.append(" package");
    if updates.len() != 1 {
        push_char(&mut s, 's');
    }
    s.append(" to upgrade  (");
    s.append(sz.as_str());
    push_char(&mut s, ')');
    proof {
        let us = update_views(updates@);
        assert(sz@ == size_summary(us, sizes.download, sizes.net_disk)) by {
            match (sizes.download, sizes.net_disk) {
                (Some(dl), Some(d)) => {},
                (Some(dl), None) => {},
                (None, Some(d)) => {},
                (None, None) => {},
            }
        }
        assert(s@ =~= headline(updates@.len(), sz@));
    }
    s
}


// ---------------------------------------------------------------------------
// Order of the rows
/// Whether `a` comes before `b` when rows are grouped: by new repository, then by name.
pub open spec fn repo_less(a: UpdateView, b: UpdateView) -> bool {
    text_less(a.new_repo, b.new_repo) || (a.new_repo == b.new_repo && text_less(a.name, b.name))
}

/// `x` placed into `s` after every update that does not come after it.
pub open spec fn insert_by_repo(s: Seq<UpdateView>, x: UpdateView) -> Seq<UpdateView>
    decreases s.len(),
{
    if s.len() == 0 {
        seq![x]
    } else if repo_less(x, s.last()) {
        insert_by_repo(s.drop_last(), x).push(s.last())
    } else {
        s.push(x)
    }
}

/// `s` stably sorted by new repository, then by name.
pub open spec fn sort_by_repo(s: Seq<UpdateView>) -> Seq<UpdateView>
    decreases s.len(),
{
    if s.len() == 0 {
        s
    } else {
        insert_by_repo(sort_by_repo(s.drop_last()), s.last())
    }
}

/// The updates that `order` points at, in its order.
pub open spec fn pick(us: Seq<UpdateView>, order: Seq<usize>) -> Seq<UpdateView> {
    order.map_values(|i: usize| us[i as int])
}

/// Whether `a` sorts strictly before `b`.
fn text_before(a: &String, b: &String) -> (r: bool)
    ensures
        r == text_less(a@, b@),
{
    let x = chars_of(a.as_str());
    let y = chars_of(b.as_str());
    crate::stdout::less_text(&x, &y)
}

/// Whether `a` comes before `b` when rows are grouped.
fn comes_before(a: &PackageUpdate, b: &PackageUpdate) -> (r: bool)
    ensures
        r == repo_less(a@, b@),
{
    text_before(&a.new_repo, &b.new_repo) || (a.new_repo == b.new_repo && text_before(
        &a.name,
        &b.name,
    ))
}

/// The positions of `updates` sorted stably by new repository, then by name.
pub fn repository_order(updates: &Vec<PackageUpdate>) -> (r: Vec<usize>)
    ensures
        forall|j: int| 0 <= j < r@.len() ==> #[trigger] r@[j] < updates@.len(),
        pick(update_views(updates@), r@) == sort_by_repo(update_views(updates@)),
{
    let ghost us = update_views(updates@);
    let mut order: Vec<usize> = Vec::new();
    let mut i: usize = 0;
    assert(us.take(0) =~= Seq::<UpdateView>::empty());
    assert(pick(us, order@) =~= Seq::<UpdateView>::empty());
    while i < updates.len()
        invariant
            i <= updates@.len(),
            us == update_views(updates@),
            forall|j: int| 0 <= j < order@.len() ==> #[trigger] order@[j] < updates@.len(),
            pick(us, order@) == sort_by_repo(us.take(i as int)),
        decreases updates@.len() - i,
    {
        let ghost before = pick(us, order@);
        let ghost x = us[i as int];
        let mut p = order.len();
        assert(before.take(p as int) =~= before);
        assert(before.skip(p as int) =~= Seq::<UpdateView>::empty());
        assert(insert_by_repo(before, x) =~= insert_by_repo(before.take(p as int), x) + before.skip(
            p as int,
        ));
        while p > 0 && comes_before(&updates[i], &updates[order[p - 1]])
            invariant
                p <= order@.len(),
                i < updates@.len(),
                us == update_views(updates@),
                x == us[i as int],
                forall|j: int| 0 <= j < order@.len() ==> #[trigger] order@[j] < updates@.len(),
                before == pick(us, order@),
                insert_by_repo(before, x) == insert_by_repo(before.take(p as int), x)
                    + before.skip(p as int),
            decreases p,
        {
            proof {
                let t = before.take(p as int);
                assert(t.last() == before[p - 1]);
                assert(before[p - 1] == us[order@[p - 1] as int]);
                assert(t.drop_last() =~= before.take(p - 1));
                assert(insert_by_repo(before.take(p - 1), x).push(before[p - 1]) + before.skip(
                    p as int,
                ) =~= insert_by_repo(before.take(p - 1), x) + before.skip(p - 1));
            }
            p -= 1;
        }
        proof {
            let t = before.take(p as int);
            if p > 0 {
                assert(t.last() == before[p - 1]);
                assert(before[p - 1] == us[order@[p - 1] as int]);
            }
            assert(insert_by_repo(t, x) =~= t.push(x));
        }
        order.insert(p, i);
        proof {
            assert(pick(us, order@) =~= before.take(p as int).push(x) + before.skip(p as int));
            let t = us.take(i + 1 as int);
            assert(t.drop_last() =~= us.take(i as int));
            assert(t.last() == x);
        }
        i += 1;
    }
    assert(us.take(i as int) =~= us);
    order
}

// ---------------------------------------------------------------------------
// The whole summary
/// One line of the summary.
#[derive(Debug)]
pub enum DisplayLine {
    /// The headline with the package count and sizes.
    Headline(String),
    /// An empty line.
    Blank,
    /// The heading of a repository's group.
    Heading(String),
    /// A package row.
    Row(RowText),
}

/// What a `DisplayLine` holds.
pub enum LineView {
    Headline(Seq<char>),
    Blank,
    Heading(Seq<char>),
    Row(RowView),
}

impl View for DisplayLine {
    type V = LineView;

    open spec fn view(&self) -> LineView {
        match self {
            DisplayLine::Headline(s) => LineView::Headline(s@),
            DisplayLine::Blank => LineView::Blank,
            DisplayLine::Heading(s) => LineView::Heading(s@),
            DisplayLine::Row(r) => LineView::Row(r@),
        }
    }
}

/// The views of a sequence of lines.
pub open spec fn line_views(s: Seq<DisplayLine>) -> Seq<LineView> {
    s.map_values(|l: DisplayLine| l@)
}

/// The column widths as the summary uses them.
pub open spec fn columns_of(us: Seq<UpdateView>) -> Columns {
    Columns {
        name: widest(us, name_width()) as usize,
        arch: widest(us, arch_width()) as usize,
        old_version: widest(us, old_version_width()) as usize,
        new_version: widest(us, new_version_width()) as usize,
        size: widest(us, size_width()) as usize,
    }
}

/// One row per update, in the order given.
pub open spec fn flat_lines(s: Seq<UpdateView>, c: Columns, show_arch: bool) -> Seq<LineView> {
    s.map_values(|u: UpdateView| LineView::Row(row_view(u, c, show_arch)))
}

/// Rows with a heading before each run of one repository, and an empty
/// line between runs; `current` is the repository of the run before `s`.
pub open spec fn grouped_lines(
    s: Seq<UpdateView>,
    current: Option<Seq<char>>,
    c: Columns,
    show_arch: bool,
) -> Seq<LineView>
    decreases s.len(),
{
    if s.len() == 0 {
        Seq::empty()
    } else {
        let u = s[0];
        let head = if current == Some(u.new_repo) {
            Seq::<LineView>::empty()
        } else if current is Some {
            seq![LineView::Blank, LineView::Heading(shortened_repo(u.new_repo))]
        } else {
            seq![LineView::Heading(shortened_repo(u.new_repo))]
        };
        head + seq![LineView::Row(row_view(u, c, show_arch))] + grouped_lines(
            s.drop_first(),
            Some(u.new_repo),
            c,
            show_arch,
        )
    }
}

/// The whole summary: the headline, an empty line, then the rows.
#[verifier::opaque]
pub open spec fn summary_lines(
    us: Seq<UpdateView>,
    download: Option<u64>,
    disk: Option<i64>,
    show_arch: bool,
    group: GroupBy,
) -> Seq<LineView> {
    let c = columns_of(us);
    seq![
        LineView::Headline(headline(us.len(), size_summary(us, download, disk))),
        LineView::Blank,
    ] + match group {
        GroupBy::Flat => flat_lines(us, c, show_arch),
        GroupBy::Repository => grouped_lines(sort_by_repo(us), None, c, show_arch),
    }
}

pub(crate) proof fn lemma_widest_fits(us: Seq<UpdateView>, f: spec_fn(UpdateView) -> nat)
    requires
        forall|u: UpdateView| #[trigger] f(u) <= usize::MAX,
    ensures
        widest(us, f) <= usize::MAX,
    decreases us.len(),
{
    if us.len() > 0 {
        lemma_widest_fits(us.drop_last(), f);
    }
}

/// The view of an optional text.
pub open spec fn text_option(o: Option<String>) -> Option<Seq<char>> {
    match o {
        Some(s) => Some(s@),
        None => None,
    }
}

/// The summary of `updates` as lines of text, before colors are applied.
pub fn display_lines(updates: &Vec<PackageUpdate>, show_arch: bool, group: GroupBy, sizes: &SizeInfo) -> (r: Vec<DisplayLine>)
    ensures
        line_views(r@) == summary_lines(
            update_views(updates@),
            sizes.download,
            sizes.net_disk,
            show_arch,
            group,
        ),
{
    let ghost us = update_views(updates@);
    let c = column_widths(updates);
    proof {
        reveal(summary_lines);
        lemma_widest_fits(us, name_width());
        lemma_widest_fits(us, arch_width());
        lemma_widest_fits(us, old_version_width());
        lemma_widest_fits(us, new_version_width());
        lemma_widest_fits(us, size_width());
        assert(c == columns_of(us));
    }
    let mut out: Vec<DisplayLine> = Vec::new();
    out.push(DisplayLine::Headline(summary_line(updates, sizes)));
    out.push(DisplayLine::Blank);
    let ghost head = line_views(out@);
    match group {
        GroupBy::Flat => {
            let mut i: usize = 0;
            assert(line_views(out@) =~= head + flat_lines(us.take(0), c, show_arch));
            while i < updates.len()
                invariant
                    i <= updates@.len(),
                    us == update_views(updates@),
                    line_views(out@) == head + flat_lines(us.take(i as int), c, show_arch),
                decreases updates@.len() - i,
            {
                let row = row_text(&updates[i], c, show_arch);
                let ghost before = line_views(out@);
                out.push(DisplayLine::Row(row));
                proof {
                    assert(us[i as int] == updates@[i as int]@);
                    assert(us.take(i + 1 as int) =~= us.take(i as int).push(us[i as int]));
                    assert(line_views(out@) =~= before.push(LineView::Row(row_view(us[i as int], c, show_arch))));
                    assert(flat_lines(us.take(i + 1 as int), c, show_arch) =~= flat_lines(us.take(i as int), c, show_arch).push(LineView::Row(row_view(us[i as int], c, show_arch))));
                }
                i += 1;
                assert(line_views(out@) =~= head + flat_lines(us.take(i as int), c, show_arch));
            }
            assert(us.take(i as int) =~= us);
        },
        GroupBy::Repository => {
            let order = repository_order(updates);
            let ghost sorted = sort_by_repo(us);
            let ghost all = head + grouped_lines(sorted, None, c, show_arch);
            let mut current: Option<String> = None;
            let mut k: usize = 0;
            assert(sorted.skip(0) =~= sorted);
            while k < order.len()
                invariant
                    k <= order@.len(),
                    us == update_views(updates@),
                    forall|j: int| 0 <= j < order@.len() ==> #[trigger] order@[j] < updates@.len(),
                    pick(us, order@) == sorted,
                    all == head + grouped_lines(sorted, None, c, show_arch),
                    all == line_views(out@) + grouped_lines(
                        sorted.skip(k as int),
                        text_option(current),
                        c,
                        show_arch,
                    ),
                decreases order@.len() - k,
            {
                let u = &updates[order[k]];
                let ghost rest = sorted.skip(k as int);
                let ghost cur = text_option(current);
                assert(rest[0] == u@);
                assert(rest.drop_first() =~= sorted.skip(k + 1 as int));
                let same = match &current {
                    Some(s) => *s == u.new_repo,
                    None => false,
                };
                let ghost before = line_views(out@);
                if !same {
                    if current.is_some() {
                        out.push(DisplayLine::Blank);
                    }
                    out.push(DisplayLine::Heading(shorten_repo(u.new_repo.as_str())));
                }
                out.push(DisplayLine::Row(row_text(u, c, show_arch)));
                proof {
                    let h = if cur == Some(u@.new_repo) {
                        Seq::<LineView>::empty()
                    } else if cur is Some {
                        seq![LineView::Blank, LineView::Heading(shortened_repo(u@.new_repo))]
                    } else {
                        seq![LineView::Heading(shortened_repo(u@.new_repo))]
                    };
                    assert(line_views(out@) =~= before + h + seq![
                        LineView::Row(row_view(u@, c, show_arch)),
                    ]);
                }
                current = Some(u.new_repo.clone());
                k += 1;
            }
            assert(sorted.skip(k as int) =~= Seq::<UpdateView>::empty());
            assert(line_views(out@) + Seq::<LineView>::empty() =~= line_views(out@));
        },
    }
    out
}


// ---------------------------------------------------------------------------
// Laws of the summary
/// The order of rows when grouped, as a predicate value.
pub open spec fn repo_order() -> spec_fn(UpdateView, UpdateView) -> bool {
    |a: UpdateView, b: UpdateView| repo_less(a, b)
}

proof fn lemma_text_order_facts()
    ensures
        forall|a: Seq<char>| !(#[trigger] text_less(a, a)),
        forall|a: Seq<char>, b: Seq<char>|
            a == b || #[trigger] text_less(a, b) || #[trigger] text_less(b, a),
        forall|a: Seq<char>, b: Seq<char>, c: Seq<char>|
            #[trigger] text_less(a, b) && #[trigger] text_less(b, c) ==> text_less(a, c),
{
    assert forall|a: Seq<char>| !(#[trigger] text_less(a, a)) by {
        text_less_irreflexive(a);
    }
    assert forall|a: Seq<char>, b: Seq<char>|
        a == b || #[trigger] text_less(a, b) || #[trigger] text_less(b, a) by {
        text_less_total(a, b);
    }
    assert forall|a: Seq<char>, b: Seq<char>, c: Seq<char>|
        #[trigger] text_less(a, b) && #[trigger] text_less(b, c) implies text_less(a, c) by {
        text_less_transitive(a, b, c);
    }
}

proof fn lemma_repo_order()
    ensures
        strict_weak_order(repo_order()),
{
    lemma_text_order_facts();
    let less = repo_order();
    assert forall|a: UpdateView, b: UpdateView| #[trigger] less(a, b) implies !less(b, a) by {
        text_less_total(a.new_repo, b.new_repo);
        if text_less(b.new_repo, a.new_repo) && text_less(a.new_repo, b.new_repo) {
            text_less_transitive(a.new_repo, b.new_repo, a.new_repo);
        }
        if text_less(b.name, a.name) && text_less(a.name, b.name) {
            text_less_transitive(a.name, b.name, a.name);
        }
    }
    assert forall|a: UpdateView, b: UpdateView, c: UpdateView|
        !(#[trigger] less(a, b)) && !(#[trigger] less(b, c)) implies !(#[trigger] less(a, c)) by {
        text_less_total(a.new_repo, b.new_repo);
        text_less_total(b.new_repo, c.new_repo);
        text_less_total(a.new_repo, c.new_repo);
        text_less_total(a.name, b.name);
        text_less_total(b.name, c.name);
        text_less_total(a.name, c.name);
    }
}

proof fn lemma_insert_by_repo(s: Seq<UpdateView>, x: UpdateView)
    ensures
        insert_by_repo(s, x) == insert_stable(s, x, repo_order()),
    decreases s.len(),
{
    if s.len() > 0 {
        lemma_insert_by_repo(s.drop_last(), x);
    }
}

proof fn lemma_sort_by_repo(s: Seq<UpdateView>)
    ensures
        sort_by_repo(s) == sort_stable(s, repo_order()),
    decreases s.len(),
{
    if s.len() > 0 {
        lemma_sort_by_repo(s.drop_last());
        lemma_insert_by_repo(sort_by_repo(s.drop_last()), s.last());
    }
}

/// Grouping orders the updates by repository, then by name, keeps every
/// update, and keeps updates of one repository and name in their order.
pub proof fn sort_by_repo_laws(s: Seq<UpdateView>, repo: Seq<char>, name: Seq<char>)
    ensures
        forall|i: int, j: int|
            0 <= i < j < sort_by_repo(s).len() ==> !repo_less(
                #[trigger] sort_by_repo(s)[j],
                #[trigger] sort_by_repo(s)[i],
            ),
        sort_by_repo(s).to_multiset() == s.to_multiset(),
        sort_by_repo(s).filter(|u: UpdateView| u.new_repo == repo && u.name == name) == s.filter(
            |u: UpdateView| u.new_repo == repo && u.name == name,
        ),
{
    lemma_sort_by_repo(s);
    lemma_repo_order();
    sort_stable_is_sorted(s, repo_order());
    sort_stable_is_permutation(s, repo_order());
    let k = UpdateView {
        name,
        arch: Seq::empty(),
        old_version: Seq::empty(),
        new_version: Seq::empty(),
        old_repo: Seq::empty(),
        new_repo: repo,
        download_size: 0,
    };
    let p = |u: UpdateView| u.new_repo == repo && u.name == name;
    lemma_text_order_facts();
    assert forall|e: UpdateView| #[trigger] p(e) == equivalent(repo_order(), e, k) by {
        text_less_total(e.new_repo, repo);
        text_less_total(e.name, name);
    }
    sort_stable_keeps_order_of_equals(s, repo_order(), p, k);
}

/// The rows of the updates `s` in columns `c`, in order.
pub open spec fn rows_in(s: Seq<UpdateView>, c: Columns, show_arch: bool) -> Seq<RowView> {
    s.map_values(|u: UpdateView| row_view(u, c, show_arch))
}

/// The rows among `ls`, in order.
pub open spec fn rows_of(ls: Seq<LineView>) -> Seq<RowView>
    decreases ls.len(),
{
    if ls.len() == 0 {
        Seq::empty()
    } else {
        (match ls[0] {
            LineView::Row(r) => seq![r],
            _ => Seq::<RowView>::empty(),
        }) + rows_of(ls.drop_first())
    }
}

proof fn lemma_rows_of_add(a: Seq<LineView>, b: Seq<LineView>)
    ensures
        rows_of(a + b) == rows_of(a) + rows_of(b),
    decreases a.len(),
{
    if a.len() == 0 {
        assert(a + b =~= b);
    } else {
        assert((a + b).drop_first() =~= a.drop_first() + b);
        assert((a + b)[0] == a[0]);
        lemma_rows_of_add(a.drop_first(), b);
    }
}

proof fn lemma_flat_rows(s: Seq<UpdateView>, c: Columns, show_arch: bool)
    ensures
        rows_of(flat_lines(s, c, show_arch)) == rows_in(s, c, show_arch),
    decreases s.len(),
{
    if s.len() > 0 {
        let f = flat_lines(s, c, show_arch);
        assert(f.drop_first() =~= flat_lines(s.drop_first(), c, show_arch));
        lemma_flat_rows(s.drop_first(), c, show_arch);
        assert(rows_in(s, c, show_arch) =~= seq![row_view(s[0], c, show_arch)] + rows_in(
            s.drop_first(),
            c,
            show_arch,
        ));
    }
}

proof fn lemma_grouped_rows(s: Seq<UpdateView>, current: Option<Seq<char>>, c: Columns, show_arch: bool)
    ensures
        rows_of(grouped_lines(s, current, c, show_arch)) == rows_in(s, c, show_arch),
    decreases s.len(),
{
    if s.len() > 0 {
        let u = s[0];
        let head = if current == Some(u.new_repo) {
            Seq::<LineView>::empty()
        } else if current is Some {
            seq![LineView::Blank, LineView::Heading(shortened_repo(u.new_repo))]
        } else {
            seq![LineView::Heading(shortened_repo(u.new_repo))]
        };
        let row = seq![LineView::Row(row_view(u, c, show_arch))];
        let rest = grouped_lines(s.drop_first(), Some(u.new_repo), c, show_arch);
        lemma_grouped_rows(s.drop_first(), Some(u.new_repo), c, show_arch);
        lemma_rows_of_add(head + row, rest);
        lemma_rows_of_add(head, row);
        assert(rows_of(head) =~= Seq::<RowView>::empty()) by {
            reveal_with_fuel(rows_of, 3);
            if head.len() == 2 {
                assert(head.drop_first() =~= seq![LineView::Heading(shortened_repo(u.new_repo))]);
                assert(head.drop_first().drop_first() =~= Seq::<LineView>::empty());
            } else if head.len() == 1 {
                assert(head.drop_first() =~= Seq::<LineView>::empty());
            }
        }
        assert(row.drop_first() =~= Seq::<LineView>::empty());
        assert(rows_of(row) =~= seq![row_view(u, c, show_arch)]) by {
            reveal_with_fuel(rows_of, 2);
        }
        assert(rows_in(s, c, show_arch) =~= seq![row_view(s[0], c, show_arch)] + rows_in(
            s.drop_first(),
            c,
            show_arch,
        ));
    }
}

/// The summary shows one row per update: in the order given when flat, in
/// repository-then-name order when grouped.
pub proof fn summary_rows_law(
    us: Seq<UpdateView>,
    download: Option<u64>,
    disk: Option<i64>,
    show_arch: bool,
    group: GroupBy,
)
    ensures
        rows_of(summary_lines(us, download, disk, show_arch, group)) == rows_in(
            match group {
                GroupBy::Flat => us,
                GroupBy::Repository => sort_by_repo(us),
            },
            columns_of(us),
            show_arch,
        ),
{
    reveal(summary_lines);
    let c = columns_of(us);
    let head = seq![
        LineView::Headline(headline(us.len(), size_summary(us, download, disk))),
        LineView::Blank,
    ];
    let body = match group {
        GroupBy::Flat => flat_lines(us, c, show_arch),
        GroupBy::Repository => grouped_lines(sort_by_repo(us), None, c, show_arch),
    };
    lemma_rows_of_add(head, body);
    assert(head.drop_first() =~= seq![LineView::Blank]);
    assert(head.drop_first().drop_first() =~= Seq::<LineView>::empty());
    assert(rows_of(head) =~= Seq::<RowView>::empty()) by {
        reveal_with_fuel(rows_of, 3);
    }
    match group {
        GroupBy::Flat => lemma_flat_rows(us, c, show_arch),
        GroupBy::Repository => lemma_grouped_rows(sort_by_repo(us), None, c, show_arch),
    }
    assert(Seq::<RowView>::empty() + rows_of(body) =~= rows_of(body));
}

/// Whether the row at `i` begins a run of one repository: it is the first
/// row, or the row before it is of another repository.
pub open spec fn starts_group(s: Seq<UpdateView>, i: int) -> bool {
    i == 0 || s[i - 1].new_repo != s[i].new_repo
}

/// The lines for the row at `i`: a heading when it begins a run, with an
/// empty line before the heading unless it is the first run; then the row.
pub open spec fn group_block(s: Seq<UpdateView>, i: int, c: Columns, show_arch: bool) -> Seq<LineView> {
    (if i == 0 {
        seq![LineView::Heading(shortened_repo(s[i].new_repo))]
    } else if starts_group(s, i) {
        seq![LineView::Blank, LineView::Heading(shortened_repo(s[i].new_repo))]
    } else {
        Seq::empty()
    }) + seq![LineView::Row(row_view(s[i], c, show_arch))]
}

/// The blocks of the rows from `i` on, in order.
pub open spec fn blocks_from(s: Seq<UpdateView>, i: nat, c: Columns, show_arch: bool) -> Seq<LineView>
    decreases s.len() - i,
{
    if i >= s.len() {
        Seq::empty()
    } else {
        group_block(s, i as int, c, show_arch) + blocks_from(s, i + 1, c, show_arch)
    }
}

proof fn lemma_blocks_from(s: Seq<UpdateView>, i: nat, c: Columns, show_arch: bool)
    requires
        i <= s.len(),
    ensures
        grouped_lines(
            s.skip(i as int),
            if i == 0 {
                None
            } else {
                Some(s[i - 1].new_repo)
            },
            c,
            show_arch,
        ) == blocks_from(s, i, c, show_arch),
    decreases s.len() - i,
{
    if i < s.len() {
        lemma_blocks_from(s, i + 1, c, show_arch);
        let t = s.skip(i as int);
        assert(t[0] == s[i as int]);
        assert(t.drop_first() =~= s.skip(i + 1 as int));
    } else {
        assert(s.skip(i as int).len() == 0);
    }
}

/// Grouped by repository, the rows come in repository-then-name order, a
/// heading with the shortened repository name comes right before the first
/// row of each repository, an empty line comes before every heading but the
/// first, and there is exactly one heading per repository.
pub proof fn grouped_headings_law(
    us: Seq<UpdateView>,
    download: Option<u64>,
    disk: Option<i64>,
    show_arch: bool,
    repo: Seq<char>,
)
    ensures
        ({
            let s = sort_by_repo(us);
            let c = columns_of(us);
            &&& summary_lines(us, download, disk, show_arch, GroupBy::Repository) == seq![
                LineView::Headline(headline(us.len(), size_summary(us, download, disk))),
                LineView::Blank,
            ] + blocks_from(s, 0, c, show_arch)
            &&& (exists|i: int| 0 <= i < s.len() && s[i].new_repo == repo) ==> (exists|i: int|
                0 <= i < s.len() && starts_group(s, i) && s[i].new_repo == repo)
            &&& forall|i: int, j: int|
                0 <= i < j < s.len() && starts_group(s, i) && starts_group(s, j) ==> #[trigger] s[i].new_repo
                    != #[trigger] s[j].new_repo
        }),
{
    let s = sort_by_repo(us);
    let c = columns_of(us);
    assert(summary_lines(us, download, disk, show_arch, GroupBy::Repository) == seq![
        LineView::Headline(headline(us.len(), size_summary(us, download, disk))),
        LineView::Blank,
    ] + blocks_from(s, 0, c, show_arch)) by {
        reveal(summary_lines);
        lemma_blocks_from(s, 0, c, show_arch);
        assert(s.skip(0) =~= s);
    }
    lemma_repos_together(us);
    lemma_one_start_per_repo(s, repo);
}

/// Sorted by repository, the rows of one repository stand together.
proof fn lemma_repos_together(us: Seq<UpdateView>)
    ensures
        ({
            let s = sort_by_repo(us);
            forall|i: int, k: int, j: int|
                #![trigger s[i].new_repo, s[k].new_repo, s[j].new_repo]
                0 <= i < k <= j < s.len() && s[i].new_repo == s[j].new_repo ==> s[k].new_repo
                    == s[i].new_repo
        }),
{
    let s = sort_by_repo(us);
    sort_by_repo_laws(us, Seq::empty(), Seq::empty());
    assert forall|i: int, k: int, j: int|
        #![trigger s[i].new_repo, s[k].new_repo, s[j].new_repo]
        0 <= i < k <= j < s.len() && s[i].new_repo == s[j].new_repo implies s[k].new_repo
        == s[i].new_repo by {
        assert(!repo_less(s[k], s[i]));
        if k < j {
            assert(!repo_less(s[j], s[k]));
        }
        text_less_total(s[i].new_repo, s[k].new_repo);
    }
}

/// Where the rows of each repository stand together, each repository has
/// exactly one row that begins its run.
proof fn lemma_one_start_per_repo(s: Seq<UpdateView>, repo: Seq<char>)
    requires
        forall|i: int, k: int, j: int|
            #![trigger s[i].new_repo, s[k].new_repo, s[j].new_repo]
            0 <= i < k <= j < s.len() && s[i].new_repo == s[j].new_repo ==> s[k].new_repo
                == s[i].new_repo,
    ensures
        (exists|i: int| 0 <= i < s.len() && s[i].new_repo == repo) ==> (exists|i: int|
            0 <= i < s.len() && starts_group(s, i) && s[i].new_repo == repo),
        forall|i: int, j: int|
            0 <= i < j < s.len() && starts_group(s, i) && starts_group(s, j) ==> #[trigger] s[i].new_repo
                != #[trigger] s[j].new_repo,
{
    if exists|i: int| 0 <= i < s.len() && s[i].new_repo == repo {
        let j = choose|i: int| 0 <= i < s.len() && s[i].new_repo == repo;
        let first = first_with_repo(s, repo, j);
        assert(starts_group(s, first));
    }
    assert forall|i: int, j: int|
        0 <= i < j < s.len() && starts_group(s, i) && starts_group(s, j) implies #[trigger] s[i].new_repo
        != #[trigger] s[j].new_repo by {
        if s[i].new_repo == s[j].new_repo {
            assert(s[j - 1].new_repo == s[i].new_repo);
        }
    }
}

/// The first row at or before `j` of the repository `repo` that all rows
/// from it to `j` share.
proof fn first_with_repo(s: Seq<UpdateView>, repo: Seq<char>, j: int) -> (i: int)
    requires
        0 <= j < s.len(),
        s[j].new_repo == repo,
    ensures
        0 <= i <= j,
        s[i].new_repo == repo,
        i == 0 || s[i - 1].new_repo != repo,
    decreases j,
{
    if j > 0 && s[j - 1].new_repo == repo {
        first_with_repo(s, repo, j - 1)
    } else {
        j
    }
}

/// The headline shows a reported disk change with the sign of the change:
/// `+` and its size when space is used (or none changes), `-` and the size
/// of the space freed otherwise, followed by ` disk`, after the download size
/// and ` download, ` when that is reported too; a download size alone is
/// shown by itself.
pub proof fn headline_sizes_law(us: Seq<UpdateView>, dl: u64, d: i64)
    ensures
        ({
            let change = if d >= 0 {
                seq!['+'] + size_text(d as u64)
            } else {
                seq!['-'] + size_text((-(d as int)) as u64)
            };
            &&& size_summary(us, Some(dl), Some(d)) == size_text(dl) + " download, "@ + change
                + " disk"@
            &&& size_summary(us, None, Some(d)) == change + " disk"@
            &&& size_summary(us, Some(dl), None) == size_text(dl)
            &&& (size_summary(us, None, Some(d))[0] == '+') == (d >= 0)
            &&& (size_summary(us, None, Some(d))[0] == '-') == (d < 0)
        }),
{
    let change = if d >= 0 {
        seq!['+'] + size_text(d as u64)
    } else {
        seq!['-'] + size_text((-(d as int)) as u64)
    };
    assert((change + " disk"@)[0] == change[0]);
}

/// The headline says how many packages there are, with `package` in the
/// singular for one and `packages` otherwise, then the sizes in brackets.
pub proof fn headline_text_law(count: nat, sizes: Seq<char>)
    ensures
        headline(count, sizes) == " :: "@ + decimal(count) + (if count == 1 {
            " package to upgrade  ("@
        } else {
            " packages to upgrade  ("@
        }) + sizes + ")"@,
{
    reveal_strlit(" :: ");
    reveal_strlit(" package");
    reveal_strlit(" to upgrade  (");
    reveal_strlit(" package to upgrade  (");
    reveal_strlit(" packages to upgrade  (");
    reveal_strlit(")");
    let tail = if count == 1 {
        " package to upgrade  ("@
    } else {
        " packages to upgrade  ("@
    };
    let plural = if count == 1 {
        Seq::<char>::empty()
    } else {
        seq!['s']
    };
    assert(" package"@ + plural + " to upgrade  ("@ =~= tail);
    assert(headline(count, sizes) =~= " :: "@ + decimal(count) + tail + sizes + ")"@);
}

} // verus!
