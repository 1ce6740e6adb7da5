//! The summary as styled text: each line a sequence of segments, each a
//! text with the style that it is shown in.
use vstd::prelude::*;
use vstd::utf8::{is_ascii_chars, is_ascii_chars_encode_utf8};
use crate::display::{DiffParts, DiffView, lemma_diff_split_parts, size_text};
use crate::layout::{
    Columns,
    DisplayLine,
    LineView,
    RepoText,
    RepoView,
    RowText,
    RowView,
    arch_width,
    byte_len,
    columns_of,
    lemma_widest_fits,
    name_width,
    new_version_width,
    old_version_width,
    row_view,
    size_width,
    widest,
};
use crate::model::UpdateView;

verus! {

/// How a segment is shown.
#[derive(Clone, Copy, Debug, PartialEq, Eq)]
pub enum Style {
    /// As it is.
    Plain,
    /// Bold: the package name.
    Bold,
    /// Dimmed: the parts that stay the same, the size, an unchanged repository.
    Dimmed,
    /// Red and bold: what is replaced.
    Removed,
    /// Green and bold: what replaces it.
    Added,
    /// Cyan and bold: the headline.
    Headline,
    /// Underlined and bold: a repository heading.
    Heading,
}

/// A piece of a line with its style.
#[derive(Debug)]
pub struct Segment {
    pub text: String,
    pub style: Style,
}

/// One side of a change: the common prefix dimmed, the old (or new) middle
/// in red (or green), the common suffix dimmed.
pub open spec fn side_segments(d: DiffView, old_side: bool) -> Seq<(Seq<char>, Style)> {
    seq![
        (d.prefix, Style::Dimmed),
        if old_side {
            (d.old_mid, Style::Removed)
        } else {
            (d.new_mid, Style::Added)
        },
        (d.suffix, Style::Dimmed),
    ]
}

/// The repository column: an unchanged repository dimmed, or the old and
/// the new one with an arrow between them.
pub open spec fn repo_segments(r: RepoView) -> Seq<(Seq<char>, Style)> {
    match r {
        RepoView::Same(s) => seq![(s, Style::Dimmed)],
        RepoView::Changed(d) => side_segments(d, true) + seq![(" -> "@, Style::Plain)]
            + side_segments(d, false),
    }
}

/// A package row up to and including its installed version and the padding
/// after it: the text before the arrow.
pub open spec fn row_head(r: RowView) -> Seq<(Seq<char>, Style)> {
    seq![("    "@, Style::Plain), (r.name, Style::Bold)] + (match r.arch {
        Some(a) => seq![("  "@, Style::Plain), (a, Style::Dimmed)],
        None => Seq::empty(),
    }) + seq![("  "@, Style::Plain)] + side_segments(r.version, true) + seq![
        (r.old_pad, Style::Plain),
    ]
}

/// A package row from its arrow up to and including its size.
pub open spec fn row_middle(r: RowView) -> Seq<(Seq<char>, Style)> {
    seq![(" -> "@, Style::Plain)] + side_segments(r.version, false) + seq![
        (r.new_pad, Style::Plain),
        ("  "@, Style::Plain),
        (r.size_pad, Style::Plain),
        (r.size, Style::Dimmed),
    ]
}

/// A package row: `    name  arch  old -> new  size  repository`.
pub open spec fn row_segments(r: RowView) -> Seq<(Seq<char>, Style)> {
    row_head(r) + row_middle(r) + seq![("  "@, Style::Plain)] + repo_segments(r.repo)
}

/// The segments of a summary line.
pub open spec fn line_segments(l: LineView) -> Seq<(Seq<char>, Style)> {
    match l {
        LineView::Headline(s) => seq![(s, Style::Headline)],
        LineView::Blank => Seq::empty(),
        LineView::Heading(s) => seq![("  "@, Style::Plain), (s, Style::Heading)],
        LineView::Row(r) => row_segments(r),
    }
}

/// The text of segments with their styles removed.
pub open spec fn plain_text(segs: Seq<(Seq<char>, Style)>) -> Seq<char>
    decreases segs.len(),
{
    if segs.len() == 0 {
        Seq::empty()
    } else {
        plain_text(segs.drop_last()) + segs.last().0
    }
}

/// What segments hold.
pub open spec fn segment_views(s: Seq<Segment>) -> Seq<(Seq<char>, Style)> {
    s.map_values(|x: Segment| (x.text@, x.style))
}

/// Appends a segment.
fn push_segment(v: &mut Vec<Segment>, text: String, style: Style)
    ensures
        segment_views(final(v)@) == segment_views(old(v)@).push((text@, style)),
{
    v.push(Segment { text, style });
    assert(segment_views(final(v)@) =~= segment_views(old(v)@).push((text@, style)));
}

/// Appends one side of a change.
fn push_side(v: &mut Vec<Segment>, d: &DiffParts, old_side: bool)
    ensures
        segment_views(final(v)@) == segment_views(old(v)@) + side_segments(d@, old_side),
{
    push_segment(v, d.prefix.clone(), Style::Dimmed);
    if old_side {
        push_segment(v, d.old_mid.clone(), Style::Removed);
    } else {
        push_segment(v, d.new_mid.clone(), Style::Added);
    }
    push_segment(v, d.suffix.clone(), Style::Dimmed);
    assert(segment_views(final(v)@) =~= segment_views(old(v)@) + side_segments(d@, old_side));
}

/// The segments of a package row.
fn row_line(r: &RowText) -> (v: Vec<Segment>)
    ensures
        segment_views(v@) == row_segments(r@),
{
    let mut v: Vec<Segment> = Vec::new();
    push_segment(&mut v, "    ".to_owned(), Style::Plain);
    push_segment(&mut v, r.name.clone(), Style::Bold);
    match &r.arch {
        Some(a) => {
            push_segment(&mut v, "  ".to_owned(), Style::Plain);
            push_segment(&mut v, a.clone(), Style::Dimmed);
        },
        None => {},
    }
    push_segment(&mut v, "  ".to_owned(), Style::Plain);
    push_side(&mut v, &r.version, true);
    push_segment(&mut v, r.old_pad.clone(), Style::Plain);
    assert(segment_views(v@) =~= row_head(r@));
    let ghost head = segment_views(v@);
    push_segment(&mut v, " -> ".to_owned(), Style::Plain);
    push_side(&mut v, &r.version, false);
    push_segment(&mut v, r.new_pad.clone(), Style::Plain);
    push_segment(&mut v, "  ".to_owned(), Style::Plain);
    push_segment(&mut v, r.size_pad.clone(), Style::Plain);
    push_segment(&mut v, r.size.clone(), Style::Dimmed);
    assert(segment_views(v@) =~= head + row_middle(r@));
    let ghost mid = segment_views(v@);
    push_segment(&mut v, "  ".to_owned(), Style::Plain);
    let ghost sep = segment_views(v@);
    match &r.repo {
        RepoText::Same(s) => {
            push_segment(&mut v, s.clone(), Style::Dimmed);
        },
        RepoText::Changed(d) => {
            push_side(&mut v, d, true);
            push_segment(&mut v, " -> ".to_owned(), Style::Plain);
            push_side(&mut v, d, false);
        },
    }
    assert(segment_views(v@) =~= sep + repo_segments(r@.repo));
    assert(segment_views(v@) =~= row_segments(r@));
    v
}

/// A summary line as styled segments: the headline in cyan, a repository
/// heading indented and underlined, a package row as
/// `    name  arch  old -> new  size  repository` with the changes
/// highlighted.
pub fn styled_line(line: &DisplayLine) -> (r: Vec<Segment>)
    ensures
        segment_views(r@) == line_segments(line@),
{
    let mut v: Vec<Segment> = Vec::new();
    match line {
        DisplayLine::Headline(s) => {
            push_segment(&mut v, s.clone(), Style::Headline);
        },
        DisplayLine::Blank => {},
        DisplayLine::Heading(s) => {
            push_segment(&mut v, "  ".to_owned(), Style::Plain);
            push_segment(&mut v, s.clone(), Style::Heading);
        },
        DisplayLine::Row(r) => {
            return row_line(r);
        },
    }
    assert(segment_views(v@) =~= line_segments(line@));
    v
}

// ---------------------------------------------------------------------------
// Alignment
/// The texts of an update that its row shows are ASCII (and, as the texts
/// of a `String`, no longer than `usize::MAX`).
pub open spec fn ascii_row_texts(u: UpdateView) -> bool {
    &&& ascii_text(u.name)
    &&& ascii_text(u.arch)
    &&& ascii_text(u.old_version)
    &&& ascii_text(u.new_version)
    &&& ascii_text(size_text(u.download_size))
}

/// An ASCII text that a `String` can hold.
pub open spec fn ascii_text(s: Seq<char>) -> bool {
    is_ascii_chars(s) && s.len() <= usize::MAX
}


/// The column at which the arrow of a row stands.
pub open spec fn arrow_column(c: Columns, show_arch: bool) -> nat {
    (4 + c.name + (if show_arch {
        2 + c.arch
    } else {
        0
    }) + 2 + c.old_version) as nat
}

/// The column at which the size of a row ends.
pub open spec fn size_end_column(c: Columns, show_arch: bool) -> nat {
    (arrow_column(c, show_arch) + 4 + c.new_version + 2 + c.size) as nat
}

proof fn lemma_plain_text_add(a: Seq<(Seq<char>, Style)>, b: Seq<(Seq<char>, Style)>)
    ensures
        plain_text(a + b) == plain_text(a) + plain_text(b),
    decreases b.len(),
{
    if b.len() == 0 {
        assert(a + b =~= a);
        assert(plain_text(a) + Seq::<char>::empty() =~= plain_text(a));
    } else {
        assert((a + b).drop_last() =~= a + b.drop_last());
        assert((a + b).last() == b.last());
        lemma_plain_text_add(a, b.drop_last());
        assert(plain_text(a) + plain_text(b.drop_last()) + b.last().0 =~= plain_text(a) + (
        plain_text(b.drop_last()) + b.last().0));
    }
}

proof fn lemma_plain_text_one(x: (Seq<char>, Style))
    ensures
        plain_text(seq![x]) == x.0,
{
    reveal_with_fuel(plain_text, 2);
    assert(seq![x].last() == x);
    assert(seq![x].drop_last() =~= Seq::<(Seq<char>, Style)>::empty());
    assert(Seq::<char>::empty() + x.0 =~= x.0);
}

proof fn lemma_plain_text_two(x: (Seq<char>, Style), y: (Seq<char>, Style))
    ensures
        plain_text(seq![x, y]) == x.0 + y.0,
{
    assert(seq![x, y] =~= seq![x] + seq![y]);
    lemma_plain_text_add(seq![x], seq![y]);
    lemma_plain_text_one(x);
    lemma_plain_text_one(y);
}

proof fn lemma_side_len(d: DiffView, old_side: bool)
    ensures
        plain_text(side_segments(d, old_side)) == d.prefix + (if old_side {
            d.old_mid
        } else {
            d.new_mid
        }) + d.suffix,
{
    let m = if old_side {
        (d.old_mid, Style::Removed)
    } else {
        (d.new_mid, Style::Added)
    };
    assert(side_segments(d, old_side) =~= seq![(d.prefix, Style::Dimmed), m] + seq![
        (d.suffix, Style::Dimmed),
    ]);
    lemma_plain_text_two((d.prefix, Style::Dimmed), m);
    lemma_plain_text_add(seq![(d.prefix, Style::Dimmed), m], seq![(d.suffix, Style::Dimmed)]);
    lemma_plain_text_one((d.suffix, Style::Dimmed));
}

proof fn lemma_widest_ge(us: Seq<UpdateView>, f: spec_fn(UpdateView) -> nat, u: UpdateView)
    requires
        us.contains(u),
    ensures
        f(u) <= widest(us, f),
    decreases us.len(),
{
    if us.last() != u {
        let k = choose|k: int| 0 <= k < us.len() && us[k] == u;
        assert(us.drop_last()[k] == u);
        lemma_widest_ge(us.drop_last(), f, u);
    }
}

proof fn lemma_ascii_len(s: Seq<char>)
    requires
        ascii_text(s),
    ensures
        byte_len(s) == s.len(),
{
    is_ascii_chars_encode_utf8(s);
}

/// With ASCII texts, every package row has its arrow at one column and its
/// size ending at one column: the columns are as wide as their widest
/// entries over all the updates.
pub proof fn rows_align(us: Seq<UpdateView>, show_arch: bool, u: UpdateView)
    requires
        us.contains(u),
        ascii_row_texts(u),
    ensures
        plain_text(row_head(row_view(u, columns_of(us), show_arch))).len() == arrow_column(
            columns_of(us),
            show_arch,
        ),
        plain_text(row_head(row_view(u, columns_of(us), show_arch)) + row_middle(
            row_view(u, columns_of(us), show_arch),
        )).len() == size_end_column(columns_of(us), show_arch),
{
    let c = columns_of(us);
    let r = row_view(u, c, show_arch);
    reveal_strlit("    ");
    reveal_strlit("  ");
    reveal_strlit(" -> ");
    assert forall|x: UpdateView| #[trigger] byte_len(x.name) <= usize::MAX by {}
    lemma_widest_fits(us, name_width());
    lemma_widest_fits(us, arch_width());
    lemma_widest_fits(us, old_version_width());
    lemma_widest_fits(us, new_version_width());
    lemma_widest_fits(us, size_width());
    lemma_widest_ge(us, name_width(), u);
    lemma_widest_ge(us, arch_width(), u);
    lemma_widest_ge(us, old_version_width(), u);
    lemma_widest_ge(us, new_version_width(), u);
    lemma_widest_ge(us, size_width(), u);
    lemma_ascii_len(u.name);
    lemma_ascii_len(u.arch);
    lemma_ascii_len(u.old_version);
    lemma_ascii_len(u.new_version);
    lemma_ascii_len(size_text(u.download_size));
    lemma_diff_split_parts(u.old_version, u.new_version);
    // The text before the arrow.
    let a = seq![("    "@, Style::Plain), (r.name, Style::Bold)];
    let b = match r.arch {
        Some(x) => seq![("  "@, Style::Plain), (x, Style::Dimmed)],
        None => Seq::<(Seq<char>, Style)>::empty(),
    };
    let cc = seq![("  "@, Style::Plain)];
    let d = side_segments(r.version, true);
    let e = seq![(r.old_pad, Style::Plain)];
    assert(row_head(r) == a + b + cc + d + e);
    lemma_plain_text_two(("    "@, Style::Plain), (r.name, Style::Bold));
    match r.arch {
        Some(x) => lemma_plain_text_two(("  "@, Style::Plain), (x, Style::Dimmed)),
        None => {},
    }
    lemma_plain_text_one(("  "@, Style::Plain));
    lemma_side_len(r.version, true);
    lemma_side_len(r.version, false);
    lemma_plain_text_one((r.old_pad, Style::Plain));
    lemma_plain_text_add(a, b);
    lemma_plain_text_add(a + b, cc);
    lemma_plain_text_add(a + b + cc, d);
    lemma_plain_text_add(a + b + cc + d, e);
    assert(plain_text(row_head(r)).len() == arrow_column(c, show_arch));
    // From the arrow to the end of the size.
    let f = seq![(" -> "@, Style::Plain)];
    let g = side_segments(r.version, false);
    let h = seq![(r.new_pad, Style::Plain), ("  "@, Style::Plain)];
    let k = seq![(r.size_pad, Style::Plain), (r.size, Style::Dimmed)];
    assert(row_middle(r) == f + g + h + k);
    lemma_plain_text_one((" -> "@, Style::Plain));
    lemma_plain_text_two((r.new_pad, Style::Plain), ("  "@, Style::Plain));
    lemma_plain_text_two((r.size_pad, Style::Plain), (r.size, Style::Dimmed));
    lemma_plain_text_add(f, g);
    lemma_plain_text_add(f + g, h);
    lemma_plain_text_add(f + g + h, k);
    lemma_plain_text_add(row_head(r), row_middle(r));
}

} // verus!
