//! The `dnf` commands this front end runs, and the decisions around them.
use vstd::prelude::*;
use crate::cmd::{Cmd, CmdView};
use crate::model::{PackageUpdate, UpdateView, update_views};
use crate::size::eq_ignore_case;
use crate::text::{chars_of, slice_of, trim, trim_end_len, trim_start_pos};
use crate::display::lemma_diff_split_parts;
use crate::layout::{
    Columns,
    GroupBy,
    RowView,
    columns_of,
    rows_in,
    row_view,
    rows_of,
    sort_by_repo,
    sort_by_repo_laws,
    summary_lines,
    summary_rows_law,
};

verus! {

/// The `dnf` program.
pub open spec fn dnf_program() -> Seq<char> {
    "/usr/bin/dnf"@
}

/// The locale setting under which `dnf` runs, so that its output is in English.
pub open spec fn locale_setting() -> (Seq<char>, Seq<char>) {
    ("LC_ALL"@, "C.UTF-8"@)
}

/// `dnf` with the locale setting and the arguments `args`.
pub open spec fn dnf_with(args: Seq<Seq<char>>) -> CmdView {
    CmdView { program: dnf_program(), args, envs: seq![locale_setting()] }
}

/// `dnf` with the locale setting and no arguments.
pub fn dnf_cmd() -> (r: Cmd)
    ensures
        r@ == dnf_with(Seq::empty()),
{
    let mut cmd = Cmd::new("/usr/bin/dnf");
    cmd.env("LC_ALL", "C.UTF-8");
    assert(Seq::<(Seq<char>, Seq<char>)>::empty().push(locale_setting()) =~= seq![
        locale_setting(),
    ]);
    cmd
}

/// `dnf --refresh makecache`: refresh the metadata of all enabled repositories.
pub fn refresh_cmd() -> (r: Cmd)
    ensures
        r@ == dnf_with(seq!["--refresh"@, "makecache"@]),
{
    let mut cmd = dnf_cmd();
    cmd.args(&["--refresh", "makecache"]);
    proof {
        let a = ["--refresh", "makecache"];
        assert(Seq::<Seq<char>>::empty() + a@.map_values(|x: &str| x@) =~= seq![
            "--refresh"@,
            "makecache"@,
        ]);
    }
    cmd
}

/// `dnf clean all`: remove all cached repository data.
pub fn clean_cmd() -> (r: Cmd)
    ensures
        r@ == dnf_with(seq!["clean"@, "all"@]),
{
    let mut cmd = dnf_cmd();
    cmd.args(&["clean", "all"]);
    proof {
        let a = ["clean", "all"];
        assert(Seq::<Seq<char>>::empty() + a@.map_values(|x: &str| x@) =~= seq!["clean"@, "all"@]);
    }
    cmd
}

/// `dnf upgrade --assumeno --color=never`: list what an upgrade would do, without doing it.
pub fn check_cmd() -> (r: Cmd)
    ensures
        r@ == dnf_with(seq!["upgrade"@, "--assumeno"@, "--color=never"@]),
{
    let mut cmd = dnf_cmd();
    cmd.args(&["upgrade", "--assumeno", "--color=never"]);
    proof {
        let a = ["upgrade", "--assumeno", "--color=never"];
        assert(Seq::<Seq<char>>::empty() + a@.map_values(|x: &str| x@) =~= seq![
            "upgrade"@,
            "--assumeno"@,
            "--color=never"@,
        ]);
    }
    cmd
}

/// The package spec that pins an update: `name-version.arch`.
pub open spec fn upgrade_spec(u: UpdateView) -> Seq<char> {
    u.name + seq!['-'] + u.new_version + seq!['.'] + u.arch
}

/// The package specs for `updates`, one per update, in order.
pub fn upgrade_specs(updates: &Vec<PackageUpdate>) -> (r: Vec<String>)
    ensures
        r@.len() == updates@.len(),
        forall|i: int| 0 <= i < r@.len() ==> #[trigger] r@[i]@ == upgrade_spec(updates@[i]@),
{
    let mut r: Vec<String> = Vec::new();
    let mut i: usize = 0;
    while i < updates.len()
        invariant
            i <= updates@.len(),
            r@.len() == i,
            forall|j: int| 0 <= j < i ==> #[trigger] r@[j]@ == upgrade_spec(updates@[j]@),
        decreases updates@.len() - i,
    {
        let u = &updates[i];
        let mut s = u.name.clone();
        crate::text::push_char(&mut s, '-');
        s.append(u.new_version.as_str());
        crate::text::push_char(&mut s, '.');
        s.append(u.arch.as_str());
        assert(s@ =~= upgrade_spec(u@));
        r.push(s);
        i += 1;
    }
    r
}

/// The arguments of the upgrade: `upgrade -y` and the spec of each update.
pub open spec fn upgrade_args(us: Seq<UpdateView>) -> Seq<Seq<char>> {
    seq!["upgrade"@, "-y"@] + us.map_values(|u: UpdateView| upgrade_spec(u))
}

/// `dnf upgrade -y` with the spec of each update: upgrade exactly to the
/// versions that were shown.
pub fn upgrade_cmd(updates: &Vec<PackageUpdate>) -> (r: Cmd)
    ensures
        r@ == dnf_with(upgrade_args(update_views(updates@))),
{
    let specs = upgrade_specs(updates);
    let mut cmd = dnf_cmd();
    cmd.arg("upgrade").arg("-y");
    let ghost all = upgrade_args(update_views(updates@));
    assert(all.take(2) =~= seq!["upgrade"@, "-y"@]);
    assert(cmd@.args =~= seq!["upgrade"@, "-y"@]);
    assert(cmd@ == dnf_with(all.take(2)));
    let mut i: usize = 0;
    while i < specs.len()
        invariant
            i <= specs@.len(),
            specs@.len() == updates@.len(),
            forall|j: int| 0 <= j < specs@.len() ==> #[trigger] specs@[j]@ == upgrade_spec(
                updates@[j]@,
            ),
            all == upgrade_args(update_views(updates@)),
            all.len() == specs@.len() + 2,
            cmd@ == dnf_with(all.take(i + 2)),
        decreases specs@.len() - i,
    {
        cmd.arg(specs[i].as_str());
        assert(all[i + 2] == specs@[i as int]@);
        assert(all.take(i + 3) =~= all.take(i + 2).push(specs@[i as int]@));
        i += 1;
    }
    assert(all.take(i + 2) =~= all);
    cmd
}

/// Rows made from a reordering of `us`: each is the row of some update of
/// `us`, showing its new version, and each update of `us` has one.
proof fn lemma_rows_of_reordering(
    us: Seq<UpdateView>,
    order: Seq<UpdateView>,
    rows: Seq<RowView>,
    c: Columns,
    show_arch: bool,
)
    requires
        order.to_multiset() == us.to_multiset(),
        rows == rows_in(order, c, show_arch),
    ensures
        ({
            let args = upgrade_args(us);
            &&& rows.len() == us.len()
            &&& forall|i: int|
                0 <= i < rows.len() ==> exists|j: int|
                    0 <= j < us.len() && #[trigger] rows[i] == row_view(us[j], c, show_arch)
                        && rows[i].version.prefix + rows[i].version.new_mid
                        + rows[i].version.suffix == us[j].new_version && args[j + 2]
                        == upgrade_spec(us[j])
            &&& forall|j: int|
                0 <= j < us.len() ==> exists|i: int|
                    0 <= i < rows.len() && rows[i] == row_view(#[trigger] us[j], c, show_arch)
        }),
{
    let args = upgrade_args(us);
    vstd::seq_lib::to_multiset_len(order);
    vstd::seq_lib::to_multiset_len(us);
    assert forall|i: int| 0 <= i < rows.len() implies exists|j: int|
        0 <= j < us.len() && #[trigger] rows[i] == row_view(us[j], c, show_arch)
            && rows[i].version.prefix + rows[i].version.new_mid + rows[i].version.suffix
            == us[j].new_version && args[j + 2] == upgrade_spec(us[j]) by {
        let u = order[i];
        assert(order.contains(u));
        vstd::seq_lib::to_multiset_contains(order, u);
        vstd::seq_lib::to_multiset_contains(us, u);
        let j = choose|j: int| 0 <= j < us.len() && us[j] == u;
        lemma_diff_split_parts(u.old_version, u.new_version);
        assert(args[j + 2] == upgrade_spec(us[j]));
    }
    assert forall|j: int| 0 <= j < us.len() implies exists|i: int|
        0 <= i < rows.len() && rows[i] == row_view(#[trigger] us[j], c, show_arch) by {
        let u = us[j];
        assert(us.contains(u));
        vstd::seq_lib::to_multiset_contains(order, u);
        vstd::seq_lib::to_multiset_contains(us, u);
        let i = choose|i: int| 0 <= i < order.len() && order[i] == u;
        assert(rows[i] == row_view(u, c, show_arch));
    }
}

/// The upgrade runs what the summary shows: each row shown is the row of
/// an update that the upgrade command names by its spec, and the row shows
/// that update's new version; each update named has a row.
pub proof fn upgrade_pins_shown_versions(
    us: Seq<UpdateView>,
    download: Option<u64>,
    disk: Option<i64>,
    show_arch: bool,
    group: GroupBy,
)
    ensures
        ({
            let rows = rows_of(summary_lines(us, download, disk, show_arch, group));
            let args = upgrade_args(us);
            &&& rows.len() == us.len()
            &&& forall|i: int|
                0 <= i < rows.len() ==> exists|j: int|
                    0 <= j < us.len() && #[trigger] rows[i] == row_view(
                        us[j],
                        columns_of(us),
                        show_arch,
                    ) && rows[i].version.prefix + rows[i].version.new_mid + rows[i].version.suffix
                        == us[j].new_version && args[j + 2] == upgrade_spec(us[j])
            &&& forall|j: int|
                0 <= j < us.len() ==> exists|i: int|
                    0 <= i < rows.len() && rows[i] == row_view(
                        #[trigger] us[j],
                        columns_of(us),
                        show_arch,
                    )
        }),
{
    summary_rows_law(us, download, disk, show_arch, group);
    match group {
        GroupBy::Flat => {
            lemma_rows_of_reordering(
                us,
                us,
                rows_of(summary_lines(us, download, disk, show_arch, group)),
                columns_of(us),
                show_arch,
            );
        },
        GroupBy::Repository => {
            sort_by_repo_laws(us, Seq::empty(), Seq::empty());
            lemma_rows_of_reordering(
                us,
                sort_by_repo(us),
                rows_of(summary_lines(us, download, disk, show_arch, group)),
                columns_of(us),
                show_arch,
            );
        },
    }
}

/// An answer to `Proceed with upgrade? [Y/n]` agrees: once trimmed, it is
/// empty or, ignoring case, `y` or `yes`.
pub open spec fn agrees(answer: Seq<char>) -> bool {
    let t = trim(answer);
    t.len() == 0 || eq_ignore_case(t, "y"@) || eq_ignore_case(t, "yes"@)
}

/// Whether the answer to the upgrade prompt agrees.
pub fn is_agreement(answer: &str) -> (r: bool)
    ensures
        r == agrees(answer@),
{
    let v = chars_of(answer);
    let start = trim_start_pos(&v, 0);
    assert(v@.skip(0) =~= v@);
    let rest = slice_of(&v, start, v.len());
    assert(rest@ =~= v@.skip(start as int));
    let end = trim_end_len(&rest, rest.len());
    assert(rest@.subrange(0, rest@.len() as int) =~= rest@);
    let t = slice_of(&rest, 0, end);
    assert(t@.skip(0) =~= t@);
    end == 0 || crate::size::eq_ignore_case_at(&t, 0, "y") || crate::size::eq_ignore_case_at(
        &t,
        0,
        "yes",
    )
}

/// A command that ended with a nonzero exit code.
#[derive(Debug)]
pub struct CommandFailed {
    /// The command as shown.
    pub command: String,
    /// Its exit code.
    pub code: i32,
}

/// The outcome of a command that exited with `code`: success exactly when
/// the code is zero.
pub fn exit_outcome(command: String, code: i32) -> (r: Result<(), CommandFailed>)
    ensures
        r is Ok <==> code == 0,
        r matches Err(e) ==> e.command@ == command@ && e.code == code,
{
    if code != 0 {
        Err(CommandFailed { command, code })
    } else {
        Ok(())
    }
}

/// Why `dnf upgrade --assumeno` did not tell what an upgrade would do.
#[derive(Debug)]
pub struct CheckFailed {
    /// Its exit code, or `None` when it was ended by a signal.
    pub code: Option<i32>,
}

/// `dnf upgrade --assumeno` failed: it did not end with status 0, and did
/// not print the abort notice either. With updates pending it declines the
/// transaction, prints the notice and ends with a nonzero status; with
/// nothing to do it ends with status 0.
pub open spec fn check_failed(code: Option<i32>, aborted: bool) -> bool {
    !aborted && code != Some(0i32)
}

/// The outcome of `dnf upgrade --assumeno`, from its exit code and whether
/// it printed the abort notice: an error exactly when it failed, so that a
/// failing `dnf` is not taken for a system that is up to date.
pub fn check_outcome(code: Option<i32>, aborted: bool) -> (r: Result<(), CheckFailed>)
    ensures
        r is Err <==> check_failed(code, aborted),
        r matches Err(e) ==> e.code == code,
{
    let ok = match code {
        Some(c) => c == 0,
        None => false,
    };
    if aborted || ok {
        Ok(())
    } else {
        Err(CheckFailed { code })
    }
}

/// An answer agrees exactly when, once trimmed, it is empty, `y` or `Y`, or
/// `yes` in any mix of cases; `n`, `no` or anything else never agrees.
pub proof fn agreement_law(answer: Seq<char>)
    ensures
        agrees(answer) <==> ({
            let t = trim(answer);
            ||| t.len() == 0
            ||| t == seq!['y']
            ||| t == seq!['Y']
            ||| (t.len() == 3 && (t[0] == 'y' || t[0] == 'Y') && (t[1] == 'e' || t[1] == 'E') && (t[2]
                == 's' || t[2] == 'S'))
        }),
{
    let t = trim(answer);
    reveal_strlit("y");
    reveal_strlit("yes");
    assert(('y' as u32) == 121 && ('Y' as u32) == 89 && ('e' as u32) == 101 && ('E' as u32) == 69
        && ('s' as u32) == 115 && ('S' as u32) == 83);
    if t.len() == 1 {
        if eq_ignore_case(t, "y"@) {
            assert(t[0] == 'y' || (t[0] as u32) == 89);
            if (t[0] as u32) == 89 {
                vstd::utf8::char_u32_cast(t[0], 89);
            }
            assert(t =~= seq!['y'] || t =~= seq!['Y']);
        }
        if t == seq!['y'] || t == seq!['Y'] {
            assert(eq_ignore_case(t, "y"@));
        }
    }
    if t.len() == 3 {
        if eq_ignore_case(t, "yes"@) {
            assert(t[0] == 'y' || (t[0] as u32) == 89);
            assert(t[1] == 'e' || (t[1] as u32) == 69);
            assert(t[2] == 's' || (t[2] as u32) == 83);
            vstd::utf8::char_u32_cast(t[0], t[0] as u32);
            vstd::utf8::char_u32_cast(t[1], t[1] as u32);
            vstd::utf8::char_u32_cast(t[2], t[2] as u32);
        }
        if (t[0] == 'y' || t[0] == 'Y') && (t[1] == 'e' || t[1] == 'E') && (t[2] == 's' || t[2]
            == 'S') {
            assert(eq_ignore_case(t, "yes"@));
        }
    }
}

/// An upgrade spec is the package's name, `-`, its new version exactly as
/// stored (epoch included), `.`, and its architecture: the text between the
/// name's `-` and the last `.` is the new version, which is the version its
/// row shows.
pub proof fn upgrade_spec_law(u: UpdateView, c: Columns, show_arch: bool)
    ensures
        ({
            let s = upgrade_spec(u);
            let n = u.name.len() as int;
            let v = u.new_version.len() as int;
            let shown = row_view(u, c, show_arch).version;
            &&& s.len() == n + 1 + v + 1 + u.arch.len()
            &&& s.take(n) == u.name
            &&& s[n] == '-'
            &&& s.subrange(n + 1, n + 1 + v) == u.new_version
            &&& s[n + 1 + v] == '.'
            &&& s.skip(n + 2 + v) == u.arch
            &&& s.subrange(n + 1, s.len() - u.arch.len() - 1) == shown.prefix + shown.new_mid
                + shown.suffix
        }),
{
    let s = upgrade_spec(u);
    let n = u.name.len() as int;
    let v = u.new_version.len() as int;
    assert(s.take(n) =~= u.name);
    assert(s.subrange(n + 1, n + 1 + v) =~= u.new_version);
    assert(s.skip(n + 2 + v) =~= u.arch);
    lemma_diff_split_parts(u.old_version, u.new_version);
}

/// The upgrade command is `upgrade -y` followed by the spec of each update,
/// in the order of the updates.
pub proof fn upgrade_command_law(us: Seq<UpdateView>)
    ensures
        upgrade_args(us).len() == us.len() + 2,
        upgrade_args(us)[0] == "upgrade"@,
        upgrade_args(us)[1] == "-y"@,
        forall|j: int| 0 <= j < us.len() ==> #[trigger] upgrade_args(us)[j + 2] == upgrade_spec(us[j]),
{
}

} // verus!
