//! The progress and summary lines that `dnf` prints on standard error.
//!
//! The reading is a state machine: each line changes the state (whether a
//! spinner is shown, the sizes read so far) and yields the action that the
//! caller performs on the terminal.
use vstd::prelude::*;
use crate::model::SizeInfo;
use crate::size::{dnf_size, parse_size_chars};
use crate::text::{
    find_first,
    is_space,
    lemma_find_first,
    space_pred,
    words,
    views,
    chars_of,
    split_words,
    has_prefix_at,
    equals_lit,
    slice_of,
};

verus! {

/// Index of the first `". "` in `s`, or `s.len()`.
pub open spec fn find_sentence_end(s: Seq<char>) -> nat
    decreases s.len(),
{
    if s.len() < 2 {
        s.len()
    } else if s[0] == '.' && s[1] == ' ' {
        0
    } else {
        1 + find_sentence_end(s.drop_first())
    }
}

/// The second piece of `s` split at `". "` (`s.split(". ").nth(1)`).
pub open spec fn second_sentence(s: Seq<char>) -> Option<Seq<char>> {
    let i = find_sentence_end(s);
    if i >= s.len() {
        None
    } else {
        let rest = s.skip(i + 2 as int);
        Some(rest.take(find_sentence_end(rest) as int))
    }
}

/// `s` without its trailing full stops (`trim_end_matches('.')`).
pub open spec fn trim_full_stops(s: Seq<char>) -> Seq<char>
    decreases s.len(),
{
    if s.len() > 0 && s.last() == '.' {
        trim_full_stops(s.drop_last())
    } else {
        s
    }
}

/// The bytes to download that a line such as `Total size of inbound
/// packages is 53 MiB. Need to download 53 MiB.` announces.
pub open spec fn download_size(line: Seq<char>) -> Option<u64> {
    match second_sentence(line) {
        None => None,
        Some(part) => {
            let w = words(trim_full_stops(part));
            if w.len() == 5 && w[0] == "Need"@ && w[1] == "to"@ && w[2] == "download"@ {
                match dnf_size(w[3], w[4]) {
                    Ok(n) => Some(n),
                    Err(_) => None,
                }
            } else {
                None
            }
        },
    }
}

/// `-b`, wrapping at `i64::MIN`.
pub open spec fn negate(b: i64) -> i64 {
    if b == i64::MIN {
        b
    } else {
        (-b) as i64
    }
}

/// The text that opens the disk usage summary.
pub open spec fn disk_mark() -> Seq<char> {
    "After this operation, "@
}

/// The change of disk usage that a line such as `After this operation, 11
/// MiB extra will be used (...)` or `After this operation, 5 MiB will be
/// freed (...)` announces: positive when space is used, negative when it is
/// freed. The byte count is reinterpreted as `i64` (wrapping).
pub open spec fn disk_change(line: Seq<char>) -> Option<i64> {
    let m = disk_mark();
    if !(m.len() <= line.len() && line.take(m.len() as int) == m) {
        None
    } else {
        let w = words(line.skip(m.len() as int));
        if w.len() < 4 {
            None
        } else {
            match dnf_size(w[0], w[1]) {
                Err(_) => None,
                Ok(n) => {
                    let b = n as i64;
                    if w[2] == "extra"@ && w[3] == "will"@ {
                        Some(b)
                    } else if w[2] == "will"@ && w[3] == "be"@ && w.len() > 4 && w[4] == "freed"@ {
                        Some(negate(b))
                    } else {
                        None
                    }
                },
            }
        }
    }
}

// ---------------------------------------------------------------------------
// Reading single lines
/// Index of the first `". "` in `v[from..]`, as an index into `v`.
fn sentence_end(v: &Vec<char>, from: usize) -> (k: usize)
    requires
        from <= v@.len(),
    ensures
        from <= k <= v@.len(),
        find_sentence_end(v@.skip(from as int)) == k - from,
        k < v@.len() ==> k + 1 < v@.len(),
{
    let n = v.len();
    let mut k = from;
    while n - k > 1 && !(v[k] == '.' && v[k + 1] == ' ')
        invariant
            from <= k <= n == v@.len(),
            find_sentence_end(v@.skip(from as int)) == (k - from) + find_sentence_end(
                v@.skip(k as int),
            ),
        decreases n - k,
    {
        proof {
            let t = v@.skip(k as int);
            assert(t[0] == v@[k as int]);
            assert(t[1] == v@[k + 1]);
            assert(t.drop_first() =~= v@.skip(k + 1));
        }
        k += 1;
    }
    if n - k > 1 {
        proof {
            let t = v@.skip(k as int);
            assert(t[0] == v@[k as int]);
            assert(t[1] == v@[k + 1]);
        }
        k
    } else {
        proof {
            let t = v@.skip(k as int);
            assert(t.len() < 2);
        }
        n
    }
}

/// `v[..to]` without trailing full stops, as an end index.
fn trim_stops_end(v: &Vec<char>, from: usize, to: usize) -> (k: usize)
    requires
        from <= to <= v@.len(),
    ensures
        from <= k <= to,
        v@.subrange(from as int, k as int) == trim_full_stops(v@.subrange(from as int, to as int)),
{
    let mut k = to;
    while k > from && v[k - 1] == '.'
        invariant
            from <= k <= to <= v@.len(),
            trim_full_stops(v@.subrange(from as int, k as int)) == trim_full_stops(
                v@.subrange(from as int, to as int),
            ),
        decreases k,
    {
        assert(v@.subrange(from as int, k as int).drop_last() =~= v@.subrange(
            from as int,
            k - 1,
        ));
        k -= 1;
    }
    k
}

/// The bytes to download that a `Total size of inbound packages is ...
/// Need to download 53 MiB.` line announces.
pub fn parse_download_line(line: &str) -> (r: Option<u64>)
    ensures
        r == download_size(line@),
{
    let v = chars_of(line);
    let n = v.len();
    let i = sentence_end(&v, 0);
    assert(v@.skip(0) =~= v@);
    if i >= n {
        return None;
    }
    let start = i + 2;
    let j = sentence_end(&v, start);
    let k = trim_stops_end(&v, start, j);
    let part = slice_of(&v, start, k);
    proof {
        let rest = v@.skip(start as int);
        assert(rest.take(j - start) =~= v@.subrange(start as int, j as int));
    }
    let w = split_words(&part);
    if w.len() == 5 && equals_lit(&w[0], "Need") && equals_lit(&w[1], "to") && equals_lit(
        &w[2],
        "download",
    ) {
        assert(forall|m: int| 0 <= m < 5 ==> #[trigger] views(w@)[m] == w@[m]@);
        match parse_size_chars(&w[3], &w[4]) {
            Ok(n) => Some(n),
            Err(_) => None,
        }
    } else {
        proof {
            if w@.len() == 5 {
                assert(forall|m: int| 0 <= m < 5 ==> #[trigger] views(w@)[m] == w@[m]@);
            }
        }
        None
    }
}

/// The change of disk usage that an `After this operation, ...` line announces.
pub fn parse_disk_line(line: &str) -> (r: Option<i64>)
    ensures
        r == disk_change(line@),
{
    let v = chars_of(line);
    if !has_prefix_at(&v, 0, "After this operation, ") {
        proof {
            let m = disk_mark();
            if m.len() <= v@.len() {
                assert(v@.subrange(0, m.len() as int) == v@.take(m.len() as int));
            }
        }
        return None;
    }
    let m = "After this operation, ".unicode_len();
    let rest = slice_of(&v, m, v.len());
    proof {
        assert(v@.subrange(0, m as int) == v@.take(m as int));
        assert(rest@ =~= v@.skip(m as int));
    }
    let w = split_words(&rest);
    if w.len() < 4 {
        return None;
    }
    assert(forall|i: int| 0 <= i < w@.len() ==> #[trigger] views(w@)[i] == w@[i]@);
    let n = match parse_size_chars(&w[0], &w[1]) {
        Err(_) => {
            return None;
        },
        Ok(n) => n,
    };
    let b = n as i64;
    if equals_lit(&w[2], "extra") && equals_lit(&w[3], "will") {
        Some(b)
    } else if equals_lit(&w[2], "will") && equals_lit(&w[3], "be") && w.len() > 4 && equals_lit(
        &w[4],
        "freed",
    ) {
        if b == i64::MIN {
            Some(b)
        } else {
            Some(-b)
        }
    } else {
        None
    }
}

// ---------------------------------------------------------------------------
// The state machine
/// What the caller does on the terminal after a line.
#[derive(Debug)]
pub enum StderrAction {
    /// Start a spinner titled `Updating and loading repositories...`.
    StartSpinner,
    /// Clear the spinner.
    StopSpinner,
    /// Print the line above the spinner.
    PrintAboveSpinner(String),
    /// Print the line to standard error.
    Print(String),
    /// Nothing to show.
    Nothing,
}

/// What a `StderrAction` holds, as character sequences.
pub enum StderrActionView {
    StartSpinner,
    StopSpinner,
    PrintAboveSpinner(Seq<char>),
    Print(Seq<char>),
    Nothing,
}

impl View for StderrAction {
    type V = StderrActionView;

    open spec fn view(&self) -> StderrActionView {
        match self {
            StderrAction::StartSpinner => StderrActionView::StartSpinner,
            StderrAction::StopSpinner => StderrActionView::StopSpinner,
            StderrAction::PrintAboveSpinner(s) => StderrActionView::PrintAboveSpinner(s@),
            StderrAction::Print(s) => StderrActionView::Print(s@),
            StderrAction::Nothing => StderrActionView::Nothing,
        }
    }
}

/// The reader of `dnf`'s standard error between two lines.
pub struct StderrState {
    spinner: bool,
    sizes: SizeInfo,
    aborted: bool,
    read: Ghost<Seq<Seq<char>>>,
    shown: Ghost<Seq<Seq<char>>>,
}

/// What a `StderrState` holds: whether a spinner is shown, the sizes and
/// whether the abort notice came, and the lines read and shown so far.
pub struct StderrView {
    pub spinner: bool,
    pub download: Option<u64>,
    pub disk: Option<i64>,
    pub aborted: bool,
    pub read: Seq<Seq<char>>,
    pub shown: Seq<Seq<char>>,
}

impl View for StderrState {
    type V = StderrView;

    closed spec fn view(&self) -> StderrView {
        StderrView {
            spinner: self.spinner,
            download: self.sizes.download,
            disk: self.sizes.net_disk,
            aborted: self.aborted,
            read: self.read@,
            shown: self.shown@,
        }
    }
}

/// The notice `dnf` prints when `--assumeno` declines the transaction.
pub open spec fn abort_notice() -> Seq<char> {
    "Operation aborted by the user."@
}

/// What holds of the reader after any lines: its spinner and sizes are
/// those that reading the lines in order gives; the download size is that of
/// the last download summary line and the disk change that of the last disk
/// summary line (unchanged from none when there is no such line); the lines
/// shown are the lines read that are not quiet, in order; and the abort
/// notice came exactly when it is among the lines read.
pub open spec fn follows_stream(v: StderrView) -> bool {
    let (on, dl, dk, actions) = stderr_run(false, None, None, v.read);
    &&& v.spinner == on && v.download == dl && v.disk == dk
    &&& forall|i: int|
        0 <= i < v.read.len() && has_text_prefix(#[trigger] v.read[i], download_mark()) && (
        forall|j: int| i < j < v.read.len() ==> !has_text_prefix(v.read[j], download_mark()))
            ==> v.download == download_size(v.read[i])
    &&& (forall|i: int| 0 <= i < v.read.len() ==> !has_text_prefix(#[trigger] v.read[i], download_mark()))
        ==> v.download is None
    &&& forall|i: int|
        0 <= i < v.read.len() && has_text_prefix(#[trigger] v.read[i], "After this operation,"@) && (
        forall|j: int| i < j < v.read.len() ==> !has_text_prefix(v.read[j], "After this operation,"@))
            ==> v.disk == disk_change(v.read[i])
    &&& (forall|i: int|
        0 <= i < v.read.len() ==> !has_text_prefix(#[trigger] v.read[i], "After this operation,"@))
        ==> v.disk is None
    &&& v.shown == v.read.filter(|l: Seq<char>| !is_quiet_line(l))
    &&& v.shown == echoed_lines(actions)
    &&& v.aborted == v.read.contains(abort_notice())
}

/// What the reader ends with.
pub struct StderrEnd {
    /// Whether a spinner is still shown and must be cleared.
    pub clear_spinner: bool,
    /// The sizes read.
    pub sizes: SizeInfo,
    /// Whether the abort notice came.
    pub aborted: bool,
}

/// What a line does: the new spinner flag, the new sizes, and the action.
pub open spec fn stderr_step(spinner: bool, download: Option<u64>, disk: Option<i64>, line: Seq<
    char,
>) -> (bool, Option<u64>, Option<i64>, StderrActionView) {
    if line == "Updating and loading repositories:"@ {
        (true, download, disk, StderrActionView::StartSpinner)
    } else if line == "Repositories loaded."@ {
        if spinner {
            (false, download, disk, StderrActionView::StopSpinner)
        } else {
            (false, download, disk, StderrActionView::Nothing)
        }
    } else if line == "Operation aborted by the user."@ {
        (spinner, download, disk, StderrActionView::Nothing)
    } else if has_text_prefix(line, "Total size of inbound packages is"@) {
        (spinner, download_size(line), disk, StderrActionView::Nothing)
    } else if has_text_prefix(line, "After this operation,"@) {
        (spinner, download, disk_change(line), StderrActionView::Nothing)
    } else if spinner {
        (spinner, download, disk, StderrActionView::PrintAboveSpinner(line))
    } else {
        (spinner, download, disk, StderrActionView::Print(line))
    }
}

/// `line` begins with `prefix`.
pub open spec fn has_text_prefix(line: Seq<char>, prefix: Seq<char>) -> bool {
    prefix.len() <= line.len() && line.take(prefix.len() as int) == prefix
}

impl StderrState {
    #[verifier::type_invariant]
    spec fn reads_in_order(self) -> bool {
        follows_stream(self@)
    }

    /// The state before the first line: no spinner, no sizes, nothing read.
    pub fn new() -> (r: StderrState)
        ensures
            !r@.spinner,
            r@.download is None,
            r@.disk is None,
            !r@.aborted,
            r@.read == Seq::<Seq<char>>::empty(),
            r@.shown == Seq::<Seq<char>>::empty(),
            follows_stream(r@),
    {
        proof {
            let e = Seq::<Seq<char>>::empty();
            assert(e.filter(|l: Seq<char>| !is_quiet_line(l)) =~= e) by {
                reveal(Seq::filter);
            }
            assert(!e.contains(abort_notice()));
            assert(stderr_run(false, None, None, e) == (false, None::<u64>, None::<i64>, Seq::<StderrActionView>::empty()));
            assert(echoed_lines(Seq::<StderrActionView>::empty()) == e);
        }
        StderrState {
            spinner: false,
            sizes: SizeInfo { download: None, net_disk: None },
            aborted: false,
            read: Ghost(Seq::empty()),
            shown: Ghost(Seq::empty()),
        }
    }

    /// Whether a spinner is shown.
    pub fn spinner(&self) -> (r: bool)
        ensures
            r == self@.spinner,
    {
        self.spinner
    }

    /// The sizes read so far.
    pub fn sizes(&self) -> (r: SizeInfo)
        ensures
            r.download == self@.download,
            r.net_disk == self@.disk,
    {
        SizeInfo { download: self.sizes.download, net_disk: self.sizes.net_disk }
    }

    /// Reads one line of `dnf`'s standard error.
    pub fn line(&mut self, line: &str) -> (r: StderrAction)
        ensures
            stderr_step(old(self)@.spinner, old(self)@.download, old(self)@.disk, line@) == (
                final(self)@.spinner,
                final(self)@.download,
                final(self)@.disk,
                r@,
            ),
            final(self)@.aborted == (old(self)@.aborted || line@ == abort_notice()),
            final(self)@.read == old(self)@.read.push(line@),
            final(self)@.shown == old(self)@.shown + echoed_lines(seq![r@]),
            follows_stream(final(self)@),
    {
        proof {
            use_type_invariant(&*self);
        }
        let ghost before = self@;
        let (spinner, download, disk, action) = step_line(
            self.spinner,
            self.sizes.download,
            self.sizes.net_disk,
            line,
        );
        let is_abort = equals_lit(&chars_of(line), "Operation aborted by the user.");
        let ghost read = before.read.push(line@);
        let ghost shown = before.shown + echoed_lines(seq![action@]);
        proof {
            lemma_run_push(false, None, None, before.read, line@);
            lemma_echoed_push(stderr_run(false, None, None, before.read).3, action@);
            last_summary_line_wins(false, None, None, read);
            echoed_lines_law(false, None, None, read);
            assert(read.contains(abort_notice()) == (before.read.contains(abort_notice())
                || line@ == abort_notice())) by {
                if line@ == abort_notice() {
                    assert(read[read.len() - 1] == line@);
                }
                if before.read.contains(abort_notice()) {
                    let k = choose|k: int| 0 <= k < before.read.len() && before.read[k] == abort_notice();
                    assert(read[k] == abort_notice());
                }
                if read.contains(abort_notice()) {
                    let k = choose|k: int| 0 <= k < read.len() && read[k] == abort_notice();
                    if k < before.read.len() {
                        assert(before.read[k] == abort_notice());
                    }
                }
            }
        }
        *self = StderrState {
            spinner,
            sizes: SizeInfo { download, net_disk: disk },
            aborted: self.aborted || is_abort,
            read: Ghost(read),
            shown: Ghost(shown),
        };
        action
    }

    /// Ends the reading: whether a spinner must be cleared, the sizes, and
    /// whether the abort notice came.
    pub fn finish(self) -> (r: StderrEnd)
        ensures
            r.clear_spinner == self@.spinner,
            r.sizes.download == self@.download,
            r.sizes.net_disk == self@.disk,
            r.aborted == self@.aborted,
            follows_stream(self@),
    {
        proof {
            use_type_invariant(&self);
        }
        StderrEnd {
            clear_spinner: self.spinner,
            sizes: SizeInfo { download: self.sizes.download, net_disk: self.sizes.net_disk },
            aborted: self.aborted,
        }
    }
}

/// One step of the reader on plain values.
fn step_line(spinner: bool, download: Option<u64>, disk: Option<i64>, line: &str) -> (r: (
    bool,
    Option<u64>,
    Option<i64>,
    StderrAction,
))
    ensures
        stderr_step(spinner, download, disk, line@) == (r.0, r.1, r.2, r.3@),
{
    let v = chars_of(line);
    if equals_lit(&v, "Updating and loading repositories:") {
        (true, download, disk, StderrAction::StartSpinner)
    } else if equals_lit(&v, "Repositories loaded.") {
        if spinner {
            (false, download, disk, StderrAction::StopSpinner)
        } else {
            (false, download, disk, StderrAction::Nothing)
        }
    } else if equals_lit(&v, "Operation aborted by the user.") {
        (spinner, download, disk, StderrAction::Nothing)
    } else if has_prefix_at(&v, 0, "Total size of inbound packages is") {
        proof {
            let p = "Total size of inbound packages is"@;
            assert(v@.subrange(0, p.len() as int) == v@.take(p.len() as int));
        }
        (spinner, parse_download_line(line), disk, StderrAction::Nothing)
    } else {
        proof {
            let p = "Total size of inbound packages is"@;
            if p.len() <= v@.len() {
                assert(v@.subrange(0, p.len() as int) == v@.take(p.len() as int));
            }
            let q = "After this operation,"@;
            if q.len() <= v@.len() {
                assert(v@.subrange(0, q.len() as int) == v@.take(q.len() as int));
            }
        }
        if has_prefix_at(&v, 0, "After this operation,") {
            (spinner, download, parse_disk_line(line), StderrAction::Nothing)
        } else if spinner {
            (spinner, download, disk, StderrAction::PrintAboveSpinner(line.to_owned()))
        } else {
            (spinner, download, disk, StderrAction::Print(line.to_owned()))
        }
    }
}

proof fn lemma_run_push(
    spinner: bool,
    download: Option<u64>,
    disk: Option<i64>,
    lines: Seq<Seq<char>>,
    l: Seq<char>,
)
    ensures
        ({
            let (on, dl, dk, actions) = stderr_run(spinner, download, disk, lines);
            let (on2, dl2, dk2, action) = stderr_step(on, dl, dk, l);
            stderr_run(spinner, download, disk, lines.push(l)) == (on2, dl2, dk2, actions.push(action))
        }),
    decreases lines.len(),
{
    if lines.len() == 0 {
        assert(lines.push(l).drop_first() =~= Seq::<Seq<char>>::empty());
        assert(lines.push(l)[0] == l);
        let (on2, dl2, dk2, action) = stderr_step(spinner, download, disk, l);
        let e = Seq::<Seq<char>>::empty();
        assert(stderr_run(on2, dl2, dk2, e) == (on2, dl2, dk2, Seq::<StderrActionView>::empty()));
        assert(stderr_run(spinner, download, disk, lines) == (spinner, download, disk, Seq::<StderrActionView>::empty()));
        assert(stderr_run(spinner, download, disk, lines.push(l)) == (on2, dl2, dk2, seq![action]
            + Seq::<StderrActionView>::empty()));
        assert(seq![action] + Seq::<StderrActionView>::empty() =~= Seq::<StderrActionView>::empty().push(action));
    } else {
        let (on, dl, dk, a) = stderr_step(spinner, download, disk, lines[0]);
        let rest = lines.drop_first();
        assert(lines.push(l).drop_first() =~= rest.push(l));
        assert(lines.push(l)[0] == lines[0]);
        lemma_run_push(on, dl, dk, rest, l);
        let r = stderr_run(on, dl, dk, rest);
        let (x, y, z, last) = stderr_step(r.0, r.1, r.2, l);
        assert(stderr_run(on, dl, dk, rest.push(l)) == (x, y, z, r.3.push(last)));
        assert(stderr_run(spinner, download, disk, lines) == (r.0, r.1, r.2, seq![a] + r.3));
        assert(stderr_run(spinner, download, disk, lines.push(l)) == (x, y, z, seq![a] + r.3.push(
            last,
        )));
        assert(seq![a] + r.3.push(last) =~= (seq![a] + r.3).push(last));
    }
}

proof fn lemma_echoed_push(actions: Seq<StderrActionView>, a: StderrActionView)
    ensures
        echoed_lines(actions.push(a)) == echoed_lines(actions) + echoed_lines(seq![a]),
    decreases actions.len(),
{
    if actions.len() == 0 {
        assert(actions.push(a) =~= seq![a]);
        assert(echoed_lines(actions) == Seq::<Seq<char>>::empty());
        assert(Seq::<Seq<char>>::empty() + echoed_lines(seq![a]) =~= echoed_lines(seq![a]));
    } else {
        assert(actions.push(a).drop_first() =~= actions.drop_first().push(a));
        assert(actions.push(a)[0] == actions[0]);
        lemma_echoed_push(actions.drop_first(), a);
        let h = match actions[0] {
            StderrActionView::PrintAboveSpinner(l) => seq![l],
            StderrActionView::Print(l) => seq![l],
            _ => Seq::<Seq<char>>::empty(),
        };
        assert(h + (echoed_lines(actions.drop_first()) + echoed_lines(seq![a])) =~= (h
            + echoed_lines(actions.drop_first())) + echoed_lines(seq![a]));
    }
}

/// The spinner turns on only at the line that opens repository loading and
/// then shows; it is stopped only while shown; lines go above it only while
/// it is shown; and only the two summary lines change the sizes.
pub proof fn spinner_and_sizes_law(
    spinner: bool,
    download: Option<u64>,
    disk: Option<i64>,
    line: Seq<char>,
)
    ensures
        ({
            let (on, dl, dk, action) = stderr_step(spinner, download, disk, line);
            &&& on && !spinner ==> action is StartSpinner
            &&& action is StartSpinner ==> on
            &&& action is StopSpinner ==> spinner && !on
            &&& action is PrintAboveSpinner ==> spinner && on
            &&& action is Print ==> !spinner && !on
            &&& dl != download ==> has_text_prefix(line, "Total size of inbound packages is"@)
            &&& dk != disk ==> has_text_prefix(line, "After this operation,"@)
        }),
{
}

// ---------------------------------------------------------------------------
// Reading a whole stream
/// The state after reading `lines` one after another from the given state,
/// and the actions the lines yield, in order.
pub open spec fn stderr_run(
    spinner: bool,
    download: Option<u64>,
    disk: Option<i64>,
    lines: Seq<Seq<char>>,
) -> (bool, Option<u64>, Option<i64>, Seq<StderrActionView>)
    decreases lines.len(),
{
    if lines.len() == 0 {
        (spinner, download, disk, Seq::empty())
    } else {
        let (on, dl, dk, action) = stderr_step(spinner, download, disk, lines[0]);
        let (on2, dl2, dk2, actions) = stderr_run(on, dl, dk, lines.drop_first());
        (on2, dl2, dk2, seq![action] + actions)
    }
}

/// The text that opens the download summary.
pub open spec fn download_mark() -> Seq<char> {
    "Total size of inbound packages is"@
}

/// A line that is read and not shown again: the repository loading lines,
/// the abort notice and the two summary lines.
pub open spec fn is_quiet_line(line: Seq<char>) -> bool {
    ||| line == "Updating and loading repositories:"@
    ||| line == "Repositories loaded."@
    ||| line == "Operation aborted by the user."@
    ||| has_text_prefix(line, download_mark())
    ||| has_text_prefix(line, "After this operation,"@)
}

/// The lines that actions write back to the terminal, in order.
pub open spec fn echoed_lines(actions: Seq<StderrActionView>) -> Seq<Seq<char>>
    decreases actions.len(),
{
    if actions.len() == 0 {
        Seq::empty()
    } else {
        (match actions[0] {
            StderrActionView::PrintAboveSpinner(l) => seq![l],
            StderrActionView::Print(l) => seq![l],
            _ => Seq::empty(),
        }) + echoed_lines(actions.drop_first())
    }
}

/// The two summary marks exclude each other and the three fixed lines.
proof fn lemma_summary_marks(l: Seq<char>)
    ensures
        has_text_prefix(l, download_mark()) ==> !has_text_prefix(l, "After this operation,"@),
        has_text_prefix(l, download_mark()) || has_text_prefix(l, "After this operation,"@) ==> l
            != "Updating and loading repositories:"@ && l != "Repositories loaded."@ && l
            != "Operation aborted by the user."@,
{
    let t = download_mark();
    let a = "After this operation,"@;
    reveal_strlit("Total size of inbound packages is");
    reveal_strlit("After this operation,");
    reveal_strlit("Updating and loading repositories:");
    reveal_strlit("Repositories loaded.");
    reveal_strlit("Operation aborted by the user.");
    if has_text_prefix(l, t) {
        assert(l[0] == t[0]);
    }
    if has_text_prefix(l, a) {
        assert(l[0] == a[0]);
    }
}

/// Over a whole stream, the last download summary line decides the download
/// size and the last disk summary line the disk change; without such a
/// line the value stays as it was.
#[verifier::spinoff_prover]
pub proof fn last_summary_line_wins(
    spinner: bool,
    download: Option<u64>,
    disk: Option<i64>,
    lines: Seq<Seq<char>>,
)
    ensures
        ({
            let (on, dl, dk, actions) = stderr_run(spinner, download, disk, lines);
            &&& forall|i: int|
                0 <= i < lines.len() && has_text_prefix(#[trigger] lines[i], download_mark()) && (
                forall|j: int| i < j < lines.len() ==> !has_text_prefix(lines[j], download_mark()))
                    ==> dl == download_size(lines[i])
            &&& (forall|i: int| 0 <= i < lines.len() ==> !has_text_prefix(#[trigger] lines[i], download_mark()))
                ==> dl == download
            &&& forall|i: int|
                0 <= i < lines.len() && has_text_prefix(#[trigger] lines[i], "After this operation,"@)
                    && (forall|j: int|
                    i < j < lines.len() ==> !has_text_prefix(lines[j], "After this operation,"@))
                    ==> dk == disk_change(lines[i])
            &&& (forall|i: int|
                0 <= i < lines.len() ==> !has_text_prefix(#[trigger] lines[i], "After this operation,"@))
                ==> dk == disk
        }),
    decreases lines.len(),
{
    if lines.len() > 0 {
        let l = lines[0];
        let rest = lines.drop_first();
        let (on, dl, dk, action) = stderr_step(spinner, download, disk, l);
        last_summary_line_wins(on, dl, dk, rest);
        let t = download_mark();
        let a = "After this operation,"@;
        lemma_summary_marks(l);
        assert forall|i: int|
            0 <= i < lines.len() && has_text_prefix(#[trigger] lines[i], t) && (forall|j: int|
                i < j < lines.len() ==> !has_text_prefix(lines[j], t)) implies stderr_run(
            spinner,
            download,
            disk,
            lines,
        ).1 == download_size(lines[i]) by {
            if i > 0 {
                assert(rest[i - 1] == lines[i]);
                assert forall|j: int| i - 1 < j < rest.len() implies !has_text_prefix(rest[j], t) by {
                    assert(rest[j] == lines[j + 1]);
                }
            } else {
                assert forall|j: int| 0 <= j < rest.len() implies !has_text_prefix(
                    #[trigger] rest[j],
                    t,
                ) by {
                    assert(rest[j] == lines[j + 1]);
                }
            }
        }
        assert forall|i: int|
            0 <= i < lines.len() && has_text_prefix(#[trigger] lines[i], a) && (forall|j: int|
                i < j < lines.len() ==> !has_text_prefix(lines[j], a)) implies stderr_run(
            spinner,
            download,
            disk,
            lines,
        ).2 == disk_change(lines[i]) by {
            if i > 0 {
                assert(rest[i - 1] == lines[i]);
                assert forall|j: int| i - 1 < j < rest.len() implies !has_text_prefix(rest[j], a) by {
                    assert(rest[j] == lines[j + 1]);
                }
            } else {
                assert forall|j: int| 0 <= j < rest.len() implies !has_text_prefix(
                    #[trigger] rest[j],
                    a,
                ) by {
                    assert(rest[j] == lines[j + 1]);
                }
            }
        }
        if forall|i: int| 0 <= i < lines.len() ==> !has_text_prefix(#[trigger] lines[i], t) {
            assert(!has_text_prefix(lines[0], t));
            assert forall|i: int| 0 <= i < rest.len() implies !has_text_prefix(#[trigger] rest[i], t) by {
                assert(rest[i] == lines[i + 1]);
            }
        }
        if forall|i: int| 0 <= i < lines.len() ==> !has_text_prefix(#[trigger] lines[i], a) {
            assert(!has_text_prefix(lines[0], a));
            assert forall|i: int| 0 <= i < rest.len() implies !has_text_prefix(#[trigger] rest[i], a) by {
                assert(rest[i] == lines[i + 1]);
            }
        }
    }
}

/// Over a whole stream, the lines written back to the terminal are exactly
/// the lines that are not quiet, unchanged and in their order.
#[verifier::spinoff_prover]
pub proof fn echoed_lines_law(
    spinner: bool,
    download: Option<u64>,
    disk: Option<i64>,
    lines: Seq<Seq<char>>,
)
    ensures
        echoed_lines(stderr_run(spinner, download, disk, lines).3) == lines.filter(
            |l: Seq<char>| !is_quiet_line(l),
        ),
    decreases lines.len(),
{
    let p = |l: Seq<char>| !is_quiet_line(l);
    if lines.len() == 0 {
        assert(lines.filter(p) =~= Seq::<Seq<char>>::empty()) by {
            reveal(Seq::filter);
        }
    } else {
        let l = lines[0];
        let rest = lines.drop_first();
        let (on, dl, dk, action) = stderr_step(spinner, download, disk, l);
        echoed_lines_law(on, dl, dk, rest);
        let actions = stderr_run(on, dl, dk, rest).3;
        let all = seq![action] + actions;
        assert(all.drop_first() =~= actions);
        assert(seq![l] + rest =~= lines);
        rest.lemma_filter_prepend(l, p);
        reveal_strlit("Total size of inbound packages is");
        reveal_strlit("After this operation,");
        reveal_strlit("Updating and loading repositories:");
        reveal_strlit("Repositories loaded.");
        reveal_strlit("Operation aborted by the user.");
        if is_quiet_line(l) {
            assert(echoed_lines(all) =~= echoed_lines(actions));
        } else {
            assert(echoed_lines(all) =~= seq![l] + echoed_lines(actions));
        }
    }
}

// ---------------------------------------------------------------------------
// The download summary line, piece by piece
/// `s` holds no full stop followed by a space.
pub open spec fn no_sentence_break(s: Seq<char>) -> bool {
    forall|i: int| 0 <= i < s.len() - 1 ==> !(#[trigger] s[i] == '.' && s[i + 1] == ' ')
}

/// A word: some characters and no whitespace.
pub open spec fn is_word(w: Seq<char>) -> bool {
    w.len() > 0 && forall|i: int| 0 <= i < w.len() ==> !is_space(#[trigger] w[i])
}

proof fn lemma_sentence_end_append(x: Seq<char>, y: Seq<char>)
    requires
        no_sentence_break(x),
        x.len() == 0 || y.len() == 0 || !(x.last() == '.' && y[0] == ' '),
    ensures
        find_sentence_end(x + y) == x.len() + find_sentence_end(y),
    decreases x.len(),
{
    if x.len() > 0 {
        let t = x.drop_first();
        assert((x + y).drop_first() =~= t + y);
        assert forall|i: int| 0 <= i < t.len() - 1 implies !(#[trigger] t[i] == '.' && t[i + 1] == ' ') by {
            assert(t[i] == x[i + 1] && t[i + 1] == x[i + 2]);
        }
        if x.len() >= 2 {
            assert(!(x[0] == '.' && x[1] == ' '));
        }
        lemma_sentence_end_append(t, y);
    }
}

proof fn lemma_words_cons(w: Seq<char>, rest: Seq<char>)
    requires
        is_word(w),
    ensures
        words(w + seq![' '] + rest) == seq![w] + words(rest),
{
    let s = w + seq![' '] + rest;
    assert(s[0] == w[0]);
    assert forall|j: int| 0 <= j < w.len() implies !space_pred()(#[trigger] s[j]) by {
        assert(s[j] == w[j]);
    }
    assert(s[w.len() as int] == ' ');
    assert(is_space(' '));
    lemma_find_first(s, space_pred(), w.len() as int);
    assert(s.take(w.len() as int) =~= w);
    let t = s.skip(w.len() as int);
    assert(t =~= seq![' '] + rest);
    assert(t[0] == ' ');
    assert(t.drop_first() =~= rest);
    assert(!is_space(s[0]));
    assert(find_first(s, space_pred()) == w.len());
    assert(words(s) == seq![s.take(w.len() as int)] + words(t));
    assert(words(t) == words(t.drop_first()));
}

proof fn lemma_words_one(w: Seq<char>)
    requires
        is_word(w),
    ensures
        words(w) == seq![w],
{
    assert forall|j: int| 0 <= j < w.len() implies !space_pred()(#[trigger] w[j]) by {}
    lemma_find_first(w, space_pred(), w.len() as int);
    assert(w.take(w.len() as int) =~= w);
    assert(w.skip(w.len() as int) =~= Seq::<char>::empty());
    assert(!is_space(w[0]));
    assert(words(w) == seq![w.take(w.len() as int)] + words(w.skip(w.len() as int)));
    assert(words(Seq::<char>::empty()) == Seq::<Seq<char>>::empty());
    assert(seq![w] + Seq::<Seq<char>>::empty() =~= seq![w]);
}

/// A download summary line `Total size of inbound packages is A. Need to
/// download N U.` gives exactly the byte count that reading `N U` as a size
/// gives (`N` scaled by 2^30, 2^20, 2^10 or 1 for `GiB`, `MiB`, `KiB`, `B`),
/// or nothing when `N U` is not a size; whatever the first sentence `A`
/// says, as long as it holds no full stop followed by a space.
#[verifier::spinoff_prover]
pub proof fn download_line_reads_its_size(a: Seq<char>, n: Seq<char>, u: Seq<char>)
    requires
        no_sentence_break(a),
        is_word(n),
        is_word(u),
        n.last() != '.',
        u.last() != '.',
    ensures
        download_size(
            "Total size of inbound packages is "@ + a + ". Need to download "@ + n + " "@ + u
                + "."@,
        ) == match dnf_size(n, u) {
            Ok(x) => Some(x),
            Err(_) => None::<u64>,
        },
{
    let r = "Need to download "@ + n + " "@ + u + "."@;
    lemma_download_second_sentence(a, n, u);
    lemma_download_words(n, u);
}

/// The second sentence of a download summary line is everything after the
/// first sentence.
#[verifier::spinoff_prover]
proof fn lemma_download_second_sentence(a: Seq<char>, n: Seq<char>, u: Seq<char>)
    requires
        no_sentence_break(a),
        is_word(n),
        is_word(u),
        n.last() != '.',
    ensures
        second_sentence(
            "Total size of inbound packages is "@ + a + ". Need to download "@ + n + " "@ + u
                + "."@,
        ) == Some("Need to download "@ + n + " "@ + u + "."@),
{
    reveal_strlit("Total size of inbound packages is ");
    reveal_strlit(". Need to download ");
    reveal_strlit("Need to download ");
    reveal_strlit(" ");
    reveal_strlit(".");
    let p = "Total size of inbound packages is "@;
    let r = "Need to download "@ + n + " "@ + u + "."@;
    let line = p + a + ". Need to download "@ + n + " "@ + u + "."@;
    assert(". Need to download "@ =~= seq!['.', ' '] + "Need to download "@);
    assert(line =~= p + (a + (seq!['.', ' '] + r)));
    assert(no_sentence_break(p));
    lemma_sentence_end_append(p, a + (seq!['.', ' '] + r));
    lemma_sentence_end_append(a, seq!['.', ' '] + r);
    assert(find_sentence_end(seq!['.', ' '] + r) == 0);
    let i: int = (p.len() + a.len()) as int;
    assert(line.skip(i + 2) =~= r);
    let head = "Need to download "@;
    assert(r =~= head + (n + (seq![' '] + (u + seq!['.']))));
    assert(no_sentence_break(head));
    lemma_sentence_end_append(head, n + (seq![' '] + (u + seq!['.'])));
    assert forall|k: int| 0 <= k < n.len() - 1 implies !(#[trigger] n[k] == '.' && n[k + 1] == ' ') by {
        assert(!is_space(n[k + 1]));
        assert(is_space(' '));
    }
    lemma_sentence_end_append(n, seq![' '] + (u + seq!['.']));
    assert(no_sentence_break(seq![' ']));
    lemma_sentence_end_append(seq![' '], u + seq!['.']);
    assert forall|k: int| 0 <= k < u.len() - 1 implies !(#[trigger] u[k] == '.' && u[k + 1] == ' ') by {
        assert(!is_space(u[k + 1]));
        assert(is_space(' '));
    }
    lemma_sentence_end_append(u, seq!['.']);
    assert(find_sentence_end(seq!['.']) == 1);
    assert(r.take(r.len() as int) =~= r);
}

/// Without its full stop, `Need to download N U.` is those five words.
#[verifier::spinoff_prover]
proof fn lemma_download_words(n: Seq<char>, u: Seq<char>)
    requires
        is_word(n),
        is_word(u),
        u.last() != '.',
    ensures
        words(trim_full_stops("Need to download "@ + n + " "@ + u + "."@)) == seq![
            "Need"@,
            "to"@,
            "download"@,
            n,
            u,
        ],
{
    reveal_strlit("Need to download ");
    reveal_strlit(" ");
    reveal_strlit(".");
    reveal_strlit("Need");
    reveal_strlit("to");
    reveal_strlit("download");
    let r = "Need to download "@ + n + " "@ + u + "."@;
    let body = "Need to download "@ + n + " "@ + u;
    assert(r.drop_last() =~= body);
    assert(trim_full_stops(body) == body);
    assert(trim_full_stops(r) == body);
    let need = "Need"@;
    let to = "to"@;
    let dl = "download"@;
    assert(is_word(need) && is_word(to) && is_word(dl));
    assert(body =~= need + seq![' '] + (to + seq![' '] + (dl + seq![' '] + (n + seq![' '] + u))));
    lemma_words_one(u);
    lemma_words_cons(n, u);
    lemma_words_cons(dl, n + seq![' '] + u);
    lemma_words_cons(to, dl + seq![' '] + (n + seq![' '] + u));
    lemma_words_cons(need, to + seq![' '] + (dl + seq![' '] + (n + seq![' '] + u)));
    assert(words(body) =~= seq![need, to, dl, n, u]);
}

/// A disk summary line gives the byte count that its `N U` reads as: as an
/// increase in `After this operation, N U extra will ...`, and as a decrease
/// in `After this operation, N U will be freed ...`; nothing when `N U` is
/// not a size. (A count of 2^63 bytes or more does not fit the change.)
#[verifier::spinoff_prover]
pub proof fn disk_line_reads_its_change(n: Seq<char>, u: Seq<char>, rest: Seq<char>)
    requires
        is_word(n),
        is_word(u),
    ensures
        ({
            let used = "After this operation, "@ + n + " "@ + u + " extra will "@ + rest;
            let freed = "After this operation, "@ + n + " "@ + u + " will be freed "@ + rest;
            &&& (dnf_size(n, u) is Ok && dnf_size(n, u)->Ok_0 < 0x8000_0000_0000_0000) ==> ({
                let x = dnf_size(n, u)->Ok_0;
                disk_change(used) == Some(x as i64) && disk_change(freed) == Some(
                    (-(x as int)) as i64,
                )
            })
            &&& dnf_size(n, u) is Err ==> disk_change(used) is None && disk_change(freed) is None
        }),
{
    reveal_strlit("After this operation, ");
    reveal_strlit(" ");
    reveal_strlit(" extra will ");
    reveal_strlit(" will be freed ");
    reveal_strlit("extra");
    reveal_strlit("will");
    reveal_strlit("be");
    reveal_strlit("freed");
    let m = disk_mark();
    let extra = "extra"@;
    let will = "will"@;
    let be = "be"@;
    let fr = "freed"@;
    assert(is_word(extra) && is_word(will) && is_word(be) && is_word(fr));
    let used = "After this operation, "@ + n + " "@ + u + " extra will "@ + rest;
    let freed = "After this operation, "@ + n + " "@ + u + " will be freed "@ + rest;
    let body_used = n + seq![' '] + (u + seq![' '] + (extra + seq![' '] + (will + seq![' '] + rest)));
    let body_freed = n + seq![' '] + (u + seq![' '] + (will + seq![' '] + (be + seq![' '] + (fr
        + seq![' '] + rest))));
    assert(used =~= m + body_used);
    assert(freed =~= m + body_freed);
    assert(used.take(m.len() as int) =~= m);
    assert(used.skip(m.len() as int) =~= body_used);
    assert(freed.take(m.len() as int) =~= m);
    assert(freed.skip(m.len() as int) =~= body_freed);
    lemma_words_cons(will, rest);
    lemma_words_cons(extra, will + seq![' '] + rest);
    lemma_words_cons(u, extra + seq![' '] + (will + seq![' '] + rest));
    lemma_words_cons(n, u + seq![' '] + (extra + seq![' '] + (will + seq![' '] + rest)));
    let wu = words(body_used);
    assert(wu[0] == n && wu[1] == u && wu[2] == extra && wu[3] == will);
    lemma_words_cons(fr, rest);
    lemma_words_cons(be, fr + seq![' '] + rest);
    lemma_words_cons(will, be + seq![' '] + (fr + seq![' '] + rest));
    lemma_words_cons(u, will + seq![' '] + (be + seq![' '] + (fr + seq![' '] + rest)));
    lemma_words_cons(n, u + seq![' '] + (will + seq![' '] + (be + seq![' '] + (fr + seq![' ']
        + rest))));
    let wf = words(body_freed);
    assert(wf[0] == n && wf[1] == u && wf[2] == will && wf[3] == be && wf[4] == fr);
    assert(extra != will) by {
        assert(extra.len() != will.len());
    }
}

} // verus!
