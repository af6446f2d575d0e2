//! What happens to the working log and the authorship log when a commit is made: only the
//! files that were committed count, and line numbers move from the working tree to the
//! commit.

use vstd::prelude::*;
use vstd::string::*;

use crate::apply::{built_prompts, empty_state, opt_str, replay, wrap32};
use crate::authorship_log::{
    AttestationEntry, AttestationView, AuthorshipLog, FileAttestation, FileView, LogView, attestations_view, files_view,
    find_hunk, hunk_ranges, restricted_files, used_prompts,
};
use crate::blame_args::strings_view;
use crate::finalize::{finalized_files, keep_files, keep_nonempty};
use crate::line_range::{LineRange, compress_spec, covered, holds_line, lemma_holds_push, lemma_increasing_unique, sorted_unique, strictly_increasing};
use crate::squash::lines_where;
use crate::text::str_eq;
use crate::working_log::{Checkpoint, CheckpointView, EntryView, WorkingLogEntry, checkpoints_view, entries_view};

verus! {

/// The entries of `es` whose file is one of `files`, in order.
pub open spec fn committed_entries(es: Seq<EntryView>, files: Seq<Seq<char>>) -> Seq<EntryView>
    decreases es.len(),
{
    if es.len() == 0 {
        es
    } else {
        let p = committed_entries(es.drop_last(), files);
        if files.contains(es.last().file) {
            p.push(es.last())
        } else {
            p
        }
    }
}

/// The checkpoints of `cs` cut down to the committed files `files`; checkpoints left with
/// no entry are dropped.
pub open spec fn committed_checkpoints(cs: Seq<CheckpointView>, files: Seq<Seq<char>>) -> Seq<CheckpointView>
    decreases cs.len(),
{
    if cs.len() == 0 {
        cs
    } else {
        let p = committed_checkpoints(cs.drop_last(), files);
        let es = committed_entries(cs.last().entries, files);
        if es.len() > 0 {
            p.push(CheckpointView { entries: es, ..cs.last() })
        } else {
            p
        }
    }
}

/// Whether `files` holds `f`.
fn holds_file(files: &[String], f: &str) -> (r: bool)
    ensures
        r == strings_view(files@).contains(f@),
{
    let mut i: usize = 0;
    while i < files.len()
        invariant
            i <= files.len(),
            forall|k: int| 0 <= k < i ==> files@[k]@ != f@,
        decreases files.len() - i,
    {
        if crate::text::str_eq(files[i].as_str(), f) {
            assert(strings_view(files@)[i as int] == f@);
            return true;
        }
        i = i + 1;
    }
    proof {
        if strings_view(files@).contains(f@) {
            let k = choose|k: int| 0 <= k < strings_view(files@).len() && strings_view(files@)[k] == f@;
            assert(files@[k]@ == f@);
        }
    }
    false
}

/// A copy of checkpoint `c` with entries `es`.
fn with_entries(c: &Checkpoint, es: Vec<WorkingLogEntry>) -> (r: Checkpoint)
    ensures
        r@ == (CheckpointView { entries: entries_view(es@), ..c@ }),
{
    let mut r = c.duplicate();
    r.entries = es;
    r
}

/// Keeps, of the working log, only the entries for files that were committed
/// (`committed_files`), and only the checkpoints that keep an entry.
pub fn filter_untracked_files(working_log: &[Checkpoint], committed_files: &[String]) -> (r: Vec<Checkpoint>)
    ensures
        checkpoints_view(r@) == committed_checkpoints(checkpoints_view(working_log@), strings_view(committed_files@)),
{
    let ghost fv = strings_view(committed_files@);
    let mut r: Vec<Checkpoint> = Vec::new();
    let mut i: usize = 0;
    while i < working_log.len()
        invariant
            fv == strings_view(committed_files@),
            i <= working_log@.len(),
            checkpoints_view(r@) == committed_checkpoints(checkpoints_view(working_log@.subrange(0, i as int)), fv),
        decreases working_log.len() - i,
    {
        let c = &working_log[i];
        let ghost ev = c@.entries;
        let mut kept: Vec<WorkingLogEntry> = Vec::new();
        let mut j: usize = 0;
        while j < c.entries.len()
            invariant
                fv == strings_view(committed_files@),
                ev == c@.entries,
                ev == entries_view(c.entries@),
                j <= c.entries@.len(),
                entries_view(kept@) == committed_entries(ev.subrange(0, j as int), fv),
            decreases c.entries.len() - j,
        {
            let ghost prev = kept@;
            proof {
                let cur = ev.subrange(0, j + 1);
                assert(cur.drop_last() =~= ev.subrange(0, j as int));
                assert(cur.last() == c.entries@[j as int]@);
            }
            if holds_file(committed_files, c.entries[j].file.as_str()) {
                kept.push(c.entries[j].duplicate());
                proof {
                    assert(entries_view(kept@) =~= entries_view(prev).push(c.entries@[j as int]@));
                }
            }
            j = j + 1;
        }
        proof {
            assert(ev.subrange(0, ev.len() as int) =~= ev);
            let cur = checkpoints_view(working_log@.subrange(0, i + 1));
            assert(cur.drop_last() =~= checkpoints_view(working_log@.subrange(0, i as int)));
            assert(cur.last() == c@);
        }
        if kept.len() > 0 {
            let ghost prev = r@;
            let nc = with_entries(c, kept);
            r.push(nc);
            proof {
                assert(checkpoints_view(r@) =~= checkpoints_view(prev).push(nc@));
            }
        }
        i = i + 1;
    }
    proof {
        assert(working_log@.subrange(0, working_log@.len() as int) =~= working_log@);
    }
    r
}

/// Number of lines of the range `r` before line `x`.
pub open spec fn range_before(r: LineRange, x: int) -> int {
    let top = if r.hi() < x - 1 {
        r.hi()
    } else {
        x - 1
    };
    if top >= r.lo() {
        top - r.lo() + 1
    } else {
        0
    }
}

/// Number of lines of the ranges `rs` before line `x`, a line counted once per range that
/// holds it.
pub open spec fn count_before(rs: Seq<LineRange>, x: int) -> int
    decreases rs.len(),
{
    if rs.len() == 0 {
        0
    } else {
        count_before(rs.drop_last(), x) + range_before(rs.last(), x)
    }
}

/// Where line `x` of the working tree is in the commit, given the uncommitted added lines
/// `unstaged`: it moves up by the number of those before it (in wrapping `u32` arithmetic).
pub open spec fn commit_line(unstaged: Seq<LineRange>, x: int) -> u32 {
    wrap32(x - wrap32(count_before(unstaged, x)))
}

/// The lines of ranges `rs` in commit coordinates, in increasing order, each once.
pub open spec fn commit_lines(rs: Seq<LineRange>, unstaged: Seq<LineRange>) -> Seq<u32> {
    lines_where(|y: int| exists|x: int| covered(rs, x) && y == #[trigger] commit_line(unstaged, x))
}

/// Entry `a` in commit coordinates.
pub open spec fn commit_entry(a: AttestationView, unstaged: Seq<LineRange>) -> AttestationView {
    AttestationView { hash: a.hash, line_ranges: compress_spec(commit_lines(a.line_ranges, unstaged)) }
}

/// File `f` in commit coordinates when `hunks` give it uncommitted lines: its entries
/// moved, and those left without lines dropped.
pub open spec fn commit_file(f: FileView, hunks: Seq<(String, Vec<LineRange>)>) -> FileView {
    match hunk_ranges(hunks, f.file_path) {
        Some(u) => FileView {
            file_path: f.file_path,
            entries: keep_nonempty(f.entries.map_values(|a: AttestationView| commit_entry(a, u))),
        },
        None => f,
    }
}

/// The attestations in commit coordinates, files left without entries dropped.
pub open spec fn commit_files(fs: Seq<FileView>, hunks: Seq<(String, Vec<LineRange>)>) -> Seq<FileView> {
    keep_files(fs.map_values(|f: FileView| commit_file(f, hunks)))
}

/// Number of lines of the ranges `rs` before line `x` (see `count_before`).
fn lines_before(rs: &[LineRange], x: u32) -> (r: u128)
    ensures
        r == count_before(rs@, x as int),
{
    let mut total: u128 = 0;
    let mut i: usize = 0;
    while i < rs.len()
        invariant
            i <= rs.len(),
            total == count_before(rs@.subrange(0, i as int), x as int),
            0 <= total <= i * 0x1_0000_0000,
        decreases rs.len() - i,
    {
        proof {
            let cur = rs@.subrange(0, i + 1);
            assert(cur.drop_last() =~= rs@.subrange(0, i as int));
        }
        let lo = rs[i].start();
        let hi = rs[i].end();
        let add: u64 = if x == 0 {
            0
        } else {
            let top = if hi < x - 1 {
                hi
            } else {
                x - 1
            };
            if top >= lo {
                (top - lo) as u64 + 1
            } else {
                0
            }
        };
        total = total + add as u128;
        i = i + 1;
    }
    proof {
        assert(rs@.subrange(0, rs@.len() as int) =~= rs@);
    }
    total
}

/// Where line `x` of the working tree is in the commit (see `commit_line`).
fn to_commit_line(unstaged: &[LineRange], x: u32) -> (r: u32)
    ensures
        r == commit_line(unstaged@, x as int),
{
    let before = lines_before(unstaged, x);
    let adjustment: u32 = (before % 0x1_0000_0000) as u32;
    x.wrapping_sub(adjustment)
}

/// Whether `y` is where some line of `rs` goes (see `commit_lines`).
pub open spec fn moved_to(rs: Seq<LineRange>, unstaged: Seq<LineRange>, y: int) -> bool {
    exists|x: int| covered(rs, x) && y == #[trigger] commit_line(unstaged, x)
}

/// The lines of ranges `rs` in commit coordinates (see `commit_lines`).
fn to_commit_lines(rs: &[LineRange], unstaged: &[LineRange]) -> (r: Vec<u32>)
    ensures
        r@ == commit_lines(rs@, unstaged@),
{
    let mut ys: Vec<u32> = Vec::new();
    let mut k: usize = 0;
    while k < rs.len()
        invariant
            k <= rs.len(),
            forall|y: int| #[trigger] holds_line(ys@, y) <==> moved_to(rs@.subrange(0, k as int), unstaged@, y),
        decreases rs.len() - k,
    {
        let lines = rs[k].expand();
        let ghost before = ys@;
        let mut t: usize = 0;
        while t < lines.len()
            invariant
                k < rs.len(),
                t <= lines.len(),
                lines@ == crate::line_range::lines_between(rs@[k as int].lo(), rs@[k as int].hi()),
                forall|y: int| #[trigger] holds_line(ys@, y) <==> (holds_line(before, y) || exists|x: int|
                    rs@[k as int].lo() <= x < rs@[k as int].lo() + t && x <= rs@[k as int].hi() && y == #[trigger] commit_line(
                        unstaged@,
                        x,
                    )),
            decreases lines.len() - t,
        {
            let ghost prev = ys@;
            let line = lines[t];
            assert(line as int == rs@[k as int].lo() + t);
            let y = to_commit_line(unstaged, line);
            ys.push(y);
            proof {
                assert forall|z: int| #[trigger] holds_line(ys@, z) <==> (holds_line(before, z) || exists|x: int|
                    rs@[k as int].lo() <= x < rs@[k as int].lo() + t + 1 && x <= rs@[k as int].hi() && z
                        == #[trigger] commit_line(unstaged@, x)) by {
                    lemma_holds_push(prev, y, z);
                    if exists|x: int|
                        rs@[k as int].lo() <= x < rs@[k as int].lo() + t + 1 && x <= rs@[k as int].hi() && z
                            == #[trigger] commit_line(unstaged@, x) {
                        let x = choose|x: int|
                            rs@[k as int].lo() <= x < rs@[k as int].lo() + t + 1 && x <= rs@[k as int].hi() && z
                                == #[trigger] commit_line(unstaged@, x);
                        if x < rs@[k as int].lo() + t {
                            assert(holds_line(prev, z));
                        }
                    }
                    if z == y {
                        assert(z == commit_line(unstaged@, line as int));
                    }
                }
            }
            t = t + 1;
        }
        proof {
            let cur = rs@.subrange(0, k + 1);
            let pre = rs@.subrange(0, k as int);
            assert forall|y: int| #[trigger] holds_line(ys@, y) <==> moved_to(cur, unstaged@, y) by {
                assert(holds_line(before, y) <==> moved_to(pre, unstaged@, y));
                if moved_to(cur, unstaged@, y) {
                    let x = choose|x: int| covered(cur, x) && y == #[trigger] commit_line(unstaged@, x);
                    let u = choose|u: int| 0 <= u < cur.len() && #[trigger] cur[u].covers(x);
                    if u < k {
                        assert(pre[u].covers(x));
                        assert(covered(pre, x));
                        assert(moved_to(pre, unstaged@, y));
                    } else {
                        assert(rs@[k as int].covers(x));
                    }
                }
                if moved_to(pre, unstaged@, y) {
                    let x = choose|x: int| covered(pre, x) && y == #[trigger] commit_line(unstaged@, x);
                    let u = choose|u: int| 0 <= u < pre.len() && #[trigger] pre[u].covers(x);
                    assert(cur[u].covers(x));
                    assert(covered(cur, x));
                }
                if exists|x: int|
                    rs@[k as int].lo() <= x < rs@[k as int].lo() + t && x <= rs@[k as int].hi() && y == #[trigger] commit_line(
                        unstaged@,
                        x,
                    ) {
                    let x = choose|x: int|
                        rs@[k as int].lo() <= x < rs@[k as int].lo() + t && x <= rs@[k as int].hi() && y
                            == #[trigger] commit_line(unstaged@, x);
                    assert(cur[k as int].covers(x));
                    assert(covered(cur, x));
                }
            }
        }
        k = k + 1;
    }
    proof {
        assert(rs@.subrange(0, rs@.len() as int) =~= rs@);
    }
    let r = sorted_unique(ys.as_slice());
    proof {
        let p = |y: int| exists|x: int| covered(rs@, x) && y == #[trigger] commit_line(unstaged@, x);
        assert forall|y: int| holds_line(r@, y) <==> p(y) by {
            assert(holds_line(ys@, y) <==> moved_to(rs@, unstaged@, y));
        }
        lemma_increasing_unique(r@, lines_where(p));
    }
    r
}

impl AuthorshipLog {
    /// Moves the log's line numbers from the working tree to the commit: in each file with
    /// uncommitted added lines (`unstaged_hunks`, file path to line ranges), every line
    /// moves up by the number of those lines before it; entries and then files left
    /// without lines are dropped.
    pub fn convert_authorship_log_to_commit_coordinates(&mut self, unstaged_hunks: &[(String, Vec<LineRange>)])
        ensures
            final(self)@ == (LogView { attestations: commit_files(old(self)@.attestations, unstaged_hunks@), ..old(self)@ }),
    {
        let ghost l0 = self@;
        let mut files: Vec<FileAttestation> = Vec::new();
        let mut i: usize = 0;
        while i < self.attestations.len()
            invariant
                self@ == l0,
                i <= self.attestations@.len(),
                files@.len() == i,
                forall|t: int| 0 <= t < i ==> (#[trigger] files@[t])@ == commit_file(l0.attestations[t], unstaged_hunks@),
            decreases self.attestations.len() - i,
        {
            let f = &self.attestations[i];
            assert(l0.attestations[i as int] == f@);
            match find_hunk(unstaged_hunks, f.file_path.as_str()) {
                Some(idx) => {
                    let u = unstaged_hunks[idx].1.as_slice();
                    let mut moved: Vec<AttestationEntry> = Vec::new();
                    let mut j: usize = 0;
                    while j < f.entries.len()
                        invariant
                            j <= f.entries@.len(),
                            moved@.len() == j,
                            forall|t: int| 0 <= t < j ==> (#[trigger] moved@[t])@ == commit_entry(f.entries@[t]@, u@),
                        decreases f.entries.len() - j,
                    {
                        let lines = to_commit_lines(f.entries[j].line_ranges.as_slice(), u);
                        let ranges = LineRange::compress_lines(lines.as_slice());
                        moved.push(AttestationEntry::new(f.entries[j].hash.clone(), ranges));
                        j = j + 1;
                    }
                    let ghost mv = attestations_view(moved@);
                    proof {
                        assert(mv =~= f@.entries.map_values(|a: AttestationView| commit_entry(a, u@)));
                    }
                    let kept = crate::finalize::nonempty_entries(moved.as_slice());
                    files.push(FileAttestation { file_path: f.file_path.clone(), entries: kept });
                },
                None => {
                    let copy = FileAttestation {
                        file_path: f.file_path.clone(),
                        entries: crate::finalize::copy_attestation_entries(f.entries.as_slice()),
                    };
                    files.push(copy);
                },
            }
            i = i + 1;
        }
        proof {
            assert(files_view(files@) =~= l0.attestations.map_values(|f: FileView| commit_file(f, unstaged_hunks@)));
        }
        let kept = crate::finalize::nonempty_files(files.as_slice());
        self.attestations = kept;
    }
}

/// The hunks of a diff given as the lines it adds per file: each file with added lines,
/// in order, with those lines compressed into ranges (see `LineRange::compress_lines`).
pub open spec fn hunks_spec(added: Seq<(Seq<char>, Seq<u32>)>) -> Seq<(Seq<char>, Seq<LineRange>)>
    decreases added.len(),
{
    if added.len() == 0 {
        Seq::empty()
    } else {
        let p = hunks_spec(added.drop_last());
        if added.last().1.len() > 0 {
            p.push((added.last().0, compress_spec(added.last().1)))
        } else {
            p
        }
    }
}

/// The hunks of a diff from the lines it adds per file (see `hunks_spec`); used for the
/// lines a commit added and for the lines the working tree adds to it.
pub fn hunks_from_added_lines(added: &[(String, Vec<u32>)]) -> (r: Vec<(String, Vec<LineRange>)>)
    ensures
        r@.map_values(|h: (String, Vec<LineRange>)| (h.0@, h.1@)) == hunks_spec(
            added@.map_values(|a: (String, Vec<u32>)| (a.0@, a.1@)),
        ),
{
    let ghost av = added@.map_values(|a: (String, Vec<u32>)| (a.0@, a.1@));
    let mut r: Vec<(String, Vec<LineRange>)> = Vec::new();
    let mut i: usize = 0;
    proof {
        assert(av.take(0) =~= Seq::<(Seq<char>, Seq<u32>)>::empty());
        assert(r@.map_values(|h: (String, Vec<LineRange>)| (h.0@, h.1@)) =~= Seq::<(Seq<char>, Seq<LineRange>)>::empty());
    }
    while i < added.len()
        invariant
            i <= added.len(),
            av == added@.map_values(|a: (String, Vec<u32>)| (a.0@, a.1@)),
            r@.map_values(|h: (String, Vec<LineRange>)| (h.0@, h.1@)) == hunks_spec(av.take(i as int)),
        decreases added.len() - i,
    {
        proof {
            assert(av.take(i + 1).drop_last() =~= av.take(i as int));
            assert(av.take(i + 1).last() == (added@[i as int].0@, added@[i as int].1@));
        }
        if added[i].1.len() > 0 {
            let ranges = LineRange::compress_lines(added[i].1.as_slice());
            let ghost prev = r@;
            r.push((added[i].0.clone(), ranges));
            proof {
                assert(r@.map_values(|h: (String, Vec<LineRange>)| (h.0@, h.1@)) =~= prev.map_values(
                    |h: (String, Vec<LineRange>)| (h.0@, h.1@),
                ).push((added@[i as int].0@, compress_spec(added@[i as int].1@))));
            }
        }
        i = i + 1;
    }
    proof {
        assert(av.take(av.len() as int) =~= av);
    }
    r
}

/// The tree a commit's added lines are diffed against: its parent, or git's empty tree for
/// the first commit of a repository (whose parent is written `initial`).
pub fn diff_base_for_parent(parent_sha: &str) -> (r: String)
    ensures
        r@ == (if parent_sha@ == "initial"@ {
            "4b825dc642cb6eb9a060e54bf8d69288fbee4904"@
        } else {
            parent_sha@
        }),
{
    if str_eq(parent_sha, "initial") {
        String::from_str("4b825dc642cb6eb9a060e54bf8d69288fbee4904")
    } else {
        String::from_str(parent_sha)
    }
}

/// Whether a commit leaves AI-written lines uncommitted in the working tree, so that the
/// working log must move on to the new commit instead of going: the working tree adds lines
/// to the commit and some checkpoint of the working log came from an AI agent.
pub fn has_unstaged_ai_lines(has_unstaged_hunks: bool, checkpoints: &[Checkpoint]) -> (r: bool)
    ensures
        r == (has_unstaged_hunks && exists|i: int| 0 <= i < checkpoints@.len() && (#[trigger] checkpoints@[i]).agent_id is Some),
{
    if !has_unstaged_hunks {
        return false;
    }
    let mut i: usize = 0;
    while i < checkpoints.len()
        invariant
            has_unstaged_hunks,
            i <= checkpoints.len(),
            forall|j: int| 0 <= j < i ==> (#[trigger] checkpoints@[j]).agent_id is None,
        decreases checkpoints.len() - i,
    {
        if checkpoints[i].agent_id.is_some() {
            return true;
        }
        i = i + 1;
    }
    false
}

/// The parent a commit's working log is kept under: the given base commit, or `initial`
/// in a repository without commits.
pub open spec fn parent_of(base_commit: Option<Seq<char>>) -> Seq<char> {
    match base_commit {
        Some(b) => b,
        None => "initial"@,
    }
}

/// The authorship log that a commit gets from its parent's working log, and whether the
/// working log must move on to the new commit. The working log is cut down to the committed
/// files (`committed_files`) and built into a log with `human_author` as the human; its line
/// numbers move from the working tree to the commit past the uncommitted added lines
/// (`unstaged_hunks`), and then only the lines in `committed_hunks` stay, with the prompts
/// that still have lines. The working log moves on when the working tree holds
/// uncommitted added lines and some checkpoint of the (whole) working log came from an AI
/// agent.
pub fn post_commit_log(
    checkpoints: &[Checkpoint],
    committed_files: &[String],
    base_commit: Option<&str>,
    human_author: &str,
    committed_hunks: &[(String, Vec<LineRange>)],
    unstaged_hunks: &[(String, Vec<LineRange>)],
) -> (r: (AuthorshipLog, bool))
    ensures
        ({
            let cs = committed_checkpoints(checkpoints_view(checkpoints@), strings_view(committed_files@));
            let built = finalized_files(replay(empty_state(), cs, Some(human_author@)).files);
            &&& restricted_files(commit_files(built, unstaged_hunks@), committed_hunks@, r.0@.attestations)
            &&& r.0@.prompts == used_prompts(built_prompts(cs, Some(human_author@), false), r.0@.attestations)
        }),
        r.0@.base_commit_sha == parent_of(opt_str(base_commit)),
        r.0@.schema_version == crate::authorship_log::AUTHORSHIP_LOG_VERSION@,
        r.1 == (unstaged_hunks@.len() > 0 && exists|i: int|
            0 <= i < checkpoints@.len() && (#[trigger] checkpoints@[i]).agent_id is Some),
{
    let parent_sha: String = match base_commit {
        Some(b) => String::from_str(b),
        None => String::from_str("initial"),
    };
    proof {
        reveal_strlit("initial");
    }
    let filtered = filter_untracked_files(checkpoints, committed_files);
    let mut log = AuthorshipLog::from_working_log_with_base_commit_and_human_author(
        filtered.as_slice(),
        parent_sha.as_str(),
        Some(human_author),
        false,
    );
    log.convert_authorship_log_to_commit_coordinates(unstaged_hunks);
    log.filter_to_committed_lines(committed_hunks);
    let moves_on = has_unstaged_ai_lines(unstaged_hunks.len() > 0, checkpoints);
    (log, moves_on)
}

} // verus!
