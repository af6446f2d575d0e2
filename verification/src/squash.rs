//! Turning an authorship log back into working log checkpoints, as a squash merge needs
//! them: one checkpoint for the human lines, then one per AI session.

use vstd::prelude::*;
use vstd::string::*;

use crate::apply::file_index;
use crate::authorship_log::{
    AttestationEntry, AttestationView, AuthorshipLog, FileAttestation, FileView, attestations_view, first_file,
    files_view, has_file,
};
use crate::line_range::{LineRange, covered, holds_line, lemma_holds_push, lemma_increasing_unique, sorted_unique, strictly_increasing};
use crate::queries::{compress_lines_to_working_log_format, compress_wl};
use crate::text::{extend_chars, from_chars, str_eq, to_chars};
use crate::transcript::{AiTranscript, MessageView, copy_messages};
use crate::working_log::{AgentView, Checkpoint, CheckpointView, EntryView, Line, WorkingLogEntry, entries_view};

verus! {

/// The views of a list of strings.
pub open spec fn strs_view(v: Seq<String>) -> Seq<Seq<char>> {
    v.map_values(|s: String| s@)
}

/// `s` without repeats, each element kept where it first occurs.
pub open spec fn dedup_first(s: Seq<Seq<char>>) -> Seq<Seq<char>>
    decreases s.len(),
{
    if s.len() == 0 {
        s
    } else {
        let p = dedup_first(s.drop_last());
        if p.contains(s.last()) {
            p
        } else {
            p.push(s.last())
        }
    }
}

/// `dedup_first` keeps exactly the elements of `s`.
pub proof fn lemma_dedup_contains(s: Seq<Seq<char>>, x: Seq<char>)
    ensures
        dedup_first(s).contains(x) <==> s.contains(x),
    decreases s.len(),
{
    if s.len() > 0 {
        lemma_dedup_contains(s.drop_last(), x);
        if s.drop_last().contains(x) {
            let k = choose|k: int| 0 <= k < s.drop_last().len() && s.drop_last()[k] == x;
            assert(s[k] == x);
        }
        if s.contains(x) {
            let k = choose|k: int| 0 <= k < s.len() && s[k] == x;
            if k < s.len() - 1 {
                assert(s.drop_last()[k] == x);
            }
        }
        let p = dedup_first(s.drop_last());
        if !p.contains(s.last()) {
            assert(p.push(s.last())[p.len() as int] == s.last());
            if p.contains(x) {
                let k = choose|k: int| 0 <= k < p.len() && p[k] == x;
                assert(p.push(s.last())[k] == x);
            }
            if p.push(s.last()).contains(x) {
                let k = choose|k: int| 0 <= k < p.len() + 1 && p.push(s.last())[k] == x;
                if k < p.len() {
                    assert(p[k] == x);
                }
            }
        }
    }
}

/// The lines for which `p` holds, in increasing order.
pub open spec fn lines_where(p: spec_fn(int) -> bool) -> Seq<u32> {
    choose|s: Seq<u32>| strictly_increasing(s) && forall|x: int| holds_line(s, x) <==> p(x)
}

/// The largest end of the ranges `rs`, zero when there is none.
pub open spec fn ranges_max_end(rs: Seq<LineRange>) -> int
    decreases rs.len(),
{
    if rs.len() == 0 {
        0
    } else {
        let m = ranges_max_end(rs.drop_last());
        if rs.last().hi() > m {
            rs.last().hi()
        } else {
            m
        }
    }
}

/// The largest end of the ranges of the entries `es`, zero when there is none.
pub open spec fn entries_max_end(es: Seq<AttestationView>) -> int
    decreases es.len(),
{
    if es.len() == 0 {
        0
    } else {
        let m = entries_max_end(es.drop_last());
        let r = ranges_max_end(es.last().line_ranges);
        if r > m {
            r
        } else {
            m
        }
    }
}

/// Whether some entry of `es` covers line `x`.
pub open spec fn ai_covered(es: Seq<AttestationView>, x: int) -> bool {
    exists|j: int| 0 <= j < es.len() && covered(#[trigger] es[j].line_ranges, x)
}

/// The human lines of a file: from line 1 to the largest range end, those no entry covers.
pub open spec fn human_lines(es: Seq<AttestationView>) -> Seq<u32> {
    lines_where(|x: int| 1 <= x <= entries_max_end(es) && !ai_covered(es, x))
}

/// The human entries for the paths `qs`: for each path with human lines, an entry adding
/// them (taken from the first attestation of that path).
pub open spec fn human_entries(fs: Seq<FileView>, qs: Seq<Seq<char>>) -> Seq<EntryView>
    decreases qs.len(),
{
    if qs.len() == 0 {
        Seq::empty()
    } else {
        let p = human_entries(fs, qs.drop_last());
        let q = qs.last();
        let hl = human_lines(fs[file_index(fs, q)].entries);
        if hl.len() > 0 {
            p.push(EntryView { file: q, blob_sha: Seq::empty(), added_lines: compress_wl(hl), deleted_lines: Seq::empty() })
        } else {
            p
        }
    }
}

/// The paths of the files.
pub open spec fn paths_of(fs: Seq<FileView>) -> Seq<Seq<char>> {
    fs.map_values(|f: FileView| f.file_path)
}

/// The hashes of all entries of all files, in order.
pub open spec fn all_hashes(fs: Seq<FileView>) -> Seq<Seq<char>>
    decreases fs.len(),
{
    if fs.len() == 0 {
        Seq::empty()
    } else {
        all_hashes(fs.drop_last()) + fs.last().entries.map_values(|a: AttestationView| a.hash)
    }
}

/// Whether some entry of `es` has hash `h`.
pub open spec fn has_hash(es: Seq<AttestationView>, h: Seq<char>) -> bool {
    exists|j: int| 0 <= j < es.len() && (#[trigger] es[j]).hash == h
}

/// The paths of the files that have an entry with hash `h`, in order, with repeats.
pub open spec fn session_files(fs: Seq<FileView>, h: Seq<char>) -> Seq<Seq<char>>
    decreases fs.len(),
{
    if fs.len() == 0 {
        Seq::empty()
    } else {
        let p = session_files(fs.drop_last(), h);
        if has_hash(fs.last().entries, h) {
            p.push(fs.last().file_path)
        } else {
            p
        }
    }
}

/// Whether entry `a` has hash `h` and covers line `x`.
pub open spec fn hit(a: AttestationView, h: Seq<char>, x: int) -> bool {
    a.hash == h && covered(a.line_ranges, x)
}

/// Whether one of the first `n` entries of `es` has hash `h` and covers line `x`.
pub open spec fn hits_before(es: Seq<AttestationView>, h: Seq<char>, x: int, n: int) -> bool {
    exists|t: int| 0 <= t < n && #[trigger] hit(es[t], h, x)
}

/// Whether file `f` is at path `q` and one of its entries has hash `h` and covers line `x`.
pub open spec fn file_hit(f: FileView, h: Seq<char>, q: Seq<char>, x: int) -> bool {
    f.file_path == q && hits_before(f.entries, h, x, f.entries.len() as int)
}

/// Whether an entry with hash `h` of a file at path `q` covers line `x`.
pub open spec fn session_covers(fs: Seq<FileView>, h: Seq<char>, q: Seq<char>, x: int) -> bool {
    exists|i: int| 0 <= i < fs.len() && #[trigger] file_hit(fs[i], h, q, x)
}

/// The entry of session `h`'s checkpoint for path `q`: the lines the session holds there.
pub open spec fn session_entry(fs: Seq<FileView>, h: Seq<char>, q: Seq<char>) -> EntryView {
    EntryView {
        file: q,
        blob_sha: Seq::empty(),
        added_lines: compress_wl(lines_where(|x: int| session_covers(fs, h, q, x))),
        deleted_lines: Seq::empty(),
    }
}

/// The entries of session `h`'s checkpoint, one per path, in order of first appearance.
pub open spec fn session_entries(fs: Seq<FileView>, h: Seq<char>) -> Seq<EntryView> {
    dedup_first(session_files(fs, h)).map_values(|q: Seq<char>| session_entry(fs, h, q))
}

/// Whether `s` holds `x`.
fn contains_str(v: &[String], s: &str) -> (r: bool)
    ensures
        r == strs_view(v@).contains(s@),
{
    let mut i: usize = 0;
    while i < v.len()
        invariant
            i <= v.len(),
            forall|k: int| 0 <= k < i ==> v@[k]@ != s@,
        decreases v.len() - i,
    {
        if str_eq(v[i].as_str(), s) {
            assert(strs_view(v@)[i as int] == s@);
            return true;
        }
        i = i + 1;
    }
    proof {
        if strs_view(v@).contains(s@) {
            let k = choose|k: int| 0 <= k < strs_view(v@).len() && strs_view(v@)[k] == s@;
            assert(v@[k]@ == s@);
        }
    }
    false
}

/// Appends `s` to `v` unless `v` already holds it.
fn push_new(v: &mut Vec<String>, s: &String)
    ensures
        strs_view(final(v)@) == if strs_view(old(v)@).contains(s@) {
            strs_view(old(v)@)
        } else {
            strs_view(old(v)@).push(s@)
        },
{
    if !contains_str(v.as_slice(), s.as_str()) {
        v.push(s.clone());
        proof {
            assert(strs_view(v@) =~= strs_view(old(v)@).push(s@));
        }
    }
}

/// The distinct paths of the files, in order of first appearance.
fn distinct_paths(fs: &[FileAttestation]) -> (r: Vec<String>)
    ensures
        strs_view(r@) == dedup_first(paths_of(files_view(fs@))),
{
    let mut r: Vec<String> = Vec::new();
    let mut i: usize = 0;
    while i < fs.len()
        invariant
            i <= fs.len(),
            strs_view(r@) == dedup_first(paths_of(files_view(fs@.subrange(0, i as int)))),
        decreases fs.len() - i,
    {
        proof {
            let cur = paths_of(files_view(fs@.subrange(0, i + 1)));
            assert(cur.drop_last() =~= paths_of(files_view(fs@.subrange(0, i as int))));
            assert(cur.last() == fs@[i as int].file_path@);
        }
        push_new(&mut r, &fs[i].file_path);
        i = i + 1;
    }
    proof {
        assert(fs@.subrange(0, fs@.len() as int) =~= fs@);
    }
    r
}

/// The distinct hashes of all entries of all files, in order of first appearance.
fn distinct_hashes(fs: &[FileAttestation]) -> (r: Vec<String>)
    ensures
        strs_view(r@) == dedup_first(all_hashes(files_view(fs@))),
{
    let mut r: Vec<String> = Vec::new();
    let mut i: usize = 0;
    while i < fs.len()
        invariant
            i <= fs.len(),
            strs_view(r@) == dedup_first(all_hashes(files_view(fs@.subrange(0, i as int)))),
        decreases fs.len() - i,
    {
        let ghost base = all_hashes(files_view(fs@.subrange(0, i as int)));
        let ghost es = fs@[i as int]@.entries;
        let mut j: usize = 0;
        while j < fs[i].entries.len()
            invariant
                i < fs.len(),
                es == fs@[i as int]@.entries,
                j <= es.len(),
                strs_view(r@) == dedup_first(base + es.subrange(0, j as int).map_values(|a: AttestationView| a.hash)),
            decreases es.len() - j,
        {
            proof {
                let cur = base + es.subrange(0, j + 1).map_values(|a: AttestationView| a.hash);
                assert(cur.drop_last() =~= base + es.subrange(0, j as int).map_values(|a: AttestationView| a.hash));
                assert(cur.last() == es[j as int].hash);
            }
            push_new(&mut r, &fs[i].entries[j].hash);
            j = j + 1;
        }
        proof {
            let cur = files_view(fs@.subrange(0, i + 1));
            assert(cur.drop_last() =~= files_view(fs@.subrange(0, i as int)));
            assert(cur.last() == fs@[i as int]@);
            assert(es.subrange(0, es.len() as int) =~= es);
        }
        i = i + 1;
    }
    proof {
        assert(fs@.subrange(0, fs@.len() as int) =~= fs@);
    }
    r
}

/// Whether some entry of `es` covers line `x`.
fn entries_cover(es: &[AttestationEntry], x: u32) -> (r: bool)
    ensures
        r == ai_covered(attestations_view(es@), x as int),
{
    let mut j: usize = 0;
    while j < es.len()
        invariant
            j <= es.len(),
            forall|k: int| 0 <= k < j ==> !covered((#[trigger] es@[k])@.line_ranges, x as int),
        decreases es.len() - j,
    {
        if crate::authorship_log::any_contains(es[j].line_ranges.as_slice(), x) {
            assert(attestations_view(es@)[j as int].line_ranges == es@[j as int]@.line_ranges);
            return true;
        }
        j = j + 1;
    }
    proof {
        let ev = attestations_view(es@);
        if ai_covered(ev, x as int) {
            let k = choose|k: int| 0 <= k < ev.len() && covered(#[trigger] ev[k].line_ranges, x as int);
            assert(ev[k] == es@[k]@);
        }
    }
    false
}

/// The largest end of the ranges `rs`, zero when there is none.
fn max_end_of_ranges(rs: &[LineRange]) -> (r: u32)
    ensures
        r == ranges_max_end(rs@),
{
    let mut m: u32 = 0;
    let mut i: usize = 0;
    while i < rs.len()
        invariant
            i <= rs.len(),
            m == ranges_max_end(rs@.subrange(0, i as int)),
        decreases rs.len() - i,
    {
        proof {
            let cur = rs@.subrange(0, i + 1);
            assert(cur.drop_last() =~= rs@.subrange(0, i as int));
        }
        let e = rs[i].end();
        if e > m {
            m = e;
        }
        i = i + 1;
    }
    proof {
        assert(rs@.subrange(0, rs@.len() as int) =~= rs@);
    }
    m
}

/// The largest end of the ranges of the entries `es`, zero when there is none.
fn max_end_of_entries(es: &[AttestationEntry]) -> (r: u32)
    ensures
        r == entries_max_end(attestations_view(es@)),
{
    let mut m: u32 = 0;
    let mut j: usize = 0;
    while j < es.len()
        invariant
            j <= es.len(),
            m == entries_max_end(attestations_view(es@.subrange(0, j as int))),
        decreases es.len() - j,
    {
        proof {
            let cur = attestations_view(es@.subrange(0, j + 1));
            assert(cur.drop_last() =~= attestations_view(es@.subrange(0, j as int)));
            assert(cur.last() == es@[j as int]@);
        }
        let e = max_end_of_ranges(es[j].line_ranges.as_slice());
        if e > m {
            m = e;
        }
        j = j + 1;
    }
    proof {
        assert(es@.subrange(0, es@.len() as int) =~= es@);
    }
    m
}

/// The human lines of a file with entries `es` (see `human_lines`).
fn human_lines_of(es: &[AttestationEntry]) -> (r: Vec<u32>)
    ensures
        r@ == human_lines(attestations_view(es@)),
{
    let ghost ev = attestations_view(es@);
    let max = max_end_of_entries(es);
    let mut r: Vec<u32> = Vec::new();
    let mut x: u64 = 1;
    while x <= max as u64
        invariant
            1 <= x <= max as u64 + 1 || x == 1,
            max == entries_max_end(ev),
            ev == attestations_view(es@),
            strictly_increasing(r@),
            forall|k: int| 0 <= k < r@.len() ==> r@[k] < x,
            forall|y: int| #[trigger] holds_line(r@, y) <==> (1 <= y < x && y <= max && !ai_covered(ev, y)),
        decreases max as u64 + 1 - x,
    {
        let line: u32 = x as u32;
        assert(line == x);
        let ghost prev = r@;
        if !entries_cover(es, line) {
            r.push(line);
        }
        proof {
            assert forall|y: int| #[trigger] holds_line(r@, y) <==> (1 <= y < x + 1 && y <= max && !ai_covered(ev, y)) by {
                lemma_holds_push(prev, line, y);
                assert(holds_line(prev, y) <==> (1 <= y < x && y <= max && !ai_covered(ev, y)));
            }
        }
        x = x + 1;
    }
    proof {
        let p = |y: int| 1 <= y <= entries_max_end(ev) && !ai_covered(ev, y);
        assert forall|y: int| holds_line(r@, y) <==> p(y) by {
            assert(holds_line(r@, y) <==> (1 <= y < x && y <= max && !ai_covered(ev, y)));
        }
        let c = lines_where(p);
        assert(strictly_increasing(r@) && forall|y: int| holds_line(r@, y) <==> p(y));
        lemma_increasing_unique(r@, c);
    }
    r
}

/// The human entries for the paths `qs` of the files `fs` (see `human_entries`).
fn human_entries_of(fs: &[FileAttestation], qs: &[String]) -> (r: Vec<WorkingLogEntry>)
    requires
        forall|t: int| 0 <= t < qs@.len() ==> has_file(files_view(fs@), (#[trigger] qs@[t])@),
    ensures
        entries_view(r@) == human_entries(files_view(fs@), strs_view(qs@)),
{
    let ghost fv = files_view(fs@);
    let mut r: Vec<WorkingLogEntry> = Vec::new();
    let mut t: usize = 0;
    while t < qs.len()
        invariant
            t <= qs.len(),
            fv == files_view(fs@),
            forall|u: int| 0 <= u < qs@.len() ==> has_file(fv, (#[trigger] qs@[u])@),
            entries_view(r@) == human_entries(fv, strs_view(qs@.subrange(0, t as int))),
        decreases qs.len() - t,
    {
        proof {
            let cur = strs_view(qs@.subrange(0, t + 1));
            assert(cur.drop_last() =~= strs_view(qs@.subrange(0, t as int)));
            assert(cur.last() == qs@[t as int]@);
        }
        let idx = first_file_index(fs, qs[t].as_str());
        let lines = human_lines_of(fs[idx].entries.as_slice());
        if lines.len() > 0 {
            let added = compress_lines_to_working_log_format(lines.as_slice());
            let ghost prev = r@;
            r.push(WorkingLogEntry::new(qs[t].clone(), String::new(), added, Vec::new()));
            proof {
                assert(entries_view(r@) =~= entries_view(prev).push(EntryView {
                    file: qs@[t as int]@,
                    blob_sha: Seq::empty(),
                    added_lines: compress_wl(lines@),
                    deleted_lines: Seq::empty(),
                }));
            }
        }
        t = t + 1;
    }
    proof {
        assert(qs@.subrange(0, qs@.len() as int) =~= qs@);
    }
    r
}

/// The index of the first file at path `f`, which `fs` holds.
fn first_file_index(fs: &[FileAttestation], f: &str) -> (i: usize)
    requires
        has_file(files_view(fs@), f@),
    ensures
        i < fs@.len(),
        i == file_index(files_view(fs@), f@),
{
    let ghost fv = files_view(fs@);
    let mut i: usize = 0;
    while i < fs.len()
        invariant
            i <= fs.len(),
            fv == files_view(fs@),
            has_file(fv, f@),
            forall|j: int| 0 <= j < i ==> (#[trigger] fv[j]).file_path != f@,
        decreases fs.len() - i,
    {
        if str_eq(fs[i].file_path.as_str(), f) {
            proof {
                assert(first_file(fv, f@, i as int));
                let c = choose|c: int| first_file(fv, f@, c);
                assert(c == i);
            }
            return i;
        }
        i = i + 1;
    }
    proof {
        let k = choose|k: int| 0 <= k < fv.len() && (#[trigger] fv[k]).file_path == f@;
        assert(false);
    }
    0
}

/// Appends the lines the ranges `rs` cover to `all`.
fn push_covered(all: &mut Vec<u32>, rs: &[LineRange])
    ensures
        forall|x: int| holds_line(final(all)@, x) <==> (holds_line(old(all)@, x) || covered(rs@, x)),
{
    let mut k: usize = 0;
    while k < rs.len()
        invariant
            k <= rs.len(),
            forall|x: int| holds_line(all@, x) <==> (holds_line(old(all)@, x) || covered(rs@.subrange(0, k as int), x)),
        decreases rs.len() - k,
    {
        let lines = rs[k].expand();
        let ghost before = all@;
        let mut t: usize = 0;
        while t < lines.len()
            invariant
                k < rs.len(),
                t <= lines.len(),
                lines@ == crate::line_range::lines_between(rs@[k as int].lo(), rs@[k as int].hi()),
                forall|x: int| #[trigger] holds_line(all@, x) <==> (holds_line(before, x) || (rs@[k as int].lo() <= x
                    < rs@[k as int].lo() + t && x <= rs@[k as int].hi())),
            decreases lines.len() - t,
        {
            let ghost prev = all@;
            let line = lines[t];
            all.push(line);
            proof {
                assert forall|x: int| #[trigger] holds_line(all@, x) <==> (holds_line(before, x) || (rs@[k as int].lo() <= x
                    < rs@[k as int].lo() + t + 1 && x <= rs@[k as int].hi())) by {
                    lemma_holds_push(prev, line, x);
                    assert(holds_line(prev, x) <==> (holds_line(before, x) || (rs@[k as int].lo() <= x < rs@[k as int].lo() + t
                        && x <= rs@[k as int].hi())));
                }
            }
            t = t + 1;
        }
        proof {
            let cur = rs@.subrange(0, k + 1);
            assert forall|x: int| holds_line(all@, x) <==> (holds_line(old(all)@, x) || covered(cur, x)) by {
                assert(holds_line(all@, x) <==> (holds_line(before, x) || (rs@[k as int].lo() <= x < rs@[k as int].lo() + t
                    && x <= rs@[k as int].hi())));
                assert(holds_line(before, x) <==> (holds_line(old(all)@, x) || covered(rs@.subrange(0, k as int), x)));
                let p = rs@.subrange(0, k as int);
                if covered(cur, x) {
                    let u = choose|u: int| 0 <= u < cur.len() && #[trigger] cur[u].covers(x);
                    if u < k {
                        assert(p[u].covers(x));
                    }
                }
                if covered(p, x) {
                    let u = choose|u: int| 0 <= u < p.len() && #[trigger] p[u].covers(x);
                    assert(cur[u].covers(x));
                }
                if rs@[k as int].covers(x) {
                    assert(cur[k as int].covers(x));
                }
            }
        }
        k = k + 1;
    }
    proof {
        assert(rs@.subrange(0, rs@.len() as int) =~= rs@);
    }
}

/// The lines session `h` holds in the files at path `q` (see `session_covers`).
fn session_lines(fs: &[FileAttestation], h: &str, q: &str) -> (r: Vec<u32>)
    ensures
        r@ == lines_where(|x: int| session_covers(files_view(fs@), h@, q@, x)),
{
    let ghost fv = files_view(fs@);
    let mut all: Vec<u32> = Vec::new();
    let mut i: usize = 0;
    while i < fs.len()
        invariant
            i <= fs.len(),
            fv == files_view(fs@),
            forall|x: int| #[trigger] holds_line(all@, x) <==> session_covers(fv.subrange(0, i as int), h@, q@, x),
        decreases fs.len() - i,
    {
        let ghost before = all@;
        let ghost es = fv[i as int].entries;
        let is_q = str_eq(fs[i].file_path.as_str(), q);
        let mut j: usize = 0;
        while j < fs[i].entries.len()
            invariant
                i < fs.len(),
                fv == files_view(fs@),
                es == fv[i as int].entries,
                is_q == (fv[i as int].file_path == q@),
                j <= es.len(),
                forall|x: int| #[trigger] holds_line(all@, x) <==> (holds_line(before, x) || (is_q && hits_before(es, h@, x, j as int))),
            decreases es.len() - j,
        {
            let ghost prev = all@;
            let matched = is_q && str_eq(fs[i].entries[j].hash.as_str(), h);
            if matched {
                push_covered(&mut all, fs[i].entries[j].line_ranges.as_slice());
            }
            proof {
                assert(es[j as int] == fs@[i as int].entries@[j as int]@);
                assert forall|x: int| #[trigger] holds_line(all@, x) <==> (holds_line(before, x) || (is_q && hits_before(es, h@, x, j + 1))) by {
                    assert(holds_line(prev, x) <==> (holds_line(before, x) || (is_q && hits_before(es, h@, x, j as int))));
                    if hits_before(es, h@, x, j + 1) {
                        let t = choose|t: int| 0 <= t < j + 1 && #[trigger] hit(es[t], h@, x);
                        if t < j {
                            assert(hits_before(es, h@, x, j as int));
                        }
                    }
                    if hits_before(es, h@, x, j as int) {
                        let t = choose|t: int| 0 <= t < j && #[trigger] hit(es[t], h@, x);
                        assert(hit(es[t], h@, x));
                    }
                    if is_q && hit(es[j as int], h@, x) {
                        assert(hits_before(es, h@, x, j + 1));
                    }
                }
            }
            j = j + 1;
        }
        proof {
            let cur = fv.subrange(0, i + 1);
            let pre = fv.subrange(0, i as int);
            assert forall|x: int| #[trigger] holds_line(all@, x) <==> session_covers(cur, h@, q@, x) by {
                assert(holds_line(all@, x) <==> (holds_line(before, x) || (is_q && hits_before(es, h@, x, es.len() as int))));
                assert(holds_line(before, x) <==> session_covers(pre, h@, q@, x));
                if session_covers(cur, h@, q@, x) {
                    let a = choose|a: int| 0 <= a < cur.len() && #[trigger] file_hit(cur[a], h@, q@, x);
                    if a < i {
                        assert(pre[a] == cur[a]);
                        assert(file_hit(pre[a], h@, q@, x));
                    } else {
                        assert(cur[a] == fv[i as int]);
                    }
                }
                if session_covers(pre, h@, q@, x) {
                    let a = choose|a: int| 0 <= a < pre.len() && #[trigger] file_hit(pre[a], h@, q@, x);
                    assert(cur[a] == pre[a]);
                    assert(file_hit(cur[a], h@, q@, x));
                }
                if is_q && hits_before(es, h@, x, es.len() as int) {
                    assert(cur[i as int] == fv[i as int]);
                    assert(file_hit(cur[i as int], h@, q@, x));
                }
            }
        }
        i = i + 1;
    }
    proof {
        assert(fv.subrange(0, fv.len() as int) =~= fv);
    }
    let r = sorted_unique(all.as_slice());
    proof {
        let p = |x: int| session_covers(fv, h@, q@, x);
        assert forall|x: int| holds_line(r@, x) <==> p(x) by {
            assert(holds_line(all@, x) <==> session_covers(fv, h@, q@, x));
        }
        lemma_increasing_unique(r@, lines_where(p));
    }
    r
}

/// The paths of the files that have an entry with hash `h`, each once, in order.
fn session_paths(fs: &[FileAttestation], h: &str) -> (r: Vec<String>)
    ensures
        strs_view(r@) == dedup_first(session_files(files_view(fs@), h@)),
{
    let mut r: Vec<String> = Vec::new();
    let mut i: usize = 0;
    while i < fs.len()
        invariant
            i <= fs.len(),
            strs_view(r@) == dedup_first(session_files(files_view(fs@.subrange(0, i as int)), h@)),
        decreases fs.len() - i,
    {
        let ghost es = fs@[i as int]@.entries;
        let mut found = false;
        let mut j: usize = 0;
        while j < fs[i].entries.len()
            invariant
                i < fs.len(),
                es == fs@[i as int]@.entries,
                j <= es.len(),
                found == exists|t: int| 0 <= t < j && (#[trigger] es[t]).hash == h@,
            decreases es.len() - j,
        {
            if str_eq(fs[i].entries[j].hash.as_str(), h) {
                found = true;
            }
            proof {
                assert(es[j as int] == fs@[i as int].entries@[j as int]@);
            }
            j = j + 1;
        }
        let ghost cur = files_view(fs@.subrange(0, i + 1));
        let ghost pre = files_view(fs@.subrange(0, i as int));
        proof {
            assert(cur.drop_last() =~= pre);
            assert(cur.last() == fs@[i as int]@);
            assert(found == has_hash(es, h@)) by {
                if has_hash(es, h@) {
                    let t = choose|t: int| 0 <= t < es.len() && (#[trigger] es[t]).hash == h@;
                    assert(es[t].hash == h@);
                }
            }
        }
        if found {
            push_new(&mut r, &fs[i].file_path);
            proof {
                let sf = session_files(cur, h@);
                assert(sf == session_files(pre, h@).push(fs@[i as int].file_path@));
                assert(sf.drop_last() =~= session_files(pre, h@));
            }
        } else {
            proof {
                assert(session_files(cur, h@) == session_files(pre, h@));
            }
        }
        i = i + 1;
    }
    proof {
        assert(fs@.subrange(0, fs@.len() as int) =~= fs@);
    }
    r
}

/// The entries of session `h`'s checkpoint (see `session_entries`).
fn session_entries_of(fs: &[FileAttestation], h: &str) -> (r: Vec<WorkingLogEntry>)
    ensures
        entries_view(r@) == session_entries(files_view(fs@), h@),
{
    let paths = session_paths(fs, h);
    let mut r: Vec<WorkingLogEntry> = Vec::new();
    let mut t: usize = 0;
    while t < paths.len()
        invariant
            t <= paths@.len(),
            strs_view(paths@) == dedup_first(session_files(files_view(fs@), h@)),
            r@.len() == t,
            forall|u: int| 0 <= u < t ==> (#[trigger] r@[u])@ == session_entry(files_view(fs@), h@, paths@[u]@),
        decreases paths.len() - t,
    {
        let lines = session_lines(fs, h, paths[t].as_str());
        let added = compress_lines_to_working_log_format(lines.as_slice());
        let e = WorkingLogEntry::new(paths[t].clone(), String::new(), added, Vec::new());
        proof {
            assert(e@.deleted_lines =~= Seq::<Line>::empty());
            assert(e@ == session_entry(files_view(fs@), h@, paths@[t as int]@));
        }
        r.push(e);
        t = t + 1;
    }
    proof {
        assert(entries_view(r@) =~= session_entries(files_view(fs@), h@));
    }
    r
}

/// The prefix of the error for an entry whose hash names no prompt.
pub const MISSING_PROMPT: &'static str = "Missing prompt record for hash: ";

/// The human entries of the squash checkpoints of the files `fs`.
pub open spec fn squash_human(fs: Seq<FileView>) -> Seq<EntryView> {
    human_entries(fs, dedup_first(paths_of(fs)))
}

/// The sessions of the squash checkpoints of the files `fs`, in order of first appearance.
pub open spec fn squash_sessions(fs: Seq<FileView>) -> Seq<Seq<char>> {
    dedup_first(all_hashes(fs))
}

/// Whether `c` is the human checkpoint of a squash: by `author`, adding the lines `es`.
pub open spec fn human_checkpoint(c: CheckpointView, author: Seq<char>, es: Seq<EntryView>) -> bool {
    &&& c.diff == Seq::<char>::empty()
    &&& c.author == author
    &&& c.entries == es
    &&& c.transcript is None
    &&& c.agent_id is None
    &&& !c.allow_reset_to_checkpoint
    &&& !c.pass_through_attribution_checkpoint
}

/// Whether `c` is the checkpoint of session `h`, whose prompt is `p`, in a squash of `fs`.
pub open spec fn session_checkpoint(c: CheckpointView, fs: Seq<FileView>, h: Seq<char>, p: crate::authorship_log::PromptView) -> bool {
    &&& c.diff == Seq::<char>::empty()
    &&& c.author == "ai"@
    &&& c.entries == session_entries(fs, h)
    &&& c.agent_id == Some(p.agent_id)
    &&& c.transcript == Some(p.messages)
    &&& !c.allow_reset_to_checkpoint
    &&& !c.pass_through_attribution_checkpoint
}

/// Whether `cs` are the squash checkpoints of log `l` for `author`: the human checkpoint
/// first when there are human lines, then one checkpoint per session. Their timestamps are
/// the time they were made.
pub open spec fn squash_checkpoints(cs: Seq<CheckpointView>, l: crate::authorship_log::LogView, author: Seq<char>) -> bool {
    let he = squash_human(l.attestations);
    let hs = squash_sessions(l.attestations);
    let off: int = if he.len() > 0 {
        1
    } else {
        0
    };
    &&& cs.len() == off + hs.len()
    &&& he.len() > 0 ==> human_checkpoint(cs[0], author, he)
    &&& forall|t: int| 0 <= t < hs.len() ==> session_checkpoint(#[trigger] cs[off + t], l.attestations, hs[t], l.prompts[hs[t]])
}

/// Whether some entry of `fs` has a hash that names no prompt of `p`.
pub open spec fn missing_prompt(fs: Seq<FileView>, p: Map<Seq<char>, crate::authorship_log::PromptView>) -> bool {
    exists|k: int| 0 <= k < all_hashes(fs).len() && !p.contains_key(#[trigger] all_hashes(fs)[k])
}

impl AuthorshipLog {
    /// The log as working log checkpoints for a squash merge: a checkpoint by
    /// `human_author` adding, in each file, the lines up to the file's last attributed line
    /// that no session holds, then one checkpoint per session adding its lines, with the
    /// session's agent and transcript. Fails when an entry's hash names no prompt.
    pub fn convert_to_checkpoints_for_squash(&self, human_author: &str) -> (r: Result<Vec<Checkpoint>, String>)
        ensures
            r is Err <==> missing_prompt(self@.attestations, self@.prompts),
            r matches Err(m) ==> exists|k: int|
                0 <= k < all_hashes(self@.attestations).len() && !self@.prompts.contains_key(#[trigger] all_hashes(self@.attestations)[k])
                    && m@ == MISSING_PROMPT@ + all_hashes(self@.attestations)[k],
            r matches Ok(cs) ==> squash_checkpoints(crate::working_log::checkpoints_view(cs@), self@, human_author@),
    {
        let ghost fv = self@.attestations;
        let fs = self.attestations.as_slice();
        let hashes = distinct_hashes(fs);
        let mut q: usize = 0;
        while q < hashes.len()
            invariant
                q <= hashes@.len(),
                fv == files_view(fs@),
                fv == self@.attestations,
                strs_view(hashes@) == dedup_first(all_hashes(fv)),
                forall|t: int| 0 <= t < q ==> self@.prompts.contains_key(#[trigger] strs_view(hashes@)[t]),
            decreases hashes.len() - q,
        {
            if !self.metadata.prompts.contains_key(hashes[q].as_str()) {
                let mut msg = to_chars(MISSING_PROMPT);
                let h = to_chars(hashes[q].as_str());
                extend_chars(&mut msg, h.as_slice());
                let m = from_chars(msg.as_slice());
                proof {
                    let hv = strs_view(hashes@)[q as int];
                    assert(dedup_first(all_hashes(fv)).contains(hv));
                    lemma_dedup_contains(all_hashes(fv), hv);
                    let k = choose|k: int| 0 <= k < all_hashes(fv).len() && all_hashes(fv)[k] == hv;
                    assert(!self@.prompts.contains_key(all_hashes(fv)[k]));
                }
                return Err(m);
            }
            q = q + 1;
        }
        proof {
            let hs = dedup_first(all_hashes(fv));
            if missing_prompt(fv, self@.prompts) {
                let k = choose|k: int| 0 <= k < all_hashes(fv).len() && !self@.prompts.contains_key(#[trigger] all_hashes(fv)[k]);
                let hv = all_hashes(fv)[k];
                assert(all_hashes(fv).contains(hv));
                lemma_dedup_contains(all_hashes(fv), hv);
                let t = choose|t: int| 0 <= t < hs.len() && hs[t] == hv;
                assert(self@.prompts.contains_key(strs_view(hashes@)[t]));
            }
        }
        let paths = distinct_paths(fs);
        proof {
            assert forall|t: int| 0 <= t < paths@.len() implies has_file(fv, (#[trigger] paths@[t])@) by {
                let pv = strs_view(paths@)[t];
                assert(dedup_first(paths_of(fv)).contains(pv));
                lemma_dedup_contains(paths_of(fv), pv);
                let k = choose|k: int| 0 <= k < paths_of(fv).len() && paths_of(fv)[k] == pv;
                assert(fv[k].file_path == pv);
            }
        }
        let human = human_entries_of(fs, paths.as_slice());
        let mut checkpoints: Vec<Checkpoint> = Vec::new();
        let ghost off: int = if human@.len() > 0 {
            1
        } else {
            0
        };
        if human.len() > 0 {
            let c = Checkpoint::new(String::new(), String::from_str(human_author), human);
            checkpoints.push(c);
        }
        let mut t: usize = 0;
        while t < hashes.len()
            invariant
                t <= hashes@.len(),
                fv == files_view(fs@),
                fv == self@.attestations,
                strs_view(hashes@) == squash_sessions(fv),
                forall|u: int| 0 <= u < hashes@.len() ==> self@.prompts.contains_key(#[trigger] strs_view(hashes@)[u]),
                off == (if squash_human(fv).len() > 0 { 1int } else { 0int }),
                checkpoints@.len() == off + t,
                squash_human(fv).len() > 0 ==> human_checkpoint(checkpoints@[0]@, human_author@, squash_human(fv)),
                forall|u: int| 0 <= u < t ==> session_checkpoint(
                    (#[trigger] checkpoints@[off + u])@,
                    fv,
                    strs_view(hashes@)[u],
                    self@.prompts[strs_view(hashes@)[u]],
                ),
            decreases hashes.len() - t,
        {
            let ghost hv = strs_view(hashes@)[t as int];
            assert(self@.prompts.contains_key(hv));
            let rec = match self.metadata.prompts.get(hashes[t].as_str()) {
                Some(r) => r,
                None => {
                    proof {
                        assert(false);
                    }
                    return Ok(checkpoints);
                },
            };
            let entries = session_entries_of(fs, hashes[t].as_str());
            let mut c = Checkpoint::new(String::new(), String::from_str("ai"), entries);
            c.agent_id = Some(rec.agent_id.duplicate());
            c.transcript = Some(AiTranscript { messages: copy_messages(rec.messages.as_slice()) });
            proof {
                assert(c@.transcript == Some(rec@.messages));
            }
            let ghost before = checkpoints@;
            checkpoints.push(c);
            proof {
                assert(checkpoints@[off + t]@ == c@);
                assert forall|u: int| 0 <= u < t + 1 implies session_checkpoint(
                    (#[trigger] checkpoints@[off + u])@,
                    fv,
                    strs_view(hashes@)[u],
                    self@.prompts[strs_view(hashes@)[u]],
                ) by {
                    if u < t {
                        assert(checkpoints@[off + u] == before[off + u]);
                    }
                }
            }
            t = t + 1;
        }
        proof {
            let cv = crate::working_log::checkpoints_view(checkpoints@);
            assert forall|u: int| 0 <= u < squash_sessions(fv).len() implies session_checkpoint(
                #[trigger] cv[off + u],
                fv,
                squash_sessions(fv)[u],
                self@.prompts[squash_sessions(fv)[u]],
            ) by {
                assert(cv[off + u] == checkpoints@[off + u]@);
            }
            if squash_human(fv).len() > 0 {
                assert(cv[0] == checkpoints@[0]@);
            }
        }
        Ok(checkpoints)
    }
}

} // verus!
