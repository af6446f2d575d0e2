//! Finishing an authorship log once all checkpoints are applied: cleanup, ordering,
//! consolidation and the per-session line counts.

use vstd::prelude::*;
use vstd::string::*;

use crate::apply::{ranges_total32, total_ranges, wrap32};
use crate::authorship_log::{
    AttestationEntry, AttestationView, AuthorshipLog, FileAttestation, FileView, LogView, PromptRecord, PromptView,
    attestations_view, copy_ranges, extend_ranges, files_view,
};
use crate::line_range::canonical;
use crate::merge::{all_bounded, bounded_range, lemma_merge_canonical, merge_line_ranges, merge_spec};
use crate::str_map::{Duplicate, StrMap};
use crate::text::{
    lemma_seq_lt_asymmetric, lemma_seq_lt_total, lemma_seq_lt_transitive, seq_lt, str_eq, str_lt,
};

verus! {

/// The entries of `es` that still hold ranges, in order.
pub open spec fn keep_nonempty(es: Seq<AttestationView>) -> Seq<AttestationView>
    decreases es.len(),
{
    if es.len() == 0 {
        es
    } else {
        let p = keep_nonempty(es.drop_last());
        if es.last().line_ranges.len() > 0 {
            p.push(es.last())
        } else {
            p
        }
    }
}

/// The files of `fs` with their empty entries dropped, and then the files left without
/// entries dropped, in order.
pub open spec fn keep_files(fs: Seq<FileView>) -> Seq<FileView>
    decreases fs.len(),
{
    if fs.len() == 0 {
        fs
    } else {
        let p = keep_files(fs.drop_last());
        let es = keep_nonempty(fs.last().entries);
        if es.len() > 0 {
            p.push(FileView { file_path: fs.last().file_path, entries: es })
        } else {
            p
        }
    }
}

/// Number of leading entries of `s` whose hash does not sort after `h`, counted up to the
/// first one that does.
pub open spec fn place_by_hash(s: Seq<AttestationView>, h: Seq<char>) -> nat
    decreases s.len(),
{
    if s.len() == 0 || seq_lt(h, s[0].hash) {
        0
    } else {
        1 + place_by_hash(s.drop_first(), h)
    }
}

/// The entries sorted by hash, stably: an entry goes after every earlier one whose hash
/// does not sort after its own.
pub open spec fn sort_by_hash(es: Seq<AttestationView>) -> Seq<AttestationView>
    decreases es.len(),
{
    if es.len() == 0 {
        Seq::empty()
    } else {
        let s = sort_by_hash(es.drop_last());
        let p = place_by_hash(s, es.last().hash) as int;
        s.take(p).push(es.last()) + s.skip(p)
    }
}

/// Runs of adjacent entries with the same hash joined into one entry holding their ranges
/// in order.
pub open spec fn group_by_hash(es: Seq<AttestationView>) -> Seq<AttestationView>
    decreases es.len(),
{
    if es.len() == 0 {
        Seq::empty()
    } else {
        let g = group_by_hash(es.drop_last());
        let e = es.last();
        if g.len() > 0 && g.last().hash == e.hash {
            g.drop_last().push(AttestationView { hash: e.hash, line_ranges: g.last().line_ranges + e.line_ranges })
        } else {
            g.push(e)
        }
    }
}

/// Runs of adjacent entries with the same hash joined, with their ranges merged.
pub open spec fn consolidate(es: Seq<AttestationView>) -> Seq<AttestationView> {
    group_by_hash(es).map_values(|a: AttestationView| AttestationView { hash: a.hash, line_ranges: merge_spec(a.line_ranges) })
}

/// The attestations of a finished log: empty entries and files dropped, and each file's
/// entries sorted by hash and consolidated.
pub open spec fn finalized_files(fs: Seq<FileView>) -> Seq<FileView> {
    keep_files(fs).map_values(|f: FileView| FileView { file_path: f.file_path, entries: consolidate(sort_by_hash(f.entries)) })
}

/// The wrapping sum of the line counts of the entries of `es` with hash `h`.
pub open spec fn entries_accepted(es: Seq<AttestationView>, h: Seq<char>) -> u32
    decreases es.len(),
{
    if es.len() == 0 {
        0
    } else {
        wrap32(
            entries_accepted(es.drop_last(), h) + if es.last().hash == h {
                ranges_total32(es.last().line_ranges) as int
            } else {
                0
            },
        )
    }
}

/// The wrapping sum of the line counts of the entries with hash `h` of all files of `fs`:
/// the lines of session `h` that the log keeps.
pub open spec fn files_accepted(fs: Seq<FileView>, h: Seq<char>) -> u32
    decreases fs.len(),
{
    if fs.len() == 0 {
        0
    } else {
        wrap32(files_accepted(fs.drop_last(), h) + entries_accepted(fs.last().entries, h))
    }
}

/// The count `m` holds for `k`, zero when it holds none.
pub open spec fn count_or_zero(m: Map<Seq<char>, u32>, k: Seq<char>) -> u32 {
    if m.contains_key(k) {
        m[k]
    } else {
        0
    }
}

/// The prompts with their final counts: the additions and deletions counted per session,
/// and the lines of each session that the attestations `fs` keep.
pub open spec fn final_prompts(
    p: Map<Seq<char>, PromptView>,
    fs: Seq<FileView>,
    additions: Map<Seq<char>, u32>,
    deletions: Map<Seq<char>, u32>,
) -> Map<Seq<char>, PromptView> {
    Map::new(
        |k: Seq<char>| p.contains_key(k),
        |k: Seq<char>| PromptView {
            total_additions: count_or_zero(additions, k),
            total_deletions: count_or_zero(deletions, k),
            accepted_lines: files_accepted(fs, k),
            ..p[k]
        },
    )
}

/// The entries of `es` that still hold ranges, copied.
pub fn nonempty_entries(es: &[AttestationEntry]) -> (r: Vec<AttestationEntry>)
    ensures
        attestations_view(r@) == keep_nonempty(attestations_view(es@)),
{
    let mut r: Vec<AttestationEntry> = Vec::new();
    let mut j: usize = 0;
    while j < es.len()
        invariant
            j <= es.len(),
            attestations_view(r@) == keep_nonempty(attestations_view(es@.subrange(0, j as int))),
        decreases es.len() - j,
    {
        let ghost prev = r@;
        proof {
            let cur = attestations_view(es@.subrange(0, j + 1));
            assert(cur.drop_last() =~= attestations_view(es@.subrange(0, j as int)));
            assert(cur.last() == es@[j as int]@);
        }
        if es[j].line_ranges.len() > 0 {
            r.push(es[j].duplicate());
            proof {
                assert(attestations_view(r@) =~= attestations_view(prev).push(es@[j as int]@));
            }
        }
        j = j + 1;
    }
    proof {
        assert(es@.subrange(0, es@.len() as int) =~= es@);
    }
    r
}

/// The files of `fs` without their empty entries, and without the files left empty.
pub fn nonempty_files(fs: &[FileAttestation]) -> (r: Vec<FileAttestation>)
    ensures
        files_view(r@) == keep_files(files_view(fs@)),
{
    let mut r: Vec<FileAttestation> = Vec::new();
    let mut i: usize = 0;
    while i < fs.len()
        invariant
            i <= fs.len(),
            files_view(r@) == keep_files(files_view(fs@.subrange(0, i as int))),
        decreases fs.len() - i,
    {
        let ghost prev = r@;
        proof {
            let cur = files_view(fs@.subrange(0, i + 1));
            assert(cur.drop_last() =~= files_view(fs@.subrange(0, i as int)));
            assert(cur.last() == fs@[i as int]@);
        }
        let es = nonempty_entries(fs[i].entries.as_slice());
        if es.len() > 0 {
            r.push(FileAttestation { file_path: fs[i].file_path.clone(), entries: es });
            proof {
                assert(files_view(r@).drop_last() =~= files_view(prev));
            }
        }
        i = i + 1;
    }
    proof {
        assert(fs@.subrange(0, fs@.len() as int) =~= fs@);
    }
    r
}

/// Copies of the entries `es`.
pub fn copy_attestation_entries(es: &[AttestationEntry]) -> (r: Vec<AttestationEntry>)
    ensures
        attestations_view(r@) == attestations_view(es@),
{
    let mut r: Vec<AttestationEntry> = Vec::new();
    let mut j: usize = 0;
    while j < es.len()
        invariant
            j <= es.len(),
            r@.len() == j,
            forall|t: int| 0 <= t < j ==> (#[trigger] r@[t])@ == es@[t]@,
        decreases es.len() - j,
    {
        r.push(es[j].duplicate());
        j = j + 1;
    }
    proof {
        assert(attestations_view(r@) =~= attestations_view(es@));
    }
    r
}

/// `place_by_hash` computed from the front.
proof fn lemma_place_hash_step(s: Seq<AttestationView>, h: Seq<char>, p: int)
    requires
        0 <= p <= s.len(),
        forall|k: int| 0 <= k < p ==> !seq_lt(h, (#[trigger] s[k]).hash),
        p == s.len() || seq_lt(h, s[p].hash),
    ensures
        place_by_hash(s, h) == p,
    decreases p,
{
    if p > 0 {
        let t = s.drop_first();
        assert forall|k: int| 0 <= k < p - 1 implies !seq_lt(h, (#[trigger] t[k]).hash) by {
            assert(t[k] == s[k + 1]);
        }
        if p < s.len() {
            assert(t[p - 1] == s[p]);
        }
        assert(!seq_lt(h, s[0].hash));
        lemma_place_hash_step(t, h, p - 1);
    }
}

/// The entries sorted by hash, stably (see `sort_by_hash`).
fn sort_entries_by_hash(es: &[AttestationEntry]) -> (r: Vec<AttestationEntry>)
    ensures
        attestations_view(r@) == sort_by_hash(attestations_view(es@)),
{
    let mut r: Vec<AttestationEntry> = Vec::new();
    let mut i: usize = 0;
    while i < es.len()
        invariant
            i <= es.len(),
            attestations_view(r@) == sort_by_hash(attestations_view(es@.subrange(0, i as int))),
        decreases es.len() - i,
    {
        let c = es[i].duplicate();
        let mut p: usize = 0;
        while p < r.len() && !str_lt(c.hash.as_str(), r[p].hash.as_str())
            invariant
                p <= r@.len(),
                forall|k: int| 0 <= k < p ==> !seq_lt(c@.hash, (#[trigger] attestations_view(r@)[k]).hash),
            decreases r.len() - p,
        {
            p = p + 1;
        }
        let ghost old_r = r@;
        proof {
            lemma_place_hash_step(attestations_view(r@), c@.hash, p as int);
            let cur = attestations_view(es@.subrange(0, i + 1));
            assert(cur.drop_last() =~= attestations_view(es@.subrange(0, i as int)));
            assert(cur.last() == es@[i as int]@);
        }
        r.insert(p, c);
        proof {
            let ov = attestations_view(old_r);
            assert(attestations_view(r@) =~= ov.take(p as int).push(c@) + ov.skip(p as int));
        }
        i = i + 1;
    }
    proof {
        assert(es@.subrange(0, es@.len() as int) =~= es@);
    }
    r
}

/// Joins runs of adjacent entries with the same hash (see `group_by_hash`).
fn group_entries(es: &[AttestationEntry]) -> (r: Vec<AttestationEntry>)
    ensures
        attestations_view(r@) == group_by_hash(attestations_view(es@)),
{
    let mut r: Vec<AttestationEntry> = Vec::new();
    let mut j: usize = 0;
    while j < es.len()
        invariant
            j <= es.len(),
            attestations_view(r@) == group_by_hash(attestations_view(es@.subrange(0, j as int))),
        decreases es.len() - j,
    {
        let ghost prev = r@;
        proof {
            let cur = attestations_view(es@.subrange(0, j + 1));
            assert(cur.drop_last() =~= attestations_view(es@.subrange(0, j as int)));
            assert(cur.last() == es@[j as int]@);
        }
        let n = r.len();
        if n > 0 && str_eq(r[n - 1].hash.as_str(), es[j].hash.as_str()) {
            let mut last = r.pop().unwrap();
            extend_ranges(&mut last.line_ranges, es[j].line_ranges.as_slice());
            r.push(last);
            proof {
                assert(attestations_view(r@) =~= attestations_view(prev).drop_last().push(
                    AttestationView { hash: es@[j as int]@.hash, line_ranges: prev.last()@.line_ranges + es@[j as int]@.line_ranges },
                ));
            }
        } else {
            r.push(es[j].duplicate());
            proof {
                assert(attestations_view(r@) =~= attestations_view(prev).push(es@[j as int]@));
            }
        }
        j = j + 1;
    }
    proof {
        assert(es@.subrange(0, es@.len() as int) =~= es@);
    }
    r
}

/// Joins runs of adjacent entries with the same hash and merges their ranges.
fn consolidate_entries(es: &[AttestationEntry]) -> (r: Vec<AttestationEntry>)
    ensures
        attestations_view(r@) == consolidate(attestations_view(es@)),
{
    let grouped = group_entries(es);
    let mut r: Vec<AttestationEntry> = Vec::new();
    let mut j: usize = 0;
    while j < grouped.len()
        invariant
            j <= grouped@.len(),
            r@.len() == j,
            forall|t: int| 0 <= t < j ==> (#[trigger] r@[t])@ == (AttestationView {
                hash: grouped@[t]@.hash,
                line_ranges: merge_spec(grouped@[t]@.line_ranges),
            }),
        decreases grouped.len() - j,
    {
        let merged = merge_line_ranges(grouped[j].line_ranges.as_slice());
        r.push(AttestationEntry::new(grouped[j].hash.clone(), merged));
        j = j + 1;
    }
    proof {
        assert(attestations_view(r@) =~= consolidate(attestations_view(es@)));
    }
    r
}

/// The wrapping sum of the line counts of the entries of `es` with hash `h`.
fn accepted_in_entries(es: &[AttestationEntry], h: &str) -> (r: u32)
    ensures
        r == entries_accepted(attestations_view(es@), h@),
{
    let mut acc: u32 = 0;
    let mut j: usize = 0;
    while j < es.len()
        invariant
            j <= es.len(),
            acc == entries_accepted(attestations_view(es@.subrange(0, j as int)), h@),
        decreases es.len() - j,
    {
        proof {
            let cur = attestations_view(es@.subrange(0, j + 1));
            assert(cur.drop_last() =~= attestations_view(es@.subrange(0, j as int)));
            assert(cur.last() == es@[j as int]@);
        }
        let add: u32 = if str_eq(es[j].hash.as_str(), h) {
            total_ranges(es[j].line_ranges.as_slice())
        } else {
            0
        };
        acc = acc.wrapping_add(add);
        j = j + 1;
    }
    proof {
        assert(es@.subrange(0, es@.len() as int) =~= es@);
    }
    acc
}

/// The lines of session `h` that the attestations `fs` keep (see `files_accepted`).
fn accepted_in_files(fs: &[FileAttestation], h: &str) -> (r: u32)
    ensures
        r == files_accepted(files_view(fs@), h@),
{
    let mut acc: u32 = 0;
    let mut i: usize = 0;
    while i < fs.len()
        invariant
            i <= fs.len(),
            acc == files_accepted(files_view(fs@.subrange(0, i as int)), h@),
        decreases fs.len() - i,
    {
        proof {
            let cur = files_view(fs@.subrange(0, i + 1));
            assert(cur.drop_last() =~= files_view(fs@.subrange(0, i as int)));
            assert(cur.last() == fs@[i as int]@);
        }
        let add = accepted_in_entries(fs[i].entries.as_slice(), h);
        acc = acc.wrapping_add(add);
        i = i + 1;
    }
    proof {
        assert(fs@.subrange(0, fs@.len() as int) =~= fs@);
    }
    acc
}

/// The count of `k` in `m`, zero when there is none.
fn get_count(m: &StrMap<u32>, k: &str) -> (r: u32)
    ensures
        r == count_or_zero(m@, k@),
{
    match m.get(k) {
        Some(v) => *v,
        None => 0,
    }
}

impl AuthorshipLog {
    /// Finishes the log after all checkpoints were applied: drops empty entries and files,
    /// sorts each file's entries by hash and joins those of one session with their ranges
    /// merged, and sets each prompt's added, deleted and accepted line counts. Afterwards
    /// the hashes of each file strictly increase, and each entry's ranges are canonical when
    /// the ranges were well formed and ended below the largest line number.
    pub fn finalize(&mut self, session_additions: &StrMap<u32>, session_deletions: &StrMap<u32>)
        ensures
            final(self)@ == (LogView {
                attestations: finalized_files(old(self)@.attestations),
                prompts: final_prompts(
                    old(self)@.prompts,
                    finalized_files(old(self)@.attestations),
                    session_additions@,
                    session_deletions@,
                ),
                ..old(self)@
            }),
            forall|i: int|
                0 <= i < final(self)@.attestations.len() ==> hashes_increasing(
                    #[trigger] final(self)@.attestations[i].entries,
                ),
            files_bounded(old(self)@.attestations) ==> forall|i: int, j: int|
                0 <= i < final(self)@.attestations.len() && 0 <= j < final(self)@.attestations[i].entries.len()
                    ==> canonical(#[trigger] final(self)@.attestations[i].entries[j].line_ranges),
    {
        let ghost l0 = self@;
        let kept = nonempty_files(self.attestations.as_slice());
        let mut files: Vec<FileAttestation> = Vec::new();
        let mut i: usize = 0;
        while i < kept.len()
            invariant
                i <= kept@.len(),
                files@.len() == i,
                forall|t: int| 0 <= t < i ==> (#[trigger] files@[t])@ == (FileView {
                    file_path: kept@[t]@.file_path,
                    entries: consolidate(sort_by_hash(kept@[t]@.entries)),
                }),
            decreases kept.len() - i,
        {
            let sorted = sort_entries_by_hash(kept[i].entries.as_slice());
            let entries = consolidate_entries(sorted.as_slice());
            files.push(FileAttestation { file_path: kept[i].file_path.clone(), entries });
            i = i + 1;
        }
        proof {
            assert(files_view(files@) =~= finalized_files(l0.attestations));
        }
        self.attestations = files;
        let keys = self.metadata.prompts.keys();
        let ghost p0 = self@.prompts;
        let ghost fv = self@.attestations;
        let mut q: usize = 0;
        while q < keys.len()
            invariant
                q <= keys@.len(),
                fv == self@.attestations,
                fv == finalized_files(l0.attestations),
                self@.schema_version == l0.schema_version,
                self@.base_commit_sha == l0.base_commit_sha,
                p0 == l0.prompts,
                forall|t: int, u: int| 0 <= t < u < keys@.len() ==> keys@[t]@ != keys@[u]@,
                forall|k: Seq<char>| p0.contains_key(k) <==> exists|t: int| 0 <= t < keys@.len() && (#[trigger] keys@[t])@ == k,
                self@.prompts == Map::new(
                    |k: Seq<char>| p0.contains_key(k),
                    |k: Seq<char>| if exists|t: int| 0 <= t < q && (#[trigger] keys@[t])@ == k {
                        final_prompts(p0, fv, session_additions@, session_deletions@)[k]
                    } else {
                        p0[k]
                    },
                ),
            decreases keys.len() - q,
        {
            let ghost ki = keys@[q as int]@;
            assert(p0.contains_key(ki));
            let additions = get_count(session_additions, keys[q].as_str());
            let deletions = get_count(session_deletions, keys[q].as_str());
            let accepted = accepted_in_files(self.attestations.as_slice(), keys[q].as_str());
            let mut rec = match self.metadata.prompts.get(keys[q].as_str()) {
                Some(r) => r.duplicate_value(),
                None => {
                    proof {
                        assert(false);
                    }
                    return;
                },
            };
            assert(!(exists|t: int| 0 <= t < q && (#[trigger] keys@[t])@ == ki)) by {
                if exists|t: int| 0 <= t < q && (#[trigger] keys@[t])@ == ki {
                    let t = choose|t: int| 0 <= t < q && (#[trigger] keys@[t])@ == ki;
                    assert(keys@[t]@ != keys@[q as int]@);
                }
            }
            assert(rec@ == p0[ki]);
            rec.total_additions = additions;
            rec.total_deletions = deletions;
            rec.accepted_lines = accepted;
            self.metadata.prompts.insert(keys[q].clone(), rec);
            proof {
                let target = Map::new(
                    |k: Seq<char>| p0.contains_key(k),
                    |k: Seq<char>| if exists|t: int| 0 <= t < q + 1 && (#[trigger] keys@[t])@ == k {
                        final_prompts(p0, fv, session_additions@, session_deletions@)[k]
                    } else {
                        p0[k]
                    },
                );
                assert forall|k: Seq<char>| #[trigger] self@.prompts.contains_key(k) == target.contains_key(k) by {}
                assert forall|k: Seq<char>| self@.prompts.contains_key(k) implies #[trigger] self@.prompts[k] == target[k] by {
                    if k == ki {
                        assert(keys@[q as int]@ == k);
                    } else {
                        if exists|t: int| 0 <= t < q + 1 && (#[trigger] keys@[t])@ == k {
                            let t = choose|t: int| 0 <= t < q + 1 && (#[trigger] keys@[t])@ == k;
                            assert(t != q);
                            assert(exists|t: int| 0 <= t < q && (#[trigger] keys@[t])@ == k);
                        }
                        if exists|t: int| 0 <= t < q && (#[trigger] keys@[t])@ == k {
                            let t = choose|t: int| 0 <= t < q && (#[trigger] keys@[t])@ == k;
                            assert(exists|t: int| 0 <= t < q + 1 && (#[trigger] keys@[t])@ == k);
                        }
                    }
                }
                assert(self@.prompts =~= target);
            }
            q = q + 1;
        }
        proof {
            assert forall|k: Seq<char>| p0.contains_key(k) implies (exists|t: int| 0 <= t < q && (#[trigger] keys@[t])@ == k) by {}
            assert(self@.prompts =~= final_prompts(p0, fv, session_additions@, session_deletions@));
            lemma_finalized_hashes_increasing(l0.attestations);
            if files_bounded(l0.attestations) {
                lemma_finalized_ranges_canonical(l0.attestations);
            }
        }
    }
}

/// Whether the hashes of `es` strictly increase: sorted, with no hash twice.
pub open spec fn hashes_increasing(es: Seq<AttestationView>) -> bool {
    forall|i: int, j: int| 0 <= i < j < es.len() ==> seq_lt(#[trigger] es[i].hash, #[trigger] es[j].hash)
}

/// Whether no hash of `es` sorts before an earlier one.
pub open spec fn hashes_sorted(es: Seq<AttestationView>) -> bool {
    forall|i: int, j: int| 0 <= i < j < es.len() ==> !seq_lt(#[trigger] es[j].hash, #[trigger] es[i].hash)
}

/// Where `place_by_hash` puts `h`: after the leading entries that do not sort after it,
/// before the first that does.
proof fn lemma_place_by_hash(s: Seq<AttestationView>, h: Seq<char>)
    ensures
        place_by_hash(s, h) <= s.len(),
        forall|k: int| 0 <= k < place_by_hash(s, h) ==> !seq_lt(h, #[trigger] s[k].hash),
        place_by_hash(s, h) < s.len() ==> seq_lt(h, s[place_by_hash(s, h) as int].hash),
    decreases s.len(),
{
    if s.len() > 0 && !seq_lt(h, s[0].hash) {
        lemma_place_by_hash(s.drop_first(), h);
        assert forall|k: int| 0 <= k < place_by_hash(s, h) implies !seq_lt(h, #[trigger] s[k].hash) by {
            if k > 0 {
                assert(s[k] == s.drop_first()[k - 1]);
            }
        }
        if place_by_hash(s, h) < s.len() {
            assert(s[place_by_hash(s, h) as int] == s.drop_first()[place_by_hash(s.drop_first(), h) as int]);
        }
    }
}

/// Sorting by hash leaves no hash before an earlier one that sorts after it.
proof fn lemma_sort_by_hash_sorted(es: Seq<AttestationView>)
    ensures
        hashes_sorted(sort_by_hash(es)),
        sort_by_hash(es).len() == es.len(),
    decreases es.len(),
{
    if es.len() > 0 {
        lemma_sort_by_hash_sorted(es.drop_last());
        let s = sort_by_hash(es.drop_last());
        let e = es.last();
        let p = place_by_hash(s, e.hash) as int;
        lemma_place_by_hash(s, e.hash);
        let r = s.take(p).push(e) + s.skip(p);
        assert(r == sort_by_hash(es));
        assert forall|k: int| 0 <= k < r.len() implies #[trigger] r[k] == (if k < p {
            s[k]
        } else if k == p {
            e
        } else {
            s[k - 1]
        }) by {
            if k < p {
                assert(r[k] == s.take(p)[k]);
            } else if k > p {
                assert(r[k] == s.skip(p)[k - p - 1]);
            }
        }
        assert forall|i: int, j: int| 0 <= i < j < r.len() implies !seq_lt(#[trigger] r[j].hash, #[trigger] r[i].hash) by {
            if i < p && j == p {
                assert(!seq_lt(e.hash, s[i].hash));
            } else if i == p {
                let t = s[j - 1].hash;
                assert(seq_lt(e.hash, s[p].hash));
                if j - 1 > p {
                    assert(!seq_lt(s[j - 1].hash, s[p].hash));
                    if s[p].hash != t {
                        lemma_seq_lt_total(s[p].hash, t);
                        lemma_seq_lt_transitive(e.hash, s[p].hash, t);
                    }
                }
                lemma_seq_lt_asymmetric(e.hash, t);
            } else if i < p && j > p {
                assert(!seq_lt(s[j - 1].hash, s[i].hash));
            } else if i > p {
                assert(!seq_lt(s[j - 1].hash, s[i - 1].hash));
            }
        }
    }
}

/// Joining the runs of equal hashes of a sorted list leaves hashes that strictly increase;
/// the last hash stays the last.
proof fn lemma_group_by_hash_increasing(es: Seq<AttestationView>)
    requires
        hashes_sorted(es),
    ensures
        hashes_increasing(group_by_hash(es)),
        es.len() > 0 ==> group_by_hash(es).len() > 0 && group_by_hash(es).last().hash == es.last().hash,
    decreases es.len(),
{
    if es.len() > 0 {
        let es2 = es.drop_last();
        assert forall|i: int, j: int| 0 <= i < j < es2.len() implies !seq_lt(#[trigger] es2[j].hash, #[trigger] es2[i].hash) by {
            assert(es2[i] == es[i] && es2[j] == es[j]);
        }
        lemma_group_by_hash_increasing(es2);
        let g = group_by_hash(es2);
        let e = es.last();
        let r = group_by_hash(es);
        if g.len() > 0 && g.last().hash == e.hash {
            assert forall|k: int| 0 <= k < r.len() implies (#[trigger] r[k]).hash == g[k].hash by {}
            assert forall|i: int, j: int| 0 <= i < j < r.len() implies seq_lt(#[trigger] r[i].hash, #[trigger] r[j].hash) by {
                assert(r[i].hash == g[i].hash && r[j].hash == g[j].hash);
            }
        } else {
            if g.len() > 0 {
                let last = es2.last().hash;
                assert(es2.last() == es[es.len() - 2]);
                assert(!seq_lt(e.hash, es[es.len() - 2].hash));
                lemma_seq_lt_total(last, e.hash);
                assert(seq_lt(last, e.hash));
                assert forall|k: int| 0 <= k < g.len() implies seq_lt(#[trigger] g[k].hash, e.hash) by {
                    if k < g.len() - 1 {
                        assert(seq_lt(g[k].hash, g[g.len() - 1].hash));
                        lemma_seq_lt_transitive(g[k].hash, last, e.hash);
                    }
                }
            }
            assert forall|i: int, j: int| 0 <= i < j < r.len() implies seq_lt(#[trigger] r[i].hash, #[trigger] r[j].hash) by {
                assert(r[i] == g[i]);
                if j < g.len() {
                    assert(r[j] == g[j]);
                }
            }
        }
    }
}

/// In every file of a finished log the entries' hashes strictly increase: the entries are
/// sorted by hash and no hash is attested twice.
pub proof fn lemma_finalized_hashes_increasing(fs: Seq<FileView>)
    ensures
        forall|i: int|
            0 <= i < finalized_files(fs).len() ==> hashes_increasing(#[trigger] finalized_files(fs)[i].entries),
{
    let k = keep_files(fs);
    assert forall|i: int| 0 <= i < finalized_files(fs).len() implies hashes_increasing(
        #[trigger] finalized_files(fs)[i].entries,
    ) by {
        let es = sort_by_hash(k[i].entries);
        lemma_sort_by_hash_sorted(k[i].entries);
        lemma_group_by_hash_increasing(es);
        let g = group_by_hash(es);
        let c = consolidate(es);
        assert(finalized_files(fs)[i].entries == c);
        assert forall|a: int, b: int| 0 <= a < b < c.len() implies seq_lt(#[trigger] c[a].hash, #[trigger] c[b].hash) by {
            assert(c[a].hash == g[a].hash && c[b].hash == g[b].hash);
        }
    }
}

/// Whether every range of every entry of `es` is well formed and ends below the largest
/// line number.
pub open spec fn entries_bounded(es: Seq<AttestationView>) -> bool {
    forall|i: int| 0 <= i < es.len() ==> all_bounded(#[trigger] es[i].line_ranges)
}

/// Whether every entry of every file of `fs` is bounded (see `entries_bounded`).
pub open spec fn files_bounded(fs: Seq<FileView>) -> bool {
    forall|i: int| 0 <= i < fs.len() ==> entries_bounded(#[trigger] fs[i].entries)
}

/// Dropping empty entries keeps the rest bounded.
proof fn lemma_keep_nonempty_bounded(es: Seq<AttestationView>)
    requires
        entries_bounded(es),
    ensures
        entries_bounded(keep_nonempty(es)),
    decreases es.len(),
{
    if es.len() > 0 {
        let es2 = es.drop_last();
        assert forall|i: int| 0 <= i < es2.len() implies all_bounded(#[trigger] es2[i].line_ranges) by {
            assert(es2[i] == es[i]);
        }
        lemma_keep_nonempty_bounded(es2);
        let p = keep_nonempty(es2);
        assert(all_bounded(es[es.len() - 1].line_ranges));
        assert forall|i: int| 0 <= i < keep_nonempty(es).len() implies all_bounded(
            #[trigger] keep_nonempty(es)[i].line_ranges,
        ) by {
            if i < p.len() {
                assert(keep_nonempty(es)[i] == p[i]);
            }
        }
    }
}

/// Dropping empty entries and files keeps the rest bounded.
proof fn lemma_keep_files_bounded(fs: Seq<FileView>)
    requires
        files_bounded(fs),
    ensures
        files_bounded(keep_files(fs)),
    decreases fs.len(),
{
    if fs.len() > 0 {
        let fs2 = fs.drop_last();
        assert forall|i: int| 0 <= i < fs2.len() implies entries_bounded(#[trigger] fs2[i].entries) by {
            assert(fs2[i] == fs[i]);
        }
        lemma_keep_files_bounded(fs2);
        let p = keep_files(fs2);
        assert(entries_bounded(fs[fs.len() - 1].entries));
        lemma_keep_nonempty_bounded(fs.last().entries);
        assert forall|i: int| 0 <= i < keep_files(fs).len() implies entries_bounded(
            #[trigger] keep_files(fs)[i].entries,
        ) by {
            if i < p.len() {
                assert(keep_files(fs)[i] == p[i]);
            }
        }
    }
}

/// Sorting entries by hash keeps them bounded.
proof fn lemma_sort_by_hash_bounded(es: Seq<AttestationView>)
    requires
        entries_bounded(es),
    ensures
        entries_bounded(sort_by_hash(es)),
    decreases es.len(),
{
    if es.len() > 0 {
        let es2 = es.drop_last();
        assert forall|i: int| 0 <= i < es2.len() implies all_bounded(#[trigger] es2[i].line_ranges) by {
            assert(es2[i] == es[i]);
        }
        lemma_sort_by_hash_bounded(es2);
        let s = sort_by_hash(es2);
        let e = es.last();
        let p = place_by_hash(s, e.hash) as int;
        lemma_place_by_hash(s, e.hash);
        let r = s.take(p).push(e) + s.skip(p);
        assert(r == sort_by_hash(es));
        assert(all_bounded(es[es.len() - 1].line_ranges));
        assert forall|k: int| 0 <= k < r.len() implies all_bounded(#[trigger] r[k].line_ranges) by {
            if k < p {
                assert(r[k] == s.take(p)[k]);
            } else if k > p {
                assert(r[k] == s.skip(p)[k - p - 1]);
            }
        }
    }
}

/// Joining runs of equal hashes keeps the entries bounded.
proof fn lemma_group_by_hash_bounded(es: Seq<AttestationView>)
    requires
        entries_bounded(es),
    ensures
        entries_bounded(group_by_hash(es)),
    decreases es.len(),
{
    if es.len() > 0 {
        let es2 = es.drop_last();
        assert forall|i: int| 0 <= i < es2.len() implies all_bounded(#[trigger] es2[i].line_ranges) by {
            assert(es2[i] == es[i]);
        }
        lemma_group_by_hash_bounded(es2);
        let g = group_by_hash(es2);
        let e = es.last();
        let r = group_by_hash(es);
        assert(all_bounded(es[es.len() - 1].line_ranges));
        if g.len() > 0 && g.last().hash == e.hash {
            let joined = g.last().line_ranges + e.line_ranges;
            assert(all_bounded(g[g.len() - 1].line_ranges));
            assert forall|t: int| 0 <= t < joined.len() implies bounded_range(#[trigger] joined[t]) by {
                if t < g.last().line_ranges.len() {
                    assert(joined[t] == g.last().line_ranges[t]);
                } else {
                    assert(joined[t] == e.line_ranges[t - g.last().line_ranges.len()]);
                }
            }
            assert forall|k: int| 0 <= k < r.len() implies all_bounded(#[trigger] r[k].line_ranges) by {
                if k < r.len() - 1 {
                    assert(r[k] == g[k]);
                }
            }
        } else {
            assert forall|k: int| 0 <= k < r.len() implies all_bounded(#[trigger] r[k].line_ranges) by {
                if k < g.len() {
                    assert(r[k] == g[k]);
                }
            }
        }
    }
}

/// In a finished log every entry's ranges are canonical (in increasing order, none touching
/// or overlapping another) when every range it was built from is well formed and ends
/// below the largest line number.
pub proof fn lemma_finalized_ranges_canonical(fs: Seq<FileView>)
    requires
        files_bounded(fs),
    ensures
        forall|i: int, j: int|
            0 <= i < finalized_files(fs).len() && 0 <= j < finalized_files(fs)[i].entries.len() ==> canonical(
                #[trigger] finalized_files(fs)[i].entries[j].line_ranges,
            ),
{
    let k = keep_files(fs);
    lemma_keep_files_bounded(fs);
    assert forall|i: int, j: int|
        0 <= i < finalized_files(fs).len() && 0 <= j < finalized_files(fs)[i].entries.len() implies canonical(
            #[trigger] finalized_files(fs)[i].entries[j].line_ranges,
        ) by {
        assert(entries_bounded(k[i].entries));
        let es = sort_by_hash(k[i].entries);
        lemma_sort_by_hash_bounded(k[i].entries);
        lemma_group_by_hash_bounded(es);
        let g = group_by_hash(es);
        let c = consolidate(es);
        assert(finalized_files(fs)[i].entries == c);
        assert(c[j].line_ranges == merge_spec(g[j].line_ranges));
        assert(all_bounded(g[j].line_ranges));
        lemma_merge_canonical(g[j].line_ranges);
    }
}

} // verus!
