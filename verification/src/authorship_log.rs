//! The authorship log of a commit: which AI session wrote which lines of which file.

use vstd::prelude::*;
use vstd::string::*;

use crate::line_range::{
    LineRange, canonical, covered, holds_line, lemma_holds_push, lemma_remove_all_covers, remove_all,
    shift_all, sorted_unique,
};
use crate::str_map::{Duplicate, StrMap};
use crate::transcript::{Message, MessageView, copy_messages, copy_opt_string, messages_view, opt_view};
use crate::working_log::{AgentId, AgentView};

verus! {

/// Authorship log format version identifier.
pub const AUTHORSHIP_LOG_VERSION: &'static str = "authorship/3.0.0";

/// An author of some lines.
#[derive(Clone, Debug, PartialEq, Eq)]
pub struct Author {
    pub username: String,
    pub email: String,
}

/// What an AI prompt session did, as plain values.
pub struct PromptView {
    pub agent_id: AgentView,
    pub human_author: Option<Seq<char>>,
    pub messages: Seq<MessageView>,
    pub total_additions: u32,
    pub total_deletions: u32,
    pub accepted_lines: u32,
    pub overriden_lines: u32,
}

/// One AI prompt session: its agent, transcript and line metrics.
#[derive(Clone, Debug, PartialEq, Eq)]
pub struct PromptRecord {
    pub agent_id: AgentId,
    pub human_author: Option<String>,
    pub messages: Vec<Message>,
    pub total_additions: u32,
    pub total_deletions: u32,
    pub accepted_lines: u32,
    pub overriden_lines: u32,
}

impl View for PromptRecord {
    type V = PromptView;

    open spec fn view(&self) -> PromptView {
        PromptView {
            agent_id: self.agent_id@,
            human_author: opt_view(self.human_author),
            messages: messages_view(self.messages@),
            total_additions: self.total_additions,
            total_deletions: self.total_deletions,
            accepted_lines: self.accepted_lines,
            overriden_lines: self.overriden_lines,
        }
    }
}

impl Duplicate for PromptRecord {
    fn duplicate_value(&self) -> (r: PromptRecord) {
        PromptRecord {
            agent_id: self.agent_id.duplicate(),
            human_author: copy_opt_string(&self.human_author),
            messages: copy_messages(self.messages.as_slice()),
            total_additions: self.total_additions,
            total_deletions: self.total_deletions,
            accepted_lines: self.accepted_lines,
            overriden_lines: self.overriden_lines,
        }
    }
}

/// Metadata section of an authorship log.
pub struct AuthorshipMetadata {
    pub schema_version: String,
    pub base_commit_sha: String,
    pub prompts: StrMap<PromptRecord>,
}

impl AuthorshipMetadata {
    /// Metadata of the current schema version, with no base commit and no prompts.
    pub fn new() -> (m: AuthorshipMetadata)
        ensures
            m.schema_version@ == AUTHORSHIP_LOG_VERSION@,
            m.base_commit_sha@ == Seq::<char>::empty(),
            m.prompts@ == Map::<Seq<char>, PromptView>::empty(),
    {
        AuthorshipMetadata {
            schema_version: String::from_str(AUTHORSHIP_LOG_VERSION),
            base_commit_sha: String::new(),
            prompts: StrMap::new(),
        }
    }
}

/// An attestation entry as plain values.
pub struct AttestationView {
    pub hash: Seq<char>,
    pub line_ranges: Seq<LineRange>,
}

/// Short hash of a prompt session followed by the lines that session wrote.
///
/// The hash always names a prompt in the metadata's prompts.
#[derive(Clone, Debug, PartialEq, Eq)]
pub struct AttestationEntry {
    pub hash: String,
    pub line_ranges: Vec<LineRange>,
}

impl View for AttestationEntry {
    type V = AttestationView;

    open spec fn view(&self) -> AttestationView {
        AttestationView { hash: self.hash@, line_ranges: self.line_ranges@ }
    }
}

/// Copies a list of line ranges.
pub fn copy_ranges(rs: &[LineRange]) -> (r: Vec<LineRange>)
    ensures
        r@ == rs@,
{
    let mut r: Vec<LineRange> = Vec::new();
    let mut i: usize = 0;
    while i < rs.len()
        invariant
            i <= rs.len(),
            r@ == rs@.subrange(0, i as int),
        decreases rs.len() - i,
    {
        r.push(rs[i]);
        i = i + 1;
    }
    assert(rs@.subrange(0, rs@.len() as int) =~= rs@);
    r
}

/// Appends copies of the ranges of `w` to `v`.
pub fn extend_ranges(v: &mut Vec<LineRange>, w: &[LineRange])
    ensures
        final(v)@ == old(v)@ + w@,
{
    let mut i: usize = 0;
    while i < w.len()
        invariant
            i <= w.len(),
            v@ == old(v)@ + w@.subrange(0, i as int),
        decreases w.len() - i,
    {
        v.push(w[i]);
        i = i + 1;
    }
    assert(w@.subrange(0, w@.len() as int) =~= w@);
}

impl AttestationEntry {
    /// An entry for `hash` covering `line_ranges`.
    pub fn new(hash: String, line_ranges: Vec<LineRange>) -> (e: AttestationEntry)
        ensures
            e@ == (AttestationView { hash: hash@, line_ranges: line_ranges@ }),
    {
        AttestationEntry { hash, line_ranges }
    }

    /// A copy of the entry.
    pub fn duplicate(&self) -> (e: AttestationEntry)
        ensures
            e@ == self@,
    {
        AttestationEntry { hash: self.hash.clone(), line_ranges: copy_ranges(self.line_ranges.as_slice()) }
    }

    /// Takes the lines of `to_remove` out of the entry's ranges, splitting ranges as
    /// needed.
    pub fn remove_line_ranges(&mut self, to_remove: &[LineRange])
        ensures
            final(self).hash@ == old(self).hash@,
            final(self).line_ranges@ == remove_all(old(self).line_ranges@, to_remove@),
            forall|x: int| covered(final(self).line_ranges@, x) <==> (covered(old(self).line_ranges@, x) && !covered(
                to_remove@,
                x,
            )),
    {
        let mut current = copy_ranges(self.line_ranges.as_slice());
        let mut k: usize = 0;
        while k < to_remove.len()
            invariant
                k <= to_remove.len(),
                current@ == remove_all(old(self).line_ranges@, to_remove@.subrange(0, k as int)),
            decreases to_remove.len() - k,
        {
            let remove_range = to_remove[k];
            let mut new_ranges: Vec<LineRange> = Vec::new();
            let mut j: usize = 0;
            while j < current.len()
                invariant
                    j <= current.len(),
                    new_ranges@ == crate::line_range::flat_remove(current@.subrange(0, j as int), remove_range),
                decreases current.len() - j,
            {
                let pieces = current[j].remove(&remove_range);
                extend_ranges(&mut new_ranges, pieces.as_slice());
                proof {
                    assert(current@.subrange(0, j + 1).drop_last() =~= current@.subrange(0, j as int));
                }
                j = j + 1;
            }
            proof {
                assert(current@.subrange(0, current@.len() as int) =~= current@);
                assert(to_remove@.subrange(0, k + 1).drop_last() =~= to_remove@.subrange(0, k as int));
            }
            current = new_ranges;
            k = k + 1;
        }
        proof {
            assert(to_remove@.subrange(0, to_remove@.len() as int) =~= to_remove@);
            assert forall|x: int| covered(current@, x) <==> (covered(old(self).line_ranges@, x) && !covered(to_remove@, x)) by {
                lemma_remove_all_covers(old(self).line_ranges@, to_remove@, x);
            }
        }
        self.line_ranges = current;
    }

    /// Moves every range at or after `insertion_point` by `offset` lines, dropping the
    /// ranges that no longer fit (see `LineRange::shift`).
    pub fn shift_line_ranges(&mut self, insertion_point: u32, offset: i32)
        ensures
            final(self).hash@ == old(self).hash@,
            final(self).line_ranges@ == shift_all(old(self).line_ranges@, insertion_point as int, offset as int),
    {
        let mut shifted: Vec<LineRange> = Vec::new();
        let mut j: usize = 0;
        while j < self.line_ranges.len()
            invariant
                j <= self.line_ranges.len(),
                shifted@ == shift_all(self.line_ranges@.subrange(0, j as int), insertion_point as int, offset as int),
            decreases self.line_ranges.len() - j,
        {
            if let Some(r) = self.line_ranges[j].shift(insertion_point, offset as i64) {
                shifted.push(r);
            }
            proof {
                assert(self.line_ranges@.subrange(0, j + 1).drop_last() =~= self.line_ranges@.subrange(0, j as int));
            }
            j = j + 1;
        }
        proof {
            assert(self.line_ranges@.subrange(0, self.line_ranges@.len() as int) =~= self.line_ranges@);
        }
        self.line_ranges = shifted;
    }
}

/// A file attestation as plain values.
pub struct FileView {
    pub file_path: Seq<char>,
    pub entries: Seq<AttestationView>,
}

/// The attestation entries of one file.
#[derive(Clone, Debug, PartialEq, Eq)]
pub struct FileAttestation {
    pub file_path: String,
    pub entries: Vec<AttestationEntry>,
}

/// The views of a list of attestation entries.
pub open spec fn attestations_view(es: Seq<AttestationEntry>) -> Seq<AttestationView> {
    es.map_values(|e: AttestationEntry| e@)
}

impl View for FileAttestation {
    type V = FileView;

    open spec fn view(&self) -> FileView {
        FileView { file_path: self.file_path@, entries: attestations_view(self.entries@) }
    }
}

/// The views of a list of file attestations.
pub open spec fn files_view(fs: Seq<FileAttestation>) -> Seq<FileView> {
    fs.map_values(|f: FileAttestation| f@)
}

impl FileAttestation {
    /// An attestation for `file_path` with no entries.
    pub fn new(file_path: String) -> (f: FileAttestation)
        ensures
            f@ == (FileView { file_path: file_path@, entries: Seq::empty() }),
    {
        let f = FileAttestation { file_path, entries: Vec::new() };
        assert(f@.entries =~= Seq::<AttestationView>::empty());
        f
    }

    /// Appends an entry.
    pub fn add_entry(&mut self, entry: AttestationEntry)
        ensures
            final(self)@ == (FileView { file_path: old(self)@.file_path, entries: old(self)@.entries.push(entry@) }),
    {
        self.entries.push(entry);
        proof {
            assert(self@.entries =~= old(self)@.entries.push(entry@));
        }
    }
}

/// An authorship log as plain values.
pub struct LogView {
    pub attestations: Seq<FileView>,
    pub schema_version: Seq<char>,
    pub base_commit_sha: Seq<char>,
    pub prompts: Map<Seq<char>, PromptView>,
}

/// The complete authorship log of a commit.
pub struct AuthorshipLog {
    pub attestations: Vec<FileAttestation>,
    pub metadata: AuthorshipMetadata,
}

impl View for AuthorshipLog {
    type V = LogView;

    open spec fn view(&self) -> LogView {
        LogView {
            attestations: files_view(self.attestations@),
            schema_version: self.metadata.schema_version@,
            base_commit_sha: self.metadata.base_commit_sha@,
            prompts: self.metadata.prompts@,
        }
    }
}

/// `i` is the first file of `fs` whose path is `f`.
pub open spec fn first_file(fs: Seq<FileView>, f: Seq<char>, i: int) -> bool {
    &&& 0 <= i < fs.len()
    &&& fs[i].file_path == f
    &&& forall|j: int| 0 <= j < i ==> fs[j].file_path != f
}

/// Whether some file of `fs` has path `f`.
pub open spec fn has_file(fs: Seq<FileView>, f: Seq<char>) -> bool {
    exists|i: int| 0 <= i < fs.len() && (#[trigger] fs[i]).file_path == f
}

/// `i` is the first entry of `h` for file `f`.
pub open spec fn first_hunk(h: Seq<(String, Vec<LineRange>)>, f: Seq<char>, i: int) -> bool {
    &&& 0 <= i < h.len()
    &&& h[i].0@ == f
    &&& forall|j: int| 0 <= j < i ==> h[j].0@ != f
}

/// The line ranges that `h` gives for file `f` (its first entry for `f`), if any.
pub open spec fn hunk_ranges(h: Seq<(String, Vec<LineRange>)>, f: Seq<char>) -> Option<Seq<LineRange>> {
    if exists|i: int| first_hunk(h, f, i) {
        Some(h[choose|i: int| first_hunk(h, f, i)].1@)
    } else {
        None
    }
}

/// Whether entry `e` covers a line that `rs` covers.
pub open spec fn overlaps(e: AttestationView, rs: Seq<LineRange>) -> bool {
    exists|x: int| covered(e.line_ranges, x) && covered(rs, x)
}

/// `out` is entry `e` cut down to the lines `rs` covers, in canonical form.
pub open spec fn restricted_entry(e: AttestationView, rs: Seq<LineRange>, out: AttestationView) -> bool {
    &&& out.hash == e.hash
    &&& canonical(out.line_ranges)
    &&& forall|x: int| covered(out.line_ranges, x) <==> (covered(e.line_ranges, x) && covered(rs, x))
}

/// `out` holds, in order, the entries of `es` that overlap `rs`, each cut down to `rs`.
pub open spec fn restricted_entries(es: Seq<AttestationView>, rs: Seq<LineRange>, out: Seq<AttestationView>) -> bool
    decreases es.len(),
{
    if es.len() == 0 {
        out.len() == 0
    } else if overlaps(es.last(), rs) {
        &&& out.len() > 0
        &&& restricted_entry(es.last(), rs, out.last())
        &&& restricted_entries(es.drop_last(), rs, out.drop_last())
    } else {
        restricted_entries(es.drop_last(), rs, out)
    }
}

/// Whether some entry of `es` overlaps `rs`.
pub open spec fn any_overlap(es: Seq<AttestationView>, rs: Seq<LineRange>) -> bool {
    exists|i: int| 0 <= i < es.len() && overlaps(#[trigger] es[i], rs)
}

/// `out` holds, in order, the files of `fs` that `h` names and whose entries overlap the
/// ranges `h` gives them, with their entries cut down to those ranges.
pub open spec fn restricted_files(fs: Seq<FileView>, h: Seq<(String, Vec<LineRange>)>, out: Seq<FileView>) -> bool
    decreases fs.len(),
{
    if fs.len() == 0 {
        out.len() == 0
    } else {
        let f = fs.last();
        match hunk_ranges(h, f.file_path) {
            Some(rs) => if any_overlap(f.entries, rs) {
                &&& out.len() > 0
                &&& out.last().file_path == f.file_path
                &&& restricted_entries(f.entries, rs, out.last().entries)
                &&& restricted_files(fs.drop_last(), h, out.drop_last())
            } else {
                restricted_files(fs.drop_last(), h, out)
            },
            None => restricted_files(fs.drop_last(), h, out),
        }
    }
}

/// Whether some entry of some file of `fs` has hash `k`.
pub open spec fn references(fs: Seq<FileView>, k: Seq<char>) -> bool {
    exists|i: int, j: int| 0 <= i < fs.len() && 0 <= j < fs[i].entries.len() && (#[trigger] fs[i].entries[j]).hash == k
}

/// The prompts of `p` whose hash some entry of `fs` uses.
pub open spec fn used_prompts(p: Map<Seq<char>, PromptView>, fs: Seq<FileView>) -> Map<Seq<char>, PromptView> {
    Map::new(|k: Seq<char>| p.contains_key(k) && references(fs, k), |k: Seq<char>| p[k])
}

/// The index of the first entry of `h` for file `f`.
pub fn find_hunk(h: &[(String, Vec<LineRange>)], f: &str) -> (r: Option<usize>)
    ensures
        r matches Some(i) ==> first_hunk(h@, f@, i as int),
        r is None ==> !(exists|i: int| first_hunk(h@, f@, i)),
        r matches Some(i) ==> hunk_ranges(h@, f@) == Some(h@[i as int].1@),
        r is None ==> hunk_ranges(h@, f@) is None,
{
    let mut i: usize = 0;
    while i < h.len()
        invariant
            i <= h@.len(),
            forall|j: int| 0 <= j < i ==> h@[j].0@ != f@,
        decreases h.len() - i,
    {
        if crate::text::str_eq(h[i].0.as_str(), f) {
            proof {
                assert(first_hunk(h@, f@, i as int));
                let c = choose|c: int| first_hunk(h@, f@, c);
                assert(c == i);
            }
            return Some(i);
        }
        i = i + 1;
    }
    None
}

/// Whether some range of `rs` contains `line`.
pub fn any_contains(rs: &[LineRange], line: u32) -> (r: bool)
    ensures
        r == covered(rs@, line as int),
{
    let mut i: usize = 0;
    while i < rs.len()
        invariant
            i <= rs.len(),
            forall|k: int| 0 <= k < i ==> !(#[trigger] rs@[k]).covers(line as int),
        decreases rs.len() - i,
    {
        if rs[i].contains(line) {
            return true;
        }
        i = i + 1;
    }
    false
}

/// Line `x` is one of the first `n` lines of `r` and `rs` covers it.
pub open spec fn seg_hit(rs: Seq<LineRange>, r: LineRange, n: int, x: int) -> bool {
    r.lo() <= x < r.lo() + n && x <= r.hi() && covered(rs, x)
}

/// The lines of `lrs` that `rs` also covers, as canonical ranges.
pub fn restrict_ranges(lrs: &[LineRange], rs: &[LineRange]) -> (r: Vec<LineRange>)
    ensures
        canonical(r@),
        forall|x: int| covered(r@, x) <==> (covered(lrs@, x) && covered(rs@, x)),
        r@.len() > 0 <==> exists|x: int| covered(lrs@, x) && covered(rs@, x),
{
    let mut lines: Vec<u32> = Vec::new();
    let mut k: usize = 0;
    while k < lrs.len()
        invariant
            k <= lrs.len(),
            forall|x: int| holds_line(lines@, x) <==> (covered(lrs@.subrange(0, k as int), x) && covered(rs@, x)),
        decreases lrs.len() - k,
    {
        let expanded = lrs[k].expand();
        let mut t: usize = 0;
        let ghost before = lines@;
        while t < expanded.len()
            invariant
                k < lrs@.len(),
                t <= expanded.len(),
                expanded@ == crate::line_range::lines_between(lrs@[k as int].lo(), lrs@[k as int].hi()),
                forall|x: int| #[trigger] holds_line(lines@, x) <==> (holds_line(before, x) || seg_hit(rs@, lrs@[k as int], t as int, x)),
            decreases expanded.len() - t,
        {
            let line = expanded[t];
            let ghost prev = lines@;
            assert(line as int == lrs@[k as int].lo() + t);
            let inside = any_contains(rs, line);
            if inside {
                lines.push(line);
            }
            proof {
                let lo = lrs@[k as int].lo();
                let hi = lrs@[k as int].hi();
                assert forall|x: int| #[trigger] holds_line(lines@, x) <==> (holds_line(before, x) || seg_hit(rs@, lrs@[k as int], t + 1, x)) by {
                    assert(holds_line(prev, x) <==> (holds_line(before, x) || seg_hit(rs@, lrs@[k as int], t as int, x)));
                    if inside {
                        lemma_holds_push(prev, line, x);
                    }
                }
            }
            t = t + 1;
        }
        proof {
            let cur = lrs@.subrange(0, k + 1);
            assert(cur =~= lrs@.subrange(0, k as int) + seq![lrs@[k as int]]);
            assert forall|x: int| holds_line(lines@, x) <==> (covered(cur, x) && covered(rs@, x)) by {
                assert(holds_line(before, x) <==> (covered(lrs@.subrange(0, k as int), x) && covered(rs@, x)));
                crate::line_range::lemma_covered_concat(lrs@.subrange(0, k as int), seq![lrs@[k as int]], x);
                if lrs@[k as int].covers(x) {
                    assert(seq![lrs@[k as int]][0].covers(x));
                }
            }
        }
        k = k + 1;
    }
    proof {
        assert(lrs@.subrange(0, lrs@.len() as int) =~= lrs@);
    }
    let sorted = sorted_unique(lines.as_slice());
    let r = LineRange::compress_lines(sorted.as_slice());
    proof {
        if r@.len() > 0 {
            assert(r@[0].covers(r@[0].lo()));
            assert(covered(r@, r@[0].lo()));
        }
        if exists|x: int| covered(lrs@, x) && covered(rs@, x) {
            let x = choose|x: int| covered(lrs@, x) && covered(rs@, x);
            assert(covered(r@, x));
        }
    }
    r
}

/// A restriction keeps an entry exactly when it overlaps.
pub proof fn lemma_restricted_entries_len(es: Seq<AttestationView>, rs: Seq<LineRange>, out: Seq<AttestationView>)
    requires
        restricted_entries(es, rs, out),
    ensures
        out.len() > 0 <==> any_overlap(es, rs),
        out.len() <= es.len(),
    decreases es.len(),
{
    if es.len() > 0 {
        if overlaps(es.last(), rs) {
            lemma_restricted_entries_len(es.drop_last(), rs, out.drop_last());
            assert(overlaps(es[es.len() - 1], rs));
        } else {
            lemma_restricted_entries_len(es.drop_last(), rs, out);
            if any_overlap(es, rs) {
                let i = choose|i: int| 0 <= i < es.len() && overlaps(#[trigger] es[i], rs);
                assert(es.drop_last()[i] == es[i]);
            }
            if any_overlap(es.drop_last(), rs) {
                let i = choose|i: int| 0 <= i < es.drop_last().len() && overlaps(#[trigger] es.drop_last()[i], rs);
                assert(es[i] == es.drop_last()[i]);
            }
        }
    }
}

/// The entries of `es` that overlap `rs`, each cut down to `rs`, in order.
pub fn restrict_entries(es: &[AttestationEntry], rs: &[LineRange]) -> (r: Vec<AttestationEntry>)
    ensures
        restricted_entries(attestations_view(es@), rs@, attestations_view(r@)),
{
    let mut r: Vec<AttestationEntry> = Vec::new();
    let mut j: usize = 0;
    while j < es.len()
        invariant
            j <= es.len(),
            restricted_entries(attestations_view(es@.subrange(0, j as int)), rs@, attestations_view(r@)),
        decreases es.len() - j,
    {
        let ranges = restrict_ranges(es[j].line_ranges.as_slice(), rs);
        let ghost prev = r@;
        if ranges.len() > 0 {
            r.push(AttestationEntry::new(es[j].hash.clone(), ranges));
        }
        proof {
            let cur = attestations_view(es@.subrange(0, j + 1));
            assert(cur.drop_last() =~= attestations_view(es@.subrange(0, j as int)));
            assert(cur.last() == es@[j as int]@);
            if ranges@.len() > 0 {
                assert(attestations_view(r@).drop_last() =~= attestations_view(prev));
            } else {
                assert(attestations_view(r@) =~= attestations_view(prev));
            }
        }
        j = j + 1;
    }
    proof {
        assert(es@.subrange(0, es@.len() as int) =~= es@);
    }
    r
}

/// The files of `fs` that `h` names, cut down to the ranges `h` gives them (see
/// `restricted_files`).
pub fn restrict_files(fs: &[FileAttestation], h: &[(String, Vec<LineRange>)]) -> (r: Vec<FileAttestation>)
    ensures
        restricted_files(files_view(fs@), h@, files_view(r@)),
{
    let mut r: Vec<FileAttestation> = Vec::new();
    let mut i: usize = 0;
    while i < fs.len()
        invariant
            i <= fs.len(),
            restricted_files(files_view(fs@.subrange(0, i as int)), h@, files_view(r@)),
        decreases fs.len() - i,
    {
        let ghost prev = r@;
        let ghost cur = files_view(fs@.subrange(0, i + 1));
        proof {
            assert(cur.drop_last() =~= files_view(fs@.subrange(0, i as int)));
            assert(cur.last() == fs@[i as int]@);
        }
        match find_hunk(h, fs[i].file_path.as_str()) {
            Some(idx) => {
                let entries = restrict_entries(fs[i].entries.as_slice(), h[idx].1.as_slice());
                proof {
                    lemma_restricted_entries_len(attestations_view(fs@[i as int].entries@), h@[idx as int].1@, attestations_view(entries@));
                }
                if entries.len() > 0 {
                    r.push(FileAttestation { file_path: fs[i].file_path.clone(), entries });
                    proof {
                        assert(files_view(r@).drop_last() =~= files_view(prev));
                    }
                } else {
                    proof {
                        assert(files_view(r@) =~= files_view(prev));
                    }
                }
            },
            None => {
                proof {
                    assert(files_view(r@) =~= files_view(prev));
                }
            },
        }
        i = i + 1;
    }
    proof {
        assert(fs@.subrange(0, fs@.len() as int) =~= fs@);
    }
    r
}

impl AuthorshipLog {
    /// A new log holding only the AI-attributed lines that lie in `unstaged_hunks` (file
    /// path to line ranges), with the prompts those lines refer to and the same base commit.
    pub fn extract_unstaged_lines(&self, unstaged_hunks: &[(String, Vec<LineRange>)]) -> (r: AuthorshipLog)
        ensures
            restricted_files(self@.attestations, unstaged_hunks@, r@.attestations),
            r@.prompts == used_prompts(self@.prompts, r@.attestations),
            r@.base_commit_sha == self@.base_commit_sha,
            r@.schema_version == AUTHORSHIP_LOG_VERSION@,
    {
        let mut extracted = AuthorshipLog::new();
        extracted.metadata.base_commit_sha = self.metadata.base_commit_sha.clone();
        extracted.attestations = restrict_files(self.attestations.as_slice(), unstaged_hunks);
        let referenced = referenced_hashes(extracted.attestations.as_slice());
        let mut prompts = self.metadata.prompts.duplicate();
        prompts.retain_keys(referenced.as_slice());
        extracted.metadata.prompts = prompts;
        proof {
            assert forall|k: Seq<char>| extracted@.prompts.contains_key(k) == #[trigger] used_prompts(self@.prompts, extracted@.attestations).contains_key(k) by {
                assert(str_listed(referenced@, k) == references(extracted@.attestations, k));
            }
            assert(extracted@.prompts =~= used_prompts(self@.prompts, extracted@.attestations));
        }
        extracted
    }

    /// Keeps only the AI-attributed lines that lie in `committed_hunks` (file path to line
    /// ranges), dropping emptied entries and files and the prompts no entry refers to any
    /// more.
    pub fn filter_to_committed_lines(&mut self, committed_hunks: &[(String, Vec<LineRange>)])
        ensures
            restricted_files(old(self)@.attestations, committed_hunks@, final(self)@.attestations),
            final(self)@.prompts == used_prompts(old(self)@.prompts, final(self)@.attestations),
            final(self)@.base_commit_sha == old(self)@.base_commit_sha,
            final(self)@.schema_version == old(self)@.schema_version,
    {
        let filtered = restrict_files(self.attestations.as_slice(), committed_hunks);
        self.attestations = filtered;
        self.cleanup_unused_prompts();
    }

    /// An empty log with fresh metadata.
    pub fn new() -> (l: AuthorshipLog)
        ensures
            l@.attestations.len() == 0,
            l@.schema_version == AUTHORSHIP_LOG_VERSION@,
            l@.base_commit_sha == Seq::<char>::empty(),
            l@.prompts == Map::<Seq<char>, PromptView>::empty(),
    {
        AuthorshipLog { attestations: Vec::new(), metadata: AuthorshipMetadata::new() }
    }

    /// The index of the first attestation for `file`, adding an empty one at the end when
    /// there is none.
    pub fn file_index_or_create(&mut self, file: &str) -> (i: usize)
        ensures
            has_file(old(self)@.attestations, file@) ==> {
                &&& first_file(old(self)@.attestations, file@, i as int)
                &&& final(self)@ == old(self)@
            },
            !has_file(old(self)@.attestations, file@) ==> {
                &&& i == old(self)@.attestations.len()
                &&& final(self)@ == (LogView {
                    attestations: old(self)@.attestations.push(FileView { file_path: file@, entries: Seq::empty() }),
                    ..old(self)@
                })
            },
            i < final(self)@.attestations.len(),
            final(self)@.attestations[i as int].file_path == file@,
    {
        let mut i: usize = 0;
        while i < self.attestations.len()
            invariant
                i <= self.attestations@.len(),
                self@ == old(self)@,
                forall|j: int| 0 <= j < i ==> (#[trigger] self@.attestations[j]).file_path != file@,
            decreases self.attestations.len() - i,
        {
            if crate::text::str_eq(self.attestations[i].file_path.as_str(), file) {
                return i;
            }
            i = i + 1;
        }
        let f = FileAttestation::new(String::from_str(file));
        self.attestations.push(f);
        proof {
            assert(self@.attestations =~= old(self)@.attestations.push(FileView { file_path: file@, entries: Seq::empty() }));
        }
        i
    }

    /// Removes the prompts that no attestation entry refers to.
    pub fn cleanup_unused_prompts(&mut self)
        ensures
            final(self)@ == (LogView { prompts: used_prompts(old(self)@.prompts, old(self)@.attestations), ..old(self)@ }),
    {
        let referenced = referenced_hashes(self.attestations.as_slice());
        self.metadata.prompts.retain_keys(referenced.as_slice());
        proof {
            assert forall|k: Seq<char>| self@.prompts.contains_key(k) == #[trigger] used_prompts(old(self)@.prompts, old(self)@.attestations).contains_key(k) by {
                assert(str_listed(referenced@, k) == references(old(self)@.attestations, k));
            }
            assert(self@.prompts =~= used_prompts(old(self)@.prompts, old(self)@.attestations));
        }
    }
}

/// Whether some string of `r` equals `k`.
pub open spec fn str_listed(r: Seq<String>, k: Seq<char>) -> bool {
    exists|t: int| 0 <= t < r.len() && (#[trigger] r[t])@ == k
}

/// Whether one of the first `n` entries of `es` has hash `k`.
pub open spec fn hash_listed(es: Seq<AttestationEntry>, n: int, k: Seq<char>) -> bool {
    exists|q: int| 0 <= q < n && (#[trigger] es[q]).hash@ == k
}

/// The hashes of all entries of all files of `fs`.
pub fn referenced_hashes(fs: &[FileAttestation]) -> (r: Vec<String>)
    ensures
        forall|k: Seq<char>| #[trigger] str_listed(r@, k) <==> references(files_view(fs@), k),
{
    let mut r: Vec<String> = Vec::new();
    let mut i: usize = 0;
    while i < fs.len()
        invariant
            i <= fs.len(),
            forall|k: Seq<char>| #[trigger] str_listed(r@, k) <==> references(files_view(fs@.subrange(0, i as int)), k),
        decreases fs.len() - i,
    {
        let mut j: usize = 0;
        let ghost before = r@;
        while j < fs[i].entries.len()
            invariant
                i < fs.len(),
                j <= fs@[i as int].entries@.len(),
                forall|k: Seq<char>| #[trigger] str_listed(r@, k) <==> (str_listed(before, k) || hash_listed(fs@[i as int].entries@, j as int, k)),
            decreases fs@[i as int].entries@.len() - j,
        {
            let ghost prev = r@;
            r.push(fs[i].entries[j].hash.clone());
            proof {
                assert forall|k: Seq<char>| #[trigger] str_listed(r@, k) <==> (str_listed(before, k) || hash_listed(fs@[i as int].entries@, j + 1, k)) by {
                    let es = fs@[i as int].entries@;
                    if str_listed(r@, k) {
                        let t = choose|t: int| 0 <= t < r@.len() && (#[trigger] r@[t])@ == k;
                        if t < prev.len() {
                            assert(prev[t]@ == k);
                            assert(str_listed(prev, k));
                        } else {
                            assert(es[j as int].hash@ == k);
                        }
                    }
                    if str_listed(prev, k) {
                        let t = choose|t: int| 0 <= t < prev.len() && (#[trigger] prev[t])@ == k;
                        assert(r@[t]@ == k);
                    }
                    if hash_listed(es, j + 1, k) {
                        let q = choose|q: int| 0 <= q < j + 1 && (#[trigger] es[q]).hash@ == k;
                        if q == j {
                            assert(r@[prev.len() as int]@ == k);
                        } else {
                            assert(hash_listed(es, j as int, k));
                        }
                    }
                    if hash_listed(es, j as int, k) {
                        let q = choose|q: int| 0 <= q < j && (#[trigger] es[q]).hash@ == k;
                        assert(hash_listed(es, j + 1, k));
                    }
                }
            }
            j = j + 1;
        }
        proof {
            let es = fs@[i as int].entries@;
            let fv = files_view(fs@.subrange(0, i + 1));
            let fp = files_view(fs@.subrange(0, i as int));
            assert forall|k: Seq<char>| references(fv, k) <==> (references(fp, k) || hash_listed(es, es.len() as int, k)) by {
                if references(fv, k) {
                    let (a, b) = choose|a: int, b: int| 0 <= a < fv.len() && 0 <= b < fv[a].entries.len() && (#[trigger] fv[a].entries[b]).hash == k;
                    if a < i {
                        assert(fp[a] == fv[a]);
                    } else {
                        assert(fv[a].entries[b] == es[b]@);
                    }
                }
                if references(fp, k) {
                    let (a, b) = choose|a: int, b: int| 0 <= a < fp.len() && 0 <= b < fp[a].entries.len() && (#[trigger] fp[a].entries[b]).hash == k;
                    assert(fv[a] == fp[a]);
                }
                if hash_listed(es, es.len() as int, k) {
                    let q = choose|q: int| 0 <= q < es.len() && (#[trigger] es[q]).hash@ == k;
                    assert(fv[i as int].entries[q] == es[q]@);
                }
            }
        }
        i = i + 1;
    }
    proof {
        assert(fs@.subrange(0, fs@.len() as int) =~= fs@);
    }
    r
}

} // verus!
