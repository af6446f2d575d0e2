//! Working log entries: which lines each checkpoint added or deleted.

use vstd::prelude::*;
use vstd::string::*;

use crate::line_range::{holds_line, lemma_holds_push, lemma_increasing_unique, sorted_unique, strictly_increasing};
use crate::text::{decimal, extend_chars, from_chars, u64_to_chars};
use crate::transcript::{AiTranscript, MessageView};

verus! {

/// A single line, or an inclusive range of lines, of a working log entry.
#[derive(Clone, Copy, Debug, PartialEq, Eq, Structural)]
pub enum Line {
    Single(u32),
    Range(u32, u32),
}

impl Line {
    /// First line.
    pub open spec fn lo(self) -> int {
        match self {
            Line::Single(l) => l as int,
            Line::Range(s, _) => s as int,
        }
    }

    /// Last line.
    pub open spec fn hi(self) -> int {
        match self {
            Line::Single(l) => l as int,
            Line::Range(_, e) => e as int,
        }
    }

    /// Whether line `x` lies in the line or range.
    pub open spec fn covers(self, x: int) -> bool {
        self.lo() <= x <= self.hi()
    }

    /// How the line or range is displayed: `5`, or `[10, 15]`.
    pub open spec fn display_spec(self) -> Seq<char> {
        match self {
            Line::Single(l) => decimal(l as nat),
            Line::Range(s, e) => seq!['['] + decimal(s as nat) + seq![',', ' '] + decimal(e as nat)
                + seq![']'],
        }
    }

    /// First line.
    pub fn start(&self) -> (r: u32)
        ensures
            r == self.lo(),
    {
        match self {
            Line::Single(line) => *line,
            Line::Range(start, _) => *start,
        }
    }

    /// Last line.
    pub fn end(&self) -> (r: u32)
        ensures
            r == self.hi(),
    {
        match self {
            Line::Single(line) => *line,
            Line::Range(_, end) => *end,
        }
    }

    /// Whether this line or range contains `line_number`.
    pub fn contains(&self, line_number: u32) -> (r: bool)
        ensures
            r == self.covers(line_number as int),
    {
        match self {
            Line::Single(line) => *line == line_number,
            Line::Range(start, end) => line_number >= *start && line_number <= *end,
        }
    }

    /// The display text: `5` for a single line, `[10, 15]` for a range.
    pub fn display_text(&self) -> (s: String)
        ensures
            s@ == self.display_spec(),
    {
        match self {
            Line::Single(line) => {
                let d = u64_to_chars(*line as u64);
                from_chars(d.as_slice())
            },
            Line::Range(start, end) => {
                let mut v: Vec<char> = Vec::new();
                v.push('[');
                let a = u64_to_chars(*start as u64);
                extend_chars(&mut v, a.as_slice());
                v.push(',');
                v.push(' ');
                let b = u64_to_chars(*end as u64);
                extend_chars(&mut v, b.as_slice());
                v.push(']');
                proof {
                    assert(v@ =~= self.display_spec());
                }
                from_chars(v.as_slice())
            },
        }
    }
}

/// Whether some element of `ls` covers line `x`.
pub open spec fn lines_cover(ls: Seq<Line>, x: int) -> bool {
    exists|i: int| 0 <= i < ls.len() && #[trigger] ls[i].covers(x)
}

/// Number of lines a working log line or range stands for.
pub open spec fn line_count(l: Line) -> int {
    match l {
        Line::Single(_) => 1,
        Line::Range(s, e) => e - s + 1,
    }
}

/// What a working log entry records, as plain values.
pub struct EntryView {
    pub file: Seq<char>,
    pub blob_sha: Seq<char>,
    pub added_lines: Seq<Line>,
    pub deleted_lines: Seq<Line>,
}

/// The lines one working log entry added and deleted in one file.
#[derive(Clone, Debug)]
pub struct WorkingLogEntry {
    /// The file path relative to the repository root.
    pub file: String,
    /// SHA256 hash of the file content at this checkpoint.
    pub blob_sha: String,
    /// Lines or line ranges that were added.
    pub added_lines: Vec<Line>,
    /// Lines or line ranges that were deleted.
    pub deleted_lines: Vec<Line>,
}

impl View for WorkingLogEntry {
    type V = EntryView;

    open spec fn view(&self) -> EntryView {
        EntryView {
            file: self.file@,
            blob_sha: self.blob_sha@,
            added_lines: self.added_lines@,
            deleted_lines: self.deleted_lines@,
        }
    }
}

/// The views of a list of working log entries.
pub open spec fn entries_view(es: Seq<WorkingLogEntry>) -> Seq<EntryView> {
    es.map_values(|e: WorkingLogEntry| e@)
}

impl WorkingLogEntry {
    /// A new working log entry.
    pub fn new(file: String, blob_sha: String, added_lines: Vec<Line>, deleted_lines: Vec<Line>) -> (e: WorkingLogEntry)
        ensures
            e@ == (EntryView {
                file: file@,
                blob_sha: blob_sha@,
                added_lines: added_lines@,
                deleted_lines: deleted_lines@,
            }),
    {
        WorkingLogEntry { file, blob_sha, added_lines, deleted_lines }
    }

    /// Adds a single line to the added lines.
    pub fn add_added_line(&mut self, line: u32)
        ensures
            final(self).added_lines@ == old(self).added_lines@.push(Line::Single(line)),
            final(self).deleted_lines@ == old(self).deleted_lines@,
            final(self).file@ == old(self).file@,
            final(self).blob_sha@ == old(self).blob_sha@,
    {
        self.added_lines.push(Line::Single(line));
    }

    /// Adds a line range to the added lines.
    pub fn add_added_range(&mut self, start: u32, end: u32)
        ensures
            final(self).added_lines@ == old(self).added_lines@.push(Line::Range(start, end)),
            final(self).deleted_lines@ == old(self).deleted_lines@,
            final(self).file@ == old(self).file@,
            final(self).blob_sha@ == old(self).blob_sha@,
    {
        self.added_lines.push(Line::Range(start, end));
    }

    /// Adds a single line to the deleted lines.
    pub fn add_deleted_line(&mut self, line: u32)
        ensures
            final(self).deleted_lines@ == old(self).deleted_lines@.push(Line::Single(line)),
            final(self).added_lines@ == old(self).added_lines@,
            final(self).file@ == old(self).file@,
            final(self).blob_sha@ == old(self).blob_sha@,
    {
        self.deleted_lines.push(Line::Single(line));
    }

    /// Adds a line range to the deleted lines.
    pub fn add_deleted_range(&mut self, start: u32, end: u32)
        ensures
            final(self).deleted_lines@ == old(self).deleted_lines@.push(Line::Range(start, end)),
            final(self).added_lines@ == old(self).added_lines@,
            final(self).file@ == old(self).file@,
            final(self).blob_sha@ == old(self).blob_sha@,
    {
        self.deleted_lines.push(Line::Range(start, end));
    }

    /// Whether `line_number` is among the added or deleted lines.
    pub fn covers_line(&self, line_number: u32) -> (r: bool)
        ensures
            r == (lines_cover(self.added_lines@, line_number as int) || lines_cover(
                self.deleted_lines@,
                line_number as int,
            )),
    {
        any_covers(self.added_lines.as_slice(), line_number) || any_covers(
            self.deleted_lines.as_slice(),
            line_number,
        )
    }

    /// The added lines followed by the deleted lines.
    pub fn all_lines(&self) -> (r: Vec<Line>)
        ensures
            r@ == self.added_lines@ + self.deleted_lines@,
    {
        let mut all: Vec<Line> = Vec::new();
        extend_lines(&mut all, self.added_lines.as_slice());
        extend_lines(&mut all, self.deleted_lines.as_slice());
        all
    }

    /// A copy of the entry.
    pub fn duplicate(&self) -> (r: WorkingLogEntry)
        ensures
            r@ == self@,
    {
        let mut added: Vec<Line> = Vec::new();
        extend_lines(&mut added, self.added_lines.as_slice());
        let mut deleted: Vec<Line> = Vec::new();
        extend_lines(&mut deleted, self.deleted_lines.as_slice());
        proof {
            assert(added@ =~= self.added_lines@);
            assert(deleted@ =~= self.deleted_lines@);
        }
        WorkingLogEntry {
            file: self.file.clone(),
            blob_sha: self.blob_sha.clone(),
            added_lines: added,
            deleted_lines: deleted,
        }
    }
}

/// Whether some element of `ls` contains `line`.
pub fn any_covers(ls: &[Line], line: u32) -> (r: bool)
    ensures
        r == lines_cover(ls@, line as int),
{
    let mut i: usize = 0;
    while i < ls.len()
        invariant
            i <= ls.len(),
            forall|k: int| 0 <= k < i ==> !(#[trigger] ls@[k]).covers(line as int),
        decreases ls.len() - i,
    {
        if ls[i].contains(line) {
            return true;
        }
        i = i + 1;
    }
    false
}

/// The lines that `ls` covers, in increasing order, each once.
pub open spec fn sorted_cover(ls: Seq<Line>) -> Seq<u32> {
    choose|s: Seq<u32>| strictly_increasing(s) && forall|x: int| holds_line(s, x) <==> lines_cover(ls, x)
}

/// The lines that `ls` covers, sorted, each once.
pub fn covered_lines(ls: &[Line]) -> (r: Vec<u32>)
    ensures
        r@ == sorted_cover(ls@),
        strictly_increasing(r@),
        forall|x: int| holds_line(r@, x) <==> lines_cover(ls@, x),
{
    let mut all: Vec<u32> = Vec::new();
    let mut k: usize = 0;
    while k < ls.len()
        invariant
            k <= ls.len(),
            forall|x: int| holds_line(all@, x) <==> lines_cover(ls@.subrange(0, k as int), x),
        decreases ls.len() - k,
    {
        let lo = ls[k].start();
        let hi = ls[k].end();
        let ghost before = all@;
        let mut l: u64 = lo as u64;
        while l <= hi as u64
            invariant
                k < ls.len(),
                lo == ls@[k as int].lo(),
                hi == ls@[k as int].hi(),
                lo <= l,
                l <= hi as u64 + 1 || l == lo,
                forall|x: int| #[trigger] holds_line(all@, x) <==> (holds_line(before, x) || (lo <= x && x < l)),
            decreases hi as u64 + 1 - l,
        {
            let ghost prev = all@;
            let v: u32 = l as u32;
            assert(v == l);
            all.push(v);
            proof {
                assert forall|x: int| #[trigger] holds_line(all@, x) <==> (holds_line(before, x) || (lo <= x && x < l + 1)) by {
                    lemma_holds_push(prev, v, x);
                    assert(holds_line(prev, x) <==> (holds_line(before, x) || (lo <= x && x < l)));
                }
            }
            l = l + 1;
        }
        assert forall|x: int| holds_line(all@, x) <==> (holds_line(before, x) || ls@[k as int].covers(x)) by {
            if l == lo {
                assert(!(lo <= x < l));
            }
        }
        proof {
            let cur = ls@.subrange(0, k + 1);
            assert forall|x: int| holds_line(all@, x) <==> lines_cover(cur, x) by {
                let p = ls@.subrange(0, k as int);
                if lines_cover(cur, x) {
                    let t = choose|t: int| 0 <= t < cur.len() && #[trigger] cur[t].covers(x);
                    if t < k {
                        assert(p[t].covers(x));
                    }
                }
                if lines_cover(p, x) {
                    let t = choose|t: int| 0 <= t < p.len() && #[trigger] p[t].covers(x);
                    assert(cur[t].covers(x));
                }
                if ls@[k as int].covers(x) {
                    assert(cur[k as int].covers(x));
                }
            }
        }
        k = k + 1;
    }
    proof {
        assert(ls@.subrange(0, ls@.len() as int) =~= ls@);
    }
    let r = sorted_unique(all.as_slice());
    proof {
        assert(strictly_increasing(r@) && forall|x: int| holds_line(r@, x) <==> lines_cover(ls@, x));
        let c = sorted_cover(ls@);
        lemma_increasing_unique(r@, c);
    }
    r
}

/// Appends the elements of `w` to `v`.
pub fn extend_lines(v: &mut Vec<Line>, w: &[Line])
    ensures
        final(v)@ == old(v)@ + w@,
{
    let mut i: usize = 0;
    while i < w.len()
        invariant
            i <= w.len(),
            v@ == old(v)@ + w@.subrange(0, i as int),
        decreases w.len() - i,
    {
        v.push(w[i]);
        i = i + 1;
    }
    assert(w@.subrange(0, w@.len() as int) =~= w@);
}

/// Copies a list of working log entries.
pub fn copy_entries(es: &[WorkingLogEntry]) -> (r: Vec<WorkingLogEntry>)
    ensures
        entries_view(r@) == entries_view(es@),
{
    let mut r: Vec<WorkingLogEntry> = Vec::new();
    let mut i: usize = 0;
    while i < es.len()
        invariant
            i <= es.len(),
            r@.len() == i,
            forall|k: int| 0 <= k < i ==> (#[trigger] r@[k])@ == es@[k]@,
        decreases es.len() - i,
    {
        r.push(es[i].duplicate());
        i = i + 1;
    }
    assert(entries_view(r@) =~= entries_view(es@));
    r
}

/// An agent id as plain values.
pub struct AgentView {
    pub tool: Seq<char>,
    pub id: Seq<char>,
    pub model: Seq<char>,
}

/// The AI agent that produced a checkpoint.
#[derive(Clone, Debug, PartialEq, Eq)]
pub struct AgentId {
    /// Tool name, such as "cursor" or "windsurf".
    pub tool: String,
    /// Session id in the tool's own domain.
    pub id: String,
    pub model: String,
}

impl View for AgentId {
    type V = AgentView;

    open spec fn view(&self) -> AgentView {
        AgentView { tool: self.tool@, id: self.id@, model: self.model@ }
    }
}

impl AgentId {
    /// A copy of the agent id.
    pub fn duplicate(&self) -> (r: AgentId)
        ensures
            r@ == self@,
    {
        AgentId { tool: self.tool.clone(), id: self.id.clone(), model: self.model.clone() }
    }
}

/// What a checkpoint records, as plain values.
pub struct CheckpointView {
    pub diff: Seq<char>,
    pub author: Seq<char>,
    pub entries: Seq<EntryView>,
    pub timestamp: u64,
    pub transcript: Option<Seq<MessageView>>,
    pub agent_id: Option<AgentView>,
    pub allow_reset_to_checkpoint: bool,
    pub pass_through_attribution_checkpoint: bool,
}

/// One recorded change to the working tree, by a human or an AI agent.
#[derive(Clone, Debug)]
pub struct Checkpoint {
    pub diff: String,
    pub author: String,
    pub entries: Vec<WorkingLogEntry>,
    pub timestamp: u64,
    pub transcript: Option<AiTranscript>,
    pub agent_id: Option<AgentId>,
    pub allow_reset_to_checkpoint: bool,
    pub pass_through_attribution_checkpoint: bool,
}

/// Seconds since the Unix epoch by the system clock (zero before the epoch).
#[verifier::external_body]
fn now_unix_secs() -> u64 {
    std::time::SystemTime::now().duration_since(std::time::UNIX_EPOCH).unwrap_or_default().as_secs()
}

impl View for Checkpoint {
    type V = CheckpointView;

    open spec fn view(&self) -> CheckpointView {
        CheckpointView {
            diff: self.diff@,
            author: self.author@,
            entries: entries_view(self.entries@),
            timestamp: self.timestamp,
            transcript: match self.transcript {
                Some(t) => Some(t@),
                None => None,
            },
            agent_id: match self.agent_id {
                Some(a) => Some(a@),
                None => None,
            },
            allow_reset_to_checkpoint: self.allow_reset_to_checkpoint,
            pass_through_attribution_checkpoint: self.pass_through_attribution_checkpoint,
        }
    }
}

/// The views of a list of checkpoints.
pub open spec fn checkpoints_view(cs: Seq<Checkpoint>) -> Seq<CheckpointView> {
    cs.map_values(|c: Checkpoint| c@)
}

impl Checkpoint {
    /// A checkpoint that attributes its added lines to its author, stamped with the current
    /// time.
    pub fn new(diff: String, author: String, entries: Vec<WorkingLogEntry>) -> (c: Checkpoint)
        ensures
            c@.diff == diff@,
            c@.author == author@,
            c@.entries == entries_view(entries@),
            c.transcript is None,
            c.agent_id is None,
            !c.allow_reset_to_checkpoint,
            !c.pass_through_attribution_checkpoint,
    {
        let timestamp = now_unix_secs();
        Checkpoint::new_at(diff, author, entries, timestamp)
    }

    /// A passthrough checkpoint, stamped with the current time: it moves lines but
    /// attributes none of them.
    pub fn new_passthrough(diff: String, author: String, entries: Vec<WorkingLogEntry>) -> (c: Checkpoint)
        ensures
            c@.diff == diff@,
            c@.author == author@,
            c@.entries == entries_view(entries@),
            c.transcript is None,
            c.agent_id is None,
            !c.allow_reset_to_checkpoint,
            c.pass_through_attribution_checkpoint,
    {
        let timestamp = now_unix_secs();
        Checkpoint::new_passthrough_at(diff, author, entries, timestamp)
    }

    /// A checkpoint with the given timestamp.
    pub fn new_at(diff: String, author: String, entries: Vec<WorkingLogEntry>, timestamp: u64) -> (c: Checkpoint)
        ensures
            c@ == (CheckpointView {
                diff: diff@,
                author: author@,
                entries: entries_view(entries@),
                timestamp,
                transcript: None,
                agent_id: None,
                allow_reset_to_checkpoint: false,
                pass_through_attribution_checkpoint: false,
            }),
    {
        Checkpoint {
            diff,
            author,
            entries,
            timestamp,
            transcript: None,
            agent_id: None,
            allow_reset_to_checkpoint: false,
            pass_through_attribution_checkpoint: false,
        }
    }

    /// A passthrough checkpoint with the given timestamp.
    pub fn new_passthrough_at(diff: String, author: String, entries: Vec<WorkingLogEntry>, timestamp: u64) -> (c: Checkpoint)
        ensures
            c@ == (CheckpointView {
                diff: diff@,
                author: author@,
                entries: entries_view(entries@),
                timestamp,
                transcript: None,
                agent_id: None,
                allow_reset_to_checkpoint: false,
                pass_through_attribution_checkpoint: true,
            }),
    {
        Checkpoint {
            diff,
            author,
            entries,
            timestamp,
            transcript: None,
            agent_id: None,
            allow_reset_to_checkpoint: false,
            pass_through_attribution_checkpoint: true,
        }
    }

    /// A copy of the checkpoint.
    pub fn duplicate(&self) -> (r: Checkpoint)
        ensures
            r@ == self@,
    {
        let entries = copy_entries(self.entries.as_slice());
        Checkpoint {
            diff: self.diff.clone(),
            author: self.author.clone(),
            entries,
            timestamp: self.timestamp,
            transcript: match &self.transcript {
                Some(t) => Some(t.duplicate()),
                None => None,
            },
            agent_id: match &self.agent_id {
                Some(a) => Some(a.duplicate()),
                None => None,
            },
            allow_reset_to_checkpoint: self.allow_reset_to_checkpoint,
            pass_through_attribution_checkpoint: self.pass_through_attribution_checkpoint,
        }
    }
}

/// Whether a checkpoint is a passthrough one when the stored record does not say.
pub fn default_pass_through_attribution_checkpoint() -> (r: bool)
    ensures
        !r,
{
    false
}

} // verus!
