//! Replaying working log checkpoints onto an authorship log.

use vstd::prelude::*;
use vstd::string::*;

use sha2::{Digest, Sha256};

use crate::authorship_log::{
    AttestationEntry, AttestationView, AuthorshipLog, FileView, LogView, PromptRecord, PromptView,
    attestations_view, files_view, first_file, has_file,
};
use crate::line_range::{LineRange, compress_spec, covered, remove_all, shift_all};
use crate::str_map::{Duplicate, StrMap};
use crate::text::{extend_chars, from_chars, to_chars};
use crate::transcript::copy_messages;
use crate::working_log::{Checkpoint, CheckpointView, EntryView, Line, WorkingLogEntry, covered_lines, sorted_cover};

verus! {

/// `x` reduced to 32 bits, as `u32` arithmetic that wraps around computes it.
pub open spec fn wrap32(x: int) -> u32 {
    (x % 0x1_0000_0000) as u32
}

/// Number of lines a working log line stands for: one for a single line, `end - start + 1`
/// in wrapping `u32` arithmetic for a range.
pub open spec fn line_count32(l: Line) -> u32 {
    match l {
        Line::Single(_) => 1,
        Line::Range(s, e) => wrap32(e - s + 1),
    }
}

/// Number of lines a line range stands for, in the same arithmetic.
pub open spec fn range_count32(r: LineRange) -> u32 {
    match r {
        LineRange::Single(_) => 1,
        LineRange::Range(s, e) => wrap32(e - s + 1),
    }
}

/// The wrapping sum of `line_count32` over `ls`.
pub open spec fn lines_total32(ls: Seq<Line>) -> u32
    decreases ls.len(),
{
    if ls.len() == 0 {
        0
    } else {
        wrap32(lines_total32(ls.drop_last()) + line_count32(ls.last()))
    }
}

/// The wrapping sum of `range_count32` over `rs`.
pub open spec fn ranges_total32(rs: Seq<LineRange>) -> u32
    decreases rs.len(),
{
    if rs.len() == 0 {
        0
    } else {
        wrap32(ranges_total32(rs.drop_last()) + range_count32(rs.last()))
    }
}

/// Number of lines a working log line stands for.
pub fn count_working_log_lines(line: &Line) -> (r: u32)
    ensures
        r == line_count32(*line),
{
    match line {
        Line::Single(_) => 1,
        Line::Range(start, end) => end.wrapping_sub(*start).wrapping_add(1),
    }
}

/// Number of lines a line range stands for.
pub fn count_line_range(range: &LineRange) -> (r: u32)
    ensures
        r == range_count32(*range),
{
    match range {
        LineRange::Single(_) => 1,
        LineRange::Range(start, end) => end.wrapping_sub(*start).wrapping_add(1),
    }
}

/// The wrapping sum of the line counts of `ls`.
pub fn total_lines(ls: &[Line]) -> (r: u32)
    ensures
        r == lines_total32(ls@),
{
    let mut total: u32 = 0;
    let mut i: usize = 0;
    while i < ls.len()
        invariant
            i <= ls.len(),
            total == lines_total32(ls@.subrange(0, i as int)),
        decreases ls.len() - i,
    {
        let c = count_working_log_lines(&ls[i]);
        proof {
            let cur = ls@.subrange(0, i + 1);
            assert(cur.drop_last() =~= ls@.subrange(0, i as int));
        }
        total = total.wrapping_add(c);
        i = i + 1;
    }
    proof {
        assert(ls@.subrange(0, ls@.len() as int) =~= ls@);
    }
    total
}

/// The wrapping sum of the line counts of `rs`.
pub fn total_ranges(rs: &[LineRange]) -> (r: u32)
    ensures
        r == ranges_total32(rs@),
{
    let mut total: u32 = 0;
    let mut i: usize = 0;
    while i < rs.len()
        invariant
            i <= rs.len(),
            total == ranges_total32(rs@.subrange(0, i as int)),
        decreases rs.len() - i,
    {
        let c = count_line_range(&rs[i]);
        proof {
            let cur = rs@.subrange(0, i + 1);
            assert(cur.drop_last() =~= rs@.subrange(0, i as int));
        }
        total = total.wrapping_add(c);
        i = i + 1;
    }
    proof {
        assert(rs@.subrange(0, rs@.len() as int) =~= rs@);
    }
    total
}

/// The lowercase hexadecimal SHA-256 digest of the UTF-8 bytes of a string.
pub uninterp spec fn sha256_hex(data: Seq<char>) -> Seq<char>;

/// Calls `Sha256::new`, `update` and `finalize` of the sha2 crate on the UTF-8 bytes of
/// `data` and formats the 32-byte digest with `{:x}`. The contract names the result and
/// states its form: generic-array's `LowerHex` writes two lowercase hex digits per byte.
#[verifier::external_body]
pub(crate) fn sha256_hex_digest(data: &str) -> (r: String)
    ensures
        r@ == sha256_hex(data@),
        r@.len() == 64,
        forall|i: int| 0 <= i < r@.len() ==> is_lower_hex(#[trigger] r@[i]),
{
    let mut hasher = Sha256::new();
    hasher.update(data.as_bytes());
    let digest = hasher.finalize();
    format!("{:x}", digest)
}

/// Whether a character is a lowercase hexadecimal digit.
pub open spec fn is_lower_hex(c: char) -> bool {
    ('0' <= c && c <= '9') || ('a' <= c && c <= 'f')
}

/// The short hash of an agent session: the first seven hex digits of the SHA-256 digest
/// of `tool:agent_id`.
pub open spec fn short_hash(agent_id: Seq<char>, tool: Seq<char>) -> Seq<char> {
    sha256_hex(tool + seq![':'] + agent_id).subrange(0, 7)
}

/// The short hash (seven characters) that identifies an agent session.
pub fn generate_short_hash(agent_id: &str, tool: &str) -> (r: String)
    ensures
        r@ == short_hash(agent_id@, tool@),
        r@.len() == 7,
        forall|i: int| 0 <= i < 7 ==> is_lower_hex(#[trigger] r@[i]),
{
    let mut combined = to_chars(tool);
    combined.push(':');
    let id = to_chars(agent_id);
    extend_chars(&mut combined, id.as_slice());
    let joined = from_chars(combined.as_slice());
    proof {
        assert(joined@ =~= tool@ + seq![':'] + agent_id@);
    }
    let hex = sha256_hex_digest(joined.as_str());
    let digits = to_chars(hex.as_str());
    let mut short: Vec<char> = Vec::new();
    let mut i: usize = 0;
    while i < 7
        invariant
            i <= 7,
            digits@.len() == 64,
            forall|k: int| 0 <= k < 64 ==> is_lower_hex(#[trigger] digits@[k]),
            short@ == digits@.subrange(0, i as int),
        decreases 7 - i,
    {
        short.push(digits[i]);
        i = i + 1;
    }
    from_chars(short.as_slice())
}

/// The line just after `d`, as `d + 1` in wrapping `u32` arithmetic.
pub open spec fn next_line(d: u32) -> int {
    if d == u32::MAX {
        0
    } else {
        d + 1
    }
}

/// The ranges `rs` after the deletion of the increasing lines `ds`: one shift up by a line
/// after each deleted line, from the last deleted line back to the first.
pub open spec fn shift_down_each(rs: Seq<LineRange>, ds: Seq<u32>) -> Seq<LineRange>
    decreases ds.len(),
{
    if ds.len() == 0 {
        rs
    } else {
        shift_down_each(shift_all(rs, next_line(ds.last()), -1), ds.drop_last())
    }
}

/// Entry `a` after the increasing lines `ds` were deleted from its file: the deleted lines
/// are taken out of its ranges, then the later lines move up.
pub open spec fn delete_lines(a: AttestationView, ds: Seq<u32>) -> AttestationView {
    AttestationView { hash: a.hash, line_ranges: shift_down_each(remove_all(a.line_ranges, compress_spec(ds)), ds) }
}

/// Entry `a` after `n` lines were inserted at line `ip` of its file.
pub open spec fn insert_lines(a: AttestationView, ip: int, n: int) -> AttestationView {
    AttestationView { hash: a.hash, line_ranges: shift_all(a.line_ranges, ip, n) }
}

/// Copies of `es` with the lines of `rm` taken out of each entry.
fn remove_from_entries(es: &[AttestationEntry], rm: &[LineRange]) -> (r: Vec<AttestationEntry>)
    ensures
        r@.len() == es@.len(),
        forall|j: int| 0 <= j < es@.len() ==> (#[trigger] r@[j])@ == (AttestationView {
            hash: es@[j]@.hash,
            line_ranges: remove_all(es@[j]@.line_ranges, rm@),
        }),
{
    let mut r: Vec<AttestationEntry> = Vec::new();
    let mut j: usize = 0;
    while j < es.len()
        invariant
            j <= es.len(),
            r@.len() == j,
            forall|t: int| 0 <= t < j ==> (#[trigger] r@[t])@ == (AttestationView {
                hash: es@[t]@.hash,
                line_ranges: remove_all(es@[t]@.line_ranges, rm@),
            }),
        decreases es.len() - j,
    {
        let mut e = es[j].duplicate();
        e.remove_line_ranges(rm);
        r.push(e);
        j = j + 1;
    }
    r
}

/// Copies of `es` with each entry shifted by `offset` lines from `insertion_point` on.
fn shift_entries(es: &[AttestationEntry], insertion_point: u32, offset: i32) -> (r: Vec<AttestationEntry>)
    ensures
        r@.len() == es@.len(),
        forall|j: int| 0 <= j < es@.len() ==> (#[trigger] r@[j])@ == insert_lines(es@[j]@, insertion_point as int, offset as int),
{
    let mut r: Vec<AttestationEntry> = Vec::new();
    let mut j: usize = 0;
    while j < es.len()
        invariant
            j <= es.len(),
            r@.len() == j,
            forall|t: int| 0 <= t < j ==> (#[trigger] r@[t])@ == insert_lines(es@[t]@, insertion_point as int, offset as int),
        decreases es.len() - j,
    {
        let mut e = es[j].duplicate();
        e.shift_line_ranges(insertion_point, offset);
        r.push(e);
        j = j + 1;
    }
    r
}

/// The entries of a file after the increasing lines `ds` were deleted from it.
fn delete_from_entries(es: &[AttestationEntry], ds: &[u32]) -> (r: Vec<AttestationEntry>)
    requires
        crate::line_range::strictly_increasing(ds@),
    ensures
        attestations_view(r@) == attestations_view(es@).map_values(|a: AttestationView| delete_lines(a, ds@)),
{
    let deleted_ranges = LineRange::compress_lines(ds);
    let removed = remove_from_entries(es, deleted_ranges.as_slice());
    let mut cur = removed;
    let mut m: usize = ds.len();
    proof {
        assert(ds@.subrange(0, ds@.len() as int) =~= ds@);
    }
    while m > 0
        invariant
            m <= ds@.len(),
            cur@.len() == es@.len(),
            deleted_ranges@ == compress_spec(ds@),
            forall|j: int| 0 <= j < es@.len() ==> (#[trigger] cur@[j])@.hash == es@[j]@.hash,
            forall|j: int| 0 <= j < es@.len() ==> shift_down_each(
                remove_all(es@[j]@.line_ranges, compress_spec(ds@)),
                ds@,
            ) == shift_down_each((#[trigger] cur@[j])@.line_ranges, ds@.subrange(0, m as int)),
        decreases m,
    {
        let d = ds[m - 1];
        let ip: u32 = d.wrapping_add(1);
        let next = shift_entries(cur.as_slice(), ip, -1);
        proof {
            assert forall|j: int| 0 <= j < es@.len() implies shift_down_each(
                remove_all(es@[j]@.line_ranges, compress_spec(ds@)),
                ds@,
            ) == shift_down_each((#[trigger] next@[j])@.line_ranges, ds@.subrange(0, m - 1)) by {
                let pre = ds@.subrange(0, m as int);
                assert(pre.drop_last() =~= ds@.subrange(0, m - 1));
                assert(pre.last() == d);
                assert(ip == next_line(d));
            }
        }
        cur = next;
        m = m - 1;
    }
    proof {
        assert(ds@.subrange(0, ds@.len() as int) =~= ds@);
        assert(attestations_view(cur@) =~= attestations_view(es@).map_values(|a: AttestationView| delete_lines(a, ds@)));
    }
    cur
}

/// How many of the lines `ds` the ranges `rs` cover.
pub open spec fn count_covered(rs: Seq<LineRange>, ds: Seq<u32>) -> nat
    decreases ds.len(),
{
    if ds.len() == 0 {
        0
    } else {
        count_covered(rs, ds.drop_last()) + if covered(rs, ds.last() as int) {
            1nat
        } else {
            0nat
        }
    }
}

/// How many (deleted line, entry) pairs there are where an entry of `es` with hash `h`
/// covers a line of `ds`.
pub open spec fn hash_hits(es: Seq<AttestationView>, ds: Seq<u32>, h: Seq<char>) -> nat
    decreases es.len(),
{
    if es.len() == 0 {
        0
    } else {
        hash_hits(es.drop_last(), ds, h) + if es.last().hash == h {
            count_covered(es.last().line_ranges, ds)
        } else {
            0nat
        }
    }
}

/// The prompts after a human deleted the lines `ds` of a file whose entries are `es`: each
/// prompt's overridden-line count grows by the number of its lines that were deleted.
pub open spec fn add_overrides(p: Map<Seq<char>, PromptView>, es: Seq<AttestationView>, ds: Seq<u32>) -> Map<
    Seq<char>,
    PromptView,
> {
    Map::new(
        |k: Seq<char>| p.contains_key(k),
        |k: Seq<char>| PromptView { overriden_lines: wrap32(p[k].overriden_lines + hash_hits(es, ds, k)), ..p[k] },
    )
}

/// How many of the lines `ds` the ranges `rs` cover.
fn covered_count(rs: &[LineRange], ds: &[u32]) -> (r: u64)
    ensures
        r == count_covered(rs@, ds@),
{
    let mut n: u64 = 0;
    let mut i: usize = 0;
    while i < ds.len()
        invariant
            i <= ds.len(),
            n <= i,
            n == count_covered(rs@, ds@.subrange(0, i as int)),
        decreases ds.len() - i,
    {
        let hit = crate::authorship_log::any_contains(rs, ds[i]);
        proof {
            let cur = ds@.subrange(0, i + 1);
            assert(cur.drop_last() =~= ds@.subrange(0, i as int));
        }
        if hit {
            n = n + 1;
        }
        i = i + 1;
    }
    proof {
        assert(ds@.subrange(0, ds@.len() as int) =~= ds@);
    }
    n
}

/// The number of (deleted line, entry) pairs for hash `h` (see `hash_hits`).
fn count_hits(es: &[AttestationEntry], ds: &[u32], h: &str) -> (r: u128)
    ensures
        r == hash_hits(attestations_view(es@), ds@, h@),
        r <= es@.len() * 0x1_0000_0000_0000_0000,
{
    let mut total: u128 = 0;
    let mut j: usize = 0;
    while j < es.len()
        invariant
            j <= es.len(),
            total <= j * 0x1_0000_0000_0000_0000,
            total == hash_hits(attestations_view(es@.subrange(0, j as int)), ds@, h@),
        decreases es.len() - j,
    {
        proof {
            let cur = attestations_view(es@.subrange(0, j + 1));
            assert(cur.drop_last() =~= attestations_view(es@.subrange(0, j as int)));
            assert(cur.last() == es@[j as int]@);
        }
        if crate::text::str_eq(es[j].hash.as_str(), h) {
            let c = covered_count(es[j].line_ranges.as_slice(), ds);
            total = total + c as u128;
        }
        j = j + 1;
    }
    proof {
        assert(es@.subrange(0, es@.len() as int) =~= es@);
    }
    total
}

/// Adds to each prompt the number of its lines among the deleted lines `ds` of a file
/// whose entries are `es`.
fn record_overrides(prompts: &mut StrMap<PromptRecord>, es: &[AttestationEntry], ds: &[u32])
    ensures
        final(prompts)@ == add_overrides(old(prompts)@, attestations_view(es@), ds@),
{
    let keys = prompts.keys();
    let ghost p0 = prompts@;
    let ghost ev = attestations_view(es@);
    let mut i: usize = 0;
    while i < keys.len()
        invariant
            i <= keys@.len(),
            ev == attestations_view(es@),
            forall|t: int, u: int| 0 <= t < u < keys@.len() ==> keys@[t]@ != keys@[u]@,
            forall|k: Seq<char>| p0.contains_key(k) <==> exists|t: int| 0 <= t < keys@.len() && (#[trigger] keys@[t])@ == k,
            prompts@ == Map::new(
                |k: Seq<char>| p0.contains_key(k),
                |k: Seq<char>| if exists|t: int| 0 <= t < i && (#[trigger] keys@[t])@ == k {
                    PromptView { overriden_lines: wrap32(p0[k].overriden_lines + hash_hits(ev, ds@, k)), ..p0[k] }
                } else {
                    p0[k]
                },
            ),
        decreases keys.len() - i,
    {
        let ghost before = prompts@;
        let ghost ki = keys@[i as int]@;
        assert(p0.contains_key(ki));
        let hits = count_hits(es, ds, keys[i].as_str());
        let mut rec = match prompts.get(keys[i].as_str()) {
            Some(r) => r.duplicate_value(),
            None => {
                proof {
                    assert(false);
                }
                return;
            },
        };
        assert(!(exists|t: int| 0 <= t < i && (#[trigger] keys@[t])@ == ki)) by {
            if exists|t: int| 0 <= t < i && (#[trigger] keys@[t])@ == ki {
                let t = choose|t: int| 0 <= t < i && (#[trigger] keys@[t])@ == ki;
                assert(keys@[t]@ != keys@[i as int]@);
            }
        }
        assert(rec@ == p0[ki]);
        let n: usize = es.len();
        assert(hits <= n * 0x1_0000_0000_0000_0000);
        assert(hits <= 0xffff_ffff_ffff_ffff * 0x1_0000_0000_0000_0000);
        let bumped: u128 = (rec.overriden_lines as u128 + hits) % 0x1_0000_0000;
        rec.overriden_lines = bumped as u32;
        prompts.insert(keys[i].clone(), rec);
        proof {
            let target = Map::new(
                |k: Seq<char>| p0.contains_key(k),
                |k: Seq<char>| if exists|t: int| 0 <= t < i + 1 && (#[trigger] keys@[t])@ == k {
                    PromptView { overriden_lines: wrap32(p0[k].overriden_lines + hash_hits(ev, ds@, k)), ..p0[k] }
                } else {
                    p0[k]
                },
            );
            assert forall|k: Seq<char>| #[trigger] prompts@.contains_key(k) == target.contains_key(k) by {}
            assert forall|k: Seq<char>| prompts@.contains_key(k) implies #[trigger] prompts@[k] == target[k] by {
                if k == ki {
                    assert(keys@[i as int]@ == k);
                } else {
                    if exists|t: int| 0 <= t < i + 1 && (#[trigger] keys@[t])@ == k {
                        let t = choose|t: int| 0 <= t < i + 1 && (#[trigger] keys@[t])@ == k;
                        assert(t != i);
                        assert(exists|t: int| 0 <= t < i && (#[trigger] keys@[t])@ == k);
                    }
                    if exists|t: int| 0 <= t < i && (#[trigger] keys@[t])@ == k {
                        let t = choose|t: int| 0 <= t < i && (#[trigger] keys@[t])@ == k;
                        assert(exists|t: int| 0 <= t < i + 1 && (#[trigger] keys@[t])@ == k);
                    }
                }
            }
            assert(prompts@ =~= target);
        }
        i = i + 1;
    }
    proof {
        assert forall|k: Seq<char>| p0.contains_key(k) implies (exists|t: int| 0 <= t < i && (#[trigger] keys@[t])@ == k) by {}
        assert(prompts@ =~= add_overrides(p0, ev, ds@));
    }
}

/// `fs` with a file at path `f`: `fs` itself when it has one, else `fs` with an empty file
/// appended.
pub open spec fn with_file(fs: Seq<FileView>, f: Seq<char>) -> Seq<FileView> {
    if has_file(fs, f) {
        fs
    } else {
        fs.push(FileView { file_path: f, entries: Seq::empty() })
    }
}

/// The index of the first file at path `f` in `with_file(fs, f)`.
pub open spec fn file_index(fs: Seq<FileView>, f: Seq<char>) -> int {
    if has_file(fs, f) {
        choose|i: int| first_file(fs, f, i)
    } else {
        fs.len() as int
    }
}

/// The files after the deletions of working log entry `e`.
pub open spec fn after_deletions(fs: Seq<FileView>, e: EntryView) -> Seq<FileView> {
    if e.deleted_lines.len() > 0 {
        let g = with_file(fs, e.file);
        let i = file_index(fs, e.file);
        let ds = sorted_cover(e.deleted_lines);
        g.update(
            i,
            FileView {
                file_path: g[i].file_path,
                entries: g[i].entries.map_values(|a: AttestationView| delete_lines(a, ds)),
            },
        )
    } else {
        fs
    }
}

/// The files after the additions of working log entry `e`: the later lines move down, and
/// the new lines are attributed to session `sid` unless `pass_through` holds or there is
/// no session.
pub open spec fn after_additions(fs: Seq<FileView>, e: EntryView, sid: Option<Seq<char>>, pass_through: bool) -> Seq<
    FileView,
> {
    let adds = sorted_cover(e.added_lines);
    if adds.len() > 0 {
        let g = with_file(fs, e.file);
        let i = file_index(fs, e.file);
        let shifted = g[i].entries.map_values(
            |a: AttestationView| insert_lines(a, adds[0] as int, (adds.len() as i32) as int),
        );
        g.update(
            i,
            FileView {
                file_path: g[i].file_path,
                entries: if !pass_through && sid is Some {
                    shifted.push(AttestationView { hash: sid.unwrap(), line_ranges: compress_spec(adds) })
                } else {
                    shifted
                },
            },
        )
    } else {
        fs
    }
}

/// The prompts after working log entry `e`: when a human deletes lines of a file, the
/// prompts whose lines those were count them as overridden.
pub open spec fn entry_prompts(p: Map<Seq<char>, PromptView>, fs: Seq<FileView>, e: EntryView, human: bool) -> Map<
    Seq<char>,
    PromptView,
> {
    if human && e.deleted_lines.len() > 0 && has_file(fs, e.file) {
        add_overrides(p, fs[file_index(fs, e.file)].entries, sorted_cover(e.deleted_lines))
    } else {
        p
    }
}

/// `m` with `n` added to the count of `k` (a missing count is zero), in wrapping `u32`
/// arithmetic.
pub open spec fn bump(m: Map<Seq<char>, u32>, k: Seq<char>, n: u32) -> Map<Seq<char>, u32> {
    m.insert(
        k,
        wrap32(
            (if m.contains_key(k) {
                m[k] as int
            } else {
                0
            }) + n,
        ),
    )
}

/// What replaying checkpoints builds up: the files and prompts of the log, and the lines
/// each session added and deleted.
pub struct ReplayState {
    pub files: Seq<FileView>,
    pub prompts: Map<Seq<char>, PromptView>,
    pub additions: Map<Seq<char>, u32>,
    pub deletions: Map<Seq<char>, u32>,
}

/// The state after working log entry `e` of a checkpoint of session `sid`.
pub open spec fn entry_step(s: ReplayState, e: EntryView, sid: Option<Seq<char>>, pass_through: bool, human: bool) -> ReplayState {
    ReplayState {
        files: after_additions(after_deletions(s.files, e), e, sid, pass_through),
        prompts: entry_prompts(s.prompts, s.files, e, human),
        additions: match sid {
            Some(k) => bump(s.additions, k, lines_total32(e.added_lines)),
            None => s.additions,
        },
        deletions: match sid {
            Some(k) => bump(s.deletions, k, lines_total32(e.deleted_lines)),
            None => s.deletions,
        },
    }
}

/// The state after the entries `es`, in order.
pub open spec fn entries_steps(s: ReplayState, es: Seq<EntryView>, sid: Option<Seq<char>>, pass_through: bool, human: bool) -> ReplayState
    decreases es.len(),
{
    if es.len() == 0 {
        s
    } else {
        entry_step(entries_steps(s, es.drop_last(), sid, pass_through, human), es.last(), sid, pass_through, human)
    }
}

/// The session of a checkpoint: the short hash of its agent, when it has both an agent and a
/// transcript.
pub open spec fn session_of(c: CheckpointView) -> Option<Seq<char>> {
    if c.agent_id is Some && c.transcript is Some {
        Some(short_hash(c.agent_id.unwrap().id, c.agent_id.unwrap().tool))
    } else {
        None
    }
}

/// The prompts once the session of checkpoint `c` is recorded: a new prompt with zero counts
/// for a new session, or the longer transcript for a known one.
pub open spec fn record_session(p: Map<Seq<char>, PromptView>, c: CheckpointView, human_author: Option<Seq<char>>) -> Map<
    Seq<char>,
    PromptView,
> {
    match session_of(c) {
        None => p,
        Some(sid) => {
            let t = c.transcript.unwrap();
            if !p.contains_key(sid) {
                p.insert(
                    sid,
                    PromptView {
                        agent_id: c.agent_id.unwrap(),
                        human_author,
                        messages: t,
                        total_additions: 0,
                        total_deletions: 0,
                        accepted_lines: 0,
                        overriden_lines: 0,
                    },
                )
            } else if p[sid].messages.len() < t.len() {
                p.insert(sid, PromptView { messages: t, ..p[sid] })
            } else {
                p
            }
        },
    }
}

/// The state after checkpoint `c`.
pub open spec fn checkpoint_step(s: ReplayState, c: CheckpointView, human_author: Option<Seq<char>>) -> ReplayState {
    entries_steps(
        ReplayState { prompts: record_session(s.prompts, c, human_author), ..s },
        c.entries,
        session_of(c),
        c.pass_through_attribution_checkpoint,
        c.agent_id is None,
    )
}

/// The view of an optional borrowed string.
pub open spec fn opt_str(s: Option<&str>) -> Option<Seq<char>> {
    match s {
        Some(t) => Some(t@),
        None => None,
    }
}

/// The log's part of a replay state, with the other fields of `l`.
pub open spec fn with_state(l: LogView, s: ReplayState) -> LogView {
    LogView { attestations: s.files, prompts: s.prompts, ..l }
}

impl AuthorshipLog {
    /// The index of the first attestation for `file`, if any.
    pub fn find_file(&self, file: &str) -> (r: Option<usize>)
        ensures
            r matches Some(i) ==> first_file(self@.attestations, file@, i as int) && i == file_index(self@.attestations, file@),
            r is None ==> !has_file(self@.attestations, file@),
    {
        let mut i: usize = 0;
        while i < self.attestations.len()
            invariant
                i <= self.attestations@.len(),
                forall|j: int| 0 <= j < i ==> (#[trigger] self@.attestations[j]).file_path != file@,
            decreases self.attestations.len() - i,
        {
            if crate::text::str_eq(self.attestations[i].file_path.as_str(), file) {
                proof {
                    let fs = self@.attestations;
                    assert(first_file(fs, file@, i as int));
                    let c = choose|c: int| first_file(fs, file@, c);
                    assert(c == i);
                }
                return Some(i);
            }
            i = i + 1;
        }
        None
    }

    /// The index of the attestation for `file`, added when missing (see `with_file`).
    fn locate_file(&mut self, file: &str) -> (i: usize)
        ensures
            final(self)@ == (LogView { attestations: with_file(old(self)@.attestations, file@), ..old(self)@ }),
            i == file_index(old(self)@.attestations, file@),
            i < final(self)@.attestations.len(),
    {
        let i = self.file_index_or_create(file);
        proof {
            let fs = old(self)@.attestations;
            if has_file(fs, file@) {
                let c = choose|c: int| first_file(fs, file@, c);
                assert(c == i);
            }
        }
        i
    }

    /// Replaces the entries of the attestation at index `i`.
    fn set_entries(&mut self, i: usize, entries: Vec<AttestationEntry>)
        requires
            i < old(self)@.attestations.len(),
        ensures
            final(self)@ == (LogView {
                attestations: old(self)@.attestations.update(
                    i as int,
                    FileView { file_path: old(self)@.attestations[i as int].file_path, entries: attestations_view(entries@) },
                ),
                ..old(self)@
            }),
    {
        let path = self.attestations[i].file_path.clone();
        self.attestations.set(i, crate::authorship_log::FileAttestation { file_path: path, entries });
        proof {
            assert(self@.attestations =~= old(self)@.attestations.update(
                i as int,
                FileView { file_path: old(self)@.attestations[i as int].file_path, entries: attestations_view(entries@) },
            ));
        }
    }

    /// Applies one working log entry of a checkpoint of session `sid`.
    fn apply_entry(&mut self, e: &WorkingLogEntry, sid: &Option<String>, pass_through: bool, human: bool)
        ensures
            final(self)@ == (LogView {
                attestations: after_additions(after_deletions(old(self)@.attestations, e@), e@, crate::transcript::opt_view(*sid), pass_through),
                prompts: entry_prompts(old(self)@.prompts, old(self)@.attestations, e@, human),
                ..old(self)@
            }),
    {
        let ghost l0 = self@;
        if e.deleted_lines.len() > 0 {
            let deleted = covered_lines(e.deleted_lines.as_slice());
            if human {
                match self.find_file(e.file.as_str()) {
                    Some(idx) => {
                        record_overrides(&mut self.metadata.prompts, self.attestations[idx].entries.as_slice(), deleted.as_slice());
                    },
                    None => {},
                }
            }
            let ghost l1 = self@;
            assert(l1.attestations == l0.attestations);
            let i = self.locate_file(e.file.as_str());
            let entries = delete_from_entries(self.attestations[i].entries.as_slice(), deleted.as_slice());
            self.set_entries(i, entries);
            proof {
                let g = with_file(l0.attestations, e@.file);
                let ds = sorted_cover(e@.deleted_lines);
                assert(attestations_view(entries@) =~= g[i as int].entries.map_values(|a: AttestationView| delete_lines(a, ds)));
            }
        }
        let ghost l2 = self@;
        assert(l2.attestations == after_deletions(l0.attestations, e@));
        assert(l2.prompts == entry_prompts(l0.prompts, l0.attestations, e@, human));
        let added = covered_lines(e.added_lines.as_slice());
        if added.len() > 0 {
            let n = added.len() as i32;
            let ip = added[0];
            let i = self.locate_file(e.file.as_str());
            let mut entries = shift_entries(self.attestations[i].entries.as_slice(), ip, n);
            let ghost shifted = attestations_view(entries@);
            let ranges = LineRange::compress_lines(added.as_slice());
            if !pass_through {
                match sid {
                    Some(h) => {
                        entries.push(AttestationEntry::new(h.clone(), ranges));
                        proof {
                            assert(attestations_view(entries@) =~= shifted.push(AttestationView { hash: h@, line_ranges: compress_spec(added@) }));
                        }
                    },
                    None => {},
                }
            }
            self.set_entries(i, entries);
            proof {
                let g = with_file(l2.attestations, e@.file);
                let adds = sorted_cover(e@.added_lines);
                assert(shifted =~= g[i as int].entries.map_values(
                    |a: AttestationView| insert_lines(a, adds[0] as int, (adds.len() as i32) as int),
                ));
            }
        }
    }
}

/// The replay state of log `l` with the session counts `additions` and `deletions`.
pub open spec fn state_of(l: LogView, additions: Map<Seq<char>, u32>, deletions: Map<Seq<char>, u32>) -> ReplayState {
    ReplayState { files: l.attestations, prompts: l.prompts, additions, deletions }
}

/// Records the session of checkpoint `c` in `prompts` (see `record_session`) and returns it.
fn start_session(prompts: &mut StrMap<PromptRecord>, c: &Checkpoint, human_author: Option<&str>) -> (sid: Option<String>)
    ensures
        crate::transcript::opt_view(sid) == session_of(c@),
        final(prompts)@ == record_session(old(prompts)@, c@, opt_str(human_author)),
{
    match &c.agent_id {
        Some(agent) => match &c.transcript {
            Some(t) => {
                let sid = generate_short_hash(agent.id.as_str(), agent.tool.as_str());
                let msgs = t.messages();
                match prompts.get(sid.as_str()) {
                    None => {
                        let human = match human_author {
                            Some(h) => Some(String::from_str(h)),
                            None => None,
                        };
                        let rec = PromptRecord {
                            agent_id: agent.duplicate(),
                            human_author: human,
                            messages: copy_messages(msgs),
                            total_additions: 0,
                            total_deletions: 0,
                            accepted_lines: 0,
                            overriden_lines: 0,
                        };
                        prompts.insert(sid.clone(), rec);
                    },
                    Some(rec) => {
                        if rec.messages.len() < msgs.len() {
                            let mut updated = rec.duplicate_value();
                            updated.messages = copy_messages(msgs);
                            prompts.insert(sid.clone(), updated);
                        }
                    },
                }
                Some(sid)
            },
            None => None,
        },
        None => None,
    }
}

/// Adds `n` to the count of `k` in `counts`, in wrapping arithmetic.
fn bump_count(counts: &mut StrMap<u32>, k: &String, n: u32)
    ensures
        final(counts)@ == bump(old(counts)@, k@, n),
{
    let cur: u32 = match counts.get(k.as_str()) {
        Some(v) => *v,
        None => 0,
    };
    counts.insert(k.clone(), cur.wrapping_add(n));
}

impl AuthorshipLog {
    /// Applies one checkpoint: records its session, then for each of its entries takes the
    /// deleted lines out of every attestation of the file and moves the later lines up,
    /// moves lines down to make room for the added lines and attributes those to the
    /// session, and counts the lines the session added and deleted (see `checkpoint_step`).
    pub fn apply_checkpoint(
        &mut self,
        checkpoint: &Checkpoint,
        human_author: Option<&str>,
        session_additions: &mut StrMap<u32>,
        session_deletions: &mut StrMap<u32>,
    )
        ensures
            final(self)@ == with_state(
                old(self)@,
                checkpoint_step(
                    state_of(old(self)@, old(session_additions)@, old(session_deletions)@),
                    checkpoint@,
                    opt_str(human_author),
                ),
            ),
            final(session_additions)@ == checkpoint_step(
                state_of(old(self)@, old(session_additions)@, old(session_deletions)@),
                checkpoint@,
                opt_str(human_author),
            ).additions,
            final(session_deletions)@ == checkpoint_step(
                state_of(old(self)@, old(session_additions)@, old(session_deletions)@),
                checkpoint@,
                opt_str(human_author),
            ).deletions,
    {
        let ghost l0 = self@;
        let sid = start_session(&mut self.metadata.prompts, checkpoint, human_author);
        let ghost s0 = ReplayState {
            prompts: record_session(l0.prompts, checkpoint@, opt_str(human_author)),
            ..state_of(l0, session_additions@, session_deletions@)
        };
        let ghost es = checkpoint@.entries;
        let pass_through = checkpoint.pass_through_attribution_checkpoint;
        let human = checkpoint.agent_id.is_none();
        let mut j: usize = 0;
        while j < checkpoint.entries.len()
            invariant
                j <= checkpoint.entries@.len(),
                es == checkpoint@.entries,
                es.len() == checkpoint.entries@.len(),
                crate::transcript::opt_view(sid) == session_of(checkpoint@),
                pass_through == checkpoint@.pass_through_attribution_checkpoint,
                human == (checkpoint@.agent_id is None),
                self@ == with_state(l0, entries_steps(s0, es.subrange(0, j as int), session_of(checkpoint@), pass_through, human)),
                session_additions@ == entries_steps(s0, es.subrange(0, j as int), session_of(checkpoint@), pass_through, human).additions,
                session_deletions@ == entries_steps(s0, es.subrange(0, j as int), session_of(checkpoint@), pass_through, human).deletions,
            decreases checkpoint.entries.len() - j,
        {
            let e = &checkpoint.entries[j];
            proof {
                let cur = es.subrange(0, j + 1);
                assert(cur.drop_last() =~= es.subrange(0, j as int));
                assert(cur.last() == e@);
            }
            match &sid {
                Some(k) => {
                    let a = total_lines(e.added_lines.as_slice());
                    bump_count(session_additions, k, a);
                    let d = total_lines(e.deleted_lines.as_slice());
                    bump_count(session_deletions, k, d);
                },
                None => {},
            }
            self.apply_entry(e, &sid, pass_through, human);
            j = j + 1;
        }
        proof {
            assert(es.subrange(0, es.len() as int) =~= es);
        }
    }
}

/// Checkpoints replayed in order from state `s`.
pub open spec fn replay(s: ReplayState, cs: Seq<CheckpointView>, human_author: Option<Seq<char>>) -> ReplayState
    decreases cs.len(),
{
    if cs.len() == 0 {
        s
    } else {
        checkpoint_step(replay(s, cs.drop_last(), human_author), cs.last(), human_author)
    }
}

/// The state before any checkpoint: no files, no prompts, no counts.
pub open spec fn empty_state() -> ReplayState {
    ReplayState { files: Seq::empty(), prompts: Map::empty(), additions: Map::empty(), deletions: Map::empty() }
}

/// The prompts with their transcripts cleared.
pub open spec fn without_messages(p: Map<Seq<char>, PromptView>) -> Map<Seq<char>, PromptView> {
    Map::new(|k: Seq<char>| p.contains_key(k), |k: Seq<char>| PromptView { messages: Seq::empty(), ..p[k] })
}

/// The prompts of the log built from checkpoints `cs`.
pub open spec fn built_prompts(cs: Seq<CheckpointView>, human_author: Option<Seq<char>>, ignore_prompts: bool) -> Map<
    Seq<char>,
    PromptView,
> {
    let s = replay(empty_state(), cs, human_author);
    let p = crate::finalize::final_prompts(s.prompts, crate::finalize::finalized_files(s.files), s.additions, s.deletions);
    if ignore_prompts {
        without_messages(p)
    } else {
        p
    }
}

/// Clears the transcripts of all prompts.
fn clear_messages(prompts: &mut StrMap<PromptRecord>)
    ensures
        final(prompts)@ == without_messages(old(prompts)@),
{
    let keys = prompts.keys();
    let ghost p0 = prompts@;
    let mut i: usize = 0;
    while i < keys.len()
        invariant
            i <= keys@.len(),
            forall|t: int, u: int| 0 <= t < u < keys@.len() ==> keys@[t]@ != keys@[u]@,
            forall|k: Seq<char>| p0.contains_key(k) <==> exists|t: int| 0 <= t < keys@.len() && (#[trigger] keys@[t])@ == k,
            prompts@ == Map::new(
                |k: Seq<char>| p0.contains_key(k),
                |k: Seq<char>| if exists|t: int| 0 <= t < i && (#[trigger] keys@[t])@ == k {
                    PromptView { messages: Seq::empty(), ..p0[k] }
                } else {
                    p0[k]
                },
            ),
        decreases keys.len() - i,
    {
        let ghost ki = keys@[i as int]@;
        assert(p0.contains_key(ki));
        let mut rec = match prompts.get(keys[i].as_str()) {
            Some(r) => r.duplicate_value(),
            None => {
                proof {
                    assert(false);
                }
                return;
            },
        };
        assert(!(exists|t: int| 0 <= t < i && (#[trigger] keys@[t])@ == ki)) by {
            if exists|t: int| 0 <= t < i && (#[trigger] keys@[t])@ == ki {
                let t = choose|t: int| 0 <= t < i && (#[trigger] keys@[t])@ == ki;
                assert(keys@[t]@ != keys@[i as int]@);
            }
        }
        assert(rec@ == p0[ki]);
        rec.messages = Vec::new();
        assert(rec@.messages =~= Seq::<crate::transcript::MessageView>::empty());
        prompts.insert(keys[i].clone(), rec);
        proof {
            let target = Map::new(
                |k: Seq<char>| p0.contains_key(k),
                |k: Seq<char>| if exists|t: int| 0 <= t < i + 1 && (#[trigger] keys@[t])@ == k {
                    PromptView { messages: Seq::empty(), ..p0[k] }
                } else {
                    p0[k]
                },
            );
            assert forall|k: Seq<char>| #[trigger] prompts@.contains_key(k) == target.contains_key(k) by {}
            assert forall|k: Seq<char>| prompts@.contains_key(k) implies #[trigger] prompts@[k] == target[k] by {
                if k == ki {
                    assert(keys@[i as int]@ == k);
                } else {
                    if exists|t: int| 0 <= t < i + 1 && (#[trigger] keys@[t])@ == k {
                        let t = choose|t: int| 0 <= t < i + 1 && (#[trigger] keys@[t])@ == k;
                        assert(t != i);
                        assert(exists|t: int| 0 <= t < i && (#[trigger] keys@[t])@ == k);
                    }
                    if exists|t: int| 0 <= t < i && (#[trigger] keys@[t])@ == k {
                        let t = choose|t: int| 0 <= t < i && (#[trigger] keys@[t])@ == k;
                        assert(exists|t: int| 0 <= t < i + 1 && (#[trigger] keys@[t])@ == k);
                    }
                }
            }
            assert(prompts@ =~= target);
        }
        i = i + 1;
    }
    proof {
        assert forall|k: Seq<char>| p0.contains_key(k) implies (exists|t: int| 0 <= t < i && (#[trigger] keys@[t])@ == k) by {}
        assert(prompts@ =~= without_messages(p0));
    }
}

impl AuthorshipLog {
    /// The authorship log of a commit built from its working log: the checkpoints are
    /// applied in order, the log is finalized, and with `ignore_prompts` the transcripts
    /// are cleared while the prompt records stay. Every hash that an attestation of the
    /// result names is a prompt of the result, and in each file the hashes strictly
    /// increase.
    pub fn from_working_log_with_base_commit_and_human_author(
        checkpoints: &[Checkpoint],
        base_commit_sha: &str,
        human_author: Option<&str>,
        ignore_prompts: bool,
    ) -> (r: AuthorshipLog)
        ensures
            r@.attestations == crate::finalize::finalized_files(
                replay(empty_state(), crate::working_log::checkpoints_view(checkpoints@), opt_str(human_author)).files,
            ),
            r@.prompts == built_prompts(crate::working_log::checkpoints_view(checkpoints@), opt_str(human_author), ignore_prompts),
            r@.base_commit_sha == base_commit_sha@,
            r@.schema_version == crate::authorship_log::AUTHORSHIP_LOG_VERSION@,
            crate::prompt_links::files_named(r@.attestations, r@.prompts),
            forall|i: int|
                0 <= i < r@.attestations.len() ==> crate::finalize::hashes_increasing(
                    #[trigger] r@.attestations[i].entries,
                ),
    {
        let ghost cs = crate::working_log::checkpoints_view(checkpoints@);
        let mut log = AuthorshipLog::new();
        log.metadata.base_commit_sha = String::from_str(base_commit_sha);
        let mut additions: StrMap<u32> = StrMap::new();
        let mut deletions: StrMap<u32> = StrMap::new();
        let mut i: usize = 0;
        proof {
            assert(log@.attestations =~= Seq::<FileView>::empty());
            assert(state_of(log@, additions@, deletions@) == empty_state());
        }
        while i < checkpoints.len()
            invariant
                i <= checkpoints@.len(),
                cs == crate::working_log::checkpoints_view(checkpoints@),
                log@.base_commit_sha == base_commit_sha@,
                log@.schema_version == crate::authorship_log::AUTHORSHIP_LOG_VERSION@,
                state_of(log@, additions@, deletions@) == replay(empty_state(), cs.subrange(0, i as int), opt_str(human_author)),
            decreases checkpoints.len() - i,
        {
            proof {
                let cur = cs.subrange(0, i + 1);
                assert(cur.drop_last() =~= cs.subrange(0, i as int));
                assert(cur.last() == checkpoints@[i as int]@);
            }
            log.apply_checkpoint(&checkpoints[i], human_author, &mut additions, &mut deletions);
            i = i + 1;
        }
        proof {
            assert(cs.subrange(0, cs.len() as int) =~= cs);
        }
        log.finalize(&additions, &deletions);
        if ignore_prompts {
            clear_messages(&mut log.metadata.prompts);
        }
        proof {
            crate::prompt_links::lemma_built_entries_name_prompts(cs, opt_str(human_author), ignore_prompts);
            crate::finalize::lemma_finalized_hashes_increasing(replay(empty_state(), cs, opt_str(human_author)).files);
        }
        log
    }

    /// The attestation for `file`, added at the end when missing.
    pub fn get_or_create_file(&mut self, file: &str) -> (r: &mut crate::authorship_log::FileAttestation)
        ensures
            (*r)@ == with_file(old(self)@.attestations, file@)[file_index(old(self)@.attestations, file@)],
            final(self)@ == (LogView {
                attestations: with_file(old(self)@.attestations, file@).update(
                    file_index(old(self)@.attestations, file@),
                    (*final(r))@,
                ),
                ..old(self)@
            }),
    {
        let i = self.locate_file(file);
        let ghost mid = self.attestations@;
        let r = &mut self.attestations[i];
        proof {
            assert(files_view(mid.update(i as int, *final(r))) =~= files_view(mid).update(i as int, (*final(r))@));
        }
        r
    }
}

} // verus!
