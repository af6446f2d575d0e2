//! Every attestation entry of a log built from a working log names one of its prompts.

use vstd::prelude::*;

use crate::apply::{
    add_overrides, after_additions, after_deletions, built_prompts, checkpoint_step, delete_lines, empty_state,
    entries_steps, entry_prompts, entry_step, file_index, insert_lines, record_session, replay, session_of,
    with_file, without_messages, ReplayState,
};
use crate::authorship_log::{AttestationView, FileView, PromptView};
use crate::finalize::{consolidate, final_prompts, finalized_files, group_by_hash, keep_files, keep_nonempty, sort_by_hash};
use crate::squash::{all_hashes, missing_prompt};
use crate::working_log::{CheckpointView, EntryView};

verus! {

/// Whether every entry of `es` names a prompt of `p`.
pub open spec fn entries_named(es: Seq<AttestationView>, p: Map<Seq<char>, PromptView>) -> bool {
    forall|j: int| 0 <= j < es.len() ==> p.contains_key(#[trigger] es[j].hash)
}

/// Whether every entry of every file of `fs` names a prompt of `p`.
pub open spec fn files_named(fs: Seq<FileView>, p: Map<Seq<char>, PromptView>) -> bool {
    forall|i: int| 0 <= i < fs.len() ==> entries_named(#[trigger] fs[i].entries, p)
}

/// Whether every key of `p` is a key of `q`.
pub open spec fn keys_within(p: Map<Seq<char>, PromptView>, q: Map<Seq<char>, PromptView>) -> bool {
    forall|k: Seq<char>| #[trigger] p.contains_key(k) ==> q.contains_key(k)
}

/// Naming prompts of `p` is naming prompts of a map with more keys.
proof fn lemma_named_grow(fs: Seq<FileView>, p: Map<Seq<char>, PromptView>, q: Map<Seq<char>, PromptView>)
    requires
        files_named(fs, p),
        keys_within(p, q),
    ensures
        files_named(fs, q),
{
    assert forall|i: int| 0 <= i < fs.len() implies entries_named(#[trigger] fs[i].entries, q) by {
        assert(entries_named(fs[i].entries, p));
        assert forall|j: int| 0 <= j < fs[i].entries.len() implies q.contains_key(#[trigger] fs[i].entries[j].hash) by {
            assert(p.contains_key(fs[i].entries[j].hash));
        }
    }
}

/// A file with path `f` at `i` means a first one exists.
proof fn lemma_first_file(fs: Seq<FileView>, f: Seq<char>, i: int)
    requires
        0 <= i < fs.len(),
        fs[i].file_path == f,
    ensures
        exists|k: int| crate::authorship_log::first_file(fs, f, k),
    decreases i,
{
    if exists|j: int| 0 <= j < i && fs[j].file_path == f {
        let j = choose|j: int| 0 <= j < i && fs[j].file_path == f;
        lemma_first_file(fs, f, j);
    } else {
        assert(crate::authorship_log::first_file(fs, f, i));
    }
}

/// Adding an empty file keeps every entry named.
proof fn lemma_with_file(fs: Seq<FileView>, f: Seq<char>, p: Map<Seq<char>, PromptView>)
    requires
        files_named(fs, p),
    ensures
        files_named(with_file(fs, f), p),
        0 <= file_index(fs, f) < with_file(fs, f).len(),
{
    let g = with_file(fs, f);
    if crate::authorship_log::has_file(fs, f) {
        let w = choose|w: int| 0 <= w < fs.len() && (#[trigger] fs[w]).file_path == f;
        lemma_first_file(fs, f, w);
    } else {
        assert forall|i: int| 0 <= i < g.len() implies entries_named(#[trigger] g[i].entries, p) by {
            if i < fs.len() {
                assert(g[i] == fs[i]);
            }
        }
    }
}

/// Entries after a deletion name what they named.
proof fn lemma_after_deletions(fs: Seq<FileView>, e: EntryView, p: Map<Seq<char>, PromptView>)
    requires
        files_named(fs, p),
    ensures
        files_named(after_deletions(fs, e), p),
{
    if e.deleted_lines.len() > 0 {
        lemma_with_file(fs, e.file, p);
        let g = with_file(fs, e.file);
        let i = file_index(fs, e.file);
        let ds = crate::working_log::sorted_cover(e.deleted_lines);
        let ne = g[i].entries.map_values(|a: AttestationView| delete_lines(a, ds));
        let r = after_deletions(fs, e);
        assert forall|k: int| 0 <= k < r.len() implies entries_named(#[trigger] r[k].entries, p) by {
            if k == i {
                assert(r[k].entries == ne);
                assert(entries_named(g[i].entries, p));
                assert forall|j: int| 0 <= j < ne.len() implies p.contains_key(#[trigger] ne[j].hash) by {
                    assert(ne[j].hash == g[i].entries[j].hash);
                }
            } else {
                assert(r[k] == g[k]);
            }
        }
    }
}

/// Entries after an addition name what they named, and the new entry names the session.
proof fn lemma_after_additions(
    fs: Seq<FileView>,
    e: EntryView,
    sid: Option<Seq<char>>,
    pass_through: bool,
    p: Map<Seq<char>, PromptView>,
)
    requires
        files_named(fs, p),
        sid matches Some(k) ==> p.contains_key(k),
    ensures
        files_named(after_additions(fs, e, sid, pass_through), p),
{
    let adds = crate::working_log::sorted_cover(e.added_lines);
    if adds.len() > 0 {
        lemma_with_file(fs, e.file, p);
        let g = with_file(fs, e.file);
        let i = file_index(fs, e.file);
        let shifted = g[i].entries.map_values(
            |a: AttestationView| insert_lines(a, adds[0] as int, (adds.len() as i32) as int),
        );
        let r = after_additions(fs, e, sid, pass_through);
        assert(entries_named(g[i].entries, p));
        assert forall|j: int| 0 <= j < shifted.len() implies p.contains_key(#[trigger] shifted[j].hash) by {
            assert(shifted[j].hash == g[i].entries[j].hash);
        }
        assert forall|k: int| 0 <= k < r.len() implies entries_named(#[trigger] r[k].entries, p) by {
            if k == i {
                if !pass_through && sid is Some {
                    let ne = r[k].entries;
                    assert forall|j: int| 0 <= j < ne.len() implies p.contains_key(#[trigger] ne[j].hash) by {
                        if j < shifted.len() {
                            assert(ne[j] == shifted[j]);
                        }
                    }
                }
            } else {
                assert(r[k] == g[k]);
            }
        }
    }
}

/// Recording overridden lines keeps the prompts' keys.
proof fn lemma_entry_prompts_keys(p: Map<Seq<char>, PromptView>, fs: Seq<FileView>, e: EntryView, human: bool)
    ensures
        keys_within(p, entry_prompts(p, fs, e, human)),
        keys_within(entry_prompts(p, fs, e, human), p),
{
}

/// One working log entry keeps every entry named, with the same prompt keys.
proof fn lemma_entry_step(s: ReplayState, e: EntryView, sid: Option<Seq<char>>, pass_through: bool, human: bool)
    requires
        files_named(s.files, s.prompts),
        sid matches Some(k) ==> s.prompts.contains_key(k),
    ensures
        files_named(entry_step(s, e, sid, pass_through, human).files, entry_step(s, e, sid, pass_through, human).prompts),
        keys_within(s.prompts, entry_step(s, e, sid, pass_through, human).prompts),
        keys_within(entry_step(s, e, sid, pass_through, human).prompts, s.prompts),
{
    lemma_after_deletions(s.files, e, s.prompts);
    lemma_after_additions(after_deletions(s.files, e), e, sid, pass_through, s.prompts);
    lemma_entry_prompts_keys(s.prompts, s.files, e, human);
    lemma_named_grow(
        after_additions(after_deletions(s.files, e), e, sid, pass_through),
        s.prompts,
        entry_prompts(s.prompts, s.files, e, human),
    );
}

/// A checkpoint's entries keep every entry named, with the same prompt keys.
proof fn lemma_entries_steps(s: ReplayState, es: Seq<EntryView>, sid: Option<Seq<char>>, pass_through: bool, human: bool)
    requires
        files_named(s.files, s.prompts),
        sid matches Some(k) ==> s.prompts.contains_key(k),
    ensures
        files_named(entries_steps(s, es, sid, pass_through, human).files, entries_steps(s, es, sid, pass_through, human).prompts),
        keys_within(s.prompts, entries_steps(s, es, sid, pass_through, human).prompts),
    decreases es.len(),
{
    if es.len() > 0 {
        lemma_entries_steps(s, es.drop_last(), sid, pass_through, human);
        let t = entries_steps(s, es.drop_last(), sid, pass_through, human);
        lemma_entry_step(t, es.last(), sid, pass_through, human);
    }
}

/// A checkpoint keeps every entry named and only adds prompts.
proof fn lemma_checkpoint_step(s: ReplayState, c: CheckpointView, human_author: Option<Seq<char>>)
    requires
        files_named(s.files, s.prompts),
    ensures
        files_named(checkpoint_step(s, c, human_author).files, checkpoint_step(s, c, human_author).prompts),
{
    let p2 = record_session(s.prompts, c, human_author);
    assert(keys_within(s.prompts, p2));
    lemma_named_grow(s.files, s.prompts, p2);
    let s2 = ReplayState { prompts: p2, ..s };
    lemma_entries_steps(s2, c.entries, session_of(c), c.pass_through_attribution_checkpoint, c.agent_id is None);
}

/// Every replay state from the empty one has every entry named.
proof fn lemma_replay(cs: Seq<CheckpointView>, human_author: Option<Seq<char>>)
    ensures
        files_named(replay(empty_state(), cs, human_author).files, replay(empty_state(), cs, human_author).prompts),
    decreases cs.len(),
{
    if cs.len() > 0 {
        lemma_replay(cs.drop_last(), human_author);
        lemma_checkpoint_step(replay(empty_state(), cs.drop_last(), human_author), cs.last(), human_author);
    }
}

/// Keeping non-empty entries keeps them named.
proof fn lemma_keep_nonempty(es: Seq<AttestationView>, p: Map<Seq<char>, PromptView>)
    requires
        entries_named(es, p),
    ensures
        entries_named(keep_nonempty(es), p),
    decreases es.len(),
{
    if es.len() > 0 {
        let es2 = es.drop_last();
        assert forall|j: int| 0 <= j < es2.len() implies p.contains_key(#[trigger] es2[j].hash) by {
            assert(es2[j] == es[j]);
        }
        lemma_keep_nonempty(es2, p);
        let k = keep_nonempty(es2);
        let r = keep_nonempty(es);
        assert(p.contains_key(es[es.len() - 1].hash));
        assert forall|j: int| 0 <= j < r.len() implies p.contains_key(#[trigger] r[j].hash) by {
            if j < k.len() {
                assert(r[j] == k[j]);
            }
        }
    }
}

/// Keeping files with entries keeps their entries named.
proof fn lemma_keep_files(fs: Seq<FileView>, p: Map<Seq<char>, PromptView>)
    requires
        files_named(fs, p),
    ensures
        files_named(keep_files(fs), p),
    decreases fs.len(),
{
    if fs.len() > 0 {
        let fs2 = fs.drop_last();
        assert forall|i: int| 0 <= i < fs2.len() implies entries_named(#[trigger] fs2[i].entries, p) by {
            assert(fs2[i] == fs[i]);
        }
        lemma_keep_files(fs2, p);
        assert(entries_named(fs[fs.len() - 1].entries, p));
        lemma_keep_nonempty(fs.last().entries, p);
        let k = keep_files(fs2);
        let r = keep_files(fs);
        assert forall|i: int| 0 <= i < r.len() implies entries_named(#[trigger] r[i].entries, p) by {
            if i < k.len() {
                assert(r[i] == k[i]);
            }
        }
    }
}

/// Sorting entries by hash keeps them named.
proof fn lemma_sort_by_hash(es: Seq<AttestationView>, p: Map<Seq<char>, PromptView>)
    requires
        entries_named(es, p),
    ensures
        entries_named(sort_by_hash(es), p),
    decreases es.len(),
{
    if es.len() > 0 {
        let es2 = es.drop_last();
        assert forall|j: int| 0 <= j < es2.len() implies p.contains_key(#[trigger] es2[j].hash) by {
            assert(es2[j] == es[j]);
        }
        lemma_sort_by_hash(es2, p);
        let s = sort_by_hash(es2);
        let q = crate::finalize::place_by_hash(s, es.last().hash) as int;
        lemma_place_hash_bound(s, es.last().hash);
        let r = sort_by_hash(es);
        assert(r == s.take(q).push(es.last()) + s.skip(q));
        assert(p.contains_key(es[es.len() - 1].hash));
        assert forall|j: int| 0 <= j < r.len() implies p.contains_key(#[trigger] r[j].hash) by {
            if j < q {
                assert(r[j] == s[j]);
            } else if j > q {
                assert(r[j] == s[j - 1]);
            }
        }
    }
}

/// A place is within the list.
proof fn lemma_place_hash_bound(s: Seq<AttestationView>, h: Seq<char>)
    ensures
        crate::finalize::place_by_hash(s, h) <= s.len(),
    decreases s.len(),
{
    if s.len() > 0 {
        lemma_place_hash_bound(s.drop_first(), h);
    }
}

/// Grouping entries by hash keeps them named.
proof fn lemma_group_by_hash(es: Seq<AttestationView>, p: Map<Seq<char>, PromptView>)
    requires
        entries_named(es, p),
    ensures
        entries_named(group_by_hash(es), p),
    decreases es.len(),
{
    if es.len() > 0 {
        let es2 = es.drop_last();
        assert forall|j: int| 0 <= j < es2.len() implies p.contains_key(#[trigger] es2[j].hash) by {
            assert(es2[j] == es[j]);
        }
        lemma_group_by_hash(es2, p);
        let g = group_by_hash(es2);
        let r = group_by_hash(es);
        assert(p.contains_key(es[es.len() - 1].hash));
        assert forall|j: int| 0 <= j < r.len() implies p.contains_key(#[trigger] r[j].hash) by {
            if j < g.len() {
                if j < r.len() - 1 || !(g.len() > 0 && g.last().hash == es.last().hash) {
                    assert(r[j] == g[j]);
                }
            }
        }
    }
}

/// Finishing the files keeps their entries named.
proof fn lemma_finalized(fs: Seq<FileView>, p: Map<Seq<char>, PromptView>)
    requires
        files_named(fs, p),
    ensures
        files_named(finalized_files(fs), p),
{
    lemma_keep_files(fs, p);
    let k = keep_files(fs);
    let r = finalized_files(fs);
    assert forall|i: int| 0 <= i < r.len() implies entries_named(#[trigger] r[i].entries, p) by {
        assert(entries_named(k[i].entries, p));
        lemma_sort_by_hash(k[i].entries, p);
        lemma_group_by_hash(sort_by_hash(k[i].entries), p);
        let c = consolidate(sort_by_hash(k[i].entries));
        let g = group_by_hash(sort_by_hash(k[i].entries));
        assert(r[i].entries == c);
        assert forall|j: int| 0 <= j < c.len() implies p.contains_key(#[trigger] c[j].hash) by {
            assert(c[j].hash == g[j].hash);
        }
    }
}

/// Every attestation entry of the log that
/// `AuthorshipLog::from_working_log_with_base_commit_and_human_author` builds from a
/// working log names a prompt of that log, whether or not transcripts are kept.
pub proof fn lemma_built_entries_name_prompts(
    checkpoints: Seq<CheckpointView>,
    human_author: Option<Seq<char>>,
    ignore_prompts: bool,
)
    ensures
        files_named(
            finalized_files(replay(empty_state(), checkpoints, human_author).files),
            built_prompts(checkpoints, human_author, ignore_prompts),
        ),
{
    let s = replay(empty_state(), checkpoints, human_author);
    lemma_replay(checkpoints, human_author);
    lemma_finalized(s.files, s.prompts);
    let fp = final_prompts(s.prompts, finalized_files(s.files), s.additions, s.deletions);
    assert(keys_within(s.prompts, fp));
    assert(keys_within(s.prompts, without_messages(fp)));
    lemma_named_grow(finalized_files(s.files), s.prompts, built_prompts(checkpoints, human_author, ignore_prompts));
}

/// When every entry names a prompt, so does every hash in `all_hashes`.
proof fn lemma_all_hashes_named(fs: Seq<FileView>, p: Map<Seq<char>, PromptView>)
    requires
        files_named(fs, p),
    ensures
        forall|k: int| 0 <= k < all_hashes(fs).len() ==> p.contains_key(#[trigger] all_hashes(fs)[k]),
    decreases fs.len(),
{
    if fs.len() > 0 {
        let fs2 = fs.drop_last();
        assert forall|i: int| 0 <= i < fs2.len() implies entries_named(#[trigger] fs2[i].entries, p) by {
            assert(fs2[i] == fs[i]);
        }
        lemma_all_hashes_named(fs2, p);
        let a = all_hashes(fs2);
        let es = fs.last().entries;
        let b = es.map_values(|x: AttestationView| x.hash);
        assert(entries_named(fs[fs.len() - 1].entries, p));
        assert forall|k: int| 0 <= k < all_hashes(fs).len() implies p.contains_key(#[trigger] all_hashes(fs)[k]) by {
            if k < a.len() {
                assert(all_hashes(fs)[k] == a[k]);
            } else {
                assert(all_hashes(fs)[k] == b[k - a.len()]);
                assert(b[k - a.len()] == es[k - a.len()].hash);
            }
        }
    }
}

/// A log built from a working log by
/// `AuthorshipLog::from_working_log_with_base_commit_and_human_author` converts into
/// squash checkpoints without a missing prompt: `convert_to_checkpoints_for_squash`
/// succeeds on it.
pub proof fn lemma_built_log_converts(checkpoints: Seq<CheckpointView>, human_author: Option<Seq<char>>, ignore_prompts: bool)
    ensures
        !missing_prompt(
            finalized_files(replay(empty_state(), checkpoints, human_author).files),
            built_prompts(checkpoints, human_author, ignore_prompts),
        ),
{
    lemma_built_entries_name_prompts(checkpoints, human_author, ignore_prompts);
    lemma_all_hashes_named(
        finalized_files(replay(empty_state(), checkpoints, human_author).files),
        built_prompts(checkpoints, human_author, ignore_prompts),
    );
}

} // verus!
