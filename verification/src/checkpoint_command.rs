//! The decisions of the `checkpoint` command once the changed files' entries are known:
//! whether a checkpoint is recorded, what it holds, what is reported, and the counts the
//! command returns.

use vstd::prelude::*;
use vstd::string::*;

use crate::text::{decimal, extend_chars, from_chars, str_eq, to_chars, u64_to_chars};
use crate::virtual_attribution::{LineAttrView, LineAttribution, line_attrs_view};
use crate::transcript::{AiTranscript, MessageView};
use crate::working_log::{AgentId, Checkpoint, CheckpointView, WorkingLogEntry, entries_view};

verus! {

/// What an AI agent's run hands to the checkpoint: the agent and, if it has one, the
/// conversation.
pub struct AgentRun {
    pub agent_id: AgentId,
    pub transcript: Option<AiTranscript>,
}

/// What one run of the checkpoint command decides: the checkpoint to append (none when no
/// file has a change), the summary line to print (none when quiet), and the counts it
/// returns: entries, changed files, and checkpoints of the working log afterwards.
pub struct CheckpointStep {
    pub checkpoint: Option<Checkpoint>,
    pub summary: Option<String>,
    pub entries_len: usize,
    pub files_len: usize,
    pub working_log_len: usize,
}

/// The word for what the changes are counted since: `checkpoint` when more than one file
/// has an entry, else `commit`.
pub open spec fn step_label(entries: nat) -> Seq<char> {
    if entries > 1 {
        "checkpoint"@
    } else {
        "commit"@
    }
}

/// The summary line: how many of the changed files the checkpoint covers, and how many
/// were already checkpointed when not all.
pub open spec fn summary_text(kind: Seq<char>, who: Seq<char>, with_entries: nat, total: nat) -> Seq<char> {
    let head = kind + " "@ + who + " changed "@ + decimal(with_entries);
    let label = step_label(with_entries);
    if with_entries == total {
        head + " file(s) that have changed since the last "@ + label
    } else {
        head + " of the "@ + decimal(total) + " file(s) that have changed since the last "@ + label + " ("@
            + decimal((total - with_entries) as nat) + " already checkpointed)"@
    }
}

/// The conversation a non-human checkpoint records from an agent run: the run's, or an
/// empty one.
pub open spec fn run_transcript(run: AgentRun) -> Seq<MessageView> {
    match run.transcript {
        Some(t) => t@,
        None => Seq::empty(),
    }
}

/// The checkpoint recorded for `entries` (see `checkpoint_step`): stamped `timestamp`,
/// its diff the combined hash of the file states; a non-human checkpoint made by an agent
/// run records the run's agent and conversation.
pub open spec fn stepped_checkpoint(
    human: bool,
    author: Seq<char>,
    run: Option<AgentRun>,
    combined_hash: Seq<char>,
    entries: Seq<WorkingLogEntry>,
    timestamp: u64,
) -> CheckpointView {
    let by_agent = !human && run is Some;
    CheckpointView {
        diff: combined_hash,
        author,
        entries: entries_view(entries),
        timestamp,
        transcript: if by_agent {
            Some(run_transcript(run.unwrap()))
        } else {
            None
        },
        agent_id: if by_agent {
            Some(run.unwrap().agent_id@)
        } else {
            None
        },
        allow_reset_to_checkpoint: false,
        pass_through_attribution_checkpoint: false,
    }
}

/// Who the summary names: the agent's tool for a non-human checkpoint made by an agent run,
/// else the author.
pub open spec fn summary_author(human: bool, author: Seq<char>, run: Option<AgentRun>) -> Seq<char> {
    if !human && run is Some {
        run.unwrap().agent_id@.tool
    } else {
        author
    }
}

/// The summary line as text (see `summary_text`).
fn summary_line(kind: &str, who: &str, with_entries: usize, total: usize) -> (r: String)
    requires
        with_entries <= total,
    ensures
        r@ == summary_text(kind@, who@, with_entries as nat, total as nat),
{
    let mut out: Vec<char> = to_chars(kind);
    extend_chars(&mut out, to_chars(" ").as_slice());
    extend_chars(&mut out, to_chars(who).as_slice());
    extend_chars(&mut out, to_chars(" changed ").as_slice());
    extend_chars(&mut out, u64_to_chars(with_entries as u64).as_slice());
    let label = if with_entries > 1 {
        "checkpoint"
    } else {
        "commit"
    };
    proof {
        assert(label@ == step_label(with_entries as nat));
    }
    if with_entries == total {
        extend_chars(&mut out, to_chars(" file(s) that have changed since the last ").as_slice());
        extend_chars(&mut out, to_chars(label).as_slice());
    } else {
        extend_chars(&mut out, to_chars(" of the ").as_slice());
        extend_chars(&mut out, u64_to_chars(total as u64).as_slice());
        extend_chars(&mut out, to_chars(" file(s) that have changed since the last ").as_slice());
        extend_chars(&mut out, to_chars(label).as_slice());
        extend_chars(&mut out, to_chars(" (").as_slice());
        extend_chars(&mut out, u64_to_chars((total - with_entries) as u64).as_slice());
        extend_chars(&mut out, to_chars(" already checkpointed)").as_slice());
    }
    let r = from_chars(out.as_slice());
    proof {
        let head = kind@ + " "@ + who@ + " changed "@ + decimal(with_entries as nat);
        if with_entries == total {
            assert(r@ =~= head + " file(s) that have changed since the last "@ + step_label(with_entries as nat));
        } else {
            assert(r@ =~= head + " of the "@ + decimal(total as nat) + " file(s) that have changed since the last "@
                + step_label(with_entries as nat) + " ("@ + decimal((total - with_entries) as nat)
                + " already checkpointed)"@);
        }
    }
    r
}

/// One run of the checkpoint command, after the changed files (`files_len` of them) have
/// been stored and their entries found: with no entry nothing is recorded; otherwise a
/// checkpoint of the entries is, made by `author` at `timestamp` with the combined hash of
/// the file states as its diff, and for a non-human checkpoint made by an agent run also
/// the run's agent and conversation (an empty one when the run has none). Unless `quiet`,
/// the summary line names the kind of checkpoint and the agent's tool (or the author).
pub fn checkpoint_step(
    human: bool,
    kind_name: &str,
    author: &str,
    agent_run: Option<AgentRun>,
    combined_hash: &str,
    entries: Vec<WorkingLogEntry>,
    timestamp: u64,
    files_len: usize,
    working_log_len: usize,
    quiet: bool,
) -> (r: CheckpointStep)
    requires
        !quiet ==> entries@.len() <= files_len,
        working_log_len < usize::MAX,
    ensures
        r.checkpoint is None <==> entries@.len() == 0,
        r.checkpoint matches Some(c) ==> c@ == stepped_checkpoint(
            human,
            author@,
            agent_run,
            combined_hash@,
            entries@,
            timestamp,
        ),
        quiet ==> r.summary is None,
        !quiet ==> (r.summary matches Some(s) && s@ == summary_text(
            kind_name@,
            summary_author(human, author@, agent_run),
            entries@.len(),
            files_len as nat,
        )),
        r.entries_len == entries@.len(),
        r.files_len == files_len,
        r.working_log_len == working_log_len + if entries@.len() > 0 { 1int } else { 0int },
{
    let entries_len = entries.len();
    let ghost ev = entries@;
    let ghost run0 = agent_run;
    let by_agent = !human && agent_run.is_some();
    let who: String = match &agent_run {
        Some(run) => if !human {
            run.agent_id.tool.clone()
        } else {
            String::from_str(author)
        },
        None => String::from_str(author),
    };
    proof {
        assert(who@ == summary_author(human, author@, run0));
    }
    let summary = if quiet {
        None
    } else {
        Some(summary_line(kind_name, who.as_str(), entries_len, files_len))
    };
    if entries_len == 0 {
        return CheckpointStep { checkpoint: None, summary, entries_len, files_len, working_log_len };
    }
    let mut checkpoint = Checkpoint::new_at(String::from_str(combined_hash), String::from_str(author), entries, timestamp);
    if by_agent {
        match agent_run {
            Some(run) => {
                let t = match run.transcript {
                    Some(t) => t,
                    None => AiTranscript::new(),
                };
                proof {
                    assert(t@ =~= run_transcript(run0.unwrap()));
                }
                checkpoint.transcript = Some(t);
                checkpoint.agent_id = Some(run.agent_id);
            },
            None => {},
        }
    }
    proof {
        assert(checkpoint@ == stepped_checkpoint(human, author@, run0, combined_hash@, ev, timestamp));
    }
    CheckpointStep { checkpoint: Some(checkpoint), summary, entries_len, files_len, working_log_len: working_log_len + 1 }
}

/// Whether some attribution of `las` covers line `x`.
pub open spec fn attrs_cover(las: Seq<LineAttrView>, x: int) -> bool {
    exists|k: int| 0 <= k < las.len() && #[trigger] las[k].start_line <= x <= las[k].end_line
}

/// The blamed lines and their authors, as plain values.
pub open spec fn blames_view(b: Seq<(u32, String)>) -> Seq<(u32, Seq<char>)> {
    b.map_values(|p: (u32, String)| (p.0, p.1@))
}

/// Whether blame names an author for line `x`.
pub open spec fn blamed_line(blames: Seq<(u32, Seq<char>)>, x: int) -> bool {
    exists|k: int| 0 <= k < blames.len() && #[trigger] blames[k].0 == x
}

/// The line `x` given to `author`, as an attribution of its own.
pub open spec fn single_attr(x: int, author: Seq<char>) -> LineAttrView {
    LineAttrView { start_line: x as u32, end_line: x as u32, author_id: author, overridden: false }
}

/// The blamed lines that no INITIAL attribution covers and whose author is not the human
/// name, each as an attribution of its own, in the order of `blames`.
pub open spec fn blame_additions(initial: Seq<LineAttrView>, blames: Seq<(u32, Seq<char>)>, human_name: Seq<char>) -> Seq<
    LineAttrView,
>
    decreases blames.len(),
{
    if blames.len() == 0 {
        Seq::empty()
    } else {
        let p = blame_additions(initial, blames.drop_last(), human_name);
        let b = blames.last();
        if !attrs_cover(initial, b.0 as int) && b.1 != human_name {
            p.push(single_attr(b.0 as int, b.1))
        } else {
            p
        }
    }
}

/// The lines `1..=n` that neither INITIAL nor blame accounts for, each given to `author_id`,
/// in increasing order.
pub open spec fn unclaimed_lines(initial: Seq<LineAttrView>, blames: Seq<(u32, Seq<char>)>, author_id: Seq<char>, n: nat) -> Seq<
    LineAttrView,
>
    decreases n,
{
    if n == 0 {
        Seq::empty()
    } else {
        let p = unclaimed_lines(initial, blames, author_id, (n - 1) as nat);
        if !attrs_cover(initial, n as int) && !blamed_line(blames, n as int) {
            p.push(single_attr(n as int, author_id))
        } else {
            p
        }
    }
}

/// The attributions a file starts from when no earlier checkpoint holds it: the INITIAL
/// attributions first (they win), then blame's authors for the other lines except the
/// human's, and for a non-human checkpoint the lines of the current content
/// (`total_lines`) that neither accounts for, given to the checkpoint's author.
pub open spec fn initial_and_blame(
    initial: Seq<LineAttrView>,
    blames: Seq<(u32, Seq<char>)>,
    human_name: Seq<char>,
    human: bool,
    author_id: Seq<char>,
    total_lines: nat,
) -> Seq<LineAttrView> {
    initial + blame_additions(initial, blames, human_name) + if human {
        Seq::<LineAttrView>::empty()
    } else {
        unclaimed_lines(initial, blames, author_id, total_lines)
    }
}

/// Whether some attribution covers line `x`.
fn covers_line(initial: &Vec<LineAttribution>, x: u32) -> (r: bool)
    ensures
        r == attrs_cover(line_attrs_view(initial@), x as int),
{
    let ghost iv = line_attrs_view(initial@);
    let mut k: usize = 0;
    while k < initial.len()
        invariant
            iv == line_attrs_view(initial@),
            k <= initial@.len(),
            forall|j: int| 0 <= j < k ==> !(#[trigger] iv[j].start_line <= x <= iv[j].end_line),
        decreases initial.len() - k,
    {
        if initial[k].start_line <= x && x <= initial[k].end_line {
            proof {
                assert(iv[k as int].start_line <= x <= iv[k as int].end_line);
            }
            return true;
        }
        k = k + 1;
    }
    false
}

/// Whether blame names an author for line `x`.
fn is_blamed(blames: &[(u32, String)], x: u32) -> (r: bool)
    ensures
        r == blamed_line(blames_view(blames@), x as int),
{
    let ghost bv = blames_view(blames@);
    let mut k: usize = 0;
    while k < blames.len()
        invariant
            bv == blames_view(blames@),
            k <= blames@.len(),
            forall|j: int| 0 <= j < k ==> #[trigger] bv[j].0 != x,
        decreases blames.len() - k,
    {
        if blames[k].0 == x {
            proof {
                assert(bv[k as int].0 == x);
            }
            return true;
        }
        k = k + 1;
    }
    false
}

/// The attributions a file starts from when no earlier checkpoint holds it (see
/// `initial_and_blame`): `initial` are the file's INITIAL attributions, `blames` the line
/// authors that blame gives at the head commit (`human_name` is the name it gives human
/// lines), `human` whether the checkpoint is a human one, `author_id` its author and
/// `total_lines` the number of lines of the current content.
pub fn merge_initial_and_blame(
    initial: Vec<LineAttribution>,
    blames: &[(u32, String)],
    human_name: &str,
    human: bool,
    author_id: &str,
    total_lines: u32,
) -> (r: Vec<LineAttribution>)
    ensures
        line_attrs_view(r@) == initial_and_blame(
            line_attrs_view(initial@),
            blames_view(blames@),
            human_name@,
            human,
            author_id@,
            total_lines as nat,
        ),
{
    let ghost iv = line_attrs_view(initial@);
    let ghost bv = blames_view(blames@);
    let mut out: Vec<LineAttribution> = Vec::new();
    let mut k: usize = 0;
    while k < initial.len()
        invariant
            iv == line_attrs_view(initial@),
            k <= initial@.len(),
            out@.len() == k,
            line_attrs_view(out@) == iv.take(k as int),
        decreases initial.len() - k,
    {
        let ghost prev = out@;
        let a = LineAttribution {
            start_line: initial[k].start_line,
            end_line: initial[k].end_line,
            author_id: initial[k].author_id.clone(),
            overridden: initial[k].overridden,
        };
        proof {
            assert(a@ == iv[k as int]);
        }
        out.push(a);
        proof {
            assert(out@ =~= prev.push(a));
            assert(line_attrs_view(out@) =~= iv.take(k + 1));
        }
        k = k + 1;
    }
    proof {
        assert(iv.take(iv.len() as int) =~= iv);
        assert(blames_view(blames@).take(0) =~= Seq::<(u32, Seq<char>)>::empty());
        assert(line_attrs_view(out@) =~= iv + blame_additions(iv, bv.take(0), human_name@));
    }
    let mut i: usize = 0;
    while i < blames.len()
        invariant
            iv == line_attrs_view(initial@),
            bv == blames_view(blames@),
            i <= blames@.len(),
            line_attrs_view(out@) == iv + blame_additions(iv, bv.take(i as int), human_name@),
        decreases blames.len() - i,
    {
        let line = blames[i].0;
        proof {
            assert(bv.take(i + 1).drop_last() =~= bv.take(i as int));
            assert(bv.take(i + 1).last() == (line, blames@[i as int].1@));
        }
        if !covers_line(&initial, line) && !str_eq(blames[i].1.as_str(), human_name) {
            let ghost prev = out@;
            out.push(LineAttribution {
                start_line: line,
                end_line: line,
                author_id: blames[i].1.clone(),
                overridden: false,
            });
            proof {
                assert(out@ =~= prev.push(out@[prev.len() as int]));
                assert(line_attrs_view(out@) =~= line_attrs_view(prev).push(single_attr(line as int, blames@[i as int].1@)));
            }
        }
        i = i + 1;
    }
    proof {
        assert(bv.take(bv.len() as int) =~= bv);
    }
    let ghost base = line_attrs_view(out@);
    if !human {
        let mut n: u32 = 0;
        proof {
            assert(line_attrs_view(out@) =~= base + unclaimed_lines(iv, bv, author_id@, 0));
        }
        while n < total_lines
            invariant
                iv == line_attrs_view(initial@),
                bv == blames_view(blames@),
                n <= total_lines,
                line_attrs_view(out@) == base + unclaimed_lines(iv, bv, author_id@, n as nat),
            decreases total_lines - n,
        {
            n = n + 1;
            if !covers_line(&initial, n) && !is_blamed(blames, n) {
                let ghost prev = out@;
                out.push(LineAttribution { start_line: n, end_line: n, author_id: String::from_str(author_id), overridden: false });
                proof {
                    assert(out@ =~= prev.push(out@[prev.len() as int]));
                    assert(line_attrs_view(out@) =~= line_attrs_view(prev).push(single_attr(n as int, author_id@)));
                }
            }
        }
    } else {
        proof {
            assert(line_attrs_view(out@) =~= base + Seq::<LineAttrView>::empty());
        }
    }
    out
}

} // verus!
