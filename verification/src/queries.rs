//! Reading an authorship log back: who wrote a line, and the log as working log lines.

use vstd::prelude::*;
use vstd::string::*;

use crate::authorship_log::{AttestationView, Author, AuthorshipLog, PromptRecord, PromptView, any_contains, first_file, has_file};
use crate::line_range::{covered, holds_line, lemma_holds_push, strictly_increasing};
use crate::working_log::{Line, lines_cover};

verus! {

/// `j` is the last entry of `es` that covers `line` and whose hash names a prompt of `p`.
pub open spec fn attributed_at(es: Seq<AttestationView>, p: Map<Seq<char>, PromptView>, line: int, j: int) -> bool {
    &&& 0 <= j < es.len()
    &&& covered(es[j].line_ranges, line)
    &&& p.contains_key(es[j].hash)
    &&& forall|k: int| j < k < es.len() ==> !(covered(es[k].line_ranges, line) && p.contains_key(#[trigger] es[k].hash))
}

impl AuthorshipLog {
    /// Who wrote line `line` of `file`: among the entries of the file's first attestation
    /// that cover the line and name a known prompt, the last one wins. The author is the
    /// prompt's agent tool, with no email.
    pub fn get_line_attribution(&self, file: &str, line: u32) -> (r: Option<(Author, Option<&PromptRecord>)>)
        ensures
            r is Some <==> exists|i: int, j: int| #![trigger first_file(self@.attestations, file@, i), self@.attestations[i].entries[j]]
                first_file(self@.attestations, file@, i) && attributed_at(
                    self@.attestations[i].entries,
                    self@.prompts,
                    line as int,
                    j,
                ),
            r matches Some((a, pr)) ==> exists|i: int, j: int| #![trigger first_file(self@.attestations, file@, i), self@.attestations[i].entries[j]]
                first_file(self@.attestations, file@, i) && attributed_at(
                    self@.attestations[i].entries,
                    self@.prompts,
                    line as int,
                    j,
                ) && pr is Some && pr.unwrap()@ == self@.prompts[self@.attestations[i].entries[j].hash]
                    && a.username@ == pr.unwrap()@.agent_id.tool && a.email@ == Seq::<char>::empty(),
    {
        let idx = match self.find_file(file) {
            Some(i) => i,
            None => {
                return None;
            },
        };
        let ghost fs = self@.attestations;
        let ghost es = fs[idx as int].entries;
        let entries = &self.attestations[idx].entries;
        assert(es == crate::authorship_log::attestations_view(entries@));
        let mut j: usize = entries.len();
        while j > 0
            invariant
                j <= entries@.len(),
                es == crate::authorship_log::attestations_view(entries@),
                first_file(fs, file@, idx as int),
                fs == self@.attestations,
                es == fs[idx as int].entries,
                forall|k: int| j <= k < es.len() ==> !(covered(es[k].line_ranges, line as int) && self@.prompts.contains_key(#[trigger] es[k].hash)),
            decreases j,
        {
            j = j - 1;
            if any_contains(entries[j].line_ranges.as_slice(), line) {
                match self.metadata.prompts.get(entries[j].hash.as_str()) {
                    Some(pr) => {
                        let author = Author { username: pr.agent_id.tool.clone(), email: String::new() };
                        proof {
                            assert(attributed_at(es, self@.prompts, line as int, j as int));
                            assert(fs[idx as int].entries[j as int] == es[j as int]);
                        }
                        return Some((author, Some(pr)));
                    },
                    None => {},
                }
            }
        }
        proof {
            if exists|i: int, j: int| #![trigger first_file(fs, file@, i), fs[i].entries[j]]
                first_file(fs, file@, i) && attributed_at(fs[i].entries, self@.prompts, line as int, j) {
                let (i, t) = choose|i: int, j: int| #![trigger first_file(fs, file@, i), fs[i].entries[j]]
                    first_file(fs, file@, i) && attributed_at(fs[i].entries, self@.prompts, line as int, j);
                assert(i == idx);
                assert(!(covered(es[t].line_ranges, line as int) && self@.prompts.contains_key(es[t].hash)));
            }
        }
        None
    }
}

/// A working log line for the lines `s..=e`: `Single` when they are one line.
pub open spec fn wl_bounds(s: int, e: int) -> Line {
    if s == e {
        Line::Single(s as u32)
    } else {
        Line::Range(s as u32, e as u32)
    }
}

/// The line after `e` in wrapping `u32` arithmetic.
pub open spec fn wrapped_next(e: int) -> int {
    if e == u32::MAX {
        0
    } else {
        e + 1
    }
}

/// The runs of consecutive lines of `ls`, left to right: a line extends the last run when
/// it equals that run's end plus one (in wrapping `u32` arithmetic).
pub open spec fn compress_wl(ls: Seq<u32>) -> Seq<Line>
    decreases ls.len(),
{
    if ls.len() == 0 {
        Seq::empty()
    } else if ls.len() == 1 {
        seq![Line::Single(ls[0])]
    } else {
        let p = compress_wl(ls.drop_last());
        let x = ls.last();
        if p.len() > 0 && x == wrapped_next(p.last().hi()) {
            p.drop_last().push(wl_bounds(p.last().lo(), x as int))
        } else {
            p.push(Line::Single(x))
        }
    }
}

/// One step of `compress_wl`, with the finished runs `r` and the open run `start..=end`.
proof fn lemma_compress_wl_step(ls: Seq<u32>, i: int, r: Seq<Line>, start: int, end: int)
    requires
        1 <= i < ls.len(),
        0 <= start <= u32::MAX,
        0 <= end <= u32::MAX,
        compress_wl(ls.subrange(0, i)) == r.push(wl_bounds(start, end)),
    ensures
        ls[i] == wrapped_next(end) ==> compress_wl(ls.subrange(0, i + 1)) == r.push(wl_bounds(start, ls[i] as int)),
        ls[i] != wrapped_next(end) ==> compress_wl(ls.subrange(0, i + 1)) == r.push(wl_bounds(start, end)).push(
            wl_bounds(ls[i] as int, ls[i] as int),
        ),
{
    let cur = ls.subrange(0, i + 1);
    assert(cur.drop_last() =~= ls.subrange(0, i));
    assert(cur.last() == ls[i]);
    let p = r.push(wl_bounds(start, end));
    assert(p.last() == wl_bounds(start, end));
    assert(p.drop_last() =~= r);
}

/// Compresses line numbers into working log lines: runs of consecutive lines become ranges.
/// For strictly increasing input the result covers exactly the given lines.
#[verifier::spinoff_prover]
#[verifier::rlimit(40)]
pub fn compress_lines_to_working_log_format(lines: &[u32]) -> (r: Vec<Line>)
    ensures
        r@ == compress_wl(lines@),
        strictly_increasing(lines@) ==> forall|x: int| lines_cover(r@, x) <==> holds_line(lines@, x),
{
    let mut r: Vec<Line> = Vec::new();
    if lines.len() == 0 {
        return r;
    }
    let mut start: u32 = lines[0];
    let mut end: u32 = lines[0];
    let mut i: usize = 1;
    proof {
        assert(lines@.subrange(0, 1) =~= seq![lines@[0]]);
        assert(compress_wl(lines@.subrange(0, 1)) =~= r@.push(wl_bounds(start as int, end as int)));
        assert forall|x: int| (lines_cover(r@, x) || (start <= x <= end)) <==> holds_line(lines@.subrange(0, 1), x) by {
            lemma_holds_push(Seq::<u32>::empty(), lines@[0], x);
            assert(Seq::<u32>::empty().push(lines@[0]) =~= lines@.subrange(0, 1));
        }
    }
    while i < lines.len()
        invariant
            1 <= i <= lines.len(),
            compress_wl(lines@.subrange(0, i as int)) == r@.push(wl_bounds(start as int, end as int)),
            strictly_increasing(lines@) ==> {
                &&& start <= end
                &&& end == lines@[i - 1]
                &&& forall|x: int| #[trigger] lines_cover(r@, x) || (start <= x <= end) <==> holds_line(lines@.subrange(0, i as int), x)
                &&& forall|k: int| 0 <= k < r@.len() ==> (#[trigger] r@[k]).hi() < start
            },
        decreases lines.len() - i,
    {
        let line = lines[i];
        let ghost prev = lines@.subrange(0, i as int);
        let ghost old_r = r@;
        let ghost old_start = start;
        let ghost old_end = end;
        proof {
            assert(lines@.subrange(0, i + 1) =~= prev.push(line));
            lemma_compress_wl_step(lines@, i as int, r@, start as int, end as int);
            assert(end.wrapping_add(1) == wrapped_next(end as int));
        }
        if line == end.wrapping_add(1) {
            end = line;
            proof {
                if strictly_increasing(lines@) {
                    assert(lines@[i - 1] < lines@[i as int]);
                    assert forall|x: int| #[trigger] lines_cover(r@, x) || (start <= x <= end) <==> holds_line(lines@.subrange(0, i + 1), x) by {
                        lemma_holds_push(prev, line, x);
                        assert(lines_cover(old_r, x) || (old_start <= x <= old_end) <==> holds_line(prev, x));
                    }
                }
            }
        } else {
            let piece = if start == end {
                Line::Single(start)
            } else {
                Line::Range(start, end)
            };
            r.push(piece);
            start = line;
            end = line;
            proof {
                assert(piece == wl_bounds(old_start as int, old_end as int));
                if strictly_increasing(lines@) {
                    assert(lines@[i - 1] < lines@[i as int]);
                    assert forall|x: int| #[trigger] lines_cover(r@, x) || (start <= x <= end) <==> holds_line(lines@.subrange(0, i + 1), x) by {
                        lemma_holds_push(prev, line, x);
                        assert(lines_cover(old_r, x) || (old_start <= x <= old_end) <==> holds_line(prev, x));
                        if lines_cover(r@, x) {
                            let k = choose|k: int| 0 <= k < r@.len() && #[trigger] r@[k].covers(x);
                            if k < old_r.len() {
                                assert(old_r[k].covers(x));
                            }
                        }
                        if lines_cover(old_r, x) {
                            let k = choose|k: int| 0 <= k < old_r.len() && #[trigger] old_r[k].covers(x);
                            assert(r@[k].covers(x));
                        }
                        if old_start <= x <= old_end {
                            assert(r@[old_r.len() as int].covers(x));
                        }
                    }
                }
            }
        }
        i = i + 1;
    }
    let ghost old_r = r@;
    let piece = if start == end {
        Line::Single(start)
    } else {
        Line::Range(start, end)
    };
    r.push(piece);
    proof {
        assert(lines@.subrange(0, lines@.len() as int) =~= lines@);
        assert(piece == wl_bounds(start as int, end as int));
        if strictly_increasing(lines@) {
            assert forall|x: int| lines_cover(r@, x) <==> holds_line(lines@, x) by {
                assert(lines_cover(old_r, x) || (start <= x <= end) <==> holds_line(lines@, x));
                if lines_cover(r@, x) {
                    let k = choose|k: int| 0 <= k < r@.len() && #[trigger] r@[k].covers(x);
                    if k < old_r.len() {
                        assert(old_r[k].covers(x));
                    }
                }
                if lines_cover(old_r, x) {
                    let k = choose|k: int| 0 <= k < old_r.len() && #[trigger] old_r[k].covers(x);
                    assert(r@[k].covers(x));
                }
                if start <= x <= end {
                    assert(r@[old_r.len() as int].covers(x));
                }
            }
        }
    }
    r
}

} // verus!
