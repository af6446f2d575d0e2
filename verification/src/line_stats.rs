//! Counting the lines that a checkpoint adds and deletes, with the line diff of `similar`.

use vstd::prelude::*;
use vstd::string::*;

use crate::log_format::{chars_view, lines_of, text_lines};

verus! {

/// What a line of a diff does.
#[derive(Debug, Clone, Copy, PartialEq, Eq, Structural)]
pub enum LineChangeKind {
    Equal,
    Delete,
    Insert,
}

/// One line of a diff: what it does, and the line with its line end.
pub struct LineChange {
    pub kind: LineChangeKind,
    pub value: String,
}

/// The plain values of a list of line changes.
pub open spec fn changes_view(v: Seq<LineChange>) -> Seq<(LineChangeKind, Seq<char>)> {
    v.map_values(|c: LineChange| (c.kind, c.value@))
}

/// The changes that `similar` gives for a line diff of `old` into `new`.
pub uninterp spec fn similar_line_diff(old: Seq<char>, new: Seq<char>) -> Seq<(LineChangeKind, Seq<char>)>;

/// The line diff of `old` into `new` by `similar`: `TextDiff::from_lines(old, new)` with
/// its default configuration (Myers, no deadline), every change of `iter_all_changes`
/// with its tag and value. The contract names the result.
#[verifier::external_body]
fn diff_lines(old: &str, new: &str) -> (r: Vec<LineChange>)
    ensures
        changes_view(r@) == similar_line_diff(old@, new@),
{
    let mut r = Vec::new();
    for c in similar::TextDiff::from_lines(old, new).iter_all_changes() {
        let kind = match c.tag() {
            similar::ChangeTag::Equal => LineChangeKind::Equal,
            similar::ChangeTag::Delete => LineChangeKind::Delete,
            similar::ChangeTag::Insert => LineChangeKind::Insert,
        };
        r.push(LineChange { kind, value: c.value().to_string() });
    }
    r
}

/// Whether a character is white space (Unicode `White_Space`, as `char::is_whitespace`).
pub open spec fn is_white(c: char) -> bool {
    let v = c as u32;
    (0x9 <= v <= 0xd) || v == 0x20 || v == 0x85 || v == 0xa0 || v == 0x1680 || (0x2000 <= v <= 0x200a) || v
        == 0x2028 || v == 0x2029 || v == 0x202f || v == 0x205f || v == 0x3000
}

/// Whether a line holds only white space, so that trimming leaves nothing.
pub open spec fn is_blank(l: Seq<char>) -> bool {
    forall|k: int| 0 <= k < l.len() ==> is_white(#[trigger] l[k])
}

/// How many lines of `ls` are not blank.
pub open spec fn source_lines(ls: Seq<Seq<char>>) -> nat
    decreases ls.len(),
{
    if ls.len() == 0 {
        0
    } else {
        source_lines(ls.drop_last()) + if is_blank(ls.last()) {
            0nat
        } else {
            1nat
        }
    }
}

/// Counts of added and deleted lines, all and not blank.
#[derive(Debug, Clone, Copy, PartialEq, Eq, Default)]
pub struct LineStats {
    pub additions: u32,
    pub deletions: u32,
    pub additions_sloc: u32,
    pub deletions_sloc: u32,
}

/// The counts of a list of changes, as whole numbers: added lines, deleted lines, added
/// lines that are not blank, deleted lines that are not blank.
pub open spec fn change_counts(cs: Seq<(LineChangeKind, Seq<char>)>) -> (int, int, int, int)
    decreases cs.len(),
{
    if cs.len() == 0 {
        (0, 0, 0, 0)
    } else {
        let p = change_counts(cs.drop_last());
        let (kind, value) = cs.last();
        let n = lines_of(value).len() as int;
        let s = source_lines(lines_of(value)) as int;
        match kind {
            LineChangeKind::Insert => (p.0 + n, p.1, p.2 + s, p.3),
            LineChangeKind::Delete => (p.0, p.1 + n, p.2, p.3 + s),
            LineChangeKind::Equal => p,
        }
    }
}

/// The counts of `st` with those of `cs` added.
pub open spec fn plus_counts(st: LineStats, c: (int, int, int, int)) -> (int, int, int, int) {
    (st.additions + c.0, st.deletions + c.1, st.additions_sloc + c.2, st.deletions_sloc + c.3)
}

/// Whether counts fit in `u32`.
pub open spec fn counts_fit(c: (int, int, int, int)) -> bool {
    c.0 <= u32::MAX && c.1 <= u32::MAX && c.2 <= u32::MAX && c.3 <= u32::MAX
}

/// The stats with the given counts.
pub open spec fn stats_of(c: (int, int, int, int)) -> LineStats {
    LineStats { additions: c.0 as u32, deletions: c.1 as u32, additions_sloc: c.2 as u32, deletions_sloc: c.3 as u32 }
}

/// Whether a character is white space (see `is_white`).
fn white(c: char) -> (r: bool)
    ensures
        r == is_white(c),
{
    let v = c as u32;
    (0x9 <= v && v <= 0xd) || v == 0x20 || v == 0x85 || v == 0xa0 || v == 0x1680 || (0x2000 <= v && v <= 0x200a)
        || v == 0x2028 || v == 0x2029 || v == 0x202f || v == 0x205f || v == 0x3000
}

/// Whether a line is blank (see `is_blank`).
fn blank(l: &[char]) -> (r: bool)
    ensures
        r == is_blank(l@),
{
    let mut i: usize = 0;
    while i < l.len()
        invariant
            i <= l.len(),
            forall|k: int| 0 <= k < i ==> is_white(#[trigger] l@[k]),
        decreases l.len() - i,
    {
        if !white(l[i]) {
            return false;
        }
        i = i + 1;
    }
    true
}

/// How many lines a change value holds, and how many of them are not blank.
fn value_counts(value: &str) -> (r: (u64, u64))
    ensures
        r.0 == lines_of(value@).len(),
        r.1 == source_lines(lines_of(value@)),
{
    let ls = text_lines(value);
    let ghost lv = chars_view(ls@);
    let mut src: u64 = 0;
    let mut i: usize = 0;
    proof {
        assert(lv.take(0) =~= Seq::<Seq<char>>::empty());
    }
    while i < ls.len()
        invariant
            i <= ls.len(),
            lv == chars_view(ls@),
            lv == lines_of(value@),
            src == source_lines(lv.take(i as int)),
            src <= i,
        decreases ls.len() - i,
    {
        proof {
            assert(lv.take(i + 1).drop_last() =~= lv.take(i as int));
            assert(lv.take(i + 1).last() == ls@[i as int]@);
        }
        if !blank(ls[i].as_slice()) {
            src = src + 1;
        }
        i = i + 1;
    }
    proof {
        assert(lv.take(lv.len() as int) =~= lv);
    }
    (ls.len() as u64, src)
}

/// Adds the counts of the changes `changes` to `stats` (see `change_counts`).
pub fn tally_line_changes(stats: LineStats, changes: &[LineChange]) -> (r: LineStats)
    requires
        counts_fit(plus_counts(stats, change_counts(changes_view(changes@)))),
    ensures
        r == stats_of(plus_counts(stats, change_counts(changes_view(changes@)))),
{
    let ghost cv = changes_view(changes@);
    let mut st = stats;
    let mut i: usize = 0;
    proof {
        assert(cv.take(0) =~= Seq::<(LineChangeKind, Seq<char>)>::empty());
        lemma_counts_grow(cv, changes@.len() as int);
    }
    while i < changes.len()
        invariant
            i <= changes.len(),
            cv == changes_view(changes@),
            counts_fit(plus_counts(stats, change_counts(cv))),
            forall|j: int| 0 <= j <= cv.len() ==> counts_le(#[trigger] change_counts(cv.take(j)), change_counts(cv)),
            st == stats_of(plus_counts(stats, change_counts(cv.take(i as int)))),
            counts_fit(plus_counts(stats, change_counts(cv.take(i as int)))),
        decreases changes.len() - i,
    {
        let c = &changes[i];
        let (n, s) = value_counts(c.value.as_str());
        proof {
            assert(cv.take(i + 1).drop_last() =~= cv.take(i as int));
            assert(cv.take(i + 1).last() == (c.kind, c.value@));
            assert(counts_le(change_counts(cv.take(i + 1)), change_counts(cv)));
            lemma_counts_grow(cv.take(i as int), i as int);
            let p = change_counts(cv.take(i as int));
            let q = change_counts(cv.take(i + 1));
            assert(q == match c.kind {
                LineChangeKind::Insert => (p.0 + n, p.1, p.2 + s, p.3),
                LineChangeKind::Delete => (p.0, p.1 + n, p.2, p.3 + s),
                LineChangeKind::Equal => p,
            });
        }
        match c.kind {
            LineChangeKind::Insert => {
                st.additions = (st.additions as u64 + n) as u32;
                st.additions_sloc = (st.additions_sloc as u64 + s) as u32;
            },
            LineChangeKind::Delete => {
                st.deletions = (st.deletions as u64 + n) as u32;
                st.deletions_sloc = (st.deletions_sloc as u64 + s) as u32;
            },
            LineChangeKind::Equal => {},
        }
        i = i + 1;
    }
    proof {
        assert(cv.take(cv.len() as int) =~= cv);
    }
    st
}

/// Whether each count of `a` is at most that of `b`.
pub open spec fn counts_le(a: (int, int, int, int), b: (int, int, int, int)) -> bool {
    a.0 <= b.0 && a.1 <= b.1 && a.2 <= b.2 && a.3 <= b.3
}

/// Counts only grow along a list of changes, and are never negative.
proof fn lemma_counts_grow(cs: Seq<(LineChangeKind, Seq<char>)>, upto: int)
    requires
        upto == cs.len(),
    ensures
        forall|j: int| 0 <= j <= cs.len() ==> counts_le(#[trigger] change_counts(cs.take(j)), change_counts(cs)),
        counts_le((0, 0, 0, 0), change_counts(cs)),
    decreases cs.len(),
{
    if cs.len() > 0 {
        let d = cs.drop_last();
        lemma_counts_grow(d, d.len() as int);
        lemma_source_le(lines_of(cs.last().1));
        assert forall|j: int| 0 <= j <= cs.len() implies counts_le(#[trigger] change_counts(cs.take(j)), change_counts(cs)) by {
            if j < cs.len() {
                assert(cs.take(j) =~= d.take(j));
            } else {
                assert(cs.take(j) =~= cs);
            }
        }
    } else {
        assert forall|j: int| 0 <= j <= cs.len() implies counts_le(#[trigger] change_counts(cs.take(j)), change_counts(cs)) by {
            assert(cs.take(j) =~= cs);
        }
    }
}

/// The lines that are not blank are no more than the lines.
proof fn lemma_source_le(ls: Seq<Seq<char>>)
    ensures
        source_lines(ls) <= ls.len(),
    decreases ls.len(),
{
    if ls.len() > 0 {
        lemma_source_le(ls.drop_last());
    }
}

/// Whether adding the counts of `changes` to `stats` keeps every count within `u32`.
pub fn tally_fits(stats: LineStats, changes: &[LineChange]) -> (r: bool)
    ensures
        r == counts_fit(plus_counts(stats, change_counts(changes_view(changes@)))),
{
    let ghost cv = changes_view(changes@);
    let mut a: u64 = stats.additions as u64;
    let mut d: u64 = stats.deletions as u64;
    let mut sa: u64 = stats.additions_sloc as u64;
    let mut sd: u64 = stats.deletions_sloc as u64;
    let mut i: usize = 0;
    proof {
        assert(cv.take(0) =~= Seq::<(LineChangeKind, Seq<char>)>::empty());
        lemma_counts_grow(cv, cv.len() as int);
    }
    while i < changes.len()
        invariant
            i <= changes.len(),
            cv == changes_view(changes@),
            forall|j: int| 0 <= j <= cv.len() ==> counts_le(#[trigger] change_counts(cv.take(j)), change_counts(cv)),
            (a as int, d as int, sa as int, sd as int) == plus_counts(stats, change_counts(cv.take(i as int))),
            counts_fit(plus_counts(stats, change_counts(cv.take(i as int)))),
        decreases changes.len() - i,
    {
        let c = &changes[i];
        let (n, s) = value_counts(c.value.as_str());
        proof {
            assert(cv.take(i + 1).drop_last() =~= cv.take(i as int));
            assert(cv.take(i + 1).last() == (c.kind, c.value@));
            lemma_counts_grow(cv.take(i as int), i as int);
            lemma_source_le(lines_of(c.value@));
        }
        match c.kind {
            LineChangeKind::Insert => {
                if n > 0xffff_ffff || s > 0xffff_ffff {
                    proof {
                        assert(!counts_fit(plus_counts(stats, change_counts(cv.take(i + 1)))));
                        assert(counts_le(change_counts(cv.take(i + 1)), change_counts(cv)));
                    }
                    return false;
                }
                a = a + n;
                sa = sa + s;
            },
            LineChangeKind::Delete => {
                if n > 0xffff_ffff || s > 0xffff_ffff {
                    proof {
                        assert(!counts_fit(plus_counts(stats, change_counts(cv.take(i + 1)))));
                        assert(counts_le(change_counts(cv.take(i + 1)), change_counts(cv)));
                    }
                    return false;
                }
                d = d + n;
                sd = sd + s;
            },
            LineChangeKind::Equal => {},
        }
        i = i + 1;
        if a > 0xffff_ffff || d > 0xffff_ffff || sa > 0xffff_ffff || sd > 0xffff_ffff {
            proof {
                assert(counts_le(change_counts(cv.take(i as int)), change_counts(cv)));
            }
            return false;
        }
    }
    proof {
        assert(cv.take(cv.len() as int) =~= cv);
    }
    true
}

/// The counts of the line diffs of each `(previous, current)` pair of contents in turn.
pub open spec fn files_counts(files: Seq<(Seq<char>, Seq<char>)>) -> (int, int, int, int)
    decreases files.len(),
{
    if files.len() == 0 {
        (0, 0, 0, 0)
    } else {
        let p = files_counts(files.drop_last());
        let c = change_counts(similar_line_diff(files.last().0, files.last().1));
        (p.0 + c.0, p.1 + c.1, p.2 + c.2, p.3 + c.3)
    }
}

/// The plain values of a list of content pairs.
pub open spec fn pairs_view(v: Seq<(String, String)>) -> Seq<(Seq<char>, Seq<char>)> {
    v.map_values(|p: (String, String)| (p.0@, p.1@))
}

/// The line statistics of a checkpoint: for each file, given as its previous and current
/// content, the lines that the line diff adds and deletes, all of them and those that are
/// not blank, summed over the files; `None` when a count does not fit in `u32`.
pub fn compute_line_stats(files: &[(String, String)]) -> (r: Option<LineStats>)
    ensures
        r is Some <==> counts_fit(files_counts(pairs_view(files@))),
        r matches Some(st) ==> st == stats_of(files_counts(pairs_view(files@))),
{
    let ghost fv = pairs_view(files@);
    let mut st = LineStats { additions: 0, deletions: 0, additions_sloc: 0, deletions_sloc: 0 };
    let mut i: usize = 0;
    proof {
        assert(fv.take(0) =~= Seq::<(Seq<char>, Seq<char>)>::empty());
    }
    while i < files.len()
        invariant
            i <= files.len(),
            fv == pairs_view(files@),
            counts_fit(files_counts(fv.take(i as int))),
            st == stats_of(files_counts(fv.take(i as int))),
            counts_le((0, 0, 0, 0), files_counts(fv.take(i as int))),
        decreases files.len() - i,
    {
        let changes = diff_lines(files[i].0.as_str(), files[i].1.as_str());
        proof {
            assert(fv.take(i + 1).drop_last() =~= fv.take(i as int));
            assert(fv.take(i + 1).last() == (files@[i as int].0@, files@[i as int].1@));
            lemma_counts_grow(changes_view(changes@), changes@.len() as int);
        }
        if !tally_fits(st, changes.as_slice()) {
            proof {
                lemma_files_counts_grow(fv, i + 1);
            }
            return None;
        }
        st = tally_line_changes(st, changes.as_slice());
        i = i + 1;
    }
    proof {
        assert(fv.take(fv.len() as int) =~= fv);
    }
    Some(st)
}

/// The counts of the first files are at most those of all files.
proof fn lemma_files_counts_grow(fv: Seq<(Seq<char>, Seq<char>)>, k: int)
    requires
        0 <= k <= fv.len(),
    ensures
        counts_le(files_counts(fv.take(k)), files_counts(fv)),
    decreases fv.len() - k,
{
    if k < fv.len() {
        lemma_files_counts_grow(fv, k + 1);
        assert(fv.take(k + 1).drop_last() =~= fv.take(k));
        lemma_counts_grow(similar_line_diff(fv[k].0, fv[k].1), similar_line_diff(fv[k].0, fv[k].1).len() as int);
    } else {
        assert(fv.take(k) =~= fv);
    }
}

} // verus!
