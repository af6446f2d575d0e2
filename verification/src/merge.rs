//! Sorting and merging of line ranges and attestation entries.

use vstd::prelude::*;

use crate::line_range::{LineRange, bounds_range, canonical};

verus! {

/// Whether two ranges overlap or touch, with the bound arithmetic of `u32` (so that a
/// range ending at the largest line number touches nothing above it).
pub open spec fn can_merge(a: LineRange, b: LineRange) -> bool {
    a.lo() <= ((b.hi() + 1) as u32) && b.lo() <= ((a.hi() + 1) as u32)
}

/// The smallest range holding both ranges.
pub open spec fn merge_pair(a: LineRange, b: LineRange) -> LineRange {
    let s = if a.lo() <= b.lo() { a.lo() } else { b.lo() };
    let e = if a.hi() >= b.hi() { a.hi() } else { b.hi() };
    bounds_range(s, e)
}

/// Number of leading elements of `s` whose start is at most `key`, counted up to the first
/// that starts after it.
pub open spec fn place_by_start(s: Seq<LineRange>, key: int) -> nat
    decreases s.len(),
{
    if s.len() == 0 || s[0].lo() > key {
        0
    } else {
        1 + place_by_start(s.drop_first(), key)
    }
}

/// The ranges sorted by start, stably (a range goes after every earlier one that starts
/// no later).
pub open spec fn sort_by_start(rs: Seq<LineRange>) -> Seq<LineRange>
    decreases rs.len(),
{
    if rs.len() == 0 {
        Seq::empty()
    } else {
        let s = sort_by_start(rs.drop_last());
        let p = place_by_start(s, rs.last().lo()) as int;
        s.take(p).push(rs.last()) + s.skip(p)
    }
}

/// Folds sorted ranges left to right, merging each into the previous result when they
/// overlap or touch.
pub open spec fn merge_fold(s: Seq<LineRange>) -> Seq<LineRange>
    decreases s.len(),
{
    if s.len() == 0 {
        Seq::empty()
    } else {
        let m = merge_fold(s.drop_last());
        let c = s.last();
        if m.len() > 0 && can_merge(m.last(), c) {
            m.drop_last().push(merge_pair(m.last(), c))
        } else {
            m.push(c)
        }
    }
}

/// Overlapping and adjacent ranges merged, in order of start.
pub open spec fn merge_spec(rs: Seq<LineRange>) -> Seq<LineRange> {
    merge_fold(sort_by_start(rs))
}

/// `place_by_start` computed from the front.
proof fn lemma_place_step(s: Seq<LineRange>, key: int, p: int)
    requires
        0 <= p <= s.len(),
        forall|k: int| 0 <= k < p ==> (#[trigger] s[k]).lo() <= key,
        p == s.len() || s[p].lo() > key,
    ensures
        place_by_start(s, key) == p,
    decreases p,
{
    if p > 0 {
        let t = s.drop_first();
        assert forall|k: int| 0 <= k < p - 1 implies (#[trigger] t[k]).lo() <= key by {
            assert(t[k] == s[k + 1]);
        }
        if p < s.len() {
            assert(t[p - 1] == s[p]);
        }
        lemma_place_step(t, key, p - 1);
    }
}

/// Sorts ranges by start, stably.
pub fn sort_ranges_by_start(rs: &[LineRange]) -> (r: Vec<LineRange>)
    ensures
        r@ == sort_by_start(rs@),
{
    let mut r: Vec<LineRange> = Vec::new();
    let mut i: usize = 0;
    while i < rs.len()
        invariant
            i <= rs.len(),
            r@ == sort_by_start(rs@.subrange(0, i as int)),
        decreases rs.len() - i,
    {
        let c = rs[i];
        let key = c.start();
        let mut p: usize = 0;
        while p < r.len() && r[p].start() <= key
            invariant
                p <= r@.len(),
                forall|k: int| 0 <= k < p ==> (#[trigger] r@[k]).lo() <= key,
            decreases r.len() - p,
        {
            p = p + 1;
        }
        proof {
            lemma_place_step(r@, key as int, p as int);
            let cur = rs@.subrange(0, i + 1);
            assert(cur.drop_last() =~= rs@.subrange(0, i as int));
            assert(cur.last() == c);
        }
        let ghost old_r = r@;
        r.insert(p, c);
        proof {
            assert(r@ =~= old_r.take(p as int).push(c) + old_r.skip(p as int));
        }
        i = i + 1;
    }
    proof {
        assert(rs@.subrange(0, rs@.len() as int) =~= rs@);
    }
    r
}

/// Whether two ranges overlap or touch (see `can_merge`).
pub fn ranges_can_merge(range1: &LineRange, range2: &LineRange) -> (r: bool)
    ensures
        r == can_merge(*range1, *range2),
{
    let start1 = range1.start();
    let end1 = range1.end();
    let start2 = range2.start();
    let end2 = range2.end();
    proof {
        assert(end2.wrapping_add(1) == ((end2 + 1) as u32)) by (bit_vector);
        assert(end1.wrapping_add(1) == ((end1 + 1) as u32)) by (bit_vector);
    }
    start1 <= end2.wrapping_add(1) && start2 <= end1.wrapping_add(1)
}

/// The smallest range holding both ranges.
pub fn merge_ranges(range1: &LineRange, range2: &LineRange) -> (r: LineRange)
    ensures
        r == merge_pair(*range1, *range2),
{
    let start1 = range1.start();
    let end1 = range1.end();
    let start2 = range2.start();
    let end2 = range2.end();
    let start = if start1 <= start2 { start1 } else { start2 };
    let end = if end1 >= end2 { end1 } else { end2 };
    LineRange::from_bounds(start, end)
}

/// Merges overlapping and adjacent ranges, in order of start.
pub fn merge_line_ranges(ranges: &[LineRange]) -> (r: Vec<LineRange>)
    ensures
        r@ == merge_spec(ranges@),
{
    let sorted = sort_ranges_by_start(ranges);
    let mut merged: Vec<LineRange> = Vec::new();
    let mut i: usize = 0;
    while i < sorted.len()
        invariant
            i <= sorted@.len(),
            merged@ == merge_fold(sorted@.subrange(0, i as int)),
        decreases sorted.len() - i,
    {
        let current = sorted[i];
        proof {
            let cur = sorted@.subrange(0, i + 1);
            assert(cur.drop_last() =~= sorted@.subrange(0, i as int));
            assert(cur.last() == current);
        }
        let n = merged.len();
        if n > 0 && ranges_can_merge(&merged[n - 1], &current) {
            let m = merge_ranges(&merged[n - 1], &current);
            merged.set(n - 1, m);
            proof {
                let prev = merge_fold(sorted@.subrange(0, i as int));
                assert(merged@ =~= prev.drop_last().push(m));
            }
        } else {
            merged.push(current);
        }
        i = i + 1;
    }
    proof {
        assert(sorted@.subrange(0, sorted@.len() as int) =~= sorted@);
    }
    merged
}

/// Whether a range is well formed and ends below the largest line number, so that the
/// line after it can still be named.
pub open spec fn bounded_range(r: LineRange) -> bool {
    r.well_formed() && r.hi() < 0xffff_ffff
}

/// Whether every range of `rs` is bounded.
pub open spec fn all_bounded(rs: Seq<LineRange>) -> bool {
    forall|i: int| 0 <= i < rs.len() ==> bounded_range(#[trigger] rs[i])
}

/// Whether the starts of `rs` never decrease.
pub open spec fn starts_sorted(rs: Seq<LineRange>) -> bool {
    forall|i: int, j: int| 0 <= i < j < rs.len() ==> (#[trigger] rs[i]).lo() <= (#[trigger] rs[j]).lo()
}

/// Where `place_by_start` puts a range starting at `key`.
proof fn lemma_place_by_start(s: Seq<LineRange>, key: int)
    ensures
        place_by_start(s, key) <= s.len(),
        forall|k: int| 0 <= k < place_by_start(s, key) ==> (#[trigger] s[k]).lo() <= key,
        place_by_start(s, key) < s.len() ==> s[place_by_start(s, key) as int].lo() > key,
    decreases s.len(),
{
    if s.len() > 0 && s[0].lo() <= key {
        lemma_place_by_start(s.drop_first(), key);
        assert forall|k: int| 0 <= k < place_by_start(s, key) implies (#[trigger] s[k]).lo() <= key by {
            if k > 0 {
                assert(s[k] == s.drop_first()[k - 1]);
            }
        }
        if place_by_start(s, key) < s.len() {
            assert(s[place_by_start(s, key) as int] == s.drop_first()[place_by_start(s.drop_first(), key) as int]);
        }
    }
}

/// Sorting by start orders the starts and keeps every range bounded when all were.
proof fn lemma_sort_by_start(rs: Seq<LineRange>)
    ensures
        starts_sorted(sort_by_start(rs)),
        sort_by_start(rs).len() == rs.len(),
        all_bounded(rs) ==> all_bounded(sort_by_start(rs)),
    decreases rs.len(),
{
    if rs.len() > 0 {
        let rs2 = rs.drop_last();
        lemma_sort_by_start(rs2);
        if all_bounded(rs) {
            assert forall|i: int| 0 <= i < rs2.len() implies bounded_range(#[trigger] rs2[i]) by {
                assert(rs2[i] == rs[i]);
            }
        }
        let s = sort_by_start(rs2);
        let e = rs.last();
        let p = place_by_start(s, e.lo()) as int;
        lemma_place_by_start(s, e.lo());
        let r = s.take(p).push(e) + s.skip(p);
        assert(r == sort_by_start(rs));
        assert forall|k: int| 0 <= k < r.len() implies #[trigger] r[k] == (if k < p {
            s[k]
        } else if k == p {
            e
        } else {
            s[k - 1]
        }) by {
            if k < p {
                assert(r[k] == s.take(p)[k]);
            } else if k > p {
                assert(r[k] == s.skip(p)[k - p - 1]);
            }
        }
        assert forall|i: int, j: int| 0 <= i < j < r.len() implies (#[trigger] r[i]).lo() <= (#[trigger] r[j]).lo() by {
            if i == p && j > p {
                assert(s[p].lo() <= s[j - 1].lo());
            } else if i < p && j > p {
                assert(s[i].lo() <= s[j - 1].lo());
            } else if i > p {
                assert(s[i - 1].lo() <= s[j - 1].lo());
            }
        }
        if all_bounded(rs) {
            assert(bounded_range(rs[rs.len() - 1]));
            assert forall|k: int| 0 <= k < r.len() implies bounded_range(#[trigger] r[k]) by {
                if k < p {
                    assert(bounded_range(s[k]));
                } else if k > p {
                    assert(bounded_range(s[k - 1]));
                }
            }
        }
    }
}

/// Folding bounded ranges sorted by start gives canonical ranges, the last of which starts
/// no later than the last range folded in.
proof fn lemma_merge_fold(s: Seq<LineRange>)
    requires
        starts_sorted(s),
        all_bounded(s),
    ensures
        canonical(merge_fold(s)),
        all_bounded(merge_fold(s)),
        s.len() > 0 ==> merge_fold(s).len() > 0 && merge_fold(s).last().lo() <= s.last().lo(),
    decreases s.len(),
{
    if s.len() > 0 {
        let s2 = s.drop_last();
        assert forall|i: int, j: int| 0 <= i < j < s2.len() implies (#[trigger] s2[i]).lo() <= (#[trigger] s2[j]).lo() by {
            assert(s2[i] == s[i] && s2[j] == s[j]);
        }
        assert forall|i: int| 0 <= i < s2.len() implies bounded_range(#[trigger] s2[i]) by {
            assert(s2[i] == s[i]);
        }
        lemma_merge_fold(s2);
        let m = merge_fold(s2);
        let c = s.last();
        let r = merge_fold(s);
        assert(bounded_range(s[s.len() - 1]));
        if m.len() > 0 {
            assert(s2.last() == s[s.len() - 2]);
            assert(s[s.len() - 2].lo() <= c.lo());
            assert(bounded_range(m[m.len() - 1]));
        }
        if m.len() > 0 && can_merge(m.last(), c) {
            let a = m.last();
            let n = merge_pair(a, c);
            assert(n.lo() == a.lo());
            assert(n.hi() >= a.hi() && n.hi() >= c.hi());
            assert(bounded_range(n));
            assert forall|k: int| 0 <= k < r.len() implies bounded_range(#[trigger] r[k]) by {
                if k < r.len() - 1 {
                    assert(r[k] == m[k]);
                }
            }
            assert forall|k: int| 0 <= k < r.len() implies (#[trigger] r[k]).well_formed() by {
                assert(bounded_range(r[k]));
            }
            assert forall|i: int, j: int| 0 <= i < j < r.len() implies (#[trigger] r[i]).hi() + 1 < (#[trigger] r[j]).lo() by {
                assert(r[i] == m[i]);
                if j < r.len() - 1 {
                    assert(r[j] == m[j]);
                } else {
                    assert(m[i].hi() + 1 < m[m.len() - 1].lo());
                }
            }
        } else {
            if m.len() > 0 {
                let a = m.last();
                assert(c.lo() > a.hi() + 1);
                assert forall|i: int| 0 <= i < m.len() implies (#[trigger] m[i]).hi() + 1 < c.lo() by {
                    if i < m.len() - 1 {
                        assert(m[i].hi() + 1 < m[m.len() - 1].lo());
                        assert(bounded_range(m[m.len() - 1]));
                    }
                }
            }
            assert forall|k: int| 0 <= k < r.len() implies bounded_range(#[trigger] r[k]) by {
                if k < m.len() {
                    assert(r[k] == m[k]);
                }
            }
            assert forall|k: int| 0 <= k < r.len() implies (#[trigger] r[k]).well_formed() by {
                assert(bounded_range(r[k]));
            }
            assert forall|i: int, j: int| 0 <= i < j < r.len() implies (#[trigger] r[i]).hi() + 1 < (#[trigger] r[j]).lo() by {
                assert(r[i] == m[i]);
                if j < m.len() {
                    assert(r[j] == m[j]);
                }
            }
        }
    }
}

/// Merging well-formed ranges that end below the largest line number gives a canonical
/// list: ranges in increasing order, none touching or overlapping another.
pub proof fn lemma_merge_canonical(rs: Seq<LineRange>)
    requires
        all_bounded(rs),
    ensures
        canonical(merge_spec(rs)),
        all_bounded(merge_spec(rs)),
{
    lemma_sort_by_start(rs);
    lemma_merge_fold(sort_by_start(rs));
}

} // verus!
