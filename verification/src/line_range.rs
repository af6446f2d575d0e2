//! Line numbers and inclusive line ranges as recorded in authorship logs.

use vstd::prelude::*;

verus! {

/// A single line, or an inclusive range of lines.
#[derive(Clone, Copy, Debug, PartialEq, Eq, Structural)]
pub enum LineRange {
    Single(u32),
    Range(u32, u32),
}

/// Whether some range of `rs` covers line `x`.
pub open spec fn covered(rs: Seq<LineRange>, x: int) -> bool {
    exists|i: int| 0 <= i < rs.len() && #[trigger] rs[i].covers(x)
}

/// Whether the line list `ls` holds `x`.
pub open spec fn holds_line(ls: Seq<u32>, x: int) -> bool {
    exists|i: int| 0 <= i < ls.len() && #[trigger] ls[i] == x
}

/// Strictly increasing line numbers (sorted, no repeats).
pub open spec fn strictly_increasing(ls: Seq<u32>) -> bool {
    forall|i: int, j: int| 0 <= i < j < ls.len() ==> ls[i] < ls[j]
}

/// The lines `lo..=hi`, in increasing order.
pub open spec fn lines_between(lo: int, hi: int) -> Seq<u32> {
    Seq::new(if hi >= lo { (hi - lo + 1) as nat } else { 0 }, |k: int| (lo + k) as u32)
}

/// A compressed list: every range is well formed, written as `Single` exactly when it
/// holds one line, ranges are in increasing order, and no two of them touch or overlap.
pub open spec fn canonical(rs: Seq<LineRange>) -> bool {
    &&& forall|i: int| 0 <= i < rs.len() ==> (#[trigger] rs[i]).well_formed()
    &&& forall|i: int, j: int| 0 <= i < j < rs.len() ==> rs[i].hi() + 1 < rs[j].lo()
}

impl LineRange {
    /// First line of the range.
    pub open spec fn lo(self) -> int {
        match self {
            LineRange::Single(l) => l as int,
            LineRange::Range(s, _) => s as int,
        }
    }

    /// Last line of the range.
    pub open spec fn hi(self) -> int {
        match self {
            LineRange::Single(l) => l as int,
            LineRange::Range(_, e) => e as int,
        }
    }

    /// Whether line `x` lies in the range.
    pub open spec fn covers(self, x: int) -> bool {
        self.lo() <= x <= self.hi()
    }

    /// Non-empty, and `Single` exactly when it holds one line.
    pub open spec fn well_formed(self) -> bool {
        &&& self.lo() <= self.hi()
        &&& (self is Single) == (self.lo() == self.hi())
    }

    /// Number of lines in the range (zero for an inverted range).
    pub open spec fn size(self) -> int {
        if self.hi() >= self.lo() { self.hi() - self.lo() + 1 } else { 0 }
    }

    /// First line of the range.
    pub fn start(&self) -> (r: u32)
        ensures
            r == self.lo(),
    {
        match self {
            LineRange::Single(l) => *l,
            LineRange::Range(s, _) => *s,
        }
    }

    /// Last line of the range.
    pub fn end(&self) -> (r: u32)
        ensures
            r == self.hi(),
    {
        match self {
            LineRange::Single(l) => *l,
            LineRange::Range(_, e) => *e,
        }
    }

    /// The range from `s` to `e`, written as `Single` when `s == e`.
    pub fn from_bounds(s: u32, e: u32) -> (r: LineRange)
        ensures
            r.lo() == s,
            r.hi() == e,
            (r is Single) == (s == e),
    {
        if s == e {
            LineRange::Single(s)
        } else {
            LineRange::Range(s, e)
        }
    }

    /// Whether the range covers `line`.
    pub fn contains(&self, line: u32) -> (r: bool)
        ensures
            r == self.covers(line as int),
    {
        match self {
            LineRange::Single(l) => *l == line,
            LineRange::Range(s, e) => line >= *s && line <= *e,
        }
    }

    /// The individual lines of the range, in increasing order.
    pub fn expand(&self) -> (v: Vec<u32>)
        ensures
            v@ == lines_between(self.lo(), self.hi()),
    {
        let lo = self.start();
        let hi = self.end();
        let mut v: Vec<u32> = Vec::new();
        let mut l: u64 = lo as u64;
        while l <= hi as u64
            invariant
                lo == self.lo(),
                hi == self.hi(),
                lo <= l <= hi as u64 + 1 || (l == lo && lo > hi),
                l >= lo,
                v@ == lines_between(lo as int, l - 1),
            decreases hi as u64 + 1 - l,
        {
            v.push(l as u32);
            assert(v@ =~= lines_between(lo as int, l as int));
            l = l + 1;
        }
        assert(v@ =~= lines_between(lo as int, hi as int));
        v
    }

    /// The parts of this range that `other` does not cover.
    pub fn remove(&self, other: &LineRange) -> (r: Vec<LineRange>)
        ensures
            r@ == remove_spec(*self, *other),
            forall|x: int| covered(r@, x) <==> (self.covers(x) && !other.covers(x)),
            forall|i: int| 0 <= i < r@.len() ==> self.lo() <= (#[trigger] r@[i]).lo() && r@[i].hi() <= self.hi(),
            r@.len() <= 2,
    {
        let s = self.start();
        let e = self.end();
        let os = other.start();
        let oe = other.end();
        let mut r: Vec<LineRange> = Vec::new();
        if let LineRange::Single(_) = self {
            if !other.contains(s) {
                r.push(*self);
            }
            proof {
                assert forall|x: int| covered(r@, x) <==> (self.covers(x) && !other.covers(x)) by {
                    if covered(r@, x) {
                        let i = choose|i: int| 0 <= i < r@.len() && #[trigger] r@[i].covers(x);
                    }
                    if self.covers(x) && !other.covers(x) {
                        assert(r@[0].covers(x));
                    }
                }
            }
            return r;
        }
        if oe < s || os > e {
            r.push(*self);
            proof {
                assert forall|x: int| covered(r@, x) <==> (self.covers(x) && !other.covers(x)) by {
                    if self.covers(x) {
                        assert(r@[0].covers(x));
                    }
                }
            }
            return r;
        }
        if os > s {
            r.push(LineRange::from_bounds(s, os - 1));
        }
        if oe < e {
            r.push(LineRange::from_bounds(oe + 1, e));
        }
        proof {
            assert forall|x: int| covered(r@, x) <==> (self.covers(x) && !other.covers(x)) by {
                if covered(r@, x) {
                    let i = choose|i: int| 0 <= i < r@.len() && #[trigger] r@[i].covers(x);
                }
                if self.covers(x) && !other.covers(x) {
                    if x < os {
                        assert(r@[0].covers(x));
                    } else if os > s {
                        assert(r@[1].covers(x));
                    } else {
                        assert(r@[0].covers(x));
                    }
                }
            }
        }
        r
    }

    /// Moves the range when lines are inserted (`offset > 0`) or removed (`offset < 0`) at
    /// `insertion_point`: each bound at or after the insertion point moves by `offset`.
    /// The range is dropped when it would start before line 1, end before it starts, or
    /// reach past the largest line number. Lines at or after the insertion point move by
    /// `offset` and lines before it stay (see `lemma_shift_moves_lines`).
    pub fn shift(&self, insertion_point: u32, offset: i64) -> (r: Option<LineRange>)
        ensures
            r == shift_spec(*self, insertion_point as int, offset as int),
            (1 <= self.lo() <= self.hi() && (offset < 0 ==> forall|x: int|
                insertion_point + offset <= x < insertion_point ==> !self.covers(x))) ==> match r {
                Some(q) => {
                    &&& forall|x: int| x >= insertion_point ==> (#[trigger] self.covers(x) <==> q.covers(x + offset))
                    &&& forall|x: int| x < insertion_point && #[trigger] self.covers(x) ==> q.covers(x)
                    &&& forall|y: int|
                        #[trigger] q.covers(y) ==> {
                            ||| y < insertion_point && self.covers(y)
                            ||| y - offset >= insertion_point && self.covers(y - offset)
                            ||| offset > 0 && insertion_point <= y < insertion_point + offset && self.covers(
                                insertion_point - 1,
                            ) && self.covers(insertion_point as int)
                        }
                },
                None => exists|x: int|
                    #[trigger] self.covers(x) && x >= insertion_point && !(1 <= x + offset <= u32::MAX),
            },
    {
        proof {
            if 1 <= self.lo() <= self.hi() && (offset < 0 ==> forall|x: int|
                insertion_point + offset <= x < insertion_point ==> !self.covers(x)) {
                lemma_shift_moves_lines(*self, insertion_point as int, offset as int);
            }
        }
        match self {
            LineRange::Single(l) => {
                if *l >= insertion_point {
                    let n: i128 = *l as i128 + offset as i128;
                    if n > 0 && n <= u32::MAX as i128 {
                        Some(LineRange::Single(n as u32))
                    } else {
                        None
                    }
                } else {
                    Some(*self)
                }
            },
            LineRange::Range(s, e) => {
                let ns: i128 = if *s >= insertion_point { *s as i128 + offset as i128 } else { *s as i128 };
                let ne: i128 = if *e >= insertion_point { *e as i128 + offset as i128 } else { *e as i128 };
                if ns > 0 && ne >= ns && ne <= u32::MAX as i128 {
                    Some(LineRange::Range(ns as u32, ne as u32))
                } else {
                    None
                }
            },
        }
    }

    /// Compresses a list of lines into ranges of consecutive lines. The result covers
    /// exactly the given lines; for strictly increasing input it is canonical.
    #[verifier::spinoff_prover]
    #[verifier::rlimit(40)]
    pub fn compress_lines(lines: &[u32]) -> (r: Vec<LineRange>)
        ensures
            r@ == compress_spec(lines@),
            forall|x: int| covered(r@, x) <==> holds_line(lines@, x),
            strictly_increasing(lines@) ==> canonical(r@),
            lines@.len() == 0 ==> r@.len() == 0,
    {
        let mut r: Vec<LineRange> = Vec::new();
        if lines.len() == 0 {
            return r;
        }
        let mut start: u32 = lines[0];
        let mut end: u32 = lines[0];
        let mut i: usize = 1;
        proof {
            assert(lines@.subrange(0, 1) =~= Seq::<u32>::empty().push(lines@[0]));
            assert(compress_spec(lines@.subrange(0, 1)) =~= r@.push(bounds_range(start as int, end as int)));
            assert forall|x: int| (covered(r@, x) || (start <= x <= end)) <==> holds_line(lines@.subrange(0, 1), x) by {
                lemma_holds_push(Seq::<u32>::empty(), lines@[0], x);
            }
        }
        while i < lines.len()
            invariant
                1 <= i <= lines.len(),
                start <= end,
                compress_spec(lines@.subrange(0, i as int)) == r@.push(bounds_range(start as int, end as int)),
                forall|x: int| (covered(r@, x) || (start <= x <= end)) <==> holds_line(lines@.subrange(0, i as int), x),
                strictly_increasing(lines@) ==> {
                    &&& canonical(r@)
                    &&& end == lines@[i - 1]
                    &&& forall|k: int| 0 <= k < r@.len() ==> (#[trigger] r@[k]).hi() + 1 < start
                },
            decreases lines.len() - i,
        {
            let line = lines[i];
            let ghost prev = lines@.subrange(0, i as int);
            assert(lines@.subrange(0, i + 1) =~= prev.push(line));
            let ghost old_end = end;
            let ghost old_start = start;
            proof {
                lemma_compress_step(lines@, i as int, r@, start as int, end as int);
            }
            if end < u32::MAX && line == end + 1 {
                end = line;
                proof {
                    assert forall|x: int| (covered(r@, x) || (start <= x <= end)) <==> holds_line(lines@.subrange(0, i + 1), x) by {
                        lemma_holds_push(prev, line, x);
                        assert((covered(r@, x) || (old_start <= x <= old_end)) <==> holds_line(prev, x));
                    }
                }
            } else {
                let ghost old_r = r@;
                let piece = LineRange::from_bounds(start, end);
                r.push(piece);
                proof {
                    assert forall|x: int| covered(r@, x) <==> (covered(old_r, x) || piece.covers(x)) by {
                        if covered(r@, x) {
                            let k = choose|k: int| 0 <= k < r@.len() && #[trigger] r@[k].covers(x);
                            if k < old_r.len() {
                                assert(old_r[k].covers(x));
                            }
                        }
                        if covered(old_r, x) {
                            let k = choose|k: int| 0 <= k < old_r.len() && #[trigger] old_r[k].covers(x);
                            assert(r@[k].covers(x));
                        }
                        if piece.covers(x) {
                            assert(r@[old_r.len() as int].covers(x));
                        }
                    }
                }
                start = line;
                end = line;
                proof {
                    assert forall|x: int| (covered(r@, x) || (start <= x <= end)) <==> holds_line(lines@.subrange(0, i + 1), x) by {
                        lemma_holds_push(prev, line, x);
                        assert((covered(old_r, x) || (old_start <= x <= old_end)) <==> holds_line(prev, x));
                    }
                    if strictly_increasing(lines@) {
                        assert(lines@[i - 1] < lines@[i as int]);
                        assert forall|a: int, b: int| 0 <= a < b < r@.len() implies r@[a].hi() + 1 < r@[b].lo() by {
                            if b == r@.len() - 1 {
                                assert(old_r.len() == b);
                            }
                        }
                    }
                }
            }
            i = i + 1;
        }
        let ghost old_r = r@;
        let piece = LineRange::from_bounds(start, end);
        r.push(piece);
        proof {
            assert(lines@.subrange(0, lines@.len() as int) =~= lines@);
            assert(piece == bounds_range(start as int, end as int));
            assert forall|x: int| covered(r@, x) <==> holds_line(lines@, x) by {
                if covered(r@, x) {
                    let k = choose|k: int| 0 <= k < r@.len() && #[trigger] r@[k].covers(x);
                    if k < old_r.len() {
                        assert(old_r[k].covers(x));
                    }
                }
                if covered(old_r, x) {
                    let k = choose|k: int| 0 <= k < old_r.len() && #[trigger] old_r[k].covers(x);
                    assert(r@[k].covers(x));
                }
                if piece.covers(x) {
                    assert(r@[old_r.len() as int].covers(x));
                }
            }
            if strictly_increasing(lines@) {
                assert forall|a: int, b: int| 0 <= a < b < r@.len() implies r@[a].hi() + 1 < r@[b].lo() by {
                    if b == r@.len() - 1 {
                        assert(old_r.len() == b);
                    }
                }
            }
        }
        r
    }
}

/// Adding a line to a list adds exactly that line to what it holds.
pub proof fn lemma_holds_push(ls: Seq<u32>, line: u32, x: int)
    ensures
        holds_line(ls.push(line), x) <==> (holds_line(ls, x) || x == line),
{
    let cur = ls.push(line);
    if holds_line(cur, x) {
        let k = choose|k: int| 0 <= k < cur.len() && cur[k] == x;
        if k < ls.len() {
            assert(ls[k] == x);
        }
    }
    if holds_line(ls, x) {
        let k = choose|k: int| 0 <= k < ls.len() && ls[k] == x;
        assert(cur[k] == x);
    }
    if x == line {
        assert(cur[ls.len() as int] == x);
    }
}

/// The runs of consecutive lines of `ls`, taken left to right: each line extends the
/// last run when it is the line just after that run's end, and starts a new run otherwise.
pub open spec fn compress_spec(ls: Seq<u32>) -> Seq<LineRange>
    decreases ls.len(),
{
    if ls.len() == 0 {
        Seq::empty()
    } else if ls.len() == 1 {
        seq![LineRange::Single(ls[0])]
    } else {
        let p = compress_spec(ls.drop_last());
        let x = ls.last();
        if p.len() > 0 && p.last().hi() < u32::MAX && x == p.last().hi() + 1 {
            p.drop_last().push(bounds_range(p.last().lo(), x as int))
        } else {
            p.push(LineRange::Single(x))
        }
    }
}

/// One step of `compress_spec`, in the shape `LineRange::compress_lines` keeps it: the
/// finished runs `r` and the open run from `start` to `end`.
proof fn lemma_compress_step(ls: Seq<u32>, i: int, r: Seq<LineRange>, start: int, end: int)
    requires
        1 <= i < ls.len(),
        0 <= start <= end <= u32::MAX,
        compress_spec(ls.subrange(0, i)) == r.push(bounds_range(start, end)),
    ensures
        (end < u32::MAX && ls[i] == end + 1) ==> compress_spec(ls.subrange(0, i + 1)) == r.push(
            bounds_range(start, ls[i] as int),
        ),
        !(end < u32::MAX && ls[i] == end + 1) ==> compress_spec(ls.subrange(0, i + 1)) == r.push(
            bounds_range(start, end),
        ).push(bounds_range(ls[i] as int, ls[i] as int)),
{
    let cur = ls.subrange(0, i + 1);
    assert(cur.drop_last() =~= ls.subrange(0, i));
    assert(cur.last() == ls[i]);
    let p = r.push(bounds_range(start, end));
    assert(p.last() == bounds_range(start, end));
    assert(p.drop_last() =~= r);
}

/// Two strictly increasing lists that hold the same lines are equal.
pub proof fn lemma_increasing_unique(a: Seq<u32>, b: Seq<u32>)
    requires
        strictly_increasing(a),
        strictly_increasing(b),
        forall|x: int| holds_line(a, x) <==> holds_line(b, x),
    ensures
        a == b,
    decreases a.len(),
{
    if a.len() == 0 {
        if b.len() > 0 {
            assert(holds_line(b, b[0] as int));
        }
        assert(a =~= b);
    } else {
        assert(holds_line(a, a[0] as int));
        assert(b.len() > 0);
        assert(holds_line(b, b[0] as int));
        let j = choose|j: int| 0 <= j < b.len() && #[trigger] b[j] == a[0];
        let k = choose|k: int| 0 <= k < a.len() && #[trigger] a[k] == b[0];
        assert(b[0] <= b[j]);
        assert(a[0] <= a[k]);
        assert(a[0] == b[0]);
        let a1 = a.drop_first();
        let b1 = b.drop_first();
        assert forall|x: int| holds_line(a1, x) <==> holds_line(b1, x) by {
            if holds_line(a1, x) {
                let t = choose|t: int| 0 <= t < a1.len() && #[trigger] a1[t] == x;
                assert(a[t + 1] == x);
                assert(holds_line(a, x));
                let u = choose|u: int| 0 <= u < b.len() && #[trigger] b[u] == x;
                assert(u != 0);
                assert(b1[u - 1] == x);
            }
            if holds_line(b1, x) {
                let t = choose|t: int| 0 <= t < b1.len() && #[trigger] b1[t] == x;
                assert(b[t + 1] == x);
                assert(holds_line(b, x));
                let u = choose|u: int| 0 <= u < a.len() && #[trigger] a[u] == x;
                assert(u != 0);
                assert(a1[u - 1] == x);
            }
        }
        lemma_increasing_unique(a1, b1);
        assert(a =~= b) by {
            assert forall|i: int| 0 <= i < a.len() implies a[i] == b[i] by {
                if i > 0 {
                    assert(a[i] == a1[i - 1]);
                    assert(b[i] == b1[i - 1]);
                }
            }
        }
    }
}

/// The range from `s` to `e`, as `LineRange::from_bounds` builds it.
pub open spec fn bounds_range(s: int, e: int) -> LineRange {
    if s == e {
        LineRange::Single(s as u32)
    } else {
        LineRange::Range(s as u32, e as u32)
    }
}

/// What `LineRange::remove` leaves of `a` once `o` is taken out.
pub open spec fn remove_spec(a: LineRange, o: LineRange) -> Seq<LineRange> {
    match a {
        LineRange::Single(l) => if o.covers(l as int) {
            Seq::empty()
        } else {
            seq![a]
        },
        LineRange::Range(s, e) => if o.hi() < s || o.lo() > e {
            seq![a]
        } else {
            (if o.lo() > s {
                seq![bounds_range(s as int, o.lo() - 1)]
            } else {
                Seq::empty()
            }) + (if o.hi() < e {
                seq![bounds_range(o.hi() + 1, e as int)]
            } else {
                Seq::empty()
            })
        },
    }
}

/// Takes `o` out of every range of `rs`, keeping the pieces in order.
pub open spec fn flat_remove(rs: Seq<LineRange>, o: LineRange) -> Seq<LineRange>
    decreases rs.len(),
{
    if rs.len() == 0 {
        Seq::empty()
    } else {
        flat_remove(rs.drop_last(), o) + remove_spec(rs.last(), o)
    }
}

/// Takes each range of `rem`, in turn, out of `rs`.
pub open spec fn remove_all(rs: Seq<LineRange>, rem: Seq<LineRange>) -> Seq<LineRange>
    decreases rem.len(),
{
    if rem.len() == 0 {
        rs
    } else {
        flat_remove(remove_all(rs, rem.drop_last()), rem.last())
    }
}

/// The ranges of `rs` that survive `shift`, moved, in order.
pub open spec fn shift_all(rs: Seq<LineRange>, ip: int, off: int) -> Seq<LineRange>
    decreases rs.len(),
{
    if rs.len() == 0 {
        Seq::empty()
    } else {
        let p = shift_all(rs.drop_last(), ip, off);
        match shift_spec(rs.last(), ip, off) {
            Some(r) => p.push(r),
            None => p,
        }
    }
}

/// Covering a line after concatenation.
pub proof fn lemma_covered_concat(a: Seq<LineRange>, b: Seq<LineRange>, x: int)
    ensures
        covered(a + b, x) <==> (covered(a, x) || covered(b, x)),
{
    let c = a + b;
    if covered(c, x) {
        let i = choose|i: int| 0 <= i < c.len() && #[trigger] c[i].covers(x);
        if i < a.len() {
            assert(a[i] == c[i]);
        } else {
            assert(b[i - a.len()] == c[i]);
        }
    }
    if covered(a, x) {
        let i = choose|i: int| 0 <= i < a.len() && #[trigger] a[i].covers(x);
        assert(c[i] == a[i]);
    }
    if covered(b, x) {
        let i = choose|i: int| 0 <= i < b.len() && #[trigger] b[i].covers(x);
        assert(c[a.len() + i] == b[i]);
    }
}

/// What taking one range out of a list covers.
pub proof fn lemma_flat_remove_covers(rs: Seq<LineRange>, o: LineRange, x: int)
    ensures
        covered(flat_remove(rs, o), x) <==> (covered(rs, x) && !o.covers(x)),
    decreases rs.len(),
{
    if rs.len() > 0 {
        lemma_flat_remove_covers(rs.drop_last(), o, x);
        lemma_covered_concat(flat_remove(rs.drop_last(), o), remove_spec(rs.last(), o), x);
        lemma_remove_spec_covers(rs.last(), o, x);
        assert(rs =~= rs.drop_last().push(rs.last()));
        lemma_covered_concat(rs.drop_last(), seq![rs.last()], x);
        assert(covered(seq![rs.last()], x) <==> rs.last().covers(x)) by {
            if rs.last().covers(x) {
                assert(seq![rs.last()][0].covers(x));
            }
        }
    }
}

/// What taking a list of ranges out of a list covers.
pub proof fn lemma_remove_all_covers(rs: Seq<LineRange>, rem: Seq<LineRange>, x: int)
    ensures
        covered(remove_all(rs, rem), x) <==> (covered(rs, x) && !covered(rem, x)),
    decreases rem.len(),
{
    if rem.len() > 0 {
        lemma_remove_all_covers(rs, rem.drop_last(), x);
        lemma_flat_remove_covers(remove_all(rs, rem.drop_last()), rem.last(), x);
        assert(rem =~= rem.drop_last().push(rem.last()));
        lemma_covered_concat(rem.drop_last(), seq![rem.last()], x);
        assert(covered(seq![rem.last()], x) <==> rem.last().covers(x)) by {
            if rem.last().covers(x) {
                assert(seq![rem.last()][0].covers(x));
            }
        }
    }
}

/// What `remove_spec` covers.
pub proof fn lemma_remove_spec_covers(a: LineRange, o: LineRange, x: int)
    ensures
        covered(remove_spec(a, o), x) <==> (a.covers(x) && !o.covers(x)),
{
    let r = remove_spec(a, o);
    if covered(r, x) {
        let i = choose|i: int| 0 <= i < r.len() && #[trigger] r[i].covers(x);
    }
    if a.covers(x) && !o.covers(x) {
        match a {
            LineRange::Single(l) => {
                assert(r[0].covers(x));
            },
            LineRange::Range(s, e) => {
                if o.hi() < s || o.lo() > e {
                    assert(r[0].covers(x));
                } else if x < o.lo() {
                    assert(r[0].covers(x));
                } else if o.lo() > s {
                    assert(r[1].covers(x));
                } else {
                    assert(r[0].covers(x));
                }
            },
        }
    }
}

/// The lines of `v`, sorted, each once.
pub fn sorted_unique(v: &[u32]) -> (r: Vec<u32>)
    ensures
        strictly_increasing(r@),
        forall|x: int| holds_line(r@, x) <==> holds_line(v@, x),
{
    let mut r: Vec<u32> = Vec::new();
    let mut i: usize = 0;
    while i < v.len()
        invariant
            i <= v.len(),
            strictly_increasing(r@),
            forall|x: int| holds_line(r@, x) <==> holds_line(v@.subrange(0, i as int), x),
        decreases v.len() - i,
    {
        let x = v[i];
        // binary search for the first position whose line is not below x
        let mut lo: usize = 0;
        let mut hi: usize = r.len();
        while lo < hi
            invariant
                lo <= hi <= r@.len(),
                strictly_increasing(r@),
                forall|k: int| 0 <= k < lo ==> r@[k] < x,
                forall|k: int| hi <= k < r@.len() ==> r@[k] >= x,
            decreases hi - lo,
        {
            let mid = lo + (hi - lo) / 2;
            if r[mid] < x {
                lo = mid + 1;
            } else {
                hi = mid;
            }
        }
        let ghost prev = v@.subrange(0, i as int);
        proof {
            assert(v@.subrange(0, i + 1) =~= prev.push(x));
        }
        if lo < r.len() && r[lo] == x {
            proof {
                assert forall|y: int| holds_line(r@, y) <==> holds_line(v@.subrange(0, i + 1), y) by {
                    lemma_holds_push(prev, x, y);
                    if y == x {
                        assert(r@[lo as int] == x);
                    }
                }
            }
        } else {
            let ghost old_r = r@;
            r.insert(lo, x);
            proof {
                assert(r@ =~= old_r.subrange(0, lo as int).push(x) + old_r.subrange(lo as int, old_r.len() as int));
                assert forall|a: int, b: int| 0 <= a < b < r@.len() implies r@[a] < r@[b] by {
                    if b < lo {
                        assert(r@[a] == old_r[a]);
                        assert(r@[b] == old_r[b]);
                    } else if a < lo && b > lo {
                        assert(r@[a] == old_r[a]);
                        assert(r@[b] == old_r[b - 1]);
                    } else if a < lo && b == lo {
                        assert(r@[a] == old_r[a]);
                    } else if a == lo {
                        assert(r@[b] == old_r[b - 1]);
                        assert(old_r[b - 1] >= x);
                        if lo < old_r.len() {
                            assert(old_r[lo as int] != x);
                            assert(old_r[lo as int] > x);
                            if b - 1 > lo {
                                assert(old_r[lo as int] < old_r[b - 1]);
                            }
                        }
                    } else {
                        assert(r@[a] == old_r[a - 1]);
                        assert(r@[b] == old_r[b - 1]);
                    }
                }
                assert forall|y: int| holds_line(r@, y) <==> holds_line(v@.subrange(0, i + 1), y) by {
                    lemma_holds_push(prev, x, y);
                    if holds_line(r@, y) {
                        let k = choose|k: int| 0 <= k < r@.len() && r@[k] == y;
                        if k < lo {
                            assert(old_r[k] == y);
                            assert(holds_line(old_r, y));
                        } else if k > lo {
                            assert(old_r[k - 1] == y);
                            assert(holds_line(old_r, y));
                        }
                    }
                    if holds_line(old_r, y) {
                        let k = choose|k: int| 0 <= k < old_r.len() && old_r[k] == y;
                        if k < lo {
                            assert(r@[k] == y);
                        } else {
                            assert(r@[k + 1] == y);
                        }
                    }
                    if y == x {
                        assert(r@[lo as int] == x);
                    }
                }
            }
        }
        i = i + 1;
    }
    proof {
        assert(v@.subrange(0, v@.len() as int) =~= v@);
    }
    r
}

/// Where `shift` moves a range (see `LineRange::shift`).
pub open spec fn shift_spec(r: LineRange, ip: int, off: int) -> Option<LineRange> {
    match r {
        LineRange::Single(l) => {
            if l >= ip {
                let n = l + off;
                if 0 < n <= u32::MAX {
                    Some(LineRange::Single(n as u32))
                } else {
                    None
                }
            } else {
                Some(r)
            }
        },
        LineRange::Range(s, e) => {
            let ns = if s >= ip { s + off } else { s as int };
            let ne = if e >= ip { e + off } else { e as int };
            if 0 < ns && ns <= ne && ne <= u32::MAX {
                Some(LineRange::Range(ns as u32, ne as u32))
            } else {
                None
            }
        },
    }
}

/// Shifting moves lines: for a range of line numbers from 1 on, when lines are inserted
/// (`off > 0`) or removed (`off < 0`) at `ip`, and no line about to be removed (`ip + off..ip`) is in the range, a line `x` at or
/// after `ip` is in the range exactly when `x + off` is in the shifted range (a `Single`
/// moves just as a one-line `Range`), and a line before `ip` in the range stays in it.
/// Every line of the shifted range is such a kept or moved line, or one of the inserted
/// lines when the range spans the insertion point. The range is dropped only when one of
/// its moved lines would leave `1..=u32::MAX`.
pub proof fn lemma_shift_moves_lines(r: LineRange, ip: int, off: int)
    requires
        1 <= r.lo() <= r.hi(),
        off < 0 ==> forall|x: int| ip + off <= x < ip ==> !r.covers(x),
    ensures
        match shift_spec(r, ip, off) {
            Some(q) => {
                &&& forall|x: int| x >= ip ==> (#[trigger] r.covers(x) <==> q.covers(x + off))
                &&& forall|x: int| x < ip && #[trigger] r.covers(x) ==> q.covers(x)
                &&& forall|y: int|
                    #[trigger] q.covers(y) ==> {
                        ||| y < ip && r.covers(y)
                        ||| y - off >= ip && r.covers(y - off)
                        ||| off > 0 && ip <= y < ip + off && r.covers(ip - 1) && r.covers(ip)
                    }
            },
            None => exists|x: int| #[trigger] r.covers(x) && x >= ip && !(1 <= x + off <= u32::MAX),
        },
{
    match r {
        LineRange::Single(l) => {
            if l >= ip {
                if 0 < l + off <= u32::MAX {
                    let q = LineRange::Single((l + off) as u32);
                    assert(shift_spec(r, ip, off) == Some(q));
                    assert(q.lo() == l + off && q.hi() == l + off);
                    assert forall|x: int| x >= ip implies (#[trigger] r.covers(x) <==> q.covers(x + off)) by {}
                } else {
                    assert(r.covers(l as int) && l >= ip && !(1 <= l + off <= u32::MAX));
                }
            } else {
                if off < 0 {
                    assert(r.covers(l as int));
                    assert(l < ip + off);
                }
                assert forall|x: int| x >= ip implies (#[trigger] r.covers(x) <==> r.covers(x + off)) by {}
            }
        },
        LineRange::Range(s, e) => {
            if s < ip && e >= ip && off < 0 {
                assert(r.covers(ip - 1));
            }
            match shift_spec(r, ip, off) {
                Some(q) => {},
                None => {
                    if s >= ip && s + off <= 0 {
                        assert(r.covers(s as int));
                    } else {
                        assert(r.covers(e as int));
                    }
                },
            }
        },
    }
}

} // verus!
