//! The per-author summary of a blame: how many lines of a range each author wrote.

use vstd::prelude::*;
use vstd::string::*;

use crate::blame_output::author_for;
use crate::text::str_eq;

verus! {

/// The author shown for line `n`: the first name given for it, else `unknown`.
pub open spec fn summary_author(authors: Seq<(u32, Seq<char>)>, n: u32) -> Seq<char> {
    author_for(authors, n, "unknown"@)
}

/// The position of author `a` in a tally, or its length.
pub open spec fn tally_position(t: Seq<(Seq<char>, nat)>, a: Seq<char>) -> int
    decreases t.len(),
{
    if t.len() == 0 {
        0
    } else if t[0].0 == a {
        0
    } else {
        1 + tally_position(t.drop_first(), a)
    }
}

/// A tally with one more line for author `a`.
pub open spec fn bump(t: Seq<(Seq<char>, nat)>, a: Seq<char>) -> Seq<(Seq<char>, nat)> {
    let k = tally_position(t, a);
    if k < t.len() {
        t.update(k, (a, t[k].1 + 1))
    } else {
        t.push((a, 1))
    }
}

/// The authors of lines `start`, `start + 1`, ... (`k` of them) with their line counts, in
/// order of first appearance.
pub open spec fn author_tally(authors: Seq<(u32, Seq<char>)>, start: u32, k: nat) -> Seq<(Seq<char>, nat)>
    decreases k,
{
    if k == 0 {
        Seq::empty()
    } else {
        bump(author_tally(authors, start, (k - 1) as nat), summary_author(authors, (start + k - 1) as u32))
    }
}

/// `x` put into a list ordered by count, most first, after every element with at least its
/// count.
pub open spec fn insert_by_count(s: Seq<(Seq<char>, nat)>, x: (Seq<char>, nat)) -> Seq<(Seq<char>, nat)>
    decreases s.len(),
{
    if s.len() == 0 {
        seq![x]
    } else if s.last().1 < x.1 {
        insert_by_count(s.drop_last(), x).push(s.last())
    } else {
        s.push(x)
    }
}

/// A list ordered by count, most first, equal counts keeping their order.
pub open spec fn by_count(s: Seq<(Seq<char>, nat)>) -> Seq<(Seq<char>, nat)>
    decreases s.len(),
{
    if s.len() == 0 {
        Seq::empty()
    } else {
        insert_by_count(by_count(s.drop_last()), s.last())
    }
}

/// The number of lines in `start..=end`.
pub open spec fn range_len(start: u32, end: u32) -> nat {
    if start <= end {
        (end - start + 1) as nat
    } else {
        0
    }
}

/// The plain values of a tally.
pub open spec fn tally_view(v: Seq<(String, u32)>) -> Seq<(Seq<char>, nat)> {
    v.map_values(|p: (String, u32)| (p.0@, p.1 as nat))
}

/// Every count of a tally is at most `bound`.
pub open spec fn counts_at_most(t: Seq<(Seq<char>, nat)>, bound: nat) -> bool {
    forall|i: int| 0 <= i < t.len() ==> (#[trigger] t[i]).1 <= bound
}

/// Where author `a` stands in the tally (see `tally_position`).
fn find_author(t: &Vec<(String, u32)>, a: &str) -> (r: usize)
    ensures
        r == tally_position(tally_view(t@), a@),
{
    let ghost v = tally_view(t@);
    let mut k: usize = 0;
    proof {
        assert(v.skip(0) =~= v);
    }
    while k < t.len()
        invariant
            k <= t.len(),
            v == tally_view(t@),
            tally_position(v, a@) == k + tally_position(v.skip(k as int), a@),
        decreases t.len() - k,
    {
        proof {
            assert(v.skip(k as int).drop_first() =~= v.skip(k + 1));
            assert(v.skip(k as int)[0] == v[k as int]);
        }
        if str_eq(t[k].0.as_str(), a) {
            return k;
        }
        k = k + 1;
    }
    proof {
        assert(v.skip(k as int) =~= Seq::<(Seq<char>, nat)>::empty());
    }
    k
}

/// The author of line `n` (see `summary_author`).
fn line_author_or_unknown(authors: &[(u32, String)], n: u32) -> (r: String)
    ensures
        r@ == summary_author(authors@.map_values(|p: (u32, String)| (p.0, p.1@)), n),
{
    let ghost av = authors@.map_values(|p: (u32, String)| (p.0, p.1@));
    let mut i: usize = 0;
    proof {
        assert(av.skip(0) =~= av);
    }
    while i < authors.len()
        invariant
            i <= authors.len(),
            av == authors@.map_values(|p: (u32, String)| (p.0, p.1@)),
            author_for(av, n, "unknown"@) == author_for(av.skip(i as int), n, "unknown"@),
        decreases authors.len() - i,
    {
        proof {
            assert(av.skip(i as int).drop_first() =~= av.skip(i + 1));
            assert(av.skip(i as int)[0] == av[i as int]);
        }
        if authors[i].0 == n {
            return authors[i].1.clone();
        }
        i = i + 1;
    }
    proof {
        assert(av.skip(i as int) =~= Seq::<(u32, Seq<char>)>::empty());
    }
    String::from_str("unknown")
}

/// A tally position below the length holds the author.
proof fn lemma_tally_position(t: Seq<(Seq<char>, nat)>, a: Seq<char>)
    ensures
        0 <= tally_position(t, a) <= t.len(),
        tally_position(t, a) < t.len() ==> t[tally_position(t, a)].0 == a,
    decreases t.len(),
{
    if t.len() > 0 && t[0].0 != a {
        lemma_tally_position(t.drop_first(), a);
    }
}

/// Putting `x` after the elements with at least its count, where all later ones have less,
/// is the ordered insertion.
proof fn lemma_insert_by_count_at(s: Seq<(Seq<char>, nat)>, x: (Seq<char>, nat), p: int)
    requires
        0 <= p <= s.len(),
        forall|j: int| p <= j < s.len() ==> (#[trigger] s[j]).1 < x.1,
        p > 0 ==> s[p - 1].1 >= x.1,
    ensures
        insert_by_count(s, x) == s.insert(p, x),
    decreases s.len(),
{
    if s.len() == 0 {
        assert(s.insert(p, x) =~= seq![x]);
    } else if p == s.len() {
        assert(s.insert(p, x) =~= s.push(x));
    } else {
        lemma_insert_by_count_at(s.drop_last(), x, p);
        assert(s.insert(p, x) =~= s.drop_last().insert(p, x).push(s.last()));
    }
}

/// The authors of the lines `start..=end` with how many lines each wrote, most first (equal
/// counts in order of first appearance); a line without a name in `line_authors` counts
/// for `unknown`.
pub fn blame_summary_counts(line_authors: &[(u32, String)], start_line: u32, end_line: u32) -> (r: Vec<(String, u32)>)
    requires
        range_len(start_line, end_line) <= u32::MAX,
    ensures
        tally_view(r@) == by_count(
            author_tally(line_authors@.map_values(|p: (u32, String)| (p.0, p.1@)), start_line, range_len(start_line, end_line)),
        ),
{
    let ghost av = line_authors@.map_values(|p: (u32, String)| (p.0, p.1@));
    let mut t: Vec<(String, u32)> = Vec::new();
    let mut n: u64 = start_line as u64;
    proof {
        assert(tally_view(t@) =~= Seq::<(Seq<char>, nat)>::empty());
    }
    while n <= end_line as u64
        invariant
            av == line_authors@.map_values(|p: (u32, String)| (p.0, p.1@)),
            start_line <= n,
            n <= end_line as u64 + 1 || n == start_line,
            range_len(start_line, end_line) <= u32::MAX,
            tally_view(t@) == author_tally(av, start_line, (n - start_line) as nat),
            counts_at_most(tally_view(t@), (n - start_line) as nat),
        decreases end_line as u64 + 1 - n,
    {
        let a = line_author_or_unknown(line_authors, n as u32);
        let k = find_author(&t, a.as_str());
        let ghost before = tally_view(t@);
        proof {
            lemma_tally_position(before, a@);
            assert((start_line + (n + 1 - start_line) - 1) as u32 == n as u32);
            assert(n - start_line < range_len(start_line, end_line));
        }
        if k < t.len() {
            let c = t[k].1;
            proof {
                assert(before[k as int].1 == c);
            }
            let name = t[k].0.clone();
            t.set(k, (name, c + 1));
            proof {
                assert(tally_view(t@) =~= before.update(k as int, (a@, before[k as int].1 + 1)));
            }
        } else {
            t.push((a, 1));
            proof {
                assert(tally_view(t@) =~= before.push((a@, 1nat)));
            }
        }
        n = n + 1;
    }
    let ghost tv = tally_view(t@);
    proof {
        assert((n - start_line) as nat == range_len(start_line, end_line));
    }
    let mut r: Vec<(String, u32)> = Vec::new();
    let mut i: usize = 0;
    proof {
        assert(tv.take(0) =~= Seq::<(Seq<char>, nat)>::empty());
        assert(tally_view(r@) =~= Seq::<(Seq<char>, nat)>::empty());
    }
    while i < t.len()
        invariant
            i <= t.len(),
            tv == tally_view(t@),
            tally_view(r@) == by_count(tv.take(i as int)),
        decreases t.len() - i,
    {
        let x = (t[i].0.clone(), t[i].1);
        let ghost s = tally_view(r@);
        let ghost xv = (x.0@, x.1 as nat);
        let mut p: usize = r.len();
        while p > 0 && r[p - 1].1 < x.1
            invariant
                p <= r.len(),
                s == tally_view(r@),
                xv == (x.0@, x.1 as nat),
                forall|j: int| p <= j < s.len() ==> (#[trigger] s[j]).1 < xv.1,
            decreases p,
        {
            p = p - 1;
        }
        proof {
            lemma_insert_by_count_at(s, xv, p as int);
            assert(tv.take(i + 1).drop_last() =~= tv.take(i as int));
            assert(tv.take(i + 1).last() == xv);
        }
        r.insert(p, x);
        proof {
            assert(tally_view(r@) =~= s.insert(p as int, xv));
        }
        i = i + 1;
    }
    proof {
        assert(tv.take(tv.len() as int) =~= tv);
    }
    r
}

/// The total of the counts of a tally.
pub open spec fn total_count(t: Seq<(Seq<char>, nat)>) -> nat
    decreases t.len(),
{
    if t.len() == 0 {
        0
    } else {
        total_count(t.drop_last()) + t.last().1
    }
}

/// Raising one count by one raises the total by one.
proof fn lemma_total_update(t: Seq<(Seq<char>, nat)>, k: int, e: (Seq<char>, nat))
    requires
        0 <= k < t.len(),
        e.1 == t[k].1 + 1,
    ensures
        total_count(t.update(k, e)) == total_count(t) + 1,
    decreases t.len(),
{
    if k < t.len() - 1 {
        lemma_total_update(t.drop_last(), k, e);
        assert(t.update(k, e).drop_last() =~= t.drop_last().update(k, e));
    } else {
        assert(t.update(k, e).drop_last() =~= t.drop_last());
    }
}

/// An ordered insertion adds the count of the new element to the total.
proof fn lemma_total_insert(s: Seq<(Seq<char>, nat)>, x: (Seq<char>, nat))
    ensures
        total_count(insert_by_count(s, x)) == total_count(s) + x.1,
    decreases s.len(),
{
    if s.len() == 0 {
        assert(seq![x].drop_last() =~= Seq::<(Seq<char>, nat)>::empty());
        assert(seq![x].last() == x);
        assert(total_count(Seq::<(Seq<char>, nat)>::empty()) == 0);
        assert(total_count(seq![x]) == x.1);
    } else if s.last().1 < x.1 {
        lemma_total_insert(s.drop_last(), x);
        let q = insert_by_count(s.drop_last(), x);
        assert(q.push(s.last()).drop_last() =~= q);
        assert(q.push(s.last()).last() == s.last());
        assert(total_count(q.push(s.last())) == total_count(q) + s.last().1);
        assert(insert_by_count(s, x) == q.push(s.last()));
    } else {
        assert(s.push(x).drop_last() =~= s);
        assert(s.push(x).last() == x);
        assert(insert_by_count(s, x) == s.push(x));
    }
}

/// Ordering by count keeps the total.
proof fn lemma_total_by_count(s: Seq<(Seq<char>, nat)>)
    ensures
        total_count(by_count(s)) == total_count(s),
    decreases s.len(),
{
    if s.len() > 0 {
        lemma_total_by_count(s.drop_last());
        lemma_total_insert(by_count(s.drop_last()), s.last());
    }
}

/// The counts of a summary add up to the number of lines summed up.
pub proof fn lemma_summary_counts_all_lines(authors: Seq<(u32, Seq<char>)>, start: u32, k: nat)
    ensures
        total_count(by_count(author_tally(authors, start, k))) == k,
    decreases k,
{
    lemma_total_by_count(author_tally(authors, start, k));
    if k > 0 {
        lemma_summary_counts_all_lines(authors, start, (k - 1) as nat);
        lemma_total_by_count(author_tally(authors, start, (k - 1) as nat));
        let t = author_tally(authors, start, (k - 1) as nat);
        let a = summary_author(authors, (start + k - 1) as u32);
        lemma_tally_position(t, a);
        let p = tally_position(t, a);
        if p < t.len() {
            lemma_total_update(t, p, (a, t[p].1 + 1));
        } else {
            assert(t.push((a, 1nat)).drop_last() =~= t);
        }
    }
}

} // verus!
