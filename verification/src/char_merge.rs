//! Merging two sets of character attributions of one file, the first winning where they
//! overlap.

use vstd::prelude::*;
use vstd::string::*;

use crate::virtual_attribution::Attribution;

verus! {

/// A character attribution as plain values.
pub struct CharAttrView {
    pub start: usize,
    pub end: usize,
    pub author: Seq<char>,
    pub ts: u128,
}

/// The plain values of a character attribution.
pub open spec fn char_attr_view(a: Attribution) -> CharAttrView {
    CharAttrView { start: a.start, end: a.end, author: a.author_id@, ts: a.ts }
}

/// The plain values of a list of character attributions.
pub open spec fn char_attrs_view(v: Seq<Attribution>) -> Seq<CharAttrView> {
    v.map_values(|a: Attribution| char_attr_view(a))
}

/// The end of an attribution cut at the content's length.
pub open spec fn cut_end(a: CharAttrView, len: nat) -> int {
    if a.end < len {
        a.end as int
    } else {
        len as int
    }
}

/// Whether some attribution of `ps`, cut at the content's length, covers character `i`.
pub open spec fn covered_char(ps: Seq<CharAttrView>, len: nat, i: int) -> bool {
    exists|k: int| 0 <= k < ps.len() && #[trigger] ps[k].start <= i < cut_end(ps[k], len)
}

/// The runs of characters `i..hi` that `ps` leaves uncovered, in order, as `(start, end)`;
/// `open` is the start of the run in progress before `i`, if any.
pub open spec fn uncovered_runs(ps: Seq<CharAttrView>, len: nat, i: int, hi: int, open: Option<int>) -> Seq<(int, int)>
    decreases hi - i,
{
    if i >= hi {
        match open {
            Some(s) => seq![(s, hi)],
            None => Seq::empty(),
        }
    } else if !covered_char(ps, len, i) {
        uncovered_runs(ps, len, i + 1, hi, if open is Some { open } else { Some(i) })
    } else {
        match open {
            Some(s) => seq![(s, i)] + uncovered_runs(ps, len, i + 1, hi, None),
            None => uncovered_runs(ps, len, i + 1, hi, None),
        }
    }
}

/// The pieces of a run list, each with the author and time of `a`.
pub open spec fn runs_as_pieces(runs: Seq<(int, int)>, a: CharAttrView) -> Seq<CharAttrView> {
    runs.map_values(|r: (int, int)| CharAttrView { start: r.0 as usize, end: r.1 as usize, author: a.author, ts: a.ts })
}

/// The pieces of a secondary attribution that the primary ones leave uncovered: one per
/// uncovered run of its characters before the content's end, with its author and time.
pub open spec fn uncovered_pieces(ps: Seq<CharAttrView>, len: nat, a: CharAttrView) -> Seq<CharAttrView> {
    runs_as_pieces(uncovered_runs(ps, len, a.start as int, cut_end(a, len), None), a)
}

/// The pieces of each secondary attribution in turn.
pub open spec fn secondary_pieces(ps: Seq<CharAttrView>, len: nat, ss: Seq<CharAttrView>) -> Seq<CharAttrView>
    decreases ss.len(),
{
    if ss.len() == 0 {
        Seq::empty()
    } else {
        secondary_pieces(ps, len, ss.drop_last()) + uncovered_pieces(ps, len, ss.last())
    }
}

/// Whether attribution `a` sorts after `b`: by start, then by end.
pub open spec fn sorts_after(a: CharAttrView, b: CharAttrView) -> bool {
    a.start > b.start || (a.start == b.start && a.end > b.end)
}

/// `x` put into the sorted list `s` after every element that it does not sort before.
pub open spec fn insert_sorted(s: Seq<CharAttrView>, x: CharAttrView) -> Seq<CharAttrView>
    decreases s.len(),
{
    if s.len() == 0 {
        seq![x]
    } else if sorts_after(s.last(), x) {
        insert_sorted(s.drop_last(), x).push(s.last())
    } else {
        s.push(x)
    }
}

/// The stable sort of a list by start and end: equal keys keep their order.
pub open spec fn stable_sorted(s: Seq<CharAttrView>) -> Seq<CharAttrView>
    decreases s.len(),
{
    if s.len() == 0 {
        Seq::empty()
    } else {
        insert_sorted(stable_sorted(s.drop_last()), s.last())
    }
}

/// The merged attributions: all the primary ones, and the pieces of the secondary ones that
/// the primary ones leave uncovered, sorted by start and end.
pub open spec fn merged_char_attrs(ps: Seq<CharAttrView>, ss: Seq<CharAttrView>, len: nat) -> Seq<CharAttrView> {
    stable_sorted(ps + secondary_pieces(ps, len, ss))
}

/// A copy of an attribution.
fn copy_attr(a: &Attribution) -> (r: Attribution)
    ensures
        char_attr_view(r) == char_attr_view(*a),
{
    Attribution::new(a.start, a.end, a.author_id.clone(), a.ts)
}

/// Putting `x` after the elements that do not sort after it, where all later ones do,
/// is the sorted insertion.
proof fn lemma_insert_at(s: Seq<CharAttrView>, x: CharAttrView, p: int)
    requires
        0 <= p <= s.len(),
        forall|j: int| p <= j < s.len() ==> sorts_after(#[trigger] s[j], x),
        p > 0 ==> !sorts_after(s[p - 1], x),
    ensures
        insert_sorted(s, x) == s.insert(p, x),
    decreases s.len(),
{
    if s.len() == 0 {
        assert(s.insert(p, x) =~= seq![x]);
    } else if p == s.len() {
        assert(s.insert(p, x) =~= s.push(x));
    } else {
        lemma_insert_at(s.drop_last(), x, p);
        assert(s.insert(p, x) =~= s.drop_last().insert(p, x).push(s.last()));
    }
}

/// Sorts attributions by start and end, keeping the order of equal keys (see
/// `stable_sorted`).
fn sort_attrs(v: &Vec<Attribution>) -> (r: Vec<Attribution>)
    ensures
        char_attrs_view(r@) == stable_sorted(char_attrs_view(v@)),
{
    let ghost vv = char_attrs_view(v@);
    let mut r: Vec<Attribution> = Vec::new();
    let mut i: usize = 0;
    proof {
        assert(vv.take(0) =~= Seq::<CharAttrView>::empty());
        assert(char_attrs_view(r@) =~= Seq::<CharAttrView>::empty());
    }
    while i < v.len()
        invariant
            i <= v.len(),
            vv == char_attrs_view(v@),
            char_attrs_view(r@) == stable_sorted(vv.take(i as int)),
        decreases v.len() - i,
    {
        let x = copy_attr(&v[i]);
        let ghost s = char_attrs_view(r@);
        let ghost xv = char_attr_view(x);
        let mut p: usize = r.len();
        while p > 0 && (r[p - 1].start > x.start || (r[p - 1].start == x.start && r[p - 1].end > x.end))
            invariant
                p <= r.len(),
                s == char_attrs_view(r@),
                xv == char_attr_view(x),
                forall|j: int| p <= j < s.len() ==> sorts_after(#[trigger] s[j], xv),
            decreases p,
        {
            p = p - 1;
        }
        proof {
            lemma_insert_at(s, xv, p as int);
            assert(vv.take(i + 1).drop_last() =~= vv.take(i as int));
            assert(vv.take(i + 1).last() == xv);
        }
        r.insert(p, x);
        proof {
            assert(char_attrs_view(r@) =~= s.insert(p as int, xv));
        }
        i = i + 1;
    }
    proof {
        assert(vv.take(vv.len() as int) =~= vv);
    }
    r
}

/// Which characters of content of length `len` the attributions `ps` cover.
fn coverage(ps: &[Attribution], len: usize) -> (r: Vec<bool>)
    ensures
        r@.len() == len,
        forall|i: int| 0 <= i < len ==> r@[i] == covered_char(char_attrs_view(ps@), len as nat, i),
{
    let ghost pv = char_attrs_view(ps@);
    let mut r: Vec<bool> = Vec::new();
    while r.len() < len
        invariant
            r@.len() <= len,
            forall|i: int| 0 <= i < r@.len() ==> !r@[i],
        decreases len - r@.len(),
    {
        r.push(false);
    }
    let mut k: usize = 0;
    while k < ps.len()
        invariant
            k <= ps.len(),
            pv == char_attrs_view(ps@),
            r@.len() == len,
            forall|i: int| 0 <= i < len ==> r@[i] == covered_char(pv.take(k as int), len as nat, i),
        decreases ps.len() - k,
    {
        let a = &ps[k];
        let hi = if a.end < len {
            a.end
        } else {
            len
        };
        let lo = if a.start < hi {
            a.start
        } else {
            hi
        };
        let mut i: usize = lo;
        let ghost before = r@;
        proof {
            assert(pv[k as int] == char_attr_view(ps@[k as int]));
        }
        while i < hi
            invariant
                lo <= i <= hi,
                hi <= len,
                before.len() == len,
                r@.len() == len,
                forall|j: int| #![trigger r@[j]] 0 <= j < len ==> r@[j] == (before[j] || (lo <= j && j < i)),
            decreases hi - i,
        {
            let ghost old_r = r@;
            r.set(i, true);
            proof {
                assert forall|j: int| #![trigger r@[j]] 0 <= j < len implies r@[j] == (before[j] || (lo <= j && j < i + 1)) by {
                    if j != i {
                        assert(r@[j] == old_r[j]);
                    }
                }
            }
            i = i + 1;
        }
        proof {
            assert forall|j: int| 0 <= j < len implies r@[j] == covered_char(pv.take(k + 1), len as nat, j) by {
                let t = pv.take(k + 1);
                assert(t[k as int] == pv[k as int]);
                if r@[j] {
                    if before[j] {
                        let m = choose|m: int| 0 <= m < pv.take(k as int).len() && #[trigger] pv.take(k as int)[m].start
                            <= j < cut_end(pv.take(k as int)[m], len as nat);
                        assert(t[m] == pv.take(k as int)[m]);
                    } else {
                        assert(t[k as int].start <= j < cut_end(t[k as int], len as nat));
                    }
                } else {
                    if covered_char(t, len as nat, j) {
                        let m = choose|m: int| 0 <= m < t.len() && #[trigger] t[m].start <= j < cut_end(t[m], len as nat);
                        if m < k {
                            assert(pv.take(k as int)[m] == t[m]);
                        }
                    }
                }
            }
        }
        k = k + 1;
    }
    proof {
        assert(pv.take(pv.len() as int) =~= pv);
    }
    r
}

/// Appends the pieces of `a` that the covered characters leave free (see
/// `uncovered_pieces`).
fn push_uncovered_pieces(cov: &Vec<bool>, ghost_ps: Ghost<Seq<CharAttrView>>, len: usize, a: &Attribution, out: &mut Vec<Attribution>)
    requires
        cov@.len() == len,
        forall|i: int| 0 <= i < len ==> cov@[i] == covered_char(ghost_ps@, len as nat, i),
    ensures
        char_attrs_view(final(out)@) == char_attrs_view(old(out)@) + uncovered_pieces(ghost_ps@, len as nat, char_attr_view(*a)),
{
    let ghost pv = ghost_ps@;
    let ghost av = char_attr_view(*a);
    let hi = if a.end < len {
        a.end
    } else {
        len
    };
    let ghost all_runs = uncovered_runs(pv, len as nat, a.start as int, hi as int, None);
    let ghost mut done: Seq<(int, int)> = Seq::empty();
    let mut open: Option<usize> = None;
    let mut i: usize = a.start;
    proof {
        assert(done + all_runs =~= all_runs);
        assert(char_attrs_view(out@) + runs_as_pieces(done, av) =~= char_attrs_view(out@));
    }
    let ghost out0 = char_attrs_view(out@);
    while i < hi
        invariant
            hi <= len,
            hi == cut_end(av, len as nat),
            av == char_attr_view(*a),
            cov@.len() == len,
            forall|j: int| 0 <= j < len ==> cov@[j] == covered_char(pv, len as nat, j),
            all_runs == done + uncovered_runs(pv, len as nat, i as int, hi as int, match open {
                Some(s) => Some(s as int),
                None => None,
            }),
            open matches Some(s) ==> s < i,
            char_attrs_view(out@) == out0 + runs_as_pieces(done, av),
        decreases hi - i,
    {
        let ghost op = match open {
            Some(s) => Some(s as int),
            None => None::<int>,
        };
        if !cov[i] {
            if open.is_none() {
                open = Some(i);
            }
        } else {
            match open {
                Some(s) => {
                    let ghost prev = out@;
                    let piece = Attribution::new(s, i, a.author_id.clone(), a.ts);
                    out.push(piece);
                    proof {
                        assert(char_attrs_view(out@) =~= char_attrs_view(prev).push(char_attr_view(piece)));
                        assert(seq![(s as int, i as int)] + uncovered_runs(pv, len as nat, i + 1, hi as int, None)
                            == uncovered_runs(pv, len as nat, i as int, hi as int, op));
                        done = done.push((s as int, i as int));
                        assert(all_runs =~= done + uncovered_runs(pv, len as nat, i + 1, hi as int, None));
                        assert(runs_as_pieces(done, av) =~= runs_as_pieces(done.drop_last(), av).push(
                            CharAttrView { start: s, end: i, author: av.author, ts: av.ts },
                        ));
                    }
                    open = None;
                },
                None => {},
            }
        }
        i = i + 1;
    }
    match open {
        Some(s) => {
            let ghost prev = out@;
            let piece = Attribution::new(s, hi, a.author_id.clone(), a.ts);
            out.push(piece);
            proof {
                assert(char_attrs_view(out@) =~= char_attrs_view(prev).push(char_attr_view(piece)));
                done = done.push((s as int, hi as int));
                assert(all_runs =~= done);
                assert(runs_as_pieces(done, av) =~= runs_as_pieces(done.drop_last(), av).push(
                    CharAttrView { start: s, end: hi, author: av.author, ts: av.ts },
                ));
            }
        },
        None => {
            proof {
                assert(all_runs =~= done);
            }
        },
    }
}

/// Merges two sets of character attributions of content of length `content_len`: every
/// primary attribution, and each secondary one cut to the runs of characters before the
/// end of the content that no primary attribution covers, all sorted by start and end with
/// equal keys in their order (see `merged_char_attrs`).
pub fn merge_char_attributions(primary: &[Attribution], secondary: &[Attribution], content_len: usize) -> (r: Vec<
    Attribution,
>)
    ensures
        char_attrs_view(r@) == merged_char_attrs(char_attrs_view(primary@), char_attrs_view(secondary@), content_len as nat),
{
    let ghost pv = char_attrs_view(primary@);
    let ghost sv = char_attrs_view(secondary@);
    let cov = coverage(primary, content_len);
    let mut all: Vec<Attribution> = Vec::new();
    let mut k: usize = 0;
    while k < primary.len()
        invariant
            k <= primary.len(),
            pv == char_attrs_view(primary@),
            char_attrs_view(all@) == pv.take(k as int),
        decreases primary.len() - k,
    {
        let c = copy_attr(&primary[k]);
        let ghost prev = all@;
        all.push(c);
        proof {
            assert(char_attrs_view(all@) =~= char_attrs_view(prev).push(char_attr_view(c)));
            assert(char_attrs_view(all@) =~= pv.take(k + 1));
        }
        k = k + 1;
    }
    proof {
        assert(pv.take(pv.len() as int) =~= pv);
        assert(sv.take(0) =~= Seq::<CharAttrView>::empty());
        assert(pv + secondary_pieces(pv, content_len as nat, sv.take(0)) =~= pv);
    }
    let mut t: usize = 0;
    while t < secondary.len()
        invariant
            t <= secondary.len(),
            pv == char_attrs_view(primary@),
            sv == char_attrs_view(secondary@),
            cov@.len() == content_len,
            forall|i: int| 0 <= i < content_len ==> cov@[i] == covered_char(pv, content_len as nat, i),
            char_attrs_view(all@) == pv + secondary_pieces(pv, content_len as nat, sv.take(t as int)),
        decreases secondary.len() - t,
    {
        push_uncovered_pieces(&cov, Ghost(pv), content_len, &secondary[t], &mut all);
        proof {
            assert(sv.take(t + 1).drop_last() =~= sv.take(t as int));
            assert(sv.take(t + 1).last() == char_attr_view(secondary@[t as int]));
        }
        t = t + 1;
    }
    proof {
        assert(sv.take(sv.len() as int) =~= sv);
    }
    sort_attrs(&all)
}

/// The first character of the scan: the start of the run in progress, or `i`.
pub open spec fn scan_start(i: int, open: Option<int>) -> int {
    match open {
        Some(s) => s,
        None => i,
    }
}

/// Every run lies within the scanned characters, is not empty, and holds no covered
/// character.
proof fn lemma_runs_uncovered(ps: Seq<CharAttrView>, len: nat, i: int, hi: int, open: Option<int>)
    requires
        open matches Some(s) ==> s < i <= hi && forall|x: int| s <= x < i ==> !covered_char(ps, len, x),
    ensures
        forall|k: int|
            0 <= k < uncovered_runs(ps, len, i, hi, open).len() ==> {
                let r = #[trigger] uncovered_runs(ps, len, i, hi, open)[k];
                &&& scan_start(i, open) <= r.0 < r.1 <= hi
                &&& forall|x: int| r.0 <= x < r.1 ==> !covered_char(ps, len, x)
            },
    decreases hi - i,
{
    let runs = uncovered_runs(ps, len, i, hi, open);
    if i >= hi {
        match open {
            Some(s) => {
                assert(runs == seq![(s, hi)]);
            },
            None => {
                assert(runs.len() == 0);
            },
        }
    } else if !covered_char(ps, len, i) {
        let o2 = if open is Some {
            open
        } else {
            Some(i)
        };
        lemma_runs_uncovered(ps, len, i + 1, hi, o2);
        assert(runs == uncovered_runs(ps, len, i + 1, hi, o2));
        assert(scan_start(i + 1, o2) == scan_start(i, open));
    } else {
        lemma_runs_uncovered(ps, len, i + 1, hi, None);
        let rest = uncovered_runs(ps, len, i + 1, hi, None);
        match open {
            Some(s) => {
                assert(runs == seq![(s, i)] + rest);
                assert forall|k: int| 0 <= k < runs.len() implies {
                    let r = #[trigger] runs[k];
                    &&& scan_start(i, open) <= r.0 < r.1 <= hi
                    &&& forall|x: int| r.0 <= x < r.1 ==> !covered_char(ps, len, x)
                } by {
                    if k > 0 {
                        assert(runs[k] == rest[k - 1]);
                    }
                }
            },
            None => {
                assert(runs == rest);
            },
        }
    }
}

/// Every character from the scan start to `hi` that nothing covers lies in some run.
proof fn lemma_runs_complete(ps: Seq<CharAttrView>, len: nat, i: int, hi: int, open: Option<int>, x: int)
    requires
        open matches Some(s) ==> s < i,
        scan_start(i, open) <= x < hi,
        !covered_char(ps, len, x),
    ensures
        exists|k: int|
            0 <= k < uncovered_runs(ps, len, i, hi, open).len() && #[trigger] uncovered_runs(ps, len, i, hi, open)[k].0
                <= x < uncovered_runs(ps, len, i, hi, open)[k].1,
    decreases hi - i,
{
    let runs = uncovered_runs(ps, len, i, hi, open);
    if i >= hi {
        assert(runs[0].0 <= x < runs[0].1);
    } else if !covered_char(ps, len, i) {
        let o2 = if open is Some {
            open
        } else {
            Some(i)
        };
        lemma_runs_complete(ps, len, i + 1, hi, o2, x);
    } else {
        if x < i {
            assert(runs[0].0 <= x < runs[0].1);
        } else {
            assert(x > i);
            lemma_runs_complete(ps, len, i + 1, hi, None, x);
            let rest = uncovered_runs(ps, len, i + 1, hi, None);
            let k = choose|k: int| 0 <= k < rest.len() && #[trigger] rest[k].0 <= x < rest[k].1;
            match open {
                Some(s) => {
                    assert(runs[k + 1] == rest[k]);
                    assert(runs[k + 1].0 <= x < runs[k + 1].1);
                },
                None => {
                    assert(runs[k].0 <= x < runs[k].1);
                },
            }
        }
    }
}

/// The primary attributions win where they overlap the secondary ones, and the secondary
/// ones fill the gaps: every piece of a secondary attribution lies within it, before the
/// end of the content, and holds no character that a primary attribution covers; every
/// character of it before the end of the content that no primary attribution covers lies
/// in one of its pieces, which keep its author and time.
pub proof fn lemma_pieces_fill_gaps(ps: Seq<CharAttrView>, len: nat, a: CharAttrView)
    requires
        len <= usize::MAX,
    ensures
        forall|k: int|
            0 <= k < uncovered_pieces(ps, len, a).len() ==> {
                let p = #[trigger] uncovered_pieces(ps, len, a)[k];
                &&& a.start <= p.start < p.end <= cut_end(a, len)
                &&& p.author == a.author && p.ts == a.ts
                &&& forall|x: int| p.start <= x < p.end ==> !covered_char(ps, len, x)
            },
        forall|x: int|
            a.start <= x < cut_end(a, len) && !covered_char(ps, len, x) ==> exists|k: int|
                0 <= k < uncovered_pieces(ps, len, a).len() && #[trigger] uncovered_pieces(ps, len, a)[k].start <= x
                    < uncovered_pieces(ps, len, a)[k].end,
{
    let hi = cut_end(a, len);
    let runs = uncovered_runs(ps, len, a.start as int, hi, None);
    lemma_runs_uncovered(ps, len, a.start as int, hi, None);
    assert forall|k: int| 0 <= k < uncovered_pieces(ps, len, a).len() implies {
        let p = #[trigger] uncovered_pieces(ps, len, a)[k];
        &&& a.start <= p.start < p.end <= cut_end(a, len)
        &&& p.author == a.author && p.ts == a.ts
        &&& forall|x: int| p.start <= x < p.end ==> !covered_char(ps, len, x)
    } by {
        let r = runs[k];
        assert(a.start <= r.0 < r.1 <= hi);
    }
    assert forall|x: int| a.start <= x < cut_end(a, len) && !covered_char(ps, len, x) implies exists|k: int|
        0 <= k < uncovered_pieces(ps, len, a).len() && #[trigger] uncovered_pieces(ps, len, a)[k].start <= x
            < uncovered_pieces(ps, len, a)[k].end by {
        lemma_runs_complete(ps, len, a.start as int, hi, None, x);
        let k = choose|k: int| 0 <= k < runs.len() && #[trigger] runs[k].0 <= x < runs[k].1;
        let r = runs[k];
        assert(a.start <= r.0 < r.1 && r.1 <= hi);
        assert(uncovered_pieces(ps, len, a)[k].start <= x < uncovered_pieces(ps, len, a)[k].end);
    }
}

/// Whether a list is in order of start and end.
pub open spec fn sorted_by_position(s: Seq<CharAttrView>) -> bool {
    forall|i: int, j: int| 0 <= i < j < s.len() ==> !sorts_after(#[trigger] s[i], #[trigger] s[j])
}

/// A sorted insertion keeps a list sorted and adds exactly the new element.
proof fn lemma_insert_sorted(s: Seq<CharAttrView>, x: CharAttrView)
    requires
        sorted_by_position(s),
    ensures
        sorted_by_position(insert_sorted(s, x)),
        insert_sorted(s, x).len() == s.len() + 1,
        forall|k: int| 0 <= k < insert_sorted(s, x).len() ==> #[trigger] insert_sorted(s, x)[k] == x || s.contains(
            insert_sorted(s, x)[k],
        ),
    decreases s.len(),
{
    if s.len() > 0 && sorts_after(s.last(), x) {
        let d = s.drop_last();
        assert(sorted_by_position(d)) by {
            assert forall|i: int, j: int| 0 <= i < j < d.len() implies !sorts_after(#[trigger] d[i], #[trigger] d[j]) by {
                assert(d[i] == s[i] && d[j] == s[j]);
            }
        }
        lemma_insert_sorted(d, x);
        let t = insert_sorted(d, x);
        let r = t.push(s.last());
        assert forall|k: int| 0 <= k < r.len() implies #[trigger] r[k] == x || s.contains(r[k]) by {
            if k < t.len() {
                assert(r[k] == t[k]);
                if t[k] != x {
                    let m = choose|m: int| 0 <= m < d.len() && d[m] == t[k];
                    assert(s[m] == d[m]);
                }
            } else {
                assert(s[s.len() - 1] == s.last());
            }
        }
        assert forall|i: int, j: int| 0 <= i < j < r.len() implies !sorts_after(#[trigger] r[i], #[trigger] r[j]) by {
            if j == r.len() - 1 {
                assert(r[i] == t[i]);
                if t[i] != x {
                    let m = choose|m: int| 0 <= m < d.len() && d[m] == t[i];
                    assert(s[m] == d[m]);
                    assert(s[s.len() - 1] == s.last());
                }
            } else {
                assert(r[i] == t[i] && r[j] == t[j]);
            }
        }
    } else {
        assert forall|k: int| 0 <= k < insert_sorted(s, x).len() implies #[trigger] insert_sorted(s, x)[k] == x
            || s.contains(insert_sorted(s, x)[k]) by {
            if k < s.len() {
                assert(insert_sorted(s, x)[k] == s[k]);
            }
        }
        assert forall|i: int, j: int|
            0 <= i < j < insert_sorted(s, x).len() implies !sorts_after(
            #[trigger] insert_sorted(s, x)[i],
            #[trigger] insert_sorted(s, x)[j],
        ) by {
            let r = insert_sorted(s, x);
            if j == s.len() {
                assert(r[i] == s[i]);
                if s.len() > 0 && i < s.len() - 1 {
                    assert(!sorts_after(s[i], s[s.len() - 1]));
                }
            } else {
                assert(r[i] == s[i] && r[j] == s[j]);
            }
        }
    }
}

/// The merged attributions are in order of start and end, and hold as many attributions as
/// the primary ones and the secondary pieces together.
pub proof fn lemma_merged_sorted(ps: Seq<CharAttrView>, ss: Seq<CharAttrView>, len: nat)
    ensures
        sorted_by_position(merged_char_attrs(ps, ss, len)),
        merged_char_attrs(ps, ss, len).len() == ps.len() + secondary_pieces(ps, len, ss).len(),
{
    lemma_stable_sorted(ps + secondary_pieces(ps, len, ss));
}

/// A stable sort is sorted and keeps the length.
proof fn lemma_stable_sorted(s: Seq<CharAttrView>)
    ensures
        sorted_by_position(stable_sorted(s)),
        stable_sorted(s).len() == s.len(),
    decreases s.len(),
{
    if s.len() > 0 {
        lemma_stable_sorted(s.drop_last());
        lemma_insert_sorted(stable_sorted(s.drop_last()), s.last());
    }
}

} // verus!
