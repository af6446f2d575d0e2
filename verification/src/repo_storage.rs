//! A working log held in memory, the names of stored file versions, and the combined
//! hash of a checkpoint.

use vstd::prelude::*;

use crate::blame_args::strings_view;
use crate::line_stats::pairs_view;
use crate::text::{extend_chars, from_chars, seq_lt, str_lt, to_chars};
use crate::working_log::Checkpoint;

verus! {

/// Whether some entry of some checkpoint of `cs` edits `file`.
pub open spec fn edits(cs: Seq<Checkpoint>, file: Seq<char>) -> bool {
    exists|i: int, j: int|
        0 <= i < cs.len() && 0 <= j < cs[i].entries@.len() && (#[trigger] cs[i].entries@[j]).file@ == file
}

/// Whether no string occurs twice in `s`.
pub open spec fn no_repeats(s: Seq<Seq<char>>) -> bool {
    forall|a: int, b: int| 0 <= a < b < s.len() ==> s[a] != s[b]
}

/// The checkpoints of a working log and the files they edit.
pub struct InMemoryWorkingLog {
    pub checkpoints: Vec<Checkpoint>,
    /// Each edited file once, in order of first edit.
    pub edited_files: Vec<String>,
}

/// Whether `v` holds a string equal to `s`.
fn holds(v: &[String], s: &str) -> (r: bool)
    ensures
        r == strings_view(v@).contains(s@),
{
    let mut i: usize = 0;
    while i < v.len()
        invariant
            i <= v.len(),
            forall|k: int| 0 <= k < i ==> v@[k]@ != s@,
        decreases v.len() - i,
    {
        if crate::text::str_eq(v[i].as_str(), s) {
            proof {
                assert(strings_view(v@)[i as int] == s@);
            }
            return true;
        }
        i = i + 1;
    }
    proof {
        if strings_view(v@).contains(s@) {
            let k = choose|k: int| 0 <= k < strings_view(v@).len() && strings_view(v@)[k] == s@;
            assert(v@[k]@ == s@);
        }
    }
    false
}

impl InMemoryWorkingLog {
    /// A working log of the checkpoints, with the files their entries edit.
    pub fn new(checkpoints: Vec<Checkpoint>) -> (r: InMemoryWorkingLog)
        ensures
            r.checkpoints@ == checkpoints@,
            no_repeats(strings_view(r.edited_files@)),
            forall|f: Seq<char>| #[trigger] strings_view(r.edited_files@).contains(f) <==> edits(checkpoints@, f),
    {
        let ghost cs = checkpoints@;
        let mut files: Vec<String> = Vec::new();
        let mut i: usize = 0;
        while i < checkpoints.len()
            invariant
                cs == checkpoints@,
                i <= cs.len(),
                no_repeats(strings_view(files@)),
                forall|f: Seq<char>|
                    #[trigger] strings_view(files@).contains(f) <==> exists|a: int, b: int|
                        0 <= a < i && 0 <= b < cs[a].entries@.len() && (#[trigger] cs[a].entries@[b]).file@ == f,
            decreases checkpoints.len() - i,
        {
            let c = &checkpoints[i];
            let mut j: usize = 0;
            while j < c.entries.len()
                invariant
                    cs == checkpoints@,
                    i < cs.len(),
                    *c == cs[i as int],
                    j <= c.entries@.len(),
                    no_repeats(strings_view(files@)),
                    forall|f: Seq<char>|
                        #[trigger] strings_view(files@).contains(f) <==> (exists|a: int, b: int|
                            0 <= a < i && 0 <= b < cs[a].entries@.len() && (#[trigger] cs[a].entries@[b]).file@ == f)
                            || exists|b: int| 0 <= b < j && (#[trigger] c.entries@[b]).file@ == f,
                decreases c.entries.len() - j,
            {
                let file = &c.entries[j].file;
                let ghost prev = strings_view(files@);
                if !holds(files.as_slice(), file.as_str()) {
                    files.push(file.clone());
                    proof {
                        assert(strings_view(files@) =~= prev.push(file@));
                    }
                }
                proof {
                    assert forall|f: Seq<char>|
                        #[trigger] strings_view(files@).contains(f) <==> (exists|a: int, b: int|
                            0 <= a < i && 0 <= b < cs[a].entries@.len() && (#[trigger] cs[a].entries@[b]).file@ == f)
                            || exists|b: int| 0 <= b < j + 1 && (#[trigger] c.entries@[b]).file@ == f by {
                        let now = strings_view(files@);
                        if now.contains(f) && !prev.contains(f) {
                            assert(f == file@);
                            assert(c.entries@[j as int].file@ == f);
                        }
                        if prev.contains(f) {
                            let k = choose|k: int| 0 <= k < prev.len() && prev[k] == f;
                            assert(now[k] == f);
                        }
                        if exists|b: int| 0 <= b < j + 1 && (#[trigger] c.entries@[b]).file@ == f {
                            let b = choose|b: int| 0 <= b < j + 1 && (#[trigger] c.entries@[b]).file@ == f;
                            if b == j {
                                if !prev.contains(f) {
                                    assert(now.last() == f);
                                }
                            }
                        }
                    }
                }
                j = j + 1;
            }
            proof {
                assert forall|f: Seq<char>|
                    #[trigger] strings_view(files@).contains(f) <==> exists|a: int, b: int|
                        0 <= a < i + 1 && 0 <= b < cs[a].entries@.len() && (#[trigger] cs[a].entries@[b]).file@ == f by {
                    if exists|b: int| 0 <= b < c.entries@.len() && (#[trigger] c.entries@[b]).file@ == f {
                        let b = choose|b: int| 0 <= b < c.entries@.len() && (#[trigger] c.entries@[b]).file@ == f;
                        assert(cs[i as int].entries@[b].file@ == f);
                    }
                    if exists|a: int, b: int|
                        0 <= a < i + 1 && 0 <= b < cs[a].entries@.len() && (#[trigger] cs[a].entries@[b]).file@ == f {
                        let (a, b) = choose|a: int, b: int|
                            0 <= a < i + 1 && 0 <= b < cs[a].entries@.len() && (#[trigger] cs[a].entries@[b]).file@ == f;
                        if a == i {
                            assert(c.entries@[b].file@ == f);
                        }
                    }
                }
            }
            i = i + 1;
        }
        InMemoryWorkingLog { checkpoints, edited_files: files }
    }
}

/// The name under which a version of a file is stored: the SHA-256 digest of its content,
/// in lowercase hexadecimal.
pub fn file_version_hash(content: &str) -> (r: String)
    ensures
        r@ == crate::apply::sha256_hex(content@),
        r@.len() == 64,
        forall|i: int| 0 <= i < r@.len() ==> crate::apply::is_lower_hex(#[trigger] r@[i]),
{
    crate::apply::sha256_hex_digest(content)
}

/// `x` put into a list sorted by path after every element whose path does not sort after
/// its own.
pub open spec fn insert_by_path(s: Seq<(Seq<char>, Seq<char>)>, x: (Seq<char>, Seq<char>)) -> Seq<(Seq<char>, Seq<char>)>
    decreases s.len(),
{
    if s.len() == 0 {
        seq![x]
    } else if seq_lt(x.0, s.last().0) {
        insert_by_path(s.drop_last(), x).push(s.last())
    } else {
        s.push(x)
    }
}

/// The pairs sorted by path in character order (which is the order of their UTF-8
/// bytes), pairs with equal paths keeping their order.
pub open spec fn sorted_by_path(s: Seq<(Seq<char>, Seq<char>)>) -> Seq<(Seq<char>, Seq<char>)>
    decreases s.len(),
{
    if s.len() == 0 {
        Seq::empty()
    } else {
        insert_by_path(sorted_by_path(s.drop_last()), s.last())
    }
}

/// Each path followed by its hash, one pair after another.
pub open spec fn joined_pairs(s: Seq<(Seq<char>, Seq<char>)>) -> Seq<char>
    decreases s.len(),
{
    if s.len() == 0 {
        Seq::empty()
    } else {
        joined_pairs(s.drop_last()) + s.last().0 + s.last().1
    }
}

/// The text that the combined hash of a checkpoint digests: paths and content hashes,
/// in order of path.
pub open spec fn joined_by_path(s: Seq<(Seq<char>, Seq<char>)>) -> Seq<char> {
    joined_pairs(sorted_by_path(s))
}

/// Putting `x` after the elements whose paths do not sort after its own, where all later
/// ones do, is the sorted insertion.
proof fn lemma_insert_by_path_at(s: Seq<(Seq<char>, Seq<char>)>, x: (Seq<char>, Seq<char>), p: int)
    requires
        0 <= p <= s.len(),
        forall|j: int| p <= j < s.len() ==> seq_lt(x.0, (#[trigger] s[j]).0),
        p > 0 ==> !seq_lt(x.0, s[p - 1].0),
    ensures
        insert_by_path(s, x) == s.insert(p, x),
    decreases s.len(),
{
    if s.len() == 0 {
        assert(s.insert(p, x) =~= seq![x]);
    } else if p == s.len() {
        assert(s.insert(p, x) =~= s.push(x));
    } else {
        lemma_insert_by_path_at(s.drop_last(), x, p);
        assert(s.insert(p, x) =~= s.drop_last().insert(p, x).push(s.last()));
    }
}

/// The combined hash of a checkpoint: the SHA-256 digest, in lowercase hex, of each file
/// path followed by its content hash, in order of path.
pub fn combined_content_hash(file_hashes: &[(String, String)]) -> (r: String)
    ensures
        r@ == crate::apply::sha256_hex(joined_by_path(pairs_view(file_hashes@))),
        r@.len() == 64,
        forall|i: int| 0 <= i < r@.len() ==> crate::apply::is_lower_hex(#[trigger] r@[i]),
{
    let ghost pv = pairs_view(file_hashes@);
    let mut sorted: Vec<(String, String)> = Vec::new();
    let mut i: usize = 0;
    proof {
        assert(pv.take(0) =~= Seq::<(Seq<char>, Seq<char>)>::empty());
        assert(pairs_view(sorted@) =~= Seq::<(Seq<char>, Seq<char>)>::empty());
    }
    while i < file_hashes.len()
        invariant
            i <= file_hashes.len(),
            pv == pairs_view(file_hashes@),
            pairs_view(sorted@) == sorted_by_path(pv.take(i as int)),
        decreases file_hashes.len() - i,
    {
        let x = (file_hashes[i].0.clone(), file_hashes[i].1.clone());
        let ghost s = pairs_view(sorted@);
        let ghost xv = (x.0@, x.1@);
        let mut p: usize = sorted.len();
        while p > 0 && str_lt(x.0.as_str(), sorted[p - 1].0.as_str())
            invariant
                p <= sorted.len(),
                s == pairs_view(sorted@),
                xv == (x.0@, x.1@),
                forall|j: int| p <= j < s.len() ==> seq_lt(xv.0, (#[trigger] s[j]).0),
            decreases p,
        {
            p = p - 1;
        }
        proof {
            lemma_insert_by_path_at(s, xv, p as int);
            assert(pv.take(i + 1).drop_last() =~= pv.take(i as int));
            assert(pv.take(i + 1).last() == xv);
        }
        sorted.insert(p, x);
        proof {
            assert(pairs_view(sorted@) =~= s.insert(p as int, xv));
        }
        i = i + 1;
    }
    proof {
        assert(pv.take(pv.len() as int) =~= pv);
    }
    let ghost sv = pairs_view(sorted@);
    let mut text: Vec<char> = Vec::new();
    let mut k: usize = 0;
    proof {
        assert(sv.take(0) =~= Seq::<(Seq<char>, Seq<char>)>::empty());
    }
    while k < sorted.len()
        invariant
            k <= sorted.len(),
            sv == pairs_view(sorted@),
            text@ == joined_pairs(sv.take(k as int)),
        decreases sorted.len() - k,
    {
        proof {
            assert(sv.take(k + 1).drop_last() =~= sv.take(k as int));
            assert(sv.take(k + 1).last() == (sorted@[k as int].0@, sorted@[k as int].1@));
        }
        extend_chars(&mut text, to_chars(sorted[k].0.as_str()).as_slice());
        extend_chars(&mut text, to_chars(sorted[k].1.as_str()).as_slice());
        k = k + 1;
    }
    proof {
        assert(sv.take(sv.len() as int) =~= sv);
    }
    let joined = from_chars(text.as_slice());
    crate::apply::sha256_hex_digest(joined.as_str())
}

} // verus!
