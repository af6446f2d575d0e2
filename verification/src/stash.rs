//! What the stash hooks decide, and the attributions that a stashed authorship log gives
//! back to the working log.

use vstd::prelude::*;
use vstd::string::*;

use crate::authorship_log::{AttestationView, AuthorshipLog, FileView};
use crate::line_range::LineRange;
use crate::text::str_eq;
use crate::virtual_attribution::{line_attrs_view, InitialAttributions, LineAttrView, LineAttribution};

verus! {

/// The line attribution that a range of an entry with hash `hash` gives.
pub open spec fn range_attr(r: LineRange, hash: Seq<char>) -> LineAttrView {
    LineAttrView { start_line: r.lo() as u32, end_line: r.hi() as u32, author_id: hash, overridden: false }
}

/// The line attributions of a file's entries: one per range, entry by entry, each naming
/// the entry's hash.
pub open spec fn entries_attrs(es: Seq<AttestationView>) -> Seq<LineAttrView>
    decreases es.len(),
{
    if es.len() == 0 {
        Seq::empty()
    } else {
        entries_attrs(es.drop_last()) + es.last().line_ranges.map_values(|r: LineRange| range_attr(r, es.last().hash))
    }
}

/// The first position of path `p` in a list of files, or its length when absent.
pub open spec fn path_position(s: Seq<(Seq<char>, Seq<LineAttrView>)>, p: Seq<char>) -> int
    decreases s.len(),
{
    if s.len() == 0 {
        0
    } else if s[0].0 == p {
        0
    } else {
        1 + path_position(s.drop_first(), p)
    }
}

/// The attributions restored from a stash: each file that has some, in the order in which
/// the files first appear; a file that appears again with attributions takes the later ones.
pub open spec fn stash_files(fs: Seq<FileView>) -> Seq<(Seq<char>, Seq<LineAttrView>)>
    decreases fs.len(),
{
    if fs.len() == 0 {
        Seq::empty()
    } else {
        let prev = stash_files(fs.drop_last());
        let attrs = entries_attrs(fs.last().entries);
        let p = fs.last().file_path;
        if attrs.len() == 0 {
            prev
        } else if path_position(prev, p) < prev.len() {
            prev.update(path_position(prev, p), (p, attrs))
        } else {
            prev.push((p, attrs))
        }
    }
}

/// The views of a list of files and their attributions.
pub open spec fn initial_files_view(v: Seq<(String, Vec<LineAttribution>)>) -> Seq<(Seq<char>, Seq<LineAttrView>)> {
    v.map_values(|f: (String, Vec<LineAttribution>)| (f.0@, line_attrs_view(f.1@)))
}

/// A position of path `p` below the length is where `p` is.
proof fn lemma_path_position(s: Seq<(Seq<char>, Seq<LineAttrView>)>, p: Seq<char>)
    ensures
        0 <= path_position(s, p) <= s.len(),
        path_position(s, p) < s.len() ==> s[path_position(s, p)].0 == p,
        forall|k: int| 0 <= k < path_position(s, p) ==> s[k].0 != p,
    decreases s.len(),
{
    if s.len() > 0 && s[0].0 != p {
        lemma_path_position(s.drop_first(), p);
        assert forall|k: int| 0 <= k < path_position(s, p) implies s[k].0 != p by {
            if k > 0 {
                assert(s[k] == s.drop_first()[k - 1]);
            }
        }
    }
}

/// The restored files name each path once, and every file has attributions.
pub proof fn lemma_stash_files_distinct(fs: Seq<FileView>)
    ensures
        forall|i: int, j: int|
            0 <= i < j < stash_files(fs).len() ==> (#[trigger] stash_files(fs)[i]).0 != (#[trigger] stash_files(fs)[j]).0,
        forall|i: int| 0 <= i < stash_files(fs).len() ==> (#[trigger] stash_files(fs)[i]).1.len() > 0,
    decreases fs.len(),
{
    if fs.len() > 0 {
        lemma_stash_files_distinct(fs.drop_last());
        let prev = stash_files(fs.drop_last());
        lemma_path_position(prev, fs.last().file_path);
    }
}

/// The attributions of a file's entries (see `entries_attrs`).
fn file_attrs(f: &crate::authorship_log::FileAttestation) -> (r: Vec<LineAttribution>)
    ensures
        line_attrs_view(r@) == entries_attrs(f@.entries),
{
    let mut r: Vec<LineAttribution> = Vec::new();
    let mut i: usize = 0;
    let ghost es = f@.entries;
    while i < f.entries.len()
        invariant
            i <= f.entries.len(),
            es == f@.entries,
            line_attrs_view(r@) == entries_attrs(es.take(i as int)),
        decreases f.entries.len() - i,
    {
        let e = &f.entries[i];
        let ghost before = r@;
        let mut k: usize = 0;
        while k < e.line_ranges.len()
            invariant
                i < f.entries.len(),
                e == f.entries@[i as int],
                k <= e.line_ranges.len(),
                line_attrs_view(r@) == line_attrs_view(before) + e@.line_ranges.take(k as int).map_values(
                    |x: LineRange| range_attr(x, e@.hash),
                ),
            decreases e.line_ranges.len() - k,
        {
            let (start, end) = match e.line_ranges[k] {
                LineRange::Single(l) => (l, l),
                LineRange::Range(s, t) => (s, t),
            };
            let a = LineAttribution { start_line: start, end_line: end, author_id: e.hash.clone(), overridden: false };
            proof {
                assert(a@ == range_attr(e@.line_ranges[k as int], e@.hash));
            }
            let ghost rp = r@;
            r.push(a);
            proof {
                assert(line_attrs_view(r@) =~= line_attrs_view(rp).push(a@));
                assert(line_attrs_view(r@) =~= line_attrs_view(before) + e@.line_ranges.take(k as int).map_values(
                    |x: LineRange| range_attr(x, e@.hash),
                ).push(a@));
                assert(e@.line_ranges.take(k + 1) =~= e@.line_ranges.take(k as int).push(e@.line_ranges[k as int]));
                assert(line_attrs_view(r@) =~= line_attrs_view(before) + e@.line_ranges.take(k + 1).map_values(
                    |x: LineRange| range_attr(x, e@.hash),
                ));
            }
            k = k + 1;
        }
        proof {
            assert(e@.line_ranges.take(k as int) =~= e@.line_ranges);
            assert(es.take(i + 1).drop_last() =~= es.take(i as int));
            assert(es.take(i + 1).last() == e@);
        }
        i = i + 1;
    }
    proof {
        assert(es.take(es.len() as int) =~= es);
    }
    r
}

/// The first position of path `p` in a list of files (see `path_position`).
fn find_path(files: &Vec<(String, Vec<LineAttribution>)>, p: &str) -> (r: usize)
    ensures
        r == path_position(initial_files_view(files@), p@),
{
    let ghost v = initial_files_view(files@);
    let mut k: usize = 0;
    proof {
        assert(v.skip(0) =~= v);
    }
    while k < files.len()
        invariant
            k <= files.len(),
            v == initial_files_view(files@),
            path_position(v, p@) == k + path_position(v.skip(k as int), p@),
        decreases files.len() - k,
    {
        proof {
            assert(v.skip(k as int).drop_first() =~= v.skip(k + 1));
            assert(v.skip(k as int)[0] == v[k as int]);
        }
        if str_eq(files[k].0.as_str(), p) {
            return k;
        }
        k = k + 1;
    }
    proof {
        assert(v.skip(k as int) =~= Seq::<(Seq<char>, Seq<LineAttrView>)>::empty());
    }
    k
}

/// The attributions that a stashed authorship log restores to the working log as its
/// initial attributions: for each file of the log, one attribution per line range of each
/// entry, in order, naming the entry's hash (see `stash_files`), and all of the log's
/// prompts.
pub fn initial_attributions_from_stash(log: &AuthorshipLog) -> (r: InitialAttributions)
    ensures
        initial_files_view(r.files@) == stash_files(log@.attestations),
        forall|i: int, j: int|
            0 <= i < j < r.files@.len() ==> (#[trigger] r.files@[i]).0@ != (#[trigger] r.files@[j]).0@,
        r.prompts@ == log@.prompts,
{
    let ghost fs = log@.attestations;
    let mut files: Vec<(String, Vec<LineAttribution>)> = Vec::new();
    let mut i: usize = 0;
    proof {
        assert(fs.take(0) =~= Seq::<FileView>::empty());
        assert(initial_files_view(files@) =~= Seq::<(Seq<char>, Seq<LineAttrView>)>::empty());
    }
    while i < log.attestations.len()
        invariant
            i <= log.attestations.len(),
            fs == log@.attestations,
            initial_files_view(files@) == stash_files(fs.take(i as int)),
        decreases log.attestations.len() - i,
    {
        let f = &log.attestations[i];
        let attrs = file_attrs(f);
        proof {
            assert(fs.take(i + 1).drop_last() =~= fs.take(i as int));
            assert(fs.take(i + 1).last() == f@);
        }
        if attrs.len() > 0 {
            let pos = find_path(&files, f.file_path.as_str());
            let ghost prev = initial_files_view(files@);
            proof {
                lemma_path_position(prev, f@.file_path);
            }
            if pos < files.len() {
                files.set(pos, (f.file_path.clone(), attrs));
                proof {
                    assert(initial_files_view(files@) =~= prev.update(pos as int, (f@.file_path, entries_attrs(f@.entries))));
                }
            } else {
                files.push((f.file_path.clone(), attrs));
                proof {
                    assert(initial_files_view(files@) =~= prev.push((f@.file_path, entries_attrs(f@.entries))));
                }
            }
        }
        i = i + 1;
    }
    proof {
        assert(fs.take(fs.len() as int) =~= fs);
        lemma_stash_files_distinct(fs);
        assert forall|i: int, j: int| 0 <= i < j < files@.len() implies (#[trigger] files@[i]).0@ != (
        #[trigger] files@[j]).0@ by {
            assert(initial_files_view(files@)[i].0 == files@[i].0@);
            assert(initial_files_view(files@)[j].0 == files@[j].0@);
        }
    }
    InitialAttributions { files, prompts: log.metadata.prompts.duplicate() }
}

/// What the hook after `git stash` does.
#[derive(Debug, Clone, PartialEq, Eq)]
pub enum StashAction {
    /// Nothing: the stash failed, or its subcommand keeps attributions where they are.
    Nothing,
    /// A stash was made: save the working log's attributions on it.
    SaveAuthorship,
    /// A stash was applied: restore the attributions saved on this stash.
    RestoreAuthorship(String),
    /// A stash was applied but none was captured before it ran.
    NoCapturedStash,
}

/// The step after `git stash`: on success, `push`, `save` or no subcommand saves the
/// attributions; `pop` and `apply` restore those of the stash captured before git ran; any
/// other subcommand, or a failure, does nothing.
pub fn post_stash_hook(succeeded: bool, subcommand: Option<&str>, captured_stash: &Option<String>) -> (r: StashAction)
    ensures
        !succeeded ==> r == StashAction::Nothing,
        succeeded ==> r == (match subcommand {
            None => StashAction::SaveAuthorship,
            Some(s) => if s@ == "push"@ || s@ == "save"@ {
                StashAction::SaveAuthorship
            } else if s@ == "pop"@ || s@ == "apply"@ {
                match captured_stash {
                    Some(sha) => StashAction::RestoreAuthorship(*sha),
                    None => StashAction::NoCapturedStash,
                }
            } else {
                StashAction::Nothing
            },
        }),
{
    if !succeeded {
        return StashAction::Nothing;
    }
    match subcommand {
        None => StashAction::SaveAuthorship,
        Some(s) => {
            if str_eq(s, "push") || str_eq(s, "save") {
                StashAction::SaveAuthorship
            } else if str_eq(s, "pop") || str_eq(s, "apply") {
                match captured_stash {
                    Some(sha) => StashAction::RestoreAuthorship(sha.clone()),
                    None => StashAction::NoCapturedStash,
                }
            } else {
                StashAction::Nothing
            }
        },
    }
}

} // verus!
