//! Attributions of the lines of files as they stand in the working tree, and their
//! conversion into an authorship log.

use vstd::prelude::*;
use vstd::string::*;

use crate::authorship_log::{AttestationEntry, AttestationView, AuthorshipLog, FileAttestation, FileView, PromptRecord};
use crate::line_range::{canonical, covered, holds_line, lines_between, sorted_unique, LineRange};
use crate::str_map::{Duplicate, StrMap};
use crate::text::str_eq;

verus! {

/// The author of the characters `start..end` of a file.
#[derive(Clone, Debug, PartialEq, Eq)]
pub struct Attribution {
    pub start: usize,
    pub end: usize,
    pub author_id: String,
    pub ts: u128,
}

impl Attribution {
    /// An attribution of the characters `start..end` to `author_id`, made at `ts`.
    pub fn new(start: usize, end: usize, author_id: String, ts: u128) -> (a: Attribution)
        ensures
            a.start == start,
            a.end == end,
            a.author_id@ == author_id@,
            a.ts == ts,
    {
        Attribution { start, end, author_id, ts }
    }
}

/// A line attribution as plain values.
pub struct LineAttrView {
    pub start_line: u32,
    pub end_line: u32,
    pub author_id: Seq<char>,
    pub overridden: bool,
}

/// The author of the lines `start_line..=end_line` of a file.
#[derive(Clone, Debug, PartialEq, Eq)]
pub struct LineAttribution {
    pub start_line: u32,
    pub end_line: u32,
    pub author_id: String,
    pub overridden: bool,
}

impl View for LineAttribution {
    type V = LineAttrView;

    open spec fn view(&self) -> LineAttrView {
        LineAttrView {
            start_line: self.start_line,
            end_line: self.end_line,
            author_id: self.author_id@,
            overridden: self.overridden,
        }
    }
}

/// The views of a list of line attributions.
pub open spec fn line_attrs_view(v: Seq<LineAttribution>) -> Seq<LineAttrView> {
    v.map_values(|a: LineAttribution| a@)
}

/// Whether the `k`-th attribution gives line `x` to `author`.
pub open spec fn attr_line(las: Seq<LineAttrView>, k: int, author: Seq<char>, x: int) -> bool {
    &&& 0 <= k < las.len()
    &&& las[k].author_id == author
    &&& las[k].start_line <= x <= las[k].end_line
}

/// Whether some attribution gives line `x` to `author`.
pub open spec fn author_line(las: Seq<LineAttrView>, author: Seq<char>, x: int) -> bool {
    exists|k: int| #[trigger] attr_line(las, k, author, x)
}

/// The authors of the attributions that hold at least one line, each once, in the order of
/// their first such attribution.
pub open spec fn line_authors(las: Seq<LineAttrView>) -> Seq<Seq<char>>
    decreases las.len(),
{
    if las.len() == 0 {
        Seq::empty()
    } else {
        let p = line_authors(las.drop_last());
        let a = las.last();
        if a.start_line <= a.end_line && !p.contains(a.author_id) {
            p.push(a.author_id)
        } else {
            p
        }
    }
}

/// `rs` is the canonical list of ranges of the lines `las` gives to `author`.
pub open spec fn ranges_of_author(rs: Seq<LineRange>, las: Seq<LineAttrView>, author: Seq<char>) -> bool {
    &&& canonical(rs)
    &&& forall|x: int| #[trigger] covered(rs, x) <==> author_line(las, author, x)
}

/// `es` holds one entry per author of `las` (see `line_authors`), in that order, each with
/// the canonical ranges of that author's lines.
pub open spec fn entries_of(las: Seq<LineAttrView>, es: Seq<AttestationView>) -> bool {
    &&& es.len() == line_authors(las).len()
    &&& forall|k: int|
        0 <= k < es.len() ==> (#[trigger] es[k]).hash == line_authors(las)[k] && ranges_of_author(
            es[k].line_ranges,
            las,
            es[k].hash,
        )
}

/// Whether `v` holds a string equal to `s`.
fn listed(v: &[String], s: &str) -> (r: bool)
    ensures
        r == crate::blame_args::strings_view(v@).contains(s@),
{
    let mut i: usize = 0;
    while i < v.len()
        invariant
            i <= v.len(),
            forall|k: int| 0 <= k < i ==> v@[k]@ != s@,
        decreases v.len() - i,
    {
        if str_eq(v[i].as_str(), s) {
            proof {
                assert(crate::blame_args::strings_view(v@)[i as int] == s@);
            }
            return true;
        }
        i = i + 1;
    }
    proof {
        if crate::blame_args::strings_view(v@).contains(s@) {
            let k = choose|k: int|
                0 <= k < crate::blame_args::strings_view(v@).len() && crate::blame_args::strings_view(v@)[k] == s@;
            assert(v@[k]@ == s@);
        }
    }
    false
}

/// The authors of the attributions (see `line_authors`).
fn authors_of(las: &[LineAttribution]) -> (r: Vec<String>)
    ensures
        crate::blame_args::strings_view(r@) == line_authors(line_attrs_view(las@)),
{
    let ghost lv = line_attrs_view(las@);
    let mut r: Vec<String> = Vec::new();
    let mut i: usize = 0;
    proof {
        assert(lv.take(0) =~= Seq::<LineAttrView>::empty());
        assert(crate::blame_args::strings_view(r@) =~= Seq::<Seq<char>>::empty());
    }
    while i < las.len()
        invariant
            lv == line_attrs_view(las@),
            i <= las.len(),
            crate::blame_args::strings_view(r@) == line_authors(lv.take(i as int)),
        decreases las.len() - i,
    {
        let a = &las[i];
        proof {
            assert(lv.take(i + 1).drop_last() =~= lv.take(i as int));
            assert(lv.take(i + 1).last() == a@);
        }
        if a.start_line <= a.end_line && !listed(r.as_slice(), a.author_id.as_str()) {
            let ghost prev = crate::blame_args::strings_view(r@);
            r.push(a.author_id.clone());
            proof {
                assert(crate::blame_args::strings_view(r@) =~= prev.push(a.author_id@));
            }
        }
        i = i + 1;
    }
    proof {
        assert(lv.take(las.len() as int) =~= lv);
    }
    r
}

/// Every line that the attributions give to `author`, in attribution order.
fn lines_of_author(las: &[LineAttribution], author: &str) -> (r: Vec<u32>)
    ensures
        forall|x: int| holds_line(r@, x) <==> author_line(line_attrs_view(las@), author@, x),
{
    let ghost lv = line_attrs_view(las@);
    let mut r: Vec<u32> = Vec::new();
    let mut i: usize = 0;
    while i < las.len()
        invariant
            lv == line_attrs_view(las@),
            i <= las.len(),
            forall|x: int| holds_line(r@, x) <==> exists|k: int| 0 <= k < i && #[trigger] attr_line(lv, k, author@, x),
        decreases las.len() - i,
    {
        let a = &las[i];
        proof {
            assert(lv[i as int] == a@);
        }
        if str_eq(a.author_id.as_str(), author) && a.start_line <= a.end_line {
            let ghost before = r@;
            assert(forall|x: int|
                holds_line(before, x) <==> exists|k: int| 0 <= k < i && #[trigger] attr_line(lv, k, author@, x));
            let mut l: u64 = a.start_line as u64;
            while l <= a.end_line as u64
                invariant
                    a.start_line <= l <= a.end_line as u64 + 1,
                    r@ == before + lines_between(a.start_line as int, l - 1),
                    lv == line_attrs_view(las@),
                    i < las.len(),
                    lv[i as int] == a@,
                    a.author_id@ == author@,
                    forall|x: int|
                        holds_line(before, x) <==> exists|k: int| 0 <= k < i && #[trigger] attr_line(lv, k, author@, x),
                decreases a.end_line as u64 + 1 - l,
            {
                let ghost prev = r@;
                r.push(l as u32);
                proof {
                    assert(r@ =~= before + lines_between(a.start_line as int, l as int));
                }
                l = l + 1;
            }
            proof {
                let span = lines_between(a.start_line as int, a.end_line as int);
                assert forall|x: int| holds_line(r@, x) <==> (holds_line(before, x) || (a.start_line <= x <= a.end_line)) by {
                    if holds_line(r@, x) {
                        let k = choose|k: int| 0 <= k < r@.len() && r@[k] == x;
                        if k >= before.len() {
                            assert(r@[k] == span[k - before.len()]);
                        } else {
                            assert(before[k] == x);
                        }
                    }
                    if holds_line(before, x) {
                        let k = choose|k: int| 0 <= k < before.len() && before[k] == x;
                        assert(r@[k] == x);
                    }
                    if a.start_line <= x <= a.end_line {
                        let k = before.len() + (x - a.start_line);
                        assert(r@[k] == span[x - a.start_line]);
                    }
                }
            }
            proof {
                assert forall|x: int|
                    holds_line(r@, x) <==> exists|k: int| 0 <= k < i + 1 && #[trigger] attr_line(lv, k, author@, x) by {
                    assert(holds_line(r@, x) <==> (holds_line(before, x) || (a.start_line <= x <= a.end_line)));
                    assert(holds_line(before, x) <==> exists|k: int| 0 <= k < i && #[trigger] attr_line(lv, k, author@, x));
                    if holds_line(r@, x) {
                        if holds_line(before, x) {
                            let k = choose|k: int| 0 <= k < i && #[trigger] attr_line(lv, k, author@, x);
                            assert(0 <= k < i + 1 && attr_line(lv, k, author@, x));
                        } else {
                            assert(attr_line(lv, i as int, author@, x));
                        }
                    }
                    if exists|k: int| 0 <= k < i + 1 && #[trigger] attr_line(lv, k, author@, x) {
                        let k = choose|k: int| 0 <= k < i + 1 && #[trigger] attr_line(lv, k, author@, x);
                        if k < i {
                            assert(holds_line(before, x));
                        } else {
                            assert(a.start_line <= x <= a.end_line);
                        }
                    }
                }
            }
        } else {
            proof {
                assert forall|x: int|
                    holds_line(r@, x) <==> exists|k: int| 0 <= k < i + 1 && #[trigger] attr_line(lv, k, author@, x) by {
                    if exists|k: int| 0 <= k < i + 1 && #[trigger] attr_line(lv, k, author@, x) {
                        let k = choose|k: int| 0 <= k < i + 1 && #[trigger] attr_line(lv, k, author@, x);
                        if k < i {
                            assert(exists|k2: int| 0 <= k2 < i && #[trigger] attr_line(lv, k2, author@, x));
                        }
                    }
                }
            }
        }
        i = i + 1;
    }
    proof {
        assert forall|x: int| holds_line(r@, x) <==> author_line(lv, author@, x) by {
            if author_line(lv, author@, x) {
                let k = choose|k: int| #[trigger] attr_line(lv, k, author@, x);
                assert(0 <= k < las.len());
            }
        }
    }
    r
}

/// One attestation entry per author of the attributions, in order of first appearance,
/// each holding that author's lines compressed into ranges.
pub fn file_entries(las: &[LineAttribution]) -> (r: Vec<AttestationEntry>)
    ensures
        entries_of(line_attrs_view(las@), crate::authorship_log::attestations_view(r@)),
{
    let ghost lv = line_attrs_view(las@);
    let authors = authors_of(las);
    let mut r: Vec<AttestationEntry> = Vec::new();
    let mut k: usize = 0;
    while k < authors.len()
        invariant
            lv == line_attrs_view(las@),
            crate::blame_args::strings_view(authors@) == line_authors(lv),
            k <= authors.len(),
            r@.len() == k,
            forall|j: int|
                0 <= j < k ==> (#[trigger] r@[j])@.hash == line_authors(lv)[j] && ranges_of_author(
                    r@[j]@.line_ranges,
                    lv,
                    r@[j]@.hash,
                ),
        decreases authors.len() - k,
    {
        let a = &authors[k];
        proof {
            assert(crate::blame_args::strings_view(authors@)[k as int] == a@);
        }
        let lines = lines_of_author(las, a.as_str());
        let sorted = sorted_unique(lines.as_slice());
        let ranges = LineRange::compress_lines(sorted.as_slice());
        let e = AttestationEntry::new(a.clone(), ranges);
        proof {
            assert forall|x: int| #[trigger] covered(e@.line_ranges, x) <==> author_line(lv, a@, x) by {
                assert(covered(ranges@, x) <==> holds_line(sorted@, x));
            }
        }
        r.push(e);
        k = k + 1;
    }
    proof {
        let av = crate::authorship_log::attestations_view(r@);
        assert forall|j: int| 0 <= j < av.len() implies (#[trigger] av[j]).hash == line_authors(lv)[j]
            && ranges_of_author(av[j].line_ranges, lv, av[j].hash) by {
            assert(av[j] == r@[j]@);
        }
    }
    r
}

/// The attributions of one file, by character and by line.
#[derive(Clone, Debug)]
pub struct FileAttributions {
    pub path: String,
    pub char_attributions: Vec<Attribution>,
    pub line_attributions: Vec<LineAttribution>,
}

/// The files of `fs` whose line attributions hold at least one line, in order.
pub open spec fn attested_files(fs: Seq<FileAttributions>) -> Seq<FileAttributions>
    decreases fs.len(),
{
    if fs.len() == 0 {
        Seq::empty()
    } else {
        let p = attested_files(fs.drop_last());
        if line_authors(line_attrs_view(fs.last().line_attributions@)).len() > 0 {
            p.push(fs.last())
        } else {
            p
        }
    }
}

/// `atts` holds one attestation per file of `fs` that has attributed lines, in order, with
/// the file's path and one entry per author (see `entries_of`).
pub open spec fn attestations_of(fs: Seq<FileAttributions>, atts: Seq<FileView>) -> bool {
    &&& atts.len() == attested_files(fs).len()
    &&& forall|k: int|
        0 <= k < atts.len() ==> (#[trigger] atts[k]).file_path == attested_files(fs)[k].path@ && entries_of(
            line_attrs_view(attested_files(fs)[k].line_attributions@),
            atts[k].entries,
        )
}

/// The index of the first element of `fs` whose path is `p`, or the length.
pub open spec fn file_position(fs: Seq<FileAttributions>, p: Seq<char>) -> int
    decreases fs.len(),
{
    if fs.len() == 0 {
        0
    } else if fs[0].path@ == p {
        0
    } else {
        1 + file_position(fs.drop_first(), p)
    }
}

/// The index of the first pair of `cs` whose path is `p`, or the length.
pub open spec fn content_position(cs: Seq<(String, String)>, p: Seq<char>) -> int
    decreases cs.len(),
{
    if cs.len() == 0 {
        0
    } else if cs[0].0@ == p {
        0
    } else {
        1 + content_position(cs.drop_first(), p)
    }
}

/// The attributions of the files of a working tree against a base commit, with the prompts
/// they name.
pub struct VirtualAttributions {
    pub base_commit: String,
    /// Attributions per file; each path occurs once.
    pub attributions: Vec<FileAttributions>,
    /// Content per file; each path occurs once.
    pub file_contents: Vec<(String, String)>,
    pub prompts: StrMap<PromptRecord>,
    pub ts: u128,
}

/// Position of the first file with path `p`.
fn find_file_attributions(fs: &[FileAttributions], p: &str) -> (r: usize)
    ensures
        r == file_position(fs@, p@),
        r <= fs@.len(),
        r < fs@.len() ==> fs@[r as int].path@ == p@,
{
    let mut i: usize = 0;
    proof {
        assert(fs@.skip(0) =~= fs@);
    }
    while i < fs.len() && !str_eq(fs[i].path.as_str(), p)
        invariant
            i <= fs@.len(),
            file_position(fs@, p@) == i + file_position(fs@.skip(i as int), p@),
        decreases fs.len() - i,
    {
        proof {
            assert(fs@.skip(i as int).drop_first() =~= fs@.skip(i + 1));
        }
        i = i + 1;
    }
    proof {
        if i < fs.len() {
            assert(fs@.skip(i as int)[0] == fs@[i as int]);
        } else {
            assert(fs@.skip(i as int).len() == 0);
        }
    }
    i
}

/// Position of the first content pair with path `p`.
fn find_content(cs: &[(String, String)], p: &str) -> (r: usize)
    ensures
        r == content_position(cs@, p@),
        r <= cs@.len(),
        r < cs@.len() ==> cs@[r as int].0@ == p@,
{
    let mut i: usize = 0;
    proof {
        assert(cs@.skip(0) =~= cs@);
    }
    while i < cs.len() && !str_eq(cs[i].0.as_str(), p)
        invariant
            i <= cs@.len(),
            content_position(cs@, p@) == i + content_position(cs@.skip(i as int), p@),
        decreases cs.len() - i,
    {
        proof {
            assert(cs@.skip(i as int).drop_first() =~= cs@.skip(i + 1));
        }
        i = i + 1;
    }
    proof {
        if i < cs.len() {
            assert(cs@.skip(i as int)[0] == cs@[i as int]);
        } else {
            assert(cs@.skip(i as int).len() == 0);
        }
    }
    i
}

impl VirtualAttributions {
    /// Attributions against `base_commit` with no prompts.
    pub fn new(
        base_commit: String,
        attributions: Vec<FileAttributions>,
        file_contents: Vec<(String, String)>,
        ts: u128,
    ) -> (v: VirtualAttributions)
        ensures
            v.base_commit@ == base_commit@,
            v.attributions@ == attributions@,
            v.file_contents@ == file_contents@,
            v.prompts@ == Map::<Seq<char>, crate::authorship_log::PromptView>::empty(),
            v.ts == ts,
    {
        VirtualAttributions { base_commit, attributions, file_contents, prompts: StrMap::new(), ts }
    }

    /// Attributions against `base_commit` with the given prompts.
    pub fn new_with_prompts(
        base_commit: String,
        attributions: Vec<FileAttributions>,
        file_contents: Vec<(String, String)>,
        prompts: StrMap<PromptRecord>,
        ts: u128,
    ) -> (v: VirtualAttributions)
        ensures
            v.base_commit@ == base_commit@,
            v.attributions@ == attributions@,
            v.file_contents@ == file_contents@,
            v.prompts@ == prompts@,
            v.ts == ts,
    {
        VirtualAttributions { base_commit, attributions, file_contents, prompts, ts }
    }

    /// The attributions of a file, if it has any.
    pub fn get_attributions(&self, file_path: &str) -> (r: Option<&FileAttributions>)
        ensures
            file_position(self.attributions@, file_path@) < self.attributions@.len() ==> r == Some(
                &self.attributions@[file_position(self.attributions@, file_path@)],
            ),
            file_position(self.attributions@, file_path@) >= self.attributions@.len() ==> r is None,
    {
        let i = find_file_attributions(self.attributions.as_slice(), file_path);
        if i < self.attributions.len() {
            Some(&self.attributions[i])
        } else {
            None
        }
    }

    /// The character attributions of a file, if it has any.
    pub fn get_char_attributions(&self, file_path: &str) -> (r: Option<&Vec<Attribution>>)
        ensures
            file_position(self.attributions@, file_path@) < self.attributions@.len() ==> r == Some(
                &self.attributions@[file_position(self.attributions@, file_path@)].char_attributions,
            ),
            file_position(self.attributions@, file_path@) >= self.attributions@.len() ==> r is None,
    {
        let i = find_file_attributions(self.attributions.as_slice(), file_path);
        if i < self.attributions.len() {
            Some(&self.attributions[i].char_attributions)
        } else {
            None
        }
    }

    /// The line attributions of a file, if it has any.
    pub fn get_line_attributions(&self, file_path: &str) -> (r: Option<&Vec<LineAttribution>>)
        ensures
            file_position(self.attributions@, file_path@) < self.attributions@.len() ==> r == Some(
                &self.attributions@[file_position(self.attributions@, file_path@)].line_attributions,
            ),
            file_position(self.attributions@, file_path@) >= self.attributions@.len() ==> r is None,
    {
        let i = find_file_attributions(self.attributions.as_slice(), file_path);
        if i < self.attributions.len() {
            Some(&self.attributions[i].line_attributions)
        } else {
            None
        }
    }

    /// The paths of the attributed files.
    pub fn files(&self) -> (r: Vec<String>)
        ensures
            r@.len() == self.attributions@.len(),
            forall|k: int| 0 <= k < r@.len() ==> (#[trigger] r@[k])@ == self.attributions@[k].path@,
    {
        let mut r: Vec<String> = Vec::new();
        let mut i: usize = 0;
        while i < self.attributions.len()
            invariant
                i <= self.attributions@.len(),
                r@.len() == i,
                forall|k: int| 0 <= k < i ==> (#[trigger] r@[k])@ == self.attributions@[k].path@,
            decreases self.attributions.len() - i,
        {
            r.push(self.attributions[i].path.clone());
            i = i + 1;
        }
        r
    }

    /// The base commit.
    pub fn base_commit(&self) -> (r: &str)
        ensures
            r@ == self.base_commit@,
    {
        self.base_commit.as_str()
    }

    /// The time stamp given to new attributions.
    pub fn timestamp(&self) -> (r: u128)
        ensures
            r == self.ts,
    {
        self.ts
    }

    /// The prompts.
    pub fn prompts(&self) -> (r: &StrMap<PromptRecord>)
        ensures
            r == &self.prompts,
    {
        &self.prompts
    }

    /// The content of a file, if known.
    pub fn get_file_content(&self, file_path: &str) -> (r: Option<&String>)
        ensures
            content_position(self.file_contents@, file_path@) < self.file_contents@.len() ==> r == Some(
                &self.file_contents@[content_position(self.file_contents@, file_path@)].1,
            ),
            content_position(self.file_contents@, file_path@) >= self.file_contents@.len() ==> r is None,
    {
        let i = find_content(self.file_contents.as_slice(), file_path);
        if i < self.file_contents.len() {
            Some(&self.file_contents[i].1)
        } else {
            None
        }
    }

    /// The authorship log of these attributions: the base commit and prompts, and for each
    /// file with attributed lines an attestation holding one entry per author with that
    /// author's lines as ranges.
    pub fn to_authorship_log(&self) -> (r: AuthorshipLog)
        ensures
            attestations_of(self.attributions@, r@.attestations),
            r@.base_commit_sha == self.base_commit@,
            r@.prompts == self.prompts@,
            r@.schema_version == crate::authorship_log::AUTHORSHIP_LOG_VERSION@,
    {
        let ghost fs = self.attributions@;
        let mut atts: Vec<FileAttestation> = Vec::new();
        let mut i: usize = 0;
        proof {
            assert(fs.take(0) =~= Seq::<FileAttributions>::empty());
        }
        while i < self.attributions.len()
            invariant
                fs == self.attributions@,
                i <= fs.len(),
                attestations_of(fs.take(i as int), crate::authorship_log::files_view(atts@)),
            decreases self.attributions.len() - i,
        {
            let f = &self.attributions[i];
            let entries = file_entries(f.line_attributions.as_slice());
            let ghost prev = crate::authorship_log::files_view(atts@);
            proof {
                assert(fs.take(i + 1).drop_last() =~= fs.take(i as int));
                assert(fs.take(i + 1).last() == *f);
            }
            if entries.len() > 0 {
                let fa = FileAttestation { file_path: f.path.clone(), entries };
                atts.push(fa);
                proof {
                    let cur = crate::authorship_log::files_view(atts@);
                    assert(cur =~= prev.push(fa@));
                    assert(attested_files(fs.take(i + 1)) == attested_files(fs.take(i as int)).push(*f));
                    assert forall|k: int| 0 <= k < cur.len() implies (#[trigger] cur[k]).file_path == attested_files(
                        fs.take(i + 1),
                    )[k].path@ && entries_of(
                        line_attrs_view(attested_files(fs.take(i + 1))[k].line_attributions@),
                        cur[k].entries,
                    ) by {
                        if k < prev.len() {
                            assert(cur[k] == prev[k]);
                        }
                    }
                }
            } else {
                proof {
                    assert(attested_files(fs.take(i + 1)) == attested_files(fs.take(i as int)));
                }
            }
            i = i + 1;
        }
        proof {
            assert(fs.take(fs.len() as int) =~= fs);
        }
        AuthorshipLog {
            attestations: atts,
            metadata: crate::authorship_log::AuthorshipMetadata {
                schema_version: String::from_str(crate::authorship_log::AUTHORSHIP_LOG_VERSION),
                base_commit_sha: self.base_commit.clone(),
                prompts: self.prompts.duplicate(),
            },
        }
    }
}

/// Lines matched so far while splitting a file's attributed lines: which committed lines
/// are taken, and the (author, line) pairs found committed (with committed line numbers)
/// and not committed (with working line numbers).
pub struct SplitState {
    pub used: Seq<bool>,
    pub committed: Seq<(Seq<char>, u32)>,
    pub uncommitted: Seq<(Seq<char>, u32)>,
}

/// The first committed line at or after `j` with the given content that is not taken yet,
/// or the number of committed lines.
pub open spec fn first_unused(committed: Seq<Seq<char>>, content: Seq<char>, used: Seq<bool>, j: int) -> int
    decreases committed.len() - j,
{
    if j < 0 || j >= committed.len() {
        committed.len() as int
    } else if committed[j] == content && !used[j] {
        j
    } else {
        first_unused(committed, content, used, j + 1)
    }
}

/// `first_unused` from `j` on gives the first committed line at or after `j` that has the
/// content and is free, or the number of committed lines when there is none.
proof fn lemma_first_unused_from(committed: Seq<Seq<char>>, content: Seq<char>, used: Seq<bool>, j: int)
    requires
        0 <= j <= committed.len(),
    ensures
        j <= first_unused(committed, content, used, j) <= committed.len(),
        first_unused(committed, content, used, j) < committed.len() ==> committed[first_unused(committed, content, used, j)]
            == content && !used[first_unused(committed, content, used, j)],
        forall|k: int|
            j <= k < first_unused(committed, content, used, j) ==> #[trigger] committed[k] != content || used[k],
    decreases committed.len() - j,
{
    if j < committed.len() && !(committed[j] == content && !used[j]) {
        lemma_first_unused_from(committed, content, used, j + 1);
    }
}

/// The committed line matched to an attributed line is the lowest-numbered committed line
/// with the same content that is not taken yet: it has the content, it is free, and every
/// line before it has other content or is taken. When no line qualifies, the result is the
/// number of committed lines.
pub proof fn lemma_first_unused_is_first_free_match(committed: Seq<Seq<char>>, content: Seq<char>, used: Seq<bool>)
    ensures
        0 <= first_unused(committed, content, used, 0) <= committed.len(),
        first_unused(committed, content, used, 0) < committed.len() ==> committed[first_unused(committed, content, used, 0)]
            == content && !used[first_unused(committed, content, used, 0)],
        forall|k: int|
            0 <= k < first_unused(committed, content, used, 0) ==> #[trigger] committed[k] != content || used[k],
{
    lemma_first_unused_from(committed, content, used, 0);
}

/// One attributed line `n` of `author`: a line past the working text is skipped; otherwise
/// the first free committed line with the same content is taken for it, or, with none,
/// the line is not committed.
pub open spec fn line_step(
    st: SplitState,
    working: Seq<Seq<char>>,
    committed: Seq<Seq<char>>,
    author: Seq<char>,
    n: u32,
) -> SplitState {
    let idx: int = if n >= 1 { n - 1 } else { 0 };
    if idx >= working.len() {
        st
    } else {
        let j = first_unused(committed, working[idx], st.used, 0);
        if j < committed.len() {
            SplitState {
                used: st.used.update(j, true),
                committed: st.committed.push((author, (j + 1) as u32)),
                uncommitted: st.uncommitted,
            }
        } else {
            SplitState { used: st.used, committed: st.committed, uncommitted: st.uncommitted.push((author, n)) }
        }
    }
}

/// The lines `n..=e` of `author`, one after the other.
pub open spec fn span_steps(
    st: SplitState,
    working: Seq<Seq<char>>,
    committed: Seq<Seq<char>>,
    author: Seq<char>,
    n: int,
    e: int,
) -> SplitState
    decreases e + 1 - n,
{
    if n > e || n < 0 || n > u32::MAX {
        st
    } else {
        span_steps(line_step(st, working, committed, author, n as u32), working, committed, author, n + 1, e)
    }
}

/// The attributions from `i` on, one after the other.
pub open spec fn attr_steps(
    st: SplitState,
    working: Seq<Seq<char>>,
    committed: Seq<Seq<char>>,
    las: Seq<LineAttrView>,
    i: int,
) -> SplitState
    decreases las.len() - i,
{
    if i < 0 || i >= las.len() {
        st
    } else {
        attr_steps(
            span_steps(st, working, committed, las[i].author_id, las[i].start_line as int, las[i].end_line as int),
            working,
            committed,
            las,
            i + 1,
        )
    }
}

/// Nothing matched yet.
pub open spec fn split_start(n: nat) -> SplitState {
    SplitState { used: Seq::new(n, |k: int| false), committed: Seq::empty(), uncommitted: Seq::empty() }
}

/// How the attributions `las` of a file split against its committed lines.
pub open spec fn split_of(working: Seq<Seq<char>>, committed: Seq<Seq<char>>, las: Seq<LineAttrView>) -> SplitState {
    attr_steps(split_start(committed.len()), working, committed, las, 0)
}

/// The views of (author, line) pairs.
pub open spec fn pairs_view(v: Seq<(String, u32)>) -> Seq<(Seq<char>, u32)> {
    v.map_values(|p: (String, u32)| (p.0@, p.1))
}

/// Whether two character lists are equal.
fn chars_eq(a: &[char], b: &[char]) -> (r: bool)
    ensures
        r == (a@ == b@),
{
    if a.len() != b.len() {
        return false;
    }
    let mut i: usize = 0;
    while i < a.len()
        invariant
            a@.len() == b@.len(),
            i <= a@.len(),
            forall|k: int| 0 <= k < i ==> a@[k] == b@[k],
        decreases a.len() - i,
    {
        if a[i] != b[i] {
            return false;
        }
        i = i + 1;
    }
    proof {
        assert(a@ =~= b@);
    }
    true
}

/// The first free committed line with the given content (see `first_unused`).
fn first_unused_line(committed: &[Vec<char>], content: &[char], used: &[bool]) -> (r: usize)
    requires
        used@.len() == committed@.len(),
    ensures
        r == first_unused(crate::log_format::chars_view(committed@), content@, used@, 0),
        r <= committed@.len(),
        r < committed@.len() ==> committed@[r as int]@ == content@ && !used@[r as int],
        forall|k: int| 0 <= k < r ==> #[trigger] committed@[k]@ != content@ || used@[k],
{
    let ghost cv = crate::log_format::chars_view(committed@);
    let mut j: usize = 0;
    while j < committed.len()
        invariant
            cv == crate::log_format::chars_view(committed@),
            used@.len() == committed@.len(),
            j <= committed@.len(),
            first_unused(cv, content@, used@, 0) == first_unused(cv, content@, used@, j as int),
            forall|k: int| 0 <= k < j ==> #[trigger] committed@[k]@ != content@ || used@[k],
        decreases committed.len() - j,
    {
        proof {
            assert(cv[j as int] == committed@[j as int]@);
        }
        if !used[j] && chars_eq(committed[j].as_slice(), content) {
            return j;
        }
        j = j + 1;
    }
    j
}

/// Splits the attributed lines of a file: each line of each attribution, in order, is
/// matched by content to the first committed line not matched before, or else found not
/// committed; lines past the working text are skipped. Gives the committed pairs
/// (author, committed line) and the uncommitted pairs (author, working line).
pub fn split_file_lines(working: &[Vec<char>], committed: &[Vec<char>], las: &[LineAttribution]) -> (r: (
    Vec<(String, u32)>,
    Vec<(String, u32)>,
))
    ensures
        pairs_view(r.0@) == split_of(
            crate::log_format::chars_view(working@),
            crate::log_format::chars_view(committed@),
            line_attrs_view(las@),
        ).committed,
        pairs_view(r.1@) == split_of(
            crate::log_format::chars_view(working@),
            crate::log_format::chars_view(committed@),
            line_attrs_view(las@),
        ).uncommitted,
{
    let ghost wv = crate::log_format::chars_view(working@);
    let ghost cv = crate::log_format::chars_view(committed@);
    let ghost lv = line_attrs_view(las@);
    let mut used: Vec<bool> = Vec::new();
    let mut k: usize = 0;
    while k < committed.len()
        invariant
            k <= committed@.len(),
            used@ == Seq::new(k as nat, |q: int| false),
        decreases committed.len() - k,
    {
        used.push(false);
        proof {
            assert(used@ =~= Seq::new((k + 1) as nat, |q: int| false));
        }
        k = k + 1;
    }
    let mut cp: Vec<(String, u32)> = Vec::new();
    let mut up: Vec<(String, u32)> = Vec::new();
    proof {
        assert(pairs_view(cp@) =~= Seq::<(Seq<char>, u32)>::empty());
        assert(pairs_view(up@) =~= Seq::<(Seq<char>, u32)>::empty());
        assert(cv.len() == committed@.len());
    }
    let mut i: usize = 0;
    while i < las.len()
        invariant
            wv == crate::log_format::chars_view(working@),
            cv == crate::log_format::chars_view(committed@),
            lv == line_attrs_view(las@),
            used@.len() == committed@.len(),
            i <= las@.len(),
            split_of(wv, cv, lv) == attr_steps(
                SplitState { used: used@, committed: pairs_view(cp@), uncommitted: pairs_view(up@) },
                wv,
                cv,
                lv,
                i as int,
            ),
        decreases las.len() - i,
    {
        let a = &las[i];
        proof {
            assert(lv[i as int] == a@);
        }
        let mut n: u64 = a.start_line as u64;
        while n <= a.end_line as u64
            invariant
                wv == crate::log_format::chars_view(working@),
                cv == crate::log_format::chars_view(committed@),
                lv == line_attrs_view(las@),
                used@.len() == committed@.len(),
                i < las@.len(),
                lv[i as int] == a@,
                a.start_line <= n,
                n <= a.end_line as u64 + 1 || n == a.start_line as u64,
                split_of(wv, cv, lv) == attr_steps(
                    span_steps(
                        SplitState { used: used@, committed: pairs_view(cp@), uncommitted: pairs_view(up@) },
                        wv,
                        cv,
                        a.author_id@,
                        n as int,
                        a.end_line as int,
                    ),
                    wv,
                    cv,
                    lv,
                    i + 1,
                ),
            decreases a.end_line as u64 + 1 - n,
        {
            let line = n as u32;
            let idx: usize = if line >= 1 { (line - 1) as usize } else { 0 };
            if idx < working.len() {
                proof {
                    assert(wv[idx as int] == working@[idx as int]@);
                }
                let j = first_unused_line(committed, working[idx].as_slice(), used.as_slice());
                if j < committed.len() {
                    let ghost pc = pairs_view(cp@);
                    used.set(j, true);
                    cp.push((a.author_id.clone(), (j + 1) as u32));
                    proof {
                        assert(pairs_view(cp@) =~= pc.push((a.author_id@, (j + 1) as u32)));
                    }
                } else {
                    let ghost pu = pairs_view(up@);
                    up.push((a.author_id.clone(), line));
                    proof {
                        assert(pairs_view(up@) =~= pu.push((a.author_id@, line)));
                    }
                }
            }
            n = n + 1;
        }
        i = i + 1;
    }
    (cp, up)
}

/// Whether the `k`-th pair is (`author`, `x`).
pub open spec fn pair_has(ps: Seq<(Seq<char>, u32)>, k: int, author: Seq<char>, x: int) -> bool {
    &&& 0 <= k < ps.len()
    &&& ps[k].0 == author
    &&& ps[k].1 == x
}

/// Whether some pair is (`author`, `x`).
pub open spec fn pair_line(ps: Seq<(Seq<char>, u32)>, author: Seq<char>, x: int) -> bool {
    exists|k: int| #[trigger] pair_has(ps, k, author, x)
}

/// The authors of the pairs, each once, in order of first appearance.
pub open spec fn pair_authors(ps: Seq<(Seq<char>, u32)>) -> Seq<Seq<char>>
    decreases ps.len(),
{
    if ps.len() == 0 {
        Seq::empty()
    } else {
        let p = pair_authors(ps.drop_last());
        if p.contains(ps.last().0) {
            p
        } else {
            p.push(ps.last().0)
        }
    }
}

/// `rs` is the canonical list of ranges of the lines paired with `author`.
pub open spec fn ranges_of_pairs(rs: Seq<LineRange>, ps: Seq<(Seq<char>, u32)>, author: Seq<char>) -> bool {
    &&& canonical(rs)
    &&& forall|x: int| #[trigger] covered(rs, x) <==> pair_line(ps, author, x)
}

/// `es` holds one entry per author of the pairs, in order, each with the canonical ranges
/// of that author's lines.
pub open spec fn entries_of_pairs(ps: Seq<(Seq<char>, u32)>, es: Seq<AttestationView>) -> bool {
    &&& es.len() == pair_authors(ps).len()
    &&& forall|k: int|
        0 <= k < es.len() ==> (#[trigger] es[k]).hash == pair_authors(ps)[k] && ranges_of_pairs(
            es[k].line_ranges,
            ps,
            es[k].hash,
        )
}

/// The line attributions of the ranges `rs`, all to `author`.
pub open spec fn run_attrs(rs: Seq<LineRange>, author: Seq<char>) -> Seq<LineAttrView> {
    rs.map_values(
        |r: LineRange| LineAttrView { start_line: r.lo() as u32, end_line: r.hi() as u32, author_id: author, overridden: false },
    )
}

/// The line attributions of the range lists `parts`, the `k`-th one to the `k`-th author,
/// one after the other.
pub open spec fn flatten_runs(authors: Seq<Seq<char>>, parts: Seq<Seq<LineRange>>) -> Seq<LineAttrView>
    decreases parts.len(),
{
    if parts.len() == 0 {
        Seq::empty()
    } else {
        flatten_runs(authors, parts.drop_last()) + run_attrs(parts.last(), authors[parts.len() - 1])
    }
}

/// `out` holds, per author of the pairs in order, one line attribution per run of that
/// author's consecutive lines, in increasing order.
pub open spec fn runs_of_pairs(ps: Seq<(Seq<char>, u32)>, out: Seq<LineAttrView>) -> bool {
    exists|parts: Seq<Seq<LineRange>>|
        #![trigger flatten_runs(pair_authors(ps), parts)]
        parts.len() == pair_authors(ps).len() && (forall|k: int|
            0 <= k < parts.len() ==> ranges_of_pairs(#[trigger] parts[k], ps, pair_authors(ps)[k])) && out
            == flatten_runs(pair_authors(ps), parts)
}

/// The authors of the pairs (see `pair_authors`).
fn authors_of_pairs(ps: &[(String, u32)]) -> (r: Vec<String>)
    ensures
        crate::blame_args::strings_view(r@) == pair_authors(pairs_view(ps@)),
{
    let ghost pv = pairs_view(ps@);
    let mut r: Vec<String> = Vec::new();
    let mut i: usize = 0;
    proof {
        assert(pv.take(0) =~= Seq::<(Seq<char>, u32)>::empty());
        assert(crate::blame_args::strings_view(r@) =~= Seq::<Seq<char>>::empty());
    }
    while i < ps.len()
        invariant
            pv == pairs_view(ps@),
            i <= ps.len(),
            crate::blame_args::strings_view(r@) == pair_authors(pv.take(i as int)),
        decreases ps.len() - i,
    {
        proof {
            assert(pv.take(i + 1).drop_last() =~= pv.take(i as int));
            assert(pv.take(i + 1).last() == pv[i as int]);
        }
        if !listed(r.as_slice(), ps[i].0.as_str()) {
            let ghost prev = crate::blame_args::strings_view(r@);
            r.push(ps[i].0.clone());
            proof {
                assert(crate::blame_args::strings_view(r@) =~= prev.push(ps@[i as int].0@));
            }
        }
        i = i + 1;
    }
    proof {
        assert(pv.take(ps.len() as int) =~= pv);
    }
    r
}

/// The lines paired with `author`, in order.
fn lines_of_pairs(ps: &[(String, u32)], author: &str) -> (r: Vec<u32>)
    ensures
        forall|x: int| holds_line(r@, x) <==> pair_line(pairs_view(ps@), author@, x),
{
    let ghost pv = pairs_view(ps@);
    let mut r: Vec<u32> = Vec::new();
    let mut i: usize = 0;
    while i < ps.len()
        invariant
            pv == pairs_view(ps@),
            i <= ps.len(),
            forall|x: int| holds_line(r@, x) <==> exists|k: int| 0 <= k < i && #[trigger] pair_has(pv, k, author@, x),
        decreases ps.len() - i,
    {
        proof {
            assert(pv[i as int] == (ps@[i as int].0@, ps@[i as int].1));
        }
        if str_eq(ps[i].0.as_str(), author) {
            let ghost prev = r@;
            r.push(ps[i].1);
            proof {
                assert forall|x: int|
                    holds_line(r@, x) <==> exists|k: int| 0 <= k < i + 1 && #[trigger] pair_has(pv, k, author@, x) by {
                    crate::line_range::lemma_holds_push(prev, ps@[i as int].1, x);
                    assert(holds_line(prev, x) <==> exists|k: int| 0 <= k < i && #[trigger] pair_has(pv, k, author@, x));
                    if x == ps@[i as int].1 {
                        assert(pair_has(pv, i as int, author@, x));
                    }
                    if exists|k: int| 0 <= k < i + 1 && #[trigger] pair_has(pv, k, author@, x) {
                        let k = choose|k: int| 0 <= k < i + 1 && #[trigger] pair_has(pv, k, author@, x);
                        if k < i {
                            assert(holds_line(prev, x));
                        }
                    }
                    if holds_line(prev, x) {
                        let k = choose|k: int| 0 <= k < i && #[trigger] pair_has(pv, k, author@, x);
                        assert(0 <= k < i + 1 && pair_has(pv, k, author@, x));
                    }
                }
            }
        } else {
            proof {
                assert forall|x: int|
                    holds_line(r@, x) <==> exists|k: int| 0 <= k < i + 1 && #[trigger] pair_has(pv, k, author@, x) by {
                    if exists|k: int| 0 <= k < i + 1 && #[trigger] pair_has(pv, k, author@, x) {
                        let k = choose|k: int| 0 <= k < i + 1 && #[trigger] pair_has(pv, k, author@, x);
                        if k < i {
                            assert(exists|k2: int| 0 <= k2 < i && #[trigger] pair_has(pv, k2, author@, x));
                        }
                    }
                    if holds_line(r@, x) {
                        let k = choose|k: int| 0 <= k < i && #[trigger] pair_has(pv, k, author@, x);
                        assert(0 <= k < i + 1 && pair_has(pv, k, author@, x));
                    }
                }
            }
        }
        i = i + 1;
    }
    proof {
        assert forall|x: int| holds_line(r@, x) <==> pair_line(pv, author@, x) by {
            if pair_line(pv, author@, x) {
                let k = choose|k: int| #[trigger] pair_has(pv, k, author@, x);
                assert(0 <= k < ps.len());
            }
        }
    }
    r
}

/// The canonical ranges of the lines paired with `author`.
fn author_ranges(ps: &[(String, u32)], author: &str) -> (r: Vec<LineRange>)
    ensures
        ranges_of_pairs(r@, pairs_view(ps@), author@),
{
    let lines = lines_of_pairs(ps, author);
    let sorted = sorted_unique(lines.as_slice());
    let ranges = LineRange::compress_lines(sorted.as_slice());
    proof {
        assert forall|x: int| #[trigger] covered(ranges@, x) <==> pair_line(pairs_view(ps@), author@, x) by {
            assert(covered(ranges@, x) <==> holds_line(sorted@, x));
        }
    }
    ranges
}

/// One attestation entry per author of the pairs, in order of first appearance, with that
/// author's lines as ranges.
pub fn pair_entries(ps: &[(String, u32)]) -> (r: Vec<AttestationEntry>)
    ensures
        entries_of_pairs(pairs_view(ps@), crate::authorship_log::attestations_view(r@)),
{
    let ghost pv = pairs_view(ps@);
    let authors = authors_of_pairs(ps);
    let mut r: Vec<AttestationEntry> = Vec::new();
    let mut k: usize = 0;
    while k < authors.len()
        invariant
            pv == pairs_view(ps@),
            crate::blame_args::strings_view(authors@) == pair_authors(pv),
            k <= authors.len(),
            r@.len() == k,
            forall|j: int|
                0 <= j < k ==> (#[trigger] r@[j])@.hash == pair_authors(pv)[j] && ranges_of_pairs(
                    r@[j]@.line_ranges,
                    pv,
                    r@[j]@.hash,
                ),
        decreases authors.len() - k,
    {
        let a = &authors[k];
        proof {
            assert(crate::blame_args::strings_view(authors@)[k as int] == a@);
        }
        let ranges = author_ranges(ps, a.as_str());
        r.push(AttestationEntry::new(a.clone(), ranges));
        k = k + 1;
    }
    proof {
        let av = crate::authorship_log::attestations_view(r@);
        assert forall|j: int| 0 <= j < av.len() implies (#[trigger] av[j]).hash == pair_authors(pv)[j]
            && ranges_of_pairs(av[j].line_ranges, pv, av[j].hash) by {
            assert(av[j] == r@[j]@);
        }
    }
    r
}

/// Per author of the pairs, in order of first appearance, one line attribution per run of
/// that author's consecutive lines.
pub fn pair_runs(ps: &[(String, u32)]) -> (r: Vec<LineAttribution>)
    ensures
        runs_of_pairs(pairs_view(ps@), line_attrs_view(r@)),
{
    let ghost pv = pairs_view(ps@);
    let authors = authors_of_pairs(ps);
    let ghost av = crate::blame_args::strings_view(authors@);
    let mut r: Vec<LineAttribution> = Vec::new();
    let ghost mut parts: Seq<Seq<LineRange>> = Seq::empty();
    let mut k: usize = 0;
    proof {
        assert(line_attrs_view(r@) =~= Seq::<LineAttrView>::empty());
    }
    while k < authors.len()
        invariant
            pv == pairs_view(ps@),
            av == crate::blame_args::strings_view(authors@),
            av == pair_authors(pv),
            k <= authors.len(),
            parts.len() == k,
            forall|j: int| 0 <= j < k ==> ranges_of_pairs(#[trigger] parts[j], pv, av[j]),
            line_attrs_view(r@) == flatten_runs(av, parts),
        decreases authors.len() - k,
    {
        let a = &authors[k];
        proof {
            assert(av[k as int] == a@);
        }
        let ranges = author_ranges(ps, a.as_str());
        let ghost base = line_attrs_view(r@);
        let mut q: usize = 0;
        while q < ranges.len()
            invariant
                q <= ranges@.len(),
                line_attrs_view(r@) == base + run_attrs(ranges@.take(q as int), a@),
            decreases ranges.len() - q,
        {
            let rg = ranges[q];
            let la = LineAttribution { start_line: rg.start(), end_line: rg.end(), author_id: a.clone(), overridden: false };
            let ghost prev = line_attrs_view(r@);
            r.push(la);
            proof {
                assert(ranges@.take(q + 1) =~= ranges@.take(q as int).push(rg));
                assert(run_attrs(ranges@.take(q + 1), a@) =~= run_attrs(ranges@.take(q as int), a@).push(la@));
                assert(line_attrs_view(r@) =~= prev.push(la@));
            }
            q = q + 1;
        }
        proof {
            assert(ranges@.take(ranges@.len() as int) =~= ranges@);
            let np = parts.push(ranges@);
            assert(np.drop_last() =~= parts);
            assert(flatten_runs(av, np) == flatten_runs(av, parts) + run_attrs(ranges@, av[k as int]));
            assert forall|j: int| 0 <= j < k + 1 implies ranges_of_pairs(#[trigger] np[j], pv, av[j]) by {
                if j < k {
                    assert(np[j] == parts[j]);
                }
            }
            parts = np;
        }
        k = k + 1;
    }
    proof {
        assert(flatten_runs(pair_authors(pv), parts) == line_attrs_view(r@));
    }
    r
}

/// What stays to be attributed in the working tree after a commit: per file, the line
/// attributions of the lines that were not committed, and the prompts they name.
pub struct InitialAttributions {
    pub files: Vec<(String, Vec<LineAttribution>)>,
    pub prompts: StrMap<PromptRecord>,
}

/// The committed content of path `p`, if the commit has the file.
pub open spec fn committed_text(cfs: Seq<(String, String)>, p: Seq<char>) -> Option<Seq<char>> {
    let k = content_position(cfs, p);
    if k < cfs.len() {
        Some(cfs[k].1@)
    } else {
        None
    }
}

/// The working lines of path `p` (none when its content is unknown).
pub open spec fn working_lines(cs: Seq<(String, String)>, p: Seq<char>) -> Seq<Seq<char>> {
    let k = content_position(cs, p);
    if k < cs.len() {
        crate::log_format::lines_of(cs[k].1@)
    } else {
        Seq::empty()
    }
}

/// How the attributed lines of file `f` split against its committed content.
pub open spec fn file_split(cs: Seq<(String, String)>, cfs: Seq<(String, String)>, f: FileAttributions) -> SplitState {
    split_of(
        working_lines(cs, f.path@),
        match committed_text(cfs, f.path@) {
            Some(t) => crate::log_format::lines_of(t),
            None => Seq::empty(),
        },
        line_attrs_view(f.line_attributions@),
    )
}

/// Whether file `f` has line attributions and some of its lines went into the commit.
pub open spec fn logs_file(cs: Seq<(String, String)>, cfs: Seq<(String, String)>, f: FileAttributions) -> bool {
    &&& f.line_attributions@.len() > 0
    &&& committed_text(cfs, f.path@) is Some
    &&& file_split(cs, cfs, f).committed.len() > 0
}

/// Whether file `f` has line attributions and some of them stay uncommitted: all of them
/// when the commit lacks the file.
pub open spec fn keeps_file(cs: Seq<(String, String)>, cfs: Seq<(String, String)>, f: FileAttributions) -> bool {
    &&& f.line_attributions@.len() > 0
    &&& (committed_text(cfs, f.path@) is None || file_split(cs, cfs, f).uncommitted.len() > 0)
}

/// The files of `fs` that `logs_file` holds of, in order.
pub open spec fn logged_files(fs: Seq<FileAttributions>, cs: Seq<(String, String)>, cfs: Seq<(String, String)>) -> Seq<
    FileAttributions,
>
    decreases fs.len(),
{
    if fs.len() == 0 {
        Seq::empty()
    } else {
        let p = logged_files(fs.drop_last(), cs, cfs);
        if logs_file(cs, cfs, fs.last()) {
            p.push(fs.last())
        } else {
            p
        }
    }
}

/// The files of `fs` that `keeps_file` holds of, in order.
pub open spec fn kept_files(fs: Seq<FileAttributions>, cs: Seq<(String, String)>, cfs: Seq<(String, String)>) -> Seq<
    FileAttributions,
>
    decreases fs.len(),
{
    if fs.len() == 0 {
        Seq::empty()
    } else {
        let p = kept_files(fs.drop_last(), cs, cfs);
        if keeps_file(cs, cfs, fs.last()) {
            p.push(fs.last())
        } else {
            p
        }
    }
}

/// The line attributions kept for file `f`: all of them when the commit lacks the file,
/// else one per run of each author's uncommitted lines.
pub open spec fn kept_attrs(cs: Seq<(String, String)>, cfs: Seq<(String, String)>, f: FileAttributions, out: Seq<LineAttrView>) -> bool {
    match committed_text(cfs, f.path@) {
        None => out == line_attrs_view(f.line_attributions@),
        Some(_) => runs_of_pairs(file_split(cs, cfs, f).uncommitted, out),
    }
}

/// Whether file `f` leaves prompt `id` referenced: the commit lacks the file and one of its
/// attributions names `id`, or one of its uncommitted lines does.
pub open spec fn file_refs(cs: Seq<(String, String)>, cfs: Seq<(String, String)>, f: FileAttributions, id: Seq<char>) -> bool {
    &&& f.line_attributions@.len() > 0
    &&& match committed_text(cfs, f.path@) {
        None => exists|k: int| 0 <= k < f.line_attributions@.len() && (#[trigger] f.line_attributions@[k]).author_id@ == id,
        Some(_) => exists|k: int|
            0 <= k < file_split(cs, cfs, f).uncommitted.len() && (#[trigger] file_split(cs, cfs, f).uncommitted[k]).0 == id,
    }
}

/// Whether some file of `fs` leaves prompt `id` referenced.
pub open spec fn referenced(fs: Seq<FileAttributions>, cs: Seq<(String, String)>, cfs: Seq<(String, String)>, id: Seq<char>) -> bool {
    exists|i: int| 0 <= i < fs.len() && #[trigger] file_refs(cs, cfs, fs[i], id)
}

/// A copy of a list of line attributions.
fn copy_line_attrs(v: &[LineAttribution]) -> (r: Vec<LineAttribution>)
    ensures
        line_attrs_view(r@) == line_attrs_view(v@),
{
    let mut r: Vec<LineAttribution> = Vec::new();
    let mut i: usize = 0;
    while i < v.len()
        invariant
            i <= v.len(),
            line_attrs_view(r@) == line_attrs_view(v@.take(i as int)),
        decreases v.len() - i,
    {
        let a = &v[i];
        let ghost prev = line_attrs_view(r@);
        r.push(
            LineAttribution {
                start_line: a.start_line,
                end_line: a.end_line,
                author_id: a.author_id.clone(),
                overridden: a.overridden,
            },
        );
        proof {
            assert(line_attrs_view(r@) =~= prev.push(a@));
            assert(line_attrs_view(v@.take(i + 1)) =~= line_attrs_view(v@.take(i as int)).push(a@));
        }
        i = i + 1;
    }
    proof {
        assert(v@.take(v@.len() as int) =~= v@);
    }
    r
}

/// What one file gives: its attestation (when some of its lines were committed), its kept
/// attributions (when some stay), and the prompt ids they reference.
struct FileOutcome {
    attestation: Option<FileAttestation>,
    kept: Option<(String, Vec<LineAttribution>)>,
    refs: Vec<String>,
}

impl VirtualAttributions {
    /// Splits the attributed lines of one file with attributions.
    fn split_file(&self, f: &FileAttributions, committed_files: &[(String, String)]) -> (r: FileOutcome)
        requires
            f.line_attributions@.len() > 0,
        ensures
            (r.attestation is Some) == logs_file(self.file_contents@, committed_files@, *f),
            r.attestation matches Some(a) ==> a@.file_path == f.path@ && entries_of_pairs(
                file_split(self.file_contents@, committed_files@, *f).committed,
                a@.entries,
            ),
            (r.kept is Some) == keeps_file(self.file_contents@, committed_files@, *f),
            r.kept matches Some(k) ==> k.0@ == f.path@ && kept_attrs(
                self.file_contents@,
                committed_files@,
                *f,
                line_attrs_view(k.1@),
            ),
            forall|id: Seq<char>|
                crate::blame_args::strings_view(r.refs@).contains(id) <==> #[trigger] file_refs(
                    self.file_contents@,
                    committed_files@,
                    *f,
                    id,
                ),
    {
        let ghost cs = self.file_contents@;
        let ghost cfs = committed_files@;
        let cpos = find_content(committed_files, f.path.as_str());
        if cpos >= committed_files.len() {
            let kept = copy_line_attrs(f.line_attributions.as_slice());
            let mut refs: Vec<String> = Vec::new();
            let mut i: usize = 0;
            while i < f.line_attributions.len()
                invariant
                    i <= f.line_attributions@.len(),
                    crate::blame_args::strings_view(refs@) == f.line_attributions@.take(i as int).map_values(
                        |a: LineAttribution| a.author_id@,
                    ),
                decreases f.line_attributions.len() - i,
            {
                let ghost prev = crate::blame_args::strings_view(refs@);
                refs.push(f.line_attributions[i].author_id.clone());
                proof {
                    assert(crate::blame_args::strings_view(refs@) =~= prev.push(f.line_attributions@[i as int].author_id@));
                    assert(f.line_attributions@.take(i + 1).map_values(|a: LineAttribution| a.author_id@) =~= f.line_attributions@.take(
                        i as int,
                    ).map_values(|a: LineAttribution| a.author_id@).push(f.line_attributions@[i as int].author_id@));
                }
                i = i + 1;
            }
            proof {
                assert(f.line_attributions@.take(f.line_attributions@.len() as int) =~= f.line_attributions@);
                assert forall|id: Seq<char>|
                    crate::blame_args::strings_view(refs@).contains(id) <==> #[trigger] file_refs(cs, cfs, *f, id) by {
                    let sv = crate::blame_args::strings_view(refs@);
                    if sv.contains(id) {
                        let k = choose|k: int| 0 <= k < sv.len() && sv[k] == id;
                        assert(f.line_attributions@[k].author_id@ == id);
                    }
                    if file_refs(cs, cfs, *f, id) {
                        let k = choose|k: int|
                            0 <= k < f.line_attributions@.len() && (#[trigger] f.line_attributions@[k]).author_id@ == id;
                        assert(sv[k] == id);
                    }
                }
            }
            return FileOutcome { attestation: None, kept: Some((f.path.clone(), kept)), refs };
        }
        let wpos = find_content(self.file_contents.as_slice(), f.path.as_str());
        let working: Vec<Vec<char>> = if wpos < self.file_contents.len() {
            crate::log_format::text_lines(self.file_contents[wpos].1.as_str())
        } else {
            Vec::new()
        };
        let committed = crate::log_format::text_lines(committed_files[cpos].1.as_str());
        proof {
            assert(crate::log_format::chars_view(working@) == working_lines(cs, f.path@)) by {
                if wpos >= self.file_contents.len() {
                    assert(crate::log_format::chars_view(working@) =~= Seq::<Seq<char>>::empty());
                }
            }
        }
        let (cp, up) = split_file_lines(working.as_slice(), committed.as_slice(), f.line_attributions.as_slice());
        let attestation = if cp.len() > 0 {
            let entries = pair_entries(cp.as_slice());
            Some(FileAttestation { file_path: f.path.clone(), entries })
        } else {
            None
        };
        let mut refs: Vec<String> = Vec::new();
        let kept = if up.len() > 0 {
            let runs = pair_runs(up.as_slice());
            let mut i: usize = 0;
            while i < up.len()
                invariant
                    i <= up@.len(),
                    crate::blame_args::strings_view(refs@) == pairs_view(up@).take(i as int).map_values(
                        |p: (Seq<char>, u32)| p.0,
                    ),
                decreases up.len() - i,
            {
                let ghost prev = crate::blame_args::strings_view(refs@);
                refs.push(up[i].0.clone());
                proof {
                    assert(crate::blame_args::strings_view(refs@) =~= prev.push(up@[i as int].0@));
                    assert(pairs_view(up@).take(i + 1).map_values(|p: (Seq<char>, u32)| p.0) =~= pairs_view(up@).take(
                        i as int,
                    ).map_values(|p: (Seq<char>, u32)| p.0).push(up@[i as int].0@));
                }
                i = i + 1;
            }
            Some((f.path.clone(), runs))
        } else {
            proof {
                assert(crate::blame_args::strings_view(refs@) =~= pairs_view(up@).take(0).map_values(
                    |p: (Seq<char>, u32)| p.0,
                ));
            }
            None
        };
        proof {
            let sp = file_split(cs, cfs, *f);
            assert(pairs_view(up@) == sp.uncommitted);
            assert(pairs_view(up@).take(up@.len() as int) =~= pairs_view(up@));
            assert forall|id: Seq<char>|
                crate::blame_args::strings_view(refs@).contains(id) <==> #[trigger] file_refs(cs, cfs, *f, id) by {
                let sv = crate::blame_args::strings_view(refs@);
                if sv.contains(id) {
                    let k = choose|k: int| 0 <= k < sv.len() && sv[k] == id;
                    assert(sp.uncommitted[k].0 == id);
                }
                if file_refs(cs, cfs, *f, id) {
                    let k = choose|k: int| 0 <= k < sp.uncommitted.len() && (#[trigger] sp.uncommitted[k]).0 == id;
                    assert(sv[k] == id);
                }
            }
        }
        FileOutcome { attestation, kept, refs }
    }
}

impl VirtualAttributions {
    /// Splits these attributions against the content of a commit: the lines whose content
    /// the commit holds (matched by content, each committed line once) go into the
    /// authorship log in committed line numbers; the rest stay as initial attributions in
    /// working line numbers, with the prompts they name. A file the commit lacks keeps all
    /// its attributions.
    pub fn to_authorship_log_and_initial_working_log(&self, committed_files: &[(String, String)]) -> (r: (
        AuthorshipLog,
        InitialAttributions,
    ))
        ensures
            ({
                let fs = self.attributions@;
                let cs = self.file_contents@;
                let cfs = committed_files@;
                let atts = r.0@.attestations;
                &&& atts.len() == logged_files(fs, cs, cfs).len()
                &&& forall|k: int|
                    0 <= k < atts.len() ==> (#[trigger] atts[k]).file_path == logged_files(fs, cs, cfs)[k].path@
                        && entries_of_pairs(file_split(cs, cfs, logged_files(fs, cs, cfs)[k]).committed, atts[k].entries)
            }),
            ({
                let fs = self.attributions@;
                let cs = self.file_contents@;
                let cfs = committed_files@;
                let kept = r.1.files@;
                &&& kept.len() == kept_files(fs, cs, cfs).len()
                &&& forall|k: int|
                    0 <= k < kept.len() ==> (#[trigger] kept[k]).0@ == kept_files(fs, cs, cfs)[k].path@ && kept_attrs(
                        cs,
                        cfs,
                        kept_files(fs, cs, cfs)[k],
                        line_attrs_view(kept[k].1@),
                    )
            }),
            r.1.prompts@ == self.prompts@.restrict(
                Set::new(|id: Seq<char>| referenced(self.attributions@, self.file_contents@, committed_files@, id)),
            ),
            r.0@.base_commit_sha == self.base_commit@,
            r.0@.prompts == self.prompts@,
            r.0@.schema_version == crate::authorship_log::AUTHORSHIP_LOG_VERSION@,
    {
        let ghost fs = self.attributions@;
        let ghost cs = self.file_contents@;
        let ghost cfs = committed_files@;
        let mut atts: Vec<FileAttestation> = Vec::new();
        let mut kept: Vec<(String, Vec<LineAttribution>)> = Vec::new();
        let mut refs: Vec<String> = Vec::new();
        let mut i: usize = 0;
        proof {
            assert(fs.take(0) =~= Seq::<FileAttributions>::empty());
        }
        while i < self.attributions.len()
            invariant
                fs == self.attributions@,
                cs == self.file_contents@,
                cfs == committed_files@,
                i <= fs.len(),
                crate::authorship_log::files_view(atts@).len() == logged_files(fs.take(i as int), cs, cfs).len(),
                forall|k: int|
                    0 <= k < atts@.len() ==> (#[trigger] atts@[k])@.file_path == logged_files(fs.take(i as int), cs, cfs)[k].path@
                        && entries_of_pairs(
                        file_split(cs, cfs, logged_files(fs.take(i as int), cs, cfs)[k]).committed,
                        atts@[k]@.entries,
                    ),
                kept@.len() == kept_files(fs.take(i as int), cs, cfs).len(),
                forall|k: int|
                    0 <= k < kept@.len() ==> (#[trigger] kept@[k]).0@ == kept_files(fs.take(i as int), cs, cfs)[k].path@
                        && kept_attrs(cs, cfs, kept_files(fs.take(i as int), cs, cfs)[k], line_attrs_view(kept@[k].1@)),
                forall|id: Seq<char>|
                    crate::blame_args::strings_view(refs@).contains(id) <==> exists|j: int|
                        0 <= j < i && #[trigger] file_refs(cs, cfs, fs[j], id),
            decreases self.attributions.len() - i,
        {
            let f = &self.attributions[i];
            let ghost pre = fs.take(i as int);
            proof {
                assert(fs.take(i + 1).drop_last() =~= pre);
                assert(fs.take(i + 1).last() == *f);
            }
            if f.line_attributions.len() > 0 {
                let out = self.split_file(f, committed_files);
                let ghost prev_atts = atts@;
                let ghost prev_kept = kept@;
                let ghost prev_refs = crate::blame_args::strings_view(refs@);
                match out.attestation {
                    Some(a) => {
                        atts.push(a);
                    },
                    None => {},
                }
                match out.kept {
                    Some(k) => {
                        kept.push(k);
                    },
                    None => {},
                }
                let mut q: usize = 0;
                while q < out.refs.len()
                    invariant
                        q <= out.refs@.len(),
                        crate::blame_args::strings_view(refs@) == prev_refs + crate::blame_args::strings_view(
                            out.refs@.take(q as int),
                        ),
                    decreases out.refs.len() - q,
                {
                    let ghost before = crate::blame_args::strings_view(refs@);
                    refs.push(out.refs[q].clone());
                    proof {
                        assert(crate::blame_args::strings_view(refs@) =~= before.push(out.refs@[q as int]@));
                        assert(crate::blame_args::strings_view(out.refs@.take(q + 1)) =~= crate::blame_args::strings_view(
                            out.refs@.take(q as int),
                        ).push(out.refs@[q as int]@));
                    }
                    q = q + 1;
                }
                proof {
                    assert(out.refs@.take(out.refs@.len() as int) =~= out.refs@);
                    let sv = crate::blame_args::strings_view(refs@);
                    let ov = crate::blame_args::strings_view(out.refs@);
                    assert(sv =~= prev_refs + ov);
                    assert forall|id: Seq<char>| sv.contains(id) <==> exists|j: int|
                        0 <= j < i + 1 && #[trigger] file_refs(cs, cfs, fs[j], id) by {
                        if sv.contains(id) {
                            let k = choose|k: int| 0 <= k < sv.len() && sv[k] == id;
                            if k < prev_refs.len() {
                                assert(prev_refs.contains(id));
                            } else {
                                assert(ov[k - prev_refs.len()] == id);
                                assert(ov.contains(id));
                                assert(file_refs(cs, cfs, fs[i as int], id));
                            }
                        }
                        if exists|j: int| 0 <= j < i + 1 && #[trigger] file_refs(cs, cfs, fs[j], id) {
                            let j = choose|j: int| 0 <= j < i + 1 && #[trigger] file_refs(cs, cfs, fs[j], id);
                            if j < i {
                                assert(prev_refs.contains(id));
                                let k = choose|k: int| 0 <= k < prev_refs.len() && prev_refs[k] == id;
                                assert(sv[k] == id);
                            } else {
                                assert(ov.contains(id));
                                let k = choose|k: int| 0 <= k < ov.len() && ov[k] == id;
                                assert(sv[prev_refs.len() + k] == id);
                            }
                        }
                    }
                    let lf = logged_files(fs.take(i + 1), cs, cfs);
                    let kf = kept_files(fs.take(i + 1), cs, cfs);
                    assert forall|k: int| 0 <= k < atts@.len() implies (#[trigger] atts@[k])@.file_path == lf[k].path@
                        && entries_of_pairs(file_split(cs, cfs, lf[k]).committed, atts@[k]@.entries) by {
                        if k < prev_atts.len() {
                            assert(atts@[k] == prev_atts[k]);
                        }
                    }
                    assert forall|k: int| 0 <= k < kept@.len() implies (#[trigger] kept@[k]).0@ == kf[k].path@
                        && kept_attrs(cs, cfs, kf[k], line_attrs_view(kept@[k].1@)) by {
                        if k < prev_kept.len() {
                            assert(kept@[k] == prev_kept[k]);
                        }
                    }
                }
            } else {
                proof {
                    assert(!logs_file(cs, cfs, *f));
                    assert(!keeps_file(cs, cfs, *f));
                    assert forall|id: Seq<char>| crate::blame_args::strings_view(refs@).contains(id) <==> exists|j: int|
                        0 <= j < i + 1 && #[trigger] file_refs(cs, cfs, fs[j], id) by {
                        if exists|j: int| 0 <= j < i + 1 && #[trigger] file_refs(cs, cfs, fs[j], id) {
                            let j = choose|j: int| 0 <= j < i + 1 && #[trigger] file_refs(cs, cfs, fs[j], id);
                            assert(j < i);
                        }
                    }
                }
            }
            i = i + 1;
        }
        proof {
            assert(fs.take(fs.len() as int) =~= fs);
        }
        let prompts = self.initial_prompts(refs.as_slice());
        proof {
            assert(prompts@ =~= self.prompts@.restrict(Set::new(|id: Seq<char>| referenced(fs, cs, cfs, id))));
        }
        let log = AuthorshipLog {
            attestations: atts,
            metadata: crate::authorship_log::AuthorshipMetadata {
                schema_version: String::from_str(crate::authorship_log::AUTHORSHIP_LOG_VERSION),
                base_commit_sha: self.base_commit.clone(),
                prompts: self.prompts.duplicate(),
            },
        };
        proof {
            let av = crate::authorship_log::files_view(log.attestations@);
            assert forall|k: int| 0 <= k < av.len() implies (#[trigger] av[k]).file_path == logged_files(fs, cs, cfs)[k].path@
                && entries_of_pairs(file_split(cs, cfs, logged_files(fs, cs, cfs)[k]).committed, av[k].entries) by {
                assert(av[k] == log.attestations@[k]@);
            }
        }
        (log, InitialAttributions { files: kept, prompts })
    }

    /// The prompts among `ids` that these attributions hold.
    fn initial_prompts(&self, ids: &[String]) -> (r: StrMap<PromptRecord>)
        ensures
            r@ == self.prompts@.restrict(Set::new(|id: Seq<char>| crate::blame_args::strings_view(ids@).contains(id))),
    {
        let mut m: StrMap<PromptRecord> = StrMap::new();
        let mut j: usize = 0;
        proof {
            assert(m@ =~= self.prompts@.restrict(
                Set::new(|id: Seq<char>| crate::blame_args::strings_view(ids@.take(0)).contains(id)),
            ));
        }
        while j < ids.len()
            invariant
                j <= ids@.len(),
                m@ == self.prompts@.restrict(
                    Set::new(|id: Seq<char>| crate::blame_args::strings_view(ids@.take(j as int)).contains(id)),
                ),
            decreases ids.len() - j,
        {
            let id = &ids[j];
            let ghost prev = m@;
            proof {
                assert(crate::blame_args::strings_view(ids@.take(j + 1)) =~= crate::blame_args::strings_view(
                    ids@.take(j as int),
                ).push(id@));
            }
            match self.prompts.get(id.as_str()) {
                Some(p) => {
                    m.insert(id.clone(), p.duplicate_value());
                    proof {
                        assert(m@ =~= self.prompts@.restrict(
                            Set::new(|x: Seq<char>| crate::blame_args::strings_view(ids@.take(j + 1)).contains(x)),
                        )) by {
                            let a = crate::blame_args::strings_view(ids@.take(j as int));
                            let b = crate::blame_args::strings_view(ids@.take(j + 1));
                            assert forall|x: Seq<char>| b.contains(x) <==> (a.contains(x) || x == id@) by {
                                if b.contains(x) {
                                    let k = choose|k: int| 0 <= k < b.len() && b[k] == x;
                                    if k < a.len() {
                                        assert(a[k] == x);
                                    }
                                }
                                if a.contains(x) {
                                    let k = choose|k: int| 0 <= k < a.len() && a[k] == x;
                                    assert(b[k] == x);
                                }
                                if x == id@ {
                                    assert(b[j as int] == x);
                                }
                            }
                        }
                    }
                },
                None => {
                    proof {
                        assert(m@ =~= self.prompts@.restrict(
                            Set::new(|x: Seq<char>| crate::blame_args::strings_view(ids@.take(j + 1)).contains(x)),
                        )) by {
                            let a = crate::blame_args::strings_view(ids@.take(j as int));
                            let b = crate::blame_args::strings_view(ids@.take(j + 1));
                            assert forall|x: Seq<char>| b.contains(x) <==> (a.contains(x) || x == id@) by {
                                if b.contains(x) {
                                    let k = choose|k: int| 0 <= k < b.len() && b[k] == x;
                                    if k < a.len() {
                                        assert(a[k] == x);
                                    }
                                }
                                if a.contains(x) {
                                    let k = choose|k: int| 0 <= k < a.len() && a[k] == x;
                                    assert(b[k] == x);
                                }
                                if x == id@ {
                                    assert(b[j as int] == x);
                                }
                            }
                        }
                    }
                },
            }
            j = j + 1;
        }
        proof {
            assert(ids@.take(ids@.len() as int) =~= ids@);
        }
        m
    }
}

} // verus!
