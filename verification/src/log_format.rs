//! The text form of an authorship log: an attestation section (file paths, each followed by
//! indented `hash ranges` lines), a `---` divider, then the metadata as JSON.

use vstd::prelude::*;
use vstd::string::*;

use crate::authorship_log::{AttestationEntry, AttestationView, AuthorshipLog, FileAttestation, FileView, files_view};
use crate::line_range::LineRange;
use crate::merge::{sort_by_start, sort_ranges_by_start};
use crate::text::{decimal, extend_chars, from_chars, parse_u32, parse_u32_spec, to_chars, u64_to_chars};

verus! {

/// Why an authorship log text could not be read.
#[derive(Debug, Clone, PartialEq, Eq)]
pub enum LogFormatError {
    /// A list of line ranges (the text given) holds a part that is not a number or a
    /// `start-end` pair of numbers.
    InvalidLineRanges(String),
    /// An indented entry line came before any file path.
    EntryWithoutFile,
    /// An indented entry line (the text given, without its indentation) has no space
    /// between its hash and its ranges.
    InvalidEntry(String),
    /// No line is exactly `---`.
    MissingDivider,
}

/// A log format error as plain values.
pub enum FormatErrorView {
    InvalidLineRanges(Seq<char>),
    EntryWithoutFile,
    InvalidEntry(Seq<char>),
    MissingDivider,
}

impl View for LogFormatError {
    type V = FormatErrorView;

    open spec fn view(&self) -> FormatErrorView {
        match self {
            LogFormatError::InvalidLineRanges(s) => FormatErrorView::InvalidLineRanges(s@),
            LogFormatError::EntryWithoutFile => FormatErrorView::EntryWithoutFile,
            LogFormatError::InvalidEntry(s) => FormatErrorView::InvalidEntry(s@),
            LogFormatError::MissingDivider => FormatErrorView::MissingDivider,
        }
    }
}

/// Whether `s` holds the character `c`.
pub open spec fn has_char(s: Seq<char>, c: char) -> bool {
    exists|i: int| 0 <= i < s.len() && s[i] == c
}

/// Whether a path must be quoted: it holds a space, a tab or a newline.
pub open spec fn needs_quoting_spec(path: Seq<char>) -> bool {
    has_char(path, ' ') || has_char(path, '\t') || has_char(path, '\n')
}

/// Whether a file path must be quoted in the attestation section.
pub fn needs_quoting(path: &str) -> (r: bool)
    ensures
        r == needs_quoting_spec(path@),
{
    let cs = to_chars(path);
    let mut i: usize = 0;
    while i < cs.len()
        invariant
            cs@ == path@,
            i <= cs.len(),
            forall|k: int| 0 <= k < i ==> cs@[k] != ' ' && cs@[k] != '\t' && cs@[k] != '\n',
        decreases cs.len() - i,
    {
        let c = cs[i];
        if c == ' ' || c == '\t' || c == '\n' {
            return true;
        }
        i = i + 1;
    }
    false
}

/// How one range is written: `5`, or `10-15`.
pub open spec fn range_text(r: LineRange) -> Seq<char> {
    match r {
        LineRange::Single(l) => decimal(l as nat),
        LineRange::Range(s, e) => decimal(s as nat) + seq!['-'] + decimal(e as nat),
    }
}

/// Ranges written in order, separated by commas.
pub open spec fn join_ranges(rs: Seq<LineRange>) -> Seq<char>
    decreases rs.len(),
{
    if rs.len() == 0 {
        Seq::empty()
    } else if rs.len() == 1 {
        range_text(rs[0])
    } else {
        join_ranges(rs.drop_last()) + seq![','] + range_text(rs.last())
    }
}

/// How a list of ranges is written: sorted by start, separated by commas.
pub open spec fn ranges_text(rs: Seq<LineRange>) -> Seq<char> {
    join_ranges(sort_by_start(rs))
}

/// Appends how range `r` is written.
fn push_range_text(out: &mut Vec<char>, r: &LineRange)
    ensures
        final(out)@ == old(out)@ + range_text(*r),
{
    match r {
        LineRange::Single(l) => {
            let d = u64_to_chars(*l as u64);
            extend_chars(out, d.as_slice());
        },
        LineRange::Range(s, e) => {
            let a = u64_to_chars(*s as u64);
            extend_chars(out, a.as_slice());
            out.push('-');
            let b = u64_to_chars(*e as u64);
            extend_chars(out, b.as_slice());
            proof {
                assert(out@ =~= old(out)@ + range_text(*r));
            }
        },
    }
}

/// Writes line ranges as `1,2,19-222`: sorted by start, singles as a number, ranges as
/// `start-end`.
pub fn format_line_ranges(ranges: &[LineRange]) -> (r: String)
    ensures
        r@ == ranges_text(ranges@),
{
    let sorted = sort_ranges_by_start(ranges);
    let mut out: Vec<char> = Vec::new();
    let mut i: usize = 0;
    while i < sorted.len()
        invariant
            i <= sorted@.len(),
            out@ == join_ranges(sorted@.subrange(0, i as int)),
        decreases sorted.len() - i,
    {
        let ghost before = out@;
        proof {
            let cur = sorted@.subrange(0, i + 1);
            assert(cur.drop_last() =~= sorted@.subrange(0, i as int));
            assert(cur.last() == sorted@[i as int]);
            if i == 0 {
                assert(cur[0] == sorted@[0]);
            }
        }
        if i > 0 {
            out.push(',');
        }
        push_range_text(&mut out, &sorted[i]);
        proof {
            if i == 0 {
                assert(out@ =~= range_text(sorted@[0]));
            } else {
                assert(out@ =~= before + seq![','] + range_text(sorted@[i as int]));
            }
        }
        i = i + 1;
    }
    proof {
        assert(sorted@.subrange(0, sorted@.len() as int) =~= sorted@);
    }
    from_chars(out.as_slice())
}

/// The pieces of `s` between the separators `c`, as `str::split` gives them (at least one
/// piece, possibly empty).
pub open spec fn split_on(s: Seq<char>, c: char) -> Seq<Seq<char>>
    decreases s.len(),
{
    if s.len() == 0 {
        seq![Seq::<char>::empty()]
    } else {
        let p = split_on(s.drop_last(), c);
        if s.last() == c {
            p.push(Seq::<char>::empty())
        } else {
            p.update(p.len() - 1, p.last().push(s.last()))
        }
    }
}

/// `split_on` never gives an empty list of pieces.
pub proof fn lemma_split_nonempty(s: Seq<char>, c: char)
    ensures
        split_on(s, c).len() >= 1,
    decreases s.len(),
{
    if s.len() > 0 {
        lemma_split_nonempty(s.drop_last(), c);
    }
}

/// `i` is the position of the first `c` in `s`, or the length of `s` when it holds none.
pub open spec fn first_at(s: Seq<char>, c: char, i: int) -> bool {
    &&& 0 <= i <= s.len()
    &&& (i == s.len() || s[i] == c)
    &&& forall|k: int| 0 <= k < i ==> s[k] != c
}

/// The position of the first `c` in `s`, or its length when it holds none.
pub open spec fn find_char(s: Seq<char>, c: char) -> int {
    choose|i: int| first_at(s, c, i)
}

/// The position of the first `c` in `s`, or its length.
pub fn position_of(s: &[char], c: char) -> (r: usize)
    ensures
        r == find_char(s@, c),
        first_at(s@, c, r as int),
{
    let mut i: usize = 0;
    while i < s.len() && s[i] != c
        invariant
            i <= s.len(),
            forall|k: int| 0 <= k < i ==> s@[k] != c,
        decreases s.len() - i,
    {
        i = i + 1;
    }
    proof {
        assert(first_at(s@, c, i as int));
        let w = choose|w: int| first_at(s@, c, w);
        assert(w == i);
    }
    i
}

/// What one non-empty part of a range list stands for: `start-end` (split at the first
/// dash) or a single line, or `None` when a number does not parse.
pub open spec fn parse_range_part(p: Seq<char>) -> Option<LineRange> {
    let d = find_char(p, '-');
    if d < p.len() {
        match (parse_u32_spec(p.take(d)), parse_u32_spec(p.skip(d + 1))) {
            (Some(a), Some(b)) => Some(LineRange::Range(a, b)),
            _ => None,
        }
    } else {
        match parse_u32_spec(p) {
            Some(l) => Some(LineRange::Single(l)),
            None => None,
        }
    }
}

/// The ranges of the comma-separated parts `parts`, empty parts skipped, or `None` when a
/// part does not parse.
pub open spec fn parse_parts(parts: Seq<Seq<char>>) -> Option<Seq<LineRange>>
    decreases parts.len(),
{
    if parts.len() == 0 {
        Some(Seq::empty())
    } else {
        match parse_parts(parts.drop_last()) {
            None => None,
            Some(rs) => if parts.last().len() == 0 {
                Some(rs)
            } else {
                match parse_range_part(parts.last()) {
                    Some(r) => Some(rs.push(r)),
                    None => None,
                }
            },
        }
    }
}

/// The ranges a text like `1,2,19-222` stands for, or `None` when it is malformed.
pub open spec fn parse_ranges_spec(s: Seq<char>) -> Option<Seq<LineRange>> {
    parse_parts(split_on(s, ','))
}

/// Parses one non-empty part of a range list (see `parse_range_part`).
fn parse_part(p: &[char]) -> (r: Option<LineRange>)
    ensures
        r == parse_range_part(p@),
{
    let d = position_of(p, '-');
    if d < p.len() {
        let mut a: Vec<char> = Vec::new();
        let mut i: usize = 0;
        while i < d
            invariant
                d < p.len(),
                i <= d,
                a@ == p@.take(i as int),
            decreases d - i,
        {
            a.push(p[i]);
            i = i + 1;
        }
        let mut b: Vec<char> = Vec::new();
        let mut j: usize = d + 1;
        while j < p.len()
            invariant
                d < p.len(),
                d + 1 <= j <= p.len(),
                b@ == p@.subrange(d + 1, j as int),
            decreases p.len() - j,
        {
            b.push(p[j]);
            j = j + 1;
        }
        proof {
            assert(b@ =~= p@.skip(d + 1));
        }
        match (parse_u32(a.as_slice()), parse_u32(b.as_slice())) {
            (Some(x), Some(y)) => Some(LineRange::Range(x, y)),
            _ => None,
        }
    } else {
        match parse_u32(p) {
            Some(l) => Some(LineRange::Single(l)),
            None => None,
        }
    }
}

/// Parses a list of line ranges such as `1,2,19-222`: comma-separated parts, empty parts
/// skipped, each a line number or `start-end`.
pub fn parse_line_ranges(input: &str) -> (r: Result<Vec<LineRange>, LogFormatError>)
    ensures
        r matches Ok(v) ==> parse_ranges_spec(input@) == Some(v@),
        r is Err ==> parse_ranges_spec(input@) is None,
        r matches Err(e) ==> e@ == FormatErrorView::InvalidLineRanges(input@),
{
    let cs = to_chars(input);
    let mut ranges: Vec<LineRange> = Vec::new();
    let mut failed = false;
    let mut part: Vec<char> = Vec::new();
    let mut i: usize = 0;
    while i < cs.len()
        invariant
            cs@ == input@,
            i <= cs.len(),
            split_on(cs@.take(i as int), ',').len() >= 1,
            part@ == split_on(cs@.take(i as int), ',').last(),
            !failed ==> parse_parts(split_on(cs@.take(i as int), ',').drop_last()) == Some(ranges@),
            failed ==> parse_parts(split_on(cs@.take(i as int), ',').drop_last()) is None,
        decreases cs.len() - i,
    {
        let c = cs[i];
        let ghost pre = cs@.take(i as int);
        let ghost ps = split_on(pre, ',');
        proof {
            let cur = cs@.take(i + 1);
            assert(cur.drop_last() =~= pre);
            assert(cur.last() == c);
            lemma_split_nonempty(cur, ',');
        }
        if c == ',' {
            if part.len() > 0 && !failed {
                match parse_part(part.as_slice()) {
                    Some(r) => {
                        ranges.push(r);
                    },
                    None => {
                        failed = true;
                    },
                }
            }
            part = Vec::new();
            proof {
                assert(split_on(cs@.take(i + 1), ',').drop_last() =~= ps);
                assert(ps.drop_last().push(ps.last()) =~= ps);
                assert(part@ =~= split_on(cs@.take(i + 1), ',').last());
            }
        } else {
            part.push(c);
            proof {
                let nps = split_on(cs@.take(i + 1), ',');
                assert(nps.drop_last() =~= ps.drop_last());
            }
        }
        i = i + 1;
    }
    proof {
        assert(cs@.take(cs@.len() as int) =~= cs@);
        let ps = split_on(cs@, ',');
        assert(ps.drop_last().push(ps.last()) =~= ps);
    }
    if part.len() > 0 && !failed {
        match parse_part(part.as_slice()) {
            Some(r) => {
                ranges.push(r);
            },
            None => {
                failed = true;
            },
        }
    }
    if failed {
        return Err(LogFormatError::InvalidLineRanges(String::from_str(input)));
    }
    Ok(ranges)
}

/// Whether `c` has the Unicode `White_Space` property, which `char::is_whitespace` tests.
pub open spec fn is_space(c: char) -> bool {
    ||| ('\u{9}' <= c && c <= '\u{d}')
    ||| c == ' '
    ||| c == '\u{85}'
    ||| c == '\u{a0}'
    ||| c == '\u{1680}'
    ||| ('\u{2000}' <= c && c <= '\u{200a}')
    ||| c == '\u{2028}'
    ||| c == '\u{2029}'
    ||| c == '\u{202f}'
    ||| c == '\u{205f}'
    ||| c == '\u{3000}'
}

/// Whether `c` is white space (see `is_space`).
pub fn is_whitespace_char(c: char) -> (r: bool)
    ensures
        r == is_space(c),
{
    ('\u{9}' <= c && c <= '\u{d}') || c == ' ' || c == '\u{85}' || c == '\u{a0}' || c == '\u{1680}' || ('\u{2000}' <= c
        && c <= '\u{200a}') || c == '\u{2028}' || c == '\u{2029}' || c == '\u{202f}' || c == '\u{205f}' || c == '\u{3000}'
}

/// Length of `s` without its trailing white space.
pub open spec fn trim_end_len(s: Seq<char>) -> nat
    decreases s.len(),
{
    if s.len() == 0 {
        0
    } else if is_space(s.last()) {
        trim_end_len(s.drop_last())
    } else {
        s.len()
    }
}

/// `s` without its trailing white space, as `str::trim_end` gives it.
pub open spec fn trim_end(s: Seq<char>) -> Seq<char> {
    s.take(trim_end_len(s) as int)
}

/// `trim_end_len` is at most the length.
proof fn lemma_trim_end_len(s: Seq<char>)
    ensures
        trim_end_len(s) <= s.len(),
    decreases s.len(),
{
    if s.len() > 0 {
        lemma_trim_end_len(s.drop_last());
    }
}

/// `s` without its trailing white space.
pub fn trim_end_chars(s: &[char]) -> (r: Vec<char>)
    ensures
        r@ == trim_end(s@),
{
    let mut n: usize = s.len();
    proof {
        assert(s@.take(n as int) =~= s@);
    }
    while n > 0 && is_whitespace_char(s[n - 1])
        invariant
            n <= s.len(),
            trim_end_len(s@) == trim_end_len(s@.take(n as int)),
        decreases n,
    {
        proof {
            let t = s@.take(n as int);
            assert(t.drop_last() =~= s@.take(n - 1));
        }
        n = n - 1;
    }
    proof {
        let t = s@.take(n as int);
        if n > 0 {
            assert(t.last() == s@[n - 1]);
        }
        assert(trim_end_len(t) == n);
    }
    let mut r: Vec<char> = Vec::new();
    let mut i: usize = 0;
    while i < n
        invariant
            n <= s.len(),
            i <= n,
            r@ == s@.take(i as int),
        decreases n - i,
    {
        r.push(s[i]);
        i = i + 1;
    }
    r
}

/// What reading the attestation section has built so far: the finished files, and the file
/// whose entries are being read.
pub struct SectionState {
    pub done: Seq<FileView>,
    pub current: Option<FileView>,
}

/// The file path a non-indented line names: without the surrounding quotes when it is
/// quoted.
pub open spec fn path_of_line(l: Seq<char>) -> Seq<char> {
    if l.len() >= 2 && l[0] == '"' && l.last() == '"' {
        l.subrange(1, l.len() - 1)
    } else {
        l
    }
}

/// Whether reading `line` would slice a lone quote: the line, trimmed, is just `"`.
pub open spec fn lone_quote(line: Seq<char>) -> bool {
    trim_end(line) == seq!['"']
}

/// The state after one more line of the attestation section, or the error it gives.
pub open spec fn section_step(st: SectionState, line: Seq<char>) -> Result<SectionState, FormatErrorView> {
    let l = trim_end(line);
    if l.len() == 0 {
        Ok(st)
    } else if l.len() >= 2 && l[0] == ' ' && l[1] == ' ' {
        let el = l.skip(2);
        let sp = find_char(el, ' ');
        if sp == el.len() {
            Err(FormatErrorView::InvalidEntry(el))
        } else {
            let rs_text = el.skip(sp + 1);
            match parse_ranges_spec(rs_text) {
                None => Err(FormatErrorView::InvalidLineRanges(rs_text)),
                Some(rs) => match st.current {
                    None => Err(FormatErrorView::EntryWithoutFile),
                    Some(f) => Ok(
                        SectionState {
                            done: st.done,
                            current: Some(
                                FileView {
                                    file_path: f.file_path,
                                    entries: f.entries.push(AttestationView { hash: el.take(sp), line_ranges: rs }),
                                },
                            ),
                        },
                    ),
                },
            }
        }
    } else {
        Ok(
            SectionState {
                done: match st.current {
                    Some(f) => if f.entries.len() > 0 {
                        st.done.push(f)
                    } else {
                        st.done
                    },
                    None => st.done,
                },
                current: Some(FileView { file_path: path_of_line(l), entries: Seq::empty() }),
            },
        )
    }
}

/// The state after the lines `ls`, or the first error.
pub open spec fn section_steps(ls: Seq<Seq<char>>) -> Result<SectionState, FormatErrorView>
    decreases ls.len(),
{
    if ls.len() == 0 {
        Ok(SectionState { done: Seq::empty(), current: None })
    } else {
        match section_steps(ls.drop_last()) {
            Err(e) => Err(e),
            Ok(st) => section_step(st, ls.last()),
        }
    }
}

/// An error in the first `k` lines is the error of all the lines.
pub proof fn lemma_steps_err(ls: Seq<Seq<char>>, k: int)
    requires
        0 <= k <= ls.len(),
        section_steps(ls.take(k)) is Err,
    ensures
        section_steps(ls) == section_steps(ls.take(k)),
    decreases ls.len() - k,
{
    if k < ls.len() {
        let t = ls.take(k + 1);
        assert(t.drop_last() =~= ls.take(k));
        lemma_steps_err(ls, k + 1);
    } else {
        assert(ls.take(k) =~= ls);
    }
}

/// The files of an attestation section: the files read, the last one kept when it has
/// entries. Files without entries are dropped.
pub open spec fn parse_section_spec(ls: Seq<Seq<char>>) -> Result<Seq<FileView>, FormatErrorView> {
    match section_steps(ls) {
        Err(e) => Err(e),
        Ok(st) => Ok(
            match st.current {
                Some(f) => if f.entries.len() > 0 {
                    st.done.push(f)
                } else {
                    st.done
                },
                None => st.done,
            },
        ),
    }
}

/// The views of a list of character lists.
pub open spec fn chars_view(v: Seq<Vec<char>>) -> Seq<Seq<char>> {
    v.map_values(|x: Vec<char>| x@)
}

/// Copies `s[from..to]`.
fn slice_chars(s: &[char], from: usize, to: usize) -> (r: Vec<char>)
    requires
        from <= to <= s@.len(),
    ensures
        r@ == s@.subrange(from as int, to as int),
{
    let mut r: Vec<char> = Vec::new();
    let mut i: usize = from;
    while i < to
        invariant
            from <= i <= to,
            to <= s@.len(),
            r@ == s@.subrange(from as int, i as int),
        decreases to - i,
    {
        r.push(s[i]);
        i = i + 1;
    }
    r
}

/// Reads the attestation section (the lines before the divider): each non-indented line
/// names a file (quotes removed), each line indented by two spaces adds an entry `hash
/// ranges` to the current file, blank lines are skipped, and files without entries are
/// dropped.
pub fn parse_attestation_section(lines: &[Vec<char>]) -> (r: Result<Vec<FileAttestation>, LogFormatError>)
    requires
        forall|k: int| 0 <= k < lines@.len() ==> !lone_quote((#[trigger] lines@[k])@),
    ensures
        r matches Ok(fs) ==> parse_section_spec(chars_view(lines@)) == Ok::<Seq<FileView>, FormatErrorView>(files_view(fs@)),
        r matches Err(e) ==> parse_section_spec(chars_view(lines@)) == Err::<Seq<FileView>, FormatErrorView>(e@),
        r matches Err(e) ==> !(e is MissingDivider),
{
    let mut done: Vec<FileAttestation> = Vec::new();
    let mut current: Option<FileAttestation> = None;
    let mut i: usize = 0;
    proof {
        assert(chars_view(lines@.subrange(0, 0)) =~= Seq::<Seq<char>>::empty());
        assert(files_view(done@) =~= Seq::<FileView>::empty());
    }
    while i < lines.len()
        invariant
            i <= lines@.len(),
            forall|k: int| 0 <= k < lines@.len() ==> !lone_quote((#[trigger] lines@[k])@),
            section_steps(chars_view(lines@.subrange(0, i as int))) == Ok::<SectionState, FormatErrorView>(
                SectionState {
                    done: files_view(done@),
                    current: match current {
                        Some(f) => Some(f@),
                        None => None,
                    },
                },
            ),
        decreases lines.len() - i,
    {
        proof {
            let cur = chars_view(lines@.subrange(0, i + 1));
            assert(cur.drop_last() =~= chars_view(lines@.subrange(0, i as int)));
            assert(cur.last() == lines@[i as int]@);
            assert(!lone_quote(lines@[i as int]@));
        }
        let l = trim_end_chars(lines[i].as_slice());
        if l.len() == 0 {
        } else if l.len() >= 2 && l[0] == ' ' && l[1] == ' ' {
            let el = slice_chars(l.as_slice(), 2, l.len());
            proof {
                assert(el@ =~= l@.skip(2));
            }
            let sp = position_of(el.as_slice(), ' ');
            if sp == el.len() {
                proof {
                    assert(chars_view(lines@).take(i + 1) =~= chars_view(lines@.subrange(0, i + 1)));
                    lemma_steps_err(chars_view(lines@), i + 1);
                }
                return Err(LogFormatError::InvalidEntry(from_chars(el.as_slice())));
            }
            let rs_text = slice_chars(el.as_slice(), sp + 1, el.len());
            let hash = slice_chars(el.as_slice(), 0, sp);
            proof {
                assert(rs_text@ =~= el@.skip(sp + 1));
                assert(hash@ =~= el@.take(sp as int));
            }
            let rs_string = from_chars(rs_text.as_slice());
            let rs = match parse_line_ranges(rs_string.as_str()) {
                Ok(v) => v,
                Err(e) => {
                    proof {
                        assert(chars_view(lines@).take(i + 1) =~= chars_view(lines@.subrange(0, i + 1)));
                        lemma_steps_err(chars_view(lines@), i + 1);
                    }
                    return Err(e);
                },
            };
            match current {
                None => {
                    proof {
                        assert(chars_view(lines@).take(i + 1) =~= chars_view(lines@.subrange(0, i + 1)));
                        lemma_steps_err(chars_view(lines@), i + 1);
                    }
                    return Err(LogFormatError::EntryWithoutFile);
                },
                Some(mut f) => {
                    let ghost fv = f@;
                    f.add_entry(AttestationEntry::new(from_chars(hash.as_slice()), rs));
                    current = Some(f);
                },
            }
        } else {
            let ghost prev_done = done@;
            match current {
                Some(f) => {
                    if f.entries.len() > 0 {
                        done.push(f);
                        proof {
                            assert(files_view(done@) =~= files_view(prev_done).push(f@));
                        }
                    }
                },
                None => {},
            }
            let path = if l.len() >= 2 && l[0] == '"' && l[l.len() - 1] == '"' {
                slice_chars(l.as_slice(), 1, l.len() - 1)
            } else {
                slice_chars(l.as_slice(), 0, l.len())
            };
            proof {
                assert(path@ =~= path_of_line(l@));
            }
            current = Some(FileAttestation::new(from_chars(path.as_slice())));
        }
        i = i + 1;
    }
    proof {
        assert(lines@.subrange(0, lines@.len() as int) =~= lines@);
    }
    match current {
        Some(f) => {
            if f.entries.len() > 0 {
                let ghost prev_done = done@;
                done.push(f);
                proof {
                    assert(files_view(done@) =~= files_view(prev_done).push(f@));
                }
            }
        },
        None => {},
    }
    Ok(done)
}

/// A line without the carriage return that ends it, if any.
pub open spec fn strip_cr(l: Seq<char>) -> Seq<char> {
    if l.len() > 0 && l.last() == '\r' {
        l.drop_last()
    } else {
        l
    }
}

/// The lines of a text, as `str::lines` gives them: split at each newline, a carriage
/// return before a newline dropped, and no empty last line after a final newline.
pub open spec fn lines_of(s: Seq<char>) -> Seq<Seq<char>> {
    let ps = split_on(s, '\n');
    let full = ps.drop_last().map_values(|l: Seq<char>| strip_cr(l));
    if ps.last().len() > 0 {
        full.push(ps.last())
    } else {
        full
    }
}

/// Splits `s` at each `c` (see `split_on`).
fn split_chars(s: &[char], c: char) -> (r: Vec<Vec<char>>)
    ensures
        chars_view(r@) == split_on(s@, c),
{
    let mut r: Vec<Vec<char>> = Vec::new();
    let mut part: Vec<char> = Vec::new();
    let mut i: usize = 0;
    proof {
        assert(s@.take(0) =~= Seq::<char>::empty());
    }
    while i < s.len()
        invariant
            i <= s.len(),
            chars_view(r@).push(part@) == split_on(s@.take(i as int), c),
        decreases s.len() - i,
    {
        let ch = s[i];
        let ghost pre = s@.take(i as int);
        proof {
            let cur = s@.take(i + 1);
            assert(cur.drop_last() =~= pre);
            assert(cur.last() == ch);
            lemma_split_nonempty(pre, c);
        }
        if ch == c {
            let mut done: Vec<char> = Vec::new();
            std::mem::swap(&mut done, &mut part);
            let ghost rv = chars_view(r@);
            r.push(done);
            proof {
                assert(chars_view(r@) =~= rv.push(done@));
                assert(split_on(s@.take(i + 1), c) =~= chars_view(r@).push(part@));
            }
        } else {
            part.push(ch);
            proof {
                let old_parts = split_on(pre, c);
                assert(split_on(s@.take(i + 1), c) =~= chars_view(r@).push(part@));
            }
        }
        i = i + 1;
    }
    proof {
        assert(s@.take(s@.len() as int) =~= s@);
    }
    let ghost rv = chars_view(r@);
    r.push(part);
    proof {
        assert(chars_view(r@) =~= rv.push(part@));
    }
    r
}

/// The lines of a text (see `lines_of`).
pub fn text_lines(s: &str) -> (r: Vec<Vec<char>>)
    ensures
        chars_view(r@) == lines_of(s@),
{
    let cs = to_chars(s);
    let parts = split_chars(cs.as_slice(), '\n');
    proof {
        lemma_split_nonempty(cs@, '\n');
    }
    let n = parts.len();
    let mut r: Vec<Vec<char>> = Vec::new();
    let mut i: usize = 0;
    while i + 1 < n
        invariant
            n == parts@.len(),
            n >= 1,
            i + 1 <= n,
            chars_view(parts@) == split_on(s@, '\n'),
            chars_view(r@) == split_on(s@, '\n').drop_last().take(i as int).map_values(|l: Seq<char>| strip_cr(l)),
        decreases n - i,
    {
        let p = &parts[i];
        let m = p.len();
        let line = if m > 0 && p[m - 1] == '\r' {
            slice_chars(p.as_slice(), 0, m - 1)
        } else {
            slice_chars(p.as_slice(), 0, m)
        };
        let ghost rv = chars_view(r@);
        proof {
            assert(line@ =~= strip_cr(chars_view(parts@)[i as int]));
        }
        r.push(line);
        proof {
            let ps = split_on(s@, '\n');
            assert(chars_view(r@) =~= rv.push(line@));
            assert(chars_view(parts@)[i as int] == ps[i as int]);
            assert(ps.drop_last().take(i + 1).map_values(|l: Seq<char>| strip_cr(l)) =~= ps.drop_last().take(i as int).map_values(
                |l: Seq<char>| strip_cr(l),
            ).push(strip_cr(ps[i as int])));
        }
        i = i + 1;
    }
    proof {
        let ps = split_on(s@, '\n');
        assert(ps.drop_last().take(i as int) =~= ps.drop_last());
    }
    let last = &parts[n - 1];
    if last.len() > 0 {
        let ghost rv = chars_view(r@);
        let copy = slice_chars(last.as_slice(), 0, last.len());
        proof {
            assert(copy@ =~= last@);
            assert(chars_view(parts@)[n - 1] == last@);
        }
        r.push(copy);
        proof {
            assert(chars_view(r@) =~= rv.push(chars_view(parts@)[n - 1]));
        }
    }
    r
}

/// Lines joined with newlines.
pub open spec fn join_lines(ls: Seq<Seq<char>>) -> Seq<char>
    decreases ls.len(),
{
    if ls.len() == 0 {
        Seq::empty()
    } else if ls.len() == 1 {
        ls[0]
    } else {
        join_lines(ls.drop_last()) + seq!['\n'] + ls.last()
    }
}

/// The divider line between the attestation section and the metadata.
pub open spec fn divider() -> Seq<char> {
    seq!['-', '-', '-']
}

/// `d` is the first line of `ls` that is the divider.
pub open spec fn divider_at(ls: Seq<Seq<char>>, d: int) -> bool {
    &&& 0 <= d < ls.len()
    &&& ls[d] == divider()
    &&& forall|k: int| 0 <= k < d ==> ls[k] != divider()
}

/// The attestation lines of `ls`: those before the first divider (all of them when there
/// is none).
pub open spec fn before_divider(ls: Seq<Seq<char>>) -> Seq<Seq<char>> {
    if exists|d: int| divider_at(ls, d) {
        ls.take(choose|d: int| divider_at(ls, d))
    } else {
        ls
    }
}

/// Whether a text can be read without slicing a lone quote: no attestation line is just `"`.
pub open spec fn readable_text(s: Seq<char>) -> bool {
    forall|k: int| 0 <= k < before_divider(lines_of(s)).len() ==> !lone_quote(#[trigger] before_divider(lines_of(s))[k])
}

/// Reads the text of an authorship log up to its metadata: the attestation section before
/// the first `---` line, and the metadata text after it (its lines joined with newlines),
/// which is JSON.
pub fn parse_authorship_text(content: &str) -> (r: Result<(Vec<FileAttestation>, String), LogFormatError>)
    requires
        readable_text(content@),
    ensures
        (r matches Err(LogFormatError::MissingDivider)) <==> !exists|d: int| divider_at(lines_of(content@), d),
        r matches Ok((fs, json)) ==> exists|d: int|
            divider_at(lines_of(content@), d) && parse_section_spec(lines_of(content@).take(d)) == Ok::<
                Seq<FileView>,
                FormatErrorView,
            >(files_view(fs@)) && json@ == join_lines(lines_of(content@).skip(d + 1)),
        r matches Err(e) ==> e is MissingDivider || exists|d: int|
            divider_at(lines_of(content@), d) && parse_section_spec(lines_of(content@).take(d)) == Err::<
                Seq<FileView>,
                FormatErrorView,
            >(e@),
{
    let lines = text_lines(content);
    let ghost ls = lines_of(content@);
    let mut d: usize = 0;
    while d < lines.len() && !(lines[d].len() == 3 && lines[d][0] == '-' && lines[d][1] == '-' && lines[d][2] == '-')
        invariant
            d <= lines@.len(),
            chars_view(lines@) == ls,
            forall|k: int| 0 <= k < d ==> ls[k] != divider(),
        decreases lines.len() - d,
    {
        proof {
            assert(ls[d as int] == lines@[d as int]@);
            if ls[d as int] == divider() {
                assert(lines@[d as int]@[0] == '-');
            }
        }
        d = d + 1;
    }
    if d == lines.len() {
        proof {
            if exists|e: int| divider_at(ls, e) {
                let e = choose|e: int| divider_at(ls, e);
                assert(ls[e] != divider());
            }
        }
        return Err(LogFormatError::MissingDivider);
    }
    proof {
        assert(lines@[d as int]@ =~= divider());
        assert(divider_at(ls, d as int));
        let c = choose|e: int| divider_at(ls, e);
        assert(c == d);
        assert forall|k: int| 0 <= k < d implies !lone_quote(#[trigger] lines@[k]@) by {
            assert(before_divider(ls) == ls.take(d as int));
            assert(before_divider(ls)[k] == ls[k]);
        }
    }
    let mut head: Vec<Vec<char>> = Vec::new();
    let mut k: usize = 0;
    while k < d
        invariant
            k <= d,
            d < lines@.len(),
            chars_view(lines@) == ls,
            chars_view(head@) == ls.take(k as int),
            forall|j: int| 0 <= j < d ==> !lone_quote(#[trigger] lines@[j]@),
        decreases d - k,
    {
        let copy = slice_chars(lines[k].as_slice(), 0, lines[k].len());
        let ghost hv = chars_view(head@);
        proof {
            assert(copy@ =~= lines@[k as int]@);
            assert(lines@[k as int]@ == ls[k as int]);
        }
        head.push(copy);
        proof {
            assert(chars_view(head@) =~= hv.push(copy@));
            assert(chars_view(head@) =~= ls.take(k + 1));
        }
        k = k + 1;
    }
    proof {
        assert forall|j: int| 0 <= j < head@.len() implies !lone_quote((#[trigger] head@[j])@) by {
            assert(chars_view(head@)[j] == head@[j]@);
            assert(head@[j]@ == ls[j]);
            assert(lines@[j]@ == ls[j]);
        }
    }
    let files = match parse_attestation_section(head.as_slice()) {
        Ok(fs) => fs,
        Err(e) => {
            return Err(e);
        },
    };
    let mut json: Vec<char> = Vec::new();
    let mut j: usize = d + 1;
    while j < lines.len()
        invariant
            d + 1 <= j <= lines@.len(),
            chars_view(lines@) == ls,
            json@ == join_lines(ls.subrange(d + 1, j as int)),
        decreases lines.len() - j,
    {
        let ghost before = json@;
        if j > d + 1 {
            json.push('\n');
        }
        extend_chars(&mut json, lines[j].as_slice());
        proof {
            let cur = ls.subrange(d + 1, j + 1);
            assert(cur.drop_last() =~= ls.subrange(d + 1, j as int));
            assert(cur.last() == ls[j as int]);
            if j == d + 1 {
                assert(cur.len() == 1);
                assert(json@ =~= cur[0]);
            } else {
                assert(json@ =~= before + seq!['\n'] + ls[j as int]);
            }
        }
        j = j + 1;
    }
    proof {
        assert(ls.subrange(d + 1, ls.len() as int) =~= ls.skip(d + 1));
    }
    Ok((files, from_chars(json.as_slice())))
}

/// How a path is written: in double quotes when it needs quoting.
pub open spec fn quoted_path(p: Seq<char>) -> Seq<char> {
    if needs_quoting_spec(p) {
        seq!['"'] + p + seq!['"']
    } else {
        p
    }
}

/// How an entry is written: indented by two spaces, its hash, a space, its ranges.
pub open spec fn entry_line(a: AttestationView) -> Seq<char> {
    seq![' ', ' '] + a.hash + seq![' '] + ranges_text(a.line_ranges) + seq!['\n']
}

/// The lines of the entries `es`, in order.
pub open spec fn entries_text(es: Seq<AttestationView>) -> Seq<char>
    decreases es.len(),
{
    if es.len() == 0 {
        Seq::empty()
    } else {
        entries_text(es.drop_last()) + entry_line(es.last())
    }
}

/// How a file is written: its path on a line, then its entries.
pub open spec fn file_text(f: FileView) -> Seq<char> {
    quoted_path(f.file_path) + seq!['\n'] + entries_text(f.entries)
}

/// The attestation section of the files `fs`.
pub open spec fn attestation_text(fs: Seq<FileView>) -> Seq<char>
    decreases fs.len(),
{
    if fs.len() == 0 {
        Seq::empty()
    } else {
        attestation_text(fs.drop_last()) + file_text(fs.last())
    }
}

/// Appends how file `f` is written.
fn push_file_text(out: &mut Vec<char>, f: &FileAttestation)
    ensures
        final(out)@ == old(out)@ + file_text(f@),
{
    let path = to_chars(f.file_path.as_str());
    if needs_quoting(f.file_path.as_str()) {
        out.push('"');
        extend_chars(out, path.as_slice());
        out.push('"');
    } else {
        extend_chars(out, path.as_slice());
    }
    out.push('\n');
    let ghost head = out@;
    proof {
        assert(head =~= old(out)@ + quoted_path(f@.file_path) + seq!['\n']);
    }
    let mut j: usize = 0;
    while j < f.entries.len()
        invariant
            j <= f.entries@.len(),
            out@ == head + entries_text(crate::authorship_log::attestations_view(f.entries@.subrange(0, j as int))),
        decreases f.entries.len() - j,
    {
        let ghost before = out@;
        let e = &f.entries[j];
        out.push(' ');
        out.push(' ');
        let h = to_chars(e.hash.as_str());
        extend_chars(out, h.as_slice());
        out.push(' ');
        let rs = format_line_ranges(e.line_ranges.as_slice());
        let rc = to_chars(rs.as_str());
        extend_chars(out, rc.as_slice());
        out.push('\n');
        proof {
            let cur = crate::authorship_log::attestations_view(f.entries@.subrange(0, j + 1));
            assert(cur.drop_last() =~= crate::authorship_log::attestations_view(f.entries@.subrange(0, j as int)));
            assert(cur.last() == e@);
            assert(out@ =~= before + entry_line(e@));
        }
        j = j + 1;
    }
    proof {
        assert(f.entries@.subrange(0, f.entries@.len() as int) =~= f.entries@);
    }
}

impl AuthorshipLog {
    /// The attestation section of the log: each file's path (quoted when it holds white
    /// space) on a line, followed by one indented line per entry.
    pub fn serialize_attestations(&self) -> (r: String)
        ensures
            r@ == attestation_text(self@.attestations),
    {
        let mut out: Vec<char> = Vec::new();
        let mut i: usize = 0;
        while i < self.attestations.len()
            invariant
                i <= self.attestations@.len(),
                out@ == attestation_text(files_view(self.attestations@.subrange(0, i as int))),
            decreases self.attestations.len() - i,
        {
            let ghost before = out@;
            push_file_text(&mut out, &self.attestations[i]);
            proof {
                let cur = files_view(self.attestations@.subrange(0, i + 1));
                assert(cur.drop_last() =~= files_view(self.attestations@.subrange(0, i as int)));
                assert(cur.last() == self.attestations@[i as int]@);
            }
            i = i + 1;
        }
        proof {
            assert(self.attestations@.subrange(0, self.attestations@.len() as int) =~= self.attestations@);
        }
        from_chars(out.as_slice())
    }

    /// The whole text of the log given its metadata as JSON: the attestation section, the
    /// `---` divider line, then the JSON.
    pub fn serialize_with_metadata(&self, metadata_json: &str) -> (r: String)
        ensures
            r@ == attestation_text(self@.attestations) + divider() + seq!['\n'] + metadata_json@,
    {
        let text = self.serialize_attestations();
        let mut out = to_chars(text.as_str());
        out.push('-');
        out.push('-');
        out.push('-');
        out.push('\n');
        let j = to_chars(metadata_json);
        extend_chars(&mut out, j.as_slice());
        proof {
            assert(out@ =~= attestation_text(self@.attestations) + divider() + seq!['\n'] + metadata_json@);
        }
        from_chars(out.as_slice())
    }
}

} // verus!
