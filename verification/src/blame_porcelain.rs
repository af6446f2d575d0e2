//! Reading the output of `git blame --line-porcelain` into hunks.

use vstd::prelude::*;
use vstd::string::*;

use crate::blame_args::GitAiBlameOptions;
use crate::config::{trim, trim_chars};
use crate::log_format::{is_space, is_whitespace_char, lines_of};
use crate::text::{all_digits, digits_value, from_chars, is_digit, parse_u32, parse_u32_spec, to_chars};

verus! {

/// A run of lines that one commit introduced, as git blame reports it.
#[derive(Debug, PartialEq, Eq)]
pub struct BlameHunk {
    /// Current lines, inclusive.
    pub range: (u32, u32),
    /// Lines in the commit that introduced them, inclusive.
    pub orig_range: (u32, u32),
    pub commit_sha: String,
    pub abbrev_sha: String,
    pub original_author: String,
    pub author_email: String,
    pub author_time: i64,
    pub author_tz: String,
    pub committer: String,
    pub committer_email: String,
    pub committer_time: i64,
    pub committer_tz: String,
    pub is_boundary: bool,
}

/// A blame hunk as plain values.
pub struct HunkView {
    pub range: (u32, u32),
    pub orig_range: (u32, u32),
    pub commit_sha: Seq<char>,
    pub abbrev_sha: Seq<char>,
    pub original_author: Seq<char>,
    pub author_email: Seq<char>,
    pub author_time: i64,
    pub author_tz: Seq<char>,
    pub committer: Seq<char>,
    pub committer_email: Seq<char>,
    pub committer_time: i64,
    pub committer_tz: Seq<char>,
    pub is_boundary: bool,
}

impl View for BlameHunk {
    type V = HunkView;

    open spec fn view(&self) -> HunkView {
        HunkView {
            range: self.range,
            orig_range: self.orig_range,
            commit_sha: self.commit_sha@,
            abbrev_sha: self.abbrev_sha@,
            original_author: self.original_author@,
            author_email: self.author_email@,
            author_time: self.author_time,
            author_tz: self.author_tz@,
            committer: self.committer@,
            committer_email: self.committer_email@,
            committer_time: self.committer_time,
            committer_tz: self.committer_tz@,
            is_boundary: self.is_boundary,
        }
    }
}

/// The views of a list of hunks.
pub open spec fn hunks_view(v: Seq<BlameHunk>) -> Seq<HunkView> {
    v.map_values(|h: BlameHunk| h@)
}

/// Why blame output could not be read.
#[derive(Debug, Clone, PartialEq, Eq)]
pub enum BlameOutputError {
    /// The output is not valid UTF-8.
    InvalidUtf8,
}

// ---------------------------------------------------------------------------------------
// Text pieces

/// Whether `line` starts with `p`.
pub open spec fn has_prefix(line: Seq<char>, p: Seq<char>) -> bool {
    line.len() >= p.len() && line.take(p.len() as int) == p
}

/// Number of leading `c` of `s`.
pub open spec fn lead_count(s: Seq<char>, c: char) -> nat
    decreases s.len(),
{
    if s.len() == 0 || s[0] != c {
        0
    } else {
        1 + lead_count(s.drop_first(), c)
    }
}

/// Number of trailing `c` of `s`.
pub open spec fn trail_count(s: Seq<char>, c: char) -> nat
    decreases s.len(),
{
    if s.len() == 0 || s.last() != c {
        0
    } else {
        1 + trail_count(s.drop_last(), c)
    }
}

/// A mail address field: trimmed, without its leading `<` and trailing `>` marks.
pub open spec fn mail_of(rest: Seq<char>) -> Seq<char> {
    let t = trim(rest);
    let u = t.skip(lead_count(t, '<') as int);
    u.take(u.len() - trail_count(u, '>'))
}

/// What `str::parse::<i64>` gives: an optional sign, then at least one digit, and a value
/// that fits in `i64`.
pub open spec fn parse_i64_spec(s: Seq<char>) -> Option<i64> {
    let signed = s.len() > 1 && (s[0] == '+' || s[0] == '-');
    let d = if signed {
        s.drop_first()
    } else {
        s
    };
    let neg = signed && s[0] == '-';
    if d.len() > 0 && all_digits(d) {
        if neg && digits_value(d) <= 0x8000_0000_0000_0000 {
            Some((-digits_value(d)) as i64)
        } else if !neg && digits_value(d) <= 0x7fff_ffff_ffff_ffff {
            Some(digits_value(d) as i64)
        } else {
            None
        }
    } else {
        None
    }
}

/// The white-space separated words of `s`, as `str::split_whitespace` gives them.
pub open spec fn words(s: Seq<char>) -> Seq<Seq<char>>
    decreases s.len(),
{
    if s.len() == 0 {
        Seq::empty()
    } else {
        let p = words(s.drop_last());
        let c = s.last();
        if is_space(c) {
            p
        } else if s.len() >= 2 && !is_space(s[s.len() - 2]) && p.len() > 0 {
            p.update(p.len() - 1, p.last().push(c))
        } else {
            p.push(seq![c])
        }
    }
}

/// Whether `c` is an ASCII hexadecimal digit.
pub open spec fn is_hex(c: char) -> bool {
    ('0' <= c && c <= '9') || ('a' <= c && c <= 'f') || ('A' <= c && c <= 'F')
}

/// Whether every character of `s` is an ASCII hexadecimal digit.
pub open spec fn all_hex(s: Seq<char>) -> bool {
    forall|i: int| 0 <= i < s.len() ==> is_hex(#[trigger] s[i])
}

/// A number field, or `d` when it does not read as a `u32`.
pub open spec fn u32_or(s: Seq<char>, d: u32) -> u32 {
    match parse_u32_spec(s) {
        Some(v) => v,
        None => d,
    }
}

// ---------------------------------------------------------------------------------------
// The reading state

/// The commit metadata of the current hunk.
pub struct MetaView {
    pub author: Seq<char>,
    pub author_mail: Seq<char>,
    pub author_time: i64,
    pub author_tz: Seq<char>,
    pub committer: Seq<char>,
    pub committer_mail: Seq<char>,
    pub committer_time: i64,
    pub committer_tz: Seq<char>,
    pub boundary: bool,
}

/// Metadata before any metadata line.
pub open spec fn empty_meta() -> MetaView {
    MetaView {
        author: Seq::empty(),
        author_mail: Seq::empty(),
        author_time: 0,
        author_tz: Seq::empty(),
        committer: Seq::empty(),
        committer_mail: Seq::empty(),
        committer_time: 0,
        committer_tz: Seq::empty(),
        boundary: false,
    }
}

/// The hunk being read: its commit, first current line, first original line and size.
pub struct CurView {
    pub sha: Seq<char>,
    pub final_start: u32,
    pub orig_start: u32,
    pub group: u32,
}

/// What reading has gathered: the finished hunks, the current hunk and its metadata.
pub struct ReadView {
    pub hunks: Seq<HunkView>,
    pub cur: Option<CurView>,
    pub meta: MetaView,
}

/// The metadata after a metadata line, or `None` when the line is none.
pub open spec fn meta_update(m: MetaView, line: Seq<char>) -> Option<MetaView> {
    if has_prefix(line, "author "@) {
        Some(MetaView { author: line.skip("author "@.len() as int), ..m })
    } else if has_prefix(line, "author-mail "@) {
        Some(MetaView { author_mail: mail_of(line.skip("author-mail "@.len() as int)), ..m })
    } else if has_prefix(line, "author-time "@) {
        Some(
            MetaView {
                author_time: match parse_i64_spec(trim(line.skip("author-time "@.len() as int))) {
                    Some(t) => t,
                    None => m.author_time,
                },
                ..m
            },
        )
    } else if has_prefix(line, "author-tz "@) {
        Some(MetaView { author_tz: trim(line.skip("author-tz "@.len() as int)), ..m })
    } else if has_prefix(line, "committer "@) {
        Some(MetaView { committer: line.skip("committer "@.len() as int), ..m })
    } else if has_prefix(line, "committer-mail "@) {
        Some(MetaView { committer_mail: mail_of(line.skip("committer-mail "@.len() as int)), ..m })
    } else if has_prefix(line, "committer-time "@) {
        Some(
            MetaView {
                committer_time: match parse_i64_spec(trim(line.skip("committer-time "@.len() as int))) {
                    Some(t) => t,
                    None => m.committer_time,
                },
                ..m
            },
        )
    } else if has_prefix(line, "committer-tz "@) {
        Some(MetaView { committer_tz: trim(line.skip("committer-tz "@.len() as int)), ..m })
    } else if line == "boundary"@ {
        Some(MetaView { boundary: true, ..m })
    } else {
        None
    }
}

/// Whether a line is a hunk header: neither empty, content (after a tab) nor metadata, and
/// its first three words are a hexadecimal commit and two more words.
pub open spec fn header_line(line: Seq<char>) -> bool {
    &&& line.len() > 0
    &&& line[0] != '\t'
    &&& meta_update(empty_meta(), line) is None
    &&& words(line).len() >= 3
    &&& all_hex(words(line)[0])
}

/// The last line of a run of `group` lines from `start`.
pub open spec fn run_end(start: u32, group: u32) -> int {
    if group > 0 {
        start + group - 1
    } else {
        start as int
    }
}

/// Whether a header line's runs end within `u32`.
pub open spec fn header_fits(line: Seq<char>) -> bool {
    header_line(line) && words(line).len() >= 4 ==> {
        let w = words(line);
        &&& run_end(u32_or(w[2], 0), u32_or(w[3], 1)) <= u32::MAX
        &&& run_end(u32_or(w[1], 0), u32_or(w[3], 1)) <= u32::MAX
    }
}

/// The short form of a commit: its first `abbrev` characters (40 for `long_rev`, 7 by
/// default), or all of it when it is not longer.
pub open spec fn abbrev_of(sha: Seq<char>, long_rev: bool, abbrev: Option<u32>) -> Seq<char> {
    let n: int = if long_rev {
        40
    } else {
        match abbrev {
            Some(a) => a as int,
            None => 7,
        }
    };
    if n < sha.len() {
        sha.take(n)
    } else {
        sha
    }
}

/// The hunk of a current hunk and its metadata.
pub open spec fn hunk_of(c: CurView, m: MetaView, long_rev: bool, abbrev: Option<u32>) -> HunkView {
    HunkView {
        range: (c.final_start, run_end(c.final_start, c.group) as u32),
        orig_range: (c.orig_start, run_end(c.orig_start, c.group) as u32),
        commit_sha: c.sha,
        abbrev_sha: abbrev_of(c.sha, long_rev, abbrev),
        original_author: m.author,
        author_email: m.author_mail,
        author_time: m.author_time,
        author_tz: m.author_tz,
        committer: m.committer,
        committer_email: m.committer_mail,
        committer_time: m.committer_time,
        committer_tz: m.committer_tz,
        is_boundary: m.boundary,
    }
}

/// The finished hunks with the current one, if any, added.
pub open spec fn flushed(st: ReadView, long_rev: bool, abbrev: Option<u32>) -> Seq<HunkView> {
    match st.cur {
        Some(c) => st.hunks.push(hunk_of(c, st.meta, long_rev, abbrev)),
        None => st.hunks,
    }
}

/// The state after one more line: empty and content lines are skipped, metadata lines set
/// metadata, a four-word header finishes the current hunk and starts another with fresh
/// metadata, and a three-word header starts a one-line hunk when there is none.
pub open spec fn blame_step(st: ReadView, line: Seq<char>, long_rev: bool, abbrev: Option<u32>) -> ReadView {
    if line.len() == 0 || line[0] == '\t' {
        st
    } else {
        match meta_update(st.meta, line) {
            Some(m) => ReadView { hunks: st.hunks, cur: st.cur, meta: m },
            None => {
                let w = words(line);
                if !(w.len() >= 3 && all_hex(w[0])) {
                    st
                } else if w.len() >= 4 {
                    ReadView {
                        hunks: flushed(st, long_rev, abbrev),
                        cur: Some(
                            CurView {
                                sha: w[0],
                                orig_start: u32_or(w[1], 0),
                                final_start: u32_or(w[2], 0),
                                group: u32_or(w[3], 1),
                            },
                        ),
                        meta: empty_meta(),
                    }
                } else if st.cur is None {
                    ReadView {
                        hunks: st.hunks,
                        cur: Some(CurView { sha: w[0], orig_start: u32_or(w[1], 0), final_start: u32_or(w[2], 0), group: 1 }),
                        meta: st.meta,
                    }
                } else {
                    st
                }
            },
        }
    }
}

/// The state after the lines `ls`.
pub open spec fn blame_steps(ls: Seq<Seq<char>>, long_rev: bool, abbrev: Option<u32>) -> ReadView
    decreases ls.len(),
{
    if ls.len() == 0 {
        ReadView { hunks: Seq::empty(), cur: None, meta: empty_meta() }
    } else {
        blame_step(blame_steps(ls.drop_last(), long_rev, abbrev), ls.last(), long_rev, abbrev)
    }
}

/// The hunks of a blame output text.
pub open spec fn blame_hunks_spec(text: Seq<char>, long_rev: bool, abbrev: Option<u32>) -> Seq<HunkView> {
    flushed(blame_steps(lines_of(text), long_rev, abbrev), long_rev, abbrev)
}

// ---------------------------------------------------------------------------------------
// Reading helpers

/// Whether `line` starts with `p`.
fn starts_with(line: &[char], p: &str) -> (r: bool)
    ensures
        r == has_prefix(line@, p@),
{
    let pc = to_chars(p);
    if pc.len() > line.len() {
        return false;
    }
    let mut i: usize = 0;
    while i < pc.len()
        invariant
            pc@ == p@,
            pc@.len() <= line@.len(),
            i <= pc@.len(),
            forall|k: int| 0 <= k < i ==> line@[k] == pc@[k],
        decreases pc.len() - i,
    {
        if line[i] != pc[i] {
            proof {
                assert(line@.take(pc@.len() as int)[i as int] != p@[i as int]);
            }
            return false;
        }
        i = i + 1;
    }
    proof {
        assert(line@.take(pc@.len() as int) =~= p@);
    }
    true
}

/// `s[from..]`.
fn tail_from(s: &[char], from: usize) -> (r: Vec<char>)
    requires
        from <= s@.len(),
    ensures
        r@ == s@.skip(from as int),
{
    let mut r: Vec<char> = Vec::new();
    let mut i: usize = from;
    while i < s.len()
        invariant
            from <= i <= s@.len(),
            r@ == s@.subrange(from as int, i as int),
        decreases s.len() - i,
    {
        r.push(s[i]);
        i = i + 1;
    }
    proof {
        assert(r@ =~= s@.skip(from as int));
    }
    r
}

/// A mail address field (see `mail_of`).
fn mail_field(rest: &[char]) -> (r: Vec<char>)
    ensures
        r@ == mail_of(rest@),
{
    let t = trim_chars(rest);
    let mut a: usize = 0;
    proof {
        assert(t@.skip(0) =~= t@);
    }
    while a < t.len() && t[a] == '<'
        invariant
            a <= t@.len(),
            lead_count(t@, '<') == a + lead_count(t@.skip(a as int), '<'),
        decreases t.len() - a,
    {
        proof {
            assert(t@.skip(a as int).drop_first() =~= t@.skip(a + 1));
        }
        a = a + 1;
    }
    proof {
        assert(lead_count(t@.skip(a as int), '<') == 0);
    }
    let u = tail_from(t.as_slice(), a);
    let mut b: usize = u.len();
    proof {
        assert(u@.take(b as int) =~= u@);
    }
    while b > 0 && u[b - 1] == '>'
        invariant
            b <= u@.len(),
            trail_count(u@, '>') == (u@.len() - b) + trail_count(u@.take(b as int), '>'),
        decreases b,
    {
        proof {
            assert(u@.take(b as int).drop_last() =~= u@.take(b - 1));
        }
        b = b - 1;
    }
    proof {
        if b > 0 {
            assert(u@.take(b as int).last() == u@[b - 1]);
        }
        assert(trail_count(u@.take(b as int), '>') == 0);
    }
    let mut r: Vec<char> = Vec::new();
    let mut i: usize = 0;
    while i < b
        invariant
            b <= u@.len(),
            i <= b,
            r@ == u@.take(i as int),
        decreases b - i,
    {
        r.push(u[i]);
        i = i + 1;
    }
    r
}

/// Parses a number as `str::parse::<i64>` does.
pub fn parse_i64(s: &[char]) -> (r: Option<i64>)
    ensures
        r == parse_i64_spec(s@),
{
    let signed = s.len() > 1 && (s[0] == '+' || s[0] == '-');
    let neg = signed && s[0] == '-';
    let start: usize = if signed {
        1
    } else {
        0
    };
    let ghost d = if signed {
        s@.drop_first()
    } else {
        s@
    };
    proof {
        assert(d =~= s@.skip(start as int));
    }
    if start >= s.len() {
        return None;
    }
    let mut value: u64 = 0;
    let mut i: usize = start;
    while i < s.len()
        invariant
            start <= i <= s@.len(),
            d == s@.skip(start as int),
            d == (if s@.len() > 1 && (s@[0] == '+' || s@[0] == '-') {
                s@.drop_first()
            } else {
                s@
            }),
            all_digits(s@.subrange(start as int, i as int)),
            value == digits_value(s@.subrange(start as int, i as int)),
            value <= 0x8000_0000_0000_0000,
        decreases s.len() - i,
    {
        let c = s[i];
        if !('0' <= c && c <= '9') {
            proof {
                assert(d[i - start] == c);
                assert(!is_digit(d[i - start]));
            }
            return None;
        }
        let next: u128 = value as u128 * 10 + (c as u128 - 48);
        proof {
            let pre = s@.subrange(start as int, i as int);
            let cur = s@.subrange(start as int, i + 1);
            assert(cur.drop_last() =~= pre);
            assert(cur.last() == c);
        }
        if next > 0x8000_0000_0000_0000u128 {
            proof {
                assert(d.subrange(0, (i + 1 - start) as int) =~= s@.subrange(start as int, i + 1));
                if all_digits(d) {
                    crate::text::lemma_digits_value_grows(d, (i + 1 - start) as int);
                }
                assert forall|k: int| 0 <= k < i + 1 - start implies is_digit(#[trigger] d.subrange(0, (i + 1 - start) as int)[k]) by {
                    assert(d.subrange(0, (i + 1 - start) as int)[k] == s@[start + k]);
                    if k < i - start {
                        assert(s@.subrange(start as int, i as int)[k] == s@[start + k]);
                    }
                }
            }
            return None;
        }
        value = next as u64;
        i = i + 1;
        proof {
            let cur = s@.subrange(start as int, i as int);
            assert forall|k: int| 0 <= k < cur.len() implies is_digit(#[trigger] cur[k]) by {
                if k < cur.len() - 1 {
                    assert(s@.subrange(start as int, i - 1)[k] == cur[k]);
                }
            }
        }
    }
    proof {
        assert(s@.subrange(start as int, s@.len() as int) =~= d);
    }
    if neg {
        if value == 0x8000_0000_0000_0000u64 {
            Some(i64::MIN)
        } else {
            Some(-(value as i64))
        }
    } else if value <= 0x7fff_ffff_ffff_ffffu64 {
        Some(value as i64)
    } else {
        None
    }
}

/// The words of `s` (see `words`).
fn split_words(s: &[char]) -> (r: Vec<Vec<char>>)
    ensures
        crate::log_format::chars_view(r@) == words(s@),
{
    let mut r: Vec<Vec<char>> = Vec::new();
    let mut i: usize = 0;
    proof {
        assert(s@.take(0) =~= Seq::<char>::empty());
        assert(crate::log_format::chars_view(r@) =~= Seq::<Seq<char>>::empty());
    }
    while i < s.len()
        invariant
            i <= s@.len(),
            crate::log_format::chars_view(r@) == words(s@.take(i as int)),
        decreases s.len() - i,
    {
        let c = s[i];
        let ghost pre = s@.take(i as int);
        let ghost prev = crate::log_format::chars_view(r@);
        proof {
            let cur = s@.take(i + 1);
            assert(cur.drop_last() =~= pre);
            assert(cur.last() == c);
            if i >= 1 {
                assert(cur[cur.len() - 2] == s@[i - 1]);
            }
        }
        if is_whitespace_char(c) {
        } else if i >= 1 && !is_whitespace_char(s[i - 1]) && r.len() > 0 {
            let mut w = r.pop().unwrap();
            let ghost wv = w@;
            w.push(c);
            r.push(w);
            proof {
                assert(crate::log_format::chars_view(r@) =~= prev.update(prev.len() - 1, wv.push(c)));
            }
        } else {
            let mut w: Vec<char> = Vec::new();
            w.push(c);
            r.push(w);
            proof {
                assert(crate::log_format::chars_view(r@) =~= prev.push(seq![c]));
            }
        }
        i = i + 1;
    }
    proof {
        assert(s@.take(s@.len() as int) =~= s@);
    }
    r
}

/// Whether every character is an ASCII hexadecimal digit.
fn hex_only(s: &[char]) -> (r: bool)
    ensures
        r == all_hex(s@),
{
    let mut i: usize = 0;
    while i < s.len()
        invariant
            i <= s@.len(),
            forall|k: int| 0 <= k < i ==> is_hex(s@[k]),
        decreases s.len() - i,
    {
        let c = s[i];
        if !(('0' <= c && c <= '9') || ('a' <= c && c <= 'f') || ('A' <= c && c <= 'F')) {
            return false;
        }
        i = i + 1;
    }
    true
}

/// A copy of a character list.
fn dup(v: &[char]) -> (r: Vec<char>)
    ensures
        r@ == v@,
{
    let mut r: Vec<char> = Vec::new();
    let mut i: usize = 0;
    while i < v.len()
        invariant
            i <= v@.len(),
            r@ == v@.take(i as int),
        decreases v.len() - i,
    {
        r.push(v[i]);
        i = i + 1;
    }
    proof {
        assert(v@.take(v@.len() as int) =~= v@);
    }
    r
}

/// A number field, or `d` (see `u32_or`).
fn number_or(s: &[char], d: u32) -> (r: u32)
    ensures
        r == u32_or(s@, d),
{
    match parse_u32(s) {
        Some(v) => v,
        None => d,
    }
}

/// The metadata of the hunk being read.
struct Meta {
    author: Vec<char>,
    author_mail: Vec<char>,
    author_time: i64,
    author_tz: Vec<char>,
    committer: Vec<char>,
    committer_mail: Vec<char>,
    committer_time: i64,
    committer_tz: Vec<char>,
    boundary: bool,
}

impl View for Meta {
    type V = MetaView;

    closed spec fn view(&self) -> MetaView {
        MetaView {
            author: self.author@,
            author_mail: self.author_mail@,
            author_time: self.author_time,
            author_tz: self.author_tz@,
            committer: self.committer@,
            committer_mail: self.committer_mail@,
            committer_time: self.committer_time,
            committer_tz: self.committer_tz@,
            boundary: self.boundary,
        }
    }
}

/// Metadata before any metadata line.
fn fresh_meta() -> (m: Meta)
    ensures
        m@ == empty_meta(),
{
    let m = Meta {
        author: Vec::new(),
        author_mail: Vec::new(),
        author_time: 0,
        author_tz: Vec::new(),
        committer: Vec::new(),
        committer_mail: Vec::new(),
        committer_time: 0,
        committer_tz: Vec::new(),
        boundary: false,
    };
    proof {
        assert(m@.author =~= Seq::<char>::empty());
        assert(m@.author_mail =~= Seq::<char>::empty());
        assert(m@.author_tz =~= Seq::<char>::empty());
        assert(m@.committer =~= Seq::<char>::empty());
        assert(m@.committer_mail =~= Seq::<char>::empty());
        assert(m@.committer_tz =~= Seq::<char>::empty());
    }
    m
}

/// A time field, or the time `t` already read when it does not read as a number.
fn time_or(rest: &[char], t: i64) -> (r: i64)
    ensures
        r == (match parse_i64_spec(trim(rest@)) {
            Some(v) => v,
            None => t,
        }),
{
    let tr = trim_chars(rest);
    match parse_i64(tr.as_slice()) {
        Some(v) => v,
        None => t,
    }
}

/// Reads a metadata line into `m`; `false`, with `m` unchanged, for another line.
fn meta_line(m: &mut Meta, line: &[char]) -> (r: bool)
    ensures
        r == (meta_update(old(m)@, line@) is Some),
        r ==> final(m)@ == meta_update(old(m)@, line@)->Some_0,
        !r ==> final(m)@ == old(m)@,
{
    if starts_with(line, "author ") {
        m.author = tail_from(line, "author ".unicode_len());
        true
    } else if starts_with(line, "author-mail ") {
        let rest = tail_from(line, "author-mail ".unicode_len());
        m.author_mail = mail_field(rest.as_slice());
        true
    } else if starts_with(line, "author-time ") {
        let rest = tail_from(line, "author-time ".unicode_len());
        m.author_time = time_or(rest.as_slice(), m.author_time);
        true
    } else if starts_with(line, "author-tz ") {
        let rest = tail_from(line, "author-tz ".unicode_len());
        m.author_tz = trim_chars(rest.as_slice());
        true
    } else if starts_with(line, "committer ") {
        m.committer = tail_from(line, "committer ".unicode_len());
        true
    } else if starts_with(line, "committer-mail ") {
        let rest = tail_from(line, "committer-mail ".unicode_len());
        m.committer_mail = mail_field(rest.as_slice());
        true
    } else if starts_with(line, "committer-time ") {
        let rest = tail_from(line, "committer-time ".unicode_len());
        m.committer_time = time_or(rest.as_slice(), m.committer_time);
        true
    } else if starts_with(line, "committer-tz ") {
        let rest = tail_from(line, "committer-tz ".unicode_len());
        m.committer_tz = trim_chars(rest.as_slice());
        true
    } else if is_boundary(line) {
        m.boundary = true;
        true
    } else {
        false
    }
}

/// Whether the line is `boundary`.
fn is_boundary(line: &[char]) -> (r: bool)
    ensures
        r == (line@ == "boundary"@),
{
    let b = to_chars("boundary");
    if line.len() != b.len() {
        return false;
    }
    let mut i: usize = 0;
    while i < b.len()
        invariant
            b@ == "boundary"@,
            line@.len() == b@.len(),
            i <= b@.len(),
            forall|k: int| 0 <= k < i ==> line@[k] == b@[k],
        decreases b.len() - i,
    {
        if line[i] != b[i] {
            return false;
        }
        i = i + 1;
    }
    proof {
        assert(line@ =~= b@);
    }
    true
}

/// The hunk being read: its commit, first current line, first original line and size.
struct Cur {
    sha: Vec<char>,
    final_start: u32,
    orig_start: u32,
    group: u32,
}

impl View for Cur {
    type V = CurView;

    closed spec fn view(&self) -> CurView {
        CurView { sha: self.sha@, final_start: self.final_start, orig_start: self.orig_start, group: self.group }
    }
}

/// The view of an optional current hunk.
spec fn cur_view(c: Option<Cur>) -> Option<CurView> {
    match c {
        Some(x) => Some(x@),
        None => None,
    }
}

/// Whether the runs of a current hunk end within `u32`.
spec fn cur_fits(c: Option<CurView>) -> bool {
    c matches Some(x) ==> run_end(x.final_start, x.group) <= u32::MAX && run_end(x.orig_start, x.group) <= u32::MAX
}

/// The last line of a run, within `u32`.
fn last_of_run(start: u32, group: u32) -> (r: u32)
    requires
        run_end(start, group) <= u32::MAX,
    ensures
        r == run_end(start, group),
{
    if group > 0 {
        start + (group - 1)
    } else {
        start
    }
}

/// The short form of a commit (see `abbrev_of`).
pub(crate) fn abbreviate(sha: &[char], long_rev: bool, abbrev: Option<u32>) -> (r: Vec<char>)
    ensures
        r@ == abbrev_of(sha@, long_rev, abbrev),
{
    let n: u64 = if long_rev {
        40
    } else {
        match abbrev {
            Some(a) => a as u64,
            None => 7,
        }
    };
    if n < sha.len() as u64 {
        let mut r: Vec<char> = Vec::new();
        let mut i: usize = 0;
        while (i as u64) < n
            invariant
                n < sha@.len(),
                i <= n,
                r@ == sha@.take(i as int),
            decreases n - i as u64,
        {
            r.push(sha[i]);
            i = i + 1;
        }
        r
    } else {
        dup(sha)
    }
}

/// The hunk of a current hunk and its metadata.
fn make_hunk(c: &Cur, m: &Meta, long_rev: bool, abbrev: Option<u32>) -> (r: BlameHunk)
    requires
        cur_fits(Some(c@)),
    ensures
        r@ == hunk_of(c@, m@, long_rev, abbrev),
{
    let end = last_of_run(c.final_start, c.group);
    let orig_end = last_of_run(c.orig_start, c.group);
    let ab = abbreviate(c.sha.as_slice(), long_rev, abbrev);
    BlameHunk {
        range: (c.final_start, end),
        orig_range: (c.orig_start, orig_end),
        commit_sha: from_chars(c.sha.as_slice()),
        abbrev_sha: from_chars(ab.as_slice()),
        original_author: from_chars(m.author.as_slice()),
        author_email: from_chars(m.author_mail.as_slice()),
        author_time: m.author_time,
        author_tz: from_chars(m.author_tz.as_slice()),
        committer: from_chars(m.committer.as_slice()),
        committer_email: from_chars(m.committer_mail.as_slice()),
        committer_time: m.committer_time,
        committer_tz: from_chars(m.committer_tz.as_slice()),
        is_boundary: m.boundary,
    }
}

/// The reading state.
struct Reader {
    hunks: Vec<BlameHunk>,
    cur: Option<Cur>,
    meta: Meta,
}

impl View for Reader {
    type V = ReadView;

    closed spec fn view(&self) -> ReadView {
        ReadView { hunks: hunks_view(self.hunks@), cur: cur_view(self.cur), meta: self.meta@ }
    }
}

/// Finishes the current hunk, if any.
fn flush(rd: &mut Reader, long_rev: bool, abbrev: Option<u32>)
    requires
        cur_fits(cur_view(old(rd).cur)),
    ensures
        final(rd)@.hunks == flushed(old(rd)@, long_rev, abbrev),
        final(rd)@.cur == old(rd)@.cur,
        final(rd)@.meta == old(rd)@.meta,
{
    match &rd.cur {
        Some(c) => {
            let h = make_hunk(c, &rd.meta, long_rev, abbrev);
            let ghost prev = hunks_view(rd.hunks@);
            rd.hunks.push(h);
            proof {
                assert(hunks_view(rd.hunks@) =~= prev.push(h@));
            }
        },
        None => {},
    }
}

/// Reads a header line (one that is not empty, content or metadata).
fn header(rd: &mut Reader, line: &[char], long_rev: bool, abbrev: Option<u32>)
    requires
        cur_fits(cur_view(old(rd).cur)),
        header_fits(line@),
        line@.len() > 0,
        line@[0] != '\t',
        meta_update(old(rd)@.meta, line@) is None,
    ensures
        final(rd)@ == blame_step(old(rd)@, line@, long_rev, abbrev),
        cur_fits(cur_view(final(rd).cur)),
{
    proof {
        assert(meta_update(empty_meta(), line@) is None);
    }
    let w = split_words(line);
    proof {
        assert(w@.len() > 0 ==> w@[0]@ == words(line@)[0]);
    }
    if !(w.len() >= 3 && hex_only(w[0].as_slice())) {
        return;
    }
    proof {
        assert(w@[1]@ == words(line@)[1]);
        assert(w@[2]@ == words(line@)[2]);
    }
    if w.len() >= 4 {
        proof {
            assert(w@[3]@ == words(line@)[3]);
        }
        flush(rd, long_rev, abbrev);
        let sha = dup(w[0].as_slice());
        let orig_start = number_or(w[1].as_slice(), 0);
        let final_start = number_or(w[2].as_slice(), 0);
        let group = number_or(w[3].as_slice(), 1);
        rd.cur = Some(Cur { sha, final_start, orig_start, group });
        rd.meta = fresh_meta();
    } else if rd.cur.is_none() {
        let sha = dup(w[0].as_slice());
        let orig_start = number_or(w[1].as_slice(), 0);
        let final_start = number_or(w[2].as_slice(), 0);
        rd.cur = Some(Cur { sha, final_start, orig_start, group: 1 });
    }
}

/// Reads one line.
fn read_line(rd: &mut Reader, line: &[char], long_rev: bool, abbrev: Option<u32>)
    requires
        cur_fits(cur_view(old(rd).cur)),
        header_fits(line@),
    ensures
        final(rd)@ == blame_step(old(rd)@, line@, long_rev, abbrev),
        cur_fits(cur_view(final(rd).cur)),
{
    if line.len() == 0 || line[0] == '\t' {
        return;
    }
    if meta_line(&mut rd.meta, line) {
        return;
    }
    header(rd, line, long_rev, abbrev);
}

/// Whether a header line's runs end within `u32` (see `header_fits`).
fn line_header_fits(line: &[char]) -> (r: bool)
    ensures
        r == header_fits(line@),
{
    if line.len() == 0 || line[0] == '\t' {
        return true;
    }
    let mut m = fresh_meta();
    if meta_line(&mut m, line) {
        return true;
    }
    let w = split_words(line);
    proof {
        assert(w@.len() > 0 ==> w@[0]@ == words(line@)[0]);
    }
    if !(w.len() >= 4 && hex_only(w[0].as_slice())) {
        return true;
    }
    proof {
        assert(w@[1]@ == words(line@)[1]);
        assert(w@[2]@ == words(line@)[2]);
        assert(w@[3]@ == words(line@)[3]);
    }
    let orig_start = number_or(w[1].as_slice(), 0) as u64;
    let final_start = number_or(w[2].as_slice(), 0) as u64;
    let group = number_or(w[3].as_slice(), 1) as u64;
    let fin_end = if group > 0 {
        final_start + group - 1
    } else {
        final_start
    };
    let orig_end = if group > 0 {
        orig_start + group - 1
    } else {
        orig_start
    };
    fin_end <= 0xffff_ffff && orig_end <= 0xffff_ffff
}

/// Whether every hunk header of `git blame --line-porcelain` output has runs that end
/// within `u32`, as `blame_hunks` needs of output that is UTF-8.
pub fn blame_headers_fit(stdout: &[u8]) -> (r: bool)
    ensures
        r == (vstd::utf8::valid_utf8(stdout@) ==> forall|k: int|
            0 <= k < lines_of(vstd::utf8::decode_utf8(stdout@)).len() ==> #[trigger] header_fits(
                lines_of(vstd::utf8::decode_utf8(stdout@))[k],
            )),
{
    let text = match crate::status::decode_record(stdout) {
        Some(t) => t,
        None => return true,
    };
    let lines = crate::log_format::text_lines(text.as_str());
    let ghost ls = lines_of(text@);
    let mut i: usize = 0;
    while i < lines.len()
        invariant
            crate::log_format::chars_view(lines@) == ls,
            vstd::utf8::valid_utf8(stdout@),
            ls == lines_of(vstd::utf8::decode_utf8(stdout@)),
            i <= lines@.len(),
            forall|k: int| 0 <= k < i ==> #[trigger] header_fits(ls[k]),
        decreases lines.len() - i,
    {
        proof {
            assert(ls[i as int] == lines@[i as int]@);
        }
        if !line_header_fits(lines[i].as_slice()) {
            proof {
                assert(!header_fits(ls[i as int]));
            }
            return false;
        }
        i = i + 1;
    }
    true
}

/// Reads the output of `git blame --line-porcelain` into hunks: each header line with
/// four words (commit, original line, current line, size) starts a hunk whose metadata
/// lines follow; the commit is shortened as the options say. Output that is not UTF-8 is
/// refused.
pub fn blame_hunks(stdout: &[u8], options: &GitAiBlameOptions) -> (r: Result<Vec<BlameHunk>, BlameOutputError>)
    requires
        vstd::utf8::valid_utf8(stdout@) ==> forall|k: int|
            0 <= k < lines_of(vstd::utf8::decode_utf8(stdout@)).len() ==> #[trigger] header_fits(
                lines_of(vstd::utf8::decode_utf8(stdout@))[k],
            ),
    ensures
        r is Err <==> !vstd::utf8::valid_utf8(stdout@),
        r matches Ok(hs) ==> hunks_view(hs@) == blame_hunks_spec(
            vstd::utf8::decode_utf8(stdout@),
            options.long_rev,
            options.abbrev,
        ),
{
    let text = match crate::status::decode_record(stdout) {
        Some(t) => t,
        None => return Err(BlameOutputError::InvalidUtf8),
    };
    let lines = crate::log_format::text_lines(text.as_str());
    let ghost ls = lines_of(text@);
    let long_rev = options.long_rev;
    let abbrev = options.abbrev;
    let mut rd = Reader { hunks: Vec::new(), cur: None, meta: fresh_meta() };
    let mut i: usize = 0;
    proof {
        assert(hunks_view(rd.hunks@) =~= Seq::<HunkView>::empty());
        assert(ls.take(0) =~= Seq::<Seq<char>>::empty());
    }
    while i < lines.len()
        invariant
            crate::log_format::chars_view(lines@) == ls,
            i <= lines@.len(),
            forall|k: int| 0 <= k < ls.len() ==> #[trigger] header_fits(ls[k]),
            cur_fits(cur_view(rd.cur)),
            rd@ == blame_steps(ls.take(i as int), long_rev, abbrev),
        decreases lines.len() - i,
    {
        proof {
            assert(ls[i as int] == lines@[i as int]@);
            assert(header_fits(ls[i as int]));
            assert(ls.take(i + 1).drop_last() =~= ls.take(i as int));
            assert(ls.take(i + 1).last() == ls[i as int]);
        }
        read_line(&mut rd, lines[i].as_slice(), long_rev, abbrev);
        i = i + 1;
    }
    proof {
        assert(ls.take(ls.len() as int) =~= ls);
    }
    flush(&mut rd, long_rev, abbrev);
    Ok(rd.hunks)
}

/// The `--ignore-rev` arguments of the revisions `revs`.
pub open spec fn ignore_rev_args(revs: Seq<Seq<char>>) -> Seq<Seq<char>>
    decreases revs.len(),
{
    if revs.len() == 0 {
        Seq::empty()
    } else {
        ignore_rev_args(revs.drop_last()) + seq!["--ignore-rev"@, revs.last()]
    }
}

/// The arguments of the `git blame` that `blame_hunks` reads, after the repository's
/// global arguments: line porcelain ignoring white space, the ignored revisions, the line
/// range, the newest commit if any, then `--` and the file.
pub open spec fn blame_command(
    global_args: Seq<Seq<char>>,
    file_path: Seq<char>,
    start_line: u32,
    end_line: u32,
    o: crate::blame_args::BlameOptionsView,
) -> Seq<Seq<char>> {
    global_args + seq!["blame"@, "--line-porcelain"@, "-w"@] + ignore_rev_args(o.ignore_revs) + (match o.ignore_revs_file {
        Some(f) => seq!["--ignore-revs-file"@, f],
        None => Seq::empty(),
    }) + seq!["-L"@, crate::text::decimal(start_line as nat) + seq![','] + crate::text::decimal(end_line as nat)]
        + (match o.newest_commit {
        Some(c) => seq![c],
        None => Seq::empty(),
    }) + seq!["--"@, file_path]
}

/// Appends a copy of a string.
fn push_str_copy(v: &mut Vec<String>, s: &str)
    ensures
        crate::blame_args::strings_view(final(v)@) == crate::blame_args::strings_view(old(v)@).push(s@),
{
    let ghost prev = crate::blame_args::strings_view(v@);
    v.push(String::from_str(s));
    proof {
        assert(crate::blame_args::strings_view(v@) =~= prev.push(s@));
    }
}

/// The arguments of the `git blame` whose output `blame_hunks` reads (see `blame_command`).
pub fn blame_hunks_args(
    global_args: &[String],
    file_path: &str,
    start_line: u32,
    end_line: u32,
    options: &GitAiBlameOptions,
) -> (r: Vec<String>)
    ensures
        crate::blame_args::strings_view(r@) == blame_command(
            crate::blame_args::strings_view(global_args@),
            file_path@,
            start_line,
            end_line,
            options@,
        ),
{
    let mut r: Vec<String> = Vec::new();
    let mut i: usize = 0;
    while i < global_args.len()
        invariant
            i <= global_args@.len(),
            crate::blame_args::strings_view(r@) == crate::blame_args::strings_view(global_args@.take(i as int)),
        decreases global_args.len() - i,
    {
        proof {
            assert(crate::blame_args::strings_view(global_args@.take(i + 1)) =~= crate::blame_args::strings_view(
                global_args@.take(i as int),
            ).push(global_args@[i as int]@));
        }
        push_str_copy(&mut r, global_args[i].as_str());
        i = i + 1;
    }
    proof {
        assert(global_args@.take(global_args@.len() as int) =~= global_args@);
    }
    let ghost base = crate::blame_args::strings_view(r@);
    push_str_copy(&mut r, "blame");
    push_str_copy(&mut r, "--line-porcelain");
    push_str_copy(&mut r, "-w");
    proof {
        assert(crate::blame_args::strings_view(r@) =~= base + seq!["blame"@, "--line-porcelain"@, "-w"@]);
    }
    let ghost base2 = crate::blame_args::strings_view(r@);
    let mut k: usize = 0;
    proof {
        assert(crate::blame_args::strings_view(options.ignore_revs@.take(0)) =~= Seq::<Seq<char>>::empty());
        assert(base2 + ignore_rev_args(Seq::<Seq<char>>::empty()) =~= base2);
    }
    while k < options.ignore_revs.len()
        invariant
            k <= options.ignore_revs@.len(),
            crate::blame_args::strings_view(r@) == base2 + ignore_rev_args(
                crate::blame_args::strings_view(options.ignore_revs@.take(k as int)),
            ),
        decreases options.ignore_revs.len() - k,
    {
        let ghost before = crate::blame_args::strings_view(r@);
        push_str_copy(&mut r, "--ignore-rev");
        push_str_copy(&mut r, options.ignore_revs[k].as_str());
        proof {
            let t = crate::blame_args::strings_view(options.ignore_revs@.take(k + 1));
            assert(t.drop_last() =~= crate::blame_args::strings_view(options.ignore_revs@.take(k as int)));
            assert(t.last() == options.ignore_revs@[k as int]@);
            assert(crate::blame_args::strings_view(r@) =~= base2 + ignore_rev_args(t));
        }
        k = k + 1;
    }
    proof {
        assert(options.ignore_revs@.take(options.ignore_revs@.len() as int) =~= options.ignore_revs@);
    }
    let ghost base3 = crate::blame_args::strings_view(r@);
    let ghost seg3: Seq<Seq<char>> = match options@.ignore_revs_file {
        Some(f) => seq!["--ignore-revs-file"@, f],
        None => Seq::empty(),
    };
    match &options.ignore_revs_file {
        Some(f) => {
            push_str_copy(&mut r, "--ignore-revs-file");
            push_str_copy(&mut r, f.as_str());
        },
        None => {},
    }
    proof {
        assert(crate::blame_args::strings_view(r@) =~= base3 + seg3);
    }
    let ghost base4 = crate::blame_args::strings_view(r@);
    let mut range = crate::text::u64_to_chars(start_line as u64);
    range.push(',');
    let e = crate::text::u64_to_chars(end_line as u64);
    crate::text::extend_chars(&mut range, e.as_slice());
    let range_s = from_chars(range.as_slice());
    push_str_copy(&mut r, "-L");
    push_str_copy(&mut r, range_s.as_str());
    proof {
        assert(range_s@ =~= crate::text::decimal(start_line as nat) + seq![','] + crate::text::decimal(end_line as nat));
        assert(crate::blame_args::strings_view(r@) =~= base4 + seq!["-L"@, range_s@]);
    }
    let ghost base5 = crate::blame_args::strings_view(r@);
    let ghost seg5: Seq<Seq<char>> = match options@.newest_commit {
        Some(c) => seq![c],
        None => Seq::empty(),
    };
    match &options.newest_commit {
        Some(c) => {
            push_str_copy(&mut r, c.as_str());
        },
        None => {},
    }
    proof {
        assert(crate::blame_args::strings_view(r@) =~= base5 + seg5);
    }
    let ghost base6 = crate::blame_args::strings_view(r@);
    push_str_copy(&mut r, "--");
    push_str_copy(&mut r, file_path);
    proof {
        assert(crate::blame_args::strings_view(r@) =~= base6 + seq!["--"@, file_path@]);
    }
    proof {
        assert(crate::blame_args::strings_view(r@) =~= blame_command(
            crate::blame_args::strings_view(global_args@),
            file_path@,
            start_line,
            end_line,
            options@,
        ));
    }
    r
}

} // verus!
