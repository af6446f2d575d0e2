//! The text that `git-ai blame` prints by default.

use vstd::prelude::*;
use vstd::string::*;

use crate::blame_args::{BlameOptionsView, GitAiBlameOptions};
use crate::blame_porcelain::{abbrev_of, hunks_view, parse_i64_spec, BlameHunk, HunkView};
use crate::blame_args::strings_view;
use crate::text::{decimal, extend_chars, from_chars, str_eq, to_chars, u64_to_chars};
use vstd::utf8::encode_utf8;

verus! {

// ---------------------------------------------------------------------------------------
// Dates

/// A two-byte number field of a time zone: its value when both bytes are ASCII and read
/// as a number, else 0.
pub open spec fn tz_field(b: Seq<u8>) -> int {
    if b.len() == 2 && b[0] < 128 && b[1] < 128 {
        match parse_i64_spec(seq![b[0] as char, b[1] as char]) {
            Some(v) => v as int,
            None => 0,
        }
    } else {
        0
    }
}

/// The offset in seconds that a time zone such as `+0200` or `-0500` (as bytes) stands
/// for: a five-byte zone gives its sign (`+`, or else minus), hours and minutes; an offset
/// of a day or more, or another zone, gives 0.
pub open spec fn tz_offset(b: Seq<u8>) -> int {
    if b.len() == 5 {
        let mag = tz_field(b.subrange(1, 3)) * 3600 + tz_field(b.subrange(3, 5)) * 60;
        let secs = if b[0] == 43u8 {
            mag
        } else {
            -mag
        };
        if -86400 < secs < 86400 {
            secs
        } else {
            0
        }
    } else {
        0
    }
}

/// Whether a time zone can be cut as the date formatting cuts it: a five-byte zone has
/// character boundaries after its first and third bytes.
pub open spec fn tz_cuttable(b: Seq<u8>) -> bool {
    b.len() == 5 ==> vstd::utf8::is_char_boundary(b, 1) && vstd::utf8::is_char_boundary(b, 3)
}

/// The text that chrono writes for the time `secs` at offset `offset_secs` with the
/// pattern `pattern`.
pub uninterp spec fn chrono_text(secs: i64, offset_secs: i32, pattern: Seq<char>) -> Seq<char>;

/// Formats a time with chrono: `DateTime::from_timestamp(secs, 0)` (the epoch when out of
/// range), moved to `FixedOffset::east_opt(offset_secs)` with `TimeZone::from_utc_datetime`,
/// written with `format(pattern)`. The contract names the text.
#[verifier::external_body]
fn chrono_format(secs: i64, offset_secs: i32, pattern: &str) -> (r: String)
    requires
        -86400 < offset_secs < 86400,
        pattern@ == "%Y-%m-%d %H:%M:%S %z"@ || pattern@ == "%Y-%m-%d"@,
    ensures
        r@ == chrono_text(secs, offset_secs, pattern@),
{
    let utc = chrono::DateTime::from_timestamp(secs, 0).unwrap_or_default();
    let offset = chrono::FixedOffset::east_opt(offset_secs).unwrap_or(chrono::FixedOffset::east(0));
    chrono::TimeZone::from_utc_datetime(&offset, &utc.naive_utc()).format(pattern).to_string()
}

/// Seconds since the Unix epoch by the system clock (`chrono::Utc::now().timestamp()`).
#[verifier::external_body]
fn utc_now_secs() -> (r: i64) {
    chrono::Utc::now().timestamp()
}

/// `x - y` wrapped into `i64`, as `i64::wrapping_sub` computes it.
pub open spec fn wrapping_diff(x: i64, y: i64) -> int {
    if x - y > i64::MAX {
        x - y - 0x1_0000_0000_0000_0000
    } else if x - y < i64::MIN {
        x - y + 0x1_0000_0000_0000_0000
    } else {
        x - y
    }
}

/// A whole number in decimal, with a minus sign when negative.
pub open spec fn signed_decimal(v: int) -> Seq<char> {
    if v < 0 {
        seq!['-'] + decimal((-v) as nat)
    } else {
        decimal(v as nat)
    }
}

/// The date text of a blame line: `iso` or `iso8601` (and any other or no format) as
/// `2024-01-31 12:00:00 +0100`, `short` as `2024-01-31`, and `relative` as the seconds
/// from the time to `now` (wrapping in `i64`) followed by ` seconds ago`.
pub open spec fn blame_date_text(author_time: i64, tz: Seq<u8>, date_format: Option<Seq<char>>, now: i64) -> Seq<char> {
    let off = tz_offset(tz) as i32;
    match date_format {
        Some(f) => if f == "short"@ {
            chrono_text(author_time, off, "%Y-%m-%d"@)
        } else if f == "relative"@ {
            signed_decimal(wrapping_diff(now, author_time)) + " seconds ago"@
        } else {
            chrono_text(author_time, off, "%Y-%m-%d %H:%M:%S %z"@)
        },
        None => chrono_text(author_time, off, "%Y-%m-%d %H:%M:%S %z"@),
    }
}

/// A two-byte number field of a time zone (see `tz_field`).
fn tz_number(b0: u8, b1: u8) -> (r: i64)
    ensures
        r == tz_field(seq![b0, b1]),
        -9 <= r <= 99,
{
    if b0 < 128 && b1 < 128 {
        let mut cs: Vec<char> = Vec::new();
        cs.push(b0 as char);
        cs.push(b1 as char);
        proof {
            assert(cs@ =~= seq![b0 as char, b1 as char]);
            assert(seq![b0, b1][0] == b0);
            assert(seq![b0, b1][1] == b1);
        }
        match crate::blame_porcelain::parse_i64(cs.as_slice()) {
            Some(v) => {
                proof {
                    lemma_two_digit_range(cs@);
                }
                v
            },
            None => 0,
        }
    } else {
        0
    }
}

/// A number of at most two characters lies within `-9..=99`.
proof fn lemma_two_digit_range(s: Seq<char>)
    requires
        s.len() == 2,
        parse_i64_spec(s) is Some,
    ensures
        -9 <= parse_i64_spec(s)->Some_0 <= 99,
{
    let signed = s.len() > 1 && (s[0] == '+' || s[0] == '-');
    let d = if signed {
        s.drop_first()
    } else {
        s
    };
    assert(crate::text::is_digit(d[0]));
    assert(crate::text::digits_value(Seq::<char>::empty()) == 0);
    if d.len() == 2 {
        assert(crate::text::is_digit(d[1]));
        assert(d.drop_last().drop_last() =~= Seq::<char>::empty());
        assert(crate::text::digits_value(d.drop_last()) == crate::text::digits_value(d.drop_last().drop_last()) * 10
            + crate::text::digit_value(d.drop_last().last()));
        assert(crate::text::digits_value(d) == crate::text::digits_value(d.drop_last()) * 10 + crate::text::digit_value(
            d.last(),
        ));
        assert(0 <= crate::text::digit_value(d[0]) <= 9);
        assert(0 <= crate::text::digit_value(d[1]) <= 9);
        assert(!signed);
    } else {
        assert(d.drop_last() =~= Seq::<char>::empty());
        assert(crate::text::digits_value(d) == crate::text::digits_value(d.drop_last()) * 10 + crate::text::digit_value(
            d.last(),
        ));
        assert(0 <= crate::text::digit_value(d[0]) <= 9);
    }
}

/// The offset of a time zone (see `tz_offset`).
fn tz_offset_secs(tz: &str) -> (r: i32)
    requires
        tz_cuttable(tz.spec_bytes()),
    ensures
        r == tz_offset(tz.spec_bytes()),
        -86400 < r < 86400,
{
    let b = tz.as_bytes();
    if b.len() != 5 {
        return 0;
    }
    let h = tz_number(b[1], b[2]);
    let m = tz_number(b[3], b[4]);
    proof {
        assert(b@.subrange(1, 3) =~= seq![b@[1], b@[2]]);
        assert(b@.subrange(3, 5) =~= seq![b@[3], b@[4]]);
    }
    let mag: i64 = h * 3600 + m * 60;
    let secs: i64 = if b[0] == 43u8 {
        mag
    } else {
        -mag
    };
    if -86400 < secs && secs < 86400 {
        secs as i32
    } else {
        0
    }
}

/// A whole number in decimal (see `signed_decimal`).
fn signed_decimal_chars(v: i64) -> (r: Vec<char>)
    ensures
        r@ == signed_decimal(v as int),
{
    if v < 0 {
        let mag: u64 = if v == i64::MIN {
            0x8000_0000_0000_0000u64
        } else {
            (-v) as u64
        };
        let mut r: Vec<char> = Vec::new();
        r.push('-');
        let d = u64_to_chars(mag);
        extend_chars(&mut r, d.as_slice());
        proof {
            assert(r@ =~= seq!['-'] + decimal((-(v as int)) as nat));
        }
        r
    } else {
        u64_to_chars(v as u64)
    }
}

/// The date text of a blame line, with `now` as the current time (see `blame_date_text`).
pub fn format_blame_date_at(author_time: i64, author_tz: &str, date_format: &Option<String>, now: i64) -> (r: String)
    requires
        tz_cuttable(author_tz.spec_bytes()),
    ensures
        r@ == blame_date_text(author_time, author_tz.spec_bytes(), crate::transcript::opt_view(*date_format), now),
{
    let off = tz_offset_secs(author_tz);
    match date_format {
        Some(f) => {
            if str_eq(f.as_str(), "short") {
                chrono_format(author_time, off, "%Y-%m-%d")
            } else if str_eq(f.as_str(), "relative") {
                let diff = now.wrapping_sub(author_time);
                let mut t = signed_decimal_chars(diff);
                let tail = to_chars(" seconds ago");
                extend_chars(&mut t, tail.as_slice());
                proof {
                    assert(diff as int == wrapping_diff(now, author_time));
                }
                from_chars(t.as_slice())
            } else {
                chrono_format(author_time, off, "%Y-%m-%d %H:%M:%S %z")
            }
        },
        None => chrono_format(author_time, off, "%Y-%m-%d %H:%M:%S %z"),
    }
}

/// The date text of a blame line, at the current time of the system clock.
pub fn format_blame_date(author_time: i64, author_tz: &str, options: &GitAiBlameOptions) -> (r: String)
    requires
        tz_cuttable(author_tz.spec_bytes()),
    ensures
        exists|now: i64| r@ == blame_date_text(author_time, author_tz.spec_bytes(), options@.date_format, now),
{
    let now = utc_now_secs();
    format_blame_date_at(author_time, author_tz, &options.date_format, now)
}

// ---------------------------------------------------------------------------------------
// Lines

/// What the default blame text is made from, as plain values.
pub struct RenderView {
    pub hunks: Seq<HunkView>,
    pub authors: Seq<(u32, Seq<char>)>,
    pub file: Seq<char>,
    pub lines: Seq<Seq<char>>,
    pub opts: BlameOptionsView,
    pub now: i64,
}

/// The plain values of the arguments of the default blame text.
pub open spec fn render_view(
    hunks: Seq<BlameHunk>,
    authors: Seq<(u32, String)>,
    file: Seq<char>,
    lines: Seq<String>,
    opts: BlameOptionsView,
    now: i64,
) -> RenderView {
    RenderView {
        hunks: hunks_view(hunks),
        authors: authors.map_values(|p: (u32, String)| (p.0, p.1@)),
        file,
        lines: strings_view(lines),
        opts,
        now,
    }
}

/// Whether a hunk's current lines include line `n`.
pub open spec fn hunk_covers(h: HunkView, n: u32) -> bool {
    h.range.0 <= n <= h.range.1
}

/// The index of the hunk that blames line `n`: the last one that covers it.
pub open spec fn hunk_index(hs: Seq<HunkView>, n: u32) -> Option<int>
    decreases hs.len(),
{
    if hs.len() == 0 {
        None
    } else if hunk_covers(hs.last(), n) {
        Some(hs.len() - 1)
    } else {
        hunk_index(hs.drop_last(), n)
    }
}

/// The hunk that blames line `n` (see `hunk_index`).
pub open spec fn hunk_for(hs: Seq<HunkView>, n: u32) -> Option<HunkView> {
    match hunk_index(hs, n) {
        Some(j) => Some(hs[j]),
        None => None,
    }
}

/// An index that `hunk_index` gives lies within the hunks.
pub proof fn lemma_hunk_index_in_range(hs: Seq<HunkView>, n: u32)
    ensures
        hunk_index(hs, n) matches Some(j) ==> 0 <= j < hs.len() && hunk_covers(hs[j], n),
    decreases hs.len(),
{
    if hs.len() > 0 && !hunk_covers(hs.last(), n) {
        lemma_hunk_index_in_range(hs.drop_last(), n);
    }
}

/// The author shown for line `n`: the first name given for it, else `fallback`.
pub open spec fn author_for(authors: Seq<(u32, Seq<char>)>, n: u32, fallback: Seq<char>) -> Seq<char>
    decreases authors.len(),
{
    if authors.len() == 0 {
        fallback
    } else if authors[0].0 == n {
        authors[0].1
    } else {
        author_for(authors.drop_first(), n, fallback)
    }
}

/// A line number right-aligned in four columns.
pub open spec fn pad4(n: u32) -> Seq<char> {
    let d = decimal(n as nat);
    if d.len() < 4 {
        Seq::new((4 - d.len()) as nat, |i: int| ' ') + d
    } else {
        d
    }
}

/// The text of line `n` (counted from 1), or nothing past the end.
pub open spec fn line_content(lines: Seq<Seq<char>>, n: u32) -> Seq<char> {
    if 1 <= n && n - 1 < lines.len() {
        lines[n - 1]
    } else {
        Seq::empty()
    }
}

/// The commit column of a hunk: `^` and eight spaces for a boundary commit when boundaries
/// are blanked, else the short form of the commit.
pub open spec fn sha_field(h: HunkView, o: BlameOptionsView) -> Seq<char> {
    if h.is_boundary && o.blank_boundary {
        "^        "@
    } else {
        abbrev_of(h.commit_sha, o.long_rev, o.abbrev)
    }
}

/// The author column: the name, with the email in angle brackets when it is asked for.
pub open spec fn author_field(author: Seq<char>, email: Seq<char>, o: BlameOptionsView) -> Seq<char> {
    if o.show_email {
        author + " <"@ + email + ">"@
    } else {
        author
    }
}

/// One line of the default blame text.
pub open spec fn blame_line(c: RenderView, n: u32) -> Seq<char> {
    let content = line_content(c.lines, n);
    match hunk_for(c.hunks, n) {
        Some(h) => {
            let sha = sha_field(h, c.opts);
            if c.opts.suppress_author {
                sha + " "@ + decimal(n as nat) + ") "@ + content + "\n"@
            } else {
                let who = author_field(author_for(c.authors, n, h.original_author), h.author_email, c.opts);
                let date = blame_date_text(h.author_time, encode_utf8(h.author_tz), c.opts.date_format, c.now);
                let tail = " ("@ + who + " "@ + date + " "@ + pad4(n) + ") "@ + content + "\n"@;
                if c.opts.show_name {
                    sha + " "@ + c.file + tail
                } else if c.opts.show_number {
                    sha + " "@ + decimal(n as nat) + tail
                } else {
                    sha + tail
                }
            }
        },
        None => "???????? (unknown        1970-01-01 00:00:00 +0000    "@ + pad4(n) + ") "@ + content + "\n"@,
    }
}

/// The lines `s`, `s + 1`, ... of the blame text, `k` of them.
pub open spec fn range_lines(c: RenderView, s: u32, k: nat) -> Seq<char>
    decreases k,
{
    if k == 0 {
        Seq::empty()
    } else {
        range_lines(c, s, (k - 1) as nat) + blame_line(c, (s + k - 1) as u32)
    }
}

/// How many lines an inclusive range holds.
pub open spec fn span(r: (u32, u32)) -> nat {
    if r.0 <= r.1 {
        (r.1 - r.0 + 1) as nat
    } else {
        0
    }
}

/// The blame lines of each range in turn.
pub open spec fn ranges_text(c: RenderView, rs: Seq<(u32, u32)>) -> Seq<char>
    decreases rs.len(),
{
    if rs.len() == 0 {
        Seq::empty()
    } else {
        ranges_text(c, rs.drop_last()) + range_lines(c, rs.last().0, span(rs.last()))
    }
}

/// The default blame text: the lines of every range, then the statistics when asked for.
pub open spec fn default_blame_text(c: RenderView, rs: Seq<(u32, u32)>) -> Seq<char> {
    ranges_text(c, rs) + if c.opts.show_stats {
        "num read blob: 1\nnum get patch: 0\nnum commits: 0\n"@
    } else {
        Seq::empty()
    }
}

/// Every line of the ranges that a hunk blames has a time zone that the date formatting
/// can cut.
pub open spec fn dates_formattable(hs: Seq<HunkView>, rs: Seq<(u32, u32)>) -> bool {
    forall|i: int, n: u32|
        #![trigger rs[i], hunk_for(hs, n)]
        0 <= i < rs.len() && rs[i].0 <= n <= rs[i].1 && hunk_for(hs, n) is Some ==> tz_cuttable(
            encode_utf8(hunk_for(hs, n)->Some_0.author_tz),
        )
}

/// Appends the characters of a string slice.
fn push_str_chars(v: &mut Vec<char>, s: &str)
    ensures
        final(v)@ == old(v)@ + s@,
{
    let cs = to_chars(s);
    extend_chars(v, cs.as_slice());
}

/// The hunk that blames line `n`, by its index (see `hunk_index`).
fn find_hunk(hunks: &[BlameHunk], n: u32) -> (r: Option<usize>)
    ensures
        r == (match hunk_index(hunks_view(hunks@), n) {
            Some(j) => Some(j as usize),
            None => None::<usize>,
        }),
        r matches Some(i) ==> i < hunks.len() && hunk_for(hunks_view(hunks@), n) == Some(hunks@[i as int]@),
        r is None ==> hunk_for(hunks_view(hunks@), n) is None,
{
    let ghost hv = hunks_view(hunks@);
    let mut i: usize = hunks.len();
    proof {
        assert(hv.take(i as int) =~= hv);
    }
    while i > 0
        invariant
            i <= hunks.len(),
            hv == hunks_view(hunks@),
            hunk_index(hv, n) == hunk_index(hv.take(i as int), n),
        decreases i,
    {
        proof {
            assert(hv.take(i as int).drop_last() =~= hv.take(i - 1));
            assert(hv.take(i as int).last() == hunks@[i - 1]@);
        }
        let h = &hunks[i - 1];
        if h.range.0 <= n && n <= h.range.1 {
            return Some(i - 1);
        }
        i = i - 1;
    }
    None
}

/// The author shown for line `n` (see `author_for`).
fn line_author(authors: &[(u32, String)], n: u32, fallback: &String) -> (r: String)
    ensures
        r@ == author_for(authors@.map_values(|p: (u32, String)| (p.0, p.1@)), n, fallback@),
{
    let ghost av = authors@.map_values(|p: (u32, String)| (p.0, p.1@));
    let mut i: usize = 0;
    proof {
        assert(av.skip(0) =~= av);
    }
    while i < authors.len()
        invariant
            i <= authors.len(),
            av == authors@.map_values(|p: (u32, String)| (p.0, p.1@)),
            author_for(av, n, fallback@) == author_for(av.skip(i as int), n, fallback@),
        decreases authors.len() - i,
    {
        proof {
            assert(av.skip(i as int).drop_first() =~= av.skip(i + 1));
            assert(av.skip(i as int)[0] == av[i as int]);
        }
        if authors[i].0 == n {
            return authors[i].1.clone();
        }
        i = i + 1;
    }
    proof {
        assert(av.skip(i as int) =~= Seq::<(u32, Seq<char>)>::empty());
    }
    fallback.clone()
}

/// A line number right-aligned in four columns (see `pad4`).
fn pad4_chars(n: u32) -> (r: Vec<char>)
    ensures
        r@ == pad4(n),
{
    let d = u64_to_chars(n as u64);
    if d.len() < 4 {
        let k = 4 - d.len();
        let mut r: Vec<char> = Vec::new();
        let mut j: usize = 0;
        while j < k
            invariant
                j <= k,
                r@ == Seq::new(j as nat, |i: int| ' '),
            decreases k - j,
        {
            r.push(' ');
            proof {
                assert(r@ =~= Seq::new((j + 1) as nat, |i: int| ' '));
            }
            j = j + 1;
        }
        extend_chars(&mut r, d.as_slice());
        r
    } else {
        d
    }
}

/// The commit column of a hunk (see `sha_field`).
fn sha_chars(h: &BlameHunk, options: &GitAiBlameOptions) -> (r: Vec<char>)
    ensures
        r@ == sha_field(h@, options@),
{
    if h.is_boundary && options.blank_boundary {
        to_chars("^        ")
    } else {
        let cs = to_chars(h.commit_sha.as_str());
        crate::blame_porcelain::abbreviate(cs.as_slice(), options.long_rev, options.abbrev)
    }
}

/// The author column (see `author_field`).
fn author_chars(author: &String, email: &String, options: &GitAiBlameOptions) -> (r: Vec<char>)
    ensures
        r@ == author_field(author@, email@, options@),
{
    let mut r = to_chars(author.as_str());
    if options.show_email {
        push_str_chars(&mut r, " <");
        push_str_chars(&mut r, email.as_str());
        push_str_chars(&mut r, ">");
    }
    r
}

/// The text of line `n`, counted from 1, or nothing past the end.
fn content_chars(lines: &[String], n: u32) -> (r: Vec<char>)
    requires
        n >= 1,
    ensures
        r@ == line_content(strings_view(lines@), n),
{
    let k = (n - 1) as usize;
    if k < lines.len() {
        to_chars(lines[k].as_str())
    } else {
        Vec::new()
    }
}

/// One line of the default blame text (see `blame_line`).
fn blame_line_chars(
    hunks: &[BlameHunk],
    authors: &[(u32, String)],
    file_path: &str,
    lines: &[String],
    options: &GitAiBlameOptions,
    now: i64,
    n: u32,
) -> (r: Vec<char>)
    requires
        n >= 1,
        hunk_for(hunks_view(hunks@), n) matches Some(h) ==> tz_cuttable(encode_utf8(h.author_tz)),
    ensures
        r@ == blame_line(render_view(hunks@, authors@, file_path@, lines@, options@, now), n),
{
    let ghost c = render_view(hunks@, authors@, file_path@, lines@, options@, now);
    let content = content_chars(lines, n);
    let pad = pad4_chars(n);
    match find_hunk(hunks, n) {
        None => {
            let mut r = to_chars("???????? (unknown        1970-01-01 00:00:00 +0000    ");
            extend_chars(&mut r, pad.as_slice());
            push_str_chars(&mut r, ") ");
            extend_chars(&mut r, content.as_slice());
            push_str_chars(&mut r, "\n");
            r
        },
        Some(i) => {
            let h = &hunks[i];
            let mut r = sha_chars(h, options);
            let date = format_blame_date_at(h.author_time, h.author_tz.as_str(), &options.date_format, now);
            if options.suppress_author {
                push_str_chars(&mut r, " ");
                let d = u64_to_chars(n as u64);
                extend_chars(&mut r, d.as_slice());
                push_str_chars(&mut r, ") ");
                extend_chars(&mut r, content.as_slice());
                push_str_chars(&mut r, "\n");
                r
            } else {
                let author = line_author(authors, n, &h.original_author);
                let who = author_chars(&author, &h.author_email, options);
                let mut tail = to_chars(" (");
                extend_chars(&mut tail, who.as_slice());
                push_str_chars(&mut tail, " ");
                push_str_chars(&mut tail, date.as_str());
                push_str_chars(&mut tail, " ");
                extend_chars(&mut tail, pad.as_slice());
                push_str_chars(&mut tail, ") ");
                extend_chars(&mut tail, content.as_slice());
                push_str_chars(&mut tail, "\n");
                if options.show_name {
                    push_str_chars(&mut r, " ");
                    push_str_chars(&mut r, file_path);
                } else if options.show_number {
                    push_str_chars(&mut r, " ");
                    let d = u64_to_chars(n as u64);
                    extend_chars(&mut r, d.as_slice());
                }
                extend_chars(&mut r, tail.as_slice());
                r
            }
        },
    }
}

/// The text that `git-ai blame` prints by default for the lines of `line_ranges`, with
/// `now` as the current time: for each range in turn, one line per line number, made from
/// the last hunk that covers it (`hunks` holds the hunks of every range, in order), the
/// author given for that line in `line_authors` (else the hunk's author) and the line's
/// text from `lines`; then the statistics when they are asked for.
pub fn default_format_text(
    hunks: &[BlameHunk],
    line_authors: &[(u32, String)],
    file_path: &str,
    lines: &[String],
    line_ranges: &[(u32, u32)],
    options: &GitAiBlameOptions,
    now: i64,
) -> (r: String)
    requires
        forall|i: int| 0 <= i < line_ranges@.len() ==> #[trigger] line_ranges@[i].0 >= 1,
        dates_formattable(hunks_view(hunks@), line_ranges@),
    ensures
        r@ == default_blame_text(render_view(hunks@, line_authors@, file_path@, lines@, options@, now), line_ranges@),
{
    let ghost c = render_view(hunks@, line_authors@, file_path@, lines@, options@, now);
    let ghost rs = line_ranges@;
    let ghost hv = hunks_view(hunks@);
    let mut out: Vec<char> = Vec::new();
    let mut i: usize = 0;
    proof {
        assert(rs.take(0) =~= Seq::<(u32, u32)>::empty());
    }
    while i < line_ranges.len()
        invariant
            i <= line_ranges.len(),
            rs == line_ranges@,
            hv == hunks_view(hunks@),
            c == render_view(hunks@, line_authors@, file_path@, lines@, options@, now),
            forall|j: int| 0 <= j < rs.len() ==> #[trigger] rs[j].0 >= 1,
            dates_formattable(hv, rs),
            out@ == ranges_text(c, rs.take(i as int)),
        decreases line_ranges.len() - i,
    {
        let (s, e) = line_ranges[i];
        let mut n: u64 = s as u64;
        proof {
            assert(rs[i as int].0 >= 1);
            assert(out@ + range_lines(c, s, 0) =~= out@);
        }
        while n <= e as u64
            invariant
                i < rs.len(),
                rs[i as int] == (s, e),
                s >= 1,
                s <= n,
                n <= e as u64 + 1 || n == s,
                rs == line_ranges@,
                hv == hunks_view(hunks@),
                c == render_view(hunks@, line_authors@, file_path@, lines@, options@, now),
                dates_formattable(hv, rs),
                out@ == ranges_text(c, rs.take(i as int)) + range_lines(c, s, (n - s) as nat),
            decreases e as u64 + 1 - n,
        {
            let ln = n as u32;
            proof {
                if hunk_for(hv, ln) is Some {
                    assert(rs[i as int].0 <= ln <= rs[i as int].1);
                }
            }
            let t = blame_line_chars(hunks, line_authors, file_path, lines, options, now, ln);
            extend_chars(&mut out, t.as_slice());
            proof {
                assert(range_lines(c, s, (n + 1 - s) as nat) == range_lines(c, s, (n - s) as nat) + blame_line(
                    c,
                    (s + (n + 1 - s) - 1) as u32,
                ));
                assert((s + (n + 1 - s) - 1) as u32 == ln);
            }
            n = n + 1;
        }
        proof {
            assert((n - s) as nat == span(rs[i as int]));
            assert(rs.take(i + 1).drop_last() =~= rs.take(i as int));
            assert(rs.take(i + 1).last() == rs[i as int]);
        }
        i = i + 1;
    }
    proof {
        assert(rs.take(rs.len() as int) =~= rs);
    }
    if options.show_stats {
        push_str_chars(&mut out, "num read blob: 1\nnum get patch: 0\nnum commits: 0\n");
    } else {
        proof {
            assert(out@ + Seq::<char>::empty() =~= out@);
        }
    }
    from_chars(out.as_slice())
}

/// The text that `git-ai blame` prints by default (see `default_format_text`), at the
/// current time of the system clock.
pub fn output_default_format(
    hunks: &[BlameHunk],
    line_authors: &[(u32, String)],
    file_path: &str,
    lines: &[String],
    line_ranges: &[(u32, u32)],
    options: &GitAiBlameOptions,
) -> (r: String)
    requires
        forall|i: int| 0 <= i < line_ranges@.len() ==> #[trigger] line_ranges@[i].0 >= 1,
        dates_formattable(hunks_view(hunks@), line_ranges@),
    ensures
        exists|now: i64|
            r@ == default_blame_text(render_view(hunks@, line_authors@, file_path@, lines@, options@, now), line_ranges@),
{
    let now = utc_now_secs();
    default_format_text(hunks, line_authors, file_path, lines, line_ranges, options, now)
}

// ---------------------------------------------------------------------------------------
// Porcelain and incremental records

/// What the porcelain and incremental records are made from, as plain values.
pub struct RecordView {
    pub hunks: Seq<HunkView>,
    pub summaries: Seq<Seq<char>>,
    pub file: Seq<char>,
    pub lines: Seq<Seq<char>>,
    pub opts: BlameOptionsView,
    pub incremental: bool,
}

/// The plain values of the arguments of the record formats.
pub open spec fn record_view(
    hunks: Seq<BlameHunk>,
    summaries: Seq<String>,
    file: Seq<char>,
    lines: Seq<String>,
    opts: BlameOptionsView,
    incremental: bool,
) -> RecordView {
    RecordView {
        hunks: hunks_view(hunks),
        summaries: strings_view(summaries),
        file,
        lines: strings_view(lines),
        opts,
        incremental,
    }
}

/// The commit and first line that identify the hunk last written.
pub open spec fn last_view(last: Option<(String, u32)>) -> Option<(Seq<char>, u32)> {
    match last {
        Some((s, k)) => Some((s@, k)),
        None => None,
    }
}

/// The header of a record for line `n`: commit, original and final line (both `n`), and
/// for the first line of a hunk also the number of lines of the hunk.
pub open spec fn record_header(h: HunkView, n: u32, first: bool) -> Seq<char> {
    let head = h.commit_sha + " "@ + decimal(n as nat) + " "@ + decimal(n as nat);
    if first {
        head + " "@ + decimal((h.range.1 - h.range.0 + 1) as nat) + "\n"@
    } else {
        head + "\n"@
    }
}

/// The metadata lines of a hunk's record, with the commit summary `summary`.
pub open spec fn record_meta(h: HunkView, summary: Seq<char>, file: Seq<char>) -> Seq<char> {
    "author "@ + h.original_author + "\n"@ + "author-mail <"@ + h.author_email + ">\n"@ + "author-time "@
        + signed_decimal(h.author_time as int) + "\n"@ + "author-tz "@ + h.author_tz + "\n"@ + "committer "@
        + h.committer + "\n"@ + "committer-mail <"@ + h.committer_email + ">\n"@ + "committer-time "@
        + signed_decimal(h.committer_time as int) + "\n"@ + "committer-tz "@ + h.committer_tz + "\n"@
        + "summary "@ + summary + "\n"@ + (if h.is_boundary {
        "boundary\n"@
    } else {
        Seq::empty()
    }) + "filename "@ + file + "\n"@
}

/// The record of a line that no hunk blames, in the incremental format.
pub open spec fn unknown_record(n: u32, file: Seq<char>) -> Seq<char> {
    "0000000000000000000000000000000000000000 "@ + decimal(n as nat) + " "@ + decimal(n as nat)
        + " 1\nauthor unknown\nauthor-mail <unknown@example.com>\nauthor-time 0\nauthor-tz +0000\ncommitter unknown\ncommitter-mail <unknown@example.com>\ncommitter-time 0\ncommitter-tz +0000\nsummary unknown\nfilename "@
        + file + "\n"@
}

/// The text written for line `n` and the hunk then last written, given the hunk last
/// written before. The porcelain formats write a line of a hunk with its text (`\t` and
/// the line); the first line of a hunk (and with `line_porcelain` every line) comes with the
/// metadata. The incremental format writes the metadata of each hunk once, without the
/// text, and an `unknown` record for a line that no hunk blames.
pub open spec fn record_step(c: RecordView, n: u32, last: Option<(Seq<char>, u32)>) -> (Seq<char>, Option<(Seq<char>, u32)>) {
    match hunk_index(c.hunks, n) {
        None => if c.incremental {
            (unknown_record(n, c.file), last)
        } else {
            (Seq::empty(), last)
        },
        Some(j) => {
            let h = c.hunks[j];
            let id = (h.commit_sha, h.range.0);
            let first = last != Some(id);
            let text = "\t"@ + line_content(c.lines, n) + "\n"@;
            if c.incremental {
                if first {
                    (record_header(h, n, true) + record_meta(h, "Initial commit"@, c.file), Some(id))
                } else {
                    (Seq::empty(), last)
                }
            } else if c.opts.line_porcelain {
                (record_header(h, n, first) + record_meta(h, c.summaries[j], c.file) + text, Some(id))
            } else if c.opts.porcelain {
                if first {
                    (record_header(h, n, true) + record_meta(h, c.summaries[j], c.file) + text, Some(id))
                } else {
                    (record_header(h, n, false) + text, last)
                }
            } else {
                (Seq::empty(), last)
            }
        },
    }
}

/// The records of lines `s`, `s + 1`, ... (`k` of them), from the hunk last written before.
pub open spec fn records_in_range(c: RecordView, s: u32, k: nat, last: Option<(Seq<char>, u32)>) -> (
    Seq<char>,
    Option<(Seq<char>, u32)>,
)
    decreases k,
{
    if k == 0 {
        (Seq::empty(), last)
    } else {
        let prev = records_in_range(c, s, (k - 1) as nat, last);
        let step = record_step(c, (s + k - 1) as u32, prev.1);
        (prev.0 + step.0, step.1)
    }
}

/// The records of the lines of each range in turn, and the hunk last written.
pub open spec fn records_in_ranges(c: RecordView, rs: Seq<(u32, u32)>) -> (Seq<char>, Option<(Seq<char>, u32)>)
    decreases rs.len(),
{
    if rs.len() == 0 {
        (Seq::empty(), None)
    } else {
        let prev = records_in_ranges(c, rs.drop_last());
        let more = records_in_range(c, rs.last().0, span(rs.last()), prev.1);
        (prev.0 + more.0, more.1)
    }
}

/// Every hunk that blames a line of the ranges has a line count that fits in `u32`.
pub open spec fn record_counts_fit(hs: Seq<HunkView>, rs: Seq<(u32, u32)>) -> bool {
    forall|i: int, n: u32|
        #![trigger rs[i], hunk_for(hs, n)]
        0 <= i < rs.len() && rs[i].0 <= n <= rs[i].1 && hunk_for(hs, n) is Some ==> hunk_for(hs, n)->Some_0.range.1
            - hunk_for(hs, n)->Some_0.range.0 + 1 <= u32::MAX
}

/// The header of a record (see `record_header`).
fn record_header_chars(h: &BlameHunk, n: u32, first: bool) -> (r: Vec<char>)
    requires
        first ==> h.range.0 <= h.range.1 && h.range.1 - h.range.0 + 1 <= u32::MAX,
    ensures
        r@ == record_header(h@, n, first),
{
    let mut r = to_chars(h.commit_sha.as_str());
    let d = u64_to_chars(n as u64);
    push_str_chars(&mut r, " ");
    extend_chars(&mut r, d.as_slice());
    push_str_chars(&mut r, " ");
    extend_chars(&mut r, d.as_slice());
    if first {
        push_str_chars(&mut r, " ");
        let count: u32 = h.range.1 - h.range.0 + 1;
        let cd = u64_to_chars(count as u64);
        extend_chars(&mut r, cd.as_slice());
    }
    push_str_chars(&mut r, "\n");
    r
}

/// Appends a label, a value and a line end.
fn push_field(r: &mut Vec<char>, label: &str, value: &[char], close: &str)
    ensures
        final(r)@ == old(r)@ + label@ + value@ + close@,
{
    push_str_chars(r, label);
    extend_chars(r, value);
    push_str_chars(r, close);
}

/// The metadata lines of a record (see `record_meta`).
fn record_meta_chars(h: &BlameHunk, summary: &str, file_path: &str) -> (r: Vec<char>)
    ensures
        r@ == record_meta(h@, summary@, file_path@),
{
    let mut r: Vec<char> = Vec::new();
    push_field(&mut r, "author ", to_chars(h.original_author.as_str()).as_slice(), "\n");
    push_field(&mut r, "author-mail <", to_chars(h.author_email.as_str()).as_slice(), ">\n");
    push_field(&mut r, "author-time ", signed_decimal_chars(h.author_time).as_slice(), "\n");
    push_field(&mut r, "author-tz ", to_chars(h.author_tz.as_str()).as_slice(), "\n");
    push_field(&mut r, "committer ", to_chars(h.committer.as_str()).as_slice(), "\n");
    push_field(&mut r, "committer-mail <", to_chars(h.committer_email.as_str()).as_slice(), ">\n");
    push_field(&mut r, "committer-time ", signed_decimal_chars(h.committer_time).as_slice(), "\n");
    push_field(&mut r, "committer-tz ", to_chars(h.committer_tz.as_str()).as_slice(), "\n");
    push_field(&mut r, "summary ", to_chars(summary).as_slice(), "\n");
    if h.is_boundary {
        push_str_chars(&mut r, "boundary\n");
    }
    push_field(&mut r, "filename ", to_chars(file_path).as_slice(), "\n");
    r
}

/// Whether a hunk is other than the one last written.
fn is_new_hunk(last: &Option<(String, u32)>, h: &BlameHunk) -> (r: bool)
    ensures
        r == (last_view(*last) != Some((h.commit_sha@, h.range.0))),
{
    match last {
        Some((s, k)) => !(str_eq(s.as_str(), h.commit_sha.as_str()) && *k == h.range.0),
        None => true,
    }
}

/// Writes the record of line `n` (see `record_step`).
fn write_record(
    hunks: &[BlameHunk],
    summaries: &[String],
    file_path: &str,
    lines: &[String],
    options: &GitAiBlameOptions,
    incremental: bool,
    n: u32,
    last: &mut Option<(String, u32)>,
    out: &mut Vec<char>,
)
    requires
        incremental || summaries.len() == hunks.len(),
        incremental || n >= 1,
        hunk_for(hunks_view(hunks@), n) matches Some(h) ==> h.range.1 - h.range.0 + 1 <= u32::MAX,
    ensures
        final(out)@ == old(out)@ + record_step(
            record_view(hunks@, summaries@, file_path@, lines@, options@, incremental),
            n,
            last_view(*old(last)),
        ).0,
        last_view(*final(last)) == record_step(
            record_view(hunks@, summaries@, file_path@, lines@, options@, incremental),
            n,
            last_view(*old(last)),
        ).1,
{
    proof {
        lemma_hunk_index_in_range(hunks_view(hunks@), n);
    }
    match find_hunk(hunks, n) {
        None => {
            if incremental {
                let mut r = to_chars("0000000000000000000000000000000000000000 ");
                let d = u64_to_chars(n as u64);
                extend_chars(&mut r, d.as_slice());
                push_str_chars(&mut r, " ");
                extend_chars(&mut r, d.as_slice());
                push_str_chars(
                    &mut r,
                    " 1\nauthor unknown\nauthor-mail <unknown@example.com>\nauthor-time 0\nauthor-tz +0000\ncommitter unknown\ncommitter-mail <unknown@example.com>\ncommitter-time 0\ncommitter-tz +0000\nsummary unknown\nfilename ",
                );
                push_str_chars(&mut r, file_path);
                push_str_chars(&mut r, "\n");
                extend_chars(out, r.as_slice());
            }
        },
        Some(j) => {
            let h = &hunks[j];
            let first = is_new_hunk(last, h);
            if incremental {
                if first {
                    let mut r = record_header_chars(h, n, true);
                    let m = record_meta_chars(h, "Initial commit", file_path);
                    extend_chars(&mut r, m.as_slice());
                    extend_chars(out, r.as_slice());
                    *last = Some((h.commit_sha.clone(), h.range.0));
                }
            } else if options.line_porcelain || options.porcelain {
                let mut text = to_chars("\t");
                let content = content_chars(lines, n);
                extend_chars(&mut text, content.as_slice());
                push_str_chars(&mut text, "\n");
                if options.line_porcelain || first {
                    let mut r = record_header_chars(h, n, first);
                    let m = record_meta_chars(h, summaries[j].as_str(), file_path);
                    extend_chars(&mut r, m.as_slice());
                    extend_chars(&mut r, text.as_slice());
                    extend_chars(out, r.as_slice());
                    *last = Some((h.commit_sha.clone(), h.range.0));
                } else {
                    let mut r = record_header_chars(h, n, false);
                    extend_chars(&mut r, text.as_slice());
                    extend_chars(out, r.as_slice());
                }
            }
        },
    }
}

/// The records of every line of the ranges (see `records_in_ranges`).
fn records_text(
    hunks: &[BlameHunk],
    summaries: &[String],
    file_path: &str,
    lines: &[String],
    line_ranges: &[(u32, u32)],
    options: &GitAiBlameOptions,
    incremental: bool,
) -> (r: String)
    requires
        incremental || summaries.len() == hunks.len(),
        incremental || forall|i: int| 0 <= i < line_ranges@.len() ==> #[trigger] line_ranges@[i].0 >= 1,
        record_counts_fit(hunks_view(hunks@), line_ranges@),
    ensures
        r@ == records_in_ranges(
            record_view(hunks@, summaries@, file_path@, lines@, options@, incremental),
            line_ranges@,
        ).0,
{
    let ghost c = record_view(hunks@, summaries@, file_path@, lines@, options@, incremental);
    let ghost rs = line_ranges@;
    let ghost hv = hunks_view(hunks@);
    let mut out: Vec<char> = Vec::new();
    let mut last: Option<(String, u32)> = None;
    let mut i: usize = 0;
    proof {
        assert(rs.take(0) =~= Seq::<(u32, u32)>::empty());
    }
    while i < line_ranges.len()
        invariant
            i <= line_ranges.len(),
            rs == line_ranges@,
            hv == hunks_view(hunks@),
            c == record_view(hunks@, summaries@, file_path@, lines@, options@, incremental),
            incremental || summaries.len() == hunks.len(),
            incremental || forall|j: int| 0 <= j < rs.len() ==> #[trigger] rs[j].0 >= 1,
            record_counts_fit(hv, rs),
            out@ == records_in_ranges(c, rs.take(i as int)).0,
            last_view(last) == records_in_ranges(c, rs.take(i as int)).1,
        decreases line_ranges.len() - i,
    {
        let (s, e) = line_ranges[i];
        let ghost before = records_in_ranges(c, rs.take(i as int));
        let mut n: u64 = s as u64;
        proof {
            if !incremental {
                assert(rs[i as int].0 >= 1);
            }
            assert(before.0 + records_in_range(c, s, 0, before.1).0 =~= before.0);
        }
        while n <= e as u64
            invariant
                i < rs.len(),
                rs[i as int] == (s, e),
                incremental || s >= 1,
                s <= n,
                n <= e as u64 + 1 || n == s,
                rs == line_ranges@,
                hv == hunks_view(hunks@),
                c == record_view(hunks@, summaries@, file_path@, lines@, options@, incremental),
                incremental || summaries.len() == hunks.len(),
                record_counts_fit(hv, rs),
                out@ == before.0 + records_in_range(c, s, (n - s) as nat, before.1).0,
                last_view(last) == records_in_range(c, s, (n - s) as nat, before.1).1,
            decreases e as u64 + 1 - n,
        {
            let ln = n as u32;
            proof {
                if hunk_for(hv, ln) is Some {
                    assert(rs[i as int].0 <= ln <= rs[i as int].1);
                }
                assert((s + (n + 1 - s) - 1) as u32 == ln);
            }
            write_record(hunks, summaries, file_path, lines, options, incremental, ln, &mut last, &mut out);
            n = n + 1;
        }
        proof {
            assert((n - s) as nat == span(rs[i as int]));
            assert(rs.take(i + 1).drop_last() =~= rs.take(i as int));
            assert(rs.take(i + 1).last() == rs[i as int]);
        }
        i = i + 1;
    }
    proof {
        assert(rs.take(rs.len() as int) =~= rs);
    }
    from_chars(out.as_slice())
}

/// The text of `git-ai blame --porcelain` and `--line-porcelain` for the lines of
/// `line_ranges`: each line that a hunk blames (the last of `hunks` that covers it) as a
/// record in git's porcelain form, with `summaries[j]` as the summary of the commit of
/// `hunks[j]`; a line that no hunk blames is left out.
pub fn output_porcelain_format(
    hunks: &[BlameHunk],
    summaries: &[String],
    file_path: &str,
    lines: &[String],
    line_ranges: &[(u32, u32)],
    options: &GitAiBlameOptions,
) -> (r: String)
    requires
        summaries.len() == hunks.len(),
        forall|i: int| 0 <= i < line_ranges@.len() ==> #[trigger] line_ranges@[i].0 >= 1,
        record_counts_fit(hunks_view(hunks@), line_ranges@),
    ensures
        r@ == records_in_ranges(record_view(hunks@, summaries@, file_path@, lines@, options@, false), line_ranges@).0,
{
    records_text(hunks, summaries, file_path, lines, line_ranges, options, false)
}

/// The text of `git-ai blame --incremental` for the lines of `line_ranges`: the metadata
/// of each hunk once, at the first line that it blames, and an `unknown` record for each
/// line that no hunk blames.
pub fn output_incremental_format(
    hunks: &[BlameHunk],
    file_path: &str,
    line_ranges: &[(u32, u32)],
    options: &GitAiBlameOptions,
) -> (r: String)
    requires
        record_counts_fit(hunks_view(hunks@), line_ranges@),
    ensures
        r@ == records_in_ranges(record_view(hunks@, seq![], file_path@, seq![], options@, true), line_ranges@).0,
{
    let summaries: Vec<String> = Vec::new();
    let lines: Vec<String> = Vec::new();
    proof {
        assert(summaries@ =~= seq![]);
        assert(lines@ =~= seq![]);
    }
    records_text(hunks, summaries.as_slice(), file_path, lines.as_slice(), line_ranges, options, true)
}

} // verus!
