//! Reading an authorship log text back gives what was written.

use vstd::prelude::*;

use crate::authorship_log::{AttestationView, FileView};
use crate::line_range::LineRange;
use crate::log_format::{
    attestation_text, before_divider, divider, divider_at, entries_text, entry_line, file_text, find_char,
    first_at, join_lines, join_ranges, lemma_split_nonempty, lines_of, lone_quote, needs_quoting_spec,
    parse_parts, parse_range_part, parse_ranges_spec, parse_section_spec, path_of_line, quoted_path, range_text,
    ranges_text, readable_text, section_step, section_steps, split_on, strip_cr, trim_end, trim_end_len, is_space,
    SectionState,
};
use crate::merge::{place_by_start, sort_by_start};
use crate::text::{all_digits, decimal, digit_char, digit_value, digits_value, is_digit, parse_u32_spec};

verus! {

/// Whether `s` holds no `c`.
pub open spec fn free_of(s: Seq<char>, c: char) -> bool {
    forall|i: int| 0 <= i < s.len() ==> s[i] != c
}

// ---------------------------------------------------------------------------------------
// Numbers

/// A decimal numeral is a non-empty run of digits worth its number.
pub proof fn lemma_decimal(n: nat)
    ensures
        decimal(n).len() > 0,
        all_digits(decimal(n)),
        digits_value(decimal(n)) == n,
    decreases n,
{
    if n >= 10 {
        lemma_decimal(n / 10);
        let s = decimal(n);
        assert(s.drop_last() =~= decimal(n / 10));
        assert forall|i: int| 0 <= i < s.len() implies is_digit(#[trigger] s[i]) by {
            if i < s.len() - 1 {
                assert(s[i] == decimal(n / 10)[i]);
            }
        }
        let d = (n % 10) as int;
        assert(digit_value(digit_char(d)) == d);
        assert(digits_value(s) == digits_value(decimal(n / 10)) * 10 + d);
        assert((n / 10) * 10 + n % 10 == n);
        assert(digits_value(s) == n);
    } else {
        assert(digit_value(digit_char(n as int)) == n);
        assert(decimal(n).drop_last() =~= Seq::<char>::empty());
        assert(is_digit(decimal(n)[0]));
        assert(digits_value(Seq::<char>::empty()) == 0);
        assert(digits_value(decimal(n)) == digits_value(decimal(n).drop_last()) * 10 + digit_value(decimal(n).last()));
    }
}

/// A decimal numeral reads back as its number.
pub proof fn lemma_parse_decimal(n: u32)
    ensures
        parse_u32_spec(decimal(n as nat)) == Some(n),
{
    lemma_decimal(n as nat);
    let s = decimal(n as nat);
    assert(is_digit(s[0]));
}

/// The first `c` of `s` is at `i` when `i` is such a position.
pub proof fn lemma_find_char_at(s: Seq<char>, c: char, i: int)
    requires
        first_at(s, c, i),
    ensures
        find_char(s, c) == i,
{
    let w = find_char(s, c);
    assert(first_at(s, c, w));
    if w < i {
        assert(s[w] == c);
    }
    if w > i {
        assert(s[i] == c);
    }
}

// ---------------------------------------------------------------------------------------
// Splitting

/// A text without separators is one piece.
pub proof fn lemma_split_single(s: Seq<char>, c: char)
    requires
        free_of(s, c),
    ensures
        split_on(s, c) == seq![s],
    decreases s.len(),
{
    if s.len() > 0 {
        lemma_split_single(s.drop_last(), c);
        assert(s.drop_last().push(s.last()) =~= s);
        assert(seq![s.drop_last()].update(0, s.drop_last().push(s.last())) =~= seq![s]);
    } else {
        assert(s =~= Seq::<char>::empty());
    }
}

/// Splitting at a separator splits the two sides.
pub proof fn lemma_split_join(a: Seq<char>, b: Seq<char>, c: char)
    ensures
        split_on(a + seq![c] + b, c) == split_on(a, c) + split_on(b, c),
    decreases b.len(),
{
    let s = a + seq![c] + b;
    lemma_split_nonempty(a, c);
    if b.len() == 0 {
        assert(s.drop_last() =~= a);
        assert(b =~= Seq::<char>::empty());
        assert(split_on(s, c) =~= split_on(a, c) + split_on(b, c));
    } else {
        let b2 = b.drop_last();
        lemma_split_join(a, b2, c);
        lemma_split_nonempty(b2, c);
        assert(s.drop_last() =~= a + seq![c] + b2);
        assert(s.last() == b.last());
        assert(split_on(s, c) =~= split_on(a, c) + split_on(b, c));
    }
}

/// The lines `ls`, each followed by a newline.
pub open spec fn newline_joined(ls: Seq<Seq<char>>) -> Seq<char>
    decreases ls.len(),
{
    if ls.len() == 0 {
        Seq::empty()
    } else {
        newline_joined(ls.drop_last()) + ls.last() + seq!['\n']
    }
}

/// Joining two lists of lines joins their texts.
pub proof fn lemma_newline_joined_concat(a: Seq<Seq<char>>, b: Seq<Seq<char>>)
    ensures
        newline_joined(a + b) == newline_joined(a) + newline_joined(b),
    decreases b.len(),
{
    if b.len() == 0 {
        assert(a + b =~= a);
        assert(newline_joined(a) + newline_joined(b) =~= newline_joined(a));
    } else {
        lemma_newline_joined_concat(a, b.drop_last());
        assert((a + b).drop_last() =~= a + b.drop_last());
        assert((a + b).last() == b.last());
        assert(newline_joined(a + b) =~= newline_joined(a) + newline_joined(b));
    }
}

/// Lines without newlines, each followed by a newline, split back into those lines.
pub proof fn lemma_split_lines(ls: Seq<Seq<char>>, t: Seq<char>)
    requires
        forall|k: int| 0 <= k < ls.len() ==> free_of(#[trigger] ls[k], '\n'),
    ensures
        split_on(newline_joined(ls) + t, '\n') == ls + split_on(t, '\n'),
    decreases ls.len(),
{
    if ls.len() == 0 {
        assert(newline_joined(ls) + t =~= t);
        assert(ls + split_on(t, '\n') =~= split_on(t, '\n'));
    } else {
        let l = ls.last();
        let ls2 = ls.drop_last();
        let t2 = l + seq!['\n'] + t;
        assert(newline_joined(ls) + t =~= newline_joined(ls2) + t2);
        assert forall|k: int| 0 <= k < ls2.len() implies free_of(#[trigger] ls2[k], '\n') by {
            assert(ls2[k] == ls[k]);
        }
        lemma_split_lines(ls2, t2);
        lemma_split_join(l, t, '\n');
        assert(free_of(ls[ls.len() - 1], '\n'));
        lemma_split_single(l, '\n');
        assert(ls2 + (seq![l] + split_on(t, '\n')) =~= ls + split_on(t, '\n'));
    }
}

/// The last piece of a split ends as the text does.
pub proof fn lemma_split_last(s: Seq<char>, c: char)
    ensures
        split_on(s, c).len() >= 1,
        split_on(s, c).last().len() > 0 ==> s.len() > 0 && split_on(s, c).last().last() == s.last(),
        s.len() > 0 && s.last() != c ==> split_on(s, c).last().len() > 0,
    decreases s.len(),
{
    lemma_split_nonempty(s, c);
    if s.len() > 0 {
        lemma_split_last(s.drop_last(), c);
    }
}

/// Whether `s` holds a carriage return just before a newline.
pub open spec fn crlf_free(s: Seq<char>) -> bool {
    forall|i: int| 0 <= i && i + 1 < s.len() ==> !(s[i] == '\r' && #[trigger] s[i + 1] == '\n')
}

/// Without a carriage return before a newline, no piece but the last ends with one.
pub proof fn lemma_pieces_keep_cr(s: Seq<char>)
    requires
        crlf_free(s),
    ensures
        forall|k: int| 0 <= k < split_on(s, '\n').len() - 1 ==> strip_cr(#[trigger] split_on(s, '\n')[k]) == split_on(s, '\n')[k],
    decreases s.len(),
{
    lemma_split_nonempty(s, '\n');
    if s.len() > 0 {
        let s2 = s.drop_last();
        assert forall|i: int| 0 <= i && i + 1 < s2.len() implies !(s2[i] == '\r' && #[trigger] s2[i + 1] == '\n') by {
            assert(s[i + 1] == s2[i + 1]);
        }
        lemma_pieces_keep_cr(s2);
        lemma_split_last(s2, '\n');
        let p = split_on(s2, '\n');
        let q = split_on(s, '\n');
        if s.last() == '\n' {
            assert(q == p.push(Seq::<char>::empty()));
            if p.last().len() > 0 {
                assert(s[s.len() - 1] == '\n');
                assert(s[s.len() - 2] == s2.last());
                assert(!(s[s.len() - 2] == '\r' && s[(s.len() - 2) + 1] == '\n'));
            }
            assert forall|k: int| 0 <= k < q.len() - 1 implies strip_cr(#[trigger] q[k]) == q[k] by {
                assert(q[k] == p[k]);
            }
        } else {
            assert forall|k: int| 0 <= k < q.len() - 1 implies strip_cr(#[trigger] q[k]) == q[k] by {
                assert(q[k] == p[k]);
            }
        }
    }
}

/// The pieces of a split, joined with the separator, give the text back.
pub proof fn lemma_join_split(s: Seq<char>)
    ensures
        join_lines(split_on(s, '\n')) == s,
    decreases s.len(),
{
    lemma_split_nonempty(s, '\n');
    if s.len() == 0 {
        assert(s =~= Seq::<char>::empty());
    } else {
        let s2 = s.drop_last();
        lemma_join_split(s2);
        lemma_split_nonempty(s2, '\n');
        let p = split_on(s2, '\n');
        let q = split_on(s, '\n');
        if s.last() == '\n' {
            assert(q.drop_last() =~= p);
            assert(join_lines(q) =~= s);
        } else {
            assert(q.drop_last() =~= p.drop_last());
            assert(s2.push(s.last()) =~= s);
            if p.len() == 1 {
                assert(join_lines(q) =~= s);
            } else {
                assert(join_lines(p) == join_lines(p.drop_last()) + seq!['\n'] + p.last());
                assert(join_lines(q) == join_lines(q.drop_last()) + seq!['\n'] + q.last());
                assert(join_lines(q) =~= s);
            }
        }
    }
}

/// Whether a metadata text reads back unchanged: no carriage return before a newline, and
/// no newline at its end.
pub open spec fn metadata_text_ok(json: Seq<char>) -> bool {
    &&& crlf_free(json)
    &&& (json.len() == 0 || json.last() != '\n')
}

/// The lines of such a metadata text, joined again, give it back.
pub proof fn lemma_metadata_lines(json: Seq<char>)
    requires
        metadata_text_ok(json),
    ensures
        join_lines(lines_of(json)) == json,
{
    let ps = split_on(json, '\n');
    lemma_split_last(json, '\n');
    lemma_pieces_keep_cr(json);
    lemma_join_split(json);
    if json.len() == 0 {
        assert(json =~= Seq::<char>::empty());
        assert(ps == seq![Seq::<char>::empty()]);
        assert(lines_of(json) =~= Seq::<Seq<char>>::empty());
    } else {
        assert(ps.last().len() > 0);
        assert(lines_of(json) =~= ps);
    }
}

// ---------------------------------------------------------------------------------------
// Line ranges

/// Sorting keeps the number of ranges.
pub proof fn lemma_sort_len(rs: Seq<LineRange>)
    ensures
        sort_by_start(rs).len() == rs.len(),
    decreases rs.len(),
{
    if rs.len() > 0 {
        lemma_sort_len(rs.drop_last());
        lemma_place_bound(sort_by_start(rs.drop_last()), rs.last().lo());
    }
}

/// A place is within the list.
proof fn lemma_place_bound(s: Seq<LineRange>, key: int)
    ensures
        place_by_start(s, key) <= s.len(),
    decreases s.len(),
{
    if s.len() > 0 {
        lemma_place_bound(s.drop_first(), key);
    }
}

/// How a range is written: digits, with one dash between two numbers for a span; read
/// back it gives the range.
pub proof fn lemma_range_text(r: LineRange)
    ensures
        range_text(r).len() > 0,
        free_of(range_text(r), ','),
        free_of(range_text(r), '\n'),
        is_digit(range_text(r).last()),
        parse_range_part(range_text(r)) == Some(r),
{
    match r {
        LineRange::Single(l) => {
            let t = decimal(l as nat);
            lemma_decimal(l as nat);
            lemma_parse_decimal(l);
            assert(first_at(t, '-', t.len() as int));
            lemma_find_char_at(t, '-', t.len() as int);
            assert(is_digit(t[t.len() - 1]));
        },
        LineRange::Range(a, b) => {
            let ta = decimal(a as nat);
            let tb = decimal(b as nat);
            lemma_decimal(a as nat);
            lemma_decimal(b as nat);
            lemma_parse_decimal(a);
            lemma_parse_decimal(b);
            let t = ta + seq!['-'] + tb;
            assert(t == range_text(r));
            assert forall|k: int| 0 <= k < ta.len() implies t[k] != '-' by {
                assert(t[k] == ta[k]);
                assert(is_digit(ta[k]));
            }
            assert(first_at(t, '-', ta.len() as int));
            lemma_find_char_at(t, '-', ta.len() as int);
            assert(t.take(ta.len() as int) =~= ta);
            assert(t.skip(ta.len() as int + 1) =~= tb);
            assert(t.last() == tb.last());
            assert(is_digit(tb[tb.len() - 1]));
            assert forall|k: int| 0 <= k < t.len() implies t[k] != ',' && t[k] != '\n' by {
                if k < ta.len() {
                    assert(t[k] == ta[k]);
                    assert(is_digit(ta[k]));
                } else if k > ta.len() {
                    assert(t[k] == tb[k - ta.len() - 1]);
                    assert(is_digit(tb[k - ta.len() - 1]));
                }
            }
        },
    }
}

/// The texts of the ranges, in order.
pub open spec fn range_texts(s: Seq<LineRange>) -> Seq<Seq<char>> {
    s.map_values(|r: LineRange| range_text(r))
}

/// Ranges written with commas split back at the commas into their texts, and the whole
/// ends with a digit.
pub proof fn lemma_join_ranges(s: Seq<LineRange>)
    requires
        s.len() > 0,
    ensures
        split_on(join_ranges(s), ',') == range_texts(s),
        join_ranges(s).len() > 0,
        is_digit(join_ranges(s).last()),
        free_of(join_ranges(s), '\n'),
    decreases s.len(),
{
    lemma_range_text(s.last());
    if s.len() == 1 {
        lemma_split_single(range_text(s[0]), ',');
        assert(range_texts(s) =~= seq![range_text(s[0])]);
    } else {
        let s2 = s.drop_last();
        lemma_join_ranges(s2);
        let a = join_ranges(s2);
        let b = range_text(s.last());
        lemma_split_join(a, b, ',');
        lemma_split_single(b, ',');
        assert(range_texts(s) =~= range_texts(s2) + seq![b]);
        let j = a + seq![','] + b;
        assert(j == join_ranges(s));
        assert(j.last() == b.last());
        assert forall|k: int| 0 <= k < j.len() implies j[k] != '\n' by {
            if k < a.len() {
                assert(j[k] == a[k]);
            } else if k > a.len() {
                assert(j[k] == b[k - a.len() - 1]);
            }
        }
    }
}

/// The texts of ranges read back as those ranges.
pub proof fn lemma_parse_parts(s: Seq<LineRange>)
    ensures
        parse_parts(range_texts(s)) == Some(s),
    decreases s.len(),
{
    if s.len() > 0 {
        let s2 = s.drop_last();
        lemma_parse_parts(s2);
        lemma_range_text(s.last());
        assert(range_texts(s).drop_last() =~= range_texts(s2));
        assert(range_texts(s).last() == range_text(s.last()));
        assert(s2.push(s.last()) =~= s);
    } else {
        assert(range_texts(s) =~= Seq::<Seq<char>>::empty());
        assert(s =~= Seq::<LineRange>::empty());
    }
}

/// A non-empty list of ranges, written, reads back as those ranges sorted by start.
pub proof fn lemma_ranges_read_back(rs: Seq<LineRange>)
    requires
        rs.len() > 0,
    ensures
        parse_ranges_spec(ranges_text(rs)) == Some(sort_by_start(rs)),
        ranges_text(rs).len() > 0,
        is_digit(ranges_text(rs).last()),
        free_of(ranges_text(rs), '\n'),
{
    lemma_sort_len(rs);
    lemma_join_ranges(sort_by_start(rs));
    lemma_parse_parts(sort_by_start(rs));
}

// ---------------------------------------------------------------------------------------
// The attestation section

/// An entry's line, without its newline.
pub open spec fn entry_body(a: AttestationView) -> Seq<char> {
    seq![' ', ' '] + a.hash + seq![' '] + ranges_text(a.line_ranges)
}

/// The lines of the entries `es`.
pub open spec fn entry_lines(es: Seq<AttestationView>) -> Seq<Seq<char>> {
    es.map_values(|e: AttestationView| entry_body(e))
}

/// The lines of a file: its path, then its entries.
pub open spec fn file_lines(f: FileView) -> Seq<Seq<char>> {
    seq![quoted_path(f.file_path)] + entry_lines(f.entries)
}

/// The lines of the attestation section of the files `fs`.
pub open spec fn section_lines(fs: Seq<FileView>) -> Seq<Seq<char>>
    decreases fs.len(),
{
    if fs.len() == 0 {
        Seq::empty()
    } else {
        section_lines(fs.drop_last()) + file_lines(fs.last())
    }
}

/// An entry as it reads back: its ranges sorted by start.
pub open spec fn read_entry(e: AttestationView) -> AttestationView {
    AttestationView { hash: e.hash, line_ranges: sort_by_start(e.line_ranges) }
}

/// A file as it reads back.
pub open spec fn read_file(f: FileView) -> FileView {
    FileView { file_path: f.file_path, entries: f.entries.map_values(|e: AttestationView| read_entry(e)) }
}

/// Files as they read back.
pub open spec fn read_files(fs: Seq<FileView>) -> Seq<FileView> {
    fs.map_values(|f: FileView| read_file(f))
}

/// Whether a path reads back from its line: not empty, no newline, not the divider, and,
/// when it is written without quotes, neither ending in white space nor both starting and
/// ending with a quote.
pub open spec fn path_writable(p: Seq<char>) -> bool {
    &&& p.len() > 0
    &&& free_of(p, '\n')
    &&& p != divider()
    &&& (needs_quoting_spec(p) || (!is_space(p.last()) && !(p[0] == '"' && p.last() == '"')))
}

/// Whether an entry reads back from its line: a hash without spaces or newlines, and at
/// least one range.
pub open spec fn entry_writable(e: AttestationView) -> bool {
    &&& free_of(e.hash, ' ')
    &&& free_of(e.hash, '\n')
    &&& e.line_ranges.len() > 0
}

/// Whether a file reads back: a writable path and at least one entry, all writable.
pub open spec fn file_writable(f: FileView) -> bool {
    &&& path_writable(f.file_path)
    &&& f.entries.len() > 0
    &&& forall|k: int| 0 <= k < f.entries.len() ==> entry_writable(#[trigger] f.entries[k])
}

/// Whether all the files read back.
pub open spec fn files_writable(fs: Seq<FileView>) -> bool {
    forall|k: int| 0 <= k < fs.len() ==> file_writable(#[trigger] fs[k])
}

/// Whether a line survives reading: not empty, not ending in white space, without a newline,
/// neither the divider nor a lone quote.
pub open spec fn good_line(l: Seq<char>) -> bool {
    &&& l.len() > 0
    &&& !is_space(l.last())
    &&& free_of(l, '\n')
    &&& l != divider()
    &&& l != seq!['"']
}

/// A good line is its own trimmed and carriage-return-free form.
proof fn lemma_good_line(l: Seq<char>)
    requires
        good_line(l),
    ensures
        trim_end(l) == l,
        strip_cr(l) == l,
        !lone_quote(l),
{
    assert(trim_end_len(l) == l.len());
    assert(l.take(l.len() as int) =~= l);
}

/// The section's text is its lines, each followed by a newline.
pub proof fn lemma_section_text(fs: Seq<FileView>)
    ensures
        attestation_text(fs) == newline_joined(section_lines(fs)),
    decreases fs.len(),
{
    if fs.len() > 0 {
        lemma_section_text(fs.drop_last());
        let f = fs.last();
        lemma_entries_text(f.entries);
        lemma_newline_joined_concat(section_lines(fs.drop_last()), file_lines(f));
        lemma_newline_joined_concat(seq![quoted_path(f.file_path)], entry_lines(f.entries));
        assert(seq![quoted_path(f.file_path)].drop_last() =~= Seq::<Seq<char>>::empty());
        assert(newline_joined(Seq::<Seq<char>>::empty()) == Seq::<char>::empty());
        assert(newline_joined(seq![quoted_path(f.file_path)]) =~= quoted_path(f.file_path) + seq!['\n']);
        assert(file_text(f) =~= newline_joined(file_lines(f)));
    } else {
        assert(section_lines(fs) =~= Seq::<Seq<char>>::empty());
    }
}

/// The entries' text is their lines, each followed by a newline.
proof fn lemma_entries_text(es: Seq<AttestationView>)
    ensures
        entries_text(es) == newline_joined(entry_lines(es)),
    decreases es.len(),
{
    if es.len() > 0 {
        lemma_entries_text(es.drop_last());
        assert(entry_lines(es).drop_last() =~= entry_lines(es.drop_last()));
        assert(entry_lines(es).last() == entry_body(es.last()));
        assert(entry_line(es.last()) =~= entry_body(es.last()) + seq!['\n']);
        assert(entries_text(es) =~= newline_joined(entry_lines(es)));
    } else {
        assert(entry_lines(es) =~= Seq::<Seq<char>>::empty());
    }
}

/// A writable path's line is a good line.
proof fn lemma_path_line(p: Seq<char>)
    requires
        path_writable(p),
    ensures
        good_line(quoted_path(p)),
{
    let l = quoted_path(p);
    if needs_quoting_spec(p) {
        assert forall|k: int| 0 <= k < l.len() implies l[k] != '\n' by {
            if 0 < k < l.len() - 1 {
                assert(l[k] == p[k - 1]);
            }
        }
        assert(l[0] == '"');
        assert(l.len() >= 3);
    } else {
        if l == seq!['"'] {
            assert(p[0] == '"');
        }
    }
}

/// A writable entry's line is a good line.
proof fn lemma_entry_line(e: AttestationView)
    requires
        entry_writable(e),
    ensures
        good_line(entry_body(e)),
{
    lemma_ranges_read_back(e.line_ranges);
    let t = ranges_text(e.line_ranges);
    let l = entry_body(e);
    assert(l.last() == t.last());
    assert forall|k: int| 0 <= k < l.len() implies l[k] != '\n' by {
        if 2 <= k < 2 + e.hash.len() {
            assert(l[k] == e.hash[k - 2]);
        } else if k > 2 + e.hash.len() {
            assert(l[k] == t[k - 3 - e.hash.len()]);
        }
    }
    assert(l[0] == ' ');
}

/// Every line of the section of writable files is good.
proof fn lemma_section_good(fs: Seq<FileView>)
    requires
        files_writable(fs),
    ensures
        forall|k: int| 0 <= k < section_lines(fs).len() ==> good_line(#[trigger] section_lines(fs)[k]),
    decreases fs.len(),
{
    if fs.len() > 0 {
        let fs2 = fs.drop_last();
        assert forall|k: int| 0 <= k < fs2.len() implies file_writable(#[trigger] fs2[k]) by {
            assert(fs2[k] == fs[k]);
        }
        lemma_section_good(fs2);
        let f = fs.last();
        assert(file_writable(fs[fs.len() - 1]));
        lemma_path_line(f.file_path);
        let a = section_lines(fs2);
        let b = file_lines(f);
        assert forall|k: int| 0 <= k < section_lines(fs).len() implies good_line(#[trigger] section_lines(fs)[k]) by {
            if k < a.len() {
                assert(section_lines(fs)[k] == a[k]);
            } else {
                let j = k - a.len();
                assert(section_lines(fs)[k] == b[j]);
                if j > 0 {
                    assert(b[j] == entry_body(f.entries[j - 1]));
                    assert(entry_writable(f.entries[j - 1]));
                    lemma_entry_line(f.entries[j - 1]);
                }
            }
        }
    }
}

/// The files finished once the section state's current file is closed.
pub open spec fn closed_files(st: SectionState) -> Seq<FileView> {
    match st.current {
        Some(f) => if f.entries.len() > 0 {
            st.done.push(f)
        } else {
            st.done
        },
        None => st.done,
    }
}

/// Reading one more line.
proof fn lemma_steps_push(ls: Seq<Seq<char>>, l: Seq<char>)
    ensures
        section_steps(ls.push(l)) == (match section_steps(ls) {
            Err(e) => Err(e),
            Ok(st) => section_step(st, l),
        }),
{
    assert(ls.push(l).drop_last() =~= ls);
}

/// A path line closes the current file and opens the path's.
proof fn lemma_path_step(st: SectionState, p: Seq<char>)
    requires
        path_writable(p),
    ensures
        section_step(st, quoted_path(p)) == Ok::<SectionState, crate::log_format::FormatErrorView>(
            SectionState { done: closed_files(st), current: Some(FileView { file_path: p, entries: Seq::empty() }) },
        ),
{
    let l = quoted_path(p);
    lemma_path_line(p);
    lemma_good_line(l);
    if needs_quoting_spec(p) {
        assert(l.subrange(1, l.len() - 1) =~= p);
        assert(l[0] == '"');
    } else {
        assert(l[0] == p[0]);
        if p[0] == ' ' {
            assert(crate::log_format::has_char(p, ' '));
        }
    }
    assert(path_of_line(l) == p);
}

/// An entry line adds the entry, its ranges sorted, to the current file.
proof fn lemma_entry_step(st: SectionState, fv: FileView, e: AttestationView)
    requires
        st.current == Some(fv),
        entry_writable(e),
    ensures
        section_step(st, entry_body(e)) == Ok::<SectionState, crate::log_format::FormatErrorView>(
            SectionState {
                done: st.done,
                current: Some(FileView { file_path: fv.file_path, entries: fv.entries.push(read_entry(e)) }),
            },
        ),
{
    let l = entry_body(e);
    let t = ranges_text(e.line_ranges);
    lemma_entry_line(e);
    lemma_good_line(l);
    lemma_ranges_read_back(e.line_ranges);
    let el = l.skip(2);
    assert(el =~= e.hash + seq![' '] + t);
    let h = e.hash.len() as int;
    assert forall|k: int| 0 <= k < h implies el[k] != ' ' by {
        assert(el[k] == e.hash[k]);
    }
    assert(first_at(el, ' ', h));
    lemma_find_char_at(el, ' ', h);
    assert(el.skip(h + 1) =~= t);
    assert(el.take(h) =~= e.hash);
}

/// The entry lines of a file add its entries, in order.
proof fn lemma_entries_steps(base: Seq<Seq<char>>, done: Seq<FileView>, p: Seq<char>, es: Seq<AttestationView>)
    requires
        section_steps(base) == Ok::<SectionState, crate::log_format::FormatErrorView>(
            SectionState { done, current: Some(FileView { file_path: p, entries: Seq::empty() }) },
        ),
        forall|k: int| 0 <= k < es.len() ==> entry_writable(#[trigger] es[k]),
    ensures
        section_steps(base + entry_lines(es)) == Ok::<SectionState, crate::log_format::FormatErrorView>(
            SectionState {
                done,
                current: Some(FileView { file_path: p, entries: es.map_values(|e: AttestationView| read_entry(e)) }),
            },
        ),
    decreases es.len(),
{
    if es.len() == 0 {
        assert(base + entry_lines(es) =~= base);
        assert(es.map_values(|e: AttestationView| read_entry(e)) =~= Seq::<AttestationView>::empty());
    } else {
        let es2 = es.drop_last();
        assert forall|k: int| 0 <= k < es2.len() implies entry_writable(#[trigger] es2[k]) by {
            assert(es2[k] == es[k]);
        }
        lemma_entries_steps(base, done, p, es2);
        let prev = base + entry_lines(es2);
        assert(base + entry_lines(es) =~= prev.push(entry_body(es.last())));
        lemma_steps_push(prev, entry_body(es.last()));
        let fv = FileView { file_path: p, entries: es2.map_values(|e: AttestationView| read_entry(e)) };
        assert(entry_writable(es[es.len() - 1]));
        lemma_entry_step(SectionState { done, current: Some(fv) }, fv, es.last());
        assert(es2.map_values(|e: AttestationView| read_entry(e)).push(read_entry(es.last())) =~= es.map_values(
            |e: AttestationView| read_entry(e),
        ));
    }
}

/// A file's lines close the current file and leave the file, read back, current.
proof fn lemma_file_steps(ls: Seq<Seq<char>>, st: SectionState, f: FileView)
    requires
        section_steps(ls) == Ok::<SectionState, crate::log_format::FormatErrorView>(st),
        file_writable(f),
    ensures
        section_steps(ls + file_lines(f)) == Ok::<SectionState, crate::log_format::FormatErrorView>(
            SectionState { done: closed_files(st), current: Some(read_file(f)) },
        ),
{
    let pl = quoted_path(f.file_path);
    lemma_steps_push(ls, pl);
    lemma_path_step(st, f.file_path);
    assert(ls + file_lines(f) =~= ls.push(pl) + entry_lines(f.entries));
    lemma_entries_steps(ls.push(pl), closed_files(st), f.file_path, f.entries);
}

/// The section of writable files reads back as those files, read back.
proof fn lemma_section_steps(fs: Seq<FileView>)
    requires
        files_writable(fs),
    ensures
        parse_section_spec(section_lines(fs)) == Ok::<Seq<FileView>, crate::log_format::FormatErrorView>(read_files(fs)),
        section_steps(section_lines(fs)) is Ok,
    decreases fs.len(),
{
    if fs.len() == 0 {
        assert(section_lines(fs) =~= Seq::<Seq<char>>::empty());
        assert(read_files(fs) =~= Seq::<FileView>::empty());
    } else {
        let fs2 = fs.drop_last();
        assert forall|k: int| 0 <= k < fs2.len() implies file_writable(#[trigger] fs2[k]) by {
            assert(fs2[k] == fs[k]);
        }
        lemma_section_steps(fs2);
        let st = match section_steps(section_lines(fs2)) {
            Ok(st) => st,
            Err(_) => SectionState { done: Seq::empty(), current: None },
        };
        assert(closed_files(st) == read_files(fs2));
        let f = fs.last();
        assert(file_writable(fs[fs.len() - 1]));
        lemma_file_steps(section_lines(fs2), st, f);
        assert(read_file(f).entries.len() == f.entries.len());
        assert(read_files(fs2).push(read_file(f)) =~= read_files(fs));
    }
}

// ---------------------------------------------------------------------------------------
// The whole text

/// The text of an authorship log with files `fs` and metadata `json`, as
/// `AuthorshipLog::serialize_with_metadata` writes it.
pub open spec fn log_text(fs: Seq<FileView>, json: Seq<char>) -> Seq<char> {
    attestation_text(fs) + divider() + seq!['\n'] + json
}

/// The lines of a log text: the section's lines, the divider, then the metadata's lines.
proof fn lemma_log_lines(fs: Seq<FileView>, json: Seq<char>)
    requires
        files_writable(fs),
    ensures
        lines_of(log_text(fs, json)) == section_lines(fs).push(divider()) + lines_of(json),
{
    let sl = section_lines(fs);
    let ls = sl.push(divider());
    lemma_section_text(fs);
    lemma_section_good(fs);
    assert(ls.drop_last() =~= sl);
    assert(log_text(fs, json) =~= newline_joined(ls) + json);
    assert forall|k: int| 0 <= k < ls.len() implies free_of(#[trigger] ls[k], '\n') by {
        if k < sl.len() {
            assert(ls[k] == sl[k]);
        }
    }
    lemma_split_lines(ls, json);
    let j = split_on(json, '\n');
    lemma_split_nonempty(json, '\n');
    let ps = ls + j;
    assert forall|k: int| 0 <= k < ls.len() implies strip_cr(#[trigger] ls[k]) == ls[k] by {
        if k < sl.len() {
            assert(ls[k] == sl[k]);
            lemma_good_line(sl[k]);
        }
    }
    assert(ps.drop_last() =~= ls + j.drop_last());
    assert(ps.last() == j.last());
    let full = ps.drop_last().map_values(|l: Seq<char>| strip_cr(l));
    let jfull = j.drop_last().map_values(|l: Seq<char>| strip_cr(l));
    assert(full =~= ls + jfull);
    if j.last().len() > 0 {
        assert(lines_of(log_text(fs, json)) =~= ls + jfull.push(j.last()));
    } else {
        assert(lines_of(log_text(fs, json)) =~= ls + jfull);
    }
}

/// Reading back a log text: the text that `AuthorshipLog::serialize_with_metadata` writes
/// for writable files (see `files_writable`) and metadata that keeps its lines (see
/// `metadata_text_ok`) is readable by `parse_authorship_text`, has exactly one first
/// divider, and gives back the files, each entry's ranges sorted by start, and the metadata
/// unchanged.
pub proof fn lemma_text_round_trip(fs: Seq<FileView>, json: Seq<char>)
    requires
        files_writable(fs),
        metadata_text_ok(json),
    ensures
        readable_text(log_text(fs, json)),
        divider_at(lines_of(log_text(fs, json)), section_lines(fs).len() as int),
        forall|d: int| #[trigger]
            divider_at(lines_of(log_text(fs, json)), d) ==> d == section_lines(fs).len() && parse_section_spec(
                lines_of(log_text(fs, json)).take(d),
            ) == Ok::<Seq<FileView>, crate::log_format::FormatErrorView>(read_files(fs)) && join_lines(
                lines_of(log_text(fs, json)).skip(d + 1),
            ) == json,
{
    let sl = section_lines(fs);
    let n = sl.len() as int;
    let lines = lines_of(log_text(fs, json));
    lemma_log_lines(fs, json);
    lemma_section_good(fs);
    lemma_section_steps(fs);
    lemma_metadata_lines(json);
    assert(lines[n] == divider());
    assert forall|k: int| 0 <= k < n implies lines[k] != divider() by {
        assert(lines[k] == sl[k]);
    }
    assert(divider_at(lines, n));
    assert(lines.take(n) =~= sl);
    assert(lines.skip(n + 1) =~= lines_of(json));
    assert forall|d: int| #[trigger] divider_at(lines, d) implies d == n by {
        if d < n {
            assert(lines[d] == sl[d]);
        }
        if d > n {
            assert(lines[n] != divider());
        }
    }
    assert(before_divider(lines) == sl);
    assert forall|k: int| 0 <= k < before_divider(lines).len() implies !lone_quote(#[trigger] before_divider(lines)[k]) by {
        lemma_good_line(sl[k]);
    }
}

/// Formatting line ranges and parsing the text back gives the ranges sorted by start:
/// `parse_line_ranges` of what `format_line_ranges` writes.
pub proof fn lemma_line_ranges_round_trip(rs: Seq<LineRange>)
    ensures
        parse_ranges_spec(ranges_text(rs)) == Some(sort_by_start(rs)),
{
    if rs.len() > 0 {
        lemma_ranges_read_back(rs);
    } else {
        let e = Seq::<char>::empty();
        assert(sort_by_start(rs) =~= Seq::<LineRange>::empty());
        assert(ranges_text(rs) =~= e);
        assert(split_on(e, ',') == seq![e]);
        assert(seq![e].drop_last() =~= Seq::<Seq<char>>::empty());
        assert(parse_parts(Seq::<Seq<char>>::empty()) == Some(Seq::<LineRange>::empty()));
        assert(parse_parts(seq![e]) == Some(Seq::<LineRange>::empty()));
    }
}

} // verus!
