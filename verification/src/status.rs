//! Reading `git status --porcelain=v2 -z` output.

use vstd::prelude::*;
use vstd::string::*;
use vstd::utf8::*;

use crate::text::{from_chars, to_chars};

verus! {

/// The status of a path in the index or the work tree.
#[derive(Debug, Clone, Copy, PartialEq, Eq, Structural)]
pub enum StatusCode {
    Unmodified,
    Modified,
    Added,
    Deleted,
    Renamed,
    Copied,
    Unmerged,
    Untracked,
    Ignored,
    Unknown(char),
}

/// The status code a porcelain status letter stands for.
pub open spec fn status_code_spec(c: char) -> StatusCode {
    if c == '.' {
        StatusCode::Unmodified
    } else if c == 'M' {
        StatusCode::Modified
    } else if c == 'A' {
        StatusCode::Added
    } else if c == 'D' {
        StatusCode::Deleted
    } else if c == 'R' {
        StatusCode::Renamed
    } else if c == 'C' {
        StatusCode::Copied
    } else if c == 'U' {
        StatusCode::Unmerged
    } else if c == '?' {
        StatusCode::Untracked
    } else if c == '!' {
        StatusCode::Ignored
    } else {
        StatusCode::Unknown(c)
    }
}

impl From<char> for StatusCode {
    fn from(value: char) -> (r: StatusCode) {
        match value {
            '.' => StatusCode::Unmodified,
            'M' => StatusCode::Modified,
            'A' => StatusCode::Added,
            'D' => StatusCode::Deleted,
            'R' => StatusCode::Renamed,
            'C' => StatusCode::Copied,
            'U' => StatusCode::Unmerged,
            '?' => StatusCode::Untracked,
            '!' => StatusCode::Ignored,
            other => StatusCode::Unknown(other),
        }
    }
}

impl vstd::std_specs::convert::FromSpecImpl<char> for StatusCode {
    open spec fn obeys_from_spec() -> bool {
        true
    }

    open spec fn from_spec(v: char) -> StatusCode {
        status_code_spec(v)
    }
}

/// What kind of status record an entry came from.
#[derive(Debug, Clone, Copy, PartialEq, Eq, Structural)]
pub enum EntryKind {
    Ordinary,
    Rename,
    Copy,
    Unmerged,
    Untracked,
    Ignored,
}

/// A status entry as plain values.
pub struct StatusEntryView {
    pub path: Seq<char>,
    pub staged: StatusCode,
    pub unstaged: StatusCode,
    pub kind: EntryKind,
    pub orig_path: Option<Seq<char>>,
}

/// One path reported by `git status`.
#[derive(Debug, Clone)]
pub struct StatusEntry {
    pub path: String,
    pub staged: StatusCode,
    pub unstaged: StatusCode,
    pub kind: EntryKind,
    pub orig_path: Option<String>,
}

impl View for StatusEntry {
    type V = StatusEntryView;

    open spec fn view(&self) -> StatusEntryView {
        StatusEntryView {
            path: self.path@,
            staged: self.staged,
            unstaged: self.unstaged,
            kind: self.kind,
            orig_path: crate::transcript::opt_view(self.orig_path),
        }
    }
}

/// The views of a list of status entries.
pub open spec fn status_entries_view(es: Seq<StatusEntry>) -> Seq<StatusEntryView> {
    es.map_values(|e: StatusEntry| e@)
}

/// Why status output could not be read.
#[derive(Debug, Clone, PartialEq, Eq, Structural)]
pub enum StatusError {
    /// A record is not valid UTF-8.
    InvalidUtf8,
    /// A record has no XY field.
    MissingXy,
    /// The XY field is not two bytes long.
    BadXyLength,
    /// A record has no path field.
    MissingPath,
    /// A rename or copy record is not followed by the original path.
    MissingOrigPath,
    /// A record starts with an unknown tag.
    UnsupportedTag(char),
    /// `git status` did not succeed.
    GitFailed,
}

/// The pieces of `s` between the separators `sep` (at least one piece, possibly empty).
pub open spec fn split_bytes(s: Seq<u8>, sep: u8) -> Seq<Seq<u8>>
    decreases s.len(),
{
    if s.len() == 0 {
        seq![Seq::<u8>::empty()]
    } else {
        let p = split_bytes(s.drop_last(), sep);
        if s.last() == sep {
            p.push(Seq::<u8>::empty())
        } else {
            p.update(p.len() - 1, p.last().push(s.last()))
        }
    }
}

/// `split_bytes` never gives an empty list of pieces.
pub proof fn lemma_split_bytes_nonempty(s: Seq<u8>, sep: u8)
    ensures
        split_bytes(s, sep).len() >= 1,
    decreases s.len(),
{
    if s.len() > 0 {
        lemma_split_bytes_nonempty(s.drop_last(), sep);
    }
}

/// The pieces of `s` that are not empty, in order.
pub open spec fn nonempty_only(s: Seq<Seq<u8>>) -> Seq<Seq<u8>>
    decreases s.len(),
{
    if s.len() == 0 {
        s
    } else {
        let p = nonempty_only(s.drop_last());
        if s.last().len() > 0 {
            p.push(s.last())
        } else {
            p
        }
    }
}

/// The records of status output: its NUL-separated pieces that are not empty.
pub open spec fn records_of(data: Seq<u8>) -> Seq<Seq<u8>> {
    nonempty_only(split_bytes(data, 0))
}

/// Number of bytes the UTF-8 encoding of `c` takes.
pub open spec fn utf8_width(c: char) -> nat {
    if (c as u32) < 0x80 {
        1
    } else if (c as u32) < 0x800 {
        2
    } else if (c as u32) < 0x10000 {
        3
    } else {
        4
    }
}

/// Number of bytes the UTF-8 encoding of `s` takes.
pub open spec fn utf8_len(s: Seq<char>) -> nat
    decreases s.len(),
{
    if s.len() == 0 {
        0
    } else {
        utf8_len(s.drop_last()) + utf8_width(s.last())
    }
}

/// `s` split at `c` into at most `n` pieces, the last holding the rest, as `str::splitn`
/// gives it.
pub open spec fn splitn_spec(s: Seq<char>, n: nat, c: char) -> Seq<Seq<char>>
    decreases n,
{
    if n <= 1 {
        seq![s]
    } else {
        let k = crate::log_format::find_char(s, c);
        if k == s.len() {
            seq![s]
        } else {
            seq![s.take(k)] + splitn_spec(s.skip(k + 1), (n - 1) as nat, c)
        }
    }
}

/// `s` without `prefix` when it starts with it.
pub open spec fn strip_prefix_or_self(s: Seq<char>, prefix: Seq<char>) -> Seq<char> {
    if s.len() >= prefix.len() && s.take(prefix.len() as int) == prefix {
        s.skip(prefix.len() as int)
    } else {
        s
    }
}

/// Whether an XY field would be read past its end: two bytes, but one character.
pub open spec fn short_xy(xy: Seq<char>) -> bool {
    utf8_len(xy) == 2 && xy.len() < 2
}

/// The fields of a `1`, `u` or `2` record, split at most `n` times.
pub open spec fn fields_of(record: Seq<u8>, n: nat) -> Seq<Seq<char>> {
    splitn_spec(decode_utf8(record), n, ' ')
}

/// The entry of a `1`, `u` or `2` record with fields `f` (split at most `n` times), or
/// the error it gives. `orig` is the original path of a `2` record.
pub open spec fn tracked_entry(f: Seq<Seq<char>>, n: nat, two: bool, orig: Option<Seq<char>>) -> Result<StatusEntryView, StatusError> {
    if f.len() < 2 {
        Err(StatusError::MissingXy)
    } else if utf8_len(f[1]) != 2 {
        Err(StatusError::BadXyLength)
    } else if f.len() < n {
        Err(StatusError::MissingPath)
    } else {
        let staged = status_code_spec(f[1][0]);
        let unstaged = status_code_spec(f[1][1]);
        Ok(
            StatusEntryView {
                path: f[n - 1],
                staged,
                unstaged,
                kind: if two {
                    if staged == StatusCode::Renamed {
                        EntryKind::Rename
                    } else if staged == StatusCode::Copied {
                        EntryKind::Copy
                    } else {
                        EntryKind::Ordinary
                    }
                } else if staged == StatusCode::Unmerged || unstaged == StatusCode::Unmerged {
                    EntryKind::Unmerged
                } else {
                    EntryKind::Ordinary
                },
                orig_path: orig,
            },
        )
    }
}

/// The entries of the records `rs` from record `i` on, or the first error.
pub open spec fn parse_records(rs: Seq<Seq<u8>>, i: int) -> Result<Seq<StatusEntryView>, StatusError>
    decreases rs.len() - i,
{
    if i < 0 || i >= rs.len() {
        Ok(Seq::empty())
    } else if !valid_utf8(rs[i]) {
        Err(StatusError::InvalidUtf8)
    } else {
        let rec = decode_utf8(rs[i]);
        let tag = rec[0];
        if tag == '1' || tag == 'u' {
            match tracked_entry(fields_of(rs[i], 9), 9, false, None) {
                Err(e) => Err(e),
                Ok(e) => match parse_records(rs, i + 1) {
                    Err(x) => Err(x),
                    Ok(es) => Ok(seq![e] + es),
                },
            }
        } else if tag == '2' {
            let f = fields_of(rs[i], 10);
            match tracked_entry(f, 10, true, None) {
                Err(e) => Err(e),
                Ok(_) => if i + 1 >= rs.len() {
                    Err(StatusError::MissingOrigPath)
                } else if !valid_utf8(rs[i + 1]) {
                    Err(StatusError::InvalidUtf8)
                } else {
                    match tracked_entry(f, 10, true, Some(decode_utf8(rs[i + 1]))) {
                        Err(e) => Err(e),
                        Ok(e) => match parse_records(rs, i + 2) {
                            Err(x) => Err(x),
                            Ok(es) => Ok(seq![e] + es),
                        },
                    }
                },
            }
        } else if tag == '?' || tag == '!' {
            let e = StatusEntryView {
                path: strip_prefix_or_self(rec, seq![tag, ' ']),
                staged: StatusCode::Unmodified,
                unstaged: if tag == '?' {
                    StatusCode::Untracked
                } else {
                    StatusCode::Ignored
                },
                kind: if tag == '?' {
                    EntryKind::Untracked
                } else {
                    EntryKind::Ignored
                },
                orig_path: None,
            };
            match parse_records(rs, i + 1) {
                Err(x) => Err(x),
                Ok(es) => Ok(seq![e] + es),
            }
        } else {
            Err(StatusError::UnsupportedTag(tag))
        }
    }
}

/// Whether reading the records `rs` from record `i` on comes to a short XY field before
/// any error (reading its second character would then fail).
pub open spec fn reaches_short_xy(rs: Seq<Seq<u8>>, i: int) -> bool
    decreases rs.len() - i,
{
    if i < 0 || i >= rs.len() || !valid_utf8(rs[i]) {
        false
    } else {
        let tag = decode_utf8(rs[i])[0];
        if tag == '1' || tag == 'u' {
            let f = fields_of(rs[i], 9);
            if f.len() >= 2 && short_xy(f[1]) {
                true
            } else if tracked_entry(f, 9, false, None) is Err {
                false
            } else {
                reaches_short_xy(rs, i + 1)
            }
        } else if tag == '2' {
            let f = fields_of(rs[i], 10);
            if f.len() >= 2 && short_xy(f[1]) {
                true
            } else if tracked_entry(f, 10, true, None) is Err || i + 1 >= rs.len() || !valid_utf8(rs[i + 1]) {
                false
            } else {
                reaches_short_xy(rs, i + 2)
            }
        } else if tag == '?' || tag == '!' {
            reaches_short_xy(rs, i + 1)
        } else {
            false
        }
    }
}

/// A non-empty valid encoding decodes to at least one character.
proof fn lemma_decode_nonempty(b: Seq<u8>)
    requires
        valid_utf8(b),
        b.len() > 0,
    ensures
        decode_utf8(b).len() > 0,
{
}

/// Each character takes at least one byte.
proof fn lemma_utf8_len_at_least(s: Seq<char>)
    ensures
        utf8_len(s) >= s.len(),
    decreases s.len(),
{
    if s.len() > 0 {
        lemma_utf8_len_at_least(s.drop_last());
    }
}

/// Decodes a UTF-8 record with `std::str::from_utf8`, owning the text.
#[verifier::external_body]
pub(crate) fn decode_record(raw: &[u8]) -> (r: Option<String>)
    ensures
        r is Some <==> valid_utf8(raw@),
        r matches Some(s) ==> s@ == decode_utf8(raw@),
{
    match std::str::from_utf8(raw) {
        Ok(s) => Some(s.to_string()),
        Err(_) => None,
    }
}

/// The byte views of a list of byte vectors.
pub open spec fn bytes_view(v: Seq<Vec<u8>>) -> Seq<Seq<u8>> {
    v.map_values(|x: Vec<u8>| x@)
}

/// The records of status output (see `records_of`).
fn split_records(data: &[u8]) -> (r: Vec<Vec<u8>>)
    ensures
        bytes_view(r@) == records_of(data@),
        forall|k: int| 0 <= k < r@.len() ==> (#[trigger] r@[k])@.len() > 0,
{
    let mut r: Vec<Vec<u8>> = Vec::new();
    let mut part: Vec<u8> = Vec::new();
    let mut i: usize = 0;
    proof {
        assert(data@.take(0) =~= Seq::<u8>::empty());
        assert(split_bytes(data@.take(0), 0).drop_last() =~= Seq::<Seq<u8>>::empty());
        assert(nonempty_only(Seq::<Seq<u8>>::empty()) =~= Seq::<Seq<u8>>::empty());
        assert(bytes_view(r@) =~= Seq::<Seq<u8>>::empty());
    }
    while i < data.len()
        invariant
            i <= data.len(),
            split_bytes(data@.take(i as int), 0).len() >= 1,
            part@ == split_bytes(data@.take(i as int), 0).last(),
            bytes_view(r@) == nonempty_only(split_bytes(data@.take(i as int), 0).drop_last()),
            forall|k: int| 0 <= k < r@.len() ==> (#[trigger] r@[k])@.len() > 0,
        decreases data.len() - i,
    {
        let b = data[i];
        let ghost pre = data@.take(i as int);
        let ghost ps = split_bytes(pre, 0);
        proof {
            let cur = data@.take(i + 1);
            assert(cur.drop_last() =~= pre);
            assert(cur.last() == b);
            lemma_split_bytes_nonempty(cur, 0);
        }
        if b == 0 {
            let mut done: Vec<u8> = Vec::new();
            std::mem::swap(&mut done, &mut part);
            let ghost rv = bytes_view(r@);
            if done.len() > 0 {
                r.push(done);
                proof {
                    assert(bytes_view(r@) =~= rv.push(done@));
                }
            }
            proof {
                let nps = split_bytes(data@.take(i + 1), 0);
                assert(nps.drop_last() =~= ps);
                assert(ps.drop_last().push(ps.last()) =~= ps);
                assert(part@ =~= nps.last());
            }
        } else {
            part.push(b);
            proof {
                let nps = split_bytes(data@.take(i + 1), 0);
                assert(nps.drop_last() =~= ps.drop_last());
            }
        }
        i = i + 1;
    }
    proof {
        assert(data@.take(data@.len() as int) =~= data@);
        let ps = split_bytes(data@, 0);
        assert(ps.drop_last().push(ps.last()) =~= ps);
    }
    if part.len() > 0 {
        let ghost rv = bytes_view(r@);
        r.push(part);
        proof {
            assert(bytes_view(r@) =~= rv.push(part@));
        }
    }
    r
}

/// `s` split at `c` into at most `n` pieces (see `splitn_spec`).
fn splitn_chars(s: &[char], n: usize, c: char) -> (r: Vec<Vec<char>>)
    ensures
        crate::log_format::chars_view(r@) == splitn_spec(s@, n as nat, c),
    decreases n,
{
    let all = crate::log_format::position_of(s, c);
    if n <= 1 || all == s.len() {
        let mut r: Vec<Vec<char>> = Vec::new();
        r.push(copy_chars(s));
        proof {
            assert(crate::log_format::chars_view(r@) =~= seq![s@]);
        }
        return r;
    }
    let head = copy_range(s, 0, all);
    let tail = copy_range(s, all + 1, s.len());
    let rest = splitn_chars(tail.as_slice(), n - 1, c);
    let mut r: Vec<Vec<char>> = Vec::new();
    r.push(head);
    let mut j: usize = 0;
    let ghost hv = head@;
    while j < rest.len()
        invariant
            j <= rest@.len(),
            r@.len() == j + 1,
            crate::log_format::chars_view(r@) == seq![hv] + crate::log_format::chars_view(rest@).take(j as int),
        decreases rest.len() - j,
    {
        let piece = copy_chars(rest[j].as_slice());
        let ghost rv = crate::log_format::chars_view(r@);
        r.push(piece);
        proof {
            assert(crate::log_format::chars_view(r@) =~= rv.push(piece@));
            assert(crate::log_format::chars_view(rest@)[j as int] == rest@[j as int]@);
            assert(crate::log_format::chars_view(r@) =~= seq![hv] + crate::log_format::chars_view(rest@).take(j + 1));
        }
        j = j + 1;
    }
    proof {
        assert(crate::log_format::chars_view(rest@).take(rest@.len() as int) =~= crate::log_format::chars_view(rest@));
        assert(hv =~= s@.take(all as int));
        assert(tail@ =~= s@.skip(all + 1));
    }
    r
}

/// A copy of `s`.
fn copy_chars(s: &[char]) -> (r: Vec<char>)
    ensures
        r@ == s@,
{
    let r = copy_range(s, 0, s.len());
    proof {
        assert(r@ =~= s@);
    }
    r
}

/// A copy of `s[from..to]`.
pub(crate) fn copy_range(s: &[char], from: usize, to: usize) -> (r: Vec<char>)
    requires
        from <= to <= s@.len(),
    ensures
        r@ == s@.subrange(from as int, to as int),
{
    let mut r: Vec<char> = Vec::new();
    let mut i: usize = from;
    while i < to
        invariant
            from <= i <= to,
            to <= s@.len(),
            r@ == s@.subrange(from as int, i as int),
        decreases to - i,
    {
        r.push(s[i]);
        i = i + 1;
    }
    r
}

/// Number of bytes the UTF-8 encoding of `c` takes.
fn char_width(c: char) -> (r: usize)
    ensures
        r == utf8_width(c),
{
    let v = c as u32;
    if v < 0x80 {
        1
    } else if v < 0x800 {
        2
    } else if v < 0x10000 {
        3
    } else {
        4
    }
}

/// Whether the UTF-8 encoding of `s` takes exactly two bytes.
fn two_bytes(s: &[char]) -> (r: bool)
    ensures
        r == (utf8_len(s@) == 2),
{
    proof {
        lemma_utf8_len_at_least(s@);
    }
    if s.len() == 0 || s.len() > 2 {
        return false;
    }
    if s.len() == 1 {
        proof {
            assert(s@.drop_last() =~= Seq::<char>::empty());
            assert(utf8_len(Seq::<char>::empty()) == 0);
            assert(utf8_len(s@) == utf8_width(s@[0]));
        }
        return char_width(s[0]) == 2;
    }
    proof {
        assert(s@.drop_last().drop_last() =~= Seq::<char>::empty());
        assert(utf8_len(Seq::<char>::empty()) == 0);
        assert(s@.drop_last().last() == s@[0]);
        assert(utf8_len(s@.drop_last()) == utf8_width(s@[0]));
        assert(utf8_len(s@) == utf8_width(s@[0]) + utf8_width(s@[1]));
    }
    char_width(s[0]) + char_width(s[1]) == 2
}

/// The entry of a `1`, `u` or `2` record (see `tracked_entry`).
fn read_tracked(f: &Vec<Vec<char>>, n: usize, two: bool, orig: Option<String>) -> (r: Result<StatusEntry, StatusError>)
    requires
        n == 9 || n == 10,
        !(f@.len() >= 2 && short_xy(f@[1]@)),
    ensures
        r matches Ok(e) ==> tracked_entry(crate::log_format::chars_view(f@), n as nat, two, crate::transcript::opt_view(orig)) == Ok::<
            StatusEntryView,
            StatusError,
        >(e@),
        r matches Err(x) ==> tracked_entry(crate::log_format::chars_view(f@), n as nat, two, crate::transcript::opt_view(orig)) == Err::<
            StatusEntryView,
            StatusError,
        >(x),
{
    let ghost fv = crate::log_format::chars_view(f@);
    if f.len() < 2 {
        return Err(StatusError::MissingXy);
    }
    assert(fv[1] == f@[1]@);
    if !two_bytes(f[1].as_slice()) {
        return Err(StatusError::BadXyLength);
    }
    if f.len() < n {
        return Err(StatusError::MissingPath);
    }
    let staged = StatusCode::from(f[1][0]);
    let unstaged = StatusCode::from(f[1][1]);
    let kind = if two {
        if staged == StatusCode::Renamed {
            EntryKind::Rename
        } else if staged == StatusCode::Copied {
            EntryKind::Copy
        } else {
            EntryKind::Ordinary
        }
    } else if staged == StatusCode::Unmerged || unstaged == StatusCode::Unmerged {
        EntryKind::Unmerged
    } else {
        EntryKind::Ordinary
    };
    let path = from_chars(f[n - 1].as_slice());
    assert(fv[n - 1] == f@[n - 1]@);
    Ok(StatusEntry { path, staged, unstaged, kind, orig_path: orig })
}

/// `es` put in front of the entries of `r`, when `r` holds entries.
pub open spec fn prepend(es: Seq<StatusEntryView>, r: Result<Seq<StatusEntryView>, StatusError>) -> Result<
    Seq<StatusEntryView>,
    StatusError,
> {
    match r {
        Ok(rest) => Ok(es + rest),
        Err(x) => Err(x),
    }
}

/// Reads `git status --porcelain=v2 -z` output: NUL-separated records, empty ones
/// skipped; `1` and `u` records for tracked paths, `2` records for renames and copies
/// (followed by a record holding the original path), `?` and `!` records for untracked
/// and ignored paths.
pub fn parse_porcelain_v2(data: &[u8]) -> (r: Result<Vec<StatusEntry>, StatusError>)
    requires
        !reaches_short_xy(records_of(data@), 0),
    ensures
        r matches Ok(es) ==> parse_records(records_of(data@), 0) == Ok::<Seq<StatusEntryView>, StatusError>(
            status_entries_view(es@),
        ),
        r matches Err(x) ==> parse_records(records_of(data@), 0) == Err::<Seq<StatusEntryView>, StatusError>(x),
{
    let recs = split_records(data);
    let ghost rs = records_of(data@);
    let mut entries: Vec<StatusEntry> = Vec::new();
    let mut i: usize = 0;
    proof {
        assert(status_entries_view(entries@) =~= Seq::<StatusEntryView>::empty());
        match parse_records(rs, 0) {
            Ok(all) => {
                assert(Seq::<StatusEntryView>::empty() + all =~= all);
            },
            Err(_) => {},
        }
    }
    while i < recs.len()
        invariant
            rs == records_of(data@),
            bytes_view(recs@) == rs,
            i <= recs@.len(),
            !reaches_short_xy(rs, i as int),
            forall|k: int| 0 <= k < rs.len() ==> (#[trigger] rs[k]).len() > 0,
            parse_records(rs, 0) == prepend(status_entries_view(entries@), parse_records(rs, i as int)),
        decreases recs.len() - i,
    {
        let ghost b = rs[i as int];
        assert(recs@[i as int]@ == b);
        let ghost ev = status_entries_view(entries@);
        let text = match decode_record(recs[i].as_slice()) {
            Some(t) => t,
            None => {
                proof {
                    assert(parse_records(rs, i as int) == Err::<Seq<StatusEntryView>, StatusError>(StatusError::InvalidUtf8));
                    assert(prepend(ev, parse_records(rs, i as int)) == Err::<Seq<StatusEntryView>, StatusError>(StatusError::InvalidUtf8));
                    assert(parse_records(rs, 0) == Err::<Seq<StatusEntryView>, StatusError>(StatusError::InvalidUtf8));
                }
                return Err(StatusError::InvalidUtf8);
            },
        };
        let cs = to_chars(text.as_str());
        proof {
            lemma_decode_nonempty(b);
        }
        let tag = cs[0];
        if tag == '1' || tag == 'u' {
            let f = splitn_chars(cs.as_slice(), 9, ' ');
            match read_tracked(&f, 9, false, None) {
                Err(x) => {
                    return Err(x);
                },
                Ok(e) => {
                    entries.push(e);
                    proof {
                        assert(status_entries_view(entries@) =~= ev.push(e@));
                        match parse_records(rs, i + 1) {
                            Ok(rest) => {
                                assert(ev + (seq![e@] + rest) =~= ev.push(e@) + rest);
                            },
                            Err(_) => {},
                        }
                    }
                    i = i + 1;
                },
            }
        } else if tag == '2' {
            let f = splitn_chars(cs.as_slice(), 10, ' ');
            match read_tracked(&f, 10, true, None) {
                Err(x) => {
                    return Err(x);
                },
                Ok(_) => {},
            }
            if i + 1 >= recs.len() {
                return Err(StatusError::MissingOrigPath);
            }
            assert(recs@[i + 1]@ == rs[i + 1]);
            let orig = match decode_record(recs[i + 1].as_slice()) {
                Some(t) => t,
                None => {
                    proof {
                        assert(parse_records(rs, i as int) == Err::<Seq<StatusEntryView>, StatusError>(StatusError::InvalidUtf8));
                    }
                    return Err(StatusError::InvalidUtf8);
                },
            };
            match read_tracked(&f, 10, true, Some(orig)) {
                Err(x) => {
                    return Err(x);
                },
                Ok(e) => {
                    entries.push(e);
                    proof {
                        assert(status_entries_view(entries@) =~= ev.push(e@));
                        match parse_records(rs, i + 2) {
                            Ok(rest) => {
                                assert(ev + (seq![e@] + rest) =~= ev.push(e@) + rest);
                            },
                            Err(_) => {},
                        }
                    }
                    i = i + 2;
                },
            }
        } else if tag == '?' || tag == '!' {
            let path_chars = if cs.len() >= 2 && cs[0] == tag && cs[1] == ' ' {
                copy_range(cs.as_slice(), 2, cs.len())
            } else {
                copy_chars(cs.as_slice())
            };
            proof {
                let rec = decode_utf8(b);
                if cs@.len() >= 2 && cs@[0] == tag && cs@[1] == ' ' {
                    assert(rec.take(2) =~= seq![tag, ' ']);
                    assert(path_chars@ =~= rec.skip(2));
                } else {
                    if rec.len() >= 2 && rec.take(2) == seq![tag, ' '] {
                        assert(rec.take(2)[1] == rec[1]);
                    }
                }
                assert(path_chars@ == strip_prefix_or_self(rec, seq![tag, ' ']));
            }
            let e = StatusEntry {
                path: from_chars(path_chars.as_slice()),
                staged: StatusCode::Unmodified,
                unstaged: if tag == '?' {
                    StatusCode::Untracked
                } else {
                    StatusCode::Ignored
                },
                kind: if tag == '?' {
                    EntryKind::Untracked
                } else {
                    EntryKind::Ignored
                },
                orig_path: None,
            };
            entries.push(e);
            proof {
                assert(status_entries_view(entries@) =~= ev.push(e@));
                match parse_records(rs, i + 1) {
                    Ok(rest) => {
                        assert(ev + (seq![e@] + rest) =~= ev.push(e@) + rest);
                    },
                    Err(_) => {},
                }
            }
            i = i + 1;
        } else {
            proof {
                assert(tag == decode_utf8(b)[0]);
                assert(parse_records(rs, i as int) == Err::<Seq<StatusEntryView>, StatusError>(StatusError::UnsupportedTag(tag)));
            }
            return Err(StatusError::UnsupportedTag(tag));
        }
    }
    proof {
        assert(status_entries_view(entries@) + Seq::<StatusEntryView>::empty() =~= status_entries_view(entries@));
    }
    Ok(entries)
}

/// Whether reading `git status --porcelain=v2 -z` output comes, before it stops, to a
/// tracked record whose XY field is two bytes that are not two characters: the one input
/// that `parse_porcelain_v2` cannot read (see `reaches_short_xy`).
pub fn reaches_short_xy_field(data: &[u8]) -> (r: bool)
    ensures
        r == reaches_short_xy(records_of(data@), 0),
{
    let recs = split_records(data);
    let ghost rs = records_of(data@);
    let mut i: usize = 0;
    while i < recs.len()
        invariant
            rs == records_of(data@),
            bytes_view(recs@) == rs,
            i <= recs@.len(),
            reaches_short_xy(rs, 0) == reaches_short_xy(rs, i as int),
            forall|k: int| 0 <= k < rs.len() ==> (#[trigger] rs[k]).len() > 0,
        decreases recs.len() - i,
    {
        let ghost b = rs[i as int];
        assert(recs@[i as int]@ == b);
        let text = match decode_record(recs[i].as_slice()) {
            Some(t) => t,
            None => {
                return false;
            },
        };
        let cs = to_chars(text.as_str());
        proof {
            lemma_decode_nonempty(b);
        }
        let tag = cs[0];
        if tag == '1' || tag == 'u' {
            let f = splitn_chars(cs.as_slice(), 9, ' ');
            if f.len() >= 2 {
                assert(crate::log_format::chars_view(f@)[1] == f@[1]@);
                if two_bytes(f[1].as_slice()) && f[1].len() < 2 {
                    return true;
                }
            }
            match read_tracked(&f, 9, false, None) {
                Err(_) => {
                    return false;
                },
                Ok(_) => {},
            }
            i = i + 1;
        } else if tag == '2' {
            let f = splitn_chars(cs.as_slice(), 10, ' ');
            if f.len() >= 2 {
                assert(crate::log_format::chars_view(f@)[1] == f@[1]@);
                if two_bytes(f[1].as_slice()) && f[1].len() < 2 {
                    return true;
                }
            }
            match read_tracked(&f, 10, true, None) {
                Err(_) => {
                    return false;
                },
                Ok(_) => {},
            }
            if i + 1 >= recs.len() {
                return false;
            }
            assert(recs@[i + 1]@ == rs[i + 1]);
            match decode_record(recs[i + 1].as_slice()) {
                Some(_) => {},
                None => {
                    return false;
                },
            }
            i = i + 2;
        } else if tag == '?' || tag == '!' {
            i = i + 1;
        } else {
            return false;
        }
    }
    false
}

/// The entries of a `git status --porcelain=v2 -z` run (see `status_args` for its
/// arguments): an error when git did not succeed, else its output read as
/// `parse_porcelain_v2` reads it.
pub fn status(succeeded: bool, stdout: &[u8]) -> (r: Result<Vec<StatusEntry>, StatusError>)
    requires
        succeeded ==> !reaches_short_xy(records_of(stdout@), 0),
    ensures
        !succeeded ==> r == Err::<Vec<StatusEntry>, StatusError>(StatusError::GitFailed),
        succeeded ==> (r matches Ok(es) ==> parse_records(records_of(stdout@), 0) == Ok::<Seq<StatusEntryView>, StatusError>(
            status_entries_view(es@),
        )),
        succeeded ==> (r matches Err(x) ==> parse_records(records_of(stdout@), 0) == Err::<Seq<StatusEntryView>, StatusError>(x)),
{
    if !succeeded {
        return Err(StatusError::GitFailed);
    }
    parse_porcelain_v2(stdout)
}

/// Whether a checkpoint looks at a status entry: not ignored, not unmerged, and changed in
/// the index or the work tree, or untracked.
pub open spec fn is_checkpoint_candidate(e: StatusEntryView) -> bool {
    &&& e.kind != EntryKind::Ignored
    &&& e.kind != EntryKind::Unmerged
    &&& (e.staged != StatusCode::Unmodified || e.unstaged != StatusCode::Unmodified || e.kind == EntryKind::Untracked)
}

/// Whether an entry was deleted in the index or the work tree.
pub open spec fn is_deleted_entry(e: StatusEntryView) -> bool {
    e.staged == StatusCode::Deleted || e.unstaged == StatusCode::Deleted
}

/// The candidates of a list of entries, each with whether it was deleted, in order.
pub open spec fn checkpoint_candidates_spec(es: Seq<StatusEntryView>) -> Seq<(Seq<char>, bool)>
    decreases es.len(),
{
    if es.len() == 0 {
        Seq::empty()
    } else {
        let p = checkpoint_candidates_spec(es.drop_last());
        let e = es.last();
        if is_checkpoint_candidate(e) {
            p.push((e.path, is_deleted_entry(e)))
        } else {
            p
        }
    }
}

/// The paths among the status entries that a checkpoint looks at (see
/// `is_checkpoint_candidate`), in order, each with whether it was deleted, which decides
/// whether its text is looked for in `HEAD` or in the work tree.
pub fn checkpoint_candidates(entries: &[StatusEntry]) -> (r: Vec<(String, bool)>)
    ensures
        r@.map_values(|c: (String, bool)| (c.0@, c.1)) == checkpoint_candidates_spec(
            entries@.map_values(|e: StatusEntry| e@),
        ),
{
    let ghost ev = entries@.map_values(|e: StatusEntry| e@);
    let mut r: Vec<(String, bool)> = Vec::new();
    let mut i: usize = 0;
    proof {
        assert(ev.take(0) =~= Seq::<StatusEntryView>::empty());
        assert(r@.map_values(|c: (String, bool)| (c.0@, c.1)) =~= Seq::<(Seq<char>, bool)>::empty());
    }
    while i < entries.len()
        invariant
            i <= entries.len(),
            ev == entries@.map_values(|e: StatusEntry| e@),
            r@.map_values(|c: (String, bool)| (c.0@, c.1)) == checkpoint_candidates_spec(ev.take(i as int)),
        decreases entries.len() - i,
    {
        let e = &entries[i];
        proof {
            assert(ev.take(i + 1).drop_last() =~= ev.take(i as int));
            assert(ev.take(i + 1).last() == e@);
        }
        let candidate = e.kind != EntryKind::Ignored && e.kind != EntryKind::Unmerged && (e.staged
            != StatusCode::Unmodified || e.unstaged != StatusCode::Unmodified || e.kind == EntryKind::Untracked);
        if candidate {
            let deleted = e.staged == StatusCode::Deleted || e.unstaged == StatusCode::Deleted;
            let ghost prev = r@;
            r.push((e.path.clone(), deleted));
            proof {
                assert(r@.map_values(|c: (String, bool)| (c.0@, c.1)) =~= prev.map_values(
                    |c: (String, bool)| (c.0@, c.1),
                ).push((e@.path, deleted)));
            }
        }
        i = i + 1;
    }
    proof {
        assert(ev.take(ev.len() as int) =~= ev);
    }
    r
}

/// Whether file content counts as text: it holds no zero byte.
pub fn is_text_content(content: &[u8]) -> (r: bool)
    ensures
        r == !content@.contains(0u8),
{
    let mut i: usize = 0;
    while i < content.len()
        invariant
            i <= content.len(),
            forall|k: int| 0 <= k < i ==> content@[k] != 0u8,
        decreases content.len() - i,
    {
        if content[i] == 0u8 {
            proof {
                assert(content@[i as int] == 0u8);
            }
            return false;
        }
        i = i + 1;
    }
    true
}

} // verus!
