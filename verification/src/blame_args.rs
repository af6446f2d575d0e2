//! Options of `git-ai blame` and the parsing of its command line.

use vstd::prelude::*;
use vstd::string::*;

use crate::log_format::{find_char, position_of};
use crate::text::{parse_u32, parse_u32_spec, str_eq, to_chars};

verus! {

/// The options of a blame, as plain values.
pub struct BlameOptionsView {
    pub line_ranges: Seq<(u32, u32)>,
    pub newest_commit: Option<Seq<char>>,
    pub porcelain: bool,
    pub line_porcelain: bool,
    pub incremental: bool,
    pub show_name: bool,
    pub show_number: bool,
    pub show_email: bool,
    pub suppress_author: bool,
    pub show_stats: bool,
    pub long_rev: bool,
    pub raw_timestamp: bool,
    pub abbrev: Option<u32>,
    pub blank_boundary: bool,
    pub show_root: bool,
    pub detect_moves: bool,
    pub detect_copies: u32,
    pub move_threshold: Option<u32>,
    pub ignore_revs: Seq<Seq<char>>,
    pub ignore_revs_file: Option<Seq<char>>,
    pub color_lines: bool,
    pub color_by_age: bool,
    pub progress: bool,
    pub date_format: Option<Seq<char>>,
    pub contents_file: Option<Seq<char>>,
    pub reverse: Option<Seq<char>>,
    pub first_parent: bool,
    pub encoding: Option<Seq<char>>,
    pub use_prompt_hashes_as_names: bool,
    pub return_human_authors_as_human: bool,
    pub no_output: bool,
}

/// The options of a blame.
#[derive(Debug, Clone)]
pub struct GitAiBlameOptions {
    pub line_ranges: Vec<(u32, u32)>,
    pub newest_commit: Option<String>,
    pub porcelain: bool,
    pub line_porcelain: bool,
    pub incremental: bool,
    pub show_name: bool,
    pub show_number: bool,
    pub show_email: bool,
    pub suppress_author: bool,
    pub show_stats: bool,
    pub long_rev: bool,
    pub raw_timestamp: bool,
    pub abbrev: Option<u32>,
    pub blank_boundary: bool,
    pub show_root: bool,
    pub detect_moves: bool,
    /// Number of `-C` flags, at most 3.
    pub detect_copies: u32,
    pub move_threshold: Option<u32>,
    pub ignore_revs: Vec<String>,
    pub ignore_revs_file: Option<String>,
    pub color_lines: bool,
    pub color_by_age: bool,
    pub progress: bool,
    pub date_format: Option<String>,
    pub contents_file: Option<String>,
    pub reverse: Option<String>,
    pub first_parent: bool,
    pub encoding: Option<String>,
    /// Use prompt hashes as names instead of author names.
    pub use_prompt_hashes_as_names: bool,
    /// Report every human author as a human checkpoint kind.
    pub return_human_authors_as_human: bool,
    /// Print nothing.
    pub no_output: bool,
}

/// The views of a list of strings.
pub open spec fn strings_view(v: Seq<String>) -> Seq<Seq<char>> {
    v.map_values(|s: String| s@)
}

impl View for GitAiBlameOptions {
    type V = BlameOptionsView;

    open spec fn view(&self) -> BlameOptionsView {
        BlameOptionsView {
            line_ranges: self.line_ranges@,
            newest_commit: crate::transcript::opt_view(self.newest_commit),
            porcelain: self.porcelain,
            line_porcelain: self.line_porcelain,
            incremental: self.incremental,
            show_name: self.show_name,
            show_number: self.show_number,
            show_email: self.show_email,
            suppress_author: self.suppress_author,
            show_stats: self.show_stats,
            long_rev: self.long_rev,
            raw_timestamp: self.raw_timestamp,
            abbrev: self.abbrev,
            blank_boundary: self.blank_boundary,
            show_root: self.show_root,
            detect_moves: self.detect_moves,
            detect_copies: self.detect_copies,
            move_threshold: self.move_threshold,
            ignore_revs: strings_view(self.ignore_revs@),
            ignore_revs_file: crate::transcript::opt_view(self.ignore_revs_file),
            color_lines: self.color_lines,
            color_by_age: self.color_by_age,
            progress: self.progress,
            date_format: crate::transcript::opt_view(self.date_format),
            contents_file: crate::transcript::opt_view(self.contents_file),
            reverse: crate::transcript::opt_view(self.reverse),
            first_parent: self.first_parent,
            encoding: crate::transcript::opt_view(self.encoding),
            use_prompt_hashes_as_names: self.use_prompt_hashes_as_names,
            return_human_authors_as_human: self.return_human_authors_as_human,
            no_output: self.no_output,
        }
    }
}

/// The default options: nothing set, no ranges, no revisions to ignore.
pub open spec fn default_blame_options() -> BlameOptionsView {
    BlameOptionsView {
        line_ranges: Seq::empty(),
        newest_commit: None,
        porcelain: false,
        line_porcelain: false,
        incremental: false,
        show_name: false,
        show_number: false,
        show_email: false,
        suppress_author: false,
        show_stats: false,
        long_rev: false,
        raw_timestamp: false,
        abbrev: None,
        blank_boundary: false,
        show_root: false,
        detect_moves: false,
        detect_copies: 0,
        move_threshold: None,
        ignore_revs: Seq::empty(),
        ignore_revs_file: None,
        color_lines: false,
        color_by_age: false,
        progress: false,
        date_format: None,
        contents_file: None,
        reverse: None,
        first_parent: false,
        encoding: None,
        use_prompt_hashes_as_names: false,
        return_human_authors_as_human: false,
        no_output: false,
    }
}

impl Default for GitAiBlameOptions {
    fn default() -> (o: GitAiBlameOptions)
        ensures
            o@ == default_blame_options(),
    {
        let o = GitAiBlameOptions {
            line_ranges: Vec::new(),
            newest_commit: None,
            porcelain: false,
            line_porcelain: false,
            incremental: false,
            show_name: false,
            show_number: false,
            show_email: false,
            suppress_author: false,
            show_stats: false,
            long_rev: false,
            raw_timestamp: false,
            abbrev: None,
            blank_boundary: false,
            show_root: false,
            detect_moves: false,
            detect_copies: 0,
            move_threshold: None,
            ignore_revs: Vec::new(),
            ignore_revs_file: None,
            color_lines: false,
            color_by_age: false,
            progress: false,
            date_format: None,
            contents_file: None,
            reverse: None,
            first_parent: false,
            encoding: None,
            use_prompt_hashes_as_names: false,
            return_human_authors_as_human: false,
            no_output: false,
        };
        proof {
            assert(o@.line_ranges =~= Seq::<(u32, u32)>::empty());
            assert(o@.ignore_revs =~= Seq::<Seq<char>>::empty());
        }
        o
    }
}

/// Why a blame command line was refused.
#[derive(Debug, Clone)]
pub enum BlameArgsError {
    /// The option given needs a value and is last.
    MissingArgument(String),
    /// The value of `-L` (given) is not `n` or `start,end`.
    InvalidLineRange(String),
    /// The value of `--abbrev` is not a number.
    InvalidAbbrev,
    /// More than one argument is not an option.
    MultipleFilePaths,
    /// The argument given starts with `-` and is no known option.
    UnknownOption(String),
    /// No argument names the file.
    NoFilePath,
}

/// A blame argument error as plain values.
pub enum BlameArgsErrorView {
    MissingArgument(Seq<char>),
    InvalidLineRange(Seq<char>),
    InvalidAbbrev,
    MultipleFilePaths,
    UnknownOption(Seq<char>),
    NoFilePath,
}

impl View for BlameArgsError {
    type V = BlameArgsErrorView;

    open spec fn view(&self) -> BlameArgsErrorView {
        match self {
            BlameArgsError::MissingArgument(s) => BlameArgsErrorView::MissingArgument(s@),
            BlameArgsError::InvalidLineRange(s) => BlameArgsErrorView::InvalidLineRange(s@),
            BlameArgsError::InvalidAbbrev => BlameArgsErrorView::InvalidAbbrev,
            BlameArgsError::MultipleFilePaths => BlameArgsErrorView::MultipleFilePaths,
            BlameArgsError::UnknownOption(s) => BlameArgsErrorView::UnknownOption(s@),
            BlameArgsError::NoFilePath => BlameArgsErrorView::NoFilePath,
        }
    }
}

/// The lines a `-L` value stands for: `start,end` (split at the first comma), or a single
/// line `n` as `n,n`.
pub open spec fn line_range_spec(s: Seq<char>) -> Option<(u32, u32)> {
    let k = find_char(s, ',');
    if k < s.len() {
        match (parse_u32_spec(s.take(k)), parse_u32_spec(s.skip(k + 1))) {
            (Some(a), Some(b)) => Some((a, b)),
            _ => None,
        }
    } else {
        match parse_u32_spec(s) {
            Some(l) => Some((l, l)),
            None => None,
        }
    }
}

/// Parses a `-L` value: `start,end`, or a single line.
pub fn parse_line_range(range_str: &str) -> (r: Option<(u32, u32)>)
    ensures
        r == line_range_spec(range_str@),
{
    let cs = to_chars(range_str);
    let k = position_of(cs.as_slice(), ',');
    if k < cs.len() {
        let mut a: Vec<char> = Vec::new();
        let mut i: usize = 0;
        while i < k
            invariant
                k < cs@.len(),
                i <= k,
                a@ == cs@.take(i as int),
            decreases k - i,
        {
            a.push(cs[i]);
            i = i + 1;
        }
        let mut b: Vec<char> = Vec::new();
        let mut j: usize = k + 1;
        while j < cs.len()
            invariant
                k < cs@.len(),
                k + 1 <= j <= cs@.len(),
                b@ == cs@.subrange(k + 1, j as int),
            decreases cs.len() - j,
        {
            b.push(cs[j]);
            j = j + 1;
        }
        proof {
            assert(b@ =~= cs@.skip(k + 1));
        }
        match (parse_u32(a.as_slice()), parse_u32(b.as_slice())) {
            (Some(x), Some(y)) => Some((x, y)),
            _ => None,
        }
    } else {
        match parse_u32(cs.as_slice()) {
            Some(l) => Some((l, l)),
            None => None,
        }
    }
}

/// The state of reading a blame command line: the options so far and the file path, if
/// one was given.
pub struct BlameParse {
    pub options: BlameOptionsView,
    pub file: Option<Seq<char>>,
}

/// Whether `a` starts with a dash.
pub open spec fn is_flag(a: Seq<char>) -> bool {
    a.len() > 0 && a[0] == '-'
}

/// The value that follows an option at position `i`, when there is one.
pub open spec fn value_after(args: Seq<Seq<char>>, i: int) -> Option<Seq<char>> {
    if i + 1 < args.len() {
        Some(args[i + 1])
    } else {
        None
    }
}

/// Which flag that takes no value (other than `-M` and `-C`) `a` is, numbered in the
/// order below, or -1 when it is none.
pub open spec fn flag_code(a: Seq<char>) -> int {
    if a == "--porcelain"@ {
        0
    } else if a == "--line-porcelain"@ {
        1
    } else if a == "--incremental"@ {
        2
    } else if a == "-f"@ || a == "--show-name"@ {
        3
    } else if a == "-n"@ || a == "--show-number"@ {
        4
    } else if a == "-e"@ || a == "--show-email"@ {
        5
    } else if a == "-s"@ {
        6
    } else if a == "--show-stats"@ {
        7
    } else if a == "-l"@ {
        8
    } else if a == "-t"@ {
        9
    } else if a == "-b"@ {
        10
    } else if a == "--root"@ {
        11
    } else if a == "--color-lines"@ {
        12
    } else if a == "--color-by-age"@ {
        13
    } else if a == "--progress"@ {
        14
    } else if a == "--first-parent"@ {
        15
    } else {
        -1
    }
}

/// The options after the flag numbered `code` (see `flag_code`): that flag set, and
/// `--line-porcelain` setting `--porcelain` too.
pub open spec fn set_flag(o: BlameOptionsView, code: int) -> BlameOptionsView {
    BlameOptionsView {
        porcelain: o.porcelain || code == 0 || code == 1,
        line_porcelain: o.line_porcelain || code == 1,
        incremental: o.incremental || code == 2,
        show_name: o.show_name || code == 3,
        show_number: o.show_number || code == 4,
        show_email: o.show_email || code == 5,
        suppress_author: o.suppress_author || code == 6,
        show_stats: o.show_stats || code == 7,
        long_rev: o.long_rev || code == 8,
        raw_timestamp: o.raw_timestamp || code == 9,
        blank_boundary: o.blank_boundary || code == 10,
        show_root: o.show_root || code == 11,
        color_lines: o.color_lines || code == 12,
        color_by_age: o.color_by_age || code == 13,
        progress: o.progress || code == 14,
        first_parent: o.first_parent || code == 15,
        ..o
    }
}

/// Which option that needs a value `a` is, numbered in the order below, or -1 when it is
/// none.
pub open spec fn value_code(a: Seq<char>) -> int {
    if a == "-L"@ {
        0
    } else if a == "--abbrev"@ {
        1
    } else if a == "--ignore-rev"@ {
        2
    } else if a == "--ignore-revs-file"@ {
        3
    } else if a == "--date"@ {
        4
    } else if a == "--contents"@ {
        5
    } else if a == "--reverse"@ {
        6
    } else if a == "--encoding"@ {
        7
    } else {
        -1
    }
}

/// The error that the option numbered `code` (see `value_code`) gives for value `v`, if any:
/// `-L` and `--abbrev` need numbers.
pub open spec fn valued_error(code: int, v: Seq<char>) -> Option<BlameArgsErrorView> {
    if code == 0 && line_range_spec(v) is None {
        Some(BlameArgsErrorView::InvalidLineRange(v))
    } else if code == 1 && parse_u32_spec(v) is None {
        Some(BlameArgsErrorView::InvalidAbbrev)
    } else {
        None
    }
}

/// The options after the option numbered `code` with value `v`, when it gives no error.
pub open spec fn valued_option(o: BlameOptionsView, code: int, v: Seq<char>) -> BlameOptionsView {
    BlameOptionsView {
        line_ranges: if code == 0 {
            o.line_ranges.push(line_range_spec(v).unwrap())
        } else {
            o.line_ranges
        },
        abbrev: if code == 1 {
            parse_u32_spec(v)
        } else {
            o.abbrev
        },
        ignore_revs: if code == 2 {
            o.ignore_revs.push(v)
        } else {
            o.ignore_revs
        },
        ignore_revs_file: if code == 3 {
            Some(v)
        } else {
            o.ignore_revs_file
        },
        date_format: if code == 4 {
            Some(v)
        } else {
            o.date_format
        },
        contents_file: if code == 5 {
            Some(v)
        } else {
            o.contents_file
        },
        reverse: if code == 6 {
            Some(v)
        } else {
            o.reverse
        },
        encoding: if code == 7 {
            Some(v)
        } else {
            o.encoding
        },
        ..o
    }
}

/// The number of `-C` flags after one more, counted up to 3.
pub open spec fn next_copies_spec(dc: u32) -> u32 {
    if dc < 2 {
        (dc + 1) as u32
    } else {
        3
    }
}

/// The options after `-C`.
#[verifier::opaque]
pub open spec fn copies_flag(o: BlameOptionsView) -> BlameOptionsView {
    BlameOptionsView { detect_copies: next_copies_spec(o.detect_copies), ..o }
}

/// The options after `-M`.
#[verifier::opaque]
pub open spec fn moves_flag(o: BlameOptionsView) -> BlameOptionsView {
    BlameOptionsView { detect_moves: true, ..o }
}

/// The options after `-M` or `-C` (`copies`), before any threshold.
pub open spec fn move_flag(o: BlameOptionsView, copies: bool) -> BlameOptionsView {
    if copies {
        copies_flag(o)
    } else {
        moves_flag(o)
    }
}

/// The step for an option that needs a value (see `value_code`).
#[verifier::opaque]
pub open spec fn valued_step(st: BlameParse, args: Seq<Seq<char>>, i: int) -> Result<(BlameParse, int), BlameArgsErrorView> {
    let a = args[i];
    match value_after(args, i) {
        None => Err(BlameArgsErrorView::MissingArgument(a)),
        Some(v) => match valued_error(value_code(a), v) {
            None => Ok((BlameParse { options: valued_option(st.options, value_code(a), v), file: st.file }, i + 2)),
            Some(e) => Err(e),
        },
    }
}

/// The step for a flag that takes no value (see `flag_code`).
#[verifier::opaque]
pub open spec fn flag_step(st: BlameParse, args: Seq<Seq<char>>, i: int) -> Result<(BlameParse, int), BlameArgsErrorView> {
    Ok((BlameParse { options: set_flag(st.options, flag_code(args[i])), file: st.file }, i + 1))
}

/// The step for `-M` or `-C`: a following number is taken as the threshold.
#[verifier::opaque]
pub open spec fn move_step(st: BlameParse, args: Seq<Seq<char>>, i: int) -> Result<(BlameParse, int), BlameArgsErrorView> {
    let o2 = move_flag(st.options, args[i] == "-C"@);
    match value_after(args, i) {
        Some(v) => match parse_u32_spec(v) {
            Some(t) => Ok((BlameParse { options: BlameOptionsView { move_threshold: Some(t), ..o2 }, file: st.file }, i + 2)),
            None => Ok((BlameParse { options: o2, file: st.file }, i + 1)),
        },
        None => Ok((BlameParse { options: o2, file: st.file }, i + 1)),
    }
}

/// The step for any other argument: a file path (only one is allowed) unless it starts
/// with a dash.
#[verifier::opaque]
pub open spec fn path_step(st: BlameParse, args: Seq<Seq<char>>, i: int) -> Result<(BlameParse, int), BlameArgsErrorView> {
    let a = args[i];
    if !is_flag(a) {
        if st.file is None {
            Ok((BlameParse { options: st.options, file: Some(a) }, i + 1))
        } else {
            Err(BlameArgsErrorView::MultipleFilePaths)
        }
    } else {
        Err(BlameArgsErrorView::UnknownOption(a))
    }
}

/// One step of reading a blame command line at argument `i`: the new state and the
/// position of the next argument, or the error. Options are tried before file paths.
pub open spec fn blame_step(st: BlameParse, args: Seq<Seq<char>>, i: int) -> Result<(BlameParse, int), BlameArgsErrorView> {
    let a = args[i];
    if value_code(a) >= 0 {
        valued_step(st, args, i)
    } else if flag_code(a) >= 0 {
        flag_step(st, args, i)
    } else if a == "-M"@ || a == "-C"@ {
        move_step(st, args, i)
    } else {
        path_step(st, args, i)
    }
}

/// Reading a blame command line from argument `i` on.
pub open spec fn blame_steps(st: BlameParse, args: Seq<Seq<char>>, i: int) -> Result<BlameParse, BlameArgsErrorView>
    decreases args.len() - i,
{
    if i < 0 || i >= args.len() {
        Ok(st)
    } else {
        match blame_step(st, args, i) {
            Err(e) => Err(e),
            Ok((st2, j)) => if i < j <= args.len() {
                blame_steps(st2, args, j)
            } else {
                Ok(st2)
            },
        }
    }
}

/// What a blame command line gives: the file path and the options, or the error.
pub open spec fn blame_args_spec(args: Seq<Seq<char>>) -> Result<(Seq<char>, BlameOptionsView), BlameArgsErrorView> {
    match blame_steps(BlameParse { options: default_blame_options(), file: None }, args, 0) {
        Err(e) => Err(e),
        Ok(st) => match st.file {
            Some(f) => Ok((f, st.options)),
            None => Err(BlameArgsErrorView::NoFilePath),
        },
    }
}

/// The string argument at `i + 1`, if there is one.
fn value_at(args: &[String], i: usize) -> (r: Option<String>)
    requires
        i < args@.len(),
    ensures
        crate::transcript::opt_view(r) == value_after(strings_view(args@), i as int),
{
    if args.len() - i > 1 {
        Some(args[i + 1].clone())
    } else {
        None
    }
}

/// Which flag that takes no value `a` is (see `flag_code`).
fn flag_code_of(a: &str) -> (r: i32)
    ensures
        r == flag_code(a@),
{
    if str_eq(a, "--porcelain") {
        0
    } else if str_eq(a, "--line-porcelain") {
        1
    } else if str_eq(a, "--incremental") {
        2
    } else if str_eq(a, "-f") || str_eq(a, "--show-name") {
        3
    } else if str_eq(a, "-n") || str_eq(a, "--show-number") {
        4
    } else if str_eq(a, "-e") || str_eq(a, "--show-email") {
        5
    } else if str_eq(a, "-s") {
        6
    } else if str_eq(a, "--show-stats") {
        7
    } else if str_eq(a, "-l") {
        8
    } else if str_eq(a, "-t") {
        9
    } else if str_eq(a, "-b") {
        10
    } else if str_eq(a, "--root") {
        11
    } else if str_eq(a, "--color-lines") {
        12
    } else if str_eq(a, "--color-by-age") {
        13
    } else if str_eq(a, "--progress") {
        14
    } else if str_eq(a, "--first-parent") {
        15
    } else {
        -1
    }
}

/// The options with flag 0 (`porcelain`) set.
fn flag_porcelain(o: GitAiBlameOptions) -> (r: GitAiBlameOptions)
    ensures
        r@ == set_flag(o@, 0),
{
    let mut o = o;
    o.porcelain = true;
    o
}

/// The options with flag 1 (`line_porcelain`) set.
fn flag_line_porcelain(o: GitAiBlameOptions) -> (r: GitAiBlameOptions)
    ensures
        r@ == set_flag(o@, 1),
{
    let mut o = o;
    o.line_porcelain = true;
    o.porcelain = true;
    o
}

/// The options with flag 2 (`incremental`) set.
fn flag_incremental(o: GitAiBlameOptions) -> (r: GitAiBlameOptions)
    ensures
        r@ == set_flag(o@, 2),
{
    let mut o = o;
    o.incremental = true;
    o
}

/// The options with flag 3 (`show_name`) set.
fn flag_show_name(o: GitAiBlameOptions) -> (r: GitAiBlameOptions)
    ensures
        r@ == set_flag(o@, 3),
{
    let mut o = o;
    o.show_name = true;
    o
}

/// The options with flag 4 (`show_number`) set.
fn flag_show_number(o: GitAiBlameOptions) -> (r: GitAiBlameOptions)
    ensures
        r@ == set_flag(o@, 4),
{
    let mut o = o;
    o.show_number = true;
    o
}

/// The options with flag 5 (`show_email`) set.
fn flag_show_email(o: GitAiBlameOptions) -> (r: GitAiBlameOptions)
    ensures
        r@ == set_flag(o@, 5),
{
    let mut o = o;
    o.show_email = true;
    o
}

/// The options with flag 6 (`suppress_author`) set.
fn flag_suppress_author(o: GitAiBlameOptions) -> (r: GitAiBlameOptions)
    ensures
        r@ == set_flag(o@, 6),
{
    let mut o = o;
    o.suppress_author = true;
    o
}

/// The options with flag 7 (`show_stats`) set.
fn flag_show_stats(o: GitAiBlameOptions) -> (r: GitAiBlameOptions)
    ensures
        r@ == set_flag(o@, 7),
{
    let mut o = o;
    o.show_stats = true;
    o
}

/// The options with flag 8 (`long_rev`) set.
fn flag_long_rev(o: GitAiBlameOptions) -> (r: GitAiBlameOptions)
    ensures
        r@ == set_flag(o@, 8),
{
    let mut o = o;
    o.long_rev = true;
    o
}

/// The options with flag 9 (`raw_timestamp`) set.
fn flag_raw_timestamp(o: GitAiBlameOptions) -> (r: GitAiBlameOptions)
    ensures
        r@ == set_flag(o@, 9),
{
    let mut o = o;
    o.raw_timestamp = true;
    o
}

/// The options with flag 10 (`blank_boundary`) set.
fn flag_blank_boundary(o: GitAiBlameOptions) -> (r: GitAiBlameOptions)
    ensures
        r@ == set_flag(o@, 10),
{
    let mut o = o;
    o.blank_boundary = true;
    o
}

/// The options with flag 11 (`show_root`) set.
fn flag_show_root(o: GitAiBlameOptions) -> (r: GitAiBlameOptions)
    ensures
        r@ == set_flag(o@, 11),
{
    let mut o = o;
    o.show_root = true;
    o
}

/// The options with flag 12 (`color_lines`) set.
fn flag_color_lines(o: GitAiBlameOptions) -> (r: GitAiBlameOptions)
    ensures
        r@ == set_flag(o@, 12),
{
    let mut o = o;
    o.color_lines = true;
    o
}

/// The options with flag 13 (`color_by_age`) set.
fn flag_color_by_age(o: GitAiBlameOptions) -> (r: GitAiBlameOptions)
    ensures
        r@ == set_flag(o@, 13),
{
    let mut o = o;
    o.color_by_age = true;
    o
}

/// The options with flag 14 (`progress`) set.
fn flag_progress(o: GitAiBlameOptions) -> (r: GitAiBlameOptions)
    ensures
        r@ == set_flag(o@, 14),
{
    let mut o = o;
    o.progress = true;
    o
}

/// The options with flag 15 (`first_parent`) set.
fn flag_first_parent(o: GitAiBlameOptions) -> (r: GitAiBlameOptions)
    ensures
        r@ == set_flag(o@, 15),
{
    let mut o = o;
    o.first_parent = true;
    o
}

/// The options with the flag numbered `code` set (see `set_flag`).
fn with_flag(o: GitAiBlameOptions, code: i32) -> (r: GitAiBlameOptions)
    requires
        0 <= code <= 15,
    ensures
        r@ == set_flag(o@, code as int),
{
    if code == 0 {
        return flag_porcelain(o);
    }
    if code == 1 {
        return flag_line_porcelain(o);
    }
    if code == 2 {
        return flag_incremental(o);
    }
    if code == 3 {
        return flag_show_name(o);
    }
    if code == 4 {
        return flag_show_number(o);
    }
    if code == 5 {
        return flag_show_email(o);
    }
    if code == 6 {
        return flag_suppress_author(o);
    }
    if code == 7 {
        return flag_show_stats(o);
    }
    if code == 8 {
        return flag_long_rev(o);
    }
    if code == 9 {
        return flag_raw_timestamp(o);
    }
    if code == 10 {
        return flag_blank_boundary(o);
    }
    if code == 11 {
        return flag_show_root(o);
    }
    if code == 12 {
        return flag_color_lines(o);
    }
    if code == 13 {
        return flag_color_by_age(o);
    }
    if code == 14 {
        return flag_progress(o);
    }
    flag_first_parent(o)
}

/// Which option that needs a value `a` is (see `value_code`).
fn value_code_of(a: &str) -> (r: i32)
    ensures
        r == value_code(a@),
{
    if str_eq(a, "-L") {
        0
    } else if str_eq(a, "--abbrev") {
        1
    } else if str_eq(a, "--ignore-rev") {
        2
    } else if str_eq(a, "--ignore-revs-file") {
        3
    } else if str_eq(a, "--date") {
        4
    } else if str_eq(a, "--contents") {
        5
    } else if str_eq(a, "--reverse") {
        6
    } else if str_eq(a, "--encoding") {
        7
    } else {
        -1
    }
}

/// The options with line range `r` added.
fn with_line_range(o: GitAiBlameOptions, r: (u32, u32)) -> (o2: GitAiBlameOptions)
    ensures
        o2@ == (BlameOptionsView { line_ranges: o@.line_ranges.push(r), ..o@ }),
{
    let mut o = o;
    o.line_ranges.push(r);
    o
}

/// The options with abbreviation length `n`.
fn with_abbrev(o: GitAiBlameOptions, n: u32) -> (o2: GitAiBlameOptions)
    ensures
        o2@ == (BlameOptionsView { abbrev: Some(n), ..o@ }),
{
    let mut o = o;
    o.abbrev = Some(n);
    o
}

/// The options after `-L` with value `v`, or the error.
fn option_line_range(o: GitAiBlameOptions, v: String) -> (r: Result<GitAiBlameOptions, BlameArgsError>)
    ensures
        r matches Ok(o2) ==> valued_error(0, v@) is None && o2@ == valued_option(o@, 0, v@),
        r matches Err(x) ==> valued_error(0, v@) == Some(x@),
{
    match parse_line_range(v.as_str()) {
        Some(r) => Ok(with_line_range(o, r)),
        None => Err(BlameArgsError::InvalidLineRange(v)),
    }
}

/// The options after `--abbrev` with value `v`, or the error.
fn option_abbrev(o: GitAiBlameOptions, v: String) -> (r: Result<GitAiBlameOptions, BlameArgsError>)
    ensures
        r matches Ok(o2) ==> valued_error(1, v@) is None && o2@ == valued_option(o@, 1, v@),
        r matches Err(x) ==> valued_error(1, v@) == Some(x@),
{
    let cs = to_chars(v.as_str());
    match parse_u32(cs.as_slice()) {
        Some(n) => Ok(with_abbrev(o, n)),
        None => Err(BlameArgsError::InvalidAbbrev),
    }
}

/// The options after `--ignore-rev` with value `v`.
fn option_ignore_rev(o: GitAiBlameOptions, v: String) -> (r: GitAiBlameOptions)
    ensures
        r@ == valued_option(o@, 2, v@),
{
    let mut o = o;
    let ghost before = o.ignore_revs@;
    let ghost vv = v@;
    o.ignore_revs.push(v);
    proof {
        assert(strings_view(o.ignore_revs@) =~= strings_view(before).push(vv));
    }
    o
}

/// The options after `--ignore-revs-file` with value `v`.
fn option_ignore_revs_file(o: GitAiBlameOptions, v: String) -> (r: GitAiBlameOptions)
    ensures
        r@ == valued_option(o@, 3, v@),
{
    let mut o = o;
    o.ignore_revs_file = Some(v);
    o
}

/// The options after `--date` with value `v`.
fn option_date(o: GitAiBlameOptions, v: String) -> (r: GitAiBlameOptions)
    ensures
        r@ == valued_option(o@, 4, v@),
{
    let mut o = o;
    o.date_format = Some(v);
    o
}

/// The options after `--contents` with value `v`.
fn option_contents(o: GitAiBlameOptions, v: String) -> (r: GitAiBlameOptions)
    ensures
        r@ == valued_option(o@, 5, v@),
{
    let mut o = o;
    o.contents_file = Some(v);
    o
}

/// The options after `--reverse` with value `v`.
fn option_reverse(o: GitAiBlameOptions, v: String) -> (r: GitAiBlameOptions)
    ensures
        r@ == valued_option(o@, 6, v@),
{
    let mut o = o;
    o.reverse = Some(v);
    o
}

/// The options after `--encoding` with value `v`.
fn option_encoding(o: GitAiBlameOptions, v: String) -> (r: GitAiBlameOptions)
    ensures
        r@ == valued_option(o@, 7, v@),
{
    let mut o = o;
    o.encoding = Some(v);
    o
}

/// The options after the option numbered `code` with value `v` (see `valued_option` and
/// `valued_error`), or the error.
fn with_valued_option(o: GitAiBlameOptions, code: i32, v: String) -> (r: Result<GitAiBlameOptions, BlameArgsError>)
    requires
        0 <= code <= 7,
    ensures
        r matches Ok(o2) ==> valued_error(code as int, v@) is None && o2@ == valued_option(o@, code as int, v@),
        r matches Err(x) ==> valued_error(code as int, v@) == Some(x@),
{
    if code == 0 {
        return option_line_range(o, v);
    }
    if code == 1 {
        return option_abbrev(o, v);
    }
    if code == 2 {
        return Ok(option_ignore_rev(o, v));
    }
    if code == 3 {
        return Ok(option_ignore_revs_file(o, v));
    }
    if code == 4 {
        return Ok(option_date(o, v));
    }
    if code == 5 {
        return Ok(option_contents(o, v));
    }
    if code == 6 {
        return Ok(option_reverse(o, v));
    }
    Ok(option_encoding(o, v))
}

/// The number of `-C` flags after one more, counted up to 3.
fn next_copies(dc: u32) -> (r: u32)
    ensures
        r == next_copies_spec(dc),
{
    if dc < 2 {
        dc + 1
    } else {
        3
    }
}

/// The options after `-C`.
fn with_copies(o: GitAiBlameOptions) -> (r: GitAiBlameOptions)
    ensures
        r@ == copies_flag(o@),
{
    proof {
        reveal(copies_flag);
    }
    let dc = next_copies(o.detect_copies);
    let mut o = o;
    o.detect_copies = dc;
    o
}

/// The options after `-M`.
fn with_moves(o: GitAiBlameOptions) -> (r: GitAiBlameOptions)
    ensures
        r@ == moves_flag(o@),
{
    proof {
        reveal(moves_flag);
    }
    let mut o = o;
    o.detect_moves = true;
    o
}

/// The options after `-M` or `-C` (`copies`), before any threshold.
fn with_move_flag(o: GitAiBlameOptions, copies: bool) -> (r: GitAiBlameOptions)
    ensures
        r@ == move_flag(o@, copies),
{
    if copies {
        with_copies(o)
    } else {
        with_moves(o)
    }
}

/// The options with move threshold `t`.
fn with_threshold(o: GitAiBlameOptions, t: u32) -> (r: GitAiBlameOptions)
    ensures
        r@ == (BlameOptionsView { move_threshold: Some(t), ..o@ }),
{
    let mut o = o;
    o.move_threshold = Some(t);
    o
}

/// The step for an option that needs a value (see `valued_step`).
fn exec_valued(o: GitAiBlameOptions, file: Option<String>, args: &[String], i: usize, vc: i32) -> (r: Result<
    (GitAiBlameOptions, Option<String>, usize),
    BlameArgsError,
>)
    requires
        i < args@.len(),
        0 <= vc <= 7,
        vc == value_code(strings_view(args@)[i as int]),
    ensures
        r matches Ok((o2, f2, j)) ==> valued_step(
            BlameParse { options: o@, file: crate::transcript::opt_view(file) },
            strings_view(args@),
            i as int,
        ) == Ok::<(BlameParse, int), BlameArgsErrorView>(
            (BlameParse { options: o2@, file: crate::transcript::opt_view(f2) }, j as int),
        ),
        r matches Ok((o2, f2, j)) ==> i < j <= args@.len(),
        r matches Err(x) ==> valued_step(
            BlameParse { options: o@, file: crate::transcript::opt_view(file) },
            strings_view(args@),
            i as int,
        ) == Err::<(BlameParse, int), BlameArgsErrorView>(x@),
{
    proof {
        reveal(valued_step);
    }
    assert(strings_view(args@)[i as int] == args@[i as int]@);
    assert(strings_view(args@).len() == args@.len());
    let n = args.len();
    assert(i < n);
    match value_at(args, i) {
        None => Err(BlameArgsError::MissingArgument(args[i].clone())),
        Some(v) => match with_valued_option(o, vc, v) {
            Ok(o2) => Ok((o2, file, i + 2)),
            Err(e) => Err(e),
        },
    }
}

/// The step for a flag that takes no value (see `flag_step`).
fn exec_flag(o: GitAiBlameOptions, file: Option<String>, args: &[String], i: usize, fc: i32) -> (r: (GitAiBlameOptions, Option<String>, usize))
    requires
        i < args@.len(),
        0 <= fc <= 15,
        fc == flag_code(strings_view(args@)[i as int]),
    ensures
        flag_step(BlameParse { options: o@, file: crate::transcript::opt_view(file) }, strings_view(args@), i as int) == Ok::<
            (BlameParse, int),
            BlameArgsErrorView,
        >((BlameParse { options: r.0@, file: crate::transcript::opt_view(r.1) }, r.2 as int)),
        i < r.2 <= args@.len(),
{
    proof {
        reveal(flag_step);
    }
    let n = args.len();
    assert(i < n);
    (with_flag(o, fc), file, i + 1)
}

/// The step for `-M` or `-C` (see `move_step`).
fn exec_move(o: GitAiBlameOptions, file: Option<String>, args: &[String], i: usize) -> (r: (GitAiBlameOptions, Option<String>, usize))
    requires
        i < args@.len(),
    ensures
        move_step(BlameParse { options: o@, file: crate::transcript::opt_view(file) }, strings_view(args@), i as int) == Ok::<
            (BlameParse, int),
            BlameArgsErrorView,
        >((BlameParse { options: r.0@, file: crate::transcript::opt_view(r.1) }, r.2 as int)),
        i < r.2 <= args@.len(),
{
    proof {
        reveal(move_step);
    }
    assert(strings_view(args@)[i as int] == args@[i as int]@);
    assert(strings_view(args@).len() == args@.len());
    let n = args.len();
    assert(i < n);
    let o2 = with_move_flag(o, str_eq(args[i].as_str(), "-C"));
    match value_at(args, i) {
        Some(v) => {
            let cs = to_chars(v.as_str());
            match parse_u32(cs.as_slice()) {
                Some(t) => (with_threshold(o2, t), file, i + 2),
                None => (o2, file, i + 1),
            }
        },
        None => (o2, file, i + 1),
    }
}

/// The step for any other argument (see `path_step`).
fn exec_path(o: GitAiBlameOptions, file: Option<String>, args: &[String], i: usize) -> (r: Result<
    (GitAiBlameOptions, Option<String>, usize),
    BlameArgsError,
>)
    requires
        i < args@.len(),
    ensures
        r matches Ok((o2, f2, j)) ==> path_step(
            BlameParse { options: o@, file: crate::transcript::opt_view(file) },
            strings_view(args@),
            i as int,
        ) == Ok::<(BlameParse, int), BlameArgsErrorView>(
            (BlameParse { options: o2@, file: crate::transcript::opt_view(f2) }, j as int),
        ),
        r matches Ok((o2, f2, j)) ==> i < j <= args@.len(),
        r matches Err(x) ==> path_step(
            BlameParse { options: o@, file: crate::transcript::opt_view(file) },
            strings_view(args@),
            i as int,
        ) == Err::<(BlameParse, int), BlameArgsErrorView>(x@),
{
    proof {
        reveal(path_step);
    }
    let n = args.len();
    assert(i < n);
    let a = args[i].as_str();
    assert(strings_view(args@)[i as int] == a@);
    if !(a.unicode_len() > 0 && a.get_char(0) == '-') {
        if file.is_none() {
            Ok((o, Some(args[i].clone()), i + 1))
        } else {
            Err(BlameArgsError::MultipleFilePaths)
        }
    } else {
        Err(BlameArgsError::UnknownOption(args[i].clone()))
    }
}

/// One step of reading a blame command line (see `blame_step`): the new options, file
/// path and position.
fn blame_step_exec(o: GitAiBlameOptions, file: Option<String>, args: &[String], i: usize) -> (r: Result<
    (GitAiBlameOptions, Option<String>, usize),
    BlameArgsError,
>)
    requires
        i < args@.len(),
    ensures
        r matches Ok((o2, f2, j)) ==> blame_step(
            BlameParse { options: o@, file: crate::transcript::opt_view(file) },
            strings_view(args@),
            i as int,
        ) == Ok::<(BlameParse, int), BlameArgsErrorView>(
            (BlameParse { options: o2@, file: crate::transcript::opt_view(f2) }, j as int),
        ),
        r matches Ok((o2, f2, j)) ==> i < j <= args@.len(),
        r matches Err(x) ==> blame_step(
            BlameParse { options: o@, file: crate::transcript::opt_view(file) },
            strings_view(args@),
            i as int,
        ) == Err::<(BlameParse, int), BlameArgsErrorView>(x@),
{
    let a = args[i].as_str();
    assert(strings_view(args@)[i as int] == a@);
    let vc = value_code_of(a);
    if vc >= 0 {
        return exec_valued(o, file, args, i, vc);
    }
    let fc = flag_code_of(a);
    if fc >= 0 {
        return Ok(exec_flag(o, file, args, i, fc));
    }
    if str_eq(a, "-M") || str_eq(a, "-C") {
        return Ok(exec_move(o, file, args, i));
    }
    exec_path(o, file, args, i)
}

/// Reads the command line of `git-ai blame`: options (see `blame_step`) and exactly one
/// file path.
pub fn parse_blame_args(args: &[String]) -> (r: Result<(String, GitAiBlameOptions), BlameArgsError>)
    ensures
        r matches Ok((f, o)) ==> blame_args_spec(strings_view(args@)) == Ok::<(Seq<char>, BlameOptionsView), BlameArgsErrorView>(
            (f@, o@),
        ),
        r matches Err(x) ==> blame_args_spec(strings_view(args@)) == Err::<(Seq<char>, BlameOptionsView), BlameArgsErrorView>(
            x@,
        ),
{
    let mut options = GitAiBlameOptions::default();
    let mut file_path: Option<String> = None;
    let mut i: usize = 0;
    let ghost av = strings_view(args@);
    let ghost start = BlameParse { options: default_blame_options(), file: None };
    while i < args.len()
        invariant
            av == strings_view(args@),
            start == (BlameParse { options: default_blame_options(), file: None }),
            i <= args@.len(),
            blame_steps(start, av, 0) == blame_steps(
                BlameParse { options: options@, file: crate::transcript::opt_view(file_path) },
                av,
                i as int,
            ),
        decreases args.len() - i,
    {
        match blame_step_exec(options, file_path, args, i) {
            Ok((o2, f2, j)) => {
                options = o2;
                file_path = f2;
                i = j;
            },
            Err(e) => {
                return Err(e);
            },
        }
    }
    match file_path {
        Some(f) => Ok((f, options)),
        None => Err(BlameArgsError::NoFilePath),
    }
}

} // verus!
