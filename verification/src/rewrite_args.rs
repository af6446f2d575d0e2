//! The command lines of `git-ai cherry-pick-authorship`, `git-ai rebase-authorship` and
//! `git-ai amend-authorship`.

use vstd::prelude::*;
use vstd::string::*;

use crate::blame_args::strings_view;
use crate::text::str_eq;

verus! {

/// Why a rewrite command line was refused.
#[derive(Debug, Clone, PartialEq, Eq)]
pub enum RewriteArgsError {
    /// An argument (given) starts with `--` and is no known flag.
    UnknownFlag(String),
    /// An argument (given) has no place to go.
    UnexpectedArgument(String),
    /// The rebase command line names no original head.
    MissingOriginalHead,
    /// No commit follows `--source-commits` (cherry-pick) or `--original-commits` (rebase).
    MissingSourceCommits,
    /// No commit follows `--new-commits`.
    MissingNewCommits,
    /// The amend command line names no old commit.
    MissingOldSha,
    /// The amend command line names no new commit.
    MissingNewSha,
}

/// A rewrite argument error as plain values.
pub enum RewriteErrorView {
    UnknownFlag(Seq<char>),
    UnexpectedArgument(Seq<char>),
    MissingOriginalHead,
    MissingSourceCommits,
    MissingNewCommits,
    MissingOldSha,
    MissingNewSha,
}

impl View for RewriteArgsError {
    type V = RewriteErrorView;

    open spec fn view(&self) -> RewriteErrorView {
        match self {
            RewriteArgsError::UnknownFlag(a) => RewriteErrorView::UnknownFlag(a@),
            RewriteArgsError::UnexpectedArgument(a) => RewriteErrorView::UnexpectedArgument(a@),
            RewriteArgsError::MissingOriginalHead => RewriteErrorView::MissingOriginalHead,
            RewriteArgsError::MissingSourceCommits => RewriteErrorView::MissingSourceCommits,
            RewriteArgsError::MissingNewCommits => RewriteErrorView::MissingNewCommits,
            RewriteArgsError::MissingOldSha => RewriteErrorView::MissingOldSha,
            RewriteArgsError::MissingNewSha => RewriteErrorView::MissingNewSha,
        }
    }
}

/// Whether an argument starts with two dashes.
pub open spec fn is_long_flag(a: Seq<char>) -> bool {
    a.len() >= 2 && a[0] == '-' && a[1] == '-'
}

/// The state of reading a commit-list command line: which list the next commit goes to,
/// the dry-run flag, an optional leading positional argument, and the two lists.
pub struct ListParse {
    pub in_first: bool,
    pub in_second: bool,
    pub dry_run: bool,
    pub head: Option<Seq<char>>,
    pub first: Seq<Seq<char>>,
    pub second: Seq<Seq<char>>,
}

/// Reading a commit-list command line from argument `i` on. `first_flag` opens the first
/// list and `second_flag` the second; `--dry-run` sets the flag; another argument starting
/// with `--` is refused; any other argument goes to the open list, else (where
/// `takes_head`) to the head if there is none yet, else it is refused.
pub open spec fn list_steps(
    st: ListParse,
    args: Seq<Seq<char>>,
    i: int,
    first_flag: Seq<char>,
    second_flag: Seq<char>,
    takes_head: bool,
) -> Result<ListParse, RewriteErrorView>
    decreases args.len() - i,
{
    if i < 0 || i >= args.len() {
        Ok(st)
    } else {
        let a = args[i];
        if a == first_flag {
            list_steps(ListParse { in_first: true, in_second: false, ..st }, args, i + 1, first_flag, second_flag, takes_head)
        } else if a == second_flag {
            list_steps(ListParse { in_first: false, in_second: true, ..st }, args, i + 1, first_flag, second_flag, takes_head)
        } else if a == "--dry-run"@ {
            list_steps(ListParse { dry_run: true, ..st }, args, i + 1, first_flag, second_flag, takes_head)
        } else if is_long_flag(a) {
            Err(RewriteErrorView::UnknownFlag(a))
        } else if st.in_first {
            list_steps(ListParse { first: st.first.push(a), ..st }, args, i + 1, first_flag, second_flag, takes_head)
        } else if st.in_second {
            list_steps(ListParse { second: st.second.push(a), ..st }, args, i + 1, first_flag, second_flag, takes_head)
        } else if takes_head && st.head is None {
            list_steps(ListParse { head: Some(a), ..st }, args, i + 1, first_flag, second_flag, takes_head)
        } else {
            Err(RewriteErrorView::UnexpectedArgument(a))
        }
    }
}

/// The state before the first argument.
pub open spec fn list_start() -> ListParse {
    ListParse { in_first: false, in_second: false, dry_run: false, head: None, first: seq![], second: seq![] }
}

/// A cherry-pick rewrite request.
#[derive(Debug, Clone)]
pub struct CherryPickArgs {
    pub source_commits: Vec<String>,
    pub new_commits: Vec<String>,
    pub dry_run: bool,
}

/// A rebase rewrite request.
#[derive(Debug, Clone)]
pub struct RebaseArgs {
    pub original_head: String,
    pub original_commits: Vec<String>,
    pub new_commits: Vec<String>,
    pub dry_run: bool,
}

/// An amend rewrite request.
#[derive(Debug, Clone)]
pub struct AmendArgs {
    pub old_sha: String,
    pub new_sha: String,
    pub dry_run: bool,
}

/// What a cherry-pick command line gives: source commits, new commits and the dry-run flag,
/// or the error.
pub open spec fn cherry_pick_spec(args: Seq<Seq<char>>) -> Result<(Seq<Seq<char>>, Seq<Seq<char>>, bool), RewriteErrorView> {
    match list_steps(list_start(), args, 0, "--source-commits"@, "--new-commits"@, false) {
        Err(e) => Err(e),
        Ok(st) => if st.first.len() == 0 {
            Err(RewriteErrorView::MissingSourceCommits)
        } else if st.second.len() == 0 {
            Err(RewriteErrorView::MissingNewCommits)
        } else {
            Ok((st.first, st.second, st.dry_run))
        },
    }
}

/// What a rebase command line gives: original head, original commits, new commits and the
/// dry-run flag, or the error.
pub open spec fn rebase_spec(args: Seq<Seq<char>>) -> Result<(Seq<char>, Seq<Seq<char>>, Seq<Seq<char>>, bool), RewriteErrorView> {
    match list_steps(list_start(), args, 0, "--original-commits"@, "--new-commits"@, true) {
        Err(e) => Err(e),
        Ok(st) => match st.head {
            None => Err(RewriteErrorView::MissingOriginalHead),
            Some(h) => if st.first.len() == 0 {
                Err(RewriteErrorView::MissingSourceCommits)
            } else if st.second.len() == 0 {
                Err(RewriteErrorView::MissingNewCommits)
            } else {
                Ok((h, st.first, st.second, st.dry_run))
            },
        },
    }
}

/// The state of reading an amend command line: the dry-run flag and the positional
/// arguments so far.
pub struct AmendParse {
    pub dry_run: bool,
    pub old_sha: Option<Seq<char>>,
    pub new_sha: Option<Seq<char>>,
}

/// Reading an amend command line from argument `i` on: `--dry-run` sets the flag, another
/// argument starting with `--` is refused, the first two others are the old and the new
/// commit, and a third is refused.
pub open spec fn amend_steps(st: AmendParse, args: Seq<Seq<char>>, i: int) -> Result<AmendParse, RewriteErrorView>
    decreases args.len() - i,
{
    if i < 0 || i >= args.len() {
        Ok(st)
    } else {
        let a = args[i];
        if a == "--dry-run"@ {
            amend_steps(AmendParse { dry_run: true, ..st }, args, i + 1)
        } else if is_long_flag(a) {
            Err(RewriteErrorView::UnknownFlag(a))
        } else if st.old_sha is None {
            amend_steps(AmendParse { old_sha: Some(a), ..st }, args, i + 1)
        } else if st.new_sha is None {
            amend_steps(AmendParse { new_sha: Some(a), ..st }, args, i + 1)
        } else {
            Err(RewriteErrorView::UnexpectedArgument(a))
        }
    }
}

/// What an amend command line gives: old commit, new commit and the dry-run flag, or the
/// error.
pub open spec fn amend_spec(args: Seq<Seq<char>>) -> Result<(Seq<char>, Seq<char>, bool), RewriteErrorView> {
    match amend_steps(AmendParse { dry_run: false, old_sha: None, new_sha: None }, args, 0) {
        Err(e) => Err(e),
        Ok(st) => match (st.old_sha, st.new_sha) {
            (None, _) => Err(RewriteErrorView::MissingOldSha),
            (Some(_), None) => Err(RewriteErrorView::MissingNewSha),
            (Some(o), Some(n)) => Ok((o, n, st.dry_run)),
        },
    }
}

/// Whether an argument starts with two dashes.
fn long_flag(a: &str) -> (r: bool)
    ensures
        r == is_long_flag(a@),
{
    a.unicode_len() >= 2 && a.get_char(0) == '-' && a.get_char(1) == '-'
}

/// Reads a commit-list command line into its state, or the error.
fn read_lists(args: &[String], first_flag: &str, second_flag: &str, takes_head: bool) -> (r: Result<
    (bool, Option<String>, Vec<String>, Vec<String>),
    RewriteArgsError,
>)
    ensures
        match list_steps(list_start(), strings_view(args@), 0, first_flag@, second_flag@, takes_head) {
            Ok(st) => r matches Ok(v) && st.dry_run == v.0 && st.head == crate::transcript::opt_view(v.1)
                && st.first == strings_view(v.2@) && st.second == strings_view(v.3@),
            Err(e) => r matches Err(x) && x@ == e,
        },
{
    let ghost av = strings_view(args@);
    let mut in_first = false;
    let mut in_second = false;
    let mut dry_run = false;
    let mut head: Option<String> = None;
    let mut first: Vec<String> = Vec::new();
    let mut second: Vec<String> = Vec::new();
    let mut i: usize = 0;
    proof {
        assert(strings_view(first@) =~= Seq::<Seq<char>>::empty());
        assert(strings_view(second@) =~= Seq::<Seq<char>>::empty());
    }
    while i < args.len()
        invariant
            av == strings_view(args@),
            i <= args@.len(),
            list_steps(list_start(), av, 0, first_flag@, second_flag@, takes_head) == list_steps(
                ListParse {
                    in_first,
                    in_second,
                    dry_run,
                    head: crate::transcript::opt_view(head),
                    first: strings_view(first@),
                    second: strings_view(second@),
                },
                av,
                i as int,
                first_flag@,
                second_flag@,
                takes_head,
            ),
        decreases args.len() - i,
    {
        let arg = args[i].as_str();
        assert(av[i as int] == arg@);
        if str_eq(arg, first_flag) {
            in_first = true;
            in_second = false;
        } else if str_eq(arg, second_flag) {
            in_first = false;
            in_second = true;
        } else if str_eq(arg, "--dry-run") {
            dry_run = true;
        } else if long_flag(arg) {
            return Err(RewriteArgsError::UnknownFlag(args[i].clone()));
        } else if in_first {
            let ghost before = strings_view(first@);
            first.push(args[i].clone());
            assert(strings_view(first@) =~= before.push(arg@));
        } else if in_second {
            let ghost before = strings_view(second@);
            second.push(args[i].clone());
            assert(strings_view(second@) =~= before.push(arg@));
        } else if takes_head && head.is_none() {
            head = Some(args[i].clone());
        } else {
            return Err(RewriteArgsError::UnexpectedArgument(args[i].clone()));
        }
        i = i + 1;
    }
    Ok((dry_run, head, first, second))
}

/// Reads the command line of `git-ai cherry-pick-authorship`:
/// `--source-commits <sha>... --new-commits <sha>... [--dry-run]`. Both lists must be
/// non-empty.
pub fn parse_cherry_pick_authorship_args(args: &[String]) -> (r: Result<CherryPickArgs, RewriteArgsError>)
    ensures
        match cherry_pick_spec(strings_view(args@)) {
            Ok(v) => r matches Ok(c) && strings_view(c.source_commits@) == v.0 && strings_view(c.new_commits@) == v.1
                && c.dry_run == v.2,
            Err(e) => r matches Err(x) && x@ == e,
        },
{
    match read_lists(args, "--source-commits", "--new-commits", false) {
        Err(e) => Err(e),
        Ok((dry_run, _head, source_commits, new_commits)) => {
            if source_commits.len() == 0 {
                Err(RewriteArgsError::MissingSourceCommits)
            } else if new_commits.len() == 0 {
                Err(RewriteArgsError::MissingNewCommits)
            } else {
                Ok(CherryPickArgs { source_commits, new_commits, dry_run })
            }
        },
    }
}

/// Reads the command line of `git-ai rebase-authorship`:
/// `<original_head> --original-commits <sha>... --new-commits <sha>... [--dry-run]`. The
/// head is required and both lists must be non-empty.
pub fn parse_rebase_authorship_args(args: &[String]) -> (r: Result<RebaseArgs, RewriteArgsError>)
    ensures
        match rebase_spec(strings_view(args@)) {
            Ok(v) => r matches Ok(c) && c.original_head@ == v.0 && strings_view(c.original_commits@) == v.1
                && strings_view(c.new_commits@) == v.2 && c.dry_run == v.3,
            Err(e) => r matches Err(x) && x@ == e,
        },
{
    match read_lists(args, "--original-commits", "--new-commits", true) {
        Err(e) => Err(e),
        Ok((dry_run, head, original_commits, new_commits)) => match head {
            None => Err(RewriteArgsError::MissingOriginalHead),
            Some(original_head) => {
                if original_commits.len() == 0 {
                    Err(RewriteArgsError::MissingSourceCommits)
                } else if new_commits.len() == 0 {
                    Err(RewriteArgsError::MissingNewCommits)
                } else {
                    Ok(RebaseArgs { original_head, original_commits, new_commits, dry_run })
                }
            },
        },
    }
}

/// Reads the command line of `git-ai amend-authorship`: `<old_sha> <new_sha> [--dry-run]`.
pub fn parse_amend_authorship_args(args: &[String]) -> (r: Result<AmendArgs, RewriteArgsError>)
    ensures
        match amend_spec(strings_view(args@)) {
            Ok(v) => r matches Ok(c) && c.old_sha@ == v.0 && c.new_sha@ == v.1 && c.dry_run == v.2,
            Err(e) => r matches Err(x) && x@ == e,
        },
{
    let ghost av = strings_view(args@);
    let mut dry_run = false;
    let mut old_sha: Option<String> = None;
    let mut new_sha: Option<String> = None;
    let mut i: usize = 0;
    while i < args.len()
        invariant
            av == strings_view(args@),
            i <= args@.len(),
            amend_steps(AmendParse { dry_run: false, old_sha: None, new_sha: None }, av, 0) == amend_steps(
                AmendParse {
                    dry_run,
                    old_sha: crate::transcript::opt_view(old_sha),
                    new_sha: crate::transcript::opt_view(new_sha),
                },
                av,
                i as int,
            ),
        decreases args.len() - i,
    {
        let arg = args[i].as_str();
        assert(av[i as int] == arg@);
        if str_eq(arg, "--dry-run") {
            dry_run = true;
        } else if long_flag(arg) {
            return Err(RewriteArgsError::UnknownFlag(args[i].clone()));
        } else if old_sha.is_none() {
            old_sha = Some(args[i].clone());
        } else if new_sha.is_none() {
            new_sha = Some(args[i].clone());
        } else {
            return Err(RewriteArgsError::UnexpectedArgument(args[i].clone()));
        }
        i = i + 1;
    }
    match old_sha {
        None => Err(RewriteArgsError::MissingOldSha),
        Some(o) => match new_sha {
            None => Err(RewriteArgsError::MissingNewSha),
            Some(n) => Ok(AmendArgs { old_sha: o, new_sha: n, dry_run }),
        },
    }
}

} // verus!
