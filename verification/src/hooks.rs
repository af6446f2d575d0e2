//! Decisions of the git hooks: which remote a push goes to, whether its authorship notes
//! follow it, which stash a pop or apply uses, and the arguments of `git status`.

use vstd::prelude::*;
use vstd::string::*;

use crate::blame_args::{is_flag, strings_view, value_after};
use crate::log_format::{find_char, position_of};
use crate::text::{from_chars, str_eq, to_chars};

verus! {

/// The flag and value of an option written with its value: `--flag=value` (split at the
/// first `=`), or `-C<path>` and `-c<setting>`.
pub open spec fn inline_value(a: Seq<char>) -> Option<(Seq<char>, Seq<char>)> {
    let k = find_char(a, '=');
    if k < a.len() {
        Some((a.take(k), a.skip(k + 1)))
    } else if a.len() > 2 && a[0] == '-' && (a[1] == 'C' || a[1] == 'c') {
        Some((a.take(2), a.skip(2)))
    } else {
        None
    }
}

/// Whether a push option takes the next argument as its value.
pub open spec fn consumes_value(a: Seq<char>) -> bool {
    a == "--repo"@ || a == "--receive-pack"@ || a == "--exec"@ || a == "-o"@ || a == "--push-option"@ || a == "-c"@
        || a == "-C"@
}

/// The flag and value of an option written with its value (see `inline_value`).
pub fn is_push_option_with_inline_value(arg: &str) -> (r: Option<(String, String)>)
    ensures
        r matches Some((f, v)) ==> inline_value(arg@) == Some((f@, v@)),
        r is None ==> inline_value(arg@) is None,
{
    let cs = to_chars(arg);
    let k = position_of(cs.as_slice(), '=');
    if k < cs.len() {
        let f = crate::status::copy_range(cs.as_slice(), 0, k);
        let v = crate::status::copy_range(cs.as_slice(), k + 1, cs.len());
        proof {
            assert(f@ =~= arg@.take(k as int));
            assert(v@ =~= arg@.skip(k + 1));
        }
        Some((from_chars(f.as_slice()), from_chars(v.as_slice())))
    } else if cs.len() > 2 && cs[0] == '-' && (cs[1] == 'C' || cs[1] == 'c') {
        let f = crate::status::copy_range(cs.as_slice(), 0, 2);
        let v = crate::status::copy_range(cs.as_slice(), 2, cs.len());
        proof {
            assert(f@ =~= arg@.take(2));
            assert(v@ =~= arg@.skip(2));
        }
        Some((from_chars(f.as_slice()), from_chars(v.as_slice())))
    } else {
        None
    }
}

/// Whether a push option takes the next argument as its value.
pub fn option_consumes_separate_value(arg: &str) -> (r: bool)
    ensures
        r == consumes_value(arg@),
{
    str_eq(arg, "--repo") || str_eq(arg, "--receive-pack") || str_eq(arg, "--exec") || str_eq(arg, "-o") || str_eq(
        arg,
        "--push-option",
    ) || str_eq(arg, "-c") || str_eq(arg, "-C")
}

/// Scanning push arguments from position `i` for the remote: `None` when the scan ends
/// without deciding, `Some(r)` when it decides on `r` (which may be no remote, after a
/// trailing `--` or `--repo`). After `--` comes the remote; `--repo` names it; other
/// options are skipped with their values; the first other argument is the remote.
pub open spec fn push_scan(args: Seq<Seq<char>>, i: int) -> Option<Option<Seq<char>>>
    decreases args.len() - i,
{
    if i < 0 || i >= args.len() {
        None
    } else {
        let a = args[i];
        if a == "--"@ {
            Some(value_after(args, i))
        } else if is_flag(a) {
            match inline_value(a) {
                Some((f, v)) => if f == "--repo"@ {
                    Some(Some(v))
                } else {
                    push_scan(args, i + 1)
                },
                None => if consumes_value(a) {
                    if a == "--repo"@ {
                        Some(value_after(args, i))
                    } else if i + 2 <= args.len() {
                        push_scan(args, i + 2)
                    } else {
                        None
                    }
                } else {
                    push_scan(args, i + 1)
                },
            }
        } else {
            Some(Some(a))
        }
    }
}

/// The first remote of `remotes` that is one of the arguments.
pub open spec fn first_named_remote(remotes: Seq<Seq<char>>, args: Seq<Seq<char>>) -> Option<Seq<char>>
    decreases remotes.len(),
{
    if remotes.len() == 0 {
        None
    } else if args.contains(remotes[0]) {
        Some(remotes[0])
    } else {
        first_named_remote(remotes.drop_first(), args)
    }
}

/// The remote a push names (see `push_scan`), or else the first known remote that is one
/// of its arguments.
pub open spec fn push_remote_spec(args: Seq<Seq<char>>, remotes: Seq<Seq<char>>) -> Option<Seq<char>> {
    match push_scan(args, 0) {
        Some(r) => r,
        None => first_named_remote(remotes, args),
    }
}

/// Whether `v` holds a string equal to `s`.
fn holds_str(v: &[String], s: &str) -> (r: bool)
    ensures
        r == strings_view(v@).contains(s@),
{
    let mut i: usize = 0;
    while i < v.len()
        invariant
            i <= v.len(),
            forall|k: int| 0 <= k < i ==> v@[k]@ != s@,
        decreases v.len() - i,
    {
        if str_eq(v[i].as_str(), s) {
            assert(strings_view(v@)[i as int] == s@);
            return true;
        }
        i = i + 1;
    }
    proof {
        if strings_view(v@).contains(s@) {
            let k = choose|k: int| 0 <= k < strings_view(v@).len() && strings_view(v@)[k] == s@;
            assert(v@[k]@ == s@);
        }
    }
    false
}

/// The argument after position `i`, if any.
fn arg_after(args: &[String], i: usize) -> (r: Option<String>)
    requires
        i < args@.len(),
    ensures
        crate::transcript::opt_view(r) == value_after(strings_view(args@), i as int),
{
    if args.len() - i > 1 {
        Some(args[i + 1].clone())
    } else {
        None
    }
}

/// The remote a push goes to, as its arguments say (see `push_remote_spec`).
pub fn extract_remote_from_push_args(args: &[String], known_remotes: &[String]) -> (r: Option<String>)
    ensures
        crate::transcript::opt_view(r) == push_remote_spec(strings_view(args@), strings_view(known_remotes@)),
{
    let ghost av = strings_view(args@);
    let mut i: usize = 0;
    while i < args.len()
        invariant
            av == strings_view(args@),
            i <= args@.len(),
            push_scan(av, 0) == push_scan(av, i as int),
        decreases args.len() - i,
    {
        let arg = args[i].as_str();
        assert(av[i as int] == arg@);
        if str_eq(arg, "--") {
            return arg_after(args, i);
        }
        if arg.unicode_len() > 0 && arg.get_char(0) == '-' {
            match is_push_option_with_inline_value(arg) {
                Some((flag, value)) => {
                    if str_eq(flag.as_str(), "--repo") {
                        return Some(value);
                    }
                    i = i + 1;
                },
                None => {
                    if option_consumes_separate_value(arg) {
                        if str_eq(arg, "--repo") {
                            return arg_after(args, i);
                        }
                        if args.len() - i < 2 {
                            proof {
                                assert(push_scan(av, i + 2) is None);
                            }
                            i = args.len();
                        } else {
                            i = i + 2;
                        }
                    } else {
                        i = i + 1;
                    }
                },
            }
        } else {
            return Some(args[i].clone());
        }
    }
    let ghost rv = strings_view(known_remotes@);
    let mut k: usize = 0;
    proof {
        assert(rv.skip(0) =~= rv);
    }
    while k < known_remotes.len()
        invariant
            av == strings_view(args@),
            rv == strings_view(known_remotes@),
            k <= known_remotes@.len(),
            push_scan(av, 0) is None,
            first_named_remote(rv, av) == first_named_remote(rv.skip(k as int), av),
        decreases known_remotes.len() - k,
    {
        proof {
            let t = rv.skip(k as int);
            assert(t[0] == known_remotes@[k as int]@);
            assert(t.drop_first() =~= rv.skip(k + 1));
        }
        if holds_str(args, known_remotes[k].as_str()) {
            return Some(known_remotes[k].clone());
        }
        k = k + 1;
    }
    proof {
        assert(rv.skip(k as int) =~= Seq::<Seq<char>>::empty());
    }
    None
}

/// Whether a push has its authorship notes pushed too: not for a dry run, a deletion or
/// a mirror push.
pub open spec fn push_notes_spec(args: Seq<Seq<char>>, dry_run: bool) -> bool {
    !dry_run && !args.contains("-d"@) && !args.contains("--delete"@) && !args.contains("--mirror"@)
}

/// Whether a push has its authorship notes pushed too (see `push_notes_spec`).
pub fn should_push_authorship(args: &[String], dry_run: bool) -> (r: bool)
    ensures
        r == push_notes_spec(strings_view(args@), dry_run),
{
    !dry_run && !holds_str(args, "-d") && !holds_str(args, "--delete") && !holds_str(args, "--mirror")
}

/// The first argument that names a known remote.
pub open spec fn first_remote_arg(args: Seq<Seq<char>>, remotes: Seq<Seq<char>>) -> Option<Seq<char>>
    decreases args.len(),
{
    if args.len() == 0 {
        None
    } else if remotes.contains(args[0]) {
        Some(args[0])
    } else {
        first_remote_arg(args.drop_first(), remotes)
    }
}

/// The remote that a push's authorship notes go to, as far as the arguments tell: the
/// remote the push names, or else the first argument that is a known remote. Without
/// either, the upstream or default remote is used.
pub fn push_notes_remote(args: &[String], remote_names: &[String]) -> (r: Option<String>)
    ensures
        crate::transcript::opt_view(r) == (match push_remote_spec(strings_view(args@), strings_view(remote_names@)) {
            Some(x) => Some(x),
            None => first_remote_arg(strings_view(args@), strings_view(remote_names@)),
        }),
{
    match extract_remote_from_push_args(args, remote_names) {
        Some(x) => Some(x),
        None => {
            let ghost av = strings_view(args@);
            let ghost rv = strings_view(remote_names@);
            let mut k: usize = 0;
            proof {
                assert(av.skip(0) =~= av);
            }
            while k < args.len()
                invariant
                    av == strings_view(args@),
                    rv == strings_view(remote_names@),
                    k <= args@.len(),
                    first_remote_arg(av, rv) == first_remote_arg(av.skip(k as int), rv),
                    push_remote_spec(av, rv) is None,
                decreases args.len() - k,
            {
                proof {
                    let t = av.skip(k as int);
                    assert(t[0] == args@[k as int]@);
                    assert(t.drop_first() =~= av.skip(k + 1));
                }
                if holds_str(remote_names, args[k].as_str()) {
                    return Some(args[k].clone());
                }
                k = k + 1;
            }
            proof {
                assert(av.skip(k as int) =~= Seq::<Seq<char>>::empty());
            }
            None
        },
    }
}

/// The stash that a `stash pop` or `stash apply` uses, to be resolved before git removes
/// it: the one named, or `stash@{0}`. Other subcommands capture none.
pub fn pre_stash_hook(subcommand: Option<&str>, stash_arg: Option<&str>) -> (r: Option<String>)
    ensures
        r is Some <==> (subcommand matches Some(s) && (s@ == "pop"@ || s@ == "apply"@)),
        r matches Some(x) ==> x@ == (match stash_arg {
            Some(a) => a@,
            None => "stash@{0}"@,
        }),
{
    match subcommand {
        Some(s) => {
            if str_eq(s, "pop") || str_eq(s, "apply") {
                match stash_arg {
                    Some(a) => Some(String::from_str(a)),
                    None => Some(String::from_str("stash@{0}")),
                }
            } else {
                None
            }
        },
        None => None,
    }
}

/// The arguments of `git status --porcelain=v2 -z`, after the repository's global
/// arguments and before `--` and the path specs, if any.
pub fn status_args(global_args: &[String], pathspecs: Option<&[String]>) -> (r: Vec<String>)
    ensures
        strings_view(r@) == strings_view(global_args@) + seq!["status"@, "--porcelain=v2"@, "-z"@] + match pathspecs {
            Some(p) => seq!["--"@] + strings_view(p@),
            None => Seq::empty(),
        },
{
    let mut r: Vec<String> = Vec::new();
    let mut i: usize = 0;
    while i < global_args.len()
        invariant
            i <= global_args@.len(),
            strings_view(r@) == strings_view(global_args@.subrange(0, i as int)),
        decreases global_args.len() - i,
    {
        let ghost prev = r@;
        let g = global_args[i].clone();
        r.push(g);
        proof {
            assert(strings_view(r@) =~= strings_view(prev).push(g@));
            assert(strings_view(global_args@.subrange(0, i + 1)) =~= strings_view(global_args@.subrange(0, i as int)).push(
                global_args@[i as int]@,
            ));
            assert(strings_view(r@) =~= strings_view(global_args@.subrange(0, i + 1)));
        }
        i = i + 1;
    }
    proof {
        assert(global_args@.subrange(0, global_args@.len() as int) =~= global_args@);
    }
    let ghost base = r@;
    r.push(String::from_str("status"));
    r.push(String::from_str("--porcelain=v2"));
    r.push(String::from_str("-z"));
    proof {
        assert(strings_view(r@) =~= strings_view(base).push("status"@).push("--porcelain=v2"@).push("-z"@));
        assert(strings_view(r@) =~= strings_view(base) + seq!["status"@, "--porcelain=v2"@, "-z"@]);
    }
    match pathspecs {
        Some(p) => {
            let ghost head = strings_view(r@);
            let ghost before = r@;
            r.push(String::from_str("--"));
            proof {
                assert(strings_view(r@) =~= strings_view(before).push("--"@));
                assert(strings_view(r@) =~= head + seq!["--"@] + strings_view(p@.subrange(0, 0)));
            }
            let mut j: usize = 0;
            while j < p.len()
                invariant
                    j <= p@.len(),
                    strings_view(r@) == head + seq!["--"@] + strings_view(p@.subrange(0, j as int)),
                decreases p.len() - j,
            {
                let ghost prev = r@;
                let x = p[j].clone();
                r.push(x);
                proof {
                    assert(strings_view(r@) =~= strings_view(prev).push(x@));
                    assert(strings_view(p@.subrange(0, j + 1)) =~= strings_view(p@.subrange(0, j as int)).push(p@[j as int]@));
                    assert(strings_view(r@) =~= head + seq!["--"@] + strings_view(p@.subrange(0, j + 1)));
                }
                j = j + 1;
            }
            proof {
                assert(p@.subrange(0, p@.len() as int) =~= p@);
                assert(strings_view(r@) =~= head + (seq!["--"@] + strings_view(p@)));
            }
        },
        None => {
            proof {
                assert(strings_view(r@) =~= strings_view(r@) + Seq::<Seq<char>>::empty());
            }
        },
    }
    r
}

/// What the pre-push hook decides about pushing authorship notes: `None` when they are not
/// pushed (see `should_push_authorship`); else the remote the arguments name (see
/// `push_notes_remote`), `Some(None)` leaving the choice to the upstream or default remote.
pub fn push_pre_command_hook(args: &[String], dry_run: bool, remote_names: &[String]) -> (r: Option<Option<String>>)
    ensures
        r is None <==> !push_notes_spec(strings_view(args@), dry_run),
        r matches Some(x) ==> crate::transcript::opt_view(x) == (match push_remote_spec(
            strings_view(args@),
            strings_view(remote_names@),
        ) {
            Some(y) => Some(y),
            None => first_remote_arg(strings_view(args@), strings_view(remote_names@)),
        }),
{
    if !should_push_authorship(args, dry_run) {
        return None;
    }
    Some(push_notes_remote(args, remote_names))
}

/// What git-ai does after a git command has run.
#[derive(Debug, Clone, PartialEq, Eq)]
pub enum PostCommandAction {
    /// Nothing.
    Nothing,
    /// Run the commit hook, printing its summary unless asked not to.
    CommitHook { suppress_output: bool },
    /// Run the fetch hook.
    FetchHook,
    /// Run the push hook.
    PushHook,
    /// Drop the working log of the head the reset started from.
    DropHeadWorkingLog,
    /// Record a squash merge of this branch into the current one.
    RecordMergeSquash { source_branch: String },
}

/// Whether a squash merge ran: a successful `merge --squash` that is no dry run.
pub open spec fn squash_merge_done(command: Option<&str>, args: Seq<String>, succeeded: bool, dry_run: bool) -> bool {
    command matches Some(c) && c@ == "merge"@ && strings_view(args).contains("--squash"@) && succeeded && !dry_run
}

/// The action after a git command other than a squash merge (see `post_command_action`).
pub open spec fn other_post_action(command: Option<&str>, args: Seq<String>, pre_commit_ok: Option<bool>) -> PostCommandAction {
    let flags = strings_view(args);
    match command {
        Some(c) => if c@ == "commit"@ {
            if pre_commit_ok == Some(false) {
                PostCommandAction::Nothing
            } else {
                PostCommandAction::CommitHook {
                    suppress_output: flags.contains("--porcelain"@) || flags.contains("--quiet"@) || flags.contains("-q"@)
                        || flags.contains("--no-status"@),
                }
            }
        } else if c@ == "fetch"@ {
            PostCommandAction::FetchHook
        } else if c@ == "push"@ {
            PostCommandAction::PushHook
        } else if c@ == "reset"@ && flags.contains("--hard"@) {
            PostCommandAction::DropHeadWorkingLog
        } else {
            PostCommandAction::Nothing
        },
        None => PostCommandAction::Nothing,
    }
}

/// The action after a git command: `command` is its name, `command_args` its arguments,
/// `succeeded` whether it exited with success, `pre_commit_ok` what the hook before a
/// commit reported, `dry_run` whether the arguments ask for a dry run and `source_branch`
/// its first positional argument. A commit runs the commit hook unless the hook before it
/// failed, quietly with `--porcelain`, `--quiet`, `-q` or `--no-status`; fetch and push run
/// their hooks; `reset --hard` drops the head's working log; a successful `merge --squash`
/// that is no dry run records the squash of its branch.
pub fn post_command_action(
    command: Option<&str>,
    command_args: &[String],
    succeeded: bool,
    pre_commit_ok: Option<bool>,
    dry_run: bool,
    source_branch: Option<&str>,
) -> (r: PostCommandAction)
    requires
        squash_merge_done(command, command_args@, succeeded, dry_run) ==> source_branch is Some,
    ensures
        squash_merge_done(command, command_args@, succeeded, dry_run) ==> (r matches PostCommandAction::RecordMergeSquash {
            source_branch: b,
        } && b@ == source_branch->Some_0@),
        !squash_merge_done(command, command_args@, succeeded, dry_run) ==> r == other_post_action(
            command,
            command_args@,
            pre_commit_ok,
        ),
{
    proof {
        reveal_strlit("merge");
        reveal_strlit("commit");
        reveal_strlit("fetch");
        reveal_strlit("push");
        reveal_strlit("reset");
        assert("merge"@.len() != "commit"@.len());
        assert("merge"@[0] != "fetch"@[0]);
        assert("merge"@.len() != "push"@.len());
        assert("merge"@[0] != "reset"@[0]);
    }
    match command {
        Some(c) => {
            if str_eq(c, "commit") {
                if pre_commit_ok == Some(false) {
                    PostCommandAction::Nothing
                } else {
                    let quiet = holds_str(command_args, "--porcelain") || holds_str(command_args, "--quiet")
                        || holds_str(command_args, "-q") || holds_str(command_args, "--no-status");
                    PostCommandAction::CommitHook { suppress_output: quiet }
                }
            } else if str_eq(c, "fetch") {
                PostCommandAction::FetchHook
            } else if str_eq(c, "push") {
                PostCommandAction::PushHook
            } else if str_eq(c, "reset") {
                if holds_str(command_args, "--hard") {
                    PostCommandAction::DropHeadWorkingLog
                } else {
                    PostCommandAction::Nothing
                }
            } else if str_eq(c, "merge") {
                if holds_str(command_args, "--squash") && succeeded && !dry_run {
                    match source_branch {
                        Some(b) => PostCommandAction::RecordMergeSquash { source_branch: String::from_str(b) },
                        None => PostCommandAction::Nothing,
                    }
                } else {
                    PostCommandAction::Nothing
                }
            } else {
                PostCommandAction::Nothing
            }
        },
        None => PostCommandAction::Nothing,
    }
}

} // verus!
