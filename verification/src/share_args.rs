//! The command line of `git-ai share`.

use vstd::prelude::*;
use vstd::string::*;

use crate::blame_args::{is_flag, strings_view};
use crate::text::{extend_chars, from_chars, str_eq, to_chars};

verus! {

/// What `git-ai share` was asked for: a prompt and, optionally, a title.
#[derive(Debug)]
pub struct ParsedArgs {
    pub prompt_id: String,
    pub title: Option<String>,
}

/// The state of reading a share command line.
pub struct ShareParse {
    pub prompt_id: Option<Seq<char>>,
    pub title: Option<Seq<char>>,
}

/// Reading a share command line from argument `i` on: `--title` takes the next argument,
/// other arguments starting with a dash are refused, and one other argument names the
/// prompt.
pub open spec fn share_steps(st: ShareParse, args: Seq<Seq<char>>, i: int) -> Result<ShareParse, Seq<char>>
    decreases args.len() - i,
{
    if i < 0 || i >= args.len() {
        Ok(st)
    } else {
        let a = args[i];
        if a == "--title"@ {
            if i + 1 >= args.len() {
                Err("--title requires a value"@)
            } else {
                share_steps(ShareParse { prompt_id: st.prompt_id, title: Some(args[i + 1]) }, args, i + 2)
            }
        } else if is_flag(a) {
            Err("Unknown option: "@ + a)
        } else if st.prompt_id is Some {
            Err("Only one prompt ID can be specified"@)
        } else {
            share_steps(ShareParse { prompt_id: Some(a), title: st.title }, args, i + 1)
        }
    }
}

/// The prompt id and title a share command line gives, or the error message.
pub open spec fn share_args_spec(args: Seq<Seq<char>>) -> Result<(Seq<char>, Option<Seq<char>>), Seq<char>> {
    match share_steps(ShareParse { prompt_id: None, title: None }, args, 0) {
        Err(e) => Err(e),
        Ok(st) => match st.prompt_id {
            Some(p) => Ok((p, st.title)),
            None => Err("share requires a prompt ID"@),
        },
    }
}

/// Reads the command line of `git-ai share`: `[<prompt_id>] [--title <title>]`. The
/// error is a message; without a prompt id it says that one is required.
pub fn parse_args(args: &[String]) -> (r: Result<ParsedArgs, String>)
    ensures
        r matches Ok(p) ==> share_args_spec(strings_view(args@)) == Ok::<(Seq<char>, Option<Seq<char>>), Seq<char>>(
            (p.prompt_id@, crate::transcript::opt_view(p.title)),
        ),
        r matches Err(m) ==> share_args_spec(strings_view(args@)) == Err::<(Seq<char>, Option<Seq<char>>), Seq<char>>(m@),
{
    let ghost av = strings_view(args@);
    let mut prompt_id: Option<String> = None;
    let mut title: Option<String> = None;
    let mut i: usize = 0;
    while i < args.len()
        invariant
            av == strings_view(args@),
            i <= args@.len(),
            share_steps(ShareParse { prompt_id: None, title: None }, av, 0) == share_steps(
                ShareParse { prompt_id: crate::transcript::opt_view(prompt_id), title: crate::transcript::opt_view(title) },
                av,
                i as int,
            ),
        decreases args.len() - i,
    {
        let arg = args[i].as_str();
        assert(av[i as int] == arg@);
        if str_eq(arg, "--title") {
            if args.len() - i <= 1 {
                return Err(String::from_str("--title requires a value"));
            }
            assert(av[i + 1] == args@[i + 1]@);
            title = Some(args[i + 1].clone());
            i = i + 2;
        } else if arg.unicode_len() > 0 && arg.get_char(0) == '-' {
            let mut m = to_chars("Unknown option: ");
            let a = to_chars(arg);
            extend_chars(&mut m, a.as_slice());
            return Err(from_chars(m.as_slice()));
        } else if prompt_id.is_some() {
            return Err(String::from_str("Only one prompt ID can be specified"));
        } else {
            prompt_id = Some(args[i].clone());
            i = i + 1;
        }
    }
    match prompt_id {
        Some(p) => Ok(ParsedArgs { prompt_id: p, title }),
        None => Err(String::from_str("share requires a prompt ID")),
    }
}

/// The title of a shared prompt: the one given, or `Prompt <id> (<tool>)`.
pub fn bundle_title(title: &Option<String>, prompt_id: &str, tool: &str) -> (r: String)
    ensures
        r@ == (match title {
            Some(t) => t@,
            None => "Prompt "@ + prompt_id@ + " ("@ + tool@ + ")"@,
        }),
{
    match title {
        Some(t) => t.clone(),
        None => {
            let mut v = to_chars("Prompt ");
            extend_chars(&mut v, to_chars(prompt_id).as_slice());
            extend_chars(&mut v, to_chars(" (").as_slice());
            extend_chars(&mut v, to_chars(tool).as_slice());
            extend_chars(&mut v, to_chars(")").as_slice());
            from_chars(v.as_slice())
        },
    }
}

} // verus!
