//! Settings: the update channel, feature flags, and which repositories git-ai may work in.

use vstd::prelude::*;
use vstd::string::*;

use crate::log_format::{is_space, is_whitespace_char, trim_end};
use crate::text::{from_chars, str_eq, to_chars};

verus! {

/// Which releases updates follow.
#[derive(Clone, Copy, Debug, PartialEq, Eq, Structural)]
pub enum UpdateChannel {
    Latest,
    Next,
}

/// Number of leading white space characters of `s`.
pub open spec fn lead_spaces(s: Seq<char>) -> nat
    decreases s.len(),
{
    if s.len() == 0 {
        0
    } else if is_space(s[0]) {
        1 + lead_spaces(s.drop_first())
    } else {
        0
    }
}

/// `s` without leading and trailing white space, as `str::trim` gives it.
pub open spec fn trim(s: Seq<char>) -> Seq<char> {
    trim_end(s.skip(lead_spaces(s) as int))
}

/// `lead_spaces` computed from the front.
proof fn lemma_lead_step(s: Seq<char>, k: int)
    requires
        0 <= k <= s.len(),
        forall|j: int| 0 <= j < k ==> is_space(s[j]),
        k == s.len() || !is_space(s[k]),
    ensures
        lead_spaces(s) == k,
    decreases k,
{
    if k > 0 {
        let t = s.drop_first();
        assert forall|j: int| 0 <= j < k - 1 implies is_space(t[j]) by {
            assert(t[j] == s[j + 1]);
        }
        if k < s.len() {
            assert(t[k - 1] == s[k]);
        }
        lemma_lead_step(t, k - 1);
    }
}

/// `s` without leading and trailing white space.
pub fn trim_chars(s: &[char]) -> (r: Vec<char>)
    ensures
        r@ == trim(s@),
{
    let mut k: usize = 0;
    while k < s.len() && is_whitespace_char(s[k])
        invariant
            k <= s.len(),
            forall|j: int| 0 <= j < k ==> is_space(s@[j]),
        decreases s.len() - k,
    {
        k = k + 1;
    }
    proof {
        lemma_lead_step(s@, k as int);
    }
    let mut rest: Vec<char> = Vec::new();
    let mut i: usize = k;
    while i < s.len()
        invariant
            k <= i <= s.len(),
            rest@ == s@.subrange(k as int, i as int),
        decreases s.len() - i,
    {
        rest.push(s[i]);
        i = i + 1;
    }
    proof {
        assert(rest@ =~= s@.skip(k as int));
    }
    crate::log_format::trim_end_chars(rest.as_slice())
}

/// The lowercase form of a string, as `str::to_lowercase` gives it.
pub uninterp spec fn lowercase(s: Seq<char>) -> Seq<char>;

/// Whether every character of `s` is ASCII.
pub open spec fn all_ascii(s: Seq<char>) -> bool {
    forall|i: int| 0 <= i < s.len() ==> (#[trigger] s[i] as u32) < 128
}

/// An ASCII character in lowercase: `A`..=`Z` become `a`..=`z`, the rest stay.
pub open spec fn ascii_lower_char(c: char) -> char {
    if 65 <= (c as u32) <= 90 {
        ((c as u32) + 32) as char
    } else {
        c
    }
}

/// Each character of `s` in ASCII lowercase.
pub open spec fn ascii_lower(s: Seq<char>) -> Seq<char> {
    s.map_values(|c: char| ascii_lower_char(c))
}

/// Calls `str::to_lowercase`. The result is named: it is the Unicode lowercase mapping of
/// the characters, which the contract spells out only for ASCII text, where each of
/// `A`..=`Z` becomes its lowercase letter and every other character stays (Unicode's
/// lowercase mapping of the ASCII range, as `str::to_lowercase` documents).
#[verifier::external_body]
fn to_lowercase_string(s: &str) -> (r: String)
    ensures
        r@ == lowercase(s@),
        all_ascii(s@) ==> r@ == ascii_lower(s@),
{
    s.to_lowercase()
}

/// The channel a configured name stands for: `latest` or `next`, ignoring case and
/// surrounding white space.
pub open spec fn channel_of(input: Seq<char>) -> Option<UpdateChannel> {
    channel_named(lowercase(trim(input)))
}

/// The channel whose name is exactly `name`.
pub open spec fn channel_named(name: Seq<char>) -> Option<UpdateChannel> {
    if name == "latest"@ {
        Some(UpdateChannel::Latest)
    } else if name == "next"@ {
        Some(UpdateChannel::Next)
    } else {
        None
    }
}

impl UpdateChannel {
    /// The channel's name.
    pub fn as_str(&self) -> (r: &'static str)
        ensures
            r@ == (match self {
                UpdateChannel::Latest => "latest"@,
                UpdateChannel::Next => "next"@,
            }),
    {
        match self {
            UpdateChannel::Latest => "latest",
            UpdateChannel::Next => "next",
        }
    }

    /// The channel a configured name stands for (see `channel_of`); for ASCII text the
    /// case of the letters does not matter.
    pub fn from_str(input: &str) -> (r: Option<UpdateChannel>)
        ensures
            r == channel_of(input@),
            all_ascii(trim(input@)) ==> r == channel_named(ascii_lower(trim(input@))),
    {
        let cs = to_chars(input);
        let t = trim_chars(cs.as_slice());
        let ts = from_chars(t.as_slice());
        let lower = to_lowercase_string(ts.as_str());
        UpdateChannel::from_lowercase_name(lower.as_str())
    }

    /// The channel whose name is exactly `name` (already trimmed and lowercase).
    pub fn from_lowercase_name(name: &str) -> (r: Option<UpdateChannel>)
        ensures
            r == channel_named(name@),
    {
        if str_eq(name, "latest") {
            Some(UpdateChannel::Latest)
        } else if str_eq(name, "next") {
            Some(UpdateChannel::Next)
        } else {
            None
        }
    }
}

/// A channel's name names that channel.
pub proof fn lemma_channel_name_round_trip(c: UpdateChannel)
    ensures
        channel_named(match c {
            UpdateChannel::Latest => "latest"@,
            UpdateChannel::Next => "next"@,
        }) == Some(c),
{
    reveal_strlit("latest");
    reveal_strlit("next");
    assert("latest"@.len() != "next"@.len());
}

impl Default for UpdateChannel {
    fn default() -> (r: UpdateChannel)
        ensures
            r == UpdateChannel::Latest,
    {
        UpdateChannel::Latest
    }
}

/// Feature flags.
#[derive(Debug, Clone, Copy, PartialEq, Eq, Structural)]
pub struct FeatureFlags {
    pub rewrite_stash: bool,
    pub inter_commit_move: bool,
}

/// Feature flags as a configuration file gives them: each may be missing.
#[derive(Debug, Clone, Copy, PartialEq, Eq, Structural)]
pub struct FileFeatureFlags {
    pub rewrite_stash: Option<bool>,
    pub inter_commit_move: Option<bool>,
}

/// The flags a configuration file gives over the defaults of the build.
pub open spec fn flags_from_file(file_flags: Option<FileFeatureFlags>, debug_build: bool) -> FeatureFlags {
    match file_flags {
        None => FeatureFlags { rewrite_stash: debug_build, inter_commit_move: debug_build },
        Some(f) => FeatureFlags {
            rewrite_stash: match f.rewrite_stash {
                Some(b) => b,
                None => debug_build,
            },
            inter_commit_move: match f.inter_commit_move {
                Some(b) => b,
                None => debug_build,
            },
        },
    }
}

impl FeatureFlags {
    /// The default flags: stash rewriting and inter-commit moves are on in debug builds
    /// only.
    pub fn defaults(debug_build: bool) -> (r: FeatureFlags)
        ensures
            r == (FeatureFlags { rewrite_stash: debug_build, inter_commit_move: debug_build }),
    {
        FeatureFlags { rewrite_stash: debug_build, inter_commit_move: debug_build }
    }

    /// The flags a configuration file gives, each missing one (or all, without a file
    /// section) taken from the defaults.
    pub fn from_file_config(file_flags: Option<FileFeatureFlags>, debug_build: bool) -> (r: FeatureFlags)
        ensures
            r == flags_from_file(file_flags, debug_build),
    {
        let defaults = FeatureFlags::defaults(debug_build);
        match file_flags {
            None => defaults,
            Some(f) => FeatureFlags {
                rewrite_stash: match f.rewrite_stash {
                    Some(b) => b,
                    None => defaults.rewrite_stash,
                },
                inter_commit_move: match f.inter_commit_move {
                    Some(b) => b,
                    None => defaults.inter_commit_move,
                },
            },
        }
    }
}

/// Whether a glob pattern compiles (`glob::Pattern::new` accepts it).
pub uninterp spec fn glob_valid(pattern: Seq<char>) -> bool;

/// Whether a compiled glob pattern matches a text (`glob::Pattern::matches`).
pub uninterp spec fn glob_match(pattern: Seq<char>, text: Seq<char>) -> bool;

/// Calls `glob::Pattern::new` and reports whether it succeeded; the contract names the
/// answer.
#[verifier::external_body]
fn glob_compiles(pattern: &str) -> (r: bool)
    ensures
        r == glob_valid(pattern@),
{
    glob::Pattern::new(pattern).is_ok()
}

/// Compiles `pattern` with `glob::Pattern::new` and, when it compiles, calls
/// `Pattern::matches` on `text`. The contract names the answer of each call.
#[verifier::external_body]
fn glob_matches(pattern: &str, text: &str) -> (r: Option<bool>)
    ensures
        r == (if glob_valid(pattern@) {
            Some(glob_match(pattern@, text@))
        } else {
            None
        }),
{
    match glob::Pattern::new(pattern) {
        Ok(p) => Some(p.matches(text)),
        Err(_) => None,
    }
}

/// The patterns of `ps` that compile, in order.
pub open spec fn compiling(ps: Seq<Seq<char>>) -> Seq<Seq<char>>
    decreases ps.len(),
{
    if ps.len() == 0 {
        ps
    } else {
        let p = compiling(ps.drop_last());
        if glob_valid(ps.last()) {
            p.push(ps.last())
        } else {
            p
        }
    }
}

/// The patterns of `ps` that compile, in order; the others are dropped.
pub fn valid_patterns(ps: &[String]) -> (r: Vec<String>)
    ensures
        crate::blame_args::strings_view(r@) == compiling(crate::blame_args::strings_view(ps@)),
{
    let mut r: Vec<String> = Vec::new();
    let mut i: usize = 0;
    while i < ps.len()
        invariant
            i <= ps.len(),
            crate::blame_args::strings_view(r@) == compiling(crate::blame_args::strings_view(ps@.subrange(0, i as int))),
        decreases ps.len() - i,
    {
        let ghost prev = r@;
        proof {
            let cur = crate::blame_args::strings_view(ps@.subrange(0, i + 1));
            assert(cur.drop_last() =~= crate::blame_args::strings_view(ps@.subrange(0, i as int)));
            assert(cur.last() == ps@[i as int]@);
        }
        if glob_compiles(ps[i].as_str()) {
            r.push(ps[i].clone());
            proof {
                assert(crate::blame_args::strings_view(r@) =~= crate::blame_args::strings_view(prev).push(ps@[i as int]@));
            }
        }
        i = i + 1;
    }
    proof {
        assert(ps@.subrange(0, ps@.len() as int) =~= ps@);
    }
    r
}

/// The views of a list of (remote name, remote url) pairs.
pub open spec fn remotes_view(rs: Seq<(String, String)>) -> Seq<(Seq<char>, Seq<char>)> {
    rs.map_values(|r: (String, String)| (r.0@, r.1@))
}

/// Whether a pattern of `patterns` compiles and matches the url of a remote of `remotes`.
pub open spec fn remote_hit(patterns: Seq<Seq<char>>, remotes: Seq<(Seq<char>, Seq<char>)>) -> bool {
    exists|r: int, p: int|
        0 <= r < remotes.len() && 0 <= p < patterns.len() && glob_valid(patterns[p]) && #[trigger] glob_match(
            patterns[p],
            remotes[r].1,
        )
}

/// Whether some pattern matches the url of some remote.
fn any_remote_matches(patterns: &[String], remotes: &[(String, String)]) -> (r: bool)
    ensures
        r == remote_hit(crate::blame_args::strings_view(patterns@), remotes_view(remotes@)),
{
    let ghost pv = crate::blame_args::strings_view(patterns@);
    let ghost rv = remotes_view(remotes@);
    let mut i: usize = 0;
    while i < remotes.len()
        invariant
            pv == crate::blame_args::strings_view(patterns@),
            rv == remotes_view(remotes@),
            i <= remotes@.len(),
            forall|a: int, b: int|
                0 <= a < i && 0 <= b < pv.len() ==> !(glob_valid(pv[b]) && #[trigger] glob_match(pv[b], rv[a].1)),
        decreases remotes.len() - i,
    {
        let mut j: usize = 0;
        while j < patterns.len()
            invariant
                pv == crate::blame_args::strings_view(patterns@),
                rv == remotes_view(remotes@),
                i < remotes@.len(),
                j <= patterns@.len(),
                forall|a: int, b: int|
                    0 <= a < i && 0 <= b < pv.len() ==> !(glob_valid(pv[b]) && #[trigger] glob_match(pv[b], rv[a].1)),
                forall|b: int| 0 <= b < j ==> !(glob_valid(pv[b]) && #[trigger] glob_match(pv[b], rv[i as int].1)),
            decreases patterns.len() - j,
        {
            assert(pv[j as int] == patterns@[j as int]@);
            assert(rv[i as int].1 == remotes@[i as int].1@);
            match glob_matches(patterns[j].as_str(), remotes[i].1.as_str()) {
                Some(true) => {
                    return true;
                },
                _ => {},
            }
            j = j + 1;
        }
        i = i + 1;
    }
    false
}

/// Whether git-ai may work in a repository, given the (compiling) allow and exclude
/// patterns and the repository's remotes: `None` without a repository, `Some(None)` when
/// its remotes could not be read. A remote matching an exclude pattern denies; an empty
/// allow list allows; otherwise a remote must match an allow pattern.
pub open spec fn allowed_spec(
    allow: Seq<Seq<char>>,
    exclude: Seq<Seq<char>>,
    remotes: Option<Option<Seq<(Seq<char>, Seq<char>)>>>,
) -> bool {
    let excluded = match remotes {
        Some(Some(rs)) => exclude.len() > 0 && remote_hit(exclude, rs),
        _ => false,
    };
    if excluded {
        false
    } else if allow.len() == 0 {
        true
    } else {
        match remotes {
            Some(Some(rs)) => remote_hit(allow, rs),
            _ => false,
        }
    }
}

/// The view of what is known of a repository's remotes.
pub open spec fn known_remotes_view(remotes: Option<Option<Vec<(String, String)>>>) -> Option<Option<Seq<(Seq<char>, Seq<char>)>>> {
    match remotes {
        None => None,
        Some(None) => Some(None),
        Some(Some(v)) => Some(Some(remotes_view(v@))),
    }
}

/// Whether git-ai may work in a repository (see `allowed_spec`).
pub fn is_allowed_repository(
    allow_repositories: &[String],
    exclude_repositories: &[String],
    remotes: &Option<Option<Vec<(String, String)>>>,
) -> (r: bool)
    ensures
        r == allowed_spec(
            crate::blame_args::strings_view(allow_repositories@),
            crate::blame_args::strings_view(exclude_repositories@),
            known_remotes_view(*remotes),
        ),
{
    if exclude_repositories.len() > 0 {
        match remotes {
            Some(Some(rs)) => {
                if any_remote_matches(exclude_repositories, rs.as_slice()) {
                    return false;
                }
            },
            _ => {},
        }
    }
    if allow_repositories.len() == 0 {
        return true;
    }
    match remotes {
        Some(Some(rs)) => any_remote_matches(allow_repositories, rs.as_slice()),
        _ => false,
    }
}

/// The settings a configuration file gives; each may be missing.
#[derive(Debug, Clone, Default)]
pub struct FileConfig {
    pub git_path: Option<String>,
    pub ignore_prompts: Option<bool>,
    pub allow_repositories: Option<Vec<String>>,
    pub exclude_repositories: Option<Vec<String>>,
    pub telemetry_oss: Option<String>,
    pub telemetry_enterprise_dsn: Option<String>,
    pub disable_version_checks: Option<bool>,
    pub disable_auto_updates: Option<bool>,
    pub update_channel: Option<String>,
    /// The feature flags section, where it reads as flags.
    pub feature_flags: Option<FileFeatureFlags>,
}

/// The configuration of git-ai.
#[derive(Debug, Clone)]
pub struct Config {
    pub git_path: String,
    pub ignore_prompts: bool,
    /// Repository url patterns that git-ai may work in (all, when empty); each compiles.
    pub allow_repositories: Vec<String>,
    /// Repository url patterns that git-ai never works in; each compiles.
    pub exclude_repositories: Vec<String>,
    pub telemetry_oss_disabled: bool,
    pub telemetry_enterprise_dsn: Option<String>,
    pub disable_version_checks: bool,
    pub disable_auto_updates: bool,
    pub update_channel: UpdateChannel,
    pub feature_flags: FeatureFlags,
    /// Flags that tests put in place of the configured ones, if any.
    pub test_feature_flags: Option<FeatureFlags>,
}

/// A configured flag, or the default.
pub open spec fn flag_or(o: Option<bool>, d: bool) -> bool {
    match o {
        Some(b) => b,
        None => d,
    }
}

/// The strings of a configured list (none when missing).
pub open spec fn list_or_empty(o: Option<Vec<String>>) -> Seq<Seq<char>> {
    match o {
        Some(v) => crate::blame_args::strings_view(v@),
        None => Seq::empty(),
    }
}

/// A copy of an optional list of strings (empty when missing).
fn list_copy(o: &Option<Vec<String>>) -> (r: Vec<String>)
    ensures
        crate::blame_args::strings_view(r@) == list_or_empty(*o),
{
    let mut r: Vec<String> = Vec::new();
    match o {
        Some(v) => {
            let mut i: usize = 0;
            while i < v.len()
                invariant
                    i <= v.len(),
                    crate::blame_args::strings_view(r@) == crate::blame_args::strings_view(v@.take(i as int)),
                decreases v.len() - i,
            {
                let ghost prev = crate::blame_args::strings_view(r@);
                r.push(v[i].clone());
                proof {
                    assert(crate::blame_args::strings_view(r@) =~= prev.push(v@[i as int]@));
                    assert(crate::blame_args::strings_view(v@.take(i + 1)) =~= crate::blame_args::strings_view(
                        v@.take(i as int),
                    ).push(v@[i as int]@));
                }
                i = i + 1;
            }
            proof {
                assert(v@.take(v@.len() as int) =~= v@);
            }
        },
        None => {
            proof {
                assert(crate::blame_args::strings_view(r@) =~= Seq::<Seq<char>>::empty());
            }
        },
    }
    r
}

/// Builds the configuration from what the configuration file gives (`None` without a
/// readable file), the git binary found, and the build: prompts are kept unless the file
/// says otherwise; repository patterns that do not compile are dropped; OSS telemetry is
/// off only when the file says `off`; an empty enterprise DSN counts as none; version
/// checks and automatic updates are off by default except in OSS builds; the update
/// channel is the configured one if it names a channel, else `latest`; and the feature
/// flags are those of the file over the defaults of the build.
pub fn build_config(file_cfg: &Option<FileConfig>, git_path: String, oss_build: bool, debug_build: bool) -> (r: Config)
    ensures
        r.git_path@ == git_path@,
        r.ignore_prompts == (match file_cfg {
            Some(c) => flag_or(c.ignore_prompts, false),
            None => false,
        }),
        crate::blame_args::strings_view(r.allow_repositories@) == compiling(match file_cfg {
            Some(c) => list_or_empty(c.allow_repositories),
            None => Seq::empty(),
        }),
        crate::blame_args::strings_view(r.exclude_repositories@) == compiling(match file_cfg {
            Some(c) => list_or_empty(c.exclude_repositories),
            None => Seq::empty(),
        }),
        r.telemetry_oss_disabled == (file_cfg matches Some(c) && c.telemetry_oss matches Some(t) && t@ == "off"@),
        crate::transcript::opt_view(r.telemetry_enterprise_dsn) == (match file_cfg {
            Some(c) => match c.telemetry_enterprise_dsn {
                Some(d) => if d@.len() > 0 {
                    Some(d@)
                } else {
                    None
                },
                None => None,
            },
            None => None,
        }),
        r.disable_version_checks == (match file_cfg {
            Some(c) => flag_or(c.disable_version_checks, !oss_build),
            None => !oss_build,
        }),
        r.disable_auto_updates == (match file_cfg {
            Some(c) => flag_or(c.disable_auto_updates, !oss_build),
            None => !oss_build,
        }),
        r.update_channel == (match file_cfg {
            Some(c) => match c.update_channel {
                Some(u) => match channel_of(u@) {
                    Some(ch) => ch,
                    None => UpdateChannel::Latest,
                },
                None => UpdateChannel::Latest,
            },
            None => UpdateChannel::Latest,
        }),
        r.feature_flags == flags_from_file(
            match file_cfg {
                Some(c) => c.feature_flags,
                None => None,
            },
            debug_build,
        ),
        r.test_feature_flags is None,
{
    let default_disabled = !oss_build;
    match file_cfg {
        None => {
            let none: Option<Vec<String>> = None;
            let allow = list_copy(&none);
            let exclude = list_copy(&none);
            Config {
                git_path,
                ignore_prompts: false,
                allow_repositories: valid_patterns(allow.as_slice()),
                exclude_repositories: valid_patterns(exclude.as_slice()),
                telemetry_oss_disabled: false,
                telemetry_enterprise_dsn: None,
                disable_version_checks: default_disabled,
                disable_auto_updates: default_disabled,
                update_channel: UpdateChannel::Latest,
                feature_flags: FeatureFlags::from_file_config(None, debug_build),
                test_feature_flags: None,
            }
        },
        Some(c) => {
            let allow = list_copy(&c.allow_repositories);
            let exclude = list_copy(&c.exclude_repositories);
            let telemetry_oss_disabled = match &c.telemetry_oss {
                Some(t) => str_eq(t.as_str(), "off"),
                None => false,
            };
            let dsn = match &c.telemetry_enterprise_dsn {
                Some(d) => if d.unicode_len() > 0 {
                    Some(d.clone())
                } else {
                    None
                },
                None => None,
            };
            let update_channel = match &c.update_channel {
                Some(u) => match UpdateChannel::from_str(u.as_str()) {
                    Some(ch) => ch,
                    None => UpdateChannel::Latest,
                },
                None => UpdateChannel::Latest,
            };
            Config {
                git_path,
                ignore_prompts: match c.ignore_prompts {
                    Some(b) => b,
                    None => false,
                },
                allow_repositories: valid_patterns(allow.as_slice()),
                exclude_repositories: valid_patterns(exclude.as_slice()),
                telemetry_oss_disabled,
                telemetry_enterprise_dsn: dsn,
                disable_version_checks: match c.disable_version_checks {
                    Some(b) => b,
                    None => default_disabled,
                },
                disable_auto_updates: match c.disable_auto_updates {
                    Some(b) => b,
                    None => default_disabled,
                },
                update_channel,
                feature_flags: FeatureFlags::from_file_config(c.feature_flags, debug_build),
                test_feature_flags: None,
            }
        },
    }
}

impl Config {
    /// The command that runs git.
    pub fn git_cmd(&self) -> (r: &str)
        ensures
            r@ == self.git_path@,
    {
        self.git_path.as_str()
    }

    /// Whether prompts are left out of authorship logs.
    pub fn get_ignore_prompts(&self) -> (r: bool)
        ensures
            r == self.ignore_prompts,
    {
        self.ignore_prompts
    }

    /// Whether prompts are left out of authorship logs.
    pub fn ignore_prompts(&self) -> (r: bool)
        ensures
            r == self.ignore_prompts,
    {
        self.ignore_prompts
    }

    /// Whether git-ai may work in a repository with the given remotes (`None` without a
    /// repository, `Some(None)` when its remotes could not be read); see `allowed_spec`.
    pub fn is_allowed_repository(&self, remotes: &Option<Option<Vec<(String, String)>>>) -> (r: bool)
        ensures
            r == allowed_spec(
                crate::blame_args::strings_view(self.allow_repositories@),
                crate::blame_args::strings_view(self.exclude_repositories@),
                known_remotes_view(*remotes),
            ),
    {
        is_allowed_repository(self.allow_repositories.as_slice(), self.exclude_repositories.as_slice(), remotes)
    }

    /// Whether OSS telemetry is off.
    pub fn is_telemetry_oss_disabled(&self) -> (r: bool)
        ensures
            r == self.telemetry_oss_disabled,
    {
        self.telemetry_oss_disabled
    }

    /// The enterprise telemetry DSN, if any.
    pub fn telemetry_enterprise_dsn(&self) -> (r: Option<&str>)
        ensures
            r matches Some(d) ==> self.telemetry_enterprise_dsn matches Some(x) && d@ == x@,
            r is None <==> self.telemetry_enterprise_dsn is None,
    {
        match &self.telemetry_enterprise_dsn {
            Some(d) => Some(d.as_str()),
            None => None,
        }
    }

    /// Whether version checks are off.
    pub fn version_checks_disabled(&self) -> (r: bool)
        ensures
            r == self.disable_version_checks,
    {
        self.disable_version_checks
    }

    /// Whether automatic updates are off.
    pub fn auto_updates_disabled(&self) -> (r: bool)
        ensures
            r == self.disable_auto_updates,
    {
        self.disable_auto_updates
    }

    /// The update channel.
    pub fn update_channel(&self) -> (r: UpdateChannel)
        ensures
            r == self.update_channel,
    {
        self.update_channel
    }

    /// The feature flags.
    pub fn feature_flags(&self) -> (r: &FeatureFlags)
        ensures
            *r == self.feature_flags,
    {
        &self.feature_flags
    }

    /// The feature flags in force: those put in place for tests, if any, else the
    /// configured ones.
    pub fn get_feature_flags(&self) -> (r: FeatureFlags)
        ensures
            r == (match self.test_feature_flags {
                Some(f) => f,
                None => self.feature_flags,
            }),
    {
        match self.test_feature_flags {
            Some(f) => f,
            None => self.feature_flags,
        }
    }

    /// Puts `flags` in place of the configured feature flags, for tests.
    pub fn set_test_feature_flags(&mut self, flags: FeatureFlags)
        ensures
            *final(self) == (Config { test_feature_flags: Some(flags), ..*old(self) }),
    {
        self.test_feature_flags = Some(flags);
    }

    /// Brings back the configured feature flags.
    pub fn clear_test_feature_flags(&mut self)
        ensures
            *final(self) == (Config { test_feature_flags: None, ..*old(self) }),
    {
        self.test_feature_flags = None;
    }
}

} // verus!
