//! The share configuration screen: its state, and what each key does to it.

use vstd::prelude::*;
use vstd::string::*;
use vstd::utf8::{encode_utf8, is_char_boundary};

verus! {

/// Which prompts a share covers.
#[derive(Debug, Clone, Copy, PartialEq, Eq, Structural)]
pub enum ShareScope {
    SinglePrompt,
    AllInCommit,
    AllInPR,
}

/// The state of the share configuration screen: the title being edited, with its cursor as
/// a byte position, the scope chosen, and whether the prompt's commit can be shared.
#[derive(Debug)]
pub struct ShareConfig {
    pub title: String,
    pub title_cursor: usize,
    pub scope_selection: ShareScope,
    pub can_share_commit: bool,
}

/// A key pressed on the screen.
#[derive(Debug, Clone, Copy, PartialEq, Eq, Structural)]
pub enum ShareKey {
    Esc,
    Tab,
    BackTab,
    Enter,
    Char(char),
    Backspace,
    Left,
    Right,
    Home,
    End,
    Up,
    Down,
    Other,
}

/// What the screen does after a key.
#[derive(Debug, Clone, Copy, PartialEq, Eq, Structural)]
pub enum ConfigKeyResult {
    Continue,
    Back,
    Submit,
}

/// The screen's state as plain values: the title's bytes, the cursor, the scope and
/// whether the commit can be shared.
pub struct ShareConfigView {
    pub title: Seq<u8>,
    pub cursor: usize,
    pub scope: ShareScope,
    pub can_share_commit: bool,
}

impl View for ShareConfig {
    type V = ShareConfigView;

    open spec fn view(&self) -> ShareConfigView {
        ShareConfigView {
            title: encode_utf8(self.title@),
            cursor: self.title_cursor,
            scope: self.scope_selection,
            can_share_commit: self.can_share_commit,
        }
    }
}

/// Inserts `c` into `s` at byte position `idx` (`String::insert`), which must lie on a
/// character boundary.
#[verifier::external_body]
fn string_insert(s: &mut String, idx: usize, c: char)
    requires
        is_char_boundary(encode_utf8(old(s)@), idx as int),
    ensures
        encode_utf8(final(s)@) == encode_utf8(old(s)@).take(idx as int) + encode_utf8(seq![c]) + encode_utf8(
            old(s)@,
        ).skip(idx as int),
{
    s.insert(idx, c);
}

/// Removes the character at byte position `idx` of `s` (`String::remove`), which must lie on
/// a character boundary before the end, and returns it.
#[verifier::external_body]
fn string_remove(s: &mut String, idx: usize) -> (c: char)
    requires
        is_char_boundary(encode_utf8(old(s)@), idx as int),
        idx < encode_utf8(old(s)@).len(),
    ensures
        encode_utf8(old(s)@) == encode_utf8(old(s)@).take(idx as int) + encode_utf8(seq![c]) + encode_utf8(
            old(s)@,
        ).skip(idx + encode_utf8(seq![c]).len()),
        encode_utf8(final(s)@) == encode_utf8(old(s)@).take(idx as int) + encode_utf8(old(s)@).skip(
            idx + encode_utf8(seq![c]).len(),
        ),
{
    s.remove(idx)
}

/// The scope above the chosen one: commit scope is skipped when the commit cannot be
/// shared.
pub open spec fn scope_up(s: ShareScope, can_share_commit: bool) -> ShareScope {
    match s {
        ShareScope::SinglePrompt => ShareScope::SinglePrompt,
        ShareScope::AllInCommit => ShareScope::SinglePrompt,
        ShareScope::AllInPR => if can_share_commit {
            ShareScope::AllInCommit
        } else {
            ShareScope::SinglePrompt
        },
    }
}

/// The scope below the chosen one (see `scope_up`).
pub open spec fn scope_down(s: ShareScope, can_share_commit: bool) -> ShareScope {
    match s {
        ShareScope::SinglePrompt => if can_share_commit {
            ShareScope::AllInCommit
        } else {
            ShareScope::AllInPR
        },
        ShareScope::AllInCommit => ShareScope::AllInPR,
        ShareScope::AllInPR => ShareScope::AllInPR,
    }
}

/// Whether a key can be handled in a state without a fault: typing needs the cursor on a
/// character boundary, and deleting needs one just before it.
pub open spec fn key_allowed(c: ShareConfigView, focused: usize, key: ShareKey) -> bool {
    match key {
        ShareKey::Tab => focused < usize::MAX,
        ShareKey::Char(_) => focused == 0 ==> is_char_boundary(c.title, c.cursor as int) && c.cursor < usize::MAX,
        ShareKey::Backspace => (focused == 0 && c.cursor > 0) ==> is_char_boundary(c.title, c.cursor - 1) && c.cursor - 1
            < c.title.len(),
        _ => true,
    }
}

/// The result of a key: Esc goes back, Enter submits, anything else continues.
pub open spec fn key_result(key: ShareKey) -> ConfigKeyResult {
    match key {
        ShareKey::Esc => ConfigKeyResult::Back,
        ShareKey::Enter => ConfigKeyResult::Submit,
        _ => ConfigKeyResult::Continue,
    }
}

/// The focused field after a key: Tab and BackTab move between the title (0) and the scope
/// (1).
pub open spec fn focus_after(focused: usize, key: ShareKey) -> usize {
    match key {
        ShareKey::Tab => ((focused + 1) % 2) as usize,
        ShareKey::BackTab => if focused == 0 {
            1
        } else {
            0
        },
        _ => focused,
    }
}

/// The cursor after a key that edits or moves in the title (`removed` is the length of
/// the character that Backspace removes).
pub open spec fn title_cursor_after(c: ShareConfigView, key: ShareKey) -> int {
    match key {
        ShareKey::Char(_) => c.cursor + 1,
        ShareKey::Backspace => if c.cursor > 0 {
            c.cursor - 1
        } else {
            c.cursor as int
        },
        ShareKey::Left => if c.cursor > 0 {
            c.cursor - 1
        } else {
            c.cursor as int
        },
        ShareKey::Right => if c.cursor < c.title.len() {
            c.cursor + 1
        } else {
            c.cursor as int
        },
        ShareKey::Home => 0,
        ShareKey::End => c.title.len() as int,
        _ => c.cursor as int,
    }
}

/// Whether a key is one that the focused field handles (not Esc, Tab, BackTab or Enter).
pub open spec fn field_key(key: ShareKey) -> bool {
    !(key is Esc || key is Tab || key is BackTab || key is Enter)
}

/// Handles a key on the share configuration screen. Esc goes back and Enter submits; Tab
/// and BackTab switch between the title and the scope. With the title focused, a character
/// is typed at the cursor, Backspace deletes the character before it, and Left, Right, Home
/// and End move it; with the scope focused, Up (or `k`) and Down (or `j`) move the choice.
pub fn handle_config_key_event(config: &mut ShareConfig, focused_field: &mut usize, key: ShareKey) -> (r: ConfigKeyResult)
    requires
        key_allowed(old(config)@, *old(focused_field), key),
    ensures
        r == key_result(key),
        *final(focused_field) == focus_after(*old(focused_field), key),
        final(config).can_share_commit == old(config).can_share_commit,
        !(field_key(key) && *old(focused_field) == 0) ==> final(config).title@ == old(config).title@
            && final(config).title_cursor == old(config).title_cursor,
        !(field_key(key) && *old(focused_field) == 1) ==> final(config).scope_selection == old(config).scope_selection,
        field_key(key) && *old(focused_field) == 0 ==> final(config).title_cursor == title_cursor_after(
            old(config)@,
            key,
        ),
        field_key(key) && *old(focused_field) == 0 && key is Char ==> final(config)@.title == old(config)@.title.take(
            old(config).title_cursor as int,
        ) + encode_utf8(seq![key->Char_0]) + old(config)@.title.skip(old(config).title_cursor as int),
        field_key(key) && *old(focused_field) == 0 && key is Backspace && old(config).title_cursor > 0 ==> exists|
            ch: char,
        |
            #![trigger encode_utf8(seq![ch])]
            {
                let t = old(config)@.title;
                let k = old(config).title_cursor - 1;
                &&& t == t.take(k) + encode_utf8(seq![ch]) + t.skip(k + encode_utf8(seq![ch]).len())
                &&& final(config)@.title == t.take(k) + t.skip(k + encode_utf8(seq![ch]).len())
            },
        field_key(key) && *old(focused_field) == 0 && !(key is Char) && !(key is Backspace && old(config).title_cursor
            > 0) ==> final(config).title@ == old(config).title@,
        old(config)@.cursor <= old(config)@.title.len() ==> final(config)@.cursor <= final(config)@.title.len(),
        !old(config).can_share_commit && old(config).scope_selection != ShareScope::AllInCommit
            ==> final(config).scope_selection != ShareScope::AllInCommit,
        field_key(key) && *old(focused_field) == 1 ==> final(config).scope_selection == match key {
            ShareKey::Up => scope_up(old(config).scope_selection, old(config).can_share_commit),
            ShareKey::Char('k') => scope_up(old(config).scope_selection, old(config).can_share_commit),
            ShareKey::Down => scope_down(old(config).scope_selection, old(config).can_share_commit),
            ShareKey::Char('j') => scope_down(old(config).scope_selection, old(config).can_share_commit),
            _ => old(config).scope_selection,
        },
{
    match key {
        ShareKey::Esc => ConfigKeyResult::Back,
        ShareKey::Tab => {
            *focused_field = (*focused_field + 1) % 2;
            ConfigKeyResult::Continue
        },
        ShareKey::BackTab => {
            *focused_field = if *focused_field == 0 {
                1
            } else {
                0
            };
            ConfigKeyResult::Continue
        },
        ShareKey::Enter => ConfigKeyResult::Submit,
        _ => {
            if *focused_field == 0 {
                let len = config.title.as_str().as_bytes().len();
                match key {
                    ShareKey::Char(c) => {
                        string_insert(&mut config.title, config.title_cursor, c);
                        config.title_cursor = config.title_cursor + 1;
                    },
                    ShareKey::Backspace => {
                        if config.title_cursor > 0 {
                            string_remove(&mut config.title, config.title_cursor - 1);
                            config.title_cursor = config.title_cursor - 1;
                        }
                    },
                    ShareKey::Left => {
                        if config.title_cursor > 0 {
                            config.title_cursor = config.title_cursor - 1;
                        }
                    },
                    ShareKey::Right => {
                        if config.title_cursor < len {
                            config.title_cursor = config.title_cursor + 1;
                        }
                    },
                    ShareKey::Home => {
                        config.title_cursor = 0;
                    },
                    ShareKey::End => {
                        config.title_cursor = len;
                    },
                    _ => {},
                }
            } else if *focused_field == 1 {
                match key {
                    ShareKey::Up | ShareKey::Char('k') => {
                        config.scope_selection =
                        match config.scope_selection {
                            ShareScope::SinglePrompt => ShareScope::SinglePrompt,
                            ShareScope::AllInCommit => ShareScope::SinglePrompt,
                            ShareScope::AllInPR => {
                                if config.can_share_commit {
                                    ShareScope::AllInCommit
                                } else {
                                    ShareScope::SinglePrompt
                                }
                            },
                        };
                    },
                    ShareKey::Down | ShareKey::Char('j') => {
                        config.scope_selection =
                        match config.scope_selection {
                            ShareScope::SinglePrompt => {
                                if config.can_share_commit {
                                    ShareScope::AllInCommit
                                } else {
                                    ShareScope::AllInPR
                                }
                            },
                            ShareScope::AllInCommit => ShareScope::AllInPR,
                            ShareScope::AllInPR => ShareScope::AllInPR,
                        };
                    },
                    _ => {},
                }
            }
            ConfigKeyResult::Continue
        },
    }
}

/// Whether a share of the chosen scope takes every prompt of the commit: `Some(true)` for
/// the commit, `Some(false)` for the single prompt, and `None` for a pull request, whose
/// bundles cannot be made.
pub fn include_all_in_commit(scope: ShareScope) -> (r: Option<bool>)
    ensures
        r == (match scope {
            ShareScope::SinglePrompt => Some(false),
            ShareScope::AllInCommit => Some(true),
            ShareScope::AllInPR => None::<bool>,
        }),
{
    match scope {
        ShareScope::SinglePrompt => Some(false),
        ShareScope::AllInCommit => Some(true),
        ShareScope::AllInPR => None,
    }
}

} // verus!
