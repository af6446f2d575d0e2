use git_ai::share_config::{
    handle_config_key_event, include_all_in_commit, ConfigKeyResult, ShareConfig, ShareKey, ShareScope,
};

fn config(title: &str, cursor: usize, can_share_commit: bool) -> ShareConfig {
    ShareConfig {
        title: title.to_string(),
        title_cursor: cursor,
        scope_selection: ShareScope::SinglePrompt,
        can_share_commit,
    }
}

#[test]
fn escape_goes_back_and_enter_submits() {
    let mut c = config("t", 0, true);
    let mut f = 0usize;
    assert_eq!(handle_config_key_event(&mut c, &mut f, ShareKey::Esc), ConfigKeyResult::Back);
    assert_eq!(handle_config_key_event(&mut c, &mut f, ShareKey::Enter), ConfigKeyResult::Submit);
    assert_eq!(c.title, "t");
}

#[test]
fn tab_switches_fields() {
    let mut c = config("t", 0, true);
    let mut f = 0usize;
    assert_eq!(handle_config_key_event(&mut c, &mut f, ShareKey::Tab), ConfigKeyResult::Continue);
    assert_eq!(f, 1);
    handle_config_key_event(&mut c, &mut f, ShareKey::Tab);
    assert_eq!(f, 0);
    handle_config_key_event(&mut c, &mut f, ShareKey::BackTab);
    assert_eq!(f, 1);
    handle_config_key_event(&mut c, &mut f, ShareKey::BackTab);
    assert_eq!(f, 0);
}

#[test]
fn title_editing_moves_the_cursor() {
    let mut c = config("ac", 1, true);
    let mut f = 0usize;
    handle_config_key_event(&mut c, &mut f, ShareKey::Char('b'));
    assert_eq!((c.title.as_str(), c.title_cursor), ("abc", 2));
    handle_config_key_event(&mut c, &mut f, ShareKey::Backspace);
    assert_eq!((c.title.as_str(), c.title_cursor), ("ac", 1));
    handle_config_key_event(&mut c, &mut f, ShareKey::Left);
    handle_config_key_event(&mut c, &mut f, ShareKey::Left);
    assert_eq!(c.title_cursor, 0);
    handle_config_key_event(&mut c, &mut f, ShareKey::Backspace);
    assert_eq!((c.title.as_str(), c.title_cursor), ("ac", 0));
    handle_config_key_event(&mut c, &mut f, ShareKey::End);
    assert_eq!(c.title_cursor, 2);
    handle_config_key_event(&mut c, &mut f, ShareKey::Right);
    assert_eq!(c.title_cursor, 2);
    handle_config_key_event(&mut c, &mut f, ShareKey::Home);
    assert_eq!(c.title_cursor, 0);
    handle_config_key_event(&mut c, &mut f, ShareKey::Char('k'));
    assert_eq!(c.title, "kac");
    assert_eq!(c.scope_selection, ShareScope::SinglePrompt);
}

#[test]
fn scope_moves_with_arrows_and_vi_keys() {
    let mut c = config("t", 0, true);
    let mut f = 1usize;
    handle_config_key_event(&mut c, &mut f, ShareKey::Down);
    assert_eq!(c.scope_selection, ShareScope::AllInCommit);
    handle_config_key_event(&mut c, &mut f, ShareKey::Char('j'));
    assert_eq!(c.scope_selection, ShareScope::AllInPR);
    handle_config_key_event(&mut c, &mut f, ShareKey::Down);
    assert_eq!(c.scope_selection, ShareScope::AllInPR);
    handle_config_key_event(&mut c, &mut f, ShareKey::Char('k'));
    assert_eq!(c.scope_selection, ShareScope::AllInCommit);
    handle_config_key_event(&mut c, &mut f, ShareKey::Up);
    assert_eq!(c.scope_selection, ShareScope::SinglePrompt);
    assert_eq!(c.title, "t");
}

#[test]
fn commit_scope_is_skipped_when_it_cannot_be_shared() {
    let mut c = config("t", 0, false);
    let mut f = 1usize;
    handle_config_key_event(&mut c, &mut f, ShareKey::Down);
    assert_eq!(c.scope_selection, ShareScope::AllInPR);
    handle_config_key_event(&mut c, &mut f, ShareKey::Up);
    assert_eq!(c.scope_selection, ShareScope::SinglePrompt);
}

#[test]
fn scope_decides_the_bundle() {
    assert_eq!(include_all_in_commit(ShareScope::SinglePrompt), Some(false));
    assert_eq!(include_all_in_commit(ShareScope::AllInCommit), Some(true));
    assert_eq!(include_all_in_commit(ShareScope::AllInPR), None);
}
