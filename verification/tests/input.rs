use herdr_picker::input::{Effect, KeyCode, KeyEvent, KeyModifiers, Reducer, PREFIX_TIMEOUT_MS};
use herdr_picker::model::{App, Item, SortOrder, Tab, Target};

const NOW: u64 = 1_000_000;

fn key(code: KeyCode, modifiers: KeyModifiers) -> KeyEvent {
    KeyEvent::new(code, modifiers)
}

fn test_item(id: &str) -> Item {
    Item {
        id: id.into(),
        label: id.into(),
        detail: String::new(),
        search: id.into(),
        preview_pane: None,
        match_paths: Vec::new(),
        target: Target::Workspace { id: id.into() },
    }
}

#[test]
fn printable_keys_type_immediately_by_default() {
    let mut app = App::new(Tab::Workspaces);
    Reducer::new().key(&mut app, key(KeyCode::Char('x'), KeyModifiers::none()), NOW);
    assert_eq!(app.state().query, "x");
}

#[test]
fn prefix_chords_switch_or_close() {
    let now = NOW;
    let mut reducer = Reducer::new();
    let mut app = App::new(Tab::Workspaces);
    reducer.key(&mut app, key(KeyCode::Null, KeyModifiers::none()), now);
    assert_eq!(
        reducer.key(&mut app, key(KeyCode::Char('S'), KeyModifiers::shift()), now),
        Effect::SelectionChanged
    );
    assert_eq!(app.tab, Tab::Agents);
    reducer.key(&mut app, key(KeyCode::Null, KeyModifiers::none()), now);
    assert_eq!(
        reducer.key(&mut app, key(KeyCode::Char('s'), KeyModifiers::shift()), now),
        Effect::Close
    );
}

#[test]
fn prefix_s_closes_workspaces_when_already_active() {
    let now = NOW;
    let mut reducer = Reducer::new();
    let mut app = App::new(Tab::Workspaces);
    reducer.key(&mut app, key(KeyCode::Char(' '), KeyModifiers::control()), now);
    assert_eq!(
        reducer.key(&mut app, key(KeyCode::Char('s'), KeyModifiers::none()), now),
        Effect::Close
    );
}

#[test]
fn ctrl_navigation_keys_move_tabs_and_items() {
    let now = NOW;
    let mut reducer = Reducer::new();
    let mut app = App::new(Tab::Workspaces);
    app.set_items(Tab::Workspaces, vec![test_item("one"), test_item("two")]);
    reducer.key(&mut app, key(KeyCode::Char('l'), KeyModifiers::control()), now);
    assert_eq!(app.tab, Tab::Agents);
    reducer.key(&mut app, key(KeyCode::Char('h'), KeyModifiers::control()), now);
    assert_eq!(app.tab, Tab::Workspaces);
    reducer.key(&mut app, key(KeyCode::Char('j'), KeyModifiers::control()), now);
    assert_eq!(app.state().selected_id.as_deref(), Some("two"));
    reducer.key(&mut app, key(KeyCode::Char('k'), KeyModifiers::control()), now);
    assert_eq!(app.state().selected_id.as_deref(), Some("one"));
}

#[test]
fn backspace_edits_but_ctrl_h_changes_tabs() {
    let now = NOW;
    let mut reducer = Reducer::new();
    let mut app = App::new(Tab::Agents);
    app.state_mut().query = "ab".into();
    reducer.key(&mut app, key(KeyCode::Backspace, KeyModifiers::none()), now);
    assert_eq!(app.state().query, "a");
    reducer.key(&mut app, key(KeyCode::Char('h'), KeyModifiers::control()), now);
    assert_eq!(app.tab, Tab::Workspaces);
}

#[test]
fn escape_and_ctrl_c_close() {
    for event in [
        key(KeyCode::Esc, KeyModifiers::none()),
        key(KeyCode::Char('c'), KeyModifiers::control()),
    ] {
        let mut app = App::new(Tab::Workspaces);
        assert_eq!(Reducer::new().key(&mut app, event, NOW), Effect::Close);
        assert!(app.should_close);
    }
}

#[test]
fn expired_prefix_does_not_consume_following_text() {
    let now = NOW;
    let mut reducer = Reducer::new();
    let mut app = App::new(Tab::Workspaces);
    reducer.key(&mut app, key(KeyCode::Null, KeyModifiers::none()), now);
    reducer.key(
        &mut app,
        key(KeyCode::Char('s'), KeyModifiers::none()),
        now + PREFIX_TIMEOUT_MS,
    );
    assert_eq!(app.state().query, "s");
    assert!(!app.pending_prefix);
}

#[test]
fn ghostty_kitty_shift_s_event_opens_agents() {
    let now = NOW;
    let mut reducer = Reducer::new();
    let mut app = App::new(Tab::Zoxide);
    reducer.key(&mut app, key(KeyCode::Null, KeyModifiers::none()), now);
    let shifted_s = KeyEvent::new(KeyCode::Char('S'), KeyModifiers::shift());
    assert_eq!(reducer.key(&mut app, shifted_s, now), Effect::SelectionChanged);
    assert_eq!(app.tab, Tab::Agents);
}

#[test]
fn ctrl_p_moves_up_with_wrap_while_plain_p_types() {
    let now = NOW;
    let mut reducer = Reducer::new();
    let mut app = App::new(Tab::Workspaces);
    app.set_items(Tab::Workspaces, vec![test_item("one"), test_item("two")]);
    reducer.key(&mut app, key(KeyCode::Char('p'), KeyModifiers::control()), now);
    assert_eq!(app.state().selected_id.as_deref(), Some("two"));
    reducer.key(&mut app, key(KeyCode::Char('p'), KeyModifiers::none()), now);
    assert_eq!(app.state().query, "p");
}

#[test]
fn ctrl_o_cycles_sort_without_editing_query() {
    let now = NOW;
    let mut reducer = Reducer::new();
    let mut app = App::new(Tab::Workspaces);
    app.state_mut().query = "text".into();
    for expected in [SortOrder::AgeAscending, SortOrder::AgeDescending, SortOrder::Recent] {
        reducer.key(&mut app, key(KeyCode::Char('o'), KeyModifiers::control()), now);
        assert_eq!(app.state().sort, expected);
        assert_eq!(app.state().query, "text");
    }
}

#[test]
fn ctrl_shortcut_modifier_matrix_is_consistent() {
    let now = NOW;
    for (code, modifiers) in [
        (KeyCode::Char('p'), KeyModifiers::control()),
        (KeyCode::Char('P'), KeyModifiers::control().union(KeyModifiers::shift())),
    ] {
        let mut app = App::new(Tab::Workspaces);
        app.set_items(Tab::Workspaces, vec![test_item("one"), test_item("two")]);
        Reducer::new().key(&mut app, key(code, modifiers), now);
        assert_eq!(app.state().selected_id.as_deref(), Some("two"));
    }
    for (code, modifiers, expected) in [
        (KeyCode::Char('p'), KeyModifiers::none(), "p"),
        (KeyCode::Char('P'), KeyModifiers::shift(), "P"),
        (KeyCode::Char('o'), KeyModifiers::none(), "o"),
        (KeyCode::Char('O'), KeyModifiers::shift(), "O"),
    ] {
        let mut app = App::new(Tab::Workspaces);
        Reducer::new().key(&mut app, key(code, modifiers), now);
        assert_eq!(app.state().query, expected);
    }
    for forbidden in [
        KeyModifiers::alt(),
        KeyModifiers::super_key(),
        KeyModifiers::meta(),
        KeyModifiers::hyper(),
    ] {
        for character in ['P', 'O'] {
            let mut app = App::new(Tab::Workspaces);
            app.set_items(Tab::Workspaces, vec![test_item("one"), test_item("two")]);
            Reducer::new().key(
                &mut app,
                key(KeyCode::Char(character), KeyModifiers::control().union(forbidden)),
                now,
            );
            assert_eq!(app.state().selected_id.as_deref(), Some("one"));
            assert_eq!(app.state().sort, SortOrder::Recent);
            assert!(app.state().query.is_empty());
        }
    }
}

#[test]
fn ctrl_shift_o_cycles_sort() {
    let mut app = App::new(Tab::Workspaces);
    Reducer::new().key(
        &mut app,
        key(KeyCode::Char('O'), KeyModifiers::control().union(KeyModifiers::shift())),
        NOW,
    );
    assert_eq!(app.state().sort, SortOrder::AgeAscending);
    assert!(app.state().query.is_empty());
}

#[test]
fn prefix_rejects_extra_modifiers() {
    let now = NOW;
    for forbidden in [
        KeyModifiers::alt(),
        KeyModifiers::super_key(),
        KeyModifiers::meta(),
        KeyModifiers::hyper(),
    ] {
        let mut app = App::new(Tab::Workspaces);
        let mut reducer = Reducer::new();
        reducer.key(
            &mut app,
            key(KeyCode::Char(' '), KeyModifiers::control().union(forbidden)),
            now,
        );
        assert!(!app.pending_prefix);
        reducer.key(&mut app, key(KeyCode::Null, forbidden), now);
        assert!(!app.pending_prefix);
    }
}

#[test]
fn pending_prefix_expires_after_the_timeout_only() {
    let mut reducer = Reducer::new();
    let mut app = App::new(Tab::Workspaces);
    reducer.key(&mut app, key(KeyCode::Null, KeyModifiers::none()), NOW);
    assert!(app.pending_prefix);
    reducer.expire_prefix(&mut app, NOW + PREFIX_TIMEOUT_MS - 1);
    assert!(app.pending_prefix);
    reducer.expire_prefix(&mut app, NOW + PREFIX_TIMEOUT_MS);
    assert!(!app.pending_prefix);
    assert_eq!(reducer.prefix_at, None);
}

#[test]
fn enter_confirms_and_other_keys_do_nothing() {
    let mut app = App::new(Tab::Workspaces);
    let mut reducer = Reducer::new();
    assert_eq!(reducer.key(&mut app, key(KeyCode::Enter, KeyModifiers::none()), NOW), Effect::Confirm);
    assert_eq!(reducer.key(&mut app, key(KeyCode::Other, KeyModifiers::none()), NOW), Effect::Nothing);
    assert_eq!(
        reducer.key(&mut app, key(KeyCode::Char('x'), KeyModifiers::alt()), NOW),
        Effect::Nothing
    );
    assert!(app.state().query.is_empty());
    assert_eq!(reducer.key(&mut app, key(KeyCode::Char('u'), KeyModifiers::control()), NOW), Effect::SelectionChanged);
}

#[test]
fn ctrl_u_clears_the_query() {
    let mut app = App::new(Tab::Workspaces);
    app.state_mut().query = "abc".into();
    Reducer::new().key(&mut app, key(KeyCode::Char('u'), KeyModifiers::control()), NOW);
    assert!(app.state().query.is_empty());
}
