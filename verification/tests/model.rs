use herdr_picker::history::History;
use herdr_picker::model::{subsequence, App, Item, LoadState, PreviewState, SortOrder, Tab, Target};
use herdr_picker::text::normalize;

fn item(id: &str, search: &str) -> Item {
    Item {
        id: id.into(),
        label: id.into(),
        detail: String::new(),
        search: search.into(),
        preview_pane: None,
        match_paths: Vec::new(),
        target: Target::Workspace { id: id.into() },
    }
}

fn ids(app: &App) -> Vec<String> {
    app.filtered().iter().map(|item| item.id.clone()).collect()
}

#[test]
fn filtering_is_case_insensitive_subsequence_matching() {
    let mut app = App::new(Tab::Workspaces);
    app.set_items(
        Tab::Workspaces,
        vec![item("one", "Dot Files"), item("two", "docs")],
    );
    app.state_mut().query = "dtf".into();
    app.reconcile_selection();
    assert_eq!(app.selected().unwrap().id, "one");
}

#[test]
fn query_and_stable_selection_are_independent_per_tab() {
    let mut app = App::new(Tab::Workspaces);
    app.set_items(Tab::Workspaces, vec![item("w1", "one"), item("w2", "two")]);
    app.move_selection(1);
    app.state_mut().query = "w".into();
    app.switch_tab(Tab::Agents);
    app.set_items(Tab::Agents, vec![item("a1", "agent")]);
    app.state_mut().query = "agent".into();
    app.switch_tab(Tab::Workspaces);
    assert_eq!(app.state().query, "w");
    assert_eq!(app.state().selected_id.as_deref(), Some("w2"));
}

#[test]
fn stale_preview_is_ignored() {
    let mut app = App::new(Tab::Workspaces);
    app.preview_generation = 4;
    app.apply_preview(3, PreviewState::Ready("old".into()));
    assert_eq!(app.preview, PreviewState::Empty);
    app.apply_preview(4, PreviewState::Ready("new".into()));
    assert_eq!(app.preview, PreviewState::Ready("new".into()));
}

#[test]
fn canonicalish_normalizes_nonexistent_paths() {
    assert_eq!(normalize("/tmp/a/../b/./c"), "/tmp/b/c");
}

#[test]
fn preview_identity_changes_when_best_pane_changes_for_same_item() {
    let mut item = item("w1", "workspace");
    item.preview_pane = Some("p1".into());
    let first = item.preview_identity();
    item.preview_pane = Some("p2".into());
    assert_ne!(first, item.preview_identity());
    assert!(!first.same(&item.preview_identity()));
}

#[test]
fn workspace_identity_survives_a_display_error() {
    let mut app = App::new(Tab::Workspaces);
    app.set_items(Tab::Workspaces, vec![item("w1", "workspace")]);
    app.tabs[Tab::Workspaces.index()].source = LoadState::Error("refresh failed".into());
    assert_eq!(app.workspace_identity()[0].id, "w1");
}

#[test]
fn subsequence_needs_every_needle_character_in_order() {
    assert!(subsequence("", "anything"));
    assert!(subsequence("dtf", "dot files"));
    assert!(!subsequence("ftd", "dot files"));
    assert!(!subsequence("dots", "dot"));
}

#[test]
fn shown_rows_are_the_matches_once_each_in_source_order() {
    let mut app = App::new(Tab::Workspaces);
    app.set_items(
        Tab::Workspaces,
        vec![item("a", "alpha"), item("b", "beta"), item("c", "gamma"), item("d", "alphabet")],
    );
    app.state_mut().query = "AL".into();
    assert_eq!(ids(&app), vec!["a", "d"]);
    assert_eq!(app.shown_positions(), vec![0, 3]);
    app.state_mut().query = "zzz".into();
    assert!(app.filtered().is_empty());
}

#[test]
fn shown_rows_follow_recent_confirmations_then_source_order() {
    let items = vec![item("a", "a"), item("b", "b"), item("c", "c")];
    let mut history = History::new();
    history.observe(&items, 10);
    history.access(&items[2].history_key(), 30);
    history.access(&items[1].history_key(), 20);
    let mut app = App::new(Tab::Workspaces);
    app.set_history(history);
    app.set_items(Tab::Workspaces, items);
    assert_eq!(ids(&app), vec!["c", "b", "a"]);
}

#[test]
fn age_orders_use_first_sightings() {
    let items = vec![item("old", "old"), item("new", "new"), item("mid", "mid")];
    let mut history = History::new();
    history.observe(&items[0..1], 10);
    history.observe(&items[2..3], 20);
    history.observe(&items[1..2], 30);
    let mut app = App::new(Tab::Workspaces);
    app.set_history(history);
    app.set_items(Tab::Workspaces, items);
    app.cycle_sort();
    assert_eq!(app.state().sort, SortOrder::AgeAscending);
    assert_eq!(ids(&app), vec!["new", "mid", "old"]);
    app.cycle_sort();
    assert_eq!(app.state().sort, SortOrder::AgeDescending);
    assert_eq!(ids(&app), vec!["old", "mid", "new"]);
    app.cycle_sort();
    assert_eq!(app.state().sort, SortOrder::Recent);
}

#[test]
fn selection_falls_back_to_the_first_row_and_clears_when_nothing_shows() {
    let mut app = App::new(Tab::Workspaces);
    app.set_items(Tab::Workspaces, vec![item("one", "one"), item("two", "two")]);
    assert_eq!(app.state().selected_id.as_deref(), Some("one"));
    app.move_selection(1);
    assert_eq!(app.selected().unwrap().id, "two");
    app.state_mut().query = "on".into();
    app.reconcile_selection();
    assert_eq!(app.state().selected_id.as_deref(), Some("one"));
    app.state_mut().query = "nothing".into();
    app.reconcile_selection();
    assert_eq!(app.state().selected_id, None);
    assert!(app.selected().is_none());
    app.move_selection(1);
    assert_eq!(app.state().selected_id, None);
}

#[test]
fn moving_wraps_at_both_ends() {
    let mut app = App::new(Tab::Workspaces);
    app.set_items(
        Tab::Workspaces,
        vec![item("one", "one"), item("two", "two"), item("three", "three")],
    );
    app.move_selection(-1);
    assert_eq!(app.state().selected_id.as_deref(), Some("three"));
    app.move_selection(1);
    assert_eq!(app.state().selected_id.as_deref(), Some("one"));
    app.move_selection(5);
    assert_eq!(app.state().selected_id.as_deref(), Some("three"));
    app.move_selection(-7);
    assert_eq!(app.state().selected_id.as_deref(), Some("two"));
}

#[test]
fn reconciling_twice_changes_nothing() {
    let mut app = App::new(Tab::Workspaces);
    app.set_items(Tab::Workspaces, vec![item("one", "one"), item("two", "two")]);
    app.move_selection(1);
    app.reconcile_selection();
    let once = app.state().selected_id.clone();
    app.reconcile_selection();
    assert_eq!(app.state().selected_id, once);
    assert_eq!(once.as_deref(), Some("two"));
}

#[test]
fn adjacent_tabs_wrap_and_step_back() {
    assert_eq!(Tab::Workspaces.adjacent(-1), Tab::Zoxide);
    assert_eq!(Tab::Zoxide.adjacent(1), Tab::Workspaces);
    assert_eq!(Tab::Agents.adjacent(4), Tab::Zoxide);
    for tab in Tab::ALL {
        for delta in [-5isize, -1, 0, 1, 2, 7] {
            assert_eq!(tab.adjacent(delta).adjacent(-delta), tab);
        }
    }
    assert_eq!(Tab::Agents.index(), 1);
    assert_eq!(Tab::Zoxide.label(), "Zoxide");
}

#[test]
fn other_tabs_keep_their_state_when_one_loads() {
    let mut app = App::new(Tab::Workspaces);
    app.set_items(Tab::Agents, vec![item("a1", "agent")]);
    assert_eq!(app.tabs[Tab::Agents.index()].selected_id, None);
    assert_eq!(app.tabs[Tab::Workspaces.index()].source, LoadState::Loading);
    assert!(app.workspace_identity().is_empty());
    app.switch_tab(Tab::Agents);
    assert_eq!(app.state().selected_id.as_deref(), Some("a1"));
}
