use std::sync::Mutex;

use herdr_picker::model::{App, Item, LoadState, PreviewState, Tab, Target};
use herdr_picker::provider::confirm_args;
use herdr_picker::runtime::{
    apply_refresh, parse_tab, preview_changed, preview_source, refresh_due, request_preview,
    request_refresh, PreviewRequest,
    PreviewSource, RefreshScheduler,
};

fn test_item() -> Item {
    Item {
        id: "w1".into(),
        label: "one".into(),
        detail: String::new(),
        search: String::new(),
        preview_pane: None,
        match_paths: Vec::new(),
        target: Target::Workspace { id: "w1".into() },
    }
}

fn empty_sources() -> [Result<Vec<Item>, String>; 3] {
    std::array::from_fn(|_| Ok(Vec::new()))
}

#[test]
fn repeated_refresh_demand_is_one_in_flight_plus_one_deferred() {
    let mut app = App::new(Tab::Workspaces);
    let mut scheduler = RefreshScheduler::default();
    assert_eq!(scheduler.demand(&mut app), Some(1));
    for _ in 0..100 {
        assert_eq!(scheduler.demand(&mut app), None);
    }
    assert_eq!(app.refresh_generation, 1);
    assert_eq!(scheduler.complete(&mut app), Some(2));
    assert_eq!(scheduler.complete(&mut app), None);
}

#[test]
fn slow_initial_refresh_remains_current_and_is_applied() {
    let mut app = App::new(Tab::Workspaces);
    let mut scheduler = RefreshScheduler::default();
    let generation = scheduler.demand(&mut app).unwrap();
    assert_eq!(scheduler.demand(&mut app), None);
    apply_refresh(&mut app, generation, empty_sources());
    assert_eq!(app.tabs[0].source, LoadState::Ready(Vec::new()));
}

#[test]
fn stale_refresh_does_not_replace_newer_data() {
    let mut app = App::new(Tab::Workspaces);
    app.refresh_generation = 2;
    apply_refresh(&mut app, 1, empty_sources());
    assert_eq!(app.tabs[0].source, LoadState::Loading);
}

#[test]
fn latest_preview_slot_is_bounded() {
    let slot = Mutex::new(None);
    for generation in 1..=100 {
        *slot.lock().unwrap() = Some(PreviewRequest {
            generation,
            item: test_item(),
        });
    }
    let pending = slot.lock().unwrap();
    assert_eq!(pending.as_ref().unwrap().generation, 100);
}

#[test]
fn failed_refresh_keeps_workspace_identity_for_zoxide_confirmation() {
    let mut app = App::new(Tab::Workspaces);
    app.refresh_generation = 1;
    let mut workspace = test_item();
    workspace.match_paths = vec!["/tmp/project".into()];
    apply_refresh(&mut app, 1, [Ok(vec![workspace]), Ok(Vec::new()), Ok(Vec::new())]);
    app.refresh_generation = 2;
    apply_refresh(
        &mut app,
        2,
        std::array::from_fn(|_| Err("transient failure".into())),
    );
    assert!(matches!(app.tabs[0].source, LoadState::Error(_)));
    let args = confirm_args(
        &Target::Directory { path: "/tmp/project".into() },
        "/tmp/project",
        app.workspace_identity(),
    );
    assert_eq!(args, ["workspace", "focus", "w1"]);
}

#[test]
fn initial_failed_refresh_has_no_workspace_identity() {
    let mut app = App::new(Tab::Workspaces);
    app.refresh_generation = 1;
    apply_refresh(
        &mut app,
        1,
        std::array::from_fn(|_| Err("initial failure".into())),
    );
    assert!(app.workspace_identity().is_empty());
}

#[test]
fn refresh_selects_in_the_active_tab_only() {
    let mut app = App::new(Tab::Agents);
    app.refresh_generation = 3;
    let mut agent = test_item();
    agent.id = "a1".into();
    apply_refresh(
        &mut app,
        3,
        [Ok(vec![test_item()]), Ok(vec![agent]), Err("no zoxide".into())],
    );
    assert_eq!(app.tabs[0].selected_id, None);
    assert_eq!(app.tabs[1].selected_id.as_deref(), Some("a1"));
    assert_eq!(app.tabs[2].source, LoadState::Error("no zoxide".into()));
    assert_eq!(app.workspace_identity().len(), 1);
}

#[test]
fn refresh_requests_show_loading_until_something_loaded() {
    let mut app = App::new(Tab::Workspaces);
    let mut scheduler = RefreshScheduler::default();
    assert_eq!(request_refresh(&mut app, &mut scheduler), Some(1));
    assert_eq!(app.preview, PreviewState::Loading);
    assert_eq!(request_refresh(&mut app, &mut scheduler), None);
    assert!(scheduler.deferred);
    apply_refresh(&mut app, 1, empty_sources());
    app.preview = PreviewState::Empty;
    assert_eq!(scheduler.complete(&mut app), Some(2));
    assert_eq!(request_refresh(&mut app, &mut scheduler), None);
    assert_eq!(app.preview, PreviewState::Empty);
}

#[test]
fn preview_requests_take_the_next_generation() {
    let mut app = App::new(Tab::Workspaces);
    app.preview_generation = u64::MAX;
    let (generation, item) = request_preview(&mut app);
    assert_eq!(generation, 0);
    assert!(item.is_none());
    assert_eq!(app.preview, PreviewState::Empty);
    app.set_items(Tab::Workspaces, vec![test_item()]);
    let (generation, item) = request_preview(&mut app);
    assert_eq!(generation, 1);
    assert_eq!(app.preview_generation, 1);
    assert_eq!(item.unwrap().id, "w1");
    assert_eq!(app.preview, PreviewState::Loading);
}

#[test]
fn preview_sources_prefer_panes_then_directories() {
    let mut item = test_item();
    assert!(matches!(preview_source(&item), PreviewSource::Blank));
    item.target = Target::Directory { path: "/tmp".into() };
    assert!(matches!(preview_source(&item), PreviewSource::Directory(path) if path == "/tmp"));
    item.preview_pane = Some("p1".into());
    assert!(matches!(preview_source(&item), PreviewSource::Pane(pane) if pane == "p1"));
}

#[test]
fn tab_names_are_case_insensitive() {
    assert_eq!(parse_tab("agents"), Tab::Agents);
    assert_eq!(parse_tab("AGENTS"), Tab::Agents);
    assert_eq!(parse_tab("Agents"), Tab::Agents);
    assert_eq!(parse_tab("agent"), Tab::Workspaces);
    assert_eq!(parse_tab("zoxide"), Tab::Workspaces);
    assert_eq!(parse_tab("agentsx"), Tab::Workspaces);
    assert_eq!(parse_tab(""), Tab::Workspaces);
}

#[test]
fn refreshes_come_every_three_seconds_and_previews_follow_the_selection() {
    assert!(!refresh_due(1_000, 3_999));
    assert!(refresh_due(1_000, 4_000));
    assert!(!refresh_due(5_000, 4_000));
    let first = test_item().preview_identity();
    let mut moved = test_item();
    moved.preview_pane = Some("p2".into());
    let second = moved.preview_identity();
    assert!(!preview_changed(&Some(first.clone()), &Some(first.clone())));
    assert!(preview_changed(&Some(first.clone()), &Some(second)));
    assert!(preview_changed(&None, &Some(first)));
    assert!(!preview_changed(&None, &None));
}
