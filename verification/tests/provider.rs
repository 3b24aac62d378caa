use herdr_picker::model::{Item, Target};
use herdr_picker::provider::{
    agent_items, combine_sources, confirm_args, directory_text, name_less, status_priority, workspace_for_path,
    workspace_items, zoxide_items, Agent, Pane, Workspace, ZoxideOutcome,
};
use herdr_picker::text::{normalize, zoxide_paths};

/// Directory rows of zoxide output, each identified by its path resolved
/// lexically, as the picker resolves directories that do not exist.
fn parse_zoxide(raw: &str) -> Vec<Item> {
    let paths = zoxide_paths(raw);
    let resolved: Vec<String> = paths.iter().map(|path| normalize(path)).collect();
    zoxide_items(&paths, &resolved)
}

fn workspace(id: &str, label: &str, cwd: Option<&str>) -> Workspace {
    Workspace {
        id: id.into(),
        label: label.into(),
        cwd: cwd.map(String::from),
        foreground_cwd: None,
        focused: false,
        resolved_cwd: cwd.map(normalize),
        resolved_foreground_cwd: None,
    }
}

fn pane(id: &str, workspace_id: &str, cwd: Option<&str>, foreground_cwd: Option<&str>) -> Pane {
    Pane {
        id: id.into(),
        workspace_id: workspace_id.into(),
        cwd: cwd.map(String::from),
        foreground_cwd: foreground_cwd.map(String::from),
        agent_status: None,
        state_change_seq: 0,
        focused: false,
        resolved_cwd: cwd.map(normalize),
        resolved_foreground_cwd: foreground_cwd.map(normalize),
    }
}

fn agent(pane: &str, status: Option<&str>, seq: u64) -> Agent {
    Agent {
        pane: pane.into(),
        workspace_id: None,
        kind: None,
        status: status.map(String::from),
        terminal_title_stripped: None,
        cwd: None,
        state_change_seq: seq,
    }
}

#[test]
fn parses_wrapped_sources_and_agent_priority() {
    let workspaces = vec![workspace("w1", "one", None)];
    let agents = vec![agent("p1", Some("idle"), 9), agent("p2", Some("blocked"), 1)];
    assert_eq!(agent_items(&agents, &workspaces, None)[0].id, "p2");
}

#[test]
fn zoxide_parser_keeps_paths_with_spaces() {
    let items = parse_zoxide("42.0 /tmp/a project\n");
    assert_eq!(items[0].detail, "/tmp/a project");
}

#[test]
fn zoxide_action_focuses_normalized_existing_workspace() {
    let workspace = Item {
        id: "w1".into(),
        label: "one".into(),
        detail: "/tmp/a/b".into(),
        search: String::new(),
        preview_pane: None,
        match_paths: vec![normalize("/tmp/a/b")],
        target: Target::Workspace { id: "w1".into() },
    };
    assert_eq!(
        workspace_for_path(&normalize("/tmp/a/x/../b"), &[workspace]),
        Some("w1")
    );
}

#[test]
fn workspace_matching_uses_all_pane_and_foreground_paths() {
    let workspaces = vec![workspace("w1", "one", Some("/tmp/root"))];
    let mut first = pane("p1", "w1", Some("/tmp/old"), Some("/tmp/new"));
    first.focused = true;
    let panes = vec![first, pane("p2", "w1", Some("/tmp/second"), None)];
    let items = workspace_items(&workspaces, &panes, None);
    assert_eq!(items[0].detail, "/tmp/new");
    for path in ["/tmp/root", "/tmp/old", "/tmp/new", "/tmp/second"] {
        assert_eq!(workspace_for_path(&normalize(path), &items), Some("w1"));
    }
}

#[test]
fn missing_zoxide_does_not_fail_herdr_sources() {
    let sources = combine_sources(
        Ok(Vec::new()),
        Ok(Vec::new()),
        Ok(Vec::new()),
        ZoxideOutcome::Missing,
        None,
    );
    assert!(sources[0].is_ok());
    assert!(sources[1].is_ok());
    assert_eq!(sources[2].as_ref().unwrap_err(), "zoxide is unavailable");
}

#[test]
fn directory_create_passes_path_as_one_argv_value() {
    let args = confirm_args(
        &Target::Directory { path: "/tmp/a project".into() },
        "/tmp/a project",
        &[],
    );
    assert!(args.contains(&"/tmp/a project".to_string()));
    assert_eq!(
        args,
        ["workspace", "create", "--cwd", "/tmp/a project", "--label", "a project", "--focus"]
    );
}

#[test]
fn status_priority_ranks_attention() {
    assert_eq!(status_priority("blocked"), 4);
    assert_eq!(status_priority("done"), 3);
    assert_eq!(status_priority("working"), 2);
    assert_eq!(status_priority("idle"), 1);
    assert_eq!(status_priority("unknown"), 0);
    assert_eq!(status_priority("Blocked"), 0);
}

#[test]
fn workspace_rows_prefer_focused_then_busiest_panes() {
    let mut focused_ws = workspace("w1", "one", Some("/tmp/root"));
    focused_ws.focused = true;
    let quiet_ws = workspace("w2", "two", None);
    let lonely_ws = workspace("w3", "three", None);
    let mut busy = pane("p1", "w2", Some("/tmp/busy"), None);
    busy.agent_status = Some("working".into());
    busy.state_change_seq = 5;
    let mut later = pane("p2", "w2", Some("/tmp/later"), None);
    later.agent_status = Some("working".into());
    later.state_change_seq = 5;
    let mut blocked = pane("p3", "w2", None, None);
    blocked.agent_status = Some("idle".into());
    blocked.state_change_seq = 100;
    let own = pane("me", "w1", Some("/tmp/me"), None);
    let panes = vec![busy, later, blocked, own];
    let items = workspace_items(&[focused_ws, quiet_ws, lonely_ws], &panes, Some("me"));
    assert_eq!(items.len(), 3);
    assert_eq!(items[0].preview_pane, None);
    assert_eq!(items[0].detail, "");
    assert_eq!(items[0].search, "one  focused");
    assert_eq!(items[0].match_paths, vec!["/tmp/root"]);
    assert_eq!(items[1].preview_pane.as_deref(), Some("p2"));
    assert_eq!(items[1].detail, "/tmp/later");
    assert_eq!(items[1].search, "two /tmp/later ");
    assert_eq!(items[1].match_paths, vec!["/tmp/busy", "/tmp/later"]);
    assert_eq!(items[2].preview_pane, None);
    assert_eq!(items[2].target, Target::Workspace { id: "w3".into() });
}

#[test]
fn match_paths_are_listed_once() {
    let mut ws = workspace("w1", "one", Some("/tmp/a"));
    ws.foreground_cwd = Some("/tmp/a/".into());
    ws.resolved_foreground_cwd = Some(normalize("/tmp/a/"));
    let panes = vec![pane("p1", "w1", Some("/tmp/a"), Some("/tmp/b")), pane("p2", "w1", Some("/tmp/b"), None)];
    let items = workspace_items(&[ws], &panes, None);
    assert_eq!(items[0].match_paths, vec!["/tmp/a", "/tmp/b"]);
}

#[test]
fn agent_rows_describe_and_order_agents() {
    let workspaces = vec![workspace("w1", "one", None), workspace("w1", "shadow", None)];
    let mut first = agent("p1", Some("working"), 3);
    first.workspace_id = Some("w1".into());
    first.kind = Some("builder".into());
    first.terminal_title_stripped = Some("fix bug".into());
    first.cwd = Some("/src".into());
    let second = agent("p2", None, 7);
    let third = agent("p3", Some("working"), 3);
    let own = agent("me", Some("blocked"), 99);
    let items = agent_items(&[first, second, third, own], &workspaces, Some("me"));
    let ids: Vec<&str> = items.iter().map(|item| item.id.as_str()).collect();
    assert_eq!(ids, vec!["p1", "p3", "p2"]);
    assert_eq!(items[0].label, "builder · fix bug");
    assert_eq!(items[0].detail, "working · one · /src");
    assert_eq!(items[0].search, "builder fix bug working one /src");
    assert_eq!(items[0].preview_pane.as_deref(), Some("p1"));
    assert_eq!(items[2].label, "agent · agent");
    assert_eq!(items[2].detail, "unknown · - · ");
    assert_eq!(items[2].target, Target::Agent { pane_id: "p2".into() });
}

#[test]
fn zoxide_rows_skip_lines_without_a_path() {
    let raw = "  12.5   /home/me/src  \r\nlonely\n\n3 /\n1 /tmp/x/../y\n";
    assert_eq!(zoxide_paths(raw), vec!["/home/me/src", "/", "/tmp/x/../y"]);
    let items = parse_zoxide(raw);
    assert_eq!(items.len(), 3);
    assert_eq!(items[0].label, "src");
    assert_eq!(items[0].search, "src /home/me/src");
    assert_eq!(items[1].label, "workspace");
    assert_eq!(items[2].id, "/tmp/y");
    assert_eq!(items[2].detail, "/tmp/x/../y");
    let rekeyed = zoxide_items(&vec!["/a/b".to_string()], &vec!["/real/b".to_string()]);
    assert_eq!(rekeyed[0].id, "/real/b");
    assert_eq!(rekeyed[0].target, Target::Directory { path: "/a/b".into() });
}

#[test]
fn confirming_focuses_targets_or_known_workspaces() {
    let known = Item {
        id: "w9".into(),
        label: "nine".into(),
        detail: String::new(),
        search: String::new(),
        preview_pane: None,
        match_paths: vec!["/tmp/project".into()],
        target: Target::Workspace { id: "w9".into() },
    };
    assert_eq!(
        confirm_args(&Target::Workspace { id: "w1".into() }, "", &[]),
        ["workspace", "focus", "w1"]
    );
    assert_eq!(
        confirm_args(&Target::Agent { pane_id: "p1".into() }, "", &[]),
        ["agent", "focus", "p1"]
    );
    assert_eq!(
        confirm_args(&Target::Directory { path: "/tmp/project".into() }, "/tmp/project", &[known]),
        ["workspace", "focus", "w9"]
    );
}

#[test]
fn sources_report_the_first_failure() {
    let sources = combine_sources(
        Err("workspaces failed".into()),
        Err("panes failed".into()),
        Err("agents failed".into()),
        ZoxideOutcome::Failed("zoxide crashed".into()),
        None,
    );
    assert_eq!(sources[0].as_ref().unwrap_err(), "workspaces failed");
    assert_eq!(sources[1].as_ref().unwrap_err(), "agents failed");
    assert_eq!(sources[2].as_ref().unwrap_err(), "zoxide crashed");
    let mut named = agent("p1", None, 0);
    named.workspace_id = Some("w1".into());
    let sources = combine_sources(
        Ok(vec![workspace("w1", "one", None)]),
        Err("panes failed".into()),
        Ok(vec![named]),
        ZoxideOutcome::Listed(Vec::new()),
        None,
    );
    assert_eq!(sources[0].as_ref().unwrap_err(), "panes failed");
    assert_eq!(sources[1].as_ref().unwrap()[0].detail, "unknown · one · ");
    assert!(sources[2].as_ref().unwrap().is_empty());
}

#[test]
fn directory_summaries_list_sorted_names_and_git_status() {
    let entries = vec![
        ("zeta".to_string(), false),
        ("Alpha".to_string(), true),
        ("alpha".to_string(), false),
        ("al".to_string(), false),
    ];
    assert_eq!(
        directory_text("/src", Some("## main\n M file\n"), &entries),
        "/src\n\nGit\n## main\n M file\n\nFiles\nAlpha/\nal\nalpha\nzeta\n"
    );
    assert_eq!(
        directory_text("/src", Some(" \n"), &Vec::new()),
        "/src\n\nGit\nclean\n\nFiles\n"
    );
    assert_eq!(directory_text("/src", None, &Vec::new()), "/src\n\nFiles\n");
    let many: Vec<(String, bool)> = (0..300).rev().map(|index| (format!("file-{index:03}"), false)).collect();
    let summary = directory_text("/d", None, &many);
    assert_eq!(summary.lines().filter(|line| line.starts_with("file-")).count(), 80);
    assert!(summary.ends_with("file-079\n"));
    assert!(name_less("al", "alpha"));
    assert!(!name_less("alpha", "al"));
    assert!(name_less("B", "a"));
    assert!(!name_less("same", "same"));
}
