use herdr_picker::model::{App, Item, LoadState, PreviewState, Tab, Target};
use herdr_picker::ui::{
    footer_text, list_message, preview_message, preview_title, search_cursor, sort_tag,
};

fn app() -> App {
    let mut app = App::new(Tab::Workspaces);
    app.set_items(
        Tab::Workspaces,
        vec![Item {
            id: "w1".into(),
            label: "dotfiles".into(),
            detail: "/src/dotfiles".into(),
            search: "dotfiles".into(),
            preview_pane: Some("p1".into()),
            match_paths: Vec::new(),
            target: Target::Workspace { id: "w1".into() },
        }],
    );
    app
}

/// The text the picker puts on screen, panel by panel.
fn screen(app: &App, width: u16) -> String {
    let mut lines: Vec<String> = Tab::ALL.iter().map(|tab| tab.label().to_string()).collect();
    let search_width = if width < 96 { width - 2 } else { width * 46 / 100 - 2 };
    lines.push(format!(
        "❯ {}{}",
        app.state().query,
        sort_tag(app, search_width).unwrap_or_default()
    ));
    match list_message(app) {
        Some(message) => lines.push(message),
        None => {
            for item in app.filtered() {
                lines.push(item.label.clone());
                lines.push(item.detail.clone());
            }
        }
    }
    lines.push(preview_title(app));
    if let Some(message) = preview_message(app) {
        lines.push(message);
    }
    lines.push(footer_text(app, width));
    lines.join("\n")
}

#[test]
fn wide_and_narrow_layouts_render_tabs_search_and_items() {
    for width in [140, 70] {
        let screen = screen(&app(), width);
        assert!(screen.contains("Workspaces"));
        assert!(screen.contains("dotfiles"));
        assert!(screen.contains("Nothing to preview"));
        assert!(screen.contains("[Recent]"));
        assert!(screen.contains("^p up"));
        assert!(screen.contains("^o sort"));
    }
}

#[test]
fn tiny_narrow_layouts_handle_long_wide_unicode_queries() {
    let mut app = app();
    app.state_mut().query = "界界界界界界界界界界-long-query".into();
    for width in [30, 40, 50] {
        let footer = footer_text(&app, width);
        assert!(footer.contains("^p"));
        assert!(footer.contains("^o"));
    }
    assert_eq!(search_cursor(2, 4, 10, 1, "界界界界界"), Some((11, 4)));
}

#[test]
fn narrow_footer_compacts_and_history_warning_is_visible() {
    assert_eq!(footer_text(&app(), 20), " ^p  ^o  esc");
    let mut app = app();
    app.warning = Some("history not saved".into());
    assert!(footer_text(&app, 40).contains("history not saved"));
    assert_eq!(footer_text(&app, 40), " ! history not saved");
}

#[test]
fn footer_hints_shrink_with_the_width() {
    let mut app = app();
    assert_eq!(
        footer_text(&app, 72),
        " enter focus  ^p up  ^o sort  ←/→ tabs  ↑/↓ move  esc close"
    );
    assert_eq!(footer_text(&app, 71), " ^p up  ^o sort  ←/→ tabs  esc close");
    assert_eq!(footer_text(&app, 45), " ^p up  ^o sort  ←/→ tabs  esc close");
    assert_eq!(footer_text(&app, 44), " ^p up  ^o sort  esc close");
    assert_eq!(footer_text(&app, 28), " ^p up  ^o sort  esc close");
    assert_eq!(footer_text(&app, 27), " ^p  ^o  esc");
    app.pending_prefix = true;
    assert_eq!(footer_text(&app, 27), " prefix…  ^p  ^o  esc");
}

#[test]
fn search_cursor_stays_inside_the_field() {
    assert_eq!(search_cursor(0, 0, 0, 1, "abc"), None);
    assert_eq!(search_cursor(0, 0, 5, 0, "abc"), None);
    assert_eq!(search_cursor(3, 1, 20, 1, "abc"), Some((8, 1)));
    assert_eq!(search_cursor(3, 1, 20, 1, ""), Some((5, 1)));
    assert_eq!(search_cursor(3, 1, 4, 1, "abc"), Some((6, 1)));
    assert_eq!(search_cursor(u16::MAX - 1, 0, 10, 1, "abc"), Some((u16::MAX, 0)));
}

#[test]
fn panels_explain_what_they_cannot_show() {
    let mut app = App::new(Tab::Workspaces);
    assert_eq!(list_message(&app).as_deref(), Some("Loading…"));
    app.tabs[0].source = LoadState::Error("boom".into());
    assert_eq!(list_message(&app).as_deref(), Some("Error: boom"));
    app.set_items(Tab::Workspaces, Vec::new());
    assert_eq!(list_message(&app).as_deref(), Some("No items"));
    let mut app = self::app();
    assert_eq!(list_message(&app), None);
    app.state_mut().query = "zzz".into();
    assert_eq!(list_message(&app).as_deref(), Some("No matches"));
    assert_eq!(preview_title(&app), " Preview ");
    app.state_mut().query.clear();
    app.reconcile_selection();
    assert_eq!(preview_title(&app), " dotfiles ");
    assert_eq!(sort_tag(&app, 23), None);
    assert_eq!(sort_tag(&app, 24).as_deref(), Some("  [Recent]"));
    app.preview = PreviewState::Loading;
    assert_eq!(preview_message(&app).as_deref(), Some("Loading preview…"));
    app.preview = PreviewState::Error("gone".into());
    assert_eq!(preview_message(&app).as_deref(), Some("Preview error: gone"));
    app.preview = PreviewState::Ready("text".into());
    assert_eq!(preview_message(&app), None);
}
