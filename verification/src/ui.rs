use vstd::prelude::*;

use unicode_width::UnicodeWidthStr;

use crate::model::{sort_label, App, LoadState, PreviewState};
use crate::text::append_str;

verus! {

/// The key hints that fit a footer `width` cells wide.
pub open spec fn hints(width: u16) -> Seq<char> {
    if width >= 72 {
        "enter focus  ^p up  ^o sort  ←/→ tabs  ↑/↓ move  esc close"@
    } else if width >= 45 {
        "^p up  ^o sort  ←/→ tabs  esc close"@
    } else if width >= 28 {
        "^p up  ^o sort  esc close"@
    } else {
        "^p  ^o  esc"@
    }
}

/// The footer line: a warning when there is one, else the key hints that
/// fit, after a marker while a prefix chord is pending.
pub open spec fn footer(warning: Option<String>, pending_prefix: bool, width: u16) -> Seq<char> {
    match warning {
        Some(w) => " ! "@ + w@,
        None => " "@ + (if pending_prefix {
            "prefix…  "@
        } else {
            ""@
        }) + hints(width),
    }
}

/// The footer line of a picker `width` cells wide.
pub fn footer_text(app: &App, width: u16) -> (r: String)
    ensures
        r@ == footer(app.warning, app.pending_prefix, width),
{
    let mut r = String::new();
    match &app.warning {
        Some(warning) => {
            append_str(&mut r, " ! ");
            append_str(&mut r, warning.as_str());
            return r;
        },
        None => {},
    }
    append_str(&mut r, " ");
    if app.pending_prefix {
        append_str(&mut r, "prefix…  ");
    } else {
        append_str(&mut r, "");
    }
    let hints: &str = if width >= 72 {
        "enter focus  ^p up  ^o sort  ←/→ tabs  ↑/↓ move  esc close"
    } else if width >= 45 {
        "^p up  ^o sort  ←/→ tabs  esc close"
    } else if width >= 28 {
        "^p up  ^o sort  esc close"
    } else {
        "^p  ^o  esc"
    };
    append_str(&mut r, hints);
    r
}

/// How many terminal cells a text takes, as `UnicodeWidthStr::width`
/// computes it.
pub uninterp spec fn display_width(s: Seq<char>) -> nat;

/// The width of `s` in terminal cells, from `UnicodeWidthStr::width`.
#[verifier::external_body]
fn text_width(s: &str) -> (r: usize)
    ensures
        r == display_width(s@),
{
    UnicodeWidthStr::width(s)
}

/// The column of the cursor in a search field starting at column `x` and
/// `width` cells wide, after a two-cell prompt and a query `query_width`
/// cells wide: kept inside the field, and on screen.
pub open spec fn cursor_column(x: u16, width: u16, query_width: int) -> int {
    let offset = if 2 + query_width < width - 1 {
        2 + query_width
    } else {
        width - 1
    };
    if x + offset <= u16::MAX {
        x + offset
    } else {
        u16::MAX as int
    }
}

/// Where the cursor goes in a search field at `(x, y)`, `width` by
/// `height` cells, holding `query`: after the query, but never past the
/// field's last cell; nowhere when the field has no cells.
pub fn search_cursor(x: u16, y: u16, width: u16, height: u16, query: &str) -> (r: Option<(u16, u16)>)
    ensures
        r == if width == 0 || height == 0 {
            None
        } else {
            Some((cursor_column(x, width, display_width(query@) as int) as u16, y))
        },
{
    if width == 0 || height == 0 {
        return None;
    }
    let query_width = text_width(query);
    let offset: usize = if query_width <= usize::MAX - 2 {
        2 + query_width
    } else {
        usize::MAX
    };
    let maximum: usize = (width - 1) as usize;
    let shift: u16 = if offset < maximum {
        offset as u16
    } else {
        maximum as u16
    };
    let column: u16 = if x as u32 + shift as u32 <= u16::MAX as u32 {
        x + shift
    } else {
        u16::MAX
    };
    Some((column, y))
}

/// The message the item list shows instead of rows: while loading, on a
/// failure, when nothing loaded, or when nothing matches the query.
pub open spec fn list_notice(app: App) -> Option<Seq<char>> {
    match app.current().source {
        LoadState::Loading => Some("Loading…"@),
        LoadState::Error(e) => Some("Error: "@ + e@),
        LoadState::Ready(items) => if items@.len() == 0 {
            Some("No items"@)
        } else if app.shown().len() == 0 {
            Some("No matches"@)
        } else {
            None
        },
    }
}

/// The text of an optional string.
pub open spec fn opt_string(value: Option<String>) -> Option<Seq<char>> {
    match value {
        Some(s) => Some(s@),
        None => None,
    }
}

/// The message the item list shows instead of rows, if any.
pub fn list_message(app: &App) -> (r: Option<String>)
    ensures
        opt_string(r) == list_notice(*app),
{
    let state = app.state();
    match &state.source {
        LoadState::Loading => Some("Loading…".to_owned()),
        LoadState::Error(error) => {
            let mut r = String::new();
            append_str(&mut r, "Error: ");
            append_str(&mut r, error.as_str());
            Some(r)
        },
        LoadState::Ready(items) => if items.len() == 0 {
            Some("No items".to_owned())
        } else if app.shown_positions().len() == 0 {
            Some("No matches".to_owned())
        } else {
            None
        },
    }
}

/// The sort order tag after the query, shown when the search field is at
/// least 24 cells wide.
pub fn sort_tag(app: &App, width: u16) -> (r: Option<String>)
    ensures
        opt_string(r) == if width >= 24 {
            Some("  ["@ + sort_label(app.current().sort) + "]"@)
        } else {
            None
        },
{
    if width < 24 {
        return None;
    }
    let mut r = String::new();
    append_str(&mut r, "  [");
    append_str(&mut r, app.state().sort.label());
    append_str(&mut r, "]");
    Some(r)
}

/// The title of the preview panel: the selected item's label, else
/// `Preview`, padded by a space on each side.
pub fn preview_title(app: &App) -> (r: String)
    ensures
        r@ == match app.selected_index() {
            Some(i) => " "@ + app.items()[i].label@ + " "@,
            None => " Preview "@,
        },
{
    match app.selected() {
        Some(item) => {
            let mut r = String::new();
            append_str(&mut r, " ");
            append_str(&mut r, item.label.as_str());
            append_str(&mut r, " ");
            r
        },
        None => " Preview ".to_owned(),
    }
}

/// The message the preview panel shows instead of contents, if any.
pub fn preview_message(app: &App) -> (r: Option<String>)
    ensures
        opt_string(r) == match app.preview {
            PreviewState::Empty => Some("Nothing to preview"@),
            PreviewState::Loading => Some("Loading preview…"@),
            PreviewState::Error(e) => Some("Preview error: "@ + e@),
            PreviewState::Ready(_) => None,
        },
{
    match &app.preview {
        PreviewState::Empty => Some("Nothing to preview".to_owned()),
        PreviewState::Loading => Some("Loading preview…".to_owned()),
        PreviewState::Error(error) => {
            let mut r = String::new();
            append_str(&mut r, "Preview error: ");
            append_str(&mut r, error.as_str());
            Some(r)
        },
        PreviewState::Ready(_) => None,
    }
}

} // verus!
