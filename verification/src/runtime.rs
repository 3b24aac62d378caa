use vstd::prelude::*;

use crate::input::ascii_lower;
use crate::model::{
    chars_of, reconcile_state, same_items, tab_index, App, Item, LoadState, PreviewIdentity,
    PreviewState, Tab, TabState,
};

verus! {

/// What the background workers report back.
pub enum Message {
    /// Sources loaded for a refresh request, one per tab in tab-bar order.
    Refresh { generation: u64, result: [Result<Vec<Item>, String>; 3] },
    /// Preview text (or why it failed) for a preview request.
    Preview { generation: u64, result: Result<String, String> },
}

/// A preview asked for: the request's generation and the item to preview.
pub struct PreviewRequest {
    pub generation: u64,
    pub item: Item,
}

/// The generation after `g`, wrapping around.
pub open spec fn next_generation(g: u64) -> u64 {
    if g == u64::MAX {
        0
    } else {
        (g + 1) as u64
    }
}

/// Keeps at most one refresh in flight, and remembers at most one more
/// that was asked for meanwhile.
#[derive(Debug)]
pub struct RefreshScheduler {
    pub in_flight: bool,
    pub deferred: bool,
}

impl Default for RefreshScheduler {
    fn default() -> (r: Self)
        ensures
            !r.in_flight,
            !r.deferred,
    {
        RefreshScheduler { in_flight: false, deferred: false }
    }
}

impl RefreshScheduler {
    /// Asks for a refresh: returns the generation to load now, or nothing
    /// when one is in flight (it will follow when that completes).
    pub fn demand(&mut self, app: &mut App) -> (r: Option<u64>)
        ensures
            final(self).deferred ==> final(self).in_flight,
            old(self).in_flight ==> {
                &&& r is None
                &&& final(self).in_flight && final(self).deferred
                &&& *final(app) == *old(app)
            },
            !old(self).in_flight ==> {
                &&& r == Some(next_generation(old(app).refresh_generation))
                &&& final(self).in_flight
                &&& final(self).deferred == old(self).deferred
                &&& *final(app) == (App {
                    refresh_generation: next_generation(old(app).refresh_generation),
                    ..*old(app)
                })
            },
    {
        if self.in_flight {
            self.deferred = true;
            return None;
        }
        Some(self.dispatch(app))
    }

    /// Records that the refresh in flight completed: returns the generation
    /// of the deferred one to load now, if one was asked for.
    pub fn complete(&mut self, app: &mut App) -> (r: Option<u64>)
        ensures
            !final(self).deferred,
            old(self).deferred ==> {
                &&& r == Some(next_generation(old(app).refresh_generation))
                &&& final(self).in_flight
                &&& *final(app) == (App {
                    refresh_generation: next_generation(old(app).refresh_generation),
                    ..*old(app)
                })
            },
            !old(self).deferred ==> r is None && !final(self).in_flight && *final(app) == *old(app),
    {
        self.in_flight = false;
        if self.deferred {
            self.deferred = false;
            Some(self.dispatch(app))
        } else {
            None
        }
    }

    /// Starts a refresh under the next generation.
    pub fn dispatch(&mut self, app: &mut App) -> (r: u64)
        ensures
            final(self).in_flight,
            final(self).deferred == old(self).deferred,
            r == next_generation(old(app).refresh_generation),
            *final(app) == (App { refresh_generation: r, ..*old(app) }),
    {
        self.in_flight = true;
        app.refresh_generation = app.refresh_generation.wrapping_add(1);
        app.refresh_generation
    }
}

/// A tab's state after a refresh delivered `source` for it: loaded items
/// replace the old ones (the active tab's selection is reconciled), a
/// failure replaces them with its message.
pub open spec fn refreshed_tab(
    st: TabState,
    source: Result<Vec<Item>, String>,
    active: bool,
    h: Map<crate::model::KeyView, crate::history::Entry>,
) -> TabState {
    match source {
        Ok(items) => if active {
            reconcile_state(TabState { source: LoadState::Ready(items), ..st }, h)
        } else {
            TabState { source: LoadState::Ready(items), ..st }
        },
        Err(e) => TabState { source: LoadState::Error(e), ..st },
    }
}

/// Everything but the tabs and the workspace identity is equal.
pub open spec fn same_but_sources(a: App, b: App) -> bool {
    &&& a.tab == b.tab
    &&& a.preview == b.preview
    &&& a.preview_generation == b.preview_generation
    &&& a.refresh_generation == b.refresh_generation
    &&& a.pending_prefix == b.pending_prefix
    &&& a.should_close == b.should_close
    &&& a.warning == b.warning
    &&& a.history == b.history
}

fn apply_source(app: &mut App, tab: Tab, source: Result<Vec<Item>, String>)
    ensures
        final(app).tabs@ == old(app).tabs@.update(
            tab_index(tab),
            refreshed_tab(
                old(app).tabs@[tab_index(tab)],
                source,
                tab == old(app).tab,
                old(app).history@,
            ),
        ),
        match source {
            Ok(items) => tab == Tab::Workspaces ==> same_items(
                final(app).workspace_identity@,
                items@,
            ),
            Err(_) => true,
        },
        !(source is Ok && tab == Tab::Workspaces) ==> final(app).workspace_identity
            == old(app).workspace_identity,
        same_but_sources(*final(app), *old(app)),
{
    match source {
        Ok(items) => app.set_items(tab, items),
        Err(error) => {
            let i = tab.index();
            app.tabs[i].source = LoadState::Error(error);
            proof {
                assert(app.tabs@ =~= old(app).tabs@.update(
                    tab_index(tab),
                    refreshed_tab(
                        old(app).tabs@[tab_index(tab)],
                        source,
                        tab == old(app).tab,
                        old(app).history@,
                    ),
                ));
            }
        },
    }
}

/// Applies a refresh if it answers the latest request: each tab takes its
/// source (see [`refreshed_tab`]), and loaded workspaces become the
/// workspace identity. A stale refresh changes nothing.
pub fn apply_refresh(app: &mut App, generation: u64, result: [Result<Vec<Item>, String>; 3])
    ensures
        generation != old(app).refresh_generation ==> *final(app) == *old(app),
        generation == old(app).refresh_generation ==> {
            &&& forall|i: int|
                0 <= i < 3 ==> #[trigger] final(app).tabs@[i] == refreshed_tab(
                    old(app).tabs@[i],
                    result@[i],
                    tab_index(old(app).tab) == i,
                    old(app).history@,
                )
            &&& match result@[0] {
                Ok(items) => same_items(final(app).workspace_identity@, items@),
                Err(_) => final(app).workspace_identity == old(app).workspace_identity,
            }
            &&& same_but_sources(*final(app), *old(app))
        },
{
    if generation != app.refresh_generation {
        return;
    }
    let ghost r = result@;
    let mut result = result;
    let mut workspaces: Result<Vec<Item>, String> = Err(String::new());
    let mut agents: Result<Vec<Item>, String> = Err(String::new());
    let mut zoxide: Result<Vec<Item>, String> = Err(String::new());
    std::mem::swap(&mut workspaces, &mut result[0]);
    std::mem::swap(&mut agents, &mut result[1]);
    std::mem::swap(&mut zoxide, &mut result[2]);
    proof {
        assert(workspaces == r[0] && agents == r[1] && zoxide == r[2]);
    }
    apply_source(app, Tab::Workspaces, workspaces);
    apply_source(app, Tab::Agents, agents);
    apply_source(app, Tab::Zoxide, zoxide);
}

/// Where a preview comes from.
pub enum PreviewSource {
    /// A snapshot of the pane with this id.
    Pane(String),
    /// A summary of this directory.
    Directory(String),
    /// Nothing to show.
    Blank,
}

/// Where an item's preview comes from: its preview pane, else its
/// directory, else nowhere.
pub fn preview_source(item: &Item) -> (r: PreviewSource)
    ensures
        match item.preview_pane {
            Some(p) => r matches PreviewSource::Pane(q) && q@ == p@,
            None => match item.target {
                crate::model::Target::Directory { path } => r matches PreviewSource::Directory(q)
                    && q@ == path@,
                _ => r is Blank,
            },
        },
{
    match &item.preview_pane {
        Some(pane) => PreviewSource::Pane(pane.clone()),
        None => match &item.target {
            crate::model::Target::Directory { path } => PreviewSource::Directory(path.clone()),
            _ => PreviewSource::Blank,
        },
    }
}

/// Whether every tab is still loading.
pub open spec fn all_loading(app: App) -> bool {
    forall|i: int| 0 <= i < 3 ==> (#[trigger] app.tabs@[i]).source is Loading
}

/// Asks for a refresh: shows a loading preview while nothing has loaded
/// yet, then returns the generation to load now, if any (see
/// [`RefreshScheduler::demand`]).
pub fn request_refresh(app: &mut App, scheduler: &mut RefreshScheduler) -> (r: Option<u64>)
    ensures
        ({
            let a1 = if all_loading(*old(app)) {
                (App { preview: PreviewState::Loading, ..*old(app) })
            } else {
                *old(app)
            };
            &&& old(scheduler).in_flight ==> {
                &&& r is None
                &&& final(scheduler).in_flight && final(scheduler).deferred
                &&& *final(app) == a1
            }
            &&& !old(scheduler).in_flight ==> {
                &&& r == Some(next_generation(a1.refresh_generation))
                &&& final(scheduler).in_flight
                &&& final(scheduler).deferred == old(scheduler).deferred
                &&& *final(app) == (App {
                    refresh_generation: next_generation(a1.refresh_generation),
                    ..a1
                })
            }
        }),
{
    let loading = app.tabs[0].source.is_loading() && app.tabs[1].source.is_loading()
        && app.tabs[2].source.is_loading();
    proof {
        assert(loading == all_loading(*app)) by {
            if loading {
                assert forall|i: int| 0 <= i < 3 implies (#[trigger] app.tabs@[i]).source is Loading by {
                    if i == 0 {
                    } else if i == 1 {
                    } else {
                    }
                }
            }
        }
    }
    if loading {
        app.preview = PreviewState::Loading;
    }
    scheduler.demand(app)
}

impl LoadState {
    /// Whether the source is still loading.
    pub fn is_loading(&self) -> (r: bool)
        ensures
            r == (*self is Loading),
    {
        match self {
            LoadState::Loading => true,
            _ => false,
        }
    }
}

/// Asks for a preview of the selected item under the next preview
/// generation: returns that generation and a copy of the item, if any,
/// and shows a loading preview (or none when nothing is selected).
pub fn request_preview(app: &mut App) -> (r: (u64, Option<Item>))
    ensures
        r.0 == next_generation(old(app).preview_generation),
        match r.1 {
            Some(item) => old(app).selected_index() matches Some(i) && 0 <= i < old(app).items().len()
                && item@ == old(app).items()[i]@,
            None => old(app).selected_index() is None,
        },
        *final(app) == (App {
            preview_generation: r.0,
            preview: if r.1 is Some {
                PreviewState::Loading
            } else {
                PreviewState::Empty
            },
            ..*old(app)
        }),
{
    app.preview_generation = app.preview_generation.wrapping_add(1);
    let generation = app.preview_generation;
    let selected = match app.selected() {
        Some(item) => Some(item.duplicate()),
        None => None,
    };
    if selected.is_some() {
        app.preview = PreviewState::Loading;
    } else {
        app.preview = PreviewState::Empty;
    }
    (generation, selected)
}

/// Whether `value` names the agents tab: `agents` in any ASCII case.
pub open spec fn names_agents(value: Seq<char>) -> bool {
    &&& value.len() == 6
    &&& forall|i: int| 0 <= i < 6 ==> ascii_lower(#[trigger] value[i]) == "agents"@[i]
}

fn lower_is(c: char, t: char) -> (r: bool)
    ensures
        r == (ascii_lower(c) == t),
{
    if 'A' <= c && c <= 'Z' {
        let shifted: u32 = (c as u32) + 32;
        proof {
            assert(((c as u32) + 32) as char as u32 == (c as u32) + 32);
        }
        shifted == t as u32
    } else {
        c == t
    }
}

/// The tab a name asks for: agents for `agents` in any ASCII case,
/// workspaces otherwise.
pub fn parse_tab(value: &str) -> (r: Tab)
    ensures
        r == if names_agents(value@) {
            Tab::Agents
        } else {
            Tab::Workspaces
        },
{
    let chars = chars_of(value);
    let wanted = chars_of("agents");
    proof {
        reveal_strlit("agents");
    }
    if chars.len() != wanted.len() {
        return Tab::Workspaces;
    }
    let mut same = true;
    let mut i: usize = 0;
    while i < chars.len()
        invariant
            i <= chars@.len(),
            chars@ == value@,
            wanted@ == "agents"@,
            wanted@.len() == 6,
            chars@.len() == 6,
            same == forall|k: int| 0 <= k < i ==> ascii_lower(#[trigger] chars@[k]) == wanted@[k],
        decreases chars@.len() - i,
    {
        if !lower_is(chars[i], wanted[i]) {
            same = false;
        }
        i = i + 1;
    }
    if same {
        Tab::Agents
    } else {
        Tab::Workspaces
    }
}

/// How often the sources are reloaded, in milliseconds.
pub const REFRESH_INTERVAL_MS: u64 = 3_000;

/// Whether a reload is due at `now`, the last one having been asked for
/// at `refreshed_at` (both in milliseconds of a clock that never goes
/// back).
pub fn refresh_due(refreshed_at: u64, now: u64) -> (r: bool)
    ensures
        r == (now >= refreshed_at && now - refreshed_at >= REFRESH_INTERVAL_MS),
{
    now >= refreshed_at && now - refreshed_at >= REFRESH_INTERVAL_MS
}

/// Whether the preview has to be asked for again: the selection's
/// preview identity changed (including to or from nothing).
pub fn preview_changed(before: &Option<PreviewIdentity>, after: &Option<PreviewIdentity>) -> (r: bool)
    ensures
        r == (crate::preview::identity_view(*before) != crate::preview::identity_view(*after)),
{
    match (before, after) {
        (Some(a), Some(b)) => !a.same(b),
        (None, None) => false,
        _ => true,
    }
}

} // verus!
