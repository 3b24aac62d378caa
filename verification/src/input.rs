use vstd::prelude::*;

use crate::model::{
    first_with_id, next_order, pop_char, position_of_selection, push_char, reconcile_state,
    same_outside_tabs, moved_selection, tab_at, tab_index, App, Tab, TabState,
};

verus! {

/// How long a prefix chord waits for its second key, in milliseconds.
pub const PREFIX_TIMEOUT_MS: u64 = 700;

/// Which key was pressed.
#[derive(Debug, Clone, Copy, PartialEq, Eq, Structural)]
pub enum KeyCode {
    Char(char),
    Null,
    Esc,
    Enter,
    Left,
    Right,
    Up,
    Down,
    Backspace,
    /// Any other key; the picker ignores it.
    Other,
}

/// Modifier keys held, as a set of bits.
#[derive(Debug, Clone, Copy, PartialEq, Eq, Structural)]
pub struct KeyModifiers {
    pub bits: u8,
}

impl KeyModifiers {
    /// No modifier.
    pub fn none() -> (r: KeyModifiers)
        ensures
            r.bits == 0,
    {
        KeyModifiers { bits: 0 }
    }

    /// Shift alone.
    pub fn shift() -> (r: KeyModifiers)
        ensures
            r.bits == 1,
    {
        KeyModifiers { bits: 1 }
    }

    /// Control alone.
    pub fn control() -> (r: KeyModifiers)
        ensures
            r.bits == 2,
    {
        KeyModifiers { bits: 2 }
    }

    /// Alt alone.
    pub fn alt() -> (r: KeyModifiers)
        ensures
            r.bits == 4,
    {
        KeyModifiers { bits: 4 }
    }

    /// Super alone.
    pub fn super_key() -> (r: KeyModifiers)
        ensures
            r.bits == 8,
    {
        KeyModifiers { bits: 8 }
    }

    /// Hyper alone.
    pub fn hyper() -> (r: KeyModifiers)
        ensures
            r.bits == 16,
    {
        KeyModifiers { bits: 16 }
    }

    /// Meta alone.
    pub fn meta() -> (r: KeyModifiers)
        ensures
            r.bits == 32,
    {
        KeyModifiers { bits: 32 }
    }

    /// Both sets of modifiers.
    pub fn union(self, other: KeyModifiers) -> (r: KeyModifiers)
        ensures
            r.bits == self.bits | other.bits,
    {
        KeyModifiers { bits: self.bits | other.bits }
    }

    /// The modifiers of `self` that are not in `other`.
    pub fn difference(self, other: KeyModifiers) -> (r: KeyModifiers)
        ensures
            r.bits == self.bits & !other.bits,
    {
        KeyModifiers { bits: self.bits & !other.bits }
    }

    /// Whether every modifier of `other` is held.
    pub fn contains(self, other: KeyModifiers) -> (r: bool)
        ensures
            r == (self.bits & other.bits == other.bits),
    {
        self.bits & other.bits == other.bits
    }

    /// Whether no modifier is held.
    pub fn is_empty(self) -> (r: bool)
        ensures
            r == (self.bits == 0),
    {
        self.bits == 0
    }
}

/// A key press.
#[derive(Debug, Clone, Copy, PartialEq, Eq, Structural)]
pub struct KeyEvent {
    pub code: KeyCode,
    pub modifiers: KeyModifiers,
}

impl KeyEvent {
    /// A press of `code` with `modifiers` held.
    pub fn new(code: KeyCode, modifiers: KeyModifiers) -> (r: KeyEvent)
        ensures
            r.code == code,
            r.modifiers == modifiers,
    {
        KeyEvent { code, modifiers }
    }
}

/// What the caller should do after a key press.
#[derive(Debug, Clone, PartialEq, Eq, Structural)]
pub enum Effect {
    /// Nothing to do.
    Nothing,
    SelectionChanged,
    Confirm,
    Close,
}

/// No modifier other than shift is held.
pub open spec fn only_shift(m: u8) -> bool {
    m & !1u8 == 0
}

/// Control is held, and nothing but control and shift.
pub open spec fn control_held(m: u8) -> bool {
    &&& m & 2u8 == 2u8
    &&& m & !3u8 == 0
}

/// The key starts a prefix chord: ctrl-space, or the null key that some
/// terminals send for it, with nothing but control and shift held.
pub open spec fn prefix_key(k: KeyEvent) -> bool {
    ||| k.code == KeyCode::Char(' ') && control_held(k.modifiers.bits)
    ||| k.code == KeyCode::Null && k.modifiers.bits & !3u8 == 0
}

/// The ASCII lowercase form of a character.
pub open spec fn ascii_lower(c: char) -> char {
    if 'A' <= c && c <= 'Z' {
        ((c as u32) + 32) as char
    } else {
        c
    }
}

/// The ASCII letter of a control chord, lowercased.
pub open spec fn shortcut(k: KeyEvent) -> Option<char> {
    if !control_held(k.modifiers.bits) {
        None
    } else {
        match k.code {
            KeyCode::Char(c) => if ('a' <= c && c <= 'z') || ('A' <= c && c <= 'Z') {
                Some(ascii_lower(c))
            } else {
                None
            },
            _ => None,
        }
    }
}

/// The tab the second key of a prefix chord asks for: `S` (or shifted
/// `s`) for agents, `s` for workspaces.
pub open spec fn chord_tab(k: KeyEvent) -> Option<Tab> {
    match k.code {
        KeyCode::Char(c) => if c == 's' && k.modifiers.bits & 1u8 == 1u8 {
            Some(Tab::Agents)
        } else if c == 'S' {
            Some(Tab::Agents)
        } else if c == 's' {
            Some(Tab::Workspaces)
        } else {
            None
        },
        _ => None,
    }
}

/// `b` is `a` with the active tab's query text replaced by `q` and the
/// selection reconciled.
pub open spec fn query_edited(a: App, b: App, q: Seq<char>) -> bool {
    &&& same_outside_tabs(b, a)
    &&& b.current().query@ == q
    &&& b.tabs@ == a.tabs@.update(
        tab_index(a.tab),
        reconcile_state(TabState { query: b.current().query, ..a.current() }, a.history@),
    )
}

/// `b` is `a` after switching to tab `t`.
pub open spec fn tab_switched(a: App, b: App, t: Tab) -> bool {
    &&& b == App {
        tab: t,
        pending_prefix: false,
        tabs: b.tabs,
        ..a
    }
    &&& b.tabs@ == a.tabs@.update(tab_index(t), reconcile_state(a.tabs@[tab_index(t)], a.history@))
}

/// `b` is `a` after moving the selection `d` rows.
pub open spec fn selection_moved(a: App, b: App, d: int) -> bool {
    &&& same_outside_tabs(b, a)
    &&& b.tabs@ == a.tabs@.update(
        tab_index(a.tab),
        TabState { selected_id: moved_selection(a.current(), a.history@, d), ..a.current() },
    )
}

/// `b` is `a` after cycling the active tab's sort order.
pub open spec fn sort_cycled(a: App, b: App) -> bool {
    &&& same_outside_tabs(b, a)
    &&& b.tabs@ == a.tabs@.update(
        tab_index(a.tab),
        reconcile_state(TabState { sort: next_order(a.current().sort), ..a.current() }, a.history@),
    )
}

/// What a key that is neither a prefix nor part of a chord does to `a`:
/// effect `r` and resulting picker `b`.
pub open spec fn plain_key_result(a: App, key: KeyEvent, b: App, r: Effect) -> bool {
    match shortcut(key) {
        Some(c) => if c == 'c' {
            r == Effect::Close && b == App { should_close: true, ..a }
        } else if c == 'h' {
            r == Effect::SelectionChanged && tab_switched(a, b, tab_at(tab_index(a.tab) - 1))
        } else if c == 'l' {
            r == Effect::SelectionChanged && tab_switched(a, b, tab_at(tab_index(a.tab) + 1))
        } else if c == 'k' || c == 'p' {
            r == Effect::SelectionChanged && selection_moved(a, b, -1)
        } else if c == 'j' {
            r == Effect::SelectionChanged && selection_moved(a, b, 1)
        } else if c == 'u' {
            r == Effect::SelectionChanged && query_edited(a, b, Seq::empty())
        } else if c == 'o' {
            r == Effect::SelectionChanged && sort_cycled(a, b)
        } else {
            r == Effect::Nothing && b == a
        },
        None => match key.code {
            KeyCode::Esc => r == Effect::Close && b == App { should_close: true, ..a },
            KeyCode::Enter => r == Effect::Confirm && b == a,
            KeyCode::Left => r == Effect::SelectionChanged && tab_switched(
                a,
                b,
                tab_at(tab_index(a.tab) - 1),
            ),
            KeyCode::Right => r == Effect::SelectionChanged && tab_switched(
                a,
                b,
                tab_at(tab_index(a.tab) + 1),
            ),
            KeyCode::Up => r == Effect::SelectionChanged && selection_moved(a, b, -1),
            KeyCode::Down => r == Effect::SelectionChanged && selection_moved(a, b, 1),
            KeyCode::Backspace => r == Effect::SelectionChanged && query_edited(
                a,
                b,
                if a.current().query@.len() > 0 {
                    a.current().query@.drop_last()
                } else {
                    a.current().query@
                },
            ),
            KeyCode::Char(ch) => if only_shift(key.modifiers.bits) {
                r == Effect::SelectionChanged && query_edited(a, b, a.current().query@.push(ch))
            } else {
                r == Effect::Nothing && b == a
            },
            _ => r == Effect::Nothing && b == a,
        },
    }
}

/// Whether a prefix started at `at` has lapsed at `now`.
pub open spec fn prefix_expired(at: Option<u64>, now: u64) -> bool {
    match at {
        Some(t) => now >= t && now - t >= PREFIX_TIMEOUT_MS,
        None => false,
    }
}

/// Turns key presses into picker changes, tracking a pending prefix
/// chord.
pub struct Reducer {
    /// When the pending prefix was pressed, in milliseconds.
    pub prefix_at: Option<u64>,
}

impl Reducer {
    /// A reducer with no pending prefix.
    pub fn new() -> (r: Reducer)
        ensures
            r.prefix_at is None,
    {
        Reducer { prefix_at: None }
    }

    /// Cancels a prefix chord that has waited [`PREFIX_TIMEOUT_MS`] or
    /// longer at `now`.
    pub fn expire_prefix(&mut self, app: &mut App, now: u64)
        ensures
            prefix_expired(old(self).prefix_at, now) ==> final(self).prefix_at is None && *final(app)
                == (App { pending_prefix: false, ..*old(app) }),
            !prefix_expired(old(self).prefix_at, now) ==> final(self).prefix_at == old(
                self,
            ).prefix_at && *final(app) == *old(app),
    {
        let expired = match self.prefix_at {
            Some(at) => now.saturating_sub(at) >= PREFIX_TIMEOUT_MS,
            None => false,
        };
        if expired {
            self.prefix_at = None;
            app.pending_prefix = false;
        }
    }

    /// Applies a key pressed at `now`: a prefix key arms a chord; the next
    /// key completes it (`s` for workspaces, `S` for agents, closing when
    /// that tab is already active); otherwise control chords navigate and
    /// printable keys edit the query.
    pub fn key(&mut self, app: &mut App, key: KeyEvent, now: u64) -> (r: Effect)
        ensures
            ({
                let expired = prefix_expired(old(self).prefix_at, now);
                let a0 = if expired {
                    App { pending_prefix: false, ..*old(app) }
                } else {
                    *old(app)
                };
                let p0 = if expired {
                    None
                } else {
                    old(self).prefix_at
                };
                let a1 = App { pending_prefix: false, ..a0 };
                if prefix_key(key) {
                    &&& r == Effect::Nothing
                    &&& final(self).prefix_at == Some(now)
                    &&& *final(app) == App { pending_prefix: true, ..a0 }
                } else if a0.pending_prefix {
                    &&& final(self).prefix_at is None
                    &&& if !only_shift(key.modifiers.bits) {
                        r == Effect::Nothing && *final(app) == a1
                    } else {
                        match chord_tab(key) {
                            Some(t) => if a1.tab == t {
                                r == Effect::Close && *final(app) == App { should_close: true, ..a1 }
                            } else {
                                r == Effect::SelectionChanged && tab_switched(a1, *final(app), t)
                            },
                            None => r == Effect::Nothing && *final(app) == a1,
                        }
                    }
                } else {
                    &&& final(self).prefix_at == p0
                    &&& plain_key_result(a0, key, *final(app), r)
                }
            }),
    {
        self.expire_prefix(app, now);
        let ghost a0 = *app;
        if is_prefix(key) {
            self.prefix_at = Some(now);
            app.pending_prefix = true;
            return Effect::Nothing;
        }
        if app.pending_prefix {
            self.prefix_at = None;
            app.pending_prefix = false;
            if !key.modifiers.difference(KeyModifiers::shift()).is_empty() {
                return Effect::Nothing;
            }
            let requested = match key.code {
                KeyCode::Char(c) => {
                    if c == 's' && key.modifiers.contains(KeyModifiers::shift()) {
                        Some(Tab::Agents)
                    } else if c == 'S' {
                        Some(Tab::Agents)
                    } else if c == 's' {
                        Some(Tab::Workspaces)
                    } else {
                        None
                    }
                },
                _ => None,
            };
            if let Some(tab) = requested {
                if app.tab == tab {
                    app.should_close = true;
                    return Effect::Close;
                }
                app.switch_tab(tab);
                return Effect::SelectionChanged;
            }
            return Effect::Nothing;
        }
        if let Some(shortcut) = control_shortcut(key) {
            if shortcut == 'c' {
                app.should_close = true;
                return Effect::Close;
            } else if shortcut == 'h' {
                let tab = app.tab.adjacent(-1);
                app.switch_tab(tab);
                return Effect::SelectionChanged;
            } else if shortcut == 'l' {
                let tab = app.tab.adjacent(1);
                app.switch_tab(tab);
                return Effect::SelectionChanged;
            } else if shortcut == 'k' || shortcut == 'p' {
                app.move_selection(-1);
                return Effect::SelectionChanged;
            } else if shortcut == 'j' {
                app.move_selection(1);
                return Effect::SelectionChanged;
            } else if shortcut == 'u' {
                let i = app.tab.index();
                app.tabs[i].query = String::new();
                app.reconcile_selection();
                proof {
                    assert(app.tabs@ =~= a0.tabs@.update(
                        tab_index(a0.tab),
                        reconcile_state(TabState { query: app.current().query, ..a0.current() }, a0.history@),
                    ));
                }
                return Effect::SelectionChanged;
            } else if shortcut == 'o' {
                app.cycle_sort();
                return Effect::SelectionChanged;
            } else {
                return Effect::Nothing;
            }
        }
        match key.code {
            KeyCode::Esc => {
                app.should_close = true;
                Effect::Close
            },
            KeyCode::Enter => Effect::Confirm,
            KeyCode::Left => {
                let tab = app.tab.adjacent(-1);
                app.switch_tab(tab);
                Effect::SelectionChanged
            },
            KeyCode::Right => {
                let tab = app.tab.adjacent(1);
                app.switch_tab(tab);
                Effect::SelectionChanged
            },
            KeyCode::Up => {
                app.move_selection(-1);
                Effect::SelectionChanged
            },
            KeyCode::Down => {
                app.move_selection(1);
                Effect::SelectionChanged
            },
            KeyCode::Backspace => {
                let i = app.tab.index();
                pop_char(&mut app.tabs[i].query);
                app.reconcile_selection();
                proof {
                    assert(app.tabs@ =~= a0.tabs@.update(
                        tab_index(a0.tab),
                        reconcile_state(TabState { query: app.current().query, ..a0.current() }, a0.history@),
                    ));
                }
                Effect::SelectionChanged
            },
            KeyCode::Char(character) => {
                if key.modifiers.difference(KeyModifiers::shift()).is_empty() {
                    let i = app.tab.index();
                    push_char(&mut app.tabs[i].query, character);
                    app.reconcile_selection();
                    proof {
                        assert(app.tabs@ =~= a0.tabs@.update(
                            tab_index(a0.tab),
                            reconcile_state(TabState { query: app.current().query, ..a0.current() }, a0.history@),
                        ));
                    }
                    Effect::SelectionChanged
                } else {
                    Effect::Nothing
                }
            },
            _ => Effect::Nothing,
        }
    }
}

fn is_prefix(key: KeyEvent) -> (r: bool)
    ensures
        r == prefix_key(key),
{
    assert(2u8 | 1u8 == 3u8) by (bit_vector);
    (key.code == KeyCode::Char(' ') && has_control_modifiers(key.modifiers)) || (key.code
        == KeyCode::Null && key.modifiers.difference(
        KeyModifiers::control().union(KeyModifiers::shift()),
    ).is_empty())
}

fn control_shortcut(key: KeyEvent) -> (r: Option<char>)
    ensures
        r == shortcut(key),
{
    if !has_control_modifiers(key.modifiers) {
        return None;
    }
    match key.code {
        KeyCode::Char(c) => {
            if 'a' <= c && c <= 'z' {
                Some(c)
            } else if 'A' <= c && c <= 'Z' {
                Some(((c as u8) + 32) as char)
            } else {
                None
            }
        },
        _ => None,
    }
}

fn has_control_modifiers(modifiers: KeyModifiers) -> (r: bool)
    ensures
        r == control_held(modifiers.bits),
{
    assert(2u8 | 1u8 == 3u8) by (bit_vector);
    modifiers.contains(KeyModifiers::control()) && modifiers.difference(
        KeyModifiers::control().union(KeyModifiers::shift()),
    ).is_empty()
}

/// A key with no modifier held.
pub open spec fn bare_key(code: KeyCode) -> KeyEvent {
    KeyEvent { code, modifiers: KeyModifiers { bits: 0 } }
}

/// A key with control held.
pub open spec fn control_key(c: char) -> KeyEvent {
    KeyEvent { code: KeyCode::Char(c), modifiers: KeyModifiers { bits: 2 } }
}

/// Down does what ctrl-j does and Up what ctrl-k does. When the selected
/// item is the row at `p` of the `n` shown rows, Down selects the row at
/// `(p + 1) % n` and Up the row at `(p - 1) % n` (wrapping), leaving the
/// active tab as it was.
pub proof fn lemma_arrows_move_the_selection(a: App, b: App, r: Effect, p: int)
    ensures
        plain_key_result(a, bare_key(KeyCode::Down), b, r) <==> plain_key_result(
            a,
            control_key('j'),
            b,
            r,
        ),
        plain_key_result(a, bare_key(KeyCode::Up), b, r) <==> plain_key_result(
            a,
            control_key('k'),
            b,
            r,
        ),
        ({
            let shown = a.shown();
            let n = shown.len() as int;
            a.current().selected_id matches Some(id) && first_with_id(a.items(), shown, id@, p) ==> {
                &&& plain_key_result(a, bare_key(KeyCode::Down), b, r) ==> {
                    &&& r == Effect::SelectionChanged
                    &&& b.tab == a.tab
                    &&& b.current().selected_id matches Some(next) && next@ == a.items()[shown[(p
                        + 1) % n]].id@
                }
                &&& plain_key_result(a, bare_key(KeyCode::Up), b, r) ==> {
                    &&& r == Effect::SelectionChanged
                    &&& b.tab == a.tab
                    &&& b.current().selected_id matches Some(prev) && prev@ == a.items()[shown[(p
                        - 1) % n]].id@
                }
            }
        }),
{
    assert(shortcut(bare_key(KeyCode::Down)) is None) by {
        assert(0u8 & 2u8 == 0u8) by (bit_vector);
    }
    assert(shortcut(bare_key(KeyCode::Up)) is None) by {
        assert(0u8 & 2u8 == 0u8) by (bit_vector);
    }
    assert(control_held(2u8)) by {
        assert(2u8 & 2u8 == 2u8 && 2u8 & !3u8 == 0) by (bit_vector);
    }
    assert(shortcut(control_key('j')) == Some('j'));
    assert(shortcut(control_key('k')) == Some('k'));
    let shown = a.shown();
    if a.current().selected_id is Some {
        let id = a.current().selected_id.unwrap();
        if first_with_id(a.items(), shown, id@, p) {
            let j = choose|j: int| first_with_id(a.items(), shown, id@, j);
            assert(first_with_id(a.items(), shown, id@, j));
            if j < p {
                assert(a.items()[shown[j]].id@ != id@);
            }
            if j > p {
                assert(a.items()[shown[p]].id@ != id@);
            }
            assert(position_of_selection(a.items(), shown, a.current().selected_id) == Some(p));
        }
    }
}

} // verus!
