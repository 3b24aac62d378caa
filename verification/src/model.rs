use vstd::prelude::*;

use crate::history::{Entry, History};

verus! {

/// The three lists the picker can show.
#[derive(Debug, Clone, Copy, PartialEq, Eq, Structural)]
pub enum Tab {
    Workspaces,
    Agents,
    Zoxide,
}

/// Position of a tab in the tab bar.
pub open spec fn tab_index(tab: Tab) -> int {
    match tab {
        Tab::Workspaces => 0,
        Tab::Agents => 1,
        Tab::Zoxide => 2,
    }
}

/// The tab at a position of the tab bar (positions taken modulo three).
pub open spec fn tab_at(index: int) -> Tab {
    let i = index % 3;
    if i == 0 {
        Tab::Workspaces
    } else if i == 1 {
        Tab::Agents
    } else {
        Tab::Zoxide
    }
}

/// Name shown in the tab bar.
pub open spec fn tab_label(tab: Tab) -> Seq<char> {
    match tab {
        Tab::Workspaces => "Workspaces"@,
        Tab::Agents => "Agents"@,
        Tab::Zoxide => "Zoxide"@,
    }
}

impl Tab {
    /// Every tab, in tab-bar order.
    pub const ALL: [Tab; 3] = [Tab::Workspaces, Tab::Agents, Tab::Zoxide];

    /// Name shown in the tab bar.
    pub fn label(self) -> (r: &'static str)
        ensures
            r@ == tab_label(self),
    {
        match self {
            Tab::Workspaces => "Workspaces",
            Tab::Agents => "Agents",
            Tab::Zoxide => "Zoxide",
        }
    }

    /// Position in the tab bar.
    pub fn index(self) -> (r: usize)
        ensures
            r == tab_index(self),
            r < 3,
    {
        match self {
            Tab::Workspaces => 0,
            Tab::Agents => 1,
            Tab::Zoxide => 2,
        }
    }

    /// The tab `delta` steps away, wrapping around both ends.
    pub fn adjacent(self, delta: isize) -> (r: Tab)
        ensures
            r == tab_at(tab_index(self) + delta),
    {
        let index: isize = self.index() as isize;
        let m: isize = (index % 3 + delta % 3 + 3) % 3;
        assert(m == (tab_index(self) + delta) % 3) by (nonlinear_arith)
            requires
                m == (index % 3 + delta % 3 + 3) % 3,
                0 <= index < 3,
                index == tab_index(self),
        ;
        if m == 0 {
            Tab::Workspaces
        } else if m == 1 {
            Tab::Agents
        } else {
            Tab::Zoxide
        }
    }
}


/// What confirming an item acts on.
#[derive(Debug, Clone, PartialEq, Eq)]
pub enum Target {
    Workspace { id: String },
    Agent { pane_id: String },
    Directory { path: String },
}

/// Mathematical value of a [`Target`].
pub enum TargetView {
    Workspace(Seq<char>),
    Agent(Seq<char>),
    Directory(Seq<char>),
}

impl View for Target {
    type V = TargetView;

    open spec fn view(&self) -> TargetView {
        match self {
            Target::Workspace { id } => TargetView::Workspace(id@),
            Target::Agent { pane_id } => TargetView::Agent(pane_id@),
            Target::Directory { path } => TargetView::Directory(path@),
        }
    }
}

impl Target {
    /// A copy of this target.
    pub fn duplicate(&self) -> (r: Target)
        ensures
            r@ == self@,
    {
        match self {
            Target::Workspace { id } => Target::Workspace { id: id.clone() },
            Target::Agent { pane_id } => Target::Agent { pane_id: pane_id.clone() },
            Target::Directory { path } => Target::Directory { path: path.clone() },
        }
    }
}

/// One row of a picker list.
#[derive(Debug, Clone, PartialEq, Eq)]
pub struct Item {
    pub id: String,
    pub label: String,
    pub detail: String,
    pub search: String,
    pub preview_pane: Option<String>,
    pub match_paths: Vec<String>,
    pub target: Target,
}

/// Mathematical value of an [`Item`].
pub struct ItemView {
    pub id: Seq<char>,
    pub label: Seq<char>,
    pub detail: Seq<char>,
    pub search: Seq<char>,
    pub preview_pane: Option<Seq<char>>,
    pub match_paths: Seq<Seq<char>>,
    pub target: TargetView,
}

impl View for Item {
    type V = ItemView;

    open spec fn view(&self) -> ItemView {
        ItemView {
            id: self.id@,
            label: self.label@,
            detail: self.detail@,
            search: self.search@,
            preview_pane: self.preview_pane.deep_view(),
            match_paths: self.match_paths.deep_view(),
            target: self.target@,
        }
    }
}

/// A copy of an optional string.
pub fn clone_option_string(value: &Option<String>) -> (r: Option<String>)
    ensures
        r.deep_view() == value.deep_view(),
{
    match value {
        Some(text) => Some(text.clone()),
        None => None,
    }
}

/// A copy of a list of strings.
pub fn clone_strings(values: &Vec<String>) -> (r: Vec<String>)
    ensures
        r.deep_view() == values.deep_view(),
{
    let r = values.clone();
    assert(r.deep_view() =~= values.deep_view());
    r
}

impl Item {
    /// What decides this item's preview.
    pub fn preview_identity(&self) -> (r: PreviewIdentity)
        ensures
            r@ == (PreviewIdentityView {
                item_id: self@.id,
                preview_pane: self@.preview_pane,
                target: self@.target,
            }),
    {
        PreviewIdentity {
            item_id: self.id.clone(),
            preview_pane: clone_option_string(&self.preview_pane),
            target: self.target.duplicate(),
        }
    }

    /// A copy of this item.
    pub fn duplicate(&self) -> (r: Item)
        ensures
            r@ == self@,
    {
        Item {
            id: self.id.clone(),
            label: self.label.clone(),
            detail: self.detail.clone(),
            search: self.search.clone(),
            preview_pane: clone_option_string(&self.preview_pane),
            match_paths: clone_strings(&self.match_paths),
            target: self.target.duplicate(),
        }
    }
}


/// What decides which preview an item shows: changes of any part call
/// for a new preview.
#[derive(Debug, Clone, PartialEq, Eq)]
pub struct PreviewIdentity {
    pub item_id: String,
    pub preview_pane: Option<String>,
    pub target: Target,
}

/// Mathematical value of a [`PreviewIdentity`].
pub struct PreviewIdentityView {
    pub item_id: Seq<char>,
    pub preview_pane: Option<Seq<char>>,
    pub target: TargetView,
}

impl View for PreviewIdentity {
    type V = PreviewIdentityView;

    open spec fn view(&self) -> PreviewIdentityView {
        PreviewIdentityView {
            item_id: self.item_id@,
            preview_pane: self.preview_pane.deep_view(),
            target: self.target@,
        }
    }
}

impl PreviewIdentity {
    /// A copy of this identity.
    pub fn duplicate(&self) -> (r: PreviewIdentity)
        ensures
            r@ == self@,
    {
        PreviewIdentity {
            item_id: self.item_id.clone(),
            preview_pane: clone_option_string(&self.preview_pane),
            target: self.target.duplicate(),
        }
    }

    /// Whether two identities are equal.
    pub fn same(&self, other: &PreviewIdentity) -> (r: bool)
        ensures
            r == (self@ == other@),
    {
        let pane_same = match (&self.preview_pane, &other.preview_pane) {
            (Some(a), Some(b)) => *a == *b,
            (None, None) => true,
            _ => false,
        };
        let target_same = match (&self.target, &other.target) {
            (Target::Workspace { id: a }, Target::Workspace { id: b }) => *a == *b,
            (Target::Agent { pane_id: a }, Target::Agent { pane_id: b }) => *a == *b,
            (Target::Directory { path: a }, Target::Directory { path: b }) => *a == *b,
            _ => false,
        };
        self.item_id == other.item_id && pane_same && target_same
    }
}

/// Which kind of target a history record belongs to.
#[derive(Debug, Clone, Copy, PartialEq, Eq, Hash, Structural)]
pub enum HistoryKind {
    Workspace,
    Agent,
    Directory,
}

/// Identity of an item across refreshes, used to key the visit history.
#[derive(Debug, Clone, PartialEq, Eq, Hash)]
pub struct HistoryKey {
    pub kind: HistoryKind,
    pub id: String,
}

/// Mathematical value of a [`HistoryKey`].
pub type KeyView = (HistoryKind, Seq<char>);

impl View for HistoryKey {
    type V = KeyView;

    open spec fn view(&self) -> KeyView {
        (self.kind, self.id@)
    }
}

impl HistoryKey {
    /// A copy of this key.
    pub fn duplicate(&self) -> (r: HistoryKey)
        ensures
            r@ == self@,
    {
        HistoryKey { kind: self.kind, id: self.id.clone() }
    }

    /// Whether two keys name the same record.
    pub fn same(&self, other: &HistoryKey) -> (r: bool)
        ensures
            r == (self@ == other@),
    {
        self.kind == other.kind && self.id == other.id
    }
}

/// The history kind that belongs to a target.
pub open spec fn target_kind(target: TargetView) -> HistoryKind {
    match target {
        TargetView::Workspace(_) => HistoryKind::Workspace,
        TargetView::Agent(_) => HistoryKind::Agent,
        TargetView::Directory(_) => HistoryKind::Directory,
    }
}

/// The history key of an item: the kind of its target and its id.
pub open spec fn item_key(item: ItemView) -> KeyView {
    (target_kind(item.target), item.id)
}

impl Item {
    /// The key under which the history remembers this item.
    pub fn history_key(&self) -> (r: HistoryKey)
        ensures
            r@ == item_key(self@),
    {
        let kind = match &self.target {
            Target::Workspace { .. } => HistoryKind::Workspace,
            Target::Agent { .. } => HistoryKind::Agent,
            Target::Directory { .. } => HistoryKind::Directory,
        };
        HistoryKey { kind, id: self.id.clone() }
    }
}

// ---------------------------------------------------------------------
// Text matching
// ---------------------------------------------------------------------

/// The lowercase form of a string as `str::to_lowercase` computes it.
pub uninterp spec fn lowercase(s: Seq<char>) -> Seq<char>;

/// Whether every character of `s` is ASCII.
pub open spec fn all_ascii(s: Seq<char>) -> bool {
    forall|i: int| 0 <= i < s.len() ==> (#[trigger] s[i] as u32) < 128
}

/// Lowercases `s` with `str::to_lowercase`; ASCII text is lowercased
/// letter by letter, as Unicode maps the ASCII capitals to the ASCII small
/// letters and leaves the other ASCII characters alone.
#[verifier::external_body]
fn to_lowercase(s: &str) -> (r: String)
    ensures
        r@ == lowercase(s@),
        all_ascii(s@) ==> r@ == s@.map_values(|c: char| crate::input::ascii_lower(c)),
{
    s.to_lowercase()
}

/// Appends `c` to `s` with `String::push`.
#[verifier::external_body]
pub(crate) fn push_char(s: &mut String, c: char)
    ensures
        final(s)@ == old(s)@.push(c),
{
    s.push(c);
}

/// Removes the last character of `s` with `String::pop`.
#[verifier::external_body]
pub(crate) fn pop_char(s: &mut String) -> (r: Option<char>)
    ensures
        old(s)@.len() == 0 ==> r is None && final(s)@ == old(s)@,
        old(s)@.len() > 0 ==> r == Some(old(s)@.last()) && final(s)@ == old(s)@.drop_last(),
{
    s.pop()
}

/// The characters of `s`, in order.
pub fn chars_of(s: &str) -> (r: Vec<char>)
    ensures
        r@ == s@,
{
    let mut r: Vec<char> = Vec::new();
    for c in it: s.chars()
        invariant
            r@ == it.seq().take(it.index() as int),
    {
        r.push(c);
    }
    r
}

/// `idx` picks, in increasing positions of `hay`, the characters of
/// `needle` one by one.
pub open spec fn is_embedding(idx: Seq<int>, needle: Seq<char>, hay: Seq<char>) -> bool {
    &&& idx.len() == needle.len()
    &&& forall|i: int| 0 <= i < idx.len() ==> 0 <= #[trigger] idx[i] < hay.len() && hay[idx[i]] == needle[i]
    &&& forall|i: int, j: int| 0 <= i < j < idx.len() ==> #[trigger] idx[i] < #[trigger] idx[j]
}

/// `needle` is a (not necessarily contiguous) subsequence of `hay`.
pub open spec fn embeds(needle: Seq<char>, hay: Seq<char>) -> bool {
    exists|idx: Seq<int>| is_embedding(idx, needle, hay)
}

spec fn greedy(needle: Seq<char>, hay: Seq<char>) -> bool
    decreases hay.len(),
{
    if needle.len() == 0 {
        true
    } else if hay.len() == 0 {
        false
    } else if needle[0] == hay[0] {
        greedy(needle.drop_first(), hay.drop_first())
    } else {
        greedy(needle, hay.drop_first())
    }
}

proof fn lemma_greedy(needle: Seq<char>, hay: Seq<char>)
    ensures
        greedy(needle, hay) == embeds(needle, hay),
    decreases hay.len(),
{
    if needle.len() == 0 {
        assert(is_embedding(Seq::empty(), needle, hay));
    } else if hay.len() == 0 {
        if embeds(needle, hay) {
            let idx = choose|idx: Seq<int>| is_embedding(idx, needle, hay);
            assert(0 <= idx[0] < hay.len());
        }
    } else {
        let h1 = hay.drop_first();
        if needle[0] == hay[0] {
            let n1 = needle.drop_first();
            lemma_greedy(n1, h1);
            if greedy(n1, h1) {
                let idx1 = choose|idx: Seq<int>| is_embedding(idx, n1, h1);
                let idx = seq![0int] + idx1.map_values(|x: int| x + 1);
                assert forall|i: int| 0 <= i < idx.len() implies 0 <= #[trigger] idx[i] < hay.len()
                    && hay[idx[i]] == needle[i] by {
                    if i > 0 {
                        assert(idx[i] == idx1[i - 1] + 1);
                    }
                }
                assert forall|i: int, j: int| 0 <= i < j < idx.len() implies #[trigger] idx[i]
                    < #[trigger] idx[j] by {
                    if i > 0 {
                        assert(idx1[i - 1] < idx1[j - 1]);
                    } else {
                        assert(0 <= idx1[j - 1]);
                    }
                }
                assert(is_embedding(idx, needle, hay));
            }
            if embeds(needle, hay) {
                let idx = choose|idx: Seq<int>| is_embedding(idx, needle, hay);
                let idx1 = idx.drop_first().map_values(|x: int| x - 1);
                assert forall|i: int| 0 <= i < idx1.len() implies 0 <= #[trigger] idx1[i] < h1.len()
                    && h1[idx1[i]] == n1[i] by {
                    assert(idx[0] < idx[i + 1]);
                }
                assert forall|i: int, j: int| 0 <= i < j < idx1.len() implies #[trigger] idx1[i]
                    < #[trigger] idx1[j] by {
                    assert(idx[i + 1] < idx[j + 1]);
                }
                assert(is_embedding(idx1, n1, h1));
            }
        } else {
            lemma_greedy(needle, h1);
            if greedy(needle, h1) {
                let idx1 = choose|idx: Seq<int>| is_embedding(idx, needle, h1);
                let idx = idx1.map_values(|x: int| x + 1);
                assert forall|i: int| 0 <= i < idx.len() implies 0 <= #[trigger] idx[i] < hay.len()
                    && hay[idx[i]] == needle[i] by {
                    assert(idx[i] == idx1[i] + 1);
                }
                assert forall|i: int, j: int| 0 <= i < j < idx.len() implies #[trigger] idx[i]
                    < #[trigger] idx[j] by {
                    assert(idx1[i] < idx1[j]);
                }
                assert(is_embedding(idx, needle, hay));
            }
            if embeds(needle, hay) {
                let idx = choose|idx: Seq<int>| is_embedding(idx, needle, hay);
                assert(idx[0] != 0);
                let idx1 = idx.map_values(|x: int| x - 1);
                assert forall|i: int| 0 <= i < idx1.len() implies 0 <= #[trigger] idx1[i] < h1.len()
                    && h1[idx1[i]] == needle[i] by {
                    if i > 0 {
                        assert(idx[0] < idx[i]);
                    }
                }
                assert forall|i: int, j: int| 0 <= i < j < idx1.len() implies #[trigger] idx1[i]
                    < #[trigger] idx1[j] by {
                    assert(idx[i] < idx[j]);
                }
                assert(is_embedding(idx1, needle, h1));
            }
        }
    }
}

/// Whether the characters of `needle` occur in `haystack` in order,
/// not necessarily next to each other.
pub fn subsequence(needle: &str, haystack: &str) -> (r: bool)
    ensures
        r == embeds(needle@, haystack@),
{
    let n = chars_of(needle);
    let h = chars_of(haystack);
    let mut k: usize = 0;
    let mut j: usize = 0;
    proof {
        assert(n@.skip(0) =~= n@);
        assert(h@.skip(0) =~= h@);
    }
    while j < h.len()
        invariant
            k <= n@.len(),
            j <= h@.len(),
            greedy(n@, h@) == greedy(n@.skip(k as int), h@.skip(j as int)),
        decreases h@.len() - j,
    {
        proof {
            assert(h@.skip(j as int).drop_first() =~= h@.skip(j + 1));
            if k < n@.len() {
                assert(n@.skip(k as int).drop_first() =~= n@.skip(k + 1));
            }
        }
        if k < n.len() && n[k] == h[j] {
            k = k + 1;
        }
        j = j + 1;
    }
    proof {
        lemma_greedy(n@, h@);
        assert(h@.skip(j as int).len() == 0);
    }
    k == n.len()
}

// ---------------------------------------------------------------------
// Picker state
// ---------------------------------------------------------------------

/// How a tab orders its items.
#[derive(Debug, Clone, Copy, PartialEq, Eq, Structural)]
pub enum SortOrder {
    /// Most recently confirmed first.
    Recent,
    /// Most recently first seen (youngest) first.
    AgeAscending,
    /// Earliest first seen (oldest) first.
    AgeDescending,
}

/// The order that follows `order` when cycling.
pub open spec fn next_order(order: SortOrder) -> SortOrder {
    match order {
        SortOrder::Recent => SortOrder::AgeAscending,
        SortOrder::AgeAscending => SortOrder::AgeDescending,
        SortOrder::AgeDescending => SortOrder::Recent,
    }
}

/// Name of a sort order, shown next to the search field.
pub open spec fn sort_label(order: SortOrder) -> Seq<char> {
    match order {
        SortOrder::Recent => "Recent"@,
        SortOrder::AgeAscending => "Newest"@,
        SortOrder::AgeDescending => "Oldest"@,
    }
}

impl SortOrder {
    /// The order that follows this one when cycling.
    pub fn next(self) -> (r: SortOrder)
        ensures
            r == next_order(self),
    {
        match self {
            SortOrder::Recent => SortOrder::AgeAscending,
            SortOrder::AgeAscending => SortOrder::AgeDescending,
            SortOrder::AgeDescending => SortOrder::Recent,
        }
    }

    /// Name shown next to the search field.
    pub fn label(self) -> (r: &'static str)
        ensures
            r@ == sort_label(self),
    {
        match self {
            SortOrder::Recent => "Recent",
            SortOrder::AgeAscending => "Newest",
            SortOrder::AgeDescending => "Oldest",
        }
    }
}

/// Whether a tab's items are still loading, arrived, or failed.
#[derive(Debug, Clone, PartialEq, Eq)]
pub enum LoadState {
    Loading,
    Ready(Vec<Item>),
    Error(String),
}

/// What the preview pane shows.
#[derive(Debug, Clone, PartialEq, Eq)]
pub enum PreviewState {
    Empty,
    Loading,
    Ready(String),
    Error(String),
}

/// The items of a load state; none unless it is ready.
pub open spec fn source_items(source: LoadState) -> Seq<Item> {
    match source {
        LoadState::Ready(items) => items@,
        _ => Seq::empty(),
    }
}

/// Per-tab state: what was typed, which item is selected, what was
/// loaded and how it is ordered.
#[derive(Debug, Clone)]
pub struct TabState {
    pub query: String,
    pub selected_id: Option<String>,
    pub source: LoadState,
    pub sort: SortOrder,
}

impl Default for TabState {
    fn default() -> (r: Self)
        ensures
            r.query@ == Seq::<char>::empty(),
            r.selected_id is None,
            r.source is Loading,
            r.sort == SortOrder::Recent,
    {
        TabState {
            query: String::new(),
            selected_id: None,
            source: LoadState::Loading,
            sort: SortOrder::Recent,
        }
    }
}

/// When `key` was first seen according to `h`, zero if never.
pub open spec fn first_seen_in(h: Map<KeyView, Entry>, key: KeyView) -> u64 {
    if h.dom().contains(key) {
        h[key].first_seen
    } else {
        0
    }
}

/// Sort rank of an item: higher ranks come first.
pub open spec fn rank(order: SortOrder, h: Map<KeyView, Entry>, item: ItemView) -> int {
    let key = item_key(item);
    match order {
        SortOrder::Recent => if h.dom().contains(key) {
            match h[key].last_accessed {
                Some(t) => t + 1,
                None => 0,
            }
        } else {
            0
        },
        SortOrder::AgeAscending => first_seen_in(h, key) as int,
        SortOrder::AgeDescending => -(first_seen_in(h, key) as int),
    }
}

/// Position `a` comes before position `b`: higher rank first, ties in
/// source order.
pub open spec fn precedes(ranks: Seq<int>, a: int, b: int) -> bool {
    ranks[a] > ranks[b] || (ranks[a] == ranks[b] && a < b)
}

/// `s` with `x` inserted before the first element it precedes.
pub open spec fn insert_sorted(s: Seq<int>, x: int, ranks: Seq<int>) -> Seq<int>
    decreases s.len(),
{
    if s.len() == 0 {
        seq![x]
    } else if precedes(ranks, x, s[0]) {
        seq![x] + s
    } else {
        seq![s[0]] + insert_sorted(s.drop_first(), x, ranks)
    }
}

/// The kept positions among the first `n`, in display order.
pub open spec fn listing_upto(keep: Seq<bool>, ranks: Seq<int>, n: nat) -> Seq<int>
    decreases n,
{
    if n == 0 {
        Seq::empty()
    } else {
        let l = listing_upto(keep, ranks, (n - 1) as nat);
        if keep[n - 1] {
            insert_sorted(l, n - 1, ranks)
        } else {
            l
        }
    }
}

/// All kept positions in display order.
pub open spec fn listing(keep: Seq<bool>, ranks: Seq<int>) -> Seq<int> {
    listing_upto(keep, ranks, keep.len())
}

/// The whole picker: active tab, per-tab state, preview, generations of
/// outstanding requests, and the visit history used for ordering.
#[derive(Debug, Clone)]
pub struct App {
    pub tab: Tab,
    pub tabs: [TabState; 3],
    pub preview: PreviewState,
    pub preview_generation: u64,
    pub refresh_generation: u64,
    pub pending_prefix: bool,
    pub should_close: bool,
    pub warning: Option<String>,
    pub history: History,
    pub workspace_identity: Vec<Item>,
}

/// Items of a tab.
pub open spec fn state_items(st: TabState) -> Seq<Item> {
    source_items(st.source)
}

/// Which items of a tab match its query, case-insensitively.
pub open spec fn state_keeps(st: TabState) -> Seq<bool> {
    Seq::new(
        state_items(st).len(),
        |i: int| embeds(lowercase(st.query@), lowercase(state_items(st)[i].search@)),
    )
}

/// Sort ranks of the items of a tab.
pub open spec fn state_ranks(st: TabState, h: Map<KeyView, Entry>) -> Seq<int> {
    Seq::new(state_items(st).len(), |i: int| rank(st.sort, h, state_items(st)[i]@))
}

/// Positions of the shown items of a tab, in display order.
pub open spec fn state_shown(st: TabState, h: Map<KeyView, Entry>) -> Seq<int> {
    listing(state_keeps(st), state_ranks(st, h))
}

/// Whether `j` is the first position in `shown` whose item has id `id`.
pub open spec fn first_with_id(items: Seq<Item>, shown: Seq<int>, id: Seq<char>, j: int) -> bool {
    &&& 0 <= j < shown.len()
    &&& items[shown[j]].id@ == id
    &&& forall|l: int| 0 <= l < j ==> items[#[trigger] shown[l]].id@ != id
}

/// Position in `shown` of the item the selection points at, if shown.
pub open spec fn position_of_selection(
    items: Seq<Item>,
    shown: Seq<int>,
    selected: Option<String>,
) -> Option<int> {
    match selected {
        Some(id) => if exists|j: int| 0 <= j < shown.len() && items[shown[j]].id@ == id@ {
            Some(choose|j: int| first_with_id(items, shown, id@, j))
        } else {
            None
        },
        None => None,
    }
}

/// Position, among the tab's items, of its selected item: the first shown
/// item with the selected id, else the first shown item.
pub open spec fn state_selected(st: TabState, h: Map<KeyView, Entry>) -> Option<int> {
    let shown = state_shown(st, h);
    match position_of_selection(state_items(st), shown, st.selected_id) {
        Some(j) => Some(shown[j]),
        None => if shown.len() > 0 {
            Some(shown[0])
        } else {
            None
        },
    }
}

/// The selection a tab holds after reconciling: the id of its selected
/// item, if any.
pub open spec fn reconciled(st: TabState, h: Map<KeyView, Entry>) -> Option<String> {
    match state_selected(st, h) {
        Some(i) => Some(state_items(st)[i].id),
        None => None,
    }
}

/// A tab state with its selection reconciled.
pub open spec fn reconcile_state(st: TabState, h: Map<KeyView, Entry>) -> TabState {
    TabState { selected_id: reconciled(st, h), ..st }
}

/// The selection after moving `delta` rows (wrapping) from the selected
/// row, or from the first row when the selection is not shown.
pub open spec fn moved_selection(st: TabState, h: Map<KeyView, Entry>, delta: int) -> Option<
    String,
> {
    let shown = state_shown(st, h);
    if shown.len() == 0 {
        None
    } else {
        let current = match position_of_selection(state_items(st), shown, st.selected_id) {
            Some(j) => j,
            None => 0,
        };
        Some(state_items(st)[shown[(current + delta) % (shown.len() as int)]].id)
    }
}

/// Fields other than the tab states are equal.
pub open spec fn same_outside_tabs(a: App, b: App) -> bool {
    &&& a.tab == b.tab
    &&& a.preview == b.preview
    &&& a.preview_generation == b.preview_generation
    &&& a.refresh_generation == b.refresh_generation
    &&& a.pending_prefix == b.pending_prefix
    &&& a.should_close == b.should_close
    &&& a.warning == b.warning
    &&& a.history == b.history
    &&& a.workspace_identity == b.workspace_identity
}

/// Two item lists hold the same items.
pub open spec fn same_items(a: Seq<Item>, b: Seq<Item>) -> bool {
    &&& a.len() == b.len()
    &&& forall|i: int| 0 <= i < a.len() ==> #[trigger] a[i]@ == b[i]@
}

impl App {
    /// State of the active tab.
    pub open spec fn current(&self) -> TabState {
        self.tabs@[tab_index(self.tab)]
    }

    /// Items of the active tab.
    pub open spec fn items(&self) -> Seq<Item> {
        state_items(self.current())
    }

    /// Positions of the shown items of the active tab, in display order.
    pub open spec fn shown(&self) -> Seq<int> {
        state_shown(self.current(), self.history@)
    }

    /// Position of the selected item among the active tab's items.
    pub open spec fn selected_index(&self) -> Option<int> {
        state_selected(self.current(), self.history@)
    }
}

/// The items of a load state; none unless it is ready.
pub fn items_of(source: &LoadState) -> (r: &[Item])
    ensures
        r@ == source_items(*source),
{
    match source {
        LoadState::Ready(items) => items.as_slice(),
        _ => &[],
    }
}

proof fn lemma_insert_sorted_at(s: Seq<int>, x: int, ranks: Seq<int>, p: int)
    requires
        0 <= p <= s.len(),
        forall|q: int| 0 <= q < p ==> !precedes(ranks, x, #[trigger] s[q]),
        p == s.len() || precedes(ranks, x, s[p]),
    ensures
        insert_sorted(s, x, ranks) == s.insert(p, x),
    decreases s.len(),
{
    if s.len() == 0 {
        assert(s.insert(p, x) =~= seq![x]);
    } else if p == 0 {
        assert(s.insert(0, x) =~= seq![x] + s);
    } else {
        assert(!precedes(ranks, x, s[0]));
        let t = s.drop_first();
        assert forall|q: int| 0 <= q < p - 1 implies !precedes(ranks, x, #[trigger] t[q]) by {
            assert(t[q] == s[q + 1]);
        }
        lemma_insert_sorted_at(t, x, ranks, p - 1);
        assert(seq![s[0]] + t.insert(p - 1, x) =~= s.insert(p, x));
    }
}

impl App {
    /// Sort rank of `item` under `order`, from the history.
    fn rank_of(&self, item: &Item, order: SortOrder) -> (r: i128)
        ensures
            r == rank(order, self.history@, item@),
    {
        let key = item.history_key();
        match order {
            SortOrder::Recent => match self.history.last_accessed(&key) {
                Some(t) => t as i128 + 1,
                None => 0,
            },
            SortOrder::AgeAscending => self.history.first_seen(&key) as i128,
            SortOrder::AgeDescending => -(self.history.first_seen(&key) as i128),
        }
    }

    /// Positions of the shown items of the active tab, in display order.
    pub fn shown_positions(&self) -> (r: Vec<usize>)
        ensures
            r@.len() == self.shown().len(),
            forall|j: int| 0 <= j < r@.len() ==> r@[j] as int == #[trigger] self.shown()[j],
            forall|j: int| 0 <= j < r@.len() ==> #[trigger] r@[j] < self.items().len(),
    {
        let state = &self.tabs[self.tab.index()];
        let items = items_of(&state.source);
        let query = to_lowercase(state.query.as_str());
        let mut keep: Vec<bool> = Vec::new();
        let mut ranks: Vec<i128> = Vec::new();
        let mut i: usize = 0;
        while i < items.len()
            invariant
                i <= items@.len(),
                items@ == state_items(*state),
                query@ == lowercase(state.query@),
                keep@.len() == i,
                ranks@.len() == i,
                forall|a: int| 0 <= a < i ==> #[trigger] keep@[a] == state_keeps(*state)[a],
                forall|a: int| 0 <= a < i ==> #[trigger] ranks@[a] as int == state_ranks(*state, self.history@)[a],
            decreases items@.len() - i,
        {
            let search = to_lowercase(items[i].search.as_str());
            keep.push(subsequence(query.as_str(), search.as_str()));
            ranks.push(self.rank_of(&items[i], state.sort));
            i = i + 1;
        }
        proof {
            assert(keep@ =~= state_keeps(*state));
            assert(int_ranks(ranks@) =~= state_ranks(*state, self.history@));
        }
        listing_positions(&keep, &ranks)
    }
}

/// Machine ranks read as integers.
pub open spec fn int_ranks(ranks: Seq<i128>) -> Seq<int> {
    ranks.map_values(|x: i128| x as int)
}

/// The kept positions in display order: higher rank first, ties in
/// position order.
pub fn listing_positions(keep: &Vec<bool>, ranks: &Vec<i128>) -> (r: Vec<usize>)
    requires
        keep@.len() == ranks@.len(),
    ensures
        r@.len() == listing(keep@, int_ranks(ranks@)).len(),
        forall|j: int|
            0 <= j < r@.len() ==> r@[j] as int == #[trigger] listing(keep@, int_ranks(ranks@))[j],
        forall|j: int| 0 <= j < r@.len() ==> #[trigger] r@[j] < keep@.len(),
{
    let ghost rk = int_ranks(ranks@);
    let ghost kp = keep@;
    let mut shown: Vec<usize> = Vec::new();
    let mut i: usize = 0;
    while i < keep.len()
        invariant
            i <= kp.len(),
            kp == keep@,
            kp.len() == ranks@.len(),
            rk == int_ranks(ranks@),
            shown@.len() == listing_upto(kp, rk, i as nat).len(),
            forall|j: int|
                0 <= j < shown@.len() ==> shown@[j] as int == #[trigger] listing_upto(
                    kp,
                    rk,
                    i as nat,
                )[j],
            forall|j: int| 0 <= j < shown@.len() ==> #[trigger] shown@[j] < i,
        decreases kp.len() - i,
    {
        let ghost before = listing_upto(kp, rk, i as nat);
        if keep[i] {
            let r = ranks[i];
            let mut p: usize = 0;
            while p < shown.len() && !(r > ranks[shown[p]] || (r == ranks[shown[p]] && i < shown[p]))
                invariant
                    p <= shown@.len(),
                    i < kp.len(),
                    kp.len() == ranks@.len(),
                    rk == int_ranks(ranks@),
                    r == ranks@[i as int],
                    forall|j: int| 0 <= j < shown@.len() ==> #[trigger] shown@[j] < i,
                    shown@.len() == before.len(),
                    forall|j: int| 0 <= j < shown@.len() ==> shown@[j] as int == #[trigger] before[j],
                    forall|q: int| 0 <= q < p ==> !precedes(rk, i as int, #[trigger] before[q]),
                decreases shown@.len() - p,
            {
                p = p + 1;
            }
            proof {
                if p < shown@.len() {
                    assert(precedes(rk, i as int, before[p as int]));
                }
                lemma_insert_sorted_at(before, i as int, rk, p as int);
            }
            let ghost old_shown = shown@;
            shown.insert(p, i);
            proof {
                let after = listing_upto(kp, rk, (i + 1) as nat);
                assert(after == before.insert(p as int, i as int));
                assert forall|j: int| 0 <= j < shown@.len() implies shown@[j] as int
                    == #[trigger] after[j] by {
                    if j < p {
                        assert(shown@[j] == old_shown[j]);
                    } else if j > p {
                        assert(shown@[j] == old_shown[j - 1]);
                    }
                }
                assert forall|j: int| 0 <= j < shown@.len() implies #[trigger] shown@[j] < i + 1 by {
                    if j < p {
                        assert(shown@[j] == old_shown[j]);
                    } else if j > p {
                        assert(shown@[j] == old_shown[j - 1]);
                    }
                }
            }
        }
        i = i + 1;
    }
    shown
}

/// Position in `shown` of the first shown item whose id is the selected
/// one, if any.
fn selection_position(items: &[Item], shown: &Vec<usize>, selected: &Option<String>) -> (r: Option<
    usize,
>)
    requires
        forall|j: int| 0 <= j < shown@.len() ==> #[trigger] shown@[j] < items@.len(),
    ensures
        match r {
            Some(j) => position_of_selection(items@, shown@.map_values(|x: usize| x as int), *selected)
                == Some(j as int) && j < shown@.len(),
            None => position_of_selection(items@, shown@.map_values(|x: usize| x as int), *selected)
                is None,
        },
{
    let ghost sh = shown@.map_values(|x: usize| x as int);
    if selected.is_none() {
        return None;
    }
    let id = selected.as_ref().unwrap();
    proof {
        assert(*selected == Some(*id));
    }
    let mut j: usize = 0;
    while j < shown.len()
        invariant
            j <= shown@.len(),
            sh == shown@.map_values(|x: usize| x as int),
            *selected == Some(*id),
            forall|j: int| 0 <= j < shown@.len() ==> #[trigger] shown@[j] < items@.len(),
            forall|l: int| 0 <= l < j ==> items@[#[trigger] sh[l]].id@ != id@,
        decreases shown@.len() - j,
    {
        if items[shown[j]].id == *id {
            proof {
                assert(items@[sh[j as int]].id@ == id@);
                assert(first_with_id(items@, sh, id@, j as int));
                let c = choose|c: int| first_with_id(items@, sh, id@, c);
                if c < j {
                    assert(items@[sh[c]].id@ != id@);
                }
                if c > j {
                    assert(items@[sh[j as int]].id@ != id@);
                }
                assert(c == j);
                assert(exists|k: int| 0 <= k < sh.len() && items@[sh[k]].id@ == id@);
            }
            return Some(j);
        }
        j = j + 1;
    }
    None
}

impl App {
    /// The active tab's state.
    pub fn state(&self) -> (r: &TabState)
        ensures
            *r == self.current(),
    {
        &self.tabs[self.tab.index()]
    }

    /// The active tab's state, for editing.
    pub fn state_mut(&mut self) -> (r: &mut TabState)
        ensures
            *r == old(self).current(),
            final(self).tabs@ == old(self).tabs@.update(tab_index(old(self).tab), *final(r)),
            same_outside_tabs(*final(self), *old(self)),
    {
        &mut self.tabs[self.tab.index()]
    }

    /// The shown items of the active tab, in display order: those whose
    /// search text contains the query as a case-insensitive subsequence,
    /// ordered by the tab's sort order, ties in source order.
    pub fn filtered(&self) -> (r: Vec<&Item>)
        ensures
            r@.len() == self.shown().len(),
            forall|j: int| 0 <= j < r@.len() ==> *r@[j] == self.items()[#[trigger] self.shown()[j]],
    {
        let shown = self.shown_positions();
        let items = items_of(&self.tabs[self.tab.index()].source);
        let mut r: Vec<&Item> = Vec::new();
        let mut j: usize = 0;
        while j < shown.len()
            invariant
                j <= shown@.len(),
                items@ == self.items(),
                shown@.len() == self.shown().len(),
                forall|j: int| 0 <= j < shown@.len() ==> shown@[j] as int == #[trigger] self.shown()[j],
                forall|j: int| 0 <= j < shown@.len() ==> #[trigger] shown@[j] < self.items().len(),
                r@.len() == j,
                forall|l: int| 0 <= l < j ==> *r@[l] == self.items()[#[trigger] self.shown()[l]],
            decreases shown@.len() - j,
        {
            r.push(&items[shown[j]]);
            j = j + 1;
        }
        r
    }

    /// The selected item of the active tab: the first shown item with the
    /// selected id, else the first shown item.
    pub fn selected(&self) -> (r: Option<&Item>)
        ensures
            match r {
                Some(item) => self.selected_index() matches Some(i) && 0 <= i < self.items().len()
                    && *item == self.items()[i],
                None => self.selected_index() is None,
            },
    {
        let shown = self.shown_positions();
        let state = &self.tabs[self.tab.index()];
        let items = items_of(&state.source);
        proof {
            assert(shown@.map_values(|x: usize| x as int) =~= self.shown());
        }
        match selection_position(items, &shown, &state.selected_id) {
            Some(j) => Some(&items[shown[j]]),
            None => if shown.len() > 0 {
                Some(&items[shown[0]])
            } else {
                None
            },
        }
    }

    /// Points the active tab's selection at its selected item (or at
    /// nothing when no item is shown).
    pub fn reconcile_selection(&mut self)
        ensures
            final(self).tabs@ == old(self).tabs@.update(
                tab_index(old(self).tab),
                reconcile_state(old(self).current(), old(self).history@),
            ),
            same_outside_tabs(*final(self), *old(self)),
    {
        let selected = match self.selected() {
            Some(item) => Some(item.id.clone()),
            None => None,
        };
        let i = self.tab.index();
        self.tabs[i].selected_id = selected;
        proof {
            assert(self.tabs@ =~= old(self).tabs@.update(
                tab_index(old(self).tab),
                reconcile_state(old(self).current(), old(self).history@),
            ));
        }
    }
}

/// Copies of `items`.
pub fn duplicate_items(items: &[Item]) -> (r: Vec<Item>)
    ensures
        same_items(r@, items@),
{
    let mut r: Vec<Item> = Vec::new();
    let mut i: usize = 0;
    while i < items.len()
        invariant
            i <= items@.len(),
            r@.len() == i,
            forall|j: int| 0 <= j < i ==> #[trigger] r@[j]@ == items@[j]@,
        decreases items@.len() - i,
    {
        r.push(items[i].duplicate());
        i = i + 1;
    }
    r
}

impl App {
    /// A picker showing `tab`, with every tab loading, nothing selected,
    /// no preview and an empty history.
    pub fn new(tab: Tab) -> (r: App)
        ensures
            r.tab == tab,
            forall|i: int|
                0 <= i < 3 ==> (#[trigger] r.tabs@[i]).query@ == Seq::<char>::empty()
                    && r.tabs@[i].selected_id is None && r.tabs@[i].source is Loading
                    && r.tabs@[i].sort == SortOrder::Recent,
            r.preview is Empty,
            r.preview_generation == 0,
            r.refresh_generation == 0,
            !r.pending_prefix,
            !r.should_close,
            r.warning is None,
            r.history@ == Map::<KeyView, Entry>::empty(),
            r.workspace_identity@.len() == 0,
    {
        App {
            tab,
            tabs: [TabState::default(), TabState::default(), TabState::default()],
            preview: PreviewState::Empty,
            preview_generation: 0,
            refresh_generation: 0,
            pending_prefix: false,
            should_close: false,
            warning: None,
            history: History::new(),
            workspace_identity: Vec::new(),
        }
    }

    /// Items of the last successful workspace load, kept across failed
    /// refreshes so that directories can still be matched to workspaces.
    pub fn workspace_identity(&self) -> (r: &[Item])
        ensures
            r@ == self.workspace_identity@,
    {
        self.workspace_identity.as_slice()
    }

    /// Stores freshly loaded items for `tab`, keeping its selection (and
    /// reconciling it when `tab` is active). Loaded workspaces also become
    /// the workspace identity.
    pub fn set_items(&mut self, tab: Tab, items: Vec<Item>)
        ensures
            final(self).tabs@ == old(self).tabs@.update(
                tab_index(tab),
                if tab == old(self).tab {
                    reconcile_state(
                        TabState { source: LoadState::Ready(items), ..old(self).tabs@[tab_index(tab)] },
                        old(self).history@,
                    )
                } else {
                    TabState { source: LoadState::Ready(items), ..old(self).tabs@[tab_index(tab)] }
                },
            ),
            tab == Tab::Workspaces ==> same_items(final(self).workspace_identity@, items@),
            tab != Tab::Workspaces ==> final(self).workspace_identity == old(self).workspace_identity,
            final(self).tab == old(self).tab,
            final(self).preview == old(self).preview,
            final(self).preview_generation == old(self).preview_generation,
            final(self).refresh_generation == old(self).refresh_generation,
            final(self).pending_prefix == old(self).pending_prefix,
            final(self).should_close == old(self).should_close,
            final(self).warning == old(self).warning,
            final(self).history == old(self).history,
    {
        if tab == Tab::Workspaces {
            self.workspace_identity = duplicate_items(items.as_slice());
        }
        let i = tab.index();
        self.tabs[i].source = LoadState::Ready(items);
        if tab == self.tab {
            self.reconcile_selection();
        }
        proof {
            if tab != old(self).tab {
                assert(self.tabs@ =~= old(self).tabs@.update(
                    tab_index(tab),
                    TabState { source: LoadState::Ready(items), ..old(self).tabs@[tab_index(tab)] },
                ));
            } else {
                assert(self.tabs@ =~= old(self).tabs@.update(
                    tab_index(tab),
                    reconcile_state(
                        TabState { source: LoadState::Ready(items), ..old(self).tabs@[tab_index(tab)] },
                        old(self).history@,
                    ),
                ));
            }
        }
    }

    /// Moves the selection `delta` rows through the shown items, wrapping
    /// at both ends; starts from the first row when the selection is not
    /// shown, and clears it when nothing is shown.
    pub fn move_selection(&mut self, delta: isize)
        ensures
            final(self).tabs@ == old(self).tabs@.update(
                tab_index(old(self).tab),
                TabState {
                    selected_id: moved_selection(old(self).current(), old(self).history@, delta as int),
                    ..old(self).current()
                },
            ),
            same_outside_tabs(*final(self), *old(self)),
    {
        let shown = self.shown_positions();
        let i = self.tab.index();
        if shown.len() == 0 {
            self.tabs[i].selected_id = None;
            proof {
                assert(self.tabs@ =~= old(self).tabs@.update(
                    tab_index(old(self).tab),
                    TabState {
                        selected_id: moved_selection(old(self).current(), old(self).history@, delta as int),
                        ..old(self).current()
                    },
                ));
            }
            return;
        }
        let items = items_of(&self.tabs[i].source);
        proof {
            assert(shown@.map_values(|x: usize| x as int) =~= self.shown());
        }
        let current: usize = match selection_position(items, &shown, &self.tabs[i].selected_id) {
            Some(j) => j,
            None => 0,
        };
        let len = shown.len() as u128;
        let x: i128 = current as i128 + delta as i128;
        let next: u128 = if x >= 0 {
            (x as u128) % len
        } else {
            let r = ((-x) as u128) % len;
            if r == 0 {
                0
            } else {
                len - r
            }
        };
        proof {
            let xi = x as int;
            let li = len as int;
            if x < 0 {
                let r = (-xi) % li;
                let q = (-xi) / li;
                assert(-xi == q * li + r && 0 <= r < li) by (nonlinear_arith)
                    requires
                        li > 0,
                        -xi >= 0,
                        r == (-xi) % li,
                        q == (-xi) / li,
                ;
                if r == 0 {
                    assert(xi % li == 0) by (nonlinear_arith)
                        requires
                            li > 0,
                            -xi == q * li,
                    {
                        assert(xi == (-q) * li);
                    }
                } else {
                    assert(xi % li == li - r) by (nonlinear_arith)
                        requires
                            li > 0,
                            0 < r < li,
                            -xi == q * li + r,
                    {
                        assert(xi == (-q - 1) * li + (li - r));
                    }
                }
            }
            assert(next as int == (current as int + delta as int) % (len as int));
        }
        let id = items[shown[next as usize]].id.clone();
        self.tabs[i].selected_id = Some(id);
        proof {
            assert(self.tabs@ =~= old(self).tabs@.update(
                tab_index(old(self).tab),
                TabState {
                    selected_id: moved_selection(old(self).current(), old(self).history@, delta as int),
                    ..old(self).current()
                },
            ));
        }
    }

    /// Activates `tab`, cancels a pending prefix chord and reconciles the
    /// new tab's selection.
    pub fn switch_tab(&mut self, tab: Tab)
        ensures
            final(self).tab == tab,
            !final(self).pending_prefix,
            final(self).tabs@ == old(self).tabs@.update(
                tab_index(tab),
                reconcile_state(old(self).tabs@[tab_index(tab)], old(self).history@),
            ),
            final(self).preview == old(self).preview,
            final(self).preview_generation == old(self).preview_generation,
            final(self).refresh_generation == old(self).refresh_generation,
            final(self).should_close == old(self).should_close,
            final(self).warning == old(self).warning,
            final(self).history == old(self).history,
            final(self).workspace_identity == old(self).workspace_identity,
    {
        self.tab = tab;
        self.pending_prefix = false;
        self.reconcile_selection();
    }

    /// Shows `preview` if it answers the latest preview request.
    pub fn apply_preview(&mut self, generation: u64, preview: PreviewState)
        ensures
            final(self).preview == (if generation == old(self).preview_generation {
                preview
            } else {
                old(self).preview
            }),
            final(self).tab == old(self).tab,
            final(self).tabs == old(self).tabs,
            final(self).preview_generation == old(self).preview_generation,
            final(self).refresh_generation == old(self).refresh_generation,
            final(self).pending_prefix == old(self).pending_prefix,
            final(self).should_close == old(self).should_close,
            final(self).warning == old(self).warning,
            final(self).history == old(self).history,
            final(self).workspace_identity == old(self).workspace_identity,
    {
        if generation == self.preview_generation {
            self.preview = preview;
        }
    }

    /// Switches the active tab to the next sort order and reconciles its
    /// selection.
    pub fn cycle_sort(&mut self)
        ensures
            final(self).tabs@ == old(self).tabs@.update(
                tab_index(old(self).tab),
                reconcile_state(
                    TabState { sort: next_order(old(self).current().sort), ..old(self).current() },
                    old(self).history@,
                ),
            ),
            same_outside_tabs(*final(self), *old(self)),
    {
        let i = self.tab.index();
        let next = self.tabs[i].sort.next();
        self.tabs[i].sort = next;
        self.reconcile_selection();
        proof {
            assert(self.tabs@ =~= old(self).tabs@.update(
                tab_index(old(self).tab),
                reconcile_state(
                    TabState { sort: next_order(old(self).current().sort), ..old(self).current() },
                    old(self).history@,
                ),
            ));
        }
    }

    /// Replaces the history used for ordering and reconciles the active
    /// tab's selection.
    pub fn set_history(&mut self, history: History)
        ensures
            final(self).history == history,
            final(self).tabs@ == old(self).tabs@.update(
                tab_index(old(self).tab),
                reconcile_state(old(self).current(), history@),
            ),
            final(self).tab == old(self).tab,
            final(self).preview == old(self).preview,
            final(self).preview_generation == old(self).preview_generation,
            final(self).refresh_generation == old(self).refresh_generation,
            final(self).pending_prefix == old(self).pending_prefix,
            final(self).should_close == old(self).should_close,
            final(self).warning == old(self).warning,
            final(self).workspace_identity == old(self).workspace_identity,
    {
        self.history = history;
        self.reconcile_selection();
    }
}

// ---------------------------------------------------------------------
// Laws
// ---------------------------------------------------------------------

/// Every position of `s` comes before each later one in display order.
pub open spec fn sorted_by(s: Seq<int>, ranks: Seq<int>) -> bool {
    forall|a: int, b: int|
        0 <= a < b < s.len() ==> precedes(ranks, #[trigger] s[a], #[trigger] s[b])
}

proof fn lemma_insert_sorted_props(s: Seq<int>, x: int, ranks: Seq<int>)
    requires
        sorted_by(s, ranks),
        s.no_duplicates(),
        !s.contains(x),
    ensures
        insert_sorted(s, x, ranks).len() == s.len() + 1,
        forall|y: int|
            #[trigger] insert_sorted(s, x, ranks).contains(y) <==> (y == x || s.contains(y)),
        insert_sorted(s, x, ranks).no_duplicates(),
        sorted_by(insert_sorted(s, x, ranks), ranks),
    decreases s.len(),
{
    let t = insert_sorted(s, x, ranks);
    if s.len() == 0 {
        assert(t =~= seq![x]);
        assert forall|y: int| #[trigger] t.contains(y) <==> (y == x || s.contains(y)) by {
            if y == x {
                assert(t[0] == y);
            }
        }
    } else if precedes(ranks, x, s[0]) {
        assert(t =~= seq![x] + s);
        assert forall|y: int| #[trigger] t.contains(y) <==> (y == x || s.contains(y)) by {
            if t.contains(y) {
                let k = choose|k: int| 0 <= k < t.len() && t[k] == y;
                if k > 0 {
                    assert(s[k - 1] == y);
                }
            }
            if y == x {
                assert(t[0] == y);
            }
            if s.contains(y) {
                let k = choose|k: int| 0 <= k < s.len() && s[k] == y;
                assert(t[k + 1] == y);
            }
        }
        assert forall|a: int, b: int|
            0 <= a < t.len() && 0 <= b < t.len() && a != b implies t[a] != t[b] by {
            if a == 0 {
                assert(s.contains(t[b]));
            } else if b == 0 {
                assert(s.contains(t[a]));
            } else {
                assert(t[a] == s[a - 1] && t[b] == s[b - 1]);
            }
        }
        assert forall|a: int, b: int| 0 <= a < b < t.len() implies precedes(
            ranks,
            #[trigger] t[a],
            #[trigger] t[b],
        ) by {
            if a == 0 {
                if b > 1 {
                    assert(precedes(ranks, s[0], s[b - 1]));
                }
            } else {
                assert(precedes(ranks, s[a - 1], s[b - 1]));
            }
        }
    } else {
        let rest = s.drop_first();
        assert forall|a: int, b: int| 0 <= a < b < rest.len() implies precedes(
            ranks,
            #[trigger] rest[a],
            #[trigger] rest[b],
        ) by {
            assert(precedes(ranks, s[a + 1], s[b + 1]));
        }
        assert forall|a: int, b: int|
            0 <= a < rest.len() && 0 <= b < rest.len() && a != b implies rest[a] != rest[b] by {
            assert(s[a + 1] != s[b + 1]);
        }
        if rest.contains(x) {
            let k = choose|k: int| 0 <= k < rest.len() && rest[k] == x;
            assert(s[k + 1] == x);
            assert(s.contains(x));
        }
        lemma_insert_sorted_props(rest, x, ranks);
        let u = insert_sorted(rest, x, ranks);
        assert(t =~= seq![s[0]] + u);
        assert forall|y: int| #[trigger] t.contains(y) <==> (y == x || s.contains(y)) by {
            if t.contains(y) {
                let k = choose|k: int| 0 <= k < t.len() && t[k] == y;
                if k == 0 {
                    assert(s[0] == y);
                } else {
                    assert(u[k - 1] == y);
                    assert(u.contains(y));
                    if rest.contains(y) {
                        let m = choose|m: int| 0 <= m < rest.len() && rest[m] == y;
                        assert(s[m + 1] == y);
                    }
                }
            }
            if y == x {
                assert(u.contains(y));
                let k = choose|k: int| 0 <= k < u.len() && u[k] == y;
                assert(t[k + 1] == y);
            }
            if s.contains(y) {
                let k = choose|k: int| 0 <= k < s.len() && s[k] == y;
                if k == 0 {
                    assert(t[0] == y);
                } else {
                    assert(rest[k - 1] == y);
                    assert(rest.contains(y));
                    assert(u.contains(y));
                    let m = choose|m: int| 0 <= m < u.len() && u[m] == y;
                    assert(t[m + 1] == y);
                }
            }
        }
        assert forall|b: int| 0 < b < t.len() implies t[b] != s[0] && precedes(
            ranks,
            s[0],
            #[trigger] t[b],
        ) by {
            let y = t[b];
            assert(u[b - 1] == y);
            assert(u.contains(y));
            if y != x {
                assert(rest.contains(y));
                let m = choose|m: int| 0 <= m < rest.len() && rest[m] == y;
                assert(s[m + 1] == y);
                assert(precedes(ranks, s[0], s[m + 1]));
            } else {
                assert(s.contains(s[0]));
            }
        }
        assert forall|a: int, b: int|
            0 <= a < t.len() && 0 <= b < t.len() && a != b implies t[a] != t[b] by {
            if a == 0 {
                assert(t[b] != s[0]);
            } else if b == 0 {
                assert(t[a] != s[0]);
            } else {
                assert(t[a] == u[a - 1] && t[b] == u[b - 1]);
            }
        }
        assert forall|a: int, b: int| 0 <= a < b < t.len() implies precedes(
            ranks,
            #[trigger] t[a],
            #[trigger] t[b],
        ) by {
            if a == 0 {
                assert(precedes(ranks, s[0], t[b]));
            } else {
                assert(t[a] == u[a - 1] && t[b] == u[b - 1]);
                assert(precedes(ranks, u[a - 1], u[b - 1]));
            }
        }
    }
}

proof fn lemma_listing_upto(keep: Seq<bool>, ranks: Seq<int>, n: nat)
    requires
        n <= keep.len(),
    ensures
        listing_upto(keep, ranks, n).no_duplicates(),
        sorted_by(listing_upto(keep, ranks, n), ranks),
        forall|i: int|
            #[trigger] listing_upto(keep, ranks, n).contains(i) <==> (0 <= i < n && keep[i]),
    decreases n,
{
    if n > 0 {
        lemma_listing_upto(keep, ranks, (n - 1) as nat);
        let l = listing_upto(keep, ranks, (n - 1) as nat);
        if keep[n - 1] {
            assert(!l.contains(n - 1));
            lemma_insert_sorted_props(l, n - 1, ranks);
        }
    } else {
        assert forall|i: int|
            #[trigger] listing_upto(keep, ranks, n).contains(i) <==> (0 <= i < n && keep[i]) by {
            if listing_upto(keep, ranks, n).contains(i) {
                let k = choose|k: int|
                    0 <= k < listing_upto(keep, ranks, n).len() && listing_upto(keep, ranks, n)[k]
                        == i;
            }
        }
    }
}

/// A listing holds exactly the kept positions, each once, every one
/// before each later one in display order (higher rank first, ties in
/// position order).
pub proof fn lemma_listing(keep: Seq<bool>, ranks: Seq<int>)
    ensures
        listing(keep, ranks).no_duplicates(),
        sorted_by(listing(keep, ranks), ranks),
        forall|i: int|
            #[trigger] listing(keep, ranks).contains(i) <==> (0 <= i < keep.len() && keep[i]),
{
    lemma_listing_upto(keep, ranks, keep.len());
}

/// The rows shown for a tab are exactly the positions of its items whose
/// search text holds the query as a case-insensitive subsequence, each
/// once, and every row comes before each later one: higher rank first,
/// ties in source order.
pub proof fn lemma_shown_rows(st: TabState, h: Map<KeyView, Entry>)
    ensures
        state_shown(st, h).no_duplicates(),
        sorted_by(state_shown(st, h), state_ranks(st, h)),
        forall|i: int|
            #[trigger] state_shown(st, h).contains(i) <==> (0 <= i < state_items(st).len()
                && embeds(lowercase(st.query@), lowercase(state_items(st)[i].search@))),
{
    lemma_listing(state_keeps(st), state_ranks(st, h));
}

proof fn lemma_first_exists(items: Seq<Item>, shown: Seq<int>, id: Seq<char>, w: int)
    requires
        0 <= w < shown.len(),
        items[shown[w]].id@ == id,
    ensures
        exists|j: int| first_with_id(items, shown, id, j),
    decreases w,
{
    if exists|l: int| 0 <= l < w && items[#[trigger] shown[l]].id@ == id {
        let l = choose|l: int| 0 <= l < w && items[#[trigger] shown[l]].id@ == id;
        lemma_first_exists(items, shown, id, l);
    } else {
        assert(first_with_id(items, shown, id, w));
    }
}

/// Reconciling keeps a selection whose item is shown.
pub proof fn lemma_reconcile_keeps_shown_selection(st: TabState, h: Map<KeyView, Entry>, w: int)
    requires
        st.selected_id is Some,
        0 <= w < state_shown(st, h).len(),
        state_items(st)[state_shown(st, h)[w]].id@ == st.selected_id.unwrap()@,
    ensures
        reconciled(st, h) matches Some(id) && id@ == st.selected_id.unwrap()@,
{
    let shown = state_shown(st, h);
    let id = st.selected_id.unwrap();
    lemma_first_exists(state_items(st), shown, id@, w);
}

/// Reconciling a second time changes nothing: the selection it leaves
/// points at a shown item (or is empty when nothing is shown).
pub proof fn lemma_reconcile_stable(st: TabState, h: Map<KeyView, Entry>)
    ensures
        match (reconciled(reconcile_state(st, h), h), reconciled(st, h)) {
            (Some(a), Some(b)) => a@ == b@,
            (None, None) => true,
            _ => false,
        },
{
    let shown = state_shown(st, h);
    let st2 = reconcile_state(st, h);
    assert(state_shown(st2, h) == shown);
    assert(state_items(st2) == state_items(st));
    match state_selected(st, h) {
        Some(i) => {
            let w = match position_of_selection(state_items(st), shown, st.selected_id) {
                Some(j) => {
                    let id = st.selected_id.unwrap();
                    lemma_first_exists(state_items(st), shown, id@, choose|j: int| 0 <= j < shown.len() && state_items(st)[shown[j]].id@ == id@);
                    j
                },
                None => 0,
            };
            assert(shown[w] == i);
            lemma_reconcile_keeps_shown_selection(st2, h, w);
        },
        None => {},
    }
}

/// Stepping to an adjacent tab and back returns to the start.
pub proof fn lemma_adjacent_inverse(tab: Tab, delta: int)
    ensures
        tab_at(tab_index(tab_at(tab_index(tab) + delta)) - delta) == tab,
{
    let i = tab_index(tab);
    let m = (i + delta) % 3;
    assert(tab_index(tab_at(i + delta)) == m);
    assert((m - delta) % 3 == i) by (nonlinear_arith)
        requires
            0 <= i < 3,
            m == (i + delta) % 3,
    ;
}

/// Whether the history records a confirmation of `item`.
pub open spec fn confirmed(h: Map<KeyView, Entry>, item: ItemView) -> bool {
    h.dom().contains(item_key(item)) && h[item_key(item)].last_accessed is Some
}

/// Under the Recent order, every confirmed row comes before every row
/// never confirmed; confirmed rows come latest confirmation first; rows
/// never confirmed keep their source order, whenever they were first
/// seen.
pub proof fn lemma_recent_confirmed_first(st: TabState, h: Map<KeyView, Entry>, p: int, q: int)
    requires
        st.sort == SortOrder::Recent,
        0 <= p < q < state_shown(st, h).len(),
    ensures
        ({
            let shown = state_shown(st, h);
            let x = state_items(st)[shown[p]]@;
            let y = state_items(st)[shown[q]]@;
            &&& confirmed(h, y) ==> confirmed(h, x) && h[item_key(x)].last_accessed.unwrap()
                >= h[item_key(y)].last_accessed.unwrap()
            &&& !confirmed(h, x) ==> !confirmed(h, y) && shown[p] < shown[q]
        }),
{
    let shown = state_shown(st, h);
    let ranks = state_ranks(st, h);
    lemma_shown_rows(st, h);
    assert(shown.contains(shown[p]));
    assert(shown.contains(shown[q]));
    assert(precedes(ranks, shown[p], shown[q]));
    assert(ranks[shown[p]] == rank(st.sort, h, state_items(st)[shown[p]]@));
    assert(ranks[shown[q]] == rank(st.sort, h, state_items(st)[shown[q]]@));
}

/// Under the Newest order rows come latest first sighting first, under
/// the Oldest order earliest first sighting first (never-seen items count
/// as first seen at zero); rows first seen at the same instant keep their
/// source order.
pub proof fn lemma_age_orders(st: TabState, h: Map<KeyView, Entry>, p: int, q: int)
    requires
        st.sort != SortOrder::Recent,
        0 <= p < q < state_shown(st, h).len(),
    ensures
        ({
            let shown = state_shown(st, h);
            let fx = first_seen_in(h, item_key(state_items(st)[shown[p]]@));
            let fy = first_seen_in(h, item_key(state_items(st)[shown[q]]@));
            &&& st.sort == SortOrder::AgeAscending ==> fx >= fy
            &&& st.sort == SortOrder::AgeDescending ==> fx <= fy
            &&& fx == fy ==> shown[p] < shown[q]
        }),
{
    let shown = state_shown(st, h);
    let ranks = state_ranks(st, h);
    lemma_shown_rows(st, h);
    assert(shown.contains(shown[p]));
    assert(shown.contains(shown[q]));
    assert(precedes(ranks, shown[p], shown[q]));
    assert(ranks[shown[p]] == rank(st.sort, h, state_items(st)[shown[p]]@));
    assert(ranks[shown[q]] == rank(st.sort, h, state_items(st)[shown[q]]@));
}

/// Two items share a history record exactly when their targets are of
/// the same kind and their ids are equal: labels and other fields play no
/// part.
pub proof fn lemma_history_keys_identify_items(x: ItemView, y: ItemView)
    ensures
        item_key(x) == item_key(y) <==> (target_kind(x.target) == target_kind(y.target) && x.id
            == y.id),
{
}

} // verus!
