use vstd::prelude::*;

use crate::model::{
    chars_of, int_ranks, lemma_listing, listing, listing_positions, precedes, sorted_by, Item,
    ItemView,
    Target, TargetView,
};
use crate::text::{append_str, file_name, is_white_space, same_text, sensible_label, white_space};

verus! {

/// A workspace as `herdr workspace list` reports it. The resolved paths
/// are the reported ones as the file system resolves them (canonical when
/// the directory exists, else lexically normalized); they are what
/// directories are matched against.
#[derive(Debug, Clone)]
pub struct Workspace {
    pub id: String,
    pub label: String,
    pub cwd: Option<String>,
    pub foreground_cwd: Option<String>,
    pub focused: bool,
    pub resolved_cwd: Option<String>,
    pub resolved_foreground_cwd: Option<String>,
}

/// A pane as `herdr pane list` reports it, with resolved paths as for
/// [`Workspace`].
#[derive(Debug, Clone)]
pub struct Pane {
    pub id: String,
    pub workspace_id: String,
    pub cwd: Option<String>,
    pub foreground_cwd: Option<String>,
    pub agent_status: Option<String>,
    pub state_change_seq: u64,
    pub focused: bool,
    pub resolved_cwd: Option<String>,
    pub resolved_foreground_cwd: Option<String>,
}

/// An agent as `herdr agent list` reports it.
#[derive(Debug, Clone)]
pub struct Agent {
    pub pane: String,
    pub workspace_id: Option<String>,
    pub kind: Option<String>,
    pub status: Option<String>,
    pub terminal_title_stripped: Option<String>,
    pub cwd: Option<String>,
    pub state_change_seq: u64,
}

/// How urgently an agent status asks for attention.
pub open spec fn status_rank(status: Seq<char>) -> int {
    if status == "blocked"@ {
        4
    } else if status == "done"@ {
        3
    } else if status == "working"@ {
        2
    } else if status == "idle"@ {
        1
    } else {
        0
    }
}

/// How urgently an agent status asks for attention: blocked, done,
/// working, idle, then anything else.
pub fn status_priority(status: &str) -> (r: u8)
    ensures
        r == status_rank(status@),
{
    if same_text(status, "blocked") {
        4
    } else if same_text(status, "done") {
        3
    } else if same_text(status, "working") {
        2
    } else if same_text(status, "idle") {
        1
    } else {
        0
    }
}

/// The text of an optional string, or `default`.
pub open spec fn or_default(value: Option<String>, default: Seq<char>) -> Seq<char> {
    match value {
        Some(s) => s@,
        None => default,
    }
}

/// The text of an optional string slice.
pub open spec fn opt_text(value: Option<&str>) -> Option<Seq<char>> {
    match value {
        Some(s) => Some(s@),
        None => None,
    }
}

/// Ordering key of a status and a change counter: status first, then the
/// counter (the counter never reaches the status step).
pub open spec fn activity_key(status: Option<String>, seq: u64) -> int {
    status_rank(or_default(status, "unknown"@)) * 0x1_0000_0000_0000_0000 + seq
}

fn activity(status: &Option<String>, seq: u64) -> (r: i128)
    ensures
        r == activity_key(*status, seq),
{
    let p: u8 = match status {
        Some(s) => status_priority(s.as_str()),
        None => status_priority("unknown"),
    };
    proof {
        if status is None {
            reveal_strlit("unknown");
            reveal_strlit("blocked");
            reveal_strlit("done");
            reveal_strlit("working");
            reveal_strlit("idle");
            assert("unknown"@[0] != "blocked"@[0]);
            assert("unknown"@[0] != "done"@[0]);
            assert("unknown"@[0] != "working"@[0]);
            assert("unknown"@[0] != "idle"@[0]);
        }
    }
    p as i128 * 0x1_0000_0000_0000_0000i128 + seq as i128
}

/// Whether `value` holds exactly the text `text`.
fn holds(value: Option<&str>, text: &str) -> (r: bool)
    ensures
        r == (opt_text(value) == Some(text@)),
{
    match value {
        Some(s) => same_text(s, text),
        None => false,
    }
}

// ---------------------------------------------------------------------
// Workspaces
// ---------------------------------------------------------------------

/// Whether a pane belongs to a workspace's row: it is in the workspace and
/// is not the picker's own pane.
pub open spec fn candidate(p: Pane, w: Workspace, self_pane: Option<Seq<char>>) -> bool {
    p.workspace_id@ == w.id@ && self_pane != Some(p.id@)
}

/// The first focused candidate among the first `n` panes.
pub open spec fn focused_upto(
    panes: Seq<Pane>,
    w: Workspace,
    self_pane: Option<Seq<char>>,
    n: nat,
) -> Option<int>
    decreases n,
{
    if n == 0 {
        None
    } else {
        match focused_upto(panes, w, self_pane, (n - 1) as nat) {
            Some(i) => Some(i),
            None => if candidate(panes[n - 1], w, self_pane) && panes[n - 1].focused {
                Some(n - 1)
            } else {
                None
            },
        }
    }
}

/// Ordering key of a pane: its agent status, then its change counter.
pub open spec fn pane_key(p: Pane) -> int {
    activity_key(p.agent_status, p.state_change_seq)
}

/// The candidate with the greatest key among the first `n` panes, the
/// last one among equals.
pub open spec fn busiest_upto(
    panes: Seq<Pane>,
    w: Workspace,
    self_pane: Option<Seq<char>>,
    n: nat,
) -> Option<int>
    decreases n,
{
    if n == 0 {
        None
    } else {
        let prev = busiest_upto(panes, w, self_pane, (n - 1) as nat);
        if candidate(panes[n - 1], w, self_pane) && (prev is None || pane_key(panes[n - 1])
            >= pane_key(panes[prev.unwrap()])) {
            Some(n - 1)
        } else {
            prev
        }
    }
}

/// The pane that represents a workspace: its first focused candidate,
/// else its busiest candidate.
pub open spec fn chosen_pane(panes: Seq<Pane>, w: Workspace, self_pane: Option<Seq<char>>) -> Option<
    int,
> {
    match focused_upto(panes, w, self_pane, panes.len()) {
        Some(i) => Some(i),
        None => busiest_upto(panes, w, self_pane, panes.len()),
    }
}

/// The directory a pane shows: its foreground directory, else its
/// directory, else nothing.
pub open spec fn pane_dir(p: Pane) -> Seq<char> {
    match p.foreground_cwd {
        Some(d) => d@,
        None => or_default(p.cwd, Seq::empty()),
    }
}

/// An optional path as a list of zero or one paths.
pub open spec fn opt_path(value: Option<String>) -> Seq<Seq<char>> {
    match value {
        Some(s) => seq![s@],
        None => Seq::empty(),
    }
}

/// The resolved directories (foreground ones when `foreground`) of the
/// candidates among the first `n` panes, in pane order.
pub open spec fn pane_paths(
    panes: Seq<Pane>,
    w: Workspace,
    self_pane: Option<Seq<char>>,
    n: nat,
    foreground: bool,
) -> Seq<Seq<char>>
    decreases n,
{
    if n == 0 {
        Seq::empty()
    } else {
        let rest = pane_paths(panes, w, self_pane, (n - 1) as nat, foreground);
        if candidate(panes[n - 1], w, self_pane) {
            rest + opt_path(
                if foreground {
                    panes[n - 1].resolved_foreground_cwd
                } else {
                    panes[n - 1].resolved_cwd
                },
            )
        } else {
            rest
        }
    }
}

/// `d` with `x` added at the end unless it is already there.
pub open spec fn add_distinct(d: Seq<Seq<char>>, x: Seq<char>) -> Seq<Seq<char>> {
    if d.contains(x) {
        d
    } else {
        d.push(x)
    }
}

/// The paths of `s` in order of first occurrence, each once.
pub open spec fn distinct_paths(s: Seq<Seq<char>>) -> Seq<Seq<char>>
    decreases s.len(),
{
    if s.len() == 0 {
        Seq::empty()
    } else {
        add_distinct(distinct_paths(s.drop_last()), s.last())
    }
}

/// Every path a directory may be matched with to find a workspace: the
/// workspace's own directory and foreground directory, then the
/// candidates' directories, then their foreground directories.
pub open spec fn workspace_paths(w: Workspace, panes: Seq<Pane>, self_pane: Option<Seq<char>>) -> Seq<
    Seq<char>,
> {
    opt_path(w.resolved_cwd) + opt_path(w.resolved_foreground_cwd) + pane_paths(
        panes,
        w,
        self_pane,
        panes.len(),
        false,
    ) + pane_paths(panes, w, self_pane, panes.len(), true)
}

/// What a workspace row shows of the pane that represents it.
pub open spec fn workspace_detail(w: Workspace, panes: Seq<Pane>, self_pane: Option<Seq<char>>) -> Seq<
    char,
> {
    match chosen_pane(panes, w, self_pane) {
        Some(i) => pane_dir(panes[i]),
        None => Seq::empty(),
    }
}

/// The row of a workspace.
pub open spec fn workspace_row(w: Workspace, panes: Seq<Pane>, self_pane: Option<Seq<char>>) -> ItemView {
    let detail = workspace_detail(w, panes, self_pane);
    ItemView {
        id: w.id@,
        label: w.label@,
        detail: detail,
        search: w.label@ + " "@ + detail + " "@ + (if w.focused {
            "focused"@
        } else {
            ""@
        }),
        preview_pane: match chosen_pane(panes, w, self_pane) {
            Some(i) => Some(panes[i].id@),
            None => None,
        },
        match_paths: distinct_paths(workspace_paths(w, panes, self_pane)),
        target: TargetView::Workspace(w.id@),
    }
}

proof fn lemma_focused_upto(panes: Seq<Pane>, w: Workspace, sp: Option<Seq<char>>, n: nat)
    requires
        n <= panes.len(),
    ensures
        focused_upto(panes, w, sp, n) is None <==> forall|j: int|
            0 <= j < n && candidate(panes[j], w, sp) ==> !panes[j].focused,
        focused_upto(panes, w, sp, n) matches Some(i) ==> {
            &&& 0 <= i < n
            &&& candidate(panes[i], w, sp)
            &&& panes[i].focused
            &&& forall|j: int| 0 <= j < i && candidate(panes[j], w, sp) ==> !panes[j].focused
        },
    decreases n,
{
    if n > 0 {
        lemma_focused_upto(panes, w, sp, (n - 1) as nat);
    }
}

proof fn lemma_busiest_upto(panes: Seq<Pane>, w: Workspace, sp: Option<Seq<char>>, n: nat)
    requires
        n <= panes.len(),
    ensures
        busiest_upto(panes, w, sp, n) is None <==> forall|j: int|
            0 <= j < n ==> !candidate(panes[j], w, sp),
        busiest_upto(panes, w, sp, n) matches Some(i) ==> {
            &&& 0 <= i < n
            &&& candidate(panes[i], w, sp)
            &&& forall|j: int|
                0 <= j < n && candidate(panes[j], w, sp) ==> pane_key(panes[i]) >= pane_key(
                    #[trigger] panes[j],
                )
            &&& forall|j: int|
                i < j < n && candidate(panes[j], w, sp) ==> pane_key(panes[i]) > pane_key(
                    #[trigger] panes[j],
                )
        },
    decreases n,
{
    if n > 0 {
        lemma_busiest_upto(panes, w, sp, (n - 1) as nat);
    }
}

/// Whether pane `a` is at least as busy as pane `b`: a more urgent agent
/// status, or the same status and a change no earlier.
pub open spec fn busier_or_equal(a: Pane, b: Pane) -> bool {
    let ra = status_rank(or_default(a.agent_status, "unknown"@));
    let rb = status_rank(or_default(b.agent_status, "unknown"@));
    ra > rb || (ra == rb && a.state_change_seq >= b.state_change_seq)
}

/// The pane that represents a workspace is one of its panes other than
/// the picker's own, and there is one exactly when such a pane exists. It
/// is the first focused such pane when one is focused; otherwise it is at
/// least as busy as every such pane (status first, then latest change)
/// and the last of the busiest.
pub proof fn lemma_representative_pane(panes: Seq<Pane>, w: Workspace, sp: Option<Seq<char>>)
    ensures
        chosen_pane(panes, w, sp) is None <==> forall|j: int|
            0 <= j < panes.len() ==> !candidate(panes[j], w, sp),
        chosen_pane(panes, w, sp) matches Some(i) ==> 0 <= i < panes.len() && candidate(
            panes[i],
            w,
            sp,
        ),
        (exists|j: int| 0 <= j < panes.len() && candidate(panes[j], w, sp) && panes[j].focused)
            ==> (chosen_pane(panes, w, sp) matches Some(i) && panes[i].focused && forall|j: int|
            0 <= j < i && candidate(panes[j], w, sp) ==> !panes[j].focused),
        (forall|j: int| 0 <= j < panes.len() && candidate(panes[j], w, sp) ==> !panes[j].focused)
            ==> (chosen_pane(panes, w, sp) matches Some(i) ==> {
            &&& forall|j: int|
                0 <= j < panes.len() && candidate(panes[j], w, sp) ==> busier_or_equal(
                    panes[i],
                    #[trigger] panes[j],
                )
            &&& forall|j: int|
                i < j < panes.len() && candidate(panes[j], w, sp) ==> !busier_or_equal(
                    #[trigger] panes[j],
                    panes[i],
                )
        }),
{
    lemma_focused_upto(panes, w, sp, panes.len());
    lemma_busiest_upto(panes, w, sp, panes.len());
    if focused_upto(panes, w, sp, panes.len()) is None {
        if busiest_upto(panes, w, sp, panes.len()) is Some {
            let i = busiest_upto(panes, w, sp, panes.len()).unwrap();
            assert forall|j: int|
                0 <= j < panes.len() && candidate(panes[j], w, sp) implies busier_or_equal(
                panes[i],
                #[trigger] panes[j],
            ) by {
                assert(pane_key(panes[i]) >= pane_key(panes[j]));
            }
            assert forall|j: int|
                i < j < panes.len() && candidate(panes[j], w, sp) implies !busier_or_equal(
                #[trigger] panes[j],
                panes[i],
            ) by {
                assert(pane_key(panes[i]) > pane_key(panes[j]));
            }
        }
    }
}

fn is_candidate(p: &Pane, w: &Workspace, self_pane: Option<&str>) -> (r: bool)
    ensures
        r == candidate(*p, *w, opt_text(self_pane)),
{
    same_text(p.workspace_id.as_str(), w.id.as_str()) && !holds(self_pane, p.id.as_str())
}

/// The view of an optional position.
pub open spec fn opt_index(value: Option<usize>) -> Option<int> {
    match value {
        Some(i) => Some(i as int),
        None => None,
    }
}

fn chosen_pane_index(w: &Workspace, panes: &[Pane], self_pane: Option<&str>) -> (r: Option<usize>)
    ensures
        opt_index(r) == chosen_pane(panes@, *w, opt_text(self_pane)),
        r matches Some(i) ==> i < panes@.len(),
{
    let ghost sp = opt_text(self_pane);
    let mut focused: Option<usize> = None;
    let mut best: Option<usize> = None;
    let mut best_key: i128 = 0;
    let mut i: usize = 0;
    while i < panes.len()
        invariant
            i <= panes@.len(),
            sp == opt_text(self_pane),
            opt_index(focused) == focused_upto(panes@, *w, sp, i as nat),
            opt_index(best) == busiest_upto(panes@, *w, sp, i as nat),
            focused matches Some(f) ==> f < i,
            best matches Some(b) ==> b < i && best_key == pane_key(panes@[b as int]),
        decreases panes@.len() - i,
    {
        if is_candidate(&panes[i], w, self_pane) {
            if focused.is_none() && panes[i].focused {
                focused = Some(i);
            }
            let key = activity(&panes[i].agent_status, panes[i].state_change_seq);
            if best.is_none() || key >= best_key {
                best = Some(i);
                best_key = key;
            }
        }
        i = i + 1;
    }
    if focused.is_some() {
        focused
    } else {
        best
    }
}

fn contains_text(paths: &Vec<String>, x: &String) -> (r: bool)
    ensures
        r == paths.deep_view().contains(x@),
{
    let mut j: usize = 0;
    while j < paths.len()
        invariant
            j <= paths@.len(),
            forall|k: int| 0 <= k < j ==> paths@[k]@ != x@,
        decreases paths@.len() - j,
    {
        if paths[j] == *x {
            proof {
                assert(paths.deep_view()[j as int] == x@);
            }
            return true;
        }
        j = j + 1;
    }
    proof {
        if paths.deep_view().contains(x@) {
            let k = choose|k: int| 0 <= k < paths.deep_view().len() && paths.deep_view()[k] == x@;
            assert(paths@[k]@ == x@);
        }
    }
    false
}

proof fn lemma_distinct_extend(s: Seq<Seq<char>>, value: Option<String>)
    ensures
        distinct_paths(s + opt_path(value)) == match value {
            Some(x) => add_distinct(distinct_paths(s), x@),
            None => distinct_paths(s),
        },
{
    match value {
        Some(x) => {
            let t = s + opt_path(value);
            assert(t.drop_last() =~= s);
            assert(t.last() == x@);
        },
        None => {
            assert(s + opt_path(value) =~= s);
        },
    }
}

fn add_path(paths: &mut Vec<String>, value: &Option<String>)
    ensures
        final(paths).deep_view() == match *value {
            Some(x) => add_distinct(old(paths).deep_view(), x@),
            None => old(paths).deep_view(),
        },
{
    match value {
        Some(x) => {
            if !contains_text(paths, x) {
                paths.push(x.clone());
                proof {
                    assert(paths.deep_view() =~= old(paths).deep_view().push(x@));
                }
            }
        },
        None => {},
    }
}

fn add_pane_paths(
    paths: &mut Vec<String>,
    w: &Workspace,
    panes: &[Pane],
    self_pane: Option<&str>,
    foreground: bool,
    Ghost(base): Ghost<Seq<Seq<char>>>,
)
    requires
        old(paths).deep_view() == distinct_paths(base),
    ensures
        final(paths).deep_view() == distinct_paths(
            base + pane_paths(panes@, *w, opt_text(self_pane), panes@.len(), foreground),
        ),
{
    let ghost sp = opt_text(self_pane);
    let mut i: usize = 0;
    proof {
        assert(base + pane_paths(panes@, *w, sp, 0, foreground) =~= base);
    }
    while i < panes.len()
        invariant
            i <= panes@.len(),
            sp == opt_text(self_pane),
            paths.deep_view() == distinct_paths(base + pane_paths(panes@, *w, sp, i as nat, foreground)),
        decreases panes@.len() - i,
    {
        let ghost before = base + pane_paths(panes@, *w, sp, i as nat, foreground);
        if is_candidate(&panes[i], w, self_pane) {
            let value = if foreground {
                &panes[i].resolved_foreground_cwd
            } else {
                &panes[i].resolved_cwd
            };
            add_path(paths, value);
            proof {
                lemma_distinct_extend(before, *value);
                assert(base + pane_paths(panes@, *w, sp, (i + 1) as nat, foreground) =~= before
                    + opt_path(*value));
            }
        } else {
            proof {
                assert(base + pane_paths(panes@, *w, sp, (i + 1) as nat, foreground) =~= before);
            }
        }
        i = i + 1;
    }
}

/// The row of a workspace: its label and id, the directory of the pane
/// that represents it (the first focused pane, else the busiest: blocked,
/// done, working, idle, then the latest change), searchable by label,
/// that directory and whether it is focused, and matched by every
/// directory of the workspace and its panes. The picker's own pane never
/// represents a workspace.
pub fn workspace_item(w: &Workspace, panes: &[Pane], self_pane: Option<&str>) -> (r: Item)
    ensures
        r@ == workspace_row(*w, panes@, opt_text(self_pane)),
{
    let ghost sp = opt_text(self_pane);
    let chosen = chosen_pane_index(w, panes, self_pane);
    let detail: String = match chosen {
        Some(i) => match &panes[i].foreground_cwd {
            Some(d) => d.clone(),
            None => match &panes[i].cwd {
                Some(c) => c.clone(),
                None => String::new(),
            },
        },
        None => String::new(),
    };
    let mut search = String::new();
    append_str(&mut search, w.label.as_str());
    append_str(&mut search, " ");
    append_str(&mut search, detail.as_str());
    append_str(&mut search, " ");
    if w.focused {
        append_str(&mut search, "focused");
    } else {
        append_str(&mut search, "");
    }
    let preview_pane = match chosen {
        Some(i) => Some(panes[i].id.clone()),
        None => None,
    };
    let mut paths: Vec<String> = Vec::new();
    proof {
        assert(paths.deep_view() =~= distinct_paths(Seq::empty()));
        lemma_distinct_extend(Seq::empty(), w.resolved_cwd);
        assert(Seq::<Seq<char>>::empty() + opt_path(w.resolved_cwd) =~= opt_path(w.resolved_cwd));
    }
    add_path(&mut paths, &w.resolved_cwd);
    proof {
        lemma_distinct_extend(opt_path(w.resolved_cwd), w.resolved_foreground_cwd);
    }
    add_path(&mut paths, &w.resolved_foreground_cwd);
    let ghost base = opt_path(w.resolved_cwd) + opt_path(w.resolved_foreground_cwd);
    add_pane_paths(&mut paths, w, panes, self_pane, false, Ghost(base));
    let ghost base2 = base + pane_paths(panes@, *w, sp, panes@.len(), false);
    add_pane_paths(&mut paths, w, panes, self_pane, true, Ghost(base2));
    Item {
        id: w.id.clone(),
        label: w.label.clone(),
        detail,
        search,
        preview_pane,
        match_paths: paths,
        target: Target::Workspace { id: w.id.clone() },
    }
}

/// The rows of all workspaces, in the order reported.
pub open spec fn workspace_rows(
    workspaces: Seq<Workspace>,
    panes: Seq<Pane>,
    self_pane: Option<Seq<char>>,
) -> Seq<ItemView> {
    Seq::new(workspaces.len(), |i: int| workspace_row(workspaces[i], panes, self_pane))
}

/// The views of a list of items.
pub open spec fn item_views(items: Seq<Item>) -> Seq<ItemView> {
    items.map_values(|it: Item| it@)
}

/// One row per workspace, in the order reported (see [`workspace_item`]).
pub fn workspace_items(workspaces: &[Workspace], panes: &[Pane], self_pane: Option<&str>) -> (r: Vec<
    Item,
>)
    ensures
        item_views(r@) == workspace_rows(workspaces@, panes@, opt_text(self_pane)),
{
    let mut r: Vec<Item> = Vec::new();
    let mut i: usize = 0;
    while i < workspaces.len()
        invariant
            i <= workspaces@.len(),
            r@.len() == i,
            forall|k: int|
                0 <= k < i ==> #[trigger] r@[k]@ == workspace_row(
                    workspaces@[k],
                    panes@,
                    opt_text(self_pane),
                ),
        decreases workspaces@.len() - i,
    {
        r.push(workspace_item(&workspaces[i], panes, self_pane));
        i = i + 1;
    }
    proof {
        assert(item_views(r@) =~= workspace_rows(workspaces@, panes@, opt_text(self_pane)));
    }
    r
}

// ---------------------------------------------------------------------
// Agents
// ---------------------------------------------------------------------

/// The label of the first workspace with id `id` among the first `n`.
pub open spec fn label_upto(workspaces: Seq<Workspace>, id: Seq<char>, n: nat) -> Option<Seq<char>>
    decreases n,
{
    if n == 0 {
        None
    } else {
        match label_upto(workspaces, id, (n - 1) as nat) {
            Some(l) => Some(l),
            None => if workspaces[n - 1].id@ == id {
                Some(workspaces[n - 1].label@)
            } else {
                None
            },
        }
    }
}

/// The label of an agent's workspace, `-` when unknown.
pub open spec fn agent_workspace(a: Agent, workspaces: Seq<Workspace>) -> Seq<char> {
    match a.workspace_id {
        Some(id) => match label_upto(workspaces, id@, workspaces.len()) {
            Some(l) => l,
            None => "-"@,
        },
        None => "-"@,
    }
}

/// The row of an agent.
pub open spec fn agent_row(a: Agent, workspaces: Seq<Workspace>) -> ItemView {
    let kind = or_default(a.kind, "agent"@);
    let status = or_default(a.status, "unknown"@);
    let title = or_default(a.terminal_title_stripped, kind);
    let workspace = agent_workspace(a, workspaces);
    let cwd = or_default(a.cwd, Seq::empty());
    ItemView {
        id: a.pane@,
        label: kind + " · "@ + title,
        detail: status + " · "@ + workspace + " · "@ + cwd,
        search: kind + " "@ + title + " "@ + status + " "@ + workspace + " "@ + cwd,
        preview_pane: Some(a.pane@),
        match_paths: Seq::empty(),
        target: TargetView::Agent(a.pane@),
    }
}

/// Which agents are listed: all but the one in the picker's own pane.
pub open spec fn agent_keeps(agents: Seq<Agent>, self_pane: Option<Seq<char>>) -> Seq<bool> {
    Seq::new(agents.len(), |i: int| self_pane != Some(agents[i].pane@))
}

/// Ordering keys of agents: status, then latest change.
pub open spec fn agent_keys(agents: Seq<Agent>) -> Seq<int> {
    Seq::new(agents.len(), |i: int| activity_key(agents[i].status, agents[i].state_change_seq))
}

/// The agent rows: most urgent status first, then latest change, ties in
/// the order reported.
pub open spec fn agent_rows(
    agents: Seq<Agent>,
    workspaces: Seq<Workspace>,
    self_pane: Option<Seq<char>>,
) -> Seq<ItemView> {
    let order = listing(agent_keeps(agents, self_pane), agent_keys(agents));
    Seq::new(order.len(), |j: int| agent_row(agents[order[j]], workspaces))
}

/// The agent rows list every agent but the one in the picker's own pane,
/// each once, every one before each later one: more urgent status first,
/// then later change, ties in the order reported.
pub proof fn lemma_agent_order(agents: Seq<Agent>, self_pane: Option<Seq<char>>)
    ensures
        listing(agent_keeps(agents, self_pane), agent_keys(agents)).no_duplicates(),
        sorted_by(listing(agent_keeps(agents, self_pane), agent_keys(agents)), agent_keys(agents)),
        forall|i: int|
            #[trigger] listing(agent_keeps(agents, self_pane), agent_keys(agents)).contains(i) <==> (0
                <= i < agents.len() && self_pane != Some(agents[i].pane@)),
{
    lemma_listing(agent_keeps(agents, self_pane), agent_keys(agents));
}

/// Agent rows come most urgent status first; among agents of the same
/// status the one whose state changed later (larger change counter) comes
/// first; agents equal in both keep the order reported. Row `p` of
/// [`agent_items`] is the row of agent `order[p]`.
pub proof fn lemma_agents_latest_change_first(
    agents: Seq<Agent>,
    self_pane: Option<Seq<char>>,
    p: int,
    q: int,
)
    requires
        0 <= p < q < listing(agent_keeps(agents, self_pane), agent_keys(agents)).len(),
    ensures
        ({
            let order = listing(agent_keeps(agents, self_pane), agent_keys(agents));
            let x = agents[order[p]];
            let y = agents[order[q]];
            let rx = status_rank(or_default(x.status, "unknown"@));
            let ry = status_rank(or_default(y.status, "unknown"@));
            &&& 0 <= order[p] < agents.len()
            &&& 0 <= order[q] < agents.len()
            &&& rx >= ry
            &&& rx == ry ==> x.state_change_seq >= y.state_change_seq
            &&& rx == ry && x.state_change_seq == y.state_change_seq ==> order[p] < order[q]
        }),
{
    let keep = agent_keeps(agents, self_pane);
    let keys = agent_keys(agents);
    let order = listing(keep, keys);
    lemma_listing(keep, keys);
    assert(order.contains(order[p]));
    assert(order.contains(order[q]));
    assert(precedes(keys, order[p], order[q]));
    let x = agents[order[p]];
    let y = agents[order[q]];
    assert(keys[order[p]] == activity_key(x.status, x.state_change_seq));
    assert(keys[order[q]] == activity_key(y.status, y.state_change_seq));
}

fn workspace_label<'a>(workspaces: &'a [Workspace], id: &Option<String>) -> (r: &'a str)
    ensures
        r@ == match *id {
            Some(i) => match label_upto(workspaces@, i@, workspaces@.len()) {
                Some(l) => l,
                None => "-"@,
            },
            None => "-"@,
        },
{
    match id {
        Some(wanted) => {
            let mut found: Option<usize> = None;
            let mut k: usize = 0;
            while k < workspaces.len()
                invariant
                    k <= workspaces@.len(),
                    match found {
                        Some(f) => f < k && label_upto(workspaces@, wanted@, k as nat) == Some(
                            workspaces@[f as int].label@,
                        ),
                        None => label_upto(workspaces@, wanted@, k as nat) is None,
                    },
                decreases workspaces@.len() - k,
            {
                if found.is_none() && same_text(workspaces[k].id.as_str(), wanted.as_str()) {
                    found = Some(k);
                }
                k = k + 1;
            }
            match found {
                Some(f) => workspaces[f].label.as_str(),
                None => "-",
            }
        },
        None => "-",
    }
}

/// The row of one agent: `kind · title` over `status · workspace · dir`,
/// searchable by all five; the kind defaults to `agent`, the status to
/// `unknown`, the title to the kind.
pub fn agent_item(a: &Agent, workspaces: &[Workspace]) -> (r: Item)
    ensures
        r@ == agent_row(*a, workspaces@),
{
    let kind: &str = match &a.kind {
        Some(k) => k.as_str(),
        None => "agent",
    };
    let status: &str = match &a.status {
        Some(s) => s.as_str(),
        None => "unknown",
    };
    let title: &str = match &a.terminal_title_stripped {
        Some(t) => t.as_str(),
        None => kind,
    };
    let workspace = workspace_label(workspaces, &a.workspace_id);
    let cwd: &str = match &a.cwd {
        Some(c) => c.as_str(),
        None => "",
    };
    proof {
        reveal_strlit("");
        assert(""@ =~= Seq::<char>::empty());
    }
    let mut label = String::new();
    append_str(&mut label, kind);
    append_str(&mut label, " · ");
    append_str(&mut label, title);
    let mut detail = String::new();
    append_str(&mut detail, status);
    append_str(&mut detail, " · ");
    append_str(&mut detail, workspace);
    append_str(&mut detail, " · ");
    append_str(&mut detail, cwd);
    let mut search = String::new();
    append_str(&mut search, kind);
    append_str(&mut search, " ");
    append_str(&mut search, title);
    append_str(&mut search, " ");
    append_str(&mut search, status);
    append_str(&mut search, " ");
    append_str(&mut search, workspace);
    append_str(&mut search, " ");
    append_str(&mut search, cwd);
    let r = Item {
        id: a.pane.clone(),
        label,
        detail,
        search,
        preview_pane: Some(a.pane.clone()),
        match_paths: Vec::new(),
        target: Target::Agent { pane_id: a.pane.clone() },
    };
    proof {
        assert(r.match_paths.deep_view() =~= Seq::<Seq<char>>::empty());
    }
    r
}

/// The agent rows, all but the picker's own pane: most urgent status
/// first (blocked, done, working, idle, anything else), then latest
/// change, ties in the order reported.
pub fn agent_items(agents: &[Agent], workspaces: &[Workspace], self_pane: Option<&str>) -> (r: Vec<
    Item,
>)
    ensures
        item_views(r@) == agent_rows(agents@, workspaces@, opt_text(self_pane)),
{
    let ghost sp = opt_text(self_pane);
    let mut keep: Vec<bool> = Vec::new();
    let mut keys: Vec<i128> = Vec::new();
    let mut i: usize = 0;
    while i < agents.len()
        invariant
            i <= agents@.len(),
            sp == opt_text(self_pane),
            keep@.len() == i,
            keys@.len() == i,
            forall|k: int| 0 <= k < i ==> #[trigger] keep@[k] == agent_keeps(agents@, sp)[k],
            forall|k: int| 0 <= k < i ==> #[trigger] keys@[k] as int == agent_keys(agents@)[k],
        decreases agents@.len() - i,
    {
        keep.push(!holds(self_pane, agents[i].pane.as_str()));
        keys.push(activity(&agents[i].status, agents[i].state_change_seq));
        i = i + 1;
    }
    proof {
        assert(keep@ =~= agent_keeps(agents@, sp));
        assert(int_ranks(keys@) =~= agent_keys(agents@));
    }
    let order = listing_positions(&keep, &keys);
    let mut r: Vec<Item> = Vec::new();
    let mut j: usize = 0;
    while j < order.len()
        invariant
            j <= order@.len(),
            order@.len() == listing(agent_keeps(agents@, sp), agent_keys(agents@)).len(),
            forall|k: int|
                0 <= k < order@.len() ==> order@[k] as int == #[trigger] listing(
                    agent_keeps(agents@, sp),
                    agent_keys(agents@),
                )[k],
            forall|k: int| 0 <= k < order@.len() ==> #[trigger] order@[k] < agents@.len(),
            r@.len() == j,
            forall|k: int|
                0 <= k < j ==> #[trigger] r@[k]@ == agent_row(
                    agents@[order@[k] as int],
                    workspaces@,
                ),
        decreases order@.len() - j,
    {
        r.push(agent_item(&agents[order[j]], workspaces));
        j = j + 1;
    }
    proof {
        assert(item_views(r@) =~= agent_rows(agents@, workspaces@, sp));
    }
    r
}

// ---------------------------------------------------------------------
// Directories
// ---------------------------------------------------------------------

/// The label of a directory: its final component, else `workspace`.
pub open spec fn dir_label(path: Seq<char>) -> Seq<char> {
    match file_name(path) {
        Some(name) => name,
        None => "workspace"@,
    }
}

/// The row of a directory whose resolved form is `resolved`.
pub open spec fn directory_row(path: Seq<char>, resolved: Seq<char>) -> ItemView {
    ItemView {
        id: resolved,
        label: dir_label(path),
        detail: path,
        search: dir_label(path) + " "@ + path,
        preview_pane: None,
        match_paths: Seq::empty(),
        target: TargetView::Directory(path),
    }
}

/// The row of a directory, identified by `resolved`, the directory as the
/// file system resolves it.
pub fn directory_item(path: &String, resolved: String) -> (r: Item)
    ensures
        r@ == directory_row(path@, resolved@),
{
    let label = sensible_label(path.as_str());
    let mut search = label.clone();
    append_str(&mut search, " ");
    append_str(&mut search, path.as_str());
    let r = Item {
        id: resolved,
        label,
        detail: path.clone(),
        search,
        preview_pane: None,
        match_paths: Vec::new(),
        target: Target::Directory { path: path.clone() },
    };
    proof {
        assert(r.match_paths.deep_view() =~= Seq::<Seq<char>>::empty());
    }
    r
}

/// One row per directory, each identified by the resolved form at the
/// same position.
pub fn zoxide_items(paths: &Vec<String>, resolved: &Vec<String>) -> (r: Vec<Item>)
    requires
        paths@.len() == resolved@.len(),
    ensures
        r@.len() == paths@.len(),
        forall|i: int| 0 <= i < r@.len() ==> #[trigger] r@[i]@ == directory_row(paths@[i]@, resolved@[i]@),
{
    let mut r: Vec<Item> = Vec::new();
    let mut i: usize = 0;
    while i < paths.len()
        invariant
            i <= paths@.len(),
            paths@.len() == resolved@.len(),
            r@.len() == i,
            forall|k: int| 0 <= k < i ==> #[trigger] r@[k]@ == directory_row(paths@[k]@, resolved@[k]@),
        decreases paths@.len() - i,
    {
        r.push(directory_item(&paths[i], resolved[i].clone()));
        i = i + 1;
    }
    r
}

/// The first of `items` that a resolved directory matches, among the
/// first `n`.
pub open spec fn owner_upto(items: Seq<Item>, path: Seq<char>, n: nat) -> Option<int>
    decreases n,
{
    if n == 0 {
        None
    } else {
        match owner_upto(items, path, (n - 1) as nat) {
            Some(i) => Some(i),
            None => if items[n - 1].match_paths.deep_view().contains(path) {
                Some(n - 1)
            } else {
                None
            },
        }
    }
}

proof fn lemma_owner_stays(items: Seq<Item>, path: Seq<char>, k: nat, n: nat)
    requires
        k <= n,
        owner_upto(items, path, k) is Some,
    ensures
        owner_upto(items, path, n) == owner_upto(items, path, k),
    decreases n - k,
{
    if n > k {
        lemma_owner_stays(items, path, k, (n - 1) as nat);
    }
}

/// The id of the first workspace one of whose match paths is `resolved`,
/// the directory as the file system resolves it.
pub fn workspace_for_path<'a>(resolved: &str, workspaces: &'a [Item]) -> (r: Option<&'a str>)
    ensures
        match r {
            Some(id) => owner_upto(workspaces@, resolved@, workspaces@.len()) matches Some(i) && id@
                == workspaces@[i].id@,
            None => owner_upto(workspaces@, resolved@, workspaces@.len()) is None,
        },
{
    let wanted = resolved.to_owned();
    let mut k: usize = 0;
    while k < workspaces.len()
        invariant
            k <= workspaces@.len(),
            wanted@ == resolved@,
            owner_upto(workspaces@, resolved@, k as nat) is None,
        decreases workspaces@.len() - k,
    {
        if contains_text(&workspaces[k].match_paths, &wanted) {
            proof {
                lemma_owner_stays(workspaces@, resolved@, (k + 1) as nat, workspaces@.len());
            }
            return Some(workspaces[k].id.as_str());
        }
        k = k + 1;
    }
    None
}

// ---------------------------------------------------------------------
// Commands and sources
// ---------------------------------------------------------------------

/// The `herdr` arguments that act on a target: focus a workspace or an
/// agent's pane; for a directory, focus the workspace it belongs to, else
/// create one there (labelled by the directory) and focus it.
pub open spec fn confirm_command(target: TargetView, resolved: Seq<char>, workspaces: Seq<Item>) -> Seq<
    Seq<char>,
> {
    match target {
        TargetView::Workspace(id) => seq!["workspace"@, "focus"@, id],
        TargetView::Agent(pane) => seq!["agent"@, "focus"@, pane],
        TargetView::Directory(path) => match owner_upto(workspaces, resolved, workspaces.len()) {
            Some(i) => seq!["workspace"@, "focus"@, workspaces[i].id@],
            None => seq![
                "workspace"@,
                "create"@,
                "--cwd"@,
                path,
                "--label"@,
                dir_label(path),
                "--focus"@,
            ],
        },
    }
}

/// The `herdr` arguments that confirm `target`; `resolved` is a directory
/// target's path as the file system resolves it, and `workspaces` the
/// last workspace rows loaded.
pub fn confirm_args(target: &Target, resolved: &str, workspaces: &[Item]) -> (r: Vec<String>)
    ensures
        r.deep_view() == confirm_command(target@, resolved@, workspaces@),
{
    let mut r: Vec<String> = Vec::new();
    match target {
        Target::Workspace { id } => {
            r.push("workspace".to_owned());
            r.push("focus".to_owned());
            r.push(id.clone());
        },
        Target::Agent { pane_id } => {
            r.push("agent".to_owned());
            r.push("focus".to_owned());
            r.push(pane_id.clone());
        },
        Target::Directory { path } => match workspace_for_path(resolved, workspaces) {
            Some(id) => {
                r.push("workspace".to_owned());
                r.push("focus".to_owned());
                r.push(id.to_owned());
            },
            None => {
                r.push("workspace".to_owned());
                r.push("create".to_owned());
                r.push("--cwd".to_owned());
                r.push(path.clone());
                r.push("--label".to_owned());
                r.push(sensible_label(path.as_str()));
                r.push("--focus".to_owned());
            },
        },
    }
    proof {
        assert(r.deep_view() =~= confirm_command(target@, resolved@, workspaces@));
    }
    r
}

/// How listing directories with zoxide went.
pub enum ZoxideOutcome {
    /// The directory rows.
    Listed(Vec<Item>),
    /// zoxide is not installed.
    Missing,
    /// zoxide failed, for the reason given.
    Failed(String),
}

/// The view of a loaded source.
pub open spec fn source_view(source: Result<Vec<Item>, String>) -> Result<Seq<ItemView>, Seq<char>> {
    match source {
        Ok(items) => Ok(item_views(items@)),
        Err(e) => Err(e@),
    }
}

/// The three sources of the picker from what `herdr` and zoxide
/// reported: workspace rows need both workspaces and panes (the first
/// failure is reported), agent rows name workspaces when those loaded, and
/// a missing zoxide is reported as such without failing the other tabs.
pub fn combine_sources(
    workspaces: Result<Vec<Workspace>, String>,
    panes: Result<Vec<Pane>, String>,
    agents: Result<Vec<Agent>, String>,
    zoxide: ZoxideOutcome,
    self_pane: Option<&str>,
) -> (r: [Result<Vec<Item>, String>; 3])
    ensures
        source_view(r@[0]) == match (workspaces, panes) {
            (Ok(w), Ok(p)) => Ok(workspace_rows(w@, p@, opt_text(self_pane))),
            (Err(e), _) => Err(e@),
            (Ok(_), Err(e)) => Err(e@),
        },
        source_view(r@[1]) == match agents {
            Ok(a) => Ok(
                agent_rows(
                    a@,
                    match workspaces {
                        Ok(w) => w@,
                        Err(_) => Seq::empty(),
                    },
                    opt_text(self_pane),
                ),
            ),
            Err(e) => Err(e@),
        },
        source_view(r@[2]) == match zoxide {
            ZoxideOutcome::Listed(items) => Ok(item_views(items@)),
            ZoxideOutcome::Missing => Err("zoxide is unavailable"@),
            ZoxideOutcome::Failed(e) => Err(e@),
        },
{
    let empty: Vec<Workspace> = Vec::new();
    let known: &[Workspace] = match &workspaces {
        Ok(w) => w.as_slice(),
        Err(_) => empty.as_slice(),
    };
    let agent_source: Result<Vec<Item>, String> = match &agents {
        Ok(a) => Ok(agent_items(a.as_slice(), known, self_pane)),
        Err(e) => Err(e.clone()),
    };
    let workspace_source: Result<Vec<Item>, String> = match (&workspaces, &panes) {
        (Ok(w), Ok(p)) => Ok(workspace_items(w.as_slice(), p.as_slice(), self_pane)),
        (Err(e), _) => Err(e.clone()),
        (Ok(_), Err(e)) => Err(e.clone()),
    };
    let zoxide_source: Result<Vec<Item>, String> = match zoxide {
        ZoxideOutcome::Listed(items) => Ok(items),
        ZoxideOutcome::Missing => Err("zoxide is unavailable".to_owned()),
        ZoxideOutcome::Failed(e) => Err(e),
    };
    [workspace_source, agent_source, zoxide_source]
}

// ---------------------------------------------------------------------
// Directory summaries
// ---------------------------------------------------------------------

/// Whether name `a` sorts before name `b`: character by character, a
/// proper prefix first (the order of their UTF-8 bytes).
pub open spec fn name_before(a: Seq<char>, b: Seq<char>) -> bool {
    exists|i: int|
        0 <= i <= a.len() && i <= b.len() && #[trigger] a.take(i) == b.take(i) && ((i == a.len()
            && i < b.len()) || (i < a.len() && i < b.len() && (a[i] as u32) < (b[i] as u32)))
}

/// Whether `a` sorts before `b`.
pub fn name_less(a: &str, b: &str) -> (r: bool)
    ensures
        r == name_before(a@, b@),
{
    let x = chars_of(a);
    let y = chars_of(b);
    let mut i: usize = 0;
    while i < x.len() && i < y.len() && x[i] == y[i]
        invariant
            i <= x@.len(),
            i <= y@.len(),
            x@ == a@,
            y@ == b@,
            forall|j: int| 0 <= j < i ==> x@[j] == y@[j],
        decreases x@.len() - i,
    {
        i = i + 1;
    }
    let r = if i == x.len() {
        i < y.len()
    } else if i == y.len() {
        false
    } else {
        (x[i] as u32) < (y[i] as u32)
    };
    proof {
        assert(x@.take(i as int) =~= y@.take(i as int));
        if !r {
            assert forall|k: int|
                0 <= k <= x@.len() && k <= y@.len() && #[trigger] x@.take(k) == y@.take(k) implies !((k
                    == x@.len() && k < y@.len()) || (k < x@.len() && k < y@.len() && (x@[k] as u32)
                    < (y@[k] as u32))) by {
                if k < i {
                    assert(x@[k] == y@[k]);
                } else if k > i {
                    assert(x@.take(k)[i as int] == y@.take(k)[i as int]);
                }
            }
        }
    }
    r
}

/// `s` with position `x` inserted before the first position whose name
/// it sorts before.
pub open spec fn insert_by_name(s: Seq<int>, x: int, names: Seq<Seq<char>>) -> Seq<int>
    decreases s.len(),
{
    if s.len() == 0 {
        seq![x]
    } else if name_before(names[x], names[s[0]]) {
        seq![x] + s
    } else {
        seq![s[0]] + insert_by_name(s.drop_first(), x, names)
    }
}

/// The first `n` positions ordered by name, equal names in position
/// order (a stable sort).
pub open spec fn name_order(names: Seq<Seq<char>>, n: nat) -> Seq<int>
    decreases n,
{
    if n == 0 {
        Seq::empty()
    } else {
        insert_by_name(name_order(names, (n - 1) as nat), n - 1, names)
    }
}

proof fn lemma_insert_by_name_at(s: Seq<int>, x: int, names: Seq<Seq<char>>, p: int)
    requires
        0 <= p <= s.len(),
        forall|q: int| 0 <= q < p ==> !name_before(names[x], names[#[trigger] s[q]]),
        p == s.len() || name_before(names[x], names[s[p]]),
    ensures
        insert_by_name(s, x, names) == s.insert(p, x),
    decreases s.len(),
{
    if s.len() == 0 {
        assert(s.insert(p, x) =~= seq![x]);
    } else if p == 0 {
        assert(s.insert(0, x) =~= seq![x] + s);
    } else {
        assert(!name_before(names[x], names[s[0]]));
        let t = s.drop_first();
        assert forall|q: int| 0 <= q < p - 1 implies !name_before(names[x], names[#[trigger] t[q]]) by {
            assert(t[q] == s[q + 1]);
        }
        lemma_insert_by_name_at(t, x, names, p - 1);
        assert(seq![s[0]] + t.insert(p - 1, x) =~= s.insert(p, x));
    }
}

/// The names of directory entries.
pub open spec fn entry_names(entries: Seq<(Seq<char>, bool)>) -> Seq<Seq<char>> {
    entries.map_values(|e: (Seq<char>, bool)| e.0)
}

/// The line of a directory entry: its name, a slash for a directory.
pub open spec fn entry_line(entry: (Seq<char>, bool)) -> Seq<char> {
    entry.0 + (if entry.1 {
        "/"@
    } else {
        ""@
    }) + "\n"@
}

/// The lines of the first `k` entries in `order`.
pub open spec fn listed_entries(entries: Seq<(Seq<char>, bool)>, order: Seq<int>, k: nat) -> Seq<char>
    decreases k,
{
    if k == 0 {
        Seq::empty()
    } else {
        listed_entries(entries, order, (k - 1) as nat) + entry_line(entries[order[k - 1]])
    }
}

/// How many entries a summary lists.
pub const LISTED_ENTRIES: usize = 80;

/// The summary of a directory: its path; its git status when git gave
/// one (`clean` when that is only white space); then the names of its
/// entries in name order, the first [`LISTED_ENTRIES`], directories
/// marked with a slash.
pub open spec fn summary_text(path: Seq<char>, git: Option<Seq<char>>, entries: Seq<(Seq<char>, bool)>) -> Seq<
    char,
> {
    let order = name_order(entry_names(entries), entries.len());
    let shown = if order.len() < LISTED_ENTRIES {
        order.len()
    } else {
        LISTED_ENTRIES as nat
    };
    path + "\n"@ + match git {
        Some(status) => "\nGit\n"@ + if forall|i: int| 0 <= i < status.len() ==> white_space(
            #[trigger] status[i],
        ) {
            "clean\n"@
        } else {
            status
        },
        None => ""@,
    } + "\nFiles\n"@ + listed_entries(entries, order, shown)
}

/// The views of directory entries.
pub open spec fn entry_views(entries: Seq<(String, bool)>) -> Seq<(Seq<char>, bool)> {
    entries.map_values(|e: (String, bool)| (e.0@, e.1))
}

fn all_white_space(s: &str) -> (r: bool)
    ensures
        r == forall|i: int| 0 <= i < s@.len() ==> white_space(#[trigger] s@[i]),
{
    let chars = chars_of(s);
    let mut i: usize = 0;
    while i < chars.len()
        invariant
            i <= chars@.len(),
            chars@ == s@,
            forall|j: int| 0 <= j < i ==> white_space(#[trigger] chars@[j]),
        decreases chars@.len() - i,
    {
        if !is_white_space(chars[i]) {
            return false;
        }
        i = i + 1;
    }
    true
}

fn order_by_name(entries: &Vec<(String, bool)>) -> (r: Vec<usize>)
    ensures
        r@.len() == name_order(entry_names(entry_views(entries@)), entries@.len()).len(),
        forall|j: int|
            0 <= j < r@.len() ==> r@[j] as int == #[trigger] name_order(
                entry_names(entry_views(entries@)),
                entries@.len(),
            )[j],
        forall|j: int| 0 <= j < r@.len() ==> #[trigger] r@[j] < entries@.len(),
{
    let ghost names = entry_names(entry_views(entries@));
    let mut order: Vec<usize> = Vec::new();
    let mut i: usize = 0;
    while i < entries.len()
        invariant
            i <= entries@.len(),
            names == entry_names(entry_views(entries@)),
            order@.len() == name_order(names, i as nat).len(),
            forall|j: int|
                0 <= j < order@.len() ==> order@[j] as int == #[trigger] name_order(names, i as nat)[j],
            forall|j: int| 0 <= j < order@.len() ==> #[trigger] order@[j] < i,
        decreases entries@.len() - i,
    {
        let ghost before = name_order(names, i as nat);
        let mut p: usize = 0;
        while p < order.len() && !name_less(entries[i].0.as_str(), entries[order[p]].0.as_str())
            invariant
                p <= order@.len(),
                i < entries@.len(),
                names == entry_names(entry_views(entries@)),
                forall|j: int| 0 <= j < order@.len() ==> #[trigger] order@[j] < i,
                order@.len() == before.len(),
                forall|j: int| 0 <= j < order@.len() ==> order@[j] as int == #[trigger] before[j],
                forall|q: int| 0 <= q < p ==> !name_before(names[i as int], names[#[trigger] before[q]]),
            decreases order@.len() - p,
        {
            proof {
                assert(names[i as int] == entries@[i as int].0@);
                assert(names[before[p as int]] == entries@[order@[p as int] as int].0@);
            }
            p = p + 1;
        }
        proof {
            if p < order@.len() {
                assert(names[i as int] == entries@[i as int].0@);
                assert(names[before[p as int]] == entries@[order@[p as int] as int].0@);
                assert(name_before(names[i as int], names[before[p as int]]));
            }
            lemma_insert_by_name_at(before, i as int, names, p as int);
        }
        let ghost old_order = order@;
        order.insert(p, i);
        proof {
            let after = name_order(names, (i + 1) as nat);
            assert(after == before.insert(p as int, i as int));
            assert forall|j: int| 0 <= j < order@.len() implies order@[j] as int == #[trigger] after[j] by {
                if j < p {
                    assert(order@[j] == old_order[j]);
                } else if j > p {
                    assert(order@[j] == old_order[j - 1]);
                }
            }
            assert forall|j: int| 0 <= j < order@.len() implies #[trigger] order@[j] < i + 1 by {
                if j < p {
                    assert(order@[j] == old_order[j]);
                } else if j > p {
                    assert(order@[j] == old_order[j - 1]);
                }
            }
        }
        i = i + 1;
    }
    order
}

/// The summary of a directory at `path`, given what `git status` said,
/// if it succeeded, and the directory's entries as names with a flag for
/// subdirectories (see [`summary_text`]).
#[verifier::spinoff_prover]
pub fn directory_text(path: &str, git_status: Option<&str>, entries: &Vec<(String, bool)>) -> (r: String)
    ensures
        r@ == summary_text(path@, opt_text(git_status), entry_views(entries@)),
{
    let ghost views = entry_views(entries@);
    let order = order_by_name(entries);
    let mut r = String::new();
    append_str(&mut r, path);
    append_str(&mut r, "\n");
    match git_status {
        Some(status) => {
            append_str(&mut r, "\nGit\n");
            if all_white_space(status) {
                append_str(&mut r, "clean\n");
            } else {
                append_str(&mut r, status);
            }
        },
        None => {
            append_str(&mut r, "");
        },
    }
    append_str(&mut r, "\nFiles\n");
    let shown: usize = if order.len() < LISTED_ENTRIES {
        order.len()
    } else {
        LISTED_ENTRIES
    };
    let ghost head = r@;
    let ghost order_spec = name_order(entry_names(views), views.len());
    let mut k: usize = 0;
    while k < shown
        invariant
            k <= shown,
            shown <= order@.len(),
            views == entry_views(entries@),
            order@.len() == order_spec.len(),
            order_spec == name_order(entry_names(views), views.len()),
            forall|j: int| 0 <= j < order@.len() ==> order@[j] as int == #[trigger] order_spec[j],
            forall|j: int| 0 <= j < order@.len() ==> #[trigger] order@[j] < entries@.len(),
            r@ == head + listed_entries(views, order_spec, k as nat),
        decreases shown - k,
    {
        let e = &entries[order[k]];
        append_str(&mut r, e.0.as_str());
        if e.1 {
            append_str(&mut r, "/");
        } else {
            append_str(&mut r, "");
        }
        append_str(&mut r, "\n");
        proof {
            assert(views[order_spec[k as int]] == (e.0@, e.1));
            assert(r@ =~= head + listed_entries(views, order_spec, (k + 1) as nat));
        }
        k = k + 1;
    }
    proof {
        assert(views.len() == entries@.len());
        assert(r@ == head + listed_entries(views, order_spec, shown as nat));
    }
    r
}

} // verus!
