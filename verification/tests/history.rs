use std::sync::Mutex;

use herdr_picker::history::{
    prepare_save, Document, Entry, History, LoadOutcome, PersistedEntry, SaveOutcome, Store,
    MAX_ENTRIES, MAX_FUTURE_SKEW_SECS, STALE_AFTER_SECS, VERSION,
};
use herdr_picker::model::{App, HistoryKey, Item, SortOrder, Tab, Target};

fn item(id: &str) -> Item {
    Item {
        id: id.into(),
        label: id.into(),
        detail: String::new(),
        search: id.into(),
        preview_pane: None,
        match_paths: Vec::new(),
        target: Target::Workspace { id: id.into() },
    }
}

fn visible(items: &[Item]) -> Vec<HistoryKey> {
    items.iter().map(Item::history_key).collect()
}

#[test]
fn first_seen_and_access_are_monotonic_across_clock_rollback() {
    let selected = item("w1");
    let key = selected.history_key();
    let mut history = History::default();
    history.observe(std::slice::from_ref(&selected), 100);
    history.observe(std::slice::from_ref(&selected), 50);
    history.access(&key, 120);
    history.access(&key, 60);
    assert_eq!(history.first_seen(&key), 100);
    assert_eq!(history.last_accessed(&key), Some(120));
}

#[test]
fn unreasonable_future_timestamps_are_clamped() {
    let selected = item("w1");
    let key = selected.history_key();
    let mut history = History::default();
    history.observe(std::slice::from_ref(&selected), u64::MAX);
    history.access(&key, u64::MAX);
    history.normalize_import(100, 0);
    assert_eq!(history.first_seen(&key), 100 + MAX_FUTURE_SKEW_SECS);
    assert_eq!(
        history.last_accessed(&key),
        Some(100 + MAX_FUTURE_SKEW_SECS)
    );
}

#[test]
fn pruning_is_bounded_and_retains_currently_visible_items() {
    let mut history = History::default();
    let mut all = Vec::new();
    for index in 0..(MAX_ENTRIES + 100) {
        all.push(item(&format!("old-{index}")));
    }
    history.observe(&all, 1);
    let current = vec![all[0].history_key()];
    history.prune(&current, STALE_AFTER_SECS + 2);
    assert_eq!(history.len(), 1);
    assert_eq!(history.first_seen(&all[0].history_key()), 1);
}

#[derive(Default)]
struct FakeStore {
    saved: Mutex<Vec<History>>,
}

impl Store for FakeStore {
    fn load(&self) -> Result<LoadOutcome, String> {
        Ok(LoadOutcome {
            history: self
                .saved
                .lock()
                .unwrap()
                .last()
                .cloned()
                .unwrap_or_default(),
            warning: None,
            logical_time: 0,
        })
    }

    fn save(
        &self,
        history: &History,
        _visible: &[HistoryKey],
        _now: u64,
    ) -> Result<SaveOutcome, String> {
        self.saved.lock().unwrap().push(history.clone());
        Ok(SaveOutcome {
            history: history.clone(),
            warning: None,
        })
    }
}

#[test]
fn store_seam_supports_fake_roundtrips() {
    let store = FakeStore::default();
    let selected = item(Tab::Workspaces.label());
    let mut history = History::default();
    history.observe(std::slice::from_ref(&selected), 1);
    store.save(&history, &visible(&[selected]), 1).unwrap();
    assert_eq!(store.load().unwrap().history, history);
}

/// What a store holds after saving `history` on top of `stored`.
fn save_over(stored: Option<&Document>, history: &History, visible: &[HistoryKey], now: u64) -> Document {
    let (base, time) = match stored {
        Some(document) => {
            let copy = Document {
                version: document.version,
                high_water: document.high_water,
                entries: document
                    .entries
                    .iter()
                    .map(|entry| PersistedEntry {
                        key: entry.key.clone(),
                        first_seen: entry.first_seen,
                        last_seen: entry.last_seen,
                        last_accessed: entry.last_accessed,
                    })
                    .collect(),
            };
            copy.into_history(now).unwrap()
        }
        None => (History::new(), 0),
    };
    let (merged, logical_time) = prepare_save(base, time, history, visible, now);
    Document::from_history(&merged, logical_time)
}

#[test]
fn stale_refresh_save_cannot_erase_a_confirmation() {
    let selected = item("w1");
    let key = selected.history_key();
    let mut stale_refresh = History::default();
    stale_refresh.observe(std::slice::from_ref(&selected), 10);
    let mut confirmation = stale_refresh.clone();
    confirmation.access(&key, 30);
    let current = visible(std::slice::from_ref(&selected));
    let first = save_over(None, &confirmation, &current, 30);
    let second = save_over(Some(&first), &stale_refresh, &current, 40);
    let (history, _) = second.into_history(40).unwrap();
    assert_eq!(history.first_seen(&key), 10);
    assert_eq!(history.last_accessed(&key), Some(30));
}

#[test]
fn load_save_roundtrip_preserves_ordering_timestamps_after_large_rollback() {
    let items = [item("older"), item("newer")];
    let older_key = items[0].history_key();
    let newer_key = items[1].history_key();
    let mut history = History::default();
    history.observe(&items[0..1], 1_999_900);
    history.observe(&items[1..2], 1_999_950);
    history.access(&older_key, 2_000_000);
    history.access(&newer_key, 1_999_990);
    let current = visible(&items);
    let stored = save_over(None, &history, &current, 2_000_000);

    let rollback_now = 2_000_000 - (3 * 24 * 60 * 60);
    let copy = Document {
        version: stored.version,
        high_water: stored.high_water,
        entries: stored
            .entries
            .iter()
            .map(|entry| PersistedEntry {
                key: entry.key.clone(),
                first_seen: entry.first_seen,
                last_seen: entry.last_seen,
                last_accessed: entry.last_accessed,
            })
            .collect(),
    };
    let (loaded, _) = copy.into_history(rollback_now).unwrap();
    let saved = save_over(Some(&stored), &loaded, &current, rollback_now);
    let (outcome, _) = saved.into_history(rollback_now).unwrap();
    assert_eq!(outcome.first_seen(&older_key), 1_999_900);
    assert_eq!(outcome.first_seen(&newer_key), 1_999_950);
    assert_eq!(outcome.last_accessed(&older_key), Some(2_000_000));
    assert_eq!(outcome.last_accessed(&newer_key), Some(1_999_990));

    let mut app = App::new(Tab::Workspaces);
    app.set_history(outcome);
    app.set_items(Tab::Workspaces, items.to_vec());
    assert_eq!(app.filtered()[0].id, "older");
    app.state_mut().sort = SortOrder::AgeAscending;
    assert_eq!(app.filtered()[0].id, "newer");
}

#[test]
fn merge_keeps_the_earliest_first_sighting_and_latest_confirmation() {
    let a = item("a");
    let key = a.history_key();
    let mut left = History::new();
    left.observe(std::slice::from_ref(&a), 50);
    left.access(&key, 60);
    let mut right = History::new();
    right.observe(std::slice::from_ref(&a), 20);
    right.access(&key, 40);
    let mut merged = left.clone();
    merged.merge(&right);
    assert_eq!(merged.first_seen(&key), 20);
    assert_eq!(merged.last_accessed(&key), Some(60));
    let mut other_way = right.clone();
    other_way.merge(&left);
    assert_eq!(merged, other_way);
    let mut twice = merged.clone();
    twice.merge(&merged);
    assert_eq!(twice, merged);
}

#[test]
fn observing_reports_whether_anything_changed() {
    let a = item("a");
    let mut history = History::new();
    assert!(history.observe(std::slice::from_ref(&a), 10));
    assert!(!history.observe(std::slice::from_ref(&a), 10));
    assert!(!history.observe(std::slice::from_ref(&a), 5));
    assert!(history.observe(std::slice::from_ref(&a), 11));
    assert_eq!(history.len(), 1);
}

#[test]
fn pruning_drops_stale_invisible_records_only() {
    let old = item("old");
    let fresh = item("fresh");
    let shown = item("shown");
    let mut history = History::new();
    history.observe(&[old.clone(), shown.clone()], 10);
    history.observe(std::slice::from_ref(&fresh), STALE_AFTER_SECS + 5);
    assert!(history.prune(&[shown.history_key()], STALE_AFTER_SECS + 20));
    assert_eq!(history.len(), 2);
    assert_eq!(history.first_seen(&old.history_key()), 0);
    assert_eq!(history.first_seen(&shown.history_key()), 10);
    assert!(!history.prune(&[shown.history_key()], STALE_AFTER_SECS + 20));
}

#[test]
fn documents_hold_the_history_and_refuse_other_versions() {
    let a = item("a");
    let mut history = History::new();
    history.observe(std::slice::from_ref(&a), 10);
    history.access(&a.history_key(), 12);
    let document = Document::from_history(&history, 15);
    assert_eq!(document.version, VERSION);
    assert_eq!(document.entries.len(), 1);
    assert_eq!(document.entries[0].first_seen, 10);
    let (back, time) = document.into_history(20).unwrap();
    assert_eq!(back, history);
    assert_eq!(time, 15);
    let foreign = Document { version: VERSION + 1, high_water: 0, entries: Vec::new() };
    assert!(foreign.into_history(20).is_none());
    assert_eq!(history.max_timestamp(), 12);
    let entry = Entry { first_seen: 1, last_seen: 2, last_accessed: None };
    assert_eq!(entry.last_seen, 2);
}
