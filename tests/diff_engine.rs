use scrappybot::bot::{plan_run, BotStats};
use scrappybot::listing::ListingItem;
use scrappybot::state::{IdChecksum, Snapshot};

fn item(id: &str, checksum: u64) -> ListingItem {
    ListingItem { id: id.to_string(), csv: vec!["row".to_string(), id.to_string()], checksum }
}

fn ids(items: &[ListingItem]) -> Vec<String> {
    items.iter().map(|i| i.id.clone()).collect()
}

#[test]
fn diff_reports_added_and_changed() {
    let prior = Snapshot::at(10, vec![item("A", 1), item("B", 2)]);
    let d = prior.diff(vec![item("A", 1), item("B", 5), item("C", 9)]);
    assert_eq!(ids(&d.added), vec!["C".to_string()]);
    assert_eq!(ids(&d.changed), vec!["B".to_string()]);
    assert_eq!(d.changed[0].checksum, 5);
    assert_eq!(d.added[0].checksum, 9);
}

#[test]
fn first_run_reports_whole_batch_and_saves() {
    let batch = vec![item("A", 1)];
    let snapshot = Snapshot::at(7, batch.clone());
    let plan = plan_run(None, batch);
    assert_eq!(ids(&plan.diff.added), vec!["A".to_string()]);
    assert!(plan.diff.changed.is_empty());
    assert!(plan.notify);
    assert!(plan.persist);
    assert_eq!(snapshot.state, vec![("A".to_string(), 1u64)]);
    assert_eq!(snapshot.update_timestamp, 7);
}

#[test]
fn first_run_with_empty_batch_still_saves() {
    let plan = plan_run::<ListingItem>(None, Vec::new());
    assert!(plan.diff.added.is_empty());
    assert!(!plan.notify);
    assert!(plan.persist);
}

#[test]
fn empty_prior_state_reports_all_added() {
    let prior = Snapshot::at(0, Vec::<ListingItem>::new());
    let d = prior.diff(vec![item("X", 3), item("Y", 4), item("X", 5)]);
    assert_eq!(ids(&d.added), vec!["X".to_string(), "Y".to_string(), "X".to_string()]);
    assert!(d.changed.is_empty());
}

#[test]
fn unchanged_batch_neither_notifies_nor_saves() {
    let prior = Snapshot::at(0, vec![item("A", 1), item("B", 2)]);
    let plan = plan_run(Some(&prior), vec![item("B", 2), item("A", 1)]);
    assert!(plan.diff.added.is_empty());
    assert!(plan.diff.changed.is_empty());
    assert!(!plan.notify);
    assert!(!plan.persist);
}

#[test]
fn changed_batch_notifies_and_saves() {
    let prior = Snapshot::at(0, vec![item("A", 1)]);
    let plan = plan_run(Some(&prior), vec![item("A", 2)]);
    assert_eq!(ids(&plan.diff.changed), vec!["A".to_string()]);
    assert!(plan.notify);
    assert!(plan.persist);
}

#[test]
fn deletions_are_not_reported() {
    let prior = Snapshot::at(0, vec![item("A", 1), item("Gone", 2)]);
    let d = prior.diff(vec![item("A", 1)]);
    assert!(d.added.is_empty());
    assert!(d.changed.is_empty());
}

#[test]
fn last_duplicate_wins_in_snapshot() {
    let s = Snapshot::at(0, vec![item("A", 1), item("B", 2), item("A", 7)]);
    assert_eq!(s.lookup(&"A".to_string()), Some(7));
    assert_eq!(s.lookup(&"B".to_string()), Some(2));
    assert_eq!(s.lookup(&"C".to_string()), None);
    assert_eq!(s.state.len(), 2);
}

#[test]
fn empty_batch_builds_empty_snapshot() {
    let s = Snapshot::new(Vec::<ListingItem>::new());
    assert!(s.state.is_empty());
}

#[test]
fn lookup_reads_last_entry_of_hand_built_state() {
    let s = Snapshot { update_timestamp: 0, state: vec![("A".to_string(), 1), ("A".to_string(), 4)] };
    assert_eq!(s.lookup(&"A".to_string()), Some(4));
}

#[test]
fn added_and_changed_are_disjoint_and_cover_batch() {
    let prior = Snapshot::at(0, vec![item("A", 1), item("B", 2), item("C", 3)]);
    let batch = vec![item("A", 9), item("B", 2), item("D", 4), item("C", 8), item("E", 0)];
    let d = prior.diff(batch);
    let added = ids(&d.added);
    let changed = ids(&d.changed);
    assert_eq!(added, vec!["D".to_string(), "E".to_string()]);
    assert_eq!(changed, vec!["A".to_string(), "C".to_string()]);
    for a in &added {
        assert!(!changed.contains(a));
    }
}

#[test]
fn diff_twice_gives_same_result() {
    let prior = Snapshot::at(0, vec![item("A", 1), item("B", 2)]);
    let batch = vec![item("A", 1), item("B", 3), item("Z", 1)];
    let d1 = prior.diff(batch.clone());
    let d2 = prior.diff(batch);
    assert_eq!(ids(&d1.added), ids(&d2.added));
    assert_eq!(ids(&d1.changed), ids(&d2.changed));
    assert_eq!(prior.state, vec![("A".to_string(), 1), ("B".to_string(), 2)]);
}

#[test]
fn stats_count_diff() {
    let prior = Snapshot::at(0, vec![item("A", 1)]);
    let d = prior.diff(vec![item("A", 2), item("B", 1), item("C", 1)]);
    let stats = BotStats::from_diff(&d);
    assert_eq!(stats.added, 2);
    assert_eq!(stats.changed, 1);
}

#[test]
fn listing_item_from_row() {
    let row = vec!["a".to_string(), "123-456".to_string(), "Addr".to_string()];
    let x = ListingItem::from(row.clone());
    let y = ListingItem::from(row.clone());
    let z = ListingItem::from(vec!["a".to_string(), "123-456".to_string(), "Other".to_string()]);
    assert_eq!(x.id, "123-456");
    assert_eq!(x.csv, row);
    assert_eq!(x.checksum, y.checksum);
    assert_ne!(x.checksum, z.checksum);
    let (id, checksum) = x.id_checksum();
    assert_eq!(id, "123-456");
    assert_eq!(checksum, x.checksum);
}
