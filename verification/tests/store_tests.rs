use travel_store::record::{Error, TravelExperience, TravelExperiencePayload};
use travel_store::store::TravelStore;

fn payload(destination: &str, date: u64, notes: &str, events: Vec<&str>) -> TravelExperiencePayload {
    TravelExperiencePayload {
        destination: destination.to_string(),
        date,
        notes: notes.to_string(),
        historical_events: events.into_iter().map(|e| e.to_string()).collect(),
    }
}

fn create(store: &mut TravelStore, destination: &str, date: u64) -> TravelExperience {
    store
        .add_travel_experience(payload(destination, date, "some notes", vec!["one", "two"]))
        .expect("create should succeed")
}

fn not_found_msg(e: Error) -> String {
    match e {
        Error::NotFound { msg } => msg,
        Error::EncodingFault => panic!("expected NotFound, got EncodingFault"),
        Error::AllocatorOverflow => panic!("expected NotFound, got AllocatorOverflow"),
    }
}

fn assert_same_record(a: &TravelExperience, b: &TravelExperience) {
    assert_eq!(a.id, b.id);
    assert_eq!(a.destination, b.destination);
    assert_eq!(a.date, b.date);
    assert_eq!(a.notes, b.notes);
    assert_eq!(a.historical_events, b.historical_events);
}

#[test]
fn create_assigns_consecutive_ids() {
    let mut store = TravelStore::new();
    let a = create(&mut store, "Lisbon", 10);
    let b = create(&mut store, "Porto", 20);
    let c = create(&mut store, "Faro", 30);
    assert_eq!(a.id, 1);
    assert_eq!(b.id, 2);
    assert_eq!(c.id, 3);
}

#[test]
fn read_after_create_returns_equal_record() {
    let mut store = TravelStore::new();
    let payload = payload("Kyoto", 1700000000, "cherry blossoms & 温泉", vec!["shogunate era", "Meiji restoration"]);
    let created = store.add_travel_experience(payload).expect("create");
    let read = store.get_travel_experience(created.id).expect("read");
    assert_same_record(&created, &read);
    assert_eq!(read.destination, "Kyoto");
    assert_eq!(read.notes, "cherry blossoms & 温泉");
    assert_eq!(read.historical_events, vec!["shogunate era", "Meiji restoration"]);
}

#[test]
fn read_missing_id_is_not_found() {
    let store = TravelStore::new();
    let err = store.get_travel_experience(7).expect_err("must miss");
    assert_eq!(not_found_msg(err), "travel experience with id=7 not found");
}

#[test]
fn delete_then_read_is_not_found_and_id_never_reused() {
    let mut store = TravelStore::new();
    let a = create(&mut store, "Oslo", 5);
    assert_eq!(a.id, 1);
    let removed = store.delete_travel_experience(1).expect("delete");
    assert_same_record(&a, &removed);
    let err = store.get_travel_experience(1).expect_err("deleted");
    assert_eq!(not_found_msg(err), "travel experience with id=1 not found");
    let b = create(&mut store, "Bergen", 6);
    assert_eq!(b.id, 2, "a deleted id must never be reused");
    assert_eq!(store.get_total_travel_experiences(), 1);
}

#[test]
fn delete_missing_id_message() {
    let mut store = TravelStore::new();
    let err = store.delete_travel_experience(4).expect_err("must miss");
    assert_eq!(
        not_found_msg(err),
        "couldn't delete travel experience with id=4. item not found."
    );
}

#[test]
fn replace_on_absent_id_is_not_found_and_count_unchanged() {
    let mut store = TravelStore::new();
    let before = store.get_total_travel_experiences();
    let err = store
        .update_travel_experience(99, payload("Anywhere", 1, "none", vec![]))
        .expect_err("must miss");
    assert_eq!(
        not_found_msg(err),
        "couldn't update travel experience with id=99. item not found"
    );
    assert_eq!(store.get_total_travel_experiences(), before);
}

#[test]
fn replace_swaps_every_payload_field_and_keeps_id() {
    let mut store = TravelStore::new();
    let a = create(&mut store, "Vienna", 100);
    let replaced = store
        .update_travel_experience(a.id, payload("Graz", 200, "new notes", vec!["habsburg"]))
        .expect("replace");
    assert_eq!(replaced.id, a.id);
    assert_eq!(replaced.destination, "Graz");
    assert_eq!(replaced.date, 200);
    assert_eq!(replaced.notes, "new notes");
    assert_eq!(replaced.historical_events, vec!["habsburg"]);
    let read = store.get_travel_experience(a.id).expect("read back");
    assert_same_record(&replaced, &read);
}

#[test]
fn update_date_changes_only_date() {
    let mut store = TravelStore::new();
    let created = store
        .add_travel_experience(payload("Rome", 300, "forum", vec!["republic", "empire"]))
        .expect("create");
    let updated = store
        .update_travel_experience_date(created.id, 900)
        .expect("update date");
    assert_eq!(updated.id, created.id);
    assert_eq!(updated.date, 900);
    assert_eq!(updated.destination, created.destination);
    assert_eq!(updated.notes, created.notes);
    assert_eq!(updated.historical_events, created.historical_events);
    let read = store.get_travel_experience(created.id).expect("read back");
    assert_same_record(&updated, &read);
}

#[test]
fn update_date_on_absent_id_message() {
    let mut store = TravelStore::new();
    let err = store.update_travel_experience_date(12, 1).expect_err("must miss");
    assert_eq!(
        not_found_msg(err),
        "couldn't update date for travel experience with id=12. item not found"
    );
}

#[test]
fn scenario_sorted_and_latest() {
    let mut store = TravelStore::new();
    let a = create(&mut store, "A", 50);
    let b = create(&mut store, "B", 10);
    let c = create(&mut store, "C", 30);
    assert_eq!((a.id, b.id, c.id), (1, 2, 3));
    let sorted = store.get_sorted_travel_experiences_by_date();
    let ids: Vec<u64> = sorted.iter().map(|r| r.id).collect();
    let dates: Vec<u64> = sorted.iter().map(|r| r.date).collect();
    assert_eq!(ids, vec![2, 3, 1]);
    assert_eq!(dates, vec![10, 30, 50]);
    let latest = store.get_latest_travel_experiences(2);
    let ids: Vec<u64> = latest.iter().map(|r| r.id).collect();
    let dates: Vec<u64> = latest.iter().map(|r| r.date).collect();
    assert_eq!(ids, vec![1, 3]);
    assert_eq!(dates, vec![50, 30]);
}

#[test]
fn sorted_breaks_date_ties_by_ascending_id() {
    let mut store = TravelStore::new();
    create(&mut store, "first", 7);
    create(&mut store, "second", 7);
    create(&mut store, "third", 7);
    let sorted = store.get_sorted_travel_experiences_by_date();
    let ids: Vec<u64> = sorted.iter().map(|r| r.id).collect();
    assert_eq!(ids, vec![1, 2, 3]);
    let latest = store.get_latest_travel_experiences(10);
    let ids: Vec<u64> = latest.iter().map(|r| r.id).collect();
    assert_eq!(ids, vec![3, 2, 1]);
}

#[test]
fn latest_edge_counts() {
    let mut store = TravelStore::new();
    create(&mut store, "X", 1);
    create(&mut store, "Y", 2);
    assert!(store.get_latest_travel_experiences(0).is_empty());
    let all = store.get_latest_travel_experiences(1000000);
    assert_eq!(all.len(), 2);
    assert_eq!(all[0].date, 2);
    assert_eq!(all[1].date, 1);
}

#[test]
fn before_date_filters_and_counts_agree() {
    let mut store = TravelStore::new();
    create(&mut store, "A", 50);
    create(&mut store, "B", 10);
    create(&mut store, "C", 30);
    let hits = store.get_travel_experiences_before_date(30);
    let ids: Vec<u64> = hits.iter().map(|r| r.id).collect();
    assert_eq!(ids, vec![2, 3], "ascending id order, no re-sort");
    assert_eq!(store.get_travel_experiences_count_before_date(30), 2);
    assert_eq!(store.get_travel_experiences_count_before_date(9), 0);
    assert_eq!(store.get_travel_experiences_count_before_date(u64::MAX), 3);
}

#[test]
fn scenario_search_by_destination_exact() {
    let mut store = TravelStore::new();
    let a = create(&mut store, "Paris", 1);
    let _b = create(&mut store, "Rome", 2);
    let c = create(&mut store, "Paris", 3);
    let hits = store.search_travel_experiences_by_destination("Paris".to_string());
    assert_eq!(hits.len(), 2);
    assert_eq!(hits[0].id, a.id);
    assert_eq!(hits[1].id, c.id);
    let none = store.search_travel_experiences_by_destination("Par".to_string());
    assert!(none.is_empty(), "no substring matching");
    let none = store.search_travel_experiences_by_destination("paris".to_string());
    assert!(none.is_empty(), "case-sensitive matching");
}

#[test]
fn get_all_is_ascending_by_id() {
    let mut store = TravelStore::new();
    create(&mut store, "A", 9);
    create(&mut store, "B", 3);
    create(&mut store, "C", 6);
    store.delete_travel_experience(2).expect("delete");
    create(&mut store, "D", 1);
    let all = store.get_all_travel_experiences();
    let ids: Vec<u64> = all.iter().map(|r| r.id).collect();
    assert_eq!(ids, vec![1, 3, 4]);
    assert_eq!(store.get_total_travel_experiences(), 3);
}

#[test]
fn oversized_record_is_an_encoding_fault_and_commits_nothing() {
    let mut store = TravelStore::new();
    let huge = "x".repeat(3000);
    let err = store
        .add_travel_experience(payload("Nowhere", 1, &huge, vec![]))
        .expect_err("too large to serialize");
    assert!(matches!(err, Error::EncodingFault));
    assert_eq!(store.get_total_travel_experiences(), 0);
    assert_eq!(store.get_all_travel_experiences().len(), 0);
    let a = create(&mut store, "Small", 1);
    assert_eq!(a.id, 1, "a failed create must not burn an id");
    let err = store
        .update_travel_experience(1, payload("Small", 1, &huge, vec![]))
        .expect_err("replace with oversized payload");
    assert!(matches!(err, Error::EncodingFault));
    let read = store.get_travel_experience(1).expect("record untouched");
    assert_eq!(read.notes, "some notes");
}

#[test]
fn empty_fields_round_trip() {
    let mut store = TravelStore::new();
    let created = store
        .add_travel_experience(payload("", 0, "", vec![]))
        .expect("create");
    let read = store.get_travel_experience(created.id).expect("read");
    assert_eq!(read.destination, "");
    assert_eq!(read.notes, "");
    assert!(read.historical_events.is_empty());
    let created = store
        .add_travel_experience(payload("d", 0, "n", vec!["", "a", ""]))
        .expect("create with empty events");
    let read = store.get_travel_experience(created.id).expect("read");
    assert_eq!(read.historical_events, vec!["", "a", ""]);
}

#[test]
fn underscore_get_returns_stored_record() {
    let mut store = TravelStore::new();
    let a = create(&mut store, "Lima", 77);
    let got = store._get_travel_experience(&a.id).expect("present");
    assert_same_record(&a, &got);
    assert!(store._get_travel_experience(&99).is_none());
}

#[test]
fn do_insert_replaces_in_place() {
    let mut store = TravelStore::new();
    let a = create(&mut store, "Quito", 11);
    let replacement = TravelExperience {
        id: a.id,
        destination: "Cuenca".to_string(),
        date: 12,
        notes: "moved".to_string(),
        historical_events: vec!["independence".to_string()],
    };
    store
        .do_insert_travel_experience(&replacement)
        .expect("insert within allocated ids");
    let read = store.get_travel_experience(a.id).expect("read");
    assert_same_record(&replacement, &read);
    assert_eq!(store.get_total_travel_experiences(), 1);
}

#[test]
fn ids_keep_increasing_across_interleaved_deletes() {
    let mut store = TravelStore::new();
    let mut expected: u64 = 0;
    for round in 0..5u64 {
        let r = create(&mut store, "spot", round);
        expected += 1;
        assert_eq!(r.id, expected);
        store.delete_travel_experience(r.id).expect("delete what was just created");
        let err = store.get_travel_experience(r.id).expect_err("gone");
        let _ = not_found_msg(err);
    }
    assert_eq!(store.get_total_travel_experiences(), 0);
    let last = create(&mut store, "spot", 9);
    assert_eq!(last.id, 6);
}

#[test]
fn operations_on_deleted_id_all_miss() {
    let mut store = TravelStore::new();
    let a = create(&mut store, "Cairo", 3);
    store.delete_travel_experience(a.id).expect("delete");
    assert!(store
        .update_travel_experience(a.id, payload("Giza", 4, "n", vec![]))
        .is_err());
    assert!(store.update_travel_experience_date(a.id, 5).is_err());
    assert!(store.delete_travel_experience(a.id).is_err());
    assert!(store._get_travel_experience(&a.id).is_none());
}

#[test]
fn count_before_date_matches_filter_length_for_many_bounds() {
    let mut store = TravelStore::new();
    for date in [5u64, 1, 9, 7, 3] {
        create(&mut store, "d", date);
    }
    for bound in 0..11u64 {
        let listed = store.get_travel_experiences_before_date(bound);
        let counted = store.get_travel_experiences_count_before_date(bound);
        assert_eq!(listed.len(), counted);
        assert!(listed.iter().all(|r| r.date <= bound));
    }
}
