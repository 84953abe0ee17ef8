use rea::error::Error;
use rea::event::EventTable;

fn minutes(h: i64, m: i64) -> i64 {
    h * 60 + m
}

#[test]
fn standup_example() {
    let mut t = EventTable::new();
    let id = t.add("Standup".to_string(), minutes(9, 0), minutes(9, 15)).unwrap();
    assert_eq!(t.len(), 1);
    let r = t.add("Bad".to_string(), minutes(12, 0), minutes(11, 0));
    assert!(matches!(r, Err(Error::OrderingError)));
    assert_eq!(t.len(), 1);
    t.append_name(id, "-confirmed").unwrap();
    assert_eq!(t.get(id).unwrap().label(), "Standup-confirmed");
}

#[test]
fn add_valid_range_is_retrievable() {
    let mut t = EventTable::new();
    let id = t.add("A".to_string(), 10, 20).unwrap();
    let e = t.get(id).unwrap();
    assert_eq!(e.uuid(), id);
    assert_eq!(e.start(), 10);
    assert_eq!(e.end(), 20);
    assert_eq!(e.label(), "A");
    assert!(t.check_self().is_ok());
}

#[test]
fn add_empty_range_is_allowed() {
    let mut t = EventTable::new();
    assert!(t.add("Instant".to_string(), 5, 5).is_ok());
    assert_eq!(t.len(), 1);
}

#[test]
fn add_reversed_range_fails() {
    let mut t = EventTable::new();
    assert!(matches!(t.add("X".to_string(), 2, 1), Err(Error::OrderingError)));
    assert_eq!(t.len(), 0);
}

#[test]
fn add_with_taken_id_fails_unchanged() {
    let mut t = EventTable::new();
    t.add_with_id(7, "A".to_string(), 0, 1).unwrap();
    let r = t.add_with_id(7, "B".to_string(), 0, 1);
    assert!(matches!(r, Err(Error::CorruptionError)));
    assert_eq!(t.len(), 1);
    assert_eq!(t.get(7).unwrap().label(), "A");
}

#[test]
fn fresh_ids_differ() {
    let mut t = EventTable::new();
    let a = t.add("A".to_string(), 0, 1).unwrap();
    let b = t.add("B".to_string(), 0, 1).unwrap();
    assert_ne!(a, b);
    assert_eq!(t.len(), 2);
}

#[test]
fn append_twice_keeps_order_and_others() {
    let mut t = EventTable::new();
    t.add_with_id(1, "One".to_string(), 0, 10).unwrap();
    t.add_with_id(2, "Two".to_string(), 0, 10).unwrap();
    t.append_name(1, "X").unwrap();
    t.append_name(1, "Y").unwrap();
    assert_eq!(t.get(1).unwrap().label(), "OneXY");
    assert_eq!(t.get(2).unwrap().label(), "Two");
}

#[test]
fn append_unknown_id_fails() {
    let mut t = EventTable::new();
    t.add_with_id(1, "One".to_string(), 0, 10).unwrap();
    assert!(matches!(t.append_name(9, "X"), Err(Error::NotFoundError)));
    assert_eq!(t.get(1).unwrap().label(), "One");
}

#[test]
fn set_times_updates_bounds() {
    let mut t = EventTable::new();
    t.add_with_id(1, "One".to_string(), 0, 10).unwrap();
    t.set_times(1, 3, 4).unwrap();
    let e = t.get(1).unwrap();
    assert_eq!((e.start(), e.end()), (3, 4));
    assert_eq!(e.label(), "One");
}

#[test]
fn set_times_rejects_reversed_range() {
    let mut t = EventTable::new();
    t.add_with_id(1, "One".to_string(), 0, 10).unwrap();
    assert!(matches!(t.set_times(1, 9, 2), Err(Error::OrderingError)));
    let e = t.get(1).unwrap();
    assert_eq!((e.start(), e.end()), (0, 10));
    assert!(t.check_self().is_ok());
}

#[test]
fn set_times_unknown_id_fails() {
    let mut t = EventTable::new();
    assert!(matches!(t.set_times(3, 0, 1), Err(Error::NotFoundError)));
}

#[test]
fn events_listed_in_insertion_order() {
    let mut t = EventTable::new();
    t.add_with_id(5, "A".to_string(), 0, 1).unwrap();
    t.add_with_id(3, "B".to_string(), 2, 3).unwrap();
    let ids: Vec<u128> = t.get_events().iter().map(|e| e.uuid()).collect();
    assert_eq!(ids, vec![5, 3]);
    // the listing can be walked again
    assert_eq!(t.get_events().len(), 2);
}

#[test]
fn check_event_rejects_reversed() {
    let mut t = EventTable::new();
    t.add_with_id(1, "A".to_string(), 1, 2).unwrap();
    let e = t.get(1).unwrap();
    assert!(EventTable::check_event(e).is_ok());
}

#[test]
fn snapshot_is_equal_copy() {
    let mut t = EventTable::new();
    t.add_with_id(1, "A".to_string(), 1, 2).unwrap();
    let mut s = t.snapshot();
    s.append_name(1, "B").unwrap();
    assert_eq!(t.get(1).unwrap().label(), "A");
    assert_eq!(s.get(1).unwrap().label(), "AB");
    assert!(s.check_self().is_ok());
}

#[test]
fn split_replaces_parent_with_children() {
    let mut t = EventTable::new();
    t.add_with_id(1, "Day".to_string(), 0, 100).unwrap();
    t.add_with_id(2, "Other".to_string(), 0, 5).unwrap();
    let parts = vec![(0, 40, "-am".to_string()), (60, 100, "-pm".to_string())];
    t.split_with_ids(1, parts, vec![10, 11]).unwrap();
    assert!(t.get(1).is_none());
    let ids: Vec<u128> = t.get_events().iter().map(|e| e.uuid()).collect();
    assert_eq!(ids, vec![2, 10, 11]);
    let am = t.get(10).unwrap();
    assert_eq!((am.label().as_str(), am.start(), am.end()), ("Day-am", 0, 40));
    let pm = t.get(11).unwrap();
    assert_eq!((pm.label().as_str(), pm.start(), pm.end()), ("Day-pm", 60, 100));
    assert!(t.check_self().is_ok());
}

#[test]
fn split_rejects_part_outside_parent() {
    let mut t = EventTable::new();
    t.add_with_id(1, "Day".to_string(), 10, 20).unwrap();
    let r = t.split_with_ids(1, vec![(5, 15, "-a".to_string())], vec![3]);
    assert!(matches!(r, Err(Error::OrderingError)));
    assert_eq!(t.get(1).unwrap().label(), "Day");
    assert_eq!(t.len(), 1);
}

#[test]
fn split_rejects_no_parts_and_unknown_parent() {
    let mut t = EventTable::new();
    t.add_with_id(1, "Day".to_string(), 10, 20).unwrap();
    assert!(matches!(t.split_with_ids(1, vec![], vec![]), Err(Error::OrderingError)));
    assert!(matches!(
        t.split_with_ids(2, vec![(10, 20, "x".to_string())], vec![3]),
        Err(Error::NotFoundError)
    ));
}

#[test]
fn split_rejects_taken_or_repeated_ids() {
    let mut t = EventTable::new();
    t.add_with_id(1, "Day".to_string(), 10, 20).unwrap();
    t.add_with_id(2, "Other".to_string(), 10, 20).unwrap();
    let taken = t.split_with_ids(1, vec![(10, 12, "a".to_string())], vec![2]);
    assert!(matches!(taken, Err(Error::CorruptionError)));
    let repeated = t.split_with_ids(
        1,
        vec![(10, 12, "a".to_string()), (12, 14, "b".to_string())],
        vec![5, 5],
    );
    assert!(matches!(repeated, Err(Error::CorruptionError)));
    assert_eq!(t.len(), 2);
}

#[test]
fn split_with_random_ids() {
    let mut t = EventTable::new();
    let id = t.add("Day".to_string(), 0, 10).unwrap();
    let kids = t.split(id, vec![(0, 5, "1".to_string()), (5, 10, "2".to_string())]).unwrap();
    assert_eq!(kids.len(), 2);
    assert!(kids[0] != id && kids[1] != id && kids[0] != kids[1]);
    assert_eq!(t.get(kids[0]).unwrap().label(), "Day1");
    assert_eq!(t.get(kids[1]).unwrap().label(), "Day2");
    assert_eq!(t.len(), 2);
}
