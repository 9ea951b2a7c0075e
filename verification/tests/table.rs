use awareness::{Error, MergeOutcome, PresenceEntry, PresenceTable, UpdateRecord};
use awareness::{decode_update, encode_update};

fn text(s: &str) -> Option<String> {
    Some(s.to_string())
}

fn record(client: u64, version: u64, payload: Option<&str>) -> UpdateRecord {
    UpdateRecord { client, version, payload: payload.map(|s| s.to_string()) }
}

fn update(records: Vec<UpdateRecord>) -> Vec<u8> {
    encode_update(&records).unwrap()
}

fn entry(version: u64, timestamp: u64, payload: Option<&str>) -> PresenceEntry {
    PresenceEntry { version, timestamp, payload: payload.map(|s| s.to_string()) }
}

#[test]
fn new_table_is_empty() {
    let t = PresenceTable::new(7);
    assert_eq!(t.local_client_id(), 7);
    assert_eq!(t.get_local_state(), None);
    assert_eq!(t.entry(7), None);
    assert!(t.snapshot().is_empty());
    assert_eq!(t.derive_update(None).unwrap(), Vec::<u8>::new());
    assert!(t.can_set_local_state());
}

#[test]
fn local_writes_count_versions_from_one() {
    let mut t = PresenceTable::new(1);
    t.set_local_state(text("a"), 100);
    assert_eq!(t.entry(1), Some(entry(1, 100, Some("a"))));
    t.set_local_state(text("b"), 200);
    assert_eq!(t.entry(1), Some(entry(2, 200, Some("b"))));
    t.set_local_state(None, 300);
    assert_eq!(t.entry(1), Some(entry(3, 300, None)));
    assert_eq!(t.get_local_state(), None);
    t.set_local_state(text("c"), 400);
    assert_eq!(t.entry(1), Some(entry(4, 400, Some("c"))));
    assert_eq!(t.get_local_state(), text("c"));
}

#[test]
fn tombstone_travels_to_a_peer() {
    let mut a = PresenceTable::new(1);
    a.set_local_state(text("{\"cursor\":5}"), 10);
    assert_eq!(a.entry(1).unwrap().version, 1);
    let u1 = a.derive_update(None).unwrap();

    let mut b = PresenceTable::new(2);
    let report = b.apply_update(&u1, 20).unwrap();
    assert_eq!(report, vec![(1, MergeOutcome::Added)]);
    assert_eq!(b.snapshot(), vec![(1, "{\"cursor\":5}".to_string())]);

    a.set_local_state(None, 30);
    assert_eq!(a.entry(1).unwrap().version, 2);
    let u2 = a.derive_update(None).unwrap();

    let report = b.apply_update(&u2, 40).unwrap();
    assert_eq!(report, vec![(1, MergeOutcome::Removed)]);
    assert!(b.snapshot().is_empty());
    assert_eq!(b.entry(1), Some(entry(2, 40, None)));
}

#[test]
fn applying_an_update_twice_changes_nothing_more() {
    let mut a = PresenceTable::new(1);
    a.set_local_state(text("{\"cursor\":5}"), 10);
    let u1 = a.derive_update(None).unwrap();

    let mut b = PresenceTable::new(2);
    assert_eq!(b.apply_update(&u1, 20).unwrap(), vec![(1, MergeOutcome::Added)]);
    let first = (b.entry(1), b.entry(2), b.snapshot(), b.derive_update(None).unwrap());
    assert_eq!(b.apply_update(&u1, 99).unwrap(), vec![(1, MergeOutcome::Unchanged)]);
    let second = (b.entry(1), b.entry(2), b.snapshot(), b.derive_update(None).unwrap());
    assert_eq!(first, second);
    assert_eq!(b.entry(1), Some(entry(1, 20, Some("{\"cursor\":5}"))));
}

#[test]
fn idempotent_on_an_update_of_many_records() {
    let bytes = update(vec![
        record(3, 2, Some("a")),
        record(4, 1, None),
        record(3, 5, Some("b")),
        record(5, 9, Some("c")),
    ]);
    let mut t = PresenceTable::new(4);
    t.set_local_state(text("mine"), 1);
    let report = t.apply_update(&bytes, 50).unwrap();
    assert_eq!(
        report,
        vec![
            (3, MergeOutcome::Added),
            (4, MergeOutcome::Unchanged),
            (3, MergeOutcome::Updated),
            (5, MergeOutcome::Added),
        ]
    );
    let first = (t.entry(3), t.entry(4), t.entry(5), t.derive_update(None).unwrap());
    let report = t.apply_update(&bytes, 60).unwrap();
    assert_eq!(
        report,
        vec![
            (3, MergeOutcome::Unchanged),
            (4, MergeOutcome::Unchanged),
            (3, MergeOutcome::Unchanged),
            (5, MergeOutcome::Unchanged),
        ]
    );
    let second = (t.entry(3), t.entry(4), t.entry(5), t.derive_update(None).unwrap());
    assert_eq!(first, second);
    assert_eq!(t.entry(3), Some(entry(5, 50, Some("b"))));
}

#[test]
fn versions_never_go_down() {
    let mut t = PresenceTable::new(1);
    let mut seen: Vec<u64> = Vec::new();
    t.set_local_state(text("a"), 1);
    seen.push(t.entry(1).unwrap().version);
    t.apply_update(&update(vec![record(1, 1, Some("stale"))]), 2).unwrap();
    seen.push(t.entry(1).unwrap().version);
    t.apply_update(&update(vec![record(1, 7, Some("echo"))]), 3).unwrap();
    seen.push(t.entry(1).unwrap().version);
    t.apply_update(&update(vec![record(1, 3, None)]), 4).unwrap();
    seen.push(t.entry(1).unwrap().version);
    t.set_local_state(None, 5);
    seen.push(t.entry(1).unwrap().version);
    t.set_local_state(text("b"), 6);
    seen.push(t.entry(1).unwrap().version);
    assert_eq!(seen, vec![1, 1, 7, 7, 8, 9]);
}

#[test]
fn last_writer_wins_in_either_order() {
    let older = update(vec![record(5, 3, Some("old"))]);
    let newer = update(vec![record(5, 8, Some("new"))]);

    let mut t = PresenceTable::new(1);
    assert_eq!(t.apply_update(&older, 10).unwrap(), vec![(5, MergeOutcome::Added)]);
    assert_eq!(t.apply_update(&newer, 20).unwrap(), vec![(5, MergeOutcome::Updated)]);
    assert_eq!(t.entry(5), Some(entry(8, 20, Some("new"))));

    let mut t = PresenceTable::new(1);
    assert_eq!(t.apply_update(&newer, 10).unwrap(), vec![(5, MergeOutcome::Added)]);
    assert_eq!(t.apply_update(&older, 20).unwrap(), vec![(5, MergeOutcome::Unchanged)]);
    assert_eq!(t.entry(5), Some(entry(8, 10, Some("new"))));
}

#[test]
fn a_table_already_past_both_versions_keeps_its_own() {
    let mut t = PresenceTable::new(1);
    t.apply_update(&update(vec![record(5, 9, Some("mine"))]), 1).unwrap();
    t.apply_update(&update(vec![record(5, 3, Some("old"))]), 2).unwrap();
    t.apply_update(&update(vec![record(5, 8, Some("new"))]), 3).unwrap();
    assert_eq!(t.entry(5), Some(entry(9, 1, Some("mine"))));
}

#[test]
fn equal_version_is_ignored() {
    let mut t = PresenceTable::new(1);
    t.apply_update(&update(vec![record(5, 4, Some("first"))]), 1).unwrap();
    let report = t.apply_update(&update(vec![record(5, 4, Some("second"))]), 2).unwrap();
    assert_eq!(report, vec![(5, MergeOutcome::Unchanged)]);
    let report = t.apply_update(&update(vec![record(5, 4, None)]), 3).unwrap();
    assert_eq!(report, vec![(5, MergeOutcome::Unchanged)]);
    assert_eq!(t.entry(5), Some(entry(4, 1, Some("first"))));
}

#[test]
fn an_unknown_client_is_added_at_any_version() {
    let mut t = PresenceTable::new(1);
    let report = t
        .apply_update(&update(vec![record(5, 0, Some("zero")), record(6, 0, None)]), 1)
        .unwrap();
    assert_eq!(report, vec![(5, MergeOutcome::Added), (6, MergeOutcome::Added)]);
    assert_eq!(t.entry(5), Some(entry(0, 1, Some("zero"))));
    assert_eq!(t.entry(6), Some(entry(0, 1, None)));
    assert_eq!(t.snapshot(), vec![(5, "zero".to_string())]);
}

#[test]
fn merge_replaces_the_entry_wholesale() {
    let mut t = PresenceTable::new(1);
    t.apply_update(&update(vec![record(5, 1, Some("{\"a\":1,\"b\":2}"))]), 1).unwrap();
    let report = t.apply_update(&update(vec![record(5, 2, Some("{\"a\":3}"))]), 2).unwrap();
    assert_eq!(report, vec![(5, MergeOutcome::Updated)]);
    assert_eq!(t.entry(5), Some(entry(2, 2, Some("{\"a\":3}"))));
    let report = t.apply_update(&update(vec![record(5, 3, None)]), 3).unwrap();
    assert_eq!(report, vec![(5, MergeOutcome::Removed)]);
    let report = t.apply_update(&update(vec![record(5, 4, Some("back"))]), 4).unwrap();
    assert_eq!(report, vec![(5, MergeOutcome::Updated)]);
    assert_eq!(t.entry(5), Some(entry(4, 4, Some("back"))));
}

#[test]
fn an_echo_of_the_local_client_is_merged_like_any_other() {
    let mut t = PresenceTable::new(1);
    t.set_local_state(text("mine"), 1);
    let report = t.apply_update(&update(vec![record(1, 40, Some("echo"))]), 2).unwrap();
    assert_eq!(report, vec![(1, MergeOutcome::Updated)]);
    assert_eq!(t.get_local_state(), text("echo"));
    let report = t.apply_update(&update(vec![record(1, 41, None)]), 3).unwrap();
    assert_eq!(report, vec![(1, MergeOutcome::Removed)]);
    assert_eq!(t.get_local_state(), None);
    t.set_local_state(text("again"), 4);
    assert_eq!(t.entry(1), Some(entry(42, 4, Some("again"))));
}

#[test]
fn merge_records_reports_each_record() {
    let mut t = PresenceTable::new(1);
    let records = vec![record(2, 1, Some("a")), record(2, 1, Some("b")), record(2, 2, None)];
    let report = t.merge_records(&records, 5);
    assert_eq!(
        report,
        vec![(2, MergeOutcome::Added), (2, MergeOutcome::Unchanged), (2, MergeOutcome::Removed)]
    );
    assert_eq!(t.entry(2), Some(entry(2, 5, None)));
}

#[test]
fn round_trip_into_an_empty_table() {
    let mut a = PresenceTable::new(1);
    a.set_local_state(text("{\"name\":\"ann\"}"), 1);
    a.apply_update(
        &update(vec![record(2, 7, Some("{\"name\":\"bob\"}")), record(3, 2, None)]),
        2,
    )
    .unwrap();
    a.set_local_state(text("{\"name\":\"ann\",\"cursor\":1}"), 3);
    let bytes = a.derive_update(None).unwrap();

    let mut b = PresenceTable::new(9);
    let report = b.apply_update(&bytes, 50).unwrap();
    assert_eq!(
        report,
        vec![(1, MergeOutcome::Added), (2, MergeOutcome::Added), (3, MergeOutcome::Added)]
    );
    assert_eq!(b.snapshot(), a.snapshot());
    assert_eq!(
        b.snapshot(),
        vec![
            (1, "{\"name\":\"ann\",\"cursor\":1}".to_string()),
            (2, "{\"name\":\"bob\"}".to_string()),
        ]
    );
    for client in [1u64, 2, 3] {
        let (ea, eb) = (a.entry(client).unwrap(), b.entry(client).unwrap());
        assert_eq!((ea.version, ea.payload), (eb.version, eb.payload));
        assert_eq!(eb.timestamp, 50);
    }
    assert_eq!(b.derive_update(None).unwrap(), bytes);
}

#[test]
fn cleared_local_state_stays_as_a_tombstone() {
    let mut t = PresenceTable::new(1);
    t.set_local_state(text("here"), 1);
    t.apply_update(&update(vec![record(2, 1, Some("peer"))]), 2).unwrap();
    t.set_local_state(None, 3);
    assert_eq!(t.entry(1), Some(entry(2, 3, None)));
    assert_eq!(t.snapshot(), vec![(2, "peer".to_string())]);
    assert_eq!(t.get_local_state(), None);
    // the tombstone still travels, and still loses to a newer record
    assert_eq!(
        decode_update(&t.derive_update(Some(&[1])).unwrap()).unwrap(),
        vec![record(1, 2, None)]
    );
    let report = t.apply_update(&update(vec![record(1, 3, Some("back"))]), 4).unwrap();
    assert_eq!(report, vec![(1, MergeOutcome::Updated)]);
}

#[test]
fn clearing_an_unknown_local_client_creates_its_tombstone() {
    let mut t = PresenceTable::new(1);
    t.set_local_state(None, 5);
    assert_eq!(t.entry(1), Some(entry(1, 5, None)));
    assert!(t.snapshot().is_empty());
}

#[test]
fn malformed_update_is_rejected_whole() {
    let mut t = PresenceTable::new(1);
    t.set_local_state(text("mine"), 1);
    t.apply_update(&update(vec![record(2, 3, Some("peer"))]), 2).unwrap();
    let before = (t.entry(1), t.entry(2), t.entry(7), t.snapshot(), t.derive_update(None).unwrap());

    let good = update(vec![record(7, 1, Some("seven")), record(2, 9, Some("newer"))]);
    let mut truncated = good.clone();
    truncated.pop();
    assert_eq!(t.apply_update(&truncated, 10), Err(Error::DecodeError));
    let mut trailing = good.clone();
    trailing.push(0);
    assert_eq!(t.apply_update(&trailing, 10), Err(Error::DecodeError));
    assert_eq!(t.apply_update(&[0xde, 0xad, 0xbe, 0xef], 10), Err(Error::DecodeError));
    assert_eq!(t.apply_update(&[1, 2, 3], 11), Err(Error::DecodeError));

    let after = (t.entry(1), t.entry(2), t.entry(7), t.snapshot(), t.derive_update(None).unwrap());
    assert_eq!(before, after);
}

#[test]
fn empty_update_is_well_formed() {
    let mut t = PresenceTable::new(1);
    assert_eq!(t.apply_update(&[], 1), Ok(vec![]));
    assert_eq!(t.entry(1), None);
}

#[test]
fn remove_state_deletes_the_entry_and_its_version() {
    let mut t = PresenceTable::new(1);
    t.set_local_state(text("a"), 1);
    t.set_local_state(text("b"), 2);
    t.apply_update(&update(vec![record(2, 8, Some("peer"))]), 3).unwrap();
    t.remove_state(1);
    assert_eq!(t.entry(1), None);
    assert_eq!(t.get_local_state(), None);
    assert_eq!(t.snapshot(), vec![(2, "peer".to_string())]);
    // the local client starts over
    t.set_local_state(text("c"), 4);
    assert_eq!(t.entry(1), Some(entry(1, 4, Some("c"))));
    // and so does a remote one: any version is accepted again
    t.remove_state(2);
    let report = t.apply_update(&update(vec![record(2, 1, Some("again"))]), 5).unwrap();
    assert_eq!(report, vec![(2, MergeOutcome::Added)]);
    assert_eq!(t.entry(2), Some(entry(1, 5, Some("again"))));
}

#[test]
fn removing_an_unknown_client_does_nothing() {
    let mut t = PresenceTable::new(1);
    t.set_local_state(text("a"), 1);
    t.remove_state(99);
    t.remove_states(&[]);
    t.remove_states(&[98, 97]);
    assert_eq!(t.entry(1), Some(entry(1, 1, Some("a"))));
    assert_eq!(t.snapshot(), vec![(1, "a".to_string())]);
}

#[test]
fn remove_states_deletes_each_named_client() {
    let mut t = PresenceTable::new(1);
    t.apply_update(
        &update(vec![
            record(2, 1, Some("b")),
            record(3, 1, Some("c")),
            record(4, 1, None),
            record(5, 1, Some("e")),
        ]),
        1,
    )
    .unwrap();
    t.remove_states(&[3, 9, 4, 3]);
    assert_eq!(t.entry(3), None);
    assert_eq!(t.entry(4), None);
    assert_eq!(t.snapshot(), vec![(2, "b".to_string()), (5, "e".to_string())]);
}

#[test]
fn derive_update_of_a_subset_skips_unknown_clients() {
    let mut t = PresenceTable::new(1);
    t.set_local_state(text("a"), 1);
    t.apply_update(&update(vec![record(2, 5, Some("b")), record(3, 6, None)]), 2).unwrap();

    let all = decode_update(&t.derive_update(None).unwrap()).unwrap();
    assert_eq!(all, vec![record(1, 1, Some("a")), record(2, 5, Some("b")), record(3, 6, None)]);

    let some = decode_update(&t.derive_update(Some(&[3, 42, 1, 3])).unwrap()).unwrap();
    assert_eq!(some, vec![record(1, 1, Some("a")), record(3, 6, None)]);

    assert_eq!(t.derive_update(Some(&[42])).unwrap(), Vec::<u8>::new());
    assert_eq!(t.derive_update(Some(&[])).unwrap(), Vec::<u8>::new());
}

#[test]
fn clients_lists_every_known_client_in_order_of_first_sight() {
    let mut t = PresenceTable::new(4);
    assert_eq!(t.clients(), Vec::<u64>::new());
    t.apply_update(&update(vec![record(9, 1, Some("a")), record(2, 1, None)]), 1).unwrap();
    t.set_local_state(None, 2);
    t.apply_update(&update(vec![record(9, 2, None), record(7, 1, Some("b"))]), 3).unwrap();
    assert_eq!(t.clients(), vec![9, 2, 4, 7]);
    t.remove_state(2);
    assert_eq!(t.clients(), vec![9, 4, 7]);
    t.apply_update(&update(vec![record(2, 1, Some("again"))]), 4).unwrap();
    assert_eq!(t.clients(), vec![9, 4, 7, 2]);
    // a caller can evict what it has not heard of since time 2
    for client in t.clients() {
        if t.entry(client).unwrap().timestamp < 3 {
            t.remove_state(client);
        }
    }
    assert_eq!(t.clients(), vec![9, 7, 2]);
}

#[test]
fn snapshot_reads_only() {
    let mut t = PresenceTable::new(1);
    t.set_local_state(text("a"), 1);
    t.apply_update(&update(vec![record(2, 5, None), record(3, 6, Some("c"))]), 2).unwrap();
    let before = t.derive_update(None).unwrap();
    assert_eq!(t.snapshot(), vec![(1, "a".to_string()), (3, "c".to_string())]);
    assert_eq!(t.snapshot(), vec![(1, "a".to_string()), (3, "c".to_string())]);
    assert_eq!(t.derive_update(None).unwrap(), before);
    assert_eq!(t.entry(1), Some(entry(1, 1, Some("a"))));
}

#[test]
fn payload_is_opaque_text() {
    let mut t = PresenceTable::new(1);
    t.set_local_state(text("not json at all {"), 1);
    t.set_local_state(text(""), 2);
    assert_eq!(t.get_local_state(), text(""));
    assert_eq!(t.snapshot(), vec![(1, String::new())]);
    t.set_local_state(text("null"), 3);
    let mut peer = PresenceTable::new(2);
    peer.apply_update(&t.derive_update(None).unwrap(), 4).unwrap();
    assert_eq!(peer.snapshot(), vec![(1, "null".to_string())]);
}

#[test]
fn local_version_at_its_maximum_cannot_grow() {
    let mut t = PresenceTable::new(1);
    t.apply_update(&update(vec![record(1, u64::MAX - 1, Some("x"))]), 1).unwrap();
    assert!(t.can_set_local_state());
    t.set_local_state(text("y"), 2);
    assert_eq!(t.entry(1), Some(entry(u64::MAX, 2, Some("y"))));
    assert!(!t.can_set_local_state());
    t.remove_state(1);
    assert!(t.can_set_local_state());
}
