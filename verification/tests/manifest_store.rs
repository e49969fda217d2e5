//! Manifest commit and slot selection, driven against the two slots of a database.

use std::cell::RefCell;
use std::collections::BTreeMap;

use vdb::error::DbError;
use vdb::format::manifest::{CollectionEntry, Manifest, Slot};
use vdb::format::slots::{SlotScan, SlotStatus};
use vdb::persistence::layout;
use vdb::persistence::manifest::ManifestStore;

/// The slot files of one database.
#[derive(Default)]
struct Slots {
    files: RefCell<BTreeMap<String, Vec<u8>>>,
}

impl Slots {
    fn read(&self, slot: Slot) -> Option<Vec<u8>> {
        let path = layout::manifest(slot).unwrap();
        self.files.borrow().get(path.as_str()).cloned()
    }

    fn write(&self, slot: Slot, bytes: Vec<u8>) {
        let path = layout::manifest(slot).unwrap();
        self.files
            .borrow_mut()
            .insert(path.as_str().to_owned(), bytes);
    }

    fn has_file(&self, slot: Slot) -> bool {
        self.read(slot).is_some()
    }

    fn load(&self) -> Result<Option<ManifestStore>, DbError> {
        ManifestStore::load(
            self.read(Slot::A).as_deref(),
            self.read(Slot::B).as_deref(),
        )
    }

    fn scan(&self) -> SlotScan {
        ManifestStore::scan(
            self.read(Slot::A).as_deref(),
            self.read(Slot::B).as_deref(),
        )
    }

    fn create(&self, uuid: [u8; 16], now_ms: u64) -> ManifestStore {
        let first = ManifestStore::create(uuid, now_ms).unwrap();
        self.write(first.slot, first.bytes.clone());
        ManifestStore::adopted(first)
    }

    fn commit(&self, store: &mut ManifestStore, next: Manifest, now_ms: u64) {
        let pending = store.commit(next, now_ms).unwrap();
        self.write(pending.slot, pending.bytes.clone());
        store.adopt(pending);
    }
}

const UUID: [u8; 16] = [9u8; 16];

#[test]
fn a_database_that_has_never_committed_reports_nothing() {
    let mem = Slots::default();
    assert!(mem.load().unwrap().is_none());
}

#[test]
fn the_first_manifest_goes_to_slot_a() {
    let mem = Slots::default();
    let store = mem.create(UUID, 1000);
    assert_eq!(store.slot(), Slot::A);
    assert_eq!(store.current().sequence, 1);
    assert!(mem.has_file(Slot::A));
    assert!(!mem.has_file(Slot::B));
}

/// The load-bearing property: a commit never overwrites the slot it would fall back to.
#[test]
fn commits_alternate_between_the_slots() {
    let mem = Slots::default();
    let mut store = mem.create(UUID, 1000);
    let mut expected = Slot::A;
    for i in 0..6 {
        let next = store.current().clone();
        mem.commit(&mut store, next, 2000 + i);
        expected = expected.other();
        assert_eq!(store.slot(), expected, "commit {i} wrote to the wrong slot");
        assert_eq!(store.current().sequence, i + 2);
    }
}

#[test]
fn reload_adopts_the_higher_sequence() {
    let mem = Slots::default();
    let mut store = mem.create(UUID, 1000);
    for i in 0..5 {
        let next = store.current().clone();
        mem.commit(&mut store, next, 2000 + i);
    }
    let reloaded = mem.load().unwrap().unwrap();
    assert_eq!(reloaded.current().sequence, store.current().sequence);
    assert_eq!(reloaded.slot(), store.slot());
    assert_eq!(reloaded.current().db_uuid, UUID);
}

#[test]
fn commit_preserves_identity_and_creation_time_and_advances_the_clock() {
    let mem = Slots::default();
    let mut store = mem.create(UUID, 1000);
    let mut next = store.current().clone();
    // A caller that gets these wrong must not be able to rewrite the database's identity.
    next.db_uuid = [0u8; 16];
    next.created_at_ms = 0;
    mem.commit(&mut store, next, 5000);

    assert_eq!(store.current().db_uuid, UUID);
    assert_eq!(store.current().created_at_ms, 1000);
    assert_eq!(store.current().updated_at_ms, 5000);
}

/// The crash-during-commit case, end to end.
#[test]
fn a_damaged_newer_slot_falls_back_to_the_intact_older_one() {
    let mem = Slots::default();
    let mut store = mem.create(UUID, 1000);
    let next = store.current().clone();
    mem.commit(&mut store, next, 2000);
    assert_eq!(store.slot(), Slot::B);
    assert_eq!(store.current().sequence, 2);

    // Damage the newer slot, as a torn write would.
    let mut bytes = mem.read(Slot::B).unwrap();
    bytes.truncate(bytes.len() / 2);
    mem.write(Slot::B, bytes);

    let reloaded = mem.load().unwrap().unwrap();
    assert_eq!(reloaded.current().sequence, 1, "should fall back to slot A");
    assert_eq!(reloaded.slot(), Slot::A);
}

#[test]
fn two_unreadable_slots_report_what_was_wrong_with_each() {
    let mem = Slots::default();
    mem.write(Slot::A, b"not a manifest".to_vec());
    mem.write(Slot::B, vec![]);

    match mem.load() {
        Err(e) => {
            let text = e.message();
            assert!(e.is_corruption(), "{e:?}");
            assert!(text.contains("slot A"), "{text}");
            assert!(text.contains("slot B"), "{text}");
        }
        Ok(other) => panic!("expected NoValidManifest, got {other:?}"),
    }
}

#[test]
fn one_missing_slot_is_not_an_error_if_the_other_is_readable() {
    let mem = Slots::default();
    mem.create(UUID, 1000);
    let scan = mem.scan();
    assert!(matches!(scan.a, SlotStatus::Valid(_)));
    assert_eq!(scan.b, SlotStatus::Missing);
    assert!(mem.load().unwrap().is_some());
}

/// A slot previously holding a longer manifest must not leave stale bytes behind.
#[test]
fn a_shrinking_manifest_does_not_leave_a_stale_tail() {
    let mem = Slots::default();
    let mut store = mem.create(UUID, 1000);

    let mut big = store.current().clone();
    big.collections = (0..20)
        .map(|i| CollectionEntry {
            name: format!("collection-with-a-long-name-{i:03}"),
            segments: vec![],
            index_snapshot: None,
            last_applied_wal: 0,
            live_count: 0,
            total_rows: 0,
        })
        .collect();
    mem.commit(&mut store, big, 2000);
    let long_len = mem.read(store.slot()).unwrap().len();

    let mut small = store.current().clone();
    small.collections.clear();
    mem.commit(&mut store, small.clone(), 3000);
    // Two more commits so the shrunken manifest lands in the slot that held the big one.
    mem.commit(&mut store, small.clone(), 4000);
    let short_len = mem.read(store.slot()).unwrap().len();

    assert!(
        short_len < long_len,
        "the file should have shrunk: {short_len} vs {long_len}"
    );
    assert!(mem.load().unwrap().is_some());
}
