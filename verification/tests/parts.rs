//! Small pieces: flags, names, knobs and counters.

use std::cell::Cell;

use vdb::api::search::SearchRequest;
use vdb::document::RowId;
use vdb::error::code::{all_codes, ErrorCode};
use vdb::error::DbError;
use vdb::format::catalog::Metric;
use vdb::format::error::{FormatError, MalformedKind};
use vdb::format::header::HeaderFlags;
use vdb::format::manifest::Slot;
use vdb::format::segment::tombstones::Tombstones;
use vdb::format::value::Value;
use vdb::format::wal::{WalFrame, WalOp};
use vdb::index::{AllLive, Budget, ExactScan, IndexKind, LiveSet, SearchCtx, SearchParams, VectorIndex};
use vdb::path::DbPath;
use vdb::persistence::index_snapshot::StoredSnapshots;
use vdb::persistence::layout;
use vdb::persistence::layout::SegmentFile;
use vdb::persistence::wal::WalWriter;
use vdb::persistence::Durability;
use vdb::search::topk::TopK;
use vdb::vector::{VectorDType, VectorView};
use vdb::write::source::{BufferedFilter, BufferedSource};
use vdb::write::Memtable;

#[test]
fn header_flags_are_told_apart() {
    assert!(HeaderFlags::compressed().is_compressed());
    assert!(!HeaderFlags::compressed().is_encrypted());
    assert!(HeaderFlags::encrypted().is_encrypted());
}

#[test]
fn every_code_lies_in_a_named_band() {
    for (code, name, meaning) in all_codes() {
        assert_ne!(code.band_name(), "unassigned", "{name}: {meaning}");
    }
    assert_eq!(ErrorCode(0).band_name(), "unassigned");
    assert_eq!(ErrorCode(6001).band_name(), "corruption");
}

#[test]
fn values_name_their_kind() {
    assert_eq!(Value::Null.kind_name(), "null");
    assert_eq!(Value::Bool(true).kind_name(), "bool");
    assert_eq!(Value::I64(1).kind_name(), "i64");
    assert_eq!(Value::Str(String::new()).kind_name(), "string");
}

#[test]
fn knobs_are_carried_with_a_request() {
    let params = SearchParams::default().with_ef_search(64).with_n_probe(8);
    assert_eq!(params.ef_search, Some(64));
    assert_eq!(params.n_probe, Some(8));
    let q = [0u32; 2];
    let request = SearchRequest::new(VectorView::floats(&q), 3).with_params(params);
    assert_eq!(request.params, params);
    assert_eq!(request.top_k, 3);
}

#[test]
fn a_cancelled_budget_stops_the_next_charge() {
    let mut budget = Budget::unlimited();
    assert!(!budget.is_cancelled());
    assert!(budget.charge(5).is_ok());
    budget.cancel();
    assert!(budget.is_cancelled());
    assert!(matches!(budget.charge(1), Err(DbError::Cancelled)));
    assert_eq!(budget.scanned(), 6);
}

#[test]
fn a_log_remembers_what_is_not_synced() {
    let path = DbPath::parse("wal/000001.wal").unwrap();
    let mut log = WalWriter::open(path, 0, 1, 1, Durability::Relaxed);
    assert!(!log.is_unsynced());
    let pending = log.append(WalOp::Delete { id: vec![1] }).unwrap();
    assert!(!pending.sync);
    log.landed(&pending, 0).unwrap();
    assert!(log.is_unsynced());
    assert_eq!(log.next_sequence(), 2);
    assert_eq!(log.bytes(), pending.bytes.len() as u64);
    log.sync();
    assert!(!log.is_unsynced());
    assert!(log.landed(&pending, 0).is_err(), "not at the end of the log");
}

fn never() -> bool {
    false
}

/// The first component of a row.
fn first(_: Metric, _: &[u32], row: &[u8], _: u32) -> u32 {
    u32::from_le_bytes([row[0], row[1], row[2], row[3]])
}

#[derive(Debug)]
struct Even;

impl LiveSet for Even {
    fn live(&self, row: RowId) -> bool {
        self.is_live(row)
    }

    fn is_live(&self, row: RowId) -> bool {
        row.row() % 2 == 0
    }
}

#[test]
fn the_scan_offers_live_rows_and_no_others() {
    let mut table = Memtable::new(1, VectorDType::F32);
    for i in 0..10u32 {
        let v = [(i as f32).to_bits()];
        table
            .put_view(
                (i as u64).into(),
                VectorView::floats(&v),
                0,
                None,
                None,
            )
            .unwrap();
    }
    let source = BufferedSource::new(&table);
    let scan = ExactScan::new();
    assert_eq!(scan.kind(), IndexKind::Flat);
    assert!(scan.is_exact());
    assert_eq!(scan.stats().kind.name(), "flat");

    let query = [0u32];
    let every: SearchCtx<'_, AllLive, BufferedFilter<'_, '_>> = SearchCtx {
        query: &query,
        top_k: 3,
        metric: Metric::Dot,
        live: &AllLive,
        filter: None,
        min_score: None,
        params: SearchParams::default(),
    };
    let mut out = TopK::new(3);
    let mut budget = Budget::unlimited();
    scan.search(&every, &source, &first, &never, &mut budget, &mut out)
        .unwrap();
    let rows: Vec<u32> = out.into_sorted().iter().map(|c| c.row.row()).collect();
    assert_eq!(rows, vec![9, 8, 7]);
    assert_eq!(budget.scanned(), 10);

    let even: SearchCtx<'_, Even, BufferedFilter<'_, '_>> = SearchCtx {
        query: &query,
        top_k: 3,
        metric: Metric::Dot,
        live: &Even,
        filter: None,
        min_score: None,
        params: SearchParams::default(),
    };
    assert!(!even.admits(RowId::new(0, 1)));
    let mut out = TopK::new(3);
    scan.search(&even, &source, &first, &never, &mut budget, &mut out)
        .unwrap();
    let rows: Vec<u32> = out.into_sorted().iter().map(|c| c.row.row()).collect();
    assert_eq!(rows, vec![8, 6, 4]);
    assert_eq!(budget.scanned(), 15);
}

/// A scan asks at every check whether it should stop, and is charged for what it examined.
#[test]
fn a_scan_polls_whether_to_stop() {
    let mut table = Memtable::new(1, VectorDType::F32);
    for i in 0..3000u32 {
        let v = [(i as f32).to_bits()];
        table
            .put_view((i as u64).into(), VectorView::floats(&v), 0, None, None)
            .unwrap();
    }
    let source = BufferedSource::new(&table);
    let query = [0u32];
    let ctx: SearchCtx<'_, AllLive, BufferedFilter<'_, '_>> = SearchCtx {
        query: &query,
        top_k: 3,
        metric: Metric::Dot,
        live: &AllLive,
        filter: None,
        min_score: None,
        params: SearchParams::default(),
    };
    for (patience, examined) in [(0, 1024), (1, 2048), (2, 3000)] {
        let polls = Cell::new(0);
        let stop = || {
            polls.set(polls.get() + 1);
            polls.get() > patience
        };
        let mut budget = Budget::unlimited();
        let mut out = TopK::new(3);
        let r = ExactScan::new().search(&ctx, &source, &first, &stop, &mut budget, &mut out);
        assert!(matches!(r, Err(DbError::Cancelled)));
        assert_eq!(budget.scanned(), examined);
        assert_eq!(out.considered(), examined);
    }
    let mut budget = Budget::with_max_scanned(2000);
    assert!(budget.check(2000, &never).is_ok());
    assert!(matches!(budget.check(0, &|| true), Err(DbError::Cancelled)));
    assert!(matches!(budget.check(1, &never), Err(DbError::Cancelled)));
    assert_eq!(budget.scanned(), 2001);
}

#[test]
fn marking_a_row_dead_twice_changes_nothing() {
    let mut t = Tombstones {
        rows: 70,
        generation: 3,
        words: vec![u64::MAX, u64::MAX, 7],
    };
    assert!(t.kill(69));
    assert_eq!(t.words, vec![u64::MAX, !(1 << 5), 7]);
    assert!(!t.kill(69));
    assert!(!t.kill(70), "beyond the last row");
    assert_eq!(t.words, vec![u64::MAX, !(1 << 5), 7]);
    assert_eq!(t.live_count(), 69);
}

/// A bitmap is read back just where it has a word for every 64 rows and no bit beyond them.
#[test]
fn a_bitmap_that_is_not_canonical_is_refused() {
    let read = |rows: u32, words: Vec<u64>| {
        Tombstones::decode(
            &Tombstones {
                rows,
                generation: 0,
                words,
            }
            .encode(),
        )
    };
    let field = |r: Result<Tombstones, FormatError>| match r {
        Err(FormatError::Malformed {
            kind: MalformedKind::Inconsistent { field },
            ..
        }) => field,
        other => panic!("{other:?}"),
    };
    assert_eq!(read(70, vec![5, 63]).unwrap().live_count(), 8);
    assert_eq!(read(64, vec![u64::MAX]).unwrap().live_count(), 64);
    assert_eq!(read(0, vec![]).unwrap().live_count(), 0);
    assert_eq!(field(read(70, vec![5])), "bitmap length");
    assert_eq!(field(read(64, vec![5, 0])), "bitmap length");
    assert_eq!(field(read(70, vec![5, 64])), "bitmap tail");
}

#[test]
fn every_name_that_is_accepted_makes_paths() {
    let longest = "x".repeat(64);
    for name in ["a", "A-b_9", "-", longest.as_str()] {
        vdb::validation::check_collection_name(name).unwrap();
        layout::catalog(name).unwrap();
        layout::segments_dir(name).unwrap();
        layout::wal_dir(name).unwrap();
        for id in [0, 1, 999_999, 1_000_000, u64::MAX] {
            layout::wal_file(name, id).unwrap();
            layout::segment_file(name, id, SegmentFile::Metadata).unwrap();
        }
    }
    assert_eq!(
        layout::segment_file("docs", u64::MAX, SegmentFile::Vectors)
            .unwrap()
            .as_str(),
        "collections/docs/segments/18446744073709551615.vec"
    );
}

/// Groups are numbered on from where the log is, and never as a standalone operation.
#[test]
fn a_group_takes_the_next_transaction() {
    let path = DbPath::parse("wal/000001.wal").unwrap();
    let mut log = WalWriter::open(path, 0, 5, 7, Durability::Batch);
    let ops = vec![WalOp::Delete { id: vec![1] }, WalOp::Delete { id: vec![2] }];
    let (txn, pending) = log.append_group(&ops).unwrap();
    assert_eq!(txn, 7);
    assert_eq!(log.next_txn(), 8);
    let scan = vdb::format::wal::scan(&pending.bytes);
    let seen: Vec<(u64, u64)> = scan.frames.iter().map(|f| (f.sequence, f.txn_id)).collect();
    assert_eq!(seen, vec![(5, 7), (6, 7), (7, 7)]);
    assert_eq!(scan.frames[2].op, WalOp::Commit { op_count: 2 });
    for n in 0..pending.bytes.len() {
        assert!(vdb::format::wal::scan(&pending.bytes[..n]).committed().is_empty());
    }
}

/// What lies behind a frame does not matter to reading it, nor whether it could be numbered.
#[test]
fn a_frame_at_the_end_of_all_offsets_is_read() {
    let frame = WalFrame::in_txn(9, 4, WalOp::Delete { id: vec![7; 3] });
    let mut bytes = frame.encode().unwrap();
    let len = bytes.len();
    bytes.extend_from_slice(&[0xaa; 500]);
    let base = u64::MAX - len as u64;
    assert_eq!(WalFrame::decode_at(&bytes, base).unwrap(), (frame, len));
    assert!(matches!(
        WalFrame::decode_at(&bytes[..len - 1], base),
        Err(FormatError::Truncated { .. })
    ));
    bytes[len - 1] ^= 1;
    assert!(matches!(
        WalFrame::decode_at(&bytes, base),
        Err(FormatError::ChecksumMismatch { .. })
    ));
}

#[test]
fn the_names_that_every_database_uses_are_paths() {
    assert_eq!(layout::lock().unwrap().as_str(), "LOCK");
    assert_eq!(layout::collections_dir().unwrap().as_str(), "collections");
    assert_eq!(layout::manifest(Slot::A).unwrap().as_str(), "MANIFEST-A");
    assert_eq!(layout::manifest(Slot::B).unwrap().as_str(), "MANIFEST-B");
}

#[test]
fn a_snapshot_that_was_stored_is_loaded() {
    let slot = StoredSnapshots::new("docs", IndexKind::Flat.name());
    let pending = slot.store(b"payload").unwrap();
    assert_eq!(pending.dir.as_str(), "collections/docs/index");
    assert_eq!(
        pending.path.as_str(),
        "collections/docs/index/flat-000000.idx"
    );
    assert_eq!(slot.load(Some(&pending.bytes)), Some(b"payload".to_vec()));
    assert_eq!(slot.load(None), None);
    assert_eq!(slot.load(Some(&[])), None);
    assert_eq!(slot.load(Some(&pending.bytes[..pending.bytes.len() - 1])), None);
    let mut damaged = pending.bytes.clone();
    damaged[33] ^= 1;
    assert_eq!(slot.load(Some(&damaged)), None);
    assert!(StoredSnapshots::new("a/../b", "flat").store(b"x").is_err());
}
