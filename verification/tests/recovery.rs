//! The crash sweep: crash at every I/O operation, reopen, assert consistency.
//!
//! The driver runs one workload once per mutating storage operation in it, injecting a failure at
//! each index in turn, and after every one asserts that reopening yields a state some prefix of
//! the committed operations could have produced.

use std::cell::{Cell, RefCell};
use std::collections::{BTreeMap, BTreeSet};
use std::rc::Rc;

use vdb::document::DocId;
use vdb::error::{DbError, StorageError, StorageOp};
use vdb::format::catalog::{IdKind, VectorDType};
use vdb::format::cursor::Writer;
use vdb::format::wal::{WalFrame, WalOp};
use vdb::path::DbPath;
use vdb::persistence::recovery::{replay_into, ReplayReport};
use vdb::persistence::wal::{PendingAppend, WalWriter};
use vdb::persistence::Durability;
use vdb::vector::VectorView;
use vdb::write::memtable::Memtable;

/// What goes wrong with one operation.
#[derive(Clone, Copy, Debug)]
enum Fault {
    /// The process dies: this operation and everything after it fails.
    Crash,
    /// There is no room left: this operation fails.
    NoSpace,
    /// A sync reports success without making anything durable.
    DropSync,
    /// A write stops after some bytes, and the process dies.
    TornWrite { prefix: usize },
}

#[derive(Default)]
struct Files {
    current: BTreeMap<String, Vec<u8>>,
    durable: BTreeMap<String, Vec<u8>>,
}

/// Files held in memory, with a fault injected at one of the operations that change them. Clones
/// share the files, not the fault.
#[derive(Clone)]
struct MemoryStorage {
    files: Rc<RefCell<Files>>,
    ops: Rc<Cell<u64>>,
    dead: Rc<Cell<bool>>,
    fault: Option<(u64, Fault)>,
}

fn failed(path: &DbPath, operation: StorageOp) -> DbError {
    DbError::Storage(StorageError::Io {
        path: path.clone(),
        operation,
        detail: "injected".to_owned(),
    })
}

impl MemoryStorage {
    fn new() -> Self {
        MemoryStorage {
            files: Rc::new(RefCell::new(Files::default())),
            ops: Rc::new(Cell::new(0)),
            dead: Rc::new(Cell::new(false)),
            fault: None,
        }
    }

    /// The same files, with a fault at an operation counted from here.
    fn failing_at(&self, index: u64, fault: Fault) -> Self {
        MemoryStorage {
            files: self.files.clone(),
            ops: Rc::new(Cell::new(0)),
            dead: Rc::new(Cell::new(false)),
            fault: Some((index, fault)),
        }
    }

    fn op_count(&self) -> u64 {
        self.ops.get()
    }

    /// Count an operation, and say what goes wrong with it.
    fn begin(&self, path: &DbPath, operation: StorageOp) -> Result<Option<Fault>, DbError> {
        if self.dead.get() {
            return Err(failed(path, operation));
        }
        let index = self.ops.get();
        self.ops.set(index + 1);
        match self.fault {
            Some((at, Fault::Crash)) if at == index => {
                self.dead.set(true);
                Err(failed(path, operation))
            }
            Some((at, Fault::NoSpace)) if at == index => Err(failed(path, operation)),
            Some((at, fault)) if at == index => Ok(Some(fault)),
            _ => Ok(None),
        }
    }

    fn create_dir_all(&self, path: &DbPath) -> Result<(), DbError> {
        self.begin(path, StorageOp::CreateDir).map(|_| ())
    }

    /// Append, and say where the bytes went.
    fn append(&self, path: &DbPath, bytes: &[u8]) -> Result<u64, DbError> {
        let fault = self.begin(path, StorageOp::Append)?;
        let kept = match fault {
            Some(Fault::TornWrite { prefix }) => &bytes[..prefix.min(bytes.len())],
            _ => bytes,
        };
        let mut files = self.files.borrow_mut();
        let file = files.current.entry(path.as_str().to_owned()).or_default();
        let offset = file.len() as u64;
        file.extend_from_slice(kept);
        if matches!(fault, Some(Fault::TornWrite { .. })) {
            self.dead.set(true);
            return Err(failed(path, StorageOp::Append));
        }
        Ok(offset)
    }

    fn sync(&self, path: &DbPath) -> Result<(), DbError> {
        let fault = self.begin(path, StorageOp::Sync)?;
        if matches!(fault, Some(Fault::DropSync)) {
            return Ok(());
        }
        let mut files = self.files.borrow_mut();
        if let Some(bytes) = files.current.get(path.as_str()).cloned() {
            files.durable.insert(path.as_str().to_owned(), bytes);
        }
        Ok(())
    }

    fn read(&self, path: &DbPath) -> Option<Vec<u8>> {
        self.files.borrow().current.get(path.as_str()).cloned()
    }

    /// Put bytes in place without counting it as an operation.
    fn write_all(&self, path: &DbPath, bytes: Vec<u8>) {
        self.files
            .borrow_mut()
            .current
            .insert(path.as_str().to_owned(), bytes);
    }

    fn simulate_power_loss(&self) {
        let mut files = self.files.borrow_mut();
        files.current = files.durable.clone();
    }
}

/// A log being appended to.
struct Log<'a> {
    storage: &'a MemoryStorage,
    writer: WalWriter,
}

impl<'a> Log<'a> {
    fn open(storage: &'a MemoryStorage, durability: Durability) -> Result<Self, DbError> {
        // Opening makes the file where there is none.
        storage.append(&wal_path(), &[])?;
        let len = storage.read(&wal_path()).map_or(0, |b| b.len() as u64);
        Ok(Log {
            storage,
            writer: WalWriter::open(wal_path(), len, 1, 1, durability),
        })
    }

    fn land(&mut self, pending: PendingAppend) -> Result<(), DbError> {
        let offset = self.storage.append(&wal_path(), &pending.bytes)?;
        self.writer.landed(&pending, offset)?;
        if pending.sync {
            self.sync()?;
        }
        Ok(())
    }

    fn append(&mut self, op: WalOp) -> Result<(), DbError> {
        let pending = self.writer.append(op)?;
        self.land(pending)
    }

    fn append_group(&mut self, ops: Vec<WalOp>) -> Result<(), DbError> {
        let (_, pending) = self.writer.append_group(&ops)?;
        self.land(pending)
    }

    fn sync(&mut self) -> Result<(), DbError> {
        self.storage.sync(&wal_path())?;
        self.writer.sync();
        Ok(())
    }
}

/// The bits of a list of components.
fn bits(values: &[f32]) -> Vec<u32> {
    values.iter().map(|v| v.to_bits()).collect()
}

/// The bits of the reciprocal of a stored vector's norm, zero for the zero vector.
fn stored_norm(row: &[u8]) -> u32 {
    let squares: f32 = row
        .chunks_exact(4)
        .map(|c| f32::from_le_bytes([c[0], c[1], c[2], c[3]]))
        .map(|v| v * v)
        .sum();
    let n = squares.sqrt();
    if n > 0.0 && n.is_finite() {
        (1.0 / n).to_bits()
    } else {
        0.0f32.to_bits()
    }
}

const ID_KIND: IdKind = IdKind::Str { max_len: 64 };
const DIM: u32 = 2;

fn wal_path() -> DbPath {
    DbPath::parse("wal/000001.wal").unwrap()
}

fn put(id: &str, values: [f32; 2]) -> WalOp {
    WalOp::Put {
        id: id.as_bytes().to_vec(),
        vector: VectorView::floats(&bits(&values)).to_bytes(),
        metadata: vec![],
        content: None,
    }
}

/// The only live sets the workload can legally leave behind. Each operation, and the batch as a
/// whole, is atomic — so anything outside this list means a write was partially applied.
fn committed_prefixes() -> Vec<BTreeSet<String>> {
    [
        vec![],
        vec!["a"],
        vec!["a", "b"],
        vec!["b"],           // after deleting a
        vec!["b", "c", "d"], // after the atomic batch
        vec!["b", "c", "d", "e"],
    ]
    .into_iter()
    .map(|v| v.into_iter().map(str::to_owned).collect())
    .collect()
}

/// Perform the workload. Errors are expected — that is the point — so they are returned.
fn run_workload(storage: &MemoryStorage, durability: Durability) -> Result<(), DbError> {
    storage.create_dir_all(&DbPath::parse("wal").unwrap())?;
    let mut w = Log::open(storage, durability)?;
    w.append(put("a", [1.0, 0.0]))?;
    w.append(put("b", [0.0, 1.0]))?;
    w.append(WalOp::Delete { id: b"a".to_vec() })?;
    w.append_group(vec![put("c", [1.0, 1.0]), put("d", [2.0, 2.0])])?;
    w.append(put("e", [3.0, 3.0]))?;
    w.sync()?;
    Ok(())
}

fn replay(storage: &MemoryStorage, memtable: &mut Memtable) -> Result<ReplayReport, DbError> {
    let log = storage.read(&wal_path()).unwrap_or_default();
    replay_into(&log, &wal_path(), ID_KIND, stored_norm, memtable)
}

fn recover(storage: &MemoryStorage) -> Result<BTreeSet<String>, DbError> {
    let mut memtable = Memtable::new(DIM, VectorDType::F32);
    replay(storage, &mut memtable)?;
    Ok(memtable
        .live_rows()
        .iter()
        .map(|r| match &r.id {
            DocId::Str(s) => s.clone(),
            DocId::U64(v) => v.to_string(),
        })
        .collect())
}

fn assert_is_a_committed_prefix(live: &BTreeSet<String>, context: &str) {
    let legal = committed_prefixes();
    assert!(
        legal.contains(live),
        "{context}: recovered {live:?}, which is not any committed prefix.\n  legal: {legal:?}"
    );
}

/// How many mutating storage operations the workload performs, which sizes the sweep.
fn workload_op_count() -> u64 {
    let counting = MemoryStorage::new();
    run_workload(&counting, Durability::Batch).expect("the clean run must succeed");
    counting.op_count()
}

/// Run the sweep with one fault, asserting recovery at every operation index.
fn sweep(fault: Fault, power_loss: bool, label: &str) {
    let total = workload_op_count();
    assert!(
        total > 5,
        "the workload should perform a meaningful number of operations: {total}"
    );

    for index in 0..total {
        let mem = MemoryStorage::new();
        let faulty = mem.failing_at(index, fault);
        let _ = run_workload(&faulty, Durability::Batch);
        if power_loss {
            mem.simulate_power_loss();
        }
        let live = recover(&mem)
            .unwrap_or_else(|e| panic!("{label} at operation {index} left an unopenable log: {e:?}"));
        assert_is_a_committed_prefix(&live, &format!("{label} at operation {index}"));
    }
}

#[test]
fn the_clean_run_applies_everything() {
    let mem = MemoryStorage::new();
    run_workload(&mem, Durability::Batch).unwrap();
    let expected: BTreeSet<String> = ["b", "c", "d", "e"]
        .into_iter()
        .map(str::to_owned)
        .collect();
    assert_eq!(recover(&mem).unwrap(), expected);
}

/// An OS kill: the process dies, but bytes already handed to the kernel still reach storage.
/// This is the common failure on mobile by a wide margin.
#[test]
fn crashing_at_every_io_operation_leaves_a_recoverable_prefix() {
    sweep(Fault::Crash, false, "crash");
}

/// The harsher failure: everything not synced is lost as well.
#[test]
fn power_loss_at_every_io_operation_leaves_a_recoverable_prefix() {
    sweep(Fault::Crash, true, "power loss");
}

/// A full disk must surface as an error and leave the database usable, not corrupt it.
#[test]
fn running_out_of_space_leaves_a_recoverable_prefix() {
    sweep(Fault::NoSpace, false, "ENOSPC");
}

/// A filesystem that reports a successful sync without making anything durable. The engine
/// cannot detect this, but it must not make matters worse: the log stays replayable.
#[test]
fn a_lying_sync_still_leaves_a_replayable_log() {
    sweep(Fault::DropSync, true, "dropped sync");
}

/// A write interrupted part-way through leaves a half-written frame — the case most likely to
/// be mistaken for corruption.
#[test]
fn a_torn_write_at_any_prefix_length_leaves_a_recoverable_prefix() {
    let total = workload_op_count();
    for index in 0..total {
        for prefix in [0usize, 1, 5, 13, 40, 97] {
            let mem = MemoryStorage::new();
            let faulty = mem.failing_at(index, Fault::TornWrite { prefix });
            let _ = run_workload(&faulty, Durability::Batch);
            let live = recover(&mem).unwrap_or_else(|e| {
                panic!("torn write of {prefix} bytes at operation {index}: {e:?}")
            });
            assert_is_a_committed_prefix(
                &live,
                &format!("torn write of {prefix} bytes at operation {index}"),
            );
        }
    }
}

/// The promise of `write_batch`, isolated: a group torn before its commit record applies
/// nothing at all, never half of itself.
#[test]
fn an_interrupted_batch_applies_none_of_itself() {
    let total = workload_op_count();
    let mut saw_an_incomplete_batch = false;

    for index in 0..total {
        for prefix in [0usize, 7, 25, 60] {
            let mem = MemoryStorage::new();
            let faulty = mem.failing_at(index, Fault::TornWrite { prefix });
            let _ = run_workload(&faulty, Durability::Batch);
            let live = recover(&mem).unwrap();

            let c = live.contains("c");
            let d = live.contains("d");
            assert_eq!(
                c, d,
                "batch members disagreed at operation {index}, prefix {prefix}"
            );
            if !c {
                saw_an_incomplete_batch = true;
            }
        }
    }
    assert!(
        saw_an_incomplete_batch,
        "the sweep never crashed before the batch committed, so it proved nothing"
    );
}

/// Recovery must distinguish a torn tail from damage. A bit flipped inside a complete frame is
/// damage, and must be reported rather than silently truncated away.
#[test]
fn corruption_inside_a_complete_frame_is_reported_not_discarded() {
    let mem = MemoryStorage::new();
    run_workload(&mem, Durability::Batch).unwrap();
    let clean = mem.read(&wal_path()).unwrap();

    let mut damaged = clean.clone();
    damaged[20] ^= 0xFF;
    mem.write_all(&wal_path(), damaged);

    match recover(&mem) {
        Err(e) => {
            assert!(e.is_corruption(), "expected a corruption error, got {e:?}");
            assert!(
                e.message().contains("wal"),
                "the error should name the file: {e:?}"
            );
        }
        Ok(live) => panic!("corruption was silently accepted, recovering {live:?}"),
    }

    // Whereas simply cutting the file short is a torn tail, and recovers cleanly.
    let mut short = clean;
    short.truncate(short.len() - 5);
    mem.write_all(&wal_path(), short);
    let live = recover(&mem).expect("a torn tail must not be treated as corruption");
    assert_is_a_committed_prefix(&live, "truncated tail");
}

#[test]
fn replaying_a_missing_log_is_not_an_error() {
    let mem = MemoryStorage::new();
    assert!(recover(&mem)
        .expect("no log means nothing was written")
        .is_empty());
}

#[test]
fn replay_reports_what_it_rolled_back() {
    let mem = MemoryStorage::new();
    mem.create_dir_all(&DbPath::parse("wal").unwrap()).unwrap();
    {
        let mut w = Log::open(&mem, Durability::Batch).unwrap();
        w.append(put("kept", [1.0, 1.0])).unwrap();
        w.sync().unwrap();
    }
    // Append an uncommitted group by hand: two operations and no commit record.
    let mut bytes = mem.read(&wal_path()).unwrap();
    let mut buf = Writer::new();
    for (seq, id) in [(10u64, "orphan-1"), (11, "orphan-2")] {
        WalFrame::in_txn(seq, 99, put(id, [0.0, 0.0]))
            .append_to(&mut buf)
            .unwrap();
    }
    bytes.extend_from_slice(buf.as_slice());
    mem.write_all(&wal_path(), bytes);

    let mut memtable = Memtable::new(DIM, VectorDType::F32);
    let report = replay(&mem, &mut memtable).unwrap();
    assert_eq!(report.applied, 1);
    assert_eq!(
        report.rolled_back, 2,
        "both orphaned operations should be discarded"
    );
    assert!(!report.truncated_tail);
    assert_eq!(memtable.len(), 1);
}
