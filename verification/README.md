# vdb

An embedded vector database: documents with a vector, metadata and content, kept in local files
and searched by similarity. The engine is written in Rust and verified with Verus.

The engine opens no file and reads no clock. Each step takes the bytes that were read, and says
which bytes are to be written. That is what lets a step be proved: what it returns is a function of
what it was given.

## Layout

| Where | What |
|---|---|
| `src/format` | The bytes of every file: headers, checksums, values, log frames, manifests, catalogs, segments |
| `src/error` | Failures, their stable codes and their messages |
| `src/path.rs`, `src/validation.rs`, `src/document.rs`, `src/vector.rs`, `src/metadata.rs` | The data model and its limits |
| `src/filter` | Metadata filters and what they match |
| `src/write` | The memtable |
| `src/persistence` | Which file holds what: the log, replay, segments, flush, the two manifest slots |
| `src/index.rs`, `src/search` | The scan, and the best `k` of what it offers |
| `src/api` | Databases and collections, with their laws |
| `src/ffi` | What a binding passes in and gets back |
| `app` | Storage, locks between threads, floats, and the C interface |
| `tests` | The library, exercised from outside over files held in memory |

Floats are held as their bits. The library orders and rounds them; whoever drives it does the
arithmetic, and hands the scoring function in.

## What is proved

Contracts are stated over mathematical models of the data. They say what a function returns or
changes, and each failure with the inputs that give it. The laws that span functions are
public proof functions, in the files named `*_laws.rs` and beside the code they are about. Among
them:

- What was written is read back: values, records, log frames, catalogs, manifests, segments.
- A damaged byte is noticed, and a log that was cut is torn there, never corrupt.
- A write or a batch whose append was cut short leaves no trace, whatever is written after the
  reopen, and every write that was staged and logged survives one.
- A batch is aborted at the first operation that is refused, and then nothing of it is staged.
- A flush and a compaction keep every document, and a crash at any point of a flush loses none and
  brings none back.
- Whatever is done to a collection from its creation on leaves it sound: no document is live in two
  segments, and what is buffered can be stored and read back.
- A search returns the best candidates in order, each document once, and nothing that was deleted.
