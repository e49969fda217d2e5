use vdb::format::crc32c::crc32c;
use vdb::format::cursor::Writer;
use vdb::format::error::{FormatError, MalformedKind};
use vdb::format::wal::{scan, WalFrame, WalOp, WalTail, FRAME_HEADER_LEN};

fn put(seq: u64, id: &str) -> WalFrame {
    WalFrame::standalone(
        seq,
        WalOp::Put {
            id: id.as_bytes().to_vec(),
            vector: vec![0u8; 16],
            metadata: vec![],
            content: None,
        },
    )
}

fn log(frames: &[WalFrame]) -> Vec<u8> {
    let mut w = Writer::new();
    for f in frames {
        f.append_to(&mut w).unwrap();
    }
    w.finish()
}

#[test]
fn every_op_round_trips() {
    let frames = vec![
        put(1, "a"),
        WalFrame::standalone(
            2,
            WalOp::Put {
                id: b"with-everything".to_vec(),
                vector: vec![1, 2, 3, 4],
                metadata: vec![8, 0],
                content: Some(b"the source text".to_vec()),
            },
        ),
        WalFrame::standalone(
            3,
            WalOp::Delete {
                id: b"gone".to_vec(),
            },
        ),
        WalFrame::in_txn(4, 77, WalOp::Commit { op_count: 3 }),
    ];
    let bytes = log(&frames);
    let scan = scan(&bytes);
    assert_eq!(scan.tail, WalTail::Clean);
    assert_eq!(scan.frames, frames);
    assert_eq!(scan.valid_bytes, bytes.len() as u64);
}

#[test]
fn an_empty_log_is_clean() {
    let scan = scan(&[]);
    assert_eq!(scan.tail, WalTail::Clean);
    assert!(scan.frames.is_empty());
    assert_eq!(scan.valid_bytes, 0);
}

/// The central recovery property: a process killed mid-append leaves a tail that is
/// truncated, not treated as damage.
#[test]
fn a_torn_tail_at_every_cut_point_is_recognised_as_torn() {
    let complete = log(&[put(1, "one"), put(2, "two")]);
    let first_frame_len = WalFrame::encode(&put(1, "one")).unwrap().len();

    for cut in (first_frame_len + 1)..complete.len() {
        let partial = &complete[..cut];
        let scan = scan(partial);
        assert_eq!(
            scan.frames.len(),
            1,
            "cut at {cut} should keep the first frame"
        );
        assert_eq!(scan.valid_bytes, first_frame_len as u64);
        match scan.tail {
            WalTail::Torn { offset, .. } => assert_eq!(offset, first_frame_len as u64),
            other => panic!("cut at {cut} gave {other:?}, expected Torn"),
        }
    }
}

#[test]
fn a_log_cut_inside_its_very_first_frame_yields_nothing_and_is_torn() {
    let complete = log(&[put(1, "one")]);
    for cut in 0..complete.len() {
        let scan = scan(&complete[..cut]);
        assert!(scan.frames.is_empty(), "cut at {cut}");
        assert_eq!(scan.valid_bytes, 0);
        if cut > 0 {
            assert!(
                matches!(scan.tail, WalTail::Torn { offset: 0, .. }),
                "cut at {cut}"
            );
        }
    }
}

/// The other half of the distinction: a frame that is entirely present but wrong is damage.
#[test]
fn a_complete_frame_that_fails_its_checksum_is_corruption_not_a_torn_tail() {
    let mut bytes = log(&[put(1, "one"), put(2, "two")]);
    let first_len = WalFrame::encode(&put(1, "one")).unwrap().len();
    // Flip a bit inside the second frame's body, leaving its length intact.
    let target = first_len + FRAME_HEADER_LEN + 2;
    bytes[target] ^= 0x01;

    let scan = scan(&bytes);
    assert_eq!(scan.frames.len(), 1);
    match scan.tail {
        WalTail::Corrupt { offset, reason } => {
            assert_eq!(offset, first_len as u64);
            assert!(
                matches!(reason, FormatError::ChecksumMismatch { .. }),
                "{reason:?}"
            );
        }
        other => panic!("expected Corrupt, got {other:?}"),
    }
}

#[test]
fn every_bit_flip_in_a_frame_is_caught_as_corruption_or_truncation_never_silently() {
    let original = log(&[put(1, "document-one")]);
    for byte in 0..original.len() {
        for bit in 0..8 {
            let mut mutated = original.clone();
            mutated[byte] ^= 1u8 << bit;
            let scan = scan(&mutated);
            let unchanged = scan.frames.first() == Some(&put(1, "document-one"))
                && scan.tail == WalTail::Clean;
            assert!(
                !unchanged,
                "flip at byte {byte} bit {bit} produced an identical clean scan"
            );
        }
    }
}

#[test]
fn a_garbage_length_prefix_is_refused_rather_than_acted_on() {
    let mut bytes = log(&[put(1, "x")]);
    bytes[..4].copy_from_slice(&u32::MAX.to_le_bytes());
    let scan = scan(&bytes);
    assert!(scan.frames.is_empty());
    assert!(matches!(scan.tail, WalTail::Corrupt { .. }));
}

#[test]
fn an_unknown_op_code_is_corruption() {
    let mut w = Writer::new();
    let mut body = Writer::new();
    body.varint(1);
    body.varint(0);
    body.u8(99);
    let body = body.finish();
    w.u32(body.len() as u32);
    w.u32(crc32c(&body));
    w.raw(&body);
    let scan = scan(&w.finish());
    match scan.tail {
        WalTail::Corrupt {
            reason: FormatError::Malformed { kind, .. },
            ..
        } => {
            assert_eq!(
                kind,
                MalformedKind::UnknownDiscriminant {
                    field: "wal op",
                    value: 99
                }
            );
        }
        other => panic!("expected an unknown op, got {other:?}"),
    }
}

#[test]
fn trailing_junk_in_a_frame_body_is_rejected() {
    let mut body = Writer::new();
    body.varint(1);
    body.varint(0);
    body.u8(3);
    body.varint(2);
    body.raw(b"extra");
    let body = body.finish();
    let mut w = Writer::new();
    w.u32(body.len() as u32);
    w.u32(crc32c(&body));
    w.raw(&body);
    assert!(matches!(scan(&w.finish()).tail, WalTail::Corrupt { .. }));
}

// ---- batch atomicity ----

#[test]
fn an_uncommitted_transaction_is_not_applied() {
    let frames = vec![
        put(1, "standalone"),
        WalFrame::in_txn(
            2,
            5,
            WalOp::Put {
                id: b"batch-a".to_vec(),
                vector: vec![0; 4],
                metadata: vec![],
                content: None,
            },
        ),
        WalFrame::in_txn(
            3,
            5,
            WalOp::Put {
                id: b"batch-b".to_vec(),
                vector: vec![0; 4],
                metadata: vec![],
                content: None,
            },
        ),
        // no Commit: the process died before the batch closed
    ];
    let scan = scan(&log(&frames));
    let committed = scan.committed();
    assert_eq!(committed.len(), 1, "only the standalone op should apply");
    assert_eq!(committed[0].sequence, 1);
}

#[test]
fn a_committed_transaction_is_applied_in_full() {
    let frames = vec![
        WalFrame::in_txn(
            1,
            5,
            WalOp::Put {
                id: b"a".to_vec(),
                vector: vec![0; 4],
                metadata: vec![],
                content: None,
            },
        ),
        WalFrame::in_txn(2, 5, WalOp::Delete { id: b"b".to_vec() }),
        WalFrame::in_txn(3, 5, WalOp::Commit { op_count: 2 }),
    ];
    let scan = scan(&log(&frames));
    assert_eq!(scan.committed().len(), 2);
}

/// A batch torn mid-write must roll back entirely — this is the whole promise of
/// `write_batch`.
#[test]
fn a_batch_torn_before_its_commit_rolls_back_completely() {
    let mut frames = vec![put(1, "before-the-batch")];
    for i in 0..5u64 {
        frames.push(WalFrame::in_txn(
            2 + i,
            9,
            WalOp::Put {
                id: format!("batch-{i}").into_bytes(),
                vector: vec![0; 8],
                metadata: vec![],
                content: None,
            },
        ));
    }
    let full = log(&frames);
    let with_commit = {
        let mut f = frames.clone();
        f.push(WalFrame::in_txn(7, 9, WalOp::Commit { op_count: 5 }));
        log(&f)
    };

    // Every truncation point before the commit lands must roll the batch back.
    for cut in full.len()..with_commit.len() {
        let scan = scan(&with_commit[..cut]);
        assert_eq!(
            scan.committed().len(),
            1,
            "cut at {cut} leaked part of an uncommitted batch"
        );
    }
    // With the commit fully present, all six apply.
    assert_eq!(scan(&with_commit).committed().len(), 6);
}

#[test]
fn wal_arbitrary_bytes_never_panic() {
    let mut seed = 0x9999_8888_7777_6666u64;
    for _ in 0..20_000 {
        seed ^= seed << 13;
        seed ^= seed >> 7;
        seed ^= seed << 17;
        let len = (seed % 100) as usize;
        let bytes: Vec<u8> = (0..len).map(|i| (seed >> (i % 56)) as u8).collect();
        let s = scan(&bytes);
        let _ = s.committed();
    }
}
