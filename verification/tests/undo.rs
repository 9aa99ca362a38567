use bsync::undo::{
    checksum_undo_data, read_checkpoint, replay_undo_log, UndoError, UndoSink, UNDO_MAGIC,
};
use sha2::{Digest, Sha256};

fn checksum(offset: u64, old: &[u8], new: &[u8]) -> Vec<u8> {
    let mut h = Sha256::new();
    h.update(offset.to_le_bytes());
    h.update(old);
    h.update(new);
    h.finalize().to_vec()
}

#[test]
fn checksum_covers_offset_and_both_contents() {
    let got = checksum_undo_data(0x0102030405060708, b"old!", b"new!");
    assert_eq!(got.to_vec(), checksum(0x0102030405060708, b"old!", b"new!"));
    assert_ne!(got, checksum_undo_data(0x0102030405060709, b"old!", b"new!"));
    assert_ne!(got, checksum_undo_data(0x0102030405060708, b"new!", b"old!"));
}

#[test]
fn sink_numbers_follow_the_checkpoint() {
    assert_eq!(UndoSink::from_source(None).unwrap().log_index(), 0);
    assert_eq!(UndoSink::from_source(Some(0)).unwrap().log_index(), 1);
    assert_eq!(UndoSink::from_source(Some(99999998)).unwrap().log_index(), 99999999);
    assert!(UndoSink::from_source(Some(99999999)).is_none());
    assert!(UndoSink::from_source(Some(u32::MAX)).is_none());
    assert_eq!(&UNDO_MAGIC[..], b"BLKPATCH_UNDO_V1\0");
}

#[test]
fn sink_writes_records() {
    let mut sink = UndoSink::from_source(Some(4)).unwrap();
    sink.write(7, b"same", b"same");
    assert_eq!(sink.commit(), UNDO_MAGIC.to_vec());
    sink.write(0x1122, b"abc", b"xyz");
    let mut want = checksum(0x1122, b"abc", b"xyz");
    want.extend([0x22, 0x11, 0, 0, 0, 0, 0, 0]);
    want.extend([3, 0, 0, 0, 0, 0, 0, 0]);
    want.extend(b"abc");
    assert_eq!(sink.commit(), want);
    assert_eq!(sink.commit(), Vec::<u8>::new());
    sink.write(1, b"q", b"r");
    let (rest, index) = sink.finalize();
    assert_eq!(rest.len(), 32 + 8 + 8 + 1);
    assert_eq!(index, 5);
}

#[test]
fn replay_takes_changes_back() {
    let old = b"0123456789abcdef".to_vec();
    let mut image = old.clone();
    let mut undo = UndoSink::from_source(None).unwrap();
    undo.write(2, &image[2..5], b"XYZ");
    image[2..5].copy_from_slice(b"XYZ");
    undo.write(10, &image[10..12], b"!!");
    image[10..12].copy_from_slice(b"!!");
    let (log, _) = undo.finalize();

    let mut redo = UndoSink::from_source(Some(0)).unwrap();
    redo.commit();
    let changed = image.clone();
    let out = replay_undo_log(image, &log, &mut redo);
    assert_eq!(out.outcome, Ok(false));
    assert_eq!(out.image, old);

    let mut again = UndoSink::from_source(None).unwrap();
    let mut log2 = again.commit();
    log2.extend(redo.commit());
    let back = replay_undo_log(out.image, &log2, &mut again);
    assert_eq!(back.outcome, Ok(false));
    assert_eq!(back.image, changed);
}

#[test]
fn replay_passes_over_what_is_in_place() {
    let image = b"0123456789".to_vec();
    let mut undo = UndoSink::from_source(None).unwrap();
    undo.write(0, b"012", b"abc");
    let (log, _) = undo.finalize();
    let mut redo = UndoSink::from_source(None).unwrap();
    redo.commit();
    let out = replay_undo_log(image.clone(), &log, &mut redo);
    assert_eq!(out.outcome, Ok(false));
    assert_eq!(out.image, image);
    assert_eq!(redo.commit(), Vec::<u8>::new());
}

#[test]
fn replay_notes_bad_checksums() {
    let image = b"abc3456789".to_vec();
    let mut undo = UndoSink::from_source(None).unwrap();
    undo.write(0, b"012", b"abc");
    undo.write(5, b"QQ", b"56");
    let (mut log, _) = undo.finalize();
    log[17] ^= 1;
    let mut redo = UndoSink::from_source(None).unwrap();
    let out = replay_undo_log(image, &log, &mut redo);
    assert_eq!(out.outcome, Ok(true));
    assert_eq!(out.image, b"abc34QQ789".to_vec());
}

#[test]
fn replay_refuses_broken_logs() {
    let image = b"0123456789".to_vec();
    let mut redo = UndoSink::from_source(None).unwrap();
    let out = replay_undo_log(image.clone(), b"BLKPATCH", &mut redo);
    assert_eq!(out.outcome, Err(UndoError::Truncated));
    assert_eq!(out.image, image);
    let out = replay_undo_log(image.clone(), b"BLKPATCH_REDO_V1\0", &mut redo);
    assert_eq!(out.outcome, Err(UndoError::BadMagic));
    let out = replay_undo_log(image.clone(), &UNDO_MAGIC, &mut redo);
    assert_eq!(out.outcome, Ok(false));

    let mut undo = UndoSink::from_source(None).unwrap();
    undo.write(3, b"xyz", b"345");
    let (log, _) = undo.finalize();
    let out = replay_undo_log(image.clone(), &log[..log.len() - 1], &mut redo);
    assert_eq!(out.outcome, Err(UndoError::Truncated));
    let out = replay_undo_log(image.clone(), &log[..17 + 40], &mut redo);
    assert_eq!(out.outcome, Err(UndoError::Truncated));
    let out = replay_undo_log(image.clone(), &log[..17 + 31], &mut redo);
    assert_eq!(out.outcome, Ok(false));

    let mut undo = UndoSink::from_source(None).unwrap();
    undo.write(8, b"xyz", b"89a");
    let (log, _) = undo.finalize();
    let out = replay_undo_log(image.clone(), &log, &mut redo);
    assert_eq!(out.outcome, Err(UndoError::OutOfRange));
    assert_eq!(out.image, image);
}

#[test]
fn replay_makes_held_back_writes_in_batches() {
    let n = 300usize;
    let old: Vec<u8> = (0..n).map(|i| i as u8).collect();
    let new: Vec<u8> = old.iter().map(|b| b.wrapping_add(1)).collect();
    let mut undo = UndoSink::from_source(None).unwrap();
    for i in 0..n {
        undo.write(i as u64, &old[i..i + 1], &new[i..i + 1]);
    }
    let (log, _) = undo.finalize();
    let mut redo = UndoSink::from_source(None).unwrap();
    redo.commit();
    let out = replay_undo_log(new.clone(), &log, &mut redo);
    assert_eq!(out.outcome, Ok(false));
    assert_eq!(out.image, old);
    assert_eq!(redo.commit().len(), n * (32 + 8 + 8 + 1));
}

#[test]
fn checkpoints() {
    assert_eq!(read_checkpoint(b""), Ok(None));
    assert_eq!(read_checkpoint(b"00000042"), Ok(Some(42)));
    assert_eq!(read_checkpoint(b"7\n"), Ok(Some(7)));
    assert_eq!(read_checkpoint(b"4294967295"), Ok(Some(u32::MAX)));
    assert_eq!(read_checkpoint(b"4294967296"), Err(()));
    assert_eq!(read_checkpoint(b"x"), Err(()));
    assert_eq!(read_checkpoint(b" "), Err(()));
}
