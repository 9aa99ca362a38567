use bsync::blob::{compute_zero_block_hash, make_zero_block};
use bsync::config::LOG_BLOCK_SIZE;
use bsync::db::{Database, DbError, RedoContentOrHash};
use bsync::digest::sha256hash;
use bsync::util::{align_block, calculate_block_count, div_round_up, pad_to};

fn block(fill: u8) -> Vec<u8> {
    vec![fill; LOG_BLOCK_SIZE]
}

fn digest(data: &[u8]) -> [u8; 32] {
    blake3::hash(data).into()
}

fn fresh() -> Database {
    Database::new(String::from("0a1b2c3d-0000-4000-8000-000000000001"))
}

#[test]
fn new_store_is_empty() {
    let db = fresh();
    assert_eq!(db.max_lsn(), 0);
    assert_eq!(db.list_consistent_point().len(), 0);
    assert_eq!(db.instance_id(), "0a1b2c3d-0000-4000-8000-000000000001");
    assert!(!db.exists_in_cas(&digest(&block(1))));
}

#[test]
fn zero_block_hash_is_blake3_of_zeros() {
    let zeros = vec![0u8; LOG_BLOCK_SIZE];
    assert_eq!(make_zero_block(), zeros);
    assert_eq!(compute_zero_block_hash(), digest(&zeros));
}

#[test]
fn sha256_of_abc() {
    let got = sha256hash(b"abc");
    let want: [u8; 32] = [
        0xba, 0x78, 0x16, 0xbf, 0x8f, 0x01, 0xcf, 0xea, 0x41, 0x41, 0x40, 0xde, 0x5d, 0xae, 0x22,
        0x23, 0xb0, 0x03, 0x61, 0xa3, 0x96, 0x17, 0x7a, 0x9c, 0xb4, 0x10, 0xff, 0x61, 0xf2, 0x00,
        0x15, 0xad,
    ];
    assert_eq!(got, want);
}

#[test]
fn align_block_pads_short_data() {
    let short = vec![7u8; 10];
    let padded = align_block(&short);
    assert_eq!(padded.len(), LOG_BLOCK_SIZE);
    assert_eq!(&padded[..10], &short[..]);
    assert!(padded[10..].iter().all(|b| *b == 0));
    let full = block(9);
    assert_eq!(&align_block(&full)[..], &full[..]);
    assert_eq!(pad_to(&[1, 2], 4), vec![1, 2, 0, 0]);
}

#[test]
fn rounding_up_divisions() {
    assert_eq!(div_round_up(0, 4), 0);
    assert_eq!(div_round_up(1, 4), 1);
    assert_eq!(div_round_up(4, 4), 1);
    assert_eq!(div_round_up(5, 4), 2);
    assert_eq!(calculate_block_count(262145, 262144), 2);
}

#[test]
fn write_redo_appends_and_deduplicates() {
    let mut db = fresh();
    let a = block(b'A');
    let b = block(b'B');
    let batch = vec![
        (0u64, RedoContentOrHash::Content(&a)),
        (1u64, RedoContentOrHash::Content(&b)),
        (2u64, RedoContentOrHash::Content(&a)),
    ];
    let lsn = db.write_redo(0, &batch).ok().unwrap();
    assert_eq!(lsn, 3);
    assert_eq!(db.max_lsn(), 3);
    assert!(db.exists_in_cas(&digest(&a)));
    assert!(db.exists_in_cas(&digest(&b)));
    let snap = db.snapshot(3);
    assert_eq!(snap.read_block_hash(0), Some(digest(&a)));
    assert_eq!(snap.read_block_hash(1), Some(digest(&b)));
    assert_eq!(snap.read_block_hash(2), Some(digest(&a)));
    assert_eq!(snap.read_block_hash(3), None);
    assert_eq!(snap.read_block(&db, 0), Some(a.clone()));
    assert_eq!(snap.read_block(&db, 1), Some(b.clone()));
    assert_eq!(snap.read_block(&db, 2), Some(a.clone()));
    assert_eq!(snap.read_block(&db, 3), None);
    let early = db.snapshot(1);
    assert_eq!(early.read_block_hash(0), Some(digest(&a)));
    assert_eq!(early.read_block_hash(1), None);
    assert_eq!(early.lsn(), 1);
}

#[test]
fn short_content_is_stored_padded() {
    let mut db = fresh();
    let short = vec![5u8; 100];
    let lsn = db.write_redo(0, &[(4u64, RedoContentOrHash::Content(&short))]).ok().unwrap();
    assert_eq!(lsn, 1);
    let snap = db.snapshot(lsn);
    let mut want = short.clone();
    want.resize(LOG_BLOCK_SIZE, 0);
    assert_eq!(snap.read_block_hash(4), Some(digest(&want)));
    assert_ne!(snap.read_block_hash(4), Some(digest(&short)));
    assert!(db.exists_in_cas(&digest(&want)));
    assert_eq!(snap.read_block(&db, 4), Some(want));
}

#[test]
fn write_redo_checks_the_base_lsn() {
    let mut db = fresh();
    let a = block(1);
    match db.write_redo(5, &[(0u64, RedoContentOrHash::Content(&a))]) {
        Err(DbError::LsnMismatch(expected, actual)) => {
            assert_eq!(expected, 5);
            assert_eq!(actual, 0);
        }
        _ => panic!("expected a mismatch"),
    }
    assert_eq!(db.max_lsn(), 0);
    assert!(!db.exists_in_cas(&digest(&a)));
}

#[test]
fn missing_hash_rolls_the_batch_back() {
    let mut db = fresh();
    let a = block(1);
    let unknown = digest(&block(2));
    let batch = vec![
        (0u64, RedoContentOrHash::Content(&a)),
        (1u64, RedoContentOrHash::Hash(unknown)),
    ];
    match db.write_redo(0, &batch) {
        Err(DbError::MissingHash(text)) => assert_eq!(text, hex::encode(unknown)),
        _ => panic!("expected a missing hash"),
    }
    assert_eq!(db.max_lsn(), 0);
    assert!(!db.exists_in_cas(&digest(&a)));
}

#[test]
fn hash_item_after_content_in_the_same_batch() {
    let mut db = fresh();
    let a = block(1);
    let batch = vec![
        (0u64, RedoContentOrHash::Content(&a)),
        (1u64, RedoContentOrHash::Hash(digest(&a))),
    ];
    assert_eq!(db.write_redo(0, &batch).ok(), Some(2));
    let snap = db.snapshot(2);
    assert_eq!(snap.read_block(&db, 1), Some(a));
}

#[test]
fn zero_hash_reads_as_no_block() {
    let mut db = fresh();
    let zeros = make_zero_block();
    assert_eq!(db.write_redo(0, &[(0u64, RedoContentOrHash::Content(&zeros))]).ok(), Some(1));
    let snap = db.snapshot(1);
    assert_eq!(snap.read_block_hash(0), Some(compute_zero_block_hash()));
    assert_eq!(snap.block_hash_or_zero(0), compute_zero_block_hash());
    assert_eq!(snap.block_hash_or_zero(9), compute_zero_block_hash());
    assert_eq!(snap.read_block(&db, 0), None);
}

#[test]
fn consistent_points_are_ordered_and_not_replaced() {
    let mut db = fresh();
    db.add_consistent_point(5, 100, 1000);
    db.add_consistent_point(2, 50, 1001);
    db.add_consistent_point(5, 999, 1002);
    db.add_consistent_point(9, 10, 1003);
    let points = db.list_consistent_point();
    let lsns: Vec<u64> = points.iter().map(|p| p.lsn).collect();
    assert_eq!(lsns, vec![2, 5, 9]);
    assert_eq!(points[1].size, 100);
    assert_eq!(points[1].created_at, 1000);
    assert_eq!(db.consistent_point(5).map(|p| p.size), Some(100));
    assert_eq!(db.consistent_point(6), None);
}

fn history() -> (Database, Vec<u8>, Vec<u8>, Vec<u8>) {
    let mut db = fresh();
    let a = block(b'A');
    let b = block(b'B');
    let c = block(b'C');
    let first = vec![
        (0u64, RedoContentOrHash::Content(&a)),
        (1u64, RedoContentOrHash::Content(&b)),
        (2u64, RedoContentOrHash::Content(&a)),
    ];
    assert_eq!(db.write_redo(0, &first).ok(), Some(3));
    db.add_consistent_point(3, 3 * LOG_BLOCK_SIZE as u64, 10);
    assert_eq!(db.write_redo(3, &[(1u64, RedoContentOrHash::Content(&c))]).ok(), Some(4));
    db.add_consistent_point(4, 3 * LOG_BLOCK_SIZE as u64, 11);
    assert_eq!(db.write_redo(4, &[(1u64, RedoContentOrHash::Hash(digest(&a)))]).ok(), Some(5));
    db.add_consistent_point(5, 3 * LOG_BLOCK_SIZE as u64, 12);
    (db, a, b, c)
}

#[test]
fn squash_keeps_the_last_entry_of_each_block() {
    let (mut db, a, b, c) = history();
    db.squash(3, 5);
    assert_eq!(db.max_lsn(), 5);
    let lsns: Vec<u64> = db.list_consistent_point().iter().map(|p| p.lsn).collect();
    assert_eq!(lsns, vec![3, 5]);
    assert!(db.exists_in_cas(&digest(&c)));
    db.cas_gc();
    assert!(!db.exists_in_cas(&digest(&c)));
    assert!(db.exists_in_cas(&digest(&a)));
    assert!(db.exists_in_cas(&digest(&b)));
    let at3 = db.snapshot(3);
    assert_eq!(at3.read_block(&db, 0), Some(a.clone()));
    assert_eq!(at3.read_block(&db, 1), Some(b.clone()));
    assert_eq!(at3.read_block(&db, 2), Some(a.clone()));
    let at5 = db.snapshot(5);
    assert_eq!(at5.read_block(&db, 0), Some(a.clone()));
    assert_eq!(at5.read_block(&db, 1), Some(a.clone()));
    assert_eq!(at5.read_block(&db, 2), Some(a.clone()));
    let at4 = db.snapshot(4);
    assert_eq!(at4.read_block_hash(1), Some(digest(&b)));
}

#[test]
fn squash_from_zero() {
    let (mut db, a, _b, _c) = history();
    db.squash(0, 5);
    db.cas_gc();
    assert_eq!(db.max_lsn(), 5);
    let lsns: Vec<u64> = db.list_consistent_point().iter().map(|p| p.lsn).collect();
    assert_eq!(lsns, vec![5]);
    let at5 = db.snapshot(5);
    assert_eq!(at5.read_block(&db, 0), Some(a.clone()));
    assert_eq!(at5.read_block(&db, 1), Some(a.clone()));
    assert_eq!(at5.read_block(&db, 2), Some(a.clone()));
    let at2 = db.snapshot(2);
    assert_eq!(at2.read_block_hash(1), None);
    assert_eq!(db.write_redo(5, &[(7u64, RedoContentOrHash::Content(&a))]).ok(), Some(6));
}

#[test]
fn gc_keeps_what_the_log_refers_to() {
    let (mut db, a, b, c) = history();
    db.cas_gc();
    assert!(db.exists_in_cas(&digest(&a)));
    assert!(db.exists_in_cas(&digest(&b)));
    assert!(db.exists_in_cas(&digest(&c)));
}

#[test]
fn blocks_can_be_put_and_got() {
    let mut db = fresh();
    let a = block(3);
    let key = digest(&a);
    assert_eq!(db.cas_get(&key), None);
    assert_eq!(db.cas_put(key, &a).ok(), Some(true));
    assert_eq!(db.cas_put(key, &block(4)).ok(), Some(false));
    assert_eq!(db.cas_get(&key), Some(a));
    let short = vec![1u8, 2, 3];
    let mut padded = short.clone();
    padded.resize(LOG_BLOCK_SIZE, 0);
    assert!(matches!(db.cas_put(digest(&short), &short), Err(DbError::WrongHash)));
    assert!(!db.exists_in_cas(&digest(&short)));
    assert_eq!(db.cas_put(digest(&padded), &short).ok(), Some(true));
    assert_eq!(db.cas_get(&digest(&padded)), Some(padded));
    assert_eq!(db.max_lsn(), 0);
    db.cas_gc();
    assert!(!db.exists_in_cas(&key));
}

#[test]
fn the_log_can_run_out_of_lsns() {
    let a = block(1);
    let frame = zstd::encode_all(&a[..], 3).unwrap();
    let cas = vec![bsync::db::CasEntry { hash: digest(&a), content: frame, compressed: true }];
    let redo = vec![bsync::db::RedoEntry { lsn: u64::MAX - 1, block_id: 0, hash: digest(&a) }];
    let mut db = Database::restore(String::from("id"), cas, redo, vec![]).unwrap();
    let two = vec![
        (1u64, RedoContentOrHash::Hash(digest(&a))),
        (2u64, RedoContentOrHash::Hash(digest(&a))),
    ];
    assert!(matches!(db.write_redo(u64::MAX - 1, &two), Err(DbError::LsnExhausted)));
    assert_eq!(db.max_lsn(), u64::MAX - 1);
    assert_eq!(db.write_redo(u64::MAX - 1, &two[..1]).ok(), Some(u64::MAX));
    assert_eq!(db.snapshot(u64::MAX).read_block(&db, 1), Some(a));
}

#[test]
fn a_short_block_is_logged_under_the_digest_of_the_stored_block() {
    let mut db = fresh();
    let short = [7u8; 10];
    assert_eq!(db.write_redo(0, &[(0u64, RedoContentOrHash::Content(&short))]).ok(), Some(1));
    let mut padded = short.to_vec();
    padded.resize(LOG_BLOCK_SIZE, 0);
    let h = db.snapshot(1).read_block_hash(0).unwrap();
    assert_eq!(h, digest(&padded));
    let stored = db.cas_get(&h).unwrap();
    assert_eq!(stored.len(), LOG_BLOCK_SIZE);
    assert_eq!(digest(&stored), h);
    let full = padded.clone();
    assert_eq!(db.write_redo(1, &[(1u64, RedoContentOrHash::Content(&full))]).ok(), Some(2));
    assert_eq!(db.snapshot(2).read_block_hash(1), Some(h));
    assert_eq!(db.cas_entries().len(), 1);
}
