use bsync::cmd_pull::PullError;
use bsync::cmd_replay::ReplayError;
use bsync::cmd_serve::ServeError;
use bsync::cmd_squash::SquashError;
use bsync::config::LOG_BLOCK_SIZE;
use bsync::db::{
    run_migration, CasEntry, ConsistentPoint, Database, DbError, MigrationError, RedoContentOrHash,
    RedoEntry,
};
use bsync::digest::{hash_eq, hash_from_slice, slice_is_hash};
use bsync::remote::ExecError;

const L: usize = LOG_BLOCK_SIZE;

fn digest(data: &[u8]) -> [u8; 32] {
    blake3::hash(data).into()
}

#[test]
fn errors_say_what_happened() {
    assert_eq!(DbError::LsnMismatch(3, 5).message(), "base lsn mismatch: expecting 3, got 5");
    assert_eq!(
        DbError::MissingHash(String::from("00ff")).message(),
        "block with hash 00ff was assumed to exist in CAS but does not exist anymore - did you run `bsync squash` just now? please retry."
    );
    assert_eq!(
        DbError::WrongHash.message(),
        "a block was to be stored under a digest that is not its own"
    );
    assert_eq!(ExecError::RemoteError(127).message(), "remote returned error 127");
    assert_eq!(ExecError::RemoteError(-1).message(), "remote returned error -1");
    assert_eq!(ExecError::RemoteError(i32::MIN).message(), "remote returned error -2147483648");
    assert_eq!(
        PullError::ByteCountMismatch(64, 63).message(),
        "expecting 64 bytes from remote, got 63"
    );
    assert_eq!(
        PullError::ArchNotSupported(b"riscv64".to_vec()).message(),
        "remote architecture not supported: riscv64"
    );
    assert_eq!(
        PullError::OsNotSupported(vec![0xff, 0x01]).message(),
        "remote os not supported: ff01"
    );
    assert_eq!(PullError::NoHostKey.message(), "no host key");
    assert_eq!(
        PullError::HostKeyMismatch.message(),
        "host key verification error: mismatch - possible mitm"
    );
    assert_eq!(
        PullError::HostKeyNotFound.message(),
        "host key verification error: not found - please connect to the remote host once"
    );
    assert_eq!(
        PullError::ImageShrunk(10, 5).message(),
        "detected shrink in remote image from 10 to 5 bytes"
    );
    assert_eq!(PullError::Exec(ExecError::RemoteError(2)).message(), "remote returned error 2");
    assert_eq!(
        PullError::Db(DbError::LsnMismatch(1, 2)).message(),
        "base lsn mismatch: expecting 1, got 2"
    );
    assert_eq!(
        SquashError::InconsistentStart.message(),
        "the provided `start_lsn` is not a consistent point"
    );
    assert_eq!(
        SquashError::InconsistentEnd.message(),
        "the provided `end_lsn` is not a consistent point"
    );
    assert_eq!(
        SquashError::DataLoss.message(),
        "squash removes history - please confirm by adding the flag `--data-loss`."
    );
    assert_eq!(ServeError::Inconsistent.message(), "the provided LSN is not a consistent point");
    assert_eq!(ServeError::ReadOnly.message(), "read only block device");
    assert_eq!(ReplayError::Inconsistent.message(), "the provided LSN is not a consistent point");
    assert_eq!(
        MigrationError::SchemaTooNew.message(),
        "migration failed: database schema version is newer than the supported version"
    );
}

#[test]
fn migrations_follow_the_recorded_version() {
    assert_eq!(run_migration(None), Ok(vec![1, 2, 3]));
    assert_eq!(run_migration(Some(b"0")), Ok(vec![1, 2, 3]));
    assert_eq!(run_migration(Some(b"000001")), Ok(vec![2, 3]));
    assert_eq!(run_migration(Some(b"2")), Ok(vec![3]));
    assert_eq!(run_migration(Some(b"3")), Ok(vec![]));
    assert_eq!(run_migration(Some(b"4")), Err(MigrationError::SchemaTooNew));
    assert_eq!(run_migration(Some(b"")), Err(MigrationError::BadVersion));
    assert_eq!(run_migration(Some(b" 1")), Err(MigrationError::BadVersion));
    assert_eq!(run_migration(Some(b"one")), Err(MigrationError::BadVersion));
}

#[test]
fn digests_compare_by_content() {
    let a = digest(b"a");
    let b = digest(b"b");
    assert!(hash_eq(&a, &a));
    assert!(!hash_eq(&a, &b));
    assert!(slice_is_hash(&a[..], &a));
    assert!(!slice_is_hash(&a[..31], &a));
    assert!(!slice_is_hash(&b[..], &a));
    assert_eq!(hash_from_slice(&a[..]), a);
}

fn rows() -> (Vec<CasEntry>, Vec<RedoEntry>, Vec<ConsistentPoint>) {
    let mut db = Database::new(String::from("id"));
    let a = vec![b'A'; L];
    let b = vec![b'B'; L];
    let batch = vec![
        (0u64, RedoContentOrHash::Content(&a)),
        (1u64, RedoContentOrHash::Content(&b)),
    ];
    assert_eq!(db.write_redo(0, &batch).ok(), Some(2));
    db.add_consistent_point(2, 2 * L as u64, 9);
    let cas = db
        .cas_entries()
        .iter()
        .map(|e| CasEntry { hash: e.hash, content: e.content.clone(), compressed: e.compressed })
        .collect();
    let redo = db.redo_entries().clone();
    (cas, redo, db.list_consistent_point())
}

#[test]
fn stored_blocks_are_zstd_frames() {
    let (cas, redo, _) = rows();
    assert_eq!(cas.len(), 2);
    assert_eq!(redo.len(), 2);
    for e in &cas {
        assert!(e.compressed);
        assert!(e.content.len() < L);
        let plain = zstd::decode_all(&e.content[..]).unwrap();
        assert_eq!(plain.len(), L);
        assert_eq!(digest(&plain), e.hash);
    }
    assert_eq!((redo[0].lsn, redo[0].block_id, redo[0].hash), (1, 0, digest(&vec![b'A'; L])));
    assert_eq!((redo[1].lsn, redo[1].block_id, redo[1].hash), (2, 1, digest(&vec![b'B'; L])));
}

#[test]
fn a_store_comes_back_from_its_rows() {
    let (cas, redo, points) = rows();
    let db = Database::restore(String::from("id"), cas, redo, points).unwrap();
    assert_eq!(db.max_lsn(), 2);
    assert_eq!(db.instance_id(), "id");
    let snap = db.snapshot(2);
    assert_eq!(snap.read_block(&db, 0), Some(vec![b'A'; L]));
    assert_eq!(snap.read_block(&db, 1), Some(vec![b'B'; L]));
    assert_eq!(db.list_consistent_point().len(), 1);
}

#[test]
fn uncompressed_rows_are_read_as_they_are() {
    let block = vec![7u8; L];
    let cas = vec![CasEntry { hash: digest(&block), content: block.clone(), compressed: false }];
    let redo = vec![RedoEntry { lsn: 4, block_id: 2, hash: digest(&block) }];
    let db = Database::restore(String::from("id"), cas, redo, vec![]).unwrap();
    assert_eq!(db.max_lsn(), 4);
    assert_eq!(db.snapshot(4).read_block(&db, 2), Some(block));
    assert_eq!(db.snapshot(3).read_block(&db, 2), None);
}

#[test]
fn damaged_rows_are_refused() {
    let (cas, mut redo, points) = rows();
    redo.swap(0, 1);
    assert!(Database::restore(String::from("id"), cas, redo, points).is_none());

    let (cas, mut redo, points) = rows();
    redo[0].lsn = 0;
    assert!(Database::restore(String::from("id"), cas, redo, points).is_none());

    let (mut cas, redo, points) = rows();
    cas.pop();
    assert!(Database::restore(String::from("id"), cas, redo, points).is_none());

    let (mut cas, redo, points) = rows();
    cas[0].content = vec![1, 2, 3];
    assert!(Database::restore(String::from("id"), cas, redo, points).is_none());

    let (mut cas, redo, points) = rows();
    cas[1].hash = cas[0].hash;
    assert!(Database::restore(String::from("id"), cas, redo, points).is_none());

    let (mut cas, redo, points) = rows();
    cas[0].compressed = false;
    assert!(Database::restore(String::from("id"), cas, redo, points).is_none());

    let (mut cas, mut redo, points) = rows();
    cas[0].hash[0] ^= 1;
    redo[0].hash = cas[0].hash;
    assert!(Database::restore(String::from("id"), cas, redo, points).is_none());

    let wrong = vec![9u8; L];
    let cas = vec![CasEntry { hash: digest(b"other"), content: wrong, compressed: false }];
    assert!(Database::restore(String::from("id"), cas, vec![], vec![]).is_none());

    let (cas, redo, mut points) = rows();
    points.push(ConsistentPoint { lsn: 2, size: 1, created_at: 1 });
    assert!(Database::restore(String::from("id"), cas, redo, points).is_none());

    let short = zstd::encode_all(&[1u8, 2, 3][..], 3).unwrap();
    let cas = vec![CasEntry { hash: digest(&[1, 2, 3]), content: short, compressed: true }];
    assert!(Database::restore(String::from("id"), cas, vec![], vec![]).is_none());
}
