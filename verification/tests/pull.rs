use std::io::Write;

use bsync::cmd_pull::{
    host_key_policy, known_host_verdict, HostKeyCheck, PullAction, PullError, PullPhase,
    PullSession, Pullcmd,
};
use bsync::config::{
    BackupConfig, BackupLocalConfig, BackupRemoteConfig, BackupRemoteScripts, HostVerification,
    LOG_BLOCK_SIZE,
};
use bsync::db::{Database, DbError};
use bsync::remote::{ExecError, ExecOutcome, StreamDecoder};
use bsync::transmit;

const L: usize = LOG_BLOCK_SIZE;

fn digest(data: &[u8]) -> [u8; 32] {
    blake3::hash(data).into()
}

fn config(scripts: Option<BackupRemoteScripts>, pull_lock: Option<String>) -> BackupConfig {
    BackupConfig {
        remote: BackupRemoteConfig {
            server: String::from("192.0.2.7"),
            port: None,
            user: String::from("backup"),
            key: None,
            image: String::from("/dev/vg0/data disk"),
            verify: HostVerification::default(),
            scripts,
        },
        local: BackupLocalConfig { db: String::from("/var/lib/bsync/data.db"), pull_lock },
    }
}

fn fresh() -> Database {
    Database::new(String::from("instance-1"))
}

fn image_of(blocks: &[u8]) -> Vec<u8> {
    let mut out = Vec::new();
    for b in blocks {
        out.extend(std::iter::repeat(*b).take(L));
    }
    out
}

fn snappy(data: &[u8]) -> Vec<u8> {
    let mut enc = snap::write::FrameEncoder::new(Vec::new());
    enc.write_all(data).unwrap();
    enc.into_inner().unwrap()
}

fn ok(stdout: Vec<u8>) -> ExecOutcome {
    ExecOutcome { stdout, exit_status: 0, exit_signal: None }
}

/// A remote host that holds `image` and answers as the helper would.
struct Remote {
    image: Vec<u8>,
    installed: bool,
    commands: Vec<String>,
    uploads: Vec<String>,
}

impl Remote {
    fn new(image: Vec<u8>) -> Remote {
        Remote { image, installed: true, commands: Vec::new(), uploads: Vec::new() }
    }

    fn answer(&mut self, command: &str, decoder: StreamDecoder) -> ExecOutcome {
        self.commands.push(command.to_string());
        if command == "uname -m; uname -s" {
            return ok(b"x86_64\nLinux\n".to_vec());
        }
        if command.starts_with("\nif [ -f ~/.bsync/") {
            return if self.installed { ok(Vec::new()) } else { ok(b"/home/backup/.bsync".to_vec()) };
        }
        if command.starts_with("blockdev --getsize64 ") {
            return ok(format!("{}\n", self.image.len()).into_bytes());
        }
        if let Some(at) = command.find(" hash ") {
            assert_eq!(decoder, StreamDecoder::Raw);
            let mut args = command[at + 6..].split(' ');
            let offset: usize = args.next().unwrap().parse().unwrap();
            let count: usize = args.next().unwrap().parse().unwrap();
            return ok(transmit::hash(&self.image, L, offset, count));
        }
        if let Some(at) = command.find(" dump ") {
            assert_eq!(decoder, StreamDecoder::Snappy);
            let offsets: Vec<usize> =
                command[at + 6..].split(',').map(|x| x.parse().unwrap()).collect();
            return ok(snappy(&transmit::dump(&self.image, L, &offsets)));
        }
        ok(b"done\n".to_vec())
    }
}

fn drive(
    remote: &mut Remote,
    mut session: PullSession,
    mut action: PullAction,
    now: u64,
) -> (Database, Result<(u64, u64, u64), PullError>) {
    loop {
        let next = match action {
            PullAction::Exec { command, decoder } => {
                let outcome = remote.answer(&command, decoder);
                session.on_output(outcome)
            }
            PullAction::Upload { path, arch: _ } => {
                remote.uploads.push(path);
                session.on_uploaded()
            }
            PullAction::Continue => session.resume(now),
            PullAction::Done { lsn, fetched_blocks, reused_blocks } => {
                assert_eq!(session.phase(), PullPhase::Done);
                return (session.into_database(), Ok((lsn, fetched_blocks, reused_blocks)));
            }
        };
        match next {
            Ok(a) => action = a,
            Err(e) => return (session.into_database(), Err(e)),
        }
    }
}

fn pull(db: Database, remote: &mut Remote, now: u64) -> (Database, Result<(u64, u64, u64), PullError>) {
    let cfg = config(None, None);
    let cmd = Pullcmd { config: String::from("/etc/bsync.yaml") };
    let (session, action) = match cmd.run(&cfg, db, b"x86 helper".to_vec(), b"arm helper".to_vec()) {
        Ok(x) => x,
        Err(_) => panic!("the configuration was refused"),
    };
    drive(remote, session, action, now)
}

fn read_image(db: &Database, lsn: u64, blocks: u64) -> Vec<u8> {
    let snap = db.snapshot(lsn);
    let mut out = Vec::new();
    for b in 0..blocks {
        match snap.read_block(db, b) {
            Some(v) => out.extend(v),
            None => out.extend(std::iter::repeat(0u8).take(L)),
        }
    }
    out
}

#[test]
fn fresh_pull() {
    let mut remote = Remote::new(image_of(b"ABA"));
    let (db, r) = pull(fresh(), &mut remote, 77);
    assert_eq!(r.ok(), Some((3, 2, 1)));
    assert_eq!(db.max_lsn(), 3);
    let snap = db.snapshot(3);
    assert_eq!(snap.read_block_hash(0), Some(digest(&vec![b'A'; L])));
    assert_eq!(snap.read_block_hash(1), Some(digest(&vec![b'B'; L])));
    assert_eq!(snap.read_block_hash(2), Some(digest(&vec![b'A'; L])));
    let points = db.list_consistent_point();
    assert_eq!(points.len(), 1);
    assert_eq!((points[0].lsn, points[0].size, points[0].created_at), (3, 3 * L as u64, 77));
    assert_eq!(read_image(&db, 3, 3), remote.image);
    assert!(db.exists_in_cas(&digest(&vec![b'A'; L])));
    assert!(db.exists_in_cas(&digest(&vec![b'B'; L])));
}

#[test]
fn fresh_pull_asks_for_what_it_needs() {
    let mut remote = Remote::new(image_of(b"ABA"));
    let (_db, r) = pull(fresh(), &mut remote, 1);
    assert!(r.is_ok());
    let helper = format!("transmit.instance-1.{}", hex::encode(bsync::digest::sha256hash(b"x86 helper")));
    assert_eq!(remote.commands[0], "uname -m; uname -s");
    assert_eq!(
        remote.commands[1],
        format!(
            "\nif [ -f ~/.bsync/{f} ]; then\n  echo {h} ~/.bsync/{f} | sha256sum -c - > /dev/null\n  if [ $? -eq 0 ]; then\n    exit 0\n  fi\nfi\nmkdir -p ~/.bsync\necho -n \"$HOME/.bsync\"\n",
            f = helper,
            h = hex::encode(bsync::digest::sha256hash(b"x86 helper"))
        )
    );
    assert_eq!(
        remote.commands[2],
        "blockdev --getsize64 '/dev/vg0/data disk' || stat -c \"%s\" '/dev/vg0/data disk'"
    );
    assert_eq!(
        remote.commands[3],
        format!("~/.bsync/{} '/dev/vg0/data disk' 262144 hash 0 3", helper)
    );
    assert_eq!(
        remote.commands[4],
        format!("~/.bsync/{} '/dev/vg0/data disk' 262144 dump 0,262144", helper)
    );
    assert_eq!(remote.commands.len(), 5);
}

#[test]
fn no_op_pull() {
    let mut remote = Remote::new(image_of(b"ABA"));
    let (db, _) = pull(fresh(), &mut remote, 77);
    remote.commands.clear();
    let (db, r) = pull(db, &mut remote, 99);
    assert_eq!(r.ok(), Some((3, 0, 0)));
    assert_eq!(db.max_lsn(), 3);
    let points = db.list_consistent_point();
    assert_eq!(points.len(), 1);
    assert_eq!(points[0].created_at, 77);
    assert!(remote.commands.iter().all(|c| !c.contains(" dump ")));
}

#[test]
fn single_block_change() {
    let mut remote = Remote::new(image_of(b"ABA"));
    let (db, _) = pull(fresh(), &mut remote, 1);
    remote.image = image_of(b"ACA");
    let (db, r) = pull(db, &mut remote, 2);
    assert_eq!(r.ok(), Some((4, 1, 0)));
    let snap = db.snapshot(4);
    assert_eq!(snap.read_block_hash(1), Some(digest(&vec![b'C'; L])));
    assert!(db.exists_in_cas(&digest(&vec![b'C'; L])));
    let lsns: Vec<(u64, u64)> = db.list_consistent_point().iter().map(|p| (p.lsn, p.size)).collect();
    assert_eq!(lsns, vec![(3, 3 * L as u64), (4, 3 * L as u64)]);
    assert_eq!(read_image(&db, 4, 3), remote.image);
    assert_eq!(read_image(&db, 3, 3), image_of(b"ABA"));
}

#[test]
fn deduplicated_change() {
    let mut remote = Remote::new(image_of(b"ABA"));
    let (db, _) = pull(fresh(), &mut remote, 1);
    remote.image = image_of(b"ACA");
    let (db, _) = pull(db, &mut remote, 2);
    remote.image = image_of(b"AAA");
    remote.commands.clear();
    let (db, r) = pull(db, &mut remote, 3);
    assert_eq!(r.ok(), Some((5, 0, 1)));
    assert!(remote.commands.iter().all(|c| !c.contains(" dump ")));
    assert_eq!(db.snapshot(5).read_block_hash(1), Some(digest(&vec![b'A'; L])));
    assert_eq!(read_image(&db, 5, 3), remote.image);
}

#[test]
fn squash_after_three_pulls() {
    let mut remote = Remote::new(image_of(b"ABA"));
    let (db, _) = pull(fresh(), &mut remote, 1);
    remote.image = image_of(b"ACA");
    let (db, _) = pull(db, &mut remote, 2);
    remote.image = image_of(b"AAA");
    let (mut db, _) = pull(db, &mut remote, 3);
    let cmd = bsync::cmd_squash::SquashCmd {
        start_lsn: 3,
        end_lsn: 5,
        data_loss: true,
        vacuum: false,
        db: String::from("x.db"),
    };
    assert_eq!(cmd.run(&mut db), Ok(()));
    assert!(!db.exists_in_cas(&digest(&vec![b'C'; L])));
    assert_eq!(db.snapshot(4).read_block_hash(1), Some(digest(&vec![b'B'; L])));
    assert_eq!(read_image(&db, 3, 3), image_of(b"ABA"));
    assert_eq!(read_image(&db, 5, 3), image_of(b"AAA"));
    let lsns: Vec<u64> = db.list_consistent_point().iter().map(|p| p.lsn).collect();
    assert_eq!(lsns, vec![3, 5]);
}

#[test]
fn constant_image_is_stored_once() {
    let mut remote = Remote::new(image_of(b"QQQQQ"));
    let (db, r) = pull(fresh(), &mut remote, 1);
    assert_eq!(r.ok(), Some((5, 1, 4)));
    let snap = db.snapshot(5);
    for b in 0..5 {
        assert_eq!(snap.read_block_hash(b), Some(digest(&vec![b'Q'; L])));
    }
    assert_eq!(read_image(&db, 5, 5), remote.image);
}

#[test]
fn all_zero_image_logs_nothing() {
    let mut remote = Remote::new(vec![0u8; 2 * L]);
    let (db, r) = pull(fresh(), &mut remote, 1);
    assert_eq!(r.ok(), Some((0, 0, 0)));
    assert_eq!(db.max_lsn(), 0);
    let points = db.list_consistent_point();
    assert_eq!((points[0].lsn, points[0].size), (0, 2 * L as u64));
    assert_eq!(read_image(&db, 0, 2), remote.image);
}

#[test]
fn image_of_one_block() {
    let mut remote = Remote::new(image_of(b"Z"));
    let (db, r) = pull(fresh(), &mut remote, 1);
    assert_eq!(r.ok(), Some((1, 1, 0)));
    assert_eq!(read_image(&db, 1, 1), remote.image);
}

#[test]
fn image_with_a_short_tail() {
    let mut image = image_of(b"AB");
    image.truncate(2 * L - 1);
    let mut remote = Remote::new(image.clone());
    let (db, r) = pull(fresh(), &mut remote, 1);
    assert_eq!(r.ok(), Some((2, 2, 0)));
    let mut want = image.clone();
    want.push(0);
    assert_eq!(read_image(&db, 2, 2), want);
    assert_eq!(db.list_consistent_point()[0].size, (2 * L - 1) as u64);
}

#[test]
fn empty_image() {
    let mut remote = Remote::new(Vec::new());
    let (db, r) = pull(fresh(), &mut remote, 5);
    assert_eq!(r.ok(), Some((0, 0, 0)));
    assert_eq!(db.max_lsn(), 0);
    let points = db.list_consistent_point();
    assert_eq!(points.len(), 1);
    assert_eq!((points[0].lsn, points[0].size), (0, 0));
    assert!(remote.commands.iter().all(|c| !c.contains(" hash ") && !c.contains(" dump ")));
}

#[test]
fn shrunk_image_fails() {
    let mut remote = Remote::new(image_of(b"ABA"));
    let (db, _) = pull(fresh(), &mut remote, 1);
    remote.image = image_of(b"AB");
    let (db, r) = pull(db, &mut remote, 2);
    match r {
        Err(PullError::ImageShrunk(recorded, now)) => {
            assert_eq!(recorded, 3 * L as u64);
            assert_eq!(now, 2 * L as u64);
        }
        _ => panic!("expected the pull to fail"),
    }
    assert_eq!(db.max_lsn(), 3);
    assert_eq!(db.list_consistent_point().len(), 1);
}

#[test]
fn grown_image() {
    let mut remote = Remote::new(image_of(b"AB"));
    let (db, _) = pull(fresh(), &mut remote, 1);
    remote.image = image_of(b"ABCD");
    let (db, r) = pull(db, &mut remote, 2);
    assert_eq!(r.ok(), Some((4, 2, 0)));
    assert_eq!(read_image(&db, 4, 4), remote.image);
}

#[test]
fn helper_is_installed_when_the_probe_names_a_directory() {
    let mut remote = Remote::new(image_of(b"A"));
    remote.installed = false;
    let (_db, r) = pull(fresh(), &mut remote, 1);
    assert!(r.is_ok());
    let helper = format!("transmit.instance-1.{}", hex::encode(bsync::digest::sha256hash(b"x86 helper")));
    assert_eq!(remote.uploads, vec![format!("/home/backup/.bsync/{}", helper)]);
}

#[test]
fn scripts_run_before_and_after() {
    let scripts = BackupRemoteScripts {
        no_pull_lock: Some(true),
        pre_pull: Some(String::from("lvcreate -s -n snap vg0/data")),
        post_pull: Some(String::from("lvremove -f vg0/snap")),
    };
    let cfg = config(Some(scripts), None);
    let cmd = Pullcmd { config: String::from("c") };
    let mut remote = Remote::new(image_of(b"AB"));
    let (session, action) = cmd.run(&cfg, fresh(), vec![1], vec![2]).ok().unwrap();
    let (db, r) = drive(&mut remote, session, action, 9);
    assert_eq!(r.ok(), Some((2, 2, 0)));
    assert_eq!(remote.commands[2], "lvcreate -s -n snap vg0/data");
    assert_eq!(remote.commands.last().unwrap(), "lvremove -f vg0/snap");
    assert_eq!(db.list_consistent_point().len(), 1);
}

#[test]
fn scripts_need_a_pull_lock() {
    let scripts = BackupRemoteScripts { no_pull_lock: None, pre_pull: None, post_pull: None };
    let cmd = Pullcmd { config: String::from("c") };
    assert!(matches!(
        cmd.run(&config(Some(scripts), None), fresh(), vec![], vec![]),
        Err(PullError::PullLockRequired)
    ));
    let scripts = BackupRemoteScripts { no_pull_lock: Some(false), pre_pull: None, post_pull: None };
    assert!(cmd
        .run(&config(Some(scripts), Some(String::from("/run/lock/pull"))), fresh(), vec![], vec![])
        .is_ok());
    assert!(config(None, None).remote.port_or_default() == 22);
}

fn start() -> (PullSession, PullAction) {
    PullSession::begin(&config(None, None), fresh(), b"x".to_vec(), b"y".to_vec())
}

#[test]
fn other_systems_are_refused() {
    let (mut session, _) = start();
    match session.on_output(ok(b"x86_64\nFreeBSD\n".to_vec())) {
        Err(PullError::OsNotSupported(name)) => assert_eq!(name, b"FreeBSD".to_vec()),
        _ => panic!("expected a refusal"),
    }
    let (mut session, _) = start();
    match session.on_output(ok(b"riscv64\nLinux\n".to_vec())) {
        Err(PullError::ArchNotSupported(name)) => assert_eq!(name, b"riscv64".to_vec()),
        _ => panic!("expected a refusal"),
    }
    let (mut session, _) = start();
    match session.on_output(ok(b"aarch64".to_vec())) {
        Err(PullError::OsNotSupported(name)) => assert_eq!(name, Vec::<u8>::new()),
        _ => panic!("expected a refusal"),
    }
    for machine in ["amd64", "aarch64", "x86_64"] {
        let (mut session, _) = start();
        let out = format!("{}\nLinux\n", machine).into_bytes();
        assert!(session.on_output(ok(out)).is_ok());
        assert_eq!(session.phase(), PullPhase::InstallProbe);
    }
}

#[test]
fn remote_failures_end_the_pull() {
    let (mut session, _) = start();
    let failed = ExecOutcome { stdout: b"x86_64\nLinux\n".to_vec(), exit_status: 3, exit_signal: None };
    assert!(matches!(
        session.on_output(failed),
        Err(PullError::Exec(ExecError::RemoteError(3)))
    ));
    let (mut session, _) = start();
    let killed = ExecOutcome {
        stdout: b"x86_64\nLinux\n".to_vec(),
        exit_status: 0,
        exit_signal: Some(String::from("KILL")),
    };
    assert!(matches!(
        session.on_output(killed),
        Err(PullError::Exec(ExecError::RemoteError(1)))
    ));
    let (mut session, _) = start();
    assert!(matches!(
        session.on_output(ok(vec![0xff, 0xfe])),
        Err(PullError::Exec(ExecError::InvalidUtf8))
    ));
    assert!(matches!(session.resume(1), Err(PullError::OutOfTurn)));
    assert!(matches!(session.on_uploaded(), Err(PullError::OutOfTurn)));
}

fn to_size_phase() -> PullSession {
    let (mut session, _) = start();
    session.on_output(ok(b"x86_64\nLinux\n".to_vec())).ok().unwrap();
    session.on_output(ok(Vec::new())).ok().unwrap();
    assert_eq!(session.phase(), PullPhase::ImageSize);
    session
}

#[test]
fn size_must_be_a_number() {
    let mut session = to_size_phase();
    assert!(matches!(session.on_output(ok(b"big\n".to_vec())), Err(PullError::BadImageSize)));
    let mut session = to_size_phase();
    assert!(matches!(session.on_output(ok(b"".to_vec())), Err(PullError::BadImageSize)));
    let mut session = to_size_phase();
    assert!(matches!(
        session.on_output(ok(b"18446744073709551616".to_vec())),
        Err(PullError::BadImageSize)
    ));
}

#[test]
fn byte_counts_are_checked() {
    let mut session = to_size_phase();
    session.on_output(ok(b" 524288 \n".to_vec())).ok().unwrap();
    assert_eq!(session.phase(), PullPhase::Diff);
    match session.on_output(ok(vec![0u8; 63])) {
        Err(PullError::ByteCountMismatch(expected, got)) => {
            assert_eq!((expected, got), (64, 63));
        }
        _ => panic!("expected a mismatch"),
    }
    let mut hashes = digest(&vec![1u8; L]).to_vec();
    hashes.extend(digest(&vec![2u8; L]));
    assert!(matches!(session.on_output(ok(hashes)), Ok(PullAction::Continue)));
    assert_eq!(session.phase(), PullPhase::Commit);
    assert!(matches!(session.resume(1), Ok(PullAction::Exec { .. })));
    assert_eq!(session.phase(), PullPhase::Blocks);
    match session.on_output(ok(snappy(&vec![1u8; L]))) {
        Err(PullError::ByteCountMismatch(expected, got)) => {
            assert_eq!((expected, got), (2 * L, L));
        }
        _ => panic!("expected a mismatch"),
    }
    assert!(matches!(
        session.on_output(ok(vec![1u8; 2 * L])),
        Err(PullError::Exec(ExecError::Decode))
    ));
    let mut blocks = vec![1u8; L];
    blocks.extend(vec![2u8; L]);
    assert!(matches!(session.on_output(ok(snappy(&blocks))), Ok(PullAction::Continue)));
    assert_eq!(session.database().max_lsn(), 2);
}

#[test]
fn a_digest_that_vanished_is_reported() {
    let mut session = to_size_phase();
    session.on_output(ok(b"524288".to_vec())).ok().unwrap();
    let mut hashes = digest(&vec![1u8; L]).to_vec();
    hashes.extend(digest(&vec![1u8; L]));
    session.on_output(ok(hashes)).ok().unwrap();
    session.resume(1).ok().unwrap();
    let mut other = vec![9u8; L];
    other[0] = 1;
    match session.on_output(ok(snappy(&other))) {
        Err(PullError::Db(DbError::MissingHash(text))) => {
            assert_eq!(text, hex::encode(digest(&vec![1u8; L])));
        }
        _ => panic!("expected a missing digest"),
    }
    assert_eq!(session.database().max_lsn(), 0);
}

#[test]
fn many_changed_blocks_are_committed_in_batches() {
    let mut session = to_size_phase();
    let blocks = 300u64;
    session.on_output(ok(format!("{}", blocks * L as u64).into_bytes())).ok().unwrap();
    let block = vec![3u8; L];
    let mut hashes = Vec::new();
    for _ in 0..blocks {
        hashes.extend(digest(&block));
    }
    assert!(matches!(session.on_output(ok(hashes)), Ok(PullAction::Continue)));
    match session.resume(1) {
        Ok(PullAction::Exec { command, decoder }) => {
            assert!(command.ends_with(" dump 0"));
            assert_eq!(decoder, StreamDecoder::Snappy);
        }
        _ => panic!("expected a fetch"),
    }
    assert!(matches!(session.on_output(ok(snappy(&block))), Ok(PullAction::Continue)));
    assert_eq!(session.database().max_lsn(), 256);
    assert!(matches!(session.resume(1), Ok(PullAction::Continue)));
    assert_eq!(session.database().max_lsn(), 300);
    match session.resume(1) {
        Ok(PullAction::Done { lsn, fetched_blocks, reused_blocks }) => {
            assert_eq!((lsn, fetched_blocks, reused_blocks), (300, 1, 299));
        }
        _ => panic!("expected the end"),
    }
    let points = session.database().list_consistent_point();
    assert_eq!((points[0].lsn, points[0].size), (300, 300 * L as u64));
}

#[test]
fn host_keys() {
    assert!(matches!(host_key_policy(HostVerification::Known, false), Err(PullError::NoHostKey)));
    assert!(matches!(host_key_policy(HostVerification::Insecure, false), Err(PullError::NoHostKey)));
    assert!(matches!(host_key_policy(HostVerification::Insecure, true), Ok(false)));
    assert!(matches!(host_key_policy(HostVerification::Known, true), Ok(true)));
    assert!(matches!(
        host_key_policy(HostVerification::Dnssec, true),
        Err(PullError::DnssecNotImplemented)
    ));
    assert!(matches!(known_host_verdict(HostKeyCheck::Match), Ok(())));
    assert!(matches!(known_host_verdict(HostKeyCheck::NotFound), Err(PullError::HostKeyNotFound)));
    assert!(matches!(known_host_verdict(HostKeyCheck::Mismatch), Err(PullError::HostKeyMismatch)));
    assert!(matches!(known_host_verdict(HostKeyCheck::Failure), Err(PullError::HostKeyUnknown)));
    assert_eq!(HostVerification::default(), HostVerification::Known);
}
