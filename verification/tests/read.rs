use bsync::buffer_writer::BufferWriter;
use bsync::cmd_list::{Listcmd, OutputEntry};
use bsync::cmd_replay::{ReplayError, ReplayStep, Replaycmd};
use bsync::cmd_serve::{do_listen, ListenAddr, ServeError, Servecmd, Service};
use bsync::cmd_squash::{SquashCmd, SquashError};
use bsync::cmd_travel::{TravelCmd, TravelDirection, TravelError, TravelStart};
use bsync::config::LOG_BLOCK_SIZE;
use bsync::db::{Database, RedoContentOrHash};
use bsync::remote::{
    exec_oneshot_bin_in, exec_oneshot_in, make_dump_command, make_hash_command, make_helper_name,
    make_install_probe, make_size_command, make_uname_command, make_upload_path, ExecError,
    ExecOutcome, StreamDecoder,
};
use bsync::text::{decimal, parse_u64};
use bsync::transmit;
use bsync::undo::format_lcn;

const L: usize = LOG_BLOCK_SIZE;

fn patterned(seed: u8) -> Vec<u8> {
    (0..L).map(|i| (i as u8).wrapping_mul(31).wrapping_add(seed)).collect()
}

/// Blocks 0 and 2 stored, block 1 never written, size with a short tail.
fn store() -> (Database, Vec<u8>, u64) {
    let mut db = Database::new(String::from("id"));
    let a = patterned(1);
    let c = patterned(3);
    let batch = vec![
        (0u64, RedoContentOrHash::Content(&a)),
        (2u64, RedoContentOrHash::Content(&c)),
    ];
    assert_eq!(db.write_redo(0, &batch).ok(), Some(2));
    let size = (2 * L + 1000) as u64;
    db.add_consistent_point(2, size, 42);
    let mut image = a.clone();
    image.extend(vec![0u8; L]);
    image.extend(&c[..1000]);
    (db, image, size)
}

#[test]
fn serve_needs_a_consistent_point() {
    let (db, _, size) = store();
    let cmd = Servecmd { lsn: 1, db: String::from("x.db"), listen: String::from("127.0.0.1:10809") };
    assert!(matches!(cmd.run(&db), Err(ServeError::Inconsistent)));
    let cmd = Servecmd { lsn: 2, db: String::from("x.db"), listen: String::from("unix:/run/nbd.sock") };
    let plan = cmd.run(&db).ok().unwrap();
    assert_eq!(plan.point.size, size);
    assert_eq!(plan.point.lsn, 2);
    assert_eq!(plan.snapshot.lsn(), 2);
    assert!(matches!(plan.listen, ListenAddr::Unix(p) if p == b"/run/nbd.sock".to_vec()));
}

#[test]
fn listen_addresses() {
    assert!(matches!(do_listen("unix:"), ListenAddr::Unix(p) if p.is_empty()));
    assert!(matches!(do_listen("unix"), ListenAddr::Tcp(a) if a == "unix"));
    assert!(matches!(do_listen("[::1]:10809"), ListenAddr::Tcp(a) if a == "[::1]:10809"));
    assert!(matches!(do_listen("Unix:/x"), ListenAddr::Tcp(a) if a == "Unix:/x"));
}

#[test]
fn reads_cross_block_boundaries() {
    let (db, image, _) = store();
    let snap = db.snapshot(2);
    let mut svc = Service::new(&db, &snap);
    assert_eq!(svc.seek(L as u64 - 10), L as u64 - 10);
    let got = svc.read(20).ok().unwrap();
    assert_eq!(got, image[L - 10..L + 10].to_vec());
    let got = svc.read(L).ok().unwrap();
    assert_eq!(got, image[L + 10..2 * L + 10].to_vec());
    svc.seek(0);
    assert_eq!(svc.read(0).ok().unwrap(), Vec::<u8>::new());
    assert_eq!(svc.read(5).ok().unwrap(), image[..5].to_vec());
    assert_eq!(svc.read(5).ok().unwrap(), image[5..10].to_vec());
    svc.seek(u64::MAX - 3);
    assert_eq!(svc.read(4), Err(ServeError::OutOfRange));
    assert_eq!(svc.read(3).ok().unwrap(), vec![0u8; 3]);
    assert_eq!(svc.write(&[1, 2, 3]), Err(ServeError::ReadOnly));
    assert_eq!(svc.flush(), Ok(()));
}

#[test]
fn cache_serves_more_blocks_than_it_holds() {
    let mut db = Database::new(String::from("id"));
    let blocks: Vec<Vec<u8>> = (0..3u8).map(patterned).collect();
    let mut lsn = 0;
    for round in 0..40u64 {
        let batch: Vec<(u64, RedoContentOrHash)> = (0..3u64)
            .map(|k| (round * 3 + k, RedoContentOrHash::Content(&blocks[k as usize][..])))
            .collect();
        lsn = db.write_redo(lsn, &batch).ok().unwrap();
    }
    assert_eq!(lsn, 120);
    let snap = db.snapshot(lsn);
    let mut svc = Service::new(&db, &snap);
    for pass in 0..2 {
        for b in 0..120u64 {
            svc.seek(b * L as u64 + 7);
            let got = svc.read(9).ok().unwrap();
            assert_eq!(got, blocks[(b % 3) as usize][7..16].to_vec(), "pass {} block {}", pass, b);
        }
    }
}

fn replay(db: &Database, lsn: u64, blkdev: bool) -> (Vec<u8>, Vec<String>) {
    let cmd = Replaycmd { output: String::from("out.img"), lsn, db: String::from("x.db") };
    let mut job = cmd.run(db, blkdev).ok().unwrap();
    let mut file: Vec<u8> = Vec::new();
    let mut pos: usize = 0;
    let mut trace = Vec::new();
    while let Some(step) = job.next_step() {
        match step {
            ReplayStep::Write(bytes) => {
                if file.len() < pos + bytes.len() {
                    file.resize(pos + bytes.len(), 0);
                }
                file[pos..pos + bytes.len()].copy_from_slice(&bytes);
                pos += bytes.len();
                trace.push(format!("write {}", bytes.len()));
            }
            ReplayStep::Skip(n) => {
                pos += n as usize;
                trace.push(format!("skip {}", n));
            }
            ReplayStep::TrailingZero => {
                pos -= 1;
                if file.len() < pos + 1 {
                    file.resize(pos + 1, 0);
                }
                file[pos] = 0;
                pos += 1;
                trace.push(String::from("trailing zero"));
            }
        }
    }
    assert!(job.next_step().is_none());
    (file, trace)
}

#[test]
fn replay_to_a_regular_file_leaves_holes() {
    let (db, image, size) = store();
    let (file, trace) = replay(&db, 2, false);
    assert_eq!(file.len() as u64, size);
    assert_eq!(file, image);
    assert_eq!(trace, vec!["write 262144", "skip 262144", "write 1000"]);
}

#[test]
fn replay_to_a_block_device_writes_zeros() {
    let (db, image, _) = store();
    let (file, trace) = replay(&db, 2, true);
    assert_eq!(file, image);
    assert_eq!(trace, vec!["write 262144", "write 262144", "write 1000"]);
}

#[test]
fn replay_ends_a_trailing_hole_with_a_zero() {
    let mut db = Database::new(String::from("id"));
    let a = patterned(1);
    assert_eq!(db.write_redo(0, &[(0u64, RedoContentOrHash::Content(&a))]).ok(), Some(1));
    db.add_consistent_point(1, (L + 10) as u64, 1);
    let (file, trace) = replay(&db, 1, false);
    let mut want = a.clone();
    want.extend(vec![0u8; 10]);
    assert_eq!(file, want);
    assert_eq!(trace, vec!["write 262144", "skip 10", "trailing zero"]);
    db.add_consistent_point(0, 0, 1);
    let (file, trace) = replay(&db, 0, false);
    assert!(file.is_empty());
    assert!(trace.is_empty());
}

#[test]
fn replay_writes_nothing_after_a_final_write() {
    let mut db = Database::new(String::from("id"));
    let a = patterned(1);
    let batch = vec![
        (0u64, RedoContentOrHash::Content(&a)),
        (1u64, RedoContentOrHash::Content(&a)),
    ];
    assert_eq!(db.write_redo(0, &batch).ok(), Some(2));
    db.add_consistent_point(2, (L + 5) as u64, 1);
    let (file, trace) = replay(&db, 2, false);
    assert_eq!(trace, vec!["write 262144", "write 5"]);
    assert_eq!(file.len(), L + 5);
    assert_eq!(&file[L..], &a[..5]);
    let (file, trace) = replay(&db, 2, true);
    assert_eq!(trace, vec!["write 262144", "write 5"]);
    assert_eq!(file.len(), L + 5);
}

#[test]
fn replay_needs_a_consistent_point() {
    let (db, _, _) = store();
    let cmd = Replaycmd { output: String::from("o"), lsn: 1, db: String::from("x.db") };
    assert!(matches!(cmd.run(&db, false), Err(ReplayError::Inconsistent)));
}

#[test]
fn reader_and_replay_agree() {
    let (db, image, size) = store();
    let snap = db.snapshot(2);
    let mut svc = Service::new(&db, &snap);
    let served = svc.read(size as usize).ok().unwrap();
    let (file, _) = replay(&db, 2, false);
    assert_eq!(served, file);
    assert_eq!(served, image);
}

#[test]
fn squash_is_refused_without_confirmation() {
    let (mut db, _, _) = store();
    let cmd = |start_lsn, end_lsn, data_loss| SquashCmd {
        start_lsn,
        end_lsn,
        data_loss,
        vacuum: true,
        db: String::from("x.db"),
    };
    assert_eq!(cmd(1, 2, true).run(&mut db), Err(SquashError::InconsistentStart));
    assert_eq!(cmd(0, 1, true).run(&mut db), Err(SquashError::InconsistentEnd));
    assert_eq!(cmd(0, 2, false).run(&mut db), Err(SquashError::DataLoss));
    assert_eq!(db.max_lsn(), 2);
    assert_eq!(cmd(0, 2, true).run(&mut db), Ok(()));
    assert_eq!(db.max_lsn(), 2);
    assert_eq!(db.list_consistent_point().len(), 1);
}

#[test]
fn list_gives_every_point() {
    let (mut db, _, size) = store();
    db.add_consistent_point(1, 5, 7);
    let cmd = Listcmd { db: String::from("x.db"), json: true };
    assert_eq!(
        cmd.run(&db),
        vec![
            OutputEntry { lsn: 1, created_at: 7, size: 5 },
            OutputEntry { lsn: 2, created_at: 42, size },
        ]
    );
}

#[test]
fn numbers_as_text() {
    assert_eq!(decimal(0), "0");
    assert_eq!(decimal(262144), "262144");
    assert_eq!(decimal(u64::MAX), "18446744073709551615");
    assert_eq!(parse_u64(b"0"), Some(0));
    assert_eq!(parse_u64(b"  42\n"), Some(42));
    assert_eq!(parse_u64(b"+7"), Some(7));
    assert_eq!(parse_u64(b"\t18446744073709551615\r\n"), Some(u64::MAX));
    assert_eq!(parse_u64(b"18446744073709551616"), None);
    assert_eq!(parse_u64(b""), None);
    assert_eq!(parse_u64(b"   "), None);
    assert_eq!(parse_u64(b"+"), None);
    assert_eq!(parse_u64(b"-1"), None);
    assert_eq!(parse_u64(b"1 2"), None);
    assert_eq!(parse_u64(b"12a"), None);
    assert_eq!(parse_u64(b"++1"), None);
    assert_eq!(format_lcn(0), "00000000");
    assert_eq!(format_lcn(42), "00000042");
    assert_eq!(format_lcn(99999999), "99999999");
}

#[test]
fn commands_are_escaped() {
    assert_eq!(make_uname_command(), "uname -m; uname -s");
    assert_eq!(make_helper_name("id", "ab12"), "transmit.id.ab12");
    assert_eq!(make_upload_path("/home/u/.bsync", "transmit.id.ab12"), "/home/u/.bsync/transmit.id.ab12");
    assert_eq!(
        make_size_command("/dev/sda1"),
        "blockdev --getsize64 /dev/sda1 || stat -c \"%s\" /dev/sda1"
    );
    assert_eq!(
        make_size_command("it's"),
        "blockdev --getsize64 'it'\\''s' || stat -c \"%s\" 'it'\\''s'"
    );
    assert_eq!(make_size_command(""), "blockdev --getsize64 '' || stat -c \"%s\" ''");
    assert_eq!(
        make_hash_command("t.x", "/img", 4294967296, 16384),
        "~/.bsync/t.x /img 262144 hash 4294967296 16384"
    );
    assert_eq!(
        make_dump_command("t x", "/img!", &vec![0, 262144, 1048576]),
        "~/.bsync/'t x' '/img'\\!'' 262144 dump 0,262144,1048576"
    );
    assert_eq!(make_dump_command("t", "/i", &vec![5]), "~/.bsync/t /i 262144 dump 5");
    assert!(make_install_probe("a b", "c").contains("echo c ~/.bsync/'a b' | sha256sum -c -"));
}

#[test]
fn remote_output_is_classified() {
    let out = |stdout: &[u8], exit_status, signal: Option<&str>| ExecOutcome {
        stdout: stdout.to_vec(),
        exit_status,
        exit_signal: signal.map(String::from),
    };
    assert_eq!(exec_oneshot_bin_in(out(b"abc", 0, None), StreamDecoder::Raw), Ok(b"abc".to_vec()));
    assert_eq!(
        exec_oneshot_bin_in(out(b"abc", 2, None), StreamDecoder::Raw),
        Err(ExecError::RemoteError(2))
    );
    assert_eq!(
        exec_oneshot_bin_in(out(b"abc", 2, Some("TERM")), StreamDecoder::Raw),
        Err(ExecError::RemoteError(1))
    );
    assert_eq!(
        exec_oneshot_bin_in(out(b"abc", 0, None), StreamDecoder::Snappy),
        Err(ExecError::Decode)
    );
    assert_eq!(exec_oneshot_bin_in(out(b"", 5, None), StreamDecoder::Snappy), Err(ExecError::RemoteError(5)));
    assert_eq!(exec_oneshot_in(out("gr\u{fc}n".as_bytes(), 0, None)), Ok(String::from("gr\u{fc}n")));
    assert_eq!(exec_oneshot_in(out(&[0xc3], 0, None)), Err(ExecError::InvalidUtf8));
    assert_eq!(exec_oneshot_in(out(&[0xc3], 4, None)), Err(ExecError::RemoteError(4)));
}

#[test]
fn helper_hashes_and_dumps() {
    let mut image = vec![1u8; 8];
    image.extend(vec![2u8; 8]);
    image.extend(vec![3u8; 3]);
    let h = |data: &[u8]| -> Vec<u8> { blake3::hash(data).as_bytes().to_vec() };
    let mut want = h(&[1u8; 8]);
    want.extend(h(&[2u8; 8]));
    want.extend(h(&[3, 3, 3, 0, 0, 0, 0, 0]));
    assert_eq!(transmit::hash(&image, 8, 0, 3), want);
    assert_eq!(transmit::hash(&image, 8, 16, 1), h(&[3, 3, 3, 0, 0, 0, 0, 0]));
    assert_eq!(transmit::hash(&image, 8, 0, 0), Vec::<u8>::new());
    let mut beyond = want.clone();
    beyond.extend(h(&[0u8; 8]));
    beyond.extend(h(&[0u8; 8]));
    assert_eq!(transmit::hash(&image, 8, 0, 5), beyond);
    assert_eq!(transmit::hash(&image, 8, 0, 5).len(), 5 * 32);
    let mut past = h(&[0u8; 8]);
    past.extend(h(&[0u8; 8]));
    assert_eq!(transmit::hash(&image, 8, 24, 2), past);
    assert_eq!(
        transmit::dump(&image, 8, &[16, 0]),
        vec![3, 3, 3, 0, 0, 0, 0, 0, 1, 1, 1, 1, 1, 1, 1, 1]
    );
    assert_eq!(transmit::dump(&image, 8, &[]), Vec::<u8>::new());
    assert_eq!(transmit::dump(&image, 8, &[19, 8]), vec![0, 0, 0, 0, 0, 0, 0, 0, 2, 2, 2, 2, 2, 2, 2, 2]);
    assert_eq!(transmit::dump(&image, 8, &[usize::MAX]), vec![0u8; 8]);
    assert_eq!(transmit::parse_offsets(b"0,262144,524288"), Some(vec![0, 262144, 524288]));
    assert_eq!(transmit::parse_offsets(b"7"), Some(vec![7]));
    assert_eq!(transmit::parse_offsets(b""), None);
    assert_eq!(transmit::parse_offsets(b"1,"), None);
    assert_eq!(transmit::parse_offsets(b",1"), None);
    assert_eq!(transmit::parse_offsets(b"1,,2"), None);
    assert_eq!(transmit::parse_offsets(b"1, 2"), None);
    assert_eq!(transmit::parse_offsets(b"1,x"), None);
    assert_eq!(transmit::parse_offsets(b"18446744073709551616"), None);
}

#[test]
fn buffered_writes_land_in_order() {
    let mut w = BufferWriter::new(vec![0u8; 8]);
    w.push(1, vec![1, 1, 1]);
    w.push(3, vec![2, 2]);
    assert_eq!(w.len(), 2);
    assert_eq!(w.as_slice(), &[0u8; 8]);
    w.flush();
    assert_eq!(w.len(), 0);
    assert_eq!(w.as_slice(), &[0, 1, 1, 2, 2, 0, 0, 0]);
    w.push(7, vec![9]);
    w.flush();
    assert_eq!(w.into_inner(), vec![0, 1, 1, 2, 2, 0, 0, 9]);
}

#[test]
fn travel_picks_the_chunk() {
    let cmd = |direction, image_lcn| TravelCmd { direction, config: String::from("c"), image_lcn };
    assert_eq!(cmd(TravelDirection::Forward, None).run(&vec![]), Err(TravelError::NoLcn));
    assert_eq!(
        cmd(TravelDirection::Forward, None).run(&vec![4]),
        Ok(TravelStart { lcn: 4, forward: true })
    );
    assert_eq!(
        cmd(TravelDirection::Backward, Some(9)).run(&vec![4]),
        Ok(TravelStart { lcn: 4, forward: false })
    );
    assert_eq!(cmd(TravelDirection::Backward, None).run(&vec![4, 5]), Err(TravelError::Ambiguous));
    assert_eq!(cmd(TravelDirection::Backward, Some(6)).run(&vec![4, 5]), Err(TravelError::Ambiguous));
    assert_eq!(
        cmd(TravelDirection::Backward, Some(5)).run(&vec![4, 5]),
        Ok(TravelStart { lcn: 5, forward: false })
    );
}
