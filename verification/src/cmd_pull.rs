//! The pull: one incremental update of the store from a remote image,
//! driven by the answers of the remote host.

use vstd::prelude::*;
use vstd::slice::slice_subrange;
use vstd::string::*;
use vstd::utf8::{decode_utf8, valid_utf8};
use crate::blob::{bytes_are, helper_arch, helper_for, HelperArch};
use crate::config::{BackupConfig, HostVerification, LOG_BLOCK_SIZE};
use crate::db::{items_of, write_certain, write_failure, Database, DbError, RedoContentOrHash, Snapshot};
use crate::digest::{
    blake3_digest, hash_eq, hash_from_slice, hex_encode, hex_text, sha256_digest, sha256hash,
    slice_is_hash,
};
use crate::model::{
    complete, contents_fit, fits, has_point, hash_or_zero,
    image_block, lemma_committed_max, lemma_with_point_has, max_lsn, with_point, ConsistentPoint,
    RedoItem, StoreState,
};
use crate::plan::{
    batch_items, block_count, changed, diff_plan, faithful, fetch_count, fetch_offsets,
    item_matches, items_match, lemma_commit_concat,
    lemma_plan_prefix, lemma_pull_converges, record_for, seen_before, FetchRecord,
};
use crate::remote::{
    dump_command, exec_oneshot_bin_in, exec_oneshot_in, hash_command, helper_name, install_probe,
    make_dump_command, make_hash_command, make_helper_name, make_install_probe, make_size_command,
    make_uname_command, make_upload_path, outcome_data, outcome_text, size_command,
    string_from_utf8, uname_command, upload_path, ExecError, ExecOutcome, StreamDecoder,
};
use crate::text::{decimal_text, parse_u64, parsed_u64, push_decimal};

verus! {

broadcast use {vstd::utf8::decode_utf8_encode_utf8, vstd::array::array_len_matches_n};

/// Blocks whose digests are asked for in one remote call.
pub const DIFF_BATCH_SIZE: usize = 16384;

/// Records that are committed together, and at most as many blocks fetched
/// in one remote call.
pub const DATA_FETCH_BATCH_SIZE: usize = 256;

/// Incrementally pull updates from a remote image.
pub struct Pullcmd {
    /// Path to the config.
    pub config: String,
}

/// One block that differs from the local snapshot, by its offset: to be
/// fetched, or taken to be stored under the digest the remote announced.
#[derive(Clone, Copy)]
pub enum FetchOrAssumeExist {
    Fetch(u64),
    AssumeExistWithHash(u64, [u8; 32]),
}

impl View for FetchOrAssumeExist {
    type V = FetchRecord;

    open spec fn view(&self) -> FetchRecord {
        match self {
            FetchOrAssumeExist::Fetch(o) => FetchRecord::Fetch(*o),
            FetchOrAssumeExist::AssumeExistWithHash(o, h) => FetchRecord::AssumeExist(*o, h@),
        }
    }
}

/// What each record of a list stands for.
pub open spec fn records_of(list: Seq<FetchOrAssumeExist>) -> Seq<FetchRecord> {
    Seq::new(list.len(), |i: int| list[i]@)
}

/// Why a pull ended early.
pub enum PullError {
    /// Scripts are configured and no pull lock is, without the lock being waived.
    PullLockRequired,
    /// The remote host showed no key.
    NoHostKey,
    /// The remote host is not among the known hosts.
    HostKeyNotFound,
    /// The remote host shows another key than the known one.
    HostKeyMismatch,
    /// The known hosts could not be checked.
    HostKeyUnknown,
    /// Verification by DNSSEC is asked for, and there is none.
    DnssecNotImplemented,
    /// The remote system is not Linux: its name.
    OsNotSupported(Vec<u8>),
    /// There is no helper for the remote machine: its name.
    ArchNotSupported(Vec<u8>),
    /// A remote command failed or its output could not be read.
    Exec(ExecError),
    /// The remote did not print the size of the image as a number.
    BadImageSize,
    /// The image became smaller: size at the last consistent point, size now.
    ImageShrunk(u64, u64),
    /// The remote sent another number of bytes than asked for: expected, got.
    ByteCountMismatch(usize, usize),
    /// The store refused the commit.
    Db(DbError),
    /// The pull is not waiting for this.
    OutOfTurn,
}

/// A name as text: what it encodes, or its bytes in hexadecimal where it
/// encodes nothing.
pub open spec fn name_text(name: Seq<u8>) -> Seq<char> {
    if valid_utf8(name) {
        decode_utf8(name)
    } else {
        hex_text(name)
    }
}

fn push_name(s: &mut String, name: &Vec<u8>)
    ensures
        final(s)@ == old(s)@ + name_text(name@),
{
    match string_from_utf8(name.clone()) {
        Some(text) => s.append(text.as_str()),
        None => {
            let text = hex_encode(name.as_slice());
            s.append(text.as_str());
        },
    }
}

impl PullError {
    /// What the error says.
    pub open spec fn text(self) -> Seq<char> {
        match self {
            PullError::PullLockRequired => "`remote.scripts` requested but `local.pull_lock` is not set. If this is really the intended config, set `remote.scripts.no_pull_lock` to `true`."@,
            PullError::NoHostKey => "no host key"@,
            PullError::HostKeyNotFound => "host key verification error: not found - please connect to the remote host once"@,
            PullError::HostKeyMismatch => "host key verification error: mismatch - possible mitm"@,
            PullError::HostKeyUnknown => "host key verification error: unknown"@,
            PullError::DnssecNotImplemented => "host key verification error: dnssec not yet implemented"@,
            PullError::OsNotSupported(name) => "remote os not supported: "@ + name_text(name@),
            PullError::ArchNotSupported(name) => "remote architecture not supported: "@ + name_text(
                name@,
            ),
            PullError::Exec(e) => e.text(),
            PullError::BadImageSize => "the remote did not print the size of the image"@,
            PullError::ImageShrunk(recorded, now) => "detected shrink in remote image from "@
                + decimal_text(recorded as nat) + " to "@ + decimal_text(now as nat) + " bytes"@,
            PullError::ByteCountMismatch(expected, got) => "expecting "@ + decimal_text(expected as nat)
                + " bytes from remote, got "@ + decimal_text(got as nat),
            PullError::Db(e) => e.text(),
            PullError::OutOfTurn => "the pull is not waiting for this"@,
        }
    }

    pub fn message(&self) -> (r: String)
        ensures
            r@ == self.text(),
    {
        match self {
            PullError::PullLockRequired => String::from_str(
                "`remote.scripts` requested but `local.pull_lock` is not set. If this is really the intended config, set `remote.scripts.no_pull_lock` to `true`.",
            ),
            PullError::NoHostKey => String::from_str("no host key"),
            PullError::HostKeyNotFound => String::from_str(
                "host key verification error: not found - please connect to the remote host once",
            ),
            PullError::HostKeyMismatch => String::from_str(
                "host key verification error: mismatch - possible mitm",
            ),
            PullError::HostKeyUnknown => String::from_str("host key verification error: unknown"),
            PullError::DnssecNotImplemented => String::from_str(
                "host key verification error: dnssec not yet implemented",
            ),
            PullError::OsNotSupported(name) => {
                let mut s = String::from_str("remote os not supported: ");
                push_name(&mut s, name);
                s
            },
            PullError::ArchNotSupported(name) => {
                let mut s = String::from_str("remote architecture not supported: ");
                push_name(&mut s, name);
                s
            },
            PullError::Exec(e) => e.message(),
            PullError::BadImageSize => String::from_str("the remote did not print the size of the image"),
            PullError::ImageShrunk(recorded, now) => {
                let mut s = String::from_str("detected shrink in remote image from ");
                push_decimal(&mut s, *recorded);
                s.append(" to ");
                push_decimal(&mut s, *now);
                s.append(" bytes");
                s
            },
            PullError::ByteCountMismatch(expected, got) => {
                let mut s = String::from_str("expecting ");
                push_decimal(&mut s, *expected as u64);
                s.append(" bytes from remote, got ");
                push_decimal(&mut s, *got as u64);
                s
            },
            PullError::Db(e) => e.message(),
            PullError::OutOfTurn => String::from_str("the pull is not waiting for this"),
        }
    }
}

/// What the check of a host key against the known hosts found.
#[derive(Clone, Copy, Debug, PartialEq, Eq, Structural)]
pub enum HostKeyCheck {
    Match,
    NotFound,
    Mismatch,
    Failure,
}

/// What the policy makes of a host key: whether it has to be checked
/// against the known hosts.
pub open spec fn policy_verdict(policy: HostVerification, has_key: bool) -> Result<bool, PullError> {
    if !has_key {
        Err(PullError::NoHostKey)
    } else {
        match policy {
            HostVerification::Insecure => Ok(false),
            HostVerification::Known => Ok(true),
            HostVerification::Dnssec => Err(PullError::DnssecNotImplemented),
        }
    }
}

/// Decides from the policy whether the key that the host showed has to be
/// checked against the known hosts. A host without key is refused whatever
/// the policy.
pub fn host_key_policy(policy: HostVerification, has_key: bool) -> (r: Result<bool, PullError>)
    ensures
        r == policy_verdict(policy, has_key),
{
    if !has_key {
        return Err(PullError::NoHostKey);
    }
    match policy {
        HostVerification::Insecure => Ok(false),
        HostVerification::Known => Ok(true),
        HostVerification::Dnssec => Err(PullError::DnssecNotImplemented),
    }
}

pub open spec fn check_verdict(check: HostKeyCheck) -> Result<(), PullError> {
    match check {
        HostKeyCheck::Match => Ok(()),
        HostKeyCheck::NotFound => Err(PullError::HostKeyNotFound),
        HostKeyCheck::Mismatch => Err(PullError::HostKeyMismatch),
        HostKeyCheck::Failure => Err(PullError::HostKeyUnknown),
    }
}

/// Accepts a host whose key matches the known one and refuses every other.
pub fn known_host_verdict(check: HostKeyCheck) -> (r: Result<(), PullError>)
    ensures
        r == check_verdict(check),
{
    match check {
        HostKeyCheck::Match => Ok(()),
        HostKeyCheck::NotFound => Err(PullError::HostKeyNotFound),
        HostKeyCheck::Mismatch => Err(PullError::HostKeyMismatch),
        HostKeyCheck::Failure => Err(PullError::HostKeyUnknown),
    }
}

/// Where the line that begins at `from` ends.
pub open spec fn line_end(s: Seq<u8>, from: int) -> int
    decreases s.len() - from,
{
    if from < 0 || from >= s.len() {
        s.len() as int
    } else if s[from] == 10 {
        from
    } else {
        line_end(s, from + 1)
    }
}

pub open spec fn first_line(s: Seq<u8>) -> Seq<u8> {
    s.subrange(0, line_end(s, 0))
}

/// The second line, empty if there is none.
pub open spec fn second_line(s: Seq<u8>) -> Seq<u8> {
    let e = line_end(s, 0);
    if e >= s.len() {
        Seq::empty()
    } else {
        s.subrange(e + 1, line_end(s, e + 1))
    }
}

/// The name of the system a helper exists for.
pub open spec fn linux() -> Seq<u8> {
    seq![76u8, 105, 110, 117, 120]
}

proof fn lemma_line_end(s: Seq<u8>, from: int)
    requires
        0 <= from <= s.len(),
    ensures
        from <= line_end(s, from) <= s.len(),
    decreases s.len() - from,
{
    if from < s.len() && s[from] != 10 {
        lemma_line_end(s, from + 1);
    }
}

fn line_break(s: &[u8], from: usize) -> (r: usize)
    requires
        from <= s@.len(),
    ensures
        r == line_end(s@, from as int),
        from <= r <= s@.len(),
{
    let mut i: usize = from;
    while i < s.len() && s[i] != 10
        invariant
            from <= i <= s@.len(),
            line_end(s@, i as int) == line_end(s@, from as int),
        decreases s.len() - i,
    {
        i += 1;
    }
    i
}

/// The machine and the system that `uname -m; uname -s` printed.
pub fn split_uname(text: &[u8]) -> (r: (&[u8], &[u8]))
    ensures
        r.0@ == first_line(text@),
        r.1@ == second_line(text@),
{
    let e = line_break(text, 0);
    let machine = slice_subrange(text, 0, e);
    if e >= text.len() {
        let system = slice_subrange(text, e, e);
        assert(system@ =~= Seq::<u8>::empty());
        (machine, system)
    } else {
        let e2 = line_break(text, e + 1);
        (machine, slice_subrange(text, e + 1, e2))
    }
}

/// The number of blocks of an image.
pub fn blocks_in(size: u64) -> (r: u64)
    ensures
        r == block_count(size),
        r * LOG_BLOCK_SIZE <= u64::MAX + LOG_BLOCK_SIZE,
        size > 0 ==> (r - 1) * LOG_BLOCK_SIZE < size,
{
    if size == 0 {
        0
    } else {
        let q = (size - 1) / (LOG_BLOCK_SIZE as u64);
        proof {
            let v = (size - 1) as int;
            let a = LOG_BLOCK_SIZE as int;
            assert(v == a * (v / a) + v % a && 0 <= v % a) by (nonlinear_arith)
                requires
                    a > 0,
                    v >= 0,
            ;
            assert((v / a) * a == a * (v / a)) by (nonlinear_arith);
            assert((v / a + 1) * a == (v / a) * a + a) by (nonlinear_arith);
        }
        q + 1
    }
}

/// Where a pull stands.
#[derive(Clone, Copy, Debug, PartialEq, Eq, Structural)]
pub enum PullPhase {
    /// Waiting for the names of the remote machine and system.
    Uname,
    /// Waiting to learn whether the helper is installed.
    InstallProbe,
    /// Waiting for the helper to be installed.
    Upload,
    /// Waiting for the script that runs before the pull.
    PrePull,
    /// Waiting for the size of the image.
    ImageSize,
    /// Waiting for the digests of a batch of blocks.
    Diff,
    /// Ready to commit the next batch of records, or to finish.
    Commit,
    /// Waiting for the blocks of a batch.
    Blocks,
    /// Waiting for the script that runs after the pull.
    PostPull,
    /// Finished.
    Done,
}

/// What the pull needs next.
pub enum PullAction {
    /// Run the command on the remote host and hand back what it printed.
    Exec { command: String, decoder: StreamDecoder },
    /// Install the helper for `arch` at `path`, executable.
    Upload { path: String, arch: HelperArch },
    /// Nothing from outside: go on.
    Continue,
    /// The pull is complete, the log stands at `lsn`.
    Done { lsn: u64, fetched_blocks: u64, reused_blocks: u64 },
}

/// Whether a result asks for a command to be run.
pub open spec fn asks(r: Result<PullAction, PullError>, text: Seq<char>, wrapped: StreamDecoder) -> bool {
    match r {
        Ok(PullAction::Exec { command, decoder }) => command@ == text && decoder == wrapped,
        _ => false,
    }
}

/// Whether a result reports a failed remote command.
pub open spec fn fails_with(r: Result<PullAction, PullError>, e: ExecError) -> bool {
    match r {
        Err(PullError::Exec(x)) => x == e,
        _ => false,
    }
}

/// Whether a result reports an image that became smaller.
pub open spec fn shrunk(r: Result<PullAction, PullError>, recorded: u64, now: u64) -> bool {
    match r {
        Err(PullError::ImageShrunk(a, b)) => a == recorded && b == now,
        _ => false,
    }
}

/// Whether a result reports another number of bytes than asked for.
pub open spec fn miscounted(r: Result<PullAction, PullError>, expected: int, got: int) -> bool {
    match r {
        Err(PullError::ByteCountMismatch(a, b)) => a == expected && b == got,
        _ => false,
    }
}

/// A pull in progress.
pub struct PullState {
    pub phase: PullPhase,
    /// The store.
    pub db: StoreState,
    pub instance_id: Seq<char>,
    /// The remote path of the image.
    pub image: Seq<char>,
    pub pre_pull: Option<Seq<char>>,
    pub post_pull: Option<Seq<char>>,
    pub x86_64_helper: Seq<u8>,
    pub aarch64_helper: Seq<u8>,
    /// The file name of the helper on the remote host.
    pub helper: Seq<char>,
    pub arch: Option<HelperArch>,
    pub remote_size: u64,
    /// The store as it was when the diff began.
    pub base: StoreState,
    /// The snapshot of `base` at its largest LSN.
    pub snapshot: Map<u64, Seq<u8>>,
    /// The digests that the remote announced, block by block.
    pub hashes: Seq<Seq<u8>>,
    /// What was decided for the blocks announced so far.
    pub plan: Seq<FetchRecord>,
    /// How many records of the plan are committed.
    pub committed: nat,
    /// What was committed for them.
    pub items: Seq<RedoItem>,
    pub fetched_blocks: u64,
    pub reused_blocks: u64,
}

impl PullState {
    /// Whether the diff has begun.
    pub open spec fn pulling(self) -> bool {
        !(self.phase is Uname || self.phase is InstallProbe || self.phase is Upload || self.phase is PrePull
            || self.phase is ImageSize)
    }

    /// What holds of a pull from the beginning of the diff on: the plan is
    /// what the announced digests decide against the snapshot, and the
    /// store is the one the diff began with plus what was committed.
    pub open spec fn grounded(self) -> bool {
        &&& self.base.wf()
        &&& self.snapshot == self.base.snapshot(max_lsn(self.base.redo))
        &&& self.hashes.len() <= block_count(self.remote_size)
        &&& self.plan == diff_plan(
            self.snapshot,
            self.base.cas.dom(),
            self.hashes,
            self.hashes.len() as int,
        )
        &&& self.committed <= self.plan.len()
        &&& items_match(self.plan.take(self.committed as int), self.items)
        &&& max_lsn(self.base.redo) + self.items.len() <= u64::MAX
        &&& self.db.cas == self.base.committed(self.items).cas
        &&& self.db.redo == self.base.committed(self.items).redo
        &&& self.fetched_blocks + self.reused_blocks == self.committed
    }

    /// What holds of a pull in each of its phases.
    pub open spec fn staged(self) -> bool {
        &&& (self.phase is Diff ==> self.committed == 0 && self.hashes.len() < block_count(
            self.remote_size,
        ))
        &&& (!(self.phase is Diff) ==> self.hashes.len() == block_count(self.remote_size))
        &&& (self.phase is Blocks ==> self.committed < self.plan.len() && fetch_count(self.next_chunk())
            > 0)
        &&& (self.phase is PostPull || self.phase is Done ==> self.committed == self.plan.len()
            && has_point(self.db.points, max_lsn(self.db.redo)))
        &&& (!(self.phase is PostPull || self.phase is Done) ==> self.db.points == self.base.points)
    }

    /// The invariants of a pull.
    pub open spec fn wf(self) -> bool {
        &&& self.db.wf()
        &&& self.pulling() ==> self.grounded() && self.staged()
    }

    /// Once every record is committed, each block fetched with the digest
    /// that the remote had announced for it, the snapshot at the largest LSN
    /// records for every block of the image the digest that the remote
    /// announced, and every block reads with that digest.
    pub proof fn lemma_complete(self, b: int)
        requires
            self.wf(),
            self.pulling(),
            self.committed == self.plan.len(),
            faithful(self.plan, self.hashes, self.items),
            0 <= b < self.hashes.len(),
        ensures
            hash_or_zero(self.db.snapshot(max_lsn(self.db.redo)), b as u64) == self.hashes[b],
            blake3_digest(
                image_block(self.db.cas, self.db.snapshot(max_lsn(self.db.redo)), b as u64),
            ) == self.hashes[b],
    {
        let n = block_count(self.remote_size);
        assert(n * LOG_BLOCK_SIZE <= u64::MAX + LOG_BLOCK_SIZE) by {
            if self.remote_size > 0 {
                let v = (self.remote_size - 1) as int;
                let a = LOG_BLOCK_SIZE as int;
                assert(v == a * (v / a) + v % a && 0 <= v % a) by (nonlinear_arith)
                    requires
                        a > 0,
                        v >= 0,
                ;
                assert((v / a + 1) * a == a * (v / a) + a) by (nonlinear_arith);
            }
        }
        assert(self.hashes.len() * LOG_BLOCK_SIZE <= n * LOG_BLOCK_SIZE) by (nonlinear_arith)
            requires
                0 <= self.hashes.len() <= n,
        ;
        assert(self.plan.take(self.committed as int) =~= self.plan);
        lemma_pull_converges(self.base, self.hashes, self.items, b);
    }

    /// The number of blocks whose digests the next remote call asks for.
    pub open spec fn diff_count(self) -> int {
        let left = block_count(self.remote_size) - self.hashes.len();
        if left > DIFF_BATCH_SIZE {
            DIFF_BATCH_SIZE as int
        } else {
            left
        }
    }

    /// The records that are committed next.
    pub open spec fn next_chunk(self) -> Seq<FetchRecord> {
        let left = self.plan.len() - self.committed;
        let n = if left > DATA_FETCH_BATCH_SIZE {
            DATA_FETCH_BATCH_SIZE as int
        } else {
            left
        };
        self.plan.subrange(self.committed as int, self.committed + n)
    }

    /// The command that asks for the next batch of digests.
    pub open spec fn next_hash_command(self) -> Seq<char> {
        hash_command(
            self.helper,
            self.image,
            (self.hashes.len() * LOG_BLOCK_SIZE) as u64,
            self.diff_count() as u64,
        )
    }

    /// What follows the installation of the helper: the script that runs
    /// before the pull if there is one, the question for the size if not.
    pub open spec fn after_install(self, post: PullState, r: Result<PullAction, PullError>) -> bool {
        match self.pre_pull {
            Some(script) => post == PullState { phase: PullPhase::PrePull, ..self } && asks(
                r,
                script,
                StreamDecoder::Raw,
            ),
            None => post == PullState { phase: PullPhase::ImageSize, ..self } && asks(
                r,
                size_command(self.image),
                StreamDecoder::Raw,
            ),
        }
    }

    /// What follows the diff of a batch: the next batch, or the commits.
    pub open spec fn after_diff(self, r: Result<PullAction, PullError>) -> bool {
        if self.hashes.len() < block_count(self.remote_size) {
            self.phase is Diff && asks(r, self.next_hash_command(), StreamDecoder::Raw)
        } else {
            self.phase is Commit && r matches Ok(PullAction::Continue)
        }
    }

    /// The names of machine and system arrive: a system other than Linux
    /// and a machine without helper end the pull; otherwise the helper gets
    /// its name and the remote is asked whether it is installed.
    pub open spec fn uname_step(
        self,
        stdout: Seq<u8>,
        exit_status: i32,
        signalled: bool,
        post: PullState,
        r: Result<PullAction, PullError>,
    ) -> bool {
        match outcome_text(stdout, exit_status, signalled) {
            Err(e) => post == self && fails_with(r, e),
            Ok(_) => if second_line(stdout) != linux() {
                post == self && (match r {
                    Err(PullError::OsNotSupported(name)) => name@ == second_line(stdout),
                    _ => false,
                })
            } else {
                match helper_for(first_line(stdout)) {
                    None => post == self && (match r {
                        Err(PullError::ArchNotSupported(name)) => name@ == first_line(stdout),
                        _ => false,
                    }),
                    Some(arch) => {
                        let image = match arch {
                            HelperArch::X86_64 => self.x86_64_helper,
                            HelperArch::Aarch64 => self.aarch64_helper,
                        };
                        let digest = hex_text(sha256_digest(image));
                        let name = helper_name(self.instance_id, digest);
                        &&& post == PullState {
                            phase: PullPhase::InstallProbe,
                            arch: Some(arch),
                            helper: name,
                            ..self
                        }
                        &&& asks(r, install_probe(name, digest), StreamDecoder::Raw)
                    },
                }
            },
        }
    }

    /// The answer of the installation probe arrives: a directory means that
    /// the helper has to be installed there, nothing that it is in place.
    pub open spec fn probe_step(
        self,
        stdout: Seq<u8>,
        exit_status: i32,
        signalled: bool,
        post: PullState,
        r: Result<PullAction, PullError>,
    ) -> bool {
        match outcome_text(stdout, exit_status, signalled) {
            Err(e) => post == self && fails_with(r, e),
            Ok(directory) => if directory.len() == 0 {
                self.after_install(post, r)
            } else {
                &&& post == PullState { phase: PullPhase::Upload, ..self }
                &&& self.arch is Some
                &&& match r {
                    Ok(PullAction::Upload { path, arch }) => path@ == upload_path(directory, self.helper)
                        && arch == self.arch.unwrap(),
                    _ => false,
                }
            },
        }
    }

    /// The size of the image arrives. Text that is no number ends the pull,
    /// and so does a size below that of the last consistent point. Otherwise
    /// the diff begins against the snapshot at the largest LSN.
    pub open spec fn size_step(
        self,
        stdout: Seq<u8>,
        exit_status: i32,
        signalled: bool,
        post: PullState,
        r: Result<PullAction, PullError>,
    ) -> bool {
        match outcome_text(stdout, exit_status, signalled) {
            Err(e) => post == self && fails_with(r, e),
            Ok(_) => match parsed_u64(stdout) {
                None => post == self && r matches Err(PullError::BadImageSize),
                Some(size) => if self.db.points.len() > 0 && size < self.db.points.last().size {
                    post == self && shrunk(r, self.db.points.last().size, size)
                } else {
                    &&& post == PullState {
                        phase: post.phase,
                        remote_size: size,
                        base: self.db,
                        snapshot: self.db.snapshot(max_lsn(self.db.redo)),
                        hashes: Seq::empty(),
                        plan: Seq::empty(),
                        committed: 0,
                        items: Seq::empty(),
                        fetched_blocks: 0,
                        reused_blocks: 0,
                        ..self
                    }
                    &&& post.after_diff(r)
                },
            },
        }
    }

    /// The digests of a batch of blocks arrive: another number of bytes
    /// than 32 per block ends the pull; otherwise each block that changed
    /// gets its record.
    pub open spec fn diff_step(
        self,
        stdout: Seq<u8>,
        exit_status: i32,
        signalled: bool,
        post: PullState,
        r: Result<PullAction, PullError>,
    ) -> bool {
        match outcome_data(stdout, exit_status, signalled, StreamDecoder::Raw) {
            Err(e) => post == self && fails_with(r, e),
            Ok(data) => if data.len() != self.diff_count() * 32 {
                post == self && miscounted(r, self.diff_count() * 32, data.len() as int)
            } else {
                let hashes = self.hashes + digests_in(data, self.diff_count());
                &&& post == PullState {
                    phase: post.phase,
                    hashes: hashes,
                    plan: diff_plan(self.snapshot, self.base.cas.dom(), hashes, hashes.len() as int),
                    ..self
                }
                &&& post.after_diff(r)
            },
        }
    }

    /// A batch of records is committed, given the blocks fetched for it:
    /// the store takes all of them, or refuses where an item cannot be
    /// committed.
    pub open spec fn commit_step(self, output: Seq<u8>, post: PullState, r: Result<PullAction, PullError>) -> bool {
        let chunk = self.next_chunk();
        let items = batch_items(chunk, output);
        let lsn = max_lsn(self.db.redo);
        &&& match r {
            Ok(PullAction::Continue) => {
                &&& complete(self.db.cas, items)
                &&& post == PullState {
                    phase: PullPhase::Commit,
                    db: self.db.committed(items),
                    committed: self.committed + chunk.len(),
                    items: self.items + items,
                    fetched_blocks: (self.fetched_blocks + fetch_count(chunk)) as u64,
                    reused_blocks: (self.reused_blocks + chunk.len() - fetch_count(chunk)) as u64,
                    ..self
                }
            },
            Err(PullError::Db(e)) => post == self && write_failure(self.db, lsn, items, e),
            _ => false,
        }
        &&& r is Ok <==> write_certain(self.db, lsn, items)
    }

    /// The blocks of a batch arrive: another number of bytes than one block
    /// per fetch ends the pull; otherwise the batch is committed.
    pub open spec fn blocks_step(
        self,
        stdout: Seq<u8>,
        exit_status: i32,
        signalled: bool,
        post: PullState,
        r: Result<PullAction, PullError>,
    ) -> bool {
        match outcome_data(stdout, exit_status, signalled, StreamDecoder::Snappy) {
            Err(e) => post == self && fails_with(r, e),
            Ok(data) => {
                let wanted = fetch_count(self.next_chunk()) * LOG_BLOCK_SIZE;
                if data.len() != wanted {
                    post == self && miscounted(r, wanted as int, data.len() as int)
                } else {
                    self.commit_step(data, post, r)
                }
            },
        }
    }

    /// A script has run: after the one before the pull the size is asked
    /// for, after the one that follows it the pull is done.
    pub open spec fn script_step(
        self,
        stdout: Seq<u8>,
        exit_status: i32,
        signalled: bool,
        post: PullState,
        r: Result<PullAction, PullError>,
    ) -> bool {
        match outcome_text(stdout, exit_status, signalled) {
            Err(e) => post == self && fails_with(r, e),
            Ok(_) => if self.phase is PrePull {
                post == PullState { phase: PullPhase::ImageSize, ..self } && asks(
                    r,
                    size_command(self.image),
                    StreamDecoder::Raw,
                )
            } else {
                post == PullState { phase: PullPhase::Done, ..self } && self.done(r)
            },
        }
    }

    /// Whether a result reports this pull as complete.
    pub open spec fn done(self, r: Result<PullAction, PullError>) -> bool {
        match r {
            Ok(PullAction::Done { lsn, fetched_blocks, reused_blocks }) => lsn == max_lsn(self.db.redo)
                && fetched_blocks == self.fetched_blocks && reused_blocks == self.reused_blocks,
            _ => false,
        }
    }

    /// What an answer of the remote host leads to.
    pub open spec fn output_step(
        self,
        stdout: Seq<u8>,
        exit_status: i32,
        signalled: bool,
        post: PullState,
        r: Result<PullAction, PullError>,
    ) -> bool {
        match self.phase {
            PullPhase::Uname => self.uname_step(stdout, exit_status, signalled, post, r),
            PullPhase::InstallProbe => self.probe_step(stdout, exit_status, signalled, post, r),
            PullPhase::PrePull => self.script_step(stdout, exit_status, signalled, post, r),
            PullPhase::ImageSize => self.size_step(stdout, exit_status, signalled, post, r),
            PullPhase::Diff => self.diff_step(stdout, exit_status, signalled, post, r),
            PullPhase::Blocks => self.blocks_step(stdout, exit_status, signalled, post, r),
            PullPhase::PostPull => self.script_step(stdout, exit_status, signalled, post, r),
            _ => post == self && r matches Err(PullError::OutOfTurn),
        }
    }

    /// What going on leads to: with records left, their blocks are asked
    /// for, or, when none of them has to be fetched, they are committed at
    /// once; with none left, the consistent point is recorded and the script
    /// that follows the pull is run, if there is one.
    pub open spec fn resume_step(self, now: u64, post: PullState, r: Result<PullAction, PullError>) -> bool {
        if !(self.phase is Commit) {
            post == self && r matches Err(PullError::OutOfTurn)
        } else if self.committed < self.plan.len() {
            let offsets = fetch_offsets(self.next_chunk());
            if offsets.len() > 0 {
                post == PullState { phase: PullPhase::Blocks, ..self } && asks(
                    r,
                    dump_command(self.helper, self.image, offsets),
                    StreamDecoder::Snappy,
                )
            } else {
                self.commit_step(Seq::empty(), post, r)
            }
        } else {
            let point = ConsistentPoint {
                lsn: max_lsn(self.db.redo),
                size: self.remote_size,
                created_at: now,
            };
            let db = StoreState { points: with_point(self.db.points, point), ..self.db };
            match self.post_pull {
                Some(script) => post == PullState { phase: PullPhase::PostPull, db: db, ..self } && asks(
                    r,
                    script,
                    StreamDecoder::Raw,
                ),
                None => post == PullState { phase: PullPhase::Done, db: db, ..self } && post.done(r),
            }
        }
    }
}

/// The `count` digests that `data` holds one after another.
pub open spec fn digests_in(data: Seq<u8>, count: int) -> Seq<Seq<u8>> {
    Seq::new(count as nat, |i: int| data.subrange(32 * i, 32 * i + 32))
}

/// What an optional string holds.
pub open spec fn opt_text(o: Option<String>) -> Option<Seq<char>> {
    match o {
        Some(s) => Some(s@),
        None => None,
    }
}

/// Whether a digest is in a list.
pub open spec fn has_hash(list: Seq<[u8; 32]>, h: Seq<u8>) -> bool {
    exists|i: int| 0 <= i < list.len() && (#[trigger] list[i])@ == h
}

fn contains_hash(list: &Vec<[u8; 32]>, h: &[u8; 32]) -> (r: bool)
    ensures
        r == has_hash(list@, h@),
{
    let mut i: usize = 0;
    while i < list.len()
        invariant
            i <= list@.len(),
            forall|j: int| 0 <= j < i ==> (#[trigger] list@[j])@ != h@,
        decreases list.len() - i,
    {
        if hash_eq(&list[i], h) {
            return true;
        }
        i += 1;
    }
    false
}

fn clone_opt(o: &Option<String>) -> (r: Option<String>)
    ensures
        opt_text(r) == opt_text(*o),
{
    match o {
        Some(s) => Some(s.clone()),
        None => None,
    }
}

/// The offset of a block of an image fits 64 bits.
proof fn lemma_offset_fits(b: int, n: int)
    requires
        0 <= b < n,
        n * LOG_BLOCK_SIZE <= u64::MAX + LOG_BLOCK_SIZE,
    ensures
        b * LOG_BLOCK_SIZE <= u64::MAX,
{
    assert(b * LOG_BLOCK_SIZE <= (n - 1) * LOG_BLOCK_SIZE) by (nonlinear_arith)
        requires
            0 <= b <= n - 1,
    ;
    assert((n - 1) * LOG_BLOCK_SIZE == n * LOG_BLOCK_SIZE - LOG_BLOCK_SIZE) by (nonlinear_arith);
}

/// Among records, no more ask for a fetch in a part than in the whole.
proof fn lemma_fetch_count_take(records: Seq<FetchRecord>, k: int)
    requires
        0 <= k <= records.len(),
    ensures
        fetch_count(records.take(k)) <= fetch_count(records),
        k < records.len() && records[k] is Fetch ==> fetch_count(records.take(k)) < fetch_count(records),
        fetch_count(records) <= records.len(),
        fetch_offsets(records).len() == fetch_count(records),
    decreases records.len(),
{
    if records.len() > 0 {
        let head = records.drop_last();
        if k < records.len() {
            lemma_fetch_count_take(head, k);
            assert(head.take(k) =~= records.take(k));
            if k < head.len() {
                assert(head[k] == records[k]);
            } else {
                assert(head.take(k) =~= head);
            }
        } else {
            lemma_fetch_count_take(head, k - 1);
            assert(records.take(k) =~= records);
        }
    } else {
        assert(records.take(k) =~= records);
    }
}

/// The items of a batch go with its records, one each.
proof fn lemma_batch_matches(records: Seq<FetchRecord>, output: Seq<u8>)
    ensures
        items_match(records, batch_items(records, output)),
    decreases records.len(),
{
    if records.len() > 0 {
        let head = records.drop_last();
        lemma_batch_matches(head, output);
        let items = batch_items(records, output);
        assert forall|p: int| 0 <= p < records.len() implies item_matches(#[trigger] records[p], items[p]) by {
            if p < head.len() {
                assert(records[p] == head[p]);
                assert(items[p] == batch_items(head, output)[p]);
            }
        }
    }
}

/// A pull in progress.
pub struct PullSession {
    db: Database,
    phase: PullPhase,
    image: String,
    pre_pull: Option<String>,
    post_pull: Option<String>,
    x86_64_helper: Vec<u8>,
    aarch64_helper: Vec<u8>,
    helper: String,
    arch: Option<HelperArch>,
    remote_size: u64,
    blocks: u64,
    snapshot: Option<Snapshot>,
    /// The digests announced for changed blocks so far, each once. They are
    /// kept in a list and compared byte by byte: a hash set would be keyed by
    /// an array, and nothing is known of how arrays hash.
    seen: Vec<[u8; 32]>,
    fetch_list: Vec<FetchOrAssumeExist>,
    next_block: u64,
    committed: usize,
    fetched_blocks: u64,
    reused_blocks: u64,
    base: Ghost<StoreState>,
    hashes: Ghost<Seq<Seq<u8>>>,
    items: Ghost<Seq<RedoItem>>,
}

impl PullSession {
    /// Where the pull stands.
    pub closed spec fn state(&self) -> PullState {
        PullState {
            phase: self.phase,
            db: self.db@,
            instance_id: self.db.id(),
            image: self.image@,
            pre_pull: opt_text(self.pre_pull),
            post_pull: opt_text(self.post_pull),
            x86_64_helper: self.x86_64_helper@,
            aarch64_helper: self.aarch64_helper@,
            helper: self.helper@,
            arch: self.arch,
            remote_size: self.remote_size,
            base: self.base@,
            snapshot: match self.snapshot {
                Some(s) => s@,
                None => Map::empty(),
            },
            hashes: self.hashes@,
            plan: records_of(self.fetch_list@),
            committed: self.committed as nat,
            items: self.items@,
            fetched_blocks: self.fetched_blocks,
            reused_blocks: self.reused_blocks,
        }
    }

    /// What holds of how the pull is held, whatever its phase.
    spec fn held_well(&self) -> bool {
        &&& self.db.wf()
        &&& self.snapshot is Some
        &&& self.blocks == block_count(self.remote_size)
        &&& self.blocks * LOG_BLOCK_SIZE <= u64::MAX + LOG_BLOCK_SIZE
        &&& self.next_block == self.hashes@.len()
        &&& forall|h: Seq<u8>|
            has_hash(self.seen@, h) <==> seen_before(
                self.state().snapshot,
                self.hashes@,
                self.hashes@.len() as int,
                h,
            )
    }

    /// The invariants of the pull and of how it is held.
    pub closed spec fn wf(&self) -> bool {
        &&& self.db.wf()
        &&& self.state().wf()
        &&& self.state().pulling() ==> self.held_well()
        &&& (self.phase is InstallProbe || self.phase is Upload ==> self.arch is Some)
    }

    /// A well-formed pull has a well-formed state.
    pub proof fn lemma_wf(&self)
        requires
            self.wf(),
        ensures
            self.state().wf(),
    {
    }

    /// Begins a pull into `db` of the image that `config` names: the first
    /// thing to learn is what the remote host is.
    pub fn begin(config: &BackupConfig, db: Database, x86_64_helper: Vec<u8>, aarch64_helper: Vec<u8>) -> (r: (
        PullSession,
        PullAction,
    ))
        requires
            db.wf(),
        ensures
            r.0.wf(),
            r.0.state().phase is Uname,
            r.0.state().db == db@,
            r.0.state().instance_id == db.id(),
            r.0.state().image == config.remote.image@,
            r.0.state().pre_pull == (match config.remote.scripts {
                Some(scripts) => opt_text(scripts.pre_pull),
                None => None,
            }),
            r.0.state().post_pull == (match config.remote.scripts {
                Some(scripts) => opt_text(scripts.post_pull),
                None => None,
            }),
            r.0.state().x86_64_helper == x86_64_helper@,
            r.0.state().aarch64_helper == aarch64_helper@,
            asks(Ok(r.1), uname_command(), StreamDecoder::Raw),
    {
        let (pre_pull, post_pull) = match &config.remote.scripts {
            Some(scripts) => (clone_opt(&scripts.pre_pull), clone_opt(&scripts.post_pull)),
            None => (None, None),
        };
        proof {
            db.lemma_wf();
        }
        let session = PullSession {
            db,
            phase: PullPhase::Uname,
            image: config.remote.image.clone(),
            pre_pull,
            post_pull,
            x86_64_helper,
            aarch64_helper,
            helper: String::new(),
            arch: None,
            remote_size: 0,
            blocks: 0,
            snapshot: None,
            seen: Vec::new(),
            fetch_list: Vec::new(),
            next_block: 0,
            committed: 0,
            fetched_blocks: 0,
            reused_blocks: 0,
            base: Ghost(StoreState::empty()),
            hashes: Ghost(Seq::empty()),
            items: Ghost(Seq::empty()),
        };
        let action = PullAction::Exec { command: make_uname_command(), decoder: StreamDecoder::Raw };
        (session, action)
    }

    pub fn phase(&self) -> (r: PullPhase)
        ensures
            r == self.state().phase,
    {
        self.phase
    }

    /// The store as the pull has left it so far.
    pub fn database(&self) -> (r: &Database)
        requires
            self.wf(),
        ensures
            r.wf(),
            r@ == self.state().db,
    {
        &self.db
    }

    /// Ends the pull, wherever it stands, and hands the store back.
    pub fn into_database(self) -> (r: Database)
        requires
            self.wf(),
        ensures
            r.wf(),
            r@ == self.state().db,
    {
        self.db
    }

    /// The helper program that the action `Upload` speaks of.
    pub fn helper_image(&self, arch: HelperArch) -> (r: &[u8])
        ensures
            r@ == (match arch {
                HelperArch::X86_64 => self.state().x86_64_helper,
                HelperArch::Aarch64 => self.state().aarch64_helper,
            }),
    {
        match arch {
            HelperArch::X86_64 => self.x86_64_helper.as_slice(),
            HelperArch::Aarch64 => self.aarch64_helper.as_slice(),
        }
    }

    fn ask_size(&mut self) -> (action: PullAction)
        requires
            old(self).wf(),
            !old(self).state().pulling(),
        ensures
            final(self).wf(),
            final(self).state() == (PullState { phase: PullPhase::ImageSize, ..old(self).state() }),
            asks(Ok(action), size_command(old(self).state().image), StreamDecoder::Raw),
    {
        self.phase = PullPhase::ImageSize;
        PullAction::Exec { command: make_size_command(self.image.as_str()), decoder: StreamDecoder::Raw }
    }

    fn installed(&mut self) -> (action: PullAction)
        requires
            old(self).wf(),
            !old(self).state().pulling(),
        ensures
            final(self).wf(),
            old(self).state().after_install(final(self).state(), Ok(action)),
    {
        match &self.pre_pull {
            Some(script) => {
                let command = script.clone();
                self.phase = PullPhase::PrePull;
                PullAction::Exec { command, decoder: StreamDecoder::Raw }
            },
            None => self.ask_size(),
        }
    }

    /// The number of blocks that the next call for digests asks for.
    fn batch_count(&self) -> (r: usize)
        requires
            self.blocks == block_count(self.remote_size),
            self.next_block == self.hashes@.len(),
            self.next_block <= self.blocks,
        ensures
            r == self.state().diff_count(),
            r <= DIFF_BATCH_SIZE,
            self.next_block + r <= self.blocks,
    {
        let left = self.blocks - self.next_block;
        if left > DIFF_BATCH_SIZE as u64 {
            DIFF_BATCH_SIZE
        } else {
            left as usize
        }
    }

    /// Turns to the next batch of the diff, or to the commits when every
    /// block has been compared.
    fn diff_on(&mut self) -> (action: PullAction)
        requires
            old(self).db.wf(),
            old(self).held_well(),
            old(self).state().grounded(),
            old(self).state().committed == 0,
            old(self).state().db.points == old(self).state().base.points,
        ensures
            final(self).wf(),
            final(self).state() == (PullState { phase: final(self).state().phase, ..old(self).state() }),
            final(self).state().after_diff(Ok(action)),
    {
        if self.next_block < self.blocks {
            self.phase = PullPhase::Diff;
            let count = self.batch_count();
            proof {
                lemma_offset_fits(self.next_block as int, self.blocks as int);
            }
            let offset = self.next_block * (LOG_BLOCK_SIZE as u64);
            let command = make_hash_command(
                self.helper.as_str(),
                self.image.as_str(),
                offset,
                count as u64,
            );
            PullAction::Exec { command, decoder: StreamDecoder::Raw }
        } else {
            self.phase = PullPhase::Commit;
            PullAction::Continue
        }
    }

    /// Takes in the digests of a batch of blocks.
    fn diff(&mut self, data: &[u8]) -> (action: PullAction)
        requires
            old(self).wf(),
            old(self).state().phase is Diff,
            data@.len() == old(self).state().diff_count() * 32,
        ensures
            final(self).wf(),
            final(self).state() == (PullState {
                phase: final(self).state().phase,
                hashes: old(self).state().hashes + digests_in(data@, old(self).state().diff_count()),
                plan: diff_plan(
                    old(self).state().snapshot,
                    old(self).state().base.cas.dom(),
                    old(self).state().hashes + digests_in(data@, old(self).state().diff_count()),
                    (old(self).state().hashes + digests_in(data@, old(self).state().diff_count())).len() as int,
                ),
                ..old(self).state()
            }),
            final(self).state().after_diff(Ok(action)),
    {
        let ghost pre = self.state();
        let count = self.batch_count();
        let first = self.next_block;
        let ghost all = pre.hashes + digests_in(data@, count as int);
        let ghost held = pre.base.cas.dom();
        let ghost snap = pre.snapshot;
        let mut list: Vec<FetchOrAssumeExist> = Vec::new();
        let mut seen: Vec<[u8; 32]> = Vec::new();
        std::mem::swap(&mut self.fetch_list, &mut list);
        std::mem::swap(&mut self.seen, &mut seen);
        proof {
            lemma_plan_prefix(snap, held, pre.hashes, all, pre.hashes.len() as int);
            assert forall|h: Seq<u8>| has_hash(seen@, h) <==> seen_before(snap, all, first as int, h) by {
                if seen_before(snap, pre.hashes, first as int, h) {
                    let j = choose|j: int|
                        0 <= j < first && changed(snap, pre.hashes, j) && #[trigger] pre.hashes[j] == h;
                    assert(all[j] == pre.hashes[j]);
                    assert(changed(snap, all, j) && all[j] == h);
                }
                if seen_before(snap, all, first as int, h) {
                    let j = choose|j: int| 0 <= j < first && changed(snap, all, j) && #[trigger] all[j] == h;
                    assert(all[j] == pre.hashes[j]);
                    assert(changed(snap, pre.hashes, j) && pre.hashes[j] == h);
                }
            }
            assert(pre.base.committed(pre.items).cas =~= pre.base.cas);
        }
        let mut i: usize = 0;
        while i < count
            invariant
                i <= count <= DIFF_BATCH_SIZE,
                data@.len() == count * 32,
                first + count <= self.blocks,
                self.blocks * LOG_BLOCK_SIZE <= u64::MAX + LOG_BLOCK_SIZE,
                first == pre.hashes.len(),
                all == pre.hashes + digests_in(data@, count as int),
                self.snapshot is Some,
                self.snapshot.unwrap()@ == snap,
                self.db@.cas.dom() == held,
                records_of(list@) == diff_plan(snap, held, all, first + i),
                forall|h: Seq<u8>| has_hash(seen@, h) <==> seen_before(snap, all, first + i, h),
            decreases count - i,
        {
            let block = first + i as u64;
            let announced = slice_subrange(data, 32 * i, 32 * i + 32);
            assert(announced@ == all[first + i]);
            let local = match &self.snapshot {
                Some(s) => s.block_hash_or_zero(block),
                None => [0u8; 32],
            };
            let ghost k = (first + i) as int;
            let ghost before_list = list@;
            let ghost before_seen = seen@;
            if !slice_is_hash(announced, &local) {
                let h = hash_from_slice(announced);
                let was_seen = contains_hash(&seen, &h);
                let known = was_seen || self.db.exists_in_cas(&h);
                proof {
                    lemma_offset_fits(block as int, self.blocks as int);
                }
                let offset = block * (LOG_BLOCK_SIZE as u64);
                if known {
                    list.push(FetchOrAssumeExist::AssumeExistWithHash(offset, h));
                } else {
                    list.push(FetchOrAssumeExist::Fetch(offset));
                }
                if !was_seen {
                    seen.push(h);
                }
                proof {
                    assert(changed(snap, all, k));
                    let rec = record_for(snap, held, all, k).unwrap();
                    assert(records_of(list@) =~= records_of(before_list).push(rec));
                    assert forall|x: Seq<u8>| has_hash(seen@, x) <==> seen_before(snap, all, k + 1, x) by {
                        if has_hash(seen@, x) {
                            let j = choose|j: int| 0 <= j < seen@.len() && (#[trigger] seen@[j])@ == x;
                            if j < before_seen.len() {
                                assert(before_seen[j] == seen@[j]);
                                assert(has_hash(before_seen, x));
                                assert(seen_before(snap, all, k, x));
                                let m = choose|m: int|
                                    0 <= m < k && changed(snap, all, m) && #[trigger] all[m] == x;
                                assert(0 <= m < k + 1 && changed(snap, all, m) && all[m] == x);
                            } else {
                                assert(all[k] == x);
                            }
                        }
                        if seen_before(snap, all, k + 1, x) {
                            let m = choose|m: int|
                                0 <= m < k + 1 && changed(snap, all, m) && #[trigger] all[m] == x;
                            if m < k {
                                assert(seen_before(snap, all, k, x));
                                assert(has_hash(before_seen, x));
                                let j = choose|j: int|
                                    0 <= j < before_seen.len() && (#[trigger] before_seen[j])@ == x;
                                assert(seen@[j] == before_seen[j]);
                            } else {
                                if was_seen {
                                    assert(has_hash(before_seen, x));
                                    let j = choose|j: int|
                                        0 <= j < before_seen.len() && (#[trigger] before_seen[j])@ == x;
                                    assert(seen@[j] == before_seen[j]);
                                } else {
                                    assert(seen@[before_seen.len() as int]@ == x);
                                }
                            }
                        }
                    }
                }
            } else {
                proof {
                    assert(!changed(snap, all, k));
                    assert forall|x: Seq<u8>| has_hash(seen@, x) <==> seen_before(snap, all, k + 1, x) by {
                        if seen_before(snap, all, k + 1, x) {
                            let m = choose|m: int|
                                0 <= m < k + 1 && changed(snap, all, m) && #[trigger] all[m] == x;
                            assert(seen_before(snap, all, k, x));
                        }
                        if seen_before(snap, all, k, x) {
                            let m = choose|m: int|
                                0 <= m < k && changed(snap, all, m) && #[trigger] all[m] == x;
                            assert(0 <= m < k + 1 && changed(snap, all, m) && all[m] == x);
                        }
                    }
                }
            }
            i += 1;
        }
        self.fetch_list = list;
        self.seen = seen;
        self.next_block = first + count as u64;
        self.hashes = Ghost(all);
        proof {
            assert(self.state().plan.take(0) =~= Seq::<FetchRecord>::empty());
            assert(pre.plan.take(0) =~= Seq::<FetchRecord>::empty());
        }
        self.diff_on()
    }

    /// The offsets of the next records that ask for a fetch.
    fn chunk_offsets(&self) -> (r: Vec<u64>)
        requires
            self.committed <= self.fetch_list@.len(),
        ensures
            r@ == fetch_offsets(self.state().next_chunk()),
            r@.len() == fetch_count(self.state().next_chunk()),
            r@.len() <= DATA_FETCH_BATCH_SIZE,
    {
        let start = self.committed;
        let total = self.fetch_list.len();
        let n = if total - start > DATA_FETCH_BATCH_SIZE {
            DATA_FETCH_BATCH_SIZE
        } else {
            total - start
        };
        let ghost chunk = self.state().next_chunk();
        let mut out: Vec<u64> = Vec::new();
        let mut j: usize = 0;
        assert(chunk.take(0) =~= Seq::<FetchRecord>::empty());
        while j < n
            invariant
                j <= n,
                total == self.fetch_list@.len(),
                start + n <= total,
                chunk == records_of(self.fetch_list@).subrange(start as int, start + n),
                out@ == fetch_offsets(chunk.take(j as int)),
                out@.len() == fetch_count(chunk.take(j as int)),
                out@.len() <= j,
            decreases n - j,
        {
            let record = self.fetch_list[start + j];
            proof {
                assert(chunk.take(j + 1).drop_last() =~= chunk.take(j as int));
                assert(chunk.take(j + 1).last() == record@);
            }
            match record {
                FetchOrAssumeExist::Fetch(o) => {
                    out.push(o);
                },
                FetchOrAssumeExist::AssumeExistWithHash(_, _) => {},
            }
            j += 1;
        }
        assert(chunk.take(n as int) =~= chunk);
        out
    }

    /// Commits the next batch of records with the blocks fetched for it.
    fn commit(&mut self, data: &[u8]) -> (r: Result<PullAction, PullError>)
        requires
            old(self).wf(),
            old(self).state().phase is Commit || old(self).state().phase is Blocks,
            old(self).state().committed < old(self).state().plan.len(),
            data@.len() == fetch_count(old(self).state().next_chunk()) * LOG_BLOCK_SIZE,
        ensures
            final(self).wf(),
            old(self).state().commit_step(data@, final(self).state(), r),
    {
        let ghost pre = self.state();
        let start = self.committed;
        let total = self.fetch_list.len();
        let n = if total - start > DATA_FETCH_BATCH_SIZE {
            DATA_FETCH_BATCH_SIZE
        } else {
            total - start
        };
        let ghost chunk = pre.next_chunk();
        let ghost wanted = fetch_count(chunk);
        let mut batch: Vec<(u64, RedoContentOrHash)> = Vec::new();
        let mut taken: usize = 0;
        let mut j: usize = 0;
        proof {
            assert(chunk.take(0) =~= Seq::<FetchRecord>::empty());
            assert(items_of(batch@) =~= batch_items(chunk.take(0), data@));
            lemma_fetch_count_take(chunk, 0);
        }
        while j < n
            invariant
                j <= n <= DATA_FETCH_BATCH_SIZE,
                total == self.fetch_list@.len(),
                start + n <= total,
                chunk == records_of(self.fetch_list@).subrange(start as int, start + n),
                wanted == fetch_count(chunk),
                wanted <= n,
                data@.len() == wanted * LOG_BLOCK_SIZE,
                taken == fetch_count(chunk.take(j as int)),
                taken <= wanted,
                batch@.len() == j,
                items_of(batch@) == batch_items(chunk.take(j as int), data@),
                contents_fit(items_of(batch@)),
            decreases n - j,
        {
            let record = self.fetch_list[start + j];
            let ghost before = batch@;
            proof {
                assert(chunk.take(j + 1).drop_last() =~= chunk.take(j as int));
                assert(chunk.take(j + 1).last() == record@);
                assert(chunk[j as int] == record@);
                lemma_fetch_count_take(chunk, j as int);
                lemma_fetch_count_take(chunk, j + 1);
            }
            match record {
                FetchOrAssumeExist::Fetch(o) => {
                    let from = taken * LOG_BLOCK_SIZE;
                    let block = slice_subrange(data, from, from + LOG_BLOCK_SIZE);
                    batch.push((o / (LOG_BLOCK_SIZE as u64), RedoContentOrHash::Content(block)));
                    taken += 1;
                },
                FetchOrAssumeExist::AssumeExistWithHash(o, h) => {
                    batch.push((o / (LOG_BLOCK_SIZE as u64), RedoContentOrHash::Hash(h)));
                },
            }
            proof {
                let want = batch_items(chunk.take(j + 1), data@);
                assert(items_of(batch@).len() == want.len());
                assert forall|x: int| 0 <= x < want.len() implies items_of(batch@)[x] == want[x] by {
                    if x < j {
                        assert(batch@[x] == before[x]);
                        assert(items_of(before)[x] == batch_items(chunk.take(j as int), data@)[x]);
                    }
                }
                assert(items_of(batch@) =~= want);
                assert forall|x: int| 0 <= x < want.len() implies fits(#[trigger] items_of(batch@)[x]) by {
                    if x < j {
                        assert(items_of(batch@)[x] == items_of(before)[x]);
                    }
                }
            }
            j += 1;
        }
        proof {
            assert(chunk.take(n as int) =~= chunk);
        }
        let ghost items = batch_items(chunk, data@);
        let lsn = self.db.max_lsn();
        match self.db.write_redo(lsn, batch.as_slice()) {
            Err(e) => {
                proof {
                    self.db.lemma_wf();
                    assert(self.state() == pre);
                    assert(self.held_well());
                }
                Err(PullError::Db(e))
            },
            Ok(_) => {
                self.committed = start + n;
                self.fetched_blocks = self.fetched_blocks + taken as u64;
                self.reused_blocks = self.reused_blocks + (n - taken) as u64;
                self.items = Ghost(pre.items + items);
                self.phase = PullPhase::Commit;
                proof {
                    let post = self.state();
                    lemma_batch_matches(chunk, data@);
                    assert(pre.plan.take(start + n) =~= pre.plan.take(start as int) + chunk);
                    assert forall|p: int| 0 <= p < start + n implies item_matches(
                        #[trigger] pre.plan.take(start + n)[p],
                        post.items[p],
                    ) by {
                        if p < start {
                            assert(pre.plan.take(start as int)[p] == pre.plan.take(start + n)[p]);
                            assert(item_matches(pre.plan.take(start as int)[p], pre.items[p]));
                        } else {
                            assert(chunk[p - start] == pre.plan.take(start + n)[p]);
                            assert(item_matches(chunk[p - start], items[p - start]));
                        }
                    }
                    lemma_committed_max(pre.base, pre.items);
                    assert(max_lsn(pre.db.redo) == max_lsn(pre.base.redo) + pre.items.len());
                    assert(items.len() == n);
                    assert(max_lsn(pre.base.redo) + pre.items.len() + items.len() <= u64::MAX);
                    lemma_commit_concat(pre.base, pre.items, items);
                    assert(pre.db.committed(items).redo == pre.base.committed(pre.items).committed(items).redo);
                    assert(pre.db.committed(items).cas == pre.base.committed(pre.items).committed(items).cas);
                    assert(items_match(post.plan.take(post.committed as int), post.items));
                    assert(post.grounded());
                    assert(post.staged());
                    assert(self.held_well());
                    self.db.lemma_wf();
                }
                Ok(PullAction::Continue)
            },
        }
    }

    /// Records the consistent point and turns to what follows the pull.
    fn finish(&mut self, now: u64) -> (action: PullAction)
        requires
            old(self).wf(),
            old(self).state().phase is Commit,
            old(self).state().committed == old(self).state().plan.len(),
        ensures
            final(self).wf(),
            old(self).state().resume_step(now, final(self).state(), Ok(action)),
    {
        let ghost pre = self.state();
        let lsn = self.db.max_lsn();
        self.db.add_consistent_point(lsn, self.remote_size, now);
        proof {
            lemma_with_point_has(
                pre.db.points,
                ConsistentPoint { lsn, size: self.remote_size, created_at: now },
            );
            assert(self.db@ =~= (StoreState {
                points: with_point(
                    pre.db.points,
                    ConsistentPoint { lsn, size: self.remote_size, created_at: now },
                ),
                ..pre.db
            }));
            self.db.lemma_wf();
            assert(has_point(self.db@.points, max_lsn(self.db@.redo)));
            assert(self.state().grounded());
            assert(self.held_well());
        }
        match &self.post_pull {
            Some(script) => {
                let command = script.clone();
                self.phase = PullPhase::PostPull;
                PullAction::Exec { command, decoder: StreamDecoder::Raw }
            },
            None => {
                self.phase = PullPhase::Done;
                PullAction::Done {
                    lsn,
                    fetched_blocks: self.fetched_blocks,
                    reused_blocks: self.reused_blocks,
                }
            },
        }
    }

    /// Goes on with a pull that needs nothing from outside.
    pub fn resume(&mut self, now: u64) -> (r: Result<PullAction, PullError>)
        requires
            old(self).wf(),
        ensures
            final(self).wf(),
            old(self).state().resume_step(now, final(self).state(), r),
    {
        match self.phase {
            PullPhase::Commit => {},
            _ => {
                return Err(PullError::OutOfTurn);
            },
        }
        if self.committed < self.fetch_list.len() {
            let offsets = self.chunk_offsets();
            if offsets.len() > 0 {
                let command = make_dump_command(self.helper.as_str(), self.image.as_str(), &offsets);
                self.phase = PullPhase::Blocks;
                Ok(PullAction::Exec { command, decoder: StreamDecoder::Snappy })
            } else {
                let nothing: Vec<u8> = Vec::new();
                self.commit(nothing.as_slice())
            }
        } else {
            Ok(self.finish(now))
        }
    }

    /// The helper was installed.
    pub fn on_uploaded(&mut self) -> (r: Result<PullAction, PullError>)
        requires
            old(self).wf(),
        ensures
            final(self).wf(),
            if old(self).state().phase is Upload {
                old(self).state().after_install(final(self).state(), r)
            } else {
                final(self).state() == old(self).state() && r matches Err(PullError::OutOfTurn)
            },
    {
        match self.phase {
            PullPhase::Upload => Ok(self.installed()),
            _ => Err(PullError::OutOfTurn),
        }
    }

    /// The names of the remote machine and system arrived.
    fn on_uname(&mut self, outcome: ExecOutcome) -> (r: Result<PullAction, PullError>)
        requires
            old(self).wf(),
            old(self).state().phase is Uname,
        ensures
            final(self).wf(),
            old(self).state().uname_step(
                outcome.stdout@,
                outcome.exit_status,
                outcome.exit_signal is Some,
                final(self).state(),
                r,
            ),
    {
        let ghost stdout = outcome.stdout@;
        let text = match exec_oneshot_in(outcome) {
            Ok(t) => t,
            Err(e) => {
                return Err(PullError::Exec(e));
            },
        };
        let bytes = text.as_str().as_bytes();
        assert(bytes@ == stdout);
        let (machine, system) = split_uname(bytes);
        let linux_word: [u8; 5] = [76, 105, 110, 117, 120];
        assert(linux_word@ =~= linux());
        if !bytes_are(system, linux_word.as_slice()) {
            return Err(PullError::OsNotSupported(vstd::slice::slice_to_vec(system)));
        }
        let arch = match helper_arch(machine) {
            Some(a) => a,
            None => {
                return Err(PullError::ArchNotSupported(vstd::slice::slice_to_vec(machine)));
            },
        };
        let digest = match arch {
            HelperArch::X86_64 => sha256hash(self.x86_64_helper.as_slice()),
            HelperArch::Aarch64 => sha256hash(self.aarch64_helper.as_slice()),
        };
        let digest_hex = hex_encode(digest.as_slice());
        let name = make_helper_name(self.db.instance_id(), digest_hex.as_str());
        let command = make_install_probe(name.as_str(), digest_hex.as_str());
        self.helper = name;
        self.arch = Some(arch);
        self.phase = PullPhase::InstallProbe;
        Ok(PullAction::Exec { command, decoder: StreamDecoder::Raw })
    }

    /// The answer of the installation probe arrived.
    fn on_probe(&mut self, outcome: ExecOutcome) -> (r: Result<PullAction, PullError>)
        requires
            old(self).wf(),
            old(self).state().phase is InstallProbe,
        ensures
            final(self).wf(),
            old(self).state().probe_step(
                outcome.stdout@,
                outcome.exit_status,
                outcome.exit_signal is Some,
                final(self).state(),
                r,
            ),
    {
        let text = match exec_oneshot_in(outcome) {
            Ok(t) => t,
            Err(e) => {
                return Err(PullError::Exec(e));
            },
        };
        if text.as_str().is_empty() {
            return Ok(self.installed());
        }
        let arch = match self.arch {
            Some(a) => a,
            None => vstd::pervasive::unreached(),
        };
        let path = make_upload_path(text.as_str(), self.helper.as_str());
        self.phase = PullPhase::Upload;
        Ok(PullAction::Upload { path, arch })
    }

    /// The size of the image arrived.
    fn on_size(&mut self, outcome: ExecOutcome) -> (r: Result<PullAction, PullError>)
        requires
            old(self).wf(),
            old(self).state().phase is ImageSize,
        ensures
            final(self).wf(),
            old(self).state().size_step(
                outcome.stdout@,
                outcome.exit_status,
                outcome.exit_signal is Some,
                final(self).state(),
                r,
            ),
    {
        let ghost pre = self.state();
        let ghost stdout = outcome.stdout@;
        let text = match exec_oneshot_in(outcome) {
            Ok(t) => t,
            Err(e) => {
                return Err(PullError::Exec(e));
            },
        };
        let bytes = text.as_str().as_bytes();
        assert(bytes@ == stdout);
        let size = match parse_u64(bytes) {
            Some(n) => n,
            None => {
                return Err(PullError::BadImageSize);
            },
        };
        let points = self.db.list_consistent_point();
        if points.len() > 0 {
            let recorded = points[points.len() - 1].size;
            if size < recorded {
                return Err(PullError::ImageShrunk(recorded, size));
            }
        }
        let lsn = self.db.max_lsn();
        let snapshot = self.db.snapshot(lsn);
        self.remote_size = size;
        self.blocks = blocks_in(size);
        self.snapshot = Some(snapshot);
        self.seen = Vec::new();
        self.fetch_list = Vec::new();
        self.next_block = 0;
        self.committed = 0;
        self.fetched_blocks = 0;
        self.reused_blocks = 0;
        self.base = Ghost(self.db@);
        self.hashes = Ghost(Seq::empty());
        self.items = Ghost(Seq::empty());
        proof {
            let st = self.state();
            self.db.lemma_wf();
            assert(st.plan =~= Seq::<FetchRecord>::empty());
            assert(st.plan.take(0) =~= Seq::<FetchRecord>::empty());
            assert(st.base.committed(st.items).redo =~= st.base.redo);
            assert(st.base.committed(st.items).cas =~= st.base.cas);
            assert forall|h: Seq<u8>| has_hash(self.seen@, h) <==> seen_before(st.snapshot, st.hashes, 0, h) by {}
        }
        Ok(self.diff_on())
    }

    /// A script has run.
    fn on_script(&mut self, outcome: ExecOutcome) -> (r: Result<PullAction, PullError>)
        requires
            old(self).wf(),
            old(self).state().phase is PrePull || old(self).state().phase is PostPull,
        ensures
            final(self).wf(),
            old(self).state().script_step(
                outcome.stdout@,
                outcome.exit_status,
                outcome.exit_signal is Some,
                final(self).state(),
                r,
            ),
    {
        match exec_oneshot_in(outcome) {
            Ok(_) => {},
            Err(e) => {
                return Err(PullError::Exec(e));
            },
        }
        match self.phase {
            PullPhase::PrePull => Ok(self.ask_size()),
            _ => {
                self.phase = PullPhase::Done;
                Ok(
                    PullAction::Done {
                        lsn: self.db.max_lsn(),
                        fetched_blocks: self.fetched_blocks,
                        reused_blocks: self.reused_blocks,
                    },
                )
            },
        }
    }

    /// The digests of a batch of blocks arrived.
    fn on_hashes(&mut self, outcome: ExecOutcome) -> (r: Result<PullAction, PullError>)
        requires
            old(self).wf(),
            old(self).state().phase is Diff,
        ensures
            final(self).wf(),
            old(self).state().diff_step(
                outcome.stdout@,
                outcome.exit_status,
                outcome.exit_signal is Some,
                final(self).state(),
                r,
            ),
    {
        let data = match exec_oneshot_bin_in(outcome, StreamDecoder::Raw) {
            Ok(d) => d,
            Err(e) => {
                return Err(PullError::Exec(e));
            },
        };
        let count = self.batch_count();
        if data.len() != count * 32 {
            return Err(PullError::ByteCountMismatch(count * 32, data.len()));
        }
        Ok(self.diff(data.as_slice()))
    }

    /// The blocks of a batch arrived.
    fn on_blocks(&mut self, outcome: ExecOutcome) -> (r: Result<PullAction, PullError>)
        requires
            old(self).wf(),
            old(self).state().phase is Blocks,
        ensures
            final(self).wf(),
            old(self).state().blocks_step(
                outcome.stdout@,
                outcome.exit_status,
                outcome.exit_signal is Some,
                final(self).state(),
                r,
            ),
    {
        let data = match exec_oneshot_bin_in(outcome, StreamDecoder::Snappy) {
            Ok(d) => d,
            Err(e) => {
                return Err(PullError::Exec(e));
            },
        };
        let offsets = self.chunk_offsets();
        let wanted = offsets.len() * LOG_BLOCK_SIZE;
        if data.len() != wanted {
            return Err(PullError::ByteCountMismatch(wanted, data.len()));
        }
        self.commit(data.as_slice())
    }

    /// Takes the answer of the remote host to the command that the pull
    /// asked for, and says what the pull needs next.
    pub fn on_output(&mut self, outcome: ExecOutcome) -> (r: Result<PullAction, PullError>)
        requires
            old(self).wf(),
        ensures
            final(self).wf(),
            old(self).state().output_step(
                outcome.stdout@,
                outcome.exit_status,
                outcome.exit_signal is Some,
                final(self).state(),
                r,
            ),
    {
        match self.phase {
            PullPhase::Uname => self.on_uname(outcome),
            PullPhase::InstallProbe => self.on_probe(outcome),
            PullPhase::PrePull => self.on_script(outcome),
            PullPhase::ImageSize => self.on_size(outcome),
            PullPhase::Diff => self.on_hashes(outcome),
            PullPhase::Blocks => self.on_blocks(outcome),
            PullPhase::PostPull => self.on_script(outcome),
            _ => Err(PullError::OutOfTurn),
        }
    }
}

impl Pullcmd {
    /// Starts a pull: refuses a configuration that runs scripts without a
    /// pull lock, and otherwise begins with the question what the remote
    /// host is.
    pub fn run(
        &self,
        config: &BackupConfig,
        db: Database,
        x86_64_helper: Vec<u8>,
        aarch64_helper: Vec<u8>,
    ) -> (r: Result<(PullSession, PullAction), PullError>)
        requires
            db.wf(),
        ensures
            config.lock_missing() ==> r matches Err(PullError::PullLockRequired),
            !config.lock_missing() ==> match r {
                Ok((session, action)) => {
                    &&& session.wf()
                    &&& session.state().phase is Uname
                    &&& session.state().db == db@
                    &&& session.state().image == config.remote.image@
                    &&& asks(Ok(action), uname_command(), StreamDecoder::Raw)
                },
                Err(_) => false,
            },
    {
        if config.pull_lock_missing() {
            return Err(PullError::PullLockRequired);
        }
        Ok(PullSession::begin(config, db, x86_64_helper, aarch64_helper))
    }
}

} // verus!
