//! The store itself: content-addressed blocks, the redo log over them, and
//! the consistent points that name the versions of an image.

use vstd::prelude::*;
use vstd::string::*;
use std::collections::HashMap;
use crate::blob::{compute_zero_block_hash, zero_block_hash};
use crate::compress::{zstd_content, zstd_decode, zstd_encode, zstd_frame};
use crate::config::LOG_BLOCK_SIZE;
use crate::digest::{blake3_digest, blake3_hash, hash_eq, hex_encode, hex_text};
pub use crate::model::ConsistentPoint;
use crate::model::{
    appended_rows, committed_cas, complete, contents_fit, fits,
    has_point, hash_or_zero, item_hash, latest_in, lemma_commit_wf,
    lemma_filter_ordered, lemma_latest, lemma_squash_keeps_max_lsn, max_lsn, missing_at, ordered,
    outside, point_at, point_slot, points_ordered, referenced, snapshot_view, squashed_redo,
    stored_block, stores_at, survives, survivor, with_point, RedoBody, RedoItem, RedoRow,
    StoreState,
};
use crate::text::{decimal_text, parse_number, parsed_number, push_decimal};
use crate::util::{align_block, block_bytes, padded};

verus! {

broadcast use {vstd::std_specs::hash::group_hash_axioms, vstd::array::array_len_matches_n};

/// Compression level of stored blocks.
pub const CAS_ZSTD_LEVEL: i32 = 3;

/// What a commit is given for one block: its content, or the digest of a
/// content that the store should hold already.
#[derive(Clone, Copy)]
pub enum RedoContentOrHash<'a> {
    Content(&'a [u8]),
    Hash([u8; 32]),
}

impl<'a> RedoContentOrHash<'a> {
    pub open spec fn body(self) -> RedoBody {
        match self {
            RedoContentOrHash::Content(c) => RedoBody::Content(c@),
            RedoContentOrHash::Hash(h) => RedoBody::Hash(h@),
        }
    }
}

/// The batch that a slice of pairs of block number and body stands for.
pub open spec fn items_of<'a>(data: Seq<(u64, RedoContentOrHash<'a>)>) -> Seq<RedoItem> {
    Seq::new(data.len(), |i: int| RedoItem { block_id: data[i].0, body: data[i].1.body() })
}

/// Why a commit did not happen.
pub enum DbError {
    /// The log has moved on: expected largest LSN, actual largest LSN.
    LsnMismatch(u64, u64),
    /// A digest was taken to be stored and is not: the digest in hexadecimal.
    MissingHash(String),
    /// The log has no LSNs left for the batch.
    LsnExhausted,
    /// A block could not be compressed.
    Compression,
    /// A block was to be stored under a digest that is not its own.
    WrongHash,
}

impl DbError {
    /// What the error says.
    pub open spec fn text(self) -> Seq<char> {
        match self {
            DbError::LsnMismatch(expected, actual) => "base lsn mismatch: expecting "@ + decimal_text(
                expected as nat,
            ) + ", got "@ + decimal_text(actual as nat),
            DbError::MissingHash(hash) => "block with hash "@ + hash@
                + " was assumed to exist in CAS but does not exist anymore - did you run `bsync squash` just now? please retry."@,
            DbError::LsnExhausted => "the log has no LSNs left for the batch"@,
            DbError::Compression => "a block could not be compressed"@,
            DbError::WrongHash => "a block was to be stored under a digest that is not its own"@,
        }
    }

    pub fn message(&self) -> (r: String)
        ensures
            r@ == self.text(),
    {
        match self {
            DbError::LsnMismatch(expected, actual) => {
                let mut s = String::from_str("base lsn mismatch: expecting ");
                push_decimal(&mut s, *expected);
                s.append(", got ");
                push_decimal(&mut s, *actual);
                s
            },
            DbError::MissingHash(hash) => {
                let mut s = String::from_str("block with hash ");
                s.append(hash.as_str());
                s.append(
                    " was assumed to exist in CAS but does not exist anymore - did you run `bsync squash` just now? please retry.",
                );
                s
            },
            DbError::LsnExhausted => String::from_str("the log has no LSNs left for the batch"),
            DbError::Compression => String::from_str("a block could not be compressed"),
            DbError::WrongHash => String::from_str(
                "a block was to be stored under a digest that is not its own",
            ),
        }
    }
}

/// One stored block.
pub struct CasEntry {
    pub hash: [u8; 32],
    pub content: Vec<u8>,
    pub compressed: bool,
}

/// One entry of the redo log.
#[derive(Clone, Copy)]
pub struct RedoEntry {
    pub lsn: u64,
    pub block_id: u64,
    pub hash: [u8; 32],
}

/// The block that a stored entry stands for.
pub open spec fn entry_block(e: CasEntry) -> Seq<u8> {
    if e.compressed {
        match zstd_content(e.content@) {
            Some(b) => b,
            None => Seq::empty(),
        }
    } else {
        e.content@
    }
}

pub open spec fn holds(rows: Seq<CasEntry>, h: Seq<u8>) -> bool {
    exists|i: int| 0 <= i < rows.len() && (#[trigger] rows[i]).hash@ == h
}

pub open spec fn slot_of(rows: Seq<CasEntry>, h: Seq<u8>) -> int {
    choose|i: int| 0 <= i < rows.len() && (#[trigger] rows[i]).hash@ == h
}

/// Digest to block, over stored entries.
pub open spec fn cas_map(rows: Seq<CasEntry>) -> Map<Seq<u8>, Seq<u8>> {
    Map::new(|h: Seq<u8>| holds(rows, h), |h: Seq<u8>| entry_block(rows[slot_of(rows, h)]))
}

/// No digest is stored twice.
pub open spec fn distinct(rows: Seq<CasEntry>) -> bool {
    forall|i: int, j: int| 0 <= i < j < rows.len() ==> rows[i].hash@ != rows[j].hash@
}

/// Every compressed entry is a valid frame.
pub open spec fn decodable(rows: Seq<CasEntry>) -> bool {
    forall|i: int|
        0 <= i < rows.len() && (#[trigger] rows[i]).compressed ==> zstd_content(rows[i].content@) is Some
}

pub open spec fn row_of(e: RedoEntry) -> RedoRow {
    RedoRow { lsn: e.lsn, block_id: e.block_id, hash: e.hash@ }
}

pub open spec fn redo_rows(rows: Seq<RedoEntry>) -> Seq<RedoRow> {
    Seq::new(rows.len(), |i: int| row_of(rows[i]))
}

/// What a failed commit says of the store and the batch: why it failed.
pub open spec fn write_failure(s: StoreState, base_lsn: u64, items: Seq<RedoItem>, e: DbError) -> bool {
    match e {
        DbError::LsnMismatch(expected, actual) => {
            &&& expected == base_lsn
            &&& actual == max_lsn(s.redo)
            &&& expected != actual
        },
        DbError::LsnExhausted => {
            &&& base_lsn == max_lsn(s.redo)
            &&& base_lsn + items.len() > u64::MAX
        },
        DbError::MissingHash(text) => {
            &&& base_lsn == max_lsn(s.redo)
            &&& exists|i: int|
                0 <= i < items.len() && #[trigger] first_trouble(s.cas, items, i) && missing_at(s.cas, items, i)
                    && text@ == hex_text(item_hash(items[i]))
        },
        DbError::Compression => {
            &&& base_lsn == max_lsn(s.redo)
            &&& exists|i: int|
                0 <= i < items.len() && #[trigger] first_trouble(s.cas, items, i) && uncompressible_at(
                    s.cas,
                    items,
                    i,
                )
        },
        DbError::WrongHash => false,
    }
}

/// Item `i` brings a content that has to be stored when its turn comes, and
/// the block does not compress.
pub open spec fn uncompressible_at(cas: Map<Seq<u8>, Seq<u8>>, items: Seq<RedoItem>, i: int) -> bool {
    &&& stores_at(cas, items, i)
    &&& match items[i].body {
        RedoBody::Content(c) => zstd_frame(padded(c, LOG_BLOCK_SIZE as nat), CAS_ZSTD_LEVEL as int) is None,
        RedoBody::Hash(_) => false,
    }
}

/// Item `i` cannot be committed: it names a digest that is missing, or it
/// brings a block that does not compress.
pub open spec fn trouble_at(cas: Map<Seq<u8>, Seq<u8>>, items: Seq<RedoItem>, i: int) -> bool {
    missing_at(cas, items, i) || uncompressible_at(cas, items, i)
}

/// Every item before `i` can be committed.
pub open spec fn first_trouble(cas: Map<Seq<u8>, Seq<u8>>, items: Seq<RedoItem>, i: int) -> bool {
    forall|j: int| 0 <= j < i ==> !trouble_at(cas, items, j)
}

/// When a commit happens: the log is where the caller expects it, LSNs
/// last, and every item can be committed when its turn comes.
pub open spec fn write_certain(s: StoreState, base_lsn: u64, items: Seq<RedoItem>) -> bool {
    &&& base_lsn == max_lsn(s.redo)
    &&& base_lsn + items.len() <= u64::MAX
    &&& forall|i: int| 0 <= i < items.len() ==> !trouble_at(s.cas, items, i)
}

proof fn lemma_cas_lookup(rows: Seq<CasEntry>, i: int)
    requires
        distinct(rows),
        0 <= i < rows.len(),
    ensures
        cas_map(rows).contains_key(rows[i].hash@),
        cas_map(rows)[rows[i].hash@] == entry_block(rows[i]),
{
    let h = rows[i].hash@;
    let j = slot_of(rows, h);
    assert(holds(rows, h));
    if j < i {
    } else if i < j {
    }
}

proof fn lemma_cas_push(rows: Seq<CasEntry>, e: CasEntry)
    requires
        distinct(rows),
        !holds(rows, e.hash@),
    ensures
        distinct(rows.push(e)),
        cas_map(rows.push(e)) =~= cas_map(rows).insert(e.hash@, entry_block(e)),
{
    let next = rows.push(e);
    assert forall|i: int, j: int| 0 <= i < j < next.len() implies next[i].hash@ != next[j].hash@ by {
        assert(next[i] == rows[i]);
        if j < rows.len() {
            assert(next[j] == rows[j]);
        }
    }
    let a = cas_map(next);
    let b = cas_map(rows).insert(e.hash@, entry_block(e));
    assert forall|h: Seq<u8>| a.contains_key(h) == b.contains_key(h) by {
        if holds(next, h) {
            let i = slot_of(next, h);
            if i < rows.len() {
                assert(rows[i] == next[i]);
            }
        }
        if holds(rows, h) {
            let i = slot_of(rows, h);
            assert(next[i] == rows[i]);
        }
        if h == e.hash@ {
            assert(next[rows.len() as int] == e);
        }
    }
    assert forall|h: Seq<u8>| a.contains_key(h) implies a[h] == b[h] by {
        if h == e.hash@ {
            assert(next[rows.len() as int] == e);
            lemma_cas_lookup(next, rows.len() as int);
        } else {
            let i = slot_of(rows, h);
            assert(next[i] == rows[i]);
            lemma_cas_lookup(next, i);
            lemma_cas_lookup(rows, i);
        }
    }
}

proof fn lemma_points_filter_ordered(points: Seq<ConsistentPoint>, keep: spec_fn(ConsistentPoint) -> bool)
    requires
        points_ordered(points),
    ensures
        points_ordered(points.filter(keep)),
        forall|k: int|
            0 <= k < points.filter(keep).len() ==> exists|i: int|
                0 <= i < points.len() && points[i] == #[trigger] points.filter(keep)[k],
    decreases points.len(),
{
    reveal(Seq::filter);
    if points.len() > 0 {
        let head = points.drop_last();
        lemma_points_filter_ordered(head, keep);
        let fh = head.filter(keep);
        let f = points.filter(keep);
        assert forall|k: int| 0 <= k < fh.len() implies fh[k].lsn < points.last().lsn && exists|i: int|
            0 <= i < points.len() && points[i] == #[trigger] fh[k] by {
            let i = choose|i: int| 0 <= i < head.len() && head[i] == fh[k];
            assert(points[i] == fh[k]);
        }
        if keep(points.last()) {
            assert(f == fh.push(points.last()));
            assert forall|k: int| 0 <= k < f.len() implies exists|i: int|
                0 <= i < points.len() && points[i] == #[trigger] f[k] by {
                if k < fh.len() {
                    assert(f[k] == fh[k]);
                } else {
                    assert(points[points.len() - 1] == f[k]);
                }
            }
            assert forall|i: int, j: int| 0 <= i < j < f.len() implies f[i].lsn < f[j].lsn by {
                assert(f[i] == fh[i]);
                if j < fh.len() {
                    assert(f[j] == fh[j]);
                }
            }
        } else {
            assert(f == fh);
        }
    }
}

proof fn lemma_point_slot(points: Seq<ConsistentPoint>, lsn: u64, k: int)
    requires
        points_ordered(points),
        0 <= k <= points.len(),
        forall|i: int| 0 <= i < k ==> (#[trigger] points[i]).lsn < lsn,
        forall|i: int| k <= i < points.len() ==> (#[trigger] points[i]).lsn >= lsn,
    ensures
        point_slot(points, lsn) == k,
        has_point(points, lsn) <==> (k < points.len() && points[k].lsn == lsn),
    decreases points.len(),
{
    if points.len() == 0 {
    } else if points.last().lsn < lsn {
        if k < points.len() {
            assert(points[points.len() - 1].lsn >= lsn);
        }
    } else {
        let head = points.drop_last();
        assert(k < points.len()) by {
            if k == points.len() {
                assert(points[points.len() - 1].lsn < lsn);
            }
        }
        assert forall|i: int| 0 <= i < k implies (#[trigger] head[i]).lsn < lsn by {
            assert(head[i] == points[i]);
        }
        assert forall|i: int| k <= i < head.len() implies (#[trigger] head[i]).lsn >= lsn by {
            assert(head[i] == points[i]);
        }
        lemma_point_slot(head, lsn, k);
    }
    if has_point(points, lsn) {
        let i = choose|i: int| 0 <= i < points.len() && #[trigger] points[i].lsn == lsn;
        if i < k {
            assert(points[i].lsn < lsn);
        } else if i > k {
            assert(points[k].lsn >= lsn);
        }
    }
    if k < points.len() && points[k].lsn == lsn {
        assert(has_point(points, lsn));
    }
}

/// The position of a digest among stored entries.
fn find_block(rows: &Vec<CasEntry>, hash: &[u8; 32]) -> (r: Option<usize>)
    ensures
        match r {
            Some(i) => i < rows@.len() && rows@[i as int].hash@ == hash@,
            None => !holds(rows@, hash@),
        },
{
    let mut i: usize = 0;
    while i < rows.len()
        invariant
            i <= rows@.len(),
            forall|j: int| 0 <= j < i ==> (#[trigger] rows@[j]).hash@ != hash@,
        decreases rows.len() - i,
    {
        if hash_eq(&rows[i].hash, hash) {
            return Some(i);
        }
        i += 1;
    }
    None
}

/// Whether the log refers to a digest.
fn is_referenced(redo: &Vec<RedoEntry>, hash: &[u8; 32]) -> (r: bool)
    ensures
        r == referenced(redo_rows(redo@)).contains(hash@),
{
    let mut i: usize = 0;
    while i < redo.len()
        invariant
            i <= redo@.len(),
            forall|j: int| 0 <= j < i ==> (#[trigger] redo_rows(redo@)[j]).hash != hash@,
        decreases redo.len() - i,
    {
        if hash_eq(&redo[i].hash, hash) {
            assert(redo_rows(redo@)[i as int].hash == hash@);
            return true;
        }
        i += 1;
    }
    false
}

/// The store.
pub struct Database {
    instance_id: String,
    cas: Vec<CasEntry>,
    redo: Vec<RedoEntry>,
    points: Vec<ConsistentPoint>,
}

impl View for Database {
    type V = StoreState;

    closed spec fn view(&self) -> StoreState {
        StoreState { cas: cas_map(self.cas@), redo: redo_rows(self.redo@), points: self.points@ }
    }
}

impl Database {
    /// The invariants of the store and of how it is held.
    pub closed spec fn wf(&self) -> bool {
        &&& distinct(self.cas@)
        &&& decodable(self.cas@)
        &&& self@.wf()
    }

    /// The identifier that the store was created with.
    pub closed spec fn id(&self) -> Seq<char> {
        self.instance_id@
    }

    /// A well-formed store has a well-formed state.
    pub proof fn lemma_wf(&self)
        requires
            self.wf(),
        ensures
            self@.wf(),
    {
    }

    /// An empty store.
    pub fn new(instance_id: String) -> (db: Database)
        ensures
            db.wf(),
            db@ == StoreState::empty(),
            db.id() == instance_id@,
    {
        let db = Database { instance_id, cas: Vec::new(), redo: Vec::new(), points: Vec::new() };
        assert(db@.cas =~= Map::empty());
        assert(db@.redo =~= Seq::empty());
        db
    }

    pub fn instance_id(&self) -> (r: &str)
        ensures
            r@ == self.id(),
    {
        self.instance_id.as_str()
    }

    /// The largest LSN of the log, 0 when the log is empty.
    pub fn max_lsn(&self) -> (r: u64)
        ensures
            r == max_lsn(self@.redo),
    {
        let n = self.redo.len();
        if n == 0 {
            0
        } else {
            self.redo[n - 1].lsn
        }
    }

    /// Whether a block with this digest is stored.
    pub fn exists_in_cas(&self, hash: &[u8; 32]) -> (r: bool)
        ensures
            r == self@.cas.contains_key(hash@),
    {
        find_block(&self.cas, hash).is_some()
    }

    /// The block stored under a digest, decompressed.
    pub fn cas_get(&self, hash: &[u8; 32]) -> (r: Option<Vec<u8>>)
        requires
            self.wf(),
        ensures
            match r {
                Some(v) => self@.cas.contains_key(hash@) && self@.cas[hash@] == v@ && v@.len() == LOG_BLOCK_SIZE,
                None => !self@.cas.contains_key(hash@),
            },
    {
        match find_block(&self.cas, hash) {
            None => None,
            Some(i) => {
                proof {
                    lemma_cas_lookup(self.cas@, i as int);
                    assert(self@.cas.contains_key(hash@));
                    assert(self@.cas[hash@].len() == LOG_BLOCK_SIZE);
                }
                let e = &self.cas[i];
                if e.compressed {
                    match zstd_decode(e.content.as_slice()) {
                        Ok(v) => Some(v),
                        Err(_) => vstd::pervasive::unreached(),
                    }
                } else {
                    Some(e.content.clone())
                }
            },
        }
    }

    /// Stores a block under its digest, padded to a full block and
    /// compressed, unless a block is stored under that digest. Tells
    /// whether it stored the block. A digest that is not that of the padded
    /// block is refused.
    pub fn cas_put(&mut self, hash: [u8; 32], bytes: &[u8]) -> (r: Result<bool, DbError>)
        requires
            old(self).wf(),
            bytes@.len() <= LOG_BLOCK_SIZE,
        ensures
            final(self).wf(),
            final(self).id() == old(self).id(),
            final(self)@.redo == old(self)@.redo,
            final(self)@.points == old(self)@.points,
            match r {
                Ok(stored) => {
                    &&& stored == !old(self)@.cas.contains_key(hash@)
                    &&& final(self)@.cas == (if stored {
                        old(self)@.cas.insert(hash@, padded(bytes@, LOG_BLOCK_SIZE as nat))
                    } else {
                        old(self)@.cas
                    })
                },
                Err(e) => {
                    &&& final(self)@ == old(self)@
                    &&& !old(self)@.cas.contains_key(hash@)
                    &&& match e {
                        DbError::WrongHash => blake3_digest(padded(bytes@, LOG_BLOCK_SIZE as nat)) != hash@,
                        DbError::Compression => {
                            &&& blake3_digest(padded(bytes@, LOG_BLOCK_SIZE as nat)) == hash@
                            &&& zstd_frame(
                                padded(bytes@, LOG_BLOCK_SIZE as nat),
                                CAS_ZSTD_LEVEL as int,
                            ) is None
                        },
                        _ => false,
                    }
                },
            },
            r is Ok <==> old(self)@.cas.contains_key(hash@) || (blake3_digest(
                padded(bytes@, LOG_BLOCK_SIZE as nat),
            ) == hash@ && zstd_frame(padded(bytes@, LOG_BLOCK_SIZE as nat), CAS_ZSTD_LEVEL as int) is Some),
    {
        if find_block(&self.cas, &hash).is_some() {
            return Ok(false);
        }
        let block = align_block(bytes);
        let padded_bytes = block_bytes(&block);
        let own = blake3_hash(padded_bytes);
        if !hash_eq(&own, &hash) {
            return Err(DbError::WrongHash);
        }
        match zstd_encode(padded_bytes, CAS_ZSTD_LEVEL) {
            Ok(frame) => {
                let entry = CasEntry { hash, content: frame, compressed: true };
                let ghost before = self.cas@;
                proof {
                    lemma_cas_push(before, entry);
                }
                let ghost s0 = self@;
                self.cas.push(entry);
                proof {
                    assert forall|k: int|
                        0 <= k < self.cas@.len() && (#[trigger] self.cas@[k]).compressed implies zstd_content(
                        self.cas@[k].content@,
                    ) is Some by {
                        if k < before.len() {
                            assert(self.cas@[k] == before[k]);
                        }
                    }
                    let block = padded(bytes@, LOG_BLOCK_SIZE as nat);
                    assert(entry_block(entry) == block);
                    assert(self@.cas == s0.cas.insert(hash@, block));
                    assert forall|h: Seq<u8>| #[trigger] self@.cas.contains_key(h) implies self@.cas[h].len()
                        == LOG_BLOCK_SIZE && blake3_digest(self@.cas[h]) == h by {
                        if h != hash@ {
                            assert(s0.cas.contains_key(h));
                        }
                    }
                    assert forall|i: int| 0 <= i < self@.redo.len() implies self@.cas.contains_key(
                        #[trigger] self@.redo[i].hash,
                    ) by {
                        assert(s0.cas.contains_key(s0.redo[i].hash));
                    }
                }
                Ok(true)
            },
            Err(_) => Err(DbError::Compression),
        }
    }

    /// The consistent points, by increasing LSN.
    pub fn list_consistent_point(&self) -> (r: Vec<ConsistentPoint>)
        ensures
            r@ == self@.points,
    {
        let mut out: Vec<ConsistentPoint> = Vec::new();
        let mut i: usize = 0;
        while i < self.points.len()
            invariant
                i <= self.points@.len(),
                out@ == self.points@.take(i as int),
            decreases self.points.len() - i,
        {
            out.push(self.points[i]);
            assert(out@ =~= self.points@.take(i + 1));
            i += 1;
        }
        assert(out@ =~= self.points@);
        out
    }

    /// The consistent point with this LSN, if there is one.
    pub fn consistent_point(&self, lsn: u64) -> (r: Option<ConsistentPoint>)
        requires
            self.wf(),
        ensures
            r == point_at(self@.points, lsn),
    {
        let mut i: usize = 0;
        while i < self.points.len()
            invariant
                i <= self.points@.len(),
                points_ordered(self.points@),
                self@.points == self.points@,
                forall|j: int| 0 <= j < i ==> (#[trigger] self.points@[j]).lsn != lsn,
            decreases self.points.len() - i,
        {
            if self.points[i].lsn == lsn {
                proof {
                    let k = choose|k: int| 0 <= k < self.points@.len() && #[trigger] self.points@[k].lsn == lsn;
                    if k < i {
                    } else if i < k {
                        assert(self.points@[i as int].lsn < self.points@[k].lsn);
                    }
                }
                return Some(self.points[i]);
            }
            i += 1;
        }
        None
    }

    /// Records a consistent point, unless one with this LSN is recorded.
    pub fn add_consistent_point(&mut self, lsn: u64, size: u64, created_at: u64)
        requires
            old(self).wf(),
        ensures
            final(self).wf(),
            final(self).id() == old(self).id(),
            final(self)@.cas == old(self)@.cas,
            final(self)@.redo == old(self)@.redo,
            final(self)@.points == with_point(
                old(self)@.points,
                ConsistentPoint { lsn, size, created_at },
            ),
    {
        let ghost s0 = self@;
        let n = self.points.len();
        let mut k: usize = 0;
        while k < n && self.points[k].lsn < lsn
            invariant
                k <= n,
                n == self.points@.len(),
                forall|i: int| 0 <= i < k ==> (#[trigger] self.points@[i]).lsn < lsn,
            decreases n - k,
        {
            k += 1;
        }
        let ghost before = self.points@;
        proof {
            assert forall|i: int| k <= i < before.len() implies (#[trigger] before[i]).lsn >= lsn by {
                if i > k {
                    assert(before[k as int].lsn < before[i].lsn);
                }
            }
            lemma_point_slot(before, lsn, k as int);
        }
        if k < n && self.points[k].lsn == lsn {
            return ;
        }
        let p = ConsistentPoint { lsn, size, created_at };
        self.points.insert(k, p);
        proof {
            let after = self.points@;
            assert(after == before.insert(k as int, p));
            assert forall|i: int, j: int| 0 <= i < j < after.len() implies after[i].lsn < after[j].lsn by {
                let a = if i < k { i } else { i - 1 };
                let b = if j < k { j } else { j - 1 };
                if i != k {
                    assert(after[i] == before[a]);
                } else {
                    assert(after[i] == p);
                }
                if j != k {
                    assert(after[j] == before[b]);
                    if i == k {
                        assert(before[b].lsn >= lsn);
                        if b > k {
                            assert(before[k as int].lsn < before[b].lsn);
                        }
                    }
                } else {
                    assert(after[j] == p);
                    assert(before[a].lsn < lsn);
                }
            }
            assert(points_ordered(self@.points));
            assert(self@.cas == s0.cas);
            assert(self@.redo == s0.redo);
        }
    }

    /// The snapshot at `lsn`: for every block, its last entry at or before `lsn`.
    pub fn snapshot(&self, lsn: u64) -> (s: Snapshot)
        ensures
            s@ == self@.snapshot(lsn),
            s.lsn_spec() == lsn,
    {
        let ghost rows = redo_rows(self.redo@);
        let mut blocks: HashMap<u64, [u8; 32]> = HashMap::new();
        let n = self.redo.len();
        let mut i: usize = 0;
        while i < n
            invariant
                i <= n,
                n == self.redo@.len(),
                rows == redo_rows(self.redo@),
                forall|b: u64|
                    match #[trigger] latest_in(rows.take(i as int), -1, lsn as int, b) {
                        Some(r) => blocks@.contains_key(b) && blocks@[b]@ == r.hash,
                        None => !blocks@.contains_key(b),
                    },
            decreases n - i,
        {
            let e = self.redo[i];
            let ghost prefix = rows.take(i as int);
            let ghost next = rows.take(i + 1);
            assert(next.drop_last() =~= prefix);
            assert(next.last() == row_of(e));
            if e.lsn <= lsn {
                blocks.insert(e.block_id, e.hash);
            }
            assert forall|b: u64|
                match #[trigger] latest_in(next, -1, lsn as int, b) {
                    Some(r) => blocks@.contains_key(b) && blocks@[b]@ == r.hash,
                    None => !blocks@.contains_key(b),
                } by {
                let _ = latest_in(prefix, -1, lsn as int, b);
            }
            i += 1;
        }
        assert(rows.take(n as int) =~= rows);
        let zero_hash = compute_zero_block_hash();
        let s = Snapshot { lsn, blocks, zero_hash };
        assert(s@ =~= snapshot_view(rows, lsn));
        s
    }

    /// Commits a batch to the log, all of it or nothing. The log must stand
    /// at `base_lsn`. Each item is logged under the digest of its content
    /// padded to a full block, or under the digest it names; a block whose
    /// digest is new is stored, compressed; a named digest must be held
    /// when its turn comes. Returns the new largest LSN.
    pub fn write_redo<'a>(&mut self, base_lsn: u64, data: &[(u64, RedoContentOrHash<'a>)]) -> (r:
        Result<u64, DbError>)
        requires
            old(self).wf(),
            contents_fit(items_of(data@)),
        ensures
            final(self).wf(),
            final(self).id() == old(self).id(),
            match r {
                Ok(lsn) => {
                    &&& base_lsn == max_lsn(old(self)@.redo)
                    &&& complete(old(self)@.cas, items_of(data@))
                    &&& final(self)@ == old(self)@.committed(items_of(data@))
                    &&& lsn == max_lsn(final(self)@.redo)
                    &&& lsn == base_lsn + data@.len()
                },
                Err(e) => {
                    &&& final(self)@ == old(self)@
                    &&& write_failure(old(self)@, base_lsn, items_of(data@), e)
                },
            },
            r is Ok <==> write_certain(old(self)@, base_lsn, items_of(data@)),
    {
        let n = data.len();
        let prev = self.max_lsn();
        if prev != base_lsn {
            return Err(DbError::LsnMismatch(base_lsn, prev));
        }
        if n as u64 > u64::MAX - prev {
            return Err(DbError::LsnExhausted);
        }
        let cas_len = self.cas.len();
        let redo_len = self.redo.len();
        let ghost s0 = self@;
        let ghost cas0 = self.cas@;
        let ghost redo0 = self.redo@;
        let ghost items = items_of(data@);
        let mut i: usize = 0;
        assert(items.take(0) =~= Seq::empty());
        assert(redo_rows(redo0) + appended_rows(prev, items.take(0)) =~= redo_rows(redo0));
        while i < n
            invariant
                i <= n,
                n == data@.len(),
                items == items_of(data@),
                contents_fit(items),
                prev + n <= u64::MAX,
                prev == max_lsn(s0.redo),
                prev == base_lsn,
                s0.wf(),
                s0 == old(self)@,
                s0.cas == cas_map(cas0),
                s0.redo == redo_rows(redo0),
                s0.points == self.points@,
                self.instance_id@ == old(self).instance_id@,
                cas_len == cas0.len(),
                redo_len == redo0.len(),
                self.cas@.len() >= cas_len,
                self.cas@.take(cas_len as int) == cas0,
                distinct(self.cas@),
                decodable(self.cas@),
                cas_map(self.cas@) == committed_cas(s0.cas, items.take(i as int)),
                self.redo@.len() == redo_len + i,
                self.redo@.take(redo_len as int) == redo0,
                redo_rows(self.redo@) == s0.redo + appended_rows(prev, items.take(i as int)),
                first_trouble(s0.cas, items, i as int),
            decreases n - i,
        {
            let block_id = data[i].0;
            let body = data[i].1;
            let ghost held = committed_cas(s0.cas, items.take(i as int));
            let ghost next_items = items.take(i + 1);
            assert(next_items.drop_last() =~= items.take(i as int));
            assert(next_items.last() == items[i as int]);
            let hash: [u8; 32] = match body {
                RedoContentOrHash::Content(c) => {
                    assert(fits(items[i as int]));
                    let block = align_block(c);
                    let bytes = block_bytes(&block);
                    let h = blake3_hash(bytes);
                    assert(h@ == item_hash(items[i as int]));
                    if find_block(&self.cas, &h).is_none() {
                        match zstd_encode(bytes, CAS_ZSTD_LEVEL) {
                            Ok(frame) => {
                                let entry = CasEntry { hash: h, content: frame, compressed: true };
                                proof {
                                    lemma_cas_push(self.cas@, entry);
                                    assert(entry_block(entry) == padded(c@, LOG_BLOCK_SIZE as nat));
                                }
                                let ghost before = self.cas@;
                                self.cas.push(entry);
                                assert(self.cas@.take(cas_len as int) =~= before.take(cas_len as int));
                                assert forall|k: int|
                                    0 <= k < self.cas@.len() && (#[trigger] self.cas@[k]).compressed implies zstd_content(
                                    self.cas@[k].content@,
                                ) is Some by {
                                    if k < before.len() {
                                        assert(self.cas@[k] == before[k]);
                                    }
                                }
                            },
                            Err(_) => {
                                self.cas.truncate(cas_len);
                                self.redo.truncate(redo_len);
                                assert(self.cas@ =~= cas0);
                                assert(self.redo@ =~= redo0);
                                assert(self@ =~= s0);
                                assert(uncompressible_at(s0.cas, items, i as int));
                                assert(trouble_at(s0.cas, items, i as int));
                                return Err(DbError::Compression);
                            },
                        }
                    }
                    h
                },
                RedoContentOrHash::Hash(h) => {
                    assert(h@ == item_hash(items[i as int]));
                    if find_block(&self.cas, &h).is_none() {
                        self.cas.truncate(cas_len);
                        self.redo.truncate(redo_len);
                        assert(self.cas@ =~= cas0);
                        assert(self.redo@ =~= redo0);
                        assert(self@ =~= s0);
                        assert(missing_at(s0.cas, items, i as int));
                        assert(trouble_at(s0.cas, items, i as int));
                        let text = hex_encode(h.as_slice());
                        return Err(DbError::MissingHash(text));
                    }
                    h
                },
            };
            assert(cas_map(self.cas@) == committed_cas(s0.cas, next_items));
            assert(!trouble_at(s0.cas, items, i as int));
            let ghost rows_before = redo_rows(self.redo@);
            let ghost redo_before = self.redo@;
            let entry = RedoEntry { lsn: prev + 1 + i as u64, block_id, hash };
            self.redo.push(entry);
            proof {
                assert(self.redo@.take(redo_len as int) =~= redo_before.take(redo_len as int));
                assert(redo_rows(self.redo@) =~= rows_before.push(row_of(entry)));
                assert(appended_rows(prev, next_items) =~= appended_rows(
                    prev,
                    items.take(i as int),
                ).push(row_of(entry)));
                assert(redo_rows(self.redo@) =~= s0.redo + appended_rows(prev, next_items));
            }
            i += 1;
        }
        proof {
            assert(items.take(n as int) =~= items);
            assert forall|j: int| 0 <= j < items.len() implies !missing_at(s0.cas, items, j) by {
                assert(!trouble_at(s0.cas, items, j));
            }
            lemma_commit_wf(s0, items);
            assert(self@ == s0.committed(items));
        }
        Ok(prev + n as u64)
    }

    /// Squashes the history in `(start_lsn, end_lsn]`: of every block only
    /// the last entry in that range stays, and the consistent points
    /// strictly between the two ends go. Stored blocks are left alone.
    pub fn squash(&mut self, start_lsn: u64, end_lsn: u64)
        requires
            old(self).wf(),
        ensures
            final(self).wf(),
            final(self).id() == old(self).id(),
            final(self)@ == old(self)@.squashed(start_lsn, end_lsn),
            max_lsn(final(self)@.redo) == max_lsn(old(self)@.redo),
    {
        let ghost s0 = self@;
        let ghost rows = redo_rows(self.redo@);
        let ghost keep = survivor(rows, start_lsn, end_lsn);
        let n = self.redo.len();
        let mut last: HashMap<u64, u64> = HashMap::new();
        let mut i: usize = 0;
        while i < n
            invariant
                i <= n,
                n == self.redo@.len(),
                rows == redo_rows(self.redo@),
                forall|b: u64|
                    match #[trigger] latest_in(rows.take(i as int), start_lsn as int, end_lsn as int, b) {
                        Some(r) => last@.contains_key(b) && last@[b] == r.lsn,
                        None => !last@.contains_key(b),
                    },
            decreases n - i,
        {
            let e = self.redo[i];
            let ghost prefix = rows.take(i as int);
            let ghost next = rows.take(i + 1);
            assert(next.drop_last() =~= prefix);
            assert(next.last() == row_of(e));
            if start_lsn < e.lsn && e.lsn <= end_lsn {
                last.insert(e.block_id, e.lsn);
            }
            assert forall|b: u64|
                match #[trigger] latest_in(next, start_lsn as int, end_lsn as int, b) {
                    Some(r) => last@.contains_key(b) && last@[b] == r.lsn,
                    None => !last@.contains_key(b),
                } by {
                let _ = latest_in(prefix, start_lsn as int, end_lsn as int, b);
            }
            i += 1;
        }
        assert(rows.take(n as int) =~= rows);
        let mut kept: Vec<RedoEntry> = Vec::new();
        let mut k: usize = 0;
        assert(rows.take(0).filter(keep) =~= Seq::empty()) by {
            reveal(Seq::filter);
        }
        while k < n
            invariant
                k <= n,
                n == self.redo@.len(),
                rows == redo_rows(self.redo@),
                ordered(rows),
                keep == survivor(rows, start_lsn, end_lsn),
                redo_rows(kept@) == rows.take(k as int).filter(keep),
                forall|b: u64|
                    match #[trigger] latest_in(rows, start_lsn as int, end_lsn as int, b) {
                        Some(r) => last@.contains_key(b) && last@[b] == r.lsn,
                        None => !last@.contains_key(b),
                    },
            decreases n - k,
        {
            let e = self.redo[k];
            let in_range = start_lsn < e.lsn && e.lsn <= end_lsn;
            let stays = if in_range {
                match last.get(&e.block_id) {
                    Some(l) => *l == e.lsn,
                    None => false,
                }
            } else {
                true
            };
            proof {
                let r = row_of(e);
                assert(rows[k as int] == r);
                lemma_latest(rows, start_lsn as int, end_lsn as int, e.block_id);
                match latest_in(rows, start_lsn as int, end_lsn as int, e.block_id) {
                    Some(top) => {
                        let j = choose|j: int| 0 <= j < rows.len() && rows[j] == top;
                        if top.lsn == r.lsn {
                            if j < k {
                            } else if k < j {
                            }
                        }
                    },
                    None => {},
                }
                assert(stays == survives(rows, start_lsn, end_lsn, r));
                assert(rows.take(k + 1) =~= rows.take(k as int).push(r));
                rows.take(k as int).lemma_filter_push(r, keep);
            }
            if stays {
                let ghost before = kept@;
                kept.push(e);
                assert(redo_rows(kept@) =~= redo_rows(before).push(row_of(e)));
            }
            k += 1;
        }
        self.redo = kept;
        let m = self.points.len();
        let ghost points0 = self.points@;
        let ghost stay = outside(start_lsn, end_lsn);
        let mut remaining: Vec<ConsistentPoint> = Vec::new();
        let mut j: usize = 0;
        assert(points0.take(0).filter(stay) =~= Seq::empty()) by {
            reveal(Seq::filter);
        }
        while j < m
            invariant
                j <= m,
                m == self.points@.len(),
                points0 == self.points@,
                stay == outside(start_lsn, end_lsn),
                remaining@ == points0.take(j as int).filter(stay),
            decreases m - j,
        {
            let p = self.points[j];
            proof {
                assert(points0.take(j + 1) =~= points0.take(j as int).push(p));
                points0.take(j as int).lemma_filter_push(p, stay);
            }
            if !(start_lsn < p.lsn && p.lsn < end_lsn) {
                remaining.push(p);
            }
            j += 1;
        }
        self.points = remaining;
        proof {
            assert(points0.take(m as int) =~= points0);
            let f = squashed_redo(rows, start_lsn, end_lsn);
            lemma_filter_ordered(rows, keep);
            lemma_squash_keeps_max_lsn(rows, start_lsn, end_lsn);
            lemma_points_filter_ordered(points0, stay);
            assert forall|x: int| 0 <= x < f.len() implies s0.cas.contains_key(#[trigger] f[x].hash) by {
                let y = choose|y: int| 0 <= y < rows.len() && rows[y] == f[x];
                assert(s0.cas.contains_key(rows[y].hash));
            }
            assert(self@ == s0.squashed(start_lsn, end_lsn));
        }
    }

    /// Drops the stored blocks that the log does not refer to.
    pub fn cas_gc(&mut self)
        requires
            old(self).wf(),
        ensures
            final(self).wf(),
            final(self).id() == old(self).id(),
            final(self)@ == old(self)@.collected(),
    {
        let ghost s0 = self@;
        let ghost rows0 = self.cas@;
        let mut rows: Vec<CasEntry> = Vec::new();
        std::mem::swap(&mut self.cas, &mut rows);
        let mut kept: Vec<CasEntry> = Vec::new();
        while rows.len() > 0
            invariant
                rows@.len() <= rows0.len(),
                rows@ == rows0.take(rows@.len() as int),
                distinct(rows0),
                decodable(rows0),
                distinct(kept@),
                decodable(kept@),
                s0.redo == redo_rows(self.redo@),
                forall|k: int|
                    0 <= k < kept@.len() ==> referenced(s0.redo).contains((#[trigger] kept@[k]).hash@)
                        && exists|j: int| rows@.len() <= j < rows0.len() && rows0[j] == kept@[k],
                forall|j: int|
                    rows@.len() <= j < rows0.len() && referenced(s0.redo).contains(
                        (#[trigger] rows0[j]).hash@,
                    ) ==> exists|k: int| 0 <= k < kept@.len() && kept@[k] == rows0[j],
            decreases rows.len(),
        {
            let ghost before = rows@;
            let ghost kept_before = kept@;
            let e = rows.pop().unwrap();
            let ghost at = rows@.len() as int;
            assert(e == rows0[at]);
            assert(rows@ =~= rows0.take(at));
            if is_referenced(&self.redo, &e.hash) {
                kept.push(e);
                proof {
                    assert forall|a: int, b: int| 0 <= a < b < kept@.len() implies kept@[a].hash@
                        != kept@[b].hash@ by {
                        assert(kept@[a] == kept_before[a]);
                        if b < kept_before.len() {
                            assert(kept@[b] == kept_before[b]);
                        } else {
                            let j = choose|j: int|
                                before.len() <= j < rows0.len() && rows0[j] == kept_before[a];
                            assert(rows0[at].hash@ != rows0[j].hash@);
                        }
                    }
                    assert forall|k: int|
                        0 <= k < kept@.len() && (#[trigger] kept@[k]).compressed implies zstd_content(
                        kept@[k].content@,
                    ) is Some by {
                        if k < kept_before.len() {
                            assert(kept@[k] == kept_before[k]);
                        } else {
                            assert(rows0[at].compressed);
                        }
                    }
                    assert forall|k: int| 0 <= k < kept@.len() implies referenced(s0.redo).contains(
                        (#[trigger] kept@[k]).hash@,
                    ) && exists|j: int| rows@.len() <= j < rows0.len() && rows0[j] == kept@[k] by {
                        if k < kept_before.len() {
                            assert(kept@[k] == kept_before[k]);
                            let j = choose|j: int|
                                before.len() <= j < rows0.len() && rows0[j] == kept_before[k];
                            assert(rows0[j] == kept@[k]);
                        } else {
                            assert(rows0[at] == kept@[k]);
                        }
                    }
                    assert forall|j: int|
                        rows@.len() <= j < rows0.len() && referenced(s0.redo).contains(
                            (#[trigger] rows0[j]).hash@,
                        ) implies exists|k: int| 0 <= k < kept@.len() && kept@[k] == rows0[j] by {
                        if j == at {
                            assert(kept@[kept_before.len() as int] == rows0[j]);
                        } else {
                            let k = choose|k: int|
                                0 <= k < kept_before.len() && kept_before[k] == rows0[j];
                            assert(kept@[k] == rows0[j]);
                        }
                    }
                }
            } else {
                proof {
                    assert forall|k: int| 0 <= k < kept@.len() implies referenced(s0.redo).contains(
                        (#[trigger] kept@[k]).hash@,
                    ) && exists|j: int| rows@.len() <= j < rows0.len() && rows0[j] == kept@[k] by {
                        let j = choose|j: int|
                            before.len() <= j < rows0.len() && rows0[j] == kept@[k];
                        assert(rows0[j] == kept@[k]);
                    }
                }
            }
        }
        self.cas = kept;
        proof {
            let a = cas_map(self.cas@);
            let b = s0.cas.restrict(referenced(s0.redo));
            assert forall|h: Seq<u8>| a.contains_key(h) == b.contains_key(h) by {
                if holds(self.cas@, h) {
                    let k = slot_of(self.cas@, h);
                    let j = choose|j: int| 0 <= j < rows0.len() && rows0[j] == self.cas@[k];
                    assert(holds(rows0, h));
                }
                if holds(rows0, h) && referenced(s0.redo).contains(h) {
                    let j = slot_of(rows0, h);
                    let k = choose|k: int| 0 <= k < self.cas@.len() && self.cas@[k] == rows0[j];
                    assert(holds(self.cas@, h));
                }
            }
            assert forall|h: Seq<u8>| a.contains_key(h) implies a[h] == b[h] by {
                let k = slot_of(self.cas@, h);
                let j = choose|j: int| 0 <= j < rows0.len() && rows0[j] == self.cas@[k];
                lemma_cas_lookup(self.cas@, k);
                lemma_cas_lookup(rows0, j);
            }
            assert(a =~= b);
            assert forall|i: int| 0 <= i < s0.redo.len() implies a.contains_key(#[trigger] s0.redo[i].hash) by {
                assert(referenced(s0.redo).contains(s0.redo[i].hash));
            }
        }
    }
}

/// Whether a stored entry stands for a full block that has the digest it is
/// stored under.
pub open spec fn block_sound(e: CasEntry) -> bool {
    entry_block(e).len() == LOG_BLOCK_SIZE && blake3_digest(entry_block(e)) == e.hash@
}

/// Whether rows read from storage make a store: no digest stored twice,
/// every block a full block under its own digest, the log in LSN order from
/// 1 up and made of stored digests only, the consistent points in LSN order.
pub open spec fn restorable(cas: Seq<CasEntry>, redo: Seq<RedoEntry>, points: Seq<ConsistentPoint>) -> bool {
    &&& distinct(cas)
    &&& decodable(cas)
    &&& forall|i: int| 0 <= i < cas.len() ==> block_sound(#[trigger] cas[i])
    &&& ordered(redo_rows(redo))
    &&& forall|i: int| 0 <= i < redo.len() ==> holds(cas, (#[trigger] redo[i]).hash@)
    &&& points_ordered(points)
}

fn blocks_sound(cas: &Vec<CasEntry>) -> (r: bool)
    ensures
        r == (distinct(cas@) && decodable(cas@) && forall|i: int|
            0 <= i < cas@.len() ==> block_sound(#[trigger] cas@[i])),
{
    let mut i: usize = 0;
    while i < cas.len()
        invariant
            i <= cas@.len(),
            forall|a: int, b: int| 0 <= a < b < i ==> cas@[a].hash@ != cas@[b].hash@,
            forall|a: int| 0 <= a < i && (#[trigger] cas@[a]).compressed ==> zstd_content(cas@[a].content@) is Some,
            forall|a: int| 0 <= a < i ==> block_sound(#[trigger] cas@[a]),
        decreases cas.len() - i,
    {
        let e = &cas[i];
        let sound = if e.compressed {
            match zstd_decode(e.content.as_slice()) {
                Ok(v) => v.len() == LOG_BLOCK_SIZE && hash_eq(&blake3_hash(v.as_slice()), &e.hash),
                Err(_) => {
                    assert(cas@[i as int].compressed);
                    return false;
                },
            }
        } else {
            e.content.len() == LOG_BLOCK_SIZE && hash_eq(&blake3_hash(e.content.as_slice()), &e.hash)
        };
        if !sound {
            assert(!block_sound(cas@[i as int]));
            return false;
        }
        let mut j: usize = 0;
        while j < i
            invariant
                j <= i < cas@.len(),
                forall|a: int| 0 <= a < j ==> cas@[a].hash@ != cas@[i as int].hash@,
            decreases i - j,
        {
            if hash_eq(&cas[j].hash, &cas[i].hash) {
                return false;
            }
            j += 1;
        }
        i += 1;
    }
    true
}

fn log_sound(cas: &Vec<CasEntry>, redo: &Vec<RedoEntry>) -> (r: bool)
    ensures
        r == (ordered(redo_rows(redo@)) && forall|i: int|
            0 <= i < redo@.len() ==> holds(cas@, (#[trigger] redo@[i]).hash@)),
{
    let ghost rows = redo_rows(redo@);
    let mut i: usize = 0;
    while i < redo.len()
        invariant
            i <= redo@.len(),
            rows == redo_rows(redo@),
            forall|a: int, b: int| 0 <= a < b < i ==> rows[a].lsn < rows[b].lsn,
            forall|a: int| 0 <= a < i ==> rows[a].lsn >= 1,
            forall|a: int| 0 <= a < i ==> holds(cas@, (#[trigger] redo@[a]).hash@),
        decreases redo.len() - i,
    {
        let e = redo[i];
        if e.lsn < 1 {
            assert(rows[i as int].lsn < 1);
            return false;
        }
        if i > 0 && redo[i - 1].lsn >= e.lsn {
            assert(!(rows[i - 1].lsn < rows[i as int].lsn));
            return false;
        }
        if find_block(cas, &e.hash).is_none() {
            return false;
        }
        proof {
            assert forall|a: int, b: int| 0 <= a < b < i + 1 implies rows[a].lsn < rows[b].lsn by {
                if b == i && a < i - 1 {
                    assert(rows[a].lsn < rows[i - 1].lsn);
                }
            }
        }
        i += 1;
    }
    true
}

fn points_sound(points: &Vec<ConsistentPoint>) -> (r: bool)
    ensures
        r == points_ordered(points@),
{
    let mut i: usize = 1;
    while i < points.len()
        invariant
            1 <= i,
            forall|a: int, b: int| 0 <= a < b < i && b < points@.len() ==> points@[a].lsn < points@[b].lsn,
        decreases points.len() - i,
    {
        if points[i - 1].lsn >= points[i].lsn {
            assert(!(points@[i - 1].lsn < points@[i as int].lsn));
            return false;
        }
        proof {
            assert forall|a: int, b: int| 0 <= a < b < i + 1 && b < points@.len() implies points@[a].lsn
                < points@[b].lsn by {
                if b == i && a < i - 1 {
                    assert(points@[a].lsn < points@[i - 1].lsn);
                }
            }
        }
        i += 1;
    }
    true
}

impl Database {
    /// Makes a store of rows read from storage, if they make one.
    pub fn restore(
        instance_id: String,
        cas: Vec<CasEntry>,
        redo: Vec<RedoEntry>,
        points: Vec<ConsistentPoint>,
    ) -> (r: Option<Database>)
        ensures
            r is Some <==> restorable(cas@, redo@, points@),
            r matches Some(db) ==> {
                &&& db.wf()
                &&& db.id() == instance_id@
                &&& db@ == (StoreState { cas: cas_map(cas@), redo: redo_rows(redo@), points: points@ })
            },
    {
        if !blocks_sound(&cas) || !log_sound(&cas, &redo) || !points_sound(&points) {
            return None;
        }
        let db = Database { instance_id, cas, redo, points };
        proof {
            assert forall|h: Seq<u8>| #[trigger] db@.cas.contains_key(h) implies db@.cas[h].len()
                == LOG_BLOCK_SIZE && blake3_digest(db@.cas[h]) == h by {
                let i = slot_of(db.cas@, h);
                assert(block_sound(db.cas@[i]));
            }
            assert forall|i: int| 0 <= i < db@.redo.len() implies db@.cas.contains_key(
                #[trigger] db@.redo[i].hash,
            ) by {
                assert(holds(db.cas@, db.redo@[i].hash@));
            }
        }
        Some(db)
    }

    /// The stored blocks, as they go to storage.
    pub fn cas_entries(&self) -> (r: &Vec<CasEntry>)
        ensures
            cas_map(r@) == self@.cas,
    {
        &self.cas
    }

    /// The log, as it goes to storage.
    pub fn redo_entries(&self) -> (r: &Vec<RedoEntry>)
        ensures
            redo_rows(r@) == self@.redo,
    {
        &self.redo
    }
}

/// The versions of the schema, oldest first.
pub const SCHEMA_VERSIONS: [u64; 3] = [1, 2, 3];

/// Why a store cannot be brought to the current schema.
#[derive(Clone, Copy, Debug, PartialEq, Eq, Structural)]
pub enum MigrationError {
    /// The recorded version is no number.
    BadVersion,
    /// The database schema version is newer than the supported version.
    SchemaTooNew,
}

impl MigrationError {
    /// What the error says.
    pub open spec fn text(self) -> Seq<char> {
        match self {
            MigrationError::BadVersion => "migration failed: the recorded schema version is not a number"@,
            MigrationError::SchemaTooNew => "migration failed: database schema version is newer than the supported version"@,
        }
    }

    pub fn message(&self) -> (r: String)
        ensures
            r@ == self.text(),
    {
        match self {
            MigrationError::BadVersion => String::from_str(
                "migration failed: the recorded schema version is not a number",
            ),
            MigrationError::SchemaTooNew => String::from_str(
                "migration failed: database schema version is newer than the supported version",
            ),
        }
    }
}

/// The versions that a store at version `current` has to be migrated
/// through, oldest first: every known version above it.
pub open spec fn pending_versions(current: u64) -> Seq<u64> {
    SCHEMA_VERSIONS@.filter(|v: u64| v > current)
}

/// Decides which migrations a store needs, from the version it records;
/// a store that records none is at version 0.
pub fn run_migration(recorded: Option<&[u8]>) -> (r: Result<Vec<u64>, MigrationError>)
    ensures
        match recorded {
            None => r matches Ok(v) && v@ == pending_versions(0),
            Some(text) => match parsed_number(text@) {
                None => r == Err::<Vec<u64>, MigrationError>(MigrationError::BadVersion),
                Some(current) => if current > 3 {
                    r == Err::<Vec<u64>, MigrationError>(MigrationError::SchemaTooNew)
                } else {
                    r matches Ok(v) && v@ == pending_versions(current)
                },
            },
        },
{
    let current: u64 = match recorded {
        None => 0,
        Some(text) => match parse_number(text) {
            Some(n) => n,
            None => {
                return Err(MigrationError::BadVersion);
            },
        },
    };
    let latest = SCHEMA_VERSIONS[2];
    if current > latest {
        return Err(MigrationError::SchemaTooNew);
    }
    let ghost keep = |v: u64| v > current;
    let mut out: Vec<u64> = Vec::new();
    let mut i: usize = 0;
    assert(SCHEMA_VERSIONS@.take(0).filter(keep) =~= Seq::<u64>::empty()) by {
        reveal(Seq::filter);
    }
    while i < 3
        invariant
            i <= 3,
            SCHEMA_VERSIONS@.len() == 3,
            keep == (|v: u64| v > current),
            out@ == SCHEMA_VERSIONS@.take(i as int).filter(keep),
        decreases 3 - i,
    {
        let v = SCHEMA_VERSIONS[i];
        proof {
            assert(SCHEMA_VERSIONS@.take(i + 1) =~= SCHEMA_VERSIONS@.take(i as int).push(v));
            SCHEMA_VERSIONS@.take(i as int).lemma_filter_push(v, keep);
        }
        if v > current {
            out.push(v);
        }
        i += 1;
    }
    assert(SCHEMA_VERSIONS@.take(3) =~= SCHEMA_VERSIONS@);
    Ok(out)
}

/// The blocks of an image at one LSN, by digest.
pub struct Snapshot {
    lsn: u64,
    blocks: HashMap<u64, [u8; 32]>,
    zero_hash: [u8; 32],
}

impl View for Snapshot {
    type V = Map<u64, Seq<u8>>;

    closed spec fn view(&self) -> Map<u64, Seq<u8>> {
        Map::new(|b: u64| self.blocks@.contains_key(b), |b: u64| self.blocks@[b]@)
    }
}

impl Snapshot {
    #[verifier::type_invariant]
    spec fn inv(&self) -> bool {
        self.zero_hash@ == zero_block_hash()
    }

    /// The LSN that the snapshot was taken at.
    pub closed spec fn lsn_spec(&self) -> u64 {
        self.lsn
    }

    pub fn lsn(&self) -> (r: u64)
        ensures
            r == self.lsn_spec(),
    {
        self.lsn
    }

    /// The digest recorded for a block, if the log mentions the block.
    pub fn read_block_hash(&self, block_id: u64) -> (r: Option<[u8; 32]>)
        ensures
            match r {
                Some(h) => self@.contains_key(block_id) && self@[block_id] == h@,
                None => !self@.contains_key(block_id),
            },
    {
        match self.blocks.get(&block_id) {
            Some(h) => Some(*h),
            None => None,
        }
    }

    /// The digest of a block, a block that the log does not mention being zero.
    pub fn block_hash_or_zero(&self, block_id: u64) -> (r: [u8; 32])
        ensures
            r@ == hash_or_zero(self@, block_id),
    {
        proof {
            use_type_invariant(self);
        }
        match self.blocks.get(&block_id) {
            Some(h) => *h,
            None => self.zero_hash,
        }
    }

    /// The stored content of a block. There is none for a block that the log
    /// does not mention, for one logged with the digest of the zero block,
    /// and for one whose content is no longer stored: such a block reads as
    /// zeros.
    pub fn read_block(&self, db: &Database, block_id: u64) -> (r: Option<Vec<u8>>)
        requires
            db.wf(),
        ensures
            match r {
                Some(v) => stored_block(db@.cas, self@, block_id) == Some(v@),
                None => stored_block(db@.cas, self@, block_id) is None,
            },
            r is Some ==> r.unwrap()@.len() == LOG_BLOCK_SIZE,
    {
        proof {
            use_type_invariant(self);
        }
        let hash = match self.read_block_hash(block_id) {
            Some(h) => h,
            None => {
                return None;
            },
        };
        if hash_eq(&hash, &self.zero_hash) {
            return None;
        }
        proof {
            db.lemma_wf();
        }
        db.cas_get(&hash)
    }
}

} // verus!
