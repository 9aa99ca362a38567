//! The store as mathematics: the redo log, the content-addressed blocks and
//! the consistent points, with what a snapshot, a commit and a squash mean.

use vstd::prelude::*;
use crate::blob::{zero_block, zero_block_hash};
use crate::config::LOG_BLOCK_SIZE;
use crate::digest::blake3_digest;
use crate::util::padded;

verus! {

/// One version of an image that a pull completed.
#[derive(Clone, Copy, Debug, PartialEq, Eq, Structural)]
pub struct ConsistentPoint {
    pub lsn: u64,
    pub size: u64,
    pub created_at: u64,
}

/// One entry of the redo log: at `lsn`, block `block_id` took the content
/// with digest `hash`.
pub struct RedoRow {
    pub lsn: u64,
    pub block_id: u64,
    pub hash: Seq<u8>,
}

/// What a pull hands to the log for one block: the content, or only the
/// digest of a content that the store is believed to hold already.
pub enum RedoBody {
    Content(Seq<u8>),
    Hash(Seq<u8>),
}

pub struct RedoItem {
    pub block_id: u64,
    pub body: RedoBody,
}

/// The whole store.
#[verifier::ext_equal]
pub struct StoreState {
    /// Digest to block content, every content one block long.
    pub cas: Map<Seq<u8>, Seq<u8>>,
    pub redo: Seq<RedoRow>,
    pub points: Seq<ConsistentPoint>,
}

/// The log's entries come in strictly increasing LSN order, from 1 up.
pub open spec fn ordered(redo: Seq<RedoRow>) -> bool {
    &&& forall|i: int, j: int| 0 <= i < j < redo.len() ==> redo[i].lsn < redo[j].lsn
    &&& forall|i: int| 0 <= i < redo.len() ==> redo[i].lsn >= 1
}

/// The consistent points come in strictly increasing LSN order.
pub open spec fn points_ordered(points: Seq<ConsistentPoint>) -> bool {
    forall|i: int, j: int| 0 <= i < j < points.len() ==> points[i].lsn < points[j].lsn
}

/// The largest LSN in the log, 0 for an empty log.
pub open spec fn max_lsn(redo: Seq<RedoRow>) -> u64 {
    if redo.len() == 0 {
        0
    } else {
        redo.last().lsn
    }
}

/// Whether an entry is about block `b` and lies in the LSN range `(lo, hi]`.
pub open spec fn in_range(r: RedoRow, lo: int, hi: int, b: u64) -> bool {
    r.block_id == b && lo < r.lsn && r.lsn <= hi
}

/// The last entry about block `b` in the LSN range `(lo, hi]`.
pub open spec fn latest_in(redo: Seq<RedoRow>, lo: int, hi: int, b: u64) -> Option<RedoRow>
    decreases redo.len(),
{
    if redo.len() == 0 {
        None
    } else if in_range(redo.last(), lo, hi, b) {
        Some(redo.last())
    } else {
        latest_in(redo.drop_last(), lo, hi, b)
    }
}

/// The digest that the snapshot at `target` records for block `b`.
pub open spec fn snapshot_hash(redo: Seq<RedoRow>, target: u64, b: u64) -> Option<Seq<u8>> {
    match latest_in(redo, -1, target as int, b) {
        Some(r) => Some(r.hash),
        None => None,
    }
}

/// The snapshot at `target`: for every block that the log mentions at or
/// before `target`, the digest of its last entry there.
pub open spec fn snapshot_view(redo: Seq<RedoRow>, target: u64) -> Map<u64, Seq<u8>> {
    Map::new(
        |b: u64| snapshot_hash(redo, target, b) is Some,
        |b: u64| snapshot_hash(redo, target, b).unwrap(),
    )
}

/// The digest of block `b` in a snapshot, a block without entry being zero.
pub open spec fn hash_or_zero(snap: Map<u64, Seq<u8>>, b: u64) -> Seq<u8> {
    if snap.contains_key(b) {
        snap[b]
    } else {
        zero_block_hash()
    }
}

/// The stored content of block `b` in a snapshot. There is none for a block
/// without entry, for one recorded with the digest of the zero block, and
/// for one whose content the store no longer holds.
pub open spec fn stored_block(cas: Map<Seq<u8>, Seq<u8>>, snap: Map<u64, Seq<u8>>, b: u64) -> Option<
    Seq<u8>,
> {
    if snap.contains_key(b) && snap[b] != zero_block_hash() && cas.contains_key(snap[b]) {
        Some(cas[snap[b]])
    } else {
        None
    }
}

/// The content of block `b` as a reader sees it: zeros where nothing is stored.
pub open spec fn image_block(cas: Map<Seq<u8>, Seq<u8>>, snap: Map<u64, Seq<u8>>, b: u64) -> Seq<u8> {
    match stored_block(cas, snap, b) {
        Some(c) => c,
        None => zero_block(),
    }
}

/// The first `size` bytes of the image that a snapshot describes.
pub open spec fn image_bytes(cas: Map<Seq<u8>, Seq<u8>>, snap: Map<u64, Seq<u8>>, size: nat) -> Seq<u8> {
    Seq::new(
        size,
        |i: int| image_block(cas, snap, (i / LOG_BLOCK_SIZE as int) as u64)[i % LOG_BLOCK_SIZE as int],
    )
}

/// The `len` bytes of the image from `pos` on.
pub open spec fn image_window(cas: Map<Seq<u8>, Seq<u8>>, snap: Map<u64, Seq<u8>>, pos: int, len: nat) -> Seq<
    u8,
> {
    Seq::new(
        len,
        |i: int|
            image_block(cas, snap, ((pos + i) / LOG_BLOCK_SIZE as int) as u64)[(pos + i) % LOG_BLOCK_SIZE as int],
    )
}

/// A window of the image is that part of its bytes.
pub proof fn lemma_window_of_image(
    cas: Map<Seq<u8>, Seq<u8>>,
    snap: Map<u64, Seq<u8>>,
    size: nat,
    pos: int,
    len: nat,
)
    requires
        0 <= pos,
        pos + len <= size,
    ensures
        image_window(cas, snap, pos, len) == image_bytes(cas, snap, size).subrange(pos, pos + len),
{
    assert(image_window(cas, snap, pos, len) =~= image_bytes(cas, snap, size).subrange(pos, pos + len));
}

/// Reader agreement: reading the whole image through a window that begins
/// at its start yields the bytes of the image.
pub proof fn lemma_reader_agreement(s: StoreState, lsn: u64, size: nat)
    ensures
        image_window(s.cas, s.snapshot(lsn), 0, size) == s.image(lsn, size),
{
    lemma_window_of_image(s.cas, s.snapshot(lsn), size, 0, size);
    assert(s.image(lsn, size).subrange(0, size as int) =~= s.image(lsn, size));
}

/// The digests that the log refers to.
pub open spec fn referenced(redo: Seq<RedoRow>) -> Set<Seq<u8>> {
    Set::new(|h: Seq<u8>| exists|i: int| 0 <= i < redo.len() && #[trigger] redo[i].hash == h)
}

/// Whether every stored content has the digest it is filed under.
pub open spec fn content_addressed(cas: Map<Seq<u8>, Seq<u8>>) -> bool {
    forall|h: Seq<u8>| #[trigger] cas.contains_key(h) ==> blake3_digest(cas[h]) == h
}

/// The digest an item is logged with: that of its content padded to a
/// full block, or the one it names.
pub open spec fn item_hash(it: RedoItem) -> Seq<u8> {
    match it.body {
        RedoBody::Content(c) => blake3_digest(padded(c, LOG_BLOCK_SIZE as nat)),
        RedoBody::Hash(h) => h,
    }
}

/// The blocks held after committing `items`: a content is stored, padded to
/// a full block and under the digest of that block, when the digest is new;
/// an item that only names a digest stores nothing.
pub open spec fn committed_cas(cas: Map<Seq<u8>, Seq<u8>>, items: Seq<RedoItem>) -> Map<
    Seq<u8>,
    Seq<u8>,
>
    decreases items.len(),
{
    if items.len() == 0 {
        cas
    } else {
        let m = committed_cas(cas, items.drop_last());
        match items.last().body {
            RedoBody::Content(c) => if m.contains_key(item_hash(items.last())) {
                m
            } else {
                m.insert(item_hash(items.last()), padded(c, LOG_BLOCK_SIZE as nat))
            },
            RedoBody::Hash(_) => m,
        }
    }
}

/// The log entries that committing `items` appends after LSN `base`.
pub open spec fn appended_rows(base: u64, items: Seq<RedoItem>) -> Seq<RedoRow> {
    Seq::new(
        items.len(),
        |i: int|
            RedoRow {
                lsn: (base + 1 + i) as u64,
                block_id: items[i].block_id,
                hash: item_hash(items[i]),
            },
    )
}

/// Item `i` names a digest that the store does not hold when its turn comes.
pub open spec fn missing_at(cas: Map<Seq<u8>, Seq<u8>>, items: Seq<RedoItem>, i: int) -> bool {
    items[i].body is Hash && !committed_cas(cas, items.take(i)).contains_key(item_hash(items[i]))
}

/// Item `i` brings a content that has to be stored when its turn comes.
pub open spec fn stores_at(cas: Map<Seq<u8>, Seq<u8>>, items: Seq<RedoItem>, i: int) -> bool {
    items[i].body is Content && !committed_cas(cas, items.take(i)).contains_key(
        item_hash(items[i]),
    )
}

/// No item names a digest that the store lacks when its turn comes.
pub open spec fn complete(cas: Map<Seq<u8>, Seq<u8>>, items: Seq<RedoItem>) -> bool {
    forall|i: int| 0 <= i < items.len() ==> !missing_at(cas, items, i)
}

/// Whether an item's content, if it has one, is at most one block long.
pub open spec fn fits(it: RedoItem) -> bool {
    match it.body {
        RedoBody::Content(c) => c.len() <= LOG_BLOCK_SIZE,
        RedoBody::Hash(_) => true,
    }
}

/// Whether an item's content, if it has one, is exactly one block long.
pub open spec fn full(it: RedoItem) -> bool {
    match it.body {
        RedoBody::Content(c) => c.len() == LOG_BLOCK_SIZE,
        RedoBody::Hash(_) => true,
    }
}

/// Every content among the items is at most one block long.
pub open spec fn contents_fit(items: Seq<RedoItem>) -> bool {
    forall|i: int| 0 <= i < items.len() ==> fits(#[trigger] items[i])
}

/// Every content among the items is exactly one block long.
pub open spec fn contents_full(items: Seq<RedoItem>) -> bool {
    forall|i: int| 0 <= i < items.len() ==> full(#[trigger] items[i])
}

/// Whether an entry outlives a squash of `(start, end]`: it lies outside the
/// range, or it is the last entry of its block inside it.
pub open spec fn survives(redo: Seq<RedoRow>, start: u64, end: u64, r: RedoRow) -> bool {
    !(start < r.lsn && r.lsn <= end) || latest_in(redo, start as int, end as int, r.block_id)
        == Some(r)
}

pub open spec fn survivor(redo: Seq<RedoRow>, start: u64, end: u64) -> spec_fn(RedoRow) -> bool {
    |r: RedoRow| survives(redo, start, end, r)
}

/// The log after a squash of `(start, end]`.
pub open spec fn squashed_redo(redo: Seq<RedoRow>, start: u64, end: u64) -> Seq<RedoRow> {
    redo.filter(survivor(redo, start, end))
}

pub open spec fn outside(start: u64, end: u64) -> spec_fn(ConsistentPoint) -> bool {
    |p: ConsistentPoint| !(start < p.lsn && p.lsn < end)
}

/// The consistent points after a squash: those strictly between the two
/// ends are gone.
pub open spec fn squashed_points(points: Seq<ConsistentPoint>, start: u64, end: u64) -> Seq<
    ConsistentPoint,
> {
    points.filter(outside(start, end))
}

/// Where a point with this LSN belongs among ordered points.
pub open spec fn point_slot(points: Seq<ConsistentPoint>, lsn: u64) -> int
    decreases points.len(),
{
    if points.len() == 0 || points.last().lsn < lsn {
        points.len() as int
    } else {
        point_slot(points.drop_last(), lsn)
    }
}

/// Whether some point has this LSN.
pub open spec fn has_point(points: Seq<ConsistentPoint>, lsn: u64) -> bool {
    exists|i: int| 0 <= i < points.len() && #[trigger] points[i].lsn == lsn
}

/// The point with this LSN, if there is one.
pub open spec fn point_at(points: Seq<ConsistentPoint>, lsn: u64) -> Option<ConsistentPoint> {
    if has_point(points, lsn) {
        Some(points[choose|i: int| 0 <= i < points.len() && #[trigger] points[i].lsn == lsn])
    } else {
        None
    }
}

/// The points after adding one: unchanged when the LSN is taken, the new
/// point at its place in LSN order otherwise.
pub open spec fn with_point(points: Seq<ConsistentPoint>, p: ConsistentPoint) -> Seq<ConsistentPoint> {
    if has_point(points, p.lsn) {
        points
    } else {
        points.insert(point_slot(points, p.lsn), p)
    }
}

impl StoreState {
    /// The invariants of a store: an ordered log whose digests are all held,
    /// blocks of full length, each under its own digest, ordered points.
    pub open spec fn wf(self) -> bool {
        &&& content_addressed(self.cas)
        &&& ordered(self.redo)
        &&& points_ordered(self.points)
        &&& forall|i: int| 0 <= i < self.redo.len() ==> self.cas.contains_key(#[trigger] self.redo[i].hash)
        &&& forall|h: Seq<u8>| #[trigger] self.cas.contains_key(h) ==> self.cas[h].len() == LOG_BLOCK_SIZE
    }

    pub open spec fn empty() -> StoreState {
        StoreState { cas: Map::empty(), redo: Seq::empty(), points: Seq::empty() }
    }

    /// The store after a commit of `items`.
    pub open spec fn committed(self, items: Seq<RedoItem>) -> StoreState {
        StoreState {
            cas: committed_cas(self.cas, items),
            redo: self.redo + appended_rows(max_lsn(self.redo), items),
            points: self.points,
        }
    }

    /// The store after a squash of `(start, end]`, before unreferenced
    /// blocks are collected.
    pub open spec fn squashed(self, start: u64, end: u64) -> StoreState {
        StoreState {
            cas: self.cas,
            redo: squashed_redo(self.redo, start, end),
            points: squashed_points(self.points, start, end),
        }
    }

    /// The store after the blocks that the log does not refer to are gone.
    pub open spec fn collected(self) -> StoreState {
        StoreState {
            cas: self.cas.restrict(referenced(self.redo)),
            redo: self.redo,
            points: self.points,
        }
    }

    /// The snapshot of this store at `lsn`.
    pub open spec fn snapshot(self, lsn: u64) -> Map<u64, Seq<u8>> {
        snapshot_view(self.redo, lsn)
    }

    /// The bytes of the image at a consistent point.
    pub open spec fn image(self, lsn: u64, size: nat) -> Seq<u8> {
        image_bytes(self.cas, self.snapshot(lsn), size)
    }
}

/// What the last entry of a block in a range is: an entry of the log, about
/// that block, inside the range, and no such entry has a larger LSN. If
/// there is none, no entry is about that block inside the range.
pub proof fn lemma_latest(redo: Seq<RedoRow>, lo: int, hi: int, b: u64)
    requires
        ordered(redo),
    ensures
        match latest_in(redo, lo, hi, b) {
            Some(r) => {
                &&& exists|k: int| 0 <= k < redo.len() && redo[k] == r
                &&& in_range(r, lo, hi, b)
                &&& forall|i: int|
                    0 <= i < redo.len() && in_range(#[trigger] redo[i], lo, hi, b) ==> redo[i].lsn
                        <= r.lsn
            },
            None => forall|i: int| 0 <= i < redo.len() ==> !in_range(#[trigger] redo[i], lo, hi, b),
        },
    decreases redo.len(),
{
    if redo.len() == 0 {
    } else if in_range(redo.last(), lo, hi, b) {
        assert(redo[redo.len() - 1] == redo.last());
    } else {
        let head = redo.drop_last();
        lemma_latest(head, lo, hi, b);
        match latest_in(head, lo, hi, b) {
            Some(r) => {
                let k = choose|k: int| 0 <= k < head.len() && head[k] == r;
                assert(redo[k] == r);
                assert forall|i: int|
                    0 <= i < redo.len() && in_range(#[trigger] redo[i], lo, hi, b) implies redo[i].lsn
                    <= r.lsn by {
                    assert(i < head.len());
                    assert(head[i] == redo[i]);
                }
            },
            None => {
                assert forall|i: int| 0 <= i < redo.len() implies !in_range(
                    #[trigger] redo[i],
                    lo,
                    hi,
                    b,
                ) by {
                    if i < head.len() {
                        assert(head[i] == redo[i]);
                    }
                }
            },
        }
    }
}

/// An entry of its block and range that no other such entry exceeds is the
/// last one.
pub proof fn lemma_latest_is(redo: Seq<RedoRow>, lo: int, hi: int, b: u64, k: int)
    requires
        ordered(redo),
        0 <= k < redo.len(),
        in_range(redo[k], lo, hi, b),
        forall|i: int| 0 <= i < redo.len() && in_range(#[trigger] redo[i], lo, hi, b) ==> redo[i].lsn <= redo[k].lsn,
    ensures
        latest_in(redo, lo, hi, b) == Some(redo[k]),
{
    lemma_latest(redo, lo, hi, b);
    match latest_in(redo, lo, hi, b) {
        Some(r) => {
            let j = choose|j: int| 0 <= j < redo.len() && redo[j] == r;
            assert(redo[j].lsn <= redo[k].lsn);
            assert(redo[k].lsn <= redo[j].lsn);
            if j < k {
            } else if k < j {
            }
        },
        None => {
            assert(!in_range(redo[k], lo, hi, b));
        },
    }
}

/// Filtering an ordered log leaves an ordered log made of its entries.
pub proof fn lemma_filter_ordered(redo: Seq<RedoRow>, keep: spec_fn(RedoRow) -> bool)
    requires
        ordered(redo),
    ensures
        ordered(redo.filter(keep)),
        forall|k: int|
            0 <= k < redo.filter(keep).len() ==> exists|i: int|
                0 <= i < redo.len() && redo[i] == #[trigger] redo.filter(keep)[k],
        redo.len() > 0 && keep(redo.last()) ==> redo.filter(keep).len() > 0 && redo.filter(
            keep,
        ).last() == redo.last(),
    decreases redo.len(),
{
    reveal(Seq::filter);
    if redo.len() > 0 {
        let head = redo.drop_last();
        lemma_filter_ordered(head, keep);
        let fh = head.filter(keep);
        let f = redo.filter(keep);
        assert forall|k: int| 0 <= k < fh.len() implies fh[k].lsn < redo.last().lsn && exists|i: int|
            0 <= i < redo.len() && redo[i] == #[trigger] fh[k] by {
            let i = choose|i: int| 0 <= i < head.len() && head[i] == fh[k];
            assert(redo[i] == fh[k]);
        }
        if keep(redo.last()) {
            assert(f == fh.push(redo.last()));
            assert forall|k: int| 0 <= k < f.len() implies exists|i: int|
                0 <= i < redo.len() && redo[i] == #[trigger] f[k] by {
                if k < fh.len() {
                    assert(f[k] == fh[k]);
                } else {
                    assert(redo[redo.len() - 1] == f[k]);
                }
            }
            assert forall|i: int, j: int| 0 <= i < j < f.len() implies f[i].lsn < f[j].lsn by {
                assert(f[i] == fh[i]);
                if j < fh.len() {
                    assert(f[j] == fh[j]);
                }
            }
            assert forall|i: int| 0 <= i < f.len() implies f[i].lsn >= 1 by {
                if i < fh.len() {
                    assert(f[i] == fh[i]);
                }
            }
        } else {
            assert(f == fh);
        }
    }
}

/// A squash keeps the largest LSN of the log.
pub proof fn lemma_squash_keeps_max_lsn(redo: Seq<RedoRow>, start: u64, end: u64)
    requires
        ordered(redo),
    ensures
        max_lsn(squashed_redo(redo, start, end)) == max_lsn(redo),
        ordered(squashed_redo(redo, start, end)),
{
    let keep = survivor(redo, start, end);
    lemma_filter_ordered(redo, keep);
    if redo.len() > 0 {
        let r = redo.last();
        if start < r.lsn && r.lsn <= end {
            lemma_latest_is(redo, start as int, end as int, r.block_id, redo.len() - 1);
        }
        assert(keep(r));
    } else {
        reveal(Seq::filter);
    }
}

/// A squash of `(start, end]` changes no snapshot at or before `start`, nor
/// any at or after `end`: every block keeps the entry that such a snapshot
/// reads.
pub proof fn lemma_squash_keeps_snapshot(redo: Seq<RedoRow>, start: u64, end: u64, target: u64, b: u64)
    requires
        ordered(redo),
        target <= start || target >= end,
    ensures
        latest_in(squashed_redo(redo, start, end), -1, target as int, b) == latest_in(
            redo,
            -1,
            target as int,
            b,
        ),
{
    let keep = survivor(redo, start, end);
    let f = squashed_redo(redo, start, end);
    let t = target as int;
    lemma_filter_ordered(redo, keep);
    lemma_latest(redo, -1, t, b);
    lemma_latest(f, -1, t, b);
    #[allow(deprecated)]
    redo.filter_lemma(keep);
    match latest_in(redo, -1, t, b) {
        None => {
            match latest_in(f, -1, t, b) {
                Some(r2) => {
                    let k = choose|k: int| 0 <= k < f.len() && f[k] == r2;
                    let i = choose|i: int| 0 <= i < redo.len() && redo[i] == f[k];
                    assert(in_range(redo[i], -1, t, b));
                },
                None => {},
            }
        },
        Some(r) => {
            let k = choose|k: int| 0 <= k < redo.len() && redo[k] == r;
            if start < r.lsn && r.lsn <= end {
                assert(target >= end);
                assert forall|i: int|
                    0 <= i < redo.len() && in_range(
                        #[trigger] redo[i],
                        start as int,
                        end as int,
                        b,
                    ) implies redo[i].lsn <= redo[k].lsn by {
                    assert(in_range(redo[i], -1, t, b));
                }
                lemma_latest_is(redo, start as int, end as int, b, k);
            }
            assert(keep(redo[k]));
            assert(f.contains(redo[k]));
            let m = choose|m: int| 0 <= m < f.len() && f[m] == redo[k];
            assert(in_range(f[m], -1, t, b));
            assert forall|j: int| 0 <= j < f.len() && in_range(#[trigger] f[j], -1, t, b) implies f[j].lsn
                <= f[m].lsn by {
                let i = choose|i: int| 0 <= i < redo.len() && redo[i] == f[j];
                assert(in_range(redo[i], -1, t, b));
            }
            lemma_latest_is(f, -1, t, b, m);
        },
    }
}

/// A squash of `(start, end]` followed by the collection of unreferenced
/// blocks changes no image at an LSN outside the open range between the two
/// ends: the snapshot there is the same, and every block reads as before.
pub proof fn lemma_squash_preserves_images(s: StoreState, start: u64, end: u64, lsn: u64)
    requires
        s.wf(),
        lsn <= start || lsn >= end,
    ensures
        s.squashed(start, end).collected().snapshot(lsn) == s.snapshot(lsn),
        forall|b: u64|
            stored_block(
                s.squashed(start, end).collected().cas,
                s.squashed(start, end).collected().snapshot(lsn),
                b,
            ) == #[trigger] stored_block(s.cas, s.snapshot(lsn), b),
        forall|size: nat| s.squashed(start, end).collected().image(lsn, size) == #[trigger] s.image(lsn, size),
{
    let t = s.squashed(start, end).collected();
    let f = squashed_redo(s.redo, start, end);
    assert forall|b: u64| snapshot_hash(f, lsn, b) == snapshot_hash(s.redo, lsn, b) by {
        lemma_squash_keeps_snapshot(s.redo, start, end, lsn, b);
    }
    assert(t.snapshot(lsn) =~= s.snapshot(lsn));
    lemma_filter_ordered(s.redo, survivor(s.redo, start, end));
    assert forall|b: u64|
        stored_block(t.cas, t.snapshot(lsn), b) == #[trigger] stored_block(s.cas, s.snapshot(lsn), b) by {
        let snap = s.snapshot(lsn);
        if snap.contains_key(b) {
            lemma_latest(f, -1, lsn as int, b);
            let r = latest_in(f, -1, lsn as int, b).unwrap();
            let k = choose|k: int| 0 <= k < f.len() && f[k] == r;
            assert(f[k].hash == snap[b]);
            assert(referenced(f).contains(snap[b]));
        }
    }
    assert forall|size: nat| t.image(lsn, size) == #[trigger] s.image(lsn, size) by {
        assert forall|i: int| 0 <= i < size implies t.image(lsn, size)[i] == s.image(lsn, size)[i] by {
            let b = (i / LOG_BLOCK_SIZE as int) as u64;
            assert(stored_block(t.cas, t.snapshot(lsn), b) == stored_block(s.cas, s.snapshot(lsn), b));
        }
        assert(t.image(lsn, size) =~= s.image(lsn, size));
    }
}

/// A slot among the points is a position among them.
pub proof fn lemma_point_slot_bounds(points: Seq<ConsistentPoint>, lsn: u64)
    ensures
        0 <= point_slot(points, lsn) <= points.len(),
    decreases points.len(),
{
    if points.len() > 0 && !(points.last().lsn < lsn) {
        lemma_point_slot_bounds(points.drop_last(), lsn);
    }
}

/// Once a point is added, its LSN has a point.
pub proof fn lemma_with_point_has(points: Seq<ConsistentPoint>, p: ConsistentPoint)
    ensures
        has_point(with_point(points, p), p.lsn),
{
    if !has_point(points, p.lsn) {
        lemma_point_slot_bounds(points, p.lsn);
        let k = point_slot(points, p.lsn);
        assert(points.insert(k, p)[k].lsn == p.lsn);
    }
}

/// The largest LSN after a commit is the one before plus the number of items.
pub proof fn lemma_committed_max(s: StoreState, items: Seq<RedoItem>)
    requires
        max_lsn(s.redo) + items.len() <= u64::MAX,
    ensures
        max_lsn(s.committed(items).redo) == max_lsn(s.redo) + items.len(),
{
    let t = s.committed(items);
    if items.len() > 0 {
        assert(t.redo.last() == appended_rows(max_lsn(s.redo), items)[items.len() - 1]);
    } else {
        assert(t.redo =~= s.redo);
    }
}

/// Every digest in the log leads to a block of full length that has that
/// digest.
pub proof fn lemma_log_leads_to_blocks(s: StoreState, i: int)
    requires
        s.wf(),
        0 <= i < s.redo.len(),
    ensures
        s.cas.contains_key(s.redo[i].hash),
        s.cas[s.redo[i].hash].len() == LOG_BLOCK_SIZE,
        blake3_digest(s.cas[s.redo[i].hash]) == s.redo[i].hash,
{
}

/// A commit of blocks that fit, none of them naming a missing digest,
/// keeps what holds of the log: every digest in it, old or new, leads to a
/// block of full length that has that digest.
pub proof fn lemma_commit_keeps_log_blocks(s: StoreState, items: Seq<RedoItem>, i: int)
    requires
        s.wf(),
        contents_fit(items),
        complete(s.cas, items),
        max_lsn(s.redo) + items.len() <= u64::MAX,
        0 <= i < s.committed(items).redo.len(),
    ensures
        s.committed(items).cas.contains_key(s.committed(items).redo[i].hash),
        s.committed(items).cas[s.committed(items).redo[i].hash].len() == LOG_BLOCK_SIZE,
        blake3_digest(s.committed(items).cas[s.committed(items).redo[i].hash]) == s.committed(
            items,
        ).redo[i].hash,
{
    lemma_commit_wf(s, items);
}

/// Collecting unreferenced blocks leaves every remaining content under the
/// digest it was filed under.
pub proof fn lemma_collect_content_addressed(s: StoreState)
    requires
        content_addressed(s.cas),
    ensures
        content_addressed(s.collected().cas),
{
}

/// Committing keeps every block that was held, with its content.
pub proof fn lemma_commit_keeps_blocks(cas: Map<Seq<u8>, Seq<u8>>, items: Seq<RedoItem>)
    ensures
        forall|h: Seq<u8>| #[trigger]
            cas.contains_key(h) ==> committed_cas(cas, items).contains_key(h) && committed_cas(
                cas,
                items,
            )[h] == cas[h],
    decreases items.len(),
{
    if items.len() > 0 {
        lemma_commit_keeps_blocks(cas, items.drop_last());
    }
}

/// Committing to a store whose contents have the digests they are filed
/// under leaves such a store.
pub proof fn lemma_commit_content_addressed(cas: Map<Seq<u8>, Seq<u8>>, items: Seq<RedoItem>)
    requires
        content_addressed(cas),
    ensures
        content_addressed(committed_cas(cas, items)),
    decreases items.len(),
{
    if items.len() > 0 {
        lemma_commit_content_addressed(cas, items.drop_last());
    }
}

/// Every prefix of a commit holds what the commit before it held.
pub proof fn lemma_commit_prefix(cas: Map<Seq<u8>, Seq<u8>>, items: Seq<RedoItem>, k: int)
    requires
        0 <= k <= items.len(),
    ensures
        forall|h: Seq<u8>| #[trigger]
            committed_cas(cas, items.take(k)).contains_key(h) ==> committed_cas(cas, items).contains_key(
                h,
            ) && committed_cas(cas, items)[h] == committed_cas(cas, items.take(k))[h],
{
    lemma_commit_cas_concat(cas, items.take(k), items.skip(k));
    assert(items.take(k) + items.skip(k) =~= items);
    lemma_commit_keeps_blocks(committed_cas(cas, items.take(k)), items.skip(k));
}

/// The digest of every committed item is held after the commit, provided no
/// item named a digest that was missing at its turn.
pub proof fn lemma_commit_holds_items(cas: Map<Seq<u8>, Seq<u8>>, items: Seq<RedoItem>, i: int)
    requires
        0 <= i < items.len(),
        !missing_at(cas, items, i),
    ensures
        committed_cas(cas, items).contains_key(item_hash(items[i])),
{
    lemma_commit_prefix(cas, items, i);
    lemma_commit_prefix(cas, items, i + 1);
    assert(items.take(i + 1).drop_last() =~= items.take(i));
    assert(items.take(i + 1).last() == items[i]);
    assert(committed_cas(cas, items.take(i + 1)).contains_key(item_hash(items[i])));
}

/// Committing blocks that fit keeps every held content one block long.
pub proof fn lemma_commit_full_blocks(cas: Map<Seq<u8>, Seq<u8>>, items: Seq<RedoItem>)
    requires
        forall|h: Seq<u8>| #[trigger] cas.contains_key(h) ==> cas[h].len() == LOG_BLOCK_SIZE,
        contents_fit(items),
    ensures
        forall|h: Seq<u8>| #[trigger]
            committed_cas(cas, items).contains_key(h) ==> committed_cas(cas, items)[h].len()
                == LOG_BLOCK_SIZE,
    decreases items.len(),
{
    if items.len() > 0 {
        let head = items.drop_last();
        assert forall|i: int| 0 <= i < head.len() implies fits(#[trigger] head[i]) by {
            assert(head[i] == items[i]);
        }
        lemma_commit_full_blocks(cas, head);
        match items.last().body {
            RedoBody::Content(c) => {
                assert(fits(items[items.len() - 1]));
                assert(padded(c, LOG_BLOCK_SIZE as nat).len() == LOG_BLOCK_SIZE);
            },
            RedoBody::Hash(_) => {},
        }
        let m = committed_cas(cas, head);
        let n = committed_cas(cas, items);
        assert forall|h: Seq<u8>| #[trigger] n.contains_key(h) implies n[h].len() == LOG_BLOCK_SIZE by {
            if m.contains_key(h) {
                assert(n[h] == m[h]);
            }
        }
    }
}

/// A commit of blocks that fit, none of them naming a missing digest,
/// leaves a store that keeps its invariants, as long as the LSNs last.
pub proof fn lemma_commit_wf(s: StoreState, items: Seq<RedoItem>)
    requires
        s.wf(),
        contents_fit(items),
        complete(s.cas, items),
        max_lsn(s.redo) + items.len() <= u64::MAX,
    ensures
        s.committed(items).wf(),
        max_lsn(s.committed(items).redo) == max_lsn(s.redo) + items.len(),
{
    let t = s.committed(items);
    let base = max_lsn(s.redo);
    let rows = appended_rows(base, items);
    lemma_commit_content_addressed(s.cas, items);
    lemma_commit_full_blocks(s.cas, items);
    lemma_commit_keeps_blocks(s.cas, items);
    assert forall|i: int| 0 <= i < t.redo.len() implies t.cas.contains_key(#[trigger] t.redo[i].hash) by {
        if i < s.redo.len() {
            assert(t.redo[i] == s.redo[i]);
        } else {
            let k = i - s.redo.len();
            assert(t.redo[i] == rows[k]);
            lemma_commit_holds_items(s.cas, items, k);
        }
    }
    assert forall|i: int, j: int| 0 <= i < j < t.redo.len() implies t.redo[i].lsn < t.redo[j].lsn by {
        if j < s.redo.len() {
            assert(t.redo[i] == s.redo[i] && t.redo[j] == s.redo[j]);
        } else if i < s.redo.len() {
            assert(t.redo[i] == s.redo[i]);
            assert(s.redo[i].lsn <= s.redo[s.redo.len() - 1].lsn);
            assert(t.redo[j] == rows[j - s.redo.len()]);
        } else {
            assert(t.redo[i] == rows[i - s.redo.len()]);
            assert(t.redo[j] == rows[j - s.redo.len()]);
        }
    }
    assert forall|i: int| 0 <= i < t.redo.len() implies t.redo[i].lsn >= 1 by {
        if i < s.redo.len() {
            assert(t.redo[i] == s.redo[i]);
        } else {
            assert(t.redo[i] == rows[i - s.redo.len()]);
        }
    }
    if items.len() > 0 {
        assert(t.redo.last() == rows[items.len() - 1]);
    } else {
        assert(t.redo =~= s.redo);
    }
}

/// Committing one batch and then another is committing both at once.
pub proof fn lemma_commit_cas_concat(cas: Map<Seq<u8>, Seq<u8>>, a: Seq<RedoItem>, b: Seq<RedoItem>)
    ensures
        committed_cas(committed_cas(cas, a), b) == committed_cas(cas, a + b),
    decreases b.len(),
{
    if b.len() == 0 {
        assert(a + b =~= a);
    } else {
        lemma_commit_cas_concat(cas, a, b.drop_last());
        assert((a + b).drop_last() =~= a + b.drop_last());
        assert((a + b).last() == b.last());
    }
}

} // verus!
