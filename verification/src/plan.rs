//! What a pull decides: which blocks differ, which of them have to be
//! fetched, and what committing them does to the store.

use vstd::prelude::*;
use crate::blob::zero_block_hash;
use crate::config::LOG_BLOCK_SIZE;
use crate::digest::blake3_digest;
use crate::model::{
    appended_rows, committed_cas, complete, contents_fit, contents_full, fits,
    full, has_point, hash_or_zero, image_block, in_range, item_hash, latest_in,
    lemma_commit_cas_concat, lemma_commit_keeps_blocks,
    lemma_commit_prefix, lemma_commit_wf, lemma_latest, lemma_latest_is, max_lsn, missing_at,
    ordered, with_point, ConsistentPoint, RedoBody, RedoItem, StoreState,
};
use crate::transmit::padded_block;
use crate::util::padded;

verus! {

/// One block that differs: fetch it, or take it to be stored already under
/// the digest that the remote announced.
pub enum FetchRecord {
    Fetch(u64),
    AssumeExist(u64, Seq<u8>),
}

impl FetchRecord {
    /// The byte offset of the block in the image.
    pub open spec fn offset(self) -> u64 {
        match self {
            FetchRecord::Fetch(o) => o,
            FetchRecord::AssumeExist(o, _) => o,
        }
    }

    /// The number of the block.
    pub open spec fn block(self) -> u64 {
        self.offset() / (LOG_BLOCK_SIZE as u64)
    }
}

/// The number of blocks of an image of `size` bytes, the last one possibly short.
pub open spec fn block_count(size: u64) -> int {
    if size == 0 {
        0
    } else {
        (size - 1) / (LOG_BLOCK_SIZE as int) + 1
    }
}

/// Whether the remote announces for block `b` another digest than the
/// snapshot records.
pub open spec fn changed(snap: Map<u64, Seq<u8>>, hashes: Seq<Seq<u8>>, b: int) -> bool {
    hashes[b] != hash_or_zero(snap, b as u64)
}

/// Whether an earlier changed block was announced with digest `h`.
pub open spec fn seen_before(snap: Map<u64, Seq<u8>>, hashes: Seq<Seq<u8>>, b: int, h: Seq<u8>) -> bool {
    exists|j: int| 0 <= j < b && changed(snap, hashes, j) && #[trigger] hashes[j] == h
}

/// What is decided for block `b`: nothing when it did not change; to take
/// its content as stored when the store holds its digest or an earlier
/// changed block has it; to fetch it otherwise.
pub open spec fn record_for(
    snap: Map<u64, Seq<u8>>,
    held: Set<Seq<u8>>,
    hashes: Seq<Seq<u8>>,
    b: int,
) -> Option<FetchRecord> {
    if !changed(snap, hashes, b) {
        None
    } else if held.contains(hashes[b]) || seen_before(snap, hashes, b, hashes[b]) {
        Some(FetchRecord::AssumeExist((b * LOG_BLOCK_SIZE) as u64, hashes[b]))
    } else {
        Some(FetchRecord::Fetch((b * LOG_BLOCK_SIZE) as u64))
    }
}

/// The decisions for the first `k` blocks, in block order.
pub open spec fn diff_plan(
    snap: Map<u64, Seq<u8>>,
    held: Set<Seq<u8>>,
    hashes: Seq<Seq<u8>>,
    k: int,
) -> Seq<FetchRecord>
    decreases k,
{
    if k <= 0 {
        Seq::empty()
    } else {
        match record_for(snap, held, hashes, k - 1) {
            Some(r) => diff_plan(snap, held, hashes, k - 1).push(r),
            None => diff_plan(snap, held, hashes, k - 1),
        }
    }
}

/// The number of records that ask for a fetch.
pub open spec fn fetch_count(records: Seq<FetchRecord>) -> nat
    decreases records.len(),
{
    if records.len() == 0 {
        0
    } else if records.last() is Fetch {
        fetch_count(records.drop_last()) + 1
    } else {
        fetch_count(records.drop_last())
    }
}

/// The offsets of the records that ask for a fetch, in order.
pub open spec fn fetch_offsets(records: Seq<FetchRecord>) -> Seq<u64>
    decreases records.len(),
{
    if records.len() == 0 {
        Seq::empty()
    } else if records.last() is Fetch {
        fetch_offsets(records.drop_last()).push(records.last().offset())
    } else {
        fetch_offsets(records.drop_last())
    }
}

/// The `k`-th block of a run of fetched blocks.
pub open spec fn nth_block(output: Seq<u8>, k: int) -> Seq<u8> {
    output.subrange(k * LOG_BLOCK_SIZE, k * LOG_BLOCK_SIZE + LOG_BLOCK_SIZE)
}

/// What is committed for a batch of records, given the fetched blocks one
/// after another: a fetched block goes in with its content, the others with
/// the digest that the remote announced.
pub open spec fn batch_items(records: Seq<FetchRecord>, output: Seq<u8>) -> Seq<RedoItem>
    decreases records.len(),
{
    if records.len() == 0 {
        Seq::empty()
    } else {
        let head = records.drop_last();
        let item = match records.last() {
            FetchRecord::Fetch(o) => RedoItem {
                block_id: o / (LOG_BLOCK_SIZE as u64),
                body: RedoBody::Content(nth_block(output, fetch_count(head) as int)),
            },
            FetchRecord::AssumeExist(o, h) => RedoItem {
                block_id: o / (LOG_BLOCK_SIZE as u64),
                body: RedoBody::Hash(h),
            },
        };
        batch_items(head, output).push(item)
    }
}

/// Whether item and record belong together: same block, a content for a
/// fetch, the announced digest otherwise.
pub open spec fn item_matches(r: FetchRecord, it: RedoItem) -> bool {
    &&& it.block_id == r.block()
    &&& match r {
        FetchRecord::Fetch(_) => it.body is Content,
        FetchRecord::AssumeExist(_, h) => it.body == RedoBody::Hash(h),
    }
}

/// Whether the items are what was committed for the records, one each.
pub open spec fn items_match(records: Seq<FetchRecord>, items: Seq<RedoItem>) -> bool {
    &&& items.len() == records.len()
    &&& forall|p: int| 0 <= p < records.len() ==> item_matches(#[trigger] records[p], items[p])
}

/// Whether an item brings a full block with digest `h`.
pub open spec fn brings(it: RedoItem, h: Seq<u8>) -> bool {
    match it.body {
        RedoBody::Content(c) => c.len() == LOG_BLOCK_SIZE && blake3_digest(c) == h,
        RedoBody::Hash(_) => false,
    }
}

/// Whether every fetched block is a full block with the digest that the
/// remote had announced for it.
pub open spec fn faithful(records: Seq<FetchRecord>, hashes: Seq<Seq<u8>>, items: Seq<RedoItem>) -> bool {
    forall|p: int|
        0 <= p < records.len() && (#[trigger] records[p]) is Fetch ==> brings(
            items[p],
            hashes[records[p].block() as int],
        )
}

/// The decisions are about changed blocks only, one for each, in block order.
pub proof fn lemma_plan_blocks(snap: Map<u64, Seq<u8>>, held: Set<Seq<u8>>, hashes: Seq<Seq<u8>>, k: int)
    requires
        0 <= k <= hashes.len(),
        k * LOG_BLOCK_SIZE <= u64::MAX + LOG_BLOCK_SIZE,
    ensures
        diff_plan(snap, held, hashes, k).len() <= k,
        forall|p: int|
            0 <= p < diff_plan(snap, held, hashes, k).len() ==> {
                let r = #[trigger] diff_plan(snap, held, hashes, k)[p];
                &&& r.block() < k
                &&& r.offset() == r.block() * LOG_BLOCK_SIZE
                &&& changed(snap, hashes, r.block() as int)
                &&& record_for(snap, held, hashes, r.block() as int) == Some(r)
            },
        forall|p: int, q: int|
            0 <= p < q < diff_plan(snap, held, hashes, k).len() ==> diff_plan(snap, held, hashes, k)[p].block()
                < diff_plan(snap, held, hashes, k)[q].block(),
        forall|b: int|
            0 <= b < k && changed(snap, hashes, b) ==> exists|p: int|
                0 <= p < diff_plan(snap, held, hashes, k).len() && #[trigger] diff_plan(
                    snap,
                    held,
                    hashes,
                    k,
                )[p].block() == b,
    decreases k,
{
    if k > 0 {
        lemma_plan_blocks(snap, held, hashes, k - 1);
        let head = diff_plan(snap, held, hashes, k - 1);
        let plan = diff_plan(snap, held, hashes, k);
        let b = k - 1;
        assert(LOG_BLOCK_SIZE == 262144);
        assert(b * 262144 <= u64::MAX);
        assert(((b * 262144) as u64) / 262144u64 == b);
        match record_for(snap, held, hashes, b) {
            Some(r) => {
                assert(plan == head.push(r));
                assert(r.block() == b);
                assert forall|p: int| 0 <= p < plan.len() implies {
                    let x = #[trigger] plan[p];
                    &&& x.block() < k
                    &&& x.offset() == x.block() * LOG_BLOCK_SIZE
                    &&& changed(snap, hashes, x.block() as int)
                    &&& record_for(snap, held, hashes, x.block() as int) == Some(x)
                } by {
                    if p < head.len() {
                        assert(plan[p] == head[p]);
                    }
                }
                assert forall|p: int, q: int| 0 <= p < q < plan.len() implies plan[p].block() < plan[q].block() by {
                    assert(plan[p] == head[p]);
                    if q < head.len() {
                        assert(plan[q] == head[q]);
                    }
                }
                assert forall|c: int| 0 <= c < k && changed(snap, hashes, c) implies exists|p: int|
                    0 <= p < plan.len() && #[trigger] plan[p].block() == c by {
                    if c == b {
                        assert(plan[head.len() as int].block() == c);
                    } else {
                        let p = choose|p: int| 0 <= p < head.len() && #[trigger] head[p].block() == c;
                        assert(plan[p].block() == c);
                    }
                }
            },
            None => {
                assert(plan == head);
            },
        }
    }
}

/// The decisions for the first `k` blocks do not depend on what is
/// announced for later blocks.
pub proof fn lemma_plan_prefix(
    snap: Map<u64, Seq<u8>>,
    held: Set<Seq<u8>>,
    a: Seq<Seq<u8>>,
    b: Seq<Seq<u8>>,
    k: int,
)
    requires
        0 <= k <= a.len() <= b.len(),
        forall|i: int| 0 <= i < a.len() ==> a[i] == b[i],
    ensures
        diff_plan(snap, held, a, k) == diff_plan(snap, held, b, k),
    decreases k,
{
    if k > 0 {
        lemma_plan_prefix(snap, held, a, b, k - 1);
        let c = k - 1;
        assert(changed(snap, a, c) == changed(snap, b, c));
        if seen_before(snap, a, c, a[c]) {
            let j = choose|j: int| 0 <= j < c && changed(snap, a, j) && #[trigger] a[j] == a[c];
            assert(changed(snap, b, j) && b[j] == b[c]);
        }
        if seen_before(snap, b, c, b[c]) {
            let j = choose|j: int| 0 <= j < c && changed(snap, b, j) && #[trigger] b[j] == b[c];
            assert(changed(snap, a, j) && a[j] == a[c]);
        }
    }
}

/// Where no block changed, nothing is decided.
pub proof fn lemma_plan_unchanged(snap: Map<u64, Seq<u8>>, held: Set<Seq<u8>>, hashes: Seq<Seq<u8>>, k: int)
    requires
        0 <= k <= hashes.len(),
        forall|b: int| 0 <= b < k ==> !changed(snap, hashes, b),
    ensures
        diff_plan(snap, held, hashes, k) == Seq::<FetchRecord>::empty(),
    decreases k,
{
    if k > 0 {
        lemma_plan_unchanged(snap, held, hashes, k - 1);
    }
}

/// Committing one batch and then another is committing both at once.
pub proof fn lemma_commit_concat(s: StoreState, a: Seq<RedoItem>, b: Seq<RedoItem>)
    requires
        ordered(s.redo),
        max_lsn(s.redo) + a.len() + b.len() <= u64::MAX,
    ensures
        s.committed(a).committed(b) == s.committed(a + b),
{
    let base = max_lsn(s.redo);
    let mid = s.committed(a);
    lemma_commit_cas_concat(s.cas, a, b);
    if a.len() > 0 {
        assert(mid.redo.last() == appended_rows(base, a)[a.len() - 1]);
    } else {
        assert(mid.redo =~= s.redo);
    }
    assert(max_lsn(mid.redo) == base + a.len());
    assert(appended_rows(base, a) + appended_rows((base + a.len()) as u64, b) =~= appended_rows(
        base,
        a + b,
    ));
    assert(mid.committed(b).redo =~= s.committed(a + b).redo);
}

/// What is committed up to some item is still there after later items.
pub proof fn lemma_commit_grows(cas: Map<Seq<u8>, Seq<u8>>, items: Seq<RedoItem>, a: int, b: int, h: Seq<u8>)
    requires
        0 <= a <= b <= items.len(),
        committed_cas(cas, items.take(a)).contains_key(h),
    ensures
        committed_cas(cas, items.take(b)).contains_key(h),
{
    lemma_commit_prefix(cas, items.take(b), a);
    assert(items.take(b).take(a) =~= items.take(a));
}

/// Once the record of a changed block is committed, each block fetched
/// with the digest that the remote had announced for it, the store holds
/// the digest announced for that block.
pub proof fn lemma_changed_block_held(
    cas: Map<Seq<u8>, Seq<u8>>,
    snap: Map<u64, Seq<u8>>,
    hashes: Seq<Seq<u8>>,
    items: Seq<RedoItem>,
    q: int,
)
    requires
        hashes.len() * LOG_BLOCK_SIZE <= u64::MAX + LOG_BLOCK_SIZE,
        items_match(diff_plan(snap, cas.dom(), hashes, hashes.len() as int), items),
        faithful(diff_plan(snap, cas.dom(), hashes, hashes.len() as int), hashes, items),
        0 <= q < items.len(),
    ensures
        committed_cas(cas, items.take(q + 1)).contains_key(
            hashes[diff_plan(snap, cas.dom(), hashes, hashes.len() as int)[q].block() as int],
        ),
    decreases q,
{
    let n = hashes.len() as int;
    let plan = diff_plan(snap, cas.dom(), hashes, n);
    lemma_plan_blocks(snap, cas.dom(), hashes, n);
    let b = plan[q].block() as int;
    let h = hashes[b];
    let upto = items.take(q + 1);
    assert(upto.drop_last() =~= items.take(q));
    assert(upto.last() == items[q]);
    assert(item_matches(plan[q], items[q]));
    assert(record_for(snap, cas.dom(), hashes, b) == Some(plan[q]));
    match plan[q] {
        FetchRecord::Fetch(_) => {
            assert(plan[q] is Fetch);
            assert(brings(items[q], h));
        },
        FetchRecord::AssumeExist(_, _) => {
            if cas.dom().contains(h) {
                lemma_commit_keeps_blocks(cas, upto);
            } else {
                assert(seen_before(snap, hashes, b, h));
                let j = choose|j: int| 0 <= j < b && changed(snap, hashes, j) && #[trigger] hashes[j] == h;
                let p = choose|p: int| 0 <= p < plan.len() && #[trigger] plan[p].block() == j;
                if p >= q {
                    if p > q {
                        assert(plan[q].block() < plan[p].block());
                    }
                }
                lemma_changed_block_held(cas, snap, hashes, items, p);
                lemma_commit_grows(cas, items, p + 1, q + 1, h);
            }
        },
    }
}

/// Committing what was decided never names a digest that the store lacks,
/// when each block is fetched with the digest that the remote had
/// announced for it.
pub proof fn lemma_faithful_pull_is_complete(
    cas: Map<Seq<u8>, Seq<u8>>,
    snap: Map<u64, Seq<u8>>,
    hashes: Seq<Seq<u8>>,
    items: Seq<RedoItem>,
)
    requires
        hashes.len() * LOG_BLOCK_SIZE <= u64::MAX + LOG_BLOCK_SIZE,
        items_match(diff_plan(snap, cas.dom(), hashes, hashes.len() as int), items),
        faithful(diff_plan(snap, cas.dom(), hashes, hashes.len() as int), hashes, items),
    ensures
        complete(cas, items),
        contents_fit(items),
        contents_full(items),
{
    let n = hashes.len() as int;
    let plan = diff_plan(snap, cas.dom(), hashes, n);
    lemma_plan_blocks(snap, cas.dom(), hashes, n);
    assert forall|q: int| 0 <= q < items.len() implies !missing_at(cas, items, q) by {
        assert(item_matches(plan[q], items[q]));
        if items[q].body is Hash {
            let b = plan[q].block() as int;
            let h = hashes[b];
            assert(record_for(snap, cas.dom(), hashes, b) == Some(plan[q]));
            assert(item_hash(items[q]) == h);
            if cas.dom().contains(h) {
                lemma_commit_keeps_blocks(cas, items.take(q));
            } else {
                assert(seen_before(snap, hashes, b, h));
                let j = choose|j: int| 0 <= j < b && changed(snap, hashes, j) && #[trigger] hashes[j] == h;
                let p = choose|p: int| 0 <= p < plan.len() && #[trigger] plan[p].block() == j;
                if p >= q {
                    if p > q {
                        assert(plan[q].block() < plan[p].block());
                    }
                }
                lemma_changed_block_held(cas, snap, hashes, items, p);
                lemma_commit_grows(cas, items, p + 1, q, h);
            }
        }
    }
    assert forall|q: int| 0 <= q < items.len() implies full(#[trigger] items[q])
        && fits(items[q]) by {
        assert(item_matches(plan[q], items[q]));
        if plan[q] is Fetch {
            assert(brings(items[q], hashes[plan[q].block() as int]));
        }
    }
}

/// After a pull that committed what it had decided, each block fetched with
/// the digest that the remote had announced for it, the snapshot at the new
/// largest LSN records for every block the digest that the remote
/// announced, and every block reads with that digest.
pub proof fn lemma_pull_converges(
    base: StoreState,
    hashes: Seq<Seq<u8>>,
    items: Seq<RedoItem>,
    b: int,
)
    requires
        base.wf(),
        hashes.len() * LOG_BLOCK_SIZE <= u64::MAX + LOG_BLOCK_SIZE,
        max_lsn(base.redo) + items.len() <= u64::MAX,
        items_match(
            diff_plan(
                base.snapshot(max_lsn(base.redo)),
                base.cas.dom(),
                hashes,
                hashes.len() as int,
            ),
            items,
        ),
        faithful(
            diff_plan(
                base.snapshot(max_lsn(base.redo)),
                base.cas.dom(),
                hashes,
                hashes.len() as int,
            ),
            hashes,
            items,
        ),
        0 <= b < hashes.len(),
    ensures
        base.committed(items).wf(),
        complete(base.cas, items),
        hash_or_zero(
            base.committed(items).snapshot(max_lsn(base.committed(items).redo)),
            b as u64,
        ) == hashes[b],
        blake3_digest(
            image_block(
                base.committed(items).cas,
                base.committed(items).snapshot(max_lsn(base.committed(items).redo)),
                b as u64,
            ),
        ) == hashes[b],
{
    let lsn0 = max_lsn(base.redo);
    let snap = base.snapshot(lsn0);
    let n = hashes.len() as int;
    let plan = diff_plan(snap, base.cas.dom(), hashes, n);
    let fin = base.committed(items);
    let top = max_lsn(fin.redo);
    let rows = appended_rows(lsn0, items);
    let old_len = base.redo.len() as int;
    let bb = b as u64;
    lemma_plan_blocks(snap, base.cas.dom(), hashes, n);
    lemma_faithful_pull_is_complete(base.cas, snap, hashes, items);
    lemma_commit_wf(base, items);
    assert(lsn0 <= top) by {
        if items.len() > 0 {
            assert(fin.redo.last() == rows[items.len() - 1]);
        } else {
            assert(fin.redo =~= base.redo);
        }
    }
    assert forall|i: int| 0 <= i < old_len implies fin.redo[i] == base.redo[i] && base.redo[i].lsn <= lsn0 by {
        if i < old_len - 1 {
            assert(base.redo[i].lsn < base.redo[old_len - 1].lsn);
        }
    }
    assert forall|p: int| 0 <= p < items.len() implies fin.redo[old_len + p] == rows[p] && rows[p].lsn
        <= top && rows[p].block_id == plan[p].block() by {
        assert(item_matches(plan[p], items[p]));
        if p < items.len() - 1 {
            assert(fin.redo[old_len + p].lsn < fin.redo[fin.redo.len() - 1].lsn);
        }
    }
    if changed(snap, hashes, b) {
        let p = choose|p: int| 0 <= p < plan.len() && #[trigger] plan[p].block() == b;
        let i = old_len + p;
        assert(fin.redo[i] == rows[p]);
        assert(item_matches(plan[p], items[p]));
        assert(record_for(snap, base.cas.dom(), hashes, b) == Some(plan[p]));
        assert(rows[p].hash == hashes[b]) by {
            match plan[p] {
                FetchRecord::Fetch(_) => {
                    assert(plan[p] is Fetch);
                },
                FetchRecord::AssumeExist(_, h) => {},
            }
        }
        assert forall|j: int|
            0 <= j < fin.redo.len() && in_range(#[trigger] fin.redo[j], -1, top as int, bb) implies fin.redo[j].lsn
            <= fin.redo[i].lsn by {
            if j >= old_len {
                let q = j - old_len;
                assert(fin.redo[j] == rows[q]);
                assert(plan[q].block() == b);
                if q < p {
                } else if p < q {
                }
            }
        }
        lemma_latest_is(fin.redo, -1, top as int, bb, i);
    } else {
        lemma_latest(base.redo, -1, lsn0 as int, bb);
        match latest_in(base.redo, -1, lsn0 as int, bb) {
            Some(r) => {
                let k = choose|k: int| 0 <= k < base.redo.len() && base.redo[k] == r;
                assert(fin.redo[k] == r);
                assert forall|j: int|
                    0 <= j < fin.redo.len() && in_range(#[trigger] fin.redo[j], -1, top as int, bb) implies fin.redo[j].lsn
                    <= fin.redo[k].lsn by {
                    if j >= old_len {
                        let q = j - old_len;
                        assert(fin.redo[j] == rows[q]);
                        assert(plan[q].block() == b);
                        assert(changed(snap, hashes, plan[q].block() as int));
                    } else {
                        assert(in_range(base.redo[j], -1, lsn0 as int, bb));
                    }
                }
                lemma_latest_is(fin.redo, -1, top as int, bb, k);
            },
            None => {
                lemma_latest(fin.redo, -1, top as int, bb);
                match latest_in(fin.redo, -1, top as int, bb) {
                    Some(r2) => {
                        let j = choose|j: int| 0 <= j < fin.redo.len() && fin.redo[j] == r2;
                        if j >= old_len {
                            let q = j - old_len;
                            assert(fin.redo[j] == rows[q]);
                            assert(plan[q].block() == b);
                            assert(changed(snap, hashes, plan[q].block() as int));
                        } else {
                            assert(in_range(base.redo[j], -1, lsn0 as int, bb));
                        }
                    },
                    None => {},
                }
            },
        }
    }
    let after = fin.snapshot(top);
    assert(hash_or_zero(after, bb) == hashes[b]);
    {
        if after.contains_key(bb) {
            lemma_latest(fin.redo, -1, top as int, bb);
            let r = latest_in(fin.redo, -1, top as int, bb).unwrap();
            let k = choose|k: int| 0 <= k < fin.redo.len() && fin.redo[k] == r;
            assert(fin.cas.contains_key(fin.redo[k].hash));
        }
    }
}

/// The digests that the helper announces for an image of `n` blocks.
pub open spec fn image_hashes(image: Seq<u8>, n: int) -> Seq<Seq<u8>> {
    Seq::new(
        n as nat,
        |k: int| blake3_digest(padded_block(image, k * LOG_BLOCK_SIZE, LOG_BLOCK_SIZE as int)),
    )
}

/// Whether every fetched block is the block of the image at its offset,
/// padded where the image ends, as the helper sends it.
pub open spec fn fetched_from(records: Seq<FetchRecord>, image: Seq<u8>, items: Seq<RedoItem>) -> bool {
    forall|p: int|
        0 <= p < records.len() && (#[trigger] records[p]) is Fetch ==> items[p].body == RedoBody::Content(
            padded_block(image, records[p].offset() as int, LOG_BLOCK_SIZE as int),
        )
}

/// After a pull from a helper that announces the digests of the blocks of
/// an image and sends its blocks, every block of the image reads from the
/// store, at the new largest LSN, with the digest of that block of the
/// image, padded where the image ends.
pub proof fn lemma_pull_mirrors_image(base: StoreState, image: Seq<u8>, items: Seq<RedoItem>, b: int)
    requires
        base.wf(),
        image.len() <= u64::MAX,
        max_lsn(base.redo) + items.len() <= u64::MAX,
        items_match(
            diff_plan(
                base.snapshot(max_lsn(base.redo)),
                base.cas.dom(),
                image_hashes(image, block_count(image.len() as u64)),
                block_count(image.len() as u64),
            ),
            items,
        ),
        fetched_from(
            diff_plan(
                base.snapshot(max_lsn(base.redo)),
                base.cas.dom(),
                image_hashes(image, block_count(image.len() as u64)),
                block_count(image.len() as u64),
            ),
            image,
            items,
        ),
        0 <= b < block_count(image.len() as u64),
    ensures
        base.committed(items).wf(),
        complete(base.cas, items),
        blake3_digest(
            image_block(
                base.committed(items).cas,
                base.committed(items).snapshot(max_lsn(base.committed(items).redo)),
                b as u64,
            ),
        ) == blake3_digest(padded_block(image, b * LOG_BLOCK_SIZE, LOG_BLOCK_SIZE as int)),
{
    let n = block_count(image.len() as u64);
    let hashes = image_hashes(image, n);
    let snap = base.snapshot(max_lsn(base.redo));
    let plan = diff_plan(snap, base.cas.dom(), hashes, n);
    assert(n * LOG_BLOCK_SIZE <= u64::MAX + LOG_BLOCK_SIZE) by {
        if image.len() > 0 {
            let v = (image.len() - 1) as int;
            let a = LOG_BLOCK_SIZE as int;
            assert(v == a * (v / a) + v % a && 0 <= v % a) by (nonlinear_arith)
                requires
                    a > 0,
                    v >= 0,
            ;
            assert((v / a + 1) * a == a * (v / a) + a) by (nonlinear_arith);
        }
    }
    lemma_plan_blocks(snap, base.cas.dom(), hashes, n);
    assert forall|p: int| 0 <= p < plan.len() && (#[trigger] plan[p]) is Fetch implies brings(
        items[p],
        hashes[plan[p].block() as int],
    ) by {
        let k = plan[p].block() as int;
        assert(plan[p].offset() == k * LOG_BLOCK_SIZE);
        let block = padded_block(image, k * LOG_BLOCK_SIZE, LOG_BLOCK_SIZE as int);
        assert(block.len() == LOG_BLOCK_SIZE);
    }
    lemma_pull_converges(base, hashes, items, b);
}

/// A pull against an image that did not change since the last pull decides
/// nothing and so commits nothing: the log and the stored blocks stay as
/// they are, and recording the consistent point again changes nothing.
pub proof fn lemma_repeated_pull(
    s: StoreState,
    held: Set<Seq<u8>>,
    hashes: Seq<Seq<u8>>,
    p: ConsistentPoint,
    q: ConsistentPoint,
)
    requires
        s.wf(),
        forall|b: int|
            0 <= b < hashes.len() ==> hash_or_zero(s.snapshot(max_lsn(s.redo)), b as u64) == #[trigger] hashes[b],
        has_point(s.points, p.lsn),
        q.lsn == p.lsn,
    ensures
        diff_plan(s.snapshot(max_lsn(s.redo)), held, hashes, hashes.len() as int) == Seq::<
            FetchRecord,
        >::empty(),
        s.committed(Seq::<RedoItem>::empty()) == s,
        with_point(s.points, q) == s.points,
{
    let snap = s.snapshot(max_lsn(s.redo));
    assert forall|b: int| 0 <= b < hashes.len() implies !changed(snap, hashes, b) by {
        assert(hash_or_zero(snap, b as u64) == hashes[b]);
    }
    lemma_plan_unchanged(snap, held, hashes, hashes.len() as int);
    assert(s.committed(Seq::<RedoItem>::empty()).redo =~= s.redo);
    assert(s.committed(Seq::<RedoItem>::empty()) =~= s);
}

/// The decisions for an image whose blocks all have one digest, other than
/// that of the zero block, pulled into an empty store: the first block is
/// fetched and every other is taken as stored.
pub proof fn lemma_constant_plan(hashes: Seq<Seq<u8>>, h: Seq<u8>, k: int)
    requires
        0 <= k <= hashes.len(),
        forall|i: int| 0 <= i < hashes.len() ==> #[trigger] hashes[i] == h,
        h != zero_block_hash(),
    ensures
        diff_plan(Map::empty(), Set::empty(), hashes, k).len() == k,
        forall|p: int|
            0 <= p < k ==> #[trigger] diff_plan(Map::empty(), Set::empty(), hashes, k)[p] == (if p == 0 {
                FetchRecord::Fetch(0)
            } else {
                FetchRecord::AssumeExist((p * LOG_BLOCK_SIZE) as u64, h)
            }),
    decreases k,
{
    let snap = Map::<u64, Seq<u8>>::empty();
    let held = Set::<Seq<u8>>::empty();
    if k > 0 {
        lemma_constant_plan(hashes, h, k - 1);
        let b = k - 1;
        assert(changed(snap, hashes, b));
        if b > 0 {
            assert(changed(snap, hashes, 0) && hashes[0] == hashes[b]);
            assert(seen_before(snap, hashes, b, hashes[b]));
        } else {
            assert(!seen_before(snap, hashes, b, hashes[b]));
        }
        let head = diff_plan(snap, held, hashes, k - 1);
        let plan = diff_plan(snap, held, hashes, k);
        assert forall|p: int| 0 <= p < k implies #[trigger] plan[p] == (if p == 0 {
            FetchRecord::Fetch(0)
        } else {
            FetchRecord::AssumeExist((p * LOG_BLOCK_SIZE) as u64, h)
        }) by {
            if p < k - 1 {
                assert(plan[p] == head[p]);
            }
        }
    }
}

/// Deduplication: pulling into an empty store an image whose blocks all
/// hold the same content, not that of the zero block, stores that content
/// once and logs one entry per block, in block order from LSN 1 on, each
/// with its digest.
pub proof fn lemma_constant_image(hashes: Seq<Seq<u8>>, c: Seq<u8>, items: Seq<RedoItem>)
    requires
        hashes.len() >= 1,
        hashes.len() * LOG_BLOCK_SIZE <= u64::MAX + LOG_BLOCK_SIZE,
        c.len() == LOG_BLOCK_SIZE,
        forall|i: int| 0 <= i < hashes.len() ==> #[trigger] hashes[i] == blake3_digest(c),
        blake3_digest(c) != zero_block_hash(),
        items_match(diff_plan(Map::empty(), Set::empty(), hashes, hashes.len() as int), items),
        items[0].body == RedoBody::Content(c),
    ensures
        StoreState::empty().committed(items).cas == Map::<Seq<u8>, Seq<u8>>::empty().insert(
            blake3_digest(c),
            c,
        ),
        StoreState::empty().committed(items).redo.len() == hashes.len(),
        forall|i: int|
            0 <= i < hashes.len() ==> {
                let row = #[trigger] StoreState::empty().committed(items).redo[i];
                &&& row.hash == blake3_digest(c)
                &&& row.lsn == i + 1
                &&& row.block_id == i
            },
{
    let h = blake3_digest(c);
    let n = hashes.len() as int;
    let plan = diff_plan(Map::empty(), Set::empty(), hashes, n);
    lemma_constant_plan(hashes, h, n);
    let one = Map::<Seq<u8>, Seq<u8>>::empty().insert(h, c);
    assert(padded(c, LOG_BLOCK_SIZE as nat) =~= c);
    assert forall|p: int| 0 <= p < n implies item_hash(#[trigger] items[p]) == h by {
        assert(item_matches(plan[p], items[p]));
    }
    assert forall|p: int| 1 <= p < items.len() implies (#[trigger] items[p]).body == RedoBody::Hash(h) by {
        assert(item_matches(plan[p], items[p]));
    }
    lemma_constant_cas(items, c, n);
    assert(items.take(n) =~= items);
    let fin = StoreState::empty().committed(items);
    lemma_plan_blocks(Map::empty(), Set::empty(), hashes, n);
    assert forall|i: int| 0 <= i < n implies {
        let row = #[trigger] fin.redo[i];
        &&& row.hash == h
        &&& row.lsn == i + 1
        &&& row.block_id == i
    } by {
        assert(fin.redo[i] == appended_rows(0, items)[i]);
        assert(item_matches(plan[i], items[i]));
        assert(LOG_BLOCK_SIZE == 262144);
        if i > 0 {
            assert(i * 262144 <= u64::MAX) by {
                assert(plan[i].offset() == plan[i].block() * LOG_BLOCK_SIZE);
            }
            assert(((i * 262144) as u64) / 262144u64 == i);
        }
    }
}

proof fn lemma_constant_cas(items: Seq<RedoItem>, c: Seq<u8>, k: int)
    requires
        1 <= k <= items.len(),
        c.len() == LOG_BLOCK_SIZE,
        items[0].body == RedoBody::Content(c),
        forall|p: int| 1 <= p < items.len() ==> (#[trigger] items[p]).body == RedoBody::Hash(blake3_digest(c)),
    ensures
        committed_cas(Map::empty(), items.take(k)) == Map::<Seq<u8>, Seq<u8>>::empty().insert(
            blake3_digest(c),
            c,
        ),
    decreases k,
{
    let prefix = items.take(k);
    assert(prefix.drop_last() =~= items.take(k - 1));
    assert(prefix.last() == items[k - 1]);
    assert(padded(c, LOG_BLOCK_SIZE as nat) =~= c);
    if k == 1 {
        assert(items.take(0) =~= Seq::<RedoItem>::empty());
        assert(committed_cas(Map::empty(), items.take(0)) =~= Map::<Seq<u8>, Seq<u8>>::empty());
    } else {
        lemma_constant_cas(items, c, k - 1);
        assert(items[k - 1].body == RedoBody::Hash(blake3_digest(c)));
    }
    assert(committed_cas(Map::empty(), prefix) =~= Map::<Seq<u8>, Seq<u8>>::empty().insert(
        blake3_digest(c),
        c,
    ));
}

} // verus!
