//! Writing out an image as it was at a consistent point.

use vstd::prelude::*;
use vstd::string::*;
use vstd::slice::slice_subrange;
use crate::blob::make_zero_block;
use crate::config::LOG_BLOCK_SIZE;
use crate::db::{Database, Snapshot};
use crate::model::{image_block, image_bytes, point_at, stored_block, ConsistentPoint};
use crate::util::zeros;

verus! {

/// Replay
pub struct Replaycmd {
    /// Where the image is written to.
    pub output: String,
    /// The LSN to use.
    pub lsn: u64,
    /// Path to the database.
    pub db: String,
}

/// Why an image is not written out.
#[derive(Clone, Copy, Debug, PartialEq, Eq, Structural)]
pub enum ReplayError {
    /// The provided LSN is not a consistent point.
    Inconsistent,
}

impl ReplayError {
    /// What the error says.
    pub open spec fn text(self) -> Seq<char> {
        "the provided LSN is not a consistent point"@
    }

    pub fn message(&self) -> (r: String)
        ensures
            r@ == self.text(),
    {
        String::from_str("the provided LSN is not a consistent point")
    }
}

/// One thing to do to the output, at its current position.
pub enum ReplayStep {
    /// Write these bytes.
    Write(Vec<u8>),
    /// Move the position on by so many bytes, leaving a hole.
    Skip(u64),
    /// Move the position one byte back and write a zero there, so that a
    /// hole at the end becomes part of the file.
    TrailingZero,
}

/// An output: the bytes written so far and the position of the next write.
pub struct FileState {
    pub data: Seq<u8>,
    pub pos: int,
}

impl FileState {
    /// What a reader of the output finds up to the position: holes read as zeros.
    pub open spec fn logical(self) -> Seq<u8> {
        if self.pos > self.data.len() {
            self.data + zeros((self.pos - self.data.len()) as nat)
        } else {
            self.data
        }
    }

    /// The output after a write at the position.
    pub open spec fn written(self, bytes: Seq<u8>) -> FileState {
        let base = self.logical();
        let end = self.pos + bytes.len();
        let len = if end > base.len() {
            end
        } else {
            base.len() as int
        };
        FileState {
            data: Seq::new(
                len as nat,
                |i: int|
                    if self.pos <= i < end {
                        bytes[i - self.pos]
                    } else {
                        base[i]
                    },
            ),
            pos: end,
        }
    }

    /// The output after a step.
    pub open spec fn applied(self, step: ReplayStep) -> FileState {
        match step {
            ReplayStep::Write(v) => self.written(v@),
            ReplayStep::Skip(n) => FileState { data: self.data, pos: self.pos + n },
            ReplayStep::TrailingZero => (FileState { data: self.data, pos: self.pos - 1 }).written(
                seq![0u8],
            ),
        }
    }
}

/// The writing of one image, block by block.
pub struct Replay<'a> {
    db: &'a Database,
    snapshot: Snapshot,
    size: u64,
    blkdev: bool,
    offset: u64,
    last_is_seek: bool,
    finished: bool,
    file: Ghost<FileState>,
}

impl Replaycmd {
    /// Prepares to write out the image at the LSN, which has to be a
    /// consistent point. A block device is written in full; a regular file
    /// gets holes where the image has no block.
    pub fn run<'a>(&self, db: &'a Database, blkdev: bool) -> (r: Result<Replay<'a>, ReplayError>)
        requires
            db.wf(),
        ensures
            match r {
                Ok(job) => {
                    &&& job.wf()
                    &&& point_at(db@.points, self.lsn) is Some
                    &&& job.size_spec() == point_at(db@.points, self.lsn).unwrap().size
                    &&& job.image() == db@.image(self.lsn, job.size_spec() as nat)
                    &&& job.file() == (FileState { data: Seq::empty(), pos: 0 })
                    &&& job.position() == 0
                    &&& job.to_device() == blkdev
                },
                Err(e) => e == ReplayError::Inconsistent && point_at(db@.points, self.lsn) is None,
            },
    {
        let point = match db.consistent_point(self.lsn) {
            Some(p) => p,
            None => {
                return Err(ReplayError::Inconsistent);
            },
        };
        Ok(write_snapshot(db, point, blkdev))
    }
}

/// Begins the writing of the image at a consistent point.
pub fn write_snapshot<'a>(db: &'a Database, cp: ConsistentPoint, blkdev: bool) -> (job: Replay<'a>)
    requires
        db.wf(),
    ensures
        job.wf(),
        job.size_spec() == cp.size,
        job.image() == db@.image(cp.lsn, cp.size as nat),
        job.file() == (FileState { data: Seq::empty(), pos: 0 }),
        job.position() == 0,
        job.to_device() == blkdev,
{
    let snapshot = db.snapshot(cp.lsn);
    let job = Replay {
        db,
        snapshot,
        size: cp.size,
        blkdev,
        offset: 0,
        last_is_seek: false,
        finished: false,
        file: Ghost(FileState { data: Seq::empty(), pos: 0 }),
    };
    assert(job.file@.logical() =~= image_bytes(db@.cas, job.snapshot@, 0));
    job
}

impl<'a> Replay<'a> {
    /// The size of the image.
    pub closed spec fn size_spec(&self) -> u64 {
        self.size
    }

    /// The bytes of the image.
    pub closed spec fn image(&self) -> Seq<u8> {
        image_bytes(self.db@.cas, self.snapshot@, self.size as nat)
    }

    /// The output as the steps given so far leave it.
    pub closed spec fn file(&self) -> FileState {
        self.file@
    }

    /// Whether every step has been given.
    pub closed spec fn complete(&self) -> bool {
        self.finished
    }

    /// Whether the output is a block device.
    pub closed spec fn to_device(&self) -> bool {
        self.blkdev
    }

    /// The offset of the block that comes next.
    pub closed spec fn position(&self) -> u64 {
        self.offset
    }

    /// How many bytes of the image the next block covers.
    pub open spec fn reach(&self) -> int {
        if self.size_spec() - self.position() < LOG_BLOCK_SIZE {
            self.size_spec() - self.position()
        } else {
            LOG_BLOCK_SIZE as int
        }
    }

    /// The stored content of the block that comes next.
    pub closed spec fn pending_block(&self) -> Option<Seq<u8>> {
        stored_block(self.db@.cas, self.snapshot@, self.offset / (LOG_BLOCK_SIZE as u64))
    }

    /// The output holds the image up to the block that comes next.
    pub closed spec fn wf(&self) -> bool {
        &&& self.db.wf()
        &&& self.offset <= self.size
        &&& (self.offset % (LOG_BLOCK_SIZE as u64) == 0 || self.offset == self.size)
        &&& self.file@.pos == self.offset
        &&& self.file@.data.len() <= self.offset
        &&& self.file@.logical() == image_bytes(self.db@.cas, self.snapshot@, self.offset as nat)
        &&& (!self.last_is_seek ==> self.file@.data.len() == self.offset)
        &&& (self.last_is_seek ==> self.offset > 0 && self.file@.data.len() < self.offset)
        &&& (self.finished ==> self.offset == self.size && self.file@.data.len() == self.size)
    }

    pub fn size(&self) -> (r: u64)
        ensures
            r == self.size_spec(),
    {
        self.size
    }

    /// What the next step has to be. Before the end of the image: the
    /// bytes of the image that the next block covers, written where the
    /// block is stored or the output is a block device, skipped otherwise.
    /// At the end: one trailing zero where the output falls short of the
    /// image, which is after a skip, and nothing otherwise.
    pub open spec fn step_due(&self, r: Option<ReplayStep>) -> bool {
        if self.position() < self.size_spec() {
            match r {
                Some(ReplayStep::Write(v)) => {
                    &&& self.pending_block() is Some || self.to_device()
                    &&& v@ == self.image().subrange(
                        self.position() as int,
                        self.position() + self.reach(),
                    )
                },
                Some(ReplayStep::Skip(n)) => {
                    &&& self.pending_block() is None && !self.to_device()
                    &&& n == self.reach()
                },
                _ => false,
            }
        } else if self.file().data.len() < self.size_spec() {
            match r {
                Some(ReplayStep::TrailingZero) => true,
                _ => false,
            }
        } else {
            r is None
        }
    }

    /// What holds of the output while an image is written: it stands at the
    /// block that comes next, has no byte beyond it, and reads as the image
    /// does up to there.
    pub proof fn lemma_wf(&self)
        requires
            self.wf(),
        ensures
            self.position() <= self.size_spec(),
            self.file().pos == self.position(),
            self.file().data.len() <= self.position(),
            self.file().logical() == self.image().subrange(0, self.position() as int),
    {
        assert(image_bytes(self.db@.cas, self.snapshot@, self.offset as nat) =~= self.image().subrange(
            0,
            self.offset as int,
        ));
    }

    /// The next step, if one is left. Once none is left, the output holds
    /// the whole image.
    pub fn next_step(&mut self) -> (r: Option<ReplayStep>)
        requires
            old(self).wf(),
        ensures
            final(self).wf(),
            final(self).size_spec() == old(self).size_spec(),
            final(self).image() == old(self).image(),
            final(self).to_device() == old(self).to_device(),
            match r {
                Some(step) => final(self).file() == old(self).file().applied(step),
                None => {
                    &&& final(self).file() == old(self).file()
                    &&& final(self).complete()
                    &&& final(self).file().data == final(self).image()
                },
            },
            old(self).step_due(r),
            final(self).position() == (if old(self).position() < old(self).size_spec() {
                old(self).position() + old(self).reach()
            } else {
                old(self).position() as int
            }),
    {
        proof {
            self.db.lemma_wf();
        }
        let ghost cas = self.db@.cas;
        let ghost snap = self.snapshot@;
        let ghost before = self.file@;
        if self.offset < self.size {
            let left = self.size - self.offset;
            let write_len: usize = if left < LOG_BLOCK_SIZE as u64 {
                left as usize
            } else {
                LOG_BLOCK_SIZE
            };
            let b = self.offset / (LOG_BLOCK_SIZE as u64);
            let ghost block = image_block(cas, snap, b);
            let ghost next = (self.offset + write_len) as nat;
            assert(block.len() == LOG_BLOCK_SIZE);
            proof {
                let size = self.size as nat;
                let from = self.offset as int;
                assert forall|k: int| 0 <= k < write_len implies block[k] == image_bytes(cas, snap, size)[from
                    + k] by {
                    let i = from + k;
                    assert(i / (LOG_BLOCK_SIZE as int) == b as int) by (nonlinear_arith)
                        requires
                            from % (LOG_BLOCK_SIZE as int) == 0,
                            b == from / (LOG_BLOCK_SIZE as int),
                            from <= i < from + write_len,
                            write_len <= LOG_BLOCK_SIZE,
                            LOG_BLOCK_SIZE == 262144,
                    ;
                    assert(i % (LOG_BLOCK_SIZE as int) == i - from) by (nonlinear_arith)
                        requires
                            from % (LOG_BLOCK_SIZE as int) == 0,
                            b == from / (LOG_BLOCK_SIZE as int),
                            from <= i < from + write_len,
                            write_len <= LOG_BLOCK_SIZE,
                            LOG_BLOCK_SIZE == 262144,
                    ;
                }
                assert(block.subrange(0, write_len as int) =~= image_bytes(cas, snap, size).subrange(
                    from,
                    from + write_len,
                ));
            }
            let step = match self.snapshot.read_block(self.db, b) {
                Some(v) => {
                    let part = slice_subrange(v.as_slice(), 0, write_len);
                    self.last_is_seek = false;
                    ReplayStep::Write(vstd::slice::slice_to_vec(part))
                },
                None => {
                    if self.blkdev {
                        let z = make_zero_block();
                        let part = slice_subrange(z.as_slice(), 0, write_len);
                        self.last_is_seek = false;
                        ReplayStep::Write(vstd::slice::slice_to_vec(part))
                    } else {
                        self.last_is_seek = true;
                        ReplayStep::Skip(write_len as u64)
                    }
                },
            };
            proof {
                let after = before.applied(step);
                let want = image_bytes(cas, snap, next);
                assert(after.logical().len() == want.len());
                assert forall|i: int| 0 <= i < want.len() implies after.logical()[i] == want[i] by {
                    if i >= self.offset {
                        assert(i / (LOG_BLOCK_SIZE as int) == b as int) by (nonlinear_arith)
                            requires
                                self.offset % (LOG_BLOCK_SIZE as u64) == 0,
                                b == self.offset / (LOG_BLOCK_SIZE as u64),
                                self.offset <= i < self.offset + write_len,
                                write_len <= LOG_BLOCK_SIZE,
                                LOG_BLOCK_SIZE == 262144,
                        ;
                        assert(i % (LOG_BLOCK_SIZE as int) == i - self.offset) by (nonlinear_arith)
                            requires
                                self.offset % (LOG_BLOCK_SIZE as u64) == 0,
                                b == self.offset / (LOG_BLOCK_SIZE as u64),
                                self.offset <= i < self.offset + write_len,
                                write_len <= LOG_BLOCK_SIZE,
                                LOG_BLOCK_SIZE == 262144,
                        ;
                    } else {
                        assert(before.logical()[i] == image_bytes(cas, snap, self.offset as nat)[i]);
                    }
                }
                assert(after.logical() =~= want);
                self.file@ = after;
            }
            self.offset = self.offset + write_len as u64;
            Some(step)
        } else if !self.finished {
            self.finished = true;
            if self.last_is_seek {
                proof {
                    let after = before.applied(ReplayStep::TrailingZero);
                    let want = image_bytes(cas, snap, self.size as nat);
                    assert(after.data.len() == want.len());
                    assert forall|i: int| 0 <= i < want.len() implies after.data[i] == want[i] by {
                        assert(before.logical()[i] == want[i]);
                    }
                    assert(after.data =~= want);
                    assert(after.logical() =~= want);
                    self.file@ = after;
                }
                self.last_is_seek = false;
                Some(ReplayStep::TrailingZero)
            } else {
                assert(before.logical() =~= before.data);
                None
            }
        } else {
            assert(before.logical() =~= before.data);
            None
        }
    }
}

} // verus!
