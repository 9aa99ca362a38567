//! Reading an image as it was at a consistent point.

use vstd::prelude::*;
use vstd::slice::slice_subrange;
use vstd::string::*;
use vstd::utf8::encode_utf8;
use lru::LruCache;
use crate::blob::{make_zero_block, zero_block};
use crate::cache::{cache_cap, cache_contents, cache_new, cache_peek, cache_put, cache_touch};
use crate::config::LOG_BLOCK_SIZE;
use crate::db::{Database, Snapshot};
use crate::model::{image_block, image_window, point_at, ConsistentPoint};

verus! {

/// Blocks that a reader keeps at hand.
pub const CACHE_BLOCKS: usize = 100;

/// Serve an image at a consistent point as a read-only block device.
pub struct Servecmd {
    /// The LSN to use.
    pub lsn: u64,
    /// Path to the database.
    pub db: String,
    /// Where to listen: `host:port`, or `unix:` and a path.
    pub listen: String,
}

/// Why an image is not served, or a request not met.
#[derive(Clone, Copy, Debug, PartialEq, Eq, Structural)]
pub enum ServeError {
    /// The provided LSN is not a consistent point.
    Inconsistent,
    /// The device is read-only.
    ReadOnly,
    /// The request reaches beyond what can be addressed.
    OutOfRange,
}

impl ServeError {
    /// What the error says.
    pub open spec fn text(self) -> Seq<char> {
        match self {
            ServeError::Inconsistent => "the provided LSN is not a consistent point"@,
            ServeError::ReadOnly => "read only block device"@,
            ServeError::OutOfRange => "read beyond the end of the address space"@,
        }
    }

    pub fn message(&self) -> (r: String)
        ensures
            r@ == self.text(),
    {
        match self {
            ServeError::Inconsistent => String::from_str("the provided LSN is not a consistent point"),
            ServeError::ReadOnly => String::from_str("read only block device"),
            ServeError::OutOfRange => String::from_str("read beyond the end of the address space"),
        }
    }
}

/// Where a server listens.
pub enum ListenAddr {
    /// A Unix-domain socket at this path.
    Unix(Vec<u8>),
    /// A TCP socket at this address.
    Tcp(String),
}

/// The prefix that marks the path of a Unix-domain socket.
pub open spec fn unix_prefix() -> Seq<u8> {
    seq![117u8, 110, 105, 120, 58]
}

/// Whether an address names a Unix-domain socket.
pub open spec fn is_unix(addr: Seq<u8>) -> bool {
    addr.len() >= 5 && addr.subrange(0, 5) == unix_prefix()
}

/// Tells a Unix-domain socket, `unix:` and its path, from a TCP address.
pub fn do_listen(addr: &str) -> (r: ListenAddr)
    ensures
        match r {
            ListenAddr::Unix(path) => is_unix(encode_utf8(addr@)) && path@ == encode_utf8(addr@).skip(5),
            ListenAddr::Tcp(text) => !is_unix(encode_utf8(addr@)) && text@ == addr@,
        },
{
    let bytes = addr.as_bytes();
    if bytes.len() >= 5 && bytes[0] == 117 && bytes[1] == 110 && bytes[2] == 105 && bytes[3] == 120
        && bytes[4] == 58 {
        assert(bytes@.subrange(0, 5) =~= unix_prefix());
        let rest = slice_subrange(bytes, 5, bytes.len());
        assert(rest@ =~= bytes@.skip(5));
        ListenAddr::Unix(vstd::slice::slice_to_vec(rest))
    } else {
        proof {
            if bytes@.len() >= 5 {
                let head = bytes@.subrange(0, 5);
                assert(head[0] == bytes@[0] && head[1] == bytes@[1] && head[2] == bytes@[2] && head[3]
                    == bytes@[3] && head[4] == bytes@[4]);
            }
        }
        ListenAddr::Tcp(addr.to_owned())
    }
}

/// What a server needs to serve an image.
pub struct ServePlan {
    /// The consistent point that is served; its size is that of the device.
    pub point: ConsistentPoint,
    pub snapshot: Snapshot,
    pub listen: ListenAddr,
}

impl Servecmd {
    /// Prepares to serve: the LSN has to be a consistent point.
    pub fn run(&self, db: &Database) -> (r: Result<ServePlan, ServeError>)
        requires
            db.wf(),
        ensures
            match r {
                Ok(plan) => {
                    &&& point_at(db@.points, self.lsn) == Some(plan.point)
                    &&& plan.snapshot@ == db@.snapshot(plan.point.lsn)
                    &&& plan.snapshot.lsn_spec() == plan.point.lsn
                    &&& match plan.listen {
                        ListenAddr::Unix(path) => is_unix(encode_utf8(self.listen@)) && path@
                            == encode_utf8(self.listen@).skip(5),
                        ListenAddr::Tcp(text) => !is_unix(encode_utf8(self.listen@)) && text@
                            == self.listen@,
                    }
                },
                Err(e) => e == ServeError::Inconsistent && point_at(db@.points, self.lsn) is None,
            },
    {
        let point = match db.consistent_point(self.lsn) {
            Some(p) => p,
            None => {
                return Err(ServeError::Inconsistent);
            },
        };
        let snapshot = db.snapshot(point.lsn);
        let listen = do_listen(self.listen.as_str());
        Ok(ServePlan { point, snapshot, listen })
    }
}

/// A reader of one image, with a cursor and a cache of blocks.
pub struct Service<'a> {
    db: &'a Database,
    snapshot: &'a Snapshot,
    cursor: u64,
    cache: LruCache<u64, Vec<u8>>,
    zero: Vec<u8>,
}

impl<'a> Service<'a> {
    /// The stored blocks that the reader reads from.
    pub closed spec fn cas(&self) -> Map<Seq<u8>, Seq<u8>> {
        self.db@.cas
    }

    /// The snapshot that the reader reads.
    pub closed spec fn snap(&self) -> Map<u64, Seq<u8>> {
        self.snapshot@
    }

    /// Where the next read begins.
    pub closed spec fn position(&self) -> u64 {
        self.cursor
    }

    /// Every cached block is the block of the image.
    pub closed spec fn wf(&self) -> bool {
        &&& self.db.wf()
        &&& self.zero@ == zero_block()
        &&& cache_cap(self.cache) == CACHE_BLOCKS
        &&& forall|k: u64| #[trigger]
            cache_contents(self.cache).contains_key(k) ==> cache_contents(self.cache)[k] == image_block(
                self.db@.cas,
                self.snapshot@,
                k,
            )
    }

    /// A reader at the start of the image.
    pub fn new(db: &'a Database, snapshot: &'a Snapshot) -> (s: Service<'a>)
        requires
            db.wf(),
        ensures
            s.wf(),
            s.position() == 0,
            s.cas() == db@.cas,
            s.snap() == snapshot@,
    {
        Service { db, snapshot, cursor: 0, cache: cache_new(CACHE_BLOCKS), zero: make_zero_block() }
    }

    /// Moves the cursor.
    pub fn seek(&mut self, pos: u64) -> (r: u64)
        requires
            old(self).wf(),
        ensures
            final(self).wf(),
            final(self).position() == pos,
            r == pos,
            final(self).cas() == old(self).cas(),
            final(self).snap() == old(self).snap(),
    {
        self.cursor = pos;
        pos
    }

    /// Appends `len` bytes of block `b`, from `from` on, to `out`.
    fn append_block(&mut self, b: u64, from: usize, len: usize, out: &mut Vec<u8>)
        requires
            old(self).wf(),
            from + len <= LOG_BLOCK_SIZE,
        ensures
            final(self).wf(),
            final(self).position() == old(self).position(),
            final(self).cas() == old(self).cas(),
            final(self).snap() == old(self).snap(),
            final(out)@ == old(out)@ + image_block(old(self).cas(), old(self).snap(), b).subrange(
                from as int,
                from + len,
            ),
    {
        proof {
            self.db.lemma_wf();
        }
        let ghost before = out@;
        let ghost want = image_block(self.cas(), self.snap(), b).subrange(from as int, from + len);
        if cache_touch(&mut self.cache, b) {
            match cache_peek(&self.cache, b) {
                Some(block) => {
                    out.extend_from_slice(slice_subrange(block.as_slice(), from, from + len));
                },
                None => vstd::pervasive::unreached(),
            }
        } else {
            match self.snapshot.read_block(self.db, b) {
                Some(block) => {
                    out.extend_from_slice(slice_subrange(block.as_slice(), from, from + len));
                    cache_put(&mut self.cache, b, block);
                },
                None => {
                    out.extend_from_slice(slice_subrange(self.zero.as_slice(), from, from + len));
                },
            }
        }
        assert(out@ =~= before + want);
    }

    /// Reads `len` bytes at the cursor and moves the cursor behind them.
    /// Where the store holds no block, the bytes are zero. A read that
    /// would pass the largest position is refused.
    pub fn read(&mut self, len: usize) -> (r: Result<Vec<u8>, ServeError>)
        requires
            old(self).wf(),
        ensures
            final(self).wf(),
            final(self).cas() == old(self).cas(),
            final(self).snap() == old(self).snap(),
            match r {
                Ok(v) => {
                    &&& old(self).position() + len <= u64::MAX
                    &&& final(self).position() == old(self).position() + len
                    &&& v@ == image_window(
                        old(self).cas(),
                        old(self).snap(),
                        old(self).position() as int,
                        len as nat,
                    )
                },
                Err(e) => {
                    &&& e == ServeError::OutOfRange
                    &&& old(self).position() + len > u64::MAX
                    &&& final(self).position() == old(self).position()
                },
            },
    {
        if len as u64 > u64::MAX - self.cursor {
            return Err(ServeError::OutOfRange);
        }
        let start = self.cursor;
        let ghost cas = self.cas();
        let ghost snap = self.snap();
        let mut out: Vec<u8> = Vec::new();
        let mut pos: u64 = start;
        let mut left: usize = len;
        assert(out@ =~= image_window(cas, snap, start as int, 0));
        while left > 0
            invariant
                self.wf(),
                self.cas() == cas,
                self.snap() == snap,
                self.position() == start,
                start + len <= u64::MAX,
                pos + left == start + len,
                left <= len,
                out@ == image_window(cas, snap, start as int, (len - left) as nat),
            decreases left,
        {
            let b = pos / (LOG_BLOCK_SIZE as u64);
            let within = (pos % (LOG_BLOCK_SIZE as u64)) as usize;
            let room = LOG_BLOCK_SIZE - within;
            let take = if left < room {
                left
            } else {
                room
            };
            let ghost before = out@;
            self.append_block(b, within, take, &mut out);
            proof {
                let done = (len - left) as nat;
                let want = image_window(cas, snap, start as int, (done + take) as nat);
                self.db.lemma_wf();
                assert(image_block(cas, snap, b).len() == LOG_BLOCK_SIZE);
                assert(out@.len() == want.len());
                assert forall|i: int| 0 <= i < want.len() implies out@[i] == want[i] by {
                    if i >= done {
                        let p = start + i;
                        assert(p == pos + (i - done));
                        assert(p / (LOG_BLOCK_SIZE as int) == b as int) by (nonlinear_arith)
                            requires
                                p == pos + (i - done),
                                0 <= i - done < take,
                                take <= LOG_BLOCK_SIZE - within,
                                within == pos % (LOG_BLOCK_SIZE as u64),
                                b == pos / (LOG_BLOCK_SIZE as u64),
                                LOG_BLOCK_SIZE == 262144,
                        ;
                        assert(p % (LOG_BLOCK_SIZE as int) == within + (i - done)) by (nonlinear_arith)
                            requires
                                p == pos + (i - done),
                                0 <= i - done < take,
                                take <= LOG_BLOCK_SIZE - within,
                                within == pos % (LOG_BLOCK_SIZE as u64),
                                b == pos / (LOG_BLOCK_SIZE as u64),
                                LOG_BLOCK_SIZE == 262144,
                        ;
                    } else {
                        assert(out@[i] == before[i]);
                    }
                }
                assert(out@ =~= want);
            }
            pos = pos + take as u64;
            left = left - take;
        }
        self.cursor = start + len as u64;
        Ok(out)
    }

    /// Refuses to write: the device is read-only.
    pub fn write(&mut self, data: &[u8]) -> (r: Result<usize, ServeError>)
        ensures
            r == Err::<usize, ServeError>(ServeError::ReadOnly),
            *final(self) == *old(self),
    {
        Err(ServeError::ReadOnly)
    }

    /// Has nothing to flush.
    pub fn flush(&mut self) -> (r: Result<(), ServeError>)
        ensures
            r is Ok,
            *final(self) == *old(self),
    {
        Ok(())
    }
}

} // verus!
