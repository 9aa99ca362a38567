//! The undo log: a file of records, each the old content of a region of an
//! image, by which the image is taken back to what it was.

use vstd::prelude::*;
use vstd::bytes::{spec_u64_from_le_bytes, spec_u64_to_le_bytes};
use vstd::slice::slice_subrange;
use crate::blob::bytes_are;
use crate::buffer_writer::{flushed, BufferWriter};
use crate::digest::{sha256_digest, sha256hash, slice_is_hash};
use crate::text::{digit_char, parse_u64, parsed_u64};

verus! {

/// The largest log chunk number that has a name.
pub const MAX_LCN: u32 = 99999999;

/// Writes that are held back before they are made together.
pub const BUF_SIZE: usize = 128;

/// What an undo log begins with: `BLKPATCH_UNDO_V1` and a zero byte.
pub const UNDO_MAGIC: [u8; 17] = [66, 76, 75, 80, 65, 84, 67, 72, 95, 85, 78, 68, 79, 95, 86, 49, 0];

/// A number in decimal in exactly `width` digits, zeros in front.
pub open spec fn fixed_decimal(x: nat, width: nat) -> Seq<char>
    decreases width,
{
    if width == 0 {
        Seq::empty()
    } else {
        fixed_decimal(x / 10, (width - 1) as nat).push(digit_char(x % 10))
    }
}

fn push_fixed(s: &mut String, x: u32, width: u32)
    ensures
        final(s)@ == old(s)@ + fixed_decimal(x as nat, width as nat),
    decreases width,
{
    if width > 0 {
        push_fixed(s, x / 10, width - 1);
        let d: u8 = (x % 10) as u8;
        s.push((48 + d) as char);
        assert(final(s)@ =~= old(s)@ + fixed_decimal(x as nat, width as nat));
    } else {
        assert(final(s)@ =~= old(s)@ + fixed_decimal(x as nat, width as nat));
    }
}

/// Format a Log Chunk Number (LCN): eight decimal digits.
pub fn format_lcn(x: u32) -> (r: String)
    requires
        x <= MAX_LCN,
    ensures
        r@ == fixed_decimal(x as nat, 8),
        r@.len() == 8,
{
    let mut s = String::new();
    push_fixed(&mut s, x, 8);
    proof {
        lemma_fixed_len(x as nat, 8);
        assert(s@ =~= fixed_decimal(x as nat, 8));
    }
    s
}

proof fn lemma_fixed_len(x: nat, width: nat)
    ensures
        fixed_decimal(x, width).len() == width,
    decreases width,
{
    if width > 0 {
        lemma_fixed_len(x / 10, (width - 1) as nat);
    }
}

/// Calls `byteorder::LittleEndian::write_u64` on a buffer of eight bytes:
/// the number, least significant byte first.
#[verifier::external_body]
pub(crate) fn le_bytes(n: u64) -> (r: [u8; 8])
    ensures
        r@ == spec_u64_to_le_bytes(n),
{
    let mut buf = [0u8; 8];
    <byteorder::LittleEndian as byteorder::ByteOrder>::write_u64(&mut buf, n);
    buf
}

/// Calls `byteorder::LittleEndian::read_u64`: the number that the first
/// eight bytes hold, least significant byte first.
#[verifier::external_body]
pub(crate) fn le_value(bytes: &[u8]) -> (r: u64)
    requires
        bytes@.len() >= 8,
    ensures
        r == spec_u64_from_le_bytes(bytes@.subrange(0, 8)),
{
    <byteorder::LittleEndian as byteorder::ByteOrder>::read_u64(bytes)
}

/// What the checksum of a record is taken of.
pub open spec fn checksum_input(offset: u64, old_data: Seq<u8>, new_data: Seq<u8>) -> Seq<u8> {
    spec_u64_to_le_bytes(offset) + old_data + new_data
}

/// Compute the SHA256 checksum of offset + data.
pub fn checksum_undo_data(offset: u64, old_data: &[u8], new_data: &[u8]) -> (r: [u8; 32])
    requires
        old_data@.len() == new_data@.len(),
    ensures
        r@ == sha256_digest(checksum_input(offset, old_data@, new_data@)),
{
    let offset_bytes = le_bytes(offset);
    let mut input: Vec<u8> = Vec::new();
    input.extend_from_slice(offset_bytes.as_slice());
    input.extend_from_slice(old_data);
    input.extend_from_slice(new_data);
    assert(input@ =~= checksum_input(offset, old_data@, new_data@));
    sha256hash(input.as_slice())
}

/// The record that lets a change be undone: checksum, offset, length and
/// old content. A change that changes nothing has none.
pub open spec fn record_bytes(offset: u64, old_data: Seq<u8>, new_data: Seq<u8>) -> Seq<u8> {
    if old_data == new_data {
        Seq::empty()
    } else {
        sha256_digest(checksum_input(offset, old_data, new_data)) + spec_u64_to_le_bytes(offset)
            + spec_u64_to_le_bytes(old_data.len() as u64) + old_data
    }
}

/// The log that undoes what is being done.
pub struct UndoSink {
    our_log_index: u32,
    backing: Vec<u8>,
}

impl UndoSink {
    /// The number of the log.
    pub closed spec fn index(&self) -> u32 {
        self.our_log_index
    }

    /// The records written and not yet handed out.
    pub closed spec fn buffered(&self) -> Seq<u8> {
        self.backing@
    }

    /// The log that follows the checkpoint: number 0 where there is no
    /// checkpoint, the next number otherwise. There is none beyond the
    /// largest number that has a name.
    pub fn from_source(checkpoint_index: Option<u32>) -> (r: Option<UndoSink>)
        ensures
            match r {
                Some(sink) => sink.buffered() == UNDO_MAGIC@ && sink.index() <= MAX_LCN && (match checkpoint_index {
                    Some(i) => sink.index() == i + 1,
                    None => sink.index() == 0,
                }),
                None => checkpoint_index is Some && checkpoint_index.unwrap() >= MAX_LCN,
            },
    {
        let our_log_index = match checkpoint_index {
            Some(i) => {
                if i >= MAX_LCN {
                    return None;
                }
                i + 1
            },
            None => 0,
        };
        let mut backing: Vec<u8> = Vec::new();
        backing.extend_from_slice(UNDO_MAGIC.as_slice());
        assert(backing@ =~= UNDO_MAGIC@);
        Some(UndoSink { our_log_index, backing })
    }

    pub fn log_index(&self) -> (r: u32)
        ensures
            r == self.index(),
    {
        self.our_log_index
    }

    /// Appends the record that undoes the change from `old_data` to `new_data`.
    pub fn write(&mut self, offset: u64, old_data: &[u8], new_data: &[u8])
        requires
            old_data@.len() == new_data@.len(),
        ensures
            final(self).index() == old(self).index(),
            final(self).buffered() == old(self).buffered() + record_bytes(offset, old_data@, new_data@),
    {
        if bytes_are(old_data, new_data) {
            assert(self.backing@ + Seq::<u8>::empty() =~= self.backing@);
            return ;
        }
        let checksum = checksum_undo_data(offset, old_data, new_data);
        let ghost before = self.backing@;
        self.backing.extend_from_slice(checksum.as_slice());
        self.backing.extend_from_slice(le_bytes(offset).as_slice());
        self.backing.extend_from_slice(le_bytes(old_data.len() as u64).as_slice());
        self.backing.extend_from_slice(old_data);
        assert(self.backing@ =~= before + record_bytes(offset, old_data@, new_data@));
    }

    /// Hands out what was written since the last time, to be made durable.
    pub fn commit(&mut self) -> (r: Vec<u8>)
        ensures
            r@ == old(self).buffered(),
            final(self).index() == old(self).index(),
            final(self).buffered() == Seq::<u8>::empty(),
    {
        let mut out: Vec<u8> = Vec::new();
        std::mem::swap(&mut self.backing, &mut out);
        out
    }

    /// Ends the log: hands out what is left, and the number to checkpoint.
    pub fn finalize(self) -> (r: (Vec<u8>, u32))
        ensures
            r.0@ == self.buffered(),
            r.1 == self.index(),
    {
        (self.backing, self.our_log_index)
    }
}

/// Why an undo log cannot be replayed.
#[derive(Clone, Copy, Debug, PartialEq, Eq, Structural)]
pub enum UndoError {
    /// The log does not begin as an undo log does.
    BadMagic,
    /// The log ends inside a record, or before its first.
    Truncated,
    /// A record reaches beyond the image.
    OutOfRange,
}

/// The checkpoint that a checkpoint file records: none in an empty file.
pub open spec fn checkpoint_of(text: Seq<u8>) -> Result<Option<u32>, ()> {
    if text.len() == 0 {
        Ok(None)
    } else {
        match parsed_u64(text) {
            Some(n) => if n <= u32::MAX {
                Ok(Some(n as u32))
            } else {
                Err(())
            },
            None => Err(()),
        }
    }
}

/// Reads the checkpoint that a checkpoint file records.
pub fn read_checkpoint(text: &[u8]) -> (r: Result<Option<u32>, ()>)
    ensures
        r == checkpoint_of(text@),
{
    if text.len() == 0 {
        return Ok(None);
    }
    match parse_u64(text) {
        Some(n) => {
            if n <= u32::MAX as u64 {
                Ok(Some(n as u32))
            } else {
                Err(())
            }
        },
        None => Err(()),
    }
}

/// One record of an undo log.
pub struct UndoRecord {
    pub checksum: Seq<u8>,
    pub offset: u64,
    pub data: Seq<u8>,
}

/// The record at `pos`, and where the next begins; none where the log ends
/// inside the record.
pub open spec fn record_at(log: Seq<u8>, pos: int) -> Option<(UndoRecord, int)> {
    if log.len() - pos < 48 {
        None
    } else {
        let size = spec_u64_from_le_bytes(log.subrange(pos + 40, pos + 48));
        if log.len() - pos - 48 < size {
            None
        } else {
            Some(
                (
                    UndoRecord {
                        checksum: log.subrange(pos, pos + 32),
                        offset: spec_u64_from_le_bytes(log.subrange(pos + 32, pos + 40)),
                        data: log.subrange(pos + 48, pos + 48 + size),
                    },
                    pos + 48 + size,
                ),
            )
        }
    }
}

/// A replay under way.
pub struct ReplayState {
    /// The image as the writes made so far have left it.
    pub image: Seq<u8>,
    /// The writes that are held back.
    pub pending: Seq<(usize, Seq<u8>)>,
    /// The records that undo the replay.
    pub redo: Seq<u8>,
    /// Whether a record failed its checksum.
    pub failed: bool,
}

impl ReplayState {
    /// The replay after a record; none where the record reaches beyond the
    /// image. A record that changes nothing is passed over. Its checksum
    /// has to be that of its offset, its content and the content it
    /// replaces, or it is passed over and the failure noted. Otherwise its
    /// write is held back, the record that undoes it is noted, and once
    /// enough writes are held back they are made.
    pub open spec fn after(self, rec: UndoRecord) -> Option<ReplayState> {
        if rec.offset + rec.data.len() > self.image.len() {
            None
        } else {
            let sink = self.image.subrange(rec.offset as int, rec.offset + rec.data.len());
            if rec.data == sink {
                Some(self)
            } else if sha256_digest(checksum_input(rec.offset, rec.data, sink)) != rec.checksum {
                Some(ReplayState { failed: true, ..self })
            } else {
                let pending = self.pending.push((rec.offset as usize, rec.data));
                let redo = self.redo + record_bytes(rec.offset, sink, rec.data);
                if pending.len() >= BUF_SIZE {
                    Some(
                        ReplayState {
                            image: flushed(self.image, pending),
                            pending: Seq::empty(),
                            redo,
                            ..self
                        },
                    )
                } else {
                    Some(ReplayState { pending, redo, ..self })
                }
            }
        }
    }

    /// The replay once the held back writes are made.
    pub open spec fn settled(self) -> ReplayState {
        ReplayState { image: flushed(self.image, self.pending), pending: Seq::empty(), ..self }
    }
}

/// The replay of the records from `pos` on. Fewer than 32 bytes left end
/// the log; an error leaves the held back writes unmade.
pub open spec fn replay_from(log: Seq<u8>, pos: int, st: ReplayState) -> (ReplayState, Option<UndoError>)
    decreases log.len() - pos,
{
    if pos < 0 || log.len() - pos < 32 {
        (st.settled(), None)
    } else {
        match record_at(log, pos) {
            None => (st, Some(UndoError::Truncated)),
            Some((rec, next)) => match st.after(rec) {
                None => (st, Some(UndoError::OutOfRange)),
                Some(st2) => replay_from(log, next, st2),
            },
        }
    }
}

/// The replay of a whole log on an image, with the records that undo it
/// appended to `redo`.
pub open spec fn replayed(image: Seq<u8>, log: Seq<u8>, redo: Seq<u8>) -> (ReplayState, Option<UndoError>) {
    let start = ReplayState { image, pending: Seq::empty(), redo, failed: false };
    if log.len() < 17 {
        (start, Some(UndoError::Truncated))
    } else if log.subrange(0, 17) != UNDO_MAGIC@ {
        (start, Some(UndoError::BadMagic))
    } else {
        replay_from(log, 17, start)
    }
}

/// What a replay leaves.
pub struct UndoReplay {
    /// The image after the replay.
    pub image: Vec<u8>,
    /// Whether a record failed its checksum, or why the replay ended early.
    pub outcome: Result<bool, UndoError>,
}

/// Replays an undo log on an image: every record whose checksum holds
/// puts the content it carries back in place, and the record that undoes
/// this goes to `redo`.
pub fn replay_undo_log(image: Vec<u8>, log: &[u8], redo: &mut UndoSink) -> (r: UndoReplay)
    ensures
        final(redo).index() == old(redo).index(),
        r.image@ == replayed(image@, log@, old(redo).buffered()).0.image,
        final(redo).buffered() == replayed(image@, log@, old(redo).buffered()).0.redo,
        match r.outcome {
            Ok(failed) => replayed(image@, log@, old(redo).buffered()).1 is None && failed == replayed(
                image@,
                log@,
                old(redo).buffered(),
            ).0.failed,
            Err(e) => replayed(image@, log@, old(redo).buffered()).1 == Some(e),
        },
{
    let ghost image0 = image@;
    let ghost redo0 = redo.buffered();
    let ghost start = ReplayState { image: image0, pending: Seq::empty(), redo: redo0, failed: false };
    if log.len() < 17 {
        return UndoReplay { image, outcome: Err(UndoError::Truncated) };
    }
    if !bytes_are(slice_subrange(log, 0, 17), UNDO_MAGIC.as_slice()) {
        return UndoReplay { image, outcome: Err(UndoError::BadMagic) };
    }
    let total = image.len();
    let mut has_checksum_failure = false;
    let mut buf_writer = BufferWriter::new(image);
    let mut pos: usize = 17;
    let ghost goal = replayed(image0, log@, redo0);
    assert(goal == replay_from(log@, 17, start));
    loop
        invariant
            17 <= pos <= log@.len(),
            total == buf_writer.bytes().len(),
            buf_writer.in_bounds(),
            buf_writer.pending().len() < BUF_SIZE,
            redo.index() == old(redo).index(),
            image0 == image@,
            redo0 == old(redo).buffered(),
            goal == replayed(image0, log@, redo0),
            goal == replay_from(
                log@,
                pos as int,
                ReplayState {
                    image: buf_writer.bytes(),
                    pending: buf_writer.pending(),
                    redo: redo.buffered(),
                    failed: has_checksum_failure,
                },
            ),
        ensures
            redo.index() == old(redo).index(),
            total == buf_writer.bytes().len(),
            buf_writer.in_bounds(),
            goal == ((ReplayState {
                image: buf_writer.bytes(),
                pending: buf_writer.pending(),
                redo: redo.buffered(),
                failed: has_checksum_failure,
            }).settled(), None::<UndoError>),
        decreases log@.len() - pos,
    {
        let ghost st = ReplayState {
            image: buf_writer.bytes(),
            pending: buf_writer.pending(),
            redo: redo.buffered(),
            failed: has_checksum_failure,
        };
        if log.len() - pos < 32 {
            break ;
        }
        if log.len() - pos < 48 {
            assert(record_at(log@, pos as int) is None);
            return UndoReplay { image: buf_writer.into_inner(), outcome: Err(UndoError::Truncated) };
        }
        let checksum = slice_subrange(log, pos, pos + 32);
        let offset = le_value(slice_subrange(log, pos + 32, pos + 40));
        let size = le_value(slice_subrange(log, pos + 40, pos + 48));
        proof {
            assert(log@.subrange(pos + 32, pos + 40).subrange(0, 8) =~= log@.subrange(pos + 32, pos + 40));
            assert(log@.subrange(pos + 40, pos + 48).subrange(0, 8) =~= log@.subrange(pos + 40, pos + 48));
        }
        if size > (log.len() - pos - 48) as u64 {
            assert(record_at(log@, pos as int) is None);
            return UndoReplay { image: buf_writer.into_inner(), outcome: Err(UndoError::Truncated) };
        }
        let len = size as usize;
        let next = pos + 48 + len;
        let data = slice_subrange(log, pos + 48, next);
        let ghost rec = UndoRecord { checksum: checksum@, offset, data: data@ };
        assert(record_at(log@, pos as int) == Some((rec, next as int)));
        if offset > total as u64 || size > total as u64 - offset {
            assert(st.after(rec) is None);
            return UndoReplay { image: buf_writer.into_inner(), outcome: Err(UndoError::OutOfRange) };
        }
        let at = offset as usize;
        let current = buf_writer.as_slice();
        let sink = slice_subrange(current, at, at + len);
        if bytes_are(data, sink) {
            assert(st.after(rec) == Some(st));
            pos = next;
            continue ;
        }
        let calculated_checksum = checksum_undo_data(offset, data, sink);
        if !slice_is_hash(checksum, &calculated_checksum) {
            has_checksum_failure = true;
            assert(st.after(rec) == Some(ReplayState { failed: true, ..st }));
            pos = next;
            continue ;
        }
        redo.write(offset, sink, data);
        buf_writer.push(at, vstd::slice::slice_to_vec(data));
        proof {
            let pending = st.pending.push((at, data@));
            assert(buf_writer.pending() == pending);
            assert forall|i: int| 0 <= i < pending.len() implies (#[trigger] pending[i]).0 + pending[i].1.len()
                <= total by {
                if i < st.pending.len() {
                    assert(pending[i] == st.pending[i]);
                }
            }
        }
        if buf_writer.len() >= BUF_SIZE {
            buf_writer.flush();
        }
        assert(st.after(rec) == Some(
            ReplayState {
                image: buf_writer.bytes(),
                pending: buf_writer.pending(),
                redo: redo.buffered(),
                failed: has_checksum_failure,
            },
        ));
        pos = next;
    }
    buf_writer.flush();
    UndoReplay { image: buf_writer.into_inner(), outcome: Ok(has_checksum_failure) }
}

} // verus!
