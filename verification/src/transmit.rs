//! The helper that runs beside the remote image: it prints the digests of
//! blocks, and blocks.

use vstd::prelude::*;
use vstd::slice::slice_subrange;
use crate::digest::{blake3_digest, blake3_hash};
use crate::text::{parse_number, parsed_number};
use crate::util::{pad_to, padded, zeros};

verus! {

/// The block of `chunk` bytes at `offset`, padded with zeros where the
/// image ends; all zeros where the image has ended before it.
pub open spec fn padded_block(image: Seq<u8>, offset: int, chunk: int) -> Seq<u8> {
    if offset >= image.len() {
        zeros(chunk as nat)
    } else if offset + chunk < image.len() {
        image.subrange(offset, offset + chunk)
    } else {
        padded(image.subrange(offset, image.len() as int), chunk as nat)
    }
}

/// The digests of `count` blocks from `offset` on, one after another.
pub open spec fn hash_output(image: Seq<u8>, chunk: int, offset: int, count: int) -> Seq<u8>
    decreases count,
{
    if count <= 0 {
        Seq::empty()
    } else {
        blake3_digest(padded_block(image, offset, chunk)) + hash_output(
            image,
            chunk,
            offset + chunk,
            count - 1,
        )
    }
}

/// The blocks at the given offsets, one after another.
pub open spec fn dump_output(image: Seq<u8>, chunk: int, offsets: Seq<usize>) -> Seq<u8>
    decreases offsets.len(),
{
    if offsets.len() == 0 {
        Seq::empty()
    } else {
        dump_output(image, chunk, offsets.drop_last()) + padded_block(
            image,
            offsets.last() as int,
            chunk,
        )
    }
}

fn read_block(image: &[u8], offset: usize, chunk_size: usize) -> (v: Vec<u8>)
    requires
        chunk_size > 0,
    ensures
        v@ == padded_block(image@, offset as int, chunk_size as int),
        v@.len() == chunk_size,
{
    if offset >= image.len() {
        let nothing = slice_subrange(image, 0, 0);
        let v = pad_to(nothing, chunk_size);
        assert(v@ =~= zeros(chunk_size as nat));
        v
    } else if chunk_size < image.len() - offset {
        let v = pad_to(slice_subrange(image, offset, offset + chunk_size), chunk_size);
        assert(v@ =~= image@.subrange(offset as int, offset + chunk_size));
        v
    } else {
        pad_to(slice_subrange(image, offset, image.len()), chunk_size)
    }
}

/// The answer to `hash`: the digest of each of `chunk_count` blocks from
/// `initial_offset` on, a block beyond the end of the image being zeros.
pub fn hash(image: &[u8], chunk_size: usize, initial_offset: usize, chunk_count: usize) -> (out: Vec<u8>)
    requires
        chunk_size > 0,
        initial_offset % chunk_size == 0,
        initial_offset + chunk_size * chunk_count <= usize::MAX,
    ensures
        out@ == hash_output(image@, chunk_size as int, initial_offset as int, chunk_count as int),
        out@.len() == chunk_count * 32,
{
    let mut out: Vec<u8> = Vec::new();
    let mut offset = initial_offset;
    let mut left = chunk_count;
    assert(Seq::<u8>::empty() + hash_output(image@, chunk_size as int, offset as int, left as int)
        =~= hash_output(image@, chunk_size as int, initial_offset as int, chunk_count as int));
    while left > 0
        invariant
            chunk_size > 0,
            left <= chunk_count,
            offset + chunk_size * left <= usize::MAX,
            out@.len() == (chunk_count - left) * 32,
            out@ + hash_output(image@, chunk_size as int, offset as int, left as int) == hash_output(
                image@,
                chunk_size as int,
                initial_offset as int,
                chunk_count as int,
            ),
        decreases left,
    {
        let block = read_block(image, offset, chunk_size);
        let digest = blake3_hash(block.as_slice());
        let ghost before = out@;
        out.extend_from_slice(digest.as_slice());
        proof {
            assert(out@ =~= before + digest@);
            assert(chunk_size * left == chunk_size * (left - 1) + chunk_size) by (nonlinear_arith);
            assert(chunk_size * (left - 1) >= 0) by (nonlinear_arith)
                requires
                    left >= 1,
                    chunk_size > 0,
            ;
            assert(out@ + hash_output(image@, chunk_size as int, offset + chunk_size, left - 1) =~= before
                + hash_output(image@, chunk_size as int, offset as int, left as int));
        }
        offset = offset + chunk_size;
        left = left - 1;
    }
    assert(out@ + hash_output(image@, chunk_size as int, offset as int, left as int) =~= out@);
    out
}

/// The answer to `dump`: the blocks at the given offsets, each padded with
/// zeros where the image ends.
pub fn dump(image: &[u8], chunk_size: usize, offset_list: &[usize]) -> (out: Vec<u8>)
    requires
        chunk_size > 0,
    ensures
        out@ == dump_output(image@, chunk_size as int, offset_list@),
        out@.len() == offset_list@.len() * chunk_size,
{
    let mut out: Vec<u8> = Vec::new();
    let mut i: usize = 0;
    assert(offset_list@.take(0) =~= Seq::<usize>::empty());
    while i < offset_list.len()
        invariant
            chunk_size > 0,
            i <= offset_list@.len(),
            out@ == dump_output(image@, chunk_size as int, offset_list@.take(i as int)),
            out@.len() == i * chunk_size,
        decreases offset_list.len() - i,
    {
        let block = read_block(image, offset_list[i], chunk_size);
        let ghost before = out@;
        out.extend_from_slice(block.as_slice());
        proof {
            assert(out@ =~= before + block@);
            assert(offset_list@.take(i + 1).drop_last() =~= offset_list@.take(i as int));
            assert(offset_list@.take(i + 1).last() == offset_list@[i as int]);
            assert((i + 1) * chunk_size == i * chunk_size + chunk_size) by (nonlinear_arith);
        }
        i += 1;
    }
    assert(offset_list@.take(i as int) =~= offset_list@);
    out
}

/// Where the text that begins at `from` and ends at the next comma, or at
/// the end, ends.
pub open spec fn field_end(s: Seq<u8>, from: int) -> int
    decreases s.len() - from,
{
    if from < 0 || from >= s.len() {
        s.len() as int
    } else if s[from] == 44 {
        from
    } else {
        field_end(s, from + 1)
    }
}

/// The offsets that a list of numbers between commas states, from `from`
/// on; none where a field is no number that fits.
pub open spec fn offsets_from(s: Seq<u8>, from: int) -> Option<Seq<usize>>
    decreases s.len() - from,
{
    if from < 0 || from > s.len() {
        None
    } else {
        let end = field_end(s, from);
        match parsed_number(s.subrange(from, end)) {
            None => None,
            Some(n) => if n > usize::MAX {
                None
            } else if end >= s.len() {
                Some(seq![n as usize])
            } else {
                proof {
                    lemma_field_end(s, from);
                }
                match offsets_from(s, end + 1) {
                    None => None,
                    Some(rest) => Some(seq![n as usize] + rest),
                }
            },
        }
    }
}

/// A field ends at or after the place where it begins, and inside the text.
pub proof fn lemma_field_end(s: Seq<u8>, from: int)
    requires
        0 <= from <= s.len(),
    ensures
        from <= field_end(s, from) <= s.len(),
    decreases s.len() - from,
{
    if from < s.len() && s[from] != 44 {
        lemma_field_end(s, from + 1);
    }
}

/// Reads the list of offsets that `dump` is given: numbers between commas.
pub fn parse_offsets(text: &[u8]) -> (r: Option<Vec<usize>>)
    ensures
        match r {
            Some(v) => offsets_from(text@, 0) == Some(v@),
            None => offsets_from(text@, 0) is None,
        },
{
    let mut out: Vec<usize> = Vec::new();
    let mut from: usize = 0;
    loop
        invariant
            from <= text@.len(),
            match offsets_from(text@, from as int) {
                Some(rest) => offsets_from(text@, 0) == Some(out@ + rest),
                None => offsets_from(text@, 0) is None,
            },
        decreases text@.len() - from,
    {
        let mut end = from;
        while end < text.len() && text[end] != 44
            invariant
                from <= end <= text@.len(),
                field_end(text@, end as int) == field_end(text@, from as int),
            decreases text.len() - end,
        {
            end += 1;
        }
        let n = match parse_number(slice_subrange(text, from, end)) {
            Some(n) => n,
            None => {
                return None;
            },
        };
        if n > usize::MAX as u64 {
            return None;
        }
        let ghost before = out@;
        out.push(n as usize);
        if end >= text.len() {
            assert(before + seq![n as usize] =~= out@);
            return Some(out);
        }
        proof {
            match offsets_from(text@, end + 1) {
                Some(rest) => {
                    assert(before + (seq![n as usize] + rest) =~= out@ + rest);
                },
                None => {},
            }
        }
        from = end + 1;
    }
}

} // verus!
