//! Block arithmetic and padding.

use vstd::prelude::*;
use std::borrow::Cow;
use crate::config::LOG_BLOCK_SIZE;

verus! {

/// `n` zero bytes.
pub open spec fn zeros(n: nat) -> Seq<u8> {
    Seq::new(n, |i: int| 0u8)
}

/// `data` followed by as many zero bytes as bring it to `size` bytes.
pub open spec fn padded(data: Seq<u8>, size: nat) -> Seq<u8> {
    data + zeros((size - data.len()) as nat)
}

/// The least number of blocks of `align` bytes that hold `value` bytes.
pub fn div_round_up(value: u64, align: u64) -> (r: u64)
    requires
        align > 0,
        value + align - 1 <= u64::MAX,
    ensures
        r == (value + align - 1) / (align as int),
        r * align >= value,
        r > 0 ==> (r - 1) * align < value,
{
    let r = (value + (align - 1)) / align;
    proof {
        let v = (value + align - 1) as int;
        let a = align as int;
        assert(v == a * (v / a) + v % a) by (nonlinear_arith)
            requires
                a > 0,
        ;
        assert(0 <= v % a < a) by (nonlinear_arith)
            requires
                a > 0,
        ;
        assert((v / a) * a == a * (v / a)) by (nonlinear_arith);
        assert(((v / a) - 1) * a == (v / a) * a - a) by (nonlinear_arith);
    }
    r
}

/// The number of blocks of `block_size` bytes in a file of `file_size` bytes.
pub fn calculate_block_count(file_size: u64, block_size: u64) -> (r: u64)
    requires
        block_size > 0,
        file_size + block_size - 1 <= u64::MAX,
    ensures
        r == (file_size + block_size - 1) / (block_size as int),
{
    div_round_up(file_size, block_size)
}

/// Pads a block with zeros to the logical block size.
pub fn align_block<'a>(data: &'a [u8]) -> (r: Cow<'a, [u8]>)
    requires
        data@.len() <= LOG_BLOCK_SIZE,
    ensures
        r@ == padded(data@, LOG_BLOCK_SIZE as nat),
        r@.len() == LOG_BLOCK_SIZE,
{
    if data.len() < LOG_BLOCK_SIZE {
        let v = pad_to(data, LOG_BLOCK_SIZE);
        Cow::Owned(v)
    } else {
        assert(padded(data@, LOG_BLOCK_SIZE as nat) =~= data@);
        Cow::Borrowed(data)
    }
}

/// The bytes of a block, borrowed or owned.
pub fn block_bytes<'b, 'a>(block: &'b Cow<'a, [u8]>) -> (r: &'b [u8])
    ensures
        r@ == block@,
{
    match block {
        Cow::Borrowed(b) => b,
        Cow::Owned(v) => v.as_slice(),
    }
}

/// A copy of `data` padded with zeros to `size` bytes.
pub fn pad_to(data: &[u8], size: usize) -> (v: Vec<u8>)
    requires
        data@.len() <= size,
    ensures
        v@ == padded(data@, size as nat),
        v@.len() == size,
{
    let mut v: Vec<u8> = Vec::with_capacity(size);
    v.extend_from_slice(data);
    assert(v@ =~= data@);
    while v.len() < size
        invariant
            data@.len() <= v@.len() <= size,
            v@ == data@ + zeros((v@.len() - data@.len()) as nat),
        decreases size - v.len(),
    {
        v.push(0u8);
        assert(v@ =~= data@ + zeros((v@.len() - data@.len()) as nat));
    }
    v
}

} // verus!
