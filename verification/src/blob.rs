//! The all-zero block, its digest, and the helper programs by architecture.

use vstd::prelude::*;
use crate::config::LOG_BLOCK_SIZE;
use crate::digest::{blake3_digest, blake3_hash};
use crate::util::zeros;

verus! {

/// The content of a block that was never written.
pub open spec fn zero_block() -> Seq<u8> {
    zeros(LOG_BLOCK_SIZE as nat)
}

/// The digest of the all-zero block.
pub open spec fn zero_block_hash() -> Seq<u8> {
    blake3_digest(zero_block())
}

/// A block of zeros.
pub fn make_zero_block() -> (v: Vec<u8>)
    ensures
        v@ == zero_block(),
{
    let mut v: Vec<u8> = Vec::with_capacity(LOG_BLOCK_SIZE);
    while v.len() < LOG_BLOCK_SIZE
        invariant
            v@.len() <= LOG_BLOCK_SIZE,
            v@ == zeros(v@.len()),
        decreases LOG_BLOCK_SIZE - v.len(),
    {
        v.push(0u8);
        assert(v@ =~= zeros(v@.len()));
    }
    v
}

/// The digest that stands for a block of zeros.
pub fn compute_zero_block_hash() -> (h: [u8; 32])
    ensures
        h@ == zero_block_hash(),
{
    let z = make_zero_block();
    blake3_hash(z.as_slice())
}

/// The helper programs that can be installed on a remote host.
#[derive(Clone, Copy, Debug, PartialEq, Eq, Structural)]
pub enum HelperArch {
    X86_64,
    Aarch64,
}

/// The helper for a machine name as `uname -m` prints it.
pub open spec fn helper_for(machine: Seq<u8>) -> Option<HelperArch> {
    if machine == seq![120u8, 56, 54, 95, 54, 52] || machine == seq![97u8, 109, 100, 54, 52] {
        Some(HelperArch::X86_64)
    } else if machine == seq![97u8, 97, 114, 99, 104, 54, 52] {
        Some(HelperArch::Aarch64)
    } else {
        None
    }
}

/// Whether a byte string equals a short constant.
pub fn bytes_are(s: &[u8], word: &[u8]) -> (r: bool)
    ensures
        r == (s@ == word@),
{
    if s.len() != word.len() {
        return false;
    }
    let mut i: usize = 0;
    while i < s.len()
        invariant
            i <= s@.len(),
            s@.len() == word@.len(),
            forall|j: int| 0 <= j < i ==> s@[j] == word@[j],
        decreases s.len() - i,
    {
        if s[i] != word[i] {
            return false;
        }
        i += 1;
    }
    assert(s@ =~= word@);
    true
}

/// Picks the helper program for a machine name: `x86_64` and `amd64` share
/// one, `aarch64` has its own, anything else has none.
pub fn helper_arch(machine: &[u8]) -> (r: Option<HelperArch>)
    ensures
        r == helper_for(machine@),
{
    let x86_64: [u8; 6] = [120, 56, 54, 95, 54, 52];
    let amd64: [u8; 5] = [97, 109, 100, 54, 52];
    let aarch64: [u8; 7] = [97, 97, 114, 99, 104, 54, 52];
    assert(x86_64@ =~= seq![120u8, 56, 54, 95, 54, 52]);
    assert(amd64@ =~= seq![97u8, 109, 100, 54, 52]);
    assert(aarch64@ =~= seq![97u8, 97, 114, 99, 104, 54, 52]);
    if bytes_are(machine, x86_64.as_slice()) || bytes_are(machine, amd64.as_slice()) {
        Some(HelperArch::X86_64)
    } else if bytes_are(machine, aarch64.as_slice()) {
        Some(HelperArch::Aarch64)
    } else {
        None
    }
}

} // verus!
