//! Dynamic repartitioning of a keyed stream over a fixed set of workers.
//!
//! Records carry 64-bit keys; the top [`BIN_SHIFT`] bits of a key select one of
//! [`BINS`] bins, and a bin-to-worker map names the worker that owns each bin's
//! state.  A control stream reassigns bins at runtime; the library compiles
//! control messages into snapshots, routes records under the snapshot that
//! applies to their time, and migrates bin state and pending notifications when
//! a snapshot is installed.

pub mod antichain;
pub mod distribution;
pub mod notificator;
pub mod protocol;
pub mod state_machine;
pub mod stateful;

use vstd::prelude::*;

verus! {

/// Number of key bits that select a bin.
pub const BIN_SHIFT: usize = 8;

/// Number of bins: two to the power of `BIN_SHIFT`.
pub const BINS: usize = 256;

/// Bits a 64-bit key is shifted right by to leave the bin index.
pub const KEY_SHIFT: u64 = 56;

/// A 64-bit key computed from a record by a user-supplied hash function.
/// Equal keys always route identically.
#[derive(Clone, Copy, PartialEq, Eq, Structural, Debug, Hash)]
pub struct Key(pub u64);

/// The bin a key belongs to: the top `BIN_SHIFT` bits of the key.
pub open spec fn spec_key_to_bin(k: Key) -> int {
    (k.0 >> KEY_SHIFT) as int
}

/// Every key's bin index lies below `BINS`.
pub proof fn lemma_key_to_bin_in_range(k: Key)
    ensures
        0 <= spec_key_to_bin(k) < BINS,
{
    let x = k.0;
    assert((x >> 56u64) < 256u64) by (bit_vector);
}

/// Map a key to its bin index.
pub fn key_to_bin(key: Key) -> (b: usize)
    ensures
        b == spec_key_to_bin(key),
        b < BINS,
{
    proof {
        lemma_key_to_bin_in_range(key);
    }
    (key.0 >> 56) as usize
}

} // verus!
