//! Fixed limits of the container and of the codec's interface.

use vstd::prelude::*;

verus! {

/// Largest number of payload bytes that one codec frame may occupy.
pub const MAX_BYTES_PER_FRAME: usize = 1024;

/// Largest number of codec frames carried by one packet.
pub const MAX_INPUT_FRAMES: usize = 5;

/// How many packets ahead recovery data for a lost packet may be found.
pub const RECOVERY_DEPTH: usize = 2;

/// Largest payload of one packet: the per-frame cap times the frame cap.
pub const MAX_PACKET_BYTES: usize = 5120;

/// Number of packets the lookahead window can hold.
pub const WINDOW_SLOTS: usize = 3;

/// Largest number of bytes buffered in the lookahead window.
pub const WINDOW_CAPACITY: usize = 15360;

/// The derived limits are the products they are named after.
pub proof fn lemma_limits_consistent()
    ensures
        MAX_PACKET_BYTES == MAX_BYTES_PER_FRAME * MAX_INPUT_FRAMES,
        WINDOW_SLOTS == RECOVERY_DEPTH + 1,
        WINDOW_CAPACITY == MAX_PACKET_BYTES * WINDOW_SLOTS,
{
}

} // verus!
