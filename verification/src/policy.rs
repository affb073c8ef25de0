//! Deciding whether the packet at the head of the window can be decoded as
//! it stands or has to be treated as lost.

use vstd::prelude::*;

verus! {

/// A rule that tells, from a packet's length alone, whether the packet is
/// present. The answer depends on nothing else, so a session is repeatable.
pub trait LossPolicy {
    /// What the rule answers for a packet of `len` bytes.
    spec fn present(&self, len: nat) -> bool;

    /// The rule's answer for the packet at the head of the window.
    fn is_present(&self, len: usize) -> (b: bool)
        ensures
            b == self.present(len as nat),
    ;
}

/// The standard rule: a packet is lost exactly when it is empty.
pub struct ZeroLengthLoss;

impl LossPolicy for ZeroLengthLoss {
    open spec fn present(&self, len: nat) -> bool {
        len > 0
    }

    fn is_present(&self, len: usize) -> (b: bool) {
        len > 0
    }
}

/// A stricter rule: a packet shorter than `min_len` bytes counts as lost.
pub struct ShortPacketLoss {
    pub min_len: usize,
}

impl LossPolicy for ShortPacketLoss {
    open spec fn present(&self, len: nat) -> bool {
        len >= self.min_len
    }

    fn is_present(&self, len: usize) -> (b: bool) {
        len >= self.min_len
    }
}

} // verus!
