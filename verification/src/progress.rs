//! How far a session has come, as a whole percentage of the stream.

use vstd::prelude::*;
use crate::container::{encode_packets, end_position, lemma_framing_round_trip, MAX_PREFIX_LENGTH};

verus! {

/// The share of `total` that `consumed` makes up, in percent, rounded down.
pub open spec fn percent_of(consumed: nat, total: nat) -> nat
    recommends
        total > 0,
{
    consumed * 100 / total
}

/// The percentage of a stream of `total` bytes that `consumed` bytes are.
pub fn percent(consumed: usize, total: usize) -> (p: u64)
    requires
        total > 0,
        consumed <= total,
    ensures
        p == percent_of(consumed as nat, total as nat),
        p <= 100,
{
    proof {
        lemma_percent_bounds(consumed as nat, total as nat);
    }
    let scaled: u128 = (consumed as u128) * 100;
    (scaled / (total as u128)) as u64
}

/// The percentage never falls while the bytes consumed do not.
pub proof fn lemma_percent_monotone(earlier: nat, later: nat, total: nat)
    requires
        earlier <= later,
        total > 0,
    ensures
        percent_of(earlier, total) <= percent_of(later, total),
{
    assert(earlier * 100 <= later * 100);
    vstd::arithmetic::div_mod::lemma_div_is_ordered(
        (earlier * 100) as int,
        (later * 100) as int,
        total as int,
    );
}

/// The percentage stays within 0 and 100, and is 100 exactly when the whole
/// stream has been consumed.
pub proof fn lemma_percent_bounds(consumed: nat, total: nat)
    requires
        consumed <= total,
        total > 0,
    ensures
        percent_of(consumed, total) <= 100,
        percent_of(consumed, total) == 100 <==> consumed == total,
{
    let t = total as int;
    let c = consumed as int;
    assert((t * 100) / t == 100) by (nonlinear_arith)
        requires
            t > 0,
    ;
    assert(c < t ==> (c * 100) / t < 100) by (nonlinear_arith)
        requires
            t > 0,
            0 <= c,
    ;
}

/// A stream that is a header followed by whole packets is read to its last
/// byte, so that the progress reported at its end is exactly 100.
pub proof fn lemma_whole_stream_reaches_hundred(header: Seq<u8>, packets: Seq<Seq<u8>>)
    requires
        header.len() > 0,
        forall|i: int| 0 <= i < packets.len() ==> (#[trigger] packets[i]).len() <= MAX_PREFIX_LENGTH,
    ensures
        end_position(header + encode_packets(packets), header.len() as int) == (header
            + encode_packets(packets)).len(),
        percent_of(
            end_position(header + encode_packets(packets), header.len() as int) as nat,
            (header + encode_packets(packets)).len(),
        ) == 100,
{
    lemma_framing_round_trip(header, packets);
    let total = (header + encode_packets(packets)).len();
    lemma_percent_bounds(total, total);
}

} // verus!
