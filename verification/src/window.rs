//! The lookahead window: the packets read but not yet decoded, kept so that
//! recovery data carried by a later packet can stand in for an earlier one.

use vstd::prelude::*;
use crate::limits::{WINDOW_CAPACITY, WINDOW_SLOTS};

verus! {

/// The sum of the tracked packet lengths.
pub open spec fn sum_lens(lens: Seq<usize>) -> nat
    decreases lens.len(),
{
    if lens.len() == 0 {
        0
    } else {
        sum_lens(lens.drop_last()) + lens.last() as nat
    }
}

/// A prefix of the lengths sums to no more than all of them, and grows by
/// one length with each packet it takes in.
pub proof fn lemma_sum_prefix(lens: Seq<usize>, i: int)
    requires
        0 <= i <= lens.len(),
    ensures
        sum_lens(lens.take(i)) <= sum_lens(lens),
        i < lens.len() ==> sum_lens(lens.take(i + 1)) == sum_lens(lens.take(i)) + lens[i],
    decreases lens.len(),
{
    if i < lens.len() {
        assert(lens.take(i + 1).drop_last() =~= lens.take(i));
        assert(lens.drop_last().take(i) =~= lens.take(i));
        lemma_sum_prefix(lens.drop_last(), i);
    } else {
        assert(lens.take(i) =~= lens);
    }
}

/// Without the first length, each prefix sums to that much less.
pub proof fn lemma_sum_without_first(lens: Seq<usize>, i: int)
    requires
        0 <= i < lens.len(),
    ensures
        sum_lens(lens.drop_first().take(i)) + lens[0] == sum_lens(lens.take(i + 1)),
    decreases i,
{
    let rest = lens.drop_first();
    if i == 0 {
        assert(rest.take(0) =~= Seq::<usize>::empty());
        assert(lens.take(1).drop_last() =~= Seq::<usize>::empty());
    } else {
        lemma_sum_without_first(lens, i - 1);
        lemma_sum_prefix(rest, i - 1);
        lemma_sum_prefix(lens, i);
    }
}

/// The number of bytes that a sequence of packets holds.
pub open spec fn total_len(packets: Seq<Seq<u8>>) -> nat
    decreases packets.len(),
{
    if packets.len() == 0 {
        0
    } else {
        total_len(packets.drop_last()) + packets.last().len()
    }
}

/// The total grows by a packet's length when the packet is appended.
pub proof fn lemma_total_len_push(packets: Seq<Seq<u8>>, p: Seq<u8>)
    ensures
        total_len(packets.push(p)) == total_len(packets) + p.len(),
{
    assert(packets.push(p).drop_last() =~= packets);
}

/// The total shrinks by the first packet's length when that one leaves.
pub proof fn lemma_total_len_drop_first(packets: Seq<Seq<u8>>)
    requires
        packets.len() > 0,
    ensures
        total_len(packets.drop_first()) + packets[0].len() == total_len(packets),
    decreases packets.len(),
{
    if packets.len() == 1 {
        assert(packets.drop_first() =~= Seq::<Seq<u8>>::empty());
        assert(packets.drop_last() =~= Seq::<Seq<u8>>::empty());
    } else {
        lemma_total_len_drop_first(packets.drop_last());
        assert(packets.drop_first().drop_last() =~= packets.drop_last().drop_first());
    }
}

/// Up to `WINDOW_SLOTS` packets, oldest first, in one buffer: the payloads
/// stand one behind the other in `data`, and `lens` holds their lengths.
pub struct LookaheadWindow {
    pub data: Vec<u8>,
    pub lens: Vec<usize>,
}

impl LookaheadWindow {
    /// The buffered bytes are exactly those of the tracked packets, and
    /// neither the slots nor the capacity are exceeded.
    pub open spec fn wf(&self) -> bool {
        &&& self.lens@.len() <= WINDOW_SLOTS
        &&& self.data@.len() == sum_lens(self.lens@)
        &&& self.data@.len() <= WINDOW_CAPACITY
    }

    /// Where the payload of packet `i` starts in the buffer.
    pub open spec fn offset(&self, i: int) -> int {
        sum_lens(self.lens@.take(i)) as int
    }

    /// The payload of packet `i`.
    pub open spec fn packet(&self, i: int) -> Seq<u8> {
        self.data@.subrange(self.offset(i), self.offset(i) + self.lens@[i])
    }

    /// The buffered packets, oldest first.
    pub open spec fn view(&self) -> Seq<Seq<u8>> {
        Seq::new(self.lens@.len(), |i: int| self.packet(i))
    }

    /// The buffered bytes are those of the buffered packets: together the
    /// packets hold exactly as many bytes as the buffer, within its capacity.
    pub proof fn lemma_buffered_is_sum(&self)
        requires
            self.wf(),
        ensures
            total_len(self@) == self.data@.len(),
            total_len(self@) <= WINDOW_CAPACITY,
    {
        let count = self@.len() as int;
        self.lemma_prefix_sum(count);
        assert(self@.take(count) =~= self@);
        assert(self.lens@.take(count) =~= self.lens@);
    }

    proof fn lemma_prefix_sum(&self, k: int)
        requires
            self.wf(),
            0 <= k <= self@.len(),
        ensures
            total_len(self@.take(k)) == sum_lens(self.lens@.take(k)),
        decreases k,
    {
        if k == 0 {
            assert(self@.take(0) =~= Seq::<Seq<u8>>::empty());
            assert(self.lens@.take(0) =~= Seq::<usize>::empty());
        } else {
            self.lemma_prefix_sum(k - 1);
            lemma_sum_prefix(self.lens@, k - 1);
            lemma_sum_prefix(self.lens@, k);
            assert(self@.take(k).drop_last() =~= self@.take(k - 1));
            assert(self@.take(k).last() == self.packet(k - 1));
        }
    }

    /// An empty window.
    pub fn new() -> (w: LookaheadWindow)
        ensures
            w.wf(),
            w@ == Seq::<Seq<u8>>::empty(),
    {
        let w = LookaheadWindow { data: Vec::new(), lens: Vec::new() };
        assert(w@ =~= Seq::<Seq<u8>>::empty());
        w
    }

    /// Tells whether the window is well-formed.
    pub fn is_sound(&self) -> (b: bool)
        ensures
            b == self.wf(),
    {
        if self.lens.len() > WINDOW_SLOTS || self.data.len() > WINDOW_CAPACITY {
            return false;
        }
        let mut sum: usize = 0;
        let mut i: usize = 0;
        assert(self.lens@.take(0) =~= Seq::<usize>::empty());
        while i < self.lens.len()
            invariant
                i <= self.lens.len() <= WINDOW_SLOTS,
                self.data@.len() <= WINDOW_CAPACITY,
                sum == sum_lens(self.lens@.take(i as int)),
                sum <= i * WINDOW_CAPACITY,
            decreases self.lens.len() - i,
        {
            proof {
                lemma_sum_prefix(self.lens@, i as int);
                lemma_sum_prefix(self.lens@, i + 1);
            }
            if self.lens[i] > WINDOW_CAPACITY {
                return false;
            }
            sum = sum + self.lens[i];
            i += 1;
        }
        assert(self.lens@.take(self.lens@.len() as int) =~= self.lens@);
        sum == self.data.len()
    }

    /// Number of buffered packets.
    pub fn len(&self) -> (n: usize)
        ensures
            n == self@.len(),
    {
        self.lens.len()
    }

    /// Number of buffered bytes.
    pub fn buffered_bytes(&self) -> (n: usize)
        requires
            self.wf(),
        ensures
            n == total_len(self@),
            n <= WINDOW_CAPACITY,
    {
        proof {
            self.lemma_buffered_is_sum();
        }
        self.data.len()
    }

    /// Length of packet `i`.
    pub fn packet_len(&self, i: usize) -> (n: usize)
        requires
            self.wf(),
            i < self@.len(),
        ensures
            n == self@[i as int].len(),
    {
        proof {
            lemma_sum_prefix(self.lens@, i as int);
            lemma_sum_prefix(self.lens@, i + 1);
        }
        self.lens[i]
    }

    /// A copy of the payload of packet `i`.
    pub fn packet_bytes(&self, i: usize) -> (p: Vec<u8>)
        requires
            self.wf(),
            i < self@.len(),
        ensures
            p@ == self@[i as int],
    {
        let mut start: usize = 0;
        let mut k: usize = 0;
        while k < i
            invariant
                self.wf(),
                k <= i < self.lens@.len(),
                start == self.offset(k as int),
            decreases i - k,
        {
            proof {
                lemma_sum_prefix(self.lens@, k as int);
                lemma_sum_prefix(self.lens@, k + 1);
            }
            start = start + self.lens[k];
            k += 1;
        }
        proof {
            lemma_sum_prefix(self.lens@, i as int);
            lemma_sum_prefix(self.lens@, i + 1);
        }
        let n: usize = self.lens[i];
        let mut out: Vec<u8> = Vec::new();
        let mut j: usize = 0;
        while j < n
            invariant
                j <= n,
                start + n <= self.data@.len(),
                self.data@.len() <= WINDOW_CAPACITY,
                out@ == self.data@.subrange(start as int, start + j),
            decreases n - j,
        {
            out.push(self.data[start + j]);
            assert(self.data@.subrange(start as int, start + j + 1) =~= self.data@.subrange(
                start as int,
                start + j,
            ).push(self.data@[start + j]));
            j += 1;
        }
        out
    }

    /// Appends a packet behind the buffered ones. Accepts it exactly where a
    /// slot is free and the capacity is kept; otherwise nothing changes.
    pub fn push(&mut self, payload: &Vec<u8>) -> (accepted: bool)
        requires
            old(self).wf(),
        ensures
            final(self).wf(),
            accepted == (old(self)@.len() < WINDOW_SLOTS && total_len(old(self)@) + payload@.len()
                <= WINDOW_CAPACITY),
            accepted ==> final(self)@ == old(self)@.push(payload@),
            !accepted ==> *final(self) == *old(self),
    {
        proof {
            self.lemma_buffered_is_sum();
        }
        if self.lens.len() >= WINDOW_SLOTS || payload.len() > WINDOW_CAPACITY - self.data.len() {
            return false;
        }
        let n = payload.len();
        let mut j: usize = 0;
        while j < n
            invariant
                j <= n,
                n == payload@.len(),
                self.lens == old(self).lens,
                self.data@ == old(self).data@ + payload@.subrange(0, j as int),
            decreases n - j,
        {
            self.data.push(payload[j]);
            assert(payload@.subrange(0, j + 1) =~= payload@.subrange(0, j as int).push(
                payload@[j as int],
            ));
            assert(self.data@ =~= old(self).data@ + payload@.subrange(0, j + 1));
            j += 1;
        }
        self.lens.push(n);
        proof {
            let before = old(self).lens@;
            let after = self.lens@;
            let count = before.len() as int;
            assert(payload@.subrange(0, n as int) =~= payload@);
            assert(after.drop_last() =~= before);
            assert forall|i: int| 0 <= i <= count implies #[trigger] after.take(i) == before.take(
                i,
            ) by {
                assert(after.take(i) =~= before.take(i));
            }
            assert(before.take(count) =~= before);
            assert forall|i: int| 0 <= i < count + 1 implies #[trigger] self@[i] == old(self)@.push(
                payload@,
            )[i] by {
                if i < count {
                    lemma_sum_prefix(before, i);
                    lemma_sum_prefix(before, i + 1);
                    assert(self.packet(i) =~= old(self).packet(i));
                } else {
                    assert(self.packet(i) =~= payload@);
                }
            }
            assert(self@ =~= old(self)@.push(payload@));
        }
        true
    }

    /// Drops the oldest packet and moves the others to the front. An empty
    /// window stays as it is.
    pub fn slide(&mut self)
        requires
            old(self).wf(),
        ensures
            final(self).wf(),
            old(self)@.len() > 0 ==> final(self)@ == old(self)@.drop_first(),
            old(self)@.len() == 0 ==> *final(self) == *old(self),
    {
        if self.lens.len() == 0 {
            return ;
        }
        proof {
            lemma_sum_prefix(self.lens@, 0);
            lemma_sum_prefix(self.lens@, 1);
            lemma_sum_without_first(self.lens@, 0);
            assert(self.lens@.take(0) =~= Seq::<usize>::empty());
        }
        let head: usize = self.lens[0];
        let total: usize = self.data.len();
        let mut kept: Vec<u8> = Vec::new();
        let mut j: usize = head;
        while j < total
            invariant
                head <= j <= total,
                total == self.data@.len(),
                kept@ == self.data@.subrange(head as int, j as int),
            decreases total - j,
        {
            kept.push(self.data[j]);
            assert(self.data@.subrange(head as int, j + 1) =~= self.data@.subrange(
                head as int,
                j as int,
            ).push(self.data@[j as int]));
            j += 1;
        }
        self.data = kept;
        self.lens.remove(0);
        proof {
            let before = old(self).lens@;
            let after = self.lens@;
            assert(after =~= before.drop_first());
            let count = after.len() as int;
            assert forall|i: int| 0 <= i <= count implies #[trigger] sum_lens(after.take(i))
                + head == sum_lens(before.take(i + 1)) by {
                lemma_sum_without_first(before, i);
            }
            assert(before.take(count + 1) =~= before);
            assert(after.take(count) =~= after);
            assert forall|i: int| 0 <= i < count implies #[trigger] self@[i] == old(
                self,
            )@.drop_first()[i] by {
                lemma_sum_prefix(before, i + 1);
                lemma_sum_prefix(before, i + 2);
                assert(self.packet(i) =~= old(self).packet(i + 1));
            }
            assert(self@ =~= old(self)@.drop_first());
        }
    }
}

} // verus!
