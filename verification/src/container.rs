//! The container's byte layout: a magic, then packets, each a signed 16-bit
//! little-endian length followed by that many payload bytes.

use vstd::prelude::*;
use crate::error::DecodeError;

verus! {

/// The bytes of `!SILK_V3`.
pub open spec fn plain_magic() -> Seq<u8> {
    seq![0x21u8, 0x53u8, 0x49u8, 0x4cu8, 0x4bu8, 0x5fu8, 0x56u8, 0x33u8]
}

/// The marker byte `0x02` followed by the bytes of `#!SILK_V3`.
pub open spec fn marked_magic() -> Seq<u8> {
    seq![0x02u8, 0x23u8, 0x21u8, 0x53u8, 0x49u8, 0x4cu8, 0x4bu8, 0x5fu8, 0x56u8, 0x33u8]
}

/// `s` starts with the bytes of `p`.
pub open spec fn begins_with(s: Seq<u8>, p: Seq<u8>) -> bool {
    p.len() <= s.len() && s.subrange(0, p.len() as int) =~= p
}

/// Number of bytes the header occupies, where the stream has a valid one.
pub open spec fn header_len(s: Seq<u8>) -> Option<nat> {
    if begins_with(s, plain_magic()) {
        Some(8nat)
    } else if begins_with(s, marked_magic()) {
        Some(10nat)
    } else {
        None
    }
}

/// The largest payload length that the length prefix can announce.
pub const MAX_PREFIX_LENGTH: usize = 32767;

/// The signed value of the two prefix bytes, low byte first.
pub open spec fn length_prefix(lo: u8, hi: u8) -> int {
    if hi < 128 {
        lo as int + 256 * (hi as int)
    } else {
        lo as int + 256 * (hi as int) - 65536
    }
}

/// The payload of the packet that starts at `pos`, or `None` where the
/// stream ends there: fewer than two bytes are left, the announced length
/// is negative, or the payload is cut short.
pub open spec fn packet_at(s: Seq<u8>, pos: int) -> Option<Seq<u8>> {
    if 0 <= pos && pos + 2 <= s.len() {
        let n = length_prefix(s[pos], s[pos + 1]);
        if 0 <= n && pos + 2 + n <= s.len() {
            Some(s.subrange(pos + 2, pos + 2 + n))
        } else {
            None
        }
    } else {
        None
    }
}

/// All packets read from `pos` on, until the stream ends.
pub open spec fn packets_from(s: Seq<u8>, pos: int) -> Seq<Seq<u8>>
    decreases s.len() - pos,
{
    match packet_at(s, pos) {
        Some(p) => seq![p] + packets_from(s, pos + 2 + p.len()),
        None => Seq::empty(),
    }
}

/// The position at which reading from `pos` on stops.
pub open spec fn end_position(s: Seq<u8>, pos: int) -> int
    decreases s.len() - pos,
{
    match packet_at(s, pos) {
        Some(p) => end_position(s, pos + 2 + p.len()),
        None => pos,
    }
}

/// The bytes of one packet: its length prefix, then its payload.
pub open spec fn encode_packet(p: Seq<u8>) -> Seq<u8> {
    seq![(p.len() % 256) as u8, (p.len() / 256) as u8] + p
}

/// The bytes of a sequence of packets, one after the other.
pub open spec fn encode_packets(ps: Seq<Seq<u8>>) -> Seq<u8>
    decreases ps.len(),
{
    if ps.len() == 0 {
        Seq::empty()
    } else {
        encode_packet(ps.first()) + encode_packets(ps.drop_first())
    }
}

fn plain_magic_bytes() -> (v: Vec<u8>)
    ensures
        v@ == plain_magic(),
{
    let v = vec![0x21u8, 0x53u8, 0x49u8, 0x4cu8, 0x4bu8, 0x5fu8, 0x56u8, 0x33u8];
    assert(v@ =~= plain_magic());
    v
}

fn marked_magic_bytes() -> (v: Vec<u8>)
    ensures
        v@ == marked_magic(),
{
    let v = vec![0x02u8, 0x23u8, 0x21u8, 0x53u8, 0x49u8, 0x4cu8, 0x4bu8, 0x5fu8, 0x56u8, 0x33u8];
    assert(v@ =~= marked_magic());
    v
}

fn has_prefix(data: &Vec<u8>, prefix: &Vec<u8>) -> (b: bool)
    ensures
        b == begins_with(data@, prefix@),
{
    if prefix.len() > data.len() {
        return false;
    }
    let mut i: usize = 0;
    while i < prefix.len()
        invariant
            i <= prefix.len() <= data.len(),
            forall|j: int| 0 <= j < i ==> data@[j] == prefix@[j],
        decreases prefix.len() - i,
    {
        if data[i] != prefix[i] {
            assert(data@.subrange(0, prefix@.len() as int)[i as int] == data@[i as int]);
            return false;
        }
        i += 1;
    }
    true
}

/// Recognises the header: `Ok` with its length exactly where the stream
/// begins with one of the two magics, `InvalidHeader` on every other stream.
pub fn parse_header(data: &Vec<u8>) -> (r: Result<usize, DecodeError>)
    ensures
        match r {
            Ok(n) => header_len(data@) == Some(n as nat),
            Err(e) => e == DecodeError::InvalidHeader && header_len(data@).is_none(),
        },
{
    let plain = plain_magic_bytes();
    if has_prefix(data, &plain) {
        return Ok(8);
    }
    let marked = marked_magic_bytes();
    if has_prefix(data, &marked) {
        return Ok(10);
    }
    Err(DecodeError::InvalidHeader)
}

/// Appends one packet to `out`. Refuses, leaving `out` as it was, a payload
/// longer than the length prefix can announce.
pub fn append_packet(out: &mut Vec<u8>, payload: &Vec<u8>) -> (ok: bool)
    ensures
        ok == (payload.len() <= MAX_PREFIX_LENGTH),
        ok ==> final(out)@ == old(out)@ + encode_packet(payload@),
        !ok ==> final(out)@ == old(out)@,
{
    let n = payload.len();
    if n > MAX_PREFIX_LENGTH {
        return false;
    }
    out.push((n % 256) as u8);
    out.push((n / 256) as u8);
    let mut i: usize = 0;
    while i < n
        invariant
            i <= n,
            n == payload.len(),
            out@ == old(out)@ + seq![(n % 256) as u8, (n / 256) as u8] + payload@.subrange(0, i as int),
        decreases n - i,
    {
        out.push(payload[i]);
        assert(payload@.subrange(0, i + 1) =~= payload@.subrange(0, i as int).push(payload@[i as int]));
        assert(out@ =~= old(out)@ + seq![(n % 256) as u8, (n / 256) as u8] + payload@.subrange(0, i + 1));
        i += 1;
    }
    assert(payload@.subrange(0, n as int) =~= payload@);
    assert(out@ =~= old(out)@ + encode_packet(payload@));
    true
}

/// A stream with a valid header, and the position up to which it was read.
pub struct ContainerReader {
    pub data: Vec<u8>,
    pub pos: usize,
}

impl ContainerReader {
    /// The position lies inside the stream.
    pub open spec fn wf(&self) -> bool {
        self.pos <= self.data@.len()
    }

    /// Opens a stream: succeeds exactly where the header is valid, and then
    /// stands just behind it.
    pub fn open(data: Vec<u8>) -> (r: Result<ContainerReader, DecodeError>)
        ensures
            match r {
                Ok(reader) => reader.wf() && reader.data@ == data@ && header_len(data@) == Some(
                    reader.pos as nat,
                ),
                Err(e) => e == DecodeError::InvalidHeader && header_len(data@).is_none(),
            },
    {
        match parse_header(&data) {
            Ok(n) => Ok(ContainerReader { data, pos: n }),
            Err(e) => Err(e),
        }
    }

    /// Reads the next packet and moves behind it; `None`, without moving,
    /// where the stream ends.
    pub fn next_packet(&mut self) -> (r: Option<Vec<u8>>)
        requires
            old(self).wf(),
        ensures
            final(self).wf(),
            final(self).data@ == old(self).data@,
            match r {
                Some(p) => packet_at(old(self).data@, old(self).pos as int) == Some(p@)
                    && final(self).pos == old(self).pos + 2 + p@.len(),
                None => packet_at(old(self).data@, old(self).pos as int).is_none()
                    && final(self).pos == old(self).pos,
            },
    {
        let len = self.data.len();
        if len - self.pos < 2 {
            return None;
        }
        let lo = self.data[self.pos];
        let hi = self.data[self.pos + 1];
        if hi >= 128 {
            return None;
        }
        let n: usize = lo as usize + 256 * (hi as usize);
        let start: usize = self.pos + 2;
        if len - start < n {
            return None;
        }
        let mut out: Vec<u8> = Vec::new();
        let mut i: usize = 0;
        while i < n
            invariant
                i <= n,
                start + n <= len,
                len == self.data@.len(),
                out@ == self.data@.subrange(start as int, start + i),
            decreases n - i,
        {
            out.push(self.data[start + i]);
            assert(self.data@.subrange(start as int, start + i + 1) =~= self.data@.subrange(
                start as int,
                start + i,
            ).push(self.data@[start + i]));
            i += 1;
        }
        self.pos = start + n;
        Some(out)
    }

    /// Length of the whole stream, header included.
    pub fn total_bytes(&self) -> (n: usize)
        ensures
            n == self.data@.len(),
    {
        self.data.len()
    }

    /// Number of bytes read so far, header included.
    pub fn bytes_consumed(&self) -> (n: usize)
        ensures
            n == self.pos,
    {
        self.pos
    }
}

/// Framing loses nothing: reading the encoding of any packets, behind any
/// prefix, gives those packets back and stops at the end of the stream.
pub proof fn lemma_framing_round_trip(prefix: Seq<u8>, packets: Seq<Seq<u8>>)
    requires
        forall|i: int| 0 <= i < packets.len() ==> (#[trigger] packets[i]).len() <= MAX_PREFIX_LENGTH,
    ensures
        packets_from(prefix + encode_packets(packets), prefix.len() as int) == packets,
        end_position(prefix + encode_packets(packets), prefix.len() as int) == prefix.len()
            + encode_packets(packets).len(),
    decreases packets.len(),
{
    let s = prefix + encode_packets(packets);
    let pos = prefix.len() as int;
    if packets.len() == 0 {
        assert(packets_from(s, pos) =~= packets);
    } else {
        let p = packets.first();
        let rest = packets.drop_first();
        let longer = prefix + encode_packet(p);
        assert(s =~= longer + encode_packets(rest));
        assert forall|i: int| 0 <= i < rest.len() implies (#[trigger] rest[i]).len()
            <= MAX_PREFIX_LENGTH by {
            assert(rest[i] == packets[i + 1]);
        }
        lemma_framing_round_trip(longer, rest);
        let n = p.len() as int;
        assert(s[pos] == (n % 256) as u8);
        assert(s[pos + 1] == (n / 256) as u8);
        assert(length_prefix(s[pos], s[pos + 1]) == n);
        assert(s.subrange(pos + 2, pos + 2 + n) =~= p);
        assert(packet_at(s, pos) == Some(p));
        assert(longer.len() == pos + 2 + n);
        assert(seq![p] + rest =~= packets);
    }
}

/// Every stream that begins with one of the two magics has a valid header,
/// whatever follows, and no other stream has one.
pub proof fn lemma_header_recognised(s: Seq<u8>)
    ensures
        header_len(plain_magic() + s) == Some(8nat),
        header_len(marked_magic() + s) == Some(10nat),
        header_len(s).is_some() <==> begins_with(s, plain_magic()) || begins_with(
            s,
            marked_magic(),
        ),
{
    let plain = plain_magic() + s;
    assert(plain.subrange(0, 8) =~= plain_magic());
    let marked = marked_magic() + s;
    assert(marked.subrange(0, 10) =~= marked_magic());
    assert(marked[0] == 0x02u8);
    assert(marked.subrange(0, 8)[0] == marked[0]);
    assert(plain_magic()[0] == 0x21u8);
}

} // verus!
