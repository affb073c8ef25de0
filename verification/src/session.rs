//! The decode session: a state machine that, for each packet, decides
//! whether to decode it, to look for recovery data, or to conceal its loss,
//! and that gathers the samples to be written out. The codec, the output
//! and the progress subscriber live outside: the session asks for their
//! work with an [`Action`] and is told the outcome with an [`Event`].

use vstd::prelude::*;
use crate::container::{
    encode_packets, end_position, header_len, packet_at, ContainerReader, MAX_PREFIX_LENGTH,
};
use crate::error::DecodeError;
use crate::limits::{MAX_INPUT_FRAMES, RECOVERY_DEPTH, WINDOW_CAPACITY, WINDOW_SLOTS};
use crate::policy::LossPolicy;
use crate::progress::{lemma_whole_stream_reaches_hundred, percent_of};
use crate::window::{
    lemma_total_len_drop_first, lemma_total_len_push, total_len, LookaheadWindow,
};

verus! {

/// What the session is waiting for.
#[derive(Clone, Copy, Debug, PartialEq, Eq, Structural)]
pub enum Phase {
    /// The window is primed; the codec's state is not yet known to exist.
    AwaitDecoder,
    /// The head packet is lost; the packet in `slot` is being searched.
    AwaitSearch { slot: usize },
    /// A payload is being decoded, frame by frame.
    AwaitDecode,
    /// A loss is being concealed; `remaining` frames are still to come.
    AwaitConceal { remaining: usize },
    /// The samples of one packet are being written out.
    AwaitEmit,
    /// The stream has ended.
    Finished,
    /// The session has failed.
    Failed { error: DecodeError },
}

/// What happened outside since the last action.
#[derive(Debug, PartialEq, Eq)]
pub enum Event {
    /// The codec's state was allocated and initialised.
    DecoderReady,
    /// The codec's state could not be allocated.
    AllocationFailed,
    /// The codec refused to initialise its state.
    InitFailed,
    /// The search ended; an empty payload means that nothing was found.
    SearchResult { payload: Vec<u8> },
    /// The codec decoded one frame and updated its control state.
    Decoded { samples: Vec<i16>, more_pending: bool, frames_per_packet: usize },
    /// The codec reported an error.
    DecodeFailed,
    /// The samples were written and the progress was delivered.
    Emitted,
    /// Writing the samples failed.
    SinkFailed,
    /// The progress subscriber is gone.
    ChannelClosed,
}

/// What the session asks to be done next.
#[derive(Debug, PartialEq, Eq)]
pub enum Action {
    /// Search `payload` for recovery data of the packet `offset` places
    /// before it, and answer with `Event::SearchResult`.
    Search { payload: Vec<u8>, offset: usize },
    /// Decode one frame of `payload`, or conceal one lost frame, and answer
    /// with `Event::Decoded` or `Event::DecodeFailed`.
    Decode { payload: Vec<u8>, lost: bool },
    /// Write `pcm` to the output, report `consumed` of `total` bytes as the
    /// progress, and answer with `Event::Emitted` or with the failure.
    Emit { pcm: Vec<u8>, consumed: usize, total: usize },
    /// Release the codec's state: the session succeeded.
    Finish,
    /// Release the codec's state: the session failed with `error`.
    Fail { error: DecodeError },
}

/// An action, with its byte strings as sequences.
pub enum ActionView {
    Search { payload: Seq<u8>, offset: usize },
    Decode { payload: Seq<u8>, lost: bool },
    Emit { pcm: Seq<u8>, consumed: usize, total: usize },
    Finish,
    Fail { error: DecodeError },
}

impl View for Action {
    type V = ActionView;

    open spec fn view(&self) -> ActionView {
        match *self {
            Action::Search { payload, offset } => ActionView::Search { payload: payload@, offset },
            Action::Decode { payload, lost } => ActionView::Decode { payload: payload@, lost },
            Action::Emit { pcm, consumed, total } => ActionView::Emit {
                pcm: pcm@,
                consumed,
                total,
            },
            Action::Finish => ActionView::Finish,
            Action::Fail { error } => ActionView::Fail { error },
        }
    }
}

/// The state of a session, as plain values.
pub struct SessionView {
    /// The whole stream, header included.
    pub stream: Seq<u8>,
    /// How many bytes of it have been read.
    pub consumed: usize,
    /// The buffered packets, oldest first.
    pub window: Seq<Seq<u8>>,
    pub phase: Phase,
    /// The payload that is being decoded.
    pub payload: Seq<u8>,
    /// The samples gathered for the packet at the head.
    pub samples: Seq<i16>,
    /// The frames that those samples come from.
    pub frames: usize,
    /// The codec's latest word on how many frames a packet holds.
    pub frames_per_packet: usize,
}

/// The low byte of a sample in two's complement.
pub open spec fn low_byte(x: i16) -> u8 {
    let u: int = if x < 0 {
        x as int + 65536
    } else {
        x as int
    };
    (u % 256) as u8
}

/// The high byte of a sample in two's complement.
pub open spec fn high_byte(x: i16) -> u8 {
    let u: int = if x < 0 {
        x as int + 65536
    } else {
        x as int
    };
    (u / 256) as u8
}

/// The samples as 16-bit little-endian PCM.
pub open spec fn pcm_bytes(samples: Seq<i16>) -> Seq<u8>
    decreases samples.len(),
{
    if samples.len() == 0 {
        Seq::empty()
    } else {
        pcm_bytes(samples.drop_last()) + seq![low_byte(samples.last()), high_byte(samples.last())]
    }
}

/// The session fails with `error`.
pub open spec fn fail_with(v: SessionView, error: DecodeError) -> (SessionView, ActionView) {
    (SessionView { phase: Phase::Failed { error }, ..v }, ActionView::Fail { error })
}

/// The gathered samples go out, with the position reached in the stream.
pub open spec fn emit_samples(v: SessionView) -> (SessionView, ActionView) {
    (
        SessionView { phase: Phase::AwaitEmit, ..v },
        ActionView::Emit {
            pcm: pcm_bytes(v.samples),
            consumed: v.consumed,
            total: v.stream.len() as usize,
        },
    )
}

/// Nothing recovers the head packet: the codec conceals the loss, once for
/// each frame that it last said a packet holds, from an empty payload.
pub open spec fn conceal_loss(v: SessionView) -> (SessionView, ActionView) {
    if v.frames_per_packet == 0 {
        emit_samples(v)
    } else {
        (
            SessionView { phase: Phase::AwaitConceal { remaining: v.frames_per_packet }, ..v },
            ActionView::Decode { payload: Seq::empty(), lost: true },
        )
    }
}

/// The search for recovery data goes on at packet `from`: the first
/// non-empty packet from there on is searched; where none is left, the loss
/// is concealed.
pub open spec fn seek_recovery(v: SessionView, from: int) -> (SessionView, ActionView)
    decreases v.window.len() - from,
{
    if from < 0 || from >= v.window.len() {
        conceal_loss(v)
    } else if v.window[from].len() > 0 {
        (
            SessionView { phase: Phase::AwaitSearch { slot: from as usize }, ..v },
            ActionView::Search { payload: v.window[from], offset: from as usize },
        )
    } else {
        seek_recovery(v, from + 1)
    }
}

/// One packet is read into the window, and the packet at the head is either
/// decoded as it stands or, where the policy calls it lost, searched for.
/// The end of the stream ends the session; a packet that the window cannot
/// take fails it.
pub open spec fn pull_next<P: LossPolicy>(v: SessionView, policy: P) -> (SessionView, ActionView) {
    let fresh = SessionView { payload: Seq::empty(), samples: Seq::empty(), frames: 0, ..v };
    match packet_at(v.stream, v.consumed as int) {
        None => (SessionView { phase: Phase::Finished, ..fresh }, ActionView::Finish),
        Some(p) => {
            let read = SessionView { consumed: (v.consumed + 2 + p.len()) as usize, ..fresh };
            if v.window.len() < WINDOW_SLOTS && total_len(v.window) + p.len() <= WINDOW_CAPACITY {
                let held = SessionView { window: v.window.push(p), ..read };
                let head = held.window[0];
                if policy.present(head.len()) {
                    (
                        SessionView { phase: Phase::AwaitDecode, payload: head, ..held },
                        ActionView::Decode { payload: head, lost: false },
                    )
                } else {
                    seek_recovery(held, 1)
                }
            } else {
                fail_with(read, DecodeError::DecodeFailure)
            }
        },
    }
}

/// One more decoded frame of the payload. Past the frame cap the gathered
/// samples are dropped and gathering starts again from nothing.
pub open spec fn frame_decoded(
    v: SessionView,
    samples: Seq<i16>,
    more_pending: bool,
    frames_per_packet: usize,
) -> (SessionView, ActionView) {
    let over = v.frames + 1 > MAX_INPUT_FRAMES;
    let next = SessionView {
        samples: if over {
            Seq::empty()
        } else {
            v.samples + samples
        },
        frames: if over {
            0
        } else {
            (v.frames + 1) as usize
        },
        frames_per_packet,
        ..v
    };
    if more_pending {
        (next, ActionView::Decode { payload: v.payload, lost: false })
    } else {
        emit_samples(next)
    }
}

/// One more concealed frame.
pub open spec fn frame_concealed(
    v: SessionView,
    remaining: usize,
    samples: Seq<i16>,
    frames_per_packet: usize,
) -> (SessionView, ActionView) {
    let next = SessionView { samples: v.samples + samples, frames_per_packet, ..v };
    if remaining > 1 {
        (
            SessionView {
                phase: Phase::AwaitConceal { remaining: (remaining - 1) as usize },
                ..next
            },
            ActionView::Decode { payload: Seq::empty(), lost: true },
        )
    } else {
        emit_samples(next)
    }
}

/// The session's whole rule: the state and the action that follow a state
/// and an event. An event that does not answer the last action fails the
/// session; a session that has ended repeats its last word.
pub open spec fn after_event<P: LossPolicy>(v: SessionView, event: Event, policy: P) -> (
    SessionView,
    ActionView,
) {
    match v.phase {
        Phase::Finished => (v, ActionView::Finish),
        Phase::Failed { error } => (v, ActionView::Fail { error }),
        Phase::AwaitDecoder => match event {
            Event::DecoderReady => pull_next(v, policy),
            Event::AllocationFailed => fail_with(v, DecodeError::AllocationFailure),
            Event::InitFailed => fail_with(v, DecodeError::DecoderInitFailure),
            _ => fail_with(v, DecodeError::DecodeFailure),
        },
        Phase::AwaitSearch { slot } => match event {
            Event::SearchResult { payload } => if payload@.len() > 0 {
                (
                    SessionView { phase: Phase::AwaitDecode, payload: payload@, ..v },
                    ActionView::Decode { payload: payload@, lost: false },
                )
            } else {
                seek_recovery(v, slot + 1)
            },
            _ => fail_with(v, DecodeError::DecodeFailure),
        },
        Phase::AwaitDecode => match event {
            Event::Decoded { samples, more_pending, frames_per_packet } => frame_decoded(
                v,
                samples@,
                more_pending,
                frames_per_packet,
            ),
            _ => fail_with(v, DecodeError::DecodeFailure),
        },
        Phase::AwaitConceal { remaining } => match event {
            Event::Decoded { samples, more_pending, frames_per_packet } => frame_concealed(
                v,
                remaining,
                samples@,
                frames_per_packet,
            ),
            _ => fail_with(v, DecodeError::DecodeFailure),
        },
        Phase::AwaitEmit => match event {
            Event::Emitted => pull_next(SessionView { window: v.window.drop_first(), ..v }, policy),
            Event::SinkFailed => fail_with(v, DecodeError::IOError),
            Event::ChannelClosed => fail_with(v, DecodeError::ChannelClosed),
            _ => fail_with(v, DecodeError::DecodeFailure),
        },
    }
}

/// The state in which a session over `stream` starts: behind the header,
/// with the first `RECOVERY_DEPTH` packets in the window. A stream without
/// a valid header gives `InvalidHeader`, one that ends before the window is
/// primed `IOError`, one whose first packets overfill it `DecodeFailure`.
pub open spec fn opened(stream: Seq<u8>) -> Result<SessionView, DecodeError> {
    match header_len(stream) {
        None => Err(DecodeError::InvalidHeader),
        Some(h) => match packet_at(stream, h as int) {
            None => Err(DecodeError::IOError),
            Some(first) => if first.len() > WINDOW_CAPACITY {
                Err(DecodeError::DecodeFailure)
            } else {
                match packet_at(stream, (h + 2 + first.len()) as int) {
                    None => Err(DecodeError::IOError),
                    Some(second) => if first.len() + second.len() > WINDOW_CAPACITY {
                        Err(DecodeError::DecodeFailure)
                    } else {
                        Ok(
                            SessionView {
                                stream,
                                consumed: (h + 4 + first.len() + second.len()) as usize,
                                window: seq![first, second],
                                phase: Phase::AwaitDecoder,
                                payload: Seq::empty(),
                                samples: Seq::empty(),
                                frames: 0,
                                frames_per_packet: 1,
                            },
                        )
                    },
                }
            },
        },
    }
}

/// What holds of a session's state at every point: the position lies in
/// the stream, the window keeps its capacity and, while a packet is being
/// worked on, is full, and the frames gathered stay within the cap.
pub open spec fn valid(v: SessionView) -> bool {
    &&& v.consumed <= v.stream.len()
    &&& v.stream.len() <= usize::MAX
    &&& v.frames <= MAX_INPUT_FRAMES
    &&& v.window.len() <= WINDOW_SLOTS
    &&& total_len(v.window) <= WINDOW_CAPACITY
    &&& match v.phase {
        Phase::AwaitDecoder => v.window.len() == RECOVERY_DEPTH,
        Phase::AwaitSearch { slot } => v.window.len() == WINDOW_SLOTS && 1 <= slot
            <= RECOVERY_DEPTH,
        Phase::AwaitDecode => v.window.len() == WINDOW_SLOTS,
        Phase::AwaitConceal { remaining } => v.window.len() == WINDOW_SLOTS && remaining >= 1,
        Phase::AwaitEmit => v.window.len() == WINDOW_SLOTS,
        Phase::Finished => true,
        Phase::Failed { error } => true,
    }
}

fn copy_bytes(src: &Vec<u8>) -> (out: Vec<u8>)
    ensures
        out@ == src@,
{
    let mut out: Vec<u8> = Vec::new();
    let mut i: usize = 0;
    while i < src.len()
        invariant
            i <= src.len(),
            out@ == src@.subrange(0, i as int),
        decreases src.len() - i,
    {
        out.push(src[i]);
        assert(src@.subrange(0, i + 1) =~= src@.subrange(0, i as int).push(src@[i as int]));
        i += 1;
    }
    assert(src@.subrange(0, src@.len() as int) =~= src@);
    out
}

fn append_samples(acc: &mut Vec<i16>, more: &Vec<i16>)
    ensures
        final(acc)@ == old(acc)@ + more@,
{
    let mut i: usize = 0;
    assert(acc@ =~= old(acc)@ + more@.subrange(0, 0));
    while i < more.len()
        invariant
            i <= more.len(),
            acc@ == old(acc)@ + more@.subrange(0, i as int),
        decreases more.len() - i,
    {
        acc.push(more[i]);
        assert(acc@ =~= old(acc)@ + more@.subrange(0, i + 1));
        i += 1;
    }
    assert(more@.subrange(0, more@.len() as int) =~= more@);
}

/// The samples as 16-bit little-endian PCM bytes.
pub fn pcm_of(samples: &Vec<i16>) -> (out: Vec<u8>)
    ensures
        out@ == pcm_bytes(samples@),
{
    let mut out: Vec<u8> = Vec::new();
    let mut i: usize = 0;
    assert(samples@.take(0) =~= Seq::<i16>::empty());
    while i < samples.len()
        invariant
            i <= samples.len(),
            out@ == pcm_bytes(samples@.take(i as int)),
        decreases samples.len() - i,
    {
        let x: i16 = samples[i];
        let wide: i32 = x as i32;
        let u: i32 = if wide < 0 {
            wide + 65536
        } else {
            wide
        };
        out.push((u % 256) as u8);
        out.push((u / 256) as u8);
        proof {
            let next = samples@.take(i + 1);
            assert(next.drop_last() =~= samples@.take(i as int));
            assert(next.last() == x);
            assert(out@ =~= pcm_bytes(next.drop_last()) + seq![low_byte(x), high_byte(x)]);
        }
        i += 1;
    }
    assert(samples@.take(samples@.len() as int) =~= samples@);
    out
}

/// One session over one stream, with the policy that tells its losses.
pub struct DecodeSession<P: LossPolicy> {
    pub reader: ContainerReader,
    pub window: LookaheadWindow,
    pub policy: P,
    pub phase: Phase,
    pub payload: Vec<u8>,
    pub samples: Vec<i16>,
    pub frames: usize,
    pub frames_per_packet: usize,
}

impl<P: LossPolicy> DecodeSession<P> {
    /// The session's state as plain values.
    pub open spec fn view(&self) -> SessionView {
        SessionView {
            stream: self.reader.data@,
            consumed: self.reader.pos,
            window: self.window@,
            phase: self.phase,
            payload: self.payload@,
            samples: self.samples@,
            frames: self.frames,
            frames_per_packet: self.frames_per_packet,
        }
    }

    /// The parts are sound.
    pub open spec fn parts_wf(&self) -> bool {
        self.reader.wf() && self.window.wf()
    }

    /// The parts are sound and the state is valid.
    pub open spec fn wf(&self) -> bool {
        self.parts_wf() && valid(self@)
    }

    /// Opens a session over `input`: checks the header and primes the
    /// window. Nothing has been asked of the codec or the output yet.
    pub fn open(input: Vec<u8>, policy: P) -> (r: Result<Self, DecodeError>)
        ensures
            match r {
                Ok(s) => s.wf() && opened(input@) == Ok::<SessionView, DecodeError>(s@) && s.policy
                    == policy,
                Err(e) => opened(input@) == Err::<SessionView, DecodeError>(e),
            },
    {
        let mut reader = match ContainerReader::open(input) {
            Ok(r) => r,
            Err(e) => {
                return Err(e);
            },
        };
        let mut window = LookaheadWindow::new();
        proof {
            window.lemma_buffered_is_sum();
        }
        let first = match reader.next_packet() {
            Some(p) => p,
            None => {
                return Err(DecodeError::IOError);
            },
        };
        if !window.push(&first) {
            return Err(DecodeError::DecodeFailure);
        }
        proof {
            window.lemma_buffered_is_sum();
            lemma_total_len_push(Seq::<Seq<u8>>::empty(), first@);
        }
        let second = match reader.next_packet() {
            Some(p) => p,
            None => {
                return Err(DecodeError::IOError);
            },
        };
        if !window.push(&second) {
            return Err(DecodeError::DecodeFailure);
        }
        let s = DecodeSession {
            reader,
            window,
            policy,
            phase: Phase::AwaitDecoder,
            payload: Vec::new(),
            samples: Vec::new(),
            frames: 0,
            frames_per_packet: 1,
        };
        proof {
            s.window.lemma_buffered_is_sum();
            assert(s.window@ =~= seq![first@, second@]);
            assert(opened(input@) is Ok);
            assert(s@ =~= opened(input@)->Ok_0);
            assert(s.reader.data.len() == s@.stream.len());
        }
        Ok(s)
    }

    /// Tells whether the session is well-formed.
    pub fn is_sound(&self) -> (b: bool)
        ensures
            b == self.wf(),
    {
        proof {
            if self.window.wf() {
                self.window.lemma_buffered_is_sum();
            }
            assert(self.reader.data.len() == self@.stream.len());
        }
        if self.reader.pos > self.reader.data.len() || !self.window.is_sound() || self.frames
            > MAX_INPUT_FRAMES {
            return false;
        }
        let count = self.window.len();
        match self.phase {
            Phase::AwaitDecoder => count == RECOVERY_DEPTH,
            Phase::AwaitSearch { slot } => count == WINDOW_SLOTS && 1 <= slot && slot
                <= RECOVERY_DEPTH,
            Phase::AwaitDecode => count == WINDOW_SLOTS,
            Phase::AwaitConceal { remaining } => count == WINDOW_SLOTS && remaining >= 1,
            Phase::AwaitEmit => count == WINDOW_SLOTS,
            Phase::Finished => true,
            Phase::Failed { error } => true,
        }
    }

    /// Number of bytes of the stream read so far.
    pub fn bytes_consumed(&self) -> (n: usize)
        ensures
            n == self@.consumed,
    {
        self.reader.bytes_consumed()
    }

    /// Length of the whole stream.
    pub fn total_bytes(&self) -> (n: usize)
        ensures
            n == self@.stream.len(),
    {
        self.reader.total_bytes()
    }

    /// What the session is waiting for.
    pub fn phase(&self) -> (p: Phase)
        ensures
            p == self@.phase,
    {
        self.phase
    }

    fn fail(&mut self, error: DecodeError) -> (action: Action)
        ensures
            final(self).reader == old(self).reader,
            final(self).window == old(self).window,
            final(self).policy == old(self).policy,
            (final(self)@, action@) == fail_with(old(self)@, error),
    {
        self.phase = Phase::Failed { error };
        Action::Fail { error }
    }

    fn emit(&mut self) -> (action: Action)
        ensures
            final(self).reader == old(self).reader,
            final(self).window == old(self).window,
            final(self).policy == old(self).policy,
            (final(self)@, action@) == emit_samples(old(self)@),
    {
        let pcm = pcm_of(&self.samples);
        self.phase = Phase::AwaitEmit;
        Action::Emit {
            pcm,
            consumed: self.reader.bytes_consumed(),
            total: self.reader.total_bytes(),
        }
    }

    fn conceal(&mut self) -> (action: Action)
        ensures
            final(self).reader == old(self).reader,
            final(self).window == old(self).window,
            final(self).policy == old(self).policy,
            (final(self)@, action@) == conceal_loss(old(self)@),
    {
        if self.frames_per_packet == 0 {
            self.emit()
        } else {
            self.phase = Phase::AwaitConceal { remaining: self.frames_per_packet };
            Action::Decode { payload: Vec::new(), lost: true }
        }
    }

    fn seek(&mut self, from: usize) -> (action: Action)
        requires
            old(self).parts_wf(),
        ensures
            final(self).reader == old(self).reader,
            final(self).window == old(self).window,
            final(self).policy == old(self).policy,
            (final(self)@, action@) == seek_recovery(old(self)@, from as int),
    {
        let count = self.window.len();
        let mut i: usize = from;
        while i < count
            invariant
                *self == *old(self),
                self.parts_wf(),
                count == self.window@.len(),
                from <= i,
                seek_recovery(self@, i as int) == seek_recovery(self@, from as int),
            decreases count - i,
        {
            if self.window.packet_len(i) > 0 {
                let payload = self.window.packet_bytes(i);
                self.phase = Phase::AwaitSearch { slot: i };
                return Action::Search { payload, offset: i };
            }
            i += 1;
        }
        self.conceal()
    }

    fn pull(&mut self) -> (action: Action)
        requires
            old(self).parts_wf(),
        ensures
            final(self).parts_wf(),
            final(self).policy == old(self).policy,
            (final(self)@, action@) == pull_next(old(self)@, old(self).policy),
    {
        self.payload = Vec::new();
        self.samples = Vec::new();
        self.frames = 0;
        proof {
            self.window.lemma_buffered_is_sum();
        }
        match self.reader.next_packet() {
            None => {
                self.phase = Phase::Finished;
                Action::Finish
            },
            Some(p) => {
                if !self.window.push(&p) {
                    return self.fail(DecodeError::DecodeFailure);
                }
                let head_len = self.window.packet_len(0);
                if self.policy.is_present(head_len) {
                    let head = self.window.packet_bytes(0);
                    self.payload = copy_bytes(&head);
                    self.phase = Phase::AwaitDecode;
                    Action::Decode { payload: head, lost: false }
                } else {
                    self.seek(1)
                }
            },
        }
    }

    /// Takes the outcome of the last action and says what to do next, as
    /// `after_event` lays down.
    pub fn step(&mut self, event: Event) -> (action: Action)
        requires
            old(self).wf(),
        ensures
            final(self).wf(),
            final(self).policy == old(self).policy,
            (final(self)@, action@) == after_event(old(self)@, event, old(self).policy),
    {
        proof {
            lemma_valid_is_kept(self@, event, self.policy);
        }
        match self.phase {
            Phase::Finished => Action::Finish,
            Phase::Failed { error } => Action::Fail { error },
            Phase::AwaitDecoder => match event {
                Event::DecoderReady => self.pull(),
                Event::AllocationFailed => self.fail(DecodeError::AllocationFailure),
                Event::InitFailed => self.fail(DecodeError::DecoderInitFailure),
                _ => self.fail(DecodeError::DecodeFailure),
            },
            Phase::AwaitSearch { slot } => match event {
                Event::SearchResult { payload } => {
                    if payload.len() > 0 {
                        self.payload = copy_bytes(&payload);
                        self.phase = Phase::AwaitDecode;
                        Action::Decode { payload, lost: false }
                    } else {
                        self.seek(slot + 1)
                    }
                },
                _ => self.fail(DecodeError::DecodeFailure),
            },
            Phase::AwaitDecode => match event {
                Event::Decoded { samples, more_pending, frames_per_packet } => {
                    if self.frames + 1 > MAX_INPUT_FRAMES {
                        self.samples = Vec::new();
                        self.frames = 0;
                    } else {
                        append_samples(&mut self.samples, &samples);
                        self.frames = self.frames + 1;
                    }
                    self.frames_per_packet = frames_per_packet;
                    if more_pending {
                        let payload = copy_bytes(&self.payload);
                        Action::Decode { payload, lost: false }
                    } else {
                        self.emit()
                    }
                },
                _ => self.fail(DecodeError::DecodeFailure),
            },
            Phase::AwaitConceal { remaining } => match event {
                Event::Decoded { samples, more_pending, frames_per_packet } => {
                    append_samples(&mut self.samples, &samples);
                    self.frames_per_packet = frames_per_packet;
                    if remaining > 1 {
                        self.phase = Phase::AwaitConceal { remaining: remaining - 1 };
                        Action::Decode { payload: Vec::new(), lost: true }
                    } else {
                        self.emit()
                    }
                },
                _ => self.fail(DecodeError::DecodeFailure),
            },
            Phase::AwaitEmit => match event {
                Event::Emitted => {
                    self.window.slide();
                    self.pull()
                },
                Event::SinkFailed => self.fail(DecodeError::IOError),
                Event::ChannelClosed => self.fail(DecodeError::ChannelClosed),
                _ => self.fail(DecodeError::DecodeFailure),
            },
        }
    }
}

/// The search keeps a valid state valid.
pub proof fn lemma_seek_keeps_valid(v: SessionView, from: int)
    requires
        valid(SessionView { phase: Phase::AwaitDecode, ..v }),
        1 <= from,
    ensures
        valid(seek_recovery(v, from).0),
    decreases v.window.len() - from,
{
    if from < v.window.len() && v.window[from].len() == 0 {
        lemma_seek_keeps_valid(v, from + 1);
    }
}

/// Reading the next packet keeps a valid state valid.
pub proof fn lemma_pull_keeps_valid<P: LossPolicy>(v: SessionView, policy: P)
    requires
        valid(SessionView { phase: Phase::AwaitDecoder, ..v }),
    ensures
        valid(pull_next(v, policy).0),
{
    match packet_at(v.stream, v.consumed as int) {
        None => {},
        Some(p) => {
            if v.window.len() < WINDOW_SLOTS && total_len(v.window) + p.len() <= WINDOW_CAPACITY {
                lemma_total_len_push(v.window, p);
                let held = SessionView {
                    consumed: (v.consumed + 2 + p.len()) as usize,
                    payload: Seq::empty(),
                    samples: Seq::empty(),
                    frames: 0,
                    window: v.window.push(p),
                    ..v
                };
                lemma_seek_keeps_valid(held, 1);
            }
        },
    }
}

/// The state stays valid: whatever the event, a valid state is followed by
/// a valid one. With it the window's capacity is never exceeded.
pub proof fn lemma_valid_is_kept<P: LossPolicy>(v: SessionView, event: Event, policy: P)
    requires
        valid(v),
    ensures
        valid(after_event(v, event, policy).0),
{
    match v.phase {
        Phase::AwaitDecoder => {
            lemma_pull_keeps_valid(v, policy);
        },
        Phase::AwaitSearch { slot } => {
            lemma_seek_keeps_valid(v, slot + 1);
        },
        Phase::AwaitEmit => {
            lemma_total_len_drop_first(v.window);
            lemma_pull_keeps_valid(SessionView { window: v.window.drop_first(), ..v }, policy);
        },
        _ => {},
    }
}

/// The search neither reads from the stream nor touches the window, and
/// what it emits reports the position as it stands.
pub proof fn lemma_seek_keeps_position(v: SessionView, from: int)
    requires
        v.stream.len() <= usize::MAX,
    ensures
        seek_recovery(v, from).0.stream == v.stream,
        seek_recovery(v, from).0.consumed == v.consumed,
        seek_recovery(v, from).0.window == v.window,
        reports_position(seek_recovery(v, from)),
    decreases v.window.len() - from,
{
    if 0 <= from < v.window.len() && v.window[from].len() == 0 {
        lemma_seek_keeps_position(v, from + 1);
    }
}

/// Where the action emits, it reports the position that the state holds,
/// out of the stream's full length.
pub open spec fn reports_position(outcome: (SessionView, ActionView)) -> bool {
    match outcome.1 {
        ActionView::Emit { pcm, consumed, total } => consumed == outcome.0.consumed && total
            == outcome.0.stream.len(),
        _ => true,
    }
}

/// Progress never falls: an event leaves the stream as it is and moves the
/// position forward or not at all, never beyond the stream's end and never
/// off the chain of packets; every emission reports that position.
pub proof fn lemma_position_advances<P: LossPolicy>(v: SessionView, event: Event, policy: P)
    requires
        valid(v),
    ensures
        after_event(v, event, policy).0.stream == v.stream,
        v.consumed <= after_event(v, event, policy).0.consumed <= v.stream.len(),
        end_position(v.stream, after_event(v, event, policy).0.consumed as int) == end_position(
            v.stream,
            v.consumed as int,
        ),
        reports_position(after_event(v, event, policy)),
{
    lemma_valid_is_kept(v, event, policy);
    match v.phase {
        Phase::AwaitDecoder => {
            lemma_pull_keeps_position(v, policy);
        },
        Phase::AwaitSearch { slot } => {
            lemma_seek_keeps_position(v, slot + 1);
        },
        Phase::AwaitEmit => {
            lemma_pull_keeps_position(SessionView { window: v.window.drop_first(), ..v }, policy);
        },
        _ => {},
    }
}

/// Reading the next packet moves the position behind that packet, and
/// leaves it where it is at the end of the stream.
pub proof fn lemma_pull_keeps_position<P: LossPolicy>(v: SessionView, policy: P)
    requires
        v.consumed <= v.stream.len() <= usize::MAX,
    ensures
        pull_next(v, policy).0.stream == v.stream,
        v.consumed <= pull_next(v, policy).0.consumed <= v.stream.len(),
        end_position(v.stream, pull_next(v, policy).0.consumed as int) == end_position(
            v.stream,
            v.consumed as int,
        ),
        reports_position(pull_next(v, policy)),
        pull_next(v, policy).1 is Finish ==> pull_next(v, policy).0.consumed == v.consumed
            && v.consumed == end_position(v.stream, v.consumed as int),
        pull_next(v, policy).0.phase is Finished <==> pull_next(v, policy).1 is Finish,
{
    match packet_at(v.stream, v.consumed as int) {
        None => {},
        Some(p) => {
            if v.window.len() < WINDOW_SLOTS && total_len(v.window) + p.len() <= WINDOW_CAPACITY {
                let held = SessionView {
                    consumed: (v.consumed + 2 + p.len()) as usize,
                    payload: Seq::empty(),
                    samples: Seq::empty(),
                    frames: 0,
                    window: v.window.push(p),
                    ..v
                };
                lemma_seek_keeps_position(held, 1);
                lemma_seek_never_finishes(held, 1);
            }
        },
    }
}

/// The search never ends the session.
pub proof fn lemma_seek_never_finishes(v: SessionView, from: int)
    ensures
        !(seek_recovery(v, from).1 is Finish),
        !(seek_recovery(v, from).1 is Fail),
        !(seek_recovery(v, from).0.phase is Finished),
    decreases v.window.len() - from,
{
    if 0 <= from < v.window.len() && v.window[from].len() == 0 {
        lemma_seek_never_finishes(v, from + 1);
    }
}

/// A session that comes to its end has read the stream as far as packets
/// go: at the moment it finishes, the position is the end of the chain of
/// packets, which the last emission before it has reported.
pub proof fn lemma_finish_is_at_end<P: LossPolicy>(v: SessionView, event: Event, policy: P)
    requires
        valid(v),
        !(v.phase is Finished),
        after_event(v, event, policy).1 is Finish || after_event(v, event, policy).0.phase
            is Finished,
    ensures
        after_event(v, event, policy).1 is Finish,
        after_event(v, event, policy).0.phase is Finished,
        after_event(v, event, policy).0.consumed == v.consumed,
        v.consumed == end_position(v.stream, v.consumed as int),
{
    match v.phase {
        Phase::AwaitDecoder => {
            lemma_pull_keeps_position(v, policy);
        },
        Phase::AwaitSearch { slot } => {
            lemma_seek_never_finishes(v, slot + 1);
        },
        Phase::AwaitEmit => {
            lemma_pull_keeps_position(SessionView { window: v.window.drop_first(), ..v }, policy);
        },
        _ => {},
    }
}

/// Two states agree on all that decoding reads and writes.
pub open spec fn same_decoding(a: SessionView, b: SessionView) -> bool {
    &&& a.phase == b.phase
    &&& a.payload == b.payload
    &&& a.samples == b.samples
    &&& a.frames == b.frames
    &&& a.frames_per_packet == b.frames_per_packet
}

/// Two actions ask the codec for the same work, put out the same bytes, or
/// fail alike.
pub open spec fn same_output(x: ActionView, y: ActionView) -> bool {
    match (x, y) {
        (
            ActionView::Decode { payload: p, lost: l },
            ActionView::Decode { payload: q, lost: m },
        ) => p == q && l == m,
        (
            ActionView::Emit { pcm: p, consumed: _, total: _ },
            ActionView::Emit { pcm: q, consumed: _, total: _ },
        ) => p == q,
        (ActionView::Fail { error: e }, ActionView::Fail { error: f }) => e == f,
        _ => false,
    }
}

/// A recovered packet is decoded as the packet itself would have been:
/// where one session finds `recovered` for its lost head packet and another
/// reads the same bytes as an intact head packet, both ask the codec for
/// the same decoding and go on from states that agree.
pub proof fn lemma_recovery_decodes_as_intact<P: LossPolicy>(
    lost: SessionView,
    intact: SessionView,
    recovered: Vec<u8>,
    arrived: Seq<u8>,
    policy: P,
)
    requires
        lost.phase is AwaitSearch,
        lost.samples.len() == 0,
        lost.frames == 0,
        lost.frames_per_packet == intact.frames_per_packet,
        recovered@.len() > 0,
        packet_at(intact.stream, intact.consumed as int) == Some(arrived),
        intact.window.len() < WINDOW_SLOTS,
        total_len(intact.window) + arrived.len() <= WINDOW_CAPACITY,
        intact.window.push(arrived)[0] == recovered@,
        policy.present(recovered@.len()),
    ensures
        same_output(
            after_event(lost, Event::SearchResult { payload: recovered }, policy).1,
            pull_next(intact, policy).1,
        ),
        same_decoding(
            after_event(lost, Event::SearchResult { payload: recovered }, policy).0,
            pull_next(intact, policy).0,
        ),
{
    assert(lost.samples =~= Seq::<i16>::empty());
}

/// Decoding reads nothing but the payload and what was gathered: from
/// states that agree on those, the same decoded frame leads to the same
/// request or the same output, and to states that agree again.
pub proof fn lemma_decoding_ignores_window<P: LossPolicy>(
    a: SessionView,
    b: SessionView,
    event: Event,
    policy: P,
)
    requires
        a.phase == Phase::AwaitDecode || a.phase == Phase::AwaitEmit || a.phase is Failed,
        same_decoding(a, b),
        event is Decoded,
    ensures
        same_output(after_event(a, event, policy).1, after_event(b, event, policy).1),
        same_decoding(after_event(a, event, policy).0, after_event(b, event, policy).0),
{
}

/// Past the frame cap the session starts over and does not fail: a frame
/// decoded when the cap is already reached empties what was gathered, and
/// the session goes on decoding or emits.
pub proof fn lemma_resync_past_frame_cap<P: LossPolicy>(v: SessionView, event: Event, policy: P)
    requires
        v.phase == Phase::AwaitDecode,
        v.frames == MAX_INPUT_FRAMES,
        event is Decoded,
    ensures
        after_event(v, event, policy).0.samples == Seq::<i16>::empty(),
        after_event(v, event, policy).0.frames == 0,
        !(after_event(v, event, policy).0.phase is Failed),
        !(after_event(v, event, policy).1 is Fail),
{
}

/// The state after a run of events, taken one after the other.
pub open spec fn after_events<P: LossPolicy>(v: SessionView, events: Seq<Event>, policy: P)
    -> SessionView
    decreases events.len(),
{
    if events.len() == 0 {
        v
    } else {
        after_events(after_event(v, events[0], policy).0, events.drop_first(), policy)
    }
}

/// A finished session stays as it is, whatever comes.
pub proof fn lemma_finished_stays<P: LossPolicy>(v: SessionView, events: Seq<Event>, policy: P)
    requires
        v.phase is Finished,
    ensures
        after_events(v, events, policy) == v,
    decreases events.len(),
{
    if events.len() > 0 {
        lemma_finished_stays(v, events.drop_first(), policy);
    }
}

/// Over any run of events the state stays valid, so that the window never
/// holds more than its capacity; the position never moves back; and a run
/// that finishes the session has read every packet of the stream.
pub proof fn lemma_run_progress<P: LossPolicy>(v: SessionView, events: Seq<Event>, policy: P)
    requires
        valid(v),
    ensures
        valid(after_events(v, events, policy)),
        after_events(v, events, policy).stream == v.stream,
        v.consumed <= after_events(v, events, policy).consumed <= v.stream.len(),
        end_position(v.stream, after_events(v, events, policy).consumed as int) == end_position(
            v.stream,
            v.consumed as int,
        ),
        after_events(v, events, policy).phase is Finished && !(v.phase is Finished) ==> after_events(
            v,
            events,
            policy,
        ).consumed == end_position(v.stream, v.consumed as int),
    decreases events.len(),
{
    if events.len() > 0 {
        let next = after_event(v, events[0], policy).0;
        lemma_valid_is_kept(v, events[0], policy);
        lemma_position_advances(v, events[0], policy);
        if next.phase is Finished {
            if !(v.phase is Finished) {
                lemma_finish_is_at_end(v, events[0], policy);
            }
            lemma_finished_stays(next, events.drop_first(), policy);
        } else {
            lemma_run_progress(next, events.drop_first(), policy);
        }
    }
}

/// A session starts in a valid state, on the chain of packets that begins
/// behind the header.
pub proof fn lemma_open_is_valid(stream: Seq<u8>)
    requires
        stream.len() <= usize::MAX,
        opened(stream) is Ok,
    ensures
        valid(opened(stream)->Ok_0),
        opened(stream)->Ok_0.stream == stream,
        !(opened(stream)->Ok_0.phase is Finished),
        end_position(stream, opened(stream)->Ok_0.consumed as int) == end_position(
            stream,
            header_len(stream)->Some_0 as int,
        ),
{
    let h = header_len(stream)->Some_0 as int;
    let first = packet_at(stream, h)->Some_0;
    let second = packet_at(stream, h + 2 + first.len())->Some_0;
    lemma_total_len_push(Seq::<Seq<u8>>::empty(), first);
    lemma_total_len_push(seq![first], second);
    assert(seq![first].push(second) =~= seq![first, second]);
    assert(Seq::<Seq<u8>>::empty().push(first) =~= seq![first]);
    let behind_first = h + 2 + first.len();
    assert(end_position(stream, h) == end_position(stream, behind_first));
    assert(end_position(stream, behind_first) == end_position(
        stream,
        behind_first + 2 + second.len(),
    ));
}

/// Progress ends at exactly 100: a session over a stream that is a header
/// followed by whole packets, however the codec and the output answer, has
/// consumed the whole stream when it finishes.
pub proof fn lemma_finished_session_is_at_hundred<P: LossPolicy>(
    header: Seq<u8>,
    packets: Seq<Seq<u8>>,
    events: Seq<Event>,
    policy: P,
)
    requires
        forall|i: int| 0 <= i < packets.len() ==> (#[trigger] packets[i]).len() <= MAX_PREFIX_LENGTH,
        (header + encode_packets(packets)).len() <= usize::MAX,
        header_len(header + encode_packets(packets)) == Some(header.len()),
        opened(header + encode_packets(packets)) is Ok,
        after_events(opened(header + encode_packets(packets))->Ok_0, events, policy).phase
            is Finished,
    ensures
        after_events(opened(header + encode_packets(packets))->Ok_0, events, policy).consumed == (
        header + encode_packets(packets)).len(),
        percent_of(
            after_events(
                opened(header + encode_packets(packets))->Ok_0,
                events,
                policy,
            ).consumed as nat,
            (header + encode_packets(packets)).len(),
        ) == 100,
{
    let stream = header + encode_packets(packets);
    lemma_open_is_valid(stream);
    lemma_run_progress(opened(stream)->Ok_0, events, policy);
    lemma_whole_stream_reaches_hundred(header, packets);
}

/// The same frames give the same samples: two sessions that agree on what
/// is being decoded, and are then told of the same decoded frames, gather
/// the same samples and agree at every step, whatever else their streams
/// and windows hold.
pub proof fn lemma_same_frames_same_samples<P: LossPolicy>(
    a: SessionView,
    b: SessionView,
    frames: Seq<Event>,
    policy: P,
)
    requires
        same_decoding(a, b),
        a.phase == Phase::AwaitDecode || a.phase == Phase::AwaitEmit || a.phase is Failed,
        forall|i: int| 0 <= i < frames.len() ==> #[trigger] frames[i] is Decoded,
    ensures
        same_decoding(after_events(a, frames, policy), after_events(b, frames, policy)),
        pcm_bytes(after_events(a, frames, policy).samples) == pcm_bytes(
            after_events(b, frames, policy).samples,
        ),
    decreases frames.len(),
{
    if frames.len() > 0 {
        assert(frames[0] is Decoded);
        let rest = frames.drop_first();
        assert forall|i: int| 0 <= i < rest.len() implies #[trigger] rest[i] is Decoded by {
            assert(rest[i] == frames[i + 1]);
        }
        lemma_same_frames_same_samples(
            after_event(a, frames[0], policy).0,
            after_event(b, frames[0], policy).0,
            rest,
            policy,
        );
    }
}

} // verus!
