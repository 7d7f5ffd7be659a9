//! The streaming framer: a state machine that is fed a byte stream one byte
//! at a time and hands out each frame as its closing flag arrives.

use crate::stuffing::{
    bare_flag_at, encoded, has_no_bare_flag, is_frame_body, lemma_stuff_unstuff, stuff, unstuff,
};
use vstd::prelude::*;

verus! {

/// The flag sequence that starts and ends every frame.
pub const FLAG: u8 = 0x7e;

/// The control escape: the byte after it was sent with [`ESCAPE_MASK`] applied.
pub const CONTROL_ESCAPE: u8 = 0x7d;

/// The bit that an escaped byte has flipped.
pub const ESCAPE_MASK: u8 = 0x20;

/// Where the framer stands in the stream.
#[derive(Clone, Copy, Debug, PartialEq, Eq)]
pub enum FramerState {
    /// Inside a frame: bytes are collected until the next flag.
    Frame,
    /// Inside a frame, right after a control escape: the next byte is data, whatever it is.
    Escaped,
    /// Before the first flag of the stream: bytes are thrown away.
    Flag,
}

/// The framer as a mathematical value: its state and the bytes of the frame
/// that is being collected.
#[verifier::ext_equal]
pub struct FramerModel {
    pub state: FramerState,
    pub pending: Seq<u8>,
}

impl FramerModel {
    /// A framer that has seen nothing yet.
    pub open spec fn fresh() -> FramerModel {
        FramerModel { state: FramerState::Flag, pending: Seq::empty() }
    }

    /// A framer right after a flag: inside a frame of which no byte has come.
    pub open spec fn idle() -> FramerModel {
        FramerModel { state: FramerState::Frame, pending: Seq::empty() }
    }

    /// What holds of every framer that started fresh: while it waits for
    /// the first flag it has collected nothing.
    pub open spec fn wf(self) -> bool {
        self.state == FramerState::Flag ==> self.pending.len() == 0
    }

    /// The framer after one more byte.
    pub open spec fn step(self, byte: u8) -> FramerModel {
        match self.state {
            FramerState::Flag => if byte == FLAG {
                FramerModel { state: FramerState::Frame, pending: self.pending }
            } else {
                self
            },
            FramerState::Frame => if byte == FLAG {
                Self::idle()
            } else if byte == CONTROL_ESCAPE {
                FramerModel { state: FramerState::Escaped, pending: self.pending }
            } else {
                FramerModel { state: FramerState::Frame, pending: self.pending.push(byte) }
            },
            FramerState::Escaped => FramerModel {
                state: FramerState::Frame,
                pending: self.pending.push(byte ^ ESCAPE_MASK),
            },
        }
    }

    /// The frame that one more byte completes, if it completes one: a flag
    /// that arrives inside a frame of which at least one byte has come.
    pub open spec fn emits(self, byte: u8) -> Option<Seq<u8>> {
        if self.state == FramerState::Frame && byte == FLAG && self.pending.len() > 0 {
            Some(self.pending)
        } else {
            None
        }
    }

    /// The framer after a whole stretch of bytes, fed one at a time.
    pub open spec fn after(self, bytes: Seq<u8>) -> FramerModel
        decreases bytes.len(),
    {
        if bytes.len() == 0 {
            self
        } else {
            self.after(bytes.drop_last()).step(bytes.last())
        }
    }

    /// The frames that a stretch of bytes completes, in the order in which
    /// they are handed out.
    pub open spec fn emitted(self, bytes: Seq<u8>) -> Seq<Seq<u8>>
        decreases bytes.len(),
    {
        if bytes.len() == 0 {
            Seq::empty()
        } else {
            let earlier = self.emitted(bytes.drop_last());
            match self.after(bytes.drop_last()).emits(bytes.last()) {
                Some(frame) => earlier.push(frame),
                None => earlier,
            }
        }
    }
}

/// Recovers frames from a byte stream.
///
/// Feed it every byte of the stream, in order, through
/// [`Framer::find_frame`]. It has no notion of the stream ending: bytes that
/// came after the last flag stay inside, and nothing hands them out.
pub struct Framer {
    frame: Vec<u8>,
    state: FramerState,
}

impl View for Framer {
    type V = FramerModel;

    closed spec fn view(&self) -> FramerModel {
        FramerModel { state: self.state, pending: self.frame@ }
    }
}

impl Framer {
    /// A framer for a stream of which no byte has been read.
    pub fn new() -> (r: Self)
        ensures
            r@ == FramerModel::fresh(),
            r@.wf(),
    {
        Framer { frame: Vec::<u8>::new(), state: FramerState::Flag }
    }

    /// Takes the next byte of the stream and returns the frame that it
    /// completes, if any.
    ///
    /// A frame is returned exactly when `byte` is a flag that closes at least
    /// one collected byte; the frame is already unescaped and never empty.
    /// The flag that closes one frame opens the next, so flags that follow
    /// one another return nothing.
    pub fn find_frame(&mut self, byte: u8) -> (r: Option<Vec<u8>>)
        ensures
            final(self)@ == old(self)@.step(byte),
            old(self)@.wf() ==> final(self)@.wf(),
            match r {
                Some(frame) => old(self)@.emits(byte) == Some(frame@),
                None => old(self)@.emits(byte) is None,
            },
            r is Some <==> old(self)@.state == FramerState::Frame && byte == FLAG && old(
                self,
            )@.pending.len() > 0,
            r matches Some(frame) ==> frame@.len() > 0,
    {
        match self.state {
            FramerState::Flag => {
                if byte == FLAG {
                    self.state = FramerState::Frame;
                }
                None
            },
            FramerState::Frame => {
                if byte == FLAG {
                    // The frame is complete: hand it out and start an empty one.
                    if !self.frame.is_empty() {
                        let mut new_frame = Vec::<u8>::new();
                        std::mem::swap(&mut self.frame, &mut new_frame);
                        return Some(new_frame);
                    }
                    None
                } else if byte == CONTROL_ESCAPE {
                    // The escape itself is not data.
                    self.state = FramerState::Escaped;
                    None
                } else {
                    self.frame.push(byte);
                    None
                }
            },
            FramerState::Escaped => {
                self.frame.push(byte ^ ESCAPE_MASK);
                self.state = FramerState::Frame;
                None
            },
        }
    }
}

/// `n` flag bytes in a row.
pub open spec fn flags(n: nat) -> Seq<u8> {
    Seq::new(n, |i: int| FLAG)
}

/// No byte of `bytes` is a flag.
pub open spec fn has_no_flag(bytes: Seq<u8>) -> bool {
    forall|i: int| 0 <= i < bytes.len() ==> bytes[i] != FLAG
}

/// A run of frames as it stands in a stream: each body in turn, followed by
/// the flag that closes it and by `idle[k]` flags more.
pub open spec fn wire_frames(bodies: Seq<Seq<u8>>, idle: Seq<nat>) -> Seq<u8>
    decreases bodies.len(),
{
    if bodies.len() == 0 {
        Seq::empty()
    } else {
        wire_frames(bodies.drop_last(), idle.drop_last()) + bodies.last() + flags(idle.last() + 1)
    }
}

/// The packets that a run of frame bodies carries.
pub open spec fn payloads(bodies: Seq<Seq<u8>>) -> Seq<Seq<u8>> {
    Seq::new(bodies.len(), |k: int| unstuff(bodies[k]).bytes)
}

/// A framer that collected nothing while it waited for its first flag
/// stays that way, whatever byte comes.
pub proof fn lemma_step_keeps_wf(m: FramerModel, byte: u8)
    requires
        m.wf(),
    ensures
        m.step(byte).wf(),
{
}

/// Feeding one byte more continues from where the bytes before it ended.
pub proof fn lemma_feed_push(m: FramerModel, bytes: Seq<u8>, byte: u8)
    ensures
        m.after(bytes.push(byte)) == m.after(bytes).step(byte),
        m.emitted(bytes.push(byte)) == match m.after(bytes).emits(byte) {
            Some(frame) => m.emitted(bytes).push(frame),
            None => m.emitted(bytes),
        },
{
    assert(bytes.push(byte).drop_last() =~= bytes);
}

/// A stream may be cut anywhere: feeding `a` and then `b` is feeding `a`
/// followed by `b`, and hands out the same frames in the same order.
pub proof fn lemma_feed_concat(m: FramerModel, a: Seq<u8>, b: Seq<u8>)
    ensures
        m.after(a + b) == m.after(a).after(b),
        m.emitted(a + b) == m.emitted(a) + m.after(a).emitted(b),
    decreases b.len(),
{
    if b.len() == 0 {
        assert(a + b =~= a);
        assert(m.emitted(a) + m.after(a).emitted(b) =~= m.emitted(a));
    } else {
        let head = b.drop_last();
        lemma_feed_concat(m, a, head);
        assert((a + b).drop_last() =~= a + head);
        let before = m.after(a).after(head);
        match before.emits(b.last()) {
            Some(frame) => {
                assert((m.emitted(a) + m.after(a).emitted(head)).push(frame) =~= m.emitted(a)
                    + m.after(a).emitted(head).push(frame));
            },
            None => {},
        }
    }
}

/// Before the first flag nothing counts: bytes that hold no flag leave a
/// waiting framer as it was.
pub proof fn lemma_noise_is_skipped(m: FramerModel, noise: Seq<u8>)
    requires
        m.state == FramerState::Flag,
        has_no_flag(noise),
    ensures
        m.after(noise) == m,
        m.emitted(noise) == Seq::<Seq<u8>>::empty(),
    decreases noise.len(),
{
    if noise.len() > 0 {
        lemma_noise_is_skipped(m, noise.drop_last());
    }
}

/// One flag or more, arriving outside an escape, leave the framer at the
/// start of an empty frame. They hand out what had been collected, if
/// anything had, and nothing else.
pub proof fn lemma_flags_close(m: FramerModel, extra: nat)
    requires
        m.wf(),
        m.state != FramerState::Escaped,
    ensures
        m.after(flags(extra + 1)) == FramerModel::idle(),
        m.emitted(flags(extra + 1)) == if m.pending.len() > 0 {
            seq![m.pending]
        } else {
            Seq::<Seq<u8>>::empty()
        },
    decreases extra,
{
    if extra == 0 {
        assert(flags(1) =~= Seq::<u8>::empty().push(FLAG));
        lemma_feed_push(m, Seq::empty(), FLAG);
        assert(m.step(FLAG) =~= FramerModel::idle());
        if m.pending.len() > 0 {
            assert(Seq::<Seq<u8>>::empty().push(m.pending) =~= seq![m.pending]);
        }
    } else {
        lemma_flags_close(m, (extra - 1) as nat);
        assert(flags(extra + 1) =~= flags(extra).push(FLAG));
        lemma_feed_push(m, flags(extra), FLAG);
    }
}

/// Inside a frame, and as long as no bare flag comes, the framer does what
/// [`unstuff`] does: it collects the unstuffed bytes and hands out nothing.
pub proof fn lemma_body_is_unstuffed(wire: Seq<u8>)
    requires
        has_no_bare_flag(wire),
    ensures
        FramerModel::idle().after(wire) == (FramerModel {
            state: if unstuff(wire).escaped {
                FramerState::Escaped
            } else {
                FramerState::Frame
            },
            pending: unstuff(wire).bytes,
        }),
        FramerModel::idle().emitted(wire) == Seq::<Seq<u8>>::empty(),
    decreases wire.len(),
{
    if wire.len() > 0 {
        let head = wire.drop_last();
        let last = wire.len() - 1;
        assert forall|i: int| 0 <= i < head.len() implies !bare_flag_at(head, i) by {
            assert(head.take(i) =~= wire.take(i));
            assert(!bare_flag_at(wire, i));
        }
        lemma_body_is_unstuffed(head);
        assert(wire.take(last) =~= head);
        assert(!bare_flag_at(wire, last));
    }
}

/// Something was unstuffed from every stretch of wire bytes that is not
/// empty and does not end on a hanging escape.
pub proof fn lemma_unstuffed_is_not_empty(wire: Seq<u8>)
    requires
        wire.len() > 0,
        !unstuff(wire).escaped,
    ensures
        unstuff(wire).bytes.len() > 0,
{
}

/// A frame body followed by its closing flag, and by any number of flags
/// more, hands out the packet it carries, once.
pub proof fn lemma_frame_is_emitted(body: Seq<u8>, extra: nat)
    requires
        is_frame_body(body),
    ensures
        FramerModel::idle().after(body + flags(extra + 1)) == FramerModel::idle(),
        FramerModel::idle().emitted(body + flags(extra + 1)) == seq![unstuff(body).bytes],
{
    let idle = FramerModel::idle();
    lemma_body_is_unstuffed(body);
    lemma_unstuffed_is_not_empty(body);
    lemma_feed_concat(idle, body, flags(extra + 1));
    lemma_flags_close(idle.after(body), extra);
    assert(Seq::<Seq<u8>>::empty() + seq![unstuff(body).bytes] =~= seq![unstuff(body).bytes]);
}

/// A run of frames, read from just after a flag, hands out the packet of
/// each frame, in order, and ends just after a flag again.
pub proof fn lemma_frames_are_emitted(bodies: Seq<Seq<u8>>, idle: Seq<nat>)
    requires
        bodies.len() == idle.len(),
        forall|k: int| 0 <= k < bodies.len() ==> is_frame_body(#[trigger] bodies[k]),
    ensures
        FramerModel::idle().after(wire_frames(bodies, idle)) == FramerModel::idle(),
        FramerModel::idle().emitted(wire_frames(bodies, idle)) == payloads(bodies),
    decreases bodies.len(),
{
    let start = FramerModel::idle();
    if bodies.len() == 0 {
        assert(payloads(bodies) =~= Seq::<Seq<u8>>::empty());
    } else {
        let earlier = wire_frames(bodies.drop_last(), idle.drop_last());
        let body = bodies.last();
        let closing = flags(idle.last() + 1);
        assert forall|k: int| 0 <= k < bodies.drop_last().len() implies is_frame_body(
            #[trigger] bodies.drop_last()[k],
        ) by {
            assert(bodies.drop_last()[k] == bodies[k]);
        }
        lemma_frames_are_emitted(bodies.drop_last(), idle.drop_last());
        lemma_frame_is_emitted(body, idle.last());
        assert(wire_frames(bodies, idle) =~= earlier + (body + closing));
        lemma_feed_concat(start, earlier, body + closing);
        assert(payloads(bodies.drop_last()) + seq![unstuff(body).bytes] =~= payloads(bodies));
    }
}

/// What a fresh framer hands out for a stream of frames.
///
/// The stream starts with any bytes that hold no flag, then one flag or
/// more, then the frames, each a body that [`is_frame_body`] accepts,
/// closed by one flag or more, and it ends with any bytes in which no
/// bare flag stands. The framer hands out one packet for each frame, in
/// the order of the frames, each the unstuffed body, and nothing else.
pub proof fn lemma_stream_of_frames(
    noise: Seq<u8>,
    lead: nat,
    bodies: Seq<Seq<u8>>,
    idle: Seq<nat>,
    rest: Seq<u8>,
)
    requires
        has_no_flag(noise),
        bodies.len() == idle.len(),
        forall|k: int| 0 <= k < bodies.len() ==> is_frame_body(#[trigger] bodies[k]),
        has_no_bare_flag(rest),
    ensures
        FramerModel::fresh().emitted(noise + flags(lead + 1) + wire_frames(bodies, idle) + rest)
            == payloads(bodies),
        payloads(bodies).len() == bodies.len(),
        forall|k: int| 0 <= k < bodies.len() ==> (#[trigger] payloads(bodies)[k]).len() > 0,
{
    let fresh = FramerModel::fresh();
    let start = FramerModel::idle();
    let opening = flags(lead + 1);
    let frames = wire_frames(bodies, idle);
    let none = Seq::<Seq<u8>>::empty();
    lemma_noise_is_skipped(fresh, noise);
    lemma_flags_close(fresh, lead);
    lemma_feed_concat(fresh, noise, opening);
    assert(fresh.after(noise + opening) == start);
    assert(fresh.emitted(noise + opening) =~= none);
    lemma_frames_are_emitted(bodies, idle);
    lemma_feed_concat(fresh, noise + opening, frames);
    assert(fresh.emitted(noise + opening + frames) =~= payloads(bodies));
    lemma_body_is_unstuffed(rest);
    lemma_feed_concat(fresh, noise + opening + frames, rest);
    assert(payloads(bodies) + none =~= payloads(bodies));
    assert forall|k: int| 0 <= k < bodies.len() implies (#[trigger] payloads(bodies)[k]).len()
        > 0 by {
        lemma_unstuffed_is_not_empty(bodies[k]);
    }
}

/// A flag that follows a flag hands out nothing: unless the first of the
/// two is itself escaped, and so is data, the second finds an empty frame.
pub proof fn lemma_repeated_flag_is_silent(m: FramerModel)
    requires
        m.wf(),
        m.state != FramerState::Escaped,
    ensures
        m.step(FLAG).emits(FLAG) is None,
        m.step(FLAG).step(FLAG) == m.step(FLAG),
{
}

/// No frame that is handed out is empty.
pub proof fn lemma_no_empty_frame(m: FramerModel, byte: u8)
    ensures
        m.emits(byte) matches Some(frame) ==> frame.len() > 0,
{
}

/// An encoded packet, fed to a fresh framer, hands out that packet and
/// nothing else; the encoding of the empty packet hands out nothing.
pub proof fn lemma_encoded_is_emitted(packet: Seq<u8>)
    ensures
        FramerModel::fresh().after(encoded(packet)) == FramerModel::idle(),
        FramerModel::fresh().emitted(encoded(packet)) == if packet.len() > 0 {
            seq![packet]
        } else {
            Seq::<Seq<u8>>::empty()
        },
{
    let fresh = FramerModel::fresh();
    let body = stuff(packet);
    lemma_stuff_unstuff(packet);
    lemma_flags_close(fresh, 0);
    assert(flags(1) =~= seq![FLAG]);
    lemma_feed_concat(fresh, seq![FLAG], body + seq![FLAG]);
    assert(encoded(packet) =~= seq![FLAG] + (body + seq![FLAG]));
    assert(Seq::<Seq<u8>>::empty() + FramerModel::idle().emitted(body + seq![FLAG])
        =~= FramerModel::idle().emitted(body + seq![FLAG]));
    if packet.len() > 0 {
        lemma_frame_is_emitted(body, 0);
    } else {
        assert(body + seq![FLAG] =~= flags(1));
        lemma_flags_close(FramerModel::idle(), 0);
    }
}

} // verus!
