//! One WebSocket connection: what it sends, how it answers control frames,
//! how it puts fragments together, and the state it is in.

use vstd::prelude::*;
use crate::error::WebSocketError;
use crate::frame::{views, Frame, FrameError, FrameView, OpCode};
use crate::message::{Message, MessageView};
use crate::transport::{Inbound, InboundView, Outbound, OutboundView, ReadOutcome};
use crate::wire::{assembled, decoding, encoding};

verus! {

/// Where a connection stands between handshake and shutdown.
#[derive(Debug, Clone, Copy, PartialEq, Eq, Structural)]
pub enum ConnectionState {
    Open,
    CloseSent,
    Closed,
}

impl ConnectionState {
    /// How far along the state is: 0 for open, 1 once a close was sent, 2 when closed.
    pub open spec fn rank(self) -> nat {
        match self {
            ConnectionState::Open => 0,
            ConnectionState::CloseSent => 1,
            ConnectionState::Closed => 2,
        }
    }

    /// Whether a connection in this state may later be in the state `later`.
    pub open spec fn leads_to(self, later: ConnectionState) -> bool {
        self.rank() <= later.rank()
    }
}

/// A send-only handle to a connection's transport. It does not look at the
/// connection's state.
pub struct Sender {
    writer: Outbound,
}

impl View for Sender {
    type V = OutboundView;

    closed spec fn view(&self) -> OutboundView {
        self.writer@
    }
}

impl Sender {
    /// A sender that writes to `writer`.
    pub fn new(writer: Outbound) -> (sender: Sender)
        ensures
            sender@ == writer@,
    {
        Sender { writer }
    }

    /// Queues the frame of `message` for the transport, as one piece. Fails
    /// where the writing direction was shut down.
    pub fn send(&mut self, message: Message) -> (res: Result<(), WebSocketError>)
        ensures
            final(self)@ == old(self)@.written(encoding(FrameView::of_message(message@))),
            res == old(self)@.write_result(),
    {
        let fr = Frame::from(message);
        let b = fr.to_bytes();
        self.writer.write_all(b.as_slice())
    }

    /// Hands the queued bytes to the transport and leaves the queue empty.
    pub fn take_pending(&mut self) -> (bytes: Vec<u8>)
        ensures
            bytes@ == old(self)@.pending,
            final(self)@ == (OutboundView { pending: Seq::empty(), ..old(self)@ }),
    {
        self.writer.take_pending()
    }
}

/// The mathematical value of a [`SpecialFrameHandler`].
#[verifier::ext_equal]
pub struct HandlerView {
    pub writer: OutboundView,
    pub state: ConnectionState,
}

/// What the handler does with a frame, and whether it kept the frame from the
/// application.
///
/// A close is answered, while the connection is open, by the same frame, and
/// shuts the writing direction unless the connection was closed already; the
/// connection is closed after it. A ping is answered by a pong with the
/// ping's payload. Both are kept from the application. Where an answer cannot
/// be written nothing changes. Every other frame passes.
pub open spec fn handled(h: HandlerView, frame: FrameView) -> (
    HandlerView,
    Result<bool, WebSocketError>,
) {
    match frame.opcode {
        OpCode::ConnectionClose => {
            if h.state == ConnectionState::Open && h.writer.shut_down {
                (h, Err(WebSocketError::UnknownError))
            } else {
                let answered = if h.state == ConnectionState::Open {
                    h.writer.written(encoding(frame))
                } else {
                    h.writer
                };
                let writer = if h.state == ConnectionState::Closed {
                    answered
                } else {
                    OutboundView { shut_down: true, ..answered }
                };
                (HandlerView { writer, state: ConnectionState::Closed }, Ok(true))
            }
        },
        OpCode::Ping => {
            if h.writer.shut_down {
                (h, Err(WebSocketError::UnknownError))
            } else {
                (
                    HandlerView {
                        writer: h.writer.written(encoding(FrameView::pong(frame.application_data))),
                        ..h
                    },
                    Ok(true),
                )
            }
        },
        _ => (h, Ok(false)),
    }
}

/// Answers the control frames on behalf of the application.
pub struct SpecialFrameHandler {
    writer: Outbound,
    state: ConnectionState,
}

impl View for SpecialFrameHandler {
    type V = HandlerView;

    closed spec fn view(&self) -> HandlerView {
        HandlerView { writer: self.writer@, state: self.state }
    }
}

impl SpecialFrameHandler {
    /// A handler for an open connection that writes to `writer`.
    pub fn new(writer: Outbound) -> (handler: SpecialFrameHandler)
        ensures
            handler@ == (HandlerView { writer: writer@, state: ConnectionState::Open }),
    {
        SpecialFrameHandler { writer, state: ConnectionState::Open }
    }

    /// The writer and the state that the handler leaves behind.
    pub fn into_parts(self) -> (parts: (Outbound, ConnectionState))
        ensures
            parts.0@ == self@.writer,
            parts.1 == self@.state,
    {
        (self.writer, self.state)
    }

    /// Does with `frame` what `handled` says, and tells whether the frame
    /// was kept from the application.
    pub fn handle(&mut self, frame: &Frame) -> (res: Result<bool, WebSocketError>)
        requires
            frame@.well_formed(),
        ensures
            final(self)@ == handled(old(self)@, frame@).0,
            res == handled(old(self)@, frame@).1,
            old(self)@.state.leads_to(final(self)@.state),
    {
        match frame.opcode {
            OpCode::ConnectionClose => {
                let state = self.state;
                // confirm received message
                if state == ConnectionState::Open {
                    match self.writer.write_all(frame.to_bytes().as_slice()) {
                        Ok(()) => {},
                        Err(e) => {
                            return Err(e);
                        },
                    }
                }
                // make message final
                if state == ConnectionState::Open || state == ConnectionState::CloseSent {
                    self.writer.shutdown();
                }
                self.state = ConnectionState::Closed;
                Ok(true)
            },
            OpCode::Ping => {
                let pong = Frame::pong(frame.application_data.as_slice());
                match self.writer.write_all(pong.to_bytes().as_slice()) {
                    Ok(()) => Ok(true),
                    Err(e) => Err(e),
                }
            },
            _ => Ok(false),
        }
    }
}

/// What a frame that arrived does to the fragments held back: a final frame
/// with nothing held back passes as it is; a final frame after fragments
/// completes them to one frame, and nothing is held back any more; a frame
/// that is not final is held back.
pub open spec fn reassembled(fragments: Seq<FrameView>, frame: FrameView) -> (
    Seq<FrameView>,
    Option<FrameView>,
) {
    if frame.fin {
        if fragments.len() == 0 {
            (fragments, Some(frame))
        } else {
            (Seq::empty(), Some(assembled(fragments.push(frame))))
        }
    } else {
        (fragments.push(frame), None)
    }
}

/// The mathematical value of a [`FrameIter`].
#[verifier::ext_equal]
pub struct IterView {
    pub reader: InboundView,
    pub handler: HandlerView,
    pub fragments: Seq<FrameView>,
}

/// What reading one frame came to.
pub enum ReadStep {
    /// A frame for the application.
    Frame(Frame),
    /// The frame that was read was answered by the handler or is held back
    /// as a fragment.
    Taken,
    /// No whole frame waits. The error is `WouldBlock` while one may still
    /// arrive, and `Eof` once the stream has ended.
    Short(FrameError),
    /// The answer to a control frame could not be written.
    Failed(WebSocketError),
}

/// The mathematical value of a [`ReadStep`].
pub enum ReadStepView {
    Frame(FrameView),
    Taken,
    Short(FrameError),
    Failed(WebSocketError),
}

impl View for ReadStep {
    type V = ReadStepView;

    open spec fn view(&self) -> ReadStepView {
        match self {
            ReadStep::Frame(frame) => ReadStepView::Frame(frame@),
            ReadStep::Taken => ReadStepView::Taken,
            ReadStep::Short(e) => ReadStepView::Short(*e),
            ReadStep::Failed(e) => ReadStepView::Failed(*e),
        }
    }
}

/// What reading one frame does, and what it comes to. Nothing changes while
/// no whole frame waits. Else the frame's bytes are taken and the frame goes
/// to the handler first: a frame that the handler answers is taken, and an
/// answer that cannot be written is a failure. Only a frame that the handler
/// passes reaches the fragments, where it is yielded or held back as
/// `reassembled` says.
pub open spec fn read_one(it: IterView) -> (IterView, ReadStepView) {
    match decoding(it.reader.unread) {
        None => (it, ReadStepView::Short(Frame::shortfall(it.reader.closed))),
        Some((frame, taken)) => {
            let reader = it.reader.advanced(taken);
            let (handler, kept) = handled(it.handler, frame);
            match kept {
                Err(e) => (IterView { reader, ..it }, ReadStepView::Failed(e)),
                Ok(true) => (IterView { reader, handler, ..it }, ReadStepView::Taken),
                Ok(false) => {
                    let (fragments, whole) = reassembled(it.fragments, frame);
                    (
                        IterView { reader, fragments, ..it },
                        match whole {
                            Some(f) => ReadStepView::Frame(f),
                            None => ReadStepView::Taken,
                        },
                    )
                },
            }
        },
    }
}

/// A frame takes at least its two header bytes.
pub proof fn lemma_decoding_takes_bytes(bytes: Seq<u8>)
    ensures
        decoding(bytes) matches Some((frame, taken)) ==> 2 <= taken <= bytes.len()
            && frame.well_formed(),
{
}

/// Reading one frame never gives bytes back, takes some unless no whole
/// frame waits, and leaves the end of the stream as it is.
pub proof fn lemma_read_one_takes_bytes(it: IterView)
    ensures
        read_one(it).0.reader.unread.len() <= it.reader.unread.len(),
        !(read_one(it).1 is Short) ==> read_one(it).0.reader.unread.len()
            < it.reader.unread.len(),
        read_one(it).1 is Short ==> read_one(it).0 == it,
        read_one(it).0.reader.closed == it.reader.closed,
{
    lemma_decoding_takes_bytes(it.reader.unread);
}

/// The next frame for the application, and what getting it does: frames are
/// read one by one, as `read_one` says, until one is yielded, an answer
/// cannot be written, or no whole frame waits.
pub open spec fn next_of(it: IterView) -> (IterView, Option<Result<FrameView, WebSocketError>>)
    decreases it.reader.unread.len(),
{
    let (after, step) = read_one(it);
    match step {
        ReadStepView::Frame(frame) => (after, Some(Ok(frame))),
        ReadStepView::Failed(e) => (after, Some(Err(e))),
        ReadStepView::Short(_) => (after, None),
        ReadStepView::Taken => {
            proof {
                lemma_read_one_takes_bytes(it);
            }
            next_of(after)
        },
    }
}

/// Getting the next frame never gives bytes back, and takes some where it
/// yields something.
pub proof fn lemma_next_of_takes_bytes(it: IterView)
    ensures
        next_of(it).0.reader.unread.len() <= it.reader.unread.len(),
        next_of(it).1 is Some ==> next_of(it).0.reader.unread.len() < it.reader.unread.len(),
        next_of(it).0.reader.closed == it.reader.closed,
    decreases it.reader.unread.len(),
{
    lemma_read_one_takes_bytes(it);
    if read_one(it).1 is Taken {
        lemma_next_of_takes_bytes(read_one(it).0);
    }
}

/// All the frames for the application that wait, and what getting them
/// does: the frames that `next_of` yields, one after the other, until it
/// yields nothing. An answer that cannot be written yields no frame.
pub open spec fn frames_of(it: IterView) -> (IterView, Seq<FrameView>)
    decreases it.reader.unread.len(),
{
    let (after, item) = next_of(it);
    match item {
        None => (after, Seq::empty()),
        Some(outcome) => {
            proof {
                lemma_next_of_takes_bytes(it);
            }
            let (end, rest) = frames_of(after);
            (
                end,
                match outcome {
                    Ok(frame) => seq![frame] + rest,
                    Err(_) => rest,
                },
            )
        },
    }
}

/// The messages that frames carry, in order. A frame that carries none is left out.
pub open spec fn messages_of(frames: Seq<FrameView>) -> Seq<MessageView>
    decreases frames.len(),
{
    if frames.len() == 0 {
        Seq::empty()
    } else {
        let before = messages_of(frames.drop_last());
        match frames.last().to_message() {
            Ok(m) => before.push(m),
            Err(_) => before,
        }
    }
}

/// The messages of a single frame: the one it carries, if it carries one.
pub proof fn lemma_messages_of_one(frame: FrameView)
    ensures
        messages_of(seq![frame]) == (match frame.to_message() {
            Ok(m) => seq![m],
            Err(_) => Seq::empty(),
        }),
{
    reveal_with_fuel(messages_of, 2);
    assert(seq![frame].drop_last() == Seq::<FrameView>::empty());
    assert(seq![frame].last() == frame);
    match frame.to_message() {
        Ok(m) => {
            assert(Seq::<MessageView>::empty().push(m) == seq![m]);
        },
        Err(_) => {},
    }
}

/// The messages of two runs of frames, one after the other, are the messages
/// of the first run followed by those of the second.
pub proof fn lemma_messages_of_concat(a: Seq<FrameView>, b: Seq<FrameView>)
    ensures
        messages_of(a + b) == messages_of(a) + messages_of(b),
    decreases b.len(),
{
    if b.len() == 0 {
        assert(a + b == a);
        assert(messages_of(a) + messages_of(b) == messages_of(a));
    } else {
        lemma_messages_of_concat(a, b.drop_last());
        assert((a + b).drop_last() == a + b.drop_last());
        assert((a + b).last() == b.last());
        match b.last().to_message() {
            Ok(m) => {
                assert((messages_of(a) + messages_of(b.drop_last())).push(m) == messages_of(a)
                    + messages_of(b.drop_last()).push(m));
            },
            Err(_) => {},
        }
    }
}

/// The values of a run of messages.
pub open spec fn message_views(messages: Seq<Message>) -> Seq<MessageView> {
    messages.map_values(|m: Message| m@)
}

impl IterView {
    /// The connection after sending `m`, and what the send returns: only an
    /// open connection sends; it writes the message's frame.
    pub open spec fn sent(self, m: MessageView) -> (IterView, Result<(), WebSocketError>) {
        if self.handler.state != ConnectionState::Open {
            (self, Err(WebSocketError::InvalidConnectionState))
        } else {
            (
                IterView {
                    handler: HandlerView {
                        writer: self.handler.writer.written(encoding(FrameView::of_message(m))),
                        ..self.handler
                    },
                    ..self
                },
                self.handler.writer.write_result(),
            )
        }
    }

    /// The connection after a close, and what the close returns: only an
    /// open connection closes; it has then sent a close, and writes the
    /// frame that says so.
    pub open spec fn closed(self) -> (IterView, Result<(), WebSocketError>) {
        if self.handler.state != ConnectionState::Open {
            (self, Err(WebSocketError::InvalidConnectionState))
        } else {
            (
                IterView {
                    handler: HandlerView {
                        writer: self.handler.writer.written(
                            encoding(FrameView::connection_close()),
                        ),
                        state: ConnectionState::CloseSent,
                    },
                    ..self
                },
                self.handler.writer.write_result(),
            )
        }
    }

    /// A connection that was just set up on a reader and a writer.
    pub open spec fn fresh(reader: InboundView, writer: OutboundView) -> IterView {
        IterView {
            reader,
            handler: HandlerView { writer, state: ConnectionState::Open },
            fragments: Seq::empty(),
        }
    }
}

/// The fragments of a message that is not complete yet, in the order in
/// which they arrived.
pub struct Fragments {
    frames: Vec<Frame>,
}

impl View for Fragments {
    type V = Seq<FrameView>;

    closed spec fn view(&self) -> Seq<FrameView> {
        views(self.frames@)
    }
}

impl Fragments {
    #[verifier::type_invariant]
    spec fn came_from_the_wire(self) -> bool {
        forall|i: int|
            0 <= i < self.frames@.len() ==> (#[trigger] self.frames@[i])@.opcode.is_defined()
    }

    /// No fragment.
    pub fn new() -> (fragments: Fragments)
        ensures
            fragments@ == Seq::<FrameView>::empty(),
    {
        let fragments = Fragments { frames: Vec::new() };
        assert(fragments@ =~= Seq::<FrameView>::empty());
        fragments
    }

    /// Whether there is no fragment.
    pub fn is_empty(&self) -> (empty: bool)
        ensures
            empty == (self@.len() == 0),
    {
        self.frames.len() == 0
    }

    /// The fragments with one more at the end.
    pub fn with(self, frame: Frame) -> (fragments: Fragments)
        requires
            frame@.opcode.is_defined(),
        ensures
            fragments@ == self@.push(frame@),
    {
        proof {
            use_type_invariant(&self);
        }
        let ghost before = self@;
        let ghost last = frame@;
        let mut frames = self.frames;
        frames.push(frame);
        let fragments = Fragments { frames };
        assert(fragments@ =~= before.push(last));
        fragments
    }

    /// The single frame that stands for the message that the fragments make up.
    pub fn assemble(&self) -> (frame: Frame)
        requires
            self@.len() > 0,
        ensures
            frame@ == assembled(self@),
            frame@.well_formed(),
    {
        proof {
            use_type_invariant(self);
        }
        Frame::from_fragmented(self.frames.as_slice())
    }

    /// The fragments as frames.
    pub fn into_frames(self) -> (frames: Vec<Frame>)
        ensures
            views(frames@) == self@,
    {
        self.frames
    }
}

/// Pulls frames from a reader, answers the control frames among them and
/// puts fragmented messages together.
pub struct FrameIter {
    reader: Inbound,
    special_frame_handler: SpecialFrameHandler,
    fragmented_seq: Fragments,
}

impl View for FrameIter {
    type V = IterView;

    closed spec fn view(&self) -> IterView {
        IterView {
            reader: self.reader@,
            handler: self.special_frame_handler@,
            fragments: self.fragmented_seq@,
        }
    }
}

impl FrameIter {
    /// An iterator over the frames of `r`, with no fragment held back.
    pub fn new(r: Inbound, special_frame_handler: SpecialFrameHandler) -> (it: FrameIter)
        ensures
            it@ == (IterView {
                reader: r@,
                handler: special_frame_handler@,
                fragments: Seq::empty(),
            }),
    {
        FrameIter { reader: r, special_frame_handler, fragmented_seq: Fragments::new() }
    }

    /// The reader, the handler and the fragments held back.
    pub fn into_parts(self) -> (parts: (Inbound, SpecialFrameHandler, Vec<Frame>))
        ensures
            parts.0@ == self@.reader,
            parts.1@ == self@.handler,
            views(parts.2@) == self@.fragments,
    {
        (self.reader, self.special_frame_handler, self.fragmented_seq.into_frames())
    }

    /// Reads one frame, as `read_one` says: the handler sees the frame
    /// first, and only a frame that it passes reaches the fragments.
    pub fn try_read_one(&mut self) -> (step: ReadStep)
        ensures
            final(self)@ == read_one(old(self)@).0,
            step@ == read_one(old(self)@).1,
            step matches ReadStep::Frame(frame) ==> frame@.well_formed(),
            old(self)@.handler.state.leads_to(final(self)@.handler.state),
    {
        let ghost before = self@;
        let frame = match Frame::read(&mut self.reader) {
            Ok(frame) => frame,
            Err(e) => {
                assert(self@ =~= before);
                return ReadStep::Short(e);
            },
        };
        match self.special_frame_handler.handle(&frame) {
            Ok(true) => {
                assert(self@ =~= read_one(before).0);
                return ReadStep::Taken;
            },
            Ok(false) => {},
            Err(e) => {
                assert(self@ =~= read_one(before).0);
                return ReadStep::Failed(e);
            },
        }
        let mut held = Fragments::new();
        core::mem::swap(&mut self.fragmented_seq, &mut held);
        if frame.fin {
            // final message
            if held.is_empty() {
                assert(self@ =~= read_one(before).0);
                return ReadStep::Frame(frame);
            }
            let big_frame = held.with(frame).assemble();
            assert(self@ =~= read_one(before).0);
            ReadStep::Frame(big_frame)
        } else {
            self.fragmented_seq = held.with(frame);
            assert(self@ =~= read_one(before).0);
            ReadStep::Taken
        }
    }

    /// The next frame for the application, as `next_of` says: `None` while
    /// no whole frame waits, an error where an answer to a control frame
    /// could not be written.
    pub fn next(&mut self) -> (res: Option<Result<Frame, WebSocketError>>)
        ensures
            final(self)@ == next_of(old(self)@).0,
            match next_of(old(self)@).1 {
                Some(Ok(frame)) => res matches Some(Ok(f)) && f@ == frame && frame.well_formed(),
                Some(Err(e)) => res matches Some(Err(err)) && err == e,
                None => res is None,
            },
            old(self)@.handler.state.leads_to(final(self)@.handler.state),
    {
        loop
            invariant
                next_of(old(self)@) == next_of(self@),
                old(self)@.handler.state.leads_to(self@.handler.state),
            decreases self@.reader.unread.len(),
        {
            proof {
                lemma_read_one_takes_bytes(self@);
            }
            match self.try_read_one() {
                ReadStep::Frame(frame) => {
                    return Some(Ok(frame));
                },
                ReadStep::Failed(e) => {
                    return Some(Err(e));
                },
                ReadStep::Short(_) => {
                    return None;
                },
                ReadStep::Taken => {},
            }
        }
    }

    /// All the frames for the application that wait, as `frames_of` says.
    pub fn ok(&mut self) -> (frames: Vec<Frame>)
        ensures
            final(self)@ == frames_of(old(self)@).0,
            views(frames@) == frames_of(old(self)@).1,
            old(self)@.handler.state.leads_to(final(self)@.handler.state),
    {
        let mut frames: Vec<Frame> = Vec::new();
        assert(views(frames@) =~= Seq::<FrameView>::empty());
        loop
            invariant
                frames_of(old(self)@).0 == frames_of(self@).0,
                frames_of(old(self)@).1 == views(frames@) + frames_of(self@).1,
                old(self)@.handler.state.leads_to(self@.handler.state),
            decreases self@.reader.unread.len(),
        {
            let ghost before = self@;
            let ghost found = views(frames@);
            proof {
                lemma_next_of_takes_bytes(before);
            }
            match self.next() {
                None => {
                    assert(found + Seq::<FrameView>::empty() == found);
                    return frames;
                },
                Some(Ok(frame)) => {
                    let ghost last = frame@;
                    frames.push(frame);
                    assert(views(frames@) =~= found.push(last));
                    assert(found + (seq![last] + frames_of(self@).1) == found.push(last)
                        + frames_of(self@).1);
                },
                Some(Err(_)) => {},
            }
        }
    }

    /// The messages that the waiting frames carry, in order.
    pub fn messages(&mut self) -> (messages: Vec<Message>)
        ensures
            final(self)@ == frames_of(old(self)@).0,
            message_views(messages@) == messages_of(frames_of(old(self)@).1),
            old(self)@.handler.state.leads_to(final(self)@.handler.state),
    {
        let mut messages: Vec<Message> = Vec::new();
        assert(message_views(messages@) =~= Seq::<MessageView>::empty());
        loop
            invariant
                frames_of(old(self)@).0 == frames_of(self@).0,
                messages_of(frames_of(old(self)@).1) == message_views(messages@) + messages_of(
                    frames_of(self@).1,
                ),
                old(self)@.handler.state.leads_to(self@.handler.state),
            decreases self@.reader.unread.len(),
        {
            let ghost before = self@;
            let ghost found = message_views(messages@);
            proof {
                lemma_next_of_takes_bytes(before);
            }
            match self.next() {
                None => {
                    assert(found + Seq::<MessageView>::empty() == found);
                    return messages;
                },
                Some(Ok(frame)) => {
                    let ghost first = frame@;
                    let ghost rest = frames_of(self@).1;
                    proof {
                        lemma_messages_of_concat(seq![first], rest);
                        lemma_messages_of_one(first);
                    }
                    match Message::try_from(frame) {
                        Ok(message) => {
                            let ghost m = message@;
                            messages.push(message);
                            assert(message_views(messages@) =~= found.push(m));
                            assert(found + (seq![m] + messages_of(rest)) == found.push(m)
                                + messages_of(rest));
                        },
                        Err(_) => {
                            assert(Seq::<MessageView>::empty() + messages_of(rest) == messages_of(
                                rest,
                            ));
                        },
                    }
                },
                Some(Err(_)) => {},
            }
        }
    }
}

/// One connection after the handshake.
pub struct WebSocketConnection {
    frames: FrameIter,
}

impl View for WebSocketConnection {
    type V = IterView;

    closed spec fn view(&self) -> IterView {
        self.frames@
    }
}

impl WebSocketConnection {
    /// An open connection on a reader and a writer.
    pub fn new(reader: Inbound, writer: Outbound) -> (connection: WebSocketConnection)
        ensures
            connection@ == IterView::fresh(reader@, writer@),
    {
        WebSocketConnection { frames: FrameIter::new(reader, SpecialFrameHandler::new(writer)) }
    }

    /// The state the connection is in.
    pub fn get_state(&self) -> (state: ConnectionState)
        ensures
            state == self@.handler.state,
    {
        self.frames.special_frame_handler.state
    }

    /// The messages that arrived as a whole, in order. Control frames among
    /// what arrived are answered on the way.
    pub fn iter_messages(&mut self) -> (messages: Vec<Message>)
        ensures
            final(self)@ == frames_of(old(self)@).0,
            message_views(messages@) == messages_of(frames_of(old(self)@).1),
            old(self)@.handler.state.leads_to(final(self)@.handler.state),
    {
        self.frames.messages()
    }

    /// Begins the closing handshake, as `closed` says.
    pub fn close(&mut self) -> (res: Result<(), WebSocketError>)
        ensures
            final(self)@ == old(self)@.closed().0,
            res == old(self)@.closed().1,
            old(self)@.handler.state.leads_to(final(self)@.handler.state),
    {
        if self.frames.special_frame_handler.state != ConnectionState::Open {
            return Err(WebSocketError::InvalidConnectionState);
        }
        self.frames.special_frame_handler.state = ConnectionState::CloseSent;
        let f = Frame::connection_close();
        self.frames.special_frame_handler.writer.write_all(f.to_bytes().as_slice())
    }

    /// Sends a message, as `sent` says.
    pub fn send(&mut self, message: Message) -> (res: Result<(), WebSocketError>)
        ensures
            final(self)@ == old(self)@.sent(message@).0,
            res == old(self)@.sent(message@).1,
            final(self)@.handler.state == old(self)@.handler.state,
    {
        if self.frames.special_frame_handler.state != ConnectionState::Open {
            return Err(WebSocketError::InvalidConnectionState);
        }
        let b = Frame::from(message).to_bytes();
        self.frames.special_frame_handler.writer.write_all(b.as_slice())
    }

    /// A send-only handle to the connection's transport. It starts with
    /// nothing queued and with the writing direction as it is at the time of
    /// this call: a shutdown that comes later does not reach the handle, and
    /// a send through it then fails only when the socket itself refuses the
    /// bytes, which whoever moves them to the socket finds out.
    pub fn sender(&self) -> (sender: Sender)
        ensures
            sender@.pending == Seq::<u8>::empty(),
            sender@.shut_down == self@.handler.writer.shut_down,
    {
        Sender { writer: self.frames.special_frame_handler.writer.handle() }
    }

    /// Takes in bytes that the transport delivered.
    pub fn receive(&mut self, bytes: &[u8])
        ensures
            final(self)@ == (IterView {
                reader: InboundView {
                    unread: old(self)@.reader.unread + bytes@,
                    ..old(self)@.reader
                },
                ..old(self)@
            }),
    {
        self.frames.reader.feed(bytes);
    }

    /// Takes in what one read on the transport gave.
    pub fn take_in(&mut self, outcome: ReadOutcome)
        ensures
            final(self)@ == (IterView {
                reader: old(self)@.reader.after_read(outcome),
                ..old(self)@
            }),
    {
        self.frames.reader.take_in(outcome);
    }

    /// Takes note that the transport reported end of stream.
    pub fn end_of_input(&mut self)
        ensures
            final(self)@ == (IterView {
                reader: InboundView { closed: true, ..old(self)@.reader },
                ..old(self)@
            }),
    {
        self.frames.reader.close();
    }

    /// Whether the transport reported end of stream.
    pub fn input_ended(&self) -> (ended: bool)
        ensures
            ended == self@.reader.closed,
    {
        self.frames.reader.is_closed()
    }

    /// Hands the bytes to be sent to the transport.
    pub fn take_output(&mut self) -> (bytes: Vec<u8>)
        ensures
            bytes@ == old(self)@.handler.writer.pending,
            final(self)@ == (IterView {
                handler: HandlerView {
                    writer: OutboundView { pending: Seq::empty(), ..old(self)@.handler.writer },
                    ..old(self)@.handler
                },
                ..old(self)@
            }),
    {
        self.frames.special_frame_handler.writer.take_pending()
    }

    /// Whether the writing direction is to be shut down once the output is out.
    pub fn output_ended(&self) -> (ended: bool)
        ensures
            ended == self@.handler.writer.shut_down,
    {
        self.frames.special_frame_handler.writer.is_shut_down()
    }
}

} // verus!
