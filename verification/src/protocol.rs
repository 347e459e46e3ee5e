//! What holds of every connection: fragments that arrive one after the other
//! come out as the message they were cut from, control frames are answered
//! without the application seeing them, the state never goes back, and the
//! two endpoints of the library understand each other's handshake.

use vstd::prelude::*;
use crate::connection::{
    frames_of, handled, lemma_messages_of_concat, lemma_messages_of_one, lemma_next_of_takes_bytes,
    lemma_read_one_takes_bytes, messages_of, next_of, read_one, reassembled, ConnectionState,
    HandlerView, IterView,
};
use crate::error::WebSocketError;
use crate::client::connected;
use crate::frame::{FrameView, OpCode};
use crate::http::{
    is_plain_name, lemma_header_read_of_wire, pairs_wire, read_chunk, value_from, HeaderView, READ_SIZE,
};
use crate::server::{greeted, AcceptedView};
use crate::text::ascii;
use crate::message::MessageView;
use crate::transport::{InboundView, OutboundView};
use crate::wire::{assembled, encoding, joined_payloads, lemma_decoding_of_encoding};

verus! {

/// A frame that can go on the wire: well formed, with a payload whose length
/// fits in the 64 bits that the wire gives it.
pub open spec fn sendable(f: FrameView) -> bool {
    f.well_formed() && f.application_data.len() < 0x1_0000_0000_0000_0000
}

/// A frame as it arrives: the wire carries no extension data.
pub open spec fn received(f: FrameView) -> FrameView {
    FrameView { extension_data: Seq::empty(), ..f }
}

/// Frames as they arrive.
pub open spec fn received_all(frames: Seq<FrameView>) -> Seq<FrameView> {
    frames.map_values(|f: FrameView| received(f))
}

/// The bytes of frames that are sent one after the other.
pub open spec fn stream(frames: Seq<FrameView>) -> Seq<u8>
    decreases frames.len(),
{
    if frames.len() == 0 {
        Seq::empty()
    } else {
        encoding(frames.first()) + stream(frames.drop_first())
    }
}

/// A message cut into fragments: every frame can go on the wire, and the
/// last one, and no other, is final.
pub open spec fn is_fragmented_message(frames: Seq<FrameView>) -> bool {
    &&& frames.len() >= 1
    &&& forall|i: int| 0 <= i < frames.len() ==> sendable(#[trigger] frames[i])
    &&& forall|i: int| 0 <= i < frames.len() - 1 ==> !(#[trigger] frames[i]).fin
    &&& frames.last().fin
}

/// Whether the handler keeps a frame from the application.
pub open spec fn is_answered(f: FrameView) -> bool {
    f.opcode == OpCode::ConnectionClose || f.opcode == OpCode::Ping
}

/// The payloads joined do not depend on anything but the payloads.
proof fn lemma_joined_payloads_received(frames: Seq<FrameView>)
    ensures
        joined_payloads(received_all(frames)) == joined_payloads(frames),
    decreases frames.len(),
{
    if frames.len() > 0 {
        lemma_joined_payloads_received(frames.drop_last());
        assert(received_all(frames).drop_last() == received_all(frames.drop_last()));
    }
}

/// The payloads of two runs of frames joined are the payloads of each run
/// joined, one after the other.
proof fn lemma_joined_payloads_concat(a: Seq<FrameView>, b: Seq<FrameView>)
    ensures
        joined_payloads(a + b) == joined_payloads(a) + joined_payloads(b),
    decreases b.len(),
{
    if b.len() == 0 {
        assert(a + b == a);
    } else {
        lemma_joined_payloads_concat(a, b.drop_last());
        assert((a + b).drop_last() == a + b.drop_last());
    }
}

/// Reading the fragments of a message, whatever was held back before: the
/// bytes of the fragments are taken, nothing is held back after, and the
/// frame that comes out is all that was held back and all that arrived, put
/// together.
proof fn lemma_read_fragments(it: IterView, fragments: Seq<FrameView>, rest: Seq<u8>)
    requires
        is_fragmented_message(fragments),
        forall|i: int| 0 <= i < fragments.len() ==> !is_answered(#[trigger] fragments[i]),
        it.reader.unread == stream(fragments) + rest,
    ensures
        next_of(it) == (
            IterView {
                reader: InboundView { unread: rest, ..it.reader },
                fragments: Seq::empty(),
                ..it
            },
            Some(
                Ok::<FrameView, WebSocketError>(
                    if it.fragments.len() == 0 && fragments.len() == 1 {
                        received(fragments[0])
                    } else {
                        assembled(it.fragments + received_all(fragments))
                    },
                ),
            ),
        ),
    decreases fragments.len(),
{
    let first = fragments[0];
    let later = fragments.drop_first();
    let tail = stream(later) + rest;
    let seen = received(first);
    assert(it.reader.unread == encoding(first) + tail);
    lemma_decoding_of_encoding(first, tail);
    assert(!is_answered(first));
    assert(handled(it.handler, seen) == (it.handler, Ok::<bool, WebSocketError>(false)));
    let (read, step) = read_one(it);
    assert(read.reader.unread == tail);
    assert(read.handler == it.handler);
    if fragments.len() == 1 {
        assert(stream(later) == Seq::<u8>::empty());
        assert(tail == rest);
        assert(received_all(fragments) == seq![seen]);
        assert(it.fragments + received_all(fragments) == it.fragments.push(seen));
        assert(read == (IterView {
            reader: InboundView { unread: rest, ..it.reader },
            fragments: Seq::<FrameView>::empty(),
            ..it
        }));
    } else {
        assert(!first.fin);
        assert(step is Taken);
        assert(is_fragmented_message(later)) by {
            assert forall|i: int| 0 <= i < later.len() implies sendable(#[trigger] later[i]) by {
                assert(later[i] == fragments[i + 1]);
            }
            assert forall|i: int| 0 <= i < later.len() - 1 implies !(#[trigger] later[i]).fin by {
                assert(later[i] == fragments[i + 1]);
            }
            assert(later.last() == fragments.last());
        }
        assert forall|i: int| 0 <= i < later.len() implies !is_answered(#[trigger] later[i]) by {
            assert(later[i] == fragments[i + 1]);
        }
        assert(read.fragments == it.fragments.push(seen));
        lemma_read_fragments(read, later, rest);
        assert(read.fragments + received_all(later) == it.fragments + received_all(fragments));
    }
}

/// Fragments reassemble: where nothing is held back and the fragments of a
/// message for the application arrive one after the other, the next frame
/// has the opcode of the first fragment and the payloads of all, in order.
/// Exactly the bytes of the fragments are taken, and nothing else changes.
pub proof fn lemma_fragments_reassemble(it: IterView, fragments: Seq<FrameView>, rest: Seq<u8>)
    requires
        it.fragments.len() == 0,
        is_fragmented_message(fragments),
        forall|i: int| 0 <= i < fragments.len() ==> !is_answered(#[trigger] fragments[i]),
        it.reader.unread == stream(fragments) + rest,
    ensures
        next_of(it).1 matches Some(Ok(frame)) && frame.opcode == fragments[0].opcode
            && frame.application_data == joined_payloads(fragments) && frame.fin,
        next_of(it).0 == (IterView { reader: InboundView { unread: rest, ..it.reader }, ..it }),
{
    lemma_read_fragments(it, fragments, rest);
    lemma_joined_payloads_received(fragments);
    assert(it.fragments + received_all(fragments) == received_all(fragments));
    if fragments.len() == 1 {
        reveal_with_fuel(joined_payloads, 2);
        assert(fragments.drop_last() == Seq::<FrameView>::empty());
        assert(Seq::<u8>::empty() + fragments[0].application_data
            == fragments[0].application_data);
    }
    assert(it.fragments == Seq::<FrameView>::empty());
}

/// What the handler writes in answer to a frame: a close is echoed, a ping
/// gets a pong with its payload, and nothing else gets anything.
pub open spec fn answer(f: FrameView) -> Seq<u8> {
    match f.opcode {
        OpCode::ConnectionClose => encoding(f),
        OpCode::Ping => encoding(FrameView::pong(f.application_data)),
        _ => Seq::empty(),
    }
}

/// The answers to a run of frames, in order.
pub open spec fn answers(frames: Seq<FrameView>) -> Seq<u8>
    decreases frames.len(),
{
    if frames.len() == 0 {
        Seq::empty()
    } else {
        answer(frames.first()) + answers(frames.drop_first())
    }
}

/// The frames of a run that reach the application, in order: those that the
/// handler does not answer.
pub open spec fn passed(frames: Seq<FrameView>) -> Seq<FrameView>
    decreases frames.len(),
{
    if frames.len() == 0 {
        Seq::empty()
    } else if is_answered(frames.first()) {
        passed(frames.drop_first())
    } else {
        seq![frames.first()] + passed(frames.drop_first())
    }
}

/// Whether a close is among the frames.
pub open spec fn holds_close(frames: Seq<FrameView>) -> bool
    decreases frames.len(),
{
    frames.len() > 0 && (frames.first().opcode == OpCode::ConnectionClose || holds_close(
        frames.drop_first(),
    ))
}

/// Whether every frame can go on the wire.
pub open spec fn are_sendable(frames: Seq<FrameView>) -> bool {
    forall|i: int| 0 <= i < frames.len() ==> sendable(#[trigger] frames[i])
}

/// Whether every frame is final.
pub open spec fn are_whole_frames(frames: Seq<FrameView>) -> bool {
    forall|i: int| 0 <= i < frames.len() ==> (#[trigger] frames[i]).fin
}

/// Whether nothing that wants an answer follows a close. A close shuts the
/// writing direction, so no answer can be written after it.
pub open spec fn is_quiet_after_close(frames: Seq<FrameView>) -> bool {
    forall|i: int, j: int|
        0 <= i < j < frames.len() && (#[trigger] frames[i]).opcode == OpCode::ConnectionClose
            ==> !is_answered(#[trigger] frames[j])
}

/// What frames that reach the fragments come to, one after the other: the
/// fragments that are held back in the end, and the frames that are yielded
/// on the way, in order.
pub open spec fn delivered(fragments: Seq<FrameView>, frames: Seq<FrameView>) -> (
    Seq<FrameView>,
    Seq<FrameView>,
)
    decreases frames.len(),
{
    if frames.len() == 0 {
        (fragments, Seq::empty())
    } else {
        let (held, whole) = reassembled(fragments, frames.first());
        let (end, rest) = delivered(held, frames.drop_first());
        (
            end,
            match whole {
                Some(frame) => seq![frame] + rest,
                None => rest,
            },
        )
    }
}

/// The connection after frames were read: all bytes are taken, the answers
/// are written, a close among the frames has closed the connection and shut
/// the writing direction, and the fragments are those that the frames which
/// are not answered leave held back.
pub open spec fn after_frames(it: IterView, frames: Seq<FrameView>) -> IterView {
    IterView {
        reader: InboundView { unread: Seq::empty(), ..it.reader },
        handler: HandlerView {
            writer: OutboundView {
                pending: it.handler.writer.pending + answers(frames),
                shut_down: it.handler.writer.shut_down || holds_close(frames),
            },
            state: if holds_close(frames) {
                ConnectionState::Closed
            } else {
                it.handler.state
            },
        },
        fragments: delivered(it.fragments, passed(received_all(frames))).0,
    }
}

/// Frames that want no answer leave no close among them and get no answer.
proof fn lemma_unanswered(frames: Seq<FrameView>)
    requires
        forall|j: int| 0 <= j < frames.len() ==> !is_answered(#[trigger] frames[j]),
    ensures
        !holds_close(frames),
        answers(frames) == Seq::<u8>::empty(),
    decreases frames.len(),
{
    if frames.len() > 0 {
        let later = frames.drop_first();
        assert forall|j: int| 0 <= j < later.len() implies !is_answered(#[trigger] later[j]) by {
            assert(later[j] == frames[j + 1]);
        }
        lemma_unanswered(later);
        assert(!is_answered(frames[0]));
    }
}

/// Reading frames: either the connection is open and can write, or no frame
/// wants an answer.
proof fn lemma_read_frames(it: IterView, frames: Seq<FrameView>)
    requires
        are_sendable(frames),
        it.reader.unread == stream(frames),
        (it.handler.state == ConnectionState::Open && !it.handler.writer.shut_down
            && is_quiet_after_close(frames)) || (forall|j: int|
            0 <= j < frames.len() ==> !is_answered(#[trigger] frames[j])),
    ensures
        frames_of(it).0 == after_frames(it, frames),
        frames_of(it).1 == delivered(it.fragments, passed(received_all(frames))).1,
    decreases frames.len(),
{
    if frames.len() == 0 {
        assert(it.handler.writer.pending + answers(frames) == it.handler.writer.pending);
        assert(it.reader.unread == Seq::<u8>::empty());
        assert(frames_of(it).0 == after_frames(it, frames));
    } else {
        let first = frames[0];
        let later = frames.drop_first();
        let seen = received(first);
        assert(sendable(first));
        lemma_decoding_of_encoding(first, stream(later));
        assert(encoding(seen) == encoding(first));
        let (after, step) = read_one(it);
        assert(after.reader.unread == stream(later));
        assert(received_all(frames).first() == seen);
        assert(received_all(frames).drop_first() == received_all(later));
        assert(are_sendable(later)) by {
            assert forall|i: int| 0 <= i < later.len() implies sendable(#[trigger] later[i]) by {
                assert(later[i] == frames[i + 1]);
            }
        }
        let calm = forall|j: int| 0 <= j < frames.len() ==> !is_answered(#[trigger] frames[j]);
        if calm {
            assert(!is_answered(first));
            assert forall|j: int| 0 <= j < later.len() implies !is_answered(
                #[trigger] later[j],
            ) by {
                assert(later[j] == frames[j + 1]);
            }
        } else {
            assert(is_quiet_after_close(later)) by {
                assert forall|i: int, j: int|
                    0 <= i < j < later.len() && (#[trigger] later[i]).opcode
                        == OpCode::ConnectionClose implies !is_answered(#[trigger] later[j]) by {
                    assert(later[i] == frames[i + 1]);
                    assert(later[j] == frames[j + 1]);
                }
            }
            if first.opcode == OpCode::ConnectionClose {
                assert forall|j: int| 0 <= j < later.len() implies !is_answered(
                    #[trigger] later[j],
                ) by {
                    assert(later[j] == frames[j + 1]);
                    assert(frames[0].opcode == OpCode::ConnectionClose);
                }
                lemma_unanswered(later);
            }
        }
        lemma_read_frames(after, later);
        lemma_read_one_takes_bytes(it);
        assert(it.handler.writer.pending + (answer(first) + answers(later))
            == it.handler.writer.pending + answer(first) + answers(later));
        if is_answered(first) {
            assert(step is Taken);
            assert(after.fragments == it.fragments);
            assert(next_of(it) == next_of(after));
            assert(frames_of(it) == frames_of(after));
            assert(after_frames(after, later) == after_frames(it, frames));
        } else {
            let arriving = passed(received_all(frames));
            assert(arriving == seq![seen] + passed(received_all(later)));
            assert(arriving.first() == seen);
            assert(arriving.drop_first() == passed(received_all(later)));
            assert(answer(first) == Seq::<u8>::empty());
            assert(it.handler.writer.pending + answer(first) == it.handler.writer.pending);
            assert(after.handler == it.handler);
            assert(after.fragments == reassembled(it.fragments, seen).0);
            assert(after_frames(after, later) == after_frames(it, frames));
            match reassembled(it.fragments, seen).1 {
                Some(whole) => {
                    assert(next_of(it) == (after, Some(Ok::<FrameView, WebSocketError>(whole))));
                },
                None => {
                    assert(step is Taken);
                    assert(next_of(it) == next_of(after));
                    assert(frames_of(it) == frames_of(after));
                },
            }
        }
    }
}

/// The frames that are answered carry no message.
pub proof fn lemma_messages_of_passed(frames: Seq<FrameView>)
    ensures
        messages_of(passed(frames)) == messages_of(frames),
    decreases frames.len(),
{
    if frames.len() > 0 {
        let first = frames.first();
        let later = frames.drop_first();
        lemma_messages_of_passed(later);
        assert(frames == seq![first] + later);
        lemma_messages_of_concat(seq![first], later);
        lemma_messages_of_concat(seq![first], passed(later));
        lemma_messages_of_one(first);
        if is_answered(first) {
            assert(Seq::<MessageView>::empty() + messages_of(later) == messages_of(later));
        }
    }
}

/// Whole frames with nothing held back are yielded as they are, and nothing
/// is held back after them.
pub proof fn lemma_delivered_whole_frames(frames: Seq<FrameView>)
    requires
        are_whole_frames(frames),
    ensures
        delivered(Seq::empty(), frames) == (Seq::<FrameView>::empty(), frames),
    decreases frames.len(),
{
    if frames.len() > 0 {
        let later = frames.drop_first();
        assert forall|i: int| 0 <= i < later.len() implies (#[trigger] later[i]).fin by {
            assert(later[i] == frames[i + 1]);
        }
        lemma_delivered_whole_frames(later);
        assert(frames.first().fin);
        assert(seq![frames.first()] + later == frames);
    } else {
        assert(frames == Seq::<FrameView>::empty());
    }
}

/// The fragments of a message, with nothing held back, are yielded as the
/// one frame that stands for the message.
pub proof fn lemma_delivered_message(fragments: Seq<FrameView>, held: Seq<FrameView>)
    requires
        fragments.len() >= 1,
        forall|i: int| 0 <= i < fragments.len() - 1 ==> !(#[trigger] fragments[i]).fin,
        fragments.last().fin,
    ensures
        delivered(held, fragments) == (
            Seq::<FrameView>::empty(),
            seq![
                if held.len() == 0 && fragments.len() == 1 {
                    fragments[0]
                } else {
                    assembled(held + fragments)
                },
            ],
        ),
    decreases fragments.len(),
{
    let first = fragments.first();
    let later = fragments.drop_first();
    if fragments.len() == 1 {
        reveal_with_fuel(delivered, 2);
        assert(later == Seq::<FrameView>::empty());
        assert(held + fragments == held.push(first));
        let whole = reassembled(held, first).1->Some_0;
        assert(seq![whole] + Seq::<FrameView>::empty() == seq![whole]);
        assert(reassembled(held, first).0 == Seq::<FrameView>::empty());
    } else {
        assert(!first.fin);
        assert forall|i: int| 0 <= i < later.len() - 1 implies !(#[trigger] later[i]).fin by {
            assert(later[i] == fragments[i + 1]);
        }
        assert(later.last() == fragments.last());
        lemma_delivered_message(later, held.push(first));
        assert(held.push(first) + later == held + fragments);
    }
}

/// Control frames are transparent: where frames arrive at an open connection
/// that can write, and nothing that wants an answer follows a close, the
/// application gets exactly what it would get if the pings and the closes
/// were not among the frames: what the other frames, in their order, come to
/// in reassembly, wherever between the fragments of a message the pings and
/// closes stand. The peer gets, in order, one pong for each ping, with the
/// ping's payload, and its close back. With a close among the frames the
/// connection ends closed and the writing direction shut; without one, both
/// stay as they were. All bytes are taken.
pub proof fn lemma_control_frames_are_transparent(it: IterView, frames: Seq<FrameView>)
    requires
        it.handler.state == ConnectionState::Open,
        !it.handler.writer.shut_down,
        are_sendable(frames),
        is_quiet_after_close(frames),
        it.reader.unread == stream(frames),
    ensures
        frames_of(it).1 == delivered(it.fragments, passed(received_all(frames))).1,
        frames_of(it).0 == after_frames(it, frames),
{
    lemma_read_frames(it, frames);
}

/// Control frames among whole messages: where, besides, every frame is final
/// and nothing is held back, the application gets exactly the frames that
/// are neither a ping nor a close, in order, and so the messages of all the
/// frames, and nothing is held back after.
pub proof fn lemma_whole_frames_are_delivered(it: IterView, frames: Seq<FrameView>)
    requires
        it.fragments.len() == 0,
        it.handler.state == ConnectionState::Open,
        !it.handler.writer.shut_down,
        are_sendable(frames),
        are_whole_frames(frames),
        is_quiet_after_close(frames),
        it.reader.unread == stream(frames),
    ensures
        frames_of(it).1 == passed(received_all(frames)),
        messages_of(frames_of(it).1) == messages_of(received_all(frames)),
        frames_of(it).0.fragments == Seq::<FrameView>::empty(),
{
    lemma_read_frames(it, frames);
    lemma_messages_of_passed(received_all(frames));
    lemma_passed_are_whole(received_all(frames));
    lemma_delivered_whole_frames(passed(received_all(frames)));
    assert(it.fragments == Seq::<FrameView>::empty());
}

/// Among whole frames, those that are not answered are whole frames.
proof fn lemma_passed_are_whole(frames: Seq<FrameView>)
    requires
        are_whole_frames(frames),
    ensures
        are_whole_frames(passed(frames)),
    decreases frames.len(),
{
    if frames.len() > 0 {
        let later = frames.drop_first();
        assert forall|i: int| 0 <= i < later.len() implies (#[trigger] later[i]).fin by {
            assert(later[i] == frames[i + 1]);
        }
        lemma_passed_are_whole(later);
        assert(frames.first().fin);
    }
}

/// The handler never moves the state back.
pub proof fn lemma_handled_state(h: HandlerView, frame: FrameView)
    ensures
        h.state.leads_to(handled(h, frame).0.state),
{
}

/// Getting the next frame never moves the state back.
pub proof fn lemma_next_of_state(it: IterView)
    ensures
        it.handler.state.leads_to(next_of(it).0.handler.state),
    decreases it.reader.unread.len(),
{
    lemma_read_one_takes_bytes(it);
    if read_one(it).1 is Taken {
        lemma_next_of_state(read_one(it).0);
    }
}

/// Getting all the frames that wait never moves the state back.
pub proof fn lemma_frames_of_state(it: IterView)
    ensures
        it.handler.state.leads_to(frames_of(it).0.handler.state),
    decreases it.reader.unread.len(),
{
    lemma_next_of_state(it);
    lemma_next_of_takes_bytes(it);
    if next_of(it).1 is Some {
        lemma_frames_of_state(next_of(it).0);
    }
}

/// The state is monotonic: it goes from open to close-sent to closed and
/// never back, whatever the connection does: send, close, or get frames.
pub proof fn lemma_state_is_monotonic(it: IterView, m: MessageView)
    ensures
        it.handler.state.leads_to(it.sent(m).0.handler.state),
        it.handler.state.leads_to(it.closed().0.handler.state),
        it.handler.state.leads_to(read_one(it).0.handler.state),
        it.handler.state.leads_to(next_of(it).0.handler.state),
        it.handler.state.leads_to(frames_of(it).0.handler.state),
        it.closed().1 is Ok ==> it.handler.state == ConnectionState::Open && it.closed().0.handler.state
            == ConnectionState::CloseSent,
{
    lemma_next_of_state(it);
    lemma_frames_of_state(it);
}

/// No send after a close: once a close was asked for, in whatever state the
/// connection is later, a send fails with `InvalidConnectionState` and
/// changes nothing.
pub proof fn lemma_send_after_close_fails(it: IterView, later: IterView, m: MessageView)
    requires
        it.closed().0.handler.state.leads_to(later.handler.state),
        it.closed().1 is Ok,
    ensures
        later.sent(m) == (later, Err::<(), WebSocketError>(WebSocketError::InvalidConnectionState)),
{
}

/// The request and the response of the handshake are plain, fit in one
/// read, and say what they are meant to say: the request asks for the
/// upgrade and holds no key, and the response grants the upgrade.
pub proof fn lemma_handshake_headers()
    ensures
        HeaderView::websocket_request().is_plain(),
        HeaderView::websocket_request().wire().len() <= READ_SIZE,
        HeaderView::websocket_request().is_valid_websocket_request(),
        HeaderView::websocket_request().response() == HeaderView::websocket_response(),
        HeaderView::websocket_response().is_plain(),
        HeaderView::websocket_response().wire().len() <= READ_SIZE,
        HeaderView::websocket_response().is_valid_websocket_response(),
{
    reveal_strlit("GET / HTTP/1.1");
    reveal_strlit("HTTP/1.1 101 Switching Protocols");
    reveal_strlit("GET");
    reveal_strlit("Connection");
    reveal_strlit("Upgrade");
    reveal_strlit("websocket");
    reveal_strlit("Sec-WebSocket-Key");
    reveal_with_fuel(value_from, 3);
    reveal_with_fuel(pairs_wire, 3);
    let request = HeaderView::websocket_request();
    let response = HeaderView::websocket_response();
    let connection = ascii("Connection"@);
    let upgrade = ascii("Upgrade"@);
    let websocket = ascii("websocket"@);
    let key = ascii("Sec-WebSocket-Key"@);
    assert(connection.len() == 10 && upgrade.len() == 7 && websocket.len() == 9 && key.len()
        == 17);
    assert(is_plain_name(connection));
    assert(is_plain_name(upgrade));
    assert(is_plain_name(websocket));
    assert(request.pairs.drop_last() == seq![(connection, upgrade)]);
    assert(request.pairs.drop_last().drop_last() == Seq::<(Seq<u8>, Seq<u8>)>::empty());
    assert(response.pairs.drop_last() == seq![(upgrade, websocket)]);
    assert(response.pairs.drop_last().drop_last() == Seq::<(Seq<u8>, Seq<u8>)>::empty());
    assert(ascii("GET / HTTP/1.1"@).subrange(0, 3) == ascii("GET"@));
}

/// The library's two endpoints understand each other: the server finds the
/// client's request valid and answers it with the response that the client
/// takes for a grant, and both connections are open, with nothing read
/// beyond the headers.
pub proof fn lemma_endpoints_shake_hands(
    server_writer: OutboundView,
    client_reader_closed: bool,
    server_reader_closed: bool,
    client_writer: OutboundView,
)
    requires
        !server_writer.shut_down,
    ensures
        ({
            let request = HeaderView::websocket_request().wire();
            let arrived = AcceptedView::Stream(
                InboundView { unread: request, closed: server_reader_closed },
                server_writer,
            );
            let answer = HeaderView::websocket_response().wire();
            &&& greeted(arrived) matches Ok(pre)
            &&& pre.accepted() == Ok::<IterView, WebSocketError>(
                IterView::fresh(
                    InboundView { unread: Seq::empty(), closed: server_reader_closed },
                    server_writer.written(answer),
                ),
            )
            &&& connected(
                InboundView { unread: answer, closed: client_reader_closed },
                client_writer,
            ) == Ok::<IterView, WebSocketError>(
                IterView::fresh(
                    InboundView { unread: Seq::empty(), closed: client_reader_closed },
                    client_writer,
                ),
            )
        }),
{
    lemma_handshake_headers();
    let request = HeaderView::websocket_request().wire();
    let answer = HeaderView::websocket_response().wire();
    lemma_header_read_of_wire(HeaderView::websocket_request(), Seq::empty());
    lemma_header_read_of_wire(HeaderView::websocket_response(), Seq::empty());
    assert(request + Seq::<u8>::empty() == request);
    assert(answer + Seq::<u8>::empty() == answer);
    assert(read_chunk(request) == request);
    assert(read_chunk(answer) == answer);
    assert(request.skip(request.len() as int) == Seq::<u8>::empty());
    assert(answer.skip(answer.len() as int) == Seq::<u8>::empty());
}

} // verus!
