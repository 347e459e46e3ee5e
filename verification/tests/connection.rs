use std::convert::TryFrom;

use rust_ws::client::WebSocketClient;
use rust_ws::connection::{
    ConnectionState, FrameIter, ReadStep, Sender, SpecialFrameHandler, WebSocketConnection,
};
use rust_ws::error::WebSocketError;
use rust_ws::frame::{Frame, FrameError, OpCode};
use rust_ws::http::HTTPHeader;
use rust_ws::message::Message;
use rust_ws::server::{Accepted, ConnectionIter};
use rust_ws::transport::{Inbound, Outbound, ReadOutcome};

fn frame_of(fin: bool, opcode: OpCode, payload: &[u8]) -> Frame {
    Frame {
        fin,
        application_data: payload.to_vec(),
        opcode,
        ..Default::default()
    }
}

fn open_connection() -> WebSocketConnection {
    WebSocketConnection::new(Inbound::new(), Outbound::new())
}

fn source(bytes: &[u8]) -> Inbound {
    let mut r = Inbound::new();
    r.feed(bytes);
    r
}

/// Carries what one side wrote to the other side.
fn deliver(from: &mut WebSocketConnection, to: &mut WebSocketConnection) {
    let bytes = from.take_output();
    to.receive(&bytes);
    if from.output_ended() {
        to.end_of_input();
    }
}

#[test]
fn echo() {
    let mut request = Outbound::new();
    WebSocketClient::request_upgrade(&mut request).unwrap();
    let mut listener = ConnectionIter::new(vec![Accepted::Stream(
        source(&request.take_pending()),
        Outbound::new(),
    )]);
    let mut servers = listener.auto_accept();
    assert_eq!(servers.len(), 1);
    let mut server = servers.pop().unwrap();
    let response = server.take_output();
    let mut client = WebSocketClient::connect(source(&response), Outbound::new())
        .unwrap()
        .into_connection();

    client.send(Message::Text("hello".to_owned())).unwrap();
    deliver(&mut client, &mut server);
    let got = server.iter_messages();
    assert_eq!(got, vec![Message::Text("hello".to_owned())]);
    for message in got {
        server.send(message).unwrap();
    }
    deliver(&mut server, &mut client);
    assert_eq!(
        client.iter_messages(),
        vec![Message::Text("hello".to_owned())]
    );
}

#[test]
fn fragmented_text() {
    let mut c = open_connection();
    c.receive(&frame_of(false, OpCode::Text, b"he").to_bytes());
    c.receive(&frame_of(false, OpCode::Continuation, b"ll").to_bytes());
    c.receive(&frame_of(true, OpCode::Continuation, b"o").to_bytes());
    assert_eq!(
        c.iter_messages(),
        vec![Message::Text("hello".to_owned())]
    );
    assert_eq!(c.take_output(), Vec::<u8>::new());
}

#[test]
fn fragments_that_arrive_in_pieces_are_kept_between_calls() {
    let mut c = open_connection();
    c.receive(&frame_of(false, OpCode::Binary, &[1, 2]).to_bytes());
    assert_eq!(c.iter_messages(), vec![]);
    let last = frame_of(true, OpCode::Continuation, &[3]).to_bytes();
    c.receive(&last[..1]);
    assert_eq!(c.iter_messages(), vec![]);
    c.receive(&last[1..]);
    assert_eq!(c.iter_messages(), vec![Message::Binary(vec![1, 2, 3])]);
    c.receive(&frame_of(true, OpCode::Binary, &[4]).to_bytes());
    assert_eq!(c.iter_messages(), vec![Message::Binary(vec![4])]);
}

#[test]
fn any_split_of_a_message_gives_the_message() {
    let payload: Vec<u8> = (0..40u8).collect();
    for first_cut in 0..payload.len() {
        for second_cut in first_cut..payload.len() {
            let mut c = open_connection();
            c.receive(&frame_of(false, OpCode::Binary, &payload[..first_cut]).to_bytes());
            c.receive(
                &frame_of(false, OpCode::Continuation, &payload[first_cut..second_cut]).to_bytes(),
            );
            c.receive(&frame_of(true, OpCode::Continuation, &payload[second_cut..]).to_bytes());
            assert_eq!(c.iter_messages(), vec![Message::Binary(payload.clone())]);
        }
    }
}

#[test]
fn ping_pong() {
    let mut c = open_connection();
    c.receive(&frame_of(true, OpCode::Ping, b"probe").to_bytes());
    assert_eq!(c.iter_messages(), vec![]);
    assert_eq!(c.take_output(), Frame::pong(b"probe").to_bytes());
    assert_eq!(c.get_state(), ConnectionState::Open);
}

#[test]
fn clean_close_initiated_locally() {
    let mut local = open_connection();
    let mut peer = open_connection();
    assert_eq!(local.close(), Ok(()));
    assert_eq!(local.get_state(), ConnectionState::CloseSent);
    deliver(&mut local, &mut peer);
    assert_eq!(peer.iter_messages(), vec![]);
    deliver(&mut peer, &mut local);
    assert_eq!(local.get_state(), ConnectionState::CloseSent);
    assert_eq!(local.iter_messages(), vec![]);
    assert_eq!(local.get_state(), ConnectionState::Closed);
    assert!(local.output_ended());
    assert_eq!(local.take_output(), Vec::<u8>::new());
}

#[test]
fn clean_close_initiated_remotely() {
    let mut c = open_connection();
    let close = frame_of(true, OpCode::ConnectionClose, &[0x03, 0xE8]);
    c.receive(&close.to_bytes());
    assert_eq!(c.iter_messages(), vec![]);
    assert_eq!(c.get_state(), ConnectionState::Closed);
    assert!(c.output_ended());
    assert_eq!(c.take_output(), close.to_bytes());
}

#[test]
fn handshake_rejection() {
    let response = b"HTTP/1.1 200 OK\r\nUpgrade: websocket\r\nConnection: Upgrade\r\n\r\n";
    let res = WebSocketClient::connect(source(response), Outbound::new());
    assert_eq!(res.err(), Some(WebSocketError::InvalidRequestHeader));
}

#[test]
fn handshake_without_an_answer_is_rejected() {
    let res = WebSocketClient::connect(Inbound::new(), Outbound::new());
    assert_eq!(res.err(), Some(WebSocketError::InvalidRequestHeader));
    let res = WebSocketClient::connect(source(b"HTTP/1.1 101 Switching"), Outbound::new());
    assert_eq!(res.err(), Some(WebSocketError::InvalidRequestHeader));
}

#[test]
fn client_keeps_what_follows_the_response() {
    let mut bytes = HTTPHeader::websocket_response().to_bytes();
    bytes.resize(512, 0);
    bytes.extend(frame_of(true, OpCode::Text, b"hi").to_bytes());
    let mut client = WebSocketClient::connect(source(&bytes), Outbound::new()).unwrap();
    assert_eq!(client.iter_messages(), vec![Message::Text("hi".to_owned())]);
    assert_eq!(client.send(Message::Ping), Ok(()));
    assert_eq!(client.into_connection().take_output(), vec![0x89, 0x00]);
}

#[test]
fn request_upgrade_queues_the_request() {
    let mut w = Outbound::new();
    assert_eq!(WebSocketClient::request_upgrade(&mut w), Ok(()));
    assert_eq!(
        w.take_pending(),
        b"GET / HTTP/1.1\r\nConnection: Upgrade\r\nUpgrade: websocket\r\n\r\n".to_vec()
    );
    w.shutdown();
    assert_eq!(
        WebSocketClient::request_upgrade(&mut w),
        Err(WebSocketError::UnknownError)
    );
}

#[test]
fn invalid_utf8_text_frame() {
    let bytes = frame_of(true, OpCode::Text, &[0xFF]).to_bytes();
    let mut c = open_connection();
    c.receive(&bytes);
    c.receive(&frame_of(true, OpCode::Text, b"ok").to_bytes());
    assert_eq!(c.iter_messages(), vec![Message::Text("ok".to_owned())]);

    let mut raw = FrameIter::new(source(&bytes), SpecialFrameHandler::new(Outbound::new()));
    let frame = raw.next().unwrap().unwrap();
    assert_eq!(frame.opcode, OpCode::Text);
    assert_eq!(frame.application_data, vec![0xFF]);
    assert_eq!(
        Message::try_from(frame),
        Err(FrameError::CantConvertToMessage)
    );
    assert!(raw.next().is_none());
}

#[test]
fn control_frames_between_messages_are_answered_and_not_delivered() {
    let mut c = open_connection();
    let frames = vec![
        frame_of(true, OpCode::Text, b"a"),
        frame_of(true, OpCode::Ping, b"1"),
        frame_of(true, OpCode::Pong, b"ignored"),
        frame_of(true, OpCode::Binary, &[2]),
        frame_of(true, OpCode::Ping, b"2"),
        frame_of(true, OpCode::Text, b"c"),
        frame_of(true, OpCode::ConnectionClose, b""),
        frame_of(true, OpCode::Text, b"late"),
    ];
    for f in &frames {
        c.receive(&f.to_bytes());
    }
    assert_eq!(
        c.iter_messages(),
        vec![
            Message::Text("a".to_owned()),
            Message::Binary(vec![2]),
            Message::Text("c".to_owned()),
            Message::Text("late".to_owned()),
        ]
    );
    let mut expected = Frame::pong(b"1").to_bytes();
    expected.extend(Frame::pong(b"2").to_bytes());
    expected.extend(Frame::connection_close().to_bytes());
    assert_eq!(c.take_output(), expected);
    assert_eq!(c.get_state(), ConnectionState::Closed);
    assert!(c.output_ended());
}

#[test]
fn raw_iterator_yields_pongs_and_reserved_frames() {
    let mut bytes = frame_of(true, OpCode::Pong, b"p").to_bytes();
    bytes.extend(frame_of(true, OpCode::Ping, b"q").to_bytes());
    bytes.extend(frame_of(true, OpCode::NonControl(1), b"r").to_bytes());
    let mut raw = FrameIter::new(source(&bytes), SpecialFrameHandler::new(Outbound::new()));
    let frames = raw.ok();
    assert_eq!(frames.len(), 2);
    assert_eq!(frames[0].opcode, OpCode::Pong);
    assert_eq!(frames[1].opcode, OpCode::NonControl(1));
    let (reader, handler, fragments) = raw.into_parts();
    assert_eq!(reader.available(), 0);
    assert!(fragments.is_empty());
    let (mut writer, state) = handler.into_parts();
    assert_eq!(state, ConnectionState::Open);
    assert_eq!(writer.take_pending(), Frame::pong(b"q").to_bytes());
}

fn frame_of_step(step: ReadStep) -> Frame {
    match step {
        ReadStep::Frame(frame) => frame,
        other => panic!("no frame: {}", kind_of_step(&other)),
    }
}

fn kind_of_step(step: &ReadStep) -> &'static str {
    match step {
        ReadStep::Frame(_) => "frame",
        ReadStep::Taken => "taken",
        ReadStep::Short(FrameError::WouldBlock) => "would block",
        ReadStep::Short(FrameError::Eof) => "eof",
        ReadStep::Short(_) => "short",
        ReadStep::Failed(_) => "failed",
    }
}

#[test]
fn try_read_one_holds_fragments_back() {
    let mut bytes = frame_of(false, OpCode::Text, b"a").to_bytes();
    bytes.extend(frame_of(true, OpCode::Continuation, b"b").to_bytes());
    let mut raw = FrameIter::new(source(&bytes), SpecialFrameHandler::new(Outbound::new()));
    assert_eq!(kind_of_step(&raw.try_read_one()), "taken");
    let whole = frame_of_step(raw.try_read_one());
    assert_eq!(whole.opcode, OpCode::Text);
    assert_eq!(whole.application_data, b"ab".to_vec());
    assert_eq!(kind_of_step(&raw.try_read_one()), "would block");
    let (mut reader, handler, fragments) = raw.into_parts();
    assert!(fragments.is_empty());
    reader.close();
    let mut raw = FrameIter::new(reader, handler);
    assert_eq!(kind_of_step(&raw.try_read_one()), "eof");
}

#[test]
fn try_read_one_shows_the_handler_every_frame_first() {
    let mut bytes = frame_of(false, OpCode::Text, b"a").to_bytes();
    bytes.extend(frame_of(true, OpCode::Ping, b"p").to_bytes());
    bytes.extend(frame_of(true, OpCode::ConnectionClose, b"").to_bytes());
    bytes.extend(frame_of(true, OpCode::Ping, b"late").to_bytes());
    let mut raw = FrameIter::new(source(&bytes), SpecialFrameHandler::new(Outbound::new()));
    assert_eq!(kind_of_step(&raw.try_read_one()), "taken");
    assert_eq!(kind_of_step(&raw.try_read_one()), "taken");
    assert_eq!(kind_of_step(&raw.try_read_one()), "taken");
    assert_eq!(kind_of_step(&raw.try_read_one()), "failed");
    assert_eq!(kind_of_step(&raw.try_read_one()), "would block");
    let (_, handler, fragments) = raw.into_parts();
    assert_eq!(fragments.len(), 1);
    assert_eq!(fragments[0].application_data, b"a".to_vec());
    let (mut writer, state) = handler.into_parts();
    assert_eq!(state, ConnectionState::Closed);
    let mut expected = Frame::pong(b"p").to_bytes();
    expected.extend(Frame::connection_close().to_bytes());
    assert_eq!(writer.take_pending(), expected);
}

#[test]
fn ping_between_fragments_is_answered_and_the_message_comes_out_whole() {
    let mut bytes = frame_of(false, OpCode::Text, b"he").to_bytes();
    bytes.extend(frame_of(true, OpCode::Ping, b"").to_bytes());
    bytes.extend(frame_of(true, OpCode::Continuation, b"llo").to_bytes());
    let mut reader = source(&bytes);
    reader.close();
    let mut raw = FrameIter::new(reader, SpecialFrameHandler::new(Outbound::new()));
    let frame = raw.next().unwrap().unwrap();
    assert_eq!(frame.opcode, OpCode::Text);
    assert_eq!(frame.application_data, b"hello".to_vec());
    assert!(raw.next().is_none());
    let (_, handler, fragments) = raw.into_parts();
    assert!(fragments.is_empty());
    let (mut writer, state) = handler.into_parts();
    assert_eq!(state, ConnectionState::Open);
    assert!(!writer.is_shut_down());
    assert_eq!(writer.take_pending(), Frame::pong(b"").to_bytes());

    let mut c = open_connection();
    c.receive(&bytes);
    assert_eq!(c.iter_messages(), vec![Message::Text("hello".to_owned())]);
    assert_eq!(c.take_output(), vec![0x8A, 0x00]);
}

#[test]
fn close_after_a_fragment_is_echoed_and_nothing_is_yielded() {
    let mut bytes = frame_of(false, OpCode::Text, b"he").to_bytes();
    bytes.extend_from_slice(&[0x88, 0x00]);
    let mut reader = source(&bytes);
    reader.close();
    let mut raw = FrameIter::new(reader, SpecialFrameHandler::new(Outbound::new()));
    assert!(raw.next().is_none());
    let (_, handler, fragments) = raw.into_parts();
    assert_eq!(fragments.len(), 1);
    assert_eq!(fragments[0].application_data, b"he".to_vec());
    let (mut writer, state) = handler.into_parts();
    assert_eq!(state, ConnectionState::Closed);
    assert!(writer.is_shut_down());
    assert_eq!(writer.take_pending(), vec![0x88, 0x00]);

    let mut c = open_connection();
    c.receive(&bytes);
    assert_eq!(c.iter_messages(), vec![]);
    assert_eq!(c.get_state(), ConnectionState::Closed);
    assert!(c.output_ended());
    assert_eq!(c.take_output(), vec![0x88, 0x00]);
}

#[test]
fn one_close_among_application_frames_is_echoed_once() {
    let mut bytes = frame_of(true, OpCode::Text, b"a").to_bytes();
    bytes.extend(frame_of(false, OpCode::Binary, &[1]).to_bytes());
    bytes.extend(frame_of(true, OpCode::ConnectionClose, &[0x03, 0xE8]).to_bytes());
    bytes.extend(frame_of(true, OpCode::Continuation, &[2]).to_bytes());
    let mut reader = source(&bytes);
    reader.close();
    let mut raw = FrameIter::new(reader, SpecialFrameHandler::new(Outbound::new()));
    let frames = raw.ok();
    assert_eq!(frames.len(), 2);
    assert_eq!(frames[0].opcode, OpCode::Text);
    assert_eq!(frames[1].opcode, OpCode::Binary);
    assert_eq!(frames[1].application_data, vec![1, 2]);
    let (_, handler, _) = raw.into_parts();
    let (mut writer, state) = handler.into_parts();
    assert_eq!(state, ConnectionState::Closed);
    assert!(writer.is_shut_down());
    assert_eq!(
        writer.take_pending(),
        frame_of(true, OpCode::ConnectionClose, &[0x03, 0xE8]).to_bytes()
    );
}

#[test]
fn close_in_close_sent_or_closed_is_not_echoed() {
    let mut c = open_connection();
    c.close().unwrap();
    assert_eq!(c.take_output(), vec![0x88, 0x00]);
    c.receive(&[0x88, 0x00, 0x88, 0x00]);
    assert_eq!(c.iter_messages(), vec![]);
    assert_eq!(c.get_state(), ConnectionState::Closed);
    assert!(c.output_ended());
    assert_eq!(c.take_output(), Vec::<u8>::new());
}

#[test]
fn ping_after_close_cannot_be_answered() {
    let mut bytes = frame_of(true, OpCode::ConnectionClose, b"").to_bytes();
    bytes.extend(frame_of(true, OpCode::Ping, b"x").to_bytes());
    bytes.extend(frame_of(true, OpCode::Text, b"t").to_bytes());
    let mut raw = FrameIter::new(source(&bytes), SpecialFrameHandler::new(Outbound::new()));
    assert_eq!(raw.next().unwrap().err(), Some(WebSocketError::UnknownError));
    assert_eq!(raw.next().unwrap().unwrap().application_data, b"t".to_vec());
    assert!(raw.next().is_none());
}

#[test]
fn handler_answers_close_by_state() {
    let close = frame_of(true, OpCode::ConnectionClose, b"bye");

    let mut open = SpecialFrameHandler::new(Outbound::new());
    assert_eq!(open.handle(&close), Ok(true));
    let (mut writer, state) = open.into_parts();
    assert_eq!(state, ConnectionState::Closed);
    assert!(writer.is_shut_down());
    assert_eq!(writer.take_pending(), close.to_bytes());

    let mut again = SpecialFrameHandler::new(Outbound::new());
    assert_eq!(again.handle(&close), Ok(true));
    assert_eq!(again.handle(&close), Ok(true));
    let (mut writer, state) = again.into_parts();
    assert_eq!(state, ConnectionState::Closed);
    assert_eq!(writer.take_pending(), close.to_bytes());

    let mut shut = Outbound::new();
    shut.shutdown();
    let mut failing = SpecialFrameHandler::new(shut);
    assert_eq!(failing.handle(&close), Err(WebSocketError::UnknownError));
    let (_, state) = failing.into_parts();
    assert_eq!(state, ConnectionState::Open);
}

#[test]
fn handler_passes_application_frames() {
    let mut h = SpecialFrameHandler::new(Outbound::new());
    for opcode in [
        OpCode::Text,
        OpCode::Binary,
        OpCode::Continuation,
        OpCode::Pong,
        OpCode::NonControl(3),
        OpCode::Control(3),
    ] {
        assert_eq!(h.handle(&frame_of(true, opcode, b"x")), Ok(false));
    }
    let (mut writer, state) = h.into_parts();
    assert_eq!(state, ConnectionState::Open);
    assert_eq!(writer.take_pending(), Vec::<u8>::new());
}

#[test]
fn state_only_moves_forward() {
    let mut c = open_connection();
    assert_eq!(c.get_state(), ConnectionState::Open);
    assert_eq!(c.send(Message::Binary(vec![1])), Ok(()));
    assert_eq!(c.get_state(), ConnectionState::Open);
    assert_eq!(c.close(), Ok(()));
    assert_eq!(c.get_state(), ConnectionState::CloseSent);
    assert_eq!(c.close(), Err(WebSocketError::InvalidConnectionState));
    assert_eq!(c.get_state(), ConnectionState::CloseSent);
    c.receive(&frame_of(true, OpCode::Text, b"still read").to_bytes());
    assert_eq!(
        c.iter_messages(),
        vec![Message::Text("still read".to_owned())]
    );
    assert_eq!(c.get_state(), ConnectionState::CloseSent);
    c.receive(&Frame::connection_close().to_bytes());
    c.iter_messages();
    assert_eq!(c.get_state(), ConnectionState::Closed);
    assert_eq!(c.close(), Err(WebSocketError::InvalidConnectionState));
    assert_eq!(c.get_state(), ConnectionState::Closed);
}

#[test]
fn send_after_close_fails() {
    let mut c = open_connection();
    c.close().unwrap();
    let sent = c.take_output();
    assert_eq!(sent, vec![0x88, 0x00]);
    assert_eq!(
        c.send(Message::Text("x".to_owned())),
        Err(WebSocketError::InvalidConnectionState)
    );
    assert_eq!(c.take_output(), Vec::<u8>::new());
    c.receive(&Frame::connection_close().to_bytes());
    c.iter_messages();
    assert_eq!(
        c.send(Message::Ping),
        Err(WebSocketError::InvalidConnectionState)
    );
}

#[test]
fn send_writes_one_frame() {
    let mut c = open_connection();
    c.send(Message::Text("Hello".to_owned())).unwrap();
    c.send(Message::Binary(vec![1, 2])).unwrap();
    c.send(Message::Pong).unwrap();
    assert_eq!(
        c.take_output(),
        vec![0x81, 0x05, 0x48, 0x65, 0x6c, 0x6c, 0x6f, 0x82, 0x02, 1, 2, 0x8A, 0x00]
    );
}

#[test]
fn send_on_a_shut_writer_is_an_unknown_error() {
    let mut w = Outbound::new();
    w.shutdown();
    let mut c = WebSocketConnection::new(Inbound::new(), w);
    assert_eq!(c.send(Message::Ping), Err(WebSocketError::UnknownError));
    assert_eq!(c.close(), Err(WebSocketError::UnknownError));
    assert_eq!(c.get_state(), ConnectionState::CloseSent);
}

#[test]
fn sender_does_not_look_at_the_state() {
    let mut c = open_connection();
    let mut sender = c.sender();
    c.close().unwrap();
    assert_eq!(sender.send(Message::Text("hi".to_owned())), Ok(()));
    assert_eq!(sender.take_pending(), vec![0x81, 0x02, b'h', b'i']);

    c.receive(&Frame::connection_close().to_bytes());
    c.iter_messages();
    let mut late = c.sender();
    assert_eq!(late.send(Message::Ping), Err(WebSocketError::UnknownError));
    assert_eq!(late.take_pending(), Vec::<u8>::new());

    let mut own = Sender::new(Outbound::new());
    assert_eq!(own.send(Message::Binary(vec![9])), Ok(()));
    assert_eq!(own.take_pending(), vec![0x82, 0x01, 9]);
}

#[test]
fn end_of_input_is_remembered() {
    let mut c = open_connection();
    assert!(!c.input_ended());
    c.end_of_input();
    assert!(c.input_ended());
    assert_eq!(c.iter_messages(), vec![]);
}

#[test]
fn connection_errors_have_their_texts() {
    assert_eq!(
        WebSocketError::InvalidRequestHeader.to_string(),
        "Invalid request header"
    );
    assert_eq!(
        WebSocketError::UnknownError.to_string(),
        "Unknown connection error"
    );
    assert_eq!(WebSocketError::WouldBlock.to_string(), "Would block");
    assert_eq!(
        WebSocketError::InvalidConnectionState.to_string(),
        "Invalid connection state"
    );
}

#[test]
fn connection_takes_in_what_a_read_gave() {
    let mut c = open_connection();
    c.take_in(ReadOutcome::Read(vec![0x81, 0x01]));
    c.take_in(ReadOutcome::WouldBlock);
    assert_eq!(c.iter_messages(), vec![]);
    c.take_in(ReadOutcome::Read(vec![b'a']));
    assert_eq!(c.iter_messages(), vec![Message::Text("a".to_owned())]);
    assert!(!c.input_ended());
    c.take_in(ReadOutcome::Read(vec![]));
    assert!(c.input_ended());
}
