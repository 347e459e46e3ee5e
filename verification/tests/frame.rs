use std::convert::TryFrom;

use rust_ws::frame::{Frame, FrameError, OpCode};
use rust_ws::message::Message;
use rust_ws::transport::Inbound;

fn source(bytes: &[u8]) -> Inbound {
    let mut r = Inbound::new();
    r.feed(bytes);
    r
}

fn frame_of(opcode: OpCode, payload: &[u8]) -> Frame {
    Frame {
        application_data: payload.to_vec(),
        opcode,
        ..Default::default()
    }
}

#[test]
fn can_serialize_frames() {
    let frame = Frame {
        application_data: "hello".as_bytes().to_vec(),
        opcode: OpCode::Text,
        ..Default::default()
    };

    let frame_bytes = frame.to_bytes();
    let mut slice = source(frame_bytes.as_slice());

    let read_frame = Frame::read(&mut slice).unwrap();

    assert_eq!(read_frame.application_data, frame.application_data);
    assert_eq!(read_frame.fin, frame.fin);
    assert_eq!(read_frame.mask, frame.mask);
    assert_eq!(read_frame.opcode, frame.opcode);
}

#[test]
fn text_frame_has_the_bytes_of_the_wire_format() {
    let frame = frame_of(OpCode::Text, b"Hello");
    assert_eq!(
        frame.to_bytes(),
        vec![0x81, 0x05, 0x48, 0x65, 0x6c, 0x6c, 0x6f]
    );
}

#[test]
fn masked_frame_has_the_key_and_the_masked_payload() {
    let frame = Frame {
        application_data: b"Hello".to_vec(),
        opcode: OpCode::Text,
        mask: true,
        masking_key: Some([0x37, 0xfa, 0x21, 0x3d]),
        ..Default::default()
    };
    let bytes = frame.to_bytes();
    assert_eq!(
        bytes,
        vec![0x81, 0x85, 0x37, 0xfa, 0x21, 0x3d, 0x7f, 0x9f, 0x4d, 0x51, 0x58]
    );
    let mut r = source(&bytes);
    let read = Frame::read(&mut r).unwrap();
    assert_eq!(read.application_data, b"Hello".to_vec());
    assert!(read.mask);
    assert_eq!(read.masking_key, Some([0x37, 0xfa, 0x21, 0x3d]));
    assert_eq!(r.available(), 0);
}

#[test]
fn header_bits_go_to_their_places() {
    let frame = Frame {
        fin: false,
        rsv1: true,
        rsv2: false,
        rsv3: true,
        opcode: OpCode::Control(2),
        ..Default::default()
    };
    let bytes = frame.to_bytes();
    assert_eq!(bytes, vec![0x5D, 0x00]);
    let read = Frame::read(&mut source(&bytes)).unwrap();
    assert!(!read.fin);
    assert!(read.rsv1);
    assert!(!read.rsv2);
    assert!(read.rsv3);
    assert_eq!(read.opcode, OpCode::Control(2));
}

#[test]
fn length_field_is_chosen_by_the_payload_length() {
    let at_125 = frame_of(OpCode::Binary, &vec![7u8; 125]).to_bytes();
    assert_eq!(at_125[1] & 0x7F, 125);
    assert_eq!(at_125.len(), 2 + 125);

    let at_126 = frame_of(OpCode::Binary, &vec![7u8; 126]).to_bytes();
    assert_eq!(at_126[1] & 0x7F, 126);
    assert_eq!(&at_126[2..4], &[0x00, 0x7E]);
    assert_eq!(at_126.len(), 4 + 126);

    let at_65535 = frame_of(OpCode::Binary, &vec![7u8; 65535]).to_bytes();
    assert_eq!(at_65535[1] & 0x7F, 126);
    assert_eq!(&at_65535[2..4], &[0xFF, 0xFF]);
    assert_eq!(at_65535.len(), 4 + 65535);

    let at_65536 = frame_of(OpCode::Binary, &vec![7u8; 65536]).to_bytes();
    assert_eq!(at_65536[1] & 0x7F, 127);
    assert_eq!(&at_65536[2..10], &[0, 0, 0, 0, 0, 1, 0, 0]);
    assert_eq!(at_65536.len(), 10 + 65536);
}

#[test]
fn frames_of_every_length_class_round_trip() {
    for len in [0usize, 1, 125, 126, 300, 65535, 65536, 70000] {
        let payload: Vec<u8> = (0..len).map(|i| (i % 251) as u8).collect();
        for key in [None, Some([1u8, 2, 3, 4])] {
            let frame = Frame {
                application_data: payload.clone(),
                opcode: OpCode::Binary,
                mask: key.is_some(),
                masking_key: key,
                extension_data: vec![9, 9],
                ..Default::default()
            };
            let bytes = frame.to_bytes();
            let mut r = source(&bytes);
            let read = Frame::read(&mut r).unwrap();
            assert_eq!(read.application_data, payload);
            assert_eq!(read.opcode, OpCode::Binary);
            assert_eq!(read.fin, true);
            assert_eq!(read.mask, key.is_some());
            assert_eq!(read.masking_key, key);
            assert_eq!(read.extension_data, Vec::<u8>::new());
            assert_eq!(r.available(), 0);
        }
    }
}

#[test]
fn every_opcode_survives_the_wire() {
    let mut all = vec![
        OpCode::Continuation,
        OpCode::Text,
        OpCode::Binary,
        OpCode::ConnectionClose,
        OpCode::Ping,
        OpCode::Pong,
    ];
    for code in 0..=4u8 {
        all.push(OpCode::NonControl(code));
        all.push(OpCode::Control(code));
    }
    for opcode in all {
        let bytes = frame_of(opcode, b"x").to_bytes();
        assert_eq!(bytes[0] & 0x0F, opcode.to_nibble());
        let read = Frame::read(&mut source(&bytes)).unwrap();
        assert_eq!(read.opcode, opcode);
    }
}

#[test]
fn opcode_numbers() {
    assert_eq!(OpCode::Continuation.to_nibble(), 0x0);
    assert_eq!(OpCode::Text.to_nibble(), 0x1);
    assert_eq!(OpCode::Binary.to_nibble(), 0x2);
    assert_eq!(OpCode::NonControl(0).to_nibble(), 0x3);
    assert_eq!(OpCode::NonControl(4).to_nibble(), 0x7);
    assert_eq!(OpCode::ConnectionClose.to_nibble(), 0x8);
    assert_eq!(OpCode::Ping.to_nibble(), 0x9);
    assert_eq!(OpCode::Pong.to_nibble(), 0xA);
    assert_eq!(OpCode::Control(0).to_nibble(), 0xB);
    assert_eq!(OpCode::Control(4).to_nibble(), 0xF);
    assert_eq!(OpCode::from_nibble(0x7), Ok(OpCode::NonControl(4)));
    assert_eq!(OpCode::from_nibble(0xB), Ok(OpCode::Control(0)));
    assert_eq!(OpCode::from_nibble(0x9), Ok(OpCode::Ping));
}

#[test]
fn a_number_beyond_four_bits_is_no_opcode() {
    assert_eq!(OpCode::from_nibble(16), Err(FrameError::InvalidOpCode));
    assert_eq!(OpCode::from_nibble(255), Err(FrameError::InvalidOpCode));
}

#[test]
fn masking_twice_gives_the_data_back() {
    let key = [0xA5, 0x00, 0xFF, 0x3C];
    let data: Vec<u8> = (0..=255u8).collect();
    let once = Frame::decode_or_encode_masked_data(&key, &data);
    assert_ne!(once, data);
    assert_eq!(once[0], 0xA5);
    assert_eq!(once[1], 0x01);
    assert_eq!(once[2], 0x02 ^ 0xFF);
    assert_eq!(once[5], 0x05);
    let twice = Frame::decode_or_encode_masked_data(&key, &once);
    assert_eq!(twice, data);
}

#[test]
fn read_reports_would_block_then_eof_on_a_partial_frame() {
    let mut r = source(&[0x81, 0x05, b'h', b'e']);
    assert_eq!(Frame::read(&mut r).unwrap_err(), FrameError::WouldBlock);
    assert_eq!(r.available(), 4);
    r.close();
    assert_eq!(Frame::read(&mut r).unwrap_err(), FrameError::Eof);
    assert_eq!(r.available(), 4);
}

#[test]
fn read_waits_for_each_part_of_the_header() {
    for partial in [
        &[][..],
        &[0x82][..],
        &[0x82, 126][..],
        &[0x82, 126, 0][..],
        &[0x82, 127, 0, 0, 0, 0, 0, 0, 0][..],
        &[0x82, 0x80, 1, 2, 3][..],
        &[0x82, 0x81, 1, 2, 3, 4][..],
    ] {
        let mut r = source(partial);
        assert_eq!(Frame::read(&mut r).unwrap_err(), FrameError::WouldBlock);
        assert_eq!(r.available(), partial.len());
    }
}

#[test]
fn read_takes_one_frame_and_leaves_the_rest() {
    let mut bytes = frame_of(OpCode::Text, b"one").to_bytes();
    bytes.extend(frame_of(OpCode::Binary, b"two!").to_bytes());
    bytes.push(0x81);
    let mut r = source(&bytes);
    let first = Frame::read(&mut r).unwrap();
    assert_eq!(first.opcode, OpCode::Text);
    assert_eq!(first.application_data, b"one".to_vec());
    let second = Frame::read(&mut r).unwrap();
    assert_eq!(second.opcode, OpCode::Binary);
    assert_eq!(second.application_data, b"two!".to_vec());
    assert_eq!(Frame::read(&mut r).unwrap_err(), FrameError::WouldBlock);
    assert_eq!(r.available(), 1);
}

#[test]
fn take_bytes_hands_out_bytes_at_an_offset() {
    let mut r = source(&[1, 2, 3, 4, 5]);
    assert_eq!(Frame::take_bytes::<2>(&r, 1), Ok([2, 3]));
    assert_eq!(Frame::take_bytes::<5>(&r, 0), Ok([1, 2, 3, 4, 5]));
    assert_eq!(Frame::take_bytes::<2>(&r, 4), Err(FrameError::WouldBlock));
    r.close();
    assert_eq!(Frame::take_bytes::<2>(&r, 4), Err(FrameError::Eof));
    assert_eq!(r.available(), 5);
}

#[test]
fn fragments_become_one_frame() {
    let frames = vec![
        Frame {
            fin: false,
            ..frame_of(OpCode::Text, b"he")
        },
        Frame {
            fin: false,
            mask: true,
            masking_key: Some([1, 2, 3, 4]),
            rsv1: true,
            ..frame_of(OpCode::Continuation, b"ll")
        },
        frame_of(OpCode::Continuation, b"o"),
    ];
    let whole = Frame::from_fragmented(&frames);
    assert_eq!(whole.opcode, OpCode::Text);
    assert!(whole.fin);
    assert_eq!(whole.application_data, b"hello".to_vec());
    assert!(!whole.mask);
    assert_eq!(whole.masking_key, None);
    assert!(!whole.rsv1 && !whole.rsv2 && !whole.rsv3);
    assert_eq!(whole.extension_data, Vec::<u8>::new());
}

#[test]
fn default_frame_is_final_binary_and_empty() {
    let frame = Frame::default();
    assert!(frame.fin);
    assert!(!frame.rsv1 && !frame.rsv2 && !frame.rsv3);
    assert_eq!(frame.opcode, OpCode::Binary);
    assert!(!frame.mask);
    assert_eq!(frame.masking_key, None);
    assert!(frame.application_data.is_empty());
    assert!(frame.extension_data.is_empty());
    assert_eq!(frame.to_bytes(), vec![0x82, 0x00]);
}

#[test]
fn close_and_pong_frames() {
    assert_eq!(Frame::connection_close().to_bytes(), vec![0x88, 0x00]);
    assert_eq!(
        Frame::pong(b"probe").to_bytes(),
        vec![0x8A, 0x05, b'p', b'r', b'o', b'b', b'e']
    );
}

#[test]
fn messages_become_frames() {
    let binary = Frame::from(Message::Binary(vec![1, 2, 3]));
    assert_eq!(binary.opcode, OpCode::Binary);
    assert_eq!(binary.application_data, vec![1, 2, 3]);
    let text = Frame::from(Message::Text("h\u{e9}".to_owned()));
    assert_eq!(text.opcode, OpCode::Text);
    assert_eq!(text.application_data, vec![b'h', 0xC3, 0xA9]);
    let ping = Frame::from(Message::Ping);
    assert_eq!(ping.opcode, OpCode::Ping);
    assert!(ping.application_data.is_empty());
    let pong = Frame::from(Message::Pong);
    assert_eq!(pong.opcode, OpCode::Pong);
    assert!(pong.application_data.is_empty());
    for frame in [binary, text, ping, pong] {
        assert!(frame.fin);
        assert!(!frame.mask);
        assert_eq!(frame.masking_key, None);
    }
}

#[test]
fn frames_become_messages() {
    assert_eq!(
        Message::try_from(frame_of(OpCode::Binary, &[0xFF, 0x00])),
        Ok(Message::Binary(vec![0xFF, 0x00]))
    );
    assert_eq!(
        Message::try_from(frame_of(OpCode::Text, "h\u{e9}llo".as_bytes())),
        Ok(Message::Text("h\u{e9}llo".to_owned()))
    );
    for opcode in [
        OpCode::Continuation,
        OpCode::ConnectionClose,
        OpCode::Ping,
        OpCode::Pong,
        OpCode::NonControl(0),
        OpCode::Control(0),
    ] {
        assert_eq!(
            Message::try_from(frame_of(opcode, b"x")),
            Err(FrameError::CantConvertToMessage)
        );
    }
}

#[test]
fn text_frame_with_invalid_utf8_is_no_message() {
    assert_eq!(
        Message::try_from(frame_of(OpCode::Text, &[0xFF])),
        Err(FrameError::CantConvertToMessage)
    );
}

#[test]
fn frame_errors_have_one_text() {
    for e in [
        FrameError::CantConvertToMessage,
        FrameError::InvalidOpCode,
        FrameError::WouldBlock,
        FrameError::Eof,
    ] {
        assert_eq!(e.to_string(), "Can't convert frame to message");
    }
}

#[test]
fn a_cloned_message_has_the_same_content() {
    for message in [
        Message::Text("h\u{e9}".to_owned()),
        Message::Binary(vec![1, 2, 3]),
        Message::Ping,
        Message::Pong,
    ] {
        assert_eq!(message.clone(), message);
    }
}
