//! Frames: their kinds, their fields, and how they are written to and read
//! from bytes and turned into messages and back.

use vstd::prelude::*;
use crate::transport::Inbound;
use crate::message::{Message, MessageView};
use crate::text::{push_all, string_from_utf8};
use crate::wire::{
    assembled, big_endian, big_endian_value, decoding, encoding, joined_payloads,
    lemma_big_endian_value_bound, lemma_radix_power_grows, lemma_radix_power_values, masked,
};
use vstd::utf8::{decode_utf8, encode_utf8, valid_utf8};

verus! {

/// The kind of a frame.
#[derive(Debug, Clone, Copy, PartialEq, Eq, Structural)]
pub enum OpCode {
    Continuation,
    Text,
    Binary,
    ConnectionClose,
    Ping,
    Pong,
    /// A reserved non-control opcode, counted from 0x3.
    NonControl(u8),
    /// A reserved control opcode, counted from 0xB.
    Control(u8),
}

/// Why a frame could not be read or turned into a message.
#[derive(Debug, Clone, Copy, PartialEq, Eq, Structural)]
pub enum FrameError {
    CantConvertToMessage,
    InvalidOpCode,
    WouldBlock,
    Eof,
}

impl OpCode {
    /// Whether the opcode fits in the four bits the wire gives it.
    pub open spec fn is_defined(self) -> bool {
        match self {
            OpCode::NonControl(code) => code <= 4,
            OpCode::Control(code) => code <= 4,
            _ => true,
        }
    }

    /// The four-bit number of the opcode.
    pub open spec fn nibble(self) -> nat {
        match self {
            OpCode::Continuation => 0x0,
            OpCode::Text => 0x1,
            OpCode::Binary => 0x2,
            OpCode::ConnectionClose => 0x8,
            OpCode::Ping => 0x9,
            OpCode::Pong => 0xA,
            OpCode::NonControl(code) => 0x3 + code as nat,
            OpCode::Control(code) => 0xB + code as nat,
        }
    }

    /// The opcode with the four-bit number `n`.
    pub open spec fn of_nibble(n: nat) -> OpCode {
        if n == 0x0 {
            OpCode::Continuation
        } else if n == 0x1 {
            OpCode::Text
        } else if n == 0x2 {
            OpCode::Binary
        } else if n == 0x8 {
            OpCode::ConnectionClose
        } else if n == 0x9 {
            OpCode::Ping
        } else if n == 0xA {
            OpCode::Pong
        } else if n <= 0x7 {
            OpCode::NonControl((n - 0x3) as u8)
        } else {
            OpCode::Control((n - 0xB) as u8)
        }
    }

    /// The four-bit number of a defined opcode.
    pub fn to_nibble(self) -> (n: u8)
        requires
            self.is_defined(),
        ensures
            n == self.nibble(),
            n < 16,
    {
        match self {
            OpCode::Continuation => 0x0,
            OpCode::Text => 0x1,
            OpCode::Binary => 0x2,
            OpCode::ConnectionClose => 0x8,
            OpCode::Ping => 0x9,
            OpCode::Pong => 0xA,
            OpCode::NonControl(code) => 0x3 + code,
            OpCode::Control(code) => 0xB + code,
        }
    }

    /// The opcode that a four-bit number stands for. A number that does not
    /// fit in four bits stands for none.
    pub fn from_nibble(b: u8) -> (res: Result<OpCode, FrameError>)
        ensures
            b < 16 ==> res == Ok::<OpCode, FrameError>(OpCode::of_nibble(b as nat)),
            b >= 16 ==> res == Err::<OpCode, FrameError>(FrameError::InvalidOpCode),
            res matches Ok(op) ==> op.is_defined() && op.nibble() == b,
    {
        match b {
            0x0 => Ok(OpCode::Continuation),
            0x1 => Ok(OpCode::Text),
            0x2 => Ok(OpCode::Binary),
            0x8 => Ok(OpCode::ConnectionClose),
            0x9 => Ok(OpCode::Ping),
            0xA => Ok(OpCode::Pong),
            0xB..=0xF => Ok(OpCode::Control(b - 0xB)),
            0x3..=0x7 => Ok(OpCode::NonControl(b - 0x3)),
            _ => Err(FrameError::InvalidOpCode),
        }
    }
}

impl FrameError {
    /// The text that describes a frame error.
    pub open spec fn description(self) -> Seq<char> {
        "Can't convert frame to message"@
    }

    /// Renders the error as text.
    pub fn to_string(&self) -> (text: String)
        ensures
            text@ == self.description(),
    {
        "Can't convert frame to message".to_owned()
    }
}

/// One frame of the protocol.
#[derive(Debug)]
pub struct Frame {
    pub fin: bool,
    pub rsv1: bool,
    pub rsv2: bool,
    pub rsv3: bool,
    pub opcode: OpCode,
    pub mask: bool,
    pub masking_key: Option<[u8; 4]>,
    pub extension_data: Vec<u8>,
    pub application_data: Vec<u8>,
}

/// The mathematical value of a [`Frame`].
#[verifier::ext_equal]
pub struct FrameView {
    pub fin: bool,
    pub rsv1: bool,
    pub rsv2: bool,
    pub rsv3: bool,
    pub opcode: OpCode,
    pub mask: bool,
    pub masking_key: Option<Seq<u8>>,
    pub extension_data: Seq<u8>,
    pub application_data: Seq<u8>,
}

impl FrameView {
    /// A frame can go on the wire when its opcode is defined and the mask
    /// flag says whether a four-byte key is there.
    pub open spec fn well_formed(self) -> bool {
        &&& self.opcode.is_defined()
        &&& self.mask == self.masking_key.is_some()
        &&& self.masking_key matches Some(key) ==> key.len() == 4
    }
}

impl FrameView {
    /// The frame that carries nothing: final, binary, unmasked, empty.
    pub open spec fn blank() -> FrameView {
        FrameView {
            fin: true,
            rsv1: false,
            rsv2: false,
            rsv3: false,
            opcode: OpCode::Binary,
            mask: false,
            masking_key: None,
            extension_data: Seq::empty(),
            application_data: Seq::empty(),
        }
    }

    /// The frame that closes the connection: final, unmasked, empty.
    pub open spec fn connection_close() -> FrameView {
        FrameView { opcode: OpCode::ConnectionClose, ..FrameView::blank() }
    }

    /// The frame that answers a ping: final, unmasked, with the ping's payload.
    pub open spec fn pong(payload: Seq<u8>) -> FrameView {
        FrameView { opcode: OpCode::Pong, application_data: payload, ..FrameView::blank() }
    }

    /// The frame that carries a message: final, unmasked, with the message's kind
    /// and bytes. A text goes out in UTF-8.
    pub open spec fn of_message(m: MessageView) -> FrameView {
        match m {
            MessageView::Binary(b) => FrameView {
                opcode: OpCode::Binary,
                application_data: b,
                ..FrameView::blank()
            },
            MessageView::Text(t) => FrameView {
                opcode: OpCode::Text,
                application_data: encode_utf8(t),
                ..FrameView::blank()
            },
            MessageView::Ping => FrameView { opcode: OpCode::Ping, ..FrameView::blank() },
            MessageView::Pong => FrameView { opcode: OpCode::Pong, ..FrameView::blank() },
        }
    }

    /// The message that a frame carries: a binary frame its bytes, a text
    /// frame its text if the bytes are UTF-8. No other frame carries one.
    pub open spec fn to_message(self) -> Result<MessageView, FrameError> {
        match self.opcode {
            OpCode::Binary => Ok(MessageView::Binary(self.application_data)),
            OpCode::Text => if valid_utf8(self.application_data) {
                Ok(MessageView::Text(decode_utf8(self.application_data)))
            } else {
                Err(FrameError::CantConvertToMessage)
            },
            _ => Err(FrameError::CantConvertToMessage),
        }
    }
}

/// The values of a run of frames.
pub open spec fn views(frames: Seq<Frame>) -> Seq<FrameView> {
    frames.map_values(|f: Frame| f@)
}

impl View for Frame {
    type V = FrameView;

    open spec fn view(&self) -> FrameView {
        FrameView {
            fin: self.fin,
            rsv1: self.rsv1,
            rsv2: self.rsv2,
            rsv3: self.rsv3,
            opcode: self.opcode,
            mask: self.mask,
            masking_key: match self.masking_key {
                Some(key) => Some(key@),
                None => None,
            },
            extension_data: self.extension_data@,
            application_data: self.application_data@,
        }
    }
}

/// Appends the `width` low-order base-256 digits of `value`, most significant first.
fn push_big_endian(bytes: &mut Vec<u8>, value: u64, width: usize)
    ensures
        final(bytes)@ == old(bytes)@ + big_endian(value as nat, width as nat),
{
    let ghost before = bytes@;
    let mut digits: Vec<u8> = Vec::new();
    let mut rest: u64 = value;
    let mut done: usize = 0;
    // `digits` holds the low-order digits produced so far, least significant first.
    while done < width
        invariant
            done <= width,
            digits@.len() == done,
            big_endian(value as nat, width as nat) == big_endian(
                rest as nat,
                (width - done) as nat,
            ) + digits@.reverse(),
        decreases width - done,
    {
        let ghost prev = digits@;
        digits.push((rest % 256) as u8);
        assert(digits@.reverse() == seq![(rest % 256) as u8] + prev.reverse());
        assert(big_endian(rest as nat, (width - done) as nat) == big_endian(
            (rest / 256) as nat,
            (width - done - 1) as nat,
        ).push((rest % 256) as u8));
        rest = rest / 256;
        done += 1;
    }
    let mut i: usize = width;
    while i > 0
        invariant
            i <= width,
            digits@.len() == width,
            bytes@ == before + digits@.reverse().subrange(0, width - i),
        decreases i,
    {
        i -= 1;
        bytes.push(digits[i]);
        assert(bytes@ == before + digits@.reverse().subrange(0, width - i));
    }
    assert(digits@.reverse().subrange(0, width as int) == digits@.reverse());
}

/// The number whose base-256 digits, most significant first, are `bytes`.
fn big_endian_to_u64(bytes: &[u8]) -> (value: u64)
    requires
        bytes@.len() <= 8,
    ensures
        value == big_endian_value(bytes@),
{
    let mut value: u64 = 0;
    let mut i: usize = 0;
    while i < bytes.len()
        invariant
            i <= bytes@.len() <= 8,
            value == big_endian_value(bytes@.subrange(0, i as int)),
        decreases bytes@.len() - i,
    {
        proof {
            let next = bytes@.subrange(0, i + 1);
            assert(next.drop_last() == bytes@.subrange(0, i as int));
            lemma_big_endian_value_bound(next);
            lemma_radix_power_grows((i + 1) as nat, 8);
            lemma_radix_power_values();
        }
        value = value * 256 + bytes[i] as u64;
        i += 1;
    }
    assert(bytes@.subrange(0, i as int) == bytes@);
    value
}

impl Frame {
    /// A final, unmasked frame of the kind `opcode` that carries `payload`.
    fn plain(opcode: OpCode, payload: Vec<u8>) -> (frame: Frame)
        ensures
            frame@ == (FrameView { opcode, application_data: payload@, ..FrameView::blank() }),
    {
        let frame = Frame {
            opcode,
            mask: false,
            masking_key: None,
            application_data: payload,
            fin: true,
            rsv1: false,
            rsv2: false,
            rsv3: false,
            extension_data: Vec::new(),
        };
        assert(frame@ =~= (FrameView {
            opcode,
            application_data: payload@,
            ..FrameView::blank()
        }));
        frame
    }

    /// The frame that closes the connection.
    pub fn connection_close() -> (frame: Frame)
        ensures
            frame@ == FrameView::connection_close(),
    {
        Self::plain(OpCode::ConnectionClose, Vec::new())
    }

    /// The frame that answers a ping with the payload `payload`.
    pub fn pong(payload: &[u8]) -> (frame: Frame)
        ensures
            frame@ == FrameView::pong(payload@),
    {
        Self::plain(OpCode::Pong, vstd::slice::slice_to_vec(payload))
    }

    /// The single frame that stands for a message received in the fragments
    /// `frames`: final, unmasked, with the opcode of the first and the
    /// payloads of all, in order.
    pub fn from_fragmented(frames: &[Frame]) -> (frame: Frame)
        requires
            frames@.len() > 0,
        ensures
            frame@ == assembled(views(frames@)),
    {
        let mut application_data: Vec<u8> = Vec::new();
        let mut i: usize = 0;
        while i < frames.len()
            invariant
                i <= frames@.len(),
                application_data@ == joined_payloads(views(frames@).subrange(0, i as int)),
            decreases frames@.len() - i,
        {
            proof {
                let next = views(frames@).subrange(0, i + 1);
                assert(next.drop_last() == views(frames@).subrange(0, i as int));
                assert(next.last() == frames@[i as int]@);
            }
            push_all(&mut application_data, frames[i].application_data.as_slice());
            i += 1;
        }
        assert(views(frames@).subrange(0, i as int) == views(frames@));
        let first_frame = &frames[0];
        let frame = Frame {
            opcode: first_frame.opcode,
            fin: true,
            application_data,
            rsv1: false,
            rsv2: false,
            rsv3: false,
            mask: false,
            masking_key: None,
            extension_data: Vec::new(),
        };
        assert(frame@ =~= assembled(views(frames@)));
        frame
    }

    /// Masks or unmasks `data`: byte `i` is XORed with byte `i mod 4` of the key.
    pub fn decode_or_encode_masked_data(masking_key: &[u8; 4], data: &[u8]) -> (out: Vec<u8>)
        ensures
            out@ == masked(data@, masking_key@),
    {
        let mut out: Vec<u8> = Vec::new();
        let mut index: usize = 0;
        while index < data.len()
            invariant
                index <= data@.len(),
                out@.len() == index,
                forall|i: int| 0 <= i < index ==> out@[i] == data@[i] ^ masking_key@[i % 4],
            decreases data@.len() - index,
        {
            out.push(data[index] ^ masking_key[index % 4]);
            index += 1;
        }
        assert(out@ =~= masked(data@, masking_key@));
        out
    }

    /// The `M` waiting bytes that start `at` bytes into what `r` holds. While
    /// they did not all arrive, the error says whether they still may:
    /// `WouldBlock` if so, `Eof` once the transport has ended.
    pub fn take_bytes<const M: usize>(r: &Inbound, at: usize) -> (res: Result<[u8; M], FrameError>)
        ensures
            at + M <= r@.unread.len() ==> res is Ok && res->Ok_0@ == r@.unread.subrange(
                at as int,
                at + M,
            ),
            at + M > r@.unread.len() ==> res == Err::<[u8; M], FrameError>(Self::shortfall(r@.closed)),
    {
        let avail = r.available();
        if at > avail || M > avail - at {
            return Err(if r.is_closed() { FrameError::Eof } else { FrameError::WouldBlock });
        }
        let unread = r.unread();
        let mut buf: [u8; M] = [0u8; M];
        let mut i: usize = 0;
        while i < M
            invariant
                i <= M,
                at + M <= unread@.len() == avail,
                forall|j: int| 0 <= j < i ==> buf@[j] == unread@[at + j],
            decreases M - i,
        {
            buf[i] = unread[at + i];
            i += 1;
        }
        assert(buf@ =~= unread@.subrange(at as int, at + M));
        Ok(buf)
    }

    /// The error of a read that found too few bytes.
    pub open spec fn shortfall(closed: bool) -> FrameError {
        if closed {
            FrameError::Eof
        } else {
            FrameError::WouldBlock
        }
    }

    /// Reads one frame from the front of what `r` holds and removes its bytes
    /// from `r`: the header, the extended length, the masking key if the mask
    /// bit is set, then the payload, unmasked with the key. While the frame
    /// did not arrive as a whole, nothing is removed and the error is
    /// `WouldBlock`, or `Eof` once the transport has ended.
    pub fn read(r: &mut Inbound) -> (res: Result<Frame, FrameError>)
        ensures
            final(r)@.closed == old(r)@.closed,
            match decoding(old(r)@.unread) {
                Some((frame, taken)) => {
                    &&& res is Ok
                    &&& res->Ok_0@ == frame
                    &&& frame.well_formed()
                    &&& final(r)@.unread == old(r)@.unread.skip(taken as int)
                },
                None => {
                    &&& res == Err::<Frame, FrameError>(Self::shortfall(old(r)@.closed))
                    &&& final(r)@.unread == old(r)@.unread
                },
            },
    {
        let ghost input = r@.unread;
        let head = match Self::take_bytes::<2>(r, 0) {
            Ok(head) => head,
            Err(e) => {
                return Err(e);
            },
        };
        let first_byte: u8 = head[0];
        let fin = (first_byte >> 7) == 1;
        let rsv1 = ((first_byte >> 6) & 1) == 1;
        let rsv2 = ((first_byte >> 5) & 1) == 1;
        let rsv3 = ((first_byte >> 4) & 1) == 1;
        let nibble: u8 = first_byte & 0xF;
        assert(fin == (first_byte >= 128)) by (bit_vector)
            requires
                fin == ((first_byte >> 7) == 1),
        ;
        assert(rsv1 == ((first_byte / 64) % 2 == 1)) by (bit_vector)
            requires
                rsv1 == (((first_byte >> 6) & 1) == 1),
        ;
        assert(rsv2 == ((first_byte / 32) % 2 == 1)) by (bit_vector)
            requires
                rsv2 == (((first_byte >> 5) & 1) == 1),
        ;
        assert(rsv3 == ((first_byte / 16) % 2 == 1)) by (bit_vector)
            requires
                rsv3 == (((first_byte >> 4) & 1) == 1),
        ;
        assert(nibble == first_byte % 16 && nibble < 16) by (bit_vector)
            requires
                nibble == first_byte & 0xF,
        ;
        let opcode = match OpCode::from_nibble(nibble) {
            Ok(opcode) => opcode,
            Err(e) => {
                return Err(e);
            },
        };
        let second_byte: u8 = head[1];
        let mask = (second_byte >> 7) == 1;
        let field: u8 = second_byte & 0x7f;
        assert(mask == (second_byte >= 128)) by (bit_vector)
            requires
                mask == ((second_byte >> 7) == 1),
        ;
        assert(field == second_byte % 128) by (bit_vector)
            requires
                field == second_byte & 0x7f,
        ;
        let key_at: usize = if field <= 125 {
            2
        } else if field == 126 {
            4
        } else {
            10
        };
        let payload_len: u64 = if field <= 125 {
            field as u64
        } else if field == 126 {
            match Self::take_bytes::<2>(r, 2) {
                Ok(buf) => big_endian_to_u64(buf.as_slice()),
                Err(e) => {
                    return Err(e);
                },
            }
        } else {
            match Self::take_bytes::<8>(r, 2) {
                Ok(buf) => big_endian_to_u64(buf.as_slice()),
                Err(e) => {
                    return Err(e);
                },
            }
        };
        let masking_key: Option<[u8; 4]> = if mask {
            match Self::take_bytes::<4>(r, key_at) {
                Ok(buf) => Some(buf),
                Err(e) => {
                    return Err(e);
                },
            }
        } else {
            None
        };
        let data_at: usize = if mask { key_at + 4 } else { key_at };
        let avail = r.available();
        if payload_len > (avail - data_at) as u64 {
            return Err(if r.is_closed() { FrameError::Eof } else { FrameError::WouldBlock });
        }
        let len: usize = payload_len as usize;
        let raw = vstd::slice::slice_subrange(r.unread(), data_at, data_at + len);
        let application_data: Vec<u8> = match masking_key {
            Some(key) => Self::decode_or_encode_masked_data(&key, raw),
            None => vstd::slice::slice_to_vec(raw),
        };
        let frame = Frame {
            fin,
            rsv1,
            rsv2,
            rsv3,
            application_data,
            extension_data: Vec::new(),
            masking_key,
            mask,
            opcode,
        };
        assert(frame@ =~= decoding(input)->Some_0.0);
        r.consume(data_at + len);
        Ok(frame)
    }

    /// The bytes of the frame on the wire.
    pub fn to_bytes(&self) -> (bytes: Vec<u8>)
        requires
            self@.well_formed(),
        ensures
            bytes@ == encoding(self@),
    {
        let mut bytes: Vec<u8> = Vec::new();

        let fin: u8 = if self.fin { 0x80 } else { 0 };
        let rsv1: u8 = if self.rsv1 { 0x40 } else { 0 };
        let rsv2: u8 = if self.rsv2 { 0x20 } else { 0 };
        let rsv3: u8 = if self.rsv3 { 0x10 } else { 0 };
        let nibble: u8 = self.opcode.to_nibble();
        let b0: u8 = fin | rsv1 | rsv2 | rsv3 | nibble;
        assert(b0 == fin + rsv1 + rsv2 + rsv3 + nibble) by (bit_vector)
            requires
                fin == 0x80 || fin == 0,
                rsv1 == 0x40 || rsv1 == 0,
                rsv2 == 0x20 || rsv2 == 0,
                rsv3 == 0x10 || rsv3 == 0,
                nibble < 16,
                b0 == fin | rsv1 | rsv2 | rsv3 | nibble,
        ;
        bytes.push(b0);

        let mask: u8 = if self.mask { 0x80 } else { 0 };
        let total_len: usize = self.application_data.len();
        let field: u8 = if total_len <= 125 {
            total_len as u8
        } else if total_len <= 0xFFFF {
            126
        } else {
            127
        };
        let b1: u8 = mask | field;
        assert(b1 == mask + field) by (bit_vector)
            requires
                mask == 0x80 || mask == 0,
                field < 128,
                b1 == mask | field,
        ;
        bytes.push(b1);
        assert(bytes@ == seq![
            crate::wire::first_byte(self@) as u8,
            crate::wire::second_byte(self@) as u8,
        ]);

        if total_len > 0xFFFF {
            push_big_endian(&mut bytes, total_len as u64, 8);
        } else if total_len > 125 {
            push_big_endian(&mut bytes, total_len as u64, 2);
        }
        match self.masking_key {
            Some(key) => {
                push_all(&mut bytes, key.as_slice());
                let masked_data = Self::decode_or_encode_masked_data(
                    &key,
                    self.application_data.as_slice(),
                );
                push_all(&mut bytes, masked_data.as_slice());
                assert(bytes@ == encoding(self@));
            },
            None => {
                push_all(&mut bytes, self.application_data.as_slice());
                assert(bytes@ == encoding(self@));
            },
        }
        bytes
    }
}

impl Default for Frame {
    /// The frame that carries nothing.
    fn default() -> (frame: Frame)
        ensures
            frame@ == FrameView::blank(),
    {
        let frame = Frame {
            application_data: Vec::new(),
            fin: true,
            extension_data: Vec::new(),
            mask: false,
            masking_key: None,
            opcode: OpCode::Binary,
            rsv1: false,
            rsv2: false,
            rsv3: false,
        };
        assert(frame@ =~= FrameView::blank());
        frame
    }
}

impl vstd::std_specs::convert::TryFromSpecImpl<Frame> for Message {
    /// Two messages with the same content need not be the same value, so
    /// `try_from` promises its result by content, in its own contract.
    open spec fn obeys_try_from_spec() -> bool {
        false
    }

    open spec fn try_from_spec(f: Frame) -> Result<Message, FrameError> {
        match f@.to_message() {
            Ok(content) => Ok(choose|m: Message| m@ == content),
            Err(e) => Err(e),
        }
    }
}

impl TryFrom<Frame> for Message {
    type Error = FrameError;

    /// The message that a frame carries.
    fn try_from(f: Frame) -> (res: Result<Message, FrameError>)
        ensures
            match f@.to_message() {
                Ok(m) => res is Ok && res->Ok_0@ == m,
                Err(e) => res == Err::<Message, FrameError>(e),
            },
    {
        match f.opcode {
            OpCode::Binary => Ok(Message::Binary(f.application_data)),
            OpCode::Text => {
                match string_from_utf8(f.application_data) {
                    Some(s) => {
                        proof {
                            vstd::utf8::encode_utf8_decode_utf8(s@);
                        }
                        Ok(Message::Text(s))
                    },
                    None => Err(FrameError::CantConvertToMessage),
                }
            },
            _ => Err(FrameError::CantConvertToMessage),
        }
    }
}

impl vstd::std_specs::convert::FromSpecImpl<Message> for Frame {
    /// Two frames with the same content need not be the same value, so `from`
    /// promises its result by content, in its own contract.
    open spec fn obeys_from_spec() -> bool {
        false
    }

    open spec fn from_spec(m: Message) -> Frame {
        choose|frame: Frame| frame@ == FrameView::of_message(m@)
    }
}

impl From<Message> for Frame {
    /// The frame that carries a message.
    fn from(m: Message) -> (frame: Frame)
        ensures
            frame@ == FrameView::of_message(m@),
    {
        let (opcode, application_data) = match m {
            Message::Binary(b) => (OpCode::Binary, b),
            Message::Ping => (OpCode::Ping, Vec::new()),
            Message::Pong => (OpCode::Pong, Vec::new()),
            Message::Text(t) => (OpCode::Text, vstd::slice::slice_to_vec(t.as_str().as_bytes())),
        };
        Frame::plain(opcode, application_data)
    }
}

} // verus!
