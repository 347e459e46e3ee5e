//! The wire format of a frame, as mathematics: what bytes a frame becomes and
//! what frame a run of bytes holds.

use vstd::prelude::*;
use crate::frame::{FrameView, OpCode};

verus! {

/// 256 to the power `width`.
pub open spec fn radix_power(width: nat) -> nat
    decreases width,
{
    if width == 0 {
        1
    } else {
        256 * radix_power((width - 1) as nat)
    }
}

/// The `width` low-order base-256 digits of `value`, most significant first.
pub open spec fn big_endian(value: nat, width: nat) -> Seq<u8>
    decreases width,
{
    if width == 0 {
        Seq::empty()
    } else {
        big_endian(value / 256, (width - 1) as nat).push((value % 256) as u8)
    }
}

/// The number whose base-256 digits, most significant first, are `bytes`.
pub open spec fn big_endian_value(bytes: Seq<u8>) -> nat
    decreases bytes.len(),
{
    if bytes.len() == 0 {
        0
    } else {
        big_endian_value(bytes.drop_last()) * 256 + bytes.last() as nat
    }
}

/// `data` with byte `i` XORed with byte `i mod 4` of `key`.
pub open spec fn masked(data: Seq<u8>, key: Seq<u8>) -> Seq<u8> {
    Seq::new(data.len(), |i: int| data[i] ^ key[i % 4])
}

/// The seven-bit length field for a payload of `len` bytes.
pub open spec fn length_field(len: nat) -> nat {
    if len <= 125 {
        len
    } else if len <= 0xFFFF {
        126
    } else {
        127
    }
}

/// The bytes that follow the length field: none, the length in two
/// big-endian bytes, or the length in eight.
pub open spec fn extended_length(len: nat) -> Seq<u8> {
    if len <= 125 {
        Seq::empty()
    } else if len <= 0xFFFF {
        big_endian(len, 2)
    } else {
        big_endian(len, 8)
    }
}

/// 1 for true and 0 for false.
pub open spec fn bit(b: bool) -> nat {
    if b {
        1
    } else {
        0
    }
}

/// Byte 0 of a frame: FIN in bit 7, RSV1 to RSV3 in bits 6 to 4, the opcode below.
pub open spec fn first_byte(f: FrameView) -> nat {
    128 * bit(f.fin) + 64 * bit(f.rsv1) + 32 * bit(f.rsv2) + 16 * bit(f.rsv3) + f.opcode.nibble()
}

/// Byte 1 of a frame: MASK in bit 7, the length field below.
pub open spec fn second_byte(f: FrameView) -> nat {
    128 * bit(f.mask) + length_field(f.application_data.len())
}

/// What follows the header: the key and the masked payload, or the payload as it is.
pub open spec fn body(f: FrameView) -> Seq<u8> {
    match f.masking_key {
        Some(key) => key + masked(f.application_data, key),
        None => f.application_data,
    }
}

/// The bytes of a frame on the wire.
pub open spec fn encoding(f: FrameView) -> Seq<u8> {
    seq![first_byte(f) as u8, second_byte(f) as u8] + extended_length(f.application_data.len())
        + body(f)
}

/// How many bytes of extended length follow a second byte with this length field.
pub open spec fn extended_length_width(field: nat) -> nat {
    if field <= 125 {
        0
    } else if field == 126 {
        2
    } else {
        8
    }
}

/// The payloads of `frames`, one after the other.
pub open spec fn joined_payloads(frames: Seq<FrameView>) -> Seq<u8>
    decreases frames.len(),
{
    if frames.len() == 0 {
        Seq::empty()
    } else {
        joined_payloads(frames.drop_last()) + frames.last().application_data
    }
}

/// The single frame that stands for a message received in fragments: final,
/// unmasked, with the opcode of the first fragment and all payloads joined.
pub open spec fn assembled(frames: Seq<FrameView>) -> FrameView {
    FrameView {
        fin: true,
        rsv1: false,
        rsv2: false,
        rsv3: false,
        opcode: frames[0].opcode,
        mask: false,
        masking_key: None,
        extension_data: Seq::empty(),
        application_data: joined_payloads(frames),
    }
}

/// The frame at the front of `bytes` and the number of bytes it takes, or
/// `None` while the bytes do not yet hold a whole frame.
pub open spec fn decoding(bytes: Seq<u8>) -> Option<(FrameView, nat)> {
    if bytes.len() < 2 {
        None
    } else {
        let b0 = bytes[0] as nat;
        let b1 = bytes[1] as nat;
        let mask = b1 >= 128;
        let field = b1 % 128;
        let key_at = 2 + extended_length_width(field);
        if bytes.len() < key_at {
            None
        } else {
            let len = if field <= 125 {
                field
            } else {
                big_endian_value(bytes.subrange(2, key_at as int))
            };
            let data_at = key_at + if mask { 4nat } else { 0nat };
            if bytes.len() < data_at + len {
                None
            } else {
                let key = bytes.subrange(key_at as int, data_at as int);
                let raw = bytes.subrange(data_at as int, (data_at + len) as int);
                Some(
                    (
                        FrameView {
                            fin: b0 >= 128,
                            rsv1: (b0 / 64) % 2 == 1,
                            rsv2: (b0 / 32) % 2 == 1,
                            rsv3: (b0 / 16) % 2 == 1,
                            opcode: OpCode::of_nibble(b0 % 16),
                            mask,
                            masking_key: if mask { Some(key) } else { None },
                            extension_data: Seq::empty(),
                            application_data: if mask { masked(raw, key) } else { raw },
                        },
                        data_at + len,
                    ),
                )
            }
        }
    }
}

/// The powers of 256 grow with the exponent.
pub proof fn lemma_radix_power_grows(low: nat, high: nat)
    requires
        low <= high,
    ensures
        0 < radix_power(low) <= radix_power(high),
    decreases high,
{
    if high == 0 {
    } else if low == high {
        lemma_radix_power_grows((low - 1) as nat, (high - 1) as nat);
    } else {
        lemma_radix_power_grows(low, (high - 1) as nat);
    }
}

/// The two powers of 256 that bound the extended lengths.
pub proof fn lemma_radix_power_values()
    ensures
        radix_power(2) == 0x1_0000,
        radix_power(8) == 0x1_0000_0000_0000_0000,
{
    reveal_with_fuel(radix_power, 9);
}

/// A number is below 256 to the power of the number of its digits.
pub proof fn lemma_big_endian_value_bound(bytes: Seq<u8>)
    ensures
        big_endian_value(bytes) < radix_power(bytes.len()),
    decreases bytes.len(),
{
    if bytes.len() > 0 {
        lemma_big_endian_value_bound(bytes.drop_last());
    }
}

/// Writing a number in `width` digits and reading the digits back gives the
/// number again, when it is below 256 to the power `width`.
pub proof fn lemma_big_endian_round_trip(value: nat, width: nat)
    requires
        value < radix_power(width),
    ensures
        big_endian(value, width).len() == width,
        big_endian_value(big_endian(value, width)) == value,
    decreases width,
{
    if width > 0 {
        lemma_big_endian_round_trip(value / 256, (width - 1) as nat);
        let digits = big_endian(value, width);
        assert(digits.drop_last() == big_endian(value / 256, (width - 1) as nat));
    }
}

/// Masking twice with one key gives the data back.
pub proof fn lemma_masking_involution(data: Seq<u8>, key: Seq<u8>)
    ensures
        masked(masked(data, key), key) == data,
{
    assert forall|i: int| 0 <= i < data.len() implies masked(masked(data, key), key)[i]
        == data[i] by {
        let d = data[i];
        let k = key[i % 4];
        assert((d ^ k) ^ k == d) by (bit_vector);
    }
    assert(masked(masked(data, key), key) =~= data);
}

/// The low seven bits of the second byte are the payload's length where it
/// is at most 125, 126 where it fits in sixteen bits, and 127 otherwise.
pub proof fn lemma_length_field_selection(f: FrameView)
    ensures
        encoding(f).len() >= 2,
        (encoding(f)[1] & 0x7F) == (if f.application_data.len() <= 125 {
            f.application_data.len()
        } else if f.application_data.len() <= 65535 {
            126
        } else {
            127
        }),
{
    let b1 = encoding(f)[1];
    assert(b1 == second_byte(f) as u8);
    assert((b1 & 0x7F) == b1 % 128) by (bit_vector);
}

/// How many bytes the encoding of a frame takes.
pub proof fn lemma_encoding_len(f: FrameView)
    requires
        f.well_formed(),
    ensures
        encoding(f).len() == 2 + extended_length_width(length_field(f.application_data.len()))
            + (if f.mask { 4nat } else { 0nat }) + f.application_data.len(),
{
    let len = f.application_data.len();
    lemma_radix_power_values();
    if len > 0xFFFF {
        lemma_big_endian_len(len, 8);
    } else if len > 125 {
        lemma_big_endian_len(len, 2);
    }
}

/// A number written in `width` digits takes `width` bytes.
pub proof fn lemma_big_endian_len(value: nat, width: nat)
    ensures
        big_endian(value, width).len() == width,
    decreases width,
{
    if width > 0 {
        lemma_big_endian_len(value / 256, (width - 1) as nat);
    }
}

/// Decoding finds at the front of a frame's encoding, whatever follows it,
/// the frame itself, without its extension data, and takes exactly the
/// encoding's bytes.
pub proof fn lemma_decoding_of_encoding(f: FrameView, rest: Seq<u8>)
    requires
        f.well_formed(),
        f.application_data.len() < 0x1_0000_0000_0000_0000,
    ensures
        decoding(encoding(f) + rest) == Some(
            (FrameView { extension_data: Seq::empty(), ..f }, encoding(f).len()),
        ),
{
    let len = f.application_data.len();
    let enc = encoding(f);
    let bytes = enc + rest;
    let head = seq![first_byte(f) as u8, second_byte(f) as u8];
    let ext = extended_length(len);
    lemma_encoding_len(f);
    lemma_radix_power_values();
    assert(bytes[0] == first_byte(f) as u8);
    assert(bytes[1] == second_byte(f) as u8);
    let field = length_field(len);
    let width = extended_length_width(field);
    let key_at = 2 + width;
    assert(ext.len() == width) by {
        lemma_big_endian_len(len, 2);
        lemma_big_endian_len(len, 8);
    }
    assert(bytes.subrange(2, key_at as int) =~= ext);
    if len > 0xFFFF {
        lemma_big_endian_round_trip(len, 8);
    } else if len > 125 {
        lemma_big_endian_round_trip(len, 2);
    }
    let data_at = key_at + if f.mask { 4nat } else { 0nat };
    match f.masking_key {
        Some(key) => {
            assert(bytes.subrange(key_at as int, data_at as int) =~= key);
            assert(bytes.subrange(data_at as int, (data_at + len) as int) =~= masked(
                f.application_data,
                key,
            ));
            lemma_masking_involution(f.application_data, key);
        },
        None => {
            assert(bytes.subrange(key_at as int, data_at as int) =~= Seq::<u8>::empty());
            assert(bytes.subrange(data_at as int, (data_at + len) as int)
                =~= f.application_data);
        },
    }
    let b0 = first_byte(f);
    assert(b0 % 16 == f.opcode.nibble());
    assert(OpCode::of_nibble(f.opcode.nibble()) == f.opcode);
    assert(decoding(bytes)->Some_0.0 =~= (FrameView { extension_data: Seq::empty(), ..f }));
}

} // verus!
