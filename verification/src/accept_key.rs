//! The value of `Sec-WebSocket-Accept`: the Base64 text of the SHA-1 digest
//! of the client's key followed by a fixed identifier.

use vstd::prelude::*;
use crate::text::{ascii, ascii_bytes, push_all};

verus! {

/// The SHA-1 digest of `data`, as `Sha1::digest` of the sha1 crate gives it.
pub uninterp spec fn sha1_digest(data: Seq<u8>) -> Seq<u8>;

/// The Base64 text of `data`, as `base64::encode` gives it.
pub uninterp spec fn base64_encoding(data: Seq<u8>) -> Seq<u8>;

/// Hashes `data` with `Sha1::new`, `Sha1::update` and `Sha1::digest` of the
/// sha1 crate and hands out the digest's twenty bytes. The digest depends on
/// the data alone. The crate counts the data's bits in 64 bits, hence the bound.
#[verifier::external_body]
fn sha1_of(data: &[u8]) -> (digest: [u8; 20])
    requires
        data@.len() < 0x2000_0000_0000_0000,
    ensures
        digest@ == sha1_digest(data@),
{
    let mut hasher = sha1::Sha1::new();
    hasher.update(data);
    hasher.digest().bytes()
}

/// Encodes `data` with `base64::encode` and hands out the text's bytes. The
/// text depends on the data alone. The crate computes the text's length in
/// `usize`, four characters for every three bytes begun, hence the bound.
#[verifier::external_body]
fn base64_of(data: &[u8]) -> (text: Vec<u8>)
    requires
        4 * ((data@.len() + 2) / 3) <= usize::MAX,
    ensures
        text@ == base64_encoding(data@),
{
    base64::encode(data).into_bytes()
}

/// The identifier that every server appends to the client's key.
pub open spec fn magic() -> Seq<u8> {
    ascii("258EAFA5-E914-47DA-95CA-C5AB0DC85B11"@)
}

/// The accept value that answers the key `key`.
pub open spec fn accept_key(key: Seq<u8>) -> Seq<u8> {
    base64_encoding(sha1_digest(key + magic()))
}

/// The longest key, in bytes, that can be answered.
pub const MAX_KEY_LEN: u64 = 0x1FFF_FFFF_FFFF_FFDB;

/// Computes the accept value that answers the key `key`.
pub fn make_accept_key(key: &[u8]) -> (accept: Vec<u8>)
    requires
        key@.len() <= MAX_KEY_LEN,
    ensures
        accept@ == accept_key(key@),
{
    proof {
        reveal_strlit("258EAFA5-E914-47DA-95CA-C5AB0DC85B11");
    }
    let magic = ascii_bytes("258EAFA5-E914-47DA-95CA-C5AB0DC85B11");
    let mut res: Vec<u8> = vstd::slice::slice_to_vec(key);
    push_all(&mut res, magic);
    let digest = sha1_of(res.as_slice());
    base64_of(digest.as_slice())
}

} // verus!
