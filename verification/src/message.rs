//! Payloads on the wire: the disconnect command, the fixed server messages
//! and the decoding of what a client sent.

use vstd::prelude::*;
use vstd::slice::slice_to_vec;
use vstd::string::StringSliceAdditionalSpecFns;
use vstd::utf8::{encode_utf8, valid_utf8};

verus! {

/// Size of the receive buffer: no single read yields more bytes than this.
pub const BUFFER_SIZE: usize = 2048;

/// The bytes of `:end`, the command by which a client leaves.
pub open spec fn end_token() -> Seq<u8> {
    seq![0x3au8, 0x65u8, 0x6eu8, 0x64u8]
}

/// The bytes of `Bye!` followed by a NUL, sent in answer to the disconnect
/// command.
pub open spec fn farewell_bytes() -> Seq<u8> {
    seq![0x42u8, 0x79u8, 0x65u8, 0x21u8, 0u8]
}

/// The greeting as it goes out: the UTF-8 bytes of `msg` followed by a NUL,
/// in the way of the farewell.
pub open spec fn greeting_bytes(msg: Seq<char>) -> Seq<u8> {
    encode_utf8(msg).push(0u8)
}

/// Whether `text` begins with the disconnect command. Only the first four
/// bytes count: `:ending` leaves as `:end` does.
pub open spec fn is_end_command(text: Seq<u8>) -> bool {
    text.len() >= 4 && text.subrange(0, 4) == end_token()
}

/// What one read delivers of `chunk`: at most `BUFFER_SIZE` bytes, from the
/// front.
pub open spec fn clipped(chunk: Seq<u8>) -> Seq<u8> {
    if chunk.len() <= BUFFER_SIZE {
        chunk
    } else {
        chunk.take(BUFFER_SIZE as int)
    }
}

/// The text that `String::from_utf8_lossy` reads out of `bytes`, as UTF-8.
pub uninterp spec fn lossy_text(bytes: Seq<u8>) -> Seq<u8>;

/// Decodes `bytes` with `String::from_utf8_lossy` and hands back the UTF-8
/// bytes of the resulting string. Nothing is proved of the decoding itself.
/// The contract names its result, which depends on `bytes` alone, and takes
/// from the documentation of that function that well-formed UTF-8 comes back
/// as it is; what becomes of ill-formed input is not stated.
#[verifier::external_body]
pub(crate) fn decode_lossy(bytes: &Vec<u8>) -> (text: Vec<u8>)
    ensures
        text@ == lossy_text(bytes@),
        valid_utf8(bytes@) ==> text@ == bytes@,
{
    String::from_utf8_lossy(bytes.as_slice()).into_owned().into_bytes()
}

/// Tests whether `text` begins with the disconnect command.
pub fn starts_with_end(text: &Vec<u8>) -> (found: bool)
    ensures
        found == is_end_command(text@),
{
    if text.len() < 4 {
        return false;
    }
    let found = text[0] == 0x3a && text[1] == 0x65 && text[2] == 0x6e && text[3] == 0x64;
    proof {
        let head = text@.subrange(0, 4);
        assert(head.len() == 4);
        assert(head[0] == text@[0] && head[1] == text@[1] && head[2] == text@[2] && head[3]
            == text@[3]);
        if found {
            assert(head =~= end_token());
        } else {
            assert(end_token()[0] == 0x3au8 && end_token()[1] == 0x65u8 && end_token()[2]
                == 0x6eu8 && end_token()[3] == 0x64u8);
        }
    }
    found
}

/// The greeting payload for the welcome text `server_msg`.
pub fn greeting(server_msg: &str) -> (payload: Vec<u8>)
    ensures
        payload@ == greeting_bytes(server_msg@),
{
    let mut payload = slice_to_vec(server_msg.as_bytes());
    payload.push(0);
    payload
}

/// The farewell payload.
pub fn farewell() -> (payload: Vec<u8>)
    ensures
        payload@ == farewell_bytes(),
{
    let mut payload: Vec<u8> = Vec::new();
    payload.push(0x42);
    payload.push(0x79);
    payload.push(0x65);
    payload.push(0x21);
    payload.push(0);
    assert(payload@ =~= farewell_bytes());
    payload
}

/// Cuts `chunk` down to what one read can deliver.
pub fn clip(chunk: Vec<u8>) -> (message: Vec<u8>)
    ensures
        message@ == clipped(chunk@),
{
    let mut message = chunk;
    if message.len() > BUFFER_SIZE {
        message.truncate(BUFFER_SIZE);
        assert(message@ =~= clipped(chunk@));
    }
    message
}

/// Whether every byte of `bytes` is an ASCII character.
pub open spec fn is_ascii_bytes(bytes: Seq<u8>) -> bool {
    forall|i: int| 0 <= i < bytes.len() ==> #[trigger] bytes[i] < 0x80
}

/// Plain ASCII is well-formed UTF-8, so it passes through decoding as it is.
pub proof fn lemma_ascii_is_valid_utf8(bytes: Seq<u8>)
    requires
        is_ascii_bytes(bytes),
    ensures
        valid_utf8(bytes),
    decreases bytes.len(),
{
    if bytes.len() > 0 {
        let first = bytes[0];
        assert(first < 0x80);
        assert((first & 0x7F) as u32 <= 0x7f) by (bit_vector);
        let rest = bytes.subrange(1, bytes.len() as int);
        assert forall|i: int| 0 <= i < rest.len() implies #[trigger] rest[i] < 0x80 by {
            assert(rest[i] == bytes[i + 1]);
        }
        lemma_ascii_is_valid_utf8(rest);
    }
}

} // verus!
