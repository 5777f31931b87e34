//! Outbound frames: a 16-byte header followed by the payload as it is.

use crate::frame::{
    header_bytes, lemma_header_len, HEADER_LEN, OP_HEARTBEAT, OP_JOIN, PROTOCOL_VERSION, SEQUENCE,
};
use crate::int_codec::{be_bytes, lemma_be_bytes_of_remainder, lemma_pow256_values, write_int};
use crate::text::{decimal, decimal_digits};
use vstd::prelude::*;
use vstd::utf8::encode_utf8;

verus! {

/// The frame that carries `payload` under opcode `op`.
pub open spec fn encode_spec(payload: Seq<u8>, op: nat) -> Seq<u8> {
    header_bytes(HEADER_LEN as nat + payload.len(), op) + payload
}

/// Builds the frame that carries the UTF-8 bytes of `raw_str`, uncompressed,
/// under opcode `op`.
pub fn encode(raw_str: &str, op: u32) -> (packet: Vec<u8>)
    ensures
        packet@ == encode_spec(encode_utf8(raw_str@), op as nat),
        packet@.len() == HEADER_LEN + encode_utf8(raw_str@).len(),
{
    let data = raw_str.as_bytes();
    let total: u32 = ((data.len() as u128 + HEADER_LEN as u128) % 0x1_0000_0000) as u32;
    let header: Vec<u8> = vec![0u8; 16];
    let header = write_int(header, 0, 4, total);
    let header = write_int(header, 4, 2, HEADER_LEN as u32);
    let header = write_int(header, 6, 2, PROTOCOL_VERSION as u32);
    let header = write_int(header, 8, 4, op);
    let mut packet = write_int(header, 12, 4, SEQUENCE);
    proof {
        let exact = HEADER_LEN as nat + data@.len();
        lemma_pow256_values();
        lemma_be_bytes_of_remainder(exact, 4);
        lemma_header_len(exact, op as nat);
    }
    packet.extend_from_slice(data);
    packet
}

/// The payload of the request to join room `room_id`.
pub open spec fn join_text(room_id: nat) -> Seq<char> {
    seq!['{', '"', 'r', 'o', 'o', 'm', 'i', 'd', '"', ':', ' '] + decimal_digits(room_id) + seq![
        '}',
    ]
}

/// Builds the heartbeat frame: a header with opcode 2 and nothing after it.
pub fn heartbeat() -> (packet: Vec<u8>)
    ensures
        packet@ == seq![0u8, 0, 0, 16, 0, 16, 0, 1, 0, 0, 0, 2, 0, 0, 0, 1],
{
    let packet = encode("", OP_HEARTBEAT);
    proof {
        reveal_strlit("");
        reveal_with_fuel(be_bytes, 5);
    }
    packet
}

/// Builds the frame that asks to join room `room_id`: opcode 7 with a JSON
/// object that names the room.
pub fn join_room(room_id: u32) -> (packet: Vec<u8>)
    ensures
        packet@ == encode_spec(encode_utf8(join_text(room_id as nat)), OP_JOIN as nat),
{
    proof {
        reveal_strlit("{\"roomid\": ");
        reveal_strlit("}");
    }
    let digits = decimal(room_id);
    let text = String::from_str("{\"roomid\": ").concat(digits.as_str()).concat("}");
    assert(text@ =~= join_text(room_id as nat));
    encode(text.as_str(), OP_JOIN)
}

} // verus!
