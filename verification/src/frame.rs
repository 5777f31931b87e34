//! The layout that every frame and sub-frame shares: a 16-byte header of
//! big-endian fields, and the opcodes that the header may carry.

use crate::int_codec::{
    be_bytes, be_value, lemma_be_bytes_len, lemma_be_round_trip, lemma_pow256_values,
};
use vstd::prelude::*;

verus! {

/// The length of the header that starts every frame and sub-frame.
pub const HEADER_LEN: usize = 16;

/// The protocol version that every header carries.
pub const PROTOCOL_VERSION: u16 = 1;

/// The sequence number that every header carries.
pub const SEQUENCE: u32 = 1;

/// Opcode of a heartbeat, which the client sends with an empty payload.
pub const OP_HEARTBEAT: u32 = 2;

/// Opcode of a viewer count: four bytes right after the header.
pub const OP_POPULARITY: u32 = 3;

/// Opcode of a batch of messages: compressed sub-frames, one after another.
pub const OP_MESSAGE_BATCH: u32 = 5;

/// Opcode of the request to join a room, which the client sends.
pub const OP_JOIN: u32 = 7;

/// Opcode of the server's answer to a request to join.
pub const OP_JOIN_ACK: u32 = 8;

/// The header of a frame of `total` bytes with opcode `op`: total length at
/// 0, header length at 4, protocol version at 6, opcode at 8 and sequence
/// number at 12, each big-endian. A total beyond 32 bits keeps its low-order
/// 32 bits.
pub open spec fn header_bytes(total: nat, op: nat) -> Seq<u8> {
    be_bytes(total, 4) + be_bytes(HEADER_LEN as nat, 2) + be_bytes(PROTOCOL_VERSION as nat, 2)
        + be_bytes(op, 4) + be_bytes(SEQUENCE as nat, 4)
}

/// The big-endian integer in the `len` bytes of `bytes` from `start` on.
pub open spec fn field(bytes: Seq<u8>, start: int, len: int) -> nat {
    be_value(bytes.subrange(start, start + len))
}

/// A header is 16 bytes long.
pub proof fn lemma_header_len(total: nat, op: nat)
    ensures
        header_bytes(total, op).len() == HEADER_LEN,
{
    lemma_be_bytes_len(total, 4);
    lemma_be_bytes_len(HEADER_LEN as nat, 2);
    lemma_be_bytes_len(PROTOCOL_VERSION as nat, 2);
    lemma_be_bytes_len(op, 4);
    lemma_be_bytes_len(SEQUENCE as nat, 4);
}

/// The fields of the header that `header_bytes` lays out read back as they
/// were written, whatever follows the header.
pub proof fn lemma_header_fields(total: nat, op: nat, payload: Seq<u8>)
    requires
        total <= u32::MAX,
        op <= u32::MAX,
    ensures
        field(header_bytes(total, op) + payload, 0, 4) == total,
        field(header_bytes(total, op) + payload, 4, 2) == HEADER_LEN,
        field(header_bytes(total, op) + payload, 6, 2) == PROTOCOL_VERSION,
        field(header_bytes(total, op) + payload, 8, 4) == op,
        field(header_bytes(total, op) + payload, 12, 4) == SEQUENCE,
{
    let frame = header_bytes(total, op) + payload;
    lemma_pow256_values();
    lemma_be_bytes_len(total, 4);
    lemma_be_bytes_len(HEADER_LEN as nat, 2);
    lemma_be_bytes_len(PROTOCOL_VERSION as nat, 2);
    lemma_be_bytes_len(op, 4);
    lemma_be_bytes_len(SEQUENCE as nat, 4);
    lemma_be_round_trip(total, 4);
    lemma_be_round_trip(HEADER_LEN as nat, 2);
    lemma_be_round_trip(PROTOCOL_VERSION as nat, 2);
    lemma_be_round_trip(op, 4);
    lemma_be_round_trip(SEQUENCE as nat, 4);
    assert(frame.subrange(0, 4) =~= be_bytes(total, 4));
    assert(frame.subrange(4, 6) =~= be_bytes(HEADER_LEN as nat, 2));
    assert(frame.subrange(6, 8) =~= be_bytes(PROTOCOL_VERSION as nat, 2));
    assert(frame.subrange(8, 12) =~= be_bytes(op, 4));
    assert(frame.subrange(12, 16) =~= be_bytes(SEQUENCE as nat, 4));
}

} // verus!
