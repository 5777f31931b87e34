//! Codec for the framed binary packets of a live-chat ("danmaku") stream.
//!
//! Every frame starts with a 16-byte big-endian header. Outbound frames carry
//! their payload as plain UTF-8; an inbound batch frame is a run of
//! sub-frames, each holding zlib-compressed text in which several JSON
//! objects stand side by side, separated by control bytes.

pub mod decoder;
pub mod dispatch;
pub mod encoder;
pub mod fragments;
pub mod frame;
pub mod inflate;
pub mod int_codec;
pub mod segments;
pub mod splitter;
pub mod text;

pub use decoder::{
    count_fragment, decode, decode_batch, decode_sub_frame, split_blob, BiliPacket,
};
pub use dispatch::{
    next_step, packet_kind, parse_command, Command, PacketKind, Reading, Step,
};
pub use encoder::{encode, heartbeat, join_room};
pub use inflate::{inflate, DecompressionError};
pub use int_codec::{read_int, write_int, BoundsError};
pub use splitter::split_messages;
pub use text::decimal;
