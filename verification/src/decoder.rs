//! Inbound frames: the header, and the body that the opcode calls for.

use crate::encoder::encode_spec;
use crate::frame::{
    field, lemma_header_fields, lemma_header_len, HEADER_LEN, OP_MESSAGE_BATCH, OP_POPULARITY,
    PROTOCOL_VERSION, SEQUENCE,
};
use crate::inflate::{inflate, zlib_inflated};
use crate::int_codec::{be_value, lemma_be_value_bound, lemma_pow256_values, read_int, BoundsError};
use crate::fragments::{has_brace, lemma_fragments_hold_brace, message_fragments, text_views};
use crate::splitter::split_messages;
use crate::text::{decimal, decimal_digits, from_utf8_lossy, utf8_lossy};
use vstd::prelude::*;
use vstd::slice::slice_subrange;
use vstd::utf8::{decode_utf8, encode_utf8, valid_utf8};

verus! {

/// A decoded frame: the fields of its header and the texts of its body.
#[derive(Debug, PartialEq, Eq)]
pub struct BiliPacket {
    pub packet_len: u32,
    pub header_len: u16,
    pub version: u16,
    pub op: u32,
    pub seq: u32,
    pub body: Vec<String>,
}

/// A packet as plain numbers and texts.
pub ghost struct PacketView {
    pub packet_len: nat,
    pub header_len: nat,
    pub version: nat,
    pub op: nat,
    pub seq: nat,
    pub body: Seq<Seq<char>>,
}

impl PacketView {
    /// What holds of every decoded packet: only a batch of messages and a
    /// viewer count have a body; each text of a batch holds an opening
    /// brace; a viewer count has one text, made from the count.
    pub open spec fn wf(self) -> bool {
        &&& self.op != OP_MESSAGE_BATCH && self.op != OP_POPULARITY ==> self.body.len() == 0
        &&& self.op == OP_MESSAGE_BATCH ==> forall|i: int|
            0 <= i < self.body.len() ==> has_brace(#[trigger] self.body[i])
        &&& self.op == OP_POPULARITY ==> exists|count: nat|
            count <= u32::MAX && self.body == seq![#[trigger] count_text(count)]
    }
}

impl View for BiliPacket {
    type V = PacketView;

    open spec fn view(&self) -> PacketView {
        PacketView {
            packet_len: self.packet_len as nat,
            header_len: self.header_len as nat,
            version: self.version as nat,
            op: self.op as nat,
            seq: self.seq as nat,
            body: text_views(self.body@),
        }
    }
}

/// The text that stands for a viewer count of `count`.
pub open spec fn count_text(count: nat) -> Seq<char> {
    seq!['{', '"', 'c', 'o', 'u', 'n', 't', '"', ':', ' '] + decimal_digits(count) + seq!['}']
}

/// The texts that one sub-frame with payload `payload` adds to the body:
/// those of the decompressed text, or none where decompression fails.
pub open spec fn sub_frame_fragments(payload: Seq<u8>) -> Seq<Seq<char>> {
    match zlib_inflated(payload) {
        Some(raw) => message_fragments(utf8_lossy(raw)),
        None => Seq::empty(),
    }
}

/// `texts` in front of what `rest` holds, or the error of `rest`.
pub open spec fn prepend(
    texts: Seq<Seq<char>>,
    rest: Result<Seq<Seq<char>>, BoundsError>,
) -> Result<Seq<Seq<char>>, BoundsError> {
    match rest {
        Ok(more) => Ok(texts + more),
        Err(e) => Err(e),
    }
}

/// The body of a batch whose sub-frames start at `offset` in `bytes`: the
/// texts of each sub-frame in turn. A sub-frame must hold its own header and
/// end inside `bytes`.
pub open spec fn batch_body(bytes: Seq<u8>, offset: int) -> Result<Seq<Seq<char>>, BoundsError>
    decreases bytes.len() - offset,
{
    if offset >= bytes.len() {
        Ok(Seq::empty())
    } else if offset < 0 || offset + 4 > bytes.len() {
        Err(BoundsError)
    } else {
        let sub_len = field(bytes, offset, 4);
        if sub_len < HEADER_LEN || offset + sub_len > bytes.len() {
            Err(BoundsError)
        } else {
            prepend(
                sub_frame_fragments(bytes.subrange(offset + HEADER_LEN, offset + sub_len)),
                batch_body(bytes, offset + sub_len),
            )
        }
    }
}

/// The body of the frame `bytes`, which holds a whole header, under opcode
/// `op`.
pub open spec fn body_spec(bytes: Seq<u8>, op: nat) -> Result<Seq<Seq<char>>, BoundsError> {
    if op == OP_MESSAGE_BATCH {
        batch_body(bytes, 0)
    } else if op == OP_POPULARITY {
        if bytes.len() < HEADER_LEN + 4 {
            Err(BoundsError)
        } else {
            Ok(seq![count_text(field(bytes, HEADER_LEN as int, 4))])
        }
    } else {
        Ok(Seq::empty())
    }
}

/// The packet that `bytes` holds, or the error where the header or a length
/// in it reaches past the end of `bytes`.
pub open spec fn decode_spec(bytes: Seq<u8>) -> Result<PacketView, BoundsError> {
    if bytes.len() < HEADER_LEN {
        Err(BoundsError)
    } else {
        match body_spec(bytes, field(bytes, 8, 4)) {
            Ok(body) => Ok(
                PacketView {
                    packet_len: field(bytes, 0, 4),
                    header_len: field(bytes, 4, 2),
                    version: field(bytes, 6, 2),
                    op: field(bytes, 8, 4),
                    seq: field(bytes, 12, 4),
                    body,
                },
            ),
            Err(e) => Err(e),
        }
    }
}

/// Every text that a sub-frame adds to the body holds an opening brace.
pub proof fn lemma_sub_frame_fragments_hold_brace(payload: Seq<u8>)
    ensures
        forall|i: int|
            0 <= i < sub_frame_fragments(payload).len() ==> has_brace(
                #[trigger] sub_frame_fragments(payload)[i],
            ),
{
    if let Some(raw) = zlib_inflated(payload) {
        lemma_fragments_hold_brace(utf8_lossy(raw));
    }
}

/// Every text in the body of a batch holds an opening brace.
pub proof fn lemma_batch_body_holds_brace(bytes: Seq<u8>, offset: int)
    ensures
        batch_body(bytes, offset) matches Ok(body) ==> forall|i: int|
            0 <= i < body.len() ==> has_brace(#[trigger] body[i]),
    decreases bytes.len() - offset,
{
    if 0 <= offset < bytes.len() && offset + 4 <= bytes.len() {
        let sub_len = field(bytes, offset, 4);
        if sub_len >= HEADER_LEN && offset + sub_len <= bytes.len() {
            lemma_sub_frame_fragments_hold_brace(
                bytes.subrange(offset + HEADER_LEN, offset + sub_len),
            );
            lemma_batch_body_holds_brace(bytes, offset + sub_len);
        }
    }
}

/// Every packet that decoding yields is well-formed.
pub proof fn lemma_decoded_wf(bytes: Seq<u8>)
    ensures
        decode_spec(bytes) matches Ok(packet) ==> packet.wf(),
{
    if bytes.len() >= HEADER_LEN {
        let op = field(bytes, 8, 4);
        if op == OP_MESSAGE_BATCH {
            lemma_batch_body_holds_brace(bytes, 0);
        } else if op == OP_POPULARITY && bytes.len() >= HEADER_LEN + 4 {
            // The count is four bytes wide, so it is the count that the one
            // text of the body was made from.
            let count = field(bytes, HEADER_LEN as int, 4);
            lemma_be_value_bound(bytes.subrange(HEADER_LEN as int, HEADER_LEN + 4));
            lemma_pow256_values();
            assert(body_spec(bytes, op) == Ok::<Seq<Seq<char>>, BoundsError>(
                seq![count_text(count)],
            ));
        }
    }
}

/// Builds the text that stands for a viewer count of `count`.
pub fn count_fragment(count: u32) -> (text: String)
    ensures
        text@ == count_text(count as nat),
{
    proof {
        reveal_strlit("{\"count\": ");
        reveal_strlit("}");
    }
    let digits = decimal(count);
    String::from_str("{\"count\": ").concat(digits.as_str()).concat("}")
}

/// Reads the decompressed bytes `blob` as text, with U+FFFD in place of what
/// is no UTF-8, and splits the text into its fragments.
pub fn split_blob(blob: &[u8]) -> (fragments: Vec<String>)
    ensures
        text_views(fragments@) == message_fragments(utf8_lossy(blob@)),
        valid_utf8(blob@) ==> text_views(fragments@) == message_fragments(decode_utf8(blob@)),
{
    let text = from_utf8_lossy(blob);
    split_messages(text.as_str())
}

/// Decodes the payload of one sub-frame: decompresses it, reads the result as
/// text and splits the text. A payload that does not decompress gives no text.
pub fn decode_sub_frame(payload: &[u8]) -> (fragments: Vec<String>)
    ensures
        text_views(fragments@) == sub_frame_fragments(payload@),
{
    match inflate(payload) {
        Ok(raw) => split_blob(raw.as_slice()),
        Err(_) => Vec::new(),
    }
}

/// Decodes the sub-frames that `buffer` is made of, from its first byte on,
/// and gathers their texts in order.
pub fn decode_batch(buffer: &Vec<u8>) -> (r: Result<Vec<String>, BoundsError>)
    ensures
        match r {
            Ok(body) => batch_body(buffer@, 0) == Ok::<Seq<Seq<char>>, BoundsError>(
                text_views(body@),
            ),
            Err(e) => batch_body(buffer@, 0) == Err::<Seq<Seq<char>>, BoundsError>(e),
        },
{
    let n = buffer.len();
    let mut body: Vec<String> = Vec::new();
    let mut offset: usize = 0;
    while offset < n
        invariant
            n == buffer.len(),
            offset <= n,
            batch_body(buffer@, 0) == prepend(
                text_views(body@),
                batch_body(buffer@, offset as int),
            ),
        decreases n - offset,
    {
        let sub_len = match read_int(buffer, offset, 4) {
            Ok(value) => value as usize,
            Err(e) => {
                return Err(e);
            },
        };
        if sub_len < HEADER_LEN || sub_len > n - offset {
            return Err(BoundsError);
        }
        let payload = slice_subrange(buffer.as_slice(), offset + HEADER_LEN, offset + sub_len);
        let mut fragments = decode_sub_frame(payload);
        let ghost before = body@;
        let ghost added = fragments@;
        body.append(&mut fragments);
        proof {
            let rest = batch_body(buffer@, offset + sub_len);
            if let Ok(more) = rest {
                assert(text_views(before) + (text_views(added) + more) =~= text_views(body@)
                    + more);
            }
        }
        offset += sub_len;
    }
    Ok(body)
}

/// Decodes the frame in `buffer`: reads the header and, as the opcode says,
/// the texts of a batch of messages or the viewer count. Other opcodes have
/// no body. Fails where the header, the count or a sub-frame does not lie
/// inside `buffer`.
pub fn decode(buffer: Vec<u8>) -> (r: Result<BiliPacket, BoundsError>)
    ensures
        match r {
            Ok(packet) => decode_spec(buffer@) == Ok::<PacketView, BoundsError>(packet@)
                && packet@.wf(),
            Err(e) => decode_spec(buffer@) == Err::<PacketView, BoundsError>(e),
        },
{
    proof {
        lemma_decoded_wf(buffer@);
    }
    if buffer.len() < HEADER_LEN {
        return Err(BoundsError);
    }
    let packet_len = read_int(&buffer, 0, 4)?;
    let header_len = read_int(&buffer, 4, 2)?;
    let version = read_int(&buffer, 6, 2)?;
    let op = read_int(&buffer, 8, 4)?;
    let seq = read_int(&buffer, 12, 4)?;
    proof {
        lemma_pow256_values();
        lemma_be_value_bound(buffer@.subrange(4, 6));
        lemma_be_value_bound(buffer@.subrange(6, 8));
    }
    let body = if op == OP_MESSAGE_BATCH {
        decode_batch(&buffer)?
    } else if op == OP_POPULARITY {
        let count = read_int(&buffer, HEADER_LEN, 4)?;
        let mut body: Vec<String> = Vec::new();
        body.push(count_fragment(count));
        assert(text_views(body@) =~= seq![count_text(count as nat)]);
        body
    } else {
        let body: Vec<String> = Vec::new();
        assert(text_views(body@) =~= Seq::<Seq<char>>::empty());
        body
    };
    Ok(
        BiliPacket {
            packet_len,
            header_len: header_len as u16,
            version: version as u16,
            op,
            seq,
            body,
        },
    )
}

/// Round trip: a frame that `encode` built decodes to a packet with the
/// opcode it was built with and a total length of 16 plus the length of the
/// payload, as long as that total fits the 32 bits of its field. A frame with
/// the opcode of a viewer count must carry the four bytes of the count.
pub proof fn lemma_decode_encode(payload: Seq<u8>, op: nat)
    requires
        op <= u32::MAX,
        HEADER_LEN + payload.len() <= u32::MAX,
        op == OP_POPULARITY ==> payload.len() >= 4,
    ensures
        decode_spec(encode_spec(payload, op)) is Ok,
        decode_spec(encode_spec(payload, op))->Ok_0.op == op,
        decode_spec(encode_spec(payload, op))->Ok_0.packet_len == HEADER_LEN + payload.len(),
        decode_spec(encode_spec(payload, op))->Ok_0.header_len == HEADER_LEN,
        decode_spec(encode_spec(payload, op))->Ok_0.version == PROTOCOL_VERSION,
        decode_spec(encode_spec(payload, op))->Ok_0.seq == SEQUENCE,
        decode_spec(encode_spec(payload, op))->Ok_0.body == if op == OP_MESSAGE_BATCH {
            sub_frame_fragments(payload)
        } else if op == OP_POPULARITY {
            seq![count_text(be_value(payload.subrange(0, 4)))]
        } else {
            Seq::empty()
        },
{
    let total = HEADER_LEN as nat + payload.len();
    let frame = encode_spec(payload, op);
    lemma_header_len(total, op);
    lemma_header_fields(total, op, payload);
    if op == OP_MESSAGE_BATCH {
        assert(frame.subrange(HEADER_LEN as int, total as int) =~= payload);
        assert(batch_body(frame, total as int) == Ok::<Seq<Seq<char>>, BoundsError>(Seq::empty()));
    } else if op == OP_POPULARITY {
        assert(frame.subrange(HEADER_LEN as int, HEADER_LEN + 4) =~= payload.subrange(0, 4));
    }
}

/// Round trip for texts: the frame that `encode` builds for `text` under
/// `op` decodes to a packet with that opcode and with a total length of 16
/// plus the number of bytes of `text` in UTF-8.
pub proof fn lemma_decode_encoded_text(text: Seq<char>, op: nat)
    requires
        op <= u32::MAX,
        HEADER_LEN + encode_utf8(text).len() <= u32::MAX,
        op == OP_POPULARITY ==> encode_utf8(text).len() >= 4,
    ensures
        decode_spec(encode_spec(encode_utf8(text), op)) is Ok,
        decode_spec(encode_spec(encode_utf8(text), op))->Ok_0.op == op,
        decode_spec(encode_spec(encode_utf8(text), op))->Ok_0.packet_len == HEADER_LEN
            + encode_utf8(text).len(),
{
    lemma_decode_encode(encode_utf8(text), op);
}

/// Whether `frame` is one whole sub-frame: it holds a header, and the length
/// that the header declares is its own.
pub open spec fn is_sub_frame(frame: Seq<u8>) -> bool {
    frame.len() >= HEADER_LEN && field(frame, 0, 4) == frame.len()
}

/// The texts that the sub-frame `frame` adds to the body of a batch.
pub open spec fn sub_frame_texts(frame: Seq<u8>) -> Seq<Seq<char>> {
    sub_frame_fragments(frame.subrange(HEADER_LEN as int, frame.len() as int))
}

/// The number of texts that the sub-frames `frames` add to a body, together.
pub open spec fn count_texts(frames: Seq<Seq<u8>>) -> nat
    decreases frames.len(),
{
    if frames.len() == 0 {
        0
    } else {
        sub_frame_texts(frames.first()).len() + count_texts(frames.drop_first())
    }
}

/// Sub-frames that follow the first `done.len()` bytes of a buffer, one after
/// another and up to its end, decode to their texts in order.
pub proof fn lemma_batch_of_frames(done: Seq<u8>, frames: Seq<Seq<u8>>)
    requires
        forall|i: int| 0 <= i < frames.len() ==> is_sub_frame(#[trigger] frames[i]),
    ensures
        batch_body(done + frames.flatten(), done.len() as int) == Ok::<
            Seq<Seq<char>>,
            BoundsError,
        >(frames.map_values(|frame: Seq<u8>| sub_frame_texts(frame)).flatten()),
        frames.map_values(|frame: Seq<u8>| sub_frame_texts(frame)).flatten().len() == count_texts(
            frames,
        ),
    decreases frames.len(),
{
    let texts = frames.map_values(|frame: Seq<u8>| sub_frame_texts(frame));
    let bytes = done + frames.flatten();
    if frames.len() > 0 {
        let first = frames.first();
        let rest = frames.drop_first();
        let offset = done.len() as int;
        lemma_batch_of_frames(done + first, rest);
        assert(bytes =~= (done + first) + rest.flatten());
        assert(bytes.subrange(offset, offset + 4) =~= first.subrange(0, 4));
        assert(bytes.subrange(offset + HEADER_LEN, offset + first.len()) =~= first.subrange(
            HEADER_LEN as int,
            first.len() as int,
        ));
        assert(texts.drop_first() =~= rest.map_values(|frame: Seq<u8>| sub_frame_texts(frame)));
    }
}

/// A buffer made of whole sub-frames, one after another, the first of which
/// carries the opcode of a batch, decodes to a packet whose body holds the
/// texts of each sub-frame in turn: as many as the sub-frames add together.
pub proof fn lemma_decode_concatenated_frames(frames: Seq<Seq<u8>>)
    requires
        frames.len() >= 1,
        forall|i: int| 0 <= i < frames.len() ==> is_sub_frame(#[trigger] frames[i]),
        field(frames[0], 8, 4) == OP_MESSAGE_BATCH,
    ensures
        decode_spec(frames.flatten()) is Ok,
        decode_spec(frames.flatten())->Ok_0.body == frames.map_values(
            |frame: Seq<u8>| sub_frame_texts(frame),
        ).flatten(),
        decode_spec(frames.flatten())->Ok_0.body.len() == count_texts(frames),
{
    let bytes = frames.flatten();
    let first = frames.first();
    lemma_batch_of_frames(Seq::empty(), frames);
    assert(bytes.subrange(8, 12) =~= first.subrange(8, 12));
}

} // verus!
