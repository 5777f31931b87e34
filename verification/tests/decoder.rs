use bili_danmaku::{
    count_fragment, decimal, decode, decode_batch, decode_sub_frame, encode, inflate, split_blob,
    BiliPacket, BoundsError, DecompressionError,
};
use miniz_oxide::deflate::compress_to_vec_zlib;

fn sub_frame(op: u32, text: &[u8]) -> Vec<u8> {
    let payload = compress_to_vec_zlib(text, 6);
    let mut frame = Vec::new();
    frame.extend_from_slice(&((payload.len() + 16) as u32).to_be_bytes());
    frame.extend_from_slice(&[0, 16, 0, 1]);
    frame.extend_from_slice(&op.to_be_bytes());
    frame.extend_from_slice(&[0, 0, 0, 1]);
    frame.extend_from_slice(&payload);
    frame
}

fn raw_frame(op: u32, payload: &[u8]) -> Vec<u8> {
    let mut frame = Vec::new();
    frame.extend_from_slice(&((payload.len() + 16) as u32).to_be_bytes());
    frame.extend_from_slice(&[0, 16, 0, 1]);
    frame.extend_from_slice(&op.to_be_bytes());
    frame.extend_from_slice(&[0, 0, 0, 1]);
    frame.extend_from_slice(payload);
    frame
}

fn texts(items: &[&str]) -> Vec<String> {
    items.iter().map(|item| item.to_string()).collect()
}

#[test]
fn _decode() {
    let buffer = vec![0u8];
    let _ = decode(buffer);
}

#[test]
fn decode_of_short_buffer_is_a_bounds_error() {
    assert_eq!(decode(vec![0u8]), Err(BoundsError));
    assert_eq!(decode(Vec::new()), Err(BoundsError));
    assert_eq!(decode(vec![0u8; 15]), Err(BoundsError));
    assert!(decode(vec![0u8; 16]).is_ok());
}

#[test]
fn decode_reads_the_header() {
    let buffer = vec![
        0, 0, 0, 26, 0, 16, 0, 1, 0, 0, 0, 8, 0, 0, 0, 1, 123, 34, 99, 111, 100, 101, 34, 58, 48,
        125,
    ];
    let packet = decode(buffer).unwrap();
    assert_eq!(
        packet,
        BiliPacket { packet_len: 26, header_len: 16, version: 1, op: 8, seq: 1, body: Vec::new() }
    );
}

#[test]
fn decode_takes_the_header_as_it_stands() {
    let buffer = vec![0xff, 0xff, 0xff, 0xff, 1, 2, 3, 4, 0, 0, 0, 9, 0xa, 0xb, 0xc, 0xd];
    let packet = decode(buffer).unwrap();
    assert_eq!(packet.packet_len, u32::MAX);
    assert_eq!(packet.header_len, 0x0102);
    assert_eq!(packet.version, 0x0304);
    assert_eq!(packet.op, 9);
    assert_eq!(packet.seq, 0x0a0b_0c0d);
    assert!(packet.body.is_empty());
}

#[test]
fn decode_of_popularity_gives_the_count() {
    let buffer = raw_frame(3, &9999u32.to_be_bytes());
    let packet = decode(buffer).unwrap();
    assert_eq!(packet.op, 3);
    assert_eq!(packet.body, texts(&["{\"count\": 9999}"]));
}

#[test]
fn decode_of_popularity_reads_an_unsigned_count() {
    let packet = decode(raw_frame(3, &[0xff, 0xff, 0xff, 0xff, 1, 2])).unwrap();
    assert_eq!(packet.body, texts(&["{\"count\": 4294967295}"]));
    let packet = decode(raw_frame(3, &[0, 0, 0, 0])).unwrap();
    assert_eq!(packet.body, texts(&["{\"count\": 0}"]));
}

#[test]
fn decode_of_popularity_without_count_is_a_bounds_error() {
    assert_eq!(decode(raw_frame(3, &[])), Err(BoundsError));
    assert_eq!(decode(raw_frame(3, &[0, 0, 1])), Err(BoundsError));
    assert_eq!(decode(encode("", 3)), Err(BoundsError));
}

#[test]
fn decode_of_other_opcodes_has_no_body() {
    for op in [0u32, 1, 2, 4, 6, 7, 8, 9, 1000] {
        let packet = decode(raw_frame(op, b"\x00{\"a\":1}")).unwrap();
        assert_eq!(packet.op, op);
        assert!(packet.body.is_empty());
    }
}

#[test]
fn decode_of_one_sub_frame() {
    let buffer = sub_frame(5, b"\x00{\"cmd\":\"DANMU_MSG\"}\x00garbage\x00{\"b\":2}");
    let length = buffer.len();
    let packet = decode(buffer).unwrap();
    assert_eq!(packet.op, 5);
    assert_eq!(packet.packet_len as usize, length);
    assert_eq!(packet.body, texts(&["{\"cmd\":\"DANMU_MSG\"}", "{\"b\":2}"]));
}

#[test]
fn decode_of_concatenated_sub_frames_gathers_every_fragment() {
    let parts: [&[u8]; 4] = [
        b"{\"a\":1}\x00{\"b\":2}",
        b"nothing here",
        b"\x01\x02{\"c\":3}\x03",
        b"{\"d\":4}\x00x\x00{\"e\":5}\x00{\"f\":6}",
    ];
    let mut buffer = Vec::new();
    for part in parts.iter() {
        buffer.extend_from_slice(&sub_frame(5, part));
    }
    let packet = decode(buffer).unwrap();
    assert_eq!(packet.body.len(), 2 + 0 + 1 + 3);
    assert_eq!(
        packet.body,
        texts(&["{\"a\":1}", "{\"b\":2}", "{\"c\":3}", "{\"d\":4}", "{\"e\":5}", "{\"f\":6}"])
    );
}

#[test]
fn decode_dispatches_on_the_first_header_only() {
    let mut buffer = sub_frame(5, b"{\"a\":1}");
    buffer.extend_from_slice(&sub_frame(8, b"{\"b\":2}"));
    let packet = decode(buffer).unwrap();
    assert_eq!(packet.body, texts(&["{\"a\":1}", "{\"b\":2}"]));
}

#[test]
fn decode_skips_a_sub_frame_that_does_not_decompress() {
    let mut buffer = sub_frame(5, b"{\"a\":1}");
    buffer.extend_from_slice(&raw_frame(5, b"{\"plain\":0}"));
    buffer.extend_from_slice(&sub_frame(5, b"{\"b\":2}"));
    let packet = decode(buffer).unwrap();
    assert_eq!(packet.body, texts(&["{\"a\":1}", "{\"b\":2}"]));

    let packet = decode(raw_frame(5, b"")).unwrap();
    assert!(packet.body.is_empty());
}

#[test]
fn decode_skips_a_sub_frame_whose_stream_is_cut_short() {
    let whole = compress_to_vec_zlib(b"{\"a\":1}\x00{\"b\":2}", 6);
    let cut = &whole[..whole.len() - 3];
    let mut buffer = raw_frame(5, cut);
    buffer.extend_from_slice(&sub_frame(5, b"{\"c\":3}"));
    let packet = decode(buffer).unwrap();
    assert_eq!(packet.body, texts(&["{\"c\":3}"]));
}

#[test]
fn decode_of_sub_frame_past_the_end_is_a_bounds_error() {
    let mut buffer = sub_frame(5, b"{\"a\":1}");
    buffer.pop();
    assert_eq!(decode(buffer), Err(BoundsError));

    let mut buffer = sub_frame(5, b"{\"a\":1}");
    let mut second = sub_frame(5, b"{\"b\":2}");
    second[3] += 1;
    buffer.extend_from_slice(&second);
    assert_eq!(decode(buffer), Err(BoundsError));
}

#[test]
fn decode_of_sub_frame_shorter_than_its_header_is_a_bounds_error() {
    let mut buffer = raw_frame(5, b"");
    buffer[3] = 15;
    assert_eq!(decode(buffer), Err(BoundsError));

    let mut buffer = raw_frame(5, b"");
    buffer[3] = 0;
    assert_eq!(decode(buffer), Err(BoundsError));

    let mut buffer = sub_frame(5, b"{\"a\":1}");
    buffer.extend_from_slice(&[0, 0, 0, 0, 0, 16, 0, 1, 0, 0, 0, 5, 0, 0, 0, 1]);
    assert_eq!(decode(buffer), Err(BoundsError));
}

#[test]
fn decode_of_batch_with_stray_bytes_at_the_end_is_a_bounds_error() {
    for extra in 1usize..=3 {
        let mut buffer = sub_frame(5, b"{\"a\":1}");
        buffer.extend_from_slice(&vec![0u8; extra]);
        assert_eq!(decode(buffer), Err(BoundsError));
    }
}

#[test]
fn decode_replaces_ill_formed_utf8() {
    let buffer = sub_frame(5, b"{\"a\":\"\xff\"}\x00\xe5\xbc{\x00\xc3");
    let packet = decode(buffer).unwrap();
    assert_eq!(packet.body, texts(&["{\"a\":\"\u{fffd}\"}", "\u{fffd}{"]));
}

#[test]
fn decode_keeps_text_beyond_ascii() {
    let buffer = sub_frame(5, "{\"msg\":\"弹幕\"}\u{0}{\"uname\":\"观众\"}".as_bytes());
    let packet = decode(buffer).unwrap();
    assert_eq!(packet.body, texts(&["{\"msg\":\"弹幕\"}", "{\"uname\":\"观众\"}"]));
}

#[test]
fn decode_batch_reads_from_the_first_byte() {
    let mut buffer = sub_frame(9, b"{\"a\":1}");
    buffer.extend_from_slice(&sub_frame(9, b"{\"b\":2}\x00{\"c\":3}"));
    assert_eq!(decode_batch(&buffer), Ok(texts(&["{\"a\":1}", "{\"b\":2}", "{\"c\":3}"])));
    assert_eq!(decode_batch(&Vec::new()), Ok(Vec::new()));
    assert_eq!(decode_batch(&vec![0u8, 0, 0]), Err(BoundsError));
}

#[test]
fn decode_sub_frame_unpacks_and_splits() {
    let payload = compress_to_vec_zlib(b"{\"a\":1}\x00garbage\x00{\"b\":2}", 6);
    assert_eq!(decode_sub_frame(&payload), texts(&["{\"a\":1}", "{\"b\":2}"]));
    assert_eq!(decode_sub_frame(b"{\"a\":1}"), Vec::<String>::new());
    assert_eq!(decode_sub_frame(b""), Vec::<String>::new());
}

#[test]
fn split_blob_reads_utf8_and_splits() {
    assert_eq!(
        split_blob(b"{\"a\":1}\x00garbage\x00{\"b\":2}"),
        texts(&["{\"a\":1}", "{\"b\":2}"])
    );
    assert_eq!(split_blob("{\"名\":1}\u{1}欢迎".as_bytes()), texts(&["{\"名\":1}"]));
    assert_eq!(split_blob(b""), Vec::<String>::new());
}

#[test]
fn split_blob_replaces_what_is_no_utf8() {
    assert_eq!(split_blob(b"{\xff}\x00\x80"), texts(&["{\u{fffd}}"]));
    assert_eq!(
        split_blob(b"\xf0\x9f{\x01\xed\xa0\x80{"),
        texts(&["\u{fffd}{", "\u{fffd}\u{fffd}\u{fffd}{"])
    );
}

#[test]
fn inflate_unpacks_a_zlib_stream() {
    let text = b"{\"a\":1}{\"a\":1}{\"a\":1}{\"a\":1}{\"a\":1}{\"a\":1}";
    let packed = compress_to_vec_zlib(text, 6);
    assert_ne!(packed, text.to_vec());
    assert_eq!(inflate(&packed), Ok(text.to_vec()));
    assert_eq!(inflate(&compress_to_vec_zlib(b"", 6)), Ok(Vec::new()));
}

#[test]
fn inflate_of_what_is_no_zlib_stream_is_an_error() {
    assert_eq!(inflate(b"{\"a\":1}"), Err(DecompressionError));
    assert_eq!(inflate(b""), Err(DecompressionError));
    let mut packed = compress_to_vec_zlib(b"{\"a\":1}", 6);
    let last = packed.len() - 1;
    packed[last] ^= 0xff;
    assert_eq!(inflate(&packed), Err(DecompressionError));
}

#[test]
fn decimal_writes_without_leading_zeros() {
    assert_eq!(decimal(0), "0");
    assert_eq!(decimal(7), "7");
    assert_eq!(decimal(10), "10");
    assert_eq!(decimal(9999), "9999");
    assert_eq!(decimal(1_000_000), "1000000");
    assert_eq!(decimal(4_294_967_295), "4294967295");
    for n in [1u32, 9, 11, 99, 100, 101, 12345, 2_147_483_648] {
        assert_eq!(decimal(n), n.to_string());
    }
}

#[test]
fn count_fragment_wraps_the_count() {
    assert_eq!(count_fragment(9999), "{\"count\": 9999}");
    assert_eq!(count_fragment(0), "{\"count\": 0}");
}

#[test]
fn decode_of_many_sub_frames_agrees_with_their_parts() {
    let mut state: u64 = 0x9e37_79b9_7f4a_7c15;
    for round in 0..40 {
        let mut buffer = Vec::new();
        let mut expected = Vec::new();
        let frames = 1 + round % 5;
        for _ in 0..frames {
            let mut text = String::new();
            let objects = 1 + (state >> 40) as usize % 4;
            for index in 0..objects {
                state = state.wrapping_mul(6364136223846793005).wrapping_add(1442695040888963407);
                if (state >> 62) == 0 {
                    text.push_str("noise");
                } else {
                    let object = format!("{{\"n\":{}}}", state >> 48);
                    expected.push(object.clone());
                    text.push_str(&object);
                }
                if index + 1 < objects {
                    text.push('\u{0}');
                }
            }
            buffer.extend_from_slice(&sub_frame(5, text.as_bytes()));
        }
        let packet = decode(buffer).unwrap();
        assert_eq!(packet.body, expected);
    }
}
