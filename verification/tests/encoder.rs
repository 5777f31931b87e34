use bili_danmaku::{decode, encode, heartbeat, join_room};

#[test]
fn _encode() {
    let raw_str = "{\"roomid\":3470615}";
    let _ok = vec![0u8, 0, 0, 34, 0, 16, 0, 1, 0, 0, 0, 7, 0, 0, 0, 1, 123, 34, 114, 111, 111, 109, 105, 100, 34, 58, 51, 52, 55, 48, 54, 49, 53, 125];
    assert_eq!(encode(raw_str, 7), _ok);
}

#[test]
fn encode_of_empty_heartbeat() {
    assert_eq!(encode("", 2), vec![0u8, 0, 0, 16, 0, 16, 0, 1, 0, 0, 0, 2, 0, 0, 0, 1]);
    assert_eq!(heartbeat(), vec![0u8, 0, 0, 16, 0, 16, 0, 1, 0, 0, 0, 2, 0, 0, 0, 1]);
}

#[test]
fn encode_of_room_join() {
    let packet = encode("{\"roomid\":3470615}", 7);
    assert_eq!(&packet[..16], &[0u8, 0, 0, 34, 0, 16, 0, 1, 0, 0, 0, 7, 0, 0, 0, 1][..]);
    assert_eq!(&packet[16..], "{\"roomid\":3470615}".as_bytes());
}

#[test]
fn encode_writes_the_opcode_in_four_bytes() {
    let packet = encode("", 0x0102_0304);
    assert_eq!(&packet[8..12], &[1u8, 2, 3, 4][..]);
    let packet = encode("", 300);
    assert_eq!(&packet[8..12], &[0u8, 0, 1, 44][..]);
}

#[test]
fn encode_counts_bytes_not_characters() {
    let packet = encode("弹幕", 7);
    assert_eq!(packet.len(), 22);
    assert_eq!(&packet[..4], &[0u8, 0, 0, 22][..]);
    assert_eq!(&packet[16..], "弹幕".as_bytes());
}

#[test]
fn join_room_names_the_room() {
    assert_eq!(join_room(21129652), encode("{\"roomid\": 21129652}", 7));
    assert_eq!(join_room(0), encode("{\"roomid\": 0}", 7));
    assert_eq!(join_room(u32::MAX), encode("{\"roomid\": 4294967295}", 7));
}

#[test]
fn decode_of_encode_keeps_opcode_and_length() {
    let payloads = ["", "a", "{\"roomid\":3470615}", "弹幕 text", "four"];
    let opcodes = [0u32, 2, 5, 7, 8, 9, 300, 0x8000_0000, u32::MAX];
    for payload in payloads.iter() {
        for &op in opcodes.iter() {
            let packet = decode(encode(payload, op)).unwrap();
            assert_eq!(packet.op, op);
            assert_eq!(packet.packet_len as usize, 16 + payload.len());
            assert_eq!(packet.header_len, 16);
            assert_eq!(packet.version, 1);
            assert_eq!(packet.seq, 1);
            assert!(packet.body.is_empty());
        }
    }
    let packet = decode(encode("\u{0}\u{0}\u{0}\u{7}", 3)).unwrap();
    assert_eq!(packet.op, 3);
    assert_eq!(packet.packet_len, 20);
    assert_eq!(packet.body, vec!["{\"count\": 7}".to_string()]);
}
