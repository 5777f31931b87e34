use bili_danmaku::{next_step, packet_kind, parse_command, Command, PacketKind, Reading, Step};

#[test]
fn packet_kind_of_each_opcode() {
    assert_eq!(packet_kind(3), PacketKind::Popularity);
    assert_eq!(packet_kind(5), PacketKind::MessageBatch);
    assert_eq!(packet_kind(8), PacketKind::JoinAck);
    for op in [0u32, 1, 2, 4, 6, 7, 9, 10, 0x0300, u32::MAX] {
        assert_eq!(packet_kind(op), PacketKind::Other);
    }
}

#[test]
fn parse_command_knows_three_commands() {
    assert_eq!(parse_command("DANMU_MSG"), Some(Command::DanmuMsg));
    assert_eq!(parse_command("SEND_GIFT"), Some(Command::SendGift));
    assert_eq!(parse_command("WELCOME"), Some(Command::Welcome));
}

#[test]
fn parse_command_passes_over_the_rest() {
    for cmd in ["", "danmu_msg", "DANMU_MSG ", " WELCOME", "SEND_GIFTS", "SEND", "NOTICE_MSG"] {
        assert_eq!(parse_command(cmd), None);
    }
}

#[test]
fn next_step_ends_the_batch_on_what_is_no_message() {
    assert_eq!(next_step(Reading::Unreadable), Step::Fail);
    assert_eq!(next_step(Reading::NoCommand), Step::Leave);
}

#[test]
fn next_step_shows_known_commands_and_skips_others() {
    assert_eq!(next_step(Reading::Command("DANMU_MSG")), Step::Show(Command::DanmuMsg));
    assert_eq!(next_step(Reading::Command("SEND_GIFT")), Step::Show(Command::SendGift));
    assert_eq!(next_step(Reading::Command("WELCOME")), Step::Show(Command::Welcome));
    assert_eq!(next_step(Reading::Command("ROOM_RANK")), Step::Skip);
    assert_eq!(next_step(Reading::Command("")), Step::Skip);
}
