use divoom_link::framing::{checksum, divoom_command_bytes, format_payload, littlehex, DivoomCommand};

#[test]
fn littlehex_low_byte_first() {
    assert_eq!(littlehex(0x1234), vec![0x34, 0x12]);
    assert_eq!(littlehex(0), vec![0x00, 0x00]);
    assert_eq!(littlehex(0xFFFF), vec![0xFF, 0xFF]);
}

#[test]
fn checksum_sums_bytes() {
    assert_eq!(checksum(vec![]), vec![0x00, 0x00]);
    assert_eq!(checksum(vec![0x04, 0x00, 0x74, 0x64]), vec![0xDC, 0x00]);
}

#[test]
fn checksum_truncates_to_16_bits() {
    // 300 bytes of 0xFF sum to 76500, which is 0x2AD4 mod 2^16
    let payload = vec![0xFFu8; 300];
    assert_eq!(checksum(payload), vec![0xD4, 0x2A]);
}

#[test]
fn format_payload_wraps_in_envelope() {
    assert_eq!(
        format_payload(vec![0x02, 0x03]),
        vec![0x01, 0x02, 0x03, 0x05, 0x00, 0x02]
    );
    // an empty payload still gets delimiters and a zero checksum
    assert_eq!(format_payload(vec![]), vec![0x01, 0x00, 0x00, 0x02]);
}

#[test]
fn opcodes_match_protocol() {
    assert_eq!(DivoomCommand::UpdateImageFrame.opcode(), 0x44);
    assert_eq!(DivoomCommand::UpdateAnimationFrame.opcode(), 0x49);
    assert_eq!(DivoomCommand::UpdateBrightness.opcode(), 0x74);
    assert_eq!(DivoomCommand::GetInfo.opcode(), 0x46);
}

#[test]
fn brightness_command_wire_bytes() {
    // length = 1 + 3 = 4; checksum = 0x04 + 0x00 + 0x74 + 0x64 = 0xDC
    let frame = divoom_command_bytes(DivoomCommand::UpdateBrightness, vec![100]);
    assert_eq!(frame, vec![0x01, 0x04, 0x00, 0x74, 0x64, 0xDC, 0x00, 0x02]);
}

#[test]
fn get_info_command_wire_bytes() {
    // no arguments: length = 3, checksum = 0x03 + 0x46 = 0x49
    let frame = divoom_command_bytes(DivoomCommand::GetInfo, vec![]);
    assert_eq!(frame, vec![0x01, 0x03, 0x00, 0x46, 0x49, 0x00, 0x02]);
}
