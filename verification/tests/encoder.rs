use divoom_link::color::Color;
use divoom_link::encoder::{decode_frame, encode_frame, image_frame_bytes, EncodeError};

fn black_raster() -> Vec<Color> {
    vec![Color::new(0, 0, 0); 1024]
}

fn black_payload() -> Vec<u8> {
    // one palette entry, bit width zero, no pixel data:
    // header | 0xAA | total = 7 + 3 + 0 | mode | palette length 1 | one black entry
    vec![
        0x00, 0x0A, 0x0A, 0x04, 0xAA, 0x0A, 0x00, 0x00, 0x00, 0x03, 0x01, 0x00, 0x00, 0x00, 0x00,
    ]
}

#[test]
fn encode_rejects_wrong_raster_length() {
    let short = vec![Color::new(0, 0, 0); 3];
    assert_eq!(encode_frame(&short), Err(EncodeError::ShapeMismatch));
    let long = vec![Color::new(0, 0, 0); 1025];
    assert_eq!(encode_frame(&long), Err(EncodeError::ShapeMismatch));
}

#[test]
fn encode_black_raster_exact_bytes() {
    let payload = encode_frame(&black_raster()).unwrap();
    assert_eq!(payload, black_payload());
}

#[test]
fn image_frame_black_raster_exact_bytes() {
    // the payload wrapped as an UpdateImageFrame command: length = 15 + 3,
    // checksum = 0x12 + 0x44 + 208 = 0x0126
    let frame = image_frame_bytes(&black_raster()).unwrap();
    let mut expected = vec![0x01, 0x12, 0x00, 0x44];
    expected.extend(black_payload());
    expected.extend([0x26, 0x01, 0x02]);
    assert_eq!(frame, expected);
}

#[test]
fn image_frame_rejects_wrong_raster_length() {
    assert_eq!(
        image_frame_bytes(&Vec::new()),
        Err(EncodeError::ShapeMismatch)
    );
}

#[test]
fn decode_recovers_two_color_raster() {
    let red = Color::new(255, 0, 0);
    let green = Color::new(0, 255, 0);
    let mut pixels = vec![red; 512];
    pixels.extend(vec![green; 512]);
    let payload = encode_frame(&pixels).unwrap();
    let (palette, indices) = decode_frame(&payload).unwrap();
    assert_eq!(palette, vec![red, green]);
    // one bit per index: 1024 bits pack into 128 whole bytes, nothing lost
    let mut expected = vec![0u8; 512];
    expected.extend(vec![1u8; 512]);
    assert_eq!(indices, expected);
}

#[test]
fn decode_recovers_black_raster_palette() {
    // at bit width zero no indices travel; only the palette comes back
    let payload = encode_frame(&black_raster()).unwrap();
    let (palette, indices) = decode_frame(&payload).unwrap();
    assert_eq!(palette, vec![Color::new(0, 0, 0)]);
    assert_eq!(indices, Vec::<u8>::new());
}

#[test]
fn decode_rejects_bad_header() {
    let mut payload = black_payload();
    payload[0] = 0x01;
    assert_eq!(decode_frame(&payload), None);
}

#[test]
fn decode_rejects_bad_mode_bytes() {
    let mut payload = black_payload();
    payload[9] = 0x02;
    assert_eq!(decode_frame(&payload), None);
}

#[test]
fn decode_rejects_wrong_length_field() {
    let mut payload = black_payload();
    payload.push(0x00); // the length field no longer covers the data
    assert_eq!(decode_frame(&payload), None);
}

#[test]
fn decode_rejects_short_payload() {
    assert_eq!(decode_frame(&vec![0x00, 0x0A, 0x0A]), None);
}

#[test]
fn decode_rejects_oversized_palette_length() {
    // a self-consistent frame claiming 300 palette entries: more than any
    // palette this protocol can carry
    let mut payload = vec![0x00, 0x0A, 0x0A, 0x04, 0xAA, 0x8B, 0x03, 0x00, 0x00, 0x03, 0x2C, 0x01];
    payload.extend(vec![0u8; 900]);
    assert_eq!(payload[5] as usize + 256 * payload[6] as usize, payload.len() - 5);
    assert_eq!(decode_frame(&payload), None);
}
