use relay::checksum::{compute_checksum, verify_checksum};
use relay::frame::make_frame;

#[test]
fn empty_message_checksum() {
    // No words at all: the sum is 0, the checksum its complement.
    assert_eq!(compute_checksum(&[]), 0xFFFF);
    assert!(verify_checksum(&[], 0xFFFF));
    assert!(!verify_checksum(&[], 0x0000));
}

#[test]
fn single_byte_pads_with_zero() {
    // One byte forms the word 0x0100 with a zero low byte.
    assert_eq!(compute_checksum(&[0x01]), !0x0100u16);
}

#[test]
fn odd_length_end_around_carry() {
    // 0xFFFF + 0xFF00 overflows 16 bits; the carry folds back in.
    assert_eq!(compute_checksum(&[0xFF, 0xFF, 0xFF]), 0x00FF);
}

#[test]
fn checksum_field_substituted() {
    // Bytes 4 and 5 are replaced by the placeholder 0xCCCC while summing, so
    // their transmitted contents never matter.
    let with_field = [0x00, 0x00, 0x00, 0x00, 0x12, 0x34];
    let zeroed = [0x00u8; 6];
    assert_eq!(compute_checksum(&with_field), !0xCCCCu16);
    assert_eq!(compute_checksum(&with_field), compute_checksum(&zeroed));
}

#[test]
fn known_frame_checksum() {
    // Words: CC40 + 0003 + CCCC (placeholder) + 0000 + AABB + CC00,
    // folded: 0x0FCD; complement: 0xF032.
    let frame = [0xCC, 0x40, 0x00, 0x03, 0x00, 0x00, 0x00, 0x00, 0xAA, 0xBB, 0xCC];
    assert_eq!(compute_checksum(&frame), 0xF032);
    assert!(verify_checksum(&frame, 0xF032));
    assert!(!verify_checksum(&frame, 0xF033));
}

#[test]
fn round_trip_make_frame() {
    // Building a frame stores the computed checksum, and verifying the built
    // frame against its stored checksum succeeds.
    let frame = make_frame(0x40, &[0xAA, 0xBB, 0xCC]);
    let expected = vec![0xCC, 0x40, 0x00, 0x03, 0xF0, 0x32, 0x00, 0x00, 0xAA, 0xBB, 0xCC];
    assert_eq!(frame, expected);
    let stated = ((frame[4] as u16) << 8) | frame[5] as u16;
    assert!(verify_checksum(&frame, stated));
}

#[test]
fn round_trip_empty_payload() {
    let frame = make_frame(0x40, &[]);
    assert_eq!(frame.len(), 8);
    let stated = ((frame[4] as u16) << 8) | frame[5] as u16;
    assert!(verify_checksum(&frame, stated));
}

#[test]
fn bit_flip_detected() {
    // Flipping any single bit of the payload changes the computed checksum,
    // so verification against the stored checksum fails.
    let frame = make_frame(0x40, &[0xAA, 0xBB, 0xCC]);
    let stated = ((frame[4] as u16) << 8) | frame[5] as u16;
    for byte in 8..frame.len() {
        for bit in 0..8 {
            let mut corrupted = frame.clone();
            corrupted[byte] ^= 1u8 << bit;
            assert!(
                !verify_checksum(&corrupted, stated),
                "flip of bit {} in byte {} went undetected",
                bit,
                byte
            );
        }
    }
}
