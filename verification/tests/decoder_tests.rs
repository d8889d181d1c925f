use relay::decoder::Decoder;
use relay::frame::make_frame;

#[test]
fn sensitive_frame_scenario() {
    // Header CC 40 00 03 <ck1> <ck2> 00 00 plus payload AA BB CC, sensitive
    // bit set, checksum correct: exactly one destination-visible write of
    // those 11 bytes.
    let frame = make_frame(0x40, &[0xAA, 0xBB, 0xCC]);
    assert_eq!(frame[4], 0xF0);
    assert_eq!(frame[5], 0x32);
    let mut decoder = Decoder::new();
    let frames = decoder.feed(&frame);
    assert_eq!(frames.len(), 1);
    assert!(frames[0].should_forward());
    let mut destination: Vec<u8> = Vec::new();
    for f in &frames {
        if f.should_forward() {
            destination.extend_from_slice(f.data());
        }
    }
    assert_eq!(destination, frame);
    assert_eq!(destination.len(), 11);

    // Corrupting ck1 by one bit: the frame still decodes but is dropped, so
    // there is no destination-visible write for it.
    let mut corrupted = frame.clone();
    corrupted[4] ^= 0x01;
    let mut decoder2 = Decoder::new();
    let frames2 = decoder2.feed(&corrupted);
    assert_eq!(frames2.len(), 1);
    assert!(!frames2[0].should_forward());
    let mut destination2: Vec<u8> = Vec::new();
    for f in &frames2 {
        if f.should_forward() {
            destination2.extend_from_slice(f.data());
        }
    }
    assert!(destination2.is_empty());
}

#[test]
fn split_delivery_matches_single_read() {
    // Two frames delivered header-first across two reads decode identically
    // to both arriving in one read.
    let f1 = make_frame(0x00, &[0x01, 0x02]);
    let f2 = make_frame(0x40, &[0x03]);
    let mut stream: Vec<u8> = Vec::new();
    stream.extend_from_slice(&f1);
    stream.extend_from_slice(&f2);

    let mut one_read = Decoder::new();
    let got_once = one_read.feed(&stream);

    let mut two_reads = Decoder::new();
    let mut got_split = two_reads.feed(&stream[..8]);
    assert!(got_split.is_empty());
    got_split.append(&mut two_reads.feed(&stream[8..]));

    assert_eq!(got_once.len(), 2);
    assert_eq!(got_split.len(), 2);
    for (a, b) in got_once.iter().zip(got_split.iter()) {
        assert_eq!(a.data(), b.data());
    }
    assert_eq!(got_once[0].data(), &f1);
    assert_eq!(got_once[1].data(), &f2);
    assert_eq!(one_read.buffered(), 0);
    assert_eq!(two_reads.buffered(), 0);
}

#[test]
fn noise_before_frame_dropped() {
    // Non-magic noise before a valid frame yields exactly that one frame.
    let frame = make_frame(0x00, &[0x55, 0x66]);
    let mut stream: Vec<u8> = vec![0x00, 0x11, 0x7F];
    stream.extend_from_slice(&frame);
    let mut decoder = Decoder::new();
    let frames = decoder.feed(&stream);
    assert_eq!(frames.len(), 1);
    assert_eq!(frames[0].data(), &frame);
    assert_eq!(decoder.buffered(), 0);
}

#[test]
fn no_magic_clears_buffer() {
    // A buffer with no magic byte anywhere is discarded entirely, and a
    // frame arriving afterwards still decodes.
    let mut decoder = Decoder::new();
    let frames = decoder.feed(&[0x01, 0x02, 0x03, 0x04]);
    assert!(frames.is_empty());
    assert_eq!(decoder.buffered(), 0);
    let frame = make_frame(0x00, &[0xAB]);
    let frames = decoder.feed(&frame);
    assert_eq!(frames.len(), 1);
    assert_eq!(frames[0].data(), &frame);
}

#[test]
fn partial_header_waits() {
    // Fewer than 8 bytes from the magic byte onward: wait for more input.
    let frame = make_frame(0x40, &[0x10, 0x20]);
    let mut decoder = Decoder::new();
    assert!(decoder.feed(&frame[..4]).is_empty());
    assert_eq!(decoder.buffered(), 4);
    let frames = decoder.feed(&frame[4..]);
    assert_eq!(frames.len(), 1);
    assert_eq!(frames[0].data(), &frame);
}

#[test]
fn partial_payload_waits() {
    // A complete header whose payload has not fully arrived stays buffered.
    let frame = make_frame(0x00, &[0x01, 0x02, 0x03, 0x04]);
    let mut decoder = Decoder::new();
    assert!(decoder.feed(&frame[..10]).is_empty());
    assert_eq!(decoder.buffered(), 10);
    let frames = decoder.feed(&frame[10..]);
    assert_eq!(frames.len(), 1);
    assert_eq!(frames[0].data(), &frame);
}

#[test]
fn two_frames_one_read_in_order() {
    let f1 = make_frame(0x00, &[0xAA]);
    let f2 = make_frame(0x00, &[0xBB, 0xCC]);
    let mut stream: Vec<u8> = Vec::new();
    stream.extend_from_slice(&f1);
    stream.extend_from_slice(&f2);
    let mut decoder = Decoder::new();
    let frames = decoder.feed(&stream);
    assert_eq!(frames.len(), 2);
    assert_eq!(frames[0].data(), &f1);
    assert_eq!(frames[1].data(), &f2);
}

#[test]
fn zero_length_payload_frame() {
    let frame = make_frame(0x00, &[]);
    assert_eq!(frame.len(), 8);
    let mut decoder = Decoder::new();
    let frames = decoder.feed(&frame);
    assert_eq!(frames.len(), 1);
    assert_eq!(frames[0].data(), &frame);
    assert_eq!(frames[0].payload(), Vec::<u8>::new());
}

#[test]
fn insensitive_frame_ignores_checksum() {
    // Sensitive bit clear: forwarded unconditionally, garbage checksum and
    // all.
    let mut frame = make_frame(0x00, &[0x01, 0x02]);
    frame[4] = 0xDE;
    frame[5] = 0xAD;
    let mut decoder = Decoder::new();
    let frames = decoder.feed(&frame);
    assert_eq!(frames.len(), 1);
    assert!(!frames[0].sensitive());
    assert!(frames[0].should_forward());
}

#[test]
fn frame_accessors() {
    let frame = make_frame(0x40, &[0x09, 0x08, 0x07]);
    let mut decoder = Decoder::new();
    let frames = decoder.feed(&frame);
    assert_eq!(frames.len(), 1);
    let f = &frames[0];
    assert_eq!(f.len(), 11);
    assert_eq!(f.options(), 0x40);
    assert!(f.sensitive());
    assert_eq!(f.checksum_field(), relay::checksum::compute_checksum(&frame));
    assert_eq!(f.payload(), vec![0x09, 0x08, 0x07]);
}
