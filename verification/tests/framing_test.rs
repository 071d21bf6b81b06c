use voxel::framing::{byte_vector, read_frame, TCP_EVENT_BYTES};

fn roundtrip(bytes: &[u8]) -> Vec<u8> {
    let frames = byte_vector(bytes);
    let mut buffer: Vec<u8> = Vec::new();
    for (i, f) in frames.iter().enumerate() {
        let done = read_frame(&mut buffer, f);
        assert_eq!(done, i + 1 == frames.len());
    }
    buffer
}

#[test]
fn one_byte_makes_one_frame() {
    let frames = byte_vector(&[7]);
    assert_eq!(frames.len(), 1);
    assert_eq!(frames[0].len(), TCP_EVENT_BYTES);
    assert_eq!(frames[0][0], 1);
    assert_eq!(frames[0][1], 3);
    assert_eq!(frames[0][2], 7);
    assert!(frames[0][3..].iter().all(|b| *b == 0));
}

#[test]
fn full_payload_fits_one_frame() {
    let bytes: Vec<u8> = (0..253).map(|i| i as u8).collect();
    let frames = byte_vector(&bytes);
    assert_eq!(frames.len(), 1);
    assert_eq!(frames[0][0], 1);
    assert_eq!(frames[0][1], 255);
}

#[test]
fn one_more_byte_needs_a_second_frame() {
    let bytes: Vec<u8> = (0..254).map(|i| (i % 251) as u8).collect();
    let frames = byte_vector(&bytes);
    assert_eq!(frames.len(), 2);
    assert_eq!(frames[0][0], 0);
    assert_eq!(frames[0][1], 255);
    assert_eq!(frames[1][0], 1);
    assert_eq!(frames[1][1], 3);
    assert_eq!(frames[1][2], bytes[253]);
}

#[test]
fn frames_read_back_the_message() {
    for n in [1usize, 2, 252, 253, 254, 506, 507, 1000] {
        let bytes: Vec<u8> = (0..n).map(|i| (i * 7 % 256) as u8).collect();
        assert_eq!(roundtrip(&bytes), bytes);
    }
}

#[test]
fn read_frame_appends_payload() {
    let mut buffer = vec![9u8];
    let mut frame = vec![0u8; TCP_EVENT_BYTES];
    frame[0] = 0;
    frame[1] = 4;
    frame[2] = 5;
    frame[3] = 6;
    frame[4] = 99;
    assert!(!read_frame(&mut buffer, &frame));
    assert_eq!(buffer, vec![9, 5, 6]);
}
