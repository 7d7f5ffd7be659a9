use serial_link::hdlc::{Framer, CONTROL_ESCAPE, ESCAPE_MASK, FLAG};

fn feed(framer: &mut Framer, bytes: &[u8]) -> Vec<Vec<u8>> {
    let mut frames: Vec<Vec<u8>> = vec![];
    for &byte in bytes {
        if let Some(frame) = framer.find_frame(byte) {
            frames.push(frame);
        }
    }
    frames
}

#[test]
fn test_find_frame() {
    let message_1: Vec<u8> = vec![0x01, 0x02, 0x03, 0x05];
    let message_2: Vec<u8> = vec![0x06, 0x07, 0x08, 0x09];
    let message_3_in: Vec<u8> = vec![0x0a, 0x0b, 0x7d, 0x5e, 0x0d];
    let message_3_out: Vec<u8> = vec![0x0a, 0x0b, 0x7e, 0x0d];
    let message_4_in: Vec<u8> = vec![0x10, 0x7d, 0x5d, 0x12, 0x13];
    let message_4_out: Vec<u8> = vec![0x10, 0x7d, 0x12, 0x13];

    let mut messages = vec![0x55u8, 0x55u8, 0x55u8, 0x55u8, 0x55u8, 0x55u8].to_vec();
    messages.push(0x7e);
    messages.append(&mut message_1.clone());
    messages.push(0x7e);
    messages.push(0x7e);
    messages.append(&mut message_2.clone());
    messages.push(0x7e);
    messages.append(&mut message_3_in.clone());
    messages.push(0x7e);
    messages.append(&mut message_4_in.clone());
    messages.push(0x7e);
    messages.append(&mut [0xaau8, 0xaau8, 0xaau8, 0xaau8, 0xaau8, 0xaau8].to_vec());

    println!("{:x?}", messages);

    let mut framer = Framer::new();
    let mut frames: Vec<Vec<u8>> = vec![];
    for byte in messages {
        if let Some(x) = framer.find_frame(byte) {
            frames.push(x);
            println!("{:x?}", frames);
        }
    }
    assert_eq!(frames[0], message_1);
    assert_eq!(frames[1], message_2);
    assert_eq!(frames[2], message_3_out);
    assert_eq!(frames[3], message_4_out);
}

#[test]
fn four_frames_between_noise() {
    let wire: [u8; 28] = [
        0x55, 0x55, 0x7e, 0x01, 0x02, 0x03, 0x05, 0x7e, 0x7e, 0x06, 0x07, 0x08, 0x09, 0x7e, 0x0a,
        0x0b, 0x7d, 0x5e, 0x0d, 0x7e, 0x10, 0x7d, 0x5d, 0x12, 0x13, 0x7e, 0xaa, 0xaa,
    ];
    let mut framer = Framer::new();
    let frames = feed(&mut framer, &wire);
    assert_eq!(
        frames,
        vec![
            vec![0x01, 0x02, 0x03, 0x05],
            vec![0x06, 0x07, 0x08, 0x09],
            vec![0x0a, 0x0b, 0x7e, 0x0d],
            vec![0x10, 0x7d, 0x12, 0x13],
        ]
    );
}

#[test]
fn frame_comes_at_the_closing_flag_and_not_before() {
    let mut framer = Framer::new();
    assert_eq!(framer.find_frame(FLAG), None);
    assert_eq!(framer.find_frame(0x41), None);
    assert_eq!(framer.find_frame(0x42), None);
    assert_eq!(framer.find_frame(FLAG), Some(vec![0x41, 0x42]));
}

#[test]
fn bytes_before_the_first_flag_are_dropped() {
    let mut framer = Framer::new();
    assert!(feed(&mut framer, &[0x00, 0x7d, 0x41, 0xff, 0x7d]).is_empty());
    assert_eq!(feed(&mut framer, &[FLAG, 0x01, FLAG]), vec![vec![0x01]]);
}

#[test]
fn repeated_flags_give_no_frame() {
    let mut framer = Framer::new();
    for _ in 0..16 {
        assert_eq!(framer.find_frame(FLAG), None);
    }
    assert_eq!(feed(&mut framer, &[0x11, FLAG]), vec![vec![0x11]]);
    for _ in 0..16 {
        assert_eq!(framer.find_frame(FLAG), None);
    }
    assert_eq!(feed(&mut framer, &[0x22, 0x33, FLAG, FLAG, FLAG]), vec![vec![0x22, 0x33]]);
}

#[test]
fn one_flag_closes_a_frame_and_opens_the_next() {
    let mut framer = Framer::new();
    let frames = feed(&mut framer, &[FLAG, 0x01, FLAG, 0x02, FLAG, 0x03, FLAG]);
    assert_eq!(frames, vec![vec![0x01], vec![0x02], vec![0x03]]);
}

#[test]
fn three_frames_with_noise_and_idle_flags() {
    let mut wire: Vec<u8> = vec![0x00, 0x13, 0x7d, 0xfe];
    wire.extend_from_slice(&[FLAG, FLAG, FLAG]);
    wire.extend_from_slice(&[0xde, 0xad]);
    wire.extend_from_slice(&[FLAG]);
    wire.extend_from_slice(&[CONTROL_ESCAPE, 0x5e, CONTROL_ESCAPE, 0x5d]);
    wire.extend_from_slice(&[FLAG, FLAG, FLAG, FLAG]);
    wire.extend_from_slice(&[0x00]);
    wire.extend_from_slice(&[FLAG, FLAG]);
    wire.extend_from_slice(&[0x99, 0x98, CONTROL_ESCAPE]);
    let mut framer = Framer::new();
    let frames = feed(&mut framer, &wire);
    assert_eq!(frames, vec![vec![0xde, 0xad], vec![0x7e, 0x7d], vec![0x00]]);
}

#[test]
fn escaped_byte_is_data_whatever_it_is() {
    let mut framer = Framer::new();
    let frames = feed(&mut framer, &[FLAG, CONTROL_ESCAPE, CONTROL_ESCAPE, FLAG]);
    assert_eq!(frames, vec![vec![CONTROL_ESCAPE ^ ESCAPE_MASK]]);
    let frames = feed(&mut framer, &[CONTROL_ESCAPE, 0x00, CONTROL_ESCAPE, 0xff, FLAG]);
    assert_eq!(frames, vec![vec![0x20, 0xdf]]);
}

#[test]
fn escaped_flag_does_not_close_the_frame() {
    let mut framer = Framer::new();
    assert_eq!(framer.find_frame(FLAG), None);
    assert_eq!(framer.find_frame(0x41), None);
    assert_eq!(framer.find_frame(CONTROL_ESCAPE), None);
    assert_eq!(framer.find_frame(FLAG), None);
    assert_eq!(framer.find_frame(FLAG), Some(vec![0x41, 0x5e]));
    assert_eq!(framer.find_frame(FLAG), None);
}

#[test]
fn escape_itself_is_not_stored() {
    let mut framer = Framer::new();
    let frames = feed(&mut framer, &[FLAG, 0x01, CONTROL_ESCAPE, 0x21, 0x02, FLAG]);
    assert_eq!(frames, vec![vec![0x01, 0x01, 0x02]]);
}

#[test]
fn unfinished_frame_is_never_handed_out() {
    let mut framer = Framer::new();
    assert!(feed(&mut framer, &[FLAG, 0x01, 0x02, 0x03]).is_empty());
    assert!(feed(&mut framer, &[0x04, CONTROL_ESCAPE]).is_empty());
    assert_eq!(feed(&mut framer, &[0x25, FLAG]), vec![vec![0x01, 0x02, 0x03, 0x04, 0x05]]);
}

#[test]
fn chunks_and_single_bytes_give_the_same_frames() {
    let wire: [u8; 14] = [
        0x31, FLAG, 0x01, CONTROL_ESCAPE, 0x5e, FLAG, FLAG, 0x02, 0x03, FLAG, CONTROL_ESCAPE, 0x5d,
        FLAG, 0x04,
    ];
    let mut whole = Framer::new();
    let expected = feed(&mut whole, &wire);
    assert_eq!(expected, vec![vec![0x01, 0x7e], vec![0x02, 0x03], vec![0x7d]]);
    for cut in 0..=wire.len() {
        let mut framer = Framer::new();
        let mut frames = feed(&mut framer, &wire[..cut]);
        frames.append(&mut feed(&mut framer, &wire[cut..]));
        assert_eq!(frames, expected);
    }
}

#[test]
fn two_framers_do_not_share_state() {
    let mut first = Framer::new();
    let mut second = Framer::new();
    assert!(feed(&mut first, &[FLAG, 0x01, 0x02]).is_empty());
    assert!(feed(&mut second, &[FLAG, 0x0a]).is_empty());
    assert_eq!(feed(&mut second, &[FLAG]), vec![vec![0x0a]]);
    assert_eq!(feed(&mut first, &[FLAG]), vec![vec![0x01, 0x02]]);
}

#[test]
fn no_frame_is_empty() {
    let mut state: u32 = 0x2545_f491;
    let mut framer = Framer::new();
    let mut count = 0;
    for _ in 0..20000 {
        state = state.wrapping_mul(1664525).wrapping_add(1013904223);
        let pick = (state >> 24) as u8;
        let byte = match pick % 4 {
            0 => FLAG,
            1 => CONTROL_ESCAPE,
            _ => pick,
        };
        if let Some(frame) = framer.find_frame(byte) {
            assert_eq!(byte, FLAG);
            assert!(!frame.is_empty());
            count += 1;
        }
    }
    assert!(count > 0);
}
