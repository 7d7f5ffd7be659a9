use serial_link::crc::{crc16, crc16_trailer, CRC_INIT, CRC_POLY, CRC_RESIDUE};
use serial_link::hdlc::Framer;
use serial_link::hdlc_ffi::{hdlc_decode_ffi, hdlc_encode_ffi, hdlc_find_frame_ffi};

fn with_check_trailer(packet: &[u8]) -> Vec<u8> {
    let mut sent = packet.to_vec();
    sent.extend_from_slice(&crc16_trailer(crc16(CRC_INIT, packet)));
    sent
}

#[test]
fn trailer_is_the_complement_low_byte_first() {
    assert_eq!(crc16_trailer(0x0000), [0xff, 0xff]);
    assert_eq!(crc16_trailer(0xffff), [0x00, 0x00]);
    assert_eq!(crc16_trailer(0x1234), [0xcb, 0xed]);
    assert_eq!(crc16_trailer(0x6f91), [0x6e, 0x90]);
}

#[test]
fn any_state_followed_by_its_trailer_is_the_residue() {
    for state in 0..=0xffffu16 {
        assert_eq!(crc16(state, &crc16_trailer(state)), 0xf0b8);
    }
}

#[test]
fn crc_constants() {
    assert_eq!(CRC_POLY, 0x8408);
    assert_eq!(CRC_INIT, 0xffff);
    assert_eq!(CRC_RESIDUE, 0xf0b8);
}

#[test]
fn crc_of_nothing_is_the_seed() {
    assert_eq!(crc16(0xffff, &[]), 0xffff);
    assert_eq!(crc16(0x0000, &[]), 0x0000);
    assert_eq!(crc16(0x1d0f, &[]), 0x1d0f);
}

#[test]
fn crc_of_one_byte() {
    assert_eq!(crc16(0x0000, &[0x01]), 0x1189);
    assert_eq!(crc16(0x0000, &[0x80]), 0x8408);
    assert_eq!(crc16(0x0000, &[0xff]), 0x0f78);
    assert_eq!(crc16(0xffff, &[0x00]), 0x0f87);
}

#[test]
fn crc_check_values() {
    assert_eq!(crc16(0xffff, b"123456789"), 0x6f91);
    assert_eq!(crc16(0xffff, b"123456789") ^ 0xffff, 0x906e);
    assert_eq!(crc16(0x0000, b"123456789"), 0x2189);
}

#[test]
fn crc_of_every_byte_value() {
    let packet: Vec<u8> = (0x00u8..=0xff).collect();
    assert_eq!(crc16(0xffff, &packet), 0xcfc3);
}

#[test]
fn crc_may_be_summed_in_pieces() {
    let packet: Vec<u8> = (0x00u8..=0xff).collect();
    let whole = crc16(0xffff, &packet);
    for cut in 0..=packet.len() {
        let first = crc16(0xffff, &packet[..cut]);
        assert_eq!(crc16(first, &packet[cut..]), whole);
    }
    let mut state = 0xffff;
    for byte in &packet {
        state = crc16(state, &[*byte]);
    }
    assert_eq!(state, whole);
}

#[test]
fn crc_is_the_same_every_time() {
    let packet = b"All work and no play makes Jack a dull boy.\n";
    assert_eq!(crc16(0xffff, packet), crc16(0xffff, packet));
    assert_ne!(crc16(0xffff, packet), crc16(0x0000, packet));
}

#[test]
fn packet_with_its_check_trailer_sums_to_the_residue() {
    assert_eq!(crc16(0xffff, &with_check_trailer(&[])), 0xf0b8);
    assert_eq!(crc16(0xffff, &with_check_trailer(b"123456789")), 0xf0b8);
    assert_eq!(with_check_trailer(b"123456789")[9..], [0x6e, 0x90]);
    let mut packet: Vec<u8> = vec![];
    for byte in 0x00u8..=0xff {
        packet.push(byte);
        assert_eq!(crc16(0xffff, &with_check_trailer(&packet)), 0xf0b8);
    }
}

#[test]
fn every_byte_value_through_the_framer_sums_to_the_residue() {
    let mut data: Vec<u8> = vec![];
    for byte in 0x00u8..=0xffu8 {
        data.push(byte);
    }
    let sent = with_check_trailer(&data);
    let encoded = hdlc_encode_ffi(&sent).unwrap();

    let mut framer = Framer::new();
    let mut frames = 0;
    for byte in encoded {
        if let Some(frame) = framer.find_frame(byte) {
            assert_eq!(frame[..256], data[..]);
            let crc = crc16(0xffff, &frame);
            assert_eq!(crc, 0xf0b8);
            frames += 1;
        }
    }
    assert_eq!(frames, 1);
}

#[test]
fn every_byte_value_through_search_and_decode_sums_to_the_residue() {
    let data: Vec<u8> = (0x00u8..=0xff).collect();
    let sent = with_check_trailer(&data);
    let encoded = hdlc_encode_ffi(&sent).unwrap();
    let frame = hdlc_find_frame_ffi(&encoded).unwrap();
    let mut packet = vec![0u8; 300];
    let size = hdlc_decode_ffi(frame, &mut packet).unwrap();
    assert_eq!(size, 258);
    assert_eq!(packet[..256], data[..]);
    assert_eq!(crc16(0xffff, &packet[..size]), 0xf0b8);
}
