use zenoh_net::frame::CAN_EFF_MASK;
use zenoh_net::frame::classify;
use zenoh_net::frame::{
    decode, encode, fd_frame_len, mtu, wire_len, Frame, RxDrop, TxError, CANFD_BRS,
    CANFD_MTU_WIRE, CAN_MTU_WIRE, CAN_SFF_MASK, CLASSIC_MAX_DLEN, CLASSIC_MTU, FD_MAX_DLEN,
    FD_MTU, LEN_PREFIX,
};

fn datagram(len: usize) -> Vec<u8> {
    (0..len).map(|i| (i + 1) as u8).collect()
}

#[test]
fn mtus_are_the_frame_size_less_the_prefix() {
    assert_eq!(FD_MTU, 63);
    assert_eq!(CLASSIC_MTU, 7);
}

#[test]
fn fd_dlc_steps() {
    let expected: &[(usize, u8)] = &[
        (0, 1),
        (7, 8),
        (8, 12),
        (11, 12),
        (12, 16),
        (15, 16),
        (16, 20),
        (19, 20),
        (20, 24),
        (23, 24),
        (24, 32),
        (31, 32),
        (32, 48),
        (47, 48),
        (48, 64),
        (62, 64),
        (63, 64),
    ];
    for (len, frame_len) in expected {
        let (frame, wire) = encode(0x100, &datagram(*len), true).unwrap();
        assert_eq!(frame.len, *frame_len, "datagram of {len} bytes");
        assert_eq!(wire, CANFD_MTU_WIRE);
    }
}

#[test]
fn classic_frame_len_is_the_payload() {
    for len in 0..=CLASSIC_MTU as usize {
        let (frame, wire) = encode(0x100, &datagram(len), false).unwrap();
        assert_eq!(frame.len as usize, len + LEN_PREFIX);
        assert_eq!(wire, CAN_MTU_WIRE);
        assert_eq!(frame.flags, 0, "classic frames carry no BRS");
    }
}

#[test]
fn brs_is_set_on_every_fd_frame_including_short_ones() {
    for len in [0usize, 1, 7, 8, 63] {
        let (frame, _) = encode(0x100, &datagram(len), true).unwrap();
        assert_eq!(frame.flags, CANFD_BRS, "datagram of {len} bytes");
    }
}

#[test]
fn over_mtu_is_refused_in_both_modes() {
    assert_eq!(
        encode(0x100, &datagram(64), true),
        Err(TxError::TooLarge { len: 64, mtu: 63 })
    );
    assert_eq!(
        encode(0x100, &datagram(8), false),
        Err(TxError::TooLarge { len: 8, mtu: 7 })
    );
}

#[test]
fn extended_identifiers_are_refused() {
    assert_eq!(
        encode(0x800, &datagram(1), true),
        Err(TxError::IdentifierTooWide { id: 0x800 })
    );
    assert!(encode(CAN_SFF_MASK, &datagram(1), true).is_ok());
}

#[test]
fn round_trip_every_length() {
    for len in 0..=FD_MTU as usize {
        let sent = datagram(len);
        let (frame, wire) = encode(0x101, &sent, true).unwrap();
        let mut out = [0u8; FD_MAX_DLEN];
        let (n, sender) = decode(&frame, wire, 0x100, 0, 0, &mut out).unwrap();
        assert_eq!(n, len);
        assert_eq!(sender, 0x101);
        assert_eq!(&out[..n], &sent[..]);
    }
}

#[test]
fn round_trip_classic() {
    for len in 0..=CLASSIC_MTU as usize {
        let sent = datagram(len);
        let (frame, wire) = encode(0x101, &sent, false).unwrap();
        let mut out = [0u8; FD_MAX_DLEN];
        let (n, _sender) = decode(&frame, wire, 0x100, 0, 0, &mut out).unwrap();
        assert_eq!((n, &out[..n]), (len, &sent[..]));
    }
}

#[test]
fn padding_between_the_datagram_and_the_frame_end_is_zero() {
    let (frame, _) = encode(0x101, &datagram(12), true).unwrap();
    assert_eq!(frame.len, 16);
    assert!(frame.data[13..].iter().all(|b| *b == 0));
}

#[test]
fn own_frames_are_dropped() {
    let (frame, wire) = encode(0x100, &datagram(4), true).unwrap();
    let mut out = [0u8; FD_MAX_DLEN];
    assert_eq!(
        decode(&frame, wire, 0x100, 0, 0, &mut out),
        Err(RxDrop::OwnFrame)
    );
}

#[test]
fn a_zero_mask_accepts_every_identifier() {
    let (frame, wire) = encode(0x7FF, &datagram(4), true).unwrap();
    let mut out = [0u8; FD_MAX_DLEN];
    assert!(decode(&frame, wire, 0x100, 0, 0, &mut out).is_ok());
}

#[test]
fn a_nonzero_mask_rejects_outside_the_band() {
    let mut out = [0u8; FD_MAX_DLEN];
    let (inside, wire) = encode(0x1AB, &datagram(4), true).unwrap();
    assert!(decode(&inside, wire, 0x100, 0x100, 0x700, &mut out).is_ok());

    let (outside, wire) = encode(0x2AB, &datagram(4), true).unwrap();
    assert_eq!(
        decode(&outside, wire, 0x100, 0x100, 0x700, &mut out),
        Err(RxDrop::Filtered { sender: 0x2AB })
    );
}

#[test]
fn a_read_that_is_not_a_frame_is_dropped() {
    let (frame, _) = encode(0x101, &datagram(4), true).unwrap();
    let mut out = [0u8; FD_MAX_DLEN];
    for nread in [0usize, 1, 15, 17, 71, 73] {
        assert_eq!(
            decode(&frame, nread, 0x100, 0, 0, &mut out),
            Err(RxDrop::NotAFrame { nread })
        );
    }
}

#[test]
fn a_frame_with_no_length_byte_is_dropped() {
    let mut frame = Frame::zeroed();
    frame.can_id = 0x101;
    frame.len = 0;
    let mut out = [0u8; FD_MAX_DLEN];
    assert_eq!(
        decode(&frame, CANFD_MTU_WIRE, 0x100, 0, 0, &mut out),
        Err(RxDrop::NoLengthByte)
    );
}

#[test]
fn a_length_byte_that_overruns_the_frame_is_dropped() {
    let (mut frame, wire) = encode(0x101, &datagram(4), true).unwrap();
    frame.data[0] = 63;
    let mut out = [0u8; FD_MAX_DLEN];
    assert_eq!(
        decode(&frame, wire, 0x100, 0, 0, &mut out),
        Err(RxDrop::BadLength {
            declared: 63,
            available: 4
        })
    );
}

#[test]
fn a_datagram_larger_than_the_buffer_is_dropped_not_truncated() {
    let (frame, wire) = encode(0x101, &datagram(20), true).unwrap();
    let mut out = [0u8; 8];
    assert_eq!(
        decode(&frame, wire, 0x100, 0, 0, &mut out),
        Err(RxDrop::BufferTooSmall {
            needed: 20,
            have: 8
        })
    );
}

#[test]
fn wire_bytes_start_with_the_identifier_little_endian() {
    let (frame, wire) = encode(0x123, &datagram(3), true).unwrap();
    let bytes = frame.as_wire_bytes(wire);
    assert_eq!(bytes.len(), CANFD_MTU_WIRE);
    assert_eq!(&bytes[..4], &[0x23, 0x01, 0x00, 0x00]);
    assert_eq!(bytes[4], 4, "frame.len is the datagram plus its prefix");
    assert_eq!(bytes[5], CANFD_BRS);
    assert_eq!(&bytes[8..12], &[3, 1, 2, 3]);
}

// Golden frames: the exact bytes the zenoh-pico sender puts on the wire.

fn padded(prefix: &[u8], wire: usize) -> Vec<u8> {
    let mut v = prefix.to_vec();
    v.resize(wire, 0);
    v
}

fn assert_golden(id: u32, datagram: &[u8], fd_mode: bool, expected: &[u8]) {
    let (frame, wire) = encode(id, datagram, fd_mode).unwrap();
    assert_eq!(wire, expected.len(), "wire length");
    assert_eq!(
        frame.as_wire_bytes(wire),
        expected,
        "frame bytes for a {}-byte datagram on {:#x}",
        datagram.len(),
        id
    );
}

#[test]
fn empty_datagram_fd() {
    assert_golden(
        0x100,
        &[],
        true,
        &padded(&[0x00, 0x01, 0x00, 0x00, 0x01, CANFD_BRS, 0x00, 0x00, 0x00], CANFD_MTU_WIRE),
    );
}

#[test]
fn short_datagram_fd() {
    assert_golden(
        0x100,
        &[1, 2, 3, 4, 5],
        true,
        &padded(
            &[
                0x00, 0x01, 0x00, 0x00, 0x06, CANFD_BRS, 0x00, 0x00, //
                0x05, 1, 2, 3, 4, 5,
            ],
            CANFD_MTU_WIRE,
        ),
    );
}

#[test]
fn datagram_landing_exactly_on_a_dlc_step() {
    assert_golden(
        0x101,
        &[1, 2, 3, 4, 5, 6, 7, 8, 9, 10, 11],
        true,
        &padded(
            &[
                0x01, 0x01, 0x00, 0x00, 0x0C, CANFD_BRS, 0x00, 0x00, //
                0x0B, 1, 2, 3, 4, 5, 6, 7, 8, 9, 10, 11,
            ],
            CANFD_MTU_WIRE,
        ),
    );
}

#[test]
fn datagram_that_must_round_up() {
    assert_golden(
        0x101,
        &[1, 2, 3, 4, 5, 6, 7, 8, 9, 10, 11, 12],
        true,
        &padded(
            &[
                0x01, 0x01, 0x00, 0x00, 0x10, CANFD_BRS, 0x00, 0x00, //
                0x0C, 1, 2, 3, 4, 5, 6, 7, 8, 9, 10, 11, 12,
            ],
            CANFD_MTU_WIRE,
        ),
    );
}

#[test]
fn full_mtu_datagram_fd() {
    let datagram: Vec<u8> = (1..=63).collect();
    let mut expected = vec![0x00, 0x02, 0x00, 0x00, 0x40, CANFD_BRS, 0x00, 0x00, 0x3F];
    expected.extend_from_slice(&datagram);
    assert_eq!(expected.len(), CANFD_MTU_WIRE, "the frame is exactly full");
    assert_golden(0x200, &datagram, true, &expected);
}

#[test]
fn classic_mode_datagram() {
    assert_golden(
        0x100,
        &[1, 2, 3, 4, 5, 6, 7],
        false,
        &[
            0x00, 0x01, 0x00, 0x00, 0x08, 0x00, 0x00, 0x00, //
            0x07, 1, 2, 3, 4, 5, 6, 7,
        ],
    );
}

#[test]
fn a_datagram_shorter_than_its_dlc_is_legal() {
    let (frame, wire) = encode(0x101, &[1, 2, 3, 4, 5, 6, 7, 8, 9, 10, 11, 12], true).unwrap();
    assert_eq!(frame.len, 16);
    let mut out = [0u8; FD_MAX_DLEN];
    let (n, sender) = decode(&frame, wire, 0x100, 0, 0, &mut out).unwrap();
    assert_eq!((n, sender), (12, 0x101));
    assert_eq!(&out[..n], &[1, 2, 3, 4, 5, 6, 7, 8, 9, 10, 11, 12]);
}

#[test]
fn a_zero_mask_ignores_match_entirely() {
    let (frame, wire) = encode(0x7FF, &[1], true).unwrap();
    let mut out = [0u8; FD_MAX_DLEN];
    assert!(decode(&frame, wire, 0x100, 0x555, 0, &mut out).is_ok());
}

// Further cases of the library's own.

#[test]
fn fd_frame_len_rounds_every_payload_up_to_a_dlc_step() {
    let steps = [0u8, 1, 2, 3, 4, 5, 6, 7, 8, 12, 16, 20, 24, 32, 48, 64];
    for payload in 0..=FD_MAX_DLEN {
        let len = fd_frame_len(payload);
        assert!(steps.contains(&len));
        assert!(len as usize >= payload);
        assert!(steps.iter().all(|s| (*s as usize) < payload || *s >= len));
    }
    assert_eq!(fd_frame_len(9), 12);
    assert_eq!(fd_frame_len(49), 64);
    assert_eq!(fd_frame_len(100), 64);
}

#[test]
fn mode_sizes() {
    assert_eq!(mtu(true), FD_MTU);
    assert_eq!(mtu(false), CLASSIC_MTU);
    assert_eq!(wire_len(true), CANFD_MTU_WIRE);
    assert_eq!(wire_len(false), CAN_MTU_WIRE);
    assert_eq!(FD_MTU as usize, FD_MAX_DLEN - LEN_PREFIX);
    assert_eq!(CLASSIC_MTU as usize, CLASSIC_MAX_DLEN - LEN_PREFIX);
}

#[test]
fn decode_leaves_the_buffer_past_the_datagram_alone() {
    let (frame, wire) = encode(0x101, &[9, 8, 7], true).unwrap();
    let mut out = [0xAAu8; 8];
    let (n, _) = decode(&frame, wire, 0x100, 0, 0, &mut out).unwrap();
    assert_eq!(n, 3);
    assert_eq!(out, [9, 8, 7, 0xAA, 0xAA, 0xAA, 0xAA, 0xAA]);
}

#[test]
fn a_refused_frame_leaves_the_buffer_alone() {
    let (frame, wire) = encode(0x100, &[9, 8, 7], true).unwrap();
    let mut out = [0xAAu8; 8];
    assert_eq!(decode(&frame, wire, 0x100, 0, 0, &mut out), Err(RxDrop::OwnFrame));
    assert_eq!(out, [0xAA; 8]);
}

#[test]
fn an_extended_sender_is_masked_to_29_bits() {
    let mut frame = Frame::zeroed();
    frame.can_id = 0x8000_0123;
    frame.len = 2;
    frame.data[0] = 1;
    frame.data[1] = 42;
    let mut out = [0u8; 4];
    assert_eq!(decode(&frame, CAN_MTU_WIRE, 0x100, 0, 0, &mut out), Ok((1, 0x123)));
    assert_eq!(out[0], 42);
}

#[test]
fn frames_read_back_from_their_wire_bytes() {
    let (frame, wire) = encode(0x123, &datagram(20), true).unwrap();
    let bytes = frame.as_wire_bytes(wire);
    assert_eq!(Frame::from_wire_bytes(&bytes), frame);
    let (classic, wire) = encode(0x7ff, &datagram(5), false).unwrap();
    let bytes = classic.as_wire_bytes(wire);
    assert_eq!(bytes.len(), CAN_MTU_WIRE);
    assert_eq!(Frame::from_wire_bytes(&bytes), classic);
}

#[test]
fn a_short_read_leaves_the_rest_of_the_frame_zero() {
    let f = Frame::from_wire_bytes(&[0x21, 0x43, 0, 0, 3, 0, 0, 0, 2, 7, 8]);
    assert_eq!(f.can_id, 0x4321);
    assert_eq!(f.len, 3);
    assert_eq!(&f.data[0..4], &[2, 7, 8, 0]);
    assert!(f.data[3..].iter().all(|b| *b == 0));
}

#[test]
fn classifying_agrees_with_decoding_and_copies_nothing() {
    let (frame, wire) = encode(0x21, &datagram(9), true).unwrap();
    assert_eq!(classify(&frame, wire, 0x20, 0, 0, 16), Ok((9, 0x21)));
    assert_eq!(classify(&frame, wire, 0x21, 0, 0, 16), Err(RxDrop::OwnFrame));
    assert_eq!(
        classify(&frame, wire, 0x20, 0, 0, 4),
        Err(RxDrop::BufferTooSmall { needed: 9, have: 4 })
    );
    let mut out = [0u8; 16];
    assert_eq!(decode(&frame, wire, 0x20, 0, 0, &mut out), classify(&frame, wire, 0x20, 0, 0, 16));
}


#[test]
fn wire_constants_match_libc() {
    assert_eq!(core::mem::size_of::<libc::canfd_frame>(), CANFD_MTU_WIRE);
    assert_eq!(core::mem::size_of::<libc::can_frame>(), CAN_MTU_WIRE);
    assert_eq!(libc::CANFD_BRS as u8, CANFD_BRS);
    assert_eq!(libc::CAN_SFF_MASK, CAN_SFF_MASK);
    assert_eq!(libc::CAN_EFF_MASK, CAN_EFF_MASK);
    assert_eq!(core::mem::size_of::<Frame>(), CANFD_MTU_WIRE);
}
