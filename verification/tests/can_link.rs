use zenoh_net::can_link::{check_endpoint, EndpointRefusal};
use zenoh_net::can_link::{
    opened_mode, prepare_send, rcvbuf_report, recv_step, send_step, OpenedMode, RcvbufReport,
    ReadOutcome, RecvFailure, RecvStep, SendFailure, SendStep, WriteOutcome,
};
use zenoh_net::frame::{
    encode, Frame, RxDrop, TxError, CANFD_MTU_WIRE, CAN_MTU_WIRE, CLASSIC_MTU, FD_MTU,
};

fn fd_frame(id: u32, datagram: &[u8]) -> Frame {
    encode(id, datagram, true).unwrap().0
}

#[test]
fn a_whole_frame_written_sends_the_datagram() {
    assert_eq!(send_step(WriteOutcome::Wrote(72), 72, 10), SendStep::Done(10));
}

#[test]
fn a_short_write_fails_with_both_lengths() {
    assert_eq!(
        send_step(WriteOutcome::Wrote(16), 72, 10),
        SendStep::Fail(SendFailure::ShortWrite { wrote: 16, expected: 72 })
    );
}

#[test]
fn a_blocked_or_interrupted_write_is_retried() {
    assert_eq!(send_step(WriteOutcome::WouldBlock, 72, 3), SendStep::Retry);
    assert_eq!(send_step(WriteOutcome::Interrupted, 72, 3), SendStep::Retry);
}

#[test]
fn a_full_transmit_queue_drops_the_datagram_as_sent() {
    assert_eq!(send_step(WriteOutcome::QueueFull, 72, 3), SendStep::Done(3));
}

#[test]
fn a_failed_write_fails() {
    assert_eq!(
        send_step(WriteOutcome::Failed, 72, 3),
        SendStep::Fail(SendFailure::WriteFailed)
    );
}

#[test]
fn prepared_fd_bytes_are_the_whole_frame() {
    let bytes = prepare_send(0x123, &[9, 8, 7], true).unwrap();
    assert_eq!(bytes.len(), CANFD_MTU_WIRE);
    assert_eq!(&bytes[0..4], &0x123u32.to_le_bytes());
    assert_eq!(bytes[4], 4);
    assert_eq!(&bytes[8..12], &[3, 9, 8, 7]);
    assert!(bytes[12..].iter().all(|b| *b == 0));
}

#[test]
fn prepared_classic_bytes_stop_at_the_classic_wire_length() {
    let bytes = prepare_send(0x10, &[1, 2], false).unwrap();
    assert_eq!(bytes.len(), CAN_MTU_WIRE);
    assert_eq!(bytes[4], 3);
    assert_eq!(&bytes[8..11], &[2, 1, 2]);
}

#[test]
fn preparing_refuses_what_encoding_refuses() {
    assert_eq!(
        prepare_send(0x10, &[0u8; 8], false),
        Err(SendFailure::Encode(TxError::TooLarge { len: 8, mtu: CLASSIC_MTU }))
    );
    assert_eq!(
        prepare_send(0x800, &[1], true),
        Err(SendFailure::Encode(TxError::IdentifierTooWide { id: 0x800 }))
    );
}

#[test]
fn a_received_frame_from_another_node_is_delivered() {
    let frame = fd_frame(0x42, &[5, 6, 7]);
    let mut out = [0u8; 10];
    let step = recv_step(ReadOutcome::Read(CANFD_MTU_WIRE), &frame, 0x41, 0, 0, &mut out);
    assert_eq!(step, RecvStep::Deliver(3, 0x42));
    assert_eq!(&out[0..4], &[5, 6, 7, 0]);
}

#[test]
fn own_and_filtered_frames_are_skipped() {
    let frame = fd_frame(0x42, &[5]);
    let mut out = [0u8; 10];
    assert_eq!(
        recv_step(ReadOutcome::Read(CANFD_MTU_WIRE), &frame, 0x42, 0, 0, &mut out),
        RecvStep::Retry
    );
    assert_eq!(
        recv_step(ReadOutcome::Read(CANFD_MTU_WIRE), &frame, 0x41, 0x100, 0x700, &mut out),
        RecvStep::Retry
    );
    assert_eq!(out, [0u8; 10]);
}

#[test]
fn malformed_reads_are_dropped_not_failed() {
    let frame = fd_frame(0x42, &[5, 6]);
    let mut out = [0u8; 1];
    assert_eq!(
        recv_step(ReadOutcome::Read(20), &frame, 0x41, 0, 0, &mut out),
        RecvStep::Dropped(RxDrop::NotAFrame { nread: 20 })
    );
    assert_eq!(
        recv_step(ReadOutcome::Read(CANFD_MTU_WIRE), &frame, 0x41, 0, 0, &mut out),
        RecvStep::Dropped(RxDrop::BufferTooSmall { needed: 2, have: 1 })
    );
}

#[test]
fn read_errors_and_end_of_file_fail_the_link() {
    let frame = Frame::zeroed();
    let mut out = [0u8; 4];
    assert_eq!(
        recv_step(ReadOutcome::Failed, &frame, 1, 0, 0, &mut out),
        RecvStep::Fail(RecvFailure::ReadFailed)
    );
    assert_eq!(
        recv_step(ReadOutcome::Read(0), &frame, 1, 0, 0, &mut out),
        RecvStep::Fail(RecvFailure::EndOfFile)
    );
    assert_eq!(recv_step(ReadOutcome::WouldBlock, &frame, 1, 0, 0, &mut out), RecvStep::Retry);
}

#[test]
fn the_kernel_reports_twice_the_buffer_it_stored() {
    assert_eq!(
        rcvbuf_report(4096, 4096),
        RcvbufReport::Short { requested: 4096, effective: 2048 }
    );
    assert_eq!(rcvbuf_report(4096, 8192), RcvbufReport::Sufficient { effective: 4096 });
    assert_eq!(
        rcvbuf_report(10, -2),
        RcvbufReport::Sufficient { effective: 0x7fff_ffff }
    );
}

#[test]
fn fd_mode_needs_both_the_endpoint_and_the_interface() {
    assert_eq!(
        opened_mode(true, true),
        OpenedMode { fd_mode: true, mtu: FD_MTU, warn_classic: false }
    );
    assert_eq!(
        opened_mode(true, false),
        OpenedMode { fd_mode: false, mtu: CLASSIC_MTU, warn_classic: true }
    );
    assert_eq!(
        opened_mode(false, true),
        OpenedMode { fd_mode: false, mtu: CLASSIC_MTU, warn_classic: true }
    );
}

#[test]
fn endpoints_are_checked_before_open() {
    assert_eq!(check_endpoint("vcan0", 0x120, 0, 0), Ok(()));
    assert_eq!(check_endpoint("vcan0", 0x7FF, 0x100, 0x700), Err(EndpointRefusal::OwnIdOutsideBand { id: 0x7FF, filter_match: 0x100, filter_mask: 0x700 }));
    assert_eq!(
        check_endpoint("vcan0", 0x201, 0x100, 0x700),
        Err(EndpointRefusal::OwnIdOutsideBand { id: 0x201, filter_match: 0x100, filter_mask: 0x700 })
    );
    assert_eq!(check_endpoint("vcan0", 0x101, 0x100, 0x700), Ok(()));
    assert_eq!(check_endpoint("vcan-nonexistent", 0x120, 0, 0), Err(EndpointRefusal::NameTooLong { len: 16 }));
    assert_eq!(check_endpoint("vcan9nope", 0x120, 0, 0), Ok(()));
    assert_eq!(check_endpoint("can0", 0x800, 0, 0), Err(EndpointRefusal::IdOutOfRange { id: 0x800 }));
    assert_eq!(check_endpoint("can0", 0x100, 0x800, 0), Err(EndpointRefusal::MatchOutOfRange { filter_match: 0x800 }));
    assert_eq!(check_endpoint("can0", 0x100, 0, 0x1000), Err(EndpointRefusal::MaskOutOfRange { filter_mask: 0x1000 }));
}
