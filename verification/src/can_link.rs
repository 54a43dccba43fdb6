//! The decisions of the CAN socket: what the link does with each outcome of a
//! `write(2)` or a `read(2)`, which mode and MTU it reports, and what it says
//! of the receive buffer the kernel granted. The system calls themselves are
//! made by the caller, which hands each outcome in and acts on the answer.
use crate::frame::{
    lemma_round_trip, decode, encode, mtu, spec_decode, spec_mtu, spec_wire_len, carries, encode_refusal, frame_bytes,
    BatchSize, Frame, RxDrop, TxError, CAN_SFF_MASK,
};
use vstd::prelude::*;

verus! {

/// What one `write(2)` of a frame came back with.
#[derive(Debug, Clone, Copy, PartialEq, Eq)]
pub enum WriteOutcome {
    /// The readiness was stale: the descriptor would block.
    WouldBlock,
    /// The call was interrupted by a signal.
    Interrupted,
    /// `ENOBUFS`: the controller's transmit queue is full.
    QueueFull,
    /// Any other error.
    Failed,
    /// The number of bytes written.
    Wrote(usize),
}

/// Why a send fails.
#[derive(Debug, Clone, Copy, PartialEq, Eq)]
pub enum SendFailure {
    /// The datagram cannot be framed.
    Encode(TxError),
    /// `write(2)` failed with an error other than the transient ones.
    WriteFailed,
    /// `write(2)` wrote part of a frame.
    ShortWrite { wrote: usize, expected: usize },
}

/// What the sender does next.
#[derive(Debug, Clone, Copy, PartialEq, Eq)]
pub enum SendStep {
    /// Wait for writability and write the frame again.
    Retry,
    /// The datagram is dealt with: report this many bytes accepted.
    Done(usize),
    /// Give up with this failure.
    Fail(SendFailure),
}

/// What one `read(2)` into a frame came back with.
#[derive(Debug, Clone, Copy, PartialEq, Eq)]
pub enum ReadOutcome {
    /// The readiness was stale: the descriptor would block.
    WouldBlock,
    /// The call was interrupted by a signal.
    Interrupted,
    /// Any other error.
    Failed,
    /// The number of bytes read.
    Read(usize),
}

/// Why a receive fails.
#[derive(Debug, Clone, Copy, PartialEq, Eq)]
pub enum RecvFailure {
    /// `read(2)` failed with an error other than the transient ones.
    ReadFailed,
    /// A zero-length read: the descriptor is going away.
    EndOfFile,
}

/// What the receiver does next.
#[derive(Debug, Clone, Copy, PartialEq, Eq)]
pub enum RecvStep {
    /// Wait for readability and read again; nothing to report.
    Retry,
    /// Read again, after noting that a malformed frame was dropped.
    Dropped(RxDrop),
    /// A datagram of this many bytes from this sender is in the buffer.
    Deliver(usize, u32),
    /// Give up with this failure.
    Fail(RecvFailure),
}

/// What the link says of the receive buffer the kernel granted.
#[derive(Debug, Clone, Copy, PartialEq, Eq)]
pub enum RcvbufReport {
    /// The kernel stored less than was asked for.
    Short { requested: u32, effective: u32 },
    /// The kernel stored at least what was asked for.
    Sufficient { effective: u32 },
}

/// The mode a CAN socket came up in.
#[derive(Debug, Clone, Copy, PartialEq, Eq)]
pub struct OpenedMode {
    /// Whether FD frames are in use.
    pub fd_mode: bool,
    /// The link MTU of that mode.
    pub mtu: BatchSize,
    /// Whether the operator is to be warned that classic framing leaves the
    /// transport too little room to make progress.
    pub warn_classic: bool,
}

/// The answer to one write outcome, given the frame's wire length and the
/// datagram's length.
pub open spec fn spec_send_step(outcome: WriteOutcome, wire: usize, dlen: usize) -> SendStep {
    match outcome {
        WriteOutcome::WouldBlock => SendStep::Retry,
        WriteOutcome::Interrupted => SendStep::Retry,
        WriteOutcome::QueueFull => SendStep::Done(dlen),
        WriteOutcome::Failed => SendStep::Fail(SendFailure::WriteFailed),
        WriteOutcome::Wrote(n) => if n == wire {
            SendStep::Done(dlen)
        } else {
            SendStep::Fail(SendFailure::ShortWrite { wrote: n, expected: wire })
        },
    }
}

/// Decide what a write outcome means for the datagram being sent.
///
/// A full transmit queue drops the datagram and reports it accepted: on a
/// best-effort link that is a transient condition, and failing would tear
/// the whole session down.
pub fn send_step(outcome: WriteOutcome, wire: usize, dlen: usize) -> (step: SendStep)
    ensures
        step == spec_send_step(outcome, wire, dlen),
{
    match outcome {
        WriteOutcome::WouldBlock => SendStep::Retry,
        WriteOutcome::Interrupted => SendStep::Retry,
        WriteOutcome::QueueFull => SendStep::Done(dlen),
        WriteOutcome::Failed => SendStep::Fail(SendFailure::WriteFailed),
        WriteOutcome::Wrote(n) => if n == wire {
            SendStep::Done(dlen)
        } else {
            SendStep::Fail(SendFailure::ShortWrite { wrote: n, expected: wire })
        },
    }
}

/// The bytes to hand to `write(2)` for a datagram: the encoded frame, cut to
/// the wire length of the mode.
pub fn prepare_send(id: u32, datagram: &[u8], fd_mode: bool) -> (res: Result<Vec<u8>, SendFailure>)
    ensures
        match encode_refusal(id, datagram@.len() as int, fd_mode) {
            Some(e) => res == Err::<Vec<u8>, SendFailure>(SendFailure::Encode(e)),
            None => res matches Ok(bytes) && exists|f: Frame|
                carries(f, id, datagram@, fd_mode) && bytes@ == #[trigger] frame_bytes(f).take(
                    spec_wire_len(fd_mode),
                ),
        },
{
    match encode(id, datagram, fd_mode) {
        Ok((frame, wire)) => {
            let bytes = frame.as_wire_bytes(wire);
            assert(carries(frame, id, datagram@, fd_mode) && bytes@ == frame_bytes(frame).take(
                spec_wire_len(fd_mode),
            ));
            Ok(bytes)
        },
        Err(e) => Err(SendFailure::Encode(e)),
    }
}

/// The answer to one read outcome, given what the frame buffer then holds.
pub open spec fn spec_recv_step(
    outcome: ReadOutcome,
    frame: Frame,
    own_id: u32,
    filter_match: u32,
    filter_mask: u32,
    out_len: usize,
) -> RecvStep {
    match outcome {
        ReadOutcome::WouldBlock => RecvStep::Retry,
        ReadOutcome::Interrupted => RecvStep::Retry,
        ReadOutcome::Failed => RecvStep::Fail(RecvFailure::ReadFailed),
        ReadOutcome::Read(nread) => if nread == 0 {
            RecvStep::Fail(RecvFailure::EndOfFile)
        } else {
            match spec_decode(frame, nread, own_id, filter_match, filter_mask, out_len) {
                Ok((n, sender)) => RecvStep::Deliver(n, sender),
                Err(RxDrop::OwnFrame) => RecvStep::Retry,
                Err(RxDrop::Filtered { .. }) => RecvStep::Retry,
                Err(drop) => RecvStep::Dropped(drop),
            }
        },
    }
}

/// A read of some bytes delivers exactly what decoding the frame with that
/// byte count delivers: the datagram's length and its sender.
pub proof fn lemma_read_delivers_what_decodes(
    nread: usize,
    frame: Frame,
    own_id: u32,
    filter_match: u32,
    filter_mask: u32,
    out_len: usize,
    n: usize,
    sender: u32,
)
    requires
        nread > 0,
    ensures
        (spec_recv_step(ReadOutcome::Read(nread), frame, own_id, filter_match, filter_mask, out_len)
            == RecvStep::Deliver(n, sender)) <==> (spec_decode(frame, nread, own_id, filter_match, filter_mask, out_len)
            == Ok::<(usize, u32), RxDrop>((n, sender))),
{
}

/// A frame that another peer encoded, in either mode, and that is read whole
/// at that mode's wire length, is delivered, with its datagram's length and
/// its sender, whenever the receiver's filter admits the sender and its
/// buffer holds the datagram.
pub proof fn lemma_encoded_frame_is_delivered(
    frame: Frame,
    id: u32,
    datagram: Seq<u8>,
    fd_mode: bool,
    own_id: u32,
    filter_match: u32,
    filter_mask: u32,
    out_len: usize,
)
    requires
        carries(frame, id, datagram, fd_mode),
        id <= 0x7FF,
        datagram.len() <= spec_mtu(fd_mode),
        own_id != id,
        filter_mask == 0 || (id & filter_mask) == filter_match,
        datagram.len() <= out_len,
    ensures
        spec_recv_step(
            ReadOutcome::Read(spec_wire_len(fd_mode) as usize),
            frame,
            own_id,
            filter_match,
            filter_mask,
            out_len,
        ) == RecvStep::Deliver(datagram.len() as usize, id),
        frame.data@.subrange(1, 1 + datagram.len() as int) == datagram,
{
    lemma_round_trip(frame, id, datagram, fd_mode, own_id, filter_match, filter_mask, out_len);
    assert(spec_wire_len(fd_mode) > 0);
}

/// Decide what a read outcome means, copying the datagram out when there is one.
///
/// Frames this peer sent itself, and frames outside the band, are skipped
/// silently; a malformed frame is dropped with a note, never failing the link;
/// a zero-length read is the descriptor going away.
pub fn recv_step(
    outcome: ReadOutcome,
    frame: &Frame,
    own_id: u32,
    filter_match: u32,
    filter_mask: u32,
    out: &mut [u8],
) -> (step: RecvStep)
    requires
        outcome matches ReadOutcome::Read(nread) ==> (spec_decode(
            *frame,
            nread,
            own_id,
            filter_match,
            filter_mask,
            old(out)@.len() as usize,
        ) matches Ok((n, _)) ==> n <= 63),
    ensures
        step == spec_recv_step(outcome, *frame, own_id, filter_match, filter_mask, old(out)@.len() as usize),
        match step {
            RecvStep::Deliver(n, _) => final(out)@ == frame.data@.subrange(1, 1 + n as int) + old(out)@.skip(
                n as int,
            ),
            _ => final(out)@ == old(out)@,
        },
{
    match outcome {
        ReadOutcome::WouldBlock => RecvStep::Retry,
        ReadOutcome::Interrupted => RecvStep::Retry,
        ReadOutcome::Failed => RecvStep::Fail(RecvFailure::ReadFailed),
        ReadOutcome::Read(nread) => {
            if nread == 0 {
                return RecvStep::Fail(RecvFailure::EndOfFile);
            }
            match decode(frame, nread, own_id, filter_match, filter_mask, out) {
                Ok((n, sender)) => RecvStep::Deliver(n, sender),
                Err(RxDrop::OwnFrame) => RecvStep::Retry,
                Err(RxDrop::Filtered { sender }) => RecvStep::Retry,
                Err(drop) => RecvStep::Dropped(drop),
            }
        },
    }
}

/// The value of a C `int` read back as an unsigned 32-bit quantity.
pub open spec fn spec_as_u32(granted: i32) -> int {
    if granted >= 0 { granted as int } else { granted + 0x1_0000_0000 }
}

/// What the kernel granted, given the value `SO_RCVBUF` reads back.
///
/// The kernel reports twice what it stored, the second half being its own
/// bookkeeping allowance.
pub fn rcvbuf_report(requested: u32, granted: i32) -> (report: RcvbufReport)
    ensures
        ({
            let effective = spec_as_u32(granted) / 2;
            if effective < requested {
                report == RcvbufReport::Short { requested, effective: effective as u32 }
            } else {
                report == RcvbufReport::Sufficient { effective: effective as u32 }
            }
        }),
{
    let raw: u32 = if granted >= 0 {
        granted as u32
    } else {
        (granted as i64 + 0x1_0000_0000i64) as u32
    };
    let effective = raw / 2;
    if effective < requested {
        RcvbufReport::Short { requested, effective }
    } else {
        RcvbufReport::Sufficient { effective }
    }
}

/// The mode a socket reports once it is open: FD only if the endpoint asked
/// for it and the interface accepted FD frames, the MTU of that mode, and a
/// warning whenever classic framing results.
pub fn opened_mode(wants_fd: bool, fd_frames_accepted: bool) -> (mode: OpenedMode)
    ensures
        mode.fd_mode == (wants_fd && fd_frames_accepted),
        mode.mtu as int == spec_mtu(mode.fd_mode),
        mode.warn_classic == !mode.fd_mode,
{
    let fd_mode = wants_fd && fd_frames_accepted;
    OpenedMode { fd_mode, mtu: mtu(fd_mode), warn_classic: !fd_mode }
}

/// The longest interface name the kernel takes: `IFNAMSIZ` less its NUL.
pub const MAX_DEVICE_NAME: usize = 15;

/// Why an endpoint is refused before its socket is opened.
#[derive(Debug, Clone, Copy, PartialEq, Eq)]
pub enum EndpointRefusal {
    /// The interface name is longer than the kernel takes.
    NameTooLong { len: usize },
    /// This peer's identifier is above the 11-bit range.
    IdOutOfRange { id: u32 },
    /// The filter's match value is above the 11-bit range.
    MatchOutOfRange { filter_match: u32 },
    /// The filter's mask is above the 11-bit range.
    MaskOutOfRange { filter_mask: u32 },
    /// The filter admits no frame from this peer's own identifier, so the
    /// band could never address it.
    OwnIdOutsideBand { id: u32, filter_match: u32, filter_mask: u32 },
}

/// Whether the filter `(filter_match, filter_mask)` admits identifier `id`: a
/// zero mask admits every identifier.
pub open spec fn spec_admits(id: u32, filter_match: u32, filter_mask: u32) -> bool {
    filter_mask == 0 || (id & filter_mask) == filter_match
}

/// The first reason, in the order the checks are made, to refuse an endpoint
/// whose interface name is `name_len` bytes long; `None` when it is accepted.
pub open spec fn spec_endpoint_refusal(name_len: nat, id: u32, filter_match: u32, filter_mask: u32) -> Option<EndpointRefusal> {
    if name_len > MAX_DEVICE_NAME {
        Some(EndpointRefusal::NameTooLong { len: name_len as usize })
    } else if id > CAN_SFF_MASK {
        Some(EndpointRefusal::IdOutOfRange { id })
    } else if filter_match > CAN_SFF_MASK {
        Some(EndpointRefusal::MatchOutOfRange { filter_match })
    } else if filter_mask > CAN_SFF_MASK {
        Some(EndpointRefusal::MaskOutOfRange { filter_mask })
    } else if !spec_admits(id, filter_match, filter_mask) {
        Some(EndpointRefusal::OwnIdOutsideBand { id, filter_match, filter_mask })
    } else {
        None
    }
}

/// Check an endpoint before its socket is opened: the interface name fits
/// the kernel's limit, the identifier, match and mask are 11-bit values, and
/// the filter admits this peer's own identifier.
pub fn check_endpoint(device: &str, id: u32, filter_match: u32, filter_mask: u32) -> (r: Result<(), EndpointRefusal>)
    ensures
        r matches Err(e) ==> spec_endpoint_refusal(device.len() as nat, id, filter_match, filter_mask) == Some(e),
        r is Ok <==> spec_endpoint_refusal(device.len() as nat, id, filter_match, filter_mask) is None,
{
    let len = device.len();
    if len > MAX_DEVICE_NAME {
        Err(EndpointRefusal::NameTooLong { len })
    } else if id > CAN_SFF_MASK {
        Err(EndpointRefusal::IdOutOfRange { id })
    } else if filter_match > CAN_SFF_MASK {
        Err(EndpointRefusal::MatchOutOfRange { filter_match })
    } else if filter_mask > CAN_SFF_MASK {
        Err(EndpointRefusal::MaskOutOfRange { filter_mask })
    } else if !(filter_mask == 0 || (id & filter_mask) == filter_match) {
        Err(EndpointRefusal::OwnIdOutsideBand { id, filter_match, filter_mask })
    } else {
        Ok(())
    }
}

} // verus!
