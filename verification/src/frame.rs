//! The CAN link wire format.
//!
//! One CAN frame carries one zenoh datagram. CAN FD payload lengths are
//! quantised: the DLC encodes 0..=8, 12, 16, 20, 24, 32, 48, 64 and nothing
//! between, so a 40-byte datagram travels in a 48-byte frame and the receiver
//! cannot recover the true length from the frame alone. Byte 0 of every
//! payload is therefore the datagram length and bytes 1..=N are the datagram.
//!
//! This module holds no I/O and no platform type.
use vstd::prelude::*;

verus! {

/// The size type of a transport batch.
pub type BatchSize = u16;

/// Byte 0 of the frame payload carries the true datagram length.
pub const LEN_PREFIX: usize = 1;

/// `CANFD_MAX_DLEN`.
pub const FD_MAX_DLEN: usize = 64;

/// `CAN_MAX_DLEN`.
pub const CLASSIC_MAX_DLEN: usize = 8;

/// Usable datagram bytes of a CAN FD frame once the length prefix is subtracted.
pub const FD_MTU: BatchSize = 63;

/// Usable datagram bytes of a classic frame once the length prefix is subtracted.
pub const CLASSIC_MTU: BatchSize = 7;

/// `sizeof(struct can_frame)`: the write size of a classic frame.
pub const CAN_MTU_WIRE: usize = 16;

/// `sizeof(struct canfd_frame)`: the write size of an FD frame.
pub const CANFD_MTU_WIRE: usize = 72;

/// `CANFD_BRS`: use the fast data phase.
pub const CANFD_BRS: u8 = 0x01;

/// The 11-bit standard identifier range.
pub const CAN_SFF_MASK: u32 = 0x0000_07FF;

/// The 29-bit extended identifier range.
pub const CAN_EFF_MASK: u32 = 0x1FFF_FFFF;

/// `struct canfd_frame` from `<linux/can.h>`.
///
/// In classic mode only the first [`CAN_MTU_WIRE`] bytes are written, and they
/// overlay `struct can_frame` exactly.
#[derive(Clone, Copy, Debug, PartialEq, Eq)]
pub struct Frame {
    pub can_id: u32,
    pub len: u8,
    pub flags: u8,
    pub res0: u8,
    pub res1: u8,
    pub data: [u8; FD_MAX_DLEN],
}

/// Refusal reasons for [`encode`].
#[derive(Debug, Clone, Copy, PartialEq, Eq)]
pub enum TxError {
    /// The datagram does not fit one frame.
    TooLarge { len: usize, mtu: BatchSize },
    /// Only 11-bit identifiers are expressible.
    IdentifierTooWide { id: u32 },
}

/// Why a received frame was not delivered to the transport.
#[derive(Debug, Clone, Copy, PartialEq, Eq)]
pub enum RxDrop {
    /// Neither a `can_frame` nor a `canfd_frame`: a runt or an error frame.
    NotAFrame { nread: usize },
    /// Our own transmission, heard back on a loopback-enabled interface.
    OwnFrame,
    /// Outside the identifier band this bus reserves for zenoh.
    Filtered { sender: u32 },
    /// No room for even the length prefix.
    NoLengthByte,
    /// The length byte disagrees with the frame length.
    BadLength { declared: usize, available: usize },
    /// The transport's buffer cannot hold the datagram.
    BufferTooSmall { needed: usize, have: usize },
}

// ---------------------------------------------------------------------------
// Specification
// ---------------------------------------------------------------------------

/// The usable datagram size of a mode.
pub open spec fn spec_mtu(fd_mode: bool) -> int {
    if fd_mode { 63 } else { 7 }
}

/// The number of bytes of a frame that go to `write(2)` in a mode.
pub open spec fn spec_wire_len(fd_mode: bool) -> int {
    if fd_mode { 72 } else { 16 }
}

/// A length a CAN FD frame can have: every length up to 8, then the DLC steps.
pub open spec fn is_fd_frame_len(n: int) -> bool {
    ||| 0 <= n <= 8
    ||| n == 12 || n == 16 || n == 20 || n == 24 || n == 32 || n == 48 || n == 64
}

/// A payload length rounded up to the next representable CAN FD frame length
/// (64 for anything longer than 48).
pub open spec fn spec_fd_frame_len(payload: int) -> int {
    if payload <= 8 {
        payload
    } else if payload <= 12 {
        12
    } else if payload <= 16 {
        16
    } else if payload <= 20 {
        20
    } else if payload <= 24 {
        24
    } else if payload <= 32 {
        32
    } else if payload <= 48 {
        48
    } else {
        64
    }
}

/// The `len` field of the frame that carries a datagram of `dlen` bytes.
pub open spec fn spec_frame_len(dlen: int, fd_mode: bool) -> int {
    if fd_mode { spec_fd_frame_len(dlen + 1) } else { dlen + 1 }
}

/// The 64 payload bytes of the frame that carries `datagram`: its length,
/// the datagram, then zeros.
pub open spec fn spec_payload(datagram: Seq<u8>) -> Seq<u8> {
    seq![datagram.len() as u8] + datagram + Seq::new((63 - datagram.len()) as nat, |i: int| 0u8)
}

/// `frame` is the frame that carries `datagram` from `id` in the given mode.
pub open spec fn carries(frame: Frame, id: u32, datagram: Seq<u8>, fd_mode: bool) -> bool {
    &&& frame.can_id == id
    &&& frame.len as int == spec_frame_len(datagram.len() as int, fd_mode)
    &&& frame.flags == (if fd_mode { CANFD_BRS } else { 0u8 })
    &&& frame.res0 == 0
    &&& frame.res1 == 0
    &&& frame.data@ == spec_payload(datagram)
}

/// What [`encode`] answers.
pub open spec fn encode_refusal(id: u32, dlen: int, fd_mode: bool) -> Option<TxError> {
    if id > CAN_SFF_MASK {
        Some(TxError::IdentifierTooWide { id })
    } else if dlen > spec_mtu(fd_mode) {
        Some(TxError::TooLarge { len: dlen as usize, mtu: spec_mtu(fd_mode) as BatchSize })
    } else {
        None
    }
}

/// What [`decode`] answers, rule by rule in the order the receiver applies them.
pub open spec fn spec_decode(
    frame: Frame,
    nread: usize,
    own_id: u32,
    filter_match: u32,
    filter_mask: u32,
    out_len: usize,
) -> Result<(usize, u32), RxDrop> {
    let sender = frame.can_id & CAN_EFF_MASK;
    let declared = frame.data@[0] as usize;
    if nread != CANFD_MTU_WIRE && nread != CAN_MTU_WIRE {
        Err(RxDrop::NotAFrame { nread })
    } else if sender == own_id {
        Err(RxDrop::OwnFrame)
    } else if filter_mask != 0 && (sender & filter_mask) != filter_match {
        Err(RxDrop::Filtered { sender })
    } else if (frame.len as int) < 1 {
        Err(RxDrop::NoLengthByte)
    } else if declared > frame.len - 1 {
        Err(RxDrop::BadLength { declared, available: (frame.len - 1) as usize })
    } else if declared > out_len {
        Err(RxDrop::BufferTooSmall { needed: declared, have: out_len })
    } else {
        Ok((declared, sender))
    }
}

/// The little-endian bytes of a `u32`.
pub open spec fn le_bytes_u32(x: u32) -> Seq<u8> {
    seq![
        (x % 256) as u8,
        ((x / 256) % 256) as u8,
        ((x / 65536) % 256) as u8,
        ((x / 16777216) % 256) as u8,
    ]
}

/// The 72 bytes of a frame as the kernel lays out `struct canfd_frame`.
pub open spec fn frame_bytes(frame: Frame) -> Seq<u8> {
    le_bytes_u32(frame.can_id) + seq![frame.len, frame.flags, frame.res0, frame.res1]
        + frame.data@
}

// ---------------------------------------------------------------------------
// Implementation
// ---------------------------------------------------------------------------

impl Frame {
    /// A frame whose every byte is zero.
    pub fn zeroed() -> (frame: Frame)
        ensures
            frame.can_id == 0,
            frame.len == 0,
            frame.flags == 0,
            frame.res0 == 0,
            frame.res1 == 0,
            frame.data@ == Seq::new(64, |i: int| 0u8),
    {
        let frame = Frame { can_id: 0, len: 0, flags: 0, res0: 0, res1: 0, data: [0u8; FD_MAX_DLEN] };
        assert(frame.data@ =~= Seq::new(64, |i: int| 0u8));
        frame
    }

    /// The first `wire` bytes of the frame, as they go to `write(2)`.
    pub fn as_wire_bytes(&self, wire: usize) -> (bytes: Vec<u8>)
        requires
            wire <= CANFD_MTU_WIRE,
        ensures
            bytes@ == frame_bytes(*self).take(wire as int),
    {
        let ghost all = frame_bytes(*self);
        let mut all_bytes: Vec<u8> = Vec::new();
        let id = self.can_id;
        all_bytes.push((id % 256) as u8);
        all_bytes.push(((id / 256) % 256) as u8);
        all_bytes.push(((id / 65536) % 256) as u8);
        all_bytes.push(((id / 16777216) % 256) as u8);
        all_bytes.push(self.len);
        all_bytes.push(self.flags);
        all_bytes.push(self.res0);
        all_bytes.push(self.res1);
        assert(all_bytes@ =~= all.take(8));
        let mut i: usize = 0;
        while i < FD_MAX_DLEN
            invariant
                i <= 64,
                all == frame_bytes(*self),
                all.len() == 72,
                all_bytes@ =~= all.take(8 + i),
            decreases 64 - i,
        {
            all_bytes.push(self.data[i]);
            i = i + 1;
            assert(all_bytes@ =~= all.take(8 + i));
        }
        let mut bytes: Vec<u8> = Vec::new();
        let mut j: usize = 0;
        while j < wire
            invariant
                j <= wire <= 72,
                all_bytes@ == all,
                all.len() == 72,
                bytes@ =~= all.take(j as int),
            decreases wire - j,
        {
            bytes.push(all_bytes[j]);
            j = j + 1;
            assert(bytes@ =~= all.take(j as int));
        }
        bytes
    }
}

/// The little-endian bytes of a value built from four bytes are those bytes.
proof fn lemma_le_bytes_u32(b0: u8, b1: u8, b2: u8, b3: u8)
    ensures
        ({
            let x = b0 as int + 256 * b1 + 65536 * b2 + 16777216 * b3;
            &&& 0 <= x <= u32::MAX
            &&& le_bytes_u32(x as u32) == seq![b0, b1, b2, b3]
        }),
{
    let x = b0 as int + 256 * b1 + 65536 * b2 + 16777216 * b3;
    let q1 = b1 as int + 256 * b2 + 65536 * b3;
    let q2 = b2 as int + 256 * b3;
    vstd::arithmetic::div_mod::lemma_fundamental_div_mod_converse(x, 256, q1, b0 as int);
    vstd::arithmetic::div_mod::lemma_fundamental_div_mod_converse(q1, 256, q2, b1 as int);
    vstd::arithmetic::div_mod::lemma_fundamental_div_mod_converse(
        x,
        65536,
        q2,
        b0 as int + 256 * b1,
    );
    vstd::arithmetic::div_mod::lemma_fundamental_div_mod_converse(q2, 256, b3 as int, b2 as int);
    vstd::arithmetic::div_mod::lemma_fundamental_div_mod_converse(
        x,
        16777216,
        b3 as int,
        b0 as int + 256 * b1 + 65536 * b2,
    );
    vstd::arithmetic::div_mod::lemma_fundamental_div_mod_converse(b3 as int, 256, 0, b3 as int);
    assert(le_bytes_u32(x as u32) =~= seq![b0, b1, b2, b3]);
}

impl Frame {
    /// The frame a read of `bytes` into a zeroed frame leaves: the bytes read,
    /// laid out as the kernel lays out `struct canfd_frame`, then zeros.
    pub fn from_wire_bytes(bytes: &[u8]) -> (frame: Frame)
        requires
            bytes@.len() <= CANFD_MTU_WIRE,
        ensures
            frame_bytes(frame) == bytes@ + Seq::new((72 - bytes@.len()) as nat, |i: int| 0u8),
    {
        let ghost want = bytes@ + Seq::new((72 - bytes@.len()) as nat, |i: int| 0u8);
        let mut buf: Vec<u8> = Vec::new();
        let mut i: usize = 0;
        while i < CANFD_MTU_WIRE
            invariant
                i <= 72,
                bytes@.len() <= 72,
                want == bytes@ + Seq::new((72 - bytes@.len()) as nat, |i: int| 0u8),
                buf@ =~= want.take(i as int),
            decreases 72 - i,
        {
            let b = if i < bytes.len() {
                bytes[i]
            } else {
                0u8
            };
            buf.push(b);
            i = i + 1;
            assert(buf@ =~= want.take(i as int));
        }
        assert(buf@ =~= want);
        let can_id: u32 = buf[0] as u32 + buf[1] as u32 * 256 + buf[2] as u32 * 65536 + buf[3] as u32
            * 16777216;
        proof {
            lemma_le_bytes_u32(buf@[0], buf@[1], buf@[2], buf@[3]);
        }
        let mut data = [0u8; FD_MAX_DLEN];
        let mut j: usize = 0;
        while j < FD_MAX_DLEN
            invariant
                j <= 64,
                buf@.len() == 72,
                data@.len() == 64,
                forall|k: int| 0 <= k < j ==> data@[k] == buf@[8 + k],
            decreases 64 - j,
        {
            data[j] = buf[8 + j];
            j = j + 1;
        }
        let frame = Frame { can_id, len: buf[4], flags: buf[5], res0: buf[6], res1: buf[7], data };
        assert(frame_bytes(frame) =~= want);
        frame
    }
}

/// The usable datagram size for a mode.
pub fn mtu(fd_mode: bool) -> (m: BatchSize)
    ensures
        m as int == spec_mtu(fd_mode),
{
    if fd_mode {
        FD_MTU
    } else {
        CLASSIC_MTU
    }
}

/// The number of bytes handed to `write(2)`, which is how the kernel tells a
/// classic frame from an FD one.
pub fn wire_len(fd_mode: bool) -> (w: usize)
    ensures
        w as int == spec_wire_len(fd_mode),
{
    if fd_mode {
        CANFD_MTU_WIRE
    } else {
        CAN_MTU_WIRE
    }
}

/// Round a payload length up to the next representable CAN FD frame length.
///
/// Below 9 bytes every length is representable and the payload is used as is;
/// above it only the DLC steps exist.
pub fn fd_frame_len(payload: usize) -> (len: u8)
    ensures
        len as int == spec_fd_frame_len(payload as int),
{
    if payload <= CLASSIC_MAX_DLEN {
        return payload as u8;
    }
    let steps: [u8; 7] = [12, 16, 20, 24, 32, 48, 64];
    let ghost table = seq![12u8, 16u8, 20u8, 24u8, 32u8, 48u8, 64u8];
    assert(steps@ =~= table);
    let mut k: usize = 0;
    while k < 7
        invariant
            k <= 7,
            payload > 8,
            steps@ == table,
            table[0] == 12u8 && table[1] == 16u8 && table[2] == 20u8 && table[3] == 24u8,
            table[4] == 32u8 && table[5] == 48u8 && table[6] == 64u8,
            forall|j: int| 0 <= j < k ==> payload > table[j],
        decreases 7 - k,
    {
        let step = steps[k];
        if payload <= step as usize {
            return step;
        }
        k = k + 1;
    }
    FD_MAX_DLEN as u8
}

/// Build the frame carrying `datagram`, and the number of bytes to write.
pub fn encode(id: u32, datagram: &[u8], fd_mode: bool) -> (res: Result<(Frame, usize), TxError>)
    ensures
        match encode_refusal(id, datagram@.len() as int, fd_mode) {
            Some(e) => res == Err::<(Frame, usize), TxError>(e),
            None => res matches Ok((frame, wire)) && carries(frame, id, datagram@, fd_mode)
                && wire as int == spec_wire_len(fd_mode),
        },
{
    if id > CAN_SFF_MASK {
        return Err(TxError::IdentifierTooWide { id });
    }
    let mtu = mtu(fd_mode);
    if datagram.len() > mtu as usize {
        return Err(TxError::TooLarge { len: datagram.len(), mtu });
    }
    let dlen = datagram.len();
    let mut frame = Frame::zeroed();
    frame.can_id = id;
    frame.data[0] = dlen as u8;
    let mut i: usize = 0;
    while i < dlen
        invariant
            dlen == datagram@.len(),
            dlen <= 63,
            i <= dlen,
            frame.can_id == id,
            frame.len == 0,
            frame.flags == 0,
            frame.res0 == 0,
            frame.res1 == 0,
            frame.data@.len() == 64,
            frame.data@[0] == dlen as u8,
            forall|j: int| 0 <= j < i ==> frame.data@[1 + j] == datagram@[j],
            forall|j: int| 1 + i <= j < 64 ==> frame.data@[j] == 0,
        decreases dlen - i,
    {
        frame.data[LEN_PREFIX + i] = datagram[i];
        i = i + 1;
    }
    assert(frame.data@ =~= spec_payload(datagram@));
    let payload = dlen + LEN_PREFIX;
    if fd_mode {
        // The bit-rate switch is requested for every FD frame, not only the
        // long ones: the data phase is where the rate gain is.
        frame.flags = CANFD_BRS;
        frame.len = fd_frame_len(payload);
    } else {
        frame.len = payload as u8;
    }
    Ok((frame, wire_len(fd_mode)))
}

/// Decide what a received frame is: the datagram's length and sender, or
/// why the frame is dropped.
///
/// The rules are applied in the same order as the zenoh-pico receiver, so the
/// two implementations drop the same frames for the same reasons.
pub fn classify(
    frame: &Frame,
    nread: usize,
    own_id: u32,
    filter_match: u32,
    filter_mask: u32,
    out_len: usize,
) -> (res: Result<(usize, u32), RxDrop>)
    ensures
        res == spec_decode(*frame, nread, own_id, filter_match, filter_mask, out_len),
{
    if nread != CANFD_MTU_WIRE && nread != CAN_MTU_WIRE {
        return Err(RxDrop::NotAFrame { nread });
    }
    let sender = frame.can_id & CAN_EFF_MASK;
    if sender == own_id {
        return Err(RxDrop::OwnFrame);
    }
    if filter_mask != 0 && (sender & filter_mask) != filter_match {
        return Err(RxDrop::Filtered { sender });
    }
    let frame_len = frame.len as usize;
    if frame_len < LEN_PREFIX {
        return Err(RxDrop::NoLengthByte);
    }
    let declared = frame.data[0] as usize;
    let available = frame_len - LEN_PREFIX;
    if declared > available {
        return Err(RxDrop::BadLength { declared, available });
    }
    if declared > out_len {
        return Err(RxDrop::BufferTooSmall { needed: declared, have: out_len });
    }
    Ok((declared, sender))
}

/// Decide what a received frame is, and copy out the datagram if it is one.
pub fn decode(
    frame: &Frame,
    nread: usize,
    own_id: u32,
    filter_match: u32,
    filter_mask: u32,
    out: &mut [u8],
) -> (res: Result<(usize, u32), RxDrop>)
    requires
        spec_decode(*frame, nread, own_id, filter_match, filter_mask, old(out)@.len() as usize) matches Ok(
            (n, _),
        ) ==> n <= 63,
    ensures
        res == spec_decode(*frame, nread, own_id, filter_match, filter_mask, old(out)@.len() as usize),
        final(out)@.len() == old(out)@.len(),
        match res {
            Ok((n, _)) => final(out)@ == frame.data@.subrange(1, 1 + n as int) + old(out)@.skip(n as int),
            Err(_) => final(out)@ == old(out)@,
        },
{
    let (declared, sender) = match classify(frame, nread, own_id, filter_match, filter_mask, out.len()) {
        Ok(found) => found,
        Err(drop) => return Err(drop),
    };
    let ghost before = out@;
    let mut i: usize = 0;
    while i < declared
        invariant
            i <= declared <= out@.len(),
            declared <= 63,
            out@.len() == before.len(),
            frame.data@.len() == 64,
            forall|j: int| 0 <= j < i ==> out@[j] == frame.data@[1 + j],
            forall|j: int| i <= j < out@.len() ==> out@[j] == before[j],
        decreases declared - i,
    {
        out[i] = frame.data[LEN_PREFIX + i];
        i = i + 1;
    }
    assert(out@ =~= frame.data@.subrange(1, 1 + declared as int) + before.skip(declared as int));
    Ok((declared, sender))
}

// ---------------------------------------------------------------------------
// Laws
// ---------------------------------------------------------------------------

/// The frame length chosen for an FD payload of at most 64 bytes is the
/// smallest representable CAN FD frame length that holds the payload.
pub proof fn lemma_fd_frame_len_is_least_fit(payload: int)
    requires
        0 <= payload <= 64,
    ensures
        is_fd_frame_len(spec_fd_frame_len(payload)),
        payload <= spec_fd_frame_len(payload),
        forall|n: int| is_fd_frame_len(n) && payload <= n ==> spec_fd_frame_len(payload) <= n,
{
}

/// A datagram that fits the MTU of a mode travels in a frame that holds it and
/// its length prefix, and whose length the mode can represent: at most 64
/// bytes in FD mode, at most 8 in classic mode.
pub proof fn lemma_frame_holds_datagram(dlen: int, fd_mode: bool)
    requires
        0 <= dlen <= spec_mtu(fd_mode),
    ensures
        dlen + 1 <= spec_frame_len(dlen, fd_mode),
        is_fd_frame_len(spec_frame_len(dlen, fd_mode)),
        spec_frame_len(dlen, fd_mode) <= (if fd_mode { 64int } else { 8int }),
{
}

/// Every payload byte past the datagram is zero.
pub proof fn lemma_padding_is_zero(frame: Frame, id: u32, datagram: Seq<u8>, fd_mode: bool, j: int)
    requires
        carries(frame, id, datagram, fd_mode),
        datagram.len() <= 63,
        datagram.len() + 1 <= j < 64,
    ensures
        frame.data@[j] == 0,
{
}

/// A frame is known by its wire bytes: two frames laid out alike are the
/// same frame, so reading back the bytes a frame is written as gives that
/// frame.
pub proof fn lemma_frame_bytes_identify(f: Frame, g: Frame)
    requires
        frame_bytes(f) == frame_bytes(g),
    ensures
        f == g,
{
    let bf = frame_bytes(f);
    let bg = frame_bytes(g);
    let x = f.can_id;
    let y = g.can_id;
    assert(bf[0] == bg[0] && bf[1] == bg[1] && bf[2] == bg[2] && bf[3] == bg[3]);
    assert(x == (x % 256) + 256 * ((x / 256) % 256) + 65536 * ((x / 65536) % 256) + 16777216 * ((
    x / 16777216) % 256)) by (bit_vector);
    assert(y == (y % 256) + 256 * ((y / 256) % 256) + 65536 * ((y / 65536) % 256) + 16777216 * ((
    y / 16777216) % 256)) by (bit_vector);
    assert(bf[4] == bg[4] && bf[5] == bg[5] && bf[6] == bg[6] && bf[7] == bg[7]);
    assert forall|i: int| 0 <= i < 64 implies f.data@[i] == g.data@[i] by {
        assert(bf[8 + i] == f.data@[i]);
        assert(bg[8 + i] == g.data@[i]);
    }
    assert(f.data =~= g.data);
    assert(x % 256 == y % 256);
    assert((x / 256) % 256 == (y / 256) % 256);
    assert((x / 65536) % 256 == (y / 65536) % 256);
    assert((x / 16777216) % 256 == (y / 16777216) % 256);
}

/// What the sender encodes, the receiver decodes: a frame that carries a
/// datagram from an 11-bit identifier, read whole, by a peer with another
/// identifier whose filter admits the sender and whose buffer holds the
/// datagram, yields exactly that datagram and that sender.
pub proof fn lemma_round_trip(
    frame: Frame,
    id: u32,
    datagram: Seq<u8>,
    fd_mode: bool,
    own_id: u32,
    filter_match: u32,
    filter_mask: u32,
    out_len: usize,
)
    requires
        carries(frame, id, datagram, fd_mode),
        id <= CAN_SFF_MASK,
        datagram.len() <= spec_mtu(fd_mode),
        own_id != id,
        filter_mask == 0 || (id & filter_mask) == filter_match,
        datagram.len() <= out_len,
    ensures
        spec_decode(frame, spec_wire_len(fd_mode) as usize, own_id, filter_match, filter_mask, out_len)
            == Ok::<(usize, u32), RxDrop>((datagram.len() as usize, id)),
        frame.data@.subrange(1, 1 + datagram.len() as int) == datagram,
{
    assert(id <= 0x7FF ==> id & 0x1FFF_FFFF == id) by (bit_vector);
    lemma_frame_holds_datagram(datagram.len() as int, fd_mode);
    assert(frame.data@[0] == datagram.len() as u8);
    assert(frame.data@.subrange(1, 1 + datagram.len() as int) =~= datagram);
}

/// A zero mask admits every identifier: the match value is never consulted,
/// and no frame is dropped as filtered.
pub proof fn lemma_zero_mask_ignores_match(
    frame: Frame,
    nread: usize,
    own_id: u32,
    filter_match: u32,
    out_len: usize,
)
    ensures
        spec_decode(frame, nread, own_id, filter_match, 0, out_len) == spec_decode(
            frame,
            nread,
            own_id,
            0,
            0,
            out_len,
        ),
        !(spec_decode(frame, nread, own_id, filter_match, 0, out_len) is Err
            && spec_decode(frame, nread, own_id, filter_match, 0, out_len)->Err_0 is Filtered),
{
}

/// A well-sized read of a frame whose sender is this peer is dropped as its own
/// transmission, whatever the filter and the payload.
pub proof fn lemma_own_frames_are_dropped(
    frame: Frame,
    nread: usize,
    own_id: u32,
    filter_match: u32,
    filter_mask: u32,
    out_len: usize,
)
    requires
        nread == CANFD_MTU_WIRE || nread == CAN_MTU_WIRE,
        frame.can_id & CAN_EFF_MASK == own_id,
    ensures
        spec_decode(frame, nread, own_id, filter_match, filter_mask, out_len)
            == Err::<(usize, u32), RxDrop>(RxDrop::OwnFrame),
{
}

} // verus!
