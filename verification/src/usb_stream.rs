//! The device's side of the stream channel: it finds frames in USB packets and answers them.
use vstd::prelude::*;

use crate::protocol;
use crate::protocol::{STREAM_FRAME_HEADER_BYTES, STREAM_PROTO_VERSION};
use crate::streams;
use crate::streams::{FeedError, HostStreamDescriptor, StreamManager, MAX_STATUS_STREAMS};

verus! {

/// How many bytes of frames the device collects.
pub const STREAM_RX_ACCUM_BYTES: usize = 512;

/// What the host asks for.
#[derive(Copy, Clone, Debug, PartialEq, Eq, Structural)]
pub enum HostOp {
    HelloReq,
    Feed,
    ResetStreams,
}

/// What the device answers.
#[derive(Copy, Clone, Debug, PartialEq, Eq, Structural)]
pub enum DeviceOp {
    HelloResp,
    FeedAck,
    ResetAck,
    Error,
}

/// Why the device refuses a frame.
#[derive(Copy, Clone, Debug, PartialEq, Eq, Structural)]
pub enum StreamError {
    BadFrame,
    BadPayload,
    InvalidStreamId,
    UnknownOpcode,
}

impl HostOp {
    /// The opcode on the wire.
    pub open spec fn opcode(self) -> u8 {
        match self {
            HostOp::HelloReq => 0x01,
            HostOp::Feed => 0x02,
            HostOp::ResetStreams => 0x03,
        }
    }

    /// The request with an opcode.
    pub open spec fn with_opcode(value: u8) -> Result<HostOp, u8> {
        if value == 0x01 {
            Ok(HostOp::HelloReq)
        } else if value == 0x02 {
            Ok(HostOp::Feed)
        } else if value == 0x03 {
            Ok(HostOp::ResetStreams)
        } else {
            Err(value)
        }
    }

    /// The request with an opcode, or the opcode where there is none.
    pub fn try_from(value: u8) -> (op: Result<HostOp, u8>)
        ensures
            op == HostOp::with_opcode(value),
            op matches Ok(o) ==> o.opcode() == value,
    {
        match value {
            0x01 => Ok(HostOp::HelloReq),
            0x02 => Ok(HostOp::Feed),
            0x03 => Ok(HostOp::ResetStreams),
            _ => Err(value),
        }
    }
}

impl DeviceOp {
    /// The opcode on the wire.
    pub open spec fn opcode(self) -> u8 {
        match self {
            DeviceOp::HelloResp => 0x81,
            DeviceOp::FeedAck => 0x82,
            DeviceOp::ResetAck => 0x83,
            DeviceOp::Error => 0xFF,
        }
    }

    /// The opcode on the wire.
    pub fn code(self) -> (code: u8)
        ensures
            code == self.opcode(),
    {
        match self {
            DeviceOp::HelloResp => 0x81,
            DeviceOp::FeedAck => 0x82,
            DeviceOp::ResetAck => 0x83,
            DeviceOp::Error => 0xFF,
        }
    }
}

impl StreamError {
    /// The code on the wire.
    pub open spec fn number(self) -> u8 {
        match self {
            StreamError::BadFrame => 1,
            StreamError::BadPayload => 2,
            StreamError::InvalidStreamId => 3,
            StreamError::UnknownOpcode => 4,
        }
    }

    /// The code on the wire.
    pub fn code(self) -> (code: u8)
        ensures
            code == self.number(),
    {
        match self {
            StreamError::BadFrame => 1,
            StreamError::BadPayload => 2,
            StreamError::InvalidStreamId => 3,
            StreamError::UnknownOpcode => 4,
        }
    }
}

/// A frame for the host.
#[derive(Debug)]
pub struct Reply {
    pub op: DeviceOp,
    pub payload: Vec<u8>,
}

/// A [`Reply`] with its payload as a sequence.
#[verifier::ext_equal]
pub struct Answer {
    pub op: DeviceOp,
    pub payload: Seq<u8>,
}

impl View for Reply {
    type V = Answer;

    open spec fn view(&self) -> Answer {
        Answer { op: self.op, payload: self.payload@ }
    }
}

impl Answer {
    /// The length that the header of the frame gives.
    pub open spec fn stated_len(self) -> nat {
        if self.payload.len() < u16::MAX { self.payload.len() } else { u16::MAX as nat }
    }

    /// The bytes of the frame on the wire.
    pub open spec fn wire_bytes(self) -> Seq<u8> {
        protocol::header_bytes(self.op.opcode(), self.stated_len()) + self.payload
    }
}

impl Reply {
    /// The bytes before the payload on the wire.
    pub fn header(&self) -> (header: [u8; 3])
        ensures
            header@ + self@.payload == self@.wire_bytes(),
    {
        let len: u16 = if self.payload.len() < 0xFFFF { self.payload.len() as u16 } else { 0xFFFF };
        protocol::frame_header(self.op.code(), len)
    }
}

/// The answer to what the device refuses.
pub open spec fn error_answer(error: StreamError) -> Answer {
    Answer { op: DeviceOp::Error, payload: seq![error.number()] }
}

/// The answer to what the device refuses.
pub fn stream_error(error: StreamError) -> (reply: Reply)
    ensures
        reply@ == error_answer(error),
{
    let mut payload: Vec<u8> = Vec::new();
    payload.push(error.code());
    let reply = Reply { op: DeviceOp::Error, payload };
    assert(reply@ =~= error_answer(error));
    reply
}

/// A descriptor on the wire.
pub open spec fn descriptor_bytes(d: HostStreamDescriptor) -> Seq<u8> {
    seq![
        d.stream_id,
        d.addr,
        protocol::low_byte(d.capacity as int),
        protocol::high_byte(d.capacity as int),
    ]
}

/// Descriptors on the wire.
pub open spec fn descriptors_bytes(descriptors: Seq<HostStreamDescriptor>) -> Seq<u8>
    decreases descriptors.len(),
{
    if descriptors.len() == 0 {
        Seq::empty()
    } else {
        descriptors_bytes(descriptors.drop_last()) + descriptor_bytes(descriptors.last())
    }
}

/// The descriptors of the streams in use.
pub open spec fn all_descriptors(s: streams::Streams) -> Seq<HostStreamDescriptor> {
    Seq::new(s.host_count, |k: int| streams::descriptor_of(s, k))
}

/// The payload that tells the host of the streams in use.
pub open spec fn hello_payload(descriptors: Seq<HostStreamDescriptor>) -> Seq<u8> {
    seq![STREAM_PROTO_VERSION, descriptors.len() as u8] + descriptors_bytes(descriptors)
}

/// The payload that tells the host how many bytes a stream took and how many it still can take.
pub open spec fn ack_payload(stream_id: u8, accepted: int, free: int) -> Seq<u8> {
    seq![
        stream_id,
        protocol::low_byte(accepted),
        protocol::high_byte(accepted),
        protocol::low_byte(free),
        protocol::high_byte(free),
    ]
}

/// The largest number of sixteen bits that is not above another number.
pub open spec fn at_most_word(n: nat) -> int {
    if n < u16::MAX { n as int } else { u16::MAX as int }
}

/// What a frame from the host is answered.
pub open spec fn answer_to(s: streams::Streams, opcode: u8, payload: Seq<u8>) -> Answer {
    match HostOp::with_opcode(opcode) {
        Err(_) => error_answer(StreamError::UnknownOpcode),
        Ok(HostOp::HelloReq) => Answer {
            op: DeviceOp::HelloResp,
            payload: hello_payload(all_descriptors(s)),
        },
        Ok(HostOp::Feed) => if payload.len() == 0 {
            error_answer(StreamError::BadPayload)
        } else {
            match streams::feed_result(s, payload[0], payload.drop_first()) {
                Ok(result) => Answer {
                    op: DeviceOp::FeedAck,
                    payload: ack_payload(
                        payload[0],
                        at_most_word(result.accepted as nat),
                        at_most_word(result.free as nat),
                    ),
                },
                Err(FeedError::InvalidStreamId) => error_answer(StreamError::InvalidStreamId),
            }
        },
        Ok(HostOp::ResetStreams) => if payload.len() != 0 {
            error_answer(StreamError::BadPayload)
        } else {
            Answer { op: DeviceOp::ResetAck, payload: Seq::empty() }
        },
    }
}

/// The streams after a frame from the host.
pub open spec fn streams_after(s: streams::Streams, opcode: u8, payload: Seq<u8>) -> streams::Streams {
    match HostOp::with_opcode(opcode) {
        Ok(HostOp::Feed) => if payload.len() == 0 {
            s
        } else {
            streams::fed(s, payload[0], payload.drop_first())
        },
        Ok(HostOp::ResetStreams) => if payload.len() != 0 { s } else { streams::reset_streams(s) },
        _ => s,
    }
}

/// Tells the host of the streams in use.
fn hello_reply(manager: &StreamManager) -> (reply: Reply)
    requires
        manager.wf(),
    ensures
        reply@ == (Answer {
            op: DeviceOp::HelloResp,
            payload: hello_payload(all_descriptors(manager@)),
        }),
{
    proof {
        manager.lemma_view_wf();
    }
    let none = HostStreamDescriptor { stream_id: 0, addr: 0, capacity: 0 };
    let mut descriptors: [HostStreamDescriptor; MAX_STATUS_STREAMS] = [none; 9];
    let count: usize = manager.descriptors(&mut descriptors);
    let ghost all = all_descriptors(manager@);
    let mut payload: Vec<u8> = Vec::new();
    payload.push(STREAM_PROTO_VERSION);
    payload.push(count as u8);
    let mut i: usize = 0;
    assert(all.take(0) =~= Seq::empty());
    assert(payload@ =~= seq![STREAM_PROTO_VERSION, count as u8] + descriptors_bytes(all.take(0)));
    while i < count
        invariant
            i <= count <= MAX_STATUS_STREAMS,
            all.len() == count,
            forall|k: int| 0 <= k < count ==> #[trigger] descriptors@[k] == all[k],
            payload@ == seq![STREAM_PROTO_VERSION, count as u8] + descriptors_bytes(
                all.take(i as int),
            ),
        decreases count - i,
    {
        let ghost earlier = payload@;
        let descriptor = descriptors[i];
        payload.push(descriptor.stream_id);
        payload.push(descriptor.addr);
        payload.push(protocol::low_byte_of(descriptor.capacity));
        payload.push(protocol::high_byte_of(descriptor.capacity));
        proof {
            let some = all.take(i + 1);
            assert(some.drop_last() =~= all.take(i as int));
            assert(payload@ =~= earlier + descriptor_bytes(some.last()));
            assert(payload@ =~= seq![STREAM_PROTO_VERSION, count as u8] + descriptors_bytes(some));
        }
        i = i + 1;
    }
    assert(all.take(i as int) =~= all);
    Reply { op: DeviceOp::HelloResp, payload }
}

/// A number of sixteen bits that is as near to another one as can be.
fn at_most_word_of(n: usize) -> (w: u16)
    ensures
        w == at_most_word(n as nat),
{
    if n < 0xFFFF { n as u16 } else { 0xFFFF }
}

/// Does what a frame from the host asks for.
pub fn process_stream_frame(manager: &mut StreamManager, opcode: u8, payload: &[u8]) -> (reply: Reply)
    requires
        old(manager).wf(),
    ensures
        final(manager).wf(),
        reply@ == answer_to(old(manager)@, opcode, payload@),
        final(manager)@ == streams_after(old(manager)@, opcode, payload@),
{
    match HostOp::try_from(opcode) {
        Err(_) => stream_error(StreamError::UnknownOpcode),
        Ok(HostOp::HelloReq) => hello_reply(manager),
        Ok(HostOp::Feed) => {
            if payload.len() == 0 {
                return stream_error(StreamError::BadPayload);
            }
            let stream_id: u8 = payload[0];
            let data = vstd::slice::slice_subrange(payload, 1, payload.len());
            assert(data@ =~= payload@.drop_first());
            match manager.feed(stream_id, data) {
                Ok(result) => {
                    let accepted: u16 = at_most_word_of(result.accepted);
                    let free: u16 = at_most_word_of(result.free);
                    let mut ack: Vec<u8> = Vec::new();
                    ack.push(stream_id);
                    ack.push(protocol::low_byte_of(accepted));
                    ack.push(protocol::high_byte_of(accepted));
                    ack.push(protocol::low_byte_of(free));
                    ack.push(protocol::high_byte_of(free));
                    assert(ack@ =~= ack_payload(stream_id, accepted as int, free as int));
                    Reply { op: DeviceOp::FeedAck, payload: ack }
                },
                Err(FeedError::InvalidStreamId) => stream_error(StreamError::InvalidStreamId),
            }
        },
        Ok(HostOp::ResetStreams) => {
            if payload.len() != 0 {
                return stream_error(StreamError::BadPayload);
            }
            manager.reset_all();
            let reply = Reply { op: DeviceOp::ResetAck, payload: Vec::new() };
            assert(reply@ =~= Answer { op: DeviceOp::ResetAck, payload: Seq::empty() });
            reply
        },
    }
}

/// Bytes from the host in which frames are looked for.
pub struct FrameAccumulator {
    buf: [u8; STREAM_RX_ACCUM_BYTES],
    len: usize,
}

impl View for FrameAccumulator {
    type V = Seq<u8>;

    closed spec fn view(&self) -> Seq<u8> {
        self.buf@.take(self.len as int)
    }
}

/// What stands at the front of the collected bytes.
#[derive(Debug)]
pub enum NextFrame {
    /// Not yet a whole frame.
    Incomplete,
    /// A frame that is too long to be collected.
    TooLong,
    /// A frame.
    Whole { opcode: u8, payload: Vec<u8> },
}

/// A [`NextFrame`] with its payload as a sequence.
pub enum Front {
    Incomplete,
    TooLong,
    Whole { opcode: u8, payload: Seq<u8> },
}

impl View for NextFrame {
    type V = Front;

    open spec fn view(&self) -> Front {
        match self {
            NextFrame::Incomplete => Front::Incomplete,
            NextFrame::TooLong => Front::TooLong,
            NextFrame::Whole { opcode, payload } => Front::Whole {
                opcode: *opcode,
                payload: payload@,
            },
        }
    }
}

/// What stands at the front of some bytes.
pub open spec fn front_of(bytes: Seq<u8>) -> Front {
    if bytes.len() < STREAM_FRAME_HEADER_BYTES {
        Front::Incomplete
    } else if protocol::frame_len(bytes) > STREAM_RX_ACCUM_BYTES {
        Front::TooLong
    } else if bytes.len() < protocol::frame_len(bytes) {
        Front::Incomplete
    } else {
        Front::Whole {
            opcode: bytes[0],
            payload: bytes.subrange(
                STREAM_FRAME_HEADER_BYTES as int,
                protocol::frame_len(bytes) as int,
            ),
        }
    }
}

/// What is left of some bytes once a whole frame is taken from their front, or one that is too long
/// is met.
pub open spec fn behind_front(bytes: Seq<u8>) -> Seq<u8> {
    match front_of(bytes) {
        Front::Incomplete => bytes,
        Front::TooLong => Seq::empty(),
        Front::Whole { .. } => bytes.skip(protocol::frame_len(bytes) as int),
    }
}

impl FrameAccumulator {
    /// The collected bytes fit.
    pub closed spec fn wf(self) -> bool {
        self.len <= STREAM_RX_ACCUM_BYTES
    }

    /// A well-formed accumulator holds no more bytes than it has room for.
    pub proof fn lemma_view_wf(self)
        requires
            self.wf(),
        ensures
            self@.len() <= STREAM_RX_ACCUM_BYTES,
    {
    }

    /// Nothing collected.
    pub fn new() -> (accum: Self)
        ensures
            accum.wf(),
            accum@ == Seq::<u8>::empty(),
    {
        let accum = FrameAccumulator { buf: [0u8; 512], len: 0 };
        assert(accum@ =~= Seq::<u8>::empty());
        accum
    }

    /// Forgets what was collected.
    pub fn clear(&mut self)
        ensures
            final(self).wf(),
            final(self)@ == Seq::<u8>::empty(),
    {
        self.len = 0;
        assert(self@ =~= Seq::<u8>::empty());
    }

    /// Appends a packet. Where it does not fit, everything is forgotten, the packet too.
    pub fn accept_packet(&mut self, packet: &[u8]) -> (accepted: bool)
        requires
            old(self).wf(),
        ensures
            final(self).wf(),
            accepted == (old(self)@.len() + packet@.len() <= STREAM_RX_ACCUM_BYTES),
            final(self)@ == if accepted { old(self)@ + packet@ } else { Seq::empty() },
    {
        let ghost before = self@;
        if packet.len() > STREAM_RX_ACCUM_BYTES - self.len {
            self.clear();
            return false;
        }
        let start: usize = self.len;
        let mut i: usize = 0;
        while i < packet.len()
            invariant
                i <= packet@.len(),
                self.len == start,
                start + packet@.len() <= STREAM_RX_ACCUM_BYTES,
                before.len() == start,
                forall|k: int| 0 <= k < start ==> #[trigger] self.buf@[k] == before[k],
                forall|k: int|
                    start <= k < start + i ==> #[trigger] self.buf@[k] == packet@[k - start],
            decreases packet@.len() - i,
        {
            self.buf[start + i] = packet[i];
            i = i + 1;
        }
        self.len = start + packet.len();
        assert(self@ =~= before + packet@);
        true
    }

    /// Takes the frame at the front, if there is a whole one.
    pub fn next_frame(&mut self) -> (next: NextFrame)
        requires
            old(self).wf(),
        ensures
            final(self).wf(),
            next@ == front_of(old(self)@),
            final(self)@ == behind_front(old(self)@),
    {
        let ghost before = self@;
        if self.len < STREAM_FRAME_HEADER_BYTES {
            return NextFrame::Incomplete;
        }
        let payload_len: usize = protocol::word_of(self.buf[1], self.buf[2]);
        let frame_len: usize = STREAM_FRAME_HEADER_BYTES + payload_len;
        assert(frame_len == protocol::frame_len(before));
        if frame_len > STREAM_RX_ACCUM_BYTES {
            self.clear();
            return NextFrame::TooLong;
        }
        if self.len < frame_len {
            return NextFrame::Incomplete;
        }
        let opcode: u8 = self.buf[0];
        let payload = protocol::copy_range(&self.buf, STREAM_FRAME_HEADER_BYTES, frame_len);
        assert(payload@ =~= before.subrange(STREAM_FRAME_HEADER_BYTES as int, frame_len as int));
        let left: usize = self.len - frame_len;
        let mut i: usize = 0;
        while i < left
            invariant
                i <= left,
                self.len == frame_len + left,
                self.len <= STREAM_RX_ACCUM_BYTES,
                before.len() == self.len,
                forall|k: int| 0 <= k < i ==> #[trigger] self.buf@[k] == before[frame_len + k],
                forall|k: int|
                    frame_len + i <= k < before.len() ==> #[trigger] self.buf@[k] == before[k],
            decreases left - i,
        {
            assert(self.buf@[frame_len + i] == before[frame_len + i]);
            let byte: u8 = self.buf[frame_len + i];
            self.buf[i] = byte;
            i = i + 1;
        }
        self.len = left;
        assert(self@ =~= before.skip(frame_len as int));
        NextFrame::Whole { opcode, payload }
    }
}

/// What the front of some bytes is answered.
pub open spec fn front_answer(s: streams::Streams, bytes: Seq<u8>) -> Option<Answer> {
    match front_of(bytes) {
        Front::Incomplete => None,
        Front::TooLong => Some(error_answer(StreamError::BadFrame)),
        Front::Whole { opcode, payload } => Some(answer_to(s, opcode, payload)),
    }
}

/// The streams after the front of some bytes was answered.
pub open spec fn streams_after_front(s: streams::Streams, bytes: Seq<u8>) -> streams::Streams {
    match front_of(bytes) {
        Front::Whole { opcode, payload } => streams_after(s, opcode, payload),
        _ => s,
    }
}

/// Takes a packet from the host. What does not fit is answered with an error.
pub fn on_packet(accum: &mut FrameAccumulator, packet: &[u8]) -> (refusal: Option<Reply>)
    requires
        old(accum).wf(),
    ensures
        final(accum).wf(),
        ({
            let fits = old(accum)@.len() + packet@.len() <= STREAM_RX_ACCUM_BYTES;
            &&& final(accum)@ == if fits { old(accum)@ + packet@ } else { Seq::empty() }
            &&& refusal is Some <==> !fits
            &&& refusal matches Some(reply) ==> reply@ == error_answer(StreamError::BadFrame)
        }),
{
    if packet.len() == 0 {
        assert(accum@ + packet@ =~= accum@);
        proof {
            accum.lemma_view_wf();
        }
        return None;
    }
    if accum.accept_packet(packet) {
        None
    } else {
        Some(stream_error(StreamError::BadFrame))
    }
}

/// Answers the next frame that was collected, if there is one.
pub fn next_reply(accum: &mut FrameAccumulator, manager: &mut StreamManager) -> (reply: Option<Reply>)
    requires
        old(accum).wf(),
        old(manager).wf(),
    ensures
        final(accum).wf(),
        final(manager).wf(),
        reply is Some <==> front_answer(old(manager)@, old(accum)@) is Some,
        reply matches Some(r) ==> Some(r@) == front_answer(old(manager)@, old(accum)@),
        final(accum)@ == behind_front(old(accum)@),
        final(manager)@ == streams_after_front(old(manager)@, old(accum)@),
{
    match accum.next_frame() {
        NextFrame::Incomplete => None,
        NextFrame::TooLong => Some(stream_error(StreamError::BadFrame)),
        NextFrame::Whole { opcode, payload } => {
            Some(process_stream_frame(manager, opcode, payload.as_slice()))
        },
    }
}

}
