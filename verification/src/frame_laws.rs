//! What the device makes of frames that come in packets.
use vstd::prelude::*;

use crate::protocol;
use crate::protocol_laws;
use crate::streams::Streams;
use crate::usb_stream;
use crate::usb_stream::Answer;

verus! {

/// A frame: its opcode and its payload.
pub struct Frame {
    pub opcode: u8,
    pub payload: Seq<u8>,
}

impl Frame {
    /// The frame on the wire.
    pub open spec fn bytes(self) -> Seq<u8> {
        protocol::frame_bytes(self.opcode, self.payload)
    }

    /// The frame is short enough to be collected.
    pub open spec fn fits(self) -> bool {
        self.payload.len() + protocol::STREAM_FRAME_HEADER_BYTES
            <= usb_stream::STREAM_RX_ACCUM_BYTES
    }
}

/// Some frames on the wire.
pub open spec fn wire_bytes(frames: Seq<Frame>) -> Seq<u8>
    decreases frames.len(),
{
    if frames.len() == 0 {
        Seq::empty()
    } else {
        frames[0].bytes() + wire_bytes(frames.drop_first())
    }
}

/// How many frames are whole among the first `n` bytes on the wire.
pub open spec fn whole_frames(frames: Seq<Frame>, n: nat) -> nat
    decreases frames.len(),
{
    if frames.len() == 0 || n < frames[0].bytes().len() {
        0
    } else {
        1 + whole_frames(frames.drop_first(), (n - frames[0].bytes().len()) as nat)
    }
}

/// How many of the first `n` bytes on the wire stand behind the last whole frame.
pub open spec fn bytes_begun(frames: Seq<Frame>, n: nat) -> nat
    decreases frames.len(),
{
    if frames.len() == 0 || n < frames[0].bytes().len() {
        n
    } else {
        bytes_begun(frames.drop_first(), (n - frames[0].bytes().len()) as nat)
    }
}

/// The answers to frames, one after the other.
pub open spec fn answers_to_frames(s: Streams, frames: Seq<Frame>) -> Seq<Answer>
    decreases frames.len(),
{
    if frames.len() == 0 {
        Seq::empty()
    } else {
        let frame = frames[0];
        let after = usb_stream::streams_after(s, frame.opcode, frame.payload);
        seq![usb_stream::answer_to(s, frame.opcode, frame.payload)] + answers_to_frames(
            after,
            frames.drop_first(),
        )
    }
}

/// The streams after frames were answered, one after the other.
pub open spec fn streams_after_frames(s: Streams, frames: Seq<Frame>) -> Streams
    decreases frames.len(),
{
    if frames.len() == 0 {
        s
    } else {
        let after = usb_stream::streams_after(s, frames[0].opcode, frames[0].payload);
        streams_after_frames(after, frames.drop_first())
    }
}

/// What is left of collected bytes when no more of them can be answered.
pub open spec fn unanswered(bytes: Seq<u8>) -> Seq<u8>
    decreases bytes.len(),
{
    match usb_stream::front_of(bytes) {
        usb_stream::Front::Incomplete => bytes,
        _ => unanswered(usb_stream::behind_front(bytes)),
    }
}

/// The answers to collected bytes, until no more of them can be answered.
pub open spec fn answers_to_bytes(s: Streams, bytes: Seq<u8>) -> Seq<Answer>
    decreases bytes.len(),
{
    match usb_stream::front_answer(s, bytes) {
        Some(answer) => seq![answer] + answers_to_bytes(
            usb_stream::streams_after_front(s, bytes),
            usb_stream::behind_front(bytes),
        ),
        None => Seq::empty(),
    }
}

/// The streams after collected bytes were answered as far as they can be.
pub open spec fn streams_after_bytes(s: Streams, bytes: Seq<u8>) -> Streams
    decreases bytes.len(),
{
    match usb_stream::front_of(bytes) {
        usb_stream::Front::Incomplete => s,
        _ => streams_after_bytes(
            usb_stream::streams_after_front(s, bytes),
            usb_stream::behind_front(bytes),
        ),
    }
}

/// A packet fits behind what is collected.
pub open spec fn has_room(collected: Seq<u8>, packet: Seq<u8>) -> bool {
    collected.len() + packet.len() <= usb_stream::STREAM_RX_ACCUM_BYTES
}

/// What is collected after packets, each answered as far as it can be before the next one comes.
pub open spec fn collected(packets: Seq<Seq<u8>>) -> Seq<u8>
    decreases packets.len(),
{
    if packets.len() == 0 {
        Seq::empty()
    } else {
        let before = collected(packets.drop_last());
        if has_room(before, packets.last()) {
            unanswered(before + packets.last())
        } else {
            Seq::empty()
        }
    }
}

/// Every packet fits behind the beginning of the frame that it goes on with.
pub open spec fn packets_fit(frames: Seq<Frame>, packets: Seq<Seq<u8>>) -> bool {
    forall|j: int|
        0 <= j < packets.len() ==> bytes_begun(frames, protocol::joined(packets.take(j)).len()) + (
        #[trigger] packets[j]).len() <= usb_stream::STREAM_RX_ACCUM_BYTES
}

/// Where each of some frames is short enough, so is each but the first.
proof fn lemma_rest_fits(frames: Seq<Frame>)
    requires
        frames.len() > 0,
        forall|k: int| 0 <= k < frames.len() ==> (#[trigger] frames[k]).fits(),
    ensures
        forall|k: int| 0 <= k < frames.drop_first().len() ==> (
        #[trigger] frames.drop_first()[k]).fits(),
{
    assert forall|k: int| 0 <= k < frames.drop_first().len() implies (
    #[trigger] frames.drop_first()[k]).fits() by {
        assert(frames[k + 1].fits());
    }
}

/// The first `n` bytes on the wire are answered as the whole frames among them; the beginning of the
/// next frame is left.
proof fn lemma_bytes_are_answered(s: Streams, frames: Seq<Frame>, n: nat)
    requires
        forall|k: int| 0 <= k < frames.len() ==> (#[trigger] frames[k]).fits(),
        n <= wire_bytes(frames).len(),
    ensures
        ({
            let bytes = wire_bytes(frames).take(n as int);
            let whole = frames.take(whole_frames(frames, n) as int);
            let begun = wire_bytes(frames.skip(whole_frames(frames, n) as int));
            &&& whole_frames(frames, n) <= frames.len()
            &&& bytes_begun(frames, n) <= begun.len()
            &&& unanswered(bytes) == begun.take(bytes_begun(frames, n) as int)
            &&& answers_to_bytes(s, bytes) == answers_to_frames(s, whole)
            &&& streams_after_bytes(s, bytes) == streams_after_frames(s, whole)
        }),
    decreases frames.len(),
{
    let bytes = wire_bytes(frames).take(n as int);
    let count = whole_frames(frames, n);
    if frames.len() == 0 || n < frames[0].bytes().len() {
        if n >= protocol::STREAM_FRAME_HEADER_BYTES {
            let frame = frames[0];
            protocol::lemma_word(frame.payload.len() as int);
            assert(bytes[1] == frame.bytes()[1] && bytes[2] == frame.bytes()[2]);
            assert(protocol::frame_len(bytes) == frame.bytes().len());
        }
        assert(usb_stream::front_of(bytes) is Incomplete);
        assert(frames.skip(0) =~= frames);
    } else {
        let frame = frames[0];
        let rest = frames.drop_first();
        let left = (n - frame.bytes().len()) as nat;
        let behind = wire_bytes(rest).take(left as int);
        let after = usb_stream::streams_after(s, frame.opcode, frame.payload);
        lemma_rest_fits(frames);
        lemma_bytes_are_answered(after, rest, left);
        assert(bytes =~= frame.bytes() + behind);
        protocol_laws::law_frame_is_found(frame.opcode, frame.payload, behind);
        assert(frames.skip(count as int) =~= rest.skip(count - 1));
        assert(frames.take(count as int).drop_first() =~= rest.take(count - 1));
    }
}

/// Looking at the wire twice: from the first `n` bytes on, more bytes make the frames whole that
/// they make whole behind the beginning that `n` bytes leave.
proof fn lemma_bytes_go_on(frames: Seq<Frame>, n: nat, more: nat)
    requires
        n + more <= wire_bytes(frames).len(),
    ensures
        ({
            let count = whole_frames(frames, n);
            let begun = bytes_begun(frames, n);
            let rest = frames.skip(count as int);
            &&& count <= frames.len()
            &&& begun + more <= wire_bytes(rest).len()
            &&& whole_frames(frames, n + more) == count + whole_frames(rest, begun + more)
            &&& bytes_begun(frames, n + more) == bytes_begun(rest, begun + more)
            &&& wire_bytes(frames).subrange(n as int, (n + more) as int) == wire_bytes(
                rest,
            ).subrange(begun as int, (begun + more) as int)
        }),
    decreases frames.len(),
{
    let count = whole_frames(frames, n);
    if frames.len() == 0 || n < frames[0].bytes().len() {
        assert(frames.skip(0) =~= frames);
    } else {
        let rest = frames.drop_first();
        let len = frames[0].bytes().len();
        let left = (n - len) as nat;
        lemma_bytes_go_on(rest, left, more);
        assert(frames.skip(count as int) =~= rest.skip(count - 1));
        assert(wire_bytes(frames).subrange(n as int, (n + more) as int) =~= wire_bytes(
            rest,
        ).subrange(left as int, (left + more) as int));
        assert((n + more - len) as nat == left + more);
    }
}

/// Whatever packets frames come in, what is collected after some packets is the beginning of the
/// frame that the next packet goes on with.
pub proof fn law_begun_frame_is_kept(frames: Seq<Frame>, packets: Seq<Seq<u8>>)
    requires
        forall|k: int| 0 <= k < frames.len() ==> (#[trigger] frames[k]).fits(),
        protocol::joined(packets).is_prefix_of(wire_bytes(frames)),
        packets_fit(frames, packets),
    ensures
        ({
            let n = protocol::joined(packets).len();
            let begun = wire_bytes(frames.skip(whole_frames(frames, n) as int));
            &&& whole_frames(frames, n) <= frames.len()
            &&& bytes_begun(frames, n) <= begun.len()
            &&& collected(packets) == begun.take(bytes_begun(frames, n) as int)
        }),
    decreases packets.len(), 1int,
{
    if packets.len() == 0 {
        assert(frames.skip(0) =~= frames);
        assert(bytes_begun(frames, 0) == 0);
        assert(wire_bytes(frames).take(0) =~= collected(packets));
    } else {
        law_packet_is_answered(crate::streams::no_streams(), frames, packets);
    }
}

/// Whatever packets frames come in, each packet is taken, and what the device answers to it are the
/// answers to the frames that it makes whole, in order.
pub proof fn law_packet_is_answered(s: Streams, frames: Seq<Frame>, packets: Seq<Seq<u8>>)
    requires
        forall|k: int| 0 <= k < frames.len() ==> (#[trigger] frames[k]).fits(),
        protocol::joined(packets).is_prefix_of(wire_bytes(frames)),
        packets_fit(frames, packets),
        packets.len() > 0,
    ensures
        ({
            let before = collected(packets.drop_last());
            let from = whole_frames(frames, protocol::joined(packets.drop_last()).len());
            let n = protocol::joined(packets).len();
            let to = whole_frames(frames, n);
            let made_whole = frames.subrange(from as int, to as int);
            let bytes = before + packets.last();
            &&& from <= to <= frames.len()
            &&& has_room(before, packets.last())
            &&& answers_to_bytes(s, bytes) == answers_to_frames(s, made_whole)
            &&& streams_after_bytes(s, bytes) == streams_after_frames(s, made_whole)
            &&& bytes_begun(frames, n) <= wire_bytes(frames.skip(to as int)).len()
            &&& collected(packets) == wire_bytes(frames.skip(to as int)).take(
                bytes_begun(frames, n) as int,
            )
        }),
    decreases packets.len(), 0int,
{
    let earlier = packets.drop_last();
    let packet = packets.last();
    let n = protocol::joined(earlier).len();
    let wire = wire_bytes(frames);
    let count = whole_frames(frames, n);
    let begun = bytes_begun(frames, n);
    let rest = frames.skip(count as int);
    assert(protocol::joined(packets) == protocol::joined(earlier) + packet);
    assert(protocol::joined(earlier) =~= wire.take(n as int));
    assert forall|i: int| 0 <= i < packet.len() implies #[trigger] packet[i] == wire[n + i] by {
        assert(protocol::joined(packets)[n + i] == packet[i]);
    }
    assert(packet =~= wire.subrange(n as int, (n + packet.len()) as int));
    assert forall|j: int| 0 <= j < earlier.len() implies bytes_begun(
        frames,
        protocol::joined(earlier.take(j)).len(),
    ) + (#[trigger] earlier[j]).len() <= usb_stream::STREAM_RX_ACCUM_BYTES by {
        assert(earlier.take(j) =~= packets.take(j));
        assert(earlier[j] == packets[j]);
    }
    law_begun_frame_is_kept(frames, earlier);
    assert(packets.take(packets.len() - 1) =~= earlier);
    assert(packets[packets.len() - 1] == packet);
    lemma_bytes_go_on(frames, n, packet.len());
    let bytes = collected(earlier) + packet;
    assert(bytes =~= wire_bytes(rest).take((begun + packet.len()) as int));
    assert forall|k: int| 0 <= k < rest.len() implies (#[trigger] rest[k]).fits() by {
        assert(frames[k + count].fits());
    }
    lemma_bytes_are_answered(s, rest, begun + packet.len());
    let more = whole_frames(rest, begun + packet.len());
    assert(rest.take(more as int) =~= frames.subrange(count as int, (count + more) as int));
    assert(rest.skip(more as int) =~= frames.skip((count + more) as int));
}

/// When all bytes of some frames have come, all of them are whole and none is begun.
pub proof fn law_all_frames_come(frames: Seq<Frame>)
    ensures
        whole_frames(frames, wire_bytes(frames).len()) == frames.len(),
        bytes_begun(frames, wire_bytes(frames).len()) == 0,
    decreases frames.len(),
{
    if frames.len() > 0 {
        law_all_frames_come(frames.drop_first());
    }
}

/// Packets of the bus always fit behind the beginning of a frame that leaves room for one.
pub proof fn law_short_frames_fit(frames: Seq<Frame>, packets: Seq<Seq<u8>>)
    requires
        forall|k: int|
            0 <= k < frames.len() ==> (#[trigger] frames[k]).bytes().len()
                + protocol::USB_MAX_PACKET_SIZE <= usb_stream::STREAM_RX_ACCUM_BYTES + 1,
        forall|j: int|
            0 <= j < packets.len() ==> (#[trigger] packets[j]).len()
                <= protocol::USB_MAX_PACKET_SIZE,
        protocol::joined(packets).is_prefix_of(wire_bytes(frames)),
    ensures
        packets_fit(frames, packets),
{
    assert forall|j: int| 0 <= j < packets.len() implies bytes_begun(
        frames,
        protocol::joined(packets.take(j)).len(),
    ) + (#[trigger] packets[j]).len() <= usb_stream::STREAM_RX_ACCUM_BYTES by {
        lemma_joined_grows(packets, j);
        lemma_begun_is_short(frames, protocol::joined(packets.take(j)).len());
    }
}

/// Fewer packets hold fewer bytes.
proof fn lemma_joined_grows(packets: Seq<Seq<u8>>, count: int)
    requires
        0 <= count <= packets.len(),
    ensures
        protocol::joined(packets.take(count)).len() <= protocol::joined(packets).len(),
    decreases packets.len(),
{
    if count == packets.len() {
        assert(packets.take(count) =~= packets);
    } else {
        lemma_joined_grows(packets.drop_last(), count);
        assert(packets.drop_last().take(count) =~= packets.take(count));
    }
}

/// The beginning of a frame is shorter than the frame.
proof fn lemma_begun_is_short(frames: Seq<Frame>, n: nat)
    requires
        n <= wire_bytes(frames).len(),
        forall|k: int|
            0 <= k < frames.len() ==> (#[trigger] frames[k]).bytes().len()
                + protocol::USB_MAX_PACKET_SIZE <= usb_stream::STREAM_RX_ACCUM_BYTES + 1,
    ensures
        bytes_begun(frames, n) + protocol::USB_MAX_PACKET_SIZE <= usb_stream::STREAM_RX_ACCUM_BYTES,
    decreases frames.len(),
{
    if frames.len() > 0 && n >= frames[0].bytes().len() {
        let rest = frames.drop_first();
        assert forall|k: int| 0 <= k < rest.len() implies (#[trigger] rest[k]).bytes().len()
            + protocol::USB_MAX_PACKET_SIZE <= usb_stream::STREAM_RX_ACCUM_BYTES + 1 by {
            assert(rest[k] == frames[k + 1]);
        }
        lemma_begun_is_short(rest, (n - frames[0].bytes().len()) as nat);
    }
}

}
