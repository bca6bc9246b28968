//! What goes over the stream channel, byte by byte.
use vstd::prelude::*;

use crate::device_laws;
use crate::protocol;
use crate::protocol_laws;
use crate::streams;
use crate::streams::{HostStream, StreamManager};
use crate::usb_stream;
use crate::usb_stream::{
    DeviceOp, FrameAccumulator, HostOp, NextFrame, Reply, StreamError,
};

verus! {

/// The opcodes and the error codes on the wire.
pub proof fn law_codes_on_the_wire(
    value: u8,
    op: Result<HostOp, u8>,
    answer: DeviceOp,
    code: u8,
    error: StreamError,
    number: u8,
)
    requires
        call_ensures(HostOp::try_from, (value,), op),
        call_ensures(DeviceOp::code, (answer,), code),
        call_ensures(StreamError::code, (error,), number),
    ensures
        op == Ok::<HostOp, u8>(HostOp::HelloReq) <==> value == 1,
        op == Ok::<HostOp, u8>(HostOp::Feed) <==> value == 2,
        op == Ok::<HostOp, u8>(HostOp::ResetStreams) <==> value == 3,
        value == 0 || value > 3 ==> op == Err::<HostOp, u8>(value),
        answer == DeviceOp::HelloResp ==> code == 129,
        answer == DeviceOp::FeedAck ==> code == 130,
        answer == DeviceOp::ResetAck ==> code == 131,
        answer == DeviceOp::Error ==> code == 255,
        error == StreamError::BadFrame ==> number == 1,
        error == StreamError::BadPayload ==> number == 2,
        error == StreamError::InvalidStreamId ==> number == 3,
        error == StreamError::UnknownOpcode ==> number == 4,
{
}

/// The header of a reply: its opcode, and the length of its payload, low byte first.
pub proof fn law_reply_header(reply: &Reply, header: [u8; 3])
    requires
        call_ensures(Reply::header, (reply,), header),
        reply.payload@.len() < 65536,
    ensures
        header@[0] == match reply.op {
            DeviceOp::HelloResp => 129u8,
            DeviceOp::FeedAck => 130u8,
            DeviceOp::ResetAck => 131u8,
            DeviceOp::Error => 255u8,
        },
        header@[1] + 256 * header@[2] == reply.payload@.len(),
{
    let all = header@ + reply@.payload;
    assert(header@[0] == all[0] && header@[1] == all[1] && header@[2] == all[2]);
    let len = reply@.stated_len();
    protocol::lemma_word(len as int);
}

/// The header of any frame: its opcode, and the length, low byte first; and the number that the two
/// bytes of a length make.
pub proof fn law_frame_header(
    opcode: u8,
    len: u16,
    header: [u8; 3],
    low: u8,
    high: u8,
    number: usize,
)
    requires
        call_ensures(protocol::frame_header, (opcode, len), header),
        call_ensures(protocol::word_of, (low, high), number),
    ensures
        header@[0] == opcode,
        header@[1] == len % 256,
        header@[2] == len / 256,
        number == low + 256 * high,
{
}

/// A byte of packet `k`, at place `i`, stands among all bytes where it should.
pub open spec fn stands_at(bytes: Seq<u8>, byte: u8, k: int, i: int, max_packet: int) -> bool {
    0 <= k * max_packet + i < bytes.len() && bytes[k * max_packet + i] == byte
}

/// Bytes are cut into packets that hold them all in their order: every packet but the last is full,
/// and none is empty.
pub proof fn law_packets_hold_the_bytes(bytes: &[u8], max_packet: usize, packets: Vec<Vec<u8>>)
    requires
        call_ensures(protocol::usb_packets, (bytes, max_packet), packets),
        max_packet > 0,
    ensures
        forall|k: int, i: int|
            0 <= k < packets@.len() && 0 <= i < packets@[k]@.len() ==> #[trigger] stands_at(
                bytes@,
                packets@[k]@[i],
                k,
                i,
                max_packet as int,
            ),
        forall|k: int|
            0 <= k < packets@.len() - 1 ==> (#[trigger] packets@[k])@.len() == max_packet,
        bytes@.len() == 0 <==> packets@.len() == 0,
        packets@.len() > 0 ==> 0 < packets@.last()@.len() <= max_packet && bytes@.len() == (
        packets@.len() - 1) * max_packet + packets@.last()@.len(),
{
    let views = protocol::packet_views(packets@);
    assert forall|k: int| 0 <= k < packets@.len() - 1 implies (#[trigger] packets@[k])@.len()
        == max_packet by {
        assert(views[k].len() == max_packet);
    }
    if packets@.len() > 0 {
        assert(views.last() == packets@.last()@);
    }
    lemma_packets(views, max_packet as int);
    assert forall|k: int, i: int| 0 <= k < packets@.len() && 0 <= i < packets@[k]@.len() implies
        #[trigger] stands_at(bytes@, packets@[k]@[i], k, i, max_packet as int) by {
        assert(stands_at(bytes@, views[k][i], k, i, max_packet as int));
    }
}

proof fn lemma_packets(views: Seq<Seq<u8>>, max: int)
    requires
        max > 0,
        forall|k: int| 0 <= k < views.len() - 1 ==> (#[trigger] views[k]).len() == max,
    ensures
        views.len() > 0 ==> protocol::joined(views).len() == (views.len() - 1) * max
            + views.last().len(),
        views.len() == 0 ==> protocol::joined(views).len() == 0,
        forall|k: int, i: int|
            0 <= k < views.len() && 0 <= i < views[k].len() ==> #[trigger] stands_at(
                protocol::joined(views),
                views[k][i],
                k,
                i,
                max,
            ),
    decreases views.len(),
{
    if views.len() > 0 {
        let head = views.drop_last();
        let n = views.len() - 1;
        assert forall|k: int| 0 <= k < head.len() - 1 implies (#[trigger] head[k]).len() == max by {
            assert(views[k].len() == max);
        }
        lemma_packets(head, max);
        assert(protocol::joined(head).len() == n * max) by {
            if n > 0 {
                assert(views[n - 1].len() == max);
                assert((n - 1) * max + max == n * max) by (nonlinear_arith);
            } else {
                assert(0 * max == 0);
            }
        }
        let all = protocol::joined(views);
        assert forall|k: int, i: int| 0 <= k < views.len() && 0 <= i < views[k].len() implies
            #[trigger] stands_at(all, views[k][i], k, i, max) by {
            if k < n {
                assert(stands_at(protocol::joined(head), head[k][i], k, i, max));
            } else {
                assert(n * max >= 0) by (nonlinear_arith)
                    requires
                        n >= 0,
                        max > 0,
                ;
            }
        }
    }
}

/// A reply that refuses a frame.
pub open spec fn refuses(reply: Reply, code: int) -> bool {
    reply.op == DeviceOp::Error && reply.payload@.len() == 1 && reply.payload@[0] == code
}

/// What a call of `process_stream_frame` answers to a frame that asks which streams there are: the
/// version of the protocol, their number, and of each its number, its register and its capacity, low
/// byte first. Nothing changes.
pub proof fn law_hello_is_answered(
    manager: &mut StreamManager,
    payload: &[u8],
    reply: Reply,
)
    requires
        call_ensures(usb_stream::process_stream_frame, (manager, 1u8, payload), reply),
        old(manager).wf(),
    ensures
        final(manager)@ == old(manager)@,
        reply.op == DeviceOp::HelloResp,
        reply.payload@.len() == 2 + 4 * old(manager)@.host_count,
        reply.payload@[0] == 1,
        reply.payload@[1] == old(manager)@.host_count,
        forall|k: int|
            0 <= k < old(manager)@.host_count ==> {
                &&& #[trigger] reply.payload@[2 + 4 * k] == k
                &&& reply.payload@[3 + 4 * k] == old(manager)@.hosts[k].addr
                &&& reply.payload@[4 + 4 * k] + 256 * reply.payload@[5 + 4 * k] == 2048
            },
{
    let s = old(manager)@;
    old(manager).lemma_view_wf();
    let all = usb_stream::all_descriptors(s);
    let bytes = usb_stream::descriptors_bytes(all);
    if s.host_count == 0 {
        assert(bytes.len() == 0);
    } else {
        protocol_laws::lemma_descriptor_bytes(all, 0);
    }
    protocol::lemma_word(2048);
    assert forall|k: int| 0 <= k < s.host_count implies {
        &&& #[trigger] reply.payload@[2 + 4 * k] == k
        &&& reply.payload@[3 + 4 * k] == s.hosts[k].addr
        &&& reply.payload@[4 + 4 * k] + 256 * reply.payload@[5 + 4 * k] == 2048
    } by {
        protocol_laws::lemma_descriptor_bytes(all, k);
        assert(reply.payload@[2 + 4 * k] == bytes[4 * k]);
        assert(reply.payload@[3 + 4 * k] == bytes[4 * k + 1]);
        assert(reply.payload@[4 + 4 * k] == bytes[4 * k + 2]);
        assert(reply.payload@[5 + 4 * k] == bytes[4 * k + 3]);
    }
}

/// What a call of `process_stream_frame` does with bytes for a stream: it puts as many behind its
/// queue as there is room for, counts the others as dropped, and answers how many it took and how
/// much room is left, low byte first. It refuses an empty payload and a stream that is not there, and
/// then changes nothing.
pub proof fn law_feed_is_answered(manager: &mut StreamManager, payload: &[u8], reply: Reply)
    requires
        call_ensures(usb_stream::process_stream_frame, (manager, 2u8, payload), reply),
        old(manager).wf(),
    ensures
        payload@.len() == 0 ==> refuses(reply, 2) && final(manager)@ == old(manager)@,
        payload@.len() > 0 && payload@[0] >= old(manager)@.host_count ==> refuses(reply, 3) && final(manager)@ == old(manager)@,
        payload@.len() > 0 && payload@[0] < old(manager)@.host_count ==> {
            let id = payload@[0] as int;
            let before = old(manager)@.hosts[id];
            let after = final(manager)@.hosts[id];
            let room = 2048 - before.queue.len();
            let sent = payload@.len() - 1;
            let taken = if sent < room { sent } else { room };
            &&& device_laws::only_stream_changes(old(manager)@, final(manager)@, id)
            &&& after.queue == before.queue + payload@.subrange(1, 1 + taken)
            &&& after.drops as int == (before.drops + (sent - taken)) % 4294967296
            &&& after == (HostStream { queue: after.queue, drops: after.drops, ..before })
            &&& reply.op == DeviceOp::FeedAck
            &&& reply.payload@.len() == 5
            &&& reply.payload@[0] == id
            &&& reply.payload@[1] + 256 * reply.payload@[2] == taken
            &&& reply.payload@[3] + 256 * reply.payload@[4] == room - taken
        },
{
    old(manager).lemma_view_wf();
    if payload@.len() > 0 && payload@[0] < old(manager)@.host_count {
        let id = payload@[0] as int;
        let before = old(manager)@.hosts[id];
        let room = 2048 - before.queue.len();
        let sent = payload@.len() - 1;
        let taken = if sent < room { sent } else { room };
        assert(before.queue.len() <= 2048);
        let data = payload@.drop_first();
        assert(data.take(taken) =~= payload@.subrange(1, 1 + taken));
        protocol::lemma_word(taken);
        protocol::lemma_word(room - taken);
    }
}

/// What a call of `process_stream_frame` does when it is asked for a reset: every stream is empty and
/// every cursor at the first sample. It refuses a payload, and then changes nothing. It refuses any
/// opcode but the three.
pub proof fn law_reset_and_refusals(
    manager: &mut StreamManager,
    opcode: u8,
    payload: &[u8],
    reply: Reply,
)
    requires
        call_ensures(usb_stream::process_stream_frame, (manager, opcode, payload), reply),
        old(manager).wf(),
    ensures
        opcode == 0 || opcode > 3 ==> refuses(reply, 4) && final(manager)@ == old(manager)@,
        opcode == 3 && payload@.len() > 0 ==> refuses(reply, 2) && final(manager)@ == old(manager)@,
        opcode == 3 && payload@.len() == 0 ==> {
            &&& reply.op == DeviceOp::ResetAck
            &&& reply.payload@.len() == 0
            &&& final(manager)@.host_count == old(manager)@.host_count
            &&& forall|a: int| 0 <= a < 256 ==> #[trigger] final(manager)@.cursors[a] == 0
            &&& forall|k: int|
                0 <= k < old(manager)@.host_count ==> device_laws::is_fresh(
                    #[trigger] final(manager)@.hosts[k],
                    old(manager)@.hosts[k].addr as int,
                )
        },
{
    old(manager).lemma_view_wf();
}

/// What a call of `on_packet` does: it puts a packet behind what is collected, where both have at most
/// 512 bytes; otherwise it forgets both and refuses.
pub proof fn law_packets_are_collected(
    accum: &mut FrameAccumulator,
    packet: &[u8],
    refusal: Option<Reply>,
)
    requires
        call_ensures(usb_stream::on_packet, (accum, packet), refusal),
    ensures
        old(accum)@.len() + packet@.len() <= 512 ==> refusal is None && final(accum)@ == old(accum)@
            + packet@,
        old(accum)@.len() + packet@.len() > 512 ==> final(accum)@.len() == 0 && (
        refusal matches Some(reply) && refuses(reply, 1)),
{
}

/// What a call of `next_reply` does with what is collected: a frame whose header says that it has
/// more than 512 bytes is refused, and everything is forgotten; a frame that is not whole is waited
/// for; a whole one is taken and answered, and what is behind it is kept.
pub proof fn law_collected_frames_are_answered(
    accum: &mut FrameAccumulator,
    manager: &mut StreamManager,
    reply: Option<Reply>,
)
    requires
        call_ensures(usb_stream::next_reply, (accum, manager), reply),
    ensures
        ({
            let bytes = old(accum)@;
            let len = 3 + bytes[1] + 256 * bytes[2];
            if bytes.len() < 3 || len <= 512 && bytes.len() < len {
                &&& reply is None
                &&& final(accum)@ == bytes
                &&& final(manager)@ == old(manager)@
            } else if len > 512 {
                &&& reply matches Some(r) && refuses(r, 1)
                &&& final(accum)@.len() == 0
                &&& final(manager)@ == old(manager)@
            } else {
                &&& reply matches Some(r) && r@ == usb_stream::answer_to(
                    old(manager)@,
                    bytes[0],
                    bytes.subrange(3, len),
                )
                &&& final(accum)@ == bytes.skip(len)
                &&& final(manager)@ == usb_stream::streams_after(
                    old(manager)@,
                    bytes[0],
                    bytes.subrange(3, len),
                )
            }
        }),
{
}

/// What a call of `next_frame` takes from what is collected.
pub proof fn law_frames_are_taken_from_the_front(accum: &mut FrameAccumulator, next: NextFrame)
    requires
        call_ensures(FrameAccumulator::next_frame, (accum,), next),
    ensures
        ({
            let bytes = old(accum)@;
            let len = 3 + bytes[1] + 256 * bytes[2];
            if bytes.len() < 3 || len <= 512 && bytes.len() < len {
                next is Incomplete && final(accum)@ == bytes
            } else if len > 512 {
                next is TooLong && final(accum)@.len() == 0
            } else {
                &&& next matches NextFrame::Whole { opcode, payload } && opcode == bytes[0]
                    && payload@ == bytes.subrange(3, len)
                &&& final(accum)@ == bytes.skip(len)
            }
        }),
{
}

}
