//! What holds of host and device together.
use vstd::prelude::*;

use crate::csv_streamer;
use crate::csv_streamer::{DeviceStreamDescriptor, Feeder};
use crate::device_model::HOST_STREAM_BUFFER_CAPACITY;
use crate::feeding;
use crate::protocol;
use crate::streams;
use crate::usb_stream;

verus! {

/// A frame that stands at the front of the collected bytes is found, and what is behind it is left.
pub proof fn law_frame_is_found(opcode: u8, payload: Seq<u8>, rest: Seq<u8>)
    requires
        payload.len() + protocol::STREAM_FRAME_HEADER_BYTES <= usb_stream::STREAM_RX_ACCUM_BYTES,
    ensures
        ({
            let bytes = protocol::frame_bytes(opcode, payload) + rest;
            &&& usb_stream::front_of(bytes) == usb_stream::Front::Whole { opcode, payload }
            &&& usb_stream::behind_front(bytes) == rest
        }),
{
    let bytes = protocol::frame_bytes(opcode, payload) + rest;
    protocol::lemma_word(payload.len() as int);
    assert(protocol::frame_len(bytes) == 3 + payload.len());
    let end = 3 + payload.len() as int;
    assert(bytes.subrange(3, end) =~= payload);
    assert(bytes.skip(end) =~= rest);
}

/// What the host learns of stream `k` of the device.
pub open spec fn learned_descriptor(s: streams::Streams, k: int) -> DeviceStreamDescriptor {
    DeviceStreamDescriptor {
        stream_id: k as u8,
        addr: s.hosts[k].addr,
        capacity: HOST_STREAM_BUFFER_CAPACITY,
    }
}

/// The bytes of descriptor `k` in what the device says.
pub proof fn lemma_descriptor_bytes(all: Seq<streams::HostStreamDescriptor>, k: int)
    requires
        0 <= k < all.len(),
    ensures
        usb_stream::descriptors_bytes(all).len() == 4 * all.len(),
        usb_stream::descriptors_bytes(all)[4 * k] == all[k].stream_id,
        usb_stream::descriptors_bytes(all)[4 * k + 1] == all[k].addr,
        usb_stream::descriptors_bytes(all)[4 * k + 2] == protocol::low_byte(all[k].capacity as int),
        usb_stream::descriptors_bytes(all)[4 * k + 3] == protocol::high_byte(
            all[k].capacity as int,
        ),
    decreases all.len(),
{
    let head = all.drop_last();
    if all.len() > 1 {
        lemma_descriptor_bytes(head, if k < head.len() { k } else { 0 });
    } else {
        assert(usb_stream::descriptors_bytes(head).len() == 0);
    }
}

/// The host reads the first `n` descriptors as the device wrote them.
proof fn lemma_descriptors_are_read(s: streams::Streams, payload: Seq<u8>, n: nat)
    requires
        s.wf(),
        payload == usb_stream::hello_payload(usb_stream::all_descriptors(s)),
        n <= s.host_count,
    ensures
        csv_streamer::descriptors_in(payload, n) == Ok::<
            Seq<DeviceStreamDescriptor>,
            csv_streamer::HelloError,
        >(Seq::new(n, |k: int| learned_descriptor(s, k))),
    decreases n,
{
    let expected = Seq::new(n, |k: int| learned_descriptor(s, k));
    if n == 0 {
        assert(expected =~= Seq::empty());
    } else {
        let k = n - 1;
        let all = usb_stream::all_descriptors(s);
        lemma_descriptors_are_read(s, payload, k as nat);
        lemma_descriptor_bytes(all, k);
        protocol::lemma_word(HOST_STREAM_BUFFER_CAPACITY as int);
        let bytes = usb_stream::descriptors_bytes(all);
        assert(payload[2 + 4 * k] == bytes[4 * k]);
        assert(payload[3 + 4 * k] == bytes[4 * k + 1]);
        assert(payload[4 + 4 * k] == bytes[4 * k + 2]);
        assert(payload[5 + 4 * k] == bytes[4 * k + 3]);
        assert(csv_streamer::descriptor_at(payload, k) == learned_descriptor(s, k));
        assert(expected =~= Seq::new(k as nat, |j: int| learned_descriptor(s, j)).push(
            learned_descriptor(s, k),
        ));
    }
}

/// When the host asks which streams there are, the device tells it of each stream its number, its
/// register and its capacity, and the host understands it.
pub proof fn law_hello_is_understood(s: streams::Streams, payload: Seq<u8>)
    requires
        s.wf(),
    ensures
        ({
            let answer = usb_stream::answer_to(
                s,
                csv_streamer::HostOp::HelloReq.opcode(),
                payload,
            );
            &&& csv_streamer::DeviceOp::with_opcode(answer.op.opcode()) == Ok::<
                csv_streamer::DeviceOp,
                u8,
            >(csv_streamer::DeviceOp::HelloResp)
            &&& csv_streamer::hello_streams(answer.payload) == Ok::<
                Seq<DeviceStreamDescriptor>,
                csv_streamer::HelloError,
            >(Seq::new(s.host_count, |k: int| learned_descriptor(s, k)))
        }),
{
    let all = usb_stream::all_descriptors(s);
    let hello = usb_stream::hello_payload(all);
    lemma_descriptors_are_read(s, hello, s.host_count);
    if s.host_count > 0 {
        lemma_descriptor_bytes(all, 0);
    } else {
        assert(usb_stream::descriptors_bytes(all).len() == 0);
    }
    assert(hello[0] == protocol::STREAM_PROTO_VERSION && hello[1] == s.host_count);
}

/// What is played from one place on and then from where that ends is played in one go.
pub proof fn law_playback_continues(samples: Seq<u8>, start: int, first: nat, then_on: nat)
    requires
        samples.len() > 0,
    ensures
        feeding::played(samples, start, first) + feeding::played(
            samples,
            feeding::place_after(samples, start, first as int) as int,
            then_on,
        ) == feeding::played(samples, start, first + then_on),
        feeding::place_after(
            samples,
            feeding::place_after(samples, start, first as int) as int,
            then_on as int,
        ) == feeding::place_after(samples, start, (first + then_on) as int),
{
    let len = samples.len() as int;
    let place = (start + first) % len;
    let one = feeding::played(samples, start, first) + feeding::played(samples, place, then_on);
    vstd::arithmetic::div_mod::lemma_mod_bound(start + first, len);
    assert forall|i: int| 0 <= i < first + then_on implies #[trigger] one[i] == samples[(start + i)
        % len] by {
        if i >= first {
            vstd::arithmetic::div_mod::lemma_add_mod_noop_right(i - first, start + first, len);
        }
    }
    assert(one =~= feeding::played(samples, start, first + then_on));
    vstd::arithmetic::div_mod::lemma_add_mod_noop_right(then_on as int, start + first, len);
}

/// The part of a chunk that the device takes is the part from its front.
proof fn lemma_played_prefix(samples: Seq<u8>, start: int, count: nat, some: nat)
    requires
        some <= count,
    ensures
        feeding::played(samples, start, count).take(some as int) == feeding::played(
            samples,
            start,
            some,
        ),
{
    assert(feeding::played(samples, start, count).take(some as int) =~= feeding::played(
        samples,
        start,
        some,
    ));
}

/// Feeding a chunk: what the host sends, what the device answers, and what the host makes of the
/// answer go together. The device takes samples from the front of the chunk as far as it has room;
/// the host goes on behind the last sample that was taken, so none is lost or sent twice; and it
/// knows how much room the device has left.
pub proof fn law_feed_exchange(s: streams::Streams, feeder: Feeder, chunk: nat)
    requires
        s.wf(),
        feeder.wf(),
        feeder.stream_id < s.host_count,
    ensures
        ({
            let id = feeder.stream_id as int;
            let start = feeder.cursor as int;
            let payload = seq![feeder.stream_id] + feeding::played(feeder.samples, start, chunk);
            let sent = Feeder {
                cursor: feeding::place_after(feeder.samples, start, chunk as int),
                ..feeder
            };
            let opcode = csv_streamer::HostOp::Feed.opcode();
            let answer = usb_stream::answer_to(s, opcode, payload);
            let after = feeding::acknowledged(sent, chunk, answer.payload);
            let taken = streams::accepted_count(s.hosts[id], chunk);
            let queue = usb_stream::streams_after(s, opcode, payload).hosts[id].queue;
            &&& csv_streamer::DeviceOp::with_opcode(answer.op.opcode()) == Ok::<
                csv_streamer::DeviceOp,
                u8,
            >(csv_streamer::DeviceOp::FeedAck)
            &&& feeding::ack_fault(sent, chunk, answer.payload) is None
            &&& queue == s.hosts[id].queue + feeding::played(feeder.samples, start, taken)
            &&& after.cursor == feeding::place_after(feeder.samples, start, taken as int)
            &&& after.free == HOST_STREAM_BUFFER_CAPACITY - queue.len()
        }),
{
    let id = feeder.stream_id as int;
    let start = feeder.cursor as int;
    let data = feeding::played(feeder.samples, start, chunk);
    let payload = seq![feeder.stream_id] + data;
    let taken = streams::accepted_count(s.hosts[id], chunk);
    let len = feeder.samples.len() as int;
    assert(s.hosts[id].queue.len() <= HOST_STREAM_BUFFER_CAPACITY);
    assert(payload.drop_first() =~= data);
    lemma_played_prefix(feeder.samples, start, chunk, taken);
    protocol::lemma_word(taken as int);
    protocol::lemma_word(HOST_STREAM_BUFFER_CAPACITY - s.hosts[id].queue.len() - taken);
    vstd::arithmetic::div_mod::lemma_mod_bound(start + chunk, len);
    vstd::arithmetic::div_mod::lemma_add_mod_noop_right(taken - chunk, start + chunk, len);
}

/// An answer to a probe tells the host how much room the device has and changes nothing else.
pub proof fn law_probe_changes_nothing(s: streams::Streams, feeder: Feeder)
    requires
        s.wf(),
        feeder.wf(),
        feeder.stream_id < s.host_count,
    ensures
        ({
            let payload = seq![feeder.stream_id];
            let opcode = csv_streamer::HostOp::Feed.opcode();
            let answer = usb_stream::answer_to(s, opcode, payload);
            let after = feeding::acknowledged(feeder, 0, answer.payload);
            &&& feeding::ack_fault(feeder, 0, answer.payload) is None
            &&& usb_stream::streams_after(s, opcode, payload) == s
            &&& after.cursor == feeder.cursor
            &&& after.free == HOST_STREAM_BUFFER_CAPACITY
                - s.hosts[feeder.stream_id as int].queue.len()
        }),
{
    let id = feeder.stream_id as int;
    let payload = seq![feeder.stream_id];
    let len = feeder.samples.len() as int;
    assert(payload =~= seq![feeder.stream_id] + feeding::played(
        feeder.samples,
        feeder.cursor as int,
        0,
    ));
    vstd::arithmetic::div_mod::lemma_small_mod(feeder.cursor, len as nat);
    law_feed_exchange(s, feeder, 0);
    assert(Feeder {
        cursor: feeding::place_after(feeder.samples, feeder.cursor as int, 0),
        ..feeder
    } =~= feeder);
    let after = usb_stream::streams_after(s, csv_streamer::HostOp::Feed.opcode(), payload);
    assert(payload.drop_first() =~= Seq::empty());
    assert(s.hosts[id].queue + payload.drop_first().take(0) =~= s.hosts[id].queue);
    assert(after.hosts =~= s.hosts);
}

/// What the host knows of a stream is what the device has.
pub open spec fn in_step(s: streams::Streams, feeder: Feeder) -> bool {
    &&& feeder.stream_id < s.host_count
    &&& feeder.capacity == HOST_STREAM_BUFFER_CAPACITY
    &&& feeder.free == HOST_STREAM_BUFFER_CAPACITY - s.hosts[feeder.stream_id as int].queue.len()
}

/// A chunk that is no larger than the room that the host knows of is taken whole by a device that
/// has at least that room, as one has that was only read from since it told the host. Then what the
/// host knows is again what the device has.
pub proof fn law_known_room_is_enough(s: streams::Streams, feeder: Feeder, chunk: nat)
    requires
        s.wf(),
        feeder.wf(),
        feeder.stream_id < s.host_count,
        feeder.capacity == HOST_STREAM_BUFFER_CAPACITY,
        feeder.free <= HOST_STREAM_BUFFER_CAPACITY
            - s.hosts[feeder.stream_id as int].queue.len(),
        chunk <= feeder.free,
    ensures
        ({
            let start = feeder.cursor as int;
            let payload = seq![feeder.stream_id] + feeding::played(feeder.samples, start, chunk);
            let sent = Feeder {
                cursor: feeding::place_after(feeder.samples, start, chunk as int),
                ..feeder
            };
            let opcode = csv_streamer::HostOp::Feed.opcode();
            let answer = usb_stream::answer_to(s, opcode, payload);
            let after = feeding::acknowledged(sent, chunk, answer.payload);
            &&& in_step(usb_stream::streams_after(s, opcode, payload), after)
            &&& after.fill() == s.hosts[feeder.stream_id as int].queue.len() + chunk
            &&& after.cursor == sent.cursor
        }),
{
    assert(s.hosts[feeder.stream_id as int].queue.len() <= HOST_STREAM_BUFFER_CAPACITY);
    law_feed_exchange(s, feeder, chunk);
}

/// How full a buffer of `capacity` bytes is after some rounds of filling it before playback starts,
/// where nothing is read from it meanwhile.
pub open spec fn prefilled(capacity: nat, level: nat, rounds: nat) -> nat
    decreases rounds,
{
    if rounds == 0 {
        level
    } else {
        let before = prefilled(capacity, level, (rounds - 1) as nat);
        if before < feeding::prefill_target(capacity) {
            before + feeding::chunk_for((capacity - before) as nat)
        } else {
            before
        }
    }
}

/// Filling a buffer before playback starts, where nothing is read from it meanwhile, comes to an
/// end: three quarters of it are filled, and less than a chunk beyond that.
pub proof fn law_prefill_reaches_its_target(capacity: nat, level: nat, rounds: nat)
    requires
        level <= capacity,
    ensures
        prefilled(capacity, level, rounds) <= capacity,
        rounds >= capacity ==> prefilled(capacity, level, rounds) >= feeding::prefill_target(
            capacity,
        ),
        level <= feeding::prefill_target(capacity) ==> prefilled(capacity, level, rounds)
            < feeding::prefill_target(capacity) + csv_streamer::FEED_CHUNK_BYTES,
{
    lemma_prefilled(capacity, level, rounds);
}

proof fn lemma_prefilled(capacity: nat, level: nat, rounds: nat)
    requires
        level <= capacity,
    ensures
        ({
            let target = feeding::prefill_target(capacity);
            let now = prefilled(capacity, level, rounds);
            &&& level <= now <= capacity
            &&& now >= target || now >= level + rounds
            &&& level <= target ==> now < target + csv_streamer::FEED_CHUNK_BYTES
        }),
    decreases rounds,
{
    assert(feeding::prefill_target(capacity) <= capacity);
    if rounds > 0 {
        lemma_prefilled(capacity, level, (rounds - 1) as nat);
    }
}

}
