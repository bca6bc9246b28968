//! What calls of the host's operations do: what it learns, sends and makes of the answers.
use vstd::prelude::*;

use crate::csv_streamer;
use crate::csv_streamer::{
    AttachError, DeviceOp, DeviceStreamDescriptor, Feeder, HelloError, HostOp, StreamState,
};
use crate::feeding;
use crate::feeding::FeedFault;
use crate::host_link;
use crate::host_link::{
    AnswerReader, FrameVerdict, NoBytes, PayloadTooLarge, ReadProgress, Schedule,
};
use crate::host_sources::HostSource;
use crate::ordering;
use crate::player;
use crate::player::{Fed, Playback, Player, PlayerAction, Stage};
use crate::protocol;
use crate::text;

verus! {

/// The opcodes on the wire, as the host knows them.
pub proof fn law_host_codes(op: HostOp, code: u8, value: u8, answer: Result<DeviceOp, u8>)
    requires
        call_ensures(HostOp::code, (op,), code),
        call_ensures(DeviceOp::try_from, (value,), answer),
    ensures
        op == HostOp::HelloReq ==> code == 1,
        op == HostOp::Feed ==> code == 2,
        answer == Ok::<DeviceOp, u8>(DeviceOp::HelloResp) <==> value == 129,
        answer == Ok::<DeviceOp, u8>(DeviceOp::FeedAck) <==> value == 130,
        answer == Ok::<DeviceOp, u8>(DeviceOp::Error) <==> value == 255,
        answer matches Err(unknown) ==> unknown == value,
{
}

/// What a call of `negotiate_stream_descriptors` makes of what the device says: a version, which must
/// be one, a number of streams, and four bytes for each: its number, its register, and its capacity,
/// low byte first, which must not be zero. There must be no byte more or less.
pub proof fn law_hello_is_read(
    payload: &[u8],
    streams: Result<Vec<DeviceStreamDescriptor>, HelloError>,
)
    requires
        call_ensures(csv_streamer::negotiate_stream_descriptors, (payload,), streams),
        payload@.len() <= usize::MAX,
    ensures
        payload@.len() < 2 ==> streams matches Err(HelloError::TooShort),
        payload@.len() >= 2 && payload@[0] != 1 ==> (streams matches Err(
            HelloError::VersionMismatch { device },
        ) && device == payload@[0]),
        payload@.len() >= 2 && payload@[0] == 1 && payload@.len() != 2 + 4 * payload@[1] ==> (
        streams matches Err(HelloError::LengthMismatch { got, expected }) && got == payload@.len()
            && expected == 2 + 4 * payload@[1]),
        payload@.len() >= 2 && payload@[0] == 1 && payload@.len() == 2 + 4 * payload@[1]
            ==> match streams {
            Ok(found) => found@.len() == payload@[1] && forall|k: int|
                0 <= k < found@.len() ==> is_descriptor(#[trigger] found@[k], payload@, k),
            Err(HelloError::ZeroCapacity { stream_id }) => exists|k: int|
                {
                    &&& 0 <= k < payload@[1]
                    &&& #[trigger] payload@[2 + 4 * k] == stream_id
                    &&& payload@[4 + 4 * k] == 0 && payload@[5 + 4 * k] == 0
                },
            _ => false,
        },
{
    if payload@.len() >= 2 && payload@[0] == 1 && payload@.len() == 2 + 4 * payload@[1] {
        lemma_descriptors(payload@, payload@[1] as nat);
    }
}

/// A descriptor says what the bytes of stream `k` say.
pub open spec fn is_descriptor(d: DeviceStreamDescriptor, payload: Seq<u8>, k: int) -> bool {
    &&& d.stream_id == payload[2 + 4 * k]
    &&& d.addr == payload[3 + 4 * k]
    &&& d.capacity == payload[4 + 4 * k] + 256 * payload[5 + 4 * k]
    &&& d.capacity > 0
}

proof fn lemma_descriptors(payload: Seq<u8>, n: nat)
    ensures
        match csv_streamer::descriptors_in(payload, n) {
            Ok(found) => found.len() == n && forall|k: int|
                0 <= k < n ==> is_descriptor(#[trigger] found[k], payload, k),
            Err(HelloError::ZeroCapacity { stream_id }) => exists|k: int|
                {
                    &&& 0 <= k < n
                    &&& #[trigger] payload[2 + 4 * k] == stream_id
                    &&& payload[4 + 4 * k] == 0 && payload[5 + 4 * k] == 0
                },
            _ => false,
        },
    decreases n,
{
    if n > 0 {
        lemma_descriptors(payload, (n - 1) as nat);
        let k = n - 1;
        assert(payload[2 + 4 * k] == csv_streamer::descriptor_at(payload, k).stream_id);
    }
}

/// How many bytes a buffer holds, by what the device said last.
pub open spec fn filled(s: Feeder) -> int {
    if s.free < s.capacity { s.capacity - s.free } else { 0 }
}

/// Calls of `fill_level`, `prefill_chunk` and `refill_chunk`: a buffer is filled to three quarters
/// before playback and kept above a half during it, with at most forty-eight samples at a time, and
/// never with more than there is room for.
pub proof fn law_buffers_are_kept_filled(
    stream: &StreamState,
    level: usize,
    prefill: Option<usize>,
    refill: Option<usize>,
)
    requires
        call_ensures(feeding::fill_level, (stream,), level),
        call_ensures(feeding::prefill_chunk, (stream,), prefill),
        call_ensures(feeding::refill_chunk, (stream,), refill),
    ensures
        level == filled(stream@),
        prefill is Some <==> 4 * (filled(stream@) + 1) <= 3 * stream@.capacity && stream@.free > 0,
        refill is Some <==> 2 * filled(stream@) <= stream@.capacity && stream@.free > 0,
        prefill matches Some(n) ==> n == if stream@.free < 48 { stream@.free } else { 48 },
        refill matches Some(n) ==> n == if stream@.free < 48 { stream@.free } else { 48 },
{
}

/// The payload feeds the next `n` samples of a stream: its number, and the samples from the next one
/// on, the first one again behind the last.
pub open spec fn feeds(payload: Seq<u8>, s: Feeder, n: int) -> bool {
    &&& payload.len() == 1 + n
    &&& payload[0] == s.stream_id
    &&& forall|i: int|
        0 <= i < n ==> #[trigger] payload[1 + i] == s.samples[(s.cursor + i) % s.samples.len() as int]
}

/// What a call of `feed_request` sends and where it leaves the stream: behind the samples that it
/// sends. It refuses to send more than there is room for.
pub proof fn law_next_samples_are_sent(
    stream: &mut StreamState,
    chunk_len: usize,
    payload: Result<Vec<u8>, FeedFault>,
)
    requires
        call_ensures(feeding::feed_request, (stream, chunk_len), payload),
        old(stream)@.wf(),
    ensures
        chunk_len > old(stream)@.free ==> payload == Err::<Vec<u8>, FeedFault>(
            FeedFault::ChunkExceedsFree,
        ) && final(stream)@ == old(stream)@,
        chunk_len <= old(stream)@.free ==> {
            &&& payload matches Ok(bytes) && feeds(bytes@, old(stream)@, chunk_len as int)
            &&& final(stream)@ == (Feeder { cursor: final(stream)@.cursor, ..old(stream)@ })
            &&& final(stream)@.cursor as int == (old(stream)@.cursor + chunk_len)
                % old(stream)@.samples.len() as int
        },
{
    let s = old(stream)@;
    vstd::arithmetic::div_mod::lemma_mod_bound(s.cursor + chunk_len, s.samples.len() as int);
    if chunk_len <= s.free {
        assert(feeds(payload->Ok_0@, s, chunk_len as int));
    }
}

/// What a call of `rewind_cursor` does: it goes back as many samples as it is told.
pub proof fn law_samples_are_sent_again(stream: &mut StreamState, count: usize)
    requires
        call_ensures(feeding::rewind_cursor, (stream, count), ()),
        old(stream)@.wf(),
    ensures
        final(stream)@ == (Feeder { cursor: final(stream)@.cursor, ..old(stream)@ }),
        final(stream)@.cursor as int == (old(stream)@.cursor - count)
            % old(stream)@.samples.len() as int,
{
    vstd::arithmetic::div_mod::lemma_mod_bound(
        old(stream)@.cursor - count,
        old(stream)@.samples.len() as int,
    );
}

/// A number one or more higher, but not above its largest value.
pub open spec fn up_to_the_end(n: int, by: int) -> int {
    if n + by > 18446744073709551615 { 18446744073709551615 } else { n + by }
}

/// What a stream is after an answer to `sent` samples of which `taken` were taken.
pub open spec fn is_acknowledged(
    before: Feeder,
    after: Feeder,
    sent: int,
    taken: int,
    free: int,
) -> bool {
    &&& after.stream_id == before.stream_id
    &&& after.addr == before.addr
    &&& after.capacity == before.capacity
    &&& after.samples == before.samples
    &&& after.free == free
    &&& after.cursor as int == (before.cursor - (sent - taken)) % before.samples.len() as int
    &&& if sent == 0 {
        &&& after.probe_calls == up_to_the_end(before.probe_calls as int, 1)
        &&& after.feed_calls == before.feed_calls
        &&& after.accepted_total == before.accepted_total
    } else {
        &&& after.probe_calls == before.probe_calls
        &&& after.feed_calls == up_to_the_end(before.feed_calls as int, 1)
        &&& after.accepted_total == up_to_the_end(before.accepted_total as int, taken)
    }
}

/// An answer that cannot be one to `sent` samples of a stream.
pub open spec fn is_ack_fault(fault: FeedFault, s: Feeder, sent: int, ack: Seq<u8>) -> bool {
    match fault {
        FeedFault::AckLength => ack.len() != 5,
        FeedFault::AckStream { got, expected } => ack.len() == 5 && got == ack[0] && expected
            == s.stream_id && got != expected,
        FeedFault::AckAccepted { accepted, sent: told } => ack.len() == 5 && ack[0] == s.stream_id
            && accepted == ack[1] + 256 * ack[2] && told == sent && accepted > sent,
        FeedFault::ChunkExceedsFree => false,
    }
}

/// What a call of `feed_acknowledged` makes of the device's answer: five bytes, the number of the
/// stream, how many samples were taken, and how much room there is. Samples that were not taken are
/// sent again.
pub proof fn law_answers_are_taken(
    stream: &mut StreamState,
    chunk_len: usize,
    ack: &[u8],
    accepted: Result<usize, FeedFault>,
)
    requires
        call_ensures(feeding::feed_acknowledged, (stream, chunk_len, ack), accepted),
        old(stream)@.wf(),
    ensures
        accepted is Ok <==> ack@.len() == 5 && ack@[0] == old(stream)@.stream_id && ack@[1] + 256
            * ack@[2] <= chunk_len,
        match accepted {
            Ok(n) => n == ack@[1] + 256 * ack@[2] && is_acknowledged(
                old(stream)@,
                final(stream)@,
                chunk_len as int,
                n as int,
                ack@[3] + 256 * ack@[4],
            ),
            Err(fault) => is_ack_fault(fault, old(stream)@, chunk_len as int, ack@) && final(stream)@ == old(stream)@,
        },
{
    let s = old(stream)@;
    if let Ok(n) = accepted {
        vstd::arithmetic::div_mod::lemma_mod_bound(
            s.cursor - (chunk_len - n),
            s.samples.len() as int,
        );
    }
}

/// The header of a request: its opcode, and the length of the payload, low byte first; a payload of
/// more than 65535 bytes is refused.
pub proof fn law_request_header(
    op: HostOp,
    payload: &[u8],
    header: Result<[u8; 3], PayloadTooLarge>,
)
    requires
        call_ensures(host_link::request_header, (op, payload), header),
    ensures
        header is Ok <==> payload@.len() <= 65535,
        header matches Ok(bytes) ==> bytes@[0] == (if op == HostOp::HelloReq { 1u8 } else { 2u8 })
            && bytes@[1] + 256 * bytes@[2] == payload@.len(),
{
    if let Ok(bytes) = header {
        let frame = protocol::frame_bytes(op.opcode(), payload@);
        let all = bytes@ + payload@;
        assert(bytes@[0] == all[0] && bytes@[1] == all[1] && bytes@[2] == all[2]);
        assert(all[0] == frame[0] && all[1] == frame[1] && all[2] == frame[2]);
        protocol::lemma_word(payload@.len() as int);
    }
}

/// The opcode of an answer on the wire.
pub open spec fn wire_code(op: DeviceOp) -> int {
    match op {
        DeviceOp::HelloResp => 129,
        DeviceOp::FeedAck => 130,
        DeviceOp::Error => 255,
    }
}

/// What a call of `judge_frame` makes of a frame: the answer that is waited for, a refusal with its
/// code, or something to pass over.
pub proof fn law_frames_are_judged(
    expected: DeviceOp,
    opcode: u8,
    payload: Vec<u8>,
    verdict: FrameVerdict,
)
    requires
        call_ensures(host_link::judge_frame, (expected, opcode, payload), verdict),
    ensures
        opcode == wire_code(expected) ==> (verdict matches FrameVerdict::Answer { payload: answer }
            && answer@ == payload@),
        opcode != wire_code(expected) && opcode == 255 ==> (verdict matches FrameVerdict::Refused {
            code,
        } && code == if payload@.len() > 0 { payload@[0] } else { 255 }),
        opcode != wire_code(expected) && opcode != 255 ==> verdict is Ignored,
{
}

/// Calls on the reader of an answer: it wants the three bytes of a header, then those of the payload
/// that the header tells of, and makes of a whole frame what it is.
pub proof fn law_answer_is_read(
    expected: DeviceOp,
    fresh: AnswerReader,
    waiting: &AnswerReader,
    count: usize,
    reader: &mut AnswerReader,
    bytes: &[u8],
    deadline_passed: bool,
    progress: ReadProgress,
)
    requires
        call_ensures(AnswerReader::new, (expected,), fresh),
        call_ensures(AnswerReader::wanted, (waiting,), count),
        call_ensures(AnswerReader::on_bytes, (reader, bytes, deadline_passed), progress),
        old(reader).wf(),
    ensures
        fresh.frame().len() == 0,
        fresh.expected() == expected,
        count as int == if waiting.frame().len() < 3 {
            3 - waiting.frame().len()
        } else {
            3 + waiting.frame()[1] + 256 * waiting.frame()[2] - waiting.frame().len()
        },
        final(reader).expected() == old(reader).expected(),
        ({
            let frame = old(reader).frame() + bytes@;
            let whole = frame.len() >= 3 && frame.len() >= 3 + frame[1] + 256 * frame[2];
            let wanted = wire_code(old(reader).expected());
            if bytes@.len() == 0 {
                &&& final(reader).frame() == old(reader).frame()
                &&& deadline_passed ==> progress is TimedOut
                &&& !deadline_passed ==> progress is Pending
            } else if !whole {
                progress is Pending && final(reader).frame() == frame
            } else {
                &&& final(reader).frame().len() == 0
                &&& frame[0] == wanted ==> (progress matches ReadProgress::Answer { payload }
                    && payload@ == frame.skip(3))
                &&& frame[0] != wanted && frame[0] == 255 ==> (progress matches ReadProgress::Refused {
                    code,
                } && code == if frame.len() > 3 { frame[3] } else { 255 })
                &&& frame[0] != wanted && frame[0] != 255 ==> progress is Pending
            }
        }),
{
    let frame = old(reader).frame() + bytes@;
    if frame.len() > 3 {
        assert(frame.skip(3)[0] == frame[3]);
    }
}

/// A read that gave no bytes ends the wait where it failed, or where the time is over; an interrupted
/// one never does.
pub proof fn law_no_bytes(
    reader: &AnswerReader,
    why: NoBytes,
    deadline_passed: bool,
    progress: ReadProgress,
)
    requires
        call_ensures(AnswerReader::on_no_bytes, (reader, why, deadline_passed), progress),
    ensures
        why == NoBytes::Failed ==> progress is Failed,
        why == NoBytes::Interrupted ==> progress is Pending,
        why == NoBytes::NotReady && deadline_passed ==> progress is TimedOut,
        why == NoBytes::NotReady && !deadline_passed ==> progress is Pending,
{
}

/// Calls on a schedule: it is due from its time on, and then next at the first of its times that is
/// still to come.
pub proof fn law_schedule_comes_round(
    next: u64,
    interval: u64,
    fresh: Schedule,
    schedule: &mut Schedule,
    now: u64,
    due: bool,
)
    requires
        call_ensures(Schedule::new, (next, interval), fresh),
        call_ensures(Schedule::poll, (schedule, now), due),
        old(schedule).interval() > 0,
    ensures
        fresh.next() == next,
        fresh.interval() == interval,
        due <==> old(schedule).next() <= now,
        final(schedule).interval() == old(schedule).interval(),
        !due ==> final(schedule).next() == old(schedule).next(),
        due ==> {
            &&& now < final(schedule).next() <= now + old(schedule).interval()
            &&& (final(schedule).next() - old(schedule).next()) % (old(schedule).interval() as int)
                == 0
        },
{
}

/// The times of the host: an answer is waited for two seconds, the device is asked for its room every
/// fifty milliseconds, a report comes every second, and there is a rest of one millisecond after a
/// round in which samples were taken, and of two after any other.
pub proof fn law_host_times(fed_any: bool, ms: u64)
    requires
        call_ensures(host_link::rest_ms, (fed_any,), ms),
    ensures
        ms == if fed_any { 1u64 } else { 2u64 },
        host_link::ANSWER_TIMEOUT_MS == 2000,
        host_link::PROBE_INTERVAL_NS == 50000000,
        host_link::DEBUG_REPORT_INTERVAL_NS == 1000000000,
{
}

/// Two feeders that differ only in the place of the next sample.
pub open spec fn only_cursor_moves(before: Feeder, after: Feeder) -> bool {
    after == (Feeder { cursor: after.cursor, ..before })
}

/// All streams but one are as they were.
pub open spec fn only_feeder_changes(before: Playback, after: Playback, index: int) -> bool {
    &&& after.feeders.len() == before.feeders.len()
    &&& forall|k: int|
        0 <= k < before.feeders.len() && k != index ==> #[trigger] after.feeders[k]
            == before.feeders[k]
}

/// A step sends `n` samples of stream `index`, and waits for the answer.
pub open spec fn sends(
    before: Playback,
    action: PlayerAction,
    after: Playback,
    index: int,
    n: int,
) -> bool {
    let s = before.feeders[index];
    &&& action matches PlayerAction::Feed { payload } && feeds(payload@, s, n)
    &&& only_feeder_changes(before, after, index)
    &&& only_cursor_moves(s, after.feeders[index])
    &&& after.feeders[index].cursor as int == (s.cursor + n) % s.samples.len() as int
    &&& after.chunk == n
    &&& after.probe_at == before.probe_at
    &&& after.report_at == before.report_at
    &&& after.probe_due == before.probe_due
    &&& after.fed_any == before.fed_any
}

/// How many samples are sent to a stream at once.
pub open spec fn chunk_of(s: Feeder) -> int {
    if s.free < 48 { s.free as int } else { 48 }
}

/// What a call of `step` does before playback: stream by stream, a buffer that is not three quarters
/// full and has room is sent a chunk; with the last stream done, the streams are announced, the device
/// is asked for its room at once, and a report is due in a second.
pub proof fn law_player_prefills(player: &mut Player, now: u64, action: PlayerAction, index: usize)
    requires
        call_ensures(Player::step, (player, now), action),
        old(player).wf(),
        old(player)@.stage == (Stage::Prefill { index }),
        old(player)@.feeders.len() < usize::MAX,
    ensures
        ({
            let before = old(player)@;
            let after = final(player)@;
            let s = before.feeders[index as int];
            if index >= before.feeders.len() {
                &&& action is Announce
                &&& after.stage == Stage::RoundStart
                &&& after.feeders == before.feeders
                &&& after.probe_at == now
                &&& after.report_at == now + 1000000000
            } else if 4 * (filled(s) + 1) <= 3 * s.capacity && s.free > 0 {
                &&& sends(before, action, after, index as int, chunk_of(s))
                &&& after.stage == (Stage::AwaitPrefill { index })
            } else {
                &&& action is Proceed
                &&& after == (Playback {
                    stage: Stage::Prefill { index: (index + 1) as usize },
                    ..before
                })
            }
        }),
{
    let before = old(player)@;
    old(player).lemma_view_wf();
    if index < before.feeders.len() {
        let s = before.feeders[index as int];
        assert(s.wf());
        vstd::arithmetic::div_mod::lemma_mod_bound(s.cursor + chunk_of(s), s.samples.len() as int);
        lemma_payload(s, chunk_of(s) as nat);
    }
}

proof fn lemma_payload(s: Feeder, n: nat)
    ensures
        feeds(player::feed_payload(s, n), s, n as int),
{
}

/// What a call of `step` does in a round: the round asks the device for its room where that is due;
/// then stream by stream, each is probed where the round does that, and then sent a chunk where it is
/// at most half full and has room. With the last stream done, there is a rest.
pub proof fn law_player_refills(
    player: &mut Player,
    now: u64,
    action: PlayerAction,
    index: usize,
    probed: bool,
)
    requires
        call_ensures(Player::step, (player, now), action),
        old(player).wf(),
        old(player)@.stage == (Stage::Turn { index, probed }),
        old(player)@.feeders.len() < usize::MAX,
    ensures
        ({
            let before = old(player)@;
            let after = final(player)@;
            let s = before.feeders[index as int];
            if index >= before.feeders.len() {
                &&& action matches PlayerAction::Rest { ms } && ms == if before.fed_any {
                    1u64
                } else {
                    2u64
                }
                &&& after == (Playback { stage: Stage::RoundEnd, ..before })
            } else if before.probe_due && !probed {
                &&& sends(before, action, after, index as int, 0)
                &&& after.feeders[index as int].cursor == s.cursor
                &&& after.stage == (Stage::AwaitProbe { index })
            } else if 2 * filled(s) <= s.capacity && s.free > 0 {
                &&& sends(before, action, after, index as int, chunk_of(s))
                &&& after.stage == (Stage::AwaitRefill { index })
            } else {
                &&& action is Proceed
                &&& after == (Playback {
                    stage: Stage::Turn { index: (index + 1) as usize, probed: false },
                    ..before
                })
            }
        }),
{
    let before = old(player)@;
    old(player).lemma_view_wf();
    if index < before.feeders.len() {
        let s = before.feeders[index as int];
        assert(s.wf());
        vstd::arithmetic::div_mod::lemma_mod_bound(s.cursor + chunk_of(s), s.samples.len() as int);
        vstd::arithmetic::div_mod::lemma_small_mod(s.cursor, s.samples.len());
        lemma_payload(s, chunk_of(s) as nat);
        lemma_payload(s, 0);
    }
}

/// What a call of `step` does between rounds: a round begins with the first stream, and asks the
/// device for its room every fifty milliseconds; after a round a report comes every second.
pub proof fn law_player_keeps_time(player: &mut Player, now: u64, action: PlayerAction)
    requires
        call_ensures(Player::step, (player, now), action),
        old(player).wf(),
    ensures
        old(player)@.stage == Stage::RoundStart ==> {
            let before = old(player)@;
            let after = final(player)@;
            &&& action is Proceed
            &&& after.stage == (Stage::Turn { index: 0, probed: false })
            &&& after.feeders == before.feeders
            &&& !after.fed_any
            &&& after.probe_due == (before.probe_at <= now)
            &&& after.report_at == before.report_at
            &&& before.probe_at <= now ==> now < after.probe_at <= now + 50000000
            &&& before.probe_at > now ==> after.probe_at == before.probe_at
        },
        old(player)@.stage == Stage::RoundEnd ==> {
            let before = old(player)@;
            let after = final(player)@;
            &&& action is Report <==> before.report_at <= now
            &&& action is Proceed <==> before.report_at > now
            &&& after.stage == Stage::RoundStart
            &&& after.feeders == before.feeders
            &&& after.probe_at == before.probe_at
            &&& before.report_at <= now ==> now < after.report_at <= now + 1000000000
            &&& before.report_at > now ==> after.report_at == before.report_at
        },
{
}

/// What a call of `on_ack` does with the answer to a chunk: the stream is acknowledged, a stream that
/// took nothing before playback is left as it is, a probed stream has its turn, and a round in which a
/// sample was taken is noted. An answer that cannot be one changes nothing.
pub proof fn law_player_takes_answers(
    player: &mut Player,
    ack: &[u8],
    fed: Result<Fed, FeedFault>,
    index: usize,
)
    requires
        call_ensures(Player::on_ack, (player, ack), fed),
        old(player).wf(),
        player::awaited(old(player)@.stage) == Some(index as int),
        old(player)@.feeders.len() < usize::MAX,
    ensures
        ({
            let before = old(player)@;
            let after = final(player)@;
            let s = before.feeders[index as int];
            match fed {
                Ok(f) => {
                    let taken = ack@[1] + 256 * ack@[2];
                    &&& ack@.len() == 5 && ack@[0] == s.stream_id && taken <= before.chunk
                    &&& f.index == index && f.sent == before.chunk && f.accepted == taken
                    &&& only_feeder_changes(before, after, index as int)
                    &&& is_acknowledged(
                        s,
                        after.feeders[index as int],
                        before.chunk as int,
                        taken,
                        ack@[3] + 256 * ack@[4],
                    )
                    &&& after.fed_any == (before.fed_any || before.stage is AwaitRefill && taken > 0)
                    &&& after.probe_at == before.probe_at
                    &&& after.report_at == before.report_at
                    &&& after.probe_due == before.probe_due
                    &&& after.stage == match before.stage {
                        Stage::AwaitPrefill { .. } => if taken == 0 {
                            Stage::Prefill { index: (index + 1) as usize }
                        } else {
                            Stage::Prefill { index }
                        },
                        Stage::AwaitProbe { .. } => Stage::Turn { index, probed: true },
                        _ => Stage::Turn { index: (index + 1) as usize, probed: false },
                    }
                },
                Err(fault) => is_ack_fault(fault, s, before.chunk as int, ack@) && after == before,
            }
        }),
{
    let before = old(player)@;
    old(player).lemma_view_wf();
    let s = before.feeders[index as int];
    assert(s.wf());
    if let Ok(f) = fed {
        vstd::arithmetic::div_mod::lemma_mod_bound(
            s.cursor - (before.chunk - f.accepted),
            s.samples.len() as int,
        );
    }
}

/// A player starts with filling the first stream, with the streams that it is given.
pub proof fn law_player_starts(
    streams: Vec<StreamState>,
    fresh: Player,
    player: &Player,
    shown: &Vec<StreamState>,
)
    requires
        call_ensures(Player::new, (streams,), fresh),
        call_ensures(Player::streams, (player,), shown),
    ensures
        fresh@.stage == (Stage::Prefill { index: 0 }),
        fresh@.feeders.len() == streams@.len(),
        forall|k: int| 0 <= k < streams@.len() ==> #[trigger] fresh@.feeders[k] == streams@[k]@,
        shown@.len() == player@.feeders.len(),
        forall|k: int| 0 <= k < shown@.len() ==> player@.feeders[k] == (#[trigger] shown@[k])@,
{
    let views = csv_streamer::stream_views(shown@);
    assert(views.len() == shown@.len());
    assert forall|k: int| 0 <= k < shown@.len() implies player@.feeders[k] == (
    #[trigger] shown@[k])@ by {
        assert(views[k] == shown@[k]@);
    }
}

/// A stream is that of a source and a descriptor for its register: empty on the device, with all
/// samples of the source still to be sent, from the first on.
pub open spec fn is_attached(s: Feeder, source: HostSource, d: DeviceStreamDescriptor) -> bool {
    &&& d.addr == source.addr
    &&& s.stream_id == d.stream_id
    &&& s.addr == source.addr
    &&& s.capacity == d.capacity
    &&& s.free == d.capacity
    &&& s.samples == source.samples@
    &&& s.cursor == 0
    &&& s.feed_calls == 0 && s.probe_calls == 0 && s.accepted_total == 0
}

/// Source `i` has its stream.
pub open spec fn has_its_stream(
    streams: Seq<StreamState>,
    sources: Seq<HostSource>,
    descriptors: Seq<DeviceStreamDescriptor>,
    i: int,
) -> bool {
    exists|k: int, j: int|
        0 <= k < streams.len() && 0 <= j < descriptors.len() && is_attached(
            (#[trigger] streams[k])@,
            sources[i],
            #[trigger] descriptors[j],
        )
}

/// No two descriptors are for one register.
pub open spec fn are_distinct(descriptors: Seq<DeviceStreamDescriptor>) -> bool {
    forall|i: int, j: int|
        0 <= i < j < descriptors.len() ==> (#[trigger] descriptors[i]).addr != (
        #[trigger] descriptors[j]).addr
}

/// There is a descriptor for a register.
pub open spec fn is_described(descriptors: Seq<DeviceStreamDescriptor>, addr: u8) -> bool {
    exists|j: int| 0 <= j < descriptors.len() && (#[trigger] descriptors[j]).addr == addr
}

/// Source `i` is the first one without a descriptor for its register.
pub open spec fn is_first_missing(
    sources: Seq<HostSource>,
    descriptors: Seq<DeviceStreamDescriptor>,
    i: int,
    addr: u8,
) -> bool {
    &&& 0 <= i < sources.len()
    &&& sources[i].addr == addr
    &&& !is_described(descriptors, addr)
    &&& forall|m: int|
        0 <= m < i ==> #[trigger] is_described(descriptors, sources[m].addr)
}

/// The first source without a descriptor is at an address.
pub open spec fn is_missing(
    sources: Seq<HostSource>,
    descriptors: Seq<DeviceStreamDescriptor>,
    addr: u8,
) -> bool {
    exists|i: int| #[trigger] is_first_missing(sources, descriptors, i, addr)
}

/// What a call of `attach_streams` gives: for every source its stream, by stream number, where there
/// are as many descriptors as sources, no two for one register, and one for each source.
pub proof fn law_sources_are_attached(
    sources: &Vec<HostSource>,
    descriptors: &Vec<DeviceStreamDescriptor>,
    attached: Result<Vec<StreamState>, AttachError>,
)
    requires
        call_ensures(csv_streamer::attach_streams, (sources, descriptors), attached),
        sources@.len() <= usize::MAX,
        descriptors@.len() <= usize::MAX,
    ensures
        match attached {
            Ok(streams) => {
                &&& streams@.len() == sources@.len()
                &&& descriptors@.len() == sources@.len()
                &&& are_distinct(descriptors@)
                &&& forall|i: int|
                    0 <= i < sources@.len() ==> #[trigger] has_its_stream(
                        streams@,
                        sources@,
                        descriptors@,
                        i,
                    )
                &&& forall|j: int, k: int|
                    0 <= j < k < streams@.len() ==> (#[trigger] streams@[j]).stream_id <= (
                    #[trigger] streams@[k]).stream_id
            },
            Err(AttachError::DuplicateDescriptor { addr }) => exists|i: int, j: int|
                0 <= i < j < descriptors@.len() && (#[trigger] descriptors@[i]).addr == addr && (
                #[trigger] descriptors@[j]).addr == addr,
            Err(AttachError::CountMismatch { sources: a, reported }) => a == sources@.len()
                && reported == descriptors@.len() && a != reported && are_distinct(descriptors@),
            Err(AttachError::MissingDescriptor { addr }) => {
                &&& are_distinct(descriptors@)
                &&& descriptors@.len() == sources@.len()
                &&& is_missing(sources@, descriptors@, addr)
            },
        },
{
    let views = crate::host_sources::source_views(sources@);
    let all = descriptors@;
    assert(views.len() == sources@.len());
    lemma_repeated(all);
    lemma_matched(sources@, all, sources@.len());
    if csv_streamer::repeated_addr(all) is None && all.len() == sources@.len() {
        if let Ok(list) = attached {
            let streams = list@;
            let found = csv_streamer::matched_streams(views, all, views.len())->Ok_0;
            let key = csv_streamer::stream_key();
            let feeders = csv_streamer::stream_views(streams);
            ordering::lemma_sort_by(found, key);
            assert(feeders.len() == streams.len());
            assert forall|i: int| 0 <= i < sources@.len() implies #[trigger] has_its_stream(
                streams,
                sources@,
                all,
                i,
            ) by {
                let k = ordering::lemma_sorted_place(found, key, i);
                assert(feeders[k] == streams[k]@);
                assert(is_match(found[i], sources@[i], all));
                let j = choose|j: int|
                    0 <= j < all.len() && is_attached(found[i], sources@[i], #[trigger] all[j]);
                assert(is_attached(streams[k]@, sources@[i], all[j]));
            }
            assert forall|j: int, k: int| 0 <= j < k < streams.len() implies (
            #[trigger] streams[j]).stream_id <= (#[trigger] streams[k]).stream_id by {
                assert(key(feeders[j]) <= key(feeders[k]));
            }
        }
    }
}

/// A stream is that of a source and of one of some descriptors.
spec fn is_match(s: Feeder, source: HostSource, all: Seq<DeviceStreamDescriptor>) -> bool {
    exists|j: int| 0 <= j < all.len() && is_attached(s, source, #[trigger] all[j])
}

proof fn lemma_found(all: Seq<DeviceStreamDescriptor>, addr: u8)
    ensures
        match csv_streamer::descriptor_for(all, addr) {
            Some(d) => d.addr == addr && exists|j: int|
                0 <= j < all.len() && #[trigger] all[j] == d,
            None => forall|j: int| 0 <= j < all.len() ==> (#[trigger] all[j]).addr != addr,
        },
    decreases all.len(),
{
    if all.len() > 0 {
        let head = all.drop_last();
        lemma_found(head, addr);
        match csv_streamer::descriptor_for(head, addr) {
            Some(d) => {
                let j = choose|j: int| 0 <= j < head.len() && #[trigger] head[j] == d;
                assert(all[j] == d);
            },
            None => {
                assert forall|j: int| 0 <= j < head.len() implies (#[trigger] all[j]).addr
                    != addr by {
                    assert(head[j].addr != addr);
                }
                assert(all[all.len() - 1] == all.last());
            },
        }
    }
}

proof fn lemma_repeated(all: Seq<DeviceStreamDescriptor>)
    ensures
        match csv_streamer::repeated_addr(all) {
            Some(addr) => exists|i: int, j: int|
                0 <= i < j < all.len() && (#[trigger] all[i]).addr == addr && (
                #[trigger] all[j]).addr == addr,
            None => forall|i: int, j: int|
                0 <= i < j < all.len() ==> (#[trigger] all[i]).addr != (#[trigger] all[j]).addr,
        },
    decreases all.len(),
{
    if all.len() > 0 {
        let head = all.drop_last();
        lemma_repeated(head);
        lemma_found(head, all.last().addr);
        match csv_streamer::repeated_addr(head) {
            Some(addr) => {
                let (i, j) = choose|i: int, j: int|
                    0 <= i < j < head.len() && (#[trigger] head[i]).addr == addr && (
                    #[trigger] head[j]).addr == addr;
                assert(all[i].addr == addr && all[j].addr == addr);
            },
            None => match csv_streamer::descriptor_for(head, all.last().addr) {
                Some(d) => {
                    let i = choose|i: int| 0 <= i < head.len() && #[trigger] head[i] == d;
                    assert(all[i].addr == d.addr && all[all.len() - 1].addr == d.addr);
                },
                None => {
                    assert forall|i: int, j: int| 0 <= i < j < all.len() implies (
                    #[trigger] all[i]).addr != (#[trigger] all[j]).addr by {
                        assert(head[i] == all[i]);
                        if j < head.len() {
                            assert(head[j] == all[j]);
                        }
                    }
                },
            },
        }
    }
}

/// What is found for the first `n` sources: a stream for each, or the first one without a
/// descriptor.
spec fn is_outcome(
    outcome: Result<Seq<Feeder>, AttachError>,
    sources: Seq<HostSource>,
    all: Seq<DeviceStreamDescriptor>,
    n: nat,
) -> bool {
    match outcome {
        Ok(found) => found.len() == n && forall|i: int|
            0 <= i < n ==> is_match(#[trigger] found[i], sources[i], all),
        Err(AttachError::MissingDescriptor { addr }) => is_missing(sources, all, addr),
        _ => false,
    }
}

proof fn lemma_matched(sources: Seq<HostSource>, all: Seq<DeviceStreamDescriptor>, n: nat)
    requires
        n <= sources.len(),
    ensures
        is_outcome(
            csv_streamer::matched_streams(crate::host_sources::source_views(sources), all, n),
            sources,
            all,
            n,
        ),
    decreases n,
{
    let views = crate::host_sources::source_views(sources);
    let outcome = csv_streamer::matched_streams(views, all, n);
    if n == 0 {
        assert(is_outcome(outcome, sources, all, n));
    } else {
        let before = (n - 1) as nat;
        let source = sources[n - 1];
        lemma_matched(sources, all, before);
        assert(views[n - 1] == source@);
        lemma_found(all, source.addr);
        match csv_streamer::matched_streams(views, all, before) {
            Ok(earlier) => {
                match csv_streamer::descriptor_for(all, source.addr) {
                    Some(d) => {
                        let next = csv_streamer::fresh_feeder(source@, d);
                        let found = earlier.push(next);
                        assert(outcome == Ok::<Seq<Feeder>, AttachError>(found));
                        let j = choose|j: int| 0 <= j < all.len() && #[trigger] all[j] == d;
                        assert(is_attached(next, source, all[j]));
                        assert forall|i: int| 0 <= i < n implies is_match(
                            #[trigger] found[i],
                            sources[i],
                            all,
                        ) by {
                            if i < before {
                                assert(found[i] == earlier[i]);
                            } else {
                                assert(found[i] == next);
                                assert(is_match(next, source, all));
                            }
                        }
                        assert(is_outcome(outcome, sources, all, n));
                    },
                    None => {
                        assert forall|m: int| 0 <= m < n - 1 implies #[trigger] is_described(
                            all,
                            sources[m].addr,
                        ) by {
                            assert(is_match(earlier[m], sources[m], all));
                        }
                        assert(is_first_missing(sources, all, n - 1, source.addr));
                        assert(is_outcome(outcome, sources, all, n));
                    },
                }
            },
            Err(error) => {
                assert(is_outcome(outcome, sources, all, n));
            },
        }
    }
}

/// What a reader is told while a stream is fed.
pub proof fn law_stream_lines(
    stream: &StreamState,
    chunk_len: usize,
    introduction: String,
    report: String,
    starved: String,
)
    requires
        call_ensures(feeding::stream_line, (stream,), introduction),
        call_ensures(feeding::debug_line, (stream,), report),
        call_ensures(feeding::starved_line, (stream, chunk_len), starved),
    ensures
        ({
            let s = stream@;
            let addr = text::zero_padded(text::hex_text(s.addr as nat), 2);
            &&& introduction@ == "  id="@ + text::dec_text(s.stream_id as nat) + " addr=0x"@ + addr
                + " capacity="@ + text::dec_text(s.capacity) + " samples="@ + text::dec_text(
                s.samples.len(),
            )
            &&& report@ == "  id="@ + text::dec_text(s.stream_id as nat) + " addr=0x"@ + addr
                + " fill="@ + text::dec_text(filled(s) as nat) + "/"@ + text::dec_text(s.capacity)
                + " free="@ + text::dec_text(s.free) + " feed_calls="@ + text::dec_text(
                s.feed_calls as nat,
            ) + " probe_calls="@ + text::dec_text(s.probe_calls as nat) + " accepted_total="@
                + text::dec_text(s.accepted_total as nat) + " cursor="@ + text::dec_text(s.cursor)
            &&& starved@ == "stream "@ + text::dec_text(s.stream_id as nat)
                + " FEED_ACK accepted=0 (requested="@ + text::dec_text(chunk_len as nat)
                + ", free="@ + text::dec_text(s.free) + ")"@
        }),
{
}

/// What a reader is told when something does not go together.
pub proof fn law_host_messages(
    hello: &HelloError,
    hello_words: String,
    attach: &AttachError,
    attach_words: String,
    fault: &FeedFault,
    fault_words: String,
    code: u8,
    refusal: String,
)
    requires
        call_ensures(HelloError::message, (hello,), hello_words),
        call_ensures(AttachError::message, (attach,), attach_words),
        call_ensures(FeedFault::message, (fault,), fault_words),
        call_ensures(host_link::refusal_message, (code,), refusal),
    ensures
        hello_words@ == match *hello {
            HelloError::TooShort => "HELLO_RESP payload too short"@,
            HelloError::VersionMismatch { device } => "protocol version mismatch: device="@
                + text::dec_text(device as nat) + " host="@ + text::dec_text(1),
            HelloError::LengthMismatch { got, expected } => "HELLO_RESP length mismatch: got "@
                + text::dec_text(got as nat) + ", expected "@ + text::dec_text(expected as nat),
            HelloError::ZeroCapacity { stream_id } => "stream "@ + text::dec_text(stream_id as nat)
                + " has zero capacity"@,
        },
        attach_words@ == match *attach {
            AttachError::DuplicateDescriptor { addr } => "duplicate stream descriptor for addr "@ + (
            "0x"@ + text::zero_padded(text::hex_text(addr as nat), 2)),
            AttachError::CountMismatch { sources, reported } => "model has "@ + text::dec_text(
                sources as nat,
            ) + " host_stream registers but firmware reports "@ + text::dec_text(reported as nat),
            AttachError::MissingDescriptor { addr } =>
                "firmware missing stream descriptor for register "@ + ("0x"@ + text::zero_padded(
                text::hex_text(addr as nat),
                2,
            )),
        },
        fault_words@ == match *fault {
            FeedFault::ChunkExceedsFree => "feed chunk exceeds free space"@,
            FeedFault::AckLength => "FEED_ACK payload must be 5 bytes"@,
            FeedFault::AckStream { got, expected } => "FEED_ACK stream id mismatch: got "@
                + text::dec_text(got as nat) + ", expected "@ + text::dec_text(expected as nat),
            FeedFault::AckAccepted { accepted, sent } => "device accepted "@ + text::dec_text(
                accepted as nat,
            ) + " bytes, but "@ + text::dec_text(sent as nat) + " were sent"@,
        },
        refusal@ == "device returned error code "@ + text::dec_text(code as nat),
{
}

}
