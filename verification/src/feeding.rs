//! How the host feeds a stream: what it sends, and what it makes of the device's answer.
use vstd::prelude::*;

use crate::csv_streamer::{
    Feeder, StreamState, FEED_CHUNK_BYTES, LOW_DATA_MARK_DENOMINATOR, LOW_DATA_MARK_NUMERATOR,
    PREFILL_DENOMINATOR, PREFILL_NUMERATOR,
};
use crate::protocol;
use crate::text;

verus! {

/// How many bytes are in the device's buffer, by what the device said last.
pub fn fill_level(stream: &StreamState) -> (level: usize)
    ensures
        level == stream@.fill(),
{
    stream.capacity.saturating_sub(stream.free)
}

/// `count` samples from place `start` on, over and over.
pub open spec fn played(samples: Seq<u8>, start: int, count: nat) -> Seq<u8> {
    Seq::new(count, |i: int| samples[(start + i) % samples.len() as int])
}

/// The place `count` samples behind another one.
pub open spec fn place_after(samples: Seq<u8>, place: int, count: int) -> nat {
    ((place + count) % samples.len() as int) as nat
}

/// How many samples to send at once, where there is room.
pub open spec fn chunk_for(free: nat) -> nat {
    if free < FEED_CHUNK_BYTES { free } else { FEED_CHUNK_BYTES as nat }
}

/// How full a buffer is to be before playback starts.
pub open spec fn prefill_target(capacity: nat) -> nat {
    capacity * PREFILL_NUMERATOR as nat / PREFILL_DENOMINATOR as nat
}

/// How full a buffer is kept.
pub open spec fn low_data_mark(capacity: nat) -> nat {
    capacity * LOW_DATA_MARK_NUMERATOR as nat / LOW_DATA_MARK_DENOMINATOR as nat
}

/// How many samples to send next before playback starts, or none where the buffer is full enough.
pub fn prefill_chunk(stream: &StreamState) -> (chunk: Option<usize>)
    requires
        stream@.wf(),
    ensures
        chunk is Some <==> stream@.fill() < prefill_target(stream@.capacity) && stream@.free > 0,
        chunk matches Some(n) ==> n == chunk_for(stream@.free),
{
    let target: usize = stream.capacity * PREFILL_NUMERATOR / PREFILL_DENOMINATOR;
    if fill_level(stream) < target {
        if stream.free == 0 {
            return None;
        }
        return Some(if stream.free < FEED_CHUNK_BYTES { stream.free } else { FEED_CHUNK_BYTES });
    }
    None
}

/// How many samples to send next during playback, or none where the buffer is full enough.
pub fn refill_chunk(stream: &StreamState) -> (chunk: Option<usize>)
    requires
        stream@.wf(),
    ensures
        chunk is Some <==> stream@.fill() <= low_data_mark(stream@.capacity) && stream@.free > 0,
        chunk matches Some(n) ==> n == chunk_for(stream@.free),
{
    let mark: usize = stream.capacity * LOW_DATA_MARK_NUMERATOR / LOW_DATA_MARK_DENOMINATOR;
    if fill_level(stream) > mark {
        return None;
    }
    if stream.free == 0 {
        return None;
    }
    Some(if stream.free < FEED_CHUNK_BYTES { stream.free } else { FEED_CHUNK_BYTES })
}

/// Why a stream could not be fed.
#[derive(Copy, Clone, Debug, PartialEq, Eq, Structural)]
pub enum FeedFault {
    /// More samples were to be sent than the device can take.
    ChunkExceedsFree,
    /// The answer has not the length of one.
    AckLength,
    /// The answer is for another stream.
    AckStream { got: u8, expected: u8 },
    /// The answer is for more samples than were sent.
    AckAccepted { accepted: usize, sent: usize },
}

impl FeedFault {
    /// The message for a reader.
    pub open spec fn message_text(self) -> Seq<char> {
        match self {
            FeedFault::ChunkExceedsFree => "feed chunk exceeds free space"@,
            FeedFault::AckLength => "FEED_ACK payload must be 5 bytes"@,
            FeedFault::AckStream { got, expected } => "FEED_ACK stream id mismatch: got "@
                + text::dec_text(got as nat) + ", expected "@ + text::dec_text(expected as nat),
            FeedFault::AckAccepted { accepted, sent } => "device accepted "@ + text::dec_text(
                accepted as nat,
            ) + " bytes, but "@ + text::dec_text(sent as nat) + " were sent"@,
        }
    }

    /// The message for a reader.
    pub fn message(&self) -> (out: String)
        ensures
            out@ == self.message_text(),
    {
        let mut out = String::new();
        match *self {
            FeedFault::ChunkExceedsFree => {
                out.append("feed chunk exceeds free space");
            },
            FeedFault::AckLength => {
                out.append("FEED_ACK payload must be 5 bytes");
            },
            FeedFault::AckStream { got, expected } => {
                out.append("FEED_ACK stream id mismatch: got ");
                text::push_dec(&mut out, got as u64);
                out.append(", expected ");
                text::push_dec(&mut out, expected as u64);
            },
            FeedFault::AckAccepted { accepted, sent } => {
                out.append("device accepted ");
                text::push_dec(&mut out, accepted as u64);
                out.append(" bytes, but ");
                text::push_dec(&mut out, sent as u64);
                out.append(" were sent");
            },
        }
        assert(out@ =~= self.message_text());
        out
    }
}

/// The next place from one on.
proof fn lemma_next_place(samples: Seq<u8>, start: int, i: int)
    requires
        0 < samples.len(),
    ensures
        ({
            let len = samples.len() as int;
            let at = (start + i) % len;
            (start + i + 1) % len == if at + 1 == len { 0 } else { at + 1 }
        }),
{
    let len = samples.len() as int;
    let at = (start + i) % len;
    vstd::arithmetic::div_mod::lemma_mod_bound(start + i, len);
    vstd::arithmetic::div_mod::lemma_add_mod_noop_right(1, start + i, len);
    if at + 1 == len {
        vstd::arithmetic::div_mod::lemma_mod_self_0(len);
    } else {
        vstd::arithmetic::div_mod::lemma_small_mod((at + 1) as nat, len as nat);
    }
}

/// Takes the next samples of a stream, and gives the payload that feeds them to the device: the
/// number of the stream and the samples.
pub fn feed_request(stream: &mut StreamState, chunk_len: usize) -> (payload: Result<
    Vec<u8>,
    FeedFault,
>)
    requires
        old(stream)@.wf(),
    ensures
        final(stream)@.wf(),
        match payload {
            Ok(bytes) => {
                let s = old(stream)@;
                &&& chunk_len <= s.free
                &&& bytes@ == seq![s.stream_id] + played(
                    s.samples,
                    s.cursor as int,
                    chunk_len as nat,
                )
                &&& final(stream)@ == (Feeder {
                    cursor: place_after(s.samples, s.cursor as int, chunk_len as int),
                    ..s
                })
            },
            Err(fault) => chunk_len > old(stream)@.free && fault == FeedFault::ChunkExceedsFree
                && final(stream)@ == old(stream)@,
        },
{
    if chunk_len > stream.free {
        return Err(FeedFault::ChunkExceedsFree);
    }
    let ghost before = stream@;
    let ghost start = before.cursor as int;
    let mut bytes: Vec<u8> = Vec::new();
    bytes.push(stream.stream_id);
    let mut i: usize = 0;
    proof {
        vstd::arithmetic::div_mod::lemma_small_mod(before.cursor, before.samples.len());
        assert(bytes@ =~= seq![before.stream_id] + played(before.samples, start, 0));
        assert(stream@ =~= Feeder { cursor: place_after(before.samples, start, 0), ..before });
    }
    while i < chunk_len
        invariant
            i <= chunk_len,
            before.wf(),
            start == before.cursor,
            bytes@ == seq![before.stream_id] + played(before.samples, start, i as nat),
            stream@ == (Feeder { cursor: place_after(before.samples, start, i as int), ..before }),
            stream.cursor < stream.samples@.len(),
        decreases chunk_len - i,
    {
        proof {
            lemma_next_place(before.samples, start, i as int);
            vstd::arithmetic::div_mod::lemma_mod_bound(start + i, before.samples.len() as int);
        }
        bytes.push(stream.samples[stream.cursor]);
        let len: usize = stream.samples.len();
        let next: usize = stream.cursor + 1;
        stream.cursor = if next == len { 0 } else { next };
        proof {
            assert(bytes@ =~= seq![before.stream_id] + played(before.samples, start, (i + 1) as nat));
            assert(stream@ =~= Feeder {
                cursor: place_after(before.samples, start, i + 1),
                ..before
            });
        }
        i = i + 1;
    }
    Ok(bytes)
}

/// Moves the place of the next sample back.
pub fn rewind_cursor(stream: &mut StreamState, count: usize)
    requires
        old(stream)@.wf(),
    ensures
        final(stream)@.wf(),
        final(stream)@ == (Feeder {
            cursor: place_after(old(stream)@.samples, old(stream)@.cursor as int, -(count as int)),
            ..old(stream)@
        }),
{
    let len: usize = stream.samples.len();
    let rewind: usize = count % len;
    proof {
        let m = len as int;
        let c = stream.cursor as int;
        vstd::arithmetic::div_mod::lemma_sub_mod_noop_right(c, count as int, m);
        if c >= rewind {
            vstd::arithmetic::div_mod::lemma_small_mod((c - rewind) as nat, m as nat);
        } else {
            vstd::arithmetic::div_mod::lemma_mod_add_multiples_vanish(c - rewind, m);
            vstd::arithmetic::div_mod::lemma_small_mod((c - rewind + m) as nat, m as nat);
        }
    }
    if stream.cursor >= rewind {
        stream.cursor = stream.cursor - rewind;
    } else {
        stream.cursor = stream.cursor + (len - rewind);
    }
}

/// What the device's answer means for samples that were sent.
pub open spec fn ack_fault(s: Feeder, chunk_len: nat, ack: Seq<u8>) -> Option<FeedFault> {
    if ack.len() != 5 {
        Some(FeedFault::AckLength)
    } else if ack[0] != s.stream_id {
        Some(FeedFault::AckStream { got: ack[0], expected: s.stream_id })
    } else if protocol::word(ack[1], ack[2]) > chunk_len {
        Some(
            FeedFault::AckAccepted {
                accepted: protocol::word(ack[1], ack[2]) as usize,
                sent: chunk_len as usize,
            },
        )
    } else {
        None
    }
}

/// A number that is counted up to its largest value.
pub open spec fn counted(n: u64, by: nat) -> u64 {
    if n + by > u64::MAX { u64::MAX } else { (n + by) as u64 }
}

/// A stream after the device said how many of the samples that were sent it took: the others are
/// sent again, and a chunk without samples counts as a probe.
pub open spec fn acknowledged(s: Feeder, chunk_len: nat, ack: Seq<u8>) -> Feeder {
    let accepted = protocol::word(ack[1], ack[2]);
    let free = protocol::word(ack[3], ack[4]);
    let cursor = place_after(s.samples, s.cursor as int, accepted - chunk_len);
    if chunk_len == 0 {
        Feeder { cursor, free, probe_calls: counted(s.probe_calls, 1), ..s }
    } else {
        Feeder {
            cursor,
            free,
            feed_calls: counted(s.feed_calls, 1),
            accepted_total: counted(s.accepted_total, accepted),
            ..s
        }
    }
}

/// Takes the device's answer to a chunk of samples: the number of the stream, how many samples the
/// device took, and how many more it can take. Says how many it took.
pub fn feed_acknowledged(stream: &mut StreamState, chunk_len: usize, ack: &[u8]) -> (accepted: Result<
    usize,
    FeedFault,
>)
    requires
        old(stream)@.wf(),
    ensures
        final(stream)@.wf(),
        match accepted {
            Ok(n) => {
                &&& ack_fault(old(stream)@, chunk_len as nat, ack@) is None
                &&& n == protocol::word(ack@[1], ack@[2])
                &&& final(stream)@ == acknowledged(old(stream)@, chunk_len as nat, ack@)
            },
            Err(fault) => {
                &&& ack_fault(old(stream)@, chunk_len as nat, ack@) == Some(fault)
                &&& final(stream)@ == old(stream)@
            },
        },
{
    if ack.len() != 5 {
        return Err(FeedFault::AckLength);
    }
    if ack[0] != stream.stream_id {
        return Err(FeedFault::AckStream { got: ack[0], expected: stream.stream_id });
    }
    let accepted: usize = protocol::word_of(ack[1], ack[2]);
    let free: usize = protocol::word_of(ack[3], ack[4]);
    if accepted > chunk_len {
        return Err(FeedFault::AckAccepted { accepted, sent: chunk_len });
    }
    rewind_cursor(stream, chunk_len - accepted);
    stream.free = free;
    if chunk_len == 0 {
        stream.probe_calls = stream.probe_calls.saturating_add(1);
        return Ok(accepted);
    }
    stream.feed_calls = stream.feed_calls.saturating_add(1);
    stream.accepted_total = stream.accepted_total.saturating_add(accepted as u64);
    Ok(accepted)
}

/// The line that introduces a stream to a reader.
pub open spec fn stream_line_text(s: Feeder) -> Seq<char> {
    "  id="@ + text::dec_text(s.stream_id as nat) + " addr=0x"@ + text::zero_padded(
        text::hex_text(s.addr as nat),
        2,
    ) + " capacity="@ + text::dec_text(s.capacity) + " samples="@ + text::dec_text(s.samples.len())
}

/// The line that introduces a stream to a reader.
pub fn stream_line(stream: &StreamState) -> (out: String)
    ensures
        out@ == stream_line_text(stream@),
{
    let mut out = String::new();
    out.append("  id=");
    text::push_dec(&mut out, stream.stream_id as u64);
    out.append(" addr=0x");
    text::push_hex(&mut out, stream.addr as u64, 2);
    out.append(" capacity=");
    text::push_dec(&mut out, stream.capacity as u64);
    out.append(" samples=");
    text::push_dec(&mut out, stream.samples.len() as u64);
    assert(out@ =~= stream_line_text(stream@));
    out
}

/// The line that tells a reader how a stream goes.
pub open spec fn debug_line_text(s: Feeder) -> Seq<char> {
    "  id="@ + text::dec_text(s.stream_id as nat) + " addr=0x"@ + text::zero_padded(
        text::hex_text(s.addr as nat),
        2,
    ) + " fill="@ + text::dec_text(s.fill()) + "/"@ + text::dec_text(s.capacity) + " free="@
        + text::dec_text(s.free) + " feed_calls="@ + text::dec_text(s.feed_calls as nat)
        + " probe_calls="@ + text::dec_text(s.probe_calls as nat) + " accepted_total="@
        + text::dec_text(s.accepted_total as nat) + " cursor="@ + text::dec_text(s.cursor)
}

/// The line that tells a reader how a stream goes.
pub fn debug_line(stream: &StreamState) -> (out: String)
    ensures
        out@ == debug_line_text(stream@),
{
    let mut out = String::new();
    out.append("  id=");
    assert(out@ =~= "  id="@);
    text::push_dec(&mut out, stream.stream_id as u64);
    out.append(" addr=0x");
    text::push_hex(&mut out, stream.addr as u64, 2);
    out.append(" fill=");
    text::push_dec(&mut out, fill_level(stream) as u64);
    out.append("/");
    text::push_dec(&mut out, stream.capacity as u64);
    out.append(" free=");
    text::push_dec(&mut out, stream.free as u64);
    out.append(" feed_calls=");
    text::push_dec(&mut out, stream.feed_calls);
    out.append(" probe_calls=");
    text::push_dec(&mut out, stream.probe_calls);
    out.append(" accepted_total=");
    text::push_dec(&mut out, stream.accepted_total);
    out.append(" cursor=");
    text::push_dec(&mut out, stream.cursor as u64);
    out
}

/// The line that tells a reader that the device took none of the samples that were sent.
pub open spec fn starved_line_text(s: Feeder, chunk_len: nat) -> Seq<char> {
    "stream "@ + text::dec_text(s.stream_id as nat) + " FEED_ACK accepted=0 (requested="@
        + text::dec_text(chunk_len) + ", free="@ + text::dec_text(s.free) + ")"@
}

/// The line that tells a reader that the device took none of the samples that were sent, once it
/// has said so.
pub fn starved_line(stream: &StreamState, chunk_len: usize) -> (out: String)
    ensures
        out@ == starved_line_text(stream@, chunk_len as nat),
{
    let mut out = String::new();
    out.append("stream ");
    text::push_dec(&mut out, stream.stream_id as u64);
    out.append(" FEED_ACK accepted=0 (requested=");
    text::push_dec(&mut out, chunk_len as u64);
    out.append(", free=");
    text::push_dec(&mut out, stream.free as u64);
    out.append(")");
    assert(out@ =~= starved_line_text(stream@, chunk_len as nat));
    out
}

}
