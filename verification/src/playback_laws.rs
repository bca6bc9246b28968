//! What the bus master reads of the samples that the host feeds.
use vstd::prelude::*;

use crate::csv_streamer;
use crate::csv_streamer::Feeder;
use crate::feeding;
use crate::model::ModelTables;
use crate::protocol_laws;
use crate::stream_laws;
use crate::streams;
use crate::usb_stream;

verus! {

/// A stream of the device plays the samples of a host: of the `fed` samples that the device took,
/// over and over from the first one on, the bus master has read the first `read`, the others are
/// queued, the host sends next what comes behind them, and the device remembers the last sample
/// that was read.
pub open spec fn plays(s: streams::Streams, feeder: Feeder, fed: nat, read: nat) -> bool {
    let stream = s.hosts[feeder.stream_id as int];
    let len = feeder.samples.len() as int;
    &&& feeder.stream_id < s.host_count
    &&& read <= fed
    &&& stream.queue == feeding::played(feeder.samples, read as int, (fed - read) as nat)
    &&& feeder.cursor == feeding::place_after(feeder.samples, 0, fed as int)
    &&& stream.has_last == (read > 0)
    &&& read > 0 ==> stream.last_value == feeder.samples[(read - 1) % len]
}

/// A host that has just attached to a device whose stream is empty has fed nothing, and nothing was
/// read.
pub proof fn law_playback_starts_at_the_first_sample(s: streams::Streams, feeder: Feeder)
    requires
        feeder.wf(),
        feeder.cursor == 0,
        feeder.stream_id < s.host_count,
        s.hosts[feeder.stream_id as int] == streams::empty_stream(
            s.hosts[feeder.stream_id as int].addr,
        ),
    ensures
        plays(s, feeder, 0, 0),
{
    assert(feeding::played(feeder.samples, 0, 0) =~= Seq::empty());
    vstd::arithmetic::div_mod::lemma_small_mod(0, feeder.samples.len());
}

/// What is played from a place on is played from the same place many turns later.
proof fn lemma_same_place(samples: Seq<u8>, start: int, count: nat)
    requires
        samples.len() > 0,
    ensures
        feeding::played(samples, start % samples.len() as int, count) == feeding::played(
            samples,
            start,
            count,
        ),
{
    let len = samples.len() as int;
    let reduced = feeding::played(samples, start % len, count);
    assert forall|i: int| 0 <= i < count implies #[trigger] reduced[i] == samples[(start + i)
        % len] by {
        vstd::arithmetic::div_mod::lemma_add_mod_noop_right(i, start, len);
    }
    assert(reduced =~= feeding::played(samples, start, count));
}

/// When the host feeds a chunk, playback goes on: the device has taken as many more samples as it
/// had room for.
pub proof fn law_feeding_goes_on(
    s: streams::Streams,
    feeder: Feeder,
    fed: nat,
    read: nat,
    chunk: nat,
)
    requires
        s.wf(),
        feeder.wf(),
        plays(s, feeder, fed, read),
    ensures
        ({
            let start = feeder.cursor as int;
            let payload = seq![feeder.stream_id] + feeding::played(feeder.samples, start, chunk);
            let sent = Feeder {
                cursor: feeding::place_after(feeder.samples, start, chunk as int),
                ..feeder
            };
            let opcode = csv_streamer::HostOp::Feed.opcode();
            let answer = usb_stream::answer_to(s, opcode, payload);
            let taken = streams::accepted_count(s.hosts[feeder.stream_id as int], chunk);
            plays(
                usb_stream::streams_after(s, opcode, payload),
                feeding::acknowledged(sent, chunk, answer.payload),
                fed + taken,
                read,
            )
        }),
{
    let id = feeder.stream_id as int;
    let start = feeder.cursor as int;
    let samples = feeder.samples;
    let len = samples.len() as int;
    let taken = streams::accepted_count(s.hosts[id], chunk);
    let data = feeding::played(samples, start, chunk);
    let payload = seq![feeder.stream_id] + data;
    assert(s.hosts[id].queue.len() <= crate::device_model::HOST_STREAM_BUFFER_CAPACITY);
    assert(payload.drop_first() =~= data);
    protocol_laws::law_feed_exchange(s, feeder, chunk);
    lemma_same_place(samples, fed as int, taken);
    assert(feeding::played(samples, read as int, (fed - read) as nat) + feeding::played(
        samples,
        fed as int,
        taken,
    ) =~= feeding::played(samples, read as int, (fed + taken - read) as nat));
    protocol_laws::law_playback_continues(samples, 0, fed, taken);
}

/// When the bus master reads the register of a stream, it reads the next of the samples that were
/// fed, in their order, over and over. Where all of them were read, it reads the last one again; and
/// before the first one, the register's own value.
pub proof fn law_reading_goes_on(
    s: streams::Streams,
    tables: ModelTables,
    addr: u8,
    fallback: u8,
    feeder: Feeder,
    fed: nat,
    read: nat,
)
    requires
        tables.wf(),
        stream_laws::fit(s, tables),
        stream_laws::stream_at(tables, addr as int) == Some(feeder.stream_id as int),
        feeder.wf(),
        plays(s, feeder, fed, read),
    ensures
        ({
            let step = streams::read_step(s, tables, addr, fallback);
            let len = feeder.samples.len() as int;
            if read < fed {
                &&& step.value == feeder.samples[read as int % len]
                &&& plays(step.after, feeder, fed, read + 1)
            } else {
                &&& step.value == if read > 0 { feeder.samples[(read - 1) % len] } else { fallback }
                &&& plays(step.after, feeder, fed, read)
            }
        }),
{
    let id = feeder.stream_id as int;
    let queue = s.hosts[id].queue;
    let step = streams::read_step(s, tables, addr, fallback);
    assert(tables.csv_index_by_addr@[addr as int] < tables.csv_registers@.len());
    assert(tables.host_stream_index_by_addr@[addr as int] < tables.host_stream_addrs@.len());
    if read < fed {
        assert(queue[0] == feeder.samples[(read as int + 0) % feeder.samples.len() as int]);
        assert(queue.drop_first() =~= feeding::played(
            feeder.samples,
            read as int + 1,
            (fed - read - 1) as nat,
        ));
    }
}

/// Bytes that were read and are taken back are played again: playback is as it was before them.
pub proof fn law_taking_back_goes_back(
    s: streams::Streams,
    tables: ModelTables,
    addr: u8,
    fallback: u8,
    feeder: Feeder,
    fed: nat,
    read: nat,
)
    requires
        tables.wf(),
        stream_laws::fit(s, tables),
        plays(s, feeder, fed, read),
    ensures
        ({
            let step = streams::read_step(s, tables, addr, fallback);
            plays(streams::rolled_back(step.after, tables, step.effect), feeder, fed, read)
        }),
{
    if stream_laws::counter_wraps(s, tables, addr) {
        assert(tables.csv_index_by_addr@[addr as int] < tables.csv_registers@.len());
        assert(tables.host_stream_index_by_addr@[addr as int] < tables.host_stream_addrs@.len());
    } else {
        stream_laws::law_rollback_undoes_read(s, tables, addr, fallback);
    }
}

/// Reading any other register leaves playback as it is.
pub proof fn law_other_reads_do_not_disturb(
    s: streams::Streams,
    tables: ModelTables,
    addr: u8,
    fallback: u8,
    feeder: Feeder,
    fed: nat,
    read: nat,
)
    requires
        tables.wf(),
        stream_laws::fit(s, tables),
        stream_laws::stream_at(tables, addr as int) != Some(feeder.stream_id as int),
        plays(s, feeder, fed, read),
    ensures
        plays(streams::read_step(s, tables, addr, fallback).after, feeder, fed, read),
{
    assert(tables.csv_index_by_addr@[addr as int] < tables.csv_registers@.len());
    assert(tables.host_stream_index_by_addr@[addr as int] < tables.host_stream_addrs@.len());
}

/// Feeding any other stream leaves playback as it is.
pub proof fn law_other_feeds_do_not_disturb(
    s: streams::Streams,
    stream_id: u8,
    data: Seq<u8>,
    feeder: Feeder,
    fed: nat,
    read: nat,
)
    requires
        s.wf(),
        stream_id != feeder.stream_id,
        plays(s, feeder, fed, read),
    ensures
        plays(streams::fed(s, stream_id, data), feeder, fed, read),
{
}

}
