//! What holds of the streams over several calls.
use vstd::prelude::*;

use crate::device_model::{CsvModeDef, HOST_STREAM_BUFFER_CAPACITY};
use crate::model::ModelTables;
use crate::streams;
use crate::streams::{HostStream, ReadEffect, Streams};

verus! {

/// The samples of the register at an address, where it plays embedded ones.
pub open spec fn embedded_samples(tables: ModelTables, addr: int) -> Seq<u8> {
    let csv = tables.csv_index_by_addr@[addr];
    if csv >= 0 && tables.csv_registers@[csv as int].mode == CsvModeDef::Embedded {
        tables.csv_registers@[csv as int].data@
    } else {
        Seq::empty()
    }
}

/// The number of the host-fed stream behind an address.
pub open spec fn stream_at(tables: ModelTables, addr: int) -> Option<int> {
    let csv = tables.csv_index_by_addr@[addr];
    let id = tables.host_stream_index_by_addr@[addr];
    if csv >= 0 && tables.csv_registers@[csv as int].mode == CsvModeDef::HostStream && id >= 0 {
        Some(id as int)
    } else {
        None
    }
}

/// The streams are those of a model: each is bound to its register, and each cursor points to a
/// sample.
pub open spec fn fit(s: Streams, tables: ModelTables) -> bool {
    &&& s.wf()
    &&& s.host_count == tables.host_stream_addrs@.len()
    &&& forall|k: int|
        0 <= k < s.host_count ==> (#[trigger] s.hosts[k]).addr == tables.host_stream_addrs@[k]
    &&& forall|a: int|
        #![trigger s.cursors[a]]
        0 <= a < 256 && embedded_samples(tables, a).len() > 0 ==> s.cursors[a]
            < embedded_samples(tables, a).len()
}

/// A fresh start makes the streams of the model.
pub proof fn law_fresh_streams_fit(tables: ModelTables)
    requires
        tables.wf(),
    ensures
        fit(streams::model_streams(tables), tables),
{
}

/// Every operation keeps the streams those of the model.
pub proof fn law_streams_stay_fit(
    s: Streams,
    tables: ModelTables,
    addr: u8,
    fallback: u8,
    stream_id: u8,
    data: Seq<u8>,
)
    requires
        tables.wf(),
        fit(s, tables),
    ensures
        fit(streams::reset_streams(s), tables),
        fit(streams::read_step(s, tables, addr, fallback).after, tables),
        fit(streams::fed(s, stream_id, data), tables),
{
    assert(tables.csv_index_by_addr@[addr as int] < tables.csv_registers@.len());
    assert(tables.host_stream_index_by_addr@[addr as int] < tables.host_stream_addrs@.len());
    let len = embedded_samples(tables, addr as int).len();
    if len > 0 {
        let cursor = s.cursors[addr as int] as int % len as int;
        vstd::arithmetic::div_mod::lemma_mod_bound(cursor + 1, len as int);
    }
}

/// Taking back any effect keeps the streams those of the model.
pub proof fn law_rollback_stays_fit(s: Streams, tables: ModelTables, effect: ReadEffect)
    requires
        tables.wf(),
        fit(s, tables),
    ensures
        fit(streams::rolled_back(s, tables, effect), tables),
{
    if let ReadEffect::EmbeddedAdvance { addr } = effect {
        assert(tables.csv_index_by_addr@[addr as int] < tables.csv_registers@.len());
        let len = embedded_samples(tables, addr as int).len();
        if len > 0 {
            vstd::arithmetic::div_mod::lemma_mod_bound(s.cursors[addr as int] as int, len as int);
        }
    }
}

/// A read at an address would add an underrun to the largest number that is kept of them.
pub open spec fn counter_wraps(s: Streams, tables: ModelTables, addr: u8) -> bool {
    match stream_at(tables, addr as int) {
        Some(id) => s.hosts[id].queue.len() == 0 && s.hosts[id].underruns == u64::MAX,
        None => false,
    }
}

/// The streams with no more of each number of underruns than a report shows.
pub open spec fn as_reported(s: Streams) -> Streams {
    Streams {
        hosts: Seq::new(
            s.hosts.len(),
            |k: int|
                HostStream {
                    underruns: streams::reported_underruns(s.hosts[k].underruns) as u64,
                    ..s.hosts[k]
                },
        ),
        ..s
    }
}

/// Taking back the effect of a read gives the streams before it, with the number of underruns that
/// a report shows. It gives that number also where it was at its largest and started again from
/// zero; what no report shows of it may be less only where the largest number that is kept was
/// reached.
pub proof fn law_rollback_undoes_read(s: Streams, tables: ModelTables, addr: u8, fallback: u8)
    requires
        tables.wf(),
        fit(s, tables),
    ensures
        ({
            let step = streams::read_step(s, tables, addr, fallback);
            let back = streams::rolled_back(step.after, tables, step.effect);
            &&& as_reported(back) == as_reported(s)
            &&& !counter_wraps(s, tables, addr) ==> back == s
        }),
{
    let step = streams::read_step(s, tables, addr, fallback);
    let back = streams::rolled_back(step.after, tables, step.effect);
    assert(tables.csv_index_by_addr@[addr as int] < tables.csv_registers@.len());
    assert(tables.host_stream_index_by_addr@[addr as int] < tables.host_stream_addrs@.len());
    match step.effect {
        ReadEffect::NoEffect => {},
        ReadEffect::EmbeddedAdvance { .. } => {
            let len = embedded_samples(tables, addr as int).len();
            let cursor = s.cursors[addr as int];
            vstd::arithmetic::div_mod::lemma_small_mod(cursor as nat, len);
            if cursor + 1 == len {
                vstd::arithmetic::div_mod::lemma_mod_self_0(len as int);
                vstd::arithmetic::div_mod::lemma_small_mod(0, len);
            } else {
                vstd::arithmetic::div_mod::lemma_small_mod((cursor + 1) as nat, len);
            }
            assert(back.cursors =~= s.cursors);
        },
        ReadEffect::HostPop { stream_id, value, .. } => {
            let queue = s.hosts[stream_id as int].queue;
            assert(seq![value] + queue.drop_first() =~= queue);
            assert(back.hosts[stream_id as int] =~= s.hosts[stream_id as int]);
            assert(back.hosts =~= s.hosts);
        },
        ReadEffect::HostUnderrun { stream_id } => {
            if counter_wraps(s, tables, addr) {
                assert(as_reported(back).hosts =~= as_reported(s).hosts);
            } else {
                assert(back.hosts[stream_id as int] =~= s.hosts[stream_id as int]);
                assert(back.hosts =~= s.hosts);
            }
        },
    }
}

/// What `count` reads of one register give, and the streams after them.
pub open spec fn repeated_reads(
    s: Streams,
    tables: ModelTables,
    addr: u8,
    fallback: u8,
    count: nat,
) -> (Seq<u8>, Streams)
    decreases count,
{
    if count == 0 {
        (Seq::empty(), s)
    } else {
        let (values, after) = repeated_reads(s, tables, addr, fallback, (count - 1) as nat);
        let step = streams::read_step(after, tables, addr, fallback);
        (values.push(step.value), step.after)
    }
}

/// Embedded samples are played in order, over and over.
pub proof fn law_embedded_playback_wraps(
    s: Streams,
    tables: ModelTables,
    addr: u8,
    fallback: u8,
    count: nat,
)
    requires
        tables.wf(),
        fit(s, tables),
        embedded_samples(tables, addr as int).len() > 0,
    ensures
        ({
            let data = embedded_samples(tables, addr as int);
            let start = s.cursors[addr as int];
            let (values, after) = repeated_reads(s, tables, addr, fallback, count);
            &&& values == Seq::new(count, |i: int| data[(start + i) % data.len() as int])
            &&& after == (Streams {
                cursors: s.cursors.update(
                    addr as int,
                    ((start + count) % data.len() as int) as u32,
                ),
                ..s
            })
        }),
    decreases count,
{
    let data = embedded_samples(tables, addr as int);
    let len = data.len() as int;
    let start = s.cursors[addr as int] as int;
    let (values, after) = repeated_reads(s, tables, addr, fallback, count);
    assert(tables.csv_index_by_addr@[addr as int] < tables.csv_registers@.len());
    if count == 0 {
        vstd::arithmetic::div_mod::lemma_small_mod(start as nat, len as nat);
        assert(after =~= Streams { cursors: s.cursors.update(addr as int, (start % len) as u32), ..s });
    } else {
        law_embedded_playback_wraps(s, tables, addr, fallback, (count - 1) as nat);
        let earlier = repeated_reads(s, tables, addr, fallback, (count - 1) as nat).1;
        let at = (start + count - 1) % len;
        vstd::arithmetic::div_mod::lemma_mod_bound(start + count - 1, len);
        vstd::arithmetic::div_mod::lemma_small_mod(at as nat, len as nat);
        vstd::arithmetic::div_mod::lemma_add_mod_noop(start + count - 1, 1, len);
        vstd::arithmetic::div_mod::lemma_add_mod_noop(at, 1, len);
        assert(earlier.cursors[addr as int] == at);
        assert((at + 1) % len == (start + count) % len);
        assert(values =~= Seq::new(count, |i: int| data[(start + i) % len]));
        assert(after =~= Streams {
            cursors: s.cursors.update(addr as int, ((start + count) % len) as u32),
            ..s
        });
    }
}

/// What can be done to the streams.
pub enum StreamOp {
    Read { addr: u8, fallback: u8 },
    TakeBack { effect: ReadEffect },
    Feed { stream_id: u8, data: Seq<u8> },
    Reset,
}

/// The streams after one operation.
pub open spec fn after_op(s: Streams, tables: ModelTables, op: StreamOp) -> Streams {
    match op {
        StreamOp::Read { addr, fallback } => streams::read_step(s, tables, addr, fallback).after,
        StreamOp::TakeBack { effect } => streams::rolled_back(s, tables, effect),
        StreamOp::Feed { stream_id, data } => streams::fed(s, stream_id, data),
        StreamOp::Reset => streams::reset_streams(s),
    }
}

/// The streams after operations, one after the other.
pub open spec fn after_ops(s: Streams, tables: ModelTables, ops: Seq<StreamOp>) -> Streams
    decreases ops.len(),
{
    if ops.len() == 0 {
        s
    } else {
        after_op(after_ops(s, tables, ops.drop_last()), tables, ops.last())
    }
}

/// The place in the playback of the embedded samples at an address after operations: a read there
/// goes one on, the effect of such a read that is taken back goes one back, a reset goes to the
/// first sample, and nothing else moves it.
pub open spec fn place_after_ops(start: int, ops: Seq<StreamOp>, addr: u8) -> int
    decreases ops.len(),
{
    if ops.len() == 0 {
        start
    } else {
        let place = place_after_ops(start, ops.drop_last(), addr);
        match ops.last() {
            StreamOp::Read { addr: read, .. } => if read == addr { place + 1 } else { place },
            StreamOp::TakeBack { effect } => if effect == (ReadEffect::EmbeddedAdvance { addr }) {
                place - 1
            } else {
                place
            },
            StreamOp::Feed { .. } => place,
            StreamOp::Reset => 0,
        }
    }
}

/// Embedded samples are played in order, over and over, whatever else is done to the streams in
/// between: after any operations the next read gives the sample that the reads at its own address
/// have come to.
pub proof fn law_embedded_playback_goes_on(
    s: Streams,
    tables: ModelTables,
    addr: u8,
    fallback: u8,
    ops: Seq<StreamOp>,
)
    requires
        tables.wf(),
        fit(s, tables),
        embedded_samples(tables, addr as int).len() > 0,
    ensures
        ({
            let data = embedded_samples(tables, addr as int);
            let place = place_after_ops(s.cursors[addr as int] as int, ops, addr);
            let after = after_ops(s, tables, ops);
            &&& fit(after, tables)
            &&& after.cursors[addr as int] == place % data.len() as int
            &&& streams::read_step(after, tables, addr, fallback).value == data[place
                % data.len() as int]
        }),
    decreases ops.len(),
{
    let data = embedded_samples(tables, addr as int);
    let len = data.len() as int;
    let start = s.cursors[addr as int] as int;
    let place = place_after_ops(start, ops, addr);
    let after = after_ops(s, tables, ops);
    assert(tables.csv_index_by_addr@[addr as int] < tables.csv_registers@.len());
    if ops.len() == 0 {
        vstd::arithmetic::div_mod::lemma_small_mod(start as nat, len as nat);
    } else {
        law_embedded_playback_goes_on(s, tables, addr, fallback, ops.drop_last());
        let earlier = after_ops(s, tables, ops.drop_last());
        let before = place_after_ops(start, ops.drop_last(), addr);
        let cursor = earlier.cursors[addr as int] as int;
        vstd::arithmetic::div_mod::lemma_small_mod(cursor as nat, len as nat);
        match ops.last() {
            StreamOp::Read { addr: read, fallback: own } => {
                law_streams_stay_fit(earlier, tables, read, own, 0, Seq::empty());
                vstd::arithmetic::div_mod::lemma_add_mod_noop_right(1, before, len);
                assert(tables.csv_index_by_addr@[read as int] < tables.csv_registers@.len());
            },
            StreamOp::TakeBack { effect } => {
                law_rollback_stays_fit(earlier, tables, effect);
                lemma_one_back(before, len);
                if let ReadEffect::EmbeddedAdvance { addr: read } = effect {
                    assert(tables.csv_index_by_addr@[read as int] < tables.csv_registers@.len());
                }
            },
            StreamOp::Feed { stream_id, data: bytes } => {
                law_streams_stay_fit(earlier, tables, 0, 0, stream_id, bytes);
            },
            StreamOp::Reset => {
                law_streams_stay_fit(earlier, tables, 0, 0, 0, Seq::empty());
                vstd::arithmetic::div_mod::lemma_small_mod(0, len as nat);
            },
        }
    }
    vstd::arithmetic::div_mod::lemma_mod_bound(place, len);
    vstd::arithmetic::div_mod::lemma_small_mod((place % len) as nat, len as nat);
}

/// One place back in a circle.
proof fn lemma_one_back(place: int, len: int)
    requires
        len > 0,
    ensures
        (place - 1) % len == if place % len == 0 {
            len - 1
        } else {
            place % len - 1
        },
{
    vstd::arithmetic::div_mod::lemma_mod_bound(place, len);
    let at = place % len;
    if at == 0 {
        vstd::arithmetic::div_mod::lemma_mod_add_multiples_vanish(place - 1, len);
        vstd::arithmetic::div_mod::lemma_add_mod_noop_right(len - 1, place, len);
        vstd::arithmetic::div_mod::lemma_small_mod((len - 1) as nat, len as nat);
    } else {
        vstd::arithmetic::div_mod::lemma_add_mod_noop_right(-1, place, len);
        vstd::arithmetic::div_mod::lemma_small_mod((at - 1) as nat, len as nat);
    }
}

/// The stream after some of its bytes were read.
pub open spec fn after_reads(stream: HostStream, count: nat) -> HostStream {
    HostStream {
        queue: stream.queue.skip(count as int),
        has_last: stream.has_last || count > 0,
        last_value: if count > 0 { stream.queue[count - 1] } else { stream.last_value },
        ..stream
    }
}

/// Reads of a host-fed register give the bytes of its queue, oldest first.
pub proof fn law_queued_bytes_are_read_in_order(
    s: Streams,
    tables: ModelTables,
    addr: u8,
    fallback: u8,
    id: int,
    count: nat,
)
    requires
        tables.wf(),
        fit(s, tables),
        stream_at(tables, addr as int) == Some(id),
        count <= s.hosts[id].queue.len(),
    ensures
        ({
            let (values, after) = repeated_reads(s, tables, addr, fallback, count);
            &&& values == s.hosts[id].queue.take(count as int)
            &&& after == (Streams {
                hosts: s.hosts.update(id, after_reads(s.hosts[id], count)),
                ..s
            })
        }),
    decreases count,
{
    let (values, after) = repeated_reads(s, tables, addr, fallback, count);
    let queue = s.hosts[id].queue;
    assert(tables.csv_index_by_addr@[addr as int] < tables.csv_registers@.len());
    assert(tables.host_stream_index_by_addr@[addr as int] < tables.host_stream_addrs@.len());
    if count == 0 {
        assert(values =~= queue.take(0));
        assert(after_reads(s.hosts[id], 0) =~= s.hosts[id]);
        assert(s.hosts.update(id, s.hosts[id]) =~= s.hosts);
    } else {
        law_queued_bytes_are_read_in_order(s, tables, addr, fallback, id, (count - 1) as nat);
        let earlier = repeated_reads(s, tables, addr, fallback, (count - 1) as nat).1;
        assert(values =~= queue.take(count as int));
        assert(earlier.hosts[id].queue.drop_first() =~= queue.skip(count as int));
        assert(after.hosts[id] =~= after_reads(s.hosts[id], count));
        assert(after.hosts =~= s.hosts.update(id, after_reads(s.hosts[id], count)));
    }
}

/// What was fed to a stream is read from its register after what was queued before, as far as the
/// device took it; and when all is read, the last byte is read again.
pub proof fn law_fed_bytes_are_read(
    s: Streams,
    tables: ModelTables,
    addr: u8,
    fallback: u8,
    id: int,
    data: Seq<u8>,
)
    requires
        tables.wf(),
        fit(s, tables),
        stream_at(tables, addr as int) == Some(id),
    ensures
        ({
            let accepted = streams::accepted_count(s.hosts[id], data.len());
            let bytes = s.hosts[id].queue + data.take(accepted as int);
            let (values, after) = repeated_reads(
                streams::fed(s, id as u8, data),
                tables,
                addr,
                fallback,
                bytes.len(),
            );
            &&& streams::feed_result(s, id as u8, data) matches Ok(result)
            &&& result.accepted == accepted
            &&& values == bytes
            &&& bytes.len() > 0 ==> streams::read_step(after, tables, addr, fallback).value
                == bytes.last()
        }),
{
    let accepted = streams::accepted_count(s.hosts[id], data.len());
    let bytes = s.hosts[id].queue + data.take(accepted as int);
    let now = streams::fed(s, id as u8, data);
    assert(tables.csv_index_by_addr@[addr as int] < tables.csv_registers@.len());
    assert(tables.host_stream_index_by_addr@[addr as int] < tables.host_stream_addrs@.len());
    law_streams_stay_fit(s, tables, addr, fallback, id as u8, data);
    assert(s.hosts[id].queue.len() <= HOST_STREAM_BUFFER_CAPACITY);
    assert(now.hosts[id].queue == bytes);
    law_queued_bytes_are_read_in_order(now, tables, addr, fallback, id, bytes.len());
    assert(bytes.take(bytes.len() as int) =~= bytes);
}

}
