//! The host's side of the stream channel: it learns which streams the device has and keeps them
//! filled with samples.
use std::collections::BTreeMap;

use vstd::prelude::*;

use crate::csv_specs;
use crate::host_sources;
use crate::host_sources::HostSource;
use crate::ordering;
use crate::protocol;
use crate::protocol::STREAM_PROTO_VERSION;
use crate::text;

verus! {

/// How many samples go to the device at a time.
pub const FEED_CHUNK_BYTES: usize = 48;

/// The part of a buffer that is filled before playback starts.
pub const PREFILL_NUMERATOR: usize = 3;

pub const PREFILL_DENOMINATOR: usize = 4;

/// The part of a buffer that is kept filled.
pub const LOW_DATA_MARK_NUMERATOR: usize = 1;

pub const LOW_DATA_MARK_DENOMINATOR: usize = 2;

/// What the host asks for.
#[derive(Copy, Clone, Debug, PartialEq, Eq, Structural)]
pub enum HostOp {
    HelloReq,
    Feed,
}

/// What the device answers.
#[derive(Copy, Clone, Debug, PartialEq, Eq, Structural)]
pub enum DeviceOp {
    HelloResp,
    FeedAck,
    Error,
}

impl HostOp {
    /// The opcode on the wire.
    pub open spec fn opcode(self) -> u8 {
        match self {
            HostOp::HelloReq => 0x01,
            HostOp::Feed => 0x02,
        }
    }

    /// The opcode on the wire.
    pub fn code(self) -> (code: u8)
        ensures
            code == self.opcode(),
    {
        match self {
            HostOp::HelloReq => 0x01,
            HostOp::Feed => 0x02,
        }
    }
}

impl DeviceOp {
    /// The answer with an opcode.
    pub open spec fn with_opcode(value: u8) -> Result<DeviceOp, u8> {
        if value == 0x81 {
            Ok(DeviceOp::HelloResp)
        } else if value == 0x82 {
            Ok(DeviceOp::FeedAck)
        } else if value == 0xFF {
            Ok(DeviceOp::Error)
        } else {
            Err(value)
        }
    }

    /// The answer with an opcode, or the opcode where the host knows of none.
    pub fn try_from(value: u8) -> (op: Result<DeviceOp, u8>)
        ensures
            op == DeviceOp::with_opcode(value),
    {
        match value {
            0x81 => Ok(DeviceOp::HelloResp),
            0x82 => Ok(DeviceOp::FeedAck),
            0xFF => Ok(DeviceOp::Error),
            _ => Err(value),
        }
    }
}

/// What the device says of a stream.
#[derive(Copy, Clone, Debug, PartialEq, Eq, Structural)]
pub struct DeviceStreamDescriptor {
    pub stream_id: u8,
    pub addr: u8,
    pub capacity: usize,
}

/// Why what the device says of its streams cannot be used.
#[derive(Copy, Clone, Debug, PartialEq, Eq, Structural)]
pub enum HelloError {
    TooShort,
    VersionMismatch { device: u8 },
    LengthMismatch { got: usize, expected: usize },
    ZeroCapacity { stream_id: u8 },
}

impl HelloError {
    /// The message for a reader.
    pub open spec fn message_text(self) -> Seq<char> {
        match self {
            HelloError::TooShort => "HELLO_RESP payload too short"@,
            HelloError::VersionMismatch { device } => "protocol version mismatch: device="@
                + text::dec_text(device as nat) + " host="@ + text::dec_text(
                STREAM_PROTO_VERSION as nat,
            ),
            HelloError::LengthMismatch { got, expected } => "HELLO_RESP length mismatch: got "@
                + text::dec_text(got as nat) + ", expected "@ + text::dec_text(expected as nat),
            HelloError::ZeroCapacity { stream_id } => "stream "@ + text::dec_text(stream_id as nat)
                + " has zero capacity"@,
        }
    }

    /// The message for a reader.
    pub fn message(&self) -> (out: String)
        ensures
            out@ == self.message_text(),
    {
        let mut out = String::new();
        match *self {
            HelloError::TooShort => {
                out.append("HELLO_RESP payload too short");
            },
            HelloError::VersionMismatch { device } => {
                out.append("protocol version mismatch: device=");
                text::push_dec(&mut out, device as u64);
                out.append(" host=");
                text::push_dec(&mut out, STREAM_PROTO_VERSION as u64);
            },
            HelloError::LengthMismatch { got, expected } => {
                out.append("HELLO_RESP length mismatch: got ");
                text::push_dec(&mut out, got as u64);
                out.append(", expected ");
                text::push_dec(&mut out, expected as u64);
            },
            HelloError::ZeroCapacity { stream_id } => {
                out.append("stream ");
                text::push_dec(&mut out, stream_id as u64);
                out.append(" has zero capacity");
            },
        }
        assert(out@ =~= self.message_text());
        out
    }
}

/// The descriptor number `k` in what the device says.
pub open spec fn descriptor_at(payload: Seq<u8>, k: int) -> DeviceStreamDescriptor {
    DeviceStreamDescriptor {
        stream_id: payload[2 + 4 * k],
        addr: payload[3 + 4 * k],
        capacity: protocol::word(payload[4 + 4 * k], payload[5 + 4 * k]) as usize,
    }
}

/// The first `n` descriptors; the first one without room for a byte decides otherwise.
pub open spec fn descriptors_in(payload: Seq<u8>, n: nat) -> Result<
    Seq<DeviceStreamDescriptor>,
    HelloError,
>
    decreases n,
{
    if n == 0 {
        Ok(Seq::empty())
    } else {
        match descriptors_in(payload, (n - 1) as nat) {
            Ok(found) => {
                let next = descriptor_at(payload, n - 1);
                if next.capacity == 0 {
                    Err(HelloError::ZeroCapacity { stream_id: next.stream_id })
                } else {
                    Ok(found.push(next))
                }
            },
            Err(error) => Err(error),
        }
    }
}

/// The streams of the device by what it says of them.
pub open spec fn hello_streams(payload: Seq<u8>) -> Result<
    Seq<DeviceStreamDescriptor>,
    HelloError,
> {
    if payload.len() < 2 {
        Err(HelloError::TooShort)
    } else if payload[0] != STREAM_PROTO_VERSION {
        Err(HelloError::VersionMismatch { device: payload[0] })
    } else if payload.len() != 2 + 4 * payload[1] {
        Err(
            HelloError::LengthMismatch {
                got: payload.len() as usize,
                expected: (2 + 4 * payload[1]) as usize,
            },
        )
    } else {
        descriptors_in(payload, payload[1] as nat)
    }
}

proof fn lemma_descriptor_failure_stands(payload: Seq<u8>, n: nat, all: nat)
    requires
        n <= all,
        descriptors_in(payload, n) is Err,
    ensures
        descriptors_in(payload, all) == descriptors_in(payload, n),
    decreases all,
{
    if n < all {
        lemma_descriptor_failure_stands(payload, n, (all - 1) as nat);
    }
}

/// Reads what the device says of its streams: the version of the protocol, the number of streams,
/// and of each stream its number, its register and its capacity.
pub fn negotiate_stream_descriptors(payload: &[u8]) -> (streams: Result<
    Vec<DeviceStreamDescriptor>,
    HelloError,
>)
    ensures
        match streams {
            Ok(found) => hello_streams(payload@) == Ok::<
                Seq<DeviceStreamDescriptor>,
                HelloError,
            >(found@),
            Err(error) => hello_streams(payload@) == Err::<
                Seq<DeviceStreamDescriptor>,
                HelloError,
            >(error),
        },
{
    if payload.len() < 2 {
        return Err(HelloError::TooShort);
    }
    if payload[0] != STREAM_PROTO_VERSION {
        return Err(HelloError::VersionMismatch { device: payload[0] });
    }
    let count: usize = payload[1] as usize;
    let expected: usize = 2 + count * 4;
    if payload.len() != expected {
        return Err(HelloError::LengthMismatch { got: payload.len(), expected });
    }
    let mut out: Vec<DeviceStreamDescriptor> = Vec::new();
    let mut k: usize = 0;
    while k < count
        invariant
            k <= count <= 255,
            payload@.len() == 2 + 4 * count,
            payload@[0] == STREAM_PROTO_VERSION,
            payload@[1] == count,
            descriptors_in(payload@, k as nat) == Ok::<Seq<DeviceStreamDescriptor>, HelloError>(
                out@,
            ),
        decreases count - k,
    {
        let at: usize = 2 + 4 * k;
        let stream_id: u8 = payload[at];
        let addr: u8 = payload[at + 1];
        let capacity: usize = protocol::word_of(payload[at + 2], payload[at + 3]);
        if capacity == 0 {
            proof {
                lemma_descriptor_failure_stands(payload@, k as nat + 1, count as nat);
            }
            return Err(HelloError::ZeroCapacity { stream_id });
        }
        out.push(DeviceStreamDescriptor { stream_id, addr, capacity });
        k = k + 1;
    }
    Ok(out)
}

/// A stream of the device that the host feeds.
#[derive(Debug)]
pub struct StreamState {
    pub stream_id: u8,
    pub addr: u8,
    /// How many bytes the device's buffer holds.
    pub capacity: usize,
    /// How many bytes it can take, by what the device said last.
    pub free: usize,
    pub samples: Vec<u8>,
    /// The place of the sample that is sent next.
    pub cursor: usize,
    pub feed_calls: u64,
    pub probe_calls: u64,
    pub accepted_total: u64,
}

/// A [`StreamState`] with its samples as a sequence.
#[verifier::ext_equal]
pub struct Feeder {
    pub stream_id: u8,
    pub addr: u8,
    pub capacity: nat,
    pub free: nat,
    pub samples: Seq<u8>,
    pub cursor: nat,
    pub feed_calls: u64,
    pub probe_calls: u64,
    pub accepted_total: u64,
}

impl View for StreamState {
    type V = Feeder;

    open spec fn view(&self) -> Feeder {
        Feeder {
            stream_id: self.stream_id,
            addr: self.addr,
            capacity: self.capacity as nat,
            free: self.free as nat,
            samples: self.samples@,
            cursor: self.cursor as nat,
            feed_calls: self.feed_calls,
            probe_calls: self.probe_calls,
            accepted_total: self.accepted_total,
        }
    }
}

impl Feeder {
    /// There is a next sample, and the capacity is one that the device can state.
    pub open spec fn wf(self) -> bool {
        self.cursor < self.samples.len() && self.capacity <= u16::MAX
    }

    /// How many bytes are in the device's buffer.
    pub open spec fn fill(self) -> nat {
        if self.free < self.capacity { (self.capacity - self.free) as nat } else { 0 }
    }
}

/// The views of some streams.
pub open spec fn stream_views(streams: Seq<StreamState>) -> Seq<Feeder> {
    streams.map_values(|s: StreamState| s@)
}

/// Why the streams of the device do not go with the model.
#[derive(Copy, Clone, Debug, PartialEq, Eq, Structural)]
pub enum AttachError {
    DuplicateDescriptor { addr: u8 },
    CountMismatch { sources: usize, reported: usize },
    MissingDescriptor { addr: u8 },
}

impl AttachError {
    /// The message for a reader.
    pub open spec fn message_text(self) -> Seq<char> {
        match self {
            AttachError::DuplicateDescriptor { addr } => "duplicate stream descriptor for addr "@
                + csv_specs::addr_text(addr as u16),
            AttachError::CountMismatch { sources, reported } => "model has "@ + text::dec_text(
                sources as nat,
            ) + " host_stream registers but firmware reports "@ + text::dec_text(reported as nat),
            AttachError::MissingDescriptor { addr } =>
                "firmware missing stream descriptor for register "@ + csv_specs::addr_text(
                addr as u16,
            ),
        }
    }

    /// The message for a reader.
    pub fn message(&self) -> (out: String)
        ensures
            out@ == self.message_text(),
    {
        let mut out = String::new();
        match *self {
            AttachError::DuplicateDescriptor { addr } => {
                out.append("duplicate stream descriptor for addr ");
                csv_specs::push_addr(&mut out, addr as u16);
            },
            AttachError::CountMismatch { sources, reported } => {
                out.append("model has ");
                text::push_dec(&mut out, sources as u64);
                out.append(" host_stream registers but firmware reports ");
                text::push_dec(&mut out, reported as u64);
            },
            AttachError::MissingDescriptor { addr } => {
                out.append("firmware missing stream descriptor for register ");
                csv_specs::push_addr(&mut out, addr as u16);
            },
        }
        assert(out@ =~= self.message_text());
        out
    }
}

/// The first of some descriptors that is for a register.
pub open spec fn descriptor_for(descriptors: Seq<DeviceStreamDescriptor>, addr: u8) -> Option<
    DeviceStreamDescriptor,
>
    decreases descriptors.len(),
{
    if descriptors.len() == 0 {
        None
    } else {
        match descriptor_for(descriptors.drop_last(), addr) {
            Some(found) => Some(found),
            None => if descriptors.last().addr == addr {
                Some(descriptors.last())
            } else {
                None
            },
        }
    }
}

/// The register of the first descriptor that comes behind another one for the same register.
pub open spec fn repeated_addr(descriptors: Seq<DeviceStreamDescriptor>) -> Option<u8>
    decreases descriptors.len(),
{
    if descriptors.len() == 0 {
        None
    } else {
        match repeated_addr(descriptors.drop_last()) {
            Some(addr) => Some(addr),
            None => match descriptor_for(descriptors.drop_last(), descriptors.last().addr) {
                Some(found) => Some(found.addr),
                None => None,
            },
        }
    }
}

/// A stream before anything was fed to it.
pub open spec fn fresh_feeder(
    source: host_sources::Source,
    descriptor: DeviceStreamDescriptor,
) -> Feeder {
    Feeder {
        stream_id: descriptor.stream_id,
        addr: source.addr,
        capacity: descriptor.capacity as nat,
        free: descriptor.capacity as nat,
        samples: source.samples,
        cursor: 0,
        feed_calls: 0,
        probe_calls: 0,
        accepted_total: 0,
    }
}

/// The streams for the first `n` sources; the first source without a descriptor decides otherwise.
pub open spec fn matched_streams(
    sources: Seq<host_sources::Source>,
    descriptors: Seq<DeviceStreamDescriptor>,
    n: nat,
) -> Result<Seq<Feeder>, AttachError>
    decreases n,
{
    if n == 0 {
        Ok(Seq::empty())
    } else {
        match matched_streams(sources, descriptors, (n - 1) as nat) {
            Ok(found) => match descriptor_for(descriptors, sources[n - 1].addr) {
                Some(descriptor) => Ok(found.push(fresh_feeder(sources[n - 1], descriptor))),
                None => Err(AttachError::MissingDescriptor { addr: sources[n - 1].addr }),
            },
            Err(error) => Err(error),
        }
    }
}

/// What streams are sorted by.
pub open spec fn stream_key() -> spec_fn(Feeder) -> int {
    |s: Feeder| s.stream_id as int
}

/// The streams of the device with the samples for each, by stream number.
pub open spec fn attached_streams(
    sources: Seq<host_sources::Source>,
    descriptors: Seq<DeviceStreamDescriptor>,
) -> Result<Seq<Feeder>, AttachError> {
    match repeated_addr(descriptors) {
        Some(addr) => Err(AttachError::DuplicateDescriptor { addr }),
        None => if descriptors.len() != sources.len() {
            Err(
                AttachError::CountMismatch {
                    sources: sources.len() as usize,
                    reported: descriptors.len() as usize,
                },
            )
        } else {
            match matched_streams(sources, descriptors, sources.len()) {
                Ok(found) => Ok(ordering::sort_by(found, stream_key())),
                Err(error) => Err(error),
            }
        },
    }
}

proof fn lemma_match_failure_stands(
    sources: Seq<host_sources::Source>,
    descriptors: Seq<DeviceStreamDescriptor>,
    n: nat,
    all: nat,
)
    requires
        n <= all,
        matched_streams(sources, descriptors, n) is Err,
    ensures
        matched_streams(sources, descriptors, all) == matched_streams(sources, descriptors, n),
    decreases all,
{
    if n < all {
        lemma_match_failure_stands(sources, descriptors, n, (all - 1) as nat);
    }
}

proof fn lemma_found_is_for(descriptors: Seq<DeviceStreamDescriptor>, addr: u8)
    ensures
        descriptor_for(descriptors, addr) matches Some(found) ==> found.addr == addr,
    decreases descriptors.len(),
{
    if descriptors.len() > 0 {
        lemma_found_is_for(descriptors.drop_last(), addr);
    }
}

proof fn lemma_repetition_stands(descriptors: Seq<DeviceStreamDescriptor>, n: int)
    requires
        0 <= n <= descriptors.len(),
        repeated_addr(descriptors.take(n)) is Some,
    ensures
        repeated_addr(descriptors) == repeated_addr(descriptors.take(n)),
    decreases descriptors.len() - n,
{
    if n < descriptors.len() {
        assert(descriptors.take(n + 1).drop_last() =~= descriptors.take(n));
        lemma_repetition_stands(descriptors, n + 1);
    } else {
        assert(descriptors.take(n) =~= descriptors);
    }
}

/// A map holds each of some descriptors under the register that it is for, the first where there
/// are more.
spec fn maps_descriptors(
    by_addr: Map<u8, DeviceStreamDescriptor>,
    descriptors: Seq<DeviceStreamDescriptor>,
) -> bool {
    forall|addr: u8|
        #[trigger] descriptor_for(descriptors, addr) == if by_addr.contains_key(addr) {
            Some(by_addr[addr])
        } else {
            None
        }
}

/// Inserts a stream behind those with no larger number.
fn insert_stream(streams: &mut Vec<StreamState>, stream: StreamState)
    ensures
        stream_views(final(streams)@) == ordering::insert_by(
            stream_views(old(streams)@),
            stream@,
            stream_key(),
        ),
{
    let ghost views = stream_views(streams@);
    let mut at: usize = streams.len();
    while at > 0 && streams[at - 1].stream_id > stream.stream_id
        invariant
            at <= streams.len(),
            views == stream_views(streams@),
            forall|i: int|
                at <= i < views.len() ==> stream_key()(stream@) < stream_key()(#[trigger] views[i]),
        decreases at,
    {
        assert(views[at - 1] == streams@[at - 1]@);
        at = at - 1;
    }
    proof {
        if at > 0 {
            assert(views[at - 1] == streams@[at - 1]@);
        }
        ordering::lemma_insert_at(views, stream@, stream_key(), at as int);
    }
    streams.insert(at, stream);
    assert(stream_views(streams@) =~= views.insert(at as int, stream@));
}

/// Brings the streams of the device together with the samples for them.
pub fn attach_streams(
    sources: &Vec<HostSource>,
    descriptors: &Vec<DeviceStreamDescriptor>,
) -> (attached: Result<Vec<StreamState>, AttachError>)
    ensures
        match attached {
            Ok(streams) => attached_streams(host_sources::source_views(sources@), descriptors@)
                == Ok::<Seq<Feeder>, AttachError>(stream_views(streams@)),
            Err(error) => attached_streams(host_sources::source_views(sources@), descriptors@)
                == Err::<Seq<Feeder>, AttachError>(error),
        },
{
    let ghost views = host_sources::source_views(sources@);
    let mut by_addr: BTreeMap<u8, DeviceStreamDescriptor> = BTreeMap::new();
    let mut k: usize = 0;
    while k < descriptors.len()
        invariant
            k <= descriptors@.len(),
            views == host_sources::source_views(sources@),
            repeated_addr(descriptors@.take(k as int)) is None,
            maps_descriptors(by_addr@, descriptors@.take(k as int)),
            by_addr@.dom().finite(),
            by_addr@.len() == k,
        decreases descriptors@.len() - k,
    {
        assert(descriptors@.take(k + 1).drop_last() =~= descriptors@.take(k as int));
        let descriptor = descriptors[k];
        if by_addr.insert(descriptor.addr, descriptor).is_some() {
            proof {
                lemma_found_is_for(descriptors@.take(k as int), descriptor.addr);
                lemma_repetition_stands(descriptors@, k + 1);
            }
            return Err(AttachError::DuplicateDescriptor { addr: descriptor.addr });
        }
        assert forall|addr: u8|
            #[trigger] descriptor_for(descriptors@.take(k + 1), addr) == if by_addr@.contains_key(
                addr,
            ) {
                Some(by_addr@[addr])
            } else {
                None
            } by {
            let before = descriptors@.take(k as int);
            assert(descriptors@.take(k + 1) =~= before.push(descriptor));
            assert(descriptor_for(before.push(descriptor).drop_last(), addr) == descriptor_for(
                before,
                addr,
            ));
        }
        k = k + 1;
    }
    assert(descriptors@.take(k as int) =~= descriptors@);
    if by_addr.len() != sources.len() {
        return Err(
            AttachError::CountMismatch { sources: sources.len(), reported: by_addr.len() },
        );
    }
    let mut streams: Vec<StreamState> = Vec::new();
    let ghost mut found: Seq<Feeder> = Seq::empty();
    let mut i: usize = 0;
    assert(stream_views(streams@) =~= ordering::sort_by(found, stream_key()));
    while i < sources.len()
        invariant
            i <= sources@.len(),
            views == host_sources::source_views(sources@),
            repeated_addr(descriptors@) is None,
            maps_descriptors(by_addr@, descriptors@),
            descriptors@.len() == sources@.len(),
            matched_streams(views, descriptors@, i as nat) == Ok::<Seq<Feeder>, AttachError>(found),
            stream_views(streams@) == ordering::sort_by(found, stream_key()),
        decreases sources@.len() - i,
    {
        let source = &sources[i];
        assert(views[i as int] == source@);
        match by_addr.get(&source.addr) {
            Some(descriptor) => {
                let samples = source.samples.clone();
                assert(samples@ =~= source.samples@);
                let stream = StreamState {
                    stream_id: descriptor.stream_id,
                    addr: source.addr,
                    capacity: descriptor.capacity,
                    free: descriptor.capacity,
                    samples,
                    cursor: 0,
                    feed_calls: 0,
                    probe_calls: 0,
                    accepted_total: 0,
                };
                proof {
                    let before = found;
                    found = found.push(stream@);
                    assert(found.drop_last() =~= before);
                }
                insert_stream(&mut streams, stream);
            },
            None => {
                proof {
                    lemma_match_failure_stands(views, descriptors@, i as nat + 1, views.len());
                }
                return Err(AttachError::MissingDescriptor { addr: source.addr });
            },
        }
        i = i + 1;
    }
    Ok(streams)
}

}
