//! The order in which the host fills, probes and refills its streams.
use vstd::prelude::*;

use crate::csv_streamer;
use crate::csv_streamer::{Feeder, StreamState};
use crate::feeding;
use crate::feeding::{feed_acknowledged, feed_request, prefill_chunk, refill_chunk, FeedFault};
use crate::host_link::{rest_ms, Schedule, DEBUG_REPORT_INTERVAL_NS, PROBE_INTERVAL_NS};

verus! {

/// Where playback is.
#[derive(Copy, Clone, Debug, PartialEq, Eq, Structural)]
pub enum Stage {
    /// Fill the buffer of a stream before playback starts.
    Prefill { index: usize },
    /// Wait for the answer to a chunk that was sent before playback started.
    AwaitPrefill { index: usize },
    /// Begin a round over the streams.
    RoundStart,
    /// It is the turn of a stream.
    Turn { index: usize, probed: bool },
    /// Wait for the answer to a probe.
    AwaitProbe { index: usize },
    /// Wait for the answer to a chunk.
    AwaitRefill { index: usize },
    /// A round has ended.
    RoundEnd,
}

/// What is to be done next.
#[derive(Debug)]
pub enum PlayerAction {
    /// Nothing but the next step.
    Proceed,
    /// Send a payload that feeds a stream, and wait for the answer.
    Feed { payload: Vec<u8> },
    /// Tell a reader that the streams are attached.
    Announce,
    /// Rest for some milliseconds.
    Rest { ms: u64 },
    /// Tell a reader how the streams go.
    Report,
}

/// A [`PlayerAction`] with its payload as a sequence.
pub enum Act {
    Proceed,
    Feed { payload: Seq<u8> },
    Announce,
    Rest { ms: u64 },
    Report,
}

impl View for PlayerAction {
    type V = Act;

    open spec fn view(&self) -> Act {
        match self {
            PlayerAction::Proceed => Act::Proceed,
            PlayerAction::Feed { payload } => Act::Feed { payload: payload@ },
            PlayerAction::Announce => Act::Announce,
            PlayerAction::Rest { ms } => Act::Rest { ms: *ms },
            PlayerAction::Report => Act::Report,
        }
    }
}

/// What came of a chunk.
#[derive(Copy, Clone, Debug, PartialEq, Eq, Structural)]
pub struct Fed {
    /// The place of the stream.
    pub index: usize,
    /// How many samples were sent.
    pub sent: usize,
    /// How many the device took.
    pub accepted: usize,
}

/// The streams and where playback is.
pub struct Player {
    streams: Vec<StreamState>,
    stage: Stage,
    chunk: usize,
    probe: Schedule,
    report: Schedule,
    probe_due: bool,
    fed_any: bool,
}

/// A [`Player`] with its streams as a sequence.
#[verifier::ext_equal]
pub struct Playback {
    pub feeders: Seq<Feeder>,
    pub stage: Stage,
    /// How many samples were sent last.
    pub chunk: nat,
    /// When the device is asked for its free space next, in nanoseconds.
    pub probe_at: nat,
    /// When a report is due next, in nanoseconds.
    pub report_at: nat,
    /// Whether the device is asked for its free space in this round.
    pub probe_due: bool,
    /// Whether the device took a sample in this round.
    pub fed_any: bool,
}

impl View for Player {
    type V = Playback;

    closed spec fn view(&self) -> Playback {
        Playback {
            feeders: csv_streamer::stream_views(self.streams@),
            stage: self.stage,
            chunk: self.chunk as nat,
            probe_at: self.probe.next(),
            report_at: self.report.next(),
            probe_due: self.probe_due,
            fed_any: self.fed_any,
        }
    }
}

/// The stream whose answer is waited for.
pub open spec fn awaited(stage: Stage) -> Option<int> {
    match stage {
        Stage::AwaitPrefill { index } => Some(index as int),
        Stage::AwaitProbe { index } => Some(index as int),
        Stage::AwaitRefill { index } => Some(index as int),
        _ => None,
    }
}

impl Playback {
    /// Every stream has samples, and the one whose answer is waited for is there.
    pub open spec fn wf(self) -> bool {
        &&& forall|k: int| 0 <= k < self.feeders.len() ==> (#[trigger] self.feeders[k]).wf()
        &&& awaited(self.stage) matches Some(index) ==> index < self.feeders.len()
    }
}

/// The stream that is to be filled before playback starts.
pub open spec fn wants_prefill(f: Feeder) -> bool {
    f.fill() < feeding::prefill_target(f.capacity) && f.free > 0
}

/// The stream that is to be fed during playback.
pub open spec fn wants_refill(f: Feeder) -> bool {
    f.fill() <= feeding::low_data_mark(f.capacity) && f.free > 0
}

/// A stream after a chunk of its samples was sent.
pub open spec fn after_sending(f: Feeder, chunk: nat) -> Feeder {
    Feeder {
        cursor: feeding::place_after(f.samples, f.cursor as int, chunk as int),
        ..f
    }
}

/// The payload that feeds a chunk to a stream.
pub open spec fn feed_payload(f: Feeder, chunk: nat) -> Seq<u8> {
    seq![f.stream_id] + feeding::played(f.samples, f.cursor as int, chunk)
}

/// Playback after a chunk for a stream was sent.
pub open spec fn sending(p: Playback, index: int, chunk: nat, stage: Stage) -> Playback {
    Playback {
        feeders: p.feeders.update(index, after_sending(p.feeders[index], chunk)),
        stage,
        chunk,
        ..p
    }
}

/// The first time of a schedule that is still to come.
pub open spec fn is_next_turn(next: nat, before: nat, interval: nat, now: nat) -> bool {
    &&& now < next <= now + interval
    &&& (next - before) % (interval as int) == 0
}

/// A step at a time `now` leads from one state to another and asks for an action:
///
/// - before playback, each stream in turn is fed chunk by chunk until it is full enough;
/// - then the streams are announced, the times of probes and reports are set, and rounds begin;
/// - in a round each stream in turn is probed, where that is due, and fed where it is too empty;
/// - after a round there is a rest, and a report where that is due.
pub open spec fn is_step(p: Playback, now: nat, act: Act, after: Playback) -> bool {
    match p.stage {
        Stage::Prefill { index } => if index >= p.feeders.len() {
            &&& act == Act::Announce
            &&& after == (Playback {
                stage: Stage::RoundStart,
                probe_at: now,
                report_at: now + DEBUG_REPORT_INTERVAL_NS as nat,
                ..p
            })
        } else if wants_prefill(p.feeders[index as int]) {
            let f = p.feeders[index as int];
            let chunk = feeding::chunk_for(f.free);
            &&& act == Act::Feed { payload: feed_payload(f, chunk) }
            &&& after == sending(p, index as int, chunk, Stage::AwaitPrefill { index })
        } else {
            &&& act == Act::Proceed
            &&& after == (Playback {
                stage: Stage::Prefill { index: (index + 1) as usize },
                ..p
            })
        },
        Stage::RoundStart => {
            let due = now >= p.probe_at;
            &&& act == Act::Proceed
            &&& after == (Playback {
                stage: Stage::Turn { index: 0, probed: false },
                probe_at: after.probe_at,
                probe_due: due,
                fed_any: false,
                ..p
            })
            &&& if due {
                is_next_turn(after.probe_at, p.probe_at, PROBE_INTERVAL_NS as nat, now)
            } else {
                after.probe_at == p.probe_at
            }
        },
        Stage::Turn { index, probed } => if index >= p.feeders.len() {
            &&& act == Act::Rest { ms: if p.fed_any { 1 } else { 2 } }
            &&& after == (Playback { stage: Stage::RoundEnd, ..p })
        } else if p.probe_due && !probed {
            let f = p.feeders[index as int];
            &&& act == Act::Feed { payload: feed_payload(f, 0) }
            &&& after == sending(p, index as int, 0, Stage::AwaitProbe { index })
        } else if wants_refill(p.feeders[index as int]) {
            let f = p.feeders[index as int];
            let chunk = feeding::chunk_for(f.free);
            &&& act == Act::Feed { payload: feed_payload(f, chunk) }
            &&& after == sending(p, index as int, chunk, Stage::AwaitRefill { index })
        } else {
            &&& act == Act::Proceed
            &&& after == (Playback {
                stage: Stage::Turn { index: (index + 1) as usize, probed: false },
                ..p
            })
        },
        Stage::RoundEnd => {
            let due = now >= p.report_at;
            &&& act == if due { Act::Report } else { Act::Proceed }
            &&& after == (Playback { stage: Stage::RoundStart, report_at: after.report_at, ..p })
            &&& if due {
                is_next_turn(after.report_at, p.report_at, DEBUG_REPORT_INTERVAL_NS as nat, now)
            } else {
                after.report_at == p.report_at
            }
        },
        _ => false,
    }
}

/// Where playback goes on after the device took some samples: a stream that took none before
/// playback is left as it is.
pub open spec fn resumed(stage: Stage, accepted: nat) -> Stage {
    match stage {
        Stage::AwaitPrefill { index } => if accepted == 0 {
            Stage::Prefill { index: (index + 1) as usize }
        } else {
            Stage::Prefill { index }
        },
        Stage::AwaitProbe { index } => Stage::Turn { index, probed: true },
        Stage::AwaitRefill { index } => Stage::Turn { index: (index + 1) as usize, probed: false },
        _ => stage,
    }
}

/// Playback after the device's answer to a chunk.
pub open spec fn answered(p: Playback, ack: Seq<u8>) -> Playback {
    let index = awaited(p.stage)->0;
    let accepted = crate::protocol::word(ack[1], ack[2]);
    Playback {
        feeders: p.feeders.update(index, feeding::acknowledged(p.feeders[index], p.chunk, ack)),
        stage: resumed(p.stage, accepted),
        fed_any: p.fed_any || (p.stage is AwaitRefill && accepted > 0),
        ..p
    }
}

impl Player {
    /// The times are those of the probes and the reports.
    pub closed spec fn wf(self) -> bool {
        &&& self@.wf()
        &&& self.probe.interval() == PROBE_INTERVAL_NS
        &&& self.report.interval() == DEBUG_REPORT_INTERVAL_NS
    }

    /// A well-formed player has a well-formed view.
    pub proof fn lemma_view_wf(self)
        requires
            self.wf(),
        ensures
            self@.wf(),
    {
    }

    /// Playback at its start.
    pub fn new(streams: Vec<StreamState>) -> (player: Self)
        requires
            forall|k: int| 0 <= k < streams@.len() ==> (#[trigger] streams@[k])@.wf(),
        ensures
            player.wf(),
            player@ == (Playback {
                feeders: csv_streamer::stream_views(streams@),
                stage: Stage::Prefill { index: 0 },
                chunk: 0,
                probe_at: 0,
                report_at: 0,
                probe_due: false,
                fed_any: false,
            }),
    {
        let player = Player {
            streams,
            stage: Stage::Prefill { index: 0 },
            chunk: 0,
            probe: Schedule::new(0, PROBE_INTERVAL_NS),
            report: Schedule::new(0, DEBUG_REPORT_INTERVAL_NS),
            probe_due: false,
            fed_any: false,
        };
        assert forall|k: int| 0 <= k < player@.feeders.len() implies (
        #[trigger] player@.feeders[k]).wf() by {
            assert(player@.feeders[k] == streams@[k]@);
        }
        player
    }

    /// The streams.
    pub fn streams(&self) -> (streams: &Vec<StreamState>)
        ensures
            csv_streamer::stream_views(streams@) == self@.feeders,
    {
        &self.streams
    }

    /// Sends a chunk for a stream.
    fn send(&mut self, index: usize, chunk: usize, stage: Stage) -> (payload: Vec<u8>)
        requires
            old(self).wf(),
            index < old(self)@.feeders.len(),
            chunk <= old(self)@.feeders[index as int].free,
            awaited(stage) == Some(index as int),
        ensures
            final(self).wf(),
            payload@ == feed_payload(old(self)@.feeders[index as int], chunk as nat),
            final(self)@ == sending(old(self)@, index as int, chunk as nat, stage),
    {
        let ghost before = self@;
        assert(before.feeders[index as int].wf());
        assert(before.feeders[index as int] == self.streams@[index as int]@);
        let requested = feed_request(&mut self.streams[index], chunk);
        self.stage = stage;
        self.chunk = chunk;
        assert(self@.feeders =~= before.feeders.update(
            index as int,
            after_sending(before.feeders[index as int], chunk as nat),
        ));
        match requested {
            Ok(payload) => payload,
            Err(_) => Vec::new(),
        }
    }

    /// Takes the next step at time `now`.
    pub fn step(&mut self, now: u64) -> (action: PlayerAction)
        requires
            old(self).wf(),
            awaited(old(self)@.stage) is None,
            now + DEBUG_REPORT_INTERVAL_NS <= u64::MAX,
        ensures
            final(self).wf(),
            is_step(old(self)@, now as nat, action@, final(self)@),
    {
        let ghost before = self@;
        match self.stage {
            Stage::Prefill { index } => {
                if index >= self.streams.len() {
                    self.stage = Stage::RoundStart;
                    self.probe = Schedule::new(now, PROBE_INTERVAL_NS);
                    self.report = Schedule::new(
                        now + DEBUG_REPORT_INTERVAL_NS,
                        DEBUG_REPORT_INTERVAL_NS,
                    );
                    assert(self@.feeders == before.feeders);
                    return PlayerAction::Announce;
                }
                assert(before.feeders[index as int].wf());
                assert(before.feeders[index as int] == self.streams@[index as int]@);
                match prefill_chunk(&self.streams[index]) {
                    Some(chunk) => {
                        let payload = self.send(index, chunk, Stage::AwaitPrefill { index });
                        PlayerAction::Feed { payload }
                    },
                    None => {
                        self.stage = Stage::Prefill { index: index + 1 };
                        PlayerAction::Proceed
                    },
                }
            },
            Stage::RoundStart => {
                self.fed_any = false;
                self.probe_due = self.probe.poll(now);
                self.stage = Stage::Turn { index: 0, probed: false };
                PlayerAction::Proceed
            },
            Stage::Turn { index, probed } => {
                if index >= self.streams.len() {
                    self.stage = Stage::RoundEnd;
                    assert(self@.feeders == before.feeders);
                    return PlayerAction::Rest { ms: rest_ms(self.fed_any) };
                }
                assert(before.feeders[index as int].wf());
                assert(before.feeders[index as int] == self.streams@[index as int]@);
                if self.probe_due && !probed {
                    let payload = self.send(index, 0, Stage::AwaitProbe { index });
                    return PlayerAction::Feed { payload };
                }
                match refill_chunk(&self.streams[index]) {
                    Some(chunk) => {
                        let payload = self.send(index, chunk, Stage::AwaitRefill { index });
                        PlayerAction::Feed { payload }
                    },
                    None => {
                        self.stage = Stage::Turn { index: index + 1, probed: false };
                        PlayerAction::Proceed
                    },
                }
            },
            Stage::RoundEnd => {
                self.stage = Stage::RoundStart;
                if self.report.poll(now) { PlayerAction::Report } else { PlayerAction::Proceed }
            },
            _ => PlayerAction::Proceed,
        }
    }

    /// Takes the device's answer to the chunk that was sent last.
    pub fn on_ack(&mut self, ack: &[u8]) -> (fed: Result<Fed, FeedFault>)
        requires
            old(self).wf(),
            awaited(old(self)@.stage) is Some,
        ensures
            final(self).wf(),
            ({
                let p = old(self)@;
                let index = awaited(p.stage)->0;
                let fault = feeding::ack_fault(p.feeders[index], p.chunk, ack@);
                match fed {
                    Ok(f) => {
                        &&& fault is None
                        &&& f.index == index
                        &&& f.sent == p.chunk
                        &&& f.accepted == crate::protocol::word(ack@[1], ack@[2])
                        &&& final(self)@ == answered(p, ack@)
                    },
                    Err(error) => fault == Some(error) && final(self)@ == p,
                }
            }),
    {
        let ghost before = self@;
        let index: usize = match self.stage {
            Stage::AwaitPrefill { index } => index,
            Stage::AwaitProbe { index } => index,
            Stage::AwaitRefill { index } => index,
            _ => 0,
        };
        assert(before.feeders[index as int].wf());
        assert(before.feeders[index as int] == self.streams@[index as int]@);
        let sent: usize = self.chunk;
        let count: usize = self.streams.len();
        assert(index < count);
        let result = feed_acknowledged(&mut self.streams[index], sent, ack);
        match result {
            Err(error) => {
                assert(self@.feeders =~= before.feeders);
                Err(error)
            },
            Ok(accepted) => {
                assert(self@.feeders =~= answered(before, ack@).feeders);
                match self.stage {
                    Stage::AwaitPrefill { .. } => {
                        let next: usize = if accepted == 0 { index + 1 } else { index };
                        self.stage = Stage::Prefill { index: next };
                    },
                    Stage::AwaitProbe { .. } => {
                        self.stage = Stage::Turn { index, probed: true };
                    },
                    Stage::AwaitRefill { .. } => {
                        if accepted > 0 {
                            self.fed_any = true;
                        }
                        self.stage = Stage::Turn { index: index + 1, probed: false };
                    },
                    _ => {},
                }
                Ok(Fed { index, sent, accepted })
            },
        }
    }
}

/// How far a round is from its rest.
pub open spec fn distance_to_rest(stage: Stage, streams: nat) -> int {
    match stage {
        Stage::RoundStart => 4 * (streams as int) + 1,
        Stage::Turn { index, probed } => 4 * (streams - index) - if probed { 2int } else { 0int },
        Stage::AwaitProbe { index } => 4 * (streams - index) - 1,
        Stage::AwaitRefill { index } => 4 * (streams - index) - 3,
        _ => 0,
    }
}

/// A stage of a round over `streams` streams.
pub open spec fn is_in_round(stage: Stage, streams: nat) -> bool {
    match stage {
        Stage::RoundStart => true,
        Stage::Turn { index, probed } => index <= streams && (probed ==> index < streams),
        Stage::AwaitProbe { index } => index < streams,
        Stage::AwaitRefill { index } => index < streams,
        _ => false,
    }
}

/// Every round comes to its rest: a step or an answer brings it nearer, or it is the rest.
pub proof fn law_rounds_end(p: Playback, now: nat, act: Act, after: Playback, ack: Seq<u8>)
    requires
        p.wf(),
        is_in_round(p.stage, p.feeders.len()),
        p.feeders.len() <= usize::MAX,
    ensures
        awaited(p.stage) is None && is_step(p, now, act, after) ==> {
            ||| act is Rest && after.stage is RoundEnd
            ||| {
                &&& is_in_round(after.stage, after.feeders.len())
                &&& 0 <= distance_to_rest(after.stage, after.feeders.len()) < distance_to_rest(
                    p.stage,
                    p.feeders.len(),
                )
            }
        },
        awaited(p.stage) is Some ==> {
            let next = answered(p, ack);
            &&& is_in_round(next.stage, next.feeders.len())
            &&& 0 <= distance_to_rest(next.stage, next.feeders.len()) < distance_to_rest(
                p.stage,
                p.feeders.len(),
            )
        },
{
}

/// In a round no stream is passed over: a step moves on to the next stream only from one that is
/// full enough, or cannot take a byte, by what the device said last.
pub proof fn law_no_stream_is_passed_over(p: Playback, now: nat, act: Act, after: Playback)
    requires
        is_step(p, now, act, after),
        p.stage is Turn,
        p.stage->Turn_index < p.feeders.len() < usize::MAX,
        after.stage is Turn,
    ensures
        after.stage->Turn_index == p.stage->Turn_index + 1,
        p.probe_due ==> p.stage->Turn_probed,
        ({
            let f = p.feeders[p.stage->Turn_index as int];
            f.fill() > feeding::low_data_mark(f.capacity) || f.free == 0
        }),
{
}

}
