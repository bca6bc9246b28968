//! The host's end of the serial link: frames out, frames in, and when to do what.
use vstd::prelude::*;

use crate::csv_streamer::{DeviceOp, HostOp};
use crate::protocol;
use crate::protocol::STREAM_FRAME_HEADER_BYTES;
use crate::text;

verus! {

/// How long the host waits for an answer, in milliseconds.
pub const ANSWER_TIMEOUT_MS: u64 = 2000;

/// How often the host asks the device for its free space, in nanoseconds.
pub const PROBE_INTERVAL_NS: u64 = 50_000_000;

/// How often the host reports, in nanoseconds.
pub const DEBUG_REPORT_INTERVAL_NS: u64 = 1_000_000_000;

/// A payload that is too long for a frame.
#[derive(Copy, Clone, Debug, PartialEq, Eq, Structural)]
pub struct PayloadTooLarge;

impl PayloadTooLarge {
    /// The message for a reader.
    pub fn message(&self) -> (out: String)
        ensures
            out@ == "payload too large"@,
    {
        "payload too large".to_owned()
    }
}

/// The bytes that go before a payload on the wire.
pub fn request_header(op: HostOp, payload: &[u8]) -> (header: Result<[u8; 3], PayloadTooLarge>)
    ensures
        header is Ok <==> payload@.len() <= u16::MAX,
        header matches Ok(bytes) ==> bytes@ + payload@ == protocol::frame_bytes(
            op.opcode(),
            payload@,
        ),
{
    if payload.len() > 0xFFFF {
        return Err(PayloadTooLarge);
    }
    Ok(protocol::frame_header(op.code(), payload.len() as u16))
}

/// What the host makes of a frame while it waits for an answer.
#[derive(Debug)]
pub enum FrameVerdict {
    /// It is the answer.
    Answer { payload: Vec<u8> },
    /// It is not, and the host waits on.
    Ignored,
    /// The device refused something.
    Refused { code: u8 },
}

/// What the host makes of a frame while it waits for an answer: frames with an opcode that it does
/// not know, and answers to something else, are passed over.
pub fn judge_frame(expected: DeviceOp, opcode: u8, payload: Vec<u8>) -> (verdict: FrameVerdict)
    ensures
        match verdict {
            FrameVerdict::Answer { payload: answer } => DeviceOp::with_opcode(opcode) == Ok::<
                DeviceOp,
                u8,
            >(expected) && answer@ == payload@,
            FrameVerdict::Refused { code } => {
                &&& DeviceOp::with_opcode(opcode) == Ok::<DeviceOp, u8>(DeviceOp::Error)
                &&& expected != DeviceOp::Error
                &&& code == if payload@.len() > 0 { payload@[0] } else { 0xFF }
            },
            FrameVerdict::Ignored => {
                &&& DeviceOp::with_opcode(opcode) != Ok::<DeviceOp, u8>(expected)
                &&& DeviceOp::with_opcode(opcode) != Ok::<DeviceOp, u8>(DeviceOp::Error)
            },
        },
{
    match DeviceOp::try_from(opcode) {
        Err(_) => FrameVerdict::Ignored,
        Ok(op) => {
            if op == expected {
                return FrameVerdict::Answer { payload };
            }
            if op == DeviceOp::Error {
                let code: u8 = if payload.len() > 0 { payload[0] } else { 0xFF };
                return FrameVerdict::Refused { code };
            }
            FrameVerdict::Ignored
        },
    }
}

/// The message for a reader when the device refused something.
pub fn refusal_message(code: u8) -> (out: String)
    ensures
        out@ == "device returned error code "@ + text::dec_text(code as nat),
{
    let mut out = String::new();
    out.append("device returned error code ");
    text::push_dec(&mut out, code as u64);
    assert(out@ =~= "device returned error code "@ + text::dec_text(code as nat));
    out
}

/// Why a read from the serial port gave no bytes.
#[derive(Copy, Clone, Debug, PartialEq, Eq, Structural)]
pub enum NoBytes {
    /// Nothing came in time.
    NotReady,
    /// The call was interrupted.
    Interrupted,
    /// It failed.
    Failed,
}

/// What the host does next while it waits for an answer.
#[derive(Debug)]
pub enum ReadProgress {
    /// Read on.
    Pending,
    /// The answer is there.
    Answer { payload: Vec<u8> },
    /// Give up, for the device refused something.
    Refused { code: u8 },
    /// Give up, for the deadline has passed.
    TimedOut,
    /// Give up, for reading failed.
    Failed,
}

/// A [`ReadProgress`] with its payload as a sequence.
pub enum Progress {
    Pending,
    Answer { payload: Seq<u8> },
    Refused { code: u8 },
    TimedOut,
    Failed,
}

impl View for ReadProgress {
    type V = Progress;

    open spec fn view(&self) -> Progress {
        match self {
            ReadProgress::Pending => Progress::Pending,
            ReadProgress::Answer { payload } => Progress::Answer { payload: payload@ },
            ReadProgress::Refused { code } => Progress::Refused { code: *code },
            ReadProgress::TimedOut => Progress::TimedOut,
            ReadProgress::Failed => Progress::Failed,
        }
    }
}

/// How many bytes a frame has, by what is there of it.
pub open spec fn frame_size(frame: Seq<u8>) -> nat {
    if frame.len() < STREAM_FRAME_HEADER_BYTES {
        STREAM_FRAME_HEADER_BYTES as nat
    } else {
        protocol::frame_len(frame)
    }
}

/// All bytes of a frame are there.
pub open spec fn is_whole(frame: Seq<u8>) -> bool {
    frame.len() >= STREAM_FRAME_HEADER_BYTES && frame.len() >= protocol::frame_len(frame)
}

/// What the host makes of a whole frame while it waits for an answer.
pub open spec fn frame_progress(expected: DeviceOp, frame: Seq<u8>) -> Progress {
    let payload = frame.skip(STREAM_FRAME_HEADER_BYTES as int);
    if DeviceOp::with_opcode(frame[0]) == Ok::<DeviceOp, u8>(expected) {
        Progress::Answer { payload }
    } else if DeviceOp::with_opcode(frame[0]) == Ok::<DeviceOp, u8>(DeviceOp::Error) {
        Progress::Refused { code: if payload.len() > 0 { payload[0] } else { 0xFF } }
    } else {
        Progress::Pending
    }
}

/// The host while it waits for an answer.
pub struct AnswerReader {
    expected: DeviceOp,
    frame: Vec<u8>,
}

impl AnswerReader {
    /// The answer that is waited for.
    pub closed spec fn expected(self) -> DeviceOp {
        self.expected
    }

    /// What is there of the frame that is being read.
    pub closed spec fn frame(self) -> Seq<u8> {
        self.frame@
    }

    /// Something of the frame is still to come.
    pub open spec fn wf(self) -> bool {
        !is_whole(self.frame())
    }

    /// The host before anything was read.
    pub fn new(expected: DeviceOp) -> (reader: Self)
        ensures
            reader.wf(),
            reader.expected() == expected,
            reader.frame() == Seq::<u8>::empty(),
    {
        AnswerReader { expected, frame: Vec::new() }
    }

    /// How many bytes may be read next: first those before the payload of a frame, then those of
    /// the payload.
    pub fn wanted(&self) -> (count: usize)
        requires
            self.wf(),
        ensures
            count > 0,
            count == frame_size(self.frame()) - self.frame().len(),
    {
        let got: usize = self.frame.len();
        if got < STREAM_FRAME_HEADER_BYTES {
            STREAM_FRAME_HEADER_BYTES - got
        } else {
            STREAM_FRAME_HEADER_BYTES + protocol::word_of(self.frame[1], self.frame[2]) - got
        }
    }

    /// Takes bytes that were read. The deadline only matters where no byte came. A frame that is
    /// neither the answer nor a refusal is passed over.
    pub fn on_bytes(&mut self, bytes: &[u8], deadline_passed: bool) -> (progress: ReadProgress)
        requires
            old(self).wf(),
            bytes@.len() <= frame_size(old(self).frame()) - old(self).frame().len(),
        ensures
            final(self).wf(),
            final(self).expected() == old(self).expected(),
            ({
                let frame = old(self).frame() + bytes@;
                if bytes@.len() == 0 {
                    &&& progress@ == if deadline_passed { Progress::TimedOut } else { Progress::Pending }
                    &&& final(self).frame() == old(self).frame()
                } else if is_whole(frame) {
                    &&& progress@ == frame_progress(old(self).expected(), frame)
                    &&& final(self).frame() == Seq::<u8>::empty()
                } else {
                    &&& progress@ == Progress::Pending
                    &&& final(self).frame() == frame
                }
            }),
    {
        if bytes.len() == 0 {
            return if deadline_passed { ReadProgress::TimedOut } else { ReadProgress::Pending };
        }
        let ghost before = self.frame@;
        let mut i: usize = 0;
        assert(before + bytes@.take(0) =~= before);
        while i < bytes.len()
            invariant
                i <= bytes@.len(),
                self.expected == old(self).expected,
                self.frame@ == before + bytes@.take(i as int),
            decreases bytes@.len() - i,
        {
            self.frame.push(bytes[i]);
            assert(self.frame@ =~= before + bytes@.take(i + 1));
            i = i + 1;
        }
        assert(bytes@.take(i as int) =~= bytes@);
        let ghost frame = self.frame@;
        let got: usize = self.frame.len();
        if got < STREAM_FRAME_HEADER_BYTES {
            return ReadProgress::Pending;
        }
        let size: usize = STREAM_FRAME_HEADER_BYTES + protocol::word_of(
            self.frame[1],
            self.frame[2],
        );
        if got < size {
            return ReadProgress::Pending;
        }
        let opcode: u8 = self.frame[0];
        let payload = protocol::copy_range(self.frame.as_slice(), STREAM_FRAME_HEADER_BYTES, got);
        assert(payload@ =~= frame.skip(STREAM_FRAME_HEADER_BYTES as int));
        self.frame = Vec::new();
        match judge_frame(self.expected, opcode, payload) {
            FrameVerdict::Answer { payload: answer } => ReadProgress::Answer { payload: answer },
            FrameVerdict::Refused { code } => ReadProgress::Refused { code },
            FrameVerdict::Ignored => ReadProgress::Pending,
        }
    }

    /// Takes a read that gave no bytes.
    pub fn on_no_bytes(&self, why: NoBytes, deadline_passed: bool) -> (progress: ReadProgress)
        ensures
            progress@ == match why {
                NoBytes::NotReady => if deadline_passed {
                    Progress::TimedOut
                } else {
                    Progress::Pending
                },
                NoBytes::Interrupted => Progress::Pending,
                NoBytes::Failed => Progress::Failed,
            },
    {
        match why {
            NoBytes::NotReady => if deadline_passed {
                ReadProgress::TimedOut
            } else {
                ReadProgress::Pending
            },
            NoBytes::Interrupted => ReadProgress::Pending,
            NoBytes::Failed => ReadProgress::Failed,
        }
    }
}

/// What the host reads of a frame from the device, in any pieces of which none goes beyond the
/// frame, is a whole frame with the last piece and not before.
pub proof fn law_frame_is_read_in_pieces(opcode: u8, payload: Seq<u8>, n: int)
    requires
        payload.len() <= u16::MAX,
        0 <= n <= payload.len() + STREAM_FRAME_HEADER_BYTES,
    ensures
        ({
            let frame = protocol::frame_bytes(opcode, payload);
            &&& is_whole(frame.take(n)) <==> n == frame.len()
            &&& frame.take(n).len() <= frame_size(frame.take(n)) <= frame.len()
            &&& frame.take(frame.len() as int) == frame
            &&& frame.skip(STREAM_FRAME_HEADER_BYTES as int) == payload
        }),
{
    let frame = protocol::frame_bytes(opcode, payload);
    protocol::lemma_word(payload.len() as int);
    assert(frame.take(frame.len() as int) =~= frame);
    assert(frame.skip(STREAM_FRAME_HEADER_BYTES as int) =~= payload);
}

/// Something that is due again and again, at times in nanoseconds.
pub struct Schedule {
    next: u64,
    interval: u64,
}

impl Schedule {
    /// When it is due next.
    pub closed spec fn next(self) -> nat {
        self.next as nat
    }

    /// The time between two turns.
    pub closed spec fn interval(self) -> nat {
        self.interval as nat
    }

    /// Due at a time and then every `interval`.
    pub fn new(next: u64, interval: u64) -> (schedule: Self)
        ensures
            schedule.next() == next,
            schedule.interval() == interval,
    {
        Schedule { next, interval }
    }

    /// Whether it is due now. Turns that were missed are not made up for: it is due next at the
    /// first of its times that is still to come.
    pub fn poll(&mut self, now: u64) -> (due: bool)
        requires
            old(self).interval() > 0,
            now + old(self).interval() <= u64::MAX,
        ensures
            due == (now >= old(self).next()),
            final(self).interval() == old(self).interval(),
            !due ==> final(self).next() == old(self).next(),
            due ==> {
                &&& now < final(self).next() <= now + old(self).interval()
                &&& (final(self).next() - old(self).next()) % (old(self).interval() as int) == 0
            },
    {
        if now < self.next {
            return false;
        }
        let missed: u64 = (now - self.next) / self.interval;
        let ghost late = now - self.next;
        let ghost m = self.interval as int;
        proof {
            vstd::arithmetic::div_mod::lemma_fundamental_div_mod(late, m);
            vstd::arithmetic::div_mod::lemma_mod_bound(late, m);
            assert(m * (missed as int) == (missed as int) * m) by (nonlinear_arith);
            assert((missed as int) * m + m == (missed + 1) * m) by (nonlinear_arith);
            vstd::arithmetic::div_mod::lemma_mod_multiples_basic(missed + 1, m);
            assert(0 <= (missed as int) * m <= late);
        }
        self.next = self.next + missed * self.interval + self.interval;
        true
    }
}

/// How long the host rests after a round, in milliseconds.
pub fn rest_ms(fed_any: bool) -> (ms: u64)
    ensures
        ms == if fed_any { 1u64 } else { 2u64 },
{
    if fed_any { 1 } else { 2 }
}

}
