//! Calibrating how far behind a Tentacle's own clock a reading lands.
//!
//! A timecode box jam syncs from a master and then free-runs. This does the same
//! thing to a host clock, with one difference: classic jam sync takes the *time*
//! once and then drifts. This takes the *path latency* once and keeps taking the
//! time from advertisements forever. The calibrated quantity is a path constant,
//! and a path constant does not drift with the crystals.
//!
//! An ATT read is a round trip and an advertisement structurally cannot be. Stamp
//! the host clock either side of a read and the timecode in the response stands in
//! for the device's own two stamps. Write `a = T - t0` and `b = t1 - T`, and let
//! `theta` be the device's clock minus this host's. Then `a` is the way out plus
//! `theta` and `b` the way back minus `theta`; both ways take time, so
//! `-b <= theta <= a` for every single sample, with no assumption that the two legs
//! are equal. A one-way stream has no departure stamp, so all it gives is the `b`
//! half.
//!
//! [`Calibrator`] collects samples and [`Calibration`] is what falls out. Host time
//! is an interval off a monotonic clock and device time is a time of day, so the
//! absolute numbers mean nothing: every figure here is a width, a floor measured
//! against another floor, or a rate.
//!
//! Times are integer nanoseconds. A slope is in parts per 10^15.

pub mod figures;
pub mod laws;
pub mod reduce;
pub mod report;

use vstd::prelude::*;

use crate::timecode;
use crate::big::Big;
use crate::order::{Ranked, Sortable};
use crate::text;
use crate::time::{Duration, Instant};
use crate::timecode::Timecode;

verus! {

/// The block length the bracket is computed over, in seconds. Short enough that drift
/// inside one block is well under the bracket it is measuring, and long enough to
/// hold a few connections' worth of round trips.
pub const BLOCK_SECS: u64 = 30;

/// The connection interval, and so the least a real round trip can take, in
/// milliseconds.
pub const CONNECTION_INTERVAL_MILLIS: u64 = 30;

/// No stamp is further from the origin than this, in nanoseconds: it is more than there is
/// between any two moments.
pub const REACH: i128 = 0x2_0000_0000_0000_0000_0000_0000;

/// Whether a link was up when an advertisement landed.
///
/// An enum and not a `bool` because getting it backwards is exactly the mistake that
/// makes a calibration measure the observer.
#[derive(Clone, Copy, Debug, PartialEq, Eq, Hash, Structural)]
pub enum Link {
    /// A connection to this box was open. Its advertising is suppressed and delayed.
    Up,
    /// No connection, so the box is advertising as a passive listener sees it.
    Down,
}

/// Which path a reading reached the host by.
#[derive(Clone, Copy, Debug, PartialEq, Eq, Hash, PartialOrd, Ord, Structural)]
pub enum Stream {
    /// An ATT read response: the only stream with a departure stamp.
    Read,
    /// A GATT notification.
    Notify,
    /// An advertisement that landed while a link was up to the box.
    ConnectedAdvert,
    /// A free-running advertisement, the path a passive clock uses.
    Advert,
}

/// A stream as a report names it.
pub open spec fn stream_label(stream: Stream) -> Seq<char> {
    match stream {
        Stream::Read => "read"@,
        Stream::Notify => "notify"@,
        Stream::ConnectedAdvert => "advert (connected)"@,
        Stream::Advert => "advert (free-running)"@,
    }
}

impl Stream {
    /// A stream as a report names it.
    pub fn label(self) -> (label: &'static str)
        ensures
            label@ == stream_label(self),
    {
        match self {
            Stream::Read => "read",
            Stream::Notify => "notify",
            Stream::ConnectedAdvert => "advert (connected)",
            Stream::Advert => "advert (free-running)",
        }
    }
}

/// An interval a quantity provably lies in.
#[derive(Clone, Copy, Debug, PartialEq, Eq, Structural)]
pub struct Bracket {
    pub low: Duration,
    pub high: Duration,
}

/// How wide a bracket is, in nanoseconds.
pub open spec fn bracket_span(bracket: Bracket) -> nat {
    if bracket.high@ >= bracket.low@ {
        (bracket.high@ - bracket.low@) as nat
    } else {
        0
    }
}

/// The middle of a bracket, in nanoseconds.
pub open spec fn middle_of(bracket: Bracket) -> nat {
    bracket.low@ + bracket_span(bracket) / 2
}

/// A bracket in words.
pub open spec fn bracket_text(bracket: Bracket) -> Seq<char> {
    text::fixed(bracket.low@ as int, 1_000_000, 3) + " to "@ + text::fixed(
        bracket.high@ as int,
        1_000_000,
        3,
    ) + " ms"@
}

impl Bracket {
    pub open spec fn wf(self) -> bool {
        self.low.wf() && self.high.wf()
    }

    /// How much is not known.
    pub fn width(&self) -> (width: Duration)
        requires
            self.wf(),
        ensures
            width.wf(),
            width@ == bracket_span(*self),
    {
        self.high.saturating_sub(self.low)
    }

    /// The middle of the interval: a midpoint, and not a measurement. It is the best
    /// single number to apply if a single number must be applied, and applying it is
    /// what halves the worst case.
    pub fn midpoint(&self) -> (middle: Duration)
        requires
            self.wf(),
        ensures
            middle.wf(),
            middle@ == middle_of(*self),
            middle@ == self.low@ + bracket_span(*self) / 2,
    {
        let half: u128 = self.width().as_nanos() / 2;
        Duration::from_nanos_u128(self.low.as_nanos() + half)
    }

    /// The bracket in words.
    pub fn to_string(&self) -> (out: String)
        ensures
            out@ == bracket_text(*self),
    {
        let mut out = String::new();
        text::put_fixed(&mut out, self.low.as_nanos() as i128, 1_000_000, 3);
        out.push_str(" to ");
        text::put_fixed(&mut out, self.high.as_nanos() as i128, 1_000_000, 3);
        out.push_str(" ms");
        assert(out@ =~= bracket_text(*self));
        out
    }
}

/// The midpoint lies in its bracket and leaves no more than half of it, rounded up to
/// the nanosecond, on either side.
pub proof fn a_midpoint_halves_the_worst_case(bracket: Bracket, middle: Duration)
    requires
        bracket.low@ <= bracket.high@,
        middle@ == bracket.low@ + bracket_span(bracket) / 2,
    ensures
        bracket.low@ <= middle@ <= bracket.high@,
        2 * (middle@ - bracket.low@) <= bracket_span(bracket),
        2 * (bracket.high@ - middle@) <= bracket_span(bracket) + 1,
{
}

/// Why a capture could not be reduced to a [`Calibration`].
///
/// Every one of these is a refusal rather than a warning: every figure in this module
/// is a *minimum*, so a single impossible sample does not perturb the answer, it
/// silently becomes the answer.
#[derive(Clone, Debug, PartialEq, Eq)]
#[non_exhaustive]
pub enum Flaw {
    /// No round trips at all, so nothing bounds the offset from above.
    NoRoundTrips,
    /// The device's clock stepped relative to the host's: a midnight wrap, or the box
    /// being re-jammed mid-capture. `at` is how far into the capture that was, `by` the
    /// size of the step in nanoseconds.
    ClockJumped { at: Duration, by: i128 },
    /// Too many "round trips" came back faster than a connection interval, which a real
    /// one cannot do: the signature of a capture taken while subscribed.
    NotRoundTrips { short: usize, total: usize, shortest: Duration },
    /// Every block's bracket came out negative, so nothing here bounds anything.
    EveryBlockContradictory { blocks: usize },
    /// Pooled across streams, the two bounds on the offset cross. `upper` is the least
    /// `a` over the reads and `lower` the least `b` over every stream, the drift taken
    /// out, in nanoseconds.
    StreamsContradict { upper: Big, lower: Big },
    /// The capture holds no free-running advertisements, so the one path a passive
    /// clock uses was never observed unperturbed.
    NoFreeRunning,
}

/// A refusal, with its figures as integers.
pub enum FlawView {
    NoRoundTrips,
    ClockJumped { at: Duration, by: int },
    NotRoundTrips { short: nat, total: nat, shortest: Duration },
    EveryBlockContradictory { blocks: nat },
    StreamsContradict { upper: int, lower: int },
    NoFreeRunning,
}

impl View for Flaw {
    type V = FlawView;

    open spec fn view(&self) -> FlawView {
        match *self {
            Flaw::NoRoundTrips => FlawView::NoRoundTrips,
            Flaw::ClockJumped { at, by } => FlawView::ClockJumped { at, by: by as int },
            Flaw::NotRoundTrips { short, total, shortest } => FlawView::NotRoundTrips {
                short: short as nat,
                total: total as nat,
                shortest,
            },
            Flaw::EveryBlockContradictory { blocks } => FlawView::EveryBlockContradictory {
                blocks: blocks as nat,
            },
            Flaw::StreamsContradict { upper, lower } => FlawView::StreamsContradict {
                upper: upper@,
                lower: lower@,
            },
            Flaw::NoFreeRunning => FlawView::NoFreeRunning,
        }
    }
}

/// One reading, reduced to the quantities the arithmetic wants, in nanoseconds.
#[derive(Clone, Copy, Debug, PartialEq, Eq, Structural)]
pub struct Sample {
    pub stream: Stream,
    /// When it landed, since the origin. For a round trip this is when the response
    /// came back.
    pub host: i128,
    /// The device's own stamp, since its midnight.
    pub device: i128,
    /// `T - t0`, present only for a round trip. Bounds the offset from above.
    pub a: Option<i128>,
    /// `arrival - T`. Every stream has one. Bounds the offset from below.
    pub b: i128,
    /// `t1 - t0`, present only for a round trip.
    pub rtt: Option<i128>,
}

impl Ranked for Sample {
    open spec fn rank(self) -> int {
        self.host as int
    }
}

impl Sortable for Sample {
    fn rank_of(&self) -> (r: i128) {
        self.host
    }
}

/// The device's stamp in nanoseconds since its own midnight.
pub open spec fn device_nanos(tc: Timecode) -> int {
    timecode::position_of(tc) as int / timecode::counting_fps(tc.rate) as int
}

/// A moment in nanoseconds since the origin, negative where it is before.
pub open spec fn host_nanos(origin: Instant, at: Instant) -> int {
    at@ - origin@
}

/// What a round trip comes to.
pub open spec fn read_sample(
    origin: Instant,
    tc: Timecode,
    sent: Instant,
    received: Instant,
) -> Sample {
    let device = device_nanos(tc);
    let t0 = host_nanos(origin, sent);
    let t1 = host_nanos(origin, received);
    Sample {
        stream: Stream::Read,
        host: t1 as i128,
        device: device as i128,
        a: Some((device - t0) as i128),
        b: (t1 - device) as i128,
        rtt: Some((t1 - t0) as i128),
    }
}

/// What a reading with an arrival stamp and no departure one comes to.
pub open spec fn one_way_sample(
    origin: Instant,
    stream: Stream,
    tc: Timecode,
    at: Instant,
) -> Sample {
    let device = device_nanos(tc);
    let host = host_nanos(origin, at);
    Sample {
        stream,
        host: host as i128,
        device: device as i128,
        a: None,
        b: (host - device) as i128,
        rtt: None,
    }
}

/// Which stream an advertisement belongs to.
pub open spec fn advert_stream(link: Link) -> Stream {
    match link {
        Link::Up => Stream::ConnectedAdvert,
        Link::Down => Stream::Advert,
    }
}

impl Sample {
    /// The stamps are within reach, and a round trip, and nothing else, has a departure
    /// stamp.
    pub open spec fn wf(self) -> bool {
        &&& -REACH <= self.host <= REACH
        &&& -REACH <= self.device <= REACH
        &&& -2 * REACH <= self.b <= 2 * REACH
        &&& self.stream == Stream::Read <==> self.a is Some
        &&& self.stream == Stream::Read <==> self.rtt is Some
        &&& self.a matches Some(a) ==> -2 * REACH <= a <= 2 * REACH
        &&& self.rtt matches Some(rtt) ==> -2 * REACH <= rtt <= 2 * REACH
    }
}

/// Collects readings, and reduces them to a [`Calibration`].
///
/// Three explicit methods rather than one that takes a [`Stream`], so that the
/// [`Link`] on an advertisement cannot be forgotten.
#[derive(Debug)]
pub struct Calibrator {
    pub origin: Instant,
    pub block: Duration,
    pub interval: Duration,
    pub samples: Vec<Sample>,
    pub undecoded: usize,
}

impl Default for Calibrator {
    fn default() -> (cal: Calibrator)
        ensures
            cal.wf(),
            cal.origin@ == 0,
            cal.block@ == BLOCK_SECS * 1_000_000_000,
            cal.interval@ == CONNECTION_INTERVAL_MILLIS * 1_000_000,
            cal.samples@.len() == 0,
            cal.undecoded == 0,
    {
        Calibrator::new()
    }
}

/// The device's stamp in nanoseconds since its own midnight.
///
/// The position already carries the sub-frame part, so dividing by the nominal rate
/// gives the whole of it.
pub fn device_time(tc: &Timecode) -> (nanos: i128)
    requires
        !tc.rate.drop_frame,
    ensures
        nanos == device_nanos(*tc),
        0 <= nanos <= REACH,
{
    let position: u128 = tc.frame_position();
    let fps: u128 = tc.rate.counting() as u128;
    let nanos: u128 = position / fps;
    proof {
        let clock = (tc.hours * 60 + tc.minutes) * 60 + tc.seconds;
        let rate = tc.rate.fps as int;
        let count = clock * rate + tc.frames;
        let sub = tc.subframe@ as int;
        assert(0 <= count <= 1_000_000 * 256) by (nonlinear_arith)
            requires
                0 <= clock < 1_000_000,
                0 <= rate <= 255,
                count == clock * rate + tc.frames,
        ;
        assert(nanos <= count * 1_000_000_000 + sub) by (nonlinear_arith)
            requires
                nanos == position / fps,
                position == count * 1_000_000_000 + sub * rate,
                fps == rate || (fps == 1 && rate == 0),
                fps >= 1,
                sub >= 0,
                count >= 0,
        ;
    }
    nanos as i128
}

impl Calibrator {
    /// Every sample collected is one that can be reduced.
    pub open spec fn wf(self) -> bool {
        forall|i: int| 0 <= i < self.samples@.len() ==> (#[trigger] self.samples@[i]).wf()
    }

    /// A fresh calibrator, with its origin at the host clock's own.
    ///
    /// The origin is only a reference for the host-time axis: every figure is a
    /// difference, so only that all the samples share it matters.
    pub fn new() -> (cal: Calibrator)
        ensures
            cal.wf(),
            cal.origin@ == 0,
            cal.block@ == BLOCK_SECS * 1_000_000_000,
            cal.interval@ == CONNECTION_INTERVAL_MILLIS * 1_000_000,
            cal.samples@.len() == 0,
            cal.undecoded == 0,
    {
        Calibrator::since(Instant::after(Duration::zero()))
    }

    /// The same, with the origin given.
    pub fn since(origin: Instant) -> (cal: Calibrator)
        ensures
            cal.wf(),
            cal.origin == origin,
            cal.block@ == BLOCK_SECS * 1_000_000_000,
            cal.interval@ == CONNECTION_INTERVAL_MILLIS * 1_000_000,
            cal.samples@.len() == 0,
            cal.undecoded == 0,
    {
        Calibrator {
            origin,
            block: Duration::from_secs(BLOCK_SECS),
            interval: Duration::from_millis(CONNECTION_INTERVAL_MILLIS),
            samples: Vec::new(),
            undecoded: 0,
        }
    }

    /// Sets the block length the per-block brackets are computed over.
    pub fn with_block(self, block: Duration) -> (cal: Calibrator)
        ensures
            cal == (Calibrator { block, ..self }),
    {
        Calibrator { block, ..self }
    }

    /// Sets the connection interval used to recognise a round trip too short to be one.
    pub fn with_interval(self, interval: Duration) -> (cal: Calibrator)
        ensures
            cal == (Calibrator { interval, ..self }),
    {
        Calibrator { interval, ..self }
    }

    /// A round trip: the timecode that came back, and the host stamps either side of the
    /// read that fetched it.
    pub fn round_trip(&mut self, tc: &Timecode, sent: Instant, received: Instant)
        requires
            !tc.rate.drop_frame,
        ensures
            final(self).samples@ == old(self).samples@.push(
                read_sample(old(self).origin, *tc, sent, received),
            ),
            final(self).origin == old(self).origin,
            final(self).block == old(self).block,
            final(self).interval == old(self).interval,
            final(self).undecoded == old(self).undecoded,
            old(self).wf() ==> final(self).wf(),
    {
        let device: i128 = device_time(tc);
        let t0: i128 = self.host_time(sent);
        let t1: i128 = self.host_time(received);
        self.samples.push(
            Sample {
                stream: Stream::Read,
                host: t1,
                device,
                a: Some(device - t0),
                b: t1 - device,
                rtt: Some(t1 - t0),
            },
        );
    }

    /// A GATT notification, which has an arrival stamp and no departure one.
    pub fn notification(&mut self, tc: &Timecode, at: Instant)
        requires
            !tc.rate.drop_frame,
        ensures
            final(self).samples@ == old(self).samples@.push(
                one_way_sample(old(self).origin, Stream::Notify, *tc, at),
            ),
            final(self).origin == old(self).origin,
            final(self).block == old(self).block,
            final(self).interval == old(self).interval,
            final(self).undecoded == old(self).undecoded,
            old(self).wf() ==> final(self).wf(),
    {
        self.one_way(Stream::Notify, tc, at);
    }

    /// An advertisement, and whether a link was up to this box when it landed.
    pub fn advert(&mut self, tc: &Timecode, at: Instant, link: Link)
        requires
            !tc.rate.drop_frame,
        ensures
            final(self).samples@ == old(self).samples@.push(
                one_way_sample(old(self).origin, advert_stream(link), *tc, at),
            ),
            final(self).origin == old(self).origin,
            final(self).block == old(self).block,
            final(self).interval == old(self).interval,
            final(self).undecoded == old(self).undecoded,
            old(self).wf() ==> final(self).wf(),
    {
        match link {
            Link::Up => self.one_way(Stream::ConnectedAdvert, tc, at),
            Link::Down => self.one_way(Stream::Advert, tc, at),
        }
    }

    /// A payload that arrived under the right service and did not decode. Counted rather
    /// than ignored, so a capture that was mostly undecodable says so in its report.
    pub fn undecoded(&mut self)
        ensures
            *final(self) == (Calibrator {
                undecoded: if old(self).undecoded == usize::MAX {
                    usize::MAX
                } else {
                    (old(self).undecoded + 1) as usize
                },
                ..*old(self)
            }),
    {
        self.undecoded = self.undecoded.saturating_add(1);
    }

    /// How many samples have been taken in, of every kind.
    pub fn samples(&self) -> (n: usize)
        ensures
            n == self.samples@.len(),
    {
        self.samples.len()
    }

    fn one_way(&mut self, stream: Stream, tc: &Timecode, at: Instant)
        requires
            !tc.rate.drop_frame,
            stream != Stream::Read,
        ensures
            final(self).samples@ == old(self).samples@.push(
                one_way_sample(old(self).origin, stream, *tc, at),
            ),
            final(self).origin == old(self).origin,
            final(self).block == old(self).block,
            final(self).interval == old(self).interval,
            final(self).undecoded == old(self).undecoded,
            old(self).wf() ==> final(self).wf(),
    {
        let device: i128 = device_time(tc);
        let host: i128 = self.host_time(at);
        self.samples.push(Sample { stream, host, device, a: None, b: host - device, rtt: None });
    }

    fn host_time(&self, at: Instant) -> (nanos: i128)
        ensures
            nanos == host_nanos(self.origin, at),
            -REACH <= nanos <= REACH,
    {
        at.as_nanos() as i128 - self.origin.as_nanos() as i128
    }
}

} // verus!
