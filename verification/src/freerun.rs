//! Turning sparse timecode readings into something that looks like a clock.
//!
//! Advertisements arrive only one or two times a second, so a display redrawn when
//! a packet lands visibly jumps. [`FreeRun`] keeps a local clock instead: each
//! advertisement anchors it, and between anchors the position is extrapolated from
//! the host's monotonic clock, so the display can tick at the frame rate.
//!
//! Two calls drive it: [`FreeRun::anchor`] every time a reading arrives, paired
//! with the host time it arrived at, and [`FreeRun::sample`] whenever there is
//! something to draw. One clock belongs to one device.
//!
//! Three things make it more than `anchor + elapsed`:
//!
//! - **Jitter.** Each anchor's error is folded in by half, which averages the
//!   jitter down, and the position handed out never decreases.
//! - **Drift.** The device's real rate is measured over a long baseline, bounded to
//!   the few hundred ppm that two crystals can plausibly disagree by.
//! - **Signal loss.** Extrapolation stops after [`HOLDOVER_NANOS`] without an
//!   advertisement, and says so.
//!
//! The model of a clock is a [`State`], and what the two calls do to it are the
//! functions [`after_anchor`] and [`after_sample`]. Positions are nano-frames and a
//! rate is nano-frames per second of host time.

pub mod laws;

use vstd::prelude::*;

use crate::big::Big;
use crate::timecode;
use crate::time::{Duration, Instant};
use crate::timecode::{Rate, Timecode, NANO};

verus! {

/// How long to keep extrapolating with nothing arriving: five seconds, in
/// nanoseconds. Reception is bursty enough that anything under about three would
/// announce a signal loss during ordinary reception.
pub const HOLDOVER_NANOS: u128 = 5_000_000_000;

/// Baseline for measuring the device's rate against the host clock, in nanoseconds.
pub const RATE_BASELINE_NANOS: u128 = 10_000_000_000;

/// The slowest rate a frame a second may be measured at, in nano-frames per second:
/// 500 ppm under nominal. Past this it is measurement noise, not drift.
pub const SLOWEST: u64 = 999_500_000;

/// The fastest, 500 ppm over nominal.
pub const FASTEST: u64 = 1_000_500_000;

/// What the smoothed clock says.
#[derive(Clone, Copy, Debug, PartialEq, Eq, Structural)]
pub enum Reading {
    /// Free-running from a recent advertisement. The sub-frame position is
    /// interpolated, so this advances every time it is asked for.
    Running(Timecode),
    /// Nothing has arrived for longer than [`HOLDOVER_NANOS`], so extrapolation has
    /// stopped. This is the last timecode actually received, and how long ago.
    Lost { last: Timecode, since: Duration },
}

/// The model of one device's timeline: `pos` at `at`, advancing at `rate`. A position counts
/// on from one day into the next, as far as it goes.
pub struct State {
    /// The rate the device is running at, as it named it.
    pub frame_rate: Rate,
    pub pos: int,
    pub at: Instant,
    /// How fast the device turns out to be running, in host seconds.
    pub rate: int,
    /// Highest position handed out so far.
    pub last_out: int,
    /// The last advertisement, and when it reached us.
    pub last: Timecode,
    pub anchored: Instant,
    /// Where the rate measurement is currently counting from.
    pub rate_from: int,
    pub rate_from_at: Instant,
}

/// How far a clock at `rate` gets in `span` nanoseconds.
pub open spec fn advance(span: int, rate: int) -> int {
    span * rate / 1_000_000_000
}

/// Where the model says the device is at `now`.
pub open spec fn extrapolated(s: State, now: Instant) -> int {
    s.pos + advance(now@ - s.at@, s.rate)
}

/// `distance / day` to the nearest integer, away from zero where two are equally
/// near.
pub open spec fn whole_days(distance: int, day: int) -> int {
    if distance >= 0 {
        (2 * distance + day) / (2 * day)
    } else {
        -((2 * (-distance) + day) / (2 * day))
    }
}

/// A reading's position, on the same side of midnight as the running model.
pub open spec fn unwrapped(position: int, predicted: int, rate: Rate) -> int {
    position + whole_days(predicted - position, timecode::day_span(rate) as int) * timecode::day_span(rate)
}

/// The nominal rate of a device.
pub open spec fn nominal(rate: Rate) -> int {
    rate.fps * 1_000_000_000
}

/// The rate a device was measured at, from the distance it went in a span of host
/// time, held to what a crystal can plausibly do.
pub open spec fn measured(distance: int, span: int, rate: Rate) -> int {
    let low = rate.fps * 999_500_000;
    let high = rate.fps * 1_000_500_000;
    let plain = distance * 1_000_000_000 / span;
    if plain < low {
        low
    } else if plain > high {
        high
    } else {
        plain
    }
}

/// A model that sits on a reading.
pub open spec fn seated(tc: Timecode, position: int, at: Instant, rate: int) -> State {
    State {
        frame_rate: tc.rate,
        pos: position,
        at,
        rate,
        last_out: position,
        last: tc,
        anchored: at,
        rate_from: position,
        rate_from_at: at,
    }
}

/// The model's rate after one more reading: a quarter of the way to the measured one
/// where the baseline is long enough, and unchanged otherwise.
pub open spec fn rate_after(s: State, position: int, at: Instant) -> int {
    let span = at@ - s.rate_from_at@;
    if span < RATE_BASELINE_NANOS {
        s.rate
    } else {
        (3 * s.rate + measured(position - s.rate_from, span, s.frame_rate)) / 4
    }
}

/// How far a reading is from where the model had the device.
pub open spec fn anchor_error(s: State, tc: Timecode, at: Instant) -> int {
    unwrapped(timecode::position_of(tc) as int, extrapolated(s, at), tc.rate) - extrapolated(s, at)
}

/// The device is another one, or was reconfigured.
pub open spec fn starts_over(s: State, tc: Timecode) -> bool {
    s.frame_rate != tc.rate
}

/// The first anchor after a silence.
pub open spec fn resumes(s: State, at: Instant) -> bool {
    at@ > s.anchored@ + HOLDOVER_NANOS
}

/// An error of more than half a second is the timecode being changed on the device.
pub open spec fn snaps(s: State, tc: Timecode, at: Instant) -> bool {
    let error = anchor_error(s, tc, at);
    2 * error > s.rate || 2 * (-error) > s.rate
}

/// The model after an ordinary anchor: half of the error taken out, the rest left to
/// the anchors after it.
pub open spec fn slewed(s: State, tc: Timecode, at: Instant) -> State {
    let predicted = extrapolated(s, at);
    let position = unwrapped(timecode::position_of(tc) as int, predicted, tc.rate);
    let measures = at@ - s.rate_from_at@ >= RATE_BASELINE_NANOS;
    State {
        frame_rate: s.frame_rate,
        pos: predicted + (position - predicted) / 2,
        at,
        rate: rate_after(s, position, at),
        last_out: s.last_out,
        last: tc,
        anchored: at,
        rate_from: if measures {
            position
        } else {
            s.rate_from
        },
        rate_from_at: if measures {
            at
        } else {
            s.rate_from_at
        },
    }
}

/// What one more reading makes of a clock.
pub open spec fn after_anchor(s: Option<State>, tc: Timecode, at: Instant) -> State {
    match s {
        None => seated(tc, timecode::position_of(tc) as int, at, nominal(tc.rate)),
        Some(s) => if starts_over(s, tc) {
            seated(tc, timecode::position_of(tc) as int, at, nominal(tc.rate))
        } else if resumes(s, at) || snaps(s, tc, at) {
            seated(
                tc,
                unwrapped(timecode::position_of(tc) as int, extrapolated(s, at), tc.rate),
                at,
                s.rate,
            )
        } else {
            slewed(s, tc, at)
        },
    }
}

/// How long nothing has arrived.
pub open spec fn idle(s: State, now: Instant) -> nat {
    if now@ >= s.anchored@ {
        (now@ - s.anchored@) as nat
    } else {
        0
    }
}

/// The position a clock hands out at `now`: never below the last one it gave.
pub open spec fn position_out(s: State, now: Instant) -> int {
    if extrapolated(s, now) >= s.last_out {
        extrapolated(s, now)
    } else {
        s.last_out
    }
}

/// What sampling makes of a clock.
pub open spec fn after_sample(s: Option<State>, now: Instant) -> Option<State> {
    match s {
        None => None,
        Some(s) => if idle(s, now) > HOLDOVER_NANOS {
            Some(s)
        } else {
            Some(State { last_out: position_out(s, now), ..s })
        },
    }
}

/// What a clock shows at `now`.
pub open spec fn shown(s: Option<State>, now: Instant) -> Option<Reading> {
    match s {
        None => None,
        Some(s) => if idle(s, now) > HOLDOVER_NANOS {
            Some(Reading::Lost { last: s.last, since: Duration::of(idle(s, now)) })
        } else {
            Some(Reading::Running(timecode::timecode_at(position_out(s, now), s.frame_rate)))
        },
    }
}

impl State {
    /// What every clock keeps: no drop-frame numbering, and a rate within 500 ppm of
    /// nominal.
    pub open spec fn wf(self) -> bool {
        &&& !self.frame_rate.drop_frame
        &&& self.last.rate == self.frame_rate
        &&& self.frame_rate.fps * SLOWEST <= self.rate <= self.frame_rate.fps * FASTEST
        &&& self.at.wf()
        &&& self.anchored.wf()
        &&& self.rate_from_at.wf()
    }
}

/// How far a clock at `rate` gets between two instants.
fn distance(later: u128, earlier: u128, rate: u64) -> (d: Big)
    ensures
        d@ == advance(later - earlier, rate as int),
{
    let span = Big::of_size(later).minus(&Big::of_size(earlier));
    span.times(&Big::of(rate as i128)).over(&Big::of_size(NANO))
}

/// The nearest whole number of days in a distance.
fn days_in(gap: &Big, day: &Big) -> (days: Big)
    requires
        day@ > 0,
    ensures
        days@ == whole_days(gap@, day@),
{
    let back: bool = gap.is_negative();
    let size = if back {
        gap.negated()
    } else {
        gap.copy()
    };
    let n = size.plus(&size).plus(day).over(&day.plus(day));
    if back {
        n.negated()
    } else {
        n
    }
}

/// The rate a device was measured at.
fn measure(gap: &Big, span: u128, fps: u8) -> (rate: u64)
    requires
        span > 0,
    ensures
        rate == measured(gap@, span as int, Rate { fps, drop_frame: false }),
        fps * SLOWEST <= rate <= fps * FASTEST,
{
    let low: u64 = fps as u64 * SLOWEST;
    let high: u64 = fps as u64 * FASTEST;
    let plain = gap.times(&Big::of_size(NANO)).over(&Big::of_size(span));
    match plain.word() {
        Some(plain) => if plain < low as i128 {
            low
        } else if plain > high as i128 {
            high
        } else {
            plain as u64
        },
        None => if plain.is_negative() {
            low
        } else {
            high
        },
    }
}

/// What a clock holds of the device's timeline.
#[derive(Debug)]
struct Model {
    frame_rate: Rate,
    pos: Big,
    at: Instant,
    rate: u64,
    last_out: Big,
    last: Timecode,
    anchored: Instant,
    rate_from: Big,
    rate_from_at: Instant,
}

impl View for Model {
    type V = State;

    closed spec fn view(&self) -> State {
        State {
            frame_rate: self.frame_rate,
            pos: self.pos@,
            at: self.at,
            rate: self.rate as int,
            last_out: self.last_out@,
            last: self.last,
            anchored: self.anchored,
            rate_from: self.rate_from@,
            rate_from_at: self.rate_from_at,
        }
    }
}

impl Model {
    /// A model that sits on a reading.
    fn new(tc: &Timecode, position: &Big, at: Instant, rate: u64) -> (m: Model)
        ensures
            m@ == seated(*tc, position@, at, rate as int),
    {
        Model {
            frame_rate: tc.rate,
            pos: position.copy(),
            at,
            rate,
            last_out: position.copy(),
            last: *tc,
            anchored: at,
            rate_from: position.copy(),
            rate_from_at: at,
        }
    }

    /// Where the model says the device is at `now`.
    fn extrapolate(&self, now: Instant) -> (position: Big)
        ensures
            position@ == extrapolated(self@, now),
    {
        self.pos.plus(&distance(now.as_nanos(), self.at.as_nanos(), self.rate))
    }

    /// The model's rate, and where its measurement counts from, after a reading.
    fn measure_rate(&self, position: &Big, at: Instant) -> (r: (u64, Big, Instant))
        requires
            self@.wf(),
        ensures
            r.0 == rate_after(self@, position@, at),
            at@ - self@.rate_from_at@ >= RATE_BASELINE_NANOS ==> r.1@ == position@ && r.2 == at,
            at@ - self@.rate_from_at@ < RATE_BASELINE_NANOS ==> r.1@ == self@.rate_from && r.2
                == self@.rate_from_at,
    {
        let to: u128 = at.as_nanos();
        let from: u128 = self.rate_from_at.as_nanos();
        if to < from || to - from < RATE_BASELINE_NANOS {
            return (self.rate, self.rate_from.copy(), self.rate_from_at);
        }
        let found: u64 = measure(&position.minus(&self.rate_from), to - from, self.frame_rate.fps);
        ((3 * self.rate + found) / 4, position.copy(), at)
    }

    /// The model after one more reading.
    fn anchored(&self, tc: &Timecode, at: Instant) -> (m: Model)
        requires
            self@.wf(),
            !tc.rate.drop_frame,
        ensures
            m@ == after_anchor(Some(self@), *tc, at),
    {
        let own = Big::of_size(tc.frame_position());
        if self.frame_rate != tc.rate {
            return Model::new(tc, &own, at, tc.rate.fps as u64 * 1_000_000_000);
        }
        let predicted = self.extrapolate(at);
        let day = Big::of_size(tc.rate.frames_per_day() as u128 * NANO);
        let days = days_in(&predicted.minus(&own), &day);
        let position = own.plus(&days.times(&day));
        let error = position.minus(&predicted);
        let resumed: bool = at.as_nanos() > self.anchored.as_nanos() + HOLDOVER_NANOS;
        let twice = error.plus(&error);
        let rate = Big::of(self.rate as i128);
        if resumed || !twice.at_most(&rate) || !twice.negated().at_most(&rate) {
            return Model::new(tc, &position, at, self.rate);
        }
        let (rate, rate_from, rate_from_at) = self.measure_rate(&position, at);
        Model {
            frame_rate: self.frame_rate,
            pos: predicted.plus(&error.over(&Big::of(2))),
            at,
            rate,
            last_out: self.last_out.copy(),
            last: *tc,
            anchored: at,
            rate_from,
            rate_from_at,
        }
    }
}

/// The timecode at a position that may be any number of days away.
fn reading_at(position: &Big, rate: Rate) -> (tc: Timecode)
    requires
        !rate.drop_frame,
    ensures
        tc == timecode::timecode_at(position@, rate),
{
    let day = Big::of_size(rate.frames_per_day() as u128 * NANO);
    let days = position.over(&day);
    let today = position.minus(&days.times(&day));
    proof {
        vstd::arithmetic::div_mod::lemma_fundamental_div_mod(position@, day@);
        assert(days@ * day@ == day@ * days@) by (nonlinear_arith);
        assert((-days@) * day@ == -(days@ * day@)) by (nonlinear_arith);
        timecode::a_day_is_a_full_turn(position@, -days@, rate);
    }
    let inside: i128 = match today.word() {
        Some(inside) => inside,
        None => 0,
    };
    Timecode::at_frame_position(inside, rate)
}

/// A local clock anchored to one device's advertisements.
///
/// A fresh one holds no state at all and [`FreeRun::sample`] answers `None`.
#[derive(Debug)]
pub struct FreeRun {
    model: Option<Model>,
}

impl View for FreeRun {
    type V = Option<State>;

    closed spec fn view(&self) -> Option<State> {
        match self.model {
            Some(model) => Some(model@),
            None => None,
        }
    }
}

impl Default for FreeRun {
    fn default() -> (clock: FreeRun)
        ensures
            clock@ is None,
    {
        FreeRun { model: None }
    }
}

impl FreeRun {
    #[verifier::type_invariant]
    spec fn keeps_its_model(self) -> bool {
        self@ matches Some(s) ==> s.wf()
    }

    /// Takes an advertisement as an anchor. `at` is when the packet arrived.
    ///
    /// Usually half of one anchor's error, and deliberately only half. The first one
    /// starts the clock, at the nominal rate; so does one at a different rate. An
    /// error past half a second, and the first anchor after a silence past
    /// [`HOLDOVER_NANOS`], reseat the clock on the new reading while keeping the
    /// measured rate.
    pub fn anchor(&mut self, tc: &Timecode, at: Instant)
        requires
            !tc.rate.drop_frame,
            at.wf(),
        ensures
            final(self)@ == Some(after_anchor(old(self)@, *tc, at)),
    {
        proof {
            use_type_invariant(&*self);
            an_anchor_keeps_the_model_well_formed(self@, *tc, at);
        }
        let next = match &self.model {
            None => Model::new(
                tc,
                &Big::of_size(tc.frame_position()),
                at,
                tc.rate.fps as u64 * 1_000_000_000,
            ),
            Some(model) => model.anchored(tc, at),
        };
        self.model = Some(next);
    }

    /// What to show now. `None` until the first advertisement has landed.
    ///
    /// An earlier `now` than in the call before is clamped to that call's reading
    /// rather than rewinding.
    pub fn sample(&mut self, now: Instant) -> (reading: Option<Reading>)
        requires
            now.wf(),
        ensures
            final(self)@ == after_sample(old(self)@, now),
            reading == shown(old(self)@, now),
            reading matches Some(Reading::Running(tc)) ==> !tc.rate.drop_frame,
    {
        proof {
            use_type_invariant(&*self);
        }
        let (next, reading) = match &self.model {
            None => {
                return None;
            },
            Some(model) => {
                let idle = now.saturating_duration_since(model.anchored);
                if idle.as_nanos() > HOLDOVER_NANOS {
                    proof {
                        crate::time::of_undoes_the_view(idle, 0);
                    }
                    return Some(Reading::Lost { last: model.last, since: idle });
                }
                let modelled = model.extrapolate(now);
                let position = if model.last_out.at_most(&modelled) {
                    modelled
                } else {
                    model.last_out.copy()
                };
                let reading = Reading::Running(reading_at(&position, model.frame_rate));
                (
                    Model {
                        frame_rate: model.frame_rate,
                        pos: model.pos.copy(),
                        at: model.at,
                        rate: model.rate,
                        last_out: position,
                        last: model.last,
                        anchored: model.anchored,
                        rate_from: model.rate_from.copy(),
                        rate_from_at: model.rate_from_at,
                    },
                    reading,
                )
            },
        };
        self.model = Some(next);
        Some(reading)
    }

    /// The last advertisement actually received, whatever the clock is doing: neither
    /// extrapolated nor slewed.
    pub fn last_received(&self) -> (last: Option<Timecode>)
        ensures
            last == (match self@ {
                Some(s) => Some(s.last),
                None => None::<Timecode>,
            }),
    {
        match &self.model {
            Some(model) => Some(model.last),
            None => None,
        }
    }
}

/// A reading put on the model's side of midnight is within half a day of where the
/// model has the device, and a whole number of days from where it was.
pub proof fn a_reading_lands_within_half_a_day(position: int, predicted: int, rate: Rate)
    ensures
        2 * (unwrapped(position, predicted, rate) - predicted) <= timecode::day_span(rate),
        2 * (predicted - unwrapped(position, predicted, rate)) <= timecode::day_span(rate),
        timecode::timecode_at(unwrapped(position, predicted, rate), rate) == timecode::timecode_at(position, rate),
{
    let day = timecode::day_span(rate) as int;
    let gap = predicted - position;
    let m = if gap >= 0 {
        gap
    } else {
        -gap
    };
    let n = (2 * m + day) / (2 * day);
    vstd::arithmetic::div_mod::lemma_fundamental_div_mod(2 * m + day, 2 * day);
    assert(2 * (m - n * day) <= day && 2 * (n * day - m) <= day) by (nonlinear_arith)
        requires
            2 * m + day == (2 * day) * n + (2 * m + day) % (2 * day),
            0 <= (2 * m + day) % (2 * day) < 2 * day,
    ;
    assert((-n) * day == -(n * day)) by (nonlinear_arith);
    timecode::a_day_is_a_full_turn(position, whole_days(gap, day), rate);
}

/// Every anchor leaves a model that keeps its promises: whatever arrives, the rate
/// stays within 500 ppm of nominal.
pub proof fn an_anchor_keeps_the_model_well_formed(s: Option<State>, tc: Timecode, at: Instant)
    requires
        s matches Some(s) ==> s.wf(),
        !tc.rate.drop_frame,
        at.wf(),
    ensures
        after_anchor(s, tc, at).wf(),
{
}

/// So does every sample.
pub proof fn a_sample_keeps_the_model_well_formed(s: State, now: Instant)
    requires
        s.wf(),
        now.wf(),
    ensures
        after_sample(Some(s), now) matches Some(t) && t.wf(),
        idle(s, now) <= HOLDOVER_NANOS ==> after_sample(Some(s), now)->0.last_out == position_out(
            s,
            now,
        ),
{
}

/// Something that happens to a clock.
pub enum ClockEvent {
    Anchor { tc: Timecode, at: Instant },
    Sample { now: Instant },
}

/// A clock after a run of events.
pub open spec fn after_events(s: State, events: Seq<ClockEvent>) -> State
    decreases events.len(),
{
    if events.len() == 0 {
        s
    } else {
        let before = after_events(s, events.drop_last());
        match events.last() {
            ClockEvent::Anchor { tc, at } => after_anchor(Some(before), tc, at),
            ClockEvent::Sample { now } => match after_sample(Some(before), now) {
                Some(t) => t,
                None => before,
            },
        }
    }
}

/// Every instant in the run is one that a clock can say, and no anchor in it reseats
/// the clock.
pub open spec fn undisturbed(s: State, events: Seq<ClockEvent>) -> bool
    decreases events.len(),
{
    events.len() == 0 || {
        let before = after_events(s, events.drop_last());
        &&& undisturbed(s, events.drop_last())
        &&& match events.last() {
            ClockEvent::Anchor { tc, at } => {
                &&& !tc.rate.drop_frame
                &&& at.wf()
                &&& !starts_over(before, tc)
                &&& !resumes(before, at)
                &&& !snaps(before, tc, at)
            },
            ClockEvent::Sample { now } => now.wf(),
        }
    }
}

/// A clock never ticks backwards: through any run of samples and ordinary anchors, in
/// any order and at any instants, what it hands out is never below what it handed
/// out before.
pub proof fn a_clock_never_ticks_backwards(s: State, events: Seq<ClockEvent>, now: Instant)
    requires
        s.wf(),
        now.wf(),
        undisturbed(s, events),
    ensures
        after_events(s, events).wf(),
        after_events(s, events).frame_rate == s.frame_rate,
        after_events(s, events).last_out >= s.last_out,
        position_out(after_events(s, events), now) >= s.last_out,
    decreases events.len(),
{
    if events.len() > 0 {
        a_clock_never_ticks_backwards(s, events.drop_last(), now);
        let before = after_events(s, events.drop_last());
        match events.last() {
            ClockEvent::Anchor { tc, at } => {
                an_anchor_keeps_the_model_well_formed(Some(before), tc, at);
            },
            ClockEvent::Sample { now } => {
                a_sample_keeps_the_model_well_formed(before, now);
            },
        }
    }
}

/// Every event is a sample, at an instant no later than this.
pub open spec fn only_earlier_samples(events: Seq<ClockEvent>, now: Instant) -> bool {
    forall|i: int|
        0 <= i < events.len() ==> (#[trigger] events[i] matches ClockEvent::Sample { now: at }
            && at.wf() && at@ <= now@)
}

/// A display that samples a clock never sees it tick backwards. Of two samples that both
/// find it running, with anything between them but readings of another rate, more than half
/// a second off, or more than five seconds after the reading before, the second is at or
/// after the first on the timeline, counted on across midnight: also where it is asked for
/// at an earlier instant, or a reading in between pulled the clock back. Where there was no
/// reading in between, and no sample at a later instant, an earlier instant shows just what
/// the first did.
pub proof fn a_second_sample_is_no_earlier(
    s: State,
    first: Instant,
    events: Seq<ClockEvent>,
    second: Instant,
)
    requires
        s.wf(),
        first.wf(),
        second.wf(),
        shown(Some(s), first) matches Some(Reading::Running(_)),
        after_sample(Some(s), first) matches Some(t) && undisturbed(t, events),
        shown(Some(after_events(after_sample(Some(s), first)->0, events)), second) matches Some(
            Reading::Running(_),
        ),
    ensures
        ({
            let t = after_events(after_sample(Some(s), first)->0, events);
            let one = position_out(s, first);
            let other = position_out(t, second);
            &&& shown(Some(s), first) == Some(
                Reading::Running(timecode::timecode_at(one, s.frame_rate)),
            )
            &&& shown(Some(t), second) == Some(
                Reading::Running(timecode::timecode_at(other, t.frame_rate)),
            )
            &&& t.frame_rate == s.frame_rate
            &&& one <= other
            &&& second@ <= first@ && only_earlier_samples(events, first) ==> shown(
                Some(t),
                second,
            ) == shown(Some(s), first)
        }),
{
    a_sample_keeps_the_model_well_formed(s, first);
    let t = after_sample(Some(s), first)->0;
    a_clock_never_ticks_backwards(t, events, second);
    if second@ <= first@ && only_earlier_samples(events, first) {
        lemma_earlier_samples_change_nothing(s, first, events);
        an_earlier_sample_repeats_the_last(s, first, second);
    }
}

proof fn lemma_earlier_samples_change_nothing(s: State, now: Instant, events: Seq<ClockEvent>)
    requires
        s.wf(),
        now.wf(),
        shown(Some(s), now) matches Some(Reading::Running(_)),
        only_earlier_samples(events, now),
    ensures
        after_events(after_sample(Some(s), now)->0, events) == after_sample(Some(s), now)->0,
    decreases events.len(),
{
    if events.len() > 0 {
        let front = events.drop_last();
        assert forall|i: int| 0 <= i < front.len() implies (
        #[trigger] front[i] matches ClockEvent::Sample { now: at } && at.wf() && at@ <= now@) by {
            assert(front[i] == events[i]);
        }
        lemma_earlier_samples_change_nothing(s, now, front);
        assert(events[events.len() - 1] == events.last());
        match events.last() {
            ClockEvent::Sample { now: at } => {
                an_earlier_sample_repeats_the_last(s, now, at);
            },
            _ => {},
        }
    }
}

/// An earlier instant does not rewind the clock: where a sample shows a running clock, a
/// sample at an earlier instant, with no reading between them, shows the same and leaves the
/// clock as it was.
pub proof fn an_earlier_sample_repeats_the_last(s: State, now: Instant, earlier: Instant)
    requires
        s.wf(),
        now.wf(),
        earlier.wf(),
        earlier@ <= now@,
        shown(Some(s), now) matches Some(Reading::Running(_)),
    ensures
        shown(after_sample(Some(s), now), earlier) == shown(Some(s), now),
        after_sample(after_sample(Some(s), now), earlier) == after_sample(Some(s), now),
{
    extrapolation_runs_forward(s, earlier, now);
    let t = after_sample(Some(s), now)->0;
    assert(extrapolated(t, earlier) == extrapolated(s, earlier));
}

/// A lost signal stays lost until something arrives: with no anchor in between, a
/// later sample says the same reading, and longer ago.
pub proof fn a_lost_signal_stays_lost(s: State, now: Instant, later: Instant)
    requires
        s.wf(),
        now.wf(),
        later.wf(),
        now@ <= later@,
        shown(Some(s), now) is Some,
        shown(Some(s), now)->0 is Lost,
    ensures
        after_sample(Some(s), now) == Some(s),
        shown(after_sample(Some(s), now), later) == Some(
            Reading::Lost { last: s.last, since: Duration::of(idle(s, later)) },
        ),
        idle(s, now) <= idle(s, later),
{
}

/// A clock that was never anchored shows nothing, and an anchored one always
/// something.
pub proof fn only_an_unanchored_clock_shows_nothing(s: Option<State>, now: Instant)
    ensures
        shown(s, now) is None <==> s is None,
{
}

/// The first reading, and the first at another rate, starts the clock on that reading
/// at the nominal rate.
pub proof fn a_first_reading_is_shown_as_it_came(s: Option<State>, tc: Timecode, at: Instant)
    requires
        s matches Some(s) ==> starts_over(s, tc),
        !tc.rate.drop_frame,
        at.wf(),
    ensures
        after_anchor(s, tc, at).rate == tc.rate.fps * 1_000_000_000,
        shown(Some(after_anchor(s, tc, at)), at) == Some(
            Reading::Running(timecode::timecode_at(timecode::position_of(tc) as int, tc.rate)),
        ),
        tc.in_range() && tc.rate.fps > 0 ==> shown(Some(after_anchor(s, tc, at)), at) == Some(
            Reading::Running(tc),
        ),
{
    if tc.in_range() && tc.rate.fps > 0 {
        crate::timecode::a_position_gives_its_reading_back(tc);
    }
}

/// A device that comes back from a silence, or whose timecode was changed, is shown
/// at once where it says it is; the measured rate is kept.
pub proof fn a_reseated_clock_shows_the_reading(s: State, tc: Timecode, at: Instant)
    requires
        s.wf(),
        !tc.rate.drop_frame,
        at.wf(),
        !starts_over(s, tc),
        resumes(s, at) || snaps(s, tc, at),
    ensures
        after_anchor(Some(s), tc, at).rate == s.rate,
        shown(Some(after_anchor(Some(s), tc, at)), at) == Some(
            Reading::Running(timecode::timecode_at(timecode::position_of(tc) as int, tc.rate)),
        ),
{
    assert(advance(0, s.rate) == 0) by (nonlinear_arith)
        requires
            advance(0, s.rate) == (0 * s.rate) / 1_000_000_000,
    ;
    a_reading_lands_within_half_a_day(timecode::position_of(tc) as int, extrapolated(s, at), tc.rate);
}

/// An ordinary anchor takes out half of its error: what is left of it, at the same
/// instant, is no more than half.
pub proof fn an_anchor_takes_out_half_its_error(s: State, tc: Timecode, at: Instant)
    requires
        s.wf(),
        !tc.rate.drop_frame,
        at.wf(),
        !starts_over(s, tc),
        !resumes(s, at),
        !snaps(s, tc, at),
    ensures
        ({
            let error = anchor_error(s, tc, at);
            let position = extrapolated(s, at) + error;
            let left = position - extrapolated(after_anchor(Some(s), tc, at), at);
            &&& 2 * left <= error + 1
            &&& error <= 2 * left
        }),
{
    a_reading_lands_within_half_a_day(timecode::position_of(tc) as int, extrapolated(s, at), tc.rate);
    let t = after_anchor(Some(s), tc, at);
    assert(advance(at@ - t.at@, t.rate) == 0) by (nonlinear_arith)
        requires
            at@ - t.at@ == 0,
            advance(at@ - t.at@, t.rate) == ((at@ - t.at@) * t.rate) / 1_000_000_000,
    ;
}

/// Between anchors the clock runs forward: a later instant is never extrapolated to an
/// earlier position.
pub proof fn extrapolation_runs_forward(s: State, now: Instant, later: Instant)
    requires
        now@ <= later@,
        s.rate >= 0,
    ensures
        extrapolated(s, now) <= extrapolated(s, later),
{
    let r = s.rate;
    assert((now@ - s.at@) * r <= (later@ - s.at@) * r) by (nonlinear_arith)
        requires
            now@ <= later@,
            r >= 0,
    ;
}

/// Whatever a running clock shows is a reading that a clock can show, at the device's
/// own rate.
pub proof fn a_running_clock_shows_a_reading_in_range(s: State, now: Instant)
    requires
        shown(Some(s), now) matches Some(Reading::Running(_)),
    ensures
        shown(Some(s), now) matches Some(Reading::Running(tc)) && tc.showable() && tc.rate
            == s.frame_rate,
{
    timecode::a_position_falls_inside_a_frame(position_out(s, now), s.frame_rate);
}

} // verus!
