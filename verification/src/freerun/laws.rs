//! How a free-running clock keeps time.

use vstd::prelude::*;

use crate::freerun;
use crate::freerun::{Reading, State};
use crate::time::{Duration, Instant};
use crate::timecode;
use crate::timecode::{Rate, Timecode};

verus! {

/// A clock that has had one reading runs on from it at the rate the device named: so long
/// after the reading it shows the reading as many frames on as the rate has in that time.
pub proof fn a_fresh_clock_runs_at_the_nominal_rate(tc: Timecode, at: Instant, now: Instant)
    requires
        at@ <= now@ <= at@ + 5_000_000_000,
    ensures
        freerun::shown(Some(freerun::after_anchor(None, tc, at)), now) == Some(
            Reading::Running(
                timecode::timecode_at(
                    timecode::position_of(tc) + (now@ - at@) * tc.rate.fps,
                    tc.rate,
                ),
            ),
        ),
{
    let fps = tc.rate.fps as int;
    let span = now@ - at@;
    assert(span * (fps * 1_000_000_000) / 1_000_000_000 == span * fps && span * fps >= 0)
        by (nonlinear_arith)
        requires
            span >= 0,
            fps >= 0,
    ;
}

/// A clock shows something running for five seconds after the last reading, and no longer:
/// then it says which reading was the last, and how long ago that was.
pub proof fn a_clock_runs_on_for_five_seconds(
    s: Option<State>,
    tc: Timecode,
    at: Instant,
    now: Instant,
)
    requires
        now.wf(),
        at.wf(),
    ensures
        ({
            let shown = freerun::shown(Some(freerun::after_anchor(s, tc, at)), now);
            &&& now@ <= at@ + 5_000_000_000 ==> shown is Some && shown->0 is Running
            &&& now@ > at@ + 5_000_000_000 ==> shown is Some && shown->0 is Lost
                && shown->0->last == tc && shown->0->since@ == now@ - at@
        }),
{
    if now@ > at@ + 5_000_000_000 {
        crate::time::of_undoes_the_view(Duration { secs: 0, nanos: 0 }, (now@ - at@) as nat);
    }
}

/// How far a clock gets between two instants is its rate times the time between, to a
/// nano-frame, and so within 500 ppm of what the device named.
pub proof fn a_clock_advances_at_its_rate(s: State, now: Instant, later: Instant)
    requires
        s.wf(),
        now@ <= later@,
    ensures
        ({
            let went = freerun::extrapolated(s, later) - freerun::extrapolated(s, now);
            let span = later@ - now@;
            let fps = s.frame_rate.fps as int;
            &&& -1_000_000_000 < went * 1_000_000_000 - span * s.rate < 1_000_000_000
            &&& (went + 1) * 1_000_000 >= span * (fps * 999_500)
            &&& (went - 1) * 1_000_000 <= span * (fps * 1_000_500)
        }),
{
    let a = now@ - s.at@;
    let b = later@ - s.at@;
    let r = s.rate;
    let went = freerun::extrapolated(s, later) - freerun::extrapolated(s, now);
    assert(went == b * r / 1_000_000_000 - a * r / 1_000_000_000);
    let span = later@ - now@;
    assert(b * r - a * r == span * r) by (nonlinear_arith)
        requires
            span == b - a,
    ;
    assert(-1_000_000_000 < went * 1_000_000_000 - span * r < 1_000_000_000);
    let fps = s.frame_rate.fps as int;
    assert(span * (fps * 999_500_000) <= span * r <= span * (fps * 1_000_500_000))
        by (nonlinear_arith)
        requires
            span >= 0,
            fps * 999_500_000 <= r <= fps * 1_000_500_000,
    ;
    assert(span * (fps * 999_500_000) == 1_000 * (span * (fps * 999_500))) by (nonlinear_arith);
    assert(span * (fps * 1_000_500_000) == 1_000 * (span * (fps * 1_000_500))) by (nonlinear_arith);
}

/// A reading says that the device is this far ahead of where the clock has it, or behind it,
/// whole days aside.
pub open spec fn is_off_by(s: State, tc: Timecode, at: Instant, error: int) -> bool {
    let day = timecode::day_span(tc.rate) as int;
    &&& -day < 2 * error < day
    &&& (freerun::extrapolated(s, at) + error - timecode::position_of(tc)) % day == 0
}

proof fn lemma_off_by(s: State, tc: Timecode, at: Instant, error: int)
    requires
        is_off_by(s, tc, at, error),
    ensures
        freerun::anchor_error(s, tc, at) == error,
        freerun::unwrapped(
            timecode::position_of(tc) as int,
            freerun::extrapolated(s, at),
            tc.rate,
        ) == freerun::extrapolated(s, at) + error,
{
    let day = timecode::day_span(tc.rate) as int;
    let position = timecode::position_of(tc) as int;
    let predicted = freerun::extrapolated(s, at);
    freerun::a_reading_lands_within_half_a_day(position, predicted, tc.rate);
    let n = freerun::whole_days(predicted - position, day);
    let d = (predicted + error - position) / day;
    vstd::arithmetic::div_mod::lemma_fundamental_div_mod(predicted + error - position, day);
    assert(predicted + error - position == d * day) by (nonlinear_arith)
        requires
            predicted + error - position == day * d + 0,
    ;
    let off = position + n * day - predicted;
    assert(n == d) by (nonlinear_arith)
        requires
            off == position + n * day - predicted,
            predicted + error - position == d * day,
            -day < 2 * error < day,
            -day <= 2 * off <= day,
            day > 0,
    ;
}

/// Where a reading puts a running clock. Half of what it is off by is taken out, as long as
/// that is no more than half a second and the last reading came no more than five seconds
/// before; else the clock moves all the way.
pub proof fn a_reading_moves_the_clock_halfway_or_all_the_way(
    s: State,
    tc: Timecode,
    at: Instant,
    error: int,
)
    requires
        s.wf(),
        tc.rate == s.frame_rate,
        is_off_by(s, tc, at, error),
    ensures
        ({
            let moved = freerun::extrapolated(freerun::after_anchor(Some(s), tc, at), at)
                - freerun::extrapolated(s, at);
            if at@ <= s.anchored@ + 5_000_000_000 && -s.rate <= 2 * error <= s.rate {
                2 * moved == error || 2 * moved == error - 1
            } else {
                moved == error
            }
        }),
{
    lemma_off_by(s, tc, at, error);
    let t = freerun::after_anchor(Some(s), tc, at);
    assert(freerun::advance(at@ - t.at@, t.rate) == 0) by (nonlinear_arith)
        requires
            at@ - t.at@ == 0,
            freerun::advance(at@ - t.at@, t.rate) == ((at@ - t.at@) * t.rate) / 1_000_000_000,
    ;
}

/// A device that went at a steady rate is measured at it, and at the nearest end of the range
/// of 500 ppm to either side where it went faster or slower than that.
pub proof fn a_steady_rate_is_measured(distance: int, span: int, rate: Rate, steady: int)
    requires
        span > 0,
        distance * 1_000_000_000 == steady * span,
    ensures
        ({
            let found = freerun::measured(distance, span, rate);
            let fps = rate.fps as int;
            let ppm = fps * 1_000;
            let named = fps * 1_000_000_000;
            &&& named - 500 * ppm <= steady <= named + 500 * ppm ==> found == steady
            &&& steady < named - 500 * ppm ==> found == named - 500 * ppm
            &&& steady > named + 500 * ppm ==> found == named + 500 * ppm
        }),
{
    assert(steady * span == span * steady) by (nonlinear_arith);
    vstd::arithmetic::div_mod::lemma_fundamental_div_mod_converse(
        distance * 1_000_000_000,
        span,
        steady,
        0,
    );
}

/// A clock learns a device's rate by quarters. At the first reading ten seconds or more after
/// the measurement began, its rate moves a quarter of the way to what the device went at, and
/// the measurement begins anew; until then neither changes.
pub proof fn a_steady_device_is_learnt_by_quarters(
    s: State,
    tc: Timecode,
    at: Instant,
    error: int,
    steady: int,
)
    requires
        s.wf(),
        tc.rate == s.frame_rate,
        is_off_by(s, tc, at, error),
        at@ <= s.anchored@ + 5_000_000_000,
        -s.rate <= 2 * error <= s.rate,
        s.frame_rate.fps * 999_500_000 <= steady <= s.frame_rate.fps * 1_000_500_000,
        (freerun::extrapolated(s, at) + error - s.rate_from) * 1_000_000_000 == steady * (at@
            - s.rate_from_at@),
    ensures
        ({
            let t = freerun::after_anchor(Some(s), tc, at);
            if at@ - s.rate_from_at@ >= 10_000_000_000 {
                &&& 4 * t.rate <= 3 * s.rate + steady < 4 * t.rate + 4
                &&& s.rate == steady ==> t.rate == steady
                &&& t.rate_from == freerun::extrapolated(s, at) + error
                &&& t.rate_from_at == at
            } else {
                t.rate == s.rate && t.rate_from == s.rate_from && t.rate_from_at
                    == s.rate_from_at
            }
        }),
{
    lemma_off_by(s, tc, at, error);
    let span = at@ - s.rate_from_at@;
    if span >= 10_000_000_000 {
        a_steady_rate_is_measured(
            freerun::extrapolated(s, at) + error - s.rate_from,
            span,
            s.frame_rate,
            steady,
        );
    }
}

/// Of two days that are as near, a reading is put on the farther one from midnight: a reading
/// half a day behind the clock goes ahead of it, and one half a day ahead goes behind.
pub proof fn half_a_day_is_rounded_away(position: int, predicted: int, rate: Rate)
    ensures
        predicted >= position ==> 2 * (predicted - freerun::unwrapped(position, predicted, rate))
            < timecode::day_span(rate),
        predicted < position ==> 2 * (freerun::unwrapped(position, predicted, rate) - predicted)
            < timecode::day_span(rate),
{
    let day = timecode::day_span(rate) as int;
    let gap = predicted - position;
    let m = if gap >= 0 {
        gap
    } else {
        -gap
    };
    let n = (2 * m + day) / (2 * day);
    vstd::arithmetic::div_mod::lemma_fundamental_div_mod(2 * m + day, 2 * day);
    vstd::arithmetic::div_mod::lemma_mod_bound(2 * m + day, 2 * day);
    assert(2 * (m - n * day) < day) by (nonlinear_arith)
        requires
            2 * m + day == (2 * day) * n + (2 * m + day) % (2 * day),
            0 <= (2 * m + day) % (2 * day) < 2 * day,
    ;
    assert((-n) * day == -(n * day)) by (nonlinear_arith);
}

/// What is measured is what the device went at, to a nano-frame a second below, wherever that
/// is within 500 ppm of what it named; and it is never outside of that.
pub proof fn what_is_measured_is_what_it_went_at(distance: int, span: int, rate: Rate)
    requires
        span > 0,
        rate.fps > 0,
    ensures
        ({
            let found = freerun::measured(distance, span, rate);
            let ppm = rate.fps * 1_000;
            let named = rate.fps * 1_000_000_000;
            &&& named - 500 * ppm <= found <= named + 500 * ppm
            &&& named - 500 * ppm < found < named + 500 * ppm ==> found * span <= distance
                * 1_000_000_000 < (found + 1) * span
            &&& found == named - 500 * ppm ==> distance * 1_000_000_000 < (found + 1) * span
            &&& found == named + 500 * ppm ==> found * span <= distance * 1_000_000_000
        }),
{
    let n = distance * 1_000_000_000;
    let q = n / span;
    vstd::arithmetic::div_mod::lemma_fundamental_div_mod(n, span);
    vstd::arithmetic::div_mod::lemma_mod_bound(n, span);
    assert(q * span <= n && n < (q + 1) * span) by (nonlinear_arith)
        requires
            n == span * q + n % span,
            0 <= n % span < span,
    ;
    let found = freerun::measured(distance, span, rate);
    if found > q {
        assert((q + 1) * span <= (found + 1) * span) by (nonlinear_arith)
            requires
                q <= found,
                span > 0,
        ;
    }
    if found < q {
        assert(found * span <= q * span) by (nonlinear_arith)
            requires
                found <= q,
                span > 0,
        ;
    }
}

} // verus!
