//! What the figures of a calibration are made of.

use vstd::prelude::*;

use crate::jam;
use crate::jam::reduce;
use crate::jam::reduce::{Calibration, LineView, Point};
use crate::jam::report;
use crate::jam::{FlawView, Link, Sample, Stream};
use crate::order;
use crate::text;
use crate::time::Instant;
use crate::timecode;
use crate::timecode::Timecode;

verus! {

/// The device's stamp is the time of its day that the timecode names, to a nanosecond below;
/// on a whole second that is exact.
pub proof fn a_device_stamp_is_the_time_of_its_day(tc: Timecode)
    requires
        tc.rate.fps > 0,
    ensures
        jam::device_nanos(tc) * tc.rate.fps <= timecode::position_of(tc) < (jam::device_nanos(tc)
            + 1) * tc.rate.fps,
        tc.frames == 0 ==> jam::device_nanos(tc) == (tc.hours * 3_600 + tc.minutes * 60
            + tc.seconds) * 1_000_000_000 + tc.subframe@,
{
    let fps = tc.rate.fps as int;
    let p = timecode::position_of(tc) as int;
    let q = p / fps;
    vstd::arithmetic::div_mod::lemma_fundamental_div_mod(p, fps);
    vstd::arithmetic::div_mod::lemma_mod_bound(p, fps);
    assert(q * fps <= p && p < (q + 1) * fps) by (nonlinear_arith)
        requires
            p == fps * q + p % fps,
            0 <= p % fps < fps,
    ;
    if tc.frames == 0 {
        let clock = (tc.hours * 60 + tc.minutes) * 60 + tc.seconds;
        let sub = tc.subframe@ as int;
        assert(p == fps * (clock * 1_000_000_000 + sub)) by (nonlinear_arith)
            requires
                p == (clock * fps + 0) * 1_000_000_000 + sub * fps,
        ;
        vstd::arithmetic::div_mod::lemma_fundamental_div_mod_converse(
            p,
            fps,
            clock * 1_000_000_000 + sub,
            0,
        );
    }
}

/// A round trip bounds how far the device's clock is ahead of the host's, from both sides.
/// Where it is ahead by `theta` and the two legs took `up` and `down`, the one bound is over by
/// the way up, the other by the way down, and the trip took both.
pub proof fn a_round_trip_bounds_the_offset(
    origin: Instant,
    tc: Timecode,
    sent: Instant,
    received: Instant,
    theta: int,
    up: int,
    down: int,
)
    requires
        origin.wf(),
        sent.wf(),
        received.wf(),
        received@ == sent@ + up + down,
        jam::device_nanos(tc) == (sent@ - origin@) + up + theta,
    ensures
        ({
            let s = jam::read_sample(origin, tc, sent, received);
            &&& s.stream == Stream::Read
            &&& s.a matches Some(a) && a == theta + up
            &&& s.b == down - theta
            &&& s.rtt matches Some(rtt) && rtt == up + down
            &&& s.host == received@ - origin@
            &&& s.device == jam::device_nanos(tc)
        }),
{
    lemma_stamp_fits(tc);
}

/// What only arrives bounds it from one side: the bound is over by the delay.
pub proof fn a_one_way_reading_bounds_it_from_below(
    origin: Instant,
    stream: Stream,
    tc: Timecode,
    at: Instant,
    theta: int,
    delay: int,
)
    requires
        origin.wf(),
        at.wf(),
        jam::device_nanos(tc) == (at@ - origin@) - delay + theta,
    ensures
        ({
            let s = jam::one_way_sample(origin, stream, tc, at);
            &&& s.stream == stream
            &&& s.a is None
            &&& s.rtt is None
            &&& s.b == delay - theta
            &&& s.host == at@ - origin@
        }),
        jam::advert_stream(Link::Up) == Stream::ConnectedAdvert,
        jam::advert_stream(Link::Down) == Stream::Advert,
{
    lemma_stamp_fits(tc);
}

proof fn lemma_stamp_fits(tc: Timecode)
    ensures
        0 <= jam::device_nanos(tc) <= 0x100_0000_0000_0000_0000_0000_0000,
{
    timecode::a_position_leaves_room(tc);
    let p = timecode::position_of(tc) as int;
    let fps = timecode::counting_fps(tc.rate) as int;
    assert(0 <= p / fps <= p) by (nonlinear_arith)
        requires
            p >= 0,
            fps >= 1,
    ;
}

/// How far two clocks part is the time times the slope, which is in billionths of a part per
/// million, to a nanosecond below.
pub proof fn clocks_part_in_proportion_to_time(nanos: int, slope: int)
    ensures
        reduce::drift_over(nanos, slope) * 1_000_000_000_000_000 <= nanos * slope,
        nanos * slope < (reduce::drift_over(nanos, slope) + 1) * 1_000_000_000_000_000,
{
}

/// How far the device's clock moved against the host's between two reads.
pub open spec fn moved(reads: Seq<Sample>, i: int) -> int {
    (reads[i + 1].device - reads[i].device) - (reads[i + 1].host - reads[i].host)
}

/// A clock that moves by more than a second against the other, in either direction, between
/// two reads in a row has jumped, and the first time it does so is the one reported: by how
/// much, and when. Otherwise nothing is.
pub proof fn the_first_jump_is_reported(reads: Seq<Sample>, from: int)
    requires
        0 <= from,
    ensures
        match reduce::jump_from(reads, from) {
            None => forall|i: int|
                from <= i < reads.len() - 1 ==> -1_000_000_000 <= #[trigger] moved(reads, i)
                    <= 1_000_000_000,
            Some(flaw) => flaw is ClockJumped && exists|k: int|
                {
                    &&& from <= k < reads.len() - 1
                    &&& #[trigger] moved(reads, k) == flaw->by
                    &&& flaw->by > 1_000_000_000 || flaw->by < -1_000_000_000
                    &&& flaw->at == reduce::span_of(reads[k + 1].host as int)
                    &&& forall|i: int|
                        from <= i < k ==> -1_000_000_000 <= #[trigger] moved(reads, i)
                            <= 1_000_000_000
                },
        },
    decreases reads.len() - from,
{
    if from + 1 < reads.len() {
        assert(moved(reads, from) == reduce::step_between(reads[from], reads[from + 1]));
        if -1_000_000_000 <= moved(reads, from) <= 1_000_000_000 {
            the_first_jump_is_reported(reads, from + 1);
        }
    }
}

/// Round trips shorter than a connection interval are counted, and no others; the count of two
/// runs is the sum of theirs.
pub proof fn short_round_trips_are_counted(a: Seq<Sample>, b: Seq<Sample>, interval: int)
    ensures
        reduce::short_count(a + b, interval) == reduce::short_count(a, interval)
            + reduce::short_count(b, interval),
        (forall|i: int| 0 <= i < a.len() ==> (#[trigger] a[i]).rtt->0 >= interval)
            <==> reduce::short_count(a, interval) == 0,
        (forall|i: int| 0 <= i < a.len() ==> (#[trigger] a[i]).rtt->0 < interval)
            <==> reduce::short_count(a, interval) == a.len(),
        reduce::short_count(a, interval) <= a.len(),
    decreases a.len(), b.len(),
{
    if b.len() > 0 {
        short_round_trips_are_counted(a, b.drop_last(), interval);
        assert((a + b).drop_last() =~= a + b.drop_last());
    } else {
        assert(a + b =~= a);
    }
    if a.len() > 0 {
        let front = a.drop_last();
        short_round_trips_are_counted(front, Seq::empty(), interval);
        assert(a[a.len() - 1] == a.last());
        assert(forall|i: int| 0 <= i < front.len() ==> #[trigger] front[i] == a[i]);
        if reduce::short_count(a, interval) == 0 {
            assert forall|i: int| 0 <= i < a.len() implies (#[trigger] a[i]).rtt->0 >= interval by {
                if i < front.len() {
                    assert(front[i] == a[i]);
                }
            }
        }
        if reduce::short_count(a, interval) == a.len() {
            assert forall|i: int| 0 <= i < a.len() implies (#[trigger] a[i]).rtt->0 < interval by {
                if i < front.len() {
                    assert(front[i] == a[i]);
                }
            }
        }
    }
}

/// What a capture that is not refused must have: round trips, no jump of the clock, no more
/// than one round trip in fifty that is too short to be one, bounds that do not cross, and
/// free-running advertisements. A capture without round trips is refused for that.
pub proof fn what_is_not_refused_can_be_trusted(
    samples: Seq<Sample>,
    block: int,
    interval: int,
)
    ensures
        reduce::flaw_of(samples, block, interval) is None ==> {
            let reads = reduce::reads_in_order(samples);
            &&& reads.len() > 0
            &&& reduce::jump_from(reads, 0) is None
            &&& 50 * reduce::short_count(reads, interval) <= reads.len()
            &&& reduce::capture_reads(samples, block).len() > 0
            &&& reduce::upper_read(samples, block) + reduce::lower_best(samples, block) >= 0
            &&& reduce::of_stream(reduce::one_way_only(samples), Stream::Advert).len() > 0
        },
        reduce::flaw_of(samples, block, interval) matches Some(FlawView::NotRoundTrips {
            short,
            total,
            ..
        }) ==> {
            let reads = reduce::reads_in_order(samples);
            &&& 50 * short > total
            &&& total == reads.len()
            &&& short == reduce::short_count(reads, interval)
        },
        reduce::flaw_of(samples, block, interval) matches Some(FlawView::StreamsContradict {
            upper,
            lower,
        }) ==> upper + lower < 0 && upper == reduce::upper_read(samples, block) && lower
            == reduce::lower_best(samples, block),
        reduce::reads_in_order(samples).len() == 0 <==> reduce::flaw_of(samples, block, interval)
            matches Some(FlawView::NoRoundTrips),
{
    if let Some(flaw) = reduce::jump_from(reduce::reads_in_order(samples), 0) {
        the_first_jump_is_reported(reduce::reads_in_order(samples), 0);
    }
}

/// A moment falls in the block whose ends are on either side of it.
pub proof fn a_moment_falls_between_the_ends_of_its_block(host: int, block: int)
    requires
        block > 0,
        i64::MIN * block <= host < i64::MAX * block,
    ensures
        reduce::block_key(host, block) * block <= host,
        host < (reduce::block_key(host, block) + 1) * block,
{
    let q = host / block;
    vstd::arithmetic::div_mod::lemma_fundamental_div_mod(host, block);
    vstd::arithmetic::div_mod::lemma_mod_bound(host, block);
    assert(q * block <= host && host < (q + 1) * block) by (nonlinear_arith)
        requires
            host == block * q + host % block,
            0 <= host % block < block,
    ;
    assert(i64::MIN <= q <= i64::MAX) by (nonlinear_arith)
        requires
            q * block <= host,
            host < (q + 1) * block,
            i64::MIN * block <= host < i64::MAX * block,
            block > 0,
    ;
}

/// A point stands on a line.
pub open spec fn on_line(p: Point, slope: int, intercept: int) -> bool {
    (p.y - intercept) * 1_000_000_000_000_000 == p.x * slope
}

/// The slope between two points of a line is the line's, whichever comes first.
pub proof fn two_points_give_the_slope(p: Point, q: Point, slope: int, intercept: int)
    requires
        p.x != q.x,
        on_line(p, slope, intercept),
        on_line(q, slope, intercept),
    ensures
        reduce::slope_between(p, q) == slope,
        reduce::slope_between(q, p) == slope,
{
    let dx = q.x - p.x;
    let dy = q.y - p.y;
    assert(dy * 1_000_000_000_000_000 == dx * slope) by (nonlinear_arith)
        requires
            dx == q.x - p.x,
            dy == q.y - p.y,
            (p.y - intercept) * 1_000_000_000_000_000 == p.x * slope,
            (q.y - intercept) * 1_000_000_000_000_000 == q.x * slope,
    ;
    assert((-dy) * 1_000_000_000_000_000 == (-dx) * slope) by (nonlinear_arith)
        requires
            dy * 1_000_000_000_000_000 == dx * slope,
    ;
    if dx > 0 {
        vstd::arithmetic::div_mod::lemma_fundamental_div_mod_converse(
            dy * 1_000_000_000_000_000,
            dx,
            slope,
            0,
        );
    } else {
        vstd::arithmetic::div_mod::lemma_fundamental_div_mod_converse(
            (-dy) * 1_000_000_000_000_000,
            -dx,
            slope,
            0,
        );
    }
}

proof fn lemma_slopes_to(points: Seq<Point>, q: Point, slope: int, intercept: int)
    requires
        forall|i: int| 0 <= i < points.len() ==> on_line(#[trigger] points[i], slope, intercept),
        on_line(q, slope, intercept),
    ensures
        forall|i: int|
            0 <= i < reduce::slopes_to(points, q).len() ==> #[trigger] reduce::slopes_to(points, q)[i]
                == slope,
        (exists|i: int| 0 <= i < points.len() && (#[trigger] points[i]).x != q.x)
            ==> reduce::slopes_to(points, q).len() > 0,
    decreases points.len(),
{
    if points.len() > 0 {
        let front = points.drop_last();
        assert forall|i: int| 0 <= i < front.len() implies on_line(
            #[trigger] front[i],
            slope,
            intercept,
        ) by {
            assert(front[i] == points[i]);
        }
        lemma_slopes_to(front, q, slope, intercept);
        let p = points.last();
        assert(p == points[points.len() - 1]);
        if p.x != q.x {
            two_points_give_the_slope(p, q, slope, intercept);
        } else if exists|i: int| 0 <= i < points.len() && (#[trigger] points[i]).x != q.x {
            let i = choose|i: int| 0 <= i < points.len() && (#[trigger] points[i]).x != q.x;
            assert(front[i] == points[i]);
        }
    }
}

proof fn lemma_slopes_of(points: Seq<Point>, slope: int, intercept: int)
    requires
        forall|i: int| 0 <= i < points.len() ==> on_line(#[trigger] points[i], slope, intercept),
    ensures
        forall|i: int|
            0 <= i < reduce::slopes_of(points).len() ==> #[trigger] reduce::slopes_of(points)[i]
                == slope,
        (exists|i: int, j: int|
            0 <= i < j < points.len() && (#[trigger] points[i]).x != (#[trigger] points[j]).x)
            ==> reduce::slopes_of(points).len() > 0,
    decreases points.len(),
{
    if points.len() > 0 {
        let front = points.drop_last();
        let q = points.last();
        assert forall|i: int| 0 <= i < front.len() implies on_line(
            #[trigger] front[i],
            slope,
            intercept,
        ) by {
            assert(front[i] == points[i]);
        }
        assert(q == points[points.len() - 1]);
        lemma_slopes_of(front, slope, intercept);
        lemma_slopes_to(front, q, slope, intercept);
        let all = reduce::slopes_of(points);
        let before = reduce::slopes_of(front);
        let to = reduce::slopes_to(front, q);
        assert(all == before + to);
        assert forall|i: int| 0 <= i < all.len() implies #[trigger] all[i] == slope by {
            if i < before.len() {
                assert(all[i] == before[i]);
            } else {
                assert(all[i] == to[i - before.len()]);
            }
        }
        if exists|i: int, j: int|
            0 <= i < j < points.len() && (#[trigger] points[i]).x != (#[trigger] points[j]).x {
            let (i, j) = choose|i: int, j: int|
                0 <= i < j < points.len() && (#[trigger] points[i]).x != (#[trigger] points[j]).x;
            assert(front[i] == points[i]);
            if j < front.len() {
                assert(front[j] == points[j]);
            }
        }
    }
}

/// Points on a line give that line, whatever else they are, as long as two of them lie at
/// different times; and none of them is off it.
pub proof fn points_on_a_line_give_that_line(points: Seq<Point>, slope: int, intercept: int)
    requires
        forall|i: int| 0 <= i < points.len() ==> on_line(#[trigger] points[i], slope, intercept),
        exists|i: int, j: int|
            0 <= i < j < points.len() && (#[trigger] points[i]).x != (#[trigger] points[j]).x,
    ensures
        reduce::line_through(points) == Some(LineView { slope, intercept }),
        reduce::squares(points, LineView { slope, intercept }) == 0,
{
    lemma_slopes_of(points, slope, intercept);
    jam::laws::a_constant_is_its_own_median(reduce::slopes_of(points), slope);
    let heights = reduce::heights(points, slope);
    assert forall|i: int| 0 <= i < heights.len() implies #[trigger] heights[i] == intercept by {
        assert(on_line(points[i], slope, intercept));
        assert(reduce::drift_over(points[i].x as int, slope) == points[i].y - intercept);
    }
    jam::laws::a_constant_is_its_own_median(heights, intercept);
    lemma_no_residual(points, slope, intercept);
}

proof fn lemma_no_residual(points: Seq<Point>, slope: int, intercept: int)
    requires
        forall|i: int| 0 <= i < points.len() ==> on_line(#[trigger] points[i], slope, intercept),
    ensures
        reduce::squares(points, LineView { slope, intercept }) == 0,
    decreases points.len(),
{
    if points.len() > 0 {
        let front = points.drop_last();
        assert forall|i: int| 0 <= i < front.len() implies on_line(
            #[trigger] front[i],
            slope,
            intercept,
        ) by {
            assert(front[i] == points[i]);
        }
        lemma_no_residual(front, slope, intercept);
        assert(on_line(points[points.len() - 1], slope, intercept));
        let r = reduce::residual(points.last(), LineView { slope, intercept });
        assert(r == 0);
        assert(r * r == 0) by (nonlinear_arith)
            requires
                r == 0,
        ;
    }
}

/// Where every advertisement with a link up lands later by the same time than the one without
/// in its place, that time is the penalty, with its sign.
pub proof fn a_constant_delay_is_the_penalty(others: Seq<Sample>, slope: int, delay: int)
    requires
        reduce::suppression_of(others, slope) is Some,
        -1_000_000_000_000_000_000 <= delay <= 1_000_000_000_000_000_000,
        ({
            let inside = order::ranked(reduce::of_stream(others, Stream::ConnectedAdvert));
            let between = order::ranked(reduce::of_stream(others, Stream::Advert));
            forall|i: int|
                0 <= i < inside.len() && i < between.len() ==> reduce::flat_b(
                    #[trigger] inside[i],
                    slope,
                ) == reduce::flat_b(between[i], slope) + delay
        }),
    ensures
        ({
            let s = reduce::suppression_of(others, slope)->0;
            s.connected@ - s.free_running@ == delay
        }),
{
    let inside = order::ranked(reduce::of_stream(others, Stream::ConnectedAdvert));
    let between = order::ranked(reduce::of_stream(others, Stream::Advert));
    let n = if inside.len() <= between.len() {
        inside.len() as int
    } else {
        between.len() as int
    };
    let f = |s: Sample| reduce::flat_b(s, slope);
    let a = inside.take(n).map_values(f);
    let b = between.take(n).map_values(f);
    assert forall|i: int| 0 <= i < n implies #[trigger] a[i] == b[i] + delay by {
        assert(reduce::flat_b(inside[i], slope) == reduce::flat_b(between[i], slope) + delay);
    }
    lemma_least_shifts(a, b, delay);
    crate::time::of_undoes_the_view(
        crate::time::Duration { secs: 0, nanos: 0 },
        (if delay > 0 {
            delay
        } else {
            -delay
        }) as nat,
    );
    crate::time::of_undoes_the_view(crate::time::Duration { secs: 0, nanos: 0 }, 0);
}

proof fn lemma_least_shifts(a: Seq<int>, b: Seq<int>, delay: int)
    requires
        a.len() == b.len(),
        a.len() > 0,
        forall|i: int| 0 <= i < a.len() ==> #[trigger] a[i] == b[i] + delay,
    ensures
        order::least(a) is Some,
        order::least(b) is Some,
        order::least(a)->0 == order::least(b)->0 + delay,
{
    order::the_least_is_a_lower_bound(a);
    order::the_least_is_a_lower_bound(b);
    let i = choose|i: int| 0 <= i < a.len() && a[i] == order::least(a)->0;
    let j = choose|j: int| 0 <= j < b.len() && b[j] == order::least(b)->0;
    assert(a[i] == b[i] + delay);
    assert(a[j] == b[j] + delay);
}

/// The bracket over more of the reads is no wider: it only narrows as samples come in. The
/// steps are of one size, and one step more would go past the end.
pub proof fn a_bracket_only_narrows(reads: Seq<Sample>, slope: int, steps: nat, i: int, j: int)
    requires
        steps > 0,
        0 <= i <= j < reduce::converge_of(reads, slope, steps).len(),
    ensures
        ({
            let c = reduce::converge_of(reads, slope, steps);
            &&& c[j].1 <= c[i].1
            &&& c[i].0 == (i + 1) * c[0].0
            &&& c[0].0 > 0
            &&& c[c.len() - 1].0 <= reads.len() < c[c.len() - 1].0 + c[0].0
            &&& steps * c[0].0 <= reads.len() || c[0].0 == 1
        }),
{
    order::ranking_puts_everything_in_order(reads);
    let ordered = order::ranked(reads);
    let step = reduce::stride(ordered.len(), steps) as int;
    let len = ordered.len() as int;
    let c = reduce::converge_of(reads, slope, steps);
    let last = c.len() as int;
    vstd::arithmetic::div_mod::lemma_fundamental_div_mod(len, step);
    vstd::arithmetic::div_mod::lemma_mod_bound(len, step);
    assert(0 < (i + 1) * step <= (j + 1) * step <= last * step && last * step <= len && len < last
        * step + step) by (nonlinear_arith)
        requires
            0 <= i <= j < last,
            step >= 1,
            last == len / step,
            len == step * (len / step) + len % step,
            0 <= len % step < step,
    ;
    assert((0 + 1) * step == step) by (nonlinear_arith);
    assert((last - 1 + 1) * step == last * step) by (nonlinear_arith);
    lemma_least_of_prefix(ordered, slope, (i + 1) * step, (j + 1) * step);
    let q = len / steps as int;
    vstd::arithmetic::div_mod::lemma_fundamental_div_mod(len, steps as int);
    vstd::arithmetic::div_mod::lemma_mod_bound(len, steps as int);
    assert(steps * q <= len);
}

proof fn lemma_least_of_prefix(ordered: Seq<Sample>, slope: int, m: int, n: int)
    requires
        0 < m <= n <= ordered.len(),
    ensures
        reduce::least_a(ordered.take(n), slope)->0 <= reduce::least_a(ordered.take(m), slope)->0,
        reduce::least_b(ordered.take(n), slope)->0 <= reduce::least_b(ordered.take(m), slope)->0,
{
    lemma_prefix(
        ordered.take(m).map_values(|s: Sample| reduce::flat_a(s, slope)),
        ordered.take(n).map_values(|s: Sample| reduce::flat_a(s, slope)),
    );
    lemma_prefix(
        ordered.take(m).map_values(|s: Sample| reduce::flat_b(s, slope)),
        ordered.take(n).map_values(|s: Sample| reduce::flat_b(s, slope)),
    );
}

proof fn lemma_prefix(some: Seq<int>, more: Seq<int>)
    requires
        0 < some.len() <= more.len(),
        forall|i: int| 0 <= i < some.len() ==> #[trigger] some[i] == more[i],
    ensures
        order::least(more)->0 <= order::least(some)->0,
{
    order::the_least_is_a_lower_bound(some);
    order::the_least_is_a_lower_bound(more);
    let i = choose|i: int| 0 <= i < some.len() && some[i] == order::least(some)->0;
    assert(some[i] == more[i]);
}

/// The offset to apply is the middle of what a free-running advertisement costs.
pub proof fn the_offset_is_the_middle_of_what_an_advert_costs(
    c: Calibration,
    samples: Seq<Sample>,
    block: int,
    interval: int,
    undecoded: usize,
)
    requires
        reduce::is_calibration(c, samples, block, interval, undecoded),
    ensures
        ({
            let cost = reduce::staleness_entry(samples, block, Stream::Advert);
            &&& cost.len() == 1
            &&& cost[0].bracket.low@ <= cost[0].bracket.high@ ==> cost[0].bracket.low@
                + cost[0].bracket.high@ - 1 <= 2 * c.offset@ <= cost[0].bracket.low@
                + cost[0].bracket.high@
        }),
{
}

/// A drift is reported over three points or more, and is the slope of the line through them.
pub proof fn a_drift_takes_three_points(
    c: Calibration,
    samples: Seq<Sample>,
    block: int,
    interval: int,
    undecoded: usize,
)
    requires
        reduce::is_calibration(c, samples, block, interval, undecoded),
    ensures
        ({
            let points = reduce::capture_points(samples, block);
            &&& c.drift_ppm is Some <==> points.len() >= 3
            &&& c.drift_ppm matches Some(ppm) ==> {
                &&& reduce::line_through(points) matches Some(line) ==> ppm@ == line.slope
                &&& reduce::line_through(points) is None ==> ppm@ == 0
            }
        }),
{
}

/// The last sample is the latest: none landed later, and it is one of them unless all landed
/// before the origin.
pub proof fn no_sample_is_later_than_the_latest(samples: Seq<Sample>)
    ensures
        forall|i: int|
            0 <= i < samples.len() ==> (#[trigger] samples[i]).host <= reduce::latest(samples),
        reduce::latest(samples) == 0 || exists|i: int|
            0 <= i < samples.len() && (#[trigger] samples[i]).host == reduce::latest(samples),
        reduce::latest(samples) >= 0,
    decreases samples.len(),
{
    if samples.len() > 0 {
        let front = samples.drop_last();
        no_sample_is_later_than_the_latest(front);
        assert forall|i: int| 0 <= i < samples.len() implies (#[trigger] samples[i]).host
            <= reduce::latest(samples) by {
            if i < front.len() {
                assert(front[i] == samples[i]);
            }
        }
        assert(samples[samples.len() - 1] == samples.last());
        if samples.last().host <= reduce::latest(front) && reduce::latest(front) != 0 {
            let i = choose|i: int|
                0 <= i < front.len() && (#[trigger] front[i]).host == reduce::latest(front);
            assert(samples[i] == front[i]);
        }
    }
}

/// A floor has settled where its last step moved it by less than a twentieth of the bracket,
/// in either direction; with fewer than two steps it has not.
pub proof fn a_settled_floor_has_stopped_moving(c: Calibration)
    ensures
        c.advert_converge@.len() < 2 ==> !report::is_settled(c),
        c.advert_converge@.len() >= 2 ==> {
            let steps = c.advert_converge@;
            let last = steps[steps.len() - 1].value@;
            let before = steps[steps.len() - 2].value@;
            report::is_settled(c) <==> 20 * (last - before) < c.bracket_width@ && 20 * (before
                - last) < c.bracket_width@
        },
{
}

/// The answer is written in milliseconds, to the nearest thousandth: the offset to apply, and
/// the width of the bracket.
pub proof fn the_written_answer_is_the_nearest(page: Seq<char>, c: Calibration)
    ensures
        exists|offset: Seq<char>, width: Seq<char>|
            {
                &&& text::laws::has_text(
                    report::with_answer(page, c),
                    "offset to apply "@,
                    offset,
                    " ms, bracket "@,
                )
                &&& text::laws::has_text(
                    report::with_answer(page, c),
                    " ms, bracket "@,
                    width,
                    " ms\n"@,
                )
                &&& #[trigger] text::laws::is_figure(offset, c.offset@ as int, 1_000_000, 3, 1_000)
                &&& #[trigger] text::laws::is_figure(
                    width,
                    c.bracket_width@ as int,
                    1_000_000,
                    3,
                    1_000,
                )
            },
{
    let offset = text::fixed(c.offset@ as int, 1_000_000, 3);
    let width = text::fixed(c.bracket_width@ as int, 1_000_000, 3);
    text::laws::lemma_is_figure(c.offset@ as int, 1_000_000, 3);
    text::laws::lemma_is_figure(c.bracket_width@ as int, 1_000_000, 3);
    let p0 = Seq::<Seq<char>>::empty();
    let p1 = p0.push(page);
    text::laws::lemma_joined(p0, page);
    let p2 = p1.push("offset to apply "@);
    text::laws::lemma_joined(p1, "offset to apply "@);
    let p3 = p2.push(offset);
    text::laws::lemma_joined(p2, offset);
    let p4 = p3.push(" ms, bracket "@);
    text::laws::lemma_joined(p3, " ms, bracket "@);
    let p5 = p4.push(width);
    text::laws::lemma_joined(p4, width);
    let p6 = p5.push(" ms\n"@);
    text::laws::lemma_joined(p5, " ms\n"@);
    let one = "This is a path constant, calibrated once. It does not decay, and it is\n"@;
    let two = "not a time transfer — the time still comes from the advertisements.\n"@;
    let p7 = p6.push(one);
    text::laws::lemma_joined(p6, one);
    let p8 = p7.push(two);
    text::laws::lemma_joined(p7, two);
    assert(Seq::<char>::empty() + page =~= page);
    assert(text::laws::joined(p8) == report::with_answer(page, c));
    text::laws::lemma_part(p8, 2);
    text::laws::lemma_part(p8, 4);
}

/// A text is a sign and the figure nearest to the size of a number.
pub open spec fn is_signed_figure(
    s: Seq<char>,
    value: int,
    unit: int,
    places: int,
    scale: int,
) -> bool {
    &&& s.len() > 1
    &&& s[0] == (if value < 0 {
        '-'
    } else {
        '+'
    })
    &&& text::laws::is_figure(
        s.skip(1),
        if value < 0 {
            -value
        } else {
            value
        },
        unit,
        places,
        scale,
    )
}

/// A drift is written with its sign, to the nearest tenth of a part per million, and how far
/// the blocks scatter about it in milliseconds: the points are in halves of a nanosecond.
pub proof fn the_written_drift_is_the_nearest(page: Seq<char>, c: Calibration)
    requires
        c.drift_ppm is Some,
        c.drift_residual is Some,
        c.drift_residual->0@ >= 0,
    ensures
        exists|said: Seq<char>, spread: Seq<char>|
            {
                &&& text::laws::has_text(
                    report::with_drift(page, c),
                    "  the midpoints move at "@,
                    said,
                    " ppm, scattering "@,
                )
                &&& text::laws::has_text(
                    report::with_drift(page, c),
                    " ppm, scattering "@,
                    spread,
                    " ms rms about\n"@,
                )
                &&& #[trigger] is_signed_figure(said, c.drift_ppm->0@, 1_000_000_000, 1, 10)
                &&& #[trigger] text::laws::is_figure(
                    spread,
                    c.drift_residual->0@,
                    2_000_000,
                    3,
                    1_000,
                )
            },
{
    let said = text::fixed_with_sign(c.drift_ppm->0@, 1_000_000_000, 1);
    let spread = text::fixed(c.drift_residual->0@, 2_000_000, 3);
    text::laws::lemma_is_signed_figure(c.drift_ppm->0@, 1_000_000_000, 1);
    text::laws::lemma_is_figure(c.drift_residual->0@, 2_000_000, 3);
    let p0 = Seq::<Seq<char>>::empty();
    let p1 = p0.push(page);
    text::laws::lemma_joined(p0, page);
    let p2 = p1.push("  the midpoints move at "@);
    text::laws::lemma_joined(p1, "  the midpoints move at "@);
    let p3 = p2.push(said);
    text::laws::lemma_joined(p2, said);
    let p4 = p3.push(" ppm, scattering "@);
    text::laws::lemma_joined(p3, " ppm, scattering "@);
    let p5 = p4.push(spread);
    text::laws::lemma_joined(p4, spread);
    let p6 = p5.push(" ms rms about\n"@);
    text::laws::lemma_joined(p5, " ms rms about\n"@);
    let p7 = p6.push("  that line (Theil-Sen, so one bad block cannot own the fit).\n"@);
    text::laws::lemma_joined(p6, "  that line (Theil-Sen, so one bad block cannot own the fit).\n"@);
    let p8 = p7.push("\n"@);
    text::laws::lemma_joined(p7, "\n"@);
    assert(Seq::<char>::empty() + page =~= page);
    assert(text::laws::joined(p8) == report::with_drift(page, c));
    text::laws::lemma_part(p8, 2);
    text::laws::lemma_part(p8, 4);
    assert(is_signed_figure(said, c.drift_ppm->0@, 1_000_000_000, 1, 10));
}

/// A penalty is written with its sign: a plus where connected advertisements land later, a
/// minus where they land sooner.
pub proof fn a_written_penalty_says_which_is_later(page: Seq<char>, c: Calibration)
    requires
        c.suppression is Some,
    ensures
        ({
            let s = c.suppression->0;
            exists|said: Seq<char>| #[trigger]
                is_signed_figure(
                    said,
                    s.connected@ - s.free_running@,
                    1_000_000,
                    3,
                    1_000,
                ) && text::laws::has_text(
                    report::with_suppression(page, c),
                    "    penalty                "@,
                    text::pad_start(said, 8, ' '),
                    " ms\n\n"@,
                )
        }),
{
    let s = c.suppression->0;
    let said = text::fixed_with_sign(s.connected@ - s.free_running@, 1_000_000, 3);
    let column = text::pad_start(said, 8, ' ');
    text::laws::lemma_is_signed_figure(s.connected@ - s.free_running@, 1_000_000, 3);
    let p0 = Seq::<Seq<char>>::empty();
    let p1 = p0.push(page);
    text::laws::lemma_joined(p0, page);
    let p2 = p1.push("# Connected against free-running, at matched n\n\n"@);
    text::laws::lemma_joined(p1, "# Connected against free-running, at matched n\n\n"@);
    let p3 = p2.push("    connected    n="@);
    text::laws::lemma_joined(p2, "    connected    n="@);
    let p4 = p3.push(text::decimal_column(s.n as nat, 4));
    text::laws::lemma_joined(p3, text::decimal_column(s.n as nat, 4));
    let p5 = p4.push("   floor "@);
    text::laws::lemma_joined(p4, "   floor "@);
    let p6 = p5.push(text::fixed_column(s.connected@ as int, 1_000_000, 3, 8));
    text::laws::lemma_joined(p5, text::fixed_column(s.connected@ as int, 1_000_000, 3, 8));
    let p7 = p6.push(" ms\n"@);
    text::laws::lemma_joined(p6, " ms\n"@);
    let p8 = p7.push("    free-running n="@);
    text::laws::lemma_joined(p7, "    free-running n="@);
    let p9 = p8.push(text::decimal_column(s.n as nat, 4));
    text::laws::lemma_joined(p8, text::decimal_column(s.n as nat, 4));
    let p10 = p9.push("   floor "@);
    text::laws::lemma_joined(p9, "   floor "@);
    let p11 = p10.push(text::fixed_column(s.free_running@ as int, 1_000_000, 3, 8));
    text::laws::lemma_joined(p10, text::fixed_column(s.free_running@ as int, 1_000_000, 3, 8));
    let p12 = p11.push(" ms\n"@);
    text::laws::lemma_joined(p11, " ms\n"@);
    let p13 = p12.push("    penalty                "@);
    text::laws::lemma_joined(p12, "    penalty                "@);
    let p14 = p13.push(column);
    text::laws::lemma_joined(p13, column);
    let p15 = p14.push(" ms\n\n"@);
    text::laws::lemma_joined(p14, " ms\n\n"@);
    let p16 = p15.push("  Matched counts, because a minimum over fewer samples sits higher for\n"@);
    text::laws::lemma_joined(p15, "  Matched counts, because a minimum over fewer samples sits higher for\n"@);
    let p17 = p16.push("  that reason alone and would otherwise look like a slower path.\n\n"@);
    text::laws::lemma_joined(p16, "  that reason alone and would otherwise look like a slower path.\n\n"@);
    assert(Seq::<char>::empty() + page =~= page);
    assert(text::laws::joined(p17) == report::with_suppression(page, c));
    text::laws::lemma_part(p17, 13);
    assert(is_signed_figure(said, s.connected@ - s.free_running@, 1_000_000, 3, 1_000));
}

/// A bracket is written from its low end to its high one, in milliseconds to the nearest
/// thousandth.
pub proof fn a_written_bracket_is_the_nearest(bracket: jam::Bracket)
    ensures
        exists|low: Seq<char>, high: Seq<char>|
            {
                &&& jam::bracket_text(bracket) == #[trigger] (low + " to "@ + high + " ms"@)
                &&& text::laws::is_figure(low, bracket.low@ as int, 1_000_000, 3, 1_000)
                &&& text::laws::is_figure(high, bracket.high@ as int, 1_000_000, 3, 1_000)
            },
{
    text::laws::lemma_is_figure(bracket.low@ as int, 1_000_000, 3);
    text::laws::lemma_is_figure(bracket.high@ as int, 1_000_000, 3);
    let low = text::fixed(bracket.low@ as int, 1_000_000, 3);
    let high = text::fixed(bracket.high@ as int, 1_000_000, 3);
    assert(jam::bracket_text(bracket) == low + " to "@ + high + " ms"@);
}

/// A jump of the clock is said with its direction: a plus where the device's clock went ahead,
/// a minus where it fell back, in seconds to the nearest tenth, and when it came.
pub proof fn a_written_jump_says_which_way(at: crate::time::Duration, by: int)
    ensures
        exists|said: Seq<char>, when: Seq<char>, rest: Seq<char>|
            {
                &&& report::flaw_text(FlawView::ClockJumped { at, by }) == #[trigger] (
                "the device clock jumped "@ + said + " s at "@ + when + rest)
                &&& is_signed_figure(said, by, 1_000_000_000, 1, 10)
                &&& text::laws::is_figure(when, at@ as int, 1_000_000_000, 1, 10)
                &&& rest.len() > 0 && rest[0] == ' '
            },
{
    text::laws::lemma_is_signed_figure(by, 1_000_000_000, 1);
    text::laws::lemma_is_figure(at@ as int, 1_000_000_000, 1);
    let said = text::fixed_with_sign(by, 1_000_000_000, 1);
    let when = text::fixed(at@ as int, 1_000_000_000, 1);
    reveal_strlit(
        " s in — a midnight wrap or a re-jam. Every figure here is a minimum, so one such step becomes the answer; split the capture and re-run",
    );
    let rest =
        " s in — a midnight wrap or a re-jam. Every figure here is a minimum, so one such step becomes the answer; split the capture and re-run"@;
    assert(report::flaw_text(FlawView::ClockJumped { at, by }) == "the device clock jumped "@ + said
        + " s at "@ + when + rest);
}

/// A capture of what are no round trips says how many of how many were too short, and how
/// short the shortest was, in milliseconds to the nearest thousandth.
pub proof fn written_short_trips_read_back(short: nat, total: nat, shortest: crate::time::Duration)
    ensures
        exists|some: Seq<char>, all: Seq<char>, least: Seq<char>, rest: Seq<char>|
            {
                &&& report::flaw_text(FlawView::NotRoundTrips { short, total, shortest })
                    == #[trigger] (some + " of "@ + all
                    + " round trips came back in under one connection interval, the shortest in "@
                    + least + rest)
                &&& text::laws::all_digits(some)
                &&& text::laws::numeral(some) == short
                &&& text::laws::all_digits(all)
                &&& text::laws::numeral(all) == total
                &&& text::laws::is_figure(least, shortest@ as int, 1_000_000, 3, 1_000)
            },
{
    text::laws::a_decimal_reads_back(short);
    text::laws::a_decimal_reads_back(total);
    text::laws::lemma_is_figure(shortest@ as int, 1_000_000, 3);
    let some = text::decimal(short);
    let all = text::decimal(total);
    let least = text::fixed(shortest@ as int, 1_000_000, 3);
    let rest =
        " ms, which a real one cannot do. A read taken while subscribed is resolved by the notification stream, not by a Read Response, so its timing is fiction — re-capture without subscribing"@;
    assert(report::flaw_text(FlawView::NotRoundTrips { short, total, shortest }) == some + " of "@
        + all + " round trips came back in under one connection interval, the shortest in "@ + least
        + rest);
}

/// A block's line has its start in seconds, its round trips, its width and its shortest round
/// trip in milliseconds, in that order, and says whether it contradicts itself.
pub proof fn a_blocks_line_reads_back(page: Seq<char>, b: reduce::BlockReport)
    ensures
        exists|at: Seq<char>, n: Seq<char>, width: Seq<char>, least: Seq<char>|
            {
                &&& report::with_block(page, b) == #[trigger] (page + "  "@ + text::pad_start(
                    at,
                    6,
                    ' ',
                ) + " "@ + text::pad_start(n, 6, ' ') + " "@ + text::pad_start(width, 9, ' ') + " "@
                    + text::pad_start(least, 10, ' ')) + (if b.contradictory {
                    "  contradictory\n"@
                } else {
                    "\n"@
                })
                &&& text::laws::is_figure(at, b.at@ as int, 1_000_000_000, 0, 1)
                &&& text::laws::all_digits(n)
                &&& text::laws::numeral(n) == b.n
                &&& text::laws::is_plain_figure(width, b.width as int, 1_000_000, 3, 1_000)
                &&& text::laws::is_plain_figure(least, b.shortest_rtt as int, 1_000_000, 3, 1_000)
            },
{
    text::laws::lemma_is_figure(b.at@ as int, 1_000_000_000, 0);
    text::laws::a_decimal_reads_back(b.n as nat);
    text::laws::lemma_is_plain_figure(b.width as int, 1_000_000, 3);
    text::laws::lemma_is_plain_figure(b.shortest_rtt as int, 1_000_000, 3);
    let at = text::fixed(b.at@ as int, 1_000_000_000, 0);
    let n = text::decimal(b.n as nat);
    let width = text::fixed(b.width as int, 1_000_000, 3);
    let least = text::fixed(b.shortest_rtt as int, 1_000_000, 3);
    assert(report::with_block(page, b) == (page + "  "@ + text::pad_start(at, 6, ' ') + " "@
        + text::pad_start(n, 6, ' ') + " "@ + text::pad_start(width, 9, ' ') + " "@
        + text::pad_start(least, 10, ' ')) + (if b.contradictory {
        "  contradictory\n"@
    } else {
        "\n"@
    }));
}

/// A line of a convergence has how many samples, and the figure over them in milliseconds.
pub proof fn a_steps_line_reads_back(page: Seq<char>, step: reduce::Step)
    ensures
        exists|n: Seq<char>, value: Seq<char>|
            {
                &&& report::with_step(page, step) == #[trigger] (page + "  "@ + text::pad_start(
                    n,
                    6,
                    ' ',
                ) + " "@ + text::pad_start(value, 9, ' ') + "\n"@)
                &&& text::laws::all_digits(n)
                &&& text::laws::numeral(n) == step.n
                &&& text::laws::is_plain_figure(value, step.value@, 1_000_000, 3, 1_000)
            },
        exists|n: Seq<char>, value: Seq<char>|
            {
                &&& report::with_floor(page, step) == #[trigger] (page + "    n="@
                    + text::pad_start(n, 5, ' ') + "   floor "@ + text::pad_start(value, 8, ' ')
                    + " ms\n"@)
                &&& text::laws::all_digits(n)
                &&& text::laws::numeral(n) == step.n
                &&& text::laws::is_plain_figure(value, step.value@, 1_000_000, 3, 1_000)
            },
{
    text::laws::a_decimal_reads_back(step.n as nat);
    text::laws::lemma_is_plain_figure(step.value@, 1_000_000, 3);
    let n = text::decimal(step.n as nat);
    let value = text::fixed(step.value@, 1_000_000, 3);
    assert(report::with_step(page, step) == page + "  "@ + text::pad_start(n, 6, ' ') + " "@
        + text::pad_start(value, 9, ' ') + "\n"@);
    assert(report::with_floor(page, step) == page + "    n="@ + text::pad_start(n, 5, ' ')
        + "   floor "@ + text::pad_start(value, 8, ' ') + " ms\n"@);
}

/// The report opens with how many round trips there were, over how long, and with how many
/// payloads did not decode, where some did not.
pub proof fn the_opening_reads_back(page: Seq<char>, c: Calibration)
    ensures
        exists|n: Seq<char>, span: Seq<char>, failed: Seq<char>|
            {
                &&& report::with_heading(page, c) == #[trigger] (page + n + " round trips over "@
                    + span + " s\n"@ + failed) + "\n"@
                &&& text::laws::all_digits(n)
                &&& text::laws::numeral(n) == c.round_trips
                &&& text::laws::is_figure(span, c.span@ as int, 1_000_000_000, 0, 1)
                &&& c.undecoded == 0 <==> failed.len() == 0
                &&& c.undecoded > 0 ==> text::laws::has_number(
                    failed,
                    "  "@,
                    c.undecoded as int,
                    " payload(s) did not decode\n"@,
                )
            },
        exists|least: Seq<char>, some: Seq<char>, all: Seq<char>|
            {
                &&& report::with_round_trips(page, c) == #[trigger] (page
                    + "# Are these round trips\n\n"@ + "  shortest "@ + least + " ms; "@ + some
                    + " of "@ + all) + " under one connection interval, which is\n"@
                    + "  the least a real one can take.\n\n"@
                &&& text::laws::is_figure(least, c.shortest_rtt@ as int, 1_000_000, 3, 1_000)
                &&& text::laws::all_digits(some)
                &&& text::laws::numeral(some) == c.short_rtts
                &&& text::laws::all_digits(all)
                &&& text::laws::numeral(all) == c.round_trips
            },
{
    text::laws::a_decimal_reads_back(c.round_trips as nat);
    text::laws::a_decimal_reads_back(c.short_rtts as nat);
    text::laws::a_decimal_reads_back(c.undecoded as nat);
    text::laws::lemma_is_figure(c.span@ as int, 1_000_000_000, 0);
    text::laws::lemma_is_figure(c.shortest_rtt@ as int, 1_000_000, 3);
    let n = text::decimal(c.round_trips as nat);
    let span = text::fixed(c.span@ as int, 1_000_000_000, 0);
    let none = Seq::<char>::empty();
    let failed = if c.undecoded > 0 {
        none + "  "@ + text::decimal(c.undecoded as nat) + " payload(s) did not decode\n"@ + none
    } else {
        none
    };
    if c.undecoded > 0 {
        assert(failed == none + "  "@ + text::decimal(c.undecoded as nat)
            + " payload(s) did not decode\n"@ + none);
        assert(failed.len() > 0);
    }
    assert(report::with_heading(page, c) =~= (page + n + " round trips over "@ + span + " s\n"@
        + failed) + "\n"@);
    let least = text::fixed(c.shortest_rtt@ as int, 1_000_000, 3);
    let some = text::decimal(c.short_rtts as nat);
    assert(report::with_round_trips(page, c) =~= (page + "# Are these round trips\n\n"@
        + "  shortest "@ + least + " ms; "@ + some + " of "@ + n)
        + " under one connection interval, which is\n"@ + "  the least a real one can take.\n\n"@);
}

/// A stream's line has its name, how many readings it had and what the least delayed of them
/// cost.
pub proof fn a_streams_line_reads_back(page: Seq<char>, s: reduce::Staleness)
    ensures
        exists|n: Seq<char>|
            {
                &&& report::with_cost(page, s) == #[trigger] (page + "  "@ + text::pad_start(
                    jam::stream_label(s.stream),
                    22,
                    ' ',
                ) + " "@ + text::pad_start(n, 7, ' ') + "    "@) + jam::bracket_text(s.bracket)
                    + "\n"@
                &&& text::laws::all_digits(n)
                &&& text::laws::numeral(n) == s.n
            },
{
    text::laws::a_decimal_reads_back(s.n as nat);
    let n = text::decimal(s.n as nat);
    assert(report::with_cost(page, s) == (page + "  "@ + text::pad_start(
        jam::stream_label(s.stream),
        22,
        ' ',
    ) + " "@ + text::pad_start(n, 7, ' ') + "    "@) + jam::bracket_text(s.bracket) + "\n"@);
}

/// A page goes on from another: it begins with all of it.
pub open spec fn goes_on_from(page: Seq<char>, more: Seq<char>) -> bool {
    page.len() <= more.len() && more.take(page.len() as int) == page
}

proof fn lemma_goes_on(a: Seq<char>, b: Seq<char>, c: Seq<char>)
    requires
        goes_on_from(a, b),
        goes_on_from(b, c),
    ensures
        goes_on_from(a, c),
{
    assert(c.take(a.len() as int) =~= b.take(a.len() as int));
}

proof fn lemma_block_rows(page: Seq<char>, rows: Seq<reduce::BlockReport>, i: int)
    requires
        0 <= i < rows.len(),
    ensures
        goes_on_from(page, report::with_block_rows(page, rows)),
        goes_on_from(
            report::with_block(report::with_block_rows(page, rows.take(i)), rows[i]),
            report::with_block_rows(page, rows),
        ),
    decreases rows.len(),
{
    let front = rows.drop_last();
    let before = report::with_block_rows(page, front);
    let all = report::with_block_rows(page, rows);
    assert(all.take(before.len() as int) =~= before);
    if front.len() == 0 {
        reveal_with_fuel(report::with_block_rows, 2);
        assert(before == page);
    }
    if i < front.len() {
        lemma_block_rows(page, front, i);
        assert(front.take(i) =~= rows.take(i));
        assert(front[i] == rows[i]);
        lemma_goes_on(page, before, all);
        lemma_goes_on(
            report::with_block(report::with_block_rows(page, front.take(i)), front[i]),
            before,
            all,
        );
    } else {
        if front.len() > 0 {
            lemma_block_rows(page, front, 0);
            lemma_goes_on(page, before, all);
        }
        assert(rows.take(i) =~= front);
        assert(rows[i] == rows.last());
        assert(all.take(all.len() as int) =~= all);
    }
}

proof fn lemma_step_rows(page: Seq<char>, rows: Seq<reduce::Step>, i: int)
    requires
        0 <= i < rows.len(),
    ensures
        goes_on_from(page, report::with_steps(page, rows)),
        goes_on_from(
            report::with_step(report::with_steps(page, rows.take(i)), rows[i]),
            report::with_steps(page, rows),
        ),
    decreases rows.len(),
{
    let front = rows.drop_last();
    let before = report::with_steps(page, front);
    let all = report::with_steps(page, rows);
    assert(all.take(before.len() as int) =~= before);
    if front.len() == 0 {
        reveal_with_fuel(report::with_steps, 2);
        assert(before == page);
    }
    if i < front.len() {
        lemma_step_rows(page, front, i);
        assert(front.take(i) =~= rows.take(i));
        assert(front[i] == rows[i]);
        lemma_goes_on(page, before, all);
        lemma_goes_on(
            report::with_step(report::with_steps(page, front.take(i)), front[i]),
            before,
            all,
        );
    } else {
        if front.len() > 0 {
            lemma_step_rows(page, front, 0);
            lemma_goes_on(page, before, all);
        }
        assert(rows.take(i) =~= front);
        assert(rows[i] == rows.last());
        assert(all.take(all.len() as int) =~= all);
    }
}

proof fn lemma_stream_rows(page: Seq<char>, rows: Seq<reduce::Staleness>, i: int)
    requires
        0 <= i < rows.len(),
    ensures
        goes_on_from(page, report::with_cost_rows(page, rows)),
        goes_on_from(
            report::with_cost(report::with_cost_rows(page, rows.take(i)), rows[i]),
            report::with_cost_rows(page, rows),
        ),
    decreases rows.len(),
{
    let front = rows.drop_last();
    let before = report::with_cost_rows(page, front);
    let all = report::with_cost_rows(page, rows);
    assert(all.take(before.len() as int) =~= before);
    if front.len() == 0 {
        reveal_with_fuel(report::with_cost_rows, 2);
        assert(before == page);
    }
    if i < front.len() {
        lemma_stream_rows(page, front, i);
        assert(front.take(i) =~= rows.take(i));
        assert(front[i] == rows[i]);
        lemma_goes_on(page, before, all);
        lemma_goes_on(
            report::with_cost(report::with_cost_rows(page, front.take(i)), front[i]),
            before,
            all,
        );
    } else {
        if front.len() > 0 {
            lemma_stream_rows(page, front, 0);
            lemma_goes_on(page, before, all);
        }
        assert(rows.take(i) =~= front);
        assert(rows[i] == rows.last());
        assert(all.take(all.len() as int) =~= all);
    }
}

proof fn lemma_floor_rows(page: Seq<char>, rows: Seq<reduce::Step>, i: int)
    requires
        0 <= i < rows.len(),
    ensures
        goes_on_from(page, report::with_floors(page, rows)),
        goes_on_from(
            report::with_floor(report::with_floors(page, rows.take(i)), rows[i]),
            report::with_floors(page, rows),
        ),
    decreases rows.len(),
{
    let front = rows.drop_last();
    let before = report::with_floors(page, front);
    let all = report::with_floors(page, rows);
    assert(all.take(before.len() as int) =~= before);
    if front.len() == 0 {
        reveal_with_fuel(report::with_floors, 2);
        assert(before == page);
    }
    if i < front.len() {
        lemma_floor_rows(page, front, i);
        assert(front.take(i) =~= rows.take(i));
        assert(front[i] == rows[i]);
        lemma_goes_on(page, before, all);
        lemma_goes_on(
            report::with_floor(report::with_floors(page, front.take(i)), front[i]),
            before,
            all,
        );
    } else {
        if front.len() > 0 {
            lemma_floor_rows(page, front, 0);
            lemma_goes_on(page, before, all);
        }
        assert(rows.take(i) =~= front);
        assert(rows[i] == rows.last());
        assert(all.take(all.len() as int) =~= all);
    }
}

/// Every row is written, in order: a list of rows goes on from any row of it written behind the
/// ones before.
pub proof fn every_row_is_written_in_order(
    page: Seq<char>,
    blocks: Seq<reduce::BlockReport>,
    steps: Seq<reduce::Step>,
    costs: Seq<reduce::Staleness>,
    i: int,
)
    ensures
        0 <= i < blocks.len() ==> goes_on_from(
            report::with_block(report::with_block_rows(page, blocks.take(i)), blocks[i]),
            report::with_block_rows(page, blocks),
        ),
        0 <= i < steps.len() ==> goes_on_from(
            report::with_step(report::with_steps(page, steps.take(i)), steps[i]),
            report::with_steps(page, steps),
        ),
        0 <= i < steps.len() ==> goes_on_from(
            report::with_floor(report::with_floors(page, steps.take(i)), steps[i]),
            report::with_floors(page, steps),
        ),
        0 <= i < costs.len() ==> goes_on_from(
            report::with_cost(report::with_cost_rows(page, costs.take(i)), costs[i]),
            report::with_cost_rows(page, costs),
        ),
{
    if 0 <= i < blocks.len() {
        lemma_block_rows(page, blocks, i);
    }
    if 0 <= i < steps.len() {
        lemma_step_rows(page, steps, i);
        lemma_floor_rows(page, steps, i);
    }
    if 0 <= i < costs.len() {
        lemma_stream_rows(page, costs, i);
    }
}

/// A floor that has settled is said to have, and one that has not is said not to have; nothing
/// is said of blocks that contradict themselves where there are none, and of a comparison
/// where there is none.
pub proof fn what_is_not_so_is_not_said(page: Seq<char>, c: Calibration, settled: Calibration)
    requires
        c.advert_converge == settled.advert_converge,
        !report::is_settled(c),
        report::is_settled(settled),
    ensures
        report::with_settling(page, c) != report::with_settling(page, settled),
        c.suppression is None ==> report::with_suppression(page, c) == page,
        c.contradictory == 0 ==> report::with_blocks(page, c) == report::with_block_rows(
            page + "# The bracket, per block\n\n"@ + "   at s      n     width    min rtt\n"@,
            c.blocks@,
        ) + "\n"@,
{
    let rows = report::with_floors(
        page + "# Has the advertisement floor settled\n\n"@,
        c.advert_converge@,
    ) + "\n"@;
    let n = rows.len() as int;
    reveal_strlit("  Settled: the last step moved it by under 0.05 of the bracket.\n");
    reveal_strlit("  NOT settled. Still falling means the true staleness is *lower* than\n");
    assert(report::with_settling(page, settled)[n + 2] == 'S');
    assert(report::with_settling(page, c)[n + 2] == 'N');
}

/// Taking the drift out leaves the offset as it was at the origin: where the device's clock was
/// ahead by `theta` there and has gained by the slope since, a round trip's bounds are over
/// that offset by its two legs.
pub proof fn taking_out_the_drift_leaves_the_offset(
    s: Sample,
    slope: int,
    theta: int,
    up: int,
    down: int,
)
    requires
        s.a matches Some(a) && a == theta + reduce::drift_over(s.host as int, slope) + up,
        s.b == down - (theta + reduce::drift_over(s.host as int, slope)),
    ensures
        reduce::flat_a(s, slope) == theta + up,
        reduce::flat_b(s, slope) == down - theta,
{
}

/// A block stands where the offset is: where both legs of every round trip took as long, its
/// middle is the offset and its width is the round trip.
pub proof fn a_block_stands_where_the_offset_is(
    rows: Seq<Sample>,
    block: int,
    theta: int,
    leg: int,
)
    requires
        rows.len() > 0,
        -1_000_000_000_000_000_000 <= theta <= 1_000_000_000_000_000_000,
        0 <= leg <= 1_000_000_000_000_000_000,
        forall|i: int|
            0 <= i < rows.len() ==> (#[trigger] rows[i]).a == Some((theta + leg) as i128)
                && rows[i].b == leg - theta && rows[i].rtt == Some((2 * leg) as i128),
    ensures
        ({
            let found = reduce::report_of(rows, block);
            &&& found.midpoint == 2 * theta
            &&& found.width == 2 * leg
            &&& found.shortest_rtt == 2 * leg
            &&& !found.contradictory
        }),
{
    let a = rows.map_values(|s: Sample| reduce::flat_a(s, 0));
    let b = rows.map_values(|s: Sample| reduce::flat_b(s, 0));
    let r = rows.map_values(|s: Sample| s.rtt->0 as int);
    assert forall|i: int| 0 <= i < rows.len() implies #[trigger] a[i] == theta + leg && b[i] == leg
        - theta && r[i] == 2 * leg by {
        assert(rows[i].a == Some((theta + leg) as i128));
        assert(rows[i].host * 0 == 0);
    }
    order::the_least_is_a_lower_bound(a);
    order::the_least_is_a_lower_bound(b);
    order::the_least_is_a_lower_bound(r);
    let i = choose|i: int| 0 <= i < a.len() && a[i] == order::least(a)->0;
    let j = choose|j: int| 0 <= j < b.len() && b[j] == order::least(b)->0;
    let k = choose|k: int| 0 <= k < r.len() && r[k] == order::least(r)->0;
    assert(a[j] == theta + leg && a[k] == theta + leg);
}

/// Groups run together again.
pub open spec fn rejoined(groups: Seq<Seq<Sample>>) -> Seq<Sample>
    decreases groups.len(),
{
    if groups.len() == 0 {
        Seq::empty()
    } else {
        rejoined(groups.drop_last()) + groups.last()
    }
}

/// The block that the last of some reads falls in.
pub open spec fn key_of(rows: Seq<Sample>, block: int) -> int {
    reduce::block_key(rows.last().host as int, block)
}

/// There is a read, and all of them fall in one block.
pub open spec fn in_one_block(rows: Seq<Sample>, block: int) -> bool {
    rows.len() > 0 && forall|i: int|
        0 <= i < rows.len() ==> reduce::block_key((#[trigger] rows[i]).host as int, block)
            == key_of(rows, block)
}

/// Each group is in one block, and the next in another.
pub open spec fn split_by_block(gs: Seq<Seq<Sample>>, block: int) -> bool {
    &&& forall|g: int| 0 <= g < gs.len() ==> in_one_block(#[trigger] gs[g], block)
    &&& forall|g: int, h: int|
        0 <= g < gs.len() && h == g + 1 && h < gs.len() ==> key_of(#[trigger] gs[g], block)
            != key_of(#[trigger] gs[h], block)
}

/// Blocks split the reads where the block changes and nowhere else: run together they are the
/// reads again, the reads of one are all in it, and the next is another.
pub proof fn blocks_split_the_reads_where_the_block_changes(reads: Seq<Sample>, block: int)
    ensures
        rejoined(reduce::groups(reads, block)) == reads,
        split_by_block(reduce::groups(reads, block), block),
    decreases reads.len(),
{
    if reads.len() > 0 {
        let front = reads.drop_last();
        blocks_split_the_reads_where_the_block_changes(front, block);
        let before = reduce::groups(front, block);
        let next = reads.last();
        assert(front.push(next) =~= reads);
        if before.len() > 0 && key_of(before.last(), block) == reduce::block_key(
            next.host as int,
            block,
        ) {
            lemma_group_grows(before, next, block);
        } else {
            lemma_group_more(before, next, block);
        }
    } else {
        assert(rejoined(reduce::groups(reads, block)) =~= reads);
    }
}

proof fn lemma_group_grows(before: Seq<Seq<Sample>>, next: Sample, block: int)
    requires
        split_by_block(before, block),
        before.len() > 0,
        key_of(before.last(), block) == reduce::block_key(next.host as int, block),
    ensures
        ({
            let gs = before.update(before.len() - 1, before.last().push(next));
            split_by_block(gs, block) && rejoined(gs) == rejoined(before).push(next)
        }),
{
    let n = before.len() - 1;
    let grown = before.last().push(next);
    let gs = before.update(n, grown);
    assert(before[n] == before.last());
    assert(in_one_block(grown, block)) by {
        assert forall|i: int| 0 <= i < grown.len() implies reduce::block_key(
            (#[trigger] grown[i]).host as int,
            block,
        ) == key_of(grown, block) by {
            if i < before.last().len() {
                assert(grown[i] == before.last()[i]);
            }
        }
    }
    assert(gs.drop_last() =~= before.drop_last());
    assert(rejoined(gs) =~= rejoined(before).push(next));
}

proof fn lemma_group_more(before: Seq<Seq<Sample>>, next: Sample, block: int)
    requires
        split_by_block(before, block),
        before.len() > 0 ==> key_of(before.last(), block) != reduce::block_key(
            next.host as int,
            block,
        ),
    ensures
        ({
            let gs = before.push(seq![next]);
            split_by_block(gs, block) && rejoined(gs) == rejoined(before).push(next)
        }),
{
    let gs = before.push(seq![next]);
    assert(in_one_block(seq![next], block));
    assert(gs.drop_last() =~= before);
    assert(rejoined(gs) =~= rejoined(before).push(next));
    if before.len() > 0 {
        assert(before[before.len() - 1] == before.last());
    }
}

/// The middle of a bracket is as far from one end as from the other, to a nanosecond, and its
/// width is from the one to the other.
pub proof fn the_middle_is_as_far_from_either_end(bracket: jam::Bracket)
    ensures
        bracket.low@ <= bracket.high@ ==> bracket.low@ + jam::bracket_span(bracket)
            == bracket.high@,
        bracket.low@ <= bracket.high@ ==> 2 * jam::middle_of(bracket) <= bracket.low@
            + bracket.high@ <= 2 * jam::middle_of(bracket) + 1,
        bracket.low@ > bracket.high@ ==> jam::bracket_span(bracket) == 0,
{
}

/// A penalty is positive where connected advertisements land later, and negative where they
/// land sooner: a delay that is the same for all of them is the penalty.
pub proof fn a_penalty_says_which_lands_later(others: Seq<Sample>, slope: int, delay: int)
    requires
        reduce::suppression_of(others, slope) is Some,
        -1_000_000_000_000_000_000 <= delay <= 1_000_000_000_000_000_000,
        ({
            let inside = order::ranked(reduce::of_stream(others, Stream::ConnectedAdvert));
            let between = order::ranked(reduce::of_stream(others, Stream::Advert));
            forall|i: int|
                0 <= i < inside.len() && i < between.len() ==> reduce::flat_b(
                    #[trigger] inside[i],
                    slope,
                ) == reduce::flat_b(between[i], slope) + delay
        }),
    ensures
        reduce::penalty_of(reduce::suppression_of(others, slope)->0) == delay,
{
    a_constant_delay_is_the_penalty(others, slope, delay);
}

} // verus!
