//! What holds of every reduction.

use vstd::prelude::*;

use crate::order::{self, Ranked};
use crate::jam::reduce;
use crate::jam;
use crate::jam::reduce::{BlockReport, Calibration, Point};
use crate::jam::{Sample, Stream, REACH};
use crate::time::Duration;

verus! {

/// A round trip whose two legs both took time cannot make a bracket impossible: where
/// one offset satisfies every sample of a block, the block's width is not negative.
pub proof fn honest_blocks_are_possible(rows: Seq<Sample>, theta: int)
    requires
        rows.len() > 0,
        forall|i: int|
            0 <= i < rows.len() ==> (#[trigger] rows[i]).a is Some && -rows[i].b <= theta
                <= rows[i].a->0,
    ensures
        reduce::width_of(rows) >= 0,
{
    let fa = |s: Sample| reduce::flat_a(s, 0);
    let fb = |s: Sample| reduce::flat_b(s, 0);
    let va = rows.map_values(fa);
    let vb = rows.map_values(fb);
    order::the_least_is_a_lower_bound(va);
    order::the_least_is_a_lower_bound(vb);
    let i = choose|i: int| 0 <= i < va.len() && va[i] == order::least(va)->0;
    let j = choose|j: int| 0 <= j < vb.len() && vb[j] == order::least(vb)->0;
    assert(rows[i].host * 0 == 0 && rows[j].host * 0 == 0);
    assert(va[i] == rows[i].a->0);
    assert(vb[j] == rows[j].b);
}

/// Where every value of one collection is a value of another, the other's least is no
/// greater.
proof fn lemma_least_of_more(some: Seq<int>, more: Seq<int>)
    requires
        some.len() > 0,
        forall|i: int| 0 <= i < some.len() ==> more.contains(#[trigger] some[i]),
    ensures
        order::least(some) is Some,
        order::least(more) is Some,
        order::least(more)->0 <= order::least(some)->0,
{
    order::the_least_is_a_lower_bound(some);
    order::the_least_is_a_lower_bound(more);
    let i = choose|i: int| 0 <= i < some.len() && some[i] == order::least(some)->0;
    assert(more.contains(some[i]));
    let j = choose|j: int| 0 <= j < more.len() && more[j] == some[i];
    assert(order::least(more)->0 <= more[j]);
}

/// A stream's samples are among all of them.
proof fn lemma_of_stream_is_part(samples: Seq<Sample>, stream: Stream)
    ensures
        forall|i: int|
            0 <= i < reduce::of_stream(samples, stream).len() ==> samples.contains(
                #[trigger] reduce::of_stream(samples, stream)[i],
            ),
    decreases samples.len(),
{
    if samples.len() > 0 {
        let front = samples.drop_last();
        lemma_of_stream_is_part(front, stream);
        let part = reduce::of_stream(samples, stream);
        assert forall|i: int| 0 <= i < part.len() implies samples.contains(#[trigger] part[i]) by {
            if i < reduce::of_stream(front, stream).len() {
                assert(front.contains(reduce::of_stream(front, stream)[i]));
                let k = choose|k: int| 0 <= k < front.len() && front[k] == reduce::of_stream(front, stream)[i];
                assert(samples[k] == part[i]);
            } else {
                assert(samples[samples.len() - 1] == part[i]);
            }
        }
    }
}

/// No stream of a capture that is not empty has a lower floor than the pooled one.
proof fn lemma_floor_bound(samples: Seq<Sample>, block: int, stream: Stream)
    requires
        reduce::rows_of(samples, block, stream).len() > 0,
    ensures
        ({
            let slope = reduce::capture_slope(samples, block);
            &&& reduce::least_b(reduce::rows_of(samples, block, stream), slope) is Some
            &&& reduce::lower_best(samples, block) <= reduce::least_b(reduce::rows_of(samples, block, stream), slope)->0
        }),
{
    let slope = reduce::capture_slope(samples, block);
    let f = |s: Sample| reduce::flat_b(s, slope);
    let rows = reduce::rows_of(samples, block, stream);
    let values = rows.map_values(f);
    let reads = reduce::capture_reads(samples, block);
    let others = reduce::one_way_only(samples);
    order::the_least_is_a_lower_bound(values);
    order::the_least_is_a_lower_bound(reads.map_values(f));
    order::the_least_is_a_lower_bound(others.map_values(f));
    if stream != Stream::Read {
        lemma_of_stream_is_part(others, stream);
        assert forall|i: int| 0 <= i < values.len() implies others.map_values(f).contains(
            #[trigger] values[i],
        ) by {
            assert(others.contains(rows[i]));
            let k = choose|k: int| 0 <= k < others.len() && others[k] == rows[i];
            assert(others.map_values(f)[k] == values[i]);
        }
        lemma_least_of_more(values, others.map_values(f));
    }
}

/// A count of nanoseconds within the range of a duration is the span it is turned into.
proof fn lemma_span(nanos: int)
    requires
        nanos <= crate::time::MAX_NANOS,
    ensures
        reduce::span_of(nanos)@ == (if nanos > 0 {
            nanos
        } else {
            0
        }),
        reduce::span_of(nanos).wf(),
{
    if nanos > 0 {
        crate::time::of_undoes_the_view(Duration { secs: 0, nanos: 0 }, nanos as nat);
    }
}

proof fn lemma_of_stream_is_pure(samples: Seq<Sample>, stream: Stream)
    ensures
        forall|i: int|
            0 <= i < reduce::of_stream(samples, stream).len() ==> (#[trigger] reduce::of_stream(
                samples,
                stream,
            )[i]).stream == stream,
    decreases samples.len(),
{
    if samples.len() > 0 {
        lemma_of_stream_is_pure(samples.drop_last(), stream);
    }
}

/// The floors of round trips, whatever the drift, are within reach.
proof fn lemma_plain_bound(rows: Seq<Sample>)
    requires
        reduce::all_reads(rows),
    ensures
        reduce::least_a(rows, 0) matches Some(a) ==> -2 * REACH <= a <= 2 * REACH,
        reduce::least_b(rows, 0) matches Some(b) ==> -2 * REACH <= b <= 2 * REACH,
{
    let fa = |s: Sample| reduce::flat_a(s, 0);
    let fb = |s: Sample| reduce::flat_b(s, 0);
    let va = rows.map_values(fa);
    let vb = rows.map_values(fb);
    order::the_least_is_a_lower_bound(va);
    order::the_least_is_a_lower_bound(vb);
    if rows.len() > 0 {
        let i = choose|i: int| 0 <= i < va.len() && va[i] == order::least(va)->0;
        let j = choose|j: int| 0 <= j < vb.len() && vb[j] == order::least(vb)->0;
        assert(reduce::is_read(rows[i]) && reduce::is_read(rows[j]));
        assert(rows[i].host * 0 == 0 && rows[j].host * 0 == 0) by (nonlinear_arith);
        assert(va[i] == reduce::flat_a(rows[i], 0));
        assert(vb[j] == reduce::flat_b(rows[j], 0));
    }
}

/// Every staleness bracket whose upper end is a duration has both ends where the arithmetic
/// puts them, not where a clamp does, and every one of them has the same width: where a
/// bracket starts is all that tells one stream from another.
pub proof fn every_bracket_has_the_same_width(
    samples: Seq<Sample>,
    block: int,
    interval: int,
    stream: Stream,
)
    requires
        reduce::flaw_of(samples, block, interval) is None,
        reduce::rows_of(samples, block, stream).len() > 0,
        reduce::least_b(
            reduce::rows_of(samples, block, stream),
            reduce::capture_slope(samples, block),
        )->0 + reduce::upper_read(samples, block) <= crate::time::MAX_NANOS,
    ensures
        ({
            let floor = reduce::least_b(
                reduce::rows_of(samples, block, stream),
                reduce::capture_slope(samples, block),
            )->0;
            let entry = reduce::staleness_entry(samples, block, stream);
            &&& entry.len() == 1
            &&& entry[0].bracket.low@ == floor - reduce::lower_best(samples, block)
            &&& entry[0].bracket.high@ == floor + reduce::upper_read(samples, block)
            &&& jam::bracket_span(entry[0].bracket) == reduce::upper_read(samples, block) + reduce::lower_best(
                samples,
                block,
            )
        }),
{
    lemma_floor_bound(samples, block, stream);
    let slope = reduce::capture_slope(samples, block);
    let floor = reduce::least_b(reduce::rows_of(samples, block, stream), slope)->0;
    let upper = reduce::upper_read(samples, block);
    let lower = reduce::lower_best(samples, block);
    lemma_span(floor - lower);
    lemma_span(floor + upper);
}

/// The stream that reached the host soonest reads zero by construction: some stream's
/// floor is the pooled one.
pub proof fn the_best_stream_reads_zero(samples: Seq<Sample>, block: int, interval: int)
    requires
        reduce::flaw_of(samples, block, interval) is None,
    ensures
        exists|stream: Stream|
            reduce::rows_of(samples, block, stream).len() > 0 && #[trigger] reduce::least_b(
                reduce::rows_of(samples, block, stream),
                reduce::capture_slope(samples, block),
            ) == Some(reduce::lower_best(samples, block)),
{
    let slope = reduce::capture_slope(samples, block);
    let f = |s: Sample| reduce::flat_b(s, slope);
    let reads = reduce::capture_reads(samples, block);
    let others = reduce::one_way_only(samples);
    order::the_least_is_a_lower_bound(reads.map_values(f));
    order::the_least_is_a_lower_bound(others.map_values(f));
    if reduce::least_b(reads, slope) == Some(reduce::lower_best(samples, block)) {
        assert(reduce::rows_of(samples, block, Stream::Read) == reads);
    } else {
        let values = others.map_values(f);
        assert(order::least(values) == Some(reduce::lower_best(samples, block)));
        let k = choose|k: int| 0 <= k < values.len() && values[k] == order::least(values)->0;
        let stream = others[k].stream;
        lemma_one_way_only(samples);
        assert(stream != Stream::Read);
        lemma_stream_keeps(others, k);
        let rows = reduce::of_stream(others, stream);
        let j = choose|j: int| 0 <= j < rows.len() && rows[j] == others[k];
        assert(rows.map_values(f)[j] == reduce::lower_best(samples, block));
        order::the_least_is_a_lower_bound(rows.map_values(f));
        lemma_floor_bound(samples, block, stream);
    }
}

proof fn lemma_one_way_only(samples: Seq<Sample>)
    ensures
        forall|i: int|
            0 <= i < reduce::one_way_only(samples).len() ==> (#[trigger] reduce::one_way_only(samples)[i]).stream
                != Stream::Read,
    decreases samples.len(),
{
    if samples.len() > 0 {
        lemma_one_way_only(samples.drop_last());
    }
}

/// A sample is among those of its own stream.
proof fn lemma_stream_keeps(samples: Seq<Sample>, k: int)
    requires
        0 <= k < samples.len(),
    ensures
        reduce::of_stream(samples, samples[k].stream).contains(samples[k]),
    decreases samples.len(),
{
    let front = samples.drop_last();
    let stream = samples[k].stream;
    let all = reduce::of_stream(samples, stream);
    if k < front.len() {
        lemma_stream_keeps(front, k);
        let part = reduce::of_stream(front, stream);
        let j = choose|j: int| 0 <= j < part.len() && part[j] == samples[k];
        assert(all[j] == samples[k]);
    } else {
        assert(all[all.len() - 1] == samples[k]);
    }
}

/// Where one offset satisfies every sample that was pooled, the true delay of each
/// stream's least delayed reading, which is its `b` plus that offset, lies in the
/// stream's bracket.
pub proof fn the_true_delay_lies_in_the_bracket(
    samples: Seq<Sample>,
    block: int,
    interval: int,
    stream: Stream,
    theta: int,
)
    requires
        reduce::flaw_of(samples, block, interval) is None,
        reduce::rows_of(samples, block, stream).len() > 0,
        forall|i: int|
            0 <= i < reduce::capture_reads(samples, block).len() ==> {
                let s = #[trigger] reduce::capture_reads(samples, block)[i];
                &&& theta <= reduce::flat_a(s, reduce::capture_slope(samples, block))
                &&& -theta <= reduce::flat_b(s, reduce::capture_slope(samples, block))
            },
        forall|i: int|
            0 <= i < reduce::one_way_only(samples).len() ==> -theta <= reduce::flat_b(
                #[trigger] reduce::one_way_only(samples)[i],
                reduce::capture_slope(samples, block),
            ),
    ensures
        ({
            let floor = reduce::least_b(
                reduce::rows_of(samples, block, stream),
                reduce::capture_slope(samples, block),
            )->0;
            floor - reduce::lower_best(samples, block) <= floor + theta <= floor + reduce::upper_read(
                samples,
                block,
            )
        }),
{
    let slope = reduce::capture_slope(samples, block);
    let fa = |s: Sample| reduce::flat_a(s, slope);
    let fb = |s: Sample| reduce::flat_b(s, slope);
    let reads = reduce::capture_reads(samples, block);
    let others = reduce::one_way_only(samples);
    order::the_least_is_a_lower_bound(reads.map_values(fa));
    order::the_least_is_a_lower_bound(reads.map_values(fb));
    order::the_least_is_a_lower_bound(others.map_values(fb));
    let va = reads.map_values(fa);
    let i = choose|i: int| 0 <= i < va.len() && va[i] == order::least(va)->0;
    assert(va[i] == reduce::flat_a(reads[i], slope));
    let vb = reads.map_values(fb);
    if order::least(vb) is Some {
        let j = choose|j: int| 0 <= j < vb.len() && vb[j] == order::least(vb)->0;
        assert(vb[j] == reduce::flat_b(reads[j], slope));
    }
    let vo = others.map_values(fb);
    if order::least(vo) is Some {
        let k = choose|k: int| 0 <= k < vo.len() && vo[k] == order::least(vo)->0;
        assert(vo[k] == reduce::flat_b(others[k], slope));
    }
}

/// A block whose bracket is impossible takes its reads with it: none of those that go
/// into the answer falls in such a block.
pub proof fn no_read_of_a_bad_block_is_kept(reads: Seq<Sample>, bad: Seq<int>, block: int)
    ensures
        forall|i: int|
            0 <= i < reduce::kept_reads(reads, bad, block).len() ==> !bad.contains(
                reduce::block_key((#[trigger] reduce::kept_reads(reads, bad, block)[i]).host as int, block),
            ),
    decreases reads.len(),
{
    if reads.len() > 0 {
        no_read_of_a_bad_block_is_kept(reads.drop_last(), bad, block);
    }
}

/// Matched counts: where the two populations saw the same delays, as far as the smaller
/// one goes, there is no penalty, however many more the larger one saw.
pub proof fn equal_delays_show_no_penalty(others: Seq<Sample>, slope: int)
    requires
        reduce::suppression_of(others, slope) is Some,
        ({
            let inside = order::ranked(reduce::of_stream(others, Stream::ConnectedAdvert));
            let between = order::ranked(reduce::of_stream(others, Stream::Advert));
            forall|i: int|
                0 <= i < inside.len() && i < between.len() ==> reduce::flat_b(#[trigger] inside[i], slope)
                    == reduce::flat_b(between[i], slope)
        }),
    ensures
        reduce::suppression_of(others, slope)->0.connected@ == 0,
        reduce::suppression_of(others, slope)->0.free_running@ == 0,
{
    let inside = order::ranked(reduce::of_stream(others, Stream::ConnectedAdvert));
    let between = order::ranked(reduce::of_stream(others, Stream::Advert));
    let n = if inside.len() <= between.len() {
        inside.len() as int
    } else {
        between.len() as int
    };
    let f = |s: Sample| reduce::flat_b(s, slope);
    assert(inside.take(n).map_values(f) =~= between.take(n).map_values(f)) by {
        assert forall|i: int| 0 <= i < n implies inside.take(n).map_values(f)[i]
            == between.take(n).map_values(f)[i] by {
            assert(reduce::flat_b(inside[i], slope) == reduce::flat_b(between[i], slope));
        }
    }
}

/// One of the two floors of a comparison is always zero.
pub proof fn one_floor_of_a_comparison_is_zero(others: Seq<Sample>, slope: int)
    requires
        reduce::suppression_of(others, slope) is Some,
    ensures
        reduce::suppression_of(others, slope)->0.connected@ == 0 || reduce::suppression_of(
            others,
            slope,
        )->0.free_running@ == 0,
{
}

/// How many of some values lie between two bounds.
pub open spec fn count_within(values: Seq<int>, low: int, high: int) -> nat
    decreases values.len(),
{
    if values.len() == 0 {
        0
    } else if low <= values.last() <= high {
        count_within(values.drop_last(), low, high) + 1
    } else {
        count_within(values.drop_last(), low, high)
    }
}

proof fn lemma_count_push(values: Seq<int>, x: int, low: int, high: int)
    ensures
        count_within(values.push(x), low, high) == count_within(values, low, high) + (if low <= x
            <= high {
            1int
        } else {
            0
        }),
{
    assert(values.push(x).drop_last() =~= values);
}

proof fn lemma_count_placed(values: Seq<int>, x: int, low: int, high: int)
    ensures
        count_within(order::placed(values, x), low, high) == count_within(values, low, high) + (if low <= x
            <= high {
            1int
        } else {
            0
        }),
    decreases values.len(),
{
    if values.len() == 0 || values.last() <= x {
        lemma_count_push(values, x, low, high);
    } else {
        lemma_count_placed(values.drop_last(), x, low, high);
        lemma_count_push(order::placed(values.drop_last(), x), values.last(), low, high);
    }
}

proof fn lemma_count_ranked(values: Seq<int>, low: int, high: int)
    ensures
        count_within(order::ranked(values), low, high) == count_within(values, low, high),
    decreases values.len(),
{
    if values.len() > 0 {
        lemma_count_ranked(values.drop_last(), low, high);
        lemma_count_placed(order::ranked(values.drop_last()), values.last(), low, high);
    }
}

proof fn lemma_count_at_most(values: Seq<int>, low: int, high: int, from: int, to: int)
    requires
        0 <= from <= to <= values.len(),
        forall|i: int|
            (0 <= i < from || to <= i < values.len()) ==> !(low <= #[trigger] values[i] <= high),
    ensures
        count_within(values, low, high) <= to - from,
    decreases values.len(),
{
    if values.len() > 0 {
        let front = values.drop_last();
        assert(values.last() == values[values.len() - 1]);
        if to == values.len() {
            if from == to {
                lemma_count_at_most(front, low, high, from - 1, to - 1);
            } else {
                lemma_count_at_most(front, low, high, from, to - 1);
            }
        } else {
            lemma_count_at_most(front, low, high, from, to);
        }
    }
}

/// Where more than half of some values lie between two bounds, so does the median.
pub proof fn a_majority_holds_the_median(values: Seq<int>, low: int, high: int)
    requires
        2 * count_within(values, low, high) > values.len(),
    ensures
        low <= reduce::median(values) <= high,
{
    order::ranking_puts_everything_in_order(values);
    lemma_count_ranked(values, low, high);
    let r = order::ranked(values);
    let k = values.len() as int / 2;
    if r[k] > high {
        assert forall|i: int| (0 <= i < 0 || k <= i < r.len()) implies !(low <= #[trigger] r[i]
            <= high) by {
            assert(r[k].rank() <= r[i].rank());
        }
        lemma_count_at_most(r, low, high, 0, k);
    }
    if r[k] < low {
        assert forall|i: int|
            (0 <= i < k + 1 || r.len() <= i < r.len()) implies !(low <= #[trigger] r[i]
            <= high) by {
            assert(r[i].rank() <= r[k].rank());
        }
        lemma_count_at_most(r, low, high, k + 1, r.len() as int);
    }
}

/// How many marks are set.
pub open spec fn marked(marks: Seq<bool>) -> nat
    decreases marks.len(),
{
    if marks.len() == 0 {
        0
    } else if marks.last() {
        marked(marks.drop_last()) + 1
    } else {
        marked(marks.drop_last())
    }
}

proof fn lemma_count_concat(a: Seq<int>, b: Seq<int>, low: int, high: int)
    ensures
        count_within(a + b, low, high) == count_within(a, low, high) + count_within(b, low, high),
    decreases b.len(),
{
    if b.len() == 0 {
        assert(a + b =~= a);
    } else {
        lemma_count_concat(a, b.drop_last(), low, high);
        assert((a + b).drop_last() =~= a + b.drop_last());
    }
}

proof fn lemma_slopes_to(points: Seq<Point>, marks: Seq<bool>, q: Point, low: int, high: int)
    requires
        points.len() == marks.len(),
        forall|i: int|
            0 <= i < points.len() && #[trigger] marks[i] ==> points[i].x != q.x && low
                <= reduce::slope_between(points[i], q) <= high,
    ensures
        reduce::slopes_to(points, q).len() <= points.len(),
        count_within(reduce::slopes_to(points, q), low, high) >= marked(marks),
    decreases points.len(),
{
    if points.len() > 0 {
        let front = points.drop_last();
        let k = points.len() - 1;
        assert forall|i: int| 0 <= i < front.len() && #[trigger] marks.drop_last()[i] implies front[i].x
            != q.x && low <= reduce::slope_between(front[i], q) <= high by {
            assert(marks[i]);
        }
        lemma_slopes_to(front, marks.drop_last(), q, low, high);
        if points.last().x != q.x {
            lemma_count_push(
                reduce::slopes_to(front, q),
                reduce::slope_between(points.last(), q),
                low,
                high,
            );
        }
        if marks.last() {
            assert(marks[k]);
            assert(points[k] == points.last());
        }
    }
}

proof fn lemma_slopes_of(points: Seq<Point>, marks: Seq<bool>, low: int, high: int)
    requires
        points.len() == marks.len(),
        forall|i: int, j: int|
            0 <= i < j < points.len() && #[trigger] marks[i] && #[trigger] marks[j] ==> points[i].x
                != points[j].x && low <= reduce::slope_between(points[i], points[j]) <= high,
    ensures
        2 * reduce::slopes_of(points).len() <= points.len() * (points.len() - 1),
        2 * count_within(reduce::slopes_of(points), low, high) >= marked(marks) * (marked(marks) - 1),
    decreases points.len(),
{
    if points.len() == 0 {
        assert(marked(marks) == 0);
    } else {
        let front = points.drop_last();
        let before = marks.drop_last();
        let q = points.last();
        let n = points.len() as int;
        assert forall|i: int, j: int|
            0 <= i < j < front.len() && #[trigger] before[i] && #[trigger] before[j] implies front[i].x
            != front[j].x && low <= reduce::slope_between(front[i], front[j]) <= high by {
            assert(marks[i] && marks[j]);
        }
        lemma_slopes_of(front, before, low, high);
        let g = marked(before) as int;
        let none = Seq::new(front.len(), |i: int| false);
        if marks.last() {
            assert forall|i: int| 0 <= i < front.len() && #[trigger] before[i] implies front[i].x
                != q.x && low <= reduce::slope_between(front[i], q) <= high by {
                assert(marks[i] && marks[n - 1]);
            }
            lemma_slopes_to(front, before, q, low, high);
            assert((g + 1) * g == g * (g - 1) + 2 * g) by (nonlinear_arith);
        } else {
            assert forall|i: int| 0 <= i < front.len() && #[trigger] none[i] implies front[i].x
                != q.x && low <= reduce::slope_between(front[i], q) <= high by {
            }
            lemma_slopes_to(front, none, q, low, high);
        }
        lemma_count_concat(reduce::slopes_of(front), reduce::slopes_to(front, q), low, high);
        assert(n * (n - 1) == (n - 1) * (n - 2) + 2 * (n - 1)) by (nonlinear_arith);
        assert((n - 1) * ((n - 1) - 1) == (n - 1) * (n - 2)) by (nonlinear_arith);
    }
}

/// Bad blocks cannot own the fit. Where the slopes between every two of the marked points
/// lie between two bounds, so does the slope of the line, as long as the marked points
/// make up more than half of the pairs: one arbitrary point in five is not enough to
/// move it out, nor are two in seven.
pub proof fn bad_points_cannot_own_the_fit(
    points: Seq<Point>,
    marks: Seq<bool>,
    low: int,
    high: int,
)
    requires
        points.len() == marks.len(),
        points.len() >= 2,
        2 * (marked(marks) * (marked(marks) - 1)) > points.len() * (points.len() - 1),
        forall|i: int, j: int|
            0 <= i < j < points.len() && #[trigger] marks[i] && #[trigger] marks[j] ==> points[i].x
                != points[j].x && low <= reduce::slope_between(points[i], points[j]) <= high,
    ensures
        reduce::line_through(points) matches Some(line) && low <= line.slope <= high,
{
    lemma_slopes_of(points, marks, low, high);
    let slopes = reduce::slopes_of(points);
    assert(slopes.len() > 0) by {
        if slopes.len() == 0 {
            assert(count_within(slopes, low, high) == 0);
        }
    }
    a_majority_holds_the_median(slopes, low, high);
}

/// Round trips in some blocks.
pub open spec fn reads_in(blocks: Seq<BlockReport>) -> nat
    decreases blocks.len(),
{
    if blocks.len() == 0 {
        0
    } else {
        reads_in(blocks.drop_last()) + blocks.last().n as nat
    }
}

/// Round trips in those of them whose bracket is possible.
pub open spec fn possible_reads_in(blocks: Seq<BlockReport>) -> nat
    decreases blocks.len(),
{
    if blocks.len() == 0 {
        0
    } else if blocks.last().contradictory {
        possible_reads_in(blocks.drop_last())
    } else {
        possible_reads_in(blocks.drop_last()) + blocks.last().n as nat
    }
}

/// The block that a group of reads is.
spec fn key_of_group(rows: Seq<Sample>, block: int) -> int {
    reduce::block_key(rows.last().host as int, block)
}

/// Reads in some groups.
spec fn grouped(gs: Seq<Seq<Sample>>) -> nat
    decreases gs.len(),
{
    if gs.len() == 0 {
        0
    } else {
        grouped(gs.drop_last()) + gs.last().len()
    }
}

/// Reads in those of them that are none of some blocks.
spec fn grouped_outside(gs: Seq<Seq<Sample>>, bad: Seq<int>, block: int) -> nat
    decreases gs.len(),
{
    if gs.len() == 0 {
        0
    } else if bad.contains(key_of_group(gs.last(), block)) {
        grouped_outside(gs.drop_last(), bad, block)
    } else {
        grouped_outside(gs.drop_last(), bad, block) + gs.last().len()
    }
}

proof fn lemma_key_rises(a: int, b: int, block: int)
    requires
        a <= b,
        0 <= block,
    ensures
        reduce::block_key(a, block) <= reduce::block_key(b, block),
{
    if block > 0 {
        vstd::arithmetic::div_mod::lemma_div_is_ordered(a, b, block);
    }
}

/// Reads in order of arrival split into blocks in order, none of them twice.
proof fn lemma_groups_rise(reads: Seq<Sample>, block: int)
    requires
        order::in_order(reads),
        0 <= block,
    ensures
        ({
            let gs = reduce::groups(reads, block);
            &&& reads.len() > 0 ==> gs.len() > 0 && gs.last().last() == reads.last()
            &&& forall|i: int| 0 <= i < gs.len() ==> (#[trigger] gs[i]).len() > 0
            &&& forall|i: int, j: int|
                0 <= i < j < gs.len() ==> key_of_group(#[trigger] gs[i], block) < key_of_group(
                    #[trigger] gs[j],
                    block,
                )
        }),
    decreases reads.len(),
{
    if reads.len() > 0 {
        let front = reads.drop_last();
        assert(order::in_order(front)) by {
            assert forall|i: int, j: int| 0 <= i <= j < front.len() implies (#[trigger] front[i]).rank()
                <= (#[trigger] front[j]).rank() by {
                assert(reads[i].rank() <= reads[j].rank());
            }
        }
        lemma_groups_rise(front, block);
        let before = reduce::groups(front, block);
        let gs = reduce::groups(reads, block);
        if front.len() > 0 {
            assert(reads[front.len() - 1].rank() <= reads[reads.len() - 1].rank());
            lemma_key_rises(front.last().host as int, reads.last().host as int, block);
        } else {
            assert(before =~= Seq::empty());
        }
        assert forall|i: int, j: int| 0 <= i < j < gs.len() implies key_of_group(
            #[trigger] gs[i],
            block,
        ) < key_of_group(#[trigger] gs[j], block) by {
            if j < before.len() {
                assert(key_of_group(before[i], block) < key_of_group(before[j], block));
            } else if i + 1 < before.len() {
                assert(key_of_group(before[i], block) < key_of_group(
                    before[before.len() - 1],
                    block,
                ));
            }
        }
        assert forall|i: int| 0 <= i < gs.len() implies (#[trigger] gs[i]).len() > 0 by {
            if i < before.len() {
                assert(before[i].len() > 0);
            }
        }
    }
}

/// The blocks hold every read once.
proof fn lemma_groups_hold_all(reads: Seq<Sample>, bad: Seq<int>, block: int)
    requires
        order::in_order(reads),
        0 <= block,
    ensures
        grouped(reduce::groups(reads, block)) == reads.len(),
        grouped_outside(reduce::groups(reads, block), bad, block) == reduce::kept_reads(
            reads,
            bad,
            block,
        ).len(),
    decreases reads.len(),
{
    if reads.len() > 0 {
        let front = reads.drop_last();
        assert(order::in_order(front)) by {
            assert forall|i: int, j: int| 0 <= i <= j < front.len() implies (#[trigger] front[i]).rank()
                <= (#[trigger] front[j]).rank() by {
                assert(reads[i].rank() <= reads[j].rank());
            }
        }
        lemma_groups_hold_all(front, bad, block);
        let before = reduce::groups(front, block);
        let gs = reduce::groups(reads, block);
        if before.len() > 0 && reduce::block_key(before.last().last().host as int, block)
            == reduce::block_key(reads.last().host as int, block) {
            assert(gs.drop_last() =~= before.drop_last());
        } else {
            assert(gs.drop_last() =~= before);
        }
    }
}

proof fn lemma_bad_keys(gs: Seq<Seq<Sample>>, block: int)
    ensures
        forall|key: int|
            #[trigger] reduce::bad_keys(gs, block).contains(key) <==> exists|i: int|
                0 <= i < gs.len() && reduce::width_of(#[trigger] gs[i]) < 0 && key_of_group(
                    gs[i],
                    block,
                ) == key,
    decreases gs.len(),
{
    if gs.len() > 0 {
        let front = gs.drop_last();
        lemma_bad_keys(front, block);
        let before = reduce::bad_keys(front, block);
        let bad = reduce::bad_keys(gs, block);
        assert forall|key: int| #[trigger] bad.contains(key) <==> exists|i: int|
            0 <= i < gs.len() && reduce::width_of(#[trigger] gs[i]) < 0 && key_of_group(
                gs[i],
                block,
            ) == key by {
            if bad.contains(key) {
                let k = choose|k: int| 0 <= k < bad.len() && bad[k] == key;
                if k < before.len() {
                    assert(before[k] == key);
                    assert(before.contains(key));
                    let i = choose|i: int|
                        0 <= i < front.len() && reduce::width_of(#[trigger] front[i]) < 0
                            && key_of_group(front[i], block) == key;
                    assert(gs[i] == front[i]);
                } else {
                    assert(gs[gs.len() - 1] == gs.last());
                }
            }
            if exists|i: int|
                0 <= i < gs.len() && reduce::width_of(#[trigger] gs[i]) < 0 && key_of_group(
                    gs[i],
                    block,
                ) == key {
                let i = choose|i: int|
                    0 <= i < gs.len() && reduce::width_of(#[trigger] gs[i]) < 0 && key_of_group(
                        gs[i],
                        block,
                    ) == key;
                if i < front.len() {
                    assert(front[i] == gs[i]);
                    assert(before.contains(key));
                    let k = choose|k: int| 0 <= k < before.len() && before[k] == key;
                    assert(bad[k] == key);
                } else {
                    assert(bad[bad.len() - 1] == key);
                }
            }
        }
    }
}

/// The reports count what the groups hold.
proof fn lemma_reports_count(gs: Seq<Seq<Sample>>, bad: Seq<int>, block: int)
    requires
        grouped(gs) <= usize::MAX,
        forall|i: int|
            0 <= i < gs.len() ==> bad.contains(key_of_group(#[trigger] gs[i], block)) == (
            reduce::width_of(gs[i]) < 0),
    ensures
        reads_in(reduce::reports_of(gs, block)) == grouped(gs),
        possible_reads_in(reduce::reports_of(gs, block)) == grouped_outside(gs, bad, block),
        reduce::bad_count(reduce::reports_of(gs, block)) <= gs.len(),
    decreases gs.len(),
{
    if gs.len() > 0 {
        let front = gs.drop_last();
        assert forall|i: int| 0 <= i < front.len() implies bad.contains(
            key_of_group(#[trigger] front[i], block),
        ) == (reduce::width_of(front[i]) < 0) by {
            assert(front[i] == gs[i]);
        }
        lemma_reports_count(front, bad, block);
        assert(reduce::reports_of(gs, block).drop_last() =~= reduce::reports_of(front, block));
        assert(gs[gs.len() - 1] == gs.last());
    }
}

proof fn lemma_stream_is_no_longer(samples: Seq<Sample>, stream: Stream)
    ensures
        reduce::of_stream(samples, stream).len() <= samples.len(),
    decreases samples.len(),
{
    if samples.len() > 0 {
        lemma_stream_is_no_longer(samples.drop_last(), stream);
    }
}

/// The blocks of a calibration account for every round trip of the capture. Their counts add
/// up to the round trips there were, those of the possible ones to the round trips that went
/// into the answer, which are also those that the read stream is counted with. A block is
/// contradictory if and only if its width is negative; that many are reported, and at least
/// one is not.
pub proof fn the_blocks_account_for_every_round_trip(
    c: Calibration,
    samples: Seq<Sample>,
    block: int,
    interval: int,
    undecoded: usize,
)
    requires
        reduce::all_wf(samples),
        samples.len() <= usize::MAX,
        0 <= block,
        reduce::flaw_of(samples, block, interval) is None,
        reduce::is_calibration(c, samples, block, interval, undecoded),
    ensures
        reads_in(c.blocks@) == reduce::of_stream(samples, Stream::Read).len(),
        possible_reads_in(c.blocks@) == c.round_trips,
        c.staleness@.len() > 0,
        c.staleness@[0].stream == Stream::Read,
        c.staleness@[0].n == c.round_trips,
        forall|i: int|
            0 <= i < c.blocks@.len() ==> ((#[trigger] c.blocks@[i]).contradictory
                <==> c.blocks@[i].width < 0),
        c.contradictory == reduce::bad_count(c.blocks@),
        c.contradictory < c.blocks@.len(),
{
    let found = reduce::of_stream(samples, Stream::Read);
    let reads = reduce::reads_in_order(samples);
    let gs = reduce::groups(reads, block);
    let bad = reduce::bad_keys(gs, block);
    lemma_stream_is_no_longer(samples, Stream::Read);
    order::ranking_puts_everything_in_order(found);
    lemma_groups_rise(reads, block);
    lemma_groups_hold_all(reads, bad, block);
    lemma_bad_keys(gs, block);
    assert forall|i: int| 0 <= i < gs.len() implies bad.contains(
        key_of_group(#[trigger] gs[i], block),
    ) == (reduce::width_of(gs[i]) < 0) by {
        let key = key_of_group(gs[i], block);
        if bad.contains(key) {
            let j = choose|j: int|
                0 <= j < gs.len() && reduce::width_of(#[trigger] gs[j]) < 0 && key_of_group(
                    gs[j],
                    block,
                ) == key;
            if j < i {
                assert(key_of_group(gs[j], block) < key_of_group(gs[i], block));
            } else if i < j {
                assert(key_of_group(gs[i], block) < key_of_group(gs[j], block));
            }
        }
    }
    lemma_reports_count(gs, bad, block);
    order::the_least_is_a_lower_bound(
        reduce::capture_reads(samples, block).map_values(
            |s: Sample| reduce::flat_b(s, reduce::capture_slope(samples, block)),
        ),
    );
    lemma_reads_are_wf(samples);
    lemma_groups_are_wf(reads, block);
    assert forall|i: int| 0 <= i < c.blocks@.len() implies ((#[trigger] c.blocks@[i]).contradictory
        <==> c.blocks@[i].width < 0) by {
        assert(reduce::all_reads(gs[i]));
        lemma_plain_bound(gs[i]);
        order::the_least_is_a_lower_bound(
            gs[i].map_values(|s: Sample| reduce::flat_a(s, 0)),
        );
        order::the_least_is_a_lower_bound(
            gs[i].map_values(|s: Sample| reduce::flat_b(s, 0)),
        );
    }
}

/// The round trips of a capture are round trips that can be reduced.
proof fn lemma_reads_are_wf(samples: Seq<Sample>)
    requires
        reduce::all_wf(samples),
    ensures
        reduce::all_reads(reduce::reads_in_order(samples)),
{
    let found = reduce::of_stream(samples, Stream::Read);
    lemma_of_stream_is_part(samples, Stream::Read);
    lemma_of_stream_is_pure(samples, Stream::Read);
    let ok = |s: Sample| reduce::is_read(s);
    assert forall|i: int| 0 <= i < found.len() implies ok(#[trigger] found[i]) by {
        assert(samples.contains(found[i]));
        let k = choose|k: int| 0 <= k < samples.len() && samples[k] == found[i];
        assert(samples[k].wf());
    }
    order::ranking_keeps_every_item(found, ok);
    let reads = reduce::reads_in_order(samples);
    assert forall|i: int| 0 <= i < reads.len() implies reduce::is_read(#[trigger] reads[i]) by {
        assert(ok(order::ranked(found)[i]));
    }
}

proof fn lemma_groups_are_wf(reads: Seq<Sample>, block: int)
    requires
        reduce::all_reads(reads),
    ensures
        forall|i: int|
            0 <= i < reduce::groups(reads, block).len() ==> reduce::all_reads(
                #[trigger] reduce::groups(reads, block)[i],
            ),
    decreases reads.len(),
{
    if reads.len() > 0 {
        let front = reads.drop_last();
        lemma_groups_are_wf(front, block);
        let before = reduce::groups(front, block);
        let gs = reduce::groups(reads, block);
        assert(reduce::is_read(reads[reads.len() - 1]));
        assert forall|i: int| 0 <= i < gs.len() implies reduce::all_reads(#[trigger] gs[i]) by {
            if i < before.len() {
                assert(reduce::all_reads(before[i]));
            }
        }
    }
}

/// The blocks of a capture come in order of time: none starts before the one in front of
/// it, and of two that do not both start at the origin the later one starts later. Where no
/// round trip landed before the origin, no two start together. None landed further from the
/// origin than a duration can say.
pub proof fn the_blocks_come_in_order_of_time(samples: Seq<Sample>, block: int)
    requires
        reduce::all_wf(samples),
        0 < block <= REACH,
        forall|k: int|
            0 <= k < samples.len() && (#[trigger] samples[k]).stream == Stream::Read
                ==> samples[k].host <= crate::time::MAX_NANOS,
    ensures
        ({
            let blocks = reduce::capture_blocks(samples, block);
            let early = exists|k: int|
                0 <= k < samples.len() && (#[trigger] samples[k]).stream == Stream::Read
                    && samples[k].host < 0;
            forall|i: int, j: int|
                0 <= i < j < blocks.len() ==> {
                    let first = (#[trigger] blocks[i]).at@;
                    let second = (#[trigger] blocks[j]).at@;
                    &&& first <= second
                    &&& second > 0 || !early ==> first < second
                }
        }),
{
    let found = reduce::of_stream(samples, Stream::Read);
    let reads = reduce::reads_in_order(samples);
    let gs = reduce::groups(reads, block);
    let blocks = reduce::capture_blocks(samples, block);
    let early = exists|k: int|
        0 <= k < samples.len() && (#[trigger] samples[k]).stream == Stream::Read
            && samples[k].host < 0;
    order::ranking_puts_everything_in_order(found);
    lemma_groups_rise(reads, block);
    lemma_reads_are_wf(samples);
    lemma_groups_are_wf(reads, block);
    let timely = |s: Sample| s.host <= crate::time::MAX_NANOS;
    lemma_blocks_end_in_reads(samples, block, timely);
    let late = |s: Sample| s.host >= 0;
    if !early {
        lemma_blocks_end_in_reads(samples, block, late);
    }
    assert forall|i: int, j: int| 0 <= i < j < blocks.len() implies {
        let first = (#[trigger] blocks[i]).at@;
        let second = (#[trigger] blocks[j]).at@;
        &&& first <= second
        &&& second > 0 || !early ==> first < second
    } by {
        let a = key_of_group(gs[i], block);
        let b = key_of_group(gs[j], block);
        assert(a < b);
        assert(reduce::all_reads(gs[i]) && reduce::all_reads(gs[j]));
        assert(reduce::is_read(gs[i][gs[i].len() - 1]));
        assert(reduce::is_read(gs[j][gs[j].len() - 1]));
        assert(timely(gs[i].last()) && timely(gs[j].last()));
        lemma_block_start(gs[i].last().host as int, block);
        lemma_block_start(gs[j].last().host as int, block);
        assert(a * block < b * block) by (nonlinear_arith)
            requires
                a < b,
                block > 0,
        ;
        lemma_span(a * block);
        lemma_span(b * block);
        if !early {
            assert(late(gs[i].last()));
            assert(a >= 0) by {
                vstd::arithmetic::div_mod::lemma_div_pos_is_pos(gs[i].last().host as int, block);
            }
            assert(0 <= a * block) by (nonlinear_arith)
                requires
                    a >= 0,
                    block > 0,
            ;
        }
    }
}

/// A block starts no later than what is in it.
proof fn lemma_block_start(host: int, block: int)
    requires
        block > 0,
        host <= crate::time::MAX_NANOS,
    ensures
        reduce::block_key(host, block) * block <= crate::time::MAX_NANOS,
{
    let key = reduce::block_key(host, block);
    vstd::arithmetic::div_mod::lemma_fundamental_div_mod(host, block);
    if key > 0 {
        assert(key * block <= block * (host / block)) by (nonlinear_arith)
            requires
                key <= host / block,
                block > 0,
        ;
    } else {
        assert(key * block <= 0) by (nonlinear_arith)
            requires
                key <= 0,
                block > 0,
        ;
    }
}

/// What holds of every round trip holds of the last one in every block.
proof fn lemma_blocks_end_in_reads(samples: Seq<Sample>, block: int, ok: spec_fn(Sample) -> bool)
    requires
        forall|k: int|
            0 <= k < samples.len() && (#[trigger] samples[k]).stream == Stream::Read ==> ok(
                samples[k],
            ),
    ensures
        forall|i: int|
            0 <= i < reduce::groups(reduce::reads_in_order(samples), block).len() ==> ok(
                (#[trigger] reduce::groups(reduce::reads_in_order(samples), block)[i]).last(),
            ),
{
    let found = reduce::of_stream(samples, Stream::Read);
    lemma_of_stream_is_part(samples, Stream::Read);
    lemma_of_stream_is_pure(samples, Stream::Read);
    assert forall|i: int| 0 <= i < found.len() implies ok(#[trigger] found[i]) by {
        assert(samples.contains(found[i]));
        let k = choose|k: int| 0 <= k < samples.len() && samples[k] == found[i];
        assert(ok(samples[k]));
    }
    order::ranking_keeps_every_item(found, ok);
    let reads = reduce::reads_in_order(samples);
    assert forall|i: int| 0 <= i < reads.len() implies ok(#[trigger] reads[i]) by {
        assert(ok(order::ranked(found)[i]));
    }
    lemma_groups_end_in_reads(reads, block, ok);
}

proof fn lemma_groups_end_in_reads(reads: Seq<Sample>, block: int, ok: spec_fn(Sample) -> bool)
    requires
        forall|i: int| 0 <= i < reads.len() ==> ok(#[trigger] reads[i]),
    ensures
        forall|i: int|
            0 <= i < reduce::groups(reads, block).len() ==> ok(
                (#[trigger] reduce::groups(reads, block)[i]).last(),
            ),
    decreases reads.len(),
{
    if reads.len() > 0 {
        let front = reads.drop_last();
        assert forall|i: int| 0 <= i < front.len() implies ok(#[trigger] front[i]) by {
            assert(ok(reads[i]));
        }
        lemma_groups_end_in_reads(front, block, ok);
        let before = reduce::groups(front, block);
        let gs = reduce::groups(reads, block);
        assert(ok(reads[reads.len() - 1]));
        assert forall|i: int| 0 <= i < gs.len() implies ok((#[trigger] gs[i]).last()) by {
            if i < before.len() {
                assert(ok(before[i].last()));
            }
        }
    }
}

proof fn lemma_count_at_least(values: Seq<int>, low: int, high: int, from: int, to: int)
    requires
        0 <= from <= to <= values.len(),
        forall|i: int| from <= i < to ==> low <= #[trigger] values[i] <= high,
    ensures
        count_within(values, low, high) >= to - from,
    decreases values.len(),
{
    if values.len() > 0 && from < to {
        let front = values.drop_last();
        if to == values.len() {
            assert(values[to - 1] == values.last());
            lemma_count_at_least(front, low, high, from, to - 1);
        } else {
            lemma_count_at_least(front, low, high, from, to);
        }
    }
}

/// The median is the one in the middle, the upper one of two: no more than half of the values
/// are below it, and more than half are at it or below.
pub proof fn the_median_is_in_the_middle(values: Seq<int>, low: int)
    requires
        values.len() > 0,
        forall|i: int| 0 <= i < values.len() ==> low <= #[trigger] values[i],
    ensures
        ({
            let m = reduce::median(values);
            &&& 2 * count_within(values, low, m - 1) <= values.len()
            &&& 2 * count_within(values, low, m) > values.len()
        }),
{
    order::ranking_puts_everything_in_order(values);
    order::ranking_keeps_every_item(values, |v: int| low <= v);
    let r = order::ranked(values);
    let k = values.len() as int / 2;
    let m = r[k];
    lemma_count_ranked(values, low, m - 1);
    lemma_count_ranked(values, low, m);
    assert forall|i: int| (0 <= i < 0 || k <= i < r.len()) implies !(low <= #[trigger] r[i] <= m
        - 1) by {
        assert(r[k].rank() <= r[i].rank());
    }
    lemma_count_at_most(r, low, m - 1, 0, k);
    assert forall|i: int| 0 <= i < k + 1 implies low <= #[trigger] r[i] <= m by {
        assert(r[i].rank() <= r[k].rank());
        assert((|v: int| low <= v)(r[i]));
    }
    lemma_count_at_least(r, low, m, 0, k + 1);
}

proof fn lemma_all_within(values: Seq<int>, v: int)
    requires
        forall|i: int| 0 <= i < values.len() ==> #[trigger] values[i] == v,
    ensures
        count_within(values, v, v) == values.len(),
    decreases values.len(),
{
    if values.len() > 0 {
        let front = values.drop_last();
        assert forall|i: int| 0 <= i < front.len() implies #[trigger] front[i] == v by {
            assert(front[i] == values[i]);
        }
        assert(values.last() == values[values.len() - 1]);
        lemma_all_within(front, v);
    }
}

/// Where all values are the same, the median is that one.
pub proof fn a_constant_is_its_own_median(values: Seq<int>, v: int)
    requires
        values.len() > 0,
        forall|i: int| 0 <= i < values.len() ==> #[trigger] values[i] == v,
    ensures
        reduce::median(values) == v,
{
    lemma_all_within(values, v);
    a_majority_holds_the_median(values, v, v);
}

} // verus!
