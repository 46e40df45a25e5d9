//! Reducing a capture: from samples to a [`Calibration`], or to the [`Flaw`] that
//! says why not.
//!
//! Each step is a specification function over the samples and an executable one
//! beside it: the streams apart, the reads in order of arrival, the checks, the
//! bracket per block, the line through the block midpoints, the drift taken out, and
//! the floors.

use vstd::prelude::*;

use crate::order;
use crate::jam;
use crate::big;
use crate::big::Big;
use crate::jam::{Bracket, Calibrator, Flaw, FlawView, Sample, Stream, REACH};
use crate::order::{lesser, lesser_number, sort, sort_numbers};
use crate::num::floor_div;
use crate::time::{Duration, MAX_NANOS};

verus! {

/// What a slope of one is, in the units slopes are counted in.
pub const PER_ONE: i128 = 1_000_000_000_000_000;

/// How far two clocks that disagree by `slope` part in `nanos`.
pub open spec fn drift_over(nanos: int, slope: int) -> int {
    nanos * slope / 1_000_000_000_000_000
}

/// A sample's `a` with the drift taken out.
pub open spec fn flat_a(s: Sample, slope: int) -> int {
    s.a->0 - drift_over(s.host as int, slope)
}

/// A sample's `b` with the drift taken out.
pub open spec fn flat_b(s: Sample, slope: int) -> int {
    s.b + drift_over(s.host as int, slope)
}

/// The least `a` of some round trips, the drift taken out.
pub open spec fn least_a(rows: Seq<Sample>, slope: int) -> Option<int> {
    order::least(rows.map_values(|s: Sample| flat_a(s, slope)))
}

/// The least `b` of some samples, the drift taken out.
pub open spec fn least_b(rows: Seq<Sample>, slope: int) -> Option<int> {
    order::least(rows.map_values(|s: Sample| flat_b(s, slope)))
}

/// The shortest of some round trips.
pub open spec fn least_rtt(rows: Seq<Sample>) -> Option<int> {
    order::least(rows.map_values(|s: Sample| s.rtt->0 as int))
}

/// The samples of one stream, in the order they came in.
pub open spec fn of_stream(samples: Seq<Sample>, stream: Stream) -> Seq<Sample>
    decreases samples.len(),
{
    if samples.len() == 0 {
        samples
    } else if samples.last().stream == stream {
        of_stream(samples.drop_last(), stream).push(samples.last())
    } else {
        of_stream(samples.drop_last(), stream)
    }
}

/// The samples that are no round trips, in the order they came in.
pub open spec fn one_way_only(samples: Seq<Sample>) -> Seq<Sample>
    decreases samples.len(),
{
    if samples.len() == 0 {
        samples
    } else if samples.last().stream != Stream::Read {
        one_way_only(samples.drop_last()).push(samples.last())
    } else {
        one_way_only(samples.drop_last())
    }
}

/// Every sample is one that can be reduced.
pub open spec fn all_wf(samples: Seq<Sample>) -> bool {
    forall|i: int| 0 <= i < samples.len() ==> (#[trigger] samples[i]).wf()
}

/// Every sample is a round trip that can be reduced.
pub open spec fn all_reads(samples: Seq<Sample>) -> bool {
    forall|i: int| 0 <= i < samples.len() ==> is_read(#[trigger] samples[i])
}

pub open spec fn is_read(s: Sample) -> bool {
    s.wf() && s.stream == Stream::Read
}

/// The round trips in order of arrival.
pub open spec fn reads_in_order(samples: Seq<Sample>) -> Seq<Sample> {
    order::ranked(of_stream(samples, Stream::Read))
}

/// How far the device's clock moved against the host's between two reads.
pub open spec fn step_between(before: Sample, after: Sample) -> int {
    (after.device - before.device) - (after.host - before.host)
}

/// A count of nanoseconds as a duration: none where it is negative, and the longest there is
/// where it is longer still.
pub open spec fn span_of(nanos: int) -> Duration {
    if nanos > MAX_NANOS {
        Duration::of(MAX_NANOS as nat)
    } else if nanos > 0 {
        Duration::of(nanos as nat)
    } else {
        Duration::of(0)
    }
}

/// The first step of more than a second between two reads, from the `i`th on.
pub open spec fn jump_from(reads: Seq<Sample>, i: int) -> Option<FlawView>
    decreases reads.len() - i,
{
    if i < 0 || i + 1 >= reads.len() {
        None
    } else {
        let step = step_between(reads[i], reads[i + 1]);
        if step > 1_000_000_000 || step < -1_000_000_000 {
            Some(FlawView::ClockJumped { at: span_of(reads[i + 1].host as int), by: step })
        } else {
            jump_from(reads, i + 1)
        }
    }
}

/// How many round trips are shorter than a connection interval.
pub open spec fn short_count(reads: Seq<Sample>, interval: int) -> nat
    decreases reads.len(),
{
    if reads.len() == 0 {
        0
    } else if reads.last().rtt->0 < interval {
        short_count(reads.drop_last(), interval) + 1
    } else {
        short_count(reads.drop_last(), interval)
    }
}

/// Which block a moment falls in, counted as far as an `i64` does. With no block length to
/// go by there are three: before the origin, at it and after it.
pub open spec fn block_key(host: int, block: int) -> int {
    if block == 0 {
        if host > 0 {
            1
        } else if host < 0 {
            -1
        } else {
            0
        }
    } else if host / block > i64::MAX {
        i64::MAX as int
    } else if host / block < i64::MIN {
        i64::MIN as int
    } else {
        host / block
    }
}

/// The reads split into blocks, where one block ends wherever the next read falls in
/// another.
pub open spec fn groups(reads: Seq<Sample>, block: int) -> Seq<Seq<Sample>>
    decreases reads.len(),
{
    if reads.len() == 0 {
        Seq::empty()
    } else {
        let before = groups(reads.drop_last(), block);
        let next = reads.last();
        if before.len() > 0 && block_key(before.last().last().host as int, block) == block_key(
            next.host as int,
            block,
        ) {
            before.update(before.len() - 1, before.last().push(next))
        } else {
            before.push(seq![next])
        }
    }
}

/// The bracket over one block, and whether it was possible.
#[derive(Clone, Copy, Debug, PartialEq, Eq, Structural)]
pub struct BlockReport {
    /// Where the block starts, from the calibrator's origin.
    pub at: Duration,
    /// Round trips in it.
    pub n: usize,
    /// The least `a` plus the least `b`, in nanoseconds. Negative is impossible and is
    /// what `contradictory` records.
    pub width: i128,
    /// The shortest round trip in the block, in nanoseconds.
    pub shortest_rtt: i128,
    /// Twice the middle of the block's bracket, in nanoseconds. Only a point for the
    /// drift fit, and meaningless in absolute terms.
    pub midpoint: i128,
    /// Whether the width came out negative, which proves that at least one sample in
    /// the block was not a round trip.
    pub contradictory: bool,
}

/// The least `a` plus the least `b` of a block: a sum of two elapsed times.
pub open spec fn width_of(rows: Seq<Sample>) -> int {
    least_a(rows, 0)->0 + least_b(rows, 0)->0
}

/// What one block comes to.
pub open spec fn report_of(rows: Seq<Sample>, block: int) -> BlockReport {
    BlockReport {
        at: span_of(block_key(rows.last().host as int, block) * block),
        n: rows.len() as usize,
        width: width_of(rows) as i128,
        shortest_rtt: least_rtt(rows)->0 as i128,
        midpoint: (least_a(rows, 0)->0 - least_b(rows, 0)->0) as i128,
        contradictory: width_of(rows) < 0,
    }
}

/// What every block comes to.
pub open spec fn reports_of(gs: Seq<Seq<Sample>>, block: int) -> Seq<BlockReport> {
    gs.map_values(|rows: Seq<Sample>| report_of(rows, block))
}

/// The blocks whose bracket is impossible.
pub open spec fn bad_keys(gs: Seq<Seq<Sample>>, block: int) -> Seq<int>
    decreases gs.len(),
{
    if gs.len() == 0 {
        Seq::empty()
    } else if width_of(gs.last()) < 0 {
        bad_keys(gs.drop_last(), block).push(block_key(gs.last().last().host as int, block))
    } else {
        bad_keys(gs.drop_last(), block)
    }
}

/// The reads that are in none of those blocks.
pub open spec fn kept_reads(reads: Seq<Sample>, bad: Seq<int>, block: int) -> Seq<Sample>
    decreases reads.len(),
{
    if reads.len() == 0 {
        reads
    } else if bad.contains(block_key(reads.last().host as int, block)) {
        kept_reads(reads.drop_last(), bad, block)
    } else {
        kept_reads(reads.drop_last(), bad, block).push(reads.last())
    }
}

/// A point for the drift fit. Both coordinates are in halves of a nanosecond, so that a
/// midpoint is a whole number of them.
#[derive(Clone, Copy, Debug, PartialEq, Eq, Structural)]
pub struct Point {
    pub x: i128,
    pub y: i128,
}

impl Point {
    pub open spec fn wf(self) -> bool {
        -4 * REACH <= self.x <= 4 * REACH && -8 * REACH <= self.y <= 8 * REACH
    }
}

/// The middle of each possible block: of its time, and of its bracket.
pub open spec fn points_of(reports: Seq<BlockReport>, block: int) -> Seq<Point>
    decreases reports.len(),
{
    if reports.len() == 0 {
        Seq::empty()
    } else if reports.last().contradictory {
        points_of(reports.drop_last(), block)
    } else {
        points_of(reports.drop_last(), block).push(
            Point { x: (2 * reports.last().at@ + block) as i128, y: reports.last().midpoint },
        )
    }
}

/// A line: its slope, and where it stands at the origin.
#[derive(Clone, Debug)]
pub struct Line {
    pub slope: Big,
    pub intercept: Big,
}

/// A line, its figures as integers.
pub struct LineView {
    pub slope: int,
    pub intercept: int,
}

impl View for Line {
    type V = LineView;

    open spec fn view(&self) -> LineView {
        LineView { slope: self.slope@, intercept: self.intercept@ }
    }
}

/// The slope from one point to another that is not straight above it.
pub open spec fn slope_between(p: Point, q: Point) -> int {
    let dx = q.x - p.x;
    let dy = q.y - p.y;
    if dx > 0 {
        dy * 1_000_000_000_000_000 / dx
    } else {
        (-dy) * 1_000_000_000_000_000 / (-dx)
    }
}

/// The slopes from each of some points to one more.
pub open spec fn slopes_to(points: Seq<Point>, q: Point) -> Seq<int>
    decreases points.len(),
{
    if points.len() == 0 {
        Seq::empty()
    } else if points.last().x == q.x {
        slopes_to(points.drop_last(), q)
    } else {
        slopes_to(points.drop_last(), q).push(slope_between(points.last(), q))
    }
}

/// The slopes between every two points.
pub open spec fn slopes_of(points: Seq<Point>) -> Seq<int>
    decreases points.len(),
{
    if points.len() == 0 {
        Seq::empty()
    } else {
        slopes_of(points.drop_last()) + slopes_to(points.drop_last(), points.last())
    }
}

/// The one in the middle, the upper one of two.
pub open spec fn median(values: Seq<int>) -> int {
    order::ranked(values)[values.len() as int / 2]
}

/// How far above a line of this slope through the origin each point stands.
pub open spec fn heights(points: Seq<Point>, slope: int) -> Seq<int> {
    points.map_values(|p: Point| p.y - drift_over(p.x as int, slope))
}

/// The line through some points by Theil and Sen: the median of all pairwise slopes, and
/// the median height above it. Nothing where no two points differ in time.
pub open spec fn line_through(points: Seq<Point>) -> Option<LineView> {
    if points.len() < 2 || slopes_of(points).len() == 0 {
        None
    } else {
        let slope = median(slopes_of(points));
        Some(LineView { slope, intercept: median(heights(points, slope)) })
    }
}

/// How far two clocks that disagree by `slope` part in `nanos`.
fn drift_in(nanos: i128, slope: &Big) -> (d: Big)
    ensures
        d@ == drift_over(nanos as int, slope@),
{
    Big::of(nanos).times(slope).over(&Big::of(PER_ONE))
}

/// An executable minimum stands for the mathematical one.
pub open spec fn same_least(m: Option<i128>, l: Option<int>) -> bool {
    match (m, l) {
        (Some(a), Some(b)) => a == b,
        (None, None) => true,
        _ => false,
    }
}

/// A number that may be missing, as an integer.
pub open spec fn number_of(n: Option<Big>) -> Option<int> {
    match n {
        Some(n) => Some(n@),
        None => None,
    }
}

/// The least `a` of some round trips, whatever the drift.
fn min_a(rows: &[Sample]) -> (m: Option<i128>)
    requires
        all_reads(rows@),
    ensures
        same_least(m, least_a(rows@, 0)),
        m is Some <==> rows@.len() > 0,
        m matches Some(v) ==> -2 * REACH <= v <= 2 * REACH,
{
    let ghost f = |s: Sample| flat_a(s, 0);
    let mut m: Option<i128> = None;
    let mut i: usize = 0;
    assert(rows@.take(0).map_values(f) =~= Seq::<int>::empty());
    while i < rows.len()
        invariant
            i <= rows.len(),
            all_reads(rows@),
            f == (|s: Sample| flat_a(s, 0)),
            same_least(m, order::least(rows@.take(i as int).map_values(f))),
            m is Some <==> i > 0,
            m matches Some(v) ==> -2 * REACH <= v <= 2 * REACH,
        decreases rows.len() - i,
    {
        let s = rows[i];
        assert(is_read(rows@[i as int]));
        let v: i128 = match s.a {
            Some(a) => a,
            None => 0,
        };
        proof {
            assert(s.host * 0 == 0) by (nonlinear_arith);
            let next = rows@.take(i + 1).map_values(f);
            assert(next.drop_last() =~= rows@.take(i as int).map_values(f));
            assert(next.last() == v);
        }
        m = lesser(m, v);
        i = i + 1;
    }
    assert(rows@.take(i as int) =~= rows@);
    m
}

/// The least `a` of some round trips, the drift taken out.
fn flat_min_a(rows: &[Sample], slope: &Big) -> (m: Option<Big>)
    requires
        all_reads(rows@),
    ensures
        number_of(m) == least_a(rows@, slope@),
        m is Some <==> rows@.len() > 0,
{
    let ghost f = |s: Sample| flat_a(s, slope@);
    let mut m: Option<Big> = None;
    let mut i: usize = 0;
    assert(rows@.take(0).map_values(f) =~= Seq::<int>::empty());
    while i < rows.len()
        invariant
            i <= rows.len(),
            all_reads(rows@),
            f == (|s: Sample| flat_a(s, slope@)),
            number_of(m) == order::least(rows@.take(i as int).map_values(f)),
            m is Some <==> i > 0,
        decreases rows.len() - i,
    {
        let s = rows[i];
        assert(is_read(rows@[i as int]));
        let plain: i128 = match s.a {
            Some(a) => a,
            None => 0,
        };
        let v = Big::of(plain).minus(&drift_in(s.host, slope));
        proof {
            let next = rows@.take(i + 1).map_values(f);
            assert(next.drop_last() =~= rows@.take(i as int).map_values(f));
            assert(next.last() == v@);
        }
        m = lesser_number(m, v);
        i = i + 1;
    }
    assert(rows@.take(i as int) =~= rows@);
    m
}

/// The least `b` of some samples, whatever the drift.
fn min_b(rows: &[Sample]) -> (m: Option<i128>)
    requires
        all_wf(rows@),
    ensures
        same_least(m, least_b(rows@, 0)),
        m is Some <==> rows@.len() > 0,
        m matches Some(v) ==> -2 * REACH <= v <= 2 * REACH,
{
    let ghost f = |s: Sample| flat_b(s, 0);
    let mut m: Option<i128> = None;
    let mut i: usize = 0;
    assert(rows@.take(0).map_values(f) =~= Seq::<int>::empty());
    while i < rows.len()
        invariant
            i <= rows.len(),
            all_wf(rows@),
            f == (|s: Sample| flat_b(s, 0)),
            same_least(m, order::least(rows@.take(i as int).map_values(f))),
            m is Some <==> i > 0,
            m matches Some(v) ==> -2 * REACH <= v <= 2 * REACH,
        decreases rows.len() - i,
    {
        let s = rows[i];
        assert(rows@[i as int].wf());
        let v: i128 = s.b;
        proof {
            assert(s.host * 0 == 0) by (nonlinear_arith);
            let next = rows@.take(i + 1).map_values(f);
            assert(next.drop_last() =~= rows@.take(i as int).map_values(f));
            assert(next.last() == v);
        }
        m = lesser(m, v);
        i = i + 1;
    }
    assert(rows@.take(i as int) =~= rows@);
    m
}

/// The least `b` of some samples, the drift taken out.
fn flat_min_b(rows: &[Sample], slope: &Big) -> (m: Option<Big>)
    requires
        all_wf(rows@),
    ensures
        number_of(m) == least_b(rows@, slope@),
        m is Some <==> rows@.len() > 0,
{
    let ghost f = |s: Sample| flat_b(s, slope@);
    let mut m: Option<Big> = None;
    let mut i: usize = 0;
    assert(rows@.take(0).map_values(f) =~= Seq::<int>::empty());
    while i < rows.len()
        invariant
            i <= rows.len(),
            all_wf(rows@),
            f == (|s: Sample| flat_b(s, slope@)),
            number_of(m) == order::least(rows@.take(i as int).map_values(f)),
            m is Some <==> i > 0,
        decreases rows.len() - i,
    {
        let s = rows[i];
        assert(rows@[i as int].wf());
        let plain: i128 = s.b;
        let v = Big::of(plain).plus(&drift_in(s.host, slope));
        proof {
            let next = rows@.take(i + 1).map_values(f);
            assert(next.drop_last() =~= rows@.take(i as int).map_values(f));
            assert(next.last() == v@);
        }
        m = lesser_number(m, v);
        i = i + 1;
    }
    assert(rows@.take(i as int) =~= rows@);
    m
}

/// The shortest of some round trips.
fn min_rtt(rows: &[Sample]) -> (m: Option<i128>)
    requires
        all_reads(rows@),
    ensures
        same_least(m, least_rtt(rows@)),
        m is Some <==> rows@.len() > 0,
        m matches Some(v) ==> -2 * REACH <= v <= 2 * REACH,
{
    let ghost f = |s: Sample| s.rtt->0 as int;
    let mut m: Option<i128> = None;
    let mut i: usize = 0;
    assert(rows@.take(0).map_values(f) =~= Seq::<int>::empty());
    while i < rows.len()
        invariant
            i <= rows.len(),
            all_reads(rows@),
            f == (|s: Sample| s.rtt->0 as int),
            same_least(m, order::least(rows@.take(i as int).map_values(f))),
            m is Some <==> i > 0,
            m matches Some(v) ==> -2 * REACH <= v <= 2 * REACH,
        decreases rows.len() - i,
    {
        assert(is_read(rows@[i as int]));
        let rtt: i128 = match rows[i].rtt {
            Some(rtt) => rtt,
            None => 0,
        };
        proof {
            let next = rows@.take(i + 1).map_values(f);
            assert(next.drop_last() =~= rows@.take(i as int).map_values(f));
            assert(next.last() == rtt);
        }
        m = lesser(m, rtt);
        i = i + 1;
    }
    assert(rows@.take(i as int) =~= rows@);
    m
}

/// The samples of one stream.
fn pick(samples: &[Sample], stream: Stream) -> (rows: Vec<Sample>)
    requires
        all_wf(samples@),
    ensures
        rows@ == of_stream(samples@, stream),
        all_wf(rows@),
        forall|i: int| 0 <= i < rows@.len() ==> (#[trigger] rows@[i]).stream == stream,
        rows@.len() <= samples@.len(),
{
    let mut rows: Vec<Sample> = Vec::new();
    let mut i: usize = 0;
    assert(samples@.take(0) =~= Seq::empty());
    while i < samples.len()
        invariant
            i <= samples.len(),
            all_wf(samples@),
            rows@ == of_stream(samples@.take(i as int), stream),
            all_wf(rows@),
            forall|k: int| 0 <= k < rows@.len() ==> (#[trigger] rows@[k]).stream == stream,
            rows@.len() <= i,
        decreases samples.len() - i,
    {
        assert(samples@.take(i + 1).drop_last() =~= samples@.take(i as int));
        assert(samples@[i as int].wf());
        if samples[i].stream == stream {
            rows.push(samples[i]);
        }
        i = i + 1;
    }
    assert(samples@.take(i as int) =~= samples@);
    rows
}

/// The samples that are no round trips.
fn pick_one_way(samples: &[Sample]) -> (rows: Vec<Sample>)
    requires
        all_wf(samples@),
    ensures
        rows@ == one_way_only(samples@),
        all_wf(rows@),
{
    let mut rows: Vec<Sample> = Vec::new();
    let mut i: usize = 0;
    assert(samples@.take(0) =~= Seq::empty());
    while i < samples.len()
        invariant
            i <= samples.len(),
            all_wf(samples@),
            rows@ == one_way_only(samples@.take(i as int)),
            all_wf(rows@),
        decreases samples.len() - i,
    {
        assert(samples@.take(i + 1).drop_last() =~= samples@.take(i as int));
        assert(samples@[i as int].wf());
        if samples[i].stream != Stream::Read {
            rows.push(samples[i]);
        }
        i = i + 1;
    }
    assert(samples@.take(i as int) =~= samples@);
    rows
}

/// A count of nanoseconds as a duration.
fn to_span(nanos: i128) -> (d: Duration)
    ensures
        d == span_of(nanos as int),
        d.wf(),
        nanos <= MAX_NANOS ==> d@ == (if nanos > 0 {
            nanos as int
        } else {
            0
        }),
        d@ <= MAX_NANOS,
        nanos >= 0 ==> d@ <= nanos,
{
    if nanos > MAX_NANOS as i128 {
        Duration::from_nanos_u128(MAX_NANOS)
    } else if nanos > 0 {
        Duration::from_nanos_u128(nanos as u128)
    } else {
        Duration::zero()
    }
}

/// A count of nanoseconds of any size as a duration.
fn number_span(nanos: &Big) -> (d: Duration)
    ensures
        d == span_of(nanos@),
        d.wf(),
{
    match nanos.word() {
        Some(nanos) => to_span(nanos),
        None => if nanos.is_negative() {
            Duration::zero()
        } else {
            Duration::from_nanos_u128(MAX_NANOS)
        },
    }
}

/// A refusal that may be missing, its figures as integers.
pub open spec fn flaw_view(flaw: Option<Flaw>) -> Option<FlawView> {
    match flaw {
        Some(flaw) => Some(flaw@),
        None => None,
    }
}

/// The first step of more than a second between two reads.
fn find_jump(reads: &[Sample]) -> (flaw: Option<Flaw>)
    requires
        all_reads(reads@),
    ensures
        flaw_view(flaw) == jump_from(reads@, 0),
{
    let mut i: usize = 0;
    while i < reads.len() && i + 1 < reads.len()
        invariant
            i <= reads.len(),
            all_reads(reads@),
            jump_from(reads@, 0) == jump_from(reads@, i as int),
        decreases reads.len() - i,
    {
        assert(is_read(reads@[i as int]) && is_read(reads@[i + 1]));
        let before = reads[i];
        let after = reads[i + 1];
        let step: i128 = (after.device - before.device) - (after.host - before.host);
        if step > 1_000_000_000 || step < -1_000_000_000 {
            return Some(Flaw::ClockJumped { at: to_span(after.host), by: step });
        }
        i = i + 1;
    }
    None
}

/// How many round trips are shorter than a connection interval.
fn count_short(reads: &[Sample], interval: i128) -> (n: usize)
    requires
        all_reads(reads@),
    ensures
        n == short_count(reads@, interval as int),
        n <= reads@.len(),
{
    let mut n: usize = 0;
    let mut i: usize = 0;
    assert(reads@.take(0) =~= Seq::empty());
    while i < reads.len()
        invariant
            i <= reads.len(),
            all_reads(reads@),
            n <= i,
            n == short_count(reads@.take(i as int), interval as int),
        decreases reads.len() - i,
    {
        assert(is_read(reads@[i as int]));
        assert(reads@.take(i + 1).drop_last() =~= reads@.take(i as int));
        if let Some(rtt) = reads[i].rtt {
            if rtt < interval {
                n = n + 1;
            }
        }
        i = i + 1;
    }
    assert(reads@.take(i as int) =~= reads@);
    n
}

/// Which block a moment falls in.
fn key_of(host: i128, block: i128) -> (key: i128)
    requires
        -REACH <= host <= REACH,
        0 <= block <= REACH,
    ensures
        key == block_key(host as int, block as int),
        key > 0 ==> 0 <= key * block <= host,
{
    if block == 0 {
        let key: i128 = if host > 0 {
            1
        } else if host < 0 {
            -1
        } else {
            0
        };
        assert(key * block == 0) by (nonlinear_arith)
            requires
                block == 0,
        ;
        key
    } else {
        let whole: i128 = floor_div(host, block);
        let key: i128 = if whole > i64::MAX as i128 {
            i64::MAX as i128
        } else if whole < i64::MIN as i128 {
            i64::MIN as i128
        } else {
            whole
        };
        proof {
            vstd::arithmetic::div_mod::lemma_fundamental_div_mod(host as int, block as int);
            vstd::arithmetic::div_mod::lemma_mod_bound(host as int, block as int);
            if key > 0 {
                assert(0 <= key * block <= host) by (nonlinear_arith)
                    requires
                        host == block * whole + host as int % block as int,
                        0 <= host as int % block as int,
                        0 < key <= whole,
                        block > 0,
                ;
            }
        }
        key
    }
}

/// What one block comes to.
fn report(rows: &[Sample], block: i128) -> (r: BlockReport)
    requires
        all_reads(rows@),
        rows@.len() > 0,
        0 <= block <= REACH,
    ensures
        r == report_of(rows@, block as int),
        r.at@ <= REACH,
        r.at.wf(),
        -8 * REACH <= r.midpoint <= 8 * REACH,
        -4 * REACH <= r.width <= 4 * REACH,
        -4 * REACH <= r.shortest_rtt <= 4 * REACH,
{
    assert(is_read(rows@[rows@.len() - 1]));
    let key: i128 = key_of(rows[rows.len() - 1].host, block);
    let upper = min_a(rows);
    let floor = min_b(rows);
    let shortest = min_rtt(rows);
    let a: i128 = match upper {
        Some(a) => a,
        None => 0,
    };
    let b: i128 = match floor {
        Some(b) => b,
        None => 0,
    };
    let rtt: i128 = match shortest {
        Some(rtt) => rtt,
        None => 0,
    };
    let start: i128 = if key > 0 {
        key * block
    } else {
        0
    };
    proof {
        if key <= 0 {
            assert(key * block <= 0) by (nonlinear_arith)
                requires
                    key <= 0,
                    block >= 0,
            ;
        }
    }
    BlockReport {
        at: to_span(start),
        n: rows.len(),
        width: a + b,
        shortest_rtt: rtt,
        midpoint: a - b,
        contradictory: a + b < 0,
    }
}

/// The bracket over every block, in time order.
fn reports(reads: &[Sample], block: i128) -> (out: Vec<BlockReport>)
    requires
        all_reads(reads@),
        reads@.len() > 0,
        0 <= block <= REACH,
    ensures
        out@ == reports_of(groups(reads@, block as int), block as int),
        out@.len() > 0,
        forall|i: int|
            0 <= i < out@.len() ==> (#[trigger] out@[i]).at@ <= REACH && out@[i].at.wf() && -8
                * REACH <= out@[i].midpoint <= 8 * REACH && -4 * REACH <= out@[i].width <= 4
                * REACH && -4 * REACH <= out@[i].shortest_rtt <= 4 * REACH,
{
    let mut out: Vec<BlockReport> = Vec::new();
    let mut start: usize = 0;
    let mut i: usize = 1;
    proof {
        let one = reads@.take(1);
        assert(one.drop_last() =~= Seq::<Sample>::empty());
        assert(groups(one.drop_last(), block as int) =~= Seq::<Seq<Sample>>::empty());
        assert(groups(one, block as int) =~= seq![seq![reads@[0]]]);
        assert(reads@.subrange(0, 1) =~= seq![reads@[0]]);
    }
    while i < reads.len()
        invariant
            0 <= start < i <= reads.len(),
            all_reads(reads@),
            0 <= block <= REACH,
            groups(reads@.take(i as int), block as int).len() == out@.len() + 1,
            groups(reads@.take(i as int), block as int).last() == reads@.subrange(
                start as int,
                i as int,
            ),
            forall|k: int|
                0 <= k < out@.len() ==> #[trigger] out@[k] == report_of(
                    groups(reads@.take(i as int), block as int)[k],
                    block as int,
                ),
            forall|k: int|
                0 <= k < out@.len() ==> (#[trigger] out@[k]).at@ <= REACH && out@[k].at.wf() && -8
                    * REACH <= out@[k].midpoint <= 8 * REACH && -4 * REACH <= out@[k].width <= 4
                    * REACH && -4 * REACH <= out@[k].shortest_rtt <= 4 * REACH,
        decreases reads.len() - i,
    {
        let ghost run = reads@.subrange(start as int, i as int);
        assert(is_read(reads@[i as int]) && is_read(reads@[i - 1]));
        assert(reads@.take(i + 1).drop_last() =~= reads@.take(i as int));
        assert(run.last() == reads@[i - 1]);
        if key_of(reads[i].host, block) != key_of(reads[i - 1].host, block) {
            let rows = vstd::slice::slice_subrange(reads, start, i);
            assert(all_reads(rows@)) by {
                assert forall|k: int| 0 <= k < rows@.len() implies is_read(#[trigger] rows@[k]) by {
                    assert(is_read(reads@[start + k]));
                }
            }
            out.push(report(rows, block));
            start = i;
            assert(reads@.subrange(start as int, i + 1) =~= seq![reads@[i as int]]);
        } else {
            assert(reads@.subrange(start as int, i + 1) =~= run.push(reads@[i as int]));
        }
        i = i + 1;
    }
    let rows = vstd::slice::slice_subrange(reads, start, i);
    assert(all_reads(rows@)) by {
        assert forall|k: int| 0 <= k < rows@.len() implies is_read(#[trigger] rows@[k]) by {
            assert(is_read(reads@[start + k]));
        }
    }
    assert(reads@.take(i as int) =~= reads@);
    out.push(report(rows, block));
    assert(out@ =~= reports_of(groups(reads@, block as int), block as int));
    out
}

/// How many of the blocks are contradictory.
pub open spec fn bad_count(reports: Seq<BlockReport>) -> nat
    decreases reports.len(),
{
    if reports.len() == 0 {
        0
    } else if reports.last().contradictory {
        bad_count(reports.drop_last()) + 1
    } else {
        bad_count(reports.drop_last())
    }
}

fn count_bad(reports: &[BlockReport]) -> (n: usize)
    ensures
        n == bad_count(reports@),
        n <= reports@.len(),
{
    let mut n: usize = 0;
    let mut i: usize = 0;
    assert(reports@.take(0) =~= Seq::empty());
    while i < reports.len()
        invariant
            i <= reports.len(),
            n <= i,
            n == bad_count(reports@.take(i as int)),
        decreases reports.len() - i,
    {
        assert(reports@.take(i + 1).drop_last() =~= reports@.take(i as int));
        if reports[i].contradictory {
            n = n + 1;
        }
        i = i + 1;
    }
    assert(reports@.take(i as int) =~= reports@);
    n
}

/// The reads that are in no contradictory block.
///
/// Dropped entirely rather than merely flagged: everything past here is a minimum, so
/// one impossible sample would become the answer wherever it pooled.
pub open spec fn honest_reads(reads: Seq<Sample>, block: int) -> Seq<Sample> {
    kept_reads(reads, bad_keys(groups(reads, block), block), block)
}

/// The same integers, one kind standing for the other.
pub open spec fn same_keys(a: Seq<i128>, b: Seq<int>) -> bool {
    a.len() == b.len() && forall|i: int| 0 <= i < a.len() ==> #[trigger] a[i] == b[i]
}

/// The blocks whose bracket is impossible.
fn find_bad(reads: &[Sample], block: i128) -> (bad: Vec<i128>)
    requires
        all_reads(reads@),
        reads@.len() > 0,
        0 <= block <= REACH,
    ensures
        same_keys(bad@, bad_keys(groups(reads@, block as int), block as int)),
{
    let mut bad: Vec<i128> = Vec::new();
    let mut start: usize = 0;
    let mut i: usize = 1;
    proof {
        let one = reads@.take(1);
        assert(one.drop_last() =~= Seq::<Sample>::empty());
        assert(groups(one.drop_last(), block as int) =~= Seq::<Seq<Sample>>::empty());
        assert(groups(one, block as int) =~= seq![seq![reads@[0]]]);
        assert(groups(one, block as int).drop_last() =~= Seq::<Seq<Sample>>::empty());
        assert(reads@.subrange(0, 1) =~= seq![reads@[0]]);
    }
    while i < reads.len()
        invariant
            0 <= start < i <= reads.len(),
            all_reads(reads@),
            0 <= block <= REACH,
            groups(reads@.take(i as int), block as int).len() > 0,
            groups(reads@.take(i as int), block as int).last() == reads@.subrange(
                start as int,
                i as int,
            ),
            same_keys(
                bad@,
                bad_keys(groups(reads@.take(i as int), block as int).drop_last(), block as int),
            ),
        decreases reads.len() - i,
    {
        let ghost before = groups(reads@.take(i as int), block as int);
        let ghost run = reads@.subrange(start as int, i as int);
        assert(is_read(reads@[i as int]) && is_read(reads@[i - 1]));
        assert(reads@.take(i + 1).drop_last() =~= reads@.take(i as int));
        assert(run.last() == reads@[i - 1]);
        let ghost after = groups(reads@.take(i + 1), block as int);
        let key: i128 = key_of(reads[i - 1].host, block);
        if key_of(reads[i].host, block) != key {
            let rows = vstd::slice::slice_subrange(reads, start, i);
            assert(all_reads(rows@)) by {
                assert forall|k: int| 0 <= k < rows@.len() implies is_read(#[trigger] rows@[k]) by {
                    assert(is_read(reads@[start + k]));
                }
            }
            assert(after.drop_last() =~= before);
            if report(rows, block).contradictory {
                bad.push(key);
            }
            start = i;
            assert(reads@.subrange(start as int, i + 1) =~= seq![reads@[i as int]]);
        } else {
            assert(reads@.subrange(start as int, i + 1) =~= run.push(reads@[i as int]));
            assert(after.drop_last() =~= before.drop_last());
        }
        i = i + 1;
    }
    let rows = vstd::slice::slice_subrange(reads, start, i);
    assert(all_reads(rows@)) by {
        assert forall|k: int| 0 <= k < rows@.len() implies is_read(#[trigger] rows@[k]) by {
            assert(is_read(reads@[start + k]));
        }
    }
    assert(reads@.take(i as int) =~= reads@);
    assert(is_read(reads@[i - 1]));
    let key: i128 = key_of(reads[i - 1].host, block);
    if report(rows, block).contradictory {
        bad.push(key);
    }
    bad
}

fn holds_key(keys: &[i128], key: i128) -> (yes: bool)
    ensures
        yes == keys@.contains(key),
{
    let mut i: usize = 0;
    while i < keys.len()
        invariant
            i <= keys.len(),
            forall|k: int| 0 <= k < i ==> #[trigger] keys@[k] != key,
        decreases keys.len() - i,
    {
        if keys[i] == key {
            assert(keys@[i as int] == key);
            return true;
        }
        i = i + 1;
    }
    false
}

/// The reads that are in none of the bad blocks.
fn keep_reads(reads: &[Sample], bad: &[i128], block: i128, Ghost(keys): Ghost<Seq<int>>) -> (kept:
    Vec<Sample>)
    requires
        all_reads(reads@),
        0 <= block <= REACH,
        same_keys(bad@, keys),
    ensures
        kept@ == kept_reads(reads@, keys, block as int),
        all_reads(kept@),
        kept@.len() <= reads@.len(),
{
    let mut kept: Vec<Sample> = Vec::new();
    let mut i: usize = 0;
    assert(reads@.take(0) =~= Seq::empty());
    while i < reads.len()
        invariant
            i <= reads.len(),
            all_reads(reads@),
            0 <= block <= REACH,
            same_keys(bad@, keys),
            kept@ == kept_reads(reads@.take(i as int), keys, block as int),
            all_reads(kept@),
            kept@.len() <= i,
        decreases reads.len() - i,
    {
        assert(is_read(reads@[i as int]));
        assert(reads@.take(i + 1).drop_last() =~= reads@.take(i as int));
        let key: i128 = key_of(reads[i].host, block);
        let gone = holds_key(bad, key);
        proof {
            if bad@.contains(key) {
                let k = choose|k: int| 0 <= k < bad@.len() && bad@[k] == key;
                assert(keys[k] == key);
            }
            if keys.contains(key as int) {
                let k = choose|k: int| 0 <= k < keys.len() && keys[k] == key;
                assert(bad@[k] == key);
            }
        }
        if !gone {
            kept.push(reads[i]);
        }
        i = i + 1;
    }
    assert(reads@.take(i as int) =~= reads@);
    kept
}

/// The middle of each possible block.
fn middles(reports: &[BlockReport], block: i128) -> (points: Vec<Point>)
    requires
        0 <= block <= REACH,
        forall|i: int|
            0 <= i < reports@.len() ==> (#[trigger] reports@[i]).at@ <= REACH
                && reports@[i].at.wf() && -8 * REACH <= reports@[i].midpoint <= 8 * REACH,
    ensures
        points@ == points_of(reports@, block as int),
        forall|i: int| 0 <= i < points@.len() ==> (#[trigger] points@[i]).wf(),
{
    let mut points: Vec<Point> = Vec::new();
    let mut i: usize = 0;
    assert(reports@.take(0) =~= Seq::empty());
    while i < reports.len()
        invariant
            i <= reports.len(),
            0 <= block <= REACH,
            forall|i: int|
                0 <= i < reports@.len() ==> (#[trigger] reports@[i]).at@ <= REACH
                    && reports@[i].at.wf() && -8 * REACH <= reports@[i].midpoint <= 8 * REACH,
            points@ == points_of(reports@.take(i as int), block as int),
            forall|i: int| 0 <= i < points@.len() ==> (#[trigger] points@[i]).wf(),
        decreases reports.len() - i,
    {
        assert(reports@.take(i + 1).drop_last() =~= reports@.take(i as int));
        let r = reports[i];
        assert(reports@[i as int].at@ <= REACH);
        if !r.contradictory {
            points.push(Point { x: 2 * (r.at.as_nanos() as i128) + block, y: r.midpoint });
        }
        i = i + 1;
    }
    assert(reports@.take(i as int) =~= reports@);
    points
}

/// The slope from one point to another that is not straight above it.
fn slope_to(p: Point, q: Point) -> (slope: Big)
    requires
        p.x != q.x,
    ensures
        slope@ == slope_between(p, q),
{
    let dx = Big::of(q.x).minus(&Big::of(p.x));
    let dy = Big::of(q.y).minus(&Big::of(p.y));
    let one = Big::of(PER_ONE);
    if p.x < q.x {
        dy.times(&one).over(&dx)
    } else {
        dy.negated().times(&one).over(&dx.negated())
    }
}

/// The slopes between every two points.
fn all_slopes(points: &[Point]) -> (slopes: Vec<Big>)
    ensures
        order::numbers(slopes@) == slopes_of(points@),
{
    let mut slopes: Vec<Big> = Vec::new();
    let mut j: usize = 0;
    assert(points@.take(0) =~= Seq::empty());
    assert(order::numbers(slopes@) =~= slopes_of(points@.take(0)));
    while j < points.len()
        invariant
            j <= points.len(),
            order::numbers(slopes@) == slopes_of(points@.take(j as int)),
        decreases points.len() - j,
    {
        let ghost before = order::numbers(slopes@);
        let ghost front = points@.take(j as int);
        let q = points[j];
        let mut i: usize = 0;
        assert(front.take(0) =~= Seq::empty());
        assert(order::numbers(slopes@) =~= before + slopes_to(front.take(0), q));
        while i < j
            invariant
                i <= j < points.len(),
                q == points@[j as int],
                front == points@.take(j as int),
                order::numbers(slopes@) == before + slopes_to(front.take(i as int), q),
            decreases j - i,
        {
            assert(front.take(i + 1).drop_last() =~= front.take(i as int));
            if points[i].x != q.x {
                let ghost so_far = slopes_to(front.take(i as int), q);
                let ghost held = slopes@;
                slopes.push(slope_to(points[i], q));
                assert(order::numbers(slopes@) =~= order::numbers(held).push(
                    slope_between(points@[i as int], q),
                ));
                assert(order::numbers(slopes@) =~= before + so_far.push(
                    slope_between(points@[i as int], q),
                ));
            }
            i = i + 1;
        }
        assert(front.take(i as int) =~= front);
        assert(points@.take(j + 1).drop_last() =~= front);
        j = j + 1;
    }
    assert(points@.take(j as int) =~= points@);
    slopes
}

/// Theil-Sen slope and intercept of some points, or nothing if there is no line.
///
/// The median of all pairwise slopes, not least squares: these are block midpoints, few
/// of them, and one bad block moves its midpoint by tens of milliseconds where the
/// honest ones sit within a fraction of one. Least squares hands such a block most of
/// the fit; this ignores it.
pub fn fit(points: &[Point]) -> (line: Option<Line>)
    ensures
        line_view(line) == line_through(points@),
{
    if points.len() < 2 {
        return None;
    }
    let slopes = all_slopes(points);
    assert(slopes@.len() == order::numbers(slopes@).len());
    if slopes.len() == 0 {
        return None;
    }
    let in_order = sort_numbers(&slopes);
    proof {
        order::ranking_puts_everything_in_order(order::numbers(slopes@));
        assert(in_order@.len() == order::numbers(in_order@).len());
    }
    let slope = in_order[slopes.len() / 2].copy();
    assert(slope@ == order::numbers(in_order@)[slopes@.len() as int / 2]);
    let mut above: Vec<Big> = Vec::new();
    let mut i: usize = 0;
    while i < points.len()
        invariant
            i <= points.len(),
            above@.len() == i,
            forall|k: int| 0 <= k < i ==> (#[trigger] above@[k])@ == heights(points@, slope@)[k],
        decreases points.len() - i,
    {
        let p = points[i];
        above.push(Big::of(p.y).minus(&drift_in(p.x, &slope)));
        i = i + 1;
    }
    assert(order::numbers(above@) =~= heights(points@, slope@));
    let level = sort_numbers(&above);
    proof {
        order::ranking_puts_everything_in_order(order::numbers(above@));
        assert(level@.len() == order::numbers(level@).len());
    }
    let intercept = level[points.len() / 2].copy();
    assert(intercept@ == order::numbers(level@)[points@.len() as int / 2]);
    Some(Line { slope, intercept })
}

/// A line that may be missing, its figures as integers.
pub open spec fn line_view(line: Option<Line>) -> Option<LineView> {
    match line {
        Some(line) => Some(line@),
        None => None,
    }
}

/// How far a point is from a line.
pub open spec fn residual(p: Point, line: LineView) -> int {
    p.y - (drift_over(p.x as int, line.slope) + line.intercept)
}

/// The sum of the squares of the distances from a line.
pub open spec fn squares(points: Seq<Point>, line: LineView) -> int
    decreases points.len(),
{
    if points.len() == 0 {
        0
    } else {
        squares(points.drop_last(), line) + residual(points.last(), line) * residual(
            points.last(),
            line,
        )
    }
}

/// How far the points scatter about a line: the root of the mean square.
fn scatter(points: &[Point], line: &Line) -> (rms: Big)
    requires
        points@.len() > 0,
    ensures
        big::is_root(rms@, squares(points@, line@) / (points@.len() as int)),
{
    let mut sum = Big::of(0);
    let mut i: usize = 0;
    assert(points@.take(0) =~= Seq::empty());
    while i < points.len()
        invariant
            i <= points.len(),
            sum@ == squares(points@.take(i as int), line@),
            sum@ >= 0,
        decreases points.len() - i,
    {
        assert(points@.take(i + 1).drop_last() =~= points@.take(i as int));
        let p = points[i];
        let r = Big::of(p.y).minus(&drift_in(p.x, &line.slope).plus(&line.intercept));
        assert(r@ * r@ >= 0) by (nonlinear_arith);
        sum = sum.plus(&r.times(&r));
        i = i + 1;
    }
    assert(points@.take(i as int) =~= points@);
    proof {
        vstd::arithmetic::div_mod::lemma_div_pos_is_pos(sum@, points@.len() as int);
    }
    sum.over(&Big::of_size(points.len() as u128)).square_root()
}

/// A figure over a growing prefix of the samples.
#[derive(Clone, Debug)]
pub struct Step {
    pub n: usize,
    /// In nanoseconds.
    pub value: Big,
}

/// The sizes of some prefixes, and the figures over them.
pub open spec fn steps_of(steps: Seq<Step>) -> Seq<(nat, int)> {
    steps.map_values(|s: Step| (s.n as nat, s.value@))
}

/// How many samples each prefix has more than the one before.
pub open spec fn stride(len: nat, steps: nat) -> nat {
    if len / steps == 0 {
        1
    } else {
        len / steps
    }
}

/// The pooled bracket over growing prefixes of the reads.
pub open spec fn converge_of(reads: Seq<Sample>, slope: int, steps: nat) -> Seq<(nat, int)> {
    let ordered = order::ranked(reads);
    let step = stride(ordered.len(), steps);
    Seq::new(
        ordered.len() / step,
        |i: int|
            {
                let cut = (i + 1) * step;
                (
                    cut as nat,
                    least_a(ordered.take(cut), slope)->0 + least_b(ordered.take(cut), slope)->0,
                )
            },
    )
}

/// The free-running advertisement floor over growing prefixes. A floor still falling at
/// the last step means that the true staleness is *lower* than reported.
pub open spec fn advert_converge_of(
    adverts: Seq<Sample>,
    slope: int,
    lower_best: int,
    steps: nat,
) -> Seq<(nat, int)> {
    let ordered = order::ranked(adverts);
    let step = stride(ordered.len(), steps);
    Seq::new(
        ordered.len() / step,
        |i: int|
            {
                let cut = (i + 1) * step;
                (cut as nat, least_b(ordered.take(cut), slope)->0 - lower_best)
            },
    )
}

proof fn lemma_cut(k: int, count: int, step: int, len: int)
    requires
        0 <= k < count,
        count == len / step,
        step >= 1,
        len >= 0,
    ensures
        0 < (k + 1) * step <= len,
{
    vstd::arithmetic::div_mod::lemma_fundamental_div_mod(len, step);
    assert(0 < (k + 1) * step <= len) by (nonlinear_arith)
        requires
            0 <= k < count,
            len == step * count + len % step,
            len % step >= 0,
            step >= 1,
    ;
}

/// The pooled bracket over growing prefixes of the reads.
fn converge(reads: &[Sample], slope: &Big, steps: usize) -> (out: Vec<Step>)
    requires
        all_reads(reads@),
        steps > 0,
    ensures
        steps_of(out@) == converge_of(reads@, slope@, steps as nat),
{
    let ordered = sort(reads);
    proof {
        order::ranking_keeps_every_item(reads@, |s: Sample| is_read(s));
        assert(all_reads(ordered@)) by {
            assert forall|i: int| 0 <= i < ordered@.len() implies is_read(#[trigger] ordered@[i]) by {
                assert((|s: Sample| is_read(s))(order::ranked(reads@)[i]));
            }
        }
    }
    let len: usize = ordered.len();
    let step: usize = if len / steps == 0 {
        1
    } else {
        len / steps
    };
    let count: usize = len / step;
    let mut out: Vec<Step> = Vec::new();
    let mut k: usize = 0;
    while k < count
        invariant
            k <= count,
            step >= 1,
            count == len / step,
            len == ordered@.len(),
            ordered@ == order::ranked(reads@),
            all_reads(ordered@),
            step == stride(len as nat, steps as nat),
            out@.len() == k,
            converge_of(reads@, slope@, steps as nat).len() == count,
            forall|i: int|
                0 <= i < k ==> steps_of(out@)[i] == #[trigger] converge_of(
                    reads@,
                    slope@,
                    steps as nat,
                )[i],
        decreases count - k,
    {
        proof {
            lemma_cut(k as int, count as int, step as int, len as int);
        }
        let cut: usize = (k + 1) * step;
        let window = vstd::slice::slice_subrange(ordered.as_slice(), 0, cut);
        assert(window@ =~= ordered@.take(cut as int));
        assert(all_reads(window@)) by {
            assert forall|i: int| 0 <= i < window@.len() implies is_read(#[trigger] window@[i]) by {
                assert(is_read(ordered@[i]));
            }
        }
        assert(all_wf(window@)) by {
            assert forall|i: int| 0 <= i < window@.len() implies (#[trigger] window@[i]).wf() by {
                assert(is_read(window@[i]));
            }
        }
        let a = match flat_min_a(window, slope) {
            Some(a) => a,
            None => Big::of(0),
        };
        let b = match flat_min_b(window, slope) {
            Some(b) => b,
            None => Big::of(0),
        };
        let ghost before = out@;
        out.push(Step { n: cut, value: a.plus(&b) });
        assert(steps_of(out@) =~= steps_of(before).push((cut as nat, a@ + b@)));
        k = k + 1;
    }
    assert(steps_of(out@) =~= converge_of(reads@, slope@, steps as nat));
    out
}

/// The free-running advertisement floor over growing prefixes.
fn advert_converge(adverts: &[Sample], slope: &Big, lower_best: &Big, steps: usize) -> (out: Vec<
    Step,
>)
    requires
        all_wf(adverts@),
        steps > 0,
    ensures
        steps_of(out@) == advert_converge_of(adverts@, slope@, lower_best@, steps as nat),
{
    let ordered = sort(adverts);
    proof {
        order::ranking_keeps_every_item(adverts@, |s: Sample| s.wf());
        assert(all_wf(ordered@)) by {
            assert forall|i: int| 0 <= i < ordered@.len() implies (#[trigger] ordered@[i]).wf() by {
                assert((|s: Sample| s.wf())(order::ranked(adverts@)[i]));
            }
        }
    }
    let len: usize = ordered.len();
    let step: usize = if len / steps == 0 {
        1
    } else {
        len / steps
    };
    let count: usize = len / step;
    let mut out: Vec<Step> = Vec::new();
    let mut k: usize = 0;
    while k < count
        invariant
            k <= count,
            step >= 1,
            count == len / step,
            len == ordered@.len(),
            ordered@ == order::ranked(adverts@),
            all_wf(ordered@),
            step == stride(len as nat, steps as nat),
            out@.len() == k,
            advert_converge_of(adverts@, slope@, lower_best@, steps as nat).len() == count,
            forall|i: int|
                0 <= i < k ==> steps_of(out@)[i] == #[trigger] advert_converge_of(
                    adverts@,
                    slope@,
                    lower_best@,
                    steps as nat,
                )[i],
        decreases count - k,
    {
        proof {
            lemma_cut(k as int, count as int, step as int, len as int);
        }
        let cut: usize = (k + 1) * step;
        let window = vstd::slice::slice_subrange(ordered.as_slice(), 0, cut);
        assert(window@ =~= ordered@.take(cut as int));
        assert(all_wf(window@)) by {
            assert forall|i: int| 0 <= i < window@.len() implies (#[trigger] window@[i]).wf() by {
                assert(ordered@[i].wf());
            }
        }
        let b = match flat_min_b(window, slope) {
            Some(b) => b,
            None => Big::of(0),
        };
        let ghost before = out@;
        out.push(Step { n: cut, value: b.minus(lower_best) });
        assert(steps_of(out@) =~= steps_of(before).push((cut as nat, b@ - lower_best@)));
        k = k + 1;
    }
    assert(steps_of(out@) =~= advert_converge_of(adverts@, slope@, lower_best@, steps as nat));
    out
}

/// How much later an advertisement lands when a link is up to the box.
///
/// Compared at **matched sample counts**, because a minimum over fewer samples sits
/// higher for that reason alone and would otherwise look like a slower path.
#[derive(Clone, Copy, Debug, PartialEq, Eq, Structural)]
pub struct Suppression {
    /// The matched count: the smaller of the two populations.
    pub n: usize,
    /// The connected population's floor, measured from whichever of the two landed
    /// soonest.
    pub connected: Duration,
    /// The free-running population's floor, on the same reference.
    pub free_running: Duration,
}

/// How much later a connected advertisement lands, in nanoseconds.
pub open spec fn penalty_of(s: Suppression) -> int {
    s.connected@ - s.free_running@
}

impl Suppression {
    /// How much later a connected advertisement lands, in nanoseconds, signed.
    pub fn penalty(&self) -> (nanos: i128)
        ensures
            nanos == penalty_of(*self),
            nanos == self.connected@ - self.free_running@,
    {
        self.connected.as_nanos() as i128 - self.free_running.as_nanos() as i128
    }
}

/// Connected against free-running advertisements, at matched sample counts. Nothing
/// unless both populations exist.
pub open spec fn suppression_of(others: Seq<Sample>, slope: int) -> Option<Suppression> {
    let inside = order::ranked(of_stream(others, Stream::ConnectedAdvert));
    let between = order::ranked(of_stream(others, Stream::Advert));
    if inside.len() == 0 || between.len() == 0 {
        None
    } else {
        let n = if inside.len() <= between.len() {
            inside.len()
        } else {
            between.len()
        };
        let floor_in = least_b(inside.take(n as int), slope)->0;
        let floor_out = least_b(between.take(n as int), slope)->0;
        let reference = if floor_in < floor_out {
            floor_in
        } else {
            floor_out
        };
        Some(
            Suppression {
                n: n as usize,
                connected: span_of(floor_in - reference),
                free_running: span_of(floor_out - reference),
            },
        )
    }
}

/// The `b` floor of the first `n` samples.
fn prefix_floor(rows: &[Sample], n: usize, slope: &Big) -> (floor: Big)
    requires
        all_wf(rows@),
        0 < n <= rows@.len(),
    ensures
        Some(floor@) == least_b(rows@.take(n as int), slope@),
{
    let window = vstd::slice::slice_subrange(rows, 0, n);
    assert(window@ =~= rows@.take(n as int));
    assert(all_wf(window@)) by {
        assert forall|i: int| 0 <= i < window@.len() implies (#[trigger] window@[i]).wf() by {
            assert(rows@[i].wf());
        }
    }
    match flat_min_b(window, slope) {
        Some(b) => b,
        None => Big::of(0),
    }
}

/// Connected against free-running advertisements, at matched sample counts.
fn suppression(others: &[Sample], slope: &Big) -> (s: Option<Suppression>)
    requires
        all_wf(others@),
    ensures
        s == suppression_of(others@, slope@),
        s matches Some(s) ==> s.connected.wf() && s.free_running.wf(),
{
    let connected = pick(others, Stream::ConnectedAdvert);
    let free = pick(others, Stream::Advert);
    let inside = sort(connected.as_slice());
    let between = sort(free.as_slice());
    proof {
        order::ranking_keeps_every_item(connected@, |s: Sample| s.wf());
        order::ranking_keeps_every_item(free@, |s: Sample| s.wf());
        assert forall|i: int| 0 <= i < inside@.len() implies (#[trigger] inside@[i]).wf() by {
            assert((|s: Sample| s.wf())(order::ranked(connected@)[i]));
        }
        assert forall|i: int| 0 <= i < between@.len() implies (#[trigger] between@[i]).wf() by {
            assert((|s: Sample| s.wf())(order::ranked(free@)[i]));
        }
    }
    if inside.len() == 0 || between.len() == 0 {
        return None;
    }
    let n: usize = if inside.len() <= between.len() {
        inside.len()
    } else {
        between.len()
    };
    let floor_in = prefix_floor(inside.as_slice(), n, slope);
    let floor_out = prefix_floor(between.as_slice(), n, slope);
    let reference = if floor_out.at_most(&floor_in) {
        floor_out.copy()
    } else {
        floor_in.copy()
    };
    Some(
        Suppression {
            n,
            connected: number_span(&floor_in.minus(&reference)),
            free_running: number_span(&floor_out.minus(&reference)),
        },
    )
}

/// When the last sample landed.
pub open spec fn latest(samples: Seq<Sample>) -> int
    decreases samples.len(),
{
    if samples.len() == 0 {
        0
    } else if samples.last().host > latest(samples.drop_last()) {
        samples.last().host as int
    } else {
        latest(samples.drop_last())
    }
}

fn last_landed(samples: &[Sample]) -> (host: i128)
    requires
        all_wf(samples@),
    ensures
        host == latest(samples@),
        0 <= host <= REACH,
{
    let mut host: i128 = 0;
    let mut i: usize = 0;
    assert(samples@.take(0) =~= Seq::empty());
    while i < samples.len()
        invariant
            i <= samples.len(),
            all_wf(samples@),
            host == latest(samples@.take(i as int)),
            0 <= host <= REACH,
        decreases samples.len() - i,
    {
        assert(samples@.take(i + 1).drop_last() =~= samples@.take(i as int));
        assert(samples@[i as int].wf());
        if samples[i].host > host {
            host = samples[i].host;
        }
        i = i + 1;
    }
    assert(samples@.take(i as int) =~= samples@);
    host
}

/// What one stream's least delayed reading cost.
#[derive(Clone, Copy, Debug, PartialEq, Eq, Structural)]
pub struct Staleness {
    pub stream: Stream,
    /// How many readings of the stream the capture held.
    pub n: usize,
    pub bracket: Bracket,
}

/// What a capture turned out to say. Produced by [`Calibrator::finish`].
#[derive(Clone, Debug)]
pub struct Calibration {
    pub offset: Duration,
    pub bracket_width: Duration,
    pub staleness: Vec<Staleness>,
    /// In 10^-9 ppm.
    pub drift_ppm: Option<Big>,
    /// In halves of a nanosecond.
    pub drift_residual: Option<Big>,
    pub suppression: Option<Suppression>,
    pub converge: Vec<Step>,
    pub advert_converge: Vec<Step>,
    pub round_trips: usize,
    pub span: Duration,
    pub blocks: Vec<BlockReport>,
    pub contradictory: usize,
    pub undecoded: usize,
    pub short_rtts: usize,
    pub shortest_rtt: Duration,
}

/// The block reports of a capture.
pub open spec fn capture_blocks(samples: Seq<Sample>, block: int) -> Seq<BlockReport> {
    reports_of(groups(reads_in_order(samples), block), block)
}

/// The reads that go into the answer.
pub open spec fn capture_reads(samples: Seq<Sample>, block: int) -> Seq<Sample> {
    honest_reads(reads_in_order(samples), block)
}

/// The points the drift is fitted to.
pub open spec fn capture_points(samples: Seq<Sample>, block: int) -> Seq<Point> {
    points_of(capture_blocks(samples, block), block)
}

/// The drift that is taken out before anything is pooled.
pub open spec fn capture_slope(samples: Seq<Sample>, block: int) -> int {
    match line_through(capture_points(samples, block)) {
        Some(line) => line.slope,
        None => 0,
    }
}

/// The bound on the offset from above: the least `a` over the reads.
pub open spec fn upper_read(samples: Seq<Sample>, block: int) -> int {
    least_a(capture_reads(samples, block), capture_slope(samples, block))->0
}

/// The lesser of two minima, where either may be missing.
pub open spec fn lesser_of(a: Option<int>, b: Option<int>) -> Option<int> {
    match (a, b) {
        (Some(x), Some(y)) => if y < x {
            Some(y)
        } else {
            Some(x)
        },
        (Some(x), None) => Some(x),
        (None, y) => y,
    }
}

/// The bound on the offset from below: the least `b`, over whichever stream reached the
/// host soonest after being stamped.
pub open spec fn lower_best(samples: Seq<Sample>, block: int) -> int {
    let slope = capture_slope(samples, block);
    lesser_of(
        least_b(capture_reads(samples, block), slope),
        least_b(one_way_only(samples), slope),
    )->0
}

/// The rows of one stream that go into the answer.
pub open spec fn rows_of(samples: Seq<Sample>, block: int, stream: Stream) -> Seq<Sample> {
    if stream == Stream::Read {
        capture_reads(samples, block)
    } else {
        of_stream(one_way_only(samples), stream)
    }
}

/// What a stream's least delayed reading cost, if there is any of it: how far behind the
/// device's own clock that reading was when it landed. That is its `b` plus the offset,
/// with the offset between the two bounds.
pub open spec fn cost_of(
    rows: Seq<Sample>,
    stream: Stream,
    slope: int,
    lower: int,
    upper: int,
) -> Seq<Staleness> {
    match least_b(rows, slope) {
        None => Seq::empty(),
        Some(floor) => seq![
            Staleness {
                stream,
                n: rows.len() as usize,
                bracket: Bracket { low: span_of(floor - lower), high: span_of(floor + upper) },
            },
        ],
    }
}

/// What one stream of a capture cost.
pub open spec fn staleness_entry(
    samples: Seq<Sample>,
    block: int,
    stream: Stream,
) -> Seq<Staleness> {
    cost_of(
        rows_of(samples, block, stream),
        stream,
        capture_slope(samples, block),
        lower_best(samples, block),
        upper_read(samples, block),
    )
}

/// The same of every stream, in report order.
pub open spec fn staleness_of(samples: Seq<Sample>, block: int) -> Seq<Staleness> {
    costs_of(
        capture_reads(samples, block),
        one_way_only(samples),
        capture_slope(samples, block),
        lower_best(samples, block),
        upper_read(samples, block),
    )
}

/// What stands against the round trips of a capture, if anything.
pub open spec fn read_flaw(samples: Seq<Sample>, block: int, interval: int) -> Option<FlawView> {
    let reads = reads_in_order(samples);
    let blocks = capture_blocks(samples, block);
    if reads.len() == 0 {
        Some(FlawView::NoRoundTrips)
    } else if jump_from(reads, 0) is Some {
        jump_from(reads, 0)
    } else if 50 * short_count(reads, interval) > reads.len() {
        Some(
            FlawView::NotRoundTrips {
                short: short_count(reads, interval),
                total: reads.len(),
                shortest: span_of(least_rtt(reads)->0),
            },
        )
    } else if bad_count(blocks) == blocks.len() || capture_reads(samples, block).len() == 0 {
        Some(FlawView::EveryBlockContradictory { blocks: blocks.len() })
    } else {
        None
    }
}

/// What stands against a capture, if anything. Each check is a refusal, because
/// everything downstream of it is a minimum.
pub open spec fn flaw_of(samples: Seq<Sample>, block: int, interval: int) -> Option<FlawView> {
    if read_flaw(samples, block, interval) is Some {
        read_flaw(samples, block, interval)
    } else if upper_read(samples, block) + lower_best(samples, block) < 0 {
        Some(
            FlawView::StreamsContradict {
                upper: upper_read(samples, block),
                lower: lower_best(samples, block),
            },
        )
    } else if of_stream(one_way_only(samples), Stream::Advert).len() == 0 {
        Some(FlawView::NoFreeRunning)
    } else {
        None
    }
}

/// A calibration says what the capture does.
pub open spec fn is_calibration(
    c: Calibration,
    samples: Seq<Sample>,
    block: int,
    interval: int,
    undecoded: usize,
) -> bool {
    let slope = capture_slope(samples, block);
    let reads = capture_reads(samples, block);
    let others = one_way_only(samples);
    let points = capture_points(samples, block);
    let advert = staleness_entry(samples, block, Stream::Advert);
    &&& advert.len() == 1
    &&& c.offset@ == advert[0].bracket.low@ + jam::bracket_span(advert[0].bracket) / 2
    &&& c.bracket_width == span_of(
        upper_read(samples, block) + least_b(reads, slope)->0,
    )
    &&& c.staleness@ == staleness_of(samples, block)
    &&& number_of(c.drift_ppm) == (if points.len() >= 3 {
        Some(slope)
    } else {
        None::<int>
    })
    &&& c.drift_residual is Some <==> points.len() >= 3 && line_through(points) is Some
    &&& c.drift_residual matches Some(rms) ==> big::is_root(
        rms@,
        squares(points, line_through(points)->0) / (points.len() as int),
    )
    &&& c.suppression == suppression_of(others, slope)
    &&& steps_of(c.converge@) == converge_of(reads, slope, 8)
    &&& steps_of(c.advert_converge@) == advert_converge_of(
        of_stream(others, Stream::Advert),
        slope,
        lower_best(samples, block),
        6,
    )
    &&& c.round_trips == reads.len()
    &&& c.span == span_of(latest(samples))
    &&& c.blocks@ == capture_blocks(samples, block)
    &&& c.contradictory == bad_count(c.blocks@)
    &&& c.undecoded == undecoded
    &&& c.short_rtts == short_count(reads_in_order(samples), interval)
    &&& c.shortest_rtt == span_of(least_rtt(reads_in_order(samples))->0)
}

impl Calibration {
    /// Every duration in it is one, and every figure small enough to be written.
    pub open spec fn wf(self) -> bool {
        &&& self.offset.wf()
        &&& self.bracket_width.wf()
        &&& self.span.wf()
        &&& self.shortest_rtt.wf()
        &&& self.suppression matches Some(s) ==> s.connected.wf() && s.free_running.wf()
        &&& forall|i: int|
            0 <= i < self.staleness@.len() ==> (#[trigger] self.staleness@[i]).bracket.wf()
        &&& forall|i: int|
            0 <= i < self.blocks@.len() ==> (#[trigger] self.blocks@[i]).at.wf() && -4 * REACH
                <= self.blocks@[i].width <= 4 * REACH && -4 * REACH <= self.blocks@[i].shortest_rtt
                <= 4 * REACH
    }
}

/// Adds what a stream's least delayed reading cost, if there is any of it.
fn put_cost(
    costs: &mut Vec<Staleness>,
    rows: &[Sample],
    stream: Stream,
    slope: &Big,
    lower: &Big,
    upper: &Big,
)
    requires
        all_wf(rows@),
        forall|i: int| 0 <= i < old(costs)@.len() ==> (#[trigger] old(costs)@[i]).bracket.wf(),
    ensures
        final(costs)@ == old(costs)@ + cost_of(rows@, stream, slope@, lower@, upper@),
        forall|i: int| 0 <= i < final(costs)@.len() ==> (#[trigger] final(costs)@[i]).bracket.wf(),
        final(costs)@.len() == old(costs)@.len() + (if rows@.len() > 0 {
            1int
        } else {
            0
        }),
{
    if let Some(floor) = flat_min_b(rows, slope) {
        costs.push(
            Staleness {
                stream,
                n: rows.len(),
                bracket: Bracket {
                    low: number_span(&floor.minus(lower)),
                    high: number_span(&floor.plus(upper)),
                },
            },
        );
    }
    assert(costs@ =~= old(costs)@ + cost_of(rows@, stream, slope@, lower@, upper@));
}

/// What every stream cost, in report order.
pub open spec fn costs_of(
    kept: Seq<Sample>,
    others: Seq<Sample>,
    slope: int,
    lower: int,
    upper: int,
) -> Seq<Staleness> {
    cost_of(kept, Stream::Read, slope, lower, upper) + cost_of(
        of_stream(others, Stream::Notify),
        Stream::Notify,
        slope,
        lower,
        upper,
    ) + cost_of(
        of_stream(others, Stream::ConnectedAdvert),
        Stream::ConnectedAdvert,
        slope,
        lower,
        upper,
    ) + cost_of(of_stream(others, Stream::Advert), Stream::Advert, slope, lower, upper)
}

/// What every stream cost, in report order.
fn costs(kept: &[Sample], others: &[Sample], slope: &Big, lower: &Big, upper: &Big) -> (out: Vec<
    Staleness,
>)
    requires
        all_wf(kept@),
        all_wf(others@),
    ensures
        out@ == costs_of(kept@, others@, slope@, lower@, upper@),
        forall|i: int| 0 <= i < out@.len() ==> (#[trigger] out@[i]).bracket.wf(),
        of_stream(others@, Stream::Advert).len() > 0 ==> out@.len() > 0 && cost_of(
            of_stream(others@, Stream::Advert),
            Stream::Advert,
            slope@,
            lower@,
            upper@,
        ) == seq![out@.last()],
{
    let mut out: Vec<Staleness> = Vec::new();
    put_cost(&mut out, kept, Stream::Read, slope, lower, upper);
    let notes = pick(others, Stream::Notify);
    put_cost(&mut out, notes.as_slice(), Stream::Notify, slope, lower, upper);
    let connected = pick(others, Stream::ConnectedAdvert);
    put_cost(&mut out, connected.as_slice(), Stream::ConnectedAdvert, slope, lower, upper);
    let adverts = pick(others, Stream::Advert);
    put_cost(&mut out, adverts.as_slice(), Stream::Advert, slope, lower, upper);
    assert(out@ =~= costs_of(kept@, others@, slope@, lower@, upper@));
    out
}

/// The bounds on the offset.
struct Bounds {
    /// The least `a` over the reads.
    upper: Big,
    /// The least `b` over the reads.
    read_floor: Big,
    /// The least `b` over every stream.
    lower: Big,
}

fn bounds(kept: &[Sample], others: &[Sample], slope: &Big) -> (b: Bounds)
    requires
        all_reads(kept@),
        kept@.len() > 0,
        all_wf(others@),
    ensures
        Some(b.upper@) == least_a(kept@, slope@),
        Some(b.read_floor@) == least_b(kept@, slope@),
        Some(b.lower@) == lesser_of(least_b(kept@, slope@), least_b(others@, slope@)),
{
    assert(all_wf(kept@)) by {
        assert forall|i: int| 0 <= i < kept@.len() implies (#[trigger] kept@[i]).wf() by {
            assert(is_read(kept@[i]));
        }
    }
    let upper = match flat_min_a(kept, slope) {
        Some(a) => a,
        None => Big::of(0),
    };
    let read_floor = match flat_min_b(kept, slope) {
        Some(b) => b,
        None => Big::of(0),
    };
    let lower = match flat_min_b(others, slope) {
        Some(b) => if read_floor.at_most(&b) {
            read_floor.copy()
        } else {
            b
        },
        None => read_floor.copy(),
    };
    Bounds { upper, read_floor, lower }
}

/// The round trips of a capture, checked and cut into blocks.
struct Checked {
    blocks: Vec<BlockReport>,
    contradictory: usize,
    kept: Vec<Sample>,
    short: usize,
    shortest: i128,
    points: Vec<Point>,
    line: Option<Line>,
    slope: Big,
}

/// What the checks hand on.
spec fn is_checked(c: Checked, samples: Seq<Sample>, block: int, interval: int) -> bool {
    &&& c.blocks@ == capture_blocks(samples, block)
    &&& c.contradictory == bad_count(c.blocks@)
    &&& c.kept@ == capture_reads(samples, block)
    &&& c.kept@.len() > 0
    &&& all_reads(c.kept@)
    &&& c.short == short_count(reads_in_order(samples), interval)
    &&& Some(c.shortest as int) == least_rtt(reads_in_order(samples))
    &&& -2 * REACH <= c.shortest <= 2 * REACH
    &&& c.points@ == capture_points(samples, block)
    &&& forall|i: int| 0 <= i < c.points@.len() ==> (#[trigger] c.points@[i]).wf()
    &&& line_view(c.line) == line_through(c.points@)
    &&& c.slope@ == capture_slope(samples, block)
    &&& forall|i: int|
        0 <= i < c.blocks@.len() ==> (#[trigger] c.blocks@[i]).at.wf() && -4 * REACH
            <= c.blocks@[i].width <= 4 * REACH && -4 * REACH <= c.blocks@[i].shortest_rtt <= 4
            * REACH
}

impl Calibrator {
    /// Runs the checks on the round trips, and fits the drift to their blocks.
    fn check_reads(&self, block: i128) -> (result: Result<Checked, Flaw>)
        requires
            self.wf(),
            0 <= block <= REACH,
        ensures
            match result {
                Err(flaw) => Some(flaw@) == read_flaw(
                    self.samples@,
                    block as int,
                    self.interval@ as int,
                ),
                Ok(c) => read_flaw(self.samples@, block as int, self.interval@ as int) is None
                    && is_checked(c, self.samples@, block as int, self.interval@ as int),
            },
    {
        let found = pick(self.samples.as_slice(), Stream::Read);
        let reads = sort(found.as_slice());
        proof {
            assert forall|i: int| 0 <= i < found@.len() implies is_read(#[trigger] found@[i]) by {
                assert(found@[i].wf());
            }
            order::ranking_keeps_every_item(found@, |s: Sample| is_read(s));
            assert forall|i: int| 0 <= i < reads@.len() implies is_read(#[trigger] reads@[i]) by {
                assert((|s: Sample| is_read(s))(order::ranked(found@)[i]));
            }
        }
        if reads.len() == 0 {
            return Err(Flaw::NoRoundTrips);
        }
        if let Some(flaw) = find_jump(reads.as_slice()) {
            return Err(flaw);
        }
        let interval: i128 = self.interval.as_nanos() as i128;
        let short: usize = count_short(reads.as_slice(), interval);
        let shortest: i128 = match min_rtt(reads.as_slice()) {
            Some(rtt) => rtt,
            None => 0,
        };
        if 50 * (short as u128) > reads.len() as u128 {
            return Err(
                Flaw::NotRoundTrips { short, total: reads.len(), shortest: to_span(shortest) },
            );
        }
        let blocks = reports(reads.as_slice(), block);
        let contradictory: usize = count_bad(blocks.as_slice());
        let bad = find_bad(reads.as_slice(), block);
        let kept = keep_reads(
            reads.as_slice(),
            bad.as_slice(),
            block,
            Ghost(bad_keys(groups(reads@, block as int), block as int)),
        );
        if contradictory == blocks.len() || kept.len() == 0 {
            return Err(Flaw::EveryBlockContradictory { blocks: blocks.len() });
        }
        let points = middles(blocks.as_slice(), block);
        let line = fit(points.as_slice());
        let slope = match &line {
            Some(line) => line.slope.copy(),
            None => Big::of(0),
        };
        Ok(Checked { blocks, contradictory, kept, short, shortest, points, line, slope })
    }

    /// Reduces everything collected so far, or says why it cannot be.
    ///
    /// The checks run in the order they are cheapest to explain. There must be round
    /// trips at all; the device clock must not have stepped; the round trips must
    /// actually be round trips; blocks whose bracket is impossible are dropped along
    /// with their reads; the drift is fitted robustly and taken out before anything is
    /// pooled; and the capture must hold free-running advertisements, or the constant it
    /// would hand back describes a state no passive clock is ever in.
    pub fn finish(&self) -> (result: Result<Calibration, Flaw>)
        requires
            self.wf(),
        ensures
            match result {
                Err(flaw) => Some(flaw@) == flaw_of(
                    self.samples@,
                    self.block@ as int,
                    self.interval@ as int,
                ),
                Ok(c) => flaw_of(self.samples@, self.block@ as int, self.interval@ as int)
                    is None && is_calibration(
                    c,
                    self.samples@,
                    self.block@ as int,
                    self.interval@ as int,
                    self.undecoded,
                ) && c.wf(),
            },
    {
        let block: i128 = self.block.as_nanos() as i128;
        let checked = match self.check_reads(block) {
            Ok(checked) => checked,
            Err(flaw) => {
                return Err(flaw);
            },
        };
        let slope = checked.slope;
        let others = pick_one_way(self.samples.as_slice());
        assert(all_wf(checked.kept@)) by {
            assert forall|i: int| 0 <= i < checked.kept@.len() implies (
            #[trigger] checked.kept@[i]).wf() by {
                assert(is_read(checked.kept@[i]));
            }
        }
        let b = bounds(checked.kept.as_slice(), others.as_slice(), &slope);
        if b.upper.plus(&b.lower).is_negative() {
            return Err(Flaw::StreamsContradict { upper: b.upper, lower: b.lower });
        }
        let adverts = pick(others.as_slice(), Stream::Advert);
        if adverts.len() == 0 {
            return Err(Flaw::NoFreeRunning);
        }
        let staleness = costs(
            checked.kept.as_slice(),
            others.as_slice(),
            &slope,
            &b.lower,
            &b.upper,
        );
        let offset = staleness[staleness.len() - 1].bracket.midpoint();
        let enough: bool = checked.points.len() >= 3;
        let drift_residual = match &checked.line {
            Some(line) => if enough {
                Some(scatter(checked.points.as_slice(), line))
            } else {
                None
            },
            None => None,
        };
        Ok(
            Calibration {
                offset,
                bracket_width: number_span(&b.upper.plus(&b.read_floor)),
                staleness,
                suppression: suppression(others.as_slice(), &slope),
                converge: converge(checked.kept.as_slice(), &slope, 8),
                advert_converge: advert_converge(adverts.as_slice(), &slope, &b.lower, 6),
                drift_ppm: if enough {
                    Some(slope)
                } else {
                    None
                },
                drift_residual,
                round_trips: checked.kept.len(),
                span: to_span(last_landed(self.samples.as_slice())),
                blocks: checked.blocks,
                contradictory: checked.contradictory,
                undecoded: self.undecoded,
                short_rtts: checked.short,
                shortest_rtt: to_span(checked.shortest),
            },
        )
    }
}

} // verus!
