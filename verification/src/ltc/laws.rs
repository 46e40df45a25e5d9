//! What the decoder makes of LTC audio, from the samples of a run of frames to the frames.

use vstd::prelude::*;

use crate::ltc;
use crate::ltc::{DecodedFrame, Demod, LtcFrame, SILENCE_FLOOR, SYNC_WORD};

verus! {

/// A level that is held for so many samples.
pub open spec fn level_run(x: i32, n: nat) -> Seq<i32> {
    Seq::new(n, |i: int| x)
}

/// The level on the other side of zero.
pub open spec fn other(x: i32) -> i32 {
    (-x) as i32
}

/// The audio of one bit cell that starts at level `x`: a `1` changes the level halfway.
pub open spec fn cell_audio(bit: bool, first: nat, second: nat, x: i32) -> Seq<i32> {
    if bit {
        level_run(x, first) + level_run(other(x), second)
    } else {
        level_run(x, first + second)
    }
}

/// The level that the cell behind a run of bits starts at: every cell starts with a
/// transition, and the first one starts at `x`.
pub open spec fn level_behind(bits: Seq<bool>, x: i32) -> i32
    decreases bits.len(),
{
    if bits.len() == 0 {
        x
    } else if bits.last() {
        level_behind(bits.drop_last(), x)
    } else {
        other(level_behind(bits.drop_last(), x))
    }
}

/// The audio of a run of bits. `halves` are the lengths of the half cells in samples, two
/// to a bit.
pub open spec fn cells_audio(bits: Seq<bool>, halves: Seq<nat>, x: i32) -> Seq<i32>
    decreases bits.len(),
{
    if bits.len() == 0 {
        Seq::empty()
    } else {
        let k = bits.len() - 1;
        cells_audio(bits.drop_last(), halves, x) + cell_audio(
            bits.last(),
            halves[2 * k],
            halves[2 * k + 1],
            level_behind(bits.drop_last(), x),
        )
    }
}

/// The bits of a run of frames.
pub open spec fn bits_of(frames: Seq<LtcFrame>) -> Seq<bool>
    decreases frames.len(),
{
    if frames.len() == 0 {
        Seq::empty()
    } else {
        bits_of(frames.drop_last()) + ltc::frame_bits(frames.last())
    }
}

/// Sixteen bits, the last of them in front of `k`, spell the sync word.
pub open spec fn sync_ends_at(bits: Seq<bool>, k: int) -> bool {
    forall|i: int| 0 <= i < 16 ==> #[trigger] bits[k - 16 + i] == (i != 0 && i != 1 && i != 14)
}

/// The sync word occurs in a frame before the end of it.
pub open spec fn imitates_sync(f: LtcFrame) -> bool {
    exists|k: int| 16 <= k < 80 && #[trigger] sync_ends_at(ltc::frame_bits(f), k)
}

/// The audio of a run of frames, and the transition that closes the last cell.
pub open spec fn ltc_audio(frames: Seq<LtcFrame>, halves: Seq<nat>, x: i32) -> Seq<i32> {
    let bits = bits_of(frames);
    cells_audio(bits, halves, x) + level_run(
        level_behind(bits, x),
        halves[2 * bits.len() as int],
    )
}

/// The same audio over a crossed cable.
pub open spec fn inverted(samples: Seq<i32>) -> Seq<i32> {
    samples.map_values(|x: i32| other(x))
}

/// The frames without where they landed.
pub open spec fn frames_of(decoded: Seq<DecodedFrame>) -> Seq<LtcFrame> {
    decoded.map_values(|d: DecodedFrame| d.frame)
}

/// Every half cell of so many is between `least` and `most` samples long.
pub open spec fn halves_fit(halves: Seq<nat>, n: nat, least: nat, most: nat) -> bool {
    &&& halves.len() > n
    &&& forall|i: int| 0 <= i <= n ==> least <= #[trigger] halves[i] <= most
}

/// The shortest bit period that cells of this length, and the seed, can lead to.
pub open spec fn shortest_period(sample_rate: u32, least: nat) -> nat {
    let seed = ltc::fresh(sample_rate).bit_period as nat;
    if seed <= 2 * least * 1_000_000_000 {
        seed
    } else {
        2 * least * 1_000_000_000
    }
}

/// The longest bit period that cells of this length, and the seed, can lead to. The very
/// first interval counts one sample too many.
pub open spec fn longest_period(sample_rate: u32, most: nat) -> nat {
    let seed = ltc::fresh(sample_rate).bit_period as nat;
    if seed >= (2 * most + 1) * 1_000_000_000 {
        seed
    } else {
        (2 * most + 1) * 1_000_000_000
    }
}

/// Half cells of this length can be told from whole ones at every bit period between the
/// seeded one and that of the signal, and the filters leave the sign of such a signal alone.
pub open spec fn in_reach(sample_rate: u32, least: nat, most: nat) -> bool {
    let low = shortest_period(sample_rate, least);
    let high = longest_period(sample_rate, most);
    &&& 3 <= least <= 100
    &&& least <= most <= least + 1
    &&& ltc::fresh(sample_rate).bit_period > 4_000_000_000
    &&& high <= 4 * least * 1_000_000_000
    &&& 4 * (most + 1) * 1_000_000_000 <= 3 * low
    &&& 3 * high < 8 * least * 1_000_000_000
    &&& (2 * most + 1) * 1_000_000_000 <= 2 * low
}

/// A signal is loud enough to stay above the silence floor whatever the filters do.
pub open spec fn loud(x: i32) -> bool {
    x >= 700_000 || -0x7fff_ffff <= x <= -700_000
}

// The filters.
//
// The slow part of the signal follows the running sum of the samples, and the running sum of
// LTC audio comes back to where it was: a cell of a `1` cancels itself, and cells of a `0`
// alternate. So `10000 * dc - 26 * sum` shrinks from sample to sample, by more over a cell
// than the uneven lengths of its halves can add.

/// A level in the filters' unit.
spec fn size(x: i32) -> int {
    if x >= 0 {
        x * 1_000_000
    } else {
        -x * 1_000_000
    }
}

/// How much the bound on the slow part shrinks by with every sample.
#[verifier::opaque]
spec fn shrink(big: int, least: nat) -> int {
    26 * big / (least as int) + 1
}

/// The farthest that the running sum gets from its middle.
spec fn farthest(big: int, least: nat) -> int {
    least * big + 2 * big
}

/// The bound that shrinks no further.
#[verifier::opaque]
spec fn resting(big: int, least: nat) -> int {
    (10_000 * shrink(big, least) + 676 * farthest(big, least) + 100_000_000) / 26 + 1
}

/// The bound at the start of a cell.
#[verifier::opaque]
spec fn starting(big: int, least: nat) -> int {
    resting(big, least) + (2 * least + 2) * shrink(big, least)
}

/// The largest that the slow part can get.
#[verifier::opaque]
spec fn drift(big: int) -> int {
    (3 * big - 1) / 5
}

/// The filters of a decoder, with the running sum at `sum`, are within a bound.
spec fn bounded(s: Demod, big: int, sum: int, bound: int) -> bool {
    &&& -bound <= 10_000 * s.dc - 26 * sum <= bound
    &&& 0 <= s.envelope <= big + drift(big)
}

/// The running sum at the start of a cell at level `x`.
spec fn middle(x: i32, least: nat) -> int {
    if x >= 0 {
        -(least * size(x))
    } else {
        least * size(x)
    }
}

proof fn lemma_bounds(big: int, least: nat)
    requires
        700_000_000_000 <= big <= 0x7fff_ffff * 1_000_000,
        3 <= least <= 100,
    ensures
        shrink(big, least) > 0,
        resting(big, least) > 0,
        26 * resting(big, least) >= 10_000 * shrink(big, least) + 676 * farthest(big, least)
            + 100_000_000,
        2 * (least * shrink(big, least)) >= 52 * big,
        starting(big, least) == resting(big, least) + 2 * (least * shrink(big, least)) + 2
            * shrink(big, least),
        starting(big, least) + 26 * farthest(big, least) <= 10_000 * drift(big),
        26 * (least * big) <= starting(big, least),
        3 * big <= least * big <= 100 * big,
{
    reveal(shrink);
    reveal(resting);
    reveal(starting);
    reveal(drift);
    let m = 26 * big / (least as int);
    let eta = shrink(big, least);
    let h = least * big;
    vstd::arithmetic::div_mod::lemma_fundamental_div_mod(26 * big, least as int);
    let rest = (26 * big) % (least as int);
    assert(0 <= rest < least);
    assert(least * m + rest == 26 * big);
    assert(m >= 0) by (nonlinear_arith)
        requires
            least * m + rest == 26 * big,
            rest < least,
            big > 0,
            least > 0,
    ;
    assert(least * eta == least * m + least) by (nonlinear_arith)
        requires
            eta == m + 1,
    ;
    assert(3 * big <= h <= 100 * big) by (nonlinear_arith)
        requires
            h == least * big,
            3 <= least <= 100,
            big > 0,
    ;
    assert(least * (103 - least) >= 300) by (nonlinear_arith)
        requires
            3 <= least <= 100,
    ;
    assert(300 * m <= 26 * (103 * big - h)) by (nonlinear_arith)
        requires
            least * (103 - least) >= 300,
            m >= 0,
            least * m <= 26 * big,
            3 <= least <= 100,
            h == least * big,
    {
        assert(300 * m <= (least * (103 - least)) * m);
        assert((least * (103 - least)) * m == (103 - least) * (least * m));
        assert((103 - least) * (least * m) <= (103 - least) * (26 * big));
        assert((103 - least) * (26 * big) == 26 * (103 * big - least * big));
    }
    assert((2 * least + 2) * eta == 2 * (least * eta) + 2 * eta) by (nonlinear_arith);
}

/// One sample of a loud signal: the bound shrinks, and the sign of the sample comes through.
proof fn lemma_sample(s: Demod, x: i32, least: nat, sum: int, bound: int)
    requires
        loud(x),
        3 <= least <= 100,
        bounded(s, size(x), sum, bound),
        resting(size(x), least) <= bound <= starting(size(x), least),
        -farthest(size(x), least) <= sum <= farthest(size(x), least),
        -farthest(size(x), least) <= sum + x * 1_000_000 <= farthest(size(x), least),
    ensures
        -(bound - shrink(size(x), least)) <= 10_000 * ltc::dc_after(s, x) - 26 * (sum + x
            * 1_000_000) <= bound - shrink(size(x), least),
        -drift(size(x)) <= ltc::dc_after(s, x) <= drift(size(x)),
        SILENCE_FLOOR <= ltc::envelope_after(s, x) <= size(x) + drift(size(x)),
        x > 0 ==> 4 * ltc::ac_after(s, x) > ltc::envelope_after(s, x),
        x < 0 ==> 4 * ltc::ac_after(s, x) < -ltc::envelope_after(s, x),
{
    let big = size(x);
    lemma_bounds(big, least);
    reveal(drift);
    let d = (x * 1_000_000 - s.dc) * 26;
    let q = crate::num::truncated(d, 10_000);
    assert(-10_000 < d - 10_000 * q < 10_000);
    assert(ltc::dc_after(s, x) == s.dc + q);
}

// From samples to transitions.

/// A decoder without what its filters and its sample count hold.
spec fn digital(s: Demod) -> Demod {
    Demod { dc: 0, envelope: 0, samples_seen: 0, ..s }
}

/// The frame that a step completes, without where it landed.
spec fn frame_in(done: Option<DecodedFrame>) -> Option<LtcFrame> {
    match done {
        Some(d) => Some(d.frame),
        None => None,
    }
}

/// A frame, if there is one, as a sequence.
spec fn listed(frame: Option<LtcFrame>) -> Seq<LtcFrame> {
    match frame {
        Some(f) => seq![f],
        None => Seq::empty(),
    }
}

/// The decoder that a run of samples leads to, and the frames that it completes.
#[verifier::opaque]
spec fn run(s: Demod, samples: Seq<i32>) -> (Demod, Seq<LtcFrame>) {
    (ltc::state_after(s, samples), frames_of(ltc::frames_in(s, samples)))
}

proof fn lemma_run_joins(s: Demod, first: Seq<i32>, second: Seq<i32>)
    ensures
        run(s, first + second).0 == run(run(s, first).0, second).0,
        run(s, first + second).1 == run(s, first).1 + run(run(s, first).0, second).1,
{
    reveal(run);
    ltc::chunks_decode_like_the_whole(s, first, second);
    let t = ltc::state_after(s, first);
    assert(frames_of(ltc::frames_in(s, first + second)) =~= frames_of(ltc::frames_in(s, first))
        + frames_of(ltc::frames_in(t, second)));
}

proof fn lemma_run_of_none(s: Demod)
    ensures
        run(s, Seq::empty()) == (s, Seq::<LtcFrame>::empty()),
{
    reveal(run);
    assert(frames_of(ltc::frames_in(s, Seq::empty())) =~= Seq::empty());
}

/// A decoder that has just seen the level change.
spec fn turned(g: Demod) -> Demod {
    Demod { polarity: !g.polarity, since_transition: 0, ..g }
}

/// What a level that was just changed to, and is held for so many samples, makes of a
/// decoder.
#[verifier::opaque]
spec fn after_turn(g: Demod, n: nat) -> Demod {
    Demod {
        since_transition: (n - 1) as u64,
        ..ltc::after_transition(turned(g), (g.since_transition + 1) as u64).0
    }
}

/// The frame that such a change completes.
#[verifier::opaque]
spec fn frame_at_turn(g: Demod) -> Option<LtcFrame> {
    frame_in(ltc::after_transition(turned(g), (g.since_transition + 1) as u64).1)
}

proof fn lemma_bit_is_digital(s: Demod, one: bool)
    ensures
        digital(ltc::after_bit(s, one).0) == ltc::after_bit(digital(s), one).0,
        frame_in(ltc::after_bit(s, one).1) == frame_in(ltc::after_bit(digital(s), one).1),
{
}

proof fn lemma_transition_is_digital(s: Demod, interval: u64)
    ensures
        digital(ltc::after_transition(s, interval).0) == ltc::after_transition(
            digital(s),
            interval,
        ).0,
        frame_in(ltc::after_transition(s, interval).1) == frame_in(
            ltc::after_transition(digital(s), interval).1,
        ),
        ltc::after_transition(s, interval).0.dc == s.dc,
        ltc::after_transition(s, interval).0.envelope == s.envelope,
        ltc::after_transition(s, interval).0.polarity == s.polarity,
        ltc::after_transition(s, interval).0.since_transition == s.since_transition,
{
    let zero = Demod {
        bit_period: ltc::adapted(s.bit_period as nat, interval as nat) as u128,
        pending_half: None,
        ..s
    };
    lemma_bit_is_digital(zero, false);
    if let Some(first) = s.pending_half {
        let one = Demod {
            bit_period: ltc::adapted(s.bit_period as nat, (first + interval) as nat) as u128,
            pending_half: None,
            ..s
        };
        lemma_bit_is_digital(one, true);
    }
}

proof fn lemma_run_of_one(s: Demod, x: i32)
    ensures
        run(s, seq![x]) == (
            ltc::after_sample(s, x).0,
            listed(frame_in(ltc::after_sample(s, x).1)),
        ),
{
    reveal(run);
    let one = seq![x];
    assert(one.drop_last() =~= Seq::empty());
    assert(ltc::state_after(s, one.drop_last()) == s);
    assert(ltc::frames_in(s, one.drop_last()) == Seq::<DecodedFrame>::empty());
    assert(one.last() == x);
    assert(frames_of(ltc::frames_in(s, one)) =~= listed(frame_in(ltc::after_sample(s, x).1)));
}

/// One more sample at the level that a decoder is at.
proof fn lemma_stays(s: Demod, x: i32, least: nat, sum: int, bound: int)
    requires
        loud(x),
        3 <= least <= 100,
        s.polarity == (x > 0),
        s.since_transition < 1_000_000,
        bounded(s, size(x), sum, bound),
        resting(size(x), least) <= bound <= starting(size(x), least),
        -farthest(size(x), least) <= sum <= farthest(size(x), least),
        -farthest(size(x), least) <= sum + x * 1_000_000 <= farthest(size(x), least),
    ensures
        digital(run(s, seq![x]).0) == (Demod {
            since_transition: (s.since_transition + 1) as u64,
            ..digital(s)
        }),
        bounded(
            run(s, seq![x]).0,
            size(x),
            sum + x * 1_000_000,
            bound - shrink(size(x), least),
        ),
        run(s, seq![x]).1 == Seq::<LtcFrame>::empty(),
{
    lemma_run_of_one(s, x);
    lemma_bounds(size(x), least);
    lemma_sample(s, x, least, sum, bound);
    let u = ltc::after_sample(s, x).0;
    assert(u.dc == ltc::dc_after(s, x));
    assert(u.envelope == ltc::envelope_after(s, x));
}

/// A level that is held changes nothing but how long it has been held.
proof fn lemma_held(s: Demod, x: i32, n: nat, least: nat, sum: int, bound: int)
    requires
        loud(x),
        3 <= least <= 100,
        s.polarity == (x > 0),
        s.since_transition + n < 1_000_000,
        bounded(s, size(x), sum, bound),
        bound <= starting(size(x), least),
        bound - n * shrink(size(x), least) >= resting(size(x), least),
        -farthest(size(x), least) <= sum <= farthest(size(x), least),
        -farthest(size(x), least) <= sum + n * (x * 1_000_000) <= farthest(size(x), least),
    ensures
        digital(run(s, level_run(x, n)).0) == (Demod {
            since_transition: (s.since_transition + n) as u64,
            ..digital(s)
        }),
        bounded(
            run(s, level_run(x, n)).0,
            size(x),
            sum + n * (x * 1_000_000),
            bound - n * shrink(size(x), least),
        ),
        run(s, level_run(x, n)).1 == Seq::<LtcFrame>::empty(),
    decreases n,
{
    let eta = shrink(size(x), least);
    let step = x * 1_000_000;
    lemma_bounds(size(x), least);
    if n == 0 {
        assert(n * eta == 0 && n * step == 0) by (nonlinear_arith)
            requires
                n == 0,
        ;
        assert(level_run(x, n) =~= Seq::empty());
        lemma_run_of_none(s);
    } else {
        let m = (n - 1) as nat;
        assert(n * eta == m * eta + eta && n * step == m * step + step) by (nonlinear_arith)
            requires
                n == m + 1,
        ;
        if x > 0 {
            assert(0 <= m * step) by (nonlinear_arith)
                requires
                    m >= 0,
                    step > 0,
            ;
        } else {
            assert(m * step <= 0) by (nonlinear_arith)
                requires
                    m >= 0,
                    step < 0,
            ;
        }
        lemma_held(s, x, m, least, sum, bound);
        assert(level_run(x, n) =~= level_run(x, m) + seq![x]);
        lemma_run_joins(s, level_run(x, m), seq![x]);
        let t = run(s, level_run(x, m)).0;
        assert(0 <= m * eta) by (nonlinear_arith)
            requires
                m >= 0,
                eta > 0,
        ;
        assert(digital(t).polarity == t.polarity);
        assert(digital(t).since_transition == t.since_transition);
        lemma_stays(t, x, least, sum + m * step, bound - m * eta);
        assert(run(s, level_run(x, n)).1 =~= Seq::empty());
    }
}

/// The first sample at a new level is a transition.
proof fn lemma_change_begins(s: Demod, x: i32, least: nat, sum: int, bound: int)
    requires
        loud(x),
        3 <= least <= 100,
        s.polarity != (x > 0),
        s.since_transition < 1_000_000,
        bounded(s, size(x), sum, bound),
        resting(size(x), least) <= bound <= starting(size(x), least),
        -farthest(size(x), least) <= sum <= farthest(size(x), least),
        -farthest(size(x), least) <= sum + x * 1_000_000 <= farthest(size(x), least),
    ensures
        digital(run(s, seq![x]).0) == after_turn(digital(s), 1),
        run(s, seq![x]).0.polarity == (x > 0),
        run(s, seq![x]).0.since_transition == 0,
        bounded(
            run(s, seq![x]).0,
            size(x),
            sum + x * 1_000_000,
            bound - shrink(size(x), least),
        ),
        run(s, seq![x]).1 == listed(frame_at_turn(digital(s))),
{
    reveal(after_turn);
    reveal(frame_at_turn);
    lemma_run_of_one(s, x);
    lemma_bounds(size(x), least);
    lemma_sample(s, x, least, sum, bound);
    let t = Demod {
        samples_seen: ltc::one_more(s.samples_seen),
        since_transition: ltc::one_more(s.since_transition),
        dc: ltc::dc_after(s, x) as i128,
        envelope: ltc::envelope_after(s, x) as i128,
        ..s
    };
    let u = Demod { polarity: !s.polarity, since_transition: 0, ..t };
    let i = (s.since_transition + 1) as u64;
    assert(ltc::after_sample(s, x) == ltc::after_transition(u, i));
    lemma_transition_is_digital(u, i);
    assert(digital(u) == turned(digital(s)));
}

/// A level that is changed to, and then held, is one transition.
proof fn lemma_changed(s: Demod, x: i32, n: nat, least: nat, sum: int, bound: int)
    requires
        loud(x),
        3 <= least <= 100,
        s.polarity != (x > 0),
        1 <= n < 1_000,
        s.since_transition < 1_000_000,
        bounded(s, size(x), sum, bound),
        bound <= starting(size(x), least),
        bound - n * shrink(size(x), least) >= resting(size(x), least),
        -farthest(size(x), least) <= sum <= farthest(size(x), least),
        -farthest(size(x), least) <= sum + n * (x * 1_000_000) <= farthest(size(x), least),
    ensures
        digital(run(s, level_run(x, n)).0) == after_turn(digital(s), n),
        bounded(
            run(s, level_run(x, n)).0,
            size(x),
            sum + n * (x * 1_000_000),
            bound - n * shrink(size(x), least),
        ),
        run(s, level_run(x, n)).1 == listed(frame_at_turn(digital(s))),
{
    let eta = shrink(size(x), least);
    let step = x * 1_000_000;
    let m = (n - 1) as nat;
    lemma_bounds(size(x), least);
    assert(n * eta == m * eta + eta && n * step == m * step + step) by (nonlinear_arith)
        requires
            n == m + 1,
    ;
    assert(0 <= m * eta) by (nonlinear_arith)
        requires
            m >= 0,
            eta > 0,
    ;
    if x > 0 {
        assert(0 <= m * step) by (nonlinear_arith)
            requires
                m >= 0,
                step > 0,
        ;
    } else {
        assert(m * step <= 0) by (nonlinear_arith)
            requires
                m >= 0,
                step < 0,
        ;
    }
    let one = seq![x];
    assert(level_run(x, n) =~= one + level_run(x, m));
    lemma_run_joins(s, one, level_run(x, m));
    lemma_change_begins(s, x, least, sum, bound);
    lemma_held(run(s, one).0, x, m, least, sum + step, bound - eta);
    assert(run(s, level_run(x, n)).1 =~= run(s, one).1);
    assert(digital(run(s, level_run(x, n)).0) == after_turn(digital(s), n)) by {
        reveal(after_turn);
    }
}

// From transitions to bits.

/// Two decoders are as far with the bits.
spec fn same_bits(s: Demod, t: Demod) -> bool {
    s.reg == t.reg && s.bits_since_sync == t.bits_since_sync && s.synced == t.synced
}

/// A decoder whose bit period is within reach of the signal's.
spec fn on_pace(g: Demod, sample_rate: u32, least: nat, most: nat) -> bool {
    shortest_period(sample_rate, least) <= g.bit_period <= longest_period(sample_rate, most)
}

/// A decoder that will read a bit at the next transition: both halves of a `1` are behind
/// it, or the whole cell of a `0`.
spec fn holds_bit(g: Demod, bit: bool, least: nat, most: nat) -> bool {
    if bit {
        &&& g.pending_half matches Some(first) && least <= first <= most + 1
        &&& least <= g.since_transition + 1 <= most
    } else {
        &&& g.pending_half is None
        &&& 2 * least <= g.since_transition + 1 <= 2 * most + 1
    }
}

/// The decoder that a bit leads to, and the frame that it completes.
#[verifier::opaque]
spec fn reads(s: Demod, one: bool) -> (Demod, Option<LtcFrame>) {
    (ltc::after_bit(s, one).0, frame_in(ltc::after_bit(s, one).1))
}

proof fn lemma_same_bits(s: Demod, t: Demod, one: bool)
    requires
        same_bits(s, t),
    ensures
        same_bits(reads(s, one).0, reads(t, one).0),
        reads(s, one).1 == reads(t, one).1,
        reads(s, one).0.bit_period == s.bit_period,
        reads(s, one).0.pending_half == s.pending_half,
        reads(s, one).0.polarity == s.polarity,
        reads(s, one).0.since_transition == s.since_transition,
{
    reveal(reads);
}

/// The bit that a decoder holds is read at the next transition.
proof fn lemma_reads_the_bit(
    g: Demod,
    bit: bool,
    n: nat,
    sample_rate: u32,
    least: nat,
    most: nat,
)
    requires
        in_reach(sample_rate, least, most),
        on_pace(g, sample_rate, least, most),
        holds_bit(g, bit, least, most),
        1 <= n < 1_000,
    ensures
        on_pace(after_turn(g, n), sample_rate, least, most),
        after_turn(g, n).pending_half is None,
        after_turn(g, n).polarity == !g.polarity,
        after_turn(g, n).since_transition == n - 1,
        same_bits(after_turn(g, n), reads(g, bit).0),
        frame_at_turn(g) == reads(g, bit).1,
{
    reveal(after_turn);
    reveal(frame_at_turn);
    reveal(reads);
    let t = turned(g);
    let i = (g.since_transition + 1) as u64;
    if bit {
        let first = g.pending_half->0;
        let u = Demod {
            bit_period: ltc::adapted(t.bit_period as nat, (first + i) as nat) as u128,
            pending_half: None,
            ..t
        };
        assert(ltc::after_transition(t, i) == ltc::after_bit(u, true));
        lemma_same_bits(u, g, true);
    } else {
        let u = Demod {
            bit_period: ltc::adapted(t.bit_period as nat, i as nat) as u128,
            pending_half: None,
            ..t
        };
        assert(ltc::after_transition(t, i) == ltc::after_bit(u, false));
        lemma_same_bits(u, g, false);
    }
}

/// Half a cell is remembered, and completes nothing.
proof fn lemma_keeps_the_half(g: Demod, n: nat, sample_rate: u32, least: nat, most: nat)
    requires
        in_reach(sample_rate, least, most),
        on_pace(g, sample_rate, least, most),
        g.pending_half is None,
        least <= g.since_transition + 1 <= most + 1,
        1 <= n < 1_000,
    ensures
        after_turn(g, n) == (Demod {
            polarity: !g.polarity,
            since_transition: (n - 1) as u64,
            pending_half: Some((g.since_transition + 1) as u64),
            ..g
        }),
        frame_at_turn(g) is None,
{
    reveal(after_turn);
    reveal(frame_at_turn);
}

// From cells to bits.

proof fn lemma_half_run(n: nat, least: nat, v: int)
    requires
        least <= n <= least + 1,
    ensures
        n * v == least * v || n * v == least * v + v,
        n * (-v) == -(n * v),
{
    assert(n * v == least * v + (n - least) * v) by (nonlinear_arith);
    assert(n - least == 0 || n - least == 1);
    assert(n * (-v) == -(n * v)) by (nonlinear_arith);
}

proof fn lemma_whole_run(n: nat, least: nat, v: int)
    requires
        2 * least <= n <= 2 * least + 2,
    ensures
        n * v == 2 * (least * v) || n * v == 2 * (least * v) + v || n * v == 2 * (least * v) + 2
            * v,
        n * (-v) == -(n * v),
{
    assert(n * v == 2 * (least * v) + (n - 2 * least) * v) by (nonlinear_arith);
    assert(n - 2 * least == 0 || n - 2 * least == 1 || n - 2 * least == 2);
    assert(n * (-v) == -(n * v)) by (nonlinear_arith);
}

proof fn lemma_turn(g: Demod, n: nat)
    requires
        1 <= n < 1_000,
    ensures
        after_turn(g, n).polarity == !g.polarity,
        after_turn(g, n).since_transition == n - 1,
{
    reveal(after_turn);
    lemma_transition_is_digital(turned(g), (g.since_transition + 1) as u64);
}

/// The cell of a `0` is one transition, and leaves the filters ready for the next cell.
proof fn lemma_zero_cell(s: Demod, y: i32, first: nat, second: nat, least: nat)
    requires
        loud(y),
        3 <= least <= 100,
        least <= first <= least + 1,
        least <= second <= least + 1,
        s.polarity == (y < 0),
        s.since_transition < 1_000_000,
        bounded(s, size(y), middle(y, least), starting(size(y), least)),
    ensures
        digital(run(s, cell_audio(false, first, second, y)).0) == after_turn(
            digital(s),
            first + second,
        ),
        bounded(
            run(s, cell_audio(false, first, second, y)).0,
            size(y),
            middle(other(y), least),
            starting(size(y), least),
        ),
        run(s, cell_audio(false, first, second, y)).1 == listed(
            frame_at_turn(digital(s)),
        ),
{
    let big = size(y);
    let n = first + second;
    lemma_bounds(big, least);
    lemma_whole_run(n, least, big);
    lemma_whole_run(n, least, shrink(big, least));
    assert(size(other(y)) == big);
    let bound = starting(big, least);
    if y > 0 {
        assert(y * 1_000_000 == big);
        lemma_changed(s, y, n, least, middle(y, least), bound);
    } else {
        assert(y * 1_000_000 == -big);
        lemma_changed(s, y, n, least, middle(y, least), bound);
    }
}

/// The cell of a `1` is two transitions, and leaves the filters ready for the next cell.
proof fn lemma_one_cell(s: Demod, y: i32, first: nat, second: nat, least: nat)
    requires
        loud(y),
        3 <= least <= 100,
        least <= first <= least + 1,
        least <= second <= least + 1,
        s.polarity == (y < 0),
        s.since_transition < 1_000_000,
        bounded(s, size(y), middle(y, least), starting(size(y), least)),
    ensures
        digital(run(s, cell_audio(true, first, second, y)).0) == after_turn(
            after_turn(digital(s), first),
            second,
        ),
        bounded(
            run(s, cell_audio(true, first, second, y)).0,
            size(y),
            middle(y, least),
            starting(size(y), least),
        ),
        run(s, cell_audio(true, first, second, y)).1 == listed(
            frame_at_turn(digital(s)),
        ) + listed(frame_at_turn(after_turn(digital(s), first))),
{
    let big = size(y);
    let eta = shrink(big, least);
    lemma_bounds(big, least);
    lemma_half_run(first, least, big);
    lemma_half_run(first, least, eta);
    lemma_half_run(second, least, big);
    lemma_half_run(second, least, eta);
    assert(size(other(y)) == big);
    let bound = starting(big, least);
    let sum = middle(y, least);
    let z = other(y);
    let step = y * 1_000_000;
    assert(z * 1_000_000 == -step);
    assert(step == big || step == -big);
    lemma_changed(s, y, first, least, sum, bound);
    let t = run(s, level_run(y, first)).0;
    lemma_turn(digital(s), first);
    assert(digital(t).polarity == t.polarity);
    assert(digital(t).since_transition == t.since_transition);
    lemma_changed(t, z, second, least, sum + first * step, bound - first * eta);
    lemma_run_joins(s, level_run(y, first), level_run(z, second));
}

/// The level that the cell behind this one starts at.
spec fn next_level(bit: bool, y: i32) -> i32 {
    if bit {
        y
    } else {
        other(y)
    }
}

/// A decoder at the end of a cell: it holds the cell's bit, and is ready for one that starts
/// at level `z`.
spec fn at_cell_end(
    s: Demod,
    bit: bool,
    z: i32,
    sample_rate: u32,
    least: nat,
    most: nat,
) -> bool {
    &&& on_pace(digital(s), sample_rate, least, most)
    &&& holds_bit(digital(s), bit, least, most)
    &&& s.polarity == (z < 0)
    &&& bounded(s, size(z), middle(z, least), starting(size(z), least))
}

/// A cell reads the bit of the cell in front of it, and leaves its own to be read.
proof fn lemma_cell(
    s: Demod,
    held: bool,
    bit: bool,
    y: i32,
    first: nat,
    second: nat,
    sample_rate: u32,
    least: nat,
    most: nat,
)
    requires
        in_reach(sample_rate, least, most),
        loud(y),
        least <= first <= most,
        least <= second <= most,
        at_cell_end(s, held, y, sample_rate, least, most),
    ensures
        at_cell_end(
            run(s, cell_audio(bit, first, second, y)).0,
            bit,
            next_level(bit, y),
            sample_rate,
            least,
            most,
        ),
        same_bits(
            run(s, cell_audio(bit, first, second, y)).0,
            reads(s, held).0,
        ),
        run(s, cell_audio(bit, first, second, y)).1 == listed(
            reads(s, held).1,
        ),
{
    let g = digital(s);
    assert(g.since_transition == s.since_transition);
    assert(size(other(y)) == size(y));
    lemma_same_bits(g, s, held);
    if bit {
        lemma_one_cell(s, y, first, second, least);
        lemma_reads_the_bit(g, held, first, sample_rate, least, most);
        let h = after_turn(g, first);
        lemma_keeps_the_half(h, second, sample_rate, least, most);
        let t = run(s, cell_audio(bit, first, second, y)).0;
        assert(digital(t).polarity == t.polarity);
        assert(same_bits(digital(t), t));
        assert(listed(frame_at_turn(h)) =~= Seq::empty());
        assert(listed(frame_at_turn(g)) + listed(frame_at_turn(h)) =~= listed(frame_at_turn(g)));
    } else {
        lemma_zero_cell(s, y, first, second, least);
        lemma_reads_the_bit(g, held, first + second, sample_rate, least, most);
        let t = run(s, cell_audio(bit, first, second, y)).0;
        assert(digital(t).polarity == t.polarity);
        assert(same_bits(digital(t), t));
    }
}

/// The filters at the start.
proof fn lemma_fresh(x: i32, sample_rate: u32, least: nat, most: nat)
    requires
        in_reach(sample_rate, least, most),
        loud(x),
    ensures
        bounded(ltc::fresh(sample_rate), size(x), middle(x, least), starting(size(x), least)),
        on_pace(ltc::fresh(sample_rate), sample_rate, least, most),
        digital(ltc::fresh(sample_rate)) == ltc::fresh(sample_rate),
{
    lemma_bounds(size(x), least);
}

/// The edge that a fresh decoder starts with is too near to be a transition.
proof fn lemma_first_edge(n: nat, sample_rate: u32, least: nat, most: nat)
    requires
        in_reach(sample_rate, least, most),
        1 <= n < 1_000,
    ensures
        after_turn(ltc::fresh(sample_rate), n) == (Demod {
            polarity: true,
            since_transition: (n - 1) as u64,
            ..ltc::fresh(sample_rate)
        }),
        frame_at_turn(ltc::fresh(sample_rate)) is None,
{
    reveal(after_turn);
    reveal(frame_at_turn);
}

/// The first cell, if it starts with an edge.
proof fn lemma_first_cell_up(
    bit: bool,
    x: i32,
    first: nat,
    second: nat,
    sample_rate: u32,
    least: nat,
    most: nat,
)
    requires
        in_reach(sample_rate, least, most),
        loud(x),
        x > 0,
        least <= first <= most,
        least <= second <= most,
    ensures
        ({
            let s = ltc::fresh(sample_rate);
            let audio = cell_audio(bit, first, second, x);
            let t = run(s, audio).0;
            &&& at_cell_end(t, bit, next_level(bit, x), sample_rate, least, most)
            &&& same_bits(t, s)
            &&& run(s, audio).1 == Seq::<LtcFrame>::empty()
        }),
{
    let s = ltc::fresh(sample_rate);
    let t = run(s, cell_audio(bit, first, second, x)).0;
    lemma_fresh(x, sample_rate, least, most);
    assert(size(other(x)) == size(x));
    if bit {
        lemma_one_cell(s, x, first, second, least);
        lemma_first_edge(first, sample_rate, least, most);
        let h = after_turn(s, first);
        lemma_keeps_the_half(h, second, sample_rate, least, most);
        assert(listed(frame_at_turn(s)) + listed(frame_at_turn(h)) =~= Seq::empty());
    } else {
        lemma_zero_cell(s, x, first, second, least);
        lemma_first_edge(first + second, sample_rate, least, most);
    }
    assert(digital(t).polarity == t.polarity);
    assert(same_bits(digital(t), t));
}

/// The first cell, if the decoder takes it for the level that it started at.
proof fn lemma_first_cell_down(
    bit: bool,
    x: i32,
    first: nat,
    second: nat,
    sample_rate: u32,
    least: nat,
    most: nat,
)
    requires
        in_reach(sample_rate, least, most),
        loud(x),
        x < 0,
        least <= first <= most,
        least <= second <= most,
    ensures
        ({
            let s = ltc::fresh(sample_rate);
            let audio = cell_audio(bit, first, second, x);
            let t = run(s, audio).0;
            &&& at_cell_end(t, bit, next_level(bit, x), sample_rate, least, most)
            &&& same_bits(t, s)
            &&& run(s, audio).1 == Seq::<LtcFrame>::empty()
        }),
{
    let s = ltc::fresh(sample_rate);
    let t = run(s, cell_audio(bit, first, second, x)).0;
    let big = size(x);
    let eta = shrink(big, least);
    let z = other(x);
    let sum = middle(x, least);
    let bound = starting(big, least);
    lemma_fresh(x, sample_rate, least, most);
    lemma_bounds(big, least);
    assert(size(z) == big);
    assert(x * 1_000_000 == -big);
    assert(z * 1_000_000 == big);
    if bit {
        lemma_half_run(first, least, big);
        lemma_half_run(first, least, eta);
        lemma_half_run(second, least, big);
        lemma_half_run(second, least, eta);
        lemma_held(s, x, first, least, sum, bound);
        let h = run(s, level_run(x, first)).0;
        assert(digital(h).polarity == h.polarity);
        assert(digital(h).since_transition == h.since_transition);
        lemma_changed(h, z, second, least, sum + first * (-big), bound - first * eta);
        lemma_keeps_the_half(digital(h), second, sample_rate, least, most);
        lemma_run_joins(s, level_run(x, first), level_run(z, second));
        assert(run(s, level_run(x, first)).1 =~= Seq::empty());
        assert(run(s, cell_audio(bit, first, second, x)).1 =~= Seq::empty());
    } else {
        lemma_whole_run(first + second, least, big);
        lemma_whole_run(first + second, least, eta);
        lemma_held(s, x, first + second, least, sum, bound);
        assert(run(s, cell_audio(bit, first, second, x)).1 =~= Seq::empty());
    }
    assert(digital(t).polarity == t.polarity);
    assert(same_bits(digital(t), t));
}

/// The decoder that a run of bits leads to, and the frames that it completes.
#[verifier::opaque]
spec fn run_bits(s: Demod, bits: Seq<bool>) -> (Demod, Seq<LtcFrame>) {
    (ltc::after_bits(s, bits), frames_of(ltc::frames_in_bits(s, bits)))
}

proof fn lemma_one_bit_more(s: Demod, bits: Seq<bool>)
    ensures
        bits.len() == 0 ==> run_bits(s, bits) == (s, Seq::<LtcFrame>::empty()),
        bits.len() > 0 ==> run_bits(s, bits).0 == reads(
            run_bits(s, bits.drop_last()).0,
            bits.last(),
        ).0,
        bits.len() > 0 ==> run_bits(s, bits).1 == run_bits(s, bits.drop_last()).1 + listed(
            reads(run_bits(s, bits.drop_last()).0, bits.last()).1,
        ),
{
    reveal(run_bits);
    reveal(reads);
    if bits.len() == 0 {
        assert(frames_of(ltc::frames_in_bits(s, bits)) =~= Seq::empty());
    } else {
        let front = bits.drop_last();
        assert(frames_of(ltc::frames_in_bits(s, bits)) =~= frames_of(
            ltc::frames_in_bits(s, front),
        ) + listed(frame_in(ltc::after_bit(ltc::after_bits(s, front), bits.last()).1)));
    }
}

proof fn lemma_level(bits: Seq<bool>, x: i32)
    requires
        loud(x),
    ensures
        level_behind(bits, x) == x || level_behind(bits, x) == other(x),
        loud(level_behind(bits, x)),
        size(level_behind(bits, x)) == size(x),
    decreases bits.len(),
{
    if bits.len() > 0 {
        lemma_level(bits.drop_last(), x);
    }
}

/// A run of cells reads every bit but the last, which the next transition will read.
proof fn lemma_cells(
    bits: Seq<bool>,
    halves: Seq<nat>,
    x: i32,
    sample_rate: u32,
    least: nat,
    most: nat,
)
    requires
        in_reach(sample_rate, least, most),
        loud(x),
        bits.len() > 0,
        halves_fit(halves, 2 * bits.len(), least, most),
    ensures
        at_cell_end(
            run(ltc::fresh(sample_rate), cells_audio(bits, halves, x)).0,
            bits.last(),
            level_behind(bits, x),
            sample_rate,
            least,
            most,
        ),
        same_bits(
            run(ltc::fresh(sample_rate), cells_audio(bits, halves, x)).0,
            run_bits(ltc::fresh(sample_rate), bits.drop_last()).0,
        ),
        run(ltc::fresh(sample_rate), cells_audio(bits, halves, x)).1 == run_bits(
            ltc::fresh(sample_rate),
            bits.drop_last(),
        ).1,
    decreases bits.len(),
{
    let s = ltc::fresh(sample_rate);
    let front = bits.drop_last();
    let k = front.len() as int;
    let first = halves[2 * k];
    let second = halves[2 * k + 1];
    let y = level_behind(front, x);
    let cell = cell_audio(bits.last(), first, second, y);
    lemma_level(front, x);
    lemma_one_bit_more(s, front);
    assert(level_behind(bits, x) == next_level(bits.last(), y));
    if k == 0 {
        assert(cells_audio(front, halves, x) =~= Seq::empty());
        assert(cells_audio(bits, halves, x) =~= cell);
        if x > 0 {
            lemma_first_cell_up(bits.last(), x, first, second, sample_rate, least, most);
        } else {
            lemma_first_cell_down(bits.last(), x, first, second, sample_rate, least, most);
        }
    } else {
        lemma_cells(front, halves, x, sample_rate, least, most);
        let t = run(s, cells_audio(front, halves, x)).0;
        lemma_cell(t, front.last(), bits.last(), y, first, second, sample_rate, least, most);
        lemma_run_joins(s, cells_audio(front, halves, x), cell);
        lemma_same_bits(t, run_bits(s, front.drop_last()).0, front.last());
    }
}

/// The audio of a run of bits reads as those bits.
proof fn lemma_audio(
    bits: Seq<bool>,
    halves: Seq<nat>,
    x: i32,
    sample_rate: u32,
    least: nat,
    most: nat,
)
    requires
        in_reach(sample_rate, least, most),
        loud(x),
        bits.len() > 0,
        halves_fit(halves, 2 * bits.len(), least, most),
    ensures
        run(
            ltc::fresh(sample_rate),
            cells_audio(bits, halves, x) + level_run(
                level_behind(bits, x),
                halves[2 * bits.len() as int],
            ),
        ).1 == run_bits(ltc::fresh(sample_rate), bits).1,
{
    let s = ltc::fresh(sample_rate);
    let n = halves[2 * bits.len() as int];
    let z = level_behind(bits, x);
    let cells = cells_audio(bits, halves, x);
    let t = run(s, cells).0;
    let big = size(z);
    let eta = shrink(big, least);
    lemma_cells(bits, halves, x, sample_rate, least, most);
    lemma_level(bits, x);
    lemma_run_joins(s, cells, level_run(z, n));
    lemma_bounds(big, least);
    lemma_half_run(n, least, big);
    lemma_half_run(n, least, eta);
    assert(z * 1_000_000 == big || z * 1_000_000 == -big);
    assert(digital(t).since_transition == t.since_transition);
    lemma_changed(t, z, n, least, middle(z, least), starting(big, least));
    lemma_reads_the_bit(digital(t), bits.last(), n, sample_rate, least, most);
    lemma_same_bits(digital(t), run_bits(s, bits.drop_last()).0, bits.last());
    lemma_one_bit_more(s, bits);
}

// From bits to frames.

proof fn lemma_bits_join(s: Demod, first: Seq<bool>, second: Seq<bool>)
    ensures
        run_bits(s, first + second).0 == run_bits(run_bits(s, first).0, second).0,
        run_bits(s, first + second).1 == run_bits(s, first).1 + run_bits(
            run_bits(s, first).0,
            second,
        ).1,
    decreases second.len(),
{
    let t = run_bits(s, first).0;
    let whole = first + second;
    lemma_one_bit_more(t, second);
    lemma_one_bit_more(s, whole);
    if second.len() == 0 {
        assert(whole =~= first);
        assert(run_bits(s, first).1 + run_bits(t, second).1 =~= run_bits(s, first).1);
    } else {
        let front = second.drop_last();
        lemma_bits_join(s, first, front);
        assert(whole.drop_last() =~= first + front);
        assert(whole.last() == second.last());
        let more = listed(reads(run_bits(t, front).0, second.last()).1);
        assert((run_bits(s, first).1 + run_bits(t, front).1) + more =~= run_bits(s, first).1 + (
        run_bits(t, front).1 + more));
    }
}

/// A register that ends in the sync word holds its bits.
proof fn lemma_sync_word(reg: u128)
    requires
        reg & 0xffff == SYNC_WORD,
    ensures
        forall|i: int| 64 <= i < 80 ==> #[trigger] ltc::register_bits(reg)[i] == (i != 64 && i
            != 65 && i != 78),
{
    assert(forall|k: u128|
        0 <= k < 16 ==> ((#[trigger] (reg >> k)) & 1 == 1) == (k != 15 && k != 14 && k != 1))
        by (bit_vector)
        requires
            reg & 0xffff == 0x3FFD,
    ;
    assert forall|i: int| 64 <= i < 80 implies #[trigger] ltc::register_bits(reg)[i] == (i != 64
        && i != 65 && i != 78) by {
        let k = (79 - i) as u128;
        assert(ltc::register_bits(reg)[i] == ltc::register_bit(reg, i));
        assert(ltc::register_bit(reg, i) == ((reg >> k) & 1 == 1));
    }
}

/// Short of its end, a frame gives a fresh decoder nothing to lock to.
proof fn lemma_before_the_sync(sample_rate: u32, f: LtcFrame, k: nat)
    requires
        f.in_range(),
        !imitates_sync(f),
        k < 80,
    ensures
        ({
            let t = run_bits(ltc::fresh(sample_rate), ltc::frame_bits(f).take(k as int));
            &&& !t.0.synced
            &&& ltc::register_bits(t.0.reg) == Seq::new((80 - k) as nat, |i: int| false)
                + ltc::frame_bits(f).take(k as int)
            &&& t.1 == Seq::<LtcFrame>::empty()
        }),
    decreases k,
{
    let s = ltc::fresh(sample_rate);
    let all = ltc::frame_bits(f);
    let bits = all.take(k as int);
    let blank = Seq::new((80 - k) as nat, |i: int| false);
    lemma_one_bit_more(s, bits);
    if k == 0 {
        assert forall|i: int| 0 <= i < 80 implies !ltc::register_bit(0, i) by {
            let n = (79 - i) as u128;
            assert((0u128 >> n) & 1 == 0) by (bit_vector);
        }
        assert(ltc::register_bits(0) =~= blank + bits);
    } else {
        let m = (k - 1) as nat;
        let front = all.take(m as int);
        let blank_front = Seq::new((80 - m) as nat, |i: int| false);
        lemma_before_the_sync(sample_rate, f, m);
        assert(bits.drop_last() =~= front);
        let t = run_bits(s, front).0;
        let one = bits.last();
        let reg = ltc::shifted(t.reg, one);
        ltc::a_shift_moves_every_bit_along(t.reg, one);
        assert((blank_front + front).drop_first().push(one) =~= blank + bits);
        let held = ltc::register_bits(reg);
        assert(held == blank + bits);
        if reg & 0xffff == SYNC_WORD {
            lemma_sync_word(reg);
            if k >= 16 {
                assert forall|i: int| 0 <= i < 16 implies #[trigger] all[k - 16 + i] == (i != 0
                    && i != 1 && i != 14) by {
                    assert(held[64 + i] == all[k - 16 + i]);
                }
                assert(sync_ends_at(all, k as int));
                assert(false);
            } else if k >= 14 {
                assert(held[80 - k + 2] && held[80 - k + 3]);
                assert(all[2] && all[3]);
                assert(ltc::frame_bit(f, 2) && ltc::frame_bit(f, 3));
                assert(false);
            } else {
                assert(held[66]);
                assert(false);
            }
        }
        assert(reads(t, one).0.reg == reg && !reads(t, one).0.synced && reads(t, one).1 is None)
            by {
            reveal(reads);
        }
        assert(run_bits(s, bits).1 =~= Seq::empty());
    }
}

/// The first frame gives a fresh decoder its lock, and does not come out.
proof fn lemma_first_frame(sample_rate: u32, f: LtcFrame)
    requires
        f.in_range(),
        !imitates_sync(f),
    ensures
        run_bits(ltc::fresh(sample_rate), ltc::frame_bits(f)).0.synced,
        run_bits(ltc::fresh(sample_rate), ltc::frame_bits(f)).0.bits_since_sync == 0,
        run_bits(ltc::fresh(sample_rate), ltc::frame_bits(f)).1 == Seq::<LtcFrame>::empty(),
{
    let s = ltc::fresh(sample_rate);
    let bits = ltc::frame_bits(f);
    let front = bits.take(79);
    let blank = Seq::new(1, |i: int| false);
    lemma_before_the_sync(sample_rate, f, 79);
    lemma_one_bit_more(s, bits);
    assert(bits.drop_last() =~= front);
    let t = run_bits(s, front).0;
    let reg = ltc::shifted(t.reg, bits.last());
    ltc::a_shift_moves_every_bit_along(t.reg, bits.last());
    assert((blank + front).drop_first().push(bits.last()) =~= bits);
    ltc::lemma_sync_bits(reg, bits);
    reveal(reads);
    assert(run_bits(s, bits).1 =~= Seq::empty());
}

/// The bits of a run of frames read as the frames behind the first.
proof fn lemma_frames(sample_rate: u32, frames: Seq<LtcFrame>)
    requires
        frames.len() > 0,
        forall|i: int| 0 <= i < frames.len() ==> (#[trigger] frames[i]).in_range(),
        !imitates_sync(frames[0]),
    ensures
        run_bits(ltc::fresh(sample_rate), bits_of(frames)).0.synced,
        run_bits(ltc::fresh(sample_rate), bits_of(frames)).0.bits_since_sync == 0,
        run_bits(ltc::fresh(sample_rate), bits_of(frames)).1 == frames.skip(1),
        bits_of(frames).len() == 80 * frames.len(),
    decreases frames.len(),
{
    let s = ltc::fresh(sample_rate);
    let front = frames.drop_last();
    let bits = ltc::frame_bits(frames.last());
    if frames.len() == 1 {
        assert(bits_of(front) =~= Seq::empty());
        assert(bits_of(frames) =~= bits);
        lemma_first_frame(sample_rate, frames[0]);
        assert(frames.skip(1) =~= Seq::empty());
    } else {
        assert forall|i: int| 0 <= i < front.len() implies (#[trigger] front[i]).in_range() by {
            assert(front[i] == frames[i]);
        }
        lemma_frames(sample_rate, front);
        lemma_bits_join(s, bits_of(front), bits);
        let t = run_bits(s, bits_of(front)).0;
        ltc::a_locked_decoder_reads_every_frame(t, frames.last());
        assert(run_bits(t, bits).0 == ltc::after_bits(t, bits) && run_bits(t, bits).1
            == frames_of(ltc::frames_in_bits(t, bits))) by {
            reveal(run_bits);
        }
        assert(run_bits(t, bits).1 =~= seq![frames.last()]);
        assert(front.skip(1) + seq![frames.last()] =~= frames.skip(1));
    }
}

proof fn lemma_inverted_cells(bits: Seq<bool>, halves: Seq<nat>, x: i32)
    requires
        x != i32::MIN,
    ensures
        inverted(cells_audio(bits, halves, x)) == cells_audio(bits, halves, other(x)),
        level_behind(bits, other(x)) == other(level_behind(bits, x)),
        level_behind(bits, x) != i32::MIN,
    decreases bits.len(),
{
    if bits.len() == 0 {
        assert(inverted(cells_audio(bits, halves, x)) =~= cells_audio(bits, halves, other(x)));
    } else {
        lemma_inverted_cells(bits.drop_last(), halves, x);
        assert(inverted(cells_audio(bits, halves, x)) =~= cells_audio(bits, halves, other(x)));
    }
}

/// LTC audio decodes to the timecode that is in it. A fresh decoder is given the biphase-mark
/// audio of a run of frames, at any level that is loud enough and starting on either side of
/// zero, at any bit rate that the seeded bit period is in reach of, and with half cells that
/// are a sample longer or shorter than one another as the rounding has it. The first frame
/// gives the lock, and every frame behind it comes out, once, in order, and nothing else. The
/// same audio over a crossed cable decodes to the same frames.
pub proof fn ltc_audio_decodes_to_its_frames(
    frames: Seq<LtcFrame>,
    halves: Seq<nat>,
    x: i32,
    sample_rate: u32,
    least: nat,
    most: nat,
)
    requires
        frames.len() > 0,
        forall|i: int| 0 <= i < frames.len() ==> (#[trigger] frames[i]).in_range(),
        !imitates_sync(frames[0]),
        halves_fit(halves, 160 * frames.len(), least, most),
        in_reach(sample_rate, least, most),
        loud(x),
    ensures
        frames_of(ltc::frames_in(ltc::fresh(sample_rate), ltc_audio(frames, halves, x)))
            == frames.skip(1),
        frames_of(
            ltc::frames_in(ltc::fresh(sample_rate), inverted(ltc_audio(frames, halves, x))),
        ) == frames.skip(1),
{
    reveal(run);
    let bits = bits_of(frames);
    lemma_frames(sample_rate, frames);
    lemma_audio(bits, halves, x, sample_rate, least, most);
    lemma_audio(bits, halves, other(x), sample_rate, least, most);
    lemma_inverted_cells(bits, halves, x);
    assert(inverted(ltc_audio(frames, halves, x)) =~= ltc_audio(frames, halves, other(x)));
}

/// A frame whose number is below thirty, or that has a flag of its two down, holds the sync
/// word at its end and nowhere else: twelve ones in a row do not occur in its payload.
pub proof fn an_ordinary_frame_never_imitates_sync(f: LtcFrame)
    requires
        f.in_range(),
        f.frames < 30 || !f.drop_frame || !f.color_frame,
    ensures
        !imitates_sync(f),
{
    let bits = ltc::frame_bits(f);
    assert forall|k: int| 16 <= k < 80 implies !#[trigger] sync_ends_at(bits, k) by {
        if sync_ends_at(bits, k) {
            let from = k - 14;
            assert forall|j: int| from <= j < from + 12 implies ltc::frame_bit(f, j) by {
                assert(bits[k - 16 + (j - k + 16)]);
            }
            if from > 56 {
                assert(ltc::frame_bit(f, 65));
            }
            let group = (from + 7) / 8;
            let at = 8 * group;
            assert(from <= at && at + 4 <= from + 12);
            assert(at / 8 == group && at % 8 == 0);
            assert((at + 1) / 8 == group && (at + 1) % 8 == 1);
            assert((at + 2) / 8 == group && (at + 2) % 8 == 2);
            assert((at + 3) / 8 == group && (at + 3) % 8 == 3);
            assert(ltc::frame_bit(f, at) && ltc::frame_bit(f, at + 1) && ltc::frame_bit(f, at + 2)
                && ltc::frame_bit(f, at + 3));
            assert(false);
        }
    }
}

/// The sample that half cell `i` starts at, of LTC at `num / den` frames a second.
pub open spec fn edge(i: int, sample_rate: u32, num: nat, den: nat) -> int {
    (i * (sample_rate * den) + 160 * num - 1) / (160 * num as int)
}

/// The lengths of the half cells of so many frames, and of the one behind them.
pub open spec fn even_halves(n: nat, sample_rate: u32, num: nat, den: nat) -> Seq<nat> {
    Seq::new(
        160 * n + 1,
        |i: int|
            (edge(i + 1, sample_rate, num, den) - edge(i, sample_rate, num, den)) as nat,
    )
}

proof fn lemma_standard_rates_are_in_reach(sample_rate: u32, least: nat, most: nat)
    requires
        24_000 <= sample_rate <= 380_000,
        least <= most <= least + 1,
        4_800 * (least + 1) > sample_rate,
        3_840_000 * (most - 1) < 1_001 * sample_rate,
    ensures
        in_reach(sample_rate, least, most),
{
}

proof fn lemma_step(a: int, q: int, p: int)
    requires
        0 <= a,
        0 < q,
        0 < p,
    ensures
        q / p <= (a + q) / p - a / p <= q / p + 1,
        q % p == 0 ==> (a + q) / p - a / p == q / p,
{
    let c = a / p;
    let d = q / p;
    let e = a % p;
    let f = q % p;
    vstd::arithmetic::div_mod::lemma_fundamental_div_mod(a, p);
    vstd::arithmetic::div_mod::lemma_fundamental_div_mod(q, p);
    if e + f < p {
        assert(a + q == (c + d) * p + (e + f)) by (nonlinear_arith)
            requires
                a == p * c + e,
                q == p * d + f,
        ;
        vstd::arithmetic::div_mod::lemma_fundamental_div_mod_converse(a + q, p, c + d, e + f);
    } else {
        assert(a + q == (c + d + 1) * p + (e + f - p)) by (nonlinear_arith)
            requires
                a == p * c + e,
                q == p * d + f,
        ;
        vstd::arithmetic::div_mod::lemma_fundamental_div_mod_converse(
            a + q,
            p,
            c + d + 1,
            e + f - p,
        );
    }
}

/// LTC at any rate from 23.976 to 30 frames a second, sampled at 24 kHz or more, decodes to
/// its timecode: the edges fall where the frame rate puts them, rounded up to whole samples,
/// and every frame behind the first comes out, whichever way round the cable is.
pub proof fn evenly_timed_ltc_decodes(
    frames: Seq<LtcFrame>,
    x: i32,
    sample_rate: u32,
    num: nat,
    den: nat,
)
    requires
        frames.len() > 0,
        forall|i: int| 0 <= i < frames.len() ==> (#[trigger] frames[i]).in_range(),
        !imitates_sync(frames[0]),
        24_000 <= sample_rate <= 380_000,
        den > 0,
        24_000 * den <= 1_001 * num,
        num <= 30 * den,
        loud(x),
    ensures
        ({
            let halves = even_halves(frames.len(), sample_rate, num, den);
            let audio = ltc_audio(frames, halves, x);
            let s = ltc::fresh(sample_rate);
            &&& frames_of(ltc::frames_in(s, audio)) == frames.skip(1)
            &&& frames_of(ltc::frames_in(s, inverted(audio))) == frames.skip(1)
        }),
{
    let p = 160 * num as int;
    let q = sample_rate * den;
    let halves = even_halves(frames.len(), sample_rate, num, den);
    assert(q > 0) by (nonlinear_arith)
        requires
            q == sample_rate * den,
            sample_rate > 0,
            den > 0,
    ;
    vstd::arithmetic::div_mod::lemma_fundamental_div_mod(q, p);
    vstd::arithmetic::div_mod::lemma_div_pos_is_pos(q, p);
    let least = (q / p) as nat;
    let most = if q % p == 0 {
        least
    } else {
        least + 1
    };
    assert(4_800 * (least + 1) > sample_rate) by (nonlinear_arith)
        requires
            q == p * least + q % p,
            q % p < p,
            p == 160 * num,
            num <= 30 * den,
            q == sample_rate * den,
            den > 0,
            least >= 0,
    {
        assert(p * (least + 1) > sample_rate * den);
        assert(p * (least + 1) <= 4_800 * den * (least + 1));
    }
    assert(3_840_000 * (most - 1) < 1_001 * sample_rate) by (nonlinear_arith)
        requires
            q == p * least + q % p,
            0 <= q % p,
            q % p == 0 ==> most == least,
            q % p != 0 ==> most == least + 1,
            p == 160 * num,
            p > 0,
            24_000 * den <= 1_001 * num,
            q == sample_rate * den,
            den > 0,
            q > 0,
            least >= 0,
    {
        assert(p * (most - 1) < sample_rate * den);
        if most >= 1 {
            assert(3_840_000 * den * (most - 1) <= 1_001 * p * (most - 1));
        }
        assert(3_840_000 * den * (most - 1) < 1_001 * (sample_rate * den));
    }
    lemma_standard_rates_are_in_reach(sample_rate, least, most);
    assert forall|i: int| 0 <= i <= 160 * frames.len() implies least <= #[trigger] halves[i]
        <= most by {
        let a = i * q + p - 1;
        assert(a >= 0 && (i + 1) * q + p - 1 == a + q) by (nonlinear_arith)
            requires
                a == i * q + p - 1,
                i >= 0,
                q > 0,
                p > 0,
        ;
        lemma_step(a, q, p);
    }
    ltc_audio_decodes_to_its_frames(frames, halves, x, sample_rate, least, most);
}

} // verus!
