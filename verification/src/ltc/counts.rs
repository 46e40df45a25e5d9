//! What a decoder counts, measures and tells apart.

use vstd::prelude::*;

use crate::ltc;
use crate::ltc::{Demod, LtcFrame};
use crate::text;

verus! {

/// Samples are counted one by one: behind a run of them the count is higher by its length.
pub proof fn every_sample_is_counted(s: Demod, samples: Seq<i32>)
    requires
        s.samples_seen + samples.len() <= u64::MAX,
    ensures
        ltc::state_after(s, samples).samples_seen == s.samples_seen + samples.len(),
        ltc::state_after(s, samples).sample_rate == s.sample_rate,
    decreases samples.len(),
{
    if samples.len() > 0 {
        every_sample_is_counted(s, samples.drop_last());
    }
}

/// A frame ends where the sample that completes it lies: counted from the start of the run,
/// frames end at samples of it, each behind the one before, and a frame that the last sample
/// completes ends behind that sample.
pub proof fn frames_end_at_their_samples(s: Demod, samples: Seq<i32>)
    requires
        s.samples_seen + samples.len() <= u64::MAX,
    ensures
        ({
            let frames = ltc::frames_in(s, samples);
            &&& forall|i: int|
                0 <= i < frames.len() ==> s.samples_seen < (#[trigger] frames[i]).end_sample
                    <= s.samples_seen + samples.len()
            &&& forall|i: int, j: int|
                0 <= i < j < frames.len() ==> (#[trigger] frames[i]).end_sample < (
                #[trigger] frames[j]).end_sample
            &&& samples.len() > 0 && frames.len() > ltc::frames_in(s, samples.drop_last()).len()
                ==> frames.last().end_sample == s.samples_seen + samples.len()
        }),
    decreases samples.len(),
{
    if samples.len() > 0 {
        let front = samples.drop_last();
        frames_end_at_their_samples(s, front);
        every_sample_is_counted(s, front);
        let before = ltc::frames_in(s, front);
        let frames = ltc::frames_in(s, samples);
        assert forall|i: int| 0 <= i < frames.len() implies s.samples_seen < (
        #[trigger] frames[i]).end_sample <= s.samples_seen + samples.len() by {
            if i < before.len() {
                assert(frames[i] == before[i]);
            }
        }
        assert forall|i: int, j: int| 0 <= i < j < frames.len() implies (
        #[trigger] frames[i]).end_sample < (#[trigger] frames[j]).end_sample by {
            assert(frames[i] == before[i]);
            if j < before.len() {
                assert(frames[j] == before[j]);
            }
        }
    }
}

/// The measured rate of a frame is the one at which 80 bits of the decoder's bit period make a
/// frame, to a millionth of a frame a second below.
pub proof fn eighty_bits_make_a_frame(s: Demod, x: i32)
    requires
        s.wf(),
        s.sample_rate > 0,
    ensures
        ltc::after_sample(s, x).1 matches Some(d) ==> {
            let frame = 80 * ltc::after_sample(s, x).0.bit_period;
            let second = s.sample_rate * 1_000_000_000;
            &&& frame > 0 ==> d.measured_fps * frame <= second * 1_000_000
            &&& frame > 0 && d.measured_fps < u64::MAX ==> second * 1_000_000 < (d.measured_fps
                + 1) * frame
        },
{
    if let Some(d) = ltc::after_sample(s, x).1 {
        let p = ltc::after_sample(s, x).0.bit_period as int;
        let n = s.sample_rate * 1_000_000_000_000_000;
        if p > 0 {
            let q = n / (p * 80);
            vstd::arithmetic::div_mod::lemma_fundamental_div_mod(n, p * 80);
            vstd::arithmetic::div_mod::lemma_mod_bound(n, p * 80);
            assert(q >= 0 && q * (80 * p) <= n && n < (q + 1) * (80 * p)) by (nonlinear_arith)
                requires
                    n == (p * 80) * q + n % (p * 80),
                    0 <= n % (p * 80) < p * 80,
                    p > 0,
                    n >= 0,
            ;
            let m = d.measured_fps as int;
            assert(m <= q);
            assert(m * (80 * p) <= q * (80 * p)) by (nonlinear_arith)
                requires
                    m <= q,
                    p > 0,
            ;
        }
    }
}

/// A fresh decoder takes the bits for those of 27 frames a second, in the middle of what it
/// will be given, to a billionth of a sample.
pub proof fn a_fresh_decoder_expects_27_frames_a_second(sample_rate: u32)
    ensures
        ({
            let s = ltc::fresh(sample_rate);
            &&& 27 * (80 * s.bit_period) <= sample_rate * 1_000_000_000
            &&& sample_rate * 1_000_000_000 < 27 * (80 * (s.bit_period + 1))
            &&& s.samples_seen == 0
            &&& s.sample_rate == sample_rate
            &&& !s.synced
        }),
{
}

/// A bit's worth of signal moves the bit period a tenth of the way to its own length.
pub proof fn a_cell_pulls_the_period_a_tenth_of_the_way(period: nat, cell: nat)
    ensures
        ({
            let next = ltc::adapted(period, cell);
            let length = cell * 1_000_000_000;
            &&& 10 * (next - period) <= length - period < 10 * (next - period) + 10
        }),
{
}

/// Intervals between transitions are told apart by the bit period. One over two periods is a
/// gap in the signal: the lock is gone. One under a quarter of a period is ringing and is
/// passed over. One over three quarters is a zero. Anything between is half of a one, and the
/// second half completes it; the bit period follows the whole cell.
pub proof fn intervals_are_told_apart_by_the_period(s: Demod, interval: u64)
    ensures
        ({
            let (t, done) = ltc::after_transition(s, interval);
            let ticks = interval * 1_000_000_000;
            let period = s.bit_period as int;
            &&& ticks > 2 * period ==> !t.synced && t.pending_half is None && done is None
                && t.bit_period == period
            &&& ticks <= 2 * period && 4 * ticks < period ==> t == s && done is None
            &&& ticks <= 2 * period && 4 * ticks >= period && 4 * ticks > 3 * period ==> {
                &&& t.reg == ltc::shifted(s.reg, false)
                &&& t.pending_half is None
                &&& t.bit_period == ltc::adapted(s.bit_period as nat, interval as nat) as u128
            }
            &&& ticks <= 2 * period && 4 * ticks >= period && 4 * ticks <= 3 * period ==> {
                match s.pending_half {
                    None => t == (Demod { pending_half: Some(interval), ..s }) && done is None,
                    Some(first) => {
                        &&& t.reg == ltc::shifted(s.reg, true)
                        &&& t.pending_half is None
                        &&& t.bit_period == ltc::adapted(
                            s.bit_period as nat,
                            (first + interval) as nat,
                        ) as u128
                    },
                }
            }
        }),
{
}

/// The signal has changed sides where it is past a quarter of the envelope on the other side
/// from before, and nowhere else; and not at all where the envelope is under a thousandth of
/// full scale, which is silence.
pub proof fn a_side_is_changed_past_a_quarter_of_the_envelope(s: Demod, x: i32)
    ensures
        ({
            let t = ltc::after_sample(s, x).0;
            let ac = x * 1_000_000 - ltc::dc_after(s, x);
            let envelope = ltc::envelope_after(s, x);
            let silent = 1_000 * envelope < 268_435_456 * 1_000_000;
            let crosses = if s.polarity {
                -4 * ac > envelope
            } else {
                4 * ac > envelope
            };
            &&& t.polarity != s.polarity <==> !silent && crosses
            &&& silent ==> !t.synced && ltc::after_sample(s, x).1 is None
            &&& !crosses ==> ltc::after_sample(s, x).1 is None
        }),
{
}

/// The envelope is the peak of the signal: it is never below the sample, rises to it at once,
/// and else falls by 42 hundred-thousandths a sample.
pub proof fn the_envelope_follows_the_peaks(s: Demod, x: i32)
    requires
        s.wf(),
    ensures
        ({
            let ac = x * 1_000_000 - ltc::dc_after(s, x);
            let size = if ac < 0 {
                -ac
            } else {
                ac
            };
            let envelope = ltc::envelope_after(s, x);
            &&& size > s.envelope ==> envelope == size
            &&& size <= s.envelope ==> 100_000 * (s.envelope - envelope) >= 42 * s.envelope
                && 100_000 * (s.envelope - envelope) < 42 * s.envelope + 100_000
        }),
{
}

/// The slow part of the signal moves 26 ten-thousandths of the way to each sample.
pub proof fn the_slow_part_follows_the_signal(s: Demod, x: i32)
    ensures
        ({
            let gap = x * 1_000_000 - s.dc;
            let moved = ltc::dc_after(s, x) - s.dc;
            &&& gap >= 0 ==> 0 <= 10_000 * moved <= 26 * gap < 10_000 * moved + 10_000
            &&& gap <= 0 ==> 0 <= 10_000 * (-moved) <= 26 * (-gap) < 10_000 * (-moved) + 10_000
        }),
{
    let gap = x * 1_000_000 - s.dc;
    assert(crate::num::truncated(gap * 26, 10_000) == crate::num::truncated(26 * gap, 10_000));
}

/// What comes out of 80 bits is a time of day: nothing else is taken for a frame.
pub proof fn what_is_no_time_of_day_is_no_frame(bits: Seq<bool>)
    ensures
        ltc::frame_of(bits) matches Some(f) ==> f.hours < 24 && f.minutes < 60 && f.seconds < 60
            && f.frames <= 30,
{
}

/// And every time of day does: the frame with these fields comes back from its bits.
pub proof fn every_time_of_day_is_a_frame(f: LtcFrame)
    requires
        f.hours < 24,
        f.minutes < 60,
        f.seconds < 60,
        f.frames <= 30,
        forall|i: int| 0 <= i < 8 ==> #[trigger] f.user_bits[i] < 16,
    ensures
        ltc::frame_of(ltc::frame_bits(f)) == Some(f),
{
    ltc::a_frame_reads_back(f);
}

/// User bits are written as one hexadecimal digit a group, in the order of the groups.
pub proof fn user_bits_read_back(f: LtcFrame)
    requires
        forall|i: int| 0 <= i < 8 ==> #[trigger] f.user_bits[i] < 16,
    ensures
        ({
            let s = ltc::groups_text(f.user_bits@);
            &&& s.len() == 8
            &&& forall|i: int|
                0 <= i < 8 ==> text::laws::is_hex(#[trigger] s[i]) && text::laws::hex_value(s[i])
                    == f.user_bits[i]
        }),
{
    let s = ltc::groups_text(f.user_bits@);
    assert forall|i: int| 0 <= i < 8 implies text::laws::is_hex(#[trigger] s[i])
        && text::laws::hex_value(s[i]) == f.user_bits[i] by {
        assert(f.user_bits[i] < 16);
        text::laws::a_hex_byte_reads_back(f.user_bits[i]);
        assert(s[i] == text::hex_digit(f.user_bits[i] as nat));
    }
}

/// A frame comes with the last bit of a sync word that ends just 80 bits behind the one before,
/// and with no other; behind any sync word that is no nearer than that, the count starts anew,
/// and everything else is one bit more.
pub proof fn a_frame_comes_eighty_bits_behind_a_sync_word(s: Demod, one: bool)
    ensures
        ({
            let (t, done) = ltc::after_bit(s, one);
            let sync = ltc::shifted(s.reg, one) & 0xffff == 0x3ffd;
            &&& done is Some ==> sync && s.synced && s.bits_since_sync == 79
            &&& sync && s.synced && s.bits_since_sync == 79 ==> (done is Some <==> ltc::frame_of(
                ltc::register_bits(t.reg),
            ) is Some)
            &&& done matches Some(d) ==> ltc::frame_of(ltc::register_bits(t.reg)) == Some(d.frame)
            &&& sync && (!s.synced || s.bits_since_sync >= 79) ==> t.synced && t.bits_since_sync
                == 0
            &&& !(sync && (!s.synced || s.bits_since_sync >= 79)) && s.bits_since_sync < u64::MAX
                ==> t.synced == s.synced && t.bits_since_sync == s.bits_since_sync + 1
            &&& t.reg == ltc::shifted(s.reg, one)
            &&& t.bit_period == s.bit_period && t.samples_seen == s.samples_seen
        }),
{
}

/// The level is the envelope in a sample's own unit: a run that holds a steady peak shows that
/// peak, less what the slow part has taken, to one below.
pub proof fn the_level_is_the_envelope(s: Demod, x: i32)
    requires
        s.wf(),
    ensures
        ({
            let t = ltc::after_sample(s, x).0;
            let envelope = ltc::envelope_after(s, x);
            &&& 1_000_000 * ltc::level_of(t) <= envelope < 1_000_000 * (ltc::level_of(t) + 1)
        }),
{
    lemma_envelope_fits(s, x);
}

proof fn lemma_envelope_fits(s: Demod, x: i32)
    requires
        s.wf(),
    ensures
        0 <= ltc::envelope_after(s, x) <= 2 * 0x8000_0000 * 1_000_000,
        ltc::after_sample(s, x).0.envelope == ltc::envelope_after(s, x),
{
    let fine = x * 1_000_000;
    let gap = fine - s.dc;
    the_slow_part_follows_the_signal(s, x);
}

/// What a bit counts for where it is set.
pub open spec fn worth(b: bool, weight: int) -> int {
    if b {
        weight
    } else {
        0
    }
}

/// What the four bits from one on count for, the lowest first.
pub open spec fn group(bits: Seq<bool>, at: int) -> int {
    worth(bits[at], 1) + worth(bits[at + 1], 2) + worth(bits[at + 2], 4) + worth(bits[at + 3], 8)
}

/// Every bit of a frame has its own place and worth: units in fours, tens two groups behind
/// them, the two flags behind the tens of the frames, and a user group behind every one of
/// those.
pub proof fn every_bit_has_its_worth(bits: Seq<bool>, g: int)
    requires
        0 <= g < 8,
    ensures
        ltc::frame_of(bits) matches Some(f) ==> {
            &&& f.frames == group(bits, 0) + worth(bits[8], 10) + worth(bits[9], 20)
            &&& f.seconds == group(bits, 16) + worth(bits[24], 10) + worth(bits[25], 20) + worth(
                bits[26],
                40,
            )
            &&& f.minutes == group(bits, 32) + worth(bits[40], 10) + worth(bits[41], 20) + worth(
                bits[42],
                40,
            )
            &&& f.hours == group(bits, 48) + worth(bits[56], 10) + worth(bits[57], 20)
            &&& f.drop_frame == bits[10]
            &&& f.color_frame == bits[11]
            &&& f.user_bits[g] == group(bits, 8 * g + 4)
        },
{
    lemma_group(bits, 0);
    lemma_group(bits, 16);
    lemma_group(bits, 32);
    lemma_group(bits, 48);
    lemma_group(bits, 8 * g + 4);
    reveal_with_fuel(ltc::number, 4);
    assert(ltc::user_groups(bits)[g] == ltc::number(bits, 8 * g + 4, 4) as u8);
}

proof fn lemma_group(bits: Seq<bool>, at: int)
    ensures
        ltc::number(bits, at, 4) == group(bits, at),
        group(bits, at) <= 15,
{
    reveal_with_fuel(ltc::number, 5);
}

} // verus!
