//! Listening to LTC: which channel to decode, what was missed, and what to show of it.

pub mod laws;

use vstd::prelude::*;

use crate::ltc;
use crate::ltc::DecodedFrame;
use crate::text;
use crate::time::Duration;
use crate::timecode;

verus! {

/// How long without a frame before it is called a signal loss, in milliseconds.
pub const SIGNAL_TIMEOUT_MILLIS: u64 = 500;

/// The channel numbers of an input, with `, ` between them.
pub open spec fn channel_list(channels: nat) -> Seq<char>
    decreases channels,
{
    if channels == 0 {
        Seq::empty()
    } else if channels == 1 {
        text::decimal(0)
    } else {
        channel_list((channels - 1) as nat) + ", "@ + text::decimal((channels - 1) as nat)
    }
}

/// What is said to someone who asked for a channel that isn't there.
pub open spec fn no_channel_text(channel: nat, channels: nat) -> Seq<char> {
    Seq::<char>::empty() + "channel "@ + text::decimal(channel)
        + " was requested but the device only has "@ + text::decimal(channels) + " ("@
        + channel_list(channels) + ")"@
}

/// Whether an input has the channel that was asked for, and what to say if not.
pub fn check_channel(channel: usize, channels: u16) -> (found: Result<(), String>)
    ensures
        match found {
            Ok(_) => channel < channels,
            Err(why) => channel >= channels && why@ == no_channel_text(
                channel as nat,
                channels as nat,
            ),
        },
{
    if channel < channels as usize {
        return Ok(());
    }
    let mut list = String::new();
    let mut i: u16 = 0;
    while i < channels
        invariant
            i <= channels,
            list@ == channel_list(i as nat),
        decreases channels - i,
    {
        if i > 0 {
            list.push_str(", ");
        }
        text::put_decimal(&mut list, i as u128);
        i = i + 1;
        assert(list@ =~= channel_list(i as nat));
    }
    let mut out = String::new();
    out.push_str("channel ");
    text::put_decimal(&mut out, channel as u128);
    out.push_str(" was requested but the device only has ");
    text::put_decimal(&mut out, channels as u128);
    out.push_str(" (");
    out.push_str(list.as_str());
    out.push_str(")");
    Err(out)
}

/// How many samples of one channel there are among interleaved ones.
pub open spec fn channel_len(len: nat, channel: nat, channels: nat) -> nat {
    if len <= channel {
        0
    } else {
        ((len - channel - 1) / (channels as int) + 1) as nat
    }
}

/// One channel out of interleaved samples.
pub fn mono(samples: &[i32], channel: usize, channels: u16) -> (out: Vec<i32>)
    requires
        channel < channels,
    ensures
        out@.len() == channel_len(samples@.len(), channel as nat, channels as nat),
        forall|k: int|
            0 <= k < out@.len() ==> #[trigger] out@[k] == samples@[channel + k * channels],
{
    let mut out: Vec<i32> = Vec::new();
    let step: usize = channels as usize;
    let mut at: usize = channel;
    assert(0 * channels == 0) by (nonlinear_arith);
    while at < samples.len()
        invariant
            channel < channels,
            step == channels,
            at == channel + out@.len() * channels,
            at < samples@.len() + channels,
            out@.len() > 0 ==> channel + (out@.len() - 1) * channels < samples@.len(),
            forall|k: int|
                0 <= k < out@.len() ==> #[trigger] out@[k] == samples@[channel + k * channels],
        decreases samples@.len() + channels - at,
    {
        out.push(samples[at]);
        assert(channel + out@.len() * channels == at + channels) by (nonlinear_arith)
            requires
                at == channel + (out@.len() - 1) * channels,
        ;
        if step > samples.len() - at {
            proof {
                lemma_channel_len(samples@.len(), channel as nat, channels as nat, out@.len());
            }
            return out;
        }
        at = at + step;
    }
    proof {
        lemma_channel_len(samples@.len(), channel as nat, channels as nat, out@.len());
    }
    out
}

proof fn lemma_channel_len(len: nat, channel: nat, channels: nat, n: nat)
    requires
        0 < channels,
        n > 0 ==> channel + (n - 1) * channels < len,
        len <= channel + n * channels,
    ensures
        n == channel_len(len, channel, channels),
{
    if n > 0 {
        let rest = len - channel - 1;
        let over = rest - (n - 1) * channels;
        assert(0 <= over < channels) by (nonlinear_arith)
            requires
                rest == len - channel - 1,
                over == rest - (n - 1) * channels,
                channel + (n - 1) * channels < len,
                len <= channel + n * channels,
        ;
        assert((n - 1) * channels >= 0) by (nonlinear_arith)
            requires
                n >= 1,
        ;
        assert(rest == channels * (n - 1) + over) by (nonlinear_arith)
            requires
                over == rest - (n - 1) * channels,
        ;
        vstd::arithmetic::div_mod::lemma_fundamental_div_mod_converse(
            rest,
            channels as int,
            n - 1,
            over,
        );
    }
}

/// How many frames went missing in a gap of so many samples between the ends of two
/// frames: none in less than one and a half frame periods, else the nearest number of
/// periods less the one that is accounted for.
pub open spec fn missed(gap: nat, sample_rate: nat, measured_fps: nat) -> nat {
    let frames = gap * measured_fps;
    let second = sample_rate * 1_000_000;
    if 2 * frames > 3 * second {
        ((2 * frames + second) / (2 * second) - 1) as nat
    } else {
        0
    }
}

/// What has been missed so far.
#[derive(Clone, Copy, Debug)]
pub struct Tally {
    /// Where the last frame ended.
    pub previous_end: Option<u64>,
    /// Frames the decoder lost sync over and skipped.
    pub dropped: u64,
}

/// A tally after one more frame.
pub open spec fn tally_after(t: Tally, decoded: DecodedFrame, sample_rate: nat) -> Tally {
    let gap = match t.previous_end {
        None => 0,
        Some(end) => if decoded.end_sample >= end {
            decoded.end_sample - end
        } else {
            0
        },
    };
    let total = t.dropped + missed(gap as nat, sample_rate, decoded.measured_fps as nat);
    Tally {
        previous_end: Some(decoded.end_sample),
        dropped: if total > u64::MAX {
            u64::MAX
        } else {
            total as u64
        },
    }
}

impl Tally {
    pub fn new() -> (t: Tally)
        ensures
            t.previous_end is None,
            t.dropped == 0,
    {
        Tally { previous_end: None, dropped: 0 }
    }

    /// Takes in a frame. A gap of more than one and a half frame periods between frame
    /// ends means the decoder lost sync and skipped some.
    pub fn take(&mut self, decoded: &DecodedFrame, sample_rate: u32)
        requires
            sample_rate > 0,
        ensures
            *final(self) == tally_after(*old(self), *decoded, sample_rate as nat),
    {
        let gap: u64 = match self.previous_end {
            None => 0,
            Some(end) => if decoded.end_sample >= end {
                decoded.end_sample - end
            } else {
                0
            },
        };
        proof {
            let g = gap as int;
            let m = decoded.measured_fps as int;
            assert(0 <= g * m <= 0xffff_ffff_ffff_ffff * 0xffff_ffff_ffff_ffff) by (nonlinear_arith)
                requires
                    0 <= g <= 0xffff_ffff_ffff_ffff,
                    0 <= m <= 0xffff_ffff_ffff_ffff,
            ;
        }
        let frames: u128 = gap as u128 * decoded.measured_fps as u128;
        let second: u128 = sample_rate as u128 * 1_000_000;
        // Twice the frames may not fit; halving the other side loses nothing, since what
        // is cut off is less than half a sample.
        let over: bool = frames > second && frames - second > second / 2;
        let more: u128 = if over {
            let whole: u128 = frames / second;
            let rest: u128 = frames % second;
            proof {
                vstd::arithmetic::div_mod::lemma_fundamental_div_mod(
                    frames as int,
                    second as int,
                );
                lemma_nearest(frames as int, second as int);
            }
            let round: u128 = if rest >= second - rest {
                1
            } else {
                0
            };
            assert(whole + round - 1 == missed(
                gap as nat,
                sample_rate as nat,
                decoded.measured_fps as nat,
            ));
            assert(whole <= frames) by (nonlinear_arith)
                requires
                    frames == second * whole + rest,
                    second >= 1,
                    rest >= 0,
            ;
            whole - 1 + round
        } else {
            0
        };
        assert(more == missed(gap as nat, sample_rate as nat, decoded.measured_fps as nat));
        let room: u64 = u64::MAX - self.dropped;
        self.dropped =
        if more > room as u128 {
            u64::MAX
        } else {
            self.dropped + more as u64
        };
        self.previous_end = Some(decoded.end_sample);
    }
}

/// The nearest whole number to a ratio that is over one and a half.
proof fn lemma_nearest(frames: int, second: int)
    requires
        second > 0,
        second % 2 == 0,
        2 * frames > 3 * second,
    ensures
        frames / second >= 1,
        (2 * frames + second) / (2 * second) == frames / second + (if frames % second >= second
            - frames % second {
            1int
        } else {
            0
        }),
{
    let q = frames / second;
    let r = frames % second;
    vstd::arithmetic::div_mod::lemma_fundamental_div_mod(frames, second);
    vstd::arithmetic::div_mod::lemma_mod_bound(frames, second);
    assert(q >= 1) by (nonlinear_arith)
        requires
            frames == second * q + r,
            0 <= r < second,
            2 * frames > 3 * second,
            second > 0,
    ;
    let up = if r >= second - r {
        1int
    } else {
        0
    };
    let over = if r >= second - r {
        2 * r - second
    } else {
        2 * r + second
    };
    assert(2 * frames + second == (q + up) * (2 * second) + over) by (nonlinear_arith)
        requires
            frames == second * q + r,
            up == 1 && over == 2 * r - second || up == 0 && over == 2 * r + second,
    ;
    vstd::arithmetic::div_mod::lemma_fundamental_div_mod_converse(
        2 * frames + second,
        2 * second,
        q + up,
        over,
    );
}

/// A signal is gone where no frame has come, or none for so long.
pub open spec fn is_gone(since_frame: Option<Duration>) -> bool {
    match since_frame {
        None => true,
        Some(d) => d@ > SIGNAL_TIMEOUT_MILLIS * 1_000_000,
    }
}

/// Whether the signal is to be called lost, so long after the last frame, if there was one.
pub fn is_stale(since_frame: Option<Duration>) -> (stale: bool)
    ensures
        stale == is_gone(since_frame),
        stale == (match since_frame {
            None => true,
            Some(d) => d@ > SIGNAL_TIMEOUT_MILLIS * 1_000_000,
        }),
{
    match since_frame {
        None => true,
        Some(d) => d.as_nanos() > SIGNAL_TIMEOUT_MILLIS as u128 * 1_000_000,
    }
}

/// A rate, given in hundredths of a frame a second, with decimals only where it has some.
pub open spec fn fps_text(hundredths: nat) -> Seq<char> {
    if hundredths % 100 == 0 {
        text::decimal(hundredths / 100)
    } else {
        text::fixed(hundredths as int, 100, 2)
    }
}

/// A rate, given in hundredths of a frame a second, in words.
pub fn format_fps(hundredths: u32) -> (out: String)
    ensures
        out@ == fps_text(hundredths as nat),
{
    let mut out = String::new();
    if hundredths % 100 == 0 {
        text::put_decimal(&mut out, hundredths as u128 / 100);
    } else {
        text::put_fixed(&mut out, hundredths as i128, 100, 2);
    }
    assert(out@ =~= fps_text(hundredths as nat));
    out
}

/// A level in a column of seven. It is given in millionths of a decibel; silence has none.
pub open spec fn level_text(level: Option<i64>) -> Seq<char> {
    match level {
        Some(level) => text::fixed_column(level as int, 1_000_000, 1, 7),
        None => text::pad_start("-inf"@, 7, ' '),
    }
}

fn put_level(out: &mut String, level: Option<i64>)
    ensures
        final(out)@ == old(out)@ + level_text(level),
{
    match level {
        Some(level) => text::put_fixed_column(out, level as i128, 1_000_000, 1, 7),
        None => text::put_pad_start(out, "-inf", 7, ' '),
    }
}

/// A frame's clock.
pub open spec fn frame_text(decoded: DecodedFrame) -> Seq<char> {
    let f = decoded.frame;
    timecode::clock_text(f.hours, f.minutes, f.seconds, f.frames, f.drop_frame)
}

/// The rate a frame is shown with.
pub open spec fn shown_fps(decoded: DecodedFrame) -> Seq<char> {
    fps_text(ltc::snapped(decoded.measured_fps as int, decoded.frame.drop_frame) as nat)
}

/// What was dropped, where anything was.
pub open spec fn drops_text(dropped: nat) -> Seq<char> {
    if dropped > 0 {
        Seq::<char>::empty() + "   "@ + text::decimal(dropped) + " dropped"@
    } else {
        Seq::empty()
    }
}

/// The line of a live display.
pub open spec fn live_text(decoded: DecodedFrame, level: Option<i64>, dropped: nat) -> Seq<char> {
    Seq::<char>::empty() + "\r  "@ + frame_text(decoded) + "   "@ + text::pad_start(
        shown_fps(decoded),
        5,
        ' ',
    ) + " fps   ub "@ + ltc::groups_text(decoded.frame.user_bits@) + "   "@ + level_text(level)
        + " dBFS"@ + drops_text(dropped) + "   \x1b[K"@
}

/// The line of a live display: the frame, over whatever was on the line.
pub fn print_live(decoded: &DecodedFrame, level: Option<i64>, dropped: u64) -> (out: String)
    requires
        decoded.frame.user_bits_fit(),
    ensures
        out@ == live_text(*decoded, level, dropped as nat),
{
    let mut drops = String::new();
    if dropped > 0 {
        drops.push_str("   ");
        text::put_decimal(&mut drops, dropped as u128);
        drops.push_str(" dropped");
    }
    assert(drops@ =~= drops_text(dropped as nat));
    let mut out = String::new();
    out.push_str("\r  ");
    out.push_str(decoded.frame.to_string().as_str());
    out.push_str("   ");
    text::put_pad_start(&mut out, format_fps(decoded.nominal_fps()).as_str(), 5, ' ');
    out.push_str(" fps   ub ");
    out.push_str(decoded.frame.user_bits_hex().as_str());
    out.push_str("   ");
    put_level(&mut out, level);
    out.push_str(" dBFS");
    out.push_str(drops.as_str());
    out.push_str("   \x1b[K");
    out
}

/// The line of a live display with nothing to show.
pub open spec fn silent_text(level: Option<i64>) -> Seq<char> {
    Seq::<char>::empty() + "\r  --:--:--:--   no LTC signal      "@ + level_text(level)
        + " dBFS   \x1b[K"@
}

/// The line of a live display with nothing to show.
pub fn print_silent(level: Option<i64>) -> (out: String)
    ensures
        out@ == silent_text(level),
{
    let mut out = String::new();
    out.push_str("\r  --:--:--:--   no LTC signal      ");
    put_level(&mut out, level);
    out.push_str(" dBFS   \x1b[K");
    out
}

/// A frame as a JSON object.
pub open spec fn json_text(decoded: DecodedFrame, dropped: nat) -> Seq<char> {
    let f = decoded.frame;
    Seq::<char>::empty() + "{\"timecode\":\""@ + frame_text(decoded) + "\",\"hours\":"@
        + text::decimal(f.hours as nat) + ",\"minutes\":"@ + text::decimal(f.minutes as nat)
        + ",\"seconds\":"@ + text::decimal(f.seconds as nat) + ",\"frames\":"@ + text::decimal(
        f.frames as nat,
    ) + ",\"drop_frame\":"@ + text::bool_text(f.drop_frame) + ",\"fps\":"@ + shown_fps(decoded)
        + ",\"measured_fps\":"@ + text::fixed(decoded.measured_fps as int, 1_000_000, 4)
        + ",\"user_bits\":\""@ + ltc::groups_text(f.user_bits@) + "\",\"end_sample\":"@
        + text::decimal(decoded.end_sample as nat) + ",\"dropped\":"@ + text::decimal(dropped)
        + "}"@
}

/// A frame as a JSON object, on one line.
pub fn print_json(decoded: &DecodedFrame, dropped: u64) -> (out: String)
    requires
        decoded.frame.user_bits_fit(),
    ensures
        out@ == json_text(*decoded, dropped as nat),
{
    let f = &decoded.frame;
    let mut out = String::new();
    out.push_str("{\"timecode\":\"");
    out.push_str(f.to_string().as_str());
    out.push_str("\",\"hours\":");
    text::put_decimal(&mut out, f.hours as u128);
    out.push_str(",\"minutes\":");
    text::put_decimal(&mut out, f.minutes as u128);
    out.push_str(",\"seconds\":");
    text::put_decimal(&mut out, f.seconds as u128);
    out.push_str(",\"frames\":");
    text::put_decimal(&mut out, f.frames as u128);
    out.push_str(",\"drop_frame\":");
    text::put_bool(&mut out, f.drop_frame);
    out.push_str(",\"fps\":");
    out.push_str(format_fps(decoded.nominal_fps()).as_str());
    out.push_str(",\"measured_fps\":");
    text::put_fixed(&mut out, decoded.measured_fps as i128, 1_000_000, 4);
    out.push_str(",\"user_bits\":\"");
    out.push_str(f.user_bits_hex().as_str());
    out.push_str("\",\"end_sample\":");
    text::put_decimal(&mut out, decoded.end_sample as u128);
    out.push_str(",\"dropped\":");
    text::put_decimal(&mut out, dropped as u128);
    out.push_str("}");
    out
}

/// An unbroken run drops nothing: frames whose ends are no more than one and a half
/// periods apart leave the count where it was, and the count never goes down.
pub proof fn an_unbroken_run_drops_nothing(t: Tally, decoded: DecodedFrame, sample_rate: nat)
    requires
        sample_rate > 0,
    ensures
        tally_after(t, decoded, sample_rate).dropped >= t.dropped,
        t.previous_end matches Some(end) && end <= decoded.end_sample && 2 * ((decoded.end_sample
            - end) * decoded.measured_fps) <= 3 * (sample_rate * 1_000_000)
            ==> tally_after(t, decoded, sample_rate).dropped == t.dropped,
        t.previous_end is None ==> tally_after(t, decoded, sample_rate).dropped == t.dropped,
{
    assert(0 * decoded.measured_fps == 0) by (nonlinear_arith);
}

} // verus!
