//! What is counted and shown while listening.

use vstd::prelude::*;

use crate::listen;
use crate::listen::Tally;
use crate::ltc;
use crate::ltc::DecodedFrame;
use crate::text;

verus! {

/// In a gap of more than one and a half frame periods, the frames that went missing, with the
/// one that came, are the nearest whole number of periods to the gap, the higher of two as
/// near; in a shorter gap none went missing.
pub proof fn what_is_missed_fills_the_gap(gap: nat, sample_rate: nat, measured_fps: nat)
    requires
        sample_rate > 0,
    ensures
        ({
            let second = sample_rate * 1_000_000;
            let frames = gap * measured_fps;
            let came = (listen::missed(gap, sample_rate, measured_fps) + 1) * second;
            if 2 * frames > 3 * second {
                2 * came <= 2 * frames + second && 2 * frames < 2 * came + second
            } else {
                listen::missed(gap, sample_rate, measured_fps) == 0
            }
        }),
{
    let second = (sample_rate * 1_000_000) as int;
    let frames = (gap * measured_fps) as int;
    if 2 * frames > 3 * second {
        let q = (2 * frames + second) / (2 * second);
        vstd::arithmetic::div_mod::lemma_fundamental_div_mod(2 * frames + second, 2 * second);
        vstd::arithmetic::div_mod::lemma_mod_bound(2 * frames + second, 2 * second);
        assert(q >= 1 && 2 * (q * second) <= 2 * frames + second && 2 * frames < 2 * (q * second)
            + second) by (nonlinear_arith)
            requires
                2 * frames + second == (2 * second) * q + (2 * frames + second) % (2 * second),
                0 <= (2 * frames + second) % (2 * second) < 2 * second,
                second > 0,
                2 * frames > 3 * second,
        ;
    }
}

/// Frames that come evenly are counted exactly: where the end of a frame lies so many whole
/// periods behind the last one, all but one of those were dropped.
pub proof fn a_hole_of_whole_periods_is_counted(
    t: Tally,
    decoded: DecodedFrame,
    sample_rate: nat,
    periods: nat,
    end: u64,
)
    requires
        sample_rate > 0,
        periods > 0,
        t.previous_end == Some(end),
        end <= decoded.end_sample,
        (decoded.end_sample - end) * decoded.measured_fps == periods * (sample_rate * 1_000_000),
    ensures
        ({
            let after = listen::tally_after(t, decoded, sample_rate);
            let total = t.dropped + periods - 1;
            &&& after.previous_end == Some(decoded.end_sample)
            &&& total <= u64::MAX ==> after.dropped == total
            &&& total > u64::MAX ==> after.dropped == u64::MAX
        }),
{
    let gap = (decoded.end_sample - end) as nat;
    let second = (sample_rate * 1_000_000) as int;
    let lost = listen::missed(gap, sample_rate, decoded.measured_fps as nat);
    what_is_missed_fills_the_gap(gap, sample_rate, decoded.measured_fps as nat);
    if periods == 1 {
        assert(1 * second == second) by (nonlinear_arith);
        assert(lost == 0);
    } else {
        assert(2 * (periods * second) > 3 * second) by (nonlinear_arith)
            requires
                periods >= 2,
                second > 0,
        ;
        assert(lost + 1 == periods) by (nonlinear_arith)
            requires
                2 * ((lost + 1) * second) <= 2 * (periods * second) + second,
                2 * (periods * second) < 2 * ((lost + 1) * second) + second,
                second > 0,
        ;
    }
}

/// A channel has a sample in every whole row of interleaved ones, and in the last row where
/// that reaches so far: the last of its samples lies among them, and the next would not.
pub proof fn a_channel_has_its_sample_of_every_row(len: nat, channel: nat, channels: nat)
    requires
        channel < channels,
    ensures
        ({
            let n = listen::channel_len(len, channel, channels);
            &&& n > 0 ==> channel + (n - 1) * channels < len
            &&& len <= channel + n * channels
        }),
{
    let n = listen::channel_len(len, channel, channels);
    if len > channel {
        let rest = len - channel - 1;
        let step = channels as int;
        vstd::arithmetic::div_mod::lemma_fundamental_div_mod(rest, step);
        vstd::arithmetic::div_mod::lemma_mod_bound(rest, step);
        let q = rest / step;
        assert(q >= 0 && q * step <= rest && rest < (q + 1) * step) by (nonlinear_arith)
            requires
                rest == step * q + rest % step,
                0 <= rest % step < step,
                rest >= 0,
        ;
    } else {
        assert(0 * channels == 0) by (nonlinear_arith);
    }
}

/// A rate in hundredths reads back: without its point a whole one is the number of frames,
/// and any other the number of hundredths, with two digits behind the point.
pub proof fn a_shown_rate_reads_back(hundredths: nat)
    ensures
        ({
            let s = listen::fps_text(hundredths);
            &&& hundredths % 100 == 0 ==> text::laws::all_digits(s) && 100 * text::laws::numeral(s)
                == hundredths
            &&& hundredths % 100 != 0 ==> {
                let digits = text::laws::figure(s, 0, 2);
                &&& s.len() >= 4
                &&& s[s.len() - 3] == '.'
                &&& text::laws::all_digits(digits)
                &&& text::laws::numeral(digits) == hundredths
            }
        }),
{
    if hundredths % 100 == 0 {
        text::laws::a_decimal_reads_back(hundredths / 100);
    } else {
        text::laws::a_figure_is_the_nearest(hundredths as int, 100, 2);
        reveal_with_fuel(vstd::arithmetic::power::pow, 3);
        let hundred = vstd::arithmetic::power::pow(10, 2);
        assert(hundred == 100);
        assert(hundredths * hundred == hundredths * 100) by (nonlinear_arith)
            requires
                hundred == 100,
        ;
    }
}

/// Every member of a frame's JSON object stands behind its own key: the numbers read back,
/// and the rest is written as it is shown.
#[verifier::rlimit(60)]
pub proof fn a_frames_members_read_back(decoded: DecodedFrame, dropped: nat)
    ensures
        ({
            let line = listen::json_text(decoded, dropped);
            let f = decoded.frame;
            &&& text::laws::has_text(line, "{\"timecode\":\""@, listen::frame_text(decoded), "\",\"hours\":"@)
            &&& text::laws::has_number(line, "\",\"hours\":"@, f.hours as int, ",\"minutes\":"@)
            &&& text::laws::has_number(line, ",\"minutes\":"@, f.minutes as int, ",\"seconds\":"@)
            &&& text::laws::has_number(line, ",\"seconds\":"@, f.seconds as int, ",\"frames\":"@)
            &&& text::laws::has_number(line, ",\"frames\":"@, f.frames as int, ",\"drop_frame\":"@)
            &&& text::laws::has_text(line, ",\"drop_frame\":"@, text::bool_text(f.drop_frame), ",\"fps\":"@)
            &&& text::laws::has_text(line, ",\"fps\":"@, listen::shown_fps(decoded), ",\"measured_fps\":"@)
            &&& text::laws::has_text(line, ",\"measured_fps\":"@, text::fixed(decoded.measured_fps as int, 1_000_000, 4), ",\"user_bits\":\""@)
            &&& text::laws::has_text(line, ",\"user_bits\":\""@, ltc::groups_text(f.user_bits@), "\",\"end_sample\":"@)
            &&& text::laws::has_number(line, "\",\"end_sample\":"@, decoded.end_sample as int, ",\"dropped\":"@)
            &&& text::laws::has_number(line, ",\"dropped\":"@, dropped as int, "}"@)
        }),
{
    let line = listen::json_text(decoded, dropped);
    let f = decoded.frame;
    let p0 = Seq::<Seq<char>>::empty();
    let p1 = p0.push("{\"timecode\":\""@);
    text::laws::lemma_joined(p0, "{\"timecode\":\""@);
    let p2 = p1.push(listen::frame_text(decoded));
    text::laws::lemma_joined(p1, listen::frame_text(decoded));
    let p3 = p2.push("\",\"hours\":"@);
    text::laws::lemma_joined(p2, "\",\"hours\":"@);
    let p4 = p3.push(text::decimal(f.hours as nat));
    text::laws::lemma_joined(p3, text::decimal(f.hours as nat));
    let p5 = p4.push(",\"minutes\":"@);
    text::laws::lemma_joined(p4, ",\"minutes\":"@);
    let p6 = p5.push(text::decimal(f.minutes as nat));
    text::laws::lemma_joined(p5, text::decimal(f.minutes as nat));
    let p7 = p6.push(",\"seconds\":"@);
    text::laws::lemma_joined(p6, ",\"seconds\":"@);
    let p8 = p7.push(text::decimal(f.seconds as nat));
    text::laws::lemma_joined(p7, text::decimal(f.seconds as nat));
    let p9 = p8.push(",\"frames\":"@);
    text::laws::lemma_joined(p8, ",\"frames\":"@);
    let p10 = p9.push(text::decimal(f.frames as nat));
    text::laws::lemma_joined(p9, text::decimal(f.frames as nat));
    let p11 = p10.push(",\"drop_frame\":"@);
    text::laws::lemma_joined(p10, ",\"drop_frame\":"@);
    let p12 = p11.push(text::bool_text(f.drop_frame));
    text::laws::lemma_joined(p11, text::bool_text(f.drop_frame));
    let p13 = p12.push(",\"fps\":"@);
    text::laws::lemma_joined(p12, ",\"fps\":"@);
    let p14 = p13.push(listen::shown_fps(decoded));
    text::laws::lemma_joined(p13, listen::shown_fps(decoded));
    let p15 = p14.push(",\"measured_fps\":"@);
    text::laws::lemma_joined(p14, ",\"measured_fps\":"@);
    let p16 = p15.push(text::fixed(decoded.measured_fps as int, 1_000_000, 4));
    text::laws::lemma_joined(p15, text::fixed(decoded.measured_fps as int, 1_000_000, 4));
    let p17 = p16.push(",\"user_bits\":\""@);
    text::laws::lemma_joined(p16, ",\"user_bits\":\""@);
    let p18 = p17.push(ltc::groups_text(f.user_bits@));
    text::laws::lemma_joined(p17, ltc::groups_text(f.user_bits@));
    let p19 = p18.push("\",\"end_sample\":"@);
    text::laws::lemma_joined(p18, "\",\"end_sample\":"@);
    let p20 = p19.push(text::decimal(decoded.end_sample as nat));
    text::laws::lemma_joined(p19, text::decimal(decoded.end_sample as nat));
    let p21 = p20.push(",\"dropped\":"@);
    text::laws::lemma_joined(p20, ",\"dropped\":"@);
    let p22 = p21.push(text::decimal(dropped));
    text::laws::lemma_joined(p21, text::decimal(dropped));
    let p23 = p22.push("}"@);
    text::laws::lemma_joined(p22, "}"@);
    assert(text::laws::joined(p23) == line);
    text::laws::lemma_part(p23, 1);
    text::laws::lemma_number_part(p23, 3, f.hours as nat);
    text::laws::lemma_number_part(p23, 5, f.minutes as nat);
    text::laws::lemma_number_part(p23, 7, f.seconds as nat);
    text::laws::lemma_number_part(p23, 9, f.frames as nat);
    text::laws::lemma_part(p23, 11);
    text::laws::lemma_part(p23, 13);
    text::laws::lemma_part(p23, 15);
    text::laws::lemma_part(p23, 17);
    text::laws::lemma_number_part(p23, 19, decoded.end_sample as nat);
    text::laws::lemma_number_part(p23, 21, dropped);
}

/// Nothing is said of dropped frames where there were none, and their number where there were
/// some.
pub proof fn dropped_frames_are_counted_out(dropped: nat)
    ensures
        dropped == 0 <==> listen::drops_text(dropped).len() == 0,
        dropped > 0 ==> text::laws::has_number(
            listen::drops_text(dropped),
            "   "@,
            dropped as int,
            " dropped"@,
        ),
{
    if dropped > 0 {
        let line = listen::drops_text(dropped);
        let none = Seq::<char>::empty();
        assert(line =~= none + "   "@ + text::decimal(dropped) + " dropped"@ + none);
        text::laws::a_decimal_reads_back(dropped);
    }
}

/// The line of a live display shows the frame, its rate, its user bits, the level and what was
/// dropped, each in its own place.
#[verifier::rlimit(30)]
pub proof fn a_live_line_reads_back(decoded: DecodedFrame, level: Option<i64>, dropped: nat)
    ensures
        ({
            let line = listen::live_text(decoded, level, dropped);
            &&& text::laws::has_text(line, "\r  "@, listen::frame_text(decoded), "   "@)
            &&& text::laws::has_text(line, "   "@, text::pad_start(listen::shown_fps(decoded), 5, ' '), " fps   ub "@)
            &&& text::laws::has_text(line, " fps   ub "@, ltc::groups_text(decoded.frame.user_bits@), "   "@)
            &&& text::laws::has_text(line, "   "@, listen::level_text(level), " dBFS"@)
            &&& text::laws::has_text(line, " dBFS"@, listen::drops_text(dropped), "   \x1b[K"@)
        }),
{
    let line = listen::live_text(decoded, level, dropped);
    let p0 = Seq::<Seq<char>>::empty();
    let p1 = p0.push("\r  "@);
    text::laws::lemma_joined(p0, "\r  "@);
    let p2 = p1.push(listen::frame_text(decoded));
    text::laws::lemma_joined(p1, listen::frame_text(decoded));
    let p3 = p2.push("   "@);
    text::laws::lemma_joined(p2, "   "@);
    let p4 = p3.push(text::pad_start(listen::shown_fps(decoded), 5, ' '));
    text::laws::lemma_joined(p3, text::pad_start(listen::shown_fps(decoded), 5, ' '));
    let p5 = p4.push(" fps   ub "@);
    text::laws::lemma_joined(p4, " fps   ub "@);
    let p6 = p5.push(ltc::groups_text(decoded.frame.user_bits@));
    text::laws::lemma_joined(p5, ltc::groups_text(decoded.frame.user_bits@));
    let p7 = p6.push("   "@);
    text::laws::lemma_joined(p6, "   "@);
    let p8 = p7.push(listen::level_text(level));
    text::laws::lemma_joined(p7, listen::level_text(level));
    let p9 = p8.push(" dBFS"@);
    text::laws::lemma_joined(p8, " dBFS"@);
    let p10 = p9.push(listen::drops_text(dropped));
    text::laws::lemma_joined(p9, listen::drops_text(dropped));
    let p11 = p10.push("   \x1b[K"@);
    text::laws::lemma_joined(p10, "   \x1b[K"@);
    assert(text::laws::joined(p11) == line);
    text::laws::lemma_part(p11, 1);
    text::laws::lemma_part(p11, 3);
    text::laws::lemma_part(p11, 5);
    text::laws::lemma_part(p11, 7);
    text::laws::lemma_part(p11, 9);
}

/// A level is written in decibels to the nearest tenth, and silence as what it is.
pub proof fn a_level_is_the_nearest(level: i64)
    ensures
        exists|figure: Seq<char>|
            listen::level_text(Some(level)) == #[trigger] text::pad_start(figure, 7, ' ')
                && text::laws::is_plain_figure(figure, level as int, 1_000_000, 1, 10),
        listen::level_text(None) == "   -inf"@,
{
    text::laws::lemma_is_plain_figure(level as int, 1_000_000, 1);
    let figure = text::fixed(level as int, 1_000_000, 1);
    assert(listen::level_text(Some(level)) == text::pad_start(figure, 7, ' '));
    reveal_strlit("-inf");
    reveal_strlit("   -inf");
    assert(listen::level_text(None) =~= "   -inf"@);
}

/// Who asks for a channel that is not there is told which it was and how many there are.
pub proof fn a_missing_channel_is_told(channel: nat, channels: nat)
    ensures
        ({
            let line = listen::no_channel_text(channel, channels);
            &&& text::laws::has_number(line, "channel "@, (channel) as int, " was requested but the device only has "@)
            &&& text::laws::has_number(line, " was requested but the device only has "@, (channels) as int, " ("@)
            &&& text::laws::has_text(line, " ("@, listen::channel_list(channels), ")"@)
        }),
{
    let line = listen::no_channel_text(channel, channels);
    let p0 = Seq::<Seq<char>>::empty();
    let p1 = p0.push("channel "@);
    text::laws::lemma_joined(p0, "channel "@);
    let p2 = p1.push(text::decimal(channel));
    text::laws::lemma_joined(p1, text::decimal(channel));
    let p3 = p2.push(" was requested but the device only has "@);
    text::laws::lemma_joined(p2, " was requested but the device only has "@);
    let p4 = p3.push(text::decimal(channels));
    text::laws::lemma_joined(p3, text::decimal(channels));
    let p5 = p4.push(" ("@);
    text::laws::lemma_joined(p4, " ("@);
    let p6 = p5.push(listen::channel_list(channels));
    text::laws::lemma_joined(p5, listen::channel_list(channels));
    let p7 = p6.push(")"@);
    text::laws::lemma_joined(p6, ")"@);
    assert(text::laws::joined(p7) == line);
    text::laws::lemma_number_part(p7, 1, channel);
    text::laws::lemma_number_part(p7, 3, channels);
    text::laws::lemma_part(p7, 5);
}

/// The channels of an input are listed from zero up, each once: the last is one less than
/// there are.
pub proof fn channels_are_listed_from_zero(channels: nat)
    requires
        channels > 0,
    ensures
        channels == 1 ==> listen::channel_list(channels) == "0"@,
        channels > 1 ==> exists|digits: Seq<char>|
            {
                &&& listen::channel_list(channels) == #[trigger] (listen::channel_list(
                    (channels - 1) as nat,
                ) + ", "@ + digits)
                &&& text::laws::all_digits(digits)
                &&& text::laws::numeral(digits) == channels - 1
            },
{
    if channels == 1 {
        reveal_strlit("0");
        reveal_with_fuel(text::decimal, 2);
        assert(listen::channel_list(1) =~= "0"@);
    } else {
        text::laws::a_decimal_reads_back((channels - 1) as nat);
        assert(listen::channel_list(channels) == listen::channel_list((channels - 1) as nat)
            + ", "@ + text::decimal((channels - 1) as nat));
    }
}

/// A signal is gone half a second after its last frame, and not before; without a frame there
/// never was one.
pub proof fn a_signal_is_gone_after_half_a_second(since: crate::time::Duration)
    ensures
        listen::is_gone(Some(since)) <==> 2 * since@ > 1_000_000_000,
        listen::is_gone(None),
{
}

} // verus!
