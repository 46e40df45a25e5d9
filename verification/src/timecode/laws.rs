//! What a reading means on the clock.

use vstd::prelude::*;

use crate::text;
use crate::time::Duration;
use crate::timecode;
use crate::timecode::{Rate, Timecode};

verus! {

/// A clock runs from zero at midnight. An hour on it is sixty minutes, a minute is sixty
/// seconds, a second is as many frames as the rate says, and a frame is 10^9 nano-frames; a
/// nanosecond into the frame counts for as many nano-frames as there are frames a second.
pub proof fn a_position_counts_the_time_since_midnight(tc: Timecode)
    ensures
        timecode::position_of(
            Timecode {
                hours: 0,
                minutes: 0,
                seconds: 0,
                frames: 0,
                subframe: Duration { secs: 0, nanos: 0 },
                ..tc
            },
        ) == 0,
        tc.frames < 255 ==> timecode::position_of(
            Timecode { frames: (tc.frames + 1) as u8, ..tc },
        ) == timecode::position_of(tc) + 1_000_000_000,
        tc.seconds < 255 ==> timecode::position_of(
            Timecode { seconds: (tc.seconds + 1) as u8, ..tc },
        ) == timecode::position_of(tc) + tc.rate.fps * 1_000_000_000,
        tc.minutes < 255 ==> timecode::position_of(
            Timecode { minutes: (tc.minutes + 1) as u8, ..tc },
        ) == timecode::position_of(tc) + 60 * (tc.rate.fps * 1_000_000_000),
        tc.hours < 255 ==> timecode::position_of(
            Timecode { hours: (tc.hours + 1) as u8, ..tc },
        ) == timecode::position_of(tc) + 60 * (60 * (tc.rate.fps * 1_000_000_000)),
        forall|later: Duration|
            #![trigger later@]
            later@ == tc.subframe@ + 1 ==> timecode::position_of(
                Timecode { subframe: later, ..tc },
            ) == timecode::position_of(tc) + tc.rate.fps,
{
    let fps = tc.rate.fps as int;
    let clock = (tc.hours * 60 + tc.minutes) * 60 + tc.seconds;
    assert((clock + 1) * fps == clock * fps + fps) by (nonlinear_arith);
    assert((clock + 60) * fps == clock * fps + 60 * fps) by (nonlinear_arith);
    assert((clock + 3600) * fps == clock * fps + 3600 * fps) by (nonlinear_arith);
    assert(0 * fps == 0) by (nonlinear_arith);
    let sub = tc.subframe@ as int;
    assert((sub + 1) * fps == sub * fps + fps) by (nonlinear_arith);
    assert(sub * fps >= 0 && clock * fps >= 0) by (nonlinear_arith)
        requires
            sub >= 0,
            clock >= 0,
            fps >= 0,
    ;
    let midnight = Timecode {
        hours: 0,
        minutes: 0,
        seconds: 0,
        frames: 0,
        subframe: Duration { secs: 0, nanos: 0 },
        ..tc
    };
    assert(midnight.subframe@ == 0);
    assert(timecode::subframe_span(midnight) == 0);
}

/// The day ends one frame behind the last reading of the clock, and that is where it wraps
/// round to zero.
pub proof fn the_day_ends_behind_its_last_frame(tc: Timecode)
    requires
        tc.rate.fps > 0,
        tc.hours == 23,
        tc.minutes == 59,
        tc.seconds == 59,
        tc.frames == tc.rate.fps - 1,
        tc.subframe@ == 0,
    ensures
        timecode::day_span(tc.rate) == timecode::position_of(tc) + 1_000_000_000,
        timecode::day_frames(tc.rate) * 1_000_000_000 == timecode::day_span(tc.rate),
        timecode::position_of(
            timecode::timecode_at(timecode::position_of(tc) as int + 1_000_000_000, tc.rate),
        ) == 0,
{
    let fps = tc.rate.fps as int;
    assert(86399 * fps + fps == 86400 * fps) by (nonlinear_arith);
    assert(0 * fps == 0) by (nonlinear_arith);
    timecode::a_day_is_a_full_turn(0, 1, tc.rate);
    assert(1 * timecode::day_span(tc.rate) == timecode::day_span(tc.rate)) by (nonlinear_arith);
    timecode::a_reading_keeps_its_position(0, tc.rate);
    timecode::a_position_falls_inside_a_frame(0, tc.rate);
    let day = timecode::day_span(tc.rate) as int;
    assert(0int % day == 0) by (nonlinear_arith)
        requires
            day > 0,
    ;
    let zero = timecode::timecode_at(0, tc.rate);
    lemma_nothing(fps);
    assert(zero.subframe@ == 0) by {
        crate::time::of_undoes_the_view(Duration { secs: 0, nanos: 0 }, 0);
    }
    assert(timecode::position_of(zero) == 0);
}

proof fn lemma_nothing(fps: int)
    requires
        fps > 0,
    ensures
        text::nearest_even(0, fps as nat) == 0,
        0int / fps == 0,
        0int % fps == 0,
{
    assert(0int / fps == 0 && 0int % fps == 0) by (nonlinear_arith)
        requires
            fps > 0,
    ;
}

/// A whole rate goes by at the rate it is numbered at; a drop-frame rate takes 1001 seconds
/// for the frames that its numbering has in 1000.
pub proof fn a_drop_frame_rate_takes_a_thousandth_longer(rate: Rate)
    ensures
        ({
            let exact = timecode::exact_rate(rate);
            &&& exact.den > 0
            &&& !rate.drop_frame ==> exact.num == exact.den * rate.fps
            &&& rate.drop_frame ==> 1001 * exact.num == exact.den * (1000 * rate.fps)
        }),
{
    let fps = rate.fps as int;
    assert(1 * fps == fps) by (nonlinear_arith);
}

/// A text is a clock with these fields: colons stand between them, and a semicolon in front of
/// the frames of a drop-frame rate.
pub open spec fn says_clock(
    line: Seq<char>,
    hours: Seq<char>,
    minutes: Seq<char>,
    seconds: Seq<char>,
    frames: Seq<char>,
    drop_frame: bool,
) -> bool {
    line == hours + seq![':'] + minutes + seq![':'] + seconds + (if drop_frame {
        seq![';']
    } else {
        seq![':']
    }) + frames
}

/// A clock is written hours, minutes, seconds and frames, each in two digits that spell it.
pub proof fn a_written_clock_reads_back(tc: Timecode)
    ensures
        exists|h: Seq<char>, m: Seq<char>, s: Seq<char>, f: Seq<char>|
            {
                &&& #[trigger] says_clock(
                    timecode::timecode_text(tc),
                    h,
                    m,
                    s,
                    f,
                    tc.rate.drop_frame,
                )
                &&& text::laws::two_digits(h, tc.hours as int)
                &&& text::laws::two_digits(m, tc.minutes as int)
                &&& text::laws::two_digits(s, tc.seconds as int)
                &&& text::laws::two_digits(f, tc.frames as int)
            },
        timecode::timecode_text(tc) == timecode::clock_text(
            tc.hours,
            tc.minutes,
            tc.seconds,
            tc.frames,
            tc.rate.drop_frame,
        ),
{
    text::laws::two_places_read_back(tc.hours as nat);
    text::laws::two_places_read_back(tc.minutes as nat);
    text::laws::two_places_read_back(tc.seconds as nat);
    text::laws::two_places_read_back(tc.frames as nat);
    let h = text::zero_padded(tc.hours as nat, 2);
    let m = text::zero_padded(tc.minutes as nat, 2);
    let s = text::zero_padded(tc.seconds as nat, 2);
    let f = text::zero_padded(tc.frames as nat, 2);
    let line = timecode::timecode_text(tc);
    let said = h + seq![':'] + m + seq![':'] + s + (if tc.rate.drop_frame {
        seq![';']
    } else {
        seq![':']
    }) + f;
    assert(line =~= said);
    assert(says_clock(line, h, m, s, f, tc.rate.drop_frame));
}

/// Two clocks that are written alike read alike: what is written tells any two apart.
pub proof fn written_clocks_tell_readings_apart(a: Timecode, b: Timecode)
    requires
        timecode::timecode_text(a) == timecode::timecode_text(b),
        a.showable(),
        b.showable(),
        a.frames < 100,
        b.frames < 100,
    ensures
        a.hours == b.hours,
        a.minutes == b.minutes,
        a.seconds == b.seconds,
        a.frames == b.frames,
        a.rate.drop_frame == b.rate.drop_frame,
{
    lemma_fields(a);
    lemma_fields(b);
}

/// In a clock that shows fewer than a hundred frames a second, each field stands at its place.
proof fn lemma_fields(tc: Timecode)
    requires
        tc.hours < 100,
        tc.minutes < 100,
        tc.seconds < 100,
        tc.frames < 100,
    ensures
        ({
            let s = timecode::timecode_text(tc);
            &&& s.len() == 11
            &&& text::laws::numeral(s.subrange(0, 2)) == tc.hours
            &&& text::laws::numeral(s.subrange(3, 5)) == tc.minutes
            &&& text::laws::numeral(s.subrange(6, 8)) == tc.seconds
            &&& text::laws::numeral(s.subrange(9, 11)) == tc.frames
            &&& s[8] == (if tc.rate.drop_frame {
                ';'
            } else {
                ':'
            })
        }),
{
    text::laws::two_places_read_back(tc.hours as nat);
    text::laws::two_places_read_back(tc.minutes as nat);
    text::laws::two_places_read_back(tc.seconds as nat);
    text::laws::two_places_read_back(tc.frames as nat);
    let s = timecode::timecode_text(tc);
    assert(s.subrange(0, 2) =~= text::zero_padded(tc.hours as nat, 2));
    assert(s.subrange(3, 5) =~= text::zero_padded(tc.minutes as nat, 2));
    assert(s.subrange(6, 8) =~= text::zero_padded(tc.seconds as nat, 2));
    assert(s.subrange(9, 11) =~= text::zero_padded(tc.frames as nat, 2));
}

/// A rate is written in frames a second: a whole one as the number it is, and a drop-frame
/// one to the nearest hundredth of the rate that frames go by.
pub proof fn a_written_rate_is_the_nearest(rate: Rate)
    ensures
        ({
            let s = timecode::rate_text(rate);
            let n = s.len() - 4;
            let figure = s.take(n);
            &&& n > 0
            &&& s.skip(n) == seq![' ', 'f', 'p', 's']
            &&& !rate.drop_frame ==> text::laws::all_digits(figure) && text::laws::numeral(figure)
                == rate.fps
            &&& rate.drop_frame ==> {
                let digits = text::laws::figure(figure, 0, 2);
                &&& n >= 4
                &&& figure[n - 3] == '.'
                &&& text::laws::all_digits(digits)
                &&& 2 * (text::laws::numeral(digits) * 1001) <= 2 * (rate.fps * 100_000) + 1001
                &&& 2 * (rate.fps * 100_000) <= 2 * (text::laws::numeral(digits) * 1001) + 1001
            }
        }),
{
    reveal_strlit(" fps");
    let s = timecode::rate_text(rate);
    let n = s.len() - 4;
    assert(s.skip(n) =~= seq![' ', 'f', 'p', 's']);
    if rate.drop_frame {
        let value = (rate.fps * 1000) as int;
        let f = text::fixed(value, 1001, 2);
        assert(s.take(n) =~= f);
        text::laws::a_figure_is_the_nearest(value, 1001, 2);
        let ten = vstd::arithmetic::power::pow(10, 2);
        assert(ten == 100) by {
            reveal_with_fuel(vstd::arithmetic::power::pow, 3);
        }
        assert(value * ten == rate.fps * 100_000) by (nonlinear_arith)
            requires
                ten == 100,
                value == rate.fps * 1000,
        ;
        assert(f[f.len() - 3] == '.');
    } else {
        assert(s.take(n) =~= text::decimal(rate.fps as nat));
        text::laws::a_decimal_reads_back(rate.fps as nat);
    }
}

} // verus!
