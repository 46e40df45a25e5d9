//! What the recorder's figures mean.

use vstd::prelude::*;

use crate::ble::diagnostics::Diagnosis;
use crate::ble::scan::{self, ScanView};
use crate::freerun::{self, Reading};
use crate::rec;
use crate::rec::{NoStart, Take};
use crate::text;
use crate::time::Instant;
use crate::timecode;
use crate::timecode::Timecode;
use crate::wav;

verus! {

/// A reading is where the device's clock was so long after the start of a take, in
/// nanoseconds, counted on across one midnight.
pub open spec fn reads_after(take: Take, tc: Timecode, nanos: int) -> bool {
    let fps = tc.rate.fps as int;
    let day = 86_400 * fps * 1_000_000_000;
    let there = take.start_position + nanos * fps;
    timecode::position_of(tc) == there || timecode::position_of(tc) == there - day
}

/// The device's span of a take is how long its clock ran from the first sample to the last:
/// where the reading was taken, and on which side of midnight, makes no difference.
pub proof fn the_device_span_is_the_time_between_the_ends(
    take: Take,
    tc: Timecode,
    now: Instant,
    span: int,
)
    requires
        tc.rate.fps > 0,
        take.begun@ + take.recorded_for@ <= now@,
        0 <= span < 86_400_000_000_000,
        reads_after(take, tc, span + (now@ - (take.begun@ + take.recorded_for@))),
    ensures
        rec::device_span(take, tc, now) == span,
{
    let fps = tc.rate.fps as int;
    let late = now@ - (take.begun@ + take.recorded_for@);
    let day = 86_400 * fps * 1_000_000_000;
    assert((span + late) * fps == span * fps + late * fps) by (nonlinear_arith);
    assert(0 <= span * fps < day) by (nonlinear_arith)
        requires
            0 <= span < 86_400_000_000_000,
            day == 86_400 * fps * 1_000_000_000,
            fps > 0,
    ;
    assert(timecode::day_span(tc.rate) == day) by (nonlinear_arith)
        requires
            timecode::day_span(tc.rate) == 86400 * fps * 1_000_000_000,
            day == 86_400 * fps * 1_000_000_000,
    ;
    assert(rec::end_of(take, tc, now) == take.start_position + span * fps);
    vstd::arithmetic::div_mod::lemma_div_multiples_vanish(span, fps);
    assert(span * fps == fps * span) by (nonlinear_arith);
}

/// How far apart two numbers are.
pub open spec fn gap(a: int, b: int) -> int {
    if a < b {
        b - a
    } else {
        a - b
    }
}

/// The parts of a drift figure: what it says in parts per million, with its sign, over how
/// many seconds, and within what margin.
pub open spec fn says_drift(
    line: Seq<char>,
    name: Seq<char>,
    ppm: Seq<char>,
    seconds: Seq<char>,
    margin: Seq<char>,
    nothing: bool,
) -> bool {
    line == "  the input's clock ran "@ + ppm + " ppm against "@ + name + "'s over "@ + seconds
        + " s (±"@ + margin + " ppm)"@ + (if nothing {
        " — which is not distinguishable from no difference at all"@
    } else {
        ""@
    }) + "\n"@
}

/// A run of digits is the whole number nearest to `num / den`.
pub open spec fn is_nearest(digits: Seq<char>, num: int, den: int) -> bool {
    &&& digits.len() > 0
    &&& text::laws::all_digits(digits)
    &&& 2 * (text::laws::numeral(digits) * den) <= 2 * num + den
    &&& 2 * num <= 2 * (text::laws::numeral(digits) * den) + den
}

proof fn lemma_whole_figure(value: int, unit: nat)
    requires
        unit > 0,
        value >= 0,
    ensures
        is_nearest(text::fixed(value, unit, 0), value, unit as int),
{
    text::laws::a_figure_is_the_nearest(value, unit, 0);
    reveal(vstd::arithmetic::power::pow);
    let s = text::fixed(value, unit, 0);
    assert(s.skip(0) =~= s);
    assert(value * vstd::arithmetic::power::pow(10, 0) == value) by (nonlinear_arith)
        requires
            vstd::arithmetic::power::pow(10, 0) == 1,
    ;
}

proof fn lemma_drift_line(name: Seq<char>, audio: int, device: nat)
    requires
        device > 0,
    ensures
        ({
            let line = rec::drift_line(name, audio, device);
            let apart = audio - device;
            let ppm = text::fixed_with_sign(apart * 1_000_000, device, 0);
            &&& says_drift(
                line,
                name,
                ppm,
                text::fixed(device as int, 1_000_000_000, 0),
                text::fixed(2_000_000_000_000, device, 0),
                -2_000_000 <= apart <= 2_000_000,
            )
            &&& ppm.len() > 1
            &&& audio >= device ==> ppm[0] == '+'
            &&& audio < device ==> ppm[0] == '-'
            &&& is_nearest(ppm.skip(1), 1_000_000 * gap(audio, device as int), device as int)
        }),
{
    let apart = audio - device;
    let ppm = text::fixed_with_sign(apart * 1_000_000, device, 0);
    text::laws::a_sign_says_which_way(apart * 1_000_000, device, 0);
    let size = 1_000_000 * gap(audio, device as int);
    lemma_whole_figure(size, device);
    text::laws::a_sign_says_which_way(size, device, 0);
    assert(size == apart * 1_000_000 || size == -(apart * 1_000_000));
    assert(says_drift(
        rec::drift_line(name, audio, device),
        name,
        ppm,
        text::fixed(device as int, 1_000_000_000, 0),
        text::fixed(2_000_000_000_000, device, 0),
        -2_000_000 <= apart <= 2_000_000,
    )) by {
        let line = rec::drift_line(name, audio, device);
        assert(line =~= "  the input's clock ran "@ + ppm + " ppm against "@ + name + "'s over "@
            + text::fixed(device as int, 1_000_000_000, 0) + " s (±"@ + text::fixed(
            2_000_000_000_000,
            device,
            0,
        ) + " ppm)"@ + (if -2_000_000 <= apart <= 2_000_000 {
            " — which is not distinguishable from no difference at all"@
        } else {
            ""@
        }) + "\n"@);
    }
}

/// The drift figure says which way the input's clock ran from the device's and by how much.
/// Where the audio came to less than the device's span of the take, it opens with a minus
/// sign; where it came to more, or to as much, with a plus sign, each to half a nanosecond;
/// and the digits are the nearest whole number of parts per million of that span. The span is
/// said to the nearest second, and the margin is two milliseconds of it. A difference within
/// that margin, and no other, is said to be none. There is no figure over less than a second.
pub proof fn a_drift_figure_says_which_way_and_how_far(
    take: Take,
    tc: Timecode,
    now: Instant,
    span: int,
)
    requires
        tc.rate.fps > 0,
        take.sample_rate > 0,
        take.begun@ + take.recorded_for@ <= now@,
        0 <= span < 86_400_000_000_000,
        reads_after(take, tc, span + (now@ - (take.begun@ + take.recorded_for@))),
    ensures
        ({
            let line = rec::drift_text(take, Some(Reading::Running(tc)), now);
            let rate = take.sample_rate as int;
            let audio = take.frames * 1_000_000_000;
            let device = span * rate;
            &&& span < 1_000_000_000 ==> line.len() == 0
            &&& span >= 1_000_000_000 ==> exists|
                ppm: Seq<char>,
                seconds: Seq<char>,
                margin: Seq<char>,
                nothing: bool,
            | #[trigger]
                says_drift(line, take.name@, ppm, seconds, margin, nothing) && {
                    &&& ppm.len() > 1
                    &&& 2 * audio + rate < 2 * device ==> ppm[0] == '-'
                    &&& audio >= device ==> ppm[0] == '+'
                    &&& ppm[0] == '-' || ppm[0] == '+'
                    &&& text::laws::all_digits(ppm.skip(1))
                    &&& 2 * gap(
                        text::laws::numeral(ppm.skip(1)) * device,
                        1_000_000 * gap(audio, device),
                    ) <= (span + 1_000_000) * rate
                    &&& is_nearest(seconds, span, 1_000_000_000)
                    &&& is_nearest(margin, 2_000_000_000_000, span)
                    &&& 2 * gap(audio, device) + rate <= 4_000_000 * rate ==> nothing
                    &&& 2 * gap(audio, device) > 4_000_000 * rate + rate ==> !nothing
                }
        }),
{
    the_device_span_is_the_time_between_the_ends(take, tc, now, span);
    let rate = take.sample_rate as int;
    let audio = take.frames * 1_000_000_000;
    let device = span * rate;
    let heard = rec::span_nanos(take.frames as nat, take.sample_rate as nat) as int;
    text::laws::the_nearest_is_at_most_half_off(
        (take.frames * 1_000_000_000) as nat,
        take.sample_rate as nat,
    );
    assert(2 * (heard * rate) <= 2 * audio + rate && 2 * audio <= 2 * (heard * rate) + rate);
    if span >= 1_000_000_000 {
        let line = rec::drift_text(take, Some(Reading::Running(tc)), now);
        lemma_drift_line(take.name@, heard, span as nat);
        lemma_whole_figure(span, 1_000_000_000);
        lemma_whole_figure(2_000_000_000_000, span as nat);
        let apart = heard - span;
        let ppm = text::fixed_with_sign(apart * 1_000_000, span as nat, 0);
        let seconds = text::fixed(span, 1_000_000_000, 0);
        let margin = text::fixed(2_000_000_000_000, span as nat, 0);
        let nothing = -2_000_000 <= apart <= 2_000_000;
        assert(says_drift(line, take.name@, ppm, seconds, margin, nothing));
        lemma_apart(heard, span, rate, audio, device, text::laws::numeral(ppm.skip(1)));
    }
}

proof fn lemma_apart(heard: int, span: int, rate: int, audio: int, device: int, figure: int)
    requires
        rate > 0,
        span > 0,
        device == span * rate,
        2 * (heard * rate) <= 2 * audio + rate,
        2 * audio <= 2 * (heard * rate) + rate,
        2 * (figure * span) <= 2 * (1_000_000 * gap(heard, span)) + span,
        2 * (1_000_000 * gap(heard, span)) <= 2 * (figure * span) + span,
    ensures
        2 * audio + rate < 2 * device ==> heard < span,
        audio >= device ==> heard >= span,
        2 * gap(figure * device, 1_000_000 * gap(audio, device)) <= (span + 1_000_000) * rate,
        2 * gap(audio, device) + rate <= 4_000_000 * rate ==> gap(heard, span) <= 2_000_000,
        2 * gap(audio, device) > 4_000_000 * rate + rate ==> gap(heard, span) > 2_000_000,
{
    let g = gap(heard, span);
    assert((heard - span) * rate == heard * rate - device) by (nonlinear_arith)
        requires
            device == span * rate,
    ;
    assert(gap(heard * rate, device) == g * rate) by (nonlinear_arith)
        requires
            (heard - span) * rate == heard * rate - device,
            rate > 0,
            g == (if heard < span {
                span - heard
            } else {
                heard - span
            }),
            gap(heard * rate, device) == (if heard * rate < device {
                device - heard * rate
            } else {
                heard * rate - device
            }),
    ;
    assert(2 * gap(audio, device) <= 2 * (g * rate) + rate);
    assert(2 * (g * rate) <= 2 * gap(audio, device) + rate);
    if heard >= span {
        assert(heard * rate >= device) by (nonlinear_arith)
            requires
                heard >= span,
                rate > 0,
                device == span * rate,
        ;
    } else {
        assert(heard * rate <= device - rate) by (nonlinear_arith)
            requires
                heard <= span - 1,
                rate > 0,
                device == span * rate,
        ;
    }
    assert(figure * device == (figure * span) * rate) by (nonlinear_arith)
        requires
            device == span * rate,
    ;
    assert(2 * ((figure * span) * rate) <= 2_000_000 * (g * rate) + span * rate && 2_000_000 * (g
        * rate) <= 2 * ((figure * span) * rate) + span * rate) by (nonlinear_arith)
        requires
            2 * (figure * span) <= 2 * (1_000_000 * g) + span,
            2 * (1_000_000 * g) <= 2 * (figure * span) + span,
            rate > 0,
    ;
    assert((span + 1_000_000) * rate == span * rate + 1_000_000 * rate) by (nonlinear_arith);
    if g <= 2_000_000 {
        assert(g * rate <= 2_000_000 * rate) by (nonlinear_arith)
            requires
                g <= 2_000_000,
                rate > 0,
        ;
    } else {
        assert(g * rate >= 2_000_000 * rate + rate) by (nonlinear_arith)
            requires
                g >= 2_000_001,
                rate > 0,
        ;
    }
}

/// Swapping which of the two ran longer changes the sign, and nothing else: two takes over the
/// same span whose audio is off by as much in opposite directions have the same figure but for
/// its sign.
pub proof fn the_opposite_drift_has_the_opposite_sign(name: Seq<char>, off: int, device: nat)
    requires
        device > 0,
        off > 0,
    ensures
        ({
            let fast = rec::drift_line(name, device + off, device);
            let slow = rec::drift_line(name, device - off, device);
            let at = "  the input's clock ran "@.len() as int;
            &&& at < fast.len()
            &&& fast[at] == '+'
            &&& slow[at] == '-'
            &&& slow == fast.update(at, '-')
        }),
{
    lemma_drift_line(name, device + off, device);
    lemma_drift_line(name, device - off, device);
    let fast = rec::drift_line(name, device + off, device);
    let slow = rec::drift_line(name, device - off, device);
    let up = text::fixed_with_sign(off * 1_000_000, device, 0);
    let down = text::fixed_with_sign((-off) * 1_000_000, device, 0);
    text::laws::a_sign_says_which_way(off * 1_000_000, device, 0);
    assert(up.skip(1) == down.skip(1));
    assert forall|i: int| 1 <= i < up.len() implies up[i] == down[i] by {
        assert(up.skip(1)[i - 1] == down.skip(1)[i - 1]);
    }
    assert(up.skip(1).len() == down.skip(1).len());
    assert(down =~= up.update(0, '-'));
    let at = "  the input's clock ran "@.len() as int;
    assert(slow =~= fast.update(at, '-'));
}

/// Without a running clock at the end there is no figure, and it is said so.
pub proof fn no_clock_gives_no_figure(take: Take, shown: Option<Reading>, now: Instant)
    requires
        !(shown matches Some(Reading::Running(_))),
    ensures
        rec::drift_text(take, shown, now)
            == "  no timecode at the end of the take, so no drift figure\n"@,
{
}

/// Where a recording starts is where the clock was when its first sample was captured: reached
/// back from what the clock shows now, by as many frames as its rate has in the time between,
/// whole days aside and to half a nanosecond. The start is at the clock's own rate, and its
/// place in samples is that of the timecode it is stamped with.
pub proof fn a_start_is_where_the_clock_was(
    tc: Timecode,
    begun: Instant,
    now: Instant,
    sample_rate: u32,
)
    requires
        tc.rate.fps > 0,
        !tc.rate.drop_frame,
        begun@ <= now@,
        begun.wf(),
        now.wf(),
    ensures
        ({
            let start = rec::starts(true, Some(Reading::Running(tc)), begun, now, sample_rate);
            let fps = tc.rate.fps as int;
            let then = timecode::position_of(tc) - (now@ - begun@) * fps;
            let today = then % (86_400 * fps * 1_000_000_000);
            &&& start is Ok
            &&& start->Ok_0.position == then
            &&& start->Ok_0.timecode.rate == tc.rate
            &&& start->Ok_0.timecode.showable()
            &&& 2 * gap(timecode::position_of(start->Ok_0.timecode) as int, today) <= fps
            &&& Some(start->Ok_0.samples) == wav::sample_position(
                start->Ok_0.timecode,
                sample_rate,
            )
        }),
{
    let fps = tc.rate.fps as int;
    let span = now@ - begun@;
    let then = timecode::position_of(tc) - span * fps;
    timecode::a_position_leaves_room(tc);
    assert(0 <= span * fps <= 255 * crate::time::MAX_NANOS) by (nonlinear_arith)
        requires
            0 <= span <= crate::time::MAX_NANOS,
            0 <= fps <= 255,
    ;
    assert(timecode::day_span(tc.rate) == 86_400 * fps * 1_000_000_000) by (nonlinear_arith)
        requires
            timecode::day_span(tc.rate) == 86400 * fps * 1_000_000_000,
    ;
    timecode::a_reading_keeps_its_position(then, tc.rate);
    timecode::a_position_falls_inside_a_frame(then, tc.rate);
}

/// A recording does not start against anything but a running clock.
pub proof fn nothing_starts_against_a_guess(
    listed: bool,
    shown: Option<Reading>,
    begun: Instant,
    now: Instant,
    sample_rate: u32,
)
    ensures
        rec::starts(listed, shown, begun, now, sample_rate) is Ok ==> listed && (
        shown matches Some(Reading::Running(tc)) && !tc.rate.drop_frame),
        shown matches Some(Reading::Lost { last, since }) ==> listed ==> rec::starts(
            listed,
            shown,
            begun,
            now,
            sample_rate,
        ) == Err::<rec::Start, NoStart>(NoStart::Lost { last, since }),
        listed && shown is None ==> rec::starts(listed, shown, begun, now, sample_rate) == Err::<
            rec::Start,
            NoStart,
        >(NoStart::NoClock),
        !listed ==> rec::starts(listed, shown, begun, now, sample_rate) == Err::<
            rec::Start,
            NoStart,
        >(NoStart::Gone),
{
}

/// How long so many frames last is the nearest number of nanoseconds to it.
pub proof fn frames_last_as_long_as_the_rate_says(frames: nat, sample_rate: nat)
    requires
        sample_rate > 0,
    ensures
        2 * (rec::span_nanos(frames, sample_rate) * sample_rate) <= 2 * (frames * 1_000_000_000)
            + sample_rate,
        2 * (frames * 1_000_000_000) <= 2 * (rec::span_nanos(frames, sample_rate) * sample_rate)
            + sample_rate,
        frames % sample_rate == 0 ==> rec::span_nanos(frames, sample_rate) == (frames / sample_rate)
            * 1_000_000_000,
{
    let n = frames * 1_000_000_000;
    text::laws::the_nearest_is_at_most_half_off(n, sample_rate);
    if frames % sample_rate == 0 {
        let q = frames / sample_rate;
        vstd::arithmetic::div_mod::lemma_fundamental_div_mod(frames as int, sample_rate as int);
        let r = rec::span_nanos(frames, sample_rate);
        assert(r == q * 1_000_000_000) by (nonlinear_arith)
            requires
                frames == sample_rate * q,
                n == frames * 1_000_000_000,
                2 * (r * sample_rate) <= 2 * n + sample_rate,
                2 * n <= 2 * (r * sample_rate) + sample_rate,
                sample_rate > 0,
        ;
    }
}

/// A text is an elapsed time with these parts.
pub open spec fn says_elapsed(
    line: Seq<char>,
    hours: Seq<char>,
    minutes: Seq<char>,
    seconds: Seq<char>,
) -> bool {
    line == hours + ":"@ + minutes + ":"@ + seconds
}

/// The elapsed time is written as whole hours, whole minutes of the hour, and the seconds of
/// the minute to the nearest tenth, in two digits each in front of any point.
pub proof fn an_elapsed_time_reads_back(nanos: nat)
    ensures
        exists|h: Seq<char>, m: Seq<char>, s: Seq<char>| #[trigger]
            says_elapsed(rec::clock_text(nanos), h, m, s) && {
                let hours = text::laws::numeral(h);
                let minutes = text::laws::numeral(m);
                let rest = nanos - (hours * 60 + minutes) * 60_000_000_000;
                &&& text::laws::two_digits(h, hours)
                &&& text::laws::two_digits(m, minutes)
                &&& 0 <= minutes < 60
                &&& 0 <= rest < 60_000_000_000
                &&& s.len() == 4
                &&& text::laws::is_figure(s, rest, 1_000_000_000, 1, 10)
            },
{
    let whole = nanos / 1_000_000_000;
    let h = text::zero_padded(whole / 3600, 2);
    let m = text::zero_padded(whole / 60 % 60, 2);
    let rest = nanos - whole / 60 * 60 * 1_000_000_000;
    let plain = text::fixed(rest, 1_000_000_000, 1);
    let s = text::pad_start(plain, 4, '0');
    text::laws::two_places_read_back(whole / 3600);
    text::laws::two_places_read_back(whole / 60 % 60);
    text::laws::lemma_is_figure(rest, 1_000_000_000, 1);
    if plain.len() < 4 {
        text::laws::lemma_padded_figure(
            plain,
            (4 - plain.len()) as nat,
            rest,
            1_000_000_000,
            1,
            10,
        );
    }
    lemma_short_seconds(rest);
    assert(rec::clock_text(nanos) =~= h + ":"@ + m + ":"@ + s);
    assert(says_elapsed(rec::clock_text(nanos), h, m, s));
    assert((whole / 3600 * 60 + whole / 60 % 60) * 60_000_000_000 == whole / 60 * 60
        * 1_000_000_000);
}

proof fn lemma_short_seconds(rest: int)
    requires
        0 <= rest < 60_000_000_000,
    ensures
        text::fixed(rest, 1_000_000_000, 1).len() <= 4,
{
    let count = text::nearest_even((rest * text::ten_to(1)) as nat, 1_000_000_000);
    reveal_with_fuel(text::ten_to, 2);
    assert(rest * text::ten_to(1) == 10 * rest) by (nonlinear_arith)
        requires
            text::ten_to(1) == 10,
    ;
    assert(count <= 600);
    text::laws::two_places_read_back(count / 10);
    assert(text::decimal(count / 10).len() <= 2);
    assert(text::decimal(count % 10).len() == 1);
    assert(text::zero_padded(count % 10, 1).len() == 1);
    assert(text::point_shifted(count, 1).len() <= 4);
}

/// A text is a file name with these parts.
pub open spec fn says_path(
    line: Seq<char>,
    name: Seq<char>,
    date: Seq<char>,
    hours: Seq<char>,
    minutes: Seq<char>,
    seconds: Seq<char>,
    frames: Seq<char>,
) -> bool {
    line == name + "_"@ + date + "_"@ + hours + "-"@ + minutes + "-"@ + seconds + "-"@ + frames
        + ".wav"@
}

/// The default file name has the start in it, field by field, behind the name and the date.
pub proof fn a_file_name_says_when_it_starts(
    name: Seq<char>,
    date: Option<Seq<char>>,
    start: Timecode,
)
    ensures
        exists|day: Seq<char>, h: Seq<char>, m: Seq<char>, s: Seq<char>, f: Seq<char>| #[trigger]
            says_path(rec::path_text(name, date, start), rec::slug_text(name), day, h, m, s, f) && {
                &&& date is None ==> day == "undated"@
                &&& date matches Some(given) ==> day == given
                &&& text::laws::two_digits(h, start.hours as int)
                &&& text::laws::two_digits(m, start.minutes as int)
                &&& text::laws::two_digits(s, start.seconds as int)
                &&& text::laws::two_digits(f, start.frames as int)
            },
{
    text::laws::two_places_read_back(start.hours as nat);
    text::laws::two_places_read_back(start.minutes as nat);
    text::laws::two_places_read_back(start.seconds as nat);
    text::laws::two_places_read_back(start.frames as nat);
    let h = text::zero_padded(start.hours as nat, 2);
    let m = text::zero_padded(start.minutes as nat, 2);
    let s = text::zero_padded(start.seconds as nat, 2);
    let f = text::zero_padded(start.frames as nat, 2);
    let day = match date {
        Some(date) => date,
        None => "undated"@,
    };
    let line = rec::path_text(name, date, start);
    assert(line =~= rec::slug_text(name) + "_"@ + day + "_"@ + h + "-"@ + m + "-"@ + s + "-"@ + f
        + ".wav"@);
    assert(says_path(line, rec::slug_text(name), day, h, m, s, f));
}

/// A name of lower-case letters and digits is its own slug, and capitals make no difference.
pub proof fn a_plain_name_is_its_own_slug(name: Seq<char>)
    requires
        name.len() > 0,
        forall|i: int|
            0 <= i < name.len() ==> 'a' as int <= #[trigger] name[i] as int <= 'z' as int || '0' as int
                <= name[i] as int <= '9' as int,
    ensures
        rec::slug_text(name) == name,
        rec::slug_text(
            Seq::new(
                name.len(),
                |i: int|
                    if 'a' as int <= name[i] as int <= 'z' as int {
                        (name[i] as int - 32) as char
                    } else {
                        name[i]
                    },
            ),
        ) == name,
{
    let shouted = Seq::new(
        name.len(),
        |i: int|
            if 'a' as int <= name[i] as int <= 'z' as int {
                (name[i] as int - 32) as char
            } else {
                name[i]
            },
    );
    assert forall|i: int| 0 <= i < name.len() implies rec::slug_char(#[trigger] shouted[i])
        == name[i] && rec::slug_char(name[i]) == name[i] && name[i] != '-' by {
        assert('a' as int <= name[i] as int <= 'z' as int || '0' as int <= name[i] as int
            <= '9' as int);
    }
    lemma_squeezed(name, name);
    lemma_squeezed(shouted, name);
}

proof fn lemma_squeezed(given: Seq<char>, kept: Seq<char>)
    requires
        given.len() == kept.len(),
        forall|i: int|
            0 <= i < given.len() ==> rec::slug_char(#[trigger] given[i]) == kept[i] && kept[i] != '-',
    ensures
        rec::squeezed(given) == kept,
    decreases given.len(),
{
    if given.len() > 0 {
        let front = given.drop_last();
        assert forall|i: int| 0 <= i < front.len() implies rec::slug_char(#[trigger] front[i])
            == kept.drop_last()[i] && kept.drop_last()[i] != '-' by {
            assert(front[i] == given[i]);
        }
        lemma_squeezed(front, kept.drop_last());
        assert(given[given.len() - 1] == given.last());
        assert(kept.drop_last().push(kept.last()) =~= kept);
    } else {
        assert(kept =~= Seq::empty());
    }
}

/// What is said of a finished file has every number of it behind the words that belong to it,
/// and says how many samples were clipped if and only if some were.
#[verifier::rlimit(40)]
pub proof fn what_was_written_reads_back(
    path: Seq<char>,
    frames: nat,
    spec: wav::Spec,
    start: rec::Start,
    date: Option<Seq<char>>,
    clipped: nat,
)
    ensures
        ({
            let line = rec::wrote_text(path, frames, spec, start, date, clipped);
            let day = match date {
                Some(date) => date,
                None => "no date received"@,
            };
            &&& text::laws::has_text(line, "wrote "@, path, " — "@)
            &&& text::laws::has_text(line, " — "@, text::fixed(frames as int, spec.sample_rate as nat, 3), " s, "@)
            &&& text::laws::has_number(line, " s, "@, (frames) as int, " frames at "@)
            &&& text::laws::has_number(line, " frames at "@, (spec.sample_rate as nat) as int, " Hz, "@)
            &&& text::laws::has_number(line, " Hz, "@, (spec.channels as nat) as int, " ch, 24-bit\n  first sample at "@)
            &&& text::laws::has_text(line, " ch, 24-bit\n  first sample at "@, timecode::timecode_text(start.timecode), " "@)
            &&& text::laws::has_text(line, " "@, timecode::rate_text(start.timecode.rate), ", "@)
            &&& text::laws::has_number(line, ", "@, (start.samples as nat) as int, " samples since midnight, "@)
            &&& text::laws::has_text(line, " samples since midnight, "@, day, "\n"@)
            &&& spec.sample_rate > 0 ==> text::laws::is_figure(
                text::fixed(frames as int, spec.sample_rate as nat, 3),
                frames as int,
                spec.sample_rate as int,
                3,
                1_000,
            )
        }),
        rec::wrote_text(path, frames, spec, start, date, clipped) == rec::wrote_text(
            path,
            frames,
            spec,
            start,
            date,
            0,
        ) + (if clipped > 0 {
            "  "@ + text::decimal(clipped) + " samples clipped\n"@
        } else {
            Seq::<char>::empty()
        }),
{
    let line = rec::wrote_text(path, frames, spec, start, date, clipped);
    let day = match date {
        Some(date) => date,
        None => "no date received"@,
    };
    let clip = if clipped > 0 {
        Seq::<char>::empty() + "  "@ + text::decimal(clipped) + " samples clipped\n"@
    } else {
        Seq::empty()
    };
    let p0 = Seq::<Seq<char>>::empty();
    let p1 = p0.push("wrote "@);
    text::laws::lemma_joined(p0, "wrote "@);
    let p2 = p1.push(path);
    text::laws::lemma_joined(p1, path);
    let p3 = p2.push(" — "@);
    text::laws::lemma_joined(p2, " — "@);
    let p4 = p3.push(text::fixed(frames as int, spec.sample_rate as nat, 3));
    text::laws::lemma_joined(p3, text::fixed(frames as int, spec.sample_rate as nat, 3));
    let p5 = p4.push(" s, "@);
    text::laws::lemma_joined(p4, " s, "@);
    let p6 = p5.push(text::decimal(frames));
    text::laws::lemma_joined(p5, text::decimal(frames));
    let p7 = p6.push(" frames at "@);
    text::laws::lemma_joined(p6, " frames at "@);
    let p8 = p7.push(text::decimal(spec.sample_rate as nat));
    text::laws::lemma_joined(p7, text::decimal(spec.sample_rate as nat));
    let p9 = p8.push(" Hz, "@);
    text::laws::lemma_joined(p8, " Hz, "@);
    let p10 = p9.push(text::decimal(spec.channels as nat));
    text::laws::lemma_joined(p9, text::decimal(spec.channels as nat));
    let p11 = p10.push(" ch, 24-bit\n  first sample at "@);
    text::laws::lemma_joined(p10, " ch, 24-bit\n  first sample at "@);
    let p12 = p11.push(timecode::timecode_text(start.timecode));
    text::laws::lemma_joined(p11, timecode::timecode_text(start.timecode));
    let p13 = p12.push(" "@);
    text::laws::lemma_joined(p12, " "@);
    let p14 = p13.push(timecode::rate_text(start.timecode.rate));
    text::laws::lemma_joined(p13, timecode::rate_text(start.timecode.rate));
    let p15 = p14.push(", "@);
    text::laws::lemma_joined(p14, ", "@);
    let p16 = p15.push(text::decimal(start.samples as nat));
    text::laws::lemma_joined(p15, text::decimal(start.samples as nat));
    let p17 = p16.push(" samples since midnight, "@);
    text::laws::lemma_joined(p16, " samples since midnight, "@);
    let p18 = p17.push(day);
    text::laws::lemma_joined(p17, day);
    let p19 = p18.push("\n"@);
    text::laws::lemma_joined(p18, "\n"@);
    let p20 = p19.push(clip);
    text::laws::lemma_joined(p19, clip);
    assert(text::laws::joined(p20) == line);
    text::laws::lemma_part(p20, 1);
    text::laws::lemma_part(p20, 3);
    text::laws::lemma_number_part(p20, 5, frames);
    text::laws::lemma_number_part(p20, 7, spec.sample_rate as nat);
    text::laws::lemma_number_part(p20, 9, spec.channels as nat);
    text::laws::lemma_part(p20, 11);
    text::laws::lemma_part(p20, 13);
    text::laws::lemma_number_part(p20, 15, start.samples as nat);
    text::laws::lemma_part(p20, 17);
    if spec.sample_rate > 0 {
        text::laws::lemma_is_figure(frames as int, spec.sample_rate as nat, 3);
    }
    let bare = rec::wrote_text(path, frames, spec, start, date, 0);
    assert(bare =~= text::laws::joined(p19));
    assert(clip =~= (if clipped > 0 {
        "  "@ + text::decimal(clipped) + " samples clipped\n"@
    } else {
        Seq::<char>::empty()
    }));
}

proof fn lemma_separators(before: Seq<char>, apart: Seq<char>)
    requires
        before.len() > 0,
        apart.len() > 0,
        rec::squeezed(before).len() > 0,
        rec::squeezed(before).last() != '-',
        forall|i: int| 0 <= i < apart.len() ==> rec::slug_char(#[trigger] apart[i]) == '-',
    ensures
        rec::squeezed(before + apart) == rec::squeezed(before).push('-'),
    decreases apart.len(),
{
    let all = before + apart;
    let front = apart.drop_last();
    assert(all.drop_last() =~= before + front);
    assert(all.last() == apart[apart.len() - 1]);
    if front.len() > 0 {
        assert forall|i: int| 0 <= i < front.len() implies rec::slug_char(#[trigger] front[i])
            == '-' by {
            assert(front[i] == apart[i]);
        }
        lemma_separators(before, front);
    } else {
        assert(before + front =~= before);
    }
}

proof fn lemma_more(before: Seq<char>, plain: Seq<char>)
    requires
        forall|i: int|
            0 <= i < plain.len() ==> rec::slug_char(#[trigger] plain[i]) == plain[i] && plain[i]
                != '-',
    ensures
        rec::squeezed(before + plain) == rec::squeezed(before) + plain,
    decreases plain.len(),
{
    let all = before + plain;
    if plain.len() > 0 {
        let front = plain.drop_last();
        assert(all.drop_last() =~= before + front);
        assert forall|i: int| 0 <= i < front.len() implies rec::slug_char(#[trigger] front[i])
            == front[i] && front[i] != '-' by {
            assert(front[i] == plain[i]);
        }
        lemma_more(before, front);
        assert(all.last() == plain[plain.len() - 1]);
        assert((rec::squeezed(before) + front).push(plain.last()) =~= rec::squeezed(before)
            + plain);
    } else {
        assert(all =~= before);
        assert(rec::squeezed(before) + plain =~= rec::squeezed(before));
    }
}

/// A run of lower-case letters and digits.
pub open spec fn is_plain(s: Seq<char>) -> bool {
    s.len() > 0 && forall|i: int|
        0 <= i < s.len() ==> 'a' as int <= #[trigger] s[i] as int <= 'z' as int || '0' as int
            <= s[i] as int <= '9' as int
}

/// A run of anything but letters and digits.
pub open spec fn is_apart(s: Seq<char>) -> bool {
    s.len() > 0 && forall|i: int|
        0 <= i < s.len() ==> !('a' as int <= #[trigger] s[i] as int <= 'z' as int) && !('A' as int
            <= s[i] as int <= 'Z' as int) && !('0' as int <= s[i] as int <= '9' as int)
}

/// Whatever stands between two words of a name becomes one hyphen, and what stands behind the
/// last one nothing; a name without a letter or a digit becomes a name of its own.
pub proof fn words_are_kept_apart_by_a_hyphen(a: Seq<char>, apart: Seq<char>, b: Seq<char>)
    requires
        is_plain(a),
        is_plain(b),
        is_apart(apart),
    ensures
        rec::slug_text(a + apart + b) == a + seq!['-'] + b,
        rec::slug_text(a + apart) == a,
        rec::slug_text(apart + a) == a,
        rec::slug_text(apart) == "tentacle"@,
{
    assert forall|i: int| 0 <= i < a.len() implies rec::slug_char(#[trigger] a[i]) == a[i] && a[i]
        != '-' by {
        assert('a' as int <= a[i] as int <= 'z' as int || '0' as int <= a[i] as int <= '9' as int);
    }
    assert forall|i: int| 0 <= i < b.len() implies rec::slug_char(#[trigger] b[i]) == b[i] && b[i]
        != '-' by {
        assert('a' as int <= b[i] as int <= 'z' as int || '0' as int <= b[i] as int <= '9' as int);
    }
    assert forall|i: int| 0 <= i < apart.len() implies rec::slug_char(#[trigger] apart[i])
        == '-' by {
        assert(!('a' as int <= apart[i] as int <= 'z' as int));
    }
    lemma_squeezed(a, a);
    assert(a.last() == a[a.len() - 1]);
    assert(b.last() == b[b.len() - 1]);
    lemma_separators(a, apart);
    lemma_more(a + apart, b);
    assert(rec::squeezed(a + apart + b) =~= a + seq!['-'] + b);
    assert(a.push('-').drop_last() =~= a);
    lemma_nothing(apart);
    lemma_more(apart, a);
    assert(rec::squeezed(apart) + a =~= a);
    assert((a + seq!['-'] + b).last() == b.last());
}

proof fn lemma_nothing(apart: Seq<char>)
    requires
        forall|i: int| 0 <= i < apart.len() ==> rec::slug_char(#[trigger] apart[i]) == '-',
    ensures
        rec::squeezed(apart) == Seq::<char>::empty(),
    decreases apart.len(),
{
    if apart.len() > 0 {
        let front = apart.drop_last();
        assert forall|i: int| 0 <= i < front.len() implies rec::slug_char(#[trigger] front[i])
            == '-' by {
            assert(front[i] == apart[i]);
        }
        lemma_nothing(front);
        assert(apart.last() == apart[apart.len() - 1]);
    }
}

/// A lost signal is noted with how long ago it went, to the nearest second, beside the last
/// timecode that came; and a clock that runs is shown as it runs, with nothing noted.
pub proof fn a_lost_signal_is_noted(last: Timecode, since: crate::time::Duration, tc: Timecode)
    ensures
        exists|figure: Seq<char>|
            rec::shown_text(Some(Reading::Lost { last, since })).1 == "   no timecode for "@
                + #[trigger] (figure + "s"@) && text::laws::is_figure(
                figure,
                since@ as int,
                1_000_000_000,
                0,
                1,
            ),
        rec::shown_text(Some(Reading::Lost { last, since })).0 == timecode::timecode_text(last)
            + "   "@ + timecode::rate_text(last.rate),
        rec::shown_text(Some(Reading::Running(tc))).0 == timecode::timecode_text(tc) + "   "@
            + timecode::rate_text(tc.rate),
        rec::shown_text(Some(Reading::Running(tc))).1.len() == 0,
{
    text::laws::lemma_is_figure(since@ as int, 1_000_000_000, 0);
    let figure = text::fixed(since@ as int, 1_000_000_000, 0);
    assert(rec::shown_text(Some(Reading::Lost { last, since })).1 =~= "   no timecode for "@ + (
    figure + "s"@));
    assert(rec::with_rate(last) =~= timecode::timecode_text(last) + "   "@ + timecode::rate_text(
        last.rate,
    ));
    assert(rec::with_rate(tc) =~= timecode::timecode_text(tc) + "   "@ + timecode::rate_text(
        tc.rate,
    ));
}

/// Of the payloads that were counted, those that did not decode come first: so many of so
/// many.
pub proof fn so_many_of_so_many_did_not_decode(
    name: String,
    payload: Vec<u8>,
    advertisers: usize,
    payloads: u64,
    unparsed: u64,
    filter: Option<Seq<char>>,
)
    ensures
        ({
            let d = Diagnosis::Unreadable { name, payload, advertisers, payloads, unparsed };
            let said = rec::why_text(d, filter);
            &&& text::laws::has_number(said, ", but "@, unparsed as int, " of "@)
            &&& text::laws::has_number(
                said,
                " of "@,
                payloads as int,
                " payloads did not decode"@,
            )
        }),
{
    let d = Diagnosis::Unreadable { name, payload, advertisers, payloads, unparsed };
    let said = rec::why_text(d, filter);
    text::laws::a_decimal_reads_back(unparsed as nat);
    text::laws::a_decimal_reads_back(payloads as nat);
    let few = text::decimal(unparsed as nat);
    let many = text::decimal(payloads as nat);
    let front = name@ + " is advertising "@ + crate::error::service_text();
    let end = " (shokushu-ble shows what the scan is taking in)"@;
    assert(said =~= front + ", but "@ + few + " of "@ + (many + " payloads did not decode"@ + end));
    assert(said =~= (front + ", but "@ + few) + " of "@ + many + " payloads did not decode"@ + end);
}

/// The line that is redrawn while recording shows the elapsed time, the timecode, the name and
/// the level, each in its own place, and a note behind them.
#[verifier::rlimit(30)]
pub proof fn the_recording_line_reads_back(
    shown: Option<Reading>,
    name: Seq<char>,
    elapsed: nat,
    level: Option<i64>,
)
    ensures
        ({
            let line = rec::drawn_text(shown, name, elapsed, level);
            &&& text::laws::has_text(line, "\r● "@, rec::clock_text(elapsed), "   "@)
            &&& text::laws::has_text(line, "   "@, rec::shown_text(shown).0, "   "@)
            &&& text::laws::has_text(line, "   "@, name, "   "@)
            &&& text::laws::has_text(line, "   "@, rec::level_text(level), " dBFS"@)
            &&& text::laws::has_text(line, " dBFS"@, rec::shown_text(shown).1, "\x1b[K"@)
        }),
{
    let line = rec::drawn_text(shown, name, elapsed, level);
    let p0 = Seq::<Seq<char>>::empty();
    let p1 = p0.push("\r● "@);
    text::laws::lemma_joined(p0, "\r● "@);
    let p2 = p1.push(rec::clock_text(elapsed));
    text::laws::lemma_joined(p1, rec::clock_text(elapsed));
    let p3 = p2.push("   "@);
    text::laws::lemma_joined(p2, "   "@);
    let p4 = p3.push(rec::shown_text(shown).0);
    text::laws::lemma_joined(p3, rec::shown_text(shown).0);
    let p5 = p4.push("   "@);
    text::laws::lemma_joined(p4, "   "@);
    let p6 = p5.push(name);
    text::laws::lemma_joined(p5, name);
    let p7 = p6.push("   "@);
    text::laws::lemma_joined(p6, "   "@);
    let p8 = p7.push(rec::level_text(level));
    text::laws::lemma_joined(p7, rec::level_text(level));
    let p9 = p8.push(" dBFS"@);
    text::laws::lemma_joined(p8, " dBFS"@);
    let p10 = p9.push(rec::shown_text(shown).1);
    text::laws::lemma_joined(p9, rec::shown_text(shown).1);
    let p11 = p10.push("\x1b[K"@);
    text::laws::lemma_joined(p10, "\x1b[K"@);
    assert(text::laws::joined(p11) == line);
    text::laws::lemma_part(p11, 1);
    text::laws::lemma_part(p11, 3);
    text::laws::lemma_part(p11, 5);
    text::laws::lemma_part(p11, 7);
    text::laws::lemma_part(p11, 9);
}

/// A level is written in decibels to the nearest tenth, and silence as what it is.
pub proof fn a_level_is_the_nearest(level: i64)
    ensures
        exists|figure: Seq<char>|
            rec::level_text(Some(level)) == #[trigger] text::pad_start(figure, 6, ' ')
                && text::laws::is_plain_figure(figure, level as int, 1_000_000, 1, 10),
        rec::level_text(None) == "  -inf"@,
{
    text::laws::lemma_is_plain_figure(level as int, 1_000_000, 1);
    let figure = text::fixed(level as int, 1_000_000, 1);
    assert(rec::level_text(Some(level)) == text::pad_start(figure, 6, ' '));
    reveal_strlit("-inf");
    reveal_strlit("  -inf");
    assert(rec::level_text(None) =~= "  -inf"@);
}

/// The clock that is read is that of the device that was locked onto, whatever else is in the
/// scan; and a device that is not there shows none.
pub proof fn the_clock_is_that_of_the_device(s: ScanView, id: Seq<char>, now: Instant, i: int)
    requires
        0 <= i < s.devices.len(),
        s.devices[i].id == id,
        scan::laws::listed_once(s.devices),
    ensures
        rec::clock_of(s, id, now) == freerun::shown(s.devices[i].clock, now),
        rec::after_reading(s, id, now).devices[i].clock == freerun::after_sample(
            s.devices[i].clock,
            now,
        ),
        forall|k: int|
            0 <= k < s.devices.len() && k != i ==> #[trigger] rec::after_reading(
                s,
                id,
                now,
            ).devices[k] == s.devices[k],
{
    scan::laws::a_slot_is_a_place(s.devices, id);
    let slot = scan::slot_of(s.devices, id)->0;
    if slot != i {
        if slot < i {
            assert(s.devices[slot].id != s.devices[i].id);
        } else {
            assert(s.devices[i].id != s.devices[slot].id);
        }
    }
}

/// Who waited in vain is told for how long, and a lock is told with its clock and its rate.
pub proof fn what_is_said_of_a_lock_reads_back(
    wait: nat,
    why: Seq<char>,
    name: Seq<char>,
    tc: Timecode,
)
    ensures
        text::laws::has_number(
            rec::too_late_text(wait, why),
            "no timecode after "@,
            wait as int,
            "s — "@,
        ),
        rec::locked_text(name, Some(tc)) matches Ok(said) && said == "locked onto "@ + name
            + " at "@ + timecode::timecode_text(tc) + " "@ + timecode::rate_text(tc.rate),
        rec::locked_text(name, None) is Err,
{
    text::laws::a_decimal_reads_back(wait);
    let none = Seq::<char>::empty();
    assert(rec::too_late_text(wait, why) =~= none + "no timecode after "@ + text::decimal(wait)
        + "s — "@ + why);
    assert(rec::locked_text(name, Some(tc))->Ok_0 =~= "locked onto "@ + name + " at "@
        + timecode::timecode_text(tc) + " "@ + timecode::rate_text(tc.rate));
}

/// A buffer was captured before it came: as long before as the driver says, or else by the time
/// that its frames last, to half a nanosecond. Only where that would be before the host's clock
/// began is it taken for now.
pub proof fn a_buffer_was_captured_before_it_came(
    now: Instant,
    latency: Option<crate::time::Duration>,
    frames: u64,
    sample_rate: u32,
)
    requires
        sample_rate > 0,
    ensures
        ({
            let at = rec::captured(now, latency, frames, sample_rate);
            &&& 0 <= at <= now@
            &&& latency matches Some(late) ==> late@ <= now@ ==> at + late@ == now@
            &&& latency matches Some(late) ==> late@ > now@ ==> at == now@
            &&& latency is None && (frames + 1) * 1_000_000_000 <= now@ * sample_rate ==> 2 * gap(
                (now@ - at) * sample_rate,
                frames * 1_000_000_000,
            ) <= sample_rate
        }),
{
    if latency is None {
        frames_last_as_long_as_the_rate_says(frames as nat, sample_rate as nat);
        let late = rec::span_nanos(frames as nat, sample_rate as nat) as int;
        let rate = sample_rate as int;
        let n = now@ as int;
        if (frames + 1) * 1_000_000_000 <= n * rate {
            assert(late <= n) by (nonlinear_arith)
                requires
                    2 * (late * rate) <= 2 * (frames * 1_000_000_000) + rate,
                    (frames + 1) * 1_000_000_000 <= n * rate,
                    0 < rate <= 0xffff_ffff,
            {
                if late > n {
                    assert(late * rate >= (n + 1) * rate);
                }
            }
            assert((n - (n - late)) * rate == late * rate);
        }
    }
}

/// What is left and what has gone make the whole, until there is nothing left.
pub proof fn what_is_left_and_what_has_gone_make_the_whole(
    seconds: u64,
    begun: Instant,
    now: Instant,
)
    ensures
        ({
            let left = rec::left_of(seconds, begun, now);
            let whole = 1_000_000_000 * seconds;
            &&& 0 <= left <= whole
            &&& now@ <= begun@ ==> left == whole
            &&& begun@ <= now@ <= begun@ + whole ==> left + (now@ - begun@) == whole
            &&& now@ >= begun@ + whole ==> left == 0
        }),
{
}

} // verus!
