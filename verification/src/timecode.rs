//! Timecode, in the one form both sources decode into.
//!
//! The two ways to read a Tentacle disagree about what they can tell you, and the
//! disagreement is not symmetric. Bluetooth carries the frame rate but no
//! drop-frame flag, so a [`Rate`] built from an advertisement always has
//! `drop_frame: false`, and that means *unknown*. LTC carries the drop-frame flag
//! but no rate at all: that is measured, and snapped to the nearest rate anyone
//! runs.
//!
//! A place on the timeline is a count of nano-frames since midnight. Every reading
//! has an exact one: a frame is 10^9 of them, and a nanosecond into a frame is
//! `fps` of them.

pub mod laws;

use vstd::prelude::*;

use crate::text;
use crate::text::round_half_even;
use crate::time::Duration;

verus! {

/// Nano-frames in a frame.
pub const NANO: u128 = 1_000_000_000;

/// A ratio of two integers.
#[derive(Clone, Copy, Debug, PartialEq, Eq, Hash, Structural)]
pub struct Ratio {
    pub num: u32,
    pub den: u32,
}

/// A frame rate, and whether the numbering drops frames.
///
/// `fps` is the whole rate the numbering counts to: 30, not 29.97. The fractional
/// rates are `drop_frame` variants of the whole ones, which is what
/// [`Rate::exact_fps`] is for.
#[derive(Clone, Copy, Debug, PartialEq, Eq, Hash, Structural)]
pub struct Rate {
    pub fps: u8,
    pub drop_frame: bool,
}

/// The rate frames go by, as `num / den` frames a second.
pub open spec fn exact_rate(rate: Rate) -> Ratio {
    if rate.drop_frame {
        Ratio { num: (rate.fps * 1000) as u32, den: 1001 }
    } else {
        Ratio { num: rate.fps as u32, den: 1 }
    }
}

/// The rate the arithmetic counts by: the whole one, and one where that is zero.
pub open spec fn counting_fps(rate: Rate) -> nat {
    if rate.fps == 0 {
        1
    } else {
        rate.fps as nat
    }
}

/// Frames in a day of 24 hours.
pub open spec fn day_frames(rate: Rate) -> nat {
    86400 * counting_fps(rate)
}

/// Nano-frames in a day of 24 hours.
pub open spec fn day_span(rate: Rate) -> nat {
    day_frames(rate) * 1_000_000_000
}

/// A rate as it is written: two digits behind the point for a drop-frame rate, whose
/// exact rate is never a round number.
pub open spec fn rate_text(rate: Rate) -> Seq<char> {
    if rate.drop_frame {
        text::fixed((rate.fps * 1000) as int, 1001, 2) + " fps"@
    } else {
        text::decimal(rate.fps as nat) + " fps"@
    }
}

impl Rate {
    /// A whole-number rate, and no dropped frame numbers.
    pub fn whole(fps: u8) -> (rate: Rate)
        ensures
            rate == (Rate { fps, drop_frame: false }),
    {
        Rate { fps, drop_frame: false }
    }

    pub fn new(fps: u8, drop_frame: bool) -> (rate: Rate)
        ensures
            rate == (Rate { fps, drop_frame }),
    {
        Rate { fps, drop_frame }
    }

    /// The rate frames actually go by, as opposed to the rate they are numbered at:
    /// 30000/1001 for 30 drop-frame, and the nominal rate otherwise.
    pub fn exact_fps(&self) -> (fps: Ratio)
        ensures
            fps == exact_rate(*self),
    {
        if self.drop_frame {
            Ratio { num: self.fps as u32 * 1000, den: 1001 }
        } else {
            Ratio { num: self.fps as u32, den: 1 }
        }
    }

    /// The rate the arithmetic counts by, which is never zero.
    pub fn counting(&self) -> (fps: u8)
        ensures
            fps == counting_fps(*self),
            fps >= 1,
    {
        if self.fps == 0 {
            1
        } else {
            self.fps
        }
    }

    /// How many frames a 24-hour day holds at this rate, which is where timecode
    /// wraps round to zero. A zero rate is floored at one.
    pub fn frames_per_day(&self) -> (frames: u64)
        ensures
            frames == day_frames(*self),
            86_400 <= frames <= 86_400 * 255,
    {
        86_400 * self.counting() as u64
    }

    /// The rate in words.
    pub fn to_string(&self) -> (out: String)
        ensures
            out@ == rate_text(*self),
    {
        let mut out = String::new();
        if self.drop_frame {
            text::put_fixed(&mut out, self.fps as i128 * 1000, 1001, 2);
        } else {
            text::put_decimal(&mut out, self.fps as u128);
        }
        out.push_str(" fps");
        assert(out@ =~= rate_text(*self));
        out
    }
}

/// A timecode reading, from either source.
///
/// The named fields are the frame this reading falls in; `subframe` is how far into
/// that frame it was taken. It is zero from LTC, which is frame-aligned by
/// construction. From Bluetooth it is the advertisement's sub-frame field, which
/// has a fixed bias of a few milliseconds in it and so can exceed one frame.
#[derive(Clone, Copy, Debug, PartialEq, Eq, Hash, Structural)]
pub struct Timecode {
    pub hours: u8,
    pub minutes: u8,
    pub seconds: u8,
    pub frames: u8,
    pub rate: Rate,
    pub subframe: Duration,
}

/// How far into its frame a reading was taken, in nano-frames.
pub open spec fn subframe_span(tc: Timecode) -> nat {
    tc.subframe@ * (tc.rate.fps as nat)
}

/// Where a reading sits on a timeline of nano-frames since midnight.
pub open spec fn position_of(tc: Timecode) -> nat {
    ((((tc.hours * 60 + tc.minutes) * 60 + tc.seconds) * tc.rate.fps + tc.frames) * 1_000_000_000
        + subframe_span(tc)) as nat
}

/// The reading at a position, which wraps at 24 hours.
pub open spec fn timecode_at(position: int, rate: Rate) -> Timecode {
    let fps = counting_fps(rate) as int;
    let today = position % (day_span(rate) as int);
    let count = today / 1_000_000_000;
    Timecode {
        hours: (count / fps / 3600) as u8,
        minutes: (count / fps / 60 % 60) as u8,
        seconds: (count / fps % 60) as u8,
        frames: (count % fps) as u8,
        rate,
        subframe: Duration::of(text::nearest_even((today % 1_000_000_000) as nat, fps as nat)),
    }
}

/// A reading as it is written. Drop-frame timecode is conventionally written with a
/// semicolon in front of the frames.
pub open spec fn timecode_text(tc: Timecode) -> Seq<char> {
    clock_text(tc.hours, tc.minutes, tc.seconds, tc.frames, tc.rate.drop_frame)
}

/// Four fields of a timecode as they are written.
pub open spec fn clock_text(
    hours: u8,
    minutes: u8,
    seconds: u8,
    frames: u8,
    drop_frame: bool,
) -> Seq<char> {
    text::zero_padded(hours as nat, 2).push(':') + text::zero_padded(minutes as nat, 2).push(':')
        + text::zero_padded(seconds as nat, 2).push(
        if drop_frame {
            ';'
        } else {
            ':'
        },
    ) + text::zero_padded(frames as nat, 2)
}

/// Four fields of a timecode as they are written.
pub fn clock_string(hours: u8, minutes: u8, seconds: u8, frames: u8, drop_frame: bool) -> (out:
    String)
    ensures
        out@ == clock_text(hours, minutes, seconds, frames, drop_frame),
{
    let mut out = String::new();
    text::put_zero_padded(&mut out, hours as u128, 2);
    out.push(':');
    text::put_zero_padded(&mut out, minutes as u128, 2);
    out.push(':');
    text::put_zero_padded(&mut out, seconds as u128, 2);
    if drop_frame {
        out.push(';');
    } else {
        out.push(':');
    }
    text::put_zero_padded(&mut out, frames as u128, 2);
    assert(out@ =~= clock_text(hours, minutes, seconds, frames, drop_frame));
    out
}

impl Timecode {
    /// The fields are ones a clock can show, and the reading was taken inside the
    /// frame that it names.
    pub open spec fn in_range(self) -> bool {
        &&& self.showable()
        &&& self.subframe@ * counting_fps(self.rate) < 1_000_000_000
    }

    /// The fields are ones a clock can show, and the reading was taken inside the frame that
    /// it names, to the nearest nanosecond.
    pub open spec fn showable(self) -> bool {
        &&& self.hours < 24
        &&& self.minutes < 60
        &&& self.seconds < 60
        &&& self.frames < counting_fps(self.rate)
        &&& self.subframe.wf()
        &&& 2 * (self.subframe@ * counting_fps(self.rate)) < 2_000_000_000 + counting_fps(
            self.rate,
        )
    }

    /// A frame-aligned timecode: no sub-frame offset.
    pub fn new(hours: u8, minutes: u8, seconds: u8, frames: u8, rate: Rate) -> (tc: Timecode)
        ensures
            tc == (Timecode {
                hours,
                minutes,
                seconds,
                frames,
                rate,
                subframe: Duration { secs: 0, nanos: 0 },
            }),
            tc.subframe@ == 0,
    {
        Timecode { hours, minutes, seconds, frames, rate, subframe: Duration::zero() }
    }

    /// How far into the frame this reading was taken, in nano-frames.
    ///
    /// Usually less than a whole frame, but a raw Bluetooth reading can exceed one by
    /// the fixed bias in it.
    pub fn subframe_fraction(&self) -> (span: u128)
        ensures
            span == subframe_span(*self),
            span <= 0xff_0000_0000_0000_0000_0000_0000,
    {
        let nanos: u128 = self.subframe.as_nanos();
        let fps: u128 = self.rate.fps as u128;
        assert(nanos * fps <= 0x1_0000_0000_0000_0000_0000_0000 * 255) by (nonlinear_arith)
            requires
                nanos <= 0x1_0000_0000_0000_0000_0000_0000,
                fps <= 255,
        ;
        nanos * fps
    }

    /// Where this reading sits on a timeline of nano-frames since midnight, the
    /// sub-frame part included.
    ///
    /// This is the form to do arithmetic in: extrapolating a reading forward, or
    /// comparing two of them, is addition here and a mess of carries otherwise.
    ///
    /// Drop-frame numbering skips frame *numbers*, so the count of frames since
    /// midnight is not this function of the fields, and a drop-frame rate is not
    /// accepted here; [`Timecode::checked_frame_position`] declines one.
    pub fn frame_position(&self) -> (position: u128)
        requires
            !self.rate.drop_frame,
        ensures
            position == position_of(*self),
            position <= 0x100_0000_0000_0000_0000_0000_0000,
    {
        self.linear_position()
    }

    /// [`Timecode::frame_position`], or `None` at a drop-frame rate, where it has no
    /// answer to give.
    pub fn checked_frame_position(&self) -> (position: Option<u128>)
        ensures
            position == (if self.rate.drop_frame {
                None::<u128>
            } else {
                Some(position_of(*self) as u128)
            }),
            position matches Some(p) ==> p == position_of(*self),
    {
        if self.rate.drop_frame {
            None
        } else {
            Some(self.linear_position())
        }
    }

    fn linear_position(&self) -> (position: u128)
        ensures
            position == position_of(*self),
            position <= 0x100_0000_0000_0000_0000_0000_0000,
    {
        let clock: u64 = (self.hours as u64 * 60 + self.minutes as u64) * 60 + self.seconds as u64;
        let fps: u64 = self.rate.fps as u64;
        assert(clock * fps <= 1_000_000 * 255) by (nonlinear_arith)
            requires
                clock <= 1_000_000,
                fps <= 255,
        ;
        let whole: u64 = clock * fps + self.frames as u64;
        whole as u128 * NANO + self.subframe_fraction()
    }

    /// The timecode at a position on that timeline, wrapping at 24 hours.
    ///
    /// What is left of the position inside the frame becomes the sub-frame field.
    pub fn at_frame_position(position: i128, rate: Rate) -> (tc: Timecode)
        requires
            !rate.drop_frame,
        ensures
            tc == timecode_at(position as int, rate),
    {
        let day: u128 = rate.frames_per_day() as u128 * NANO;
        let today: u128 = wrapped(position, day);
        let fps: u64 = rate.counting() as u64;
        let count: u64 = (today / NANO) as u64;
        let seconds_of_day: u64 = count / fps;
        proof {
            assert(count / fps < 86400) by (nonlinear_arith)
                requires
                    count < 86400 * fps,
                    fps >= 1,
            ;
        }
        let rest: u128 = today % NANO;
        let inside: u128 = round_half_even(rest, fps as u128);
        assert(rest / (fps as u128) <= rest) by (nonlinear_arith)
            requires
                fps >= 1,
        ;
        Timecode {
            hours: (seconds_of_day / 3600) as u8,
            minutes: (seconds_of_day / 60 % 60) as u8,
            seconds: (seconds_of_day % 60) as u8,
            frames: (count % fps) as u8,
            rate,
            subframe: Duration::from_nanos(inside as u64),
        }
    }

    /// The timecode in words.
    pub fn to_string(&self) -> (out: String)
        ensures
            out@ == timecode_text(*self),
    {
        clock_string(self.hours, self.minutes, self.seconds, self.frames, self.rate.drop_frame)
    }
}

/// Where a position falls in a day, counting back from midnight where it is negative.
pub fn wrapped(position: i128, day: u128) -> (today: u128)
    requires
        0 < day <= 0x7fff_ffff_ffff_ffff_ffff_ffff_ffff_ffff,
    ensures
        today == (position as int) % (day as int),
        today < day,
{
    if position >= 0 {
        position as u128 % day
    } else {
        let back: u128 = (-(position + 1)) as u128;
        let today: u128 = day - 1 - back % day;
        proof {
            let q = (back / day) as int;
            vstd::arithmetic::div_mod::lemma_fundamental_div_mod(back as int, day as int);
            assert(position as int == day * (-q - 1) + today) by (nonlinear_arith)
                requires
                    back as int == day * q + back as int % day as int,
                    today as int == day - 1 - back as int % day as int,
                    position as int == -(back as int) - 1,
            ;
            vstd::arithmetic::div_mod::lemma_fundamental_div_mod_converse(
                position as int,
                day as int,
                -q - 1,
                today as int,
            );
        }
        today
    }
}

/// A count split into groups of `size` comes apart into the number of groups and the
/// rest.
proof fn lemma_split(groups: int, size: int, rest: int)
    requires
        0 <= rest < size,
    ensures
        (groups * size + rest) / size == groups,
        (groups * size + rest) % size == rest,
{
    assert(groups * size == size * groups) by (nonlinear_arith);
    vstd::arithmetic::div_mod::lemma_fundamental_div_mod_converse(
        groups * size + rest,
        size,
        groups,
        rest,
    );
}

/// A reading that a clock can show comes back whole, field for field, from its own
/// position.
pub proof fn a_position_gives_its_reading_back(tc: Timecode)
    requires
        tc.in_range(),
        tc.rate.fps > 0,
    ensures
        timecode_at(position_of(tc) as int, tc.rate) == tc,
{
    let fps = tc.rate.fps as int;
    let clock = (tc.hours * 60 + tc.minutes) * 60 + tc.seconds;
    let count = clock * fps + tc.frames;
    let sub = subframe_span(tc) as int;
    assert(0 <= count < 86400 * fps) by (nonlinear_arith)
        requires
            0 <= clock < 86400,
            0 <= tc.frames < fps,
            count == clock * fps + tc.frames,
    ;
    assert(position_of(tc) == count * 1_000_000_000 + sub);
    vstd::arithmetic::div_mod::lemma_small_mod(position_of(tc), day_span(tc.rate));
    lemma_split(clock, fps, tc.frames as int);
    lemma_split(tc.subframe@ as int, fps, 0);
    assert(sub / fps == tc.subframe@ && sub % fps == 0);
    crate::time::of_undoes_the_view(tc.subframe, 0);
    assert(clock / 3600 == tc.hours && clock / 60 % 60 == tc.minutes && clock % 60 == tc.seconds);
}

/// The nearest whole number of parts is at most half a part off.
proof fn lemma_nearest(n: nat, d: nat)
    requires
        d > 0,
    ensures
        2 * (text::nearest_even(n, d) * d) <= 2 * n + d,
        2 * n <= 2 * (text::nearest_even(n, d) * d) + d,
        text::nearest_even(n, d) <= n + 1,
{
    let down = n / d;
    vstd::arithmetic::div_mod::lemma_fundamental_div_mod(n as int, d as int);
    assert(down * d == d * down && (down + 1) * d == d * down + d && down <= n)
        by (nonlinear_arith)
        requires
            n == d * down + n % d,
            d > 0,
            n % d >= 0,
    ;
}

/// The reading at a position is one that a clock can show, and it sits inside the
/// frame that it names, to the nearest nanosecond.
pub proof fn a_position_falls_inside_a_frame(position: int, rate: Rate)
    ensures
        timecode_at(position, rate).showable(),
        timecode_at(position, rate).rate == rate,
{
    let fps = counting_fps(rate);
    let today = position % (day_span(rate) as int);
    let count = today / 1_000_000_000;
    let rest = (today % 1_000_000_000) as nat;
    let inside = text::nearest_even(rest, fps);
    assert(0 <= count / (fps as int) < 86400 && 0 <= count % (fps as int) < fps)
        by (nonlinear_arith)
        requires
            0 <= count < 86400 * fps,
            fps >= 1,
    ;
    lemma_nearest(rest, fps);
    crate::time::of_undoes_the_view(Duration { secs: 0, nanos: 0 }, inside);
    assert(2 * (inside * fps) < 2_000_000_000 + fps);
}

/// A position survives the trip through a reading to within half a nanosecond, counted in
/// the day it falls in: whatever the reading names, its own position is at most half of
/// `fps` nano-frames off.
pub proof fn a_reading_keeps_its_position(position: int, rate: Rate)
    requires
        rate.fps > 0,
    ensures
        2 * position_of(timecode_at(position, rate)) <= 2 * (position % (day_span(rate) as int))
            + rate.fps,
        2 * (position % (day_span(rate) as int)) <= 2 * position_of(timecode_at(position, rate))
            + rate.fps,
{
    let tc = timecode_at(position, rate);
    let fps = rate.fps as int;
    let today = position % (day_span(rate) as int);
    let count = today / 1_000_000_000;
    let rest = (today % 1_000_000_000) as nat;
    a_position_falls_inside_a_frame(position, rate);
    assert(0 <= count / fps < 86400 && 0 <= count % fps < fps && count == (count / fps) * fps
        + count % fps) by (nonlinear_arith)
        requires
            0 <= count < 86400 * fps,
            fps >= 1,
    ;
    lemma_nearest(rest, fps as nat);
    let inside = text::nearest_even(rest, fps as nat);
    crate::time::of_undoes_the_view(Duration { secs: 0, nanos: 0 }, inside);
    let clock = count / fps;
    assert((tc.hours * 60 + tc.minutes) * 60 + tc.seconds == clock);
    assert(subframe_span(tc) == inside * fps);
}

/// Timecode wraps at 24 hours: a day more or less, in either direction, is the same
/// reading.
pub proof fn a_day_is_a_full_turn(position: int, days: int, rate: Rate)
    ensures
        timecode_at(position + days * day_span(rate), rate) == timecode_at(position, rate),
{
    let day = day_span(rate) as int;
    vstd::arithmetic::div_mod::lemma_mod_multiples_vanish(days, position, day);
    assert(days * day == day * days) by (nonlinear_arith);
}

/// The position counts up with the clock: of two readings in range at one rate, the
/// later one sits further along.
pub proof fn a_later_reading_sits_further_along(a: Timecode, b: Timecode)
    requires
        a.in_range(),
        b.in_range(),
        a.rate == b.rate,
        a.rate.fps > 0,
        ((a.hours * 60 + a.minutes) * 60 + a.seconds) < ((b.hours * 60 + b.minutes) * 60
            + b.seconds),
    ensures
        position_of(a) < position_of(b),
{
    let fps = a.rate.fps as int;
    let ca = (a.hours * 60 + a.minutes) * 60 + a.seconds;
    let cb = (b.hours * 60 + b.minutes) * 60 + b.seconds;
    assert(ca * fps + a.frames < cb * fps + b.frames) by (nonlinear_arith)
        requires
            ca + 1 <= cb,
            a.frames < fps,
            fps >= 1,
            b.frames >= 0,
    ;
}

/// A position read off a timecode leaves room to count on, whatever its fields hold.
pub proof fn a_position_leaves_room(tc: Timecode)
    ensures
        position_of(tc) <= 0x100_0000_0000_0000_0000_0000_0000,
{
    let clock = (tc.hours * 60 + tc.minutes) * 60 + tc.seconds;
    let fps = tc.rate.fps as int;
    assert(clock * fps <= 1_000_000 * 255) by (nonlinear_arith)
        requires
            0 <= clock <= 1_000_000,
            0 <= fps <= 255,
    ;
    let sub = tc.subframe@ as int;
    assert(sub * fps <= 0x1_0000_0000_0000_0000_0000_0000 * 255) by (nonlinear_arith)
        requires
            0 <= sub <= 0x1_0000_0000_0000_0000_0000_0000,
            0 <= fps <= 255,
    ;
}

} // verus!
