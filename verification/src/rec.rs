//! Recording an audio input to a file stamped with the timecode of a Tentacle.
//!
//! The file's start time is not the timecode that happened to be on screen when recording
//! began. It is that clock extrapolated back to the instant the first sample was
//! *captured*, which is not the instant the callback holding it ran.
//!
//! Timecode is required to *start* and not to continue: losing the signal mid-take is a
//! non-event, since the stamp was written when the file was opened. What it will not do is
//! start without a reading, since a file stamped with a guess is worse than one that says
//! nothing.

pub mod laws;

use vstd::prelude::*;

use crate::ble::diagnostics::Diagnosis;
use crate::ble::scan::{self, Event, ScanView, Scanner};
use crate::display;
use crate::error;
use crate::freerun::{self, Reading};
use crate::text;
use crate::time::{Duration, Instant};
use crate::timecode;
use crate::timecode::Timecode;
use crate::wav;

verus! {

/// How often to redraw the recording line, in milliseconds.
pub const TICK_MILLIS: u64 = 100;

/// How long to let a date advertisement turn up before writing the header without one, in
/// seconds. This wait costs no audio: it happens after the input is already running.
pub const DATE_GRACE_SECS: u64 = 5;

/// How long to wait for the audio device's first buffer before deciding it is never coming,
/// in seconds.
pub const FIRST_BUFFER_SECS: u64 = 5;

/// How far out an anchor can be, in nanoseconds, for the uncertainty on the drift figure.
pub const ANCHOR_ERROR_NANOS: u64 = 1_000_000;

/// Why nothing arrived.
pub open spec fn why_text(d: Diagnosis, filter: Option<Seq<char>>) -> Seq<char> {
    let detail = match d {
        Diagnosis::SilentScan =>
            "not one BLE advertisement of any kind has arrived, so suspect the scan rather than the Tentacles"@,
        Diagnosis::FilteredOut { devices } => text::decimal(devices as nat)
            + " BLE devices in range, none named like "@ + text::quoted(
            match filter {
                Some(filter) => filter,
                None => ""@,
            },
        ),
        Diagnosis::NothingAdvertising { devices } => text::decimal(devices as nat)
            + " BLE devices in range, none of which has advertised anything"@,
        Diagnosis::Unreadable { name, payloads, unparsed, .. } => name@ + " is advertising "@
            + error::service_text() + ", but "@ + text::decimal(unparsed as nat) + " of "@
            + text::decimal(payloads as nat) + " payloads did not decode"@,
        Diagnosis::DatesOnly { payloads, .. } => text::decimal(payloads as nat)
            + " payloads decoded and none carried timecode — dates only so far"@,
        Diagnosis::NoTentacle { matched } => text::decimal(matched as nat)
            + " BLE devices in range, none advertising "@ + error::service_text(),
    };
    detail + " (shokushu-ble shows what the scan is taking in)"@
}

/// Why nothing arrived, in a sentence. What someone running a recorder wants is to know
/// whether to keep waiting.
pub fn why(diagnosis: &Diagnosis, filter: Option<&str>) -> (out: String)
    ensures
        out@ == why_text(*diagnosis, display::filter_text(filter)),
{
    let mut out = String::new();
    match diagnosis {
        Diagnosis::SilentScan => {
            out.push_str(
                "not one BLE advertisement of any kind has arrived, so suspect the scan rather than the Tentacles",
            );
        },
        Diagnosis::FilteredOut { devices } => {
            text::put_decimal(&mut out, *devices as u128);
            out.push_str(" BLE devices in range, none named like ");
            let want: &str = match filter {
                Some(filter) => filter,
                None => "",
            };
            out.push_str(text::quote(want).as_str());
        },
        Diagnosis::NothingAdvertising { devices } => {
            text::put_decimal(&mut out, *devices as u128);
            out.push_str(" BLE devices in range, none of which has advertised anything");
        },
        Diagnosis::Unreadable { name, payloads, unparsed, .. } => {
            out.push_str(name.as_str());
            out.push_str(" is advertising ");
            error::put_service(&mut out);
            out.push_str(", but ");
            text::put_decimal(&mut out, *unparsed as u128);
            out.push_str(" of ");
            text::put_decimal(&mut out, *payloads as u128);
            out.push_str(" payloads did not decode");
        },
        Diagnosis::DatesOnly { payloads, .. } => {
            text::put_decimal(&mut out, *payloads as u128);
            out.push_str(" payloads decoded and none carried timecode — dates only so far");
        },
        Diagnosis::NoTentacle { matched } => {
            text::put_decimal(&mut out, *matched as u128);
            out.push_str(" BLE devices in range, none advertising ");
            error::put_service(&mut out);
        },
    }
    out.push_str(" (shokushu-ble shows what the scan is taking in)");
    assert(out@ =~= why_text(*diagnosis, display::filter_text(filter)));
    out
}

/// What is said when no timecode came in time.
pub open spec fn too_late_text(wait: nat, why: Seq<char>) -> Seq<char> {
    Seq::<char>::empty() + "no timecode after "@ + text::decimal(wait) + "s — "@ + why
}

/// What is said when no timecode came in time. The scan knows best why it found nothing.
pub fn too_late(wait: u64, diagnosis: &Diagnosis, filter: Option<&str>) -> (out: String)
    ensures
        out@ == too_late_text(wait as nat, why_text(*diagnosis, display::filter_text(filter))),
{
    let mut out = String::new();
    out.push_str("no timecode after ");
    text::put_decimal(&mut out, wait as u128);
    out.push_str("s — ");
    out.push_str(why(diagnosis, filter).as_str());
    out
}

/// The device to record against: the first one that says what time it is.
pub fn lock_on(event: &Event) -> (id: Option<&String>)
    ensures
        match (id, event@) {
            (Some(id), scan::EventView::Timecode { id: from, .. }) => id@ == from,
            (None, scan::EventView::Timecode { .. }) => false,
            (Some(_), _) => false,
            (None, _) => true,
        },
{
    match event {
        Event::Timecode { id, .. } => Some(id),
        _ => None,
    }
}

/// What is said of the device that was locked onto.
pub open spec fn locked_text(name: Seq<char>, last: Option<Timecode>) -> Result<
    Seq<char>,
    Seq<char>,
> {
    match last {
        Some(tc) => Ok(
            Seq::<char>::empty() + "locked onto "@ + name + " at "@ + timecode::timecode_text(tc)
                + " "@ + timecode::rate_text(tc.rate),
        ),
        None => Err(name + " sent timecode and then its clock had none"@),
    }
}

/// A line or an error, as texts.
pub open spec fn line_or_error(r: Result<String, String>) -> Result<Seq<char>, Seq<char>> {
    match r {
        Ok(line) => Ok(line@),
        Err(why) => Err(why@),
    }
}

/// What is said of the device that was locked onto, or why it cannot be recorded against.
pub fn locked(name: &str, last: Option<Timecode>) -> (r: Result<String, String>)
    ensures
        line_or_error(r) == locked_text(name@, last),
{
    let mut out = String::new();
    match last {
        Some(tc) => {
            out.push_str("locked onto ");
            out.push_str(name);
            out.push_str(" at ");
            out.push_str(tc.to_string().as_str());
            out.push_str(" ");
            out.push_str(tc.rate.to_string().as_str());
            Ok(out)
        },
        None => {
            out.push_str(name);
            out.push_str(" sent timecode and then its clock had none");
            assert(out@ =~= name@ + " sent timecode and then its clock had none"@);
            Err(out)
        },
    }
}

/// The date a device has given, if it has given one.
pub fn date_known(scan: &Scanner, id: &String) -> (date: Option<String>)
    ensures
        match scan::slot_of(scan@.devices, id@) {
            Some(slot) => match scan@.devices[slot].date {
                Some(held) => date matches Some(text) && text@ == crate::ble::date_text(held),
                None => date is None,
            },
            None => date is None,
        },
{
    match scan.device(id) {
        Some(device) => match device.date() {
            Some(date) => Some(date.to_string()),
            None => None,
        },
        None => None,
    }
}

/// The date in an event of this device's, if it is one. The host's own date is not an
/// answer: a Tentacle can be set to a different one.
pub fn date_in(event: &Event, id: &String) -> (date: Option<String>)
    ensures
        match event@ {
            scan::EventView::Date { id: from, date: held } => if from == id@ {
                date matches Some(text) && text@ == crate::ble::date_text(held)
            } else {
                date is None
            },
            _ => date is None,
        },
{
    match event {
        Event::Date { id: from, date } => if *from == *id {
            Some(date.to_string())
        } else {
            None
        },
        _ => None,
    }
}

/// A scan after the clock of one of its devices was read.
pub open spec fn after_reading(s: ScanView, id: Seq<char>, now: Instant) -> ScanView {
    match scan::slot_of(s.devices, id) {
        Some(slot) => scan::sampled(s, slot, now),
        None => s,
    }
}

/// What the clock of one of its devices shows.
pub open spec fn clock_of(s: ScanView, id: Seq<char>, now: Instant) -> Option<Reading> {
    match scan::slot_of(s.devices, id) {
        Some(slot) => freerun::shown(s.devices[slot].clock, now),
        None => None,
    }
}

fn read_clock(scan: &mut Scanner, id: &String, now: Instant) -> (r: (bool, Option<Reading>))
    requires
        now.wf(),
    ensures
        r.0 == (scan::slot_of(old(scan)@.devices, id@) is Some),
        r.1 == clock_of(old(scan)@, id@, now),
        r.1 matches Some(Reading::Running(tc)) ==> !tc.rate.drop_frame && tc.showable(),
        final(scan)@ == after_reading(old(scan)@, id@, now),
{
    let ghost before = scan@;
    let r: (bool, Option<Reading>) = match scan.device_mut(id) {
        Some(device) => (true, device.reading(now)),
        None => (false, None),
    };
    proof {
        if let Some(slot) = scan::slot_of(before.devices, id@) {
            scan::laws::a_slot_is_a_place(before.devices, id@);
            assert(scan@.devices =~= scan::sampled(before, slot, now).devices);
            if let Some(s) = before.devices[slot].clock {
                if r.1 matches Some(Reading::Running(_)) {
                    freerun::a_running_clock_shows_a_reading_in_range(s, now);
                }
            }
        }
    }
    r
}

/// Why a recording cannot start.
#[derive(Clone, Copy, Debug, PartialEq, Eq, Structural)]
pub enum NoStart {
    /// The device is no longer in the scan.
    Gone,
    /// Its timecode stopped.
    Lost { last: Timecode, since: Duration },
    /// Its clock went away.
    NoClock,
    /// A drop-frame rate has no sample position.
    DropFrame,
}

/// What that says.
pub open spec fn no_start_text(e: NoStart) -> Seq<char> {
    match e {
        NoStart::Gone => "the device we locked onto is no longer in the scan"@,
        NoStart::Lost { last, since } => Seq::<char>::empty() + "the timecode stopped "@ + text::fixed(
            since@ as int,
            1_000_000_000,
            1,
        ) + "s ago (last was "@ + timecode::timecode_text(last)
            + "); not recording against a guess"@,
        NoStart::NoClock => "the device's clock went away between locking on and recording"@,
        NoStart::DropFrame =>
            "a drop-frame rate has no sample position, and Bluetooth never reports one"@,
    }
}

impl NoStart {
    /// Why, in words.
    pub fn to_string(&self) -> (out: String)
        ensures
            out@ == no_start_text(*self),
    {
        let mut out = String::new();
        match self {
            NoStart::Gone => {
                out.push_str("the device we locked onto is no longer in the scan");
            },
            NoStart::Lost { last, since } => {
                out.push_str("the timecode stopped ");
                text::put_fixed(&mut out, since.as_nanos() as i128, 1_000_000_000, 1);
                out.push_str("s ago (last was ");
                out.push_str(last.to_string().as_str());
                out.push_str("); not recording against a guess");
            },
            NoStart::NoClock => {
                out.push_str("the device's clock went away between locking on and recording");
            },
            NoStart::DropFrame => {
                out.push_str(
                    "a drop-frame rate has no sample position, and Bluetooth never reports one",
                );
            },
        }
        assert(out@ =~= no_start_text(*self));
        out
    }
}

/// Where a recording starts.
#[derive(Clone, Copy, Debug, PartialEq, Eq, Structural)]
pub struct Start {
    /// The timecode at the instant the first sample was captured.
    pub timecode: Timecode,
    /// Where that falls on the day in samples.
    pub samples: u64,
    /// Where the device's clock said that was, in nano-frames since midnight. It is below
    /// zero where midnight fell between.
    pub position: i128,
}

/// How far a clock at this rate gets between two moments, in nano-frames.
pub open spec fn frames_between(from: Instant, to: Instant, fps: nat) -> int {
    if to@ >= from@ {
        (to@ - from@) * fps
    } else {
        0
    }
}

/// Where a clock that reads this now was when the first sample was captured.
pub open spec fn start_of(tc: Timecode, begun: Instant, now: Instant) -> int {
    timecode::position_of(tc) - frames_between(begun, now, tc.rate.fps as nat)
}

/// Where a recording starts, or why it cannot, given what the device's clock shows.
pub open spec fn starts(
    listed: bool,
    shown: Option<Reading>,
    begun: Instant,
    now: Instant,
    sample_rate: u32,
) -> Result<Start, NoStart> {
    if !listed {
        Err(NoStart::Gone)
    } else {
        match shown {
            None => Err(NoStart::NoClock),
            Some(Reading::Lost { last, since }) => Err(NoStart::Lost { last, since }),
            Some(Reading::Running(tc)) => if tc.rate.drop_frame {
                Err(NoStart::DropFrame)
            } else {
                let position = start_of(tc, begun, now);
                let start = timecode::timecode_at(position, tc.rate);
                Ok(
                    Start {
                        timecode: start,
                        samples: wav::sample_position(start, sample_rate)->0,
                        position: position as i128,
                    },
                )
            },
        }
    }
}

/// How far a clock at this rate gets between two moments, in nano-frames.
fn frames_back(from: Instant, to: Instant, fps: u8) -> (n: i128)
    requires
        from.wf(),
        to.wf(),
    ensures
        n == frames_between(from, to, fps as nat),
        0 <= n <= 0x1_0000_0000_0000_0000_0000_0000 * 255,
{
    let span: u128 = to.saturating_duration_since(from).as_nanos();
    assert(0 <= span * fps <= 0x1_0000_0000_0000_0000_0000_0000 * 255) by (nonlinear_arith)
        requires
            0 <= span <= 0x1_0000_0000_0000_0000_0000_0000,
            0 <= fps <= 255,
    ;
    assert(0 * fps == 0) by (nonlinear_arith);
    span as i128 * fps as i128
}

/// The timecode at the instant the first sample was captured, and where that falls on the
/// day in samples.
///
/// Extrapolated *backwards* from the clock as it reads now, which is a few milliseconds of
/// arithmetic on a model that is already running, and not the last advertisement, which
/// may be half a second old by now.
pub fn start_timecode(
    scan: &mut Scanner,
    id: &String,
    begun: Instant,
    now: Instant,
    sample_rate: u32,
) -> (r: Result<Start, NoStart>)
    requires
        begun.wf(),
        now.wf(),
    ensures
        final(scan)@ == after_reading(old(scan)@, id@, now),
        r == starts(
            scan::slot_of(old(scan)@.devices, id@) is Some,
            clock_of(old(scan)@, id@, now),
            begun,
            now,
            sample_rate,
        ),
        r matches Ok(start) ==> -FARTHEST_START <= start.position <= FARTHEST_START,
{
    let (listed, shown) = read_clock(scan, id, now);
    if !listed {
        return Err(NoStart::Gone);
    }
    let tc: Timecode = match shown {
        None => {
            return Err(NoStart::NoClock);
        },
        Some(Reading::Lost { last, since }) => {
            return Err(NoStart::Lost { last, since });
        },
        Some(Reading::Running(tc)) => tc,
    };
    proof {
        timecode::a_position_leaves_room(tc);
    }
    let back: i128 = frames_back(begun, now, tc.rate.fps);
    let position: i128 = tc.frame_position() as i128 - back;
    let start = Timecode::at_frame_position(position, tc.rate);
    match wav::samples_since_midnight(&start, sample_rate) {
        Some(samples) => Ok(Start { timecode: start, samples, position }),
        None => Err(NoStart::DropFrame),
    }
}

/// When the first sample of a buffer was captured: so long before now as it is late.
pub open spec fn captured(
    now: Instant,
    latency: Option<Duration>,
    frames: u64,
    sample_rate: u32,
) -> int {
    let late = match latency {
        Some(d) => d@,
        None => span_nanos(frames as nat, sample_rate as nat),
    };
    if now@ >= late {
        now@ - late
    } else {
        now@ as int
    }
}

/// When the first sample of a buffer was captured, on the host clock: so long before now
/// as the driver says, or a buffer period where it doesn't.
///
/// The callback runs after the data exists, and ignoring the gap puts every recording late
/// by the same amount.
pub fn captured_at(now: Instant, latency: Option<Duration>, frames: u64, sample_rate: u32) -> (at:
    Instant)
    requires
        now.wf(),
        latency is None ==> sample_rate > 0,
    ensures
        at.wf(),
        at@ == captured(now, latency, frames, sample_rate),
        ({
            let late = match latency {
                Some(d) => d@,
                None => span_nanos(frames as nat, sample_rate as nat),
            };
            at@ == (if now@ >= late {
                now@ - late
            } else {
                now@ as int
            })
        }),
{
    let late: Duration = match latency {
        Some(d) => d,
        None => span_of(frames, sample_rate),
    };
    match now.checked_sub(late) {
        Some(at) => at,
        None => now,
    }
}

/// How long so many frames last, to the nearest nanosecond.
pub open spec fn span_nanos(frames: nat, sample_rate: nat) -> nat {
    text::nearest_even(frames * 1_000_000_000, sample_rate)
}

/// How long so many frames last.
pub fn span_of(frames: u64, sample_rate: u32) -> (d: Duration)
    requires
        sample_rate > 0,
    ensures
        d.wf(),
        d@ == span_nanos(frames as nat, sample_rate as nat),
        d@ <= frames * 1_000_000_000,
{
    let whole: u128 = frames as u128 * 1_000_000_000;
    let rate: u128 = sample_rate as u128;
    let nanos: u128 = text::round_half_even(whole, rate);
    proof {
        vstd::arithmetic::div_mod::lemma_fundamental_div_mod(whole as int, rate as int);
    }
    assert(whole / rate <= whole && (whole / rate == whole ==> whole % rate == 0))
        by (nonlinear_arith)
        requires
            rate >= 1,
            whole == rate * (whole / rate) + whole % rate,
            whole % rate >= 0,
    ;
    Duration::from_nanos_u128(nanos)
}

/// Elapsed recording time, as a running clock.
pub open spec fn clock_text(nanos: nat) -> Seq<char> {
    let whole = nanos / 1_000_000_000;
    Seq::<char>::empty() + text::zero_padded(whole / 3600, 2) + ":"@ + text::zero_padded(
        whole / 60 % 60,
        2,
    ) + ":"@ + text::pad_start(
        text::fixed(nanos - whole / 60 * 60 * 1_000_000_000, 1_000_000_000, 1),
        4,
        '0',
    )
}

/// Elapsed recording time, as a running clock rather than a count of seconds.
pub fn clock(elapsed: Duration) -> (out: String)
    ensures
        out@ == clock_text(elapsed@),
{
    let nanos: u128 = elapsed.as_nanos();
    let whole: u128 = nanos / 1_000_000_000;
    let mut out = String::new();
    text::put_zero_padded(&mut out, whole / 3600, 2);
    out.push_str(":");
    text::put_zero_padded(&mut out, whole / 60 % 60, 2);
    out.push_str(":");
    let rest: u128 = nanos - whole / 60 * 60 * 1_000_000_000;
    let mut seconds = String::new();
    text::put_fixed(&mut seconds, rest as i128, 1_000_000_000, 1);
    assert(seconds@ =~= text::fixed(rest as int, 1_000_000_000, 1));
    text::put_pad_start(&mut out, seconds.as_str(), 4, '0');
    out
}

/// What the recording line says of the timecode, and its note.
pub open spec fn shown_text(shown: Option<Reading>) -> (Seq<char>, Seq<char>) {
    match shown {
        Some(Reading::Running(tc)) => (with_rate(tc), Seq::empty()),
        Some(Reading::Lost { last, since }) => (
            with_rate(last),
            Seq::<char>::empty() + "   no timecode for "@ + text::fixed(
                since@ as int,
                1_000_000_000,
                0,
            ) + "s"@,
        ),
        None => ("--:--:--:--"@, "   no clock"@),
    }
}

/// A timecode and its rate.
pub open spec fn with_rate(tc: Timecode) -> Seq<char> {
    Seq::<char>::empty() + timecode::timecode_text(tc) + "   "@ + timecode::rate_text(tc.rate)
}

fn put_with_rate(out: &mut String, tc: &Timecode)
    ensures
        final(out)@ == old(out)@ + with_rate(*tc),
{
    out.push_str(tc.to_string().as_str());
    out.push_str("   ");
    out.push_str(tc.rate.to_string().as_str());
    assert(out@ =~= old(out)@ + with_rate(*tc));
}

/// A level in a column of six. It is given in millionths of a decibel; silence has none.
pub open spec fn level_text(level: Option<i64>) -> Seq<char> {
    match level {
        Some(level) => text::fixed_column(level as int, 1_000_000, 1, 6),
        None => text::pad_start("-inf"@, 6, ' '),
    }
}

/// The one line that updates in place while recording.
pub open spec fn drawn_text(
    shown: Option<Reading>,
    name: Seq<char>,
    elapsed: nat,
    level: Option<i64>,
) -> Seq<char> {
    Seq::<char>::empty() + "\r● "@ + clock_text(elapsed) + "   "@ + shown_text(shown).0 + "   "@
        + name + "   "@ + level_text(level) + " dBFS"@ + shown_text(shown).1 + "\x1b[K"@
}

/// The one line that updates in place while recording. Losing the signal doesn't stop the
/// recording, so it's a note on the line rather than an error.
pub fn draw(
    scan: &mut Scanner,
    id: &String,
    name: &str,
    recorded: u64,
    sample_rate: u32,
    level: Option<i64>,
    now: Instant,
) -> (out: String)
    requires
        now.wf(),
        sample_rate > 0,
    ensures
        final(scan)@ == after_reading(old(scan)@, id@, now),
        out@ == drawn_text(
            clock_of(old(scan)@, id@, now),
            name@,
            span_nanos(recorded as nat, sample_rate as nat),
            level,
        ),
{
    let (_, shown) = read_clock(scan, id, now);
    let mut said = String::new();
    let mut note = String::new();
    match shown {
        Some(Reading::Running(tc)) => {
            put_with_rate(&mut said, &tc);
        },
        Some(Reading::Lost { last, since }) => {
            put_with_rate(&mut said, &last);
            note.push_str("   no timecode for ");
            text::put_fixed(&mut note, since.as_nanos() as i128, 1_000_000_000, 0);
            note.push_str("s");
        },
        None => {
            said.push_str("--:--:--:--");
            note.push_str("   no clock");
        },
    }
    assert(said@ =~= shown_text(shown).0);
    assert(note@ =~= shown_text(shown).1);
    let mut out = String::new();
    out.push_str("\r● ");
    out.push_str(clock(span_of(recorded, sample_rate)).as_str());
    out.push_str("   ");
    out.push_str(said.as_str());
    out.push_str("   ");
    out.push_str(name);
    out.push_str("   ");
    match level {
        Some(level) => text::put_fixed_column(&mut out, level as i128, 1_000_000, 1, 6),
        None => text::put_pad_start(&mut out, "-inf", 6, ' '),
    }
    out.push_str(" dBFS");
    out.push_str(note.as_str());
    out.push_str("\x1b[K");
    out
}

/// The farthest from midnight that a recording can start, in nano-frames.
pub const FARTHEST_START: i128 = 0x200_0000_0000_0000_0000_0000_0000;

/// What was recorded, for the figure at the end.
#[derive(Debug)]
pub struct Take {
    /// When the first sample was captured, on the host clock.
    pub begun: Instant,
    /// Where the device's clock said that was, in nano-frames since midnight.
    pub start_position: i128,
    /// How much host time the captured samples span.
    pub recorded_for: Duration,
    pub frames: u64,
    pub sample_rate: u32,
    pub name: String,
}

impl Take {
    pub open spec fn wf(self) -> bool {
        &&& self.begun.wf()
        &&& self.begun@ + self.recorded_for@ <= crate::time::MAX_NANOS
        &&& -FARTHEST_START <= self.start_position <= FARTHEST_START
        &&& self.sample_rate > 0
    }
}

/// Where the device's clock was when the last sample was captured, reached backwards from
/// now. A take that ran through midnight ends at a smaller position than it started at, the
/// day having wrapped underneath it.
pub open spec fn end_of(take: Take, tc: Timecode, now: Instant) -> int {
    let ended = take.begun@ + take.recorded_for@;
    let back = if now@ >= ended {
        (now@ - ended) * tc.rate.fps
    } else {
        0
    };
    let end = timecode::position_of(tc) - back;
    if end < take.start_position {
        end + timecode::day_span(tc.rate)
    } else {
        end
    }
}

/// How long the take was by the device's clock, in nanoseconds.
pub open spec fn device_span(take: Take, tc: Timecode, now: Instant) -> int {
    (end_of(take, tc, now) - take.start_position) / (timecode::counting_fps(tc.rate) as int)
}

/// What the drift figure says.
pub open spec fn drift_line(name: Seq<char>, audio: int, device: nat) -> Seq<char> {
    let apart = audio - device;
    Seq::<char>::empty() + "  the input's clock ran "@ + text::fixed_with_sign(
        apart * 1_000_000,
        device,
        0,
    ) + " ppm against "@ + name + "'s over "@ + text::fixed(device as int, 1_000_000_000, 0)
        + " s (±"@ + text::fixed(2 * ANCHOR_ERROR_NANOS * 1_000_000, device, 0) + " ppm)"@ + (if
    -2 * ANCHOR_ERROR_NANOS <= apart <= 2 * ANCHOR_ERROR_NANOS {
        " — which is not distinguishable from no difference at all"@
    } else {
        ""@
    }) + "\n"@
}

/// The drift figure, given what the device's clock shows at the end: none without a
/// running clock, and none over less than a second.
pub open spec fn drift_text(take: Take, shown: Option<Reading>, now: Instant) -> Seq<char> {
    match shown {
        Some(Reading::Running(tc)) => {
            let audio = span_nanos(take.frames as nat, take.sample_rate as nat);
            let device = device_span(take, tc, now);
            if device < 1_000_000_000 {
                Seq::empty()
            } else {
                drift_line(take.name@, audio as int, device as nat)
            }
        },
        _ => "  no timecode at the end of the take, so no drift figure\n"@,
    }
}

/// How far the input's clock and the Tentacle's ran apart over the take.
///
/// The two ends have to be *two readings*, taken minutes apart, and not one reading
/// extrapolated to both instants. The uncertainty is what keeps the figure honest: an
/// anchor is good to about a millisecond, so over a short take the figure is mostly noise.
pub fn report_drift(scan: &mut Scanner, id: &String, take: &Take, now: Instant) -> (out: String)
    requires
        now.wf(),
        take.wf(),
    ensures
        final(scan)@ == after_reading(old(scan)@, id@, now),
        out@ == drift_text(*take, clock_of(old(scan)@, id@, now), now),
{
    let (_, shown) = read_clock(scan, id, now);
    let mut out = String::new();
    let tc: Timecode = match shown {
        Some(Reading::Running(tc)) => tc,
        _ => {
            out.push_str("  no timecode at the end of the take, so no drift figure\n");
            assert(out@ =~= "  no timecode at the end of the take, so no drift figure\n"@);
            return out;
        },
    };
    assert(out@ =~= Seq::empty());
    let ended: Instant = match take.begun.checked_add(take.recorded_for) {
        Some(ended) => ended,
        None => {
            return out;
        },
    };
    proof {
        timecode::a_position_leaves_room(tc);
    }
    let back: i128 = frames_back(ended, now, tc.rate.fps);
    let read: i128 = tc.frame_position() as i128 - back;
    let day: u128 = tc.rate.frames_per_day() as u128 * 1_000_000_000;
    let end: i128 = if read < take.start_position {
        read + day as i128
    } else {
        read
    };
    assert(end == end_of(*take, tc, now));
    let fps: i128 = tc.rate.counting() as i128;
    let span: i128 = end - take.start_position;
    let device: i128 = crate::num::floor_div(span, fps);
    assert(device == device_span(*take, tc, now));
    let audio: i128 = span_of(take.frames, take.sample_rate).as_nanos() as i128;
    if device < 1_000_000_000 {
        return out;
    }
    assert(device <= span) by (nonlinear_arith)
        requires
            device == span as int / fps as int,
            device >= 0,
            fps >= 1,
    ;
    let apart: i128 = audio - device;
    out.push_str("  the input's clock ran ");
    text::put_fixed_with_sign(&mut out, apart * 1_000_000, device as u128, 0);
    out.push_str(" ppm against ");
    out.push_str(take.name.as_str());
    out.push_str("'s over ");
    text::put_fixed(&mut out, device, 1_000_000_000, 0);
    out.push_str(" s (±");
    text::put_fixed(&mut out, 2 * ANCHOR_ERROR_NANOS as i128 * 1_000_000, device as u128, 0);
    out.push_str(" ppm)");
    let limit: i128 = 2 * ANCHOR_ERROR_NANOS as i128;
    out.push_str(
        if -limit <= apart && apart <= limit {
            " — which is not distinguishable from no difference at all"
        } else {
            ""
        },
    );
    out.push_str("\n");
    out
}

/// A character that a filename keeps: a letter without its capital, or a digit.
pub open spec fn kept(c: char) -> bool {
    ('a' as int <= c as int <= 'z' as int) || ('0' as int <= c as int <= '9' as int)
}

/// A character as it goes into a filename: letters in lower case, digits, and a hyphen for
/// anything else.
pub open spec fn slug_char(c: char) -> char {
    if 'A' as int <= c as int <= 'Z' as int {
        (c as int + 32) as char
    } else if kept(c) {
        c
    } else {
        '-'
    }
}

/// The same of a whole name, with no hyphen at the front and none behind another.
pub open spec fn squeezed(name: Seq<char>) -> Seq<char>
    decreases name.len(),
{
    if name.len() == 0 {
        Seq::empty()
    } else {
        let before = squeezed(name.drop_last());
        let c = slug_char(name.last());
        if c == '-' && (before.len() == 0 || before.last() == '-') {
            before
        } else {
            before.push(c)
        }
    }
}

/// A name as something safe to put in a filename.
pub open spec fn slug_text(name: Seq<char>) -> Seq<char> {
    let squeezed = squeezed(name);
    let trimmed = if squeezed.len() > 0 && squeezed.last() == '-' {
        squeezed.drop_last()
    } else {
        squeezed
    };
    if trimmed.len() == 0 {
        "tentacle"@
    } else {
        trimmed
    }
}

fn slug_of(c: char) -> (out: char)
    ensures
        out == slug_char(c),
{
    let code: u32 = c as u32;
    if 65 <= code && code <= 90 {
        (code as u8 + 32) as char
    } else if (97 <= code && code <= 122) || (48 <= code && code <= 57) {
        c
    } else {
        '-'
    }
}

/// A device name as something safe to put in a filename.
pub fn slug(name: &str) -> (out: String)
    ensures
        out@ == slug_text(name@),
{
    let chars = text::chars_of(name);
    let mut kept_chars: Vec<char> = Vec::new();
    let mut i: usize = 0;
    assert(name@.take(0) =~= Seq::empty());
    while i < chars.len()
        invariant
            i <= chars@.len(),
            chars@ == name@,
            kept_chars@ == squeezed(name@.take(i as int)),
        decreases chars@.len() - i,
    {
        assert(name@.take(i + 1).drop_last() =~= name@.take(i as int));
        let given: char = chars[i];
        let c: char = slug_of(given);
        let n: usize = kept_chars.len();
        if !(c == '-' && (n == 0 || kept_chars[n - 1] == '-')) {
            kept_chars.push(c);
        }
        i = i + 1;
    }
    assert(name@.take(i as int) =~= name@);
    let n: usize = kept_chars.len();
    let len: usize = if n > 0 && kept_chars[n - 1] == '-' {
        n - 1
    } else {
        n
    };
    if len == 0 {
        return "tentacle".to_owned();
    }
    let mut out = String::new();
    let ghost whole = kept_chars@.take(len as int);
    assert(whole.take(0) =~= Seq::empty());
    let mut k: usize = 0;
    while k < len
        invariant
            k <= len <= kept_chars@.len(),
            whole == kept_chars@.take(len as int),
            out@ == whole.take(k as int),
        decreases len - k,
    {
        let c: char = kept_chars[k];
        out.push(c);
        assert(whole.take(k + 1) =~= whole.take(k as int).push(c));
        k = k + 1;
    }
    assert(whole.take(k as int) =~= whole);
    assert(whole =~= slug_text(name@));
    out
}

/// A default filename.
pub open spec fn path_text(name: Seq<char>, date: Option<Seq<char>>, start: Timecode) -> Seq<char> {
    Seq::<char>::empty() + slug_text(name) + "_"@ + (match date {
        Some(date) => date,
        None => "undated"@,
    }) + "_"@ + text::zero_padded(start.hours as nat, 2) + "-"@ + text::zero_padded(
        start.minutes as nat,
        2,
    ) + "-"@ + text::zero_padded(start.seconds as nat, 2) + "-"@ + text::zero_padded(
        start.frames as nat,
        2,
    ) + ".wav"@
}

/// A default filename that says what the file is without being opened.
pub fn default_path(name: &str, date: Option<&str>, start: &Timecode) -> (out: String)
    ensures
        out@ == path_text(name@, display::filter_text(date), *start),
{
    let mut out = String::new();
    out.push_str(slug(name).as_str());
    out.push_str("_");
    out.push_str(
        match date {
            Some(date) => date,
            None => "undated",
        },
    );
    out.push_str("_");
    text::put_zero_padded(&mut out, start.hours as u128, 2);
    out.push_str("-");
    text::put_zero_padded(&mut out, start.minutes as u128, 2);
    out.push_str("-");
    text::put_zero_padded(&mut out, start.seconds as u128, 2);
    out.push_str("-");
    text::put_zero_padded(&mut out, start.frames as u128, 2);
    out.push_str(".wav");
    out
}

/// What is left of so many seconds of recording, in nanoseconds.
pub open spec fn left_of(seconds: u64, begun: Instant, now: Instant) -> int {
    let gone = if now@ >= begun@ {
        now@ - begun@
    } else {
        0
    };
    if seconds * 1_000_000_000 >= gone {
        seconds * 1_000_000_000 - gone
    } else {
        0
    }
}

/// How much longer to record: so many seconds of recording, counted from the first sample,
/// less what has gone already. `None` where there is no end.
pub fn remaining(seconds: u64, begun: Instant, now: Instant) -> (left: Option<Duration>)
    requires
        now.wf(),
    ensures
        left matches Some(left) ==> left@ == left_of(seconds, begun, now),
        match left {
            None => seconds == 0,
            Some(left) => seconds > 0 && left.wf() && left@ == ({
                let gone = if now@ >= begun@ {
                    now@ - begun@
                } else {
                    0
                };
                if seconds * 1_000_000_000 >= gone {
                    seconds * 1_000_000_000 - gone
                } else {
                    0
                }
            }),
        },
{
    if seconds == 0 {
        return None;
    }
    let gone = now.saturating_duration_since(begun);
    Some(Duration::from_secs(seconds).saturating_sub(gone))
}

/// What is left to say of a finished file.
pub open spec fn wrote_text(
    path: Seq<char>,
    frames: nat,
    spec: wav::Spec,
    start: Start,
    date: Option<Seq<char>>,
    clipped: nat,
) -> Seq<char> {
    Seq::<char>::empty() + "wrote "@ + path + " — "@ + text::fixed(
        frames as int,
        spec.sample_rate as nat,
        3,
    ) + " s, "@ + text::decimal(frames) + " frames at "@ + text::decimal(spec.sample_rate as nat)
        + " Hz, "@ + text::decimal(spec.channels as nat) + " ch, 24-bit\n  first sample at "@
        + timecode::timecode_text(start.timecode) + " "@ + timecode::rate_text(start.timecode.rate)
        + ", "@ + text::decimal(start.samples as nat) + " samples since midnight, "@ + (match date {
        Some(date) => date,
        None => "no date received"@,
    }) + "\n"@ + (if clipped > 0 {
        Seq::<char>::empty() + "  "@ + text::decimal(clipped) + " samples clipped\n"@
    } else {
        Seq::empty()
    })
}

/// What is left to say of a finished file.
pub fn wrote(
    path: &str,
    frames: u64,
    spec: wav::Spec,
    start: &Start,
    date: Option<&str>,
    clipped: u64,
) -> (out: String)
    requires
        spec.sample_rate > 0,
    ensures
        out@ == wrote_text(
            path@,
            frames as nat,
            spec,
            *start,
            display::filter_text(date),
            clipped as nat,
        ),
{
    let mut clip = String::new();
    if clipped > 0 {
        clip.push_str("  ");
        text::put_decimal(&mut clip, clipped as u128);
        clip.push_str(" samples clipped\n");
    }
    let mut out = String::new();
    out.push_str("wrote ");
    out.push_str(path);
    out.push_str(" — ");
    text::put_fixed(&mut out, frames as i128, spec.sample_rate as u128, 3);
    out.push_str(" s, ");
    text::put_decimal(&mut out, frames as u128);
    out.push_str(" frames at ");
    text::put_decimal(&mut out, spec.sample_rate as u128);
    out.push_str(" Hz, ");
    text::put_decimal(&mut out, spec.channels as u128);
    out.push_str(" ch, 24-bit\n  first sample at ");
    out.push_str(start.timecode.to_string().as_str());
    out.push_str(" ");
    out.push_str(start.timecode.rate.to_string().as_str());
    out.push_str(", ");
    text::put_decimal(&mut out, start.samples as u128);
    out.push_str(" samples since midnight, ");
    out.push_str(
        match date {
            Some(date) => date,
            None => "no date received",
        },
    );
    out.push_str("\n");
    out.push_str(clip.as_str());
    out
}

proof fn lemma_squeezed(name: Seq<char>)
    ensures
        ({
            let s = squeezed(name);
            &&& forall|i: int| 0 <= i < s.len() ==> kept(#[trigger] s[i]) || s[i] == '-'
            &&& forall|i: int|
                0 <= i < s.len() - 1 ==> !(#[trigger] s[i] == '-' && s[i + 1] == '-')
            &&& s.len() > 0 ==> s[0] != '-'
        }),
    decreases name.len(),
{
    if name.len() > 0 {
        lemma_squeezed(name.drop_last());
    }
}

/// A slug is something a filesystem will take: it is never empty, it holds only lower-case
/// letters, digits and hyphens, and no hyphen stands at either end or next to another.
pub proof fn a_slug_is_a_safe_name(name: Seq<char>)
    ensures
        ({
            let s = slug_text(name);
            &&& s.len() > 0
            &&& forall|i: int| 0 <= i < s.len() ==> kept(#[trigger] s[i]) || s[i] == '-'
            &&& forall|i: int|
                0 <= i < s.len() - 1 ==> !(#[trigger] s[i] == '-' && s[i + 1] == '-')
            &&& s[0] != '-'
            &&& s.last() != '-'
        }),
{
    lemma_squeezed(name);
    reveal_strlit("tentacle");
    let s = squeezed(name);
    if s.len() > 0 && s.last() == '-' {
        let t = s.drop_last();
        if t.len() > 0 {
            assert(t.last() == s[s.len() - 2]);
            assert(s[s.len() - 2] != '-');
        }
        assert forall|i: int| 0 <= i < t.len() implies kept(#[trigger] t[i]) || t[i] == '-' by {
            assert(t[i] == s[i]);
        }
        assert forall|i: int| 0 <= i < t.len() - 1 implies !(#[trigger] t[i] == '-' && t[i + 1]
            == '-') by {
            assert(t[i] == s[i]);
        }
    }
}

proof fn lemma_squeezed_again(s: Seq<char>)
    requires
        forall|i: int| 0 <= i < s.len() ==> kept(#[trigger] s[i]) || s[i] == '-',
        forall|i: int| 0 <= i < s.len() - 1 ==> !(#[trigger] s[i] == '-' && s[i + 1] == '-'),
        s.len() > 0 ==> s[0] != '-',
    ensures
        squeezed(s) == s,
    decreases s.len(),
{
    if s.len() > 0 {
        let t = s.drop_last();
        assert forall|i: int| 0 <= i < t.len() implies kept(#[trigger] t[i]) || t[i] == '-' by {
            assert(t[i] == s[i]);
        }
        assert forall|i: int| 0 <= i < t.len() - 1 implies !(#[trigger] t[i] == '-' && t[i + 1]
            == '-') by {
            assert(t[i] == s[i]);
        }
        lemma_squeezed_again(t);
        assert(kept(s[s.len() - 1]) || s[s.len() - 1] == '-');
        if t.len() > 0 && s.last() == '-' {
            assert(!(s[s.len() - 2] == '-' && s[s.len() - 2 + 1] == '-'));
        }
        assert(t.push(s.last()) =~= s);
    }
}

/// A slug of a slug is the slug.
pub proof fn a_slug_stays_as_it_is(name: Seq<char>)
    ensures
        slug_text(slug_text(name)) == slug_text(name),
{
    a_slug_is_a_safe_name(name);
    lemma_squeezed_again(slug_text(name));
}

/// A take that ends no later by the clock than it started has run through midnight: its end
/// is counted into the next day, and so it ends after it started, as long as it started
/// within the day of the reading and the reading was not taken so long after the end that
/// reaching back to it goes past the start.
pub proof fn a_take_through_midnight_ends_after_it_started(take: Take, tc: Timecode, now: Instant)
    requires
        take.start_position <= timecode::day_span(tc.rate),
        take.start_position + (now@ - (take.begun@ + take.recorded_for@)) * tc.rate.fps
            <= timecode::position_of(tc) + timecode::day_span(tc.rate),
    ensures
        end_of(take, tc, now) >= take.start_position,
{
    assert(0 * tc.rate.fps == 0) by (nonlinear_arith);
}

/// The earlier a sample was captured, the earlier a recording starts.
pub proof fn an_earlier_sample_starts_earlier(
    tc: Timecode,
    earlier: Instant,
    begun: Instant,
    now: Instant,
)
    requires
        earlier@ <= begun@ <= now@,
    ensures
        start_of(tc, earlier, now) <= start_of(tc, begun, now),
        start_of(tc, now, now) == timecode::position_of(tc),
{
    let fps = tc.rate.fps as int;
    assert((now@ - begun@) * fps <= (now@ - earlier@) * fps) by (nonlinear_arith)
        requires
            now@ - begun@ <= now@ - earlier@,
            fps >= 0,
    ;
    assert(0 * fps == 0) by (nonlinear_arith);
}

} // verus!
