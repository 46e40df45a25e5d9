//! Showing what a scan hears: a line per device, a JSON object per reading, or the bytes
//! as they came.
//!
//! Every Tentacle in range gets a line of its own, since each keeps its own clock. When
//! nothing decodes there is nothing to draw, and a blank screen is the one thing this must
//! never be: service data whose payload has changed looks exactly like an empty room. So
//! the display says what it is taking in instead.

pub mod laws;

use vstd::prelude::*;

use crate::ble;
use crate::ble::diagnostics::{self, Census, Diagnosis};
use crate::ble::scan::{self, DeviceView, Event, ScanView, Scanner};
use crate::ble::{Date, Status};
use crate::error;
use crate::freerun::{self, Reading};
use crate::screen::{self, Line, LineView, Notice};
use crate::text;
use crate::time::{Duration, Instant};
use crate::timecode;
use crate::timecode::{Rate, Timecode};

verus! {

/// How far a device's clock has been measured to run from this host's.
///
/// It compares two free-running oscillators, this host's included, neither of them a
/// reference. It says the two disagree, never which of them is right.
#[derive(Clone, Copy, Debug, PartialEq, Eq, Structural)]
pub struct Drift {
    /// The smoothed estimate, in billionths of a part per million.
    pub ppm: i64,
    /// Whether the last measurement was past what the model will accept, so that it was
    /// clipped.
    pub clamped: bool,
    /// Whether the estimate is still on its way from nominal.
    pub settling: bool,
    /// How many measurements went into it.
    pub measurements: u64,
}

/// The absolute value of a drift.
pub open spec fn size_of(ppm: i64) -> nat {
    if ppm < 0 {
        (-ppm) as nat
    } else {
        ppm as nat
    }
}

/// How long a drift takes to add up to a frame, in nanoseconds: the length of a frame over
/// the drift. Nothing where there is no drift or no frame rate.
pub open spec fn slip_nanos(drift: Drift, rate: Rate) -> Option<nat> {
    let fps = timecode::exact_rate(rate);
    let parts = fps.num * size_of(drift.ppm);
    if parts == 0 {
        None
    } else {
        Some((fps.den * 1_000_000_000_000_000_000_000_000 / parts) as nat)
    }
}

impl Drift {
    /// How long this drift takes to add up to a frame.
    pub fn frame_slip(&self, rate: Rate) -> (slip: Option<Duration>)
        ensures
            match (slip, slip_nanos(*self, rate)) {
                (Some(d), Some(nanos)) => d.wf() && d@ == nanos,
                (None, None) => true,
                _ => false,
            },
    {
        let fps = rate.exact_fps();
        let size: u64 = if self.ppm < 0 {
            (0 - self.ppm as i128) as u64
        } else {
            self.ppm as u64
        };
        assert(size == size_of(self.ppm));
        assert(0 <= fps.num * size <= 0xffff_ffff * 0xffff_ffff_ffff_ffff) by (nonlinear_arith)
            requires
                0 <= fps.num <= 0xffff_ffff,
                0 <= size <= 0xffff_ffff_ffff_ffff,
        ;
        let parts: u128 = fps.num as u128 * size as u128;
        if parts == 0 {
            return None;
        }
        let whole: u128 = fps.den as u128 * 1_000_000_000_000_000_000_000_000;
        let nanos: u128 = whole / parts;
        assert(0 <= nanos <= whole) by (nonlinear_arith)
            requires
                nanos == whole / parts,
                parts >= 1,
        ;
        Some(Duration::from_nanos_u128(nanos))
    }
}

/// The horizon past which a slip time stops being a number, in seconds. It takes a rate of
/// 0.005 ppm to reach it at 24 fps, orders of magnitude finer than the estimate resolves.
pub const SLIP_HORIZON_SECS: u64 = 8_553_600;

/// What the slip half of the drift column says when there is no time to give.
pub open spec fn no_slip() -> Seq<char> {
    "— /frame"@
}

/// A slip time, in whatever unit keeps it readable.
pub open spec fn slip_text(nanos: nat) -> Seq<char> {
    if nanos > SLIP_HORIZON_SECS * 1_000_000_000 {
        Seq::<char>::empty() + "> "@ + text::decimal(SLIP_HORIZON_SECS as nat / 86_400)
            + " d/frame"@
    } else if nanos < 5_400 * 1_000_000_000 {
        text::fixed(nanos as int, 60_000_000_000, 0) + " min/frame"@
    } else if nanos < 172_800 * 1_000_000_000 {
        text::fixed(nanos as int, 3_600_000_000_000, 1) + " h/frame"@
    } else {
        text::fixed(nanos as int, 86_400_000_000_000, 1) + " d/frame"@
    }
}

/// A slip time in whatever unit keeps it readable.
///
/// Coarse on purpose, and coarser than the ppm beside it: a slip time quoted to the minute
/// would be inventing precision that the reciprocal has already stretched.
pub fn slip_time(d: Duration) -> (out: String)
    ensures
        out@ == slip_text(d@),
{
    let nanos: u128 = d.as_nanos();
    let mut out = String::new();
    if nanos > SLIP_HORIZON_SECS as u128 * 1_000_000_000 {
        out.push_str("> ");
        text::put_decimal(&mut out, SLIP_HORIZON_SECS as u128 / 86_400);
        out.push_str(" d/frame");
    } else if nanos < 5_400_000_000_000 {
        text::put_fixed(&mut out, nanos as i128, 60_000_000_000, 0);
        out.push_str(" min/frame");
    } else if nanos < 172_800_000_000_000 {
        text::put_fixed(&mut out, nanos as i128, 3_600_000_000_000, 1);
        out.push_str(" h/frame");
    } else {
        text::put_fixed(&mut out, nanos as i128, 86_400_000_000_000, 1);
        out.push_str(" d/frame");
    }
    assert(out@ =~= slip_text(d@));
    out
}

/// The mark in front of a drift: `!` where it is not believed, else `~` where it is still
/// converging.
pub open spec fn drift_mark(drift: Drift) -> Seq<char> {
    if drift.clamped {
        "!"@
    } else if drift.settling {
        "~"@
    } else {
        ""@
    }
}

/// A drift column's text.
pub open spec fn drift_text(drift: Option<Drift>, rate: Rate) -> Seq<char> {
    match drift {
        None => "— ppm"@,
        Some(drift) => drift_mark(drift) + text::fixed_with_sign(drift.ppm as int, 1_000_000_000, 1)
            + " ppm  "@ + (match slip_nanos(drift, rate) {
            Some(nanos) => slip_text(nanos),
            None => no_slip(),
        }),
    }
}

/// One device's clock drift, said in a way that can't be read as more than it is.
///
/// Where nothing is measured yet that is not reported as zero. An estimate still
/// converging is marked, and so is one that is not believed.
pub fn drift_column(drift: Option<Drift>, rate: Rate) -> (out: String)
    ensures
        out@ == drift_text(drift, rate),
{
    let drift = match drift {
        None => {
            return "— ppm".to_owned();
        },
        Some(drift) => drift,
    };
    let mut out = String::new();
    out.push_str(
        if drift.clamped {
            "!"
        } else if drift.settling {
            "~"
        } else {
            ""
        },
    );
    text::put_fixed_with_sign(&mut out, drift.ppm as i128, 1_000_000_000, 1);
    out.push_str(" ppm  ");
    match drift.frame_slip(rate) {
        Some(slip) => out.push_str(slip_time(slip).as_str()),
        None => out.push_str("— /frame"),
    }
    assert(out@ =~= drift_text(Some(drift), rate));
    out
}

/// One device's line, before it's laid out.
#[derive(Debug)]
pub struct Row {
    /// First timecode, then id to break a tie: where this line sits, and fixed for as long
    /// as the device keeps it.
    pub order: (Instant, String),
    pub tc: Timecode,
    pub name: String,
    pub date: Option<Date>,
    pub rssi: Option<i16>,
    pub battery: Option<Status>,
    /// `None` until this device has been heard from for long enough to measure.
    pub drift: Option<Drift>,
    pub note: String,
}

/// A battery column, where the charge is known. Right-aligned, and the charging marker
/// takes its two columns whether or not it's showing.
pub open spec fn battery_column(battery: Option<Status>) -> Seq<char> {
    match battery {
        None => Seq::empty(),
        Some(b) => "   "@ + text::decimal_column(b.battery_percent as nat, 3) + "%"@
            + if b.charging {
            " +"@
        } else {
            "  "@
        },
    }
}

/// What stands behind a line's common columns: the battery, the drift if it was asked for,
/// and the note. The drift column holds its width whether or not there's a figure yet.
pub open spec fn tail_text(
    battery: Option<Status>,
    drift: Option<Drift>,
    rate: Rate,
    show_drift: bool,
    note: Seq<char>,
) -> Seq<char> {
    battery_column(battery) + (if show_drift {
        "   "@ + text::pad_start(drift_text(drift, rate), 26, ' ')
    } else {
        Seq::empty()
    }) + note
}

/// The line that a row is written on.
pub open spec fn row_line(row: Row, show_drift: bool) -> LineView {
    LineView {
        first: row.order.0,
        id: row.order.1@,
        tc: row.tc,
        name: row.name@,
        date: row.date,
        rssi: row.rssi,
        tail: tail_text(row.battery, row.drift, row.tc.rate, show_drift, row.note@),
    }
}

/// The lines that rows are written on.
pub open spec fn row_lines(rows: Seq<Row>, show_drift: bool) -> Seq<LineView> {
    rows.map_values(|row: Row| row_line(row, show_drift))
}

fn line_of(row: &Row, show_drift: bool) -> (line: Line)
    ensures
        line@ == row_line(*row, show_drift),
{
    let mut tail = String::new();
    match &row.battery {
        Some(b) => {
            tail.push_str("   ");
            text::put_decimal_column(&mut tail, b.battery_percent as u128, 3);
            tail.push_str("%");
            tail.push_str(
                if b.charging {
                    " +"
                } else {
                    "  "
                },
            );
        },
        None => {},
    }
    assert(tail@ =~= battery_column(row.battery));
    if show_drift {
        tail.push_str("   ");
        let column = drift_column(row.drift, row.tc.rate);
        text::put_pad_start(&mut tail, column.as_str(), 26, ' ');
    }
    tail.push_str(row.note.as_str());
    assert(tail@ =~= tail_text(row.battery, row.drift, row.tc.rate, show_drift, row.note@));
    Line {
        first: row.order.0,
        id: row.order.1.clone(),
        tc: row.tc,
        name: row.name.clone(),
        date: row.date,
        rssi: row.rssi,
        tail,
    }
}

/// Puts the rows in a fixed order and formats each one into a line.
///
/// The order has to come out the same on every redraw: sorting on first-timecode is what
/// keeps two boxes from swapping places.
pub fn lay_out(rows: Vec<Row>, show_drift: bool) -> (lines: Vec<String>)
    ensures
        screen::texts(lines@) == screen::drawn_lines(row_lines(rows@, show_drift)),
{
    let mut lines: Vec<Line> = Vec::new();
    let mut i: usize = 0;
    while i < rows.len()
        invariant
            i <= rows@.len(),
            lines@.len() == i,
            forall|k: int| 0 <= k < i ==> (#[trigger] lines@[k])@ == row_line(rows@[k], show_drift),
        decreases rows@.len() - i,
    {
        lines.push(line_of(&rows[i], show_drift));
        i = i + 1;
    }
    assert(screen::views(lines@) =~= row_lines(rows@, show_drift));
    screen::lay_out(lines)
}

/// What a diagnosis says.
pub open spec fn diagnosis_text(d: Diagnosis, filter: Option<Seq<char>>) -> Seq<char> {
    match d {
        Diagnosis::SilentScan =>
            "no timecode: not one BLE advertisement of any kind has arrived, so nothing is reaching this process — suspect the scan, not the Tentacles"@,
        Diagnosis::FilteredOut { devices } => Seq::<char>::empty() + "no timecode: "@
            + screen::tally_text(devices as nat, "BLE device"@) + " in range, none named like "@
            + text::quoted(
            match filter {
                Some(filter) => filter,
                None => ""@,
            },
        ) + " — try again without --name"@,
        Diagnosis::NothingAdvertising { devices } => Seq::<char>::empty() + "no timecode: "@
            + screen::tally_text(devices as nat, "BLE device"@)
            + " in range, none of which has advertised anything"@,
        Diagnosis::Unreadable { name, payload, advertisers, payloads, unparsed } => Seq::<
            char,
        >::empty() + "no timecode: "@ + screen::tally_text(advertisers as nat, "device"@)
            + " advertising "@ + error::service_text() + ", but "@ + text::decimal(unparsed as nat)
            + " of "@ + text::decimal(payloads as nat) + " payloads did not decode — "@ + name@
            + " last sent "@ + text::hex_spaced(payload@)
            + " (--raw -a dumps them all; see PROTOCOL.md)"@,
        Diagnosis::DatesOnly { advertisers, payloads } => Seq::<char>::empty() + "no timecode: "@
            + screen::tally_text(advertisers as nat, "device"@) + " advertising "@
            + error::service_text() + " and all "@ + text::decimal(payloads as nat)
            + " payloads decoded, but none has carried timecode yet — dates only so far"@,
        Diagnosis::NoTentacle { matched } => Seq::<char>::empty() + "no timecode: "@
            + screen::tally_text(matched as nat, "BLE device"@) + " in range, none advertising "@
            + error::service_text() + " — no Tentacle here"@,
    }
}

/// A filter, as a text.
pub open spec fn filter_text(filter: Option<&str>) -> Option<Seq<char>> {
    match filter {
        Some(filter) => Some(filter@),
        None => None,
    }
}

/// One line saying what the scan is taking in, for when none of it decodes.
///
/// Every case points at something the reader can act on, since the alternative is a blank
/// screen that means all of them at once.
pub fn describe(diagnosis: &Diagnosis, filter: Option<&str>) -> (out: String)
    ensures
        out@ == diagnosis_text(*diagnosis, filter_text(filter)),
{
    let mut out = String::new();
    match diagnosis {
        Diagnosis::SilentScan => {
            out.push_str(
                "no timecode: not one BLE advertisement of any kind has arrived, so nothing is reaching this process — suspect the scan, not the Tentacles",
            );
            assert(out@ =~= diagnosis_text(*diagnosis, filter_text(filter)));
        },
        Diagnosis::FilteredOut { devices } => {
            out.push_str("no timecode: ");
            out.push_str(screen::tally(*devices, "BLE device").as_str());
            out.push_str(" in range, none named like ");
            let want: &str = match filter {
                Some(filter) => filter,
                None => "",
            };
            out.push_str(text::quote(want).as_str());
            out.push_str(" — try again without --name");
        },
        Diagnosis::NothingAdvertising { devices } => {
            out.push_str("no timecode: ");
            out.push_str(screen::tally(*devices, "BLE device").as_str());
            out.push_str(" in range, none of which has advertised anything");
        },
        Diagnosis::Unreadable { name, payload, advertisers, payloads, unparsed } => {
            out.push_str("no timecode: ");
            out.push_str(screen::tally(*advertisers, "device").as_str());
            out.push_str(" advertising ");
            error::put_service(&mut out);
            out.push_str(", but ");
            text::put_decimal(&mut out, *unparsed as u128);
            out.push_str(" of ");
            text::put_decimal(&mut out, *payloads as u128);
            out.push_str(" payloads did not decode — ");
            out.push_str(name.as_str());
            out.push_str(" last sent ");
            out.push_str(text::hex(payload.as_slice()).as_str());
            out.push_str(" (--raw -a dumps them all; see PROTOCOL.md)");
        },
        Diagnosis::DatesOnly { advertisers, payloads } => {
            out.push_str("no timecode: ");
            out.push_str(screen::tally(*advertisers, "device").as_str());
            out.push_str(" advertising ");
            error::put_service(&mut out);
            out.push_str(" and all ");
            text::put_decimal(&mut out, *payloads as u128);
            out.push_str(
                " payloads decoded, but none has carried timecode yet — dates only so far",
            );
        },
        Diagnosis::NoTentacle { matched } => {
            out.push_str("no timecode: ");
            out.push_str(screen::tally(*matched, "BLE device").as_str());
            out.push_str(" in range, none advertising ");
            error::put_service(&mut out);
            out.push_str(" — no Tentacle here");
        },
    }
    out
}

/// What is on the screen.
#[derive(Debug)]
pub struct Screen {
    /// How many lines the last redraw left, which is what the next one has to move the
    /// cursor back up by.
    pub drawn: usize,
    pub notice: Notice,
}

/// What a redraw writes: to the diagnostics, to the display, and to the diagnostics again.
#[derive(Debug)]
pub struct Painting {
    pub wiped: String,
    pub drawn: String,
    pub said: String,
}

/// The note on a line that has lost its signal.
pub open spec fn lost_note(since: nat) -> Seq<char> {
    Seq::<char>::empty() + "   no signal for "@ + text::fixed(since as int, 1_000_000_000, 1) + "s"@
}

/// What a device is called.
pub open spec fn called(d: DeviceView) -> Seq<char> {
    match d.name {
        Some(name) => name,
        None => "<unnamed>"@,
    }
}

/// A device's line, with this timecode and note on it.
pub open spec fn device_line(
    d: DeviceView,
    first: Instant,
    tc: Timecode,
    drift: Option<Drift>,
    show_drift: bool,
    note: Seq<char>,
) -> LineView {
    LineView {
        first,
        id: screen::short_id_text(d.id),
        tc,
        name: called(d),
        date: d.date,
        rssi: d.rssi,
        tail: tail_text(d.battery, drift, tc.rate, show_drift, note),
    }
}

/// The line a device gets, if it gets one. A device with no clock gets none. Off the air it
/// freezes on the last reading that actually arrived and says how long ago, and past
/// [`LINGER_SECS`](screen::LINGER_SECS) it gets none either.
pub open spec fn line_for(
    d: DeviceView,
    now: Instant,
    drift: Option<Drift>,
    show_drift: bool,
) -> Option<LineView> {
    match d.first_timecode {
        None => None,
        Some(first) => match freerun::shown(d.clock, now) {
            None => None,
            Some(Reading::Running(tc)) => Some(
                device_line(d, first, tc, drift, show_drift, Seq::empty()),
            ),
            Some(Reading::Lost { last, since }) => if since@ > screen::LINGER_SECS * 1_000_000_000 {
                None
            } else {
                Some(device_line(d, first, last, drift, show_drift, lost_note(since@)))
            },
        },
    }
}

/// The drift given for a device; those past the end of the list have none.
pub open spec fn drift_at(drifts: Seq<Option<Drift>>, slot: int) -> Option<Drift> {
    if 0 <= slot < drifts.len() {
        drifts[slot]
    } else {
        None
    }
}

/// The lines that devices get.
pub open spec fn lines_for(
    devices: Seq<DeviceView>,
    now: Instant,
    drifts: Seq<Option<Drift>>,
    show_drift: bool,
) -> Seq<LineView>
    decreases devices.len(),
{
    if devices.len() == 0 {
        Seq::empty()
    } else {
        let before = lines_for(devices.drop_last(), now, drifts, show_drift);
        match line_for(
            devices.last(),
            now,
            drift_at(drifts, devices.len() - 1),
            show_drift,
        ) {
            Some(line) => before.push(line),
            None => before,
        }
    }
}

/// A device after its line was drawn: its clock was read, if it has one.
pub open spec fn drawn_device(d: DeviceView, now: Instant) -> DeviceView {
    if d.first_timecode is Some {
        DeviceView { clock: freerun::after_sample(d.clock, now), ..d }
    } else {
        d
    }
}

/// A scan after a redraw.
pub open spec fn drawn_scan(s: ScanView, now: Instant) -> ScanView {
    ScanView { devices: s.devices.map_values(|d: DeviceView| drawn_device(d, now)), ..s }
}

/// A diagnosis is that of a scan.
pub open spec fn is_diagnosis_of(d: Diagnosis, s: ScanView) -> bool {
    exists|census: Census| #[trigger]
        scan::is_census(census, s.devices) && diagnostics::is_diagnosis(
            d,
            census,
            s.filter is Some,
        )
}

/// What the notice does on a redraw with nothing to draw, once the grace is over: it shows
/// the scan's diagnosis.
pub open spec fn says_why(
    s: ScanView,
    filter: Option<Seq<char>>,
    before: Notice,
    after: Notice,
    said: Seq<char>,
) -> bool {
    exists|d: Diagnosis| #[trigger]
        is_diagnosis_of(d, s) && screen::shows(
            before,
            after,
            diagnostics::key_text(d),
            diagnosis_text(d, filter),
            said,
        )
}

/// The line that a row is written on, where there is a row.
pub open spec fn line_in(row: Option<Row>, show_drift: bool) -> Option<LineView> {
    match row {
        Some(row) => Some(row_line(row, show_drift)),
        None => None,
    }
}

fn row_of(scan: &mut Scanner, slot: usize, now: Instant, drift: Option<Drift>) -> (row: Option<Row>)
    requires
        slot < old(scan)@.devices.len(),
        now.wf(),
    ensures
        forall|show_drift: bool| #[trigger]
            line_for(old(scan)@.devices[slot as int], now, drift, show_drift) == line_in(
                row,
                show_drift,
            ),
        final(scan)@ == (ScanView {
            devices: old(scan)@.devices.update(
                slot as int,
                drawn_device(old(scan)@.devices[slot as int], now),
            ),
            ..old(scan)@
        }),
{
    let ghost devices = scan@.devices;
    let ghost d = devices[slot as int];
    let device = &scan.devices()[slot];
    assert(device@ == d);
    let first = match device.first_timecode() {
        Some(first) => first,
        None => {
            assert(devices.update(slot as int, d) =~= devices);
            return None;
        },
    };
    let id = screen::short_id(device.id().as_str());
    let name: String = match device.name() {
        Some(name) => name.to_owned(),
        None => "<unnamed>".to_owned(),
    };
    let date = device.date();
    let rssi = device.rssi();
    let battery = device.battery();
    let reading = match scan.reading_at(slot, now) {
        Some(reading) => reading,
        None => {
            return None;
        },
    };
    let mut note = String::new();
    let tc: Timecode = match reading {
        Reading::Running(tc) => {
            assert(note@ =~= Seq::empty());
            tc
        },
        Reading::Lost { last, since } => {
            if since.as_nanos() > screen::LINGER_SECS as u128 * 1_000_000_000 {
                return None;
            }
            note.push_str("   no signal for ");
            text::put_fixed(&mut note, since.as_nanos() as i128, 1_000_000_000, 1);
            note.push_str("s");
            last
        },
    };
    Some(Row { order: (first, id), tc, name, date, rssi, battery, drift, note })
}

/// Draws a line per device from that device's free-running clock, so each ticks between
/// its own advertisements instead of only when one lands.
///
/// The diagnostic and the display want the same line, so only one of them may hold it: the
/// line is given up before the display draws over it, and claimed only after a redraw that
/// blanks vacated lines. `drifts` are the devices' measured drifts, in the order of the
/// devices.
pub fn render(
    scan: &mut Scanner,
    screen: &mut Screen,
    now: Instant,
    filter: Option<&str>,
    elapsed: Duration,
    drifts: &[Option<Drift>],
    show_drift: bool,
) -> (painting: Painting)
    requires
        now.wf(),
    ensures
        final(scan)@ == drawn_scan(old(scan)@, now),
        ({
            let lines = lines_for(old(scan)@.devices, now, drifts@, show_drift);
            &&& final(screen).drawn == lines.len()
            &&& painting.drawn@ == screen::redraw_text(
                screen::drawn_lines(lines),
                old(screen).drawn as nat,
            )
            &&& lines.len() > 0 ==> {
                &&& painting.wiped@ == screen::wiped(old(screen).notice)
                &&& painting.said@ == Seq::<char>::empty()
                &&& final(screen).notice.tty == old(screen).notice.tty
                &&& final(screen).notice.shown is None
                &&& final(screen).notice.key is None
            }
            &&& lines.len() == 0 ==> painting.wiped@ == Seq::<char>::empty()
            &&& lines.len() == 0 && elapsed@ < screen::GRACE_SECS * 1_000_000_000 ==> {
                &&& painting.said@ == Seq::<char>::empty()
                &&& final(screen).notice == old(screen).notice
            }
            &&& lines.len() == 0 && elapsed@ >= screen::GRACE_SECS * 1_000_000_000 ==> says_why(
                final(scan)@,
                filter_text(filter),
                old(screen).notice,
                final(screen).notice,
                painting.said@,
            )
        }),
{
    let mut rows: Vec<Row> = Vec::new();
    let mut i: usize = 0;
    let ghost devices = scan@.devices;
    let ghost lines = lines_for(devices, now, drifts@, show_drift);
    let n: usize = scan.devices().len();
    assert(n == devices.len());
    assert(devices.take(0) =~= Seq::empty());
    assert(row_lines(rows@, show_drift) =~= Seq::empty());
    while i < n
        invariant
            i <= n,
            n == devices.len(),
            now.wf(),
            scan@.devices.len() == n,
            scan@.filter == old(scan)@.filter,
            scan@.pending == old(scan)@.pending,
            devices == old(scan)@.devices,
            forall|k: int|
                0 <= k < i ==> #[trigger] scan@.devices[k] == drawn_device(devices[k], now),
            forall|k: int| i <= k < n ==> #[trigger] scan@.devices[k] == devices[k],
            row_lines(rows@, show_drift) == lines_for(
                devices.take(i as int),
                now,
                drifts@,
                show_drift,
            ),
        decreases n - i,
    {
        assert(devices.take(i + 1).drop_last() =~= devices.take(i as int));
        let drift: Option<Drift> = if i < drifts.len() {
            drifts[i]
        } else {
            None
        };
        let ghost before = rows@;
        if let Some(row) = row_of(scan, i, now, drift) {
            assert(row_lines(before.push(row), show_drift) =~= row_lines(before, show_drift).push(
                row_line(row, show_drift),
            ));
            rows.push(row);
        }
        i = i + 1;
    }
    assert(devices.take(i as int) =~= devices);
    assert(scan@.devices =~= drawn_scan(old(scan)@, now).devices);
    let laid = lay_out(rows, show_drift);
    proof {
        assert(screen::texts(laid@).len() == laid@.len());
        screen::every_line_sits_in_its_place(lines);
    }
    let mut wiped = String::new();
    assert(wiped@ =~= Seq::<char>::empty());
    if laid.len() > 0 {
        wiped = screen.notice.clear();
    }
    let drawn = screen::redraw(laid.as_slice(), screen.drawn);
    screen.drawn = laid.len();
    let mut said = String::new();
    assert(said@ =~= Seq::<char>::empty());
    if laid.len() == 0 && elapsed.as_nanos() >= screen::GRACE_SECS as u128 * 1_000_000_000 {
        let diagnosis = scan.diagnosis();
        assert(is_diagnosis_of(diagnosis, scan@));
        said = screen.notice.show(diagnosis.key(), describe(&diagnosis, filter));
    }
    Painting { wiped, drawn, said }
}

/// A date in quotes, or `null`.
pub open spec fn json_date(date: Option<Date>) -> Seq<char> {
    match date {
        Some(date) => Seq::<char>::empty() + "\""@ + ble::date_text(date) + "\""@,
        None => "null"@,
    }
}

pub(crate) fn put_json_date(out: &mut String, date: Option<Date>)
    ensures
        final(out)@ == old(out)@ + json_date(date),
{
    match date {
        Some(date) => {
            out.push_str("\"");
            out.push_str(date.to_string().as_str());
            out.push_str("\"");
        },
        None => out.push_str("null"),
    }
    assert(out@ =~= old(out)@ + json_date(date));
}

/// A signal strength, or `null`.
pub open spec fn json_rssi(rssi: Option<i16>) -> Seq<char> {
    match rssi {
        Some(rssi) => text::signed_decimal(rssi as int),
        None => "null"@,
    }
}

pub(crate) fn put_json_rssi(out: &mut String, rssi: Option<i16>)
    ensures
        final(out)@ == old(out)@ + json_rssi(rssi),
{
    match rssi {
        Some(rssi) => text::put_signed(out, rssi as i64),
        None => out.push_str("null"),
    }
}

/// A charge and whether it is charging, or `null` and `null`.
pub open spec fn json_battery(battery: Option<Status>) -> Seq<char> {
    match battery {
        Some(b) => text::decimal(b.battery_percent as nat) + ",\"charging\":"@ + text::bool_text(
            b.charging,
        ),
        None => "null,\"charging\":null"@,
    }
}

fn put_json_battery(out: &mut String, battery: Option<Status>)
    ensures
        final(out)@ == old(out)@ + json_battery(battery),
{
    match battery {
        Some(b) => {
            text::put_decimal(out, b.battery_percent as u128);
            out.push_str(",\"charging\":");
            text::put_bool(out, b.charging);
        },
        None => out.push_str("null,\"charging\":null"),
    }
    assert(out@ =~= old(out)@ + json_battery(battery));
}

/// What is known of a drift, or `null` throughout. Null rather than zero until a baseline
/// has been measured: a zero here would be a claim and not a reading.
pub open spec fn json_drift(drift: Option<Drift>, rate: Rate) -> Seq<char> {
    match drift {
        Some(d) => text::fixed(d.ppm as int, 1_000_000_000, 3) + ",\"drift_clamped\":"@
            + text::bool_text(d.clamped) + ",\"drift_measurements\":"@ + text::decimal(
            d.measurements as nat,
        ) + ",\"frame_slip_seconds\":"@ + (match slip_nanos(d, rate) {
            Some(nanos) => text::fixed(nanos as int, 1_000_000_000, 1),
            None => "null"@,
        }),
        None =>
            "null,\"drift_clamped\":null,\"drift_measurements\":null,\"frame_slip_seconds\":null"@,
    }
}

fn put_json_drift(out: &mut String, drift: Option<Drift>, rate: Rate)
    ensures
        final(out)@ == old(out)@ + json_drift(drift, rate),
{
    match drift {
        Some(d) => {
            text::put_fixed(out, d.ppm as i128, 1_000_000_000, 3);
            out.push_str(",\"drift_clamped\":");
            text::put_bool(out, d.clamped);
            out.push_str(",\"drift_measurements\":");
            text::put_decimal(out, d.measurements as u128);
            out.push_str(",\"frame_slip_seconds\":");
            match d.frame_slip(rate) {
                Some(slip) => text::put_fixed(out, slip.as_nanos() as i128, 1_000_000_000, 1),
                None => out.push_str("null"),
            }
        },
        None => out.push_str(
            "null,\"drift_clamped\":null,\"drift_measurements\":null,\"frame_slip_seconds\":null",
        ),
    }
    assert(out@ =~= old(out)@ + json_drift(drift, rate));
}

/// The fields of a reading that it has of itself.
pub open spec fn json_timecode(tc: Timecode) -> Seq<char> {
    Seq::<char>::empty() + "{\"timecode\":\""@ + timecode::timecode_text(tc) + "\",\"hours\":"@
        + text::decimal(tc.hours as nat) + ",\"minutes\":"@ + text::decimal(tc.minutes as nat)
        + ",\"seconds\":"@ + text::decimal(tc.seconds as nat) + ",\"frames\":"@ + text::decimal(
        tc.frames as nat,
    ) + ",\"subframe_micros\":"@ + text::decimal(tc.subframe@ / 1_000) + ",\"fps\":"@
        + text::decimal(tc.rate.fps as nat)
}

pub(crate) fn json_head(tc: &Timecode) -> (out: String)
    ensures
        out@ == json_timecode(*tc),
{
    let mut out = String::new();
    out.push_str("{\"timecode\":\"");
    out.push_str(tc.to_string().as_str());
    out.push_str("\",\"hours\":");
    text::put_decimal(&mut out, tc.hours as u128);
    out.push_str(",\"minutes\":");
    text::put_decimal(&mut out, tc.minutes as u128);
    out.push_str(",\"seconds\":");
    text::put_decimal(&mut out, tc.seconds as u128);
    out.push_str(",\"frames\":");
    text::put_decimal(&mut out, tc.frames as u128);
    out.push_str(",\"subframe_micros\":");
    text::put_decimal(&mut out, tc.subframe.as_micros());
    out.push_str(",\"fps\":");
    text::put_decimal(&mut out, tc.rate.fps as u128);
    out
}

/// How long after `start` a moment is; nothing where it is before.
pub open spec fn micros_since(start: Instant, at: Instant) -> nat {
    if at@ >= start@ {
        ((at@ - start@) / 1_000) as nat
    } else {
        0
    }
}

/// A reading as a JSON object.
pub open spec fn json_text(
    d: DeviceView,
    tc: Timecode,
    drift: Option<Drift>,
    start: Instant,
    at: Instant,
) -> Seq<char> {
    json_timecode(tc) + ",\"device\":\""@ + called(d) + "\",\"date\":"@ + json_date(d.date)
        + ",\"rssi\":"@ + json_rssi(d.rssi) + ",\"battery_percent\":"@ + json_battery(d.battery)
        + ",\"drift_ppm\":"@ + json_drift(drift, tc.rate) + ",\"host_micros\":"@ + text::decimal(
        micros_since(start, at),
    ) + "}"@
}

/// One JSON object per reading that actually arrived, uninterpolated. Nothing for any
/// other event, and nothing for a device the scan does not know.
///
/// `host_micros` is this computer's clock at the moment the advertisement came off the
/// stream, in microseconds since `start`.
pub fn report_json(scan: &Scanner, start: Instant, event: &Event, drift: Option<Drift>) -> (out:
    Option<String>)
    requires
        event matches Event::Timecode { at, .. } ==> at.wf(),
    ensures
        match (*event, scan::slot_of(scan@.devices, event@.id())) {
            (Event::Timecode { timecode, at, .. }, Some(slot)) => out matches Some(line) && line@
                == json_text(scan@.devices[slot], timecode, drift, start, at),
            _ => out is None,
        },
{
    let (id, tc, at) = match event {
        Event::Timecode { id, timecode, at } => (id, timecode, at),
        _ => {
            return None;
        },
    };
    let device = match scan.device(id) {
        Some(device) => device,
        None => {
            return None;
        },
    };
    let mut out = json_head(tc);
    out.push_str(",\"device\":\"");
    out.push_str(
        match device.name() {
            Some(name) => name,
            None => "<unnamed>",
        },
    );
    out.push_str("\",\"date\":");
    put_json_date(&mut out, device.date());
    out.push_str(",\"rssi\":");
    put_json_rssi(&mut out, device.rssi());
    out.push_str(",\"battery_percent\":");
    put_json_battery(&mut out, device.battery());
    out.push_str(",\"drift_ppm\":");
    put_json_drift(&mut out, drift, tc.rate);
    out.push_str(",\"host_micros\":");
    text::put_decimal(&mut out, at.saturating_duration_since(start).as_micros());
    out.push_str("}");
    Some(out)
}

/// A slip time says nothing about which clock is ahead: the sign belongs to the drift, and
/// how long two clocks take to part is the same either way.
pub proof fn a_slip_time_has_no_direction(drift: Drift, other: Drift, rate: Rate)
    requires
        other.ppm == -drift.ppm,
    ensures
        slip_nanos(drift, rate) == slip_nanos(other, rate),
{
}

/// A smaller drift takes no less time to add up to a frame.
pub proof fn a_smaller_drift_takes_longer(drift: Drift, smaller: Drift, rate: Rate)
    requires
        size_of(smaller.ppm) <= size_of(drift.ppm),
    ensures
        match (slip_nanos(drift, rate), slip_nanos(smaller, rate)) {
            (Some(nanos), Some(longer)) => nanos <= longer,
            (None, longer) => longer is None,
            _ => true,
        },
{
    let fps = timecode::exact_rate(rate);
    let parts = fps.num * size_of(drift.ppm);
    let fewer = fps.num * size_of(smaller.ppm);
    assert(fewer <= parts) by (nonlinear_arith)
        requires
            parts == fps.num * size_of(drift.ppm),
            fewer == fps.num * size_of(smaller.ppm),
            size_of(smaller.ppm) <= size_of(drift.ppm),
            fps.num >= 0,
    ;
    assert(fewer >= 0) by (nonlinear_arith)
        requires
            fewer == fps.num * size_of(smaller.ppm),
            fps.num >= 0,
            size_of(smaller.ppm) >= 0,
    ;
    let whole = fps.den * 1_000_000_000_000_000_000_000_000;
    if fewer > 0 {
        vstd::arithmetic::div_mod::lemma_div_is_ordered_by_denominator(
            whole as int,
            fewer as int,
            parts as int,
        );
        vstd::arithmetic::div_mod::lemma_div_pos_is_pos(whole as int, parts as int);
        vstd::arithmetic::div_mod::lemma_div_pos_is_pos(whole as int, fewer as int);
        assert(whole as int / parts as int <= whole as int / fewer as int);
    }
}

/// The battery column keeps its width at every charge, charging or not, so that neither a
/// single-digit charge nor a device on a cable shunts the note sideways.
pub proof fn the_battery_column_keeps_its_width(battery: Status)
    requires
        battery.battery_percent <= 100,
    ensures
        battery_column(Some(battery)).len() == 9,
{
    reveal_strlit("   ");
    reveal_strlit("%");
    reveal_strlit(" +");
    reveal_strlit("  ");
    reveal_with_fuel(text::decimal, 4);
}

/// The drift column holds its width before it has a figure: what stands behind it does not
/// move when one arrives.
pub proof fn the_drift_column_holds_its_width(
    battery: Option<Status>,
    drift: Option<Drift>,
    rate: Rate,
    note: Seq<char>,
)
    requires
        drift_text(drift, rate).len() <= 26,
    ensures
        tail_text(battery, drift, rate, true, note).len() == tail_text(
            battery,
            None,
            rate,
            true,
            note,
        ).len(),
{
    reveal_strlit("— ppm");
}

/// Without being asked for, the drift column is not there.
pub proof fn the_drift_column_is_absent_unless_asked_for(
    battery: Option<Status>,
    drift: Option<Drift>,
    rate: Rate,
    note: Seq<char>,
)
    ensures
        tail_text(battery, drift, rate, false, note) == battery_column(battery) + note,
{
    assert(tail_text(battery, drift, rate, false, note) =~= battery_column(battery) + note);
}

} // verus!
