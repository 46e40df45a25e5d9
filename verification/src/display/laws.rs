//! What the figures of the display mean.

use vstd::prelude::*;

use crate::ble::diagnostics::Diagnosis;
use crate::ble::scan::DeviceView;
use crate::ble::Status;
use crate::display;
use crate::display::Drift;
use crate::freerun::{self, Reading};
use crate::screen;
use crate::text;
use crate::time::Instant;
use crate::timecode;
use crate::timecode::{Rate, Timecode};

verus! {

/// How long a drift takes to add up to a frame is the time in which the drift comes to the
/// length of a frame, to a nanosecond below. There is no such time without a drift or without
/// a frame rate. A drift is in billionths of a part per million.
pub proof fn a_drift_adds_up_to_a_frame_in_that_time(drift: Drift, rate: Rate)
    ensures
        ({
            let size: int = if drift.ppm < 0 {
                -drift.ppm
            } else {
                drift.ppm as int
            };
            let slip = display::slip_nanos(drift, rate);
            let thousand_frames: int = if rate.drop_frame {
                1_001_000_000_000
            } else {
                1_000_000_000_000
            };
            &&& slip is None <==> drift.ppm == 0 || rate.fps == 0
            &&& slip matches Some(nanos) ==> {
                &&& nanos * (1_000 * (rate.fps * size)) <= thousand_frames
                    * 1_000_000_000_000_000
                &&& thousand_frames * 1_000_000_000_000_000 < (nanos + 1) * (1_000 * (rate.fps
                    * size))
            }
        }),
{
    let size = display::size_of(drift.ppm) as int;
    let exact = timecode::exact_rate(rate);
    let num = exact.num as int;
    let den = exact.den as int;
    let fps = rate.fps as int;
    let parts = num * size;
    assert(parts == 0 <==> (size == 0 || num == 0)) by (nonlinear_arith)
        requires
            parts == num * size,
    ;
    assert(parts >= 0) by (nonlinear_arith)
        requires
            parts == num * size,
            num >= 0,
            size >= 0,
    ;
    if parts > 0 {
        let whole = den * 1_000_000_000_000_000_000_000_000;
        let nanos = whole / parts;
        vstd::arithmetic::div_mod::lemma_fundamental_div_mod(whole, parts);
        vstd::arithmetic::div_mod::lemma_mod_bound(whole, parts);
        vstd::arithmetic::div_mod::lemma_div_pos_is_pos(whole, parts);
        assert(nanos * parts <= whole && whole < (nanos + 1) * parts) by (nonlinear_arith)
            requires
                whole == parts * nanos + whole % parts,
                0 <= whole % parts < parts,
        ;
        if rate.drop_frame {
            assert(parts == 1_000 * (fps * size)) by (nonlinear_arith)
                requires
                    parts == num * size,
                    num == fps * 1000,
            ;
        } else {
            assert(nanos * (1_000 * (fps * size)) == 1_000 * (nanos * parts) && (nanos + 1) * (1_000
                * (fps * size)) == 1_000 * ((nanos + 1) * parts)) by (nonlinear_arith)
                requires
                    parts == fps * size,
            ;
        }
    }
}

/// A time for a frame to slip is written in minutes up to an hour and a half, in hours up to
/// two days and in days up to 99 of them, to the nearest minute or to the nearest tenth of an
/// hour or day; past that only that it is more.
pub proof fn a_slip_time_is_the_nearest(nanos: nat)
    ensures
        ({
            let s = display::slip_text(nanos);
            let second: int = 1_000_000_000;
            &&& nanos < 90 * 60 * second ==> exists|figure: Seq<char>|
                s == #[trigger] (figure + " min/frame"@) && text::laws::is_figure(
                    figure,
                    nanos as int,
                    60 * second,
                    0,
                    1,
                )
            &&& 90 * 60 * second <= nanos < 48 * 3_600 * second ==> exists|figure: Seq<char>|
                s == #[trigger] (figure + " h/frame"@) && text::laws::is_figure(
                    figure,
                    nanos as int,
                    3_600 * second,
                    1,
                    10,
                )
            &&& 48 * 3_600 * second <= nanos <= 99 * 86_400 * second ==> exists|figure: Seq<char>|
                s == #[trigger] (figure + " d/frame"@) && text::laws::is_figure(
                    figure,
                    nanos as int,
                    86_400 * second,
                    1,
                    10,
                )
            &&& nanos > 99 * 86_400 * second ==> s == "> 99 d/frame"@
        }),
{
    text::laws::lemma_is_figure(nanos as int, 60_000_000_000, 0);
    text::laws::lemma_is_figure(nanos as int, 3_600_000_000_000, 1);
    text::laws::lemma_is_figure(nanos as int, 86_400_000_000_000, 1);
    if nanos > 99 * 86_400 * 1_000_000_000 {
        reveal_strlit("> 99 d/frame");
        reveal_strlit("> ");
        reveal_strlit(" d/frame");
        reveal_with_fuel(text::decimal, 3);
        assert(display::slip_text(nanos) =~= "> 99 d/frame"@);
    }
}

/// A drift is written with its sign, to the nearest tenth of a part per million, behind an
/// exclamation mark where it is not believed and else behind a tilde where it is still
/// settling; behind it stands how long it takes to add up to a frame. Where none was measured
/// that is not written as zero.
pub proof fn a_written_drift_is_the_nearest(drift: Drift, rate: Rate)
    ensures
        ({
            let s = display::drift_text(Some(drift), rate);
            let size: int = if drift.ppm < 0 {
                -drift.ppm
            } else {
                drift.ppm as int
            };
            exists|mark: Seq<char>, sign: char, figure: Seq<char>, slip: Seq<char>|
                {
                    &&& s == #[trigger] (mark + (seq![sign] + figure) + " ppm  "@ + slip)
                    &&& mark == (if drift.clamped {
                        "!"@
                    } else if drift.settling {
                        "~"@
                    } else {
                        ""@
                    })
                    &&& sign == (if drift.ppm < 0 {
                        '-'
                    } else {
                        '+'
                    })
                    &&& text::laws::is_figure(figure, size, 1_000_000_000, 1, 10)
                    &&& match display::slip_nanos(drift, rate) {
                        Some(nanos) => slip == display::slip_text(nanos),
                        None => slip == "— /frame"@,
                    }
                }
        }),
        display::drift_text(None, rate) == "— ppm"@,
{
    text::laws::lemma_is_signed_figure(drift.ppm as int, 1_000_000_000, 1);
    let signed = text::fixed_with_sign(drift.ppm as int, 1_000_000_000, 1);
    let figure = signed.skip(1);
    assert(seq![signed[0]] + figure =~= signed);
    let slip = match display::slip_nanos(drift, rate) {
        Some(nanos) => display::slip_text(nanos),
        None => display::no_slip(),
    };
    assert(display::drift_text(Some(drift), rate) == display::drift_mark(drift) + (seq![signed[0]]
        + figure) + " ppm  "@ + slip);
}

/// The charge is written in per cent, with a plus behind it if and only if the device is
/// charging; nothing is written where it is not known.
pub proof fn a_written_charge_reads_back(battery: Status)
    requires
        battery.battery_percent <= 100,
    ensures
        ({
            let s = display::battery_column(Some(battery));
            &&& s.len() == 9
            &&& s[6] == '%'
            &&& s[8] == '+' <==> battery.charging
            &&& forall|i: int| 0 <= i < 6 ==> #[trigger] s[i] == ' ' || '0' as int <= s[i] as int
                <= '9' as int
            &&& exists|from: int|
                3 <= from < 6 && text::laws::numeral(#[trigger] s.subrange(from, 6))
                    == battery.battery_percent && text::laws::all_digits(s.subrange(from, 6))
        }),
        display::battery_column(None).len() == 0,
{
    display::the_battery_column_keeps_its_width(battery);
    reveal_strlit("   ");
    reveal_strlit("%");
    reveal_strlit(" +");
    reveal_strlit("  ");
    let n = battery.battery_percent as nat;
    text::laws::a_decimal_reads_back(n);
    reveal_with_fuel(text::decimal, 4);
    let s = display::battery_column(Some(battery));
    let digits = text::decimal(n);
    let from = 6 - digits.len();
    assert(s.subrange(from, 6) =~= digits);
    assert forall|i: int| 0 <= i < 6 implies #[trigger] s[i] == ' ' || '0' as int <= s[i] as int
        <= '9' as int by {
        if i >= from {
            assert(s[i] == digits[i - from]);
        }
    }
}

/// The host's clock in a reading counts whole microseconds from the start, and stands at zero
/// before.
pub proof fn the_host_clock_counts_microseconds(start: Instant, at: Instant)
    ensures
        at@ >= start@ ==> 1_000 * display::micros_since(start, at) <= at@ - start@ < 1_000
            * display::micros_since(start, at) + 1_000,
        at@ < start@ ==> display::micros_since(start, at) == 0,
{
}

/// Every member of a reading's JSON object stands behind its own key: the numbers read back,
/// and the rest is written as it is shown.
#[verifier::rlimit(60)]
pub proof fn a_readings_members_read_back(
    d: DeviceView,
    tc: Timecode,
    drift: Option<Drift>,
    start: Instant,
    at: Instant,
)
    ensures
        ({
            let line = display::json_text(d, tc, drift, start, at);
            &&& text::laws::has_text(line, "{\"timecode\":\""@, timecode::timecode_text(tc), "\",\"hours\":"@)
            &&& text::laws::has_number(line, "\",\"hours\":"@, (tc.hours as nat) as int, ",\"minutes\":"@)
            &&& text::laws::has_number(line, ",\"minutes\":"@, (tc.minutes as nat) as int, ",\"seconds\":"@)
            &&& text::laws::has_number(line, ",\"seconds\":"@, (tc.seconds as nat) as int, ",\"frames\":"@)
            &&& text::laws::has_number(line, ",\"frames\":"@, (tc.frames as nat) as int, ",\"subframe_micros\":"@)
            &&& text::laws::has_number(line, ",\"subframe_micros\":"@, (tc.subframe@ / 1_000) as int, ",\"fps\":"@)
            &&& text::laws::has_number(line, ",\"fps\":"@, (tc.rate.fps as nat) as int, ",\"device\":\""@)
            &&& text::laws::has_text(line, ",\"device\":\""@, display::called(d), "\",\"date\":"@)
            &&& text::laws::has_text(line, "\",\"date\":"@, display::json_date(d.date), ",\"rssi\":"@)
            &&& text::laws::has_text(line, ",\"rssi\":"@, display::json_rssi(d.rssi), ",\"battery_percent\":"@)
            &&& text::laws::has_text(line, ",\"battery_percent\":"@, display::json_battery(d.battery), ",\"drift_ppm\":"@)
            &&& text::laws::has_text(line, ",\"drift_ppm\":"@, display::json_drift(drift, tc.rate), ",\"host_micros\":"@)
            &&& text::laws::has_number(line, ",\"host_micros\":"@, (display::micros_since(start, at)) as int, "}"@)
        }),
{
    let line = display::json_text(d, tc, drift, start, at);
    let p0 = Seq::<Seq<char>>::empty();
    let p1 = p0.push("{\"timecode\":\""@);
    text::laws::lemma_joined(p0, "{\"timecode\":\""@);
    let p2 = p1.push(timecode::timecode_text(tc));
    text::laws::lemma_joined(p1, timecode::timecode_text(tc));
    let p3 = p2.push("\",\"hours\":"@);
    text::laws::lemma_joined(p2, "\",\"hours\":"@);
    let p4 = p3.push(text::decimal(tc.hours as nat));
    text::laws::lemma_joined(p3, text::decimal(tc.hours as nat));
    let p5 = p4.push(",\"minutes\":"@);
    text::laws::lemma_joined(p4, ",\"minutes\":"@);
    let p6 = p5.push(text::decimal(tc.minutes as nat));
    text::laws::lemma_joined(p5, text::decimal(tc.minutes as nat));
    let p7 = p6.push(",\"seconds\":"@);
    text::laws::lemma_joined(p6, ",\"seconds\":"@);
    let p8 = p7.push(text::decimal(tc.seconds as nat));
    text::laws::lemma_joined(p7, text::decimal(tc.seconds as nat));
    let p9 = p8.push(",\"frames\":"@);
    text::laws::lemma_joined(p8, ",\"frames\":"@);
    let p10 = p9.push(text::decimal(tc.frames as nat));
    text::laws::lemma_joined(p9, text::decimal(tc.frames as nat));
    let p11 = p10.push(",\"subframe_micros\":"@);
    text::laws::lemma_joined(p10, ",\"subframe_micros\":"@);
    let p12 = p11.push(text::decimal(tc.subframe@ / 1_000));
    text::laws::lemma_joined(p11, text::decimal(tc.subframe@ / 1_000));
    let p13 = p12.push(",\"fps\":"@);
    text::laws::lemma_joined(p12, ",\"fps\":"@);
    let p14 = p13.push(text::decimal(tc.rate.fps as nat));
    text::laws::lemma_joined(p13, text::decimal(tc.rate.fps as nat));
    let p15 = p14.push(",\"device\":\""@);
    text::laws::lemma_joined(p14, ",\"device\":\""@);
    let p16 = p15.push(display::called(d));
    text::laws::lemma_joined(p15, display::called(d));
    let p17 = p16.push("\",\"date\":"@);
    text::laws::lemma_joined(p16, "\",\"date\":"@);
    let p18 = p17.push(display::json_date(d.date));
    text::laws::lemma_joined(p17, display::json_date(d.date));
    let p19 = p18.push(",\"rssi\":"@);
    text::laws::lemma_joined(p18, ",\"rssi\":"@);
    let p20 = p19.push(display::json_rssi(d.rssi));
    text::laws::lemma_joined(p19, display::json_rssi(d.rssi));
    let p21 = p20.push(",\"battery_percent\":"@);
    text::laws::lemma_joined(p20, ",\"battery_percent\":"@);
    let p22 = p21.push(display::json_battery(d.battery));
    text::laws::lemma_joined(p21, display::json_battery(d.battery));
    let p23 = p22.push(",\"drift_ppm\":"@);
    text::laws::lemma_joined(p22, ",\"drift_ppm\":"@);
    let p24 = p23.push(display::json_drift(drift, tc.rate));
    text::laws::lemma_joined(p23, display::json_drift(drift, tc.rate));
    let p25 = p24.push(",\"host_micros\":"@);
    text::laws::lemma_joined(p24, ",\"host_micros\":"@);
    let p26 = p25.push(text::decimal(display::micros_since(start, at)));
    text::laws::lemma_joined(p25, text::decimal(display::micros_since(start, at)));
    let p27 = p26.push("}"@);
    text::laws::lemma_joined(p26, "}"@);
    assert(text::laws::joined(p27) == line);
    text::laws::lemma_part(p27, 1);
    text::laws::lemma_number_part(p27, 3, tc.hours as nat);
    text::laws::lemma_number_part(p27, 5, tc.minutes as nat);
    text::laws::lemma_number_part(p27, 7, tc.seconds as nat);
    text::laws::lemma_number_part(p27, 9, tc.frames as nat);
    text::laws::lemma_number_part(p27, 11, tc.subframe@ / 1_000);
    text::laws::lemma_number_part(p27, 13, tc.rate.fps as nat);
    text::laws::lemma_part(p27, 15);
    text::laws::lemma_part(p27, 17);
    text::laws::lemma_part(p27, 19);
    text::laws::lemma_part(p27, 21);
    text::laws::lemma_part(p27, 23);
    text::laws::lemma_number_part(p27, 25, display::micros_since(start, at));
}

/// A device that has gone quiet keeps its line for thirty seconds, frozen on the last timecode
/// that came, and no longer.
pub proof fn a_quiet_device_keeps_its_line_for_thirty_seconds(
    d: DeviceView,
    now: Instant,
    drift: Option<Drift>,
    show_drift: bool,
)
    requires
        d.first_timecode is Some,
        freerun::shown(d.clock, now) matches Some(Reading::Lost { .. }),
    ensures
        freerun::shown(d.clock, now) matches Some(Reading::Lost { last, since }) ==> {
            let line = display::line_for(d, now, drift, show_drift);
            &&& line is Some <==> since@ <= 30_000_000_000
            &&& line matches Some(line) ==> line.tc == last && line.first == d.first_timecode->0
        },
{
}

/// How long a signal has been gone is written in seconds, to the nearest tenth.
pub proof fn a_lost_signal_is_noted(since: nat)
    ensures
        exists|figure: Seq<char>|
            display::lost_note(since) == "   no signal for "@ + #[trigger] (figure + "s"@)
                && text::laws::is_figure(figure, since as int, 1_000_000_000, 1, 10),
{
    text::laws::lemma_is_figure(since as int, 1_000_000_000, 1);
    let figure = text::fixed(since as int, 1_000_000_000, 1);
    assert(display::lost_note(since) =~= "   no signal for "@ + (figure + "s"@));
}

/// Of the payloads that were counted, those that did not decode come first: so many of so
/// many, from so many devices.
pub proof fn so_many_of_so_many_did_not_decode(
    name: String,
    payload: Vec<u8>,
    advertisers: usize,
    payloads: u64,
    unparsed: u64,
    filter: Option<Seq<char>>,
)
    ensures
        ({
            let d = Diagnosis::Unreadable { name, payload, advertisers, payloads, unparsed };
            let said = display::diagnosis_text(d, filter);
            &&& text::laws::has_text(
                said,
                "no timecode: "@,
                screen::tally_text(advertisers as nat, "device"@),
                " advertising "@,
            )
            &&& text::laws::has_number(said, ", but "@, unparsed as int, " of "@)
            &&& text::laws::has_number(
                said,
                " of "@,
                payloads as int,
                " payloads did not decode — "@,
            )
            &&& text::laws::has_text(
                said,
                " last sent "@,
                text::hex_spaced(payload@),
                " (--raw -a dumps them all; see PROTOCOL.md)"@,
            )
        }),
{
    let d = Diagnosis::Unreadable { name, payload, advertisers, payloads, unparsed };
    let said = display::diagnosis_text(d, filter);
    let p0 = Seq::<Seq<char>>::empty();
    let p1 = p0.push("no timecode: "@);
    text::laws::lemma_joined(p0, "no timecode: "@);
    let p2 = p1.push(screen::tally_text(advertisers as nat, "device"@));
    text::laws::lemma_joined(p1, screen::tally_text(advertisers as nat, "device"@));
    let p3 = p2.push(" advertising "@);
    text::laws::lemma_joined(p2, " advertising "@);
    let p4 = p3.push(crate::error::service_text());
    text::laws::lemma_joined(p3, crate::error::service_text());
    let p5 = p4.push(", but "@);
    text::laws::lemma_joined(p4, ", but "@);
    let p6 = p5.push(text::decimal(unparsed as nat));
    text::laws::lemma_joined(p5, text::decimal(unparsed as nat));
    let p7 = p6.push(" of "@);
    text::laws::lemma_joined(p6, " of "@);
    let p8 = p7.push(text::decimal(payloads as nat));
    text::laws::lemma_joined(p7, text::decimal(payloads as nat));
    let p9 = p8.push(" payloads did not decode — "@);
    text::laws::lemma_joined(p8, " payloads did not decode — "@);
    let p10 = p9.push(name@);
    text::laws::lemma_joined(p9, name@);
    let p11 = p10.push(" last sent "@);
    text::laws::lemma_joined(p10, " last sent "@);
    let p12 = p11.push(text::hex_spaced(payload@));
    text::laws::lemma_joined(p11, text::hex_spaced(payload@));
    let p13 = p12.push(" (--raw -a dumps them all; see PROTOCOL.md)"@);
    text::laws::lemma_joined(p12, " (--raw -a dumps them all; see PROTOCOL.md)"@);
    assert(text::laws::joined(p13) == said);
    text::laws::lemma_part(p13, 1);
    text::laws::lemma_part(p13, 3);
    text::laws::lemma_number_part(p13, 5, unparsed as nat);
    text::laws::lemma_number_part(p13, 7, payloads as nat);
    text::laws::lemma_part(p13, 9);
    text::laws::lemma_part(p13, 11);
}

/// Every device that has a line gets it, with its own drift, and nothing else is drawn: the
/// lines come in the order of the devices.
pub proof fn every_device_gets_its_own_line(
    devices: Seq<DeviceView>,
    now: Instant,
    drifts: Seq<Option<Drift>>,
    show_drift: bool,
)
    ensures
        ({
            let lines = display::lines_for(devices, now, drifts, show_drift);
            &&& lines.len() <= devices.len()
            &&& forall|i: int|
                0 <= i < devices.len() ==> {
                    let drift = if i < drifts.len() {
                        drifts[i]
                    } else {
                        None
                    };
                    display::line_for(#[trigger] devices[i], now, drift, show_drift) matches Some(line)
                        ==> lines.contains(line)
                }
            &&& (forall|i: int|
                0 <= i < devices.len() ==> display::line_for(
                    #[trigger] devices[i],
                    now,
                    display::drift_at(drifts, i),
                    show_drift,
                ) is Some) ==> lines.len() == devices.len()
            &&& (forall|i: int|
                0 <= i < devices.len() ==> display::line_for(
                    #[trigger] devices[i],
                    now,
                    display::drift_at(drifts, i),
                    show_drift,
                ) is None) ==> lines.len() == 0
        }),
    decreases devices.len(),
{
    if devices.len() > 0 {
        let front = devices.drop_last();
        let last = devices.len() - 1;
        every_device_gets_its_own_line(front, now, drifts, show_drift);
        let before = display::lines_for(front, now, drifts, show_drift);
        let lines = display::lines_for(devices, now, drifts, show_drift);
        assert(devices[last] == devices.last());
        assert(forall|i: int| 0 <= i < front.len() ==> #[trigger] front[i] == devices[i]);
        assert forall|i: int| 0 <= i < devices.len() implies {
            let drift = if i < drifts.len() {
                drifts[i]
            } else {
                None
            };
            display::line_for(#[trigger] devices[i], now, drift, show_drift) matches Some(line)
                ==> lines.contains(line)
        } by {
            let drift = if i < drifts.len() {
                drifts[i]
            } else {
                None
            };
            if let Some(line) = display::line_for(devices[i], now, drift, show_drift) {
                if i < last {
                    assert(front[i] == devices[i]);
                    assert(before.contains(line));
                    let k = choose|k: int| 0 <= k < before.len() && before[k] == line;
                    assert(lines[k] == line);
                } else {
                    assert(drift == display::drift_at(drifts, last));
                    assert(lines[lines.len() - 1] == line);
                }
            }
        }
        if forall|i: int|
            0 <= i < devices.len() ==> display::line_for(
                #[trigger] devices[i],
                now,
                display::drift_at(drifts, i),
                show_drift,
            ) is Some {
            assert forall|i: int| 0 <= i < front.len() implies display::line_for(
                #[trigger] front[i],
                now,
                display::drift_at(drifts, i),
                show_drift,
            ) is Some by {
                assert(front[i] == devices[i]);
            }
        }
        if forall|i: int|
            0 <= i < devices.len() ==> display::line_for(
                #[trigger] devices[i],
                now,
                display::drift_at(drifts, i),
                show_drift,
            ) is None {
            assert forall|i: int| 0 <= i < front.len() implies display::line_for(
                #[trigger] front[i],
                now,
                display::drift_at(drifts, i),
                show_drift,
            ) is None by {
                assert(front[i] == devices[i]);
            }
        }
    }
}

/// The figures of a drift in a log are the nearest: parts per million to a thousandth, with a
/// minus sign where the device is slow, and the time that a frame takes to add up in seconds to
/// a tenth; the flag and the count stand between them as they are.
pub proof fn a_logged_drift_is_the_nearest(drift: Drift, rate: Rate)
    ensures
        exists|ppm: Seq<char>, flag: Seq<char>, slip: Seq<char>|
            {
                &&& display::json_drift(Some(drift), rate) == #[trigger] (ppm
                    + ",\"drift_clamped\":"@ + flag + ",\"drift_measurements\":"@ + text::decimal(
                    drift.measurements as nat,
                ) + ",\"frame_slip_seconds\":"@ + slip)
                &&& flag == (if drift.clamped {
                    "true"@
                } else {
                    "false"@
                })
                &&& text::laws::is_plain_figure(ppm, drift.ppm as int, 1_000_000_000, 3, 1_000)
                &&& match display::slip_nanos(drift, rate) {
                    Some(nanos) => text::laws::is_figure(slip, nanos as int, 1_000_000_000, 1, 10),
                    None => slip == "null"@,
                }
            },
{
    let ppm = text::fixed(drift.ppm as int, 1_000_000_000, 3);
    text::laws::lemma_is_plain_figure(drift.ppm as int, 1_000_000_000, 3);
    let slip = match display::slip_nanos(drift, rate) {
        Some(nanos) => text::fixed(nanos as int, 1_000_000_000, 1),
        None => "null"@,
    };
    if let Some(nanos) = display::slip_nanos(drift, rate) {
        text::laws::lemma_is_figure(nanos as int, 1_000_000_000, 1);
    }
    let flag = if drift.clamped {
        "true"@
    } else {
        "false"@
    };
    assert(display::json_drift(Some(drift), rate) == ppm + ",\"drift_clamped\":"@ + flag
        + ",\"drift_measurements\":"@ + text::decimal(drift.measurements as nat)
        + ",\"frame_slip_seconds\":"@ + slip);
}

} // verus!
