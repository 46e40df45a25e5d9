use std::collections::HashMap;

use shokushu::ble::diagnostics::Diagnosis;
use shokushu::ble::scan::{CentralEvent, Event, Properties, Scanner};
use shokushu::ble::uuids::uuid_from_u16;
use shokushu::ble::{parse, Advert, SERVICE_UUID_16};
use shokushu::rec::{
    captured_at, date_in, draw, lock_on, locked, remaining, report_drift, slug, span_of,
    start_timecode, too_late, why, wrote, NoStart, Start, Take,
};
use shokushu::time::{Duration, Instant};
use shokushu::timecode::{Rate, Timecode};
use shokushu::wav::Spec;

fn at(millis: u64) -> Instant {
    Instant::after(Duration::from_millis(1_000_000 + millis))
}

/// A scan that has heard 11:37:40:21 and 24.518 ms from `a` at time zero.
fn heard() -> Scanner {
    let mut scan = Scanner::builder().start();
    let payload = vec![0x22, 0x7d, 0x19, 0x0b, 0x25, 0x28, 0x15, 0x5f, 0xc6];
    let answer = Properties {
        local_name: Some("Ricki".to_string()),
        advertisement_name: None,
        rssi: None,
    };
    scan.take_in(
        CentralEvent::ServiceDataAdvertisement {
            id: "a".to_string(),
            service_data: HashMap::from([(uuid_from_u16(SERVICE_UUID_16), payload)]),
        },
        Some(answer),
        at(0),
    );
    scan
}

#[test]
fn each_reason_for_silence_has_its_words() {
    let tail = " (shokushu-ble shows what the scan is taking in)";
    let cases = [
        (
            Diagnosis::SilentScan,
            "not one BLE advertisement of any kind has arrived, so suspect the scan rather than \
             the Tentacles",
        ),
        (
            Diagnosis::FilteredOut { devices: 3 },
            "3 BLE devices in range, none named like \"ricki\"",
        ),
        (
            Diagnosis::NothingAdvertising { devices: 2 },
            "2 BLE devices in range, none of which has advertised anything",
        ),
        (
            Diagnosis::Unreadable {
                name: "Ricki".to_string(),
                payload: vec![1],
                advertisers: 1,
                payloads: 9,
                unparsed: 4,
            },
            "Ricki is advertising 0xFDAC, but 4 of 9 payloads did not decode",
        ),
        (
            Diagnosis::DatesOnly { advertisers: 1, payloads: 5 },
            "5 payloads decoded and none carried timecode \u{2014} dates only so far",
        ),
        (
            Diagnosis::NoTentacle { matched: 2 },
            "2 BLE devices in range, none advertising 0xFDAC",
        ),
    ];
    for (diagnosis, words) in &cases {
        assert_eq!(why(diagnosis, Some("ricki")), format!("{words}{tail}"));
    }
    assert_eq!(
        too_late(15, &cases[5].0, None),
        format!("no timecode after 15s \u{2014} {}{tail}", cases[5].1)
    );
}

#[test]
fn the_first_box_to_say_the_time_is_locked_onto() {
    let mut scan = heard();
    assert_eq!(lock_on(&scan.next().unwrap()), None);
    let event = scan.next().unwrap();
    assert_eq!(lock_on(&event), Some(&"a".to_string()));
    let last = scan.device(&"a".to_string()).unwrap().last_received();
    assert_eq!(
        locked("Ricki", last),
        Ok("locked onto Ricki at 11:37:40:21 25 fps".to_string())
    );
    assert_eq!(
        locked("Ricki", None),
        Err("Ricki sent timecode and then its clock had none".to_string())
    );
}

#[test]
fn a_date_is_taken_from_the_box_in_hand() {
    let payload = [0x42, 0x05, 0x00, 0x26, 0x09, 0x04, 0x02, 0xa1, 0x00];
    let Some(Advert::Date(date)) = parse(&payload) else {
        panic!("not a date");
    };
    let event = Event::Date { id: "a".to_string(), date };
    assert_eq!(date_in(&event, &"a".to_string()), Some("2026-09-04".to_string()));
    assert_eq!(date_in(&event, &"b".to_string()), None);
}

#[test]
fn a_recording_starts_where_its_first_sample_was_captured() {
    let mut scan = heard();
    let id = "a".to_string();
    // Read at 1 s, captured half a second before.
    let start = start_timecode(&mut scan, &id, at(500), at(1_000), 48_000).unwrap();
    assert_eq!(start.timecode.to_string(), "11:37:41:09");
    // 41.364518 s of the minute come to 1985496.864 samples.
    assert_eq!(start.samples, (11 * 3600 + 37 * 60) * 48_000 + 1_985_497);
}

#[test]
fn an_earlier_first_sample_starts_earlier() {
    let id = "a".to_string();
    let early = start_timecode(&mut heard(), &id, at(100), at(1_000), 48_000).unwrap();
    let late = start_timecode(&mut heard(), &id, at(600), at(1_000), 48_000).unwrap();
    assert!(early.position < late.position);
    assert_eq!(late.samples - early.samples, 24_000);
}

#[test]
fn nothing_is_recorded_against_a_guess() {
    let mut scan = heard();
    let unknown = "b".to_string();
    let gone = start_timecode(&mut scan, &unknown, at(0), at(0), 48_000).unwrap_err();
    assert_eq!(gone.to_string(), "the device we locked onto is no longer in the scan");
    let lost = start_timecode(&mut scan, &"a".to_string(), at(0), at(6_250), 48_000).unwrap_err();
    assert!(matches!(lost, NoStart::Lost { .. }));
    assert_eq!(
        lost.to_string(),
        format!(
            "the timecode stopped {:.1}s ago (last was 11:37:40:21); not recording against a guess",
            6.25
        )
    );
    assert_eq!(
        NoStart::NoClock.to_string(),
        "the device's clock went away between locking on and recording"
    );
    assert_eq!(
        NoStart::DropFrame.to_string(),
        "a drop-frame rate has no sample position, and Bluetooth never reports one"
    );
}

#[test]
fn a_buffer_was_captured_before_it_was_delivered() {
    assert_eq!(captured_at(at(100), Some(Duration::from_millis(30)), 480, 48_000), at(70));
    // Without a word from the backend, a buffer's length is assumed.
    assert_eq!(captured_at(at(100), None, 480, 48_000), at(90));
    let origin = Instant::after(Duration::from_millis(5));
    assert_eq!(captured_at(origin, Some(Duration::from_millis(30)), 480, 48_000), origin);
    assert_eq!(span_of(1, 48_000), Duration::from_nanos(20_833));
}

#[test]
fn the_recording_line_says_when_the_signal_went() {
    let mut scan = heard();
    let id = "a".to_string();
    assert_eq!(
        draw(&mut scan, &id, "Ricki", 48_000 * 83 + 19_200, 48_000, Some(-18_300_000), at(0)),
        format!("\r● 00:01:23.4   11:37:40:21   25 fps   Ricki   {:>6.1} dBFS\x1b[K", -18.3)
    );
    assert_eq!(
        draw(&mut scan, &id, "Ricki", 0, 48_000, None, at(7_000)),
        format!(
            "\r● 00:00:00.0   11:37:40:21   25 fps   Ricki   {:>6.1} dBFS   no timecode for \
             7s\x1b[K",
            f64::NEG_INFINITY
        )
    );
    let unknown = "b".to_string();
    assert_eq!(
        draw(&mut scan, &unknown, "Ricki", 0, 48_000, Some(0), at(0)),
        format!("\r● 00:00:00.0   --:--:--:--   Ricki   {:>6.1} dBFS   no clock\x1b[K", 0.0)
    );
}

fn take(start_position: i128, frames: u64) -> Take {
    Take {
        begun: at(0),
        start_position,
        recorded_for: Duration::from_secs(2),
        frames,
        sample_rate: 48_000,
        name: "Ricki".to_string(),
    }
}

#[test]
fn a_clock_that_kept_time_cannot_be_told_apart() {
    let mut scan = heard();
    let id = "a".to_string();
    let begun = start_timecode(&mut scan, &id, at(0), at(0), 48_000).unwrap().position;
    assert_eq!(
        report_drift(&mut scan, &id, &take(begun, 96_000), at(2_000)),
        "  the input's clock ran +0 ppm against Ricki's over 2 s (±1000 ppm) — which is not \
         distinguishable from no difference at all\n"
    );
    // One percent fast is far past what the ends are good to.
    assert_eq!(
        report_drift(&mut scan, &id, &take(begun, 96_960), at(2_000)),
        "  the input's clock ran +10000 ppm against Ricki's over 2 s (±1000 ppm)\n"
    );
    assert_eq!(
        report_drift(&mut scan, &id, &take(begun, 96_000), at(9_000)),
        "  no timecode at the end of the take, so no drift figure\n"
    );
}

#[test]
fn a_take_through_midnight_wraps_the_day() {
    let mut scan = heard();
    let id = "a".to_string();
    // A start past the end: the day must have turned underneath the take.
    let tc = Timecode::new(11, 37, 43, 21, Rate::whole(25));
    let report =
        report_drift(&mut scan, &id, &take(tc.frame_position() as i128, 96_000), at(2_000));
    assert!(report.contains("against Ricki's over 86399 s"), "{report}");
}

#[test]
fn a_take_too_short_to_measure_says_nothing() {
    let mut scan = heard();
    let id = "a".to_string();
    let begun = start_timecode(&mut scan, &id, at(0), at(0), 48_000).unwrap().position;
    let short = Take { recorded_for: Duration::from_millis(500), ..take(begun, 24_000) };
    assert_eq!(report_drift(&mut scan, &id, &short, at(500)), "");
}

#[test]
fn the_time_left_counts_from_the_first_sample() {
    assert_eq!(remaining(0, at(0), at(500)), None);
    assert_eq!(remaining(10, at(0), at(500)), Some(Duration::from_millis(9_500)));
    assert_eq!(remaining(10, at(0), at(20_000)), Some(Duration::zero()));
}

#[test]
fn the_closing_lines_say_what_was_written() {
    let start = Start {
        timecode: Timecode::new(11, 37, 40, 21, Rate::whole(25)),
        samples: 2_008_660_032,
        position: 0,
    };
    let spec = Spec { sample_rate: 48_000, channels: 2 };
    assert_eq!(
        wrote("a.wav", 60_000, spec, &start, Some("2026-09-04"), 0),
        "wrote a.wav — 1.250 s, 60000 frames at 48000 Hz, 2 ch, 24-bit\n  first sample at \
         11:37:40:21 25 fps, 2008660032 samples since midnight, 2026-09-04\n"
    );
    assert!(wrote("a.wav", 60_000, spec, &start, None, 7)
        .ends_with("samples since midnight, no date received\n  7 samples clipped\n"));
}

#[test]
fn a_slug_of_a_slug_is_itself() {
    for name in ["Ricki", "  Ricki's box!! ", "---", "", "Ünïcode 42"] {
        let once = slug(name);
        assert_eq!(slug(&once), once, "{name:?}");
        assert!(
            once.chars().all(|c| c.is_ascii_lowercase() || c.is_ascii_digit() || c == '-'),
            "{once}"
        );
    }
    assert_eq!(slug("Ünïcode 42"), "n-code-42");
}
