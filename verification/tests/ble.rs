use shokushu::ble::{parse, parse_manufacturer, Advert};
use shokushu::time::Duration;

const CAPTURED: &[(&[u8], &str)] = &[
    (&[0x22, 0x05, 0x19, 0x09, 0x23, 0x3b, 0x14, 0x58, 0x62], "09:35:59:20"),
    (&[0x22, 0x05, 0x19, 0x09, 0x24, 0x00, 0x03, 0x58, 0xca], "09:36:00:03"),
    (&[0x22, 0x05, 0x19, 0x09, 0x22, 0x32, 0x03, 0x50, 0x56], "09:34:50:03"),
];

const AFTER_APP_SYNC: &[(&[u8], &str)] = &[
    (&[0x22, 0x7d, 0x19, 0x0b, 0x25, 0x28, 0x15, 0x5f, 0xc6], "11:37:40:21"),
    (&[0x22, 0x7d, 0x19, 0x0b, 0x1d, 0x0a, 0x10, 0x17, 0xc7], "11:29:10:16"),
    (&[0x22, 0x7c, 0x19, 0x0b, 0x1e, 0x08, 0x0e, 0x88, 0x11], "11:30:08:14"),
    (&[0x22, 0x07, 0x19, 0x0b, 0x1c, 0x1e, 0x10, 0x44, 0x17], "11:28:30:16"),
];

#[test]
fn parses_captured_timecode() {
    for (payload, expected) in CAPTURED.iter().chain(AFTER_APP_SYNC) {
        let Some(Advert::Timecode(tc)) = parse(payload) else {
            panic!("{payload:02x?} did not parse as timecode");
        };
        assert_eq!(tc.to_string(), *expected);
        assert_eq!(tc.rate.fps, 25);
    }
}

#[test]
fn byte_one_is_not_a_length() {
    for flags in [0x00, 0x05, 0x07, 0x7c, 0x7d, 0xff] {
        let payload = [0x22, flags, 0x19, 0x0b, 0x25, 0x28, 0x15, 0x5f, 0xc6];
        let Some(Advert::Timecode(tc)) = parse(&payload) else {
            panic!("byte 1 = {flags:#04x} was rejected");
        };
        assert_eq!(tc.to_string(), "11:37:40:21");
        assert_eq!(tc.subframe.as_micros(), 24518);
    }
}

#[test]
fn the_range_checks_carry_the_rejecting_on_their_own() {
    let good = [0x22u8, 0x7d, 0x19, 0x0b, 0x25, 0x28, 0x15, 0x5f, 0xc6];
    assert!(parse(&good).is_some());
    for (byte, bad) in [(2, 0x00), (3, 24), (4, 60), (5, 60), (6, 25)] {
        let mut payload = good;
        payload[byte] = bad;
        assert!(
            parse(&payload).is_none(),
            "byte {byte} = {bad:#04x} should have been rejected"
        );
    }
}

#[test]
fn parses_the_captured_date() {
    let captured: &[&[u8]] = &[
        &[0x42, 0x05, 0x00, 0x26, 0x09, 0x04, 0x02, 0xa1, 0x00],
        &[0x42, 0x7d, 0x00, 0x26, 0x09, 0x04, 0x02, 0xa1, 0x00],
        &[0x42, 0x7d, 0x00, 0x26, 0x09, 0x04, 0x02, 0xa1, 0xf9],
        &[0x42, 0x7c, 0x00, 0x26, 0x09, 0x04, 0x02, 0xa1, 0x47],
    ];
    for payload in captured {
        let Some(Advert::Date(date)) = parse(payload) else {
            panic!("{payload:02x?} did not parse as a date");
        };
        assert_eq!(date.to_string(), "2026-09-04");
    }
}

#[test]
fn reads_the_subframe_position() {
    let payload = [0x22, 0x05, 0x19, 0x09, 0x23, 0x3b, 0x14, 0x58, 0x62];
    let Some(Advert::Timecode(tc)) = parse(&payload) else {
        panic!("did not parse");
    };
    assert_eq!(tc.subframe.as_micros(), 22626);
    assert_eq!(tc.subframe.as_nanos(), 22_626_000);
    // 22626 µs of a 40 ms frame.
    assert!((tc.subframe_fraction() as f64 / 1e9 - 0.5657).abs() < 0.001);
}

#[test]
fn a_missing_trailer_is_not_fatal() {
    let payload = [0x22, 0x05, 0x19, 0x09, 0x23, 0x3b, 0x14];
    let Some(Advert::Timecode(tc)) = parse(&payload) else {
        panic!("did not parse");
    };
    assert_eq!(tc.subframe, Duration::zero());
    assert_eq!(tc.to_string(), "09:35:59:20");
}

#[test]
fn seconds_are_binary_not_bcd() {
    let payload = [0x22, 0x05, 0x19, 0x09, 0x23, 0x3b, 0x14, 0x00, 0x00];
    let Some(Advert::Timecode(tc)) = parse(&payload) else {
        panic!("rejected a real payload");
    };
    assert_eq!(tc.seconds, 59);
}

#[test]
fn rejects_rubbish() {
    let cases: &[&[u8]] = &[
        &[],
        &[0x22],
        &[0x22, 0x05],
        &[0x22, 0x05, 0x19, 0x09, 0x23],
        &[0x99, 0x05, 0x19, 0x09, 0x23, 0x3b, 0x14],
        &[0x22, 0x05, 0x19, 0x18, 0x23, 0x3b, 0x14],
        &[0x22, 0x05, 0x19, 0x09, 0x3c, 0x3b, 0x14],
        &[0x22, 0x05, 0x19, 0x09, 0x23, 0x3c, 0x14],
        &[0x22, 0x05, 0x19, 0x09, 0x23, 0x3b, 0x19],
        &[0x22, 0x05, 0x00, 0x09, 0x23, 0x3b, 0x00],
        &[0x42, 0x05, 0x00, 0x26, 0x1a, 0x04, 0x02],
        &[0x42, 0x05, 0x00, 0x26, 0x13, 0x04, 0x02],
    ];
    for case in cases {
        assert!(parse(case).is_none(), "{case:02x?} should not have parsed");
    }
}
#[test]
fn reads_the_battery_out_of_the_manufacturer_record() {
    let cases = [
        ([0x02, 0x00, 0x64, 0x01, 0x13], 100),
        ([0x02, 0x00, 0x61, 0x01, 0x13], 97),
        ([0x02, 0x00, 0x60, 0x01, 0x13], 96),
    ];
    for (payload, expected) in cases {
        let Some(status) = parse_manufacturer(&payload) else {
            panic!("{payload:02x?} did not parse");
        };
        assert_eq!(status.battery_percent, expected);
        assert!(!status.charging, "{payload:02x?} is not on a charger");
    }
}

#[test]
fn a_charging_device_reports_its_charge_and_not_a_number_over_100() {
    let cases = [
        ([0x02, 0x02, 0xe2, 0x01, 0x13], 98, true),
        ([0x02, 0x02, 0xe3, 0x01, 0x13], 99, true),
        ([0x02, 0x02, 0xe4, 0x01, 0x13], 100, true),
        ([0x02, 0x02, 0x64, 0x01, 0x13], 100, false),
    ];
    for (payload, percent, charging) in cases {
        let Some(status) = parse_manufacturer(&payload) else {
            panic!("{payload:02x?} did not parse");
        };
        assert_eq!(status.battery_percent, percent, "{payload:02x?}");
        assert_eq!(status.charging, charging, "{payload:02x?}");
    }
}

#[test]
fn rejects_a_manufacturer_record_that_is_not_ours() {
    let cases: &[&[u8]] = &[
        &[],
        &[0x02, 0x00, 0x64, 0x01],
        &[0x02, 0x00, 0x64, 0x01, 0x13, 0x00],
        &[0x02, 0x00, 0x65, 0x01, 0x13],
        &[0x02, 0x00, 0xe5, 0x01, 0x13],
        &[0x02, 0x00, 0xff, 0x01, 0x13],
    ];
    for case in cases {
        assert!(
            parse_manufacturer(case).is_none(),
            "{case:02x?} should not have parsed"
        );
    }
}

#[test]
fn an_unknown_byte_changing_does_not_stop_the_battery_being_read() {
    let Some(status) = parse_manufacturer(&[0x03, 0xff, 0x2a, 0x00, 0x7f]) else {
        panic!("rejected a record over bytes we don't claim to understand");
    };
    assert_eq!(status.battery_percent, 42);
    assert!(!status.charging);
}
