use shokushu::ble::diagnostics::{diagnose, shape_of, survey, Counts, Diagnosis};
use shokushu::ble::jam::dither;
use shokushu::ble::{parse, parse_manufacturer, Advert, KIND_DATE};
use shokushu::dump::print_payload;
use shokushu::display::{drift_column, slip_time, Drift};
use shokushu::freerun::{FreeRun, Reading};
use shokushu::gatt::digest::Digest;
use shokushu::gatt::Digests;
use shokushu::jam::reduce::{fit, Point};
use shokushu::ltc::LtcFrame;
use shokushu::rec::span_of;
use shokushu::screen::{lay_out, redraw, short_id, tally, tenth, Line, Notice};
use shokushu::time::{Duration, Instant};
use shokushu::timecode::{Rate, Timecode};

fn at(millis: u64) -> Instant {
    Instant::after(Duration::from_millis(1_000_000 + millis))
}

#[test]
fn spans_add_and_saturate() {
    let second = Duration::from_secs(1);
    assert_eq!(second.checked_add(Duration::from_millis(500)), Some(Duration::from_millis(1_500)));
    assert_eq!(Duration::from_secs(u64::MAX).checked_add(second), None);
    assert_eq!(Duration::from_millis(200).saturating_sub(second), Duration::zero());
    assert_eq!(Duration::from_millis(200).abs_diff(second), Duration::from_millis(800));
    assert_eq!(second.as_millis(), 1_000);
    assert_eq!(Duration::from_nanos_u128(1_500_000_000).as_micros(), 1_500_000);
    assert_eq!(at(0).saturating_duration_since(at(5)), Duration::zero());
    assert_eq!(at(5).checked_sub(Duration::from_millis(5)), Some(at(0)));
    assert_eq!(Instant::after(Duration::zero()).checked_sub(second), None);
}

#[test]
fn a_position_a_day_on_is_the_same_reading() {
    let rate = Rate::whole(25);
    let day = rate.frames_per_day() as i128 * 1_000_000_000;
    for position in [0, 1, 999_999_999, 12_345_678_901_234, day - 1] {
        let tc = Timecode::at_frame_position(position, rate);
        assert_eq!(Timecode::at_frame_position(position + day, rate), tc);
        assert_eq!(Timecode::at_frame_position(position - day, rate), tc);
        assert!(tc.hours < 24 && tc.minutes < 60 && tc.seconds < 60 && tc.frames < 25);
    }
}

#[test]
fn a_later_reading_is_a_larger_position() {
    let rate = Rate::whole(30);
    let earlier = Timecode::new(9, 59, 59, 29, rate).frame_position();
    let later = Timecode::new(10, 0, 0, 0, rate).frame_position();
    assert_eq!(later - earlier, 1_000_000_000);
}

#[test]
fn an_anchor_moves_the_clock_half_way() {
    let rate = Rate::whole(25);
    let mut clock = FreeRun::default();
    clock.anchor(&Timecode::new(1, 0, 0, 0, rate), at(0));
    // 1 s later the device says it is 20 ms ahead: half a frame, of which half is taken.
    let mut ahead = Timecode::new(1, 0, 1, 0, rate);
    ahead.subframe = Duration::from_millis(20);
    clock.anchor(&ahead, at(1_000));
    let Some(Reading::Running(tc)) = clock.sample(at(1_000)) else {
        panic!("not running");
    };
    let base = Timecode::new(1, 0, 1, 0, rate).frame_position();
    assert_eq!(tc.frame_position() - base, 250_000_000);
}

#[test]
fn a_clock_asked_about_the_past_does_not_go_back() {
    let mut clock = FreeRun::default();
    clock.anchor(&Timecode::new(1, 0, 0, 0, Rate::whole(25)), at(0));
    let Some(Reading::Running(first)) = clock.sample(at(1_000)) else {
        panic!("not running");
    };
    let Some(Reading::Running(second)) = clock.sample(at(200)) else {
        panic!("not running");
    };
    assert_eq!(first, second);
}

#[test]
fn a_lost_signal_is_still_lost_later() {
    let mut clock = FreeRun::default();
    let tc = Timecode::new(1, 0, 0, 0, Rate::whole(25));
    clock.anchor(&tc, at(0));
    for millis in [5_001, 8_000, 60_000] {
        let Some(Reading::Lost { last, since }) = clock.sample(at(millis)) else {
            panic!("still running after {millis} ms");
        };
        assert_eq!((last, since), (tc, Duration::from_millis(millis)));
    }
}

#[test]
fn a_register_reads_back_as_the_frame_it_holds() {
    // 12:34:56:07, sent least significant bit first, with the sync word on top.
    let fields: [(u32, u128); 8] =
        [(0, 7), (8, 0), (16, 6), (24, 5), (32, 4), (40, 3), (48, 2), (56, 1)];
    let mut reg: u128 = 0xBFFC << 64;
    for (start, value) in fields {
        reg |= value << start;
    }
    for group in 0..8u32 {
        reg |= (group as u128 + 1) << (4 + 8 * group);
    }
    // The decoder shifts bits in from below, so the first bit sent is the highest.
    let sent: u128 = (0..80).fold(0, |acc, n| (acc << 1) | ((reg >> n) & 1));
    let frame = LtcFrame::from_register(sent).expect("a whole frame");
    assert_eq!(frame.to_string(), "12:34:56:07");
    assert_eq!(frame.user_bits_hex(), "12345678");
    assert!(!frame.drop_frame && !frame.color_frame);
}

#[test]
fn a_field_out_of_range_is_no_frame() {
    // Seconds of 75, in a word that is otherwise fine.
    let reg: u128 = (0xBFFC << 64) | (5 << 16) | (7 << 24);
    let sent: u128 = (0..80).fold(0, |acc, n| (acc << 1) | ((reg >> n) & 1));
    assert_eq!(LtcFrame::from_register(sent), None);
}

#[test]
fn the_dither_visits_every_microsecond_once() {
    let mut seen = vec![false; 31_000];
    for n in 0..31_000u64 {
        let micros = dither(n).as_micros() as usize;
        assert!(!seen[micros], "{micros} twice");
        seen[micros] = true;
    }
    assert!(seen.iter().all(|s| *s));
}

#[test]
fn a_majority_of_honest_points_holds_the_fit() {
    let honest = (0..7).map(|i| Point { x: i * 1_000_000_000, y: i * 10_000 });
    let mut points: Vec<Point> = honest.collect();
    points.push(Point { x: 7_000_000_000, y: -35_000_000 });
    let line = fit(&points).unwrap();
    // Ten parts per million, in units of 10^-15.
    assert_eq!(line.slope.word(), Some(10_000_000_000));
    assert!(fit(&points[..1]).is_none());
}

#[test]
fn a_repeat_adds_to_the_count_alone() {
    let mut digest = Digest::default();
    digest.add(&[1, 2]);
    let (volatility, lengths) = (digest.volatility(), digest.lengths());
    digest.add(&[1, 2]);
    assert_eq!(digest.count, 2);
    assert_eq!(digest.unique, [vec![1u8, 2]]);
    assert_eq!((digest.volatility(), digest.lengths()), (volatility, lengths));
    assert_eq!(digest.lengths_string(), "{2: 1}");
}

#[test]
fn a_payload_lands_in_its_own_digest() {
    let mut all = Digests::default();
    all.add(7, &[1]);
    all.add(9, &[2]);
    all.add(7, &[3]);
    assert_eq!(all.get(7).unwrap().count, 2);
    assert_eq!(all.get(9).unwrap().count, 1);
    assert!(all.get(8).is_none());
}

#[test]
fn the_flags_and_the_length_make_the_shape() {
    assert_eq!(shape_of(&[0x22, 0x7d, 1, 2]), "7d/4");
    assert_eq!(shape_of(&[0x42, 0x7d, 9, 9]), shape_of(&[0x22, 0x7d, 1, 2]));
    assert_eq!(shape_of(&[]), "00/0");
}

#[test]
fn the_worst_device_is_blamed_however_they_are_listed() {
    let bad = [1u8];
    let worse = [2u8];
    let counts = [
        Counts { name: Some("Aaa"), payloads: 9, unparsed: 1, unparsed_sample: Some(&bad) },
        Counts { name: Some("Zzz"), payloads: 9, unparsed: 5, unparsed_sample: Some(&worse) },
        Counts { name: Some("Mmm"), payloads: 9, unparsed: 0, unparsed_sample: None },
    ];
    let census = survey(3, &counts);
    assert_eq!(census.sample, Some(("Zzz".to_string(), vec![2])));
    assert_eq!((census.payloads, census.unparsed, census.advertisers), (27, 6, 3));
    let turned = [counts[2].clone(), counts[0].clone(), counts[1].clone()];
    assert_eq!(survey(3, &turned).sample, census.sample);
    let Diagnosis::Unreadable { name, .. } = diagnose(&census, false) else {
        panic!("not blamed");
    };
    assert_eq!(name, "Zzz");
}

#[test]
fn charging_hides_nothing() {
    let plain = parse_manufacturer(&[0x02, 0x00, 0x60, 0x01, 0x13]).unwrap();
    let charging = parse_manufacturer(&[0x02, 0x00, 0xe0, 0x01, 0x13]).unwrap();
    assert_eq!(plain.battery_percent, charging.battery_percent);
    assert!(!plain.charging && charging.charging);
    assert!(parse(&[]).is_none());
}

#[test]
fn a_slip_has_no_direction_and_a_horizon() {
    let rate = Rate::whole(25);
    let fast = Drift { ppm: 8_000_000_000, clamped: false, settling: false, measurements: 9 };
    let slow = Drift { ppm: -8_000_000_000, ..fast };
    assert_eq!(fast.frame_slip(rate), Some(Duration::from_secs(5_000)));
    assert_eq!(slow.frame_slip(rate), fast.frame_slip(rate));
    assert_eq!(drift_column(Some(fast), rate), "+8.0 ppm  83 min/frame");
    assert_eq!(drift_column(Some(slow), rate), "-8.0 ppm  83 min/frame");
    assert_eq!(drift_column(None, rate), "— ppm");
    assert_eq!(slip_time(Duration::from_secs(3 * 3_600)), "3.0 h/frame");
    assert_eq!(slip_time(Duration::from_secs(3 * 86_400)), "3.0 d/frame");
    assert_eq!(slip_time(Duration::from_secs(100 * 86_400)), "> 99 d/frame");
}

#[test]
fn a_tenth_is_one_digit_however_far_past_the_frame() {
    assert_eq!(tenth(0), ".0");
    assert_eq!(tenth(999_999_999), ".9");
    assert_eq!(tenth(1_200_000_000), ".9");
    assert_eq!(tenth(349_999_999), ".3");
}

#[test]
fn lines_sit_by_when_they_started() {
    let line = |first: u64, id: &str, name: &str| Line {
        first: at(first),
        id: id.to_string(),
        tc: Timecode::new(1, 2, 3, 4, Rate::whole(25)),
        name: name.to_string(),
        date: None,
        rssi: None,
        tail: String::new(),
    };
    let one = lay_out(vec![line(5, "b", "late"), line(0, "z", "first"), line(5, "a", "tie")]);
    let two = lay_out(vec![line(5, "a", "tie"), line(5, "b", "late"), line(0, "z", "first")]);
    assert_eq!(one, two);
    assert_eq!(
        one,
        [
            "  01:02:03:04.0     25 fps   first",
            "  01:02:03:04.0     25 fps   tie  ",
            "  01:02:03:04.0     25 fps   late ",
        ]
    );
    assert_eq!(redraw(&one[..1], 2), format!("\x1b[2A\r{}\x1b[K\n\x1b[K\n\x1b[1A", one[0]));
}

#[test]
fn a_notice_in_a_file_is_said_once_for_each_failure() {
    let mut notice = Notice::new(false);
    assert_eq!(notice.show("a".to_string(), "one".to_string()), "one\n");
    assert_eq!(notice.show("a".to_string(), "two".to_string()), "");
    assert_eq!(notice.show("b".to_string(), "three".to_string()), "three\n");
    assert_eq!(notice.clear(), "");
    assert_eq!(notice.show("b".to_string(), "four".to_string()), "four\n");
    assert_eq!(notice.finish(), "");
}

#[test]
fn small_words_read_right() {
    assert_eq!(tally(1, "device"), "1 device");
    assert_eq!(tally(2, "device"), "2 devices");
    assert_eq!(short_id("0123456789"), "01234567");
}

#[test]
fn a_packed_date_reads_back_and_nothing_else_does() {
    for year in 0..=99u8 {
        let packed = ((year / 10) << 4) | (year % 10);
        match parse(&[KIND_DATE, 0, 0, packed, 0x12, 0x31, 0]) {
            Some(Advert::Date(date)) => {
                assert_eq!((date.year, date.month, date.day), (2000 + year as u16, 12, 31));
            }
            other => panic!("{year}: {other:?}"),
        }
    }
    for byte in 0..=255u8 {
        let digits = byte >> 4 <= 9 && byte & 0x0f <= 9;
        let advert = parse(&[KIND_DATE, 0, 0, byte, 0x01, 0x01, 0]);
        assert_eq!(advert.is_some(), digits, "{byte:#04x}");
    }
}

#[test]
fn the_byte_in_front_of_a_date_is_not_read() {
    let plain = parse(&[KIND_DATE, 0, 0, 0x26, 0x09, 0x04, 0]);
    assert!(plain.is_some());
    for byte in [1, 0x19, 0x7f, 0xff] {
        assert_eq!(parse(&[KIND_DATE, 0, byte, 0x26, 0x09, 0x04, 0]), plain);
    }
}

#[test]
fn a_payload_too_short_for_flags_has_the_shape_of_its_length() {
    assert_eq!(shape_of(&[]), "00/0");
    assert_eq!(shape_of(&[0x7d]), "00/1");
    assert_eq!(shape_of(&[0x22, 0x7d]), "7d/2");
}

#[test]
fn a_census_is_the_same_however_the_devices_are_listed() {
    let bytes: &[u8] = &[0x22, 0x7d];
    let other: &[u8] = &[0x22, 0x01, 0x02];
    let a = Counts { name: Some("A"), payloads: 3, unparsed: 2, unparsed_sample: Some(bytes) };
    let b = Counts { name: Some("B"), payloads: 9, unparsed: 2, unparsed_sample: Some(other) };
    let c = Counts { name: None, payloads: 0, unparsed: 0, unparsed_sample: None };
    let census = survey(5, &[a, b, c]);
    assert_eq!((census.advertisers, census.payloads, census.unparsed), (2, 12, 4));
    assert_eq!(census.sample, Some(("B".to_string(), other.to_vec())));
    for order in [[a, c, b], [b, a, c], [b, c, a], [c, a, b], [c, b, a]] {
        assert_eq!(survey(5, &order), census);
    }
}

#[test]
fn what_a_clock_handed_out_is_not_taken_back() {
    let rate = Rate::whole(25);
    let mut clock = FreeRun::default();
    let mut highest: u128 = 0;
    for n in 0..200u64 {
        // Readings that come up to 40 ms late, and samples that jump back and forth.
        let mut tc = Timecode::new(1, 0, 0, 0, rate);
        tc.subframe = Duration::from_millis(n * 500 - n * 7 % 40);
        clock.anchor(&tc, at(n * 500));
        for offset in [480, 30, 250, 499] {
            match clock.sample(at(n * 500 + offset)) {
                Some(Reading::Running(shown)) => {
                    let position = shown.frame_position();
                    assert!(position >= highest, "{position} after {highest}");
                    highest = position;
                }
                other => panic!("{other:?}"),
            }
        }
    }
}

#[test]
fn a_reading_between_two_nanoseconds_is_rounded_to_the_nearer() {
    let half = Timecode::at_frame_position(500_000_000, Rate::whole(30));
    assert_eq!(half.subframe, Duration::from_nanos(16_666_667));
    let third = Timecode::at_frame_position(1_000_000_000 / 3, Rate::whole(25));
    assert_eq!(third.subframe, Duration::from_nanos(13_333_333));
    assert_eq!(span_of(1, 44_100), Duration::from_nanos(22_676));
    assert_eq!(span_of(48_000, 48_000), Duration::from_secs(1));
}

#[test]
fn the_marks_stand_under_the_bytes_of_the_kind() {
    let wide = print_payload(Duration::from_secs(1), "box", "\u{e9}", Some(&[1, 2]), &[1, 3]);
    assert_eq!(wide, "[  1.000s] box\n    \u{e9}  01 03\n           ^^\n");
    let plain = print_payload(Duration::from_secs(1), "box", "e", Some(&[1, 2]), &[1, 3]);
    assert_eq!(plain, "[  1.000s] box\n    e  01 03\n          ^^\n");
}

#[test]
fn a_steep_line_is_as_steep_as_it_is() {
    let points = [Point { x: 0, y: 0 }, Point { x: 2, y: 20_000 }, Point { x: 4, y: 40_000 }];
    let line = fit(&points).unwrap();
    assert_eq!(line.slope.word(), Some(10_000 * 1_000_000_000_000_000));
    let far = [Point { x: i128::MIN, y: i128::MIN }, Point { x: i128::MAX, y: i128::MAX }];
    assert_eq!(fit(&far).unwrap().slope.word(), Some(1_000_000_000_000_000));
}
