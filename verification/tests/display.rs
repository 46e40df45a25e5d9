use shokushu::ble::diagnostics::{diagnose, survey, Counts};
use shokushu::ble::Status;
use shokushu::display::{describe, drift_column, lay_out, Drift, Row};
use shokushu::screen::{redraw, Notice};
use shokushu::time::{Duration, Instant};
use shokushu::timecode::{Rate, Timecode};

fn start() -> Instant {
    Instant::after(Duration::from_secs(1_000))
}

fn later(at: Instant, d: Duration) -> Instant {
    at.checked_add(d).unwrap()
}


const RATE: Rate = Rate {
    fps: 24,
    drop_frame: false,
};

fn row(order: (Instant, &str), name: &str) -> Row {
    Row {
        order: (order.0, order.1.into()),
        tc: Timecode {
            subframe: Duration::from_micros(12_000),
            ..Timecode::new(9, 44, 22, 13, Rate::whole(25))
        },
        name: name.into(),
        date: None,
        rssi: Some(-46),
        battery: Some(Status { battery_percent: 97, charging: false }),
        drift: None,
        note: String::new(),
    }
}

#[test]
fn nothing_in_range_draws_nothing() {
    assert_eq!(redraw(&[], 0), "");
}

#[test]
fn the_first_draw_leaves_the_cursor_below_the_lines() {
    assert_eq!(
        redraw(&["a".into(), "b".into()], 0),
        "\ra\x1b[K\nb\x1b[K\n"
    );
}

#[test]
fn a_redraw_comes_up_by_what_was_drawn_last_time() {
    assert_eq!(
        redraw(&["a".into(), "b".into(), "c".into()], 2),
        "\x1b[2A\ra\x1b[K\nb\x1b[K\nc\x1b[K\n"
    );
}

#[test]
fn a_device_dropping_off_has_its_line_blanked() {
    assert_eq!(
        redraw(&["a".into()], 3),
        "\x1b[3A\ra\x1b[K\n\x1b[K\n\x1b[K\n\x1b[2A"
    );
}

#[test]
fn lines_keep_their_order_however_they_are_handed_over() {
    let early = start();
    let late = later(early, Duration::from_secs(1));
    let ricki = || row((early, "aabbccdd"), "Ricki");
    let bob = || row((late, "00112233"), "Bob");

    let forwards = lay_out(vec![ricki(), bob()], false);
    let backwards = lay_out(vec![bob(), ricki()], false);

    assert_eq!(forwards, backwards);
    assert!(forwards[0].contains("Ricki"), "{:?}", forwards);
    assert!(forwards[1].contains("Bob"), "{:?}", forwards);
}

#[test]
fn two_devices_that_start_together_still_order_the_same_way() {
    let at = start();
    let one = || row((at, "00112233"), "Bob");
    let two = || row((at, "aabbccdd"), "Ricki");

    assert_eq!(lay_out(vec![one(), two()], false), lay_out(vec![two(), one()], false));
}

#[test]
fn the_battery_column_keeps_its_width_at_every_charge() {
    let at = start();
    let mut full = row((at, "00112233"), "Bob");
    full.battery = Some(Status { battery_percent: 100, charging: false });
    let mut low = row((later(at, Duration::from_secs(1)), "aabbccdd"), "Ricki");
    low.name = "Bob".into();
    low.battery = Some(Status { battery_percent: 7, charging: true });

    let lines = lay_out(vec![full, low], false);
    assert!(lines[0].contains("100%"), "{:?}", lines[0]);
    assert!(lines[1].contains("  7%"), "{:?}", lines[1]);
    assert_eq!(lines[0].len(), lines[1].len());
}

#[test]
fn a_charging_device_is_marked_and_an_unplugged_one_is_not() {
    let at = start();
    let mut plugged = row((at, "00112233"), "Bob");
    plugged.battery = Some(Status { battery_percent: 98, charging: true });
    let mut unplugged = row((later(at, Duration::from_secs(1)), "aabbccdd"), "Bob");
    unplugged.battery = Some(Status { battery_percent: 98, charging: false });

    let lines = lay_out(vec![plugged, unplugged], false);
    assert!(lines[0].contains("98% +"), "{:?}", lines[0]);
    assert!(!lines[1].contains('+'), "{:?}", lines[1]);
}

#[test]
fn a_device_that_has_not_sent_its_battery_yet_leaves_the_column_out() {
    let at = start();
    let mut row = row((at, "00112233"), "Bob");
    row.battery = None;
    assert!(!lay_out(vec![row], false)[0].contains('%'));
}

const BROKEN: &[u8] = &[0x22, 0x7d, 0x19, 0x0b, 0x25, 0x28, 0x15, 0x5f, 0xc6];

fn text_of(matched: &[Counts<'_>], devices: usize, filter: Option<&str>) -> String {
    let census = survey(devices, matched);
    describe(&diagnose(&census, filter.is_some()), filter)
}

fn device(name: &str, payloads: u64, unparsed: u64) -> Counts<'_> {
    Counts {
        name: Some(name),
        payloads,
        unparsed,
        unparsed_sample: if unparsed > 0 { Some(BROKEN) } else { None },
    }
}

#[test]
fn a_scan_delivering_nothing_says_so() {
    let said = text_of(&[], 0, None);
    assert!(said.contains("not one BLE advertisement"), "{said}");
    assert!(said.contains("suspect the scan"), "{said}");
}

#[test]
fn a_filter_that_matches_nothing_blames_the_filter() {
    let said = text_of(&[], 40, Some("rikki"));
    assert!(said.contains("40 BLE devices"), "{said}");
    assert!(said.contains("\"rikki\""), "{said}");
    assert!(said.contains("without --name"), "{said}");
}

#[test]
fn a_room_with_no_tentacle_in_it_says_that() {
    let phone = device("someone's phone", 0, 0);
    let watch = device("<unnamed>", 0, 0);
    let said = text_of(&[phone, watch], 2, None);
    assert!(said.contains("2 BLE devices in range"), "{said}");
    assert!(said.contains("none advertising 0xFDAC"), "{said}");
    assert!(said.contains("no Tentacle here"), "{said}");
}

#[test]
fn a_payload_that_stopped_decoding_is_reported_with_its_bytes() {
    let ricki = device("Ricki", 160, 160);
    let liliana = device("Liliana", 151, 151);
    let said = text_of(&[ricki, liliana], 72, None);

    assert!(said.contains("2 devices advertising 0xFDAC"), "{said}");
    assert!(said.contains("311 of 311 payloads did not decode"), "{said}");
    assert!(said.contains("22 7d 19 0b 25 28 15 5f c6"), "{said}");
    assert!(said.contains("--raw -a"), "{said}");
}

#[test]
fn one_device_reads_as_singular() {
    let ricki = device("Ricki", 9, 9);
    let said = text_of(&[ricki], 1, None);
    assert!(said.contains("1 device advertising"), "{said}");
    assert!(!said.contains("1 devices"), "{said}");
}

#[test]
fn dates_arriving_without_timecode_is_its_own_case() {
    let ricki = device("Ricki", 4, 0);
    let said = text_of(&[ricki], 3, None);
    assert!(said.contains("all 4 payloads decoded"), "{said}");
    assert!(said.contains("none has carried timecode"), "{said}");
}

#[test]
fn a_notice_only_writes_when_the_words_change() {
    let mut notice = Notice { tty: false, shown: None, key: None };

    notice.show("no-tentacle".to_string(), "29 devices".to_string());
    assert_eq!(notice.shown.as_deref(), Some("29 devices"));
    notice.show("no-tentacle".to_string(), "37 devices".to_string());
    assert_eq!(notice.shown.as_deref(), Some("29 devices"));

    notice.show("unparsed:7d/9".to_string(), "bytes moved".to_string());
    assert_eq!(notice.shown.as_deref(), Some("bytes moved"));
    notice.show("unparsed:7e/9".to_string(), "moved again".to_string());
    assert_eq!(notice.shown.as_deref(), Some("moved again"));

    notice.clear();
    assert_eq!(notice.shown, None);
    assert_eq!(notice.key, None);
}

fn measured(ppm: f64) -> Option<Drift> {
    Some(Drift { ppm: parts(ppm), clamped: false, settling: false, measurements: 20 })
}

/// A drift as it is held, in billionths of a part per million.
fn parts(ppm: f64) -> i64 {
    (ppm * 1e9).round() as i64
}

#[test]
fn the_drift_column_is_absent_unless_it_was_asked_for() {
    let at = start();
    let mut r = row((at, "00112233"), "Bob");
    r.drift = measured(12.4);
    assert!(!lay_out(vec![r], false)[0].contains("ppm"));
}

#[test]
fn an_unmeasured_drift_is_not_reported_as_zero() {
    assert_eq!(drift_column(None, RATE), "— ppm");
    assert!(!drift_column(None, RATE).contains('0'));
}

#[test]
fn a_settled_measurement_is_a_signed_number_and_a_time() {
    assert_eq!(drift_column(measured(12.4), RATE), "+12.4 ppm  56 min/frame");
    assert_eq!(drift_column(measured(-3.0), RATE), "-3.0 ppm  3.9 h/frame");
}

#[test]
fn a_slip_time_says_nothing_about_which_clock_is_ahead() {
    let fast = drift_column(measured(9.0), RATE);
    let slow = drift_column(measured(-9.0), RATE);
    let tail = |c: &str| c.split_once("ppm  ").unwrap().1.to_string();
    assert_eq!(tail(&fast), tail(&slow));
    assert_ne!(fast, slow);
}

#[test]
fn a_rate_through_zero_stops_naming_a_time_rather_than_naming_a_huge_one() {
    assert!(drift_column(measured(0.0), RATE).ends_with("— /frame"));
    assert!(drift_column(measured(0.0001), RATE).ends_with("> 99 d/frame"));
}

#[test]
fn an_estimate_still_converging_is_marked() {
    let early = Some(Drift { ppm: parts(8.0), clamped: false, settling: true, measurements: 1 });
    assert_eq!(drift_column(early, RATE), "~+8.0 ppm  87 min/frame");
}

#[test]
fn a_clamped_estimate_is_distinguishable_from_a_real_one_at_the_cap() {
    let honest = Drift { ppm: parts(500.0), clamped: false, settling: false, measurements: 20 };
    let refused = Drift { clamped: true, ..honest };
    assert_ne!(
        drift_column(Some(honest), RATE),
        drift_column(Some(refused), RATE)
    );
    assert_eq!(drift_column(Some(refused), RATE), "!+500.0 ppm  1 min/frame");

    let both = Drift { clamped: true, settling: true, measurements: 1, ..honest };
    assert!(drift_column(Some(both), RATE).starts_with('!'));
}

#[test]
fn the_drift_column_holds_its_width_before_it_has_a_figure() {
    let at = start();
    let mut waiting = row((at, "00112233"), "Bob");
    waiting.note = "   x".into();
    let mut knows = Row { drift: measured(-123.4), ..row((at, "00112233"), "Bob") };
    knows.note = "   x".into();

    let width = |r: Row| lay_out(vec![r], true)[0].chars().count();
    assert_eq!(width(waiting), width(knows));
}

#[test]
fn the_name_column_is_padded_to_the_widest_name() {
    let at = start();
    let lines = lay_out(vec![
        row((at, "00112233"), "Bob"),
        row((later(at, Duration::from_secs(1)), "aabbccdd"), "Ricki"),
    ], false);

    assert_eq!(lines[0].len(), lines[1].len());
}
