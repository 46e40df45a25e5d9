use shokushu::ble::diagnostics::{shape_of, Census};
use shokushu::screen::{redraw, Notice};
use shokushu::tentacle::{diagnose, lay_out, survey, Diagnosis, Row, Seen};
use shokushu::time::{Duration, Instant};
use shokushu::timecode::{Rate, Timecode};

fn start() -> Instant {
    Instant::after(Duration::from_secs(1_000))
}

fn later(at: Instant, d: Duration) -> Instant {
    at.checked_add(d).unwrap()
}

fn say(notice: &mut Notice, diagnosis: Diagnosis) -> String {
    notice.show(diagnosis.key, diagnosis.text)
}

fn row(order: (Instant, &str), name: &str) -> Row {
    Row {
        order: (order.0, order.1.into()),
        tc: Timecode {
            hours: 9,
            minutes: 44,
            seconds: 22,
            frames: 13,
            rate: Rate::whole(25),
            subframe: Duration::from_micros(12_000),
        },
        name: name.into(),
        date: None,
        rssi: Some(-46),
        battery: Some(97),
        note: String::new(),
    }
}

#[test]
fn tentacle_ble_nothing_in_range_draws_nothing() {
    assert_eq!(redraw(&[], 0), "");
}

#[test]
fn tentacle_ble_the_first_draw_leaves_the_cursor_below_the_lines() {
    assert_eq!(
        redraw(&["a".into(), "b".into()], 0),
        "\ra\x1b[K\nb\x1b[K\n"
    );
}

#[test]
fn tentacle_ble_a_redraw_comes_up_by_what_was_drawn_last_time() {
    assert_eq!(
        redraw(&["a".into(), "b".into(), "c".into()], 2),
        "\x1b[2A\ra\x1b[K\nb\x1b[K\nc\x1b[K\n"
    );
}

#[test]
fn tentacle_ble_a_device_dropping_off_has_its_line_blanked() {
    assert_eq!(
        redraw(&["a".into()], 3),
        "\x1b[3A\ra\x1b[K\n\x1b[K\n\x1b[K\n\x1b[2A"
    );
}

#[test]
fn lines_keep_their_order_however_the_map_hands_them_over() {
    let early = start();
    let late = later(early, Duration::from_secs(1));
    let ricki = || row((early, "aabbccdd"), "Ricki");
    let bob = || row((late, "00112233"), "Bob");

    let forwards = lay_out(vec![ricki(), bob()]);
    let backwards = lay_out(vec![bob(), ricki()]);

    assert_eq!(forwards, backwards);
    assert!(forwards[0].contains("Ricki"), "{:?}", forwards);
    assert!(forwards[1].contains("Bob"), "{:?}", forwards);
}

#[test]
fn tentacle_ble_two_devices_that_start_together_still_order_the_same_way() {
    let at = start();
    let one = || row((at, "00112233"), "Bob");
    let two = || row((at, "aabbccdd"), "Ricki");

    assert_eq!(lay_out(vec![one(), two()]), lay_out(vec![two(), one()]));
}

#[test]
fn tentacle_ble_the_battery_column_keeps_its_width_at_every_charge() {
    let at = start();
    let mut full = row((at, "00112233"), "Bob");
    full.battery = Some(100);
    let mut low = row((later(at, Duration::from_secs(1)), "aabbccdd"), "Ricki");
    low.name = "Bob".into();
    low.battery = Some(7);

    let lines = lay_out(vec![full, low]);
    assert!(lines[0].contains("100%"), "{:?}", lines[0]);
    assert!(lines[1].contains("  7%"), "{:?}", lines[1]);
    assert_eq!(lines[0].len(), lines[1].len());
}

#[test]
fn tentacle_ble_a_device_that_has_not_sent_its_battery_yet_leaves_the_column_out() {
    let at = start();
    let mut row = row((at, "00112233"), "Bob");
    row.battery = None;
    assert!(!lay_out(vec![row])[0].contains('%'));
}

fn text_of(census: &Census, filter: Option<&str>) -> String {
    diagnose(census, filter).text
}

fn device(name: &str, fdac: u64, unparsed: u64) -> Seen {
    Seen {
        name: Some(name.into()),
        adverts: 1,
        fdac,
        unparsed,
        unparsed_sample: if unparsed > 0 {
            Some(vec![0x22, 0x7d, 0x19, 0x0b, 0x25, 0x28, 0x15, 0x5f, 0xc6])
        } else {
            None
        },
        ..Default::default()
    }
}

#[test]
fn tentacle_ble_a_scan_delivering_nothing_says_so() {
    let said = text_of(&survey(0, &[]), None);
    assert!(said.contains("not one BLE advertisement"), "{said}");
    assert!(said.contains("suspect the scan"), "{said}");
}

#[test]
fn tentacle_ble_a_filter_that_matches_nothing_blames_the_filter() {
    let said = text_of(&survey(40, &[]), Some("rikki"));
    assert!(said.contains("40 BLE devices"), "{said}");
    assert!(said.contains("\"rikki\""), "{said}");
    assert!(said.contains("without --name"), "{said}");
}

#[test]
fn tentacle_ble_a_room_with_no_tentacle_in_it_says_that() {
    let phone = device("someone's phone", 0, 0);
    let watch = device("<unnamed>", 0, 0);
    let said = text_of(&survey(2, &[&phone, &watch]), None);
    assert!(said.contains("2 BLE devices in range"), "{said}");
    assert!(said.contains("none advertising 0xFDAC"), "{said}");
    assert!(said.contains("no Tentacle here"), "{said}");
}

#[test]
fn tentacle_ble_a_payload_that_stopped_decoding_is_reported_with_its_bytes() {
    let ricki = device("Ricki", 160, 160);
    let liliana = device("Liliana", 151, 151);
    let said = text_of(&survey(72, &[&ricki, &liliana]), None);

    assert!(said.contains("2 devices advertising 0xFDAC"), "{said}");
    assert!(said.contains("311 of 311 payloads did not decode"), "{said}");
    assert!(said.contains("22 7d 19 0b 25 28 15 5f c6"), "{said}");
    assert!(said.contains("--raw -a"), "{said}");
}

#[test]
fn a_ticking_timecode_is_not_a_new_failure_every_packet() {
    let first = [0x22, 0x7d, 0x19, 0x0b, 0x25, 0x28, 0x15, 0x5f, 0xc6];
    let later = [0x22, 0x7d, 0x19, 0x0b, 0x38, 0x21, 0x11, 0xa0, 0x2e];
    assert_eq!(shape_of(&first), shape_of(&later));

    let date = [0x42, 0x7d, 0x00, 0x26, 0x09, 0x04, 0x02, 0xa1, 0x00];
    assert_eq!(shape_of(&first), shape_of(&date));

    let reflagged = [0x22, 0x7e, 0x19, 0x0b, 0x25, 0x28, 0x15, 0x5f, 0xc6];
    assert_ne!(shape_of(&first), shape_of(&reflagged));
    assert_ne!(shape_of(&first), shape_of(&first[..8]));
}

#[test]
fn tentacle_ble_one_device_reads_as_singular() {
    let ricki = device("Ricki", 9, 9);
    let said = text_of(&survey(1, &[&ricki]), None);
    assert!(said.contains("1 device advertising"), "{said}");
    assert!(!said.contains("1 devices"), "{said}");
}

#[test]
fn tentacle_ble_dates_arriving_without_timecode_is_its_own_case() {
    let ricki = device("Ricki", 4, 0);
    let said = text_of(&survey(3, &[&ricki]), None);
    assert!(said.contains("all 4 payloads decoded"), "{said}");
    assert!(said.contains("none has carried timecode"), "{said}");
}

#[test]
fn the_same_device_is_blamed_however_the_map_hands_them_over() {
    let quiet = device("Aaa", 300, 1);
    let loud = device("Zzz", 300, 200);
    let forwards = survey(2, &[&quiet, &loud]);
    let backwards = survey(2, &[&loud, &quiet]);

    assert_eq!(forwards, backwards);
    assert_eq!(forwards.sample.unwrap().0, "Zzz");
}

#[test]
fn a_device_with_no_failures_is_never_blamed_for_them() {
    let broken = device("Aaa", 10, 10);
    let healthy = device("Zzz", 10, 0);
    let census = survey(2, &[&healthy, &broken]);

    assert_eq!(census.unparsed, 10);
    assert_eq!(census.sample.unwrap().0, "Aaa");
}

#[test]
fn devices_below_the_name_filter_are_counted_but_not_surveyed() {
    let census = survey(9, &[]);
    assert_eq!(census.devices, 9);
    assert_eq!(census.matched, 0);
    assert_eq!(census.payloads, 0);
}

#[test]
fn tentacle_ble_a_notice_only_writes_when_the_words_change() {
    let mut notice = Notice { tty: false, shown: None, key: None };

    say(&mut notice, Diagnosis::new("no-tentacle", "29 devices".to_string()));
    assert_eq!(notice.shown.as_deref(), Some("29 devices"));
    say(&mut notice, Diagnosis::new("no-tentacle", "37 devices".to_string()));
    assert_eq!(notice.shown.as_deref(), Some("29 devices"));

    say(&mut notice, Diagnosis::new("unparsed:7d/9", "bytes moved".to_string()));
    assert_eq!(notice.shown.as_deref(), Some("bytes moved"));
    say(&mut notice, Diagnosis::new("unparsed:7e/9", "moved again".to_string()));
    assert_eq!(notice.shown.as_deref(), Some("moved again"));

    notice.clear();
    assert_eq!(notice.shown, None);
    assert_eq!(notice.key, None);
}

#[test]
fn tentacle_ble_the_name_column_is_padded_to_the_widest_name() {
    let at = start();
    let lines = lay_out(vec![
        row((at, "00112233"), "Bob"),
        row((later(at, Duration::from_secs(1)), "aabbccdd"), "Ricki"),
    ]);

    assert_eq!(lines[0].len(), lines[1].len());
}
