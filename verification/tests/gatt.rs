use std::collections::BTreeMap;

use shokushu::ble::jam::{dither, vendor_timecode};
use shokushu::ble::uuids::{short, tail, uuid_from_u16};
use shokushu::gatt::digest::Digest;
use shokushu::gatt::phase::fields;
use shokushu::gatt::{gloss, Digests, Run, CCCD};
use shokushu::time::Duration;
use uuid::Uuid;

#[test]
fn volatility_marks_a_constant_and_a_field() {
    let mut digest = Digest::default();
    digest.add(&[0x22, 0x7d, 0x19, 0x00]);
    digest.add(&[0x22, 0x7d, 0x19, 0x01]);
    digest.add(&[0x22, 0x7d, 0x19, 0x02]);
    assert_eq!(digest.volatility(), "...3");
    assert_eq!(digest.count, 3);
    assert_eq!(digest.unique.len(), 3);
}

#[test]
fn volatility_saturates_past_nine() {
    let mut digest = Digest::default();
    for byte in 0..12u8 {
        digest.add(&[0xff, byte]);
    }
    assert_eq!(digest.volatility(), ".+");
}

#[test]
fn a_vendor_payload_decodes_as_the_headerless_record_it_is() {
    let tc = vendor_timecode(&[0x19, 0x0c, 0x24, 0x33, 0x05, 0x67, 0x51])
        .expect("seven bytes of headerless timecode");
    assert_eq!(tc.rate.fps, 25);
    assert_eq!((tc.hours, tc.minutes, tc.seconds, tc.frames), (12, 36, 51, 5));
    assert_eq!(tc.subframe.as_micros(), 0x6751);
}

#[test]
fn the_other_vendor_characteristics_are_not_read_as_a_clock() {
    assert!(vendor_timecode(&[0u8; 24]).is_none());
    let state = [
        0x0d, 0x6c, 0x00, 0x0c, 0x01, 0x00, 0x53, 0x19, 0x00, 0x00, 0x04, 0x09, 0x1a, 0x0b,
        0x1c, 0x28,
    ];
    assert!(vendor_timecode(&state).is_none());
}

#[test]
fn a_payload_that_did_not_decode_still_writes_every_key() {
    let keys = |json: String| -> Vec<String> {
        json.split(',')
            .map(|pair| pair.split(':').next().unwrap_or_default().to_string())
            .collect()
    };
    let decoded = vendor_timecode(&[0x19, 0x0c, 0x24, 0x33, 0x05, 0x67, 0x51]);
    assert!(decoded.is_some());
    assert_eq!(keys(fields(decoded)), keys(fields(None)));
}

#[test]
fn the_dither_sweeps_the_connection_interval_rather_than_landing_on_it() {
    const INTERVAL: u64 = 30_000;
    let mut phases: Vec<u64> = (1..=200)
        .map(|n| dither(n).as_micros() as u64 % INTERVAL)
        .collect();
    phases.sort_unstable();
    let widest = phases
        .windows(2)
        .map(|pair| pair[1] - pair[0])
        .max()
        .expect("two hundred waits");
    assert!(
        widest < INTERVAL / 50,
        "widest unsampled phase gap {widest} µs"
    );
}

#[test]
fn digest_tolerates_a_changing_payload_length() {
    let mut digest = Digest::default();
    digest.add(&[1, 2]);
    digest.add(&[1, 2, 3, 4]);
    assert_eq!(digest.volatility(), "....");
    assert_eq!(digest.lengths(), BTreeMap::from([(2, 1), (4, 1)]));
}

#[test]
fn repeats_count_once_as_unique() {
    let mut digest = Digest::default();
    digest.add(&[9, 9]);
    digest.add(&[9, 9]);
    assert_eq!((digest.count, digest.unique.len()), (2, 1));
}

#[test]
fn summary_reports_the_spread_of_link_lifetimes() {
    let run = Run {
        sessions: 3,
        lives: vec![
            Duration::from_millis(6780),
            Duration::from_millis(6200),
            Duration::from_millis(7100),
        ],
        ..Default::default()
    };
    let report = run.summarise(Duration::from_secs(30));
    assert!(report.contains("3 connection(s)"), "{report}");
    assert!(report.contains("6.20s..7.10s"), "{report}");
    assert!(report.contains("mean 6.69s"), "{report}");
}

#[test]
fn summary_names_a_characteristic_that_pushed_nothing() {
    let mut digest = Digest::default();
    digest.add(&[0, 0]);
    let run = Run {
        sessions: 1,
        polls: Digests { entries: vec![(uuid_from_u16(0x1234), digest)] },
        adverts: 40,
        ..Default::default()
    };
    let report = run.summarise(Duration::from_secs(60));
    assert!(report.contains("silent for the whole run"), "{report}");
    assert!(report.contains("40 advertisement events"), "{report}");
}

#[test]
fn summary_of_no_time_at_all_divides_by_the_smallest_number() {
    for count in 1..=6usize {
        let mut digest = Digest::default();
        for n in 0..count {
            digest.add(&[n as u8]);
        }
        let run = Run {
            sessions: 1,
            digests: Digests { entries: vec![(uuid_from_u16(0x1234), digest)] },
            ..Default::default()
        };
        let report = run.summarise(Duration::from_secs(0));
        let rate = format!("{count} distinct, {:.2}/s", count as f64 / f64::MIN_POSITIVE);
        assert!(report.contains("summary over 0.0s in 1 connection(s)\n"), "{report}");
        assert!(report.contains(&rate), "{report}");
        assert_eq!(report.contains("inf/s"), count >= 4);
        assert!(!report.contains("silent for the whole run"), "{report}");
        assert!(!report.contains("advertisement events"), "{report}");
    }
}

#[test]
fn summary_of_a_run_that_never_connected_says_nothing_about_link_life() {
    let report = Run::default().summarise(Duration::from_secs(5));
    assert!(!report.contains("link life"), "{report}");
}

#[test]
fn gloss_decodes_a_timecode_record() {
    let line = gloss(&[0x22, 0x7d, 0x19, 0x09, 0x22, 0x33, 0x06, 0xa6, 0x50]);
    assert!(line.contains("09:34:51:06"), "{line}");
    assert!(line.contains("25fps"), "{line}");
}

#[test]
fn gloss_is_empty_for_something_that_isnt_an_advert_record() {
    assert_eq!(gloss(&[0x01, 0x02, 0x03]), "");
}

#[test]
fn short_recognises_a_sig_uuid_and_rejects_a_vendor_one() {
    assert_eq!(short(uuid_from_u16(CCCD)), Some(CCCD));
    let vendor: u128 = "0dab1280-2cb9-11e6-b67b-9e71128cae77".parse::<Uuid>().unwrap().as_u128();
    assert_eq!(short(vendor), None);
}

#[test]
fn tail_keeps_the_part_that_differs() {
    let a: u128 = "0dab1280-2cb9-11e6-b67b-9e71128cae77".parse::<Uuid>().unwrap().as_u128();
    let b: u128 = "0dab144c-2cb9-11e6-b67b-9e71128cae77".parse::<Uuid>().unwrap().as_u128();
    assert_ne!(tail(a), tail(b));
    assert_eq!(tail(a), "0dab1280");
}
