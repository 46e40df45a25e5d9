use std::collections::HashMap;

use shokushu::ble::diagnostics::Census;
use shokushu::ble::scan::{CentralEvent, Properties};
use shokushu::ble::uuids::uuid_from_u16;
use shokushu::ble::{COMPANY_ID, SERVICE_UUID_16};
use shokushu::display::Screen;
use shokushu::screen::Notice;
use shokushu::tentacle::{
    census, decode, name_matches, name_of, notice, render, row_for, Seen, Taken,
};
use shokushu::time::{Duration, Instant};

const TIMECODE: [u8; 9] = [0x22, 0x7d, 0x19, 0x0b, 0x25, 0x28, 0x15, 0x5f, 0xc6];

fn at(millis: u64) -> Instant {
    Instant::after(Duration::from_millis(1_000_000 + millis))
}

fn service(payload: &[u8]) -> CentralEvent {
    CentralEvent::ServiceDataAdvertisement {
        id: "a".to_string(),
        service_data: HashMap::from([(uuid_from_u16(SERVICE_UUID_16), payload.to_vec())]),
    }
}

#[test]
fn a_device_is_named_once() {
    let mut seen = Seen::default();
    assert_eq!(name_of(&seen), "<unnamed>");
    seen.learn(Some(Properties {
        local_name: None,
        advertisement_name: Some("Ricki".to_string()),
        rssi: Some(-46),
    }));
    assert_eq!((name_of(&seen), seen.rssi), ("Ricki", Some(-46)));
    assert!(name_matches(Some("RICK"), &seen));
    assert!(!name_matches(Some("morty"), &seen));
    assert!(name_matches(None, &Seen::default()));
    assert!(!name_matches(Some("rick"), &Seen::default()));
}

#[test]
fn a_signal_strength_is_taken_and_passed_over() {
    let mut seen = Seen::default();
    let update = CentralEvent::RssiUpdate { id: "a".to_string(), rssi: -70 };
    assert!(matches!(notice(&mut seen, None, &update), Taken::Skipped));
    assert_eq!((seen.rssi, seen.adverts), (Some(-70), 1));
    assert!(matches!(notice(&mut seen, None, &service(&TIMECODE)), Taken::Wanted));
    assert!(matches!(notice(&mut seen, Some("rick"), &service(&TIMECODE)), Taken::Skipped));
    assert_eq!(seen.adverts, 2);
}

#[test]
fn a_reading_anchors_the_clock_and_json_leaves_it_alone() {
    let mut seen = Seen::default();
    assert_eq!(
        decode(true, &mut seen, &service(&TIMECODE), at(0)).unwrap(),
        r#"{"timecode":"11:37:40:21","hours":11,"minutes":37,"seconds":40,"frames":21,"subframe_micros":24518,"fps":25,"device":"<unnamed>","date":null,"rssi":null,"battery_percent":null}"#
    );
    assert_eq!(seen.first_timecode, None);
    assert!(row_for("a", &mut seen, at(0)).is_none());

    assert_eq!(decode(false, &mut seen, &service(&TIMECODE), at(0)), None);
    assert_eq!((seen.first_timecode, seen.fdac), (Some(at(0)), 2));
    let row = row_for("0123456789", &mut seen, at(1_000)).unwrap();
    assert_eq!(row.tc.to_string(), "11:37:41:21");
    assert_eq!(row.order, (at(0), "01234567".to_string()));
}

#[test]
fn what_does_not_decode_is_kept() {
    let mut seen = Seen::default();
    assert_eq!(decode(false, &mut seen, &service(&[9, 9]), at(0)), None);
    assert_eq!((seen.fdac, seen.unparsed), (1, 1));
    assert_eq!(seen.unparsed_sample, Some(vec![9, 9]));
    let charge = CentralEvent::ManufacturerDataAdvertisement {
        id: "a".to_string(),
        manufacturer_data: HashMap::from([(COMPANY_ID, vec![0x02, 0x00, 0x60, 0x01, 0x13])]),
    };
    assert_eq!(decode(false, &mut seen, &charge, at(0)), None);
    assert_eq!(seen.battery, Some(96));
}

#[test]
fn only_a_device_past_the_filter_is_counted() {
    let mut seen = Seen::default();
    let other = Seen::default();
    notice(&mut seen, None, &service(&[9, 9]));
    decode(false, &mut seen, &service(&[9, 9]), at(0));
    assert_eq!(
        census(&[&seen, &other]),
        Census {
            devices: 2,
            matched: 1,
            advertisers: 1,
            payloads: 1,
            unparsed: 1,
            sample: Some(("<unnamed>".to_string(), vec![9, 9])),
        }
    );
}

#[test]
fn a_blank_screen_explains_itself_after_the_grace() {
    let mut screen = Screen { drawn: 0, notice: Notice::new(false) };
    let census = census(&[]);
    let early = render(Vec::new(), &census, &mut screen, None, Duration::from_millis(2_999));
    assert_eq!((early.drawn.as_str(), early.said.as_str()), ("", ""));
    let late = render(Vec::new(), &census, &mut screen, None, Duration::from_secs(3));
    assert!(late.said.starts_with("no timecode: not one BLE advertisement"), "{}", late.said);
}
