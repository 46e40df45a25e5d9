use std::collections::HashMap;

use shokushu::ble::diagnostics::Diagnosis;
use shokushu::ble::scan::{
    event_peripheral, Advertisement, CentralEvent, Event, Properties, Scanner,
};
use shokushu::ble::uuids::uuid_from_u16;
use shokushu::ble::{COMPANY_ID, SERVICE_UUID_16};
use shokushu::display::{self, Drift, Screen};
use shokushu::freerun::Reading;
use shokushu::rec;
use shokushu::screen::Notice;
use shokushu::time::{Duration, Instant};

const TIMECODE: [u8; 9] = [0x22, 0x7d, 0x19, 0x0b, 0x25, 0x28, 0x15, 0x5f, 0xc6];
const DATE: [u8; 9] = [0x42, 0x05, 0x00, 0x26, 0x09, 0x04, 0x02, 0xa1, 0x00];

fn at(millis: u64) -> Instant {
    Instant::after(Duration::from_millis(1_000_000 + millis))
}

fn named(name: &str) -> Option<Properties> {
    Some(Properties {
        local_name: Some(name.to_string()),
        advertisement_name: None,
        rssi: Some(-46),
    })
}

fn service(id: &str, payload: &[u8]) -> CentralEvent {
    CentralEvent::ServiceDataAdvertisement {
        id: id.to_string(),
        service_data: HashMap::from([(uuid_from_u16(SERVICE_UUID_16), payload.to_vec())]),
    }
}

fn battery(id: &str, payload: &[u8]) -> CentralEvent {
    CentralEvent::ManufacturerDataAdvertisement {
        id: id.to_string(),
        manufacturer_data: HashMap::from([(COMPANY_ID, payload.to_vec())]),
    }
}

fn kinds(scan: &mut Scanner) -> Vec<String> {
    let mut kinds = Vec::new();
    while let Some(event) = scan.next() {
        let kind = match &event {
            Event::Discovered { .. } => "discovered",
            Event::Timecode { .. } => "timecode",
            Event::Date { .. } => "date",
            Event::Battery { .. } => "battery",
            Event::Rssi { .. } => "rssi",
            Event::Unreadable { .. } => "unreadable",
            Event::Advertised { .. } => "advertised",
            Event::Lost { .. } => "lost",
            _ => "other",
        };
        kinds.push(format!("{} {kind}", event.id()));
    }
    kinds
}

#[test]
fn a_first_timecode_is_discovered_read_and_passed_on() {
    let mut scan = Scanner::builder().start();
    scan.take_in(service("a", &TIMECODE), named("Ricki"), at(0));
    assert_eq!(kinds(&mut scan), ["a discovered", "a timecode", "a advertised"]);

    let device = scan.device(&"a".to_string()).unwrap();
    assert_eq!(device.name(), Some("Ricki"));
    assert_eq!(device.rssi(), Some(-46));
    assert_eq!(device.first_timecode(), Some(at(0)));
    assert_eq!(device.last_received().unwrap().to_string(), "11:37:40:21");
    assert_eq!((device.adverts(), device.payloads(), device.unparsed()), (1, 1, 0));
    assert!(scan.device(&"b".to_string()).is_none());
}

#[test]
fn the_event_carries_what_arrived_and_when() {
    let mut scan = Scanner::builder().start();
    scan.take_in(service("a", &TIMECODE), None, at(7));
    scan.next();
    let Some(Event::Timecode { id, timecode, at: when }) = scan.next() else {
        panic!("no timecode");
    };
    assert_eq!((id.as_str(), when), ("a", at(7)));
    assert_eq!(timecode.subframe.as_micros(), 24_518);
    let Some(Event::Advertised { data: Advertisement::Service(data), .. }) = scan.next() else {
        panic!("no advertisement");
    };
    assert_eq!(data[&uuid_from_u16(SERVICE_UUID_16)], TIMECODE);
    assert!(scan.next().is_none());
}

#[test]
fn a_date_and_a_charge_are_held_onto() {
    let mut scan = Scanner::builder().start();
    scan.take_in(service("a", &DATE), None, at(0));
    scan.take_in(battery("a", &[0x02, 0x00, 0x60, 0x01, 0x13]), None, at(1));
    scan.take_in(CentralEvent::RssiUpdate { id: "a".to_string(), rssi: -70 }, None, at(2));
    assert_eq!(
        kinds(&mut scan),
        ["a discovered", "a date", "a advertised", "a battery", "a advertised", "a rssi"]
    );
    let device = scan.device(&"a".to_string()).unwrap();
    assert_eq!(device.date().unwrap().to_string(), "2026-09-04");
    assert_eq!(device.battery().unwrap().battery_percent, 96);
    assert_eq!(device.rssi(), Some(-70));
    assert_eq!(device.first_timecode(), None);
    assert_eq!(rec::date_known(&scan, &"a".to_string()), Some("2026-09-04".to_string()));
}

#[test]
fn a_payload_that_does_not_decode_is_kept_and_counted() {
    let mut scan = Scanner::builder().start();
    scan.take_in(service("a", &[1, 2, 3]), named("Ricki"), at(0));
    assert_eq!(kinds(&mut scan), ["a discovered", "a unreadable", "a advertised"]);
    let device = scan.device(&"a".to_string()).unwrap();
    assert_eq!((device.payloads(), device.unparsed()), (1, 1));
    assert_eq!(device.unparsed_sample(), Some(&[1u8, 2, 3][..]));
    let Diagnosis::Unreadable { name, payload, .. } = scan.diagnosis() else {
        panic!("{:?}", scan.diagnosis());
    };
    assert_eq!((name.as_str(), payload), ("Ricki", vec![1, 2, 3]));
}

#[test]
fn a_filtered_out_device_is_recorded_and_says_nothing() {
    let mut scan = Scanner::builder().name("RICK".to_string()).start();
    assert_eq!(scan.filter(), Some("rick"));
    scan.take_in(service("a", &TIMECODE), named("Morty"), at(0));
    scan.take_in(service("b", &TIMECODE), None, at(0));
    assert!(scan.next().is_none());
    assert_eq!(scan.devices().len(), 2);
    assert!(matches!(scan.diagnosis(), Diagnosis::FilteredOut { devices: 2 }));

    scan.take_in(service("c", &TIMECODE), named("Ricki"), at(1));
    assert_eq!(kinds(&mut scan), ["c discovered", "c timecode", "c advertised"]);
}

#[test]
fn a_name_is_taken_once_and_a_strength_is_kept() {
    let mut scan = Scanner::builder().start();
    scan.take_in(service("a", &TIMECODE), named("Ricki"), at(0));
    scan.take_in(service("a", &TIMECODE), named("Morty"), at(1));
    let unanswered = Properties { local_name: None, advertisement_name: None, rssi: None };
    scan.take_in(service("a", &TIMECODE), Some(unanswered), at(2));
    let device = scan.device(&"a".to_string()).unwrap();
    assert_eq!((device.name(), device.rssi()), (Some("Ricki"), Some(-46)));
    assert_eq!(device.first_timecode(), Some(at(0)));
    assert_eq!(scan.devices().len(), 1);
}

#[test]
fn a_device_keeps_its_place_in_the_list() {
    let mut scan = Scanner::builder().start();
    for id in ["b", "a", "c", "a", "b"] {
        scan.take_in(CentralEvent::DeviceDiscovered(id.to_string()), None, at(0));
    }
    let ids: Vec<&str> = scan.devices().iter().map(|d| d.id().as_str()).collect();
    assert_eq!(ids, ["b", "a", "c"]);
}

#[test]
fn a_silence_is_reported_once_and_again_after_a_return() {
    let mut scan = Scanner::builder().start();
    scan.take_in(service("a", &TIMECODE), None, at(0));
    scan.take_in(CentralEvent::DeviceDiscovered("headphones".to_string()), None, at(0));
    kinds(&mut scan);

    scan.sweep_for_silence(at(4_000));
    assert!(scan.next().is_none());
    scan.sweep_for_silence(at(6_000));
    scan.sweep_for_silence(at(7_000));
    let Some(Event::Lost { id, last, since }) = scan.next() else {
        panic!("the silence was not reported");
    };
    assert_eq!((id.as_str(), last.to_string().as_str()), ("a", "11:37:40:21"));
    assert_eq!(since, Duration::from_secs(6));
    assert!(scan.next().is_none());

    scan.take_in(service("a", &TIMECODE), None, at(8_000));
    kinds(&mut scan);
    scan.sweep_for_silence(at(20_000));
    assert_eq!(kinds(&mut scan), ["a lost"]);
}

#[test]
fn only_some_events_name_a_peripheral() {
    let id = "a".to_string();
    let named = [
        CentralEvent::DeviceDiscovered(id.clone()),
        CentralEvent::DeviceUpdated(id.clone()),
        CentralEvent::ServicesAdvertisement { id: id.clone(), services: vec![1] },
        CentralEvent::RssiUpdate { id: id.clone(), rssi: 0 },
        service("a", &[]),
        battery("a", &[]),
    ];
    for event in &named {
        assert_eq!(event_peripheral(event), Some(&id), "{event:?}");
    }
    let others = [
        CentralEvent::DeviceConnected(id.clone()),
        CentralEvent::DeviceDisconnected(id.clone()),
        CentralEvent::DeviceServicesModified(id.clone()),
        CentralEvent::StateUpdate,
    ];
    for event in &others {
        assert_eq!(event_peripheral(event), None, "{event:?}");
    }
}

#[test]
fn every_kind_of_scan_has_its_diagnosis() {
    let mut scan = Scanner::builder().start();
    assert!(matches!(scan.diagnosis(), Diagnosis::SilentScan));
    scan.take_in(CentralEvent::DeviceDiscovered("x".to_string()), None, at(0));
    assert!(matches!(scan.diagnosis(), Diagnosis::NoTentacle { matched: 1 }));
    scan.take_in(service("a", &DATE), None, at(0));
    assert!(matches!(scan.diagnosis(), Diagnosis::DatesOnly { advertisers: 1, payloads: 1 }));
}

#[test]
fn a_clock_between_advertisements_is_read_through_the_device() {
    let mut scan = Scanner::builder().start();
    scan.take_in(service("a", &TIMECODE), None, at(0));
    let device = scan.device_mut(&"a".to_string()).unwrap();
    let Some(Reading::Running(tc)) = device.reading(at(1_000)) else {
        panic!("not running");
    };
    assert_eq!(tc.to_string(), "11:37:41:21");
}

#[test]
fn a_redraw_shows_the_clocks_and_then_what_is_wrong() {
    let mut scan = Scanner::builder().start();
    let mut screen = Screen { drawn: 0, notice: Notice::new(true) };
    let elapsed = Duration::from_secs(3);
    let painting = display::render(&mut scan, &mut screen, at(0), None, elapsed, &[], false);
    assert_eq!((painting.wiped.as_str(), painting.drawn.as_str()), ("", ""));
    assert!(painting.said.starts_with("\rno timecode: not one BLE advertisement"));

    scan.take_in(service("a", &TIMECODE), named("Ricki"), at(0));
    let painting = display::render(&mut scan, &mut screen, at(0), None, elapsed, &[], false);
    assert_eq!(painting.wiped, "\r\x1b[K");
    assert_eq!(
        painting.drawn,
        "\r  11:37:40:21.6     25 fps   Ricki   -46 dBm\x1b[K\n"
    );
    assert_eq!(painting.said, "");

    // Off the air the line freezes, and then goes.
    let painting = display::render(&mut scan, &mut screen, at(8_000), None, elapsed, &[], false);
    assert!(painting.drawn.contains("11:37:40:21.6"), "{}", painting.drawn);
    assert!(painting.drawn.contains("   no signal for 8.0s"), "{}", painting.drawn);
    let painting = display::render(&mut scan, &mut screen, at(31_000), None, elapsed, &[], false);
    assert_eq!(painting.drawn, "\x1b[1A\r\x1b[K\n\x1b[1A");
}

#[test]
fn a_reading_in_json_has_every_field() {
    let mut scan = Scanner::builder().start();
    scan.take_in(service("a", &DATE), named("Ricki"), at(0));
    scan.take_in(battery("a", &[0x02, 0x00, 0x60, 0x01, 0x13]), None, at(1));
    scan.take_in(service("a", &TIMECODE), None, at(1_500));
    let mut event = scan.next();
    while !matches!(event, Some(Event::Timecode { .. })) {
        event = scan.next();
    }
    let event = event.unwrap();
    assert_eq!(
        display::report_json(&scan, at(0), &event, None).unwrap(),
        r#"{"timecode":"11:37:40:21","hours":11,"minutes":37,"seconds":40,"frames":21,"subframe_micros":24518,"fps":25,"device":"Ricki","date":"2026-09-04","rssi":-46,"battery_percent":96,"charging":false,"drift_ppm":null,"drift_clamped":null,"drift_measurements":null,"frame_slip_seconds":null,"host_micros":1500000}"#
    );
    let drift = Drift { ppm: 8_000_000_000, clamped: false, settling: false, measurements: 20 };
    let line = display::report_json(&scan, at(0), &event, Some(drift)).unwrap();
    assert!(
        line.ends_with(
            r#""drift_ppm":8.000,"drift_clamped":false,"drift_measurements":20,"frame_slip_seconds":5000.0,"host_micros":1500000}"#
        ),
        "{line}"
    );
    let other = Event::Discovered { id: "a".to_string() };
    assert!(display::report_json(&scan, at(0), &other, None).is_none());
}
