use shokushu::big::Big;
use shokushu::ble::jam::{
    after_connect, after_look, is_tentacle, name_of, no_answer, one_block, Calibrate,
    Conversation, Opening, Pass, Rediscovery,
};
use shokushu::ble::scan::Properties;
use shokushu::ble::uuids::uuid_from_u16;
use shokushu::ble::SERVICE_UUID_16;
use shokushu::error::Error;
use shokushu::jam::Flaw;
use shokushu::time::{Duration, Instant};
use shokushu::timecode::{Rate, Timecode};
use std::collections::HashMap;

#[test]
fn each_error_has_its_words() {
    assert_eq!(Error::NoAdapter.to_string(), "no bluetooth adapter");
    assert_eq!(
        Error::NoTentacle { filter: None }.to_string(),
        "no Tentacle advertising 0xFDAC"
    );
    assert_eq!(
        Error::NoTentacle { filter: Some("a\"b".to_string()) }.to_string(),
        "no Tentacle advertising 0xFDAC named like \"a\\\"b\""
    );
    let refused = Error::Connect { name: "Ricki".to_string(), reason: "gone".to_string() };
    assert_eq!(refused.to_string(), "could not connect to Ricki: gone");
    assert_eq!(
        Error::NoTimecodeCharacteristic.to_string(),
        "no timecode characteristic on this device"
    );
    assert_eq!(Error::Bluetooth("off".to_string()).to_string(), "bluetooth: off");
    let flaw = Flaw::NoRoundTrips;
    assert_eq!(Error::from(flaw.clone()).to_string(), flaw.to_string());
}

#[test]
fn each_flaw_has_its_words() {
    assert_eq!(
        Flaw::NoRoundTrips.to_string(),
        "no round trips in the capture: nothing bounds the offset from above"
    );
    let jumped = Flaw::ClockJumped { at: Duration::from_millis(12_340), by: -2_060_000_000 };
    assert!(
        jumped.to_string().starts_with("the device clock jumped -2.1 s at 12.3 s in — a midnight"),
        "{}",
        jumped.to_string()
    );
    let short = Flaw::NotRoundTrips {
        short: 3,
        total: 9,
        shortest: Duration::from_micros(31),
    };
    assert!(
        short.to_string().contains("3 of 9 round trips") && short.to_string().contains("0.031 ms"),
        "{}",
        short.to_string()
    );
    let blocks = Flaw::EveryBlockContradictory { blocks: 4 };
    assert!(blocks.to_string().starts_with("all 4 block(s) came out with a negative bracket"));
    let crossed = Flaw::StreamsContradict {
        upper: Big::of(1_500_000),
        lower: Big::of(2_250_000),
    };
    assert!(
        crossed.to_string().contains("is 1.500 ms against a floor of 2.250 ms"),
        "{}",
        crossed.to_string()
    );
    assert!(Flaw::NoFreeRunning.to_string().starts_with("no free-running advertisements"));
}

#[test]
fn a_box_is_found_by_its_service_and_held_to_its_name() {
    let theirs = HashMap::from([(uuid_from_u16(SERVICE_UUID_16), vec![1u8])]);
    assert!(is_tentacle(&theirs));
    assert!(!is_tentacle(&HashMap::from([(1u128, vec![1u8])])));

    let calibrate = Calibrate::new().name("RICK".to_string());
    assert!(calibrate.answers("Ricki"));
    assert!(!calibrate.answers("<unnamed>"));
    assert!(Calibrate::default().answers("<unnamed>"));
    assert_eq!(
        calibrate.not_found().to_string(),
        "no Tentacle advertising 0xFDAC named like \"RICK\""
    );

    let both = Properties {
        local_name: Some("local".to_string()),
        advertisement_name: Some("advertised".to_string()),
        rssi: None,
    };
    assert_eq!(name_of(Some(both)), "local");
    let one = Properties {
        local_name: None,
        advertisement_name: Some("advertised".to_string()),
        rssi: None,
    };
    assert_eq!(name_of(Some(one)), "advertised");
    assert_eq!(name_of(None), "<unnamed>");
}

#[test]
fn one_rediscovery_and_then_the_first_reason() {
    assert!(matches!(after_connect("Ricki", None, Ok(())), Opening::Opened));
    let Opening::Rediscover { reason } = after_connect("Ricki", None, Err("stale".to_string()))
    else {
        panic!("gave up at once");
    };
    let Opening::Refused(error) = after_connect("Ricki", Some(reason), Err("again".to_string()))
    else {
        panic!("tried a third time");
    };
    assert_eq!(error.to_string(), "could not connect to Ricki: stale");
    assert_eq!(no_answer(), "no answer in 15s");

    assert!(matches!(after_look(true, Duration::zero()), Rediscovery::Found));
    let Rediscovery::Wait(wait) = after_look(false, Duration::from_secs(14)) else {
        panic!("gave up early");
    };
    assert_eq!(wait, Duration::from_millis(200));
    assert!(matches!(
        after_look(false, Duration::from_secs(15)),
        Rediscovery::GiveUp(Error::NoTentacle { filter: None })
    ));
}

#[test]
fn a_pass_counts_its_reads_and_closes_its_window() {
    let start = Instant::after(Duration::from_secs(100));
    let mut talk = Conversation::new(one_block(start));
    assert!(talk.goes_on(Duration::from_millis(11_999)));
    assert!(!talk.goes_on(Duration::from_secs(12)));

    let sent = Instant::after(Duration::from_millis(100_100));
    let received = Instant::after(Duration::from_millis(100_140));
    let payload = [0x19, 0x0c, 0x24, 0x33, 0x05, 0x67, 0x51];
    assert_eq!(talk.heard(&payload, sent, received), Duration::from_micros(7_919));
    assert_eq!(talk.heard(&[1], sent, received), Duration::from_micros(15_838));
    assert_eq!((talk.reads, talk.round_trips), (2, 1));
    assert_eq!(talk.calibrator.undecoded, 1);

    let closed = Instant::after(Duration::from_secs(107));
    let mut pass = Pass::new(
        "id".to_string(),
        "Ricki".to_string(),
        talk,
        Duration::from_secs(7),
        closed,
        Duration::from_secs(60),
    );
    assert_eq!((pass.device().as_str(), pass.name()), ("id", "Ricki"));
    assert_eq!((pass.round_trips(), pass.connected_for()), (1, Duration::from_secs(7)));
    assert_eq!(pass.closes_at(), Instant::after(Duration::from_secs(167)));

    let tc = Timecode::new(12, 36, 52, 0, Rate::whole(25));
    assert!(pass.advert(&tc, Instant::after(Duration::from_secs(108))));
    assert!(!pass.open(pass.closes_at()));
    assert!(!pass.advert(&tc, Instant::after(Duration::from_secs(168))));
    assert_eq!(pass.adverts(), 1);
    assert_eq!(pass.closes_at(), Instant::after(Duration::from_secs(167)));
    assert_eq!(pass.adverts.calibrator.origin, start);
    assert_eq!(pass.adverts.calibrator.undecoded, 1);
    assert_eq!(pass.adverts.calibrator.samples.len(), 2);
}
