use std::collections::HashMap;

use shokushu::ble::jam::TIMECODE_CHAR;
use shokushu::ble::scan::CentralEvent;
use shokushu::ble::uuids::uuid_from_u16;
use shokushu::ble::{COMPANY_ID, SERVICE_UUID_16};
use shokushu::gatt::phase::{one_way, round_trip, session, Phase};
use shokushu::gatt::session::{
    after_attempt, after_session, begin, expired, first_read_line, name_answers, period, polling,
    remaining, spoils_the_samples, subscribe_line, take_initial, title, tree_line, visit, Clock,
    Happening, Next, Options, Session, Then,
};
use shokushu::gatt::{advert_line, advert_timecode, log_line, Run};
use shokushu::time::{Duration, Instant};

const VENDOR: [u8; 7] = [0x19, 0x0c, 0x24, 0x33, 0x05, 0x67, 0x51];

fn options() -> Options {
    Options { seconds: 120, scan: false, poll_ms: 5_000, no_subscribe: false, reconnect: true }
}

fn at(millis: u64) -> Instant {
    Instant::after(Duration::from_millis(millis))
}

fn clock(now: u64) -> Clock {
    Clock { overall: at(0), start: at(1_000), now: at(now) }
}

#[test]
fn a_run_expires_unless_it_has_no_end() {
    let run = options();
    assert!(!expired(&run, Duration::from_millis(119_999)));
    assert!(expired(&run, Duration::from_secs(120)));
    assert_eq!(remaining(&run, Duration::from_secs(20)), Some(Duration::from_secs(100)));
    assert_eq!(remaining(&run, Duration::from_secs(200)), Some(Duration::zero()));
    let endless = Options { seconds: 0, ..options() };
    assert!(!expired(&endless, Duration::from_secs(9_999)));
    assert_eq!(remaining(&endless, Duration::from_secs(1)), None);
}

#[test]
fn a_phase_run_polls_at_once() {
    assert_eq!(period(&options(), false), Duration::from_secs(5));
    assert_eq!(period(&options(), true), Duration::from_millis(1));
    let never = Options { poll_ms: 0, ..options() };
    assert_eq!(period(&never, false), Duration::from_millis(1));
    assert!(!polling(&never, false));
    assert!(polling(&never, true));
}

#[test]
fn only_the_vendor_service_is_visited() {
    let vendor = uuid_from_u16(SERVICE_UUID_16);
    assert!(visit(&options(), false, vendor + 1, 1, true, true).is_none());
    let all = visit(&options(), false, vendor, 1, true, true).unwrap();
    assert!(all.read && all.subscribe && all.poll);
    let quiet = Options { no_subscribe: true, ..options() };
    let read = visit(&quiet, false, vendor, 1, true, true).unwrap();
    assert!(read.read && !read.subscribe);
    // A phase run times round trips on the timecode alone.
    assert!(!visit(&options(), true, vendor, 1, true, false).unwrap().poll);
    assert!(visit(&options(), true, vendor, TIMECODE_CHAR, true, false).unwrap().poll);
    assert!(spoils_the_samples(&options(), true, true));
    assert!(!spoils_the_samples(&quiet, true, true));
}

#[test]
fn the_tree_is_printed_once() {
    assert_eq!(
        title("Ricki"),
        "\n=== Ricki: vendor service 0000fdac-0000-1000-8000-00805f9b34fb\n"
    );
    assert_eq!(tree_line(1, "READ"), "  00000000-0000-0000-0000-000000000001  READ\n");
    assert_eq!(first_read_line(true, Ok(&[1, 2])), "      read = 01 02\n");
    assert_eq!(first_read_line(false, Ok(&[1, 2])), "");
    assert_eq!(first_read_line(false, Err("gone")), "      read failed: gone\n");
    assert_eq!(subscribe_line(true, None), "      subscribed\n");
    assert_eq!(subscribe_line(false, None), "");
    assert_eq!(subscribe_line(false, Some("no")), "      subscribe failed: no\n");
}

#[test]
fn a_read_is_logged_only_when_it_changes() {
    let mut run = Run::default();
    let elapsed = Duration::from_millis(1_500);
    let first = take_initial(&mut run, TIMECODE_CHAR, &[1], elapsed).unwrap();
    assert_eq!(first, "[  1.500s] READ   0dab144c  01\n");
    assert_eq!(run.note(TIMECODE_CHAR, &[1], elapsed, "READ  "), None);
    assert!(run.note(TIMECODE_CHAR, &[2], elapsed, "READ  ").is_some());
    assert_eq!(run.polls.get(TIMECODE_CHAR).unwrap().count, 1);
    assert_eq!(
        log_line(elapsed, "NOTIFY", TIMECODE_CHAR, &[0x22, 0, 0x19, 12, 36, 51, 5, 0x67, 0x51]),
        "[  1.500s] NOTIFY 0dab144c  22 00 19 0c 24 33 05 67 51   -> 12:36:51:05  25fps +26449µs\n"
    );
}

#[test]
fn a_notification_keeps_the_link_alive() {
    let mut run = Run::default();
    let mut talk = Session::new("a".to_string(), "Ricki".to_string());
    let note = Happening::Notified { uuid: TIMECODE_CHAR, value: &[1], at: at(3_000) };
    let done = talk.take(&mut run, &note, clock(3_000));
    assert_eq!(done.log, "[  3.000s] NOTIFY 0dab144c  01\n");
    assert_eq!((done.record, done.next), (None, Next::GoOn));
    assert_eq!(talk.lived, Duration::from_secs(2));
    assert_eq!(run.digests.get(TIMECODE_CHAR).unwrap().count, 1);

    let ended = talk.take(&mut run, &Happening::NotificationsEnded, clock(4_000));
    assert_eq!(ended.log, "[  4.000s] notification stream ended\n");
    assert_eq!(ended.next, Next::Stop);
    assert!(talk.tidies_up());
}

#[test]
fn a_refused_read_ends_the_session() {
    let mut run = Run::default();
    let mut talk = Session::new("a".to_string(), "Ricki".to_string());
    let refused = Happening::Refused { uuid: TIMECODE_CHAR, why: "gone" };
    let done = talk.take(&mut run, &refused, clock(2_000));
    assert_eq!(done.log, "[  2.000s] READ   0dab144c  failed: gone\n");
    assert_eq!(done.next, Next::Stop);
    assert!(!talk.tidies_up());
}

#[test]
fn a_phase_run_records_its_round_trips() {
    let mut run = Run::default();
    run.phase = Some(Phase::new());
    let mut talk = Session::new("a".to_string(), "Ricki".to_string());
    let answered = Happening::Answered {
        uuid: TIMECODE_CHAR,
        sent: at(2_000),
        received: at(2_040),
        bytes: &VENDOR,
    };
    let done = talk.take(&mut run, &answered, clock(2_041));
    assert_eq!(done.log, "");
    assert_eq!(
        done.record.unwrap(),
        r#"{"kind":"read","t0_micros":2000000,"t1_micros":2040000,"payload":"190c2433056751","fps":25,"hours":12,"minutes":36,"seconds":51,"frames":5,"subframe_micros":26449}"#
    );
    let polled = talk.take(&mut run, &Happening::Polled, clock(2_042));
    assert_eq!(polled.next, Next::PollAfter(Duration::from_micros(7_919)));
}

#[test]
fn only_the_connected_box_is_counted() {
    let mut run = Run::default();
    run.phase = Some(Phase::new());
    let mut talk = Session::new("a".to_string(), "Ricki".to_string());
    for (id, who, counted) in [("a", "Ricki", 1), ("b", "(other)", 1)] {
        let event = CentralEvent::ManufacturerDataAdvertisement {
            id: id.to_string(),
            manufacturer_data: HashMap::from([(COMPANY_ID, vec![2, 0, 0x60, 1, 0x13])]),
        };
        let heard = Happening::Heard { event: &event, at: at(2_000) };
        let done = talk.take(&mut run, &heard, clock(2_000));
        assert_eq!(done.log, format!("[  2.000s] {who} ADV mfg  02 00 60 01 13   -> 96%\n"));
        assert_eq!(run.adverts, counted);
    }
}

#[test]
fn an_advertisement_is_a_line_and_maybe_a_timecode() {
    let payload = vec![0x22, 0, 0x19, 12, 36, 51, 5, 0x67, 0x51];
    let event = CentralEvent::ServiceDataAdvertisement {
        id: "a".to_string(),
        service_data: HashMap::from([(uuid_from_u16(SERVICE_UUID_16), payload)]),
    };
    assert_eq!(advert_timecode(&event).unwrap().to_string(), "12:36:51:05");
    assert_eq!(
        advert_line(&event).unwrap(),
        "ADV svc  22 00 19 0c 24 33 05 67 51   -> 12:36:51:05  25fps +26449µs"
    );
    assert_eq!(advert_line(&CentralEvent::StateUpdate), None);
    assert_eq!(advert_timecode(&CentralEvent::StateUpdate), None);
}

#[test]
fn a_failed_attempt_looks_for_the_box_again() {
    let elapsed = Duration::from_secs(3);
    assert_eq!(after_attempt(&options(), Ok(()), elapsed), (Then::Converse, String::new()));
    assert_eq!(
        after_attempt(&options(), Err("no"), elapsed),
        (Then::Rediscover, "[  3.000s] connect failed: no\n".to_string())
    );
    let once = Options { reconnect: false, ..options() };
    assert_eq!(after_attempt(&once, Err("no"), elapsed).0, Then::Stop);
}

#[test]
fn a_session_leaves_its_life_behind() {
    let mut run = Run::default();
    assert_eq!(begin(&mut run), (1, true));
    assert_eq!(begin(&mut run), (2, false));
    let life = Duration::from_secs(6);
    let elapsed = Duration::from_secs(10);
    assert_eq!(
        after_session(&mut run, &options(), Ok(life), elapsed),
        (Then::Connect, String::new())
    );
    assert_eq!(run.lives, [life]);
    assert_eq!(
        after_session(&mut run, &options(), Err("no"), Duration::from_secs(120)),
        (Then::Stop, "[120.000s] session failed: no\n".to_string())
    );
    assert_eq!(run.lives, [life]);
    assert_eq!(
        run.summarise(Duration::from_secs(120)),
        "summary over 120.0s in 2 connection(s)\n  link life over 1 sessions: 6.00s..6.00s, mean \
         6.00s\n"
    );
}

#[test]
fn records_have_one_shape_whether_they_decode_or_not() {
    assert_eq!(
        round_trip(at(0), at(1), at(2), &[0xff]),
        r#"{"kind":"read","t0_micros":1000,"t1_micros":2000,"payload":"ff","fps":null,"hours":null,"minutes":null,"seconds":null,"frames":null,"subframe_micros":null}"#
    );
    assert_eq!(
        one_way("notify", at(0), at(3), None),
        r#"{"kind":"notify","at_micros":3000,"fps":null,"hours":null,"minutes":null,"seconds":null,"frames":null,"subframe_micros":null}"#
    );
    assert_eq!(
        session(at(0), at(3), 2, "dropped"),
        r#"{"kind":"session","at_micros":3000,"session":2,"event":"dropped"}"#
    );
}

#[test]
fn a_failed_write_stops_the_records_and_is_reported() {
    let mut phase = Phase::new();
    assert!(phase.writing());
    phase.wrote(Ok(()));
    phase.wrote(Err("disk full".to_string()));
    assert!(!phase.writing());
    let mut run = Run::default();
    run.phase = Some(phase);
    let report = run.summarise(Duration::from_secs(1));
    assert!(
        report.contains("  phase: 1 sample(s) written, then writing failed: disk full\n"),
        "{report}"
    );
}

#[test]
fn a_box_is_taken_by_its_name_as_it_is_written() {
    assert!(name_answers(None, "<unnamed>"));
    assert!(name_answers(Some("ick"), "Ricki"));
    assert!(!name_answers(Some("RICK"), "Ricki"));
}
