use shokushu::ble::jam::{dither, vendor_timecode, Adverts, ONE_BLOCK_SECS};
use shokushu::jam::{Calibrator, Flaw, Link, BLOCK_SECS};
use shokushu::time::{Duration, Instant};
use shokushu::timecode::{Rate, Timecode};

fn now() -> Instant {
    Instant::after(Duration::from_secs(1_000))
}

fn later(at: Instant, d: Duration) -> Instant {
    at.checked_add(d).unwrap()
}


const INTERVAL: f64 = 0.030;
const OUT_FLOOR: f64 = 0.0017;
const RET_FLOOR: f64 = 0.0017;
const ADVERT_FLOOR: f64 = 0.00035;
const DRIFT: f64 = 8.6e-6;

fn theta(host: f64) -> f64 {
    10.0 * 3600.0 + DRIFT * host
}

fn stamp(device: f64) -> Timecode {
    Timecode::at_frame_position((device * 24.0 * 1e9).round() as i128, Rate::whole(24))
}

fn dur(secs: f64) -> Duration {
    Duration::from_nanos((secs.max(0.0) * 1e9).round() as u64)
}

fn ms(d: Duration) -> f64 {
    d.as_nanos() as f64 / 1e6
}

fn connection(cal: &mut Calibrator, base: Instant, offset: f64) {
    for n in 1..=200u64 {
        let t0 = offset + n as f64 * 0.033;
        let phase = (dither(n).as_nanos() as f64 / 1e9).min(INTERVAL);
        let d_out = OUT_FLOOR + (INTERVAL - phase);
        let stamped = t0 + d_out;
        cal.round_trip(
            &stamp(stamped + theta(stamped)),
            later(base, dur(t0)),
            later(base, dur(t0 + d_out + RET_FLOOR + phase)),
        );
    }
}

fn advert(cal: &mut Calibrator, base: Instant, at: f64, delay: f64) {
    let stamped = at - delay;
    cal.advert(&stamp(stamped + theta(stamped)), later(base, dur(at)), Link::Down);
}

#[test]
fn jam_the_dither_sweeps_the_connection_interval_rather_than_landing_on_it() {
    const INTERVAL: u64 = 30_000;
    let mut phases: Vec<u64> = (1..=200)
        .map(|n| dither(n).as_micros() as u64 % INTERVAL)
        .collect();
    phases.sort_unstable();
    let widest = phases
        .windows(2)
        .map(|pair| pair[1] - pair[0])
        .max()
        .expect("two hundred waits");
    assert!(
        widest < INTERVAL / 50,
        "widest unsampled phase gap {widest} µs"
    );
}

#[test]
fn one_block_makes_the_answer_independent_of_when_the_connection_happened() {
    let offsets = [23.5, 24.0, 25.0, 27.0, 29.5, 29.9, 29.95];
    let feed = |block: Duration, offset: f64| {
        let base = now();
        let mut cal = Calibrator::since(base).with_block(block);
        connection(&mut cal, base, offset);
        for k in 0..90u64 {
            let jitter = ((k * 37) % 11) as f64 * 0.0005;
            advert(
                &mut cal,
                base,
                offset + 7.0 + k as f64 * 0.7,
                ADVERT_FLOOR + jitter,
            );
        }
        cal.finish()
    };

    let whole: Vec<_> = offsets
        .iter()
        .map(|&at| feed(Duration::from_secs(ONE_BLOCK_SECS), at).expect("a clean capture"))
        .collect();
    for (at, done) in offsets.iter().zip(&whole) {
        assert_eq!(done.blocks().len(), 1, "ONE_BLOCK split at {at}");
        assert!(
            done.offset().abs_diff(whole[0].offset()) < Duration::from_micros(1),
            "offset moved to {:.3} ms because the connection happened at {at} s",
            ms(done.offset())
        );
    }

    let split: Vec<_> = offsets.iter().map(|&at| feed(Duration::from_secs(BLOCK_SECS), at)).collect();
    assert!(
        split.iter().any(|r| r.is_err()),
        "no offset was refused on the 30 s grid, so this test is no longer \
         exercising the thin-block hazard"
    );
    let survived: Vec<f64> = split.iter().flatten().map(|d| ms(d.offset())).collect();
    let spread = survived.iter().cloned().fold(f64::MIN, f64::max)
        - survived.iter().cloned().fold(f64::MAX, f64::min);
    assert!(
        spread > 0.25,
        "the surviving 30 s-grid captures agreed to {spread:.3} ms, so a \
         split block no longer moves the answer and ONE_BLOCK buys nothing"
    );
}

#[test]
fn jam_a_vendor_payload_decodes_as_the_headerless_record_it_is() {
    let tc = vendor_timecode(&[0x19, 0x0c, 0x24, 0x33, 0x05, 0x67, 0x51])
        .expect("seven bytes of headerless timecode");
    assert_eq!(tc.rate.fps, 25);
    assert_eq!((tc.hours, tc.minutes, tc.seconds, tc.frames), (12, 36, 51, 5));
    assert_eq!(tc.subframe.as_micros(), 0x6751);

    assert!(vendor_timecode(&[0u8; 24]).is_none());
    assert!(
        vendor_timecode(&[
            0x0d, 0x6c, 0x00, 0x0c, 0x01, 0x00, 0x53, 0x19, 0x00, 0x00, 0x04, 0x09, 0x1a,
            0x0b, 0x1c, 0x28,
        ])
        .is_none()
    );
}

#[test]
fn an_advertisement_past_the_window_never_reaches_the_calibrator() {
    let base = now();
    let mut cal = Calibrator::since(base).with_block(Duration::from_secs(ONE_BLOCK_SECS));
    connection(&mut cal, base, 0.0);

    let opened = later(base, dur(7.0));
    let mut adverts = Adverts::new(cal, opened, Duration::from_secs(10));

    assert!(adverts.take(&stamp(theta(8.0) + 8.0), later(base, dur(8.0))));
    assert!(adverts.open(later(base, dur(16.999))));
    assert!(!adverts.open(later(base, dur(17.0))));
    assert!(!adverts.take(&stamp(theta(17.0) + 17.0), later(base, dur(17.0))));
    assert!(!adverts.take(&stamp(theta(90.0) + 90.0), later(base, dur(90.0))));
    assert_eq!(adverts.taken, 1, "only the one inside the window counted");

    let mut cal = Calibrator::since(base).with_block(Duration::from_secs(ONE_BLOCK_SECS));
    connection(&mut cal, base, 0.0);
    let mut late = Adverts::new(cal, opened, Duration::from_secs(10));
    for k in 0..40u64 {
        let jitter = ((k * 37) % 11) as f64 * 0.0005;
        let at = 30.0 + k as f64 * 0.7;
        assert!(!late.take(
            &stamp(theta(at - ADVERT_FLOOR - jitter) + at - ADVERT_FLOOR - jitter),
            later(base, dur(at)),
        ));
    }
    assert!(
        matches!(late.calibrator.finish(), Err(Flaw::NoFreeRunning)),
        "a late advertisement got into the calibrator"
    );
}

#[test]
fn a_wider_window_loses_offset_to_drift_and_eventually_refuses_the_capture() {
    let last_advert = |window: f64| {
        let mut at = 7.0;
        while at + 0.7 - 7.0 < window {
            at += 0.7;
        }
        at
    };
    let measure = |window: f64| {
        let base = now();
        let mut cal = Calibrator::since(base).with_block(Duration::from_secs(ONE_BLOCK_SECS));
        connection(&mut cal, base, 0.0);
        let mut at = 7.0;
        while at - 7.0 < window {
            advert(&mut cal, base, at, ADVERT_FLOOR);
            at += 0.7;
        }
        cal.finish()
    };

    let short = measure(20.0).expect("a clean capture");
    let long = measure(200.0).expect("a clean capture");

    let lost = ms(short.offset()) - ms(long.offset());
    let predicted = DRIFT * (last_advert(200.0) - last_advert(20.0)) * 1e3 / 2.0;
    assert!(
        lost > 0.0,
        "a wider window must lose offset, not gain it: {lost:+.3} ms"
    );
    assert!(
        (lost - predicted).abs() < 0.02,
        "the wider window lost {lost:.3} ms; drift over the extra \
         {:.0} s predicts {predicted:.3}",
        last_advert(200.0) - last_advert(20.0)
    );

    assert!(
        matches!(measure(400.0), Err(Flaw::StreamsContradict { .. })),
        "a 400 s window should have contradicted, not reduced"
    );
}
