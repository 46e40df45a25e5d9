use shokushu::jam::reduce::{fit, Point};
use shokushu::jam::{Bracket, Calibrator, Flaw, Link, Stream};
use shokushu::time::{Duration, Instant};
use shokushu::timecode::{Rate, Timecode};

fn now() -> Instant {
    Instant::after(Duration::from_secs(1_000))
}

fn later(at: Instant, d: Duration) -> Instant {
    at.checked_add(d).unwrap()
}


const FPS: u8 = 24;
const INTERVAL: f64 = 0.030;

const OUT_FLOOR: f64 = 0.0017;
const RET_FLOOR: f64 = 0.0017;
const ADVERT_FLOOR: f64 = 0.00035;
const DRIFT: f64 = 8.6e-6;

fn rate() -> Rate {
    Rate::whole(FPS)
}

fn stamp(device_secs: f64) -> Timecode {
    Timecode::at_frame_position((device_secs * FPS as f64 * 1e9).round() as i128, rate())
}

fn dur(secs: f64) -> Duration {
    Duration::from_nanos((secs.max(0.0) * 1e9).round() as u64)
}

fn ms(d: Duration) -> f64 {
    d.as_nanos() as f64 / 1e6
}

struct Wire {
    theta0: f64,
    drift: f64,
    out_floor: f64,
    ret_floor: f64,
    advert_floor: f64,
}

impl Default for Wire {
    fn default() -> Wire {
        Wire {
            theta0: 10.0 * 3600.0,
            drift: DRIFT,
            out_floor: OUT_FLOOR,
            ret_floor: RET_FLOOR,
            advert_floor: ADVERT_FLOOR,
        }
    }
}

impl Wire {
    fn theta(&self, host: f64) -> f64 {
        self.theta0 + self.drift * host
    }

    fn round_trip(&self, cal: &mut Calibrator, base: Instant, t0: f64, p: f64) {
        let d_out = self.out_floor + (INTERVAL - p);
        let d_ret = self.ret_floor + p;
        let stamped = t0 + d_out;
        cal.round_trip(
            &stamp(stamped + self.theta(stamped)),
            later(base, dur(t0)),
            later(base, dur(t0 + d_out + d_ret)),
        );
    }

    fn advert(&self, cal: &mut Calibrator, base: Instant, arrived: f64, delay: f64, link: Link) {
        let stamped = arrived - delay;
        cal.advert(&stamp(stamped + self.theta(stamped)), later(base, dur(arrived)), link);
    }
}

fn phase(n: u64) -> f64 {
    ((n.wrapping_mul(7_919) % 31_000) as f64 / 1e6).min(INTERVAL)
}

fn capture(wire: &Wire, seconds: f64) -> (Instant, Calibrator) {
    let base = now();
    let mut cal = Calibrator::since(base);
    let mut n = 0u64;
    while (n as f64) * 0.25 < seconds {
        wire.round_trip(&mut cal, base, n as f64 * 0.25, phase(n));
        n += 1;
    }
    let mut k = 0u64;
    while 0.6 + k as f64 * 0.7 < seconds {
        let jitter = ((k * 37) % 11) as f64 * 0.0005;
        wire.advert(
            &mut cal,
            base,
            0.6 + k as f64 * 0.7,
            wire.advert_floor + jitter,
            Link::Down,
        );
        k += 1;
    }
    (base, cal)
}

#[test]
fn recovers_the_floors_it_was_given() {
    let wire = Wire::default();
    let done = capture(&wire, 300.0).1.finish().expect("a clean capture");

    assert!(
        (ms(done.bracket_width()) - 3.4).abs() < 0.05,
        "bracket {:.3} ms, wanted the 3.4 ms put in",
        ms(done.bracket_width())
    );
    let shortest = done
        .blocks()
        .iter()
        .map(|b| b.shortest_rtt as f64 / 1e9)
        .fold(f64::INFINITY, f64::min);
    assert!(
        shortest > 0.033 && ms(done.bracket_width()) / 1e3 < shortest / 8.0,
        "shortest rtt {shortest:.4} s against bracket {:.4} s",
        ms(done.bracket_width()) / 1e3
    );
}

#[test]
fn the_advertisement_path_beats_the_read_path_and_reads_zero_by_construction() {
    let done = capture(&Wire::default(), 300.0).1.finish().unwrap();

    let advert = done.staleness(Stream::Advert).expect("adverts were fed in");
    let read = done.staleness(Stream::Read).expect("reads were fed in");

    assert_eq!(advert.low, Duration::zero(), "the best stream reads zero");
    assert!(
        (ms(read.low) - 1.35).abs() < 0.05,
        "read low {:.3} ms, wanted the 1.35 ms the floors differ by",
        ms(read.low)
    );
    assert_eq!(advert.width(), read.width());
    assert!(
        (ms(advert.high) - 2.05).abs() < 0.05,
        "advert staleness high {:.3} ms",
        ms(advert.high)
    );
    assert_eq!(done.offset(), advert.midpoint());
}

#[test]
fn pooling_across_drift_without_detrending_is_spuriously_narrow() {
    let wire = Wire::default();
    let (base, cal) = capture(&wire, 300.0);
    let done = cal.finish().unwrap();

    let detrended = ms(done.bracket_width());

    let mut raw_a = f64::INFINITY;
    let mut raw_b = f64::INFINITY;
    let mut probe = Calibrator::since(base);
    let mut n = 0u64;
    while (n as f64) * 0.25 < 300.0 {
        wire.round_trip(&mut probe, base, n as f64 * 0.25, phase(n));
        n += 1;
    }
    for sample in probe.samples.iter().filter(|s| s.stream == Stream::Read) {
        raw_a = raw_a.min(sample.a.unwrap() as f64 / 1e9);
        raw_b = raw_b.min(sample.b as f64 / 1e9);
    }
    let raw = (raw_a + raw_b) * 1e3;

    assert!(
        (detrended - 3.4).abs() < 0.05,
        "de-trended {detrended:.3} ms, wanted 3.4"
    );
    assert!(
        raw < detrended - 2.0,
        "raw pooled {raw:.3} ms should be far narrower than the true {detrended:.3} ms — \
         if it isn't, this test is no longer exercising the drift it was built to"
    );
    assert!(raw > 0.0, "raw {raw:.3} ms");
}

#[test]
fn a_block_whose_bracket_is_impossible_is_dropped_with_its_reads() {
    let wire = Wire::default();
    let base = now();
    let mut cal = Calibrator::since(base);
    let mut n = 0u64;
    while (n as f64) * 0.25 < 300.0 {
        wire.round_trip(&mut cal, base, n as f64 * 0.25, phase(n));
        n += 1;
    }
    let t0 = 100.0;
    cal.round_trip(
        &stamp(t0 - 0.027 + wire.theta(t0)),
        later(base, dur(t0)),
        later(base, dur(t0 + 0.088)),
    );
    let mut k = 0u64;
    while 0.6 + k as f64 * 0.7 < 300.0 {
        let jitter = ((k * 37) % 11) as f64 * 0.0005;
        wire.advert(
            &mut cal,
            base,
            0.6 + k as f64 * 0.7,
            wire.advert_floor + jitter,
            Link::Down,
        );
        k += 1;
    }

    let poisoned = cal
        .samples
        .iter()
        .filter(|s| s.stream == Stream::Read)
        .map(|s| s.a.unwrap() as f64 / 1e9)
        .fold(f64::INFINITY, f64::min)
        + cal
            .samples
            .iter()
            .filter(|s| s.stream == Stream::Read)
            .map(|s| s.b as f64 / 1e9)
            .fold(f64::INFINITY, f64::min);
    assert!(
        poisoned < 0.0,
        "the injected sample should make the pooled bracket negative, got {poisoned:.6} s"
    );

    let done = cal.finish().expect("one bad block out of ten is survivable");
    assert_eq!(done.contradictory_blocks(), 1);
    assert!(
        (ms(done.bracket_width()) - 3.4).abs() < 0.05,
        "bracket {:.3} ms — the bad block's reads reached the answer",
        ms(done.bracket_width())
    );
    assert!(
        done.round_trips() < 1201,
        "{} round trips, so the block's reads survived",
        done.round_trips()
    );
}

#[test]
fn every_block_impossible_is_refused_rather_than_reduced() {
    let wire = Wire::default();
    let base = now();
    let mut cal = Calibrator::since(base);
    let mut n = 0u64;
    while (n as f64) * 0.25 < 90.0 {
        wire.round_trip(&mut cal, base, n as f64 * 0.25, phase(n));
        n += 1;
    }
    for t0 in [10.0, 40.0, 70.0] {
        cal.round_trip(
            &stamp(t0 - 0.027 + wire.theta(t0)),
            later(base, dur(t0)),
            later(base, dur(t0 + 0.088)),
        );
    }
    wire.advert(&mut cal, base, 5.0, wire.advert_floor, Link::Down);

    match cal.finish() {
        Err(Flaw::EveryBlockContradictory { blocks }) => assert_eq!(blocks, 3),
        other => panic!("wanted EveryBlockContradictory, got {other:?}"),
    }
}

#[test]
fn a_subscribed_capture_is_refused_because_its_reads_are_not_round_trips() {
    let wire = Wire::default();
    let base = now();

    let mut cal = Calibrator::since(base);
    for n in 0..200u64 {
        let t0 = n as f64 * 0.25;
        match n % 20 == 0 {
            true => cal.round_trip(
                &stamp(t0 + 0.00001 + wire.theta(t0)),
                later(base, dur(t0)),
                later(base, dur(t0 + 0.000031)),
            ),
            false => wire.round_trip(&mut cal, base, t0, phase(n)),
        }
    }
    wire.advert(&mut cal, base, 5.0, wire.advert_floor, Link::Down);

    match cal.finish() {
        Err(Flaw::NotRoundTrips {
            short,
            total,
            shortest,
        }) => {
            assert_eq!(short, 10);
            assert_eq!(total, 200);
            assert!(shortest < Duration::from_micros(100), "{shortest:?}");
        }
        other => panic!("wanted NotRoundTrips, got {other:?}"),
    }

    let mut cal = Calibrator::since(base);
    for n in 0..200u64 {
        let t0 = n as f64 * 0.25;
        match n == 7 {
            true => cal.round_trip(
                &stamp(t0 + 0.00001 + wire.theta(t0)),
                later(base, dur(t0)),
                later(base, dur(t0 + 0.000031)),
            ),
            false => wire.round_trip(&mut cal, base, t0, phase(n)),
        }
    }
    wire.advert(&mut cal, base, 5.0, wire.advert_floor, Link::Down);
    assert!(cal.finish().is_ok(), "1 of 200 is under the 2% bar");
}

#[test]
fn a_device_clock_that_steps_is_refused() {
    let wire = Wire::default();
    let base = now();
    let mut cal = Calibrator::since(base);
    for n in 0..100u64 {
        let t0 = n as f64 * 0.25;
        let jump = if n >= 50 { 2.0 } else { 0.0 };
        let d_out = wire.out_floor + INTERVAL;
        cal.round_trip(
            &stamp(t0 + d_out + wire.theta(t0 + d_out) + jump),
            later(base, dur(t0)),
            later(base, dur(t0 + d_out + wire.ret_floor)),
        );
    }
    match cal.finish() {
        Err(Flaw::ClockJumped { at, by }) => {
            assert!((by as f64 / 1e9 - 2.0).abs() < 0.01, "step {by}");
            assert!((ms(at) / 1e3 - 12.5).abs() < 0.5, "at {at:?}");
        }
        other => panic!("wanted ClockJumped, got {other:?}"),
    }
}

#[test]
fn a_capture_with_no_free_running_advertisements_is_refused() {
    let wire = Wire::default();
    let (base, mut cal) = {
        let base = now();
        let mut cal = Calibrator::since(base);
        let mut n = 0u64;
        while (n as f64) * 0.25 < 60.0 {
            wire.round_trip(&mut cal, base, n as f64 * 0.25, phase(n));
            n += 1;
        }
        (base, cal)
    };
    for k in 0..80u64 {
        wire.advert(
            &mut cal,
            base,
            0.6 + k as f64 * 0.7,
            wire.advert_floor + 0.00953,
            Link::Up,
        );
    }
    assert!(matches!(cal.finish(), Err(Flaw::NoFreeRunning)));
}

#[test]
fn suppression_is_measured_at_matched_n_so_a_thin_sample_is_not_a_slow_path() {
    let wire = Wire::default();
    let base = now();
    let mut cal = Calibrator::since(base);
    let mut n = 0u64;
    while (n as f64) * 0.25 < 300.0 {
        wire.round_trip(&mut cal, base, n as f64 * 0.25, phase(n));
        n += 1;
    }

    let delay = |k: u64| wire.advert_floor + 0.004 - k as f64 * 0.000015;
    for k in 0..240u64 {
        wire.advert(&mut cal, base, 1.0 + k as f64 * 1.2, delay(k), Link::Up);
    }
    for k in 0..24u64 {
        wire.advert(&mut cal, base, 1.4 + k as f64 * 1.2, delay(k), Link::Down);
    }

    let done = cal.finish().unwrap();
    let s = done.suppression().expect("both populations present");
    assert_eq!(s.n, 24, "matched to the smaller population");

    assert!(
        s.penalty().abs() < 500_000,
        "penalty {:.3} ms — populations drawn from one sequence must read zero",
        s.penalty() as f64 / 1e6
    );

    let floor_of = |stream: Stream| ms(done.staleness(stream).unwrap().low) / 1e3;
    let artefact = floor_of(Stream::Advert) - floor_of(Stream::ConnectedAdvert);
    assert!(
        artefact > 0.003,
        "unmatched, the thin population should look {:.3} ms slower — if it does not, \
         this test no longer exercises what matching is for",
        artefact * 1e3
    );
}

#[test]
fn theil_sen_survives_a_bad_block_where_least_squares_does_not() {
    let mut points: Vec<(f64, f64)> = (0..10)
        .map(|i| {
            let x = i as f64 * 30.0 + 15.0;
            (x, DRIFT * x + ((i % 3) as f64 - 1.0) * 1e-5)
        })
        .collect();
    points.push((315.0, DRIFT * 315.0 - 0.035));

    let nanos = |secs: f64| (secs * 1e9).round() as i128;
    let fitted: Vec<Point> = points
        .iter()
        .map(|(x, y)| Point { x: nanos(*x), y: nanos(*y) })
        .collect();
    let line = fit(&fitted).expect("eleven points");
    let slope = line.slope.word().unwrap() as f64 / 1e15;

    let n = points.len() as f64;
    let mean_x = points.iter().map(|(x, _)| x).sum::<f64>() / n;
    let mean_y = points.iter().map(|(_, y)| y).sum::<f64>() / n;
    let least_squares = points
        .iter()
        .map(|(x, y)| (x - mean_x) * (y - mean_y))
        .sum::<f64>()
        / points.iter().map(|(x, _)| (x - mean_x).powi(2)).sum::<f64>();

    assert!(
        (slope - DRIFT).abs() < 1e-6,
        "Theil-Sen gave {:+.1} ppm, wanted {:+.1}",
        slope * 1e6,
        DRIFT * 1e6
    );
    assert!(
        (least_squares - DRIFT).abs() > 1e-5,
        "least squares gave {:+.1} ppm — if it survives this block too, the \
         block is no longer bad enough for this test to mean anything",
        least_squares * 1e6
    );
    assert!(least_squares < 0.0, "{:+.1} ppm", least_squares * 1e6);
}

#[test]
fn a_floor_still_falling_is_reported_unsettled() {
    let wire = Wire::default();

    let base = now();
    let mut cal = Calibrator::since(base);
    let mut n = 0u64;
    while (n as f64) * 0.25 < 300.0 {
        wire.round_trip(&mut cal, base, n as f64 * 0.25, phase(n));
        n += 1;
    }
    for k in 0..120u64 {
        let improving = 0.004 - k as f64 * 0.00003;
        wire.advert(&mut cal, base, 0.6 + k as f64 * 2.0, improving, Link::Down);
    }
    let falling = cal.finish().unwrap();
    assert!(
        !falling.settled(),
        "a floor improving every sample has not been found: {:?}",
        falling.advert_converge
    );

    assert!(
        capture(&wire, 300.0).1.finish().unwrap().settled(),
        "a floor hit every eleventh advertisement has settled"
    );
}

#[test]
fn the_report_carries_the_caveats_and_never_the_raw_offset() {
    let done = capture(&Wire::default(), 300.0).1.finish().unwrap();
    let report = done.to_string();

    for wanted in [
        "path constant",
        "does not decay",
        "zero by construction",
        "advert (free-running)",
    ] {
        assert!(report.contains(wanted), "report is missing {wanted:?}");
    }

    assert!(
        !report.contains("36000") && !report.contains("3600000"),
        "the report leaked the absolute offset:\n{report}"
    );
}

#[test]
fn an_empty_capture_says_which_thing_was_missing() {
    assert!(matches!(
        Calibrator::new().finish(),
        Err(Flaw::NoRoundTrips)
    ));
    assert!(Flaw::NoFreeRunning.to_string().contains("Rest between"));
    assert!(
        Flaw::NotRoundTrips {
            short: 2833,
            total: 3388,
            shortest: Duration::from_micros(31),
        }
        .to_string()
        .contains("subscribed")
    );
}

#[test]
fn a_bracket_midpoint_halves_the_worst_case_and_never_goes_negative() {
    let bracket = Bracket {
        low: Duration::from_micros(0),
        high: Duration::from_micros(2090),
    };
    assert_eq!(bracket.width(), Duration::from_micros(2090));
    assert_eq!(bracket.midpoint(), Duration::from_micros(1045));

    let worst_before = bracket.high;
    let worst_after = bracket.width().as_nanos() / 2;
    assert!(worst_after * 2 == worst_before.as_nanos());
}

#[test]
fn the_blocks_account_for_every_round_trip() {
    let wire = Wire::default();
    let (base, mut cal) = capture(&wire, 120.0);
    // One sample that is no round trip makes its block impossible.
    let t0 = 100.0;
    cal.round_trip(
        &stamp(t0 - 0.027 + wire.theta(t0)),
        later(base, dur(t0)),
        later(base, dur(t0 + 0.088)),
    );
    let done = cal.finish().expect("one bad block out of four is survivable");
    let starts: Vec<u128> = done.blocks().iter().map(|b| b.at.as_nanos()).collect();
    assert_eq!(starts, [0, 30_000_000_000, 60_000_000_000, 90_000_000_000]);
    assert_eq!(done.blocks().iter().map(|b| b.n).sum::<usize>(), 481);
    for block in done.blocks() {
        assert_eq!(block.contradictory, block.width < 0);
    }
    let kept: usize = done.blocks().iter().filter(|b| !b.contradictory).map(|b| b.n).sum();
    assert_eq!(done.round_trips(), kept);
    assert_eq!(done.count(Stream::Read), kept);
    assert_eq!(done.contradictory_blocks(), 1);
    assert!(done.contradictory_blocks() < done.blocks().len());
}

#[test]
fn a_capture_centuries_from_its_origin_is_where_it_is() {
    let wire = Wire::default();
    let base = Instant::after(Duration::from_secs(10_000_000_000));
    let mut cal = Calibrator::since(Instant::after(Duration::from_secs(0)));
    for n in 0..480u64 {
        wire.round_trip(&mut cal, base, n as f64 * 0.25, phase(n));
    }
    for k in 0..100u64 {
        wire.advert(&mut cal, base, 0.6 + k as f64, wire.advert_floor, Link::Down);
    }
    let done = cal.finish().expect("a clean capture");
    assert_eq!(done.blocks()[0].at, Duration::from_secs(10_000_000_000 / 30 * 30));
    assert!(done.span() > Duration::from_secs(10_000_000_119));
    assert!((ms(done.bracket_width()) - 3.4).abs() < 0.1, "{:.3} ms", ms(done.bracket_width()));
}
