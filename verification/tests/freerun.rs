use shokushu::freerun::{FreeRun, Reading};
use shokushu::time::{Duration, Instant};
use shokushu::timecode::{Rate, Timecode};

fn now() -> Instant {
    Instant::after(Duration::from_secs(1_000))
}

fn later(at: Instant, d: Duration) -> Instant {
    at.checked_add(d).unwrap()
}

const FPS: u8 = 25;
const RATE: Rate = Rate {
    fps: FPS,
    drop_frame: false,
};
const PERIOD: f64 = 1.0 / FPS as f64;

fn at(seconds: f64) -> Timecode {
    Timecode::at_frame_position((seconds * FPS as f64 * 1e9).round() as i128, RATE)
}

fn seconds_shown(clock: &mut FreeRun, now: Instant) -> f64 {
    match clock.sample(now) {
        Some(Reading::Running(tc)) => tc.frame_position() as f64 / 1e9 / FPS as f64,
        other => panic!("expected a running reading, got {other:?}"),
    }
}

fn millis(n: u64) -> Duration {
    Duration::from_millis(n)
}

struct Jitter(u64);

impl Jitter {
    fn next(&mut self, spread: f64) -> f64 {
        self.0 = self.0.wrapping_mul(6364136223846793005).wrapping_add(1);
        let unit = (self.0 >> 11) as f64 / (1u64 << 53) as f64;
        (unit * 2.0 - 1.0) * spread
    }
}

#[test]
fn extrapolates_between_anchors() {
    let t0 = now();
    let mut clock = FreeRun::default();
    clock.anchor(&at(10.0), t0);

    assert!((seconds_shown(&mut clock, t0) - 10.0).abs() < PERIOD);
    assert!((seconds_shown(&mut clock, later(t0, millis(500))) - 10.5).abs() < PERIOD);
    assert!((seconds_shown(&mut clock, later(t0, millis(1200))) - 11.2).abs() < PERIOD);
}

#[test]
fn shows_every_frame_in_between() {
    let t0 = now();
    let mut clock = FreeRun::default();
    clock.anchor(&at(10.0), t0);
    clock.anchor(&at(10.5), later(t0, millis(500)));

    let mut frames = vec![];
    for step in 0..13 {
        let now = later(t0, millis(500 + step * 40));
        if let Some(Reading::Running(tc)) = clock.sample(now) {
            frames.push(tc.frames);
        }
    }
    frames.dedup();
    assert_eq!(frames, (12..=24).collect::<Vec<u8>>());
}

#[test]
fn jitter_does_not_snap_the_clock() {
    let t0 = now();
    let mut clock = FreeRun::default();
    clock.anchor(&at(10.0), t0);

    let before = seconds_shown(&mut clock, later(t0, millis(500)));
    clock.anchor(&at(10.49), later(t0, millis(500)));
    let after = seconds_shown(&mut clock, later(t0, millis(500)));
    let moved = before - after;
    assert!(
        moved <= 0.0 || moved < 0.01 * (1.0 - 0.5) + 1e-6,
        "a 10 ms error moved the clock {} ms",
        moved * 1000.0
    );
}

#[test]
fn never_ticks_backwards() {
    let t0 = now();
    let mut clock = FreeRun::default();
    let mut jitter = Jitter(1);
    let mut shown = 0.0_f64;

    for tick in 0..12_000_u64 {
        let now = later(t0, millis(tick * 10));
        let elapsed = tick as f64 / 100.0;
        if tick % 60 == 0 {
            let error = jitter.next(0.005);
            clock.anchor(&at(10.0 + elapsed + error), now);
        }
        let position = seconds_shown(&mut clock, now);
        assert!(
            position >= shown,
            "went backwards at {elapsed}s: {shown} then {position}"
        );
        shown = position;
    }
}

#[test]
fn stays_on_the_devices_timeline() {
    let t0 = now();
    let mut clock = FreeRun::default();
    let mut jitter = Jitter(7);

    for tick in 0..12_000_u64 {
        let now = later(t0, millis(tick * 10));
        let elapsed = tick as f64 / 100.0;
        if tick % 60 == 0 {
            let error = jitter.next(0.001);
            clock.anchor(&at(10.0 + elapsed + error), now);
        }
        let position = seconds_shown(&mut clock, now);
        assert!(
            (position - (10.0 + elapsed)).abs() < 0.003,
            "off by {} ms at {elapsed}s",
            (position - (10.0 + elapsed)) * 1000.0
        );
    }
}

#[test]
fn follows_a_device_whose_clock_drifts() {
    let t0 = now();
    let mut clock = FreeRun::default();
    let drift = 1.0 + 200e-6;

    for tick in 0..30_000_u64 {
        let now = later(t0, millis(tick * 10));
        let elapsed = tick as f64 / 100.0;
        if tick % 60 == 0 {
            clock.anchor(&at(10.0 + elapsed * drift), now);
        }
        let position = seconds_shown(&mut clock, now);
        assert!(
            (position - (10.0 + elapsed * drift)).abs() < 0.005,
            "off by {} ms at {elapsed}s",
            (position - (10.0 + elapsed * drift)) * 1000.0
        );
    }
}

#[test]
fn says_so_when_the_signal_goes() {
    let t0 = now();
    let mut clock = FreeRun::default();
    clock.anchor(&at(10.0), t0);

    assert!(matches!(
        clock.sample(later(t0, millis(4_999))),
        Some(Reading::Running(_))
    ));

    let Some(Reading::Lost { last, since }) = clock.sample(later(t0, millis(6_500))) else {
        panic!("kept extrapolating past the holdover");
    };
    assert_eq!(last.to_string(), at(10.0).to_string());
    assert!(since > millis(5_000));
}

#[test]
fn resumes_from_where_the_device_got_to() {
    let t0 = now();
    let mut clock = FreeRun::default();
    clock.anchor(&at(10.0), t0);

    let back = later(t0, Duration::from_secs(10));
    clock.anchor(&at(20.0), back);
    assert!((seconds_shown(&mut clock, back) - 20.0).abs() < PERIOD);
    assert!((seconds_shown(&mut clock, later(back, millis(500))) - 20.5).abs() < PERIOD);
}

#[test]
fn snaps_when_the_timecode_is_changed_on_the_device() {
    let t0 = now();
    let mut clock = FreeRun::default();
    clock.anchor(&at(3600.0), t0);
    clock.anchor(&at(3600.6), later(t0, millis(600)));

    let jammed = later(t0, millis(1200));
    clock.anchor(&at(60.0), jammed);
    assert!((seconds_shown(&mut clock, jammed) - 60.0).abs() < PERIOD);
    assert!((seconds_shown(&mut clock, later(jammed, millis(400))) - 60.4).abs() < PERIOD);
}

#[test]
fn keeps_running_over_midnight() {
    let day = RATE.frames_per_day() as f64 / FPS as f64;
    let t0 = now();
    let mut clock = FreeRun::default();
    clock.anchor(&at(day - 0.6), t0);
    clock.anchor(&at(day - 0.1), later(t0, millis(500)));

    let Some(Reading::Running(tc)) = clock.sample(later(t0, millis(900))) else {
        panic!("lost the clock at midnight");
    };
    assert_eq!(tc.to_string(), "00:00:00:07");

    clock.anchor(&at(0.4), later(t0, millis(1000)));
    let Some(Reading::Running(tc)) = clock.sample(later(t0, millis(1000))) else {
        panic!("lost the clock after midnight");
    };
    assert_eq!(tc.to_string(), "00:00:00:10");
}

#[test]
fn a_change_of_frame_rate_starts_over() {
    let t0 = now();
    let mut clock = FreeRun::default();
    clock.anchor(&at(10.0), t0);

    let thirty = Timecode::at_frame_position(300 * 1_000_000_000, Rate::whole(30));
    clock.anchor(&thirty, later(t0, millis(500)));
    let Some(Reading::Running(tc)) = clock.sample(later(t0, millis(500))) else {
        panic!("lost the clock");
    };
    assert_eq!(tc.rate.fps, 30);
    assert_eq!(tc.to_string(), "00:00:10:00");
}

#[test]
fn nothing_to_show_before_the_first_advert() {
    assert!(FreeRun::default().sample(now()).is_none());
    assert!(FreeRun::default().last_received().is_none());
}
