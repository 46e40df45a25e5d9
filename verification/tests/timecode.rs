use shokushu::time::Duration;
use shokushu::timecode::{clock_string, wrapped, Rate, Timecode};

/// One frame, in nano-frames.
const FRAME: i128 = 1_000_000_000;

fn exact(rate: Rate) -> f64 {
    let ratio = rate.exact_fps();
    ratio.num as f64 / ratio.den as f64
}

fn at(fps: u8, h: u8, m: u8, s: u8, f: u8, micros: u64) -> Timecode {
    Timecode {
        hours: h,
        minutes: m,
        seconds: s,
        frames: f,
        rate: Rate::whole(fps),
        subframe: Duration::from_micros(micros),
    }
}

#[test]
fn frame_positions_round_trip() {
    let cases = [
        (25, 0, 0, 0, 0, 0u64),
        (25, 9, 35, 59, 20, 22626),
        (30, 23, 59, 59, 29, 33_000),
        (24, 12, 0, 0, 12, 41_666),
    ];
    for (fps, hours, minutes, seconds, frames, micros) in cases {
        let tc = at(fps, hours, minutes, seconds, frames, micros);
        let back = Timecode::at_frame_position(tc.frame_position() as i128, tc.rate);
        assert_eq!(back.to_string(), tc.to_string());
        let got = back.subframe.as_micros() as u64;
        assert!(
            got.abs_diff(micros) <= 1,
            "{tc:?}: {micros} µs became {got} µs"
        );
    }
}

#[test]
fn a_biased_subframe_still_round_trips_as_a_position() {
    let tc = at(25, 9, 35, 59, 20, 43_581);
    assert!(tc.subframe_fraction() > 1_000_000_000);
    let position = tc.frame_position();
    let back = Timecode::at_frame_position(position as i128, tc.rate);
    assert_eq!(back.to_string(), "09:35:59:21");
    assert!(back.frame_position().abs_diff(position) < 1_000_000);
}

#[test]
fn a_frame_position_wraps_at_midnight() {
    let rate = Rate::whole(25);
    let tc = Timecode::at_frame_position(rate.frames_per_day() as i128 * FRAME + FRAME * 7 / 2, rate);
    assert_eq!(tc.to_string(), "00:00:00:03");
    assert!(tc.subframe_fraction().abs_diff(500_000_000) < 1_000_000);
    assert_eq!(
        Timecode::at_frame_position(-FRAME, rate).to_string(),
        "23:59:59:24"
    );
}

#[test]
fn drop_frame_is_written_with_a_semicolon() {
    let ndf = Timecode::new(1, 2, 3, 4, Rate::whole(30));
    let df = Timecode::new(1, 2, 3, 4, Rate::new(30, true));
    assert_eq!(ndf.to_string(), "01:02:03:04");
    assert_eq!(df.to_string(), "01:02:03;04");
}

#[test]
fn drop_frame_declines_to_do_arithmetic() {
    let df = Timecode::new(1, 2, 3, 4, Rate::new(30, true));
    assert_eq!(df.checked_frame_position(), None);
    assert!(Timecode::new(1, 2, 3, 4, Rate::whole(30))
        .checked_frame_position()
        .is_some());
}

#[test]
fn exact_fps_is_the_ntsc_rate_when_dropping() {
    assert_eq!(exact(Rate::whole(30)), 30.0);
    let df = exact(Rate::new(30, true));
    assert!((df - 29.97).abs() < 0.01, "{df}");
    assert_eq!(Rate::new(30, true).to_string(), "29.97 fps");
    assert_eq!(Rate::whole(25).to_string(), "25 fps");
}

#[test]
fn a_zero_rate_stays_defined() {
    let rate = Rate::whole(0);
    assert_eq!(rate.frames_per_day(), 24 * 3600);
    let _ = Timecode::at_frame_position(FRAME, rate);
}

#[test]
fn a_wrapped_position_lies_inside_the_day() {
    assert_eq!(wrapped(-1, 10), 9);
    assert_eq!(wrapped(23, 10), 3);
    assert_eq!(clock_string(1, 2, 3, 4, false), "01:02:03:04");
}
