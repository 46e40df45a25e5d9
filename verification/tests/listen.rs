use shokushu::listen::{
    check_channel, format_fps, is_stale, mono, print_json, print_live, print_silent, Tally,
};
use shokushu::ltc::{DecodedFrame, LtcFrame};
use shokushu::time::Duration;

fn decoded(end_sample: u64) -> DecodedFrame {
    DecodedFrame {
        frame: LtcFrame {
            hours: 1,
            minutes: 2,
            seconds: 3,
            frames: 4,
            drop_frame: false,
            color_frame: false,
            user_bits: [1, 2, 3, 4, 0xa, 0xb, 0xc, 0xd],
        },
        end_sample,
        measured_fps: 25_012_345,
    }
}

#[test]
fn a_channel_that_is_not_there_is_refused_by_name() {
    assert_eq!(check_channel(1, 2), Ok(()));
    assert_eq!(
        check_channel(3, 3).unwrap_err(),
        "channel 3 was requested but the device only has 3 (0, 1, 2)"
    );
}

#[test]
fn one_channel_is_every_nth_sample() {
    assert_eq!(mono(&[1, 2, 3, 4, 5, 6, 7], 1, 3), [2, 5]);
    assert_eq!(mono(&[1, 2, 3, 4, 5, 6, 7], 0, 3), [1, 4, 7]);
    assert_eq!(mono(&[], 0, 1), Vec::<i32>::new());
}

#[test]
fn an_unbroken_run_has_no_drops_and_a_gap_is_counted() {
    let mut tally = Tally::new();
    for n in 0..10 {
        tally.take(&decoded(1_920 * n), 48_000);
    }
    assert_eq!(tally.dropped, 0);
    // Three periods later, two frames never came.
    tally.take(&decoded(1_920 * 12), 48_000);
    assert_eq!(tally.dropped, 2);
}

#[test]
fn a_signal_is_stale_after_half_a_second() {
    assert!(is_stale(None));
    assert!(!is_stale(Some(Duration::from_millis(500))));
    assert!(is_stale(Some(Duration::from_millis(501))));
}

#[test]
fn a_whole_rate_has_no_decimals() {
    assert_eq!(format_fps(2_500), "25");
    assert_eq!(format_fps(2_997), "29.97");
}

#[test]
fn the_live_line_has_every_column() {
    assert_eq!(
        print_live(&decoded(0), Some(-18_300_000), 0),
        format!("\r  01:02:03:04   {:>5} fps   ub 1234abcd   {:>7.1} dBFS   \x1b[K", "25", -18.3)
    );
    assert_eq!(
        print_live(&decoded(0), None, 3),
        format!(
            "\r  01:02:03:04   {:>5} fps   ub 1234abcd   {:>7.1} dBFS   3 dropped   \x1b[K",
            "25",
            f64::NEG_INFINITY
        )
    );
    assert_eq!(
        print_silent(Some(-60_000_000)),
        format!("\r  --:--:--:--   no LTC signal      {:>7.1} dBFS   \x1b[K", -60.0)
    );
}

#[test]
fn a_frame_in_json_has_every_field() {
    assert_eq!(
        print_json(&decoded(4_800), 2),
        r#"{"timecode":"01:02:03:04","hours":1,"minutes":2,"seconds":3,"frames":4,"drop_frame":false,"fps":25,"measured_fps":25.0123,"user_bits":"1234abcd","end_sample":4800,"dropped":2}"#
    );
}
