use shokushu::rec::{clock, default_path, slug};
use shokushu::time::Duration;
use shokushu::timecode::{Rate, Timecode};

fn secs(seconds: f64) -> Duration {
    Duration::from_nanos((seconds * 1e9).round() as u64)
}

#[test]
fn a_default_name_says_what_the_file_is() {
    let start = Timecode::new(11, 37, 40, 21, Rate::whole(25));
    assert_eq!(
        default_path("Ricki", Some("2026-09-04"), &start),
        "ricki_2026-09-04_11-37-40-21.wav"
    );
    assert_eq!(
        default_path("Ricki", None, &start),
        "ricki_undated_11-37-40-21.wav"
    );
}

#[test]
fn a_name_becomes_something_a_filesystem_will_take() {
    assert_eq!(slug("Tentacle Sync E"), "tentacle-sync-e");
    assert_eq!(slug("a/b:c"), "a-b-c");
    assert_eq!(slug("  spaced  "), "spaced");
    assert_eq!(slug("///"), "tentacle");
    assert_eq!(slug(""), "tentacle");
}

#[test]
fn the_elapsed_clock_carries_at_a_minute() {
    assert_eq!(clock(secs(0.0)), "00:00:00.0");
    assert_eq!(clock(secs(9.4)), "00:00:09.4");
    assert_eq!(clock(secs(61.2)), "00:01:01.2");
    assert_eq!(clock(secs(3661.0)), "01:01:01.0");
}
