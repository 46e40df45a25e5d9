use shokushu::ble::diagnostics::{diagnose, shape_of, survey, Counts, Diagnosis};

fn counts<'a>(
    name: &'a str,
    payloads: u64,
    unparsed: u64,
    sample: Option<&'a [u8]>,
) -> Counts<'a> {
    Counts {
        name: Some(name),
        payloads,
        unparsed,
        unparsed_sample: sample,
    }
}

#[test]
fn a_scan_delivering_nothing_is_its_own_case() {
    assert_eq!(diagnose(&survey(0, &[]), false), Diagnosis::SilentScan);
}

#[test]
fn a_filter_is_what_separates_the_two_empty_cases() {
    let census = survey(40, &[]);
    assert_eq!(
        diagnose(&census, true),
        Diagnosis::FilteredOut { devices: 40 }
    );
    assert_eq!(
        diagnose(&census, false),
        Diagnosis::NothingAdvertising { devices: 40 }
    );
}

#[test]
fn diagnostics_a_room_with_no_tentacle_in_it_says_that() {
    let phone = counts("iPhone", 0, 0, None);
    let watch = counts("Watch", 0, 0, None);
    assert_eq!(
        diagnose(&survey(2, &[phone, watch]), false),
        Diagnosis::NoTentacle { matched: 2 }
    );
}

#[test]
fn diagnostics_dates_arriving_without_timecode_is_its_own_case() {
    let ricki = counts("Ricki", 8, 0, None);
    assert_eq!(
        diagnose(&survey(3, &[ricki]), false),
        Diagnosis::DatesOnly {
            advertisers: 1,
            payloads: 8,
        }
    );
}

#[test]
fn diagnostics_a_payload_that_stopped_decoding_is_reported_with_its_bytes() {
    let bytes: &[u8] = &[0x22, 0x7d, 0x19, 0x0b, 0x25, 0x28, 0x15, 0x5f, 0xc6];
    let ricki = counts("Ricki", 40, 40, Some(bytes));
    let liliana = counts("Liliana", 32, 32, Some(bytes));
    let Diagnosis::Unreadable {
        payloads, unparsed, ..
    } = diagnose(&survey(72, &[ricki, liliana]), false)
    else {
        panic!("expected an unreadable payload");
    };
    assert_eq!((payloads, unparsed), (72, 72));
}

#[test]
fn the_same_device_is_blamed_however_they_are_handed_over() {
    let bytes: &[u8] = &[0x22, 0x7d, 0x19];
    let quiet = counts("Ricki", 4, 1, Some(bytes));
    let loud = counts("Liliana", 40, 12, Some(bytes));
    let forwards = survey(2, &[quiet, loud]);
    let backwards = survey(2, &[loud, quiet]);
    assert_eq!(forwards.sample, backwards.sample);
    assert_eq!(forwards.sample.unwrap().0, "Liliana");
}

#[test]
fn diagnostics_a_device_with_no_failures_is_never_blamed_for_them() {
    let bytes: &[u8] = &[0x22, 0x7d, 0x19];
    let healthy = counts("Ricki", 90, 0, None);
    let broken = counts("Liliana", 3, 3, Some(bytes));
    let census = survey(2, &[healthy, broken]);
    assert_eq!(census.sample.unwrap().0, "Liliana");
}

#[test]
fn diagnostics_devices_below_the_name_filter_are_counted_but_not_surveyed() {
    let census = survey(9, &[]);
    assert_eq!(census.devices, 9);
    assert_eq!(census.matched, 0);
}

#[test]
fn diagnostics_a_ticking_timecode_is_not_a_new_failure_every_packet() {
    let first = [0x22u8, 0x7d, 0x19, 0x0b, 0x25, 0x28, 0x15, 0x5f, 0xc6];

    let mut later = first;
    later[6] = later[6].wrapping_add(1);
    assert_eq!(shape_of(&first), shape_of(&later));

    let mut date = first;
    date[0] = 0x42;
    assert_eq!(shape_of(&first), shape_of(&date));

    let mut reflagged = first;
    reflagged[1] = 0x05;
    assert_ne!(shape_of(&first), shape_of(&reflagged));
    assert_ne!(shape_of(&first), shape_of(&first[..8]));
}

#[test]
fn an_unnamed_device_still_gets_blamed_by_name() {
    let bytes: &[u8] = &[0x22, 0x7d, 0x19];
    let anonymous = Counts {
        name: None,
        payloads: 3,
        unparsed: 3,
        unparsed_sample: Some(bytes),
    };
    let census = survey(1, &[anonymous]);
    assert_eq!(census.sample.unwrap().0, "<unnamed>");
}
