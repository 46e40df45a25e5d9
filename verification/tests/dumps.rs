use shokushu::ble::uuids::{short, tail, uuid_from_u16};
use shokushu::dump::{label, print_payload, report_discovered, report_raw, Payloads, Records};
use shokushu::gatt::session;
use shokushu::probe;
use shokushu::time::Duration;
use uuid::Uuid;

#[test]
fn a_label_is_a_name_and_some_of_the_id() {
    assert_eq!(label(Some("Ricki"), "0123456789abcdef"), "Ricki [01234567]");
    assert_eq!(label(None, "0123"), "<unnamed> [0123]");
}

#[test]
fn a_device_first_seen_gets_a_line() {
    assert_eq!(
        report_discovered(Duration::from_millis(12_345), "Ricki [01234567]"),
        format!("[{:7.3}s] Ricki [01234567]  discovered\n", 12.345)
    );
}

#[test]
fn changed_bytes_are_marked() {
    let elapsed = Duration::from_millis(1_500);
    assert_eq!(
        print_payload(elapsed, "x", "mfr 0x043f", Some(&[1, 2, 3]), &[1, 9, 3, 4]),
        "[  1.500s] x\n    mfr 0x043f  01 09 03 04\n                   ^^    ^^\n"
    );
    assert_eq!(
        print_payload(elapsed, "x", "mfr 0x043f", None, &[1, 9]),
        "[  1.500s] x\n    mfr 0x043f  01 09\n"
    );
    // A payload that only got shorter has nothing to mark.
    assert_eq!(
        print_payload(elapsed, "x", "mfr 0x043f", Some(&[1, 9, 3]), &[1, 9]),
        "[  1.500s] x\n    mfr 0x043f  01 09\n"
    );
}

#[test]
fn a_payload_that_stays_is_dumped_once_unless_all_are_asked_for() {
    let mut seen = Payloads::default();
    let elapsed = Duration::from_millis(1_500);
    let uuid = uuid_from_u16(0xfdac);
    let records = Records::Service(vec![(uuid, vec![1, 2])]);
    let first = report_raw(&mut seen, &records, false, elapsed, "x");
    assert_eq!(
        first,
        "[  1.500s] x\n    svc 0000fdac-0000-1000-8000-00805f9b34fb  01 02\n"
    );
    assert_eq!(report_raw(&mut seen, &records, false, elapsed, "x"), "");
    assert_eq!(report_raw(&mut seen, &records, true, elapsed, "x"), first);

    let records = Records::Manufacturer(vec![(0x43f, vec![7])]);
    assert_eq!(
        report_raw(&mut seen, &records, false, elapsed, "x"),
        "[  1.500s] x\n    mfr 0x043f  07\n"
    );
}

#[test]
fn a_short_uuid_goes_into_the_base_and_comes_out_again() {
    for n in [0u16, 0x180f, 0xfdac, 0xffff] {
        let uuid = uuid_from_u16(n);
        assert_eq!(short(uuid), Some(n));
        assert_eq!(tail(uuid), format!("{:08x}", n));
    }
    let vendor = Uuid::from_u128(0x0dab_144c_2cb9_11e6_b67b_9e71_128c_ae77);
    assert_eq!(short(vendor.as_u128()), None);
    assert_eq!(tail(vendor.as_u128()), vendor.to_string()[..8]);
}

#[test]
fn the_tree_of_a_probe_names_what_it_knows() {
    assert_eq!(probe::known(0x2a19), Some(("battery level", false)));
    assert_eq!(probe::known(0x2a00), Some(("device name", true)));
    assert_eq!(probe::known(0x2a01), None);
    let battery = uuid_from_u16(0x2a19);
    assert_eq!(probe::lookup(battery), Some(("battery level", false)));
    assert_eq!(probe::lookup(battery + 1), None);
    assert_eq!(
        probe::tree_line(battery, uuid_from_u16(0x180f), "READ", probe::lookup(battery)),
        "  00002a19-0000-1000-8000-00805f9b34fb in 0000180f-0000-1000-8000-00805f9b34fb  \
         READ  (battery level)\n"
    );
}

#[test]
fn a_value_is_shown_as_text_or_as_bytes() {
    let bytes = [b'a', b'"', 0xff, b'\n'];
    assert_eq!(
        probe::value_line(true, Ok(&bytes)),
        format!("      = {:?}\n", String::from_utf8_lossy(&bytes))
    );
    assert_eq!(
        probe::value_line(false, Ok(&[0x60, 0x01])),
        format!("      = {:02x?}  ({:?} decimal)\n", [0x60u8, 0x01], Some(0x60u8))
    );
    assert_eq!(
        probe::value_line(false, Ok(&[])),
        format!("      = {:02x?}  ({:?} decimal)\n", Vec::<u8>::new(), None::<u8>)
    );
    assert_eq!(probe::value_line(true, Err("gone")), "      read failed: gone\n");
}

#[test]
fn a_descriptor_is_read_unless_it_is_our_own() {
    let own = uuid_from_u16(0x2902);
    assert_eq!(session::worth_reading(own, false), Err(None));
    assert_eq!(
        session::worth_reading(own, true),
        Err(Some(
            "      descriptor 00002902-0000-1000-8000-00805f9b34fb  (client config, not read)\n"
                .to_string()
        ))
    );
    let name = uuid_from_u16(0x2901);
    assert_eq!(session::worth_reading(name, true), Ok(()));
    assert_eq!(
        session::descriptor_line(name, Ok(b"a\"")),
        "      descriptor 00002901-0000-1000-8000-00805f9b34fb  = 61 22  \"a\\\"\"\n"
    );
    assert_eq!(
        session::descriptor_line(name, Err("gone")),
        "      descriptor 00002901-0000-1000-8000-00805f9b34fb  read failed: gone\n"
    );
}
