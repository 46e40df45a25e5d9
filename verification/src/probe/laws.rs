//! What is said of a characteristic.

use vstd::prelude::*;

use crate::ble::uuids;
use crate::probe;
use crate::text;

verus! {

/// Bytes in a list are two hexadecimal digits each, with a comma and a space between.
pub proof fn listed_bytes_read_back(bytes: Seq<u8>)
    ensures
        bytes.len() == 0 ==> probe::listed(bytes).len() == 0,
        bytes.len() > 0 ==> probe::listed(bytes).len() == 4 * bytes.len() - 2,
        forall|i: int|
            0 <= i < bytes.len() ==> text::laws::byte_at(
                probe::listed(bytes),
                4 * i,
                #[trigger] bytes[i],
            ),
        forall|i: int|
            0 <= i < probe::listed(bytes).len() && i % 4 == 2 ==> #[trigger] probe::listed(bytes)[i]
                == ',',
        forall|i: int|
            0 <= i < probe::listed(bytes).len() && i % 4 == 3 ==> #[trigger] probe::listed(bytes)[i]
                == ' ',
    decreases bytes.len(),
{
    reveal_strlit(", ");
    if bytes.len() > 0 {
        let front = bytes.drop_last();
        listed_bytes_read_back(front);
        let s = probe::listed(bytes);
        let before = probe::listed(front);
        let last = bytes.len() - 1;
        text::laws::a_hex_byte_reads_back(bytes[last]);
        let hex = text::hex_byte(bytes[last]);
        assert(s[4 * last] == hex[0] && s[4 * last + 1] == hex[1]);
        assert forall|i: int| 0 <= i < bytes.len() implies text::laws::byte_at(
            s,
            4 * i,
            #[trigger] bytes[i],
        ) by {
            if i < last {
                assert(front[i] == bytes[i]);
                assert(s[4 * i] == before[4 * i] && s[4 * i + 1] == before[4 * i + 1]);
            }
        }
        assert forall|i: int| 0 <= i < s.len() && i % 4 == 2 implies #[trigger] s[i] == ',' by {
            if i < before.len() {
                assert(s[i] == before[i]);
            }
        }
        assert forall|i: int| 0 <= i < s.len() && i % 4 == 3 implies #[trigger] s[i] == ' ' by {
            if i < before.len() {
                assert(s[i] == before[i]);
            }
        }
    }
}

/// The battery level is the one known characteristic that is a number; the others are text.
pub proof fn only_the_battery_level_is_a_number(short: u16)
    ensures
        probe::known_as(short) matches Some((_, is_text)) ==> (!is_text <==> short == 0x2A19),
        probe::known_as(0x2A19) is Some,
{
}

/// What was read is shown byte by byte, and the first of them in decimal.
pub proof fn the_first_byte_is_shown_in_decimal(bytes: Seq<u8>)
    requires
        bytes.len() > 0,
    ensures
        text::laws::has_number(
            probe::value_text(false, Ok(bytes)),
            "Some("@,
            bytes[0] as int,
            ")"@,
        ),
{
    let line = probe::value_text(false, Ok(bytes));
    text::laws::a_decimal_reads_back(bytes[0] as nat);
    let front = "      = ["@ + probe::listed(bytes) + "]  ("@;
    assert(line =~= front + "Some("@ + text::decimal(bytes[0] as nat) + ")"@ + " decimal)\n"@);
}

/// A characteristic goes by what its short form is called: one that has no short form goes by
/// nothing.
pub proof fn a_characteristic_goes_by_its_short_form(
    uuid: u128,
    short: u16,
    known: Option<(Seq<char>, bool)>,
)
    requires
        probe::is_known(uuid, known),
    ensures
        uuid == uuids::short_uuid(short) ==> known == probe::known_as(short),
        (forall|x: u16| uuid != #[trigger] uuids::short_uuid(x)) ==> known is None,
{
    if uuid == uuids::short_uuid(short) {
        match known {
            Some(found) => {
                let x = choose|x: u16|
                    uuid == #[trigger] uuids::short_uuid(x) && probe::known_as(x) == Some(found);
                uuids::a_short_uuid_is_found_again(x, short);
            },
            None => {},
        }
    }
}

} // verus!
