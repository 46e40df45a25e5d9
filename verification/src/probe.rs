//! Probing a connected device: what its services expose, and what the standard battery and
//! device-information characteristics say. Nothing vendor-specific gets read: an unknown
//! read is not obviously harmless.

pub mod laws;

use vstd::prelude::*;

use crate::ble::uuids;
use crate::gatt::session;
use crate::text;

verus! {

/// What a standard characteristic worth reading is called, and whether it is a text.
pub open spec fn known_as(short: u16) -> Option<(Seq<char>, bool)> {
    if short == 0x2A19 {
        Some(("battery level"@, false))
    } else if short == 0x2A00 {
        Some(("device name"@, true))
    } else if short == 0x2A24 {
        Some(("model number"@, true))
    } else if short == 0x2A25 {
        Some(("serial number"@, true))
    } else if short == 0x2A26 {
        Some(("firmware revision"@, true))
    } else if short == 0x2A27 {
        Some(("hardware revision"@, true))
    } else if short == 0x2A28 {
        Some(("software revision"@, true))
    } else if short == 0x2A29 {
        Some(("manufacturer name"@, true))
    } else {
        None
    }
}

/// A characteristic's name and whether it is a text, as texts.
pub open spec fn name_and_kind(known: Option<(&str, bool)>) -> Option<(Seq<char>, bool)> {
    match known {
        Some((name, is_text)) => Some((name@, is_text)),
        None => None,
    }
}

/// What a standard characteristic worth reading is called, and whether it is a text.
pub fn known(short: u16) -> (found: Option<(&'static str, bool)>)
    ensures
        name_and_kind(found) == known_as(short),
{
    if short == 0x2A19 {
        Some(("battery level", false))
    } else if short == 0x2A00 {
        Some(("device name", true))
    } else if short == 0x2A24 {
        Some(("model number", true))
    } else if short == 0x2A25 {
        Some(("serial number", true))
    } else if short == 0x2A26 {
        Some(("firmware revision", true))
    } else if short == 0x2A27 {
        Some(("hardware revision", true))
    } else if short == 0x2A28 {
        Some(("software revision", true))
    } else if short == 0x2A29 {
        Some(("manufacturer name", true))
    } else {
        None
    }
}

/// A characteristic is a standard one that is worth reading.
pub open spec fn is_known(uuid: u128, known: Option<(Seq<char>, bool)>) -> bool {
    match known {
        Some(found) => exists|short: u16|
            uuid == #[trigger] uuids::short_uuid(short) && known_as(short) == Some(found),
        None => forall|short: u16|
            uuid == #[trigger] uuids::short_uuid(short) ==> known_as(short) is None,
    }
}

/// What a characteristic is called, and whether it is a text, if it is worth reading.
pub fn lookup(uuid: u128) -> (found: Option<(&'static str, bool)>)
    ensures
        is_known(uuid, name_and_kind(found)),
{
    match uuids::short(uuid) {
        Some(short) => {
            let found = known(short);
            proof {
                assert(uuid == uuids::short_uuid(short));
                assert forall|other: u16| uuid == #[trigger] uuids::short_uuid(other) implies other
                    == short by {
                    uuids::a_short_uuid_is_found_again(other, short);
                }
            }
            found
        },
        None => None,
    }
}

/// A characteristic's line in the tree.
pub open spec fn tree_text(
    uuid: u128,
    service: u128,
    properties: Seq<char>,
    known: Option<(Seq<char>, bool)>,
) -> Seq<char> {
    Seq::<char>::empty() + "  "@ + uuids::uuid_text(uuid) + " in "@ + uuids::uuid_text(service)
        + "  "@ + properties + (match known {
        Some((name, _)) => Seq::<char>::empty() + "  ("@ + name + ")"@,
        None => Seq::empty(),
    }) + "\n"@
}

/// A characteristic's line in the tree, with its properties as the platform writes them.
pub fn tree_line(uuid: u128, service: u128, properties: &str, known: Option<(&str, bool)>) -> (out:
    String)
    ensures
        out@ == tree_text(uuid, service, properties@, name_and_kind(known)),
{
    let mut label = String::new();
    match known {
        Some((name, _)) => {
            label.push_str("  (");
            label.push_str(name);
            label.push_str(")");
        },
        None => {
            assert(label@ =~= Seq::empty());
        },
    }
    let mut out = String::new();
    out.push_str("  ");
    out.push_str(uuids::uuid_string(uuid).as_str());
    out.push_str(" in ");
    out.push_str(uuids::uuid_string(service).as_str());
    out.push_str("  ");
    out.push_str(properties);
    out.push_str(label.as_str());
    out.push_str("\n");
    out
}

/// Bytes in brackets, each in two hexadecimal digits.
pub open spec fn listed(bytes: Seq<u8>) -> Seq<char>
    decreases bytes.len(),
{
    if bytes.len() == 0 {
        Seq::empty()
    } else if bytes.len() == 1 {
        text::hex_byte(bytes[0])
    } else {
        listed(bytes.drop_last()) + ", "@ + text::hex_byte(bytes.last())
    }
}

/// What a read of one comes to: a text in quotes, or bytes and the first of them in
/// decimal.
pub open spec fn value_text(is_text: bool, read: Result<Seq<u8>, Seq<char>>) -> Seq<char> {
    match read {
        Ok(bytes) => if is_text {
            Seq::<char>::empty() + "      = "@ + text::quoted(text::lossy_text(bytes)) + "\n"@
        } else {
            Seq::<char>::empty() + "      = ["@ + listed(bytes) + "]  ("@ + (if bytes.len() > 0 {
                Seq::<char>::empty() + "Some("@ + text::decimal(bytes[0] as nat) + ")"@
            } else {
                "None"@
            }) + " decimal)\n"@
        },
        Err(why) => Seq::<char>::empty() + "      read failed: "@ + why + "\n"@,
    }
}

fn put_listed(out: &mut String, bytes: &[u8])
    ensures
        final(out)@ == old(out)@ + listed(bytes@),
{
    let mut i: usize = 0;
    assert(bytes@.take(0) =~= Seq::empty());
    assert(out@ =~= old(out)@ + listed(bytes@.take(0)));
    while i < bytes.len()
        invariant
            i <= bytes.len(),
            out@ == old(out)@ + listed(bytes@.take(i as int)),
        decreases bytes.len() - i,
    {
        assert(bytes@.take(i + 1).drop_last() =~= bytes@.take(i as int));
        if i > 0 {
            out.push_str(", ");
        }
        text::put_hex_byte(out, bytes[i]);
        assert(out@ =~= old(out)@ + listed(bytes@.take(i + 1)));
        i = i + 1;
    }
    assert(bytes@.take(i as int) =~= bytes@);
}

/// What a read of a known characteristic comes to.
pub fn value_line(is_text: bool, read: Result<&[u8], &str>) -> (out: String)
    ensures
        out@ == value_text(is_text, session::outcome(read)),
{
    let mut out = String::new();
    match read {
        Ok(bytes) => {
            if is_text {
                out.push_str("      = ");
                let said = text::lossy(bytes);
                out.push_str(text::quote(said.as_str()).as_str());
                out.push_str("\n");
            } else {
                let mut first = String::new();
                if bytes.len() > 0 {
                    first.push_str("Some(");
                    text::put_decimal(&mut first, bytes[0] as u128);
                    first.push_str(")");
                } else {
                    first.push_str("None");
                    assert(first@ =~= "None"@);
                }
                out.push_str("      = [");
                put_listed(&mut out, bytes);
                out.push_str("]  (");
                out.push_str(first.as_str());
                out.push_str(" decimal)\n");
            }
        },
        Err(why) => {
            out.push_str("      read failed: ");
            out.push_str(why);
            out.push_str("\n");
        },
    }
    out
}

} // verus!
