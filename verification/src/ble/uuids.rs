//! Bluetooth UUIDs, as 128-bit numbers.

use vstd::prelude::*;

use crate::text;

verus! {

/// The Bluetooth base UUID, which a short one is a part of.
pub const BLUETOOTH_BASE: u128 = 0x00000000_0000_1000_8000_00805f9b34fb;

/// Where a short UUID stands in the base: its last bit is bit 96.
pub const SHORT_PLACE: u128 = 0x1_00000000_00000000_00000000;

/// A short UUID as a full one.
pub open spec fn short_uuid(short: u16) -> u128 {
    (BLUETOOTH_BASE + short * SHORT_PLACE) as u128
}

/// The 128-bit UUID that a 16-bit one stands for.
pub fn uuid_from_u16(short: u16) -> (uuid: u128)
    ensures
        uuid == short_uuid(short),
        uuid == BLUETOOTH_BASE + short * SHORT_PLACE,
{
    BLUETOOTH_BASE + short as u128 * SHORT_PLACE
}

/// One of the 32 hexadecimal digits of a UUID, the highest first.
pub open spec fn nibble(uuid: u128, i: int) -> nat {
    ((uuid >> ((124 - 4 * i) as u128)) & 0xf) as nat
}

/// Some of them, as they are written.
pub open spec fn digits(uuid: u128, from: int, n: nat) -> Seq<char> {
    Seq::new(n, |i: int| text::hex_digit(nibble(uuid, from + i)))
}

/// A UUID as it is written: eight digits, three times four, and twelve.
pub open spec fn uuid_text(uuid: u128) -> Seq<char> {
    digits(uuid, 0, 8) + seq!['-'] + digits(uuid, 8, 4) + seq!['-'] + digits(uuid, 12, 4) + seq!['-']
        + digits(uuid, 16, 4) + seq!['-'] + digits(uuid, 20, 12)
}

/// `uuid::Uuid::from_u128` and the `Display` of `uuid::Uuid`: the number's 32 digits in
/// lower-case hexadecimal, the highest first, with hyphens between the groups.
#[verifier::external_body]
pub(crate) fn uuid_string(uuid: u128) -> (out: String)
    ensures
        out@ == uuid_text(uuid),
{
    uuid::Uuid::from_u128(uuid).to_string()
}

/// `uuid::Uuid::from_u128` and `uuid::Uuid::as_bytes`: the number's sixteen bytes, the
/// highest first.
#[verifier::external_body]
pub(crate) fn uuid_bytes(uuid: u128) -> (bytes: [u8; 16])
    ensures
        forall|i: int|
            0 <= i < 16 ==> #[trigger] bytes[i] == ((uuid >> ((120 - 8 * i) as u128)) & 0xff),
{
    *uuid::Uuid::from_u128(uuid).as_bytes()
}

/// The 16-bit form of a Bluetooth SIG UUID, or `None` if it isn't one.
pub fn short(uuid: u128) -> (found: Option<u16>)
    ensures
        match found {
            Some(short) => uuid == short_uuid(short),
            None => forall|x: u16| uuid != #[trigger] short_uuid(x),
        },
{
    let bytes = uuid_bytes(uuid);
    let high: u8 = bytes[2];
    let low: u8 = bytes[3];
    let candidate: u16 = high as u16 * 256 + low as u16;
    if uuid_from_u16(candidate) == uuid {
        return Some(candidate);
    }
    assert forall|x: u16| uuid != #[trigger] short_uuid(x) by {
        if uuid == short_uuid(x) {
            lemma_short_bytes(x);
            assert(high == (uuid >> 104u128) & 0xff);
            assert(low == (uuid >> 96u128) & 0xff);
            assert(candidate == x);
        }
    }
    None
}

/// Where a short UUID's two bytes are found again.
proof fn lemma_short_bytes(x: u16)
    ensures
        (short_uuid(x) >> 104u128) & 0xff == x / 256,
        (short_uuid(x) >> 96u128) & 0xff == x % 256,
{
    let u = short_uuid(x);
    let wide = x as u128;
    assert(u == 0x00000000_0000_1000_8000_00805f9b34fb
        + wide * 0x1_00000000_00000000_00000000);
    assert((u >> 104u128) & 0xff == wide / 256 && (u >> 96u128) & 0xff == wide % 256)
        by (bit_vector)
        requires
            u == 0x00000000_0000_1000_8000_00805f9b34fb + wide * 0x1_00000000_00000000_00000000,
            wide < 0x1_0000,
    ;
}

/// The distinguishing head of a vendor UUID. They share everything but the four bytes at
/// the front, so printing all thirty-six characters of each on every line buries the one
/// part that differs.
pub fn tail(uuid: u128) -> (out: String)
    ensures
        out@ == digits(uuid, 0, 8),
{
    let whole = uuid_string(uuid);
    let chars = text::chars_of(whole.as_str());
    let mut out = String::new();
    let mut i: usize = 0;
    while i < 8
        invariant
            i <= 8,
            chars@ == uuid_text(uuid),
            out@ == digits(uuid, 0, 8).take(i as int),
        decreases 8 - i,
    {
        let c: char = chars[i];
        assert(c == digits(uuid, 0, 8)[i as int]);
        out.push(c);
        assert(digits(uuid, 0, 8).take(i + 1) =~= digits(uuid, 0, 8).take(i as int).push(c));
        i = i + 1;
    }
    assert(digits(uuid, 0, 8).take(8) =~= digits(uuid, 0, 8));
    out
}

/// A short UUID is found again in the full one that it stands for, and two of them never
/// stand for the same.
pub proof fn a_short_uuid_is_found_again(x: u16, y: u16)
    requires
        short_uuid(x) == short_uuid(y),
    ensures
        x == y,
{
    lemma_short_bytes(x);
    lemma_short_bytes(y);
}

} // verus!
