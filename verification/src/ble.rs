//! The advertisement a Tentacle Sync E broadcasts, without pairing.
//!
//! Service data under [`SERVICE_UUID_16`] is a nine-byte record: a record type, a
//! flags byte that is skipped rather than read, five bytes of data, and a two-byte
//! trailer. A timecode record's data is the frame rate and the four fields of the
//! timecode, all binary, and its trailer a big-endian count of microseconds into the
//! frame. A date record's data holds year, month and day in BCD, and its trailer is
//! ignored.
//!
//! Alongside it the device sends a five-byte manufacturer record under
//! [`COMPANY_ID`]. The low seven bits of its third byte are the remaining charge and
//! the top bit says that the device is charging; the other four bytes are unknown, and
//! not required to hold any particular value.

pub mod diagnostics;
pub mod jam;
pub mod laws;
pub mod scan;
pub mod uuids;

use vstd::prelude::*;

use crate::text;
use crate::time::Duration;
use crate::timecode::{Rate, Timecode};

verus! {

/// The 16-bit service UUID the Tentacle advertises under.
pub const SERVICE_UUID_16: u16 = 0xFDAC;

/// The Bluetooth SIG company identifier the Tentacle's manufacturer data is advertised
/// under.
pub const COMPANY_ID: u16 = 0x043F;

/// The record type of a timecode.
pub const KIND_TIMECODE: u8 = 0x22;

/// The record type of a date.
pub const KIND_DATE: u8 = 0x42;

/// The record type and the flags byte, ahead of the data field.
pub const HEADER: usize = 2;

/// How wide the data field is. Fixed, in every record type and every packet observed.
pub const DATA_LEN: usize = 5;

/// The date the Tentacle is set to, which it also writes into the LTC user bits.
#[derive(Clone, Copy, Debug, PartialEq, Eq, Structural)]
pub struct Date {
    pub year: u16,
    pub month: u8,
    pub day: u8,
}

/// A date as it is written.
pub open spec fn date_text(date: Date) -> Seq<char> {
    text::zero_padded(date.year as nat, 4) + "-"@ + text::zero_padded(date.month as nat, 2) + "-"@
        + text::zero_padded(date.day as nat, 2)
}

impl Date {
    /// The date in words.
    pub fn to_string(&self) -> (out: String)
        ensures
            out@ == date_text(*self),
    {
        let mut out = String::new();
        text::put_zero_padded(&mut out, self.year as u128, 4);
        out.push_str("-");
        text::put_zero_padded(&mut out, self.month as u128, 2);
        out.push_str("-");
        text::put_zero_padded(&mut out, self.day as u128, 2);
        assert(out@ =~= date_text(*self));
        out
    }
}

/// What an advertisement carries.
#[derive(Clone, Copy, Debug, PartialEq, Eq, Structural)]
pub enum Advert {
    Timecode(Timecode),
    Date(Date),
}

/// One packed BCD byte as a number, if both its digits are.
pub open spec fn bcd_value(byte: u8) -> Option<u8> {
    if byte / 16 <= 9 && byte % 16 <= 9 {
        Some(((byte / 16) * 10 + byte % 16) as u8)
    } else {
        None
    }
}

/// The microseconds into the frame that a payload's trailer says, none where there is no
/// trailer.
pub open spec fn trailer_micros(data: Seq<u8>) -> nat {
    if data.len() >= 9 {
        (data[7] * 256 + data[8]) as nat
    } else {
        0
    }
}

/// The timecode a payload's data field spells, if its fields are in range.
pub open spec fn timecode_in(data: Seq<u8>) -> Option<Timecode> {
    let fps = data[2];
    if 1 <= fps <= 120 && data[3] <= 23 && data[4] <= 59 && data[5] <= 59 && data[6] < fps {
        Some(
            Timecode {
                hours: data[3],
                minutes: data[4],
                seconds: data[5],
                frames: data[6],
                rate: Rate { fps, drop_frame: false },
                subframe: Duration::of(trailer_micros(data) * 1000),
            },
        )
    } else {
        None
    }
}

/// The date a payload's data field spells, if it is one.
pub open spec fn date_in(data: Seq<u8>) -> Option<Date> {
    match (bcd_value(data[3]), bcd_value(data[4]), bcd_value(data[5])) {
        (Some(year), Some(month), Some(day)) => if 1 <= month <= 12 && 1 <= day <= 31 {
            Some(Date { year: (2000 + year) as u16, month, day })
        } else {
            None
        },
        _ => None,
    }
}

/// What a payload carries, if it is a record of a type we recognise whose fields are in
/// range.
pub open spec fn advert_in(data: Seq<u8>) -> Option<Advert> {
    if data.len() < 7 {
        None
    } else if data[0] == KIND_TIMECODE {
        match timecode_in(data) {
            Some(tc) => Some(Advert::Timecode(tc)),
            None => None,
        }
    } else if data[0] == KIND_DATE {
        match date_in(data) {
            Some(date) => Some(Advert::Date(date)),
            None => None,
        }
    } else {
        None
    }
}

/// One packed BCD byte as a number, or `None` if either nibble isn't a digit.
pub fn bcd(byte: u8) -> (value: Option<u8>)
    ensures
        value == bcd_value(byte),
        forall|v: u8| v <= 99 && byte == #[trigger] packed(v) ==> value == Some(v),
        (byte >> 4) > 9 || (byte & 0x0f) > 9 <==> value is None,
        value matches Some(v) ==> v <= 99 && byte == packed(v),
{
    proof {
        packed_decimal_reads_back(0, byte);
        assert forall|v: u8| v <= 99 && byte == #[trigger] packed(v) implies bcd_value(byte)
            == Some(v) by {
            packed_decimal_reads_back(v, byte);
        }
    }
    let high: u8 = byte / 16;
    let low: u8 = byte % 16;
    if high <= 9 && low <= 9 {
        Some(high * 10 + low)
    } else {
        None
    }
}

/// Parses one service-data payload.
///
/// Returns `None` for anything that isn't a record type we recognise, or whose fields
/// are out of range, which is also the check that keeps us from reading some other
/// vendor's advertisement as timecode.
pub fn parse(data: &[u8]) -> (advert: Option<Advert>)
    ensures
        advert == advert_in(data@),
{
    // Byte 1 is skipped, not read as a length: the data field is at a fixed offset and a
    // fixed width in every packet ever seen.
    if data.len() < HEADER + DATA_LEN {
        return None;
    }
    let kind: u8 = data[0];
    if kind == KIND_TIMECODE {
        let fps: u8 = data[2];
        let micros: u64 = if data.len() >= 9 {
            data[7] as u64 * 256 + data[8] as u64
        } else {
            0
        };
        // Frames count from zero, so a frame at or past the rate means we've misread the
        // layout.
        if fps < 1 || fps > 120 || data[3] > 23 || data[4] > 59 || data[5] > 59 || data[6] >= fps {
            return None;
        }
        Some(
            Advert::Timecode(
                Timecode {
                    hours: data[3],
                    minutes: data[4],
                    seconds: data[5],
                    frames: data[6],
                    rate: Rate::whole(fps),
                    subframe: Duration::from_micros(micros),
                },
            ),
        )
    } else if kind == KIND_DATE {
        match (bcd(data[3]), bcd(data[4]), bcd(data[5])) {
            (Some(year), Some(month), Some(day)) => {
                if month < 1 || month > 12 || day < 1 || day > 31 {
                    return None;
                }
                Some(Advert::Date(Date { year: 2000 + year as u16, month, day }))
            },
            _ => None,
        }
    } else {
        None
    }
}

/// What the manufacturer record says about the device itself, as opposed to the time
/// it's keeping.
#[derive(Clone, Copy, Debug, PartialEq, Eq, Structural)]
pub struct Status {
    /// Remaining charge, 0 to 100.
    pub battery_percent: u8,
    /// Whether the device is plugged in.
    pub charging: bool,
}

/// What a manufacturer record says, if it is the five-byte record this device sends and
/// its charge is a percentage.
pub open spec fn status_in(data: Seq<u8>) -> Option<Status> {
    if data.len() == 5 && data[2] % 128 <= 100 {
        Some(Status { battery_percent: (data[2] % 128) as u8, charging: data[2] >= 128 })
    } else {
        None
    }
}

/// Parses one manufacturer-data record advertised under [`COMPANY_ID`].
///
/// The range check comes after the charging bit is off the charge: a charging device
/// advertises its percentage with the top bit set.
pub fn parse_manufacturer(data: &[u8]) -> (status: Option<Status>)
    ensures
        status == status_in(data@),
{
    if data.len() != 5 {
        return None;
    }
    let battery: u8 = data[2];
    let battery_percent: u8 = battery % 128;
    if battery_percent <= 100 {
        Some(Status { battery_percent, charging: battery >= 128 })
    } else {
        None
    }
}

/// The flags byte says nothing about the layout: a payload decodes the same whatever it
/// holds.
pub proof fn byte_one_is_never_read(data: Seq<u8>, flags: u8)
    requires
        data.len() >= 2,
    ensures
        advert_in(data.update(1, flags)) == advert_in(data),
{
}

/// The trailer of a date record is ignored, and so is the byte in front of the date.
pub proof fn a_dates_trailer_is_never_read(data: Seq<u8>, i: int, byte: u8)
    requires
        data.len() > i,
        i == 2 || i >= 6,
        data[0] == KIND_DATE,
    ensures
        advert_in(data.update(i, byte)) == advert_in(data),
{
}

/// A number of two decimal digits, packed a digit to a nibble.
pub open spec fn packed(v: u8) -> u8 {
    ((v / 10) << 4) | (v % 10)
}

/// Packed decimal reads back: every number of two digits does, and a byte with a nibble that
/// is no digit is no number.
pub proof fn packed_decimal_reads_back(v: u8, byte: u8)
    ensures
        v <= 99 ==> bcd_value(packed(v)) == Some(v),
        (byte >> 4) > 9 || (byte & 0x0f) > 9 ==> bcd_value(byte) is None,
        (byte >> 4) <= 9 && (byte & 0x0f) <= 9 ==> (bcd_value(byte) matches Some(n) && n <= 99
            && packed(n) == byte),
{
    let tens = v / 10;
    let ones = v % 10;
    assert(tens <= 9 && ones <= 9 ==> ((tens << 4) | ones) == 16 * tens + ones) by (bit_vector);
    assert(byte >> 4 == byte / 16 && byte & 0x0f == byte % 16) by (bit_vector);
    let high = byte / 16;
    let low = byte % 16;
    assert(high <= 9 && low <= 9 ==> ((high << 4) | low) == 16 * high + low) by (bit_vector);
}

/// Whatever the bytes were, a timecode that parses is one that a clock can show at a rate
/// that anyone runs, taken as not drop-frame, with at most 65535 microseconds on top.
pub proof fn a_parsed_timecode_is_in_range(data: Seq<u8>)
    requires
        advert_in(data) matches Some(Advert::Timecode(_)),
    ensures
        advert_in(data) matches Some(Advert::Timecode(tc)) && {
            &&& tc.hours < 24
            &&& tc.minutes < 60
            &&& tc.seconds < 60
            &&& tc.frames < tc.rate.fps
            &&& 1 <= tc.rate.fps <= 120
            &&& !tc.rate.drop_frame
            &&& tc.subframe.wf()
            &&& tc.subframe@ <= 65_535_000
        },
{
}

/// Whatever the bytes were, a date that parses has a month and a day that a calendar
/// can show, in this century.
pub proof fn a_parsed_date_is_in_range(data: Seq<u8>)
    requires
        advert_in(data) matches Some(Advert::Date(_)),
    ensures
        advert_in(data) matches Some(Advert::Date(date)) && 2000 <= date.year <= 2099 && 1
            <= date.month <= 12 && 1 <= date.day <= 31,
{
}

/// Every byte of a manufacturer record but the charge may be anything.
pub proof fn only_the_charge_of_a_record_is_read(data: Seq<u8>, i: int, byte: u8)
    requires
        0 <= i < data.len(),
        i != 2,
    ensures
        status_in(data.update(i, byte)) == status_in(data),
{
}

/// Putting a device on a charger does not change the charge that it reports.
pub proof fn charging_does_not_hide_the_charge(data: Seq<u8>, percent: u8)
    requires
        data.len() == 5,
        percent <= 100,
    ensures
        status_in(data.update(2, percent)) == Some(
            Status { battery_percent: percent, charging: false },
        ),
        status_in(data.update(2, (percent + 128) as u8)) == Some(
            Status { battery_percent: percent, charging: true },
        ),
{
}

/// A timecode record reads back. Whatever the flags byte holds, seven bytes of a type, the
/// flags, a rate from 1 to 120 and four fields in range are a timecode with just those fields
/// at just that rate, and two bytes behind them are how far into the frame it was taken, in
/// microseconds, the high byte first. With fewer behind them it was taken at the start of the
/// frame, and what is further behind does not matter.
pub proof fn a_timecode_record_reads_back(
    flags: u8,
    fps: u8,
    hours: u8,
    minutes: u8,
    seconds: u8,
    frames: u8,
    behind: Seq<u8>,
)
    requires
        1 <= fps <= 120,
        hours < 24,
        minutes < 60,
        seconds < 60,
        frames < fps,
    ensures
        advert_in(seq![0x22u8, flags, fps, hours, minutes, seconds, frames] + behind) matches Some(
            Advert::Timecode(tc),
        ) && {
            &&& tc.hours == hours
            &&& tc.minutes == minutes
            &&& tc.seconds == seconds
            &&& tc.frames == frames
            &&& tc.rate.fps == fps
            &&& !tc.rate.drop_frame
            &&& tc.subframe.wf()
            &&& behind.len() >= 2 ==> tc.subframe@ == 1_000 * (256 * behind[0] + behind[1])
            &&& behind.len() < 2 ==> tc.subframe@ == 0
        },
{
    let data = seq![0x22u8, flags, fps, hours, minutes, seconds, frames] + behind;
    assert(data[0] == 0x22 && data[1] == flags && data[2] == fps && data[3] == hours && data[4]
        == minutes && data[5] == seconds && data[6] == frames);
    if behind.len() >= 2 {
        assert(data[7] == behind[0] && data[8] == behind[1]);
    }
    crate::time::of_undoes_the_view(Duration { secs: 0, nanos: 0 }, trailer_micros(data) * 1000);
}

/// A date record reads back: a year of this century, a month and a day, a decimal digit to a
/// nibble, whatever stands in the bytes around them.
pub proof fn a_date_record_reads_back(
    flags: u8,
    first: u8,
    year: u16,
    month: u8,
    day: u8,
    last: u8,
    behind: Seq<u8>,
)
    requires
        2000 <= year <= 2099,
        1 <= month <= 12,
        1 <= day <= 31,
    ensures
        ({
            let y = (year - 2000) as u8;
            advert_in(
                seq![
                    0x42u8,
                    flags,
                    first,
                    (16 * (y / 10) + y % 10) as u8,
                    (16 * (month / 10) + month % 10) as u8,
                    (16 * (day / 10) + day % 10) as u8,
                    last,
                ] + behind,
            ) == Some(Advert::Date(Date { year, month, day }))
        }),
{
    let y = (year - 2000) as u8;
    let data = seq![
        0x42u8,
        flags,
        first,
        (16 * (y / 10) + y % 10) as u8,
        (16 * (month / 10) + month % 10) as u8,
        (16 * (day / 10) + day % 10) as u8,
        last,
    ] + behind;
    assert(data[0] == 0x42 && data[3] == 16 * (y / 10) + y % 10 && data[4] == 16 * (month / 10)
        + month % 10 && data[5] == 16 * (day / 10) + day % 10);
}

/// Nothing else is an advertisement: a payload that parses is long enough, has one of the two
/// record types, and has every field in range.
pub proof fn nothing_else_is_a_record(data: Seq<u8>)
    ensures
        advert_in(data) is Some ==> data.len() >= 7 && (data[0] == 0x22 || data[0] == 0x42),
        data.len() >= 7 && data[0] == 0x22 ==> (advert_in(data) is Some <==> 1 <= data[2] <= 120
            && data[3] < 24 && data[4] < 60 && data[5] < 60 && data[6] < data[2]),
        data.len() >= 7 && data[0] == 0x42 ==> (advert_in(data) is Some <==> {
            &&& data[3] / 16 < 10 && data[3] % 16 < 10
            &&& data[4] / 16 < 10 && data[4] % 16 < 10
            &&& data[5] / 16 < 10 && data[5] % 16 < 10
            &&& 1 <= 10 * (data[4] / 16) + data[4] % 16 <= 12
            &&& 1 <= 10 * (data[5] / 16) + data[5] % 16 <= 31
        }),
        data.len() >= 7 && data[0] == 0x22 ==> !(advert_in(data) matches Some(Advert::Date(_))),
        data.len() >= 7 && data[0] == 0x42 ==> !(advert_in(data) matches Some(
            Advert::Timecode(_),
        )),
{
}

/// A manufacturer record reads back, with the charge in the low seven bits of its third byte
/// and the charger in the top one, and nothing else is one: not a record of another length,
/// nor a charge of more than a hundred.
pub proof fn a_manufacturer_record_reads_back(
    a: u8,
    b: u8,
    percent: u8,
    charging: bool,
    c: u8,
    d: u8,
    other: Seq<u8>,
)
    requires
        percent < 128,
    ensures
        ({
            let battery = if charging {
                (percent + 128) as u8
            } else {
                percent
            };
            let found = status_in(seq![a, b, battery, c, d]);
            &&& percent <= 100 ==> found == Some(Status { battery_percent: percent, charging })
            &&& percent > 100 ==> found is None
        }),
        other.len() != 5 ==> status_in(other) is None,
{
}

} // verus!
