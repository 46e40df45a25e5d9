//! What a device's own words mean.

use vstd::prelude::*;

use crate::ble;
use crate::ble::jam;
use crate::ble::scan;
use crate::ble::uuids;
use crate::ble::Date;
use crate::text;

verus! {

/// A date is written year, month and day, in four digits and twice two, with hyphens between.
pub proof fn a_written_date_reads_back(date: Date)
    requires
        date.year < 10_000,
        date.month < 100,
        date.day < 100,
    ensures
        ({
            let s = ble::date_text(date);
            &&& s.len() == 10
            &&& s[4] == '-'
            &&& s[7] == '-'
            &&& text::laws::all_digits(s.subrange(0, 4))
            &&& text::laws::numeral(s.subrange(0, 4)) == date.year
            &&& text::laws::two_digits(s.subrange(5, 7), date.month as int)
            &&& text::laws::two_digits(s.subrange(8, 10), date.day as int)
        }),
{
    reveal_strlit("-");
    text::laws::a_padded_number_reads_back(date.year as nat, 4);
    reveal_with_fuel(vstd::arithmetic::power::pow, 5);
    assert(vstd::arithmetic::power::pow(10, 4) == 10_000);
    text::laws::two_places_read_back(date.month as nat);
    text::laws::two_places_read_back(date.day as nat);
    let s = ble::date_text(date);
    assert(s.subrange(0, 4) =~= text::zero_padded(date.year as nat, 4));
    assert(s.subrange(5, 7) =~= text::zero_padded(date.month as nat, 2));
    assert(s.subrange(8, 10) =~= text::zero_padded(date.day as nat, 2));
}

/// A vendor payload reads back: a rate, four fields in range and, behind them, how far into
/// the frame in microseconds, the high byte first.
pub proof fn a_vendor_payload_reads_back(
    fps: u8,
    hours: u8,
    minutes: u8,
    seconds: u8,
    frames: u8,
    behind: Seq<u8>,
)
    requires
        1 <= fps <= 120,
        hours < 24,
        minutes < 60,
        seconds < 60,
        frames < fps,
    ensures
        jam::vendor_reading(seq![fps, hours, minutes, seconds, frames] + behind) matches Some(tc)
            && {
            &&& tc.hours == hours
            &&& tc.minutes == minutes
            &&& tc.seconds == seconds
            &&& tc.frames == frames
            &&& tc.rate.fps == fps
            &&& !tc.rate.drop_frame
            &&& behind.len() >= 2 ==> tc.subframe@ == 1_000 * (256 * behind[0] + behind[1])
            &&& behind.len() < 2 ==> tc.subframe@ == 0
        },
{
    let bytes = seq![fps, hours, minutes, seconds, frames] + behind;
    ble::a_timecode_record_reads_back(0, fps, hours, minutes, seconds, frames, behind);
    assert(jam::framed(bytes) =~= seq![0x22u8, 0u8, fps, hours, minutes, seconds, frames]
        + behind);
}

/// The reads of a measurement are spread over more than a connection interval of 30
/// milliseconds, and no two in a row wait as long.
pub proof fn the_dither_is_wider_than_the_interval(n: nat)
    requires
        (n + 1) * 7_919 < 0x1_0000_0000_0000_0000,
    ensures
        jam::dither_micros(n) < 31_000,
        jam::dither_micros(n) != jam::dither_micros(n + 1),
        jam::dither_micros(n + 1) == jam::dither_micros(n) + 7_919 || jam::dither_micros(n + 1)
            + 31_000 == jam::dither_micros(n) + 7_919,
{
    let x = n * 7_919;
    assert((n + 1) * 7_919 == x + 7_919);
    vstd::arithmetic::div_mod::lemma_small_mod(x, 0x1_0000_0000_0000_0000);
    vstd::arithmetic::div_mod::lemma_small_mod(x + 7_919, 0x1_0000_0000_0000_0000);
}

/// A short UUID stands in the upper half of the first group of digits, and behind that group
/// stands the Bluetooth base.
pub proof fn a_short_uuid_stands_in_the_base(short: u16)
    ensures
        uuids::short_uuid(short) >> 96u128 == short as u128,
        uuids::short_uuid(short) & 0xffff_ffff_ffff_ffff_ffff_ffffu128
            == 0x0000_1000_8000_0080_5f9b_34fbu128,
{
    let u = uuids::short_uuid(short);
    let wide = short as u128;
    assert(u == 0x0000_1000_8000_0080_5f9b_34fb + wide * 0x1_0000_0000_0000_0000_0000_0000);
    assert(u >> 96u128 == wide && u & 0xffff_ffff_ffff_ffff_ffff_ffffu128
        == 0x0000_1000_8000_0080_5f9b_34fbu128) by (bit_vector)
        requires
            u == 0x0000_1000_8000_0080_5f9b_34fb + wide * 0x1_0000_0000_0000_0000_0000_0000,
            wide < 0x1_0000,
    ;
}

/// A device is called by its local name, or by the advertised one where there is no local one.
pub proof fn a_device_is_called_by_its_local_name(answer: scan::Properties)
    ensures
        answer.local_name matches Some(name) ==> jam::name_in(Some(answer)) == name@,
        answer.advertisement_name matches Some(name) ==> answer.local_name is None
            ==> jam::name_in(Some(answer)) == name@,
        answer.local_name is None && answer.advertisement_name is None ==> jam::name_in(
            Some(answer),
        ) == jam::name_in(None),
{
}

/// A conversation goes on for twelve seconds, and a search for fifteen: a link that lives for
/// about six and a half has ended by itself before either.
pub proof fn nothing_goes_on_for_ever(d: crate::time::Duration)
    ensures
        jam::talks_on(d) <==> d@ < 12_000_000_000,
        jam::looks_on(d) <==> d@ < 15_000_000_000,
        d@ <= 6_600_000_000 ==> jam::talks_on(d) && jam::looks_on(d),
{
}

/// A window is open until it has been open for as long as it is, and once shut it stays so.
pub proof fn a_window_shuts_for_good(
    opened: crate::time::Instant,
    window: crate::time::Duration,
    now: crate::time::Instant,
    later: crate::time::Instant,
)
    requires
        opened@ <= now@ <= later@,
    ensures
        jam::is_open(opened, window, now) <==> now@ < opened@ + window@,
        jam::is_open(opened, window, later) ==> jam::is_open(opened, window, now),
        jam::is_open(now, window, opened) <==> window@ > 0,
{
}

/// The number that hexadecimal digits spell.
pub open spec fn hex_numeral(s: Seq<char>) -> int
    decreases s.len(),
{
    if s.len() == 0 {
        0
    } else {
        16 * hex_numeral(s.drop_last()) + text::laws::hex_value(s.last())
    }
}

proof fn lemma_first_digits(uuid: u128, n: nat)
    requires
        1 <= n <= 32,
    ensures
        hex_numeral(uuids::digits(uuid, 0, n)) == uuid >> ((128 - 4 * n) as u128),
        forall|i: int| 0 <= i < n ==> text::laws::is_hex(#[trigger] uuids::digits(uuid, 0, n)[i]),
    decreases n,
{
    let s = uuids::digits(uuid, 0, n);
    let shift = (128 - 4 * n) as u128;
    assert((uuid >> shift) & 0xf < 16) by (bit_vector);
    assert(s.last() == text::hex_digit(uuids::nibble(uuid, n - 1)));
    assert((124 - 4 * (n - 1)) as u128 == shift);
    assert(text::laws::hex_value(s.last()) == (uuid >> shift) & 0xf);
    if n == 1 {
        assert(s.drop_last() =~= Seq::empty());
        assert(hex_numeral(s.drop_last()) == 0);
        assert((uuid >> 124) & 0xf == uuid >> 124) by (bit_vector);
    } else {
        lemma_first_digits(uuid, (n - 1) as nat);
        let before = uuids::digits(uuid, 0, (n - 1) as nat);
        assert(s.drop_last() =~= before);
        let more = (shift + 4) as u128;
        assert(uuid >> shift == 16 * (uuid >> more) + ((uuid >> shift) & 0xf)) by (bit_vector)
            requires
                more == shift + 4,
                shift <= 120,
        ;
        assert forall|i: int| 0 <= i < n implies text::laws::is_hex(#[trigger] s[i]) by {
            if i < n - 1 {
                assert(s[i] == before[i]);
            }
        }
    }
}

/// A UUID reads back from the way it is written: 32 hexadecimal digits, in groups of eight,
/// three times four, and twelve with hyphens between, that together spell it; and the first
/// eight of them spell its first four bytes.
pub proof fn a_written_uuid_reads_back(uuid: u128)
    ensures
        ({
            let s = uuids::uuid_text(uuid);
            let digits = s.subrange(0, 8) + s.subrange(9, 13) + s.subrange(14, 18) + s.subrange(
                19,
                23,
            ) + s.subrange(24, 36);
            &&& s.len() == 36
            &&& s[8] == '-' && s[13] == '-' && s[18] == '-' && s[23] == '-'
            &&& forall|i: int| 0 <= i < 32 ==> text::laws::is_hex(#[trigger] digits[i])
            &&& hex_numeral(digits) == uuid
            &&& hex_numeral(s.subrange(0, 8)) == uuid / 0x1_0000_0000_0000_0000_0000_0000
        }),
{
    let s = uuids::uuid_text(uuid);
    let digits = s.subrange(0, 8) + s.subrange(9, 13) + s.subrange(14, 18) + s.subrange(19, 23)
        + s.subrange(24, 36);
    lemma_first_digits(uuid, 32);
    lemma_first_digits(uuid, 8);
    let whole = uuids::digits(uuid, 0, 32);
    assert(digits =~= whole);
    assert(s.subrange(0, 8) =~= uuids::digits(uuid, 0, 8));
    assert(uuid >> 0 == uuid) by (bit_vector);
    assert(uuid >> 96 == uuid / 0x1_0000_0000_0000_0000_0000_0000) by (bit_vector);
}

} // verus!
