//! What a device is known by.

use vstd::prelude::*;

use crate::ble::scan::{self, CentralEvent, Properties};
use crate::tentacle;
use crate::tentacle::SeenView;
use crate::text;
use crate::time::Instant;

verus! {

/// A timecode that arrives is counted and, on a display, anchors the device's clock on its own
/// fields; in a log the clock is left alone. Nothing else about the device changes.
pub proof fn a_timecode_is_taken(
    s: SeenView,
    json: bool,
    flags: u8,
    fps: u8,
    hours: u8,
    minutes: u8,
    seconds: u8,
    frames: u8,
    behind: Seq<u8>,
    at: Instant,
)
    requires
        1 <= fps <= 120,
        hours < 24,
        minutes < 60,
        seconds < 60,
        frames < fps,
        s.fdac < u64::MAX,
    ensures
        ({
            let payload = seq![0x22u8, flags, fps, hours, minutes, seconds, frames] + behind;
            let after = tentacle::with_payload(s, json, payload, at);
            &&& after.fdac == s.fdac + 1
            &&& after.unparsed == s.unparsed
            &&& after.adverts == s.adverts
            &&& after.unparsed_sample == s.unparsed_sample
            &&& after.name == s.name && after.rssi == s.rssi
            &&& after.date == s.date && after.battery == s.battery
            &&& json ==> after.clock == s.clock && after.first_timecode == s.first_timecode
            &&& !json && s.first_timecode is None ==> after.first_timecode == Some(at)
            &&& s.first_timecode is Some ==> after.first_timecode == s.first_timecode
            &&& !json ==> (after.clock matches Some(clock) && {
                &&& clock.anchored == at
                &&& clock.last.hours == hours && clock.last.minutes == minutes
                &&& clock.last.seconds == seconds && clock.last.frames == frames
                &&& clock.last.rate.fps == fps
            })
        }),
{
    crate::ble::a_timecode_record_reads_back(flags, fps, hours, minutes, seconds, frames, behind);
}

/// What does not decode is counted and kept as it came, and changes nothing else.
pub proof fn an_unreadable_payload_is_kept(
    s: SeenView,
    json: bool,
    payload: Seq<u8>,
    at: Instant,
)
    requires
        crate::ble::advert_in(payload) is None,
        s.fdac < u64::MAX,
        s.unparsed < u64::MAX,
    ensures
        tentacle::with_payload(s, json, payload, at) == (SeenView {
            fdac: (s.fdac + 1) as u64,
            unparsed: (s.unparsed + 1) as u64,
            unparsed_sample: Some(payload),
            ..s
        }),
{
}

/// A lookup fills in what is missing and takes nothing away: a device that has a name keeps
/// all that is known of it; one without takes the local name, or the advertised one where
/// there is no local one, and the signal strength where it had none.
pub proof fn a_lookup_fills_in_what_is_missing(s: SeenView, answer: Properties)
    ensures
        ({
            let after = tentacle::learned(s, Some(answer));
            &&& s.name is Some ==> after == s
            &&& s.name is None && answer.local_name is Some ==> after.name == scan::text_of(
                answer.local_name,
            )
            &&& s.name is None && answer.local_name is None ==> after.name == scan::text_of(
                answer.advertisement_name,
            )
            &&& s.rssi is Some ==> after.rssi == s.rssi
            &&& s.name is None && s.rssi is None ==> after.rssi == answer.rssi
            &&& after.adverts == s.adverts && after.clock == s.clock
        }),
        tentacle::learned(s, None) == s,
{
}

/// A device that is not asked for is not counted; one that is counts each report, and takes
/// its signal strength from those that carry one.
pub proof fn only_what_is_asked_for_is_counted(
    s: SeenView,
    want: Option<Seq<char>>,
    event: CentralEvent,
)
    requires
        s.adverts < u64::MAX,
    ensures
        ({
            let after = tentacle::noticed(s, want, event);
            &&& !tentacle::answers(s, want) ==> after == s
            &&& tentacle::answers(s, want) ==> after.adverts == s.adverts + 1
            &&& tentacle::answers(s, want) ==> match event {
                CentralEvent::RssiUpdate { rssi, .. } => after.rssi == Some(rssi),
                _ => after.rssi == s.rssi,
            }
            &&& after.name == s.name && after.clock == s.clock && after.fdac == s.fdac
        }),
        want is None ==> tentacle::answers(s, want),
        want is Some && s.name is None ==> !tentacle::answers(s, want),
{
}

/// A device starts from nothing: the first event of its that is let through makes one, and the
/// first payload makes one, whatever is in it.
pub proof fn a_device_starts_from_nothing(
    event: CentralEvent,
    json: bool,
    payload: Seq<u8>,
    at: Instant,
)
    ensures
        tentacle::noticed(tentacle::unseen(), None, event).adverts == 1,
        tentacle::noticed(tentacle::unseen(), None, event).fdac == 0,
        tentacle::with_payload(tentacle::unseen(), json, payload, at).fdac == 1,
        tentacle::with_payload(tentacle::unseen(), json, payload, at).adverts == 0,
        tentacle::with_payload(tentacle::unseen(), json, payload, at).unparsed <= 1,
        tentacle::with_payload(tentacle::unseen(), json, payload, at).unparsed == 1
            <==> tentacle::with_payload(tentacle::unseen(), json, payload, at).unparsed_sample
            is Some,
{
}

/// A charge stands right-aligned in front of its percent sign and reads back, in a column that
/// is as wide for one as for another.
pub proof fn a_charge_column_reads_back(b: u8)
    ensures
        ({
            let s = tentacle::charge_column(Some(b));
            let n = text::decimal(b as nat).len();
            &&& s.len() == 7
            &&& s[6] == '%'
            &&& 1 <= n <= 3
            &&& text::laws::all_digits(s.subrange(6 - n, 6))
            &&& text::laws::numeral(s.subrange(6 - n, 6)) == b
            &&& forall|i: int| 0 <= i < 6 - n ==> #[trigger] s[i] == ' '
        }),
        tentacle::charge_column(None).len() == 0,
{
    reveal_strlit("   ");
    reveal_strlit("%");
    let digits = text::decimal(b as nat);
    text::laws::a_decimal_reads_back(b as nat);
    reveal_with_fuel(text::decimal, 4);
    text::laws::a_column_holds_its_text(digits, 3, ' ');
    let s = tentacle::charge_column(Some(b));
    let n = digits.len();
    assert(s.subrange(6 - n, 6) =~= digits);
    assert forall|i: int| 0 <= i < 6 - n implies #[trigger] s[i] == ' ' by {
        if i >= 3 {
            assert(s[i] == text::pad_start(digits, 3, ' ')[i - 3]);
        }
    }
}

} // verus!
