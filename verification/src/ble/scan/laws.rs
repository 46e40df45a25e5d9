//! What holds of every scan, whatever the adapter reports.

use vstd::prelude::*;

use crate::ble::scan::{self, CentralEvent, DeviceView, EventView, Properties, ScanView};
use crate::time::Instant;

verus! {

/// Nothing is listed twice.
pub open spec fn listed_once(devices: Seq<DeviceView>) -> bool {
    forall|i: int, j: int|
        0 <= i < j < devices.len() ==> (#[trigger] devices[i]).id != (#[trigger] devices[j]).id
}

proof fn lemma_slot(devices: Seq<DeviceView>, id: Seq<char>)
    ensures
        match scan::slot_of(devices, id) {
            Some(slot) => 0 <= slot < devices.len() && devices[slot].id == id,
            None => forall|i: int| 0 <= i < devices.len() ==> (#[trigger] devices[i]).id != id,
        },
    decreases devices.len(),
{
    if devices.len() > 0 && devices.last().id != id {
        lemma_slot(devices.drop_last(), id);
        assert forall|i: int|
            scan::slot_of(devices, id) is None && 0 <= i < devices.len() implies (
        #[trigger] devices[i]).id != id by {
            if i < devices.len() - 1 {
                assert(devices.drop_last()[i] == devices[i]);
            }
        }
    }
}

/// A device that is found is found at a place in the list, and one that is not is nowhere in
/// it.
pub proof fn a_slot_is_a_place(devices: Seq<DeviceView>, id: Seq<char>)
    ensures
        scan::slot_of(devices, id) matches Some(slot) ==> 0 <= slot < devices.len()
            && devices[slot].id == id,
        scan::slot_of(devices, id) is None ==> forall|i: int|
            0 <= i < devices.len() ==> (#[trigger] devices[i]).id != id,
{
    lemma_slot(devices, id);
}

/// The slot is the one with the name, where names are not repeated.
proof fn lemma_the_slot(devices: Seq<DeviceView>, id: Seq<char>, slot: int)
    requires
        listed_once(devices),
        0 <= slot < devices.len(),
        devices[slot].id == id,
    ensures
        scan::slot_of(devices, id) == Some(slot),
{
    lemma_slot(devices, id);
}

/// The devices after a report keep their names and their places, and at most one is new.
proof fn lemma_report_devices(
    s: ScanView,
    event: CentralEvent,
    answer: Option<Properties>,
    at: Instant,
)
    ensures
        ({
            let after = scan::after_report(s, event, answer, at).devices;
            match scan::heard_from(event) {
                None => after == s.devices,
                Some(id) => {
                    let devices = scan::ensured(s.devices, id);
                    let slot = scan::slot_of(devices, id)->0;
                    &&& scan::slot_of(devices, id) is Some
                    &&& 0 <= slot < devices.len()
                    &&& devices[slot].id == id
                    &&& after == devices.update(slot, after[slot])
                    &&& after[slot].id == id
                    &&& s.devices.len() <= devices.len() <= s.devices.len() + 1
                    &&& forall|i: int|
                        0 <= i < s.devices.len() ==> #[trigger] devices[i] == s.devices[i]
                },
            }
        }),
{
    if let Some(id) = scan::heard_from(event) {
        let devices = scan::ensured(s.devices, id);
        lemma_slot(s.devices, id);
        lemma_slot(devices, id);
        if scan::slot_of(s.devices, id) is None {
            assert(devices.last().id == id);
        }
        let after = scan::after_report(s, event, answer, at).devices;
        let slot = scan::slot_of(devices, id)->0;
        assert(after =~= devices.update(slot, after[slot]));
    }
}

/// Every device is listed once, however often it is heard from: a scan starts with none
/// listed, and no report and no look for silence lists one a second time.
pub proof fn every_device_is_listed_once(
    s: ScanView,
    event: CentralEvent,
    answer: Option<Properties>,
    at: Instant,
    name: Option<Seq<char>>,
)
    requires
        listed_once(s.devices),
    ensures
        listed_once(scan::started(name).devices),
        listed_once(scan::after_report(s, event, answer, at).devices),
        listed_once(scan::after_sweep(s, at).devices),
{
    lemma_report_devices(s, event, answer, at);
    if let Some(id) = scan::heard_from(event) {
        lemma_slot(s.devices, id);
    }
}

/// A device keeps its place: what a report or a look for silence leaves behind lists the
/// same devices in the same order, with at most one more at the end.
pub proof fn a_device_keeps_its_place(
    s: ScanView,
    event: CentralEvent,
    answer: Option<Properties>,
    at: Instant,
    slot: int,
)
    requires
        0 <= slot < s.devices.len(),
    ensures
        s.devices.len() <= scan::after_report(s, event, answer, at).devices.len()
            <= s.devices.len() + 1,
        scan::after_report(s, event, answer, at).devices[slot].id == s.devices[slot].id,
        scan::after_sweep(s, at).devices.len() == s.devices.len(),
        scan::after_sweep(s, at).devices[slot].id == s.devices[slot].id,
{
    lemma_report_devices(s, event, answer, at);
}

/// A report changes nothing about any other device.
pub proof fn a_report_concerns_one_device(
    s: ScanView,
    event: CentralEvent,
    answer: Option<Properties>,
    at: Instant,
    slot: int,
)
    requires
        0 <= slot < s.devices.len(),
        scan::heard_from(event) != Some(s.devices[slot].id),
    ensures
        scan::after_report(s, event, answer, at).devices[slot] == s.devices[slot],
{
    lemma_report_devices(s, event, answer, at);
}

/// A device that the filter turns away is recorded and not heard of: it is listed, its
/// advertisements are not counted, and nothing is raised for it.
pub proof fn a_filtered_out_device_is_recorded_and_not_heard_of(
    s: ScanView,
    event: CentralEvent,
    answer: Option<Properties>,
    at: Instant,
    id: Seq<char>,
)
    requires
        scan::heard_from(event) == Some(id),
        ({
            let devices = scan::ensured(s.devices, id);
            !scan::answers(
                scan::refreshed(devices[scan::slot_of(devices, id)->0], answer),
                s.filter,
            )
        }),
    ensures
        ({
            let after = scan::after_report(s, event, answer, at);
            &&& after.pending == s.pending
            &&& scan::slot_of(after.devices, id) is Some
            &&& after.devices[scan::slot_of(scan::ensured(s.devices, id), id)->0].adverts
                == scan::ensured(s.devices, id)[scan::slot_of(
                scan::ensured(s.devices, id),
                id,
            )->0].adverts
        }),
{
    lemma_report_devices(s, event, answer, at);
    lemma_slot(scan::after_report(s, event, answer, at).devices, id);
}

/// A device that has a name keeps it, whatever a later lookup answers, and of its signal
/// strength the last good reading is kept.
pub proof fn a_lookup_takes_nothing_away(d: DeviceView, answer: Option<Properties>)
    ensures
        d.name is Some ==> scan::refreshed(d, answer).name == d.name,
        d.rssi is Some ==> scan::refreshed(d, answer).rssi is Some,
{
}

/// The counters nest: of the advertisements some are payloads, and of those some did not
/// decode.
pub open spec fn counters_nest(d: DeviceView) -> bool {
    d.unparsed <= d.payloads <= d.adverts
}

/// The counters of every device nest, and only a device with failures has a sample.
pub proof fn the_counters_nest(d: DeviceView, event: CentralEvent, id: Seq<char>, at: Instant)
    requires
        counters_nest(d),
        d.unparsed_sample is Some <==> d.unparsed > 0,
    ensures
        counters_nest(scan::new_device(id)),
        counters_nest(scan::with_report(d, event, at)),
        counters_nest(scan::looked_at(d, at)),
        scan::with_report(d, event, at).unparsed_sample is Some <==> scan::with_report(
            d,
            event,
            at,
        ).unparsed > 0,
{
}

/// One thing that happens to a scan.
pub enum Step {
    Report { event: CentralEvent, answer: Option<Properties>, at: Instant },
    Sweep { now: Instant },
}

/// A scan after it.
pub open spec fn after_step(s: ScanView, step: Step) -> ScanView {
    match step {
        Step::Report { event, answer, at } => scan::after_report(s, event, answer, at),
        Step::Sweep { now } => scan::after_sweep(s, now),
    }
}

/// A scan after several of them.
pub open spec fn after_steps(s: ScanView, steps: Seq<Step>) -> ScanView
    decreases steps.len(),
{
    if steps.len() == 0 {
        s
    } else {
        after_step(after_steps(s, steps.drop_last()), steps.last())
    }
}

/// How often a device has been reported lost.
pub open spec fn losses(events: Seq<EventView>, id: Seq<char>) -> nat
    decreases events.len(),
{
    if events.len() == 0 {
        0
    } else if events.last() is Lost && events.last().id() == id {
        losses(events.drop_last(), id) + 1
    } else {
        losses(events.drop_last(), id)
    }
}

/// How often timecode has come from it.
pub open spec fn readings(events: Seq<EventView>, id: Seq<char>) -> nat
    decreases events.len(),
{
    if events.len() == 0 {
        0
    } else if events.last() is Timecode && events.last().id() == id {
        readings(events.drop_last(), id) + 1
    } else {
        readings(events.drop_last(), id)
    }
}

/// Whether a device's silence could still be reported: its clock has run, and its current
/// silence has not been reported yet.
pub open spec fn armed(d: DeviceView) -> nat {
    if d.clock is Some && !d.lost_reported {
        1
    } else {
        0
    }
}

/// The same, of the device with a name.
pub open spec fn armed_in(devices: Seq<DeviceView>, id: Seq<char>) -> nat {
    match scan::slot_of(devices, id) {
        Some(slot) => armed(devices[slot]),
        None => 0,
    }
}

proof fn lemma_counts_add(a: Seq<EventView>, b: Seq<EventView>, id: Seq<char>)
    ensures
        losses(a + b, id) == losses(a, id) + losses(b, id),
        readings(a + b, id) == readings(a, id) + readings(b, id),
    decreases b.len(),
{
    if b.len() == 0 {
        assert(a + b =~= a);
    } else {
        lemma_counts_add(a, b.drop_last(), id);
        assert((a + b).drop_last() =~= a + b.drop_last());
    }
}

proof fn lemma_silences(devices: Seq<DeviceView>, now: Instant, id: Seq<char>)
    requires
        listed_once(devices),
    ensures
        readings(scan::silences(devices, now), id) == 0,
        losses(scan::silences(devices, now), id) == (match scan::slot_of(devices, id) {
            Some(slot) => if scan::silence_of(devices[slot], now) is Some {
                1nat
            } else {
                0
            },
            None => 0,
        }),
    decreases devices.len(),
{
    if devices.len() > 0 {
        let front = devices.drop_last();
        lemma_silences(front, now, id);
        lemma_slot(front, id);
        let before = scan::silences(front, now);
        if let Some(event) = scan::silence_of(devices.last(), now) {
            assert(before.push(event).drop_last() =~= before);
            assert(event.id() == devices.last().id);
        }
        if devices.last().id == id {
            if let Some(slot) = scan::slot_of(front, id) {
                assert(devices[slot].id == devices.last().id);
            }
        }
    }
}

proof fn lemma_report_counts(
    id: Seq<char>,
    other: Seq<char>,
    event: CentralEvent,
    at: Instant,
    d: DeviceView,
)
    ensures
        losses(scan::report_events(other, event, at), id) == 0,
        id != other ==> readings(scan::report_events(other, event, at), id) == 0,
        id == other ==> armed(scan::with_report(d, event, at)) <= armed(d) + readings(
            scan::report_events(other, event, at),
            id,
        ),
{
    let events = scan::report_events(other, event, at);
    reveal_with_fuel(losses, 3);
    reveal_with_fuel(readings, 3);
    if events.len() == 2 {
        assert(events.drop_last() =~= seq![events[0]]);
        assert(events.drop_last().drop_last() =~= Seq::empty());
    } else if events.len() == 1 {
        assert(events.drop_last() =~= Seq::empty());
    }
}

/// What is counted of a device over one step: each loss is paid for by the reading that
/// set the clock going.
proof fn lemma_step(s: ScanView, step: Step, id: Seq<char>)
    requires
        listed_once(s.devices),
    ensures
        ({
            let after = after_step(s, step);
            &&& listed_once(after.devices)
            &&& losses(after.pending, id) + armed_in(after.devices, id) + readings(s.pending, id)
                <= losses(s.pending, id) + armed_in(s.devices, id) + readings(after.pending, id)
        }),
{
    let after = after_step(s, step);
    match step {
        Step::Report { event, answer, at } => {
            every_device_is_listed_once(s, event, answer, at, None);
            lemma_report_devices(s, event, answer, at);
            if let Some(other) = scan::heard_from(event) {
                let fresh = scan::slot_of(s.devices, other) is None;
                let devices = scan::ensured(s.devices, other);
                let slot = scan::slot_of(devices, other)->0;
                let d = scan::refreshed(devices[slot], answer);
                let told = if fresh {
                    s.pending.push(EventView::Discovered { id: other })
                } else {
                    s.pending
                };
                if fresh {
                    assert(told.drop_last() =~= s.pending);
                }
                lemma_report_counts(id, other, event, at, d);
                lemma_counts_add(told, scan::report_events(other, event, at), id);
                lemma_slot(s.devices, id);
                lemma_slot(after.devices, id);
                if id == other {
                    lemma_the_slot(after.devices, id, slot);
                    if !fresh {
                        lemma_the_slot(s.devices, id, slot);
                    }
                    assert(armed(d) == armed(devices[slot]));
                } else {
                    if let Some(k) = scan::slot_of(s.devices, id) {
                        assert(after.devices[k] == s.devices[k]);
                        lemma_the_slot(after.devices, id, k);
                    } else if let Some(k) = scan::slot_of(after.devices, id) {
                        assert(k != slot);
                        assert(after.devices[k] == devices[k]);
                        assert(k < s.devices.len());
                        assert(s.devices[k].id == id);
                    }
                }
            }
        },
        Step::Sweep { now } => {
            lemma_silences(s.devices, now, id);
            lemma_counts_add(s.pending, scan::silences(s.devices, now), id);
            lemma_slot(s.devices, id);
            lemma_slot(after.devices, id);
            if let Some(k) = scan::slot_of(s.devices, id) {
                assert(after.devices[k] == scan::looked_at(s.devices[k], now));
                lemma_the_slot(after.devices, id, k);
            } else if let Some(k) = scan::slot_of(after.devices, id) {
                assert(s.devices[k].id == id);
            }
        },
    }
}

proof fn lemma_steps(s: ScanView, steps: Seq<Step>, id: Seq<char>)
    requires
        listed_once(s.devices),
    ensures
        ({
            let after = after_steps(s, steps);
            &&& listed_once(after.devices)
            &&& losses(after.pending, id) + armed_in(after.devices, id) + readings(s.pending, id)
                <= losses(s.pending, id) + armed_in(s.devices, id) + readings(after.pending, id)
        }),
    decreases steps.len(),
{
    if steps.len() > 0 {
        lemma_steps(s, steps.drop_last(), id);
        lemma_step(after_steps(s, steps.drop_last()), steps.last(), id);
    }
}

/// One silence, one report: over any stretch of a scan in which no timecode comes from a
/// device, however many reports and looks for silence it holds, the device is reported
/// lost at most once.
pub proof fn a_silence_is_reported_once(s: ScanView, steps: Seq<Step>, id: Seq<char>)
    requires
        listed_once(s.devices),
        readings(after_steps(s, steps).pending, id) == readings(s.pending, id),
    ensures
        losses(after_steps(s, steps).pending, id) <= losses(s.pending, id) + 1,
{
    lemma_steps(s, steps, id);
}

/// Only a device that has sent timecode is ever reported lost, and no more often than it
/// has sent some.
pub proof fn only_a_tentacle_is_lost(name: Option<Seq<char>>, steps: Seq<Step>, id: Seq<char>)
    ensures
        ({
            let after = after_steps(scan::started(name), steps);
            losses(after.pending, id) <= readings(after.pending, id)
        }),
{
    lemma_steps(scan::started(name), steps, id);
}

/// A timecode that arrives is heard: whatever a device has sent before, a timecode record
/// counts as one more payload that decodes, anchors the device's clock on those fields at that
/// moment, is raised with them, and is the device's first if there was none before. Nothing
/// else about the device changes but that it is no longer silent.
pub proof fn a_timecode_is_heard(
    d: DeviceView,
    flags: u8,
    fps: u8,
    hours: u8,
    minutes: u8,
    seconds: u8,
    frames: u8,
    behind: Seq<u8>,
    at: Instant,
)
    requires
        1 <= fps <= 120,
        hours < 24,
        minutes < 60,
        seconds < 60,
        frames < fps,
        d.payloads < u64::MAX,
    ensures
        ({
            let payload = seq![0x22u8, flags, fps, hours, minutes, seconds, frames] + behind;
            let after = scan::with_payload(d, payload, at);
            &&& after.payloads == d.payloads + 1
            &&& after.unparsed == d.unparsed
            &&& after.adverts == d.adverts
            &&& after.unparsed_sample == d.unparsed_sample
            &&& after.id == d.id && after.name == d.name && after.rssi == d.rssi
            &&& after.date == d.date && after.battery == d.battery
            &&& !after.lost_reported
            &&& d.first_timecode is None ==> after.first_timecode == Some(at)
            &&& d.first_timecode is Some ==> after.first_timecode == d.first_timecode
            &&& after.clock matches Some(clock) && {
                &&& clock.anchored == at
                &&& clock.last.hours == hours && clock.last.minutes == minutes
                &&& clock.last.seconds == seconds && clock.last.frames == frames
                &&& clock.last.rate.fps == fps
            }
            &&& scan::payload_event(d.id, payload, at) matches EventView::Timecode {
                id,
                timecode,
                at: when,
            } && {
                &&& id == d.id
                &&& when == at
                &&& timecode == after.clock->0.last
            }
        }),
{
    crate::ble::a_timecode_record_reads_back(flags, fps, hours, minutes, seconds, frames, behind);
}

/// A payload that is no record is kept as evidence: it counts as one more that did not decode,
/// it is the device's sample from then on and it is raised as it came; the clock goes on as it
/// was.
pub proof fn an_unreadable_payload_is_kept(d: DeviceView, payload: Seq<u8>, at: Instant)
    requires
        crate::ble::advert_in(payload) is None,
        d.payloads < u64::MAX,
        d.unparsed < u64::MAX,
    ensures
        ({
            let after = scan::with_payload(d, payload, at);
            &&& after.payloads == d.payloads + 1
            &&& after.unparsed == d.unparsed + 1
            &&& after.unparsed_sample == Some(payload)
            &&& after.clock == d.clock
            &&& after.date == d.date
            &&& after.first_timecode == d.first_timecode
            &&& after.lost_reported == d.lost_reported
            &&& scan::payload_event(d.id, payload, at) == (EventView::Unreadable {
                id: d.id,
                payload,
            })
        }),
{
}

/// What a report raises comes behind what was raised before, and a device that was not listed
/// is announced in front of anything it said.
pub proof fn a_new_device_is_announced_first(
    s: ScanView,
    event: CentralEvent,
    answer: Option<Properties>,
    at: Instant,
    id: Seq<char>,
)
    requires
        scan::heard_from(event) == Some(id),
        s.filter is None,
    ensures
        ({
            let before = s.pending;
            let after = scan::after_report(s, event, answer, at).pending;
            let fresh = scan::slot_of(s.devices, id) is None;
            &&& before.len() <= after.len()
            &&& after.take(before.len() as int) == before
            &&& fresh ==> after.len() > before.len() && after[before.len() as int] == (
            EventView::Discovered { id })
            &&& forall|i: int|
                before.len() <= i < after.len() && (#[trigger] after[i]) is Discovered ==> fresh && i
                    == before.len()
        }),
{
    let before = s.pending;
    let after = scan::after_report(s, event, answer, at).pending;
    assert(after.take(before.len() as int) =~= before);
}

/// A signal strength that arrives is the device's from then on, and is raised.
pub proof fn a_signal_strength_is_taken(d: DeviceView, id: String, rssi: i16, at: Instant)
    requires
        d.adverts < u64::MAX,
    ensures
        ({
            let event = CentralEvent::RssiUpdate { id, rssi };
            let after = scan::with_report(d, event, at);
            &&& after.rssi == Some(rssi)
            &&& after.adverts == d.adverts + 1
            &&& after.payloads == d.payloads
            &&& after.clock == d.clock
            &&& scan::report_events(d.id, event, at) == seq![EventView::Rssi { id: d.id, rssi }]
        }),
{
}

/// A device falls silent more than five seconds after its last timecode, and not before: then
/// that is raised once, with the timecode and how long ago it came.
pub proof fn silence_takes_five_seconds(d: DeviceView, now: Instant)
    requires
        now.wf(),
        d.clock matches Some(clock) && clock.anchored.wf(),
        !d.lost_reported,
    ensures
        ({
            let clock = d.clock->0;
            let silent = now@ > clock.anchored@ + 5_000_000_000;
            &&& scan::silence_of(d, now) is Some <==> silent
            &&& scan::looked_at(d, now).lost_reported <==> silent
            &&& scan::silence_of(d, now) matches Some(event) ==> (event matches EventView::Lost {
                id,
                last,
                since,
            } && id == d.id && last == clock.last && since@ == now@ - clock.anchored@)
        }),
{
    let clock = d.clock->0;
    if now@ > clock.anchored@ {
        crate::time::of_undoes_the_view(
            crate::time::Duration { secs: 0, nanos: 0 },
            (now@ - clock.anchored@) as nat,
        );
    }
}

/// The service and the company that a Tentacle goes by.
pub proof fn a_tentacle_goes_by_its_own_numbers(records: Map<u16, Vec<u8>>)
    ensures
        scan::tentacle_service() == 0x0000fdac_0000_1000_8000_00805f9b34fb,
        records.dom().contains(0x043f) ==> scan::charge_in(records) == crate::ble::status_in(
            records[0x043f]@,
        ),
        !records.dom().contains(0x043f) ==> scan::charge_in(records) is None,
{
}

/// A device without a name takes the local one, or the advertised one where there is no local
/// one; and the last signal strength that a lookup gives is the one that counts.
pub proof fn a_lookup_fills_in_what_is_missing(d: DeviceView, answer: Properties)
    ensures
        ({
            let after = scan::refreshed(d, Some(answer));
            &&& d.name is None && answer.local_name is Some ==> after.name == scan::text_of(
                answer.local_name,
            )
            &&& d.name is None && answer.local_name is None ==> after.name == scan::text_of(
                answer.advertisement_name,
            )
            &&& answer.rssi is Some ==> after.rssi == answer.rssi
            &&& answer.rssi is None ==> after.rssi == d.rssi
        }),
{
}

proof fn lemma_filter_is_part(devices: Seq<DeviceView>, heard: spec_fn(DeviceView) -> bool)
    ensures
        devices.filter(heard).len() <= devices.len(),
        (forall|i: int| 0 <= i < devices.len() ==> !heard(#[trigger] devices[i]))
            <==> devices.filter(heard).len() == 0,
        (forall|i: int| 0 <= i < devices.len() ==> heard(#[trigger] devices[i])) ==> devices.filter(
            heard,
        ) == devices,
    decreases devices.len(),
{
    reveal(Seq::filter);
    if devices.len() > 0 {
        let front = devices.drop_last();
        lemma_filter_is_part(front, heard);
        assert(devices[devices.len() - 1] == devices.last());
        assert(forall|i: int| 0 <= i < front.len() ==> #[trigger] front[i] == devices[i]);
        assert(front.push(devices.last()) =~= devices);
        if devices.filter(heard).len() == 0 {
            assert forall|i: int| 0 <= i < devices.len() implies !heard(#[trigger] devices[i]) by {
                if i < front.len() {
                    assert(front[i] == devices[i]);
                }
            }
        }
    } else {
        assert(devices.filter(heard) =~= devices);
    }
}

/// A census counts every device that is listed, and as matched those that were heard from: all
/// of them where all were, and none where none was.
pub proof fn a_census_counts_who_was_heard(
    census: crate::ble::diagnostics::Census,
    devices: Seq<DeviceView>,
)
    requires
        scan::is_census(census, devices),
    ensures
        census.devices == devices.len(),
        census.matched <= census.devices,
        census.matched == 0 <==> forall|i: int|
            0 <= i < devices.len() ==> (#[trigger] devices[i]).adverts == 0,
        (forall|i: int| 0 <= i < devices.len() ==> (#[trigger] devices[i]).adverts > 0)
            ==> census.matched == devices.len(),
{
    let heard = |d: DeviceView| d.adverts > 0;
    lemma_filter_is_part(devices, heard);
    assert(scan::looked_into(devices) == devices.filter(heard));
    if census.matched == 0 {
        assert forall|i: int| 0 <= i < devices.len() implies (#[trigger] devices[i]).adverts
            == 0 by {
            assert(!heard(devices[i]));
        }
    }
    if forall|i: int| 0 <= i < devices.len() ==> (#[trigger] devices[i]).adverts == 0 {
        assert forall|i: int| 0 <= i < devices.len() implies !heard(#[trigger] devices[i]) by {}
    }
    if forall|i: int| 0 <= i < devices.len() ==> (#[trigger] devices[i]).adverts > 0 {
        assert forall|i: int| 0 <= i < devices.len() implies heard(#[trigger] devices[i]) by {}
    }
}

} // verus!
