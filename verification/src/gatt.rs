//! Listening to the vendor GATT service, and reporting what it pushes.
//!
//! Three of the four vendor characteristics can be read and notify, so what they say can be
//! found out without writing anything: read each one, subscribe to all three, and log every
//! notification with a host timestamp. What is here decides and words; whoever owns the
//! adapter connects, reads, subscribes and writes the log.
//!
//! Nothing here writes to a device. The fourth characteristic is write-only and is how a
//! device's clock and name are set; it is listed and left alone.

pub mod digest;
pub mod laws;
pub mod phase;
pub mod session;
pub mod summary;

use std::collections::HashMap;

use vstd::prelude::*;

use crate::ble;
use crate::ble::scan::{self, CentralEvent};
use crate::ble::{uuids, Advert};
use crate::dump;
use crate::gatt::digest::{Digest, DigestView};
use crate::gatt::phase::{Phase, PhaseView};
use crate::text;
use crate::time::Duration;
use crate::timecode;
use crate::timecode::Timecode;

verus! {

broadcast use vstd::std_specs::hash::group_hash_axioms;

/// Client Characteristic Configuration, the descriptor a subscribe writes.
pub const CCCD: u16 = 0x2902;

/// Whatever the advertisement parsers can make of a payload, if anything.
pub open spec fn gloss_text(bytes: Seq<u8>) -> Seq<char> {
    match ble::advert_in(bytes) {
        Some(Advert::Timecode(tc)) => Seq::<char>::empty() + "   -> "@ + timecode::timecode_text(tc)
            + "  "@ + text::decimal(tc.rate.fps as nat) + "fps +"@ + text::decimal(
            tc.subframe@ / 1_000,
        ) + "µs"@,
        Some(Advert::Date(date)) => Seq::<char>::empty() + "   -> "@ + ble::date_text(date),
        None => Seq::empty(),
    }
}

/// Whatever the advertisement parsers can make of a payload, if anything. The prior worth
/// testing is that the vendor characteristics speak the same nine-byte records the
/// advertisement does, so every blob is decoded as one and the log shows where that holds.
pub fn gloss(bytes: &[u8]) -> (out: String)
    ensures
        out@ == gloss_text(bytes@),
{
    let mut out = String::new();
    match ble::parse(bytes) {
        Some(Advert::Timecode(tc)) => {
            out.push_str("   -> ");
            out.push_str(tc.to_string().as_str());
            out.push_str("  ");
            text::put_decimal(&mut out, tc.rate.fps as u128);
            out.push_str("fps +");
            text::put_decimal(&mut out, tc.subframe.as_micros());
            out.push_str("µs");
        },
        Some(Advert::Date(date)) => {
            out.push_str("   -> ");
            out.push_str(date.to_string().as_str());
        },
        None => {
            assert(out@ =~= Seq::empty());
        },
    }
    out
}

/// The timecode an advertisement event carries, if it carries one.
pub fn advert_timecode(event: &CentralEvent) -> (tc: Option<Timecode>)
    ensures
        tc == crate::tentacle::timecode_of(*event),
{
    match event {
        CentralEvent::ServiceDataAdvertisement { service_data, .. } => {
            let service: u128 = uuids::uuid_from_u16(ble::SERVICE_UUID_16);
            match service_data.get(&service) {
                Some(data) => match ble::parse(data.as_slice()) {
                    Some(Advert::Timecode(tc)) => Some(tc),
                    _ => None,
                },
                None => None,
            }
        },
        _ => None,
    }
}

/// What a manufacturer's record comes to in a log line.
pub open spec fn charge_text(bytes: Seq<u8>) -> Seq<char> {
    match ble::status_in(bytes) {
        Some(s) => Seq::<char>::empty() + "   -> "@ + text::decimal(s.battery_percent as nat) + "%"@
            + if s.charging {
            " charging"@
        } else {
            ""@
        },
        None => Seq::empty(),
    }
}

/// An advertisement of the Tentacle's, as a log line; nothing for any other event.
pub open spec fn advert_text(event: CentralEvent) -> Option<Seq<char>> {
    match event {
        CentralEvent::ServiceDataAdvertisement { service_data, .. } => if service_data@.dom()
            .contains(scan::tentacle_service()) {
            let data = service_data@[scan::tentacle_service()]@;
            Some(Seq::<char>::empty() + "ADV svc  "@ + text::hex_spaced(data) + gloss_text(data))
        } else {
            None
        },
        CentralEvent::ManufacturerDataAdvertisement { manufacturer_data, .. } =>
            if manufacturer_data@.dom().contains(ble::COMPANY_ID) {
            let data = manufacturer_data@[ble::COMPANY_ID]@;
            Some(Seq::<char>::empty() + "ADV mfg  "@ + text::hex_spaced(data) + charge_text(data))
        } else {
            None
        },
        _ => None,
    }
}

/// A service-data or manufacturer advertisement of the Tentacle's, as a log line.
pub fn advert_line(event: &CentralEvent) -> (line: Option<String>)
    ensures
        match (line, advert_text(*event)) {
            (Some(line), Some(text)) => line@ == text,
            (None, None) => true,
            _ => false,
        },
{
    match event {
        CentralEvent::ServiceDataAdvertisement { service_data, .. } => {
            let service: u128 = uuids::uuid_from_u16(ble::SERVICE_UUID_16);
            let data = match service_data.get(&service) {
                Some(data) => data,
                None => {
                    return None;
                },
            };
            let mut out = String::new();
            out.push_str("ADV svc  ");
            out.push_str(text::hex(data.as_slice()).as_str());
            out.push_str(gloss(data.as_slice()).as_str());
            Some(out)
        },
        CentralEvent::ManufacturerDataAdvertisement { manufacturer_data, .. } => {
            let data = match manufacturer_data.get(&ble::COMPANY_ID) {
                Some(data) => data,
                None => {
                    return None;
                },
            };
            let mut charge = String::new();
            if let Some(s) = ble::parse_manufacturer(data.as_slice()) {
                charge.push_str("   -> ");
                text::put_decimal(&mut charge, s.battery_percent as u128);
                charge.push_str("%");
                charge.push_str(
                    if s.charging {
                        " charging"
                    } else {
                        ""
                    },
                );
            }
            assert(charge@ =~= charge_text(data@));
            let mut out = String::new();
            out.push_str("ADV mfg  ");
            out.push_str(text::hex(data.as_slice()).as_str());
            out.push_str(charge.as_str());
            Some(out)
        },
        _ => None,
    }
}

/// Digests by characteristic, in the order of the characteristics.
#[derive(Debug)]
pub struct Digests {
    pub entries: Vec<(u128, Digest)>,
}

/// Digests, as what they hold.
pub open spec fn entries_of(entries: Seq<(u128, Digest)>) -> Seq<(u128, DigestView)> {
    entries.map_values(|entry: (u128, Digest)| (entry.0, entry.1@))
}

impl View for Digests {
    type V = Seq<(u128, DigestView)>;

    open spec fn view(&self) -> Seq<(u128, DigestView)> {
        entries_of(self.entries@)
    }
}

impl Default for Digests {
    fn default() -> (digests: Digests)
        ensures
            digests@ == Seq::<(u128, DigestView)>::empty(),
    {
        let digests = Digests { entries: Vec::new() };
        assert(digests@ =~= Seq::empty());
        digests
    }
}

/// Digests with one more payload in the one of a characteristic, which is put in its place
/// if it is new.
pub open spec fn noted(
    entries: Seq<(u128, DigestView)>,
    uuid: u128,
    value: Seq<u8>,
) -> Seq<(u128, DigestView)>
    decreases entries.len(),
{
    if entries.len() == 0 || uuid < entries[0].0 {
        seq![(uuid, digest::added(digest::nothing(), value))] + entries
    } else if uuid == entries[0].0 {
        entries.update(0, (uuid, digest::added(entries[0].1, value)))
    } else {
        seq![entries[0]] + noted(entries.drop_first(), uuid, value)
    }
}

/// The digest of a characteristic, if there is one.
pub open spec fn digest_for(entries: Seq<(u128, DigestView)>, uuid: u128) -> Option<DigestView>
    decreases entries.len(),
{
    if entries.len() == 0 {
        None
    } else if entries[0].0 == uuid {
        Some(entries[0].1)
    } else {
        digest_for(entries.drop_first(), uuid)
    }
}

impl Digests {
    /// Takes in one more payload of a characteristic.
    pub fn add(&mut self, uuid: u128, value: &[u8])
        ensures
            final(self)@ == noted(old(self)@, uuid, value@),
    {
        let ghost before = self@;
        let mut at: usize = 0;
        assert(before.take(0) + noted(before.skip(0), uuid, value@) =~= noted(before, uuid, value@))
            by {
            assert(before.skip(0) =~= before);
        }
        while at < self.entries.len() && self.entries[at].0 < uuid
            invariant
                at <= self.entries@.len(),
                before == self@,
                noted(before, uuid, value@) == before.take(at as int) + noted(
                    before.skip(at as int),
                    uuid,
                    value@,
                ),
            decreases self.entries@.len() - at,
        {
            proof {
                let rest = before.skip(at as int);
                assert(rest[0] == before[at as int]);
                assert(rest[0].0 == self.entries@[at as int].0);
                assert(rest.drop_first() =~= before.skip(at + 1));
                assert(before.take(at as int) + (seq![rest[0]] + noted(
                    rest.drop_first(),
                    uuid,
                    value@,
                )) =~= before.take(at + 1) + noted(before.skip(at + 1), uuid, value@));
            }
            at = at + 1;
        }
        let ghost rest = before.skip(at as int);
        if at < self.entries.len() && self.entries[at].0 == uuid {
            assert(rest[0] == before[at as int]);
            self.entries[at].1.add(value);
            assert(self@ =~= before.take(at as int) + noted(rest, uuid, value@));
        } else {
            let mut fresh = Digest::default();
            fresh.add(value);
            proof {
                if rest.len() > 0 {
                    assert(rest[0] == before[at as int]);
                    assert(rest[0].0 == self.entries@[at as int].0);
                }
            }
            self.entries.insert(at, (uuid, fresh));
            assert(self@ =~= before.take(at as int) + noted(rest, uuid, value@));
        }
    }

    /// The digest of a characteristic, if anything has come from it.
    pub fn get(&self, uuid: u128) -> (found: Option<&Digest>)
        ensures
            match (found, digest_for(self@, uuid)) {
                (Some(d), Some(held)) => d@ == held,
                (None, None) => true,
                _ => false,
            },
    {
        let mut i: usize = 0;
        assert(self@.skip(0) =~= self@);
        while i < self.entries.len()
            invariant
                i <= self.entries@.len(),
                digest_for(self@, uuid) == digest_for(self@.skip(i as int), uuid),
            decreases self.entries@.len() - i,
        {
            assert(self@.skip(i as int)[0] == self@[i as int]);
            assert(self@.skip(i as int).drop_first() =~= self@.skip(i + 1));
            if self.entries[i].0 == uuid {
                return Some(&self.entries[i].1);
            }
            i = i + 1;
        }
        None
    }
}

/// Everything one run of the tool saw, across however many connections it took.
#[derive(Debug)]
pub struct Run {
    pub sessions: usize,
    /// How long each connection survived, in the order they happened.
    pub lives: Vec<Duration>,
    /// What arrived unprompted, by characteristic.
    pub digests: Digests,
    /// What reads returned, by characteristic.
    pub polls: Digests,
    /// The last value logged for a characteristic, so only changes get a line.
    pub last: HashMap<u128, Vec<u8>>,
    /// Advertisements seen from the target while connected, if scanning.
    pub adverts: usize,
    /// Where phase samples go, if that was asked for.
    pub phase: Option<Phase>,
}

/// What a run saw, as sequences and maps.
pub struct RunView {
    pub sessions: usize,
    pub lives: Seq<Duration>,
    pub digests: Seq<(u128, DigestView)>,
    pub polls: Seq<(u128, DigestView)>,
    pub last: Map<u128, Seq<u8>>,
    pub adverts: usize,
    pub phase: Option<PhaseView>,
}

impl View for Run {
    type V = RunView;

    open spec fn view(&self) -> RunView {
        RunView {
            sessions: self.sessions,
            lives: self.lives@,
            digests: self.digests@,
            polls: self.polls@,
            last: dump::last_seen(self.last@),
            adverts: self.adverts,
            phase: phase::phase_of(self.phase),
        }
    }
}

impl Default for Run {
    fn default() -> (run: Run)
        ensures
            run@ == (RunView {
                sessions: 0,
                lives: Seq::empty(),
                digests: Seq::empty(),
                polls: Seq::empty(),
                last: Map::empty(),
                adverts: 0,
                phase: None,
            }),
    {
        let run = Run {
            sessions: 0,
            lives: Vec::new(),
            digests: Digests::default(),
            polls: Digests::default(),
            last: HashMap::new(),
            adverts: 0,
            phase: None,
        };
        assert(run@.last =~= Map::empty());
        assert(run@.lives =~= Seq::empty());
        run
    }
}

/// A log line for a payload.
pub open spec fn log_text(elapsed: nat, what: Seq<char>, uuid: u128, bytes: Seq<u8>) -> Seq<char> {
    Seq::<char>::empty() + dump::stamp_text(elapsed) + what + " "@ + uuids::digits(uuid, 0, 8)
        + "  "@ + text::hex_spaced(bytes) + gloss_text(bytes) + "\n"@
}

/// A log line for a payload.
pub fn log_line(elapsed: Duration, what: &str, uuid: u128, bytes: &[u8]) -> (out: String)
    ensures
        out@ == log_text(elapsed@, what@, uuid, bytes@),
{
    let mut out = String::new();
    dump::put_stamp(&mut out, elapsed);
    out.push_str(what);
    out.push_str(" ");
    out.push_str(uuids::tail(uuid).as_str());
    out.push_str("  ");
    out.push_str(text::hex(bytes).as_str());
    out.push_str(gloss(bytes).as_str());
    out.push_str("\n");
    out
}

/// Whether a read is the one last logged.
pub open spec fn is_old_news(run: RunView, uuid: u128, bytes: Seq<u8>) -> bool {
    dump::previous_of(run.last, uuid) == Some(bytes)
}

impl Run {
    /// Logs a read, but only when it differs from the last one logged. A characteristic
    /// read every few seconds for a minute would otherwise fill the log with the news that
    /// it hasn't changed, burying the ones that have.
    pub fn note(&mut self, uuid: u128, bytes: &[u8], elapsed: Duration, what: &str) -> (out:
        Option<String>)
        ensures
            if is_old_news(old(self)@, uuid, bytes@) {
                out is None && final(self)@ == old(self)@
            } else {
                out matches Some(line) && line@ == log_text(elapsed@, what@, uuid, bytes@)
                    && final(self)@ == (RunView {
                    last: old(self)@.last.insert(uuid, bytes@),
                    ..old(self)@
                })
            },
    {
        let known: bool = match self.last.get(&uuid) {
            Some(previous) => text::same_bytes(previous.as_slice(), bytes),
            None => false,
        };
        assert(known == is_old_news(self@, uuid, bytes@));
        if known {
            return None;
        }
        let line = log_line(elapsed, what, uuid, bytes);
        let ghost before = self.last@;
        let copy = vstd::slice::slice_to_vec(bytes);
        assert(dump::last_seen(before.insert(uuid, copy)) =~= dump::last_seen(before).insert(
            uuid,
            bytes@,
        ));
        self.last.insert(uuid, copy);
        Some(line)
    }
}

/// Two ascending lists as one, what is in both once.
pub open spec fn merged(a: Seq<(u128, DigestView)>, b: Seq<(u128, DigestView)>) -> Seq<u128>
    decreases a.len() + b.len(),
{
    if a.len() == 0 && b.len() == 0 {
        Seq::empty()
    } else if b.len() == 0 || (a.len() > 0 && a[0].0 < b[0].0) {
        seq![a[0].0] + merged(a.drop_first(), b)
    } else if a.len() == 0 || b[0].0 < a[0].0 {
        seq![b[0].0] + merged(a, b.drop_first())
    } else {
        seq![a[0].0] + merged(a.drop_first(), b.drop_first())
    }
}

/// The characteristics that anything came from, in order.
pub(crate) fn characteristics(a: &Digests, b: &Digests) -> (out: Vec<u128>)
    ensures
        out@ == merged(a@, b@),
{
    let mut out: Vec<u128> = Vec::new();
    let mut i: usize = 0;
    let mut j: usize = 0;
    assert(a@.skip(0) =~= a@ && b@.skip(0) =~= b@);
    assert(out@ + merged(a@, b@) =~= merged(a@, b@));
    while i < a.entries.len() || j < b.entries.len()
        invariant
            i <= a.entries@.len(),
            j <= b.entries@.len(),
            out@ + merged(a@.skip(i as int), b@.skip(j as int)) == merged(a@, b@),
        decreases a.entries@.len() - i + b.entries@.len() - j,
    {
        let ghost x = a@.skip(i as int);
        let ghost y = b@.skip(j as int);
        let ghost before = out@;
        proof {
            if x.len() > 0 {
                assert(x[0] == a@[i as int]);
                assert(x[0].0 == a.entries@[i as int].0);
                assert(x.drop_first() =~= a@.skip(i + 1));
            }
            if y.len() > 0 {
                assert(y[0] == b@[j as int]);
                assert(y[0].0 == b.entries@[j as int].0);
                assert(y.drop_first() =~= b@.skip(j + 1));
            }
        }
        if j >= b.entries.len() || (i < a.entries.len() && a.entries[i].0 < b.entries[j].0) {
            out.push(a.entries[i].0);
            assert(out@ + merged(x.drop_first(), y) =~= before + (seq![x[0].0] + merged(
                x.drop_first(),
                y,
            )));
            i = i + 1;
        } else if i >= a.entries.len() || b.entries[j].0 < a.entries[i].0 {
            out.push(b.entries[j].0);
            assert(out@ + merged(x, y.drop_first()) =~= before + (seq![y[0].0] + merged(
                x,
                y.drop_first(),
            )));
            j = j + 1;
        } else {
            out.push(a.entries[i].0);
            assert(out@ + merged(x.drop_first(), y.drop_first()) =~= before + (seq![x[0].0]
                + merged(x.drop_first(), y.drop_first())));
            i = i + 1;
            j = j + 1;
        }
    }
    assert(merged(a@.skip(i as int), b@.skip(j as int)) =~= Seq::empty());
    assert(out@ =~= merged(a@, b@));
    out
}

/// Characteristics are in order, none twice.
pub open spec fn ascending(entries: Seq<(u128, DigestView)>) -> bool {
    forall|i: int, j: int|
        0 <= i < j < entries.len() ==> (#[trigger] entries[i]).0 < (#[trigger] entries[j]).0
}

/// A payload goes to the digest of its own characteristic and to no other, and the
/// characteristics stay in order.
pub proof fn a_payload_goes_to_its_own_digest(
    entries: Seq<(u128, DigestView)>,
    uuid: u128,
    value: Seq<u8>,
    other: u128,
)
    requires
        ascending(entries),
    ensures
        ascending(noted(entries, uuid, value)),
        digest_for(noted(entries, uuid, value), uuid) == Some(
            digest::added(
                match digest_for(entries, uuid) {
                    Some(d) => d,
                    None => digest::nothing(),
                },
                value,
            ),
        ),
        other != uuid ==> digest_for(noted(entries, uuid, value), other) == digest_for(
            entries,
            other,
        ),
    decreases entries.len(),
{
    let out = noted(entries, uuid, value);
    let fresh = (uuid, digest::added(digest::nothing(), value));
    if entries.len() == 0 || uuid < entries[0].0 {
        assert(out.drop_first() =~= entries);
        lemma_absent_below(entries, uuid);
        assert forall|i: int, j: int| 0 <= i < j < out.len() implies (#[trigger] out[i]).0 < (
        #[trigger] out[j]).0 by {
            assert(out[j] == entries[j - 1]);
            if i > 0 {
                assert(out[i] == entries[i - 1]);
            } else if j > 1 {
                assert(entries[0].0 < entries[j - 1].0);
            }
        }
    } else if uuid == entries[0].0 {
        assert(out.drop_first() =~= entries.drop_first());
        assert forall|i: int, j: int| 0 <= i < j < out.len() implies (#[trigger] out[i]).0 < (
        #[trigger] out[j]).0 by {
            assert(entries[i].0 < entries[j].0);
        }
    } else {
        let rest = entries.drop_first();
        assert(ascending(rest)) by {
            assert forall|i: int, j: int| 0 <= i < j < rest.len() implies (#[trigger] rest[i]).0 < (
            #[trigger] rest[j]).0 by {
                assert(entries[i + 1].0 < entries[j + 1].0);
            }
        }
        a_payload_goes_to_its_own_digest(rest, uuid, value, other);
        let tail = noted(rest, uuid, value);
        assert(out.drop_first() =~= tail);
        lemma_noted_bound(rest, uuid, value, entries[0].0);
        assert forall|i: int, j: int| 0 <= i < j < out.len() implies (#[trigger] out[i]).0 < (
        #[trigger] out[j]).0 by {
            assert(out[j] == tail[j - 1]);
            if i > 0 {
                assert(out[i] == tail[i - 1]);
            }
        }
    }
}

proof fn lemma_absent_below(entries: Seq<(u128, DigestView)>, uuid: u128)
    requires
        ascending(entries),
        entries.len() > 0 ==> uuid < entries[0].0,
    ensures
        digest_for(entries, uuid) is None,
    decreases entries.len(),
{
    if entries.len() > 0 {
        let rest = entries.drop_first();
        assert(ascending(rest)) by {
            assert forall|i: int, j: int| 0 <= i < j < rest.len() implies (#[trigger] rest[i]).0 < (
            #[trigger] rest[j]).0 by {
                assert(entries[i + 1].0 < entries[j + 1].0);
            }
        }
        if rest.len() > 0 {
            assert(entries[0].0 < entries[1].0);
        }
        lemma_absent_below(rest, uuid);
    }
}

proof fn lemma_noted_bound(
    entries: Seq<(u128, DigestView)>,
    uuid: u128,
    value: Seq<u8>,
    floor: u128,
)
    requires
        floor < uuid,
        forall|i: int| 0 <= i < entries.len() ==> floor < (#[trigger] entries[i]).0,
    ensures
        forall|i: int|
            0 <= i < noted(entries, uuid, value).len() ==> floor < (#[trigger] noted(
                entries,
                uuid,
                value,
            )[i]).0,
    decreases entries.len(),
{
    let out = noted(entries, uuid, value);
    if entries.len() == 0 || uuid < entries[0].0 {
        assert forall|i: int| 0 <= i < out.len() implies floor < (#[trigger] out[i]).0 by {
            if i > 0 {
                assert(out[i] == entries[i - 1]);
            }
        }
    } else if uuid == entries[0].0 {
        assert forall|i: int| 0 <= i < out.len() implies floor < (#[trigger] out[i]).0 by {
            assert(out[i].0 == entries[i].0);
        }
    } else {
        let rest = entries.drop_first();
        assert forall|i: int| 0 <= i < rest.len() implies floor < (#[trigger] rest[i]).0 by {
            assert(rest[i] == entries[i + 1]);
        }
        lemma_noted_bound(rest, uuid, value, floor);
        let tail = noted(rest, uuid, value);
        assert forall|i: int| 0 <= i < out.len() implies floor < (#[trigger] out[i]).0 by {
            if i > 0 {
                assert(out[i] == tail[i - 1]);
            } else {
                assert(out[0] == entries[0]);
            }
        }
    }
}

/// The summary leaves no characteristic out: whatever was read or pushed is among those it
/// goes through, and nothing else is.
pub proof fn every_characteristic_is_reported(
    a: Seq<(u128, DigestView)>,
    b: Seq<(u128, DigestView)>,
    uuid: u128,
)
    ensures
        merged(a, b).contains(uuid) <==> digest_for(a, uuid) is Some || digest_for(b, uuid) is Some,
    decreases a.len() + b.len(),
{
    if a.len() == 0 && b.len() == 0 {
    } else if b.len() == 0 || (a.len() > 0 && a[0].0 < b[0].0) {
        every_characteristic_is_reported(a.drop_first(), b, uuid);
        lemma_contains_front(a[0].0, merged(a.drop_first(), b), uuid);
    } else if a.len() == 0 || b[0].0 < a[0].0 {
        every_characteristic_is_reported(a, b.drop_first(), uuid);
        lemma_contains_front(b[0].0, merged(a, b.drop_first()), uuid);
    } else {
        every_characteristic_is_reported(a.drop_first(), b.drop_first(), uuid);
        lemma_contains_front(a[0].0, merged(a.drop_first(), b.drop_first()), uuid);
    }
}

proof fn lemma_contains_front(first: u128, rest: Seq<u128>, uuid: u128)
    ensures
        (seq![first] + rest).contains(uuid) <==> first == uuid || rest.contains(uuid),
{
    let all = seq![first] + rest;
    if first == uuid {
        assert(all[0] == uuid);
    }
    if rest.contains(uuid) {
        let k = choose|k: int| 0 <= k < rest.len() && rest[k] == uuid;
        assert(all[k + 1] == uuid);
    }
    if all.contains(uuid) {
        let k = choose|k: int| 0 <= k < all.len() && all[k] == uuid;
        if k > 0 {
            assert(rest[k - 1] == uuid);
        }
    }
}

} // verus!
