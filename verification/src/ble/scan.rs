//! Watching for Tentacles over the air.
//!
//! [`ble`](crate::ble) turns bytes into readings; this turns what an adapter reports into
//! a [`Device`] per box and a queue of [`Event`]s, so several in range don't have to be
//! untangled by the caller. Whoever owns the adapter hands in each [`CentralEvent`] as it
//! comes off the stream, with what a properties lookup said of the device and the time at
//! which the event arrived.
//!
//! A peripheral is known by what the platform calls it, as text.

use std::collections::{HashMap, VecDeque};

use vstd::prelude::*;

use crate::ble::diagnostics::{self, Census, Counts, Diagnosis};
use crate::ble::{self, uuids, Advert, Date, Status};
use crate::freerun::{self, FreeRun, Reading};
use crate::text;
use crate::time::{Duration, Instant};
use crate::timecode::Timecode;

pub mod laws;

verus! {

broadcast use vstd::std_specs::hash::group_hash_axioms;

/// How often to look for a device that's gone quiet, in milliseconds.
///
/// [`Event::Lost`] is the absence of an advertisement, so nothing else would raise it.
pub const HOLDOVER_TICK_MILLIS: u64 = 200;

/// What the adapter reports.
#[derive(Debug)]
pub enum CentralEvent {
    DeviceDiscovered(String),
    DeviceUpdated(String),
    DeviceConnected(String),
    DeviceDisconnected(String),
    DeviceServicesModified(String),
    ManufacturerDataAdvertisement { id: String, manufacturer_data: HashMap<u16, Vec<u8>> },
    ServiceDataAdvertisement { id: String, service_data: HashMap<u128, Vec<u8>> },
    ServicesAdvertisement { id: String, services: Vec<u128> },
    RssiUpdate { id: String, rssi: i16 },
    StateUpdate,
}

/// What a properties lookup answers.
#[derive(Debug)]
pub struct Properties {
    pub local_name: Option<String>,
    pub advertisement_name: Option<String>,
    pub rssi: Option<i16>,
}

/// Advertisement data as it arrived, before anything interpreted it.
#[derive(Clone, Debug, PartialEq, Eq)]
#[non_exhaustive]
pub enum Advertisement {
    /// Manufacturer data, keyed by Bluetooth SIG company identifier. The Tentacle's is
    /// [`COMPANY_ID`](crate::ble::COMPANY_ID).
    Manufacturer(HashMap<u16, Vec<u8>>),
    /// Service data, keyed by UUID. The Tentacle's is
    /// [`SERVICE_UUID_16`](crate::ble::SERVICE_UUID_16), as a 128-bit UUID.
    Service(HashMap<u128, Vec<u8>>),
}

/// Something the scanner took in.
///
/// A single advertisement can produce two of these: whatever it decoded to, and the
/// [`Event::Advertised`] carrying the bytes it arrived as.
#[derive(Clone, Debug)]
#[non_exhaustive]
pub enum Event {
    /// First sight of a peripheral, Tentacle or not.
    Discovered { id: String },
    /// Timecode arrived, and has already gone to this device's clock.
    Timecode {
        id: String,
        timecode: Timecode,
        /// When the advertisement came off the stream.
        at: Instant,
    },
    /// The date the device is set to.
    Date { id: String, date: Date },
    /// The manufacturer record: remaining charge, and whether it's on a cable.
    Battery { id: String, status: Status },
    /// A signal-strength update, as reported by the platform.
    Rssi { id: String, rssi: i16 },
    /// An advertisement under the Tentacle's service that didn't decode. A Tentacle whose
    /// wire format has moved is otherwise indistinguishable from no Tentacle at all.
    Unreadable { id: String, payload: Vec<u8> },
    /// The advertisement as it arrived, decoded or not, ours or not.
    Advertised { id: String, data: Advertisement, at: Instant },
    /// This device's clock has gone without an anchor for so long that extrapolation has
    /// stopped. Raised once per silence, not per tick.
    Lost {
        id: String,
        /// The last timecode actually received.
        last: Timecode,
        since: Duration,
    },
}

/// Advertisement data, as a map.
pub enum AdvertisementView {
    Manufacturer(Map<u16, Vec<u8>>),
    Service(Map<u128, Vec<u8>>),
}

impl View for Advertisement {
    type V = AdvertisementView;

    open spec fn view(&self) -> AdvertisementView {
        match *self {
            Advertisement::Manufacturer(records) => AdvertisementView::Manufacturer(records@),
            Advertisement::Service(records) => AdvertisementView::Service(records@),
        }
    }
}

/// An event, as texts and bytes.
pub enum EventView {
    Discovered { id: Seq<char> },
    Timecode { id: Seq<char>, timecode: Timecode, at: Instant },
    Date { id: Seq<char>, date: Date },
    Battery { id: Seq<char>, status: Status },
    Rssi { id: Seq<char>, rssi: i16 },
    Unreadable { id: Seq<char>, payload: Seq<u8> },
    Advertised { id: Seq<char>, data: AdvertisementView, at: Instant },
    Lost { id: Seq<char>, last: Timecode, since: Duration },
}

impl EventView {
    /// Which device it concerns.
    pub open spec fn id(self) -> Seq<char> {
        match self {
            EventView::Discovered { id } => id,
            EventView::Timecode { id, .. } => id,
            EventView::Date { id, .. } => id,
            EventView::Battery { id, .. } => id,
            EventView::Rssi { id, .. } => id,
            EventView::Unreadable { id, .. } => id,
            EventView::Advertised { id, .. } => id,
            EventView::Lost { id, .. } => id,
        }
    }
}

impl View for Event {
    type V = EventView;

    open spec fn view(&self) -> EventView {
        match *self {
            Event::Discovered { id } => EventView::Discovered { id: id@ },
            Event::Timecode { id, timecode, at } => EventView::Timecode { id: id@, timecode, at },
            Event::Date { id, date } => EventView::Date { id: id@, date },
            Event::Battery { id, status } => EventView::Battery { id: id@, status },
            Event::Rssi { id, rssi } => EventView::Rssi { id: id@, rssi },
            Event::Unreadable { id, payload } => EventView::Unreadable {
                id: id@,
                payload: payload@,
            },
            Event::Advertised { id, data, at } => EventView::Advertised { id: id@, data: data@, at },
            Event::Lost { id, last, since } => EventView::Lost { id: id@, last, since },
        }
    }
}

impl Event {
    /// Which device this concerns.
    pub fn id(&self) -> (id: &String)
        ensures
            id@ == self@.id(),
    {
        match self {
            Event::Discovered { id } => id,
            Event::Timecode { id, .. } => id,
            Event::Date { id, .. } => id,
            Event::Battery { id, .. } => id,
            Event::Rssi { id, .. } => id,
            Event::Unreadable { id, .. } => id,
            Event::Advertised { id, .. } => id,
            Event::Lost { id, .. } => id,
        }
    }
}

/// Which peripheral an adapter's event is about, where it is about one being heard from.
pub open spec fn heard_from(event: CentralEvent) -> Option<Seq<char>> {
    match event {
        CentralEvent::DeviceDiscovered(id) => Some(id@),
        CentralEvent::DeviceUpdated(id) => Some(id@),
        CentralEvent::ManufacturerDataAdvertisement { id, .. } => Some(id@),
        CentralEvent::ServiceDataAdvertisement { id, .. } => Some(id@),
        CentralEvent::ServicesAdvertisement { id, .. } => Some(id@),
        CentralEvent::RssiUpdate { id, .. } => Some(id@),
        _ => None,
    }
}

/// The peripheral that an event says has been heard from. Connections and the adapter's
/// own state are not that.
pub fn event_peripheral(event: &CentralEvent) -> (id: Option<&String>)
    ensures
        match id {
            Some(id) => heard_from(*event) == Some(id@),
            None => heard_from(*event) is None,
        },
{
    match event {
        CentralEvent::DeviceDiscovered(id) => Some(id),
        CentralEvent::DeviceUpdated(id) => Some(id),
        CentralEvent::ManufacturerDataAdvertisement { id, .. } => Some(id),
        CentralEvent::ServiceDataAdvertisement { id, .. } => Some(id),
        CentralEvent::ServicesAdvertisement { id, .. } => Some(id),
        CentralEvent::RssiUpdate { id, .. } => Some(id),
        _ => None,
    }
}

/// One Tentacle, or one peripheral that might turn out to be something else.
///
/// A scan sees every advertiser in the room, so most of these never send timecode.
/// [`Device::reading`] answering `None` is what tells them apart.
#[derive(Debug)]
pub struct Device {
    id: String,
    name: Option<String>,
    rssi: Option<i16>,
    date: Option<Date>,
    battery: Option<Status>,
    clock: FreeRun,
    first_timecode: Option<Instant>,
    lost_reported: bool,
    adverts: u64,
    fdac: u64,
    unparsed: u64,
    unparsed_sample: Option<Vec<u8>>,
}

/// What is known of one device.
pub struct DeviceView {
    pub id: Seq<char>,
    pub name: Option<Seq<char>>,
    pub rssi: Option<i16>,
    pub date: Option<Date>,
    pub battery: Option<Status>,
    pub clock: Option<freerun::State>,
    pub first_timecode: Option<Instant>,
    /// Whether this device's current silence has already been reported, so one dropout
    /// raises one [`Event::Lost`] rather than five a second.
    pub lost_reported: bool,
    pub adverts: u64,
    /// Payloads received under the Tentacle's service UUID.
    pub payloads: u64,
    pub unparsed: u64,
    pub unparsed_sample: Option<Seq<u8>>,
}

/// A text that may be absent.
pub open spec fn text_of(text: Option<String>) -> Option<Seq<char>> {
    match text {
        Some(text) => Some(text@),
        None => None,
    }
}

/// Bytes that may be absent.
pub open spec fn bytes_of(bytes: Option<Vec<u8>>) -> Option<Seq<u8>> {
    match bytes {
        Some(bytes) => Some(bytes@),
        None => None,
    }
}

impl View for Device {
    type V = DeviceView;

    closed spec fn view(&self) -> DeviceView {
        DeviceView {
            id: self.id@,
            name: text_of(self.name),
            rssi: self.rssi,
            date: self.date,
            battery: self.battery,
            clock: self.clock@,
            first_timecode: self.first_timecode,
            lost_reported: self.lost_reported,
            adverts: self.adverts,
            payloads: self.fdac,
            unparsed: self.unparsed,
            unparsed_sample: bytes_of(self.unparsed_sample),
        }
    }
}

/// A device of which nothing is known yet.
pub open spec fn new_device(id: Seq<char>) -> DeviceView {
    DeviceView {
        id,
        name: None,
        rssi: None,
        date: None,
        battery: None,
        clock: None,
        first_timecode: None,
        lost_reported: false,
        adverts: 0,
        payloads: 0,
        unparsed: 0,
        unparsed_sample: None,
    }
}

/// A counter after one more; one that is full stays full.
pub open spec fn counted(n: u64) -> u64 {
    if n == u64::MAX {
        n
    } else {
        (n + 1) as u64
    }
}

/// A device once a properties lookup has answered. The name is only taken once, since a
/// later lookup answering `None` shouldn't unname a device that has one; of the signal
/// strength the last good reading is kept.
pub open spec fn refreshed(d: DeviceView, answer: Option<Properties>) -> DeviceView {
    match answer {
        None => d,
        Some(p) => DeviceView {
            name: if d.name is Some {
                d.name
            } else if p.local_name is Some {
                text_of(p.local_name)
            } else {
                text_of(p.advertisement_name)
            },
            rssi: if p.rssi is Some {
                p.rssi
            } else {
                d.rssi
            },
            ..d
        },
    }
}

/// Whether a device's name answers the filter. An unnamed device can't match a name.
pub open spec fn answers(d: DeviceView, filter: Option<Seq<char>>) -> bool {
    match filter {
        None => true,
        Some(want) => match d.name {
            None => false,
            Some(name) => text::holds_text(text::lowercase(name), want),
        },
    }
}

/// A device once a payload under the Tentacle's service has come from it.
pub open spec fn with_payload(d: DeviceView, payload: Seq<u8>, at: Instant) -> DeviceView {
    let d = DeviceView { payloads: counted(d.payloads), ..d };
    match ble::advert_in(payload) {
        None => DeviceView {
            unparsed: counted(d.unparsed),
            unparsed_sample: Some(payload),
            ..d
        },
        Some(Advert::Date(date)) => DeviceView { date: Some(date), ..d },
        Some(Advert::Timecode(tc)) => DeviceView {
            first_timecode: if d.first_timecode is Some {
                d.first_timecode
            } else {
                Some(at)
            },
            lost_reported: false,
            clock: Some(freerun::after_anchor(d.clock, tc, at)),
            ..d
        },
    }
}

/// What is raised for one.
pub open spec fn payload_event(id: Seq<char>, payload: Seq<u8>, at: Instant) -> EventView {
    match ble::advert_in(payload) {
        None => EventView::Unreadable { id, payload },
        Some(Advert::Date(date)) => EventView::Date { id, date },
        Some(Advert::Timecode(timecode)) => EventView::Timecode { id, timecode, at },
    }
}

impl Device {
    fn new(id: String) -> (d: Device)
        ensures
            d@ == new_device(id@),
    {
        Device {
            id,
            name: None,
            rssi: None,
            date: None,
            battery: None,
            clock: FreeRun::default(),
            first_timecode: None,
            lost_reported: false,
            adverts: 0,
            fdac: 0,
            unparsed: 0,
            unparsed_sample: None,
        }
    }

    /// Takes in what the platform knows about the device.
    fn refresh(&mut self, answer: Option<Properties>)
        ensures
            final(self)@ == refreshed(old(self)@, answer),
    {
        if let Some(properties) = answer {
            if self.name.is_none() {
                self.name =
                match properties.local_name {
                    Some(name) => Some(name),
                    None => properties.advertisement_name,
                };
            }
            if properties.rssi.is_some() {
                self.rssi = properties.rssi;
            }
        }
    }

    /// Whether this device is one that a lower-cased filter lets through.
    fn matches(&self, filter: &Option<String>) -> (yes: bool)
        ensures
            yes == answers(self@, text_of(*filter)),
    {
        match filter {
            None => true,
            Some(want) => match &self.name {
                None => false,
                Some(name) => {
                    let lower = text::lower(name.as_str());
                    text::contains(lower.as_str(), want.as_str())
                },
            },
        }
    }

    /// Counts one more report.
    fn count(&mut self)
        ensures
            final(self)@ == (DeviceView { adverts: counted(old(self)@.adverts), ..old(self)@ }),
    {
        self.adverts = self.adverts.saturating_add(1);
    }

    /// Takes in one payload, and says what came of it.
    fn take_in_payload(&mut self, payload: &Vec<u8>, at: Instant) -> (event: Event)
        requires
            at.wf(),
        ensures
            final(self)@ == with_payload(old(self)@, payload@, at),
            event@ == payload_event(old(self)@.id, payload@, at),
    {
        self.fdac = self.fdac.saturating_add(1);
        let id = self.id.clone();
        match ble::parse(payload.as_slice()) {
            None => {
                // Not a reading, but the most useful thing there is to say when no reading
                // ever comes: a Tentacle is right here and it can't be read.
                self.unparsed = self.unparsed.saturating_add(1);
                self.unparsed_sample = Some(vstd::slice::slice_to_vec(payload.as_slice()));
                Event::Unreadable { id, payload: vstd::slice::slice_to_vec(payload.as_slice()) }
            },
            Some(Advert::Date(date)) => {
                self.date = Some(date);
                Event::Date { id, date }
            },
            Some(Advert::Timecode(timecode)) => {
                if self.first_timecode.is_none() {
                    self.first_timecode = Some(at);
                }
                self.lost_reported = false;
                proof {
                    ble::a_parsed_timecode_is_in_range(payload@);
                }
                self.clock.anchor(&timecode, at);
                Event::Timecode { id, timecode, at }
            },
        }
    }

    /// Looks whether this device's clock has stopped since the last look.
    fn look(&mut self, now: Instant) -> (event: Option<Event>)
        requires
            now.wf(),
        ensures
            final(self)@ == looked_at(old(self)@, now),
            match event {
                Some(event) => silence_of(old(self)@, now) == Some(event@),
                None => silence_of(old(self)@, now) is None,
            },
    {
        if self.lost_reported {
            return None;
        }
        match self.clock.sample(now) {
            Some(Reading::Lost { last, since }) => {
                self.lost_reported = true;
                Some(Event::Lost { id: self.id.clone(), last, since })
            },
            _ => None,
        }
    }

    pub fn id(&self) -> (id: &String)
        ensures
            id@ == self@.id,
    {
        &self.id
    }

    /// The device's advertised name, once a properties lookup has turned one up.
    pub fn name(&self) -> (name: Option<&str>)
        ensures
            match (name, self@.name) {
                (Some(name), Some(held)) => name@ == held,
                (None, None) => true,
                _ => false,
            },
    {
        match &self.name {
            Some(name) => Some(name.as_str()),
            None => None,
        }
    }

    /// Signal strength in dBm, as of the last properties lookup that carried one.
    pub fn rssi(&self) -> (rssi: Option<i16>)
        ensures
            rssi == self@.rssi,
    {
        self.rssi
    }

    /// The date the device is set to, from the last date record.
    pub fn date(&self) -> (date: Option<Date>)
        ensures
            date == self@.date,
    {
        self.date
    }

    /// Charge and charging, from the last manufacturer record.
    pub fn battery(&self) -> (battery: Option<Status>)
        ensures
            battery == self@.battery,
    {
        self.battery
    }

    /// When this device first sent timecode: a stable key to order a display by, since
    /// anything derived from arrival order moves about.
    pub fn first_timecode(&self) -> (first: Option<Instant>)
        ensures
            first == self@.first_timecode,
    {
        self.first_timecode
    }

    /// What this device's clock says now, interpolated between advertisements.
    ///
    /// `None` for a peripheral that has never sent timecode. Takes `&mut self` because
    /// sampling advances the clock's own model.
    pub fn reading(&mut self, now: Instant) -> (reading: Option<Reading>)
        requires
            now.wf(),
        ensures
            reading == freerun::shown(old(self)@.clock, now),
            reading matches Some(Reading::Running(tc)) ==> !tc.rate.drop_frame,
            final(self)@ == (DeviceView {
                clock: freerun::after_sample(old(self)@.clock, now),
                ..old(self)@
            }),
    {
        self.clock.sample(now)
    }

    /// The last timecode actually received, whatever the clock is doing with it.
    pub fn last_received(&self) -> (last: Option<Timecode>)
        ensures
            last == (match self@.clock {
                Some(s) => Some(s.last),
                None => None::<Timecode>,
            }),
    {
        self.clock.last_received()
    }

    /// Advertisements taken in from this device, of any kind.
    pub fn adverts(&self) -> (n: u64)
        ensures
            n == self@.adverts,
    {
        self.adverts
    }

    /// Payloads received under the Tentacle's service UUID.
    pub fn payloads(&self) -> (n: u64)
        ensures
            n == self@.payloads,
    {
        self.fdac
    }

    /// ...of those, how many didn't decode.
    pub fn unparsed(&self) -> (n: u64)
        ensures
            n == self@.unparsed,
    {
        self.unparsed
    }

    /// The last payload that didn't decode.
    pub fn unparsed_sample(&self) -> (sample: Option<&[u8]>)
        ensures
            match (sample, self@.unparsed_sample) {
                (Some(sample), Some(held)) => sample@ == held,
                (None, None) => true,
                _ => false,
            },
    {
        match &self.unparsed_sample {
            Some(sample) => Some(sample.as_slice()),
            None => None,
        }
    }

    /// This device's counters, for a census.
    pub fn counts(&self) -> (counts: Counts<'_>)
        ensures
            are_counts(counts, self@),
    {
        Counts {
            name: self.name(),
            payloads: self.payloads(),
            unparsed: self.unparsed(),
            unparsed_sample: self.unparsed_sample(),
        }
    }
}

/// Counters are those of a device.
pub open spec fn are_counts(counts: Counts, d: DeviceView) -> bool {
    &&& counts.payloads == d.payloads
    &&& counts.unparsed == d.unparsed
    &&& match (counts.name, d.name) {
        (Some(name), Some(held)) => name@ == held,
        (None, None) => true,
        _ => false,
    }
    &&& match (counts.unparsed_sample, d.unparsed_sample) {
        (Some(sample), Some(held)) => sample@ == held,
        (None, None) => true,
        _ => false,
    }
}

/// Configures a [`Scanner`] before it starts.
#[derive(Clone, Debug)]
pub struct Builder {
    pub name: Option<String>,
}

impl Default for Builder {
    fn default() -> (b: Builder)
        ensures
            b.name is None,
    {
        Builder { name: None }
    }
}

impl Builder {
    /// Only take in devices whose name contains `want`, case-insensitively.
    ///
    /// Devices are still discovered and still counted, so that a diagnosis can say "three
    /// in range, none named like that".
    pub fn name(self, want: String) -> (b: Builder)
        ensures
            text_of(b.name) == Some(want@),
    {
        Builder { name: Some(want) }
    }

    /// A scanner that has taken nothing in yet.
    pub fn start(self) -> (scan: Scanner)
        ensures
            scan@ == started(text_of(self.name)),
    {
        // Lower-cased once, since the comparison is case-insensitive and doing it once
        // beats doing it per advertisement.
        let filter: Option<String> = match self.name {
            Some(name) => Some(text::lower(name.as_str())),
            None => None,
        };
        let scan = Scanner { filter, devices: Vec::new(), pending: VecDeque::new() };
        assert(scan@.devices =~= Seq::empty());
        assert(scan@.pending =~= Seq::empty());
        scan
    }
}

/// A running scan: every device seen so far, and what has not been handed out yet.
pub struct Scanner {
    filter: Option<String>,
    devices: Vec<Device>,
    pending: VecDeque<Event>,
}

/// What a scan has taken in.
pub struct ScanView {
    /// What names have to contain, in lower case.
    pub filter: Option<Seq<char>>,
    /// Every device seen so far, in the order they were first noticed.
    pub devices: Seq<DeviceView>,
    /// Events produced but not yet handed out. One report can make two, and one holdover
    /// tick can make several.
    pub pending: Seq<EventView>,
}

impl View for Scanner {
    type V = ScanView;

    closed spec fn view(&self) -> ScanView {
        ScanView {
            filter: text_of(self.filter),
            devices: self.devices@.map_values(|d: Device| d@),
            pending: self.pending@.map_values(|e: Event| e@),
        }
    }
}

/// A scan that has taken nothing in.
pub open spec fn started(name: Option<Seq<char>>) -> ScanView {
    ScanView {
        filter: match name {
            Some(name) => Some(text::lowercase(name)),
            None => None,
        },
        devices: Seq::empty(),
        pending: Seq::empty(),
    }
}

/// Where a device stands among the devices.
pub open spec fn slot_of(devices: Seq<DeviceView>, id: Seq<char>) -> Option<int>
    decreases devices.len(),
{
    if devices.len() == 0 {
        None
    } else if devices.last().id == id {
        Some(devices.len() - 1)
    } else {
        slot_of(devices.drop_last(), id)
    }
}

/// The devices, with one of this name among them.
pub open spec fn ensured(devices: Seq<DeviceView>, id: Seq<char>) -> Seq<DeviceView> {
    if slot_of(devices, id) is Some {
        devices
    } else {
        devices.push(new_device(id))
    }
}

/// The Tentacle's service, as a 128-bit UUID.
pub open spec fn tentacle_service() -> u128 {
    uuids::short_uuid(ble::SERVICE_UUID_16)
}

/// What a manufacturer's record says of the charge, where there is one of the Tentacle's.
pub open spec fn charge_in(records: Map<u16, Vec<u8>>) -> Option<Status> {
    if records.dom().contains(ble::COMPANY_ID) {
        ble::status_in(records[ble::COMPANY_ID]@)
    } else {
        None
    }
}

/// A device after a report that it was heard from, once it is past the filter.
pub open spec fn with_report(d: DeviceView, event: CentralEvent, at: Instant) -> DeviceView {
    let d = DeviceView { adverts: counted(d.adverts), ..d };
    match event {
        CentralEvent::RssiUpdate { rssi, .. } => DeviceView { rssi: Some(rssi), ..d },
        CentralEvent::ManufacturerDataAdvertisement { manufacturer_data, .. } => DeviceView {
            battery: match charge_in(manufacturer_data@) {
                Some(status) => Some(status),
                None => d.battery,
            },
            ..d
        },
        CentralEvent::ServiceDataAdvertisement { service_data, .. } => if service_data@.dom()
            .contains(tentacle_service()) {
            with_payload(d, service_data@[tentacle_service()]@, at)
        } else {
            d
        },
        _ => d,
    }
}

/// What a report raises, besides the discovery of a device first seen.
pub open spec fn report_events(id: Seq<char>, event: CentralEvent, at: Instant) -> Seq<EventView> {
    match event {
        CentralEvent::RssiUpdate { rssi, .. } => seq![EventView::Rssi { id, rssi }],
        CentralEvent::ManufacturerDataAdvertisement { manufacturer_data, .. } => {
            let data = AdvertisementView::Manufacturer(manufacturer_data@);
            match charge_in(manufacturer_data@) {
                Some(status) => seq![
                    EventView::Battery { id, status },
                    EventView::Advertised { id, data, at },
                ],
                None => seq![EventView::Advertised { id, data, at }],
            }
        },
        CentralEvent::ServiceDataAdvertisement { service_data, .. } => {
            let data = AdvertisementView::Service(service_data@);
            if service_data@.dom().contains(tentacle_service()) {
                seq![
                    payload_event(id, service_data@[tentacle_service()]@, at),
                    EventView::Advertised { id, data, at },
                ]
            } else {
                seq![EventView::Advertised { id, data, at }]
            }
        },
        _ => Seq::empty(),
    }
}

/// A scan after one report from the adapter.
///
/// A filtered-out device is still recorded, just not counted, and nothing is raised for
/// one, including its discovery.
pub open spec fn after_report(
    s: ScanView,
    event: CentralEvent,
    answer: Option<Properties>,
    at: Instant,
) -> ScanView {
    match heard_from(event) {
        None => s,
        Some(id) => {
            let fresh = slot_of(s.devices, id) is None;
            let devices = ensured(s.devices, id);
            let slot = slot_of(devices, id)->0;
            let d = refreshed(devices[slot], answer);
            if !answers(d, s.filter) {
                ScanView { devices: devices.update(slot, d), ..s }
            } else {
                ScanView {
                    devices: devices.update(slot, with_report(d, event, at)),
                    pending: (if fresh {
                        s.pending.push(EventView::Discovered { id })
                    } else {
                        s.pending
                    }) + report_events(id, event, at),
                    ..s
                }
            }
        },
    }
}

/// What a look for silence finds of one device.
pub open spec fn silence_of(d: DeviceView, now: Instant) -> Option<EventView> {
    if d.lost_reported {
        None
    } else {
        match freerun::shown(d.clock, now) {
            Some(Reading::Lost { last, since }) => Some(EventView::Lost { id: d.id, last, since }),
            _ => None,
        }
    }
}

/// A device after such a look.
pub open spec fn looked_at(d: DeviceView, now: Instant) -> DeviceView {
    if d.lost_reported {
        d
    } else {
        DeviceView {
            clock: freerun::after_sample(d.clock, now),
            lost_reported: silence_of(d, now) is Some,
            ..d
        }
    }
}

/// What it finds of all of them.
pub open spec fn silences(devices: Seq<DeviceView>, now: Instant) -> Seq<EventView>
    decreases devices.len(),
{
    if devices.len() == 0 {
        Seq::empty()
    } else {
        let before = silences(devices.drop_last(), now);
        match silence_of(devices.last(), now) {
            Some(event) => before.push(event),
            None => before,
        }
    }
}

/// A scan after a look for silence.
pub open spec fn after_sweep(s: ScanView, now: Instant) -> ScanView {
    ScanView {
        devices: s.devices.map_values(|d: DeviceView| looked_at(d, now)),
        pending: s.pending + silences(s.devices, now),
        ..s
    }
}

/// One scan is another but for one device.
pub open spec fn only_changes(before: ScanView, after: ScanView, slot: int, d: DeviceView) -> bool {
    &&& after.filter == before.filter
    &&& after.pending == before.pending
    &&& after.devices.len() == before.devices.len()
    &&& after.devices[slot] == d
    &&& forall|k: int|
        0 <= k < before.devices.len() && k != slot ==> #[trigger] after.devices[k]
            == before.devices[k]
}

/// A scan after one device's clock has been read.
pub open spec fn sampled(s: ScanView, slot: int, now: Instant) -> ScanView {
    let d = s.devices[slot];
    ScanView {
        devices: s.devices.update(
            slot,
            DeviceView { clock: freerun::after_sample(d.clock, now), ..d },
        ),
        ..s
    }
}

/// The devices that a census looks at: a device's advert count only moves once it's past
/// the name filter, so it's what separates "in range" from "in range and being looked at".
pub open spec fn looked_into(devices: Seq<DeviceView>) -> Seq<DeviceView> {
    devices.filter(|d: DeviceView| d.adverts > 0)
}

/// Counters are those of devices, one for one.
pub open spec fn are_all_counts(counts: Seq<Counts>, devices: Seq<DeviceView>) -> bool {
    &&& counts.len() == devices.len()
    &&& forall|i: int| 0 <= i < counts.len() ==> are_counts(#[trigger] counts[i], devices[i])
}

/// A census is that of a scan's devices.
pub open spec fn is_census(census: Census, devices: Seq<DeviceView>) -> bool {
    exists|counts: Seq<Counts>| #[trigger]
        are_all_counts(counts, looked_into(devices)) && diagnostics::is_survey(
            census,
            devices.len(),
            counts,
        )
}

impl Scanner {
    pub fn builder() -> (b: Builder)
        ensures
            b.name is None,
    {
        Builder::default()
    }

    /// Where a device stands.
    fn slot(&self, id: &String) -> (slot: Option<usize>)
        ensures
            match slot {
                Some(i) => slot_of(self@.devices, id@) == Some(i as int) && i
                    < self.devices@.len() && self.devices@[i as int]@.id == id@,
                None => slot_of(self@.devices, id@) is None,
            },
    {
        let mut i: usize = self.devices.len();
        assert(self@.devices.take(i as int) =~= self@.devices);
        while i > 0
            invariant
                i <= self.devices@.len(),
                slot_of(self@.devices, id@) == slot_of(self@.devices.take(i as int), id@),
            decreases i,
        {
            i = i - 1;
            assert(self@.devices.take(i + 1).drop_last() =~= self@.devices.take(i as int));
            let device = &self.devices[i];
            if *device.id() == *id {
                return Some(i);
            }
        }
        None
    }

    /// Takes in one report from the adapter, which arrived at `at`. `answer` is what a
    /// properties lookup said of the device it is about: neither its name nor its signal
    /// strength arrives in an advertisement, so a lookup is the only way to either.
    pub fn take_in(&mut self, event: CentralEvent, answer: Option<Properties>, at: Instant)
        requires
            at.wf(),
        ensures
            final(self)@ == after_report(old(self)@, event, answer, at),
    {
        let id: String = match event_peripheral(&event) {
            Some(id) => id.clone(),
            None => {
                return;
            },
        };
        let found = self.slot(&id);
        let fresh: bool = found.is_none();
        let slot: usize = match found {
            Some(slot) => slot,
            None => {
                let slot = self.devices.len();
                self.devices.push(Device::new(id.clone()));
                slot
            },
        };
        let ghost devices = ensured(old(self)@.devices, id@);
        proof {
            assert(self@.devices =~= devices);
            assert(devices.drop_last() =~= old(self)@.devices || !fresh);
        }
        self.devices[slot].refresh(answer);
        let ghost d = refreshed(devices[slot as int], answer);
        assert(self@.devices =~= devices.update(slot as int, d));
        assert(self@.pending =~= old(self)@.pending);
        if !self.devices[slot].matches(&self.filter) {
            return;
        }
        if fresh {
            self.raise(Event::Discovered { id: id.clone() });
        }
        self.devices[slot].count();
        let ghost noted = DeviceView { adverts: counted(d.adverts), ..d };
        let ghost told = if fresh {
            old(self)@.pending.push(EventView::Discovered { id: id@ })
        } else {
            old(self)@.pending
        };
        assert(self@.devices =~= devices.update(slot as int, noted));
        assert(self@.pending =~= told);
        match event {
            CentralEvent::RssiUpdate { rssi, .. } => {
                self.devices[slot].rssi = Some(rssi);
                self.raise(Event::Rssi { id, rssi });
            },
            CentralEvent::ManufacturerDataAdvertisement { manufacturer_data, .. } => {
                let status: Option<Status> = match manufacturer_data.get(&ble::COMPANY_ID) {
                    Some(bytes) => ble::parse_manufacturer(bytes.as_slice()),
                    None => None,
                };
                if let Some(status) = status {
                    self.devices[slot].battery = Some(status);
                    self.raise(Event::Battery { id: id.clone(), status });
                }
                self.raise(
                    Event::Advertised {
                        id,
                        data: Advertisement::Manufacturer(manufacturer_data),
                        at,
                    },
                );
            },
            CentralEvent::ServiceDataAdvertisement { service_data, .. } => {
                let service: u128 = uuids::uuid_from_u16(ble::SERVICE_UUID_16);
                if let Some(payload) = service_data.get(&service) {
                    let told = self.devices[slot].take_in_payload(payload, at);
                    self.raise(told);
                }
                self.raise(
                    Event::Advertised { id, data: Advertisement::Service(service_data), at },
                );
            },
            _ => {},
        }
        assert(self@.devices =~= devices.update(slot as int, with_report(d, event, at)));
        assert(self@.pending =~= told + report_events(id@, event, at));
    }

    /// Raises [`Event::Lost`] for any device whose clock has stopped since the last look.
    pub fn sweep_for_silence(&mut self, now: Instant)
        requires
            now.wf(),
        ensures
            final(self)@ == after_sweep(old(self)@, now),
    {
        let mut i: usize = 0;
        let ghost devices = self@.devices;
        let ghost pending = self@.pending;
        assert(devices.take(0) =~= Seq::empty());
        assert(pending + silences(devices.take(0), now) =~= pending);
        while i < self.devices.len()
            invariant
                i <= self.devices@.len(),
                now.wf(),
                self.devices@.len() == devices.len(),
                self@.filter == old(self)@.filter,
                forall|k: int|
                    0 <= k < i ==> (#[trigger] self.devices@[k])@ == looked_at(devices[k], now),
                forall|k: int| i <= k < devices.len() ==> (#[trigger] self.devices@[k])@
                    == devices[k],
                self@.pending == pending + silences(devices.take(i as int), now),
            decreases devices.len() - i,
        {
            assert(devices.take(i + 1).drop_last() =~= devices.take(i as int));
            let found = self.devices[i].look(now);
            match found {
                Some(event) => {
                    self.raise(event);
                    assert(self@.pending =~= pending + silences(devices.take(i + 1), now));
                },
                None => {},
            }
            i = i + 1;
        }
        assert(devices.take(i as int) =~= devices);
        assert(self@.devices =~= devices.map_values(|d: DeviceView| looked_at(d, now)));
    }

    /// The next event, if one is waiting to be handed out.
    pub fn next(&mut self) -> (event: Option<Event>)
        ensures
            match event {
                Some(event) => old(self)@.pending.len() > 0 && event@ == old(self)@.pending[0]
                    && final(self)@ == (ScanView {
                    pending: old(self)@.pending.drop_first(),
                    ..old(self)@
                }),
                None => old(self)@.pending.len() == 0 && final(self)@ == old(self)@,
            },
    {
        let event = self.pending.pop_front();
        match event {
            Some(_) => {
                assert(self@.pending =~= old(self)@.pending.drop_first());
            },
            None => {
                assert(self@.pending =~= old(self)@.pending);
            },
        }
        event
    }

    /// Every device seen so far, in the order they were first noticed.
    ///
    /// Includes peripherals that have never sent timecode.
    pub fn devices(&self) -> (devices: &[Device])
        ensures
            devices@.map_values(|d: Device| d@) == self@.devices,
    {
        self.devices.as_slice()
    }

    /// What one device's clock says now; see [`Device::reading`].
    pub(crate) fn reading_at(&mut self, slot: usize, now: Instant) -> (reading: Option<Reading>)
        requires
            slot < old(self)@.devices.len(),
            now.wf(),
        ensures
            reading == freerun::shown(old(self)@.devices[slot as int].clock, now),
            final(self)@ == sampled(old(self)@, slot as int, now),
    {
        let reading = self.devices[slot].reading(now);
        assert(self@.devices =~= sampled(old(self)@, slot as int, now).devices);
        assert(self@.pending =~= old(self)@.pending);
        reading
    }

    /// One device by what the platform calls it. `None` for one this scan has not heard
    /// from yet.
    pub fn device(&self, id: &String) -> (device: Option<&Device>)
        ensures
            match device {
                Some(device) => slot_of(self@.devices, id@) matches Some(slot) && device@
                    == self@.devices[slot],
                None => slot_of(self@.devices, id@) is None,
            },
    {
        match self.slot(id) {
            Some(slot) => Some(&self.devices[slot]),
            None => None,
        }
    }

    /// One device, to sample its clock.
    pub fn device_mut(&mut self, id: &String) -> (device: Option<&mut Device>)
        ensures
            match device {
                Some(device) => slot_of(old(self)@.devices, id@) matches Some(slot) && device@
                    == old(self)@.devices[slot] && only_changes(
                    old(self)@,
                    final(self)@,
                    slot,
                    final(device)@,
                ),
                None => slot_of(old(self)@.devices, id@) is None && final(self)@ == old(self)@,
            },
    {
        match self.slot(id) {
            Some(slot) => Some(&mut self.devices[slot]),
            None => None,
        }
    }

    /// What the name filter was set to, if it was.
    pub fn filter(&self) -> (filter: Option<&str>)
        ensures
            match (filter, self@.filter) {
                (Some(filter), Some(held)) => filter@ == held,
                (None, None) => true,
                _ => false,
            },
    {
        match &self.filter {
            Some(filter) => Some(filter.as_str()),
            None => None,
        }
    }

    /// What this scan has taken in, across every device.
    pub fn census(&self) -> (census: Census)
        ensures
            is_census(census, self@.devices),
    {
        let mut counts: Vec<Counts<'_>> = Vec::new();
        let mut i: usize = 0;
        let ghost devices = self@.devices;
        assert(devices.take(0) =~= Seq::empty());
        assert(looked_into(devices.take(0)) =~= Seq::empty()) by {
            reveal(Seq::filter);
        }
        while i < self.devices.len()
            invariant
                i <= self.devices@.len(),
                devices == self@.devices,
                are_all_counts(counts@, looked_into(devices.take(i as int))),
            decreases self.devices@.len() - i,
        {
            proof {
                assert(devices.take(i + 1).drop_last() =~= devices.take(i as int));
                reveal(Seq::filter);
            }
            let device = &self.devices[i];
            if device.adverts() > 0 {
                counts.push(device.counts());
            }
            i = i + 1;
        }
        assert(devices.take(i as int) =~= devices);
        diagnostics::survey(self.devices.len(), counts.as_slice())
    }

    /// Why nothing is arriving. It carries no wording: the caller writes the sentence.
    pub fn diagnosis(&self) -> (d: Diagnosis)
        ensures
            exists|census: Census| #[trigger]
                is_census(census, self@.devices) && diagnostics::is_diagnosis(
                    d,
                    census,
                    self@.filter is Some,
                ),
    {
        let census = self.census();
        diagnostics::diagnose(&census, self.filter.is_some())
    }

    fn raise(&mut self, event: Event)
        ensures
            final(self)@ == (ScanView { pending: old(self)@.pending.push(event@), ..old(self)@ }),
            final(self).devices == old(self).devices,
    {
        self.pending.push_back(event);
        assert(self@.pending =~= old(self)@.pending.push(event@));
    }
}

} // verus!
