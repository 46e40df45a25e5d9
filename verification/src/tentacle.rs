//! A passive reader that keeps its own account of each device it hears from.
//!
//! It takes in one advertisement at a time. In JSON it says the reading; otherwise it only
//! anchors that device's clock, and drawing goes by its own schedule.

pub mod laws;

use vstd::prelude::*;

use crate::ble;
use crate::ble::diagnostics::{self, Census, Counts};
use crate::ble::jam;
use crate::ble::scan::{self, CentralEvent, Properties};
use crate::ble::{uuids, Advert, Date};
use crate::display::{self, Painting, Screen};
use crate::freerun::{self, FreeRun, Reading};
use crate::screen::{self, Line, LineView};
use crate::text;
use crate::time::{Duration, Instant};
use crate::timecode::Timecode;

verus! {

broadcast use vstd::std_specs::hash::group_hash_axioms;

/// What was last seen from one device.
#[derive(Debug)]
pub struct Seen {
    pub name: Option<String>,
    pub rssi: Option<i16>,
    pub date: Option<Date>,
    /// Remaining charge, from the manufacturer record, which rides in the same
    /// advertisement as the timecode but arrives as its own event.
    pub battery: Option<u8>,
    /// The local clock this device's advertisements anchor.
    pub clock: FreeRun,
    /// When this device first sent timecode, which is where its line sits.
    pub first_timecode: Option<Instant>,
    pub adverts: u64,
    /// Service payloads received under the Tentacle's service.
    pub fdac: u64,
    /// ...of those, how many did not decode.
    pub unparsed: u64,
    /// The last payload that didn't parse. A wire format that has moved is invisible
    /// without the bytes in front of you.
    pub unparsed_sample: Option<Vec<u8>>,
}

/// What was last seen from one device, as texts and bytes.
pub struct SeenView {
    pub name: Option<Seq<char>>,
    pub rssi: Option<i16>,
    pub date: Option<Date>,
    pub battery: Option<u8>,
    pub clock: Option<freerun::State>,
    pub first_timecode: Option<Instant>,
    pub adverts: u64,
    pub fdac: u64,
    pub unparsed: u64,
    pub unparsed_sample: Option<Seq<u8>>,
}

impl View for Seen {
    type V = SeenView;

    open spec fn view(&self) -> SeenView {
        SeenView {
            name: scan::text_of(self.name),
            rssi: self.rssi,
            date: self.date,
            battery: self.battery,
            clock: self.clock@,
            first_timecode: self.first_timecode,
            adverts: self.adverts,
            fdac: self.fdac,
            unparsed: self.unparsed,
            unparsed_sample: scan::bytes_of(self.unparsed_sample),
        }
    }
}

/// A device of which nothing has been seen.
pub open spec fn unseen() -> SeenView {
    SeenView {
        name: None,
        rssi: None,
        date: None,
        battery: None,
        clock: None,
        first_timecode: None,
        adverts: 0,
        fdac: 0,
        unparsed: 0,
        unparsed_sample: None,
    }
}

impl Default for Seen {
    fn default() -> (seen: Seen)
        ensures
            seen@ == unseen(),
    {
        Seen {
            name: None,
            rssi: None,
            date: None,
            battery: None,
            clock: FreeRun::default(),
            first_timecode: None,
            adverts: 0,
            fdac: 0,
            unparsed: 0,
            unparsed_sample: None,
        }
    }
}

/// A device once a lookup has answered. A device that has a name is not looked up, and of
/// the signal strength the one that was reported is kept.
pub open spec fn learned(s: SeenView, answer: Option<Properties>) -> SeenView {
    match answer {
        Some(p) => if s.name is Some {
            s
        } else {
            SeenView {
                name: if p.local_name is Some {
                    scan::text_of(p.local_name)
                } else {
                    scan::text_of(p.advertisement_name)
                },
                rssi: if s.rssi is Some {
                    s.rssi
                } else {
                    p.rssi
                },
                ..s
            }
        },
        None => s,
    }
}

/// Whether a device's name contains what is wanted, case-insensitively. One with no name
/// does not.
pub open spec fn answers(s: SeenView, want: Option<Seq<char>>) -> bool {
    match want {
        None => true,
        Some(_) => match s.name {
            None => false,
            Some(name) => jam::wanted(want, name),
        },
    }
}

/// A device after one of its advertisements was decoded.
pub open spec fn decoded(s: SeenView, json: bool, event: CentralEvent, at: Instant) -> SeenView {
    match event {
        CentralEvent::ManufacturerDataAdvertisement { manufacturer_data, .. } => SeenView {
            battery: match scan::charge_in(manufacturer_data@) {
                Some(status) => Some(status.battery_percent),
                None => s.battery,
            },
            ..s
        },
        CentralEvent::ServiceDataAdvertisement { service_data, .. } => if service_data@.dom()
            .contains(scan::tentacle_service()) {
            with_payload(s, json, service_data@[scan::tentacle_service()]@, at)
        } else {
            s
        },
        _ => s,
    }
}

/// A device after a payload of its was decoded.
pub open spec fn with_payload(s: SeenView, json: bool, payload: Seq<u8>, at: Instant) -> SeenView {
    let s = SeenView { fdac: scan::counted(s.fdac), ..s };
    match ble::advert_in(payload) {
        None => SeenView {
            unparsed: scan::counted(s.unparsed),
            unparsed_sample: Some(payload),
            ..s
        },
        Some(Advert::Date(date)) => SeenView { date: Some(date), ..s },
        Some(Advert::Timecode(tc)) => if json {
            s
        } else {
            SeenView {
                first_timecode: if s.first_timecode is Some {
                    s.first_timecode
                } else {
                    Some(at)
                },
                clock: Some(freerun::after_anchor(s.clock, tc, at)),
                ..s
            }
        },
    }
}

/// The timecode in an event, if there is one.
pub open spec fn timecode_of(event: CentralEvent) -> Option<Timecode> {
    match event {
        CentralEvent::ServiceDataAdvertisement { service_data, .. } => if service_data@.dom()
            .contains(scan::tentacle_service()) {
            match ble::advert_in(service_data@[scan::tentacle_service()]@) {
                Some(Advert::Timecode(tc)) => Some(tc),
                _ => None,
            }
        } else {
            None
        },
        _ => None,
    }
}

/// A charge, or `null`.
pub open spec fn json_charge(battery: Option<u8>) -> Seq<char> {
    match battery {
        Some(b) => text::decimal(b as nat),
        None => "null"@,
    }
}

/// A reading as a JSON object.
pub open spec fn json_text(s: SeenView, tc: Timecode) -> Seq<char> {
    display::json_timecode(tc) + ",\"device\":\""@ + called(s) + "\",\"date\":"@
        + display::json_date(s.date) + ",\"rssi\":"@ + display::json_rssi(s.rssi)
        + ",\"battery_percent\":"@ + json_charge(s.battery) + "}"@
}

/// What a device is called.
pub open spec fn called(s: SeenView) -> Seq<char> {
    match s.name {
        Some(name) => name,
        None => "<unnamed>"@,
    }
}

impl Seen {
    /// Takes in what a properties lookup answered.
    pub fn learn(&mut self, answer: Option<Properties>)
        ensures
            final(self)@ == learned(old(self)@, answer),
    {
        if self.name.is_some() {
            return;
        }
        if let Some(p) = answer {
            self.name =
            match p.local_name {
                Some(name) => Some(name),
                None => p.advertisement_name,
            };
            if self.rssi.is_none() {
                self.rssi = p.rssi;
            }
        }
    }
}

/// What to call a device that never answered a properties lookup.
pub fn name_of(seen: &Seen) -> (name: &str)
    ensures
        name@ == called(seen@),
{
    match &seen.name {
        Some(name) => name.as_str(),
        None => "<unnamed>",
    }
}

/// Whether a device is one to look at.
pub fn name_matches(want: Option<&str>, seen: &Seen) -> (yes: bool)
    ensures
        yes == answers(seen@, display::filter_text(want)),
{
    match want {
        None => true,
        Some(want) => match &seen.name {
            None => false,
            Some(name) => {
                let lower = text::lower(name.as_str());
                let want = text::lower(want);
                text::contains(lower.as_str(), want.as_str())
            },
        },
    }
}

/// Takes in one advertisement. In JSON this says the reading; otherwise it only anchors
/// that device's clock.
pub fn decode(json: bool, seen: &mut Seen, event: &CentralEvent, arrived: Instant) -> (out:
    Option<String>)
    requires
        arrived.wf(),
    ensures
        final(seen)@ == decoded(old(seen)@, json, *event, arrived),
        match (json, timecode_of(*event)) {
            (true, Some(tc)) => out matches Some(line) && line@ == json_text(final(seen)@, tc),
            _ => out is None,
        },
{
    let service_data = match event {
        CentralEvent::ManufacturerDataAdvertisement { manufacturer_data, .. } => {
            // Charge, not time: hold onto it and let the timecode do the printing.
            if let Some(bytes) = manufacturer_data.get(&ble::COMPANY_ID) {
                if let Some(status) = ble::parse_manufacturer(bytes.as_slice()) {
                    seen.battery = Some(status.battery_percent);
                }
            }
            return None;
        },
        CentralEvent::ServiceDataAdvertisement { service_data, .. } => service_data,
        _ => {
            return None;
        },
    };
    let service: u128 = uuids::uuid_from_u16(ble::SERVICE_UUID_16);
    let payload = match service_data.get(&service) {
        Some(payload) => payload,
        None => {
            return None;
        },
    };
    seen.fdac = seen.fdac.saturating_add(1);
    match ble::parse(payload.as_slice()) {
        None => {
            // Not a reading, but the most useful thing there is to say when no reading
            // ever comes: a Tentacle is right here and it can't be read.
            seen.unparsed = seen.unparsed.saturating_add(1);
            seen.unparsed_sample = Some(vstd::slice::slice_to_vec(payload.as_slice()));
            None
        },
        Some(Advert::Date(date)) => {
            // The date comes round far more rarely than the timecode, so hold onto it and
            // show it alongside.
            seen.date = Some(date);
            None
        },
        Some(Advert::Timecode(tc)) => {
            if json {
                let mut out = display::json_head(&tc);
                out.push_str(",\"device\":\"");
                out.push_str(name_of(seen));
                out.push_str("\",\"date\":");
                display::put_json_date(&mut out, seen.date);
                out.push_str(",\"rssi\":");
                display::put_json_rssi(&mut out, seen.rssi);
                out.push_str(",\"battery_percent\":");
                match seen.battery {
                    Some(b) => text::put_decimal(&mut out, b as u128),
                    None => out.push_str("null"),
                }
                out.push_str("}");
                return Some(out);
            }
            if seen.first_timecode.is_none() {
                seen.first_timecode = Some(arrived);
            }
            proof {
                ble::a_parsed_timecode_is_in_range(payload@);
            }
            seen.clock.anchor(&tc, arrived);
            None
        },
    }
}

/// What is to be done with an event.
#[derive(Clone, Copy, Debug, PartialEq, Eq, Structural)]
pub enum Taken {
    /// Nothing: the device is not one to look at, or the event has said all it has.
    Skipped,
    /// Show what it carries.
    Wanted,
}

/// A device after an event of its has come in: it is counted if the filter lets it
/// through, and a signal strength is taken as it comes.
pub open spec fn noticed(s: SeenView, want: Option<Seq<char>>, event: CentralEvent) -> SeenView {
    if !answers(s, want) {
        s
    } else {
        let s = SeenView { adverts: scan::counted(s.adverts), ..s };
        match event {
            CentralEvent::RssiUpdate { rssi, .. } => SeenView { rssi: Some(rssi), ..s },
            _ => s,
        }
    }
}

/// Takes note of an event, and says whether there is anything in it to show.
pub fn notice(seen: &mut Seen, want: Option<&str>, event: &CentralEvent) -> (taken: Taken)
    ensures
        final(seen)@ == noticed(old(seen)@, display::filter_text(want), *event),
        taken == (if answers(old(seen)@, display::filter_text(want)) && !(event is RssiUpdate) {
            Taken::Wanted
        } else {
            Taken::Skipped
        }),
{
    if !name_matches(want, seen) {
        return Taken::Skipped;
    }
    seen.adverts = seen.adverts.saturating_add(1);
    match event {
        CentralEvent::RssiUpdate { rssi, .. } => {
            seen.rssi = Some(*rssi);
            Taken::Skipped
        },
        _ => Taken::Wanted,
    }
}

/// One device's line, before it's laid out.
#[derive(Debug)]
pub struct Row {
    /// First timecode, then id to break a tie: where this line sits.
    pub order: (Instant, String),
    pub tc: Timecode,
    pub name: String,
    pub date: Option<Date>,
    pub rssi: Option<i16>,
    pub battery: Option<u8>,
    pub note: String,
}

/// A battery column, where the charge is known. Right-aligned, so 100% and 7% keep the note
/// in one column.
pub open spec fn charge_column(battery: Option<u8>) -> Seq<char> {
    match battery {
        None => Seq::empty(),
        Some(b) => "   "@ + text::decimal_column(b as nat, 3) + "%"@,
    }
}

/// The line that a row is written on.
pub open spec fn row_line(row: Row) -> LineView {
    LineView {
        first: row.order.0,
        id: row.order.1@,
        tc: row.tc,
        name: row.name@,
        date: row.date,
        rssi: row.rssi,
        tail: charge_column(row.battery) + row.note@,
    }
}

/// The lines that rows are written on.
pub open spec fn row_lines(rows: Seq<Row>) -> Seq<LineView> {
    rows.map_values(|row: Row| row_line(row))
}

fn line_of(row: &Row) -> (line: Line)
    ensures
        line@ == row_line(*row),
{
    let mut tail = String::new();
    match row.battery {
        Some(b) => {
            tail.push_str("   ");
            text::put_decimal_column(&mut tail, b as u128, 3);
            tail.push_str("%");
        },
        None => {},
    }
    assert(tail@ =~= charge_column(row.battery));
    tail.push_str(row.note.as_str());
    Line {
        first: row.order.0,
        id: row.order.1.clone(),
        tc: row.tc,
        name: row.name.clone(),
        date: row.date,
        rssi: row.rssi,
        tail,
    }
}

/// Puts the rows in a fixed order and formats each one into a line. The order has to come
/// out the same on every redraw, whatever order the rows come in.
pub fn lay_out(rows: Vec<Row>) -> (lines: Vec<String>)
    ensures
        screen::texts(lines@) == screen::drawn_lines(row_lines(rows@)),
{
    let mut lines: Vec<Line> = Vec::new();
    let mut i: usize = 0;
    while i < rows.len()
        invariant
            i <= rows@.len(),
            lines@.len() == i,
            forall|k: int| 0 <= k < i ==> (#[trigger] lines@[k])@ == row_line(rows@[k]),
        decreases rows@.len() - i,
    {
        lines.push(line_of(&rows[i]));
        i = i + 1;
    }
    assert(screen::views(lines@) =~= row_lines(rows@));
    screen::lay_out(lines)
}

/// A device's line, with this timecode and note on it.
pub open spec fn seen_line(
    s: SeenView,
    id: Seq<char>,
    first: Instant,
    tc: Timecode,
    note: Seq<char>,
) -> LineView {
    LineView {
        first,
        id: screen::short_id_text(id),
        tc,
        name: called(s),
        date: s.date,
        rssi: s.rssi,
        tail: charge_column(s.battery) + note,
    }
}

/// The line a device gets, if it gets one.
pub open spec fn line_for(s: SeenView, id: Seq<char>, now: Instant) -> Option<LineView> {
    match (s.first_timecode, freerun::shown(s.clock, now)) {
        (Some(first), Some(Reading::Running(tc))) => Some(
            seen_line(s, id, first, tc, Seq::empty()),
        ),
        (Some(first), Some(Reading::Lost { last, since })) => if since@ > screen::LINGER_SECS
            * 1_000_000_000 {
            None
        } else {
            Some(seen_line(s, id, first, last, display::lost_note(since@)))
        },
        _ => None,
    }
}

/// One device's row, drawn from its free-running clock, if it has a line at all. Off the
/// air it freezes on the last reading that actually arrived and says how long ago.
pub fn row_for(id: &str, seen: &mut Seen, now: Instant) -> (row: Option<Row>)
    requires
        now.wf(),
    ensures
        match row {
            Some(row) => line_for(old(seen)@, id@, now) == Some(row_line(row)),
            None => line_for(old(seen)@, id@, now) is None,
        },
        final(seen)@ == (SeenView {
            clock: freerun::after_sample(old(seen)@.clock, now),
            ..old(seen)@
        }),
{
    let reading = seen.clock.sample(now);
    let (first, reading) = match (seen.first_timecode, reading) {
        (Some(first), Some(reading)) => (first, reading),
        _ => {
            return None;
        },
    };
    let mut note = String::new();
    let tc: Timecode = match reading {
        Reading::Running(tc) => {
            assert(note@ =~= Seq::empty());
            tc
        },
        Reading::Lost { last, since } => {
            if since.as_nanos() > screen::LINGER_SECS as u128 * 1_000_000_000 {
                return None;
            }
            note.push_str("   no signal for ");
            text::put_fixed(&mut note, since.as_nanos() as i128, 1_000_000_000, 1);
            note.push_str("s");
            last
        },
    };
    Some(
        Row {
            order: (first, screen::short_id(id)),
            tc,
            name: name_of(seen).to_owned(),
            date: seen.date,
            rssi: seen.rssi,
            battery: seen.battery,
            note,
        },
    )
}

/// Counters are those of what was seen of a device.
pub open spec fn are_counts(counts: Counts, s: SeenView) -> bool {
    &&& counts.payloads == s.fdac
    &&& counts.unparsed == s.unparsed
    &&& match (counts.name, s.name) {
        (Some(name), Some(held)) => name@ == held,
        (None, None) => true,
        _ => false,
    }
    &&& match (counts.unparsed_sample, s.unparsed_sample) {
        (Some(sample), Some(held)) => sample@ == held,
        (None, None) => true,
        _ => false,
    }
}

/// A census counts what these devices sent, among this many in range.
pub open spec fn is_survey(census: Census, devices: nat, matched: Seq<SeenView>) -> bool {
    exists|counts: Seq<Counts>|
        counts.len() == matched.len() && (forall|i: int|
            0 <= i < counts.len() ==> are_counts(#[trigger] counts[i], matched[i]))
            && #[trigger] diagnostics::is_survey(census, devices, counts)
}

/// What was seen of several devices.
pub open spec fn seen_views(all: Seq<&Seen>) -> Seq<SeenView> {
    all.map_values(|seen: &Seen| seen@)
}

/// The counting half of a census.
pub fn survey(devices: usize, matched: &[&Seen]) -> (census: Census)
    ensures
        is_survey(census, devices as nat, seen_views(matched@)),
{
    let mut counts: Vec<Counts<'_>> = Vec::new();
    let mut i: usize = 0;
    while i < matched.len()
        invariant
            i <= matched.len(),
            counts@.len() == i,
            forall|k: int| 0 <= k < i ==> are_counts(#[trigger] counts@[k], matched@[k]@),
        decreases matched.len() - i,
    {
        let seen: &Seen = matched[i];
        counts.push(
            Counts {
                name: match &seen.name {
                    Some(name) => Some(name.as_str()),
                    None => None,
                },
                payloads: seen.fdac,
                unparsed: seen.unparsed,
                unparsed_sample: match &seen.unparsed_sample {
                    Some(sample) => Some(sample.as_slice()),
                    None => None,
                },
            },
        );
        i = i + 1;
    }
    diagnostics::survey(devices, counts.as_slice())
}

/// A census across every device: a device's advert count only moves once it's past the
/// name filter, so it's what separates "in range" from "in range and being looked at".
pub fn census(all: &[&Seen]) -> (census: Census)
    ensures
        is_survey(
            census,
            all@.len(),
            seen_views(all@).filter(|s: SeenView| s.adverts > 0),
        ),
{
    let mut matched: Vec<&Seen> = Vec::new();
    let mut i: usize = 0;
    let ghost views = seen_views(all@);
    let ghost heard = |s: SeenView| s.adverts > 0;
    assert(views.take(0) =~= Seq::empty());
    assert(seen_views(matched@) =~= views.take(0).filter(heard)) by {
        reveal(Seq::filter);
    }
    while i < all.len()
        invariant
            i <= all.len(),
            views == seen_views(all@),
            heard == (|s: SeenView| s.adverts > 0),
            seen_views(matched@) == views.take(i as int).filter(heard),
        decreases all.len() - i,
    {
        proof {
            assert(views.take(i + 1).drop_last() =~= views.take(i as int));
            reveal(Seq::filter);
        }
        let seen: &Seen = all[i];
        let ghost before = matched@;
        if seen.adverts > 0 {
            matched.push(seen);
            assert(seen_views(matched@) =~= seen_views(before).push(seen@));
        }
        i = i + 1;
    }
    assert(views.take(i as int) =~= views);
    survey(all.len(), matched.as_slice())
}

/// A diagnostic, and a key for which failure it describes. The key exists because the text
/// moves on its own.
#[derive(Debug)]
pub struct Diagnosis {
    pub key: String,
    pub text: String,
}

impl Diagnosis {
    pub fn new(key: &str, text: String) -> (d: Diagnosis)
        ensures
            d.key@ == key@,
            d.text == text,
    {
        Diagnosis { key: key.to_owned(), text }
    }
}

/// A diagnostic is the one that a census calls for.
pub open spec fn is_diagnosis(d: Diagnosis, census: Census, filter: Option<Seq<char>>) -> bool {
    exists|kind: diagnostics::Diagnosis| #[trigger]
        diagnostics::is_diagnosis(kind, census, filter is Some) && d.key@ == diagnostics::key_text(
            kind,
        ) && d.text@ == display::diagnosis_text(kind, filter)
}

/// One line saying what the scan is taking in, for when none of it decodes. Ordered most
/// specific first; every case names something the reader can act on.
pub fn diagnose(census: &Census, filter: Option<&str>) -> (d: Diagnosis)
    ensures
        is_diagnosis(d, *census, display::filter_text(filter)),
{
    let kind = diagnostics::diagnose(census, filter.is_some());
    let key = kind.key();
    Diagnosis::new(key.as_str(), display::describe(&kind, filter))
}

/// Draws the lines, or says why there are none once the grace is over.
pub fn render(
    rows: Vec<Row>,
    census: &Census,
    screen: &mut Screen,
    filter: Option<&str>,
    elapsed: Duration,
) -> (painting: Painting)
    ensures
        final(screen).drawn == rows@.len(),
        painting.drawn@ == screen::redraw_text(
            screen::drawn_lines(row_lines(rows@)),
            old(screen).drawn as nat,
        ),
        rows@.len() > 0 ==> painting.wiped@ == screen::wiped(old(screen).notice)
            && painting.said@ == Seq::<char>::empty() && final(screen).notice.shown is None
            && final(screen).notice.key is None && final(screen).notice.tty == old(
            screen,
        ).notice.tty,
        rows@.len() == 0 ==> painting.wiped@ == Seq::<char>::empty(),
        rows@.len() == 0 && elapsed@ < screen::GRACE_SECS * 1_000_000_000 ==> painting.said@
            == Seq::<char>::empty() && final(screen).notice == old(screen).notice,
        rows@.len() == 0 && elapsed@ >= screen::GRACE_SECS * 1_000_000_000 ==> exists|d: Diagnosis|
            #[trigger]
            is_diagnosis(d, *census, display::filter_text(filter)) && screen::shows(
                old(screen).notice,
                final(screen).notice,
                d.key@,
                d.text@,
                painting.said@,
            ),
{
    proof {
        screen::every_line_sits_in_its_place(row_lines(rows@));
    }
    let laid = lay_out(rows);
    assert(screen::texts(laid@).len() == laid@.len());
    let mut wiped = String::new();
    assert(wiped@ =~= Seq::<char>::empty());
    if laid.len() > 0 {
        wiped = screen.notice.clear();
    }
    let drawn = screen::redraw(laid.as_slice(), screen.drawn);
    screen.drawn = laid.len();
    let mut said = String::new();
    assert(said@ =~= Seq::<char>::empty());
    if laid.len() == 0 && elapsed.as_nanos() >= screen::GRACE_SECS as u128 * 1_000_000_000 {
        let d = diagnose(census, filter);
        let ghost why = d;
        said = screen.notice.show(d.key, d.text);
        assert(is_diagnosis(why, *census, display::filter_text(filter)));
    }
    Painting { wiped, drawn, said }
}

} // verus!
