//! Taking the round trips that the [estimator](crate::jam) reduces.
//!
//! That module is arithmetic over samples somebody else collected. This is the somebody
//! else, for the one sample kind that needs a connection: a read of the timecode
//! characteristic, stamped either side, which is a round trip where an advertisement
//! structurally cannot be. What is here decides; whoever owns the adapter scans, connects,
//! reads and sleeps.
//!
//! One connection is enough. The bound is a *minimum* over the samples, and a minimum over
//! fewer samples sits higher, so a short capture reports a bracket that is too **wide**,
//! which is the safe direction.
//!
//! The advertisements that give the other half of the answer keep landing while the two
//! clocks drift apart, and with one connection there is no slope to take the drift out
//! with. So the window they are pooled over is bounded, at [`ADVERT_WINDOW_SECS`].
//!
//! Nothing here subscribes and there is no way to ask it to: a read taken while subscribed
//! is resolved by whichever of the response and a notification lands first, and its timing
//! is fiction.

use std::collections::HashMap;

use vstd::prelude::*;

use crate::ble::scan::{self, Properties};
use crate::ble::{self, uuids, Advert};
use crate::error::Error;
use crate::jam::reduce::{self, Calibration};
use crate::jam::{self, Calibrator, Flaw, Link, Stream};
use crate::text;
use crate::time::{Duration, Instant};
use crate::timecode::Timecode;

verus! {

broadcast use vstd::std_specs::hash::group_hash_axioms;

/// The vendor characteristic carrying the timecode, headerless. The only one of the four
/// with a clock in it, and so the only one a round trip is worth taking on.
pub const TIMECODE_CHAR: u128 = 0x0dab_144c_2cb9_11e6_b67b_9e71_128c_ae77;

/// How long to wait for a connect before giving up, in seconds.
pub const CONNECT_GIVE_UP_SECS: u64 = 15;

/// How long to hold the link before hanging up, if the box hasn't already, in seconds.
pub const SESSION_CAP_SECS: u64 = 12;

/// How long a single read may take before the link counts as gone, in seconds. The
/// shortest real round trip is one 30 ms connection interval, so anything approaching this
/// is not slow, it is a link the device has already dropped without saying so.
pub const READ_GIVE_UP_SECS: u64 = 5;

/// How long after the connection advertisements are still pooled, in seconds. Past here
/// the drift between the two clocks has moved the offset by enough to matter.
pub const ADVERT_WINDOW_SECS: u64 = 60;

/// How long to look for a box before giving up on there being one, in seconds.
pub const SCAN_FOR_SECS: u64 = 12;

/// The block length handed to the [`Calibrator`], in seconds.
///
/// Deliberately longer than any pass, so every round trip lands in one block. With one
/// connection's reads split across two blocks by a boundary they happened to straddle, the
/// reduction would fit a line through two midpoints and de-trend everything by a slope
/// derived from six seconds of data.
pub const ONE_BLOCK_SECS: u64 = 3_600;

/// How long to wait between two looks for a peripheral that the adapter has forgotten, in
/// milliseconds.
pub const REDISCOVER_MILLIS: u64 = 200;

/// The step of the dither, in microseconds: coprime with [`DITHER_SPAN`].
pub const DITHER_STEP: u64 = 7_919;

/// The span of the dither, in microseconds: a little over the 30 ms connection interval.
pub const DITHER_SPAN: u64 = 31_000;

/// Configures a single calibration pass. The defaults are the ones to use.
#[derive(Clone, Debug)]
pub struct Calibrate {
    pub name: Option<String>,
    pub scan_for: Duration,
    pub window: Duration,
}

impl Default for Calibrate {
    fn default() -> (c: Calibrate)
        ensures
            c.name is None,
            c.scan_for.wf() && c.scan_for@ == SCAN_FOR_SECS * 1_000_000_000,
            c.window.wf() && c.window@ == ADVERT_WINDOW_SECS * 1_000_000_000,
    {
        Calibrate::new()
    }
}

impl Calibrate {
    pub fn new() -> (c: Calibrate)
        ensures
            c.name is None,
            c.scan_for.wf() && c.scan_for@ == SCAN_FOR_SECS * 1_000_000_000,
            c.window.wf() && c.window@ == ADVERT_WINDOW_SECS * 1_000_000_000,
    {
        Calibrate {
            name: None,
            scan_for: Duration::from_secs(SCAN_FOR_SECS),
            window: Duration::from_secs(ADVERT_WINDOW_SECS),
        }
    }

    /// Only calibrate against a box whose name contains `want`, case-insensitively.
    ///
    /// Without it this takes the first Tentacle it hears from, which is whichever one
    /// happened to advertise first and not a choice anybody made.
    pub fn name(self, want: String) -> (c: Calibrate)
        ensures
            c == (Calibrate { name: Some(want), ..self }),
    {
        Calibrate { name: Some(want), ..self }
    }

    /// How long to look for a box before giving up.
    pub fn scan_for(self, d: Duration) -> (c: Calibrate)
        ensures
            c == (Calibrate { scan_for: d, ..self }),
    {
        Calibrate { scan_for: d, ..self }
    }

    /// How long after the connection advertisements are still pooled. Widening it costs
    /// drift that nothing here can take out; narrowing it costs a floor measured over
    /// fewer readings.
    pub fn window(self, d: Duration) -> (c: Calibrate)
        ensures
            c == (Calibrate { window: d, ..self }),
    {
        Calibrate { window: d, ..self }
    }

    /// Whether a box of this name is one to connect to. A box that answered no lookup is
    /// called `<unnamed>` and is held to that: taking it as a match would connect to a box
    /// the caller did not ask for.
    pub fn answers(&self, name: &str) -> (yes: bool)
        ensures
            yes == wanted(scan::text_of(self.name), name@),
    {
        match &self.name {
            None => true,
            Some(want) => {
                let lower = text::lower(name);
                let want = text::lower(want.as_str());
                text::contains(lower.as_str(), want.as_str())
            },
        }
    }

    /// What is said when the time to look is up.
    pub fn not_found(&self) -> (e: Error)
        ensures
            e matches Error::NoTentacle { filter } && filter == self.name,
    {
        Error::NoTentacle { filter: self.name.clone() }
    }
}

/// Whether a name contains what is wanted, case-insensitively.
pub open spec fn wanted(want: Option<Seq<char>>, name: Seq<char>) -> bool {
    match want {
        None => true,
        Some(want) => text::holds_text(text::lowercase(name), text::lowercase(want)),
    }
}

/// Whether service data is a Tentacle's. By service data rather than by name: a box that
/// has never been named still advertises its service.
pub fn is_tentacle(service_data: &HashMap<u128, Vec<u8>>) -> (yes: bool)
    ensures
        yes == service_data@.dom().contains(scan::tentacle_service()),
{
    let service: u128 = uuids::uuid_from_u16(ble::SERVICE_UUID_16);
    service_data.contains_key(&service)
}

/// What a lookup's answer has a box called.
pub open spec fn name_in(answer: Option<Properties>) -> Seq<char> {
    match answer {
        Some(p) => if p.local_name is Some {
            scan::text_of(p.local_name)->0
        } else if p.advertisement_name is Some {
            scan::text_of(p.advertisement_name)->0
        } else {
            "<unnamed>"@
        },
        None => "<unnamed>"@,
    }
}

/// What to call a box, given what a properties lookup answered.
pub fn name_of(answer: Option<Properties>) -> (name: String)
    ensures
        name@ == name_in(answer),
{
    match answer {
        Some(p) => match p.local_name {
            Some(name) => name,
            None => match p.advertisement_name {
                Some(name) => name,
                None => "<unnamed>".to_owned(),
            },
        },
        None => "<unnamed>".to_owned(),
    }
}

/// What to do after an attempt to connect.
#[derive(Debug)]
pub enum Opening {
    /// The link is up.
    Opened,
    /// Look for the box again, then try once more. The platform forgets a peripheral that
    /// isn't being scanned for, so the handle from the discovery can already be stale.
    Rediscover { reason: String },
    /// Give up.
    Refused(Error),
}

/// What to do after an attempt to connect to the box called `name`. `earlier` is why the
/// attempt before this one failed, where there was one: one rediscovery and one more
/// attempt, and the reason reported is the first one.
pub fn after_connect(name: &str, earlier: Option<String>, attempt: Result<(), String>) -> (next:
    Opening)
    ensures
        match attempt {
            Ok(_) => next is Opened,
            Err(why) => match earlier {
                None => next matches Opening::Rediscover { reason } && reason == why,
                Some(first) => next matches Opening::Refused(Error::Connect { name: called, reason })
                    && called@ == name@ && reason == first,
            },
        },
{
    match attempt {
        Ok(_) => Opening::Opened,
        Err(why) => match earlier {
            None => Opening::Rediscover { reason: why },
            Some(first) => Opening::Refused(
                Error::Connect { name: name.to_owned(), reason: first },
            ),
        },
    }
}

/// What an attempt to connect failed with when it went unanswered.
pub open spec fn unanswered() -> Seq<char> {
    "no answer in "@ + text::decimal(CONNECT_GIVE_UP_SECS as nat) + "s"@
}

/// That, in words.
pub fn no_answer() -> (why: String)
    ensures
        why@ == unanswered(),
{
    let mut why = String::new();
    why.push_str("no answer in ");
    text::put_decimal(&mut why, CONNECT_GIVE_UP_SECS as u128);
    why.push_str("s");
    assert(why@ =~= unanswered());
    why
}

/// What to do after looking for a peripheral that the adapter has forgotten.
#[derive(Debug)]
pub enum Rediscovery {
    Found,
    /// Look again, after this long.
    Wait(Duration),
    GiveUp(Error),
}

/// A conversation goes on for so long.
pub open spec fn talks_on(elapsed: Duration) -> bool {
    elapsed@ < SESSION_CAP_SECS * 1_000_000_000
}

/// A search goes on for so long.
pub open spec fn looks_on(searched: Duration) -> bool {
    searched@ < CONNECT_GIVE_UP_SECS * 1_000_000_000
}

/// What to do after a look, so long into the search.
pub fn after_look(found: bool, searched: Duration) -> (next: Rediscovery)
    requires
        searched.wf(),
    ensures
        next is Wait <==> !found && looks_on(searched),
        if found {
            next is Found
        } else if searched@ < CONNECT_GIVE_UP_SECS * 1_000_000_000 {
            next matches Rediscovery::Wait(d) && d.wf() && d@ == REDISCOVER_MILLIS * 1_000_000
        } else {
            next matches Rediscovery::GiveUp(Error::NoTentacle { filter }) && filter is None
        },
{
    if found {
        Rediscovery::Found
    } else if searched.as_nanos() < CONNECT_GIVE_UP_SECS as u128 * 1_000_000_000 {
        Rediscovery::Wait(Duration::from_millis(REDISCOVER_MILLIS))
    } else {
        Rediscovery::GiveUp(Error::NoTentacle { filter: None })
    }
}

/// A calibrator for one pass.
pub fn one_block(origin: Instant) -> (cal: Calibrator)
    ensures
        cal.wf(),
        cal.origin == origin,
        cal.block@ == ONE_BLOCK_SECS * 1_000_000_000,
        cal.interval@ == jam::CONNECTION_INTERVAL_MILLIS * 1_000_000,
        cal.samples@.len() == 0,
        cal.undecoded == 0,
{
    Calibrator::since(origin).with_block(Duration::from_secs(ONE_BLOCK_SECS))
}

/// A conversation with a connected box: it is read on the dither schedule until it hangs
/// up, or until [`SESSION_CAP_SECS`].
#[derive(Debug)]
pub struct Conversation {
    pub calibrator: Calibrator,
    /// Reads that were answered.
    pub reads: u64,
    /// ...of those, the ones that were round trips.
    pub round_trips: usize,
}

impl Conversation {
    pub open spec fn wf(self) -> bool {
        &&& self.calibrator.wf()
        &&& self.round_trips <= self.reads
    }

    pub fn new(calibrator: Calibrator) -> (c: Conversation)
        ensures
            c.calibrator == calibrator,
            c.reads == 0,
            c.round_trips == 0,
            calibrator.wf() ==> c.wf(),
    {
        Conversation { calibrator, reads: 0, round_trips: 0 }
    }

    /// Whether to read once more, so long into the conversation.
    pub fn goes_on(&self, elapsed: Duration) -> (yes: bool)
        ensures
            yes == talks_on(elapsed),
            yes == (elapsed@ < SESSION_CAP_SECS * 1_000_000_000),
    {
        elapsed.as_nanos() < SESSION_CAP_SECS as u128 * 1_000_000_000
    }

    /// Takes in the answer to one read, with the host stamps either side of it, and says
    /// how long to wait before the next.
    pub fn heard(&mut self, bytes: &[u8], sent: Instant, received: Instant) -> (wait: Duration)
        requires
            old(self).wf(),
            old(self).reads < usize::MAX,
            old(self).reads < u64::MAX,
        ensures
            final(self).wf(),
            final(self).reads == old(self).reads + 1,
            wait.wf(),
            wait@ == dither_micros(final(self).reads as nat) * 1_000,
            match vendor_reading(bytes@) {
                Some(tc) => final(self).round_trips == old(self).round_trips + 1
                    && final(self).calibrator.samples@ == old(self).calibrator.samples@.push(
                    jam::read_sample(old(self).calibrator.origin, tc, sent, received),
                ) && final(self).calibrator.undecoded == old(self).calibrator.undecoded,
                None => final(self).round_trips == old(self).round_trips
                    && final(self).calibrator.samples@ == old(self).calibrator.samples@ && (
                old(self).calibrator.undecoded < usize::MAX ==> final(self).calibrator.undecoded
                    == old(self).calibrator.undecoded + 1),
            },
            final(self).calibrator.origin == old(self).calibrator.origin,
            final(self).calibrator.block == old(self).calibrator.block,
            final(self).calibrator.interval == old(self).calibrator.interval,
    {
        match vendor_timecode(bytes) {
            Some(tc) => {
                proof {
                    ble::a_parsed_timecode_is_in_range(framed(bytes@));
                }
                self.calibrator.round_trip(&tc, sent, received);
                self.round_trips = self.round_trips + 1;
            },
            None => self.calibrator.undecoded(),
        }
        self.reads = self.reads + 1;
        dither(self.reads)
    }
}

/// The advertisement half of a [`Pass`]: the calibrator holding the round trips, and the
/// window that decides what else reaches it.
#[derive(Debug)]
pub struct Adverts {
    pub calibrator: Calibrator,
    pub opened: Instant,
    pub window: Duration,
    pub taken: usize,
}

/// Whether a window is open: it is how long it is, not one reading longer.
pub open spec fn is_open(opened: Instant, window: Duration, now: Instant) -> bool {
    if now@ >= opened@ {
        now@ - opened@ < window@
    } else {
        0 < window@
    }
}

impl Adverts {
    pub open spec fn wf(self) -> bool {
        &&& self.calibrator.wf()
        &&& self.opened.wf()
        &&& self.window.wf()
        &&& self.taken <= self.calibrator.samples@.len()
    }

    pub fn new(calibrator: Calibrator, opened: Instant, window: Duration) -> (a: Adverts)
        ensures
            a == (Adverts { calibrator, opened, window, taken: 0 }),
    {
        Adverts { calibrator, opened, window, taken: 0 }
    }

    /// Takes in an advertisement, if the window is still open, and says whether it was.
    pub fn take(&mut self, timecode: &Timecode, at: Instant) -> (counted: bool)
        requires
            old(self).wf(),
            at.wf(),
            !timecode.rate.drop_frame,
        ensures
            final(self).wf(),
            counted == is_open(old(self).opened, old(self).window, at),
            final(self).opened == old(self).opened,
            final(self).window == old(self).window,
            counted ==> final(self).taken == old(self).taken + 1
                && final(self).calibrator.samples@ == old(self).calibrator.samples@.push(
                jam::one_way_sample(old(self).calibrator.origin, Stream::Advert, *timecode, at),
            ),
            counted ==> final(self).calibrator.origin == old(self).calibrator.origin
                && final(self).calibrator.block == old(self).calibrator.block
                && final(self).calibrator.interval == old(self).calibrator.interval
                && final(self).calibrator.undecoded == old(self).calibrator.undecoded,
            !counted ==> *final(self) == *old(self),
    {
        if !self.open(at) {
            return false;
        }
        self.calibrator.advert(timecode, at, Link::Down);
        let n: usize = self.calibrator.samples();
        assert(self.taken < n);
        self.taken = self.taken + 1;
        true
    }

    /// Whether advertisements are still being pooled.
    pub fn open(&self, now: Instant) -> (yes: bool)
        requires
            self.opened.wf(),
            now.wf(),
        ensures
            yes == is_open(self.opened, self.window, now),
    {
        let since = now.saturating_duration_since(self.opened);
        since.as_nanos() < self.window.as_nanos()
    }
}

/// One calibration in progress: the round trips are taken, the advertisements are not yet.
///
/// The box has been disconnected by the time there is one of these, so every advertisement
/// fed in from here is free-running by construction, which is why [`Pass::advert`] takes
/// no [`Link`] and there is no way to record one wrongly.
#[derive(Debug)]
pub struct Pass {
    pub device: String,
    pub name: String,
    pub round_trips: usize,
    pub connected_for: Duration,
    pub adverts: Adverts,
}

impl Pass {
    pub open spec fn wf(self) -> bool {
        self.adverts.wf()
    }

    /// A pass over what a conversation collected. The window opens at `closed`, when the
    /// link went down, and not when it came up: an advertisement caught while a link was
    /// up lands later against the box's own stamp.
    pub fn new(
        device: String,
        name: String,
        talk: Conversation,
        connected_for: Duration,
        closed: Instant,
        window: Duration,
    ) -> (pass: Pass)
        requires
            talk.wf(),
            closed.wf(),
            window.wf(),
        ensures
            pass.wf(),
            pass.device == device,
            pass.name == name,
            pass.round_trips == talk.round_trips,
            pass.connected_for == connected_for,
            pass.adverts == (Adverts {
                calibrator: talk.calibrator,
                opened: closed,
                window,
                taken: 0,
            }),
    {
        Pass {
            device,
            name,
            round_trips: talk.round_trips,
            connected_for,
            adverts: Adverts::new(talk.calibrator, closed, window),
        }
    }

    /// Which box this was measured on. The constant belongs to this box and this host.
    pub fn device(&self) -> (device: &String)
        ensures
            *device == self.device,
    {
        &self.device
    }

    /// What that box calls itself, or `<unnamed>` if it answered no properties lookup.
    pub fn name(&self) -> (name: &str)
        ensures
            name@ == self.name@,
    {
        self.name.as_str()
    }

    /// Round trips taken.
    pub fn round_trips(&self) -> (n: usize)
        ensures
            n == self.round_trips,
    {
        self.round_trips
    }

    /// How long the link lasted.
    pub fn connected_for(&self) -> (d: Duration)
        ensures
            d == self.connected_for,
    {
        self.connected_for
    }

    /// Free-running advertisements taken in so far.
    pub fn adverts(&self) -> (n: usize)
        ensures
            n == self.adverts.taken,
    {
        self.adverts.taken
    }

    /// Feeds one of this box's advertisements in, and says whether it counted.
    ///
    /// `at` wants to be when the advertisement came off the stream. `false` means the
    /// window has closed and the reading was dropped, which is not a failure. Feed only
    /// the box [`Pass::device`] names.
    pub fn advert(&mut self, timecode: &Timecode, at: Instant) -> (counted: bool)
        requires
            old(self).wf(),
            at.wf(),
            !timecode.rate.drop_frame,
        ensures
            final(self).wf(),
            counted == is_open(old(self).adverts.opened, old(self).adverts.window, at),
            final(self).device == old(self).device,
            final(self).name == old(self).name,
            final(self).round_trips == old(self).round_trips,
            final(self).connected_for == old(self).connected_for,
            final(self).adverts.opened == old(self).adverts.opened,
            final(self).adverts.window == old(self).adverts.window,
            counted ==> final(self).adverts.taken == old(self).adverts.taken + 1
                && final(self).adverts.calibrator.samples@
                == old(self).adverts.calibrator.samples@.push(
                jam::one_way_sample(
                    old(self).adverts.calibrator.origin,
                    Stream::Advert,
                    *timecode,
                    at,
                ),
            ),
            counted ==> final(self).adverts.calibrator.origin
                == old(self).adverts.calibrator.origin && final(self).adverts.calibrator.block
                == old(self).adverts.calibrator.block && final(self).adverts.calibrator.interval
                == old(self).adverts.calibrator.interval
                && final(self).adverts.calibrator.undecoded
                == old(self).adverts.calibrator.undecoded,
            !counted ==> *final(self) == *old(self),
    {
        self.adverts.take(timecode, at)
    }

    /// Whether advertisements are still being pooled as of `now`.
    pub fn open(&self, now: Instant) -> (yes: bool)
        requires
            self.wf(),
            now.wf(),
        ensures
            yes == is_open(self.adverts.opened, self.adverts.window, now),
    {
        self.adverts.open(now)
    }

    /// When the window shuts, after which [`Pass::advert`] drops everything.
    pub fn closes_at(&self) -> (at: Instant)
        requires
            self.wf(),
            self.adverts.opened@ + self.adverts.window@ <= crate::time::MAX_NANOS,
        ensures
            at.wf(),
            at@ == self.adverts.opened@ + self.adverts.window@,
    {
        match self.adverts.opened.checked_add(self.adverts.window) {
            Some(at) => at,
            None => self.adverts.opened,
        }
    }

    /// Reduces what has been collected, or says why it cannot be.
    ///
    /// Cheap enough to call on every advertisement, which is the way to use it: take the
    /// first answer that is both `Ok` and settled rather than waiting the window out.
    pub fn finish(&self) -> (result: Result<Calibration, Flaw>)
        requires
            self.wf(),
        ensures
            ({
                let cal = self.adverts.calibrator;
                let block = cal.block@ as int;
                let interval = cal.interval@ as int;
                match result {
                    Err(flaw) => Some(flaw@) == reduce::flaw_of(
                        cal.samples@,
                        block,
                        interval,
                    ),
                    Ok(c) => reduce::flaw_of(cal.samples@, block, interval) is None
                        && reduce::is_calibration(c, cal.samples@, block, interval, cal.undecoded)
                        && c.wf(),
                }
            }),
    {
        self.adverts.calibrator.finish()
    }
}

/// The wait before the `n`th read, in microseconds.
pub open spec fn dither_micros(n: nat) -> nat {
    (n * DITHER_STEP as nat) % 0x1_0000_0000_0000_0000 % DITHER_SPAN as nat
}

/// How long to wait before the `n`th read, so that the moment of asking sweeps the
/// connection anchor grid instead of landing on one phase of it.
///
/// A read handed to the controller waits for the next connection anchor before it goes
/// anywhere, so most of what a round trip measures is where in the 30 ms between two of
/// them it was asked. **The shortest round trip is the entire measurement**, and it only
/// happens when the asking lands just before an anchor. Stepping by a prime number of
/// microseconds across a span slightly wider than the interval walks every phase of it.
pub fn dither(n: u64) -> (wait: Duration)
    ensures
        wait.wf(),
        wait@ == dither_micros(n as nat) * 1_000,
{
    let stepped: u64 = n.wrapping_mul(DITHER_STEP);
    Duration::from_micros(stepped % DITHER_SPAN)
}

/// A vendor payload with a timecode record's header put back on.
pub open spec fn framed(bytes: Seq<u8>) -> Seq<u8> {
    seq![ble::KIND_TIMECODE, 0u8] + bytes
}

/// The timecode in a vendor payload.
pub open spec fn vendor_reading(bytes: Seq<u8>) -> Option<Timecode> {
    match ble::advert_in(framed(bytes)) {
        Some(Advert::Timecode(tc)) => Some(tc),
        _ => None,
    }
}

/// A vendor characteristic payload as a timecode.
///
/// It carries the advertisement's timecode record with its two header bytes taken off, so
/// putting a header back on and parsing that is the whole of the decode, and reuses the
/// range checks. Byte 1 is skipped rather than read, so what goes there doesn't matter.
pub fn vendor_timecode(bytes: &[u8]) -> (tc: Option<Timecode>)
    ensures
        tc == vendor_reading(bytes@),
{
    let mut frame: Vec<u8> = Vec::new();
    frame.push(ble::KIND_TIMECODE);
    frame.push(0);
    let mut rest: Vec<u8> = vstd::slice::slice_to_vec(bytes);
    frame.append(&mut rest);
    assert(frame@ =~= framed(bytes@));
    match ble::parse(frame.as_slice()) {
        Some(Advert::Timecode(tc)) => Some(tc),
        _ => None,
    }
}

/// The dither's step times this is one more than a multiple of its span.
pub const DITHER_INVERSE: u64 = 30_679;

/// The dither visits every microsecond of its span before it repeats one: among any
/// [`DITHER_SPAN`] reads in a row, each wait comes up exactly once.
pub proof fn the_dither_visits_every_microsecond(from: nat, micros: nat) -> (n: nat)
    requires
        micros < DITHER_SPAN,
        (from + DITHER_SPAN) * DITHER_STEP < 0x1_0000_0000_0000_0000,
    ensures
        from <= n < from + DITHER_SPAN,
        dither_micros(n) == micros,
        forall|m: nat|
            from <= m < from + DITHER_SPAN && #[trigger] dither_micros(m) == micros ==> m == n,
{
    // The read that is congruent to `micros` times the inverse, at or after `from`.
    let target = micros * DITHER_INVERSE;
    let n = (from + (target - from) % (DITHER_SPAN as int)) as nat;
    lemma_dither_phase(n, micros, (target - from) / (DITHER_SPAN as int));
    assert forall|m: nat|
        from <= m < from + DITHER_SPAN && #[trigger] dither_micros(m) == micros implies m == n by {
        lemma_dither_turns(m, n);
    }
    n
}

/// Where a read is so many spans short of `micros` times the inverse, its wait is
/// `micros`.
proof fn lemma_dither_phase(n: nat, micros: nat, turns: int)
    requires
        micros < DITHER_SPAN,
        n == micros * DITHER_INVERSE - turns * DITHER_SPAN,
        n * DITHER_STEP < 0x1_0000_0000_0000_0000,
    ensures
        dither_micros(n) == micros,
{
    let k = micros * 7_837 - turns * DITHER_STEP;
    assert(n * DITHER_STEP == DITHER_SPAN * k + micros) by (nonlinear_arith)
        requires
            n == micros * DITHER_INVERSE - turns * DITHER_SPAN,
            k == micros * 7_837 - turns * DITHER_STEP,
            DITHER_INVERSE * DITHER_STEP == DITHER_SPAN * 7_837 + 1,
    ;
    vstd::arithmetic::div_mod::lemma_small_mod(
        (n * DITHER_STEP) as nat,
        0x1_0000_0000_0000_0000,
    );
    vstd::arithmetic::div_mod::lemma_fundamental_div_mod_converse(
        (n * DITHER_STEP) as int,
        DITHER_SPAN as int,
        k,
        micros as int,
    );
}

/// Two reads with the same wait are whole spans apart.
proof fn lemma_dither_turns(m: nat, n: nat)
    requires
        dither_micros(m) == dither_micros(n),
        m * DITHER_STEP < 0x1_0000_0000_0000_0000,
        n * DITHER_STEP < 0x1_0000_0000_0000_0000,
        -DITHER_SPAN < m - n < DITHER_SPAN,
    ensures
        m == n,
{
    let x = (m * DITHER_STEP) as int;
    let y = (n * DITHER_STEP) as int;
    vstd::arithmetic::div_mod::lemma_small_mod(x as nat, 0x1_0000_0000_0000_0000);
    vstd::arithmetic::div_mod::lemma_small_mod(y as nat, 0x1_0000_0000_0000_0000);
    vstd::arithmetic::div_mod::lemma_fundamental_div_mod(x, DITHER_SPAN as int);
    vstd::arithmetic::div_mod::lemma_fundamental_div_mod(y, DITHER_SPAN as int);
    let q = x / (DITHER_SPAN as int) - y / (DITHER_SPAN as int);
    let d = m - n;
    // The step times the distance is a multiple of the span, so the distance is one too.
    assert(d * DITHER_STEP == DITHER_SPAN * q) by (nonlinear_arith)
        requires
            d == m - n,
            x == m * DITHER_STEP,
            y == n * DITHER_STEP,
            x == DITHER_SPAN * (x / (DITHER_SPAN as int)) + x % (DITHER_SPAN as int),
            y == DITHER_SPAN * (y / (DITHER_SPAN as int)) + y % (DITHER_SPAN as int),
            x % (DITHER_SPAN as int) == y % (DITHER_SPAN as int),
            q == x / (DITHER_SPAN as int) - y / (DITHER_SPAN as int),
    ;
    let k = q * DITHER_INVERSE - d * 7_837;
    assert(d == DITHER_SPAN * k) by (nonlinear_arith)
        requires
            d * DITHER_STEP == DITHER_SPAN * q,
            k == q * DITHER_INVERSE - d * 7_837,
            DITHER_INVERSE * DITHER_STEP == DITHER_SPAN * 7_837 + 1,
    ;
    assert(k == 0) by (nonlinear_arith)
        requires
            d == DITHER_SPAN * k,
            -DITHER_SPAN < d < DITHER_SPAN,
            DITHER_SPAN == 31_000,
    ;
}

/// A window that has closed stays closed, and it is open for exactly as long as it is.
pub proof fn a_closed_window_stays_closed(
    opened: Instant,
    window: Duration,
    now: Instant,
    later: Instant,
)
    requires
        now@ <= later@,
        !is_open(opened, window, now),
    ensures
        !is_open(opened, window, later),
{
}

/// The advertisement's record and the vendor's are the same one: what an advertisement
/// carries behind its header reads the same without it.
pub proof fn a_vendor_payload_is_an_advertisement_without_its_header(data: Seq<u8>)
    requires
        data.len() >= 2,
        data[0] == ble::KIND_TIMECODE,
    ensures
        ble::advert_in(data) matches Some(Advert::Timecode(tc)) ==> vendor_reading(data.skip(2))
            == Some(tc),
        ble::advert_in(data) is None ==> vendor_reading(data.skip(2)) is None,
{
    ble::byte_one_is_never_read(data, 0);
    assert(framed(data.skip(2)) =~= data.update(1, 0));
}

/// One block, whatever the moment: reads that all fall inside one block length of the
/// origin are one block, through which no line is fitted, so nothing is de-trended and
/// when the connection happened makes no difference.
pub proof fn one_block_fits_no_line(reads: Seq<jam::Sample>, block: int)
    requires
        block > 0,
        forall|i: int| 0 <= i < reads.len() ==> 0 <= (#[trigger] reads[i]).host < block,
    ensures
        reads.len() > 0 ==> reduce::groups(reads, block) == seq![reads],
        reduce::line_through(
            reduce::points_of(reduce::reports_of(reduce::groups(reads, block), block), block),
        ) is None,
{
    lemma_one_group(reads, block);
    let reports = reduce::reports_of(reduce::groups(reads, block), block);
    lemma_no_more_points(reports, block);
}

proof fn lemma_one_group(reads: Seq<jam::Sample>, block: int)
    requires
        block > 0,
        forall|i: int| 0 <= i < reads.len() ==> 0 <= (#[trigger] reads[i]).host < block,
    ensures
        reads.len() > 0 ==> reduce::groups(reads, block) == seq![reads],
        reads.len() == 0 ==> reduce::groups(reads, block).len() == 0,
    decreases reads.len(),
{
    if reads.len() > 0 {
        let front = reads.drop_last();
        lemma_one_group(front, block);
        vstd::arithmetic::div_mod::lemma_basic_div(reads.last().host as int, block);
        if front.len() > 0 {
            vstd::arithmetic::div_mod::lemma_basic_div(front.last().host as int, block);
            assert(front.last() == reads[front.len() - 1]);
            assert(seq![front].update(0, front.push(reads.last())) =~= seq![reads]) by {
                assert(front.push(reads.last()) =~= reads);
            }
        } else {
            assert(reduce::groups(reads, block) =~= seq![seq![reads.last()]]);
            assert(seq![reads.last()] =~= reads);
        }
    }
}

proof fn lemma_no_more_points(reports: Seq<reduce::BlockReport>, block: int)
    ensures
        reduce::points_of(reports, block).len() <= reports.len(),
    decreases reports.len(),
{
    if reports.len() > 0 {
        lemma_no_more_points(reports.drop_last(), block);
    }
}

} // verus!
