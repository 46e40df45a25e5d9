//! One connection to a box, and the run of them.
//!
//! The box drops any connection after about 6.6 s, whatever the client does, so a run that
//! wants to watch the service for a minute has to keep re-establishing it. Whoever owns the
//! adapter does what is asked for here and hands back what came of it.

use vstd::prelude::*;

use crate::ble::jam;
use crate::ble::scan::{self, CentralEvent};
use crate::ble::{self, uuids};
use crate::dump;
use crate::gatt;
use crate::gatt::phase::{self, PhaseView};
use crate::gatt::{Run, RunView};
use crate::tentacle;
use crate::text;
use crate::time::{Duration, Instant};

verus! {

/// How a run is to go.
#[derive(Clone, Copy, Debug, PartialEq, Eq, Structural)]
pub struct Options {
    /// How long to listen, in seconds. 0 listens until killed.
    pub seconds: u64,
    /// Keep scanning while connected, to log advertisements beside notifications.
    pub scan: bool,
    /// How often to re-read the readable characteristics, in milliseconds. 0 reads them
    /// only once, when connecting.
    pub poll_ms: u64,
    /// Don't subscribe to anything, only read.
    pub no_subscribe: bool,
    /// Reconnect each time the box drops the link, until the run's time is up.
    pub reconnect: bool,
}

/// Whether the run's overall deadline has passed.
pub open spec fn is_expired(opt: Options, elapsed: nat) -> bool {
    opt.seconds > 0 && elapsed >= opt.seconds * 1_000_000_000
}

/// Whether the run's overall deadline has passed. Without one it never expires.
pub fn expired(opt: &Options, elapsed: Duration) -> (yes: bool)
    ensures
        yes == is_expired(*opt, elapsed@),
{
    opt.seconds > 0 && elapsed.as_nanos() >= opt.seconds as u128 * 1_000_000_000
}

/// What is left of a run, in nanoseconds.
pub open spec fn left_of(opt: Options, elapsed: nat) -> int {
    if opt.seconds * 1_000_000_000 >= elapsed {
        opt.seconds * 1_000_000_000 - elapsed
    } else {
        0
    }
}

/// What is left of the run, `None` where it has no end.
pub fn remaining(opt: &Options, elapsed: Duration) -> (left: Option<Duration>)
    ensures
        left matches Some(left) ==> left@ == left_of(*opt, elapsed@),
        match left {
            None => opt.seconds == 0,
            Some(left) => opt.seconds > 0 && left.wf() && left@ == (if opt.seconds * 1_000_000_000
                >= elapsed@ {
                opt.seconds * 1_000_000_000 - elapsed@
            } else {
                0
            }),
        },
{
    if opt.seconds == 0 {
        return None;
    }
    Some(Duration::from_secs(opt.seconds).saturating_sub(elapsed))
}

/// How often to poll. A phase run schedules every read after the first by the dither, so
/// the period only decides how soon the first one comes, and it should come at once.
pub fn period(opt: &Options, phase_run: bool) -> (d: Duration)
    ensures
        d.wf(),
        d@ == (if phase_run || opt.poll_ms == 0 {
            1_000_000
        } else {
            opt.poll_ms * 1_000_000
        }),
{
    if phase_run || opt.poll_ms == 0 {
        Duration::from_millis(1)
    } else {
        Duration::from_millis(opt.poll_ms)
    }
}

/// Whether to poll at all.
pub fn polling(opt: &Options, phase_run: bool) -> (yes: bool)
    ensures
        yes == (opt.poll_ms > 0 || phase_run),
{
    opt.poll_ms > 0 || phase_run
}

/// What is to be done with a characteristic.
#[derive(Clone, Copy, Debug, PartialEq, Eq, Structural)]
pub struct Visit {
    pub read: bool,
    pub subscribe: bool,
    /// Whether it is worth reading again.
    pub poll: bool,
}

/// What is to be done with a characteristic, if anything.
pub open spec fn visit_of(
    opt: Options,
    phase_run: bool,
    service: u128,
    uuid: u128,
    can_read: bool,
    can_notify: bool,
) -> Option<Visit> {
    if service != scan::tentacle_service() {
        None
    } else {
        Some(
            Visit {
                read: can_read,
                subscribe: can_notify && !opt.no_subscribe,
                poll: can_read && (!phase_run || uuid == jam::TIMECODE_CHAR),
            },
        )
    }
}

/// What is to be done with a characteristic of this service, if anything: only the vendor
/// service is visited. In a phase run a read of anything but the timecode costs a
/// connection event and measures nothing.
pub fn visit(
    opt: &Options,
    phase_run: bool,
    service: u128,
    uuid: u128,
    can_read: bool,
    can_notify: bool,
) -> (visit: Option<Visit>)
    ensures
        visit == visit_of(*opt, phase_run, service, uuid, can_read, can_notify),
        visit == (if service != scan::tentacle_service() {
            None::<Visit>
        } else {
            Some(
                Visit {
                    read: can_read,
                    subscribe: can_notify && !opt.no_subscribe,
                    poll: can_read && (!phase_run || uuid == jam::TIMECODE_CHAR),
                },
            )
        }),
{
    if service != uuids::uuid_from_u16(ble::SERVICE_UUID_16) {
        return None;
    }
    Some(
        Visit {
            read: can_read,
            subscribe: can_notify && !opt.no_subscribe,
            poll: can_read && (!phase_run || uuid == jam::TIMECODE_CHAR),
        },
    )
}

/// The line that a run's first session starts with.
pub open spec fn title_text(name: Seq<char>) -> Seq<char> {
    Seq::<char>::empty() + "\n=== "@ + name + ": vendor service "@ + uuids::uuid_text(
        scan::tentacle_service(),
    ) + "\n"@
}

/// The line that a run's first session starts with.
pub fn title(name: &str) -> (out: String)
    ensures
        out@ == title_text(name@),
{
    let mut out = String::new();
    out.push_str("\n=== ");
    out.push_str(name);
    out.push_str(": vendor service ");
    out.push_str(uuids::uuid_string(uuids::uuid_from_u16(ble::SERVICE_UUID_16)).as_str());
    out.push_str("\n");
    out
}

/// A characteristic's line in the tree, with its properties as the platform writes them.
pub open spec fn tree_text(uuid: u128, properties: Seq<char>) -> Seq<char> {
    Seq::<char>::empty() + "  "@ + uuids::uuid_text(uuid) + "  "@ + properties + "\n"@
}

/// A characteristic's line in the tree.
pub fn tree_line(uuid: u128, properties: &str) -> (out: String)
    ensures
        out@ == tree_text(uuid, properties@),
{
    let mut out = String::new();
    out.push_str("  ");
    out.push_str(uuids::uuid_string(uuid).as_str());
    out.push_str("  ");
    out.push_str(properties);
    out.push_str("\n");
    out
}

/// What a descriptor that isn't read gets in the log.
pub open spec fn unread_text(uuid: u128) -> Seq<char> {
    Seq::<char>::empty() + "      descriptor "@ + uuids::uuid_text(uuid)
        + "  (client config, not read)\n"@
}

/// Whether a descriptor is worth reading, and what to log if not. A client configuration is
/// just our own subscribe bits reflected back, and reading one is not free: it is a round
/// trip on a link this device is quick to drop.
pub fn worth_reading(uuid: u128, first: bool) -> (r: Result<(), Option<String>>)
    ensures
        match r {
            Ok(_) => uuid != uuids::short_uuid(gatt::CCCD),
            Err(log) => uuid == uuids::short_uuid(gatt::CCCD) && (match log {
                Some(line) => first && line@ == unread_text(uuid),
                None => !first,
            }),
        },
{
    let config: bool = match uuids::short(uuid) {
        Some(short) => {
            proof {
                if uuid == uuids::short_uuid(gatt::CCCD) {
                    uuids::a_short_uuid_is_found_again(short, gatt::CCCD);
                }
            }
            short == gatt::CCCD
        },
        None => false,
    };
    if !config {
        return Ok(());
    }
    if !first {
        return Err(None);
    }
    let mut out = String::new();
    out.push_str("      descriptor ");
    out.push_str(uuids::uuid_string(uuid).as_str());
    out.push_str("  (client config, not read)\n");
    Err(Some(out))
}

/// What a read of a descriptor comes to in the log.
pub open spec fn descriptor_text(uuid: u128, read: Result<Seq<u8>, Seq<char>>) -> Seq<char> {
    let head = Seq::<char>::empty() + "      descriptor "@ + uuids::uuid_text(uuid);
    match read {
        Ok(bytes) => head + "  = "@ + text::hex_spaced(bytes) + "  "@ + text::quoted(
            text::lossy_text(bytes),
        ) + "\n"@,
        Err(why) => head + "  read failed: "@ + why + "\n"@,
    }
}

/// The outcome of a read, as bytes or a text.
pub open spec fn outcome(read: Result<&[u8], &str>) -> Result<Seq<u8>, Seq<char>> {
    match read {
        Ok(bytes) => Ok(bytes@),
        Err(why) => Err(why@),
    }
}

/// What a read of a descriptor comes to in the log.
pub fn descriptor_line(uuid: u128, read: Result<&[u8], &str>) -> (out: String)
    ensures
        out@ == descriptor_text(uuid, outcome(read)),
{
    let mut out = String::new();
    out.push_str("      descriptor ");
    out.push_str(uuids::uuid_string(uuid).as_str());
    match read {
        Ok(bytes) => {
            out.push_str("  = ");
            out.push_str(text::hex(bytes).as_str());
            out.push_str("  ");
            let said = text::lossy(bytes);
            out.push_str(text::quote(said.as_str()).as_str());
            out.push_str("\n");
        },
        Err(why) => {
            out.push_str("  read failed: ");
            out.push_str(why);
            out.push_str("\n");
        },
    }
    out
}

/// What a first read of a characteristic comes to in the log. The tree is the same every
/// session, so what went well is said only in the first.
pub open spec fn first_read_text(first: bool, read: Result<Seq<u8>, Seq<char>>) -> Seq<char> {
    match read {
        Ok(bytes) => if first {
            Seq::<char>::empty() + "      read = "@ + text::hex_spaced(bytes) + gatt::gloss_text(
                bytes,
            ) + "\n"@
        } else {
            Seq::empty()
        },
        Err(why) => Seq::<char>::empty() + "      read failed: "@ + why + "\n"@,
    }
}

/// What a first read of a characteristic comes to in the log.
pub fn first_read_line(first: bool, read: Result<&[u8], &str>) -> (out: String)
    ensures
        out@ == first_read_text(first, outcome(read)),
{
    let mut out = String::new();
    match read {
        Ok(bytes) => {
            if first {
                out.push_str("      read = ");
                out.push_str(text::hex(bytes).as_str());
                out.push_str(gatt::gloss(bytes).as_str());
                out.push_str("\n");
            } else {
                assert(out@ =~= Seq::empty());
            }
        },
        Err(why) => {
            out.push_str("      read failed: ");
            out.push_str(why);
            out.push_str("\n");
        },
    }
    out
}

/// What a subscription comes to in the log; `why` is why it failed, if it did.
pub open spec fn subscribe_text(first: bool, why: Option<Seq<char>>) -> Seq<char> {
    match why {
        None => if first {
            "      subscribed\n"@
        } else {
            Seq::empty()
        },
        Some(why) => Seq::<char>::empty() + "      subscribe failed: "@ + why + "\n"@,
    }
}

/// What a subscription comes to in the log; `why` is why it failed, if it did.
pub fn subscribe_line(first: bool, why: Option<&str>) -> (out: String)
    ensures
        out@ == subscribe_text(first, crate::display::filter_text(why)),
{
    let mut out = String::new();
    match why {
        None => {
            if first {
                out.push_str("      subscribed\n");
            }
            assert(out@ =~= subscribe_text(first, None));
        },
        Some(why) => {
            out.push_str("      subscribe failed: ");
            out.push_str(why);
            out.push_str("\n");
        },
    }
    out
}

/// Whether to warn, once, that the round trips of a run will not be round trips: a
/// subscribed read returns a notification rather than a response, and the samples it spoils
/// look perfectly ordinary.
pub fn spoils_the_samples(opt: &Options, phase_run: bool, first: bool) -> (yes: bool)
    ensures
        yes == (phase_run && first && !opt.no_subscribe),
{
    phase_run && first && !opt.no_subscribe
}

/// What can happen while a link is up.
#[derive(Debug)]
pub enum Happening<'a> {
    /// The run's time is up.
    Deadline,
    /// A notification arrived.
    Notified { uuid: u128, value: &'a [u8], at: Instant },
    /// No more of them will.
    NotificationsEnded,
    /// A read was answered; the stamps are either side of it.
    Answered { uuid: u128, sent: Instant, received: Instant, bytes: &'a [u8] },
    /// A read was not.
    Refused { uuid: u128, why: &'a str },
    /// Every characteristic has been read once more.
    Polled,
    /// The adapter heard an advertisement.
    Heard { event: &'a CentralEvent, at: Instant },
}

/// What to do next.
#[derive(Clone, Copy, Debug, PartialEq, Eq, Structural)]
pub enum Next {
    GoOn,
    /// Go on, with the next poll after this long.
    PollAfter(Duration),
    Stop,
}

/// What came of something that happened: what to log, what to record, what to do.
#[derive(Debug)]
pub struct Outcome {
    pub log: String,
    pub record: Option<String>,
    pub next: Next,
}

/// The moments a session goes by.
#[derive(Clone, Copy, Debug)]
pub struct Clock {
    /// When the run started.
    pub overall: Instant,
    /// When the link came up.
    pub start: Instant,
    pub now: Instant,
}

impl Clock {
    pub open spec fn wf(self) -> bool {
        self.overall.wf() && self.start.wf() && self.now.wf()
    }
}

/// How much later one moment is than another; nothing where it is earlier.
pub open spec fn since(earlier: Instant, now: Instant) -> nat {
    if now@ >= earlier@ {
        (now@ - earlier@) as nat
    } else {
        0
    }
}

/// One connection.
#[derive(Debug)]
pub struct Session {
    /// The peripheral that is connected to.
    pub target: String,
    pub name: String,
    /// How long it is known to have lived.
    pub lived: Duration,
    /// Whether the box has hung up.
    pub dead: bool,
}

/// What is recorded, if records are still being written.
pub open spec fn recorded(phase: Option<PhaseView>, record: Seq<char>) -> Option<Seq<char>> {
    match phase {
        Some(p) => if p.failed is None {
            Some(record)
        } else {
            None
        },
        None => None,
    }
}

/// The run after something happened.
pub open spec fn run_after(
    run: RunView,
    target: Seq<char>,
    happening: Happening,
) -> RunView {
    match happening {
        Happening::Notified { uuid, value, .. } => RunView {
            digests: gatt::noted(run.digests, uuid, value@),
            ..run
        },
        Happening::Answered { uuid, bytes, .. } => RunView {
            polls: gatt::noted(run.polls, uuid, bytes@),
            last: if run.phase is None && !gatt::is_old_news(run, uuid, bytes@) {
                run.last.insert(uuid, bytes@)
            } else {
                run.last
            },
            ..run
        },
        Happening::Polled => RunView {
            phase: match run.phase {
                Some(p) => Some(phase::waited(p)),
                None => None,
            },
            ..run
        },
        Happening::Heard { event, .. } => if is_mine(*event, target) {
            RunView {
                adverts: if run.adverts == usize::MAX {
                    usize::MAX
                } else {
                    (run.adverts + 1) as usize
                },
                ..run
            }
        } else {
            run
        },
        _ => run,
    }
}

/// Whether an advertisement worth a line came from the connected box.
pub open spec fn is_mine(event: CentralEvent, target: Seq<char>) -> bool {
    gatt::advert_text(event) is Some && scan::heard_from(event) == Some(target)
}

/// What is logged when something happens, so long into the run.
pub open spec fn log_after(
    run: RunView,
    target: Seq<char>,
    name: Seq<char>,
    happening: Happening,
    elapsed: nat,
) -> Seq<char> {
    match happening {
        Happening::Notified { uuid, value, .. } => gatt::log_text(
            elapsed,
            "NOTIFY"@,
            uuid,
            value@,
        ),
        Happening::NotificationsEnded => dump::stamp_text(elapsed) + "notification stream ended\n"@,
        Happening::Answered { uuid, bytes, .. } => if run.phase is None && !gatt::is_old_news(
            run,
            uuid,
            bytes@,
        ) {
            gatt::log_text(elapsed, "READ  "@, uuid, bytes@)
        } else {
            Seq::empty()
        },
        Happening::Refused { uuid, why } => dump::stamp_text(elapsed) + "READ   "@ + uuids::digits(
            uuid,
            0,
            8,
        ) + "  failed: "@ + why@ + "\n"@,
        Happening::Heard { event, .. } => match gatt::advert_text(*event) {
            Some(line) => dump::stamp_text(elapsed) + (if is_mine(*event, target) {
                name
            } else {
                "(other)"@
            }) + " "@ + line + "\n"@,
            None => Seq::empty(),
        },
        _ => Seq::empty(),
    }
}

/// What is recorded when something happens. Only the connected box's advertisements are:
/// another Tentacle on the same timeline is a second unknown offset, not a second reading
/// of this one.
pub open spec fn record_after(
    run: RunView,
    target: Seq<char>,
    happening: Happening,
    overall: Instant,
) -> Option<Seq<char>> {
    match happening {
        Happening::Notified { value, at, .. } => recorded(
            run.phase,
            phase::one_way_text("notify"@, overall, at, jam::vendor_reading(value@)),
        ),
        Happening::Answered { sent, received, bytes, .. } => recorded(
            run.phase,
            phase::round_trip_text(overall, sent, received, bytes@),
        ),
        Happening::Heard { event, at } => match tentacle::timecode_of(*event) {
            Some(tc) => if is_mine(*event, target) {
                recorded(run.phase, phase::one_way_text("advert"@, overall, at, Some(tc)))
            } else {
                None
            },
            None => None,
        },
        _ => None,
    }
}

/// The moments in something that happened are ones that can be told apart.
pub open spec fn happening_wf(happening: Happening) -> bool {
    match happening {
        Happening::Notified { at, .. } => at.wf(),
        Happening::Answered { sent, received, .. } => sent.wf() && received.wf(),
        Happening::Heard { at, .. } => at.wf(),
        _ => true,
    }
}

fn is_recording(run: &Run) -> (yes: bool)
    ensures
        yes == (run@.phase matches Some(p) && p.failed is None),
{
    match &run.phase {
        Some(p) => p.writing(),
        None => false,
    }
}

impl Session {
    pub fn new(target: String, name: String) -> (session: Session)
        ensures
            session.target == target,
            session.name == name,
            session.lived@ == 0,
            !session.dead,
    {
        Session { target, name, lived: Duration::zero(), dead: false }
    }

    /// Takes in something that happened while the link was up.
    ///
    /// The link going away is itself a result, and how long it lasted is the measurement.
    /// A phase run reads several times a second and the timecode is different every time,
    /// so it logs no reads: the records have them all.
    pub fn take(&mut self, run: &mut Run, happening: &Happening<'_>, clock: Clock) -> (done: Outcome)
        requires
            clock.wf(),
            happening_wf(*happening),
        ensures
            final(self).target == old(self).target,
            final(self).name == old(self).name,
            final(self).dead == (old(self).dead || happening is Refused),
            if happening is Notified || happening is Answered {
                final(self).lived.wf() && final(self).lived@ == since(clock.start, clock.now)
            } else {
                final(self).lived == old(self).lived
            },
            final(run)@ == run_after(old(run)@, old(self).target@, *happening),
            done.log@ == log_after(
                old(run)@,
                old(self).target@,
                old(self).name@,
                *happening,
                since(clock.overall, clock.now),
            ),
            scan::text_of(done.record) == record_after(
                old(run)@,
                old(self).target@,
                *happening,
                clock.overall,
            ),
            match *happening {
                Happening::Deadline | Happening::NotificationsEnded | Happening::Refused { .. } =>
                    done.next is Stop,
                Happening::Polled => match final(run)@.phase {
                    Some(p) => done.next matches Next::PollAfter(d) && d.wf() && d@
                        == jam::dither_micros(p.reads as nat) * 1_000,
                    None => done.next is GoOn,
                },
                _ => done.next is GoOn,
            },
    {
        let elapsed = clock.now.saturating_duration_since(clock.overall);
        let recording: bool = is_recording(run);
        let mut log = String::new();
        let mut record: Option<String> = None;
        let mut next: Next = Next::GoOn;
        match happening {
            Happening::Deadline => {
                next = Next::Stop;
                assert(log@ =~= Seq::empty());
            },
            Happening::Notified { uuid, value, at } => {
                self.lived = clock.now.saturating_duration_since(clock.start);
                if recording {
                    record =
                    Some(
                        phase::one_way(
                            "notify",
                            clock.overall,
                            *at,
                            jam::vendor_timecode(value),
                        ),
                    );
                }
                log = gatt::log_line(elapsed, "NOTIFY", *uuid, value);
                run.digests.add(*uuid, value);
            },
            Happening::NotificationsEnded => {
                dump::put_stamp(&mut log, elapsed);
                log.push_str("notification stream ended\n");
                assert(log@ =~= dump::stamp_text(elapsed@) + "notification stream ended\n"@);
                next = Next::Stop;
            },
            Happening::Answered { uuid, sent, received, bytes } => {
                if recording {
                    record = Some(phase::round_trip(clock.overall, *sent, *received, bytes));
                }
                self.lived = clock.now.saturating_duration_since(clock.start);
                assert(log@ =~= Seq::empty());
                if run.phase.is_none() {
                    if let Some(line) = run.note(*uuid, bytes, elapsed, "READ  ") {
                        log = line;
                    }
                }
                run.polls.add(*uuid, bytes);
            },
            Happening::Refused { uuid, why } => {
                dump::put_stamp(&mut log, elapsed);
                log.push_str("READ   ");
                log.push_str(uuids::tail(*uuid).as_str());
                log.push_str("  failed: ");
                log.push_str(why);
                log.push_str("\n");
                assert(log@ =~= dump::stamp_text(elapsed@) + "READ   "@ + uuids::digits(*uuid, 0, 8)
                    + "  failed: "@ + why@ + "\n"@);
                self.dead = true;
                next = Next::Stop;
            },
            Happening::Polled => {
                assert(log@ =~= Seq::empty());
                if let Some(p) = &mut run.phase {
                    next = Next::PollAfter(p.wait());
                }
            },
            Happening::Heard { event, at } => {
                assert(log@ =~= Seq::empty());
                if let Some(line) = gatt::advert_line(event) {
                    // Two boxes are usually in range and both advertise the same shape, so
                    // an unlabelled log invites reading one box's bytes as the other's.
                    let mine: bool = match scan::event_peripheral(event) {
                        Some(from) => *from == self.target,
                        None => false,
                    };
                    assert(mine == is_mine(**event, self.target@));
                    if mine {
                        run.adverts = run.adverts.saturating_add(1);
                        if recording {
                            if let Some(tc) = gatt::advert_timecode(event) {
                                record =
                                Some(phase::one_way("advert", clock.overall, *at, Some(tc)));
                            }
                        }
                    }
                    dump::put_stamp(&mut log, elapsed);
                    assert(log@ =~= dump::stamp_text(elapsed@));
                    log.push_str(
                        if mine {
                            self.name.as_str()
                        } else {
                            "(other)"
                        },
                    );
                    log.push_str(" ");
                    log.push_str(line.as_str());
                    log.push_str("\n");
                }
            },
        }
        Outcome { log, record, next }
    }

    /// Whether to unsubscribe. Tidying up over a link that has already gone away hangs
    /// rather than failing, so when the box has hung up, leave it hung up.
    pub fn tidies_up(&self) -> (yes: bool)
        ensures
            yes == !self.dead,
    {
        !self.dead
    }
}

/// What to do between two connections.
#[derive(Clone, Copy, Debug, PartialEq, Eq, Structural)]
pub enum Then {
    Converse,
    /// Look for the box again, then connect again.
    Rediscover,
    Connect,
    Stop,
}

/// What is logged when an attempt or a session fails.
pub open spec fn failure_text(elapsed: nat, what: Seq<char>, why: Seq<char>) -> Seq<char> {
    dump::stamp_text(elapsed) + what + why + "\n"@
}

fn failure_line(elapsed: Duration, what: &str, why: &str) -> (out: String)
    ensures
        out@ == failure_text(elapsed@, what@, why@),
{
    let mut out = String::new();
    dump::put_stamp(&mut out, elapsed);
    out.push_str(what);
    out.push_str(why);
    out.push_str("\n");
    assert(out@ =~= failure_text(elapsed@, what@, why@));
    out
}

/// Whether a run goes on after a connection has ended or could not be made.
pub open spec fn goes_on(opt: Options, elapsed: nat) -> bool {
    opt.reconnect && !is_expired(opt, elapsed)
}

/// What to do after an attempt to connect, and what to log. The platform forgets a
/// peripheral that isn't being scanned for, so a failed attempt looks for the box first.
pub fn after_attempt(opt: &Options, attempt: Result<(), &str>, elapsed: Duration) -> (r: (
    Then,
    String,
))
    ensures
        r.0 == Then::Stop <==> attempt is Err && !goes_on(*opt, elapsed@),
        match attempt {
            Ok(_) => r.0 == Then::Converse && r.1@ == Seq::<char>::empty(),
            Err(why) => r.0 == (if !opt.reconnect || is_expired(*opt, elapsed@) {
                Then::Stop
            } else {
                Then::Rediscover
            }) && r.1@ == failure_text(elapsed@, "connect failed: "@, why@),
        },
{
    match attempt {
        Ok(_) => {
            let log = String::new();
            assert(log@ =~= Seq::empty());
            (Then::Converse, log)
        },
        Err(why) => {
            let log = failure_line(elapsed, "connect failed: ", why);
            if !opt.reconnect || expired(opt, elapsed) {
                (Then::Stop, log)
            } else {
                (Then::Rediscover, log)
            }
        },
    }
}

/// What to do after a session, and what to log. Each session's life is kept so the run can
/// report the spread rather than a single number.
pub fn after_session(
    run: &mut Run,
    opt: &Options,
    session: Result<Duration, &str>,
    elapsed: Duration,
) -> (r: (Then, String))
    ensures
        r.0 == Then::Stop <==> !goes_on(*opt, elapsed@),
        r.0 == (if !opt.reconnect || is_expired(*opt, elapsed@) {
            Then::Stop
        } else {
            Then::Connect
        }),
        match session {
            Ok(life) => r.1@ == Seq::<char>::empty() && final(run)@ == (RunView {
                lives: old(run)@.lives.push(life),
                ..old(run)@
            }),
            Err(why) => r.1@ == failure_text(elapsed@, "session failed: "@, why@) && final(run)@
                == old(run)@,
        },
{
    let log: String = match session {
        Ok(life) => {
            run.lives.push(life);
            let log = String::new();
            assert(log@ =~= Seq::empty());
            log
        },
        Err(why) => failure_line(elapsed, "session failed: ", why),
    };
    if !opt.reconnect || expired(opt, elapsed) {
        (Then::Stop, log)
    } else {
        (Then::Connect, log)
    }
}

/// Starts one more session, and says which it is and whether it is the first.
pub fn begin(run: &mut Run) -> (r: (usize, bool))
    requires
        old(run)@.sessions < usize::MAX,
    ensures
        r.0 == old(run)@.sessions + 1,
        r.1 == (old(run)@.sessions == 0),
        final(run)@ == (RunView { sessions: (old(run)@.sessions + 1) as usize, ..old(run)@ }),
{
    let first: bool = run.sessions == 0;
    run.sessions = run.sessions + 1;
    (run.sessions, first)
}

/// Takes in what a characteristic's first read returned, and says what to log of it.
pub fn take_initial(run: &mut Run, uuid: u128, bytes: &[u8], elapsed: Duration) -> (log: Option<
    String,
>)
    ensures
        if gatt::is_old_news(old(run)@, uuid, bytes@) {
            log is None
        } else {
            log matches Some(line) && line@ == gatt::log_text(elapsed@, "READ  "@, uuid, bytes@)
        },
        final(run)@ == (RunView {
            polls: gatt::noted(old(run)@.polls, uuid, bytes@),
            last: if gatt::is_old_news(old(run)@, uuid, bytes@) {
                old(run)@.last
            } else {
                old(run)@.last.insert(uuid, bytes@)
            },
            ..old(run)@
        }),
{
    run.polls.add(uuid, bytes);
    run.note(uuid, bytes, elapsed, "READ  ")
}

/// Whether a device found while scanning is one to connect to: its name contains what is
/// wanted, as it is written.
pub fn name_answers(want: Option<&str>, name: &str) -> (yes: bool)
    ensures
        yes == (match want {
            None => true,
            Some(want) => text::holds_text(name@, want@),
        }),
{
    match want {
        None => true,
        Some(want) => text::contains(name, want),
    }
}

} // verus!
