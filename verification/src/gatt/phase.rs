//! The offset measurement: what a round trip gives that a broadcast cannot.
//!
//! Stamping the host clock either side of a read brackets the offset between the device's
//! clock and this host's, with no assumption about the two legs being equal. This words the
//! samples and reduces nothing. A read taken while subscribed is not a round trip, so a
//! capture wants no subscription.

use vstd::prelude::*;

use crate::ble::jam;
use crate::ble::scan;
use crate::display;
use crate::text;
use crate::time::{Duration, Instant};
use crate::timecode::Timecode;

verus! {

/// Where the samples of a run go.
#[derive(Debug)]
pub struct Phase {
    /// Reads issued, which is what walks the dither.
    pub reads: u64,
    /// Lines written, for the closing summary to report.
    pub records: u64,
    /// The first write that failed, if one did. A capture that quietly stopped recording
    /// halfway is worse than one that says it did.
    pub failed: Option<String>,
}

/// A phase, as numbers and texts.
pub struct PhaseView {
    pub reads: u64,
    pub records: u64,
    pub failed: Option<Seq<char>>,
}

impl View for Phase {
    type V = PhaseView;

    open spec fn view(&self) -> PhaseView {
        PhaseView {
            reads: self.reads,
            records: self.records,
            failed: scan::text_of(self.failed),
        }
    }
}

/// A phase that may not have been asked for.
pub open spec fn phase_of(phase: Option<Phase>) -> Option<PhaseView> {
    match phase {
        Some(phase) => Some(phase@),
        None => None,
    }
}

/// A timecode's fields as JSON, or the same keys set to null.
pub open spec fn fields_text(tc: Option<Timecode>) -> Seq<char> {
    match tc {
        Some(tc) => Seq::<char>::empty() + "\"fps\":"@ + text::decimal(tc.rate.fps as nat)
            + ",\"hours\":"@ + text::decimal(tc.hours as nat) + ",\"minutes\":"@ + text::decimal(
            tc.minutes as nat,
        ) + ",\"seconds\":"@ + text::decimal(tc.seconds as nat) + ",\"frames\":"@ + text::decimal(
            tc.frames as nat,
        ) + ",\"subframe_micros\":"@ + text::decimal(tc.subframe@ / 1_000),
        None => Seq::<char>::empty() + "\"fps\":"@ + "null"@ + ",\"hours\":"@ + "null"@
            + ",\"minutes\":"@ + "null"@ + ",\"seconds\":"@ + "null"@ + ",\"frames\":"@ + "null"@
            + ",\"subframe_micros\":"@ + "null"@,
    }
}

/// A timecode's fields as JSON, or the same keys set to null when the payload didn't
/// decode. One shape either way: a reader that has to cope with absent keys copes with them
/// wrongly.
pub fn fields(tc: Option<Timecode>) -> (out: String)
    ensures
        out@ == fields_text(tc),
{
    let mut out = String::new();
    match tc {
        Some(tc) => {
            out.push_str("\"fps\":");
            text::put_decimal(&mut out, tc.rate.fps as u128);
            out.push_str(",\"hours\":");
            text::put_decimal(&mut out, tc.hours as u128);
            out.push_str(",\"minutes\":");
            text::put_decimal(&mut out, tc.minutes as u128);
            out.push_str(",\"seconds\":");
            text::put_decimal(&mut out, tc.seconds as u128);
            out.push_str(",\"frames\":");
            text::put_decimal(&mut out, tc.frames as u128);
            out.push_str(",\"subframe_micros\":");
            text::put_decimal(&mut out, tc.subframe.as_micros());
        },
        None => {
            out.push_str("\"fps\":");
            out.push_str("null");
            out.push_str(",\"hours\":");
            out.push_str("null");
            out.push_str(",\"minutes\":");
            out.push_str("null");
            out.push_str(",\"seconds\":");
            out.push_str("null");
            out.push_str(",\"frames\":");
            out.push_str("null");
            out.push_str(",\"subframe_micros\":");
            out.push_str("null");
        },
    }
    out
}

/// The record of a round trip.
pub open spec fn round_trip_text(
    overall: Instant,
    sent: Instant,
    received: Instant,
    bytes: Seq<u8>,
) -> Seq<char> {
    Seq::<char>::empty() + "{\"kind\":\"read\",\"t0_micros\":"@ + text::decimal(
        display::micros_since(overall, sent),
    ) + ",\"t1_micros\":"@ + text::decimal(display::micros_since(overall, received))
        + ",\"payload\":\""@ + text::hex_run(bytes) + "\","@ + fields_text(
        jam::vendor_reading(bytes),
    ) + "}"@
}

/// The record of something that has an arrival stamp and no departure one.
pub open spec fn one_way_text(
    kind: Seq<char>,
    overall: Instant,
    at: Instant,
    tc: Option<Timecode>,
) -> Seq<char> {
    Seq::<char>::empty() + "{\"kind\":\""@ + kind + "\",\"at_micros\":"@ + text::decimal(
        display::micros_since(overall, at),
    ) + ","@ + fields_text(tc) + "}"@
}

/// The record of a connection opening or closing.
pub open spec fn session_text(overall: Instant, at: Instant, n: nat, what: Seq<char>) -> Seq<char> {
    Seq::<char>::empty() + "{\"kind\":\"session\",\"at_micros\":"@ + text::decimal(
        display::micros_since(overall, at),
    ) + ",\"session\":"@ + text::decimal(n) + ",\"event\":\""@ + what + "\"}"@
}

impl Phase {
    pub fn new() -> (phase: Phase)
        ensures
            phase@ == (PhaseView { reads: 0, records: 0, failed: None }),
    {
        Phase { reads: 0, records: 0, failed: None }
    }

    /// Whether records are still being written.
    pub fn writing(&self) -> (yes: bool)
        ensures
            yes == (self@.failed is None),
    {
        self.failed.is_none()
    }

    /// How long to wait before the next read.
    pub fn wait(&mut self) -> (d: Duration)
        ensures
            final(self)@ == waited(old(self)@),
            d.wf(),
            d@ == jam::dither_micros(waited(old(self)@).reads as nat) * 1_000,
    {
        self.reads = self.reads.wrapping_add(1);
        jam::dither(self.reads)
    }

    /// Takes note of whether a record was written; what went wrong first is what is kept.
    pub fn wrote(&mut self, result: Result<(), String>)
        ensures
            final(self)@ == (match result {
                Ok(_) => PhaseView { records: scan::counted(old(self)@.records), ..old(self)@ },
                Err(why) => PhaseView {
                    failed: if old(self)@.failed is Some {
                        old(self)@.failed
                    } else {
                        Some(why@)
                    },
                    ..old(self)@
                },
            }),
    {
        match result {
            Ok(_) => {
                self.records = self.records.saturating_add(1);
            },
            Err(why) => {
                if self.failed.is_none() {
                    self.failed = Some(why);
                }
            },
        }
    }
}

/// A phase after one more read has been waited for.
pub open spec fn waited(p: PhaseView) -> PhaseView {
    PhaseView {
        reads: if p.reads == u64::MAX {
            0
        } else {
            (p.reads + 1) as u64
        },
        ..p
    }
}

/// One round trip: both host stamps and whatever the device said between them.
pub fn round_trip(overall: Instant, sent: Instant, received: Instant, bytes: &[u8]) -> (out: String)
    requires
        sent.wf(),
        received.wf(),
    ensures
        out@ == round_trip_text(overall, sent, received, bytes@),
{
    let mut out = String::new();
    out.push_str("{\"kind\":\"read\",\"t0_micros\":");
    text::put_decimal(&mut out, sent.saturating_duration_since(overall).as_micros());
    out.push_str(",\"t1_micros\":");
    text::put_decimal(&mut out, received.saturating_duration_since(overall).as_micros());
    out.push_str(",\"payload\":\"");
    out.push_str(text::hex_run_text(bytes).as_str());
    out.push_str("\",");
    out.push_str(fields(jam::vendor_timecode(bytes)).as_str());
    out.push_str("}");
    out
}

/// A notification or an advertisement, which has an arrival stamp and no departure one. Not
/// a round trip and not treated as one.
pub fn one_way(kind: &str, overall: Instant, at: Instant, tc: Option<Timecode>) -> (out: String)
    requires
        at.wf(),
    ensures
        out@ == one_way_text(kind@, overall, at, tc),
{
    let mut out = String::new();
    out.push_str("{\"kind\":\"");
    out.push_str(kind);
    out.push_str("\",\"at_micros\":");
    text::put_decimal(&mut out, at.saturating_duration_since(overall).as_micros());
    out.push_str(",");
    out.push_str(fields(tc).as_str());
    out.push_str("}");
    out
}

/// A connection opening or closing. The offset carries across a reconnect, but the round
/// trips inside one session share a connection anchor grid and those in the next do not, so
/// the boundaries have to be on the record.
pub fn session(overall: Instant, at: Instant, n: usize, what: &str) -> (out: String)
    requires
        at.wf(),
    ensures
        out@ == session_text(overall, at, n as nat, what@),
{
    let mut out = String::new();
    out.push_str("{\"kind\":\"session\",\"at_micros\":");
    text::put_decimal(&mut out, at.saturating_duration_since(overall).as_micros());
    out.push_str(",\"session\":");
    text::put_decimal(&mut out, n as u128);
    out.push_str(",\"event\":\"");
    out.push_str(what);
    out.push_str("\"}");
    out
}

/// One shape either way: a payload that did not decode writes the same keys in the same
/// order as one that did, each with `null` behind it.
pub proof fn every_key_is_written_either_way(tc: Timecode)
    ensures
        fields_text(Some(tc)) == keyed(
            text::decimal(tc.rate.fps as nat),
            text::decimal(tc.hours as nat),
            text::decimal(tc.minutes as nat),
            text::decimal(tc.seconds as nat),
            text::decimal(tc.frames as nat),
            text::decimal(tc.subframe@ / 1_000),
        ),
        fields_text(None) == keyed("null"@, "null"@, "null"@, "null"@, "null"@, "null"@),
{
}

/// The keys of a timecode, with these values behind them.
pub open spec fn keyed(
    fps: Seq<char>,
    hours: Seq<char>,
    minutes: Seq<char>,
    seconds: Seq<char>,
    frames: Seq<char>,
    micros: Seq<char>,
) -> Seq<char> {
    Seq::<char>::empty() + "\"fps\":"@ + fps + ",\"hours\":"@ + hours + ",\"minutes\":"@ + minutes
        + ",\"seconds\":"@ + seconds + ",\"frames\":"@ + frames + ",\"subframe_micros\":"@ + micros
}

} // verus!
