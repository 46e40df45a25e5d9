//! The closing report of a run: what each characteristic did, and, as much of the point,
//! what it didn't. A characteristic that pushed nothing across a run has to be named as
//! silent, or a reader assumes it was never subscribed. Same for the link lifetimes: their
//! spread is the evidence that the short life is the device's doing and not a fluke.

use vstd::prelude::*;

use crate::big::{self, Big};
use crate::ble::uuids;
use crate::gatt::digest::{self, Digest, DigestView};
use crate::gatt::phase::{Phase, PhaseView};
use crate::gatt::{self, Run, RunView};
use crate::text;
use crate::time::{Duration, MAX_NANOS};

verus! {

/// The shortest of some durations, in nanoseconds.
pub open spec fn shortest(lives: Seq<Duration>) -> nat
    decreases lives.len(),
{
    if lives.len() <= 1 {
        lives.last()@
    } else {
        let before = shortest(lives.drop_last());
        if lives.last()@ < before {
            lives.last()@
        } else {
            before
        }
    }
}

/// The longest.
pub open spec fn longest(lives: Seq<Duration>) -> nat
    decreases lives.len(),
{
    if lives.len() <= 1 {
        lives.last()@
    } else {
        let before = longest(lives.drop_last());
        if lives.last()@ > before {
            lives.last()@
        } else {
            before
        }
    }
}

/// All of them together.
pub open spec fn total(lives: Seq<Duration>) -> nat
    decreases lives.len(),
{
    if lives.len() == 0 {
        0
    } else {
        total(lives.drop_last()) + lives.last()@
    }
}

/// The line on how long the links lived, where there were any.
pub open spec fn lives_text(lives: Seq<Duration>) -> Seq<char> {
    if lives.len() == 0 {
        Seq::empty()
    } else {
        Seq::<char>::empty() + "  link life over "@ + text::decimal(lives.len()) + " sessions: "@
            + text::fixed(shortest(lives) as int, 1_000_000_000, 2) + "s.."@ + text::fixed(
            longest(lives) as int,
            1_000_000_000,
            2,
        ) + "s, mean "@ + text::fixed(total(lives) as int, lives.len() * 1_000_000_000, 2)
            + "s\n"@
    }
}

/// The line on the samples, where any were asked for. A truncated capture that looks whole
/// is the one failure mode that would poison an analysis rather than stop it, so it is said
/// plainly.
pub open spec fn samples_text(phase: Option<PhaseView>) -> Seq<char> {
    match phase {
        None => Seq::empty(),
        Some(p) => match p.failed {
            Some(why) => Seq::<char>::empty() + "  phase: "@ + text::decimal(p.records as nat)
                + " sample(s) written, then writing failed: "@ + why + "\n"@,
            None => Seq::<char>::empty() + "  phase: "@ + text::decimal(p.records as nat)
                + " sample(s), "@ + text::decimal(p.reads as nat) + " round trip(s)\n"@,
        },
    }
}

/// The first line.
pub open spec fn heading_text(elapsed: nat, sessions: nat, adverts: nat) -> Seq<char> {
    Seq::<char>::empty() + "summary over "@ + text::fixed(elapsed as int, 1_000_000_000, 1)
        + "s in "@ + text::decimal(sessions) + " connection(s)"@ + (if adverts > 0 {
        Seq::<char>::empty() + " — "@ + text::decimal(adverts)
            + " advertisement events from the target"@
    } else {
        Seq::empty()
    }) + "\n"@
}

/// A rate a second. With no time gone by it is over the smallest positive number that double
/// precision has, 2^-1022, and past the largest it is infinite.
pub open spec fn rate_text(count: nat, elapsed: nat) -> Seq<char> {
    if elapsed > 0 {
        text::fixed((count * 1_000_000_000) as int, elapsed, 2)
    } else if count >= 4 {
        "inf"@
    } else {
        text::fixed((count * big::two_to(1022)) as int, 1, 2)
    }
}

/// What a characteristic pushed.
pub open spec fn pushed_text(d: Option<DigestView>, elapsed: nat) -> Seq<char> {
    match d {
        None => "      notify  silent for the whole run\n"@,
        Some(d) => Seq::<char>::empty() + "      notify  "@ + text::decimal(d.count as nat)
            + " pushed, "@ + text::decimal(d.unique.len()) + " distinct, "@ + rate_text(
            d.count as nat,
            elapsed,
        ) + "/s, lengths "@ + digest::lengths_text(d.unique) + "\n              volatility "@
            + digest::volatility_text(d.per_byte) + "\n"@,
    }
}

/// What reads of it returned.
pub open spec fn read_text(d: Option<DigestView>) -> Seq<char> {
    match d {
        None => Seq::empty(),
        Some(d) => Seq::<char>::empty() + "      read    "@ + text::decimal(d.count as nat)
            + " reads, "@ + text::decimal(d.unique.len()) + " distinct, volatility "@
            + digest::volatility_text(d.per_byte) + "\n"@,
    }
}

/// What a characteristic did.
pub open spec fn characteristic_text(run: RunView, uuid: u128, elapsed: nat) -> Seq<char> {
    Seq::<char>::empty() + "  "@ + uuids::digits(uuid, 0, 8) + "\n"@ + pushed_text(
        gatt::digest_for(run.digests, uuid),
        elapsed,
    ) + read_text(gatt::digest_for(run.polls, uuid))
}

/// What several of them did.
pub open spec fn characteristics_text(run: RunView, found: Seq<u128>, elapsed: nat) -> Seq<char>
    decreases found.len(),
{
    if found.len() == 0 {
        Seq::empty()
    } else {
        characteristics_text(run, found.drop_last(), elapsed) + characteristic_text(
            run,
            found.last(),
            elapsed,
        )
    }
}

/// The closing report.
pub open spec fn summary_text(run: RunView, elapsed: nat) -> Seq<char> {
    heading_text(elapsed, run.sessions as nat, run.adverts as nat) + samples_text(run.phase)
        + lives_text(run.lives) + characteristics_text(
        run,
        gatt::merged(run.polls, run.digests),
        elapsed,
    )
}

proof fn lemma_totals_grow(lives: Seq<Duration>, i: int)
    requires
        0 <= i <= lives.len(),
    ensures
        total(lives.take(i)) <= total(lives),
    decreases lives.len() - i,
{
    if i == lives.len() {
        assert(lives.take(i) =~= lives);
    } else {
        lemma_totals_grow(lives, i + 1);
        assert(lives.take(i + 1).drop_last() =~= lives.take(i));
    }
}

fn put_lives(out: &mut String, lives: &[Duration])
    requires
        total(lives@) <= MAX_NANOS,
    ensures
        final(out)@ == old(out)@ + lives_text(lives@),
{
    if lives.len() == 0 {
        assert(out@ =~= old(out)@ + lives_text(lives@));
        return;
    }
    let first: u128 = lives[0].as_nanos();
    let mut least: u128 = first;
    let mut most: u128 = first;
    let mut all: u128 = first;
    let mut i: usize = 1;
    proof {
        assert(lives@.take(1).drop_last() =~= Seq::empty());
        lemma_totals_grow(lives@, 1);
        reveal_with_fuel(total, 2);
    }
    while i < lives.len()
        invariant
            1 <= i <= lives.len(),
            total(lives@) <= MAX_NANOS,
            least == shortest(lives@.take(i as int)),
            most == longest(lives@.take(i as int)),
            all == total(lives@.take(i as int)),
            least <= all,
            most <= all,
        decreases lives.len() - i,
    {
        proof {
            assert(lives@.take(i + 1).drop_last() =~= lives@.take(i as int));
            lemma_totals_grow(lives@, i as int);
            lemma_totals_grow(lives@, i + 1);
        }
        let life: u128 = lives[i].as_nanos();
        if life < least {
            least = life;
        }
        if life > most {
            most = life;
        }
        all = all + life;
        i = i + 1;
    }
    assert(lives@.take(i as int) =~= lives@);
    let mut line = String::new();
    line.push_str("  link life over ");
    text::put_decimal(&mut line, lives.len() as u128);
    line.push_str(" sessions: ");
    text::put_fixed(&mut line, least as i128, 1_000_000_000, 2);
    line.push_str("s..");
    text::put_fixed(&mut line, most as i128, 1_000_000_000, 2);
    line.push_str("s, mean ");
    let unit: u128 = lives.len() as u128 * 1_000_000_000;
    text::put_fixed(&mut line, all as i128, unit, 2);
    line.push_str("s\n");
    out.push_str(line.as_str());
}

fn put_samples(out: &mut String, phase: &Option<Phase>)
    ensures
        final(out)@ == old(out)@ + samples_text(gatt::phase::phase_of(*phase)),
{
    let mut line = String::new();
    match phase {
        None => {
            assert(line@ =~= Seq::empty());
        },
        Some(p) => match &p.failed {
            Some(why) => {
                line.push_str("  phase: ");
                text::put_decimal(&mut line, p.records as u128);
                line.push_str(" sample(s) written, then writing failed: ");
                line.push_str(why.as_str());
                line.push_str("\n");
            },
            None => {
                line.push_str("  phase: ");
                text::put_decimal(&mut line, p.records as u128);
                line.push_str(" sample(s), ");
                text::put_decimal(&mut line, p.reads as u128);
                line.push_str(" round trip(s)\n");
            },
        },
    }
    out.push_str(line.as_str());
}

fn put_rate(out: &mut String, count: usize, elapsed: Duration)
    ensures
        final(out)@ == old(out)@ + rate_text(count as nat, elapsed@),
{
    let nanos: u128 = elapsed.as_nanos();
    if nanos > 0 {
        text::put_fixed(out, count as i128 * 1_000_000_000, nanos, 2);
    } else if count >= 4 {
        out.push_str("inf");
    } else {
        Big::of(count as i128).times(&Big::power_of_two(1022)).put_fixed(out, 1, 2);
    }
}

fn put_pushed(out: &mut String, found: Option<&Digest>, elapsed: Duration)
    ensures
        final(out)@ == old(out)@ + pushed_text(view_of(found), elapsed@),
{
    let mut line = String::new();
    match found {
        None => {
            line.push_str("      notify  silent for the whole run\n");
            assert(line@ =~= pushed_text(None, elapsed@));
        },
        Some(d) => {
            line.push_str("      notify  ");
            text::put_decimal(&mut line, d.count as u128);
            line.push_str(" pushed, ");
            text::put_decimal(&mut line, d.unique.len() as u128);
            line.push_str(" distinct, ");
            put_rate(&mut line, d.count, elapsed);
            line.push_str("/s, lengths ");
            line.push_str(d.lengths_string().as_str());
            line.push_str("\n              volatility ");
            line.push_str(d.volatility().as_str());
            line.push_str("\n");
        },
    }
    out.push_str(line.as_str());
}

fn put_read(out: &mut String, found: Option<&Digest>)
    ensures
        final(out)@ == old(out)@ + read_text(view_of(found)),
{
    let mut line = String::new();
    match found {
        None => {
            assert(line@ =~= Seq::empty());
        },
        Some(d) => {
            line.push_str("      read    ");
            text::put_decimal(&mut line, d.count as u128);
            line.push_str(" reads, ");
            text::put_decimal(&mut line, d.unique.len() as u128);
            line.push_str(" distinct, volatility ");
            line.push_str(d.volatility().as_str());
            line.push_str("\n");
        },
    }
    out.push_str(line.as_str());
}

/// A digest that may be absent, as what it holds.
spec fn view_of(found: Option<&Digest>) -> Option<DigestView> {
    match found {
        Some(d) => Some(d@),
        None => None,
    }
}

impl Run {
    /// The closing report.
    pub fn summarise(&self, elapsed: Duration) -> (out: String)
        requires
            total(self@.lives) <= MAX_NANOS,
        ensures
            out@ == summary_text(self@, elapsed@),
    {
        let mut out = String::new();
        out.push_str("summary over ");
        text::put_fixed(&mut out, elapsed.as_nanos() as i128, 1_000_000_000, 1);
        out.push_str("s in ");
        text::put_decimal(&mut out, self.sessions as u128);
        out.push_str(" connection(s)");
        let mut heard = String::new();
        if self.adverts > 0 {
            heard.push_str(" — ");
            text::put_decimal(&mut heard, self.adverts as u128);
            heard.push_str(" advertisement events from the target");
        }
        out.push_str(heard.as_str());
        out.push_str("\n");
        put_samples(&mut out, &self.phase);
        put_lives(&mut out, self.lives.as_slice());
        let ghost front = out@;
        let found = gatt::characteristics(&self.polls, &self.digests);
        let mut i: usize = 0;
        assert(found@.take(0) =~= Seq::empty());
        assert(out@ =~= front + characteristics_text(self@, found@.take(0), elapsed@));
        while i < found.len()
            invariant
                i <= found@.len(),
                out@ == front + characteristics_text(self@, found@.take(i as int), elapsed@),
            decreases found@.len() - i,
        {
            assert(found@.take(i + 1).drop_last() =~= found@.take(i as int));
            let uuid: u128 = found[i];
            let mut block = String::new();
            block.push_str("  ");
            block.push_str(uuids::tail(uuid).as_str());
            block.push_str("\n");
            let pushed = self.digests.get(uuid);
            put_pushed(&mut block, pushed, elapsed);
            let reads = self.polls.get(uuid);
            put_read(&mut block, reads);
            assert(block@ == characteristic_text(self@, uuid, elapsed@));
            out.push_str(block.as_str());
            assert(out@ =~= front + characteristics_text(self@, found@.take(i + 1), elapsed@));
            i = i + 1;
        }
        assert(found@.take(i as int) =~= found@);
        out
    }
}

} // verus!
