//! A calibration and its refusals in words.
//!
//! The report carries its caveats attached to the numbers. A section is a function
//! from the page so far to the page with that section on it.

use vstd::prelude::*;

use crate::jam;
use crate::jam::reduce::{BlockReport, Calibration, Staleness, Step, Suppression};
use crate::big::Big;
use crate::jam::{Bracket, Flaw, FlawView, Stream, REACH};
use crate::text;
use crate::time::Duration;

verus! {

/// The first line, and the payloads that did not decode.
pub open spec fn with_heading(page: Seq<char>, c: Calibration) -> Seq<char> {
    let first = page + text::decimal(c.round_trips as nat) + " round trips over "@ + text::fixed(
        c.span@ as int,
        1_000_000_000,
        0,
    ) + " s\n"@;
    let counted = if c.undecoded > 0 {
        first + "  "@ + text::decimal(c.undecoded as nat) + " payload(s) did not decode\n"@
    } else {
        first
    };
    counted + "\n"@
}

/// Whether these are round trips.
pub open spec fn with_round_trips(page: Seq<char>, c: Calibration) -> Seq<char> {
    page + "# Are these round trips\n\n"@ + "  shortest "@ + text::fixed(
        c.shortest_rtt@ as int,
        1_000_000,
        3,
    ) + " ms; "@ + text::decimal(c.short_rtts as nat) + " of "@ + text::decimal(c.round_trips as nat)
        + " under one connection interval, which is\n"@ + "  the least a real one can take.\n\n"@
}

/// One block's line.
pub open spec fn with_block(page: Seq<char>, b: BlockReport) -> Seq<char> {
    page + "  "@ + text::fixed_column(b.at@ as int, 1_000_000_000, 0, 6) + " "@ + text::decimal_column(
        b.n as nat,
        6,
    ) + " "@ + text::fixed_column(b.width as int, 1_000_000, 3, 9) + " "@ + text::fixed_column(
        b.shortest_rtt as int,
        1_000_000,
        3,
        10,
    ) + (if b.contradictory {
        "  contradictory\n"@
    } else {
        "\n"@
    })
}

pub open spec fn with_block_rows(page: Seq<char>, blocks: Seq<BlockReport>) -> Seq<char>
    decreases blocks.len(),
{
    if blocks.len() == 0 {
        page
    } else {
        with_block(with_block_rows(page, blocks.drop_last()), blocks.last())
    }
}

/// The blocks, and what was dropped of them.
pub open spec fn with_blocks(page: Seq<char>, c: Calibration) -> Seq<char> {
    let rows = with_block_rows(
        page + "# The bracket, per block\n\n"@ + "   at s      n     width    min rtt\n"@,
        c.blocks@,
    ) + "\n"@;
    if c.contradictory > 0 {
        rows + "  "@ + text::decimal(c.contradictory as nat)
            + " block(s) came out with a negative width, which is impossible for a\n"@
            + "  real round trip. They and their reads are excluded from everything\n"@
            + "  above, since a pooled minimum would inherit the same\n"@ + "  sample.\n\n"@
    } else {
        rows
    }
}

/// How fast the midpoints move.
pub open spec fn with_drift(page: Seq<char>, c: Calibration) -> Seq<char> {
    let said = match (c.drift_ppm, c.drift_residual) {
        (Some(ppm), Some(rms)) => page + "  the midpoints move at "@ + text::fixed_with_sign(
            ppm@,
            1_000_000_000,
            1,
        ) + " ppm, scattering "@ + text::fixed(rms@, 2_000_000, 3) + " ms rms about\n"@
            + "  that line (Theil-Sen, so one bad block cannot own the fit).\n"@,
        _ => page + "  too few usable blocks to call a drift rate; use a longer capture.\n"@,
    };
    said + "\n"@
}

/// One line of a convergence.
pub open spec fn with_step(page: Seq<char>, step: Step) -> Seq<char> {
    page + "  "@ + text::decimal_column(step.n as nat, 6) + " "@ + text::fixed_column(
        step.value@,
        1_000_000,
        3,
        9,
    ) + "\n"@
}

pub open spec fn with_steps(page: Seq<char>, steps: Seq<Step>) -> Seq<char>
    decreases steps.len(),
{
    if steps.len() == 0 {
        page
    } else {
        with_step(with_steps(page, steps.drop_last()), steps.last())
    }
}

/// Whether the bracket converges.
pub open spec fn with_convergence(page: Seq<char>, c: Calibration) -> Seq<char> {
    with_steps(
        page + "# Does it converge\n\n"@
            + "  A minimum creeps down as samples accumulate, so a short run reports a\n"@
            + "  bracket that is too wide — safe, but only worth quoting once it has\n"@
            + "  stopped moving.\n\n"@ + "       n     width\n"@,
        c.converge@,
    ) + "\n"@
}

/// One stream's line.
pub open spec fn with_cost(page: Seq<char>, s: Staleness) -> Seq<char> {
    page + "  "@ + text::pad_start(jam::stream_label(s.stream), 22, ' ') + " "@ + text::decimal_column(
        s.n as nat,
        7,
    ) + "    "@ + jam::bracket_text(s.bracket) + "\n"@
}

pub open spec fn with_cost_rows(page: Seq<char>, rows: Seq<Staleness>) -> Seq<char>
    decreases rows.len(),
{
    if rows.len() == 0 {
        page
    } else {
        with_cost(with_cost_rows(page, rows.drop_last()), rows.last())
    }
}

/// What a one-way reading costs.
pub open spec fn with_costs(page: Seq<char>, c: Calibration) -> Seq<char> {
    with_cost_rows(
        page + "# What a one-way reading costs\n\n"@
            + "  How far behind the device's own clock each stream's *least delayed*\n"@
            + "  reading was when it landed — the error left in a clock that anchors on\n"@
            + "  the best reading it sees.\n\n"@,
        c.staleness@,
    ) + "\n"@ + "  Low ends are against whichever stream reached the host soonest, so that\n"@
        + "  stream reads zero by construction and the content is the upper bound.\n\n"@
}

/// Connected against free-running, where there is a comparison.
pub open spec fn with_suppression(page: Seq<char>, c: Calibration) -> Seq<char> {
    match c.suppression {
        None => page,
        Some(s) => page + "# Connected against free-running, at matched n\n\n"@
            + "    connected    n="@ + text::decimal_column(s.n as nat, 4) + "   floor "@ + text::fixed_column(
            s.connected@ as int,
            1_000_000,
            3,
            8,
        ) + " ms\n"@ + "    free-running n="@ + text::decimal_column(s.n as nat, 4) + "   floor "@
            + text::fixed_column(s.free_running@ as int, 1_000_000, 3, 8) + " ms\n"@
            + "    penalty                "@ + text::pad_start(
            text::fixed_with_sign(s.connected@ - s.free_running@, 1_000_000, 3),
            8,
            ' ',
        ) + " ms\n\n"@
            + "  Matched counts, because a minimum over fewer samples sits higher for\n"@
            + "  that reason alone and would otherwise look like a slower path.\n\n"@,
    }
}

/// One line of the advertisement floor.
pub open spec fn with_floor(page: Seq<char>, step: Step) -> Seq<char> {
    page + "    n="@ + text::decimal_column(step.n as nat, 5) + "   floor "@ + text::fixed_column(
        step.value@,
        1_000_000,
        3,
        8,
    ) + " ms\n"@
}

pub open spec fn with_floors(page: Seq<char>, steps: Seq<Step>) -> Seq<char>
    decreases steps.len(),
{
    if steps.len() == 0 {
        page
    } else {
        with_floor(with_floors(page, steps.drop_last()), steps.last())
    }
}

/// The advertisement floor has stopped moving: the last step of its convergence moved it
/// by less than a twentieth of the bracket.
pub open spec fn is_settled(c: Calibration) -> bool {
    let steps = c.advert_converge@;
    steps.len() >= 2 && {
        let moved = steps[steps.len() - 1].value@ - steps[steps.len() - 2].value@;
        20 * moved < c.bracket_width@ && 20 * (-moved) < c.bracket_width@
    }
}

/// Whether the advertisement floor has settled.
pub open spec fn with_settling(page: Seq<char>, c: Calibration) -> Seq<char> {
    let rows = with_floors(
        page + "# Has the advertisement floor settled\n\n"@,
        c.advert_converge@,
    ) + "\n"@;
    let said = if is_settled(c) {
        rows + "  Settled: the last step moved it by under 0.05 of the bracket.\n"@
    } else {
        rows + "  NOT settled. Still falling means the true staleness is *lower* than\n"@
            + "  reported — the opposite of the direction the bracket errs in, so say\n"@
            + "  so rather than quoting the number flat.\n"@
    };
    said + "\n"@
}

/// The figure to apply, and what it is.
pub open spec fn with_answer(page: Seq<char>, c: Calibration) -> Seq<char> {
    page + "offset to apply "@ + text::fixed(c.offset@ as int, 1_000_000, 3) + " ms, bracket "@ + text::fixed(
        c.bracket_width@ as int,
        1_000_000,
        3,
    ) + " ms\n"@ + "This is a path constant, calibrated once. It does not decay, and it is\n"@
        + "not a time transfer — the time still comes from the advertisements.\n"@
}

/// The whole report.
pub open spec fn report_text(c: Calibration) -> Seq<char> {
    let p1 = with_heading(Seq::empty(), c);
    let p2 = with_round_trips(p1, c);
    let p3 = with_blocks(p2, c);
    let p4 = with_drift(p3, c);
    let p5 = with_convergence(p4, c);
    let p6 = with_costs(p5, c);
    let p7 = with_suppression(p6, c);
    let p8 = with_settling(p7, c);
    with_answer(p8, c)
}

fn put_heading(out: &mut String, c: &Calibration)
    requires
        c.wf(),
    ensures
        final(out)@ == with_heading(old(out)@, *c),
{
    text::put_decimal(out, c.round_trips as u128);
    out.push_str(" round trips over ");
    text::put_fixed(out, c.span.as_nanos() as i128, 1_000_000_000, 0);
    out.push_str(" s\n");
    if c.undecoded > 0 {
        out.push_str("  ");
        text::put_decimal(out, c.undecoded as u128);
        out.push_str(" payload(s) did not decode\n");
    }
    out.push_str("\n");
}

fn put_round_trips(out: &mut String, c: &Calibration)
    requires
        c.wf(),
    ensures
        final(out)@ == with_round_trips(old(out)@, *c),
{
    out.push_str("# Are these round trips\n\n");
    out.push_str("  shortest ");
    text::put_fixed(out, c.shortest_rtt.as_nanos() as i128, 1_000_000, 3);
    out.push_str(" ms; ");
    text::put_decimal(out, c.short_rtts as u128);
    out.push_str(" of ");
    text::put_decimal(out, c.round_trips as u128);
    out.push_str(" under one connection interval, which is\n");
    out.push_str("  the least a real one can take.\n\n");
}

fn put_block(out: &mut String, b: &BlockReport)
    requires
        b.at.wf(),
        -4 * REACH <= b.width <= 4 * REACH,
        -4 * REACH <= b.shortest_rtt <= 4 * REACH,
    ensures
        final(out)@ == with_block(old(out)@, *b),
{
    out.push_str("  ");
    text::put_fixed_column(out, b.at.as_nanos() as i128, 1_000_000_000, 0, 6);
    out.push_str(" ");
    text::put_decimal_column(out, b.n as u128, 6);
    out.push_str(" ");
    text::put_fixed_column(out, b.width, 1_000_000, 3, 9);
    out.push_str(" ");
    text::put_fixed_column(out, b.shortest_rtt, 1_000_000, 3, 10);
    if b.contradictory {
        out.push_str("  contradictory\n");
    } else {
        out.push_str("\n");
    }
}

fn put_blocks(out: &mut String, c: &Calibration)
    requires
        c.wf(),
    ensures
        final(out)@ == with_blocks(old(out)@, *c),
{
    out.push_str("# The bracket, per block\n\n");
    out.push_str("   at s      n     width    min rtt\n");
    let ghost page = out@;
    let mut i: usize = 0;
    assert(c.blocks@.take(0) =~= Seq::empty());
    while i < c.blocks.len()
        invariant
            i <= c.blocks.len(),
            c.wf(),
            out@ == with_block_rows(page, c.blocks@.take(i as int)),
        decreases c.blocks.len() - i,
    {
        assert(c.blocks@.take(i + 1).drop_last() =~= c.blocks@.take(i as int));
        let b = c.blocks[i];
        assert(c.blocks@[i as int].at.wf());
        put_block(out, &b);
        i = i + 1;
    }
    assert(c.blocks@.take(i as int) =~= c.blocks@);
    out.push_str("\n");
    if c.contradictory > 0 {
        out.push_str("  ");
        text::put_decimal(out, c.contradictory as u128);
        out.push_str(" block(s) came out with a negative width, which is impossible for a\n");
        out.push_str("  real round trip. They and their reads are excluded from everything\n");
        out.push_str("  above, since a pooled minimum would inherit the same\n");
        out.push_str("  sample.\n\n");
    }
}

fn put_drift(out: &mut String, c: &Calibration)
    requires
        c.wf(),
    ensures
        final(out)@ == with_drift(old(out)@, *c),
{
    match (&c.drift_ppm, &c.drift_residual) {
        (Some(ppm), Some(rms)) => {
            out.push_str("  the midpoints move at ");
            ppm.put_fixed_with_sign(out, 1_000_000_000, 1);
            out.push_str(" ppm, scattering ");
            rms.put_fixed(out, 2_000_000, 3);
            out.push_str(" ms rms about\n");
            out.push_str("  that line (Theil-Sen, so one bad block cannot own the fit).\n");
        },
        _ => {
            out.push_str("  too few usable blocks to call a drift rate; use a longer capture.\n");
        },
    }
    out.push_str("\n");
}

fn put_convergence(out: &mut String, c: &Calibration)
    requires
        c.wf(),
    ensures
        final(out)@ == with_convergence(old(out)@, *c),
{
    out.push_str("# Does it converge\n\n");
    out.push_str("  A minimum creeps down as samples accumulate, so a short run reports a\n");
    out.push_str("  bracket that is too wide — safe, but only worth quoting once it has\n");
    out.push_str("  stopped moving.\n\n");
    out.push_str("       n     width\n");
    let ghost page = out@;
    let mut i: usize = 0;
    assert(c.converge@.take(0) =~= Seq::empty());
    while i < c.converge.len()
        invariant
            i <= c.converge.len(),
            c.wf(),
            out@ == with_steps(page, c.converge@.take(i as int)),
        decreases c.converge.len() - i,
    {
        assert(c.converge@.take(i + 1).drop_last() =~= c.converge@.take(i as int));
        let step = &c.converge[i];
        out.push_str("  ");
        text::put_decimal_column(out, step.n as u128, 6);
        out.push_str(" ");
        step.value.put_fixed_column(out, 1_000_000, 3, 9);
        out.push_str("\n");
        i = i + 1;
    }
    assert(c.converge@.take(i as int) =~= c.converge@);
    out.push_str("\n");
}

fn put_costs(out: &mut String, c: &Calibration)
    requires
        c.wf(),
    ensures
        final(out)@ == with_costs(old(out)@, *c),
{
    out.push_str("# What a one-way reading costs\n\n");
    out.push_str("  How far behind the device's own clock each stream's *least delayed*\n");
    out.push_str("  reading was when it landed — the error left in a clock that anchors on\n");
    out.push_str("  the best reading it sees.\n\n");
    let ghost page = out@;
    let mut i: usize = 0;
    assert(c.staleness@.take(0) =~= Seq::empty());
    while i < c.staleness.len()
        invariant
            i <= c.staleness.len(),
            c.wf(),
            out@ == with_cost_rows(page, c.staleness@.take(i as int)),
        decreases c.staleness.len() - i,
    {
        assert(c.staleness@.take(i + 1).drop_last() =~= c.staleness@.take(i as int));
        let s = c.staleness[i];
        out.push_str("  ");
        text::put_pad_start(out, s.stream.label(), 22, ' ');
        out.push_str(" ");
        text::put_decimal_column(out, s.n as u128, 7);
        out.push_str("    ");
        out.push_str(s.bracket.to_string().as_str());
        out.push_str("\n");
        i = i + 1;
    }
    assert(c.staleness@.take(i as int) =~= c.staleness@);
    out.push_str("\n");
    out.push_str("  Low ends are against whichever stream reached the host soonest, so that\n");
    out.push_str("  stream reads zero by construction and the content is the upper bound.\n\n");
}

fn put_suppression(out: &mut String, c: &Calibration)
    requires
        c.wf(),
    ensures
        final(out)@ == with_suppression(old(out)@, *c),
{
    if let Some(s) = c.suppression {
        out.push_str("# Connected against free-running, at matched n\n\n");
        out.push_str("    connected    n=");
        text::put_decimal_column(out, s.n as u128, 4);
        out.push_str("   floor ");
        text::put_fixed_column(out, s.connected.as_nanos() as i128, 1_000_000, 3, 8);
        out.push_str(" ms\n");
        out.push_str("    free-running n=");
        text::put_decimal_column(out, s.n as u128, 4);
        out.push_str("   floor ");
        text::put_fixed_column(out, s.free_running.as_nanos() as i128, 1_000_000, 3, 8);
        out.push_str(" ms\n");
        out.push_str("    penalty                ");
        let mut piece = String::new();
        text::put_fixed_with_sign(&mut piece, s.penalty(), 1_000_000, 3);
        assert(piece@ =~= text::fixed_with_sign(s.connected@ - s.free_running@, 1_000_000, 3));
        text::put_pad_start(out, piece.as_str(), 8, ' ');
        out.push_str(" ms\n\n");
        out.push_str("  Matched counts, because a minimum over fewer samples sits higher for\n");
        out.push_str("  that reason alone and would otherwise look like a slower path.\n\n");
    }
}

fn put_settling(out: &mut String, c: &Calibration)
    requires
        c.wf(),
    ensures
        final(out)@ == with_settling(old(out)@, *c),
{
    out.push_str("# Has the advertisement floor settled\n\n");
    let ghost page = out@;
    let mut i: usize = 0;
    assert(c.advert_converge@.take(0) =~= Seq::empty());
    while i < c.advert_converge.len()
        invariant
            i <= c.advert_converge.len(),
            c.wf(),
            out@ == with_floors(page, c.advert_converge@.take(i as int)),
        decreases c.advert_converge.len() - i,
    {
        assert(c.advert_converge@.take(i + 1).drop_last() =~= c.advert_converge@.take(i as int));
        let step = &c.advert_converge[i];
        out.push_str("    n=");
        text::put_decimal_column(out, step.n as u128, 5);
        out.push_str("   floor ");
        step.value.put_fixed_column(out, 1_000_000, 3, 8);
        out.push_str(" ms\n");
        i = i + 1;
    }
    assert(c.advert_converge@.take(i as int) =~= c.advert_converge@);
    out.push_str("\n");
    if c.settled() {
        out.push_str("  Settled: the last step moved it by under 0.05 of the bracket.\n");
    } else {
        out.push_str("  NOT settled. Still falling means the true staleness is *lower* than\n");
        out.push_str("  reported — the opposite of the direction the bracket errs in, so say\n");
        out.push_str("  so rather than quoting the number flat.\n");
    }
    out.push_str("\n");
}

impl Calibration {
    /// The constant to apply: the midpoint of the free-running advertisement's staleness
    /// bracket. It is a midpoint and not a measurement; applying it halves the worst
    /// case.
    pub fn offset(&self) -> (offset: Duration)
        ensures
            offset == self.offset,
    {
        self.offset
    }

    /// The width of the bracket on the offset, pooled over the round trips, the drift
    /// taken out.
    pub fn bracket_width(&self) -> (width: Duration)
        ensures
            width == self.bracket_width,
    {
        self.bracket_width
    }

    /// The staleness of a stream's least delayed reading, if the capture held any of
    /// that stream.
    pub fn staleness(&self, stream: Stream) -> (bracket: Option<Bracket>)
        ensures
            match bracket {
                Some(b) => exists|i: int|
                    0 <= i < self.staleness@.len() && (#[trigger] self.staleness@[i]).stream
                        == stream && self.staleness@[i].bracket == b && forall|k: int|
                        0 <= k < i ==> (#[trigger] self.staleness@[k]).stream != stream,
                None => forall|k: int|
                    0 <= k < self.staleness@.len() ==> (#[trigger] self.staleness@[k]).stream
                        != stream,
            },
    {
        let mut i: usize = 0;
        while i < self.staleness.len()
            invariant
                i <= self.staleness.len(),
                forall|k: int| 0 <= k < i ==> (#[trigger] self.staleness@[k]).stream != stream,
            decreases self.staleness.len() - i,
        {
            if self.staleness[i].stream == stream {
                assert(self.staleness@[i as int].stream == stream);
                return Some(self.staleness[i].bracket);
            }
            i = i + 1;
        }
        None
    }

    /// How many readings of a stream the capture held.
    pub fn count(&self, stream: Stream) -> (n: usize)
        ensures
            (exists|i: int|
                0 <= i < self.staleness@.len() && (#[trigger] self.staleness@[i]).stream == stream
                    && self.staleness@[i].n == n && forall|k: int|
                    0 <= k < i ==> (#[trigger] self.staleness@[k]).stream != stream) || (n == 0
                && forall|k: int|
                0 <= k < self.staleness@.len() ==> (#[trigger] self.staleness@[k]).stream
                    != stream),
    {
        let mut i: usize = 0;
        while i < self.staleness.len()
            invariant
                i <= self.staleness.len(),
                forall|k: int| 0 <= k < i ==> (#[trigger] self.staleness@[k]).stream != stream,
            decreases self.staleness.len() - i,
        {
            if self.staleness[i].stream == stream {
                assert(self.staleness@[i as int].stream == stream);
                return self.staleness[i].n;
            }
            i = i + 1;
        }
        0
    }

    /// How fast the device's clock runs against this host's, from the block midpoints, in
    /// 10^-9 ppm. Nothing until three usable blocks exist: two points define a line and
    /// say nothing about whether it is one.
    pub fn drift_ppm(&self) -> (ppm: &Option<Big>)
        ensures
            *ppm == self.drift_ppm,
    {
        &self.drift_ppm
    }

    /// The connected-against-free-running comparison, at matched sample counts.
    pub fn suppression(&self) -> (s: Option<Suppression>)
        ensures
            s == self.suppression,
    {
        self.suppression
    }

    /// Whether the advertisement floor has stopped moving: the last step of its
    /// convergence moved it by less than a twentieth of [`Calibration::bracket_width`].
    pub fn settled(&self) -> (yes: bool)
        requires
            self.wf(),
        ensures
            yes == is_settled(*self),
    {
        let n: usize = self.advert_converge.len();
        if n < 2 {
            return false;
        }
        let moved = self.advert_converge[n - 1].value.minus(&self.advert_converge[n - 2].value);
        let far = moved.times(&Big::of(20));
        let width = Big::of_size(self.bracket_width.as_nanos());
        !width.at_most(&far) && !width.at_most(&far.negated())
    }

    /// Round trips that survived the checks and went into the answer.
    pub fn round_trips(&self) -> (n: usize)
        ensures
            n == self.round_trips,
    {
        self.round_trips
    }

    /// How long the capture ran.
    pub fn span(&self) -> (span: Duration)
        ensures
            span == self.span,
    {
        self.span
    }

    /// Blocks whose bracket came out negative and were dropped, along with their reads.
    pub fn contradictory_blocks(&self) -> (n: usize)
        ensures
            n == self.contradictory,
    {
        self.contradictory
    }

    /// The per-block brackets, in time order.
    pub fn blocks(&self) -> (blocks: &[BlockReport])
        ensures
            blocks@ == self.blocks@,
    {
        self.blocks.as_slice()
    }

    /// The whole report, with the caveats attached to the numbers.
    pub fn to_string(&self) -> (out: String)
        requires
            self.wf(),
        ensures
            out@ == report_text(*self),
    {
        let mut out = String::new();
        put_heading(&mut out, self);
        put_round_trips(&mut out, self);
        put_blocks(&mut out, self);
        put_drift(&mut out, self);
        put_convergence(&mut out, self);
        put_costs(&mut out, self);
        put_suppression(&mut out, self);
        put_settling(&mut out, self);
        out.push_str("offset to apply ");
        text::put_fixed(&mut out, self.offset.as_nanos() as i128, 1_000_000, 3);
        out.push_str(" ms, bracket ");
        text::put_fixed(&mut out, self.bracket_width.as_nanos() as i128, 1_000_000, 3);
        out.push_str(" ms\n");
        out.push_str("This is a path constant, calibrated once. It does not decay, and it is\n");
        out.push_str("not a time transfer — the time still comes from the advertisements.\n");
        out
    }
}

/// A refusal in words.
pub open spec fn flaw_text(flaw: FlawView) -> Seq<char> {
    match flaw {
        FlawView::NoRoundTrips =>
            "no round trips in the capture: nothing bounds the offset from above"@,
        FlawView::ClockJumped { at, by } => "the device clock jumped "@ + text::fixed_with_sign(
            by,
            1_000_000_000,
            1,
        ) + " s at "@ + text::fixed(at@ as int, 1_000_000_000, 1)
            + " s in — a midnight wrap or a re-jam. Every figure here is a minimum, so one such step becomes the answer; split the capture and re-run"@,
        FlawView::NotRoundTrips { short, total, shortest } => text::decimal(short) + " of "@
            + text::decimal(total)
            + " round trips came back in under one connection interval, the shortest in "@ + text::fixed(
            shortest@ as int,
            1_000_000,
            3,
        )
            + " ms, which a real one cannot do. A read taken while subscribed is resolved by the notification stream, not by a Read Response, so its timing is fiction — re-capture without subscribing"@,
        FlawView::EveryBlockContradictory { blocks } => "all "@ + text::decimal(blocks)
            + " block(s) came out with a negative bracket, which is impossible for a real round trip: each holds at least one sample whose device stamp predates the request that returned it"@,
        FlawView::StreamsContradict { upper, lower } =>
            "the pooled bounds on the offset cross: min(a) over the reads is "@ + text::fixed(
            upper,
            1_000_000,
            3,
        ) + " ms against a floor of "@ + text::fixed(lower, 1_000_000, 3)
            + " ms over every stream, so no value of the offset satisfies both"@,
        FlawView::NoFreeRunning =>
            "no free-running advertisements in the capture, so the path a passive clock uses was never observed unperturbed. Rest between connections and keep scanning through the rest"@,
    }
}

impl Flaw {
    /// The refusal in words.
    pub fn to_string(&self) -> (out: String)
        ensures
            out@ == flaw_text(self@),
    {
        let mut out = String::new();
        match self {
            Flaw::NoRoundTrips => {
                out.push_str(
                    "no round trips in the capture: nothing bounds the offset from above",
                );
            },
            Flaw::ClockJumped { at, by } => {
                out.push_str("the device clock jumped ");
                text::put_fixed_with_sign(&mut out, *by, 1_000_000_000, 1);
                out.push_str(" s at ");
                text::put_fixed(&mut out, at.as_nanos() as i128, 1_000_000_000, 1);
                out.push_str(
                    " s in — a midnight wrap or a re-jam. Every figure here is a minimum, so one such step becomes the answer; split the capture and re-run",
                );
            },
            Flaw::NotRoundTrips { short, total, shortest } => {
                text::put_decimal(&mut out, *short as u128);
                out.push_str(" of ");
                text::put_decimal(&mut out, *total as u128);
                out.push_str(
                    " round trips came back in under one connection interval, the shortest in ",
                );
                text::put_fixed(&mut out, shortest.as_nanos() as i128, 1_000_000, 3);
                out.push_str(
                    " ms, which a real one cannot do. A read taken while subscribed is resolved by the notification stream, not by a Read Response, so its timing is fiction — re-capture without subscribing",
                );
            },
            Flaw::EveryBlockContradictory { blocks } => {
                out.push_str("all ");
                text::put_decimal(&mut out, *blocks as u128);
                out.push_str(
                    " block(s) came out with a negative bracket, which is impossible for a real round trip: each holds at least one sample whose device stamp predates the request that returned it",
                );
            },
            Flaw::StreamsContradict { upper, lower } => {
                out.push_str("the pooled bounds on the offset cross: min(a) over the reads is ");
                upper.put_fixed(&mut out, 1_000_000, 3);
                out.push_str(" ms against a floor of ");
                lower.put_fixed(&mut out, 1_000_000, 3);
                out.push_str(" ms over every stream, so no value of the offset satisfies both");
            },
            Flaw::NoFreeRunning => {
                out.push_str(
                    "no free-running advertisements in the capture, so the path a passive clock uses was never observed unperturbed. Rest between connections and keep scanning through the rest",
                );
            },
        }
        assert(out@ =~= flaw_text(self@));
        out
    }
}

} // verus!
