use shokushu::jam::reduce::Calibration;
use shokushu::jam::{Calibrator, Link, Stream};
use shokushu::time::{Duration, Instant};
use shokushu::timecode::{Rate, Timecode};

fn at(nanos: u64) -> Instant {
    Instant::after(Duration::from_nanos(1_000_000_000_000 + nanos))
}

/// The device's stamp at a host time: ten hours ahead, and running 8 ppm fast.
fn stamp(nanos: u64) -> Timecode {
    let device = 36_000_000_000_000i128 + nanos as i128 + nanos as i128 * 8 / 1_000_000;
    Timecode::at_frame_position(device * 25, Rate::whole(25))
}

/// Five minutes of reads whose two legs slide against each other, with advertisements on
/// either side of a link.
fn capture(bad_block: bool) -> Calibrator {
    let mut cal = Calibrator::since(at(0));
    for n in 0..1_200u64 {
        let sent = n * 250_000_000;
        let phase = n * 7_919_000 % 30_000_000;
        let out = 1_700_000 + (30_000_000 - phase);
        let back = 1_700_000 + phase;
        cal.round_trip(&stamp(sent + out), at(sent), at(sent + out + back));
    }
    if bad_block {
        let sent = 100_000_000_000;
        cal.round_trip(&stamp(sent - 27_000_000), at(sent), at(sent + 88_000_000));
    }
    for k in 0..400u64 {
        let arrived = 600_000_000 + k * 700_000_000;
        let delay = 350_000 + k * 37 % 11 * 500_000;
        cal.advert(&stamp(arrived - delay), at(arrived), Link::Down);
        if k % 5 == 0 {
            cal.advert(&stamp(arrived - delay - 9_500_000), at(arrived), Link::Up);
        }
    }
    cal.undecoded();
    cal
}

fn ms(nanos: i128) -> f64 {
    nanos as f64 / 1e6
}

fn span(d: Duration) -> i128 {
    d.as_nanos() as i128
}

fn expected(c: &Calibration) -> String {
    let mut out = format!("{} round trips over {:.0} s\n", c.round_trips, ms(span(c.span)) / 1e3);
    if c.undecoded > 0 {
        out += &format!("  {} payload(s) did not decode\n", c.undecoded);
    }
    out += "\n# Are these round trips\n\n";
    out += &format!(
        "  shortest {:.3} ms; {} of {} under one connection interval, which is\n  the least a \
         real one can take.\n\n",
        ms(span(c.shortest_rtt)),
        c.short_rtts,
        c.round_trips
    );
    out += "# The bracket, per block\n\n   at s      n     width    min rtt\n";
    for b in &c.blocks {
        out += &format!(
            "  {:6.0} {:6} {:9.3} {:10.3}{}\n",
            ms(span(b.at)) / 1e3,
            b.n,
            ms(b.width),
            ms(b.shortest_rtt),
            if b.contradictory { "  contradictory" } else { "" }
        );
    }
    out += "\n";
    if c.contradictory > 0 {
        out += &format!(
            "  {} block(s) came out with a negative width, which is impossible for a\n  real round \
             trip. They and their reads are excluded from everything\n  above, since a pooled \
             minimum would inherit the same\n  sample.\n\n",
            c.contradictory
        );
    }
    match (&c.drift_ppm, &c.drift_residual) {
        (Some(ppm), Some(rms)) => {
            out += &format!(
                "  the midpoints move at {:+.1} ppm, scattering {:.3} ms rms about\n  that line \
                 (Theil-Sen, so one bad block cannot own the fit).\n",
                ppm.word().unwrap() as f64 / 1e9,
                rms.word().unwrap() as f64 / 2e6
            );
        }
        _ => out += "  too few usable blocks to call a drift rate; use a longer capture.\n",
    }
    out += "\n# Does it converge\n\n  A minimum creeps down as samples accumulate, so a short run \
            reports a\n  bracket that is too wide — safe, but only worth quoting once it has\n  \
            stopped moving.\n\n       n     width\n";
    for step in &c.converge {
        out += &format!("  {:6} {:9.3}\n", step.n, ms(step.value.word().unwrap()));
    }
    out += "\n# What a one-way reading costs\n\n  How far behind the device's own clock each \
            stream's *least delayed*\n  reading was when it landed — the error left in a clock \
            that anchors on\n  the best reading it sees.\n\n";
    for cost in &c.staleness {
        out += &format!(
            "  {:>22} {:7}    {:.3} to {:.3} ms\n",
            cost.stream.label(),
            cost.n,
            ms(span(cost.bracket.low)),
            ms(span(cost.bracket.high))
        );
    }
    out += "\n  Low ends are against whichever stream reached the host soonest, so that\n  stream \
            reads zero by construction and the content is the upper bound.\n\n";
    if let Some(s) = c.suppression {
        out += "# Connected against free-running, at matched n\n\n";
        out += &format!("    connected    n={:4}   floor {:8.3} ms\n", s.n, ms(span(s.connected)));
        out += &format!("    free-running n={:4}   floor {:8.3} ms\n", s.n, ms(span(s.free_running)));
        out += &format!("    penalty                {:+8.3} ms\n\n", ms(s.penalty()));
        out += "  Matched counts, because a minimum over fewer samples sits higher for\n  that \
                reason alone and would otherwise look like a slower path.\n\n";
    }
    out += "# Has the advertisement floor settled\n\n";
    for step in &c.advert_converge {
        out += &format!("    n={:5}   floor {:8.3} ms\n", step.n, ms(step.value.word().unwrap()));
    }
    out += "\n";
    out += if c.settled() {
        "  Settled: the last step moved it by under 0.05 of the bracket.\n"
    } else {
        "  NOT settled. Still falling means the true staleness is *lower* than\n  reported — the \
         opposite of the direction the bracket errs in, so say\n  so rather than quoting the \
         number flat.\n"
    };
    out += &format!(
        "\noffset to apply {:.3} ms, bracket {:.3} ms\n",
        ms(span(c.offset)),
        ms(span(c.bracket_width))
    );
    out += "This is a path constant, calibrated once. It does not decay, and it is\nnot a time \
            transfer — the time still comes from the advertisements.\n";
    out
}

#[test]
fn the_report_is_written_from_the_figures() {
    for bad_block in [false, true] {
        let done = capture(bad_block).finish().expect("a clean capture");
        assert_eq!(done.contradictory_blocks(), bad_block as usize);
        assert_eq!(done.to_string(), expected(&done));
    }
}

#[test]
fn a_short_report_says_what_it_could_not_tell() {
    let mut cal = Calibrator::since(at(0));
    for n in 0..40u64 {
        let sent = n * 250_000_000;
        cal.round_trip(&stamp(sent + 30_000_000), at(sent), at(sent + 33_400_000));
    }
    cal.advert(&stamp(5_000_000_000), at(5_000_350_000), Link::Down);
    let done = cal.finish().expect("a clean capture");
    assert!(done.drift_ppm().is_none() && done.suppression().is_none() && !done.settled());
    assert_eq!(done.to_string(), expected(&done));
}

#[test]
fn the_figures_are_those_put_in() {
    let done = capture(false).finish().expect("a clean capture");
    assert_eq!(done.round_trips(), 1_200);
    assert_eq!(done.count(Stream::Read), 1_200);
    assert_eq!(done.count(Stream::Advert), 400);
    assert_eq!(done.count(Stream::ConnectedAdvert), 80);
    assert_eq!(done.blocks().len(), 10);
    let ppm = done.drift_ppm().as_ref().unwrap().word().unwrap() as f64 / 1e9;
    assert!((ppm - 8.0).abs() < 0.1, "{ppm}");
    let penalty = done.suppression().unwrap().penalty();
    assert!((ms(penalty) - 9.5).abs() < 0.1, "{}", ms(penalty));
    // Two floors of 1.7 ms, a fortieth of a millisecond of phase, and the drift within a block.
    assert!((ms(span(done.bracket_width())) - 3.4).abs() < 0.1);
    assert!(done.settled());
}
