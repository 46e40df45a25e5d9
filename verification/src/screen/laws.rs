//! What is left on the screen, and what the columns mean.

use vstd::prelude::*;

use crate::screen;
use crate::screen::{LineView, Notice};
use crate::text;
use crate::timecode;

verus! {

/// How many lines a text goes down by.
pub open spec fn line_ends(s: Seq<char>) -> nat
    decreases s.len(),
{
    if s.len() == 0 {
        0
    } else {
        line_ends(s.drop_last()) + (if s.last() == '\n' {
            1nat
        } else {
            0
        })
    }
}

proof fn lemma_line_ends(a: Seq<char>, b: Seq<char>)
    ensures
        line_ends(a + b) == line_ends(a) + line_ends(b),
    decreases b.len(),
{
    if b.len() == 0 {
        assert(a + b =~= a);
    } else {
        lemma_line_ends(a, b.drop_last());
        assert((a + b).drop_last() =~= a + b.drop_last());
    }
}

proof fn lemma_clearing()
    ensures
        line_ends("\x1b[K\n"@) == 1,
{
    reveal_strlit("\x1b[K\n");
    reveal_with_fuel(line_ends, 5);
}

/// A redraw leaves the cursor under the last of the lines that it drew. It comes up by as many
/// lines as there were, goes down by as many as there are, or by as many as there were where
/// that is more, the rest of them empty, and comes up again by the ones it emptied.
pub proof fn the_cursor_ends_under_the_lines(lines: Seq<Seq<char>>, previous: nat)
    requires
        forall|i: int| 0 <= i < lines.len() ==> line_ends(#[trigger] lines[i]) == 0,
    ensures
        ({
            let emptied = screen::stale(lines.len(), previous);
            let down = line_ends(screen::cleared(lines)) + line_ends(screen::blanks(emptied));
            &&& line_ends(screen::cleared(lines)) == lines.len()
            &&& line_ends(screen::blanks(emptied)) == emptied
            &&& previous <= down
            &&& emptied > 0 ==> previous == down
            &&& down - emptied == lines.len()
        }),
{
    lemma_cleared(lines);
    lemma_blanks(screen::stale(lines.len(), previous));
}

proof fn lemma_cleared(lines: Seq<Seq<char>>)
    requires
        forall|i: int| 0 <= i < lines.len() ==> line_ends(#[trigger] lines[i]) == 0,
    ensures
        line_ends(screen::cleared(lines)) == lines.len(),
    decreases lines.len(),
{
    if lines.len() > 0 {
        let front = lines.drop_last();
        assert forall|i: int| 0 <= i < front.len() implies line_ends(#[trigger] front[i]) == 0 by {
            assert(front[i] == lines[i]);
        }
        lemma_cleared(front);
        lemma_clearing();
        assert(line_ends(lines[lines.len() - 1]) == 0);
        lemma_line_ends(screen::cleared(front), lines.last());
        lemma_line_ends(screen::cleared(front) + lines.last(), "\x1b[K\n"@);
    }
}

proof fn lemma_blanks(n: nat)
    ensures
        line_ends(screen::blanks(n)) == n,
    decreases n,
{
    if n > 0 {
        lemma_blanks((n - 1) as nat);
        lemma_clearing();
        lemma_line_ends(screen::blanks((n - 1) as nat), "\x1b[K\n"@);
    }
}

/// Going up says by how many lines, and says nothing for none.
pub proof fn going_up_says_how_far(n: nat)
    ensures
        n == 0 <==> screen::up(n).len() == 0,
        n > 0 ==> text::laws::has_number(screen::up(n), "\x1b["@, n as int, "A"@),
{
    if n > 0 {
        let none = Seq::<char>::empty();
        text::laws::a_decimal_reads_back(n);
        assert(screen::up(n) =~= none + "\x1b["@ + text::decimal(n) + "A"@ + none);
    }
}

/// A count of things says how many, and makes them plural unless it is one.
pub proof fn a_count_of_things_reads_back(n: nat, thing: Seq<char>)
    ensures
        exists|digits: Seq<char>|
            {
                &&& screen::tally_text(n, thing) == #[trigger] (digits + " "@ + thing) + (if n
                    == 1 {
                    Seq::<char>::empty()
                } else {
                    seq!['s']
                })
                &&& text::laws::all_digits(digits)
                &&& text::laws::numeral(digits) == n
            },
{
    text::laws::a_decimal_reads_back(n);
    reveal_strlit("s");
    reveal_strlit("");
    let digits = text::decimal(n);
    assert(screen::tally_text(n, thing) =~= (digits + " "@ + thing) + (if n == 1 {
        Seq::<char>::empty()
    } else {
        seq!['s']
    }));
}

/// A tenth of a frame is the one that the fraction falls in, rounded down, and the last one
/// where it is past the end of the frame.
pub proof fn a_tenth_is_the_one_it_falls_in(fraction: nat)
    ensures
        ({
            let s = screen::tenth_text(fraction);
            let digit = text::laws::numeral(s.skip(1));
            &&& s.len() == 2
            &&& s[0] == '.'
            &&& text::laws::all_digits(s.skip(1))
            &&& fraction < 1_000_000_000 ==> digit * 100_000_000 <= fraction < (digit + 1)
                * 100_000_000
            &&& fraction >= 1_000_000_000 ==> digit == 9
        }),
{
    reveal_strlit(".");
    let s = screen::tenth_text(fraction);
    screen::a_tenth_is_one_digit(fraction);
    text::laws::a_decimal_reads_back(screen::tenth_digit(fraction));
    assert(s.skip(1) =~= text::decimal(screen::tenth_digit(fraction)));
}

/// A short identifier is what stands behind the last colon, as much of it as eight characters
/// hold; without a colon, the beginning.
pub proof fn a_short_identifier_stands_behind_the_last_colon(id: Seq<char>, from: int)
    requires
        0 <= from <= id.len(),
        from > 0 ==> id[from - 1] == ':',
        forall|i: int| from <= i < id.len() ==> #[trigger] id[i] != ':',
    ensures
        id.len() - from <= 8 ==> screen::short_id_text(id) == id.skip(from),
        id.len() - from > 8 ==> screen::short_id_text(id) == id.subrange(from, from + 8),
{
    lemma_after_colon(id, from);
    assert(id.skip(from).take(8) =~= id.subrange(from, from + 8) || id.len() - from <= 8);
}

proof fn lemma_after_colon(id: Seq<char>, from: int)
    requires
        0 <= from <= id.len(),
        from > 0 ==> id[from - 1] == ':',
        forall|i: int| from <= i < id.len() ==> #[trigger] id[i] != ':',
    ensures
        screen::after_colon(id) == id.skip(from),
    decreases id.len(),
{
    if id.len() == from {
        assert(id.skip(from) =~= Seq::empty());
        if id.len() > 0 {
            assert(id.last() == id[from - 1]);
        }
    } else {
        let front = id.drop_last();
        assert forall|i: int| from <= i < front.len() implies #[trigger] front[i] != ':' by {
            assert(front[i] == id[i]);
        }
        assert(id[id.len() - 1] != ':');
        lemma_after_colon(front, from);
        assert(front.skip(from).push(id.last()) =~= id.skip(from));
    }
}

/// The name column is as wide as the widest name: no name is wider, and one is as wide, unless
/// there are none.
pub proof fn the_name_column_fits_the_widest(lines: Seq<LineView>)
    ensures
        forall|i: int|
            0 <= i < lines.len() ==> (#[trigger] lines[i]).name.len() <= screen::widest(lines),
        lines.len() > 0 ==> exists|i: int|
            0 <= i < lines.len() && (#[trigger] lines[i]).name.len() == screen::widest(lines),
        lines.len() == 0 ==> screen::widest(lines) == 0,
    decreases lines.len(),
{
    if lines.len() > 0 {
        let front = lines.drop_last();
        the_name_column_fits_the_widest(front);
        assert forall|i: int| 0 <= i < lines.len() implies (#[trigger] lines[i]).name.len()
            <= screen::widest(lines) by {
            if i < front.len() {
                assert(front[i] == lines[i]);
            }
        }
        assert(lines[lines.len() - 1] == lines.last());
        if lines.last().name.len() <= screen::widest(front) && front.len() > 0 {
            let i = choose|i: int|
                0 <= i < front.len() && (#[trigger] front[i]).name.len() == screen::widest(front);
            assert(lines[i] == front[i]);
        }
    }
}

/// A line shows the clock, how far into the frame, the rate and the name, in that order; behind
/// them the date and the signal strength, where they are known.
pub proof fn a_line_reads_back(line: LineView, name_width: nat)
    ensures
        ({
            let s = screen::line_text(line, name_width);
            exists|rate: Seq<char>, rest: Seq<char>|
                {
                    &&& s == #[trigger] ("  "@ + timecode::timecode_text(line.tc)
                        + screen::tenth_text(timecode::subframe_span(line.tc)) + "    "@ + rate
                        + " fps   "@ + rest)
                    &&& rate == text::pad_start(text::decimal(line.tc.rate.fps as nat), 3, ' ')
                    &&& line.name.len() <= rest.len()
                    &&& rest.take(line.name.len() as int) == line.name
                    &&& line.name.len() <= name_width ==> name_width <= rest.len() && forall|i: int|
                        line.name.len() <= i < name_width ==> #[trigger] rest[i] == ' '
                }
        }),
        screen::rssi_column(None).len() == 0,
        line.rssi matches Some(rssi) ==> screen::rssi_column(line.rssi) == "   "@
            + text::signed_decimal(rssi as int) + " dBm"@,
{
    let s = screen::line_text(line, name_width);
    let rate = text::decimal_column(line.tc.rate.fps as nat, 3);
    let name = text::pad_end(line.name, name_width, ' ');
    let rest = name + screen::date_column(line.date) + screen::rssi_column(line.rssi) + line.tail;
    let tenth = screen::tenth_text(timecode::subframe_span(line.tc));
    screen::a_tenth_is_one_digit(timecode::subframe_span(line.tc));
    text::laws::a_column_holds_its_text(line.name, name_width, ' ');
    reveal_strlit("   ");
    reveal_strlit("    ");
    assert(text::pad_end(tenth, 3, ' ') + "   "@ =~= tenth + "    "@);
    assert(s =~= "  "@ + timecode::timecode_text(line.tc) + (text::pad_end(tenth, 3, ' ') + "   "@)
        + rate + " fps   "@ + rest);
    assert(s =~= "  "@ + timecode::timecode_text(line.tc) + tenth + "    "@ + rate + " fps   "@
        + rest);
    assert(rest.take(line.name.len() as int) =~= line.name);
    if line.name.len() <= name_width {
        assert forall|i: int| line.name.len() <= i < name_width implies #[trigger] rest[i]
            == ' ' by {
            assert(rest[i] == name[i]);
        }
    }
    if let Some(rssi) = line.rssi {
        assert(screen::rssi_column(line.rssi) =~= "   "@ + text::signed_decimal(rssi as int)
            + " dBm"@);
    }
}

/// A redraw goes up over what was drawn, back to the front of the line, down over as many lines
/// as there were or are, whichever is more, and up over the ones that it emptied. Where there
/// was nothing and is nothing, it writes nothing.
pub proof fn a_redraw_covers_what_was_drawn(lines: Seq<Seq<char>>, previous: nat)
    requires
        forall|i: int| 0 <= i < lines.len() ==> line_ends(#[trigger] lines[i]) == 0,
    ensures
        lines.len() == 0 && previous == 0 <==> screen::redraw_text(lines, previous).len() == 0,
        lines.len() > 0 || previous > 0 ==> exists|body: Seq<char>, emptied: nat|
            {
                &&& screen::redraw_text(lines, previous) == #[trigger] (screen::up(previous) + "\r"@
                    + body + screen::up(emptied))
                &&& line_ends(body) == (if lines.len() >= previous {
                    lines.len()
                } else {
                    previous
                })
                &&& line_ends(body) - emptied == lines.len()
            },
{
    the_cursor_ends_under_the_lines(lines, previous);
    let emptied = screen::stale(lines.len(), previous);
    let body = screen::cleared(lines) + screen::blanks(emptied);
    lemma_line_ends(screen::cleared(lines), screen::blanks(emptied));
    if lines.len() > 0 || previous > 0 {
        reveal_strlit("\r");
        assert(screen::redraw_text(lines, previous) =~= screen::up(previous) + "\r"@ + body
            + screen::up(emptied));
    }
}

/// Giving the line back writes something if and only if there is something on it and it is on
/// a terminal.
pub proof fn only_a_terminal_is_wiped(notice: Notice)
    ensures
        screen::wiped(notice).len() > 0 <==> notice.tty && notice.shown is Some,
{
    reveal_strlit("\r\x1b[K");
}

/// Lines are drawn in order, one for each, in a column as wide as the widest name.
pub proof fn every_line_is_drawn(lines: Seq<LineView>)
    ensures
        screen::drawn_lines(lines).len() == lines.len(),
        forall|i: int|
            0 <= i < lines.len() ==> #[trigger] screen::drawn_lines(lines)[i] == screen::line_text(
                screen::arranged(lines)[i],
                screen::widest(screen::arranged(lines)),
            ),
{
    screen::every_line_sits_in_its_place(lines);
}

} // verus!
