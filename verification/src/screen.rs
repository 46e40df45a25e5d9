//! Drawing on a terminal: a line per device, redrawn in place, and one line of diagnostic
//! for when there is nothing to draw.

pub mod laws;

use vstd::prelude::*;

use crate::ble;
use crate::ble::Date;
use crate::text;
use crate::time::Instant;
use crate::timecode;
use crate::timecode::Timecode;

verus! {

/// How often to redraw a live display, in milliseconds. Comfortably above any frame rate a
/// Tentacle broadcasts, so each frame appears within a tick of when it starts.
pub const TICK_MILLIS: u64 = 20;

/// How long a device that's gone quiet keeps its line, in seconds.
///
/// Past the holdover a line freezes on the last reading that arrived and counts up, which
/// is worth seeing: reception is bursty and usually comes back. A box switched off ten
/// minutes ago isn't coming back and shouldn't still be holding a line.
pub const LINGER_SECS: u64 = 30;

/// How long to give timecode before saying what the scan is actually seeing, in seconds.
/// Long enough that a healthy Tentacle is never accused of silence.
pub const GRACE_SECS: u64 = 3;

/// `1 device` but `2 devices`.
pub open spec fn tally_text(n: nat, thing: Seq<char>) -> Seq<char> {
    text::decimal(n) + " "@ + thing + if n == 1 {
        ""@
    } else {
        "s"@
    }
}

/// `1 device` but `2 devices`, so a message about a bug doesn't read like one.
pub fn tally(n: usize, thing: &str) -> (out: String)
    ensures
        out@ == tally_text(n as nat, thing@),
{
    let mut out = text::decimal_text(n as u128);
    out.push_str(" ");
    out.push_str(thing);
    out.push_str(
        if n == 1 {
            ""
        } else {
            "s"
        },
    );
    out
}

/// The lines of a display, each ended so that what was behind it is cleared.
pub open spec fn cleared(lines: Seq<Seq<char>>) -> Seq<char>
    decreases lines.len(),
{
    if lines.len() == 0 {
        Seq::empty()
    } else {
        cleared(lines.drop_last()) + lines.last() + "\x1b[K\n"@
    }
}

/// Strings, as texts.
pub open spec fn texts(strings: Seq<String>) -> Seq<Seq<char>> {
    strings.map_values(|string: String| string@)
}

/// So many lines with nothing on them.
pub open spec fn blanks(n: nat) -> Seq<char>
    decreases n,
{
    if n == 0 {
        Seq::empty()
    } else {
        blanks((n - 1) as nat) + "\x1b[K\n"@
    }
}

/// The sequence that brings the cursor up by so many lines, nothing for none.
pub open spec fn up(n: nat) -> Seq<char> {
    if n == 0 {
        Seq::empty()
    } else {
        Seq::<char>::empty() + "\x1b["@ + text::decimal(n) + "A"@
    }
}

/// The lines that a redraw leaves with nothing on them.
pub open spec fn stale(lines: nat, previous: nat) -> nat {
    if previous > lines {
        (previous - lines) as nat
    } else {
        0
    }
}

/// The sequence that replaces the `previous` lines on screen with these.
pub open spec fn redraw_text(lines: Seq<Seq<char>>, previous: nat) -> Seq<char> {
    if lines.len() == 0 && previous == 0 {
        Seq::empty()
    } else {
        up(previous) + "\r"@ + cleared(lines) + blanks(stale(lines.len(), previous)) + up(
            stale(lines.len(), previous),
        )
    }
}

fn put_up(out: &mut String, n: usize)
    ensures
        final(out)@ == old(out)@ + up(n as nat),
{
    if n > 0 {
        out.push_str("\x1b[");
        text::put_decimal(out, n as u128);
        out.push_str("A");
    }
    assert(out@ =~= old(out)@ + up(n as nat));
}

/// The escape sequence that replaces the `previous` lines on screen with these.
///
/// Every line ends in a newline, so the cursor finishes on a fresh line below the display.
/// It moves up by what was drawn last time rather than by what's about to be drawn: a
/// second box coming into range extends the display downwards, and a device dropping off
/// has to have its line blanked before the cursor can come back to sit under the ones that
/// remain.
pub fn redraw(lines: &[String], previous: usize) -> (out: String)
    ensures
        out@ == redraw_text(texts(lines@), previous as nat),
{
    let mut out = String::new();
    let ghost given = texts(lines@);
    if lines.len() == 0 && previous == 0 {
        return out;
    }
    put_up(&mut out, previous);
    out.push_str("\r");
    let ghost front = up(previous as nat) + "\r"@;
    assert(out@ =~= front);
    let mut i: usize = 0;
    assert(given.take(0) =~= Seq::empty());
    assert(out@ =~= front + cleared(given.take(0)));
    while i < lines.len()
        invariant
            i <= lines.len(),
            given == texts(lines@),
            out@ == front + cleared(given.take(i as int)),
        decreases lines.len() - i,
    {
        assert(given.take(i + 1).drop_last() =~= given.take(i as int));
        assert(given[i as int] == lines@[i as int]@);
        out.push_str(lines[i].as_str());
        out.push_str("\x1b[K\n");
        assert(out@ =~= front + cleared(given.take(i + 1)));
        i = i + 1;
    }
    assert(given.take(i as int) =~= given);
    let ghost drawn = out@;
    let stale_lines: usize = if previous > lines.len() {
        previous - lines.len()
    } else {
        0
    };
    let mut n: usize = 0;
    assert(out@ =~= drawn + blanks(0));
    while n < stale_lines
        invariant
            n <= stale_lines,
            out@ == drawn + blanks(n as nat),
        decreases stale_lines - n,
    {
        out.push_str("\x1b[K\n");
        n = n + 1;
        assert(out@ =~= drawn + blanks(n as nat));
    }
    put_up(&mut out, stale_lines);
    assert(out@ =~= redraw_text(given, previous as nat));
    out
}

/// Which tenth of a frame a fraction falls in, held below the end of the frame. The
/// fraction is in billionths.
pub open spec fn tenth_digit(fraction: nat) -> nat {
    (if fraction > 999_000_000 {
        999_000_000
    } else {
        fraction
    }) / 100_000_000
}

/// That, as it is written.
pub open spec fn tenth_text(fraction: nat) -> Seq<char> {
    "."@ + text::decimal(tenth_digit(fraction))
}

/// The sub-frame position as a single digit, ".n" of the way into the frame.
///
/// Truncated rather than rounded, because rounding turns the last twentieth of a frame
/// into a "1.0" that reads as part of the frame number. A received reading can also sit a
/// little past the end of the frame it names, so clamp rather than widen.
pub fn tenth(fraction: u128) -> (out: String)
    ensures
        out@ == tenth_text(fraction as nat),
{
    let held: u128 = if fraction > 999_000_000 {
        999_000_000
    } else {
        fraction
    };
    let mut out = String::new();
    out.push_str(".");
    text::put_decimal(&mut out, held / 100_000_000);
    assert(out@ =~= tenth_text(fraction as nat));
    out
}

/// What stands behind the last colon of an identifier.
pub open spec fn after_colon(id: Seq<char>) -> Seq<char>
    decreases id.len(),
{
    if id.len() == 0 {
        id
    } else if id.last() == ':' {
        Seq::empty()
    } else {
        after_colon(id.drop_last()).push(id.last())
    }
}

/// The first eight characters of that.
pub open spec fn short_id_text(id: Seq<char>) -> Seq<char> {
    let tail = after_colon(id);
    if tail.len() > 8 {
        tail.take(8)
    } else {
        tail
    }
}

/// Enough of a peripheral's identifier to tell it from the others by: the first eight
/// characters of what stands behind the last colon.
pub fn short_id(id: &str) -> (out: String)
    ensures
        out@ == short_id_text(id@),
{
    let chars = text::chars_of(id);
    let mut from: usize = chars.len();
    assert(id@.take(from as int) =~= id@);
    assert(after_colon(id@) =~= after_colon(id@.take(from as int)) + id@.skip(from as int));
    while from > 0 && chars[from - 1] != ':'
        invariant
            from <= chars.len(),
            chars@ == id@,
            after_colon(id@) == after_colon(id@.take(from as int)) + id@.skip(from as int),
        decreases from,
    {
        proof {
            let c = id@[from - 1];
            assert(id@.take(from as int).drop_last() =~= id@.take(from - 1));
            assert(id@.take(from as int).last() == c);
            assert(after_colon(id@.take(from - 1)).push(c) + id@.skip(from as int)
                =~= after_colon(id@.take(from - 1)) + id@.skip(from - 1));
        }
        from = from - 1;
    }
    assert(after_colon(id@.take(from as int)) =~= Seq::empty());
    assert(after_colon(id@) =~= id@.skip(from as int));
    let mut out = String::new();
    let mut i: usize = from;
    let ghost tail = id@.skip(from as int);
    assert(tail.take(0) =~= Seq::empty());
    while i < chars.len() && i - from < 8
        invariant
            from <= i <= chars.len(),
            i - from <= 8,
            chars@ == id@,
            tail == id@.skip(from as int),
            out@ == tail.take(i - from),
        decreases chars.len() - i,
    {
        let c: char = chars[i];
        out.push(c);
        assert(tail.take(i - from + 1) =~= tail.take(i - from).push(c));
        i = i + 1;
    }
    assert(tail.take(tail.len() as int) =~= tail);
    out
}

/// One device's line, before it's laid out. The name column is padded to the widest name
/// on screen, so every row has to be in hand before any one of them can be written.
#[derive(Debug)]
pub struct Line {
    /// First timecode, then id to break a tie: where this line sits.
    pub first: Instant,
    pub id: String,
    pub tc: Timecode,
    pub name: String,
    pub date: Option<Date>,
    pub rssi: Option<i16>,
    /// What stands behind the columns that every display has.
    pub tail: String,
}

/// A line, as texts.
pub struct LineView {
    pub first: Instant,
    pub id: Seq<char>,
    pub tc: Timecode,
    pub name: Seq<char>,
    pub date: Option<Date>,
    pub rssi: Option<i16>,
    pub tail: Seq<char>,
}

impl View for Line {
    type V = LineView;

    open spec fn view(&self) -> LineView {
        LineView {
            first: self.first,
            id: self.id@,
            tc: self.tc,
            name: self.name@,
            date: self.date,
            rssi: self.rssi,
            tail: self.tail@,
        }
    }
}

/// Lines, as texts.
pub open spec fn views(lines: Seq<Line>) -> Seq<LineView> {
    lines.map_values(|line: Line| line@)
}

/// Whether a line sits no lower than another.
pub open spec fn sits_above(a: LineView, b: LineView) -> bool {
    a.first@ < b.first@ || (a.first@ == b.first@ && text::at_most(a.id, b.id))
}

/// Lines with one more put in its place, above the first that sits no higher.
pub open spec fn placed(lines: Seq<LineView>, line: LineView) -> Seq<LineView>
    decreases lines.len(),
{
    if lines.len() == 0 || sits_above(line, lines[0]) {
        seq![line] + lines
    } else {
        seq![lines[0]] + placed(lines.drop_first(), line)
    }
}

/// Lines in the order they are drawn in.
pub open spec fn arranged(lines: Seq<LineView>) -> Seq<LineView>
    decreases lines.len(),
{
    if lines.len() == 0 {
        lines
    } else {
        placed(arranged(lines.drop_first()), lines[0])
    }
}

/// The width of the widest name.
pub open spec fn widest(lines: Seq<LineView>) -> nat
    decreases lines.len(),
{
    if lines.len() == 0 {
        0
    } else {
        let before = widest(lines.drop_last());
        if lines.last().name.len() > before {
            lines.last().name.len()
        } else {
            before
        }
    }
}

/// A date column, where there is a date.
pub open spec fn date_column(date: Option<Date>) -> Seq<char> {
    match date {
        Some(date) => "   "@ + ble::date_text(date),
        None => Seq::empty(),
    }
}

/// A signal strength column, where there is one.
pub open spec fn rssi_column(rssi: Option<i16>) -> Seq<char> {
    match rssi {
        Some(rssi) => Seq::<char>::empty() + "   "@ + text::signed_decimal(rssi as int) + " dBm"@,
        None => Seq::empty(),
    }
}

/// A line as it is drawn.
pub open spec fn line_text(line: LineView, name_width: nat) -> Seq<char> {
    Seq::<char>::empty() + "  "@ + timecode::timecode_text(line.tc) + text::pad_end(
        tenth_text(timecode::subframe_span(line.tc)),
        3,
        ' ',
    ) + "   "@ + text::decimal_column(line.tc.rate.fps as nat, 3) + " fps   "@ + text::pad_end(
        line.name,
        name_width,
        ' ',
    ) + date_column(line.date) + rssi_column(line.rssi) + line.tail
}

/// Lines as they are drawn, in order.
pub open spec fn drawn_lines(lines: Seq<LineView>) -> Seq<Seq<char>> {
    arranged(lines).map_values(|line: LineView| line_text(line, widest(arranged(lines))))
}

fn is_above(a: &Line, b: &Line) -> (yes: bool)
    ensures
        yes == sits_above(a@, b@),
{
    let at: u128 = a.first.as_nanos();
    let other: u128 = b.first.as_nanos();
    at < other || (at == other && text::is_at_most(a.id.as_str(), b.id.as_str()))
}

fn put_line(out: &mut String, line: &Line, name_width: usize)
    requires
        old(out)@.len() == 0,
    ensures
        final(out)@ == line_text(line@, name_width as nat),
{
    assert(out@ =~= Seq::<char>::empty());
    out.push_str("  ");
    out.push_str(line.tc.to_string().as_str());
    text::put_pad_end(out, tenth(line.tc.subframe_fraction()).as_str(), 3, ' ');
    out.push_str("   ");
    text::put_decimal_column(out, line.tc.rate.fps as u128, 3);
    out.push_str(" fps   ");
    text::put_pad_end(out, line.name.as_str(), name_width, ' ');
    let ghost before = out@;
    match &line.date {
        Some(date) => {
            out.push_str("   ");
            out.push_str(date.to_string().as_str());
        },
        None => {},
    }
    assert(out@ =~= before + date_column(line.date));
    let ghost before = out@;
    match line.rssi {
        Some(rssi) => {
            out.push_str("   ");
            text::put_signed(out, rssi as i64);
            out.push_str(" dBm");
        },
        None => {},
    }
    assert(out@ =~= before + rssi_column(line.rssi));
    out.push_str(line.tail.as_str());
}

/// Puts lines in the order they are drawn in.
fn arrange(lines: Vec<Line>) -> (out: Vec<Line>)
    ensures
        views(out@) == arranged(views(lines@)),
{
    let mut rest = lines;
    let mut out: Vec<Line> = Vec::new();
    let ghost all = views(lines@);
    assert(all.skip(all.len() as int) =~= Seq::empty());
    assert(views(out@) =~= Seq::empty());
    assert(views(rest@) =~= all.take(rest@.len() as int));
    while rest.len() > 0
        invariant
            rest@.len() <= all.len(),
            views(rest@) == all.take(rest@.len() as int),
            views(out@) == arranged(all.skip(rest@.len() as int)),
        decreases rest@.len(),
    {
        let ghost n = rest@.len() - 1;
        assert(views(rest@)[n] == rest@[n]@);
        let line = match rest.pop() {
            Some(line) => line,
            None => {
                return out;
            },
        };
        let mut at: usize = 0;
        let ghost before = views(out@);
        assert(before.skip(0) =~= before);
        assert(placed(before, line@) =~= before.take(0) + placed(before.skip(0), line@));
        while at < out.len() && !is_above(&line, &out[at])
            invariant
                at <= out@.len(),
                views(out@) == before,
                placed(before, line@) == before.take(at as int) + placed(
                    before.skip(at as int),
                    line@,
                ),
            decreases out@.len() - at,
        {
            proof {
                let tail = before.skip(at as int);
                assert(tail[0] == out@[at as int]@);
                assert(tail.drop_first() =~= before.skip(at + 1));
                assert(before.take(at as int) + (seq![tail[0]] + placed(tail.drop_first(), line@))
                    =~= before.take(at + 1) + placed(before.skip(at + 1), line@));
            }
            at = at + 1;
        }
        proof {
            let tail = before.skip(at as int);
            if tail.len() > 0 {
                assert(tail[0] == out@[at as int]@);
            }
            assert(tail.len() == 0 || sits_above(line@, tail[0]));
            assert(before.insert(at as int, line@) =~= before.take(at as int) + (seq![line@]
                + tail));
            assert(all.skip(n).drop_first() =~= all.skip(n + 1));
            assert(all.skip(n)[0] == line@);
            assert(views(out@.insert(at as int, line)) =~= before.insert(at as int, line@));
        }
        out.insert(at, line);
        assert(views(rest@) =~= all.take(n));
    }
    assert(all.skip(0) =~= all);
    out
}

/// Puts the lines in a fixed order and writes each one.
///
/// The order has to come out the same on every redraw, or two boxes would swap places.
pub fn lay_out(lines: Vec<Line>) -> (out: Vec<String>)
    ensures
        out@.len() == lines@.len(),
        texts(out@) == drawn_lines(views(lines@)),
{
    let ghost given = views(lines@);
    let sorted = arrange(lines);
    let ghost drawn = views(sorted@);
    let mut name_width: usize = 0;
    let mut i: usize = 0;
    assert(drawn.take(0) =~= Seq::empty());
    while i < sorted.len()
        invariant
            i <= sorted@.len(),
            drawn == views(sorted@),
            name_width == widest(drawn.take(i as int)),
        decreases sorted@.len() - i,
    {
        assert(drawn.take(i + 1).drop_last() =~= drawn.take(i as int));
        assert(drawn[i as int] == sorted@[i as int]@);
        let chars = text::chars_of(sorted[i].name.as_str());
        if chars.len() > name_width {
            name_width = chars.len();
        }
        i = i + 1;
    }
    assert(drawn.take(i as int) =~= drawn);
    let mut out: Vec<String> = Vec::new();
    i = 0;
    while i < sorted.len()
        invariant
            i <= sorted@.len(),
            out@.len() == i,
            drawn == views(sorted@),
            name_width == widest(drawn),
            forall|k: int|
                0 <= k < i ==> (#[trigger] out@[k])@ == line_text(drawn[k], widest(drawn)),
        decreases sorted@.len() - i,
    {
        let mut line = String::new();
        put_line(&mut line, &sorted[i], name_width);
        out.push(line);
        i = i + 1;
    }
    proof {
        lemma_arranging_keeps_the_count(given);
        assert(texts(out@) =~= drawn_lines(given));
    }
    out
}

proof fn lemma_placing(lines: Seq<LineView>, line: LineView)
    ensures
        placed(lines, line).len() == lines.len() + 1,
        placed(lines, line).to_multiset() == lines.to_multiset().insert(line),
    decreases lines.len(),
{
    broadcast use vstd::seq_lib::group_to_multiset_ensures;

    if lines.len() == 0 || sits_above(line, lines[0]) {
        vstd::seq_lib::lemma_multiset_commutative(seq![line], lines);
        assert(seq![line] =~= Seq::<LineView>::empty().push(line));
        assert(placed(lines, line).to_multiset() =~= lines.to_multiset().insert(line));
    } else {
        let rest = lines.drop_first();
        lemma_placing(rest, line);
        vstd::seq_lib::lemma_multiset_commutative(seq![lines[0]], placed(rest, line));
        vstd::seq_lib::lemma_multiset_commutative(seq![lines[0]], rest);
        assert(seq![lines[0]] + rest =~= lines);
        assert(placed(lines, line).to_multiset() =~= lines.to_multiset().insert(line));
    }
}

proof fn lemma_arranging_keeps_the_count(lines: Seq<LineView>)
    ensures
        arranged(lines).len() == lines.len(),
        arranged(lines).to_multiset() == lines.to_multiset(),
    decreases lines.len(),
{
    broadcast use vstd::seq_lib::group_to_multiset_ensures;

    if lines.len() > 0 {
        let rest = lines.drop_first();
        lemma_arranging_keeps_the_count(rest);
        lemma_placing(arranged(rest), lines[0]);
        vstd::seq_lib::lemma_multiset_commutative(seq![lines[0]], rest);
        assert(seq![lines[0]] + rest =~= lines);
        assert(seq![lines[0]] =~= Seq::<LineView>::empty().push(lines[0]));
        assert(arranged(lines).to_multiset() =~= lines.to_multiset());
    }
}

/// Two lines that sit in the same place.
pub open spec fn same_place(a: LineView, b: LineView) -> bool {
    a.first@ == b.first@ && a.id == b.id
}

/// Every line sits no lower than those after it.
pub open spec fn in_order(lines: Seq<LineView>) -> bool {
    forall|i: int, j: int|
        0 <= i < j < lines.len() ==> sits_above(#[trigger] lines[i], #[trigger] lines[j])
}

/// No two lines sit in the same place.
pub open spec fn places_differ(lines: Seq<LineView>) -> bool {
    forall|i: int, j: int|
        0 <= i < j < lines.len() ==> !same_place(#[trigger] lines[i], #[trigger] lines[j])
}

proof fn lemma_above_total(a: LineView, b: LineView)
    ensures
        sits_above(a, b) || sits_above(b, a),
        sits_above(a, b) && sits_above(b, a) ==> same_place(a, b),
{
    text::the_order_of_texts_is_total(a.id, b.id);
}

proof fn lemma_above_transitive(a: LineView, b: LineView, c: LineView)
    requires
        sits_above(a, b),
        sits_above(b, c),
    ensures
        sits_above(a, c),
{
    if a.first@ == b.first@ && b.first@ == c.first@ {
        text::the_order_of_texts_is_transitive(a.id, b.id, c.id);
    }
}

proof fn lemma_placing_in_order(lines: Seq<LineView>, line: LineView)
    requires
        in_order(lines),
    ensures
        in_order(placed(lines, line)),
        forall|x: LineView|
            (forall|k: int| 0 <= k < lines.len() ==> sits_above(x, #[trigger] lines[k]))
                && sits_above(x, line) ==> forall|k: int|
                0 <= k < placed(lines, line).len() ==> sits_above(
                    x,
                    #[trigger] placed(lines, line)[k],
                ),
    decreases lines.len(),
{
    let out = placed(lines, line);
    if lines.len() == 0 || sits_above(line, lines[0]) {
        assert forall|i: int, j: int| 0 <= i < j < out.len() implies sits_above(
            #[trigger] out[i],
            #[trigger] out[j],
        ) by {
            if i == 0 {
                assert(out[j] == lines[j - 1]);
                if j > 1 {
                    lemma_above_transitive(line, lines[0], lines[j - 1]);
                }
            } else {
                assert(out[i] == lines[i - 1] && out[j] == lines[j - 1]);
            }
        }
    } else {
        let rest = lines.drop_first();
        assert(in_order(rest)) by {
            assert forall|i: int, j: int| 0 <= i < j < rest.len() implies sits_above(
                #[trigger] rest[i],
                #[trigger] rest[j],
            ) by {
                assert(rest[i] == lines[i + 1] && rest[j] == lines[j + 1]);
            }
        }
        lemma_placing_in_order(rest, line);
        lemma_above_total(line, lines[0]);
        let first = lines[0];
        assert forall|k: int| 0 <= k < rest.len() implies sits_above(
            first,
            #[trigger] rest[k],
        ) by {
            assert(rest[k] == lines[k + 1]);
        }
        let tail = placed(rest, line);
        assert(forall|k: int| 0 <= k < tail.len() ==> sits_above(first, #[trigger] tail[k]));
        assert forall|i: int, j: int| 0 <= i < j < out.len() implies sits_above(
            #[trigger] out[i],
            #[trigger] out[j],
        ) by {
            assert(out[j] == tail[j - 1]);
            if i > 0 {
                assert(out[i] == tail[i - 1]);
            }
        }
        assert forall|x: LineView|
            (forall|k: int| 0 <= k < lines.len() ==> sits_above(x, #[trigger] lines[k]))
                && sits_above(x, line) implies forall|k: int|
            0 <= k < out.len() ==> sits_above(x, #[trigger] out[k]) by {
            assert forall|k: int| 0 <= k < rest.len() implies sits_above(x, #[trigger] rest[k]) by {
                assert(rest[k] == lines[k + 1]);
            }
            assert forall|k: int| 0 <= k < out.len() implies sits_above(x, #[trigger] out[k]) by {
                if k > 0 {
                    assert(out[k] == tail[k - 1]);
                } else {
                    assert(out[k] == lines[0]);
                }
            }
        }
    }
}

/// The lines of a display are in order, and they are the lines that were handed over, each
/// as often.
pub proof fn every_line_sits_in_its_place(lines: Seq<LineView>)
    ensures
        in_order(arranged(lines)),
        arranged(lines).to_multiset() == lines.to_multiset(),
        arranged(lines).len() == lines.len(),
    decreases lines.len(),
{
    lemma_arranging_keeps_the_count(lines);
    if lines.len() > 0 {
        every_line_sits_in_its_place(lines.drop_first());
        lemma_placing_in_order(arranged(lines.drop_first()), lines[0]);
    }
}

/// Two arrangements of the same lines, both in order, are the same one where no two lines
/// share a place.
proof fn lemma_one_order(a: Seq<LineView>, b: Seq<LineView>)
    requires
        in_order(a),
        in_order(b),
        places_differ(a),
        a.to_multiset() == b.to_multiset(),
    ensures
        a == b,
    decreases a.len(),
{
    broadcast use vstd::seq_lib::group_to_multiset_ensures;

    assert(a.len() == a.to_multiset().len() && b.len() == b.to_multiset().len());
    if a.len() > 0 {
        let x = a.last();
        let y = b.last();
        assert(a.to_multiset().count(x) > 0) by {
            assert(a.contains(x));
        }
        assert(b.to_multiset().count(y) > 0) by {
            assert(b.contains(y));
        }
        assert(b.contains(x));
        assert(a.contains(y));
        let j = choose|j: int| 0 <= j < b.len() && b[j] == x;
        let k = choose|k: int| 0 <= k < a.len() && a[k] == y;
        if k < a.len() - 1 {
            // `y` sits above `x` in the one order and `x` above `y` in the other.
            assert(sits_above(a[k], a[a.len() - 1]));
            if j < b.len() - 1 {
                assert(sits_above(b[j], b[b.len() - 1]));
            } else {
                assert(x == y);
                lemma_above_total(x, x);
            }
            lemma_above_total(x, y);
            assert(same_place(a[k], a[a.len() - 1]));
        }
        assert(x == y);
        let c = a.drop_last();
        let d = b.drop_last();
        assert(a =~= c.push(x) && b =~= d.push(x));
        assert(c.to_multiset() =~= d.to_multiset()) by {
            assert(a.to_multiset() =~= c.to_multiset().insert(x));
            assert(b.to_multiset() =~= d.to_multiset().insert(x));
            assert(c.to_multiset() =~= a.to_multiset().remove(x));
            assert(d.to_multiset() =~= b.to_multiset().remove(x));
        }
        assert(in_order(c)) by {
            assert forall|i: int, j: int| 0 <= i < j < c.len() implies sits_above(
                #[trigger] c[i],
                #[trigger] c[j],
            ) by {
                assert(c[i] == a[i] && c[j] == a[j]);
            }
        }
        assert(in_order(d)) by {
            assert forall|i: int, j: int| 0 <= i < j < d.len() implies sits_above(
                #[trigger] d[i],
                #[trigger] d[j],
            ) by {
                assert(d[i] == b[i] && d[j] == b[j]);
            }
        }
        assert(places_differ(c)) by {
            assert forall|i: int, j: int| 0 <= i < j < c.len() implies !same_place(
                #[trigger] c[i],
                #[trigger] c[j],
            ) by {
                assert(c[i] == a[i] && c[j] == a[j]);
            }
        }
        lemma_one_order(c, d);
    } else {
        assert(a =~= b);
    }
}

/// Whether two lines share a place does not depend on the order they come in.
proof fn lemma_places_still_differ(a: Seq<LineView>, b: Seq<LineView>)
    requires
        places_differ(a),
        a.to_multiset() == b.to_multiset(),
    ensures
        places_differ(b),
{
    broadcast use vstd::seq_lib::group_to_multiset_ensures;

    assert(a.no_duplicates()) by {
        assert forall|i: int, j: int| 0 <= i < j < a.len() implies a[i] != a[j] by {
            assert(!same_place(a[i], a[j]));
        }
    }
    a.lemma_multiset_has_no_duplicates();
    b.lemma_multiset_has_no_duplicates_conv();
    assert forall|i: int, j: int| 0 <= i < j < b.len() implies !same_place(
        #[trigger] b[i],
        #[trigger] b[j],
    ) by {
        assert(b.contains(b[i]) && b.contains(b[j]));
        assert(b.to_multiset().count(b[i]) > 0 && b.to_multiset().count(b[j]) > 0);
        assert(a.contains(b[i]) && a.contains(b[j]));
        let k = choose|k: int| 0 <= k < a.len() && a[k] == b[i];
        let l = choose|l: int| 0 <= l < a.len() && a[l] == b[j];
        assert(b[i] != b[j]);
        if k < l {
            assert(!same_place(a[k], a[l]));
        } else {
            assert(!same_place(a[l], a[k]));
        }
    }
}

/// Lines keep their order however they are handed over: the same lines in another order
/// are drawn the same, as long as no two of them start together under one id.
pub proof fn lines_keep_their_order_however_they_are_handed_over(a: Seq<LineView>, b: Seq<LineView>)
    requires
        a.to_multiset() == b.to_multiset(),
        places_differ(a),
    ensures
        arranged(a) == arranged(b),
{
    every_line_sits_in_its_place(a);
    every_line_sits_in_its_place(b);
    lemma_places_still_differ(a, arranged(a));
    lemma_one_order(arranged(a), arranged(b));
}

/// A tenth is one digit, and never the tenth that would be the next frame.
pub proof fn a_tenth_is_one_digit(fraction: nat)
    ensures
        tenth_digit(fraction) <= 9,
        tenth_text(fraction).len() == 2,
{
    reveal_strlit(".");
}

/// Owns one line of diagnostic.
///
/// The display redraws in place, so a diagnostic that scrolls past it, or is still sitting
/// on the line the display wants, is worse than none at all. This keeps at most one line,
/// rewrites it only when the text changes, and gets out of the way the moment there's
/// timecode. Each method says what is to be written.
///
/// On a terminal that's a single line rewritten in place. Redirected to a file there's no
/// cursor to move, so each distinct failure becomes a line of its own.
#[derive(Debug)]
pub struct Notice {
    pub tty: bool,
    pub shown: Option<String>,
    pub key: Option<String>,
}

/// Whether a text that may be absent is this one.
pub open spec fn is_text(held: Option<String>, text: Seq<char>) -> bool {
    match held {
        Some(held) => held@ == text,
        None => false,
    }
}

fn is_it(held: &Option<String>, text: &String) -> (yes: bool)
    ensures
        yes == is_text(*held, text@),
{
    match held {
        Some(held) => *held == *text,
        None => false,
    }
}

/// Whether a diagnosis is already said: on a terminal per changed word, since rewriting a
/// line in place costs nothing; in a file per changed key.
pub open spec fn already_said(notice: Notice, key: Seq<char>, text: Seq<char>) -> bool {
    if notice.tty {
        is_text(notice.shown, text)
    } else {
        is_text(notice.key, key)
    }
}

/// What saying something takes.
pub open spec fn said(tty: bool, text: Seq<char>) -> Seq<char> {
    if tty {
        Seq::<char>::empty() + "\r"@ + text + "\x1b[K"@
    } else {
        Seq::<char>::empty() + text + "\n"@
    }
}

/// A notice has been shown a diagnosis, and this is what it wrote.
pub open spec fn shows(
    before: Notice,
    after: Notice,
    key: Seq<char>,
    text: Seq<char>,
    out: Seq<char>,
) -> bool {
    if already_said(before, key, text) {
        out == Seq::<char>::empty() && after == before
    } else {
        &&& out == said(before.tty, text)
        &&& after.tty == before.tty
        &&& is_text(after.shown, text)
        &&& is_text(after.key, key)
    }
}

/// What a notice writes to give the line back.
pub open spec fn wiped(notice: Notice) -> Seq<char> {
    if notice.shown is Some && notice.tty {
        "\r\x1b[K"@
    } else {
        Seq::empty()
    }
}

impl Notice {
    pub fn new(tty: bool) -> (notice: Notice)
        ensures
            notice.tty == tty,
            notice.shown is None,
            notice.key is None,
    {
        Notice { tty, shown: None, key: None }
    }

    /// Puts a diagnosis on screen, or leaves it be if it's already said.
    pub fn show(&mut self, key: String, text: String) -> (out: String)
        ensures
            shows(*old(self), *final(self), key@, text@, out@),
    {
        let mut out = String::new();
        if self.tty {
            if is_it(&self.shown, &text) {
                return out;
            }
            out.push_str("\r");
            out.push_str(text.as_str());
            out.push_str("\x1b[K");
        } else {
            if is_it(&self.key, &key) {
                return out;
            }
            out.push_str(text.as_str());
            out.push_str("\n");
        }
        self.shown = Some(text);
        self.key = Some(key);
        out
    }

    /// Gives the line back, for when the display has something to put there.
    pub fn clear(&mut self) -> (out: String)
        ensures
            final(self).tty == old(self).tty,
            final(self).shown is None,
            final(self).key is None,
            out@ == wiped(*old(self)),
    {
        let mut out = String::new();
        self.key = None;
        if self.shown.is_some() && self.tty {
            out.push_str("\r\x1b[K");
            assert(out@ =~= "\r\x1b[K"@);
        }
        self.shown = None;
        out
    }

    /// Leaves the cursor below the message rather than on it, at exit.
    pub fn finish(&self) -> (out: String)
        ensures
            out@ == if self.shown is Some && self.tty {
                "\n"@
            } else {
                Seq::empty()
            },
    {
        let mut out = String::new();
        if self.shown.is_some() && self.tty {
            out.push_str("\n");
            assert(out@ =~= "\n"@);
        }
        out
    }
}

/// A thing is said once: a notice that has just shown a diagnosis has nothing to write for
/// the same one, and in a file nothing for the same failure in other words either.
pub proof fn a_thing_is_said_once(
    before: Notice,
    after: Notice,
    key: Seq<char>,
    text: Seq<char>,
    reworded: Seq<char>,
    out: Seq<char>,
)
    requires
        shows(before, after, key, text, out),
    ensures
        after.tty ==> already_said(after, key, text),
        !after.tty ==> already_said(after, key, reworded),
{
}

} // verus!
