//! What the records of a run say.

use vstd::prelude::*;

use crate::ble;
use crate::ble::jam;
use crate::ble::{Advert, Status};
use crate::display;
use crate::dump;
use crate::gatt;
use crate::gatt::digest;
use crate::gatt::phase;
use crate::gatt::session;
use crate::gatt::summary;
use crate::text;
use crate::time::{Duration, Instant};
use crate::timecode;
use crate::timecode::Timecode;

verus! {

/// The fields of a timecode stand behind their own keys and read back.
pub proof fn a_timecodes_fields_read_back(tc: Timecode)
    ensures
        ({
            let line = phase::fields_text(Some(tc)) + "}"@;
            &&& text::laws::has_number(line, "\"fps\":"@, (tc.rate.fps as nat) as int, ",\"hours\":"@)
            &&& text::laws::has_number(line, ",\"hours\":"@, (tc.hours as nat) as int, ",\"minutes\":"@)
            &&& text::laws::has_number(line, ",\"minutes\":"@, (tc.minutes as nat) as int, ",\"seconds\":"@)
            &&& text::laws::has_number(line, ",\"seconds\":"@, (tc.seconds as nat) as int, ",\"frames\":"@)
            &&& text::laws::has_number(line, ",\"frames\":"@, (tc.frames as nat) as int, ",\"subframe_micros\":"@)
            &&& text::laws::has_number(line, ",\"subframe_micros\":"@, (tc.subframe@ / 1_000) as int, "}"@)
        }),
{
    let line = phase::fields_text(Some(tc)) + "}"@;
    let p0 = Seq::<Seq<char>>::empty();
    let p1 = p0.push("\"fps\":"@);
    text::laws::lemma_joined(p0, "\"fps\":"@);
    let p2 = p1.push(text::decimal(tc.rate.fps as nat));
    text::laws::lemma_joined(p1, text::decimal(tc.rate.fps as nat));
    let p3 = p2.push(",\"hours\":"@);
    text::laws::lemma_joined(p2, ",\"hours\":"@);
    let p4 = p3.push(text::decimal(tc.hours as nat));
    text::laws::lemma_joined(p3, text::decimal(tc.hours as nat));
    let p5 = p4.push(",\"minutes\":"@);
    text::laws::lemma_joined(p4, ",\"minutes\":"@);
    let p6 = p5.push(text::decimal(tc.minutes as nat));
    text::laws::lemma_joined(p5, text::decimal(tc.minutes as nat));
    let p7 = p6.push(",\"seconds\":"@);
    text::laws::lemma_joined(p6, ",\"seconds\":"@);
    let p8 = p7.push(text::decimal(tc.seconds as nat));
    text::laws::lemma_joined(p7, text::decimal(tc.seconds as nat));
    let p9 = p8.push(",\"frames\":"@);
    text::laws::lemma_joined(p8, ",\"frames\":"@);
    let p10 = p9.push(text::decimal(tc.frames as nat));
    text::laws::lemma_joined(p9, text::decimal(tc.frames as nat));
    let p11 = p10.push(",\"subframe_micros\":"@);
    text::laws::lemma_joined(p10, ",\"subframe_micros\":"@);
    let p12 = p11.push(text::decimal(tc.subframe@ / 1_000));
    text::laws::lemma_joined(p11, text::decimal(tc.subframe@ / 1_000));
    let p13 = p12.push("}"@);
    text::laws::lemma_joined(p12, "}"@);
    assert(text::laws::joined(p13) == line);
    text::laws::lemma_number_part(p13, 1, tc.rate.fps as nat);
    text::laws::lemma_number_part(p13, 3, tc.hours as nat);
    text::laws::lemma_number_part(p13, 5, tc.minutes as nat);
    text::laws::lemma_number_part(p13, 7, tc.seconds as nat);
    text::laws::lemma_number_part(p13, 9, tc.frames as nat);
    text::laws::lemma_number_part(p13, 11, tc.subframe@ / 1_000);
}

/// The record of a round trip has both host stamps, the first one first, and the bytes
/// between.
pub proof fn a_round_trip_reads_back(
    overall: Instant,
    sent: Instant,
    received: Instant,
    bytes: Seq<u8>,
)
    ensures
        ({
            let line = phase::round_trip_text(overall, sent, received, bytes);
            &&& text::laws::has_number(line, "{\"kind\":\"read\",\"t0_micros\":"@, (display::micros_since(overall, sent)) as int, ",\"t1_micros\":"@)
            &&& text::laws::has_number(line, ",\"t1_micros\":"@, (display::micros_since(overall, received)) as int, ",\"payload\":\""@)
            &&& text::laws::has_text(line, ",\"payload\":\""@, text::hex_run(bytes), "\","@)
            &&& text::laws::has_text(line, "\","@, phase::fields_text(jam::vendor_reading(bytes)), "}"@)
        }),
{
    let line = phase::round_trip_text(overall, sent, received, bytes);
    let p0 = Seq::<Seq<char>>::empty();
    let p1 = p0.push("{\"kind\":\"read\",\"t0_micros\":"@);
    text::laws::lemma_joined(p0, "{\"kind\":\"read\",\"t0_micros\":"@);
    let p2 = p1.push(text::decimal(display::micros_since(overall, sent)));
    text::laws::lemma_joined(p1, text::decimal(display::micros_since(overall, sent)));
    let p3 = p2.push(",\"t1_micros\":"@);
    text::laws::lemma_joined(p2, ",\"t1_micros\":"@);
    let p4 = p3.push(text::decimal(display::micros_since(overall, received)));
    text::laws::lemma_joined(p3, text::decimal(display::micros_since(overall, received)));
    let p5 = p4.push(",\"payload\":\""@);
    text::laws::lemma_joined(p4, ",\"payload\":\""@);
    let p6 = p5.push(text::hex_run(bytes));
    text::laws::lemma_joined(p5, text::hex_run(bytes));
    let p7 = p6.push("\","@);
    text::laws::lemma_joined(p6, "\","@);
    let p8 = p7.push(phase::fields_text(jam::vendor_reading(bytes)));
    text::laws::lemma_joined(p7, phase::fields_text(jam::vendor_reading(bytes)));
    let p9 = p8.push("}"@);
    text::laws::lemma_joined(p8, "}"@);
    assert(text::laws::joined(p9) == line);
    text::laws::lemma_number_part(p9, 1, display::micros_since(overall, sent));
    text::laws::lemma_number_part(p9, 3, display::micros_since(overall, received));
    text::laws::lemma_part(p9, 5);
    text::laws::lemma_part(p9, 7);
}

/// The record of what only arrived has its kind and its one stamp.
pub proof fn a_one_way_record_reads_back(
    kind: Seq<char>,
    overall: Instant,
    at: Instant,
    tc: Option<Timecode>,
)
    ensures
        ({
            let line = phase::one_way_text(kind, overall, at, tc);
            &&& text::laws::has_text(line, "{\"kind\":\""@, kind, "\",\"at_micros\":"@)
            &&& text::laws::has_number(line, "\",\"at_micros\":"@, (display::micros_since(overall, at)) as int, ","@)
            &&& text::laws::has_text(line, ","@, phase::fields_text(tc), "}"@)
        }),
{
    let line = phase::one_way_text(kind, overall, at, tc);
    let p0 = Seq::<Seq<char>>::empty();
    let p1 = p0.push("{\"kind\":\""@);
    text::laws::lemma_joined(p0, "{\"kind\":\""@);
    let p2 = p1.push(kind);
    text::laws::lemma_joined(p1, kind);
    let p3 = p2.push("\",\"at_micros\":"@);
    text::laws::lemma_joined(p2, "\",\"at_micros\":"@);
    let p4 = p3.push(text::decimal(display::micros_since(overall, at)));
    text::laws::lemma_joined(p3, text::decimal(display::micros_since(overall, at)));
    let p5 = p4.push(","@);
    text::laws::lemma_joined(p4, ","@);
    let p6 = p5.push(phase::fields_text(tc));
    text::laws::lemma_joined(p5, phase::fields_text(tc));
    let p7 = p6.push("}"@);
    text::laws::lemma_joined(p6, "}"@);
    assert(text::laws::joined(p7) == line);
    text::laws::lemma_part(p7, 1);
    text::laws::lemma_number_part(p7, 3, display::micros_since(overall, at));
    text::laws::lemma_part(p7, 5);
}

/// The record of a connection has its number, its stamp and what happened.
pub proof fn a_session_record_reads_back(overall: Instant, at: Instant, n: nat, what: Seq<char>)
    ensures
        ({
            let line = phase::session_text(overall, at, n, what);
            &&& text::laws::has_number(line, "{\"kind\":\"session\",\"at_micros\":"@, (display::micros_since(overall, at)) as int, ",\"session\":"@)
            &&& text::laws::has_number(line, ",\"session\":"@, (n) as int, ",\"event\":\""@)
            &&& text::laws::has_text(line, ",\"event\":\""@, what, "\"}"@)
        }),
{
    let line = phase::session_text(overall, at, n, what);
    let p0 = Seq::<Seq<char>>::empty();
    let p1 = p0.push("{\"kind\":\"session\",\"at_micros\":"@);
    text::laws::lemma_joined(p0, "{\"kind\":\"session\",\"at_micros\":"@);
    let p2 = p1.push(text::decimal(display::micros_since(overall, at)));
    text::laws::lemma_joined(p1, text::decimal(display::micros_since(overall, at)));
    let p3 = p2.push(",\"session\":"@);
    text::laws::lemma_joined(p2, ",\"session\":"@);
    let p4 = p3.push(text::decimal(n));
    text::laws::lemma_joined(p3, text::decimal(n));
    let p5 = p4.push(",\"event\":\""@);
    text::laws::lemma_joined(p4, ",\"event\":\""@);
    let p6 = p5.push(what);
    text::laws::lemma_joined(p5, what);
    let p7 = p6.push("\"}"@);
    text::laws::lemma_joined(p6, "\"}"@);
    assert(text::laws::joined(p7) == line);
    text::laws::lemma_number_part(p7, 1, display::micros_since(overall, at));
    text::laws::lemma_number_part(p7, 3, n);
    text::laws::lemma_part(p7, 5);
}

/// The mark of a byte says how many values it has had: a point for one, the number from two to
/// nine, and a plus for more.
pub proof fn a_mark_says_how_many_values(per_byte: Seq<Set<u8>>, i: int)
    requires
        0 <= i < per_byte.len(),
    ensures
        ({
            let s = digest::volatility_text(per_byte);
            let n = per_byte[i].len();
            &&& s.len() == per_byte.len()
            &&& s[i] == '.' <==> n == 1
            &&& s[i] == '+' <==> n > 9
            &&& n <= 9 && n != 1 ==> s[i] as int == '0' as int + n
        }),
{
    let s = digest::volatility_text(per_byte);
    assert(s[i] == digest::moved(per_byte[i].len()));
}

/// Payloads of a length are counted, and no others; the counts of two lists add up.
pub proof fn payloads_of_a_length_are_counted(a: Seq<Seq<u8>>, b: Seq<Seq<u8>>, len: nat)
    ensures
        digest::of_length(a + b, len) == digest::of_length(a, len) + digest::of_length(b, len),
        (forall|i: int| 0 <= i < a.len() ==> (#[trigger] a[i]).len() != len) <==> digest::of_length(
            a,
            len,
        ) == 0,
        (forall|i: int| 0 <= i < a.len() ==> (#[trigger] a[i]).len() == len) <==> digest::of_length(
            a,
            len,
        ) == a.len(),
        digest::of_length(a, len) <= a.len(),
    decreases a.len(), b.len(),
{
    if b.len() > 0 {
        payloads_of_a_length_are_counted(a, b.drop_last(), len);
        assert((a + b).drop_last() =~= a + b.drop_last());
    } else {
        assert(a + b =~= a);
    }
    if a.len() > 0 {
        let front = a.drop_last();
        payloads_of_a_length_are_counted(front, Seq::empty(), len);
        assert(a[a.len() - 1] == a.last());
        assert(forall|i: int| 0 <= i < front.len() ==> #[trigger] front[i] == a[i]);
        if digest::of_length(a, len) == 0 {
            assert forall|i: int| 0 <= i < a.len() implies (#[trigger] a[i]).len() != len by {
                if i < front.len() {
                    assert(front[i] == a[i]);
                }
            }
        }
        if digest::of_length(a, len) == a.len() {
            assert forall|i: int| 0 <= i < a.len() implies (#[trigger] a[i]).len() == len by {
                if i < front.len() {
                    assert(front[i] == a[i]);
                }
            }
        }
    }
}

/// A list of lengths has an entry.
pub open spec fn has_entry(list: Seq<char>, len: nat, n: nat) -> bool {
    exists|front: Seq<char>, back: Seq<char>|
        list == #[trigger] (front + (text::decimal(len) + ": "@ + text::decimal(n)) + back)
}

proof fn lemma_entry(unique: Seq<Seq<u8>>, bound: nat, len: nat)
    requires
        len < bound,
        digest::of_length(unique, len) > 0,
    ensures
        has_entry(digest::length_list(unique, bound), len, digest::of_length(unique, len)),
    decreases bound,
{
    let less = (bound - 1) as nat;
    let before = digest::length_list(unique, less);
    let n = digest::of_length(unique, less);
    let list = digest::length_list(unique, bound);
    let comma = if before.len() > 0 {
        ", "@
    } else {
        Seq::empty()
    };
    if len == less {
        let entry = text::decimal(len) + ": "@ + text::decimal(n);
        assert(list =~= (before + comma) + entry + Seq::<char>::empty());
    } else {
        lemma_entry(unique, less, len);
        let entry = text::decimal(len) + ": "@ + text::decimal(digest::of_length(unique, len));
        let (front, back) = choose|front: Seq<char>, back: Seq<char>|
            before == #[trigger] (front + entry + back);
        if n > 0 {
            let more = comma + text::decimal(less) + ": "@ + text::decimal(n);
            assert(list =~= front + entry + (back + more));
        }
    }
}

proof fn lemma_longest(unique: Seq<Seq<u8>>)
    ensures
        forall|i: int|
            0 <= i < unique.len() ==> (#[trigger] unique[i]).len() <= digest::longest(unique),
    decreases unique.len(),
{
    if unique.len() > 0 {
        let front = unique.drop_last();
        lemma_longest(front);
        assert forall|i: int| 0 <= i < unique.len() implies (#[trigger] unique[i]).len()
            <= digest::longest(unique) by {
            if i < front.len() {
                assert(front[i] == unique[i]);
            }
        }
    }
}

/// Every length that occurs is listed, with how many distinct payloads have it.
pub proof fn every_length_is_listed(unique: Seq<Seq<u8>>, i: int)
    requires
        0 <= i < unique.len(),
    ensures
        has_entry(
            digest::lengths_text(unique),
            unique[i].len(),
            digest::of_length(unique, unique[i].len()),
        ),
{
    let len = unique[i].len();
    lemma_longest(unique);
    payloads_of_a_length_are_counted(unique, Seq::empty(), len);
    let bound = digest::longest(unique) + 1;
    lemma_entry(unique, bound, len);
    let entry = text::decimal(len) + ": "@ + text::decimal(digest::of_length(unique, len));
    let list = digest::length_list(unique, bound);
    let (front, back) = choose|front: Seq<char>, back: Seq<char>|
        list == #[trigger] (front + entry + back);
    assert(digest::lengths_text(unique) =~= ("{"@ + front) + entry + (back + "}"@));
}

/// No life is shorter than the shortest or longer than the longest, and each of those is one
/// of them.
pub proof fn the_shortest_and_the_longest_bound_the_rest(lives: Seq<Duration>)
    requires
        lives.len() > 0,
    ensures
        forall|i: int|
            0 <= i < lives.len() ==> summary::shortest(lives) <= (#[trigger] lives[i])@
                <= summary::longest(lives),
        exists|i: int| 0 <= i < lives.len() && (#[trigger] lives[i])@ == summary::shortest(lives),
        exists|i: int| 0 <= i < lives.len() && (#[trigger] lives[i])@ == summary::longest(lives),
    decreases lives.len(),
{
    let last = lives.len() - 1;
    assert(lives[last] == lives.last());
    if lives.len() > 1 {
        let front = lives.drop_last();
        the_shortest_and_the_longest_bound_the_rest(front);
        assert forall|i: int| 0 <= i < lives.len() implies summary::shortest(lives) <= (
        #[trigger] lives[i])@ <= summary::longest(lives) by {
            if i < last {
                assert(front[i] == lives[i]);
            }
        }
        let i = choose|i: int|
            0 <= i < front.len() && (#[trigger] front[i])@ == summary::shortest(front);
        let j = choose|j: int|
            0 <= j < front.len() && (#[trigger] front[j])@ == summary::longest(front);
        assert(lives[i] == front[i]);
        assert(lives[j] == front[j]);
    }
}

/// Lives add up, one by one.
pub proof fn lives_add_up(lives: Seq<Duration>, more: Seq<Duration>, life: Duration)
    ensures
        summary::total(lives + more) == summary::total(lives) + summary::total(more),
        summary::total(seq![life]) == life@,
    decreases more.len(),
{
    assert(seq![life].drop_last() =~= Seq::empty());
    reveal_with_fuel(summary::total, 2);
    if more.len() > 0 {
        lives_add_up(lives, more.drop_last(), life);
        assert((lives + more).drop_last() =~= lives + more.drop_last());
    } else {
        assert(lives + more =~= lives);
    }
}

/// What is said of the lives of the connections: how many there were, and the shortest, the
/// longest and the mean of them, each in seconds to the nearest hundredth.
#[verifier::rlimit(30)]
pub proof fn what_is_said_of_lives_is_the_nearest(lives: Seq<Duration>)
    requires
        lives.len() > 0,
    ensures
        ({
            let line = summary::lives_text(lives);
            let second: int = 1_000_000_000;
            exists|least: Seq<char>, most: Seq<char>, mean: Seq<char>|
                {
                    &&& text::laws::has_number(line, "  link life over "@, (lives.len()) as int, " sessions: "@)
            &&& text::laws::has_text(line, " sessions: "@, least, "s.."@)
            &&& text::laws::has_text(line, "s.."@, most, "s, mean "@)
            &&& text::laws::has_text(line, "s, mean "@, mean, "s\n"@)
                    &&& #[trigger] text::laws::is_figure(
                        least,
                        summary::shortest(lives) as int,
                        second,
                        2,
                        100,
                    )
                    &&& #[trigger] text::laws::is_figure(
                        most,
                        summary::longest(lives) as int,
                        second,
                        2,
                        100,
                    )
                    &&& #[trigger] text::laws::is_figure(
                        mean,
                        summary::total(lives) as int,
                        lives.len() * second,
                        2,
                        100,
                    )
                }
        }),
{
    let line = summary::lives_text(lives);
    let second: nat = 1_000_000_000;
    let least = text::fixed(summary::shortest(lives) as int, second, 2);
    let most = text::fixed(summary::longest(lives) as int, second, 2);
    let mean = text::fixed(summary::total(lives) as int, lives.len() * second, 2);
    assert(lives.len() * second > 0) by (nonlinear_arith)
        requires
            lives.len() > 0,
            second == 1_000_000_000,
    ;
    text::laws::lemma_is_figure(summary::shortest(lives) as int, second, 2);
    text::laws::lemma_is_figure(summary::longest(lives) as int, second, 2);
    text::laws::lemma_is_figure(summary::total(lives) as int, lives.len() * second, 2);
    let p0 = Seq::<Seq<char>>::empty();
    let p1 = p0.push("  link life over "@);
    text::laws::lemma_joined(p0, "  link life over "@);
    let p2 = p1.push(text::decimal(lives.len()));
    text::laws::lemma_joined(p1, text::decimal(lives.len()));
    let p3 = p2.push(" sessions: "@);
    text::laws::lemma_joined(p2, " sessions: "@);
    let p4 = p3.push(least);
    text::laws::lemma_joined(p3, least);
    let p5 = p4.push("s.."@);
    text::laws::lemma_joined(p4, "s.."@);
    let p6 = p5.push(most);
    text::laws::lemma_joined(p5, most);
    let p7 = p6.push("s, mean "@);
    text::laws::lemma_joined(p6, "s, mean "@);
    let p8 = p7.push(mean);
    text::laws::lemma_joined(p7, mean);
    let p9 = p8.push("s\n"@);
    text::laws::lemma_joined(p8, "s\n"@);
    assert(text::laws::joined(p9) == line);
    text::laws::lemma_number_part(p9, 1, lives.len());
    text::laws::lemma_part(p9, 3);
    text::laws::lemma_part(p9, 5);
    text::laws::lemma_part(p9, 7);
}

/// A rate is the nearest hundredth of what came in a second.
pub proof fn a_rate_is_what_came_in_a_second(count: nat, elapsed: nat)
    requires
        elapsed > 0,
    ensures
        text::laws::is_figure(
            summary::rate_text(count, elapsed),
            (count * 1_000_000_000) as int,
            elapsed as int,
            2,
            100,
        ),
{
    text::laws::lemma_is_figure((count * 1_000_000_000) as int, elapsed, 2);
}

/// A summary opens with how long the run took, how often it connected and how many
/// advertisements came from the target, if any did.
pub proof fn a_heading_reads_back(elapsed: nat, sessions: nat, adverts: nat)
    ensures
        ({
            let line = summary::heading_text(elapsed, sessions, adverts);
            let more = if adverts > 0 {
                Seq::<char>::empty() + " — "@ + text::decimal(adverts)
                    + " advertisement events from the target"@
            } else {
                Seq::empty()
            };
            &&& text::laws::has_text(line, "summary over "@, text::fixed(elapsed as int, 1_000_000_000, 1), "s in "@)
            &&& text::laws::has_number(line, "s in "@, (sessions) as int, " connection(s)"@)
            &&& text::laws::has_text(line, " connection(s)"@, more, "\n"@)
            &&& text::laws::is_figure(
                text::fixed(elapsed as int, 1_000_000_000, 1),
                elapsed as int,
                1_000_000_000,
                1,
                10,
            )
        }),
{
    let line = summary::heading_text(elapsed, sessions, adverts);
    let more = if adverts > 0 {
        Seq::<char>::empty() + " — "@ + text::decimal(adverts)
            + " advertisement events from the target"@
    } else {
        Seq::empty()
    };
    text::laws::lemma_is_figure(elapsed as int, 1_000_000_000, 1);
    let p0 = Seq::<Seq<char>>::empty();
    let p1 = p0.push("summary over "@);
    text::laws::lemma_joined(p0, "summary over "@);
    let p2 = p1.push(text::fixed(elapsed as int, 1_000_000_000, 1));
    text::laws::lemma_joined(p1, text::fixed(elapsed as int, 1_000_000_000, 1));
    let p3 = p2.push("s in "@);
    text::laws::lemma_joined(p2, "s in "@);
    let p4 = p3.push(text::decimal(sessions));
    text::laws::lemma_joined(p3, text::decimal(sessions));
    let p5 = p4.push(" connection(s)"@);
    text::laws::lemma_joined(p4, " connection(s)"@);
    let p6 = p5.push(more);
    text::laws::lemma_joined(p5, more);
    let p7 = p6.push("\n"@);
    text::laws::lemma_joined(p6, "\n"@);
    assert(text::laws::joined(p7) == line);
    text::laws::lemma_part(p7, 1);
    text::laws::lemma_number_part(p7, 3, sessions);
    text::laws::lemma_part(p7, 5);
}

/// What is said of a characteristic's notifications: how many came, how many were distinct,
/// how often, and how long they were.
#[verifier::rlimit(30)]
pub proof fn what_was_pushed_reads_back(d: digest::DigestView, elapsed: nat)
    ensures
        ({
            let line = summary::pushed_text(Some(d), elapsed);
            &&& text::laws::has_number(line, "      notify  "@, (d.count as nat) as int, " pushed, "@)
            &&& text::laws::has_number(line, " pushed, "@, (d.unique.len()) as int, " distinct, "@)
            &&& text::laws::has_text(line, " distinct, "@, summary::rate_text(d.count as nat, elapsed), "/s, lengths "@)
            &&& text::laws::has_text(line, "/s, lengths "@, digest::lengths_text(d.unique), "\n              volatility "@)
            &&& text::laws::has_text(line, "\n              volatility "@, digest::volatility_text(d.per_byte), "\n"@)
        }),
{
    let line = summary::pushed_text(Some(d), elapsed);
    let p0 = Seq::<Seq<char>>::empty();
    let p1 = p0.push("      notify  "@);
    text::laws::lemma_joined(p0, "      notify  "@);
    let p2 = p1.push(text::decimal(d.count as nat));
    text::laws::lemma_joined(p1, text::decimal(d.count as nat));
    let p3 = p2.push(" pushed, "@);
    text::laws::lemma_joined(p2, " pushed, "@);
    let p4 = p3.push(text::decimal(d.unique.len()));
    text::laws::lemma_joined(p3, text::decimal(d.unique.len()));
    let p5 = p4.push(" distinct, "@);
    text::laws::lemma_joined(p4, " distinct, "@);
    let p6 = p5.push(summary::rate_text(d.count as nat, elapsed));
    text::laws::lemma_joined(p5, summary::rate_text(d.count as nat, elapsed));
    let p7 = p6.push("/s, lengths "@);
    text::laws::lemma_joined(p6, "/s, lengths "@);
    let p8 = p7.push(digest::lengths_text(d.unique));
    text::laws::lemma_joined(p7, digest::lengths_text(d.unique));
    let p9 = p8.push("\n              volatility "@);
    text::laws::lemma_joined(p8, "\n              volatility "@);
    let p10 = p9.push(digest::volatility_text(d.per_byte));
    text::laws::lemma_joined(p9, digest::volatility_text(d.per_byte));
    let p11 = p10.push("\n"@);
    text::laws::lemma_joined(p10, "\n"@);
    assert(text::laws::joined(p11) == line);
    text::laws::lemma_number_part(p11, 1, d.count as nat);
    text::laws::lemma_number_part(p11, 3, d.unique.len());
    text::laws::lemma_part(p11, 5);
    text::laws::lemma_part(p11, 7);
    text::laws::lemma_part(p11, 9);
}

/// What is said of its reads.
pub proof fn what_was_read_reads_back(d: digest::DigestView)
    ensures
        ({
            let line = summary::read_text(Some(d));
            &&& text::laws::has_number(line, "      read    "@, (d.count as nat) as int, " reads, "@)
            &&& text::laws::has_number(line, " reads, "@, (d.unique.len()) as int, " distinct, volatility "@)
            &&& text::laws::has_text(line, " distinct, volatility "@, digest::volatility_text(d.per_byte), "\n"@)
        }),
{
    let line = summary::read_text(Some(d));
    let p0 = Seq::<Seq<char>>::empty();
    let p1 = p0.push("      read    "@);
    text::laws::lemma_joined(p0, "      read    "@);
    let p2 = p1.push(text::decimal(d.count as nat));
    text::laws::lemma_joined(p1, text::decimal(d.count as nat));
    let p3 = p2.push(" reads, "@);
    text::laws::lemma_joined(p2, " reads, "@);
    let p4 = p3.push(text::decimal(d.unique.len()));
    text::laws::lemma_joined(p3, text::decimal(d.unique.len()));
    let p5 = p4.push(" distinct, volatility "@);
    text::laws::lemma_joined(p4, " distinct, volatility "@);
    let p6 = p5.push(digest::volatility_text(d.per_byte));
    text::laws::lemma_joined(p5, digest::volatility_text(d.per_byte));
    let p7 = p6.push("\n"@);
    text::laws::lemma_joined(p6, "\n"@);
    assert(text::laws::joined(p7) == line);
    text::laws::lemma_number_part(p7, 1, d.count as nat);
    text::laws::lemma_number_part(p7, 3, d.unique.len());
    text::laws::lemma_part(p7, 5);
}

/// A payload that is a timecode is glossed with it: the clock, the rate and how far into the
/// frame, in whole microseconds.
pub proof fn a_gloss_reads_back(bytes: Seq<u8>, tc: Timecode)
    requires
        ble::advert_in(bytes) == Some(Advert::Timecode(tc)),
    ensures
        ({
            let line = gatt::gloss_text(bytes);
            &&& text::laws::has_text(line, "   -> "@, timecode::timecode_text(tc), "  "@)
            &&& text::laws::has_number(line, "  "@, (tc.rate.fps as nat) as int, "fps +"@)
            &&& text::laws::has_number(line, "fps +"@, (tc.subframe@ / 1_000) as int, "µs"@)
        }),
{
    let line = gatt::gloss_text(bytes);
    let p0 = Seq::<Seq<char>>::empty();
    let p1 = p0.push("   -> "@);
    text::laws::lemma_joined(p0, "   -> "@);
    let p2 = p1.push(timecode::timecode_text(tc));
    text::laws::lemma_joined(p1, timecode::timecode_text(tc));
    let p3 = p2.push("  "@);
    text::laws::lemma_joined(p2, "  "@);
    let p4 = p3.push(text::decimal(tc.rate.fps as nat));
    text::laws::lemma_joined(p3, text::decimal(tc.rate.fps as nat));
    let p5 = p4.push("fps +"@);
    text::laws::lemma_joined(p4, "fps +"@);
    let p6 = p5.push(text::decimal(tc.subframe@ / 1_000));
    text::laws::lemma_joined(p5, text::decimal(tc.subframe@ / 1_000));
    let p7 = p6.push("µs"@);
    text::laws::lemma_joined(p6, "µs"@);
    assert(text::laws::joined(p7) == line);
    text::laws::lemma_part(p7, 1);
    text::laws::lemma_number_part(p7, 3, tc.rate.fps as nat);
    text::laws::lemma_number_part(p7, 5, tc.subframe@ / 1_000);
}

/// A charge is glossed in per cent, and as charging if and only if it is.
pub proof fn a_glossed_charge_reads_back(bytes: Seq<u8>, status: Status)
    requires
        ble::status_in(bytes) == Some(status),
    ensures
        exists|digits: Seq<char>|
            {
                &&& gatt::charge_text(bytes) == "   -> "@ + #[trigger] (digits + "%"@) + (
                if status.charging {
                    " charging"@
                } else {
                    Seq::<char>::empty()
                })
                &&& text::laws::all_digits(digits)
                &&& text::laws::numeral(digits) == status.battery_percent
            },
{
    reveal_strlit("");
    text::laws::a_decimal_reads_back(status.battery_percent as nat);
    let digits = text::decimal(status.battery_percent as nat);
    assert(gatt::charge_text(bytes) =~= "   -> "@ + (digits + "%"@) + (if status.charging {
        " charging"@
    } else {
        Seq::<char>::empty()
    }));
}

/// A run without an end never expires; one with an end does so when its time is up, and stays
/// expired.
pub proof fn a_run_expires_when_its_time_is_up(opt: session::Options, elapsed: nat, later: nat)
    requires
        elapsed <= later,
    ensures
        opt.seconds == 0 ==> !session::is_expired(opt, elapsed),
        opt.seconds > 0 ==> (session::is_expired(opt, elapsed) <==> elapsed >= 1_000_000_000
            * opt.seconds),
        session::is_expired(opt, elapsed) ==> session::is_expired(opt, later),
{
}

/// Notifications and reads are kept apart: what is pushed goes to the digest of pushes and what
/// is read to that of reads, and neither touches the other or the count of advertisements.
pub proof fn pushes_and_reads_are_kept_apart(
    run: gatt::RunView,
    target: Seq<char>,
    uuid: u128,
    bytes: &[u8],
    at: Instant,
    received: Instant,
)
    ensures
        ({
            let pushed = session::run_after(
                run,
                target,
                session::Happening::Notified { uuid, value: bytes, at },
            );
            let read = session::run_after(
                run,
                target,
                session::Happening::Answered { uuid, sent: at, received, bytes },
            );
            &&& pushed.digests == gatt::noted(run.digests, uuid, bytes@)
            &&& pushed.polls == run.polls
            &&& pushed.last == run.last
            &&& pushed.adverts == run.adverts
            &&& read.polls == gatt::noted(run.polls, uuid, bytes@)
            &&& read.digests == run.digests
            &&& read.adverts == run.adverts
            &&& run.phase is None ==> dump::previous_of(read.last, uuid) == Some(bytes@)
            &&& run.phase is Some ==> read.last == run.last
        }),
{
}

/// Nothing is recorded unless a measurement was asked for and its records can still be
/// written; and of the advertisements only those of the device that is connected to.
pub proof fn only_a_measurement_is_recorded(
    run: gatt::RunView,
    target: Seq<char>,
    happening: session::Happening,
    overall: Instant,
)
    ensures
        session::record_after(run, target, happening, overall) is Some ==> (
        run.phase matches Some(p) && p.failed is None),
        happening matches session::Happening::Heard { event, .. } ==> session::record_after(
            run,
            target,
            happening,
            overall,
        ) is Some ==> crate::ble::scan::heard_from(*event) == Some(target),
        happening matches session::Happening::Heard { event, .. } ==> session::run_after(
            run,
            target,
            happening,
        ).adverts != run.adverts ==> crate::ble::scan::heard_from(*event) == Some(target),
{
}

/// A text has another in it.
pub open spec fn has_piece(s: Seq<char>, piece: Seq<char>) -> bool {
    exists|front: Seq<char>, back: Seq<char>| s == #[trigger] (front + piece + back)
}

proof fn lemma_characteristic(run: gatt::RunView, found: Seq<u128>, elapsed: nat, i: int)
    requires
        0 <= i < found.len(),
    ensures
        has_piece(
            summary::characteristics_text(run, found, elapsed),
            summary::characteristic_text(run, found[i], elapsed),
        ),
    decreases found.len(),
{
    let less = found.drop_last();
    let all = summary::characteristics_text(run, found, elapsed);
    let before = summary::characteristics_text(run, less, elapsed);
    let piece = summary::characteristic_text(run, found[i], elapsed);
    let last = summary::characteristic_text(run, found.last(), elapsed);
    if i < less.len() {
        lemma_characteristic(run, less, elapsed, i);
        assert(less[i] == found[i]);
        let (front, back) = choose|front: Seq<char>, back: Seq<char>|
            before == #[trigger] (front + piece + back);
        assert(all =~= front + piece + (back + last));
    } else {
        assert(all =~= before + piece + Seq::<char>::empty());
    }
}

proof fn lemma_three_behind(a: Seq<char>, b: Seq<char>, c: Seq<char>, d: Seq<char>)
    ensures
        (a + b + c + d).take(a.len() as int) == a,
        has_piece(a + b + c + d, b),
        has_piece(a + b + c + d, c),
{
    let all = a + b + c + d;
    assert(all.take(a.len() as int) =~= a);
    assert(all =~= a + b + (c + d));
    assert(all == (a + b) + c + d);
}

proof fn lemma_two_inside(
    before: Seq<char>,
    front: Seq<char>,
    title: Seq<char>,
    a: Seq<char>,
    b: Seq<char>,
    back: Seq<char>,
)
    ensures
        has_piece(before + (front + (title + a + b) + back), a),
        has_piece(before + (front + (title + a + b) + back), b),
{
    let all = before + (front + (title + a + b) + back);
    assert(all =~= (before + front + title) + a + (b + back));
    assert(all =~= (before + front + title + a) + b + back);
}

/// A summary opens with its heading and has what is to be said of the samples, of the lives of
/// the connections and of every characteristic that was heard of.
pub proof fn a_summary_has_all_of_it(run: gatt::RunView, elapsed: nat, i: int)
    requires
        0 <= i < gatt::merged(run.polls, run.digests).len(),
    ensures
        ({
            let all = summary::summary_text(run, elapsed);
            let heading = summary::heading_text(elapsed, run.sessions as nat, run.adverts as nat);
            let uuid = gatt::merged(run.polls, run.digests)[i];
            &&& all.take(heading.len() as int) == heading
            &&& has_piece(all, summary::samples_text(run.phase))
            &&& has_piece(all, summary::lives_text(run.lives))
            &&& has_piece(all, summary::pushed_text(gatt::digest_for(run.digests, uuid), elapsed))
            &&& has_piece(all, summary::read_text(gatt::digest_for(run.polls, uuid)))
        }),
{
    let found = gatt::merged(run.polls, run.digests);
    let uuid = found[i];
    let all = summary::summary_text(run, elapsed);
    let heading = summary::heading_text(elapsed, run.sessions as nat, run.adverts as nat);
    let samples = summary::samples_text(run.phase);
    let lives = summary::lives_text(run.lives);
    let rest = summary::characteristics_text(run, found, elapsed);
    lemma_three_behind(heading, samples, lives, rest);
    assert(all == heading + samples + lives + rest);
    lemma_characteristic(run, found, elapsed, i);
    let one = summary::characteristic_text(run, uuid, elapsed);
    let (front, back) = choose|front: Seq<char>, back: Seq<char>|
        rest == #[trigger] (front + one + back);
    let title = "  "@ + crate::ble::uuids::digits(uuid, 0, 8) + "\n"@;
    let pushed = summary::pushed_text(gatt::digest_for(run.digests, uuid), elapsed);
    let read = summary::read_text(gatt::digest_for(run.polls, uuid));
    lemma_two_inside(heading + samples + lives, front, title, pushed, read, back);
    assert(one == title + pushed + read);
}

/// What is said of a measurement has how many samples were written, and either how many round
/// trips or why the writing failed.
pub proof fn what_is_said_of_samples_reads_back(p: phase::PhaseView)
    ensures
        p.failed is None ==> text::laws::has_number(
            summary::samples_text(Some(p)),
            "  phase: "@,
            p.records as int,
            " sample(s), "@,
        ) && text::laws::has_number(
            summary::samples_text(Some(p)),
            " sample(s), "@,
            p.reads as int,
            " round trip(s)\n"@,
        ),
        p.failed is Some ==> text::laws::has_number(
            summary::samples_text(Some(p)),
            "  phase: "@,
            p.records as int,
            " sample(s) written, then writing failed: "@,
        ),
        summary::samples_text(None).len() == 0,
{
    let none = Seq::<char>::empty();
    let line = summary::samples_text(Some(p));
    let records = text::decimal(p.records as nat);
    let reads = text::decimal(p.reads as nat);
    text::laws::a_decimal_reads_back(p.records as nat);
    text::laws::a_decimal_reads_back(p.reads as nat);
    match p.failed {
        None => {
            assert(line =~= none + "  phase: "@ + records + " sample(s), "@ + (reads
                + " round trip(s)\n"@));
            assert(line =~= ("  phase: "@ + records) + " sample(s), "@ + reads
                + " round trip(s)\n"@ + none);
        },
        Some(why) => {
            assert(line =~= none + "  phase: "@ + records
                + " sample(s) written, then writing failed: "@ + (why + "\n"@));
        },
    }
}

/// Only the vendor service is visited; nothing is read that cannot be, nor subscribed to that
/// cannot notify or where that was not wanted; and a measurement reads the timecode again and
/// nothing else.
pub proof fn only_what_is_wanted_is_visited(
    opt: session::Options,
    phase_run: bool,
    service: u128,
    uuid: u128,
    can_read: bool,
    can_notify: bool,
)
    ensures
        ({
            let visit = session::visit_of(opt, phase_run, service, uuid, can_read, can_notify);
            &&& visit is Some <==> service == 0x0000fdac_0000_1000_8000_00805f9b34fb
            &&& visit matches Some(v) ==> {
                &&& v.read <==> can_read
                &&& v.subscribe ==> can_notify && !opt.no_subscribe
                &&& can_notify && !opt.no_subscribe ==> v.subscribe
                &&& v.poll ==> can_read
                &&& !phase_run && can_read ==> v.poll
                &&& phase_run && v.poll ==> uuid == 0x0dab144c_2cb9_11e6_b67b_9e71128cae77
                &&& uuid == 0x0dab144c_2cb9_11e6_b67b_9e71128cae77 && can_read ==> v.poll
            }
        }),
{
}

/// What is left of a run and what has gone make the whole, until there is nothing left.
pub proof fn what_is_left_and_what_has_gone_make_the_whole(opt: session::Options, elapsed: nat)
    ensures
        ({
            let whole = 1_000_000_000 * opt.seconds;
            &&& elapsed <= whole ==> session::left_of(opt, elapsed) + elapsed == whole
            &&& elapsed >= whole ==> session::left_of(opt, elapsed) == 0
        }),
{
}

/// A run goes on as long as it is to reconnect and its time is not up; one without an end goes
/// on for ever.
pub proof fn a_run_goes_on_until_its_time_is_up(opt: session::Options, elapsed: nat)
    ensures
        !opt.reconnect ==> !session::goes_on(opt, elapsed),
        opt.reconnect && opt.seconds == 0 ==> session::goes_on(opt, elapsed),
        opt.reconnect && opt.seconds > 0 ==> (session::goes_on(opt, elapsed) <==> elapsed
            < 1_000_000_000 * opt.seconds),
{
}

/// Every read that is waited for is counted, and nothing else about a phase changes; behind the
/// last number that a counter can hold it starts over.
pub proof fn every_read_is_counted(p: phase::PhaseView)
    ensures
        ({
            let after = phase::waited(p);
            &&& after == (phase::PhaseView { reads: after.reads, ..p })
            &&& (after.reads - p.reads) % 0x1_0000_0000_0000_0000 == 1
        }),
{
}

/// A connection has lived from one moment to the other, and one that ends before it began has
/// not lived at all.
pub proof fn a_life_lasts_from_one_moment_to_the_other(earlier: Instant, now: Instant)
    ensures
        earlier@ <= now@ ==> earlier@ + session::since(earlier, now) == now@,
        now@ <= earlier@ ==> session::since(earlier, now) == 0,
{
}

/// A line of the log has what happened, the first eight digits of the characteristic and the
/// bytes that came of it.
pub proof fn a_log_line_reads_back(elapsed: nat, what: Seq<char>, uuid: u128, bytes: Seq<u8>)
    ensures
        ({
            let s = gatt::log_text(elapsed, what, uuid, bytes);
            let short = crate::ble::uuids::uuid_text(uuid).take(8);
            &&& text::laws::has_text(s, "s] "@, what, " "@)
            &&& text::laws::has_text(s, " "@, short, "  "@)
            &&& text::laws::has_text(s, "  "@, text::hex_spaced(bytes), gatt::gloss_text(bytes))
        }),
{
    let s = gatt::log_text(elapsed, what, uuid, bytes);
    let stamp = dump::stamp_text(elapsed);
    let front = "["@ + text::fixed_column(elapsed as int, 1_000_000_000, 3, 7);
    let short = crate::ble::uuids::digits(uuid, 0, 8);
    let hex = text::hex_spaced(bytes);
    let gloss = gatt::gloss_text(bytes);
    assert(crate::ble::uuids::uuid_text(uuid).take(8) =~= short);
    assert(stamp =~= front + "s] "@);
    assert(s =~= front + "s] "@ + what + " "@ + (short + "  "@ + hex + gloss + "\n"@));
    assert(s =~= (stamp + what) + " "@ + short + "  "@ + (hex + gloss + "\n"@));
    assert(s =~= (stamp + what + " "@ + short) + "  "@ + hex + gloss + "\n"@);
}

} // verus!
