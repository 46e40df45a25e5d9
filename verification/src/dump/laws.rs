//! What a dump shows of a change.

use vstd::prelude::*;

use crate::dump;
use crate::text;

verus! {

proof fn lemma_trimmed(whole: Seq<char>, k: int)
    requires
        0 <= k < whole.len(),
    ensures
        dump::trimmed(whole).len() <= whole.len(),
        whole[k] != ' ' ==> k < dump::trimmed(whole).len(),
        k < dump::trimmed(whole).len() ==> dump::trimmed(whole)[k] == whole[k],
    decreases whole.len(),
{
    reveal_with_fuel(dump::trimmed, 2);
    if whole.last() == ' ' {
        if k < whole.len() - 1 {
            lemma_trimmed(whole.drop_last(), k);
        } else if whole.len() > 1 {
            lemma_trimmed(whole.drop_last(), 0);
        }
    }
}

proof fn lemma_marks(previous: Seq<u8>, bytes: Seq<u8>, n: nat, i: int)
    requires
        0 <= i < n <= bytes.len(),
    ensures
        ({
            let s = dump::marks(previous, bytes, n);
            let mark = if i < previous.len() && previous[i] == bytes[i] {
                ' '
            } else {
                '^'
            };
            &&& s.len() == 3 * n
            &&& s[3 * i] == mark
            &&& s[3 * i + 1] == mark
            &&& s[3 * i + 2] == ' '
        }),
    decreases n,
{
    reveal_strlit("   ");
    reveal_strlit("^^ ");
    reveal_with_fuel(dump::marks, 2);
    if n > 1 {
        if i < n - 1 {
            lemma_marks(previous, bytes, (n - 1) as nat, i);
        } else {
            lemma_marks(previous, bytes, (n - 1) as nat, 0);
        }
    }
}

/// Under a payload in hexadecimal, two carets stand under the two digits of each byte that is
/// not what it was, or was not there before, and nothing but spaces under any other; and there
/// are no spaces behind the last caret.
pub proof fn a_caret_stands_under_each_changed_byte(previous: Seq<u8>, bytes: Seq<u8>, i: int)
    requires
        0 <= i < bytes.len(),
    ensures
        ({
            let under = dump::trimmed(dump::marks(previous, bytes, bytes.len()));
            let over = text::hex_spaced(bytes);
            let same = i < previous.len() && previous[i] == bytes[i];
            &&& text::laws::byte_at(over, 3 * i, bytes[i])
            &&& !same ==> 3 * i + 2 <= under.len() && under[3 * i] == '^' && under[3 * i + 1] == '^'
            &&& same && 3 * i < under.len() ==> under[3 * i] == ' '
            &&& same && 3 * i + 1 < under.len() ==> under[3 * i + 1] == ' '
            &&& 3 * i + 2 < under.len() ==> under[3 * i + 2] == ' '
            &&& under.len() == 0 || under.last() != ' '
        }),
{
    let whole = dump::marks(previous, bytes, bytes.len());
    lemma_marks(previous, bytes, bytes.len(), i);
    lemma_trimmed(whole, 3 * i);
    lemma_trimmed(whole, 3 * i + 1);
    lemma_trimmed(whole, 3 * i + 2);
    text::laws::spaced_bytes_read_back(bytes);
    lemma_no_space_behind(whole);
}

proof fn lemma_no_space_behind(whole: Seq<char>)
    ensures
        dump::trimmed(whole).len() == 0 || dump::trimmed(whole).last() != ' ',
    decreases whole.len(),
{
    if whole.len() > 0 && whole.last() == ' ' {
        lemma_no_space_behind(whole.drop_last());
    }
}

/// A stamp is the time since the start, in seconds to the nearest thousandth.
pub proof fn a_stamp_is_the_nearest(elapsed: nat)
    ensures
        exists|figure: Seq<char>|
            dump::stamp_text(elapsed) == "["@ + #[trigger] text::pad_start(figure, 7, ' ') + "s] "@
                && text::laws::is_figure(figure, elapsed as int, 1_000_000_000, 3, 1_000),
{
    text::laws::lemma_is_figure(elapsed as int, 1_000_000_000, 3);
    let figure = text::fixed(elapsed as int, 1_000_000_000, 3);
    assert(dump::stamp_text(elapsed) =~= "["@ + text::pad_start(figure, 7, ' ') + "s] "@);
}

/// What a payload was is what came last under its key: another key's payloads make no
/// difference, and a later one replaces an earlier.
pub proof fn the_last_payload_is_remembered<K>(
    seen: Map<K, Seq<u8>>,
    records: Seq<(K, Vec<u8>)>,
    key: K,
    i: int,
)
    requires
        forall|k: int| i < k < records.len() ==> (#[trigger] records[k]).0 != key,
        -1 <= i < records.len(),
        i >= 0 ==> records[i].0 == key,
    ensures
        i >= 0 ==> dump::previous_of(dump::seen_after(seen, records), key) == Some(records[i].1@),
        i < 0 ==> dump::previous_of(dump::seen_after(seen, records), key) == dump::previous_of(
            seen,
            key,
        ),
    decreases records.len(),
{
    if records.len() > 0 && i < records.len() - 1 {
        let front = records.drop_last();
        assert forall|k: int| i < k < front.len() implies (#[trigger] front[k]).0 != key by {
            assert(front[k] == records[k]);
        }
        assert(records[records.len() - 1].0 != key);
        the_last_payload_is_remembered(seen, front, key, i);
    }
}

/// A payload is dumped if and only if it is not what was last seen under its key, or all are
/// asked for.
pub proof fn only_news_is_dumped<K>(
    seen: Map<K, Seq<u8>>,
    key: K,
    bytes: Vec<u8>,
    all: bool,
    elapsed: nat,
    label: Seq<char>,
    kind: spec_fn(K) -> Seq<char>,
)
    ensures
        ({
            let out = dump::dump_text(seen, seq![(key, bytes)], all, elapsed, label, kind);
            out.len() == 0 <==> !all && seen.dom().contains(key) && seen[key] == bytes@
        }),
{
    let one = seq![(key, bytes)];
    assert(one.drop_last() =~= Seq::empty());
    reveal_with_fuel(dump::dump_text, 2);
    reveal_with_fuel(dump::seen_after, 2);
    reveal_strlit("\n");
}

/// What changed is marked on a line of its own below the payload, and that line is there if and
/// only if there was a payload before and some byte is not what it was in it.
pub proof fn what_changed_is_marked_below(
    elapsed: nat,
    label: Seq<char>,
    kind: Seq<char>,
    previous: Seq<u8>,
    bytes: Seq<u8>,
)
    ensures
        ({
            let plain = dump::payload_text(elapsed, label, kind, None, bytes);
            let marked = dump::payload_text(elapsed, label, kind, Some(previous), bytes);
            &&& plain.len() <= marked.len()
            &&& marked.take(plain.len() as int) == plain
            &&& marked == plain <==> bytes.len() <= previous.len() && previous.take(
                bytes.len() as int,
            ) == bytes
        }),
{
    let plain = dump::payload_text(elapsed, label, kind, None, bytes);
    let marked = dump::payload_text(elapsed, label, kind, Some(previous), bytes);
    reveal_strlit("\n");
    assert(marked.take(plain.len() as int) =~= plain);
    let same = bytes.len() <= previous.len() && previous.take(bytes.len() as int) == bytes;
    if dump::differs(previous, bytes) {
        assert(marked.len() > plain.len());
        let i = choose|i: int| 0 <= i < bytes.len() && !#[trigger] dump::unchanged(
            previous,
            bytes,
            i,
        );
        if same {
            assert(previous.take(bytes.len() as int)[i] == bytes[i]);
        }
    } else {
        if bytes.len() > 0 {
            assert(dump::unchanged(previous, bytes, bytes.len() - 1));
        }
        assert forall|i: int| 0 <= i < bytes.len() implies #[trigger] previous[i] == bytes[i] by {
            assert(dump::unchanged(previous, bytes, i));
        }
        assert(previous.take(bytes.len() as int) =~= bytes);
    }
}

} // verus!
