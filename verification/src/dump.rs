//! Dumping advertisement payloads as they came, with a mark under every byte that changed
//! since the last time. That is the way to work out anything still unknown about them.

use std::collections::HashMap;

pub mod laws;

use vstd::prelude::*;

use crate::ble::uuids;
use crate::screen;
use crate::text;
use crate::time::Duration;

verus! {

broadcast use vstd::std_specs::hash::group_hash_axioms;

/// The last payload seen under each key, so a dump can mark what changed. It remembers
/// every company and every service UUID in the room.
#[derive(Debug)]
pub struct Payloads {
    pub manufacturer: HashMap<u16, Vec<u8>>,
    pub service: HashMap<u128, Vec<u8>>,
}

/// What was last seen, as bytes.
pub open spec fn last_seen<K>(seen: Map<K, Vec<u8>>) -> Map<K, Seq<u8>> {
    seen.map_values(|bytes: Vec<u8>| bytes@)
}

impl Default for Payloads {
    fn default() -> (seen: Payloads)
        ensures
            seen.manufacturer@ == Map::<u16, Vec<u8>>::empty(),
            seen.service@ == Map::<u128, Vec<u8>>::empty(),
    {
        Payloads { manufacturer: HashMap::new(), service: HashMap::new() }
    }
}

/// The payloads of one advertisement, in the order they are to be shown.
#[derive(Debug)]
pub enum Records {
    Manufacturer(Vec<(u16, Vec<u8>)>),
    Service(Vec<(u128, Vec<u8>)>),
}

/// How a moment is written at the front of a line, in seconds.
pub open spec fn stamp_text(elapsed: nat) -> Seq<char> {
    Seq::<char>::empty() + "["@ + text::fixed_column(elapsed as int, 1_000_000_000, 3, 7) + "s] "@
}

pub(crate) fn put_stamp(out: &mut String, elapsed: Duration)
    ensures
        final(out)@ == old(out)@ + stamp_text(elapsed@),
{
    out.push_str("[");
    text::put_fixed_column(out, elapsed.as_nanos() as i128, 1_000_000_000, 3, 7);
    out.push_str("s] ");
    assert(out@ =~= old(out)@ + stamp_text(elapsed@));
}

/// Who a line is about: a name and enough of an identifier.
pub open spec fn label_text(name: Option<Seq<char>>, id: Seq<char>) -> Seq<char> {
    (match name {
        Some(name) => name,
        None => "<unnamed>"@,
    }) + " ["@ + screen::short_id_text(id) + "]"@
}

/// Who a line is about.
pub fn label(name: Option<&str>, id: &str) -> (out: String)
    ensures
        out@ == label_text(
            match name {
                Some(name) => Some(name@),
                None => None,
            },
            id@,
        ),
{
    let mut out: String = match name {
        Some(name) => name.to_owned(),
        None => "<unnamed>".to_owned(),
    };
    out.push_str(" [");
    out.push_str(screen::short_id(id).as_str());
    out.push_str("]");
    out
}

/// The line for a device first seen.
pub open spec fn discovered_text(elapsed: nat, label: Seq<char>) -> Seq<char> {
    stamp_text(elapsed) + label + "  discovered\n"@
}

/// The line for a device first seen.
pub fn report_discovered(elapsed: Duration, label: &str) -> (out: String)
    ensures
        out@ == discovered_text(elapsed@, label@),
{
    let mut out = String::new();
    put_stamp(&mut out, elapsed);
    out.push_str(label);
    out.push_str("  discovered\n");
    assert(out@ =~= discovered_text(elapsed@, label@));
    out
}

/// Whether a byte is the one that stood in its place before.
pub open spec fn unchanged(previous: Seq<u8>, bytes: Seq<u8>, i: int) -> bool {
    i < previous.len() && previous[i] == bytes[i]
}

/// A mark under every byte that changed.
pub open spec fn marks(previous: Seq<u8>, bytes: Seq<u8>, n: nat) -> Seq<char>
    decreases n,
{
    if n == 0 {
        Seq::empty()
    } else {
        marks(previous, bytes, (n - 1) as nat) + if unchanged(previous, bytes, n - 1) {
            "   "@
        } else {
            "^^ "@
        }
    }
}

/// A text without the spaces at its end.
pub open spec fn trimmed(whole: Seq<char>) -> Seq<char>
    decreases whole.len(),
{
    if whole.len() > 0 && whole.last() == ' ' {
        trimmed(whole.drop_last())
    } else {
        whole
    }
}

proof fn lemma_trimmed(whole: Seq<char>, n: nat)
    requires
        whole.len() == 0 || whole.last() != ' ',
    ensures
        trimmed(whole + text::repeated(' ', n)) == whole,
    decreases n,
{
    let all = whole + text::repeated(' ', n);
    if n == 0 {
        assert(all =~= whole);
    } else {
        lemma_trimmed(whole, (n - 1) as nat);
        assert(all.drop_last() =~= whole + text::repeated(' ', (n - 1) as nat));
    }
}

/// The marks for a payload, without the spaces at their end.
fn mark(previous: &[u8], bytes: &[u8]) -> (line: String)
    ensures
        line@ == trimmed(marks(previous@, bytes@, bytes@.len())),
        line@.len() > 0 <==> exists|i: int|
            0 <= i < bytes@.len() && !#[trigger] unchanged(previous@, bytes@, i),
{
    let mut line = String::new();
    // The unchanged bytes since the last mark.
    let mut run: usize = 0;
    let mut i: usize = 0;
    let mut changed: bool = false;
    assert(marks(previous@, bytes@, 0) =~= line@ + text::repeated(' ', 0));
    while i < bytes.len()
        invariant
            run <= i <= bytes.len(),
            marks(previous@, bytes@, i as nat) == line@ + text::repeated(' ', owed(changed, run)),
            line@.len() == 0 || line@.last() != ' ',
            changed == (line@.len() > 0),
            changed <==> exists|k: int| 0 <= k < i && !#[trigger] unchanged(previous@, bytes@, k),
        decreases bytes.len() - i,
    {
        proof {
            reveal_strlit("   ");
            reveal_strlit("^^ ");
            reveal_strlit("^^");
            reveal_strlit(" ");
        }
        let ghost before = line@;
        let ghost spaces = owed(changed, run);
        if i < previous.len() && previous[i] == bytes[i] {
            assert(unchanged(previous@, bytes@, i as int));
            run = run + 1;
            assert(before + text::repeated(' ', spaces) + "   "@ =~= line@ + text::repeated(
                ' ',
                owed(changed, run),
            ));
        } else {
            assert(!unchanged(previous@, bytes@, i as int));
            if changed {
                line.push_str(" ");
            }
            text::put_repeated(&mut line, ' ', run);
            text::put_repeated(&mut line, ' ', run);
            text::put_repeated(&mut line, ' ', run);
            assert(line@ =~= before + text::repeated(' ', spaces));
            line.push_str("^^");
            run = 0;
            changed = true;
            assert(before + text::repeated(' ', spaces) + "^^ "@ =~= line@ + text::repeated(
                ' ',
                owed(changed, run),
            ));
        }
        i = i + 1;
    }
    proof {
        lemma_trimmed(line@, owed(changed, run));
    }
    line
}

/// The spaces that stand behind the last mark.
spec fn owed(changed: bool, run: usize) -> nat {
    (3 * run + if changed {
        1int
    } else {
        0
    }) as nat
}

/// Whether a payload differs from the one before in any byte that it has.
pub open spec fn differs(previous: Seq<u8>, bytes: Seq<u8>) -> bool {
    exists|i: int| 0 <= i < bytes.len() && !#[trigger] unchanged(previous, bytes, i)
}

/// A payload, with a mark under every byte that changed since last time. The marks are
/// indented by the bytes that the kind takes up.
pub open spec fn payload_text(
    elapsed: nat,
    label: Seq<char>,
    kind: Seq<char>,
    previous: Option<Seq<u8>>,
    bytes: Seq<u8>,
) -> Seq<char> {
    let head = stamp_text(elapsed) + label + "\n    "@ + kind + "  "@ + text::hex_spaced(bytes)
        + "\n"@;
    match previous {
        Some(previous) => if differs(previous, bytes) {
            head + "    "@ + text::repeated(' ', vstd::utf8::encode_utf8(kind).len()) + "  "@ + trimmed(
                marks(previous, bytes, bytes.len()),
            ) + "\n"@
        } else {
            head
        },
        None => head,
    }
}

/// A payload that may be absent, as bytes.
pub open spec fn bytes_of(bytes: Option<&[u8]>) -> Option<Seq<u8>> {
    match bytes {
        Some(bytes) => Some(bytes@),
        None => None,
    }
}

/// A payload, with a caret under every byte that changed since last time.
pub fn print_payload(
    elapsed: Duration,
    label: &str,
    kind: &str,
    previous: Option<&[u8]>,
    bytes: &[u8],
) -> (out: String)
    ensures
        out@ == payload_text(elapsed@, label@, kind@, bytes_of(previous), bytes@),
{
    let mut out = String::new();
    put_stamp(&mut out, elapsed);
    assert(out@ =~= stamp_text(elapsed@));
    out.push_str(label);
    out.push_str("\n    ");
    out.push_str(kind);
    out.push_str("  ");
    out.push_str(text::hex(bytes).as_str());
    out.push_str("\n");
    if let Some(previous) = previous {
        let marked = mark(previous, bytes);
        if !marked.as_str().is_empty() {
            out.push_str("    ");
            let width: usize = kind.as_bytes().len();
            text::put_repeated(&mut out, ' ', width);
            out.push_str("  ");
            out.push_str(marked.as_str());
            out.push_str("\n");
        }
    }
    out
}

/// What was last seen after some more came in.
pub open spec fn seen_after<K>(seen: Map<K, Seq<u8>>, records: Seq<(K, Vec<u8>)>) -> Map<K, Seq<u8>>
    decreases records.len(),
{
    if records.len() == 0 {
        seen
    } else {
        seen_after(seen, records.drop_last()).insert(records.last().0, records.last().1@)
    }
}

/// What was last seen under a key.
pub open spec fn previous_of<K>(seen: Map<K, Seq<u8>>, key: K) -> Option<Seq<u8>> {
    if seen.dom().contains(key) {
        Some(seen[key])
    } else {
        None
    }
}

/// A dump of some payloads: each that changed, or every one if `all` is asked for.
pub open spec fn dump_text<K>(
    seen: Map<K, Seq<u8>>,
    records: Seq<(K, Vec<u8>)>,
    all: bool,
    elapsed: nat,
    label: Seq<char>,
    kind: spec_fn(K) -> Seq<char>,
) -> Seq<char>
    decreases records.len(),
{
    if records.len() == 0 {
        Seq::empty()
    } else {
        let before = dump_text(seen, records.drop_last(), all, elapsed, label, kind);
        let (key, bytes) = records.last();
        let previous = previous_of(seen_after(seen, records.drop_last()), key);
        if all || previous != Some(bytes@) {
            before + payload_text(elapsed, label, kind(key), previous, bytes@)
        } else {
            before
        }
    }
}

/// What a manufacturer's payload is called.
pub open spec fn company_kind(company: u16) -> Seq<char> {
    Seq::<char>::empty() + "mfr 0x"@ + text::hex_byte((company / 256) as u8) + text::hex_byte(
        (company % 256) as u8,
    )
}

/// What a service's payload is called.
pub open spec fn service_kind(uuid: u128) -> Seq<char> {
    Seq::<char>::empty() + "svc "@ + uuids::uuid_text(uuid)
}

fn is_news(previous: Option<&[u8]>, bytes: &[u8]) -> (news: bool)
    ensures
        news == (bytes_of(previous) != Some(bytes@)),
{
    match previous {
        Some(previous) => !text::same_bytes(previous, bytes),
        None => true,
    }
}

fn dump_manufacturer(
    seen: &mut HashMap<u16, Vec<u8>>,
    records: &[(u16, Vec<u8>)],
    all: bool,
    elapsed: Duration,
    label: &str,
) -> (out: String)
    ensures
        out@ == dump_text(
            last_seen(old(seen)@),
            records@,
            all,
            elapsed@,
            label@,
            |company: u16| company_kind(company),
        ),
        last_seen(final(seen)@) == seen_after(last_seen(old(seen)@), records@),
{
    let ghost kind = |company: u16| company_kind(company);
    let ghost given = last_seen(seen@);
    let mut out = String::new();
    let mut i: usize = 0;
    assert(records@.take(0) =~= Seq::empty());
    assert(out@ =~= Seq::empty());
    while i < records.len()
        invariant
            i <= records.len(),
            kind == (|company: u16| company_kind(company)),
            given == last_seen(old(seen)@),
            last_seen(seen@) == seen_after(given, records@.take(i as int)),
            out@ == dump_text(given, records@.take(i as int), all, elapsed@, label@, kind),
        decreases records.len() - i,
    {
        assert(records@.take(i + 1).drop_last() =~= records@.take(i as int));
        let company: u16 = records[i].0;
        let bytes = records[i].1.as_slice();
        let previous: Option<&[u8]> = match seen.get(&company) {
            Some(bytes) => Some(bytes.as_slice()),
            None => None,
        };
        assert(bytes_of(previous) == previous_of(last_seen(seen@), company));
        if all || is_news(previous, bytes) {
            let mut name = String::new();
            name.push_str("mfr 0x");
            text::put_hex_byte(&mut name, (company / 256) as u8);
            text::put_hex_byte(&mut name, (company % 256) as u8);
            out.push_str(print_payload(elapsed, label, name.as_str(), previous, bytes).as_str());
        }
        let ghost before = seen@;
        let copy = vstd::slice::slice_to_vec(bytes);
        assert(last_seen(before.insert(company, copy)) =~= last_seen(before).insert(
            company,
            bytes@,
        ));
        seen.insert(company, copy);
        i = i + 1;
    }
    assert(records@.take(i as int) =~= records@);
    out
}

fn dump_service(
    seen: &mut HashMap<u128, Vec<u8>>,
    records: &[(u128, Vec<u8>)],
    all: bool,
    elapsed: Duration,
    label: &str,
) -> (out: String)
    ensures
        out@ == dump_text(
            last_seen(old(seen)@),
            records@,
            all,
            elapsed@,
            label@,
            |uuid: u128| service_kind(uuid),
        ),
        last_seen(final(seen)@) == seen_after(last_seen(old(seen)@), records@),
{
    let ghost kind = |uuid: u128| service_kind(uuid);
    let ghost given = last_seen(seen@);
    let mut out = String::new();
    let mut i: usize = 0;
    assert(records@.take(0) =~= Seq::empty());
    assert(out@ =~= Seq::empty());
    while i < records.len()
        invariant
            i <= records.len(),
            kind == (|uuid: u128| service_kind(uuid)),
            given == last_seen(old(seen)@),
            last_seen(seen@) == seen_after(given, records@.take(i as int)),
            out@ == dump_text(given, records@.take(i as int), all, elapsed@, label@, kind),
        decreases records.len() - i,
    {
        assert(records@.take(i + 1).drop_last() =~= records@.take(i as int));
        let uuid: u128 = records[i].0;
        let bytes = records[i].1.as_slice();
        let previous: Option<&[u8]> = match seen.get(&uuid) {
            Some(bytes) => Some(bytes.as_slice()),
            None => None,
        };
        assert(bytes_of(previous) == previous_of(last_seen(seen@), uuid));
        if all || is_news(previous, bytes) {
            let mut name = String::new();
            name.push_str("svc ");
            name.push_str(uuids::uuid_string(uuid).as_str());
            out.push_str(print_payload(elapsed, label, name.as_str(), previous, bytes).as_str());
        }
        let ghost before = seen@;
        let copy = vstd::slice::slice_to_vec(bytes);
        assert(last_seen(before.insert(uuid, copy)) =~= last_seen(before).insert(uuid, bytes@));
        seen.insert(uuid, copy);
        i = i + 1;
    }
    assert(records@.take(i as int) =~= records@);
    out
}

/// What a dump of one advertisement's payloads says.
pub open spec fn report_text(
    seen: Payloads,
    records: Records,
    all: bool,
    elapsed: nat,
    label: Seq<char>,
) -> Seq<char> {
    match records {
        Records::Manufacturer(list) => dump_text(
            last_seen(seen.manufacturer@),
            list@,
            all,
            elapsed,
            label,
            |company: u16| company_kind(company),
        ),
        Records::Service(list) => dump_text(
            last_seen(seen.service@),
            list@,
            all,
            elapsed,
            label,
            |uuid: u128| service_kind(uuid),
        ),
    }
}

/// Dumps one advertisement's payloads, with a caret under every byte that changed since
/// last time. Without `all`, only those that changed.
pub fn report_raw(
    seen: &mut Payloads,
    records: &Records,
    all: bool,
    elapsed: Duration,
    label: &str,
) -> (out: String)
    ensures
        out@ == report_text(*old(seen), *records, all, elapsed@, label@),
        match *records {
            Records::Manufacturer(list) => last_seen(final(seen).manufacturer@) == seen_after(
                last_seen(old(seen).manufacturer@),
                list@,
            ) && final(seen).service == old(seen).service,
            Records::Service(list) => last_seen(final(seen).service@) == seen_after(
                last_seen(old(seen).service@),
                list@,
            ) && final(seen).manufacturer == old(seen).manufacturer,
        },
{
    match records {
        Records::Manufacturer(list) => dump_manufacturer(
            &mut seen.manufacturer,
            list.as_slice(),
            all,
            elapsed,
            label,
        ),
        Records::Service(list) => dump_service(
            &mut seen.service,
            list.as_slice(),
            all,
            elapsed,
            label,
        ),
    }
}

/// No two records are under one key.
pub open spec fn keys_differ<K>(records: Seq<(K, Vec<u8>)>) -> bool {
    forall|i: int, j: int|
        0 <= i < j < records.len() ==> (#[trigger] records[i]).0 != (#[trigger] records[j]).0
}

/// Every payload is the one last seen under its key.
spec fn all_seen<K>(seen: Map<K, Seq<u8>>, records: Seq<(K, Vec<u8>)>) -> bool {
    forall|i: int|
        0 <= i < records.len() ==> previous_of(seen, (#[trigger] records[i]).0) == Some(
            records[i].1@,
        )
}

proof fn lemma_seen_after<K>(seen: Map<K, Seq<u8>>, records: Seq<(K, Vec<u8>)>)
    requires
        keys_differ(records),
    ensures
        all_seen(seen_after(seen, records), records),
        forall|key: K|
            (forall|i: int| 0 <= i < records.len() ==> (#[trigger] records[i]).0 != key)
                ==> previous_of(#[trigger] seen_after(seen, records), key) == previous_of(seen, key),
    decreases records.len(),
{
    if records.len() > 0 {
        let front = records.drop_last();
        let last = records.last();
        assert(keys_differ(front)) by {
            assert forall|i: int, j: int| 0 <= i < j < front.len() implies (#[trigger] front[i]).0 != (
            #[trigger] front[j]).0 by {
                assert(records[i].0 != records[j].0);
            }
        }
        lemma_seen_after(seen, front);
        let all = seen_after(seen, records);
        assert forall|i: int| 0 <= i < records.len() implies previous_of(
            all,
            (#[trigger] records[i]).0,
        ) == Some(records[i].1@) by {
            if i < front.len() {
                assert(front[i] == records[i]);
                assert(records[i].0 != records[records.len() - 1].0);
            }
        }
        assert forall|key: K|
            (forall|i: int| 0 <= i < records.len() ==> (#[trigger] records[i]).0 != key) implies previous_of(
            #[trigger] seen_after(seen, records), key) == previous_of(seen, key) by {
            assert(records[records.len() - 1].0 != key);
            assert forall|i: int| 0 <= i < front.len() implies (#[trigger] front[i]).0 != key by {
                assert(records[i].0 != key);
            }
            assert(previous_of(seen_after(seen, front), key) == previous_of(seen, key));
        }
    }
}

proof fn lemma_nothing_new<K>(
    seen: Map<K, Seq<u8>>,
    records: Seq<(K, Vec<u8>)>,
    elapsed: nat,
    label: Seq<char>,
    kind: spec_fn(K) -> Seq<char>,
)
    requires
        keys_differ(records),
        all_seen(seen, records),
    ensures
        dump_text(seen, records, false, elapsed, label, kind) == Seq::<char>::empty(),
    decreases records.len(),
{
    if records.len() > 0 {
        let front = records.drop_last();
        assert forall|i: int, j: int| 0 <= i < j < front.len() implies (#[trigger] front[i]).0 != (
        #[trigger] front[j]).0 by {
            assert(records[i].0 != records[j].0);
        }
        assert forall|i: int| 0 <= i < front.len() implies previous_of(seen, (#[trigger] front[i]).0)
            == Some(front[i].1@) by {
            assert(front[i] == records[i]);
        }
        lemma_nothing_new(seen, front, elapsed, label, kind);
        lemma_seen_after(seen, front);
        let key = records.last().0;
        assert forall|i: int| 0 <= i < front.len() implies (#[trigger] front[i]).0 != key by {
            assert(records[i].0 != records[records.len() - 1].0);
        }
        assert(previous_of(seen_after(seen, front), key) == previous_of(seen, key));
        assert(previous_of(seen, records[records.len() - 1].0) == Some(records.last().1@));
    }
}

/// What was dumped once is not dumped again until it changes: an advertisement whose
/// payloads are those last seen under their keys says nothing, unless everything is asked
/// for.
pub proof fn a_payload_that_stays_is_not_dumped_again<K>(
    seen: Map<K, Seq<u8>>,
    records: Seq<(K, Vec<u8>)>,
    elapsed: nat,
    label: Seq<char>,
    kind: spec_fn(K) -> Seq<char>,
)
    requires
        keys_differ(records),
    ensures
        dump_text(seen_after(seen, records), records, false, elapsed, label, kind) == Seq::<
            char,
        >::empty(),
{
    lemma_seen_after(seen, records);
    lemma_nothing_new(seen_after(seen, records), records, elapsed, label, kind);
}

} // verus!
