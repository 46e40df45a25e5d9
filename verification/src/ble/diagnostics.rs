//! Working out why no timecode is arriving.
//!
//! Three failures look identical from outside: nothing in range, something in range
//! whose payload no longer decodes, and a scan delivering no events at all. So this
//! counts what the scan is taking in and classifies it. [`Diagnosis`] carries no prose;
//! what's here is which of the failures it is, and the numbers to say it with.

pub mod laws;

use vstd::prelude::*;

use crate::ble::HEADER;
use crate::text;

verus! {

/// One device's contribution to a [`Census`].
#[derive(Clone, Copy, Debug, PartialEq, Eq)]
pub struct Counts<'a> {
    pub name: Option<&'a str>,
    /// Payloads received under the Tentacle's service UUID.
    pub payloads: u64,
    /// ...of those, how many didn't decode.
    pub unparsed: u64,
    /// The last one that didn't.
    pub unparsed_sample: Option<&'a [u8]>,
}

/// What a scan has taken in, gathered across every device.
#[derive(Clone, Debug, PartialEq, Eq)]
pub struct Census {
    /// Peripherals the adapter reported anything about.
    pub devices: usize,
    /// ...of those, the ones that got past the name filter.
    pub matched: usize,
    /// ...of those, the ones that sent service data under the Tentacle's UUID.
    pub advertisers: usize,
    /// Payloads received under it, in total.
    pub payloads: u64,
    /// ...of those, the ones that did not parse.
    pub unparsed: u64,
    /// The last payload that didn't parse, and who sent it.
    pub sample: Option<(String, Vec<u8>)>,
}

/// What a device that never answered a properties lookup is called.
pub open spec fn unnamed() -> Seq<char> {
    "<unnamed>"@
}

/// How many of the devices sent anything under the Tentacle's UUID.
pub open spec fn advertiser_count(matched: Seq<Counts>) -> nat
    decreases matched.len(),
{
    if matched.len() == 0 {
        0
    } else if matched.last().payloads > 0 {
        advertiser_count(matched.drop_last()) + 1
    } else {
        advertiser_count(matched.drop_last())
    }
}

/// How many payloads they sent.
pub open spec fn payload_total(matched: Seq<Counts>) -> nat
    decreases matched.len(),
{
    if matched.len() == 0 {
        0
    } else {
        payload_total(matched.drop_last()) + matched.last().payloads as nat
    }
}

/// How many of those did not parse.
pub open spec fn unparsed_total(matched: Seq<Counts>) -> nat
    decreases matched.len(),
{
    if matched.len() == 0 {
        0
    } else {
        unparsed_total(matched.drop_last()) + matched.last().unparsed as nat
    }
}

/// A total as a counter holds it: one that would not fit stays at the top.
pub open spec fn capped(total: nat) -> nat {
    if total > u64::MAX {
        u64::MAX as nat
    } else {
        total
    }
}

/// Whether one name comes no later than another; no name comes before every name.
pub open spec fn name_at_most(a: Option<&str>, b: Option<&str>) -> bool {
    match (a, b) {
        (None, _) => true,
        (Some(_), None) => false,
        (Some(x), Some(y)) => text::at_most(x@, y@),
    }
}

/// Whether a device is no better a suspect than another: fewer failures, or as many and
/// a name that comes no later.
pub open spec fn no_worse(a: Counts, b: Counts) -> bool {
    a.unparsed < b.unparsed || (a.unparsed == b.unparsed && name_at_most(a.name, b.name))
}

/// Which device is blamed: the one with the most failures, the name breaking a tie.
pub open spec fn blamed(matched: Seq<Counts>) -> Option<int>
    decreases matched.len(),
{
    if matched.len() == 0 {
        None
    } else {
        match blamed(matched.drop_last()) {
            None => Some(0int),
            Some(b) => if no_worse(matched[b], matched.last()) {
                Some(matched.len() - 1)
            } else {
                Some(b)
            },
        }
    }
}

/// What the blamed device is called, and the payload of its that did not parse.
pub open spec fn evidence(matched: Seq<Counts>) -> Option<(Seq<char>, Seq<u8>)> {
    match blamed(matched) {
        None => None,
        Some(b) => match matched[b].unparsed_sample {
            None => None,
            Some(bytes) => Some(
                (
                    match matched[b].name {
                        Some(name) => name@,
                        None => unnamed(),
                    },
                    bytes@,
                ),
            ),
        },
    }
}

/// A census's sample, as texts and bytes.
pub open spec fn sample_of(census: Census) -> Option<(Seq<char>, Seq<u8>)> {
    match census.sample {
        None => None,
        Some(sample) => Some((sample.0@, sample.1@)),
    }
}

/// A census counts what these devices sent, among this many in range.
pub open spec fn is_survey(census: Census, devices: nat, matched: Seq<Counts>) -> bool {
    &&& census.devices == devices
    &&& census.matched == matched.len()
    &&& census.advertisers == advertiser_count(matched)
    &&& census.payloads == capped(payload_total(matched))
    &&& census.unparsed == capped(unparsed_total(matched))
    &&& sample_of(census) == evidence(matched)
}

fn name_is_at_most(a: Option<&str>, b: Option<&str>) -> (yes: bool)
    ensures
        yes == name_at_most(a, b),
{
    match (a, b) {
        (None, _) => true,
        (Some(_), None) => false,
        (Some(x), Some(y)) => text::is_at_most(x, y),
    }
}

/// Takes a census of the devices that got past the name filter.
pub fn survey(devices: usize, matched: &[Counts<'_>]) -> (census: Census)
    ensures
        is_survey(census, devices as nat, matched@),
{
    let mut advertisers: usize = 0;
    let mut payloads: u64 = 0;
    let mut unparsed: u64 = 0;
    let mut best: Option<usize> = None;
    let mut i: usize = 0;
    assert(matched@.take(0) =~= Seq::empty());
    while i < matched.len()
        invariant
            i <= matched.len(),
            advertisers <= i,
            advertisers == advertiser_count(matched@.take(i as int)),
            payloads == capped(payload_total(matched@.take(i as int))),
            unparsed == capped(unparsed_total(matched@.take(i as int))),
            match (best, blamed(matched@.take(i as int))) {
                (Some(b), Some(c)) => b == c && b < i,
                (None, None) => true,
                _ => false,
            },
        decreases matched.len() - i,
    {
        let c = matched[i];
        proof {
            assert(matched@.take(i + 1).drop_last() =~= matched@.take(i as int));
        }
        if c.payloads > 0 {
            advertisers = advertisers + 1;
        }
        payloads = payloads.saturating_add(c.payloads);
        unparsed = unparsed.saturating_add(c.unparsed);
        match best {
            None => {
                best = Some(i);
            },
            Some(b) => {
                let held = matched[b];
                assert(matched@.take(i as int)[b as int] == matched@[b as int]);
                assert(matched@.take(i + 1)[b as int] == matched@[b as int]);
                if held.unparsed < c.unparsed || (held.unparsed == c.unparsed && name_is_at_most(
                    held.name,
                    c.name,
                )) {
                    best = Some(i);
                }
            },
        }
        i = i + 1;
    }
    assert(matched@.take(i as int) =~= matched@);
    let sample: Option<(String, Vec<u8>)> = match best {
        None => None,
        Some(b) => match matched[b].unparsed_sample {
            None => None,
            Some(bytes) => Some(
                (
                    match matched[b].name {
                        Some(name) => name.to_owned(),
                        None => "<unnamed>".to_owned(),
                    },
                    vstd::slice::slice_to_vec(bytes),
                ),
            ),
        },
    };
    Census { devices, matched: matched.len(), advertisers, payloads, unparsed, sample }
}

/// Which failure a scan with nothing to show is in.
#[derive(Clone, Debug, PartialEq, Eq)]
#[non_exhaustive]
pub enum Diagnosis {
    /// Not one advertisement of any kind has arrived, so the scan is the suspect, not the
    /// Tentacles.
    SilentScan,
    /// Devices are in range, but none got past the name filter.
    FilteredOut { devices: usize },
    /// Devices are in range and none of them has advertised anything. Only reachable with
    /// no filter set.
    NothingAdvertising { devices: usize },
    /// A Tentacle is right here and its payloads don't decode. The device with the most
    /// failures is named, with the last payload it sent.
    Unreadable {
        name: String,
        payload: Vec<u8>,
        advertisers: usize,
        payloads: u64,
        unparsed: u64,
    },
    /// Payloads are arriving and decoding, but none has carried timecode.
    DatesOnly { advertisers: usize, payloads: u64 },
    /// Devices are in range, none advertising the Tentacle's service.
    NoTentacle { matched: usize },
}

/// The flags byte of a payload, none where it is too short to have one.
pub open spec fn flags_byte(payload: Seq<u8>) -> u8 {
    if payload.len() >= 2 {
        payload[1]
    } else {
        0
    }
}

/// What makes one unreadable payload structurally different from another: the flags byte
/// and the length.
pub open spec fn shape(payload: Seq<u8>) -> Seq<char> {
    text::hex_byte(flags_byte(payload)) + "/"@ + text::decimal(payload.len())
}

/// A key for which failure a diagnosis is.
pub open spec fn key_text(d: Diagnosis) -> Seq<char> {
    match d {
        Diagnosis::SilentScan => "silent-scan"@,
        Diagnosis::FilteredOut { .. } => "filtered-out"@,
        Diagnosis::NothingAdvertising { .. } => "nothing-advertising"@,
        Diagnosis::Unreadable { payload, .. } => "unparsed:"@ + shape(payload@),
        Diagnosis::DatesOnly { .. } => "dates-only"@,
        Diagnosis::NoTentacle { .. } => "no-tentacle"@,
    }
}

impl Diagnosis {
    /// A key for which failure this is, for a caller that logs rather than redraws: the
    /// numbers in a diagnosis move on their own, and this does not.
    pub fn key(&self) -> (key: String)
        ensures
            key@ == key_text(*self),
    {
        match self {
            Diagnosis::SilentScan => "silent-scan".to_owned(),
            Diagnosis::FilteredOut { .. } => "filtered-out".to_owned(),
            Diagnosis::NothingAdvertising { .. } => "nothing-advertising".to_owned(),
            Diagnosis::Unreadable { payload, .. } => {
                let mut out = String::new();
                out.push_str("unparsed:");
                out.push_str(shape_of(payload.as_slice()).as_str());
                assert(out@ =~= key_text(*self));
                out
            },
            Diagnosis::DatesOnly { .. } => "dates-only".to_owned(),
            Diagnosis::NoTentacle { .. } => "no-tentacle".to_owned(),
        }
    }
}

/// A diagnosis is the one that a census calls for, most specific case first. `filtered`
/// says whether a name filter is in force, which is the only thing that separates "none
/// of them matched" from "none of them said anything".
pub open spec fn is_diagnosis(d: Diagnosis, census: Census, filtered: bool) -> bool {
    if census.devices == 0 {
        d is SilentScan
    } else if census.matched == 0 && filtered {
        d matches Diagnosis::FilteredOut { devices } && devices == census.devices
    } else if census.matched == 0 {
        d matches Diagnosis::NothingAdvertising { devices } && devices == census.devices
    } else if let Some(sample) = census.sample {
        d matches Diagnosis::Unreadable { name, payload, advertisers, payloads, unparsed }
            && name@ == sample.0@ && payload@ == sample.1@ && advertisers == census.advertisers
            && payloads == census.payloads && unparsed == census.unparsed
    } else if census.advertisers > 0 {
        d matches Diagnosis::DatesOnly { advertisers, payloads } && advertisers
            == census.advertisers && payloads == census.payloads
    } else {
        d matches Diagnosis::NoTentacle { matched } && matched == census.matched
    }
}

/// Reads a census, most specific case first.
pub fn diagnose(census: &Census, filtered: bool) -> (d: Diagnosis)
    ensures
        is_diagnosis(d, *census, filtered),
{
    if census.devices == 0 {
        return Diagnosis::SilentScan;
    }
    if census.matched == 0 {
        return if filtered {
            Diagnosis::FilteredOut { devices: census.devices }
        } else {
            Diagnosis::NothingAdvertising { devices: census.devices }
        };
    }
    if let Some(sample) = &census.sample {
        let payload = vstd::slice::slice_to_vec(sample.1.as_slice());
        return Diagnosis::Unreadable {
            name: sample.0.clone(),
            payload,
            advertisers: census.advertisers,
            payloads: census.payloads,
            unparsed: census.unparsed,
        };
    }
    if census.advertisers > 0 {
        return Diagnosis::DatesOnly {
            advertisers: census.advertisers,
            payloads: census.payloads,
        };
    }
    Diagnosis::NoTentacle { matched: census.matched }
}

/// The flags byte and the length of a payload.
pub fn shape_of(payload: &[u8]) -> (out: String)
    ensures
        out@ == shape(payload@),
{
    let flags: u8 = if payload.len() >= HEADER {
        payload[HEADER - 1]
    } else {
        0
    };
    let mut out = String::new();
    text::put_hex_byte(&mut out, flags);
    out.push_str("/");
    text::put_decimal(&mut out, payload.len() as u128);
    assert(out@ =~= shape(payload@));
    out
}

proof fn lemma_no_worse_is_an_order(a: Counts, b: Counts, c: Counts)
    ensures
        no_worse(a, a),
        no_worse(a, b) || no_worse(b, a),
        no_worse(a, b) && no_worse(b, c) ==> no_worse(a, c),
        no_worse(a, b) && no_worse(b, a) ==> a.unparsed == b.unparsed && name_chars(a)
            == name_chars(b),
{
    if let Some(x) = a.name {
        text::the_order_of_texts_is_total(x@, x@);
        if let Some(y) = b.name {
            text::the_order_of_texts_is_total(x@, y@);
            if let Some(z) = c.name {
                if text::at_most(x@, y@) && text::at_most(y@, z@) {
                    text::the_order_of_texts_is_transitive(x@, y@, z@);
                }
            }
        }
    }
}

/// A device's name, if it has one.
pub open spec fn name_chars(c: Counts) -> Option<Seq<char>> {
    match c.name {
        Some(name) => Some(name@),
        None => None,
    }
}

/// Where there is any device at all one is blamed, and no other is a better suspect: none
/// has more failures, nor as many and a later name.
pub proof fn the_worst_device_is_blamed(matched: Seq<Counts>)
    ensures
        blamed(matched) is None <==> matched.len() == 0,
        blamed(matched) matches Some(b) ==> 0 <= b < matched.len() && forall|i: int|
            0 <= i < matched.len() ==> no_worse(#[trigger] matched[i], matched[b]),
    decreases matched.len(),
{
    if matched.len() > 0 {
        let front = matched.drop_last();
        the_worst_device_is_blamed(front);
        let b = blamed(matched)->0;
        let last = matched.len() - 1;
        lemma_no_worse_is_an_order(matched[last], matched[last], matched[last]);
        if let Some(c) = blamed(front) {
            lemma_no_worse_is_an_order(matched[c], matched[last], matched[last]);
            assert forall|i: int| 0 <= i < matched.len() implies no_worse(
                #[trigger] matched[i],
                matched[b],
            ) by {
                if i < last {
                    assert(no_worse(front[i], front[c]));
                    lemma_no_worse_is_an_order(matched[i], matched[c], matched[last]);
                }
            }
        }
    }
}

/// The same device is blamed however they are handed over: of two lists that hold the
/// same devices, in any order, the blamed ones have the same name and the same number of
/// failures.
pub proof fn the_same_device_is_blamed_in_any_order(one: Seq<Counts>, other: Seq<Counts>)
    requires
        one.len() > 0,
        forall|i: int| 0 <= i < one.len() ==> other.contains(#[trigger] one[i]),
        forall|i: int| 0 <= i < other.len() ==> one.contains(#[trigger] other[i]),
    ensures
        blamed(one) is Some,
        blamed(other) is Some,
        ({
            let a = one[blamed(one)->0];
            let b = other[blamed(other)->0];
            a.unparsed == b.unparsed && name_chars(a) == name_chars(b)
        }),
{
    the_worst_device_is_blamed(one);
    the_worst_device_is_blamed(other);
    assert(other.contains(one[0]));
    let a = one[blamed(one)->0];
    let b = other[blamed(other)->0];
    assert(other.contains(a));
    let i = choose|i: int| 0 <= i < other.len() && other[i] == a;
    assert(no_worse(other[i], b));
    assert(one.contains(b));
    let j = choose|j: int| 0 <= j < one.len() && one[j] == b;
    assert(no_worse(one[j], a));
    lemma_no_worse_is_an_order(a, b, a);
}

proof fn lemma_totals_without(s: Seq<Counts>, k: int)
    requires
        0 <= k < s.len(),
    ensures
        advertiser_count(s) == advertiser_count(s.remove(k)) + (if s[k].payloads > 0 {
            1nat
        } else {
            0
        }),
        payload_total(s) == payload_total(s.remove(k)) + s[k].payloads,
        unparsed_total(s) == unparsed_total(s.remove(k)) + s[k].unparsed,
    decreases s.len(),
{
    if k == s.len() - 1 {
        assert(s.remove(k) =~= s.drop_last());
    } else {
        let front = s.drop_last();
        lemma_totals_without(front, k);
        assert(s.remove(k).drop_last() =~= front.remove(k));
        assert(s.remove(k).last() == s.last());
    }
}

proof fn lemma_totals_in_any_order(one: Seq<Counts>, other: Seq<Counts>)
    requires
        one.to_multiset() == other.to_multiset(),
    ensures
        one.len() == other.len(),
        advertiser_count(one) == advertiser_count(other),
        payload_total(one) == payload_total(other),
        unparsed_total(one) == unparsed_total(other),
    decreases one.len(),
{
    broadcast use vstd::seq_lib::group_to_multiset_ensures;

    assert(one.to_multiset().len() == one.len());
    assert(other.to_multiset().len() == other.len());
    if one.len() > 0 {
        let last = one.last();
        let front = one.drop_last();
        assert(one.contains(one[one.len() - 1]));
        assert(other.to_multiset().count(last) > 0);
        assert(other.contains(last));
        let k = choose|k: int| 0 <= k < other.len() && other[k] == last;
        assert(one.remove(one.len() - 1) =~= front);
        assert(front.to_multiset() =~= one.to_multiset().remove(last));
        assert(other.remove(k).to_multiset() =~= other.to_multiset().remove(last));
        lemma_totals_without(one, one.len() - 1);
        lemma_totals_without(other, k);
        lemma_totals_in_any_order(front, other.remove(k));
    }
}

/// The order that the devices are handed over in makes no difference: two lists of the same
/// devices give the same census, sample and all, where no two of the devices have the same
/// name and the same number of failures.
pub proof fn a_census_is_the_same_in_any_order(
    devices: nat,
    one: Seq<Counts>,
    other: Seq<Counts>,
    first: Census,
    second: Census,
)
    requires
        one.to_multiset() == other.to_multiset(),
        forall|i: int, j: int|
            0 <= i < j < one.len() ==> (#[trigger] one[i]).unparsed != (#[trigger] one[j]).unparsed
                || name_chars(one[i]) != name_chars(one[j]),
        is_survey(first, devices, one),
        is_survey(second, devices, other),
    ensures
        first.devices == second.devices,
        first.matched == second.matched,
        first.advertisers == second.advertisers,
        first.payloads == second.payloads,
        first.unparsed == second.unparsed,
        sample_of(first) == sample_of(second),
{
    broadcast use vstd::seq_lib::group_to_multiset_ensures;

    lemma_totals_in_any_order(one, other);
    if one.len() > 0 {
        assert forall|i: int| 0 <= i < one.len() implies other.contains(#[trigger] one[i]) by {
            assert(one.contains(one[i]));
            assert(other.to_multiset().count(one[i]) > 0);
        }
        assert forall|i: int| 0 <= i < other.len() implies one.contains(#[trigger] other[i]) by {
            assert(other.contains(other[i]));
            assert(one.to_multiset().count(other[i]) > 0);
        }
        the_same_device_is_blamed_in_any_order(one, other);
        the_worst_device_is_blamed(one);
        the_worst_device_is_blamed(other);
        let i = blamed(one)->0;
        let b = other[blamed(other)->0];
        assert(one.contains(b));
        let j = choose|j: int| 0 <= j < one.len() && one[j] == b;
        if i < j {
            assert(one[i].unparsed != one[j].unparsed || name_chars(one[i]) != name_chars(one[j]));
        } else if j < i {
            assert(one[j].unparsed != one[i].unparsed || name_chars(one[j]) != name_chars(one[i]));
        }
        assert(one[i] == b);
    }
}

/// A device with no failures is never blamed where one has any.
pub proof fn a_device_without_failures_is_not_blamed(matched: Seq<Counts>, i: int)
    requires
        0 <= i < matched.len(),
        matched[i].unparsed > 0,
    ensures
        blamed(matched) matches Some(b) && matched[b].unparsed >= matched[i].unparsed,
{
    the_worst_device_is_blamed(matched);
}

/// A ticking timecode is not a new failure: the shape of a payload is its flags byte and
/// its length, and nothing else.
pub proof fn only_the_flags_and_the_length_make_the_shape(a: Seq<u8>, b: Seq<u8>)
    ensures
        shape(a) == shape(b) <==> flags_byte(a) == flags_byte(b) && a.len() == b.len(),
{
    let sa = shape(a);
    let sb = shape(b);
    let fa = flags_byte(a);
    let fb = flags_byte(b);
    if sa == sb {
        assert(sa[0] == sb[0] && sa[1] == sb[1]);
        assert(sa[0] == text::hex_digit((fa / 16) as nat));
        assert(sb[0] == text::hex_digit((fb / 16) as nat));
        assert(sa[1] == text::hex_digit((fa % 16) as nat));
        assert(sb[1] == text::hex_digit((fb % 16) as nat));
        reveal_strlit("/");
        assert(sa.skip(3) =~= text::decimal(a.len()));
        assert(sb.skip(3) =~= text::decimal(b.len()));
        text::decimals_tell_numbers_apart(a.len(), b.len());
    }
}

} // verus!
