//! What a diagnosis says is so.

use vstd::prelude::*;

use crate::ble::diagnostics;
use crate::ble::diagnostics::{Census, Counts, Diagnosis};
use crate::text;

verus! {

/// Totals add up: those of two lists are the sums of theirs, and a device counts as an
/// advertiser if and only if it sent a payload.
pub proof fn the_totals_add_up(a: Seq<Counts>, b: Seq<Counts>)
    ensures
        diagnostics::advertiser_count(a + b) == diagnostics::advertiser_count(a)
            + diagnostics::advertiser_count(b),
        diagnostics::payload_total(a + b) == diagnostics::payload_total(a)
            + diagnostics::payload_total(b),
        diagnostics::unparsed_total(a + b) == diagnostics::unparsed_total(a)
            + diagnostics::unparsed_total(b),
    decreases b.len(),
{
    if b.len() > 0 {
        the_totals_add_up(a, b.drop_last());
        assert((a + b).drop_last() =~= a + b.drop_last());
    } else {
        assert(a + b =~= a);
    }
}

/// The totals of one device are its own.
pub proof fn one_device_is_its_own_total(c: Counts)
    ensures
        diagnostics::advertiser_count(seq![c]) == (if c.payloads > 0 {
            1nat
        } else {
            0
        }),
        diagnostics::payload_total(seq![c]) == c.payloads,
        diagnostics::unparsed_total(seq![c]) == c.unparsed,
{
    assert(seq![c].drop_last() =~= Seq::empty());
    reveal_with_fuel(diagnostics::advertiser_count, 2);
    reveal_with_fuel(diagnostics::payload_total, 2);
    reveal_with_fuel(diagnostics::unparsed_total, 2);
}

/// Nothing was sent if and only if no device sent anything.
proof fn lemma_no_advertiser(matched: Seq<Counts>)
    ensures
        diagnostics::advertiser_count(matched) == 0 <==> forall|i: int|
            0 <= i < matched.len() ==> (#[trigger] matched[i]).payloads == 0,
    decreases matched.len(),
{
    if matched.len() > 0 {
        let front = matched.drop_last();
        lemma_no_advertiser(front);
        assert(matched[matched.len() - 1] == matched.last());
        assert(forall|i: int| 0 <= i < front.len() ==> #[trigger] front[i] == matched[i]);
        if diagnostics::advertiser_count(matched) == 0 {
            assert forall|i: int| 0 <= i < matched.len() implies (#[trigger] matched[i]).payloads
                == 0 by {
                if i < front.len() {
                    assert(front[i] == matched[i]);
                }
            }
        }
    }
}

/// What a diagnosis says is so of the devices it was made of. A silent scan has heard of no
/// device; a filter that let none through is blamed only where there is one; an unreadable
/// payload is one that a device sent which did not decode, and no device has more of those;
/// dates only were sent by some device; and without a Tentacle none sent anything.
pub proof fn what_a_diagnosis_says_is_so(
    d: Diagnosis,
    census: Census,
    filtered: bool,
    devices: nat,
    matched: Seq<Counts>,
)
    requires
        diagnostics::is_survey(census, devices, matched),
        diagnostics::is_diagnosis(d, census, filtered),
    ensures
        d is SilentScan <==> devices == 0,
        match d {
            Diagnosis::SilentScan => true,
            Diagnosis::FilteredOut { devices: n } => filtered && n == devices && matched.len() == 0,
            Diagnosis::NothingAdvertising { devices: n } => !filtered && n == devices
                && matched.len() == 0,
            Diagnosis::Unreadable { name, payload, payloads, unparsed, .. } => exists|i: int|
                0 <= i < matched.len() && {
                    &&& (#[trigger] matched[i]).unparsed_sample matches Some(bytes) && bytes@
                        == payload@
                    &&& matched[i].name matches Some(called) ==> called@ == name@
                    &&& matched[i].name is None ==> name@ == "<unnamed>"@
                    &&& forall|k: int|
                        0 <= k < matched.len() ==> (#[trigger] matched[k]).unparsed
                            <= matched[i].unparsed
                },
            Diagnosis::DatesOnly { advertisers, .. } => advertisers > 0 && exists|i: int|
                0 <= i < matched.len() && (#[trigger] matched[i]).payloads > 0,
            Diagnosis::NoTentacle { matched: n } => n == matched.len() && n > 0 && forall|i: int|
                0 <= i < matched.len() ==> (#[trigger] matched[i]).payloads == 0,
        },
{
    lemma_no_advertiser(matched);
    diagnostics::the_worst_device_is_blamed(matched);
    if let Some(b) = diagnostics::blamed(matched) {
        if matched[b].unparsed_sample is Some {
            assert forall|k: int| 0 <= k < matched.len() implies (#[trigger] matched[k]).unparsed
                <= matched[b].unparsed by {
                assert(diagnostics::no_worse(matched[k], matched[b]));
            }
        }
    }
}

/// The shape of a payload is its flags, in two hexadecimal digits, and its length.
pub proof fn a_shape_reads_back(payload: Seq<u8>)
    ensures
        ({
            let s = diagnostics::shape(payload);
            let flags: u8 = if payload.len() >= 2 {
                payload[1]
            } else {
                0
            };
            &&& s.len() > 3
            &&& 16 * text::laws::hex_value(s[0]) + text::laws::hex_value(s[1]) == flags
            &&& s[2] == '/'
            &&& text::laws::all_digits(s.skip(3))
            &&& text::laws::numeral(s.skip(3)) == payload.len()
        }),
{
    reveal_strlit("/");
    let s = diagnostics::shape(payload);
    text::laws::a_hex_byte_reads_back(diagnostics::flags_byte(payload));
    text::laws::a_decimal_reads_back(payload.len());
    let hex = text::hex_byte(diagnostics::flags_byte(payload));
    assert(s[0] == hex[0] && s[1] == hex[1]);
    assert(s.skip(3) =~= text::decimal(payload.len()));
}

} // verus!
