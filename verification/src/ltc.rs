//! SMPTE Linear Timecode (LTC) decoding from a stream of audio samples.
//!
//! LTC carries 80 bits per video frame, biphase-mark encoded: every bit cell starts
//! with a transition, and a `1` adds a second transition in the middle of the cell. So
//! a `0` is one long interval between transitions and a `1` is two short ones, which
//! makes the code self-clocking and immune to the polarity of the audio connection.
//!
//! The last 16 bits of every frame are the fixed sync word. Twelve consecutive ones
//! cannot occur in the payload, so the sync word is what lets us find frame boundaries
//! in a free-running bit stream.
//!
//! A sample is an integer in which full scale is 2^28. The filters work in
//! millionths of that, and a bit period is in billionths of a sample.

pub mod counts;
pub mod laws;

use vstd::prelude::*;

use crate::num;
use crate::text;
use crate::timecode;
use crate::timecode::clock_string;

verus! {

/// Bits in one LTC frame.
pub const FRAME_BITS: u64 = 80;

/// Trailing sync word, in transmission order (bit 64 first).
pub const SYNC_WORD: u128 = 0x3FFD;

/// The parts that a sample's unit is divided into by the filters.
pub const FINE: i128 = 1_000_000;

/// An envelope below this counts as no signal at all rather than as quiet LTC: a
/// thousandth of full scale.
pub const SILENCE_FLOOR: i128 = 268_435_456_000;

/// The parts that a sample's length is divided into by the bit clock.
pub const TICKS: u128 = 1_000_000_000;

/// One decoded LTC frame.
#[derive(Clone, Copy, Debug, PartialEq, Eq)]
pub struct LtcFrame {
    pub hours: u8,
    pub minutes: u8,
    pub seconds: u8,
    pub frames: u8,
    pub drop_frame: bool,
    pub color_frame: bool,
    /// The eight 4-bit user-data groups, in transmission order.
    pub user_bits: [u8; 8],
}

/// The number that `n` bits spell from `start` on, the lowest bit first.
pub open spec fn number(bits: Seq<bool>, start: int, n: nat) -> nat
    decreases n,
{
    if n == 0 {
        0
    } else {
        (if bits[start] {
            1nat
        } else {
            0nat
        }) + 2 * number(bits, start + 1, (n - 1) as nat)
    }
}

/// A field of units and tens, each its own number.
pub open spec fn units_and_tens(bits: Seq<bool>, units: int, tens: int, n: nat) -> nat {
    number(bits, units, 4) + 10 * number(bits, tens, n)
}

/// The user-data groups of a frame.
pub open spec fn user_groups(bits: Seq<bool>) -> [u8; 8] {
    [
        number(bits, 4, 4) as u8,
        number(bits, 12, 4) as u8,
        number(bits, 20, 4) as u8,
        number(bits, 28, 4) as u8,
        number(bits, 36, 4) as u8,
        number(bits, 44, 4) as u8,
        number(bits, 52, 4) as u8,
        number(bits, 60, 4) as u8,
    ]
}

/// What 80 bits in transmission order say, if no field of theirs is out of range.
pub open spec fn frame_of(bits: Seq<bool>) -> Option<LtcFrame> {
    let frames = units_and_tens(bits, 0, 8, 2);
    let seconds = units_and_tens(bits, 16, 24, 3);
    let minutes = units_and_tens(bits, 32, 40, 3);
    let hours = units_and_tens(bits, 48, 56, 2);
    if frames > 30 || seconds > 59 || minutes > 59 || hours > 23 {
        None
    } else {
        Some(
            LtcFrame {
                hours: hours as u8,
                minutes: minutes as u8,
                seconds: seconds as u8,
                frames: frames as u8,
                drop_frame: bits[10],
                color_frame: bits[11],
                user_bits: user_groups(bits),
            },
        )
    }
}

/// Frame bit `i`, in transmission order, of a register whose most recently shifted-in
/// bit sits at position 0.
pub open spec fn register_bit(reg: u128, i: int) -> bool {
    (reg >> ((79 - i) as u128)) & 1 == 1
}

/// The 80 bits of a register in transmission order.
pub open spec fn register_bits(reg: u128) -> Seq<bool> {
    Seq::new(80, |i: int| register_bit(reg, i))
}

/// Frame bit `i` of a register.
fn bit(reg: u128, i: u8) -> (b: bool)
    requires
        i < 80,
    ensures
        b == register_bits(reg)[i as int],
{
    (reg >> ((79 - i) as u128)) & 1 == 1
}

/// A field of `n` bits starting at frame bit `start`, the lowest bit first.
fn field(reg: u128, start: u8, n: u8) -> (value: u8)
    requires
        n <= 4,
        start + n <= 80,
    ensures
        value == number(register_bits(reg), start as int, n as nat),
        n == 2 ==> value <= 3,
        n == 3 ==> value <= 7,
        value <= 15,
{
    proof {
        reveal_with_fuel(number, 5);
    }
    let mut value: u8 = 0;
    let mut k: u8 = n;
    while k > 0
        invariant
            k <= n <= 4,
            start + n <= 80,
            value == number(register_bits(reg), start + k, (n - k) as nat),
            n - k == 0 ==> value == 0,
            n - k == 1 ==> value <= 1,
            n - k == 2 ==> value <= 3,
            n - k == 3 ==> value <= 7,
            n - k == 4 ==> value <= 15,
        decreases k,
    {
        k = k - 1;
        let one: u8 = if bit(reg, start + k) {
            1
        } else {
            0
        };
        value = 2 * value + one;
    }
    value
}

impl LtcFrame {
    /// The fields are ones a frame can carry.
    pub open spec fn in_range(self) -> bool {
        &&& self.hours <= 23
        &&& self.minutes <= 59
        &&& self.seconds <= 59
        &&& self.frames <= 30
        &&& self.user_bits_fit()
    }

    /// Every user-data group is a hexadecimal digit.
    pub open spec fn user_bits_fit(self) -> bool {
        forall|i: int| 0 <= i < 8 ==> #[trigger] self.user_bits[i] <= 15
    }

    /// Parses the 80 bits of a frame, newest bit in the low position of `reg`.
    ///
    /// Returns `None` if any field is out of range, which is the cheapest check there is
    /// against a bit slip that happened to land on a sync word.
    pub fn from_register(reg: u128) -> (frame: Option<LtcFrame>)
        ensures
            frame == frame_of(register_bits(reg)),
            frame matches Some(f) ==> f.in_range(),
    {
        let frames: u8 = field(reg, 0, 4) + field(reg, 8, 2) * 10;
        let seconds: u8 = field(reg, 16, 4) + field(reg, 24, 3) * 10;
        let minutes: u8 = field(reg, 32, 4) + field(reg, 40, 3) * 10;
        let hours: u8 = field(reg, 48, 4) + field(reg, 56, 2) * 10;
        if frames > 30 || seconds > 59 || minutes > 59 || hours > 23 {
            return None;
        }
        let user_bits: [u8; 8] = [
            field(reg, 4, 4),
            field(reg, 12, 4),
            field(reg, 20, 4),
            field(reg, 28, 4),
            field(reg, 36, 4),
            field(reg, 44, 4),
            field(reg, 52, 4),
            field(reg, 60, 4),
        ];
        assert(user_bits == user_groups(register_bits(reg)));
        Some(
            LtcFrame {
                hours,
                minutes,
                seconds,
                frames,
                drop_frame: bit(reg, 10),
                color_frame: bit(reg, 11),
                user_bits,
            },
        )
    }
}

/// User-data groups as hexadecimal digits.
pub open spec fn groups_text(groups: Seq<u8>) -> Seq<char> {
    groups.map_values(|n: u8| text::hex_digit(n as nat))
}

impl LtcFrame {
    /// The user bits rendered as the eight hex digits they usually stand for.
    pub fn user_bits_hex(&self) -> (out: String)
        requires
            self.user_bits_fit(),
        ensures
            out@ == groups_text(self.user_bits@),
    {
        let mut out = String::new();
        let mut i: usize = 0;
        while i < 8
            invariant
                i <= 8,
                self.user_bits_fit(),
                out@ == groups_text(self.user_bits@).take(i as int),
            decreases 8 - i,
        {
            assert(self.user_bits[i as int] <= 15);
            out.push(text::hex_digit_char(self.user_bits[i]));
            i = i + 1;
            assert(out@ =~= groups_text(self.user_bits@).take(i as int));
        }
        assert(out@ =~= groups_text(self.user_bits@));
        out
    }

    /// The frame's timecode in words.
    pub fn to_string(&self) -> (out: String)
        ensures
            out@ == timecode::clock_text(
                self.hours,
                self.minutes,
                self.seconds,
                self.frames,
                self.drop_frame,
            ),
    {
        clock_string(self.hours, self.minutes, self.seconds, self.frames, self.drop_frame)
    }
}

/// A frame together with where in the stream it landed.
#[derive(Clone, Copy, Debug, PartialEq, Eq)]
pub struct DecodedFrame {
    pub frame: LtcFrame,
    /// Index, in samples since the decoder was created, of the end of this frame's audio.
    /// Timecode describes the instant the frame *started*, so this is roughly one frame
    /// period after the moment being labelled.
    pub end_sample: u64,
    /// Frame rate implied by the bit period the decoder is locked to, in millionths of a
    /// frame a second.
    pub measured_fps: u64,
}

/// How far apart two rates are.
pub open spec fn apart(a: int, b: int) -> int {
    if a >= b {
        a - b
    } else {
        b - a
    }
}

/// The rate LTC is run at that is nearest to a measured one, in hundredths of a frame a
/// second, the slower of two that are equally near.
pub open spec fn snapped(measured: int, drop_frame: bool) -> int {
    if apart(24_000_000, measured) <= apart(25_000_000, measured) && apart(24_000_000, measured)
        <= apart(30_000_000, measured) {
        2400
    } else if apart(25_000_000, measured) <= apart(30_000_000, measured) {
        2500
    } else if drop_frame {
        2997
    } else {
        3000
    }
}

impl DecodedFrame {
    /// `measured_fps` snapped to the nearest rate LTC is actually run at, in hundredths of
    /// a frame a second.
    ///
    /// 23.976 and 29.97 differ from 24 and 30 by only 0.1%, which is finer than the
    /// bit-period estimate resolves; the drop-frame flag is the only reliable hint, and
    /// only for 29.97.
    pub fn nominal_fps(&self) -> (fps: u32)
        ensures
            fps == snapped(self.measured_fps as int, self.frame.drop_frame),
    {
        let m: u64 = self.measured_fps;
        let to_24: u64 = if m >= 24_000_000 {
            m - 24_000_000
        } else {
            24_000_000 - m
        };
        let to_25: u64 = if m >= 25_000_000 {
            m - 25_000_000
        } else {
            25_000_000 - m
        };
        let to_30: u64 = if m >= 30_000_000 {
            m - 30_000_000
        } else {
            30_000_000 - m
        };
        if to_24 <= to_25 && to_24 <= to_30 {
            2400
        } else if to_25 <= to_30 {
            2500
        } else if self.frame.drop_frame {
            2997
        } else {
            3000
        }
    }
}

/// Everything a decoder remembers from one sample to the next.
#[derive(Clone, Copy, Debug, PartialEq, Eq)]
pub struct Demod {
    pub sample_rate: u32,
    /// The slow part of the signal, and its peak envelope, in millionths of a sample's
    /// unit.
    pub dc: i128,
    pub envelope: i128,
    pub polarity: bool,
    pub since_transition: u64,
    /// Length of a bit cell, in billionths of a sample.
    pub bit_period: u128,
    /// Length of the first half-cell of a `1`, while we wait for the second.
    pub pending_half: Option<u64>,
    pub reg: u128,
    pub bits_since_sync: u64,
    pub synced: bool,
    pub samples_seen: u64,
}

/// A count that stays where it is once it is full.
pub open spec fn one_more(n: u64) -> u64 {
    if n == u64::MAX {
        n
    } else {
        (n + 1) as u64
    }
}

/// A decoder that has seen nothing. The bit period is seeded between those of 24 and 30
/// frames a second, so that the very first interval already classifies correctly at any
/// standard rate.
pub open spec fn fresh(sample_rate: u32) -> Demod {
    Demod {
        sample_rate,
        dc: 0,
        envelope: 0,
        polarity: false,
        since_transition: 0,
        bit_period: (sample_rate * 1_000_000_000 / 2160) as u128,
        pending_half: None,
        reg: 0,
        bits_since_sync: 0,
        synced: false,
        samples_seen: 0,
    }
}

/// A decoder that has lost the frame boundaries.
pub open spec fn unlocked(s: Demod) -> Demod {
    Demod { synced: false, bits_since_sync: 0, pending_half: None, reg: 0, ..s }
}

/// The register with one more bit shifted in.
pub open spec fn shifted(reg: u128, one: bool) -> u128 {
    (reg << 1) | (if one {
        1u128
    } else {
        0u128
    })
}

/// The frame rate a bit period implies, in millionths of a frame a second.
pub open spec fn implied_fps(s: Demod) -> nat {
    (s.sample_rate * 1_000_000_000_000_000) as nat / (s.bit_period as nat * 80)
}

/// A count, held to the largest `u64`.
pub open spec fn capped(n: nat) -> u64 {
    if n > u64::MAX {
        u64::MAX
    } else {
        n as u64
    }
}

/// What one more bit makes of a decoder, and the frame that it completes.
///
/// The first sync word gives the alignment but no frame, since the register still holds
/// what came before the lock. After that a sync word 80 bits after the last one
/// completes a frame, one further off is a slip and gives a new alignment, and one short
/// of it is payload that happens to match.
pub open spec fn after_bit(s: Demod, one: bool) -> (Demod, Option<DecodedFrame>) {
    let reg = shifted(s.reg, one);
    let count = one_more(s.bits_since_sync);
    let t = Demod { reg, bits_since_sync: count, ..s };
    if reg & 0xffff != SYNC_WORD {
        (t, None)
    } else if !s.synced {
        (Demod { synced: true, bits_since_sync: 0, ..t }, None)
    } else if count == 80 {
        (
            Demod { bits_since_sync: 0, ..t },
            match frame_of(register_bits(reg)) {
                Some(frame) => Some(
                    DecodedFrame {
                        frame,
                        end_sample: s.samples_seen,
                        measured_fps: capped(implied_fps(s)),
                    },
                ),
                None => None,
            },
        )
    } else if count > 80 {
        (Demod { bits_since_sync: 0, ..t }, None)
    } else {
        (t, None)
    }
}

/// A bit period a tenth of the way to an observed cell.
pub open spec fn adapted(period: nat, cell: nat) -> nat {
    (9 * period + cell * 1_000_000_000) / 10
}

/// What a transition makes of a decoder, `interval` samples after the last one.
pub open spec fn after_transition(s: Demod, interval: u64) -> (Demod, Option<DecodedFrame>) {
    let ticks = interval * 1_000_000_000;
    if ticks > 2 * s.bit_period {
        // Longer than any legal bit cell.
        (unlocked(s), None)
    } else if 4 * ticks < s.bit_period {
        // Ringing on an edge rather than a real transition.
        (s, None)
    } else if 4 * ticks > 3 * s.bit_period {
        after_bit(
            Demod {
                bit_period: adapted(s.bit_period as nat, interval as nat) as u128,
                pending_half: None,
                ..s
            },
            false,
        )
    } else {
        match s.pending_half {
            // Both halves together span one cell.
            Some(first) => after_bit(
                Demod {
                    bit_period: adapted(
                        s.bit_period as nat,
                        (first + interval) as nat,
                    ) as u128,
                    pending_half: None,
                    ..s
                },
                true,
            ),
            None => (Demod { pending_half: Some(interval), ..s }, None),
        }
    }
}

/// The slow part of the signal after one more sample: 26 ten-thousandths of the way.
pub open spec fn dc_after(s: Demod, x: i32) -> int {
    s.dc + num::truncated((x * 1_000_000 - s.dc) * 26, 10_000)
}

/// The sample with the slow part taken out.
pub open spec fn ac_after(s: Demod, x: i32) -> int {
    x * 1_000_000 - dc_after(s, x)
}

/// The peak envelope after one more sample: up at once, down slowly.
pub open spec fn envelope_after(s: Demod, x: i32) -> int {
    let mag = apart(ac_after(s, x), 0);
    if mag > s.envelope {
        mag
    } else {
        s.envelope * 99_958 / 100_000
    }
}

/// What one more sample makes of a decoder, and the frame that it completes.
pub open spec fn after_sample(s: Demod, x: i32) -> (Demod, Option<DecodedFrame>) {
    let ac = ac_after(s, x);
    let envelope = envelope_after(s, x);
    let t = Demod {
        samples_seen: one_more(s.samples_seen),
        since_transition: one_more(s.since_transition),
        dc: dc_after(s, x) as i128,
        envelope: envelope as i128,
        ..s
    };
    if envelope < SILENCE_FLOOR {
        // Nothing but noise on the wire; don't let it clock the demodulator.
        (unlocked(t), None)
    } else if (s.polarity && 4 * ac < -envelope) || (!s.polarity && 4 * ac > envelope) {
        after_transition(
            Demod { polarity: !s.polarity, since_transition: 0, ..t },
            t.since_transition,
        )
    } else {
        (t, None)
    }
}

/// What a run of samples makes of a decoder.
pub open spec fn state_after(s: Demod, samples: Seq<i32>) -> Demod
    decreases samples.len(),
{
    if samples.len() == 0 {
        s
    } else {
        after_sample(state_after(s, samples.drop_last()), samples.last()).0
    }
}

/// The frames that a run of samples completes.
pub open spec fn frames_in(s: Demod, samples: Seq<i32>) -> Seq<DecodedFrame>
    decreases samples.len(),
{
    if samples.len() == 0 {
        Seq::empty()
    } else {
        let before = frames_in(s, samples.drop_last());
        match after_sample(state_after(s, samples.drop_last()), samples.last()).1 {
            Some(frame) => before.push(frame),
            None => before,
        }
    }
}

impl Demod {
    /// The filters stay within what a sample can reach, and the bit period within what an
    /// interval can.
    pub open spec fn wf(self) -> bool {
        &&& -0x8000_0000 * FINE <= self.dc <= 0x8000_0000 * FINE
        &&& 0 <= self.envelope <= 2 * 0x8000_0000 * FINE
        &&& self.bit_period <= 0x8000_0000_0000_0000_0000_0000
        &&& self.pending_half matches Some(h) ==> h >= 1
    }

    /// Loses the frame boundaries.
    fn lose_lock(&self) -> (t: Demod)
        ensures
            t == unlocked(*self),
    {
        Demod { synced: false, bits_since_sync: 0, pending_half: None, reg: 0, ..*self }
    }

    /// Takes one more bit.
    fn push_bit(&self, one: bool) -> (r: (Demod, Option<DecodedFrame>))
        requires
            self.wf(),
            self.bit_period >= 1,
        ensures
            r == after_bit(*self, one),
            r.0.wf(),
    {
        let low: u128 = if one {
            1
        } else {
            0
        };
        let reg: u128 = (self.reg << 1) | low;
        let count: u64 = self.bits_since_sync.saturating_add(1);
        let t = Demod { reg, bits_since_sync: count, ..*self };
        if reg & 0xffff != SYNC_WORD {
            return (t, None);
        }
        if !self.synced {
            return (Demod { synced: true, bits_since_sync: 0, ..t }, None);
        }
        if count == FRAME_BITS {
            let fps: u128 = self.sample_rate as u128 * 1_000_000_000_000_000 / (self.bit_period
                * 80);
            let done = match LtcFrame::from_register(reg) {
                Some(frame) => Some(
                    DecodedFrame {
                        frame,
                        end_sample: self.samples_seen,
                        measured_fps: if fps > u64::MAX as u128 {
                            u64::MAX
                        } else {
                            fps as u64
                        },
                    },
                ),
                None => None,
            };
            return (Demod { bits_since_sync: 0, ..t }, done);
        }
        if count > FRAME_BITS {
            return (Demod { bits_since_sync: 0, ..t }, None);
        }
        (t, None)
    }

    /// Takes a transition.
    fn on_transition(&self, interval: u64) -> (r: (Demod, Option<DecodedFrame>))
        requires
            self.wf(),
            interval >= 1,
        ensures
            r == after_transition(*self, interval),
            r.0.wf(),
    {
        let ticks: u128 = interval as u128 * TICKS;
        if ticks > 2 * self.bit_period {
            return (self.lose_lock(), None);
        }
        if 4 * ticks < self.bit_period {
            return (*self, None);
        }
        if 4 * ticks > 3 * self.bit_period {
            let period: u128 = (9 * self.bit_period + ticks) / 10;
            Demod { bit_period: period, pending_half: None, ..*self }.push_bit(false)
        } else {
            match self.pending_half {
                Some(first) => {
                    let cell: u128 = first as u128 * TICKS + ticks;
                    let period: u128 = (9 * self.bit_period + cell) / 10;
                    Demod { bit_period: period, pending_half: None, ..*self }.push_bit(true)
                },
                None => (Demod { pending_half: Some(interval), ..*self }, None),
            }
        }
    }

    /// Takes one more sample.
    fn push_sample(&self, x: i32) -> (r: (Demod, Option<DecodedFrame>))
        requires
            self.wf(),
        ensures
            r == after_sample(*self, x),
            r.0.wf(),
    {
        let fine: i128 = x as i128 * FINE;
        let dc: i128 = self.dc + num::trunc_div((fine - self.dc) * 26, 10_000);
        let ac: i128 = fine - dc;
        let mag: i128 = if ac >= 0 {
            ac
        } else {
            -ac
        };
        let envelope: i128 = if mag > self.envelope {
            mag
        } else {
            self.envelope * 99_958 / 100_000
        };
        let t = Demod {
            samples_seen: self.samples_seen.saturating_add(1),
            since_transition: self.since_transition.saturating_add(1),
            dc,
            envelope,
            ..*self
        };
        if envelope < SILENCE_FLOOR {
            return (t.lose_lock(), None);
        }
        let crossed: bool = if self.polarity {
            4 * ac < -envelope
        } else {
            4 * ac > envelope
        };
        if !crossed {
            return (t, None);
        }
        Demod { polarity: !self.polarity, since_transition: 0, ..t }.on_transition(
            t.since_transition,
        )
    }
}

/// Streaming LTC decoder: feed it mono samples, get frames out.
#[derive(Debug)]
pub struct LtcDecoder {
    state: Demod,
}

impl View for LtcDecoder {
    type V = Demod;

    closed spec fn view(&self) -> Demod {
        self.state
    }
}

/// The peak envelope of the input, in a sample's unit.
pub open spec fn level_of(s: Demod) -> int {
    s.envelope as int / 1_000_000
}

impl LtcDecoder {
    #[verifier::type_invariant]
    spec fn keeps_its_state(self) -> bool {
        self.state.wf()
    }

    pub fn new(sample_rate: u32) -> (decoder: LtcDecoder)
        ensures
            decoder@ == fresh(sample_rate),
    {
        LtcDecoder {
            state: Demod {
                sample_rate,
                dc: 0,
                envelope: 0,
                polarity: false,
                since_transition: 0,
                bit_period: sample_rate as u128 * TICKS / 2160,
                pending_half: None,
                reg: 0,
                bits_since_sync: 0,
                synced: false,
                samples_seen: 0,
            },
        }
    }

    /// Current peak envelope of the input, for level metering, in a sample's unit.
    pub fn level(&self) -> (level: i64)
        ensures
            level == level_of(self@),
            level == self@.envelope as int / 1_000_000,
    {
        proof {
            use_type_invariant(&*self);
        }
        (self.state.envelope / FINE) as i64
    }

    /// Feeds mono samples in, appending any completed frames to `out`.
    pub fn process(&mut self, samples: &[i32], out: &mut Vec<DecodedFrame>)
        ensures
            final(self)@ == state_after(old(self)@, samples@),
            final(out)@ == old(out)@ + frames_in(old(self)@, samples@),
    {
        proof {
            use_type_invariant(&*self);
        }
        let mut state = self.state;
        let mut i: usize = 0;
        assert(samples@.take(0) =~= Seq::empty());
        assert(out@ =~= old(out)@ + frames_in(old(self)@, samples@.take(0)));
        while i < samples.len()
            invariant
                i <= samples.len(),
                state.wf(),
                state == state_after(old(self)@, samples@.take(i as int)),
                out@ == old(out)@ + frames_in(old(self)@, samples@.take(i as int)),
            decreases samples.len() - i,
        {
            assert(samples@.take(i + 1).drop_last() =~= samples@.take(i as int));
            let (next, done) = state.push_sample(samples[i]);
            let ghost before = frames_in(old(self)@, samples@.take(i as int));
            if let Some(frame) = done {
                out.push(frame);
                assert(out@ =~= old(out)@ + before.push(frame));
            }
            state = next;
            i = i + 1;
        }
        assert(samples@.take(i as int) =~= samples@);
        self.state = state;
    }
}

/// Splitting the audio into chunks changes nothing: neither the state it leaves nor the
/// frames that come out.
pub proof fn chunks_decode_like_the_whole(s: Demod, first: Seq<i32>, second: Seq<i32>)
    ensures
        state_after(s, first + second) == state_after(state_after(s, first), second),
        frames_in(s, first + second) == frames_in(s, first) + frames_in(
            state_after(s, first),
            second,
        ),
    decreases second.len(),
{
    if second.len() == 0 {
        assert(first + second =~= first);
        assert(frames_in(s, first) + frames_in(state_after(s, first), second) =~= frames_in(
            s,
            first,
        ));
    } else {
        chunks_decode_like_the_whole(s, first, second.drop_last());
        assert((first + second).drop_last() =~= first + second.drop_last());
        assert((first + second).last() == second.last());
        let before = frames_in(state_after(s, first), second.drop_last());
        match after_sample(
            state_after(state_after(s, first), second.drop_last()),
            second.last(),
        ).1 {
            Some(frame) => {
                assert((frames_in(s, first) + before).push(frame) =~= frames_in(s, first)
                    + before.push(frame));
            },
            None => {},
        }
    }
}

/// A decoder on the other end of a crossed cable.
pub open spec fn mirrored(s: Demod) -> Demod {
    Demod { dc: (-s.dc) as i128, polarity: !s.polarity, ..s }
}

/// The polarity of the connection makes no difference: from a mirrored state the inverted
/// sample leads to the mirrored state, and completes the same frame.
pub proof fn an_inverted_signal_decodes_the_same(s: Demod, x: i32, y: i32)
    requires
        s.wf(),
        y == -x,
    ensures
        after_sample(mirrored(s), y).0 == mirrored(after_sample(s, x).0),
        after_sample(mirrored(s), y).1 == after_sample(s, x).1,
{
    let m = mirrored(s);
    let d = (x * 1_000_000 - s.dc) * 26;
    assert((y * 1_000_000 - m.dc) * 26 == -d);
    assert(num::truncated(-d, 10_000) == -num::truncated(d, 10_000));
    assert(dc_after(m, y) == -dc_after(s, x));
    assert(ac_after(m, y) == -ac_after(s, x));
    assert(envelope_after(m, y) == envelope_after(s, x));
    assert(-0x8000_0000 * FINE <= dc_after(s, x) <= 0x8000_0000 * FINE);
    let t = Demod {
        samples_seen: one_more(s.samples_seen),
        since_transition: one_more(s.since_transition),
        dc: dc_after(s, x) as i128,
        envelope: envelope_after(s, x) as i128,
        ..s
    };
    let u = Demod { polarity: !s.polarity, since_transition: 0, ..t };
    assert(mirrored(unlocked(t)) == unlocked(mirrored(t)));
    assert(mirrored(u).polarity == s.polarity);
    lemma_transition_mirrored(u, t.since_transition);
}

proof fn lemma_bit_mirrored(s: Demod, one: bool)
    ensures
        after_bit(mirrored(s), one).0 == mirrored(after_bit(s, one).0),
        after_bit(mirrored(s), one).1 == after_bit(s, one).1,
{
}

proof fn lemma_transition_mirrored(s: Demod, interval: u64)
    ensures
        after_transition(mirrored(s), interval).0 == mirrored(after_transition(s, interval).0),
        after_transition(mirrored(s), interval).1 == after_transition(s, interval).1,
{
    let zero = Demod {
        bit_period: adapted(s.bit_period as nat, interval as nat) as u128,
        pending_half: None,
        ..s
    };
    lemma_bit_mirrored(zero, false);
    if let Some(first) = s.pending_half {
        let one = Demod {
            bit_period: adapted(s.bit_period as nat, (first + interval) as nat) as u128,
            pending_half: None,
            ..s
        };
        lemma_bit_mirrored(one, true);
    }
}

/// Bit `k` of a small number.
pub open spec fn bit_of(v: int, k: int) -> bool {
    if k == 0 {
        v % 2 == 1
    } else if k == 1 {
        v / 2 % 2 == 1
    } else if k == 2 {
        v / 4 % 2 == 1
    } else {
        v / 8 % 2 == 1
    }
}

/// Bit `i` of a frame as LTC lays it out: eight groups of four bits of time and four of
/// user data, and the sync word behind them.
pub open spec fn frame_bit(f: LtcFrame, i: int) -> bool {
    let group = i / 8;
    let k = i % 8;
    if i >= 64 {
        i != 64 && i != 65 && i != 78
    } else if k >= 4 {
        bit_of(f.user_bits[group] as int, k - 4)
    } else if group == 0 {
        bit_of(f.frames as int % 10, k)
    } else if group == 1 {
        if k == 2 {
            f.drop_frame
        } else if k == 3 {
            f.color_frame
        } else {
            bit_of(f.frames as int / 10, k)
        }
    } else if group == 2 {
        bit_of(f.seconds as int % 10, k)
    } else if group == 3 {
        k < 3 && bit_of(f.seconds as int / 10, k)
    } else if group == 4 {
        bit_of(f.minutes as int % 10, k)
    } else if group == 5 {
        k < 3 && bit_of(f.minutes as int / 10, k)
    } else if group == 6 {
        bit_of(f.hours as int % 10, k)
    } else {
        k < 2 && bit_of(f.hours as int / 10, k)
    }
}

/// The 80 bits of a frame in transmission order.
pub open spec fn frame_bits(f: LtcFrame) -> Seq<bool> {
    Seq::new(80, |i: int| frame_bit(f, i))
}

proof fn lemma_number(bits: Seq<bool>, start: int, n: nat, v: int)
    requires
        n == 2 && 0 <= v <= 3 || n == 3 && 0 <= v <= 7 || n == 4 && 0 <= v <= 15,
        forall|k: int| 0 <= k < n ==> bits[start + k] == #[trigger] bit_of(v, k),
    ensures
        number(bits, start, n) == v,
{
    reveal_with_fuel(number, 5);
    assert(bit_of(v, 0) == bits[start + 0]);
    assert(bit_of(v, 1) == bits[start + 1]);
    if n >= 3 {
        assert(bit_of(v, 2) == bits[start + 2]);
    }
    if n >= 4 {
        assert(bit_of(v, 3) == bits[start + 3]);
    }
}

/// A frame laid out in bits reads back as itself.
pub proof fn a_frame_reads_back(f: LtcFrame)
    requires
        f.in_range(),
    ensures
        frame_of(frame_bits(f)) == Some(f),
{
    let bits = frame_bits(f);
    lemma_number(bits, 0, 4, f.frames as int % 10);
    lemma_number(bits, 8, 2, f.frames as int / 10);
    lemma_number(bits, 16, 4, f.seconds as int % 10);
    lemma_number(bits, 24, 3, f.seconds as int / 10);
    lemma_number(bits, 32, 4, f.minutes as int % 10);
    lemma_number(bits, 40, 3, f.minutes as int / 10);
    lemma_number(bits, 48, 4, f.hours as int % 10);
    lemma_number(bits, 56, 2, f.hours as int / 10);
    assert(f.user_bits[0] <= 15 && f.user_bits[1] <= 15 && f.user_bits[2] <= 15 && f.user_bits[3]
        <= 15 && f.user_bits[4] <= 15 && f.user_bits[5] <= 15 && f.user_bits[6] <= 15
        && f.user_bits[7] <= 15);
    lemma_number(bits, 4, 4, f.user_bits[0] as int);
    lemma_number(bits, 12, 4, f.user_bits[1] as int);
    lemma_number(bits, 20, 4, f.user_bits[2] as int);
    lemma_number(bits, 28, 4, f.user_bits[3] as int);
    lemma_number(bits, 36, 4, f.user_bits[4] as int);
    lemma_number(bits, 44, 4, f.user_bits[5] as int);
    lemma_number(bits, 52, 4, f.user_bits[6] as int);
    lemma_number(bits, 60, 4, f.user_bits[7] as int);
    assert(user_groups(bits)@ =~= f.user_bits@);
    assert(user_groups(bits) == f.user_bits);
}

/// Shifting a bit in drops the oldest of the 80 and appends the new one.
pub proof fn a_shift_moves_every_bit_along(reg: u128, one: bool)
    ensures
        register_bits(shifted(reg, one)) == register_bits(reg).drop_first().push(one),
{
    let next = shifted(reg, one);
    let low: u128 = if one {
        1
    } else {
        0
    };
    assert forall|i: int| 0 <= i < 79 implies register_bit(next, i) == register_bit(reg, i + 1) by {
        let k = (79 - i) as u128;
        assert((((reg << 1) | low) >> k) & 1 == (reg >> ((k - 1) as u128)) & 1) by (bit_vector)
            requires
                1 <= k <= 79,
                low == 0 || low == 1,
        ;
        assert((79 - (i + 1)) as u128 == (k - 1) as u128);
    }
    assert((((reg << 1) | low) >> 0u128) & 1 == low) by (bit_vector)
        requires
            low == 0 || low == 1,
    ;
    assert(register_bits(next) =~= register_bits(reg).drop_first().push(one));
}

/// What a run of bits makes of a decoder.
pub open spec fn after_bits(s: Demod, bits: Seq<bool>) -> Demod
    decreases bits.len(),
{
    if bits.len() == 0 {
        s
    } else {
        after_bit(after_bits(s, bits.drop_last()), bits.last()).0
    }
}

/// The frames that a run of bits completes.
pub open spec fn frames_in_bits(s: Demod, bits: Seq<bool>) -> Seq<DecodedFrame>
    decreases bits.len(),
{
    if bits.len() == 0 {
        Seq::empty()
    } else {
        let before = frames_in_bits(s, bits.drop_last());
        match after_bit(after_bits(s, bits.drop_last()), bits.last()).1 {
            Some(frame) => before.push(frame),
            None => before,
        }
    }
}

/// Short of 80 bits after a sync word, a locked decoder keeps its alignment whatever
/// the bits are, and completes nothing.
proof fn lemma_short_of_a_frame(s: Demod, bits: Seq<bool>)
    requires
        s.synced,
        s.bits_since_sync == 0,
        bits.len() < 80,
    ensures
        after_bits(s, bits) == (Demod {
            reg: after_bits(s, bits).reg,
            bits_since_sync: bits.len() as u64,
            ..s
        }),
        frames_in_bits(s, bits) == Seq::<DecodedFrame>::empty(),
        register_bits(after_bits(s, bits).reg) == register_bits(s.reg).skip(bits.len() as int)
            + bits,
    decreases bits.len(),
{
    if bits.len() == 0 {
        assert(register_bits(s.reg).skip(0) + bits =~= register_bits(s.reg));
    } else {
        let front = bits.drop_last();
        lemma_short_of_a_frame(s, front);
        let t = after_bits(s, front);
        a_shift_moves_every_bit_along(t.reg, bits.last());
        assert((register_bits(s.reg).skip(front.len() as int) + front).drop_first().push(
            bits.last(),
        ) =~= register_bits(s.reg).skip(bits.len() as int) + bits);
    }
}

proof fn lemma_sync_bits(reg: u128, bits: Seq<bool>)
    requires
        bits == register_bits(reg),
        forall|i: int| 64 <= i < 80 ==> #[trigger] bits[i] == (i != 64 && i != 65 && i != 78),
    ensures
        reg & 0xffff == SYNC_WORD,
{
    assert(!bits[64] && !bits[65] && bits[66] && bits[67] && bits[68] && bits[69] && bits[70]
        && bits[71] && bits[72] && bits[73] && bits[74] && bits[75] && bits[76] && bits[77]
        && !bits[78] && bits[79]);
    assert(reg & 0xffff == 0x3FFD) by (bit_vector)
        requires
            (reg >> 15u128) & 1 != 1,
            (reg >> 14u128) & 1 != 1,
            (reg >> 13u128) & 1 == 1,
            (reg >> 12u128) & 1 == 1,
            (reg >> 11u128) & 1 == 1,
            (reg >> 10u128) & 1 == 1,
            (reg >> 9u128) & 1 == 1,
            (reg >> 8u128) & 1 == 1,
            (reg >> 7u128) & 1 == 1,
            (reg >> 6u128) & 1 == 1,
            (reg >> 5u128) & 1 == 1,
            (reg >> 4u128) & 1 == 1,
            (reg >> 3u128) & 1 == 1,
            (reg >> 2u128) & 1 == 1,
            (reg >> 1u128) & 1 != 1,
            (reg >> 0u128) & 1 == 1,
    ;
}

/// A locked decoder reads every frame: the 80 bits of one, behind a sync word, complete
/// that frame and no other, and leave the decoder locked behind the next sync word.
pub proof fn a_locked_decoder_reads_every_frame(s: Demod, f: LtcFrame)
    requires
        s.synced,
        s.bits_since_sync == 0,
        f.in_range(),
    ensures
        after_bits(s, frame_bits(f)).synced,
        after_bits(s, frame_bits(f)).bits_since_sync == 0,
        after_bits(s, frame_bits(f)) == (Demod { reg: after_bits(s, frame_bits(f)).reg, ..s }),
        frames_in_bits(s, frame_bits(f)) == seq![
            DecodedFrame {
                frame: f,
                end_sample: s.samples_seen,
                measured_fps: capped(implied_fps(s)),
            },
        ],
{
    let bits = frame_bits(f);
    let front = bits.drop_last();
    lemma_short_of_a_frame(s, front);
    let t = after_bits(s, front);
    let reg = shifted(t.reg, bits.last());
    a_shift_moves_every_bit_along(t.reg, bits.last());
    assert((register_bits(s.reg).skip(79) + front).drop_first().push(bits.last()) =~= bits);
    assert(register_bits(reg) == bits);
    lemma_sync_bits(reg, bits);
    a_frame_reads_back(f);
    assert(frames_in_bits(s, bits) =~= seq![
        DecodedFrame {
            frame: f,
            end_sample: s.samples_seen,
            measured_fps: capped(implied_fps(s)),
        },
    ]);
}

/// The first sync word gives the alignment and no frame: whatever an unlocked decoder
/// holds in front of it, nothing comes out.
pub proof fn the_first_sync_word_gives_no_frame(s: Demod, one: bool)
    requires
        !s.synced,
    ensures
        after_bit(s, one).1 is None,
        after_bit(s, one).0.synced <==> shifted(s.reg, one) & 0xffff == SYNC_WORD,
{
}

/// Silence loses the lock and completes nothing.
pub proof fn silence_loses_the_lock(s: Demod, x: i32)
    requires
        envelope_after(s, x) < SILENCE_FLOOR,
    ensures
        !after_sample(s, x).0.synced,
        after_sample(s, x).1 is None,
{
}

/// The nominal rate is the nearest one: it is 24, 25 or 30, with 29.97 in the place of 30 if
/// and only if the frame says drop-frame, and none of the three is closer to the measured rate,
/// nor as close and slower.
pub proof fn the_nominal_rate_is_the_nearest(measured: int, drop_frame: bool)
    ensures
        ({
            let rate = snapped(measured, drop_frame);
            let whole = if rate == 2997 {
                3000
            } else {
                rate
            };
            let off = |hundredths: int|
                {
                    let gap = 10_000 * hundredths - measured;
                    if gap < 0 {
                        -gap
                    } else {
                        gap
                    }
                };
            &&& whole == 2400 || whole == 2500 || whole == 3000
            &&& rate == 2997 <==> drop_frame && whole == 3000
            &&& off(whole) <= off(2400) && off(whole) <= off(2500) && off(whole) <= off(3000)
            &&& forall|slower: int|
                (slower == 2400 || slower == 2500) && slower < whole ==> off(whole) < #[trigger] off(
                    slower,
                )
        }),
{
}

/// A measured rate within half a frame a second of 24 or 25, or within two of 30, is taken for
/// it, so a rate that is a thousandth off, as the rates of colour television are, still is.
pub proof fn a_rate_close_by_is_recognised(measured: int, drop_frame: bool)
    ensures
        23_500_000 <= measured <= 24_500_000 ==> snapped(measured, drop_frame) == 2400,
        24_500_000 < measured <= 25_500_000 ==> snapped(measured, drop_frame) == 2500,
        28_000_000 <= measured <= 32_000_000 ==> snapped(measured, drop_frame) == (
        if drop_frame {
            2997int
        } else {
            3000
        }),
{
}

} // verus!
