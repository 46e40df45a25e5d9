use shokushu::ltc::{DecodedFrame, LtcDecoder, LtcFrame};

const BITS: usize = 80;

/// Samples as the decoder takes them: full scale is 2^28.
fn scaled(samples: &[f32]) -> Vec<i32> {
    samples.iter().map(|s| (*s as f64 * 268_435_456.0).round() as i32).collect()
}

fn put(bits: &mut [u8; BITS], start: usize, n: usize, value: u8) {
    for k in 0..n {
        bits[start + k] = (value >> k) & 1;
    }
}

fn frame_bits(f: &LtcFrame) -> [u8; BITS] {
    let mut bits = [0u8; BITS];
    put(&mut bits, 0, 4, f.frames % 10);
    put(&mut bits, 8, 2, f.frames / 10);
    bits[10] = f.drop_frame as u8;
    bits[11] = f.color_frame as u8;
    put(&mut bits, 16, 4, f.seconds % 10);
    put(&mut bits, 24, 3, f.seconds / 10);
    put(&mut bits, 32, 4, f.minutes % 10);
    put(&mut bits, 40, 3, f.minutes / 10);
    put(&mut bits, 48, 4, f.hours % 10);
    put(&mut bits, 56, 2, f.hours / 10);
    for (group, nibble) in f.user_bits.iter().enumerate() {
        put(&mut bits, 4 + group * 8, 4, *nibble);
    }
    for (i, b) in [0, 0, 1, 1, 1, 1, 1, 1, 1, 1, 1, 1, 1, 1, 0, 1]
        .into_iter()
        .enumerate()
    {
        bits[64 + i] = b;
    }
    bits
}

struct Encoder {
    samples_per_half: f64,
    amplitude: f32,
    level: f32,
    target: f64,
    out: Vec<f32>,
}

impl Encoder {
    fn new(sample_rate: f64, fps: f64, amplitude: f32) -> Encoder {
        Encoder {
            samples_per_half: sample_rate / (fps * BITS as f64 * 2.0),
            amplitude,
            level: 1.0,
            target: 0.0,
            out: Vec::new(),
        }
    }

    fn half_cell(&mut self) {
        self.level = -self.level;
        self.target += self.samples_per_half;
        while (self.out.len() as f64) < self.target {
            self.out.push(self.level * self.amplitude);
        }
    }

    fn finish(&mut self) {
        self.half_cell();
    }

    fn push(&mut self, frame: &LtcFrame) {
        for bit in frame_bits(frame) {
            self.half_cell();
            if bit == 1 {
                self.half_cell();
            } else {
                self.target += self.samples_per_half;
                while (self.out.len() as f64) < self.target {
                    self.out.push(self.level * self.amplitude);
                }
            }
        }
    }
}

fn tc(hours: u8, minutes: u8, seconds: u8, frames: u8) -> LtcFrame {
    LtcFrame {
        hours,
        minutes,
        seconds,
        frames,
        drop_frame: false,
        color_frame: false,
        user_bits: [0; 8],
    }
}

fn advance(f: &mut LtcFrame, fps: u8) {
    f.frames += 1;
    if f.frames < fps {
        return;
    }
    f.frames = 0;
    f.seconds += 1;
    if f.seconds < 60 {
        return;
    }
    f.seconds = 0;
    f.minutes += 1;
    if f.minutes < 60 {
        return;
    }
    f.minutes = 0;
    f.hours = (f.hours + 1) % 24;
}

fn roundtrip(
    sample_rate: f64,
    fps: f64,
    start: LtcFrame,
    count: usize,
) -> (Vec<LtcFrame>, Vec<DecodedFrame>) {
    let mut encoder = Encoder::new(sample_rate, fps, 0.5);
    let mut sent = Vec::new();
    let mut current = start;
    for _ in 0..count {
        encoder.push(&current);
        sent.push(current);
        advance(&mut current, fps.round() as u8);
    }
    encoder.finish();

    let mut decoder = LtcDecoder::new(sample_rate as u32);
    let mut got = Vec::new();
    decoder.process(&scaled(&encoder.out), &mut got);
    (sent, got)
}

#[test]
fn decodes_a_run_of_frames_at_30fps() {
    let (sent, got) = roundtrip(48000.0, 30.0, tc(1, 2, 3, 4), 10);
    let decoded: Vec<LtcFrame> = got.iter().map(|d| d.frame).collect();
    assert_eq!(decoded, sent[1..]);
}

#[test]
fn decodes_at_25fps_and_44100hz() {
    let (sent, got) = roundtrip(44100.0, 25.0, tc(9, 59, 59, 20), 12);
    let decoded: Vec<LtcFrame> = got.iter().map(|d| d.frame).collect();
    assert_eq!(decoded, sent[1..]);
    assert_eq!(decoded[4].to_string(), "10:00:00:00");
}

#[test]
fn measures_the_frame_rate() {
    for fps in [24.0, 25.0, 30.0] {
        let (_, got) = roundtrip(48000.0, fps, tc(0, 0, 0, 0), 12);
        let last = got.last().expect("no frames decoded");
        assert!(
            (last.measured_fps as f64 / 1e6 - fps).abs() < 0.2,
            "{fps} fps measured as {}",
            last.measured_fps
        );
        assert_eq!(last.nominal_fps() as f64 / 100.0, fps);
    }
}

#[test]
fn frames_land_one_frame_period_apart() {
    let (_, got) = roundtrip(48000.0, 30.0, tc(0, 0, 0, 0), 12);
    let period = 48000.0 / 30.0;
    for pair in got.windows(2) {
        let gap = (pair[1].end_sample - pair[0].end_sample) as f64;
        assert!((gap - period).abs() < 2.0, "frame gap was {gap} samples");
    }
}

#[test]
fn carries_drop_frame_and_user_bits() {
    let mut start = tc(2, 0, 0, 0);
    start.drop_frame = true;
    start.user_bits = [1, 2, 3, 4, 0xa, 0xb, 0xc, 0xd];
    let (_, got) = roundtrip(48000.0, 30.0, start, 4);
    let frame = got[0].frame;
    assert!(frame.drop_frame);
    assert_eq!(frame.user_bits_hex(), "1234abcd");
    assert_eq!(frame.to_string(), "02:00:00;01");
    assert_eq!(got[0].nominal_fps() as f64 / 100.0, 29.97);
}

#[test]
fn survives_an_inverted_signal() {
    let mut encoder = Encoder::new(48000.0, 30.0, 0.5);
    let mut current = tc(4, 5, 6, 7);
    for _ in 0..6 {
        encoder.push(&current);
        advance(&mut current, 30);
    }
    encoder.finish();
    let inverted: Vec<f32> = encoder.out.iter().map(|s| -s).collect();

    let mut decoder = LtcDecoder::new(48000);
    let mut got = Vec::new();
    decoder.process(&scaled(&inverted), &mut got);
    assert_eq!(got[0].frame.to_string(), "04:05:06:08");
}

#[test]
fn recovers_after_a_dropout() {
    let mut encoder = Encoder::new(48000.0, 30.0, 0.5);
    let mut current = tc(0, 10, 0, 0);
    for _ in 0..4 {
        encoder.push(&current);
        advance(&mut current, 30);
    }
    encoder.finish();
    let mut audio = encoder.out.clone();
    audio.extend(std::iter::repeat_n(0.0, 24000));

    let mut encoder = Encoder::new(48000.0, 30.0, 0.5);
    let mut current = tc(0, 20, 0, 0);
    for _ in 0..4 {
        encoder.push(&current);
        advance(&mut current, 30);
    }
    encoder.finish();
    audio.extend(encoder.out);

    let mut decoder = LtcDecoder::new(48000);
    let mut got = Vec::new();
    decoder.process(&scaled(&audio), &mut got);
    let decoded: Vec<String> = got.iter().map(|d| d.frame.to_string()).collect();
    assert_eq!(
        decoded,
        ["00:10:00:01", "00:10:00:02", "00:10:00:03", "00:20:00:01", "00:20:00:02", "00:20:00:03"]
    );
}

#[test]
fn ignores_audio_that_is_not_ltc() {
    let mut decoder = LtcDecoder::new(48000);
    let mut got = Vec::new();

    let silence = vec![0.0f32; 48000];
    decoder.process(&scaled(&silence), &mut got);

    let tone: Vec<f32> = (0..48000)
        .map(|n| (n as f32 * 1000.0 * std::f32::consts::TAU / 48000.0).sin() * 0.5)
        .collect();
    decoder.process(&scaled(&tone), &mut got);

    let mut seed = 0x1234_5678u32;
    let noise: Vec<f32> = (0..48000)
        .map(|_| {
            seed = seed.wrapping_mul(1664525).wrapping_add(1013904223);
            (seed >> 8) as f32 / 8388608.0 - 1.0
        })
        .collect();
    decoder.process(&scaled(&noise), &mut got);

    assert!(got.is_empty(), "decoded {} phantom frames", got.len());
}

#[test]
fn splitting_the_audio_into_chunks_changes_nothing() {
    let mut encoder = Encoder::new(48000.0, 30.0, 0.5);
    let mut current = tc(7, 7, 7, 7);
    for _ in 0..8 {
        encoder.push(&current);
        advance(&mut current, 30);
    }
    encoder.finish();

    let mut whole = LtcDecoder::new(48000);
    let mut from_whole = Vec::new();
    whole.process(&scaled(&encoder.out), &mut from_whole);

    let mut chunked = LtcDecoder::new(48000);
    let mut from_chunks = Vec::new();
    for chunk in encoder.out.chunks(37) {
        chunked.process(&scaled(chunk), &mut from_chunks);
    }

    let a: Vec<LtcFrame> = from_whole.iter().map(|d| d.frame).collect();
    let b: Vec<LtcFrame> = from_chunks.iter().map(|d| d.frame).collect();
    assert_eq!(a, b);
    assert!(!a.is_empty());
}

/// What a fresh decoder makes of some frames.
fn decoded(
    sample_rate: u32,
    fps: f64,
    amplitude: f32,
    sent: &[LtcFrame],
    crossed: bool,
) -> Vec<LtcFrame> {
    let mut encoder = Encoder::new(sample_rate as f64, fps, amplitude);
    for frame in sent {
        encoder.push(frame);
    }
    encoder.finish();
    let samples: Vec<f32> =
        encoder.out.iter().map(|s| if crossed { -s } else { *s }).collect();
    let mut decoder = LtcDecoder::new(sample_rate);
    let mut got = Vec::new();
    decoder.process(&scaled(&samples), &mut got);
    got.iter().map(|d| d.frame).collect()
}

#[test]
fn every_standard_rate_decodes_whichever_way_round_the_cable_is() {
    let mut first = tc(23, 59, 59, 22);
    first.user_bits = [0xf, 0xe, 0xd, 0xc, 0xb, 0xa, 9, 8];
    let sent = [first, tc(23, 59, 59, 23), tc(0, 0, 0, 0), tc(11, 22, 33, 21)];
    for sample_rate in [24_000, 32_000, 44_100, 48_000, 96_000, 192_000] {
        for fps in [24_000.0 / 1_001.0, 24.0, 25.0, 30_000.0 / 1_001.0, 30.0] {
            for amplitude in [0.003, 0.5, 1.0] {
                for crossed in [false, true] {
                    assert_eq!(
                        decoded(sample_rate, fps, amplitude, &sent, crossed),
                        sent[1..],
                        "{sample_rate} Hz, {fps} fps, {amplitude}, {crossed}"
                    );
                }
            }
        }
    }
}

#[test]
fn a_first_frame_that_holds_the_sync_word_costs_the_next_one() {
    let mut odd = tc(0, 0, 2, 30);
    odd.drop_frame = true;
    odd.color_frame = true;
    odd.user_bits = [0xf, 0xf, 0, 0, 0, 0, 0, 0];
    let sent = [odd, tc(1, 0, 0, 0), tc(1, 0, 0, 1), tc(1, 0, 0, 2)];
    assert_eq!(decoded(48_000, 30.0, 0.5, &sent, false), sent[2..]);
    // With one of the two flags down it is a frame like any other.
    let mut plain = sent;
    plain[0].color_frame = false;
    assert_eq!(decoded(48_000, 30.0, 0.5, &plain, false), plain[1..]);
}
