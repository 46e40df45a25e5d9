//! What a reader finds in a recording.

use vstd::prelude::*;

use crate::text;
use crate::timecode;
use crate::timecode::Timecode;
use crate::wav;
use crate::wav::{Bwf, Ending, Spec, Stamp};

verus! {

/// The number that two bytes say, the low one first.
pub open spec fn from16(bytes: Seq<u8>, at: int) -> int {
    bytes[at] + 256 * bytes[at + 1]
}

/// The number that four bytes say, the lowest first.
pub open spec fn word_at(bytes: Seq<u8>, at: int) -> int {
    from16(bytes, at) + 65_536 * from16(bytes, at + 2)
}

proof fn lemma_word(v: nat)
    requires
        v < 0x1_0000_0000,
    ensures
        wav::le32(v).len() == 4,
        word_at(wav::le32(v), 0) == v,
{
    reveal(wav::le32);
    let a = v / 256;
    let b = a / 256;
    let c = b / 256;
    assert(v == 256 * a + v % 256);
    assert(a == 256 * b + a % 256);
    assert(b == 256 * c + b % 256);
    assert(c < 256);
    assert(v / 65_536 == b);
    assert(v / 16_777_216 == c);
}

/// A word stands in a whole where it stands in a part of it.
proof fn lemma_field(whole: Seq<u8>, at: int, part: Seq<u8>, from: int, word: Seq<u8>)
    requires
        0 <= from <= part.len() - 4,
        word.len() == 4,
        part.subrange(from, from + 4) =~= word,
        forall|i: int| from <= i < from + 4 ==> whole[i + (at - from)] == #[trigger] part[i],
    ensures
        word_at(whole, at) == word_at(word, 0),
{
    assert(part.subrange(from, from + 4)[0] == word[0] && part.subrange(from, from + 4)[1]
        == word[1] && part.subrange(from, from + 4)[2] == word[2] && part.subrange(from, from
        + 4)[3] == word[3]);
    assert(part[from] == whole[at] && part[from + 1] == whole[at + 1] && part[from + 2] == whole[at
        + 2] && part[from + 3] == whole[at + 3]);
}

/// The format of a file reads back from its header, each field where a reader looks for it:
/// plain PCM, so many channels, so many frames a second, that many bytes a second and a frame,
/// and 24 bits a sample.
pub proof fn the_format_reads_back(spec: Spec, stamp: Stamp)
    requires
        spec.wf(),
    ensures
        ({
            let header = wav::header_bytes(spec, stamp);
            &&& header.len() >= 36
            &&& header.subrange(0, 4) == seq![0x52u8, 0x49, 0x46, 0x46]
            &&& header.subrange(8, 16) == seq![0x57u8, 0x41, 0x56, 0x45, 0x66, 0x6d, 0x74, 0x20]
            &&& word_at(header, 16) == 16
            &&& from16(header, 20) == 1
            &&& from16(header, 22) == spec.channels
            &&& word_at(header, 24) == spec.sample_rate
            &&& word_at(header, 28) == spec.sample_rate * from16(header, 32)
            &&& 8 * from16(header, 32) == from16(header, 22) * from16(header, 34)
            &&& from16(header, 34) == 24
        }),
{
    reveal(wav::riff_part);
    reveal(wav::fmt_chunk);
    lemma_word(0);
    lemma_word(16);
    lemma_word(spec.sample_rate as nat);
    let bytes = (spec.sample_rate * (spec.channels * 3)) as nat;
    assert(spec.sample_rate * (spec.channels * 3) >= 0) by (nonlinear_arith)
        requires
            spec.sample_rate >= 0,
            spec.channels >= 0,
    ;
    lemma_word(bytes);
    let header = wav::header_bytes(spec, stamp);
    let riff = wav::riff_part();
    let fmt = wav::fmt_chunk(spec);
    assert(riff.len() == 12 && fmt.len() == 24);
    assert(forall|i: int| 0 <= i < 12 ==> header[i] == riff[i]);
    assert(forall|i: int| 12 <= i < 36 ==> header[i] == fmt[i - 12]);
    assert(header.subrange(0, 4) =~= seq![0x52u8, 0x49, 0x46, 0x46]);
    assert(header.subrange(8, 16) =~= seq![0x57u8, 0x41, 0x56, 0x45, 0x66, 0x6d, 0x74, 0x20]);
    lemma_field(header, 16, fmt, 4, wav::le32(16));
    lemma_field(header, 24, fmt, 12, wav::le32(spec.sample_rate as nat));
    lemma_field(header, 28, fmt, 16, wav::le32(bytes));
    assert(from16(header, 32) == spec.channels * 3) by {
        assert(header[32] == wav::le16((spec.channels * 3) as nat)[0]);
        assert(header[33] == wav::le16((spec.channels * 3) as nat)[1]);
    }
    assert(from16(header, 20) == 1) by {
        assert(header[20] == wav::le16(1)[0]);
        assert(header[21] == wav::le16(1)[1]);
    }
    assert(from16(header, 22) == spec.channels) by {
        assert(header[22] == wav::le16(spec.channels as nat)[0]);
        assert(header[23] == wav::le16(spec.channels as nat)[1]);
    }
    assert(from16(header, 34) == 24) by {
        assert(header[34] == wav::le16(24)[0]);
        assert(header[35] == wav::le16(24)[1]);
    }
    let wide = from16(header, 34);
    assert(spec.channels * wide == 24 * spec.channels) by (nonlinear_arith)
        requires
            wide == 24,
    ;
}

/// The sample that three bytes say, the lowest first, in two's complement.
pub open spec fn sample_at(bytes: Seq<u8>, at: int) -> int {
    let u = bytes[at] + 256 * bytes[at + 1] + 65_536 * bytes[at + 2];
    if u >= 8_388_608 {
        u - 16_777_216
    } else {
        u
    }
}

/// Every sample reads back from its place: three bytes each, in order, a sample within full
/// scale as it came and one past it as the nearest there is.
pub proof fn every_sample_reads_back(samples: Seq<i64>, k: int)
    requires
        0 <= k < samples.len(),
    ensures
        wav::pcm_bytes(samples).len() == 3 * samples.len(),
        ({
            let read = sample_at(wav::pcm_bytes(samples), 3 * k);
            &&& -8_388_608 <= read <= 8_388_607
            &&& -8_388_608 <= samples[k] <= 8_388_607 ==> read == samples[k]
            &&& samples[k] > 8_388_607 ==> read == 8_388_607
            &&& samples[k] < -8_388_608 ==> read == -8_388_608
        }),
    decreases samples.len(),
{
    let front = samples.drop_last();
    lemma_pcm_len(front);
    let bytes = wav::pcm_bytes(samples);
    if k == samples.len() - 1 {
        let value = wav::stored(samples[k]);
        let b = wav::pcm(value);
        assert(bytes[3 * k] == b[0] && bytes[3 * k + 1] == b[1] && bytes[3 * k + 2] == b[2]);
        wav::a_stored_sample_reads_back(value);
    } else {
        every_sample_reads_back(front, k);
        let before = wav::pcm_bytes(front);
        assert(bytes[3 * k] == before[3 * k] && bytes[3 * k + 1] == before[3 * k + 1] && bytes[3
            * k + 2] == before[3 * k + 2]);
        assert(front[k] == samples[k]);
    }
}

proof fn lemma_pcm_len(samples: Seq<i64>)
    ensures
        wav::pcm_bytes(samples).len() == 3 * samples.len(),
    decreases samples.len(),
{
    if samples.len() > 0 {
        lemma_pcm_len(samples.drop_last());
    }
}

/// Samples past full scale are counted, on either side, and no others: full scale itself is
/// not past it. The count of two runs is the sum of theirs.
pub proof fn samples_past_full_scale_are_counted(a: Seq<i64>, b: Seq<i64>)
    ensures
        wav::clip_count(a + b) == wav::clip_count(a) + wav::clip_count(b),
        (forall|i: int| 0 <= i < a.len() ==> -8_388_608 <= #[trigger] a[i] <= 8_388_608)
            <==> wav::clip_count(a) == 0,
        (forall|i: int|
            0 <= i < a.len() ==> #[trigger] a[i] > 8_388_608 || a[i] < -8_388_608)
            <==> wav::clip_count(a) == a.len(),
        wav::clip_count(a) <= a.len(),
    decreases a.len(), b.len(),
{
    if b.len() > 0 {
        samples_past_full_scale_are_counted(a, b.drop_last());
        assert((a + b).drop_last() =~= a + b.drop_last());
    } else {
        assert(a + b =~= a);
    }
    if a.len() > 0 {
        let front = a.drop_last();
        samples_past_full_scale_are_counted(front, Seq::empty());
        let quiet = forall|i: int| 0 <= i < a.len() ==> -8_388_608 <= #[trigger] a[i] <= 8_388_608;
        let loud = forall|i: int|
            0 <= i < a.len() ==> #[trigger] a[i] > 8_388_608 || a[i] < -8_388_608;
        assert(forall|i: int| 0 <= i < front.len() ==> #[trigger] front[i] == a[i]);
        if wav::clip_count(a) == 0 {
            assert forall|i: int| 0 <= i < a.len() implies -8_388_608 <= #[trigger] a[i]
                <= 8_388_608 by {
                if i < front.len() {
                    assert(front[i] == a[i]);
                }
            }
        }
        if wav::clip_count(a) == a.len() {
            assert forall|i: int| 0 <= i < a.len() implies #[trigger] a[i] > 8_388_608 || a[i]
                < -8_388_608 by {
                if i < front.len() {
                    assert(front[i] == a[i]);
                }
            }
        }
        assert(a[a.len() - 1] == a.last());
    }
}

/// A frame is a sample of every channel: as many whole ones are counted as there are.
pub proof fn a_frame_is_a_sample_of_every_channel(samples: nat, channels: u16)
    requires
        channels > 0,
    ensures
        wav::frame_count(samples, channels) * channels <= samples,
        samples < (wav::frame_count(samples, channels) + 1) * channels,
{
    let c = channels as int;
    let q = samples as int / c;
    vstd::arithmetic::div_mod::lemma_fundamental_div_mod(samples as int, c);
    vstd::arithmetic::div_mod::lemma_mod_bound(samples as int, c);
    assert(q * c <= samples && samples < (q + 1) * c) by (nonlinear_arith)
        requires
            samples as int == c * q + samples as int % c,
            0 <= samples as int % c < c,
    ;
}

/// A text field holds as much of its text as there is room for, a question mark for whatever
/// is not a printable character, and zeros behind.
pub proof fn a_field_holds_its_text(bytes: Seq<u8>, width: nat, i: int)
    requires
        0 <= i < width,
    ensures
        ({
            let field = wav::ascii_field(bytes, width);
            &&& field.len() == width
            &&& i >= bytes.len() ==> field[i] == 0
            &&& i < bytes.len() && 32 <= bytes[i] <= 126 ==> field[i] == bytes[i]
            &&& i < bytes.len() && !(32 <= bytes[i] <= 126) ==> field[i] == 63
        }),
{
}

/// The time of day in a stamp is its hours, minutes and seconds, in two digits each, with
/// colons between.
pub proof fn the_time_of_day_reads_back(tc: Timecode)
    requires
        tc.hours < 100,
        tc.minutes < 100,
        tc.seconds < 100,
    ensures
        ({
            let s = wav::time_text(tc);
            &&& s.len() == 8
            &&& s[2] == ':'
            &&& s[5] == ':'
            &&& text::laws::two_digits(s.subrange(0, 2), tc.hours as int)
            &&& text::laws::two_digits(s.subrange(3, 5), tc.minutes as int)
            &&& text::laws::two_digits(s.subrange(6, 8), tc.seconds as int)
        }),
{
    reveal_strlit(":");
    text::laws::two_places_read_back(tc.hours as nat);
    text::laws::two_places_read_back(tc.minutes as nat);
    text::laws::two_places_read_back(tc.seconds as nat);
    let s = wav::time_text(tc);
    assert(s.subrange(0, 2) =~= text::zero_padded(tc.hours as nat, 2));
    assert(s.subrange(3, 5) =~= text::zero_padded(tc.minutes as nat, 2));
    assert(s.subrange(6, 8) =~= text::zero_padded(tc.seconds as nat, 2));
}

/// Every element of the XML stands between its own tags: the rate as a fraction of the rate
/// that frames go by, whether its numbering drops frames, the sample rate for the file and
/// for the stamp, and the two halves of the sample count, which add up to it.
#[verifier::rlimit(40)]
pub proof fn the_elements_of_the_xml_read_back(stamp: Stamp, spec: Spec)
    ensures
        ({
            let body = wav::xml_body(stamp, spec);
            let ratio = timecode::exact_rate(stamp.timecode.rate);
            let flag = if stamp.timecode.rate.drop_frame {
                "DF"@
            } else {
                "NDF"@
            };
            &&& text::laws::has_text(body, "<?xml version=\"1.0\" encoding=\"UTF-8\"?>\n<BWFXML>\n <IXML_VERSION>1.5</IXML_VERSION>\n <PROJECT>"@, wav::escaped(stamp.originator@), "</PROJECT>\n <NOTE>"@)
            &&& text::laws::has_text(body, "</PROJECT>\n <NOTE>"@, wav::escaped(stamp.note@), "</NOTE>\n <SPEED>\n  <TIMECODE_RATE>"@)
            &&& text::laws::has_number(body, "</NOTE>\n <SPEED>\n  <TIMECODE_RATE>"@, (ratio.num as nat) as int, "/"@)
            &&& text::laws::has_number(body, "/"@, (ratio.den as nat) as int, "</TIMECODE_RATE>\n  <TIMECODE_FLAG>"@)
            &&& text::laws::has_text(body, "</TIMECODE_RATE>\n  <TIMECODE_FLAG>"@, flag, "</TIMECODE_FLAG>\n  <FILE_SAMPLE_RATE>"@)
            &&& text::laws::has_number(body, "</TIMECODE_FLAG>\n  <FILE_SAMPLE_RATE>"@, (spec.sample_rate as nat) as int, "</FILE_SAMPLE_RATE>\n  <TIMESTAMP_SAMPLE_RATE>"@)
            &&& text::laws::has_number(body, "</FILE_SAMPLE_RATE>\n  <TIMESTAMP_SAMPLE_RATE>"@, (spec.sample_rate as nat) as int, "</TIMESTAMP_SAMPLE_RATE>\n  <TIMESTAMP_SAMPLES_SINCE_MIDNIGHT_LO>"@)
            &&& text::laws::has_number(body, "</TIMESTAMP_SAMPLE_RATE>\n  <TIMESTAMP_SAMPLES_SINCE_MIDNIGHT_LO>"@, (stamp.samples_since_midnight as nat % 0x1_0000_0000) as int, "</TIMESTAMP_SAMPLES_SINCE_MIDNIGHT_LO>\n  <TIMESTAMP_SAMPLES_SINCE_MIDNIGHT_HI>"@)
            &&& text::laws::has_number(body, "</TIMESTAMP_SAMPLES_SINCE_MIDNIGHT_LO>\n  <TIMESTAMP_SAMPLES_SINCE_MIDNIGHT_HI>"@, (stamp.samples_since_midnight as nat / 0x1_0000_0000) as int, "</TIMESTAMP_SAMPLES_SINCE_MIDNIGHT_HI>\n </SPEED>\n</BWFXML>\n"@)
        }),
        wav::xml_text(stamp, spec) == wav::xml_body(stamp, spec) || wav::xml_text(stamp, spec)
            == wav::xml_body(stamp, spec).push('\n'),
{
    let body = wav::xml_body(stamp, spec);
    let ratio = timecode::exact_rate(stamp.timecode.rate);
    let flag = if stamp.timecode.rate.drop_frame {
        "DF"@
    } else {
        "NDF"@
    };
    let p0 = Seq::<Seq<char>>::empty();
    let p1 = p0.push("<?xml version=\"1.0\" encoding=\"UTF-8\"?>\n<BWFXML>\n <IXML_VERSION>1.5</IXML_VERSION>\n <PROJECT>"@);
    text::laws::lemma_joined(p0, "<?xml version=\"1.0\" encoding=\"UTF-8\"?>\n<BWFXML>\n <IXML_VERSION>1.5</IXML_VERSION>\n <PROJECT>"@);
    let p2 = p1.push(wav::escaped(stamp.originator@));
    text::laws::lemma_joined(p1, wav::escaped(stamp.originator@));
    let p3 = p2.push("</PROJECT>\n <NOTE>"@);
    text::laws::lemma_joined(p2, "</PROJECT>\n <NOTE>"@);
    let p4 = p3.push(wav::escaped(stamp.note@));
    text::laws::lemma_joined(p3, wav::escaped(stamp.note@));
    let p5 = p4.push("</NOTE>\n <SPEED>\n  <TIMECODE_RATE>"@);
    text::laws::lemma_joined(p4, "</NOTE>\n <SPEED>\n  <TIMECODE_RATE>"@);
    let p6 = p5.push(text::decimal(ratio.num as nat));
    text::laws::lemma_joined(p5, text::decimal(ratio.num as nat));
    let p7 = p6.push("/"@);
    text::laws::lemma_joined(p6, "/"@);
    let p8 = p7.push(text::decimal(ratio.den as nat));
    text::laws::lemma_joined(p7, text::decimal(ratio.den as nat));
    let p9 = p8.push("</TIMECODE_RATE>\n  <TIMECODE_FLAG>"@);
    text::laws::lemma_joined(p8, "</TIMECODE_RATE>\n  <TIMECODE_FLAG>"@);
    let p10 = p9.push(flag);
    text::laws::lemma_joined(p9, flag);
    let p11 = p10.push("</TIMECODE_FLAG>\n  <FILE_SAMPLE_RATE>"@);
    text::laws::lemma_joined(p10, "</TIMECODE_FLAG>\n  <FILE_SAMPLE_RATE>"@);
    let p12 = p11.push(text::decimal(spec.sample_rate as nat));
    text::laws::lemma_joined(p11, text::decimal(spec.sample_rate as nat));
    let p13 = p12.push("</FILE_SAMPLE_RATE>\n  <TIMESTAMP_SAMPLE_RATE>"@);
    text::laws::lemma_joined(p12, "</FILE_SAMPLE_RATE>\n  <TIMESTAMP_SAMPLE_RATE>"@);
    let p14 = p13.push(text::decimal(spec.sample_rate as nat));
    text::laws::lemma_joined(p13, text::decimal(spec.sample_rate as nat));
    let p15 = p14.push("</TIMESTAMP_SAMPLE_RATE>\n  <TIMESTAMP_SAMPLES_SINCE_MIDNIGHT_LO>"@);
    text::laws::lemma_joined(p14, "</TIMESTAMP_SAMPLE_RATE>\n  <TIMESTAMP_SAMPLES_SINCE_MIDNIGHT_LO>"@);
    let p16 = p15.push(text::decimal(stamp.samples_since_midnight as nat % 0x1_0000_0000));
    text::laws::lemma_joined(p15, text::decimal(stamp.samples_since_midnight as nat % 0x1_0000_0000));
    let p17 = p16.push("</TIMESTAMP_SAMPLES_SINCE_MIDNIGHT_LO>\n  <TIMESTAMP_SAMPLES_SINCE_MIDNIGHT_HI>"@);
    text::laws::lemma_joined(p16, "</TIMESTAMP_SAMPLES_SINCE_MIDNIGHT_LO>\n  <TIMESTAMP_SAMPLES_SINCE_MIDNIGHT_HI>"@);
    let p18 = p17.push(text::decimal(stamp.samples_since_midnight as nat / 0x1_0000_0000));
    text::laws::lemma_joined(p17, text::decimal(stamp.samples_since_midnight as nat / 0x1_0000_0000));
    let p19 = p18.push("</TIMESTAMP_SAMPLES_SINCE_MIDNIGHT_HI>\n </SPEED>\n</BWFXML>\n"@);
    text::laws::lemma_joined(p18, "</TIMESTAMP_SAMPLES_SINCE_MIDNIGHT_HI>\n </SPEED>\n</BWFXML>\n"@);
    assert(text::laws::joined(p19) == body);
    text::laws::lemma_part(p19, 1);
    text::laws::lemma_part(p19, 3);
    text::laws::lemma_number_part(p19, 5, ratio.num as nat);
    text::laws::lemma_number_part(p19, 7, ratio.den as nat);
    text::laws::lemma_part(p19, 9);
    text::laws::lemma_number_part(p19, 11, spec.sample_rate as nat);
    text::laws::lemma_number_part(p19, 13, spec.sample_rate as nat);
    text::laws::lemma_number_part(p19, 15, stamp.samples_since_midnight as nat % 0x1_0000_0000);
    text::laws::lemma_number_part(p19, 17, stamp.samples_since_midnight as nat / 0x1_0000_0000);
}

/// What a stamp leaves open is zero: the originator's reference, and everything behind the
/// version, which is one.
pub proof fn what_a_stamp_leaves_open_is_zero(stamp: Stamp, i: int)
    requires
        288 <= i < 320 || 348 <= i < 602,
    ensures
        wav::bext_bytes(stamp).len() == 602,
        wav::bext_bytes(stamp)[i] == 0,
        from16(wav::bext_bytes(stamp), 346) == 1,
{
    reveal(wav::bext_bytes);
    wav::the_time_reference_lies_where_a_reader_looks(stamp);
    reveal(wav::le32);
    let bytes = wav::bext_bytes(stamp);
    assert(bytes.subrange(346, 348)[0] == wav::le16(1)[0]);
    assert(bytes.subrange(346, 348)[1] == wav::le16(1)[1]);
}

/// Writing counts what it writes: the bytes that samples come to are the bytes that the file
/// grows by, and whole frames of them grow it by so many frames.
pub proof fn writing_counts_what_it_writes(bwf: Bwf, samples: Seq<i64>, frames: nat)
    requires
        bwf.room_for(samples.len()),
        samples.len() == frames * bwf.spec.channels,
        bwf.spec.channels > 0,
    ensures
        ({
            let after = wav::after_write(bwf, samples);
            &&& after.written == bwf.written + wav::pcm_bytes(samples).len()
            &&& after.frames == bwf.frames + frames
            &&& after.clipped == bwf.clipped + wav::clip_count(samples)
            &&& after.spec == bwf.spec
            &&& after.data_size_at == bwf.data_size_at
        }),
{
    lemma_pcm_len(samples);
    samples_past_full_scale_are_counted(samples, Seq::empty());
    let c = bwf.spec.channels as int;
    assert(samples.len() == c * frames) by (nonlinear_arith)
        requires
            samples.len() == frames * c,
    ;
    vstd::arithmetic::div_mod::lemma_fundamental_div_mod_converse(
        samples.len() as int,
        c,
        frames as int,
        0,
    );
    assert(frames <= samples.len()) by (nonlinear_arith)
        requires
            samples.len() == c * frames,
            c >= 1,
    ;
}

/// A finished file reads back as what was recorded: put together from its header, the bytes of
/// its samples and what its own counts say completes it, a reader finds the format, the stamp
/// and the samples in it, and its end where the sizes say it is.
pub proof fn a_finished_file_reads_back(
    bwf: Bwf,
    stamp: Stamp,
    samples: Seq<i64>,
    ending: Ending,
)
    requires
        bwf.wf(),
        wav::is_ending(bwf, ending),
        bwf.frames * bwf.spec.channels == samples.len(),
        bwf.data_size_at == wav::header_bytes(bwf.spec, stamp).len() - 4,
        bwf.written == wav::header_bytes(bwf.spec, stamp).len() + 3 * samples.len(),
        bwf.written < 0x1_0000_0000,
    ensures
        wav::reads_as(
            wav::finished(
                wav::header_bytes(bwf.spec, stamp),
                wav::pcm_bytes(samples),
                ending,
            ),
            stamp,
            bwf.spec,
            wav::pcm_bytes(samples),
        ),
{
    let data = wav::pcm_bytes(samples);
    lemma_pcm_len(samples);
    let c = bwf.spec.channels as int;
    assert(bwf.frames * (c * 3) == 3 * (bwf.frames * c)) by (nonlinear_arith);
    reveal(wav::riff_part);
    reveal(wav::le32);
    assert(wav::header_bytes(bwf.spec, stamp).len() >= 12);
    wav::the_chunks_add_up_to_the_file(bwf, stamp, data, ending);
}

} // verus!
