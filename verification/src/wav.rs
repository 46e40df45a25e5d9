//! A recording as a Broadcast Wave file, with the timecode in it.
//!
//! BWF adds a `bext` chunk whose `TimeReference` is the position of the first sample as
//! a count of samples since midnight, and that is the field an editor actually syncs
//! on. What `bext` has no room for is the frame rate, so an iXML chunk goes alongside
//! carrying `TIMECODE_RATE`, and repeats the sample count in iXML's own fields.
//!
//! Nothing here opens a file: [`Bwf`] says which bytes go where. Everything but the two
//! size fields is known before the first sample goes down, so the header is complete
//! from the start and only those two are patched at the end.
//!
//! Samples are stored as 24-bit PCM. One arrives as an integer in which full scale is
//! 2^23, and may be past it.

pub mod laws;

use vstd::prelude::*;

use crate::text;
use crate::timecode;
use crate::timecode::{Timecode, NANO};

verus! {

/// Bytes per sample on disk.
pub const BYTES_PER_SAMPLE: u16 = 3;

/// Full scale for a 24-bit sample. Positive values reach one less than this.
pub const FULL_SCALE: i64 = 8_388_608;

/// Size of a `bext` chunk with no coding history.
pub const BEXT_SIZE: u32 = 602;

/// What the file is, as opposed to what is in it.
#[derive(Clone, Copy, Debug, PartialEq, Eq, Structural)]
pub struct Spec {
    pub sample_rate: u32,
    pub channels: u16,
}

impl Spec {
    /// Both the block and the byte rate have a field wide enough to hold them.
    pub open spec fn wf(self) -> bool {
        self.channels * 3 <= u16::MAX && self.sample_rate * (self.channels * 3) <= u32::MAX
    }

    /// Bytes in one sample of every channel.
    pub fn block_align(&self) -> (bytes: u16)
        requires
            self.channels * 3 <= u16::MAX,
        ensures
            bytes == self.channels * 3,
    {
        self.channels * BYTES_PER_SAMPLE
    }
}

/// Where the recording sits on a timeline, and who says so.
#[derive(Clone, Debug)]
pub struct Stamp {
    /// Timecode of the first sample. Its rate is what the iXML chunk reports; the fields
    /// themselves go into `bext`'s human-readable half.
    pub timecode: Timecode,
    /// The first sample's position on the timecode day, in samples at the file's rate.
    pub samples_since_midnight: u64,
    /// The date the timecode belongs to, `yyyy-mm-dd`.
    pub date: Option<String>,
    /// What wrote the file.
    pub originator: String,
    /// Anything worth saying about the recording.
    pub note: String,
}

/// `num / den` to the nearest integer, the upper one of two that are equally near.
pub open spec fn nearest(num: nat, den: nat) -> nat {
    (2 * num + den) / (2 * den)
}

/// Where a timecode sits on the day, in samples, if its rate has such a place.
pub open spec fn sample_position(tc: Timecode, sample_rate: u32) -> Option<u64> {
    if tc.rate.drop_frame {
        None
    } else {
        let samples = nearest(
            timecode::position_of(tc) * sample_rate as nat,
            timecode::counting_fps(tc.rate) * 1_000_000_000,
        );
        Some(
            if samples > u64::MAX {
                u64::MAX
            } else {
                samples as u64
            },
        )
    }
}

/// Where a timecode sits on the day, in samples at `sample_rate`.
///
/// `None` at a drop-frame rate, where the count of frames since midnight isn't a linear
/// function of the fields.
pub fn samples_since_midnight(timecode: &Timecode, sample_rate: u32) -> (samples: Option<u64>)
    ensures
        samples == sample_position(*timecode, sample_rate),
{
    match timecode.checked_frame_position() {
        None => None,
        Some(position) => {
            let second: u128 = timecode.rate.counting() as u128 * NANO;
            let secs: u128 = position / second;
            let left: u128 = position % second;
            let rate: u128 = sample_rate as u128;
            proof {
                timecode::a_position_leaves_room(*timecode);
                vstd::arithmetic::div_mod::lemma_fundamental_div_mod(
                    position as int,
                    second as int,
                );
                assert(secs * 1_000_000_000 <= position) by (nonlinear_arith)
                    requires
                        position == second * secs + left,
                        second >= 1_000_000_000,
                        left >= 0,
                        secs >= 0,
                ;
                assert(secs * rate <= 0x10_0000_0000_0000_0000_0000 * 0x1_0000_0000)
                    by (nonlinear_arith)
                    requires
                        secs * 1_000_000_000 <= 0x100_0000_0000_0000_0000_0000_0000,
                        rate <= 0x1_0000_0000,
                ;
                assert(left * rate <= 255_000_000_000 * 0x1_0000_0000) by (nonlinear_arith)
                    requires
                        left <= 255_000_000_000,
                        rate <= 0x1_0000_0000,
                ;
            }
            let samples: u128 = secs * rate + (2 * (left * rate) + second) / (2 * second);
            proof {
                let n = position * rate;
                assert(2 * n + second == (secs * rate) * (2 * second) + (2 * (left * rate)
                    + second)) by (nonlinear_arith)
                    requires
                        n == position * rate,
                        position == second * secs + left,
                ;
                vstd::arithmetic::div_mod::lemma_fundamental_div_mod(
                    2 * (left * rate) + second,
                    (2 * second) as int,
                );
                let r = (2 * (left * rate) + second) % (2 * second as int);
                let q = (2 * (left * rate) + second) / (2 * second as int);
                vstd::arithmetic::div_mod::lemma_mod_bound(
                    2 * (left * rate) + second,
                    (2 * second) as int,
                );
                assert(2 * n + second == (secs * rate + q) * (2 * second) + r)
                    by (nonlinear_arith)
                    requires
                        2 * n + second == (secs * rate) * (2 * second) + (2 * (left * rate)
                            + second),
                        2 * (left * rate) + second == (2 * second) * q + r,
                ;
                vstd::arithmetic::div_mod::lemma_fundamental_div_mod_converse(
                    2 * n + second,
                    (2 * second) as int,
                    secs * rate + q,
                    r,
                );
            }
            if samples > u64::MAX as u128 {
                Some(u64::MAX)
            } else {
                Some(samples as u64)
            }
        },
    }
}

/// A 16-bit number, the low byte first.
pub open spec fn le16(v: nat) -> Seq<u8> {
    seq![(v % 256) as u8, (v / 256 % 256) as u8]
}

/// The low 32 bits of a number, the lowest byte first.
#[verifier::opaque]
pub open spec fn le32(v: nat) -> Seq<u8> {
    seq![
        (v % 256) as u8,
        (v / 256 % 256) as u8,
        (v / 65_536 % 256) as u8,
        (v / 16_777_216 % 256) as u8,
    ]
}

/// Zero bytes.
pub open spec fn zeros(n: nat) -> Seq<u8> {
    Seq::new(n, |i: int| 0u8)
}

fn put_le16(out: &mut Vec<u8>, v: u16)
    ensures
        final(out)@ == old(out)@ + le16(v as nat),
{
    out.push((v % 256) as u8);
    out.push((v / 256 % 256) as u8);
    assert(out@ =~= old(out)@ + le16(v as nat));
}

fn put_le32(out: &mut Vec<u8>, v: u64)
    ensures
        final(out)@ == old(out)@ + le32(v as nat),
{
    out.push((v % 256) as u8);
    out.push((v / 256 % 256) as u8);
    out.push((v / 65_536 % 256) as u8);
    out.push((v / 16_777_216 % 256) as u8);
    reveal(le32);
    assert(out@ =~= old(out)@ + le32(v as nat));
}

fn put_zeros(out: &mut Vec<u8>, n: usize)
    ensures
        final(out)@ == old(out)@ + zeros(n as nat),
{
    let mut i: usize = 0;
    assert(out@ =~= old(out)@ + zeros(0));
    while i < n
        invariant
            i <= n,
            out@ == old(out)@ + zeros(i as nat),
        decreases n - i,
    {
        out.push(0);
        i = i + 1;
        assert(out@ =~= old(out)@ + zeros(i as nat));
    }
}

fn put_bytes(out: &mut Vec<u8>, bytes: &[u8])
    ensures
        final(out)@ == old(out)@ + bytes@,
{
    out.extend_from_slice(bytes);
    assert(out@ =~= old(out)@ + bytes@);
}

/// The four bytes that open a chunk.
pub open spec fn tag(a: u8, b: u8, c: u8, d: u8) -> Seq<u8> {
    seq![a, b, c, d]
}

fn put_tag(out: &mut Vec<u8>, a: u8, b: u8, c: u8, d: u8)
    ensures
        final(out)@ == old(out)@ + tag(a, b, c, d),
{
    out.push(a);
    out.push(b);
    out.push(c);
    out.push(d);
    assert(out@ =~= old(out)@ + tag(a, b, c, d));
}

/// A byte as an ASCII field can hold it: itself where it is a printable character or a
/// space, and a question mark otherwise.
pub open spec fn printable(byte: u8) -> u8 {
    if 0x20 <= byte <= 0x7e {
        byte
    } else {
        0x3f
    }
}

/// Text in a fixed-width field, truncated and null-padded.
pub open spec fn ascii_field(bytes: Seq<u8>, width: nat) -> Seq<u8> {
    Seq::new(
        width,
        |i: int|
            if i < bytes.len() {
                printable(bytes[i])
            } else {
                0u8
            },
    )
}

/// Text in UTF-8.
pub open spec fn utf8(s: Seq<char>) -> Seq<u8> {
    vstd::utf8::encode_utf8(s)
}

/// Appends text in a fixed-width field.
///
/// The fields are ASCII, and a Tentacle will happily take a name that isn't.
fn put_ascii(out: &mut Vec<u8>, text: &str, width: usize)
    ensures
        final(out)@ == old(out)@ + ascii_field(utf8(text@), width as nat),
{
    let bytes = text.as_bytes();
    let ghost field = ascii_field(utf8(text@), width as nat);
    let mut i: usize = 0;
    assert(out@ =~= old(out)@ + field.take(0));
    while i < width
        invariant
            i <= width,
            bytes@ == utf8(text@),
            field == ascii_field(utf8(text@), width as nat),
            out@ == old(out)@ + field.take(i as int),
        decreases width - i,
    {
        let byte: u8 = if i < bytes.len() {
            let byte: u8 = bytes[i];
            if 0x20 <= byte && byte <= 0x7e {
                byte
            } else {
                0x3f
            }
        } else {
            0
        };
        out.push(byte);
        i = i + 1;
        assert(out@ =~= old(out)@ + field.take(i as int));
    }
    assert(field.take(i as int) =~= field);
}

/// The hours, minutes and seconds of a timecode as they are written.
pub open spec fn time_text(tc: Timecode) -> Seq<char> {
    text::zero_padded(tc.hours as nat, 2) + ":"@ + text::zero_padded(tc.minutes as nat, 2) + ":"@
        + text::zero_padded(tc.seconds as nat, 2)
}

/// A stamp's date, empty where there is none.
pub open spec fn date_of(stamp: Stamp) -> Seq<char> {
    match stamp.date {
        Some(date) => date@,
        None => ""@,
    }
}

/// The `bext` chunk body: fixed-width fields at fixed offsets, null-padded. Description,
/// Originator, OriginatorReference (left empty, since nothing here has an identifier to
/// give), OriginationDate, OriginationTime, the two halves of TimeReference, the version,
/// and what is reserved.
#[verifier::opaque]
pub open spec fn bext_bytes(stamp: Stamp) -> Seq<u8> {
    Seq::<u8>::empty() + ascii_field(utf8(stamp.note@), 256) + ascii_field(
        utf8(stamp.originator@),
        32,
    ) + zeros(32) + ascii_field(utf8(date_of(stamp)), 10) + ascii_field(
        utf8(time_text(stamp.timecode)),
        8,
    ) + le32(stamp.samples_since_midnight as nat) + le32(
        stamp.samples_since_midnight as nat / 0x1_0000_0000,
    ) + le16(1) + zeros(254)
}

/// The `bext` chunk body.
pub fn bext(stamp: &Stamp) -> (body: Vec<u8>)
    ensures
        body@ == bext_bytes(*stamp),
        body@.len() == BEXT_SIZE,
{
    reveal(bext_bytes);
    let mut body: Vec<u8> = Vec::new();
    put_ascii(&mut body, stamp.note.as_str(), 256);
    put_ascii(&mut body, stamp.originator.as_str(), 32);
    put_zeros(&mut body, 32);
    match &stamp.date {
        Some(date) => put_ascii(&mut body, date.as_str(), 10),
        None => put_ascii(&mut body, "", 10),
    }
    let tc = &stamp.timecode;
    let mut time = String::new();
    text::put_zero_padded(&mut time, tc.hours as u128, 2);
    time.push_str(":");
    text::put_zero_padded(&mut time, tc.minutes as u128, 2);
    time.push_str(":");
    text::put_zero_padded(&mut time, tc.seconds as u128, 2);
    assert(time@ =~= time_text(*tc));
    put_ascii(&mut body, time.as_str(), 8);
    put_le32(&mut body, stamp.samples_since_midnight);
    put_le32(&mut body, stamp.samples_since_midnight / 0x1_0000_0000);
    put_le16(&mut body, 1);
    put_zeros(&mut body, 254);
    proof {
        the_time_reference_lies_where_a_reader_looks(*stamp);
    }
    body
}

/// A character as XML can hold it.
pub open spec fn escaped_char(c: char) -> Seq<char> {
    if c == '&' {
        "&amp;"@
    } else if c == '<' {
        "&lt;"@
    } else if c == '>' {
        "&gt;"@
    } else {
        seq![c]
    }
}

/// Text as XML can hold it.
pub open spec fn escaped(s: Seq<char>) -> Seq<char>
    decreases s.len(),
{
    if s.len() == 0 {
        s
    } else {
        escaped(s.drop_last()) + escaped_char(s.last())
    }
}

/// Text as XML can hold it.
pub fn escape(plain: &str) -> (out: String)
    ensures
        out@ == escaped(plain@),
{
    let chars = text::chars_of(plain);
    let mut out = String::new();
    let mut i: usize = 0;
    assert(chars@.take(0) =~= Seq::empty());
    while i < chars.len()
        invariant
            i <= chars.len(),
            out@ == escaped(chars@.take(i as int)),
        decreases chars.len() - i,
    {
        assert(chars@.take(i + 1).drop_last() =~= chars@.take(i as int));
        let ghost before = out@;
        let c: char = chars[i];
        if c == '&' {
            out.push_str("&amp;");
        } else if c == '<' {
            out.push_str("&lt;");
        } else if c == '>' {
            out.push_str("&gt;");
        } else {
            out.push(c);
            assert(out@ =~= before + seq![c]);
        }
        i = i + 1;
    }
    assert(chars@.take(i as int) =~= chars@);
    out
}

/// An entity stands at a place in a text.
pub open spec fn stands_at(entity: Seq<char>, s: Seq<char>, i: int) -> bool {
    i + entity.len() <= s.len() && s.subrange(i, i + entity.len()) == entity
}

/// The text that escaped text stands for, as a reader of XML takes it.
pub open spec fn unescaped(s: Seq<char>) -> Seq<char>
    decreases s.len(),
{
    if s.len() == 0 {
        s
    } else if stands_at("&amp;"@, s, 0) {
        proof {
            reveal_strlit("&amp;");
        }
        seq!['&'] + unescaped(s.skip(5))
    } else if stands_at("&lt;"@, s, 0) {
        proof {
            reveal_strlit("&lt;");
        }
        seq!['<'] + unescaped(s.skip(4))
    } else if stands_at("&gt;"@, s, 0) {
        proof {
            reveal_strlit("&gt;");
        }
        seq!['>'] + unescaped(s.skip(4))
    } else {
        seq![s[0]] + unescaped(s.skip(1))
    }
}

proof fn lemma_escaped_from_the_front(s: Seq<char>)
    requires
        s.len() > 0,
    ensures
        escaped(s) == escaped_char(s[0]) + escaped(s.skip(1)),
    decreases s.len(),
{
    let front = s.drop_last();
    let rest = s.skip(1);
    if s.len() == 1 {
        assert(front =~= Seq::empty());
        assert(rest =~= Seq::empty());
        assert(escaped(s) =~= escaped_char(s[0]) + escaped(rest));
    } else {
        lemma_escaped_from_the_front(front);
        assert(front.skip(1) =~= rest.drop_last());
        assert(escaped(s) =~= escaped_char(s[0]) + escaped(rest));
    }
}

/// Escaped text holds nothing that opens or closes a tag, and every `&` in it opens an
/// entity.
pub proof fn escaped_text_holds_no_markup(s: Seq<char>)
    ensures
        forall|i: int| 0 <= i < escaped(s).len() ==> #[trigger] escaped(s)[i] != '<' && escaped(s)[i]
            != '>',
        forall|i: int|
            0 <= i < escaped(s).len() && #[trigger] escaped(s)[i] == '&' ==> stands_at(
                "&amp;"@,
                escaped(s),
                i,
            ) || stands_at("&lt;"@, escaped(s), i) || stands_at("&gt;"@, escaped(s), i),
    decreases s.len(),
{
    if s.len() > 0 {
        let front = escaped(s.drop_last());
        let last = escaped_char(s.last());
        let all = escaped(s);
        escaped_text_holds_no_markup(s.drop_last());
        reveal_strlit("&amp;");
        reveal_strlit("&lt;");
        reveal_strlit("&gt;");
        assert forall|i: int| 0 <= i < all.len() implies #[trigger] all[i] != '<' && all[i] != '>'
            && (all[i] == '&' ==> stands_at("&amp;"@, all, i) || stands_at("&lt;"@, all, i)
            || stands_at("&gt;"@, all, i)) by {
            if i < front.len() {
                assert(front[i] == all[i]);
                if stands_at("&amp;"@, front, i) {
                    assert(all.subrange(i, i + 5) =~= front.subrange(i, i + 5));
                } else if stands_at("&lt;"@, front, i) {
                    assert(all.subrange(i, i + 4) =~= front.subrange(i, i + 4));
                } else if stands_at("&gt;"@, front, i) {
                    assert(all.subrange(i, i + 4) =~= front.subrange(i, i + 4));
                }
            } else {
                assert(last[i - front.len()] == all[i]);
                assert(all[i] == '&' ==> i == front.len());
                assert(all.subrange(front.len() as int, all.len() as int) =~= last);
            }
        }
    }
}

/// Escaping loses nothing: a reader of the XML has the text back as it was.
pub proof fn escaping_can_be_undone(s: Seq<char>)
    ensures
        unescaped(escaped(s)) == s,
    decreases s.len(),
{
    if s.len() == 0 {
        assert(unescaped(escaped(s)) =~= s);
    } else {
        let rest = escaped(s.skip(1));
        let first = escaped_char(s[0]);
        let all = escaped(s);
        lemma_escaped_from_the_front(s);
        escaping_can_be_undone(s.skip(1));
        reveal_strlit("&amp;");
        reveal_strlit("&lt;");
        reveal_strlit("&gt;");
        assert(all.skip(first.len() as int) =~= rest);
        assert(seq![s[0]] + s.skip(1) =~= s);
        if s[0] == '&' {
            assert(all.subrange(0, 5) =~= first);
        } else if s[0] == '<' {
            assert(all.subrange(0, 4) =~= first);
            assert(all[1] == 'l');
            if stands_at("&amp;"@, all, 0) {
                assert(all.subrange(0, 5)[1] == 'a');
            }
        } else if s[0] == '>' {
            assert(all.subrange(0, 4) =~= first);
            assert(all[1] == 'g');
            if stands_at("&amp;"@, all, 0) {
                assert(all.subrange(0, 5)[1] == 'a');
            }
            if stands_at("&lt;"@, all, 0) {
                assert(all.subrange(0, 4)[1] == 'l');
            }
        } else {
            assert(all[0] == s[0]);
            if stands_at("&amp;"@, all, 0) {
                assert(all.subrange(0, 5)[0] == '&');
            }
            if stands_at("&lt;"@, all, 0) {
                assert(all.subrange(0, 4)[0] == '&');
            }
            if stands_at("&gt;"@, all, 0) {
                assert(all.subrange(0, 4)[0] == '&');
            }
        }
    }
}

/// The iXML text, before it is padded to an even length.
pub open spec fn xml_body(stamp: Stamp, spec: Spec) -> Seq<char> {
    let rate = stamp.timecode.rate;
    let ratio = timecode::exact_rate(rate);
    Seq::<char>::empty()
        + "<?xml version=\"1.0\" encoding=\"UTF-8\"?>\n<BWFXML>\n <IXML_VERSION>1.5</IXML_VERSION>\n <PROJECT>"@
        + escaped(stamp.originator@) + "</PROJECT>\n <NOTE>"@ + escaped(stamp.note@)
        + "</NOTE>\n <SPEED>\n  <TIMECODE_RATE>"@ + text::decimal(ratio.num as nat) + "/"@
        + text::decimal(ratio.den as nat) + "</TIMECODE_RATE>\n  <TIMECODE_FLAG>"@ + (
    if rate.drop_frame {
        "DF"@
    } else {
        "NDF"@
    }) + "</TIMECODE_FLAG>\n  <FILE_SAMPLE_RATE>"@ + text::decimal(spec.sample_rate as nat)
        + "</FILE_SAMPLE_RATE>\n  <TIMESTAMP_SAMPLE_RATE>"@ + text::decimal(spec.sample_rate as nat)
        + "</TIMESTAMP_SAMPLE_RATE>\n  <TIMESTAMP_SAMPLES_SINCE_MIDNIGHT_LO>"@ + text::decimal(
        stamp.samples_since_midnight as nat % 0x1_0000_0000,
    )
        + "</TIMESTAMP_SAMPLES_SINCE_MIDNIGHT_LO>\n  <TIMESTAMP_SAMPLES_SINCE_MIDNIGHT_HI>"@
        + text::decimal(stamp.samples_since_midnight as nat / 0x1_0000_0000)
        + "</TIMESTAMP_SAMPLES_SINCE_MIDNIGHT_HI>\n </SPEED>\n</BWFXML>\n"@
}

/// The iXML chunk. Padding the text itself, rather than adding a pad byte outside the
/// declared size, means that a reader that takes the length at its word still gets
/// well-formed XML.
pub open spec fn xml_text(stamp: Stamp, spec: Spec) -> Seq<char> {
    let body = xml_body(stamp, spec);
    if utf8(body).len() % 2 == 1 {
        body.push('\n')
    } else {
        body
    }
}

/// The iXML chunk: the frame rate, which `bext` has nowhere to put, and the sample count
/// again in iXML's own fields.
pub fn ixml(stamp: &Stamp, spec: &Spec) -> (xml: String)
    ensures
        xml@ == xml_text(*stamp, *spec),
{
    let rate = stamp.timecode.rate;
    let ratio = rate.exact_fps();
    let mut xml = String::new();
    xml.push_str(
        "<?xml version=\"1.0\" encoding=\"UTF-8\"?>\n<BWFXML>\n <IXML_VERSION>1.5</IXML_VERSION>\n <PROJECT>",
    );
    xml.push_str(escape(stamp.originator.as_str()).as_str());
    xml.push_str("</PROJECT>\n <NOTE>");
    xml.push_str(escape(stamp.note.as_str()).as_str());
    xml.push_str("</NOTE>\n <SPEED>\n  <TIMECODE_RATE>");
    text::put_decimal(&mut xml, ratio.num as u128);
    xml.push_str("/");
    text::put_decimal(&mut xml, ratio.den as u128);
    xml.push_str("</TIMECODE_RATE>\n  <TIMECODE_FLAG>");
    if rate.drop_frame {
        xml.push_str("DF");
    } else {
        xml.push_str("NDF");
    }
    xml.push_str("</TIMECODE_FLAG>\n  <FILE_SAMPLE_RATE>");
    text::put_decimal(&mut xml, spec.sample_rate as u128);
    xml.push_str("</FILE_SAMPLE_RATE>\n  <TIMESTAMP_SAMPLE_RATE>");
    text::put_decimal(&mut xml, spec.sample_rate as u128);
    xml.push_str("</TIMESTAMP_SAMPLE_RATE>\n  <TIMESTAMP_SAMPLES_SINCE_MIDNIGHT_LO>");
    text::put_decimal(&mut xml, (stamp.samples_since_midnight % 0x1_0000_0000) as u128);
    xml.push_str(
        "</TIMESTAMP_SAMPLES_SINCE_MIDNIGHT_LO>\n  <TIMESTAMP_SAMPLES_SINCE_MIDNIGHT_HI>",
    );
    text::put_decimal(&mut xml, (stamp.samples_since_midnight / 0x1_0000_0000) as u128);
    xml.push_str("</TIMESTAMP_SAMPLES_SINCE_MIDNIGHT_HI>\n </SPEED>\n</BWFXML>\n");
    let bytes = xml.as_str().as_bytes();
    let odd: bool = bytes.len() % 2 == 1;
    if odd {
        xml.push('\n');
    }
    xml
}

/// `RIFF`, a size that is filled in at the end, and `WAVE`.
#[verifier::opaque]
pub open spec fn riff_part() -> Seq<u8> {
    Seq::<u8>::empty() + tag(0x52, 0x49, 0x46, 0x46) + le32(0) + tag(0x57, 0x41, 0x56, 0x45)
}

/// The `fmt ` chunk: PCM, 24 bits a sample.
#[verifier::opaque]
pub open spec fn fmt_chunk(spec: Spec) -> Seq<u8> {
    Seq::<u8>::empty() + tag(0x66, 0x6d, 0x74, 0x20) + le32(16) + le16(1) + le16(
        spec.channels as nat,
    ) + le32(spec.sample_rate as nat) + le32(
        (spec.sample_rate * (spec.channels * 3)) as nat,
    ) + le16((spec.channels * 3) as nat) + le16(24)
}

/// The `bext` chunk.
#[verifier::opaque]
pub open spec fn bext_chunk(stamp: Stamp) -> Seq<u8> {
    Seq::<u8>::empty() + tag(0x62, 0x65, 0x78, 0x74) + le32(602) + bext_bytes(stamp)
}

/// The `iXML` chunk.
#[verifier::opaque]
pub open spec fn xml_chunk(stamp: Stamp, spec: Spec) -> Seq<u8> {
    Seq::<u8>::empty() + tag(0x69, 0x58, 0x4d, 0x4c) + le32(
        utf8(xml_text(stamp, spec)).len(),
    ) + utf8(xml_text(stamp, spec))
}

/// `data`, and a size that is filled in at the end.
#[verifier::opaque]
pub open spec fn data_part() -> Seq<u8> {
    Seq::<u8>::empty() + tag(0x64, 0x61, 0x74, 0x61) + le32(0)
}

/// Everything in front of the samples.
pub open spec fn header_bytes(spec: Spec, stamp: Stamp) -> Seq<u8> {
    riff_part() + fmt_chunk(spec) + bext_chunk(stamp) + xml_chunk(stamp, spec) + data_part()
}

/// A sample as 24 bits can hold it. Clamped rather than wrapped: wrapping turns a loud
/// moment into a burst of noise at the opposite polarity.
pub open spec fn stored(sample: i64) -> int {
    if sample > FULL_SCALE - 1 {
        FULL_SCALE - 1
    } else if sample < -FULL_SCALE {
        -FULL_SCALE
    } else {
        sample as int
    }
}

/// A stored sample's three bytes, the lowest first.
pub open spec fn pcm(value: int) -> Seq<u8> {
    let u = if value < 0 {
        value + 16_777_216
    } else {
        value
    };
    seq![(u % 256) as u8, (u / 256 % 256) as u8, (u / 65_536 % 256) as u8]
}

/// Samples as they are stored.
pub open spec fn pcm_bytes(samples: Seq<i64>) -> Seq<u8>
    decreases samples.len(),
{
    if samples.len() == 0 {
        Seq::empty()
    } else {
        pcm_bytes(samples.drop_last()) + pcm(stored(samples.last()))
    }
}

/// How many samples are past full scale.
pub open spec fn clip_count(samples: Seq<i64>) -> nat
    decreases samples.len(),
{
    if samples.len() == 0 {
        0
    } else if samples.last() > FULL_SCALE || samples.last() < -FULL_SCALE {
        clip_count(samples.drop_last()) + 1
    } else {
        clip_count(samples.drop_last())
    }
}

/// A Broadcast Wave file being written.
#[derive(Debug)]
pub struct Bwf {
    pub spec: Spec,
    /// Offset of the `data` chunk's size field, which isn't known until the end.
    pub data_size_at: u64,
    pub frames: u64,
    pub clipped: u64,
    /// Bytes in the file so far.
    pub written: u64,
}

/// Four bytes that go over others once the file is complete.
#[derive(Clone, Copy, Debug, PartialEq, Eq)]
pub struct Patch {
    pub at: u64,
    pub bytes: [u8; 4],
}

/// What completes a file: a pad byte where the samples make an odd number of bytes, and
/// the two sizes that weren't known when the header went down.
#[derive(Clone, Copy, Debug, PartialEq, Eq)]
pub struct Ending {
    pub pad: bool,
    pub data_size: Patch,
    pub riff_size: Patch,
}

/// Sample frames in a run of samples.
pub open spec fn frame_count(samples: nat, channels: u16) -> nat {
    if channels == 0 {
        samples
    } else {
        samples / channels as nat
    }
}

/// A file with so many more samples in it.
pub open spec fn after_write(bwf: Bwf, samples: Seq<i64>) -> Bwf {
    Bwf {
        frames: (bwf.frames + frame_count(samples.len(), bwf.spec.channels)) as u64,
        clipped: (bwf.clipped + clip_count(samples)) as u64,
        written: (bwf.written + 3 * samples.len()) as u64,
        ..bwf
    }
}

/// What completes a file, as its counts have it.
pub open spec fn is_ending(bwf: Bwf, ending: Ending) -> bool {
    let size = (bwf.frames * (bwf.spec.channels * 3)) as nat;
    let total = bwf.written + (size % 2);
    &&& ending.pad == (size % 2 == 1)
    &&& ending.data_size.at == bwf.data_size_at
    &&& ending.data_size.bytes@ == le32(size)
    &&& ending.riff_size.at == 4
    &&& ending.riff_size.bytes@ == le32(
        (if total >= 8 {
            total - 8
        } else {
            0
        }) as nat,
    )
}

impl Bwf {
    /// The counts agree: the frames counted are in the file, behind the header.
    pub open spec fn wf(self) -> bool {
        &&& self.spec.wf()
        &&& self.data_size_at + 4 + self.frames * (self.spec.channels * 3) <= self.written
    }

    /// The counts can take that many more samples.
    pub open spec fn room_for(self, samples: nat) -> bool {
        &&& self.written + 3 * samples <= u64::MAX
        &&& self.frames + samples <= u64::MAX
        &&& self.clipped + samples <= u64::MAX
    }

    /// Starts a file: its state, and everything but the samples.
    pub fn create(spec: Spec, stamp: &Stamp) -> (r: (Bwf, Vec<u8>))
        requires
            spec.wf(),
        ensures
            r.1@ == header_bytes(spec, *stamp),
            r.0.wf(),
            r.0.spec == spec,
            r.0.frames == 0,
            r.0.clipped == 0,
            r.0.written == r.1@.len(),
            r.0.data_size_at == r.1@.len() - 4,
    {
        reveal(riff_part);
        reveal(fmt_chunk);
        reveal(bext_chunk);
        reveal(xml_chunk);
        reveal(data_part);
        let mut header: Vec<u8> = Vec::new();
        put_tag(&mut header, 0x52, 0x49, 0x46, 0x46);
        put_le32(&mut header, 0);
        put_tag(&mut header, 0x57, 0x41, 0x56, 0x45);
        assert(header@ == riff_part());
        let ghost front = header@;
        put_tag(&mut header, 0x66, 0x6d, 0x74, 0x20);
        put_le32(&mut header, 16);
        put_le16(&mut header, 1);
        put_le16(&mut header, spec.channels);
        put_le32(&mut header, spec.sample_rate as u64);
        put_le32(&mut header, spec.sample_rate as u64 * spec.block_align() as u64);
        put_le16(&mut header, spec.block_align());
        put_le16(&mut header, 24);
        assert(header@ =~= front + fmt_chunk(spec));
        let ghost front = header@;
        put_tag(&mut header, 0x62, 0x65, 0x78, 0x74);
        put_le32(&mut header, 602);
        let body = bext(stamp);
        put_bytes(&mut header, body.as_slice());
        assert(header@ =~= front + bext_chunk(*stamp));
        let ghost front = header@;
        let xml = ixml(stamp, &spec);
        let xml_bytes = xml.as_str().as_bytes();
        put_tag(&mut header, 0x69, 0x58, 0x4d, 0x4c);
        put_le32(&mut header, xml_bytes.len() as u64);
        put_bytes(&mut header, xml_bytes);
        assert(header@ =~= front + xml_chunk(*stamp, spec));
        let ghost front = header@;
        put_tag(&mut header, 0x64, 0x61, 0x74, 0x61);
        put_le32(&mut header, 0);
        assert(header@ =~= front + data_part());
        let len: u64 = header.len() as u64;
        assert(0 * (spec.channels * 3) == 0) by (nonlinear_arith);
        (Bwf { spec, data_size_at: len - 4, frames: 0, clipped: 0, written: len }, header)
    }

    /// Whether the counts can take that many more samples.
    pub fn has_room(&self, samples: usize) -> (yes: bool)
        ensures
            yes == self.room_for(samples as nat),
    {
        let n: u128 = samples as u128;
        let most: u128 = u64::MAX as u128;
        self.written as u128 + 3 * n <= most && self.frames as u128 + n <= most
            && self.clipped as u128 + n <= most
    }

    /// The bytes that interleaved samples come to, in the channel order the device sent
    /// them.
    pub fn write(&mut self, samples: &[i64]) -> (bytes: Vec<u8>)
        requires
            old(self).wf(),
            old(self).room_for(samples@.len()),
        ensures
            bytes@ == pcm_bytes(samples@),
            bytes@.len() == 3 * samples@.len(),
            *final(self) == after_write(*old(self), samples@),
            *final(self) == (Bwf {
                frames: (old(self).frames + frame_count(
                    samples@.len(),
                    old(self).spec.channels,
                )) as u64,
                clipped: (old(self).clipped + clip_count(samples@)) as u64,
                written: (old(self).written + 3 * samples@.len()) as u64,
                ..*old(self)
            }),
            final(self).wf(),
    {
        let mut bytes: Vec<u8> = Vec::new();
        let mut over: u64 = 0;
        let mut i: usize = 0;
        assert(samples@.take(0) =~= Seq::empty());
        while i < samples.len()
            invariant
                i <= samples.len(),
                bytes@ == pcm_bytes(samples@.take(i as int)),
                bytes@.len() == 3 * i,
                over == clip_count(samples@.take(i as int)),
                over <= i,
            decreases samples.len() - i,
        {
            assert(samples@.take(i + 1).drop_last() =~= samples@.take(i as int));
            let ghost before = bytes@;
            let sample: i64 = samples[i];
            if sample > FULL_SCALE || sample < -FULL_SCALE {
                over = over + 1;
            }
            let value: i64 = if sample > FULL_SCALE - 1 {
                FULL_SCALE - 1
            } else if sample < -FULL_SCALE {
                -FULL_SCALE
            } else {
                sample
            };
            let u: u32 = if value < 0 {
                (value + 16_777_216) as u32
            } else {
                value as u32
            };
            bytes.push((u % 256) as u8);
            bytes.push((u / 256 % 256) as u8);
            bytes.push((u / 65_536 % 256) as u8);
            assert(bytes@ =~= before + pcm(stored(sample)));
            i = i + 1;
        }
        assert(samples@.take(i as int) =~= samples@);
        let n: u64 = samples.len() as u64;
        let channels: u64 = if self.spec.channels == 0 {
            1
        } else {
            self.spec.channels as u64
        };
        let more: u64 = n / channels;
        proof {
            vstd::arithmetic::div_mod::lemma_fundamental_div_mod(n as int, channels as int);
            let c = self.spec.channels as int;
            assert(more * channels <= n && more <= n) by (nonlinear_arith)
                requires
                    n == channels * more + n as int % channels as int,
                    n as int % channels as int >= 0,
                    channels >= 1,
            ;
            assert(more * (c * 3) <= 3 * n) by (nonlinear_arith)
                requires
                    more * channels <= n,
                    0 <= c <= channels,
                    more >= 0,
            ;
            assert((self.frames + more) * (c * 3) == self.frames * (c * 3) + more * (c * 3))
                by (nonlinear_arith);
        }
        self.frames = self.frames + more;
        self.clipped = self.clipped + over;
        self.written = self.written + 3 * n;
        bytes
    }

    /// Sample frames written so far.
    pub fn frames(&self) -> (n: u64)
        ensures
            n == self.frames,
    {
        self.frames
    }

    /// How many samples arrived past full scale. They were clamped, so they are gone from
    /// the file.
    pub fn clipped(&self) -> (n: u64)
        ensures
            n == self.clipped,
    {
        self.clipped
    }

    /// What completes the file.
    ///
    /// A RIFF chunk sits on an even boundary, and 24-bit samples make an odd one often
    /// enough to matter. The pad byte is part of the file but not of the chunk.
    pub fn finish(self) -> (ending: Ending)
        requires
            self.wf(),
            self.written < u64::MAX,
        ensures
            is_ending(self, ending),
            ({
                let size = (self.frames * (self.spec.channels * 3)) as nat;
                let total = self.written + (size % 2);
                &&& ending.pad == (size % 2 == 1)
                &&& ending.data_size.at == self.data_size_at
                &&& ending.data_size.bytes@ == le32(size)
                &&& ending.riff_size.at == 4
                &&& ending.riff_size.bytes@ == le32(
                    (if total >= 8 {
                        total - 8
                    } else {
                        0
                    }) as nat,
                )
            }),
    {
        let align: u64 = self.spec.block_align() as u64;
        let size: u64 = self.frames * align;
        let pad: bool = size % 2 == 1;
        let total: u64 = if pad {
            self.written + 1
        } else {
            self.written
        };
        let riff: u64 = total.saturating_sub(8);
        Ending {
            pad,
            data_size: Patch { at: self.data_size_at, bytes: le_bytes(size) },
            riff_size: Patch { at: 4, bytes: le_bytes(riff) },
        }
    }
}

/// The low 32 bits of a number, the lowest byte first.
fn le_bytes(v: u64) -> (bytes: [u8; 4])
    ensures
        bytes@ == le32(v as nat),
{
    let bytes: [u8; 4] = [
        (v % 256) as u8,
        (v / 256 % 256) as u8,
        (v / 65_536 % 256) as u8,
        (v / 16_777_216 % 256) as u8,
    ];
    reveal(le32);
    assert(bytes@ =~= le32(v as nat));
    bytes
}

/// Bytes with some of them written over.
pub open spec fn patched(file: Seq<u8>, at: int, bytes: Seq<u8>) -> Seq<u8> {
    file.take(at) + bytes + file.skip(at + bytes.len())
}

/// The number that four bytes say, the lowest first.
#[verifier::opaque]
pub open spec fn from32(bytes: Seq<u8>) -> nat {
    (bytes[0] + 256 * bytes[1] + 65_536 * bytes[2] + 16_777_216 * bytes[3]) as nat
}

/// Which chunk starts at an offset.
pub open spec fn chunk_id(file: Seq<u8>, at: int) -> Seq<u8> {
    file.subrange(at, at + 4)
}

/// How long it says it is.
pub open spec fn chunk_size(file: Seq<u8>, at: int) -> nat {
    from32(file.subrange(at + 4, at + 8))
}

/// What is in it.
pub open spec fn chunk_body(file: Seq<u8>, at: int) -> Seq<u8> {
    file.subrange(at + 8, at + 8 + chunk_size(file, at))
}

/// Where the next one starts: chunks are even-aligned, and an odd one is followed by a pad
/// byte.
pub open spec fn chunk_next(file: Seq<u8>, at: int) -> int {
    at + 8 + chunk_size(file, at) + chunk_size(file, at) % 2
}

/// The file that a header, samples and an ending come to.
#[verifier::opaque]
pub open spec fn finished(header: Seq<u8>, data: Seq<u8>, ending: Ending) -> Seq<u8> {
    let padded = header + data + zeros(
        if ending.pad {
            1
        } else {
            0
        },
    );
    patched(
        patched(padded, ending.data_size.at as int, ending.data_size.bytes@),
        ending.riff_size.at as int,
        ending.riff_size.bytes@,
    )
}

proof fn lemma_from32(v: nat)
    requires
        v < 0x1_0000_0000,
    ensures
        from32(le32(v)) == v,
        le32(v).len() == 4,
{
    lemma_low_half(v);
}

proof fn lemma_utf8_push(s: Seq<char>, c: char)
    ensures
        utf8(s.push(c)) == utf8(s) + vstd::utf8::encode_scalar(c as u32),
    decreases s.len(),
{
    if s.len() == 0 {
        assert(s.push(c).drop_first() =~= s);
        assert(utf8(s) =~= Seq::<u8>::empty());
        assert(utf8(s.push(c).drop_first()) =~= Seq::<u8>::empty());
        assert(utf8(s.push(c)) =~= utf8(s) + vstd::utf8::encode_scalar(c as u32));
    } else {
        lemma_utf8_push(s.drop_first(), c);
        assert(s.push(c).drop_first() =~= s.drop_first().push(c));
        assert(s.push(c)[0] == s[0]);
        assert(utf8(s.push(c)) =~= utf8(s) + vstd::utf8::encode_scalar(c as u32));
    }
}

/// The iXML chunk has an even length, so that it needs no pad byte of its own.
pub proof fn the_xml_has_an_even_length(stamp: Stamp, spec: Spec)
    ensures
        utf8(xml_text(stamp, spec)).len() % 2 == 0,
{
    let body = xml_body(stamp, spec);
    if utf8(body).len() % 2 == 1 {
        lemma_utf8_push(body, '\n');
        assert(vstd::utf8::encode_scalar('\n' as u32).len() == 1);
    }
}

/// The `bext` chunk is as long as it is specified to be, and the sample count lies where a
/// reader looks for it: the low half at 338, the high one behind it.
pub proof fn the_time_reference_lies_where_a_reader_looks(stamp: Stamp)
    ensures
        bext_bytes(stamp).len() == BEXT_SIZE,
        bext_bytes(stamp).subrange(0, 256) == ascii_field(utf8(stamp.note@), 256),
        bext_bytes(stamp).subrange(256, 288) == ascii_field(utf8(stamp.originator@), 32),
        bext_bytes(stamp).subrange(320, 330) == ascii_field(utf8(date_of(stamp)), 10),
        bext_bytes(stamp).subrange(330, 338) == ascii_field(utf8(time_text(stamp.timecode)), 8),
        from32(bext_bytes(stamp).subrange(338, 342)) + 0x1_0000_0000 * from32(
            bext_bytes(stamp).subrange(342, 346),
        ) == stamp.samples_since_midnight,
        bext_bytes(stamp).subrange(346, 348) == le16(1),
{
    reveal(bext_bytes);
    let v = stamp.samples_since_midnight as nat;
    lemma_low_half(v);
    lemma_low_half(v / 0x1_0000_0000);
    assert(v == 0x1_0000_0000 * (v / 0x1_0000_0000) + v % 0x1_0000_0000);
    lemma_fields(
        ascii_field(utf8(stamp.note@), 256),
        ascii_field(utf8(stamp.originator@), 32),
        zeros(32),
        ascii_field(utf8(date_of(stamp)), 10),
        ascii_field(utf8(time_text(stamp.timecode)), 8),
        le32(v),
        le32(v / 0x1_0000_0000),
        le16(1),
        zeros(254),
    );
}

/// Four bytes hold what is left of a number that is too large for them.
proof fn lemma_low_half(v: nat)
    ensures
        from32(le32(v)) == v % 0x1_0000_0000,
        le32(v).len() == 4,
{
    reveal(le32);
    reveal(from32);
    let a = v / 256;
    let b = a / 256;
    let c = b / 256;
    assert(v == 256 * a + v % 256);
    assert(a == 256 * b + a % 256);
    assert(b == 256 * c + b % 256);
    assert(c == 256 * (c / 256) + c % 256);
    assert(v / 65_536 == b);
    assert(v / 16_777_216 == c);
}

proof fn lemma_fields(
    note: Seq<u8>,
    originator: Seq<u8>,
    reference: Seq<u8>,
    date: Seq<u8>,
    time: Seq<u8>,
    low: Seq<u8>,
    high: Seq<u8>,
    version: Seq<u8>,
    reserved: Seq<u8>,
)
    requires
        note.len() == 256,
        originator.len() == 32,
        reference.len() == 32,
        date.len() == 10,
        time.len() == 8,
        low.len() == 4,
        high.len() == 4,
        version.len() == 2,
        reserved.len() == 254,
    ensures
        ({
            let all = Seq::<u8>::empty() + note + originator + reference + date + time + low + high
                + version + reserved;
            &&& all.len() == 602
            &&& all.subrange(0, 256) == note
            &&& all.subrange(256, 288) == originator
            &&& all.subrange(320, 330) == date
            &&& all.subrange(330, 338) == time
            &&& all.subrange(338, 342) == low
            &&& all.subrange(342, 346) == high
            &&& all.subrange(346, 348) == version
        }),
{
    let all = Seq::<u8>::empty() + note + originator + reference + date + time + low + high
        + version + reserved;
    assert(all.subrange(0, 256) =~= note);
    assert(all.subrange(256, 288) =~= originator);
    assert(all.subrange(320, 330) =~= date);
    assert(all.subrange(330, 338) =~= time);
    assert(all.subrange(338, 342) =~= low);
    assert(all.subrange(342, 346) =~= high);
    assert(all.subrange(346, 348) =~= version);
}

proof fn lemma_header_parts(spec: Spec, stamp: Stamp)
    ensures
        riff_part().len() == 12,
        fmt_chunk(spec).len() == 24,
        bext_chunk(stamp).len() == 610,
        xml_chunk(stamp, spec).len() == 8 + utf8(xml_text(stamp, spec)).len(),
        data_part().len() == 8,
        header_bytes(spec, stamp).len() == 662 + utf8(xml_text(stamp, spec)).len(),
        riff_part().subrange(0, 4) == tag(0x52, 0x49, 0x46, 0x46),
        riff_part().subrange(8, 12) == tag(0x57, 0x41, 0x56, 0x45),
        fmt_chunk(spec).subrange(0, 4) == tag(0x66, 0x6d, 0x74, 0x20),
        fmt_chunk(spec).subrange(4, 8) == le32(16),
        bext_chunk(stamp).subrange(0, 4) == tag(0x62, 0x65, 0x78, 0x74),
        bext_chunk(stamp).subrange(4, 8) == le32(602),
        bext_chunk(stamp).subrange(8, 610) == bext_bytes(stamp),
        xml_chunk(stamp, spec).subrange(0, 4) == tag(0x69, 0x58, 0x4d, 0x4c),
        xml_chunk(stamp, spec).subrange(4, 8) == le32(utf8(xml_text(stamp, spec)).len()),
        xml_chunk(stamp, spec).subrange(8, xml_chunk(stamp, spec).len() as int) == utf8(
            xml_text(stamp, spec),
        ),
        data_part().subrange(0, 4) == tag(0x64, 0x61, 0x74, 0x61),
{
    reveal(riff_part);
    reveal(fmt_chunk);
    reveal(bext_chunk);
    reveal(xml_chunk);
    reveal(data_part);
    the_time_reference_lies_where_a_reader_looks(stamp);
    let x = utf8(xml_text(stamp, spec));
    lemma_from32(0);
    lemma_from32(16);
    lemma_from32(602);
    lemma_low_half(x.len());
    lemma_low_half(spec.sample_rate as nat);
    lemma_low_half((spec.sample_rate * (spec.channels * 3)) as nat);
    lemma_pieces(tag(0x52, 0x49, 0x46, 0x46), le32(0), tag(0x57, 0x41, 0x56, 0x45));
    lemma_pieces(tag(0x62, 0x65, 0x78, 0x74), le32(602), bext_bytes(stamp));
    lemma_pieces(tag(0x69, 0x58, 0x4d, 0x4c), le32(x.len()), x);
    lemma_pieces(tag(0x64, 0x61, 0x74, 0x61), le32(0), Seq::empty());
    assert(data_part() =~= Seq::<u8>::empty() + tag(0x64, 0x61, 0x74, 0x61) + le32(0)
        + Seq::<u8>::empty());
    let rest = le16(1) + le16(spec.channels as nat) + le32(spec.sample_rate as nat) + le32(
        (spec.sample_rate * (spec.channels * 3)) as nat,
    ) + le16((spec.channels * 3) as nat) + le16(24);
    lemma_pieces(tag(0x66, 0x6d, 0x74, 0x20), le32(16), rest);
    assert(fmt_chunk(spec) =~= Seq::<u8>::empty() + tag(0x66, 0x6d, 0x74, 0x20) + le32(16)
        + rest);
}

/// What a chunk is made of: an identifier, a size and a body.
proof fn lemma_pieces(id: Seq<u8>, size: Seq<u8>, body: Seq<u8>)
    requires
        id.len() == 4,
        size.len() == 4,
    ensures
        ({
            let all = Seq::<u8>::empty() + id + size + body;
            &&& all.len() == 8 + body.len()
            &&& all.subrange(0, 4) == id
            &&& all.subrange(4, 8) == size
            &&& all.subrange(8, all.len() as int) == body
        }),
{
    let all = Seq::<u8>::empty() + id + size + body;
    assert(all.subrange(0, 4) =~= id);
    assert(all.subrange(4, 8) =~= size);
    assert(all.subrange(8, all.len() as int) =~= body);
}

/// What a reader makes of a file: RIFF whose declared size is its length, and four chunks,
/// each where the one before it ends and the last one ending the file. `fmt `, `bext` with
/// the stamp, `iXML` with the rate, and `data` with the samples.
pub open spec fn reads_as(file: Seq<u8>, stamp: Stamp, spec: Spec, data: Seq<u8>) -> bool {
    let xml = utf8(xml_text(stamp, spec));
    let at = (654 + xml.len()) as int;
    &&& file.subrange(0, 4) == tag(0x52, 0x49, 0x46, 0x46)
    &&& from32(file.subrange(4, 8)) + 8 == file.len()
    &&& file.subrange(8, 12) == tag(0x57, 0x41, 0x56, 0x45)
    &&& chunk_id(file, 12) == tag(0x66, 0x6d, 0x74, 0x20)
    &&& chunk_body(file, 12) == fmt_chunk(spec).subrange(8, 24)
    &&& chunk_next(file, 12) == 36
    &&& chunk_id(file, 36) == tag(0x62, 0x65, 0x78, 0x74)
    &&& chunk_body(file, 36) == bext_bytes(stamp)
    &&& chunk_next(file, 36) == 646
    &&& chunk_id(file, 646) == tag(0x69, 0x58, 0x4d, 0x4c)
    &&& chunk_body(file, 646) == xml
    &&& chunk_next(file, 646) == at
    &&& chunk_id(file, at) == tag(0x64, 0x61, 0x74, 0x61)
    &&& chunk_body(file, at) == data
    &&& chunk_next(file, at) == file.len()
}

/// The chunks add up to the file: a finished recording of whole frames, put together from
/// its header, its samples and its ending, reads back as what was recorded.
pub proof fn the_chunks_add_up_to_the_file(bwf: Bwf, stamp: Stamp, data: Seq<u8>, ending: Ending)
    requires
        bwf.wf(),
        data.len() == bwf.frames * (bwf.spec.channels * 3),
        bwf.data_size_at == header_bytes(bwf.spec, stamp).len() - 4,
        bwf.written == header_bytes(bwf.spec, stamp).len() + data.len(),
        bwf.written < 0x1_0000_0000,
        ending.pad == (data.len() % 2 == 1),
        ending.data_size.at == bwf.data_size_at,
        ending.data_size.bytes@ == le32(data.len()),
        ending.riff_size.at == 4,
        ending.riff_size.bytes@ == le32((bwf.written + data.len() % 2 - 8) as nat),
    ensures
        reads_as(
            finished(header_bytes(bwf.spec, stamp), data, ending),
            stamp,
            bwf.spec,
            data,
        ),
{
    let spec = bwf.spec;
    let xml = utf8(xml_text(stamp, spec));
    lemma_header_parts(spec, stamp);
    the_xml_has_an_even_length(stamp, spec);
    let pad = zeros(
        if ending.pad {
            1
        } else {
            0
        },
    );
    lemma_from32((bwf.written + data.len() % 2 - 8) as nat);
    lemma_from32(16);
    lemma_from32(602);
    lemma_from32(xml.len());
    lemma_from32(data.len());
    lemma_reading(
        riff_part(),
        fmt_chunk(spec),
        bext_chunk(stamp),
        xml_chunk(stamp, spec),
        data_part(),
        data,
        pad,
        ending,
    );
}

/// What a reader gets from the sections of a finished file, whatever is in them.
proof fn lemma_reading(
    riff: Seq<u8>,
    fmt: Seq<u8>,
    bext: Seq<u8>,
    xml: Seq<u8>,
    head: Seq<u8>,
    data: Seq<u8>,
    pad: Seq<u8>,
    ending: Ending,
)
    requires
        riff.len() == 12,
        fmt.len() == 24,
        bext.len() == 610,
        xml.len() >= 8,
        xml.len() % 2 == 0,
        head.len() == 8,
        pad == zeros(
            if ending.pad {
                1
            } else {
                0
            },
        ),
        ending.pad == (data.len() % 2 == 1),
        ending.data_size.at == 650 + xml.len(),
        ending.data_size.bytes@.len() == 4,
        ending.riff_size.at == 4,
        ending.riff_size.bytes@.len() == 4,
        from32(fmt.subrange(4, 8)) == 16,
        from32(bext.subrange(4, 8)) == 602,
        from32(xml.subrange(4, 8)) == xml.len() - 8,
        from32(ending.data_size.bytes@) == data.len(),
    ensures
        ({
            let file = finished(riff + fmt + bext + xml + head, data, ending);
            let at = (646 + xml.len()) as int;
            &&& file.len() == 654 + xml.len() + data.len() + data.len() % 2
            &&& file.subrange(0, 4) == riff.subrange(0, 4)
            &&& file.subrange(4, 8) == ending.riff_size.bytes@
            &&& file.subrange(8, 12) == riff.subrange(8, 12)
            &&& chunk_id(file, 12) == fmt.subrange(0, 4)
            &&& chunk_body(file, 12) == fmt.subrange(8, 24)
            &&& chunk_next(file, 12) == 36
            &&& chunk_id(file, 36) == bext.subrange(0, 4)
            &&& chunk_body(file, 36) == bext.subrange(8, 610)
            &&& chunk_next(file, 36) == 646
            &&& chunk_id(file, 646) == xml.subrange(0, 4)
            &&& chunk_body(file, 646) == xml.subrange(8, xml.len() as int)
            &&& chunk_next(file, 646) == at
            &&& chunk_id(file, at) == head.subrange(0, 4)
            &&& chunk_body(file, at) == data
            &&& chunk_next(file, at) == file.len()
        }),
{
    lemma_chunks(riff, fmt, bext, xml, head, data, pad, ending);
}

/// What the sections of a finished file are, whatever is in them.
proof fn lemma_chunks(
    riff: Seq<u8>,
    fmt: Seq<u8>,
    bext: Seq<u8>,
    xml: Seq<u8>,
    head: Seq<u8>,
    data: Seq<u8>,
    pad: Seq<u8>,
    ending: Ending,
)
    requires
        riff.len() == 12,
        fmt.len() == 24,
        bext.len() == 610,
        xml.len() >= 8,
        head.len() == 8,
        pad == zeros(
            if ending.pad {
                1
            } else {
                0
            },
        ),
        ending.data_size.at == 650 + xml.len(),
        ending.data_size.bytes@.len() == 4,
        ending.riff_size.at == 4,
        ending.riff_size.bytes@.len() == 4,
    ensures
        ({
            let file = finished(riff + fmt + bext + xml + head, data, ending);
            let at = (646 + xml.len()) as int;
            &&& file.len() == 654 + xml.len() + data.len() + pad.len()
            &&& file.subrange(0, 4) == riff.subrange(0, 4)
            &&& file.subrange(4, 8) == ending.riff_size.bytes@
            &&& file.subrange(8, 12) == riff.subrange(8, 12)
            &&& file.subrange(12, 16) == fmt.subrange(0, 4)
            &&& file.subrange(16, 20) == fmt.subrange(4, 8)
            &&& file.subrange(20, 36) == fmt.subrange(8, 24)
            &&& file.subrange(36, 40) == bext.subrange(0, 4)
            &&& file.subrange(40, 44) == bext.subrange(4, 8)
            &&& file.subrange(44, 646) == bext.subrange(8, 610)
            &&& file.subrange(646, 650) == xml.subrange(0, 4)
            &&& file.subrange(650, 654) == xml.subrange(4, 8)
            &&& file.subrange(654, at) == xml.subrange(8, xml.len() as int)
            &&& file.subrange(at, at + 4) == head.subrange(0, 4)
            &&& file.subrange(at + 4, at + 8) == ending.data_size.bytes@
            &&& file.subrange(at + 8, (at + 8 + data.len()) as int) == data
        }),
{
    reveal(finished);
    let file = finished(riff + fmt + bext + xml + head, data, ending);
    let at = (646 + xml.len()) as int;
    assert(file.subrange(0, 4) =~= riff.subrange(0, 4));
    assert(file.subrange(4, 8) =~= ending.riff_size.bytes@);
    assert(file.subrange(8, 12) =~= riff.subrange(8, 12));
    assert(file.subrange(12, 16) =~= fmt.subrange(0, 4));
    assert(file.subrange(16, 20) =~= fmt.subrange(4, 8));
    assert(file.subrange(20, 36) =~= fmt.subrange(8, 24));
    assert(file.subrange(36, 40) =~= bext.subrange(0, 4));
    assert(file.subrange(40, 44) =~= bext.subrange(4, 8));
    assert(file.subrange(44, 646) =~= bext.subrange(8, 610));
    assert(file.subrange(646, 650) =~= xml.subrange(0, 4));
    assert(file.subrange(650, 654) =~= xml.subrange(4, 8));
    assert(file.subrange(654, at) =~= xml.subrange(8, xml.len() as int));
    assert(file.subrange(at, at + 4) =~= head.subrange(0, 4));
    assert(file.subrange(at + 4, at + 8) =~= ending.data_size.bytes@);
    assert(file.subrange(at + 8, (at + 8 + data.len()) as int) =~= data);
}

/// A stored sample reads back as itself: the three bytes are the sample in two's
/// complement.
pub proof fn a_stored_sample_reads_back(value: int)
    requires
        -FULL_SCALE <= value < FULL_SCALE,
    ensures
        ({
            let b = pcm(value);
            let u = b[0] + 256 * b[1] + 65_536 * b[2];
            value == (if u >= FULL_SCALE {
                u - 16_777_216
            } else {
                u
            })
        }),
{
}

/// A sample that was not past full scale is stored as it came, but for the very top, which
/// is one step down.
pub proof fn only_a_loud_sample_is_changed(sample: i64)
    ensures
        -FULL_SCALE <= sample < FULL_SCALE ==> stored(sample) == sample,
        sample >= FULL_SCALE ==> stored(sample) == FULL_SCALE - 1,
        sample < -FULL_SCALE ==> stored(sample) == -FULL_SCALE,
{
}

/// A place on the day in samples is the nearest whole one to where the timecode's fields say
/// it is, the later one of two: the frames since midnight, at the timecode's own rate, and
/// what it is into its frame, at the file's rate. A drop-frame timecode has no such place, and
/// one past the largest number stays there.
pub proof fn a_place_is_the_nearest_sample(tc: Timecode, sample_rate: u32)
    ensures
        sample_position(tc, sample_rate) is None <==> tc.rate.drop_frame,
        sample_position(tc, sample_rate) matches Some(samples) ==> {
            let fps = tc.rate.fps as int;
            let frames = (3600 * tc.hours + 60 * tc.minutes + tc.seconds) * fps + tc.frames;
            let exact = (frames * 1_000_000_000 + tc.subframe@ * fps) * sample_rate;
            let unit = (if fps == 0 {
                1
            } else {
                fps
            }) * 1_000_000_000;
            &&& 2 * (samples * unit) <= 2 * exact + unit
            &&& samples < u64::MAX ==> 2 * exact < 2 * (samples * unit) + unit
        },
{
    if !tc.rate.drop_frame {
        let fps = tc.rate.fps as int;
        let frames = (3600 * tc.hours + 60 * tc.minutes + tc.seconds) * fps + tc.frames;
        assert(((tc.hours * 60 + tc.minutes) * 60 + tc.seconds) * tc.rate.fps == (3600 * tc.hours
            + 60 * tc.minutes + tc.seconds) * fps) by (nonlinear_arith)
            requires
                fps == tc.rate.fps,
        ;
        let position = frames * 1_000_000_000 + tc.subframe@ * fps;
        assert(timecode::position_of(tc) == position);
        let exact = position * sample_rate;
        let unit = (if fps == 0 {
            1
        } else {
            fps
        }) * 1_000_000_000;
        assert(exact >= 0) by (nonlinear_arith)
            requires
                exact == position * sample_rate,
                position >= 0,
        ;
        let n = nearest(exact as nat, unit as nat) as int;
        vstd::arithmetic::div_mod::lemma_fundamental_div_mod(2 * exact + unit, 2 * unit);
        vstd::arithmetic::div_mod::lemma_mod_bound(2 * exact + unit, 2 * unit);
        assert((2 * unit) * n == 2 * (n * unit)) by (nonlinear_arith);
        let samples = sample_position(tc, sample_rate)->0 as int;
        assert(samples * unit <= n * unit) by (nonlinear_arith)
            requires
                samples <= n,
                unit > 0,
        ;
    }
}

/// A timecode on a whole second sits at that many seconds of samples, whatever its rate.
pub proof fn a_whole_second_sits_on_its_sample(tc: Timecode, sample_rate: u32)
    requires
        !tc.rate.drop_frame,
        tc.rate.fps > 0,
        tc.frames == 0,
        tc.subframe@ == 0,
    ensures
        sample_position(tc, sample_rate) matches Some(samples) && samples == (3600 * tc.hours + 60
            * tc.minutes + tc.seconds) * sample_rate,
{
    a_place_is_the_nearest_sample(tc, sample_rate);
    let fps = tc.rate.fps as int;
    let seconds = 3600 * tc.hours + 60 * tc.minutes + tc.seconds;
    let whole = seconds * sample_rate;
    let unit = fps * 1_000_000_000;
    let samples = sample_position(tc, sample_rate)->0 as int;
    assert(0 <= whole <= 1_000_000 * 0x1_0000_0000) by (nonlinear_arith)
        requires
            0 <= seconds <= 1_000_000,
            0 <= sample_rate <= 0x1_0000_0000,
            whole == seconds * sample_rate,
    ;
    assert((seconds * fps * 1_000_000_000 + 0 * fps) * sample_rate == whole * unit)
        by (nonlinear_arith)
        requires
            whole == seconds * sample_rate,
            unit == fps * 1_000_000_000,
    ;
    assert(tc.subframe@ * fps == 0 * fps);
    assert(samples <= whole) by (nonlinear_arith)
        requires
            2 * (samples * unit) <= 2 * (whole * unit) + unit,
            unit > 0,
    ;
    assert(samples >= whole) by (nonlinear_arith)
        requires
            samples < u64::MAX,
            2 * (whole * unit) < 2 * (samples * unit) + unit,
            unit > 0,
    ;
}

/// One frame more is a frame's worth of samples more, to within one.
pub proof fn a_frame_more_is_a_frame_of_samples(a: Timecode, b: Timecode, sample_rate: u32)
    requires
        !a.rate.drop_frame,
        a.rate.fps > 0,
        a.frames < 255,
        b == (Timecode { frames: (a.frames + 1) as u8, ..a }),
        sample_position(b, sample_rate)->0 < u64::MAX,
    ensures
        ({
            let more = sample_position(b, sample_rate)->0 - sample_position(a, sample_rate)->0;
            &&& (more - 1) * a.rate.fps < sample_rate
            &&& sample_rate < (more + 1) * a.rate.fps
        }),
{
    a_place_is_the_nearest_sample(a, sample_rate);
    a_place_is_the_nearest_sample(b, sample_rate);
    let fps = a.rate.fps as int;
    let unit = fps * 1_000_000_000;
    let rate = sample_rate as int;
    let seconds = 3600 * a.hours + 60 * a.minutes + a.seconds;
    let first = ((seconds * fps + a.frames) * 1_000_000_000 + a.subframe@ * fps) * rate;
    let second = ((seconds * fps + b.frames) * 1_000_000_000 + b.subframe@ * fps) * rate;
    assert(second == first + 1_000_000_000 * rate) by (nonlinear_arith)
        requires
            first == ((seconds * fps + a.frames) * 1_000_000_000 + a.subframe@ * fps) * rate,
            second == ((seconds * fps + b.frames) * 1_000_000_000 + b.subframe@ * fps) * rate,
            b.frames == a.frames + 1,
            b.subframe@ == a.subframe@,
    ;
    let x = sample_position(a, sample_rate)->0 as int;
    let y = sample_position(b, sample_rate)->0 as int;
    if x == u64::MAX {
        assert(2 * (x * unit) <= 2 * second + unit) by (nonlinear_arith)
            requires
                2 * (x * unit) <= 2 * first + unit,
                first <= second,
        ;
        assert(false) by (nonlinear_arith)
            requires
                2 * (x * unit) <= 2 * second + unit,
                2 * second < 2 * (y * unit) + unit,
                y < x,
                unit > 0,
        ;
    }
    let more = y - x;
    assert((more - 1) * fps < rate && rate < (more + 1) * fps) by (nonlinear_arith)
        requires
            2 * (x * unit) <= 2 * first + unit,
            2 * first < 2 * (x * unit) + unit,
            2 * (y * unit) <= 2 * second + unit,
            2 * second < 2 * (y * unit) + unit,
            second == first + 1_000_000_000 * rate,
            unit == fps * 1_000_000_000,
            more == y - x,
    {
        assert(more * unit == y * unit - x * unit);
        assert((more - 1) * unit == more * unit - unit);
        assert((more + 1) * unit == more * unit + unit);
        assert((more - 1) * unit == (more - 1) * fps * 1_000_000_000);
        assert((more + 1) * unit == (more + 1) * fps * 1_000_000_000);
    }
}

} // verus!
