use shokushu::time::Duration;
use shokushu::timecode::{Rate, Timecode};
use shokushu::wav::{escape, samples_since_midnight, Bwf, Spec, Stamp};


fn chunks(bytes: &[u8]) -> Vec<(String, Vec<u8>)> {
    assert_eq!(&bytes[0..4], b"RIFF");
    let declared = u32::from_le_bytes(bytes[4..8].try_into().unwrap()) as usize;
    assert_eq!(declared + 8, bytes.len(), "the RIFF size isn't the file");
    assert_eq!(&bytes[8..12], b"WAVE");

    let mut found = Vec::new();
    let mut at = 12;
    while at + 8 <= bytes.len() {
        let id = String::from_utf8_lossy(&bytes[at..at + 4]).to_string();
        let size = u32::from_le_bytes(bytes[at + 4..at + 8].try_into().unwrap()) as usize;
        found.push((id, bytes[at + 8..at + 8 + size].to_vec()));
        at += 8 + size + size % 2;
    }
    assert_eq!(at, bytes.len(), "a chunk ran off the end of the file");
    found
}

fn stamp() -> Stamp {
    Stamp {
        timecode: Timecode::new(11, 37, 40, 21, Rate::whole(25)),
        samples_since_midnight: 2_008_660_032,
        date: Some("2026-09-04".to_string()),
        originator: "shokushu-rec".to_string(),
        note: "Ricki".to_string(),
    }
}

/// Samples as the writer takes them: full scale is 2^23.
fn scaled(samples: &[f64]) -> Vec<i64> {
    samples.iter().map(|s| (s * 8_388_608.0).round() as i64).collect()
}

/// The whole file that samples come to.
fn written(spec: Spec, stamp: &Stamp, samples: &[f64]) -> (Bwf, Vec<u8>) {
    let (mut bwf, mut bytes) = Bwf::create(spec, stamp);
    assert!(bwf.has_room(samples.len()));
    bytes.extend(bwf.write(&scaled(samples)));
    (bwf, bytes)
}

/// The same, with the sizes patched in.
fn closed(bwf: Bwf, mut bytes: Vec<u8>) -> Vec<u8> {
    let ending = bwf.finish();
    if ending.pad {
        bytes.push(0);
    }
    for patch in [ending.data_size, ending.riff_size] {
        let at = patch.at as usize;
        bytes[at..at + 4].copy_from_slice(&patch.bytes);
    }
    bytes
}

fn write_one(spec: Spec, stamp: &Stamp, samples: &[f64]) -> Vec<u8> {
    let (bwf, bytes) = written(spec, stamp, samples);
    assert_eq!(bwf.frames(), samples.len() as u64 / spec.channels as u64);
    closed(bwf, bytes)
}

#[test]
fn the_chunks_add_up_to_the_file() {
    let spec = Spec {
        sample_rate: 48_000,
        channels: 3,
    };
    let bytes = write_one(spec, &stamp(), &[0.0; 33]);
    let chunks = chunks(&bytes);
    let ids: Vec<&str> = chunks.iter().map(|(id, _)| id.as_str()).collect();
    assert_eq!(ids, ["fmt ", "bext", "iXML", "data"]);
    assert_eq!(chunks[3].1.len(), 33 * 3);
}

#[test]
fn the_format_is_what_the_spec_asked_for() {
    let spec = Spec {
        sample_rate: 44_100,
        channels: 2,
    };
    let bytes = write_one(spec, &stamp(), &[0.0; 8]);
    let fmt = &chunks(&bytes)[0].1;
    assert_eq!(u16::from_le_bytes(fmt[0..2].try_into().unwrap()), 1);
    assert_eq!(u16::from_le_bytes(fmt[2..4].try_into().unwrap()), 2);
    assert_eq!(u32::from_le_bytes(fmt[4..8].try_into().unwrap()), 44_100);
    assert_eq!(u32::from_le_bytes(fmt[8..12].try_into().unwrap()), 44_100 * 6);
    assert_eq!(u16::from_le_bytes(fmt[12..14].try_into().unwrap()), 6);
    assert_eq!(u16::from_le_bytes(fmt[14..16].try_into().unwrap()), 24);
}

#[test]
fn the_timecode_lands_where_a_reader_looks_for_it() {
    let spec = Spec {
        sample_rate: 48_000,
        channels: 1,
    };
    let mut stamp = stamp();
    stamp.samples_since_midnight = 0x1_2345_6789;
    let bytes = write_one(spec, &stamp, &[0.0; 4]);
    let bext = &chunks(&bytes)[1].1;
    assert_eq!(bext.len(), 602);
    assert_eq!(u32::from_le_bytes(bext[338..342].try_into().unwrap()), 0x2345_6789);
    assert_eq!(u32::from_le_bytes(bext[342..346].try_into().unwrap()), 1);
    assert_eq!(u16::from_le_bytes(bext[346..348].try_into().unwrap()), 1);

    let text = |field: &[u8]| {
        String::from_utf8_lossy(field)
            .trim_end_matches('\0')
            .to_string()
    };
    assert_eq!(text(&bext[0..256]), "Ricki");
    assert_eq!(text(&bext[256..288]), "shokushu-rec");
    assert_eq!(text(&bext[288..320]), "");
    assert_eq!(text(&bext[320..330]), "2026-09-04");
    assert_eq!(text(&bext[330..338]), "11:37:40");
}

#[test]
fn the_frame_rate_survives_in_the_ixml() {
    let spec = Spec {
        sample_rate: 48_000,
        channels: 1,
    };
    let bytes = write_one(spec, &stamp(), &[0.0; 4]);
    let xml = String::from_utf8(chunks(&bytes)[2].1.clone()).unwrap();
    assert!(xml.contains("<TIMECODE_RATE>25/1</TIMECODE_RATE>"), "{xml}");
    assert!(xml.contains("<TIMECODE_FLAG>NDF</TIMECODE_FLAG>"), "{xml}");
    assert!(xml.contains("<FILE_SAMPLE_RATE>48000<"), "{xml}");
    assert!(
        xml.contains("<TIMESTAMP_SAMPLES_SINCE_MIDNIGHT_LO>2008660032<"),
        "{xml}"
    );
}

#[test]
fn a_drop_frame_rate_is_written_as_a_ratio() {
    let spec = Spec {
        sample_rate: 48_000,
        channels: 1,
    };
    let mut stamp = stamp();
    stamp.timecode = Timecode::new(1, 0, 0, 0, Rate::new(30, true));
    let bytes = write_one(spec, &stamp, &[0.0; 4]);
    let xml = String::from_utf8(chunks(&bytes)[2].1.clone()).unwrap();
    assert!(
        xml.contains("<TIMECODE_RATE>30000/1001</TIMECODE_RATE>"),
        "{xml}"
    );
    assert!(xml.contains("<TIMECODE_FLAG>DF</TIMECODE_FLAG>"), "{xml}");
}

#[test]
fn samples_since_midnight_counts_from_the_position() {
    let tc = Timecode::new(1, 0, 0, 0, Rate::whole(25));
    assert_eq!(samples_since_midnight(&tc, 48_000), Some(3600 * 48_000));

    let mut half = tc;
    half.subframe = Duration::from_micros(20_000);
    assert_eq!(samples_since_midnight(&half, 48_000), Some(3600 * 48_000 + 960));

    let df = Timecode::new(1, 0, 0, 0, Rate::new(30, true));
    assert_eq!(samples_since_midnight(&df, 48_000), None);
}

#[test]
fn samples_are_converted_and_clipping_is_counted() {
    let spec = Spec {
        sample_rate: 48_000,
        channels: 1,
    };
    let (bwf, bytes) = written(spec, &stamp(), &[0.0, 0.5, -0.5, 2.0, -2.0]);
    assert_eq!(bwf.clipped(), 2);
    let bytes = closed(bwf, bytes);

    let data = &chunks(&bytes)[3].1;
    let sample = |n: usize| {
        let b = &data[n * 3..n * 3 + 3];
        i32::from_le_bytes([b[0], b[1], b[2], if b[2] & 0x80 != 0 { 0xff } else { 0 }])
    };
    assert_eq!(sample(0), 0);
    assert_eq!(sample(1), 4_194_304);
    assert_eq!(sample(2), -4_194_304);
    assert_eq!(sample(3), 8_388_607);
    assert_eq!(sample(4), -8_388_608);
}

#[test]
fn escaped_text_holds_no_markup_and_reads_back() {
    for plain in ["", "Ricki", "<&>", "&lt;", "a < b && c > d", "&&amp;<<>"] {
        let out = escape(plain);
        assert!(!out.contains('<') && !out.contains('>'), "{out}");
        for (i, _) in out.match_indices('&') {
            let rest = &out[i..];
            assert!(
                rest.starts_with("&amp;") || rest.starts_with("&lt;") || rest.starts_with("&gt;"),
                "{out}"
            );
        }
        let back = out.replace("&lt;", "<").replace("&gt;", ">").replace("&amp;", "&");
        assert_eq!(back, plain);
    }
    assert_eq!(escape("<&>"), "&lt;&amp;&gt;");
    assert_eq!(escape("&lt;"), "&amp;lt;");
}
