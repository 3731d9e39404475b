use antinode::loopfile::{
    parse, Format, LoopError, LoopHeader, LoopMeta, BLOCK_SAMPLES, HEADER_PREFIX, JUNK_LABEL,
};

/// The first 92 bytes of `/Loops/loop0031.wav`, read off the reference
/// instrument.
const LOOP0031: [u8; 92] = [
    0x52, 0x49, 0x46, 0x46, 0x54, 0x50, 0x0b, 0x00, // RIFF, size
    0x57, 0x41, 0x56, 0x45, // WAVE
    0x4a, 0x55, 0x4e, 0x4b, 0x28, 0x00, 0x00, 0x00, // JUNK, 40
    0x48, 0x79, 0x56, 0x69, 0x62, 0x65, 0x20, 0x6c, // "HyVibe l"
    0x6f, 0x6f, 0x70, 0x20, 0x66, 0x69, 0x6c, 0x65, // "oop file"
    0x01, 0x00, 0x00, 0x00, // 1
    0xc8, 0x00, 0x00, 0x00, // 200
    0x07, 0x00, 0x00, 0x00, // 7
    0x08, 0x00, 0x00, 0x00, // 8
    0x04, 0x00, 0x00, 0x00, // 4
    0x00, 0x00, 0x00, 0x00, // 0
    0x66, 0x6d, 0x74, 0x20, 0x10, 0x00, 0x00, 0x00, // fmt , 16
    0x01, 0x00, // PCM
    0x01, 0x00, // mono
    0x44, 0xac, 0x00, 0x00, // 44100
    0x88, 0x58, 0x01, 0x00, // byte rate
    0x02, 0x00, // block align
    0x10, 0x00, // 16 bits
    0x64, 0x61, 0x74, 0x61, 0x00, 0x50, 0x0b, 0x00, // data, 741376
];

fn reference() -> LoopHeader {
    parse(&LOOP0031).expect("the reference header must parse")
}

#[test]
fn the_reference_header_reads_as_the_file_it_came_from() {
    let h = reference();
    assert_eq!(h.format.format_tag, 1);
    assert_eq!(h.format.channels, 1);
    assert_eq!(h.format.sample_rate, 44_100);
    assert_eq!(h.format.bits_per_sample, 16);
    assert_eq!(h.audio_bytes, 741_376);
    assert_eq!(h.audio_offset, HEADER_PREFIX);
    assert_eq!(h.samples(), 370_688);
}

#[test]
fn the_riff_size_agrees_with_what_the_instrument_reported() {
    assert_eq!(reference().file_bytes, 741_468);
}

#[test]
fn the_vendor_metadata_is_the_six_values_observed() {
    let m = reference().meta.expect("the JUNK chunk is labelled");
    assert_eq!(m.version, 1);
    assert_eq!(m.tempo_bpm, 200);
    assert_eq!(m.length_first, 7);
    assert_eq!(m.den, 8);
    assert_eq!(m.length_second, 4);
    assert_eq!(m.trailing, 0);
    assert_eq!(m.beats(), 28);
}

#[test]
fn the_tempo_predicts_the_audio_length() {
    let h = reference();
    assert_eq!(h.tempo_agrees_with_audio(), Some(true));
    assert_eq!(h.meta.unwrap().nominal_samples(44_100), Some(370_440));
    assert_eq!(h.meta.unwrap().expected_samples(44_100), Some(370_688));
}

#[test]
fn the_block_rounding_is_what_closes_the_gap() {
    let m = reference().meta.unwrap();
    let nominal = m.nominal_samples(44_100).unwrap();
    assert_ne!(nominal % u64::from(BLOCK_SAMPLES), 0, "nothing to round");
    assert_eq!(m.expected_samples(44_100).unwrap() - nominal, 248);
}

#[test]
fn two_thousand_and_forty_eight_is_the_largest_block_that_divides_it() {
    let samples = u64::from(reference().samples());
    assert_eq!(samples % u64::from(BLOCK_SAMPLES), 0);
    assert_ne!(samples % (u64::from(BLOCK_SAMPLES) * 2), 0);
}

#[test]
fn no_other_pairing_of_the_values_fits_the_audio() {
    let m = reference().meta.unwrap();
    let actual = f64::from(reference().samples()) / 44_100.0;

    let seconds = |beats: u32| f64::from(beats) * 60.0 / f64::from(m.tempo_bpm);
    assert!((seconds(7 * 4) - actual).abs() < 0.5, "7x4 must fit");
    assert!((seconds(7 * 8) - actual).abs() > 0.5, "7x8 must not fit");
    assert!((seconds(8 * 4) - actual).abs() > 0.5, "8x4 must not fit");
}

#[test]
fn a_wav_without_the_label_parses_but_carries_no_metadata() {
    let mut bytes = LOOP0031;
    // Break the label, leaving a well-formed JUNK chunk of the right size.
    bytes[20] = b'X';
    let h = parse(&bytes).unwrap();
    assert!(h.meta.is_none());
    assert_eq!(h.tempo_agrees_with_audio(), None);
    assert_eq!(h.samples(), 370_688);
}

#[test]
fn a_short_read_is_reported_as_truncation_not_as_a_bad_file() {
    for len in [0usize, 4, 11, 12, 40, 60, 80, 91] {
        let err = parse(&LOOP0031[..len]).unwrap_err();
        assert!(
            matches!(err, LoopError::Truncated { .. }),
            "{len} bytes gave {err:?}"
        );
    }
    assert!(parse(&LOOP0031).is_ok(), "the full prefix must suffice");
}

#[test]
fn something_that_is_not_a_wav_is_refused() {
    let mut bytes = LOOP0031;
    bytes[0] = b'X';
    assert_eq!(parse(&bytes), Err(LoopError::NotRiffWave));
}

#[test]
fn an_odd_length_chunk_is_padded_before_the_next_one() {
    let mut bytes = Vec::new();
    bytes.extend_from_slice(b"RIFF");
    bytes.extend_from_slice(&40u32.to_le_bytes());
    bytes.extend_from_slice(b"WAVE");
    // A three-byte chunk, padded to four.
    bytes.extend_from_slice(b"odd ");
    bytes.extend_from_slice(&3u32.to_le_bytes());
    bytes.extend_from_slice(&[1, 2, 3, 0]);
    bytes.extend_from_slice(b"fmt ");
    bytes.extend_from_slice(&16u32.to_le_bytes());
    bytes.extend_from_slice(&1u16.to_le_bytes());
    bytes.extend_from_slice(&2u16.to_le_bytes());
    bytes.extend_from_slice(&48_000u32.to_le_bytes());
    bytes.extend_from_slice(&192_000u32.to_le_bytes());
    bytes.extend_from_slice(&4u16.to_le_bytes());
    bytes.extend_from_slice(&16u16.to_le_bytes());
    bytes.extend_from_slice(b"data");
    bytes.extend_from_slice(&8u32.to_le_bytes());

    let h = parse(&bytes).unwrap();
    assert_eq!(h.format.sample_rate, 48_000);
    assert_eq!(h.format.channels, 2);
    assert_eq!(h.audio_bytes, 8);
    // Two channels of 16 bits is four bytes per frame.
    assert_eq!(h.samples(), 2);
}

#[test]
fn a_zero_tempo_does_not_divide_by_zero() {
    let m = LoopMeta {
        version: 1,
        tempo_bpm: 0,
        length_first: 4,
        den: 8,
        length_second: 4,
        trailing: 0,
    };
    assert_eq!(m.nominal_samples(44_100), None);
    assert_eq!(m.expected_samples(44_100), None);
}

// ---------------------------------------------------------------------------

#[test]
fn a_longer_read_keeps_the_header_a_prefix_gave() {
    let mut file = LOOP0031.to_vec();
    file.extend_from_slice(&[0x11; 64]);
    assert_eq!(parse(&file), parse(&LOOP0031));
}

#[test]
fn every_short_prefix_of_the_reference_is_truncation() {
    for len in 0..HEADER_PREFIX {
        assert_eq!(
            parse(&LOOP0031[..len]),
            Err(LoopError::Truncated { got: len }),
            "{len}"
        );
    }
}

#[test]
fn missing_chunks_in_a_full_prefix_are_named() {
    let mut no_fmt = LOOP0031;
    no_fmt[60] = b'x';
    assert_eq!(parse(&no_fmt), Err(LoopError::NoFormat));
    let mut no_data = LOOP0031;
    no_data[84] = b'x';
    assert_eq!(parse(&no_data), Err(LoopError::NoData));
}

#[test]
fn a_short_fmt_chunk_is_truncation() {
    let mut bytes = Vec::new();
    bytes.extend_from_slice(b"RIFFxxxxWAVEfmt ");
    bytes.extend_from_slice(&16u32.to_le_bytes());
    bytes.extend_from_slice(&[0u8; 10]);
    bytes.extend_from_slice(&[0u8; 80]);
    let cut = &bytes[..30];
    assert_eq!(parse(cut), Err(LoopError::Truncated { got: 30 }));
}

#[test]
fn the_last_fmt_and_junk_before_data_win() {
    let mut bytes = Vec::new();
    bytes.extend_from_slice(b"RIFF");
    bytes.extend_from_slice(&100u32.to_le_bytes());
    bytes.extend_from_slice(b"WAVE");
    // A labelled JUNK, then an unlabelled one: the second clears the first.
    bytes.extend_from_slice(&LOOP0031[12..60]);
    bytes.extend_from_slice(b"JUNK");
    bytes.extend_from_slice(&2u32.to_le_bytes());
    bytes.extend_from_slice(&[0, 0]);
    bytes.extend_from_slice(&LOOP0031[60..84]);
    bytes.extend_from_slice(b"fmt ");
    bytes.extend_from_slice(&16u32.to_le_bytes());
    bytes.extend_from_slice(&1u16.to_le_bytes());
    bytes.extend_from_slice(&3u16.to_le_bytes());
    bytes.extend_from_slice(&8_000u32.to_le_bytes());
    bytes.extend_from_slice(&0u32.to_le_bytes());
    bytes.extend_from_slice(&0u16.to_le_bytes());
    bytes.extend_from_slice(&24u16.to_le_bytes());
    bytes.extend_from_slice(b"data");
    bytes.extend_from_slice(&18u32.to_le_bytes());
    let h = parse(&bytes).unwrap();
    assert!(h.meta.is_none());
    assert_eq!(h.format.channels, 3);
    assert_eq!(h.format.frame_bytes(), 9);
    assert_eq!(h.samples(), 2);
    assert_eq!(h.audio_offset, bytes.len());
    assert_eq!(h.file_bytes, 108);
}

#[test]
fn beats_saturate_rather_than_wrap() {
    let m = LoopMeta {
        version: 1,
        tempo_bpm: 120,
        length_first: 0x1_0000,
        den: 8,
        length_second: 0x1_0000,
        trailing: 0,
    };
    assert_eq!(m.beats(), u32::MAX);
}

#[test]
fn nominal_and_expected_samples_have_exact_values() {
    let m = LoopMeta {
        version: 1,
        tempo_bpm: 90,
        length_first: 3,
        den: 8,
        length_second: 4,
        trailing: 0,
    };
    // 12 beats at 90 BPM is 8 s: 384,000 samples at 48 kHz, which is
    // 187.5 blocks, so 188 blocks are written.
    assert_eq!(m.nominal_samples(48_000), Some(384_000));
    assert_eq!(m.expected_samples(48_000), Some(188 * 2048));
    let aligned = LoopMeta { tempo_bpm: 60, length_first: 1, length_second: 1, ..m };
    assert_eq!(aligned.nominal_samples(2048), Some(2048));
    assert_eq!(aligned.expected_samples(2048), Some(2048));
}

#[test]
fn a_frame_rounds_bits_up_to_whole_bytes() {
    let f = Format {
        format_tag: 1,
        channels: 2,
        sample_rate: 44_100,
        bits_per_sample: 12,
    };
    assert_eq!(f.frame_bytes(), 4);
    let silent = LoopHeader {
        format: Format { channels: 0, ..f },
        audio_bytes: 100,
        audio_offset: 44,
        file_bytes: 144,
        meta: None,
    };
    assert_eq!(silent.samples(), 0);
}

#[test]
fn error_messages_name_the_problem() {
    assert_eq!(LoopError::NotRiffWave.message(), "not a RIFF/WAVE file");
    assert_eq!(
        LoopError::Truncated { got: 40 }.message(),
        "header incomplete in 40 bytes; read at least 92"
    );
    assert_eq!(LoopError::NoFormat.message(), "no fmt chunk");
    assert_eq!(LoopError::NoData.message(), "no data chunk");
}

#[test]
fn the_junk_label_is_the_vendors_text() {
    assert_eq!(&JUNK_LABEL, b"HyVibe loop file");
    assert_eq!(&LOOP0031[20..36], &JUNK_LABEL[..]);
}
