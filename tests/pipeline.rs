use multimeter::acquisition::{query_command, Acquisition, FrameError};
use multimeter::decimal::NumberError;
use multimeter::frame::{sanitize, strip_filler};
use multimeter::reading::{
    contains_exponent_marker, normalize, normalize_bytes, parse_reading, NormalizationError,
    Reading,
};
use multimeter::text::bytes_to_text;

fn reading(units: i64) -> Reading {
    Reading::from_units(units)
}

#[test]
fn sanitize_removes_every_zero_byte_and_caps() {
    let frame = vec![0u8, b'1', 0, b'2', 0, 0, b'3'];
    assert_eq!(sanitize(&frame), b"123".to_vec());
    let long = b"0123456789ABCDEF".to_vec();
    assert_eq!(sanitize(&long), b"012345678".to_vec());
    assert_eq!(sanitize(&vec![0u8; 32]), Vec::<u8>::new());
    assert_eq!(sanitize(&Vec::new()), Vec::<u8>::new());
}

#[test]
fn sanitized_length_is_bounded_by_non_zero_bytes() {
    let frame = vec![0u8, 7, 0, 0, 9, 0];
    let out = sanitize(&frame);
    assert_eq!(out, vec![7u8, 9]);
    assert!(out.len() <= 2 && out.len() <= 9);
    assert!(out.iter().all(|&b| b != 0));
}

#[test]
fn scientific_frame_scenario() {
    let frame = b"1.234E-02\n\0\0\0".to_vec();
    assert_eq!(strip_filler(&frame), b"1.234E-02\n".to_vec());
    let clean = sanitize(&frame);
    assert_eq!(clean, b"1.234E-02".to_vec());
    let text = normalize(&clean).unwrap();
    assert_eq!(text, "0.01234000");
    assert_eq!(normalize(&strip_filler(&frame)).unwrap(), "0.01234000");
    assert_eq!(parse_reading(&text), Ok(reading(1_234_000)));
}

#[test]
fn timeout_frame_scenario() {
    let mut acq = Acquisition::new(reading(0), reading(1_000_000_000), 50, false, true);
    let out = acq.process_frame(&vec![0u8; 32]);
    assert_eq!(out.text, "");
    assert_eq!(out.error, Some(FrameError::Parse(NumberError::Malformed)));
    assert!(out.measurement.is_none());
    assert!(out.log.is_none());
    assert_eq!(acq.sequence(), 1);
    assert_eq!(acq.series().len(), 0);
    assert!(acq.histogram().bins().iter().all(|&c| c == 0));
}

#[test]
fn reading_frame_updates_histogram_series_and_log() {
    let mut acq = Acquisition::new(reading(0), reading(1_000_000_000), 50, true, true);
    assert!(acq.wants_query());
    let out = acq.process_frame(&b"5.0\0\0".to_vec());
    assert_eq!(out.text, "5.0");
    assert_eq!(out.error, None);
    let m = out.measurement.unwrap();
    assert_eq!(m.sequence, 1);
    assert_eq!(m.value, reading(500_000_000));
    assert_eq!(out.log, Some(reading(500_000_000)));
    assert_eq!(acq.histogram().bins()[25], 1);
    assert_eq!(acq.series().len(), 1);
    assert_eq!(acq.series().points()[0].value, reading(500_000_000));
}

#[test]
fn zero_reading_is_not_logged() {
    let mut acq = Acquisition::new(reading(0), reading(1_000_000_000), 50, false, true);
    let out = acq.process_frame(&b"0.000".to_vec());
    assert_eq!(out.measurement.unwrap().value, reading(0));
    assert_eq!(out.log, None);
    assert_eq!(acq.histogram().bins()[0], 1);
}

#[test]
fn logging_off_logs_nothing() {
    let mut acq = Acquisition::new(reading(0), reading(1_000_000_000), 50, false, false);
    assert!(!acq.wants_query());
    let out = acq.process_frame(&b"2.5".to_vec());
    assert_eq!(out.log, None);
    assert!(out.measurement.is_some());
}

#[test]
fn sequence_counts_every_frame() {
    let mut acq = Acquisition::new(reading(0), reading(1_000_000_000), 50, false, false);
    acq.process_frame(&b"1".to_vec());
    acq.process_frame(&vec![0u8; 4]);
    let out = acq.process_frame(&b"3".to_vec());
    assert_eq!(out.measurement.unwrap().sequence, 3);
    assert_eq!(acq.sequence(), 3);
    assert_eq!(acq.series().len(), 2);
    assert_eq!(acq.series().points()[1].sequence, 3);
}

#[test]
fn normalization_failure_is_reported() {
    let mut acq = Acquisition::new(reading(0), reading(1_000_000_000), 50, false, true);
    let out = acq.process_frame(&vec![0xffu8, b'E']);
    assert_eq!(
        out.error,
        Some(FrameError::Normalization(NormalizationError::InvalidEncoding))
    );
    assert_eq!(acq.series().len(), 0);
}

#[test]
fn query_command_bytes() {
    assert_eq!(query_command(), b"MEAS?\n".to_vec());
}

#[test]
fn normalize_passes_plain_text_through() {
    assert_eq!(normalize(&b"12.345".to_vec()).unwrap(), "12.345");
    assert_eq!(normalize(&Vec::new()).unwrap(), "");
    assert_eq!(normalize(&vec![0xc3u8, b'1']).unwrap(), "\u{c3}1");
}

#[test]
fn normalize_is_idempotent() {
    for input in [b"1.5e1".to_vec(), b"-7.25".to_vec(), b"abc".to_vec(), b"1e39".to_vec()] {
        let once = normalize(&input).unwrap();
        let twice = normalize(&once.clone().into_bytes()).unwrap();
        assert_eq!(once, twice);
    }
}

#[test]
fn normalize_scientific_gives_eight_fraction_digits() {
    assert_eq!(normalize(&b"-2.5e3".to_vec()).unwrap(), "-2500.00000000");
    assert_eq!(normalize(&b"1E+2".to_vec()).unwrap(), "100.00000000");
    assert_eq!(normalize(&b"1.013807E-01".to_vec()).unwrap(), "0.10138070");
    assert_eq!(normalize(&b"5e-9".to_vec()).unwrap(), "0.00000001");
    assert_eq!(normalize(&b"4e-9".to_vec()).unwrap(), "0.00000000");
    assert_eq!(normalize(&b".5e0".to_vec()).unwrap(), "0.50000000");
    let text = normalize(&b"3.14159e0".to_vec()).unwrap();
    let point = text.find('.').unwrap();
    assert_eq!(text.len() - point - 1, 8);
    assert_eq!(text, "3.14159000");
}

#[test]
fn normalize_trims_surrounding_white_space() {
    assert_eq!(normalize(&b" 1e1\r\n".to_vec()).unwrap(), "10.00000000");
}

#[test]
fn normalize_errors() {
    assert_eq!(
        normalize(&vec![0xffu8, b'e', b'1']),
        Err(NormalizationError::InvalidEncoding)
    );
    assert_eq!(
        normalize(&b"E".to_vec()),
        Err(NormalizationError::MalformedNumber)
    );
    assert_eq!(
        normalize(&b"1.2.3e1".to_vec()),
        Err(NormalizationError::MalformedNumber)
    );
    assert_eq!(
        normalize(&b"1e".to_vec()),
        Err(NormalizationError::MalformedNumber)
    );
}

#[test]
fn normalize_large_numbers_in_fixed_notation() {
    assert_eq!(
        normalize(&b"1e20".to_vec()).unwrap(),
        "100000000000000000000.00000000"
    );
    assert_eq!(
        normalize(&b"-3e20".to_vec()).unwrap(),
        "-300000000000000000000.00000000"
    );
    assert_eq!(normalize(&b"1e11".to_vec()).unwrap(), "100000000000.00000000");
    assert_eq!(
        normalize(&b"3.4e38".to_vec()).unwrap(),
        "340000000000000000000000000000000000000.00000000"
    );
    assert_eq!(normalize(&b"1e39".to_vec()).unwrap(), "inf");
    assert_eq!(normalize(&b"-1e39".to_vec()).unwrap(), "-inf");
    assert_eq!(normalize(&b"1e99999".to_vec()).unwrap(), "inf");
    assert_eq!(normalize(&b"1e-99999".to_vec()).unwrap(), "0.00000000");
}

#[test]
fn normalize_bytes_falls_back_to_input() {
    assert_eq!(normalize_bytes(&b"1e2".to_vec()), b"100.00000000".to_vec());
    assert_eq!(normalize_bytes(&b"xyzE".to_vec()), b"xyzE".to_vec());
    assert_eq!(normalize_bytes(&b"42".to_vec()), b"42".to_vec());
}

#[test]
fn exponent_marker_detection() {
    assert!(contains_exponent_marker(&b"1e3".to_vec()));
    assert!(contains_exponent_marker(&b"1E3".to_vec()));
    assert!(!contains_exponent_marker(&b"123".to_vec()));
}

#[test]
fn bytes_become_characters_one_for_one() {
    assert_eq!(bytes_to_text(&b"ab".to_vec()), "ab");
    assert_eq!(bytes_to_text(&vec![0xe9u8]), "\u{e9}");
}

#[test]
fn parse_reading_values_and_errors() {
    assert_eq!(parse_reading("12.345"), Ok(reading(1_234_500_000)));
    assert_eq!(parse_reading("-0.5"), Ok(reading(-50_000_000)));
    assert_eq!(parse_reading("+3"), Ok(reading(300_000_000)));
    assert_eq!(parse_reading("0.123456789"), Ok(reading(12_345_679)));
    assert_eq!(parse_reading("2e1"), Ok(reading(2_000_000_000)));
    assert_eq!(parse_reading(""), Err(NumberError::Malformed));
    assert_eq!(parse_reading("12.345\n"), Err(NumberError::Malformed));
    assert_eq!(parse_reading("abc"), Err(NumberError::Malformed));
    assert_eq!(parse_reading("."), Err(NumberError::Malformed));
    assert_eq!(parse_reading("100000000000"), Err(NumberError::OutOfRange));
}

#[test]
fn fixed_text_of_readings() {
    assert_eq!(reading(-1).to_fixed_text(), "-0.00000001");
    assert_eq!(reading(1_234_000).to_fixed_text(), "0.01234000");
    assert_eq!(reading(0).to_fixed_text(), "0.00000000");
    assert!(reading(0).is_zero());
    assert_eq!(reading(5).units(), 5);
}
