use haversine_core::metrics::{
    decimal, distance_bytes, latin1_string, parse_unsigned, read_distances_from_file,
    read_metrics_line, read_run_metrics, save_run_metrics, starts_with, MetricsError, RunMetrics,
};

fn decode(text: &str) -> Option<u64> {
    text.parse::<f64>().ok().map(f64::to_bits)
}

fn render(bits: u64) -> String {
    f64::from_bits(bits).to_string()
}

fn lines(text: &str) -> Vec<Vec<u8>> {
    text.lines().map(|line| line.as_bytes().to_vec()).collect()
}

const ZERO: RunMetrics = RunMetrics { seed: 0, points: 0, est_distance: 0 };

#[test]
fn distances_are_read_eight_bytes_at_a_time() {
    let mut bytes = Vec::new();
    bytes.extend_from_slice(&1.5f64.to_le_bytes());
    bytes.extend_from_slice(&(-3.99f64).to_le_bytes());
    let distances = read_distances_from_file(&bytes);
    assert_eq!(distances, vec![1.5f64.to_bits(), (-3.99f64).to_bits()]);
    assert_eq!(f64::from_bits(distances[1]), -3.99);
}

#[test]
fn distance_record_is_little_endian() {
    assert_eq!(
        read_distances_from_file(&[0x01, 0x02, 0x03, 0x04, 0x05, 0x06, 0x07, 0x08]),
        vec![0x0807_0605_0403_0201]
    );
    assert_eq!(distance_bytes(&[0x0807_0605_0403_0201]), vec![1, 2, 3, 4, 5, 6, 7, 8]);
}

#[test]
fn incomplete_last_record_is_left_out() {
    let mut bytes = 2.0f64.to_le_bytes().to_vec();
    bytes.extend_from_slice(&[1, 2, 3, 4, 5, 6, 7]);
    assert_eq!(read_distances_from_file(&bytes), vec![2.0f64.to_bits()]);
    assert_eq!(read_distances_from_file(&[1, 2, 3]), Vec::<u64>::new());
    assert_eq!(read_distances_from_file(&[]), Vec::<u64>::new());
}

#[test]
fn distances_round_trip_through_their_bytes() {
    let distances = vec![0, 1, u64::MAX, 100.25f64.to_bits(), f64::NAN.to_bits()];
    let bytes = distance_bytes(&distances);
    assert_eq!(bytes.len(), 40);
    assert_eq!(read_distances_from_file(&bytes), distances);
    assert_eq!(distance_bytes(&[]), Vec::<u8>::new());
}

#[test]
fn metrics_file_is_read() {
    let read = read_run_metrics(
        &lines("Seed: 12345\nPoints: 10000000\nEst Distance: 1234.5678\n"),
        decode,
    );
    assert_eq!(
        read,
        Ok(RunMetrics { seed: 12345, points: 10_000_000, est_distance: 1234.5678f64.to_bits() })
    );
}

#[test]
fn missing_values_are_zero_and_other_lines_are_passed_over() {
    assert_eq!(read_run_metrics(&lines(""), decode), Ok(ZERO));
    assert_eq!(
        read_run_metrics(&lines("# run\nPoints: 7\nseed: 3\n Seed: 4\n"), decode),
        Ok(RunMetrics { seed: 0, points: 7, est_distance: 0 })
    );
}

#[test]
fn last_line_of_a_name_wins() {
    assert_eq!(
        read_run_metrics(&lines("Seed: 1\nSeed: 2\nEst Distance: 1\nEst Distance: 2.5"), decode),
        Ok(RunMetrics { seed: 2, points: 0, est_distance: 2.5f64.to_bits() })
    );
}

#[test]
fn value_that_cannot_be_read_is_an_error() {
    assert_eq!(read_run_metrics(&lines("Seed: abc"), decode), Err(MetricsError::Seed));
    assert_eq!(read_run_metrics(&lines("Seed: "), decode), Err(MetricsError::Seed));
    assert_eq!(read_run_metrics(&lines("Points: -1"), decode), Err(MetricsError::Points));
    assert_eq!(read_run_metrics(&lines("Points: 1 "), decode), Err(MetricsError::Points));
    assert_eq!(
        read_run_metrics(&lines("Est Distance: far"), decode),
        Err(MetricsError::EstDistance)
    );
}

#[test]
fn first_error_ends_the_reading() {
    assert_eq!(
        read_run_metrics(&lines("Seed: 1\nPoints: x\nSeed: y\n"), decode),
        Err(MetricsError::Points)
    );
}

#[test]
fn one_line_sets_one_value() {
    let metrics = RunMetrics { seed: 1, points: 2, est_distance: 3 };
    assert_eq!(
        read_metrics_line(metrics, b"Seed: 9", &decode),
        Ok(RunMetrics { seed: 9, points: 2, est_distance: 3 })
    );
    assert_eq!(
        read_metrics_line(metrics, b"Points: 9", &decode),
        Ok(RunMetrics { seed: 1, points: 9, est_distance: 3 })
    );
    assert_eq!(
        read_metrics_line(metrics, b"Est Distance: 0.5", &decode),
        Ok(RunMetrics { seed: 1, points: 2, est_distance: 0.5f64.to_bits() })
    );
    assert_eq!(read_metrics_line(metrics, b"Seed:9", &decode), Ok(metrics));
}

#[test]
fn unsigned_numbers() {
    assert_eq!(parse_unsigned(b"0"), Some(0));
    assert_eq!(parse_unsigned(b"007"), Some(7));
    assert_eq!(parse_unsigned(b"+42"), Some(42));
    assert_eq!(parse_unsigned(b"42"), Some(42));
    assert_eq!(parse_unsigned(b"18446744073709551615"), Some(u64::MAX));
    assert_eq!(parse_unsigned(b"18446744073709551616"), None);
    assert_eq!(parse_unsigned(b"99999999999999999999999"), None);
    assert_eq!(parse_unsigned(b""), None);
    assert_eq!(parse_unsigned(b"+"), None);
    assert_eq!(parse_unsigned(b"-1"), None);
    assert_eq!(parse_unsigned(b"++1"), None);
    assert_eq!(parse_unsigned(b"1+"), None);
    assert_eq!(parse_unsigned(b"12a"), None);
    assert_eq!(parse_unsigned(b" 1"), None);
}

#[test]
fn unsigned_numbers_agree_with_the_standard_parser() {
    for text in ["0", "+0", "1", "+", "", "-0", "1e3", "0x10", "18446744073709551615", "1_0"] {
        assert_eq!(parse_unsigned(text.as_bytes()), text.parse::<u64>().ok(), "{:?}", text);
    }
}

#[test]
fn prefixes() {
    assert!(starts_with(b"Seed: 1", b"Seed: "));
    assert!(starts_with(b"Seed: ", b"Seed: "));
    assert!(starts_with(b"abc", b""));
    assert!(!starts_with(b"Seed:", b"Seed: "));
    assert!(!starts_with(b"seed: 1", b"Seed: "));
    assert!(!starts_with(b"", b"S"));
}

#[test]
fn bytes_as_characters() {
    assert_eq!(latin1_string(b"1.5"), "1.5");
    assert_eq!(latin1_string(&[0x41, 0xe9, 0xff]), "A\u{e9}\u{ff}");
    assert_eq!(latin1_string(b""), "");
}

#[test]
fn numbers_in_decimal_digits() {
    assert_eq!(decimal(0), b"0");
    assert_eq!(decimal(9), b"9");
    assert_eq!(decimal(10), b"10");
    assert_eq!(decimal(1234567890), b"1234567890");
    assert_eq!(decimal(u64::MAX), b"18446744073709551615");
    for n in [0, 7, 10, 99, 100, 12345, u64::MAX - 1, u64::MAX] {
        assert_eq!(decimal(n), n.to_string().into_bytes());
        assert_eq!(parse_unsigned(&decimal(n)), Some(n));
    }
}

#[test]
fn metrics_file_is_written() {
    let metrics =
        RunMetrics { seed: 12345, points: 10_000_000, est_distance: 1234.5678f64.to_bits() };
    assert_eq!(
        save_run_metrics(metrics, render),
        vec![
            b"Seed: 12345".to_vec(),
            b"Points: 10000000".to_vec(),
            b"Est Distance: 1234.5678".to_vec(),
        ]
    );
}

#[test]
fn metrics_round_trip_through_their_file() {
    for metrics in [
        ZERO,
        RunMetrics { seed: u64::MAX, points: 1, est_distance: (-0.5f64).to_bits() },
        RunMetrics { seed: 42, points: u64::MAX, est_distance: 1e300f64.to_bits() },
    ] {
        let written = save_run_metrics(metrics, render);
        assert_eq!(read_run_metrics(&written, decode), Ok(metrics));
    }
}
