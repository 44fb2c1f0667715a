use vstd::prelude::*;
use vstd::bytes::{
    lemma_auto_spec_u64_to_from_le_bytes, spec_u64_from_le_bytes, spec_u64_to_le_bytes,
    u64_from_le_bytes, u64_to_le_bytes,
};
use vstd::slice::slice_subrange;
use vstd::string::StrSliceExecFns;
use vstd::utf8::encode_utf8;
use crate::document::latin1;
use crate::lexer::{Decoding, Rendering, decodes_as, renders_as};

verus! {

/// The record at position `i` of a distance file: eight bytes, least
/// significant first.
pub open spec fn record_at(bytes: Seq<u8>, i: int) -> u64 {
    spec_u64_from_le_bytes(bytes.subrange(8 * i, 8 * i + 8))
}

/// The records of a distance file. Bytes after the last whole record are
/// left out.
pub open spec fn distances_of(bytes: Seq<u8>) -> Seq<u64> {
    Seq::new((bytes.len() / 8) as nat, |i: int| record_at(bytes, i))
}

/// The bytes of the first `k` records.
pub open spec fn distance_bytes_of(distances: Seq<u64>, k: int) -> Seq<u8>
    decreases k,
{
    if k <= 0 {
        Seq::empty()
    } else {
        distance_bytes_of(distances, k - 1) + spec_u64_to_le_bytes(distances[k - 1])
    }
}

/// The first `k` records take `8 * k` bytes.
pub proof fn lemma_distance_bytes_len(distances: Seq<u64>, k: int)
    requires
        0 <= k <= distances.len(),
    ensures
        distance_bytes_of(distances, k).len() == 8 * k,
    decreases k,
{
    lemma_auto_spec_u64_to_from_le_bytes();
    if k > 0 {
        lemma_distance_bytes_len(distances, k - 1);
    }
}

/// Reads the distances out of the contents of a distance file. Each
/// distance is the bit pattern of a double-precision value.
pub fn read_distances_from_file(bytes: &[u8]) -> (distances: Vec<u64>)
    ensures
        distances@ == distances_of(bytes@),
{
    let count = bytes.len() / 8;
    let mut distances: Vec<u64> = Vec::with_capacity(count);
    let mut i: usize = 0;
    while i < count
        invariant
            i <= count,
            count == bytes@.len() / 8,
            8 * count <= bytes@.len() <= usize::MAX,
            distances@.len() == i,
            forall|j: int| 0 <= j < i ==> distances@[j] == record_at(bytes@, j),
        decreases count - i,
    {
        let from = i * 8;
        let record = slice_subrange(bytes, from, from + 8);
        distances.push(u64_from_le_bytes(record));
        i += 1;
    }
    distances
}

/// The contents of the distance file that holds `distances`.
pub fn distance_bytes(distances: &[u64]) -> (bytes: Vec<u8>)
    ensures
        bytes@ == distance_bytes_of(distances@, distances@.len() as int),
{
    let mut bytes: Vec<u8> = Vec::new();
    let mut i: usize = 0;
    while i < distances.len()
        invariant
            i <= distances.len(),
            bytes@ == distance_bytes_of(distances@, i as int),
        decreases distances.len() - i,
    {
        let mut record = u64_to_le_bytes(distances[i]);
        bytes.append(&mut record);
        i += 1;
    }
    bytes
}

/// What was written to a distance file is what is read from it.
pub proof fn lemma_distances_round_trip(distances: Seq<u64>)
    ensures
        distances_of(distance_bytes_of(distances, distances.len() as int)) == distances,
{
    let n = distances.len() as int;
    let bytes = distance_bytes_of(distances, n);
    lemma_distance_bytes_len(distances, n);
    assert forall|i: int| 0 <= i < n implies record_at(bytes, i) == distances[i] by {
        lemma_record_in_bytes(distances, n, i);
    }
}

/// The record at position `i` of the bytes of `k` records is the `i`-th
/// distance.
proof fn lemma_record_in_bytes(distances: Seq<u64>, k: int, i: int)
    requires
        0 <= i < k <= distances.len(),
    ensures
        record_at(distance_bytes_of(distances, k), i) == distances[i],
    decreases k,
{
    lemma_auto_spec_u64_to_from_le_bytes();
    lemma_distance_bytes_len(distances, k - 1);
    let head = distance_bytes_of(distances, k - 1);
    let last = spec_u64_to_le_bytes(distances[k - 1]);
    if i == k - 1 {
        assert((head + last).subrange(8 * i, 8 * i + 8) == last);
    } else {
        lemma_record_in_bytes(distances, k - 1, i);
        assert((head + last).subrange(8 * i, 8 * i + 8) == head.subrange(8 * i, 8 * i + 8));
    }
}

/// The metrics of a run: the seed of the generator, the number of pairs,
/// and the sum of the distances as the bit pattern of a double-precision
/// value.
#[derive(Clone, Copy, Debug, PartialEq, Eq)]
pub struct RunMetrics {
    pub seed: u64,
    pub points: u64,
    pub est_distance: u64,
}

/// The value of a metrics file that could not be read.
#[derive(Clone, Copy, Debug, PartialEq, Eq)]
pub enum MetricsError {
    /// What follows `Seed: ` is no unsigned number of 64 bits.
    Seed,
    /// What follows `Points: ` is no unsigned number of 64 bits.
    Points,
    /// What follows `Est Distance: ` does not decode to a number.
    EstDistance,
}

/// The bytes `Seed: `.
pub open spec fn seed_prefix() -> Seq<u8> {
    seq![0x53u8, 0x65u8, 0x65u8, 0x64u8, 0x3au8, 0x20u8]
}

/// The bytes `Points: `.
pub open spec fn points_prefix() -> Seq<u8> {
    seq![0x50u8, 0x6fu8, 0x69u8, 0x6eu8, 0x74u8, 0x73u8, 0x3au8, 0x20u8]
}

/// The bytes `Est Distance: `.
pub open spec fn est_distance_prefix() -> Seq<u8> {
    seq![
        0x45u8,
        0x73u8,
        0x74u8,
        0x20u8,
        0x44u8,
        0x69u8,
        0x73u8,
        0x74u8,
        0x61u8,
        0x6eu8,
        0x63u8,
        0x65u8,
        0x3au8,
        0x20u8,
    ]
}

/// The line begins with the prefix.
pub open spec fn has_prefix(line: Seq<u8>, prefix: Seq<u8>) -> bool {
    prefix.len() <= line.len() && line.take(prefix.len() as int) == prefix
}

/// All bytes are decimal digits.
pub open spec fn all_digits(digits: Seq<u8>) -> bool {
    forall|i: int| 0 <= i < digits.len() ==> 0x30 <= #[trigger] digits[i] <= 0x39
}

/// The number that decimal digits write.
pub open spec fn decimal_value(digits: Seq<u8>) -> nat
    decreases digits.len(),
{
    if digits.len() == 0 {
        0
    } else {
        (10 * decimal_value(digits.drop_last()) + (digits.last() - 0x30)) as nat
    }
}

/// The unsigned number of 64 bits that a text writes: decimal digits, at
/// least one, after an optional `+`, with a value that fits. Any other text
/// writes none.
pub open spec fn unsigned_of(text: Seq<u8>) -> Option<u64> {
    let digits = if text.len() > 0 && text[0] == 0x2b {
        text.skip(1)
    } else {
        text
    };
    if digits.len() > 0 && all_digits(digits) && decimal_value(digits) <= u64::MAX {
        Some(decimal_value(digits) as u64)
    } else {
        None
    }
}

/// The metrics after one more line of a metrics file. A line that begins
/// with `Seed: `, `Points: ` or `Est Distance: ` sets the value of that
/// name, or is an error where what follows cannot be read; any other line
/// is passed over.
pub open spec fn after_line(metrics: RunMetrics, line: Seq<u8>, dec: Decoding) -> Result<
    RunMetrics,
    MetricsError,
> {
    if has_prefix(line, seed_prefix()) {
        match unsigned_of(line.skip(6)) {
            Some(seed) => Ok(RunMetrics { seed, ..metrics }),
            None => Err(MetricsError::Seed),
        }
    } else if has_prefix(line, points_prefix()) {
        match unsigned_of(line.skip(8)) {
            Some(points) => Ok(RunMetrics { points, ..metrics }),
            None => Err(MetricsError::Points),
        }
    } else if has_prefix(line, est_distance_prefix()) {
        match dec(latin1(line.skip(14))) {
            Some(est_distance) => Ok(RunMetrics { est_distance, ..metrics }),
            None => Err(MetricsError::EstDistance),
        }
    } else {
        Ok(metrics)
    }
}

/// The metrics after the first `k` lines of a metrics file, all values 0
/// at the start. The first line in error ends the reading.
pub open spec fn metrics_of(lines: Seq<Seq<u8>>, dec: Decoding, k: int) -> Result<
    RunMetrics,
    MetricsError,
>
    decreases k,
{
    if k <= 0 {
        Ok(RunMetrics { seed: 0, points: 0, est_distance: 0 })
    } else {
        match metrics_of(lines, dec, k - 1) {
            Err(e) => Err(e),
            Ok(metrics) => after_line(metrics, lines[k - 1], dec),
        }
    }
}

/// Longer digit text writes no smaller number.
pub proof fn lemma_decimal_value_grows(digits: Seq<u8>, i: int, j: int)
    requires
        0 <= i <= j <= digits.len(),
        all_digits(digits),
    ensures
        decimal_value(digits.take(i)) <= decimal_value(digits.take(j)),
    decreases j - i,
{
    if i < j {
        lemma_decimal_value_grows(digits, i, j - 1);
        assert(digits.take(j).drop_last() == digits.take(j - 1));
        assert(0x30 <= digits[j - 1]);
    }
}

/// Whether the line begins with the prefix.
pub fn starts_with(line: &[u8], prefix: &[u8]) -> (found: bool)
    ensures
        found == has_prefix(line@, prefix@),
{
    if prefix.len() > line.len() {
        return false;
    }
    let mut i: usize = 0;
    while i < prefix.len()
        invariant
            i <= prefix.len() <= line.len(),
            forall|j: int| 0 <= j < i ==> line@[j] == prefix@[j],
        decreases prefix.len() - i,
    {
        if line[i] != prefix[i] {
            assert(line@.take(prefix@.len() as int)[i as int] != prefix@[i as int]);
            return false;
        }
        i += 1;
    }
    assert(line@.take(prefix@.len() as int) == prefix@);
    true
}

/// Reads an unsigned number of 64 bits.
pub fn parse_unsigned(text: &[u8]) -> (number: Option<u64>)
    ensures
        number == unsigned_of(text@),
{
    let mut start: usize = 0;
    if start < text.len() && text[start] == 0x2b {
        start += 1;
    }
    let ghost digits = text@.skip(start as int);
    assert(text@.skip(0) == text@);
    if start == text.len() {
        return None;
    }
    let mut value: u64 = 0;
    let mut i: usize = start;
    assert(digits.take(0) == Seq::<u8>::empty());
    while i < text.len()
        invariant
            start <= i <= text.len(),
            digits == text@.skip(start as int),
            unsigned_of(text@) == if digits.len() > 0 && all_digits(digits) && decimal_value(
                digits,
            ) <= u64::MAX {
                Some(decimal_value(digits) as u64)
            } else {
                None
            },
            all_digits(digits.take(i - start)),
            value == decimal_value(digits.take(i - start)),
        decreases text.len() - i,
    {
        let b = text[i];
        let ghost k = i - start;
        assert(digits[k] == b);
        assert(digits.take(k + 1).drop_last() == digits.take(k));
        if b < 0x30 || b > 0x39 {
            assert(!all_digits(digits));
            return None;
        }
        assert(all_digits(digits.take(k + 1))) by {
            assert forall|j: int| 0 <= j < k + 1 implies 0x30 <= #[trigger] digits.take(k + 1)[j]
                <= 0x39 by {
                if j < k {
                    assert(digits.take(k)[j] == digits.take(k + 1)[j]);
                }
            }
        }
        let next = match value.checked_mul(10) {
            Some(tens) => tens.checked_add((b - 0x30) as u64),
            None => None,
        };
        match next {
            Some(n) => {
                value = n;
            },
            None => {
                proof {
                    assert(decimal_value(digits.take(k + 1)) > u64::MAX);
                    if all_digits(digits) {
                        lemma_decimal_value_grows(digits, k + 1, digits.len() as int);
                        assert(digits.take(digits.len() as int) == digits);
                    }
                }
                return None;
            },
        }
        i += 1;
    }
    assert(digits.take(i - start) == digits);
    Some(value)
}

/// The characters of a run of bytes, each byte taken as the character of
/// the same code.
pub fn latin1_string(bytes: &[u8]) -> (text: String)
    ensures
        text@ == latin1(bytes@),
{
    let mut text = String::new();
    let mut i: usize = 0;
    while i < bytes.len()
        invariant
            i <= bytes.len(),
            text@ == latin1(bytes@.take(i as int)),
        decreases bytes.len() - i,
    {
        text.push(bytes[i] as char);
        assert(bytes@.take(i + 1) == bytes@.take(i as int).push(bytes@[i as int]));
        i += 1;
    }
    assert(bytes@.take(i as int) == bytes@);
    text
}

/// The bytes of a line after its first `n`, which the line has.
fn rest_of_line(line: &[u8], n: usize) -> (rest: &[u8])
    requires
        n <= line@.len(),
    ensures
        rest@ == line@.skip(n as int),
{
    slice_subrange(line, n, line.len())
}

/// Takes in one line of a metrics file.
pub fn read_metrics_line<D: Fn(&str) -> Option<u64>>(
    metrics: RunMetrics,
    line: &[u8],
    decode: &D,
) -> (read: Result<RunMetrics, MetricsError>)
    requires
        forall|text: &str| call_requires(*decode, (text,)),
    ensures
        forall|dec: Decoding| #[trigger]
            decodes_as(decode, dec) ==> read == after_line(metrics, line@, dec),
{
    let seed = vec![0x53u8, 0x65u8, 0x65u8, 0x64u8, 0x3au8, 0x20u8];
    let points = vec![0x50u8, 0x6fu8, 0x69u8, 0x6eu8, 0x74u8, 0x73u8, 0x3au8, 0x20u8];
    let est_distance = vec![
        0x45u8,
        0x73u8,
        0x74u8,
        0x20u8,
        0x44u8,
        0x69u8,
        0x73u8,
        0x74u8,
        0x61u8,
        0x6eu8,
        0x63u8,
        0x65u8,
        0x3au8,
        0x20u8,
    ];
    assert(seed@ == seed_prefix());
    assert(points@ == points_prefix());
    assert(est_distance@ == est_distance_prefix());
    if starts_with(line, seed.as_slice()) {
        match parse_unsigned(rest_of_line(line, 6)) {
            Some(seed) => Ok(RunMetrics { seed, ..metrics }),
            None => Err(MetricsError::Seed),
        }
    } else if starts_with(line, points.as_slice()) {
        match parse_unsigned(rest_of_line(line, 8)) {
            Some(points) => Ok(RunMetrics { points, ..metrics }),
            None => Err(MetricsError::Points),
        }
    } else if starts_with(line, est_distance.as_slice()) {
        let text = latin1_string(rest_of_line(line, 14));
        match decode(text.as_str()) {
            Some(est_distance) => Ok(RunMetrics { est_distance, ..metrics }),
            None => Err(MetricsError::EstDistance),
        }
    } else {
        Ok(metrics)
    }
}

/// The bytes of each line.
pub open spec fn line_views(lines: Seq<Vec<u8>>) -> Seq<Seq<u8>> {
    lines.map_values(|line: Vec<u8>| line@)
}

/// An error among the first `k` lines is the error of every longer prefix.
pub proof fn lemma_metrics_of_error(lines: Seq<Seq<u8>>, dec: Decoding, k: int, n: int)
    requires
        k <= n,
        metrics_of(lines, dec, k) is Err,
    ensures
        metrics_of(lines, dec, n) == metrics_of(lines, dec, k),
    decreases n - k,
{
    if k < n {
        lemma_metrics_of_error(lines, dec, k, n - 1);
    }
}

/// Reads the metrics of a run from the lines of a metrics file.
///
/// `decode` turns the text of the summed distance into the bit pattern of
/// its value. A value that no line sets is 0; a value that several lines
/// set is that of the last one.
pub fn read_run_metrics<D: Fn(&str) -> Option<u64>>(lines: &Vec<Vec<u8>>, decode: D) -> (read:
    Result<RunMetrics, MetricsError>)
    requires
        forall|text: &str| call_requires(decode, (text,)),
    ensures
        forall|dec: Decoding| #[trigger]
            decodes_as(&decode, dec) ==> read == metrics_of(
                line_views(lines@),
                dec,
                lines@.len() as int,
            ),
{
    let mut metrics = RunMetrics { seed: 0, points: 0, est_distance: 0 };
    let mut i: usize = 0;
    while i < lines.len()
        invariant
            i <= lines.len(),
            forall|text: &str| call_requires(decode, (text,)),
            forall|dec: Decoding| #[trigger]
                decodes_as(&decode, dec) ==> metrics_of(line_views(lines@), dec, i as int) == Ok::<
                    RunMetrics,
                    MetricsError,
                >(metrics),
        decreases lines.len() - i,
    {
        assert(line_views(lines@)[i as int] == lines@[i as int]@);
        match read_metrics_line(metrics, lines[i].as_slice(), &decode) {
            Ok(next) => {
                metrics = next;
            },
            Err(e) => {
                proof {
                    assert forall|dec: Decoding| #[trigger] decodes_as(&decode, dec) implies Err::<
                        RunMetrics,
                        MetricsError,
                    >(e) == metrics_of(line_views(lines@), dec, lines@.len() as int) by {
                        assert(metrics_of(line_views(lines@), dec, i + 1) == Err::<
                            RunMetrics,
                            MetricsError,
                        >(e));
                        lemma_metrics_of_error(
                            line_views(lines@),
                            dec,
                            i + 1,
                            lines@.len() as int,
                        );
                    }
                }
                return Err(e);
            },
        }
        i += 1;
    }
    Ok(metrics)
}

/// The decimal digits of a number, without leading zeros.
pub open spec fn decimal_text(n: nat) -> Seq<u8>
    decreases n,
{
    if n < 10 {
        seq![(0x30 + n) as u8]
    } else {
        decimal_text(n / 10).push((0x30 + n % 10) as u8)
    }
}

/// Writes a number in decimal digits.
pub fn decimal(n: u64) -> (digits: Vec<u8>)
    ensures
        digits@ == decimal_text(n as nat),
    decreases n,
{
    if n < 10 {
        let mut digits: Vec<u8> = Vec::new();
        digits.push(0x30 + n as u8);
        digits
    } else {
        let mut digits = decimal(n / 10);
        digits.push(0x30 + (n % 10) as u8);
        digits
    }
}

/// The digits of a number are read back as the number.
pub proof fn lemma_decimal_round_trip(n: nat)
    ensures
        decimal_text(n).len() > 0,
        all_digits(decimal_text(n)),
        decimal_value(decimal_text(n)) == n,
        n <= u64::MAX ==> unsigned_of(decimal_text(n)) == Some(n as u64),
    decreases n,
{
    let text = decimal_text(n);
    if n < 10 {
        assert(text.drop_last() == Seq::<u8>::empty());
        assert(decimal_value(text.drop_last()) == 0);
    } else {
        lemma_decimal_round_trip(n / 10);
        assert(text.drop_last() == decimal_text(n / 10));
        assert forall|i: int| 0 <= i < text.len() implies 0x30 <= #[trigger] text[i] <= 0x39 by {
            if i < text.len() - 1 {
                assert(text[i] == decimal_text(n / 10)[i]);
            }
        }
    }
    assert(text[0] != 0x2b);
}

/// The lines of the metrics file of a run, given the text of the summed
/// distance.
pub open spec fn metrics_lines_of(metrics: RunMetrics, distance: Seq<u8>) -> Seq<Seq<u8>> {
    seq![
        seed_prefix() + decimal_text(metrics.seed as nat),
        points_prefix() + decimal_text(metrics.points as nat),
        est_distance_prefix() + distance,
    ]
}

/// A prefix followed by the bytes of `rest`.
fn line_of(prefix: Vec<u8>, rest: Vec<u8>) -> (line: Vec<u8>)
    ensures
        line@ == prefix@ + rest@,
{
    let mut line = prefix;
    let mut rest = rest;
    line.append(&mut rest);
    line
}

/// The lines of the metrics file of a run. `render` turns the bit pattern
/// of the summed distance into its text.
pub fn save_run_metrics<R: Fn(u64) -> String>(metrics: RunMetrics, render: R) -> (lines: Vec<
    Vec<u8>,
>)
    requires
        forall|n: u64| call_requires(render, (n,)),
    ensures
        forall|ren: Rendering| #[trigger]
            renders_as(&render, ren) ==> line_views(lines@) == metrics_lines_of(
                metrics,
                encode_utf8(ren(metrics.est_distance)),
            ),
{
    let seed = vec![0x53u8, 0x65u8, 0x65u8, 0x64u8, 0x3au8, 0x20u8];
    let points = vec![0x50u8, 0x6fu8, 0x69u8, 0x6eu8, 0x74u8, 0x73u8, 0x3au8, 0x20u8];
    let est_distance = vec![
        0x45u8,
        0x73u8,
        0x74u8,
        0x20u8,
        0x44u8,
        0x69u8,
        0x73u8,
        0x74u8,
        0x61u8,
        0x6eu8,
        0x63u8,
        0x65u8,
        0x3au8,
        0x20u8,
    ];
    assert(seed@ == seed_prefix());
    assert(points@ == points_prefix());
    assert(est_distance@ == est_distance_prefix());
    let text = render(metrics.est_distance);
    let distance = text.as_str().as_bytes_vec();
    let ghost written = distance@;
    let mut lines: Vec<Vec<u8>> = Vec::new();
    lines.push(line_of(seed, decimal(metrics.seed)));
    lines.push(line_of(points, decimal(metrics.points)));
    lines.push(line_of(est_distance, distance));
    assert(line_views(lines@) == metrics_lines_of(metrics, written));
    lines
}

/// The metrics that were written to a metrics file are the metrics that
/// are read from it, for a decoder that reads the text of the summed
/// distance back.
pub proof fn lemma_metrics_round_trip(metrics: RunMetrics, distance: Seq<u8>, dec: Decoding)
    requires
        dec(latin1(distance)) == Some(metrics.est_distance),
    ensures
        metrics_of(metrics_lines_of(metrics, distance), dec, 3) == Ok::<RunMetrics, MetricsError>(
            metrics,
        ),
{
    let lines = metrics_lines_of(metrics, distance);
    let zero = RunMetrics { seed: 0, points: 0, est_distance: 0 };
    lemma_decimal_round_trip(metrics.seed as nat);
    lemma_decimal_round_trip(metrics.points as nat);
    let seed_text = decimal_text(metrics.seed as nat);
    let points_text = decimal_text(metrics.points as nat);
    assert(lines[0].take(6) == seed_prefix());
    assert(lines[0].skip(6) == seed_text);
    assert(lines[1][0] != seed_prefix()[0]);
    assert(!has_prefix(lines[1], seed_prefix())) by {
        if has_prefix(lines[1], seed_prefix()) {
            assert(lines[1].take(6)[0] == seed_prefix()[0]);
        }
    }
    assert(lines[1].take(8) == points_prefix());
    assert(lines[1].skip(8) == points_text);
    assert(!has_prefix(lines[2], seed_prefix())) by {
        if has_prefix(lines[2], seed_prefix()) {
            assert(lines[2].take(6)[0] == seed_prefix()[0]);
        }
    }
    assert(!has_prefix(lines[2], points_prefix())) by {
        if has_prefix(lines[2], points_prefix()) {
            assert(lines[2].take(8)[0] == points_prefix()[0]);
        }
    }
    assert(lines[2].take(14) == est_distance_prefix());
    assert(lines[2].skip(14) == distance);
    reveal_with_fuel(metrics_of, 4);
    let m1 = RunMetrics { seed: metrics.seed, ..zero };
    let m2 = RunMetrics { points: metrics.points, ..m1 };
    assert(after_line(zero, lines[0], dec) == Ok::<RunMetrics, MetricsError>(m1));
    assert(after_line(m1, lines[1], dec) == Ok::<RunMetrics, MetricsError>(m2));
    assert(after_line(m2, lines[2], dec) == Ok::<RunMetrics, MetricsError>(metrics));
}

} // verus!
