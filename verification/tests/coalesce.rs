use const_regex::ByteRange;
use const_regex::coalesce;

fn ranges_of(bytes: &[u8]) -> Vec<(u8, u8)> {
    let v: Vec<u8> = bytes.to_vec();
    coalesce(&v).iter().map(|r| (r.lo, r.hi)).collect()
}

#[test]
fn single_byte_becomes_degenerate_range() {
    assert_eq!(ranges_of(&[7]), vec![(7, 7)]);
}

#[test]
fn contiguous_run_becomes_one_range() {
    assert_eq!(ranges_of(&[1, 2, 3, 4, 5]), vec![(1, 5)]);
}

#[test]
fn gaps_split_ranges() {
    assert_eq!(ranges_of(&[1, 2, 3, 7, 9, 10]), vec![(1, 3), (7, 7), (9, 10)]);
}

#[test]
fn isolated_bytes_stay_separate() {
    assert_eq!(ranges_of(&[0, 2, 4, 6]), vec![(0, 0), (2, 2), (4, 4), (6, 6)]);
}

#[test]
fn full_alphabet_becomes_one_range() {
    let all: Vec<u8> = (0u8..=255u8).collect();
    assert_eq!(ranges_of(&all), vec![(0, 255)]);
}

#[test]
fn extremes_with_gap() {
    assert_eq!(ranges_of(&[0, 255]), vec![(0, 0), (255, 255)]);
}

#[test]
fn union_of_ranges_is_exactly_the_input_set() {
    let input: Vec<u8> = vec![3, 4, 5, 9, 11, 12, 200, 201, 202, 203];
    let ranges = coalesce(&input);
    for b in 0u16..=255u16 {
        let b = b as u8;
        let covered = ranges.iter().any(|r| r.lo <= b && b <= r.hi);
        assert_eq!(covered, input.contains(&b));
    }
    // Maximality: consecutive ranges leave a gap of at least one value.
    for w in ranges.windows(2) {
        let (first, second): (ByteRange, ByteRange) = (w[0], w[1]);
        assert!(first.hi as u16 + 1 < second.lo as u16);
    }
}
