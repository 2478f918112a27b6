use kolakoski::driver::DEFAULT_LEVELS;
use kolakoski::sequence::tally_prefix;

fn test_sequence(length: i64, expected_ones: i64, expected_twos: i64) {
    let tally = tally_prefix(length as u64, DEFAULT_LEVELS).unwrap();
    assert_eq!(
        (tally.ones as i64, tally.twos as i64),
        (expected_ones, expected_twos)
    );
}

#[test]
fn test_10() {
    test_sequence(10, 5, 5);
}

#[test]
fn test_100() {
    test_sequence(100, 49, 51);
}

#[test]
fn test_1000() {
    test_sequence(1000, 502, 498);
}

#[test]
fn test_10000() {
    test_sequence(10000, 4996, 5004);
}

#[test]
fn test_100000() {
    test_sequence(100000, 49972, 50028);
}

#[test]
fn test_1000000() {
    test_sequence(1000000, 499986, 500014);
}

#[test]
fn short_prefixes_hold_only_seeds() {
    test_sequence(0, 0, 0);
    test_sequence(1, 1, 0);
    test_sequence(2, 1, 1);
    test_sequence(3, 1, 2);
}

#[test]
fn counts_add_up_to_the_length() {
    for length in [0u64, 1, 2, 3, 17, 256, 4099] {
        let tally = tally_prefix(length, DEFAULT_LEVELS).unwrap();
        assert_eq!(tally.ones + tally.twos, length);
    }
}
