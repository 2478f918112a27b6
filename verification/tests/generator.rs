use kolakoski::cascade::{kolakoski_increment, KolakoskiError};
use kolakoski::driver::{
    clock_due, refresh_due, term_count, DEFAULT_LEVELS, DEFAULT_TERMS, REFRESH_NANOS,
    REFRESH_STRIDE,
};
use kolakoski::engine::new_engine;
use kolakoski::level::{LevelState, Symbol};
use kolakoski::sequence::{kolakoski_terms, tally_prefix, Tally};
use kolakoski::window::{buffer_string, window_extent, WINDOW_LIMIT};

fn digits(terms: &[Symbol]) -> Vec<u8> {
    terms.iter().map(|t| t.digit()).collect()
}

#[test]
fn first_forty_terms() {
    let terms = kolakoski_terms(40, DEFAULT_LEVELS).unwrap();
    assert_eq!(
        digits(&terms),
        vec![
            1, 2, 2, 1, 1, 2, 1, 2, 2, 1, 2, 2, 1, 1, 2, 1, 1, 2, 2, 1, 2, 1, 1, 2, 1, 2, 2, 1,
            1, 2, 1, 1, 2, 1, 2, 2, 1, 2, 2, 1
        ]
    );
}

#[test]
fn terms_of_short_prefixes() {
    assert_eq!(kolakoski_terms(0, DEFAULT_LEVELS).unwrap(), vec![]);
    assert_eq!(kolakoski_terms(1, DEFAULT_LEVELS).unwrap(), vec![Symbol::One]);
    assert_eq!(
        kolakoski_terms(2, DEFAULT_LEVELS).unwrap(),
        vec![Symbol::One, Symbol::Two]
    );
    assert_eq!(
        kolakoski_terms(3, DEFAULT_LEVELS).unwrap(),
        vec![Symbol::One, Symbol::Two, Symbol::Two]
    );
}

#[test]
fn short_prefixes_need_no_stack() {
    assert_eq!(kolakoski_terms(2, 0).unwrap(), vec![Symbol::One, Symbol::Two]);
    assert_eq!(tally_prefix(2, 0).unwrap(), Tally { ones: 1, twos: 1 });
}

#[test]
fn engine_starts_at_the_third_term() {
    let mut engine = new_engine(DEFAULT_LEVELS);
    let mut produced = Vec::new();
    for _ in 0..8 {
        produced.push(engine.produce_next_digit().unwrap());
    }
    assert_eq!(digits(&produced), vec![2, 1, 1, 2, 1, 2, 2, 1]);
}

#[test]
fn same_length_twice_gives_the_same_terms() {
    let first = kolakoski_terms(5000, DEFAULT_LEVELS).unwrap();
    let second = kolakoski_terms(5000, DEFAULT_LEVELS).unwrap();
    assert_eq!(first, second);
}

#[test]
fn shorter_run_is_a_prefix_of_the_longer() {
    let long = kolakoski_terms(3000, DEFAULT_LEVELS).unwrap();
    for n in [0usize, 1, 2, 3, 10, 999, 3000] {
        let short = kolakoski_terms(n, DEFAULT_LEVELS).unwrap();
        assert_eq!(short.len(), n);
        assert_eq!(&long[..n], &short[..]);
    }
}

#[test]
fn no_run_is_longer_than_two() {
    let terms = kolakoski_terms(20000, DEFAULT_LEVELS).unwrap();
    for w in terms.windows(3) {
        assert!(!(w[0] == w[1] && w[1] == w[2]));
    }
}

#[test]
fn sequence_is_its_own_run_lengths() {
    let terms = digits(&kolakoski_terms(3000, DEFAULT_LEVELS).unwrap());
    let mut runs: Vec<u8> = Vec::new();
    let mut k = 0;
    while k < terms.len() {
        let mut len = 1;
        while k + len < terms.len() && terms[k + len] == terms[k] {
            len += 1;
        }
        if k + len < terms.len() {
            runs.push(len as u8);
        }
        k += len;
    }
    assert!(runs.len() > 1900);
    assert_eq!(&terms[..runs.len()], &runs[..]);
}

#[test]
fn stack_height_does_not_change_the_terms() {
    let low = kolakoski_terms(34, 7).unwrap();
    let high = kolakoski_terms(34, DEFAULT_LEVELS).unwrap();
    assert_eq!(low, high);
}

#[test]
fn empty_stack_cannot_answer() {
    let mut engine = new_engine(0);
    assert_eq!(engine.max_levels(), 0);
    assert_eq!(
        engine.produce_next_digit(),
        Err(KolakoskiError::CapacityExceeded)
    );
    assert_eq!(kolakoski_terms(3, 0), Err(KolakoskiError::CapacityExceeded));
    assert_eq!(tally_prefix(3, 0), Err(KolakoskiError::CapacityExceeded));
}

#[test]
fn one_level_gives_one_term() {
    let mut engine = new_engine(1);
    assert_eq!(engine.levels(), &vec![LevelState::Empty]);
    assert_eq!(engine.produce_next_digit(), Ok(Symbol::Two));
    assert_eq!(engine.levels(), &vec![LevelState::Pending(Symbol::Two)]);
    assert_eq!(
        engine.produce_next_digit(),
        Err(KolakoskiError::CapacityExceeded)
    );
    assert_eq!(engine.levels(), &vec![LevelState::Pending(Symbol::Two)]);
    assert_eq!(
        engine.produce_next_digit(),
        Err(KolakoskiError::CapacityExceeded)
    );
}

#[test]
fn each_height_has_its_longest_prefix() {
    let longest: [(usize, u64); 8] = [
        (0, 2),
        (1, 3),
        (2, 5),
        (3, 7),
        (4, 10),
        (5, 15),
        (6, 23),
        (7, 34),
    ];
    for (height, n) in longest {
        assert!(tally_prefix(n, height).is_ok());
        assert_eq!(
            tally_prefix(n + 1, height),
            Err(KolakoskiError::CapacityExceeded)
        );
        assert!(kolakoski_terms(n as usize, height).is_ok());
        assert_eq!(
            kolakoski_terms(n as usize + 1, height),
            Err(KolakoskiError::CapacityExceeded)
        );
    }
}

#[test]
fn failed_consultation_leaves_the_stack_alone() {
    let mut buffer = vec![
        LevelState::Pending(Symbol::One),
        LevelState::Pending(Symbol::Two),
        LevelState::Pending(Symbol::One),
    ];
    let before = buffer.clone();
    assert_eq!(
        kolakoski_increment(&mut buffer, 0),
        Err(KolakoskiError::CapacityExceeded)
    );
    assert_eq!(buffer, before);
    assert_eq!(
        kolakoski_increment(&mut buffer, 3),
        Err(KolakoskiError::CapacityExceeded)
    );
    assert_eq!(
        kolakoski_increment(&mut buffer, 17),
        Err(KolakoskiError::CapacityExceeded)
    );
    assert_eq!(buffer, before);
}

#[test]
fn untouched_level_starts_with_two() {
    let mut buffer = vec![LevelState::Empty, LevelState::Empty];
    assert_eq!(kolakoski_increment(&mut buffer, 0), Ok(Symbol::Two));
    assert_eq!(
        buffer,
        vec![LevelState::Pending(Symbol::Two), LevelState::Empty]
    );
}

#[test]
fn committed_level_repeats_its_symbol() {
    let mut buffer = vec![LevelState::Committed(Symbol::One), LevelState::Empty];
    assert_eq!(kolakoski_increment(&mut buffer, 0), Ok(Symbol::One));
    assert_eq!(
        buffer,
        vec![LevelState::Pending(Symbol::One), LevelState::Empty]
    );
    let mut buffer = vec![LevelState::Committed(Symbol::Two)];
    assert_eq!(kolakoski_increment(&mut buffer, 0), Ok(Symbol::Two));
    assert_eq!(buffer, vec![LevelState::Pending(Symbol::Two)]);
}

#[test]
fn pending_level_asks_the_level_above() {
    // The level above hands out Two: a run of two of the other symbol starts.
    let mut buffer = vec![
        LevelState::Pending(Symbol::One),
        LevelState::Committed(Symbol::Two),
        LevelState::Empty,
    ];
    assert_eq!(kolakoski_increment(&mut buffer, 0), Ok(Symbol::Two));
    assert_eq!(
        buffer,
        vec![
            LevelState::Committed(Symbol::Two),
            LevelState::Pending(Symbol::Two),
            LevelState::Empty
        ]
    );
    // The level above hands out One: a run of one of the other symbol starts.
    let mut buffer = vec![
        LevelState::Pending(Symbol::Two),
        LevelState::Committed(Symbol::One),
        LevelState::Empty,
    ];
    assert_eq!(kolakoski_increment(&mut buffer, 0), Ok(Symbol::One));
    assert_eq!(
        buffer,
        vec![
            LevelState::Pending(Symbol::One),
            LevelState::Pending(Symbol::One),
            LevelState::Empty
        ]
    );
}

#[test]
fn cascade_runs_up_to_the_first_level_that_can_answer() {
    let mut buffer = vec![
        LevelState::Committed(Symbol::One),
        LevelState::Pending(Symbol::Two),
        LevelState::Pending(Symbol::Two),
        LevelState::Empty,
        LevelState::Empty,
    ];
    assert_eq!(kolakoski_increment(&mut buffer, 1), Ok(Symbol::One));
    assert_eq!(
        buffer,
        vec![
            LevelState::Committed(Symbol::One),
            LevelState::Pending(Symbol::One),
            LevelState::Committed(Symbol::One),
            LevelState::Pending(Symbol::Two),
            LevelState::Empty
        ]
    );
}

#[test]
fn window_after_ten_terms() {
    let mut engine = new_engine(DEFAULT_LEVELS);
    for _ in 2..10 {
        engine.produce_next_digit().unwrap();
    }
    assert_eq!(buffer_string(engine.levels()), "1112");
    assert_eq!(window_extent(engine.levels()), 4);
}

#[test]
fn window_after_forty_terms() {
    let mut engine = new_engine(DEFAULT_LEVELS);
    for _ in 2..40 {
        engine.produce_next_digit().unwrap();
    }
    assert_eq!(buffer_string(engine.levels()), "32424232");
}

#[test]
fn window_of_a_fresh_engine_is_empty() {
    let engine = new_engine(DEFAULT_LEVELS);
    assert_eq!(buffer_string(engine.levels()), "");
    assert_eq!(buffer_string(&Vec::new()), "");
}

#[test]
fn window_ends_at_the_first_untouched_level() {
    let buffer = vec![
        LevelState::Pending(Symbol::One),
        LevelState::Empty,
        LevelState::Committed(Symbol::Two),
    ];
    assert_eq!(buffer_string(&buffer), "1");
    assert_eq!(window_extent(&buffer), 1);
}

#[test]
fn window_shows_each_state_by_its_own_character() {
    let buffer = vec![
        LevelState::Pending(Symbol::One),
        LevelState::Pending(Symbol::Two),
        LevelState::Committed(Symbol::One),
        LevelState::Committed(Symbol::Two),
    ];
    assert_eq!(buffer_string(&buffer), "1234");
    assert_eq!(LevelState::Empty.to_char(), '0');
}

#[test]
fn window_is_limited() {
    let buffer = vec![LevelState::Committed(Symbol::Two); 300];
    assert_eq!(WINDOW_LIMIT, 255);
    assert_eq!(window_extent(&buffer), 255);
    assert_eq!(buffer_string(&buffer), "4".repeat(255));
    let buffer = vec![LevelState::Pending(Symbol::One); 255];
    assert_eq!(buffer_string(&buffer), "1".repeat(255));
    let buffer = vec![LevelState::Pending(Symbol::One); 254];
    assert_eq!(buffer_string(&buffer), "1".repeat(254));
}

#[test]
fn symbols_and_states() {
    assert_eq!(Symbol::One.other(), Symbol::Two);
    assert_eq!(Symbol::Two.other(), Symbol::One);
    assert_eq!(Symbol::One.digit(), 1);
    assert_eq!(Symbol::Two.digit(), 2);
    assert!(LevelState::Pending(Symbol::One).pending());
    assert!(!LevelState::Committed(Symbol::One).pending());
    assert!(!LevelState::Empty.pending());
    assert!(LevelState::Empty.is_untouched());
    assert!(!LevelState::Pending(Symbol::Two).is_untouched());
    assert_eq!(LevelState::Empty.next_term(), Symbol::Two);
    assert_eq!(LevelState::Committed(Symbol::One).next_term(), Symbol::One);
    assert_eq!(LevelState::Pending(Symbol::One).next_term(), Symbol::Two);
    assert_eq!(LevelState::Empty.settle(), LevelState::Pending(Symbol::Two));
    assert_eq!(
        LevelState::Committed(Symbol::One).settle(),
        LevelState::Pending(Symbol::One)
    );
    assert_eq!(
        LevelState::Pending(Symbol::One).begin_run(Symbol::One),
        LevelState::Pending(Symbol::Two)
    );
    assert_eq!(
        LevelState::Pending(Symbol::One).begin_run(Symbol::Two),
        LevelState::Committed(Symbol::Two)
    );
    assert_eq!(
        LevelState::Pending(Symbol::Two).begin_run(Symbol::Two),
        LevelState::Committed(Symbol::One)
    );
}

#[test]
fn tally_counts_each_symbol() {
    let mut tally = Tally::new();
    assert_eq!(tally, Tally { ones: 0, twos: 0 });
    tally.record(Symbol::Two);
    tally.record(Symbol::One);
    tally.record(Symbol::Two);
    assert_eq!(tally, Tally { ones: 1, twos: 2 });
}

#[test]
fn term_count_defaults_and_rejects() {
    assert_eq!(term_count(None), Ok(10_000_000));
    assert_eq!(DEFAULT_TERMS, 10_000_000);
    assert_eq!(term_count(Some(Some(42))), Ok(42));
    assert_eq!(term_count(Some(Some(-3))), Ok(-3));
    assert_eq!(
        term_count(Some(None)),
        Err(KolakoskiError::ConfigurationError)
    );
}

#[test]
fn progress_line_is_throttled() {
    assert_eq!(REFRESH_STRIDE, 10_000);
    assert_eq!(REFRESH_NANOS, 10_000_000);
    assert!(clock_due(0));
    assert!(clock_due(10_000));
    assert!(clock_due(250_000));
    assert!(!clock_due(9_999));
    assert!(!clock_due(10_001));
    assert!(refresh_due(10_000_000));
    assert!(refresh_due(999_999_999));
    assert!(!refresh_due(9_999_999));
    assert!(!refresh_due(0));
}
