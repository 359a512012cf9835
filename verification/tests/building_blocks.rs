//! Tests for the building blocks: contexts, pair production, distributions
//! and the random source.

use markov::{markov_pairs, MarkovKey, MarkovValue, Rand};

#[test]
fn pair_producer_emits_length_plus_one_pairs() {
    let input = b"hello world";
    let pairs = markov_pairs(input);
    assert_eq!(pairs.len(), input.len() + 1);
    assert_eq!(pairs.last().unwrap().1, 0);
}

#[test]
fn pair_producer_on_empty_input_emits_one_sentinel_pair() {
    let pairs = markov_pairs(b"");
    assert_eq!(pairs.len(), 1);
    assert!(pairs[0].0.key_equal(&MarkovKey::new()));
    assert_eq!(pairs[0].1, 0);
}

#[test]
fn pair_producer_contexts_slide() {
    let pairs = markov_pairs(b"ab");
    assert_eq!(pairs.len(), 3);
    let start = MarkovKey::new();
    assert!(pairs[0].0.key_equal(&start));
    assert_eq!(pairs[0].1, b'a');
    assert!(pairs[1].0.key_equal(&start.next(b'a')));
    assert_eq!(pairs[1].1, b'b');
    assert!(pairs[2].0.key_equal(&start.next(b'a').next(b'b')));
    assert_eq!(pairs[2].1, 0);
}

#[test]
fn advancing_a_context_is_pure() {
    let start = MarkovKey::new();
    let stepped = start.next(b'x');
    assert!(start.key_equal(&MarkovKey::new()));
    assert!(!stepped.key_equal(&start));
    assert!(stepped.key_equal(&MarkovKey::new().next(b'x')));
}

#[test]
fn context_window_drops_oldest_symbol() {
    // Ten symbols through an order-9 window: the first one falls out, so the
    // result equals the window fed only the last nine.
    let mut long = MarkovKey::new();
    for &b in b"0123456789" {
        long = long.next(b);
    }
    let mut short = MarkovKey::new();
    for &b in b"123456789" {
        short = short.next(b);
    }
    assert!(long.key_equal(&short));
}

#[test]
fn seed_bytes_skips_sentinels() {
    let key = MarkovKey::new().next(b'h').next(b'i');
    assert_eq!(key.seed_bytes(), b"hi");
    assert_eq!(MarkovKey::new().seed_bytes(), Vec::<u8>::new());
}

#[test]
fn from_char_records_one_observation() {
    let dist = MarkovValue::from_char(b'a');
    assert_eq!(dist.total_count(), 1);
    assert_eq!(dist.count_for(b'a'), 1);
    assert_eq!(dist.count_for(b'b'), 0);
    assert_eq!(dist.symbols(), vec![b'a']);
}

#[test]
fn add_aggregates_repeated_symbols() {
    let mut dist = MarkovValue::from_char(b'a');
    dist.add(b'a');
    dist.add(b'b');
    dist.add(b'a');
    assert_eq!(dist.total_count(), 4);
    assert_eq!(dist.count_for(b'a'), 3);
    assert_eq!(dist.count_for(b'b'), 1);
    assert_eq!(dist.symbols(), vec![b'a', b'b']);
}

#[test]
fn totals_equal_summed_counts() {
    let mut dist = MarkovValue::from_char(b'x');
    for &b in b"xyzzyx" {
        dist.add(b);
    }
    let sum: u32 = dist.symbols().iter().map(|&s| dist.count_for(s)).sum();
    assert_eq!(sum, dist.total_count());
}

#[test]
fn pick_returns_observed_symbol() {
    let mut dist = MarkovValue::from_char(b'a');
    dist.add(b'b');
    dist.add(b'c');
    for seed in 0..64u64 {
        let mut rng = Rand::new(seed);
        let picked = dist.pick(&mut rng);
        assert!(dist.count_for(picked) > 0);
    }
}

#[test]
fn pick_on_single_symbol_is_that_symbol() {
    let dist = MarkovValue::from_char(b'q');
    let mut rng = Rand::new(99);
    assert_eq!(dist.pick(&mut rng), b'q');
}

#[test]
fn rand_stays_below_bound() {
    let mut rng = Rand::new(0xDEADBEEF);
    for bound in 1..50u32 {
        let drawn = rng.next_below(bound);
        assert!(drawn < bound);
    }
}
