//! Tests for the generator: learning, unconditioned and seeded generation.

use markov::{MarkovGenerator, MarkovKey, Rand};

const FOX: &str = "The quick brown fox jumps.";

#[test]
fn fresh_generator_speak_fails() {
    let gen = MarkovGenerator::new();
    let mut rng = Rand::new(7);
    assert!(gen.speak(&mut rng).is_err());
}

#[test]
fn fresh_generator_speak_fails_for_many_seeds() {
    let gen = MarkovGenerator::new();
    for seed in 0..64u64 {
        let mut rng = Rand::new(seed);
        assert!(gen.speak(&mut rng).is_err());
    }
}

#[test]
fn fresh_generator_reply_to_empty_fails() {
    let gen = MarkovGenerator::new();
    let mut rng = Rand::new(11);
    assert!(gen.reply("", &mut rng).is_err());
}

#[test]
fn short_input_learns_nothing() {
    let mut gen = MarkovGenerator::new();
    gen.learn("tiny sample");
    let mut rng = Rand::new(3);
    assert!(gen.speak(&mut rng).is_err());
    assert!(gen.lookup(&MarkovKey::new()).is_none());
}

#[test]
fn nineteen_symbols_rejected_twenty_accepted() {
    let mut gen = MarkovGenerator::new();
    gen.learn("exactly 19 symbols!");
    assert!(gen.lookup(&MarkovKey::new()).is_none());
    gen.learn("exactly twenty syms!");
    assert!(gen.lookup(&MarkovKey::new()).is_some());
}

#[test]
fn short_input_leaves_counts_unchanged() {
    let mut gen = MarkovGenerator::new();
    gen.learn(FOX);
    let before = gen.lookup(&MarkovKey::new()).unwrap().count_for(b'T');
    let before_total = gen.lookup(&MarkovKey::new()).unwrap().total_count();
    gen.learn("tiny");
    let after = gen.lookup(&MarkovKey::new()).unwrap().count_for(b'T');
    let after_total = gen.lookup(&MarkovKey::new()).unwrap().total_count();
    assert_eq!(before, after);
    assert_eq!(before_total, after_total);
}

#[test]
fn start_context_learns_first_symbol() {
    let mut gen = MarkovGenerator::new();
    gen.learn(FOX);
    let dist = gen.lookup(&MarkovKey::new()).expect("start context must be learned");
    assert!(dist.count_for(b'T') >= 1);
}

#[test]
fn learning_twice_doubles_counts() {
    let mut once = MarkovGenerator::new();
    once.learn(FOX);
    let mut twice = MarkovGenerator::new();
    twice.learn(FOX);
    twice.learn(FOX);
    let d1 = once.lookup(&MarkovKey::new()).unwrap();
    let d2 = twice.lookup(&MarkovKey::new()).unwrap();
    assert_eq!(d2.total_count(), 2 * d1.total_count());
    for sym in d1.symbols() {
        assert_eq!(d2.count_for(sym), 2 * d1.count_for(sym));
    }
}

#[test]
fn totals_match_summed_counts_after_learning() {
    let mut gen = MarkovGenerator::new();
    gen.learn(FOX);
    gen.learn("a second sample, also long enough to count.");
    gen.learn(FOX);
    let dist = gen.lookup(&MarkovKey::new()).unwrap();
    let sum: u64 = dist.symbols().iter().map(|&s| dist.count_for(s) as u64).sum();
    assert_eq!(sum, dist.total_count() as u64);
}

#[test]
fn speak_reproduces_single_training_text() {
    // Every context of this text is unique, so each distribution has one
    // entry and the walk from the start context is deterministic.
    let mut gen = MarkovGenerator::new();
    gen.learn(FOX);
    let mut rng = Rand::new(42);
    assert_eq!(gen.speak(&mut rng).unwrap(), FOX);
}

#[test]
fn generation_starts_with_symbol_from_start_distribution() {
    let mut gen = MarkovGenerator::new();
    gen.learn(FOX);
    gen.learn("Another long training sentence arrives.");
    let dist_symbols = gen.lookup(&MarkovKey::new()).unwrap().symbols();
    for seed in 0..32u64 {
        let mut rng = Rand::new(seed);
        if let Ok(text) = gen.speak(&mut rng) {
            let first = text.as_bytes()[0];
            assert!(dist_symbols.contains(&first));
        }
    }
}

#[test]
fn reply_untrained_echoes_message_tail() {
    // With nothing learned every context is a dead end, so an attempt can
    // only return the seed context's visible symbols: the message's tail.
    let gen = MarkovGenerator::new();
    let mut rng = Rand::new(5);
    let reply = gen.reply("abcdefghijklmnop", &mut rng).unwrap();
    assert_eq!(reply, "hijklmnop");
}

#[test]
fn reply_falls_back_past_invalid_tail_context() {
    // The most recent context of this message starts in the middle of a
    // two-byte character, so every attempt from it fails to decode and the
    // walk falls back to the next earlier context, which decodes fine.
    let gen = MarkovGenerator::new();
    let mut rng = Rand::new(1);
    let reply = gen.reply("\u{e9}12345678", &mut rng).unwrap();
    assert_eq!(reply, "\u{e9}1234567");
}

#[test]
fn reply_trained_succeeds() {
    let mut gen = MarkovGenerator::new();
    gen.learn(FOX);
    let mut rng = Rand::new(9);
    let reply = gen.reply(FOX, &mut rng).unwrap();
    assert!(!reply.is_empty());
}

#[test]
fn same_seed_same_output() {
    let mut gen = MarkovGenerator::new();
    gen.learn(FOX);
    gen.learn("Another long training sentence arrives.");
    let mut rng_a = Rand::new(1234);
    let mut rng_b = Rand::new(1234);
    assert_eq!(gen.speak(&mut rng_a).ok(), gen.speak(&mut rng_b).ok());
}

#[test]
fn speak_from_key_gives_up_on_dead_sentinel_context() {
    // Every attempt from the all-sentinel context of an untrained table
    // produces no symbols, so the bounded retry reports failure instead of
    // looping on.
    let gen = MarkovGenerator::new();
    let mut rng = Rand::new(77);
    assert!(gen.speak_from_key(MarkovKey::new(), &mut rng).is_err());
}

#[test]
fn attempt_from_dead_end_context_returns_seed() {
    let gen = MarkovGenerator::new();
    let mut rng = Rand::new(2);
    let mut key = MarkovKey::new();
    for &b in b"hello" {
        key = key.next(b);
    }
    assert_eq!(gen.attempt_speak_from_key(key, &mut rng).unwrap(), "hello");
}

#[test]
fn attempt_from_invalid_seed_bytes_fails() {
    // A context holding a lone UTF-8 continuation byte cannot decode, and an
    // untrained table adds nothing to it, so every attempt fails.
    let gen = MarkovGenerator::new();
    let mut rng = Rand::new(2);
    let key = MarkovKey::new().next(0xFF);
    assert!(gen.attempt_speak_from_key(key, &mut rng).is_err());
    assert!(gen.speak_from_key(key, &mut rng).is_err());
}
