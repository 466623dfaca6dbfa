use turns_lost::bits::keep_low_bits;
use turns_lost::reduce::{
    calculate_odds, max_in_range, max_of_attempts, max_outcome, max_outcome_chunked,
};
use turns_lost::source::{ThreadSource, WordSource};
use turns_lost::trial::{
    calculate_attempt, round_turns_lost, round_word, turns_lost, Draw, MaskedRounds, TrialPolicy,
};

/// Replays a fixed list of words, starting over at its end.
struct Replay {
    words: Vec<u64>,
    pos: usize,
}

impl Replay {
    fn new(words: Vec<u64>) -> Replay {
        Replay { words, pos: 0 }
    }
}

impl WordSource for Replay {
    fn next_word(&mut self) -> u64 {
        let w = self.words[self.pos % self.words.len()];
        self.pos += 1;
        w
    }
}

fn high_low_policy() -> TrialPolicy {
    TrialPolicy {
        rounds: 8,
        draw: Draw::HighLow,
        masked: MaskedRounds::AllButFirst,
        mask_bits: 7,
    }
}

#[test]
fn standard_policy_fields() {
    let p = TrialPolicy::standard();
    assert_eq!(p.rounds, 4);
    assert_eq!(p.draw, Draw::TwoWords);
    assert_eq!(p.masked, MaskedRounds::FirstOnly);
    assert_eq!(p.mask_bits, 39);
}

#[test]
fn zero_iterations_give_zero() {
    assert_eq!(calculate_odds(&TrialPolicy::standard(), 0), 0);
    assert_eq!(calculate_odds(&high_low_policy(), 0), 0);
}

#[test]
fn positive_iterations_stay_in_range() {
    let r = calculate_odds(&TrialPolicy::standard(), 20_000);
    assert!(r > 0);
    assert!(r <= 39 + 3 * 64);
    let r = calculate_odds(&high_low_policy(), 20_000);
    assert!(r > 0);
    assert!(r <= 32 + 7 * 7);
}

#[test]
fn single_iteration_in_range() {
    let r = calculate_odds(&TrialPolicy::standard(), 1);
    assert!(r <= 231);
}

#[test]
fn thread_source_trial_in_range() {
    let p = TrialPolicy::standard();
    let mut src = ThreadSource::new();
    for _ in 0..100 {
        assert!(calculate_attempt(&p, &mut src) <= 231);
    }
}

#[test]
fn round_table_high_low() {
    let p = high_low_policy();
    let w = round_word(Draw::HighLow, &vec![0xFFFF_FFFF_FFFF_FF7F], 0);
    assert_eq!(w, 0xFFFF_FF7F);
    assert_eq!(round_turns_lost(&p, 1, w), 7);
    assert_eq!(round_turns_lost(&p, 0, w), 31);
    assert_eq!(round_turns_lost(&p, 7, w), 7);
    assert_eq!(round_turns_lost(&p, 3, 0x55), 4);
    assert_eq!(round_turns_lost(&p, 0, 0), 0);
}

#[test]
fn round_table_standard() {
    let p = TrialPolicy::standard();
    assert_eq!(round_turns_lost(&p, 0, u64::MAX), 39);
    assert_eq!(round_turns_lost(&p, 1, u64::MAX), 64);
    assert_eq!(round_turns_lost(&p, 3, u64::MAX), 64);
    assert_eq!(round_turns_lost(&p, 0, 0xFFFF_FF80_0000_0000), 0);
    assert_eq!(round_turns_lost(&p, 2, 0xFFFF_FF80_0000_0000), 25);
    assert_eq!(round_turns_lost(&p, 1, 0), 0);
}

#[test]
fn round_word_two_words_ands() {
    let words = vec![0xF0F0, 0xFF00, 0x1234, 0x00FF];
    assert_eq!(round_word(Draw::TwoWords, &words, 0), 0xF000);
    assert_eq!(round_word(Draw::TwoWords, &words, 1), 0x0034);
}

#[test]
fn keep_low_bits_values() {
    assert_eq!(keep_low_bits(0xFF, 4), 0xF);
    assert_eq!(keep_low_bits(u64::MAX, 39), 0x7F_FFFF_FFFF);
    assert_eq!(keep_low_bits(u64::MAX, 0), 0);
    assert_eq!(keep_low_bits(0xABCD, 64), 0xABCD);
    assert_eq!(keep_low_bits(0xABCD, 100), 0xABCD);
}

#[test]
fn turns_lost_counts_every_round() {
    let p = TrialPolicy::standard();
    let words = vec![u64::MAX, u64::MAX, 0xFF, 0x0F, 0, u64::MAX, 0x3, 0x3];
    assert_eq!(turns_lost(&p, &words), 39 + 4 + 0 + 2);
}

#[test]
fn all_ones_standard_trial() {
    let p = TrialPolicy::standard();
    let mut src = Replay::new(vec![u64::MAX]);
    assert_eq!(calculate_attempt(&p, &mut src), 39 + 3 * 64);
    assert_eq!(src.pos, 8);
}

#[test]
fn all_ones_unmasked_trial() {
    let p = TrialPolicy {
        rounds: 4,
        draw: Draw::TwoWords,
        masked: MaskedRounds::FirstOnly,
        mask_bits: 64,
    };
    let mut src = Replay::new(vec![u64::MAX]);
    assert_eq!(calculate_attempt(&p, &mut src), 4 * 64);
}

#[test]
fn all_ones_high_low_trial() {
    let p = high_low_policy();
    let mut src = Replay::new(vec![u64::MAX]);
    assert_eq!(calculate_attempt(&p, &mut src), 32 + 7 * 7);
    assert_eq!(src.pos, 8);
}

#[test]
fn zero_words_lose_nothing() {
    let mut src = Replay::new(vec![0]);
    assert_eq!(calculate_attempt(&TrialPolicy::standard(), &mut src), 0);
    assert_eq!(calculate_attempt(&high_low_policy(), &mut src), 0);
}

#[test]
fn zero_rounds_lose_nothing() {
    let p = TrialPolicy {
        rounds: 0,
        draw: Draw::TwoWords,
        masked: MaskedRounds::FirstOnly,
        mask_bits: 39,
    };
    let mut src = Replay::new(vec![u64::MAX]);
    assert_eq!(calculate_attempt(&p, &mut src), 0);
    assert_eq!(src.pos, 0);
}

#[test]
fn max_of_five_outcomes() {
    let outcomes = vec![3, 7, 1, 9, 2];
    assert_eq!(max_outcome(&outcomes), 9);
    for workers in 0..8 {
        assert_eq!(max_outcome_chunked(&outcomes, workers), 9);
    }
}

#[test]
fn max_of_no_outcomes_is_zero() {
    let outcomes: Vec<u64> = Vec::new();
    assert_eq!(max_outcome(&outcomes), 0);
    assert_eq!(max_outcome_chunked(&outcomes, 4), 0);
}

#[test]
fn chunked_matches_sequential() {
    let outcomes: Vec<u64> = (0..37u64).map(|i| (i * 7919) % 101).collect();
    let expected = max_outcome(&outcomes);
    assert_eq!(expected, 100);
    for workers in 0..50 {
        assert_eq!(max_outcome_chunked(&outcomes, workers), expected);
    }
}

#[test]
fn max_never_drops_as_outcomes_are_added() {
    let outcomes = vec![3, 7, 1, 9, 2, 9, 12, 0];
    let mut last = 0;
    for n in 0..=outcomes.len() {
        let m = max_in_range(&outcomes, 0, n);
        assert!(m >= last);
        last = m;
    }
    assert_eq!(last, 12);
    assert_eq!(max_in_range(&outcomes, 1, 3), 7);
    assert_eq!(max_in_range(&outcomes, 4, 4), 0);
}

/// Words that make one standard trial lose exactly `o` turns (`o <= 64`).
fn standard_trial_words(o: u32) -> Vec<u64> {
    let w = if o == 64 { u64::MAX } else { (1u64 << o) - 1 };
    vec![0, 0, w, u64::MAX, 0, 0, 0, 0]
}

#[test]
fn drawn_words_masked_round_zero() {
    let p = TrialPolicy::standard();
    let mut src = Replay::new(vec![0xFFFF_FFFF_FFFF_FF7F, u64::MAX, 0, 0, 0, 0, 0, 0]);
    assert_eq!(calculate_attempt(&p, &mut src), 38);
    assert_eq!(src.pos, 8);
}

#[test]
fn drawn_words_unmasked_round_one() {
    let p = TrialPolicy::standard();
    let mut src = Replay::new(vec![0, 0, 0xFFFF_FFFF_FFFF_FF7F, u64::MAX, 0, 0, 0, 0]);
    assert_eq!(calculate_attempt(&p, &mut src), 63);
}

#[test]
fn mask_only_on_round_zero() {
    let p = TrialPolicy::standard();
    let mut first = Replay::new(vec![u64::MAX, u64::MAX, 0, 0, 0, 0, 0, 0]);
    let mut second = Replay::new(vec![0, 0, u64::MAX, u64::MAX, 0, 0, 0, 0]);
    assert_eq!(calculate_attempt(&p, &mut first), 39);
    assert_eq!(calculate_attempt(&p, &mut second), 64);
}

#[test]
fn attempt_matches_formula() {
    let p = TrialPolicy::standard();
    let w: Vec<u64> = vec![
        0x0123_4567_89AB_CDEF,
        0xFEDC_BA98_7654_3210,
        0xF0F0_F0F0_F0F0_F0F0,
        0x3333_3333_3333_3333,
        0xDEAD_BEEF_DEAD_BEEF,
        0xAAAA_AAAA_5555_5555,
        u64::MAX,
        0x8000_0000_0000_0001,
    ];
    let expected = (w[0] & w[1] & 0x7F_FFFF_FFFF).count_ones()
        + (w[2] & w[3]).count_ones()
        + (w[4] & w[5]).count_ones()
        + (w[6] & w[7]).count_ones();
    let mut src = Replay::new(w.clone());
    assert_eq!(calculate_attempt(&p, &mut src), expected as u64);
    assert_eq!(turns_lost(&p, &w), expected as u64);
}

#[test]
fn replayed_trials_give_sequential_max() {
    let p = TrialPolicy::standard();
    let mut words = Vec::new();
    for o in [3u32, 7, 1, 9, 2] {
        words.extend(standard_trial_words(o));
    }
    let mut src = Replay::new(words);
    assert_eq!(max_of_attempts(&p, &mut src, 5), 9);
    assert_eq!(src.pos, 40);
}

#[test]
fn replayed_max_grows_with_trials() {
    let p = TrialPolicy::standard();
    let mut words = Vec::new();
    for o in [3u32, 7, 1, 9, 2, 64, 0] {
        words.extend(standard_trial_words(o));
    }
    let expected = [0u64, 3, 7, 7, 9, 9, 64, 64];
    for n in 0..=7usize {
        let mut src = Replay::new(words.clone());
        assert_eq!(max_of_attempts(&p, &mut src, n), expected[n]);
    }
}

#[test]
fn no_replayed_trials_give_zero() {
    let mut src = Replay::new(vec![u64::MAX]);
    assert_eq!(max_of_attempts(&TrialPolicy::standard(), &mut src, 0), 0);
    assert_eq!(src.pos, 0);
}
