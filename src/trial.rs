//! One trial: its configuration, what it counts, and how it is drawn.

use crate::bits::{
    count_ones, keep_low_bits, lemma_low_bits_below, lemma_popcount_below_pow2,
    lemma_popcount_le_64, low_bits, popcount,
};
use crate::source::WordSource;
use vstd::prelude::*;

verus! {

/// How a round obtains the word whose bits it counts.
#[derive(Clone, Copy, Debug, PartialEq, Eq, Structural)]
pub enum Draw {
    /// Two 64-bit words are drawn and ANDed.
    TwoWords,
    /// One 64-bit word is drawn and its high half is ANDed with it,
    /// leaving a 32-bit result.
    HighLow,
}

/// Which rounds keep only the low bits of their word.
#[derive(Clone, Copy, Debug, PartialEq, Eq, Structural)]
pub enum MaskedRounds {
    /// Only round 0 is masked.
    FirstOnly,
    /// Every round but round 0 is masked.
    AllButFirst,
}

/// The fixed shape of every trial.
#[derive(Clone, Copy, Debug, PartialEq, Eq, Structural)]
pub struct TrialPolicy {
    /// Number of rounds in a trial.
    pub rounds: u32,
    /// How each round draws its word.
    pub draw: Draw,
    /// Which rounds are masked.
    pub masked: MaskedRounds,
    /// How many low bits a masked round keeps (all of them from 64 on).
    pub mask_bits: u32,
}

/// Width of the word that a round counts.
pub open spec fn word_bits(d: Draw) -> nat {
    match d {
        Draw::TwoWords => 64,
        Draw::HighLow => 32,
    }
}

/// Random words that one round consumes.
pub open spec fn draws_per_round(d: Draw) -> nat {
    match d {
        Draw::TwoWords => 2,
        Draw::HighLow => 1,
    }
}

/// Random words that one trial consumes.
pub open spec fn draws_per_trial(p: TrialPolicy) -> nat {
    (p.rounds * draws_per_round(p.draw)) as nat
}

/// Whether round `round` keeps only the low bits of its word.
pub open spec fn is_masked(m: MaskedRounds, round: nat) -> bool {
    match m {
        MaskedRounds::FirstOnly => round == 0,
        MaskedRounds::AllButFirst => round != 0,
    }
}

/// The word that round `round` counts, taken from the trial's draws.
pub open spec fn candidate(d: Draw, words: Seq<u64>, round: nat) -> u64 {
    match d {
        Draw::TwoWords => words[2 * round as int] & words[2 * round as int + 1],
        Draw::HighLow => (words[round as int] >> 32u64) & words[round as int],
    }
}

/// Turns lost in round `round` when it counts the word `w`.
pub open spec fn round_count(p: TrialPolicy, round: nat, w: u64) -> nat {
    if is_masked(p.masked, round) {
        popcount(low_bits(w, p.mask_bits))
    } else {
        popcount(w)
    }
}

/// Turns lost in the first `n` rounds of a trial that drew `words`.
pub open spec fn turns_lost_upto(p: TrialPolicy, words: Seq<u64>, n: nat) -> nat
    decreases n,
{
    if n == 0 {
        0
    } else {
        turns_lost_upto(p, words, (n - 1) as nat) + round_count(
            p,
            (n - 1) as nat,
            candidate(p.draw, words, (n - 1) as nat),
        )
    }
}

/// Turns lost in a whole trial that drew `words`.
pub open spec fn trial_outcome(p: TrialPolicy, words: Seq<u64>) -> nat {
    turns_lost_upto(p, words, p.rounds as nat)
}

/// The most bits that round `round` can count.
pub open spec fn round_capacity(p: TrialPolicy, round: nat) -> nat {
    if is_masked(p.masked, round) && (p.mask_bits as nat) < word_bits(p.draw) {
        p.mask_bits as nat
    } else {
        word_bits(p.draw)
    }
}

/// The most turns that the first `n` rounds can lose.
pub open spec fn capacity_upto(p: TrialPolicy, n: nat) -> nat
    decreases n,
{
    if n == 0 {
        0
    } else {
        capacity_upto(p, (n - 1) as nat) + round_capacity(p, (n - 1) as nat)
    }
}

/// The most turns that a trial can lose.
pub open spec fn max_possible_sum(p: TrialPolicy) -> nat {
    capacity_upto(p, p.rounds as nat)
}

/// A value that some draw of random words makes a trial return.
pub open spec fn is_possible_outcome(p: TrialPolicy, o: u64) -> bool {
    exists|words: Seq<u64>|
        words.len() == draws_per_trial(p) && #[trigger] trial_outcome(p, words) == o
}

/// A round never counts more bits than its capacity.
pub proof fn lemma_round_count_le_capacity(p: TrialPolicy, words: Seq<u64>, round: nat)
    ensures
        round_count(p, round, candidate(p.draw, words, round)) <= round_capacity(p, round),
{
    let w = candidate(p.draw, words, round);
    let k = p.mask_bits;
    vstd::arithmetic::power2::lemma2_to64();
    vstd::arithmetic::power2::lemma2_to64_rest();
    if p.draw == Draw::HighLow {
        let x = words[round as int];
        assert((x >> 32u64) & x < 0x1_0000_0000u64) by (bit_vector);
    }
    if is_masked(p.masked, round) {
        let m = low_bits(w, k);
        if (k as nat) < word_bits(p.draw) {
            lemma_low_bits_below(w, k);
            lemma_popcount_below_pow2(m, k as nat);
        } else if p.draw == Draw::HighLow {
            assert(w & (((1u64 << k) - 1) as u64) <= w) by (bit_vector);
            lemma_popcount_below_pow2(m, 32);
        } else {
            lemma_popcount_le_64(m);
        }
    } else if p.draw == Draw::HighLow {
        lemma_popcount_below_pow2(w, 32);
    } else {
        lemma_popcount_le_64(w);
    }
}

/// The first `n` rounds lose at most their capacities together.
pub proof fn lemma_turns_lost_upto_bounded(p: TrialPolicy, words: Seq<u64>, n: nat)
    ensures
        turns_lost_upto(p, words, n) <= capacity_upto(p, n),
        capacity_upto(p, n) <= 64 * n,
    decreases n,
{
    if n > 0 {
        lemma_turns_lost_upto_bounded(p, words, (n - 1) as nat);
        lemma_round_count_le_capacity(p, words, (n - 1) as nat);
    }
}

/// No trial loses more than `max_possible_sum` turns.
pub proof fn lemma_trial_outcome_bounded(p: TrialPolicy, words: Seq<u64>)
    ensures
        trial_outcome(p, words) <= max_possible_sum(p),
{
    lemma_turns_lost_upto_bounded(p, words, p.rounds as nat);
}

impl TrialPolicy {
    /// Four rounds of two ANDed 64-bit words, with round 0 kept to its low 39 bits.
    pub fn standard() -> (r: TrialPolicy)
        ensures
            r == (TrialPolicy {
                rounds: 4,
                draw: Draw::TwoWords,
                masked: MaskedRounds::FirstOnly,
                mask_bits: 39,
            }),
    {
        TrialPolicy { rounds: 4, draw: Draw::TwoWords, masked: MaskedRounds::FirstOnly, mask_bits: 39 }
    }
}

/// Turns lost in round `round` when it counts the word `w`.
pub fn round_turns_lost(policy: &TrialPolicy, round: u32, w: u64) -> (r: u32)
    ensures
        r as nat == round_count(*policy, round as nat, w),
        r <= 64,
{
    let masked = match policy.masked {
        MaskedRounds::FirstOnly => round == 0,
        MaskedRounds::AllButFirst => round != 0,
    };
    let counted = if masked {
        keep_low_bits(w, policy.mask_bits)
    } else {
        w
    };
    proof {
        lemma_popcount_le_64(counted);
    }
    count_ones(counted)
}

/// The word that round `round` counts, taken from the trial's draws.
pub fn round_word(draw: Draw, words: &Vec<u64>, round: u32) -> (r: u64)
    requires
        (round + 1) * draws_per_round(draw) <= words@.len(),
    ensures
        r == candidate(draw, words@, round as nat),
{
    match draw {
        Draw::TwoWords => {
            let n = words.len();
            assert(2 * (round as int) + 1 < n);
            let i = 2 * (round as usize);
            words[i] & words[i + 1]
        },
        Draw::HighLow => {
            let x = words[round as usize];
            (x >> 32u64) & x
        },
    }
}

/// Turns lost in a trial that drew `words`, in order.
pub fn turns_lost(policy: &TrialPolicy, words: &Vec<u64>) -> (r: u64)
    requires
        words@.len() == draws_per_trial(*policy),
    ensures
        r as nat == trial_outcome(*policy, words@),
{
    let mut sum: u64 = 0;
    let mut i: u32 = 0;
    while i < policy.rounds
        invariant
            i <= policy.rounds,
            words@.len() == draws_per_trial(*policy),
            sum as nat == turns_lost_upto(*policy, words@, i as nat),
        decreases policy.rounds - i,
    {
        proof {
            lemma_turns_lost_upto_bounded(*policy, words@, (i + 1) as nat);
            lemma_round_count_le_capacity(*policy, words@, i as nat);
            assert((i + 1) * draws_per_round(policy.draw) <= policy.rounds * draws_per_round(
                policy.draw,
            )) by (nonlinear_arith)
                requires
                    i < policy.rounds,
            ;
        }
        let w = round_word(policy.draw, words, i);
        let c = round_turns_lost(policy, i, w);
        sum = sum + c as u64;
        i = i + 1;
    }
    sum
}


/// Runs one trial: draws its words from `rng`, in order, and counts the turns lost.
pub fn calculate_attempt<R: WordSource>(policy: &TrialPolicy, rng: &mut R) -> (r: u64)
    requires
        draws_per_trial(*policy) <= usize::MAX,
    ensures
        final(rng).drawn().len() == old(rng).drawn().len() + draws_per_trial(*policy),
        final(rng).drawn().take(old(rng).drawn().len() as int) == old(rng).drawn(),
        r as nat == trial_outcome(
            *policy,
            final(rng).drawn().skip(old(rng).drawn().len() as int),
        ),
        is_possible_outcome(*policy, r),
        r <= max_possible_sum(*policy),
{
    let per_round: usize = match policy.draw {
        Draw::TwoWords => 2,
        Draw::HighLow => 1,
    };
    let n: usize = policy.rounds as usize * per_round;
    let mut words: Vec<u64> = Vec::new();
    while words.len() < n
        invariant
            n == draws_per_trial(*policy),
            words@.len() <= n,
            rng.drawn() == old(rng).drawn() + words@,
        decreases n - words@.len(),
    {
        let w = rng.next_word();
        words.push(w);
    }
    let r = turns_lost(policy, &words);
    proof {
        lemma_trial_outcome_bounded(*policy, words@);
        assert(trial_outcome(*policy, words@) == r as nat);
        assert(rng.drawn().skip(old(rng).drawn().len() as int) =~= words@);
        assert(rng.drawn().take(old(rng).drawn().len() as int) =~= old(rng).drawn());
    }
    r
}


/// Whatever words were drawn, a trial loses at most `max_possible_sum` turns.
pub proof fn lemma_possible_outcome_bounded(p: TrialPolicy, o: u64)
    requires
        is_possible_outcome(p, o),
    ensures
        o <= max_possible_sum(p),
{
    let words = choose|words: Seq<u64>|
        words.len() == draws_per_trial(p) && #[trigger] trial_outcome(p, words) == o;
    lemma_trial_outcome_bounded(p, words);
}

} // verus!
