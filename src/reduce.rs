//! Folding trial outcomes into their maximum.

use crate::source::{ThreadSource, WordSource};
use crate::trial::{
    calculate_attempt, draws_per_trial, is_possible_outcome,
    lemma_possible_outcome_bounded, lemma_turns_lost_upto_bounded, max_possible_sum,
    trial_outcome, TrialPolicy,
};
use rayon::iter::{IntoParallelIterator, ParallelIterator};
use vstd::prelude::*;

verus! {

/// The largest value in `s`, or 0 when `s` is empty.
pub open spec fn max_of(s: Seq<u64>) -> u64
    decreases s.len(),
{
    if s.len() == 0 {
        0
    } else {
        let rest = max_of(s.drop_last());
        if s.last() > rest {
            s.last()
        } else {
            rest
        }
    }
}

/// `m` is the maximum of `n` outcomes that trials under `p` can have.
pub open spec fn is_max_of_trials(p: TrialPolicy, n: nat, m: u64) -> bool {
    exists|outcomes: Seq<u64>|
        #![trigger max_of(outcomes)]
        outcomes.len() == n && (forall|i: int|
            0 <= i < outcomes.len() ==> is_possible_outcome(p, #[trigger] outcomes[i]))
            && m == max_of(outcomes)
}

/// A bound on every value of `s` bounds `max_of(s)`.
pub proof fn lemma_max_of_le(s: Seq<u64>, b: nat)
    requires
        forall|i: int| 0 <= i < s.len() ==> s[i] <= b,
    ensures
        max_of(s) <= b,
    decreases s.len(),
{
    if s.len() > 0 {
        assert forall|i: int| 0 <= i < s.len() - 1 implies s.drop_last()[i] <= b by {
            assert(s.drop_last()[i] == s[i]);
        }
        lemma_max_of_le(s.drop_last(), b);
    }
}

/// Splitting a sequence of outcomes anywhere and combining the two maxima
/// gives the maximum of the whole: how the outcomes are shared among
/// workers does not change the result.
pub proof fn lemma_max_of_concat(a: Seq<u64>, b: Seq<u64>)
    ensures
        max_of(a + b) == (if max_of(a) > max_of(b) {
            max_of(a)
        } else {
            max_of(b)
        }),
    decreases b.len(),
{
    if b.len() == 0 {
        assert(a + b =~= a);
    } else {
        assert((a + b).drop_last() =~= a + b.drop_last());
        lemma_max_of_concat(a, b.drop_last());
    }
}

/// Running more trials on the same stream of outcomes never lowers the maximum.
pub proof fn lemma_max_of_extension(a: Seq<u64>, b: Seq<u64>)
    ensures
        max_of(a) <= max_of(a + b),
{
    lemma_max_of_concat(a, b);
}

/// The largest of `outcomes[lo..hi]`, or 0 when the range is empty.
pub fn max_in_range(outcomes: &Vec<u64>, lo: usize, hi: usize) -> (r: u64)
    requires
        lo <= hi <= outcomes@.len(),
    ensures
        r == max_of(outcomes@.subrange(lo as int, hi as int)),
{
    let mut best: u64 = 0;
    let mut i: usize = lo;
    while i < hi
        invariant
            lo <= i <= hi <= outcomes@.len(),
            best == max_of(outcomes@.subrange(lo as int, i as int)),
        decreases hi - i,
    {
        assert(outcomes@.subrange(lo as int, i + 1).drop_last() =~= outcomes@.subrange(
            lo as int,
            i as int,
        ));
        if outcomes[i] > best {
            best = outcomes[i];
        }
        i = i + 1;
    }
    best
}

/// The largest of `outcomes`, or 0 when there are none.
pub fn max_outcome(outcomes: &Vec<u64>) -> (r: u64)
    ensures
        r == max_of(outcomes@),
{
    let r = max_in_range(outcomes, 0, outcomes.len());
    assert(outcomes@.subrange(0, outcomes@.len() as int) =~= outcomes@);
    r
}

/// A sequential reference for a fork-join maximum: the outcomes are cut into
/// `workers` contiguous chunks, each chunk is reduced to its own maximum, and
/// those maxima are reduced in turn. The result is `max_of(outcomes@)` for
/// every worker count; 0 counts as 1.
pub fn max_outcome_chunked(outcomes: &Vec<u64>, workers: usize) -> (r: u64)
    ensures
        r == max_of(outcomes@),
{
    let n = outcomes.len();
    let w: usize = if workers == 0 {
        1
    } else {
        workers
    };
    let chunk: usize = if n == 0 {
        1
    } else {
        assert((n - 1) / (w as int) <= n - 1) by (nonlinear_arith)
            requires
                n >= 1,
                w >= 1,
        ;
        (n - 1) / w + 1
    };
    let mut best: u64 = 0;
    let mut lo: usize = 0;
    while lo < n
        invariant
            n == outcomes@.len(),
            chunk >= 1,
            lo <= n,
            best == max_of(outcomes@.subrange(0, lo as int)),
        decreases n - lo,
    {
        let hi: usize = if n - lo <= chunk {
            n
        } else {
            lo + chunk
        };
        let local = max_in_range(outcomes, lo, hi);
        proof {
            lemma_max_of_concat(
                outcomes@.subrange(0, lo as int),
                outcomes@.subrange(lo as int, hi as int),
            );
            assert(outcomes@.subrange(0, lo as int) + outcomes@.subrange(lo as int, hi as int)
                =~= outcomes@.subrange(0, hi as int));
        }
        if local > best {
            best = local;
        }
        lo = hi;
    }
    assert(outcomes@.subrange(0, n as int) =~= outcomes@);
    best
}

/// Relies on rayon's `into_par_iter`, `map_init` and `max`: the closure runs
/// once for each index of `0..iterations`, on a source that `ThreadSource::new`
/// made on the running worker, and `max` returns the largest of the results,
/// or `None` when the range is empty.
#[verifier::external_body]
fn par_max_trials(policy: &TrialPolicy, iterations: usize) -> (r: Option<u64>)
    requires
        draws_per_trial(*policy) <= usize::MAX,
    ensures
        r is None <==> iterations == 0,
        r matches Some(m) ==> is_max_of_trials(*policy, iterations as nat, m),
{
    (0..iterations).into_par_iter().map_init(ThreadSource::new, |src, _| calculate_attempt(policy, src)).max()
}

/// The most turns lost in any of `iterations` independent trials, run in
/// parallel with one random source per worker; 0 when there are none.
pub fn calculate_odds(policy: &TrialPolicy, iterations: usize) -> (r: u64)
    requires
        draws_per_trial(*policy) <= usize::MAX,
    ensures
        iterations == 0 ==> r == 0,
        iterations > 0 ==> is_max_of_trials(*policy, iterations as nat, r),
        r <= max_possible_sum(*policy),
{
    if iterations == 0 {
        return 0;
    }
    match par_max_trials(policy, iterations) {
        Some(m) => {
            proof {
                let outcomes = choose|outcomes: Seq<u64>|
                    #![trigger max_of(outcomes)]
                    outcomes.len() == iterations && (forall|i: int|
                        0 <= i < outcomes.len() ==> is_possible_outcome(
                            *policy,
                            #[trigger] outcomes[i],
                        )) && m == max_of(outcomes);
                assert forall|i: int| 0 <= i < outcomes.len() implies outcomes[i]
                    <= max_possible_sum(*policy) by {
                    lemma_possible_outcome_bounded(*policy, outcomes[i]);
                }
                lemma_max_of_le(outcomes, max_possible_sum(*policy));
            }
            m
        },
        None => 0,
    }
}


/// Outcomes of `n` trials run one after another on the stream `words`: trial
/// `i` counts the words `i * d .. (i + 1) * d`, where `d` is `draws_per_trial(p)`.
pub open spec fn trial_outcomes(p: TrialPolicy, words: Seq<u64>, n: nat) -> Seq<u64>
    decreases n,
{
    if n == 0 {
        Seq::empty()
    } else {
        let d = draws_per_trial(p) as int;
        trial_outcomes(p, words, (n - 1) as nat).push(
            trial_outcome(p, words.subrange((n - 1) * d, n * d)) as u64,
        )
    }
}

/// The outcomes of the first `m` trials of a stream are a prefix of those of
/// the first `n`, and only the words those trials drew matter.
pub proof fn lemma_trial_outcomes_prefix(p: TrialPolicy, words: Seq<u64>, m: nat, n: nat)
    requires
        m <= n,
    ensures
        trial_outcomes(p, words, n).len() == n,
        trial_outcomes(p, words, n).take(m as int) == trial_outcomes(p, words, m),
    decreases n,
{
    if n > m {
        lemma_trial_outcomes_prefix(p, words, m, (n - 1) as nat);
        assert(trial_outcomes(p, words, n).take(m as int) =~= trial_outcomes(
            p,
            words,
            (n - 1) as nat,
        ).take(m as int));
    } else if n > 0 {
        lemma_trial_outcomes_prefix(p, words, (n - 1) as nat, (n - 1) as nat);
        assert(trial_outcomes(p, words, n).take(m as int) =~= trial_outcomes(p, words, n));
    } else {
        assert(trial_outcomes(p, words, n).take(m as int) =~= trial_outcomes(p, words, n));
    }
}

/// Only the words that the first `n` trials draw decide their outcomes.
pub proof fn lemma_trial_outcomes_same_words(p: TrialPolicy, v: Seq<u64>, w: Seq<u64>, n: nat)
    requires
        n * draws_per_trial(p) <= v.len(),
        n * draws_per_trial(p) <= w.len(),
        v.take(n * draws_per_trial(p) as int) == w.take(n * draws_per_trial(p) as int),
    ensures
        trial_outcomes(p, v, n) == trial_outcomes(p, w, n),
    decreases n,
{
    if n > 0 {
        let d = draws_per_trial(p) as int;
        assert(0 <= (n - 1) * d <= n * d) by (nonlinear_arith)
            requires
                n > 0,
                d >= 0,
        ;
        assert(v.take((n - 1) * d) =~= v.take(n * d).take((n - 1) * d));
        assert(w.take((n - 1) * d) =~= w.take(n * d).take((n - 1) * d));
        lemma_trial_outcomes_same_words(p, v, w, (n - 1) as nat);
        assert(v.subrange((n - 1) * d, n * d) =~= v.take(n * d).subrange((n - 1) * d, n * d));
        assert(w.subrange((n - 1) * d, n * d) =~= w.take(n * d).subrange((n - 1) * d, n * d));
    }
}

/// Every trial replayed from a long enough stream has an outcome that some
/// draw can give.
pub proof fn lemma_replayed_outcomes_possible(p: TrialPolicy, words: Seq<u64>, n: nat)
    requires
        n * draws_per_trial(p) <= words.len(),
    ensures
        forall|i: int|
            0 <= i < trial_outcomes(p, words, n).len() ==> is_possible_outcome(
                p,
                #[trigger] trial_outcomes(p, words, n)[i],
            ),
    decreases n,
{
    lemma_trial_outcomes_prefix(p, words, n, n);
    if n > 0 {
        let d = draws_per_trial(p) as int;
        assert(0 <= (n - 1) * d && (n - 1) * d + d == n * d) by (nonlinear_arith)
            requires
                n > 0,
                d >= 0,
        ;
        lemma_replayed_outcomes_possible(p, words, (n - 1) as nat);
        lemma_trial_outcomes_prefix(p, words, (n - 1) as nat, (n - 1) as nat);
        let sub = words.subrange((n - 1) * d, n * d);
        lemma_turns_lost_upto_bounded(p, sub, p.rounds as nat);
        assert(trial_outcome(p, sub) <= u64::MAX);
        let t = trial_outcomes(p, words, n);
        assert forall|i: int| 0 <= i < t.len() implies is_possible_outcome(p, #[trigger] t[i]) by {
            if i < n - 1 {
                assert(t[i] == trial_outcomes(p, words, (n - 1) as nat)[i]);
            } else {
                assert(trial_outcome(p, sub) == t[i]);
            }
        }
    }
}

/// Replaying one stream of words, more trials never give a lower maximum
/// than fewer.
pub proof fn lemma_replay_max_monotone(p: TrialPolicy, words: Seq<u64>, m: nat, n: nat)
    requires
        m <= n,
    ensures
        max_of(trial_outcomes(p, words, m)) <= max_of(trial_outcomes(p, words, n)),
{
    let t = trial_outcomes(p, words, n);
    lemma_trial_outcomes_prefix(p, words, m, n);
    assert(t =~= t.take(m as int) + t.skip(m as int));
    lemma_max_of_extension(t.take(m as int), t.skip(m as int));
}

/// The most turns lost in `iterations` trials run one after another on the
/// single source `rng`; 0 when there are none.
pub fn max_of_attempts<R: WordSource>(policy: &TrialPolicy, rng: &mut R, iterations: usize) -> (r: u64)
    requires
        draws_per_trial(*policy) <= usize::MAX,
    ensures
        final(rng).drawn().len() == old(rng).drawn().len() + iterations * draws_per_trial(*policy),
        final(rng).drawn().take(old(rng).drawn().len() as int) == old(rng).drawn(),
        r == max_of(
            trial_outcomes(
                *policy,
                final(rng).drawn().skip(old(rng).drawn().len() as int),
                iterations as nat,
            ),
        ),
        is_max_of_trials(*policy, iterations as nat, r),
{
    let ghost start = old(rng).drawn();
    let ghost d = draws_per_trial(*policy) as int;
    let mut best: u64 = 0;
    let mut i: usize = 0;
    while i < iterations
        invariant
            i <= iterations,
            d == draws_per_trial(*policy),
            d <= usize::MAX,
            rng.drawn().len() == start.len() + i * d,
            rng.drawn().take(start.len() as int) == start,
            best == max_of(trial_outcomes(*policy, rng.drawn().skip(start.len() as int), i as nat)),
        decreases iterations - i,
    {
        let ghost before = rng.drawn();
        let o = calculate_attempt(policy, rng);
        proof {
            let after = rng.drawn();
            let k = start.len() as int;
            assert((i + 1) * d == i * d + d && 0 <= i * d) by (nonlinear_arith)
                requires
                    d >= 0,
            ;
            assert(after.take(before.len() as int) =~= before);
            assert(after.take(k) =~= before.take(k));
            let sb = before.skip(k);
            let sa = after.skip(k);
            assert(sa.take(i * d) =~= sb.take(i * d));
            lemma_trial_outcomes_same_words(*policy, sa, sb, i as nat);
            assert(sa.subrange(i * d, (i + 1) * d) =~= after.skip(before.len() as int));
            let prev = trial_outcomes(*policy, sa, i as nat);
            let next = trial_outcomes(*policy, sa, (i + 1) as nat);
            assert(next.drop_last() =~= prev);
        }
        if o > best {
            best = o;
        }
        i = i + 1;
    }
    proof {
        let k = start.len() as int;
        let sa = rng.drawn().skip(k);
        assert(iterations * draws_per_trial(*policy) <= sa.len());
        lemma_replayed_outcomes_possible(*policy, sa, iterations as nat);
        lemma_trial_outcomes_prefix(*policy, sa, iterations as nat, iterations as nat);
    }
    best
}

} // verus!
