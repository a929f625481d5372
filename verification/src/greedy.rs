//! Greedy single-answer simulation: repeatedly pick the guess with the
//! smallest worst-case bucket, follow the bucket holding the target, and
//! count the guesses used.  This traces how a greedy player would narrow
//! down the answer; the count is a heuristic upper bound, not a proof of
//! optimality.

use vstd::prelude::*;
use crate::score::{
    WORD_LEN, score_spec, encode_spec, all_correct, lemma_score_self, lemma_all_correct_iff_equal,
};
use crate::scorer::{
    Scorer, Bucket, bucket_of, code_occurs, has_bucket, grouped, worst_case_spec,
    lemma_bucket_membership, lemma_bucket_no_dup, lemma_bucket_len_lt, lemma_worst_below_le,
    lemma_grouped_worst,
};

verus! {

/// The guess a greedy player picks from the first `m` guesses: smallest
/// worst case over the candidates, earliest index winning ties.
pub open spec fn greedy_best(s: Scorer, cands: Seq<usize>, m: int) -> int
    decreases m,
{
    if m <= 1 {
        0
    } else {
        let b = greedy_best(s, cands, m - 1);
        if worst_case_spec(s.rows()[m - 1], cands) < worst_case_spec(s.rows()[b], cands) {
            m - 1
        } else {
            b
        }
    }
}

/// The number of guesses the greedy play takes: pick the best guess,
/// restrict the candidates to the bucket holding the target, and repeat
/// until one candidate is left.  `None` when `fuel` recursions do not
/// suffice.
pub open spec fn greedy_steps(s: Scorer, cands: Seq<usize>, target: usize, fuel: nat) -> Option<
    int,
>
    decreases fuel,
{
    if fuel == 0 {
        None
    } else if cands.len() == 1 {
        Some(1int)
    } else {
        let g = greedy_best(s, cands, s.guess_words().len() as int);
        let row = s.rows()[g];
        let k = row[target as int];
        match greedy_steps(s, bucket_of(row, cands, k), target, (fuel - 1) as nat) {
            Some(m) => Some(m + 1),
            None => None,
        }
    }
}

/// Enough fuel is enough: once the greedy play finishes within `f1`
/// recursions, more fuel changes nothing.
pub proof fn lemma_greedy_steps_fuel(s: Scorer, cands: Seq<usize>, target: usize, f1: nat, f2: nat)
    requires
        f1 <= f2,
        greedy_steps(s, cands, target, f1) is Some,
    ensures
        greedy_steps(s, cands, target, f2) == greedy_steps(s, cands, target, f1),
    decreases f1,
{
    if f1 > 0 && cands.len() != 1 {
        let g = greedy_best(s, cands, s.guess_words().len() as int);
        let row = s.rows()[g];
        let k = row[target as int];
        lemma_greedy_steps_fuel(s, bucket_of(row, cands, k), target, (f1 - 1) as nat, (f2
            - 1) as nat);
    }
}

/// Number of guesses a greedy player needs to isolate `target` from the
/// candidate set `answers`, having already used `depth` guesses.  The
/// count always exceeds `depth` by at least one and by at most the number
/// of candidates, because every greedy guess strictly shrinks the
/// candidate set.
pub fn guess_greedily(s: &Scorer, depth: usize, answers: &[usize], target: usize) -> (r: usize)
    requires
        s.wf(),
        answers@.no_duplicates(),
        forall|p: int|
            0 <= p < answers@.len() ==> (#[trigger] answers@[p]) < s.answer_words().len(),
        answers@.contains(target),
        forall|p1: int, p2: int|
            0 <= p1 < p2 < answers@.len() ==> s.answer_words()[(#[trigger] answers@[p1]) as int]
                != s.answer_words()[(#[trigger] answers@[p2]) as int],
        depth + answers@.len() <= usize::MAX,
    ensures
        depth < r <= depth + answers@.len(),
        greedy_steps(*s, answers@, target, answers@.len() as nat) == Some((r - depth) as int),
    decreases answers@.len(),
{
    let ghost tpos = choose|tp: int| 0 <= tp < answers@.len() && answers@[tp] == target;
    if answers.len() == 1 {
        return depth + 1;
    }

    // The answer pool is non-empty and every answer is guessable, so the
    // guess pool is non-empty too.
    proof {
        assert(answers@[0] < s.answer_words().len());
        assert(s.answer_guessable(answers@[0] as int));
        let gg = choose|g: int|
            0 <= g < s.guess_words().len() && s.guess_words()[g] == s.answer_words()[answers@[0] as int];
        assert(s.guess_words().len() > 0);
    }

    // Find the guess with the smallest worst-case bucket (first wins ties,
    // matching the ranking order).
    let first = s.find_greedy_worst_case(0, answers);
    let mut best_w: usize = first.0;
    let mut best_buckets: Vec<Bucket> = first.1;
    let mut best_g: usize = 0;
    let mut g: usize = 1;
    while g < s.guesses.len()
        invariant
            s.wf(),
            answers@.no_duplicates(),
            forall|p: int|
                0 <= p < answers@.len() ==> (#[trigger] answers@[p]) < s.answer_words().len(),
            answers@.len() >= 2,
            s.guesses@.len() == s.guess_words().len(),
            1 <= g <= s.guess_words().len(),
            best_g < g,
            best_g as int == greedy_best(*s, answers@, g as int),
            best_w as int == worst_case_spec(s.rows()[best_g as int], answers@),
            grouped(s.rows()[best_g as int], answers@, best_buckets@),
            best_buckets@.len() > 0,
            forall|g1: int|
                0 <= g1 < g ==> best_w as int <= worst_case_spec(#[trigger] s.rows()[g1], answers@),
        decreases s.guess_words().len() - g,
    {
        let cand = s.find_greedy_worst_case(g, answers);
        if cand.0 < best_w {
            best_w = cand.0;
            best_buckets = cand.1;
            best_g = g;
        }
        g = g + 1;
    }
    let ghost row = s.rows()[best_g as int];

    // Guessing any candidate's own word splits that candidate off from the
    // rest, so the smallest worst case is below the candidate count.
    proof {
        let a0 = answers@[0];
        let a1 = answers@[1];
        assert(s.answer_guessable(a0 as int));
        let g0 = choose|g1: int|
            0 <= g1 < s.guess_words().len() && s.guess_words()[g1] == s.answer_words()[a0 as int];
        let row0 = s.rows()[g0];
        let gw = s.guess_words()[g0];
        let aw0 = s.answer_words()[a0 as int];
        let aw1 = s.answer_words()[a1 as int];
        assert(aw0 != aw1);
        assert forall|k: u8| (#[trigger] bucket_of(row0, answers@, k)).len() <= answers@.len()
            - 1 by {
            let c0 = row0[a0 as int];
            if k != c0 {
                lemma_bucket_len_lt(row0, answers@, 0, k);
            } else {
                assert(c0 as int == score_spec(gw, aw0));
                assert(gw == aw0);
                lemma_score_self(gw);
                assert(c0 as int == encode_spec(all_correct(WORD_LEN as nat)));
                lemma_all_correct_iff_equal(gw, aw1);
                assert(row0[a1 as int] as int == score_spec(gw, aw1));
                assert(score_spec(gw, aw1) != encode_spec(all_correct(gw.len())));
                assert(row0[a1 as int] != k);
                lemma_bucket_len_lt(row0, answers@, 1, k);
            }
        }
        lemma_worst_below_le(row0, answers@, 256, answers@.len() - 1);
        assert(worst_case_spec(row0, answers@) <= answers@.len() - 1);
        assert(best_w as int <= worst_case_spec(row0, answers@));
        assert((best_w as int) < answers@.len());
    }

    // Follow the bucket holding the target.
    let target_code = s.score_cache[best_g][target];
    proof {
        assert(s.score_cache@[best_g as int]@ == row);
        assert(target_code == row[target as int]);
        assert(code_occurs(row, answers@, target_code)) by {
            assert(answers@[tpos] == target);
        }
    }
    let mut j: usize = 0;
    while j < best_buckets.len() && best_buckets[j].code != target_code
        invariant
            0 <= j <= best_buckets@.len(),
            forall|j1: int| 0 <= j1 < j ==> (#[trigger] best_buckets@[j1]).code != target_code,
        decreases best_buckets@.len() - j,
    {
        j = j + 1;
    }
    proof {
        assert(has_bucket(best_buckets@, target_code));
        assert(j < best_buckets@.len()) by {
            if j == best_buckets@.len() {
                let jj = choose|jj: int|
                    0 <= jj < best_buckets@.len() && (#[trigger] best_buckets@[jj]).code
                        == target_code;
            }
        }
        let items = best_buckets@[j as int].items@;
        assert(items == bucket_of(row, answers@, target_code));
        lemma_bucket_no_dup(row, answers@, target_code);
        lemma_bucket_membership(row, answers@, target_code);
        assert(items.contains(target)) by {
            assert(answers@.contains(target));
        }
        assert forall|p: int| 0 <= p < items.len() implies (#[trigger] items[p])
            < s.answer_words().len() by {
            assert(items.contains(items[p]));
            assert(answers@.contains(items[p]));
            let q = choose|q: int| 0 <= q < answers@.len() && answers@[q] == items[p];
        }
        assert forall|p1: int, p2: int|
            0 <= p1 < p2 < items.len() implies s.answer_words()[(#[trigger] items[p1]) as int]
            != s.answer_words()[(#[trigger] items[p2]) as int] by {
            assert(items[p1] != items[p2]);
            assert(items.contains(items[p1]));
            assert(items.contains(items[p2]));
            assert(answers@.contains(items[p1]));
            assert(answers@.contains(items[p2]));
            let q1 = choose|q: int| 0 <= q < answers@.len() && answers@[q] == items[p1];
            let q2 = choose|q: int| 0 <= q < answers@.len() && answers@[q] == items[p2];
            assert(q1 != q2);
        }
        // The chosen bucket is within the worst case, hence strictly
        // smaller than the candidate set.
        lemma_grouped_worst(row, answers@, best_buckets@);
        assert(best_buckets@[0].items@.len() == worst_case_spec(row, answers@));
        assert(items.len() <= best_buckets@[0].items@.len());
        assert(items.len() < answers@.len());
    }
    let sub = guess_greedily(s, depth + 1, best_buckets[j].items.as_slice(), target);
    proof {
        let items = best_buckets@[j as int].items@;
        lemma_greedy_steps_fuel(
            *s,
            items,
            target,
            items.len() as nat,
            (answers@.len() - 1) as nat,
        );
        assert(greedy_best(*s, answers@, s.guess_words().len() as int) == best_g as int);
        assert(greedy_steps(*s, answers@, target, answers@.len() as nat) == Some(
            (sub - depth) as int,
        ));
    }
    sub
}

} // verus!
