//! Guess ranking: order the guess pool ascending by worst-case bucket size
//! over the full answer set (ties broken by original index), permuting the
//! score cache in lockstep so row `g` still belongs to guess `g`.  The
//! ranking is an optimization only: it never changes solvability.

use vstd::prelude::*;
use crate::score::{WORD_LEN, score_spec};
use crate::scorer::{Scorer, worst_case_spec, copy_vals};
use crate::search::{solvable, lemma_same_rows_solvable, row_in};

verus! {

/// Pair ordering used by the ranking: worst case first, original guess
/// index as tie-break.
pub open spec fn lex_le(p: (usize, usize), q: (usize, usize)) -> bool {
    p.0 < q.0 || (p.0 == q.0 && p.1 <= q.1)
}

/// The first `n` answer indices, in order.
pub open spec fn all_indices(n: nat) -> Seq<usize> {
    Seq::new(n, |i: int| i as usize)
}

/// Position `j` is hit by `perm`.
pub open spec fn perm_covers(perm: Seq<int>, j: int) -> bool {
    exists|i: int| 0 <= i < perm.len() && #[trigger] perm[i] == j
}

/// `perm` maps new positions onto old positions, covering every old one.
pub open spec fn perm_valid(perm: Seq<int>, n: int) -> bool {
    &&& perm.len() == n
    &&& forall|i: int| 0 <= i < n ==> 0 <= #[trigger] perm[i] < n
    &&& forall|j: int| 0 <= j < n ==> #[trigger] perm_covers(perm, j)
}

/// The worst case of old guess `g1` precedes that of old guess `g2` in the
/// ranking order (ties broken by original index).
pub open spec fn rank_le(s0: Scorer, g1: int, g2: int) -> bool {
    let w1 = worst_case_spec(s0.rows()[g1], all_indices(s0.answer_words().len()));
    let w2 = worst_case_spec(s0.rows()[g2], all_indices(s0.answer_words().len()));
    w1 < w2 || (w1 == w2 && g1 <= g2)
}

/// `s1` is `s0` with guesses and cache rows re-ordered by `perm`, sorted by
/// the ranking order.
pub open spec fn is_reranking(s0: Scorer, s1: Scorer, perm: Seq<int>) -> bool {
    &&& s1.guess_words().len() == s0.guess_words().len()
    &&& s1.rows().len() == s0.rows().len()
    &&& s0.rows().len() == perm.len()
    &&& s0.guess_words().len() == perm.len()
    &&& forall|i: int|
        0 <= i < perm.len() ==> #[trigger] s1.guess_words()[i] == s0.guess_words()[perm[i]]
    &&& forall|i: int| 0 <= i < perm.len() ==> #[trigger] s1.rows()[i] == s0.rows()[perm[i]]
    &&& forall|i: int, j: int| 0 <= i <= j < perm.len() ==> rank_le(s0, perm[i], perm[j])
}

/// Re-ranking the guess pool does not change the solvability result for
/// any budget: the re-ordered cache holds the same score rows.
pub proof fn lemma_reranking_preserves_solvable(
    s0: Scorer,
    s1: Scorer,
    perm: Seq<int>,
    n: nat,
    cs: Set<usize>,
)
    requires
        perm_valid(perm, s0.rows().len() as int),
        is_reranking(s0, s1, perm),
    ensures
        solvable(s0.rows(), n, cs) == solvable(s1.rows(), n, cs),
{
    let c0 = s0.rows();
    let c1 = s1.rows();
    assert forall|g1: int| 0 <= g1 < c1.len() implies #[trigger] row_in(c0, c1[g1]) by {
        assert(c0[perm[g1]] == c1[g1]);
    }
    assert forall|g0: int| 0 <= g0 < c0.len() implies #[trigger] row_in(c1, c0[g0]) by {
        assert(perm_covers(perm, g0));
        let i = choose|i: int| 0 <= i < perm.len() && #[trigger] perm[i] == g0;
        assert(c1[i] == c0[g0]);
    }
    lemma_same_rows_solvable(c1, c0, n, cs);
}

/// Sort ranking pairs ascending in the lexicographic order, by insertion.
fn sort_pairs(pairs: Vec<(usize, usize)>) -> (r: Vec<(usize, usize)>)
    ensures
        r@.len() == pairs@.len(),
        r@.to_multiset() == pairs@.to_multiset(),
        forall|i: int, j: int| 0 <= i <= j < r@.len() ==> lex_le(#[trigger] r@[i], #[trigger] r@[j]),
{
    let ghost orig = pairs@;
    let mut v = pairs;
    let mut i: usize = 1;
    while i < v.len()
        invariant
            v@.len() == orig.len(),
            v@.to_multiset() == orig.to_multiset(),
            1 <= i || v@.len() == 0,
            i <= v@.len() || v@.len() <= 1,
            forall|p: int, q: int| 0 <= p <= q < i && q < v@.len() ==> lex_le(
                #[trigger] v@[p],
                #[trigger] v@[q],
            ),
        decreases v@.len() - i,
    {
        let mut j: usize = i;
        while j > 0 && (v[j].0 < v[j - 1].0 || (v[j].0 == v[j - 1].0 && v[j].1 < v[j - 1].1))
            invariant
                v@.len() == orig.len(),
                v@.to_multiset() == orig.to_multiset(),
                i < v@.len(),
                0 <= j <= i,
                forall|p: int, q: int|
                    0 <= p <= q <= i && q != j ==> lex_le(#[trigger] v@[p], #[trigger] v@[q]),
                forall|q: int| j < q <= i ==> lex_le(#[trigger] v@[j as int], v@[q]),
            decreases j,
        {
            let a = v[j - 1];
            let b = v[j];
            proof {
                let s0 = v@;
                vstd::seq_lib::to_multiset_update(s0, j - 1, b);
                vstd::seq_lib::to_multiset_update(s0.update(j - 1, b), j as int, a);
                assert(s0.contains(s0[j - 1]));
                assert(s0.update(j - 1, b).contains(b)) by {
                    assert(s0.update(j - 1, b)[j - 1] == b);
                }
                vstd::seq_lib::to_multiset_contains(s0, s0[j - 1]);
                vstd::seq_lib::to_multiset_contains(s0.update(j - 1, b), b);
                broadcast use vstd::multiset::group_multiset_axioms;

                assert(s0.update(j - 1, b).update(j as int, a).to_multiset() =~= s0.to_multiset());
            }
            v.set(j - 1, b);
            v.set(j, a);
            j = j - 1;
        }
        i = i + 1;
    }
    v
}

impl Scorer {
    /// Re-order the guess pool so that guesses minimising the largest
    /// bucket over the whole answer set come first, permuting the score
    /// cache in lockstep.  Returns the sorted worst-case values, one per
    /// guess in the new order, for reporting.
    pub fn optimise_guess_order(&mut self) -> (r: Vec<usize>)
        requires
            old(self).wf(),
            old(self).answer_words().len() > 0,
        ensures
            final(self).wf(),
            final(self).answer_words() == old(self).answer_words(),
            exists|perm: Seq<int>|
                perm_valid(perm, old(self).rows().len() as int) && #[trigger] is_reranking(
                    *old(self),
                    *final(self),
                    perm,
                ),
            r@.len() == final(self).guess_words().len(),
            forall|i: int|
                0 <= i < r@.len() ==> (#[trigger] r@[i]) as int == worst_case_spec(
                    final(self).rows()[i],
                    all_indices(final(self).answer_words().len()),
                ),
            forall|i: int, j: int|
                0 <= i <= j < r@.len() ==> (#[trigger] r@[i]) <= (#[trigger] r@[j]),
    {
        let ghost s0 = *self;
        let n_g = self.guesses.len();

        let mut answer_nums: Vec<usize> = Vec::new();
        while answer_nums.len() < self.answers.len()
            invariant
                *self == s0,
                answer_nums@.len() <= self.answers@.len(),
                forall|i: int|
                    0 <= i < answer_nums@.len() ==> (#[trigger] answer_nums@[i]) == i as usize,
            decreases self.answers@.len() - answer_nums@.len(),
        {
            let next = answer_nums.len();
            answer_nums.push(next);
        }
        proof {
            assert(answer_nums@ =~= all_indices(s0.answer_words().len()));
            assert forall|p: int|
                0 <= p < answer_nums@.len() implies (#[trigger] answer_nums@[p])
                < s0.answer_words().len() by {
                assert(answer_nums@[p] == p as usize);
            }
        }

        let mut pairs: Vec<(usize, usize)> = Vec::new();
        let mut g: usize = 0;
        while g < n_g
            invariant
                *self == s0,
                s0.wf(),
                s0.answer_words().len() > 0,
                n_g == s0.guess_words().len(),
                answer_nums@ == all_indices(s0.answer_words().len()),
                forall|p: int|
                    0 <= p < answer_nums@.len() ==> (#[trigger] answer_nums@[p])
                        < s0.answer_words().len(),
                0 <= g <= n_g,
                pairs@.len() == g,
                forall|g1: int|
                    0 <= g1 < g ==> (#[trigger] pairs@[g1]).1 == g1 as usize,
                forall|g1: int|
                    0 <= g1 < g ==> (#[trigger] pairs@[g1]).0 as int == worst_case_spec(
                        s0.rows()[g1],
                        all_indices(s0.answer_words().len()),
                    ),
            decreases n_g - g,
        {
            let (w, _buckets) = self.find_greedy_worst_case(g, answer_nums.as_slice());
            pairs.push((w, g));
            g = g + 1;
        }
        let ghost p0 = pairs@;

        let sorted = sort_pairs(pairs);
        proof {
            assert forall|i: int| 0 <= i < n_g implies {
                &&& (#[trigger] sorted@[i]).1 < n_g as usize
                &&& sorted@[i] == p0[sorted@[i].1 as int]
            } by {
                let x = sorted@[i];
                assert(sorted@.contains(x));
                vstd::seq_lib::to_multiset_contains(sorted@, x);
                vstd::seq_lib::to_multiset_contains(p0, x);
                assert(p0.contains(x));
                let g1 = choose|g1: int| 0 <= g1 < p0.len() && p0[g1] == x;
                assert(p0[g1].1 == g1 as usize);
            }
            assert forall|j: int|
                #![trigger p0[j]]
                0 <= j < n_g implies exists|i: int|
                0 <= i < n_g && (#[trigger] sorted@[i]) == p0[j] by {
                assert(p0.contains(p0[j]));
                vstd::seq_lib::to_multiset_contains(p0, p0[j]);
                vstd::seq_lib::to_multiset_contains(sorted@, p0[j]);
                assert(sorted@.contains(p0[j]));
                let i = choose|i: int| 0 <= i < sorted@.len() && sorted@[i] == p0[j];
            }
        }

        let mut new_guesses: Vec<Vec<u8>> = Vec::new();
        let mut new_cache: Vec<Vec<u8>> = Vec::new();
        let mut worsts: Vec<usize> = Vec::new();
        let mut i: usize = 0;
        while i < n_g
            invariant
                *self == s0,
                s0.wf(),
                n_g == s0.guess_words().len(),
                sorted@.len() == n_g,
                forall|i1: int|
                    0 <= i1 < n_g ==> (#[trigger] sorted@[i1]).1 < n_g as usize,
                0 <= i <= n_g,
                new_guesses@.len() == i,
                new_cache@.len() == i,
                worsts@.len() == i,
                forall|i1: int|
                    0 <= i1 < i ==> (#[trigger] new_guesses@[i1])@ == s0.guesses@[sorted@[i1].1 as int]@,
                forall|i1: int|
                    0 <= i1 < i ==> (#[trigger] new_cache@[i1])@ == s0.score_cache@[sorted@[i1].1 as int]@,
                forall|i1: int| 0 <= i1 < i ==> (#[trigger] worsts@[i1]) == sorted@[i1].0,
            decreases n_g - i,
        {
            let idx = sorted[i].1;
            new_guesses.push(copy_vals(&self.guesses[idx]));
            new_cache.push(copy_vals(&self.score_cache[idx]));
            worsts.push(sorted[i].0);
            i = i + 1;
        }
        self.guesses = new_guesses;
        self.score_cache = new_cache;

        proof {
            let perm = Seq::new(n_g as nat, |i: int| sorted@[i].1 as int);
            let wa = all_indices(s0.answer_words().len());

            assert(perm_valid(perm, s0.rows().len() as int)) by {
                assert forall|j: int| 0 <= j < n_g implies #[trigger] perm_covers(perm, j) by {
                    let i1 = choose|i1: int|
                        0 <= i1 < n_g && (#[trigger] sorted@[i1]) == p0[j];
                    assert(p0[j].1 == j as usize);
                    assert(perm[i1] == j);
                }
            }

            assert forall|i1: int| 0 <= i1 < perm.len() implies #[trigger] self.guess_words()[i1]
                == s0.guess_words()[perm[i1]] by {
                assert(self.guess_words()[i1] == self.guesses@[i1]@);
                assert(s0.guess_words()[perm[i1]] == s0.guesses@[perm[i1]]@);
            }
            assert forall|i1: int| 0 <= i1 < perm.len() implies #[trigger] self.rows()[i1]
                == s0.rows()[perm[i1]] by {
                assert(self.rows()[i1] == self.score_cache@[i1]@);
                assert(s0.rows()[perm[i1]] == s0.score_cache@[perm[i1]]@);
            }
            assert forall|i1: int, j1: int| 0 <= i1 <= j1 < perm.len() implies rank_le(
                s0,
                perm[i1],
                perm[j1],
            ) by {
                assert(lex_le(sorted@[i1], sorted@[j1]));
                assert(sorted@[i1] == p0[perm[i1]]);
                assert(sorted@[j1] == p0[perm[j1]]);
                assert(p0[perm[i1]].0 as int == worst_case_spec(s0.rows()[perm[i1]], wa));
                assert(p0[perm[j1]].0 as int == worst_case_spec(s0.rows()[perm[j1]], wa));
                assert(p0[perm[i1]].1 == perm[i1] as usize);
                assert(p0[perm[j1]].1 == perm[j1] as usize);
            }
            assert(is_reranking(s0, *self, perm));

            assert(self.wf()) by {
                assert forall|g1: int|
                    0 <= g1 < self.guess_words().len() implies (
                #[trigger] self.guess_words()[g1]).len() == WORD_LEN by {
                    assert(self.guess_words()[g1] == s0.guess_words()[perm[g1]]);
                }
                assert forall|g1: int|
                    0 <= g1 < self.rows().len() implies (#[trigger] self.rows()[g1]).len()
                    == self.answer_words().len() by {
                    assert(self.rows()[g1] == s0.rows()[perm[g1]]);
                }
                assert forall|g1: int, a: int|
                    0 <= g1 < self.rows().len() && 0 <= a < self.answer_words().len() implies (
                #[trigger] self.rows()[g1][a]) as int == score_spec(
                    self.guess_words()[g1],
                    self.answer_words()[a],
                ) by {
                    assert(self.rows()[g1] == s0.rows()[perm[g1]]);
                    assert(self.guess_words()[g1] == s0.guess_words()[perm[g1]]);
                }
                assert forall|a: int| 0 <= a < self.answer_words().len() implies
                    self.answer_guessable(a) by {
                    assert(s0.answer_guessable(a));
                    let g1 = choose|g1: int|
                        0 <= g1 < s0.guess_words().len() && s0.guess_words()[g1]
                            == s0.answer_words()[a];
                    assert(perm_covers(perm, g1));
                    let i1 = choose|i1: int|
                        0 <= i1 < perm.len() && #[trigger] perm[i1] == g1;
                    assert(self.guess_words()[i1] == s0.guess_words()[g1]);
                }
            }

            assert forall|i1: int| 0 <= i1 < worsts@.len() implies (
            #[trigger] worsts@[i1]) as int == worst_case_spec(
                self.rows()[i1],
                all_indices(self.answer_words().len()),
            ) by {
                assert(worsts@[i1] == sorted@[i1].0);
                assert(sorted@[i1] == p0[perm[i1]]);
                assert(p0[perm[i1]].0 as int == worst_case_spec(s0.rows()[perm[i1]], wa));
                assert(self.rows()[i1] == s0.rows()[perm[i1]]);
            }
            assert forall|i1: int, j1: int| 0 <= i1 <= j1 < worsts@.len() implies (
            #[trigger] worsts@[i1]) <= (#[trigger] worsts@[j1]) by {
                assert(lex_le(sorted@[i1], sorted@[j1]));
                assert(worsts@[i1] == sorted@[i1].0);
                assert(worsts@[j1] == sorted@[j1].0);
            }
        }
        worsts
    }
}

} // verus!
