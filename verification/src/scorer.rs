//! The `Scorer` owns the two word pools and a dense cache of the feedback
//! code for every (guess, answer) pair, built once up front so that the
//! search never rescans raw words.

use vstd::prelude::*;
use crate::score::{
    WORD_LEN, NUM_CODES, score_spec, score_wordle, lemma_score_bounds,
};

verus! {

/// Predicate selecting the candidates whose feedback code under `row` is `k`.
pub open spec fn has_code(row: Seq<u8>, k: u8) -> spec_fn(usize) -> bool {
    |x: usize| row[x as int] == k
}

/// The bucket of code `k`: the candidates, in order, whose feedback code
/// under `row` is `k`.
pub open spec fn bucket_of(row: Seq<u8>, cands: Seq<usize>, k: u8) -> Seq<usize> {
    cands.filter(has_code(row, k))
}

/// Some candidate has feedback code `k` under `row`.
pub open spec fn code_occurs(row: Seq<u8>, cands: Seq<usize>, k: u8) -> bool {
    exists|p: int| 0 <= p < cands.len() && row[(#[trigger] cands[p]) as int] == k
}

pub proof fn lemma_bucket_empty(row: Seq<u8>, k: u8)
    ensures
        bucket_of(row, Seq::<usize>::empty(), k) == Seq::<usize>::empty(),
{
    reveal(Seq::filter);
}

pub proof fn lemma_bucket_push(row: Seq<u8>, s: Seq<usize>, x: usize, k: u8)
    ensures
        bucket_of(row, s.push(x), k) == if row[x as int] == k {
            bucket_of(row, s, k).push(x)
        } else {
            bucket_of(row, s, k)
        },
{
    s.lemma_filter_push(x, has_code(row, k));
}

pub proof fn lemma_bucket_len(row: Seq<u8>, s: Seq<usize>, k: u8)
    ensures
        bucket_of(row, s, k).len() <= s.len(),
{
    s.lemma_filter_len(has_code(row, k));
}

/// A candidate is in the bucket of `k` exactly when it is a candidate and
/// its code is `k`.
pub proof fn lemma_bucket_membership(row: Seq<u8>, s: Seq<usize>, k: u8)
    ensures
        forall|x: usize| #[trigger]
            bucket_of(row, s, k).contains(x) <==> s.contains(x) && row[x as int] == k,
{
    assert forall|x: usize| #[trigger]
        bucket_of(row, s, k).contains(x) <==> s.contains(x) && row[x as int] == k by {
        if bucket_of(row, s, k).contains(x) {
            s.lemma_filter_contains_rev(has_code(row, k), x);
            let i = choose|i: int|
                0 <= i < bucket_of(row, s, k).len() && bucket_of(row, s, k)[i] == x;
            s.lemma_filter_pred(has_code(row, k), i);
        }
        if s.contains(x) && row[x as int] == k {
            let i = choose|i: int| 0 <= i < s.len() && s[i] == x;
            s.lemma_filter_contains(has_code(row, k), i);
        }
    }
}

/// The bucket of `k` is empty when no candidate has code `k`.
pub proof fn lemma_bucket_empty_when_absent(row: Seq<u8>, s: Seq<usize>, k: u8)
    requires
        !code_occurs(row, s, k),
    ensures
        bucket_of(row, s, k).len() == 0,
    decreases s.len(),
{
    reveal(Seq::filter);
    if s.len() > 0 {
        assert(!code_occurs(row, s.drop_last(), k)) by {
            if code_occurs(row, s.drop_last(), k) {
                let p = choose|p: int|
                    0 <= p < s.drop_last().len() && row[(#[trigger] s.drop_last()[p]) as int] == k;
                assert(s[p] == s.drop_last()[p]);
            }
        }
        lemma_bucket_empty_when_absent(row, s.drop_last(), k);
        assert(row[s.last() as int] != k) by {
            assert(s[s.len() - 1] == s.last());
        }
    }
}

/// A nonempty bucket means its code occurs.
pub proof fn lemma_bucket_nonempty_occurs(row: Seq<u8>, s: Seq<usize>, k: u8)
    requires
        bucket_of(row, s, k).len() > 0,
    ensures
        code_occurs(row, s, k),
{
    if !code_occurs(row, s, k) {
        lemma_bucket_empty_when_absent(row, s, k);
    }
}

/// Buckets of candidates without duplicates have no duplicates.
pub proof fn lemma_bucket_no_dup(row: Seq<u8>, s: Seq<usize>, k: u8)
    requires
        s.no_duplicates(),
    ensures
        bucket_of(row, s, k).no_duplicates(),
    decreases s.len(),
{
    reveal(Seq::filter);
    if s.len() > 0 {
        let rest = s.drop_last();
        assert(rest.no_duplicates());
        lemma_bucket_no_dup(row, rest, k);
        if has_code(row, k)(s.last()) {
            assert(!rest.contains(s.last())) by {
                if rest.contains(s.last()) {
                    let i = choose|i: int| 0 <= i < rest.len() && rest[i] == s.last();
                    assert(s[i] == s[s.len() - 1]);
                }
            }
            assert(!bucket_of(row, rest, k).contains(s.last())) by {
                lemma_bucket_membership(row, rest, k);
            }
            let b = bucket_of(row, rest, k).push(s.last());
            assert(b.no_duplicates()) by {
                assert(forall|i: int|
                    0 <= i < b.len() - 1 ==> #[trigger] b[i] == bucket_of(row, rest, k)[i]);
                assert(b[b.len() - 1] == s.last());
            }
        }
    }
}

/// A candidate whose code is not `k` makes the bucket of `k` a proper part.
pub proof fn lemma_bucket_len_lt(row: Seq<u8>, s: Seq<usize>, p: int, k: u8)
    requires
        0 <= p < s.len(),
        row[s[p] as int] != k,
    ensures
        bucket_of(row, s, k).len() < s.len(),
    decreases s.len(),
{
    reveal(Seq::filter);
    let rest = s.drop_last();
    if p == s.len() - 1 {
        lemma_bucket_len(row, rest, k);
        assert(s.last() == s[p]);
    } else {
        assert(rest[p] == s[p]);
        lemma_bucket_len_lt(row, rest, p, k);
    }
}

/// Total of a sequence of counts.
pub open spec fn total_count(s: Seq<usize>) -> int
    decreases s.len(),
{
    if s.len() == 0 {
        0
    } else {
        total_count(s.drop_last()) + s.last()
    }
}

pub proof fn lemma_total_nonneg(s: Seq<usize>)
    ensures
        total_count(s) >= 0,
    decreases s.len(),
{
    if s.len() > 0 {
        lemma_total_nonneg(s.drop_last());
    }
}

pub proof fn lemma_total_zero(s: Seq<usize>)
    requires
        forall|k: int| 0 <= k < s.len() ==> (#[trigger] s[k]) == 0,
    ensures
        total_count(s) == 0,
    decreases s.len(),
{
    if s.len() > 0 {
        assert(s.last() == s[s.len() - 1]);
        assert(forall|k: int| 0 <= k < s.drop_last().len() ==> (#[trigger] s.drop_last()[k]) == s[k]);
        lemma_total_zero(s.drop_last());
    }
}

pub proof fn lemma_total_update(s: Seq<usize>, j: int, v: usize)
    requires
        0 <= j < s.len(),
    ensures
        total_count(s.update(j, v)) == total_count(s) - s[j] + v,
    decreases s.len(),
{
    let t = s.update(j, v);
    if j == s.len() - 1 {
        assert(t.drop_last() =~= s.drop_last());
        assert(t.last() == v);
    } else {
        assert(t.drop_last() =~= s.drop_last().update(j, v));
        assert(t.last() == s.last());
        lemma_total_update(s.drop_last(), j, v);
    }
}

/// One bucket of the grouping: a feedback code and the candidates that
/// produce it.
pub struct Bucket {
    pub code: u8,
    pub items: Vec<usize>,
}

/// Total number of candidates held across a sequence of buckets.
pub open spec fn total_items(bs: Seq<Bucket>) -> int
    decreases bs.len(),
{
    if bs.len() == 0 {
        0
    } else {
        total_items(bs.drop_last()) + bs.last().items@.len()
    }
}

pub proof fn lemma_total_items_push(bs: Seq<Bucket>, b: Bucket)
    ensures
        total_items(bs.push(b)) == total_items(bs) + b.items@.len(),
{
    assert(bs.push(b).drop_last() =~= bs);
}

/// Largest bucket size over the codes below `m`.
pub open spec fn worst_below(row: Seq<u8>, cands: Seq<usize>, m: int) -> int
    decreases m,
{
    if m <= 0 {
        0
    } else {
        let rest = worst_below(row, cands, m - 1);
        let b = bucket_of(row, cands, (m - 1) as u8).len() as int;
        if b > rest {
            b
        } else {
            rest
        }
    }
}

/// The worst case of a guess over a candidate set: the size of the largest
/// bucket it produces, over all possible feedback codes.
pub open spec fn worst_case_spec(row: Seq<u8>, cands: Seq<usize>) -> int {
    worst_below(row, cands, 256)
}

pub proof fn lemma_worst_below_ge(row: Seq<u8>, cands: Seq<usize>, m: int, k: u8)
    requires
        k < m,
    ensures
        worst_below(row, cands, m) >= bucket_of(row, cands, k).len(),
    decreases m,
{
    if k < m - 1 {
        lemma_worst_below_ge(row, cands, m - 1, k);
    }
}

pub proof fn lemma_worst_below_le(row: Seq<u8>, cands: Seq<usize>, m: int, bound: int)
    requires
        forall|k: u8| k < m ==> (#[trigger] bucket_of(row, cands, k)).len() <= bound,
        bound >= 0,
    ensures
        worst_below(row, cands, m) <= bound,
    decreases m,
{
    if m > 0 {
        lemma_worst_below_le(row, cands, m - 1, bound);
    }
}

/// There is a bucket for code `k`.
pub open spec fn has_bucket(bs: Seq<Bucket>, k: u8) -> bool {
    exists|i: int| 0 <= i < bs.len() && (#[trigger] bs[i]).code == k
}

/// What a correct grouping of `cands` under `row` looks like: one non-empty
/// bucket per occurring code, holding exactly that code's candidates in
/// candidate order, with bucket sizes in descending order; together the
/// buckets carry every candidate exactly once.
pub open spec fn grouped(row: Seq<u8>, cands: Seq<usize>, bs: Seq<Bucket>) -> bool {
    &&& forall|i: int|
        0 <= i < bs.len() ==> (#[trigger] bs[i]).items@ == bucket_of(row, cands, bs[i].code)
    &&& forall|i: int| 0 <= i < bs.len() ==> (#[trigger] bs[i]).items@.len() > 0
    &&& forall|i: int| 0 <= i < bs.len() ==> (#[trigger] bs[i]).code < NUM_CODES
    &&& forall|i: int, j: int|
        0 <= i < j < bs.len() ==> (#[trigger] bs[i]).code != (#[trigger] bs[j]).code
    &&& forall|k: u8| #[trigger] code_occurs(row, cands, k) ==> has_bucket(bs, k)
    &&& total_items(bs) == cands.len()
    &&& forall|i: int, j: int|
        0 <= i <= j < bs.len() ==> (#[trigger] bs[i]).items@.len() >= (#[trigger] bs[j]).items@.len()
}

/// A grouping of a non-empty candidate set has at least one bucket.
pub proof fn lemma_grouped_nonempty(row: Seq<u8>, cands: Seq<usize>, bs: Seq<Bucket>)
    requires
        grouped(row, cands, bs),
        cands.len() > 0,
    ensures
        bs.len() > 0,
{
}

/// In a grouping, the first bucket's size is the guess's worst case.
pub proof fn lemma_grouped_worst(row: Seq<u8>, cands: Seq<usize>, bs: Seq<Bucket>)
    requires
        grouped(row, cands, bs),
        bs.len() > 0,
    ensures
        worst_case_spec(row, cands) == bs[0].items@.len(),
{
    lemma_worst_below_ge(row, cands, 256, bs[0].code);
    assert forall|k: u8| k < 256 implies (#[trigger] bucket_of(row, cands, k)).len()
        <= bs[0].items@.len() by {
        if bucket_of(row, cands, k).len() > 0 {
            lemma_bucket_nonempty_occurs(row, cands, k);
            assert(code_occurs(row, cands, k));
            let i = choose|i: int| 0 <= i < bs.len() && (#[trigger] bs[i]).code == k;
            assert(bs[i].items@.len() <= bs[0].items@.len());
        }
    }
    lemma_worst_below_le(row, cands, 256, bs[0].items@.len() as int);
}

/// Total number of candidates held across a sequence of index lists.
pub open spec fn total_lists(bs: Seq<Vec<usize>>) -> int
    decreases bs.len(),
{
    if bs.len() == 0 {
        0
    } else {
        total_lists(bs.drop_last()) + bs.last()@.len()
    }
}

proof fn lemma_total_lists_items(r: Seq<Vec<usize>>, bs: Seq<Bucket>)
    requires
        r.len() == bs.len(),
        forall|i: int| 0 <= i < bs.len() ==> r[i]@ == (#[trigger] bs[i]).items@,
    ensures
        total_lists(r) == total_items(bs),
    decreases r.len(),
{
    if r.len() > 0 {
        assert(forall|i: int|
            0 <= i < bs.drop_last().len() ==> r.drop_last()[i]@ == (
            #[trigger] bs.drop_last()[i]).items@);
        lemma_total_lists_items(r.drop_last(), bs.drop_last());
        assert(r.last()@ == bs[bs.len() - 1].items@);
    }
}

/// Some bucket of `r` holds `x`.
pub open spec fn in_some_bucket(r: Seq<Vec<usize>>, x: usize) -> bool {
    exists|i: int| 0 <= i < r.len() && (#[trigger] r[i])@.contains(x)
}

/// Index and value of a maximal count.
fn argmax(counts: &Vec<usize>) -> (r: (usize, usize))
    requires
        counts@.len() > 0,
    ensures
        r.0 < counts@.len(),
        counts@[r.0 as int] == r.1,
        forall|k: int| 0 <= k < counts@.len() ==> (#[trigger] counts@[k]) <= r.1,
{
    let mut best_k: usize = 0;
    let mut best_c: usize = counts[0];
    let mut k: usize = 1;
    while k < counts.len()
        invariant
            1 <= k <= counts@.len(),
            best_k < counts@.len(),
            counts@[best_k as int] == best_c,
            forall|j: int| 0 <= j < k ==> (#[trigger] counts@[j]) <= best_c,
        decreases counts@.len() - k,
    {
        if counts[k] > best_c {
            best_k = k;
            best_c = counts[k];
        }
        k = k + 1;
    }
    (best_k, best_c)
}

pub struct Scorer {
    /// The guess pool; always a superset of the answer pool, because every
    /// answer must itself be guessable.
    pub guesses: Vec<Vec<u8>>,
    /// The answer pool.
    pub answers: Vec<Vec<u8>>,
    /// `score_cache[g][a]` is the feedback code of guess `g` against
    /// answer `a`; row `g` always corresponds to `guesses[g]`.
    pub score_cache: Vec<Vec<u8>>,
}

impl Scorer {
    /// The guess pool as mathematical sequences.
    pub open spec fn guess_words(&self) -> Seq<Seq<u8>> {
        self.guesses@.map_values(|w: Vec<u8>| w@)
    }

    /// The answer pool as mathematical sequences.
    pub open spec fn answer_words(&self) -> Seq<Seq<u8>> {
        self.answers@.map_values(|w: Vec<u8>| w@)
    }

    /// The score cache as a mathematical matrix of rows.
    pub open spec fn rows(&self) -> Seq<Seq<u8>> {
        self.score_cache@.map_values(|r: Vec<u8>| r@)
    }

    /// Answer `a`'s word occurs somewhere in the guess pool.
    pub open spec fn answer_guessable(&self, a: int) -> bool {
        exists|g: int|
            0 <= g < self.guess_words().len() && self.guess_words()[g] == self.answer_words()[a]
    }

    /// Well-formedness: every word has the fixed length, the cache has one
    /// row per guess and one column per answer, every entry is the score of
    /// its pair, and every answer word occurs in the guess pool.
    pub open spec fn wf(&self) -> bool {
        &&& forall|g: int|
            0 <= g < self.guess_words().len() ==> (#[trigger] self.guess_words()[g]).len()
                == WORD_LEN
        &&& forall|a: int|
            0 <= a < self.answer_words().len() ==> (#[trigger] self.answer_words()[a]).len()
                == WORD_LEN
        &&& self.rows().len() == self.guess_words().len()
        &&& forall|g: int|
            0 <= g < self.rows().len() ==> (#[trigger] self.rows()[g]).len()
                == self.answer_words().len()
        &&& forall|g: int, a: int|
            0 <= g < self.rows().len() && 0 <= a < self.answer_words().len() ==> (
            #[trigger] self.rows()[g][a]) as int == score_spec(
                self.guess_words()[g],
                self.answer_words()[a],
            )
        &&& forall|a: int| 0 <= a < self.answer_words().len() ==> #[trigger] self.answer_guessable(a)
    }

    /// Every cache entry of a well-formed scorer is a valid feedback code.
    pub proof fn lemma_codes_in_range(&self)
        requires
            self.wf(),
        ensures
            forall|g: int, a: int|
                0 <= g < self.rows().len() && 0 <= a < self.rows()[g].len() ==> (
                #[trigger] self.rows()[g][a]) < NUM_CODES,
    {
        assert forall|g: int, a: int|
            0 <= g < self.rows().len() && 0 <= a < self.rows()[g].len() implies (
        #[trigger] self.rows()[g][a]) < NUM_CODES by {
            lemma_score_bounds(self.guess_words()[g], self.answer_words()[a]);
        }
    }
}

impl Scorer {
    /// The candidates from `cands`, in order, whose cached code under guess
    /// `guess` is `k`.
    fn collect_bucket(&self, guess: usize, cands: &[usize], k: u8) -> (items: Vec<usize>)
        requires
            self.wf(),
            guess < self.guess_words().len(),
            forall|p: int|
                0 <= p < cands@.len() ==> (#[trigger] cands@[p]) < self.answer_words().len(),
        ensures
            items@ == bucket_of(self.rows()[guess as int], cands@, k),
    {
        let ghost row = self.rows()[guess as int];
        let mut items: Vec<usize> = Vec::new();
        proof {
            lemma_bucket_empty(row, k);
            assert(cands@.subrange(0, 0) =~= Seq::<usize>::empty());
        }
        let mut j: usize = 0;
        while j < cands.len()
            invariant
                self.wf(),
                guess < self.guess_words().len(),
                forall|p: int|
                    0 <= p < cands@.len() ==> (#[trigger] cands@[p]) < self.answer_words().len(),
                0 <= j <= cands@.len(),
                row == self.rows()[guess as int],
                items@ == bucket_of(row, cands@.subrange(0, j as int), k),
            decreases cands@.len() - j,
        {
            let a = cands[j];
            let code = self.score_cache[guess][a];
            proof {
                assert(self.score_cache@[guess as int]@ == row);
                assert(code == row[a as int]);
                lemma_bucket_push(row, cands@.subrange(0, j as int), a, k);
                assert(cands@.subrange(0, j + 1) =~= cands@.subrange(0, j as int).push(a));
            }
            if code == k {
                items.push(a);
            }
            j = j + 1;
        }
        proof {
            assert(cands@.subrange(0, cands@.len() as int) =~= cands@);
        }
        items
    }

    /// Group the candidates by their cached feedback code under one guess,
    /// largest bucket first.
    pub(crate) fn group_by_code(&self, guess: usize, cands: &[usize]) -> (r: Vec<Bucket>)
        requires
            self.wf(),
            guess < self.guess_words().len(),
            forall|p: int|
                0 <= p < cands@.len() ==> (#[trigger] cands@[p]) < self.answer_words().len(),
        ensures
            grouped(self.rows()[guess as int], cands@, r@),
    {
        let ghost row = self.rows()[guess as int];
        proof {
            self.lemma_codes_in_range();
        }

        // Count the candidates carrying each code.
        let mut counts: Vec<usize> = Vec::new();
        while counts.len() < NUM_CODES
            invariant
                counts@.len() <= NUM_CODES,
                forall|k: int| 0 <= k < counts@.len() ==> (#[trigger] counts@[k]) == 0,
            decreases NUM_CODES - counts@.len(),
        {
            counts.push(0);
        }
        proof {
            lemma_total_zero(counts@);
            assert forall|k: int| 0 <= k < NUM_CODES implies (#[trigger] counts@[k]) as int
                == bucket_of(row, cands@.subrange(0, 0), k as u8).len() by {
                lemma_bucket_empty(row, k as u8);
                assert(cands@.subrange(0, 0) =~= Seq::<usize>::empty());
            }
        }
        let mut i: usize = 0;
        while i < cands.len()
            invariant
                self.wf(),
                guess < self.guess_words().len(),
                forall|p: int|
                    0 <= p < cands@.len() ==> (#[trigger] cands@[p]) < self.answer_words().len(),
                row == self.rows()[guess as int],
                forall|g: int, a: int|
                    0 <= g < self.rows().len() && 0 <= a < self.rows()[g].len() ==> (
                    #[trigger] self.rows()[g][a]) < NUM_CODES,
                0 <= i <= cands@.len(),
                counts@.len() == NUM_CODES,
                forall|k: int|
                    0 <= k < NUM_CODES ==> (#[trigger] counts@[k]) as int == bucket_of(
                        row,
                        cands@.subrange(0, i as int),
                        k as u8,
                    ).len(),
                total_count(counts@) == i,
            decreases cands@.len() - i,
        {
            let a = cands[i];
            let code = self.score_cache[guess][a];
            proof {
                assert(self.score_cache@[guess as int]@ == row);
                assert(code == row[a as int]);
                assert(code < NUM_CODES);
                lemma_bucket_len(row, cands@.subrange(0, i as int), code);
                lemma_total_update(counts@, code as int, (counts@[code as int] + 1) as usize);
                assert forall|k: int|
                    #![trigger bucket_of(row, cands@.subrange(0, i + 1), k as u8)]
                    0 <= k < NUM_CODES implies bucket_of(
                    row,
                    cands@.subrange(0, i + 1),
                    k as u8,
                ).len() == bucket_of(row, cands@.subrange(0, i as int), k as u8).len() + if k
                    == code as int {
                    1int
                } else {
                    0int
                } by {
                    lemma_bucket_push(row, cands@.subrange(0, i as int), a, k as u8);
                    assert(cands@.subrange(0, i + 1) =~= cands@.subrange(0, i as int).push(a));
                }
            }
            let c = counts[code as usize];
            counts.set(code as usize, c + 1);
            i = i + 1;
        }
        proof {
            assert(cands@.subrange(0, cands@.len() as int) =~= cands@);
        }

        // Emit buckets in descending size order: repeatedly take a code with
        // the largest remaining count.
        let mut out: Vec<Bucket> = Vec::new();
        loop
            invariant_except_break
                self.wf(),
                guess < self.guess_words().len(),
                forall|p: int|
                    0 <= p < cands@.len() ==> (#[trigger] cands@[p]) < self.answer_words().len(),
                row == self.rows()[guess as int],
                forall|g: int, a: int|
                    0 <= g < self.rows().len() && 0 <= a < self.rows()[g].len() ==> (
                    #[trigger] self.rows()[g][a]) < NUM_CODES,
                counts@.len() == NUM_CODES,
                forall|k: int|
                    0 <= k < NUM_CODES ==> (#[trigger] counts@[k]) as int == if has_bucket(
                        out@,
                        k as u8,
                    ) {
                        0int
                    } else {
                        bucket_of(row, cands@, k as u8).len() as int
                    },
                forall|i: int|
                    0 <= i < out@.len() ==> (#[trigger] out@[i]).items@ == bucket_of(
                        row,
                        cands@,
                        out@[i].code,
                    ),
                forall|i: int| 0 <= i < out@.len() ==> (#[trigger] out@[i]).items@.len() > 0,
                forall|i: int| 0 <= i < out@.len() ==> (#[trigger] out@[i]).code < NUM_CODES,
                forall|i: int, j: int|
                    0 <= i < j < out@.len() ==> (#[trigger] out@[i]).code != (
                    #[trigger] out@[j]).code,
                forall|i: int, j: int|
                    0 <= i <= j < out@.len() ==> (#[trigger] out@[i]).items@.len() >= (
                    #[trigger] out@[j]).items@.len(),
                forall|k: int|
                    0 <= k < NUM_CODES && out@.len() > 0 ==> (#[trigger] counts@[k])
                        <= out@.last().items@.len(),
                total_count(counts@) + total_items(out@) == cands@.len(),
            ensures
                grouped(row, cands@, out@),
            decreases total_count(counts@),
        {
            let (bk, bc) = argmax(&counts);
            if bc == 0 {
                proof {
                    // Every code has been emitted or never occurred.
                    assert forall|k: u8| #[trigger]
                        code_occurs(row, cands@, k) implies has_bucket(out@, k) by {
                        let p = choose|p: int|
                            0 <= p < cands@.len() && row[(#[trigger] cands@[p]) as int] == k;
                        assert(row[cands@[p] as int] < NUM_CODES);
                        if !has_bucket(out@, k) {
                            assert(counts@[k as int] as int == bucket_of(row, cands@, k).len());
                            assert(counts@[k as int] <= bc);
                            lemma_bucket_membership(row, cands@, k);
                            assert(cands@.contains(cands@[p]));
                            assert(bucket_of(row, cands@, k).contains(cands@[p]));
                            let q = choose|q: int|
                                0 <= q < bucket_of(row, cands@, k).len() && bucket_of(
                                    row,
                                    cands@,
                                    k,
                                )[q] == cands@[p];
                        }
                    }
                    assert(total_count(counts@) == 0) by {
                        assert(forall|k: int|
                            0 <= k < counts@.len() ==> (#[trigger] counts@[k]) == 0);
                        lemma_total_zero(counts@);
                    }
                }
                break ;
            }
            let items = self.collect_bucket(guess, cands, bk as u8);
            proof {
                assert(!has_bucket(out@, bk as u8));
                lemma_total_items_push(out@, Bucket { code: bk as u8, items });
                lemma_total_update(counts@, bk as int, 0);
            }
            let ghost old_out = out@;
            out.push(Bucket { code: bk as u8, items });
            counts.set(bk, 0);
            proof {
                lemma_total_nonneg(counts@);
                assert forall|i: int, j: int|
                    0 <= i < j < out@.len() implies (#[trigger] out@[i]).code != (
                #[trigger] out@[j]).code by {
                    if j == out@.len() - 1 {
                        assert(out@[i] == old_out[i]);
                        assert(counts@[out@[i].code as int] == 0);
                    } else {
                        assert(out@[i] == old_out[i]);
                        assert(out@[j] == old_out[j]);
                    }
                }
                assert forall|k: int|
                    0 <= k < NUM_CODES implies (#[trigger] counts@[k]) as int == if has_bucket(
                    out@,
                    k as u8,
                ) {
                    0int
                } else {
                    bucket_of(row, cands@, k as u8).len() as int
                } by {
                    if has_bucket(out@, k as u8) {
                        let i = choose|i: int|
                            0 <= i < out@.len() && (#[trigger] out@[i]).code == k as u8;
                        if i < out@.len() - 1 {
                            assert(old_out[i] == out@[i]);
                            assert(has_bucket(old_out, k as u8));
                        }
                    } else {
                        assert(!has_bucket(old_out, k as u8)) by {
                            if has_bucket(old_out, k as u8) {
                                let i = choose|i: int|
                                    0 <= i < old_out.len() && (#[trigger] old_out[i]).code
                                        == k as u8;
                                assert(out@[i] == old_out[i]);
                            }
                        }
                    }
                }
            }
        }
        out
    }
}

/// Copy a vector of plain values.
pub(crate) fn copy_vals<T: Copy>(w: &Vec<T>) -> (r: Vec<T>)
    ensures
        r@ == w@,
{
    let mut r: Vec<T> = Vec::new();
    let mut i: usize = 0;
    while i < w.len()
        invariant
            0 <= i <= w@.len(),
            r@ == w@.subrange(0, i as int),
        decreases w@.len() - i,
    {
        r.push(w[i]);
        proof {
            assert(r@ =~= w@.subrange(0, i + 1));
        }
        i = i + 1;
    }
    proof {
        assert(r@ =~= w@);
    }
    r
}

impl Scorer {
    /// Group the answer-list entries by the score they return under one
    /// guess, largest bucket first.  The buckets are non-empty and pairwise
    /// disjoint, and together they hold every candidate exactly once.
    pub fn bucket_answers(&self, guess: usize, answers: &[usize]) -> (r: Vec<Vec<usize>>)
        requires
            self.wf(),
            guess < self.guess_words().len(),
            forall|p: int|
                0 <= p < answers@.len() ==> (#[trigger] answers@[p]) < self.answer_words().len(),
        ensures
            exists|bs: Seq<Bucket>|
                grouped(self.rows()[guess as int], answers@, bs) && r@.len() == bs.len() && (forall|
                    i: int,
                |
                    0 <= i < bs.len() ==> r@[i]@ == (#[trigger] bs[i]).items@),
            forall|i: int| 0 <= i < r@.len() ==> (#[trigger] r@[i])@.len() > 0,
            forall|i: int, j: int|
                0 <= i <= j < r@.len() ==> (#[trigger] r@[i])@.len() >= (#[trigger] r@[j])@.len(),
            total_lists(r@) == answers@.len(),
            forall|i: int, j: int, x: usize|
                #![trigger r@[i]@.contains(x), r@[j]@.contains(x)]
                0 <= i < j < r@.len() ==> !(r@[i]@.contains(x) && r@[j]@.contains(x)),
            forall|p: int| 0 <= p < answers@.len() ==> in_some_bucket(r@, #[trigger] answers@[p]),
            forall|i: int, x: usize|
                #![trigger r@[i]@.contains(x)]
                0 <= i < r@.len() && r@[i]@.contains(x) ==> answers@.contains(x),
    {
        let ghost row = self.rows()[guess as int];
        let bs = self.group_by_code(guess, answers);
        let mut r: Vec<Vec<usize>> = Vec::new();
        let mut i: usize = 0;
        while i < bs.len()
            invariant
                0 <= i <= bs@.len(),
                r@.len() == i,
                forall|j: int| 0 <= j < i ==> r@[j]@ == (#[trigger] bs@[j]).items@,
            decreases bs@.len() - i,
        {
            let items = copy_vals(&bs[i].items);
            r.push(items);
            i = i + 1;
        }
        proof {
            lemma_total_lists_items(r@, bs@);
            assert forall|i: int| 0 <= i < r@.len() implies (#[trigger] r@[i])@.len() > 0 by {
                assert(r@[i]@ == bs@[i].items@);
            }
            assert forall|i: int, j: int|
                0 <= i <= j < r@.len() implies (#[trigger] r@[i])@.len() >= (
            #[trigger] r@[j])@.len() by {
                assert(r@[i]@ == bs@[i].items@);
                assert(r@[j]@ == bs@[j].items@);
            }
            assert forall|i: int, j: int, x: usize|
                #![trigger r@[i]@.contains(x), r@[j]@.contains(x)]
                0 <= i < j < r@.len() implies !(r@[i]@.contains(x) && r@[j]@.contains(x)) by {
                if r@[i]@.contains(x) && r@[j]@.contains(x) {
                    lemma_bucket_membership(row, answers@, bs@[i].code);
                    lemma_bucket_membership(row, answers@, bs@[j].code);
                    assert(row[x as int] == bs@[i].code);
                    assert(row[x as int] == bs@[j].code);
                }
            }
            assert forall|p: int| 0 <= p < answers@.len() implies in_some_bucket(
                r@,
                #[trigger] answers@[p],
            ) by {
                let x = answers@[p];
                let k = row[x as int];
                assert(code_occurs(row, answers@, k));
                let i = choose|i: int| 0 <= i < bs@.len() && (#[trigger] bs@[i]).code == k;
                lemma_bucket_membership(row, answers@, k);
                assert(answers@.contains(x));
                assert(r@[i]@.contains(x));
            }
            assert forall|i: int, x: usize|
                #![trigger r@[i]@.contains(x)]
                0 <= i < r@.len() && r@[i]@.contains(x) implies answers@.contains(x) by {
                lemma_bucket_membership(row, answers@, bs@[i].code);
            }
        }
        r
    }

    /// The worst-case bucket size for the guess over the candidate set,
    /// together with the full bucketing, largest bucket first.
    pub fn find_greedy_worst_case(&self, guess: usize, answers: &[usize]) -> (r: (
        usize,
        Vec<Bucket>,
    ))
        requires
            self.wf(),
            guess < self.guess_words().len(),
            forall|p: int|
                0 <= p < answers@.len() ==> (#[trigger] answers@[p]) < self.answer_words().len(),
            answers@.len() > 0,
        ensures
            grouped(self.rows()[guess as int], answers@, r.1@),
            r.0 as int == worst_case_spec(self.rows()[guess as int], answers@),
            r.1@.len() > 0,
    {
        let bs = self.group_by_code(guess, answers);
        proof {
            lemma_grouped_nonempty(self.rows()[guess as int], answers@, bs@);
            lemma_grouped_worst(self.rows()[guess as int], answers@, bs@);
        }
        let worst = bs[0].items.len();
        (worst, bs)
    }
}

impl Scorer {
    /// Build a scorer from a guess pool and an answer pool: append the
    /// answers to the guesses (answers are also possible guesses) and score
    /// every (guess, answer) pair up front.
    pub fn new(guesses: Vec<Vec<u8>>, answers: Vec<Vec<u8>>) -> (s: Scorer)
        requires
            forall|i: int| 0 <= i < guesses@.len() ==> (#[trigger] guesses@[i])@.len() == WORD_LEN,
            forall|i: int| 0 <= i < answers@.len() ==> (#[trigger] answers@[i])@.len() == WORD_LEN,
        ensures
            s.wf(),
            s.answer_words() == answers@.map_values(|w: Vec<u8>| w@),
            s.guess_words() == guesses@.map_values(|w: Vec<u8>| w@) + answers@.map_values(
                |w: Vec<u8>| w@,
            ),
    {
        let ghost g0 = guesses@;
        let mut gs = guesses;
        let mut i: usize = 0;
        while i < answers.len()
            invariant
                0 <= i <= answers@.len(),
                gs@.len() == g0.len() + i,
                forall|j: int| 0 <= j < g0.len() ==> gs@[j] == g0[j],
                forall|j: int| 0 <= j < i ==> (#[trigger] gs@[g0.len() + j])@ == answers@[j]@,
                forall|j: int| 0 <= j < answers@.len() ==> (#[trigger] answers@[j])@.len()
                    == WORD_LEN,
                forall|j: int| 0 <= j < g0.len() ==> (#[trigger] g0[j])@.len() == WORD_LEN,
            decreases answers@.len() - i,
        {
            let w = copy_vals(&answers[i]);
            gs.push(w);
            i = i + 1;
        }
        proof {
            assert forall|j: int| 0 <= j < gs@.len() implies (#[trigger] gs@[j])@.len()
                == WORD_LEN by {
                if j < g0.len() {
                    assert(gs@[j] == g0[j]);
                } else {
                    assert(gs@[g0.len() + (j - g0.len())]@ == answers@[j - g0.len()]@);
                }
            }
        }

        let mut cache: Vec<Vec<u8>> = Vec::new();
        let mut g: usize = 0;
        while g < gs.len()
            invariant
                0 <= g <= gs@.len(),
                cache@.len() == g,
                forall|j: int| 0 <= j < gs@.len() ==> (#[trigger] gs@[j])@.len() == WORD_LEN,
                forall|j: int| 0 <= j < answers@.len() ==> (#[trigger] answers@[j])@.len()
                    == WORD_LEN,
                forall|j: int| 0 <= j < g ==> (#[trigger] cache@[j])@.len() == answers@.len(),
                forall|j: int, a: int|
                    0 <= j < g && 0 <= a < answers@.len() ==> (#[trigger] cache@[j]@[a]) as int
                        == score_spec(gs@[j]@, answers@[a]@),
            decreases gs@.len() - g,
        {
            let mut row: Vec<u8> = Vec::new();
            let mut a: usize = 0;
            while a < answers.len()
                invariant
                    0 <= a <= answers@.len(),
                    g < gs@.len(),
                    row@.len() == a,
                    forall|j: int| 0 <= j < gs@.len() ==> (#[trigger] gs@[j])@.len() == WORD_LEN,
                    forall|j: int| 0 <= j < answers@.len() ==> (#[trigger] answers@[j])@.len()
                        == WORD_LEN,
                    forall|k: int| 0 <= k < a ==> (#[trigger] row@[k]) as int == score_spec(
                        gs@[g as int]@,
                        answers@[k]@,
                    ),
                decreases answers@.len() - a,
            {
                let code = score_wordle(gs[g].as_slice(), answers[a].as_slice());
                row.push(code);
                a = a + 1;
            }
            cache.push(row);
            g = g + 1;
        }

        let s = Scorer { guesses: gs, answers, score_cache: cache };
        proof {
            assert forall|j: int| 0 <= j < s.guess_words().len() implies (
            #[trigger] s.guess_words()[j]).len() == WORD_LEN by {
                assert(s.guess_words()[j] == gs@[j]@);
            }
            assert forall|j: int| 0 <= j < s.answer_words().len() implies (
            #[trigger] s.answer_words()[j]).len() == WORD_LEN by {
                assert(s.answer_words()[j] == s.answers@[j]@);
            }
            assert forall|j: int| 0 <= j < s.rows().len() implies (#[trigger] s.rows()[j]).len()
                == s.answer_words().len() by {
                assert(s.rows()[j] == cache@[j]@);
            }
            assert forall|j: int, a: int|
                0 <= j < s.rows().len() && 0 <= a < s.answer_words().len() implies (
            #[trigger] s.rows()[j][a]) as int == score_spec(
                s.guess_words()[j],
                s.answer_words()[a],
            ) by {
                assert(s.rows()[j] == cache@[j]@);
                assert(s.guess_words()[j] == gs@[j]@);
                assert(s.answer_words()[a] == s.answers@[a]@);
                assert(cache@[j]@[a] as int == score_spec(gs@[j]@, s.answers@[a]@));
            }
            let target = g0.map_values(|w: Vec<u8>| w@) + s.answer_words();
            assert forall|j: int| 0 <= j < s.guess_words().len() implies s.guess_words()[j]
                == target[j] by {
                if j < g0.len() {
                    assert(gs@[j] == g0[j]);
                } else {
                    assert(gs@[g0.len() + (j - g0.len())]@ == answers@[j - g0.len()]@);
                }
            }
            assert(s.guess_words() =~= target);
            assert forall|a: int| 0 <= a < s.answer_words().len() implies s.answer_guessable(
                a,
            ) by {
                assert(s.guess_words()[g0.len() + a] == s.answer_words()[a]);
            }
        }
        s
    }
}

} // verus!
