//! The search engine: decides whether a candidate set can be uniquely
//! identified within a guess budget.  With one guess left only a singleton
//! is solvable; with two, some guess must already separate every candidate
//! into its own bucket (an injectivity check over a reusable scratch
//! table); with more, some guess must make every bucket solvable with one
//! guess fewer.

use vstd::prelude::*;
use crate::score::NUM_CODES;
use crate::scorer::{
    Scorer, bucket_of, has_code, code_occurs, grouped, lemma_bucket_membership,
    lemma_bucket_no_dup,
};

verus! {

/// The candidates of `cs` whose feedback code under `row` is `k`.
pub open spec fn bucket_set(row: Seq<u8>, cs: Set<usize>, k: u8) -> Set<usize> {
    cs.filter(has_code(row, k))
}

/// The feedback codes under `row` of distinct candidates in `cs` are
/// distinct: one guess already separates every candidate.
pub open spec fn inj_on(row: Seq<u8>, cs: Set<usize>) -> bool {
    forall|a1: usize, a2: usize|
        #![trigger cs.contains(a1), cs.contains(a2)]
        cs.contains(a1) && cs.contains(a2) && a1 != a2 ==> row[a1 as int] != row[a2 as int]
}

/// Guess `g` solves `cs` within budget `n`: every non-empty bucket it
/// produces is solvable with one guess fewer.
pub open spec fn guess_works(cache: Seq<Seq<u8>>, n: nat, cs: Set<usize>, g: int) -> bool
    decreases n, 1int, 0int,
{
    if n < 2 {
        false
    } else {
        buckets_ok(cache, n, cs, g, 256)
    }
}

/// Every non-empty bucket of guess `g` with a code below `m` is solvable
/// with one guess fewer.
pub open spec fn buckets_ok(cache: Seq<Seq<u8>>, n: nat, cs: Set<usize>, g: int, m: int) -> bool
    decreases n, 0int, m,
{
    if n < 2 || m <= 0 {
        true
    } else {
        let b = bucket_set(cache[g], cs, (m - 1) as u8);
        (b.len() != 0 ==> solvable(cache, (n - 1) as nat, b)) && buckets_ok(cache, n, cs, g, m - 1)
    }
}

/// Some guess with index below `m` works for `cs` within budget `n`.
pub open spec fn some_guess_works(cache: Seq<Seq<u8>>, n: nat, cs: Set<usize>, m: int) -> bool
    decreases n, 2int, m,
{
    if m <= 0 {
        false
    } else {
        guess_works(cache, n, cs, m - 1) || some_guess_works(cache, n, cs, m - 1)
    }
}

/// The candidate set `cs` can be uniquely identified within `n` guesses
/// using the guess pool whose cached score rows are `cache`.  With one
/// guess left, only a single remaining candidate can be confirmed; with
/// more, some guess must work.
pub open spec fn solvable(cache: Seq<Seq<u8>>, n: nat, cs: Set<usize>) -> bool
    decreases n, 3int, 0int,
{
    if n <= 1 {
        n == 1 && cs.len() == 1
    } else {
        some_guess_works(cache, n, cs, cache.len() as int)
    }
}

/// A guess works exactly when all its non-empty buckets are solvable with
/// one guess fewer.
pub proof fn lemma_buckets_ok_iff(cache: Seq<Seq<u8>>, n: nat, cs: Set<usize>, g: int, m: int)
    requires
        n >= 2,
    ensures
        buckets_ok(cache, n, cs, g, m) <==> (forall|k: u8|
            k < m && (#[trigger] bucket_set(cache[g], cs, k)).len() != 0 ==> solvable(
                cache,
                (n - 1) as nat,
                bucket_set(cache[g], cs, k),
            )),
    decreases m,
{
    if m > 0 {
        lemma_buckets_ok_iff(cache, n, cs, g, m - 1);
    }
}

/// Unfolding of `guess_works` into its quantified form.
pub proof fn lemma_guess_works_iff(cache: Seq<Seq<u8>>, n: nat, cs: Set<usize>, g: int)
    requires
        n >= 2,
    ensures
        guess_works(cache, n, cs, g) <==> (forall|k: u8|
            (#[trigger] bucket_set(cache[g], cs, k)).len() != 0 ==> solvable(
                cache,
                (n - 1) as nat,
                bucket_set(cache[g], cs, k),
            )),
{
    lemma_buckets_ok_iff(cache, n, cs, g, 256);
    assert forall|k: u8| (#[trigger] bucket_set(cache[g], cs, k)).len() != 0 implies k < 256 by {
        assert(k <= 255);
    }
}

proof fn lemma_some_guess_iff(cache: Seq<Seq<u8>>, n: nat, cs: Set<usize>, m: int)
    ensures
        some_guess_works(cache, n, cs, m) <==> (exists|g: int|
            0 <= g < m && #[trigger] guess_works(cache, n, cs, g)),
    decreases m,
{
    if m > 0 {
        lemma_some_guess_iff(cache, n, cs, m - 1);
        if some_guess_works(cache, n, cs, m) {
            if guess_works(cache, n, cs, m - 1) {
                assert(0 <= m - 1 < m && guess_works(cache, n, cs, m - 1));
            }
        }
        if exists|g: int| 0 <= g < m && #[trigger] guess_works(cache, n, cs, g) {
            let g = choose|g: int| 0 <= g < m && #[trigger] guess_works(cache, n, cs, g);
            if g < m - 1 {
                assert(exists|g1: int| 0 <= g1 < m - 1 && #[trigger] guess_works(cache, n, cs, g1));
            }
        }
    }
}

/// Unfolding of `solvable` for budgets above one: some guess in the pool
/// must work.
pub proof fn lemma_solvable_unfold(cache: Seq<Seq<u8>>, n: nat, cs: Set<usize>)
    requires
        n > 1,
    ensures
        solvable(cache, n, cs) == (exists|g: int|
            0 <= g < cache.len() && #[trigger] guess_works(cache, n, cs, g)),
{
    lemma_some_guess_iff(cache, n, cs, cache.len() as int);
}

/// Buckets commute with passing from candidate lists to candidate sets.
pub proof fn lemma_bucket_to_set(row: Seq<u8>, s: Seq<usize>, k: u8)
    ensures
        bucket_of(row, s, k).to_set() == bucket_set(row, s.to_set(), k),
{
    lemma_bucket_membership(row, s, k);
    assert forall|x: usize|
        bucket_of(row, s, k).to_set().contains(x) == bucket_set(row, s.to_set(), k).contains(
        x,
    ) by {
        assert(bucket_of(row, s, k).to_set().contains(x) == bucket_of(row, s, k).contains(x));
        assert(s.to_set().contains(x) == s.contains(x));
    }
    assert(bucket_of(row, s, k).to_set() =~= bucket_set(row, s.to_set(), k));
}

/// A finite set holding a value is not of size zero.
proof fn lemma_contains_nonzero(cs: Set<usize>, x: usize)
    requires
        cs.finite(),
        cs.contains(x),
    ensures
        cs.len() != 0,
{
    if cs.len() == 0 {
        cs.lemma_len0_is_empty();
    }
}

/// A finite set holding two distinct values has size at least two.
proof fn lemma_two_distinct(cs: Set<usize>, a: usize, b: usize)
    requires
        cs.finite(),
        cs.contains(a),
        cs.contains(b),
        a != b,
    ensures
        cs.len() >= 2,
{
    let rest = cs.remove(a);
    assert(rest.contains(b));
    lemma_contains_nonzero(rest, b);
    assert(cs.len() == rest.len() + 1);
}

/// With a budget of two, a guess works exactly when its scoring is
/// injective over the candidate set: the second guess must equal the
/// answer, so the first must isolate every candidate.
pub proof fn lemma_guess_works_two(cache: Seq<Seq<u8>>, cs: Set<usize>, g: int)
    requires
        cs.finite(),
        0 <= g < cache.len(),
    ensures
        guess_works(cache, 2, cs, g) <==> inj_on(cache[g], cs),
{
    let row = cache[g];
    lemma_guess_works_iff(cache, 2nat, cs, g);
    if guess_works(cache, 2, cs, g) {
        assert forall|a1: usize, a2: usize|
            #![trigger cs.contains(a1), cs.contains(a2)]
            cs.contains(a1) && cs.contains(a2) && a1 != a2 implies row[a1 as int]
            != row[a2 as int] by {
            if row[a1 as int] == row[a2 as int] {
                let k = row[a1 as int];
                let b = bucket_set(row, cs, k);
                assert(b.contains(a1));
                assert(b.contains(a2));
                cs.lemma_len_filter(has_code(row, k));
                lemma_contains_nonzero(b, a1);
                assert(solvable(cache, 1nat, b));
                assert(b.len() == 1);
                lemma_two_distinct(b, a1, a2);
            }
        }
    }
    if inj_on(row, cs) {
        assert forall|k: u8| (#[trigger] bucket_set(row, cs, k)).len() != 0 implies solvable(
            cache,
            1nat,
            bucket_set(row, cs, k),
        ) by {
            let b = bucket_set(row, cs, k);
            cs.lemma_len_filter(has_code(row, k));
            if b.len() != 0 {
                let a = b.choose();
                assert(b.contains(a));
                assert forall|x: usize| b.contains(x) implies x == a by {
                    if x != a {
                        assert(row[x as int] == k && row[a as int] == k);
                    }
                }
                assert(b =~= Set::empty().insert(a));
                assert(b.len() == 1);
            }
        }
    }
}

/// The specialized two-guess check and the general recursive check agree:
/// a candidate set is solvable in exactly two guesses precisely when some
/// guess scores injectively over it.
pub proof fn lemma_two_guess_agreement(cache: Seq<Seq<u8>>, cs: Set<usize>)
    requires
        cs.finite(),
    ensures
        solvable(cache, 2, cs) <==> exists|g: int|
            0 <= g < cache.len() && inj_on(#[trigger] cache[g], cs),
{
    lemma_solvable_unfold(cache, 2nat, cs);
    if solvable(cache, 2, cs) {
        assert(exists|g: int| 0 <= g < cache.len() && #[trigger] guess_works(cache, 2nat, cs, g));
        let g = choose|g: int| 0 <= g < cache.len() && #[trigger] guess_works(cache, 2nat, cs, g);
        lemma_guess_works_two(cache, cs, g);
        assert(0 <= g < cache.len() && inj_on(cache[g], cs));
    }
    if exists|g: int| 0 <= g < cache.len() && inj_on(#[trigger] cache[g], cs) {
        let g = choose|g: int| 0 <= g < cache.len() && inj_on(#[trigger] cache[g], cs);
        lemma_guess_works_two(cache, cs, g);
        assert(guess_works(cache, 2nat, cs, g));
        assert(exists|g1: int| 0 <= g1 < cache.len() && #[trigger] guess_works(cache, 2nat, cs, g1));
    }
}

/// `row` is one of the cached score rows.
pub open spec fn row_in(cache: Seq<Seq<u8>>, row: Seq<u8>) -> bool {
    exists|g: int| 0 <= g < cache.len() && #[trigger] cache[g] == row
}

/// Solvability depends only on which score rows the cache holds, not on
/// their order or multiplicity: re-ranking the guess pool never changes
/// the solvability result for any budget.
pub proof fn lemma_same_rows_solvable(c1: Seq<Seq<u8>>, c2: Seq<Seq<u8>>, n: nat, cs: Set<usize>)
    requires
        forall|g1: int| 0 <= g1 < c1.len() ==> #[trigger] row_in(c2, c1[g1]),
        forall|g2: int| 0 <= g2 < c2.len() ==> #[trigger] row_in(c1, c2[g2]),
    ensures
        solvable(c1, n, cs) == solvable(c2, n, cs),
    decreases n,
{
    if n > 1 {
        lemma_solvable_unfold(c1, n, cs);
        lemma_solvable_unfold(c2, n, cs);
        if solvable(c1, n, cs) {
            let g1 = choose|g1: int| 0 <= g1 < c1.len() && #[trigger] guess_works(c1, n, cs, g1);
            assert(row_in(c2, c1[g1]));
            let g2 = choose|g2: int| 0 <= g2 < c2.len() && #[trigger] c2[g2] == c1[g1];
            lemma_guess_works_iff(c1, n, cs, g1);
            lemma_guess_works_iff(c2, n, cs, g2);
            assert forall|k: u8| (#[trigger] bucket_set(c2[g2], cs, k)).len() != 0 implies
                solvable(c2, (n - 1) as nat, bucket_set(c2[g2], cs, k)) by {
                assert(bucket_set(c2[g2], cs, k) == bucket_set(c1[g1], cs, k));
                assert(solvable(c1, (n - 1) as nat, bucket_set(c1[g1], cs, k)));
                lemma_same_rows_solvable(c1, c2, (n - 1) as nat, bucket_set(c1[g1], cs, k));
            }
            assert(guess_works(c2, n, cs, g2));
            assert(exists|g: int| 0 <= g < c2.len() && #[trigger] guess_works(c2, n, cs, g));
        }
        if solvable(c2, n, cs) {
            let g2 = choose|g2: int| 0 <= g2 < c2.len() && #[trigger] guess_works(c2, n, cs, g2);
            assert(row_in(c1, c2[g2]));
            let g1 = choose|g1: int| 0 <= g1 < c1.len() && #[trigger] c1[g1] == c2[g2];
            lemma_guess_works_iff(c1, n, cs, g1);
            lemma_guess_works_iff(c2, n, cs, g2);
            assert forall|k: u8| (#[trigger] bucket_set(c1[g1], cs, k)).len() != 0 implies
                solvable(c1, (n - 1) as nat, bucket_set(c1[g1], cs, k)) by {
                assert(bucket_set(c1[g1], cs, k) == bucket_set(c2[g2], cs, k));
                assert(solvable(c2, (n - 1) as nat, bucket_set(c2[g2], cs, k)));
                lemma_same_rows_solvable(c1, c2, (n - 1) as nat, bucket_set(c2[g2], cs, k));
            }
            assert(guess_works(c1, n, cs, g1));
            assert(exists|g: int| 0 <= g < c1.len() && #[trigger] guess_works(c1, n, cs, g));
        }
    }
}

/// Scratch state for the two-guess injectivity check: a table over the
/// feedback-code range, marked with a generation counter so that a new
/// invocation needs no clearing.  Owned by one search at a time.
pub struct Scratch {
    pub seen: Vec<u64>,
    pub generation: u64,
}

impl Scratch {
    /// The table covers the code range and no stale mark exceeds the
    /// current generation.
    pub open spec fn wf(&self) -> bool {
        &&& self.seen@.len() == NUM_CODES
        &&& forall|c: int| 0 <= c < NUM_CODES ==> (#[trigger] self.seen@[c]) <= self.generation
    }

    pub fn new() -> (r: Scratch)
        ensures
            r.wf(),
    {
        let mut seen: Vec<u64> = Vec::new();
        while seen.len() < NUM_CODES
            invariant
                seen@.len() <= NUM_CODES,
                forall|c: int| 0 <= c < seen@.len() ==> (#[trigger] seen@[c]) == 0,
            decreases NUM_CODES - seen@.len(),
        {
            seen.push(0);
        }
        Scratch { seen, generation: 0 }
    }

    /// Start a new invocation: afterwards no code is marked as seen.  The
    /// table is fully cleared only when the counter would wrap.
    fn bump(&mut self)
        requires
            old(self).wf(),
        ensures
            final(self).wf(),
            forall|c: int| 0 <= c < NUM_CODES ==> (#[trigger] final(self).seen@[c])
                < final(self).generation,
    {
        if self.generation == u64::MAX {
            let mut i: usize = 0;
            while i < self.seen.len()
                invariant
                    self.seen@.len() == NUM_CODES,
                    0 <= i <= NUM_CODES,
                    forall|c: int| 0 <= c < i ==> (#[trigger] self.seen@[c]) == 0,
                decreases NUM_CODES - i,
            {
                self.seen.set(i, 0);
                i = i + 1;
            }
            self.generation = 1;
        } else {
            self.generation = self.generation + 1;
        }
    }
}

/// Some candidate among the first `i` carries code `c` under `row`.
pub open spec fn seen_before(row: Seq<u8>, cands: Seq<usize>, i: int, c: int) -> bool {
    exists|p: int| 0 <= p < i && row[(#[trigger] cands[p]) as int] == c
}

impl Scorer {
    /// Does guess `guess` score injectively over the candidates, i.e. does
    /// it put every candidate into its own singleton bucket?  Uses the
    /// scratch table instead of allocating buckets.
    fn guess_separates(&self, scratch: &mut Scratch, guess: usize, cands: &[usize]) -> (r: bool)
        requires
            self.wf(),
            old(scratch).wf(),
            guess < self.guess_words().len(),
            forall|p: int|
                0 <= p < cands@.len() ==> (#[trigger] cands@[p]) < self.answer_words().len(),
            cands@.no_duplicates(),
        ensures
            final(scratch).wf(),
            r == inj_on(self.rows()[guess as int], cands@.to_set()),
    {
        let ghost row = self.rows()[guess as int];
        proof {
            self.lemma_codes_in_range();
        }
        scratch.bump();
        let ghost gen = scratch.generation;
        let mut i: usize = 0;
        while i < cands.len()
            invariant
                self.wf(),
                scratch.wf(),
                guess < self.guess_words().len(),
                forall|p: int|
                    0 <= p < cands@.len() ==> (#[trigger] cands@[p]) < self.answer_words().len(),
                cands@.no_duplicates(),
                forall|g: int, a: int|
                    0 <= g < self.rows().len() && 0 <= a < self.rows()[g].len() ==> (
                    #[trigger] self.rows()[g][a]) < NUM_CODES,
                row == self.rows()[guess as int],
                0 <= i <= cands@.len(),
                scratch.generation == gen,
                forall|c: int|
                    0 <= c < NUM_CODES ==> ((#[trigger] scratch.seen@[c]) == gen <==> seen_before(
                        row,
                        cands@,
                        i as int,
                        c,
                    )),
                forall|p1: int, p2: int|
                    0 <= p1 < p2 < i ==> row[(#[trigger] cands@[p1]) as int] != row[(
                    #[trigger] cands@[p2]) as int],
            decreases cands@.len() - i,
        {
            let a = cands[i];
            let code = self.score_cache[guess][a];
            proof {
                assert(self.score_cache@[guess as int]@ == row);
                assert(code == row[a as int]);
                assert(code < NUM_CODES);
            }
            if scratch.seen[code as usize] == scratch.generation {
                proof {
                    assert(seen_before(row, cands@, i as int, code as int));
                    let p = choose|p: int|
                        0 <= p < i && row[(#[trigger] cands@[p]) as int] == code as int;
                    assert(cands@[p] != cands@[i as int]);
                    assert(cands@.to_set().contains(cands@[p]));
                    assert(cands@.to_set().contains(cands@[i as int]));
                    assert(!inj_on(row, cands@.to_set()));
                }
                return false;
            }
            let ghost old_seen = scratch.seen@;
            scratch.seen.set(code as usize, scratch.generation);
            proof {
                assert forall|c: int|
                    0 <= c < NUM_CODES implies ((#[trigger] scratch.seen@[c]) == gen <==>
                seen_before(row, cands@, i + 1, c)) by {
                    if c == code as int {
                        assert(row[(cands@[i as int]) as int] == c);
                    } else {
                        assert(scratch.seen@[c] == old_seen[c]);
                        if seen_before(row, cands@, i + 1, c) {
                            let p = choose|p: int|
                                0 <= p < i + 1 && row[(#[trigger] cands@[p]) as int] == c;
                            assert(p < i);
                            assert(seen_before(row, cands@, i as int, c));
                        }
                        if seen_before(row, cands@, i as int, c) {
                            let p = choose|p: int|
                                0 <= p < i && row[(#[trigger] cands@[p]) as int] == c;
                            assert(seen_before(row, cands@, i + 1, c));
                        }
                    }
                }
                assert forall|p1: int, p2: int| 0 <= p1 < p2 < i + 1 implies row[(
                #[trigger] cands@[p1]) as int] != row[(#[trigger] cands@[p2]) as int] by {
                    if p2 == i as int {
                        assert(!seen_before(row, cands@, i as int, code as int));
                    }
                }
            }
            i = i + 1;
        }
        proof {
            assert forall|a1: usize, a2: usize|
                #![trigger cands@.to_set().contains(a1), cands@.to_set().contains(a2)]
                cands@.to_set().contains(a1) && cands@.to_set().contains(a2) && a1 != a2 implies
                row[a1 as int] != row[a2 as int] by {
                assert(cands@.contains(a1));
                assert(cands@.contains(a2));
                let p1 = choose|p: int| 0 <= p < cands@.len() && cands@[p] == a1;
                let p2 = choose|p: int| 0 <= p < cands@.len() && cands@[p] == a2;
                assert(p1 != p2);
            }
        }
        true
    }

    /// Can the candidate set be uniquely identified within `n` guesses?
    /// Tries guesses in pool order, so ranking the pool biases the search
    /// without changing its result.  "Not solvable" is a normal outcome,
    /// not an error.
    pub fn solvable_in(&self, scratch: &mut Scratch, n: u64, cands: &[usize]) -> (r: bool)
        requires
            self.wf(),
            old(scratch).wf(),
            n >= 1,
            cands@.len() >= 1,
            cands@.no_duplicates(),
            forall|p: int|
                0 <= p < cands@.len() ==> (#[trigger] cands@[p]) < self.answer_words().len(),
        ensures
            final(scratch).wf(),
            r == solvable(self.rows(), n as nat, cands@.to_set()),
        decreases n,
    {
        let ghost cs = cands@.to_set();
        proof {
            vstd::seq_lib::seq_to_set_is_finite(cands@);
        }
        if n == 1 {
            proof {
                cands@.unique_seq_to_set();
            }
            return cands.len() == 1;
        }
        if n == 2 {
            let mut g: usize = 0;
            while g < self.guesses.len()
                invariant
                    self.wf(),
                    scratch.wf(),
                    n == 2,
                    cands@.no_duplicates(),
                    forall|p: int|
                        0 <= p < cands@.len() ==> (#[trigger] cands@[p])
                            < self.answer_words().len(),
                    cs == cands@.to_set(),
                    cs.finite(),
                    0 <= g <= self.guess_words().len(),
                    self.guesses@.len() == self.guess_words().len(),
                    forall|g1: int| 0 <= g1 < g ==> !#[trigger] guess_works(self.rows(), 2, cs, g1),
                decreases self.guess_words().len() - g,
            {
                let sep = self.guess_separates(scratch, g, cands);
                proof {
                    lemma_guess_works_two(self.rows(), cs, g as int);
                }
                if sep {
                    proof {
                        assert(guess_works(self.rows(), 2nat, cs, g as int));
                        lemma_solvable_unfold(self.rows(), 2nat, cs);
                        assert(exists|g1: int|
                            0 <= g1 < self.rows().len() && #[trigger] guess_works(
                                self.rows(),
                                2nat,
                                cs,
                                g1,
                            ));
                    }
                    return true;
                }
                g = g + 1;
            }
            proof {
                lemma_solvable_unfold(self.rows(), 2nat, cs);
                assert(!solvable(self.rows(), 2nat, cs)) by {
                    if solvable(self.rows(), 2nat, cs) {
                        let g1 = choose|g1: int|
                            0 <= g1 < self.rows().len() && #[trigger] guess_works(
                                self.rows(),
                                2nat,
                                cs,
                                g1,
                            );
                    }
                }
            }
            return false;
        }
        // General case: some guess must make every bucket solvable with one
        // guess fewer; buckets are explored largest-first.
        let mut g: usize = 0;
        while g < self.guesses.len()
            invariant
                self.wf(),
                scratch.wf(),
                n >= 3,
                cands@.no_duplicates(),
                forall|p: int|
                    0 <= p < cands@.len() ==> (#[trigger] cands@[p]) < self.answer_words().len(),
                cs == cands@.to_set(),
                cs.finite(),
                n >= 3,
                0 <= g <= self.guess_words().len(),
                self.guesses@.len() == self.guess_words().len(),
                forall|g1: int|
                    0 <= g1 < g ==> !#[trigger] guess_works(self.rows(), n as nat, cs, g1),
            decreases self.guess_words().len() - g,
        {
            let ghost row = self.rows()[g as int];
            let buckets = self.group_by_code(g, cands);
            let mut all_ok = true;
            let mut j: usize = 0;
            while j < buckets.len() && all_ok
                invariant
                    self.wf(),
                    scratch.wf(),
                    n >= 3,
                    cands@.no_duplicates(),
                    forall|p: int|
                        0 <= p < cands@.len() ==> (#[trigger] cands@[p])
                            < self.answer_words().len(),
                    cs == cands@.to_set(),
                    cs.finite(),
                    g < self.guess_words().len(),
                    row == self.rows()[g as int],
                    grouped(row, cands@, buckets@),
                    0 <= j <= buckets@.len(),
                    all_ok ==> forall|j1: int|
                        0 <= j1 < j ==> solvable(
                            self.rows(),
                            (n - 1) as nat,
                            (#[trigger] buckets@[j1]).items@.to_set(),
                        ),
                    !all_ok ==> !guess_works(self.rows(), n as nat, cs, g as int),
                decreases buckets@.len() - j,
            {
                proof {
                    assert(buckets@[j as int].items@ == bucket_of(row, cands@, buckets@[j as int].code));
                    lemma_bucket_no_dup(row, cands@, buckets@[j as int].code);
                    lemma_bucket_membership(row, cands@, buckets@[j as int].code);
                    assert forall|p: int|
                        0 <= p < buckets@[j as int].items@.len() implies (
                    #[trigger] buckets@[j as int].items@[p]) < self.answer_words().len() by {
                        assert(buckets@[j as int].items@.contains(buckets@[j as int].items@[p]));
                        assert(cands@.contains(buckets@[j as int].items@[p]));
                        let q = choose|q: int|
                            0 <= q < cands@.len() && cands@[q] == buckets@[j as int].items@[p];
                    }
                }
                let ok = self.solvable_in(scratch, n - 1, buckets[j].items.as_slice());
                if !ok {
                    all_ok = false;
                    proof {
                        let k = buckets@[j as int].code;
                        lemma_bucket_to_set(row, cands@, k);
                        assert(buckets@[j as int].items@.to_set() == bucket_set(row, cs, k));
                        vstd::seq_lib::seq_to_set_is_finite(buckets@[j as int].items@);
                        assert(buckets@[j as int].items@.len() > 0);
                        assert(buckets@[j as int].items@.contains(buckets@[j as int].items@[0]));
                        lemma_contains_nonzero(
                            buckets@[j as int].items@.to_set(),
                            buckets@[j as int].items@[0],
                        );
                        assert(bucket_set(row, cs, k).len() != 0);
                        assert(!solvable(self.rows(), (n - 1) as nat, bucket_set(row, cs, k)));
                        lemma_guess_works_iff(self.rows(), n as nat, cs, g as int);
                        assert(!guess_works(self.rows(), n as nat, cs, g as int));
                    }
                }
                j = j + 1;
            }
            if all_ok {
                proof {
                    assert forall|k: u8| (#[trigger] bucket_set(row, cs, k)).len() != 0 implies
                        solvable(self.rows(), (n - 1) as nat, bucket_set(row, cs, k)) by {
                        cs.lemma_len_filter(has_code(row, k));
                        let b = bucket_set(row, cs, k);
                        let x = b.choose();
                        assert(b.contains(x)) by {
                            if !b.contains(x) {
                                assert(forall|y: usize| !b.contains(y));
                                assert(b =~= Set::empty());
                            }
                        }
                        assert(cs.contains(x) && row[x as int] == k);
                        assert(cands@.contains(x));
                        let q = choose|q: int| 0 <= q < cands@.len() && cands@[q] == x;
                        assert(code_occurs(row, cands@, k));
                        let jj = choose|jj: int|
                            0 <= jj < buckets@.len() && (#[trigger] buckets@[jj]).code == k;
                        lemma_bucket_to_set(row, cands@, k);
                        assert(buckets@[jj].items@.to_set() == bucket_set(row, cs, k));
                        assert(solvable(self.rows(), (n - 1) as nat, buckets@[jj].items@.to_set()));
                    }
                    lemma_guess_works_iff(self.rows(), n as nat, cs, g as int);
                    assert(guess_works(self.rows(), n as nat, cs, g as int));
                    lemma_solvable_unfold(self.rows(), n as nat, cs);
                    assert(exists|g1: int|
                        0 <= g1 < self.rows().len() && #[trigger] guess_works(
                            self.rows(),
                            n as nat,
                            cs,
                            g1,
                        ));
                }
                return true;
            }
            g = g + 1;
        }
        proof {
            lemma_solvable_unfold(self.rows(), n as nat, cs);
            assert(!solvable(self.rows(), n as nat, cs)) by {
                if solvable(self.rows(), n as nat, cs) {
                    let g1 = choose|g1: int|
                        0 <= g1 < self.rows().len() && #[trigger] guess_works(
                            self.rows(),
                            n as nat,
                            cs,
                            g1,
                        );
                }
            }
        }
        false
    }
}

} // verus!
