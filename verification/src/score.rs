//! The scoring rule of the game: a guess and an answer of equal length are
//! compared position by position, and the per-position outcomes are encoded
//! as a single base-3 integer, the feedback code.

use vstd::prelude::*;

verus! {

/// Length of every word in play.
pub const WORD_LEN: usize = 5;

/// Number of possible feedback codes: 3 to the power of `WORD_LEN`.
pub const NUM_CODES: usize = 243;

/// Outcome of a single guessed letter.
#[derive(Clone, Copy, Debug, PartialEq, Eq, Structural)]
pub enum CharScore {
    Absent,
    Correct,
    Present,
}

/// Fixed ordinal of each outcome; only ever compared for equality, so the
/// exact mapping matters only in that it is consistent.
pub open spec fn char_ord(c: CharScore) -> int {
    match c {
        CharScore::Absent => 0,
        CharScore::Correct => 1,
        CharScore::Present => 2,
    }
}

/// 3 to the power of `n`.
pub open spec fn pow3(n: nat) -> nat
    decreases n,
{
    if n == 0 {
        1
    } else {
        3 * pow3((n - 1) as nat)
    }
}

/// Base-3 value of a sequence of outcomes, most significant digit first.
pub open spec fn encode_spec(s: Seq<CharScore>) -> int
    decreases s.len(),
{
    if s.len() == 0 {
        0
    } else {
        encode_spec(s.drop_last()) * 3 + char_ord(s.last())
    }
}

pub proof fn lemma_encode_bounds(s: Seq<CharScore>)
    ensures
        0 <= encode_spec(s) < pow3(s.len()),
    decreases s.len(),
{
    if s.len() > 0 {
        lemma_encode_bounds(s.drop_last());
    }
}

/// The encoding is injective on outcome sequences of equal length: the code
/// is a bijection between outcome sequences and integers below `pow3(len)`.
pub proof fn lemma_encode_injective(s1: Seq<CharScore>, s2: Seq<CharScore>)
    requires
        s1.len() == s2.len(),
        encode_spec(s1) == encode_spec(s2),
    ensures
        s1 == s2,
    decreases s1.len(),
{
    if s1.len() > 0 {
        let a1 = encode_spec(s1.drop_last());
        let a2 = encode_spec(s2.drop_last());
        assert(0 <= char_ord(s1.last()) < 3);
        assert(0 <= char_ord(s2.last()) < 3);
        assert(a1 * 3 + char_ord(s1.last()) == a2 * 3 + char_ord(s2.last()));
        assert(a1 == a2 && char_ord(s1.last()) == char_ord(s2.last())) by (nonlinear_arith)
            requires
                a1 * 3 + char_ord(s1.last()) == a2 * 3 + char_ord(s2.last()),
                0 <= char_ord(s1.last()) < 3,
                0 <= char_ord(s2.last()) < 3,
        {
        }
        assert(s1.last() == s2.last());
        lemma_encode_injective(s1.drop_last(), s2.drop_last());
        assert(s1 =~= s1.drop_last().push(s1.last()));
        assert(s2 =~= s2.drop_last().push(s2.last()));
    } else {
        assert(s1 =~= s2);
    }
}

/// Ordinal of an outcome as a machine integer.
pub fn char_ord_exec(c: CharScore) -> (r: u8)
    ensures
        r as int == char_ord(c),
{
    match c {
        CharScore::Absent => 0,
        CharScore::Correct => 1,
        CharScore::Present => 2,
    }
}

/// Compactly encode a sequence of outcomes as a single byte.
pub fn encode_score(cs: &[CharScore]) -> (r: u8)
    requires
        cs@.len() <= WORD_LEN,
    ensures
        r as int == encode_spec(cs@),
{
    proof {
        lemma_encode_bounds(cs@);
    }
    let mut acc: u8 = 0;
    let mut i: usize = 0;
    while i < cs.len()
        invariant
            0 <= i <= cs@.len() <= WORD_LEN,
            acc as int == encode_spec(cs@.subrange(0, i as int)),
            (acc as int) < pow3(i as nat),
        decreases cs@.len() - i,
    {
        proof {
            assert(cs@.subrange(0, i + 1).drop_last() =~= cs@.subrange(0, i as int));
            assert(cs@.subrange(0, i + 1).last() == cs@[i as int]);
            assert(pow3((i + 1) as nat) == 3 * pow3(i as nat));
            lemma_pow3_le(((i + 1) as nat), 5);
            assert(pow3(5) == 243) by {
                reveal_with_fuel(pow3, 6);
            }
        }
        acc = acc * 3 + char_ord_exec(cs[i]);
        i = i + 1;
    }
    proof {
        assert(cs@.subrange(0, cs@.len() as int) =~= cs@);
    }
    acc
}

pub proof fn lemma_pow3_le(m: nat, n: nat)
    requires
        m <= n,
    ensures
        pow3(m) <= pow3(n),
    decreases n,
{
    if m < n && n > 0 {
        lemma_pow3_le(m, (n - 1) as nat);
    }
}

/// Answer slots consumed by the exact-match pass: slot `j` is used up
/// exactly when the guess hits it dead on.
pub open spec fn init_used(g: Seq<u8>, a: Seq<u8>) -> Seq<bool> {
    Seq::new(a.len(), |j: int| g[j] == a[j])
}

/// First answer slot at or after `j` that is not yet used and holds `c`.
/// Ties among duplicate letters are broken by answer position order.
pub open spec fn find_match(c: u8, a: Seq<u8>, used: Seq<bool>, j: int) -> Option<int>
    decreases a.len() - j,
{
    if j < 0 || j >= a.len() {
        None
    } else if !used[j] && a[j] == c {
        Some(j)
    } else {
        find_match(c, a, used, j + 1)
    }
}

/// The used-slot state after the presence pass has handled guess
/// positions `0 .. i`: each non-exact position consumes, in order, the
/// first unused slot holding its letter, if any.
pub open spec fn used_after(g: Seq<u8>, a: Seq<u8>, i: int) -> Seq<bool>
    decreases i,
{
    if i <= 0 {
        init_used(g, a)
    } else {
        let prev = used_after(g, a, i - 1);
        if g[i - 1] == a[i - 1] {
            prev
        } else {
            match find_match(g[i - 1], a, prev, 0) {
                Some(j) => prev.update(j, true),
                None => prev,
            }
        }
    }
}

/// Outcome of guess position `i`: an exact match is Correct; otherwise the
/// letter is Present when an unused answer slot still holds it, else Absent.
pub open spec fn char_score_at(g: Seq<u8>, a: Seq<u8>, i: int) -> CharScore {
    if g[i] == a[i] {
        CharScore::Correct
    } else {
        match find_match(g[i], a, used_after(g, a, i), 0) {
            Some(_) => CharScore::Present,
            None => CharScore::Absent,
        }
    }
}

/// The full outcome sequence for a guess against an answer.
pub open spec fn score_seq(g: Seq<u8>, a: Seq<u8>) -> Seq<CharScore> {
    Seq::new(g.len(), |i: int| char_score_at(g, a, i))
}

/// The feedback code for a guess against an answer.
pub open spec fn score_spec(g: Seq<u8>, a: Seq<u8>) -> int {
    encode_spec(score_seq(g, a))
}

pub proof fn lemma_score_bounds(g: Seq<u8>, a: Seq<u8>)
    requires
        g.len() == WORD_LEN,
    ensures
        0 <= score_spec(g, a) < NUM_CODES,
{
    lemma_encode_bounds(score_seq(g, a));
    assert(pow3(5) == 243) by {
        reveal_with_fuel(pow3, 6);
    }
}

/// A found slot is in range, was unused, holds the letter, and no earlier
/// unused slot holds it; when none is found, no unused slot holds it.
pub proof fn lemma_find_match_props(c: u8, a: Seq<u8>, used: Seq<bool>, j: int)
    requires
        0 <= j <= a.len(),
    ensures
        match find_match(c, a, used, j) {
            Some(k) => j <= k < a.len() && !used[k] && a[k] == c && forall|l: int|
                j <= l < k ==> used[l] || a[l] != c,
            None => forall|l: int| j <= l < a.len() ==> used[l] || a[l] != c,
        },
    decreases a.len() - j,
{
    if j < a.len() && !(!used[j] && a[j] == c) {
        lemma_find_match_props(c, a, used, j + 1);
    }
}

/// The all-Correct outcome sequence of length `n`.
pub open spec fn all_correct(n: nat) -> Seq<CharScore> {
    Seq::new(n, |i: int| CharScore::Correct)
}

/// Scoring a word against itself yields all Correct.
pub proof fn lemma_score_self(w: Seq<u8>)
    ensures
        score_seq(w, w) == all_correct(w.len()),
        score_spec(w, w) == encode_spec(all_correct(w.len())),
{
    assert(score_seq(w, w) =~= all_correct(w.len()));
}

/// An exact match scores Correct, and nothing else does: exact matches take
/// priority over presence checks and consume their answer slots up front.
pub proof fn lemma_correct_iff_exact(g: Seq<u8>, a: Seq<u8>)
    requires
        g.len() == a.len(),
    ensures
        forall|i: int|
            0 <= i < g.len() ==> (char_score_at(g, a, i) == CharScore::Correct <==> g[i] == a[i]),
{
}

/// A guess scores the all-Correct code against an answer exactly when the
/// two words are equal.
pub proof fn lemma_all_correct_iff_equal(g: Seq<u8>, a: Seq<u8>)
    requires
        g.len() == a.len(),
    ensures
        score_spec(g, a) == encode_spec(all_correct(g.len())) <==> g == a,
{
    if score_spec(g, a) == encode_spec(all_correct(g.len())) {
        lemma_encode_injective(score_seq(g, a), all_correct(g.len()));
        assert forall|i: int| 0 <= i < g.len() implies char_score_at(g, a, i)
            == CharScore::Correct by {
            assert(score_seq(g, a)[i] == all_correct(g.len())[i]);
        }
        lemma_correct_iff_exact(g, a);
        assert(g =~= a);
    }
    if g == a {
        lemma_score_self(g);
    }
}

/// Number of positions `k < j` of `a` holding the letter `c`.
pub open spec fn count_eq(a: Seq<u8>, c: u8, j: int) -> nat
    decreases j,
{
    if j <= 0 {
        0
    } else {
        count_eq(a, c, j - 1) + if a[j - 1] == c {
            1nat
        } else {
            0nat
        }
    }
}

/// Number of used slots `k < j` of `a` holding the letter `c`.
pub open spec fn count_marked(a: Seq<u8>, u: Seq<bool>, c: u8, j: int) -> nat
    decreases j,
{
    if j <= 0 {
        0
    } else {
        count_marked(a, u, c, j - 1) + if u[j - 1] && a[j - 1] == c {
            1nat
        } else {
            0nat
        }
    }
}

/// Number of guess positions `p < i` holding `c` that score other than Absent.
pub open spec fn count_scored(g: Seq<u8>, a: Seq<u8>, c: u8, i: int) -> nat
    decreases i,
{
    if i <= 0 {
        0
    } else {
        count_scored(g, a, c, i - 1) + if g[i - 1] == c && char_score_at(g, a, i - 1)
            != CharScore::Absent {
            1nat
        } else {
            0nat
        }
    }
}

/// Number of guess positions `p < i` holding `c` that score Correct.
pub open spec fn count_correct(g: Seq<u8>, a: Seq<u8>, c: u8, i: int) -> nat
    decreases i,
{
    if i <= 0 {
        0
    } else {
        count_correct(g, a, c, i - 1) + if g[i - 1] == c && g[i - 1] == a[i - 1] {
            1nat
        } else {
            0nat
        }
    }
}

/// Number of guess positions `p < i` holding `c` that score Present.
pub open spec fn count_present(g: Seq<u8>, a: Seq<u8>, c: u8, i: int) -> nat
    decreases i,
{
    if i <= 0 {
        0
    } else {
        count_present(g, a, c, i - 1) + if g[i - 1] == c && char_score_at(g, a, i - 1)
            == CharScore::Present {
            1nat
        } else {
            0nat
        }
    }
}

proof fn lemma_split_scored(g: Seq<u8>, a: Seq<u8>, c: u8, i: int)
    requires
        g.len() == a.len(),
        i <= g.len(),
    ensures
        count_scored(g, a, c, i) == count_correct(g, a, c, i) + count_present(g, a, c, i),
    decreases i,
{
    if i > 0 {
        lemma_split_scored(g, a, c, i - 1);
    }
}

proof fn lemma_marked_init(g: Seq<u8>, a: Seq<u8>, c: u8, j: int)
    requires
        g.len() == a.len(),
        j <= a.len(),
    ensures
        count_marked(a, init_used(g, a), c, j) == count_correct(g, a, c, j),
    decreases j,
{
    if j > 0 {
        lemma_marked_init(g, a, c, j - 1);
    }
}

proof fn lemma_marked_update(a: Seq<u8>, u: Seq<bool>, c: u8, jj: int, j: int)
    requires
        0 <= jj < a.len(),
        u.len() == a.len(),
        !u[jj],
        j <= a.len(),
    ensures
        count_marked(a, u.update(jj, true), c, j) == count_marked(a, u, c, j) + if jj < j && a[jj]
            == c {
            1nat
        } else {
            0nat
        },
    decreases j,
{
    if j > 0 {
        lemma_marked_update(a, u, c, jj, j - 1);
    }
}

proof fn lemma_marked_le(a: Seq<u8>, u: Seq<bool>, c: u8, j: int)
    ensures
        count_marked(a, u, c, j) <= count_eq(a, c, j),
    decreases j,
{
    if j > 0 {
        lemma_marked_le(a, u, c, j - 1);
    }
}

proof fn lemma_used_len(g: Seq<u8>, a: Seq<u8>, i: int)
    requires
        g.len() == a.len(),
    ensures
        used_after(g, a, i).len() == a.len(),
    decreases i,
{
    if i > 0 {
        lemma_used_len(g, a, i - 1);
        let prev = used_after(g, a, i - 1);
        if g[i - 1] != a[i - 1] {
            match find_match(g[i - 1], a, prev, 0) {
                Some(j) => {
                    lemma_find_match_props(g[i - 1], a, prev, 0);
                },
                None => {},
            }
        }
    }
}

proof fn lemma_marked_invariant(g: Seq<u8>, a: Seq<u8>, c: u8, i: int)
    requires
        g.len() == a.len(),
        0 <= i <= g.len(),
    ensures
        count_marked(a, used_after(g, a, i), c, a.len() as int) == count_correct(
            g,
            a,
            c,
            g.len() as int,
        ) + count_present(g, a, c, i),
    decreases i,
{
    if i == 0 {
        lemma_marked_init(g, a, c, a.len() as int);
    } else {
        lemma_marked_invariant(g, a, c, i - 1);
        let prev = used_after(g, a, i - 1);
        lemma_used_len(g, a, i - 1);
        if g[i - 1] == a[i - 1] {
            assert(char_score_at(g, a, i - 1) == CharScore::Correct);
        } else {
            match find_match(g[i - 1], a, prev, 0) {
                Some(j) => {
                    lemma_find_match_props(g[i - 1], a, prev, 0);
                    assert(a[j] == g[i - 1] && !prev[j]);
                    lemma_marked_update(a, prev, c, j, a.len() as int);
                    assert(char_score_at(g, a, i - 1) == CharScore::Present);
                },
                None => {
                    assert(char_score_at(g, a, i - 1) == CharScore::Absent);
                },
            }
        }
    }
}

/// Letters are used up: across a whole guess, the positions holding a letter
/// `c` that score Correct or Present never outnumber the occurrences of `c`
/// in the answer.
pub proof fn lemma_letters_used_up(g: Seq<u8>, a: Seq<u8>, c: u8)
    requires
        g.len() == a.len(),
    ensures
        count_scored(g, a, c, g.len() as int) <= count_eq(a, c, a.len() as int),
{
    lemma_split_scored(g, a, c, g.len() as int);
    lemma_marked_invariant(g, a, c, g.len() as int);
    lemma_marked_le(a, used_after(g, a, g.len() as int), c, a.len() as int);
}

/// Look for the presence of `c` in an answer slot that is not used; if one
/// exists, use up the first such slot.
#[verifier::loop_isolation(false)]
fn check_presence(c: u8, answer: &[u8], used: &mut Vec<bool>) -> (r: bool)
    requires
        old(used)@.len() == answer@.len(),
    ensures
        match find_match(c, answer@, old(used)@, 0) {
            Some(j) => r && final(used)@ == old(used)@.update(j, true),
            None => !r && final(used)@ == old(used)@,
        },
{
    let ghost u0 = used@;
    let mut idx: usize = 0;
    while idx < answer.len()
        invariant
            0 <= idx <= answer@.len(),
            used@ == u0,
            u0.len() == answer@.len(),
            find_match(c, answer@, u0, 0) == find_match(c, answer@, u0, idx as int),
        decreases answer@.len() - idx,
    {
        if !used[idx] && c == answer[idx] {
            proof {
                assert(!u0[idx as int] && answer@[idx as int] == c);
                assert(find_match(c, answer@, u0, idx as int) == Some(idx as int));
                assert(find_match(c, answer@, u0, 0) == Some(idx as int));
            }
            used.set(idx, true);
            return true;
        }
        proof {
            assert(find_match(c, answer@, u0, idx as int) == find_match(
                c,
                answer@,
                u0,
                idx + 1,
            ));
        }
        idx = idx + 1;
    }
    false
}

/// Return the feedback code for a guess against a specific answer.
///
/// Two passes: exact matches first, which use up their answer slots, then
/// presence checks that consume the leftmost unused slot for each letter.
pub fn score_wordle(guess: &[u8], answer: &[u8]) -> (r: u8)
    requires
        guess@.len() == WORD_LEN,
        answer@.len() == WORD_LEN,
    ensures
        r as int == score_spec(guess@, answer@),
        r < NUM_CODES,
{
    let mut corrects: Vec<bool> = Vec::new();
    let mut used: Vec<bool> = Vec::new();
    let mut idx: usize = 0;
    while idx < guess.len()
        invariant
            guess@.len() == WORD_LEN,
            answer@.len() == WORD_LEN,
            0 <= idx <= WORD_LEN,
            corrects@.len() == idx,
            used@.len() == idx,
            forall|j: int| 0 <= j < idx ==> corrects@[j] == (guess@[j] == answer@[j]),
            forall|j: int| 0 <= j < idx ==> used@[j] == (guess@[j] == answer@[j]),
        decreases guess@.len() - idx,
    {
        let hit = guess[idx] == answer[idx];
        corrects.push(hit);
        used.push(hit);
        idx = idx + 1;
    }
    proof {
        assert(used@ =~= init_used(guess@, answer@));
    }

    let mut scores: Vec<CharScore> = Vec::new();
    let mut i: usize = 0;
    while i < guess.len()
        invariant
            guess@.len() == WORD_LEN,
            answer@.len() == WORD_LEN,
            0 <= i <= WORD_LEN,
            corrects@.len() == WORD_LEN,
            used@.len() == WORD_LEN,
            forall|j: int| 0 <= j < WORD_LEN ==> corrects@[j] == (guess@[j] == answer@[j]),
            used@ == used_after(guess@, answer@, i as int),
            scores@.len() == i,
            forall|j: int| 0 <= j < i ==> scores@[j] == char_score_at(guess@, answer@, j),
        decreases guess@.len() - i,
    {
        let ghost u_prev = used@;
        if corrects[i] {
            scores.push(CharScore::Correct);
            proof {
                assert(guess@[i as int] == answer@[i as int]);
                assert(used_after(guess@, answer@, i + 1) == u_prev);
                assert(char_score_at(guess@, answer@, i as int) == CharScore::Correct);
            }
        } else if check_presence(guess[i], answer, &mut used) {
            scores.push(CharScore::Present);
            proof {
                assert(guess@[i as int] != answer@[i as int]);
                lemma_find_match_props(guess@[i as int], answer@, u_prev, 0);
                let j = find_match(guess@[i as int], answer@, u_prev, 0)->Some_0;
                assert(0 <= j < answer@.len());
                assert(used@ == u_prev.update(j, true));
                assert(used_after(guess@, answer@, i + 1) == u_prev.update(j, true));
                assert(char_score_at(guess@, answer@, i as int) == CharScore::Present);
            }
        } else {
            scores.push(CharScore::Absent);
            proof {
                assert(guess@[i as int] != answer@[i as int]);
                assert(find_match(guess@[i as int], answer@, u_prev, 0) is None);
                assert(used_after(guess@, answer@, i + 1) == u_prev);
                assert(char_score_at(guess@, answer@, i as int) == CharScore::Absent);
            }
        }
        i = i + 1;
    }
    proof {
        assert(scores@ =~= score_seq(guess@, answer@));
        lemma_score_bounds(guess@, answer@);
    }
    encode_score(scores.as_slice())
}

} // verus!
