use wordle_solver::greedy::guess_greedily;
use wordle_solver::score::score_wordle;
use wordle_solver::scorer::Scorer;
use wordle_solver::search::Scratch;

fn words(ws: &[&str]) -> Vec<Vec<u8>> {
    ws.iter().map(|w| w.as_bytes().to_vec()).collect()
}

fn small_scorer() -> Scorer {
    // Guess pool empty: the answers themselves become the guesses.
    Scorer::new(words(&[]), words(&["apple", "ample", "maple"]))
}

#[test]
fn test_new_appends_answers_to_guesses() {
    let s = Scorer::new(words(&["crane"]), words(&["apple", "maple"]));
    assert_eq!(s.guesses.len(), 3);
    assert_eq!(s.answers.len(), 2);
    assert_eq!(s.guesses[1], b"apple".to_vec());
    assert_eq!(s.guesses[2], b"maple".to_vec());
}

#[test]
fn test_cache_matches_direct_scoring() {
    let s = small_scorer();
    for g in 0..s.guesses.len() {
        for a in 0..s.answers.len() {
            assert_eq!(
                s.score_cache[g][a],
                score_wordle(&s.guesses[g], &s.answers[a])
            );
        }
    }
}

#[test]
fn test_buckets_partition_candidates() {
    let s = small_scorer();
    let cands: Vec<usize> = vec![0, 1, 2];
    for g in 0..s.guesses.len() {
        let buckets = s.bucket_answers(g, &cands);
        // Sizes descend, every bucket is non-empty, and the sizes sum to
        // the candidate count.
        let mut total = 0;
        let mut last = usize::MAX;
        for b in buckets.iter() {
            assert!(!b.is_empty());
            assert!(b.len() <= last);
            last = b.len();
            total += b.len();
        }
        assert_eq!(total, cands.len());
        // Pairwise disjoint: each candidate appears exactly once.
        for c in cands.iter() {
            let hits: usize = buckets.iter().filter(|b| b.contains(c)).count();
            assert_eq!(hits, 1);
        }
    }
}

#[test]
fn test_worst_case_splits_self_off() {
    // "aaaaa" buckets the answers into itself and the rest.
    let s = Scorer::new(words(&[]), words(&["aaaaa", "bbbbb", "ccccc"]));
    let cands: Vec<usize> = vec![0, 1, 2];
    let (worst, buckets) = s.find_greedy_worst_case(0, &cands);
    assert_eq!(worst, 2);
    assert_eq!(buckets.len(), 2);
    assert_eq!(buckets[0].items.len(), 2);
    assert_eq!(buckets[1].items.len(), 1);
}

#[test]
fn test_bucket_answers_empty_candidates() {
    let s = small_scorer();
    let buckets = s.bucket_answers(0, &[]);
    assert!(buckets.is_empty());
}

#[test]
fn test_duplicate_guess_words_are_kept() {
    // Deduplication is neither guaranteed nor required of the pools.
    let mut s = Scorer::new(words(&["aaaaa", "aaaaa"]), words(&["aaaaa", "bbbbb"]));
    let worsts = s.optimise_guess_order();
    assert_eq!(worsts.len(), 4);
    let mut scratch = Scratch::new();
    assert!(s.solvable_in(&mut scratch, 2, &[0, 1]));
}

#[test]
fn test_one_guess_needs_single_candidate() {
    let s = small_scorer();
    let mut scratch = Scratch::new();
    assert!(s.solvable_in(&mut scratch, 1, &[2]));
    assert!(!s.solvable_in(&mut scratch, 1, &[0, 1]));
}

#[test]
fn test_two_guesses_when_a_guess_separates() {
    let s = Scorer::new(words(&[]), words(&["aaaaa", "bbbbb"]));
    let mut scratch = Scratch::new();
    // Guessing "aaaaa" scores the two answers differently, so two guesses
    // suffice.
    assert!(s.solvable_in(&mut scratch, 2, &[0, 1]));
}

#[test]
fn test_three_disjoint_words_need_three_guesses() {
    // Every guess here buckets the answers into itself and the other two,
    // so no guess separates all three at once: a budget of two fails and a
    // budget of three succeeds.
    let s = Scorer::new(words(&[]), words(&["aaaaa", "bbbbb", "ccccc"]));
    let mut scratch = Scratch::new();
    assert!(!s.solvable_in(&mut scratch, 2, &[0, 1, 2]));
    assert!(s.solvable_in(&mut scratch, 3, &[0, 1, 2]));
}

#[test]
fn test_reranking_keeps_solvability() {
    let mut s = Scorer::new(
        words(&["crane", "slate"]),
        words(&["apple", "ample", "maple", "crane"]),
    );
    let mut scratch = Scratch::new();
    let cands: Vec<usize> = vec![0, 1, 2, 3];
    let before2 = s.solvable_in(&mut scratch, 2, &cands);
    let before3 = s.solvable_in(&mut scratch, 3, &cands);
    s.optimise_guess_order();
    assert_eq!(s.solvable_in(&mut scratch, 2, &cands), before2);
    assert_eq!(s.solvable_in(&mut scratch, 3, &cands), before3);
}

#[test]
fn test_optimise_sorts_by_worst_case() {
    let mut s = Scorer::new(words(&["crane"]), words(&["aaaaa", "bbbbb", "ccccc"]));
    let worsts = s.optimise_guess_order();
    assert_eq!(worsts.len(), s.guesses.len());
    for i in 1..worsts.len() {
        assert!(worsts[i - 1] <= worsts[i]);
    }
    // "crane" hits the 'a' of "aaaaa" and the 'c' of "ccccc", so it puts
    // every answer in its own bucket: worst case 1.  Each answer word only
    // splits itself off: worst case 2.
    assert_eq!(worsts, vec![1, 2, 2, 2]);
    assert_eq!(s.guesses[0], b"crane".to_vec());
}

#[test]
fn test_greedy_counts_guesses() {
    let s = Scorer::new(words(&[]), words(&["aaaaa", "bbbbb", "ccccc"]));
    let all: Vec<usize> = vec![0, 1, 2];
    // Singleton candidate set: one guess.
    assert_eq!(guess_greedily(&s, 0, &[1], 1), 1);
    // The greedy player picks "aaaaa" first (all worst cases tie), putting
    // targets 1 and 2 in a two-word bucket; isolating either takes two
    // more guesses.
    assert_eq!(guess_greedily(&s, 0, &all, 0), 2);
    assert_eq!(guess_greedily(&s, 0, &all, 1), 3);
    // The depth already used is carried through.
    assert_eq!(guess_greedily(&s, 4, &[2], 2), 5);
}
