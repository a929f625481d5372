use wordle_solver::score::{encode_score, score_wordle, CharScore};

const A: CharScore = CharScore::Absent;
const C: CharScore = CharScore::Correct;
const P: CharScore = CharScore::Present;

fn check(guess: &str, answer: &str, score: &[CharScore]) {
    assert_eq!(
        score_wordle(guess.as_bytes(), answer.as_bytes()),
        encode_score(score)
    );
}

#[test]
fn test_simple_green() {
    check("weary", "wills", &[C, A, A, A, A]);
}

#[test]
fn test_simple_yellow() {
    check("pilot", "leaks", &[A, A, P, A, A]);
}

#[test]
fn test_double_yellow() {
    check("kazoo", "tools", &[A, A, A, P, P]);
}

#[test]
fn test_green_overrides_yellow() {
    // Letters are 'used up' by exact matches.
    check("loose", "chore", &[A, A, C, A, C]);
}

#[test]
fn test_yellow_overrides_yellow() {
    // Letters are 'used up' by inexact matches, too.
    // So, only one 'O' matches.
    check("spoon", "coats", &[P, A, P, A, A]);
}

#[test]
fn test_success() {
    check("prize", "prize", &[C, C, C, C, C]);
}

#[test]
fn test_encode_base_three() {
    // Most significant digit first: [C, A, A, A, A] is 1 * 3^4 = 81.
    assert_eq!(encode_score(&[C, A, A, A, A]), 81);
    assert_eq!(encode_score(&[A, A, A, A, P]), 2);
    assert_eq!(encode_score(&[A, A, A, A, A]), 0);
    // All Correct encodes as 3^4 + 3^3 + 3^2 + 3 + 1 = 121.
    assert_eq!(encode_score(&[C, C, C, C, C]), 121);
}

#[test]
fn test_score_self_is_all_correct() {
    // Scoring any word against itself encodes "all Correct".
    for w in ["crane", "zzzzz", "aabba"] {
        assert_eq!(
            score_wordle(w.as_bytes(), w.as_bytes()),
            encode_score(&[C, C, C, C, C])
        );
    }
}

#[test]
fn test_duplicate_letters_used_up() {
    // "spoon" against "coats": only one 'o' exists in the answer, so the
    // guess's two 'o's yield exactly one Present between them.
    let code = score_wordle("spoon".as_bytes(), "coats".as_bytes());
    assert_eq!(code, encode_score(&[P, A, P, A, A]));
    assert_ne!(code, encode_score(&[P, A, P, P, A]));
}
