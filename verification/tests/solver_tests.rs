use cluesolver::matrix::{fast_calculate_word_overlap, precompute_calculate_word_overlap};
use cluesolver::overlap::{calculate_word_overlap, Overlap};
use cluesolver::scorer::{best_clue, score_word, ScoreType};
use cluesolver::solver::{filter_candidates, solve_auto};

fn c(a: &str) -> Vec<char> {
    a.chars().collect()
}

fn corpus(words: &[&str]) -> Vec<Vec<char>> {
    words.iter().map(|w| c(w)).collect()
}

#[test]
fn test_matrix_lookup_equals_direct_computation() {
    let words = corpus(&["plant", "areas", "donee", "sloth", "skint"]);
    let mat = precompute_calculate_word_overlap(&words);
    assert_eq!(mat.len(), 25);
    for i in 0..words.len() {
        for j in 0..words.len() {
            assert_eq!(
                fast_calculate_word_overlap(&mat, words.len(), i, j),
                calculate_word_overlap(&words[i], &words[j])
            );
        }
    }
}

#[test]
fn test_score_word_exact_values() {
    // Row "ab": perfect match against itself (slot 4 for length 2), no
    // overlap against "cd" (slot 0): tally [1, 0, 0, 0, 1].
    let words = corpus(&["ab", "cd"]);
    let mat = precompute_calculate_word_overlap(&words);
    assert_eq!(score_word(&mat, 2, 2, 0, ScoreType::MinimiseLargestBucketSize), 1);
    // Total 2 over 5 slots gives integer mean 0: deviations 1, 0, 0, 0, 1.
    assert_eq!(score_word(&mat, 2, 2, 0, ScoreType::MinimiseVariance), 2);
}

#[test]
fn test_best_clue_picks_smallest_objective() {
    // Largest buckets: "aa" -> 1, "ab" -> 2, "bb" -> 1. The candidate order
    // starts with the worst word, so a reduction that ignored the comparator
    // would return value 2.
    let words = corpus(&["aa", "ab", "bb"]);
    let mat = precompute_calculate_word_overlap(&words);
    let candidates: Vec<usize> = vec![1, 0, 2];
    let clue = best_clue(&mat, 3, 2, &words, &candidates, ScoreType::MinimiseLargestBucketSize);
    assert_eq!(clue.value, 1);
    assert!(clue.word == c("aa") || clue.word == c("bb"));
}

#[test]
fn test_scorer_value_deterministic_across_runs() {
    let words = corpus(&["plant", "areas", "donee", "sloth", "skint"]);
    let mat = precompute_calculate_word_overlap(&words);
    let candidates: Vec<usize> = vec![0, 1, 2, 3, 4];
    let first = best_clue(&mat, 5, 5, &words, &candidates, ScoreType::MinimiseLargestBucketSize);
    let second = best_clue(&mat, 5, 5, &words, &candidates, ScoreType::MinimiseLargestBucketSize);
    assert_eq!(first.value, second.value);
    let v1 = best_clue(&mat, 5, 5, &words, &candidates, ScoreType::MinimiseVariance);
    let v2 = best_clue(&mat, 5, 5, &words, &candidates, ScoreType::MinimiseVariance);
    assert_eq!(v1.value, v2.value);
}

#[test]
fn test_filter_candidates_keeps_consistent_words() {
    let words = corpus(&["plant", "areas", "donee", "sloth", "skint"]);
    let candidates: Vec<usize> = vec![0, 1, 2, 3, 4];
    // Feedback of guessing "skint" when the answer is "plant".
    let obs = calculate_word_overlap(&c("plant"), &c("skint"));
    assert_eq!(obs, Overlap::new(0, 2));
    let kept = filter_candidates(&words, &candidates, &c("skint"), obs);
    assert_eq!(kept, vec![0]);
}

#[test]
fn test_solve_auto_converges_to_target() {
    let words = corpus(&["plant", "areas", "donee", "sloth", "skint"]);
    let mat = precompute_calculate_word_overlap(&words);
    let (clues, finals) = solve_auto(&mat, &words, &c("plant"), ScoreType::MinimiseLargestBucketSize);
    assert_eq!(finals, vec![0]);
    assert!(!clues.is_empty());
    // The candidate set shrinks every round, so five words take at most four.
    assert!(clues.len() <= 4);
    for clue in clues.iter() {
        assert!(words.contains(&clue.word));
    }
}

#[test]
fn test_solve_auto_single_candidate_needs_no_round() {
    let words = corpus(&["abc"]);
    let mat = precompute_calculate_word_overlap(&words);
    let (clues, finals) = solve_auto(&mat, &words, &c("abc"), ScoreType::MinimiseLargestBucketSize);
    assert!(clues.is_empty());
    assert_eq!(finals, vec![0]);
}

#[test]
fn test_solve_auto_variance_objective() {
    let words = corpus(&["plant", "areas", "donee", "sloth", "skint"]);
    let mat = precompute_calculate_word_overlap(&words);
    let (clues, finals) = solve_auto(&mat, &words, &c("sloth"), ScoreType::MinimiseVariance);
    assert_eq!(finals, vec![3]);
    assert!(!clues.is_empty());
}
