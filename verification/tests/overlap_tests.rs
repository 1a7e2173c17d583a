use cluesolver::overlap::{calculate_word_overlap, Overlap};

fn c(a: &str) -> Vec<char> {
    a.chars().collect()
}

#[test]
fn test_calculate_word_overlap() {
    assert_eq!(calculate_word_overlap(&c("plant"), &c("areas")), Overlap::new(1, 0));
    assert_eq!(calculate_word_overlap(&c("plant"), &c("donee")), Overlap::new(1, 0));
    assert_eq!(calculate_word_overlap(&c("plant"), &c("sloth")), Overlap::new(1, 1));
    assert_eq!(calculate_word_overlap(&c("plant"), &c("skint")), Overlap::new(0, 2));
}

#[test]
fn test_overlap_new_fields() {
    let o = Overlap::new(2, 3);
    assert_eq!(o.wrong_place, 2);
    assert_eq!(o.right_place, 3);
}

#[test]
fn test_self_comparison_is_perfect_match() {
    assert_eq!(calculate_word_overlap(&c("plant"), &c("plant")), Overlap::new(0, 5));
    assert_eq!(calculate_word_overlap(&c("abc"), &c("abc")), Overlap::new(0, 3));
}

#[test]
fn test_overlap_of_empty_words() {
    assert_eq!(calculate_word_overlap(&c(""), &c("")), Overlap::new(0, 0));
}

#[test]
fn test_overlap_consumption_with_repeated_letters() {
    // Pass one credits position 0; the two displaced letters each consume one
    // remaining position.
    assert_eq!(calculate_word_overlap(&c("aab"), &c("aba")), Overlap::new(2, 1));
    // The displaced guess letter may not consume a position that is itself an
    // exact match.
    assert_eq!(calculate_word_overlap(&c("ab"), &c("bb")), Overlap::new(0, 1));
}

#[test]
fn test_overlap_counts_stay_within_length() {
    let words = ["plant", "areas", "donee", "sloth", "skint", "aabbb", "ababa"];
    for a in words.iter() {
        for b in words.iter() {
            let o = calculate_word_overlap(&c(a), &c(b));
            assert!(o.right_place as usize + o.wrong_place as usize <= 5);
        }
    }
}
