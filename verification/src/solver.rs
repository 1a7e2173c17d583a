use crate::matrix::{is_overlap_matrix, lemma_overlap_matrix_wf};
use crate::overlap::{
    calculate_word_overlap, lemma_full_right_place_iff_eq, lemma_overlap_bounds,
    lemma_overlap_self, lemma_overlap_symmetric, overlap_spec, sentinel_free, Overlap,
};
use crate::scorer::{best_clue, score_spec, Clue, ScoreType};
use vstd::prelude::*;

verus! {

/// Corpus word `k` is consistent with observing feedback `obs` for a guessed
/// clue word: comparing the word against the clue reproduces the observation.
pub open spec fn consistent_with(
    corpus: Seq<Vec<char>>,
    k: usize,
    clue_word: Seq<char>,
    obs: Overlap,
) -> bool {
    overlap_spec(corpus[k as int]@, clue_word) == obs
}

/// Corpus word `k` is consistent with every round played so far: for each
/// chosen clue, comparing the word against the clue reproduces the feedback
/// that the clue received against the target.
pub open spec fn consistent_with_rounds(
    corpus: Seq<Vec<char>>,
    k: usize,
    clues: Seq<Clue>,
    target: Seq<char>,
) -> bool {
    forall|r: int|
        0 <= r < clues.len() ==> overlap_spec(corpus[k as int]@, (#[trigger] clues[r]).word@)
            == overlap_spec(clues[r].word@, target)
}

/// The clue's word is one of the corpus words.
pub open spec fn word_from_corpus(c: Clue, corpus: Seq<Vec<char>>) -> bool {
    exists|a: int| 0 <= a < corpus.len() && c.word@ == (#[trigger] corpus[a])@
}

/// For a sentinel-free corpus the feedback between two corpus words is
/// symmetric, so a target that is itself a corpus word reproduces every
/// round's observed feedback: it is consistent with any sequence of clues
/// whose words are corpus words, and an elimination run never filters it out.
pub proof fn lemma_target_survives(
    corpus: Seq<Vec<char>>,
    t: usize,
    clues: Seq<Clue>,
    target: Seq<char>,
)
    requires
        (t as int) < corpus.len(),
        corpus[t as int]@ == target,
        forall|a: int| 0 <= a < corpus.len() ==> (#[trigger] corpus[a])@.len() == target.len(),
        forall|a: int| 0 <= a < corpus.len() ==> sentinel_free((#[trigger] corpus[a])@),
        forall|r: int| 0 <= r < clues.len() ==> word_from_corpus(#[trigger] clues[r], corpus),
    ensures
        consistent_with_rounds(corpus, t, clues, target),
{
    assert forall|r: int|
        0 <= r < clues.len() implies overlap_spec(
        corpus[t as int]@,
        (#[trigger] clues[r]).word@,
    ) == overlap_spec(clues[r].word@, target) by {
        let a = choose|a: int| 0 <= a < corpus.len() && clues[r].word@ == (#[trigger] corpus[a])@;
        lemma_overlap_symmetric(corpus[t as int]@, corpus[a]@);
    }
}

/// An element of the filtered sequence is an element of the original that
/// satisfies the predicate, and conversely.
proof fn lemma_filter_membership(s: Seq<usize>, pred: spec_fn(usize) -> bool, k: usize)
    ensures
        s.filter(pred).contains(k) <==> (s.contains(k) && pred(k)),
{
    if s.filter(pred).contains(k) {
        s.lemma_filter_contains_rev(pred, k);
        let i = choose|i: int| 0 <= i < s.filter(pred).len() && s.filter(pred)[i] == k;
        s.lemma_filter_pred(pred, i);
    }
    if s.contains(k) && pred(k) {
        let i = choose|i: int| 0 <= i < s.len() && s[i] == k;
        s.lemma_filter_contains(pred, i);
    }
}

/// Filtering away an element that is present strictly shrinks the sequence.
proof fn lemma_filter_drops(s: Seq<usize>, pred: spec_fn(usize) -> bool, m: int)
    requires
        0 <= m < s.len(),
        !pred(s[m]),
    ensures
        s.filter(pred).len() < s.len(),
    decreases s.len(),
{
    reveal(Seq::filter);
    if m == s.len() - 1 {
        s.drop_last().lemma_filter_len(pred);
    } else {
        lemma_filter_drops(s.drop_last(), pred, m);
    }
}

/// Filtering keeps a duplicate-free sequence duplicate-free.
proof fn lemma_filter_no_duplicates(s: Seq<usize>, pred: spec_fn(usize) -> bool)
    requires
        s.no_duplicates(),
    ensures
        s.filter(pred).no_duplicates(),
    decreases s.len(),
{
    reveal(Seq::filter);
    if s.len() > 0 {
        let rest = s.drop_last();
        let last = s.last();
        assert(rest.no_duplicates());
        lemma_filter_no_duplicates(rest, pred);
        if pred(last) {
            let f = rest.filter(pred);
            if f.contains(last) {
                rest.lemma_filter_contains_rev(pred, last);
                let i = choose|i: int| 0 <= i < rest.len() && rest[i] == last;
                assert(s[i] == s[s.len() - 1]);
                assert(false);
            }
            assert forall|i: int, j: int|
                0 <= i < f.push(last).len() && 0 <= j < f.push(last).len() && i != j implies f.push(
                last,
            )[i] != f.push(last)[j] by {
                if i < f.len() && j < f.len() {
                } else if i == f.len() {
                    assert(f.push(last)[j] == f[j]);
                    assert(f.contains(f[j]));
                } else {
                    assert(f.push(last)[i] == f[i]);
                    assert(f.contains(f[i]));
                }
            }
        }
    }
}

/// Retain exactly the candidates consistent with feedback `obs` for the clue
/// word, in their original order.
#[verifier::loop_isolation(false)]
pub fn filter_candidates(
    corpus: &Vec<Vec<char>>,
    candidates: &Vec<usize>,
    clue_word: &Vec<char>,
    obs: Overlap,
) -> (r: Vec<usize>)
    requires
        forall|m: int| 0 <= m < candidates@.len() ==> (#[trigger] candidates@[m]) < corpus@.len(),
        forall|a: int|
            0 <= a < corpus@.len() ==> (#[trigger] corpus@[a])@.len() == clue_word@.len(),
        clue_word@.len() <= u8::MAX,
    ensures
        r@ == candidates@.filter(
            (|k: usize| consistent_with(corpus@, k, clue_word@, obs)),
        ),
        forall|k: usize|
            r@.contains(k) <==> (candidates@.contains(k) && consistent_with(
                corpus@,
                k,
                clue_word@,
                obs,
            )),
        forall|i: int|
            0 <= i < r@.len() ==> candidates@.contains(#[trigger] r@[i]) && consistent_with(
                corpus@,
                r@[i],
                clue_word@,
                obs,
            ),
        r@.len() <= candidates@.len(),
        candidates@.no_duplicates() ==> r@.no_duplicates(),
        (exists|m: int|
            0 <= m < candidates@.len() && !consistent_with(
                corpus@,
                #[trigger] candidates@[m],
                clue_word@,
                obs,
            )) ==> r@.len() < candidates@.len(),
{
    let ghost pred = |k: usize| consistent_with(corpus@, k, clue_word@, obs);
    let mut r: Vec<usize> = Vec::new();
    let mut m: usize = 0;
    while m < candidates.len()
        invariant
            m <= candidates@.len(),
            r@ == candidates@.take(m as int).filter(pred),
        decreases candidates@.len() - m,
    {
        let k = candidates[m];
        let o = calculate_word_overlap(&corpus[k], clue_word);
        if o == obs {
            r.push(k);
        }
        proof {
            assert(candidates@.take(m + 1) =~= candidates@.take(m as int).push(
                candidates@[m as int],
            ));
            candidates@.take(m as int).lemma_filter_push(candidates@[m as int], pred);
        }
        m = m + 1;
    }
    proof {
        assert(candidates@.take(candidates@.len() as int) =~= candidates@);
        candidates@.lemma_filter_len(pred);
        assert forall|k: usize|
            r@.contains(k) <==> (candidates@.contains(k) && consistent_with(
                corpus@,
                k,
                clue_word@,
                obs,
            )) by {
            lemma_filter_membership(candidates@, pred, k);
        }
        assert forall|i: int| 0 <= i < r@.len() implies candidates@.contains(#[trigger] r@[i])
            && consistent_with(corpus@, r@[i], clue_word@, obs) by {
            candidates@.lemma_filter_pred(pred, i);
            assert(r@.contains(r@[i]));
            candidates@.lemma_filter_contains_rev(pred, r@[i]);
        }
        if candidates@.no_duplicates() {
            lemma_filter_no_duplicates(candidates@, pred);
        }
        if exists|m: int|
            0 <= m < candidates@.len() && !consistent_with(
                corpus@,
                #[trigger] candidates@[m],
                clue_word@,
                obs,
            ) {
            let bad = choose|m: int|
                0 <= m < candidates@.len() && !consistent_with(
                    corpus@,
                    #[trigger] candidates@[m],
                    clue_word@,
                    obs,
                );
            lemma_filter_drops(candidates@, pred, bad);
        }
    }
    r
}

/// Run the automated elimination loop against a hidden target word: each
/// round scores the surviving candidates, observes the feedback of the chosen
/// clue word against the target, and retains only the candidates consistent
/// with that feedback, until at most one candidate remains.
///
/// Returns the ordered sequence of chosen clues and the final candidate set,
/// as indices into the original corpus. The final set holds exactly the
/// corpus words consistent with every round's feedback; with a duplicate-free
/// corpus it has at most one element, reached within one round per corpus
/// word, and for a sentinel-free corpus a target drawn from the corpus is
/// never filtered out, so the run converges to exactly the target.
#[verifier::loop_isolation(false)]
#[verifier::rlimit(30)]
pub fn solve_auto(
    word_overlaps: &Vec<Overlap>,
    initial_words_list: &Vec<Vec<char>>,
    word: &Vec<char>,
    method: ScoreType,
) -> (out: (Vec<Clue>, Vec<usize>))
    requires
        is_overlap_matrix(word_overlaps@, initial_words_list@),
        forall|a: int|
            0 <= a < initial_words_list@.len() ==> (#[trigger] initial_words_list@[a])@.len()
                == word@.len(),
        forall|a: int, b: int|
            0 <= a < b < initial_words_list@.len() ==> initial_words_list@[a]@
                != initial_words_list@[b]@,
        word@.len() <= u8::MAX,
        method is MinimiseVariance ==> (word@.len() * word@.len() + 1) * (initial_words_list@.len()
            * initial_words_list@.len()) <= usize::MAX,
    ensures
        out.1@.len() <= 1,
        out.1@.no_duplicates(),
        forall|k: usize|
            out.1@.contains(k) <==> (k < initial_words_list@.len() && consistent_with_rounds(
                initial_words_list@,
                k,
                out.0@,
                word@,
            )),
        out.0@.len() <= initial_words_list@.len(),
        forall|r: int|
            0 <= r < out.0@.len() ==> word_from_corpus(#[trigger] out.0@[r], initial_words_list@),
        forall|t: usize|
            ((t as int) < initial_words_list@.len() && initial_words_list@[t as int]@ == word@
                && (forall|a: int|
                0 <= a < initial_words_list@.len() ==> sentinel_free(
                    (#[trigger] initial_words_list@[a])@,
                ))) ==> out.1@.contains(t),
{
    let n = initial_words_list.len();
    let word_len = word.len();
    let ghost corpus = initial_words_list@;
    let ghost mat = word_overlaps@;

    proof {
        lemma_overlap_matrix_wf(mat, corpus, word_len as int);
    }

    let mut current: Vec<usize> = Vec::new();
    let mut m: usize = 0;
    while m < n
        invariant
            m <= n,
            current@.len() == m,
            forall|i: int| 0 <= i < m ==> #[trigger] current@[i] == i as usize,
        decreases n - m,
    {
        current.push(m);
        m = m + 1;
    }
    assert forall|k: usize| current@.contains(k) <==> (k < n && consistent_with_rounds(
        corpus,
        k,
        Seq::<Clue>::empty(),
        word@,
    )) by {
        if k < n {
            assert(current@[k as int] == k);
        }
    }

    let mut sequence: Vec<Clue> = Vec::new();
    assert(sequence@ =~= Seq::<Clue>::empty());

    while current.len() > 1
        invariant
            current@.no_duplicates(),
            forall|i: int| 0 <= i < current@.len() ==> (#[trigger] current@[i]) < n,
            forall|k: usize|
                current@.contains(k) <==> (k < n && consistent_with_rounds(
                    corpus,
                    k,
                    sequence@,
                    word@,
                )),
            current@.len() + sequence@.len() <= n,
            forall|r: int|
                0 <= r < sequence@.len() ==> word_from_corpus(#[trigger] sequence@[r], corpus),
        decreases current@.len(),
    {
        let ghost cands = current@;
        let clue = best_clue(word_overlaps, n, word_len, initial_words_list, &current, method);
        let ghost m_star = choose|m: int|
            0 <= m < cands.len() && clue.word@ == corpus[(#[trigger] cands[m]) as int]@
                && clue.value == score_spec(
                mat,
                n as int,
                word_len as int,
                cands[m] as int,
                method,
            );
        let ghost k_star = cands[m_star];
        assert(clue.word@.len() == word_len);

        let obs = calculate_word_overlap(&clue.word, word);
        let next = filter_candidates(initial_words_list, &current, &clue.word, obs);

        proof {
            // Each surviving candidate is consistent with the new round as
            // well as with all earlier ones.
            assert forall|k: usize|
                next@.contains(k) <==> (k < n && consistent_with_rounds(
                    corpus,
                    k,
                    sequence@.push(clue),
                    word@,
                )) by {
                if next@.contains(k) {
                    assert(cands.contains(k));
                    assert(consistent_with(corpus, k, clue.word@, obs));
                    assert forall|r: int|
                        0 <= r < sequence@.push(clue).len() implies overlap_spec(
                        corpus[k as int]@,
                        (#[trigger] sequence@.push(clue)[r]).word@,
                    ) == overlap_spec(sequence@.push(clue)[r].word@, word@) by {
                        if r < sequence@.len() {
                            assert(sequence@.push(clue)[r] == sequence@[r]);
                        } else {
                            assert(sequence@.push(clue)[r] == clue);
                        }
                    }
                }
                if k < n && consistent_with_rounds(corpus, k, sequence@.push(clue), word@) {
                    assert forall|r: int|
                        0 <= r < sequence@.len() implies overlap_spec(
                        corpus[k as int]@,
                        (#[trigger] sequence@[r]).word@,
                    ) == overlap_spec(sequence@[r].word@, word@) by {
                        assert(sequence@.push(clue)[r] == sequence@[r]);
                    }
                    assert(consistent_with_rounds(corpus, k, sequence@, word@));
                    assert(cands.contains(k));
                    assert(sequence@.push(clue)[sequence@.len() as int] == clue);
                    assert(consistent_with(corpus, k, clue.word@, obs));
                }
            }

            // The new round's clue word is a corpus word, like the earlier ones.
            assert((k_star as int) < n);
            assert(clue.word@ == (corpus[k_star as int])@);
            assert(word_from_corpus(clue, corpus));
            assert forall|r: int|
                0 <= r < sequence@.push(clue).len() implies word_from_corpus(
                #[trigger] sequence@.push(clue)[r],
                corpus,
            ) by {
                if r < sequence@.len() {
                    assert(sequence@.push(clue)[r] == sequence@[r]);
                } else {
                    assert(sequence@.push(clue)[r] == clue);
                }
            }

            // The candidate set strictly shrinks: either the clue word itself
            // is inconsistent with the feedback and leaves, or the feedback
            // was a perfect match and only words equal to the clue word stay.
            if consistent_with(corpus, k_star, clue.word@, obs) {
                lemma_overlap_self(clue.word@);
                lemma_overlap_bounds(clue.word@, clue.word@);
                assert(obs.right_place == word_len as u8 && obs.wrong_place == 0u8);
                if next.len() >= 2 {
                    let k0 = next@[0];
                    let k1 = next@[1];
                    assert(next@.contains(k0) && next@.contains(k1));
                    assert(k0 != k1);
                    lemma_overlap_bounds(corpus[k0 as int]@, clue.word@);
                    lemma_full_right_place_iff_eq(corpus[k0 as int]@, clue.word@);
                    lemma_overlap_bounds(corpus[k1 as int]@, clue.word@);
                    lemma_full_right_place_iff_eq(corpus[k1 as int]@, clue.word@);
                    assert(corpus[k0 as int]@ == clue.word@);
                    assert(corpus[k1 as int]@ == clue.word@);
                    if k0 < k1 {
                        assert(corpus[k0 as int]@ != corpus[k1 as int]@);
                    } else {
                        assert(corpus[k1 as int]@ != corpus[k0 as int]@);
                    }
                    assert(false);
                }
            } else {
                assert(!consistent_with(corpus, cands[m_star], clue.word@, obs));
            }
            assert(next@.len() < cands.len());
        }
        current = next;
        sequence.push(clue);
    }
    proof {
        if forall|a: int|
            0 <= a < corpus.len() ==> sentinel_free((#[trigger] corpus[a])@) {
            assert forall|t: usize|
                (t as int) < corpus.len() && corpus[t as int]@
                    == word@ implies current@.contains(t) by {
                lemma_target_survives(corpus, t, sequence@, word@);
            }
        }
    }
    (sequence, current)
}

} // verus!
