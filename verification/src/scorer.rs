use crate::matrix::{fast_calculate_word_overlap, matrix_entry, matrix_wf};
use crate::overlap::{bucket_index_spec, overlap_wf, Overlap};
use rayon::iter::{IntoParallelRefIterator, ParallelIterator};
use vstd::arithmetic::div_mod::{lemma_div_is_ordered, lemma_div_multiples_vanish};
use vstd::prelude::*;

verus! {

/// The objective used to rank candidate clues, fixed when the scorer is set
/// up. Lower objective values are better under either choice.
#[derive(Clone, Copy)]
pub enum ScoreType {
    MinimiseVariance,
    MinimiseLargestBucketSize,
}

/// A candidate guess word together with its objective value.
#[derive(Clone, Eq, PartialEq, Hash)]
pub struct Clue {
    pub value: usize,
    pub word: Vec<char>,
}

/// How many of the first `upto` entries of row `i` fall into tally slot `b`.
pub open spec fn bucket_count(
    mat: Seq<Overlap>,
    n: int,
    len: int,
    i: int,
    b: int,
    upto: int,
) -> nat
    decreases upto,
{
    if upto <= 0 {
        0
    } else {
        bucket_count(mat, n, len, i, b, upto - 1) + if bucket_index_spec(
            matrix_entry(mat, n, i, upto - 1),
            len,
        ) == b {
            1nat
        } else {
            0nat
        }
    }
}

/// The full tally of row `i`: slot `b` counts the corpus words whose feedback
/// against word `i` falls into bucket `b`.
pub open spec fn tally_spec(mat: Seq<Overlap>, n: int, len: int, i: int) -> Seq<nat> {
    Seq::new((len * len + 1) as nat, |b: int| bucket_count(mat, n, len, i, b, n))
}

pub open spec fn seq_max(s: Seq<nat>) -> nat
    decreases s.len(),
{
    if s.len() == 0 {
        0
    } else if s.last() >= seq_max(s.drop_last()) {
        s.last()
    } else {
        seq_max(s.drop_last())
    }
}

pub open spec fn seq_sum(s: Seq<nat>) -> nat
    decreases s.len(),
{
    if s.len() == 0 {
        0
    } else {
        seq_sum(s.drop_last()) + s.last()
    }
}

/// The squared deviation of one tally slot from the mean.
pub open spec fn sq_dev(v: nat, avg: nat) -> nat {
    if v >= avg {
        ((v - avg) * (v - avg)) as nat
    } else {
        ((avg - v) * (avg - v)) as nat
    }
}

pub open spec fn seq_sq_dev_sum(s: Seq<nat>, avg: nat) -> nat
    decreases s.len(),
{
    if s.len() == 0 {
        0
    } else {
        seq_sq_dev_sum(s.drop_last(), avg) + sq_dev(s.last(), avg)
    }
}

/// The scalar objective of a tally. The largest-bucket objective is the
/// maximum slot; the variance objective is the sum of squared deviations from
/// the mean slot, where the mean is the integer quotient of the total by the
/// number of slots, as the tallying works in machine integers.
pub open spec fn objective_spec(tally: Seq<nat>, method: ScoreType) -> nat {
    match method {
        ScoreType::MinimiseLargestBucketSize => seq_max(tally),
        ScoreType::MinimiseVariance => seq_sq_dev_sum(tally, seq_sum(tally) / tally.len()),
    }
}

/// The discriminating-power score of corpus word `i` as a candidate clue,
/// judged over its feedback against every word of the corpus.
pub open spec fn score_spec(mat: Seq<Overlap>, n: int, len: int, i: int, method: ScoreType) -> nat {
    objective_spec(tally_spec(mat, n, len, i), method)
}

/// A tally slot counts at most the `upto` entries it has seen.
proof fn lemma_bucket_count_le(mat: Seq<Overlap>, n: int, len: int, i: int, b: int, upto: int)
    requires
        0 <= upto,
    ensures
        bucket_count(mat, n, len, i, b, upto) <= upto,
    decreases upto,
{
    if upto > 0 {
        lemma_bucket_count_le(mat, n, len, i, b, upto - 1);
    }
}

/// A sum of slots each at most `bound` is at most `len * bound`.
proof fn lemma_seq_sum_le(s: Seq<nat>, bound: nat)
    requires
        forall|k: int| 0 <= k < s.len() ==> s[k] <= bound,
    ensures
        seq_sum(s) <= s.len() * bound,
    decreases s.len(),
{
    if s.len() > 0 {
        lemma_seq_sum_le(s.drop_last(), bound);
        assert((s.len() - 1) * bound + bound == s.len() * bound) by (nonlinear_arith);
    }
}

/// A sum of squared deviations each at most `bound * bound` is at most
/// `len * bound * bound`.
proof fn lemma_seq_sq_dev_sum_le(s: Seq<nat>, avg: nat, bound: nat)
    requires
        forall|k: int| 0 <= k < s.len() ==> s[k] <= bound,
        avg <= bound,
    ensures
        seq_sq_dev_sum(s, avg) <= s.len() * bound * bound,
    decreases s.len(),
{
    if s.len() > 0 {
        lemma_seq_sq_dev_sum_le(s.drop_last(), avg, bound);
        assert(sq_dev(s.last(), avg) <= bound * bound) by (nonlinear_arith)
            requires
                s.last() <= bound,
                avg <= bound,
                sq_dev(s.last(), avg) == (if s.last() >= avg {
                    ((s.last() - avg) * (s.last() - avg)) as nat
                } else {
                    ((avg - s.last()) * (avg - s.last())) as nat
                }),
        {};
        assert((s.len() - 1) * bound * bound + bound * bound == s.len() * bound * bound)
            by (nonlinear_arith);
    }
}

/// The preconditions shared by every scoring call: matrix dimensions, entry
/// well-formedness, and the size bound that keeps the variance sum within
/// `usize`.
pub open spec fn scoring_pre(
    mat: Seq<Overlap>,
    word_count: int,
    word_len: int,
    method: ScoreType,
) -> bool {
    &&& mat.len() == word_count * word_count
    &&& word_len <= u8::MAX
    &&& matrix_wf(mat, word_count, word_len)
    &&& (method is MinimiseVariance ==> (word_len * word_len + 1) * (word_count * word_count)
        <= usize::MAX)
}

/// The per-candidate work of the clue scorer: tally row `i` of the feedback
/// table into `len * len + 1` buckets and reduce the tally to the objective.
#[verifier::loop_isolation(false)]
pub fn score_word(
    word_overlaps: &Vec<Overlap>,
    word_count: usize,
    word_len: usize,
    i: usize,
    method: ScoreType,
) -> (value: usize)
    requires
        i < word_count,
        scoring_pre(word_overlaps@, word_count as int, word_len as int, method),
    ensures
        value == score_spec(
            word_overlaps@,
            word_count as int,
            word_len as int,
            i as int,
            method,
        ),
{
    let ghost mat = word_overlaps@;
    let ghost n = word_count as int;
    let ghost len = word_len as int;
    let ghost tally = tally_spec(mat, n, len, i as int);

    assert(word_len * word_len <= 255 * 255) by (nonlinear_arith)
        requires
            word_len <= 255,
    {};
    let nb: usize = word_len * word_len + 1;
    let mut buckets: Vec<usize> = Vec::new();
    let mut b: usize = 0;
    while b < nb
        invariant
            b <= nb,
            buckets@.len() == b,
            forall|bb: int| 0 <= bb < b ==> buckets@[bb] == 0,
        decreases nb - b,
    {
        buckets.push(0);
        b = b + 1;
    }

    let mut j: usize = 0;
    while j < word_count
        invariant
            j <= word_count,
            buckets@.len() == nb,
            forall|bb: int|
                0 <= bb < nb ==> buckets@[bb] == bucket_count(mat, n, len, i as int, bb, j as int),
        decreases word_count - j,
    {
        let o = fast_calculate_word_overlap(word_overlaps, word_count, i, j);
        assert(overlap_wf(o, len));
        assert(o.right_place * word_len + o.wrong_place <= 255 * 255 + 255) by (nonlinear_arith)
            requires
                o.right_place <= 255,
                o.wrong_place <= 255,
                word_len <= 255,
        {};
        let idx: usize = (o.right_place as usize) * word_len + (o.wrong_place as usize);
        assert(idx <= len * len) by (nonlinear_arith)
            requires
                idx == o.right_place * len + o.wrong_place,
                o.right_place + o.wrong_place <= len,
                0 <= o.right_place,
                0 <= o.wrong_place,
        {};
        let ghost pre = buckets@;
        proof {
            lemma_bucket_count_le(mat, n, len, i as int, idx as int, j as int);
        }
        let cnt = buckets[idx];
        buckets.set(idx, cnt + 1);
        proof {
            assert forall|bb: int|
                0 <= bb < nb implies buckets@[bb] == bucket_count(
                mat,
                n,
                len,
                i as int,
                bb,
                j + 1,
            ) by {
                assert(bucket_index_spec(matrix_entry(mat, n, i as int, j as int), len)
                    == idx as int);
                if bb != idx {
                    assert(buckets@[bb] == pre[bb]);
                }
            }
        }
        j = j + 1;
    }
    assert(forall|bb: int| 0 <= bb < nb ==> buckets@[bb] == tally[bb]);

    match method {
        ScoreType::MinimiseLargestBucketSize => {
            let mut best: usize = 0;
            let mut b: usize = 0;
            while b < nb
                invariant
                    b <= nb,
                    best == seq_max(tally.take(b as int)),
                decreases nb - b,
            {
                proof {
                    assert(tally.take(b + 1).drop_last() =~= tally.take(b as int));
                    assert(tally.take(b + 1).last() == tally[b as int]);
                }
                if buckets[b] > best {
                    best = buckets[b];
                }
                b = b + 1;
            }
            proof {
                assert(tally.take(nb as int) =~= tally);
            }
            best
        },
        ScoreType::MinimiseVariance => {
            let mut total: usize = 0;
            let mut b: usize = 0;
            while b < nb
                invariant
                    b <= nb,
                    total == seq_sum(tally.take(b as int)),
                decreases nb - b,
            {
                proof {
                    assert(tally.take(b + 1).drop_last() =~= tally.take(b as int));
                    assert forall|k: int| 0 <= k < b implies tally.take(b as int)[k] <= n by {
                        lemma_bucket_count_le(mat, n, len, i as int, k, n);
                    }
                    lemma_seq_sum_le(tally.take(b as int), n as nat);
                    lemma_bucket_count_le(mat, n, len, i as int, b as int, n);
                    assert(b * n + n <= nb * n) by (nonlinear_arith)
                        requires
                            0 <= n,
                            b < nb,
                    {};
                    assert(nb * n <= nb * (n * n)) by (nonlinear_arith)
                        requires
                            0 < n,
                            0 < nb,
                    {};
                    assert(nb * (n * n) == nb * n * n) by (nonlinear_arith);
                }
                total = total + buckets[b];
                b = b + 1;
            }
            proof {
                assert(tally.take(nb as int) =~= tally);
                assert forall|k: int| 0 <= k < nb implies tally[k] <= n by {
                    lemma_bucket_count_le(mat, n, len, i as int, k, n);
                }
                lemma_seq_sum_le(tally, n as nat);
                assert(nb * n == n * nb) by (nonlinear_arith);
                lemma_div_is_ordered(total as int, n * nb, nb as int);
                lemma_div_multiples_vanish(n, nb as int);
            }
            let average = total / nb;
            assert(average <= n);
            let mut value: usize = 0;
            let mut b: usize = 0;
            while b < nb
                invariant
                    b <= nb,
                    average == seq_sum(tally) / tally.len(),
                    average <= n,
                    value == seq_sq_dev_sum(tally.take(b as int), average as nat),
                decreases nb - b,
            {
                proof {
                    assert(tally.take(b + 1).drop_last() =~= tally.take(b as int));
                    assert forall|k: int| 0 <= k < b + 1 implies #[trigger] tally.take(b + 1)[k]
                        <= n by {
                        lemma_bucket_count_le(mat, n, len, i as int, k, n);
                    }
                    lemma_seq_sq_dev_sum_le(tally.take(b as int), average as nat, n as nat);
                    lemma_seq_sq_dev_sum_le(tally.take(b + 1), average as nat, n as nat);
                    assert((b + 1) * n * n <= nb * n * n) by (nonlinear_arith)
                        requires
                            0 <= n,
                            b < nb,
                    {};
                    assert(nb * n * n == nb * (n * n)) by (nonlinear_arith);
                }
                let v = buckets[b];
                let d = if v >= average {
                    v - average
                } else {
                    average - v
                };
                assert(d <= n);
                assert(d * d == sq_dev(tally[b as int], average as nat)) by (nonlinear_arith)
                    requires
                        0 <= d,
                        v == tally[b as int],
                        (v >= average ==> d == v - average),
                        (v < average ==> d == average - v),
                        sq_dev(tally[b as int], average as nat) == (if v >= average {
                            ((v - average) * (v - average)) as nat
                        } else {
                            ((average - v) * (average - v)) as nat
                        }),
                {};
                assert(d * d <= n * n) by (nonlinear_arith)
                    requires
                        0 <= d <= n,
                {};
                value = value + d * d;
                b = b + 1;
            }
            proof {
                assert(tally.take(nb as int) =~= tally);
            }
            value
        },
    }
}

/// Copy a word so that a fresh `Clue` can own it.
#[verifier::loop_isolation(false)]
fn copy_word(w: &Vec<char>) -> (r: Vec<char>)
    ensures
        r@ == w@,
{
    let mut r: Vec<char> = Vec::new();
    let mut idx: usize = 0;
    while idx < w.len()
        invariant
            idx <= w@.len(),
            r@ == w@.take(idx as int),
        decreases w@.len() - idx,
    {
        r.push(w[idx]);
        assert(r@ =~= w@.take(idx + 1));
        idx = idx + 1;
    }
    assert(r@ =~= w@);
    r
}

/// Score corpus word `k` as a candidate clue and pair it with its word.
pub fn score_clue(
    word_overlaps: &Vec<Overlap>,
    word_count: usize,
    word_len: usize,
    corpus: &Vec<Vec<char>>,
    k: usize,
    method: ScoreType,
) -> (c: Clue)
    requires
        scoring_pre(word_overlaps@, word_count as int, word_len as int, method),
        corpus@.len() == word_count,
        k < word_count,
    ensures
        c.word@ == corpus@[k as int]@,
        c.value == score_spec(
            word_overlaps@,
            word_count as int,
            word_len as int,
            k as int,
            method,
        ),
{
    let value = score_word(word_overlaps, word_count, word_len, k, method);
    let word = copy_word(&corpus[k]);
    Clue { value, word }
}

/// `c` names some candidate's word and carries its score, and no candidate
/// scores lower: `c` is a winning clue for this matrix, candidate set and
/// objective.
pub open spec fn is_best_clue(
    c: Clue,
    mat: Seq<Overlap>,
    word_count: int,
    word_len: int,
    corpus: Seq<Vec<char>>,
    candidates: Seq<usize>,
    method: ScoreType,
) -> bool {
    &&& exists|m: int|
        0 <= m < candidates.len() && c.word@ == corpus[(#[trigger] candidates[m]) as int]@
            && c.value == score_spec(mat, word_count, word_len, candidates[m] as int, method)
    &&& forall|m: int|
        0 <= m < candidates.len() ==> c.value <= score_spec(
            mat,
            word_count,
            word_len,
            (#[trigger] candidates[m]) as int,
            method,
        )
}

/// Relies on rayon's `ParallelIterator::map` and `max_by`: the mapped items
/// come from `score_clue`, one per candidate index, and `max_by` returns an
/// item of the mapped sequence that is maximal under the given comparator
/// (the comparator is reversed, so the returned clue carries the least
/// objective value), or `None` only on an empty sequence.
#[verifier::external_body]
fn par_best_clue(
    word_overlaps: &Vec<Overlap>,
    word_count: usize,
    word_len: usize,
    corpus: &Vec<Vec<char>>,
    candidates: &Vec<usize>,
    method: ScoreType,
) -> (c: Clue)
    requires
        scoring_pre(word_overlaps@, word_count as int, word_len as int, method),
        corpus@.len() == word_count,
        candidates@.len() > 0,
        forall|m: int| 0 <= m < candidates@.len() ==> (#[trigger] candidates@[m]) < word_count,
    ensures
        is_best_clue(
            c,
            word_overlaps@,
            word_count as int,
            word_len as int,
            corpus@,
            candidates@,
            method,
        ),
{
    candidates
        .par_iter()
        .map(|k: &usize| score_clue(word_overlaps, word_count, word_len, corpus, *k, method))
        .max_by(|a: &Clue, b: &Clue| b.value.cmp(&a.value))
        .unwrap()
}

/// Select a clue with the smallest objective value among `candidates` (given
/// as corpus indices), each candidate scored against the whole corpus by its
/// matrix row. A tie between equal objective values is resolved by an
/// unspecified rule: callers may rely on the value, not on which tied word
/// is returned.
pub fn best_clue(
    word_overlaps: &Vec<Overlap>,
    word_count: usize,
    word_len: usize,
    corpus: &Vec<Vec<char>>,
    candidates: &Vec<usize>,
    method: ScoreType,
) -> (c: Clue)
    requires
        scoring_pre(word_overlaps@, word_count as int, word_len as int, method),
        corpus@.len() == word_count,
        candidates@.len() > 0,
        forall|m: int| 0 <= m < candidates@.len() ==> (#[trigger] candidates@[m]) < word_count,
    ensures
        is_best_clue(
            c,
            word_overlaps@,
            word_count as int,
            word_len as int,
            corpus@,
            candidates@,
            method,
        ),
{
    par_best_clue(word_overlaps, word_count, word_len, corpus, candidates, method)
}

/// The scorer is deterministic up to its tie-break: any two winning clues
/// over the same matrix, candidate set and objective carry the same objective
/// value, whichever tied word each of them names.
pub proof fn lemma_scorer_value_deterministic(
    c1: Clue,
    c2: Clue,
    mat: Seq<Overlap>,
    word_count: int,
    word_len: int,
    corpus: Seq<Vec<char>>,
    candidates: Seq<usize>,
    method: ScoreType,
)
    requires
        is_best_clue(c1, mat, word_count, word_len, corpus, candidates, method),
        is_best_clue(c2, mat, word_count, word_len, corpus, candidates, method),
    ensures
        c1.value == c2.value,
{
    let m1 = choose|m: int|
        0 <= m < candidates.len() && c1.word@ == corpus[(#[trigger] candidates[m]) as int]@
            && c1.value == score_spec(mat, word_count, word_len, candidates[m] as int, method);
    let m2 = choose|m: int|
        0 <= m < candidates.len() && c2.word@ == corpus[(#[trigger] candidates[m]) as int]@
            && c2.value == score_spec(mat, word_count, word_len, candidates[m] as int, method);
    assert(c2.value <= score_spec(mat, word_count, word_len, candidates[m1] as int, method));
    assert(c1.value <= score_spec(mat, word_count, word_len, candidates[m2] as int, method));
}

} // verus!
