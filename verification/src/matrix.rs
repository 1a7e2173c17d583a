use vstd::prelude::*;
use crate::overlap::{calculate_word_overlap, lemma_overlap_bounds, overlap_spec, overlap_wf, Overlap};

verus! {

/// The entry for the ordered pair `(i, j)` in a row-major table with stride `n`.
pub open spec fn matrix_entry(mat: Seq<Overlap>, n: int, i: int, j: int) -> Overlap {
    mat[i * n + j]
}

/// `mat` is the dense feedback table over `words`: one entry per ordered pair,
/// holding the overlap of `(words[i], words[j])`.
pub open spec fn is_overlap_matrix(mat: Seq<Overlap>, words: Seq<Vec<char>>) -> bool {
    let n = words.len() as int;
    &&& mat.len() == n * n
    &&& forall|i: int, j: int|
        0 <= i < n && 0 <= j < n ==> #[trigger] matrix_entry(mat, n, i, j) == overlap_spec(
            words[i]@,
            words[j]@,
        )
}

/// A row-major index for a pair strictly before `(i, j)` lies strictly below
/// `i * n + j`.
proof fn lemma_row_major_index(n: int, i: int, j: int, a: int, b: int)
    requires
        0 <= b < n,
        0 <= j,
        0 <= a,
        a < i || (a == i && b < j),
    ensures
        0 <= a * n + b < i * n + j,
{
    if a < i {
        assert(a * n + b < i * n + j) by (nonlinear_arith)
            requires
                0 <= b < n,
                0 <= j,
                0 <= a,
                a < i,
        {};
    }
}

/// Precompute the feedback for every ordered pair of corpus words,
/// row-major: the entry for `(i, j)` stands at `i * n + j`.
#[verifier::loop_isolation(false)]
pub fn precompute_calculate_word_overlap(words: &Vec<Vec<char>>) -> (mat: Vec<Overlap>)
    requires
        forall|a: int, b: int|
            0 <= a < words@.len() && 0 <= b < words@.len() ==> (#[trigger] words@[a])@.len() == (
            #[trigger] words@[b])@.len(),
        forall|a: int| 0 <= a < words@.len() ==> (#[trigger] words@[a])@.len() <= u8::MAX,
    ensures
        is_overlap_matrix(mat@, words@),
{
    let n = words.len();
    let mut mat: Vec<Overlap> = Vec::new();
    let mut i: usize = 0;
    while i < n
        invariant
            i <= n,
            mat@.len() == i * n,
            forall|a: int, b: int|
                0 <= a < i && 0 <= b < n ==> #[trigger] matrix_entry(mat@, n as int, a, b)
                    == overlap_spec(words@[a]@, words@[b]@),
        decreases n - i,
    {
        let mut j: usize = 0;
        while j < n
            invariant
                j <= n,
                mat@.len() == i * n + j,
                forall|a: int, b: int|
                    0 <= a < n && 0 <= b < n && (a < i || (a == i && b < j))
                        ==> #[trigger] matrix_entry(mat@, n as int, a, b) == overlap_spec(
                        words@[a]@,
                        words@[b]@,
                    ),
            decreases n - j,
        {
            let ghost pre = mat@;
            let o = calculate_word_overlap(&words[i], &words[j]);
            mat.push(o);
            proof {
                assert forall|a: int, b: int|
                    0 <= a < n && 0 <= b < n && (a < i || (a == i && b < j + 1))
                        implies #[trigger] matrix_entry(mat@, n as int, a, b) == overlap_spec(
                    words@[a]@,
                    words@[b]@,
                ) by {
                    lemma_row_major_index(n as int, i as int, j + 1, a, b);
                    if a == i && b == j {
                        assert(mat@[i * n + j] == o);
                    } else {
                        lemma_row_major_index(n as int, i as int, j as int, a, b);
                        assert(matrix_entry(pre, n as int, a, b) == overlap_spec(
                            words@[a]@,
                            words@[b]@,
                        ));
                        assert(mat@[a * n + b] == pre[a * n + b]);
                    }
                }
            }
            j = j + 1;
        }
        proof {
            assert(i * n + n == (i + 1) * n) by (nonlinear_arith);
        }
        i = i + 1;
    }
    mat
}

/// O(1) lookup of a precomputed feedback value for the pair `(i, j)`.
pub fn fast_calculate_word_overlap(
    word_overlaps: &Vec<Overlap>,
    word_count: usize,
    i: usize,
    j: usize,
) -> (r: Overlap)
    requires
        word_overlaps@.len() == word_count * word_count,
        i < word_count,
        j < word_count,
    ensures
        r == matrix_entry(word_overlaps@, word_count as int, i as int, j as int),
{
    let total = word_overlaps.len();
    proof {
        lemma_row_major_index(word_count as int, word_count as int, 0, i as int, j as int);
        assert(i * word_count + j < total);
    }
    word_overlaps[i * word_count + j]
}

/// Every entry of the table is well-formed for word length `len`.
pub open spec fn matrix_wf(mat: Seq<Overlap>, n: int, len: int) -> bool {
    forall|i: int, j: int|
        0 <= i < n && 0 <= j < n ==> overlap_wf(#[trigger] matrix_entry(mat, n, i, j), len)
}

/// A feedback table built over words of one length `len` is well-formed for
/// that length: every entry keeps the overlap invariant.
pub proof fn lemma_overlap_matrix_wf(mat: Seq<Overlap>, words: Seq<Vec<char>>, len: int)
    requires
        is_overlap_matrix(mat, words),
        forall|a: int| 0 <= a < words.len() ==> (#[trigger] words[a])@.len() == len,
        len <= u8::MAX,
    ensures
        matrix_wf(mat, words.len() as int, len),
{
    let n = words.len() as int;
    assert forall|i: int, j: int|
        0 <= i < n && 0 <= j < n implies overlap_wf(
        #[trigger] matrix_entry(mat, n, i, j),
        len,
    ) by {
        lemma_overlap_bounds(words[i]@, words[j]@);
    }
}

/// Matrix lookup agrees with direct feedback computation on every indexed
/// pair of corpus words.
pub proof fn lemma_matrix_lookup_matches_compute(
    mat: Seq<Overlap>,
    words: Seq<Vec<char>>,
    i: int,
    j: int,
)
    requires
        is_overlap_matrix(mat, words),
        0 <= i < words.len(),
        0 <= j < words.len(),
    ensures
        matrix_entry(mat, words.len() as int, i, j) == overlap_spec(words[i]@, words[j]@),
{
}

} // verus!
