use vstd::multiset::Multiset;
use vstd::prelude::*;

verus! {

/// The sentinel written into the working copy when a position has been
/// consumed by a match. Corpus words are ordinary letters, so the sentinel
/// never collides with a real symbol in practice; the specification below
/// mirrors the algorithm exactly and so needs no such assumption.
pub const CONSUMED: char = '\0';

/// The feedback for one `(actual, guess)` pair: `right_place` counts positions
/// where the two words agree exactly, `wrong_place` counts guess symbols
/// matched to a remaining actual symbol in a different position under the
/// consumption rule of `overlap_state`.
#[derive(Clone, Copy, PartialEq, Eq, Structural, Hash, Debug)]
pub struct Overlap {
    pub right_place: u8,
    pub wrong_place: u8,
}

impl Overlap {
    pub fn new(wrong_place: u8, right_place: u8) -> (r: Overlap)
        ensures
            r.wrong_place == wrong_place,
            r.right_place == right_place,
    {
        Overlap { wrong_place, right_place }
    }
}

/// The first position at or after `from` whose working-copy symbol equals `ch`
/// and is not itself an exact match with the guess at that position.
pub open spec fn find_match(working: Seq<char>, guess: Seq<char>, ch: char, from: int) -> Option<int>
    decreases working.len() - from
{
    if from < 0 || from >= working.len() {
        None
    } else if working[from] == ch && working[from] != guess[from] {
        Some(from)
    } else {
        find_match(working, guess, ch, from + 1)
    }
}

/// One step of the overlap scan at guess position `j`. The state is the
/// working copy of the actual word together with the `wrong_place` and
/// `right_place` counts accumulated so far. An exact match consumes position
/// `j` itself; otherwise the first displaced occurrence of the guess symbol,
/// if any, is consumed.
pub open spec fn overlap_step(
    st: (Seq<char>, nat, nat),
    actual: Seq<char>,
    guess: Seq<char>,
    j: int,
) -> (Seq<char>, nat, nat) {
    if actual[j] == guess[j] {
        (st.0.update(j, CONSUMED), st.1, st.2 + 1)
    } else {
        match find_match(st.0, guess, guess[j], 0) {
            Some(i) => (st.0.update(i, CONSUMED), st.1 + 1, st.2),
            None => st,
        }
    }
}

/// The scan state after the first `j` guess positions have been processed,
/// starting from an untouched working copy and zero counts.
pub open spec fn overlap_state(actual: Seq<char>, guess: Seq<char>, j: nat) -> (Seq<char>, nat, nat)
    decreases j
{
    if j == 0 {
        (actual, 0nat, 0nat)
    } else {
        overlap_step(overlap_state(actual, guess, (j - 1) as nat), actual, guess, j - 1)
    }
}

pub open spec fn wrong_place_spec(actual: Seq<char>, guess: Seq<char>) -> nat {
    overlap_state(actual, guess, guess.len()).1
}

pub open spec fn right_place_spec(actual: Seq<char>, guess: Seq<char>) -> nat {
    overlap_state(actual, guess, guess.len()).2
}

/// The feedback value for `(actual, guess)` as an `Overlap`.
pub open spec fn overlap_spec(actual: Seq<char>, guess: Seq<char>) -> Overlap {
    Overlap {
        right_place: right_place_spec(actual, guess) as u8,
        wrong_place: wrong_place_spec(actual, guess) as u8,
    }
}

/// The tally slot an overlap falls into, for words of length `len`.
pub open spec fn bucket_index_spec(o: Overlap, len: int) -> int {
    o.right_place * len + o.wrong_place
}

/// An overlap whose counts can come from words of length `len`: the two
/// counts together never exceed the length, so its tally slot lies in
/// `[0, len * len]`.
pub open spec fn overlap_wf(o: Overlap, len: int) -> bool {
    o.right_place + o.wrong_place <= len
}

/// The two counts together never exceed the number of positions processed.
proof fn lemma_overlap_state_bounds(actual: Seq<char>, guess: Seq<char>, j: nat)
    ensures
        overlap_state(actual, guess, j).1 + overlap_state(actual, guess, j).2 <= j,
    decreases j,
{
    if j > 0 {
        lemma_overlap_state_bounds(actual, guess, (j - 1) as nat);
    }
}

/// For words of equal length `L`, each count lies between `0` and `L`, and
/// their sum never exceeds `L`.
pub proof fn lemma_overlap_bounds(actual: Seq<char>, guess: Seq<char>)
    requires
        actual.len() == guess.len(),
    ensures
        right_place_spec(actual, guess) <= guess.len(),
        wrong_place_spec(actual, guess) <= guess.len(),
        right_place_spec(actual, guess) + wrong_place_spec(actual, guess) <= guess.len(),
{
    lemma_overlap_state_bounds(actual, guess, guess.len());
}

/// Self-comparison takes the exact-match branch at every position.
proof fn lemma_overlap_state_self(a: Seq<char>, j: nat)
    ensures
        overlap_state(a, a, j).1 == 0,
        overlap_state(a, a, j).2 == j,
    decreases j,
{
    if j > 0 {
        lemma_overlap_state_self(a, (j - 1) as nat);
    }
}

/// Comparing a word against itself is a perfect match: no displaced symbols
/// and a full right-place count.
pub proof fn lemma_overlap_self(a: Seq<char>)
    ensures
        wrong_place_spec(a, a) == 0,
        right_place_spec(a, a) == a.len(),
{
    lemma_overlap_state_self(a, a.len());
}

/// The number of exact-match positions among the first `j`.
pub open spec fn match_count(actual: Seq<char>, guess: Seq<char>, j: nat) -> nat
    decreases j
{
    if j == 0 {
        0
    } else {
        match_count(actual, guess, (j - 1) as nat)
            + if actual[j - 1] == guess[j - 1] { 1nat } else { 0nat }
    }
}

/// The right-place count is exactly the number of exact-match positions:
/// the scan credits position `j` if and only if the words agree there,
/// independently of the working copy.
proof fn lemma_right_place_is_match_count(actual: Seq<char>, guess: Seq<char>, j: nat)
    ensures
        overlap_state(actual, guess, j).2 == match_count(actual, guess, j),
    decreases j,
{
    if j > 0 {
        lemma_right_place_is_match_count(actual, guess, (j - 1) as nat);
    }
}

proof fn lemma_match_count_le(actual: Seq<char>, guess: Seq<char>, j: nat)
    ensures
        match_count(actual, guess, j) <= j,
    decreases j,
{
    if j > 0 {
        lemma_match_count_le(actual, guess, (j - 1) as nat);
    }
}

proof fn lemma_match_count_full(actual: Seq<char>, guess: Seq<char>, j: nat)
    requires
        match_count(actual, guess, j) == j,
    ensures
        forall|i: int| 0 <= i < j ==> actual[i] == guess[i],
    decreases j,
{
    if j > 0 {
        lemma_match_count_le(actual, guess, (j - 1) as nat);
        lemma_match_count_full(actual, guess, (j - 1) as nat);
    }
}

/// A full right-place count holds exactly when the two words are equal.
pub proof fn lemma_full_right_place_iff_eq(actual: Seq<char>, guess: Seq<char>)
    requires
        actual.len() == guess.len(),
    ensures
        right_place_spec(actual, guess) == guess.len() <==> actual == guess,
{
    if right_place_spec(actual, guess) == guess.len() {
        lemma_right_place_is_match_count(actual, guess, guess.len());
        lemma_match_count_full(actual, guess, guess.len());
        assert(actual =~= guess);
    }
    if actual == guess {
        lemma_overlap_self(actual);
    }
}

/// If no position before `i` matches, the search from `0` and the search
/// from `i` agree.
proof fn lemma_find_match_skip(working: Seq<char>, guess: Seq<char>, ch: char, i: int)
    requires
        0 <= i <= working.len(),
        forall|ii: int| 0 <= ii < i ==> !(working[ii] == ch && working[ii] != guess[ii]),
    ensures
        find_match(working, guess, ch, 0) == find_match(working, guess, ch, i),
    decreases i,
{
    if i > 0 {
        lemma_find_match_skip(working, guess, ch, i - 1);
    }
}

/// No position of the word holds the consumption sentinel.
pub open spec fn sentinel_free(w: Seq<char>) -> bool {
    forall|i: int| 0 <= i < w.len() ==> w[i] != CONSUMED
}

/// The multiset of symbols of `w` that stand, among the first `upto`
/// positions, at a position that is neither an exact match with `other` nor
/// consumed: the symbols still available to the displaced-match scan.
pub open spec fn displaced_ms(w: Seq<char>, other: Seq<char>, upto: int) -> Multiset<char>
    decreases upto,
{
    if upto <= 0 {
        Multiset::empty()
    } else if w[upto - 1] != other[upto - 1] && w[upto - 1] != CONSUMED {
        displaced_ms(w, other, upto - 1).insert(w[upto - 1])
    } else {
        displaced_ms(w, other, upto - 1)
    }
}

/// A symbol is available in the displaced multiset exactly when some position
/// holds it and is not an exact match.
proof fn lemma_displaced_count_positive(w: Seq<char>, other: Seq<char>, upto: int, x: char)
    requires
        x != CONSUMED,
    ensures
        displaced_ms(w, other, upto).count(x) > 0 <==> exists|i: int|
            0 <= i < upto && w[i] == x && w[i] != other[i],
    decreases upto,
{
    if upto > 0 {
        lemma_displaced_count_positive(w, other, upto - 1, x);
        if displaced_ms(w, other, upto).count(x) > 0 {
            if displaced_ms(w, other, upto - 1).count(x) > 0 {
                let i = choose|i: int| 0 <= i < upto - 1 && w[i] == x && w[i] != other[i];
                assert(0 <= i < upto && w[i] == x && w[i] != other[i]);
            } else {
                assert(w[upto - 1] == x && w[upto - 1] != other[upto - 1]);
            }
        }
        if exists|i: int| 0 <= i < upto && w[i] == x && w[i] != other[i] {
            let i = choose|i: int| 0 <= i < upto && w[i] == x && w[i] != other[i];
            if i < upto - 1 {
                assert(displaced_ms(w, other, upto - 1).count(x) > 0);
            }
        }
    }
}

/// The result of the displaced-position search satisfies its guard; a `None`
/// means no position satisfies it.
proof fn lemma_find_match_properties(w: Seq<char>, g: Seq<char>, ch: char, from: int)
    requires
        0 <= from,
    ensures
        match find_match(w, g, ch, from) {
            Some(i) => from <= i < w.len() && w[i] == ch && w[i] != g[i],
            None => forall|i: int| from <= i < w.len() ==> !(w[i] == ch && w[i] != g[i]),
        },
    decreases w.len() - from,
{
    if from < w.len() && !(w[from] == ch && w[from] != g[from]) {
        lemma_find_match_properties(w, g, ch, from + 1);
    }
}

/// Consuming one position removes exactly its symbol from the displaced
/// multiset, where that position contributed one; elsewhere nothing changes.
proof fn lemma_displaced_update(w: Seq<char>, other: Seq<char>, upto: int, i: int)
    requires
        0 <= i < w.len(),
        upto <= w.len(),
    ensures
        displaced_ms(w.update(i, CONSUMED), other, upto) == (if i < upto && w[i] != other[i]
            && w[i] != CONSUMED {
            displaced_ms(w, other, upto).remove(w[i])
        } else {
            displaced_ms(w, other, upto)
        }),
    decreases upto,
{
    if upto > 0 {
        lemma_displaced_update(w, other, upto - 1, i);
        let wu = w.update(i, CONSUMED);
        if i == upto - 1 {
            if w[i] != other[i] && w[i] != CONSUMED {
                assert(displaced_ms(w, other, upto) == displaced_ms(w, other, upto - 1).insert(
                    w[i],
                ));
                assert(displaced_ms(w, other, upto - 1).insert(w[i]).remove(w[i]) =~= displaced_ms(
                    w,
                    other,
                    upto - 1,
                ));
                assert(displaced_ms(wu, other, upto) == displaced_ms(wu, other, upto - 1));
            }
        } else if upto - 1 < w.len() && w[upto - 1] != other[upto - 1] && w[upto - 1]
            != CONSUMED {
            assert(wu[upto - 1] == w[upto - 1]);
            if i < upto - 1 && w[i] != other[i] && w[i] != CONSUMED {
                lemma_displaced_count_positive(w, other, upto - 1, w[i]);
                assert(displaced_ms(w, other, upto - 1).count(w[i]) > 0);
                assert(displaced_ms(w, other, upto - 1).insert(w[upto - 1]).remove(w[i])
                    =~= displaced_ms(w, other, upto - 1).remove(w[i]).insert(w[upto - 1]));
            }
        } else {
            assert(wu[upto - 1] == w[upto - 1]);
        }
    }
}

/// After `j` scan steps: the still-available symbols are the displaced
/// symbols of the actual word less those already claimed by processed guess
/// positions, and the wrong-place count is the size of that claimed
/// intersection. The working copy keeps its length and holds either the
/// original symbol or the sentinel.
proof fn lemma_overlap_state_displaced(a: Seq<char>, g: Seq<char>, j: nat)
    requires
        a.len() == g.len(),
        sentinel_free(a),
        sentinel_free(g),
        j <= g.len(),
    ensures
        overlap_state(a, g, j).0.len() == a.len(),
        forall|p: int|
            0 <= p < a.len() ==> overlap_state(a, g, j).0[p] == a[p] || overlap_state(a, g, j).0[p]
                == CONSUMED,
        displaced_ms(overlap_state(a, g, j).0, g, a.len() as int) == displaced_ms(
            a,
            g,
            a.len() as int,
        ).sub(
            displaced_ms(a, g, a.len() as int).intersection_with(displaced_ms(g, a, j as int)),
        ),
        overlap_state(a, g, j).1 == displaced_ms(a, g, a.len() as int).intersection_with(
            displaced_ms(g, a, j as int),
        ).len(),
    decreases j,
{
    let len = a.len() as int;
    let am = displaced_ms(a, g, len);
    if j == 0 {
        assert forall|x: char| am.intersection_with(displaced_ms(g, a, 0)).count(x) == 0 by {
            vstd::multiset::lemma_intersection_count(am, displaced_ms(g, a, 0), x);
        }
        assert(am.intersection_with(displaced_ms(g, a, 0)) =~= Multiset::empty());
        assert(am.sub(Multiset::empty()) =~= am);
    } else {
        lemma_overlap_state_displaced(a, g, (j - 1) as nat);
        let st = overlap_state(a, g, (j - 1) as nat);
        let stn = overlap_state(a, g, j);
        let pj = j - 1;
        let pm = displaced_ms(g, a, pj);
        let pmn = displaced_ms(g, a, j as int);
        let im = am.intersection_with(pm);
        let imn = am.intersection_with(pmn);
        let live = displaced_ms(st.0, g, len);
        assert(stn == overlap_step(st, a, g, pj));
        if a[pj] == g[pj] {
            // An exact position never holds a displaced symbol, so consuming
            // it leaves the available multiset unchanged; the guess position
            // adds nothing to the claimed symbols either.
            assert(pmn == pm);
            lemma_displaced_update(st.0, g, len, pj);
            assert(st.0[pj] == a[pj] || st.0[pj] == CONSUMED);
            assert(displaced_ms(stn.0, g, len) == live);
        } else {
            let x = g[pj];
            assert(x != CONSUMED);
            assert(pmn == pm.insert(x));
            lemma_find_match_properties(st.0, g, x, 0);
            lemma_displaced_count_positive(st.0, g, len, x);
            vstd::multiset::lemma_intersection_count(am, pm, x);
            match find_match(st.0, g, x, 0) {
                Some(i) => {
                    assert(live.count(x) > 0);
                    assert(pm.count(x) < am.count(x));
                    lemma_displaced_update(st.0, g, len, i);
                    assert(st.0[i] == x);
                    assert(displaced_ms(stn.0, g, len) == live.remove(x));
                    assert forall|y: char| imn.count(y) == im.insert(x).count(y) by {
                        vstd::multiset::lemma_intersection_count(am, pmn, y);
                        vstd::multiset::lemma_intersection_count(am, pm, y);
                    }
                    assert(imn =~= im.insert(x));
                    assert(imn.len() == im.len() + 1);
                    assert forall|y: char| displaced_ms(stn.0, g, len).count(y) == am.sub(
                        imn,
                    ).count(y) by {
                        vstd::multiset::lemma_intersection_count(am, pmn, y);
                        vstd::multiset::lemma_intersection_count(am, pm, y);
                    }
                    assert(displaced_ms(stn.0, g, len) =~= am.sub(imn));
                },
                None => {
                    assert(live.count(x) == 0);
                    vstd::multiset::lemma_intersection_count(am, pm, x);
                    assert(am.count(x) <= pm.count(x));
                    assert forall|y: char| imn.count(y) == im.count(y) by {
                        vstd::multiset::lemma_intersection_count(am, pmn, y);
                        vstd::multiset::lemma_intersection_count(am, pm, y);
                    }
                    assert(imn =~= im);
                    assert(stn == st);
                },
            }
        }
    }
}

proof fn lemma_match_count_sym(a: Seq<char>, g: Seq<char>, j: nat)
    ensures
        match_count(a, g, j) == match_count(g, a, j),
    decreases j,
{
    if j > 0 {
        lemma_match_count_sym(a, g, (j - 1) as nat);
    }
}

/// Feedback between sentinel-free words of equal length is symmetric: the
/// exact matches plainly coincide, and the displaced matches claimed by
/// either scan are, as a multiset, the intersection of the two words'
/// displaced symbols, which does not depend on which word plays the guess.
pub proof fn lemma_overlap_symmetric(a: Seq<char>, g: Seq<char>)
    requires
        a.len() == g.len(),
        sentinel_free(a),
        sentinel_free(g),
    ensures
        overlap_spec(a, g) == overlap_spec(g, a),
        wrong_place_spec(a, g) == wrong_place_spec(g, a),
        right_place_spec(a, g) == right_place_spec(g, a),
{
    let len = a.len() as int;
    let am = displaced_ms(a, g, len);
    let gm = displaced_ms(g, a, len);
    lemma_overlap_state_displaced(a, g, g.len());
    lemma_overlap_state_displaced(g, a, a.len());
    assert forall|x: char| am.intersection_with(gm).count(x) == gm.intersection_with(am).count(
        x,
    ) by {
        vstd::multiset::lemma_intersection_count(am, gm, x);
        vstd::multiset::lemma_intersection_count(gm, am, x);
    }
    assert(am.intersection_with(gm) =~= gm.intersection_with(am));
    lemma_match_count_sym(a, g, g.len());
    lemma_right_place_is_match_count(a, g, g.len());
    lemma_right_place_is_match_count(g, a, a.len());
}

/// The scan of the working copy for the first displaced occurrence of the
/// guess symbol at position `j`.
#[verifier::loop_isolation(false)]
fn scan_displaced(working: &Vec<char>, guess: &Vec<char>, j: usize) -> (r: Option<usize>)
    requires
        j < guess@.len(),
        working@.len() == guess@.len(),
    ensures
        match r {
            Some(i) => i < working@.len() && find_match(working@, guess@, guess@[j as int], 0)
                == Some(i as int),
            None => find_match(working@, guess@, guess@[j as int], 0) is None,
        },
{
    let len = working.len();
    let ch = guess[j];
    let mut i: usize = 0;
    while i < len
        invariant
            i <= len,
            forall|ii: int| 0 <= ii < i ==> !(working@[ii] == ch && working@[ii] != guess@[ii]),
        decreases len - i,
    {
        if ch == working[i] && working[i] != guess[i] {
            proof {
                lemma_find_match_skip(working@, guess@, ch, i as int);
            }
            return Some(i);
        }
        i = i + 1;
    }
    proof {
        lemma_find_match_skip(working@, guess@, ch, len as int);
    }
    None
}

/// Two-pass consumption-based feedback between `actual` and `guess`:
/// exact matches first, then for each unmatched guess position the first
/// remaining displaced occurrence of its symbol.
#[verifier::loop_isolation(false)]
pub fn calculate_word_overlap(actual: &Vec<char>, guess: &Vec<char>) -> (r: Overlap)
    requires
        actual@.len() == guess@.len(),
        guess@.len() <= u8::MAX,
    ensures
        r == overlap_spec(actual@, guess@),
        r.wrong_place == wrong_place_spec(actual@, guess@),
        r.right_place == right_place_spec(actual@, guess@),
        r.right_place + r.wrong_place <= guess@.len(),
{
    let len = guess.len();
    let mut working: Vec<char> = Vec::new();
    let mut idx: usize = 0;
    while idx < len
        invariant
            idx <= len,
            working@ == actual@.take(idx as int),
        decreases len - idx,
    {
        working.push(actual[idx]);
        assert(working@ =~= actual@.take(idx + 1));
        idx = idx + 1;
    }
    assert(working@ =~= actual@);

    let mut right_place: u8 = 0;
    let mut wrong_place: u8 = 0;
    let mut j: usize = 0;
    while j < len
        invariant
            j <= len,
            working@ == overlap_state(actual@, guess@, j as nat).0,
            wrong_place == overlap_state(actual@, guess@, j as nat).1,
            right_place == overlap_state(actual@, guess@, j as nat).2,
            working@.len() == len,
            wrong_place + right_place <= j,
        decreases len - j,
    {
        let ghost pre_state = overlap_state(actual@, guess@, j as nat);
        if actual[j] == guess[j] {
            right_place = right_place + 1;
            working.set(j, CONSUMED);
        } else {
            match scan_displaced(&working, guess, j) {
                Some(i) => {
                    wrong_place = wrong_place + 1;
                    working.set(i, CONSUMED);
                },
                None => {},
            }
        }
        proof {
            assert(overlap_state(actual@, guess@, (j + 1) as nat) == overlap_step(
                pre_state,
                actual@,
                guess@,
                j as int,
            ));
        }
        j = j + 1;
    }
    proof {
        lemma_overlap_bounds(actual@, guess@);
    }
    Overlap::new(wrong_place, right_place)
}

} // verus!
