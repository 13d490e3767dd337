//! The similarity of two texts by their common characters.

use crate::knowledge::matching::SCORE_UNIT;
use crate::knowledge::matching::TEXT_SIMILARITY_MIN;
use crate::text::chars_of;
use vstd::prelude::*;

verus! {

/// How far the matching of the characters of one text against another has come.
pub struct Matching {
    /// Which characters of the second text are matched already.
    pub consumed: Seq<bool>,
    /// The number of characters of the first text that found a partner.
    pub matches: nat,
    /// The number of matches whose partner stands before the partner of the match before.
    pub transpositions: nat,
    /// The place of the partner of the last match.
    pub last: int,
}

/// The first place from `from` on where `b` holds `c` and is not consumed; the length of
/// `b` where there is none.
pub open spec fn first_free(b: Seq<char>, consumed: Seq<bool>, c: char, from: int) -> int
    decreases b.len() - from,
{
    if from < 0 || from >= b.len() {
        b.len() as int
    } else if b[from] == c && !consumed[from] {
        from
    } else {
        first_free(b, consumed, c, from + 1)
    }
}

/// Matches one more character `c` of the first text: it takes the first equal character
/// of `b` that is free. The match is a transposition where that place lies before the
/// place of the match before.
pub open spec fn match_char(state: Matching, b: Seq<char>, c: char) -> Matching {
    let j = first_free(b, state.consumed, c, 0);
    if j < b.len() {
        Matching {
            consumed: state.consumed.update(j, true),
            matches: state.matches + 1,
            transpositions: if j < state.last {
                state.transpositions + 1
            } else {
                state.transpositions
            },
            last: j,
        }
    } else {
        state
    }
}

/// Matches the characters of `a`, in order, against `b`.
pub open spec fn match_chars(a: Seq<char>, b: Seq<char>) -> Matching
    decreases a.len(),
{
    if a.len() == 0 {
        Matching {
            consumed: Seq::new(b.len(), |i: int| false),
            matches: 0,
            transpositions: 0,
            last: 0,
        }
    } else {
        match_char(match_chars(a.drop_last(), b), b, a.last())
    }
}

/// The mean of the three ratios matches to the length of `a`, matches to the length of
/// `b`, and matches that are no transpositions to matches, as a score.
pub open spec fn jaro_ratio(matches: nat, transpositions: nat, a_len: nat, b_len: nat) -> nat {
    ((matches * SCORE_UNIT as nat) / a_len + (matches * SCORE_UNIT as nat) / b_len + ((matches
        - transpositions) * SCORE_UNIT as nat) / matches as int) as nat / 3
}

/// The similarity of two texts as a score from 0 to `SCORE_UNIT`. Two empty texts are
/// alike; an empty and a non-empty text have nothing alike. Two texts that are not empty
/// and share no character get `TEXT_SIMILARITY_MIN`; all others get the ratio of their
/// matching as it is.
pub open spec fn text_similarity_of(a: Seq<char>, b: Seq<char>) -> nat {
    if a.len() == 0 && b.len() == 0 {
        SCORE_UNIT as nat
    } else if a.len() == 0 || b.len() == 0 {
        0
    } else {
        let state = match_chars(a, b);
        if state.matches == 0 {
            TEXT_SIMILARITY_MIN as nat
        } else {
            jaro_ratio(state.matches, state.transpositions, a.len(), b.len())
        }
    }
}

/// The number of places that are consumed.
pub open spec fn consumed_count(consumed: Seq<bool>) -> nat
    decreases consumed.len(),
{
    if consumed.len() == 0 {
        0
    } else if consumed.last() {
        consumed_count(consumed.drop_last()) + 1
    } else {
        consumed_count(consumed.drop_last())
    }
}

proof fn lemma_consumed_count_bound(consumed: Seq<bool>)
    ensures
        consumed_count(consumed) <= consumed.len(),
    decreases consumed.len(),
{
    if consumed.len() > 0 {
        lemma_consumed_count_bound(consumed.drop_last());
    }
}

proof fn lemma_consume_one(consumed: Seq<bool>, j: int)
    requires
        0 <= j < consumed.len(),
        !consumed[j],
    ensures
        consumed_count(consumed.update(j, true)) == consumed_count(consumed) + 1,
    decreases consumed.len(),
{
    let updated = consumed.update(j, true);
    if j == consumed.len() - 1 {
        assert(updated.drop_last() =~= consumed.drop_last());
    } else {
        lemma_consume_one(consumed.drop_last(), j);
        assert(updated.drop_last() =~= consumed.drop_last().update(j, true));
    }
}

proof fn lemma_none_consumed(n: nat)
    ensures
        consumed_count(Seq::new(n, |i: int| false)) == 0,
    decreases n,
{
    if n > 0 {
        lemma_none_consumed((n - 1) as nat);
        assert(Seq::new(n, |i: int| false).drop_last() =~= Seq::new(
            (n - 1) as nat,
            |i: int| false,
        ));
    }
}

/// What holds of every matching: each match consumes one place of `b` and belongs to one
/// character of `a`, and the first match is no transposition.
pub proof fn lemma_matching_bounds(a: Seq<char>, b: Seq<char>)
    ensures
        match_chars(a, b).consumed.len() == b.len(),
        match_chars(a, b).matches == consumed_count(match_chars(a, b).consumed),
        match_chars(a, b).matches <= a.len(),
        match_chars(a, b).matches <= b.len(),
        match_chars(a, b).transpositions <= match_chars(a, b).matches,
        0 <= match_chars(a, b).last,
        match_chars(a, b).matches == 0 ==> match_chars(a, b).last == 0,
        match_chars(a, b).matches > 0 ==> match_chars(a, b).transpositions < match_chars(
            a,
            b,
        ).matches,
    decreases a.len(),
{
    if a.len() == 0 {
        lemma_none_consumed(b.len());
    } else {
        lemma_matching_bounds(a.drop_last(), b);
        let before = match_chars(a.drop_last(), b);
        lemma_first_free(b, before.consumed, a.last(), 0);
        let j = first_free(b, before.consumed, a.last(), 0);
        if j < b.len() {
            lemma_consume_one(before.consumed, j);
        }
    }
    lemma_consumed_count_bound(match_chars(a, b).consumed);
}

/// What `first_free` finds is a free place that holds the character, and no place
/// before it is one.
pub proof fn lemma_first_free(b: Seq<char>, consumed: Seq<bool>, c: char, from: int)
    requires
        0 <= from <= b.len(),
        consumed.len() == b.len(),
    ensures
        from <= first_free(b, consumed, c, from) <= b.len(),
        first_free(b, consumed, c, from) < b.len() ==> b[first_free(b, consumed, c, from)] == c
            && !consumed[first_free(b, consumed, c, from)],
        forall|k: int|
            from <= k < first_free(b, consumed, c, from) ==> !(b[k] == c && !#[trigger] consumed[k]),
    decreases b.len() - from,
{
    if from < b.len() && !(b[from] == c && !consumed[from]) {
        lemma_first_free(b, consumed, c, from + 1);
    }
}

proof fn lemma_floor(part: nat, whole: nat, unit: nat)
    requires
        whole > 0,
    ensures
        ((part * unit) / whole) * whole <= part * unit,
        part * unit < ((part * unit) / whole + 1) * whole,
{
    vstd::arithmetic::div_mod::lemma_fundamental_div_mod((part * unit) as int, whole as int);
    vstd::arithmetic::div_mod::lemma_mod_bound((part * unit) as int, whole as int);
    assert(whole * ((part * unit) / whole) == ((part * unit) / whole) * whole) by (nonlinear_arith);
    assert(((part * unit) / whole + 1) * whole == ((part * unit) / whole) * whole + whole)
        by (nonlinear_arith);
}

/// The ratio is the mean of the three ratios, rounded down by less than two steps of the
/// score. With all three brought to the denominator `3 * a_len * b_len * matches`: the
/// ratio is no more than the mean, and the ratio and 2 is more.
pub proof fn lemma_ratio_is_close(matches: nat, transpositions: nat, a_len: nat, b_len: nat)
    requires
        matches > 0,
        a_len > 0,
        b_len > 0,
        transpositions <= matches,
    ensures
        jaro_ratio(matches, transpositions, a_len, b_len) * (3 * a_len * b_len * matches)
            <= SCORE_UNIT * (matches * b_len * matches + matches * a_len * matches + (matches
            - transpositions) * a_len * b_len),
        SCORE_UNIT * (matches * b_len * matches + matches * a_len * matches + (matches
            - transpositions) * a_len * b_len) < (jaro_ratio(
            matches,
            transpositions,
            a_len,
            b_len,
        ) + 2) * (3 * a_len * b_len * matches),
{
    let unit = SCORE_UNIT as nat;
    let in_order = (matches - transpositions) as nat;
    let x = (matches * unit) / a_len;
    let y = (matches * unit) / b_len;
    let z = (in_order * unit) / matches;
    let q = jaro_ratio(matches, transpositions, a_len, b_len);
    lemma_floor(matches, a_len, unit);
    lemma_floor(matches, b_len, unit);
    lemma_floor(in_order, matches, unit);
    assert(q == (x + y + z) / 3);
    assert(3 * q <= x + y + z < 3 * q + 3);
    let d = a_len * b_len * matches;
    assert(d > 0) by (nonlinear_arith)
        requires
            d == a_len * b_len * matches,
            a_len > 0,
            b_len > 0,
            matches > 0,
    ;
    // Each floor, brought to the common denominator.
    assert(x * d <= unit * (matches * b_len * matches) && unit * (matches * b_len * matches) < (x
        + 1) * d) by (nonlinear_arith)
        requires
            x * a_len <= matches * unit,
            matches * unit < (x + 1) * a_len,
            d == a_len * b_len * matches,
            b_len > 0,
            matches > 0,
    ;
    assert(y * d <= unit * (matches * a_len * matches) && unit * (matches * a_len * matches) < (y
        + 1) * d) by (nonlinear_arith)
        requires
            y * b_len <= matches * unit,
            matches * unit < (y + 1) * b_len,
            d == a_len * b_len * matches,
            a_len > 0,
            matches > 0,
    ;
    assert(z * d <= unit * (in_order * a_len * b_len) && unit * (in_order * a_len * b_len) < (z
        + 1) * d) by (nonlinear_arith)
        requires
            z * matches <= in_order * unit,
            in_order * unit < (z + 1) * matches,
            d == a_len * b_len * matches,
            a_len > 0,
            b_len > 0,
    ;
    let total = unit * (matches * b_len * matches + matches * a_len * matches + in_order * a_len
        * b_len);
    assert(total == unit * (matches * b_len * matches) + unit * (matches * a_len * matches) + unit
        * (in_order * a_len * b_len)) by (nonlinear_arith)
        requires
            total == unit * (matches * b_len * matches + matches * a_len * matches + in_order
                * a_len * b_len),
    ;
    assert((x + y + z) * d == x * d + y * d + z * d) by (nonlinear_arith);
    assert((x + y + z + 3) * d == x * d + y * d + z * d + 3 * d) by (nonlinear_arith);
    assert((x + 1) * d == x * d + d) by (nonlinear_arith);
    assert((y + 1) * d == y * d + d) by (nonlinear_arith);
    assert((z + 1) * d == z * d + d) by (nonlinear_arith);
    assert((x + y + z) * d <= total);
    assert(total < (x + y + z + 3) * d);
    assert(q * (3 * d) <= (x + y + z) * d) by (nonlinear_arith)
        requires
            3 * q <= x + y + z,
            d > 0,
    ;
    assert((x + y + z + 3) * d <= (q + 2) * (3 * d)) by (nonlinear_arith)
        requires
            x + y + z < 3 * q + 3,
            d > 0,
    ;
    assert(3 * a_len * b_len * matches == 3 * d) by (nonlinear_arith)
        requires
            d == a_len * b_len * matches,
    ;
}

fn find_free(b: &Vec<char>, consumed: &Vec<bool>, c: char) -> (j: usize)
    requires
        consumed@.len() == b@.len(),
    ensures
        j == first_free(b@, consumed@, c, 0),
{
    let mut j: usize = 0;
    while j < b.len()
        invariant
            j <= b.len(),
            consumed@.len() == b@.len(),
            first_free(b@, consumed@, c, 0) == first_free(b@, consumed@, c, j as int),
        decreases b.len() - j,
    {
        if b[j] == c && !consumed[j] {
            return j;
        }
        j += 1;
    }
    j
}

/// Matches the characters of `a` against `b` and counts the matches and, among them,
/// the transpositions.
pub fn count_matches(a: &Vec<char>, b: &Vec<char>) -> (counts: (usize, usize))
    ensures
        counts.0 == match_chars(a@, b@).matches,
        counts.1 == match_chars(a@, b@).transpositions,
{
    let mut consumed: Vec<bool> = vec![false; b.len()];
    let mut matches: usize = 0;
    let mut transpositions: usize = 0;
    let mut last: usize = 0;
    let mut i: usize = 0;
    proof {
        assert(a@.take(0) =~= Seq::<char>::empty());
        assert(consumed@ =~= Seq::new(b@.len(), |k: int| false));
    }
    while i < a.len()
        invariant
            i <= a.len(),
            match_chars(a@.take(i as int), b@) == (Matching {
                consumed: consumed@,
                matches: matches as nat,
                transpositions: transpositions as nat,
                last: last as int,
            }),
        decreases a.len() - i,
    {
        proof {
            lemma_matching_bounds(a@.take(i as int), b@);
            assert(a@.take(i + 1).drop_last() =~= a@.take(i as int));
            lemma_first_free(b@, consumed@, a@[i as int], 0);
        }
        let j = find_free(b, &consumed, a[i]);
        if j < b.len() {
            consumed.set(j, true);
            matches = matches + 1;
            if j < last {
                transpositions = transpositions + 1;
            }
            last = j;
        }
        i += 1;
    }
    assert(a@.take(a.len() as int) =~= a@);
    (matches, transpositions)
}

proof fn lemma_ratio_bound(part: nat, whole: nat, unit: nat)
    requires
        0 < whole,
        part <= whole,
    ensures
        (part * unit) / whole <= unit,
{
    assert(part * unit <= whole * unit) by (nonlinear_arith)
        requires
            part <= whole,
    ;
    vstd::arithmetic::div_mod::lemma_div_is_ordered(
        (part * unit) as int,
        (whole * unit) as int,
        whole as int,
    );
    vstd::arithmetic::div_mod::lemma_div_multiples_vanish(unit as int, whole as int);
    assert(whole * unit == unit * whole) by (nonlinear_arith);
}

/// The similarity of two texts, by the characters they share and the order in which
/// they share them.
pub fn text_similarity(s1: &str, s2: &str) -> (score: u64)
    ensures
        score == text_similarity_of(s1@, s2@),
        score <= SCORE_UNIT,
{
    let a = chars_of(s1);
    let b = chars_of(s2);
    if a.len() == 0 && b.len() == 0 {
        return SCORE_UNIT;
    } else if a.len() == 0 || b.len() == 0 {
        return 0;
    }
    let (matches, transpositions) = count_matches(&a, &b);
    if matches == 0 {
        return TEXT_SIMILARITY_MIN;
    }
    proof {
        lemma_matching_bounds(a@, b@);
        lemma_ratio_bound(matches as nat, a@.len(), SCORE_UNIT as nat);
        lemma_ratio_bound(matches as nat, b@.len(), SCORE_UNIT as nat);
        lemma_ratio_bound((matches - transpositions) as nat, matches as nat, SCORE_UNIT as nat);
    }
    let unit: u128 = SCORE_UNIT as u128;
    let by_a: u128 = (matches as u128 * unit) / (a.len() as u128);
    let by_b: u128 = (matches as u128 * unit) / (b.len() as u128);
    let in_order: u128 = ((matches - transpositions) as u128 * unit) / (matches as u128);
    let ratio: u128 = (by_a + by_b + in_order) / 3;
    ratio as u64
}

} // verus!
