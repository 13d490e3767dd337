//! The search: the best candidates by cosine score, and among them the best by final
//! score.

pub mod similarity;

pub use crate::knowledge::matching::similarity::count_matches;
pub use crate::knowledge::matching::similarity::text_similarity;

use crate::knowledge::matching::similarity::text_similarity_of;
use crate::knowledge::storage::codec::decoded_text;
use crate::knowledge::storage::string_decode;
use vstd::prelude::*;

verus! {

/// The score that stands for 1: scores are fixed-point numbers with nine decimal places.
pub const SCORE_UNIT: u64 = 1_000_000_000;

/// The text similarity of two texts that are not empty and share no character: 0.4.
pub const TEXT_SIMILARITY_MIN: u64 = 400_000_000;

/// A weight for the text similarity in the final score: 0.22287.
pub const TEXT_SIMILARITY_FACTOR: u64 = 222_870_000;

/// The share of all chunks that the coarse search keeps as candidates: one in six.
pub const CANDIDATE_SHARE: usize = 6;

/// A chunk that matches a query: the document it belongs to, the number of chunks of
/// that document, its place among them, and its score.
#[derive(Clone, Copy, Debug)]
pub struct Matched {
    pub index: usize,
    pub len: usize,
    pub vector_index: usize,
    pub similarity: i64,
}

impl Matched {
    /// A match names a chunk of its document.
    pub open spec fn wf(self) -> bool {
        self.vector_index < self.len
    }
}

/// The cosine scores of the chunks of one document against a query, in chunk order.
#[derive(Clone, Debug)]
pub struct DocumentScores {
    pub index: usize,
    pub scores: Vec<i64>,
}

impl DeepView for DocumentScores {
    type V = (usize, Seq<i64>);

    open spec fn deep_view(&self) -> (usize, Seq<i64>) {
        (self.index, self.scores@)
    }
}

/// The candidates that one document gives: one for each chunk.
pub open spec fn candidates_of_document(index: usize, scores: Seq<i64>) -> Seq<Matched> {
    Seq::new(
        scores.len(),
        |j: int|
            Matched {
                index,
                len: scores.len() as usize,
                vector_index: j as usize,
                similarity: scores[j],
            },
    )
}

/// The candidates that the documents give, document by document.
pub open spec fn candidates_of(documents: Seq<(usize, Seq<i64>)>) -> Seq<Matched>
    decreases documents.len(),
{
    if documents.len() == 0 {
        Seq::empty()
    } else {
        candidates_of(documents.drop_last()) + candidates_of_document(
            documents.last().0,
            documents.last().1,
        )
    }
}

/// The place of a new score in a list that is sorted from the highest score down:
/// behind all that are as high or higher.
pub open spec fn rank_of(list: Seq<Matched>, score: i64) -> int
    decreases list.len(),
{
    if list.len() > 0 && list.first().similarity >= score {
        1 + rank_of(list.drop_first(), score)
    } else {
        0
    }
}

/// `list` with `matched` at its place.
pub open spec fn insert_ranked(list: Seq<Matched>, matched: Matched) -> Seq<Matched> {
    list.insert(rank_of(list, matched.similarity), matched)
}

/// The best `n` after one more candidate: while the list is short the candidate joins
/// it; once it is full the candidate takes the place of the last where it is strictly
/// better.
pub open spec fn offer(list: Seq<Matched>, matched: Matched, n: nat) -> Seq<Matched> {
    if list.len() < n {
        insert_ranked(list, matched)
    } else if list.len() > 0 && matched.similarity > list.last().similarity {
        insert_ranked(list.drop_last(), matched)
    } else {
        list
    }
}

/// The best `n` of `candidates`, from the highest score down. Of two with the same
/// score, the one that came first stands first.
pub open spec fn top_n_of(candidates: Seq<Matched>, n: nat) -> Seq<Matched>
    decreases candidates.len(),
{
    if candidates.len() == 0 {
        Seq::empty()
    } else {
        offer(top_n_of(candidates.drop_last(), n), candidates.last(), n)
    }
}

/// A list sorted from the highest score down.
pub open spec fn sorted_down(list: Seq<Matched>) -> bool {
    forall|i: int, j: int| 0 <= i <= j < list.len() ==> list[i].similarity >= list[j].similarity
}

proof fn lemma_rank(list: Seq<Matched>, score: i64)
    ensures
        0 <= rank_of(list, score) <= list.len(),
        forall|i: int| 0 <= i < rank_of(list, score) ==> (#[trigger] list[i]).similarity >= score,
        rank_of(list, score) < list.len() ==> list[rank_of(list, score)].similarity < score,
    decreases list.len(),
{
    if list.len() > 0 && list.first().similarity >= score {
        lemma_rank(list.drop_first(), score);
        assert forall|i: int| 0 <= i < rank_of(list, score) implies (#[trigger] list[i]).similarity
            >= score by {
            if i > 0 {
                assert(list[i] == list.drop_first()[i - 1]);
            }
        }
    }
}

proof fn lemma_insert_ranked(list: Seq<Matched>, matched: Matched)
    requires
        sorted_down(list),
    ensures
        sorted_down(insert_ranked(list, matched)),
        insert_ranked(list, matched).len() == list.len() + 1,
{
    lemma_rank(list, matched.similarity);
    let place = rank_of(list, matched.similarity);
    let longer = insert_ranked(list, matched);
    assert forall|i: int, j: int| 0 <= i <= j < longer.len() implies longer[i].similarity
        >= longer[j].similarity by {
        if i < place {
            assert(longer[i] == list[i]);
        } else if i > place {
            assert(longer[i] == list[i - 1]);
        }
        if j < place {
            assert(longer[j] == list[j]);
        } else if j > place {
            assert(longer[j] == list[j - 1]);
            assert(list[place].similarity >= list[j - 1].similarity);
        }
    }
}

proof fn lemma_offer(list: Seq<Matched>, matched: Matched, n: nat)
    requires
        sorted_down(list),
        list.len() <= n,
    ensures
        sorted_down(offer(list, matched, n)),
        offer(list, matched, n).len() == if list.len() < n {
            list.len() + 1
        } else {
            list.len()
        },
{
    if list.len() < n {
        lemma_insert_ranked(list, matched);
    } else if list.len() > 0 && matched.similarity > list.last().similarity {
        assert(sorted_down(list.drop_last())) by {
            assert forall|i: int, j: int| 0 <= i <= j < list.drop_last().len() implies list.drop_last()[i].similarity
                >= list.drop_last()[j].similarity by {
                assert(list.drop_last()[i] == list[i]);
                assert(list.drop_last()[j] == list[j]);
            }
        }
        lemma_insert_ranked(list.drop_last(), matched);
    }
}

/// The list of the best `n` is sorted from the highest score down, and it holds `n`
/// candidates, or all where there are fewer.
pub proof fn lemma_top_n_sorted(candidates: Seq<Matched>, n: nat)
    ensures
        sorted_down(top_n_of(candidates, n)),
        top_n_of(candidates, n).len() == if candidates.len() < n {
            candidates.len()
        } else {
            n
        },
    decreases candidates.len(),
{
    if candidates.len() > 0 {
        lemma_top_n_sorted(candidates.drop_last(), n);
        lemma_offer(top_n_of(candidates.drop_last(), n), candidates.last(), n);
    }
}

proof fn lemma_insert_ranked_holds(list: Seq<Matched>, matched: Matched)
    ensures
        insert_ranked(list, matched).contains(matched),
        forall|i: int| 0 <= i < list.len() ==> insert_ranked(list, matched).contains(#[trigger] list[i]),
        forall|i: int|
            0 <= i < insert_ranked(list, matched).len() ==> (#[trigger] insert_ranked(
                list,
                matched,
            )[i]) == matched || list.contains(insert_ranked(list, matched)[i]),
{
    lemma_rank(list, matched.similarity);
    let place = rank_of(list, matched.similarity);
    let longer = insert_ranked(list, matched);
    assert(longer[place] == matched);
    assert forall|i: int| 0 <= i < list.len() implies longer.contains(#[trigger] list[i]) by {
        if i < place {
            assert(longer[i] == list[i]);
        } else {
            assert(longer[i + 1] == list[i]);
        }
    }
    assert forall|i: int| 0 <= i < longer.len() implies (#[trigger] longer[i]) == matched
        || list.contains(longer[i]) by {
        if i < place {
            assert(longer[i] == list[i]);
        } else if i > place {
            assert(longer[i] == list[i - 1]);
        }
    }
}

/// The list of the best `n` holds candidates only, and it holds the best: a candidate
/// that is not in the list scores no more than the last of the list, which is full.
pub proof fn lemma_top_n_best(candidates: Seq<Matched>, n: nat)
    ensures
        forall|i: int|
            0 <= i < top_n_of(candidates, n).len() ==> candidates.contains(
                #[trigger] top_n_of(candidates, n)[i],
            ),
        forall|k: int|
            0 <= k < candidates.len() ==> top_n_of(candidates, n).contains(#[trigger] candidates[k])
                || (top_n_of(candidates, n).len() == n && (n == 0 || candidates[k].similarity
                <= top_n_of(candidates, n).last().similarity)),
    decreases candidates.len(),
{
    if candidates.len() > 0 {
        let earlier = candidates.drop_last();
        let newest = candidates.last();
        let list = top_n_of(earlier, n);
        let next = top_n_of(candidates, n);
        lemma_top_n_best(earlier, n);
        lemma_top_n_sorted(earlier, n);
        lemma_top_n_sorted(candidates, n);
        assert forall|k: int| 0 <= k < earlier.len() implies candidates.contains(
            #[trigger] earlier[k],
        ) by {
            assert(candidates[k] == earlier[k]);
        }
        if list.len() < n {
            lemma_insert_ranked_holds(list, newest);
            assert forall|k: int| 0 <= k < candidates.len() implies next.contains(
                #[trigger] candidates[k],
            ) by {
                if k < earlier.len() {
                    assert(candidates[k] == earlier[k]);
                    let at = choose|at: int| 0 <= at < list.len() && list[at] == earlier[k];
                    assert(next.contains(list[at]));
                }
            }
        } else if list.len() > 0 && newest.similarity > list.last().similarity {
            let shorter = list.drop_last();
            lemma_insert_ranked_holds(shorter, newest);
            lemma_rank(shorter, newest.similarity);
            let place = rank_of(shorter, newest.similarity);
            assert(next.last().similarity >= list.last().similarity) by {
                if place == shorter.len() {
                    assert(next.last() == newest);
                } else {
                    assert(next.last() == shorter[shorter.len() - 1]);
                    assert(shorter[shorter.len() - 1] == list[list.len() - 2]);
                }
            }
            assert forall|i: int| 0 <= i < next.len() implies candidates.contains(
                #[trigger] next[i],
            ) by {
                if next[i] != newest {
                    let at = choose|at: int| 0 <= at < shorter.len() && shorter[at] == next[i];
                    assert(list[at] == shorter[at]);
                }
            }
            assert forall|k: int| 0 <= k < candidates.len() implies next.contains(
                #[trigger] candidates[k],
            ) || (next.len() == n && (n == 0 || candidates[k].similarity
                <= next.last().similarity)) by {
                if k < earlier.len() {
                    assert(candidates[k] == earlier[k]);
                    if list.contains(earlier[k]) {
                        let at = choose|at: int| 0 <= at < list.len() && list[at] == earlier[k];
                        if at < shorter.len() {
                            assert(shorter[at] == list[at]);
                        }
                    }
                }
            }
        } else {
            assert forall|k: int| 0 <= k < candidates.len() implies next.contains(
                #[trigger] candidates[k],
            ) || (next.len() == n && (n == 0 || candidates[k].similarity
                <= next.last().similarity)) by {
                if k < earlier.len() {
                    assert(candidates[k] == earlier[k]);
                }
            }
        }
        assert forall|i: int| 0 <= i < next.len() implies candidates.contains(#[trigger] next[i]) by {
            if list.len() < n {
                if next[i] != newest {
                    let at = choose|at: int| 0 <= at < list.len() && list[at] == next[i];
                }
            } else if list.len() > 0 && newest.similarity > list.last().similarity {
            } else {
            }
        }
    }
}

/// Every candidate names a chunk of its document.
pub proof fn lemma_candidates_wf(documents: Seq<(usize, Seq<i64>)>)
    requires
        forall|d: int| 0 <= d < documents.len() ==> (#[trigger] documents[d]).1.len() <= usize::MAX,
    ensures
        forall|k: int|
            0 <= k < candidates_of(documents).len() ==> (#[trigger] candidates_of(documents)[k]).wf(),
    decreases documents.len(),
{
    if documents.len() > 0 {
        lemma_candidates_wf(documents.drop_last());
        let earlier = candidates_of(documents.drop_last());
        let own = candidates_of_document(documents.last().0, documents.last().1);
        assert forall|k: int| 0 <= k < candidates_of(documents).len() implies (
        #[trigger] candidates_of(documents)[k]).wf() by {
            if k < earlier.len() {
                assert(candidates_of(documents)[k] == earlier[k]);
            } else {
                assert(candidates_of(documents)[k] == own[k - earlier.len()]);
            }
        }
    }
}

fn insert_sorted(top_n: &mut Vec<Matched>, matched: Matched)
    ensures
        final(top_n)@ == insert_ranked(old(top_n)@, matched),
{
    let mut place: usize = 0;
    assert(top_n@.skip(0) =~= top_n@);
    while place < top_n.len() && top_n[place].similarity >= matched.similarity
        invariant
            place <= top_n.len(),
            top_n@ == old(top_n)@,
            rank_of(top_n@, matched.similarity) == place + rank_of(
                top_n@.skip(place as int),
                matched.similarity,
            ),
        decreases top_n.len() - place,
    {
        assert(top_n@.skip(place as int).drop_first() =~= top_n@.skip(place + 1));
        place += 1;
    }
    top_n.insert(place, matched);
}

fn offer_candidate(top_n: &mut Vec<Matched>, matched: Matched, n: u128)
    ensures
        final(top_n)@ == offer(old(top_n)@, matched, n as nat),
{
    if (top_n.len() as u128) < n {
        insert_sorted(top_n, matched);
    } else if top_n.len() > 0 && matched.similarity > top_n[top_n.len() - 1].similarity {
        top_n.pop();
        insert_sorted(top_n, matched);
    }
}

fn total_chunks(documents: &Vec<DocumentScores>) -> (total: u128)
    ensures
        total == candidates_of(documents.deep_view()).len(),
{
    let mut total: u128 = 0;
    let mut d: usize = 0;
    let ghost views = documents.deep_view();
    assert(views.take(0) =~= Seq::<(usize, Seq<i64>)>::empty());
    while d < documents.len()
        invariant
            d <= documents.len(),
            views == documents.deep_view(),
            total == candidates_of(views.take(d as int)).len(),
            total <= d * 0xFFFF_FFFF_FFFF_FFFF,
        decreases documents.len() - d,
    {
        proof {
            assert(views.take(d + 1).drop_last() =~= views.take(d as int));
            assert(views.take(d + 1).last() == documents[d as int].deep_view());
            assert((d + 1) * 0xFFFF_FFFF_FFFF_FFFF <= 0x1_0000_0000_0000_0000
                * 0xFFFF_FFFF_FFFF_FFFF) by (nonlinear_arith)
                requires
                    d < 0x1_0000_0000_0000_0000,
            ;
        }
        total = total + documents[d].scores.len() as u128;
        d += 1;
    }
    assert(views.take(documents.len() as int) =~= views);
    total
}

/// Picks the best candidates for a query from the scores of all chunks of all
/// documents: one in `k` of them, rounded down, sorted from the highest score down.
pub fn match_top_n(documents: &Vec<DocumentScores>, k: usize) -> (top_n: Vec<Matched>)
    requires
        k > 0,
    ensures
        top_n@ == top_n_of(
            candidates_of(documents.deep_view()),
            candidates_of(documents.deep_view()).len() / k as nat,
        ),
        forall|i: int| 0 <= i < top_n@.len() ==> (#[trigger] top_n@[i]).wf(),
        sorted_down(top_n@),
        top_n@.len() == candidates_of(documents.deep_view()).len() / k as nat,
{
    proof {
        let candidates = candidates_of(documents.deep_view());
        lemma_top_n_sorted(candidates, candidates.len() / k as nat);
        assert(candidates.len() / k as nat <= candidates.len()) by (nonlinear_arith)
            requires
                k > 0,
        ;
        assert forall|d: int| 0 <= d < documents.deep_view().len() implies (
        #[trigger] documents.deep_view()[d]).1.len() <= usize::MAX by {
            assert(documents.deep_view()[d].1 == documents@[d].scores@);
            assert(documents@[d].scores.len() <= usize::MAX);
        }
        lemma_candidates_wf(documents.deep_view());
        lemma_top_n_best(candidates, candidates.len() / k as nat);
        assert forall|i: int| 0 <= i < top_n_of(candidates, candidates.len() / k as nat).len() implies (
        #[trigger] top_n_of(candidates, candidates.len() / k as nat)[i]).wf() by {
            let kept = top_n_of(candidates, candidates.len() / k as nat)[i];
            assert(candidates.contains(kept));
            let at = choose|at: int| 0 <= at < candidates.len() && candidates[at] == kept;
            assert(candidates[at].wf());
        }
    }
    let total = total_chunks(documents);
    let n: u128 = total / (k as u128);
    let mut top_n: Vec<Matched> = Vec::new();
    let mut d: usize = 0;
    let ghost views = documents.deep_view();
    assert(views.take(0) =~= Seq::<(usize, Seq<i64>)>::empty());
    while d < documents.len()
        invariant
            d <= documents.len(),
            views == documents.deep_view(),
            top_n@ == top_n_of(candidates_of(views.take(d as int)), n as nat),
        decreases documents.len() - d,
    {
        let document = &documents[d];
        let ghost before = candidates_of(views.take(d as int));
        let ghost own = candidates_of_document(document.index, document.scores@);
        proof {
            assert(views.take(d + 1).drop_last() =~= views.take(d as int));
            assert(views.take(d + 1).last() == document.deep_view());
            assert(before + own.take(0) =~= before);
        }
        let mut j: usize = 0;
        while j < document.scores.len()
            invariant
                j <= document.scores.len(),
                own == candidates_of_document(document.index, document.scores@),
                top_n@ == top_n_of(before + own.take(j as int), n as nat),
            decreases document.scores.len() - j,
        {
            let matched = Matched {
                index: document.index,
                len: document.scores.len(),
                vector_index: j,
                similarity: document.scores[j],
            };
            proof {
                assert((before + own.take(j + 1)).drop_last() =~= before + own.take(j as int));
                assert((before + own.take(j + 1)).last() == matched);
            }
            offer_candidate(&mut top_n, matched, n);
            j += 1;
        }
        assert(own.take(document.scores.len() as int) =~= own);
        d += 1;
    }
    assert(views.take(documents.len() as int) =~= views);
    top_n
}

/// The final score of a candidate: its cosine score and, weighted, its text similarity.
/// `weight` is a score too: `SCORE_UNIT` adds the text similarity as it is.
pub open spec fn final_score_of(cosine: i64, text: nat, weight: u64) -> int {
    cosine + (weight * text) / SCORE_UNIT as int
}

/// Computes the final score of a candidate.
pub fn final_score(cosine: i64, text: u64, weight: u64) -> (score: i128)
    ensures
        score == final_score_of(cosine, text as nat, weight),
{
    assert(weight * text <= 0xFFFF_FFFF_FFFF_FFFE_0000_0000_0000_0001) by (nonlinear_arith)
        requires
            weight <= 0xFFFF_FFFF_FFFF_FFFF,
            text <= 0xFFFF_FFFF_FFFF_FFFF,
    ;
    let product: u128 = weight as u128 * text as u128;
    let bonus: u128 = product / 1_000_000_000u128;
    assert(bonus * 1_000_000_000 <= product);
    assert(bonus <= 340_282_366_920_938_463_463_374_607_431);
    cosine as i128 + bonus as i128
}

/// The place of the highest of `scores`, and of the first of them where several are
/// the highest.
pub open spec fn best_of(scores: Seq<int>) -> int
    decreases scores.len(),
{
    if scores.len() <= 1 {
        0
    } else {
        let before = best_of(scores.drop_last());
        if scores.last() > scores[before] {
            scores.len() - 1
        } else {
            before
        }
    }
}

/// The best place holds a score that none exceeds and that none before it reaches.
pub proof fn lemma_best_of(scores: Seq<int>)
    requires
        scores.len() > 0,
    ensures
        0 <= best_of(scores) < scores.len(),
        forall|i: int| 0 <= i < scores.len() ==> #[trigger] scores[i] <= scores[best_of(scores)],
        forall|i: int| 0 <= i < best_of(scores) ==> #[trigger] scores[i] < scores[best_of(scores)],
    decreases scores.len(),
{
    if scores.len() > 1 {
        lemma_best_of(scores.drop_last());
        let before = best_of(scores.drop_last());
        assert(scores.drop_last()[before] == scores[before]);
        assert forall|i: int| 0 <= i < scores.len() implies #[trigger] scores[i] <= scores[best_of(
            scores,
        )] by {
            if i < scores.len() - 1 {
                assert(scores.drop_last()[i] == scores[i]);
            }
        }
        assert forall|i: int| 0 <= i < best_of(scores) implies #[trigger] scores[i] < scores[best_of(
            scores,
        )] by {
            if i < scores.len() - 1 {
                assert(scores.drop_last()[i] == scores[i]);
            }
        }
    }
}

/// The final scores of candidates that come with the texts of their chunks.
pub open spec fn final_scores(
    candidates: Seq<(Matched, Seq<char>)>,
    query: Seq<char>,
    weight: u64,
) -> Seq<int> {
    Seq::new(
        candidates.len(),
        |i: int|
            final_score_of(
                candidates[i].0.similarity,
                text_similarity_of(query, candidates[i].1),
                weight,
            ),
    )
}

/// The candidate with the highest final score, and the first of them where several have
/// it; none where there is no candidate.
pub open spec fn reranked(candidates: Seq<(Matched, Seq<char>)>, query: Seq<char>, weight: u64)
    -> Option<Matched> {
    if candidates.len() == 0 {
        None
    } else {
        Some(candidates[best_of(final_scores(candidates, query, weight))].0)
    }
}

/// The candidates with their texts as plain values.
pub open spec fn with_texts(candidates: Seq<(Matched, String)>) -> Seq<(Matched, Seq<char>)> {
    candidates.map_values(|pair: (Matched, String)| (pair.0, pair.1@))
}

/// Picks the best candidate by final score, from candidates that come with the texts of
/// their chunks. The candidate is handed back as it came, with its cosine score.
pub fn rerank(candidates: &Vec<(Matched, String)>, query: &str, weight: u64) -> (best: Option<
    Matched,
>)
    ensures
        best == reranked(with_texts(candidates@), query@, weight),
        best matches Some(matched) ==> exists|i: int|
            0 <= i < candidates@.len() && (#[trigger] candidates@[i]).0 == matched,
{
    if candidates.len() == 0 {
        return None;
    }
    let ghost pairs = with_texts(candidates@);
    let ghost scores = final_scores(pairs, query@, weight);
    let mut best: usize = 0;
    let mut best_score: i128 = final_score(
        candidates[0].0.similarity,
        text_similarity(query, candidates[0].1.as_str()),
        weight,
    );
    let mut i: usize = 1;
    proof {
        assert(scores.take(1).len() == 1);
        assert(scores[0] == best_score);
    }
    while i < candidates.len()
        invariant
            1 <= i <= candidates.len(),
            pairs == with_texts(candidates@),
            scores == final_scores(pairs, query@, weight),
            best == best_of(scores.take(i as int)),
            best < i,
            best_score == scores[best as int],
        decreases candidates.len() - i,
    {
        let score = final_score(
            candidates[i].0.similarity,
            text_similarity(query, candidates[i].1.as_str()),
            weight,
        );
        proof {
            assert(scores.take(i + 1).drop_last() =~= scores.take(i as int));
            assert(scores.take(i + 1).last() == scores[i as int]);
            assert(scores.take(i + 1)[best as int] == scores[best as int]);
            assert(score == scores[i as int]);
        }
        if score > best_score {
            best = i;
            best_score = score;
        }
        i += 1;
    }
    assert(scores.take(candidates.len() as int) =~= scores);
    Some(candidates[best].0)
}

/// The candidates with the texts that their stored bytes give.
pub open spec fn with_decoded(candidates: Seq<(Matched, Vec<u8>)>) -> Seq<(Matched, Seq<char>)> {
    candidates.map_values(|pair: (Matched, Vec<u8>)| (pair.0, decoded_text(pair.1@)))
}

/// Picks the best candidate by final score, from candidates that come with the stored
/// bytes of the texts of their chunks.
pub fn match_final(top_n: &Vec<(Matched, Vec<u8>)>, query: &str, weight: u64) -> (best: Option<
    Matched,
>)
    ensures
        best == reranked(with_decoded(top_n@), query@, weight),
        best matches Some(matched) ==> exists|i: int|
            0 <= i < top_n@.len() && (#[trigger] top_n@[i]).0 == matched,
{
    let mut candidates: Vec<(Matched, String)> = Vec::new();
    let mut i: usize = 0;
    while i < top_n.len()
        invariant
            i <= top_n.len(),
            with_texts(candidates@) == with_decoded(top_n@).take(i as int),
        decreases top_n.len() - i,
    {
        let ghost shown = with_texts(candidates@);
        let text = string_decode(top_n[i].1.as_slice());
        candidates.push((top_n[i].0, text));
        assert(with_texts(candidates@) =~= shown.push(with_decoded(top_n@)[i as int]));
        assert(with_texts(candidates@) =~= with_decoded(top_n@).take(i + 1));
        i += 1;
    }
    assert(with_decoded(top_n@).take(top_n.len() as int) =~= with_decoded(top_n@));
    let best = rerank(&candidates, query, weight);
    proof {
        if let Some(matched) = best {
            let i = choose|i: int| 0 <= i < candidates@.len() && (#[trigger] candidates@[i]).0 == matched;
            assert(with_texts(candidates@)[i].0 == matched);
            assert(with_decoded(top_n@)[i].0 == top_n@[i].0);
        }
    }
    best
}

} // verus!
