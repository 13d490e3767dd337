use qai::knowledge::matching::{
    count_matches, final_score, match_final, match_top_n, rerank, text_similarity, DocumentScores,
    Matched, SCORE_UNIT, TEXT_SIMILARITY_FACTOR, TEXT_SIMILARITY_MIN,
};

fn cosine(a: &[f32], b: &[f32]) -> f32 {
    let dot: f32 = a.iter().zip(b.iter()).map(|(x, y)| x * y).sum();
    let mag_a = a.iter().map(|x| x * x).sum::<f32>().sqrt();
    let mag_b = b.iter().map(|x| x * x).sum::<f32>().sqrt();
    dot / (mag_a * mag_b)
}

fn score(value: f32) -> i64 {
    (value as f64 * SCORE_UNIT as f64).round() as i64
}

fn scores_of(index: usize, scores: &[i64]) -> DocumentScores {
    DocumentScores { index, scores: scores.to_vec() }
}

fn matched(index: usize, len: usize, vector_index: usize, similarity: i64) -> Matched {
    Matched { index, len, vector_index, similarity }
}

fn places(list: &[Matched]) -> Vec<(usize, usize, usize, i64)> {
    list.iter().map(|m| (m.index, m.len, m.vector_index, m.similarity)).collect()
}

#[test]
fn characters_are_matched_in_order() {
    let chars = |s: &str| s.chars().collect::<Vec<char>>();
    assert_eq!(count_matches(&chars("abc"), &chars("abc")), (3, 0));
    assert_eq!(count_matches(&chars("ab"), &chars("ba")), (2, 1));
    assert_eq!(count_matches(&chars("abc"), &chars("xyz")), (0, 0));
    assert_eq!(count_matches(&chars("aab"), &chars("aba")), (3, 1));
    assert_eq!(count_matches(&chars("aba"), &chars("aab")), (3, 1));
    assert_eq!(count_matches(&chars("abab"), &chars("aabb")), (4, 1));
    assert_eq!(count_matches(&chars("cba"), &chars("abc")), (3, 2));
    assert_eq!(count_matches(&chars("aaa"), &chars("a")), (1, 0));
    assert_eq!(count_matches(&chars(""), &chars("abc")), (0, 0));
    assert_eq!(count_matches(&chars("abc"), &chars("")), (0, 0));
}

#[test]
fn empty_texts_are_alike_and_unlike_all_others() {
    assert_eq!(text_similarity("", ""), SCORE_UNIT);
    assert_eq!(text_similarity("", "a"), 0);
    assert_eq!(text_similarity("abc", ""), 0);
}

#[test]
fn single_characters_are_texts_like_all_others() {
    assert_eq!(text_similarity("a", "a"), SCORE_UNIT);
    assert_eq!(text_similarity("a", "b"), TEXT_SIMILARITY_MIN);
    assert_eq!(text_similarity("é", "é"), SCORE_UNIT);
    assert_eq!(text_similarity("é", "e"), TEXT_SIMILARITY_MIN);
}

#[test]
fn texts_without_a_common_character_get_the_floor() {
    assert_eq!(TEXT_SIMILARITY_MIN, 400_000_000);
    assert_eq!(text_similarity("abc", "xyz"), TEXT_SIMILARITY_MIN);
    assert_eq!(text_similarity("a", "xy"), TEXT_SIMILARITY_MIN);
}

#[test]
fn similarity_is_the_mean_of_three_ratios() {
    assert_eq!(text_similarity("abc", "abc"), SCORE_UNIT);
    assert_eq!(text_similarity("ab", "ba"), 833_333_333);
    assert_eq!(text_similarity("cba", "abc"), 777_777_777);
    assert_eq!(text_similarity("abcd", "ab"), 833_333_333);
    assert_eq!(text_similarity("ab", "abcd"), 833_333_333);
}

#[test]
fn a_low_ratio_stays_as_it_is() {
    assert_eq!(text_similarity("a", "bbbbbbbbbbbbbbbbbbbbbbbbbbbbba"), 677_777_777);
    assert_eq!(text_similarity("ba", "abbbbbbbbbbbbbbbbbbbbbbbbbbbbb"), 522_222_222);
    assert_eq!(text_similarity("xxxxxxxxxa", "ayyyyyyyyyyyyyyyyyyy"), 383_333_333);
    assert_eq!(text_similarity("axxxxxxxxxxxxxxxxxxx", "ayyyyyyyyyyyyyyyyyyy"), 366_666_666);
    assert_eq!(text_similarity("xxxxxxxxxxxxxxxxxxxx", "yyyyyyyyyyyyyyyyyyyy"), TEXT_SIMILARITY_MIN);
}

#[test]
fn similarity_counts_characters_not_bytes() {
    assert_eq!(text_similarity("日本語", "日本語"), SCORE_UNIT);
    assert_eq!(text_similarity("日本", "本日"), 833_333_333);
}

#[test]
fn the_best_are_sorted_from_the_highest_score_down() {
    let documents = vec![scores_of(0, &[5, 9, 1]), scores_of(1, &[7, 3, 8])];
    let top = match_top_n(&documents, 2);
    assert_eq!(places(&top), vec![(0, 3, 1, 9), (1, 3, 2, 8), (1, 3, 0, 7)]);
    let all = match_top_n(&documents, 1);
    assert_eq!(
        places(&all),
        vec![(0, 3, 1, 9), (1, 3, 2, 8), (1, 3, 0, 7), (0, 3, 0, 5), (1, 3, 1, 3), (0, 3, 2, 1)]
    );
}

#[test]
fn the_number_of_the_best_is_a_share_of_all_chunks() {
    let documents = vec![scores_of(0, &[5, 9, 1, 4, 4, 4, 4]), scores_of(3, &[7, 3, 8, 2, 2, 2])];
    assert_eq!(match_top_n(&documents, 6).len(), 2);
    assert_eq!(match_top_n(&documents, 13).len(), 1);
    assert_eq!(match_top_n(&documents, 14).len(), 0);
    assert_eq!(match_top_n(&documents, 1).len(), 13);
    assert_eq!(places(&match_top_n(&documents, 6)), vec![(0, 7, 1, 9), (3, 6, 2, 8)]);
    assert!(match_top_n(&Vec::new(), 6).is_empty());
    assert!(match_top_n(&vec![scores_of(0, &[])], 1).is_empty());
}

#[test]
fn of_equal_scores_the_first_stands_first() {
    let documents = vec![scores_of(0, &[4, 4]), scores_of(1, &[4, 9])];
    let top = match_top_n(&documents, 2);
    assert_eq!(places(&top), vec![(1, 2, 1, 9), (0, 2, 0, 4)]);
    let negative = match_top_n(&vec![scores_of(2, &[-5, -1, i64::MIN, i64::MAX])], 2);
    assert_eq!(places(&negative), vec![(2, 4, 3, i64::MAX), (2, 4, 1, -1)]);
}

#[test]
fn every_list_of_the_best_is_sorted_and_of_the_right_size() {
    let mut seed: u64 = 7;
    let mut documents = Vec::new();
    let mut total = 0;
    for index in 0..9usize {
        let mut scores = Vec::new();
        for _ in 0..(index * 3 % 7) {
            seed = seed.wrapping_mul(6364136223846793005).wrapping_add(1442695040888963407);
            scores.push((seed >> 33) as i64 % 1000 - 500);
        }
        total += scores.len();
        documents.push(DocumentScores { index, scores });
    }
    let mut all: Vec<i64> = documents.iter().flat_map(|d| d.scores.clone()).collect();
    all.sort();
    all.reverse();
    for k in [1usize, 2, 3, 6, 100] {
        let top = match_top_n(&documents, k);
        assert_eq!(top.len(), (total / k).min(total));
        for pair in top.windows(2) {
            assert!(pair[0].similarity >= pair[1].similarity);
        }
        let got: Vec<i64> = top.iter().map(|m| m.similarity).collect();
        assert_eq!(got, all[..top.len()].to_vec());
        for m in &top {
            assert_eq!(documents[m.index].scores[m.vector_index], m.similarity);
            assert_eq!(documents[m.index].scores.len(), m.len);
        }
    }
}

#[test]
fn the_vector_of_the_query_ranks_first_with_score_one() {
    let v0 = [1.0f32, 2.0, 0.0];
    let v1 = [0.0f32, 2.0, 0.0];
    let v2 = [0.0f32, 3.0, 4.0];
    let query = v1;
    let scores: Vec<i64> = [v0, v1, v2].iter().map(|v| score(cosine(&query, v))).collect();
    let top = match_top_n(&vec![DocumentScores { index: 0, scores }], 1);
    assert_eq!(top.len(), 3);
    assert_eq!(top[0].vector_index, 1);
    assert_eq!(top[0].index, 0);
    assert_eq!(top[0].len, 3);
    assert_eq!(top[0].similarity, SCORE_UNIT as i64);
    assert_eq!(top[1].vector_index, 0);
    assert!((top[1].similarity - 894_427_191).abs() < 100);
    assert_eq!(top[2].vector_index, 2);
    assert!((top[2].similarity - 600_000_000).abs() < 100);
}

#[test]
fn cosine_scores_lie_between_minus_one_and_one() {
    let vectors = [[1.0f32, 2.0, 3.0], [-1.0, -2.0, -3.0], [0.5, -0.25, 4.0], [1e-3, 1e3, 7.0]];
    for a in &vectors {
        assert!((cosine(a, a) - 1.0).abs() < 1e-6);
        for b in &vectors {
            let c = cosine(a, b);
            assert!(c >= -1.0 - 1e-6 && c <= 1.0 + 1e-6);
            assert!(score(c).abs() <= SCORE_UNIT as i64 + 1000);
        }
    }
}

#[test]
fn the_final_score_adds_the_weighted_text_similarity() {
    assert_eq!(TEXT_SIMILARITY_FACTOR, 222_870_000);
    assert_eq!(final_score(500_000_000, SCORE_UNIT, TEXT_SIMILARITY_FACTOR), 722_870_000);
    assert_eq!(final_score(500_000_000, 400_000_000, TEXT_SIMILARITY_FACTOR), 589_148_000);
    assert_eq!(final_score(500_000_000, 400_000_000, SCORE_UNIT), 900_000_000);
    assert_eq!(final_score(-250_000_000, 833_333_333, 0), -250_000_000);
    assert_eq!(final_score(7, 1, 1), 7);
    assert_eq!(
        final_score(i64::MAX, u64::MAX, u64::MAX),
        i64::MAX as i128 + ((u64::MAX as u128 * u64::MAX as u128) / 1_000_000_000) as i128
    );
    assert_eq!(final_score(i64::MIN, 0, u64::MAX), i64::MIN as i128);
}

#[test]
fn the_text_decides_between_close_candidates() {
    let candidates = vec![
        (matched(0, 4, 1, 800_000_000), "nothing in common".to_string()),
        (matched(2, 9, 5, 790_000_000), "query".to_string()),
        (matched(1, 1, 0, 100_000_000), "query".to_string()),
    ];
    let best = rerank(&candidates, "query", TEXT_SIMILARITY_FACTOR).unwrap();
    assert_eq!((best.index, best.len, best.vector_index), (2, 9, 5));
    assert_eq!(best.similarity, 790_000_000);
    let by_cosine = rerank(&candidates, "query", 0).unwrap();
    assert_eq!((by_cosine.index, by_cosine.vector_index), (0, 1));
    let by_text = rerank(&candidates[..1].to_vec(), "query", SCORE_UNIT).unwrap();
    assert_eq!(by_text.index, 0);
}

#[test]
fn of_equal_final_scores_the_first_wins() {
    let candidates = vec![
        (matched(3, 2, 0, 10), "same".to_string()),
        (matched(4, 2, 1, 10), "same".to_string()),
    ];
    let best = rerank(&candidates, "same", SCORE_UNIT).unwrap();
    assert_eq!(best.index, 3);
}

#[test]
fn no_candidate_gives_no_match() {
    assert!(rerank(&Vec::new(), "query", SCORE_UNIT).is_none());
    assert!(match_final(&Vec::new(), "query", SCORE_UNIT).is_none());
}

#[test]
fn stored_texts_are_decoded_before_they_are_compared() {
    let top_n = vec![
        (matched(0, 2, 0, 500_000_000), "wrong".as_bytes().to_vec()),
        (matched(0, 2, 1, 500_000_000), "это запрос".as_bytes().to_vec()),
    ];
    let best = match_final(&top_n, "это запрос", TEXT_SIMILARITY_FACTOR).unwrap();
    assert_eq!(best.vector_index, 1);
    let lossy = vec![(matched(5, 1, 0, 1), vec![0xff, 0xfe])];
    assert_eq!(match_final(&lossy, "q", 1).unwrap().index, 5);
}
