use mdrag::ranking::{candidate_count, top_k};

#[test]
fn best_first_ties_in_order() {
    let scores = vec![3u32, 7, 3, 9, 7];
    assert_eq!(top_k(&scores, 5), vec![3, 1, 4, 0, 2]);
    assert_eq!(top_k(&scores, 2), vec![3, 1]);
    assert_eq!(top_k(&scores, 3), vec![3, 1, 4]);
}

#[test]
fn asking_for_more_than_there_are() {
    let scores = vec![1u32, 2];
    assert_eq!(top_k(&scores, 10), vec![1, 0]);
}

#[test]
fn nothing_asked_or_nothing_there() {
    assert_eq!(top_k(&vec![5u32, 6], 0), Vec::<usize>::new());
    assert_eq!(top_k(&Vec::<u32>::new(), 4), Vec::<usize>::new());
}

#[test]
fn all_equal_keeps_original_order() {
    let scores = vec![4u32; 6];
    assert_eq!(top_k(&scores, 4), vec![0, 1, 2, 3]);
}

#[test]
fn ranking_matches_stable_sort() {
    let scores: Vec<u32> = (0..40u32).map(|i| (i * 7919) % 13).collect();
    let mut idx: Vec<usize> = (0..scores.len()).collect();
    idx.sort_by(|a, b| scores[*b].cmp(&scores[*a]));
    for k in [0usize, 1, 5, 20, 40, 50] {
        let want: Vec<usize> = idx.iter().copied().take(k).collect();
        assert_eq!(top_k(&scores, k), want);
    }
}

#[test]
fn candidates_fetched_before_reranking() {
    assert_eq!(candidate_count(5, 3), Some(15));
    assert_eq!(candidate_count(0, 7), Some(0));
    assert_eq!(candidate_count(usize::MAX, 2), None);
}
