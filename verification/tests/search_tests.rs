use rugst::search::{
    age_seconds, fuse_rankings, rank_descending, rank_scores_descending, score_order_key,
    select_ranked, select_top_scores, Occurrence,
};

fn key(x: f32) -> Option<i64> {
    score_order_key(x.to_bits())
}

#[test]
fn score_order_key_follows_float_order() {
    let xs = [f32::NEG_INFINITY, -3.0, -0.5, 0.0, 1e-30, 0.5, 1.0, 2.0, f32::INFINITY];
    for w in xs.windows(2) {
        assert!(key(w[0]).unwrap() < key(w[1]).unwrap());
    }
    assert_eq!(key(0.0), key(-0.0));
    assert_eq!(key(0.0), Some(0));
    assert_eq!(key(f32::NAN), None);
}

#[test]
fn rank_descending_is_stable() {
    let order = rank_descending(&vec![3, 7, 3, 9, 7]);
    assert_eq!(order, vec![3, 1, 4, 0, 2]);
    assert!(rank_descending(&vec![]).is_empty());
}

#[test]
fn select_ranked_applies_threshold_and_top_k() {
    let keys = vec![Some(5), None, Some(1), Some(9), Some(5), Some(3)];
    assert_eq!(select_ranked(&keys, Some(3), 10), vec![3, 0, 4, 5]);
    assert_eq!(select_ranked(&keys, Some(3), 2), vec![3, 0]);
    assert_eq!(select_ranked(&keys, None, 10), Vec::<usize>::new());
    assert_eq!(select_ranked(&keys, Some(0), 0), Vec::<usize>::new());
}

#[test]
fn select_top_scores_recent_before_old() {
    // Same similarity, the old one decayed to a quarter.
    let scores = vec![0.25f32.to_bits(), 1.0f32.to_bits()];
    assert_eq!(select_top_scores(&scores, 0.0f32.to_bits(), 2), vec![1, 0]);
}

#[test]
fn select_top_scores_respects_min_score() {
    let scores = vec![0.0f32.to_bits(), 0.6f32.to_bits(), 0.5f32.to_bits(), f32::NAN.to_bits()];
    assert_eq!(select_top_scores(&scores, 0.5f32.to_bits(), 5), vec![1, 2]);
    assert!(select_top_scores(&scores, f32::NAN.to_bits(), 5).is_empty());
    assert_eq!(select_top_scores(&scores, (-0.0f32).to_bits(), 5), vec![1, 2, 0]);
}

#[test]
fn rank_scores_descending_puts_nan_last() {
    let scores = vec![
        0.5f32.to_bits(),
        f32::NAN.to_bits(),
        0.9f32.to_bits(),
        (-0.1f32).to_bits(),
        0.5f32.to_bits(),
    ];
    assert_eq!(rank_scores_descending(&scores), vec![2, 0, 4, 3, 1]);
}

#[test]
fn fuse_rankings_merges_both_lists() {
    let fused = fuse_rankings(&vec![1, 3], &vec![2, 3]);
    let ids: Vec<i64> = fused.iter().map(|e| e.id).collect();
    assert_eq!(ids, vec![1, 3, 2]);
    assert_eq!(fused[0].vector_ranks, vec![0]);
    assert!(fused[0].keyword_ranks.is_empty());
    assert_eq!(fused[1].vector_ranks, vec![1]);
    assert_eq!(fused[1].keyword_ranks, vec![1]);
    assert!(fused[2].vector_ranks.is_empty());
    assert_eq!(fused[2].keyword_ranks, vec![0]);
    assert_eq!(fused[1].first_occurrence(), Occurrence::Vector(1));
    assert_eq!(fused[2].first_occurrence(), Occurrence::Keyword(0));
}

#[test]
fn fuse_rankings_collects_repeated_ids() {
    let fused = fuse_rankings(&vec![4, 4, 5], &vec![5, 4]);
    assert_eq!(fused.len(), 2);
    assert_eq!(fused[0].id, 4);
    assert_eq!(fused[0].vector_ranks, vec![0, 1]);
    assert_eq!(fused[0].keyword_ranks, vec![1]);
    assert_eq!(fused[1].id, 5);
    assert_eq!(fused[1].vector_ranks, vec![2]);
    assert_eq!(fused[1].keyword_ranks, vec![0]);
    assert!(fuse_rankings(&vec![], &vec![]).is_empty());
}

#[test]
fn age_seconds_is_never_negative() {
    assert_eq!(age_seconds(1_000, 400), 600);
    assert_eq!(age_seconds(1_000, 1_000), 0);
    assert_eq!(age_seconds(1_000, 5_000), 0);
}

#[test]
fn selection_is_prefix_of_full_ranking() {
    let values = vec![4, -2, 9, 4, 0, 9, 1];
    let keys: Vec<Option<i64>> = values.iter().map(|v| Some(*v)).collect();
    let full = rank_descending(&values);
    for k in 0..=values.len() + 1 {
        let picked = select_ranked(&keys, Some(i64::MIN), k);
        let n = k.min(values.len());
        assert_eq!(picked, full[..n].to_vec());
    }
}

#[test]
fn ranking_is_determined_by_keys() {
    let values = vec![2, 2, 2, 1, 3];
    assert_eq!(rank_descending(&values), vec![4, 0, 1, 2, 3]);
    assert_eq!(rank_descending(&values), rank_descending(&values.clone()));
}

#[test]
fn selection_length_is_min_of_top_k_and_passing() {
    let keys = vec![Some(5), None, Some(1), Some(9), Some(5), Some(3)];
    // Passing 3: indices 0, 3, 4, 5.
    assert_eq!(select_ranked(&keys, Some(3), 2).len(), 2);
    assert_eq!(select_ranked(&keys, Some(3), 4).len(), 4);
    assert_eq!(select_ranked(&keys, Some(3), 9).len(), 4);
}
