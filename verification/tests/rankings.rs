use nomai_core::fusion::{fused_ranks, rrf_fuse, Fused};
use nomai_core::ids::{parse_id, Id};

/// Reciprocal rank fusion of two rankings, the larger weight counting more.
fn fuse(fulltext: &[Id], semantic: &[Id], weights: [f64; 2], top: usize) -> Vec<Fused> {
    let scored: Vec<(Id, u32)> = fused_ranks(&fulltext.to_vec(), &semantic.to_vec())
        .iter()
        .map(|r| {
            let sum = |ranks: &Vec<u64>, weight: f64| {
                ranks.iter().map(|k| weight / (60.0 + *k as f64)).sum::<f64>()
            };
            let score = sum(&r.fulltext, weights[0]) + sum(&r.semantic, weights[1]);
            (r.id, (score as f32).to_bits())
        })
        .collect();
    rrf_fuse(&scored, &fulltext.to_vec(), top)
}

fn a() -> Id {
    parse_id("01ARZ3NDEKTSV4RRFFQ69G5FAV").unwrap()
}

fn b() -> Id {
    parse_id("01ARZ3NDEKTSV4RRFFQ69G5FBW").unwrap()
}

#[test]
fn rrf_fuse_empty_inputs_returns_empty() {
    assert!(fuse(&[], &[], [1.0, 1.0], 10).is_empty());
}

#[test]
fn rrf_fuse_single_list_returns_ranked() {
    // Only fulltext has results; semantic empty
    let result = fuse(&[a(), b()], &[], [1.0, 1.0], 10);
    assert_eq!(result.len(), 2);
    assert_eq!(result[0].id, a());
    assert_eq!(result[1].id, b());
    assert!(f32::from_bits(result[0].score) > f32::from_bits(result[1].score));
}

#[test]
fn rrf_fuse_both_lists_with_overlap() {
    let result = fuse(&[a(), b()], &[b(), a()], [1.0, 1.0], 10);
    // Both entries appear in both lists => symmetric fusion scores
    assert_eq!(result.len(), 2);
    let expected_score = (1.0 / 61.0 + 1.0 / 62.0) as f32;
    let eps = 1e-6_f32;
    for r in &result {
        let score = f32::from_bits(r.score);
        assert!((score - expected_score).abs() < eps, "score {score} != {expected_score}");
    }
    // Tie-breaking: A has ft_rank=1, B has ft_rank=2 => A comes first
    assert_eq!(result[0].id, a());
    assert_eq!(result[1].id, b());
}

#[test]
fn rrf_fuse_unequal_weights() {
    // fulltext_weight=2.0, semantic_weight=0.5 => fulltext dominates
    let result = fuse(&[a(), b()], &[b(), a()], [2.0, 0.5], 10);
    assert_eq!(result[0].id, a());
}

#[test]
fn rrf_fuse_respects_top_n() {
    let ids: Vec<Id> = (1..=10).collect();
    let result = fuse(&ids, &[], [1.0, 1.0], 3);
    assert_eq!(result.len(), 3);
}

#[test]
fn places_count_from_one() {
    let ranks = fused_ranks(&vec![7, 8], &vec![8]);
    assert_eq!(ranks.len(), 2);
    assert_eq!((ranks[1].id, ranks[1].fulltext.clone(), ranks[1].semantic.clone()), (8, vec![2], vec![1]));
}
