use astrum_memory::fround::{add_nonneg, sub_nonneg};
use astrum_memory::vector_index::top_k_positions;
use astrum_memory::linking::lsh_candidate_pairs;

fn add(a: f32, b: f32) -> f32 {
    f32::from_bits(add_nonneg(a.to_bits(), b.to_bits()))
}

fn sub(a: f32, b: f32) -> f32 {
    f32::from_bits(sub_nonneg(a.to_bits(), b.to_bits()))
}

#[test]
fn addition_matches_single_precision() {
    let cases: [(f32, f32); 10] = [
        (0.45, 0.15),
        (0.0, 0.15),
        (0.6, 0.15),
        (1.0, 0.15),
        (0.1, 0.2),
        (1e-30, 0.15),
        (1.0e-45, 1.0e-45),
        (1.1754942e-38, 1.0e-45),
        (0.33333334, 0.6666667),
        (1.9999999, 1.9999999),
    ];
    for (a, b) in cases {
        assert_eq!(add(a, b).to_bits(), (a + b).to_bits(), "{a} + {b}");
        assert_eq!(add(b, a).to_bits(), (a + b).to_bits(), "{b} + {a}");
    }
}

#[test]
fn addition_rounds_ties_to_even() {
    // 1 + 2^-24 is half way between 1 and the next value: it rounds to 1 (even)
    let half_ulp = f32::from_bits(0x3380_0000);
    assert_eq!(add(1.0, half_ulp), 1.0);
    // 1 + 3 * 2^-24 is half way between two neighbours: it rounds up to the even one
    let next = f32::from_bits(0x3f80_0001);
    assert_eq!(add(next, half_ulp).to_bits(), (next + half_ulp).to_bits());
    assert_eq!(add(next, half_ulp).to_bits(), 0x3f80_0002);
}

#[test]
fn subtraction_matches_single_precision() {
    let cases: [(f32, f32); 6] = [(0.6, 0.2), (0.45, 0.2), (0.2000001, 0.2), (1.0, 0.2), (0.40000004, 0.2), (1.5, 1.0e-9)];
    for (a, b) in cases {
        assert_eq!(sub(a, b).to_bits(), (a - b).to_bits(), "{a} - {b}");
    }
    // confirm then reject from 0.45 leaves 0.40000004, not 0.40
    let after = sub(add(0.45, 0.15), 0.2);
    assert_eq!(after.to_bits(), ((0.45f32 + 0.15f32) - 0.2f32).to_bits());
    assert_ne!(after.to_bits(), 0.40f32.to_bits());
}

#[test]
fn nan_scores_enter_the_shortlist_first() {
    let s = vec![0.3f32.to_bits(), f32::NAN.to_bits(), 0.5f32.to_bits()];
    // 0.3 alone; NaN goes in front of it; 0.5 stops at the NaN, the first entry it does not trail
    assert_eq!(top_k_positions(&s, 3), vec![2, 1, 0]);
    assert_eq!(top_k_positions(&s, 1), vec![2]);
    let t = vec![f32::NAN.to_bits(), 0.9f32.to_bits(), f32::NAN.to_bits()];
    assert_eq!(top_k_positions(&t, 2), vec![2, 1]);
}

#[test]
fn bucketed_candidates_are_the_pairs_sharing_a_bucket() {
    // table 0 buckets {0, 2, 4} and {1, 3}; table 1 buckets {0, 1} and the rest alone
    let tables = vec![vec![7, 9, 7, 9, 7], vec![1, 1, 2, 3, 4]];
    assert_eq!(lsh_candidate_pairs(&tables, 5), vec![(0, 1), (0, 2), (0, 4), (1, 3), (2, 4)]);
    // no tables: no candidates
    assert_eq!(lsh_candidate_pairs(&Vec::new(), 5), vec![]);
    // one bucket: every pair once
    assert_eq!(lsh_candidate_pairs(&vec![vec![5, 5, 5]], 3), vec![(0, 1), (0, 2), (1, 2)]);
}
