use astrum_memory::fbits::count_bits;
use astrum_memory::ids::format_hex16;
use astrum_memory::linking::{lsh_candidate_pairs, lsh_plan, sign_hash};
use astrum_memory::vector_index::{dimension_error_message, top_k_positions, Int8VectorIndex, SimpleVectorIndex, CAPI_INDEX_KIND};

fn bits(v: &[f32]) -> Vec<u32> {
    v.iter().map(|x| x.to_bits()).collect()
}

fn cosine(a: &[f32], b: &[f32]) -> f32 {
    if a.len() != b.len() || a.is_empty() {
        return 0.0;
    }
    let (mut dot, mut na, mut nb) = (0.0f32, 0.0f32, 0.0f32);
    for i in 0..a.len() {
        dot += a[i] * b[i];
        na += a[i] * a[i];
        nb += b[i] * b[i];
    }
    if na <= 0.0 || nb <= 0.0 {
        return 0.0;
    }
    (dot / (na.sqrt() * nb.sqrt())).clamp(-1.0, 1.0)
}

fn quantize(x: &[f32]) -> (Vec<i8>, f32) {
    let m = x.iter().fold(0.0f32, |a, &v| a.max(v.abs()));
    let scale = if m > 0.0 { m / 127.0 } else { 1.0 };
    (x.iter().map(|&v| (v / scale).round().clamp(-127.0, 127.0) as i8).collect(), scale)
}

fn int8_score(codes: &[i8], query: &[f32]) -> f32 {
    let norm_q = query.iter().map(|x| x * x).sum::<f32>().sqrt();
    let (mut dot, mut nc) = (0.0f32, 0.0f32);
    for j in 0..codes.len() {
        let c = codes[j] as f32;
        dot += c * query[j];
        nc += c * c;
    }
    let nc = nc.sqrt();
    if nc <= 0.0 {
        0.0
    } else {
        (dot / (norm_q * nc)).clamp(-1.0, 1.0)
    }
}

#[test]
fn test_vector_index_search() {
    let mut index = SimpleVectorIndex::new(3);
    index.insert("node_a".to_string(), bits(&[1.0, 0.0, 0.0])).unwrap();
    index.insert("node_b".to_string(), bits(&[0.8, 0.2, 0.0])).unwrap();
    index.insert("node_c".to_string(), bits(&[0.0, 1.0, 0.0])).unwrap();

    let query = vec![1.0f32, 0.0, 0.0];
    let scores: Vec<u32> = index
        .entries()
        .iter()
        .map(|(_, v)| cosine(&query, &v.iter().map(|b| f32::from_bits(*b)).collect::<Vec<_>>()).to_bits())
        .collect();
    let hits = index.search_with_scores(query.len(), &scores, 2);

    assert_eq!(hits.len(), 2);
    assert_eq!(hits[0].node_id, "node_a");
    assert_eq!(f32::from_bits(hits[0].score), 1.0);
    assert_eq!(hits[1].node_id, "node_b");
}

#[test]
fn search_guards_return_nothing() {
    let mut index = SimpleVectorIndex::new(2);
    let scores: Vec<u32> = vec![];
    assert!(index.search_with_scores(2, &scores, 3).is_empty());
    index.insert("a".into(), bits(&[1.0, 0.0])).unwrap();
    let scores = vec![1.0f32.to_bits()];
    assert!(index.search_with_scores(3, &scores, 3).is_empty()); // wrong query length
    assert!(index.search_with_scores(2, &scores, 0).is_empty()); // top_k 0
    assert_eq!(index.search_with_scores(2, &scores, 3).len(), 1);
}

#[test]
fn top_k_is_stable_on_ties() {
    let scores = bits(&[0.5, 0.9, 0.5, 0.9, 0.1]);
    assert_eq!(top_k_positions(&scores, 3), vec![1, 3, 0]);
    assert_eq!(top_k_positions(&scores, 10), vec![1, 3, 0, 2, 4]);
}

#[test]
fn dimension_mismatch_is_refused_with_a_message() {
    let mut index = SimpleVectorIndex::new(3);
    let err = index.insert("x".into(), bits(&[1.0, 0.0])).unwrap_err();
    assert_eq!(err, "Embedding dimension mismatch: expected 3, got 2");
    assert_eq!(index.len(), 0);
    assert!(index.is_empty());
    assert_eq!(dimension_error_message(1234, 0), "Embedding dimension mismatch: expected 1234, got 0");
    assert_eq!(index.dimension(), 3);
}

#[test]
fn retain_ids_drops_the_others_in_order() {
    let mut index = SimpleVectorIndex::new(1);
    for id in ["a", "b", "c", "b"] {
        index.insert(id.into(), bits(&[1.0])).unwrap();
    }
    let removed = index.retain_ids(&["b".to_string(), "z".to_string()]);
    assert_eq!(removed, 2);
    assert_eq!(index.ids(), vec!["b".to_string(), "b".to_string()]);
}

#[test]
fn test_int8_index_preserves_ranking() {
    let mut idx = Int8VectorIndex::new(3);
    let mut stored: Vec<(String, Vec<i8>)> = Vec::new();
    for (id, v) in [("a", [1.0f32, 0.0, 0.0]), ("b", [0.8, 0.2, 0.0]), ("c", [0.0, 1.0, 0.0])] {
        let (codes, scale) = quantize(&v);
        idx.insert_quantized(id.to_string(), codes.clone(), scale.to_bits()).unwrap();
        stored.push((id.to_string(), codes));
    }

    let query = [1.0f32, 0.0, 0.0];
    let scores: Vec<u32> = stored.iter().map(|(_, c)| int8_score(c, &query).to_bits()).collect();
    let hits = idx.search_with_scores(query.len(), &scores, 3);
    assert_eq!(hits.len(), 3);
    // Same ranking as the f32 index; [1,0,0] round-trips exactly -> score 1.0.
    assert_eq!(hits[0].node_id, "a");
    assert!((f32::from_bits(hits[0].score) - 1.0).abs() < 1e-4);
    assert_eq!(hits[1].node_id, "b");
    assert_eq!(hits[2].node_id, "c");
    // Dimension guard.
    let (codes, scale) = quantize(&[1.0, 0.0]);
    assert!(idx.insert_quantized("bad".to_string(), codes, scale.to_bits()).is_err());
    assert_eq!(idx.len(), 3);
    assert_eq!(idx.retain_ids(&["c".to_string()]), 2);
    assert_eq!(idx.ids(), vec!["c".to_string()]);
}

#[test]
fn sign_hash_sets_a_bit_per_nonnegative_projection() {
    assert_eq!(sign_hash(&[]), 0);
    assert_eq!(sign_hash(&bits(&[1.0, -1.0, 0.0, -0.0])), 0b1101);
    assert_eq!(sign_hash(&bits(&[f32::NAN, 2.0])), 0b10);
    let all = vec![0.5f32.to_bits(); 63];
    assert_eq!(sign_hash(&all), (1u64 << 63) - 1);
}

#[test]
fn lsh_candidates_union_tables_in_order() {
    let tables = vec![vec![1u64, 2, 1, 3], vec![7u64, 7, 8, 8]];
    assert_eq!(lsh_candidate_pairs(&tables, 4), vec![(0, 1), (0, 2), (2, 3)]);
    let none: Vec<Vec<u64>> = vec![];
    assert!(lsh_candidate_pairs(&none, 4).is_empty());
}

#[test]
fn count_bits_matches_the_float_conversion() {
    for n in [0u64, 1, 2, 3, 7, 255, 1 << 24, (1 << 24) + 1, (1 << 25) + 3, u64::MAX, 123_456_789_012, 0x8000_0000_0000_0001] {
        assert_eq!(count_bits(n), (n as f32).to_bits(), "n = {n}");
    }
}

#[test]
fn capi_backend_is_f32() {
    assert_eq!(CAPI_INDEX_KIND, "f32");
}

#[test]
fn lsh_plan_caps_planes_and_tables() {
    assert_eq!(lsh_plan(0, 12, 3), None);
    assert_eq!(lsh_plan(5, 12, 0), Some((12, 1)));
    assert_eq!(lsh_plan(5, 100, 4), Some((63, 4)));
}

#[test]
fn hex_ids_are_sixteen_padded_digits() {
    for z in [0u64, 1, 0xabc, u64::MAX, 0x0123_4567_89ab_cdef] {
        assert_eq!(format_hex16(z), format!("{:016x}", z));
    }
}
