use idbvec::hnsw::HNSWIndex;
use idbvec::metric::{DistanceKernel, DistanceMetric};

/// Floating-point distances for the tests, over IEEE-754 bit patterns.
struct Kernel;

fn floats(v: &[u32]) -> Vec<f32> {
    v.iter().map(|x| f32::from_bits(*x)).collect()
}

impl DistanceKernel for Kernel {
    fn squared_euclidean(&self, a: &Vec<u32>, b: &Vec<u32>) -> u32 {
        let (a, b) = (floats(a), floats(b));
        a.iter().zip(b.iter()).map(|(x, y)| (x - y) * (x - y)).sum::<f32>().to_bits()
    }

    fn cosine_distance(&self, a: &Vec<u32>, b: &Vec<u32>) -> u32 {
        let (a, b) = (floats(a), floats(b));
        let dot: f32 = a.iter().zip(b.iter()).map(|(x, y)| x * y).sum();
        let na = a.iter().map(|x| x * x).sum::<f32>().sqrt();
        let nb = b.iter().map(|x| x * x).sum::<f32>().sqrt();
        let sim = if na == 0.0 || nb == 0.0 { 0.0 } else { dot / (na * nb) };
        (1.0 - sim).to_bits()
    }

    fn dot(&self, a: &Vec<u32>, b: &Vec<u32>) -> u32 {
        let (a, b) = (floats(a), floats(b));
        a.iter().zip(b.iter()).map(|(x, y)| x * y).sum::<f32>().to_bits()
    }

    fn sqrt(&self, x: u32) -> u32 {
        f32::from_bits(x).sqrt().to_bits()
    }
}

fn bits(v: &[f32]) -> Vec<u32> {
    v.iter().map(|x| x.to_bits()).collect()
}

fn make_vec(dims: usize, seed: u64) -> Vec<u32> {
    let mut rng = seed;
    let v: Vec<f32> = (0..dims)
        .map(|_| {
            rng = rng.wrapping_mul(1103515245).wrapping_add(12345);
            ((rng / 65536) % 32768) as f32 / 32768.0
        })
        .collect();
    bits(&v)
}

fn search(idx: &HNSWIndex, q: &[f32], k: usize, ef: usize) -> Vec<(String, f32)> {
    idx.search(&Kernel, &bits(q), k, ef)
        .into_iter()
        .map(|(id, d)| (id, f32::from_bits(d)))
        .collect()
}

fn index3() -> HNSWIndex {
    HNSWIndex::new(3, 16, 200, DistanceMetric::Euclidean)
}

#[test]
fn new_creates_empty_index() {
    let idx = HNSWIndex::new(128, 16, 200, DistanceMetric::Euclidean);
    assert_eq!(idx.dimensions, 128);
    assert_eq!(idx.m(), 16);
    assert_eq!(idx.ef_construction(), 200);
    assert_eq!(idx.metric, DistanceMetric::Euclidean);
    assert!(idx.entry_point().is_none());
    assert_eq!(idx.node_count(), 0);
}

#[test]
fn first_insert_sets_entry_point() {
    let mut idx = index3();
    idx.insert(&Kernel, "a".into(), bits(&[1.0, 0.0, 0.0]));
    assert_eq!(idx.entry_point(), Some("a".to_string()));
    assert_eq!(idx.node_count(), 1);
}

#[test]
fn size_tracking_after_insertions() {
    let mut idx = index3();
    for i in 0..10 {
        idx.insert(&Kernel, format!("v{}", i), make_vec(3, i as u64));
    }
    assert_eq!(idx.node_count(), 10);
}

#[test]
fn insert_one_search_finds_it() {
    let mut idx = index3();
    let v = [1.0, 0.0, 0.0];
    idx.insert(&Kernel, "a".into(), bits(&v));
    let results = search(&idx, &v, 1, 50);
    assert_eq!(results.len(), 1);
    assert_eq!(results[0].0, "a");
    assert!(results[0].1 < 1e-6);
}

#[test]
fn insert_two_search_returns_correct_order() {
    let mut idx = index3();
    let close = [1.0, 0.0, 0.0];
    idx.insert(&Kernel, "close".into(), bits(&close));
    idx.insert(&Kernel, "far".into(), bits(&[10.0, 10.0, 10.0]));
    let results = search(&idx, &close, 2, 50);
    assert_eq!(results.len(), 2);
    assert_eq!(results[0].0, "close");
    assert!(results[0].1 < results[1].1);
}

#[test]
fn search_returns_k_sorted_by_distance() {
    let mut idx = index3();
    for i in 0..15 {
        idx.insert(&Kernel, format!("v{}", i), make_vec(3, i as u64 * 7 + 42));
    }
    let query = floats(&make_vec(3, 999));
    let results = search(&idx, &query, 5, 50);
    assert_eq!(results.len(), 5);
    for w in results.windows(2) {
        assert!(w[0].1 <= w[1].1);
    }
}

#[test]
fn search_k_greater_than_size_returns_all() {
    let mut idx = index3();
    idx.insert(&Kernel, "a".into(), bits(&[1.0, 0.0, 0.0]));
    idx.insert(&Kernel, "b".into(), bits(&[0.0, 1.0, 0.0]));
    let results = search(&idx, &[0.5, 0.5, 0.0], 100, 200);
    assert_eq!(results.len(), 2);
}

#[test]
fn search_empty_index_returns_empty() {
    let idx = index3();
    let results = search(&idx, &[1.0, 0.0, 0.0], 5, 50);
    assert!(results.is_empty());
}

#[test]
fn search_finds_true_nearest_neighbor() {
    let mut idx = index3();
    idx.insert(&Kernel, "nearest".into(), bits(&[5.1, 5.1, 5.1]));
    idx.insert(&Kernel, "far1".into(), bits(&[100.0, 0.0, 0.0]));
    idx.insert(&Kernel, "far2".into(), bits(&[0.0, 100.0, 0.0]));
    let results = search(&idx, &[5.0, 5.0, 5.0], 1, 50);
    assert_eq!(results[0].0, "nearest");
}

#[test]
fn cluster_search_finds_cluster_before_outlier() {
    let mut idx = index3();
    idx.insert(&Kernel, "c0".into(), bits(&[0.1, 0.1, 0.1]));
    idx.insert(&Kernel, "c1".into(), bits(&[0.2, 0.0, 0.1]));
    idx.insert(&Kernel, "c2".into(), bits(&[0.0, 0.2, 0.1]));
    idx.insert(&Kernel, "outlier".into(), bits(&[50.0, 50.0, 50.0]));
    let results = search(&idx, &[0.0, 0.0, 0.0], 4, 50);
    let outlier_pos = results.iter().position(|(id, _)| id == "outlier").unwrap();
    assert_eq!(outlier_pos, 3);
}

#[test]
fn insert_wrong_dimension_is_ignored() {
    let mut idx = index3();
    idx.insert(&Kernel, "good".into(), bits(&[1.0, 0.0, 0.0]));
    idx.insert(&Kernel, "bad".into(), bits(&[1.0, 0.0]));
    assert_eq!(idx.node_count(), 1);
    assert!(!idx.contains("bad"));
}

#[test]
fn delete_existing_returns_true() {
    let mut idx = index3();
    idx.insert(&Kernel, "a".into(), bits(&[1.0, 0.0, 0.0]));
    assert!(idx.delete("a"));
    assert_eq!(idx.node_count(), 0);
}

#[test]
fn delete_nonexistent_returns_false() {
    let mut idx = index3();
    assert!(!idx.delete("nope"));
}

#[test]
fn delete_entry_point_search_still_works() {
    let mut idx = index3();
    idx.insert(&Kernel, "a".into(), bits(&[1.0, 0.0, 0.0]));
    idx.insert(&Kernel, "b".into(), bits(&[0.0, 1.0, 0.0]));
    idx.insert(&Kernel, "c".into(), bits(&[0.0, 0.0, 1.0]));
    let entry = idx.entry_point().unwrap();
    idx.delete(&entry);
    let results = search(&idx, &[0.5, 0.5, 0.0], 2, 50);
    assert!(!results.is_empty());
    for (id, _) in &results {
        assert_ne!(id, &entry);
    }
}

#[test]
fn delete_all_vectors_empties_index() {
    let mut idx = index3();
    idx.insert(&Kernel, "a".into(), bits(&[1.0, 0.0, 0.0]));
    idx.insert(&Kernel, "b".into(), bits(&[0.0, 1.0, 0.0]));
    idx.delete("a");
    idx.delete("b");
    assert_eq!(idx.node_count(), 0);
    let results = search(&idx, &[1.0, 0.0, 0.0], 5, 50);
    assert!(results.is_empty());
}

#[test]
fn insert_delete_reinsert_same_id() {
    let mut idx = index3();
    idx.insert(&Kernel, "a".into(), bits(&[1.0, 0.0, 0.0]));
    idx.delete("a");
    idx.insert(&Kernel, "a".into(), bits(&[0.0, 1.0, 0.0]));
    assert_eq!(idx.node_count(), 1);
    let results = search(&idx, &[0.0, 1.0, 0.0], 1, 50);
    assert_eq!(results[0].0, "a");
}

#[test]
fn serialize_deserialize_preserves_search_results() {
    let mut idx = index3();
    idx.insert(&Kernel, "a".into(), bits(&[1.0, 0.0, 0.0]));
    idx.insert(&Kernel, "b".into(), bits(&[0.0, 1.0, 0.0]));
    idx.insert(&Kernel, "c".into(), bits(&[0.0, 0.0, 1.0]));
    let query = [0.9, 0.1, 0.0];
    let results_before = search(&idx, &query, 3, 50);
    let idx2 = HNSWIndex::from_parts(&idx.to_parts()).unwrap();
    let results_after = search(&idx2, &query, 3, 50);
    assert_eq!(results_before.len(), results_after.len());
    for (a, b) in results_before.iter().zip(results_after.iter()) {
        assert_eq!(a.0, b.0);
        assert!((a.1 - b.1).abs() < 1e-6);
    }
}

#[test]
fn serialize_empty_index() {
    let idx = HNSWIndex::new(128, 16, 200, DistanceMetric::Euclidean);
    let idx2 = HNSWIndex::from_parts(&idx.to_parts()).unwrap();
    assert!(idx2.entry_point().is_none());
    assert_eq!(idx2.node_count(), 0);
    assert_eq!(idx2.dimensions, 128);
}

#[test]
fn serialize_after_deletions() {
    let mut idx = index3();
    idx.insert(&Kernel, "a".into(), bits(&[1.0, 0.0, 0.0]));
    idx.insert(&Kernel, "b".into(), bits(&[0.0, 1.0, 0.0]));
    idx.insert(&Kernel, "c".into(), bits(&[0.0, 0.0, 1.0]));
    idx.delete("b");
    let idx2 = HNSWIndex::from_parts(&idx.to_parts()).unwrap();
    assert_eq!(idx2.node_count(), 2);
    assert!(!idx2.contains("b"));
    let results = search(&idx2, &[1.0, 0.0, 0.0], 2, 50);
    assert_eq!(results.len(), 2);
}

#[test]
fn connections_are_bidirectional_within_shared_layers() {
    let mut idx = index3();
    for i in 0..10 {
        idx.insert(&Kernel, format!("v{}", i), make_vec(3, i as u64 * 13 + 1));
    }
    let parts = idx.to_parts();
    for node in &parts.nodes {
        for (layer, neighbors) in node.connections.iter().enumerate() {
            for neighbor_id in neighbors {
                let neighbor = parts.nodes.iter().find(|n| &n.id == neighbor_id).unwrap();
                if layer < neighbor.connections.len() {
                    assert!(
                        neighbor.connections[layer].contains(&node.id),
                        "Missing reverse connection: {} -> {} at layer {}",
                        neighbor_id,
                        node.id,
                        layer
                    );
                }
            }
        }
    }
}

#[test]
fn no_dangling_references_after_delete() {
    let mut idx = index3();
    for i in 0..10 {
        idx.insert(&Kernel, format!("v{}", i), make_vec(3, i as u64 * 7 + 3));
    }
    idx.delete("v5");
    let parts = idx.to_parts();
    for node in &parts.nodes {
        for neighbors in &node.connections {
            assert!(!neighbors.contains(&"v5".to_string()), "Dangling reference to deleted node v5");
        }
    }
}

#[test]
fn large_ef_does_not_panic() {
    let mut idx = index3();
    idx.insert(&Kernel, "a".into(), bits(&[1.0, 0.0, 0.0]));
    let results = search(&idx, &[1.0, 0.0, 0.0], 1, 10000);
    assert_eq!(results.len(), 1);
}

#[test]
fn k_zero_returns_empty() {
    let mut idx = index3();
    idx.insert(&Kernel, "a".into(), bits(&[1.0, 0.0, 0.0]));
    let results = search(&idx, &[1.0, 0.0, 0.0], 0, 50);
    assert!(results.is_empty());
}

#[test]
fn cosine_metric_returns_correct_order() {
    let mut idx = HNSWIndex::new(3, 16, 200, DistanceMetric::Cosine);
    idx.insert(&Kernel, "same_dir".into(), bits(&[2.0, 0.0, 0.0]));
    idx.insert(&Kernel, "ortho".into(), bits(&[0.0, 1.0, 0.0]));
    idx.insert(&Kernel, "opposite".into(), bits(&[-1.0, 0.0, 0.0]));
    let results = search(&idx, &[1.0, 0.0, 0.0], 3, 50);
    assert_eq!(results[0].0, "same_dir");
    assert_eq!(results[2].0, "opposite");
}

#[test]
fn many_inserts_and_deletes_keep_lookups_exact() {
    let mut idx = HNSWIndex::new(4, 4, 40, DistanceMetric::Euclidean);
    for i in 0..120u64 {
        idx.insert(&Kernel, format!("n{}", i), make_vec(4, i * 11 + 5));
    }
    for i in (0..120u64).step_by(3) {
        assert!(idx.delete(&format!("n{}", i)));
    }
    assert_eq!(idx.node_count(), 80);
    for i in 0..120u64 {
        assert_eq!(idx.contains(&format!("n{}", i)), i % 3 != 0);
    }
    for i in 120..160u64 {
        idx.insert(&Kernel, format!("n{}", i), make_vec(4, i * 11 + 5));
    }
    assert_eq!(idx.node_count(), 120);
    assert!(idx.contains("n159"));
    assert!(idx.get_vector("n3").is_none());
    assert_eq!(idx.get_vector("n4"), Some(&make_vec(4, 4 * 11 + 5)));
    let parts = idx.to_parts();
    for node in &parts.nodes {
        for layer in &node.connections {
            for id in layer {
                assert!(idx.contains(id));
                assert_ne!(id, &node.id);
            }
        }
        assert!(node.connections[0].len() <= 8);
        for layer in node.connections.iter().skip(1) {
            assert!(layer.len() <= 4);
        }
    }
}
