use idbvec::metric::{DistanceKernel, DistanceMetric};
use idbvec::{DbError, DbState, SearchResult, VectorDB, VectorRecord};

/// Floating-point distances for the tests, over IEEE-754 bit patterns.
struct Kernel;

fn floats(v: &[u32]) -> Vec<f32> {
    v.iter().map(|x| f32::from_bits(*x)).collect()
}

impl DistanceKernel for Kernel {
    fn squared_euclidean(&self, a: &Vec<u32>, b: &Vec<u32>) -> u32 {
        let (a, b) = (floats(a), floats(b));
        a.iter().zip(b.iter()).map(|(x, y)| (x - y) * (x - y)).sum::<f32>().to_bits()
    }

    fn cosine_distance(&self, a: &Vec<u32>, b: &Vec<u32>) -> u32 {
        let (a, b) = (floats(a), floats(b));
        let dot: f32 = a.iter().zip(b.iter()).map(|(x, y)| x * y).sum();
        let na = a.iter().map(|x| x * x).sum::<f32>().sqrt();
        let nb = b.iter().map(|x| x * x).sum::<f32>().sqrt();
        let sim = if na == 0.0 || nb == 0.0 { 0.0 } else { dot / (na * nb) };
        (1.0 - sim).to_bits()
    }

    fn dot(&self, a: &Vec<u32>, b: &Vec<u32>) -> u32 {
        let (a, b) = (floats(a), floats(b));
        a.iter().zip(b.iter()).map(|(x, y)| x * y).sum::<f32>().to_bits()
    }

    fn sqrt(&self, x: u32) -> u32 {
        f32::from_bits(x).sqrt().to_bits()
    }
}

fn bits(v: &[f32]) -> Vec<u32> {
    v.iter().map(|x| x.to_bits()).collect()
}

fn make_vec(dims: usize, seed: u64) -> Vec<f32> {
    let mut rng = seed;
    (0..dims)
        .map(|_| {
            rng = rng.wrapping_mul(1103515245).wrapping_add(12345);
            ((rng / 65536) % 32768) as f32 / 32768.0
        })
        .collect()
}

fn brute_force_knn(vectors: &[(String, Vec<f32>)], query: &[f32], k: usize) -> Vec<String> {
    let mut dists: Vec<(String, f32)> = vectors
        .iter()
        .map(|(id, v)| {
            let d: f32 = v.iter().zip(query.iter()).map(|(a, b)| (a - b) * (a - b)).sum::<f32>().sqrt();
            (id.clone(), d)
        })
        .collect();
    dists.sort_by(|a, b| a.1.partial_cmp(&b.1).unwrap());
    dists.into_iter().take(k).map(|(id, _)| id).collect()
}

fn meta(pairs: &[(&str, &str)]) -> Vec<(String, String)> {
    pairs.iter().map(|(k, v)| (k.to_string(), v.to_string())).collect()
}

fn hits(db: &VectorDB, q: &[f32], k: usize) -> Vec<(String, f32)> {
    db.search(&Kernel, &bits(q), k, 50).unwrap().into_iter().map(|r| (r.id, f32::from_bits(r.distance))).collect()
}

#[test]
fn public_types_are_constructable() {
    let sr = SearchResult { id: "test".into(), distance: 0.95f32.to_bits(), metadata: None };
    assert_eq!(sr.id, "test");
    assert!((f32::from_bits(sr.distance) - 0.95).abs() < 1e-6);
    let vr = VectorRecord { id: "vec1".into(), vector: bits(&[1.0, 2.0, 3.0]), metadata: Some(meta(&[("key", "value")])) };
    assert_eq!(vr.vector.len(), 3);
    let m = vr.metadata.as_ref().unwrap();
    assert_eq!(m.iter().find(|(k, _)| k == "key").unwrap().1, "value");
}

#[test]
fn make_vec_is_deterministic() {
    let v1 = make_vec(10, 42);
    let v2 = make_vec(10, 42);
    assert_eq!(v1, v2);
    let v3 = make_vec(10, 43);
    assert_ne!(v1, v3);
}

#[test]
fn brute_force_knn_correctness() {
    let vectors = vec![
        ("close".to_string(), vec![0.1, 0.1]),
        ("mid".to_string(), vec![5.0, 5.0]),
        ("far".to_string(), vec![100.0, 100.0]),
    ];
    let result = brute_force_knn(&vectors, &[0.0, 0.0], 2);
    assert_eq!(result, vec!["close", "mid"]);
}

#[test]
fn scenario_single_vector_found_at_zero() {
    let mut db = VectorDB::new(3, 16, 200, None);
    db.insert(&Kernel, "a".into(), bits(&[1.0, 0.0, 0.0]), None).unwrap();
    let r = hits(&db, &[1.0, 0.0, 0.0], 1);
    assert_eq!(r.len(), 1);
    assert_eq!(r[0].0, "a");
    assert!(r[0].1.abs() < 1e-6);
}

#[test]
fn scenario_close_point_beats_far_points() {
    let mut db = VectorDB::new(3, 16, 200, None);
    db.insert(&Kernel, "close".into(), bits(&[5.1, 5.1, 5.1]), None).unwrap();
    db.insert(&Kernel, "far1".into(), bits(&[100.0, 0.0, 0.0]), None).unwrap();
    db.insert(&Kernel, "far2".into(), bits(&[0.0, 100.0, 0.0]), None).unwrap();
    let r = hits(&db, &[5.0, 5.0, 5.0], 1);
    assert_eq!(r[0].0, "close");
}

#[test]
fn scenario_euclidean_distances_are_final() {
    let mut db = VectorDB::new(2, 16, 200, None);
    db.insert(&Kernel, "o".into(), bits(&[0.0, 0.0]), None).unwrap();
    db.insert(&Kernel, "p".into(), bits(&[3.0, 4.0]), None).unwrap();
    let r = hits(&db, &[0.0, 0.0], 2);
    assert_eq!(r[0].0, "o");
    assert!(r[0].1.abs() < 1e-4);
    assert_eq!(r[1].0, "p");
    assert!((r[1].1 - 5.0).abs() < 1e-4);
}

#[test]
fn scenario_cosine_order_and_distances() {
    let mut db = VectorDB::new(3, 16, 200, Some("cosine".into()));
    db.insert(&Kernel, "same".into(), bits(&[2.0, 0.0, 0.0]), None).unwrap();
    db.insert(&Kernel, "ortho".into(), bits(&[0.0, 1.0, 0.0]), None).unwrap();
    db.insert(&Kernel, "opp".into(), bits(&[-1.0, 0.0, 0.0]), None).unwrap();
    let r = hits(&db, &[1.0, 0.0, 0.0], 3);
    let ids: Vec<&str> = r.iter().map(|(id, _)| id.as_str()).collect();
    assert_eq!(ids, vec!["same", "ortho", "opp"]);
    assert!(r[0].1.abs() < 1e-5);
    assert!((r[1].1 - 1.0).abs() < 1e-5);
    assert!((r[2].1 - 2.0).abs() < 1e-5);
}

#[test]
fn scenario_delete_one_of_ten() {
    let mut db = VectorDB::new(4, 4, 50, None);
    for i in 0..10 {
        db.insert(&Kernel, format!("v{}", i), bits(&make_vec(4, i * 31 + 7)), None).unwrap();
    }
    assert!(db.delete("v3"));
    assert_eq!(db.size(), 9);
    let state = db.to_state();
    for node in &state.index.nodes {
        for layer in &node.connections {
            assert!(!layer.contains(&"v3".to_string()));
        }
    }
    let r = hits(&db, &make_vec(4, 3 * 31 + 7), 9);
    assert!(!r.is_empty());
    assert!(r.iter().all(|(id, _)| id != "v3"));
}

#[test]
fn scenario_state_round_trip_keeps_results() {
    let mut db = VectorDB::new(3, 16, 200, None);
    db.insert(&Kernel, "a".into(), bits(&[1.0, 0.0, 0.0]), Some(meta(&[("k", "v")]))).unwrap();
    db.insert(&Kernel, "b".into(), bits(&[0.0, 1.0, 0.0]), None).unwrap();
    db.insert(&Kernel, "c".into(), bits(&[0.0, 0.0, 1.0]), None).unwrap();
    let before = hits(&db, &[0.9, 0.1, 0.0], 3);
    let db2 = VectorDB::from_state(db.to_state()).ok().unwrap();
    let after = hits(&db2, &[0.9, 0.1, 0.0], 3);
    assert_eq!(before.len(), after.len());
    for (x, y) in before.iter().zip(after.iter()) {
        assert_eq!(x.0, y.0);
        assert!((x.1 - y.1).abs() < 1e-6);
    }
    assert_eq!(db2.get("a").unwrap().metadata, Some(meta(&[("k", "v")])));
}

#[test]
fn round_trip_of_many_vectors_is_exact() {
    let mut db = VectorDB::new(5, 3, 20, None);
    for i in 0..40 {
        db.insert(&Kernel, format!("n{}", i), bits(&make_vec(5, i * 17 + 1)), None).unwrap();
    }
    let db2 = VectorDB::from_state(db.to_state()).ok().unwrap();
    for q in 0..5 {
        let query = make_vec(5, 1000 + q);
        assert_eq!(hits(&db, &query, 7), hits(&db2, &query, 7));
    }
}

#[test]
fn insert_wrong_dimension_reports_mismatch() {
    let mut db = VectorDB::new(3, 16, 200, None);
    let err = db.insert(&Kernel, "bad".into(), bits(&[1.0, 0.0]), None).unwrap_err();
    assert_eq!(err, DbError::DimensionMismatch { expected: 3, got: 2 });
    assert_eq!(db.size(), 0);
}

#[test]
fn insert_non_finite_reports_invalid_component() {
    let mut db = VectorDB::new(3, 16, 200, None);
    let err = db.insert(&Kernel, "nan".into(), bits(&[1.0, f32::NAN, 0.0]), None).unwrap_err();
    assert_eq!(err, DbError::InvalidComponent);
    let err = db.insert(&Kernel, "inf".into(), bits(&[f32::INFINITY, 0.0, 0.0]), None).unwrap_err();
    assert_eq!(err, DbError::InvalidComponent);
    assert_eq!(db.size(), 0);
}

#[test]
fn search_wrong_dimension_reports_mismatch() {
    let db = VectorDB::new(3, 16, 200, None);
    let err = db.search(&Kernel, &bits(&[1.0]), 1, 10).err().unwrap();
    assert_eq!(err, DbError::DimensionMismatch { expected: 3, got: 1 });
}

#[test]
fn upsert_replaces_vector_and_metadata() {
    let mut db = VectorDB::new(2, 16, 200, None);
    db.insert(&Kernel, "a".into(), bits(&[1.0, 0.0]), Some(meta(&[("x", "1")]))).unwrap();
    db.insert(&Kernel, "a".into(), bits(&[0.0, 1.0]), None).unwrap();
    assert_eq!(db.size(), 1);
    let rec = db.get("a").unwrap();
    assert_eq!(rec.vector, bits(&[0.0, 1.0]));
    assert!(rec.metadata.is_none());
}

#[test]
fn search_attaches_metadata() {
    let mut db = VectorDB::new(2, 16, 200, None);
    db.insert(&Kernel, "a".into(), bits(&[1.0, 0.0]), Some(meta(&[("text", "hello world")]))).unwrap();
    let r = db.search(&Kernel, &bits(&[1.0, 0.0]), 1, 10).unwrap();
    assert_eq!(r[0].metadata, Some(meta(&[("text", "hello world")])));
}

#[test]
fn get_has_list_and_delete() {
    let mut db = VectorDB::new(2, 16, 200, None);
    db.insert(&Kernel, "a".into(), bits(&[1.0, 0.0]), None).unwrap();
    db.insert(&Kernel, "b".into(), bits(&[0.0, 1.0]), None).unwrap();
    assert!(db.has("a"));
    assert!(!db.has("z"));
    assert!(db.get("z").is_none());
    let mut ids = db.list_ids();
    ids.sort();
    assert_eq!(ids, vec!["a".to_string(), "b".to_string()]);
    assert!(db.delete("a"));
    assert!(!db.delete("a"));
    assert!(!db.has("a"));
    assert_eq!(db.size(), 1);
}

#[test]
fn delete_batch_counts_actual_removals() {
    let mut db = VectorDB::new(2, 16, 200, None);
    for (i, id) in ["a", "b", "c"].iter().enumerate() {
        db.insert(&Kernel, id.to_string(), bits(&[i as f32, 1.0]), None).unwrap();
    }
    let n = db.delete_batch(vec!["a".into(), "zz".into(), "c".into(), "a".into()]);
    assert_eq!(n, 2);
    assert_eq!(db.size(), 1);
    assert!(db.has("b"));
}

#[test]
fn k_zero_and_empty_database_give_nothing() {
    let mut db = VectorDB::new(2, 16, 200, None);
    assert!(hits(&db, &[0.0, 0.0], 5).is_empty());
    db.insert(&Kernel, "a".into(), bits(&[1.0, 0.0]), None).unwrap();
    assert!(hits(&db, &[0.0, 0.0], 0).is_empty());
}

#[test]
fn k_larger_than_size_returns_every_vector() {
    let mut db = VectorDB::new(3, 8, 100, None);
    for i in 0..12 {
        db.insert(&Kernel, format!("v{}", i), bits(&make_vec(3, i * 5 + 2)), None).unwrap();
    }
    assert_eq!(hits(&db, &[0.5, 0.5, 0.5], 50).len(), 12);
}

#[test]
fn unsupported_version_is_rejected() {
    let db = VectorDB::new(2, 16, 200, None);
    let mut state = db.to_state();
    state.version = 2;
    assert_eq!(VectorDB::from_state(state).err().unwrap(), DbError::VersionUnsupported(2));
}

#[test]
fn missing_neighbour_is_a_serialization_error() {
    let mut db = VectorDB::new(2, 16, 200, None);
    db.insert(&Kernel, "a".into(), bits(&[1.0, 0.0]), None).unwrap();
    db.insert(&Kernel, "b".into(), bits(&[0.0, 1.0]), None).unwrap();
    let mut state: DbState = db.to_state();
    state.index.nodes[0].connections[0].push("ghost".into());
    assert_eq!(VectorDB::from_state(state).err().unwrap(), DbError::Serialization);
}

#[test]
fn duplicate_metadata_keys_are_rejected() {
    let db = VectorDB::new(2, 16, 200, None);
    let mut state = db.to_state();
    state.metadata.push(("a".into(), meta(&[])));
    state.metadata.push(("a".into(), meta(&[])));
    assert_eq!(VectorDB::from_state(state).err().unwrap(), DbError::Serialization);
}

#[test]
fn dot_product_metric_orders_by_largest_product() {
    let mut db = VectorDB::new(2, 16, 200, Some("dot_product".into()));
    db.insert(&Kernel, "small".into(), bits(&[1.0, 0.0]), None).unwrap();
    db.insert(&Kernel, "big".into(), bits(&[3.0, 0.0]), None).unwrap();
    let r = hits(&db, &[1.0, 0.0], 2);
    assert_eq!(r[0].0, "big");
    assert!((r[0].1 + 3.0).abs() < 1e-6);
}

#[test]
fn metadata_survives_many_upserts_and_deletes() {
    let mut db = VectorDB::new(2, 4, 30, None);
    for i in 0..60u64 {
        let tag = format!("t{}", i);
        db.insert(&Kernel, format!("k{}", i), bits(&make_vec(2, i + 1)), Some(meta(&[("tag", tag.as_str())]))).unwrap();
    }
    for i in (0..60u64).step_by(4) {
        assert!(db.delete(&format!("k{}", i)));
    }
    for i in (1..60u64).step_by(4) {
        db.insert(&Kernel, format!("k{}", i), bits(&make_vec(2, i + 100)), None).unwrap();
    }
    assert_eq!(db.size(), 45);
    for i in 0..60u64 {
        let rec = db.get(&format!("k{}", i));
        if i % 4 == 0 {
            assert!(rec.is_none());
        } else if i % 4 == 1 {
            let rec = rec.unwrap();
            assert!(rec.metadata.is_none());
            assert_eq!(rec.vector, bits(&make_vec(2, i + 100)));
        } else {
            let tag = format!("t{}", i);
            assert_eq!(rec.unwrap().metadata, Some(meta(&[("tag", tag.as_str())])));
        }
    }
    let db2 = VectorDB::from_state(db.to_state()).ok().unwrap();
    assert_eq!(db2.size(), 45);
    let tag = format!("t{}", 2);
    assert_eq!(db2.get("k2").unwrap().metadata, Some(meta(&[("tag", tag.as_str())])));
}
