use idbvec::hnsw::HNSWIndex;
use idbvec::idtable::{hash_id, IdTable};
use idbvec::level::level_for;
use idbvec::metric::{distance_key, is_finite_bits, metric_from_name, vector_is_finite, DistanceMetric};
use idbvec::{IndexParts, NodeParts};

#[test]
fn metric_names_select_metrics() {
    assert_eq!(metric_from_name(Some("cosine")), DistanceMetric::Cosine);
    assert_eq!(metric_from_name(Some("dotproduct")), DistanceMetric::DotProduct);
    assert_eq!(metric_from_name(Some("dot_product")), DistanceMetric::DotProduct);
    assert_eq!(metric_from_name(Some("euclidean")), DistanceMetric::Euclidean);
    assert_eq!(metric_from_name(Some("Cosine")), DistanceMetric::Euclidean);
    assert_eq!(metric_from_name(None), DistanceMetric::Euclidean);
}

#[test]
fn finiteness_of_bit_patterns() {
    assert!(is_finite_bits(1.5f32.to_bits()));
    assert!(is_finite_bits(0.0f32.to_bits()));
    assert!(is_finite_bits(f32::MAX.to_bits()));
    assert!(!is_finite_bits(f32::NAN.to_bits()));
    assert!(!is_finite_bits(f32::INFINITY.to_bits()));
    assert!(!is_finite_bits(f32::NEG_INFINITY.to_bits()));
    assert!(vector_is_finite(&vec![1.0f32.to_bits(), (-2.0f32).to_bits()]));
    assert!(!vector_is_finite(&vec![1.0f32.to_bits(), f32::NAN.to_bits()]));
    assert!(vector_is_finite(&vec![]));
}

#[test]
fn distance_keys_order_like_floats() {
    let xs = [-100.0f32, -1.5, -0.0, 0.0, 1e-30, 0.5, 1.0, 5.0, 1e30, f32::INFINITY];
    for w in xs.windows(2) {
        assert!(distance_key(w[0].to_bits()) <= distance_key(w[1].to_bits()), "{} {}", w[0], w[1]);
    }
    assert!(distance_key((-1.0f32).to_bits()) < distance_key(1.0f32.to_bits()));
    assert_eq!(distance_key(0.0f32.to_bits()), 0x8000_0000);
}

#[test]
fn levels_follow_powers_of_m() {
    // r = (u + 1) / 2^32; level k needs r <= 16^-k.
    assert_eq!(level_for(u32::MAX, 16), 0);
    assert_eq!(level_for((1u32 << 28) - 1, 16), 1);
    assert_eq!(level_for(1u32 << 28, 16), 0);
    assert_eq!(level_for((1u32 << 24) - 1, 16), 2);
    assert_eq!(level_for(0, 16), 8);
    assert_eq!(level_for(0, 2), 16);
    assert_eq!(level_for(12345, 1), 16);
}

#[test]
fn id_hash_is_stable_and_distinguishes() {
    assert_eq!(hash_id("abc"), hash_id("abc"));
    assert_ne!(hash_id("abc"), hash_id("abd"));
    assert_eq!(hash_id(""), 0);
    assert_eq!(hash_id("a"), 97);
    assert_eq!(hash_id("ab"), 97 * 31 + 98);
}

#[test]
fn id_table_finds_positions_and_duplicates() {
    let ids: Vec<String> = vec!["x".into(), "y".into(), "z".into()];
    let t = IdTable::build(&ids).ok().unwrap();
    assert_eq!(t.lookup(&ids, "y"), Some(1));
    assert_eq!(t.lookup(&ids, "w"), None);
    let dup: Vec<String> = vec!["x".into(), "y".into(), "x".into()];
    assert_eq!(IdTable::build(&dup).err(), Some(2));
}

fn node(id: &str, conns: Vec<Vec<&str>>) -> NodeParts {
    NodeParts {
        id: id.into(),
        vector: vec![0, 0],
        connections: conns.into_iter().map(|l| l.into_iter().map(String::from).collect()).collect(),
    }
}

fn parts(nodes: Vec<NodeParts>, entry: Option<&str>, max_layer: usize) -> IndexParts {
    IndexParts {
        dimensions: 2,
        m: 1,
        ef_construction: 10,
        metric: DistanceMetric::Euclidean,
        nodes,
        entry_point: entry.map(String::from),
        max_layer,
    }
}

#[test]
fn well_formed_parts_load() {
    let p = parts(vec![node("a", vec![vec!["b"], vec![]]), node("b", vec![vec!["a"]])], Some("a"), 1);
    let g = HNSWIndex::from_parts(&p).unwrap();
    assert_eq!(g.node_count(), 2);
    assert_eq!(g.entry_point(), Some("a".to_string()));
    assert_eq!(g.max_layer(), 1);
}

#[test]
fn malformed_parts_are_refused() {
    // self link
    assert!(HNSWIndex::from_parts(&parts(vec![node("a", vec![vec!["a"]])], Some("a"), 0)).is_none());
    // repeated neighbour
    assert!(HNSWIndex::from_parts(&parts(vec![node("a", vec![vec!["b", "b"]]), node("b", vec![vec![]])], Some("a"), 0)).is_none());
    // over the layer cap (m = 1: two at layer 1 is too many)
    let over = parts(
        vec![node("a", vec![vec![], vec!["b", "c"]]), node("b", vec![vec![], vec![]]), node("c", vec![vec![], vec![]])],
        Some("a"),
        1,
    );
    assert!(HNSWIndex::from_parts(&over).is_none());
    // entry point not on the top layer
    assert!(HNSWIndex::from_parts(&parts(vec![node("a", vec![vec![]]), node("b", vec![vec![], vec![]])], Some("a"), 1)).is_none());
    // no entry point with nodes
    assert!(HNSWIndex::from_parts(&parts(vec![node("a", vec![vec![]])], None, 0)).is_none());
    // duplicate IDs
    assert!(HNSWIndex::from_parts(&parts(vec![node("a", vec![vec![]]), node("a", vec![vec![]])], Some("a"), 0)).is_none());
    // wrong vector length
    let mut short = node("a", vec![vec![]]);
    short.vector = vec![0];
    assert!(HNSWIndex::from_parts(&parts(vec![short], Some("a"), 0)).is_none());
    // no layers
    assert!(HNSWIndex::from_parts(&parts(vec![node("a", vec![])], Some("a"), 0)).is_none());
}

#[test]
fn search_reaches_only_the_connected_part_of_the_base_layer() {
    // a - b - c on the base layer; deleting b leaves a and c unconnected.
    let p = parts(
        vec![node("a", vec![vec!["b"]]), node("b", vec![vec!["a", "c"]]), node("c", vec![vec!["b"]])],
        Some("b"),
        0,
    );
    let mut g = HNSWIndex::from_parts(&p).unwrap();
    let k = Zero;
    assert_eq!(g.search(&k, &vec![0, 0], 10, 10).len(), 3);
    assert!(g.delete("b"));
    assert_eq!(g.node_count(), 2);
    assert_eq!(g.search(&k, &vec![0, 0], 10, 10).len(), 1);
}

/// Every distance is zero.
struct Zero;

impl idbvec::metric::DistanceKernel for Zero {
    fn squared_euclidean(&self, _a: &Vec<u32>, _b: &Vec<u32>) -> u32 {
        0
    }

    fn cosine_distance(&self, _a: &Vec<u32>, _b: &Vec<u32>) -> u32 {
        0
    }

    fn dot(&self, _a: &Vec<u32>, _b: &Vec<u32>) -> u32 {
        0
    }

    fn sqrt(&self, x: u32) -> u32 {
        x
    }
}

#[test]
fn parts_round_trip_keeps_every_link_in_order() {
    let p = parts(
        vec![node("a", vec![vec!["c", "b"], vec![]]), node("b", vec![vec!["a"]]), node("c", vec![vec!["a"]])],
        Some("a"),
        1,
    );
    let g = HNSWIndex::from_parts(&p).unwrap();
    let q = g.to_parts();
    assert_eq!(q.nodes.len(), 3);
    for (x, y) in p.nodes.iter().zip(q.nodes.iter()) {
        assert_eq!(x.id, y.id);
        assert_eq!(x.vector, y.vector);
        assert_eq!(x.connections, y.connections);
    }
    assert_eq!(q.entry_point, Some("a".to_string()));
    assert_eq!(q.max_layer, 1);
}
