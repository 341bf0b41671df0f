//! The plain-value form of an index, from which a host writes and reads its
//! persisted document: parameters, and for every node its ID, vector and
//! per-layer neighbour IDs.

use vstd::prelude::*;
use crate::model::IndexModel;
use crate::idtable::unique_ids;
use crate::level::MAX_LEVEL;
use crate::metric::DistanceMetric;

verus! {

/// One node: ID, vector bits, and neighbour IDs for each layer `0..=top`.
pub struct NodeParts {
    pub id: String,
    pub vector: Vec<u32>,
    pub connections: Vec<Vec<String>>,
}

/// A whole index.
pub struct IndexParts {
    pub dimensions: usize,
    pub m: usize,
    pub ef_construction: usize,
    pub metric: DistanceMetric,
    pub nodes: Vec<NodeParts>,
    pub entry_point: Option<String>,
    pub max_layer: usize,
}

/// The node IDs, in order.
pub open spec fn part_ids(p: &IndexParts) -> Seq<Seq<char>> {
    p.nodes@.map_values(|n: NodeParts| n.id@)
}

/// The neighbour IDs of node `i` at layer `l`.
pub open spec fn conn(p: &IndexParts, i: int, l: int) -> Seq<Seq<char>> {
    p.nodes@[i].connections@[l]@.map_values(|s: String| s@)
}

/// Largest neighbour count at layer `l`.
pub open spec fn part_cap(p: &IndexParts, l: int) -> int {
    if l == 0 {
        2 * p.m
    } else {
        p.m as int
    }
}

/// Whether the neighbour IDs `c` of the node at position `own` of `ids`
/// name only other nodes of `ids`, none twice, at most `cap` of them.
pub open spec fn list_ok(ids: Seq<Seq<char>>, c: Seq<Seq<char>>, own: int, cap: int) -> bool {
    &&& c.len() <= cap
    &&& forall|j: int| 0 <= j < c.len() ==> ids.contains(#[trigger] c[j]) && c[j] != ids[own]
    &&& forall|j: int, k: int| 0 <= j < k < c.len() ==> #[trigger] c[j] != #[trigger] c[k]
}

/// Whether neighbour list `l` of node `i` names only other stored nodes,
/// none twice, within the layer's cap.
pub open spec fn list_valid(p: &IndexParts, i: int, l: int) -> bool {
    list_ok(part_ids(p), conn(p, i, l), i, part_cap(p, l))
}

/// Whether node `i` is well formed.
pub open spec fn node_valid(p: &IndexParts, i: int) -> bool {
    let n = p.nodes@[i];
    &&& n.vector@.len() == p.dimensions
    &&& 1 <= n.connections@.len() <= p.max_layer + 1
    &&& forall|l: int| 0 <= l < n.connections@.len() ==> #[trigger] list_valid(p, i, l)
}

/// Whether the parts describe a well-formed index: unique IDs, every vector
/// of the stated dimensionality, every node on at least one and at most
/// `max_layer + 1` layers, neighbour lists naming other stored nodes within
/// the caps, and an entry point, set exactly when there are nodes, naming a
/// node on `max_layer + 1` layers (and `max_layer` 0 when there are none).
pub open spec fn parts_valid(p: &IndexParts) -> bool {
    &&& 2 * p.m <= usize::MAX
    &&& p.max_layer <= MAX_LEVEL
    &&& p.nodes@.len() == 0 ==> p.max_layer == 0
    &&& unique_ids(part_ids(p))
    &&& forall|i: int| 0 <= i < p.nodes@.len() ==> #[trigger] node_valid(p, i)
    &&& match p.entry_point {
        None => p.nodes@.len() == 0,
        Some(e) => exists|i: int|
            0 <= i < p.nodes@.len() && #[trigger] part_ids(p)[i] == e@ && p.nodes@[i].connections@.len()
                == p.max_layer + 1,
    }
}

/// Whether node `i` of the model is written as `n`.
pub open spec fn node_written(g: IndexModel, i: int, n: NodeParts) -> bool {
    &&& g.nodes[i].id == n.id@
    &&& g.nodes[i].vector == n.vector@
    &&& g.nodes[i].links.len() == n.connections@.len()
    &&& forall|l: int| 0 <= l < g.nodes[i].links.len() ==> (#[trigger] g.nodes[i].links[l]).len() == n.connections@[l]@.len()
    &&& forall|l: int, j: int| 0 <= l < g.nodes[i].links.len() && 0 <= j < g.nodes[i].links[l].len()
        ==> #[trigger] g.nodes[i].links[l][j] < g.nodes.len() && g.nodes[g.nodes[i].links[l][j] as int].id
        == n.connections@[l]@[j]@
}

/// Whether `p` is the plain-value form of the model `g`: same parameters, the
/// nodes in slot order, each link written as the neighbour's ID, and the
/// entry point written as its ID.
pub open spec fn written(g: IndexModel, p: &IndexParts) -> bool {
    &&& g.dimensions == p.dimensions
    &&& g.m == p.m
    &&& g.ef_construction == p.ef_construction
    &&& g.metric == p.metric
    &&& g.max_layer == p.max_layer
    &&& g.nodes.len() == p.nodes@.len()
    &&& forall|i: int| 0 <= i < g.nodes.len() ==> #[trigger] node_written(g, i, p.nodes@[i])
    &&& match (g.entry_point, p.entry_point) {
        (None, None) => true,
        (Some(e), Some(id)) => e < g.nodes.len() && g.nodes[e as int].id == id@,
        _ => false,
    }
}

/// Writing a well-formed index with unique IDs to its plain-value form and
/// reading that back gives the same index: the written form is always
/// accepted (`HNSWIndex::from_parts` succeeds exactly on valid parts), and
/// the only model it can be read back as is the one it was written from, node for node
/// and link for link in the same order, with the same entry point and
/// parameters.
pub proof fn lemma_round_trip(g: IndexModel, p: &IndexParts, h: IndexModel)
    requires
        g.wf(),
        g.ids_unique(),
        written(g, p),
        written(h, p),
    ensures
        parts_valid(p),
        h == g,
{
    assert forall|i: int| 0 <= i < p.nodes@.len() implies #[trigger] part_ids(p)[i] == g.nodes[i].id by {
        assert(node_written(g, i, p.nodes@[i]));
    }
    assert forall|i: int, j: int| 0 <= i < part_ids(p).len() && 0 <= j < part_ids(p).len() && i != j
        implies #[trigger] part_ids(p)[i] != #[trigger] part_ids(p)[j] by {
        assert(g.nodes[i].id != g.nodes[j].id);
    }
    assert forall|i: int| 0 <= i < p.nodes@.len() implies #[trigger] node_valid(p, i) by {
        assert(node_written(g, i, p.nodes@[i]));
        assert(g.top(i) <= g.max_layer);
        assert forall|l: int| 0 <= l < p.nodes@[i].connections@.len() implies #[trigger] list_valid(p, i, l) by {
            let c = conn(p, i, l);
            let links = g.nodes[i].links[l];
            assert(links.len() == c.len());
            assert forall|j: int| 0 <= j < c.len() implies part_ids(p).contains(#[trigger] c[j]) && c[j] != part_ids(p)[i] by {
                let x = g.nodes[i].links[l][j] as int;
                assert(g.nodes[x].id == c[j]);
                assert(part_ids(p)[x] == c[j]);
                assert(x != i);
            }
            assert forall|j: int, k: int| 0 <= j < k < c.len() implies #[trigger] c[j] != #[trigger] c[k] by {
                let x = g.nodes[i].links[l][j] as int;
                let y = g.nodes[i].links[l][k] as int;
                assert(links.no_duplicates());
                assert(x != y);
                assert(g.nodes[x].id == c[j]);
                assert(g.nodes[y].id == c[k]);
            }
        }
    }
    match g.entry_point {
        Some(e) => {
            assert(part_ids(p)[e as int] == g.nodes[e as int].id);
            assert(node_written(g, e as int, p.nodes@[e as int]));
        },
        None => {},
    }
    assert(parts_valid(p));
    assert forall|i: int| 0 <= i < g.nodes.len() implies #[trigger] h.nodes[i] == g.nodes[i] by {
        assert(node_written(g, i, p.nodes@[i]));
        assert(node_written(h, i, p.nodes@[i]));
        assert forall|l: int| 0 <= l < g.nodes[i].links.len() implies #[trigger] h.nodes[i].links[l] == g.nodes[i].links[l] by {
            assert forall|j: int| 0 <= j < g.nodes[i].links[l].len() implies #[trigger] h.nodes[i].links[l][j] == g.nodes[i].links[l][j] by {
                let x = g.nodes[i].links[l][j] as int;
                let y = h.nodes[i].links[l][j] as int;
                assert(h.nodes[y].id == g.nodes[x].id);
                assert(node_written(h, y, p.nodes@[y]));
                assert(node_written(g, y, p.nodes@[y]));
                assert(g.nodes[y].id == g.nodes[x].id);
            }
            assert(h.nodes[i].links[l] =~= g.nodes[i].links[l]);
        }
        assert(h.nodes[i].links =~= g.nodes[i].links);
    }
    assert(h.nodes =~= g.nodes);
    match (g.entry_point, h.entry_point) {
        (Some(e), Some(f)) => {
            assert(node_written(g, f as int, p.nodes@[f as int]));
            assert(node_written(h, f as int, p.nodes@[f as int]));
            assert(g.nodes[f as int].id == g.nodes[e as int].id);
        },
        _ => {},
    }
}

} // verus!
