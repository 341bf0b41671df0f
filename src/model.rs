//! The mathematical model of the graph: nodes as IDs, vectors and
//! per-layer neighbour lists of slot numbers; the invariants every operation
//! keeps; and the lemmas the graph operations are proved with.

use vstd::prelude::*;
use vstd::set_lib::{lemma_int_range, lemma_len_subset, set_int_range};
use crate::level::MAX_LEVEL;
use crate::metric::{DistanceKernel, DistanceMetric, dist_key, final_of, internal_of};
use crate::queue::{Scored, ascending, distinct_slots, has_slot};

verus! {

/// Model of one node: its ID, its vector, and its neighbour lists, one per
/// layer `0..=top`.
pub struct NodeModel {
    pub id: Seq<char>,
    pub vector: Seq<u32>,
    pub links: Seq<Seq<usize>>,
}

/// The IDs of the nodes, in slot order.
pub open spec fn node_ids(g: IndexModel) -> Seq<Seq<char>> {
    g.nodes.map_values(|n: NodeModel| n.id)
}

/// Model of the index.
pub struct IndexModel {
    pub dimensions: nat,
    pub m: nat,
    pub ef_construction: nat,
    pub metric: DistanceMetric,
    pub nodes: Seq<NodeModel>,
    pub entry_point: Option<usize>,
    pub max_layer: nat,
}

impl IndexModel {
    /// Largest number of neighbours a node keeps at layer `l`.
    pub open spec fn cap(self, l: int) -> nat {
        if l == 0 {
            2 * self.m
        } else {
            self.m
        }
    }

    /// Top layer of the node in slot `s`.
    pub open spec fn top(self, s: int) -> int {
        self.nodes[s].links.len() - 1
    }

    /// The neighbours of slot `s` at layer `l`.
    pub open spec fn adj(self, s: int, l: int) -> Seq<usize> {
        self.nodes[s].links[l]
    }

    /// Whether slot `s` links to slot `t` at layer `l`.
    pub open spec fn linked(self, s: int, l: int, t: usize) -> bool {
        0 <= s < self.nodes.len() && 0 <= l < self.nodes[s].links.len() && self.adj(s, l).contains(t)
    }

    /// Whether some node carries the ID.
    pub open spec fn has_id(self, id: Seq<char>) -> bool {
        exists|s: int| 0 <= s < self.nodes.len() && #[trigger] self.nodes[s].id == id
    }

    /// Whether some node carries the ID with the vector.
    pub open spec fn holds_vector(self, id: Seq<char>, v: Seq<u32>) -> bool {
        exists|s: int| 0 <= s < self.nodes.len() && #[trigger] self.nodes[s].id == id && self.nodes[s].vector == v
    }

    /// Every stored vector has the index's dimensionality.
    pub open spec fn dimensions_hold(self) -> bool {
        forall|s: int| 0 <= s < self.nodes.len() ==> (#[trigger] self.nodes[s]).vector.len() == self.dimensions
    }

    /// Every node has between one and `MAX_LEVEL + 1` layers.
    pub open spec fn layers_hold(self) -> bool {
        forall|s: int|
            0 <= s < self.nodes.len() ==> 1 <= (#[trigger] self.nodes[s]).links.len() <= MAX_LEVEL + 1
    }

    /// Every linked slot holds a node.
    pub open spec fn no_dangling(self) -> bool {
        forall|s: int, l: int, j: int|
            0 <= s < self.nodes.len() && 0 <= l < self.nodes[s].links.len() && 0 <= j
                < self.nodes[s].links[l].len() ==> #[trigger] self.nodes[s].links[l][j] < self.nodes.len()
    }

    /// No node links to itself.
    pub open spec fn no_self_links(self) -> bool {
        forall|s: int, l: int, j: int|
            0 <= s < self.nodes.len() && 0 <= l < self.nodes[s].links.len() && 0 <= j
                < self.nodes[s].links[l].len() ==> #[trigger] self.nodes[s].links[l][j] != s
    }

    /// No neighbour list holds a slot twice.
    pub open spec fn links_distinct(self) -> bool {
        forall|s: int, l: int|
            0 <= s < self.nodes.len() && 0 <= l < self.nodes[s].links.len() ==> (
            #[trigger] self.nodes[s].links[l]).no_duplicates()
    }

    /// Every neighbour list is within the cap of its layer.
    pub open spec fn degrees_capped(self) -> bool {
        forall|s: int, l: int|
            0 <= s < self.nodes.len() && 0 <= l < self.nodes[s].links.len() ==> (
            #[trigger] self.nodes[s].links[l]).len() <= self.cap(l)
    }

    /// The entry point is set exactly when the index holds nodes (and
    /// `max_layer` is 0 when it holds none); it is a node
    /// whose top layer is `max_layer`, and no node reaches above `max_layer`.
    pub open spec fn entry_holds(self) -> bool {
        &&& (self.entry_point is None <==> self.nodes.len() == 0)
        &&& (self.entry_point matches Some(e) ==> e < self.nodes.len() && self.top(e as int)
            == self.max_layer)
        &&& forall|s: int| 0 <= s < self.nodes.len() ==> #[trigger] self.top(s) <= self.max_layer
        &&& self.max_layer <= MAX_LEVEL
        &&& self.nodes.len() == 0 ==> self.max_layer == 0
    }

    /// No two nodes carry the same ID.
    pub open spec fn ids_unique(self) -> bool {
        forall|s: int, t: int|
            0 <= s < self.nodes.len() && 0 <= t < self.nodes.len() && s != t ==> #[trigger] self.nodes[s].id
                != #[trigger] self.nodes[t].id
    }

    /// For every link `a -> b` at a layer that `b` also has, `b -> a` holds.
    pub open spec fn symmetric(self) -> bool {
        forall|a: int, l: int, j: int|
            0 <= a < self.nodes.len() && 0 <= l < self.nodes[a].links.len() && 0 <= j
                < self.nodes[a].links[l].len() && l < self.nodes[self.nodes[a].links[l][j] as int].links.len()
                ==> self.nodes[#[trigger] self.nodes[a].links[l][j] as int].links[l].contains(a as usize)
    }

    /// `self` is `old` with the node in slot `d` removed: the last node moves
    /// into slot `d`, every link to the removed node is gone and every link to
    /// the moved node follows it. Other nodes keep their IDs, vectors and
    /// layers.
    pub open spec fn renumbered(self, old: IndexModel, d: int) -> bool {
        let last = old.nodes.len() - 1;
        &&& 0 <= d < old.nodes.len()
        &&& self.nodes.len() == last
        &&& forall|i: int|
            0 <= i < self.nodes.len() ==> {
                &&& (#[trigger] self.nodes[i]).id == old.nodes[moved_from(i, d, last)].id
                &&& self.nodes[i].vector == old.nodes[moved_from(i, d, last)].vector
                &&& self.nodes[i].links.len() == old.nodes[moved_from(i, d, last)].links.len()
            }
        &&& forall|i: int, l: int|
            0 <= i < self.nodes.len() && 0 <= l < self.nodes[i].links.len() ==> relinks(
                old.adj(moved_from(i, d, last), l),
                #[trigger] self.adj(i, l),
                d,
                last,
            )
    }

    /// `self` is `old` after deleting the node in slot `d`: renumbered as
    /// above, with the same parameters; if the removed node was the entry
    /// point, the new entry point is a node with the most layers, else the
    /// entry point stays the same node.
    pub open spec fn removed(self, old: IndexModel, d: int) -> bool {
        let last = old.nodes.len() - 1;
        &&& self.renumbered(old, d)
        &&& self.dimensions == old.dimensions
        &&& self.m == old.m
        &&& self.ef_construction == old.ef_construction
        &&& self.metric == old.metric
        &&& old.entry_point == Some(d as usize) ==> (self.entry_point matches Some(e) ==> forall|u: int|
            0 <= u < self.nodes.len() ==> #[trigger] self.top(u) <= self.top(e as int))
        &&& (old.entry_point matches Some(e) && e != d) ==> self.entry_point == Some(
            moved_from(old.entry_point->Some_0 as int, last, d) as usize,
        ) && self.max_layer == old.max_layer
    }

    /// Whether a set of slots holds every base-layer neighbour of each of
    /// its slots.
    pub open spec fn base_closed(self, set: Set<int>) -> bool {
        forall|x: int, q: int|
            0 <= x < self.nodes.len() && set.contains(x) && 0 < self.nodes[x].links.len() && 0 <= q < self.adj(
                x,
                0,
            ).len() ==> set.contains(#[trigger] self.adj(x, 0)[q] as int)
    }

    /// Every node reaches every other along base-layer links: a set of
    /// slots that holds one slot and is closed under base-layer links holds
    /// them all.
    pub open spec fn base_connected(self) -> bool {
        forall|set: Set<int>|
            #[trigger] self.base_closed(set) && (exists|x: int| 0 <= x < self.nodes.len() && set.contains(x))
                ==> forall|y: int| 0 <= y < self.nodes.len() ==> set.contains(y)
    }

    /// No neighbour list is full.
    pub open spec fn has_room(self) -> bool {
        forall|s: int, l: int|
            0 <= s < self.nodes.len() && 0 <= l < self.nodes[s].links.len() ==> (
            #[trigger] self.nodes[s].links[l]).len() < self.cap(l)
    }

    /// The invariants of the node table and its links.
    pub open spec fn graph_ok(self) -> bool {
        &&& self.dimensions_hold()
        &&& self.layers_hold()
        &&& self.no_dangling()
        &&& self.no_self_links()
        &&& self.links_distinct()
        &&& self.degrees_capped()
        &&& 2 * self.m <= usize::MAX
        &&& self.nodes.len() <= usize::MAX
    }

    /// The invariants every public operation preserves.
    pub open spec fn wf(self) -> bool {
        &&& self.graph_ok()
        &&& self.entry_holds()
    }

    /// This model with the neighbour list of slot `s` at layer `l` replaced.
    pub open spec fn with_links(self, s: int, l: int, list: Seq<usize>) -> IndexModel {
        IndexModel {
            nodes: self.nodes.update(
                s,
                NodeModel { links: self.nodes[s].links.update(l, list), ..self.nodes[s] },
            ),
            ..self
        }
    }

    /// Whether `list` may stand as the neighbour list of slot `s` at layer `l`.
    pub open spec fn fit_links(self, s: int, l: int, list: Seq<usize>) -> bool {
        &&& list.no_duplicates()
        &&& list.len() <= self.cap(l)
        &&& forall|j: int| 0 <= j < list.len() ==> #[trigger] list[j] < self.nodes.len() && list[j] != s
    }

    /// The nodes of `self` are those of `old` in their slots, plus possibly one
    /// more in slot `old.nodes.len()`; every link a node of `old` has in `self`
    /// it had in `old`, or it leads to the new slot.
    pub open spec fn extends(self, old: IndexModel) -> bool {
        &&& self.nodes.len() >= old.nodes.len()
        &&& forall|s: int|
            0 <= s < old.nodes.len() ==> {
                &&& (#[trigger] self.nodes[s]).id == old.nodes[s].id
                &&& self.nodes[s].vector == old.nodes[s].vector
                &&& self.nodes[s].links.len() == old.nodes[s].links.len()
            }
        &&& forall|s: int, l: int, x: usize|
            0 <= s < old.nodes.len() && #[trigger] self.linked(s, l, x) ==> old.linked(s, l, x) || x
                == old.nodes.len()
    }
}

/// Whether `new` is `old` with slot `d` dropped and slot `last` renamed to
/// `d`, the renumbering that removing slot `d` from a table whose last slot
/// is `last` makes.
pub open spec fn relinks(old: Seq<usize>, new: Seq<usize>, d: int, last: int) -> bool {
    &&& new.len() <= old.len()
    &&& old.no_duplicates() ==> new.no_duplicates()
    &&& forall|x: usize| #[trigger] new.contains(x) <==> (old.contains(x) && x != d && x != last) || (x
        == d && d != last && old.contains(last as usize))
}

/// The slot whose node moves into slot `i` when slot `d` of a table whose
/// last slot is `last` is removed.
pub open spec fn moved_from(i: int, d: int, last: int) -> int {
    if i == d {
        last
    } else {
        i
    }
}

/// Replacing one neighbour list by a fitting one keeps the graph invariants.
pub(crate) proof fn lemma_with_links(g: IndexModel, s: int, l: int, list: Seq<usize>)
    requires
        g.graph_ok(),
        0 <= s < g.nodes.len(),
        0 <= l < g.nodes[s].links.len(),
        g.fit_links(s, l, list),
    ensures
        g.with_links(s, l, list).graph_ok(),
        g.ids_unique() ==> g.with_links(s, l, list).ids_unique(),
        g.with_links(s, l, list).nodes.len() == g.nodes.len(),
        forall|t: int| 0 <= t < g.nodes.len() ==> #[trigger] g.with_links(s, l, list).top(t) == g.top(t),
{
    let h = g.with_links(s, l, list);
    assert forall|a: int, b: int, j: int|
        0 <= a < h.nodes.len() && 0 <= b < h.nodes[a].links.len() && 0 <= j
            < h.nodes[a].links[b].len() implies #[trigger] h.nodes[a].links[b][j] < h.nodes.len()
            && h.nodes[a].links[b][j] != a by {
        if a == s && b == l {
            assert(h.nodes[a].links[b] == list);
        } else {
            assert(h.nodes[a].links[b] == g.nodes[a].links[b]);
        }
    }
    assert forall|a: int, b: int|
        0 <= a < h.nodes.len() && 0 <= b < h.nodes[a].links.len() implies (
        #[trigger] h.nodes[a].links[b]).no_duplicates() && h.nodes[a].links[b].len() <= h.cap(b) by {
        if a == s && b == l {
            assert(h.nodes[a].links[b] == list);
        } else {
            assert(h.nodes[a].links[b] == g.nodes[a].links[b]);
        }
    }
}

/// Replacing a neighbour list by one drawn from the old list and the new
/// slot keeps a graph an extension of `old`.
pub(crate) proof fn lemma_extends_with_links(g: IndexModel, old: IndexModel, s: int, l: int, list: Seq<usize>)
    requires
        g.extends(old),
        g.nodes.len() == old.nodes.len() + 1,
        0 <= s < g.nodes.len(),
        0 <= l < g.nodes[s].links.len(),
        s < old.nodes.len() ==> forall|j: int| 0 <= j < list.len() ==> g.adj(s, l).contains(#[trigger] list[j]) || list[j] == old.nodes.len(),
    ensures
        g.with_links(s, l, list).extends(old),
{
    let h = g.with_links(s, l, list);
    assert forall|a: int| 0 <= a < old.nodes.len() implies {
        &&& (#[trigger] h.nodes[a]).id == old.nodes[a].id
        &&& h.nodes[a].vector == old.nodes[a].vector
        &&& h.nodes[a].links.len() == old.nodes[a].links.len()
    } by {
        assert(g.nodes[a].id == old.nodes[a].id);
    }
    assert forall|a: int, b: int, x: usize|
        0 <= a < old.nodes.len() && #[trigger] h.linked(a, b, x) implies old.linked(a, b, x) || x
            == old.nodes.len() by {
        if a == s && b == l {
            let j = choose|j: int| 0 <= j < list.len() && list[j] == x;
            assert(g.adj(s, l).contains(list[j]) || list[j] == old.nodes.len());
            if g.adj(s, l).contains(x) {
                assert(g.linked(a, b, x));
            }
        } else {
            assert(h.nodes[a].links[b] == g.nodes[a].links[b]);
            assert(g.linked(a, b, x));
        }
    }
}

/// Removing a node keeps the graph invariants.
pub(crate) proof fn lemma_renumbered(g0: IndexModel, h: IndexModel, d: int)
    requires
        g0.graph_ok(),
        h.renumbered(g0, d),
        h.dimensions == g0.dimensions,
        h.m == g0.m,
    ensures
        h.graph_ok(),
        g0.ids_unique() ==> h.ids_unique(),
{
    let last = g0.nodes.len() - 1;
    assert forall|i: int, l: int, j: int|
        0 <= i < h.nodes.len() && 0 <= l < h.nodes[i].links.len() && 0 <= j < h.nodes[i].links[l].len()
        implies #[trigger] h.nodes[i].links[l][j] < h.nodes.len() && h.nodes[i].links[l][j] != i by {
        let src = moved_from(i, d, last);
        assert(h.nodes[i].links.len() == g0.nodes[src].links.len());
        let x = h.nodes[i].links[l][j];
        assert(h.adj(i, l).contains(x));
        assert(relinks(g0.adj(src, l), h.adj(i, l), d, last));
        if g0.adj(src, l).contains(x) && x != d && x != last {
            let k = choose|k: int| 0 <= k < g0.adj(src, l).len() && g0.adj(src, l)[k] == x;
            assert(g0.nodes[src].links[l][k] < g0.nodes.len());
            assert(g0.nodes[src].links[l][k] != src);
        } else {
            let k = choose|k: int| 0 <= k < g0.adj(src, l).len() && g0.adj(src, l)[k] == last;
            assert(g0.nodes[src].links[l][k] != src);
        }
    }
    assert forall|i: int, l: int|
        0 <= i < h.nodes.len() && 0 <= l < h.nodes[i].links.len() implies (
        #[trigger] h.nodes[i].links[l]).no_duplicates() && h.nodes[i].links[l].len() <= h.cap(l) by {
        let src = moved_from(i, d, last);
        assert(h.nodes[i].links.len() == g0.nodes[src].links.len());
        assert(relinks(g0.adj(src, l), h.adj(i, l), d, last));
        assert(g0.nodes[src].links[l].no_duplicates());
    }
    if g0.ids_unique() {
        assert forall|a: int, b: int|
            0 <= a < h.nodes.len() && 0 <= b < h.nodes.len() && a != b implies #[trigger] h.nodes[a].id
            != #[trigger] h.nodes[b].id by {
            assert(g0.nodes[moved_from(a, d, last)].id != g0.nodes[moved_from(b, d, last)].id);
        }
    }
    assert forall|i: int| 0 <= i < h.nodes.len() implies 1 <= (#[trigger] h.nodes[i]).links.len() <= MAX_LEVEL + 1
        && h.nodes[i].vector.len() == h.dimensions by {
        assert(g0.nodes[moved_from(i, d, last)].links.len() >= 1);
    }
}

/// Being `old` with a node removed depends on the nodes alone.
pub(crate) proof fn lemma_renumbered_nodes(a: IndexModel, b: IndexModel, old: IndexModel, d: int)
    requires
        a.renumbered(old, d),
        a.nodes == b.nodes,
    ensures
        b.renumbered(old, d),
{
    assert forall|i: int, l: int| 0 <= i < b.nodes.len() && 0 <= l < b.nodes[i].links.len() implies relinks(
        old.adj(moved_from(i, d, old.nodes.len() - 1), l), #[trigger] b.adj(i, l), d, old.nodes.len() - 1) by {
        assert(a.adj(i, l) == b.adj(i, l));
    }
    assert forall|i: int| 0 <= i < b.nodes.len() implies (#[trigger] b.nodes[i]) == a.nodes[i] by {}
}

/// Removing a node keeps every other ID that was stored, and adds none.
pub proof fn lemma_renumbered_ids(h: IndexModel, g: IndexModel, d: int)
    requires
        h.renumbered(g, d),
    ensures
        forall|k: Seq<char>| k != g.nodes[d].id ==> (#[trigger] h.has_id(k) <==> g.has_id(k)),
{
    let last = g.nodes.len() - 1;
    assert forall|k: Seq<char>| k != g.nodes[d].id implies (#[trigger] h.has_id(k) <==> g.has_id(k)) by {
        if g.has_id(k) {
            let s = choose|s: int| 0 <= s < g.nodes.len() && #[trigger] g.nodes[s].id == k;
            let t = if s == last { d } else { s };
            assert(moved_from(t, d, last) == s);
            assert(h.nodes[t].id == k);
        }
        if h.has_id(k) {
            let t = choose|t: int| 0 <= t < h.nodes.len() && #[trigger] h.nodes[t].id == k;
            assert(g.nodes[moved_from(t, d, last)].id == k);
        }
    }
}

/// Adding a node keeps every ID that was stored and adds the new node's.
pub proof fn lemma_extends_ids(h: IndexModel, g: IndexModel)
    requires
        h.extends(g),
        h.nodes.len() == g.nodes.len() + 1,
    ensures
        forall|k: Seq<char>| #[trigger] h.has_id(k) <==> (g.has_id(k) || h.nodes.last().id == k),
{
    assert forall|k: Seq<char>| #[trigger] h.has_id(k) <==> (g.has_id(k) || h.nodes.last().id == k) by {
        if g.has_id(k) {
            let s = choose|s: int| 0 <= s < g.nodes.len() && #[trigger] g.nodes[s].id == k;
            assert(h.nodes[s].id == k);
        }
        if h.nodes.last().id == k {
            assert(h.nodes[h.nodes.len() - 1].id == k);
        }
        if h.has_id(k) {
            let t = choose|t: int| 0 <= t < h.nodes.len() && #[trigger] h.nodes[t].id == k;
            if t < g.nodes.len() {
                assert(g.nodes[t].id == k);
            }
        }
    }
}

/// Removing a node keeps links symmetric.
pub(crate) proof fn lemma_renumbered_symmetric(g: IndexModel, h: IndexModel, d: int)
    requires
        g.graph_ok(),
        g.symmetric(),
        h.renumbered(g, d),
    ensures
        h.symmetric(),
{
    let last = g.nodes.len() - 1;
    assert forall|a: int, l: int, j: int|
        0 <= a < h.nodes.len() && 0 <= l < h.nodes[a].links.len() && 0 <= j < h.nodes[a].links[l].len()
            && l < h.nodes[h.nodes[a].links[l][j] as int].links.len()
        implies h.nodes[#[trigger] h.nodes[a].links[l][j] as int].links[l].contains(a as usize) by {
        let b = h.nodes[a].links[l][j];
        let sa = moved_from(a, d, last);
        assert(h.nodes[a].links.len() == g.nodes[sa].links.len());
        assert(h.adj(a, l).contains(b));
        assert(relinks(g.adj(sa, l), h.adj(a, l), d, last));
        let sb: int = if b == d { last } else { b as int };
        assert(g.adj(sa, l).contains(sb as usize));
        let k = choose|k: int| 0 <= k < g.adj(sa, l).len() && g.adj(sa, l)[k] == sb as usize;
        assert(g.nodes[sa].links[l][k] < g.nodes.len());
        assert(h.nodes[b as int].links.len() == g.nodes[sb].links.len()) by {
            assert(moved_from(b as int, d, last) == sb);
        }
        assert(g.nodes[g.nodes[sa].links[l][k] as int].links[l].contains(sa as usize));
        assert(moved_from(b as int, d, last) == sb);
        assert(relinks(g.adj(sb, l), h.adj(b as int, l), d, last));
        assert(g.adj(sb, l).contains(sa as usize));
        assert(sa != d);
        if sa == last {
            assert(a == d);
            assert(h.adj(b as int, l).contains(d as usize));
        } else {
            assert(sa == a);
            assert(h.adj(b as int, l).contains(a as usize));
        }
    }
}

/// Links are symmetric but for links from slot `n` at layer `lc` to the
/// slots in `pending`.
pub(crate) open spec fn sym_except(g: IndexModel, n: int, lc: int, pending: Seq<usize>) -> bool {
    forall|a: int, l: int, j: int|
        0 <= a < g.nodes.len() && 0 <= l < g.nodes[a].links.len() && 0 <= j < g.nodes[a].links[l].len()
            && l < g.nodes[g.nodes[a].links[l][j] as int].links.len()
            ==> g.nodes[#[trigger] g.nodes[a].links[l][j] as int].links[l].contains(a as usize) || (a == n && l == lc
            && pending.contains(g.nodes[a].links[l][j]))
}

/// Every list of the first `n` slots at layers up to `top` has room.
pub(crate) open spec fn room_below(g: IndexModel, n: int, top: int) -> bool {
    forall|s: int, l: int|
        0 <= s < n && 0 <= l <= top && l < g.nodes[s].links.len() ==> (#[trigger] g.nodes[s].links[l]).len() < g.cap(l)
}

/// No list at layers up to `top` holds slot `n`.
pub(crate) open spec fn unlinked_below(g: IndexModel, n: usize, top: int) -> bool {
    forall|s: int, l: int|
        0 <= s < g.nodes.len() && 0 <= l <= top && l < g.nodes[s].links.len() ==> !(
        #[trigger] g.nodes[s].links[l]).contains(n)
}

/// Giving the new node its neighbour list at `lc` leaves only its own
/// links at `lc` without a link back.
pub(crate) proof fn lemma_sym_open(g: IndexModel, n: int, lc: int, sel: Seq<usize>)
    requires
        g.no_dangling(),
        g.symmetric(),
        unlinked_below(g, n as usize, lc),
        0 <= n < g.nodes.len(),
        0 <= lc < g.nodes[n].links.len(),
        g.adj(n, lc).len() == 0,
    ensures
        sym_except(g.with_links(n, lc, sel), n, lc, sel),
{
    let h = g.with_links(n, lc, sel);
    assert forall|a: int, l: int, j: int|
        0 <= a < h.nodes.len() && 0 <= l < h.nodes[a].links.len() && 0 <= j < h.nodes[a].links[l].len()
            && l < h.nodes[h.nodes[a].links[l][j] as int].links.len()
        implies h.nodes[#[trigger] h.nodes[a].links[l][j] as int].links[l].contains(a as usize) || (a == n && l == lc
            && sel.contains(h.nodes[a].links[l][j])) by {
        let b = h.nodes[a].links[l][j];
        if a == n && l == lc {
            assert(sel[j] == b);
        } else {
            assert(g.nodes[a].links[l][j] == b);
            assert(b < g.nodes.len());
            assert(g.nodes[b as int].links[l].contains(a as usize));
            if b == n && l == lc {
                assert(false);
            }
            assert(h.nodes[b as int].links[l] == g.nodes[b as int].links[l]);
        }
    }
}

/// Linking the `i`th selected neighbour back to the new node settles that
/// link.
pub(crate) proof fn lemma_sym_back(g: IndexModel, n: int, lc: int, sel: Seq<usize>, i: int)
    requires
        g.no_self_links(),
        g.no_dangling(),
        g.nodes.len() <= usize::MAX,
        sym_except(g, n, lc, sel.subrange(i, sel.len() as int)),
        sel.no_duplicates(),
        0 <= i < sel.len(),
        0 <= n < g.nodes.len(),
        0 <= lc < g.nodes[n].links.len(),
        g.adj(n, lc) == sel,
        sel[i] != n,
        sel[i] < g.nodes.len(),
        lc < g.nodes[sel[i] as int].links.len(),
    ensures
        sym_except(
            g.with_links(sel[i] as int, lc, g.adj(sel[i] as int, lc).push(n as usize)),
            n,
            lc,
            sel.subrange(i + 1, sel.len() as int),
        ),
{
    let s = sel[i] as int;
    let grown = g.adj(s, lc).push(n as usize);
    let h = g.with_links(s, lc, grown);
    let pend = sel.subrange(i, sel.len() as int);
    let rest = sel.subrange(i + 1, sel.len() as int);
    assert forall|a: int, l: int, j: int|
        0 <= a < h.nodes.len() && 0 <= l < h.nodes[a].links.len() && 0 <= j < h.nodes[a].links[l].len()
            && l < h.nodes[h.nodes[a].links[l][j] as int].links.len()
        implies h.nodes[#[trigger] h.nodes[a].links[l][j] as int].links[l].contains(a as usize) || (a == n && l == lc
            && rest.contains(h.nodes[a].links[l][j])) by {
        let b = h.nodes[a].links[l][j];
        if a == s && l == lc {
            if j == grown.len() - 1 {
                assert(b == n);
                assert(h.nodes[n].links[lc] == sel);
                assert(sel[i] == s);
            } else {
                assert(g.nodes[a].links[l][j] == b);
                assert(b != s);
                assert(g.nodes[b as int].links[l].contains(a as usize) || (a == n && l == lc && pend.contains(b)));
                assert(h.nodes[b as int].links[l] == g.nodes[b as int].links[l]);
            }
        } else {
            assert(g.nodes[a].links[l][j] == b);
            assert(b < g.nodes.len());
            if g.nodes[b as int].links[l].contains(a as usize) {
                let q = choose|q: int| 0 <= q < g.nodes[b as int].links[l].len() && g.nodes[b as int].links[l][q] == a as usize;
                if b == s && l == lc {
                    assert(h.nodes[b as int].links[l][q] == a as usize);
                } else {
                    assert(h.nodes[b as int].links[l] == g.nodes[b as int].links[l]);
                }
            } else {
                assert(a == n && l == lc && pend.contains(b));
                let k = choose|k: int| 0 <= k < pend.len() && pend[k] == b;
                if b == s {
                    assert(h.nodes[s].links[lc][grown.len() - 1] == n as usize);
                } else {
                    assert(k != 0);
                    assert(rest[k - 1] == b);
                }
            }
        }
    }
}

/// A selected neighbour that does not have layer `lc`, or already links
/// back, needs no link back.
pub(crate) proof fn lemma_sym_skip(g: IndexModel, n: int, lc: int, sel: Seq<usize>, i: int)
    requires
        sym_except(g, n, lc, sel.subrange(i, sel.len() as int)),
        0 <= i < sel.len(),
        sel[i] < g.nodes.len(),
        lc >= g.nodes[sel[i] as int].links.len() || g.adj(sel[i] as int, lc).contains(n as usize),
    ensures
        sym_except(g, n, lc, sel.subrange(i + 1, sel.len() as int)),
{
    let pend = sel.subrange(i, sel.len() as int);
    let rest = sel.subrange(i + 1, sel.len() as int);
    assert forall|a: int, l: int, j: int|
        0 <= a < g.nodes.len() && 0 <= l < g.nodes[a].links.len() && 0 <= j < g.nodes[a].links[l].len()
            && l < g.nodes[g.nodes[a].links[l][j] as int].links.len()
        implies g.nodes[#[trigger] g.nodes[a].links[l][j] as int].links[l].contains(a as usize) || (a == n && l == lc
            && rest.contains(g.nodes[a].links[l][j])) by {
        let b = g.nodes[a].links[l][j];
        if !g.nodes[b as int].links[l].contains(a as usize) {
            let k = choose|k: int| 0 <= k < pend.len() && pend[k] == b;
            if k == 0 {
                assert(b == sel[i]);
            } else {
                assert(rest[k - 1] == b);
            }
        }
    }
}

/// Entries with distinct slots below `n` number at most `n`.
pub(crate) proof fn lemma_distinct_bound(s: Seq<Scored>, n: int)
    requires
        distinct_slots(s),
        0 <= n,
        forall|i: int| 0 <= i < s.len() ==> (#[trigger] s[i]).0 < n,
    ensures
        s.len() <= n,
{
    let t = s.map_values(|x: Scored| x.0 as int);
    assert(t.no_duplicates()) by {
        assert forall|i: int, j: int| 0 <= i < t.len() && 0 <= j < t.len() && i != j implies t[i] != t[j] by {
            if i < j {
                assert(s[i].0 != s[j].0);
            } else {
                assert(s[j].0 != s[i].0);
            }
        }
    }
    t.unique_seq_to_set();
    lemma_int_range(0, n);
    assert(t.to_set().subset_of(set_int_range(0, n))) by {
        assert forall|x: int| t.to_set().contains(x) implies set_int_range(0, n).contains(x) by {
            let i = choose|i: int| 0 <= i < t.len() && t[i] == x;
            assert(s[i].0 < n);
        }
    }
    lemma_len_subset(t.to_set(), set_int_range(0, n));
}

/// Whether some node links to slot `x` at `layer`.
pub open spec fn has_in_link(g: IndexModel, x: usize, layer: int) -> bool {
    exists|a: int| 0 <= a < g.nodes.len() && #[trigger] g.linked(a, layer, x)
}

/// Whether every in-range neighbour of slot `x` at `layer` is visited.
pub(crate) open spec fn expanded(g: IndexModel, visited: Seq<bool>, x: int, layer: int) -> bool {
    layer < g.nodes[x].links.len() ==> forall|q: int|
        0 <= q < g.adj(x, layer).len() && #[trigger] g.adj(x, layer)[q] < visited.len() ==> visited[g.adj(x, layer)[q] as int]
}

/// Whether every in-range neighbour of slot `x` at `layer` has a slot in `r`.
pub open spec fn reach_closed(g: IndexModel, r: Seq<Scored>, x: int, layer: int) -> bool {
    layer < g.nodes[x].links.len() ==> forall|q: int|
        0 <= q < g.adj(x, layer).len() && #[trigger] g.adj(x, layer)[q] < g.nodes.len() ==> has_slot(r, g.adj(x, layer)[q])
}

/// Visiting more slots keeps a slot expanded.
pub(crate) proof fn lemma_expanded_grows(g: IndexModel, v0: Seq<bool>, v1: Seq<bool>, x: int, layer: int)
    requires
        expanded(g, v0, x, layer),
        v0.len() == v1.len(),
        forall|y: int| 0 <= y < v0.len() && #[trigger] v0[y] ==> v1[y],
    ensures
        expanded(g, v1, x, layer),
{
    if layer < g.nodes[x].links.len() {
        assert forall|q: int| 0 <= q < g.adj(x, layer).len() && #[trigger] g.adj(x, layer)[q] < v1.len()
            implies v1[g.adj(x, layer)[q] as int] by {
            assert(v0[g.adj(x, layer)[q] as int]);
        }
    }
}

/// Inserting into a sequence keeps its entries.
pub(crate) proof fn lemma_insert_keeps(s: Seq<Scored>, p: int, item: Scored)
    requires
        0 <= p <= s.len(),
    ensures
        forall|k: int| 0 <= k < s.len() ==> s.insert(p, item).contains(#[trigger] s[k]),
{
    assert forall|k: int| 0 <= k < s.len() implies s.insert(p, item).contains(#[trigger] s[k]) by {
        if k < p {
            assert(s.insert(p, item)[k] == s[k]);
        } else {
            assert(s.insert(p, item)[k + 1] == s[k]);
        }
    }
}

/// Appending an entry with a new slot keeps slots distinct.
pub(crate) proof fn lemma_push_distinct(s: Seq<Scored>, item: Scored)
    requires
        distinct_slots(s),
        !has_slot(s, item.0),
    ensures
        distinct_slots(s.push(item)),
{
    let t = s.push(item);
    assert forall|i: int, j: int| 0 <= i < j < t.len() implies #[trigger] t[i].0 != #[trigger] t[j].0 by {
        if j == s.len() {
            assert(t[i] == s[i]);
        } else {
            assert(t[i] == s[i]);
            assert(t[j] == s[j]);
        }
    }
}

/// Entries with distinct slots below `n`, none of them `z`, number fewer
/// than `n`.
pub(crate) proof fn lemma_distinct_bound_without(s: Seq<Scored>, n: int, z: usize)
    requires
        distinct_slots(s),
        0 <= z < n,
        forall|i: int| 0 <= i < s.len() ==> (#[trigger] s[i]).0 < n && s[i].0 != z,
    ensures
        s.len() < n,
{
    let t = s.map_values(|x: Scored| x.0 as int);
    assert(t.no_duplicates()) by {
        assert forall|i: int, j: int| 0 <= i < t.len() && 0 <= j < t.len() && i != j implies t[i] != t[j] by {
            if i < j {
                assert(s[i].0 != s[j].0);
            } else {
                assert(s[j].0 != s[i].0);
            }
        }
    }
    t.unique_seq_to_set();
    lemma_int_range(0, n);
    let range = set_int_range(0, n).remove(z as int);
    assert(t.to_set().subset_of(range)) by {
        assert forall|x: int| t.to_set().contains(x) implies range.contains(x) by {
            let i = choose|i: int| 0 <= i < t.len() && t[i] == x;
            assert(s[i].0 < n);
            assert(s[i].0 != z);
        }
    }
    lemma_len_subset(t.to_set(), range);
}

/// Entries with distinct slots below `n` that cover every slot below `n`
/// number exactly `n`.
pub(crate) proof fn lemma_distinct_cover(s: Seq<Scored>, n: int)
    requires
        distinct_slots(s),
        0 <= n,
        forall|i: int| 0 <= i < s.len() ==> (#[trigger] s[i]).0 < n,
        forall|y: int| 0 <= y < n ==> #[trigger] has_slot(s, y as usize),
        n <= usize::MAX,
    ensures
        s.len() == n,
{
    lemma_distinct_bound(s, n);
    let t = s.map_values(|x: Scored| x.0 as int);
    assert(t.no_duplicates()) by {
        assert forall|i: int, j: int| 0 <= i < t.len() && 0 <= j < t.len() && i != j implies t[i] != t[j] by {
            if i < j {
                assert(s[i].0 != s[j].0);
            } else {
                assert(s[j].0 != s[i].0);
            }
        }
    }
    t.unique_seq_to_set();
    lemma_int_range(0, n);
    assert(set_int_range(0, n).subset_of(t.to_set())) by {
        assert forall|y: int| set_int_range(0, n).contains(y) implies t.to_set().contains(y) by {
            assert(has_slot(s, y as usize));
            let i = choose|i: int| 0 <= i < s.len() && #[trigger] s[i].0 == y as usize;
            assert(t[i] == y);
        }
    }
    lemma_len_subset(set_int_range(0, n), t.to_set());
}

/// Number of unvisited slots.
pub open spec fn unvisited(v: Seq<bool>) -> nat
    decreases v.len(),
{
    if v.len() == 0 {
        0
    } else {
        unvisited(v.drop_last()) + if v.last() {
            0nat
        } else {
            1nat
        }
    }
}

/// Visiting an unvisited slot lowers the count of unvisited slots by one.
pub(crate) proof fn lemma_visit(v: Seq<bool>, i: int)
    requires
        0 <= i < v.len(),
        !v[i],
    ensures
        unvisited(v.update(i, true)) + 1 == unvisited(v),
    decreases v.len(),
{
    let w = v.update(i, true);
    if i == v.len() - 1 {
        assert(w.drop_last() =~= v.drop_last());
    } else {
        assert(w.drop_last() =~= v.drop_last().update(i, true));
        lemma_visit(v.drop_last(), i);
    }
}

/// Inserting an entry with a new slot keeps slots distinct.
pub(crate) proof fn lemma_insert_distinct(s: Seq<Scored>, p: int, item: Scored)
    requires
        distinct_slots(s),
        !has_slot(s, item.0),
        0 <= p <= s.len(),
    ensures
        distinct_slots(s.insert(p, item)),
{
    let t = s.insert(p, item);
    assert forall|i: int, j: int| 0 <= i < j < t.len() implies #[trigger] t[i].0 != #[trigger] t[j].0 by {
        if i == p {
            assert(s[j - 1].0 == t[j].0);
        } else if j == p {
            assert(s[i].0 == t[i].0);
        }
    }
}


/// The internal distance from the node in slot `x` to the query.
pub open spec fn dist_to<K: DistanceKernel>(k: &K, g: IndexModel, x: int, q: Seq<u32>) -> u32 {
    internal_of(k, g.metric, g.nodes[x].vector, q)
}

/// Every entry naming a node carries that node's internal distance to the
/// query.
pub open spec fn scored_by<K: DistanceKernel>(k: &K, g: IndexModel, q: Seq<u32>, s: Seq<Scored>) -> bool {
    forall|i: int| 0 <= i < s.len() && (#[trigger] s[i]).0 < g.nodes.len() ==> s[i].1 == dist_to(k, g, s[i].0 as int, q)
}

/// A sequence whose entries are entries of `s` or `item` is scored when
/// `s` and `item` are.
pub(crate) proof fn lemma_scored_from<K: DistanceKernel>(k: &K, g: IndexModel, q: Seq<u32>, s: Seq<Scored>, t: Seq<Scored>, item: Scored)
    requires
        scored_by(k, g, q, s),
        item.0 < g.nodes.len() ==> item.1 == dist_to(k, g, item.0 as int, q),
        forall|i: int| 0 <= i < t.len() ==> s.contains(#[trigger] t[i]) || t[i] == item,
    ensures
        scored_by(k, g, q, t),
{
    assert forall|i: int| 0 <= i < t.len() && (#[trigger] t[i]).0 < g.nodes.len() implies t[i].1 == dist_to(k, g, t[i].0 as int, q) by {
        if t[i] != item {
            let j = choose|j: int| 0 <= j < s.len() && s[j] == t[i];
            assert(s[j].0 < g.nodes.len());
        }
    }
}

/// Entries of `s.insert(p, item)` are entries of `s` or `item`.
pub(crate) proof fn lemma_insert_from(s: Seq<Scored>, p: int, item: Scored)
    requires
        0 <= p <= s.len(),
    ensures
        forall|i: int| 0 <= i < s.insert(p, item).len() ==> s.contains(#[trigger] s.insert(p, item)[i]) || s.insert(p, item)[i] == item,
{
    let t = s.insert(p, item);
    assert forall|i: int| 0 <= i < t.len() implies s.contains(#[trigger] t[i]) || t[i] == item by {
        if i < p {
            assert(t[i] == s[i]);
        } else if i > p {
            assert(t[i] == s[i - 1]);
        }
    }
}

/// Entries of a subsequence kept by `drop_last`, `remove` or `push` are
/// entries of the original or the pushed item.
pub(crate) proof fn lemma_drop_last_from(s: Seq<Scored>)
    requires
        s.len() > 0,
    ensures
        forall|i: int| 0 <= i < s.drop_last().len() ==> s.contains(#[trigger] s.drop_last()[i]),
{
    assert forall|i: int| 0 <= i < s.drop_last().len() implies s.contains(#[trigger] s.drop_last()[i]) by {
        assert(s[i] == s.drop_last()[i]);
    }
}

pub(crate) proof fn lemma_remove_from(s: Seq<Scored>, p: int)
    requires
        0 <= p < s.len(),
    ensures
        forall|i: int| 0 <= i < s.remove(p).len() ==> s.contains(#[trigger] s.remove(p)[i]),
{
    assert forall|i: int| 0 <= i < s.remove(p).len() implies s.contains(#[trigger] s.remove(p)[i]) by {
        if i < p {
            assert(s[i] == s.remove(p)[i]);
        } else {
            assert(s[i + 1] == s.remove(p)[i]);
        }
    }
}

pub(crate) proof fn lemma_push_from(s: Seq<Scored>, item: Scored)
    ensures
        forall|i: int| 0 <= i < s.push(item).len() ==> s.contains(#[trigger] s.push(item)[i]) || s.push(item)[i] == item,
{
    assert forall|i: int| 0 <= i < s.push(item).len() implies s.contains(#[trigger] s.push(item)[i]) || s.push(item)[i] == item by {
        if i < s.len() {
            assert(s[i] == s.push(item)[i]);
        }
    }
}

/// `r` reports the scored slots `s`, in order: each node's ID with the final
/// distance of its internal distance to the query.
pub open spec fn reports<K: DistanceKernel>(k: &K, g: IndexModel, q: Seq<u32>, s: Seq<Scored>, r: Seq<(String, u32)>) -> bool {
    &&& s.len() == r.len()
    &&& forall|i: int|
        0 <= i < s.len() ==> (#[trigger] s[i]).0 < g.nodes.len() && r[i].0@ == g.nodes[s[i].0 as int].id && s[i].1
            == dist_to(k, g, s[i].0 as int, q) && r[i].1 == final_of(k, g.metric, s[i].1)
}

/// The internal distance between the nodes in slots `s` and `x`.
pub open spec fn link_dist<K: DistanceKernel>(k: &K, g: IndexModel, s: int, x: int) -> u32 {
    internal_of(k, g.metric, g.nodes[s].vector, g.nodes[x].vector)
}

/// Removing a node keeps every other ID's vector, and adds none.
pub proof fn lemma_renumbered_vectors(h: IndexModel, g: IndexModel, d: int)
    requires
        h.renumbered(g, d),
    ensures
        forall|k: Seq<char>, v: Seq<u32>| k != g.nodes[d].id ==> (#[trigger] h.holds_vector(k, v) <==> g.holds_vector(k, v)),
{
    let last = g.nodes.len() - 1;
    assert forall|k: Seq<char>, v: Seq<u32>| k != g.nodes[d].id implies (#[trigger] h.holds_vector(k, v) <==> g.holds_vector(k, v)) by {
        if g.holds_vector(k, v) {
            let s = choose|s: int| 0 <= s < g.nodes.len() && #[trigger] g.nodes[s].id == k && g.nodes[s].vector == v;
            let t = if s == last { d } else { s };
            assert(moved_from(t, d, last) == s);
            assert(h.nodes[t].id == k);
        }
        if h.holds_vector(k, v) {
            let t = choose|t: int| 0 <= t < h.nodes.len() && #[trigger] h.nodes[t].id == k && h.nodes[t].vector == v;
            assert(g.nodes[moved_from(t, d, last)].id == k);
        }
    }
}

/// Adding a node keeps every other ID's vector, and adds none.
pub proof fn lemma_extends_vectors(h: IndexModel, g: IndexModel)
    requires
        h.extends(g),
        h.nodes.len() == g.nodes.len() + 1,
    ensures
        forall|k: Seq<char>, v: Seq<u32>| k != h.nodes.last().id ==> (#[trigger] h.holds_vector(k, v) <==> g.holds_vector(k, v)),
{
    assert forall|k: Seq<char>, v: Seq<u32>| k != h.nodes.last().id implies (#[trigger] h.holds_vector(k, v) <==> g.holds_vector(k, v)) by {
        if g.holds_vector(k, v) {
            let s = choose|s: int| 0 <= s < g.nodes.len() && #[trigger] g.nodes[s].id == k && g.nodes[s].vector == v;
            assert(h.nodes[s].id == k);
        }
        if h.holds_vector(k, v) {
            let t = choose|t: int| 0 <= t < h.nodes.len() && #[trigger] h.nodes[t].id == k && h.nodes[t].vector == v;
            if t == g.nodes.len() {
                assert(h.nodes.last() == h.nodes[t]);
            }
            assert(g.nodes[t].id == k);
        }
    }
}

/// Whether a set of slots holds every in-range neighbour at `layer` of each
/// of its slots.
pub open spec fn layer_closed(g: IndexModel, set: Set<int>, layer: int) -> bool {
    forall|x: int, q: int|
        0 <= x < g.nodes.len() && set.contains(x) && layer < g.nodes[x].links.len() && 0 <= q < g.adj(x, layer).len()
            && g.adj(x, layer)[q] < g.nodes.len() ==> set.contains(#[trigger] g.adj(x, layer)[q] as int)
}

/// Whether a set of slots holds every in-range slot of `entries`.
pub open spec fn holds_entries(g: IndexModel, set: Set<int>, entries: Seq<usize>) -> bool {
    forall|i: int| 0 <= i < entries.len() && entries[i] < g.nodes.len() ==> set.contains(#[trigger] entries[i] as int)
}

/// The first entry of `r` is no farther from the query than any visited slot.
pub open spec fn below_first<K: DistanceKernel>(k: &K, g: IndexModel, q: Seq<u32>, r: Seq<Scored>, v: Seq<bool>) -> bool {
    forall|x: int| 0 <= x < v.len() && #[trigger] v[x] ==> r.len() > 0 && dist_key(r[0].1) <= dist_key(dist_to(k, g, x, q))
}

/// Every visited slot kept in `r` and no longer waiting in `c`, but for
/// `skip`, has had its neighbours at `layer` visited.
pub(crate) open spec fn settled(g: IndexModel, r: Seq<Scored>, c: Seq<Scored>, v: Seq<bool>, layer: int, skip: int) -> bool {
    forall|x: int| 0 <= x < v.len() && #[trigger] v[x] && has_slot(r, x as usize) && !has_slot(c, x as usize) && x != skip
        ==> expanded(g, v, x, layer)
}

/// The first entry of an ascending sequence is no farther than any other.
pub(crate) proof fn lemma_first_le(s: Seq<Scored>, k: int)
    requires
        ascending(s),
        0 <= k < s.len(),
    ensures
        dist_key(s[0].1) <= dist_key(s[k].1),
{
    if k > 0 {
        assert(dist_key(s[0].1) <= dist_key(s[k].1));
    }
}

/// The stored IDs, as a set; with unique IDs it has one element per node.
pub proof fn lemma_id_set(g: IndexModel)
    requires
        g.ids_unique(),
    ensures
        node_ids(g).to_set().len() == g.nodes.len(),
        forall|k: Seq<char>| #[trigger] node_ids(g).to_set().contains(k) <==> g.has_id(k),
{
    let ids = node_ids(g);
    assert(ids.no_duplicates()) by {
        assert forall|i: int, j: int| 0 <= i < ids.len() && 0 <= j < ids.len() && i != j implies ids[i] != ids[j] by {
            assert(g.nodes[i].id != g.nodes[j].id);
        }
    }
    ids.unique_seq_to_set();
    assert forall|k: Seq<char>| #[trigger] ids.to_set().contains(k) <==> g.has_id(k) by {
        if g.has_id(k) {
            let s = choose|s: int| 0 <= s < g.nodes.len() && #[trigger] g.nodes[s].id == k;
            assert(ids[s] == k);
        }
        if ids.to_set().contains(k) {
            let i = choose|i: int| 0 <= i < ids.len() && ids[i] == k;
            assert(g.nodes[i].id == k);
        }
    }
}

} // verus!
