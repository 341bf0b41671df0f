//! The hierarchical navigable small-world graph.
//!
//! Nodes live in a dense table of slots; links between nodes are slot numbers.
//! Deleting a node moves the last node into its slot and renumbers the links
//! that pointed at the moved node. A hash table from IDs to slots
//! ([`crate::idtable::IdTable`]) makes lookups by ID independent of the
//! number of nodes. The model and its lemmas are in [`crate::model`].

use vstd::prelude::*;
use crate::level::{MAX_LEVEL, random_level};
use crate::model::{IndexModel, NodeModel, node_ids, below_first, settled, lemma_first_le, layer_closed, holds_entries, dist_to, link_dist, scored_by, reports, lemma_scored_from, lemma_insert_from, lemma_drop_last_from, lemma_remove_from, lemma_push_from, expanded, has_in_link, lemma_distinct_bound, lemma_distinct_bound_without, lemma_distinct_cover, lemma_expanded_grows, lemma_extends_with_links, lemma_insert_distinct, lemma_insert_keeps, lemma_push_distinct, lemma_renumbered, lemma_renumbered_nodes, lemma_renumbered_symmetric, lemma_sym_back, lemma_sym_open, lemma_sym_skip, lemma_visit, lemma_with_links, moved_from, reach_closed, relinks, room_below, sym_except, unlinked_below, unvisited};
use crate::metric::{DistanceKernel, DistanceMetric, dist_key, final_distance, final_of, internal_distance, internal_of};
use crate::idtable::{IdTable, id_seq, unique_ids};
use crate::persist::{IndexParts, NodeParts, conn, list_ok, list_valid, node_valid, node_written, part_cap, part_ids, parts_valid, written};
use crate::queue::{MaxQueue, MinQueue, Scored, ascending, distinct_slots, has_slot};

verus! {

struct Node {
    id: String,
    vector: Vec<u32>,
    links: Vec<Vec<usize>>,
}

impl View for Node {
    type V = NodeModel;

    closed spec fn view(&self) -> NodeModel {
        NodeModel { id: self.id@, vector: self.vector@, links: self.links@.map_values(|l: Vec<usize>| l@) }
    }
}

/// Approximate nearest-neighbour index over vectors of a fixed dimensionality.
pub struct HNSWIndex {
    pub dimensions: usize,
    m: usize,
    ef_construction: usize,
    pub metric: DistanceMetric,
    nodes: Vec<Node>,
    entry_point: Option<usize>,
    max_layer: usize,
    ids: IdTable,
}

impl View for HNSWIndex {
    type V = IndexModel;

    closed spec fn view(&self) -> IndexModel {
        IndexModel {
            dimensions: self.dimensions as nat,
            m: self.m as nat,
            ef_construction: self.ef_construction as nat,
            metric: self.metric,
            nodes: self.nodes@.map_values(|n: Node| n@),
            entry_point: self.entry_point,
            max_layer: self.max_layer as nat,
        }
    }
}

fn same_id(a: &String, b: &str) -> (r: bool)
    ensures
        r == (a@ == b@),
{
    *a == b.to_owned()
}

/// The slots of a sequence of scored entries, in order.
fn slots_of(s: &Vec<Scored>) -> (r: Vec<usize>)
    ensures
        r@.len() == s@.len(),
        forall|i: int| 0 <= i < s@.len() ==> #[trigger] r@[i] == s@[i].0,
        distinct_slots(s@) ==> r@.no_duplicates(),
{
    let mut r: Vec<usize> = Vec::new();
    let mut i: usize = 0;
    while i < s.len()
        invariant
            i <= s@.len(),
            r@.len() == i,
            forall|j: int| 0 <= j < i ==> #[trigger] r@[j] == s@[j].0,
        decreases s@.len() - i,
    {
        r.push(s[i].0);
        i = i + 1;
    }
    r
}

/// The first `cap` slots of the candidates other than `exclude`, in order.
fn select_neighbors(cands: &Vec<Scored>, cap: usize, exclude: usize) -> (r: Vec<usize>)
    requires
        distinct_slots(cands@),
    ensures
        r@.no_duplicates(),
        r@.len() <= cap,
        forall|j: int| 0 <= j < r@.len() ==> #[trigger] r@[j] != exclude && has_slot(cands@, r@[j]),
        cap > 0 && cands@.len() > 0 && cands@[0].0 != exclude ==> r@.len() > 0,
{
    let mut r: Vec<usize> = Vec::new();
    let mut i: usize = 0;
    while i < cands.len() && r.len() < cap
        invariant
            distinct_slots(cands@),
            i <= cands@.len(),
            r@.len() <= cap,
            r@.no_duplicates(),
            forall|j: int| 0 <= j < r@.len() ==> #[trigger] r@[j] != exclude && exists|k: int| 0 <= k < i && cands@[k].0 == r@[j],
            i > 0 && cap > 0 && cands@[0].0 != exclude ==> r@.len() > 0,
        decreases cands@.len() - i,
    {
        let x = cands[i].0;
        if x != exclude {
            proof {
                assert forall|j: int| 0 <= j < r@.len() implies #[trigger] r@[j] != x by {
                    let k = choose|k: int| 0 <= k < i && cands@[k].0 == r@[j];
                    assert(cands@[k].0 != cands@[i as int].0);
                }
            }
            r.push(x);
        }
        i = i + 1;
    }
    proof {
        assert forall|j: int| 0 <= j < r@.len() implies #[trigger] r@[j] != exclude && has_slot(cands@, r@[j]) by {
            let k = choose|k: int| 0 <= k < i && cands@[k].0 == r@[j];
            assert(cands@[k].0 == r@[j]);
        }
    }
    r
}

/// A copy of a slot list.
fn slots_copy(list: &Vec<usize>) -> (r: Vec<usize>)
    ensures
        r@ == list@,
{
    let mut r: Vec<usize> = Vec::new();
    let mut i: usize = 0;
    while i < list.len()
        invariant
            i <= list@.len(),
            r@ == list@.subrange(0, i as int),
        decreases list@.len() - i,
    {
        r.push(list[i]);
        i = i + 1;
    }
    assert(list@.subrange(0, list@.len() as int) =~= list@);
    r
}

/// `list` without `d`, with `last` renamed to `d`.
fn relink(list: &Vec<usize>, d: usize, last: usize) -> (r: Vec<usize>)
    ensures
        relinks(list@, r@, d as int, last as int),
{
    let mut r: Vec<usize> = Vec::new();
    let mut i: usize = 0;
    while i < list.len()
        invariant
            i <= list@.len(),
            r@.len() <= i,
            list@.no_duplicates() ==> r@.no_duplicates(),
            forall|x: usize| #[trigger] r@.contains(x) <==> (list@.subrange(0, i as int).contains(x) && x != d
                && x != last) || (x == d && d != last && list@.subrange(0, i as int).contains(last)),
        decreases list@.len() - i,
    {
        let y = list[i];
        let ghost pre = list@.subrange(0, i as int);
        let ghost post = list@.subrange(0, i + 1);
        assert(post =~= pre.push(y));
        if y != d {
            let z = if y == last { d } else { y };
            proof {
                if list@.no_duplicates() {
                    assert(!pre.contains(y)) by {
                        if pre.contains(y) {
                            let k = choose|k: int| 0 <= k < pre.len() && pre[k] == y;
                            assert(list@[k] == list@[i as int]);
                        }
                    }
                }
            }
            let ghost r0 = r@;
            r.push(z);
            proof {
                assert(r@ == r0.push(z));
                assert forall|x: usize| #[trigger] r@.contains(x) <==> (post.contains(x) && x != d && x != last)
                    || (x == d && d != last && post.contains(last)) by {
                    assert(r@.contains(x) <==> (r0.contains(x) || x == z)) by {
                        if r@.contains(x) && x != z {
                            let k = choose|k: int| 0 <= k < r@.len() && r@[k] == x;
                            assert(r0[k] == x);
                        }
                        if r0.contains(x) {
                            let k = choose|k: int| 0 <= k < r0.len() && r0[k] == x;
                            assert(r@[k] == x);
                        }
                        if x == z {
                            assert(r@[r0.len() as int] == x);
                        }
                    }
                    assert(post.contains(x) <==> (pre.contains(x) || x == y)) by {
                        if post.contains(x) && x != y {
                            let k = choose|k: int| 0 <= k < post.len() && post[k] == x;
                            assert(pre[k] == x);
                        }
                        if pre.contains(x) {
                            let k = choose|k: int| 0 <= k < pre.len() && pre[k] == x;
                            assert(post[k] == x);
                        }
                        assert(post[i as int] == y);
                    }
                    assert(post.contains(last) <==> (pre.contains(last) || last == y)) by {
                        if post.contains(last) && last != y {
                            let k = choose|k: int| 0 <= k < post.len() && post[k] == last;
                            assert(pre[k] == last);
                        }
                        if pre.contains(last) {
                            let k = choose|k: int| 0 <= k < pre.len() && pre[k] == last;
                            assert(post[k] == last);
                        }
                        assert(post[i as int] == y);
                    }
                }
                if list@.no_duplicates() {
                    assert(!r0.contains(z));
                    assert forall|a: int, b: int| 0 <= a < b < r@.len() implies r@[a] != r@[b] by {
                        if b == r@.len() - 1 {
                            assert(r0.contains(r0[a]));
                        }
                    }
                }
            }
        } else {
            proof {
                assert forall|x: usize| #[trigger] r@.contains(x) <==> (post.contains(x) && x != d && x != last)
                    || (x == d && d != last && post.contains(last)) by {
                    if post.contains(x) && x != y {
                        let k = choose|k: int| 0 <= k < post.len() && post[k] == x;
                        assert(pre[k] == x);
                    }
                    if post.contains(last) && last != y {
                        let k = choose|k: int| 0 <= k < post.len() && post[k] == last;
                        assert(pre[k] == last);
                    }
                    if pre.contains(x) {
                        let k = choose|k: int| 0 <= k < pre.len() && pre[k] == x;
                        assert(post[k] == x);
                    }
                    if pre.contains(last) {
                        let k = choose|k: int| 0 <= k < pre.len() && pre[k] == last;
                        assert(post[k] == last);
                    }
                }
            }
        }
        i = i + 1;
    }
    assert(list@.subrange(0, list@.len() as int) =~= list@);
    r
}

/// A copy of a vector.
pub(crate) fn copy_vector(v: &Vec<u32>) -> (r: Vec<u32>)
    ensures
        r@ == v@,
{
    let r = v.clone();
    assert(r@ =~= v@);
    r
}

/// Resolves neighbour IDs to positions in `names`; `None` unless they name
/// only other entries than `own`, none twice, at most `cap` of them.
fn resolve_list(table: &IdTable, names: &Vec<String>, list: &Vec<String>, own: usize, cap: usize) -> (r: Option<Vec<usize>>)
    requires
        table.indexes(id_seq(names@)),
        unique_ids(id_seq(names@)),
        own < names@.len(),
    ensures
        r is Some <==> list_ok(id_seq(names@), id_seq(list@), own as int, cap as int),
        r matches Some(v) ==> {
            &&& v@.len() == list@.len()
            &&& v@.no_duplicates()
            &&& forall|j: int| 0 <= j < v@.len() ==> #[trigger] v@[j] < names@.len() && v@[j] != own
                && names@[v@[j] as int]@ == list@[j]@
        },
{
    let ghost ids = id_seq(names@);
    let ghost c = id_seq(list@);
    if list.len() > cap {
        return None;
    }
    let mut v: Vec<usize> = Vec::new();
    let mut j: usize = 0;
    while j < list.len()
        invariant
            table.indexes(id_seq(names@)),
            unique_ids(ids),
            ids == id_seq(names@),
            c == id_seq(list@),
            own < names@.len(),
            list@.len() <= cap,
            j <= list@.len(),
            v@.len() == j,
            v@.no_duplicates(),
            forall|k: int| 0 <= k < j ==> #[trigger] v@[k] < names@.len() && v@[k] != own && names@[v@[k] as int]@
                == list@[k]@,
            forall|k: int| 0 <= k < j ==> ids.contains(#[trigger] c[k]) && c[k] != ids[own as int],
            forall|a: int, b: int| 0 <= a < b < j ==> #[trigger] c[a] != #[trigger] c[b],
        decreases list@.len() - j,
    {
        let s = match table.lookup(names, list[j].as_str()) {
            Some(s) => s,
            None => {
                proof {
                    assert(!ids.contains(c[j as int])) by {
                        if ids.contains(c[j as int]) {
                            let q = choose|q: int| 0 <= q < ids.len() && ids[q] == c[j as int];
                            assert(names@[q]@ == list@[j as int]@);
                        }
                    }
                }
                return None;
            },
        };
        if s == own {
            proof {
                assert(c[j as int] == ids[own as int]);
            }
            return None;
        }
        if holds_slot(&v, s) {
            proof {
                let k = choose|k: int| 0 <= k < v@.len() && v@[k] == s;
                assert(c[k] == c[j as int]);
            }
            return None;
        }
        proof {
            assert(ids[s as int] == c[j as int]);
            assert(ids.contains(c[j as int]));
            assert forall|a: int| 0 <= a < j implies #[trigger] c[a] != c[j as int] by {
                if c[a] == c[j as int] {
                    assert(ids[v@[a] as int] == ids[s as int]);
                }
            }
            assert forall|a: int| 0 <= a < v@.len() implies v@[a] != s by {}
        }
        v.push(s);
        j = j + 1;
    }
    Some(v)
}

/// `list` followed by `x`.
fn with_pushed(list: &Vec<usize>, x: usize) -> (r: Vec<usize>)
    ensures
        r@ == list@.push(x),
{
    let mut r: Vec<usize> = Vec::new();
    let mut i: usize = 0;
    while i < list.len()
        invariant
            i <= list@.len(),
            r@ == list@.subrange(0, i as int),
        decreases list@.len() - i,
    {
        r.push(list[i]);
        i = i + 1;
    }
    assert(list@.subrange(0, list@.len() as int) =~= list@);
    r.push(x);
    r
}

/// Whether `x` occurs in `list`.
fn holds_slot(list: &Vec<usize>, x: usize) -> (r: bool)
    ensures
        r == list@.contains(x),
{
    let mut i: usize = 0;
    while i < list.len()
        invariant
            i <= list@.len(),
            forall|j: int| 0 <= j < i ==> #[trigger] list@[j] != x,
        decreases list@.len() - i,
    {
        if list[i] == x {
            return true;
        }
        i = i + 1;
    }
    false
}

impl HNSWIndex {
    /// Whether the ID table indexes every node.
    pub closed spec fn ids_indexed(&self) -> bool {
        self.ids.indexes(node_ids(self@))
    }

    /// The index's invariants: those of its model, and an ID table that
    /// indexes every node.
    pub open spec fn wf(&self) -> bool {
        &&& self@.wf()
        &&& self.ids_indexed()
    }

    /// Creates an empty index.
    pub fn new(dimensions: usize, m: usize, ef_construction: usize, metric: DistanceMetric) -> (r: HNSWIndex)
        requires
            m <= usize::MAX / 2,
        ensures
            r.wf(),
            r@.dimensions == dimensions,
            r@.m == m,
            r@.ef_construction == ef_construction,
            r@.metric == metric,
            r@.nodes.len() == 0,
            r@.entry_point is None,
            r@.max_layer == 0,
            r@.symmetric(),
    {
        let r = HNSWIndex {
            dimensions,
            m,
            ef_construction,
            metric,
            nodes: Vec::new(),
            entry_point: None,
            max_layer: 0,
            ids: IdTable::empty(16),
        };
        assert(r@.nodes =~= Seq::<NodeModel>::empty());
        assert(node_ids(r@) =~= Seq::<Seq<char>>::empty());
        r
    }

    /// The dimensionality of stored vectors.
    pub fn dimensions(&self) -> (r: usize)
        ensures
            r == self@.dimensions,
    {
        self.dimensions
    }

    /// The metric distances are measured in.
    pub fn metric(&self) -> (r: DistanceMetric)
        ensures
            r == self@.metric,
    {
        self.metric
    }

    /// The connection budget per non-base layer.
    pub fn m(&self) -> (r: usize)
        ensures
            r == self@.m,
    {
        self.m
    }

    /// The search breadth used while inserting.
    pub fn ef_construction(&self) -> (r: usize)
        ensures
            r == self@.ef_construction,
    {
        self.ef_construction
    }

    /// The current highest layer.
    pub fn max_layer(&self) -> (r: usize)
        ensures
            r == self@.max_layer,
    {
        self.max_layer
    }

    /// The ID of the entry point, if any.
    pub fn entry_point(&self) -> (r: Option<String>)
        requires
            self.wf(),
        ensures
            self@.entry_point is None ==> r is None,
            self@.entry_point matches Some(e) ==> (r matches Some(id) && id@ == self@.nodes[e as int].id),
    {
        match self.entry_point {
            Some(e) => Some(self.nodes[e].id.clone()),
            None => None,
        }
    }

    /// Slot of the node with this ID.
    fn find(&self, id: &str) -> (r: Option<usize>)
        requires
            self.ids_indexed(),
        ensures
            r is None ==> !self@.has_id(id@),
            r matches Some(s) ==> s < self@.nodes.len() && self@.nodes[s as int].id == id@,
    {
        let ghost names = node_ids(self@);
        let cands = self.ids.candidates(Ghost(names), id);
        let mut k: usize = 0;
        while k < cands.len()
            invariant
                names == node_ids(self@),
                k <= cands@.len(),
                forall|q: int| 0 <= q < cands@.len() ==> #[trigger] cands@[q] < names.len(),
                forall|q: int| 0 <= q < k ==> self@.nodes[cands@[q] as int].id != id@,
            decreases cands@.len() - k,
        {
            let s = cands[k];
            assert(self@.nodes[s as int] == self.nodes@[s as int]@);
            if same_id(&self.nodes[s].id, id) {
                return Some(s);
            }
            k = k + 1;
        }
        proof {
            assert forall|t: int| 0 <= t < self@.nodes.len() implies #[trigger] self@.nodes[t].id != id@ by {
                if self@.nodes[t].id == id@ {
                    assert(self.nodes.len() == self.nodes@.len());
                    assert(names[t] == id@);
                    assert(cands@.contains(t as usize));
                    let q = choose|q: int| 0 <= q < cands@.len() && cands@[q] == t as usize;
                }
            }
        }
        None
    }

    /// Whether a node with this ID is stored.
    pub fn contains(&self, id: &str) -> (r: bool)
        requires
            self.wf(),
        ensures
            r == self@.has_id(id@),
    {
        self.find(id).is_some()
    }

    /// The vector stored under this ID.
    pub fn get_vector(&self, id: &str) -> (r: Option<&Vec<u32>>)
        requires
            self.wf(),
        ensures
            r is None ==> !self@.has_id(id@),
            r matches Some(v) ==> exists|s: int|
                0 <= s < self@.nodes.len() && self@.nodes[s].id == id@ && v@ == self@.nodes[s].vector,
    {
        match self.find(id) {
            Some(s) => Some(&self.nodes[s].vector),
            None => None,
        }
    }

    /// The IDs of all stored nodes, in slot order.
    pub fn all_ids(&self) -> (r: Vec<String>)
        ensures
            r@.len() == self@.nodes.len(),
            forall|i: int| 0 <= i < r@.len() ==> (#[trigger] r@[i])@ == self@.nodes[i].id,
    {
        let mut r: Vec<String> = Vec::new();
        let mut s: usize = 0;
        while s < self.nodes.len()
            invariant
                s <= self.nodes@.len(),
                r@.len() == s,
                forall|i: int| 0 <= i < s ==> (#[trigger] r@[i])@ == self@.nodes[i].id,
            decreases self.nodes@.len() - s,
        {
            r.push(self.nodes[s].id.clone());
            s = s + 1;
        }
        r
    }

    /// The number of stored nodes.
    pub fn node_count(&self) -> (r: usize)
        ensures
            r == self@.nodes.len(),
    {
        self.nodes.len()
    }

    /// Replaces the neighbour list of slot `s` at layer `l`.
    fn set_links(&mut self, s: usize, l: usize, list: Vec<usize>)
        requires
            s < old(self)@.nodes.len(),
            l < old(self)@.nodes[s as int].links.len(),
        ensures
            final(self)@ == old(self)@.with_links(s as int, l as int, list@),
            final(self).ids == old(self).ids,
            old(self).ids_indexed() ==> final(self).ids_indexed(),
    {
        let ghost g = self@;
        let ghost listv = list@;
        self.nodes[s].links.set(l, list);
        proof {
            let h = g.with_links(s as int, l as int, listv);
            assert(self.nodes@[s as int]@.links =~= h.nodes[s as int].links);
            assert(self@.nodes =~= h.nodes);
            assert(node_ids(self@) =~= node_ids(g));
        }
    }

    /// The `cap` entries of `list` nearest to the node in slot `s` (all of
    /// them when there are fewer): no kept entry is farther from it than a
    /// dropped one.
    fn pruned<K: DistanceKernel>(&self, kernel: &K, s: usize, list: &Vec<usize>, cap: usize) -> (r: Vec<usize>)
        requires
            s < self@.nodes.len(),
            list@.no_duplicates(),
            forall|j: int| 0 <= j < list@.len() ==> #[trigger] list@[j] < self@.nodes.len(),
        ensures
            r@.no_duplicates(),
            r@.len() == if list@.len() < cap { list@.len() } else { cap as nat },
            forall|j: int| 0 <= j < r@.len() ==> list@.contains(#[trigger] r@[j]),
            forall|a: int, b: int| 0 <= a < r@.len() && 0 <= b < list@.len() && !r@.contains(list@[b]) ==> dist_key(
                link_dist(kernel, self@, s as int, #[trigger] r@[a] as int),
            ) <= dist_key(link_dist(kernel, self@, s as int, #[trigger] list@[b] as int)),
    {
        let mut q = MaxQueue::new();
        let mut i: usize = 0;
        while i < list.len()
            invariant
                s < self@.nodes.len(),
                list@.no_duplicates(),
                forall|j: int| 0 <= j < list@.len() ==> #[trigger] list@[j] < self@.nodes.len(),
                i <= list@.len(),
                ascending(q@),
                distinct_slots(q@),
                q@.len() == if i < cap { i as nat } else { cap as nat },
                forall|k: int| 0 <= k < q@.len() ==> exists|j: int| 0 <= j < i && list@[j] == (#[trigger] q@[k]).0,
                forall|k: int| 0 <= k < q@.len() ==> (#[trigger] q@[k]).1 == link_dist(kernel, self@, s as int, q@[k].0 as int),
                forall|j: int| 0 <= j < i && !has_slot(q@, #[trigger] list@[j]) ==> q@.len() == cap,
                forall|j: int, k: int| 0 <= j < i && 0 <= k < q@.len() && !has_slot(q@, #[trigger] list@[j]) ==> dist_key(
                    (#[trigger] q@[k]).1,
                ) <= dist_key(link_dist(kernel, self@, s as int, list@[j] as int)),
            decreases list@.len() - i,
        {
            let x = list[i];
            assert(self@.nodes[s as int] == self.nodes@[s as int]@);
            assert(self@.nodes[x as int] == self.nodes@[x as int]@);
            let d = internal_distance(kernel, self.metric, &self.nodes[s].vector, &self.nodes[x].vector);
            proof {
                if has_slot(q@, x) {
                    let k = choose|k: int| 0 <= k < q@.len() && #[trigger] q@[k].0 == x;
                    let j = choose|j: int| 0 <= j < i && list@[j] == (#[trigger] q@[k]).0;
                    assert(list@[j] == list@[i as int]);
                }
            }
            let ghost before = q@;
            q.push((x, d));
            let ghost p = choose|p: int| 0 <= p <= before.len() && q@ == before.insert(p, (x, d));
            proof {
                lemma_insert_distinct(before, p, (x, d));
                assert forall|k: int| 0 <= k < q@.len() implies (#[trigger] q@[k]) == (if k < p { before[k] } else if k == p { (x, d) } else { before[k - 1] }) by {}
            }
            let ghost mid = q@;
            if q.len() > cap {
                q.pop_farthest();
            }
            proof {
                let now = q@;
                let popped = mid.len() > cap;
                assert(popped ==> now == mid.drop_last());
                assert(!popped ==> now == mid);
                assert forall|k: int| 0 <= k < now.len() implies (#[trigger] now[k]) == mid[k] by {}
                assert forall|k: int| 0 <= k < now.len() implies exists|j: int| 0 <= j < i + 1 && list@[j] == (#[trigger] now[k]).0 by {
                    if k < p {
                        let j = choose|j: int| 0 <= j < i && list@[j] == before[k].0;
                    } else if k == p {
                        assert(list@[i as int] == now[k].0);
                    } else {
                        let j = choose|j: int| 0 <= j < i && list@[j] == before[k - 1].0;
                    }
                }
                assert forall|k: int| 0 <= k < now.len() implies (#[trigger] now[k]).1 == link_dist(kernel, self@, s as int, now[k].0 as int) by {
                    if k < p {
                        assert(before[k] == now[k]);
                    } else if k > p {
                        assert(before[k - 1] == now[k]);
                    }
                }
                // a slot of list[0..=i] missing from `now` was dropped before, or is the popped entry
                assert forall|j: int| 0 <= j < i + 1 && !has_slot(now, #[trigger] list@[j]) implies now.len() == cap
                    && forall|k: int| 0 <= k < now.len() ==> dist_key((#[trigger] now[k]).1) <= dist_key(link_dist(kernel, self@, s as int, list@[j] as int)) by {
                    let y = mid[mid.len() - 1];
                    if has_slot(mid, list@[j]) {
                        // the popped entry
                        let m = choose|m: int| 0 <= m < mid.len() && #[trigger] mid[m].0 == list@[j];
                        if !popped || m < mid.len() - 1 {
                            assert(now[m].0 == list@[j]);
                        }
                        assert(m == mid.len() - 1);
                        assert(y.1 == link_dist(kernel, self@, s as int, list@[j] as int)) by {
                            if m < p {
                                assert(before[m] == y);
                            } else if m > p {
                                assert(before[m - 1] == y);
                            }
                        }
                        assert forall|k: int| 0 <= k < now.len() implies dist_key((#[trigger] now[k]).1) <= dist_key(link_dist(kernel, self@, s as int, list@[j] as int)) by {
                            assert(mid[k] == now[k]);
                        }
                    } else {
                        assert(j < i) by {
                            if j == i {
                                assert(mid[p].0 == list@[j]);
                            }
                        }
                        assert(!has_slot(before, list@[j])) by {
                            if has_slot(before, list@[j]) {
                                let m = choose|m: int| 0 <= m < before.len() && #[trigger] before[m].0 == list@[j];
                                if m < p {
                                    assert(mid[m] == before[m]);
                                } else {
                                    assert(mid[m + 1] == before[m]);
                                }
                            }
                        }
                        assert(before.len() == cap);
                        assert(popped);
                        assert forall|k: int| 0 <= k < now.len() implies dist_key((#[trigger] now[k]).1) <= dist_key(link_dist(kernel, self@, s as int, list@[j] as int)) by {
                            if k < p {
                                assert(now[k] == before[k]);
                            } else if k > p {
                                assert(now[k] == before[k - 1]);
                            } else {
                                // the new entry stays, so the popped one came from before and is no nearer
                                let last = mid.len() - 1;
                                assert(last != p);
                                let lb = if last < p { last } else { last - 1 };
                                assert(mid[last] == before[lb]);
                                assert(dist_key(mid[k].1) <= dist_key(mid[last].1));
                                assert(dist_key(before[lb].1) <= dist_key(link_dist(kernel, self@, s as int, list@[j] as int)));
                            }
                        }
                    }
                }
            }
            i = i + 1;
        }
        let v = q.into_vec();
        let r = slots_of(&v);
        proof {
            assert forall|j: int| 0 <= j < r@.len() implies list@.contains(#[trigger] r@[j]) by {
                let k = choose|k: int| 0 <= k < i && list@[k] == v@[j].0;
                assert(list@[k] == r@[j]);
            }
            assert forall|a: int, b: int| 0 <= a < r@.len() && 0 <= b < list@.len() && !r@.contains(list@[b]) implies dist_key(
                link_dist(kernel, self@, s as int, #[trigger] r@[a] as int),
            ) <= dist_key(link_dist(kernel, self@, s as int, #[trigger] list@[b] as int)) by {
                assert(!has_slot(v@, list@[b])) by {
                    if has_slot(v@, list@[b]) {
                        let m = choose|m: int| 0 <= m < v@.len() && #[trigger] v@[m].0 == list@[b];
                        assert(r@[m] == list@[b]);
                    }
                }
                assert(v@[a].0 == r@[a]);
            }
        }
        r
    }

    /// Rebuilds the ID table with a bucket for every node.
    fn reindex(&mut self)
        ensures
            final(self)@ == old(self)@,
            final(self).ids_indexed(),
    {
        let n = self.nodes.len();
        let mut table = IdTable::empty(n);
        let mut i: usize = 0;
        assert(node_ids(self@).take(0) =~= Seq::<Seq<char>>::empty());
        while i < n
            invariant
                n == self@.nodes.len(),
                i <= n,
                table.indexes(node_ids(self@).take(i as int)),
            decreases n - i,
        {
            assert(self@.nodes[i as int] == self.nodes@[i as int]@);
            proof {
                assert(node_ids(self@).take(i as int).push(self@.nodes[i as int].id) =~= node_ids(self@).take(i + 1));
            }
            table.insert_pos(Ghost(node_ids(self@).take(i as int)), self.nodes[i].id.as_str(), i);
            i = i + 1;
        }
        assert(node_ids(self@).take(n as int) =~= node_ids(self@));
        let ghost before = self@;
        self.ids = table;
        assert(self@ == before);
    }

    /// Appends a node with no links.
    fn push_node(&mut self, id: String, vector: Vec<u32>, level: usize)
        requires
            old(self)@.graph_ok(),
            old(self).ids_indexed(),
            vector@.len() == old(self)@.dimensions,
            level <= MAX_LEVEL,
        ensures
            final(self)@.graph_ok(),
            final(self).ids_indexed(),
            old(self)@.ids_unique() && !old(self)@.has_id(id@) ==> final(self)@.ids_unique(),
            final(self)@.nodes.len() == old(self)@.nodes.len() + 1,
            final(self)@.extends(old(self)@),
            final(self)@.nodes.last().id == id@,
            final(self)@.nodes.last().vector == vector@,
            final(self)@.nodes.last().links.len() == level + 1,
            forall|l: int| 0 <= l <= level ==> (#[trigger] final(self)@.nodes.last().links[l]).len() == 0,
            forall|t: int| 0 <= t < old(self)@.nodes.len() ==> #[trigger] final(self)@.nodes[t] == old(self)@.nodes[t],
            final(self)@.dimensions == old(self)@.dimensions,
            final(self)@.m == old(self)@.m,
            final(self)@.ef_construction == old(self)@.ef_construction,
            final(self)@.metric == old(self)@.metric,
            final(self)@.entry_point == old(self)@.entry_point,
            final(self)@.max_layer == old(self)@.max_layer,
    {
        let ghost g = self@;
        let mut links: Vec<Vec<usize>> = Vec::new();
        let mut i: usize = 0;
        while i <= level
            invariant
                i <= level + 1,
                level <= MAX_LEVEL,
                links@.len() == i,
                forall|j: int| 0 <= j < i ==> (#[trigger] links@[j])@.len() == 0,
            decreases level + 1 - i,
        {
            links.push(Vec::new());
            i = i + 1;
        }
        if self.nodes.len() / 2 >= self.ids.bucket_count() {
            self.reindex();
        }
        let ghost g_ids = node_ids(self@);
        let n_slot = self.nodes.len();
        self.ids.insert_pos(Ghost(g_ids), id.as_str(), n_slot);
        self.nodes.push(Node { id, vector, links });
        proof {
            let h = self@;
            let n = g.nodes.len() as int;
            assert(node_ids(h) =~= g_ids.push(h.nodes[n].id));
            assert(self.nodes.len() == self.nodes@.len());
            assert(h.nodes =~= g.nodes.push(h.nodes[n]));
            assert forall|l: int| 0 <= l <= level implies (#[trigger] h.nodes.last().links[l]).len() == 0 by {
                assert(h.nodes.last() == self.nodes@[n]@);
            }
            assert forall|a: int, b: int| 0 <= a < h.nodes.len() && 0 <= b < h.nodes[a].links.len()
                implies (#[trigger] h.nodes[a].links[b]).len() == 0 || a < n by {}
            assert forall|a: int, b: int, x: usize| 0 <= a < n && #[trigger] h.linked(a, b, x)
                implies g.linked(a, b, x) || x == n by {
                assert(h.nodes[a] == g.nodes[a]);
            }
            if g.ids_unique() && !g.has_id(h.nodes[n].id) {
                assert forall|a: int, b: int| 0 <= a < h.nodes.len() && 0 <= b < h.nodes.len() && a != b
                    implies #[trigger] h.nodes[a].id != #[trigger] h.nodes[b].id by {
                    if a == n {
                        assert(h.nodes[b] == g.nodes[b]);
                    } else if b == n {
                        assert(h.nodes[a] == g.nodes[a]);
                    }
                }
            }
        }
    }

    /// Inserts a node whose top layer is `level`, linking it into every layer
    /// up to `level` it shares with the graph. A vector of the wrong length
    /// leaves the index unchanged.
    ///
    /// At each layer the node links to the nearest candidates the layer
    /// search finds (at most the layer's cap), and each of them that has the
    /// layer links back; a list that then exceeds its cap is pruned to its
    /// nearest entries right away. Each selected neighbour's list changes
    /// once per layer, so this is the same as pruning after all links are
    /// added.
    pub fn insert_at_level<K: DistanceKernel>(&mut self, kernel: &K, id: String, vector: Vec<u32>, level: usize)
        requires
            old(self).wf(),
            level <= MAX_LEVEL,
        ensures
            final(self).wf(),
            old(self)@.ids_unique() && !old(self)@.has_id(id@) ==> final(self)@.ids_unique(),
            old(self)@.symmetric() && old(self)@.has_room() ==> final(self)@.symmetric(),
            final(self)@.dimensions == old(self)@.dimensions,
            final(self)@.m == old(self)@.m,
            final(self)@.ef_construction == old(self)@.ef_construction,
            final(self)@.metric == old(self)@.metric,
            vector@.len() != old(self)@.dimensions ==> final(self)@ == old(self)@,
            vector@.len() == old(self)@.dimensions ==> final(self)@.nodes.len() == old(self)@.nodes.len() + 1,
            vector@.len() == old(self)@.dimensions ==> final(self)@.extends(old(self)@),
            vector@.len() == old(self)@.dimensions ==> final(self)@.nodes.last().id == id@,
            vector@.len() == old(self)@.dimensions ==> final(self)@.nodes.last().vector == vector@,
            vector@.len() == old(self)@.dimensions ==> final(self)@.nodes.last().links.len() == level + 1,
            vector@.len() == old(self)@.dimensions && old(self)@.nodes.len() > 0 && old(self)@.m > 0
                ==> final(self)@.nodes.last().links[0].len() > 0,
            vector@.len() == old(self)@.dimensions && (old(self)@.nodes.len() == 0 || level > old(self)@.max_layer)
                ==> final(self)@.entry_point == Some(old(self)@.nodes.len() as usize) && final(self)@.max_layer == level,
            vector@.len() == old(self)@.dimensions && old(self)@.nodes.len() > 0 && level <= old(self)@.max_layer
                ==> final(self)@.entry_point == old(self)@.entry_point && final(self)@.max_layer == old(self)@.max_layer,
    {
        if vector.len() != self.dimensions {
            return;
        }
        let ghost g0 = self@;
        let ghost sym = g0.symmetric() && g0.has_room();
        let n = self.nodes.len();
        let query = vector.clone();
        let ghost idv = id@;
        let ghost vv = vector@;
        self.push_node(id, vector, level);
        proof {
            let g1 = self@;
            if sym {
                assert forall|a: int, l: int, j: int|
                    0 <= a < g1.nodes.len() && 0 <= l < g1.nodes[a].links.len() && 0 <= j < g1.nodes[a].links[l].len()
                        && l < g1.nodes[g1.nodes[a].links[l][j] as int].links.len()
                    implies g1.nodes[#[trigger] g1.nodes[a].links[l][j] as int].links[l].contains(a as usize) by {
                    assert(a < n);
                    assert(g1.nodes[a] == g0.nodes[a]);
                    let b = g0.nodes[a].links[l][j];
                    assert(b < n);
                    assert(g1.nodes[b as int] == g0.nodes[b as int]);
                }
            }
            assert forall|t: int, l: int| 0 <= t < g1.nodes.len() && 0 <= l <= MAX_LEVEL && l < g1.nodes[t].links.len()
                implies !(#[trigger] g1.nodes[t].links[l]).contains(n) by {
                if t < n {
                    assert(g1.nodes[t] == g0.nodes[t]);
                    if g0.nodes[t].links[l].contains(n) {
                        let q = choose|q: int| 0 <= q < g0.nodes[t].links[l].len() && g0.nodes[t].links[l][q] == n;
                        assert(g0.nodes[t].links[l][q] < n);
                    }
                } else {
                    assert(g1.nodes[t].links[l].len() == 0);
                }
            }
            assert(sym ==> room_below(g1, n as int, level as int)) by {
                if sym {
                    assert forall|t: int, l: int| 0 <= t < n && 0 <= l <= level && l < g1.nodes[t].links.len()
                        implies (#[trigger] g1.nodes[t].links[l]).len() < g1.cap(l) by {
                        assert(g1.nodes[t] == g0.nodes[t]);
                    }
                }
            }
        }
        let e = match self.entry_point {
            None => {
                self.entry_point = Some(n);
                self.max_layer = level;
                return;
            },
            Some(e) => e,
        };
        let old_max = self.max_layer;
        let mut cur = self.descend(kernel, &query, e, old_max, level);
        proof {
            let g1 = self@;
            assert forall|i: int| 0 <= i < cur@.len() implies #[trigger] cur@[i] != n by {
                if cur@[i] == n {
                    if cur@[i] != e {
                        let l = choose|l: int| has_in_link(g1, cur@[i], l);
                        let a = choose|a: int| 0 <= a < g1.nodes.len() && #[trigger] g1.linked(a, l, cur@[i]);
                        assert(g1.nodes[a].links.len() <= MAX_LEVEL + 1);
                        assert(!g1.nodes[a].links[l].contains(n));
                    }
                }
            }
        }
        let mut lc: usize = if level < old_max { level } else { old_max };
        loop
            invariant_except_break
                sym ==> room_below(self@, n as int, lc as int),
                unlinked_below(self@, n, lc as int),
                forall|l: int| 0 <= l <= lc ==> (#[trigger] self@.nodes[n as int].links[l]).len() == 0,
            invariant
                self@.graph_ok(),
                self.ids_indexed(),
                self@.nodes.len() == n + 1,
                n == g0.nodes.len(),
                self@.extends(g0),
                self@.nodes.last().id == idv,
                self@.nodes.last().vector == vv,
                self@.nodes.last().links.len() == level + 1,
                g0.ids_unique() && !g0.has_id(idv) ==> self@.ids_unique(),
                sym == (g0.symmetric() && g0.has_room()),
                sym ==> self@.symmetric(),
                lc <= level,
                self@.dimensions == g0.dimensions,
                self@.m == g0.m,
                self@.ef_construction == g0.ef_construction,
                self@.metric == g0.metric,
                self@.entry_point == g0.entry_point,
                self@.max_layer == g0.max_layer,
                forall|i: int| 0 <= i < cur@.len() ==> #[trigger] cur@[i] < self@.nodes.len() && cur@[i] != n,
                g0.m > 0 ==> cur@.len() > 0,
            ensures
                g0.m > 0 ==> self@.adj(n as int, 0).len() > 0,
            decreases lc,
        {
            let cands = self.search_layer(kernel, &query, &cur, self.ef_construction, lc);
            proof {
                assert forall|k: int| 0 <= k < cands@.len() implies (#[trigger] cands@[k]).0 != n by {
                    if cur@.contains(cands@[k].0) {
                        let q = choose|q: int| 0 <= q < cur@.len() && cur@[q] == cands@[k].0;
                        assert(cur@[q] != n);
                    } else {
                        assert(has_in_link(self@, cands@[k].0, lc as int));
                        let a = choose|a: int| 0 <= a < self@.nodes.len() && #[trigger] self@.linked(a, lc as int, cands@[k].0);
                        assert(!self@.nodes[a].links[lc as int].contains(n));
                    }
                }
            }
            let cap = if lc == 0 { self.m * 2 } else { self.m };
            let selected = select_neighbors(&cands, cap, n);
            let ghost g1 = self@;
            let own = slots_copy(&selected);
            proof {
                assert forall|j: int| 0 <= j < own@.len() implies #[trigger] own@[j] < g1.nodes.len() && own@[j] != n by {
                    assert(has_slot(cands@, selected@[j]));
                    let k = choose|k: int| 0 <= k < cands@.len() && #[trigger] cands@[k].0 == own@[j];
                }
                lemma_with_links(g1, n as int, lc as int, own@);
                lemma_extends_with_links(g1, g0, n as int, lc as int, own@);
                if sym {
                    lemma_sym_open(g1, n as int, lc as int, own@);
                }
            }
            self.set_links(n, lc, own);
            assert(selected@.subrange(0, selected@.len() as int) =~= selected@);
            let mut i: usize = 0;
            while i < selected.len()
                invariant
                    self@.graph_ok(),
                    self.ids_indexed(),
                    self@.nodes.len() == n + 1,
                    n == g0.nodes.len(),
                    self@.extends(g0),
                    self@.nodes.last().links.len() == level + 1,
                    self@.nodes.last().id == idv,
                    self@.nodes.last().vector == vv,
                    g0.ids_unique() && !g0.has_id(idv) ==> self@.ids_unique(),
                    sym == (g0.symmetric() && g0.has_room()),
                    selected@.no_duplicates(),
                    self@.adj(n as int, lc as int) == selected@,
                    forall|l: int| 0 <= l < lc ==> (#[trigger] self@.nodes[n as int].links[l]).len() == 0,
                    sym ==> sym_except(self@, n as int, lc as int, selected@.subrange(i as int, selected@.len() as int)),
                    sym ==> room_below(self@, n as int, lc - 1),
                    unlinked_below(self@, n, lc - 1),
                    sym ==> forall|k: int| i <= k < selected@.len() && lc < self@.nodes[selected@[k] as int].links.len()
                        ==> (#[trigger] self@.nodes[selected@[k] as int].links[lc as int]).len() < self@.cap(lc as int),
                    lc <= level,
                    cap == self@.cap(lc as int),
                    i <= selected@.len(),
                    forall|j: int| 0 <= j < selected@.len() ==> #[trigger] selected@[j] != n && has_slot(cands@, selected@[j]),
                    forall|j: int| 0 <= j < cands@.len() ==> (#[trigger] cands@[j]).0 < n + 1,
                    self@.dimensions == g0.dimensions,
                    self@.m == g0.m,
                    self@.ef_construction == g0.ef_construction,
                    self@.metric == g0.metric,
                    self@.entry_point == g0.entry_point,
                    self@.max_layer == g0.max_layer,
                decreases selected@.len() - i,
            {
                let s = selected[i];
                proof {
                    assert(has_slot(cands@, selected@[i as int]));
                    let k = choose|k: int| 0 <= k < cands@.len() && #[trigger] cands@[k].0 == s;
                }
                let ghost g2 = self@;
                let ghost rest = selected@.subrange(i + 1, selected@.len() as int);
                proof {
                    assert(self@.nodes[s as int] == self.nodes@[s as int]@);
                }
                if lc < self.nodes[s].links.len() && !holds_slot(&self.nodes[s].links[lc], n) {
                    let grown = with_pushed(&self.nodes[s].links[lc], n);
                    proof {
                        let adj = g2.nodes[s as int].links[lc as int];
                        assert(grown@ == adj.push(n));
                        assert(adj.no_duplicates());
                        assert forall|a: int, b: int| 0 <= a < b < grown@.len() implies grown@[a] != grown@[b] by {
                            if b == grown@.len() - 1 {
                                assert(adj.contains(adj[a]));
                            }
                        }
                        assert(grown@.no_duplicates());
                        assert forall|j: int| 0 <= j < grown@.len() implies #[trigger] grown@[j] < g2.nodes.len() && grown@[j] != s by {
                            if j < grown@.len() - 1 {
                                assert(grown@[j] == g2.adj(s as int, lc as int)[j]);
                            }
                        }
                        if sym {
                            assert(g2.nodes[selected@[i as int] as int].links[lc as int].len() < g2.cap(lc as int));
                        }
                    }
                    let list = if grown.len() > cap {
                        self.pruned(kernel, s, &grown, cap)
                    } else {
                        grown
                    };
                    proof {
                        assert forall|j: int| 0 <= j < list@.len() implies g2.adj(s as int, lc as int).contains(#[trigger] list@[j]) || list@[j] == n by {
                            assert(grown@.contains(list@[j]));
                            let q = choose|q: int| 0 <= q < grown@.len() && grown@[q] == list@[j];
                            if q < grown@.len() - 1 {
                                assert(g2.adj(s as int, lc as int)[q] == list@[j]);
                            }
                        }
                        assert forall|j: int| 0 <= j < list@.len() implies #[trigger] list@[j] < g2.nodes.len() && list@[j] != s by {
                            assert(grown@.contains(list@[j]));
                        }
                        lemma_with_links(g2, s as int, lc as int, list@);
                        lemma_extends_with_links(g2, g0, s as int, lc as int, list@);
                        if sym {
                            lemma_sym_back(g2, n as int, lc as int, selected@, i as int);
                        }
                    }
                    self.set_links(s, lc, list);
                } else {
                    proof {
                        if sym {
                            lemma_sym_skip(g2, n as int, lc as int, selected@, i as int);
                        }
                    }
                }
                proof {
                    let h = self@;
                    assert forall|t: int, l: int| 0 <= t < h.nodes.len() && 0 <= l < h.nodes[t].links.len() && (t != s || l != lc)
                        implies #[trigger] h.nodes[t].links[l] == g2.nodes[t].links[l] by {}
                    assert forall|l: int| 0 <= l < lc implies (#[trigger] h.nodes[n as int].links[l]).len() == 0 by {
                        assert(h.nodes[n as int].links[l] == g2.nodes[n as int].links[l]);
                    }
                    assert(h.adj(n as int, lc as int) == g2.adj(n as int, lc as int));
                    assert forall|t: int, l: int| 0 <= t < h.nodes.len() && 0 <= l <= lc - 1 && l < h.nodes[t].links.len()
                        implies !(#[trigger] h.nodes[t].links[l]).contains(n) by {
                        assert(h.nodes[t].links[l] == g2.nodes[t].links[l]);
                    }
                    if sym {
                        assert forall|t: int, l: int| 0 <= t < n && 0 <= l <= lc - 1 && l < h.nodes[t].links.len()
                            implies (#[trigger] h.nodes[t].links[l]).len() < h.cap(l) by {
                            assert(h.nodes[t].links[l] == g2.nodes[t].links[l]);
                        }
                        assert forall|k: int| i + 1 <= k < selected@.len() && lc < h.nodes[selected@[k] as int].links.len()
                            implies (#[trigger] h.nodes[selected@[k] as int].links[lc as int]).len() < h.cap(lc as int) by {
                            assert(selected@[k] != s);
                            assert(h.nodes[selected@[k] as int].links[lc as int] == g2.nodes[selected@[k] as int].links[lc as int]);
                        }
                    }
                }
                i = i + 1;
            }
            proof {
                let h = self@;
                if sym {
                    assert forall|a: int, l: int, j: int|
                        0 <= a < h.nodes.len() && 0 <= l < h.nodes[a].links.len() && 0 <= j < h.nodes[a].links[l].len()
                            && l < h.nodes[h.nodes[a].links[l][j] as int].links.len()
                        implies h.nodes[#[trigger] h.nodes[a].links[l][j] as int].links[l].contains(a as usize) by {
                        let e = selected@.subrange(i as int, selected@.len() as int);
                        assert(e.len() == 0);
                        assert(!e.contains(h.nodes[a].links[l][j]));
                    }
                }
                if g0.m > 0 {
                    assert(cands@.len() > 0);
                    assert(cands@[0].0 != n);
                    assert(selected@.len() > 0);
                }
                assert forall|q: int| 0 <= q < selected@.len() implies #[trigger] selected@[q] < h.nodes.len() && selected@[q] != n by {
                    assert(has_slot(cands@, selected@[q]));
                    let k = choose|k: int| 0 <= k < cands@.len() && #[trigger] cands@[k].0 == selected@[q];
                }
            }
            cur = selected;
            if lc == 0 {
                break;
            }
            lc = lc - 1;
        }
        let ghost before = self@;
        assert(self.ids_indexed());
        if level > old_max {
            self.max_layer = level;
            self.entry_point = Some(n);
        }
        proof {
            let h = self@;
            assert(h.nodes == before.nodes);
            assert(node_ids(h) == node_ids(before));
            if sym {
                assert(before.symmetric());
                assert forall|a: int, l: int, j: int|
                    0 <= a < h.nodes.len() && 0 <= l < h.nodes[a].links.len() && 0 <= j < h.nodes[a].links[l].len()
                        && l < h.nodes[h.nodes[a].links[l][j] as int].links.len()
                    implies h.nodes[#[trigger] h.nodes[a].links[l][j] as int].links[l].contains(a as usize) by {
                    assert(before.nodes[a].links[l][j] == h.nodes[a].links[l][j]);
                }
            }
            assert forall|a: int, b: int, x: usize| 0 <= a < g0.nodes.len() && #[trigger] h.linked(a, b, x)
                implies g0.linked(a, b, x) || x == g0.nodes.len() by {
                assert(before.linked(a, b, x));
            }
            assert(h.nodes[e as int].links.len() == g0.nodes[e as int].links.len());
            assert forall|t: int| 0 <= t < h.nodes.len() implies #[trigger] h.top(t) <= h.max_layer by {
                if t < n {
                    assert(h.nodes[t].links.len() == g0.nodes[t].links.len());
                    assert(g0.top(t) <= g0.max_layer);
                }
            }
        }
    }

    /// Slot of a node with the most layers.
    fn top_node(&self) -> (r: Option<usize>)
        requires
            self@.layers_hold(),
        ensures
            r is None <==> self@.nodes.len() == 0,
            r matches Some(t) ==> t < self@.nodes.len() && forall|u: int|
                0 <= u < self@.nodes.len() ==> #[trigger] self@.top(u) <= self@.top(t as int),
    {
        if self.nodes.len() == 0 {
            return None;
        }
        let mut best: usize = 0;
        let mut i: usize = 1;
        while i < self.nodes.len()
            invariant
                1 <= i <= self@.nodes.len(),
                best < i,
                forall|u: int| 0 <= u < i ==> #[trigger] self@.top(u) <= self@.top(best as int),
            decreases self@.nodes.len() - i,
        {
            if self.nodes[i].links.len() > self.nodes[best].links.len() {
                best = i;
            }
            i = i + 1;
        }
        Some(best)
    }

    /// Drops links to slot `d` everywhere and renames links to the last slot
    /// to `d`.
    fn relink_all(&mut self, d: usize)
        requires
            d < old(self)@.nodes.len(),
        ensures
            final(self)@.nodes.len() == old(self)@.nodes.len(),
            final(self).ids == old(self).ids,
            final(self)@.dimensions == old(self)@.dimensions,
            final(self)@.m == old(self)@.m,
            final(self)@.ef_construction == old(self)@.ef_construction,
            final(self)@.metric == old(self)@.metric,
            final(self)@.entry_point == old(self)@.entry_point,
            final(self)@.max_layer == old(self)@.max_layer,
            forall|t: int| 0 <= t < old(self)@.nodes.len() ==> {
                &&& (#[trigger] final(self)@.nodes[t]).id == old(self)@.nodes[t].id
                &&& final(self)@.nodes[t].vector == old(self)@.nodes[t].vector
                &&& final(self)@.nodes[t].links.len() == old(self)@.nodes[t].links.len()
            },
            forall|t: int, l: int| 0 <= t < old(self)@.nodes.len() && 0 <= l < old(self)@.nodes[t].links.len()
                ==> relinks(old(self)@.adj(t, l), #[trigger] final(self)@.adj(t, l), d as int, old(self)@.nodes.len() - 1),
    {
        let ghost g0 = self@;
        let ghost t0 = self.ids;
        let n = self.nodes.len();
        let last = n - 1;
        let mut t: usize = 0;
        while t < n
            invariant
                self.ids == t0,
                n == g0.nodes.len(),
                last == n - 1,
                t <= n,
                self@.nodes.len() == n,
                self@.dimensions == g0.dimensions,
                self@.m == g0.m,
                self@.ef_construction == g0.ef_construction,
                self@.metric == g0.metric,
                self@.entry_point == g0.entry_point,
                self@.max_layer == g0.max_layer,
                forall|u: int| 0 <= u < n ==> {
                    &&& (#[trigger] self@.nodes[u]).id == g0.nodes[u].id
                    &&& self@.nodes[u].vector == g0.nodes[u].vector
                    &&& self@.nodes[u].links.len() == g0.nodes[u].links.len()
                },
                forall|u: int, l: int| 0 <= u < t && 0 <= l < g0.nodes[u].links.len()
                    ==> relinks(g0.adj(u, l), #[trigger] self@.adj(u, l), d as int, last as int),
                forall|u: int, l: int| t <= u < n && 0 <= l < g0.nodes[u].links.len()
                    ==> #[trigger] self@.adj(u, l) == g0.adj(u, l),
            decreases n - t,
        {
            assert(self@.nodes[t as int] == self.nodes@[t as int]@);
            let layers = self.nodes[t].links.len();
            let mut l: usize = 0;
            while l < layers
                invariant
                    self.ids == t0,
                    n == g0.nodes.len(),
                    last == n - 1,
                    t < n,
                    l <= layers,
                    layers == g0.nodes[t as int].links.len(),
                    self@.nodes.len() == n,
                    self@.dimensions == g0.dimensions,
                    self@.m == g0.m,
                    self@.ef_construction == g0.ef_construction,
                    self@.metric == g0.metric,
                    self@.entry_point == g0.entry_point,
                    self@.max_layer == g0.max_layer,
                    forall|u: int| 0 <= u < n ==> {
                        &&& (#[trigger] self@.nodes[u]).id == g0.nodes[u].id
                        &&& self@.nodes[u].vector == g0.nodes[u].vector
                        &&& self@.nodes[u].links.len() == g0.nodes[u].links.len()
                    },
                    forall|u: int, k: int| 0 <= u < t && 0 <= k < g0.nodes[u].links.len()
                        ==> relinks(g0.adj(u, k), #[trigger] self@.adj(u, k), d as int, last as int),
                    forall|k: int| 0 <= k < l ==> relinks(g0.adj(t as int, k), #[trigger] self@.adj(t as int, k), d as int, last as int),
                    forall|k: int| l <= k < layers ==> #[trigger] self@.adj(t as int, k) == g0.adj(t as int, k),
                    forall|u: int, k: int| t < u < n && 0 <= k < g0.nodes[u].links.len()
                        ==> #[trigger] self@.adj(u, k) == g0.adj(u, k),
                decreases layers - l,
            {
                assert(self@.nodes[t as int] == self.nodes@[t as int]@);
                assert(self.nodes@[t as int].links@[l as int]@ == self@.adj(t as int, l as int));
                let list = relink(&self.nodes[t].links[l], d, last);
                let ghost g1 = self@;
                self.set_links(t, l, list);
                proof {
                    let h = self@;
                    assert forall|u: int, k: int| 0 <= u < n && 0 <= k < h.nodes[u].links.len() && (u != t || k != l)
                        implies #[trigger] h.adj(u, k) == g1.adj(u, k) by {}
                }
                l = l + 1;
            }
            t = t + 1;
        }
    }

    /// Removes the node with this ID, with every link to it. Returns whether
    /// there was one. The last node moves into the freed slot.
    ///
    /// Links to the removed node are dropped from every list, not only from
    /// those of its own neighbours: pruning can leave one-way links, and a
    /// link left behind would dangle.
    pub fn delete(&mut self, id: &str) -> (r: bool)
        requires
            old(self).wf(),
        ensures
            final(self).wf(),
            r == old(self)@.has_id(id@),
            !r ==> final(self)@ == old(self)@,
            old(self)@.ids_unique() ==> final(self)@.ids_unique(),
            old(self)@.symmetric() ==> final(self)@.symmetric(),
            final(self)@.nodes.len() == 0 ==> final(self)@.max_layer == 0 && final(self)@.entry_point is None,
            r && old(self)@.ids_unique() ==> !final(self)@.has_id(id@),
            r ==> final(self)@.nodes.len() + 1 == old(self)@.nodes.len(),
            final(self)@.dimensions == old(self)@.dimensions,
            final(self)@.m == old(self)@.m,
            final(self)@.ef_construction == old(self)@.ef_construction,
            final(self)@.metric == old(self)@.metric,
            r ==> exists|d: int| 0 <= d < old(self)@.nodes.len() && old(self)@.nodes[d].id == id@ &&
                #[trigger] final(self)@.removed(old(self)@, d),
    {
        let d = match self.find(id) {
            Some(d) => d,
            None => return false,
        };
        let ghost g0 = self@;
        let n = self.nodes.len();
        assert(n == g0.nodes.len());
        let last = n - 1;
        self.relink_all(d);
        let ghost g1 = self@;
        proof {
            assert(node_ids(g1) =~= node_ids(g0)) by {
                assert forall|k: int| 0 <= k < g1.nodes.len() implies node_ids(g1)[k] == node_ids(g0)[k] by {
                    assert(g1.nodes[k].id == g0.nodes[k].id);
                }
            }
            assert(self@.nodes[d as int] == self.nodes@[d as int]@);
            assert(self@.nodes[last as int] == self.nodes@[last as int]@);
        }
        let id_d = self.nodes[d].id.clone();
        let id_last = self.nodes[last].id.clone();
        self.ids.remove_pos(Ghost(node_ids(g1)), d, last, id_d.as_str(), id_last.as_str());
        self.nodes.swap_remove(d);
        proof {
            let h = self@;
            assert(h.nodes =~= g1.nodes.update(d as int, g1.nodes[last as int]).drop_last());
            assert(node_ids(h) =~= node_ids(g1).update(d as int, node_ids(g1).last()).drop_last());
            assert(self.ids_indexed());
            assert forall|i: int| 0 <= i < h.nodes.len() implies {
                &&& (#[trigger] h.nodes[i]).id == g0.nodes[moved_from(i, d as int, last as int)].id
                &&& h.nodes[i].vector == g0.nodes[moved_from(i, d as int, last as int)].vector
                &&& h.nodes[i].links.len() == g0.nodes[moved_from(i, d as int, last as int)].links.len()
            } by {
                assert(h.nodes[i] == g1.nodes[moved_from(i, d as int, last as int)]);
            }
            assert forall|i: int, l: int| 0 <= i < h.nodes.len() && 0 <= l < h.nodes[i].links.len() implies relinks(
                g0.adj(moved_from(i, d as int, last as int), l), #[trigger] h.adj(i, l), d as int, last as int) by {
                let src = moved_from(i, d as int, last as int);
                assert(h.nodes[i] == g1.nodes[src]);
                assert(h.adj(i, l) == g1.adj(src, l));
                assert(g1.nodes[src].links.len() == g0.nodes[src].links.len());
                assert(relinks(g0.adj(src, l), g1.adj(src, l), d as int, g0.nodes.len() - 1));
                assert(g1.nodes[moved_from(i, d as int, last as int)].links.len() == g0.nodes[moved_from(i, d as int, last as int)].links.len());
            }
            assert(h.renumbered(g0, d as int));
            lemma_renumbered(g0, h, d as int);
        }
        let ghost g2 = self@;
        let was_entry = match self.entry_point {
            Some(e) => e == d,
            None => false,
        };
        if was_entry {
            match self.top_node() {
                Some(t) => {
                    assert(self@.nodes[t as int] == self.nodes@[t as int]@);
                    self.entry_point = Some(t);
                    self.max_layer = self.nodes[t].links.len() - 1;
                },
                None => {
                    self.entry_point = None;
                    self.max_layer = 0;
                },
            }
        } else {
            match self.entry_point {
                Some(e) => {
                    if e == last {
                        self.entry_point = Some(d);
                    }
                },
                None => {},
            }
        }
        proof {
            let h = self@;
            assert(h.nodes == g2.nodes);
            lemma_renumbered_nodes(g2, h, g0, d as int);
            lemma_renumbered(g0, h, d as int);
            if g0.symmetric() {
                lemma_renumbered_symmetric(g0, h, d as int);
            }
            let lastv = g0.nodes.len() - 1;
            if !was_entry {
                let e = g0.entry_point->Some_0 as int;
                let ne = moved_from(e, lastv, d as int);
                assert(moved_from(ne, d as int, lastv) == e);
                assert(h.nodes[ne].links.len() == g0.nodes[e].links.len());
                assert forall|u: int| 0 <= u < h.nodes.len() implies #[trigger] h.top(u) <= h.max_layer by {
                    assert(h.nodes[u].links.len() == g0.nodes[moved_from(u, d as int, lastv)].links.len());
                    assert(g0.top(moved_from(u, d as int, lastv)) <= g0.max_layer);
                }
            } else {
                if h.nodes.len() > 0 {
                    let t = h.entry_point->Some_0 as int;
                    assert(h.nodes[t].links.len() <= MAX_LEVEL + 1);
                }
            }
            assert(h.dimensions == g0.dimensions && h.m == g0.m && h.ef_construction == g0.ef_construction && h.metric == g0.metric);
            if was_entry {
                if h.entry_point is Some {
                    let t = h.entry_point->Some_0 as int;
                    assert forall|u: int| 0 <= u < h.nodes.len() implies #[trigger] h.top(u) <= h.top(t) by {
                        assert(g2.top(u) <= g2.top(t));
                    }
                }
            } else {
                let e = g0.entry_point->Some_0 as int;
                assert(h.entry_point == Some(moved_from(e, lastv, d as int) as usize));
            }
            assert(h.removed(g0, d as int));
            assert(h.entry_holds());
        }
        true
    }

    /// The neighbour IDs of slot `s` at layer `l`.
    fn written_links(&self, s: usize, l: usize) -> (r: Vec<String>)
        requires
            self@.no_dangling(),
            s < self@.nodes.len(),
            l < self@.nodes[s as int].links.len(),
        ensures
            r@.len() == self@.adj(s as int, l as int).len(),
            forall|j: int| 0 <= j < r@.len() ==> (#[trigger] r@[j])@ == self@.nodes[self@.adj(s as int, l as int)[j] as int].id,
    {
        assert(self@.nodes[s as int] == self.nodes@[s as int]@);
        let list = &self.nodes[s].links[l];
        assert(list@ == self@.adj(s as int, l as int));
        let mut r: Vec<String> = Vec::new();
        let mut j: usize = 0;
        while j < list.len()
            invariant
                self@.no_dangling(),
                s < self@.nodes.len(),
                l < self@.nodes[s as int].links.len(),
                list@ == self@.adj(s as int, l as int),
                j <= list@.len(),
                r@.len() == j,
                forall|k: int| 0 <= k < j ==> (#[trigger] r@[k])@ == self@.nodes[list@[k] as int].id,
            decreases list@.len() - j,
        {
            let x = list[j];
            assert(self@.nodes[s as int].links[l as int][j as int] < self@.nodes.len());
            assert(self@.nodes[x as int] == self.nodes@[x as int]@);
            r.push(self.nodes[x].id.clone());
            j = j + 1;
        }
        r
    }

    /// The plain-value form of the index.
    pub fn to_parts(&self) -> (r: IndexParts)
        requires
            self.wf(),
        ensures
            written(self@, &r),
    {
        let mut nodes: Vec<NodeParts> = Vec::new();
        let mut i: usize = 0;
        while i < self.nodes.len()
            invariant
                self@.wf(),
                i <= self@.nodes.len(),
                nodes@.len() == i,
                forall|k: int| 0 <= k < i ==> #[trigger] node_written(self@, k, nodes@[k]),
            decreases self@.nodes.len() - i,
        {
            assert(self@.nodes[i as int] == self.nodes@[i as int]@);
            let layers = self.nodes[i].links.len();
            let mut conns: Vec<Vec<String>> = Vec::new();
            let mut l: usize = 0;
            while l < layers
                invariant
                    self@.wf(),
                    i < self@.nodes.len(),
                    layers == self@.nodes[i as int].links.len(),
                    l <= layers,
                    conns@.len() == l,
                    forall|k: int| 0 <= k < l ==> (#[trigger] conns@[k])@.len() == self@.adj(i as int, k).len(),
                    forall|k: int, j: int| 0 <= k < l && 0 <= j < self@.adj(i as int, k).len() ==>
                        (#[trigger] conns@[k]@[j])@ == self@.nodes[self@.adj(i as int, k)[j] as int].id,
                decreases layers - l,
            {
                let ids = self.written_links(i, l);
                conns.push(ids);
                l = l + 1;
            }
            let part = NodeParts {
                id: self.nodes[i].id.clone(),
                vector: copy_vector(&self.nodes[i].vector),
                connections: conns,
            };
            proof {
                let g = self@;
                assert forall|l: int, j: int| 0 <= l < g.nodes[i as int].links.len() && 0 <= j < g.nodes[i as int].links[l].len()
                    implies #[trigger] g.nodes[i as int].links[l][j] < g.nodes.len() && g.nodes[g.nodes[i as int].links[l][j] as int].id
                    == part.connections@[l]@[j]@ by {
                    assert(g.adj(i as int, l)[j] == g.nodes[i as int].links[l][j]);
                }
                assert(node_written(g, i as int, part));
            }
            nodes.push(part);
            i = i + 1;
        }
        let entry_point = match self.entry_point {
            Some(e) => {
                assert(self@.nodes[e as int] == self.nodes@[e as int]@);
                Some(self.nodes[e].id.clone())
            },
            None => None,
        };
        IndexParts {
            dimensions: self.dimensions,
            m: self.m,
            ef_construction: self.ef_construction,
            metric: self.metric,
            nodes,
            entry_point,
            max_layer: self.max_layer,
        }
    }

    /// Rebuilds an index from its plain-value form; `None` exactly when the
    /// parts do not describe a well-formed index.
    pub fn from_parts(p: &IndexParts) -> (r: Option<HNSWIndex>)
        ensures
            r is Some <==> parts_valid(p),
            r matches Some(g) ==> g.wf() && g@.ids_unique() && written(g@, p),
    {
        if p.m > usize::MAX / 2 || p.max_layer > MAX_LEVEL || (p.nodes.len() == 0 && p.max_layer != 0) {
            return None;
        }
        let n = p.nodes.len();
        let mut names: Vec<String> = Vec::new();
        let mut i: usize = 0;
        while i < n
            invariant
                n == p.nodes@.len(),
                i <= n,
                names@.len() == i,
                forall|k: int| 0 <= k < i ==> (#[trigger] names@[k])@ == p.nodes@[k].id@,
            decreases n - i,
        {
            names.push(p.nodes[i].id.clone());
            i = i + 1;
        }
        let ghost ids = id_seq(names@);
        assert(ids =~= part_ids(p));
        let table = match IdTable::build(&names) {
            Ok(t) => t,
            Err(_) => return None,
        };
        let mut nodes: Vec<Node> = Vec::new();
        let mut i: usize = 0;
        while i < n
            invariant
                n == p.nodes@.len(),
                names@.len() == n,
                ids == id_seq(names@),
                ids == part_ids(p),
                table.indexes(ids),
                unique_ids(ids),
                2 * p.m <= usize::MAX,
                p.max_layer <= MAX_LEVEL,
                i <= n,
                nodes@.len() == i,
                forall|k: int| 0 <= k < i ==> #[trigger] node_valid(p, k),
                forall|k: int| 0 <= k < i ==> {
                    &&& (#[trigger] nodes@[k])@.id == p.nodes@[k].id@
                    &&& nodes@[k]@.vector == p.nodes@[k].vector@
                    &&& nodes@[k]@.links.len() == p.nodes@[k].connections@.len()
                    &&& forall|l: int| 0 <= l < nodes@[k]@.links.len() ==> {
                        &&& (#[trigger] nodes@[k]@.links[l]).len() == p.nodes@[k].connections@[l]@.len()
                        &&& nodes@[k]@.links[l].no_duplicates()
                        &&& nodes@[k]@.links[l].len() <= part_cap(p, l)
                        &&& forall|j: int| 0 <= j < nodes@[k]@.links[l].len() ==> #[trigger] nodes@[k]@.links[l][j] < n
                            && nodes@[k]@.links[l][j] != k && ids[nodes@[k]@.links[l][j] as int] == p.nodes@[k].connections@[l]@[j]@
                    }
                },
            decreases n - i,
        {
            let np = &p.nodes[i];
            if np.vector.len() != p.dimensions || np.connections.len() == 0 || np.connections.len() > p.max_layer + 1 {
                assert(!node_valid(p, i as int));
                return None;
            }
            let layers = np.connections.len();
            let mut links: Vec<Vec<usize>> = Vec::new();
            let mut l: usize = 0;
            while l < layers
                invariant
                    n == p.nodes@.len(),
                    names@.len() == n,
                    ids == id_seq(names@),
                    ids == part_ids(p),
                    table.indexes(ids),
                    unique_ids(ids),
                    2 * p.m <= usize::MAX,
                    i < n,
                    *np == p.nodes@[i as int],
                    layers == np.connections@.len(),
                    l <= layers,
                    links@.len() == l,
                    forall|k: int| 0 <= k < l ==> #[trigger] list_valid(p, i as int, k),
                    forall|k: int| 0 <= k < l ==> {
                        &&& (#[trigger] links@[k])@.len() == np.connections@[k]@.len()
                        &&& links@[k]@.no_duplicates()
                        &&& links@[k]@.len() <= part_cap(p, k)
                        &&& forall|j: int| 0 <= j < links@[k]@.len() ==> #[trigger] links@[k]@[j] < n
                            && links@[k]@[j] != i && ids[links@[k]@[j] as int] == np.connections@[k]@[j]@
                    },
                decreases layers - l,
            {
                let cap = if l == 0 { p.m * 2 } else { p.m };
                assert(id_seq(np.connections@[l as int]@) =~= conn(p, i as int, l as int));
                match resolve_list(&table, &names, &np.connections[l], i, cap) {
                    Some(v) => {
                        proof {
                            assert forall|j: int| 0 <= j < v@.len() implies ids[#[trigger] v@[j] as int] == np.connections@[l as int]@[j]@ by {
                                assert(names@[v@[j] as int]@ == ids[v@[j] as int]);
                            }
                        }
                        links.push(v);
                    },
                    None => {
                        assert(!list_valid(p, i as int, l as int));
                        assert(!node_valid(p, i as int));
                        return None;
                    },
                }
                l = l + 1;
            }
            let node = Node { id: np.id.clone(), vector: copy_vector(&np.vector), links };
            proof {
                assert(node_valid(p, i as int));
                let nv = node@;
                assert forall|l: int| 0 <= l < nv.links.len() implies nv.links[l] == links@[l]@ by {}
            }
            nodes.push(node);
            i = i + 1;
        }
        let entry_point = match &p.entry_point {
            None => {
                if n != 0 {
                    return None;
                }
                None
            },
            Some(e) => {
                match table.lookup(&names, e.as_str()) {
                    None => {
                        proof {
                            if parts_valid(p) {
                                let q = choose|q: int| 0 <= q < p.nodes@.len() && #[trigger] part_ids(p)[q] == e@ && p.nodes@[q].connections@.len() == p.max_layer + 1;
                                assert(names@[q]@ == ids[q]);
                            }
                        }
                        return None;
                    },
                    Some(s) => {
                        if p.nodes[s].connections.len() != p.max_layer + 1 {
                            proof {
                                if parts_valid(p) {
                                    let q = choose|q: int| 0 <= q < p.nodes@.len() && #[trigger] part_ids(p)[q] == e@ && p.nodes@[q].connections@.len() == p.max_layer + 1;
                                    assert(ids[q] == ids[s as int]);
                                }
                            }
                            return None;
                        }
                        proof {
                            assert(part_ids(p)[s as int] == e@);
                        }
                        Some(s)
                    },
                }
            },
        };
        let g = HNSWIndex {
            dimensions: p.dimensions,
            m: p.m,
            ef_construction: p.ef_construction,
            metric: p.metric,
            nodes,
            entry_point,
            max_layer: p.max_layer,
            ids: table,
        };
        proof {
            let h = g@;
            assert(node_ids(h) =~= ids) by {
                assert forall|k: int| 0 <= k < h.nodes.len() implies node_ids(h)[k] == ids[k] by {
                    assert(h.nodes[k] == nodes@[k]@);
                }
            }
            assert(parts_valid(p));
            assert forall|k: int| 0 <= k < h.nodes.len() implies #[trigger] node_written(h, k, p.nodes@[k]) by {
                assert(h.nodes[k] == nodes@[k]@);
                assert forall|l: int, j: int| 0 <= l < h.nodes[k].links.len() && 0 <= j < h.nodes[k].links[l].len()
                    implies #[trigger] h.nodes[k].links[l][j] < h.nodes.len() && h.nodes[h.nodes[k].links[l][j] as int].id
                    == p.nodes@[k].connections@[l]@[j]@ by {
                    let x = h.nodes[k].links[l][j];
                    assert(h.nodes[x as int] == nodes@[x as int]@);
                    assert(ids[x as int] == p.nodes@[x as int].id@);
                }
            }
            assert(written(h, p));
            assert forall|k: int| 0 <= k < h.nodes.len() implies (#[trigger] h.nodes[k]) == nodes@[k]@ by {}
            assert forall|k: int| 0 <= k < h.nodes.len() implies (#[trigger] h.nodes[k]).vector.len() == h.dimensions
                && 1 <= h.nodes[k].links.len() <= h.max_layer + 1 by {
                assert(node_valid(p, k));
            }
            assert forall|k: int, l: int, j: int| 0 <= k < h.nodes.len() && 0 <= l < h.nodes[k].links.len() && 0 <= j
                < h.nodes[k].links[l].len() implies #[trigger] h.nodes[k].links[l][j] < h.nodes.len()
                && h.nodes[k].links[l][j] != k by {
                assert(h.nodes[k] == nodes@[k]@);
            }
            assert forall|k: int, l: int| 0 <= k < h.nodes.len() && 0 <= l < h.nodes[k].links.len() implies
                (#[trigger] h.nodes[k].links[l]).no_duplicates() && h.nodes[k].links[l].len() <= h.cap(l) by {
                assert(h.nodes[k] == nodes@[k]@);
            }
            assert forall|a: int, b: int| 0 <= a < h.nodes.len() && 0 <= b < h.nodes.len() && a != b
                implies #[trigger] h.nodes[a].id != #[trigger] h.nodes[b].id by {
                assert(ids[a] != ids[b]);
            }
            assert(h.graph_ok());
            assert forall|k: int| 0 <= k < h.nodes.len() implies #[trigger] h.top(k) <= h.max_layer by {
                assert(node_valid(p, k));
            }
            assert(h.entry_holds());
            assert(h.wf());
        }
        Some(g)
    }

    /// Inserts a node on a randomly drawn top layer (see
    /// [`crate::level::random_level`]). A vector of the wrong length leaves the
    /// index unchanged. Inserting an ID that is already stored is not
    /// prevented, and breaks the uniqueness of IDs.
    pub fn insert<K: DistanceKernel>(&mut self, kernel: &K, id: String, vector: Vec<u32>)
        requires
            old(self).wf(),
        ensures
            final(self).wf(),
            old(self)@.ids_unique() && !old(self)@.has_id(id@) ==> final(self)@.ids_unique(),
            old(self)@.symmetric() && old(self)@.has_room() ==> final(self)@.symmetric(),
            final(self)@.dimensions == old(self)@.dimensions,
            final(self)@.m == old(self)@.m,
            final(self)@.ef_construction == old(self)@.ef_construction,
            final(self)@.metric == old(self)@.metric,
            vector@.len() != old(self)@.dimensions ==> final(self)@ == old(self)@,
            vector@.len() == old(self)@.dimensions ==> final(self)@.nodes.len() == old(self)@.nodes.len() + 1,
            vector@.len() == old(self)@.dimensions ==> final(self)@.extends(old(self)@),
            vector@.len() == old(self)@.dimensions ==> final(self)@.nodes.last().id == id@,
            vector@.len() == old(self)@.dimensions ==> final(self)@.nodes.last().vector == vector@,
            vector@.len() == old(self)@.dimensions && old(self)@.nodes.len() > 0 && old(self)@.m > 0
                ==> final(self)@.nodes.last().links[0].len() > 0,
            vector@.len() == old(self)@.dimensions ==> final(self)@.entry_point == Some(old(self)@.nodes.len() as usize)
                || (final(self)@.entry_point == old(self)@.entry_point && final(self)@.max_layer == old(self)@.max_layer),
    {
        let level = random_level(self.m);
        self.insert_at_level(kernel, id, vector, level);
    }

    /// Best-first search of one layer from the given entry slots: up to `ef`
    /// nodes (or as many as there are entry slots) nearest the query, in
    /// ascending order of distance. When `ef` is at least the number of
    /// nodes, nothing is evicted and the search returns every node it can
    /// reach from the entry slots along links of the layer.
    #[verifier::rlimit(80)]
    fn search_layer<K: DistanceKernel>(
        &self,
        kernel: &K,
        query: &Vec<u32>,
        entry_points: &Vec<usize>,
        ef: usize,
        layer: usize,
    ) -> (r: Vec<Scored>)
        ensures
            ascending(r@),
            distinct_slots(r@),
            scored_by(kernel, self@, query@, r@),
            forall|i: int| 0 <= i < r@.len() ==> (#[trigger] r@[i]).0 < self@.nodes.len(),
            r@.len() <= ef || r@.len() <= entry_points@.len(),
            entry_points@.len() > 0 && (forall|i: int| 0 <= i < entry_points@.len() ==> #[trigger] entry_points@[i] < self@.nodes.len()) ==> r@.len() > 0,
            ef >= self@.nodes.len() ==> forall|i: int| 0 <= i < entry_points@.len() && #[trigger] entry_points@[i] < self@.nodes.len()
                ==> has_slot(r@, entry_points@[i]),
            ef >= self@.nodes.len() ==> forall|x: int| 0 <= x < self@.nodes.len() && has_slot(r@, x as usize)
                ==> #[trigger] reach_closed(self@, r@, x, layer as int),
            forall|i: int| 0 <= i < r@.len() ==> entry_points@.contains((#[trigger] r@[i]).0) || has_in_link(self@, r@[i].0, layer as int),
            forall|set: Set<int>| #[trigger] layer_closed(self@, set, layer as int) && holds_entries(self@, set, entry_points@)
                ==> forall|i: int| 0 <= i < r@.len() ==> set.contains((#[trigger] r@[i]).0 as int),
            r@.len() > 0 ==> forall|i: int| 0 <= i < entry_points@.len() && #[trigger] entry_points@[i] < self@.nodes.len()
                ==> dist_key(r@[0].1) <= dist_key(dist_to(kernel, self@, entry_points@[i] as int, query@)),
            r@.len() > 0 && layer < self@.nodes[r@[0].0 as int].links.len() ==> forall|q: int|
                0 <= q < self@.adj(r@[0].0 as int, layer as int).len() && #[trigger] self@.adj(r@[0].0 as int, layer as int)[q]
                < self@.nodes.len() ==> dist_key(r@[0].1) <= dist_key(
                dist_to(kernel, self@, self@.adj(r@[0].0 as int, layer as int)[q] as int, query@),
            ),
    {
        let n = self.nodes.len();
        let ghost full = ef >= n;
        let ghost bound: int = if ef >= entry_points@.len() { ef as int } else { entry_points@.len() as int };
        let mut visited: Vec<bool> = vec![false; n];
        let mut candidates = MinQueue::new();
        let mut nearest = MaxQueue::new();
        let mut i: usize = 0;
        while i < entry_points.len()
            invariant
                n == self@.nodes.len(),
                visited@.len() == n,
                forall|set: Set<int>| #[trigger] layer_closed(self@, set, layer as int) && holds_entries(self@, set, entry_points@) ==> forall|x: int| 0 <= x < n && #[trigger] visited@[x] ==> set.contains(x),
                i <= entry_points@.len(),
                ascending(nearest@),
                distinct_slots(nearest@),
                distinct_slots(candidates@),
                scored_by(kernel, self@, query@, nearest@),
                scored_by(kernel, self@, query@, candidates@),
                forall|k: int| 0 <= k < nearest@.len() ==> (#[trigger] nearest@[k]).0 < n && visited@[nearest@[k].0 as int],
                forall|k: int| 0 <= k < candidates@.len() ==> (#[trigger] candidates@[k]).0 < n && visited@[candidates@[k].0 as int]
                    && nearest@.contains(candidates@[k]),
                forall|x: int| 0 <= x < n && #[trigger] visited@[x] ==> has_slot(candidates@, x as usize) && has_slot(nearest@, x as usize),
                forall|k: int| 0 <= k < i && #[trigger] entry_points@[k] < n ==> visited@[entry_points@[k] as int],
                forall|x: int| 0 <= x < n && #[trigger] visited@[x] ==> entry_points@.contains(x as usize) || has_in_link(self@, x as usize, layer as int),
                nearest@.len() <= i,
                below_first(kernel, self@, query@, nearest@, visited@),
                settled(self@, nearest@, candidates@, visited@, layer as int, -1),
                nearest@.len() == 0 ==> forall|x: int| 0 <= x < n ==> !(#[trigger] visited@[x]),
                (forall|k: int| 0 <= k < entry_points@.len() ==> #[trigger] entry_points@[k] < n) && i > 0 ==> nearest@.len() > 0,
            decreases entry_points@.len() - i,
        {
            let ep = entry_points[i];
            if ep < n && !visited[ep] {
                let ghost v0 = visited@;
                let ghost c0 = candidates@;
                let ghost before = nearest@;
                visited.set(ep, true);
                let d = internal_distance(kernel, self.metric, &self.nodes[ep].vector, query);
                proof {
                    if has_slot(nearest@, ep) {
                        let k = choose|k: int| 0 <= k < nearest@.len() && #[trigger] nearest@[k].0 == ep;
                        assert(v0[nearest@[k].0 as int]);
                    }
                    if has_slot(candidates@, ep) {
                        let k = choose|k: int| 0 <= k < candidates@.len() && #[trigger] candidates@[k].0 == ep;
                        assert(v0[candidates@[k].0 as int]);
                    }
                }
                candidates.push((ep, d));
                nearest.push((ep, d));
                proof {
                    assert(self@.nodes[ep as int] == self.nodes@[ep as int]@);
                    lemma_push_from(c0, (ep, d));
                    assert forall|set: Set<int>| #[trigger] layer_closed(self@, set, layer as int) && holds_entries(self@, set, entry_points@)
                        implies forall|x: int| 0 <= x < n && #[trigger] visited@[x] ==> set.contains(x) by {
                        assert(entry_points@[i as int] == ep);
                        assert forall|x: int| 0 <= x < n && #[trigger] visited@[x] implies set.contains(x) by {
                            if x != ep {
                                assert(v0[x]);
                            }
                        }
                    }
                    lemma_scored_from(kernel, self@, query@, c0, candidates@, (ep, d));
                    let p0 = choose|p: int| 0 <= p <= before.len() && nearest@ == before.insert(p, (ep, d));
                    lemma_insert_from(before, p0, (ep, d));
                    lemma_scored_from(kernel, self@, query@, before, nearest@, (ep, d));
                    let p = choose|p: int| 0 <= p <= before.len() && nearest@ == before.insert(p, (ep, d));
                    lemma_insert_distinct(before, p, (ep, d));
                    lemma_insert_keeps(before, p, (ep, d));
                    lemma_push_distinct(c0, (ep, d));
                    assert(nearest@[p] == (ep, d));
                    assert(candidates@[c0.len() as int] == (ep, d));
                    assert forall|x: int| 0 <= x < n && #[trigger] visited@[x] implies has_slot(candidates@, x as usize)
                        && has_slot(nearest@, x as usize) by {
                        if x != ep {
                            assert(v0[x]);
                            let k1 = choose|k1: int| 0 <= k1 < c0.len() && #[trigger] c0[k1].0 == x as usize;
                            assert(candidates@[k1] == c0[k1]);
                            let k2 = choose|k2: int| 0 <= k2 < before.len() && #[trigger] before[k2].0 == x as usize;
                            assert(nearest@.contains(before[k2]));
                        } else {
                            assert(candidates@[c0.len() as int].0 == ep);
                            assert(nearest@[p].0 == ep);
                        }
                    }
                    assert forall|k: int| 0 <= k < candidates@.len() implies (#[trigger] candidates@[k]).0 < n && visited@[candidates@[k].0 as int]
                        && nearest@.contains(candidates@[k]) by {
                        if k < c0.len() {
                            assert(candidates@[k] == c0[k]);
                            assert(before.contains(c0[k]));
                        }
                    }
                    assert forall|x: int| 0 <= x < visited@.len() && #[trigger] visited@[x] implies nearest@.len() > 0
                        && dist_key(nearest@[0].1) <= dist_key(dist_to(kernel, self@, x, query@)) by {
                        if x == ep {
                            lemma_first_le(nearest@, p);
                        } else {
                            assert(v0[x]);
                            let b0 = if p == 0 { 1int } else { 0int };
                            assert(nearest@[b0] == before[0]);
                            lemma_first_le(nearest@, b0);
                        }
                    }
                    assert forall|x: int| 0 <= x < visited@.len() && #[trigger] visited@[x] && has_slot(nearest@, x as usize)
                        && !has_slot(candidates@, x as usize) && x != -1 implies expanded(self@, visited@, x, layer as int) by {
                        assert(has_slot(candidates@, x as usize));
                    }
                }
            }
            i = i + 1;
        }
        loop
            invariant
                n == self@.nodes.len(),
                visited@.len() == n,
                forall|set: Set<int>| #[trigger] layer_closed(self@, set, layer as int) && holds_entries(self@, set, entry_points@) ==> forall|x: int| 0 <= x < n && #[trigger] visited@[x] ==> set.contains(x),
                full == (ef >= n),
                ascending(nearest@),
                distinct_slots(nearest@),
                distinct_slots(candidates@),
                scored_by(kernel, self@, query@, nearest@),
                scored_by(kernel, self@, query@, candidates@),
                forall|k: int| 0 <= k < nearest@.len() ==> (#[trigger] nearest@[k]).0 < n && visited@[nearest@[k].0 as int],
                forall|k: int| 0 <= k < candidates@.len() ==> (#[trigger] candidates@[k]).0 < n && visited@[candidates@[k].0 as int],
                full ==> forall|k: int| 0 <= k < candidates@.len() ==> nearest@.contains(#[trigger] candidates@[k]),
                full ==> forall|x: int| 0 <= x < n && #[trigger] visited@[x] ==> has_slot(nearest@, x as usize),
                full ==> forall|x: int| 0 <= x < n && #[trigger] visited@[x] && !has_slot(candidates@, x as usize)
                    ==> expanded(self@, visited@, x, layer as int),
                forall|k: int| 0 <= k < entry_points@.len() && #[trigger] entry_points@[k] < n ==> visited@[entry_points@[k] as int],
                forall|x: int| 0 <= x < n && #[trigger] visited@[x] ==> entry_points@.contains(x as usize) || has_in_link(self@, x as usize, layer as int),
                nearest@.len() <= bound,
                below_first(kernel, self@, query@, nearest@, visited@),
                settled(self@, nearest@, candidates@, visited@, layer as int, -1),
                bound == if ef >= entry_points@.len() { ef as int } else { entry_points@.len() as int },
                (forall|k: int| 0 <= k < entry_points@.len() ==> #[trigger] entry_points@[k] < n) && entry_points@.len() > 0 ==> nearest@.len() > 0,
            ensures
                full ==> candidates@.len() == 0,
                below_first(kernel, self@, query@, nearest@, visited@),
                settled(self@, nearest@, candidates@, visited@, layer as int, -1),
                nearest@.len() > 0 ==> !has_slot(candidates@, nearest@[0].0),
                scored_by(kernel, self@, query@, nearest@),
                ascending(nearest@),
                distinct_slots(nearest@),
                forall|k: int| 0 <= k < nearest@.len() ==> (#[trigger] nearest@[k]).0 < n && visited@[nearest@[k].0 as int],
                full ==> forall|x: int| 0 <= x < n && #[trigger] visited@[x] ==> has_slot(nearest@, x as usize),
                full ==> forall|x: int| 0 <= x < n && #[trigger] visited@[x] && !has_slot(candidates@, x as usize)
                    ==> expanded(self@, visited@, x, layer as int),
                forall|k: int| 0 <= k < entry_points@.len() && #[trigger] entry_points@[k] < n ==> visited@[entry_points@[k] as int],
                forall|x: int| 0 <= x < n && #[trigger] visited@[x] ==> entry_points@.contains(x as usize) || has_in_link(self@, x as usize, layer as int),
                nearest@.len() <= bound,
                (forall|k: int| 0 <= k < entry_points@.len() ==> #[trigger] entry_points@[k] < n) && entry_points@.len() > 0 ==> nearest@.len() > 0,
                visited@.len() == n,
                forall|set: Set<int>| #[trigger] layer_closed(self@, set, layer as int) && holds_entries(self@, set, entry_points@) ==> forall|x: int| 0 <= x < n && #[trigger] visited@[x] ==> set.contains(x),
            decreases 2 * unvisited(visited@) + candidates@.len(),
        {
            let ghost measure = 2 * unvisited(visited@) + candidates@.len();
            let ghost c0 = candidates@;
            let curr = match candidates.pop_nearest() {
                Some(c) => c,
                None => break,
            };
            let ghost ci = choose|ci: int| 0 <= ci < c0.len() && c0[ci] == curr && candidates@ == c0.remove(ci);
            proof {
                lemma_remove_from(c0, ci);
                lemma_scored_from(kernel, self@, query@, c0, candidates@, curr);
                assert forall|k: int| 0 <= k < candidates@.len() implies #[trigger] candidates@[k] == c0[if k < ci { k } else { k + 1 }] by {}
                assert(!has_slot(candidates@, curr.0)) by {
                    if has_slot(candidates@, curr.0) {
                        let k = choose|k: int| 0 <= k < candidates@.len() && #[trigger] candidates@[k].0 == curr.0;
                        let kk = if k < ci { k } else { k + 1 };
                        assert(c0[kk].0 == c0[ci].0);
                    }
                }
                assert(distinct_slots(candidates@)) by {
                    assert forall|a: int, b: int| 0 <= a < b < candidates@.len() implies #[trigger] candidates@[a].0 != #[trigger] candidates@[b].0 by {
                        let aa = if a < ci { a } else { a + 1 };
                        let bb = if b < ci { b } else { b + 1 };
                        assert(c0[aa].0 != c0[bb].0);
                    }
                }
            }
            match nearest.farthest() {
                Some(f) => {
                    if crate::metric::distance_key(curr.1) > crate::metric::distance_key(f) {
                        proof {
                            lemma_first_le(nearest@, nearest@.len() - 1);
                            assert(!has_slot(nearest@, curr.0)) by {
                                if has_slot(nearest@, curr.0) {
                                    let m = choose|m: int| 0 <= m < nearest@.len() && #[trigger] nearest@[m].0 == curr.0;
                                    assert(c0[ci].0 < n);
                                    lemma_first_le(nearest@, m);
                                    if m < nearest@.len() - 1 {
                                        assert(dist_key(nearest@[m].1) <= dist_key(nearest@[nearest@.len() - 1].1));
                                    }
                                }
                            }
                            assert(!has_slot(candidates@, nearest@[0].0)) by {
                                if has_slot(candidates@, nearest@[0].0) {
                                    let m = choose|m: int| 0 <= m < candidates@.len() && #[trigger] candidates@[m].0 == nearest@[0].0;
                                    let mm = if m < ci { m } else { m + 1 };
                                    assert(candidates@[m] == c0[mm]);
                                    assert(dist_key(curr.1) <= dist_key(c0[mm].1));
                                }
                            }
                            assert forall|x: int| 0 <= x < visited@.len() && #[trigger] visited@[x] && has_slot(nearest@, x as usize)
                                && !has_slot(candidates@, x as usize) && x != -1 implies expanded(self@, visited@, x, layer as int) by {
                                if x != curr.0 && has_slot(c0, x as usize) {
                                    let k = choose|k: int| 0 <= k < c0.len() && #[trigger] c0[k].0 == x as usize;
                                    let kk = if k < ci { k } else { k - 1 };
                                    assert(candidates@[kk] == c0[k]);
                                }
                            }
                            if full {
                                assert(nearest@.contains(c0[ci]));
                                let q = choose|q: int| 0 <= q < nearest@.len() && nearest@[q] == curr;
                                if q < nearest@.len() - 1 {
                                    assert(dist_key(nearest@[q].1) <= dist_key(nearest@[nearest@.len() - 1].1));
                                }
                                assert(false);
                            }
                        }
                        break;
                    }
                },
                None => {},
            }
            let c = curr.0;
            proof {
                assert forall|x: int| 0 <= x < visited@.len() && #[trigger] visited@[x] && has_slot(nearest@, x as usize)
                    && !has_slot(candidates@, x as usize) && x != c implies expanded(self@, visited@, x, layer as int) by {
                    if has_slot(c0, x as usize) {
                        let k = choose|k: int| 0 <= k < c0.len() && #[trigger] c0[k].0 == x as usize;
                        if k != ci {
                            let kk = if k < ci { k } else { k - 1 };
                            assert(candidates@[kk] == c0[k]);
                        }
                    }
                }
                if full {
                    assert forall|x: int| 0 <= x < n && #[trigger] visited@[x] && !has_slot(candidates@, x as usize) && x != c
                        implies expanded(self@, visited@, x, layer as int) by {
                        if has_slot(c0, x as usize) {
                            let k = choose|k: int| 0 <= k < c0.len() && #[trigger] c0[k].0 == x as usize;
                            if k != ci {
                                let kk = if k < ci { k } else { k - 1 };
                                assert(candidates@[kk] == c0[k]);
                            }
                        }
                    }
                }
            }
            if layer < self.nodes[c].links.len() {
                assert(self@.nodes[c as int] == self.nodes@[c as int]@);
                let nbrs = &self.nodes[c].links[layer];
                assert(nbrs@ == self@.adj(c as int, layer as int));
                let mut j: usize = 0;
                while j < nbrs.len()
                    invariant
                        n == self@.nodes.len(),
                        visited@.len() == n,
                        forall|set: Set<int>| #[trigger] layer_closed(self@, set, layer as int) && holds_entries(self@, set, entry_points@) ==> forall|x: int| 0 <= x < n && #[trigger] visited@[x] ==> set.contains(x),
                        full == (ef >= n),
                        c < n,
                        nbrs@ == self@.adj(c as int, layer as int),
                        layer < self@.nodes[c as int].links.len(),
                        j <= nbrs@.len(),
                        ascending(nearest@),
                        distinct_slots(nearest@),
                        distinct_slots(candidates@),
                        scored_by(kernel, self@, query@, nearest@),
                        scored_by(kernel, self@, query@, candidates@),
                        visited@[c as int],
                        forall|k: int| 0 <= k < nearest@.len() ==> (#[trigger] nearest@[k]).0 < n && visited@[nearest@[k].0 as int],
                        forall|k: int| 0 <= k < candidates@.len() ==> (#[trigger] candidates@[k]).0 < n && visited@[candidates@[k].0 as int],
                        full ==> forall|k: int| 0 <= k < candidates@.len() ==> nearest@.contains(#[trigger] candidates@[k]),
                        full ==> forall|x: int| 0 <= x < n && #[trigger] visited@[x] ==> has_slot(nearest@, x as usize),
                        full ==> forall|x: int| 0 <= x < n && #[trigger] visited@[x] && !has_slot(candidates@, x as usize) && x != c
                            ==> expanded(self@, visited@, x, layer as int),
                        forall|q: int| 0 <= q < j && #[trigger] nbrs@[q] < n ==> visited@[nbrs@[q] as int],
                        below_first(kernel, self@, query@, nearest@, visited@),
                        settled(self@, nearest@, candidates@, visited@, layer as int, c as int),
                        forall|k: int| 0 <= k < entry_points@.len() && #[trigger] entry_points@[k] < n ==> visited@[entry_points@[k] as int],
                        forall|x: int| 0 <= x < n && #[trigger] visited@[x] ==> entry_points@.contains(x as usize) || has_in_link(self@, x as usize, layer as int),
                        nearest@.len() <= bound,
                        bound >= ef,
                        (forall|k: int| 0 <= k < entry_points@.len() ==> #[trigger] entry_points@[k] < n) && entry_points@.len() > 0 ==> nearest@.len() > 0,
                        2 * unvisited(visited@) + candidates@.len() < measure,
                    decreases nbrs@.len() - j,
                {
                    let nb = nbrs[j];
                    if nb < n && !visited[nb] {
                        proof {
                            lemma_visit(visited@, nb as int);
                            if full {
                                lemma_distinct_bound_without(nearest@, n as int, nb);
                            }
                        }
                        let ghost v0 = visited@;
                        let ghost cc = candidates@;
                        let ghost before = nearest@;
                        visited.set(nb, true);
                        proof {
                            assert(nbrs@[j as int] == nb);
                            assert(self@.adj(c as int, layer as int).contains(nb));
                            assert(self@.linked(c as int, layer as int, nb));
                            assert forall|set: Set<int>| #[trigger] layer_closed(self@, set, layer as int) && holds_entries(self@, set, entry_points@)
                                implies forall|x: int| 0 <= x < n && #[trigger] visited@[x] ==> set.contains(x) by {
                                assert(v0[c as int]);
                                assert(set.contains(c as int));
                                assert(self@.adj(c as int, layer as int)[j as int] == nb);
                                assert forall|x: int| 0 <= x < n && #[trigger] visited@[x] implies set.contains(x) by {
                                    if x != nb {
                                        assert(v0[x]);
                                    }
                                }
                            }
                            assert forall|x: int| 0 <= x < n && #[trigger] visited@[x] implies entry_points@.contains(x as usize)
                                || has_in_link(self@, x as usize, layer as int) by {
                                if x != nb {
                                    assert(v0[x]);
                                }
                            }
                        }
                        let d = internal_distance(kernel, self.metric, &self.nodes[nb].vector, query);
                        let admit_it = match nearest.farthest() {
                            Some(f) => crate::metric::distance_key(d) < crate::metric::distance_key(f)
                                || nearest.len() < ef,
                            None => true,
                        };
                        let ghost mut mid: Seq<Scored> = before;
                        if admit_it {
                            proof {
                                if has_slot(nearest@, nb) {
                                    let k = choose|k: int| 0 <= k < nearest@.len() && #[trigger] nearest@[k].0 == nb;
                                    assert(v0[nearest@[k].0 as int]);
                                }
                                if has_slot(candidates@, nb) {
                                    let k = choose|k: int| 0 <= k < candidates@.len() && #[trigger] candidates@[k].0 == nb;
                                    assert(v0[candidates@[k].0 as int]);
                                }
                            }
                            candidates.push((nb, d));
                            nearest.push((nb, d));
                            proof {
                                assert(self@.nodes[nb as int] == self.nodes@[nb as int]@);
                                lemma_push_from(cc, (nb, d));
                                lemma_scored_from(kernel, self@, query@, cc, candidates@, (nb, d));
                                let p0 = choose|p: int| 0 <= p <= before.len() && nearest@ == before.insert(p, (nb, d));
                                lemma_insert_from(before, p0, (nb, d));
                                lemma_scored_from(kernel, self@, query@, before, nearest@, (nb, d));
                                let p = choose|p: int| 0 <= p <= before.len() && nearest@ == before.insert(p, (nb, d));
                                lemma_insert_distinct(before, p, (nb, d));
                                lemma_insert_keeps(before, p, (nb, d));
                                lemma_push_distinct(cc, (nb, d));
                                assert(nearest@[p] == (nb, d));
                                assert(candidates@[cc.len() as int] == (nb, d));
                                if full {
                                    lemma_distinct_bound(nearest@, n as int);
                                }
                            }
                            proof {
                                mid = nearest@;
                                let p = choose|p: int| 0 <= p <= before.len() && nearest@ == before.insert(p, (nb, d));
                                assert(mid[p] == (nb, d));
                                assert forall|x: int| 0 <= x < visited@.len() && #[trigger] visited@[x] implies mid.len() > 0
                                    && dist_key(mid[0].1) <= dist_key(dist_to(kernel, self@, x, query@)) by {
                                    if x == nb {
                                        lemma_first_le(mid, p);
                                    } else {
                                        assert(v0[x]);
                                        let b0 = if p == 0 { 1int } else { 0int };
                                        assert(mid[b0] == before[0]);
                                        lemma_first_le(mid, b0);
                                    }
                                }
                                assert(mid.len() >= 2) by {
                                    assert(v0[c as int]);
                                }
                            }
                            if nearest.len() > ef {
                                let ghost n0 = nearest@;
                                nearest.pop_farthest();
                                proof {
                                    lemma_drop_last_from(n0);
                                    lemma_scored_from(kernel, self@, query@, n0, nearest@, n0[0]);
                                }
                            }
                        }
                        proof {
                            assert(self@.nodes[nb as int] == self.nodes@[nb as int]@);
                            assert(d == dist_to(kernel, self@, nb as int, query@));
                            assert(!has_slot(before, nb)) by {
                                if has_slot(before, nb) {
                                    let k = choose|k: int| 0 <= k < before.len() && #[trigger] before[k].0 == nb;
                                    assert(v0[before[k].0 as int]);
                                }
                            }
                            if admit_it {
                                assert(nearest@[0] == mid[0]);
                            } else {
                                assert(nearest@ == before);
                                assert(v0[c as int]);
                                lemma_first_le(before, before.len() - 1);
                            }
                            assert forall|x: int| 0 <= x < visited@.len() && #[trigger] visited@[x] implies nearest@.len() > 0
                                && dist_key(nearest@[0].1) <= dist_key(dist_to(kernel, self@, x, query@)) by {
                                if x != nb {
                                    assert(v0[x]);
                                }
                            }
                            assert forall|x: int| 0 <= x < visited@.len() && #[trigger] visited@[x] && has_slot(nearest@, x as usize)
                                && !has_slot(candidates@, x as usize) && x != c implies expanded(self@, visited@, x, layer as int) by {
                                let k = choose|k: int| 0 <= k < nearest@.len() && #[trigger] nearest@[k].0 == x as usize;
                                if admit_it {
                                    assert(candidates@[cc.len() as int].0 == nb);
                                    assert(mid.contains(nearest@[k]));
                                } else {
                                    assert(before[k].0 == x);
                                }
                                if x != nb {
                                    assert(v0[x]);
                                    if admit_it {
                                        let m = choose|m: int| 0 <= m < mid.len() && mid[m] == nearest@[k];
                                        assert(before.contains(mid[m]) || mid[m] == (nb, d));
                                        let b1 = choose|b1: int| 0 <= b1 < before.len() && before[b1] == mid[m];
                                        assert(before[b1].0 == x);
                                    }
                                    if has_slot(cc, x as usize) {
                                        let q = choose|q: int| 0 <= q < cc.len() && #[trigger] cc[q].0 == x as usize;
                                        assert(candidates@[q] == cc[q]);
                                    }
                                    assert(expanded(self@, v0, x, layer as int));
                                    lemma_expanded_grows(self@, v0, visited@, x, layer as int);
                                }
                            }
                            assert forall|q: int| 0 <= q < j + 1 && #[trigger] nbrs@[q] < n implies visited@[nbrs@[q] as int] by {
                                if q < j {
                                    assert(v0[nbrs@[q] as int]);
                                }
                            }
                            if full {
                                assert forall|k: int| 0 <= k < candidates@.len() implies nearest@.contains(#[trigger] candidates@[k]) by {
                                    if k < cc.len() {
                                        assert(candidates@[k] == cc[k]);
                                        assert(before.contains(cc[k]));
                                    }
                                }
                                assert forall|x: int| 0 <= x < n && #[trigger] visited@[x] implies has_slot(nearest@, x as usize) by {
                                    if x != nb {
                                        assert(v0[x]);
                                        let k2 = choose|k2: int| 0 <= k2 < before.len() && #[trigger] before[k2].0 == x as usize;
                                        assert(nearest@.contains(before[k2]));
                                    } else {
                                        let p = choose|p: int| 0 <= p <= before.len() && nearest@ == before.insert(p, (nb, d));
                                        assert(nearest@[p].0 == nb);
                                    }
                                }
                                assert forall|x: int| 0 <= x < n && #[trigger] visited@[x] && !has_slot(candidates@, x as usize) && x != c
                                    implies expanded(self@, visited@, x, layer as int) by {
                                    assert(x != nb);
                                    assert(v0[x]);
                                    if has_slot(cc, x as usize) {
                                        let k = choose|k: int| 0 <= k < cc.len() && #[trigger] cc[k].0 == x as usize;
                                        assert(candidates@[k] == cc[k]);
                                    }
                                    assert(expanded(self@, v0, x, layer as int));
                                    lemma_expanded_grows(self@, v0, visited@, x, layer as int);
                                }
                            }
                            assert forall|k: int| 0 <= k < candidates@.len() implies (#[trigger] candidates@[k]).0 < n && visited@[candidates@[k].0 as int] by {
                                if k < cc.len() {
                                    assert(candidates@[k] == cc[k]);
                                }
                            }
                        }
                    }
                    j = j + 1;
                }
                proof {
                    assert(expanded(self@, visited@, c as int, layer as int));
                    if full {
                        assert(expanded(self@, visited@, c as int, layer as int));
                    }
                }
            }
            proof {
                assert(expanded(self@, visited@, c as int, layer as int));
                assert forall|x: int| 0 <= x < visited@.len() && #[trigger] visited@[x] && has_slot(nearest@, x as usize)
                    && !has_slot(candidates@, x as usize) && x != -1 implies expanded(self@, visited@, x, layer as int) by {
                    if x != c {
                        assert(settled(self@, nearest@, candidates@, visited@, layer as int, c as int));
                    }
                }
            }
        }
        proof {
            if nearest@.len() > 0 {
                let r0 = nearest@[0].0 as int;
                assert(visited@[r0]);
                assert(has_slot(nearest@, r0 as usize));
                assert(expanded(self@, visited@, r0, layer as int));
                assert forall|i: int| 0 <= i < entry_points@.len() && #[trigger] entry_points@[i] < n implies dist_key(nearest@[0].1)
                    <= dist_key(dist_to(kernel, self@, entry_points@[i] as int, query@)) by {
                    assert(visited@[entry_points@[i] as int]);
                }
                if layer < self@.nodes[r0].links.len() {
                    assert forall|q: int| 0 <= q < self@.adj(r0, layer as int).len() && #[trigger] self@.adj(r0, layer as int)[q] < n
                        implies dist_key(nearest@[0].1) <= dist_key(dist_to(kernel, self@, self@.adj(r0, layer as int)[q] as int, query@)) by {
                        assert(visited@[self@.adj(r0, layer as int)[q] as int]);
                    }
                }
            }
        }
        proof {
            if full {
                let r = nearest@;
                assert forall|x: int| 0 <= x < n && has_slot(r, x as usize) implies #[trigger] reach_closed(self@, r, x, layer as int) by {
                    let k = choose|k: int| 0 <= k < r.len() && #[trigger] r[k].0 == x as usize;
                    assert(visited@[x]);
                    assert(expanded(self@, visited@, x, layer as int));
                    if layer < self@.nodes[x].links.len() {
                        assert forall|q: int| 0 <= q < self@.adj(x, layer as int).len() && #[trigger] self@.adj(x, layer as int)[q] < n
                            implies has_slot(r, self@.adj(x, layer as int)[q]) by {
                            assert(visited@[self@.adj(x, layer as int)[q] as int]);
                        }
                    }
                }
            }
        }
        proof {
            assert forall|set: Set<int>| #[trigger] layer_closed(self@, set, layer as int) && holds_entries(self@, set, entry_points@)
                implies forall|i: int| 0 <= i < nearest@.len() ==> set.contains((#[trigger] nearest@[i]).0 as int) by {
                assert forall|i: int| 0 <= i < nearest@.len() implies set.contains((#[trigger] nearest@[i]).0 as int) by {
                    assert(visited@[nearest@[i].0 as int]);
                }
            }
        }
        nearest.into_vec()
    }

    /// Descends from slot `from` through layers `top` down to `layer + 1`,
    /// keeping the single nearest node at each, and returns the slots reached.
    fn descend<K: DistanceKernel>(&self, kernel: &K, query: &Vec<u32>, from: usize, top: usize, layer: usize) -> (r: Vec<usize>)
        requires
            from < self@.nodes.len(),
        ensures
            r@.len() > 0,
            r@.no_duplicates(),
            forall|i: int| 0 <= i < r@.len() ==> #[trigger] r@[i] < self@.nodes.len(),
            forall|i: int| 0 <= i < r@.len() ==> #[trigger] r@[i] == from || exists|l: int| has_in_link(self@, r@[i], l),
    {
        let mut cur: Vec<usize> = vec![from];
        let mut lc: usize = top;
        while lc > layer
            invariant
                cur@.len() > 0,
                cur@.no_duplicates(),
                forall|i: int| 0 <= i < cur@.len() ==> #[trigger] cur@[i] < self@.nodes.len(),
                forall|i: int| 0 <= i < cur@.len() ==> #[trigger] cur@[i] == from || exists|l: int| has_in_link(self@, cur@[i], l),
            decreases lc,
        {
            let res = self.search_layer(kernel, query, &cur, 1, lc);
            let next = slots_of(&res);
            proof {
                assert forall|i: int| 0 <= i < next@.len() implies #[trigger] next@[i] == from || exists|l: int| has_in_link(self@, next@[i], l) by {
                    assert(next@[i] == res@[i].0);
                    if cur@.contains(res@[i].0) {
                        let k = choose|k: int| 0 <= k < cur@.len() && cur@[k] == res@[i].0;
                        assert(cur@[k] == from || exists|l: int| has_in_link(self@, cur@[k], l));
                    } else {
                        assert(has_in_link(self@, res@[i].0, lc as int));
                    }
                }
            }
            cur = next;
            lc = lc - 1;
        }
        cur
    }

    /// The `k` nodes nearest the query that the graph search finds, as slots
    /// with internal distances, ascending by distance. Search breadth at the
    /// base layer is the larger of `ef` and `k`.
    pub fn search_scored<K: DistanceKernel>(&self, kernel: &K, query: &Vec<u32>, k: usize, ef: usize) -> (r: Vec<Scored>)
        requires
            self.wf(),
        ensures
            ascending(r@),
            distinct_slots(r@),
            forall|i: int| 0 <= i < r@.len() ==> (#[trigger] r@[i]).0 < self@.nodes.len(),
            r@.len() <= k,
            r@.len() <= self@.nodes.len(),
            self@.nodes.len() == 0 ==> r@.len() == 0,
            self@.nodes.len() > 0 && k > 0 ==> r@.len() > 0,
            self@.base_connected() && k >= self@.nodes.len() ==> r@.len() == self@.nodes.len(),
            scored_by(kernel, self@, query@, r@),
    {
        if self.nodes.len() == 0 {
            return Vec::new();
        }
        let e = match self.entry_point {
            Some(e) => e,
            None => 0,
        };
        let cur = self.descend(kernel, query, e, self.max_layer, 0);
        let breadth = if ef > k { ef } else { k };
        let cands = self.search_layer(kernel, query, &cur, breadth, 0);
        let mut r: Vec<Scored> = Vec::new();
        let mut i: usize = 0;
        while i < cands.len() && i < k
            invariant
                i <= cands@.len(),
                i <= k,
                r@ == cands@.subrange(0, i as int),
            decreases cands@.len() - i,
        {
            r.push(cands[i]);
            i = i + 1;
        }
        proof {
            lemma_distinct_bound(r@, self@.nodes.len() as int);
            assert forall|j: int| 0 <= j < r@.len() implies cands@.contains(#[trigger] r@[j]) || r@[j] == cands@[0] by {
                assert(r@[j] == cands@[j]);
            }
            if r@.len() > 0 {
                lemma_scored_from(kernel, self@, query@, cands@, r@, cands@[0]);
            }
            let g = self@;
            let n = g.nodes.len() as int;
            if g.base_connected() && k >= n {
                let set = Set::new(|x: int| 0 <= x < n && has_slot(cands@, x as usize));
                assert(g.base_closed(set)) by {
                    assert forall|x: int, q: int| 0 <= x < n && set.contains(x) && 0 < g.nodes[x].links.len() && 0 <= q
                        < g.adj(x, 0).len() implies set.contains(#[trigger] g.adj(x, 0)[q] as int) by {
                        assert(reach_closed(g, cands@, x, 0));
                        assert(g.nodes[x].links[0][q] < n);
                    }
                }
                assert(cur@[0] < n);
                assert(has_slot(cands@, cur@[0]));
                assert(set.contains(cur@[0] as int));
                assert forall|y: int| 0 <= y < n implies #[trigger] has_slot(cands@, y as usize) by {
                    assert(set.contains(y));
                }
                lemma_distinct_cover(cands@, n);
                assert(r@ =~= cands@);
            }
        }
        r
    }

    /// The `k` nodes nearest the query that the graph search finds, as IDs with
    /// final distances (see [`final_of`]), nearest first.
    pub fn search<K: DistanceKernel>(&self, kernel: &K, query: &Vec<u32>, k: usize, ef: usize) -> (r: Vec<(String, u32)>)
        requires
            self.wf(),
        ensures
            exists|s: Seq<Scored>| ascending(s) && distinct_slots(s) && #[trigger] reports(kernel, self@, query@, s, r@),
            self@.ids_unique() ==> forall|i: int, j: int| 0 <= i < j < r@.len() ==> (#[trigger] r@[i]).0@ != (#[trigger] r@[j]).0@,
            self@.metric != DistanceMetric::Euclidean ==> forall|i: int, j: int| 0 <= i < j < r@.len() ==> dist_key(
                (#[trigger] r@[i]).1,
            ) <= dist_key((#[trigger] r@[j]).1),
            r@.len() <= k,
            r@.len() <= self@.nodes.len(),
            self@.nodes.len() == 0 ==> r@.len() == 0,
            self@.nodes.len() > 0 && k > 0 ==> r@.len() > 0,
            self@.base_connected() && k >= self@.nodes.len() ==> r@.len() == self@.nodes.len(),
    {
        let scored = self.search_scored(kernel, query, k, ef);
        let mut r: Vec<(String, u32)> = Vec::new();
        let mut i: usize = 0;
        while i < scored.len()
            invariant
                i <= scored@.len(),
                r@.len() == i,
                forall|j: int| 0 <= j < scored@.len() ==> (#[trigger] scored@[j]).0 < self@.nodes.len(),
                forall|j: int| 0 <= j < i ==> (#[trigger] r@[j]).0@ == self@.nodes[scored@[j].0 as int].id
                    && r@[j].1 == final_of(kernel, self@.metric, scored@[j].1),
            decreases scored@.len() - i,
        {
            let (s, d) = scored[i];
            assert(self@.nodes[s as int] == self.nodes@[s as int]@);
            r.push((self.nodes[s].id.clone(), final_distance(kernel, self.metric, d)));
            i = i + 1;
        }
        proof {
            assert(reports(kernel, self@, query@, scored@, r@));
            if self@.ids_unique() {
                assert forall|i: int, j: int| 0 <= i < j < r@.len() implies (#[trigger] r@[i]).0@ != (#[trigger] r@[j]).0@ by {
                    assert(scored@[i].0 != scored@[j].0);
                }
            }
        }
        r
    }
}

} // verus!
