//! The host-facing database: input validation, upsert, a metadata side
//! table, and versioned persistence around the index.

use vstd::prelude::*;
use vstd::set_lib::lemma_set_difference_len;
use crate::hnsw::{HNSWIndex, copy_vector};
use crate::model::{IndexModel, lemma_id_set, node_ids, dist_to, lemma_extends_ids, lemma_extends_vectors, lemma_renumbered_ids, lemma_renumbered_vectors, reports};
use crate::idtable::{IdTable, id_seq};
use crate::queue::{Scored, ascending, distinct_slots};
use crate::metric::{DistanceKernel, DistanceMetric, all_finite, dist_key, final_of, metric_from_name, metric_named, vector_is_finite};
use crate::persist::{IndexParts, lemma_round_trip, parts_valid, written};

verus! {

/// String fields attached to a stored vector.
pub type Metadata = Vec<(String, String)>;

/// Version of the persisted document this build reads and writes.
pub const FORMAT_VERSION: u32 = 1;

/// Failures reported to the host.
#[derive(Debug, PartialEq, Eq)]
pub enum DbError {
    /// A vector or query does not have the index's dimensionality.
    DimensionMismatch { expected: usize, got: usize },
    /// A vector holds NaN or an infinity.
    InvalidComponent,
    /// A persisted document does not describe a well-formed index.
    Serialization,
    /// A persisted document carries a version this build does not read.
    VersionUnsupported(u32),
}

/// One search hit: the ID, the final distance as IEEE-754 bits, and the
/// metadata stored with the ID.
pub struct SearchResult {
    pub id: String,
    pub distance: u32,
    pub metadata: Option<Metadata>,
}

/// A stored vector with its ID and metadata.
pub struct VectorRecord {
    pub id: String,
    pub vector: Vec<u32>,
    pub metadata: Option<Metadata>,
}

/// Everything a persisted document holds.
pub struct DbState {
    pub version: u32,
    pub index: IndexParts,
    pub metadata: Vec<(String, Metadata)>,
}

/// The metadata stored for an ID in a side table with unique keys.
pub open spec fn meta_for(table: Seq<(String, Metadata)>, id: Seq<char>) -> Option<Seq<(String, String)>> {
    if exists|i: int| 0 <= i < table.len() && (#[trigger] table[i]).0@ == id {
        let i = choose|i: int| 0 <= i < table.len() && (#[trigger] table[i]).0@ == id;
        Some(table[i].1@)
    } else {
        None
    }
}

/// The view of optional metadata.
pub open spec fn meta_view(m: Option<Metadata>) -> Option<Seq<(String, String)>> {
    match m {
        Some(m) => Some(m@),
        None => None,
    }
}

/// Whether no key occurs twice in a side table.
pub open spec fn keys_unique(table: Seq<(String, Metadata)>) -> bool {
    forall|i: int, j: int| 0 <= i < table.len() && 0 <= j < table.len() && i != j ==> (#[trigger] table[i]).0@
        != (#[trigger] table[j]).0@
}

proof fn lemma_meta_slot(table: Seq<(String, Metadata)>, id: Seq<char>)
    requires
        keys_unique(table),
    ensures
        forall|j: int| 0 <= j < table.len() && (#[trigger] table[j]).0@ == id ==> meta_for(table, id) == Some(table[j].1@),
        (forall|j: int| 0 <= j < table.len() ==> (#[trigger] table[j]).0@ != id) ==> meta_for(table, id) is None,
{
    assert forall|j: int| 0 <= j < table.len() && (#[trigger] table[j]).0@ == id implies meta_for(table, id) == Some(table[j].1@) by {
        let i = choose|i: int| 0 <= i < table.len() && (#[trigger] table[i]).0@ == id;
        assert(i == j);
    }
}

/// Whether two side tables hold the same keys and values in the same order.
pub open spec fn same_table(a: Seq<(String, Metadata)>, b: Seq<(String, Metadata)>) -> bool {
    &&& a.len() == b.len()
    &&& forall|i: int| 0 <= i < a.len() ==> (#[trigger] a[i]).0@ == b[i].0@ && a[i].1@ == b[i].1@
}

proof fn lemma_same_table(a: Seq<(String, Metadata)>, b: Seq<(String, Metadata)>)
    requires
        same_table(a, b),
        keys_unique(a),
    ensures
        keys_unique(b),
        forall|k: Seq<char>| #[trigger] meta_for(a, k) == meta_for(b, k),
{
    assert forall|i: int, j: int| 0 <= i < b.len() && 0 <= j < b.len() && i != j implies (#[trigger] b[i]).0@
        != (#[trigger] b[j]).0@ by {
        assert(a[i].0@ != a[j].0@);
    }
    assert forall|k: Seq<char>| #[trigger] meta_for(a, k) == meta_for(b, k) by {
        if exists|i: int| 0 <= i < a.len() && (#[trigger] a[i]).0@ == k {
            let i = choose|i: int| 0 <= i < a.len() && (#[trigger] a[i]).0@ == k;
            assert(b[i].0@ == k);
            let j = choose|j: int| 0 <= j < b.len() && (#[trigger] b[j]).0@ == k;
            assert(a[j].0@ == k);
            assert(i == j);
        }
        if exists|i: int| 0 <= i < b.len() && (#[trigger] b[i]).0@ == k {
            let i = choose|i: int| 0 <= i < b.len() && (#[trigger] b[i]).0@ == k;
            assert(a[i].0@ == k);
        }
    }
}

fn copy_table(t: &Vec<(String, Metadata)>) -> (r: Vec<(String, Metadata)>)
    ensures
        same_table(t@, r@),
{
    let mut r: Vec<(String, Metadata)> = Vec::new();
    let mut i: usize = 0;
    while i < t.len()
        invariant
            i <= t@.len(),
            r@.len() == i,
            forall|j: int| 0 <= j < i ==> (#[trigger] t@[j]).0@ == r@[j].0@ && t@[j].1@ == r@[j].1@,
        decreases t@.len() - i,
    {
        r.push((t[i].0.clone(), copy_metadata(&t[i].1)));
        i = i + 1;
    }
    r
}

fn copy_metadata(m: &Metadata) -> (r: Metadata)
    ensures
        r@ == m@,
{
    let mut r: Metadata = Vec::new();
    let mut i: usize = 0;
    while i < m.len()
        invariant
            i <= m@.len(),
            r@ == m@.subrange(0, i as int),
        decreases m@.len() - i,
    {
        let (k, v) = &m[i];
        r.push((k.clone(), v.clone()));
        i = i + 1;
    }
    assert(m@.subrange(0, m@.len() as int) =~= m@);
    r
}

/// The keys of a side table, in order.
pub open spec fn meta_keys(t: Seq<(String, Metadata)>) -> Seq<Seq<char>> {
    t.map_values(|e: (String, Metadata)| e.0@)
}

/// Approximate nearest-neighbour database with per-ID metadata.
pub struct VectorDB {
    hnsw_index: HNSWIndex,
    metadata: Vec<(String, Metadata)>,
    meta_ids: IdTable,
}

impl VectorDB {
    /// Whether the database's invariants hold: the index is well formed with
    /// unique IDs, and the side table has unique keys, all indexed.
    pub closed spec fn wf(&self) -> bool {
        &&& self.hnsw_index.wf()
        &&& self.hnsw_index@.ids_unique()
        &&& keys_unique(self.metadata@)
        &&& self.meta_ids.indexes(meta_keys(self.metadata@))
    }

    /// The index.
    pub closed spec fn index(&self) -> IndexModel {
        self.hnsw_index@
    }

    /// The metadata stored for an ID.
    pub closed spec fn meta(&self, id: Seq<char>) -> Option<Seq<(String, String)>> {
        meta_for(self.metadata@, id)
    }

    /// Position of an ID in the side table.
    fn meta_slot(&self, id: &str) -> (r: Option<usize>)
        requires
            self.meta_ids.indexes(meta_keys(self.metadata@)),
        ensures
            r matches Some(i) ==> i < self.metadata@.len() && self.metadata@[i as int].0@ == id@,
            r is None ==> forall|i: int| 0 <= i < self.metadata@.len() ==> (#[trigger] self.metadata@[i]).0@ != id@,
    {
        let ghost keys = meta_keys(self.metadata@);
        let cands = self.meta_ids.candidates(Ghost(keys), id);
        let key = id.to_owned();
        let mut k: usize = 0;
        while k < cands.len()
            invariant
                keys == meta_keys(self.metadata@),
                k <= cands@.len(),
                key@ == id@,
                forall|q: int| 0 <= q < cands@.len() ==> #[trigger] cands@[q] < keys.len(),
                forall|q: int| 0 <= q < k ==> self.metadata@[cands@[q] as int].0@ != id@,
            decreases cands@.len() - k,
        {
            let i = cands[k];
            if self.metadata[i].0 == key {
                return Some(i);
            }
            k = k + 1;
        }
        proof {
            assert forall|i: int| 0 <= i < self.metadata@.len() implies (#[trigger] self.metadata@[i]).0@ != id@ by {
                if self.metadata@[i].0@ == id@ {
                    assert(self.metadata.len() == self.metadata@.len());
                    assert(keys[i] == id@);
                    assert(cands@.contains(i as usize));
                    let q = choose|q: int| 0 <= q < cands@.len() && cands@[q] == i as usize;
                }
            }
        }
        None
    }

    /// Drops the metadata of an ID.
    fn remove_meta(&mut self, id: &str)
        requires
            keys_unique(old(self).metadata@),
            old(self).meta_ids.indexes(meta_keys(old(self).metadata@)),
        ensures
            keys_unique(final(self).metadata@),
            final(self).meta_ids.indexes(meta_keys(final(self).metadata@)),
            final(self).hnsw_index == old(self).hnsw_index,
            meta_for(final(self).metadata@, id@) is None,
            forall|k: Seq<char>| k != id@ ==> meta_for(final(self).metadata@, k) == meta_for(old(self).metadata@, k),
    {
        match self.meta_slot(id) {
            Some(i) => {
                let ghost t = self.metadata@;
                let last = self.metadata.len() - 1;
                let key_i = self.metadata[i].0.clone();
                let key_last = self.metadata[last].0.clone();
                self.meta_ids.remove_pos(Ghost(meta_keys(t)), i, last, key_i.as_str(), key_last.as_str());
                self.metadata.swap_remove(i);
                proof {
                    let u = self.metadata@;
                    assert(u =~= t.update(i as int, t.last()).drop_last());
                    assert(meta_keys(u) =~= meta_keys(t).update(i as int, meta_keys(t).last()).drop_last());
                    let src = |a: int| if a == i { last as int } else { a };
                    assert forall|a: int| 0 <= a < u.len() implies #[trigger] u[a] == t[src(a)] by {}
                    assert forall|a: int, b: int| 0 <= a < u.len() && 0 <= b < u.len() && a != b implies (#[trigger] u[a]).0@
                        != (#[trigger] u[b]).0@ by {
                        assert(u[a] == t[src(a)]);
                        assert(u[b] == t[src(b)]);
                    }
                    assert forall|k: Seq<char>| k != id@ implies meta_for(u, k) == meta_for(t, k) by {
                        if exists|j: int| 0 <= j < t.len() && (#[trigger] t[j]).0@ == k {
                            let j = choose|j: int| 0 <= j < t.len() && (#[trigger] t[j]).0@ == k;
                            assert(j != i);
                            let ju = if j == last { i as int } else { j };
                            assert(u[ju] == t[j]);
                            let a = choose|a: int| 0 <= a < u.len() && (#[trigger] u[a]).0@ == k;
                            assert(u[a] == t[src(a)]);
                            assert(src(a) == j);
                        } else {
                            if exists|a: int| 0 <= a < u.len() && (#[trigger] u[a]).0@ == k {
                                let a = choose|a: int| 0 <= a < u.len() && (#[trigger] u[a]).0@ == k;
                                assert(u[a] == t[src(a)]);
                            }
                        }
                    }
                    if exists|a: int| 0 <= a < u.len() && (#[trigger] u[a]).0@ == id@ {
                        let a = choose|a: int| 0 <= a < u.len() && (#[trigger] u[a]).0@ == id@;
                        assert(u[a] == t[src(a)]);
                    }
                }
            },
            None => {},
        }
    }

    /// Rebuilds the key table with a bucket for every entry.
    fn reindex_meta(&mut self)
        ensures
            final(self).metadata == old(self).metadata,
            final(self).hnsw_index == old(self).hnsw_index,
            final(self).meta_ids.indexes(meta_keys(final(self).metadata@)),
    {
        let n = self.metadata.len();
        let ghost keys = meta_keys(self.metadata@);
        let mut table = IdTable::empty(n);
        let mut i: usize = 0;
        assert(keys.take(0) =~= Seq::<Seq<char>>::empty());
        while i < n
            invariant
                keys == meta_keys(self.metadata@),
                n == self.metadata@.len(),
                i <= n,
                table.indexes(keys.take(i as int)),
            decreases n - i,
        {
            assert(keys.take(i as int).push(keys[i as int]) =~= keys.take(i + 1));
            table.insert_pos(Ghost(keys.take(i as int)), self.metadata[i].0.as_str(), i);
            i = i + 1;
        }
        assert(keys.take(n as int) =~= keys);
        self.meta_ids = table;
    }

    /// Sets the metadata of an ID, which has none.
    fn add_meta(&mut self, id: String, m: Metadata)
        requires
            keys_unique(old(self).metadata@),
            old(self).meta_ids.indexes(meta_keys(old(self).metadata@)),
            meta_for(old(self).metadata@, id@) is None,
        ensures
            keys_unique(final(self).metadata@),
            final(self).meta_ids.indexes(meta_keys(final(self).metadata@)),
            final(self).hnsw_index == old(self).hnsw_index,
            meta_for(final(self).metadata@, id@) == Some(m@),
            forall|k: Seq<char>| k != id@ ==> meta_for(final(self).metadata@, k) == meta_for(old(self).metadata@, k),
    {
        if self.metadata.len() / 2 >= self.meta_ids.bucket_count() {
            self.reindex_meta();
        }
        let ghost t = self.metadata@;
        let ghost idv = id@;
        let ghost mv = m@;
        let n_slot = self.metadata.len();
        self.meta_ids.insert_pos(Ghost(meta_keys(t)), id.as_str(), n_slot);
        self.metadata.push((id, m));
        proof {
            let u = self.metadata@;
            let n = t.len() as int;
            assert(meta_keys(u) =~= meta_keys(t).push(idv));
            assert(u[n].0@ == idv);
            assert forall|a: int, b: int| 0 <= a < u.len() && 0 <= b < u.len() && a != b implies (#[trigger] u[a]).0@
                != (#[trigger] u[b]).0@ by {
                if a == n {
                    assert(u[b] == t[b]);
                } else if b == n {
                    assert(u[a] == t[a]);
                } else {
                    assert(u[a] == t[a]);
                    assert(u[b] == t[b]);
                }
            }
            let i = choose|i: int| 0 <= i < u.len() && (#[trigger] u[i]).0@ == idv;
            assert(i == n);
            assert forall|k: Seq<char>| k != idv implies meta_for(u, k) == meta_for(t, k) by {
                if exists|j: int| 0 <= j < t.len() && (#[trigger] t[j]).0@ == k {
                    let j = choose|j: int| 0 <= j < t.len() && (#[trigger] t[j]).0@ == k;
                    assert(u[j] == t[j]);
                    let a = choose|a: int| 0 <= a < u.len() && (#[trigger] u[a]).0@ == k;
                    assert(a != n);
                    assert(u[a] == t[a]);
                }
                if exists|a: int| 0 <= a < u.len() && (#[trigger] u[a]).0@ == k {
                    let a = choose|a: int| 0 <= a < u.len() && (#[trigger] u[a]).0@ == k;
                    assert(a != n);
                    assert(u[a] == t[a]);
                }
            }
        }
    }

    /// Creates an empty database. The metric is chosen by name (see
    /// [`metric_named`]).
    pub fn new(dimensions: usize, m: usize, ef_construction: usize, metric: Option<String>) -> (r: VectorDB)
        requires
            m <= usize::MAX / 2,
        ensures
            r.wf(),
            r.index().nodes.len() == 0,
            r.index().dimensions == dimensions,
            r.index().m == m,
            r.index().ef_construction == ef_construction,
            r.index().metric == metric_named(
                match metric {
                    Some(s) => Some(s@),
                    None => None,
                },
            ),
            forall|k: Seq<char>| r.meta(k) is None,
    {
        let chosen = match &metric {
            Some(s) => metric_from_name(Some(s.as_str())),
            None => metric_from_name(None),
        };
        let r = VectorDB {
            hnsw_index: HNSWIndex::new(dimensions, m, ef_construction, chosen),
            metadata: Vec::new(),
            meta_ids: IdTable::empty(16),
        };
        assert(meta_keys(r.metadata@) =~= Seq::<Seq<char>>::empty());
        assert forall|k: Seq<char>| r.meta(k) is None by {}
        r
    }

    /// Inserts or replaces the vector stored under an ID, with its metadata.
    /// Fails, changing nothing, on a vector of the wrong length or with a
    /// component that is NaN or infinite.
    pub fn insert<K: DistanceKernel>(&mut self, kernel: &K, id: String, vector: Vec<u32>, metadata: Option<Metadata>) -> (r: Result<(), DbError>)
        requires
            old(self).wf(),
        ensures
            final(self).wf(),
            vector@.len() != old(self).index().dimensions ==> r == Err::<(), DbError>(
                DbError::DimensionMismatch { expected: old(self).index().dimensions as usize, got: vector@.len() as usize },
            ),
            vector@.len() == old(self).index().dimensions && !all_finite(vector@) ==> r == Err::<(), DbError>(DbError::InvalidComponent),
            r is Err ==> final(self).index() == old(self).index() && forall|k: Seq<char>| final(self).meta(k) == old(self).meta(k),
            vector@.len() == old(self).index().dimensions && all_finite(vector@) ==> {
                &&& r is Ok
                &&& exists|s: int| 0 <= s < final(self).index().nodes.len() && #[trigger] final(self).index().nodes[s].id == id@
                    && final(self).index().nodes[s].vector == vector@
                &&& final(self).meta(id@) == meta_view(metadata)
                &&& forall|k: Seq<char>| k != id@ ==> final(self).meta(k) == old(self).meta(k)
                &&& forall|k: Seq<char>| k != id@ ==> (#[trigger] final(self).index().has_id(k) <==> old(self).index().has_id(k))
                &&& forall|k: Seq<char>, v: Seq<u32>| k != id@ ==> (#[trigger] final(self).index().holds_vector(k, v)
                    <==> old(self).index().holds_vector(k, v))
                &&& final(self).index().nodes.len() == old(self).index().nodes.len() + if old(self).index().has_id(id@) { 0int } else { 1int }
            },
            final(self).index().dimensions == old(self).index().dimensions,
            final(self).index().m == old(self).index().m,
            final(self).index().metric == old(self).index().metric,
    {
        let dims = self.hnsw_index.dimensions();
        if vector.len() != dims {
            return Err(DbError::DimensionMismatch { expected: dims, got: vector.len() });
        }
        if !vector_is_finite(&vector) {
            return Err(DbError::InvalidComponent);
        }
        let ghost g0 = self.hnsw_index@;
        let ghost idv = id@;
        let ghost vv = vector@;
        if self.hnsw_index.delete(id.as_str()) {
            proof {
                let g1 = self.hnsw_index@;
                let d = choose|d: int| 0 <= d < g0.nodes.len() && g0.nodes[d].id == idv && #[trigger] g1.removed(g0, d);
                lemma_renumbered_ids(g1, g0, d);
                lemma_renumbered_vectors(g1, g0, d);
            }
        }
        let ghost g1 = self.hnsw_index@;
        assert(!g1.has_id(idv));
        self.remove_meta(id.as_str());
        match metadata {
            Some(m) => {
                self.add_meta(id.clone(), m);
            },
            None => {},
        }
        self.hnsw_index.insert(kernel, id, vector);
        proof {
            let g2 = self.hnsw_index@;
            lemma_extends_ids(g2, g1);
            lemma_extends_vectors(g2, g1);
            assert(g2.nodes[g2.nodes.len() - 1].id == idv);
        }
        Ok(())
    }

    /// The `k` stored vectors nearest the query that the graph search finds,
    /// nearest first, with their metadata. Fails on a query of the wrong
    /// length.
    pub fn search<K: DistanceKernel>(&self, kernel: &K, query: &Vec<u32>, k: usize, ef: usize) -> (r: Result<Vec<SearchResult>, DbError>)
        requires
            self.wf(),
        ensures
            query@.len() != self.index().dimensions ==> r == Err::<Vec<SearchResult>, DbError>(
                DbError::DimensionMismatch { expected: self.index().dimensions as usize, got: query@.len() as usize },
            ),
            query@.len() == self.index().dimensions ==> (r matches Ok(v) && {
                &&& v@.len() <= k
                &&& v@.len() <= self.index().nodes.len()
                &&& self.index().nodes.len() > 0 && k > 0 ==> v@.len() > 0
                &&& self.index().base_connected() && k >= self.index().nodes.len() ==> v@.len() == self.index().nodes.len()
                &&& exists|s: Seq<Scored>|
                    ascending(s) && distinct_slots(s) && s.len() == v@.len() && (forall|i: int| 0 <= i < s.len()
                        ==> (#[trigger] s[i]).0 < self.index().nodes.len() && v@[i].id@ == self.index().nodes[s[i].0 as int].id
                        && s[i].1 == dist_to(kernel, self.index(), s[i].0 as int, query@)
                        && v@[i].distance == final_of(kernel, self.index().metric, s[i].1))
                &&& forall|i: int, j: int| 0 <= i < j < v@.len() ==> (#[trigger] v@[i]).id@ != (#[trigger] v@[j]).id@
                &&& self.index().metric != DistanceMetric::Euclidean ==> forall|i: int, j: int| 0 <= i < j < v@.len()
                    ==> dist_key((#[trigger] v@[i]).distance) <= dist_key((#[trigger] v@[j]).distance)
                &&& forall|i: int| 0 <= i < v@.len() ==> meta_view((#[trigger] v@[i]).metadata) == self.meta(v@[i].id@)
            }),
    {
        let dims = self.hnsw_index.dimensions();
        if query.len() != dims {
            return Err(DbError::DimensionMismatch { expected: dims, got: query.len() });
        }
        let hits = self.hnsw_index.search(kernel, query, k, ef);
        let mut out: Vec<SearchResult> = Vec::new();
        let mut i: usize = 0;
        while i < hits.len()
            invariant
                self.wf(),
                i <= hits@.len(),
                out@.len() == i,
                forall|j: int| 0 <= j < i ==> (#[trigger] out@[j]).id@ == hits@[j].0@ && out@[j].distance == hits@[j].1,
                forall|j: int| 0 <= j < i ==> meta_view((#[trigger] out@[j]).metadata) == self.meta(out@[j].id@),
            decreases hits@.len() - i,
        {
            let (id, d) = &hits[i];
            let metadata = match self.meta_slot(id.as_str()) {
                Some(j) => {
                    proof {
                        lemma_meta_slot(self.metadata@, id@);
                    }
                    Some(copy_metadata(&self.metadata[j].1))
                },
                None => None,
            };
            proof {
                lemma_meta_slot(self.metadata@, id@);
            }
            out.push(SearchResult { id: id.clone(), distance: *d, metadata });
            i = i + 1;
        }
        proof {
            let g = self.hnsw_index@;
            let sq = choose|sq: Seq<Scored>| ascending(sq) && distinct_slots(sq) && #[trigger] reports(kernel, g, query@, sq, hits@);
            assert forall|i: int| 0 <= i < sq.len() implies (#[trigger] sq[i]).0 < g.nodes.len() && out@[i].id@ == g.nodes[sq[i].0 as int].id
                && sq[i].1 == dist_to(kernel, g, sq[i].0 as int, query@) && out@[i].distance == final_of(kernel, g.metric, sq[i].1) by {
                assert(out@[i].id@ == hits@[i].0@);
            }
            assert forall|i: int, j: int| 0 <= i < j < out@.len() implies (#[trigger] out@[i]).id@ != (#[trigger] out@[j]).id@ by {
                assert(hits@[i].0@ != hits@[j].0@);
            }
            if g.metric != DistanceMetric::Euclidean {
                assert forall|i: int, j: int| 0 <= i < j < out@.len() implies dist_key((#[trigger] out@[i]).distance)
                    <= dist_key((#[trigger] out@[j]).distance) by {
                    assert(dist_key(hits@[i].1) <= dist_key(hits@[j].1));
                }
            }
        }
        Ok(out)
    }

    /// The vector and metadata stored under an ID.
    pub fn get(&self, id: &str) -> (r: Option<VectorRecord>)
        requires
            self.wf(),
        ensures
            r is None <==> !self.index().has_id(id@),
            r matches Some(rec) ==> {
                &&& rec.id@ == id@
                &&& exists|s: int| 0 <= s < self.index().nodes.len() && #[trigger] self.index().nodes[s].id == id@
                    && rec.vector@ == self.index().nodes[s].vector
                &&& meta_view(rec.metadata) == self.meta(id@)
            },
    {
        match self.hnsw_index.get_vector(id) {
            Some(v) => {
                let metadata = match self.meta_slot(id) {
                    Some(j) => {
                        proof {
                            lemma_meta_slot(self.metadata@, id@);
                        }
                        Some(copy_metadata(&self.metadata[j].1))
                    },
                    None => {
                        proof {
                            lemma_meta_slot(self.metadata@, id@);
                        }
                        None
                    },
                };
                let vector = copy_vector(v);
                Some(VectorRecord { id: id.to_owned(), vector, metadata })
            },
            None => None,
        }
    }

    /// Whether a vector is stored under the ID.
    pub fn has(&self, id: &str) -> (r: bool)
        requires
            self.wf(),
        ensures
            r == self.index().has_id(id@),
    {
        self.hnsw_index.contains(id)
    }

    /// The stored IDs.
    pub fn list_ids(&self) -> (r: Vec<String>)
        requires
            self.wf(),
        ensures
            r@.len() == self.index().nodes.len(),
            forall|i: int| 0 <= i < r@.len() ==> (#[trigger] r@[i])@ == self.index().nodes[i].id,
            forall|i: int, j: int| 0 <= i < j < r@.len() ==> (#[trigger] r@[i])@ != (#[trigger] r@[j])@,
            forall|k: Seq<char>| self.index().has_id(k) <==> exists|i: int| 0 <= i < r@.len() && (#[trigger] r@[i])@ == k,
    {
        let r = self.hnsw_index.all_ids();
        proof {
            let g = self.hnsw_index@;
            assert forall|k: Seq<char>| g.has_id(k) <==> exists|i: int| 0 <= i < r@.len() && (#[trigger] r@[i])@ == k by {
                if g.has_id(k) {
                    let t = choose|t: int| 0 <= t < g.nodes.len() && #[trigger] g.nodes[t].id == k;
                    assert(r@[t]@ == k);
                }
                if exists|i: int| 0 <= i < r@.len() && (#[trigger] r@[i])@ == k {
                    let i = choose|i: int| 0 <= i < r@.len() && (#[trigger] r@[i])@ == k;
                    assert(g.nodes[i].id == k);
                }
            }
        }
        r
    }

    /// The invariants of a database include those of its index, with IDs
    /// unique.
    pub proof fn lemma_wf(&self)
        requires
            self.wf(),
        ensures
            self.index().wf(),
            self.index().ids_unique(),
    {
    }

    /// Removes the vector and metadata stored under an ID; returns whether a
    /// vector was stored.
    pub fn delete(&mut self, id: &str) -> (r: bool)
        requires
            old(self).wf(),
        ensures
            final(self).wf(),
            r == old(self).index().has_id(id@),
            !final(self).index().has_id(id@),
            final(self).meta(id@) is None,
            forall|k: Seq<char>| k != id@ ==> final(self).meta(k) == old(self).meta(k),
            forall|k: Seq<char>| k != id@ ==> (#[trigger] final(self).index().has_id(k) <==> old(self).index().has_id(k)),
            final(self).index().nodes.len() == old(self).index().nodes.len() - if r { 1int } else { 0int },
            final(self).index().dimensions == old(self).index().dimensions,
            final(self).index().m == old(self).index().m,
            final(self).index().metric == old(self).index().metric,
    {
        self.remove_meta(id);
        let ghost g0 = self.hnsw_index@;
        let r = self.hnsw_index.delete(id);
        proof {
            if r {
                let g1 = self.hnsw_index@;
                let d = choose|d: int| 0 <= d < g0.nodes.len() && g0.nodes[d].id == id@ && #[trigger] g1.removed(g0, d);
                lemma_renumbered_ids(g1, g0, d);
            }
        }
        r
    }

    /// Removes every listed ID; returns how many were stored.
    pub fn delete_batch(&mut self, ids: Vec<String>) -> (r: usize)
        requires
            old(self).wf(),
        ensures
            final(self).wf(),
            r as int == old(self).index().nodes.len() - final(self).index().nodes.len(),
            r as int == node_ids(old(self).index()).to_set().intersect(id_seq(ids@).to_set()).len(),
            forall|i: int| 0 <= i < ids@.len() ==> !final(self).index().has_id(#[trigger] ids@[i]@) && final(self).meta(ids@[i]@) is None,
            forall|k: Seq<char>| !id_seq(ids@).contains(k) ==> #[trigger] final(self).meta(k) == old(self).meta(k),
            forall|k: Seq<char>| !id_seq(ids@).contains(k) ==> (#[trigger] final(self).index().has_id(k) <==> old(self).index().has_id(k)),
            final(self).index().dimensions == old(self).index().dimensions,
            final(self).index().m == old(self).index().m,
            final(self).index().metric == old(self).index().metric,
    {
        let ghost g0 = *self;
        let mut count: usize = 0;
        let mut i: usize = 0;
        while i < ids.len()
            invariant
                self.wf(),
                g0.wf(),
                i <= ids@.len(),
                count as int == g0.index().nodes.len() - self.index().nodes.len(),
                self.index().nodes.len() <= g0.index().nodes.len(),
                forall|j: int| 0 <= j < i ==> !self.index().has_id(#[trigger] ids@[j]@) && self.meta(ids@[j]@) is None,
                forall|k: Seq<char>| !id_seq(ids@).take(i as int).contains(k) ==> #[trigger] self.meta(k) == g0.meta(k),
                forall|k: Seq<char>| !id_seq(ids@).take(i as int).contains(k) ==> (#[trigger] self.index().has_id(k) <==> g0.index().has_id(k)),
                self.index().dimensions == g0.index().dimensions,
                self.index().m == g0.index().m,
                self.index().metric == g0.index().metric,
            decreases ids@.len() - i,
        {
            let ghost before = *self;
            if self.delete(ids[i].as_str()) {
                assert(g0.index().nodes.len() <= usize::MAX);
                count = count + 1;
            }
            proof {
                let pre = id_seq(ids@).take(i as int);
                let post = id_seq(ids@).take(i + 1);
                assert(post =~= pre.push(ids@[i as int]@));
                assert forall|k: Seq<char>| !post.contains(k) implies #[trigger] self.meta(k) == g0.meta(k)
                    && (self.index().has_id(k) <==> g0.index().has_id(k)) by {
                    assert(k != ids@[i as int]@) by {
                        assert(post[i as int] == ids@[i as int]@);
                    }
                    if pre.contains(k) {
                        let q = choose|q: int| 0 <= q < pre.len() && pre[q] == k;
                        assert(post[q] == k);
                    }
                    assert(before.index().has_id(k) <==> g0.index().has_id(k));
                    assert(before.meta(k) == g0.meta(k));
                    assert(self.meta(k) == before.meta(k));
                    assert(self.index().has_id(k) <==> before.index().has_id(k));
                }
                assert(id_seq(ids@).take(i + 1) == post);
                assert forall|j: int| 0 <= j < i + 1 implies !self.index().has_id(#[trigger] ids@[j]@) && self.meta(ids@[j]@) is None by {
                    if j < i {
                        assert(!before.index().has_id(ids@[j]@));
                    }
                }
            }
            i = i + 1;
        }
        proof {
            assert(id_seq(ids@).take(ids@.len() as int) =~= id_seq(ids@));
            let o = node_ids(g0.index()).to_set();
            let f = node_ids(self.index()).to_set();
            let st = id_seq(ids@).to_set();
            lemma_id_set(g0.index());
            lemma_id_set(self.index());
            assert(f =~= o.difference(st)) by {
                assert forall|k: Seq<char>| f.contains(k) <==> o.difference(st).contains(k) by {
                    if st.contains(k) {
                        let i = choose|i: int| 0 <= i < id_seq(ids@).len() && id_seq(ids@)[i] == k;
                        assert(!self.index().has_id(ids@[i]@));
                    } else {
                        assert(!id_seq(ids@).contains(k));
                        assert(!id_seq(ids@).take(ids@.len() as int).contains(k));
                    }
                }
            }
            lemma_set_difference_len(o, st);
            assert forall|k: Seq<char>| !id_seq(ids@).contains(k) implies #[trigger] self.meta(k) == g0.meta(k)
                && (self.index().has_id(k) <==> g0.index().has_id(k)) by {
                assert(!id_seq(ids@).take(ids@.len() as int).contains(k));
                assert(i == ids@.len());
                assert(self.index().has_id(k) <==> g0.index().has_id(k));
                assert(self.meta(k) == g0.meta(k));
            }
        }
        count
    }

    /// The number of stored vectors.
    pub fn size(&self) -> (r: usize)
        ensures
            r == self.index().nodes.len(),
    {
        self.hnsw_index.node_count()
    }

    /// Everything a persisted document holds: the format version, the index
    /// in plain-value form, and the metadata table.
    pub fn to_state(&self) -> (r: DbState)
        requires
            self.wf(),
        ensures
            r.version == FORMAT_VERSION,
            written(self.index(), &r.index),
            parts_valid(&r.index),
            keys_unique(r.metadata@),
            forall|k: Seq<char>| #[trigger] meta_for(r.metadata@, k) == self.meta(k),
    {
        let metadata = copy_table(&self.metadata);
        proof {
            lemma_same_table(self.metadata@, metadata@);
        }
        let index = self.hnsw_index.to_parts();
        proof {
            lemma_round_trip(self.hnsw_index@, &index, self.hnsw_index@);
        }
        DbState { version: FORMAT_VERSION, index, metadata }
    }

    /// Restores a database from a persisted document. Fails on a version
    /// other than [`FORMAT_VERSION`], and on parts that do not describe a
    /// well-formed index or a metadata table with a key twice.
    pub fn from_state(state: DbState) -> (r: Result<VectorDB, DbError>)
        ensures
            state.version != FORMAT_VERSION ==> r == Err::<VectorDB, DbError>(DbError::VersionUnsupported(state.version)),
            state.version == FORMAT_VERSION && !(parts_valid(&state.index) && keys_unique(state.metadata@)) ==> r
                == Err::<VectorDB, DbError>(DbError::Serialization),
            state.version == FORMAT_VERSION && parts_valid(&state.index) && keys_unique(state.metadata@) ==> (r matches Ok(
                db,
            ) && db.wf() && written(db.index(), &state.index) && forall|k: Seq<char>| #[trigger] db.meta(k) == meta_for(
                state.metadata@,
                k,
            )),
    {
        if state.version != FORMAT_VERSION {
            return Err(DbError::VersionUnsupported(state.version));
        }
        let index = match HNSWIndex::from_parts(&state.index) {
            Some(g) => g,
            None => return Err(DbError::Serialization),
        };
        let mut keys: Vec<String> = Vec::new();
        let mut i: usize = 0;
        while i < state.metadata.len()
            invariant
                i <= state.metadata@.len(),
                keys@.len() == i,
                forall|j: int| 0 <= j < i ==> (#[trigger] keys@[j])@ == state.metadata@[j].0@,
            decreases state.metadata@.len() - i,
        {
            keys.push(state.metadata[i].0.clone());
            i = i + 1;
        }
        let meta_ids = match IdTable::build(&keys) {
            Ok(t) => t,
            Err(_) => {
                proof {
                    assert(!keys_unique(state.metadata@)) by {
                        if keys_unique(state.metadata@) {
                            assert forall|a: int, b: int| 0 <= a < keys@.len() && 0 <= b < keys@.len() && a != b implies
                                #[trigger] id_seq(keys@)[a] != #[trigger] id_seq(keys@)[b] by {
                                assert(state.metadata@[a].0@ != state.metadata@[b].0@);
                            }
                        }
                    }
                }
                return Err(DbError::Serialization);
            },
        };
        proof {
            assert forall|a: int, b: int| 0 <= a < state.metadata@.len() && 0 <= b < state.metadata@.len() && a != b implies
                (#[trigger] state.metadata@[a]).0@ != (#[trigger] state.metadata@[b]).0@ by {
                assert(id_seq(keys@)[a] != id_seq(keys@)[b]);
            }
        }
        let DbState { version: _, index: _, metadata } = state;
        proof {
            assert(id_seq(keys@) =~= meta_keys(metadata@));
        }
        Ok(VectorDB { hnsw_index: index, metadata, meta_ids })
    }
}

} // verus!
