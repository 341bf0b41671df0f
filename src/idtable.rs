//! A hash index from node IDs to their positions in a list of IDs.

use vstd::prelude::*;
use vstd::utf8::encode_utf8;

verus! {

/// Modulus of the ID hash: the largest prime below 2^32.
pub const HASH_MOD: u64 = 4294967291;

/// Polynomial hash of a byte string.
pub open spec fn hash_bytes(b: Seq<u8>) -> nat
    decreases b.len(),
{
    if b.len() == 0 {
        0
    } else {
        ((hash_bytes(b.drop_last()) * 31 + b.last() as nat) % (HASH_MOD as nat)) as nat
    }
}

/// Hash of an ID: the hash of its UTF-8 encoding.
pub open spec fn id_hash(id: Seq<char>) -> nat {
    hash_bytes(encode_utf8(id))
}

/// Computes [`id_hash`].
pub fn hash_id(id: &str) -> (r: u64)
    ensures
        r as nat == id_hash(id@),
{
    let b = id.as_bytes();
    let mut h: u64 = 0;
    let mut i: usize = 0;
    while i < b.len()
        invariant
            i <= b@.len(),
            b@ == encode_utf8(id@),
            h < HASH_MOD,
            h as nat == hash_bytes(b@.take(i as int)),
        decreases b@.len() - i,
    {
        assert(b@.take(i + 1).drop_last() =~= b@.take(i as int));
        h = (h * 31 + b[i] as u64) % HASH_MOD;
        i = i + 1;
    }
    assert(b@.take(b@.len() as int) =~= b@);
    h
}

/// The IDs of a list, as character sequences.
pub open spec fn id_seq(ids: Seq<String>) -> Seq<Seq<char>> {
    ids.map_values(|s: String| s@)
}

/// Whether no ID occurs twice.
pub open spec fn unique_ids(ids: Seq<Seq<char>>) -> bool {
    forall|i: int, j: int| 0 <= i < ids.len() && 0 <= j < ids.len() && i != j ==> #[trigger] ids[i] != #[trigger] ids[j]
}

/// Buckets of positions, each position in the bucket its ID hashes to.
pub struct IdTable {
    buckets: Vec<Vec<usize>>,
}

/// The bucket an ID falls in, among `nb` buckets.
pub open spec fn bucket_of(id: Seq<char>, nb: nat) -> int {
    (id_hash(id) % nb) as int
}

/// `list` without any occurrence of `x`.
fn without(list: &Vec<usize>, x: usize) -> (r: Vec<usize>)
    ensures
        r@.len() <= list@.len(),
        forall|y: usize| #[trigger] r@.contains(y) <==> list@.contains(y) && y != x,
        list@.no_duplicates() ==> r@.no_duplicates(),
{
    let mut r: Vec<usize> = Vec::new();
    let mut i: usize = 0;
    while i < list.len()
        invariant
            i <= list@.len(),
            r@.len() <= i,
            forall|y: usize| #[trigger] r@.contains(y) <==> list@.take(i as int).contains(y) && y != x,
            list@.no_duplicates() ==> r@.no_duplicates(),
        decreases list@.len() - i,
    {
        let y = list[i];
        let ghost r0 = r@;
        let ghost pre = list@.take(i as int);
        let ghost post = list@.take(i + 1);
        assert(post =~= pre.push(y));
        assert forall|z: usize| post.contains(z) <==> (pre.contains(z) || z == y) by {
            if post.contains(z) && z != y {
                let k = choose|k: int| 0 <= k < post.len() && post[k] == z;
                assert(pre[k] == z);
            }
            if pre.contains(z) {
                let k = choose|k: int| 0 <= k < pre.len() && pre[k] == z;
                assert(post[k] == z);
            }
            assert(post[i as int] == y);
        }
        if y != x {
            proof {
                if list@.no_duplicates() {
                    assert(!pre.contains(y)) by {
                        if pre.contains(y) {
                            let k = choose|k: int| 0 <= k < pre.len() && pre[k] == y;
                            assert(list@[k] == list@[i as int]);
                        }
                    }
                }
            }
            r.push(y);
            proof {
                assert(r@ == r0.push(y));
                assert forall|z: usize| #[trigger] r@.contains(z) <==> post.contains(z) && z != x by {
                    if r@.contains(z) && z != y {
                        let k = choose|k: int| 0 <= k < r@.len() && r@[k] == z;
                        assert(r0[k] == z);
                    }
                    if r0.contains(z) {
                        let k = choose|k: int| 0 <= k < r0.len() && r0[k] == z;
                        assert(r@[k] == z);
                    }
                    if z == y {
                        assert(r@[r0.len() as int] == y);
                    }
                }
                if list@.no_duplicates() {
                    assert forall|p: int, q: int| 0 <= p < q < r@.len() implies r@[p] != r@[q] by {
                        if q == r0.len() {
                            assert(r0.contains(r0[p]));
                        }
                    }
                }
            }
        }
        i = i + 1;
    }
    assert(list@.take(list@.len() as int) =~= list@);
    r
}

impl IdTable {
    /// The number of buckets.
    pub closed spec fn nb(&self) -> nat {
        self.buckets@.len()
    }

    /// Whether this table indexes exactly the positions of `ids`: every
    /// position is in the bucket of its ID, and a bucket holds only positions
    /// whose ID falls in it, each once.
    pub closed spec fn indexes(&self, ids: Seq<Seq<char>>) -> bool {
        let nb = self.buckets@.len();
        &&& nb > 0
        &&& forall|j: int| 0 <= j < ids.len() ==> self.buckets@[bucket_of(#[trigger] ids[j], nb)]@.contains(j as usize)
        &&& forall|b: int, k: int| 0 <= b < nb && 0 <= k < self.buckets@[b]@.len() ==> #[trigger] self.buckets@[b]@[k]
            < ids.len() && bucket_of(ids[self.buckets@[b]@[k] as int], nb) == b
        &&& forall|b: int| 0 <= b < nb ==> (#[trigger] self.buckets@[b])@.no_duplicates()
    }

    /// A table of `nb` buckets (at least one) indexing no IDs.
    pub fn empty(nb: usize) -> (r: IdTable)
        ensures
            r.indexes(Seq::<Seq<char>>::empty()),
    {
        let n = if nb == 0 { 1 } else { nb };
        let mut buckets: Vec<Vec<usize>> = Vec::new();
        let mut b: usize = 0;
        while b < n
            invariant
                b <= n,
                buckets@.len() == b,
                forall|c: int| 0 <= c < b ==> (#[trigger] buckets@[c])@.len() == 0,
            decreases n - b,
        {
            buckets.push(Vec::new());
            b = b + 1;
        }
        IdTable { buckets }
    }

    /// The number of buckets.
    pub fn bucket_count(&self) -> (r: usize)
        ensures
            r == self.nb(),
    {
        self.buckets.len()
    }

    /// The positions whose ID may be `id`: every position holding `id` is
    /// among them.
    pub(crate) fn candidates(&self, Ghost(ids): Ghost<Seq<Seq<char>>>, id: &str) -> (r: &Vec<usize>)
        requires
            self.indexes(ids),
        ensures
            forall|j: int| 0 <= j < ids.len() && ids[j] == id@ ==> r@.contains(j as usize),
            forall|k: int| 0 <= k < r@.len() ==> #[trigger] r@[k] < ids.len(),
    {
        let nb = self.buckets.len();
        let h = hash_id(id);
        let c = (h % (nb as u64)) as usize;
        proof {
            assert(c as int == bucket_of(id@, nb as nat));
            assert forall|k: int| 0 <= k < self.buckets@[c as int]@.len() implies #[trigger] self.buckets@[c as int]@[k] < ids.len() by {}
        }
        &self.buckets[c]
    }

    /// Adds position `ids.len()`, holding `id`.
    pub(crate) fn insert_pos(&mut self, Ghost(ids): Ghost<Seq<Seq<char>>>, id: &str, pos: usize)
        requires
            old(self).indexes(ids),
            pos == ids.len(),
        ensures
            final(self).indexes(ids.push(id@)),
            final(self).nb() == old(self).nb(),
    {
        let nb = self.buckets.len();
        let h = hash_id(id);
        let c = (h % (nb as u64)) as usize;
        let ghost before = self.buckets@;
        let ghost nids = ids.push(id@);
        assert(c as int == bucket_of(id@, nb as nat));
        let mut grown = Vec::new();
        let mut k: usize = 0;
        let src = &self.buckets[c];
        while k < src.len()
            invariant
                k <= src@.len(),
                grown@ == src@.take(k as int),
            decreases src@.len() - k,
        {
            grown.push(src[k]);
            k = k + 1;
        }
        assert(src@.take(src@.len() as int) =~= src@);
        grown.push(pos);
        self.buckets.set(c, grown);
        proof {
            let nbn = nb as nat;
            assert(!before[c as int]@.contains(pos)) by {
                if before[c as int]@.contains(pos) {
                    let k = choose|k: int| 0 <= k < before[c as int]@.len() && before[c as int]@[k] == pos;
                    assert(before[c as int]@[k] < ids.len());
                }
            }
            assert forall|j: int| 0 <= j < nids.len() implies self.buckets@[bucket_of(#[trigger] nids[j], nbn)]@.contains(j as usize) by {
                if j < ids.len() {
                    assert(nids[j] == ids[j]);
                    let cj = bucket_of(ids[j], nbn);
                    assert(before[cj]@.contains(j as usize));
                    let q = choose|q: int| 0 <= q < before[cj]@.len() && before[cj]@[q] == j as usize;
                    if cj == c {
                        assert(self.buckets@[cj]@[q] == j as usize);
                    }
                } else {
                    assert(self.buckets@[c as int]@[before[c as int]@.len() as int] == pos);
                }
            }
            assert forall|b: int, k: int| 0 <= b < nb && 0 <= k < self.buckets@[b]@.len() implies #[trigger] self.buckets@[b]@[k]
                < nids.len() && bucket_of(nids[self.buckets@[b]@[k] as int], nbn) == b by {
                if b == c && k == before[c as int]@.len() {
                } else {
                    assert(self.buckets@[b]@[k] == before[b]@[k]);
                    assert(before[b]@[k] < ids.len());
                    assert(nids[before[b]@[k] as int] == ids[before[b]@[k] as int]);
                }
            }
            assert forall|b: int| 0 <= b < nb implies (#[trigger] self.buckets@[b])@.no_duplicates() by {
                if b == c {
                    assert(before[b]@.no_duplicates());
                    assert forall|p: int, q: int| 0 <= p < q < self.buckets@[b]@.len() implies self.buckets@[b]@[p] != self.buckets@[b]@[q] by {
                        if q == before[b]@.len() {
                            assert(before[b]@[p] < ids.len());
                        }
                    }
                }
            }
        }
    }

    /// Removes position `d`, moving the last position into it: the table then
    /// indexes `ids` with entry `d` replaced by the last and the last dropped.
    pub(crate) fn remove_pos(&mut self, Ghost(ids): Ghost<Seq<Seq<char>>>, d: usize, last: usize, id_d: &str, id_last: &str)
        requires
            old(self).indexes(ids),
            d < ids.len(),
            last == ids.len() - 1,
            ids[d as int] == id_d@,
            ids.last() == id_last@,
        ensures
            final(self).indexes(ids.update(d as int, ids.last()).drop_last()),
            final(self).nb() == old(self).nb(),
    {
        let ghost t0 = self.buckets@;
        let nb = self.buckets.len();
        let ghost nbn = nb as nat;
        let cl = (hash_id(id_last) % (nb as u64)) as usize;
        let cd = (hash_id(id_d) % (nb as u64)) as usize;
        assert(cl as int == bucket_of(ids.last(), nbn));
        assert(cd as int == bucket_of(ids[d as int], nbn));
        let ghost nids = ids.update(d as int, ids.last()).drop_last();
        let a = without(&self.buckets[cl], last);
        self.buckets.set(cl, a);
        let ghost t1 = self.buckets@;
        if d != last {
            let b = without(&self.buckets[cd], d);
            self.buckets.set(cd, b);
            let ghost t2 = self.buckets@;
            let mut c = Vec::new();
            let mut k: usize = 0;
            let src = &self.buckets[cl];
            while k < src.len()
                invariant
                    k <= src@.len(),
                    c@ == src@.take(k as int),
                decreases src@.len() - k,
            {
                c.push(src[k]);
                k = k + 1;
            }
            assert(src@.take(src@.len() as int) =~= src@);
            c.push(d);
            self.buckets.set(cl, c);
            proof {
                let t3 = self.buckets@;
                assert forall|x: usize, bb: int| 0 <= bb < nb && #[trigger] t3[bb]@.contains(x) implies (t0[bb]@.contains(x) && x != last
                    && x != d) || (x == d && bb == cl) by {
                    if bb == cl && x == d {
                    } else if bb == cl {
                        let k = choose|k: int| 0 <= k < t3[bb]@.len() && t3[bb]@[k] == x;
                        assert(t2[bb]@[k] == x);
                        assert(t2[bb]@.contains(x));
                        if cd == cl {
                            assert(t1[bb]@.contains(x));
                        }
                        assert(t1[bb]@.contains(x));
                    } else if bb == cd {
                        assert(t2[bb]@.contains(x));
                        assert(t1[bb]@.contains(x));
                        assert(t0[bb]@.contains(x));
                        if x == last {
                            let k = choose|k: int| 0 <= k < t0[bb]@.len() && t0[bb]@[k] == x;
                            assert(bucket_of(ids[t0[bb]@[k] as int], nbn) == bb);
                        }
                    } else {
                        assert(t3[bb] == t0[bb]);
                        let k = choose|k: int| 0 <= k < t0[bb]@.len() && t0[bb]@[k] == x;
                        assert(bucket_of(ids[t0[bb]@[k] as int], nbn) == bb);
                    }
                }
                assert forall|j: int| 0 <= j < nids.len() implies t3[bucket_of(#[trigger] nids[j], nbn)]@.contains(j as usize) by {
                    if j == d {
                        assert(t3[cl as int]@[t2[cl as int]@.len() as int] == d);
                    } else {
                        assert(nids[j] == ids[j]);
                        let bj = bucket_of(ids[j], nbn);
                        assert(t0[bj]@.contains(j as usize));
                        if bj == cl || bj == cd {
                            if bj == cl {
                                assert(t1[bj]@.contains(j as usize));
                                if cd == cl {
                                    assert(t2[bj]@.contains(j as usize));
                                } else {
                                    assert(t2[bj] == t1[bj]);
                                }
                                let k = choose|k: int| 0 <= k < t2[bj]@.len() && t2[bj]@[k] == j as usize;
                                assert(t3[bj]@[k] == j as usize);
                            } else {
                                assert(t1[bj] == t0[bj]);
                                assert(t2[bj]@.contains(j as usize));
                                assert(t3[bj] == t2[bj]);
                            }
                        } else {
                            assert(t3[bj] == t0[bj]);
                        }
                    }
                }
                assert forall|bb: int, k: int| 0 <= bb < nb && 0 <= k < t3[bb]@.len() implies #[trigger] t3[bb]@[k]
                    < nids.len() && bucket_of(nids[t3[bb]@[k] as int], nbn) == bb by {
                    let x = t3[bb]@[k];
                    assert(t3[bb]@.contains(x));
                    if x == d && bb == cl {
                    } else {
                        let q = choose|q: int| 0 <= q < t0[bb]@.len() && t0[bb]@[q] == x;
                        assert(bucket_of(ids[t0[bb]@[q] as int], nbn) == bb);
                        assert(t0[bb]@[q] < ids.len());
                    }
                }
                assert forall|bb: int| 0 <= bb < nb implies (#[trigger] t3[bb])@.no_duplicates() by {
                    assert(t0[bb]@.no_duplicates());
                    if bb == cl {
                        assert(t2[bb]@.no_duplicates()) by {
                            assert(t1[bb]@.no_duplicates());
                        }
                        assert(!t2[bb]@.contains(d)) by {
                            if t2[bb]@.contains(d) {
                                if cd == cl {
                                } else {
                                    assert(t1[bb]@.contains(d));
                                    assert(t0[bb]@.contains(d));
                                    let q = choose|q: int| 0 <= q < t0[bb]@.len() && t0[bb]@[q] == d;
                                    assert(bucket_of(ids[t0[bb]@[q] as int], nbn) == bb);
                                }
                            }
                        }
                        assert forall|p: int, q: int| 0 <= p < q < t3[bb]@.len() implies t3[bb]@[p] != t3[bb]@[q] by {
                            if q == t2[bb]@.len() {
                                assert(t2[bb]@.contains(t2[bb]@[p]));
                            }
                        }
                    } else if bb == cd {
                        assert(t1[bb]@.no_duplicates());
                    }
                }
            }
        } else {
            proof {
                assert(nids =~= ids.drop_last());
                assert forall|j: int| 0 <= j < nids.len() implies t1[bucket_of(#[trigger] nids[j], nbn)]@.contains(j as usize) by {
                    let bj = bucket_of(ids[j], nbn);
                    assert(t0[bj]@.contains(j as usize));
                    if bj == cl {
                        assert(t1[bj]@.contains(j as usize));
                    } else {
                        assert(t1[bj] == t0[bj]);
                    }
                }
                assert forall|bb: int, k: int| 0 <= bb < nb && 0 <= k < t1[bb]@.len() implies #[trigger] t1[bb]@[k]
                    < nids.len() && bucket_of(nids[t1[bb]@[k] as int], nbn) == bb by {
                    let x = t1[bb]@[k];
                    assert(t1[bb]@.contains(x));
                    assert(t0[bb]@.contains(x));
                    let q = choose|q: int| 0 <= q < t0[bb]@.len() && t0[bb]@[q] == x;
                    assert(bucket_of(ids[t0[bb]@[q] as int], nbn) == bb);
                    assert(t0[bb]@[q] < ids.len());
                    if x == last {
                        assert(bb == cl);
                    }
                }
                assert forall|bb: int| 0 <= bb < nb implies (#[trigger] t1[bb])@.no_duplicates() by {
                    assert(t0[bb]@.no_duplicates());
                }
            }
        }
    }

    /// Indexes a list of IDs; fails with a position whose ID occurs at an
    /// earlier position too.
    pub fn build(ids: &Vec<String>) -> (r: Result<IdTable, usize>)
        ensures
            r matches Ok(t) ==> t.indexes(id_seq(ids@)) && unique_ids(id_seq(ids@)),
            r matches Err(i) ==> i < ids@.len() && exists|j: int| 0 <= j < i && ids@[j]@ == ids@[i as int]@,
            r is Err <==> !unique_ids(id_seq(ids@)),
    {
        let ghost names = id_seq(ids@);
        let mut t = IdTable::empty(ids.len());
        let mut i: usize = 0;
        assert(names.take(0) =~= Seq::<Seq<char>>::empty());
        while i < ids.len()
            invariant
                names == id_seq(ids@),
                i <= ids@.len(),
                t.indexes(names.take(i as int)),
                unique_ids(names.take(i as int)),
            decreases ids@.len() - i,
        {
            let cands = t.candidates(Ghost(names.take(i as int)), ids[i].as_str());
            let mut k: usize = 0;
            while k < cands.len()
                invariant
                    k <= cands@.len(),
                    forall|q: int| 0 <= q < cands@.len() ==> #[trigger] cands@[q] < i,
                    forall|q: int| 0 <= q < k ==> names[cands@[q] as int] != names[i as int],
                    names == id_seq(ids@),
                    i < ids@.len(),
                decreases cands@.len() - k,
            {
                let j = cands[k];
                if ids[j] == ids[i] {
                    proof {
                        assert(names[j as int] == ids@[j as int]@);
                        assert(names[i as int] == ids@[i as int]@);
                    }
                    return Err(i);
                }
                k = k + 1;
            }
            proof {
                assert forall|a: int, bb: int| 0 <= a < i + 1 && 0 <= bb < i + 1 && a != bb implies
                    #[trigger] names.take(i + 1)[a] != #[trigger] names.take(i + 1)[bb] by {
                    if a == i || bb == i {
                        let other = if a == i { bb } else { a };
                        if names[other] == names[i as int] {
                            assert(names.take(i as int)[other] == ids@[i as int]@);
                            assert(cands@.contains(other as usize));
                            let q = choose|q: int| 0 <= q < cands@.len() && cands@[q] == other as usize;
                        }
                    } else {
                        assert(names.take(i as int)[a] != names.take(i as int)[bb]);
                    }
                }
                assert(names.take(i as int).push(ids@[i as int]@) =~= names.take(i + 1));
            }
            t.insert_pos(Ghost(names.take(i as int)), ids[i].as_str(), i);
            i = i + 1;
        }
        assert(names.take(ids@.len() as int) =~= names);
        Ok(t)
    }

    /// Position of the ID in the list this table indexes.
    pub fn lookup(&self, ids: &Vec<String>, id: &str) -> (r: Option<usize>)
        requires
            self.indexes(id_seq(ids@)),
        ensures
            r matches Some(j) ==> j < ids@.len() && ids@[j as int]@ == id@,
            r is None ==> forall|j: int| 0 <= j < ids@.len() ==> (#[trigger] ids@[j])@ != id@,
    {
        let ghost names = id_seq(ids@);
        let cands = self.candidates(Ghost(names), id);
        let key = id.to_owned();
        let mut k: usize = 0;
        while k < cands.len()
            invariant
                k <= cands@.len(),
                forall|q: int| 0 <= q < cands@.len() ==> #[trigger] cands@[q] < ids@.len(),
                key@ == id@,
                names == id_seq(ids@),
                forall|q: int| 0 <= q < k ==> names[cands@[q] as int] != id@,
            decreases cands@.len() - k,
        {
            let j = cands[k];
            if ids[j] == key {
                return Some(j);
            }
            k = k + 1;
        }
        proof {
            assert forall|j: int| 0 <= j < ids@.len() implies (#[trigger] ids@[j])@ != id@ by {
                if ids@[j]@ == id@ {
                    assert(ids.len() == ids@.len());
                    assert(names[j] == id@);
                    assert(cands@.contains(j as usize));
                    let q = choose|q: int| 0 <= q < cands@.len() && cands@[q] == j as usize;
                    assert(names[cands@[q] as int] != id@);
                }
            }
        }
        None
    }
}

} // verus!
