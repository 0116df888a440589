//! The store of image embeddings, and the choice of the search hits to show.
//!
//! An embedding is kept as the IEEE-754 bit patterns of its `f32`
//! components: the store only carries them, and the similarity scores are
//! computed by the caller.
use vstd::prelude::*;

use super::metadata::ImageMetadata;

verus! {

/// A stored embedding and the id of its image.
pub struct VectorEntry {
    pub id: usize,
    /// The bit patterns of the embedding's `f32` components.
    pub embedding: Vec<u32>,
}

/// The stored embeddings, in insertion order, and the next free image id.
pub struct VectorStore {
    entries: Vec<VectorEntry>,
    next_id: usize,
}

/// The ids of `entries`, in order.
pub open spec fn entry_ids(entries: Seq<VectorEntry>) -> Seq<usize> {
    entries.map_values(|e: VectorEntry| e.id)
}

/// The embeddings of `entries`, in order.
pub open spec fn entry_embeddings(entries: Seq<VectorEntry>) -> Seq<Seq<u32>> {
    entries.map_values(|e: VectorEntry| e.embedding@)
}

impl VectorStore {
    /// The ids of the stored embeddings, in insertion order.
    pub closed spec fn ids(&self) -> Seq<usize> {
        entry_ids(self.entries@)
    }

    /// The stored embeddings, in insertion order.
    pub closed spec fn embeddings(&self) -> Seq<Seq<u32>> {
        entry_embeddings(self.entries@)
    }

    /// The next free image id.
    pub closed spec fn spec_next_id(&self) -> usize {
        self.next_id
    }

    /// Every stored id is below the next free id.
    pub open spec fn wf(&self) -> bool {
        forall|i: int| 0 <= i < self.ids().len() ==> #[trigger] self.ids()[i] < self.spec_next_id()
    }

    /// An empty store.
    pub fn new() -> (s: Self)
        ensures
            s.wf(),
            s.ids() == Seq::<usize>::empty(),
            s.embeddings() == Seq::<Seq<u32>>::empty(),
            s.spec_next_id() == 0,
    {
        let s = VectorStore { entries: Vec::new(), next_id: 0 };
        assert(s.ids() =~= Seq::<usize>::empty());
        assert(s.embeddings() =~= Seq::<Seq<u32>>::empty());
        s
    }

    /// A store with the given entries and next free id, as they were saved.
    pub fn from_parts(entries: Vec<VectorEntry>, next_id: usize) -> (s: Self)
        ensures
            s.ids() == entry_ids(entries@),
            s.embeddings() == entry_embeddings(entries@),
            s.spec_next_id() == next_id,
    {
        VectorStore { entries, next_id }
    }

    /// The stored entries and the next free id.
    pub fn into_parts(self) -> (r: (Vec<VectorEntry>, usize))
        ensures
            entry_ids(r.0@) == self.ids(),
            entry_embeddings(r.0@) == self.embeddings(),
            r.1 == self.spec_next_id(),
    {
        (self.entries, self.next_id)
    }

    /// A copy of this store.
    pub fn snapshot(&self) -> (r: Self)
        ensures
            r.ids() == self.ids(),
            r.embeddings() == self.embeddings(),
            r.spec_next_id() == self.spec_next_id(),
    {
        let n = self.entries.len();
        let mut entries: Vec<VectorEntry> = Vec::new();
        let mut i: usize = 0;
        while i < n
            invariant
                0 <= i <= n,
                n == self.entries@.len(),
                entries@.len() == i,
                forall|j: int|
                    0 <= j < i ==> (#[trigger] entries@[j]).id == self.entries@[j].id
                        && entries@[j].embedding@ == self.entries@[j].embedding@,
            decreases n - i,
        {
            let e = &self.entries[i];
            entries.push(VectorEntry { id: e.id, embedding: e.embedding.clone() });
            i = i + 1;
        }
        assert(entry_ids(entries@) =~= self.ids());
        assert(entry_embeddings(entries@) =~= self.embeddings());
        VectorStore { entries, next_id: self.next_id }
    }

    /// Stores `embedding` for image `id`, and moves the next free id past
    /// `id`.
    pub fn insert(&mut self, id: usize, embedding: Vec<u32>)
        requires
            id < usize::MAX,
        ensures
            final(self).ids() == old(self).ids().push(id),
            final(self).embeddings() == old(self).embeddings().push(embedding@),
            final(self).spec_next_id() == if id >= old(self).spec_next_id() {
                (id + 1) as usize
            } else {
                old(self).spec_next_id()
            },
            old(self).wf() ==> final(self).wf(),
    {
        let ghost e = embedding@;
        self.entries.push(VectorEntry { id, embedding });
        if id >= self.next_id {
            self.next_id = id + 1;
        }
        assert(self.ids() =~= old(self).ids().push(id));
        assert(self.embeddings() =~= old(self).embeddings().push(e));
    }

    /// The next free image id.
    pub fn next_id(&self) -> (r: usize)
        ensures
            r == self.spec_next_id(),
    {
        self.next_id
    }

    /// The stored entries, in insertion order.
    pub fn entries(&self) -> (r: &Vec<VectorEntry>)
        ensures
            entry_ids(r@) == self.ids(),
            entry_embeddings(r@) == self.embeddings(),
    {
        &self.entries
    }

    /// The number of stored embeddings.
    pub fn len(&self) -> (r: usize)
        ensures
            r == self.ids().len(),
    {
        self.entries.len()
    }

    /// Whether no embedding is stored.
    pub fn is_empty(&self) -> (r: bool)
        ensures
            r == (self.ids().len() == 0),
    {
        self.entries.len() == 0
    }

    /// Removes every embedding and resets the next free id.
    pub fn clear(&mut self)
        ensures
            final(self).wf(),
            final(self).ids() == Seq::<usize>::empty(),
            final(self).embeddings() == Seq::<Seq<u32>>::empty(),
            final(self).spec_next_id() == 0,
    {
        self.entries.clear();
        self.next_id = 0;
        assert(self.ids() =~= Seq::<usize>::empty());
        assert(self.embeddings() =~= Seq::<Seq<u32>>::empty());
    }
}

impl Default for VectorStore {
    fn default() -> (s: Self)
        ensures
            s.wf(),
            s.ids() == Seq::<usize>::empty(),
            s.embeddings() == Seq::<Seq<u32>>::empty(),
            s.spec_next_id() == 0,
    {
        Self::new()
    }
}

/// The `f32` bit pattern `b` is a NaN: all exponent bits set and a nonzero
/// fraction.
pub open spec fn is_nan_bits(b: u32) -> bool {
    (b & 0x7f80_0000) == 0x7f80_0000 && (b & 0x007f_ffff) != 0
}

/// The place of the `f32` with bit pattern `b` in the order of floats: its
/// magnitude bits, negated when the sign bit is set. IEEE 754 orders the
/// floats that are not NaN as these integers, with `-0.0` and `0.0` both 0.
pub open spec fn float_rank(b: u32) -> int {
    let m = (b & 0x7fff_ffff) as int;
    if b & 0x8000_0000 != 0 {
        -m
    } else {
        m
    }
}

/// The score key of the `f32` with bit pattern `b`: a NaN gets 0, and the
/// other floats keep their order, above it.
pub open spec fn order_key_of(b: u32) -> int {
    if is_nan_bits(b) {
        0
    } else {
        0x8000_0000 + float_rank(b)
    }
}

/// The score key of a similarity given by its `f32` bit pattern: a larger
/// similarity gets a larger key, equal similarities (`-0.0` and `0.0` among
/// them) get equal keys, and a NaN, which orders with nothing, ranks last.
pub fn order_key(bits: u32) -> (r: u32)
    ensures
        r == order_key_of(bits),
{
    if (bits & 0x7f80_0000) == 0x7f80_0000 && (bits & 0x007f_ffff) != 0 {
        return 0;
    }
    let m = bits & 0x7fff_ffff;
    assert(m <= 0x7f80_0000) by (bit_vector)
        requires
            m == bits & 0x7fff_ffff,
            !((bits & 0x7f80_0000) == 0x7f80_0000 && (bits & 0x007f_ffff) != 0),
    ;
    if bits & 0x8000_0000 != 0 {
        0x8000_0000 - m
    } else {
        0x8000_0000 + m
    }
}

/// Score keys keep the order of the floats that are not NaN, give equal
/// floats equal keys, and put a NaN below every other float.
pub proof fn lemma_order_key_monotone(a: u32, b: u32)
    ensures
        !is_nan_bits(a) && !is_nan_bits(b) ==> (order_key_of(a) < order_key_of(b) <==> float_rank(
            a,
        ) < float_rank(b)),
        !is_nan_bits(a) && !is_nan_bits(b) ==> (order_key_of(a) == order_key_of(b) <==> float_rank(
            a,
        ) == float_rank(b)),
        is_nan_bits(a) && !is_nan_bits(b) ==> order_key_of(a) < order_key_of(b),
{
    assert(!is_nan_bits(b) ==> (b & 0x7fff_ffff) <= 0x7f80_0000) by (bit_vector);
}

/// Entry `a` ranks before entry `b`: its score is higher, or the scores are
/// equal and `a` was stored first.
pub open spec fn ranks_before(scores: Seq<u32>, a: int, b: int) -> bool {
    scores[a] > scores[b] || (scores[a] == scores[b] && a < b)
}

/// `top` holds, best first, the entries among `0..bound` that rank before
/// every other entry among `0..bound`.
pub open spec fn is_top(scores: Seq<u32>, bound: int, top: Seq<usize>) -> bool {
    &&& forall|i: int| 0 <= i < top.len() ==> #[trigger] top[i] < bound
    &&& forall|i: int, j: int|
        0 <= i < j < top.len() ==> ranks_before(scores, #[trigger] top[i] as int, #[trigger] top[j] as int)
    &&& forall|x: int, i: int|
        0 <= x < bound && (forall|t: int| 0 <= t < top.len() ==> top[t] != x) && 0 <= i < top.len()
            ==> #[trigger] ranks_before(scores, top[i] as int, x)
}

pub open spec fn min(a: int, b: int) -> int {
    if a < b {
        a
    } else {
        b
    }
}

proof fn lemma_ranks_transitive(scores: Seq<u32>, a: int, b: int, c: int)
    requires
        ranks_before(scores, a, b),
        ranks_before(scores, b, c),
    ensures
        ranks_before(scores, a, c),
{
}

/// Adding entry `x` to the top of the entries before it, at the first
/// position whose entry scores below `x`, gives the top of the entries up to
/// `x`.
proof fn lemma_top_insert(scores: Seq<u32>, x: int, top: Seq<usize>, p: int, k: int)
    requires
        0 <= x < scores.len(),
        x <= usize::MAX,
        k >= 0,
        is_top(scores, x, top),
        top.len() == min(k, x),
        0 <= p <= top.len(),
        forall|q: int| 0 <= q < p ==> scores[#[trigger] top[q] as int] >= scores[x],
        p < top.len() ==> scores[top[p] as int] < scores[x],
    ensures
        p < k ==> {
            let t = top.insert(p, x as usize);
            let t2 = if t.len() > k {
                t.drop_last()
            } else {
                t
            };
            &&& is_top(scores, x + 1, t2)
            &&& t2.len() == min(k, x + 1)
        },
        p >= k ==> is_top(scores, x + 1, top) && top.len() == min(k, x + 1),
{
    // Scores do not increase along `top`.
    assert forall|a: int, b: int| 0 <= a < b < top.len() implies scores[#[trigger] top[a] as int]
        >= scores[#[trigger] top[b] as int] by {
        assert(ranks_before(scores, top[a] as int, top[b] as int));
    }
    // `x` ranks after the entries before `p` and before the others.
    assert forall|q: int| 0 <= q < top.len() implies (q < p ==> ranks_before(
        scores,
        #[trigger] top[q] as int,
        x,
    )) && (q >= p ==> ranks_before(scores, x, top[q] as int)) by {
        if q >= p {
            assert(scores[top[q] as int] <= scores[top[p] as int]);
        }
    }
    if p < k {
        let t = top.insert(p, x as usize);
        assert forall|i: int, j: int| 0 <= i < j < t.len() implies ranks_before(
            scores,
            #[trigger] t[i] as int,
            #[trigger] t[j] as int,
        ) by {
            if i < p && j < p {
                assert(t[i] == top[i] && t[j] == top[j]);
            } else if i < p && j == p {
                assert(t[i] == top[i]);
            } else if i < p {
                assert(t[i] == top[i] && t[j] == top[j - 1]);
            } else if i == p {
                assert(t[j] == top[j - 1]);
            } else {
                assert(t[i] == top[i - 1] && t[j] == top[j - 1]);
            }
        }
        assert forall|i: int| 0 <= i < t.len() implies #[trigger] t[i] < x + 1 by {
            if i < p {
                assert(t[i] == top[i]);
            } else if i > p {
                assert(t[i] == top[i - 1]);
            }
        }
        if t.len() > k {
            // `top` was full: its last entry leaves.
            let t2 = t.drop_last();
            let y = t[t.len() - 1];
            assert(top.len() == k);
            assert forall|i: int, j: int| 0 <= i < j < t2.len() implies ranks_before(
                scores,
                #[trigger] t2[i] as int,
                #[trigger] t2[j] as int,
            ) by {
                assert(t2[i] == t[i] && t2[j] == t[j]);
            }
            assert forall|z: int, i: int|
                0 <= z < x + 1 && (forall|u: int| 0 <= u < t2.len() ==> t2[u] != z) && 0 <= i
                    < t2.len() implies #[trigger] ranks_before(scores, t2[i] as int, z) by {
                assert(t2[i] == t[i]);
                if z == y {
                    assert(ranks_before(scores, t[i] as int, t[t.len() - 1] as int));
                } else {
                    assert(z != x) by {
                        if z == x {
                            assert(t2[p] == x);
                        }
                    }
                    // `z` was outside the old top, so it ranks after `y`.
                    assert forall|u: int| 0 <= u < top.len() implies top[u] != z by {
                        if u < p {
                            assert(t2[u] == top[u]);
                        } else if u + 1 < t.len() - 1 {
                            assert(t2[u + 1] == top[u]);
                        } else {
                            assert(top[u] == y);
                        }
                    }
                    assert(ranks_before(scores, top[top.len() - 1] as int, z));
                    assert(y == top[top.len() - 1]);
                    lemma_ranks_transitive(scores, t[i] as int, y as int, z);
                }
            }
            assert forall|i: int| 0 <= i < t2.len() implies #[trigger] t2[i] < x + 1 by {
                assert(t2[i] == t[i]);
            }
        } else {
            assert(top.len() == x) by {
                if top.len() == k {
                    assert(t.len() == k + 1);
                }
            }
            assert forall|z: int, i: int|
                0 <= z < x + 1 && (forall|u: int| 0 <= u < t.len() ==> t[u] != z) && 0 <= i
                    < t.len() implies #[trigger] ranks_before(scores, t[i] as int, z) by {
                // every entry before `x` is in `top`
                if z < x {
                    assert forall|u: int| 0 <= u < top.len() implies top[u] != z by {
                        if u < p {
                            assert(t[u] == top[u]);
                        } else {
                            assert(t[u + 1] == top[u]);
                        }
                    }
                    lemma_top_has_all(scores, x, top, z);
                }
                assert(t[p] == x);
            }
        }
    } else {
        assert(p == top.len());
        assert(top.len() == k);
        assert forall|z: int, i: int|
            0 <= z < x + 1 && (forall|u: int| 0 <= u < top.len() ==> top[u] != z) && 0 <= i
                < top.len() implies #[trigger] ranks_before(scores, top[i] as int, z) by {
        }
        assert forall|i: int| 0 <= i < top.len() implies #[trigger] top[i] < x + 1 by {
        }
    }
}

/// A top of `x` entries among `0..x` holds all of them.
proof fn lemma_top_has_all(scores: Seq<u32>, x: int, top: Seq<usize>, z: int)
    requires
        is_top(scores, x, top),
        top.len() == x,
        0 <= z < x,
    ensures
        exists|u: int| 0 <= u < top.len() && top[u] == z,
{
    let m = top.map_values(|v: usize| v as int);
    assert forall|a: int, b: int| 0 <= a < m.len() && 0 <= b < m.len() && a != b implies #[trigger] m[a]
        != #[trigger] m[b] by {
        if a < b {
            assert(ranks_before(scores, top[a] as int, top[b] as int));
        } else {
            assert(ranks_before(scores, top[b] as int, top[a] as int));
        }
    }
    assert(m.no_duplicates());
    m.unique_seq_to_set();
    let s = m.to_set();
    let full = vstd::set_lib::set_int_range(0, x);
    assert(s.subset_of(full)) by {
        assert forall|v: int| s.contains(v) implies full.contains(v) by {
            let u = choose|u: int| 0 <= u < m.len() && #[trigger] m[u] == v;
            assert(top[u] < x);
        }
    }
    vstd::set_lib::lemma_int_range(0, x);
    if !s.contains(z) {
        assert(full.contains(z));
        assert(s.subset_of(full.remove(z)));
        vstd::set_lib::lemma_len_subset(s, full.remove(z));
        assert(s.len() <= x - 1);
    } else {
        let u = choose|u: int| 0 <= u < m.len() && #[trigger] m[u] == z;
        assert(top[u] == z);
    }
}

proof fn lemma_top_prefix(scores: Seq<u32>, bound: int, t1: Seq<usize>, t2: Seq<usize>, i: int)
    requires
        0 <= bound <= scores.len(),
        is_top(scores, bound, t1),
        is_top(scores, bound, t2),
        t1.len() == t2.len(),
        0 <= i <= t1.len(),
    ensures
        forall|j: int| 0 <= j < i ==> t1[j] == t2[j],
    decreases i,
{
    if i > 0 {
        lemma_top_prefix(scores, bound, t1, t2, i - 1);
        let n = t1.len();
        let i = i - 1;
        let a = t1[i];
        let b = t2[i];
        if a != b {
            // Where `b` stands in `t1`, and `a` in `t2`, each ranks before the other.
            if exists|j: int| 0 <= j < n && t1[j] == b {
                let j = choose|j: int| 0 <= j < n && t1[j] == b;
                if j < i {
                    assert(t2[j] == b);
                    assert(ranks_before(scores, t2[j] as int, t2[i] as int));
                }
                assert(j > i);
                assert(ranks_before(scores, t1[i] as int, t1[j] as int));
            } else {
                assert(ranks_before(scores, t1[i] as int, b as int));
            }
            assert(ranks_before(scores, a as int, b as int));
            if exists|k: int| 0 <= k < n && t2[k] == a {
                let k = choose|k: int| 0 <= k < n && t2[k] == a;
                if k < i {
                    assert(t1[k] == a);
                    assert(ranks_before(scores, t1[k] as int, t1[i] as int));
                }
                assert(k > i);
                assert(ranks_before(scores, t2[i] as int, t2[k] as int));
            } else {
                assert(ranks_before(scores, t2[i] as int, a as int));
            }
            assert(false);
        }
    }
}

/// The best entries are determined by the scores: two lists of the same
/// length that both hold them, best first, are the same list.
pub proof fn lemma_top_unique(scores: Seq<u32>, bound: int, t1: Seq<usize>, t2: Seq<usize>)
    requires
        0 <= bound <= scores.len(),
        is_top(scores, bound, t1),
        is_top(scores, bound, t2),
        t1.len() == t2.len(),
    ensures
        t1 == t2,
{
    lemma_top_prefix(scores, bound, t1, t2, t1.len() as int);
    assert(t1 =~= t2);
}

/// The positions of the `top_n` best scores, best first; equal scores keep
/// their order.
pub fn rank_top(scores: &Vec<u32>, top_n: usize) -> (r: Vec<usize>)
    ensures
        r@.len() == min(top_n as int, scores@.len() as int),
        is_top(scores@, scores@.len() as int, r@),
{
    let n = scores.len();
    let mut best: Vec<usize> = Vec::new();
    for x in 0..n
        invariant
            n == scores@.len(),
            best@.len() == min(top_n as int, x as int),
            is_top(scores@, x as int, best@),
    {
        let mut p: usize = 0;
        while p < best.len() && scores[best[p]] >= scores[x]
            invariant
                0 <= p <= best@.len(),
                x < n,
                n == scores@.len(),
                is_top(scores@, x as int, best@),
                forall|q: int| 0 <= q < p ==> scores@[#[trigger] best@[q] as int] >= scores@[x as int],
            decreases best@.len() - p,
        {
            p = p + 1;
        }
        proof {
            lemma_top_insert(scores@, x as int, best@, p as int, top_n as int);
        }
        if p < top_n {
            best.insert(p, x);
            if best.len() > top_n {
                best.pop();
            }
        }
    }
    best
}

/// A search hit: the position of its stored entry, its image id and its
/// path.
pub struct SearchHit {
    pub entry: usize,
    pub id: usize,
    pub path: String,
}

/// The hits for the entries `top`, in order: each entry whose image id the
/// index knows, with its id and path.
pub open spec fn hits(top: Seq<usize>, entry_ids: Seq<usize>, paths: Map<usize, Seq<char>>) -> Seq<
    (usize, usize, Seq<char>),
>
    decreases top.len(),
{
    if top.len() == 0 {
        seq![]
    } else {
        let prev = hits(top.drop_last(), entry_ids, paths);
        let e = top.last();
        let id = entry_ids[e as int];
        if paths.contains_key(id) {
            prev.push((e, id, paths[id]))
        } else {
            prev
        }
    }
}

/// The view of a list of hits.
pub open spec fn hits_view(s: Seq<SearchHit>) -> Seq<(usize, usize, Seq<char>)> {
    s.map_values(|h: SearchHit| (h.entry, h.id, h.path@))
}

/// Each hit is one of the listed entries, with its image id and that image's
/// path, and there are no more hits than listed entries.
pub proof fn lemma_hits_resolved(top: Seq<usize>, entry_ids: Seq<usize>, paths: Map<usize, Seq<char>>)
    ensures
        hits(top, entry_ids, paths).len() <= top.len(),
        forall|h: int|
            0 <= h < hits(top, entry_ids, paths).len() ==> {
                let (e, id, p) = #[trigger] hits(top, entry_ids, paths)[h];
                &&& exists|t: int| 0 <= t < top.len() && top[t] == e
                &&& entry_ids[e as int] == id
                &&& paths.contains_key(id)
                &&& paths[id] == p
            },
    decreases top.len(),
{
    if top.len() > 0 {
        let prev = top.drop_last();
        lemma_hits_resolved(prev, entry_ids, paths);
        let hs = hits(top, entry_ids, paths);
        let hp = hits(prev, entry_ids, paths);
        assert forall|h: int| 0 <= h < hs.len() implies {
            let (e, id, p) = #[trigger] hs[h];
            &&& exists|t: int| 0 <= t < top.len() && top[t] == e
            &&& entry_ids[e as int] == id
            &&& paths.contains_key(id)
            &&& paths[id] == p
        } by {
            if h < hp.len() {
                assert(hs[h] == hp[h]);
                let (e, id, p) = hp[h];
                let t = choose|t: int| 0 <= t < prev.len() && prev[t] == e;
                assert(top[t] == e);
            } else {
                assert(top[top.len() - 1] == top.last());
            }
        }
    }
}

/// The entries of `top` whose image the index knows, in the order of `top`.
pub open spec fn known_entries(top: Seq<usize>, entry_ids: Seq<usize>, paths: Map<usize, Seq<char>>) -> Seq<usize> {
    top.filter(|e: usize| paths.contains_key(entry_ids[e as int]))
}

/// The hits are exactly the listed entries whose image the index knows, in
/// the listed order, none left out: each with its image id and that image's
/// path.
pub proof fn lemma_hits_are_the_known_entries(
    top: Seq<usize>,
    entry_ids: Seq<usize>,
    paths: Map<usize, Seq<char>>,
)
    ensures
        hits(top, entry_ids, paths).len() == known_entries(top, entry_ids, paths).len(),
        forall|h: int|
            0 <= h < hits(top, entry_ids, paths).len() ==> {
                let e = known_entries(top, entry_ids, paths)[h];
                #[trigger] hits(top, entry_ids, paths)[h] == (
                    e,
                    entry_ids[e as int],
                    paths[entry_ids[e as int]],
                )
            },
        forall|t: int|
            0 <= t < top.len() && paths.contains_key(entry_ids[#[trigger] top[t] as int])
                ==> hits(top, entry_ids, paths).contains(
                (top[t], entry_ids[top[t] as int], paths[entry_ids[top[t] as int]]),
            ),
    decreases top.len(),
{
    let pred = |e: usize| paths.contains_key(entry_ids[e as int]);
    reveal(Seq::filter);
    if top.len() > 0 {
        let prev = top.drop_last();
        lemma_hits_are_the_known_entries(prev, entry_ids, paths);
        assert(known_entries(top, entry_ids, paths) == {
            let sub = known_entries(prev, entry_ids, paths);
            if pred(top.last()) {
                sub.push(top.last())
            } else {
                sub
            }
        });
    }
    let hs = hits(top, entry_ids, paths);
    let ks = known_entries(top, entry_ids, paths);
    assert forall|t: int|
        0 <= t < top.len() && paths.contains_key(entry_ids[#[trigger] top[t] as int]) implies hs.contains(
        (top[t], entry_ids[top[t] as int], paths[entry_ids[top[t] as int]]),
    ) by {
        top.lemma_filter_contains(pred, t);
        let h = choose|h: int| 0 <= h < ks.len() && ks[h] == top[t];
        assert(hs[h] == (top[t], entry_ids[top[t] as int], paths[entry_ids[top[t] as int]]));
    }
}

/// A store keeps every id below the next free id through any insertion.
pub proof fn lemma_insert_keeps_ids_below(ids: Seq<usize>, next: usize, id: usize)
    requires
        forall|i: int| 0 <= i < ids.len() ==> #[trigger] ids[i] < next,
        id < usize::MAX,
    ensures
        ({
            let n2: usize = if id >= next { (id + 1) as usize } else { next };
            forall|i: int| 0 <= i < ids.push(id).len() ==> #[trigger] ids.push(id)[i] < n2
        }),
{
    let n2: usize = if id >= next { (id + 1) as usize } else { next };
    assert forall|i: int| 0 <= i < ids.push(id).len() implies #[trigger] ids.push(id)[i] < n2 by {
        if i < ids.len() {
            assert(ids.push(id)[i] == ids[i]);
        }
    }
}

impl VectorStore {
    /// The hits to show for a query whose similarity to the stored entries
    /// is ordered as `scores` (one score per entry, higher is more similar):
    /// the `top_n` best entries, best first, without those whose image the
    /// index does not know, each with its path.
    pub fn search(&self, scores: &Vec<u32>, top_n: usize, metadata: &ImageMetadata) -> (r: Vec<
        SearchHit,
    >)
        requires
            scores@.len() == self.ids().len(),
            metadata.wf(),
        ensures
            exists|top: Seq<usize>|
                {
                    &&& top.len() == min(top_n as int, scores@.len() as int)
                    &&& is_top(scores@, scores@.len() as int, top)
                    &&& hits_view(r@) == hits(top, self.ids(), metadata.ids())
                },
    {
        let top = rank_top(scores, top_n);
        let m = top.len();
        let mut r: Vec<SearchHit> = Vec::new();
        let mut i: usize = 0;
        assert(top@.take(0) =~= Seq::<usize>::empty());
        assert(hits_view(r@) =~= hits(top@.take(0), self.ids(), metadata.ids()));
        while i < m
            invariant
                0 <= i <= m,
                m == top@.len(),
                forall|t: int| 0 <= t < m ==> #[trigger] top@[t] < self.ids().len(),
                self.ids().len() == self.entries@.len(),
                metadata.wf(),
                hits_view(r@) == hits(top@.take(i as int), self.ids(), metadata.ids()),
            decreases m - i,
        {
            let e = top[i];
            let id = self.entries[e].id;
            let ghost before = hits_view(r@);
            proof {
                assert(top@.take(i + 1).drop_last() =~= top@.take(i as int));
                assert(top@.take(i + 1).last() == e);
                assert(self.ids()[e as int] == id);
            }
            match metadata.get_path(id) {
                Some(path) => {
                    r.push(SearchHit { entry: e, id, path });
                    assert(hits_view(r@) =~= before.push((e, id, metadata.ids()[id])));
                },
                None => {},
            }
            i = i + 1;
        }
        assert(top@.take(m as int) =~= top@);
        r
    }
}

} // verus!
