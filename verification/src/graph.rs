//! The layered proximity graph: per-point bounded neighbor lists on a
//! contiguous range of layers, an entry point at the highest occupied
//! layer, the incremental link builder, and the beam search.

use vstd::prelude::*;
use crate::pool::Scored;
use crate::pool::better;
use crate::pool::sorted_better;
use crate::pool::distinct_ids;
use crate::pool::contains_id;
use crate::pool::better_exec;
use crate::pool::lemma_better_transitive;
use crate::pool::pool_insert;
use crate::scorer::Scorer;
use crate::HnswError;

verus! {

/// The construction parameters of a graph: the neighbor-list capacities
/// (`m` on layers above zero, `m0` on layer zero), the construction beam
/// width, the highest layer the sampler may assign, and whether the
/// diversity heuristic prunes neighbor candidates.
#[derive(Clone, Copy, PartialEq, Eq, Structural, Debug)]
pub struct Params {
    pub m: usize,
    pub m0: usize,
    pub ef_construct: usize,
    pub max_level: usize,
    pub use_heuristic: bool,
}

/// The point every search and insertion descends from, together with its
/// top layer; it is always a point of the currently highest top layer.
#[derive(Clone, Copy, PartialEq, Eq, Structural, Debug)]
pub struct EntryPoint {
    pub id: usize,
    pub level: usize,
}

/// The layered adjacency structure. `links[p]` is empty until point `p`
/// is inserted; afterwards it holds one neighbor list per layer from
/// layer `0` up to the point's top layer.
pub struct Graph {
    pub params: Params,
    pub capacity: usize,
    pub entry: Option<EntryPoint>,
    pub links: Vec<Vec<Vec<usize>>>,
}

/// The parameter values `new` accepts: capacities and beam width at least
/// one, `m` at least two so the level distribution is proper, and room to
/// count one past a capacity or the top layer without overflow.
pub open spec fn params_ok(p: Params) -> bool {
    &&& 2 <= p.m
    &&& p.m < usize::MAX
    &&& 1 <= p.m0
    &&& p.m0 < usize::MAX
    &&& 1 <= p.ef_construct
    &&& p.max_level < usize::MAX
}

impl Graph {
    /// Point `p` has been inserted.
    pub open spec fn inserted_spec(self, p: int) -> bool {
        0 <= p < self.links@.len() && self.links@[p]@.len() > 0
    }

    /// The highest layer point `p` participates in.
    pub open spec fn top_level_spec(self, p: int) -> int {
        self.links@[p]@.len() - 1
    }

    /// The neighbor list of point `p` at layer `l`.
    pub open spec fn nbrs(self, p: int, l: int) -> Seq<usize> {
        self.links@[p]@[l]@
    }

    /// The capacity bound of a neighbor list at layer `l`.
    pub open spec fn layer_cap(self, l: int) -> int {
        if l == 0 {
            self.params.m0 as int
        } else {
            self.params.m as int
        }
    }

    /// One neighbor list is valid: within its capacity, free of duplicates
    /// and self-loops, and every member is an inserted point that itself
    /// participates in this layer.
    pub open spec fn layer_ok(self, p: int, l: int) -> bool {
        let ns = self.nbrs(p, l);
        &&& ns.len() <= self.layer_cap(l)
        &&& forall|i: int, j: int| 0 <= i < j < ns.len() ==> ns[i] != ns[j]
        &&& forall|i: int|
            0 <= i < ns.len() ==> {
                &&& (#[trigger] ns[i]) as int != p
                &&& (ns[i] as int) < self.links@.len()
                &&& self.inserted_spec(ns[i] as int)
                &&& self.top_level_spec(ns[i] as int) >= l
            }
    }

    /// An inserted point's record is valid: its layers form the contiguous
    /// range up to its top level, bounded by the level hint, and every
    /// layer's list is valid.
    pub open spec fn point_ok(self, p: int) -> bool {
        &&& self.links@[p]@.len() <= self.params.max_level + 1
        &&& forall|l: int| 0 <= l < self.links@[p]@.len() ==> self.layer_ok(p, l)
    }

    /// The graph invariant: valid parameters, one slot per point of the
    /// declared capacity, every inserted point's record valid, and the
    /// entry point present exactly when the graph is non-empty, always at
    /// the highest occupied layer.
    pub open spec fn wf(self) -> bool {
        &&& params_ok(self.params)
        &&& self.links@.len() == self.capacity
        &&& forall|p: int| #[trigger] self.inserted_spec(p) ==> self.point_ok(p)
        &&& match self.entry {
            Option::None => forall|p: int| !(#[trigger] self.inserted_spec(p)),
            Option::Some(e) => {
                &&& (e.id as int) < self.links@.len()
                &&& self.inserted_spec(e.id as int)
                &&& self.top_level_spec(e.id as int) == e.level as int
                &&& forall|p: int|
                    #[trigger] self.inserted_spec(p) ==> self.top_level_spec(p) <= e.level as int
            },
        }
    }

    /// Create an empty graph of the given capacity, rejecting degenerate
    /// parameters (`m` below two, a zero capacity bound or beam width)
    /// and values too large to count past.
    pub fn new(
        capacity: usize,
        m: usize,
        m0: usize,
        ef_construct: usize,
        max_level: usize,
        use_heuristic: bool,
    ) -> (r: Result<Graph, HnswError>)
        ensures
            r is Ok <==> params_ok(
                Params { m, m0, ef_construct, max_level, use_heuristic },
            ),
            r is Err ==> r == Result::<Graph, HnswError>::Err(HnswError::InvalidConfig),
            r is Ok ==> {
                &&& r->Ok_0.wf()
                &&& r->Ok_0.capacity == capacity
                &&& r->Ok_0.params == (Params { m, m0, ef_construct, max_level, use_heuristic })
                &&& r->Ok_0.entry is None
                &&& forall|p: int| !(#[trigger] r->Ok_0.inserted_spec(p))
            },
    {
        if m < 2 || m == usize::MAX || m0 < 1 || m0 == usize::MAX || ef_construct < 1
            || max_level == usize::MAX {
            return Result::Err(HnswError::InvalidConfig);
        }
        let mut links: Vec<Vec<Vec<usize>>> = Vec::new();
        while links.len() < capacity
            invariant
                links@.len() <= capacity,
                forall|p: int| 0 <= p < links@.len() ==> (#[trigger] links@[p])@.len() == 0,
            decreases capacity - links@.len(),
        {
            links.push(Vec::new());
        }
        let g = Graph {
            params: Params { m, m0, ef_construct, max_level, use_heuristic },
            capacity,
            entry: Option::None,
            links,
        };
        Result::Ok(g)
    }

    /// Whether point `p` has been inserted.
    pub fn is_inserted(&self, p: usize) -> (r: bool)
        requires
            p < self.links@.len(),
        ensures
            r == self.inserted_spec(p as int),
    {
        self.links[p].len() > 0
    }

    /// The top layer of an inserted point.
    pub fn top_level_of(&self, p: usize) -> (r: usize)
        requires
            p < self.links@.len(),
            self.inserted_spec(p as int),
        ensures
            r as int == self.top_level_spec(p as int),
    {
        self.links[p].len() - 1
    }

    /// The length of one neighbor list.
    fn layer_len(&self, p: usize, l: usize) -> (r: usize)
        requires
            self.inserted_spec(p as int),
            l as int <= self.top_level_spec(p as int),
        ensures
            r == self.nbrs(p as int, l as int).len(),
    {
        self.links[p][l].len()
    }

    /// One member of a neighbor list.
    fn neighbor_at(&self, p: usize, l: usize, i: usize) -> (r: usize)
        requires
            self.inserted_spec(p as int),
            l as int <= self.top_level_spec(p as int),
            i < self.nbrs(p as int, l as int).len(),
        ensures
            r == self.nbrs(p as int, l as int)[i as int],
    {
        self.links[p][l][i]
    }

    /// A copy of one neighbor list; the public view of the adjacency
    /// structure.
    pub fn neighbors_of(&self, p: usize, l: usize) -> (r: Vec<usize>)
        requires
            p < self.links@.len(),
            self.inserted_spec(p as int),
            l as int <= self.top_level_spec(p as int),
        ensures
            r@ == self.nbrs(p as int, l as int),
    {
        let list = &self.links[p][l];
        let mut out: Vec<usize> = Vec::new();
        let mut i: usize = 0;
        while i < list.len()
            invariant
                i <= list@.len(),
                out@ == list@.subrange(0, i as int),
            decreases list@.len() - i,
        {
            out.push(list[i]);
            assert(out@ =~= list@.subrange(0, i + 1));
            i += 1;
        }
        assert(out@ =~= list@);
        out
    }

    /// Replace one neighbor list, leaving every other point and layer
    /// untouched.
    fn set_layer(&mut self, p: usize, l: usize, list: Vec<usize>)
        requires
            p < old(self).links@.len(),
            old(self).inserted_spec(p as int),
            l as int <= old(self).top_level_spec(p as int),
        ensures
            final(self).params == old(self).params,
            final(self).capacity == old(self).capacity,
            final(self).entry == old(self).entry,
            final(self).links@.len() == old(self).links@.len(),
            forall|q: int|
                0 <= q < old(self).links@.len() && q != p
                    ==> final(self).links@[q] == old(self).links@[q],
            final(self).links@[p as int]@.len() == old(self).links@[p as int]@.len(),
            forall|l2: int|
                0 <= l2 < old(self).links@[p as int]@.len() && l2 != l
                    ==> (#[trigger] final(self).links@[p as int]@[l2])@
                        == old(self).links@[p as int]@[l2]@,
            final(self).nbrs(p as int, l as int) == list@,
    {
        let n = self.links[p].len();
        let mut layers: Vec<Vec<usize>> = Vec::new();
        let mut l2: usize = 0;
        while l2 < n
            invariant
                l2 <= n,
                n == self.links@[p as int]@.len(),
                p < self.links@.len(),
                layers@.len() == l2,
                forall|k: int|
                    0 <= k < l2 ==> (#[trigger] layers@[k])@ == self.links@[p as int]@[k]@,
            decreases n - l2,
        {
            let one = self.copy_inner(p, l2);
            layers.push(one);
            l2 += 1;
        }
        layers.set(l, list);
        self.links.set(p, layers);
    }

    /// A copy of `links[p][l]` by value.
    fn copy_inner(&self, p: usize, l: usize) -> (r: Vec<usize>)
        requires
            p < self.links@.len(),
            l < self.links@[p as int]@.len(),
        ensures
            r@ == self.links@[p as int]@[l as int]@,
    {
        let list = &self.links[p][l];
        let mut out: Vec<usize> = Vec::new();
        let mut i: usize = 0;
        while i < list.len()
            invariant
                i <= list@.len(),
                out@ == list@.subrange(0, i as int),
            decreases list@.len() - i,
        {
            out.push(list[i]);
            assert(out@ =~= list@.subrange(0, i + 1));
            i += 1;
        }
        assert(out@ =~= list@);
        out
    }

    /// Install a freshly inserted point's whole record, leaving every
    /// other point untouched.
    fn set_point(&mut self, p: usize, layers: Vec<Vec<usize>>)
        requires
            p < old(self).links@.len(),
        ensures
            final(self).params == old(self).params,
            final(self).capacity == old(self).capacity,
            final(self).entry == old(self).entry,
            final(self).links@.len() == old(self).links@.len(),
            forall|q: int|
                0 <= q < old(self).links@.len() && q != p
                    ==> final(self).links@[q] == old(self).links@[q],
            final(self).links@[p as int] == layers,
    {
        self.links.set(p, layers);
    }
}

/// How many slots of a visited map are still unvisited; the termination
/// measure of the beam search.
pub open spec fn count_false(s: Seq<bool>) -> int
    decreases s.len(),
{
    if s.len() == 0 {
        0
    } else {
        (if s[0] {
            0int
        } else {
            1int
        }) + count_false(s.drop_first())
    }
}

proof fn lemma_count_false_nonneg(s: Seq<bool>)
    ensures
        count_false(s) >= 0,
    decreases s.len(),
{
    if s.len() > 0 {
        lemma_count_false_nonneg(s.drop_first());
    }
}

proof fn lemma_count_false_update(s: Seq<bool>, i: int)
    requires
        0 <= i < s.len(),
        !s[i],
    ensures
        count_false(s.update(i, true)) == count_false(s) - 1,
    decreases s.len(),
{
    let t = s.update(i, true);
    if i == 0 {
        assert(t.drop_first() =~= s.drop_first());
    } else {
        assert(t.drop_first() =~= s.drop_first().update(i - 1, true));
        lemma_count_false_update(s.drop_first(), i - 1);
    }
}

impl Graph {
    /// Greedy single-path step sequence at one layer: move to the best
    /// neighbor while it strictly improves the score, as the descent
    /// through the upper layers does.
    fn greedy_at_layer<S: Scorer>(&self, start: Scored, l: usize, scorer: &S) -> (r: Scored)
        requires
            self.wf(),
            scorer.wf(),
            self.capacity as int <= scorer.limit(),
            self.inserted_spec(start.id as int),
            self.top_level_spec(start.id as int) >= l as int,
            start.score == scorer.score_spec(start.id as int),
        ensures
            self.inserted_spec(r.id as int),
            self.top_level_spec(r.id as int) >= l as int,
            r.score == scorer.score_spec(r.id as int),
            r.score >= start.score,
    {
        let mut cur = start;
        let mut improved = true;
        while improved
            invariant
                self.wf(),
                scorer.wf(),
                self.capacity as int <= scorer.limit(),
                self.inserted_spec(cur.id as int),
                self.top_level_spec(cur.id as int) >= l as int,
                cur.score == scorer.score_spec(cur.id as int),
                cur.score >= start.score,
            decreases i64::MAX as int - cur.score as int, if improved { 1int } else { 0int },
        {
            improved = false;
            proof {
                assert(self.point_ok(cur.id as int));
                assert(self.layer_ok(cur.id as int, l as int));
            }
            let deg = self.layer_len(cur.id, l);
            let mut best = cur;
            let mut j: usize = 0;
            while j < deg
                invariant
                    self.wf(),
                    scorer.wf(),
                    self.capacity as int <= scorer.limit(),
                    self.inserted_spec(cur.id as int),
                    self.top_level_spec(cur.id as int) >= l as int,
                    deg == self.nbrs(cur.id as int, l as int).len(),
                    self.layer_ok(cur.id as int, l as int),
                    j <= deg,
                    self.inserted_spec(best.id as int),
                    self.top_level_spec(best.id as int) >= l as int,
                    best.score == scorer.score_spec(best.id as int),
                    best.score >= cur.score,
                decreases deg - j,
            {
                let nb = self.neighbor_at(cur.id, l, j);
                let s = scorer.score(nb);
                let cand = Scored { id: nb, score: s };
                if better_exec(&cand, &best) {
                    best = cand;
                }
                j += 1;
            }
            if best.score > cur.score {
                cur = best;
                improved = true;
            }
        }
        cur
    }

    /// The bounded best-first search at one layer: expand the frontier
    /// best-first with a visited set, keep the best `ef` records seen, and
    /// stop once the best frontier entry is worse than the worst record of
    /// a full pool. With `use_filter` set, ineligible points are excluded
    /// from the pool but their edges are still traversed.
    fn search_layer<S: Scorer>(
        &self,
        start: Scored,
        l: usize,
        ef: usize,
        scorer: &S,
        use_filter: bool,
    ) -> (r: Vec<Scored>)
        requires
            self.wf(),
            scorer.wf(),
            self.capacity as int <= scorer.limit(),
            self.inserted_spec(start.id as int),
            self.top_level_spec(start.id as int) >= l as int,
            start.score == scorer.score_spec(start.id as int),
            ef >= 1,
        ensures
            sorted_better(r@),
            distinct_ids(r@),
            r@.len() <= ef,
            forall|i: int|
                0 <= i < r@.len() ==> {
                    &&& self.inserted_spec((#[trigger] r@[i]).id as int)
                    &&& self.top_level_spec(r@[i].id as int) >= l as int
                    &&& r@[i].score == scorer.score_spec(r@[i].id as int)
                    &&& (use_filter ==> scorer.eligible_spec(r@[i].id as int))
                },
            (!use_filter || scorer.eligible_spec(start.id as int)) ==> (r@.len() >= 1 && (r@[0]
                == start || better(r@[0], start))),
    {
        let cap = self.capacity;
        assert(start.id < cap);
        let mut visited: Vec<bool> = Vec::new();
        while visited.len() < cap
            invariant
                visited@.len() <= cap,
                forall|k: int| 0 <= k < visited@.len() ==> !(#[trigger] visited@[k]),
            decreases cap - visited@.len(),
        {
            visited.push(false);
        }
        let mut pool: Vec<Scored> = Vec::new();
        let mut frontier: Vec<Scored> = Vec::new();
        visited.set(start.id, true);
        if !use_filter || scorer.is_eligible(start.id) {
            pool_insert(&mut pool, start, ef);
        }
        pool_insert(&mut frontier, start, cap);
        proof {
            lemma_count_false_nonneg(visited@);
        }
        while frontier.len() > 0
            invariant
                self.wf(),
                scorer.wf(),
                self.capacity as int <= scorer.limit(),
                cap == self.capacity,
                ef >= 1,
                visited@.len() == cap,
                count_false(visited@) >= 0,
                sorted_better(pool@),
                distinct_ids(pool@),
                pool@.len() <= ef,
                forall|i: int|
                    0 <= i < pool@.len() ==> {
                        &&& (#[trigger] pool@[i]).id < cap
                        &&& self.inserted_spec(pool@[i].id as int)
                        &&& self.top_level_spec(pool@[i].id as int) >= l as int
                        &&& pool@[i].score == scorer.score_spec(pool@[i].id as int)
                        &&& (use_filter ==> scorer.eligible_spec(pool@[i].id as int))
                        &&& visited@[pool@[i].id as int]
                    },
                sorted_better(frontier@),
                distinct_ids(frontier@),
                frontier@.len() <= cap,
                forall|i: int|
                    0 <= i < frontier@.len() ==> {
                        &&& (#[trigger] frontier@[i]).id < cap
                        &&& self.inserted_spec(frontier@[i].id as int)
                        &&& self.top_level_spec(frontier@[i].id as int) >= l as int
                        &&& frontier@[i].score == scorer.score_spec(frontier@[i].id as int)
                        &&& visited@[frontier@[i].id as int]
                    },
                (!use_filter || scorer.eligible_spec(start.id as int)) ==> (pool@.len() >= 1 && (
                pool@[0] == start || better(pool@[0], start))),
            decreases frontier@.len() + count_false(visited@),
        {
            let ghost measure0 = frontier@.len() + count_false(visited@);
            let best = frontier.remove(0);
            if pool.len() >= ef {
                let worst = pool[pool.len() - 1];
                if better_exec(&worst, &best) {
                    break;
                }
            }
            proof {
                assert(self.point_ok(best.id as int));
                assert(self.layer_ok(best.id as int, l as int));
            }
            let deg = self.layer_len(best.id, l);
            let mut j: usize = 0;
            while j < deg
                invariant
                    self.wf(),
                    scorer.wf(),
                    self.capacity as int <= scorer.limit(),
                    cap == self.capacity,
                    ef >= 1,
                    j <= deg,
                    self.inserted_spec(best.id as int),
                    self.top_level_spec(best.id as int) >= l as int,
                    deg == self.nbrs(best.id as int, l as int).len(),
                    self.layer_ok(best.id as int, l as int),
                    visited@.len() == cap,
                    count_false(visited@) >= 0,
                    frontier@.len() + count_false(visited@) <= measure0 - 1,
                    sorted_better(pool@),
                    distinct_ids(pool@),
                    pool@.len() <= ef,
                    forall|i: int|
                        0 <= i < pool@.len() ==> {
                            &&& (#[trigger] pool@[i]).id < cap
                            &&& self.inserted_spec(pool@[i].id as int)
                            &&& self.top_level_spec(pool@[i].id as int) >= l as int
                            &&& pool@[i].score == scorer.score_spec(pool@[i].id as int)
                            &&& (use_filter ==> scorer.eligible_spec(pool@[i].id as int))
                            &&& visited@[pool@[i].id as int]
                        },
                    sorted_better(frontier@),
                    distinct_ids(frontier@),
                    frontier@.len() <= cap,
                    forall|i: int|
                        0 <= i < frontier@.len() ==> {
                            &&& (#[trigger] frontier@[i]).id < cap
                            &&& self.inserted_spec(frontier@[i].id as int)
                            &&& self.top_level_spec(frontier@[i].id as int) >= l as int
                            &&& frontier@[i].score == scorer.score_spec(frontier@[i].id as int)
                            &&& visited@[frontier@[i].id as int]
                        },
                    (!use_filter || scorer.eligible_spec(start.id as int)) ==> (pool@.len() >= 1
                        && (pool@[0] == start || better(pool@[0], start))),
                decreases deg - j,
            {
                let nb = self.neighbor_at(best.id, l, j);
                assert(nb < cap && self.inserted_spec(nb as int)
                    && self.top_level_spec(nb as int) >= l as int);
                if !visited[nb] {
                    proof {
                        assert(!contains_id(pool@, nb)) by {
                            if contains_id(pool@, nb) {
                                let k = choose|k: int|
                                    0 <= k < pool@.len() && pool@[k].id == nb;
                                assert(visited@[pool@[k].id as int]);
                            }
                        }
                        assert(!contains_id(frontier@, nb)) by {
                            if contains_id(frontier@, nb) {
                                let k = choose|k: int|
                                    0 <= k < frontier@.len() && frontier@[k].id == nb;
                                assert(visited@[frontier@[k].id as int]);
                            }
                        }
                        lemma_count_false_update(visited@, nb as int);
                    }
                    visited.set(nb, true);
                    proof {
                        lemma_count_false_nonneg(visited@);
                    }
                    let s = scorer.score(nb);
                    let e = Scored { id: nb, score: s };
                    if !use_filter || scorer.is_eligible(nb) {
                        let ghost prevpool = pool@;
                        pool_insert(&mut pool, e, ef);
                        proof {
                            if !use_filter || scorer.eligible_spec(start.id as int) {
                                let prev0 = prevpool[0];
                                assert(pool@[0] == prev0 || better(pool@[0], prev0)) by {
                                    assert(prevpool.contains(prev0));
                                    if pool@.contains(prev0) {
                                        let k2 = choose|k2: int|
                                            0 <= k2 < pool@.len() && pool@[k2] == prev0;
                                        if k2 > 0 {
                                            assert(better(pool@[0], pool@[k2]));
                                        }
                                    } else {
                                        assert(better(pool@[0], prev0));
                                    }
                                }
                                if pool@[0] != prev0 && prev0 != start {
                                    lemma_better_transitive(pool@[0], prev0, start);
                                }
                            }
                        }
                    }
                    pool_insert(&mut frontier, e, cap);
                }
                j += 1;
            }
        }
        pool
    }
}

/// The point ids of a list of scored records, in order.
fn ids_of(sel: &Vec<Scored>) -> (r: Vec<usize>)
    ensures
        r@.len() == sel@.len(),
        forall|i: int| 0 <= i < r@.len() ==> r@[i] == (#[trigger] sel@[i]).id,
{
    let mut out: Vec<usize> = Vec::new();
    let mut i: usize = 0;
    while i < sel.len()
        invariant
            i <= sel@.len(),
            out@.len() == i,
            forall|k: int| 0 <= k < i ==> out@[k] == (#[trigger] sel@[k]).id,
        decreases sel@.len() - i,
    {
        out.push(sel[i].id);
        i += 1;
    }
    out
}

impl Graph {
    /// Select up to `cap` neighbors from the sorted candidates. With the
    /// heuristic disabled this is the best `cap` candidates; with it
    /// enabled a candidate is admitted only if no already admitted
    /// neighbor is strictly closer to it than the candidate is to the
    /// query, which keeps the admitted set diverse. The best candidate is
    /// always admitted.
    fn select_neighbors<S: Scorer>(&self, cands: &Vec<Scored>, cap: usize, scorer: &S) -> (r:
        Vec<Scored>)
        requires
            scorer.wf(),
            cap >= 1,
            sorted_better(cands@),
            distinct_ids(cands@),
            forall|i: int| 0 <= i < cands@.len() ==> ((#[trigger] cands@[i]).id as int) < scorer.limit(),
        ensures
            r@.len() <= cap,
            sorted_better(r@),
            distinct_ids(r@),
            forall|i: int| 0 <= i < r@.len() ==> cands@.contains(#[trigger] r@[i]),
            cands@.len() >= 1 ==> r@.len() >= 1 && r@[0] == cands@[0],
    {
        if !self.params.use_heuristic {
            let mut out: Vec<Scored> = Vec::new();
            let mut i: usize = 0;
            while i < cands.len() && i < cap
                invariant
                    i <= cands@.len(),
                    i <= cap,
                    out@ == cands@.subrange(0, i as int),
                decreases cands@.len() - i,
            {
                out.push(cands[i]);
                assert(out@ =~= cands@.subrange(0, i + 1));
                i += 1;
            }
            proof {
                assert(forall|k: int| 0 <= k < out@.len() ==> out@[k] == cands@[k]);
                assert forall|k: int| 0 <= k < out@.len() implies cands@.contains(#[trigger] out@[k]) by {
                    assert(out@[k] == cands@[k]);
                }
            }
            out
        } else {
            let mut out: Vec<Scored> = Vec::new();
            let mut i: usize = 0;
            while i < cands.len() && out.len() < cap
                invariant
                    scorer.wf(),
                    i <= cands@.len(),
                    out@.len() <= cap,
                    sorted_better(cands@),
                    distinct_ids(cands@),
                    forall|k: int|
                        0 <= k < cands@.len() ==> ((#[trigger] cands@[k]).id as int) < scorer.limit(),
                    sorted_better(out@),
                    distinct_ids(out@),
                    forall|k: int|
                        0 <= k < out@.len() ==> exists|a: int|
                            0 <= a < i && cands@[a] == #[trigger] out@[k],
                    i >= 1 ==> out@.len() >= 1,
                    out@.len() >= 1 ==> out@[0] == cands@[0],
                decreases cands@.len() - i,
            {
                let c = cands[i];
                let mut dominated = false;
                let mut j: usize = 0;
                while j < out.len()
                    invariant
                        scorer.wf(),
                        j <= out@.len(),
                        forall|k: int|
                            0 <= k < out@.len() ==> ((#[trigger] out@[k]).id as int) < scorer.limit(),
                        (c.id as int) < scorer.limit(),
                        dominated ==> out@.len() >= 1,
                    decreases out@.len() - j,
                {
                    if scorer.score_pair(out[j].id, c.id) > c.score {
                        dominated = true;
                        break;
                    }
                    j += 1;
                }
                if !dominated {
                    let ghost prev = out@;
                    proof {
                        assert forall|k: int| 0 <= k < prev.len() implies better(
                            #[trigger] prev[k],
                            c,
                        ) && prev[k].id != c.id by {
                            let a = choose|a: int| 0 <= a < i && cands@[a] == prev[k];
                            assert(cands@[a] == prev[k]);
                            assert(better(cands@[a], cands@[i as int]));
                            assert(cands@[a].id != cands@[i as int].id);
                        }
                    }
                    out.push(c);
                    proof {
                        assert(out@ == prev.push(c));
                        assert(forall|k: int| 0 <= k < prev.len() ==> out@[k] == prev[k]);
                        assert(out@[out@.len() - 1] == c);
                        assert(cands@[i as int] == c);
                        assert(sorted_better(out@));
                        assert(distinct_ids(out@));
                    }
                }
                i += 1;
            }
            proof {
                assert forall|k: int| 0 <= k < out@.len() implies cands@.contains(
                    #[trigger] out@[k],
                ) by {
                    let a = choose|a: int| 0 <= a < i && cands@[a] == out@[k];
                    assert(cands@[a] == out@[k]);
                }
            }
            out
        }
    }
}

impl Graph {
    /// Attempt to add `q` into `n`'s neighbor list at layer `l`. A list
    /// under capacity takes `q` directly; a full list is re-selected from
    /// the union of its members and `q`, scored relative to `n`, which may
    /// evict a weaker neighbor or leave `q` out — the only way a link can
    /// stay one-sided.
    fn connect<S: Scorer>(&mut self, n: usize, q: usize, l: usize, scorer: &S)
        requires
            old(self).wf(),
            scorer.wf(),
            old(self).capacity as int <= scorer.limit(),
            old(self).inserted_spec(n as int),
            old(self).inserted_spec(q as int),
            n != q,
            l as int <= old(self).top_level_spec(n as int),
            l as int <= old(self).top_level_spec(q as int),
            !old(self).nbrs(n as int, l as int).contains(q),
        ensures
            final(self).wf(),
            final(self).params == old(self).params,
            final(self).capacity == old(self).capacity,
            final(self).entry == old(self).entry,
            final(self).links@.len() == old(self).links@.len(),
            forall|p: int|
                0 <= p < old(self).links@.len() && p != n
                    ==> final(self).links@[p] == old(self).links@[p],
            final(self).links@[n as int]@.len() == old(self).links@[n as int]@.len(),
            forall|l2: int|
                0 <= l2 < old(self).links@[n as int]@.len() && l2 != l
                    ==> final(self).nbrs(n as int, l2) == old(self).nbrs(n as int, l2),
            final(self).nbrs(n as int, l as int).contains(q) || old(self).nbrs(
                n as int,
                l as int,
            ).len() == old(self).layer_cap(l as int),
            forall|x: usize|
                final(self).nbrs(n as int, l as int).contains(x)
                    ==> x == q || old(self).nbrs(n as int, l as int).contains(x),
            forall|p: int| final(self).inserted_spec(p) == old(self).inserted_spec(p),
            forall|p: int|
                #[trigger] final(self).inserted_spec(p)
                    ==> final(self).top_level_spec(p) == old(self).top_level_spec(p),
    {
        proof {
            assert(self.point_ok(n as int));
            assert(self.layer_ok(n as int, l as int));
        }
        let ghost g0 = *self;
        proof {
            assert(!g0.nbrs(n as int, l as int).contains(q));
        }
        let cap = if l == 0 {
            self.params.m0
        } else {
            self.params.m
        };
        let list = self.neighbors_of(n, l);
        if list.len() < cap {
            let mut list2 = list;
            list2.push(q);
            let ghost new_list = list2@;
            self.set_layer(n, l, list2);
            proof {
                assert(self.nbrs(n as int, l as int) == new_list);
                assert(new_list[new_list.len() - 1] == q);
                assert(self.nbrs(n as int, l as int).contains(q));
                assert forall|x: usize| self.nbrs(n as int, l as int).contains(x) implies x == q
                    || g0.nbrs(n as int, l as int).contains(x) by {
                    let k = choose|k: int|
                        0 <= k < new_list.len() && new_list[k] == x;
                    if k < new_list.len() - 1 {
                        assert(g0.nbrs(n as int, l as int)[k] == x);
                    }
                }
                self.lemma_relink_wf(g0, n as int, l as int, q as int);
            }
        } else {
            let mut cpool: Vec<Scored> = Vec::new();
            let qs = scorer.score_pair(n, q);
            pool_insert(&mut cpool, Scored { id: q, score: qs }, cap + 1);
            let mut i: usize = 0;
            while i < list.len()
                invariant
                    scorer.wf(),
                    self.capacity as int <= scorer.limit(),
                    *self == g0,
                    g0.wf(),
                    g0.inserted_spec(n as int),
                    l as int <= g0.top_level_spec(n as int),
                    g0.layer_ok(n as int, l as int),
                    n < g0.links@.len(),
                    q < g0.links@.len(),
                    list@ == g0.nbrs(n as int, l as int),
                    !g0.nbrs(n as int, l as int).contains(q),
                    n != q,
                    cap as int == g0.layer_cap(l as int),
                    cap < usize::MAX,
                    i <= list@.len(),
                    list@.len() <= cap,
                    sorted_better(cpool@),
                    distinct_ids(cpool@),
                    cpool@.len() == i + 1,
                    forall|k: int|
                        0 <= k < cpool@.len() ==> ((#[trigger] cpool@[k]).id == q || exists|a: int|
                            0 <= a < i && list@[a] == cpool@[k].id),
                decreases list@.len() - i,
            {
                let x = list[i];
                proof {
                    assert(list@[i as int] == x);
                    assert(g0.nbrs(n as int, l as int).contains(x)) by {
                        assert(g0.nbrs(n as int, l as int)[i as int] == x);
                    }
                    assert(x != q);
                    assert(!contains_id(cpool@, x)) by {
                        if contains_id(cpool@, x) {
                            let k = choose|k: int| 0 <= k < cpool@.len() && cpool@[k].id == x;
                            assert(cpool@[k].id == q || exists|a: int|
                                0 <= a < i && list@[a] == cpool@[k].id);
                            let a = choose|a: int| 0 <= a < i && list@[a] == cpool@[k].id;
                            assert(g0.nbrs(n as int, l as int)[a] != g0.nbrs(
                                n as int,
                                l as int,
                            )[i as int]);
                        }
                    }
                    assert((x as int) < scorer.limit()) by {
                        assert(g0.nbrs(n as int, l as int)[i as int] == x);
                    }
                }
                let xs = scorer.score_pair(n, x);
                let ghost prev = cpool@;
                pool_insert(&mut cpool, Scored { id: x, score: xs }, cap + 1);
                proof {
                    assert forall|k: int|
                        0 <= k < cpool@.len() implies ((#[trigger] cpool@[k]).id == q || exists|a: int|
                            0 <= a < i + 1 && list@[a] == cpool@[k].id) by {
                        if cpool@[k] == (Scored { id: x, score: xs }) {
                            assert(list@[i as int] == cpool@[k].id);
                        } else {
                            assert(prev.contains(cpool@[k]));
                            let b = choose|b: int| 0 <= b < prev.len() && prev[b] == cpool@[k];
                            assert(prev[b].id == q || exists|a: int|
                                0 <= a < i && list@[a] == prev[b].id);
                        }
                    }
                }
                i += 1;
            }
            proof {
                assert forall|k: int|
                    0 <= k < cpool@.len() implies ((#[trigger] cpool@[k]).id as int)
                    < scorer.limit() by {
                    if cpool@[k].id != q {
                        let a = choose|a: int| 0 <= a < list@.len() && list@[a] == cpool@[k].id;
                        assert(g0.nbrs(n as int, l as int)[a] == cpool@[k].id);
                    }
                }
            }
            let sel = self.select_neighbors(&cpool, cap, scorer);
            let ids = ids_of(&sel);
            let ghost new_list = ids@;
            proof {
                assert forall|k: int|
                    0 <= k < new_list.len() implies (new_list[k] == q || g0.nbrs(
                        n as int,
                        l as int,
                    ).contains(#[trigger] new_list[k])) by {
                    assert(cpool@.contains(sel@[k]));
                    let b = choose|b: int| 0 <= b < cpool@.len() && cpool@[b] == sel@[k];
                    assert(cpool@[b].id == q || exists|a: int|
                        0 <= a < list@.len() && list@[a] == cpool@[b].id);
                    if cpool@[b].id != q {
                        let a = choose|a: int|
                            0 <= a < list@.len() && list@[a] == cpool@[b].id;
                        assert(g0.nbrs(n as int, l as int)[a] == new_list[k]);
                    }
                }
                assert forall|a: int, b: int|
                    0 <= a < b < new_list.len() implies new_list[a] != new_list[b] by {
                    assert(sel@[a].id != sel@[b].id);
                }
            }
            self.set_layer(n, l, ids);
            proof {
                assert(self.nbrs(n as int, l as int) == new_list);
                assert forall|x: usize| self.nbrs(n as int, l as int).contains(x) implies x == q
                    || g0.nbrs(n as int, l as int).contains(x) by {
                    let k = choose|k: int| 0 <= k < new_list.len() && new_list[k] == x;
                    assert(new_list[k] == q || g0.nbrs(n as int, l as int).contains(new_list[k]));
                }
                assert(g0.nbrs(n as int, l as int).len() == g0.layer_cap(l as int));
                self.lemma_relink_wf(g0, n as int, l as int, q as int);
            }
        }
    }

    /// After replacing `n`'s layer-`l` list with one whose members are
    /// drawn from the old list plus the on-layer point `q`, within
    /// capacity, distinct and free of self-loops, the graph invariant
    /// still holds.
    proof fn lemma_relink_wf(self, g0: Graph, n: int, l: int, q: int)
        requires
            g0.wf(),
            g0.inserted_spec(n),
            g0.inserted_spec(q),
            n != q,
            l <= g0.top_level_spec(n),
            l <= g0.top_level_spec(q),
            self.params == g0.params,
            self.capacity == g0.capacity,
            self.entry == g0.entry,
            self.links@.len() == g0.links@.len(),
            forall|p: int| 0 <= p < g0.links@.len() && p != n ==> self.links@[p] == g0.links@[p],
            self.links@[n]@.len() == g0.links@[n]@.len(),
            forall|l2: int|
                0 <= l2 < g0.links@[n]@.len() && l2 != l ==> (#[trigger] self.links@[n]@[l2])@
                    == g0.links@[n]@[l2]@,
            self.nbrs(n, l).len() <= g0.layer_cap(l),
            forall|a: int, b: int|
                0 <= a < b < self.nbrs(n, l).len() ==> self.nbrs(n, l)[a] != self.nbrs(n, l)[b],
            forall|x: usize|
                #[trigger] self.nbrs(n, l).contains(x) ==> x as int == q || g0.nbrs(n, l).contains(
                    x,
                ),
        ensures
            self.wf(),
            forall|p: int| self.inserted_spec(p) == g0.inserted_spec(p),
            forall|p: int|
                #[trigger] self.inserted_spec(p) ==> self.top_level_spec(p) == g0.top_level_spec(p),
    {
        assert forall|p: int| self.inserted_spec(p) == g0.inserted_spec(p) by {
            if 0 <= p < g0.links@.len() {
                if p != n {
                    assert(self.links@[p] == g0.links@[p]);
                }
            }
        }
        assert forall|p: int| #[trigger] self.inserted_spec(p) implies self.top_level_spec(p)
            == g0.top_level_spec(p) by {
            if p != n {
                assert(self.links@[p] == g0.links@[p]);
            }
        }
        assert forall|p: int| #[trigger] self.inserted_spec(p) implies self.point_ok(p) by {
            assert(g0.inserted_spec(p));
            assert(g0.point_ok(p));
            assert forall|l2: int| 0 <= l2 < self.links@[p]@.len() implies self.layer_ok(p, l2) by {
                assert(g0.layer_ok(p, l2));
                if p == n && l2 == l {
                    let ns = self.nbrs(n, l);
                    assert forall|k: int| 0 <= k < ns.len() implies {
                        &&& (#[trigger] ns[k]) as int != n
                        &&& (ns[k] as int) < self.links@.len()
                        &&& self.inserted_spec(ns[k] as int)
                        &&& self.top_level_spec(ns[k] as int) >= l
                    } by {
                        assert(ns.contains(ns[k]));
                        if ns[k] as int == q {
                            assert(self.inserted_spec(q));
                        } else {
                            assert(g0.nbrs(n, l).contains(ns[k]));
                            let a = choose|a: int|
                                0 <= a < g0.nbrs(n, l).len() && g0.nbrs(n, l)[a] == ns[k];
                            assert(g0.nbrs(n, l)[a] == ns[k]);
                        }
                    }
                } else {
                    let ns = self.nbrs(p, l2);
                    assert(ns == g0.nbrs(p, l2));
                    assert forall|k: int| 0 <= k < ns.len() implies {
                        &&& (#[trigger] ns[k]) as int != p
                        &&& (ns[k] as int) < self.links@.len()
                        &&& self.inserted_spec(ns[k] as int)
                        &&& self.top_level_spec(ns[k] as int) >= l2
                    } by {
                        assert(g0.nbrs(p, l2)[k] == ns[k]);
                    }
                }
            }
        }
        match self.entry {
            Option::None => {
                assert(g0.entry is None);
            },
            Option::Some(e) => {
                assert(g0.entry == Option::Some(e));
            },
        }
    }
}

/// A freshly selected neighbor list for point `q` at layer `l` of graph
/// `g`: within the layer capacity, duplicate free, and made of inserted
/// points other than `q` that participate in layer `l`.
pub open spec fn layer_sel_ok(g: Graph, q: usize, ids: Seq<usize>, l: int) -> bool {
    &&& ids.len() <= g.layer_cap(l)
    &&& forall|a: int, b: int| 0 <= a < b < ids.len() ==> ids[a] != ids[b]
    &&& forall|k: int|
        0 <= k < ids.len() ==> {
            &&& (#[trigger] ids[k]) != q
            &&& (ids[k] as int) < g.links@.len()
            &&& g.inserted_spec(ids[k] as int)
            &&& g.top_level_spec(ids[k] as int) >= l
        }
}

/// Link symmetry with eviction: the `k`-th neighbor `nb` that `post` gives
/// point `q` at layer `l` either points back at `q`, or `nb`'s list was
/// already at capacity in `pre`, so `q` lost the eviction there.
pub open spec fn symmetric_or_evicted(pre: Graph, post: Graph, q: usize, l: int, k: int) -> bool {
    let nb = post.nbrs(q as int, l)[k] as int;
    post.nbrs(nb, l).contains(q) || pre.nbrs(nb, l).len() == post.layer_cap(l)
}

impl Graph {
    /// Insert a new point at its sampled level: greedy-descend through the
    /// layers above it, then on each layer it joins run the bounded search,
    /// select a bounded neighbor set, link both directions (evicting a
    /// weaker neighbor from a full list), and finally raise the entry point
    /// if the new point tops the graph. Calling it twice for one id is
    /// ruled out by contract, as is an id outside the declared capacity.
    pub fn insert<S: Scorer>(&mut self, point_id: usize, level: usize, scorer: &S)
        requires
            old(self).wf(),
            scorer.wf(),
            old(self).capacity as int <= scorer.limit(),
            point_id < old(self).capacity,
            !old(self).inserted_spec(point_id as int),
            level <= old(self).params.max_level,
        ensures
            final(self).wf(),
            final(self).params == old(self).params,
            final(self).capacity == old(self).capacity,
            final(self).inserted_spec(point_id as int),
            final(self).top_level_spec(point_id as int) == level as int,
            forall|p: int|
                #[trigger] final(self).inserted_spec(p)
                    <==> (old(self).inserted_spec(p) || p == point_id as int),
            forall|p: int|
                #[trigger] old(self).inserted_spec(p)
                    ==> final(self).top_level_spec(p) == old(self).top_level_spec(p),
            forall|l: int, k: int|
                0 <= l <= level as int && 0 <= k < final(self).nbrs(point_id as int, l).len()
                    ==> #[trigger] symmetric_or_evicted(*old(self), *final(self), point_id, l, k),
            old(self).entry is Some ==> forall|l: int|
                0 <= l <= level as int && l <= old(self).entry->0.level as int
                    ==> final(self).nbrs(point_id as int, l).len() >= 1,
            forall|p: int, l: int, x: usize|
                old(self).inserted_spec(p) && p != point_id as int && 0 <= l <= old(
                    self,
                ).top_level_spec(p) && #[trigger] final(self).nbrs(p, l).contains(x)
                    ==> x == point_id || old(self).nbrs(p, l).contains(x),
            final(self).entry == (match old(self).entry {
                Option::None => Option::Some(EntryPoint { id: point_id, level }),
                Option::Some(e) => if level > e.level {
                    Option::Some(EntryPoint { id: point_id, level })
                } else {
                    old(self).entry
                },
            }),
    {
        let ghost gpre = *self;
        match self.entry {
            Option::None => {
                let mut layers: Vec<Vec<usize>> = Vec::new();
                while layers.len() < level + 1
                    invariant
                        level < usize::MAX,
                        layers@.len() <= level + 1,
                        forall|k: int|
                            0 <= k < layers@.len() ==> (#[trigger] layers@[k])@.len() == 0,
                    decreases level + 1 - layers@.len(),
                {
                    layers.push(Vec::new());
                }
                self.set_point(point_id, layers);
                self.entry = Option::Some(EntryPoint { id: point_id, level });
                proof {
                    assert forall|p: int| #[trigger] self.inserted_spec(p) implies p
                        == point_id as int by {
                        if p != point_id as int && 0 <= p < gpre.links@.len() {
                            assert(!gpre.inserted_spec(p));
                            assert(self.links@[p] == gpre.links@[p]);
                        }
                    }
                    assert(self.inserted_spec(point_id as int));
                    assert(self.top_level_spec(point_id as int) == level as int);
                    assert forall|p: int| #[trigger] self.inserted_spec(p) implies self.point_ok(
                        p,
                    ) by {
                        assert(p == point_id as int);
                        assert forall|l2: int|
                            0 <= l2 < self.links@[p]@.len() implies self.layer_ok(p, l2) by {
                            assert(self.nbrs(p, l2).len() == 0);
                        }
                    }
                    assert(self.wf());
                }
            },
            Option::Some(e) => {
                let eid = e.id;
                let elevel = e.level;
                let lc0 = if level < elevel {
                    level
                } else {
                    elevel
                };
                let escore = scorer.score(eid);
                let mut ep = Scored { id: eid, score: escore };
                let mut lcur = elevel;
                while lcur > level
                    invariant
                        *self == gpre,
                        gpre.wf(),
                        scorer.wf(),
                        gpre.capacity as int <= scorer.limit(),
                        lc0 <= level,
                        lcur >= lc0,
                        gpre.inserted_spec(ep.id as int),
                        gpre.top_level_spec(ep.id as int) >= lcur as int,
                        ep.score == scorer.score_spec(ep.id as int),
                    decreases lcur,
                {
                    ep = self.greedy_at_layer(ep, lcur, scorer);
                    lcur -= 1;
                }
                let efc = self.params.ef_construct;
                let mut new_layers: Vec<Vec<usize>> = Vec::new();
                while new_layers.len() < level + 1
                    invariant
                        level < usize::MAX,
                        new_layers@.len() <= level + 1,
                        forall|k: int|
                            0 <= k < new_layers@.len() ==> (#[trigger] new_layers@[k])@.len()
                                == 0,
                    decreases level + 1 - new_layers@.len(),
                {
                    new_layers.push(Vec::new());
                }
                let mut l2 = lc0 + 1;
                while l2 > 0
                    invariant
                        *self == gpre,
                        gpre.wf(),
                        scorer.wf(),
                        gpre.capacity as int <= scorer.limit(),
                        point_id < gpre.capacity,
                        !gpre.inserted_spec(point_id as int),
                        efc == gpre.params.ef_construct,
                        efc >= 1,
                        lc0 <= level,
                        l2 <= lc0 + 1,
                        gpre.inserted_spec(ep.id as int),
                        gpre.top_level_spec(ep.id as int) >= l2 as int - 1,
                        ep.score == scorer.score_spec(ep.id as int),
                        new_layers@.len() == level + 1,
                        forall|ll: int|
                            l2 <= ll <= level ==> layer_sel_ok(
                                gpre,
                                point_id,
                                (#[trigger] new_layers@[ll])@,
                                ll,
                            ),
                        forall|ll: int|
                            l2 <= ll <= lc0 ==> (#[trigger] new_layers@[ll])@.len() >= 1,
                    decreases l2,
                {
                    l2 -= 1;
                    let cap_l = if l2 == 0 {
                        self.params.m0
                    } else {
                        self.params.m
                    };
                    let cands = self.search_layer(ep, l2, efc, scorer, false);
                    ep = cands[0];
                    proof {
                        assert forall|k: int|
                            0 <= k < cands@.len() implies ((#[trigger] cands@[k]).id as int)
                            < scorer.limit() by {
                            assert(gpre.inserted_spec(cands@[k].id as int));
                        }
                    }
                    let sel = self.select_neighbors(&cands, cap_l, scorer);
                    let ids = ids_of(&sel);
                    proof {
                        assert forall|a: int, b: int|
                            0 <= a < b < ids@.len() implies ids@[a] != ids@[b] by {
                            assert(sel@[a].id != sel@[b].id);
                        }
                        assert forall|k: int| 0 <= k < ids@.len() implies {
                            &&& (#[trigger] ids@[k]) != point_id
                            &&& (ids@[k] as int) < gpre.links@.len()
                            &&& gpre.inserted_spec(ids@[k] as int)
                            &&& gpre.top_level_spec(ids@[k] as int) >= l2 as int
                        } by {
                            assert(cands@.contains(sel@[k]));
                            let a = choose|a: int|
                                0 <= a < cands@.len() && cands@[a] == sel@[k];
                            assert(cands@[a] == sel@[k]);
                            assert(gpre.inserted_spec(sel@[k].id as int));
                        }
                        assert(layer_sel_ok(gpre, point_id, ids@, l2 as int));
                        assert(ids@.len() >= 1);
                    }
                    new_layers.set(l2, ids);
                }
                self.set_point(point_id, new_layers);
                if level > elevel {
                    self.entry = Option::Some(EntryPoint { id: point_id, level });
                }
                let ghost g2 = *self;
                proof {
                    assert(forall|p: int|
                        0 <= p < gpre.links@.len() && p != point_id as int
                            ==> g2.links@[p] == gpre.links@[p]);
                    assert(g2.links@[point_id as int]@.len() == level + 1);
                    assert(g2.inserted_spec(point_id as int));
                    assert(g2.top_level_spec(point_id as int) == level as int);
                    assert(forall|ll: int|
                        0 <= ll <= lc0 ==> g2.nbrs(point_id as int, ll).len() >= 1);
                    assert forall|p: int| #[trigger] g2.inserted_spec(p) implies (
                        gpre.inserted_spec(p) || p == point_id as int) by {
                        if p != point_id as int && 0 <= p < gpre.links@.len() {
                            assert(g2.links@[p] == gpre.links@[p]);
                        }
                    }
                    assert(forall|p: int|
                        #[trigger] gpre.inserted_spec(p) ==> g2.inserted_spec(p));
                    assert forall|p: int| #[trigger] gpre.inserted_spec(p) implies (
                        g2.top_level_spec(p) == gpre.top_level_spec(p)) by {
                        assert(g2.links@[p] == gpre.links@[p]);
                    }
                    assert forall|p: int| #[trigger] g2.inserted_spec(p) implies g2.point_ok(
                        p,
                    ) by {
                        if p == point_id as int {
                            assert forall|ll: int|
                                0 <= ll < g2.links@[p]@.len() implies g2.layer_ok(p, ll) by {
                                assert(layer_sel_ok(gpre, point_id, g2.nbrs(p, ll), ll));
                            }
                        } else {
                            assert(gpre.inserted_spec(p));
                            assert(gpre.point_ok(p));
                            assert(g2.links@[p] == gpre.links@[p]);
                            assert forall|ll: int|
                                0 <= ll < g2.links@[p]@.len() implies g2.layer_ok(p, ll) by {
                                assert(gpre.layer_ok(p, ll));
                                let ns = g2.nbrs(p, ll);
                                assert(ns == gpre.nbrs(p, ll));
                                assert forall|k: int| 0 <= k < ns.len() implies {
                                    &&& (#[trigger] ns[k]) as int != p
                                    &&& (ns[k] as int) < g2.links@.len()
                                    &&& g2.inserted_spec(ns[k] as int)
                                    &&& g2.top_level_spec(ns[k] as int) >= ll
                                } by {
                                    assert(gpre.nbrs(p, ll)[k] == ns[k]);
                                    assert(gpre.inserted_spec(ns[k] as int));
                                }
                            }
                        }
                    }
                    assert(g2.wf());
                    assert forall|p: int, ll: int|
                        0 <= p < g2.links@.len() && p != point_id as int && 0 <= ll
                            < g2.links@[p]@.len() implies !(#[trigger] g2.nbrs(p, ll).contains(
                        point_id)) by {
                        if g2.nbrs(p, ll).contains(point_id) {
                            assert(gpre.inserted_spec(p));
                            assert(gpre.layer_ok(p, ll));
                            let k = choose|k: int|
                                0 <= k < g2.nbrs(p, ll).len() && g2.nbrs(p, ll)[k] == point_id;
                            assert(gpre.nbrs(p, ll)[k] == point_id);
                            assert(gpre.inserted_spec(point_id as int));
                        }
                    }
                }
                let mut l3 = lc0 + 1;
                while l3 > 0
                    invariant
                        self.wf(),
                        scorer.wf(),
                        g2.wf(),
                        self.capacity as int <= scorer.limit(),
                        l3 <= lc0 + 1,
                        lc0 <= level,
                        point_id < g2.capacity,
                        self.params == g2.params,
                        self.capacity == g2.capacity,
                        self.entry == g2.entry,
                        self.links@.len() == g2.links@.len(),
                        g2.inserted_spec(point_id as int),
                        g2.top_level_spec(point_id as int) == level as int,
                        forall|p: int|
                            #[trigger] self.inserted_spec(p) == g2.inserted_spec(p),
                        forall|p: int|
                            #[trigger] self.inserted_spec(p) ==> self.top_level_spec(p)
                                == g2.top_level_spec(p),
                        forall|ll: int|
                            0 <= ll <= level ==> self.nbrs(point_id as int, ll) == g2.nbrs(
                                point_id as int,
                                ll,
                            ),
                        forall|p: int, ll: int|
                            0 <= p < g2.links@.len() && p != point_id as int && 0 <= ll
                                < g2.links@[p]@.len() && ll < l3 ==> #[trigger] self.nbrs(p, ll)
                                == g2.nbrs(p, ll),
                        forall|p: int, ll: int|
                            0 <= p < g2.links@.len() && p != point_id as int && 0 <= ll
                                < g2.links@[p]@.len() ==> !(#[trigger] g2.nbrs(p, ll).contains(
                            point_id)),
                        forall|p: int|
                            0 <= p < g2.links@.len() && p != point_id as int ==> g2.links@[p]
                                == gpre.links@[p],
                        forall|p: int|
                            0 <= p < g2.links@.len() ==> (#[trigger] self.links@[p])@.len()
                                == g2.links@[p]@.len(),
                        forall|p: int, ll: int, x: usize|
                            0 <= p < g2.links@.len() && p != point_id as int && 0 <= ll
                                < g2.links@[p]@.len() && #[trigger] self.nbrs(p, ll).contains(x)
                                ==> x == point_id || g2.nbrs(p, ll).contains(x),
                        forall|ll: int, k: int|
                            l3 <= ll <= level && 0 <= k < self.nbrs(point_id as int, ll).len()
                                ==> #[trigger] symmetric_or_evicted(
                                gpre,
                                *self,
                                point_id,
                                ll,
                                k,
                            ),
                    decreases l3,
                {
                    l3 -= 1;
                    proof {
                        assert(self.inserted_spec(point_id as int));
                        assert(self.point_ok(point_id as int));
                        assert(self.layer_ok(point_id as int, l3 as int));
                    }
                    let ids = self.neighbors_of(point_id, l3);
                    let ghost idseq = ids@;
                    let mut j: usize = 0;
                    while j < ids.len()
                        invariant
                            self.wf(),
                            scorer.wf(),
                            g2.wf(),
                            self.capacity as int <= scorer.limit(),
                            l3 <= lc0,
                            lc0 <= level,
                            point_id < g2.capacity,
                            j <= ids@.len(),
                            ids@ == idseq,
                            self.params == g2.params,
                            self.capacity == g2.capacity,
                            self.entry == g2.entry,
                            self.links@.len() == g2.links@.len(),
                            g2.inserted_spec(point_id as int),
                            g2.top_level_spec(point_id as int) == level as int,
                            forall|p: int|
                                #[trigger] self.inserted_spec(p) == g2.inserted_spec(p),
                            forall|p: int|
                                #[trigger] self.inserted_spec(p) ==> self.top_level_spec(p)
                                    == g2.top_level_spec(p),
                            forall|ll: int|
                                0 <= ll <= level ==> self.nbrs(point_id as int, ll) == g2.nbrs(
                                    point_id as int,
                                    ll,
                                ),
                            idseq == self.nbrs(point_id as int, l3 as int),
                            forall|a: int, b: int|
                                0 <= a < b < idseq.len() ==> idseq[a] != idseq[b],
                            forall|k: int|
                                0 <= k < idseq.len() ==> {
                                    &&& (#[trigger] idseq[k]) != point_id
                                    &&& (idseq[k] as int) < g2.links@.len()
                                    &&& self.inserted_spec(idseq[k] as int)
                                    &&& self.top_level_spec(idseq[k] as int) >= l3 as int
                                },
                            forall|p: int, ll: int|
                                0 <= p < g2.links@.len() && p != point_id as int && 0 <= ll
                                    < g2.links@[p]@.len() && ll < l3 ==> #[trigger] self.nbrs(
                                    p,
                                    ll,
                                ) == g2.nbrs(p, ll),
                            forall|k: int|
                                j <= k < idseq.len() ==> #[trigger] self.nbrs(
                                    idseq[k] as int,
                                    l3 as int,
                                ) == g2.nbrs(idseq[k] as int, l3 as int),
                            forall|p: int, ll: int|
                                0 <= p < g2.links@.len() && p != point_id as int && 0 <= ll
                                    < g2.links@[p]@.len() ==> !(#[trigger] g2.nbrs(
                                    p,
                                    ll,
                                ).contains(point_id)),
                            forall|p: int|
                                0 <= p < g2.links@.len() && p != point_id as int
                                    ==> g2.links@[p] == gpre.links@[p],
                            forall|p: int|
                                0 <= p < g2.links@.len() ==> (#[trigger] self.links@[p])@.len()
                                    == g2.links@[p]@.len(),
                            forall|p: int, ll: int, x: usize|
                                0 <= p < g2.links@.len() && p != point_id as int && 0 <= ll
                                    < g2.links@[p]@.len() && #[trigger] self.nbrs(
                                    p,
                                    ll,
                                ).contains(x) ==> x == point_id || g2.nbrs(p, ll).contains(x),
                            forall|ll: int, k: int|
                                l3 as int + 1 <= ll <= level && 0 <= k < self.nbrs(
                                    point_id as int,
                                    ll,
                                ).len() ==> #[trigger] symmetric_or_evicted(
                                    gpre,
                                    *self,
                                    point_id,
                                    ll,
                                    k,
                                ),
                            forall|k: int|
                                0 <= k < j ==> (self.nbrs(
                                    (#[trigger] idseq[k]) as int,
                                    l3 as int,
                                ).contains(point_id) || gpre.nbrs(idseq[k] as int, l3 as int).len()
                                    == g2.layer_cap(l3 as int)),
                        decreases idseq.len() - j,
                    {
                        let n = ids[j];
                        let ghost gstep = *self;
                        self.connect(n, point_id, l3, scorer);
                        proof {
                            assert forall|p: int, ll: int, x: usize|
                                0 <= p < g2.links@.len() && p != point_id as int && 0 <= ll
                                    < g2.links@[p]@.len() && #[trigger] self.nbrs(
                                p,
                                ll,
                            ).contains(x) implies x == point_id || g2.nbrs(p, ll).contains(
                                x,
                            ) by {
                                if p == n as int && ll == l3 as int {
                                    assert(gstep.nbrs(p, ll) == g2.nbrs(p, ll));
                                    assert(x == point_id || gstep.nbrs(p, ll).contains(x));
                                } else {
                                    if p != n as int {
                                        assert(self.links@[p] == gstep.links@[p]);
                                    } else {
                                        assert(0 <= ll < gstep.links@[p]@.len());
                                        assert(self.nbrs(p, ll) == gstep.nbrs(p, ll));
                                    }
                                    assert(gstep.nbrs(p, ll).contains(x));
                                }
                            }
                            assert forall|p: int, ll: int|
                                0 <= p < g2.links@.len() && p != point_id as int && 0 <= ll
                                    < g2.links@[p]@.len() && ll < l3 implies #[trigger] self.nbrs(
                                p,
                                ll,
                            ) == g2.nbrs(p, ll) by {
                                assert(gstep.nbrs(p, ll) == g2.nbrs(p, ll));
                                if p != n as int {
                                    assert(self.links@[p] == gstep.links@[p]);
                                } else {
                                    assert(0 <= ll < gstep.links@[p]@.len());
                                    assert(self.nbrs(p, ll) == gstep.nbrs(p, ll));
                                }
                            }
                            assert forall|k: int|
                                j + 1 <= k < idseq.len() implies #[trigger] self.nbrs(
                                idseq[k] as int,
                                l3 as int,
                            ) == g2.nbrs(idseq[k] as int, l3 as int) by {
                                assert(idseq[k] != idseq[j as int]);
                                assert(self.links@[idseq[k] as int]
                                    == gstep.links@[idseq[k] as int]);
                                assert(gstep.nbrs(idseq[k] as int, l3 as int) == g2.nbrs(
                                    idseq[k] as int,
                                    l3 as int,
                                ));
                            }
                            assert(gstep.nbrs(n as int, l3 as int) == g2.nbrs(n as int, l3 as int));
                            assert(g2.nbrs(n as int, l3 as int) == gpre.nbrs(n as int, l3 as int));
                            assert forall|k: int|
                                0 <= k < j + 1 implies (self.nbrs(
                                    (#[trigger] idseq[k]) as int,
                                    l3 as int,
                                ).contains(point_id) || gpre.nbrs(idseq[k] as int, l3 as int).len()
                                    == g2.layer_cap(l3 as int)) by {
                                if k < j {
                                    if idseq[k] != n {
                                        assert(self.links@[idseq[k] as int]
                                            == gstep.links@[idseq[k] as int]);
                                    } else {
                                        assert(idseq[k] != idseq[j as int]);
                                    }
                                } else {
                                    assert(idseq[k] == n);
                                }
                            }
                            assert forall|ll: int, k: int|
                                l3 as int + 1 <= ll <= level && 0 <= k < self.nbrs(
                                    point_id as int,
                                    ll,
                                ).len() implies #[trigger] symmetric_or_evicted(
                                gpre,
                                *self,
                                point_id,
                                ll,
                                k,
                            ) by {
                                assert(symmetric_or_evicted(gpre, gstep, point_id, ll, k));
                                assert(gstep.inserted_spec(point_id as int));
                                assert(gstep.point_ok(point_id as int));
                                assert(gstep.layer_ok(point_id as int, ll));
                                let nbu = gstep.nbrs(point_id as int, ll)[k];
                                let nb = nbu as int;
                                assert((nbu as int) < gstep.links@.len()
                                    && gstep.top_level_spec(nbu as int) >= ll);
                                assert(self.nbrs(point_id as int, ll) == gstep.nbrs(
                                    point_id as int,
                                    ll,
                                ));
                                if nb != n as int {
                                    assert(self.links@[nb] == gstep.links@[nb]);
                                } else {
                                    assert(0 <= ll < gstep.links@[nb]@.len());
                                    assert(self.nbrs(nb, ll) == gstep.nbrs(nb, ll));
                                }
                            }
                        }
                        j += 1;
                    }
                    proof {
                        assert forall|ll: int, k: int|
                            l3 <= ll <= level && 0 <= k < self.nbrs(point_id as int, ll).len()
                                implies #[trigger] symmetric_or_evicted(
                            gpre,
                            *self,
                            point_id,
                            ll,
                            k,
                        ) by {
                            if ll == l3 as int {
                                assert(self.nbrs(point_id as int, ll) == idseq);
                                assert(self.nbrs((idseq[k]) as int, l3 as int).contains(point_id)
                                    || gpre.nbrs(idseq[k] as int, l3 as int).len()
                                    == g2.layer_cap(l3 as int));
                            }
                        }
                    }
                }
                proof {
                    assert forall|l: int|
                        0 <= l <= level as int && l <= elevel as int implies self.nbrs(
                        point_id as int,
                        l,
                    ).len() >= 1 by {
                        assert(self.nbrs(point_id as int, l) == g2.nbrs(point_id as int, l));
                    }
                    assert forall|p: int, l: int, x: usize|
                        gpre.inserted_spec(p) && p != point_id as int && 0 <= l
                            <= gpre.top_level_spec(p) && #[trigger] self.nbrs(p, l).contains(x)
                            implies x == point_id || gpre.nbrs(p, l).contains(x) by {
                        assert(g2.links@[p] == gpre.links@[p]);
                        assert(0 <= l < g2.links@[p]@.len());
                    }
                }
            },
        }
    }
}

impl Graph {
    /// Search the graph for the best `top_k` points: greedy descent from
    /// the entry point down to layer one, then the bounded best-first
    /// search at layer zero with beam width `max(ef, top_k)`. Every
    /// returned record is an inserted point with its exact score, results
    /// are strictly ordered best first with ties broken by id, only
    /// eligible points are returned, an empty graph yields an empty
    /// result, and on an unfiltered scorer a non-empty graph always
    /// yields at least one result, never scoring worse at the top than
    /// the entry point itself.
    pub fn search<S: Scorer>(&self, top_k: usize, ef: usize, scorer: &S) -> (r: Vec<Scored>)
        requires
            self.wf(),
            scorer.wf(),
            self.capacity as int <= scorer.limit(),
            ef >= 1,
        ensures
            r@.len() <= top_k,
            sorted_better(r@),
            distinct_ids(r@),
            forall|i: int|
                0 <= i < r@.len() ==> {
                    &&& self.inserted_spec((#[trigger] r@[i]).id as int)
                    &&& r@[i].score == scorer.score_spec(r@[i].id as int)
                    &&& scorer.eligible_spec(r@[i].id as int)
                },
            self.entry is None ==> r@.len() == 0,
            (self.entry is Some && top_k >= 1 && (forall|p: int|
                0 <= p < self.capacity ==> scorer.eligible_spec(p))) ==> (r@.len() >= 1
                && r@[0].score >= scorer.score_spec(self.entry->0.id as int)),
    {
        match self.entry {
            Option::None => Vec::new(),
            Option::Some(e) => {
                let eid = e.id;
                let elevel = e.level;
                let escore = scorer.score(eid);
                let mut ep = Scored { id: eid, score: escore };
                let mut lcur = elevel;
                while lcur > 0
                    invariant
                        self.wf(),
                        scorer.wf(),
                        self.capacity as int <= scorer.limit(),
                        self.inserted_spec(ep.id as int),
                        self.top_level_spec(ep.id as int) >= lcur as int,
                        ep.score == scorer.score_spec(ep.id as int),
                        ep.score >= escore,
                    decreases lcur,
                {
                    ep = self.greedy_at_layer(ep, lcur, scorer);
                    lcur -= 1;
                }
                let beam = if ef > top_k {
                    ef
                } else {
                    top_k
                };
                let cands = self.search_layer(ep, 0, beam, scorer, true);
                let mut out = cands;
                out.truncate(top_k);
                proof {
                    assert(forall|i: int| 0 <= i < out@.len() ==> out@[i] == cands@[i]);
                    if top_k >= 1 && (forall|p: int|
                        0 <= p < self.capacity ==> scorer.eligible_spec(p)) {
                        assert(scorer.eligible_spec(ep.id as int));
                        assert(cands@.len() >= 1);
                        assert(out@.len() >= 1);
                        assert(out@[0] == cands@[0]);
                        assert(cands@[0].score >= ep.score);
                    }
                }
                out
            },
        }
    }
}

/// Layer containment: an inserted point participates in every layer from
/// zero up to its top level — its layer range is contiguous with no gaps —
/// and in no layer above it.
pub proof fn lemma_layer_containment(g: Graph, p: int)
    requires
        g.wf(),
        g.inserted_spec(p),
    ensures
        g.top_level_spec(p) >= 0,
        g.links@[p]@.len() == g.top_level_spec(p) + 1,
{
}

/// Capacity bound: no neighbor list of an inserted point exceeds its
/// layer's capacity, `m0` at layer zero and `m` above.
pub proof fn lemma_capacity_bound(g: Graph, p: int, l: int)
    requires
        g.wf(),
        g.inserted_spec(p),
        0 <= l <= g.top_level_spec(p),
    ensures
        l == 0 ==> g.nbrs(p, l).len() <= g.params.m0 as int,
        l >= 1 ==> g.nbrs(p, l).len() <= g.params.m as int,
{
    assert(g.point_ok(p));
    assert(g.layer_ok(p, l));
}

/// No self-loops and no duplicates: a neighbor list never contains the
/// point itself and never repeats an id; every member is itself an
/// inserted point participating in the same layer.
pub proof fn lemma_neighbor_lists_clean(g: Graph, p: int, l: int)
    requires
        g.wf(),
        g.inserted_spec(p),
        0 <= l <= g.top_level_spec(p),
    ensures
        forall|k: int| 0 <= k < g.nbrs(p, l).len() ==> (#[trigger] g.nbrs(p, l)[k]) as int != p,
        forall|a: int, b: int|
            0 <= a < b < g.nbrs(p, l).len() ==> g.nbrs(p, l)[a] != g.nbrs(p, l)[b],
        forall|k: int|
            0 <= k < g.nbrs(p, l).len() ==> g.inserted_spec((#[trigger] g.nbrs(p, l)[k]) as int)
                && g.top_level_spec(g.nbrs(p, l)[k] as int) >= l,
{
    assert(g.point_ok(p));
    assert(g.layer_ok(p, l));
}

/// The entry point, when present, is an inserted point at the highest
/// occupied layer of the graph; when absent, the graph is empty.
pub proof fn lemma_entry_point_topmost(g: Graph)
    requires
        g.wf(),
    ensures
        g.entry is None ==> forall|p: int| !(#[trigger] g.inserted_spec(p)),
        g.entry is Some ==> {
            &&& g.inserted_spec(g.entry->0.id as int)
            &&& g.top_level_spec(g.entry->0.id as int) == g.entry->0.level as int
            &&& forall|p: int|
                #[trigger] g.inserted_spec(p) ==> g.top_level_spec(p) <= g.entry->0.level as int
        },
{
}

} // verus!
