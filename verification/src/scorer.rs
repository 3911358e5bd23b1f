//! The scoring abstraction: a query-bound similarity function over point
//! ids, optionally composed with an eligibility filter. The graph algorithms
//! depend only on the trait; the library supplies an integer dot-product
//! scorer with an optional eligibility mask.

use vstd::prelude::*;
use crate::pool::Scored;
use crate::pool::better;
use crate::pool::sorted_better;
use crate::pool::distinct_ids;
use crate::pool::contains_id;
use crate::pool::pool_insert;
use crate::pool::lemma_better_transitive;
use crate::HnswError;

verus! {

/// Largest vector dimension the dot-product scorer accepts.
pub const MAX_DIM: usize = 1024;

/// Largest coordinate magnitude the dot-product scorer accepts; together
/// with `MAX_DIM` it keeps every dot product inside `i64`.
pub const MAX_COORD: i64 = 1_000_000;

/// How similarity is computed and which points are eligible. Scores form a
/// consistent total order for a fixed query; higher means more similar.
/// Filtering is independent of scoring and is a search-time concern only.
pub trait Scorer: Sized {
    /// Point ids strictly below this bound can be scored.
    spec fn limit(&self) -> int;

    /// The scorer's own validity; every method assumes it.
    spec fn wf(&self) -> bool;

    /// The similarity of point `id` to the query.
    spec fn score_spec(&self, id: int) -> i64;

    /// Whether point `id` may appear in search results.
    spec fn eligible_spec(&self, id: int) -> bool;

    /// The similarity between the two stored points `a` and `b`.
    spec fn pair_spec(&self, a: int, b: int) -> i64;

    fn score(&self, id: usize) -> (r: i64)
        requires
            self.wf(),
            (id as int) < self.limit(),
        ensures
            r == self.score_spec(id as int),
    ;

    fn is_eligible(&self, id: usize) -> (r: bool)
        requires
            self.wf(),
            (id as int) < self.limit(),
        ensures
            r == self.eligible_spec(id as int),
    ;

    fn score_pair(&self, a: usize, b: usize) -> (r: i64)
        requires
            self.wf(),
            (a as int) < self.limit(),
            (b as int) < self.limit(),
        ensures
            r == self.pair_spec(a as int, b as int),
    ;
}

/// The mathematical dot product of two coordinate sequences.
pub open spec fn dot(a: Seq<i64>, b: Seq<i64>) -> int
    decreases a.len(),
{
    if a.len() == 0 || b.len() == 0 {
        0
    } else {
        a.last() * b.last() + dot(a.drop_last(), b.drop_last())
    }
}

/// Every coordinate of `s` is within the accepted magnitude.
pub open spec fn coords_ok(s: Seq<i64>) -> bool {
    forall|i: int| 0 <= i < s.len() ==> -MAX_COORD <= #[trigger] s[i] <= MAX_COORD
}

/// A dot product of bounded coordinates is bounded by the dimension times
/// the squared coordinate bound.
pub proof fn lemma_dot_bound(a: Seq<i64>, b: Seq<i64>)
    requires
        a.len() == b.len(),
        coords_ok(a),
        coords_ok(b),
    ensures
        -(a.len() * 1_000_000_000_000) <= dot(a, b) <= a.len() * 1_000_000_000_000,
    decreases a.len(),
{
    if a.len() > 0 {
        assert(coords_ok(a.drop_last()));
        assert(coords_ok(b.drop_last()));
        lemma_dot_bound(a.drop_last(), b.drop_last());
        let x = a.last();
        let y = b.last();
        assert(-1_000_000_000_000 <= x * y <= 1_000_000_000_000) by (nonlinear_arith)
            requires
                -1_000_000 <= x <= 1_000_000,
                -1_000_000 <= y <= 1_000_000,
        ;
    }
}

/// Compute the dot product of two equal-length bounded vectors exactly.
pub fn dot_exec(a: &Vec<i64>, b: &Vec<i64>) -> (r: i64)
    requires
        a@.len() == b@.len(),
        a@.len() <= MAX_DIM,
        coords_ok(a@),
        coords_ok(b@),
    ensures
        r as int == dot(a@, b@),
        r == dot(a@, b@) as i64,
{
    let n = a.len();
    let mut acc: i64 = 0;
    let mut k: usize = 0;
    while k < n
        invariant
            k <= n,
            n == a@.len(),
            n == b@.len(),
            n <= MAX_DIM,
            coords_ok(a@),
            coords_ok(b@),
            acc as int == dot(a@.take(k as int), b@.take(k as int)),
            -(k * 1_000_000_000_000) <= acc as int <= k * 1_000_000_000_000,
        decreases n - k,
    {
        let x = a[k];
        let y = b[k];
        proof {
            assert(-1_000_000_000_000 <= x * y <= 1_000_000_000_000) by (nonlinear_arith)
                requires
                    -1_000_000 <= x <= 1_000_000,
                    -1_000_000 <= y <= 1_000_000,
            ;
            lemma_dot_bound(a@.take(k as int), b@.take(k as int));
            assert(a@.take(k + 1).drop_last() =~= a@.take(k as int));
            assert(b@.take(k + 1).drop_last() =~= b@.take(k as int));
            assert(a@.take(k + 1).last() == x);
            assert(b@.take(k + 1).last() == y);
        }
        acc = acc + x * y;
        k += 1;
    }
    proof {
        assert(a@.take(n as int) =~= a@);
        assert(b@.take(n as int) =~= b@);
    }
    acc
}

/// A scorer bound to one query vector: similarity is the integer dot
/// product, and an optional mask marks ineligible point ids.
pub struct DotScorer {
    pub vectors: Vec<Vec<i64>>,
    pub query: Vec<i64>,
    pub mask: Option<Vec<bool>>,
}

/// The inputs from which a well-formed dot-product scorer can be built:
/// all vectors share the query's dimension, the dimension and every
/// coordinate are within the accepted bounds, and a mask, when present,
/// covers exactly the stored points.
pub open spec fn dot_scorer_input_ok(vectors: Seq<Vec<i64>>, query: Seq<i64>, mask: Option<Vec<bool>>) -> bool {
    &&& query.len() <= MAX_DIM
    &&& coords_ok(query)
    &&& forall|i: int|
        0 <= i < vectors.len() ==> (#[trigger] vectors[i])@.len() == query.len() && coords_ok(vectors[i]@)
    &&& match mask {
        Option::None => true,
        Option::Some(m) => m@.len() == vectors.len(),
    }
}

impl DotScorer {
    /// Build a scorer over the stored vectors and one query vector,
    /// rejecting inputs whose dimensions or coordinates are out of bounds.
    pub fn new(vectors: Vec<Vec<i64>>, query: Vec<i64>, mask: Option<Vec<bool>>) -> (r: Result<DotScorer, HnswError>)
        ensures
            r is Ok <==> dot_scorer_input_ok(vectors@, query@, mask),
            r is Err ==> r == Result::<DotScorer, HnswError>::Err(HnswError::InvalidVectors),
            r is Ok ==> {
                &&& r->Ok_0.vectors == vectors
                &&& r->Ok_0.query == query
                &&& r->Ok_0.mask == mask
                &&& r->Ok_0.wf()
            },
    {
        if query.len() > MAX_DIM {
            return Result::Err(HnswError::InvalidVectors);
        }
        if !coords_in_bounds(&query) {
            return Result::Err(HnswError::InvalidVectors);
        }
        let mut i: usize = 0;
        while i < vectors.len()
            invariant
                i <= vectors@.len(),
                forall|j: int|
                    0 <= j < i ==> (#[trigger] vectors@[j])@.len() == query@.len()
                        && coords_ok(vectors@[j]@),
            decreases vectors@.len() - i,
        {
            if vectors[i].len() != query.len() {
                return Result::Err(HnswError::InvalidVectors);
            }
            if !coords_in_bounds(&vectors[i]) {
                return Result::Err(HnswError::InvalidVectors);
            }
            i += 1;
        }
        match &mask {
            Option::None => {},
            Option::Some(m) => {
                if m.len() != vectors.len() {
                    return Result::Err(HnswError::InvalidVectors);
                }
            },
        }
        Result::Ok(DotScorer { vectors, query, mask })
    }
}

/// Check that every coordinate of `v` is within the accepted magnitude.
fn coords_in_bounds(v: &Vec<i64>) -> (r: bool)
    ensures
        r == coords_ok(v@),
{
    let mut i: usize = 0;
    while i < v.len()
        invariant
            i <= v@.len(),
            forall|j: int| 0 <= j < i ==> -MAX_COORD <= #[trigger] v@[j] <= MAX_COORD,
        decreases v@.len() - i,
    {
        if v[i] < -MAX_COORD || v[i] > MAX_COORD {
            return false;
        }
        i += 1;
    }
    true
}

impl Scorer for DotScorer {
    open spec fn limit(&self) -> int {
        self.vectors@.len() as int
    }

    open spec fn wf(&self) -> bool {
        dot_scorer_input_ok(self.vectors@, self.query@, self.mask)
    }

    open spec fn score_spec(&self, id: int) -> i64 {
        dot(self.vectors@[id]@, self.query@) as i64
    }

    open spec fn eligible_spec(&self, id: int) -> bool {
        match self.mask {
            Option::None => true,
            Option::Some(m) => 0 <= id < m@.len() && m@[id],
        }
    }

    open spec fn pair_spec(&self, a: int, b: int) -> i64 {
        dot(self.vectors@[a]@, self.vectors@[b]@) as i64
    }

    fn score(&self, id: usize) -> (r: i64) {
        dot_exec(&self.vectors[id], &self.query)
    }

    fn is_eligible(&self, id: usize) -> (r: bool) {
        match &self.mask {
            Option::None => true,
            Option::Some(m) => m[id],
        }
    }

    fn score_pair(&self, a: usize, b: usize) -> (r: i64) {
        dot_exec(&self.vectors[a], &self.vectors[b])
    }
}

/// Score the given ids against the query and keep the best `limit`
/// eligible records, best first; ineligible ids are silently excluded,
/// and a repeated id is considered once. Every eligible id is either
/// returned or beaten by a full result, so the result is exactly the
/// best `limit` eligible records.
pub fn score_points<S: Scorer>(scorer: &S, ids: &Vec<usize>, limit: usize) -> (r: Vec<Scored>)
    requires
        scorer.wf(),
        limit >= 1,
        forall|i: int| 0 <= i < ids@.len() ==> (#[trigger] ids@[i] as int) < scorer.limit(),
    ensures
        sorted_better(r@),
        distinct_ids(r@),
        r@.len() <= limit,
        forall|i: int|
            0 <= i < r@.len() ==> {
                &&& ids@.contains((#[trigger] r@[i]).id)
                &&& r@[i].score == scorer.score_spec(r@[i].id as int)
                &&& scorer.eligible_spec(r@[i].id as int)
            },
        forall|k: int|
            0 <= k < ids@.len() && scorer.eligible_spec((#[trigger] ids@[k]) as int) ==> (
            contains_id(r@, ids@[k]) || (r@.len() == limit as int && forall|j: int|
                0 <= j < r@.len() ==> better(
                    #[trigger] r@[j],
                    Scored { id: ids@[k], score: scorer.score_spec(ids@[k] as int) },
                ))),
{
    let mut out: Vec<Scored> = Vec::new();
    let mut i: usize = 0;
    while i < ids.len()
        invariant
            scorer.wf(),
            limit >= 1,
            i <= ids@.len(),
            forall|k: int| 0 <= k < ids@.len() ==> (#[trigger] ids@[k] as int) < scorer.limit(),
            sorted_better(out@),
            distinct_ids(out@),
            out@.len() <= limit,
            forall|k: int|
                0 <= k < out@.len() ==> {
                    &&& ids@.contains((#[trigger] out@[k]).id)
                    &&& out@[k].score == scorer.score_spec(out@[k].id as int)
                    &&& scorer.eligible_spec(out@[k].id as int)
                },
            forall|k: int|
                0 <= k < i && scorer.eligible_spec((#[trigger] ids@[k]) as int) ==> (
                contains_id(out@, ids@[k]) || (out@.len() == limit as int && forall|j: int|
                    0 <= j < out@.len() ==> better(
                        #[trigger] out@[j],
                        Scored { id: ids@[k], score: scorer.score_spec(ids@[k] as int) },
                    ))),
        decreases ids@.len() - i,
    {
        let id = ids[i];
        if scorer.is_eligible(id) && !pool_contains_id(&out, id) {
            let e = Scored { id, score: scorer.score(id) };
            let ghost prev = out@;
            pool_insert(&mut out, e, limit);
            proof {
                assert(ids@.contains(id));
                assert forall|k: int| 0 <= k < out@.len() implies {
                    &&& ids@.contains((#[trigger] out@[k]).id)
                    &&& out@[k].score == scorer.score_spec(out@[k].id as int)
                    &&& scorer.eligible_spec(out@[k].id as int)
                } by {
                    if out@[k] != e {
                        assert(prev.contains(out@[k]));
                        let j = choose|j: int| 0 <= j < prev.len() && prev[j] == out@[k];
                        assert(prev[j] == out@[k]);
                    }
                }
                assert forall|k: int|
                    0 <= k < i + 1 && scorer.eligible_spec((#[trigger] ids@[k]) as int) implies (
                    contains_id(out@, ids@[k]) || (out@.len() == limit as int && forall|j: int|
                        0 <= j < out@.len() ==> better(
                            #[trigger] out@[j],
                            Scored { id: ids@[k], score: scorer.score_spec(ids@[k] as int) },
                        ))) by {
                    let x = Scored { id: ids@[k], score: scorer.score_spec(ids@[k] as int) };
                    if ids@[k] == id {
                        assert(x == e);
                        if out@.contains(e) {
                            let j0 = choose|j0: int| 0 <= j0 < out@.len() && out@[j0] == e;
                            assert(out@[j0].id == ids@[k]);
                            assert(contains_id(out@, ids@[k]));
                        } else {
                            assert(prev.len() >= limit as nat);
                            assert(out@.len() == limit as int);
                        }
                    } else {
                        assert(k < i);
                        if contains_id(prev, ids@[k]) {
                            let j0 = choose|j0: int|
                                0 <= j0 < prev.len() && prev[j0].id == ids@[k];
                            assert(prev[j0].score == scorer.score_spec(prev[j0].id as int));
                            assert(prev[j0] == x);
                            assert(prev.contains(x));
                            if out@.contains(x) {
                                let j1 = choose|j1: int|
                                    0 <= j1 < out@.len() && out@[j1] == x;
                                assert(out@[j1].id == ids@[k]);
                                assert(contains_id(out@, ids@[k]));
                            } else {
                                assert(prev.len() >= limit as nat);
                                assert(out@.len() == limit as int);
                            }
                        } else {
                            assert(!contains_id(out@, ids@[k]) ==> (prev.len() == limit as int
                                && forall|j: int|
                                0 <= j < prev.len() ==> better(#[trigger] prev[j], x)));
                            if !contains_id(out@, ids@[k]) {
                                assert(out@.len() == limit as int);
                                assert forall|j: int|
                                    0 <= j < out@.len() implies better(
                                    #[trigger] out@[j],
                                    x,
                                ) by {
                                    if out@[j] == e {
                                        assert(out@.contains(e));
                                        let w = choose|w: Scored|
                                            #[trigger] prev.contains(w) && !out@.contains(w);
                                        let jw = choose|jw: int|
                                            0 <= jw < prev.len() && prev[jw] == w;
                                        assert(better(prev[jw], x));
                                        assert(better(out@[j], w));
                                        lemma_better_transitive(out@[j], w, x);
                                    } else {
                                        assert(prev.contains(out@[j]));
                                        let jp = choose|jp: int|
                                            0 <= jp < prev.len() && prev[jp] == out@[j];
                                        assert(better(prev[jp], x));
                                    }
                                }
                            }
                        }
                    }
                }
            }
        }
        i += 1;
    }
    out
}

/// Whether some record of the pool already carries the id `id`.
pub fn pool_contains_id(pool: &Vec<Scored>, id: usize) -> (r: bool)
    ensures
        r == contains_id(pool@, id),
{
    let mut i: usize = 0;
    while i < pool.len()
        invariant
            i <= pool@.len(),
            forall|k: int| 0 <= k < i ==> (#[trigger] pool@[k]).id != id,
        decreases pool@.len() - i,
    {
        if pool[i].id == id {
            assert(contains_id(pool@, id));
            return true;
        }
        i += 1;
    }
    false
}

} // verus!
