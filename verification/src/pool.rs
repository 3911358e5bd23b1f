//! The bounded best-`ef` pool: the combinatorial primitive shared by
//! construction and search. Entries are kept strictly ordered, best first,
//! and insertion past the capacity evicts the worst entry.

use vstd::prelude::*;

verus! {

/// A candidate or result record: a point id paired with its similarity score.
#[derive(Clone, Copy, PartialEq, Eq, Structural, Debug)]
pub struct Scored {
    pub id: usize,
    pub score: i64,
}

/// Strict preference order on scored records: a higher score wins, and a
/// tie on the score is broken by the smaller point id, so that every
/// ordering the library produces is deterministic.
pub open spec fn better(a: Scored, b: Scored) -> bool {
    a.score > b.score || (a.score == b.score && a.id < b.id)
}

/// The records of `s` are strictly ordered best-first.
pub open spec fn sorted_better(s: Seq<Scored>) -> bool {
    forall|i: int, j: int| 0 <= i < j < s.len() ==> better(s[i], s[j])
}

/// No point id occurs twice in `s`.
pub open spec fn distinct_ids(s: Seq<Scored>) -> bool {
    forall|i: int, j: int| 0 <= i < j < s.len() ==> s[i].id != s[j].id
}

/// Some record of `s` carries the point id `id`.
pub open spec fn contains_id(s: Seq<Scored>, id: usize) -> bool {
    exists|i: int| 0 <= i < s.len() && s[i].id == id
}

/// The preference order is total over records with distinct ids.
pub proof fn lemma_better_total(a: Scored, b: Scored)
    requires
        a.id != b.id,
    ensures
        better(a, b) || better(b, a),
{
}

/// The preference order is transitive.
pub proof fn lemma_better_transitive(a: Scored, b: Scored, c: Scored)
    requires
        better(a, b),
        better(b, c),
    ensures
        better(a, c),
{
}

/// Deterministic ordering: a strictly ordered record list is uniquely
/// determined by which records it holds, so two orderings of the same
/// records — as every result the library returns is ordered — are equal.
pub proof fn lemma_sorted_unique(a: Seq<Scored>, b: Seq<Scored>)
    requires
        sorted_better(a),
        sorted_better(b),
        forall|x: Scored| a.contains(x) <==> b.contains(x),
    ensures
        a == b,
    decreases a.len(),
{
    if a.len() == 0 {
        if b.len() > 0 {
            assert(b.contains(b[0]));
            assert(a.contains(b[0]));
        }
        assert(a =~= b);
    } else {
        assert(a.contains(a[0]));
        assert(b.contains(a[0]));
        assert(b.len() > 0);
        let i = choose|i: int| 0 <= i < b.len() && b[i] == a[0];
        if i > 0 {
            assert(better(b[0], b[i]));
            assert(a.contains(b[0]));
            let j = choose|j: int| 0 <= j < a.len() && a[j] == b[0];
            if j > 0 {
                assert(better(a[0], a[j]));
            }
        }
        assert(a[0] == b[0]);
        let at = a.drop_first();
        let bt = b.drop_first();
        assert forall|x: Scored| at.contains(x) implies bt.contains(x) by {
            let k = choose|k: int| 0 <= k < at.len() && at[k] == x;
            assert(a[k + 1] == x);
            assert(better(a[0], x));
            assert(a.contains(x));
            assert(b.contains(x));
            let i2 = choose|i2: int| 0 <= i2 < b.len() && b[i2] == x;
            assert(i2 != 0);
            assert(bt[i2 - 1] == x);
        }
        assert forall|x: Scored| bt.contains(x) implies at.contains(x) by {
            let k = choose|k: int| 0 <= k < bt.len() && bt[k] == x;
            assert(b[k + 1] == x);
            assert(better(b[0], x));
            assert(b.contains(x));
            assert(a.contains(x));
            let i2 = choose|i2: int| 0 <= i2 < a.len() && a[i2] == x;
            assert(i2 != 0);
            assert(at[i2 - 1] == x);
        }
        assert(sorted_better(at)) by {
            assert forall|p: int, q: int| 0 <= p < q < at.len() implies better(at[p], at[q]) by {
                assert(better(a[p + 1], a[q + 1]));
            }
        }
        assert(sorted_better(bt)) by {
            assert forall|p: int, q: int| 0 <= p < q < bt.len() implies better(bt[p], bt[q]) by {
                assert(better(b[p + 1], b[q + 1]));
            }
        }
        lemma_sorted_unique(at, bt);
        assert(a.len() == b.len());
        assert forall|k: int| 0 <= k < a.len() implies a[k] == b[k] by {
            if k > 0 {
                assert(at[k - 1] == bt[k - 1]);
                assert(a[k] == at[k - 1]);
                assert(b[k] == bt[k - 1]);
            }
        }
        assert(a =~= b);
    }
}

/// Exec counterpart of `better`.
pub fn better_exec(a: &Scored, b: &Scored) -> (r: bool)
    ensures
        r == better(*a, *b),
{
    a.score > b.score || (a.score == b.score && a.id < b.id)
}

/// Insert `e` into the sorted pool, evicting the worst entry when the
/// pool already holds `cap` records. The pool stays sorted and duplicate
/// free, grows by one until full, and only ever drops a record that is
/// worse than everything kept.
pub fn pool_insert(pool: &mut Vec<Scored>, e: Scored, cap: usize)
    requires
        cap >= 1,
        old(pool)@.len() <= cap,
        sorted_better(old(pool)@),
        distinct_ids(old(pool)@),
        !contains_id(old(pool)@, e.id),
    ensures
        sorted_better(final(pool)@),
        distinct_ids(final(pool)@),
        final(pool)@.len() == if old(pool)@.len() < cap {
            old(pool)@.len() as int + 1
        } else {
            cap as int
        },
        forall|i: int|
            0 <= i < final(pool)@.len()
                ==> final(pool)@[i] == e || old(pool)@.contains(#[trigger] final(pool)@[i]),
        forall|x: Scored|
            (old(pool)@.contains(x) || x == e) && !final(pool)@.contains(x)
                ==> forall|i: int|
                    0 <= i < final(pool)@.len() ==> better(#[trigger] final(pool)@[i], x),
        (final(pool)@.contains(e) && old(pool)@.len() >= cap) ==> exists|w: Scored|
            #[trigger] old(pool)@.contains(w) && !final(pool)@.contains(w),
        old(pool)@.len() < cap ==> final(pool)@.contains(e),
        forall|x: Scored|
            #[trigger] old(pool)@.contains(x) && !final(pool)@.contains(x)
                ==> old(pool)@.len() >= cap,
{
    let ghost orig = pool@;
    let mut i: usize = 0;
    while i < pool.len() && (pool[i].score > e.score || (pool[i].score == e.score && pool[i].id < e.id))
        invariant
            i <= pool@.len(),
            pool@ == orig,
            forall|k: int| 0 <= k < i ==> better(#[trigger] pool@[k], e),
        decreases pool@.len() - i,
    {
        i += 1;
    }
    assert(forall|k: int| i <= k < orig.len() ==> better(e, #[trigger] orig[k])) by {
        assert forall|k: int| i <= k < orig.len() implies better(e, #[trigger] orig[k]) by {
            assert(orig[k].id != e.id) by {
                assert(contains_id(orig, orig[k].id));
            }
            if k > i {
                assert(better(orig[i as int], orig[k]));
            }
            lemma_better_total(e, orig[k]);
        }
    }
    pool.insert(i, e);
    let ghost mid = pool@;
    assert(mid == orig.insert(i as int, e));
    assert(mid[i as int] == e);
    assert(forall|k: int| 0 <= k < i ==> mid[k] == orig[k]);
    assert(forall|k: int| i < k < mid.len() ==> mid[k] == orig[k - 1]);
    assert(sorted_better(mid));
    assert(distinct_ids(mid)) by {
        assert forall|a: int, b: int| 0 <= a < b < mid.len() implies mid[a].id != mid[b].id by {
            if a != i && b != i {
                let oa: int = if a < i { a } else { a - 1 };
                let ob: int = if b < i { b } else { b - 1 };
                assert(mid[a] == orig[oa] && mid[b] == orig[ob]);
            } else if a == i {
                assert(mid[b] == orig[b - 1]);
                assert(contains_id(orig, orig[b - 1].id));
            } else {
                assert(mid[a] == orig[a]);
                assert(contains_id(orig, orig[a].id));
            }
        }
    }
    if pool.len() > cap {
        pool.pop();
        assert(pool@ == mid.subrange(0, mid.len() - 1));
        proof {
            let last = mid.len() - 1;
            let w = mid[last];
            assert(forall|k: int| 0 <= k < pool@.len() ==> pool@[k] == mid[k]);
            assert(!pool@.contains(w)) by {
                if pool@.contains(w) {
                    let k = choose|k: int| 0 <= k < pool@.len() && pool@[k] == w;
                    assert(mid[k].id != mid[last].id);
                }
            }
            if w != e {
                assert(w == orig[last - 1]);
                assert(orig.contains(w));
            }
        }
    }
    assert(forall|j: int| 0 <= j < pool@.len() ==> pool@[j] == mid[j]);
    assert forall|x: Scored|
        (orig.contains(x) || x == e) && !pool@.contains(x)
            implies forall|j: int| 0 <= j < pool@.len() ==> better(#[trigger] pool@[j], x) by {
        let last = mid.len() - 1;
        if x == e {
            if i < pool@.len() {
                assert(pool@[i as int] == e);
                assert(pool@.contains(x));
            }
            assert(x == mid[last]);
        } else {
            let k = choose|k: int| 0 <= k < orig.len() && orig[k] == x;
            let mk: int = if k < i { k } else { k + 1 };
            assert(mid[mk] == x);
            if mk < pool@.len() {
                assert(pool@[mk] == x);
                assert(pool@.contains(x));
            }
            assert(mk == last);
        }
        assert forall|j: int| 0 <= j < pool@.len() implies better(#[trigger] pool@[j], x) by {
            assert(better(mid[j], mid[last]));
        }
    }
    assert forall|j: int| 0 <= j < pool@.len() implies pool@[j] == e || orig.contains(#[trigger] pool@[j]) by {
        if j != i {
            let oj: int = if j < i { j } else { j - 1 };
            assert(pool@[j] == orig[oj]);
        }
    }
    proof {
        if orig.len() < cap as nat {
            assert(pool@ == mid);
            assert(pool@[i as int] == e);
            assert(pool@.contains(e));
        }
        assert forall|x: Scored|
            #[trigger] orig.contains(x) && !pool@.contains(x) implies orig.len() >= cap as nat by {
            if orig.len() < cap as nat {
                let k = choose|k: int| 0 <= k < orig.len() && orig[k] == x;
                let mk: int = if k < i {
                    k
                } else {
                    k + 1
                };
                assert(pool@[mk] == x);
                assert(pool@.contains(x));
            }
        }
    }
}

} // verus!
