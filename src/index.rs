use crate::graph::{lemma_pulled, Graph, GraphModel, Producer};
use crate::value::{same_value, Value};
use vstd::prelude::*;

verus! {

/// An equality predicate: a producer matches when its current value equals
/// `equal_to`.
pub struct Query {
    pub equal_to: Value,
}

/// A fixed, ordered set of producers, queried by a full scan.
pub struct NoIndex {
    pub rows: Vec<Producer>,
}

/// The positions, in ascending order, of the values equal to `q`.
pub open spec fn positions(vals: Seq<Seq<char>>, q: Seq<char>) -> Seq<usize>
    decreases vals.len(),
{
    if vals.len() == 0 {
        Seq::empty()
    } else {
        let prev = positions(vals.drop_last(), q);
        if vals.last() == q {
            prev.push((vals.len() - 1) as usize)
        } else {
            prev
        }
    }
}

/// The current values of `refs` in `g`, in order.
pub open spec fn values(g: GraphModel, refs: Seq<Producer>) -> Seq<Seq<char>> {
    refs.map_values(|p: Producer| g.value_of(p))
}

/// The graph after reading each of `refs` in order.
pub open spec fn pulled_all(g: GraphModel, refs: Seq<Producer>) -> GraphModel
    decreases refs.len(),
{
    if refs.len() == 0 {
        g
    } else {
        pulled_all(g, refs.drop_last()).pulled(refs.last())
    }
}

/// Every one of `refs` is a live producer of `g`.
pub open spec fn all_live(g: GraphModel, refs: Seq<Producer>) -> bool {
    forall|k: int| 0 <= k < refs.len() ==> g.live(#[trigger] refs[k])
}

/// Reading producers one after another keeps the graph well formed, every
/// producer alive and every value as it was.
pub proof fn lemma_pulled_all(g: GraphModel, refs: Seq<Producer>)
    requires
        g.wf(),
        all_live(g, refs),
    ensures
        pulled_all(g, refs).wf(),
        forall|q: Producer| g.live(q) ==> #[trigger] pulled_all(g, refs).live(q) && pulled_all(
            g,
            refs,
        ).value_of(q) == g.value_of(q),
    decreases refs.len(),
{
    if refs.len() > 0 {
        let front = refs.drop_last();
        assert forall|k: int| 0 <= k < front.len() implies g.live(#[trigger] front[k]) by {
            assert(front[k] == refs[k]);
        }
        lemma_pulled_all(g, front);
        let h = pulled_all(g, front);
        assert(g.live(refs[refs.len() - 1]));
        lemma_pulled(h, refs.last());
    }
}

/// The positions of the values equal to `q` are ascending, lie within
/// `vals`, and are exactly those where `vals` holds `q`.
pub proof fn lemma_positions(vals: Seq<Seq<char>>, q: Seq<char>)
    requires
        vals.len() <= usize::MAX,
    ensures
        forall|j: int, k: int|
            0 <= j < k < positions(vals, q).len() ==> positions(vals, q)[j] < positions(vals, q)[k],
        forall|k: int|
            0 <= k < positions(vals, q).len() ==> (#[trigger] positions(vals, q)[k] as int) < vals.len()
                && vals[positions(vals, q)[k] as int] == q,
        forall|i: int| 0 <= i < vals.len() && vals[i] == q ==> positions(vals, q).contains(i as usize),
    decreases vals.len(),
{
    if vals.len() > 0 {
        let front = vals.drop_last();
        lemma_positions(front, q);
        let prev = positions(front, q);
        let r = positions(vals, q);
        assert forall|i: int| 0 <= i < vals.len() && vals[i] == q implies r.contains(i as usize) by {
            if i < front.len() {
                assert(front[i] == q);
                let k = choose|k: int| 0 <= k < prev.len() && prev[k] == i as usize;
                assert(r[k] == i as usize);
            } else {
                assert(r[r.len() - 1] == i as usize);
            }
        }
    }
}

/// Running a query leaves every value of the index as it was, so running it
/// again on the graph it leaves gives the same positions.
pub proof fn lemma_query_repeatable(g: GraphModel, refs: Seq<Producer>, q: Seq<char>)
    requires
        g.wf(),
        all_live(g, refs),
    ensures
        pulled_all(g, refs).wf(),
        all_live(pulled_all(g, refs), refs),
        positions(values(pulled_all(g, refs), refs), q) == positions(values(g, refs), q),
{
    lemma_pulled_all(g, refs);
    let h = pulled_all(g, refs);
    assert forall|k: int| 0 <= k < refs.len() implies h.live(#[trigger] refs[k]) by {
        assert(g.live(refs[k]));
    }
    assert forall|k: int| 0 <= k < refs.len() implies #[trigger] values(h, refs)[k] == values(g, refs)[k] by {
        assert(g.live(refs[k]));
    }
    assert(values(h, refs) =~= values(g, refs));
}

impl NoIndex {
    /// An index over a copy of `rows`; position `k` is `rows[k]`.
    pub fn new(rows: &Vec<Producer>) -> (r: NoIndex)
        ensures
            r.rows@ == rows@,
    {
        let mut idx = NoIndex { rows: Vec::new() };
        let n = rows.len();
        let mut k: usize = 0;
        while k < n
            invariant
                0 <= k <= n,
                n == rows@.len(),
                idx.rows@ == rows@.take(k as int),
            decreases n - k,
        {
            idx.rows.push(rows[k]);
            proof {
                assert(rows@.take(k + 1) == rows@.take(k as int).push(rows@[k as int]));
            }
            k = k + 1;
        }
        proof {
            assert(rows@.take(n as int) == rows@);
        }
        idx
    }

    /// The positions, in ascending order, of the producers whose current value
    /// equals the query's target. Each producer is read in order, so dirty
    /// transforms recompute and cache their value.
    pub fn run_query(&self, g: &mut Graph, q: &Query) -> (r: Vec<usize>)
        requires
            old(g)@.wf(),
            all_live(old(g)@, self.rows@),
        ensures
            r@ == positions(values(old(g)@, self.rows@), q.equal_to@),
            final(g)@ == pulled_all(old(g)@, self.rows@),
            final(g)@.wf(),
    {
        let ghost g0 = g@;
        let ghost refs = self.rows@;
        let mut result: Vec<usize> = Vec::new();
        let n = self.rows.len();
        let mut pos: usize = 0;
        while pos < n
            invariant
                0 <= pos <= n,
                n == refs.len(),
                refs == self.rows@,
                g0.wf(),
                all_live(g0, refs),
                g@ == pulled_all(g0, refs.take(pos as int)),
                g@.wf(),
                forall|p: Producer| g0.live(p) ==> #[trigger] g@.live(p) && g@.value_of(p) == g0.value_of(p),
                result@ == positions(values(g0, refs.take(pos as int)), q.equal_to@),
            decreases n - pos,
        {
            let e = self.rows[pos];
            assert(g0.live(refs[pos as int]));
            let ghost before = g@;
            let cur = g.get_current(e);
            proof {
                lemma_pulled(before, e);
                let front = refs.take(pos as int);
                let next = refs.take(pos + 1);
                assert(next.drop_last() == front);
                assert(next.last() == e);
                assert(values(g0, next).drop_last() == values(g0, front));
                assert(values(g0, next).len() == pos + 1);
                assert(values(g0, next).last() == g0.value_of(e));
                assert(before.live(e));
                assert(cur@ == g0.value_of(e));
                reveal_with_fuel(positions, 1);
            }
            if same_value(&cur, &q.equal_to) {
                result.push(pos);
            }
            pos = pos + 1;
        }
        proof {
            assert(refs.take(n as int) == refs);
            lemma_pulled_all(g0, refs);
        }
        result
    }
}

} // verus!
