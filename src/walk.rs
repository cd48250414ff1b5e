use vstd::prelude::*;
use rand::seq::SliceRandom;
use crate::square::Square;
use crate::grid::{Grid, Position, adjacent, four_offsets};

verus! {

/// The cells of `s` whose class is Empty, in their order.
pub open spec fn keep_floor(g: &Grid, s: Seq<Position>) -> Seq<Position>
    decreases s.len(),
{
    if s.len() == 0 {
        Seq::empty()
    } else {
        let rest = keep_floor(g, s.drop_last());
        if g.square(s.last()) == Square::Empty {
            rest.push(s.last())
        } else {
            rest
        }
    }
}

/// The cells a random walk may move to from `p`: the four neighbors, in
/// their order, whose class is Empty.
pub open spec fn floor_candidates(g: &Grid, p: Position) -> Seq<Position> {
    keep_floor(g, g.neighbors_spec(p, four_offsets()))
}

/// What a random step may give: `p` itself, or an Empty cell one hop away.
pub open spec fn walk_ok(g: &Grid, p: Position, r: Position) -> bool {
    r == p || (adjacent(p, r) && g.contains(r) && g.square(r) == Square::Empty)
}

pub fn floor_neighbors(g: &Grid, p: Position) -> (r: Vec<Position>)
    requires
        g.wf(),
    ensures
        r@ == floor_candidates(g, p),
        forall|q: Position| #[trigger] r@.contains(q)
            <==> (adjacent(p, q) && g.contains(q) && g.square(q) == Square::Empty),
{
    let ns = g.neighbors_4(p);
    let mut r: Vec<Position> = Vec::new();
    let mut k: usize = 0;
    while k < ns.len()
        invariant
            g.wf(),
            k <= ns@.len(),
            ns@ == g.neighbors_spec(p, four_offsets()),
            forall|q: Position| #[trigger] ns@.contains(q) <==> (adjacent(p, q) && g.contains(q)),
            r@ == keep_floor(g, ns@.take(k as int)),
            forall|q: Position| #[trigger] r@.contains(q)
                <==> (exists|j: int| 0 <= j < k && ns@[j] == q && g.square(q) == Square::Empty),
        decreases ns@.len() - k,
    {
        let q = ns[k];
        assert(ns@.take(k + 1).drop_last() == ns@.take(k as int));
        assert(ns@.contains(q));
        let ghost prev = r@;
        if g.square_at(q) == Square::Empty {
            r.push(q);
        }
        assert forall|t: Position| #[trigger] r@.contains(t)
            <==> (exists|j: int| 0 <= j < k + 1 && ns@[j] == t && g.square(t) == Square::Empty) by {
            if r@.contains(t) {
                let i = choose|i: int| 0 <= i < r@.len() && r@[i] == t;
                if i < prev.len() {
                    assert(prev[i] == t);
                    assert(prev.contains(t));
                } else {
                    assert(ns@[k as int] == t);
                }
            }
            if exists|j: int| 0 <= j < k + 1 && ns@[j] == t && g.square(t) == Square::Empty {
                let j = choose|j: int| 0 <= j < k + 1 && ns@[j] == t && g.square(t) == Square::Empty;
                if j < k {
                    assert(prev.contains(t));
                    let i = choose|i: int| 0 <= i < prev.len() && prev[i] == t;
                    assert(r@[i] == t);
                } else {
                    assert(r@[r@.len() - 1] == t);
                }
            }
        }
        k = k + 1;
    }
    assert(ns@.take(ns@.len() as int) == ns@);
    assert forall|q: Position| #[trigger] r@.contains(q)
        <==> (adjacent(p, q) && g.contains(q) && g.square(q) == Square::Empty) by {
        if adjacent(p, q) && g.contains(q) && g.square(q) == Square::Empty {
            assert(ns@.contains(q));
            let j = choose|j: int| 0 <= j < ns@.len() && ns@[j] == q;
        }
        if r@.contains(q) {
            let j = choose|j: int| 0 <= j < ns@.len() && ns@[j] == q && g.square(q) == Square::Empty;
            assert(ns@.contains(q));
        }
    }
    r
}

/// Relies on rand's `SliceRandom::choose` with the thread-local generator:
/// `None` for an empty slice, else one of its elements.
#[verifier::external_body]
fn choose_one(c: &Vec<Position>) -> (r: Option<Position>)
    ensures
        r is None <==> c@.len() == 0,
        r matches Some(q) ==> c@.contains(q),
{
    c.as_slice().choose(&mut rand::thread_rng()).copied()
}

/// The random-walk step with the choice made by the caller: candidate
/// number `k` modulo their count, or `p` when there is none.
pub fn random_step_with(g: &Grid, p: Position, k: usize) -> (r: Position)
    requires
        g.wf(),
    ensures
        floor_candidates(g, p).len() == 0 ==> r == p,
        floor_candidates(g, p).len() > 0 ==> r == floor_candidates(g, p)[k as int % floor_candidates(g, p).len() as int],
        walk_ok(g, p, r),
{
    let c = floor_neighbors(g, p);
    if c.len() == 0 {
        p
    } else {
        let r = c[k % c.len()];
        assert(c@.contains(r));
        r
    }
}

/// One step of a random walk: an Empty neighbor picked uniformly at random,
/// or `p` when there is none.
pub fn random_step(g: &Grid, p: Position) -> (r: Position)
    requires
        g.wf(),
    ensures
        floor_candidates(g, p).len() == 0 ==> r == p,
        floor_candidates(g, p).len() > 0 ==> floor_candidates(g, p).contains(r),
        walk_ok(g, p, r),
{
    let c = floor_neighbors(g, p);
    match choose_one(&c) {
        Some(q) => q,
        None => p,
    }
}

} // verus!
