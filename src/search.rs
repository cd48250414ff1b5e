use vstd::prelude::*;
use crate::square::Square;
use crate::grid::{Grid, Position, adjacent, four_offsets};

verus! {

/// Why no step could be found.
#[derive(Copy, Clone, Debug, PartialEq, Eq, Structural)]
pub enum SearchError {
    NoReachableDestination,
}

/// A sequence of cells where each next cell is one hop from the one before
/// and open to a search (the first cell may be of any class).
pub open spec fn is_walk(g: &Grid, w: Seq<Position>) -> bool {
    &&& w.len() >= 1
    &&& forall|i: int| 0 <= i < w.len() - 1 ==> #[trigger] adjacent(w[i], w[i + 1]) && g.open_at(w[i + 1])
}

/// Some Destination cell can be reached from `s` through open cells.
pub open spec fn reaches_goal(g: &Grid, s: Position) -> bool {
    exists|w: Seq<Position>| is_walk(g, w) && w[0] == s && #[trigger] g.is_goal(w.last())
}

/// Some Destination lies at most `k` hops from `s` through open cells.
pub open spec fn goal_within(g: &Grid, s: Position, k: nat) -> bool {
    exists|w: Seq<Position>| is_walk(g, w) && w[0] == s && w.len() <= k + 1 && #[trigger] g.is_goal(w.last())
}

/// `n` is one hop from `s` and one hop nearer the nearest Destination: it has
/// one within `d` hops, where `s` has none.
pub open spec fn nearer(g: &Grid, s: Position, n: Position) -> bool {
    adjacent(s, n) && g.open_at(n) && exists|d: nat| #[trigger] goal_within(g, n, d) && !goal_within(g, s, d)
}

/// `n` is a neighbor of `s` and no neighbor before it, in the order down,
/// right, left, up, is nearer to a Destination.
pub open spec fn first_nearer(g: &Grid, s: Position, n: Position) -> bool {
    let ns = g.neighbors_spec(s, four_offsets());
    exists|i: int| 0 <= i < ns.len() && #[trigger] ns[i] == n
        && forall|j: int| 0 <= j < i ==> !nearer(g, s, #[trigger] ns[j])
}

/// The step that the search result promises from `pos`: none at a
/// Destination, else the first neighbor, in the order down, right, left,
/// up, that lies one hop nearer the nearest Destination.
pub open spec fn good_step(g: &Grid, pos: Position, n: Position) -> bool {
    if g.is_goal(pos) {
        n == pos
    } else {
        nearer(g, pos, n) && first_nearer(g, pos, n) && reaches_goal(g, n)
    }
}

pub open spec fn marks_view(v: Seq<Vec<bool>>) -> Seq<Seq<bool>> {
    Seq::new(v.len(), |i: int| v[i]@)
}

pub open spec fn marked(m: Seq<Seq<bool>>, p: Position) -> bool {
    m[p.y as int][p.x as int]
}

/// Each cell of `order` but the first was found from an earlier one, its
/// parent, which lies one hop away; and it is open.
pub open spec fn parents_ok(g: &Grid, order: Seq<Position>, parent: Seq<usize>, dist: Seq<nat>) -> bool {
    &&& order.len() == parent.len()
    &&& order.len() == dist.len()
    &&& dist.len() >= 1 ==> dist[0] == 0
    &&& forall|i: int| 0 < i < order.len() ==> #[trigger] dist[i] == dist[parent[i] as int] + 1
    &&& forall|i: int| 0 < i < order.len() ==> #[trigger] parent[i] < i
    &&& forall|i: int| 0 < i < order.len() ==>
            #[trigger] adjacent(order[parent[i] as int], order[i]) && g.open_at(order[i])
}

/// `q` was found, at most `m` hops from the start.
pub open spec fn found_within(order: Seq<Position>, dist: Seq<nat>, q: Position, m: nat) -> bool {
    exists|j: int| 0 <= j < order.len() && order[j] == q && dist[j] <= m
}

/// Hop counts never fall along the queue, and none exceeds the one at `head`
/// by more than one.
pub open spec fn hops_sorted(dist: Seq<nat>, head: int) -> bool {
    &&& forall|i: int, j: int| 0 <= i <= j < dist.len() ==> #[trigger] dist[i] <= #[trigger] dist[j]
    &&& head < dist.len() ==> forall|j: int| 0 <= j < dist.len() ==> #[trigger] dist[j] <= dist[head] + 1
}

/// Every open neighbor of a cell expanded so far (before `head`) has been
/// found, at most one hop further from the start.
pub open spec fn expanded_closed(g: &Grid, order: Seq<Position>, dist: Seq<nat>, head: int) -> bool {
    forall|i: int, q: Position|
        0 <= i < head && #[trigger] adjacent(order[i], q) && g.open_at(q)
            ==> found_within(order, dist, q, dist[i] + 1)
}

/// How the search ranks what it found by the first hop from the start
/// (`rank[i]` indexes `ns0`, the start's neighbors): a cell found from the
/// start is the first occurrence of its rank in `ns0`, a deeper cell takes
/// its parent's rank, cells at the same hop count come in rank order, and
/// each cell's parent is the first expanded cell next to it.
pub open spec fn ranks_ok(
    order: Seq<Position>,
    parent: Seq<usize>,
    dist: Seq<nat>,
    rank: Seq<int>,
    ns0: Seq<Position>,
    head: int,
) -> bool {
    &&& rank.len() == order.len()
    &&& forall|i: int| 0 < i < order.len() && parent[i] == 0 ==>
            0 <= #[trigger] rank[i] < ns0.len() && ns0[rank[i]] == order[i]
            && forall|j: int| 0 <= j < rank[i] ==> ns0[j] != order[i]
    &&& forall|i: int| 0 < i < order.len() && parent[i] != 0 ==>
            #[trigger] rank[i] == rank[parent[i] as int]
    &&& forall|i: int, j: int| 0 < i <= j < order.len() && dist[i] == dist[j]
            ==> #[trigger] rank[i] <= #[trigger] rank[j]
    &&& forall|i: int| 0 < i < order.len() ==> #[trigger] parent[i] <= head
    &&& forall|i: int, k: int| 0 < i < order.len() && 0 <= k < parent[i]
            ==> !#[trigger] adjacent(order[k], order[i])
}

/// The part of `ranks_ok` that ties a cell's rank to its first hop.
pub open spec fn rank_links(order: Seq<Position>, parent: Seq<usize>, rank: Seq<int>, ns0: Seq<Position>) -> bool {
    &&& rank.len() == order.len()
    &&& forall|i: int| 0 < i < order.len() && parent[i] == 0 ==>
            0 <= #[trigger] rank[i] < ns0.len() && ns0[rank[i]] == order[i]
    &&& forall|i: int| 0 < i < order.len() && parent[i] != 0 ==>
            #[trigger] rank[i] == rank[parent[i] as int]
}

fn blank_marks(w: usize, h: usize) -> (r: Vec<Vec<bool>>)
    ensures
        r@.len() == h,
        forall|y: int| 0 <= y < h ==> #[trigger] r@[y]@.len() == w,
        forall|p: Position| p.x < w && p.y < h ==> !#[trigger] marked(marks_view(r@), p),
{
    let mut row: Vec<bool> = Vec::new();
    let mut i: usize = 0;
    while i < w
        invariant
            i <= w,
            row@.len() == i,
            forall|k: int| 0 <= k < i ==> !row@[k],
        decreases w - i,
    {
        row.push(false);
        i = i + 1;
    }
    let mut r: Vec<Vec<bool>> = Vec::new();
    let mut j: usize = 0;
    while j < h
        invariant
            j <= h,
            r@.len() == j,
            row@.len() == w,
            forall|k: int| 0 <= k < w ==> !row@[k],
            forall|y: int| 0 <= y < j ==> #[trigger] r@[y]@ == row@,
        decreases h - j,
    {
        r.push(row.clone());
        j = j + 1;
    }
    r
}

fn mark(m: &mut Vec<Vec<bool>>, p: Position)
    requires
        p.y < old(m)@.len(),
        p.x < old(m)@[p.y as int]@.len(),
    ensures
        final(m)@.len() == old(m)@.len(),
        forall|y: int| 0 <= y < old(m)@.len() ==> #[trigger] final(m)@[y]@.len() == old(m)@[y]@.len(),
        marks_view(final(m)@) == marks_view(old(m)@).update(
            p.y as int,
            marks_view(old(m)@)[p.y as int].update(p.x as int, true),
        ),
{
    let mut row = m[p.y].clone();
    row.set(p.x, true);
    m.set(p.y, row);
    assert(marks_view(m@) =~= marks_view(old(m)@).update(
        p.y as int,
        marks_view(old(m)@)[p.y as int].update(p.x as int, true),
    ));
}

/// Distinct cells of a grid are no more than its width times its height.
proof fn lemma_distinct_cells(g: &Grid, s: Seq<Position>)
    requires
        g.wf(),
        s.no_duplicates(),
        forall|i: int| 0 <= i < s.len() ==> g.contains(#[trigger] s[i]),
    ensures
        s.len() <= g.spec_width() * g.spec_height(),
{
    broadcast use vstd::seq_lib::seq_to_set_is_finite;
    let w = g.spec_width() as int;
    let h = g.spec_height() as int;
    assert(0 <= w * h) by (nonlinear_arith)
        requires 0 <= w, 0 <= h;
    let all = Seq::new((w * h) as nat, |k: int| Position { x: (k % w) as usize, y: (k / w) as usize });
    assert forall|p: Position| #[trigger] s.to_set().contains(p) implies all.to_set().contains(p) by {
        let i = choose|i: int| 0 <= i < s.len() && s[i] == p;
        assert(g.contains(s[i]));
        let k = p.y * w + p.x;
        vstd::arithmetic::div_mod::lemma_fundamental_div_mod_converse(k, w, p.y as int, p.x as int);
        assert(k < w * h) by (nonlinear_arith)
            requires k == p.y * w + p.x, p.y < h, p.x < w, 0 <= p.x;
        assert(0 <= k) by (nonlinear_arith)
            requires k == p.y * w + p.x, 0 <= p.y, 0 <= w, 0 <= p.x;
        assert(all[k] == p);
    }
    s.unique_seq_to_set();
    all.lemma_cardinality_of_set();
    vstd::set_lib::lemma_len_subset(s.to_set(), all.to_set());
}

/// Every cell of a walk from a cell of `order` stays in `order`, when every
/// open neighbor of a cell of `order` is in `order` too.
proof fn lemma_walk_stays(g: &Grid, order: Seq<Position>, dist: Seq<nat>, w: Seq<Position>, k: int)
    requires
        is_walk(g, w),
        order.contains(w[0]),
        0 <= k < w.len(),
        expanded_closed(g, order, dist, order.len() as int),
    ensures
        order.contains(w[k]),
    decreases k,
{
    if k > 0 {
        lemma_walk_stays(g, order, dist, w, k - 1);
        let i = choose|i: int| 0 <= i < order.len() && order[i] == w[k - 1];
        assert(adjacent(w[k - 1], w[(k - 1) + 1]));
        assert(adjacent(order[i], w[k]));
        let j = choose|j: int| 0 <= j < order.len() && order[j] == w[k] && dist[j] <= dist[i] + 1;
    }
}

/// While the search has expanded the cells before `head`, a walk that
/// starts at a cell found `e` hops from the start ends, after `k` more hops
/// and as long as `e + k` is at most `dist[head]`, at a cell found at most
/// `e + k` hops from the start.
proof fn lemma_walk_near(g: &Grid, order: Seq<Position>, dist: Seq<nat>, head: int, w: Seq<Position>, e: nat, k: int)
    requires
        is_walk(g, w),
        order.len() == dist.len(),
        0 <= head < order.len(),
        found_within(order, dist, w[0], e),
        0 <= k < w.len(),
        e + k <= dist[head],
        hops_sorted(dist, head),
        expanded_closed(g, order, dist, head),
    ensures
        found_within(order, dist, w[k], (e + k) as nat),
    decreases k,
{
    if k > 0 {
        lemma_walk_near(g, order, dist, head, w, e, k - 1);
        let i = choose|i: int| 0 <= i < order.len() && order[i] == w[k - 1] && dist[i] <= e + k - 1;
        if i >= head {
            assert(dist[head] <= dist[i]);
        }
        assert(adjacent(w[k - 1], w[(k - 1) + 1]));
        assert(adjacent(order[i], w[k]));
        let j = choose|j: int| 0 <= j < order.len() && order[j] == w[k] && dist[j] <= dist[i] + 1;
    }
}

/// When the search reaches its first Destination at `head`, no Destination
/// lies fewer hops from the start.
proof fn lemma_nothing_nearer(g: &Grid, order: Seq<Position>, dist: Seq<nat>, head: int)
    requires
        order.len() == dist.len(),
        0 <= head < order.len(),
        dist[0] == 0,
        dist[head] >= 1,
        hops_sorted(dist, head),
        expanded_closed(g, order, dist, head),
        forall|i: int| 0 <= i < head ==> !g.is_goal(#[trigger] order[i]),
    ensures
        !goal_within(g, order[0], (dist[head] - 1) as nat),
{
    let d = dist[head];
    if goal_within(g, order[0], (d - 1) as nat) {
        let wk = choose|wk: Seq<Position>| is_walk(g, wk) && wk[0] == order[0]
            && wk.len() <= (d - 1) as nat + 1 && #[trigger] g.is_goal(wk.last());
        assert(order[0] == wk[0]);
        lemma_walk_near(g, order, dist, head, wk, 0, wk.len() - 1);
        let j = choose|j: int| 0 <= j < order.len() && order[j] == wk.last() && dist[j] <= wk.len() - 1;
        if j >= head {
            assert(dist[head] <= dist[j]);
        }
        assert(!g.is_goal(order[j]));
    }
}

/// Finding `n` from the cell at `head` keeps the ranking in order.
proof fn lemma_push_ranks(
    g: &Grid,
    order: Seq<Position>,
    parent: Seq<usize>,
    dist: Seq<nat>,
    rank: Seq<int>,
    ns0: Seq<Position>,
    head: int,
    n: Position,
    kr: int,
)
    requires
        parents_ok(g, order, parent, dist),
        ranks_ok(order, parent, dist, rank, ns0, head),
        hops_sorted(dist, head),
        expanded_closed(g, order, dist, head),
        0 <= head < order.len(),
        head <= usize::MAX,
        !order.contains(n),
        g.open_at(n),
        head == 0 ==> 0 <= kr < ns0.len() && ns0[kr] == n
            && (forall|j: int| 0 <= j < kr ==> ns0[j] != n)
            && (forall|i: int| 0 < i < order.len() ==> #[trigger] rank[i] < kr),
    ensures
        ranks_ok(
            order.push(n),
            parent.push(head as usize),
            dist.push(dist[head] + 1),
            rank.push(if head == 0 { kr } else { rank[head] }),
            ns0,
            head,
        ),
{
    let o2 = order.push(n);
    let p2 = parent.push(head as usize);
    let d2 = dist.push(dist[head] + 1);
    let r2 = rank.push(if head == 0 { kr } else { rank[head] });
    let last = order.len() as int;
    assert(o2[last] == n && p2[last] == head && d2[last] == dist[head] + 1);
    assert forall|i: int| 0 < i < o2.len() && p2[i] == 0 implies
        0 <= #[trigger] r2[i] < ns0.len() && ns0[r2[i]] == o2[i]
        && forall|j: int| 0 <= j < r2[i] ==> ns0[j] != o2[i] by {
        if i < last {
            assert(o2[i] == order[i] && p2[i] == parent[i] && r2[i] == rank[i]);
        }
    }
    assert forall|i: int| 0 < i < o2.len() && p2[i] != 0 implies #[trigger] r2[i] == r2[p2[i] as int] by {
        if i < last {
            assert(p2[i] == parent[i] && r2[i] == rank[i]);
            assert(parent[i] < i);
            assert(r2[parent[i] as int] == rank[parent[i] as int]);
        }
    }
    assert forall|i: int, j: int| 0 < i <= j < o2.len() && d2[i] == d2[j] implies
        #[trigger] r2[i] <= #[trigger] r2[j] by {
        if j < last {
            assert(r2[i] == rank[i] && r2[j] == rank[j] && d2[i] == dist[i] && d2[j] == dist[j]);
        } else if i < last {
            assert(r2[i] == rank[i] && d2[i] == dist[i]);
            if head == 0 {
            } else {
                assert(dist[i] == dist[parent[i] as int] + 1);
                assert(parent[i] <= head);
                if parent[i] == 0 {
                    assert(dist[head] == dist[parent[head] as int] + 1);
                } else {
                    assert(rank[i] == rank[parent[i] as int]);
                    assert(dist[parent[i] as int] == dist[head]);
                    assert(rank[parent[i] as int] <= rank[head]);
                }
            }
        }
    }
    assert forall|i: int| 0 < i < o2.len() implies #[trigger] p2[i] <= head by {
        if i < last {
            assert(p2[i] == parent[i]);
        }
    }
    assert forall|i: int, k: int| 0 < i < o2.len() && 0 <= k < p2[i] implies
        !#[trigger] adjacent(o2[k], o2[i]) by {
        if i < last {
            assert(o2[i] == order[i] && p2[i] == parent[i]);
            assert(parent[i] < i);
            assert(o2[k] == order[k]);
        } else {
            assert(o2[k] == order[k]);
            if adjacent(order[k], n) {
                let j = choose|j: int| 0 <= j < order.len() && order[j] == n && dist[j] <= dist[k] + 1;
                assert(order.contains(n));
            }
        }
    }
}

/// When the search stands at its first Destination, `head`, and a walk `wm`
/// of `dist[head]` cells ends at a Destination, its cell number `k` was
/// found no fewer than `k + 1` hops from the start.
proof fn lemma_hops_exact(g: &Grid, order: Seq<Position>, dist: Seq<nat>, head: int, wm: Seq<Position>, k: int, i: int)
    requires
        is_walk(g, wm),
        g.is_goal(wm.last()),
        order.len() == dist.len(),
        0 <= head < order.len(),
        wm.len() == dist[head],
        0 <= k < wm.len(),
        0 <= i < order.len(),
        order[i] == wm[k],
        hops_sorted(dist, head),
        expanded_closed(g, order, dist, head),
        forall|j: int| 0 <= j < head ==> !g.is_goal(#[trigger] order[j]),
    ensures
        dist[i] >= k + 1,
{
    if dist[i] < k + 1 {
        let suf = wm.subrange(k, wm.len() as int);
        assert forall|t: int| 0 <= t < suf.len() - 1 implies #[trigger] adjacent(suf[t], suf[t + 1])
            && g.open_at(suf[t + 1]) by {
            assert(suf[t] == wm[t + k] && suf[t + 1] == wm[(t + k) + 1]);
            assert(adjacent(wm[t + k], wm[(t + k) + 1]));
        }
        assert(suf[0] == order[i]);
        lemma_walk_near(g, order, dist, head, suf, dist[i], suf.len() - 1);
        let j = choose|j: int| 0 <= j < order.len() && order[j] == suf[suf.len() - 1]
            && dist[j] <= dist[i] + suf.len() - 1;
        if j >= head {
            assert(dist[head] <= dist[j]);
        }
        assert(suf[suf.len() - 1] == wm.last());
    }
}

/// Along such a walk from `order[im]`, a cell found one hop from the start,
/// cell number `k` was found exactly `k + 1` hops from the start, with a
/// rank no greater than that of `order[im]`.
proof fn lemma_rank_chain(
    g: &Grid,
    order: Seq<Position>,
    parent: Seq<usize>,
    dist: Seq<nat>,
    rank: Seq<int>,
    ns0: Seq<Position>,
    head: int,
    wm: Seq<Position>,
    im: int,
    k: int,
)
    requires
        parents_ok(g, order, parent, dist),
        ranks_ok(order, parent, dist, rank, ns0, head),
        hops_sorted(dist, head),
        expanded_closed(g, order, dist, head),
        forall|j: int| 0 <= j < head ==> !g.is_goal(#[trigger] order[j]),
        order.no_duplicates(),
        0 <= head < order.len(),
        is_walk(g, wm),
        g.is_goal(wm.last()),
        wm.len() == dist[head],
        0 < im < order.len(),
        wm[0] == order[im],
        dist[im] == 1,
        0 <= k < wm.len(),
    ensures
        exists|i: int| 0 <= i < order.len() && order[i] == wm[k] && dist[i] == k + 1 && rank[i] <= rank[im],
    decreases k,
{
    if k > 0 {
        lemma_rank_chain(g, order, parent, dist, rank, ns0, head, wm, im, k - 1);
        let ik = choose|i: int| 0 <= i < order.len() && order[i] == wm[k - 1] && dist[i] == k && rank[i] <= rank[im];
        assert(found_within(order, dist, wm[0], 1));
        lemma_walk_near(g, order, dist, head, wm, 1, k);
        let i2 = choose|i: int| 0 <= i < order.len() && order[i] == wm[k] && dist[i] <= k + 1;
        lemma_hops_exact(g, order, dist, head, wm, k, i2);
        assert(i2 != 0);
        let pp = parent[i2] as int;
        assert(dist[i2] == dist[pp] + 1);
        if pp != 0 {
            assert(dist[pp] == dist[parent[pp] as int] + 1);
        }
        assert(pp != 0);
        assert(rank[i2] == rank[pp]);
        assert(adjacent(wm[k - 1], wm[(k - 1) + 1]));
        assert(adjacent(order[ik], order[i2]));
        assert(pp <= ik);
        assert(rank[pp] <= rank[ik]);
    }
}

/// No neighbor of the start that comes before the rank of the Destination
/// found at `head` is nearer to a Destination.
proof fn lemma_first_nearer(
    g: &Grid,
    order: Seq<Position>,
    parent: Seq<usize>,
    dist: Seq<nat>,
    rank: Seq<int>,
    ns0: Seq<Position>,
    head: int,
    j: int,
)
    requires
        parents_ok(g, order, parent, dist),
        ranks_ok(order, parent, dist, rank, ns0, head),
        hops_sorted(dist, head),
        expanded_closed(g, order, dist, head),
        forall|i: int| 0 <= i < head ==> !g.is_goal(#[trigger] order[i]),
        order.no_duplicates(),
        0 < head < order.len(),
        g.is_goal(order[head]),
        goal_within(g, order[0], dist[head]),
        !goal_within(g, order[0], (dist[head] - 1) as nat),
        0 <= j < rank[head],
    ensures
        !nearer(g, order[0], ns0[j]),
{
    let pos = order[0];
    let m = ns0[j];
    let dd = dist[head];
    if nearer(g, pos, m) {
        assert(adjacent(order[0], m));
        let im = choose|i: int| 0 <= i < order.len() && order[i] == m && dist[i] <= dist[0] + 1;
        assert(im != 0);
        assert(dist[im] == dist[parent[im] as int] + 1);
        let pm = parent[im] as int;
        if pm != 0 {
            assert(dist[pm] == dist[parent[pm] as int] + 1);
        }
        assert(pm == 0);
        assert(rank[im] <= j);
        let d = choose|d: nat| #[trigger] goal_within(g, m, d) && !goal_within(g, pos, d);
        if d >= dd {
            lemma_goal_within_grows(g, pos, dd, d);
        }
        lemma_goal_within_grows(g, m, d, (dd - 1) as nat);
        let wm = choose|wm: Seq<Position>| is_walk(g, wm) && wm[0] == m && wm.len() <= (dd - 1) as nat + 1
            && #[trigger] g.is_goal(wm.last());
        let wp = seq![pos] + wm;
        assert forall|i: int| 0 <= i < wp.len() - 1 implies #[trigger] adjacent(wp[i], wp[i + 1])
            && g.open_at(wp[i + 1]) by {
            if i > 0 {
                assert(wp[i] == wm[i - 1] && wp[i + 1] == wm[(i - 1) + 1]);
                assert(adjacent(wm[i - 1], wm[(i - 1) + 1]));
            }
        }
        assert(wp.last() == wm.last());
        if wm.len() < dd {
            assert(goal_within(g, pos, (dd - 1) as nat));
        }
        lemma_rank_chain(g, order, parent, dist, rank, ns0, head, wm, im, wm.len() - 1);
        let jt = choose|i: int| 0 <= i < order.len() && order[i] == wm[wm.len() - 1] && dist[i] == wm.len() as int
            && rank[i] <= rank[im];
        assert(order[jt] == wm.last());
        if jt < head {
            assert(!g.is_goal(order[jt]));
        }
        assert(rank[head] <= rank[jt]);
    }
}

/// What the search returns when it reaches its first Destination at `head`
/// is the step that `good_step` describes.
proof fn lemma_step_is_good(
    g: &Grid,
    order: Seq<Position>,
    parent: Seq<usize>,
    dist: Seq<nat>,
    rank: Seq<int>,
    ns0: Seq<Position>,
    head: int,
    r: Position,
)
    requires
        parents_ok(g, order, parent, dist),
        ranks_ok(order, parent, dist, rank, ns0, head),
        hops_sorted(dist, head),
        expanded_closed(g, order, dist, head),
        forall|i: int| 0 <= i < head ==> !g.is_goal(#[trigger] order[i]),
        order.no_duplicates(),
        0 <= head < order.len(),
        g.is_goal(order[head]),
        ns0 == g.neighbors_spec(order[0], four_offsets()),
        head == 0 ==> r == order[0],
        head != 0 ==> adjacent(order[0], r) && g.open_at(r) && reaches_goal(g, r)
            && dist[head] >= 1 && goal_within(g, r, (dist[head] - 1) as nat)
            && 0 <= rank[head] < ns0.len() && r == ns0[rank[head]],
    ensures
        reaches_goal(g, order[0]),
        good_step(g, order[0], r),
{
    let pos = order[0];
    if !g.is_goal(pos) {
        assert(head != 0);
        let d = dist[head];
        lemma_nothing_nearer(g, order, dist, head);
        let wr = choose|wr: Seq<Position>| is_walk(g, wr) && wr[0] == r
            && wr.len() <= (d - 1) as nat + 1 && #[trigger] g.is_goal(wr.last());
        let wp = seq![pos] + wr;
        assert forall|i: int| 0 <= i < wp.len() - 1 implies #[trigger] adjacent(wp[i], wp[i + 1])
            && g.open_at(wp[i + 1]) by {
            if i > 0 {
                assert(wp[i] == wr[i - 1] && wp[i + 1] == wr[(i - 1) + 1]);
                assert(adjacent(wr[i - 1], wr[(i - 1) + 1]));
            }
        }
        assert(wp.last() == wr.last());
        assert(goal_within(g, pos, d));
        assert forall|j: int| 0 <= j < rank[head] implies !nearer(g, pos, #[trigger] ns0[j]) by {
            lemma_first_nearer(g, order, parent, dist, rank, ns0, head, j);
        }
        assert(ns0[rank[head]] == r);
        assert(first_nearer(g, pos, r));
    }
    lemma_parent_walk(g, order, parent, dist, head);
}

/// The first hop on the chain of parents that leads from the start
/// (`order[0]`) to `order[end]`; the start itself when `end` is 0.
fn first_move(
    order: &Vec<Position>,
    parent: &Vec<usize>,
    end: usize,
    g: &Grid,
    Ghost(dist): Ghost<Seq<nat>>,
    Ghost(rank): Ghost<Seq<int>>,
    Ghost(ns0): Ghost<Seq<Position>>,
) -> (r: Position)
    requires
        rank_links(order@, parent@, rank, ns0),
        order@.len() == parent@.len(),
        end < order@.len(),
        g.is_goal(order@[end as int]),
        parents_ok(g, order@, parent@, dist),
    ensures
        end == 0 ==> r == order@[0],
        end != 0 ==> adjacent(order@[0], r) && g.open_at(r) && reaches_goal(g, r)
            && dist[end as int] >= 1 && goal_within(g, r, (dist[end as int] - 1) as nat)
            && 0 <= rank[end as int] < ns0.len() && r == ns0[rank[end as int]],
{
    let mut cur: usize = end;
    let ghost mut w: Seq<Position> = seq![order@[end as int]];
    while cur != 0 && parent[cur] != 0
        invariant
            order@.len() == parent@.len(),
            cur <= end < order@.len(),
            end == 0 ==> cur == 0,
            end != 0 ==> cur != 0,
            parents_ok(g, order@, parent@, dist),
            is_walk(g, w),
            w[0] == order@[cur as int],
            w.last() == order@[end as int],
            w.len() + dist[cur as int] == dist[end as int] + 1,
            rank_links(order@, parent@, rank, ns0),
            end != 0 ==> rank[cur as int] == rank[end as int],
        decreases cur,
    {
        let p = parent[cur];
        let ghost nw = seq![order@[p as int]] + w;
        proof {
            assert(adjacent(order@[parent@[cur as int] as int], order@[cur as int]));
            assert forall|i: int| 0 <= i < nw.len() - 1 implies #[trigger] adjacent(nw[i], nw[i + 1]) && g.open_at(nw[i + 1]) by {
                if i > 0 {
                    assert(nw[i] == w[i - 1]);
                    assert(nw[i + 1] == w[(i - 1) + 1]);
                    assert(adjacent(w[i - 1], w[(i - 1) + 1]));
                }
            }
            assert(nw.last() == w.last());
            w = nw;
        }
        cur = p;
    }
    if cur != 0 {
        proof {
            assert(adjacent(order@[parent@[cur as int] as int], order@[cur as int]));
            assert(g.is_goal(w.last()));
            assert(dist[cur as int] == dist[parent@[cur as int] as int] + 1);
        }
    }
    order[cur]
}

/// One hop toward the nearest Destination by breadth-first search over
/// open cells, looking down, right, left and up in that order; `pos` itself
/// when it is a Destination.
#[verifier::rlimit(60)]
pub fn next_step_toward_nearest_destination(g: &Grid, pos: Position) -> (r: Result<Position, SearchError>)
    requires
        g.wf(),
        g.contains(pos),
    ensures
        r is Ok <==> reaches_goal(g, pos),
        r matches Ok(n) ==> good_step(g, pos, n),
        r matches Err(e) ==> e == SearchError::NoReachableDestination,
{
    let w = g.width();
    let h = g.height();
    let mut seen = blank_marks(w, h);
    let ghost m0 = marks_view(seen@);
    mark(&mut seen, pos);
    let mut order: Vec<Position> = vec![pos];
    let mut parent: Vec<usize> = vec![0];
    let ghost mut dist: Seq<nat> = seq![0nat];
    let ghost mut rank: Seq<int> = seq![0int];
    let ghost ns0 = g.neighbors_spec(pos, four_offsets());
    let mut head: usize = 0;
    let ghost bound = g.spec_width() * g.spec_height();
    proof {
        assert(order@.no_duplicates());
        lemma_distinct_cells(g, order@);
        assert forall|p: Position| #[trigger] g.contains(p) implies
            (marked(marks_view(seen@), p) <==> order@.contains(p)) by {
            if p == pos {
                assert(order@[0] == p);
            } else {
                assert(!marked(m0, p));
                assert(marks_view(seen@)[p.y as int][p.x as int] == m0[p.y as int][p.x as int]);
            }
            if order@.contains(p) {
                let i = choose|i: int| 0 <= i < order@.len() && order@[i] == p;
            }
        }
    }
    while head < order.len()
        invariant
            g.wf(),
            g.contains(pos),
            w == g.spec_width(),
            h == g.spec_height(),
            bound == g.spec_width() * g.spec_height(),
            seen@.len() == h,
            forall|y: int| 0 <= y < h ==> #[trigger] seen@[y]@.len() == w,
            order@.len() >= 1,
            order@[0] == pos,
            head <= order@.len() <= bound,
            order@.no_duplicates(),
            forall|i: int| 0 <= i < order@.len() ==> g.contains(#[trigger] order@[i]),
            forall|p: Position| #[trigger] g.contains(p) ==>
                (marked(marks_view(seen@), p) <==> order@.contains(p)),
            parents_ok(g, order@, parent@, dist),
            hops_sorted(dist, head as int),
            ranks_ok(order@, parent@, dist, rank, ns0, head as int),
            ns0 == g.neighbors_spec(pos, four_offsets()),
            head == 0 ==> order@.len() == 1,
            forall|i: int| 0 <= i < head ==> !g.is_goal(#[trigger] order@[i]),
            expanded_closed(g, order@, dist, head as int),
        decreases bound - order@.len(), order@.len() - head,
    {
        let cur = order[head];
        if g.square_at(cur) == Square::Destination {
            let r = first_move(&order, &parent, head, g, Ghost(dist), Ghost(rank), Ghost(ns0));
            proof {
                lemma_step_is_good(g, order@, parent@, dist, rank, ns0, head as int, r);
            }
            return Ok(r);
        }
        let ns = g.neighbors_4(cur);
        let ghost before = order@;
        let ghost dist_before = dist;
        let ghost rank_before = rank;
        let mut k: usize = 0;
        while k < ns.len()
            invariant
                g.wf(),
                w == g.spec_width(),
                h == g.spec_height(),
                bound == g.spec_width() * g.spec_height(),
                seen@.len() == h,
                forall|y: int| 0 <= y < h ==> #[trigger] seen@[y]@.len() == w,
                head < before.len(),
                order@[head as int] == cur,
                order@.len() >= 1,
                order@[0] == pos,
                order@.no_duplicates(),
                before.len() <= order@.len(),
                forall|i: int| 0 <= i < before.len() ==> order@[i] == before[i],
                forall|i: int| 0 <= i < before.len() ==> dist[i] == dist_before[i],
                k <= ns@.len(),
                forall|q: Position| #[trigger] ns@.contains(q) <==> (adjacent(cur, q) && g.contains(q)),
                forall|i: int| 0 <= i < order@.len() ==> g.contains(#[trigger] order@[i]),
                forall|p: Position| #[trigger] g.contains(p) ==>
                    (marked(marks_view(seen@), p) <==> order@.contains(p)),
                parents_ok(g, order@, parent@, dist),
                hops_sorted(dist, head as int),
                ranks_ok(order@, parent@, dist, rank, ns0, head as int),
                expanded_closed(g, order@, dist, head as int),
                head == 0 ==> ns@ == ns0,
                head == 0 ==> forall|i: int| 0 < i < order@.len() ==> #[trigger] rank[i] < k,
                forall|i: int| 0 <= i < before.len() ==> rank[i] == rank_before[i],
                forall|j: int| 0 <= j < k ==> g.open_at(#[trigger] ns@[j])
                    ==> found_within(order@, dist, ns@[j], dist[head as int] + 1),
            decreases ns@.len() - k,
        {
            let n = ns[k];
            assert(ns@.contains(n));
            if g.square_at(n).is_traversable() && !seen[n.y][n.x] {
                proof {
                    assert(!order@.contains(n));
                }
                mark(&mut seen, n);
                let ghost old_order = order@;
                let ghost old_dist = dist;
                let ghost old_parent = parent@;
                proof {
                    if head == 0 {
                        assert forall|j: int| 0 <= j < k implies ns0[j] != n by {
                            if ns0[j] == n {
                                assert(g.open_at(ns@[j]));
                                let i = choose|i: int| 0 <= i < order@.len() && order@[i] == n
                                    && dist[i] <= dist[head as int] + 1;
                            }
                        }
                    }
                    lemma_push_ranks(g, order@, parent@, dist, rank, ns0, head as int, n, k as int);
                }
                order.push(n);
                parent.push(head);
                proof {
                    rank = rank.push(if head == 0 { k as int } else { rank[head as int] });
                    dist = dist.push(dist[head as int] + 1);
                    assert(order@.no_duplicates());
                    assert forall|p: Position| #[trigger] g.contains(p) implies
                        (marked(marks_view(seen@), p) <==> order@.contains(p)) by {
                        if p == n {
                            assert(order@[order@.len() - 1] == n);
                        } else {
                            if old_order.contains(p) {
                                let i = choose|i: int| 0 <= i < old_order.len() && old_order[i] == p;
                                assert(order@[i] == p);
                            }
                            if order@.contains(p) {
                                let i = choose|i: int| 0 <= i < order@.len() && order@[i] == p;
                                assert(old_order[i] == p);
                            }
                        }
                    }
                    assert forall|j: int| 0 <= j < k + 1 implies g.open_at(#[trigger] ns@[j])
                        ==> found_within(order@, dist, ns@[j], dist[head as int] + 1) by {
                        if j < k && g.open_at(ns@[j]) {
                            let i = choose|i: int| 0 <= i < old_order.len() && old_order[i] == ns@[j]
                                && old_dist[i] <= old_dist[head as int] + 1;
                            assert(order@[i] == ns@[j] && dist[i] == old_dist[i]);
                        }
                        if j == k {
                            assert(order@[order@.len() - 1] == n);
                        }
                    }
                    assert(adjacent(order@[parent@[order@.len() - 1] as int], order@[order@.len() - 1]));
                    assert(parents_ok(g, order@, parent@, dist));
                }
            } else {
                proof {
                    if g.open_at(n) {
                        assert(marked(marks_view(seen@), n));
                        assert(order@.contains(n));
                        let i = choose|i: int| 0 <= i < order@.len() && order@[i] == n;
                        assert(dist[i] <= dist[head as int] + 1);
                    }
                }
            }
            k = k + 1;
        }
        proof {
            assert(order@[head as int] == before[head as int]);
            assert(!g.is_goal(order@[head as int]));
            assert forall|i: int| 0 <= i < head + 1 implies !g.is_goal(#[trigger] order@[i]) by {
                assert(order@[i] == before[i]);
            }
            assert forall|i: int, q: Position|
                0 <= i < head + 1 && #[trigger] adjacent(order@[i], q) && g.open_at(q)
                    implies found_within(order@, dist, q, dist[i] + 1) by {
                if i < head {
                    assert(order@[i] == before[i]);
                    assert(adjacent(before[i], q));
                    let j = choose|j: int| 0 <= j < before.len() && before[j] == q
                        && dist_before[j] <= dist_before[i] + 1;
                    assert(order@[j] == q && dist[j] == dist_before[j]);
                } else {
                    assert(ns@.contains(q));
                    let j = choose|j: int| 0 <= j < ns@.len() && ns@[j] == q;
                    assert(g.open_at(ns@[j]));
                }
            }
            assert(expanded_closed(g, order@, dist, head + 1));
            lemma_distinct_cells(g, order@);
        }
        head = head + 1;
    }
    proof {
        if reaches_goal(g, pos) {
            let wk = choose|wk: Seq<Position>| is_walk(g, wk) && wk[0] == pos && #[trigger] g.is_goal(wk.last());
            assert(order@.contains(order@[0]));
            lemma_walk_stays(g, order@, dist, wk, wk.len() - 1);
            let i = choose|i: int| 0 <= i < order@.len() && order@[i] == wk.last();
            assert(!g.is_goal(order@[i]));
        }
    }
    Err(SearchError::NoReachableDestination)
}

/// The chain of parents from `order[end]` back to the start is a walk, so the
/// start reaches any Destination on it.
proof fn lemma_parent_walk(g: &Grid, order: Seq<Position>, parent: Seq<usize>, dist: Seq<nat>, end: int)
    requires
        order.len() == parent.len(),
        0 <= end < order.len(),
        g.is_goal(order[end]),
        parents_ok(g, order, parent, dist),
    ensures
        reaches_goal(g, order[0]),
{
    lemma_chain_walk(g, order, parent, dist, end, seq![order[end]]);
}

proof fn lemma_chain_walk(g: &Grid, order: Seq<Position>, parent: Seq<usize>, dist: Seq<nat>, cur: int, w: Seq<Position>)
    requires
        order.len() == parent.len(),
        0 <= cur < order.len(),
        is_walk(g, w),
        w[0] == order[cur],
        g.is_goal(w.last()),
        parents_ok(g, order, parent, dist),
    ensures
        reaches_goal(g, order[0]),
    decreases cur,
{
    if cur == 0 {
        assert(g.is_goal(w.last()));
    } else {
        let p = parent[cur] as int;
        let nw = seq![order[p]] + w;
        assert(adjacent(order[parent[cur] as int], order[cur]));
        assert forall|i: int| 0 <= i < nw.len() - 1 implies #[trigger] adjacent(nw[i], nw[i + 1]) && g.open_at(nw[i + 1]) by {
            if i > 0 {
                assert(nw[i] == w[i - 1]);
                assert(nw[i + 1] == w[(i - 1) + 1]);
                assert(adjacent(w[i - 1], w[(i - 1) + 1]));
            }
        }
        assert(nw.last() == w.last());
        lemma_chain_walk(g, order, parent, dist, p, nw);
    }
}

/// The search's promise fixes its answer: two steps that both meet it are
/// the same cell, so equally near Destinations never make the result vary.
pub proof fn lemma_step_is_determined(g: &Grid, pos: Position, a: Position, b: Position)
    requires
        good_step(g, pos, a),
        good_step(g, pos, b),
    ensures
        a == b,
{
    if !g.is_goal(pos) {
        let ns = g.neighbors_spec(pos, four_offsets());
        let ia = choose|i: int| 0 <= i < ns.len() && #[trigger] ns[i] == a
            && forall|j: int| 0 <= j < i ==> !nearer(g, pos, #[trigger] ns[j]);
        let ib = choose|i: int| 0 <= i < ns.len() && #[trigger] ns[i] == b
            && forall|j: int| 0 <= j < i ==> !nearer(g, pos, #[trigger] ns[j]);
        if ia < ib {
            assert(!nearer(g, pos, ns[ia]));
        } else if ib < ia {
            assert(!nearer(g, pos, ns[ib]));
        }
    }
}

proof fn lemma_goal_within_grows(g: &Grid, p: Position, a: nat, b: nat)
    requires
        goal_within(g, p, a),
        a <= b,
    ensures
        goal_within(g, p, b),
{
    let w = choose|w: Seq<Position>| is_walk(g, w) && w[0] == p && w.len() <= a + 1 && #[trigger] g.is_goal(w.last());
    assert(w.len() <= b + 1);
}

/// Steps taken one after another by the shortest-path search, from a cell
/// that has a Destination within `k` hops, stand on a Destination after `k`
/// steps, and every cell stepped onto on the way is open (never a Wall).
pub proof fn lemma_steps_reach_goal(g: &Grid, path: Seq<Position>, k: nat)
    requires
        path.len() == k + 1,
        goal_within(g, path[0], k),
        forall|i: int| 0 <= i < k ==> #[trigger] good_step(g, path[i], path[i + 1]),
    ensures
        g.is_goal(path[k as int]),
        forall|i: int| 0 < i <= k ==> g.open_at(#[trigger] path[i]),
{
    lemma_steps_within(g, path, k, k);
    let w = choose|w: Seq<Position>| is_walk(g, w) && w[0] == path[k as int] && w.len() <= 0nat + 1
        && #[trigger] g.is_goal(w.last());
    assert(w.last() == w[0]);
    assert forall|i: int| 0 < i <= k implies g.open_at(#[trigger] path[i]) by {
        assert(good_step(g, path[i - 1], path[(i - 1) + 1]));
        lemma_steps_within(g, path, k, (i - 1) as nat);
        if g.is_goal(path[i - 1]) {
            assert(path[i] == path[i - 1]);
        }
    }
}

proof fn lemma_steps_within(g: &Grid, path: Seq<Position>, k: nat, i: nat)
    requires
        path.len() == k + 1,
        i <= k,
        goal_within(g, path[0], k),
        forall|j: int| 0 <= j < k ==> #[trigger] good_step(g, path[j], path[j + 1]),
    ensures
        goal_within(g, path[i as int], (k - i) as nat),
        g.is_goal(path[i as int]) ==> g.open_at(path[i as int]),
    decreases i,
{
    if i > 0 {
        let p = path[i - 1];
        let n = path[i as int];
        lemma_steps_within(g, path, k, (i - 1) as nat);
        assert(good_step(g, path[i - 1], path[(i - 1) + 1]));
        if g.is_goal(p) {
            let w = seq![n];
            assert(is_walk(g, w) && w[0] == n && w.len() <= (k - i) as nat + 1 && g.is_goal(w.last()));
        } else {
            let d = choose|d: nat| #[trigger] goal_within(g, n, d) && !goal_within(g, p, d);
            if d >= (k - (i - 1)) as nat {
                lemma_goal_within_grows(g, p, (k - (i - 1)) as nat, d);
            }
            lemma_goal_within_grows(g, n, d, (k - i) as nat);
        }
    }
}

} // verus!
