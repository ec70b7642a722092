//! Single-source shortest path: the classic array-based form over all pool
//! indices, with a linear scan for the closest unfinished node each round.

use vstd::prelude::*;
use crate::pool::{
    is_route, lemma_route_weight_mono, lemma_route_weight_prefix, reachable, route_weight, Graph,
    Node,
};
use crate::path::Path;

verus! {

/// Every route from `a` to `b` weighs at least `d`.
pub open spec fn route_lower_bound<T>(g: Graph<T, u64>, a: int, b: int, d: int) -> bool {
    forall|r: Seq<usize>|
        #![trigger is_route(g, r)]
        is_route(g, r) && (r.first() as int) == a && (r.last() as int) == b ==> route_weight(
            g,
            r,
            r.len() - 1,
        ) >= d
}

/// Some route from `a` to `b` has total weight at most `cap`.
pub open spec fn reachable_within<T>(g: Graph<T, u64>, a: int, b: int, cap: int) -> bool {
    exists|r: Seq<usize>|
        is_route(g, r) && (r.first() as int) == a && (r.last() as int) == b && route_weight(
            g,
            r,
            r.len() - 1,
        ) <= cap
}

/// The summed weight of the backward links of a predecessor chain `c`: the
/// edges `c[i + 1] -> c[i]`, read head-first.
pub open spec fn back_weight<T>(g: Graph<T, u64>, c: Seq<usize>) -> int
    decreases c.len(),
{
    if c.len() <= 1 {
        0
    } else {
        g.edge_weight(c[1] as int, c[0] as int) + back_weight(g, c.drop_first())
    }
}

/// Appending one more predecessor adds exactly its backward link's weight.
proof fn lemma_back_weight_push<T>(g: Graph<T, u64>, c: Seq<usize>, x: usize)
    requires
        c.len() >= 1,
    ensures
        back_weight(g, c.push(x)) == back_weight(g, c) + g.edge_weight(
            x as int,
            c.last() as int,
        ),
    decreases c.len(),
{
    let cp = c.push(x);
    assert(cp[0] == c[0]);
    assert(cp.len() == c.len() + 1);
    assert(back_weight(g, cp) == g.edge_weight(cp[1] as int, cp[0] as int) + back_weight(
        g,
        cp.drop_first(),
    ));
    if c.len() == 1 {
        assert(cp[1] == x);
        assert(cp.drop_first() =~= seq![x]);
        assert(back_weight(g, cp.drop_first()) == 0);
        assert(back_weight(g, c) == 0);
    } else {
        assert(cp[1] == c[1]);
        assert(cp.drop_first() =~= c.drop_first().push(x));
        lemma_back_weight_push(g, c.drop_first(), x);
        assert(c.drop_first().last() == c.last());
        assert(back_weight(g, c) == g.edge_weight(c[1] as int, c[0] as int) + back_weight(
            g,
            c.drop_first(),
        ));
    }
}

/// Reversing a predecessor chain turns its backward links into the forward
/// edges of the reversed route, with the same summed weight.
proof fn lemma_back_weight_reverse<T>(g: Graph<T, u64>, c: Seq<usize>, r: Seq<usize>)
    requires
        r.len() == c.len(),
        c.len() >= 1,
        forall|i: int| 0 <= i < c.len() ==> r[i] == c[c.len() - 1 - i],
    ensures
        route_weight(g, r, r.len() - 1) == back_weight(g, c),
    decreases c.len(),
{
    if c.len() > 1 {
        let c2 = c.drop_first();
        let r2 = r.drop_last();
        assert forall|i: int| 0 <= i < c2.len() implies r2[i] == c2[c2.len() - 1 - i] by {
            assert(r2[i] == r[i]);
            assert(c2[c2.len() - 1 - i] == c[c.len() - 1 - i]);
        }
        lemma_back_weight_reverse(g, c2, r2);
        lemma_route_weight_prefix(g, r, r2, r.len() - 2);
        assert(r[r.len() - 1] == c[0]);
        assert(r[r.len() - 2] == c[1]);
    }
}

/// How many marks of a mark vector are set.
spec fn count_true(s: Seq<bool>) -> int
    decreases s.len(),
{
    if s.len() == 0 {
        0
    } else {
        count_true(s.drop_last()) + if s.last() {
            1int
        } else {
            0int
        }
    }
}

proof fn lemma_count_true_zero(s: Seq<bool>)
    requires
        forall|i: int| 0 <= i < s.len() ==> !s[i],
    ensures
        count_true(s) == 0,
    decreases s.len(),
{
    if s.len() > 0 {
        lemma_count_true_zero(s.drop_last());
    }
}

proof fn lemma_count_true_le_len(s: Seq<bool>)
    ensures
        count_true(s) <= s.len(),
    decreases s.len(),
{
    if s.len() > 0 {
        lemma_count_true_le_len(s.drop_last());
    }
}

proof fn lemma_count_true_update(s: Seq<bool>, i: int)
    requires
        0 <= i < s.len(),
        !s[i],
    ensures
        count_true(s.update(i, true)) == count_true(s) + 1,
    decreases s.len(),
{
    let t = s.update(i, true);
    if i == s.len() - 1 {
        assert(t.drop_last() =~= s.drop_last());
        assert(t.last() && !s.last());
    } else {
        assert(t.drop_last() =~= s.drop_last().update(i, true));
        lemma_count_true_update(s.drop_last(), i);
        assert(t.last() == s.last());
    }
}

proof fn lemma_count_true_full(s: Seq<bool>, i: int)
    requires
        count_true(s) == s.len(),
        0 <= i < s.len(),
    ensures
        s[i],
    decreases s.len(),
{
    lemma_count_true_le_len(s.drop_last());
    if i == s.len() - 1 {
        assert(s.last());
    } else {
        assert(s.last());
        lemma_count_true_full(s.drop_last(), i);
        assert(s.drop_last()[i] == s[i]);
    }
}

/// The recorded predecessor links are real edges whose endpoint distances
/// cohere: a step along a link costs no more than the distance gap it spans.
spec fn links_coherent<T>(
    g: Graph<T, u64>,
    dist: Seq<Option<u64>>,
    pred: Seq<Option<usize>>,
) -> bool {
    forall|v: int|
        0 <= v < g.node_count() ==> (#[trigger] pred[v] matches Some(u) ==> ((u as int)
            < g.node_count() && g.has_edge(u as int, v) && (dist[v] matches Some(dv) && (
        dist[u as int] matches Some(du) && (du as int) + (g.edge_weight(u as int, v) as int)
            <= dv as int))))
}

/// Every finished node's distance is a lower bound on all routes to it.
spec fn done_lower_bounds<T>(
    g: Graph<T, u64>,
    start: int,
    dist: Seq<Option<u64>>,
    done: Seq<bool>,
) -> bool {
    forall|v: int|
        0 <= v < g.node_count() && #[trigger] done[v] ==> (dist[v] matches Some(dv)
            && route_lower_bound(g, start, v, dv as int))
}

/// Every finished node is at least as close as any unfinished node with a
/// known distance.
spec fn done_are_closest<T>(g: Graph<T, u64>, dist: Seq<Option<u64>>, done: Seq<bool>) -> bool {
    forall|x: int, y: int|
        #![trigger done[x], done[y]]
        0 <= x < g.node_count() && 0 <= y < g.node_count() && done[x] && !done[y] && dist[y]
            is Some ==> (dist[x] matches Some(dx) && dx <= dist[y]->Some_0)
}

/// Every finished node's outgoing edges have been propagated (the node named
/// by `skip` excepted): reaching the target through the finished node is no
/// improvement on its recorded distance, whenever the sum fits the weight
/// type.
spec fn edges_relaxed<T>(
    g: Graph<T, u64>,
    dist: Seq<Option<u64>>,
    done: Seq<bool>,
    skip: int,
) -> bool {
    forall|y: int, x: int|
        #![trigger done[y], g.has_edge(y, x)]
        0 <= y < g.node_count() && done[y] && y != skip && g.has_edge(y, x) ==> (
        dist[y] matches Some(dy) && ((dy as int) + (g.edge_weight(y, x) as int) <= u64::MAX
            ==> (dist[x] matches Some(dx) && (dx as int) <= (dy as int) + (g.edge_weight(
            y,
            x,
        ) as int))))
}

/// The position of the first entry of `r`, from `i` on, that is not marked.
proof fn lemma_first_undone(marks: Seq<bool>, r: Seq<usize>, i: int) -> (m: int)
    requires
        0 <= i < r.len(),
        forall|j: int| 0 <= j < r.len() ==> 0 <= (#[trigger] r[j] as int) < marks.len(),
        exists|j: int| i <= j < r.len() && !marks[#[trigger] r[j] as int],
    ensures
        i <= m < r.len(),
        !marks[r[m] as int],
        forall|j: int| i <= j < m ==> marks[r[j] as int],
    decreases r.len() - i,
{
    if !marks[r[i] as int] {
        i
    } else {
        let jw = choose|j: int| i <= j < r.len() && !marks[r[j] as int];
        assert(i + 1 <= jw < r.len() && !marks[r[jw] as int]);
        lemma_first_undone(marks, r, i + 1)
    }
}

/// Along a route out of the start, a prefix ending at a finished entry
/// already weighs at least that entry's recorded distance.
proof fn lemma_prefix_bounded<T>(
    g: Graph<T, u64>,
    start: int,
    dist: Seq<Option<u64>>,
    done: Seq<bool>,
    r: Seq<usize>,
    m: int,
)
    requires
        g.wf(),
        dist.len() == g.node_count(),
        done.len() == g.node_count(),
        0 <= start < g.node_count(),
        dist[start] == Some(0u64),
        done_lower_bounds(g, start, dist, done),
        is_route(g, r),
        (r.first() as int) == start,
        1 <= m < r.len(),
        done[r[m - 1] as int],
        0 <= (r[m - 1] as int) < g.node_count(),
    ensures
        dist[r[m - 1] as int] is Some,
        (dist[r[m - 1] as int]->Some_0 as int) <= route_weight(g, r, m - 1),
{
    let y = r[m - 1] as int;
    assert(dist[y] is Some);
    let dy = dist[y]->Some_0 as int;
    if m == 1 {
        assert(y == start);
        assert(dy == 0);
        assert(route_weight(g, r, 0) == 0);
    } else {
        let pre = r.subrange(0, m);
        assert(pre.len() == m);
        assert forall|i2: int| 0 <= i2 < m - 1 implies #[trigger] g.has_edge(
            pre[i2] as int,
            pre[i2 + 1] as int,
        ) by {
            assert(pre[i2] == r[i2] && pre[i2 + 1] == r[i2 + 1]);
            assert(g.has_edge(r[i2] as int, r[i2 + 1] as int));
        }
        assert(is_route(g, pre));
        assert((pre.first() as int) == start && (pre.last() as int) == y);
        assert(route_weight(g, pre, m - 1) >= dy);
        lemma_route_weight_prefix(g, r, pre, m - 1);
    }
}

/// Once the walk has run out of known distances, every node that some route
/// of representable weight can reach is already finished: otherwise such a
/// route would hand a known distance to its first unfinished entry.
proof fn lemma_exhausted_complete<T>(
    g: Graph<T, u64>,
    start: int,
    end: int,
    dist: Seq<Option<u64>>,
    done: Seq<bool>,
)
    requires
        g.wf(),
        dist.len() == g.node_count(),
        done.len() == g.node_count(),
        0 <= start < g.node_count(),
        0 <= end < g.node_count(),
        dist[start] == Some(0u64),
        done_lower_bounds(g, start, dist, done),
        edges_relaxed(g, dist, done, end),
        forall|v: int|
            #![trigger dist[v]]
            0 <= v < g.node_count() && !done[v] ==> dist[v] is None,
        reachable_within(g, start, end, u64::MAX as int),
    ensures
        done[end],
{
    if !done[end] {
        let r = choose|r: Seq<usize>|
            is_route(g, r) && (r.first() as int) == start && (r.last() as int) == end
                && route_weight(g, r, r.len() - 1) <= u64::MAX as int;
        let rl = r.len() as int;
        if !done[start] {
            assert(dist[start] is None);
            assert(false);
        }
        assert forall|j: int| 0 <= j < rl implies 0 <= (#[trigger] r[j] as int)
            < g.node_count() by {
            if j < rl - 1 {
                assert(g.has_edge(r[j] as int, r[j + 1] as int));
            } else {
                assert((r[j] as int) == end);
            }
        }
        assert(!done[r[rl - 1] as int]);
        let m = lemma_first_undone(done, r, 0);
        assert(done[r[0] as int]);
        assert(m >= 1);
        let i0 = m - 1;
        let y = r[i0] as int;
        let x = r[i0 + 1] as int;
        assert(done[y]);
        assert(y != end);
        assert(g.has_edge(r[i0] as int, r[i0 + 1] as int));
        assert(g.has_edge(y, x));
        lemma_prefix_bounded(g, start, dist, done, r, m);
        let dy = dist[y]->Some_0 as int;
        let w = g.edge_weight(y, x) as int;
        assert(route_weight(g, r, m) == route_weight(g, r, m - 1) + w);
        lemma_route_weight_mono(g, r, m, rl - 1);
        assert(dy + w <= u64::MAX);
        assert(dist[x] is Some);
        assert(!done[x]);
        assert(dist[x] is None);
    }
}

/// When the closest unfinished node with a known distance is picked, that
/// distance already undercuts every route to it: any route must first step
/// out of the finished region, and that first step alone costs at least as
/// much.
proof fn lemma_selected_is_lower_bound<T>(
    g: Graph<T, u64>,
    start: int,
    end: int,
    dist: Seq<Option<u64>>,
    done: Seq<bool>,
    u: int,
    du: u64,
)
    requires
        g.wf(),
        dist.len() == g.node_count(),
        done.len() == g.node_count(),
        0 <= start < g.node_count(),
        0 <= end < g.node_count(),
        0 <= u < g.node_count(),
        !done[u],
        !done[end],
        dist[u] == Some(du),
        dist[start] == Some(0u64),
        done_lower_bounds(g, start, dist, done),
        edges_relaxed(g, dist, done, end),
        forall|v: int|
            #![trigger dist[v]]
            0 <= v < g.node_count() && !done[v] && dist[v] is Some ==> du <= dist[v]->Some_0,
    ensures
        route_lower_bound(g, start, u, du as int),
{
    assert forall|r: Seq<usize>|
        #![trigger is_route(g, r)]
        is_route(g, r) && (r.first() as int) == start && (r.last() as int) == u
        implies route_weight(g, r, r.len() - 1) >= du as int by {
        let rl = r.len() as int;
        lemma_route_weight_mono(g, r, 0, rl - 1);
        if (du as int) > 0 {
            if !done[start] {
                assert(dist[start] is Some);
                assert(du <= dist[start]->Some_0);
                assert(false);
            }
            assert forall|j: int| 0 <= j < rl implies 0 <= (#[trigger] r[j] as int)
                < g.node_count() by {
                if j < rl - 1 {
                    assert(g.has_edge(r[j] as int, r[j + 1] as int));
                } else {
                    assert((r[j] as int) == u);
                }
            }
            assert(!done[r[rl - 1] as int]);
            let m = lemma_first_undone(done, r, 0);
            assert(done[r[0] as int]);
            assert(m >= 1);
            let i0 = m - 1;
            let y = r[i0] as int;
            let x = r[i0 + 1] as int;
            assert(done[y]);
            assert(y != end);
            assert(g.has_edge(r[i0] as int, r[i0 + 1] as int));
            assert(g.has_edge(y, x));
            assert(x == r[m] as int);
            lemma_prefix_bounded(g, start, dist, done, r, m);
            let dy = dist[y]->Some_0 as int;
            let w = g.edge_weight(y, x) as int;
            assert(route_weight(g, r, m) == route_weight(g, r, m - 1) + w);
            lemma_route_weight_mono(g, r, m, rl - 1);
            if dy + w <= u64::MAX {
                assert(dist[x] matches Some(dx) && (dx as int) <= dy + w);
                assert(!done[x]);
                assert(du <= dist[x]->Some_0);
            }
        }
    }
}

impl<T> Graph<T, u64> {
    /// Compute a minimum-weight route from `start` to `end`, or nothing when
    /// the predecessor walk cannot reach back to `start` (in particular when
    /// `end` equals `start`: a route here always has at least one edge).
    ///
    /// Tentative distances live in `Option`: absent means infinity. Each
    /// round finalizes the unfinished node with the smallest known distance
    /// and relaxes its outgoing edges; the walk stops early the moment `end`
    /// is selected. A route whose summed weight would not fit the weight type
    /// is treated as absent, so the total weight of a returned route always
    /// fits the weight type. A returned route is optimal: no route between
    /// the same endpoints weighs less. The weight type is fixed to unsigned
    /// 64-bit integers by design.
    pub fn dijkstras(&self, start: Node<'_, T, u64>, end: Node<'_, T, u64>) -> (r: Option<
        Path<'_, T, u64>,
    >)
        requires
            self.wf(),
            start.wf(),
            end.wf(),
            start.graph == self,
            end.graph == self,
        ensures
            start.idx == end.idx ==> r is None,
            r is Some ==> reachable(*self, start.idx as int, end.idx as int),
            start.idx != end.idx ==> (r is Some <==> reachable_within(
                *self,
                start.idx as int,
                end.idx as int,
                u64::MAX as int,
            )),
            r matches Some(p) ==> {
                &&& p.graph == self
                &&& p.wf()
                &&& p.linked()
                &&& p.path@.len() >= 2
                &&& p.path@.first() == start.idx
                &&& p.path@.last() == end.idx
                &&& p.total_weight() <= u64::MAX
                &&& route_lower_bound(*self, start.idx as int, end.idx as int, p.total_weight())
            },
    {
        let n = self.nodes.len();
        if start.idx == end.idx {
            return None;
        }
        let mut dist: Vec<Option<u64>> = vec![None; n];
        let mut pred: Vec<Option<usize>> = vec![None; n];
        let mut done: Vec<bool> = vec![false; n];
        dist[start.idx] = Some(0);
        proof {
            lemma_count_true_zero(done@);
        }
        let ghost mut rank: Seq<int> = Seq::new(n as nat, |i: int| -1);
        let mut rounds: usize = 0;
        let mut finished: bool = false;
        let mut exhausted: bool = false;
        while !finished && !exhausted && rounds < n
            invariant
                self.wf(),
                n == self.node_count(),
                (start.idx as int) < n,
                (end.idx as int) < n,
                start.idx != end.idx,
                dist@.len() == n,
                pred@.len() == n,
                done@.len() == n,
                rounds <= n,
                dist@[start.idx as int] == Some(0u64),
                links_coherent(*self, dist@, pred@),
                done_lower_bounds(*self, start.idx as int, dist@, done@),
                done_are_closest(*self, dist@, done@),
                edges_relaxed(*self, dist@, done@, end.idx as int),
                count_true(done@) == rounds,
                !finished ==> !done@[end.idx as int],
                finished ==> done@[end.idx as int],
                exhausted ==> forall|v: int|
                    0 <= v < n && !done@[v] ==> #[trigger] dist@[v] is None,
                rank.len() == n,
                forall|v: int| 0 <= v < n && #[trigger] done@[v] ==> 0 <= rank[v] < rounds,
                forall|v: int|
                    0 <= v < n ==> (#[trigger] pred@[v] matches Some(u) ==> done@[u as int]),
                forall|v: int|
                    0 <= v < n && done@[v] ==> (#[trigger] pred@[v] matches Some(u)
                        ==> rank[u as int] < rank[v]),
                forall|v: int|
                    #![trigger dist@[v]]
                    0 <= v < n && v != start.idx as int && dist@[v] is Some ==> pred@[v]
                        is Some,
            decreases (if finished || exhausted { 0int } else { 1int }), n - rounds,
        {
            let mut best: Option<usize> = None;
            let mut v: usize = 0;
            while v < n
                invariant
                    n == self.node_count(),
                    dist@.len() == n,
                    done@.len() == n,
                    v <= n,
                    best matches Some(b) ==> ((b as int) < n && !done@[b as int] && (
                    dist@[b as int] matches Some(db) && forall|v2: int|
                        #![trigger dist@[v2]]
                        0 <= v2 < v && !done@[v2] && dist@[v2] is Some ==> db
                            <= dist@[v2]->Some_0)),
                    best is None ==> forall|v2: int|
                        0 <= v2 < v && !done@[v2] ==> #[trigger] dist@[v2] is None,
                decreases n - v,
            {
                if !done[v] {
                    let dv: Option<u64> = dist[v];
                    if dv.is_some() {
                        best = match best {
                            None => Some(v),
                            Some(b) => {
                                let db: Option<u64> = dist[b];
                                if db.unwrap() <= dv.unwrap() {
                                    Some(b)
                                } else {
                                    Some(v)
                                }
                            },
                        };
                    }
                }
                v = v + 1;
            }
            if best.is_none() {
                exhausted = true;
            } else {
                let u = best.unwrap();
                let du_opt: Option<u64> = dist[u];
                let du = du_opt.unwrap();
                proof {
                    lemma_selected_is_lower_bound(
                        *self,
                        start.idx as int,
                        end.idx as int,
                        dist@,
                        done@,
                        u as int,
                        du,
                    );
                }
                let ghost done0 = done@;
                done[u] = true;
                proof {
                    rank = rank.update(u as int, rounds as int);
                    lemma_count_true_update(done0, u as int);
                    assert forall|x: int, y: int|
                        #![trigger done@[x], done@[y]]
                        0 <= x < n && 0 <= y < n && done@[x] && !done@[y] && dist@[y]
                            is Some implies (dist@[x] matches Some(dx) && dx
                        <= dist@[y]->Some_0) by {
                        if x != u {
                            assert(done0[x]);
                        }
                    }
                }
                if u == end.idx {
                    finished = true;
                } else {
                    let ghost done1 = done@;
                    let n_edges = self.nodes[u].edges.len();
                    let mut i: usize = 0;
                    while i < n_edges
                        invariant
                            self.wf(),
                            n == self.node_count(),
                            (u as int) < n,
                            (start.idx as int) < n,
                            (end.idx as int) < n,
                            u != end.idx,
                            n_edges == self.edge_seq(u as int).len(),
                            i <= n_edges,
                            dist@.len() == n,
                            pred@.len() == n,
                            done@.len() == n,
                            done0.len() == n,
                            !done0[u as int],
                            done@ == done0.update(u as int, true),
                            done@ == done1,
                            done@[u as int],
                            dist@[u as int] == Some(du),
                            dist@[start.idx as int] == Some(0u64),
                            links_coherent(*self, dist@, pred@),
                            done_lower_bounds(*self, start.idx as int, dist@, done@),
                            done_are_closest(*self, dist@, done@),
                            rank.len() == n,
                            forall|v: int|
                                0 <= v < n && #[trigger] done@[v] ==> 0 <= rank[v] <= rounds,
                            forall|v: int|
                                0 <= v < n ==> (#[trigger] pred@[v] matches Some(w2)
                                    ==> done@[w2 as int]),
                            forall|v: int|
                                0 <= v < n && done@[v] ==> (#[trigger] pred@[v] matches Some(
                                    w2,
                                ) ==> rank[w2 as int] < rank[v]),
                            forall|v: int|
                                #![trigger dist@[v]]
                                0 <= v < n && v != start.idx as int && dist@[v] is Some
                                    ==> pred@[v] is Some,
                            forall|x: int|
                                0 <= x < n && #[trigger] done@[x] ==> (dist@[x] matches Some(
                                    dx,
                                ) && dx <= du),
                            edges_relaxed(*self, dist@, done0, end.idx as int),
                            forall|j: int|
                                #![trigger self.edge_seq(u as int)[j]]
                                0 <= j < i ==> ((du as int) + (self.edge_seq(
                                    u as int,
                                )[j].1 as int) <= u64::MAX ==> (dist@[self.edge_seq(
                                    u as int,
                                )[j].0 as int] matches Some(dx) && (dx as int) <= (du as int)
                                    + (self.edge_seq(u as int)[j].1 as int))),
                        decreases n_edges - i,
                    {
                        let k = self.nodes[u].edges[i].0;
                        let w = self.nodes[u].edges[i].1;
                        proof {
                            assert((self.edge_seq(u as int)[i as int].0 as int) < n);
                            crate::pool::lemma_weight_at(self.edge_seq(u as int), i as int);
                        }
                        if w <= u64::MAX - du {
                            let nd = du + w;
                            let dk: Option<u64> = dist[k];
                            let better = match dk {
                                None => true,
                                Some(d0) => nd < d0,
                            };
                            if better {
                                proof {
                                    if done@[k as int] {
                                        assert(dist@[k as int] matches Some(dk2) && dk2
                                            <= du);
                                        assert(false);
                                    }
                                }
                                let ghost dist0 = dist@;
                                let ghost pred0 = pred@;
                                dist[k] = Some(nd);
                                pred[k] = Some(u);
                                proof {
                                    assert(self.edge_seq(u as int)[i as int].0 == k);
                                    assert(self.edge_weight(u as int, k as int) == w);
                                    assert forall|v2: int|
                                        0 <= v2 < n implies (#[trigger] pred@[v2] matches Some(
                                        w2,
                                    ) ==> ((w2 as int) < n && self.has_edge(w2 as int, v2)
                                        && (dist@[v2] matches Some(dv) && (
                                    dist@[w2 as int] matches Some(dw) && (dw as int)
                                        + (self.edge_weight(w2 as int, v2) as int)
                                        <= dv as int)))) by {
                                        if v2 != k {
                                            assert(pred@[v2] == pred0[v2]);
                                            assert(dist@[v2] == dist0[v2]);
                                            if pred0[v2] is Some {
                                                let w2 = pred0[v2]->Some_0;
                                                if (w2 as int) == k {
                                                    assert(nd
                                                        < dist0[k as int]->Some_0);
                                                } else {
                                                    assert(dist@[w2 as int]
                                                        == dist0[w2 as int]);
                                                }
                                            }
                                        }
                                    }
                                    assert forall|x: int, y: int|
                                        #![trigger done@[x], done@[y]]
                                        0 <= x < n && 0 <= y < n && done@[x] && !done@[y]
                                            && dist@[y] is Some implies (
                                    dist@[x] matches Some(dx) && dx
                                        <= dist@[y]->Some_0) by {
                                        assert(dist@[x] == dist0[x]);
                                        if y != k {
                                            assert(dist@[y] == dist0[y]);
                                        }
                                    }
                                    assert forall|y: int, x: int|
                                        #![trigger done0[y], self.has_edge(y, x)]
                                        0 <= y < n && done0[y] && y != end.idx as int
                                            && self.has_edge(y, x) implies (
                                    dist@[y] matches Some(dy) && ((dy as int)
                                        + (self.edge_weight(y, x) as int) <= u64::MAX ==> (
                                    dist@[x] matches Some(dx2) && (dx2 as int) <= (
                                    dy as int) + (self.edge_weight(y, x) as int)))) by {
                                        assert(!done0[u as int]);
                                        assert(y != u as int);
                                        assert(done@[y]);
                                        assert(y != k as int);
                                        assert(dist@[y] == dist0[y]);
                                        if x != k {
                                            assert(dist@[x] == dist0[x]);
                                        }
                                    }
                                }
                            }
                        }
                        i = i + 1;
                    }
                    proof {
                        assert forall|y: int, x: int|
                            #![trigger done@[y], self.has_edge(y, x)]
                            0 <= y < n && done@[y] && y != end.idx as int && self.has_edge(
                                y,
                                x,
                            ) implies (dist@[y] matches Some(dy) && ((dy as int)
                            + (self.edge_weight(y, x) as int) <= u64::MAX ==> (
                        dist@[x] matches Some(dx) && (dx as int) <= (dy as int)
                            + (self.edge_weight(y, x) as int)))) by {
                            if y == u as int {
                                let es = self.edge_seq(u as int);
                                let j = choose|j: int|
                                    0 <= j < es.len() && es[j].0 == x;
                                crate::pool::lemma_weight_at(es, j);
                                assert(es[j].1 == self.edge_weight(u as int, x));
                            } else {
                                assert(done0[y]);
                            }
                        }
                    }
                }
                rounds = rounds + 1;
            }
        }
        proof {
            if !finished && !exhausted {
                assert(count_true(done@) == n);
                assert forall|v: int| 0 <= v < n implies done@[v] by {
                    lemma_count_true_full(done@, v);
                }
                assert(done@[end.idx as int]);
                assert(false);
            }
            if reachable_within(*self, start.idx as int, end.idx as int, u64::MAX as int)
                && !done@[end.idx as int] {
                assert(exhausted);
                lemma_exhausted_complete(
                    *self,
                    start.idx as int,
                    end.idx as int,
                    dist@,
                    done@,
                );
                assert(false);
            }
        }
        // Walk the predecessor pointers back from `end`; give up if the walk
        // breaks off or fails to reach `start` within the pool size.
        let mut chain: Vec<usize> = Vec::new();
        let mut prev: usize = end.idx;
        let ghost mut acc: int = 0int;
        while prev != start.idx
            invariant
                self.wf(),
                n == self.node_count(),
                (start.idx as int) < n,
                (end.idx as int) < n,
                (prev as int) < n,
                pred@.len() == n,
                dist@.len() == n,
                chain@.len() <= n,
                links_coherent(*self, dist@, pred@),
                chain@.len() == 0 ==> prev == end.idx && acc == 0,
                chain@.len() > 0 ==> chain@[0] == end.idx,
                chain@.len() > 0 ==> self.has_edge(prev as int, chain@.last() as int),
                chain@.len() > 0 ==> (dist@[prev as int] matches Some(dp) && (
                dist@[end.idx as int] matches Some(de) && acc + (dp as int) <= de as int)),
                chain@.len() > 0 ==> acc == back_weight(*self, chain@.push(prev)),
                acc >= 0,
                forall|i: int|
                    0 <= i < chain@.len() - 1 ==> #[trigger] self.has_edge(
                        chain@[i + 1] as int,
                        chain@[i] as int,
                    ),
                forall|i: int| 0 <= i < chain@.len() ==> (chain@[i] as int) < n,
                done@.len() == n,
                rank.len() == n,
                done_lower_bounds(*self, start.idx as int, dist@, done@),
                forall|v: int| 0 <= v < n && #[trigger] done@[v] ==> 0 <= rank[v] < n,
                forall|v: int|
                    0 <= v < n ==> (#[trigger] pred@[v] matches Some(u) ==> done@[u as int]),
                forall|v: int|
                    0 <= v < n && done@[v] ==> (#[trigger] pred@[v] matches Some(u)
                        ==> rank[u as int] < rank[v]),
                forall|v: int|
                    #![trigger dist@[v]]
                    0 <= v < n && v != start.idx as int && dist@[v] is Some ==> pred@[v]
                        is Some,
                reachable_within(*self, start.idx as int, end.idx as int, u64::MAX as int)
                    ==> (done@[end.idx as int] && done@[prev as int] && chain@.len()
                    + rank[prev as int] <= rank[end.idx as int]),
            decreases n - chain@.len(),
        {
            if chain.len() >= n {
                proof {
                    if reachable_within(
                        *self,
                        start.idx as int,
                        end.idx as int,
                        u64::MAX as int,
                    ) {
                        assert(0 <= rank[prev as int]);
                        assert(rank[end.idx as int] < n);
                        assert(false);
                    }
                }
                return None;
            }
            let ghost chain0 = chain@;
            chain.push(prev);
            let po: Option<usize> = pred[prev];
            match po {
                None => {
                    proof {
                        if reachable_within(
                            *self,
                            start.idx as int,
                            end.idx as int,
                            u64::MAX as int,
                        ) {
                            assert(done@[prev as int]);
                            assert(dist@[prev as int] is Some);
                            assert(pred@[prev as int] is Some);
                            assert(false);
                        }
                    }
                    return None;
                },
                Some(p) => {
                    proof {
                        if chain0.len() == 0 {
                            assert(chain@ =~= seq![prev]);
                            assert(back_weight(*self, chain@) == 0);
                        } else {
                            assert(chain@ == chain0.push(prev));
                        }
                        lemma_back_weight_push(*self, chain@, p);
                        assert(chain@.push(p).last() == p);
                        acc = acc + (self.edge_weight(p as int, prev as int) as int);
                    }
                    prev = p;
                },
            }
        }
        chain.push(prev);
        proof {
            assert(chain@.len() >= 2);
            assert(chain@.last() == start.idx);
            assert forall|i: int| 0 <= i < chain@.len() - 1 implies #[trigger] self.has_edge(
                chain@[i + 1] as int,
                chain@[i] as int,
            ) by {
                if i + 1 == chain@.len() - 1 {
                    assert(chain@[i + 1] == start.idx);
                }
            }
            assert(acc == back_weight(*self, chain@));
            assert(acc <= u64::MAX);
        }
        let mut route: Vec<usize> = Vec::new();
        let mut k: usize = chain.len();
        while k > 0
            invariant
                route@.len() + k == chain@.len(),
                k <= chain@.len(),
                forall|i: int|
                    0 <= i < route@.len() ==> route@[i] == chain@[chain@.len() - 1 - i],
            decreases k,
        {
            k = k - 1;
            route.push(chain[k]);
        }
        proof {
            assert(route@.len() == chain@.len());
            assert(route@.first() == start.idx);
            assert(route@.last() == end.idx);
            assert forall|i: int| 0 <= i < route@.len() - 1 implies #[trigger] self.has_edge(
                route@[i] as int,
                route@[i + 1] as int,
            ) by {
                let j = chain@.len() - 2 - i;
                assert(route@[i] == chain@[j + 1]);
                assert(route@[i + 1] == chain@[j]);
                assert(self.has_edge(chain@[j + 1] as int, chain@[j] as int));
            }
            lemma_back_weight_reverse(*self, chain@, route@);
            assert(route_weight(*self, route@, route@.len() - 1) == acc);
            assert(is_route(*self, route@));
            assert((route@.first() as int) == start.idx as int && (route@.last() as int)
                == end.idx as int);
            assert(reachable(*self, start.idx as int, end.idx as int));
            assert(reachable_within(*self, start.idx as int, end.idx as int, u64::MAX as int));
            // the returned route is optimal: the walk halted only once the
            // destination's recorded distance undercuts every route, and the
            // recorded route costs no more than that distance
            assert(done@[end.idx as int]) by {
                if !done@[end.idx as int] {
                    assert(!finished);
                    assert(exhausted);
                    assert(dist@[end.idx as int] is None);
                    assert(false);
                }
            }
            let de = dist@[end.idx as int]->Some_0;
            assert(route_lower_bound(*self, start.idx as int, end.idx as int, de as int));
            assert(acc <= de as int);
            assert forall|q: Seq<usize>|
                #![trigger is_route(*self, q)]
                is_route(*self, q) && (q.first() as int) == start.idx as int && (
            q.last() as int) == end.idx as int implies route_weight(*self, q, q.len() - 1)
                >= acc by {
                assert(route_weight(*self, q, q.len() - 1) >= de as int);
            }
        }
        Some(Path { graph: self, path: route })
    }
}

} // verus!
