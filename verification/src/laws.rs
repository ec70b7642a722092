//! The library's general guarantees, stated once over the contracts of the
//! operations they concern and proved for every graph and every input.

use vstd::prelude::*;
use crate::pool::{connect_post, seq_has_key, Graph};

verus! {

/// Indices handed out by `insert` are unique and strictly increasing.
///
/// `insert` returns the pool size found before the call and grows the pool by
/// one, and no operation ever shrinks the pool. So between any earlier insert
/// (from `pre1` to `post1`, returning `i1`) and any later insert (from
/// `pre2`, returning `i2`), whatever operations ran in between, the later
/// index is strictly larger.
pub proof fn lemma_insert_indices_increase<T, E>(
    pre1: Graph<T, E>,
    post1: Graph<T, E>,
    i1: int,
    pre2: Graph<T, E>,
    i2: int,
)
    requires
        i1 == pre1.node_count(),
        post1.node_count() == pre1.node_count() + 1,
        pre2.node_count() >= post1.node_count(),
        i2 == pre2.node_count(),
    ensures
        i1 < i2,
{
}

/// Connecting the same ordered pair twice, with different weights, leaves
/// exactly one edge between the pair, carrying the weight of the later call:
/// the second connection overwrites, it does not duplicate.
pub proof fn lemma_connect_overwrites<T, E>(
    g0: Graph<T, E>,
    g1: Graph<T, E>,
    g2: Graph<T, E>,
    s: int,
    e: int,
    w1: E,
    w2: E,
)
    requires
        connect_post(g0, g1, s, e, w1),
        connect_post(g1, g2, s, e, w2),
    ensures
        g2.wf(),
        g2.edge_weight(s, e) == w2,
        forall|x: int, y: int|
            #![trigger g2.has_edge(x, y)]
            #![trigger g0.has_edge(x, y)]
            g2.has_edge(x, y) <==> (g0.has_edge(x, y) || (x == s && y == e)),
        forall|x: int, y: int|
            g0.has_edge(x, y) && !(x == s && y == e) ==> g2.edge_weight(x, y) == g0.edge_weight(
                x,
                y,
            ),
{
}

/// An undirected weighted connection is two directed ones: afterwards an edge
/// runs in each direction between the endpoints, both carrying the given
/// weight, and each endpoint's ordered edge list holds the other's index, so
/// enumerating the neighbors of either endpoint yields the other.
pub proof fn lemma_undirected_is_symmetric<T, E>(
    g0: Graph<T, E>,
    g1: Graph<T, E>,
    g2: Graph<T, E>,
    s: int,
    e: int,
    w: E,
)
    requires
        connect_post(g0, g1, s, e, w),
        connect_post(g1, g2, e, s, w),
        0 <= s < g0.node_count(),
        0 <= e < g0.node_count(),
    ensures
        g2.has_edge(s, e),
        g2.has_edge(e, s),
        g2.edge_weight(s, e) == w,
        g2.edge_weight(e, s) == w,
        seq_has_key(g2.edge_seq(s), e),
        seq_has_key(g2.edge_seq(e), s),
{
    assert(g1.has_edge(s, e));
    assert(g2.has_edge(s, e));
    assert(g2.has_edge(e, s));
    if s == e {
        assert(g2.edge_weight(s, e) == w);
    } else {
        assert(g2.edge_weight(s, e) == g1.edge_weight(s, e));
    }
}

} // verus!
