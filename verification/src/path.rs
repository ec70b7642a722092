//! A recorded route through a graph: an ordered sequence of pool indices,
//! borrowing the graph it runs through.

use vstd::prelude::*;
use crate::pool::{Graph, Node, WeakNode};

verus! {

/// A path through a graph. Immediately after construction by the shortest-path
/// query every consecutive pair is joined by a directed edge; `push` may
/// append an arbitrary node without that check, at the caller's risk.
pub struct Path<'a, T, E> {
    pub graph: &'a Graph<T, E>,
    pub path: Vec<usize>,
}

impl<'a, T, E> Path<'a, T, E> {
    /// Every recorded index lies inside the pool of a well-formed graph.
    pub open spec fn wf(self) -> bool {
        &&& self.graph.wf()
        &&& forall|i: int| 0 <= i < self.path@.len() ==> (self.path@[i] as int)
            < self.graph.node_count()
    }

    /// Every consecutive pair of entries is joined by a directed edge.
    pub open spec fn linked(self) -> bool {
        forall|i: int|
            0 <= i < self.path@.len() - 1 ==> #[trigger] self.graph.has_edge(
                self.path@[i] as int,
                self.path@[i + 1] as int,
            )
    }

    /// Walk the recorded indices as strong handles, front to back.
    pub fn iter(&self) -> (it: PathIterator<'_, T, E>)
        requires
            self.wf(),
        ensures
            it.wf(),
            it.graph == self.graph,
            it.indices@ == self.path@,
            it.pos == 0,
    {
        PathIterator { graph: self.graph, indices: &self.path, pos: 0 }
    }

    /// Append the referenced node to the end of the route, bounds-checked
    /// against the pool but without any edge check.
    pub fn push(&mut self, node: WeakNode<T, E>)
        requires
            old(self).wf(),
            (node.0 as int) < old(self).graph.node_count(),
        ensures
            final(self).wf(),
            final(self).graph == old(self).graph,
            final(self).path@ == old(self).path@.push(node.0),
    {
        self.path.push(node.0);
    }
}

impl<'a, T> Path<'a, T, u64> {
    /// The summed weight of the first `upto` edges along the route.
    pub open spec fn weight_sum(self, upto: int) -> int {
        crate::pool::route_weight(*self.graph, self.path@, upto)
    }

    /// The total weight of the route: the sum of the weights of the edges
    /// joining consecutive entries.
    pub open spec fn total_weight(self) -> int {
        self.weight_sum(self.path@.len() - 1)
    }

    /// Partial edge-weight sums along a route never decrease.
    pub proof fn lemma_weight_sum_mono(self, i: int, j: int)
        requires
            0 <= i <= j,
        ensures
            self.weight_sum(i) <= self.weight_sum(j),
    {
        crate::pool::lemma_route_weight_mono(*self.graph, self.path@, i, j);
    }

    /// Compute the total weight of the route by summing the weight of each
    /// consecutive edge. Like the shortest-path query, this exists for
    /// unsigned 64-bit weights by design.
    pub fn len(&self) -> (r: u64)
        requires
            self.wf(),
            self.linked(),
            self.path@.len() >= 1,
            self.total_weight() <= u64::MAX,
        ensures
            r as int == self.total_weight(),
    {
        let mut acc: u64 = 0;
        let m = self.path.len() - 1;
        let mut i: usize = 0;
        while i < m
            invariant
                self.wf(),
                self.linked(),
                m == self.path@.len() - 1,
                i <= m,
                acc as int == self.weight_sum(i as int),
                self.total_weight() <= u64::MAX,
            decreases m - i,
        {
            let a = self.path[i];
            let b = self.path[i + 1];
            let w_opt = self.graph.lookup_weight(a, b);
            proof {
                assert(self.graph.has_edge(a as int, b as int));
                self.lemma_weight_sum_mono(i as int + 1, self.path@.len() - 1);
                self.lemma_weight_sum_mono(0, i as int);
            }
            let w = w_opt.unwrap();
            acc = acc + w;
            i = i + 1;
        }
        acc
    }
}

/// Walks a recorded route, yielding a strong handle per entry, front to back.
pub struct PathIterator<'a, T, E> {
    pub graph: &'a Graph<T, E>,
    pub indices: &'a Vec<usize>,
    pub pos: usize,
}

impl<'a, T, E> PathIterator<'a, T, E> {
    /// The cursor points inside a well-formed graph and at most one past the
    /// end of the route.
    pub open spec fn wf(self) -> bool {
        &&& self.graph.wf()
        &&& self.pos <= self.indices@.len()
        &&& forall|i: int| 0 <= i < self.indices@.len() ==> (self.indices@[i] as int)
            < self.graph.node_count()
    }

    /// Yield a strong handle to the next entry of the route, or nothing once
    /// it is exhausted.
    pub fn next(&mut self) -> (r: Option<Node<'a, T, E>>)
        requires
            old(self).wf(),
        ensures
            final(self).wf(),
            final(self).graph == old(self).graph,
            final(self).indices == old(self).indices,
            if (old(self).pos as int) < old(self).indices@.len() {
                &&& final(self).pos == old(self).pos + 1
                &&& r matches Some(nd) && nd.graph == old(self).graph && nd.idx == old(
                    self,
                ).indices@[old(self).pos as int] && nd.wf()
            } else {
                r is None && final(self).pos == old(self).pos
            },
    {
        if self.pos < self.indices.len() {
            let k = self.indices[self.pos];
            self.pos = self.pos + 1;
            Some(Node { graph: self.graph, idx: k })
        } else {
            None
        }
    }
}

} // verus!
