//! Traversal iterators: neighbor enumeration, depth-first and breadth-first
//! walks. Each one is a lazy, consume-once producer of strong handles; a call
//! to `next` advances the walk by exactly one node.

use vstd::prelude::*;
use crate::pool::{
    is_route, lemma_edge_reachable, lemma_reachable_step, reachable, Graph, Node, NodeMut,
};

verus! {

/// One expansion step shared by the two walks: scan an edge list in ascending
/// destination order and, for every destination not yet marked, mark it and
/// append it to the worklist. Appended entries therefore carry ascending
/// indices; a stack will hand them back in descending order, a queue in
/// ascending order.
pub open spec fn mark_and_add<E>(
    edges: Seq<(usize, E)>,
    work: Seq<usize>,
    visited: Seq<bool>,
) -> (Seq<usize>, Seq<bool>)
    decreases edges.len(),
{
    if edges.len() == 0 {
        (work, visited)
    } else {
        let k = edges[0].0;
        if visited[k as int] {
            mark_and_add(edges.drop_first(), work, visited)
        } else {
            mark_and_add(edges.drop_first(), work.push(k), visited.update(k as int, true))
        }
    }
}

/// Enumerates the direct out-neighbors of one node, in ascending destination
/// index order (the order of the ordered edge list, not insertion order).
pub struct Neighbors<'a, T, E> {
    pub graph: &'a Graph<T, E>,
    pub node: usize,
    pub pos: usize,
}

impl<'a, T, E> Neighbors<'a, T, E> {
    /// The cursor points inside a well-formed graph and at most one past the
    /// end of the enumerated edge list.
    pub open spec fn wf(self) -> bool {
        &&& self.graph.wf()
        &&& (self.node as int) < self.graph.node_count()
        &&& self.pos <= self.graph.edge_seq(self.node as int).len()
    }

    /// Yield a strong handle to the next neighbor, or nothing once the edge
    /// list is exhausted.
    pub fn next(&mut self) -> (r: Option<Node<'a, T, E>>)
        requires
            old(self).wf(),
        ensures
            final(self).wf(),
            final(self).graph == old(self).graph,
            final(self).node == old(self).node,
            if (old(self).pos as int) < old(self).graph.edge_seq(old(self).node as int).len() {
                &&& final(self).pos == old(self).pos + 1
                &&& r matches Some(nd) && nd.graph == old(self).graph && nd.idx == old(
                    self,
                ).graph.edge_seq(old(self).node as int)[old(self).pos as int].0 && nd.wf()
            } else {
                r is None && final(self).pos == old(self).pos
            },
    {
        let g = self.graph;
        if self.pos < g.nodes[self.node].edges.len() {
            let k = g.nodes[self.node].edges[self.pos].0;
            self.pos = self.pos + 1;
            proof {
                assert(self.graph.has_edge(self.node as int, k as int));
            }
            Some(Node { graph: g, idx: k })
        } else {
            None
        }
    }
}

/// An explicit-stack depth-first walk. A node is marked the moment it is put
/// on the stack, the starting node at creation, so no node ever enters the
/// stack twice and none is yielded twice.
pub struct DepthFirst<'a, T, E> {
    pub graph: &'a Graph<T, E>,
    pub stack: Vec<usize>,
    pub visited: Vec<bool>,
    pub from: Ghost<int>,
    pub emitted: Ghost<Set<int>>,
}

impl<'a, T, E> DepthFirst<'a, T, E> {
    /// Some pending stack entry carries the index `v`.
    pub open spec fn pending(self, v: int) -> bool {
        exists|j: int| 0 <= j < self.stack@.len() && (self.stack@[j] as int) == v
    }

    /// The walk's state fits the graph: marks cover the pool, every pending
    /// stack entry is a valid index, and every pending entry is the start or
    /// reachable from it — so the walk never leaves the start's reachable
    /// region. Every pending entry is marked, a node already yielded is
    /// marked and no longer pending, and no index is pending twice: together
    /// these keep any node from being yielded twice.
    pub open spec fn wf(self) -> bool {
        &&& self.graph.wf()
        &&& self.visited@.len() == self.graph.node_count()
        &&& forall|j: int| 0 <= j < self.stack@.len() ==> (self.stack@[j] as int)
            < self.graph.node_count()
        &&& forall|j: int|
            0 <= j < self.stack@.len() ==> ((self.stack@[j] as int) == self.from@ || reachable(
                *self.graph,
                self.from@,
                self.stack@[j] as int,
            ))
        &&& forall|j: int|
            0 <= j < self.stack@.len() ==> self.visited@[self.stack@[j] as int]
        &&& forall|v: int|
            #[trigger] self.emitted@.contains(v) ==> 0 <= v < self.graph.node_count()
                && self.visited@[v]
        &&& forall|v: int| #[trigger] self.emitted@.contains(v) ==> !self.pending(v)
        &&& forall|j1: int, j2: int|
            0 <= j1 < j2 < self.stack@.len() ==> self.stack@[j1] != self.stack@[j2]
        &&& forall|v: int|
            #[trigger] self.emitted@.contains(v) ==> forall|x: int|
                #[trigger] self.graph.has_edge(v, x) ==> self.visited@[x]
        &&& forall|v: int|
            0 <= v < self.graph.node_count() && #[trigger] self.visited@[v] ==> (
            self.emitted@.contains(v) || self.pending(v))
    }

    /// Pop the top of the stack, push its unmarked neighbors (scanned in
    /// ascending order, so popped later in descending order), mark them, and
    /// yield the popped node. Whatever comes out is the start of the walk or
    /// reachable from it, and nothing comes out twice over the whole walk.
    pub fn next(&mut self) -> (r: Option<Node<'a, T, E>>)
        requires
            old(self).wf(),
        ensures
            final(self).wf(),
            final(self).graph == old(self).graph,
            final(self).from == old(self).from,
            r matches Some(nd) ==> ((nd.idx as int) == old(self).from@ || reachable(
                *old(self).graph,
                old(self).from@,
                nd.idx as int,
            )),
            r matches Some(nd) ==> final(self).emitted@ == old(self).emitted@.insert(
                nd.idx as int,
            ),
            r matches Some(nd) ==> !old(self).emitted@.contains(nd.idx as int),
            if old(self).stack@.len() == 0 {
                &&& r is None
                &&& final(self).stack@ == old(self).stack@
                &&& final(self).visited@ == old(self).visited@
                &&& final(self).emitted@ == old(self).emitted@
            } else {
                let cur = old(self).stack@.last();
                let step = mark_and_add(
                    old(self).graph.edge_seq(cur as int),
                    old(self).stack@.drop_last(),
                    old(self).visited@,
                );
                &&& final(self).stack@ == step.0
                &&& final(self).visited@ == step.1
                &&& r matches Some(nd) && nd.graph == old(self).graph && nd.idx == cur
                    && nd.wf()
            },
    {
        let g = self.graph;
        if self.stack.len() == 0 {
            return None;
        }
        let cur = self.stack.pop().unwrap();
        let ghost es = g.edge_seq(cur as int);
        let ghost stack0 = self.stack@;
        let ghost vis0 = self.visited@;
        let ghost from = self.from@;
        let ghost emitted0 = self.emitted@;
        let n_edges = g.nodes[cur].edges.len();
        let mut i: usize = 0;
        proof {
            assert(es.skip(0) =~= es);
            assert((old(self).stack@.last() as int) == cur as int);
            assert(!emitted0.contains(cur as int));
            assert(old(self).visited@[cur as int]);
            assert forall|v: int|
                0 <= v < g.node_count() && self.visited@[v] implies (emitted0.contains(v)
                || self.pending(v) || v == cur as int) by {
                if !emitted0.contains(v) && v != cur as int {
                    assert(old(self).pending(v));
                    let j = choose|j: int|
                        0 <= j < old(self).stack@.len() && (old(self).stack@[j] as int) == v;
                    assert(j < old(self).stack@.len() - 1);
                    assert(self.stack@[j] == old(self).stack@[j]);
                    assert(self.pending(v));
                }
            }
        }
        while i < n_edges
            invariant
                g.wf(),
                g == old(self).graph,
                (cur as int) < g.node_count(),
                (cur as int) == from || reachable(*g, from, cur as int),
                n_edges == es.len(),
                i <= n_edges,
                es == g.edge_seq(cur as int),
                self.graph == g,
                self.from@ == from,
                self.emitted@ == emitted0,
                self.visited@.len() == g.node_count(),
                self.visited@[cur as int],
                forall|j: int|
                    0 <= j < self.stack@.len() ==> (self.stack@[j] as int) != cur as int,
                forall|j: int| 0 <= j < self.stack@.len() ==> (self.stack@[j] as int)
                    < g.node_count(),
                forall|j: int|
                    0 <= j < self.stack@.len() ==> ((self.stack@[j] as int) == from
                        || reachable(*g, from, self.stack@[j] as int)),
                forall|j: int|
                    0 <= j < self.stack@.len() ==> self.visited@[self.stack@[j] as int],
                forall|v: int|
                    #[trigger] emitted0.contains(v) ==> 0 <= v < g.node_count()
                        && self.visited@[v],
                forall|v: int|
                    #[trigger] emitted0.contains(v) ==> forall|j: int|
                        0 <= j < self.stack@.len() ==> (self.stack@[j] as int) != v,
                forall|j1: int, j2: int|
                    0 <= j1 < j2 < self.stack@.len() ==> self.stack@[j1] != self.stack@[j2],
                forall|v: int|
                    #[trigger] emitted0.contains(v) ==> forall|x: int|
                        #[trigger] g.has_edge(v, x) ==> self.visited@[x],
                forall|j: int| #![trigger es[j]] 0 <= j < i ==> self.visited@[es[j].0 as int],
                forall|v: int|
                    0 <= v < g.node_count() && #[trigger] self.visited@[v] ==> (
                    emitted0.contains(v) || self.pending(v) || v == cur as int),
                mark_and_add(es, stack0, vis0) == mark_and_add(
                    es.skip(i as int),
                    self.stack@,
                    self.visited@,
                ),
            decreases n_edges - i,
        {
            let k = g.nodes[cur].edges[i].0;
            proof {
                assert((es[i as int].0 as int) < g.node_count());
                assert(es.skip(i as int)[0] == es[i as int]);
                assert(es.skip(i as int).drop_first() =~= es.skip(i as int + 1));
                assert(crate::pool::seq_has_key(es, k as int));
                assert(g.has_edge(cur as int, k as int));
                if (cur as int) == from {
                    lemma_edge_reachable(*g, cur as int, k as int);
                } else {
                    lemma_reachable_step(*g, from, cur as int, k as int);
                }
            }
            if !self.visited[k] {
                let ghost stack_pre = self.stack@;
                self.stack.push(k);
                self.visited[k] = true;
                proof {
                    assert forall|v: int|
                        0 <= v < g.node_count() && self.visited@[v] implies (
                    emitted0.contains(v) || self.pending(v) || v == cur as int) by {
                        if v == k as int {
                            assert((self.stack@.last() as int) == v);
                            assert(self.pending(v));
                        } else if !emitted0.contains(v) && v != cur as int {
                            let j = choose|j: int|
                                0 <= j < stack_pre.len() && (stack_pre[j] as int) == v;
                            assert(self.stack@[j] == stack_pre[j]);
                            assert(self.pending(v));
                        }
                    }
                }
            }
            i = i + 1;
        }
        proof {
            assert(es.skip(n_edges as int).len() == 0);
        }
        self.emitted = Ghost(self.emitted@.insert(cur as int));
        proof {
            assert forall|v: int| #[trigger] self.emitted@.contains(v)
                implies !self.pending(v) by {
                if v == cur as int {
                    assert(forall|j: int|
                        0 <= j < self.stack@.len() ==> (self.stack@[j] as int) != v);
                } else {
                    assert(emitted0.contains(v));
                }
            }
            assert forall|v: int| #[trigger] self.emitted@.contains(v) implies forall|x: int|
                #[trigger] g.has_edge(v, x) ==> self.visited@[x] by {
                if v == cur as int {
                    assert forall|x: int| #[trigger] g.has_edge(cur as int, x)
                        implies self.visited@[x] by {
                        let j = choose|j: int| 0 <= j < es.len() && es[j].0 == x;
                        assert(self.visited@[es[j].0 as int]);
                    }
                } else {
                    assert(emitted0.contains(v));
                }
            }
        }
        Some(Node { graph: g, idx: cur })
    }
}

/// A queue-based breadth-first walk. A node is marked the moment it is put
/// in the queue, the starting node at creation, so no node ever enters the
/// queue twice and none is yielded twice.
pub struct BreadthFirst<'a, T, E> {
    pub graph: &'a Graph<T, E>,
    pub queue: Vec<usize>,
    pub visited: Vec<bool>,
    pub from: Ghost<int>,
    pub emitted: Ghost<Set<int>>,
}

impl<'a, T, E> BreadthFirst<'a, T, E> {
    /// Some queued entry carries the index `v`.
    pub open spec fn pending(self, v: int) -> bool {
        exists|j: int| 0 <= j < self.queue@.len() && (self.queue@[j] as int) == v
    }

    /// The walk's state fits the graph: marks cover the pool, every queued
    /// entry is a valid index, and every queued entry is the start or
    /// reachable from it — so the walk never leaves the start's reachable
    /// region. Every queued entry is marked, a node already yielded is
    /// marked and no longer queued, and no index is queued twice: together
    /// these keep any node from being yielded twice.
    pub open spec fn wf(self) -> bool {
        &&& self.graph.wf()
        &&& self.visited@.len() == self.graph.node_count()
        &&& forall|j: int| 0 <= j < self.queue@.len() ==> (self.queue@[j] as int)
            < self.graph.node_count()
        &&& forall|j: int|
            0 <= j < self.queue@.len() ==> ((self.queue@[j] as int) == self.from@ || reachable(
                *self.graph,
                self.from@,
                self.queue@[j] as int,
            ))
        &&& forall|j: int|
            0 <= j < self.queue@.len() ==> self.visited@[self.queue@[j] as int]
        &&& forall|v: int|
            #[trigger] self.emitted@.contains(v) ==> 0 <= v < self.graph.node_count()
                && self.visited@[v]
        &&& forall|v: int| #[trigger] self.emitted@.contains(v) ==> !self.pending(v)
        &&& forall|j1: int, j2: int|
            0 <= j1 < j2 < self.queue@.len() ==> self.queue@[j1] != self.queue@[j2]
        &&& forall|v: int|
            #[trigger] self.emitted@.contains(v) ==> forall|x: int|
                #[trigger] self.graph.has_edge(v, x) ==> self.visited@[x]
        &&& forall|v: int|
            0 <= v < self.graph.node_count() && #[trigger] self.visited@[v] ==> (
            self.emitted@.contains(v) || self.pending(v))
    }

    /// Dequeue the front of the queue, enqueue its unmarked neighbors in
    /// ascending order, mark them, and yield the dequeued node. Whatever
    /// comes out is the start of the walk or reachable from it, and nothing
    /// comes out twice over the whole walk.
    pub fn next(&mut self) -> (r: Option<Node<'a, T, E>>)
        requires
            old(self).wf(),
        ensures
            final(self).wf(),
            final(self).graph == old(self).graph,
            final(self).from == old(self).from,
            r matches Some(nd) ==> ((nd.idx as int) == old(self).from@ || reachable(
                *old(self).graph,
                old(self).from@,
                nd.idx as int,
            )),
            r matches Some(nd) ==> final(self).emitted@ == old(self).emitted@.insert(
                nd.idx as int,
            ),
            r matches Some(nd) ==> !old(self).emitted@.contains(nd.idx as int),
            if old(self).queue@.len() == 0 {
                &&& r is None
                &&& final(self).queue@ == old(self).queue@
                &&& final(self).visited@ == old(self).visited@
                &&& final(self).emitted@ == old(self).emitted@
            } else {
                let cur = old(self).queue@.first();
                let step = mark_and_add(
                    old(self).graph.edge_seq(cur as int),
                    old(self).queue@.drop_first(),
                    old(self).visited@,
                );
                &&& final(self).queue@ == step.0
                &&& final(self).visited@ == step.1
                &&& r matches Some(nd) && nd.graph == old(self).graph && nd.idx == cur
                    && nd.wf()
            },
    {
        let g = self.graph;
        if self.queue.len() == 0 {
            return None;
        }
        let cur = self.queue.remove(0);
        let ghost es = g.edge_seq(cur as int);
        let ghost queue0 = self.queue@;
        let ghost vis0 = self.visited@;
        let ghost from = self.from@;
        let ghost emitted0 = self.emitted@;
        proof {
            assert(queue0 =~= old(self).queue@.drop_first());
            assert((old(self).queue@.first() as int) == cur as int);
            assert(!emitted0.contains(cur as int));
            assert(old(self).visited@[cur as int]);
            assert forall|v: int|
                0 <= v < g.node_count() && self.visited@[v] implies (emitted0.contains(v)
                || self.pending(v) || v == cur as int) by {
                if !emitted0.contains(v) && v != cur as int {
                    assert(old(self).pending(v));
                    let j = choose|j: int|
                        0 <= j < old(self).queue@.len() && (old(self).queue@[j] as int) == v;
                    assert(j >= 1);
                    assert(self.queue@[j - 1] == old(self).queue@[j]);
                    assert(self.pending(v));
                }
            }
        }
        let n_edges = g.nodes[cur].edges.len();
        let mut i: usize = 0;
        proof {
            assert(es.skip(0) =~= es);
        }
        while i < n_edges
            invariant
                g.wf(),
                g == old(self).graph,
                (cur as int) < g.node_count(),
                (cur as int) == from || reachable(*g, from, cur as int),
                n_edges == es.len(),
                i <= n_edges,
                es == g.edge_seq(cur as int),
                self.graph == g,
                self.from@ == from,
                self.emitted@ == emitted0,
                self.visited@.len() == g.node_count(),
                self.visited@[cur as int],
                forall|j: int|
                    0 <= j < self.queue@.len() ==> (self.queue@[j] as int) != cur as int,
                forall|j: int| 0 <= j < self.queue@.len() ==> (self.queue@[j] as int)
                    < g.node_count(),
                forall|j: int|
                    0 <= j < self.queue@.len() ==> ((self.queue@[j] as int) == from
                        || reachable(*g, from, self.queue@[j] as int)),
                forall|j: int|
                    0 <= j < self.queue@.len() ==> self.visited@[self.queue@[j] as int],
                forall|v: int|
                    #[trigger] emitted0.contains(v) ==> 0 <= v < g.node_count()
                        && self.visited@[v],
                forall|v: int|
                    #[trigger] emitted0.contains(v) ==> forall|j: int|
                        0 <= j < self.queue@.len() ==> (self.queue@[j] as int) != v,
                forall|j1: int, j2: int|
                    0 <= j1 < j2 < self.queue@.len() ==> self.queue@[j1] != self.queue@[j2],
                forall|v: int|
                    #[trigger] emitted0.contains(v) ==> forall|x: int|
                        #[trigger] g.has_edge(v, x) ==> self.visited@[x],
                forall|j: int| #![trigger es[j]] 0 <= j < i ==> self.visited@[es[j].0 as int],
                forall|v: int|
                    0 <= v < g.node_count() && #[trigger] self.visited@[v] ==> (
                    emitted0.contains(v) || self.pending(v) || v == cur as int),
                mark_and_add(es, queue0, vis0) == mark_and_add(
                    es.skip(i as int),
                    self.queue@,
                    self.visited@,
                ),
            decreases n_edges - i,
        {
            let k = g.nodes[cur].edges[i].0;
            proof {
                assert((es[i as int].0 as int) < g.node_count());
                assert(es.skip(i as int)[0] == es[i as int]);
                assert(es.skip(i as int).drop_first() =~= es.skip(i as int + 1));
                assert(crate::pool::seq_has_key(es, k as int));
                assert(g.has_edge(cur as int, k as int));
                if (cur as int) == from {
                    lemma_edge_reachable(*g, cur as int, k as int);
                } else {
                    lemma_reachable_step(*g, from, cur as int, k as int);
                }
            }
            if !self.visited[k] {
                let ghost queue_pre = self.queue@;
                self.queue.push(k);
                self.visited[k] = true;
                proof {
                    assert forall|v: int|
                        0 <= v < g.node_count() && self.visited@[v] implies (
                    emitted0.contains(v) || self.pending(v) || v == cur as int) by {
                        if v == k as int {
                            assert((self.queue@.last() as int) == v);
                            assert(self.pending(v));
                        } else if !emitted0.contains(v) && v != cur as int {
                            let j = choose|j: int|
                                0 <= j < queue_pre.len() && (queue_pre[j] as int) == v;
                            assert(self.queue@[j] == queue_pre[j]);
                            assert(self.pending(v));
                        }
                    }
                }
            }
            i = i + 1;
        }
        proof {
            assert(es.skip(n_edges as int).len() == 0);
        }
        self.emitted = Ghost(self.emitted@.insert(cur as int));
        proof {
            assert forall|v: int| #[trigger] self.emitted@.contains(v)
                implies !self.pending(v) by {
                if v == cur as int {
                    assert(forall|j: int|
                        0 <= j < self.queue@.len() ==> (self.queue@[j] as int) != v);
                } else {
                    assert(emitted0.contains(v));
                }
            }
            assert forall|v: int| #[trigger] self.emitted@.contains(v) implies forall|x: int|
                #[trigger] g.has_edge(v, x) ==> self.visited@[x] by {
                if v == cur as int {
                    assert forall|x: int| #[trigger] g.has_edge(cur as int, x)
                        implies self.visited@[x] by {
                        let j = choose|j: int| 0 <= j < es.len() && es[j].0 == x;
                        assert(self.visited@[es[j].0 as int]);
                    }
                } else {
                    assert(emitted0.contains(v));
                }
            }
        }
        Some(Node { graph: g, idx: cur })
    }
}

impl<'a, T, E> Node<'a, T, E> {
    /// Enumerate this node's direct out-neighbors in ascending index order.
    pub fn neighbors(&self) -> (it: Neighbors<'a, T, E>)
        requires
            self.wf(),
            self.graph.wf(),
        ensures
            it.wf(),
            it.graph == self.graph,
            it.node == self.idx,
            it.pos == 0,
    {
        Neighbors { graph: self.graph, node: self.idx, pos: 0 }
    }

    /// Begin a depth-first walk from this node: the stack holds only the
    /// start, which is already marked so that no cycle can put it back.
    pub fn depth_first(&self) -> (it: DepthFirst<'a, T, E>)
        requires
            self.wf(),
            self.graph.wf(),
        ensures
            it.wf(),
            it.graph == self.graph,
            it.from@ == self.idx,
            it.emitted@ == Set::<int>::empty(),
            it.stack@ == seq![self.idx],
            it.visited@.len() == self.graph.node_count(),
            it.visited@[self.idx as int],
            forall|j: int|
                0 <= j < it.visited@.len() && j != self.idx ==> !it.visited@[j],
    {
        let g = self.graph;
        let n = g.nodes.len();
        let mut stack: Vec<usize> = Vec::new();
        stack.push(self.idx);
        let mut visited = make_marks(n);
        visited[self.idx] = true;
        proof {
            assert(stack@ =~= seq![self.idx]);
        }
        let it = DepthFirst {
            graph: g,
            stack,
            visited,
            from: Ghost(self.idx as int),
            emitted: Ghost(Set::empty()),
        };
        proof {
            assert((it.stack@[0] as int) == self.idx as int);
            assert(it.pending(self.idx as int));
        }
        it
    }

    /// Begin a breadth-first walk from this node: the queue holds only the
    /// start, which is already marked so that no cycle can put it back.
    pub fn breadth_first(&self) -> (it: BreadthFirst<'a, T, E>)
        requires
            self.wf(),
            self.graph.wf(),
        ensures
            it.wf(),
            it.graph == self.graph,
            it.from@ == self.idx,
            it.emitted@ == Set::<int>::empty(),
            it.queue@ == seq![self.idx],
            it.visited@.len() == self.graph.node_count(),
            it.visited@[self.idx as int],
            forall|j: int|
                0 <= j < it.visited@.len() && j != self.idx ==> !it.visited@[j],
    {
        let g = self.graph;
        let n = g.nodes.len();
        let mut queue: Vec<usize> = Vec::new();
        queue.push(self.idx);
        let mut visited = make_marks(n);
        visited[self.idx] = true;
        proof {
            assert(queue@ =~= seq![self.idx]);
        }
        let it = BreadthFirst {
            graph: g,
            queue,
            visited,
            from: Ghost(self.idx as int),
            emitted: Ghost(Set::empty()),
        };
        proof {
            assert((it.queue@[0] as int) == self.idx as int);
            assert(it.pending(self.idx as int));
        }
        it
    }
}

impl<T, E> NodeMut<T, E> {
    /// Enumerate this node's direct out-neighbors in ascending index order.
    /// The exclusive handle carries no borrow of its own, so the graph is
    /// named explicitly.
    pub fn neighbors<'a>(&self, graph: &'a Graph<T, E>) -> (it: Neighbors<'a, T, E>)
        requires
            graph.wf(),
            (self.idx as int) < graph.node_count(),
        ensures
            it.wf(),
            it.graph == graph,
            it.node == self.idx,
            it.pos == 0,
    {
        Neighbors { graph, node: self.idx, pos: 0 }
    }
}

/// Induction step for the completeness law: once a finished depth-first walk
/// has yielded a route's first entry, it has yielded every entry of the route.
proof fn lemma_dfs_route_emitted<'a, T, E>(it: DepthFirst<'a, T, E>, r: Seq<usize>, i: int)
    requires
        it.wf(),
        it.stack@.len() == 0,
        it.emitted@.contains(it.from@),
        is_route(*it.graph, r),
        (r.first() as int) == it.from@,
        0 <= i < r.len(),
    ensures
        it.emitted@.contains(r[i] as int),
    decreases i,
{
    if i > 0 {
        lemma_dfs_route_emitted(it, r, i - 1);
        let i0 = i - 1;
        assert(it.graph.has_edge(r[i0] as int, r[i0 + 1] as int));
        assert(it.graph.has_edge(r[i - 1] as int, r[i] as int));
        let x = r[i] as int;
        let es = it.graph.edge_seq(r[i - 1] as int);
        let j = choose|j: int| 0 <= j < es.len() && es[j].0 == x;
        assert(0 <= (es[j].0 as int) < it.graph.node_count());
        assert(it.visited@[x]);
        assert(!it.pending(x));
    }
}

/// A finished depth-first walk — its stack empty, its start yielded — has
/// yielded every node reachable from the start; with its `next` contract
/// (nothing outside the reachable region comes out, and no node but the
/// start comes out twice) the walk visits exactly the reachable region.
pub proof fn lemma_depth_first_complete<'a, T, E>(it: DepthFirst<'a, T, E>)
    requires
        it.wf(),
        it.stack@.len() == 0,
        it.emitted@.contains(it.from@),
    ensures
        forall|v: int|
            #[trigger] reachable(*it.graph, it.from@, v) ==> it.emitted@.contains(v),
{
    assert forall|v: int| #[trigger] reachable(*it.graph, it.from@, v)
        implies it.emitted@.contains(v) by {
        let r = choose|r: Seq<usize>|
            is_route(*it.graph, r) && (r.first() as int) == it.from@ && (r.last() as int)
                == v;
        lemma_dfs_route_emitted(it, r, r.len() - 1);
    }
}

/// Induction step for the completeness law: once a finished breadth-first
/// walk has yielded a route's first entry, it has yielded every entry of the
/// route.
proof fn lemma_bfs_route_emitted<'a, T, E>(it: BreadthFirst<'a, T, E>, r: Seq<usize>, i: int)
    requires
        it.wf(),
        it.queue@.len() == 0,
        it.emitted@.contains(it.from@),
        is_route(*it.graph, r),
        (r.first() as int) == it.from@,
        0 <= i < r.len(),
    ensures
        it.emitted@.contains(r[i] as int),
    decreases i,
{
    if i > 0 {
        lemma_bfs_route_emitted(it, r, i - 1);
        let i0 = i - 1;
        assert(it.graph.has_edge(r[i0] as int, r[i0 + 1] as int));
        assert(it.graph.has_edge(r[i - 1] as int, r[i] as int));
        let x = r[i] as int;
        let es = it.graph.edge_seq(r[i - 1] as int);
        let j = choose|j: int| 0 <= j < es.len() && es[j].0 == x;
        assert(0 <= (es[j].0 as int) < it.graph.node_count());
        assert(it.visited@[x]);
        assert(!it.pending(x));
    }
}

/// A finished breadth-first walk — its queue empty, its start yielded — has
/// yielded every node reachable from the start; with its `next` contract
/// (nothing outside the reachable region comes out, and no node but the
/// start comes out twice) the walk visits exactly the reachable region.
pub proof fn lemma_breadth_first_complete<'a, T, E>(it: BreadthFirst<'a, T, E>)
    requires
        it.wf(),
        it.queue@.len() == 0,
        it.emitted@.contains(it.from@),
    ensures
        forall|v: int|
            #[trigger] reachable(*it.graph, it.from@, v) ==> it.emitted@.contains(v),
{
    assert forall|v: int| #[trigger] reachable(*it.graph, it.from@, v)
        implies it.emitted@.contains(v) by {
        let r = choose|r: Seq<usize>|
            is_route(*it.graph, r) && (r.first() as int) == it.from@ && (r.last() as int)
                == v;
        lemma_bfs_route_emitted(it, r, r.len() - 1);
    }
}

/// A fresh, all-clear mark vector covering `n` pool slots.
fn make_marks(n: usize) -> (v: Vec<bool>)
    ensures
        v@.len() == n,
        forall|j: int| 0 <= j < n ==> !v@[j],
{
    let mut v: Vec<bool> = Vec::new();
    while v.len() < n
        invariant
            v@.len() <= n,
            forall|j: int| 0 <= j < v@.len() ==> !v@[j],
        decreases n - v@.len(),
    {
        v.push(false);
    }
    v
}

} // verus!
