//! The node pool: an append-only arena of payloads, each with an ordered
//! adjacency list mapping destination index to edge weight.

use vstd::prelude::*;
use vstd::std_specs::cmp::PartialEqSpec;
use core::marker::PhantomData;

verus! {

/// One pool entry: a payload together with its outgoing edges.
/// The edge list is kept strictly sorted by destination index, so it is an
/// ordered mapping with unique keys.
#[derive(Clone)]
pub struct Adjacency<T, E> {
    pub value: T,
    pub edges: Vec<(usize, E)>,
}

/// A growable graph: an append-only pool of nodes addressed by position.
/// Indices are never reused; once an index is valid it stays valid.
#[derive(Clone)]
pub struct Graph<T, E = ()> {
    pub nodes: Vec<Adjacency<T, E>>,
}

/// The keys of an edge list are strictly increasing.
pub open spec fn sorted_strict<E>(s: Seq<(usize, E)>) -> bool {
    forall|i: int, j: int| 0 <= i < j < s.len() ==> s[i].0 < s[j].0
}

/// Some entry of the edge list carries the key `k`.
pub open spec fn seq_has_key<E>(s: Seq<(usize, E)>, k: int) -> bool {
    exists|j: int| 0 <= j < s.len() && s[j].0 == k
}

/// The position of the entry carrying key `k` (meaningful only when
/// `seq_has_key` holds; in a strictly sorted list it is unique).
pub open spec fn seq_key_index<E>(s: Seq<(usize, E)>, k: int) -> int {
    choose|j: int| 0 <= j < s.len() && s[j].0 == k
}

/// The weight stored under key `k` (meaningful only when `seq_has_key` holds).
pub open spec fn seq_weight_of<E>(s: Seq<(usize, E)>, k: int) -> E {
    s[seq_key_index(s, k)].1
}

/// In a strictly sorted edge list, a key determines its position.
pub proof fn lemma_sorted_key_unique<E>(s: Seq<(usize, E)>, i: int, j: int)
    requires
        sorted_strict(s),
        0 <= i < s.len(),
        0 <= j < s.len(),
        s[i].0 == s[j].0,
    ensures
        i == j,
{
    if i < j {
        assert(s[i].0 < s[j].0);
    }
    if j < i {
        assert(s[j].0 < s[i].0);
    }
}

/// What a directed weighted connection does: the pool and every payload stay
/// as they were, only the start node's edge list changes, the ordered pair
/// gains (or keeps) its single edge now carrying `w`, and every other edge
/// keeps its weight.
pub open spec fn connect_post<T, E>(
    pre: Graph<T, E>,
    post: Graph<T, E>,
    s: int,
    e: int,
    w: E,
) -> bool {
    &&& post.wf()
    &&& post.node_count() == pre.node_count()
    &&& forall|i: int| 0 <= i < pre.node_count() ==> post.val(i) == pre.val(i)
    &&& forall|i: int|
        0 <= i < pre.node_count() && i != s ==> post.edge_seq(i) == pre.edge_seq(i)
    &&& forall|x: int, y: int|
        #![trigger post.has_edge(x, y)]
        #![trigger pre.has_edge(x, y)]
        post.has_edge(x, y) <==> (pre.has_edge(x, y) || (x == s && y == e))
    &&& post.edge_weight(s, e) == w
    &&& forall|x: int, y: int|
        pre.has_edge(x, y) && !(x == s && y == e) ==> post.edge_weight(x, y) == pre.edge_weight(
            x,
            y,
        )
}

/// A non-empty chain of directed edges runs along `p` from its first entry to
/// its last.
pub open spec fn is_route<T, E>(g: Graph<T, E>, p: Seq<usize>) -> bool {
    &&& p.len() >= 2
    &&& forall|i: int|
        0 <= i < p.len() - 1 ==> #[trigger] g.has_edge(p[i] as int, p[i + 1] as int)
}

/// Some chain of one or more directed edges leads from `a` to `b`.
pub open spec fn reachable<T, E>(g: Graph<T, E>, a: int, b: int) -> bool {
    exists|p: Seq<usize>| is_route(g, p) && (p.first() as int) == a && (p.last() as int) == b
}

/// The summed weight of the first `upto` edges along a recorded route.
pub open spec fn route_weight<T>(g: Graph<T, u64>, p: Seq<usize>, upto: int) -> int
    decreases upto,
{
    if upto <= 0 {
        0
    } else {
        route_weight(g, p, upto - 1) + g.edge_weight(p[upto - 1] as int, p[upto] as int)
    }
}

/// Partial edge-weight sums along a route never decrease.
pub proof fn lemma_route_weight_mono<T>(g: Graph<T, u64>, p: Seq<usize>, i: int, j: int)
    requires
        0 <= i <= j,
    ensures
        route_weight(g, p, i) <= route_weight(g, p, j),
    decreases j - i,
{
    if i < j {
        lemma_route_weight_mono(g, p, i, j - 1);
    }
}

/// The partial sum reads only the entries up to `upto`, so it is the same on
/// any two routes that agree there.
pub proof fn lemma_route_weight_prefix<T>(
    g: Graph<T, u64>,
    p: Seq<usize>,
    q: Seq<usize>,
    upto: int,
)
    requires
        forall|i: int| 0 <= i <= upto ==> p[i] == q[i],
    ensures
        route_weight(g, p, upto) == route_weight(g, q, upto),
    decreases upto,
{
    if upto > 0 {
        lemma_route_weight_prefix(g, p, q, upto - 1);
    }
}

/// A single edge of a well-formed graph is a one-edge route.
pub proof fn lemma_edge_reachable<T, E>(g: Graph<T, E>, a: int, b: int)
    requires
        g.wf(),
        g.has_edge(a, b),
    ensures
        reachable(g, a, b),
        0 <= b < g.node_count(),
{
    let j = choose|j: int| 0 <= j < g.edge_seq(a).len() && g.edge_seq(a)[j].0 == b;
    assert((g.edge_seq(a)[j].0 as int) < g.node_count());
    assert(g.nodes.len() == g.nodes@.len());
    let p = seq![a as usize, b as usize];
    assert((p[0] as int) == a && (p[1] as int) == b);
    assert(is_route(g, p));
    assert((p.first() as int) == a && (p.last() as int) == b);
}

/// Extending a route by one outgoing edge keeps it a route.
pub proof fn lemma_reachable_step<T, E>(g: Graph<T, E>, a: int, b: int, c: int)
    requires
        g.wf(),
        reachable(g, a, b),
        g.has_edge(b, c),
    ensures
        reachable(g, a, c),
        0 <= c < g.node_count(),
{
    lemma_edge_reachable(g, b, c);
    let p = choose|p: Seq<usize>|
        is_route(g, p) && (p.first() as int) == a && (p.last() as int) == b;
    let q = p.push(c as usize);
    assert(q.last() == c as usize);
    assert forall|i: int| 0 <= i < q.len() - 1 implies #[trigger] g.has_edge(
        q[i] as int,
        q[i + 1] as int,
    ) by {
        if i < p.len() - 1 {
            assert(q[i] == p[i] && q[i + 1] == p[i + 1]);
        } else {
            assert(q[i] == p.last() && (q[i] as int) == b);
        }
    }
    assert(is_route(g, q));
    assert((q.first() as int) == a && (q.last() as int) == c);
}

/// In a strictly sorted edge list, the entry at position `j` is the one that
/// `seq_weight_of` reads for its key.
pub proof fn lemma_weight_at<E>(s: Seq<(usize, E)>, j: int)
    requires
        sorted_strict(s),
        0 <= j < s.len(),
    ensures
        seq_has_key(s, s[j].0 as int),
        seq_weight_of(s, s[j].0 as int) == s[j].1,
{
    let k = s[j].0 as int;
    assert(seq_has_key(s, k));
    let jc = seq_key_index(s, k);
    assert(0 <= jc < s.len() && s[jc].0 == k);
    lemma_sorted_key_unique(s, jc, j);
}

/// Insert or overwrite the entry under `key` in a strictly sorted edge list,
/// keeping it sorted: at most one entry per key ever exists.
fn upsert_edge<E>(edges: &mut Vec<(usize, E)>, key: usize, weight: E)
    requires
        sorted_strict(old(edges)@),
    ensures
        sorted_strict(final(edges)@),
        final(edges)@.len() <= old(edges)@.len() + 1,
        forall|x: int| seq_has_key(final(edges)@, x) <==> (seq_has_key(old(edges)@, x) || x == key),
        seq_weight_of(final(edges)@, key as int) == weight,
        forall|x: int|
            x != key && seq_has_key(old(edges)@, x) ==> seq_weight_of(final(edges)@, x)
                == seq_weight_of(old(edges)@, x),
{
    let ghost s0 = edges@;
    let mut pos: usize = 0;
    while pos < edges.len() && edges[pos].0 < key
        invariant
            edges@ == s0,
            pos <= s0.len(),
            forall|j: int| 0 <= j < pos ==> (s0[j].0 as int) < key,
        decreases s0.len() - pos,
    {
        pos = pos + 1;
    }
    if pos < edges.len() && edges[pos].0 == key {
        edges[pos] = (key, weight);
        proof {
            let s1 = edges@;
            assert(s1 =~= s0.update(pos as int, (key, weight)));
            assert forall|x: int| seq_has_key(s1, x) implies (seq_has_key(s0, x) || x == key) by {
                let j = choose|j: int| 0 <= j < s1.len() && s1[j].0 == x;
                assert(s0[j].0 == x);
            }
            assert forall|x: int| seq_has_key(s0, x) || x == key implies seq_has_key(s1, x) by {
                if x == key {
                    assert(s1[pos as int].0 == key);
                } else {
                    let j = choose|j: int| 0 <= j < s0.len() && s0[j].0 == x;
                    assert(s1[j].0 == x);
                }
            }
            lemma_weight_at(s1, pos as int);
            assert forall|x: int|
                x != key && seq_has_key(s0, x) implies seq_weight_of(s1, x) == seq_weight_of(
                s0,
                x,
            ) by {
                let j = choose|j: int| 0 <= j < s0.len() && s0[j].0 == x;
                lemma_weight_at(s0, j);
                assert(s1[j].0 == x);
                lemma_weight_at(s1, j);
            }
        }
    } else {
        edges.insert(pos, (key, weight));
        proof {
            let s1 = edges@;
            assert(s1.len() == s0.len() + 1);
            assert forall|j: int| 0 <= j < pos implies s1[j] == s0[j] by {}
            assert(s1[pos as int] == (key, weight));
            assert forall|j: int| pos < j < s1.len() implies s1[j] == s0[j - 1] by {}
            assert forall|i: int, j: int| 0 <= i < j < s1.len() implies s1[i].0 < s1[j].0 by {
                if j < pos {
                    assert(s0[i].0 < s0[j].0);
                } else if j == pos {
                    assert((s1[i].0 as int) < key);
                } else if i < pos {
                    assert(s1[i].0 == s0[i].0 && s1[j].0 == s0[j - 1].0);
                    if i < pos && pos <= j - 1 {
                        if pos < s0.len() {
                            assert((s0[pos as int].0 as int) > key);
                        }
                        if pos as int <= j - 1 && pos < s0.len() && pos as int != j - 1 {
                            assert(s0[pos as int].0 <= s0[j - 1].0);
                        }
                        assert((s0[i].0 as int) < key);
                        assert((key as int) < s0[j - 1].0 as int);
                    }
                } else if i == pos {
                    assert((s0[pos as int].0 as int) > key);
                    if pos as int != j - 1 {
                        assert(s0[pos as int].0 <= s0[j - 1].0);
                    }
                } else {
                    assert(s0[i - 1].0 < s0[j - 1].0);
                }
            }
            assert forall|x: int| seq_has_key(s1, x) implies (seq_has_key(s0, x) || x == key) by {
                let j = choose|j: int| 0 <= j < s1.len() && s1[j].0 == x;
                if j < pos {
                    assert(s0[j].0 == x);
                } else if j > pos {
                    assert(s0[j - 1].0 == x);
                }
            }
            assert forall|x: int| seq_has_key(s0, x) || x == key implies seq_has_key(s1, x) by {
                if x == key {
                    assert(s1[pos as int].0 == key);
                } else {
                    let j = choose|j: int| 0 <= j < s0.len() && s0[j].0 == x;
                    if j < pos {
                        assert(s1[j].0 == x);
                    } else {
                        assert(s1[j + 1].0 == x);
                    }
                }
            }
            lemma_weight_at(s1, pos as int);
            assert forall|x: int|
                x != key && seq_has_key(s0, x) implies seq_weight_of(s1, x) == seq_weight_of(
                s0,
                x,
            ) by {
                let j = choose|j: int| 0 <= j < s0.len() && s0[j].0 == x;
                lemma_weight_at(s0, j);
                if j < pos {
                    assert(s1[j].0 == x);
                    lemma_weight_at(s1, j);
                } else {
                    assert(s1[j + 1].0 == x);
                    lemma_weight_at(s1, j + 1);
                }
            }
        }
    }
}

impl<T, E> Graph<T, E> {
    /// How many nodes the pool holds.
    pub open spec fn node_count(self) -> nat {
        self.nodes@.len()
    }

    /// The payload stored at index `i`.
    pub open spec fn val(self, i: int) -> T {
        self.nodes@[i].value
    }

    /// The ordered edge list of node `i`, as (destination, weight) pairs.
    pub open spec fn edge_seq(self, i: int) -> Seq<(usize, E)> {
        self.nodes@[i].edges@
    }

    /// The graph holds a directed edge from `a` to `b`.
    pub open spec fn has_edge(self, a: int, b: int) -> bool {
        0 <= a < self.node_count() && seq_has_key(self.edge_seq(a), b)
    }

    /// The weight of the edge from `a` to `b` (meaningful only when
    /// `has_edge(a, b)` holds).
    pub open spec fn edge_weight(self, a: int, b: int) -> E {
        seq_weight_of(self.edge_seq(a), b)
    }

    /// Well-formedness: every edge list is strictly sorted by destination and
    /// every destination lies inside the pool.
    pub open spec fn wf(self) -> bool {
        forall|i: int| #![trigger self.edge_seq(i)]
            0 <= i < self.node_count() ==> {
                &&& sorted_strict(self.edge_seq(i))
                &&& forall|j: int|
                    0 <= j < self.edge_seq(i).len() ==> (self.edge_seq(i)[j].0 as int)
                        < self.node_count()
            }
    }

    /// Create an empty graph.
    pub fn new() -> (g: Self)
        ensures
            g.wf(),
            g.node_count() == 0,
    {
        Graph { nodes: Vec::new() }
    }

    /// Append a new node holding `value`, with no edges yet, and hand back an
    /// exclusive handle to it. The new index equals the old pool length, so
    /// successive inserts return strictly increasing indices.
    pub fn insert(&mut self, value: T) -> (r: NodeMut<T, E>)
        requires
            old(self).wf(),
        ensures
            final(self).wf(),
            final(self).node_count() == old(self).node_count() + 1,
            r.idx == old(self).node_count(),
            final(self).val(r.idx as int) == value,
            final(self).edge_seq(r.idx as int).len() == 0,
            forall|i: int|
                0 <= i < old(self).node_count() ==> final(self).val(i) == old(self).val(i)
                    && final(self).edge_seq(i) == old(self).edge_seq(i),
    {
        let idx = self.nodes.len();
        self.nodes.push(Adjacency { value, edges: Vec::new() });
        proof {
            assert forall|i: int| 0 <= i < self.node_count() implies {
                &&& sorted_strict(self.edge_seq(i))
                &&& forall|j: int|
                    0 <= j < self.edge_seq(i).len() ==> (self.edge_seq(i)[j].0 as int)
                        < self.node_count()
            } by {
                if i < old(self).node_count() {
                    assert(self.edge_seq(i) == old(self).edge_seq(i));
                } else {
                    assert(self.edge_seq(i).len() == 0);
                }
            }
        }
        NodeMut { idx, marker: PhantomData }
    }
}

impl<T, E> Graph<T, E> {
    /// Insert or overwrite the single directed edge `start -> end` with the
    /// given weight. At most one edge per ordered pair ever exists: a second
    /// connection between the same pair replaces the weight.
    pub fn connect_weighted(&mut self, start: WeakNode<T, E>, end: WeakNode<T, E>, weight: E)
        requires
            old(self).wf(),
            (start.0 as int) < old(self).node_count(),
            (end.0 as int) < old(self).node_count(),
        ensures
            connect_post(*old(self), *final(self), start.0 as int, end.0 as int, weight),
    {
        let s: usize = start.0;
        let e: usize = end.0;
        proof {
            assert(sorted_strict(old(self).edge_seq(s as int)));
        }
        upsert_edge(&mut self.nodes[s].edges, e, weight);
        proof {
            assert(self.nodes@ =~= old(self).nodes@.update(
                s as int,
                self.nodes@[s as int],
            ));
            assert forall|i: int| 0 <= i < self.node_count() implies {
                &&& sorted_strict(self.edge_seq(i))
                &&& forall|j: int|
                    0 <= j < self.edge_seq(i).len() ==> (self.edge_seq(i)[j].0 as int)
                        < self.node_count()
            } by {
                if i != s {
                    assert(self.edge_seq(i) == old(self).edge_seq(i));
                } else {
                    assert(sorted_strict(self.edge_seq(i)));
                    assert forall|j: int|
                        0 <= j < self.edge_seq(i).len() implies (self.edge_seq(i)[j].0 as int)
                        < self.node_count() by {
                        let k = self.edge_seq(i)[j].0 as int;
                        assert(seq_has_key(self.edge_seq(i), k));
                        if seq_has_key(old(self).edge_seq(i), k) {
                            let j0 = choose|j0: int|
                                0 <= j0 < old(self).edge_seq(i).len() && old(self).edge_seq(
                                    i,
                                )[j0].0 == k;
                            assert((old(self).edge_seq(i)[j0].0 as int) < old(
                                self,
                            ).node_count());
                        }
                    }
                }
            }
            assert forall|x: int, y: int|
                final(self).has_edge(x, y) <==> (old(self).has_edge(x, y) || (x == start.0 && y
                    == end.0)) by {
                if x != s {
                    assert(0 <= x < self.node_count() ==> self.edge_seq(x) == old(
                        self,
                    ).edge_seq(x));
                }
            }
        }
    }

    /// Connect `start` and `end` in both directions with the same weight:
    /// two directed edges of equal weight, one each way. The weight is taken
    /// by copy, which is what lets the contract state that both directions
    /// carry the very same value.
    pub fn connect_undirected_weighted(
        &mut self,
        start: WeakNode<T, E>,
        end: WeakNode<T, E>,
        weight: E,
    ) where E: Copy
        requires
            old(self).wf(),
            (start.0 as int) < old(self).node_count(),
            (end.0 as int) < old(self).node_count(),
        ensures
            final(self).wf(),
            final(self).node_count() == old(self).node_count(),
            forall|i: int|
                0 <= i < old(self).node_count() ==> final(self).val(i) == old(self).val(i),
            forall|x: int, y: int|
                final(self).has_edge(x, y) <==> (old(self).has_edge(x, y) || (x == start.0 && y
                    == end.0) || (x == end.0 && y == start.0)),
            final(self).edge_weight(start.0 as int, end.0 as int) == weight,
            final(self).edge_weight(end.0 as int, start.0 as int) == weight,
            forall|x: int, y: int|
                old(self).has_edge(x, y) && !(x == start.0 && y == end.0) && !(x == end.0 && y
                    == start.0) ==> final(self).edge_weight(x, y) == old(self).edge_weight(x, y),
    {
        self.connect_weighted(start, end, weight);
        self.connect_weighted(end, start, weight);
    }

    /// A strong handle to pool index 0, the first node ever inserted.
    pub fn arbitrary_node(&self) -> (r: Node<'_, T, E>)
        requires
            self.node_count() > 0,
        ensures
            r.graph == self,
            r.idx == 0,
            r.wf(),
    {
        Node { graph: self, idx: 0 }
    }

    /// Check a weak reference against the pool and turn it into a strong one.
    pub fn weak_ref(&self, node: WeakNode<T, E>) -> (r: Node<'_, T, E>)
        requires
            (node.0 as int) < self.node_count(),
        ensures
            r.graph == self,
            r.idx == node.0,
            r.wf(),
    {
        Node { graph: self, idx: node.0 }
    }

    /// Check a weak reference against the pool and turn it into an exclusive
    /// handle. The graph itself is not changed; the handle's payload is read
    /// and written through `value` and `set_value`.
    pub fn weak_mut(&mut self, node: WeakNode<T, E>) -> (r: NodeMut<T, E>)
        requires
            (node.0 as int) < old(self).node_count(),
        ensures
            *final(self) == *old(self),
            r.idx == node.0,
    {
        NodeMut { idx: node.0, marker: PhantomData }
    }

    /// Read the payload stored at the referenced node.
    pub fn value(&self, node: WeakNode<T, E>) -> (r: &T)
        requires
            (node.0 as int) < self.node_count(),
        ensures
            *r == self.val(node.0 as int),
    {
        &self.nodes[node.0].value
    }

    /// Overwrite the payload stored at the referenced node, in place. Only
    /// that one payload changes: the pool's length, every other payload and
    /// all connectivity stay as they were.
    pub fn set_value(&mut self, node: WeakNode<T, E>, value: T)
        requires
            old(self).wf(),
            (node.0 as int) < old(self).node_count(),
        ensures
            final(self).wf(),
            final(self).node_count() == old(self).node_count(),
            final(self).val(node.0 as int) == value,
            forall|i: int|
                0 <= i < old(self).node_count() && i != node.0 ==> final(self).val(i) == old(
                    self,
                ).val(i),
            forall|i: int|
                0 <= i < old(self).node_count() ==> final(self).edge_seq(i) == old(
                    self,
                ).edge_seq(i),
    {
        let idx: usize = node.0;
        self.nodes[idx].value = value;
        proof {
            assert forall|i: int|
                0 <= i < self.node_count() implies self.edge_seq(i) == old(self).edge_seq(
                i,
            ) by {
                if i != idx {
                    assert(self.nodes@[i] == old(self).nodes@[i]);
                }
            }
            assert forall|i: int| 0 <= i < self.node_count() implies {
                &&& sorted_strict(self.edge_seq(i))
                &&& forall|j: int|
                    0 <= j < self.edge_seq(i).len() ==> (self.edge_seq(i)[j].0 as int)
                        < self.node_count()
            } by {
                assert(self.edge_seq(i) == old(self).edge_seq(i));
            }
        }
    }
}

impl<T, E: Copy> Graph<T, E> {
    /// Fetch the weight of the directed edge `a -> b`, if that edge exists.
    pub fn lookup_weight(&self, a: usize, b: usize) -> (r: Option<E>)
        requires
            self.wf(),
            (a as int) < self.node_count(),
        ensures
            r is Some <==> self.has_edge(a as int, b as int),
            r matches Some(w) ==> w == self.edge_weight(a as int, b as int),
    {
        let n_edges = self.nodes[a].edges.len();
        let mut i: usize = 0;
        while i < n_edges
            invariant
                self.wf(),
                (a as int) < self.node_count(),
                n_edges == self.edge_seq(a as int).len(),
                i <= n_edges,
                forall|j: int| 0 <= j < i ==> self.edge_seq(a as int)[j].0 != b,
            decreases n_edges - i,
        {
            let k = self.nodes[a].edges[i].0;
            if k == b {
                let w = self.nodes[a].edges[i].1;
                proof {
                    lemma_weight_at(self.edge_seq(a as int), i as int);
                }
                return Some(w);
            }
            i = i + 1;
        }
        None
    }
}

impl<T: PartialEq, E> Graph<T, E> {
    /// Scan the pool in insertion order and return a strong handle to the
    /// first node whose payload equals `item`, or nothing when no payload
    /// matches.
    pub fn find(&self, item: &T) -> (r: Option<Node<'_, T, E>>)
        ensures
            r matches Some(node) ==> node.graph == self && node.wf(),
            T::obeys_eq_spec() ==> {
                &&& (r is None <==> forall|i: int|
                    0 <= i < self.node_count() ==> !self.val(i).eq_spec(item))
                &&& r matches Some(node) ==> self.val(node.idx as int).eq_spec(item) && forall|
                    i: int,
                |
                    0 <= i < node.idx ==> !self.val(i).eq_spec(item)
            },
    {
        let n = self.nodes.len();
        let mut j: usize = 0;
        while j < n
            invariant
                n == self.node_count(),
                j <= n,
                T::obeys_eq_spec() ==> forall|i: int| 0 <= i < j ==> !self.val(i).eq_spec(item),
            decreases n - j,
        {
            if self.nodes[j].value.eq(item) {
                proof {
                    if T::obeys_eq_spec() {
                        assert(self.val(j as int).eq_spec(item));
                    }
                }
                return Some(Node { graph: self, idx: j });
            }
            j = j + 1;
        }
        None
    }
}

impl<T> Graph<T, ()> {
    /// Insert or overwrite the single directed edge `start -> end` with the
    /// unit weight.
    pub fn connect(&mut self, start: WeakNode<T, ()>, end: WeakNode<T, ()>)
        requires
            old(self).wf(),
            (start.0 as int) < old(self).node_count(),
            (end.0 as int) < old(self).node_count(),
        ensures
            final(self).wf(),
            final(self).node_count() == old(self).node_count(),
            forall|i: int|
                0 <= i < old(self).node_count() ==> final(self).val(i) == old(self).val(i),
            forall|x: int, y: int|
                final(self).has_edge(x, y) <==> (old(self).has_edge(x, y) || (x == start.0 && y
                    == end.0)),
    {
        self.connect_weighted(start, end, ());
    }

    /// Connect `start` and `end` in both directions with the unit weight.
    pub fn connect_undirected(&mut self, start: WeakNode<T, ()>, end: WeakNode<T, ()>)
        requires
            old(self).wf(),
            (start.0 as int) < old(self).node_count(),
            (end.0 as int) < old(self).node_count(),
        ensures
            final(self).wf(),
            final(self).node_count() == old(self).node_count(),
            forall|i: int|
                0 <= i < old(self).node_count() ==> final(self).val(i) == old(self).val(i),
            forall|x: int, y: int|
                final(self).has_edge(x, y) <==> (old(self).has_edge(x, y) || (x == start.0 && y
                    == end.0) || (x == end.0 && y == start.0)),
    {
        self.connect_weighted(start, end, ());
        self.connect_weighted(end, start, ());
    }
}

impl<T, E> Default for Graph<T, E> {
    /// An empty graph.
    fn default() -> (g: Self)
        ensures
            g.wf(),
            g.node_count() == 0,
    {
        Graph { nodes: Vec::new() }
    }
}

/// A weak reference to a node: a bare pool index with no borrow of the graph.
/// It is only meaningful for the graph that produced it.
pub struct WeakNode<T, E = ()>(pub usize, pub PhantomData<(T, E)>);

impl<T, E> Copy for WeakNode<T, E> {}

impl<T, E> Clone for WeakNode<T, E> {
    fn clone(&self) -> (r: Self)
        ensures
            r == *self,
    {
        *self
    }
}

/// A strong reference to a node: a shared borrow of the graph together with a
/// validated index.
pub struct Node<'a, T, E = ()> {
    pub graph: &'a Graph<T, E>,
    pub idx: usize,
}

impl<'a, T, E> Copy for Node<'a, T, E> {}

impl<'a, T, E> Clone for Node<'a, T, E> {
    fn clone(&self) -> (r: Self)
        ensures
            r == *self,
    {
        *self
    }
}

impl<'a, T, E> Node<'a, T, E> {
    /// The handle points inside the pool of the graph it borrows.
    pub open spec fn wf(self) -> bool {
        self.idx < self.graph.node_count()
    }

    /// Drop the borrow, keeping only the index.
    pub fn weak(&self) -> (r: WeakNode<T, E>)
        ensures
            r.0 == self.idx,
    {
        WeakNode(self.idx, PhantomData)
    }

    /// Clone the payload this handle points at.
    pub fn clone_inner(&self) -> (r: T)
        where T: Clone
        requires
            self.wf(),
        ensures
            vstd::pervasive::cloned::<T>(self.graph.val(self.idx as int), r),
    {
        self.graph.nodes[self.idx].value.clone()
    }
}

/// An exclusive handle to a node. It carries the node's index; the payload
/// is read and written in place through the graph's `value` and `set_value`,
/// and connectivity is changed through the graph's connect operations.
pub struct NodeMut<T, E = ()> {
    pub idx: usize,
    pub marker: PhantomData<(T, E)>,
}

impl<T, E> NodeMut<T, E> {
    /// Drop the exclusivity, keeping only the index.
    pub fn weak(&self) -> (r: WeakNode<T, E>)
        ensures
            r.0 == self.idx,
    {
        WeakNode(self.idx, PhantomData)
    }
}

} // verus!
