use graph::Graph;

#[test]
fn insert_indices_are_strictly_increasing() {
    let mut g: Graph<i32> = Graph::new();
    assert_eq!(g.insert(10).weak().0, 0);
    assert_eq!(g.insert(20).weak().0, 1);
    assert_eq!(g.insert(30).weak().0, 2);
}

#[test]
fn undirected_connection_gives_two_equal_edges() {
    let mut g: Graph<char, u64> = Graph::new();
    let a = g.insert('a').weak();
    let b = g.insert('b').weak();
    g.connect_undirected_weighted(a, b, 7);
    assert_eq!(g.lookup_weight(0, 1), Some(7));
    assert_eq!(g.lookup_weight(1, 0), Some(7));

    let na = g.weak_ref(a);
    let mut it = na.neighbors();
    let first = it.next().unwrap();
    assert_eq!(first.clone_inner(), 'b');
    assert!(it.next().is_none());

    let nb = g.weak_ref(b);
    let mut it = nb.neighbors();
    let first = it.next().unwrap();
    assert_eq!(first.clone_inner(), 'a');
    assert!(it.next().is_none());
}

#[test]
fn connecting_twice_overwrites_the_weight() {
    let mut g: Graph<char, u64> = Graph::new();
    let a = g.insert('a').weak();
    let b = g.insert('b').weak();
    g.connect_weighted(a, b, 9);
    g.connect_weighted(a, b, 4);
    assert_eq!(g.lookup_weight(0, 1), Some(4));

    // still exactly one edge out of `a`
    let na = g.weak_ref(a);
    let mut it = na.neighbors();
    assert!(it.next().is_some());
    assert!(it.next().is_none());
}

#[test]
fn find_on_empty_graph_returns_nothing() {
    let g: Graph<char, u64> = Graph::new();
    assert!(g.find(&'X').is_none());
    let g2: Graph<char, u64> = Graph::default();
    assert!(g2.find(&'X').is_none());
}

#[test]
fn find_returns_first_match_in_insertion_order() {
    let mut g: Graph<char> = Graph::new();
    g.insert('x');
    g.insert('y');
    g.insert('y');
    let n = g.find(&'y').unwrap();
    assert_eq!(n.weak().0, 1);
    assert!(g.find(&'z').is_none());
}

#[test]
fn breadth_first_on_isolated_node_yields_only_it() {
    let mut g: Graph<char, u64> = Graph::new();
    g.insert('s');
    let s = g.find(&'s').unwrap();
    let mut it = s.breadth_first();
    let first = it.next().unwrap();
    assert_eq!(first.clone_inner(), 's');
    assert!(it.next().is_none());
    assert!(it.next().is_none());
}

#[test]
fn traversals_visit_reachable_nodes_once_and_skip_the_rest() {
    // a -> b, a -> c, b -> c, and d isolated
    let mut g: Graph<char> = Graph::new();
    let a = g.insert('a').weak();
    let b = g.insert('b').weak();
    let c = g.insert('c').weak();
    g.insert('d');
    g.connect(a, b);
    g.connect(a, c);
    g.connect(b, c);

    let start = g.find(&'a').unwrap();
    let mut dfs = start.depth_first();
    let mut seen = Vec::new();
    while let Some(n) = dfs.next() {
        seen.push(n.clone_inner());
    }
    // siblings come back in descending index order off the stack
    assert_eq!(seen, vec!['a', 'c', 'b']);

    let mut bfs = start.breadth_first();
    let mut seen = Vec::new();
    while let Some(n) = bfs.next() {
        seen.push(n.clone_inner());
    }
    assert_eq!(seen, vec!['a', 'b', 'c']);
}

#[test]
fn traversals_never_revisit_the_start_on_a_cycle() {
    // 0 -> 1 and 1 -> 0: the cycle must not put the start back on the worklist
    let mut g: Graph<char> = Graph::new();
    let a = g.insert('a').weak();
    let b = g.insert('b').weak();
    g.connect(a, b);
    g.connect(b, a);

    let start = g.find(&'a').unwrap();
    let mut dfs = start.depth_first();
    let mut seen = Vec::new();
    while let Some(n) = dfs.next() {
        seen.push(n.clone_inner());
    }
    assert_eq!(seen, vec!['a', 'b']);

    let mut bfs = start.breadth_first();
    let mut seen = Vec::new();
    while let Some(n) = bfs.next() {
        seen.push(n.clone_inner());
    }
    assert_eq!(seen, vec!['a', 'b']);
}

#[test]
fn traversals_yield_a_self_looping_start_once() {
    let mut g: Graph<char> = Graph::new();
    let a = g.insert('a').weak();
    g.connect(a, a);
    let start = g.find(&'a').unwrap();
    let mut dfs = start.depth_first();
    assert_eq!(dfs.next().unwrap().clone_inner(), 'a');
    assert!(dfs.next().is_none());
    let mut bfs = start.breadth_first();
    assert_eq!(bfs.next().unwrap().clone_inner(), 'a');
    assert!(bfs.next().is_none());
}

#[test]
fn set_value_rewrites_one_payload_in_place() {
    let mut g: Graph<char, u64> = Graph::new();
    let p = g.insert('p').weak();
    let q = g.insert('q').weak();
    g.connect_weighted(p, q, 3);
    let handle = g.weak_mut(q);
    g.set_value(handle.weak(), 'z');
    assert_eq!(*g.value(q), 'z');
    assert_eq!(*g.value(p), 'p');
    assert!(g.find(&'q').is_none());
    assert_eq!(g.find(&'z').unwrap().weak().0, q.0);
    // connectivity untouched
    assert_eq!(g.lookup_weight(0, 1), Some(3));
}

#[test]
fn neighbors_come_in_ascending_index_order() {
    let mut g: Graph<char, u64> = Graph::new();
    let a = g.insert('a').weak();
    let b = g.insert('b').weak();
    let c = g.insert('c').weak();
    // connect to the higher index first; enumeration must still ascend
    g.connect_weighted(a, c, 2);
    g.connect_weighted(a, b, 1);
    let na = g.weak_ref(a);
    let mut it = na.neighbors();
    assert_eq!(it.next().unwrap().clone_inner(), 'b');
    assert_eq!(it.next().unwrap().clone_inner(), 'c');
    assert!(it.next().is_none());
}

#[test]
fn node_mut_neighbors_enumerates_edges() {
    let mut g: Graph<char, u64> = Graph::new();
    let a = g.insert('a').weak();
    let b = g.insert('b').weak();
    g.connect_weighted(a, b, 5);
    let ma = g.weak_mut(a);
    let mut it = ma.neighbors(&g);
    assert_eq!(it.next().unwrap().clone_inner(), 'b');
    assert!(it.next().is_none());
}

#[test]
fn dijkstras_returns_nothing_when_end_is_unreachable() {
    let mut g: Graph<char, u64> = Graph::new();
    let a = g.insert('a').weak();
    let b = g.insert('b').weak();
    g.insert('c');
    // edge from b to a only: c is unreachable from a, a unreachable from b's far side
    g.connect_weighted(b, a, 1);
    let na = g.find(&'a').unwrap();
    let nc = g.find(&'c').unwrap();
    assert!(g.dijkstras(na, nc).is_none());
    // a route always has at least one edge, so start == end finds none
    assert!(g.dijkstras(na, na).is_none());
}

#[test]
fn dijkstras_picks_the_lighter_detour() {
    let mut g: Graph<&str, u64> = Graph::new();
    let a = g.insert("one").weak();
    let b = g.insert("two").weak();
    let c = g.insert("three").weak();
    g.connect_weighted(a, c, 10);
    g.connect_weighted(a, b, 3);
    g.connect_weighted(b, c, 4);
    let na = g.weak_ref(a);
    let nc = g.weak_ref(c);
    let path = g.dijkstras(na, nc).unwrap();
    assert_eq!(path.len(), 7);
    let mut it = path.iter();
    assert_eq!(it.next().unwrap().clone_inner(), "one");
    assert_eq!(it.next().unwrap().clone_inner(), "two");
    assert_eq!(it.next().unwrap().clone_inner(), "three");
    assert!(it.next().is_none());
}

#[test]
fn path_push_appends_without_edge_check() {
    let mut g: Graph<char, u64> = Graph::new();
    let a = g.insert('a').weak();
    let b = g.insert('b').weak();
    let d = g.insert('d').weak();
    g.connect_weighted(a, b, 2);
    let na = g.weak_ref(a);
    let nb = g.weak_ref(b);
    let mut path = g.dijkstras(na, nb).unwrap();
    path.push(d);
    let mut it = path.iter();
    assert_eq!(it.next().unwrap().clone_inner(), 'a');
    assert_eq!(it.next().unwrap().clone_inner(), 'b');
    assert_eq!(it.next().unwrap().clone_inner(), 'd');
    assert!(it.next().is_none());
}

#[test]
fn arbitrary_node_hands_back_the_first_insert() {
    let mut g: Graph<char, u64> = Graph::new();
    g.insert('p');
    g.insert('q');
    assert_eq!(g.arbitrary_node().clone_inner(), 'p');
}

#[test]
fn weak_ref_round_trips_through_weak() {
    let mut g: Graph<char, u64> = Graph::new();
    g.insert('p');
    let q = g.insert('q').weak();
    let n = g.weak_ref(q);
    assert_eq!(n.clone_inner(), 'q');
    assert_eq!(n.weak().0, q.0);
    let m = g.weak_mut(q);
    assert_eq!(m.weak().0, q.0);
}
