use graph_coloring::Graph;
use graph_coloring::NodeId;

#[test]
fn simple() {
    let mut g = Graph::new();

    let a = g.add_node();
    let b = g.add_node();
    let c = g.add_node();
    let d = g.add_node();

    g.add_edge(a, c);
    g.add_edge(a, d);
    g.add_edge(b, c);
    g.add_edge(b, d);
    g.add_edge(c, d);

    let coloring = g.minimal_coloring();
    assert_eq!(coloring.k, 3);
    assert_eq!(coloring.nodes[a.as_index()], coloring.nodes[b.as_index()]);
    assert_ne!(coloring.nodes[a.as_index()], coloring.nodes[c.as_index()]);
    assert_ne!(coloring.nodes[a.as_index()], coloring.nodes[d.as_index()]);
    assert_ne!(coloring.nodes[c.as_index()], coloring.nodes[d.as_index()]);
}

#[test]
fn empty_graph() {
    let g = Graph::new();
    let coloring = g.minimal_coloring();
    assert_eq!(coloring.k, 0);
    assert!(coloring.nodes.is_empty());
}

#[test]
fn edgeless_graph() {
    let mut g = Graph::new();
    for _ in 0..5 {
        g.add_node();
    }
    let coloring = g.minimal_coloring();
    assert_eq!(coloring.k, 1);
    assert_eq!(coloring.nodes, vec![0, 0, 0, 0, 0]);
}

#[test]
fn single_node() {
    let mut g = Graph::new();
    let a = g.add_node();
    let coloring = g.minimal_coloring();
    assert_eq!(coloring.k, 1);
    assert_eq!(coloring.nodes[a.as_index()], 0);
}

#[test]
fn self_loop_is_ignored() {
    let mut g = Graph::new();
    let a = g.add_node();
    let b = g.add_node();
    g.add_edge(a, a);
    g.add_edge(b, b);
    g.check_invariants();
    let coloring = g.minimal_coloring();
    assert_eq!(coloring.k, 1);
    assert_eq!(coloring.nodes, vec![0, 0]);
}

#[test]
fn complete_graph_k4() {
    let mut g = Graph::new();
    let nodes: Vec<NodeId> = (0..4).map(|_| g.add_node()).collect();
    for i in 0..4 {
        for j in (i + 1)..4 {
            g.add_edge(nodes[i], nodes[j]);
        }
    }
    let coloring = g.minimal_coloring();
    assert_eq!(coloring.k, 4);
    let mut seen = [false; 4];
    for &n in &nodes {
        let color = coloring.nodes[n.as_index()];
        assert!(color < 4);
        assert!(!seen[color]);
        seen[color] = true;
    }
}

#[test]
fn complete_graph_k5() {
    let mut g = Graph::new();
    let nodes: Vec<NodeId> = (0..5).map(|_| g.add_node()).collect();
    for i in 0..5 {
        for j in (i + 1)..5 {
            g.add_edge(nodes[i], nodes[j]);
        }
    }
    let coloring = g.minimal_coloring();
    assert_eq!(coloring.k, 5);
    for i in 0..5 {
        for j in (i + 1)..5 {
            assert_ne!(
                coloring.nodes[nodes[i].as_index()],
                coloring.nodes[nodes[j].as_index()]
            );
        }
    }
}

#[test]
fn star_graph_upper_bound() {
    // a star: the center has degree 3, each leaf degree 1, so at most
    // min-degree + 1 == 2 colors are ever needed
    let mut g = Graph::new();
    let center = g.add_node();
    let l1 = g.add_node();
    let l2 = g.add_node();
    let l3 = g.add_node();
    g.add_edge(center, l1);
    g.add_edge(center, l2);
    g.add_edge(center, l3);
    let coloring = g.minimal_coloring();
    assert_eq!(coloring.k, 2);
    assert_eq!(coloring.nodes[center.as_index()], 1);
    assert_eq!(coloring.nodes[l1.as_index()], 0);
    assert_eq!(coloring.nodes[l2.as_index()], 0);
    assert_eq!(coloring.nodes[l3.as_index()], 0);
}

#[test]
fn add_edge_twice_is_idempotent() {
    let mut once = Graph::new();
    let mut twice = Graph::new();
    for g in [&mut once, &mut twice] {
        let a = g.add_node();
        let b = g.add_node();
        let c = g.add_node();
        g.add_edge(a, b);
        g.add_edge(b, c);
    }
    // the same edges again, on one of the two graphs only
    twice.add_edge(NodeId::from(0), NodeId::from(1));
    twice.add_edge(NodeId::from(1), NodeId::from(2));
    twice.check_invariants();
    let c1 = once.minimal_coloring();
    let c2 = twice.minimal_coloring();
    assert_eq!(c1.k, c2.k);
    assert_eq!(c1.nodes, c2.nodes);
}

#[test]
fn remove_edge_twice_is_idempotent() {
    let mut once = Graph::new();
    let mut twice = Graph::new();
    for g in [&mut once, &mut twice] {
        let a = g.add_node();
        let b = g.add_node();
        let c = g.add_node();
        g.add_edge(a, b);
        g.add_edge(b, c);
        g.add_edge(a, c);
        g.remove_edge(a, b);
    }
    twice.remove_edge(NodeId::from(0), NodeId::from(1));
    twice.check_invariants();
    let c1 = once.minimal_coloring();
    let c2 = twice.minimal_coloring();
    assert_eq!(c1.k, c2.k);
    assert_eq!(c1.nodes, c2.nodes);
}

#[test]
fn remove_absent_edge_is_noop() {
    let mut g = Graph::new();
    let a = g.add_node();
    let b = g.add_node();
    g.remove_edge(a, b);
    g.check_invariants();
    let coloring = g.minimal_coloring();
    assert_eq!(coloring.k, 1);
    assert_eq!(coloring.nodes, vec![0, 0]);
}

#[test]
fn remove_edge_relaxes_coloring() {
    // a complete graph on four nodes needs four colors; removing one edge
    // leaves three suffice, with the two freed nodes sharing a color
    let mut g = Graph::new();
    let nodes: Vec<NodeId> = (0..4).map(|_| g.add_node()).collect();
    for i in 0..4 {
        for j in (i + 1)..4 {
            g.add_edge(nodes[i], nodes[j]);
        }
    }
    assert_eq!(g.minimal_coloring().k, 4);
    g.remove_edge(nodes[0], nodes[1]);
    g.check_invariants();
    let coloring = g.minimal_coloring();
    assert_eq!(coloring.k, 3);
    assert_eq!(
        coloring.nodes[nodes[0].as_index()],
        coloring.nodes[nodes[1].as_index()]
    );
}

#[test]
fn node_ids_are_dense_and_ordered() {
    let mut g = Graph::new();
    let a = g.add_node();
    let b = g.add_node();
    let c = g.add_node();
    assert_eq!(a.as_index(), 0);
    assert_eq!(b.as_index(), 1);
    assert_eq!(c.as_index(), 2);
    assert_eq!(NodeId::from(2), c);
    assert!(a < b && b < c);
}

#[test]
fn default_is_empty() {
    let g = Graph::default();
    let coloring = g.minimal_coloring();
    assert_eq!(coloring.k, 0);
    assert!(coloring.nodes.is_empty());
}

#[test]
fn coloring_outlives_graph() {
    let mut g = Graph::new();
    let a = g.add_node();
    let b = g.add_node();
    g.add_edge(a, b);
    let coloring = g.minimal_coloring();
    // later mutations, or dropping the graph, leave the result untouched
    let c = g.add_node();
    g.add_edge(c, a);
    drop(g);
    assert_eq!(coloring.k, 2);
    assert_ne!(coloring.nodes[a.as_index()], coloring.nodes[b.as_index()]);
}

#[test]
fn invariants_hold_after_mutation() {
    let mut g = Graph::new();
    g.check_invariants();
    let a = g.add_node();
    let b = g.add_node();
    let c = g.add_node();
    g.check_invariants();
    g.add_edge(a, b);
    g.add_edge(b, c);
    g.check_invariants();
    g.remove_edge(a, b);
    g.remove_edge(a, b);
    g.add_edge(c, a);
    g.check_invariants();
}
