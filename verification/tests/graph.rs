use rsalgo::graph::directed_graph::topo_sort;
use rsalgo::graph::structs::{IdEdge as IdE, IdVertex as IdV, LengthIdEdge as LIdE};
use rsalgo::graph::{
    get_vertices, minimum_spanning_tree, minimum_spanning_tree_in, DirectedGraph, Graph, IdGraph,
};

#[test]
fn build() {
    let mut g = DirectedGraph::from(vec![IdV::new(0), IdV::new(1)], vec![IdE::new(0, 1)]).unwrap();

    assert_eq!(2, g.len_vertex());
    assert_eq!(1, g.len_edge());

    let mut vs: Vec<usize> = g.vertices().iter().map(|v| v.id).collect();
    vs.sort();
    assert_eq!(vs[0], 0);
    assert_eq!(vs[1], 1);

    let es: Vec<&IdE> = g.edges();
    assert_eq!(es[0].from, 0);
    assert_eq!(es[0].to, 1);

    g.remove_edge(&IdE { from: 0, to: 1 });
    assert_eq!(0, g.len_edge());
    g.insert_edge(IdE { from: 1, to: 0 }).unwrap();
    assert_eq!(1, g.len_edge());
    g.insert_vertex(IdV { id: 2 });
    assert_eq!(3, g.len_vertex());
    g.remove_vertex(&IdV { id: 1 });
    assert_eq!(2, g.len_vertex());
}

#[test]
fn topo() {
    let g = DirectedGraph::from(
        (0..6).map(IdV::new).collect::<Vec<_>>(),
        vec![
            IdE::new(0, 1),
            IdE::new(1, 2),
            IdE::new(2, 3),
            IdE::new(4, 5),
            IdE::new(3, 4),
        ],
    )
    .unwrap();

    assert_eq!((0..6).collect::<Vec<_>>(), topo_sort(&g));
}

#[test]
fn in_graph() {
    let g = DirectedGraph::from(
        vec![IdV::new(0), IdV::new(1)],
        vec![LIdE::new(0, 1, 2), LIdE::new(0, 1, 1)],
    )
    .unwrap();
    let edges: Vec<_> = g.edges();
    assert_eq!(Some(1), minimum_spanning_tree(&edges))
}

#[test]
fn raw() {
    let edges = vec![LIdE::new(0, 1, 2), LIdE::new(0, 1, 1)];
    let edges: Vec<_> = edges.iter().collect();
    assert_eq!(Some(1), minimum_spanning_tree(&edges));
}

#[test]
fn from_rejects_unknown_endpoint() {
    assert!(DirectedGraph::from(vec![IdV::new(0)], vec![IdE::new(0, 1)]).is_err());
    assert!(DirectedGraph::from(vec![IdV::new(1)], vec![IdE::new(0, 1)]).is_err());
    assert!(DirectedGraph::<IdV, IdE>::from(vec![], vec![]).is_ok());
}

#[test]
fn insert_edge_needs_both_ends() {
    let mut g: DirectedGraph<IdV, IdE> = DirectedGraph::new();
    assert!(g.insert_vertex(IdV::new(7)).is_none());
    assert_eq!(Err(()), g.insert_edge(IdE::new(7, 8)));
    assert_eq!(Err(()), g.insert_edge(IdE::new(8, 7)));
    assert_eq!(0, g.len_edge());
    assert_eq!(Ok(()), g.insert_edge(IdE::new(7, 7)));
    assert_eq!(1, g.len_edge());
}

#[test]
fn insert_vertex_replaces() {
    let mut g: DirectedGraph<IdV, IdE> = DirectedGraph::new();
    assert!(g.insert_vertex(IdV::new(3)).is_none());
    assert!(g.insert_vertex(IdV::new(3)) == Some(IdV::new(3)));
    assert_eq!(1, g.len_vertex());
}

#[test]
fn remove_edge_swaps_in_the_last() {
    let mut g = DirectedGraph::from(
        vec![IdV::new(0), IdV::new(1), IdV::new(2), IdV::new(3)],
        vec![IdE::new(0, 1), IdE::new(0, 2), IdE::new(0, 3)],
    )
    .unwrap();
    assert!(g.remove_edge(&IdE::new(0, 1)) == Some(IdE::new(0, 1)));
    let out: Vec<usize> = g.out_edges_id(0).iter().map(|e| e.to).collect();
    assert_eq!(vec![3, 2], out);
    assert!(g.remove_edge(&IdE::new(0, 1)).is_none());
    assert!(g.remove_edge(&IdE::new(1, 0)).is_none());
    assert_eq!(2, g.len_edge());
    assert!(g.remove_edge(&IdE::new(0, 3)).is_some());
    assert!(g.remove_edge(&IdE::new(0, 2)).is_some());
    assert_eq!(0, g.len_edge());
    assert!(g.out_edges(&IdV::new(0)).is_empty());
    assert!(g.edges().is_empty());
}

#[test]
fn reinserting_a_removed_edge_restores_the_count() {
    let mut g = DirectedGraph::from(
        vec![IdV::new(0), IdV::new(1), IdV::new(2)],
        vec![IdE::new(0, 1), IdE::new(1, 2)],
    )
    .unwrap();
    g.insert_edge(IdE::new(0, 2)).unwrap();
    let before = g.len_edge();
    assert_eq!(3, before);
    assert!(g.remove_edge(&IdE::new(0, 2)).is_some());
    assert_eq!(2, g.len_edge());
    g.insert_edge(IdE::new(0, 2)).unwrap();
    assert_eq!(before, g.len_edge());
}

#[test]
fn edges_agree_with_the_counter_and_the_vertices() {
    let mut g: DirectedGraph<IdV, IdE> = DirectedGraph::new();
    for i in 0..5 {
        g.insert_vertex(IdV::new(i));
    }
    for (a, b) in [(0, 1), (0, 2), (3, 4), (4, 0), (2, 2)] {
        g.insert_edge(IdE::new(a, b)).unwrap();
        assert_eq!(g.len_edge(), g.edges().len());
    }
    let ids: Vec<usize> = g.vertices().iter().map(|v| v.id).collect();
    for e in g.edges() {
        assert!(ids.contains(&e.from));
        assert!(ids.contains(&e.to));
    }
}

#[test]
fn remove_vertex_keeps_edges() {
    let mut g = DirectedGraph::from(vec![IdV::new(0), IdV::new(1)], vec![IdE::new(0, 1)]).unwrap();
    assert!(g.remove_vertex_id(1) == Some(IdV::new(1)));
    assert!(g.remove_vertex_id(1).is_none());
    assert_eq!(1, g.len_vertex());
    assert_eq!(1, g.len_edge());
}

#[test]
fn topo_sort_orders_a_dag() {
    let edges = [(5, 2), (5, 0), (4, 0), (4, 1), (2, 3), (3, 1)];
    let g = DirectedGraph::from(
        (0..6).map(IdV::new).collect::<Vec<_>>(),
        edges.iter().map(|&(a, b)| IdE::new(a, b)).collect::<Vec<_>>(),
    )
    .unwrap();
    let order = topo_sort(&g);
    let mut sorted = order.clone();
    sorted.sort();
    assert_eq!((0..6).collect::<Vec<_>>(), sorted);
    for (a, b) in edges {
        let pa = order.iter().position(|&x| x == a).unwrap();
        let pb = order.iter().position(|&x| x == b).unwrap();
        assert!(pa < pb);
    }
}

#[test]
fn topo_sort_leaves_cycles_out() {
    let g = DirectedGraph::from(
        (0..5).map(IdV::new).collect::<Vec<_>>(),
        vec![IdE::new(0, 1), IdE::new(1, 2), IdE::new(2, 1), IdE::new(2, 3)],
    )
    .unwrap();
    let mut order = topo_sort(&g);
    assert!(order.len() < g.len_vertex());
    order.sort();
    assert_eq!(vec![0, 4], order);

    let looped = DirectedGraph::from(vec![IdV::new(0)], vec![IdE::new(0, 0)]).unwrap();
    assert!(topo_sort(&looped).is_empty());
}

#[test]
fn mst_of_nothing_is_zero() {
    let edges: Vec<&LIdE> = Vec::new();
    assert_eq!(Some(0), minimum_spanning_tree(&edges));
}

#[test]
fn mst_of_separate_parts_is_none() {
    let edges = vec![LIdE::new(0, 1, 1), LIdE::new(2, 3, 1)];
    let edges: Vec<_> = edges.iter().collect();
    assert_eq!(None, minimum_spanning_tree(&edges));
}

#[test]
fn mst_picks_the_lightest_tree() {
    let edges = vec![
        LIdE::new(10, 20, 4),
        LIdE::new(20, 30, 8),
        LIdE::new(30, 40, 7),
        LIdE::new(40, 10, 9),
        LIdE::new(10, 30, 2),
        LIdE::new(20, 40, -3),
        LIdE::new(10, 10, -5),
    ];
    let edges: Vec<_> = edges.iter().collect();
    assert_eq!(Some(3), minimum_spanning_tree(&edges));
}

#[test]
fn mst_ignores_the_order_of_equal_lengths() {
    let a = vec![
        LIdE::new(0, 1, 1),
        LIdE::new(1, 2, 1),
        LIdE::new(2, 0, 1),
        LIdE::new(2, 3, 5),
        LIdE::new(3, 0, 5),
    ];
    let b = vec![
        LIdE::new(3, 0, 5),
        LIdE::new(2, 0, 1),
        LIdE::new(2, 3, 5),
        LIdE::new(1, 2, 1),
        LIdE::new(0, 1, 1),
    ];
    let ra: Vec<_> = a.iter().collect();
    let rb: Vec<_> = b.iter().collect();
    assert_eq!(minimum_spanning_tree(&ra), minimum_spanning_tree(&rb));
    assert_eq!(Some(7), minimum_spanning_tree(&ra));
}

#[test]
fn get_vertices_lists_each_end_once() {
    let edges = vec![IdE::new(3, 1), IdE::new(1, 2), IdE::new(3, 3)];
    let mut vs = get_vertices(&edges);
    vs.sort();
    assert_eq!(vec![1, 2, 3], vs);
    assert!(get_vertices::<IdE>(&[]).is_empty());
}

#[test]
fn mst_of_a_graph_without_edges() {
    // two vertices that nothing connects
    let g: DirectedGraph<IdV, LIdE> =
        DirectedGraph::from(vec![IdV::new(0), IdV::new(1)], vec![]).unwrap();
    assert!(g.edges().is_empty());
    assert_eq!(None, minimum_spanning_tree_in(&g));
    // no vertex at all
    let empty: DirectedGraph<IdV, LIdE> = Default::default();
    assert_eq!(0, empty.len_vertex());
    assert_eq!(Some(0), minimum_spanning_tree_in(&empty));
    // one vertex is connected by nothing, at no length
    let one: DirectedGraph<IdV, LIdE> = DirectedGraph::from(vec![IdV::new(7)], vec![]).unwrap();
    assert_eq!(Some(0), minimum_spanning_tree_in(&one));
}

#[test]
fn mst_in_a_graph() {
    let g = DirectedGraph::from(
        vec![IdV::new(0), IdV::new(1)],
        vec![LIdE::new(0, 1, 2), LIdE::new(0, 1, 1)],
    )
    .unwrap();
    assert_eq!(Some(1), minimum_spanning_tree_in(&g));

    let square = DirectedGraph::from(
        (1..=4).map(IdV::new).collect::<Vec<_>>(),
        vec![
            LIdE::new(1, 2, 4),
            LIdE::new(2, 3, 8),
            LIdE::new(3, 4, 7),
            LIdE::new(4, 1, 9),
            LIdE::new(1, 3, 2),
            LIdE::new(2, 4, -3),
            LIdE::new(1, 1, -5),
        ],
    )
    .unwrap();
    assert_eq!(Some(3), minimum_spanning_tree_in(&square));
}

#[test]
fn mst_in_a_graph_with_a_vertex_apart() {
    // the edges connect what they touch, but vertex 9 stands apart
    let mut g = DirectedGraph::from(
        vec![IdV::new(0), IdV::new(1), IdV::new(2)],
        vec![LIdE::new(0, 1, 5), LIdE::new(1, 2, 6)],
    )
    .unwrap();
    assert_eq!(Some(11), minimum_spanning_tree_in(&g));
    g.insert_vertex(IdV::new(9));
    assert_eq!(None, minimum_spanning_tree_in(&g));
    assert_eq!(Some(11), minimum_spanning_tree(&g.edges()));
    // a loop at the only vertex changes nothing
    let looped =
        DirectedGraph::from(vec![IdV::new(3)], vec![LIdE::new(3, 3, 4)]).unwrap();
    assert_eq!(Some(0), minimum_spanning_tree_in(&looped));
    // two parts
    let parts = DirectedGraph::from(
        (0..4).map(IdV::new).collect::<Vec<_>>(),
        vec![LIdE::new(0, 1, 1), LIdE::new(2, 3, 1)],
    )
    .unwrap();
    assert_eq!(None, minimum_spanning_tree_in(&parts));
}

#[test]
fn mst_of_parallel_edges_near_the_limit() {
    let edges = vec![LIdE::new(0, 1, isize::MAX), LIdE::new(0, 1, 1)];
    let edges: Vec<_> = edges.iter().collect();
    assert_eq!(Some(1), minimum_spanning_tree(&edges));
    let edges = vec![LIdE::new(0, 1, isize::MIN), LIdE::new(1, 0, -1), LIdE::new(1, 2, 0)];
    let edges: Vec<_> = edges.iter().collect();
    assert_eq!(Some(isize::MIN), minimum_spanning_tree(&edges));
}
