use std::collections::{BTreeSet, HashMap};

use rs_graph_layout::graph::{into_weakly_connected_components, Graph};
use rs_graph_layout::graph_layout::{GraphLayout, LayoutError, NodePositions};

type Output = (Vec<NodePositions>, Vec<usize>, Vec<usize>);

fn layout(nodes: &[u32], edges: &[(u32, u32)], roots_to_top: bool) -> Output {
    GraphLayout::create_layers(nodes, edges, 40, roots_to_top).unwrap()
}

fn position(out: &Output, v: u32) -> (isize, isize) {
    let found: Vec<_> = out.0.iter().filter_map(|m| m.get(&(v as usize))).collect();
    assert_eq!(found.len(), 1);
    *found[0]
}

fn check_laws(nodes: &[u32], edges: &[(u32, u32)], out: &Output, sep: isize) {
    let (layouts, widths, heights) = out;
    assert_eq!(layouts.len(), widths.len());
    assert_eq!(layouts.len(), heights.len());
    let mut keys = BTreeSet::new();
    for m in layouts {
        for (k, (x, y)) in m {
            assert!(keys.insert(*k));
            assert!(*x >= 0 && x % sep == 0);
            assert!(*y <= 0 && y % sep == 0);
        }
    }
    let ids: BTreeSet<usize> = nodes.iter().map(|v| *v as usize).collect();
    assert_eq!(keys, ids);
    for (a, b) in edges {
        let ca = layouts.iter().position(|m| m.contains_key(&(*a as usize))).unwrap();
        let cb = layouts.iter().position(|m| m.contains_key(&(*b as usize))).unwrap();
        assert_eq!(ca, cb);
        assert!(position(out, *a).1 > position(out, *b).1);
    }
    for (m, h) in layouts.iter().zip(heights) {
        let ys: BTreeSet<isize> = m.values().map(|p| p.1).collect();
        assert_eq!(ys.len(), *h);
    }
}

#[test]
fn single_vertex() {
    let out = layout(&[1], &[], false);
    let expected: NodePositions = HashMap::from([(1, (160, 0))]);
    assert_eq!(out.0, vec![expected]);
    assert_eq!(out.1, vec![1]);
    assert_eq!(out.2, vec![1]);
}

#[test]
fn single_vertex_other_size() {
    let out = GraphLayout::create_layers(&[7], &[], 10, false).unwrap();
    assert_eq!(out.0, vec![HashMap::from([(7, (40, 0))])]);
}

#[test]
fn two_vertices_one_edge() {
    let out = layout(&[1, 2], &[(1, 2)], false);
    let expected: NodePositions = HashMap::from([(1, (160, 0)), (2, (160, -160))]);
    assert_eq!(out.0, vec![expected]);
    assert_eq!(out.1, vec![1]);
    assert_eq!(out.2, vec![2]);
}

#[test]
fn two_vertices_edge_against_order() {
    let out = layout(&[1, 2], &[(2, 1)], false);
    let expected: NodePositions = HashMap::from([(2, (160, 0)), (1, (160, -160))]);
    assert_eq!(out.0, vec![expected]);
}

#[test]
fn diamond() {
    let nodes = [1, 2, 3, 4];
    let edges = [(1, 2), (1, 3), (2, 4), (3, 4)];
    let out = layout(&nodes, &edges, false);
    assert_eq!(out.0.len(), 1);
    check_laws(&nodes, &edges, &out, 160);
    assert_eq!(position(&out, 1).1, 0);
    assert_eq!(position(&out, 2).1, -160);
    assert_eq!(position(&out, 3).1, -160);
    assert_eq!(position(&out, 4).1, -320);
    assert_eq!(position(&out, 1), (160, 0));
    assert_eq!(position(&out, 4), (160, -320));
    let xs: BTreeSet<isize> = [position(&out, 2).0, position(&out, 3).0].into_iter().collect();
    assert_eq!(xs, BTreeSet::from([160, 320]));
    assert_eq!(out.1, vec![2]);
    assert_eq!(out.2, vec![3]);
}

#[test]
fn two_components_of_two() {
    let nodes = [1, 2, 3, 4];
    let edges = [(1, 2), (3, 4)];
    let out = layout(&nodes, &edges, false);
    assert_eq!(out.0.len(), 2);
    check_laws(&nodes, &edges, &out, 160);
    assert!(out.0.iter().all(|m| m.len() == 2));
}

#[test]
fn diamond_with_long_arm() {
    let nodes = [1, 2, 3, 4, 5];
    let edges = [(1, 2), (2, 3), (1, 4), (4, 5), (5, 3)];
    let out = layout(&nodes, &edges, false);
    check_laws(&nodes, &edges, &out, 160);
    assert!(position(&out, 3).1 < position(&out, 2).1);
    assert!(position(&out, 3).1 < position(&out, 5).1);
}

#[test]
fn roots_to_top_lifts_both_sources() {
    let nodes = [1, 2, 3, 4];
    let edges = [(2, 3), (1, 3), (1, 4)];
    let out = layout(&nodes, &edges, true);
    check_laws(&nodes, &edges, &out, 160);
    assert_eq!(position(&out, 1).1, 0);
    assert_eq!(position(&out, 2).1, 0);
}

#[test]
fn roots_to_top_without_effect() {
    let nodes = [1, 2, 3, 4, 5];
    let edges = [(1, 2), (2, 3), (1, 4), (4, 5), (5, 3)];
    assert_eq!(layout(&nodes, &edges, true), layout(&nodes, &edges, false));
}

#[test]
fn sources_on_top_row() {
    let nodes = [1, 2, 3, 4, 5];
    let edges = [(1, 2), (2, 3), (3, 4), (5, 4)];
    let lifted = layout(&nodes, &edges, true);
    check_laws(&nodes, &edges, &lifted, 160);
    assert_eq!(position(&lifted, 5).1, 0);
    assert_eq!(position(&lifted, 1).1, 0);
}

#[test]
fn isolated_vertices() {
    let nodes = [1, 2, 3];
    let out = layout(&nodes, &[], false);
    assert_eq!(out.0.len(), 3);
    check_laws(&nodes, &[], &out, 160);
    assert_eq!(out.1, vec![1, 1, 1]);
    assert_eq!(out.2, vec![1, 1, 1]);
}

#[test]
fn empty_input() {
    let out = layout(&[], &[], false);
    assert!(out.0.is_empty() && out.1.is_empty() && out.2.is_empty());
}

#[test]
fn chain_against_vertex_order() {
    let nodes = [1, 2, 3];
    let edges = [(3, 2), (2, 1)];
    let out = layout(&nodes, &edges, false);
    check_laws(&nodes, &edges, &out, 160);
    assert_eq!(position(&out, 3).1, 0);
    assert_eq!(position(&out, 2).1, -160);
    assert_eq!(position(&out, 1).1, -320);
}

#[test]
fn identifiers_need_not_be_dense() {
    let nodes = [10, 20, 30];
    let edges = [(10, 20), (10, 30)];
    let out = layout(&nodes, &edges, false);
    check_laws(&nodes, &edges, &out, 160);
}

#[test]
fn deterministic() {
    let nodes: Vec<u32> = (1..=12).collect();
    let edges = [(1, 2), (1, 3), (2, 4), (3, 4), (4, 5), (2, 6), (6, 7), (3, 8), (8, 7), (9, 10), (10, 11), (9, 12)];
    let a = layout(&nodes, &edges, false);
    let b = layout(&nodes, &edges, false);
    assert_eq!(a, b);
    check_laws(&nodes, &edges, &a, 160);
}

#[test]
fn relayout_keeps_levels() {
    let nodes = [1, 2, 3, 4, 5];
    let edges = [(1, 2), (2, 3), (1, 4), (4, 5), (5, 3)];
    let first = layout(&nodes, &edges, false);
    let mut order: Vec<u32> = nodes.to_vec();
    order.sort_by_key(|v| {
        let (x, y) = position(&first, *v);
        (-y, x)
    });
    let second = layout(&order, &edges, false);
    for v in nodes {
        assert_eq!(position(&first, v).1, position(&second, v).1);
    }
}

#[test]
fn wider_graph_laws() {
    let lgr = rs_graph_layout::graph_generators::LayeredGraphGenerator::new(6).with_seed(5).with_degree(2);
    let edges: Vec<(u32, u32)> = lgr.add_random_edges(4).build().iter().map(|(a, b)| (*a as u32 + 1, *b as u32 + 1)).collect();
    let nodes: Vec<u32> = (1..=14).collect();
    for roots in [false, true] {
        let out = layout(&nodes, &edges, roots);
        check_laws(&nodes, &edges, &out, 160);
    }
}

#[test]
fn invalid_node_size() {
    assert_eq!(GraphLayout::create_layers(&[1], &[], 0, false), Err(LayoutError::InvalidParam));
    assert_eq!(GraphLayout::create_layers(&[1], &[], -3, false), Err(LayoutError::InvalidParam));
}

#[test]
fn unknown_vertex() {
    assert_eq!(GraphLayout::create_layers(&[1, 2], &[(1, 3)], 40, false), Err(LayoutError::UnknownVertex));
}

#[test]
fn cyclic_input() {
    assert_eq!(GraphLayout::create_layers(&[1, 2], &[(1, 2), (2, 1)], 40, false), Err(LayoutError::CyclicInput));
    assert_eq!(GraphLayout::create_layers(&[1], &[(1, 1)], 40, false), Err(LayoutError::CyclicInput));
}

#[test]
fn test_into_weakly_connected_components_two_single_nodes() {
    let g = Graph::new(2, vec![]);
    assert_eq!(into_weakly_connected_components(&g).members.len(), 2);
}

#[test]
fn test_into_weakly_connected_compontents_two_components_correct_number_of_components() {
    let g = Graph::new(4, vec![(1, 0), (2, 0)]);
    assert_eq!(into_weakly_connected_components(&g).members.len(), 2);
}

#[test]
fn into_weakly_connected_components_two_components_correct_nodes_and_edges() {
    let edges = vec![(0, 1), (1, 2), (3, 2), (4, 5), (4, 6)];
    let g = Graph::new(7, edges);
    let sgs = into_weakly_connected_components(&g);
    let has_edge = |c: usize, a: usize, b: usize| sgs.members[c].contains(&a) && sgs.members[c].contains(&b);
    assert_eq!(sgs.members.len(), 2);
    assert!(has_edge(0, 0, 1));
    assert!(has_edge(0, 1, 2));
    assert!(has_edge(0, 3, 2));
    assert!(has_edge(1, 4, 5));
    assert!(has_edge(1, 4, 6));
}

#[test]
fn widths_match_columns() {
    let mut cases: Vec<(Vec<u32>, Vec<(u32, u32)>)> = vec![
        (vec![1, 2, 3, 4, 5], vec![(1, 2), (1, 3), (3, 4), (3, 5)]),
        (vec![1, 2, 3, 4, 5, 6], vec![(1, 2), (1, 3), (3, 4), (3, 5), (3, 6)]),
        (vec![1, 2, 3, 4, 5, 6], vec![(1, 2), (1, 3), (1, 4), (4, 5), (4, 6)]),
    ];
    for n in 3..7 {
        for seed in 0..5u128 {
            let e = rs_graph_layout::graph_generators::LayeredGraphGenerator::new(n)
                .with_seed(seed)
                .with_degree(2)
                .add_random_edges(3)
                .build();
            let m = e.iter().map(|(a, b)| *a.max(b)).max().unwrap() as u32 + 1;
            cases.push(((1..=m).collect(), e.iter().map(|(a, b)| (*a as u32 + 1, *b as u32 + 1)).collect()));
        }
    }
    for (nodes, edges) in cases {
        let out = layout(&nodes, &edges, false);
        check_laws(&nodes, &edges, &out, 160);
        for (m, w) in out.0.iter().zip(out.1.iter()) {
            let xs: BTreeSet<isize> = m.values().map(|p| p.0).collect();
            assert_eq!(xs.len(), *w);
        }
    }
}
