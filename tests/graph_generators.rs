use rs_graph_layout::graph_generators::{geo_series, EdgesCalculator, LayeredGraphGenerator};
use rs_graph_layout::lcg::LCG;

#[test]
fn test_layered_graph_randomizer_determine_relative_layer_odd() {
    let lgr = LayeredGraphGenerator::new(5).with_degree(3);
    let actual: Vec<_> = (0..lgr.n).map(|n| lgr.determine_relative_layer(n)).collect();
    let expected = vec![(0, false), (1, false), (2, false), (1, true), (0, true)];
    assert_eq!(actual, expected);
}

#[test]
fn test_layered_graph_randomizer_determine_relative_layer_even() {
    let lgr = LayeredGraphGenerator::new(6).with_degree(2);
    let actual: Vec<_> = (0..lgr.n).map(|n| lgr.determine_relative_layer(n)).collect();
    let expected = vec![(0, false), (1, false), (2, false), (2, true), (1, true), (0, true)];
    assert_eq!(actual, expected);
}

#[test]
fn test_layered_graph_randomizer_add_random_edge_even() {
    let mut lgr = LayeredGraphGenerator::new(6).with_degree(2);
    println!("{:?}", lgr.edges);
    lgr = lgr.add_random_edge_in_layer(4);
    let actual = lgr.edges.last().unwrap();
    assert!(actual.0 <= 10 && actual.0 >= 7 && actual.1 <= 12 && actual.1 >= 11);
}

#[test]
fn determine_node_range_2edges_7layers_3() {
    let lgr = LayeredGraphGenerator::new(7).with_degree(2);
    let actual = lgr.determine_node_range((2, false));
    assert_eq!(actual, (4, 3));
}

#[test]
fn determine_node_range_2edges_7layers_4() {
    let lgr = LayeredGraphGenerator::new(7).with_degree(2);
    let actual = lgr.determine_node_range((2, true));
    println!("{}", lgr.n_vertices);
    assert_eq!(actual, (4, 15));
}

#[test]
fn determine_node_range_2edges_8layers_4() {
    let lgr = LayeredGraphGenerator::new(8).with_degree(2);
    let actual = lgr.determine_node_range((3, false));
    assert_eq!(actual, (8, 7));
}

#[test]
fn determine_node_range_2edges_8layers_5() {
    let lgr = LayeredGraphGenerator::new(8).with_degree(2);
    let actual = lgr.determine_node_range((3, true));
    assert_eq!(actual, (8, 15));
}

#[test]
fn determine_node_range_3edges_5layers_2() {
    let lgr = LayeredGraphGenerator::new(5).with_degree(3);
    let actual = lgr.determine_node_range((2, false));
    assert_eq!(actual, (9, 4));
}

#[test]
fn determine_node_range_3edges_6layers_4() {
    let lgr = LayeredGraphGenerator::new(6).with_degree(3);
    let actual = lgr.determine_node_range((2, true));
    assert_eq!(actual, (9, 13));
}

#[test]
fn test_geo_series() {
    for k in 2usize..10 {
        let mut cur = 0;
        for n in 0..10 {
            assert_eq!(cur, geo_series(k, n));
            cur += k.pow(n);
        }
    }
}

#[test]
fn test_lcg_generate_range() {
    let mut lcg = LCG::new();
    let next = lcg.generate_range(10);
    assert!(next < 10);
}

#[test]
fn lcg_step_from_seed() {
    let mut lcg = LCG::new_seed(1);
    assert_eq!(lcg.next(), 0);
    let mut lcg = LCG::new_seed(2);
    assert_eq!(lcg.next(), 0x5deece66d);
    let mut lcg = LCG::new_seed(1u128 << 64);
    assert_eq!(lcg.generate_range(1000), 916);
    assert_eq!(lcg.state >> 64, 0x5deece66c);
}

#[test]
fn glued_graph_three_layers() {
    let lgr = LayeredGraphGenerator::new(3).with_degree(2);
    assert_eq!(lgr.n_vertices, 4);
    assert_eq!(lgr.build(), vec![(0, 1), (0, 2), (2, 3), (1, 3)]);
}

#[test]
fn glued_graph_four_layers() {
    let lgr = LayeredGraphGenerator::new(4).with_degree(2);
    assert_eq!(lgr.n_vertices, 6);
    assert_eq!(lgr.build(), vec![(0, 1), (0, 2), (4, 5), (3, 5), (1, 3), (2, 4)]);
}

#[test]
fn seeded_generators_agree() {
    let a = LayeredGraphGenerator::new(7).with_seed(42).with_degree(2).add_random_edges(5).build();
    let b = LayeredGraphGenerator::new(7).with_seed(42).with_degree(2).add_random_edges(5).build();
    assert_eq!(a, b);
}

#[test]
fn random_edges_are_fresh_and_in_layer() {
    let base = LayeredGraphGenerator::new(6).with_degree(2).build();
    let lgr = LayeredGraphGenerator::new(6).with_seed(7).with_degree(2).add_random_edges_in_layer(3, 4);
    let edges = lgr.build();
    assert!(edges.len() <= base.len() + 3);
    assert_eq!(&edges[..base.len()], &base[..]);
    for (i, e) in edges.iter().enumerate().skip(base.len()) {
        assert!(!edges[..i].contains(e));
        assert!(e.0 >= 7 && e.0 <= 10 && e.1 >= 11 && e.1 <= 12);
    }
}

#[test]
fn out_of_range_layer_leaves_graph() {
    let base = LayeredGraphGenerator::new(6).with_degree(2).build();
    let edges = LayeredGraphGenerator::new(6).with_seed(3).with_degree(2).add_random_edge_in_layer(1).build();
    assert_eq!(edges, base);
    let edges = LayeredGraphGenerator::new(6).with_seed(3).with_degree(2).add_random_edge_in_layer(5).build();
    assert_eq!(edges, base);
}

#[test]
fn edges_calculator_walks_tree() {
    let mut calc = EdgesCalculator::new(3);
    let got: Vec<_> = (0..5).map(|_| calc.next()).collect();
    assert_eq!(got, vec![(0, 1), (0, 2), (0, 3), (1, 4), (1, 5)]);
}

#[test]
fn random_edge_keeps_parameters() {
    let lgr = LayeredGraphGenerator::new(5).with_seed(11).with_degree(3);
    let before = lgr.edges.len();
    let lgr = lgr.add_random_edge();
    assert_eq!(lgr.n, 5);
    assert_eq!(lgr.k, 3);
    assert_eq!(lgr.n_vertices, 17);
    assert!(lgr.edges.len() <= before + 1);
}

#[test]
fn glued_graph_even_layers_higher_degree() {
    let lgr = LayeredGraphGenerator::new(6).with_degree(4);
    assert_eq!(lgr.n_vertices, 42);
    let edges = lgr.build();
    assert!(edges.iter().all(|(t, h)| t < h && *h < 42));
    let middle: Vec<_> = edges[edges.len() - 16..].to_vec();
    let expected: Vec<_> = (5..21).map(|i| (i, i + 16)).collect();
    assert_eq!(middle, expected);
}

#[test]
fn glued_graph_six_layers_degree_three() {
    let lgr = LayeredGraphGenerator::new(6).with_degree(3);
    assert_eq!(lgr.n_vertices, 26);
    assert!(lgr.build().iter().all(|(t, h)| t < h && *h < 26));
}
