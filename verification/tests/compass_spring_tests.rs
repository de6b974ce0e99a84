use ofposet::compass_spring_nd::{compass_spring_graph, hypercube, AxisPort};
use ofposet::poset::FramedPoset;

#[test]
fn hypercube_has_right_shape() {
    for n in 1..=6 {
        let g = hypercube(n);
        assert_eq!(g.node_count, 1 << n);
        assert_eq!(g.edges.len(), n * (1 << (n - 1)));
    }
}

#[test]
fn square_graph_edges_follow_axes() {
    let g = hypercube(2);
    assert_eq!(g.dim, 2);
    let pairs: Vec<(usize, usize)> = g.edges.iter().map(|e| (e.tail, e.head)).collect();
    assert_eq!(pairs, vec![(0, 1), (0, 2), (1, 3), (2, 3)]);
    assert_eq!(g.edges[1].tail_port, Some(AxisPort::new(1, true)));
    assert_eq!(g.edges[1].head_port, Some(AxisPort::new(1, false)));
    assert_eq!(g.edges[2].tail_port, Some(AxisPort { axis: 1, positive: true }));
    assert!(!g.edges[0].one_dimensional);
}

fn layout_square() -> FramedPoset {
    FramedPoset::from_faces(
        vec![
            vec![vec![], vec![], vec![], vec![]],
            vec![vec![0], vec![0], vec![1], vec![1]],
            vec![vec![0, 1]],
        ],
        vec![
            vec![vec![], vec![], vec![], vec![]],
            vec![vec![0], vec![2], vec![0], vec![1]],
            vec![vec![0, 2]],
        ],
        vec![
            vec![vec![], vec![], vec![], vec![]],
            vec![vec![1], vec![3], vec![2], vec![3]],
            vec![vec![1, 3]],
        ],
    )
}

#[test]
fn square_layout_graph_numbers_cells_level_by_level() {
    let g = compass_spring_graph(&layout_square());
    assert_eq!(g.node_count, 9);
    assert_eq!(g.dim, 2);
    let pairs: Vec<(usize, usize)> = g.edges.iter().map(|e| (e.tail, e.head)).collect();
    assert_eq!(
        pairs,
        vec![(0, 4), (1, 4), (2, 5), (3, 5), (0, 6), (2, 6), (1, 7), (3, 7), (4, 8), (6, 8), (5, 8), (7, 8)]
    );
    assert_eq!(g.edges[0].tail_port, Some(AxisPort::new(0, true)));
    assert_eq!(g.edges[1].tail_port, Some(AxisPort::new(0, false)));
    assert_eq!(g.edges[1].head_port, Some(AxisPort::new(0, true)));
    assert_eq!(g.edges[4].tail_port, Some(AxisPort::new(1, true)));
    assert_eq!(g.edges[8].tail_port, Some(AxisPort::new(1, true)));
    assert_eq!(g.edges[8].head_port, Some(AxisPort::new(1, false)));
    assert_eq!(g.edges[9].tail_port, Some(AxisPort::new(0, true)));
    assert_eq!(g.edges[11].tail_port, Some(AxisPort::new(0, false)));
    assert!(g.edges[..8].iter().all(|e| e.one_dimensional));
    assert!(g.edges[8..].iter().all(|e| !e.one_dimensional));
}

#[test]
fn point_layout_graph_has_one_node_in_one_dimension() {
    let point = FramedPoset::from_faces(vec![vec![vec![]]], vec![vec![vec![]]], vec![vec![vec![]]]);
    let g = compass_spring_graph(&point);
    assert_eq!(g.node_count, 1);
    assert_eq!(g.dim, 1);
    assert!(g.edges.is_empty());
}
