use graph_matrix::graph::Graph;

fn demo_graph() -> Graph {
    Graph::from_adjacency_list(vec![
        vec![1, 2],
        vec![1, 4],
        vec![4],
        vec![2, 3, 3],
        vec![0, 2, 3],
        vec![0, 4, 5],
    ])
}

#[test]
fn test_demo_graph_counts() {
    let g = demo_graph();
    assert_eq!(g.vertex_count(), 6);
    assert_eq!(g.edges_count(), 14);
    assert_eq!(g.outdegree(0), 2);
    assert_eq!(g.outdegree(3), 3);
    // Vertex 4 is entered from vertices 1, 2 and 5.
    assert_eq!(g.indegree(4), 3);
    assert_eq!(g.indegree(3), 3);
    assert_eq!(g.degree(3), 6);
    // An out-of-range vertex is entered by nothing.
    assert_eq!(g.indegree(100), 0);
}

#[test]
fn test_degree_sums_equal_edge_count() {
    let g = demo_graph();
    let mut out_sum = 0;
    let mut in_sum = 0;
    for v in 0..g.vertex_count() {
        out_sum += g.outdegree(v);
        in_sum += g.indegree(v);
    }
    assert_eq!(out_sum, g.edges_count());
    assert_eq!(in_sum, g.edges_count());
}

#[test]
fn test_adjacency_matrix_entries_and_total() {
    let g = demo_graph();
    let m = g.to_adjacency_matrix();
    assert_eq!(m.num_rows(), 6);
    assert_eq!(m.num_cols(), 6);
    // Two parallel self-loops on vertex 3.
    assert_eq!(m.get(3, 3), 2);
    assert_eq!(m.get(0, 1), 1);
    assert_eq!(m.get(1, 0), 0);
    let mut total = 0;
    for i in 0..6 {
        for j in 0..6 {
            total += m.get(i, j);
        }
    }
    assert_eq!(total, g.edges_count() as i64);
}

#[test]
fn test_adjacency_matrix_counts_parallel_edges() {
    let g = Graph::from_adjacency_list(vec![vec![1, 1, 1], vec![]]);
    let m = g.to_adjacency_matrix();
    assert_eq!(m.get(0, 1), 3);
    assert_eq!(m.get(0, 0), 0);
    assert_eq!(m.get(1, 0), 0);
    assert_eq!(m.get(1, 1), 0);
}

#[test]
fn test_incidence_matrix_columns() {
    let g = demo_graph();
    let m = g.to_incidence_matrix();
    assert_eq!(m.num_rows(), 6);
    assert_eq!(m.num_cols(), 14);
    // Edges in scan order; columns 6 and 7 are the two self-loops 3 -> 3.
    let edges = [
        (0, 1),
        (0, 2),
        (1, 1),
        (1, 4),
        (2, 4),
        (3, 2),
        (3, 3),
        (3, 3),
        (4, 0),
        (4, 2),
        (4, 3),
        (5, 0),
        (5, 4),
        (5, 5),
    ];
    for (c, &(s, d)) in edges.iter().enumerate() {
        let mut minus = 0;
        let mut plus = 0;
        let mut zeros = 0;
        for v in 0..6 {
            match m.get(v, c) {
                -1 => minus += 1,
                1 => plus += 1,
                0 => zeros += 1,
                other => panic!("unexpected incidence entry {}", other),
            }
        }
        if s == d {
            // The +1 of a self-loop overwrites its -1 in the shared cell.
            assert_eq!(m.get(s, c), 1);
            assert_eq!((minus, plus, zeros), (0, 1, 5));
        } else {
            assert_eq!(m.get(s, c), -1);
            assert_eq!(m.get(d, c), 1);
            assert_eq!((minus, plus, zeros), (1, 1, 4));
        }
    }
}

#[test]
fn test_incidence_matrix_non_loop_columns_sum_to_zero() {
    let g = Graph::from_adjacency_list(vec![vec![1], vec![2], vec![0]]);
    let m = g.to_incidence_matrix();
    assert_eq!(m.num_rows(), 3);
    assert_eq!(m.num_cols(), 3);
    for c in 0..3 {
        let mut col_sum = 0;
        for v in 0..3 {
            col_sum += m.get(v, c);
        }
        assert_eq!(col_sum, 0);
    }
}

#[test]
fn test_empty_graph() {
    let g = Graph::from_adjacency_list(vec![]);
    assert_eq!(g.vertex_count(), 0);
    assert_eq!(g.edges_count(), 0);
    let m = g.to_adjacency_matrix();
    assert_eq!(m.num_rows(), 0);
    assert_eq!(m.num_cols(), 0);
}

#[test]
fn test_walk_counts_from_adjacency_powers() {
    // In the two-vertex cycle there is exactly one walk of each length
    // between suitable endpoints.
    let g = Graph::from_adjacency_list(vec![vec![1], vec![0]]);
    let a = g.to_adjacency_matrix();
    let a3 = a.pow(3);
    assert_eq!(a3.get(0, 1), 1);
    assert_eq!(a3.get(0, 0), 0);
}
