use graph_matrix::graph::Graph;
use graph_matrix::matrix::Matrix;

#[test]
fn test_to_dot_exact_text() {
    let g = Graph::from_adjacency_list(vec![vec![1], vec![0, 1]]);
    let text = String::from_utf8(g.to_dot()).unwrap();
    assert_eq!(text, "digraph {\n  1 -> 2;\n  2 -> 1;\n  2 -> 2;\n}\n");
}

#[test]
fn test_to_dot_multi_digit_vertices() {
    let mut adj: Vec<Vec<usize>> = vec![Vec::new(); 11];
    adj[10] = vec![10];
    let g = Graph::from_adjacency_list(adj);
    let text = String::from_utf8(g.to_dot()).unwrap();
    assert_eq!(text, "digraph {\n  11 -> 11;\n}\n");
}

#[test]
fn test_to_dot_empty_graph() {
    let g = Graph::from_adjacency_list(vec![]);
    let text = String::from_utf8(g.to_dot()).unwrap();
    assert_eq!(text, "digraph {\n}\n");
}

#[test]
fn test_render_right_aligned_grid() {
    let m = Matrix::from_vec(vec![1, -2, 345, 6], 2, 2);
    let text = String::from_utf8(m.render()).unwrap();
    assert_eq!(text, "     1     -2 \n   345      6 \n");
}

#[test]
fn test_render_wide_field() {
    let m = Matrix::from_vec(vec![-1234567], 1, 1);
    let text = String::from_utf8(m.render()).unwrap();
    assert_eq!(text, "-1234567 \n");
}
