//! Directed multigraphs backed by an adjacency list: degree queries and the
//! derivations into adjacency and incidence matrices, with the counting laws
//! that relate degrees, edges and matrix entries.

use crate::matrix::{
    elems_total, lemma_decode_in_range, lemma_elems_total_by_rows, lemma_flat_index_bounds,
    lemma_flat_index_decode, Matrix, MatrixModel,
};
use crate::sums::{
    lemma_sum_add, lemma_sum_ext, lemma_sum_le, lemma_sum_nonneg, lemma_sum_nonneg_bound,
    lemma_sum_one_point, lemma_sum_prefix_bound, lemma_sum_swap, lemma_sum_two_points,
    lemma_sum_zero, sum,
};
use vstd::prelude::*;

verus! {

/// Directed multigraph: entry `i` of the adjacency list holds the ordered
/// destination vertices of the edges leaving vertex `i`. Vertex identifiers
/// are the indices of that list; self-loops and parallel edges are allowed
/// and count as distinct edges.
pub struct Graph {
    pub adjacency_list: Vec<Vec<usize>>,
}

impl View for Graph {
    type V = Seq<Seq<usize>>;

    open spec fn view(&self) -> Seq<Seq<usize>> {
        self.adjacency_list.deep_view()
    }
}

/// Every destination anywhere in the adjacency list is a valid vertex index.
pub open spec fn valid_adjacency(adj: Seq<Seq<usize>>) -> bool {
    forall|i: int, j: int|
        0 <= i < adj.len() && 0 <= j < adj[i].len() ==> (#[trigger] adj[i][j]) < adj.len()
}

/// The length of row `i`, as a function of the row index.
pub open spec fn row_lens(adj: Seq<Seq<usize>>) -> spec_fn(int) -> int {
    |i: int| adj[i].len() as int
}

/// The total number of directed edges: the lengths of all rows, summed.
pub open spec fn edge_total(adj: Seq<Seq<usize>>) -> int {
    sum(adj.len(), row_lens(adj))
}

/// How many entries of `s` equal `v`.
pub open spec fn count_in(s: Seq<usize>, v: int) -> int
    decreases s.len(),
{
    if s.len() == 0 {
        0
    } else {
        count_in(s.drop_last(), v) + (if s.last() as int == v {
            1int
        } else {
            0int
        })
    }
}

/// How many entries of row `i` equal `v`, as a function of the row index.
pub open spec fn count_row(adj: Seq<Seq<usize>>, v: int) -> spec_fn(int) -> int {
    |i: int| count_in(adj[i], v)
}

/// The outdegree of `v`: the number of edges leaving it.
pub open spec fn outdeg(adj: Seq<Seq<usize>>, v: int) -> int {
    adj[v].len() as int
}

/// The indegree of `v`: the number of edges entering it, over all rows.
pub open spec fn indeg(adj: Seq<Seq<usize>>, v: int) -> int {
    sum(adj.len(), count_row(adj, v))
}

impl Graph {
    /// Wrap an adjacency-list value as a graph. The list is taken as given:
    /// destination indices are not validated here.
    pub fn from_adjacency_list(adj_list: Vec<Vec<usize>>) -> (res: Graph)
        ensures
            res@ == adj_list.deep_view(),
    {
        Graph { adjacency_list: adj_list }
    }

    /// The number of vertices: the number of adjacency-list entries.
    pub fn vertex_count(&self) -> (r: usize)
        ensures
            r == self@.len(),
    {
        self.adjacency_list.len()
    }

    /// The total number of directed edges: every destination entry counts,
    /// parallel edges and self-loops included.
    #[verifier::loop_isolation(false)]
    pub fn edges_count(&self) -> (r: usize)
        requires
            edge_total(self@) <= usize::MAX,
        ensures
            r as int == edge_total(self@),
    {
        let ghost adj = self@;
        let n = self.adjacency_list.len();
        let mut acc: usize = 0;
        let mut i: usize = 0;
        while i < n
            invariant
                i <= n,
                acc as int == sum(i as nat, row_lens(adj)),
            decreases n - i,
        {
            proof {
                lemma_row_lens_nonneg(adj);
                lemma_sum_prefix_bound(n as nat, row_lens(adj), (i + 1) as nat);
                assert(sum((i + 1) as nat, row_lens(adj)) == sum(i as nat, row_lens(adj))
                    + row_lens(adj)(i as int));
                assert(self.adjacency_list@[i as int].deep_view().len() == self.adjacency_list@[
                    i as int
                ]@.len());
            }
            acc = acc + self.adjacency_list[i].len();
            i = i + 1;
        }
        acc
    }

    /// The outdegree of `vertex`: the length of its adjacency list.
    pub fn outdegree(&self, vertex: usize) -> (r: usize)
        requires
            vertex < self@.len(),
        ensures
            r as int == outdeg(self@, vertex as int),
    {
        proof {
            assert(self.adjacency_list@[vertex as int].deep_view().len() == self.adjacency_list@[
                vertex as int
            ]@.len());
        }
        self.adjacency_list[vertex].len()
    }

    /// The indegree of `vertex`: how many destination entries across all
    /// adjacency lists equal it. A vertex index that is out of range simply
    /// has indegree zero.
    #[verifier::loop_isolation(false)]
    pub fn indegree(&self, vertex: usize) -> (r: usize)
        requires
            edge_total(self@) <= usize::MAX,
        ensures
            r as int == indeg(self@, vertex as int),
    {
        let ghost adj = self@;
        let ghost v = vertex as int;
        let n = self.adjacency_list.len();
        let mut acc: usize = 0;
        let mut i: usize = 0;
        while i < n
            invariant
                i <= n,
                acc as int == sum(i as nat, count_row(adj, v)),
                acc as int <= sum(i as nat, row_lens(adj)),
            decreases n - i,
        {
            let row_len = self.adjacency_list[i].len();
            proof {
                assert(self.adjacency_list@[i as int].deep_view().len() == self.adjacency_list@[
                    i as int
                ]@.len());
            }
            let mut cnt: usize = 0;
            let mut j: usize = 0;
            while j < row_len
                invariant
                    j <= row_len,
                    cnt as int == count_in(adj[i as int].take(j as int), v),
                    cnt <= j,
                decreases row_len - j,
            {
                proof {
                    lemma_count_in_take_step(adj[i as int], v, j as int);
                    assert(self.adjacency_list@[i as int].deep_view()[j as int]
                        == self.adjacency_list@[i as int]@[j as int]);
                }
                if self.adjacency_list[i][j] == vertex {
                    cnt = cnt + 1;
                }
                j = j + 1;
            }
            proof {
                assert(adj[i as int].take(row_len as int) =~= adj[i as int]);
                lemma_row_lens_nonneg(adj);
                lemma_count_in_le_len(adj[i as int], v);
                assert(sum((i + 1) as nat, count_row(adj, v)) == sum(i as nat, count_row(adj, v))
                    + count_row(adj, v)(i as int));
                assert(sum((i + 1) as nat, row_lens(adj)) == sum(i as nat, row_lens(adj))
                    + row_lens(adj)(i as int));
                lemma_count_rows_le(adj, v, (i + 1) as nat);
                lemma_sum_prefix_bound(n as nat, row_lens(adj), (i + 1) as nat);
            }
            acc = acc + cnt;
            i = i + 1;
        }
        acc
    }

    /// The degree of `vertex`: outdegree plus indegree; a self-loop
    /// contributes to both terms and so counts twice.
    pub fn degree(&self, vertex: usize) -> (r: usize)
        requires
            vertex < self@.len(),
            edge_total(self@) <= usize::MAX,
            outdeg(self@, vertex as int) + indeg(self@, vertex as int) <= usize::MAX,
        ensures
            r as int == outdeg(self@, vertex as int) + indeg(self@, vertex as int),
    {
        proof {
            lemma_row_lens_nonneg(self@);
            lemma_count_rows_nonneg(self@, vertex as int);
            lemma_sum_nonneg(self@.len(), count_row(self@, vertex as int));
        }
        self.outdegree(vertex) + self.indegree(vertex)
    }
}

/// Row lengths are never negative.
pub proof fn lemma_row_lens_nonneg(adj: Seq<Seq<usize>>)
    ensures
        forall|i: int| 0 <= i < adj.len() ==> #[trigger] row_lens(adj)(i) >= 0,
{
}

/// Counts of matches per row are never negative.
pub proof fn lemma_count_rows_nonneg(adj: Seq<Seq<usize>>, v: int)
    ensures
        forall|i: int| 0 <= i < adj.len() ==> #[trigger] count_row(adj, v)(i) >= 0,
{
    assert forall|i: int| 0 <= i < adj.len() implies #[trigger] count_row(adj, v)(i) >= 0 by {
        lemma_count_in_le_len(adj[i], v);
    };
}

/// A partial sum of match counts is bounded by the matching partial sum of
/// row lengths.
pub proof fn lemma_count_rows_le(adj: Seq<Seq<usize>>, v: int, k: nat)
    requires
        k <= adj.len(),
    ensures
        sum(k, count_row(adj, v)) <= sum(k, row_lens(adj)),
{
    assert forall|i: int| 0 <= i < k implies #[trigger] count_row(adj, v)(i) <= row_lens(adj)(
        i,
    ) by {
        lemma_count_in_le_len(adj[i], v);
    };
    lemma_sum_le(k, count_row(adj, v), row_lens(adj));
}

/// A count of matches never exceeds the sequence length, and is not negative.
pub proof fn lemma_count_in_le_len(s: Seq<usize>, v: int)
    ensures
        0 <= count_in(s, v) <= s.len(),
    decreases s.len(),
{
    if s.len() > 0 {
        lemma_count_in_le_len(s.drop_last(), v);
    }
}

/// Extending a prefix by one element adjusts the count by that element.
pub proof fn lemma_count_in_take_step(s: Seq<usize>, v: int, j: int)
    requires
        0 <= j < s.len(),
    ensures
        count_in(s.take(j + 1), v) == count_in(s.take(j), v) + (if s[j] as int == v {
            1int
        } else {
            0int
        }),
{
    assert(s.take(j + 1).drop_last() =~= s.take(j));
    assert(s.take(j + 1).last() == s[j]);
}

/// A prefix never holds more matches than the whole sequence.
pub proof fn lemma_count_in_take_le(s: Seq<usize>, v: int, j: int)
    requires
        0 <= j <= s.len(),
    ensures
        count_in(s.take(j), v) <= count_in(s, v),
    decreases s.len() - j,
{
    if j == s.len() {
        assert(s.take(j) =~= s);
    } else {
        lemma_count_in_take_step(s, v, j);
        lemma_count_in_take_le(s, v, j + 1);
    }
}

/// Counting the occurrences of each possible value over a row whose entries
/// all lie below `n` accounts for every entry exactly once.
pub proof fn lemma_row_count_total(row: Seq<usize>, n: nat, cnt: spec_fn(int) -> int)
    requires
        forall|t: int| 0 <= t < row.len() ==> (#[trigger] row[t]) < n,
        forall|v: int| 0 <= v < n ==> #[trigger] cnt(v) == count_in(row, v),
    ensures
        sum(n, cnt) == row.len(),
    decreases row.len(),
{
    if row.len() == 0 {
        lemma_sum_zero(n, cnt);
    } else {
        let shorter = row.drop_last();
        assert(forall|t: int| 0 <= t < shorter.len() ==> (#[trigger] shorter[t]) < n);
        let fewer = |v: int| count_in(shorter, v);
        lemma_row_count_total(shorter, n, fewer);
        let lastv = |v: int|
            if row.last() as int == v {
                1int
            } else {
                0int
            };
        lemma_sum_add(n, fewer, lastv, cnt);
        assert(row.last() == row[row.len() - 1]);
        lemma_sum_one_point(n, lastv, row.last() as int);
    }
}

/// The sum of all outdegrees and the sum of all indegrees each equal the
/// total number of directed edges.
pub proof fn lemma_degree_sums(adj: Seq<Seq<usize>>)
    requires
        valid_adjacency(adj),
    ensures
        sum(adj.len(), |v: int| outdeg(adj, v)) == edge_total(adj),
        sum(adj.len(), |v: int| indeg(adj, v)) == edge_total(adj),
{
    let n = adj.len();
    let outs = |v: int| outdeg(adj, v);
    lemma_sum_ext(n, outs, row_lens(adj));

    let both = |v: int, i: int| count_in(adj[i], v);
    let ins = |v: int| indeg(adj, v);
    let by_v = |v: int| sum(n, |i: int| both(v, i));
    assert forall|v: int| 0 <= v < n implies #[trigger] ins(v) == by_v(v) by {
        assert((|i: int| both(v, i)) =~= count_row(adj, v));
    };
    lemma_sum_ext(n, ins, by_v);
    lemma_sum_swap(n, n, both);
    assert((|i0: int| sum(n, |j0: int| both(i0, j0))) =~= by_v);
    let per_row = |i: int| sum(n, |v: int| both(v, i));
    assert((|j0: int| sum(n, |i0: int| both(i0, j0))) =~= per_row);
    assert forall|i: int| 0 <= i < n implies #[trigger] per_row(i) == row_lens(adj)(i) by {
        assert(forall|t: int| 0 <= t < adj[i].len() ==> (#[trigger] adj[i][t]) < n);
        lemma_row_count_total(adj[i], n, |v: int| both(v, i));
    };
    lemma_sum_ext(n, per_row, row_lens(adj));
}

/// Mathematical model of the adjacency matrix: a `n x n` grid where entry
/// `(i, j)` counts the directed edges from `i` to `j`.
pub open spec fn adjacency_model(adj: Seq<Seq<usize>>) -> MatrixModel {
    MatrixModel {
        rows: adj.len(),
        cols: adj.len(),
        elems: Seq::new(
            adj.len() * adj.len(),
            |x: int| count_in(adj[x / adj.len() as int], x % adj.len() as int),
        ),
    }
}

/// Inside its dimensions, the adjacency matrix counts edge multiplicities.
pub proof fn lemma_adjacency_entry(adj: Seq<Seq<usize>>, i: int, j: int)
    requires
        0 <= i < adj.len(),
        0 <= j < adj.len(),
    ensures
        adjacency_model(adj).wf(),
        adjacency_model(adj).entry(i, j) == count_in(adj[i], j),
{
    let m = adjacency_model(adj);
    lemma_flat_index_bounds(m, i, j);
    lemma_flat_index_decode(m, i, j);
}

/// The matrix state while scanning the adjacency list: rows before `i` are
/// complete, row `i` reflects its first `j` entries, later rows are zero.
pub open spec fn adjacency_partial(adj: Seq<Seq<usize>>, r: int, c: int, i: int, j: int) -> int {
    if r < i {
        count_in(adj[r], c)
    } else if r == i {
        count_in(adj[r].take(j), c)
    } else {
        0
    }
}

/// The adjacency matrix has one entry per directed edge: the sum of all its
/// elements is the edge count.
pub proof fn lemma_adjacency_matrix_total(adj: Seq<Seq<usize>>)
    requires
        valid_adjacency(adj),
    ensures
        adjacency_model(adj).rows == adj.len(),
        adjacency_model(adj).cols == adj.len(),
        elems_total(adjacency_model(adj)) == edge_total(adj),
{
    let n = adj.len();
    let m = adjacency_model(adj);
    lemma_elems_total_by_rows(m);
    let row_sums = |i: int| sum(n, |j: int| m.entry(i, j));
    assert forall|i: int| 0 <= i < n implies #[trigger] row_sums(i) == row_lens(adj)(i) by {
        assert(forall|t: int| 0 <= t < adj[i].len() ==> (#[trigger] adj[i][t]) < n);
        let f = |j: int| m.entry(i, j);
        assert forall|j: int| 0 <= j < n implies #[trigger] f(j) == count_in(adj[i], j) by {
            lemma_adjacency_entry(adj, i, j);
        };
        lemma_row_count_total(adj[i], n, f);
    };
    lemma_sum_ext(n, row_sums, row_lens(adj));
    assert((|i: int| sum(m.cols, |j: int| m.entry(i, j))) =~= row_sums);
}

impl Graph {
    /// Derive the adjacency matrix: entry `(i, j)` is the number of directed
    /// edges from `i` to `j`, self-loops and parallel edges each counted.
    #[verifier::loop_isolation(false)]
    pub fn to_adjacency_matrix(&self) -> (res: Matrix)
        requires
            valid_adjacency(self@),
            self@.len() * self@.len() <= usize::MAX,
            edge_total(self@) <= i64::MAX,
        ensures
            res@ == adjacency_model(self@),
    {
        let ghost adj = self@;
        let n = self.adjacency_list.len();
        let mut mat = Matrix::new(0, n, n);
        proof {
            assert forall|r: int, c: int| 0 <= r < n && 0 <= c < n implies #[trigger] mat@.entry(
                r,
                c,
            ) == adjacency_partial(adj, r, c, 0, 0) by {
                lemma_flat_index_bounds(mat@, r, c);
            };
        }
        let mut i: usize = 0;
        while i < n
            invariant
                i <= n,
                mat@.rows == n,
                mat@.cols == n,
                mat@.wf(),
                forall|r: int, c: int|
                    0 <= r < n && 0 <= c < n ==> #[trigger] mat@.entry(r, c) == adjacency_partial(
                        adj,
                        r,
                        c,
                        i as int,
                        0,
                    ),
            decreases n - i,
        {
            let row_len = self.adjacency_list[i].len();
            proof {
                assert(self.adjacency_list@[i as int].deep_view().len() == self.adjacency_list@[
                    i as int
                ]@.len());
            }
            let mut j: usize = 0;
            while j < row_len
                invariant
                    j <= row_len,
                    mat@.rows == n,
                    mat@.cols == n,
                    mat@.wf(),
                    forall|r: int, c: int|
                        0 <= r < n && 0 <= c < n ==> #[trigger] mat@.entry(r, c)
                            == adjacency_partial(adj, r, c, i as int, j as int),
                decreases row_len - j,
            {
                let d = self.adjacency_list[i][j];
                proof {
                    assert(self.adjacency_list@[i as int].deep_view()[j as int]
                        == self.adjacency_list@[i as int]@[j as int]);
                    assert(adj[i as int][j as int] == d);
                    assert((adj[i as int][j as int]) < adj.len());
                    lemma_count_in_take_step(adj[i as int], d as int, j as int);
                    lemma_count_in_take_le(adj[i as int], d as int, j as int + 1);
                    lemma_count_in_le_len(adj[i as int], d as int);
                    lemma_row_lens_nonneg(adj);
                    lemma_sum_nonneg_bound(n as nat, row_lens(adj), i as int);
                }
                let cur = mat.get(i, d);
                let ghost pre = mat@;
                mat.set(i, d, cur + 1);
                proof {
                    lemma_flat_index_bounds(pre, i as int, d as int);
                    assert(mat@.elems == pre.elems.update(
                        i as int * n as int + d as int,
                        cur as int + 1,
                    ));
                    assert forall|r: int, c: int| 0 <= r < n && 0 <= c < n implies #[trigger] mat@.entry(
                        r,
                        c,
                    ) == adjacency_partial(adj, r, c, i as int, j as int + 1) by {
                        assert(pre.entry(r, c) == adjacency_partial(adj, r, c, i as int, j as int));
                        lemma_flat_index_bounds(mat@, r, c);
                        lemma_flat_index_decode(mat@, r, c);
                        lemma_flat_index_decode(mat@, i as int, d as int);
                        if r == i as int && c == d as int {
                            assert(mat@.entry(r, c) == cur as int + 1);
                        } else {
                            assert(r * n as int + c != i as int * n as int + d as int);
                            assert(mat@.entry(r, c) == pre.entry(r, c));
                            lemma_count_in_take_step(adj[i as int], c, j as int);
                        }
                    };
                }
                j = j + 1;
            }
            proof {
                assert(adj[i as int].take(row_len as int) =~= adj[i as int]);
                assert forall|r: int, c: int| 0 <= r < n && 0 <= c < n implies adjacency_partial(
                    adj,
                    r,
                    c,
                    i as int,
                    row_len as int,
                ) == adjacency_partial(adj, r, c, i as int + 1, 0) by {
                    if r == i as int + 1 {
                        assert(adj[r].take(0) =~= Seq::<usize>::empty());
                    }
                };
            }
            i = i + 1;
        }
        proof {
            let m = adjacency_model(adj);
            assert forall|x: int| 0 <= x < mat@.elems.len() implies mat@.elems[x] == m.elems[x] by {
                let ij = lemma_decode_in_range(n as nat, n as nat, x);
                lemma_flat_index_decode(mat@, ij.0, ij.1);
                assert(mat@.entry(ij.0, ij.1) == adjacency_partial(adj, ij.0, ij.1, n as int, 0));
            };
            assert(mat@.elems =~= m.elems);
            assert(mat@ =~= m);
        }
        mat
    }
}

/// The edges leaving vertex `i`, in list order, as (source, destination).
pub open spec fn row_edges(i: int, row: Seq<usize>) -> Seq<(int, int)> {
    row.map_values(|d: usize| (i, d as int))
}

/// All edges in column order: rows scanned in vertex order, each row in
/// list order. The position of an edge here is its incidence-matrix column.
pub open spec fn edge_list(adj: Seq<Seq<usize>>) -> Seq<(int, int)>
    decreases adj.len(),
{
    if adj.len() == 0 {
        Seq::empty()
    } else {
        edge_list(adj.drop_last()) + row_edges(adj.len() - 1, adj.last())
    }
}

/// The edge list enumerates exactly `edge_total` edges.
pub proof fn lemma_edge_list_len(adj: Seq<Seq<usize>>)
    ensures
        edge_list(adj).len() == edge_total(adj),
    decreases adj.len(),
{
    let n = adj.len();
    if n > 0 {
        let shorter = adj.drop_last();
        lemma_edge_list_len(shorter);
        assert forall|k: int| 0 <= k < n - 1 implies #[trigger] row_lens(shorter)(k) == row_lens(
            adj,
        )(k) by {
            assert(shorter[k] == adj[k]);
        };
        lemma_sum_ext((n - 1) as nat, row_lens(shorter), row_lens(adj));
        assert(adj.last() == adj[n - 1]);
    }
}

/// The edge found at position `j` of row `i` occupies the column that
/// follows all edges of earlier rows and the earlier edges of row `i`.
pub proof fn lemma_edge_list_index(adj: Seq<Seq<usize>>, i: int, j: int)
    requires
        0 <= i < adj.len(),
        0 <= j < adj[i].len(),
    ensures
        0 <= sum(i as nat, row_lens(adj)) + j < edge_list(adj).len(),
        edge_list(adj)[sum(i as nat, row_lens(adj)) + j] == (i, adj[i][j] as int),
    decreases adj.len(),
{
    let n = adj.len();
    let shorter = adj.drop_last();
    lemma_edge_list_len(adj);
    lemma_edge_list_len(shorter);
    lemma_row_lens_nonneg(adj);
    lemma_sum_nonneg(i as nat, row_lens(adj));
    lemma_sum_prefix_bound(n as nat, row_lens(adj), (i + 1) as nat);
    assert(sum((i + 1) as nat, row_lens(adj)) == sum(i as nat, row_lens(adj)) + row_lens(adj)(i));
    assert forall|k: int| 0 <= k < n - 1 implies #[trigger] row_lens(shorter)(k) == row_lens(adj)(
        k,
    ) by {
        assert(shorter[k] == adj[k]);
    };
    lemma_sum_ext((n - 1) as nat, row_lens(shorter), row_lens(adj));
    if i == n - 1 {
        assert(adj.last() == adj[n - 1]);
        assert(sum(i as nat, row_lens(adj)) == edge_list(shorter).len());
    } else {
        lemma_edge_list_index(shorter, i, j);
        assert(shorter[i] == adj[i]);
        assert(sum(i as nat, row_lens(shorter)) == sum(i as nat, row_lens(adj))) by {
            lemma_sum_ext(i as nat, row_lens(shorter), row_lens(adj));
        };
    }
}

/// Every listed edge has a legal source row, and destinations below `bound`
/// whenever all adjacency entries are below `bound`.
pub proof fn lemma_edge_list_in_bounds(adj: Seq<Seq<usize>>, bound: int)
    requires
        forall|i: int, j: int|
            0 <= i < adj.len() && 0 <= j < adj[i].len() ==> (#[trigger] adj[i][j] as int) < bound,
    ensures
        forall|c: int|
            0 <= c < edge_list(adj).len() ==> {
                &&& 0 <= (#[trigger] edge_list(adj)[c]).0 < adj.len()
                &&& 0 <= edge_list(adj)[c].1 < bound
            },
    decreases adj.len(),
{
    let n = adj.len();
    if n > 0 {
        let shorter = adj.drop_last();
        assert(forall|i: int, j: int|
            0 <= i < shorter.len() && 0 <= j < shorter[i].len() ==> (#[trigger] shorter[i][j] as int)
                < bound);
        lemma_edge_list_in_bounds(shorter, bound);
        assert forall|c: int| 0 <= c < edge_list(adj).len() implies {
            &&& 0 <= (#[trigger] edge_list(adj)[c]).0 < n
            &&& 0 <= edge_list(adj)[c].1 < bound
        } by {
            if c < edge_list(shorter).len() {
                assert(edge_list(adj)[c] == edge_list(shorter)[c]);
            } else {
                let t = c - edge_list(shorter).len();
                assert(adj.last() == adj[n - 1]);
                assert(edge_list(adj)[c] == (n - 1, adj[n - 1][t] as int));
                assert((adj[n - 1][t] as int) < bound);
            }
        };
    }
}

/// Entry `(v, c)` of the incidence matrix: `-1` at the source row of edge
/// `c`, `+1` at its destination row, `0` elsewhere. For a self-loop both
/// writes land on one cell and the `+1` wins.
pub open spec fn incidence_entry(adj: Seq<Seq<usize>>, v: int, c: int) -> int {
    let e = edge_list(adj)[c];
    if e.0 == e.1 {
        if v == e.0 {
            1int
        } else {
            0int
        }
    } else if v == e.0 {
        -1int
    } else if v == e.1 {
        1int
    } else {
        0int
    }
}

/// Mathematical model of the incidence matrix: one row per vertex, one
/// column per edge, in edge-list column order.
pub open spec fn incidence_model(adj: Seq<Seq<usize>>) -> MatrixModel {
    MatrixModel {
        rows: adj.len(),
        cols: edge_total(adj) as nat,
        elems: Seq::new(
            adj.len() * (edge_total(adj) as nat),
            |x: int| incidence_entry(adj, x / edge_total(adj), x % edge_total(adj)),
        ),
    }
}

/// Inside its dimensions, the incidence matrix has the modelled entries.
pub proof fn lemma_incidence_entry(adj: Seq<Seq<usize>>, v: int, c: int)
    requires
        0 <= v < adj.len(),
        0 <= c < edge_total(adj),
    ensures
        incidence_model(adj).wf(),
        incidence_model(adj).entry(v, c) == incidence_entry(adj, v, c),
{
    let m = incidence_model(adj);
    lemma_row_lens_nonneg(adj);
    lemma_sum_nonneg(adj.len(), row_lens(adj));
    lemma_flat_index_bounds(m, v, c);
    lemma_flat_index_decode(m, v, c);
}

/// The sum of the entries of column `c`.
pub open spec fn column_sum(m: MatrixModel, c: int) -> int {
    sum(m.rows, |v: int| m.entry(v, c))
}

/// How many entries of column `c` equal `val`.
pub open spec fn column_count(m: MatrixModel, c: int, val: int) -> int {
    sum(
        m.rows,
        |v: int|
            if m.entry(v, c) == val {
                1int
            } else {
                0int
            },
    )
}

/// Each column of the incidence matrix that belongs to a non-self-loop edge
/// holds exactly one `-1` (at the source), exactly one `+1` (at the
/// destination) and zeros elsewhere, so it sums to zero; summed over all
/// non-self-loop columns the entries still cancel.
pub proof fn lemma_incidence_columns(adj: Seq<Seq<usize>>)
    requires
        valid_adjacency(adj),
    ensures
        incidence_model(adj).rows == adj.len(),
        incidence_model(adj).cols == edge_total(adj),
        forall|c: int|
            0 <= c < edge_total(adj) && (#[trigger] edge_list(adj)[c]).0 != edge_list(adj)[c].1
                ==> {
                &&& column_sum(incidence_model(adj), c) == 0
                &&& column_count(incidence_model(adj), c, -1) == 1
                &&& column_count(incidence_model(adj), c, 1) == 1
                &&& forall|v: int|
                    0 <= v < adj.len() && v != edge_list(adj)[c].0 && v != edge_list(adj)[c].1
                        ==> incidence_model(adj).entry(v, c) == 0
            },
        sum(
            (edge_total(adj) as nat),
            |c: int|
                if edge_list(adj)[c].0 != edge_list(adj)[c].1 {
                    column_sum(incidence_model(adj), c)
                } else {
                    0int
                },
        ) == 0,
{
    let n = adj.len();
    let m = incidence_model(adj);
    lemma_row_lens_nonneg(adj);
    lemma_sum_nonneg(n, row_lens(adj));
    lemma_edge_list_len(adj);
    lemma_edge_list_in_bounds(adj, n as int);
    assert forall|c: int|
        0 <= c < edge_total(adj) && (#[trigger] edge_list(adj)[c]).0 != edge_list(adj)[c].1 implies {
        &&& column_sum(m, c) == 0
        &&& column_count(m, c, -1) == 1
        &&& column_count(m, c, 1) == 1
        &&& forall|v: int|
            0 <= v < adj.len() && v != edge_list(adj)[c].0 && v != edge_list(adj)[c].1
                ==> incidence_model(adj).entry(v, c) == 0
    } by {
        let e = edge_list(adj)[c];
        let s = e.0;
        let d = e.1;
        assert forall|v: int| 0 <= v < n implies #[trigger] m.entry(v, c) == incidence_entry(
            adj,
            v,
            c,
        ) by {
            lemma_incidence_entry(adj, v, c);
        };
        let colf = |v: int| m.entry(v, c);
        lemma_sum_two_points(n, colf, s, d);
        let is_neg = |v: int|
            if m.entry(v, c) == -1 {
                1int
            } else {
                0int
            };
        lemma_sum_one_point(n, is_neg, s);
        let is_pos = |v: int|
            if m.entry(v, c) == 1 {
                1int
            } else {
                0int
            };
        lemma_sum_one_point(n, is_pos, d);
    };
    let agg = |c: int|
        if edge_list(adj)[c].0 != edge_list(adj)[c].1 {
            column_sum(m, c)
        } else {
            0int
        };
    assert forall|c: int| 0 <= c < edge_total(adj) implies #[trigger] agg(c) == 0 by {};
    lemma_sum_zero((edge_total(adj) as nat), agg);
}

impl Graph {
    /// Derive the incidence matrix: one column per edge in scan order, `-1`
    /// at the source row and `+1` at the destination row. For a self-loop
    /// the `+1` overwrites the `-1` in the single affected cell.
    #[verifier::loop_isolation(false)]
    pub fn to_incidence_matrix(&self) -> (res: Matrix)
        requires
            valid_adjacency(self@),
            edge_total(self@) <= usize::MAX,
            self@.len() * edge_total(self@) <= usize::MAX,
        ensures
            res@ == incidence_model(self@),
    {
        let ghost adj = self@;
        let n_edges = self.edges_count();
        let n = self.adjacency_list.len();
        proof {
            lemma_row_lens_nonneg(adj);
            lemma_sum_nonneg(n as nat, row_lens(adj));
        }
        let mut mat = Matrix::new(0, n, n_edges);
        proof {
            assert forall|v: int, c: int| 0 <= v < n && 0 <= c < n_edges implies #[trigger] mat@.entry(
                v,
                c,
            ) == 0 by {
                lemma_flat_index_bounds(mat@, v, c);
            };
        }
        let mut edge_id: usize = 0;
        let mut i: usize = 0;
        while i < n
            invariant
                i <= n,
                mat@.rows == n,
                mat@.cols == n_edges,
                mat@.wf(),
                edge_id as int == sum(i as nat, row_lens(adj)),
                edge_id <= n_edges,
                forall|v: int, c: int|
                    0 <= v < n && 0 <= c < n_edges ==> #[trigger] mat@.entry(v, c) == (if c
                        < edge_id {
                        incidence_entry(adj, v, c)
                    } else {
                        0int
                    }),
            decreases n - i,
        {
            let row_len = self.adjacency_list[i].len();
            proof {
                assert(self.adjacency_list@[i as int].deep_view().len() == self.adjacency_list@[
                    i as int
                ]@.len());
            }
            let mut j: usize = 0;
            while j < row_len
                invariant
                    j <= row_len,
                    mat@.rows == n,
                    mat@.cols == n_edges,
                    mat@.wf(),
                    edge_id as int == sum(i as nat, row_lens(adj)) + j,
                    edge_id <= n_edges,
                    forall|v: int, c: int|
                        0 <= v < n && 0 <= c < n_edges ==> #[trigger] mat@.entry(v, c) == (if c
                            < edge_id {
                            incidence_entry(adj, v, c)
                        } else {
                            0int
                        }),
                decreases row_len - j,
            {
                let d = self.adjacency_list[i][j];
                proof {
                    assert(self.adjacency_list@[i as int].deep_view()[j as int]
                        == self.adjacency_list@[i as int]@[j as int]);
                    assert(adj[i as int][j as int] == d);
                    assert((adj[i as int][j as int]) < adj.len());
                    lemma_edge_list_index(adj, i as int, j as int);
                    lemma_edge_list_len(adj);
                }
                let ghost pre = mat@;
                mat.set(i, edge_id, -1);
                mat.set(d, edge_id, 1);
                proof {
                    let cols = n_edges as int;
                    let fs = i as int * cols + edge_id as int;
                    let fd = d as int * cols + edge_id as int;
                    lemma_flat_index_bounds(pre, i as int, edge_id as int);
                    lemma_flat_index_bounds(pre, d as int, edge_id as int);
                    assert(mat@.elems == pre.elems.update(fs, -1int).update(fd, 1int));
                    assert forall|v: int, c: int| 0 <= v < n && 0 <= c < n_edges implies #[trigger] mat@.entry(
                        v,
                        c,
                    ) == (if c < edge_id + 1 {
                        incidence_entry(adj, v, c)
                    } else {
                        0int
                    }) by {
                        assert(pre.entry(v, c) == (if c < edge_id {
                            incidence_entry(adj, v, c)
                        } else {
                            0int
                        }));
                        lemma_flat_index_bounds(mat@, v, c);
                        lemma_flat_index_decode(mat@, v, c);
                        lemma_flat_index_decode(mat@, i as int, edge_id as int);
                        lemma_flat_index_decode(mat@, d as int, edge_id as int);
                        if c == edge_id as int {
                            assert(edge_list(adj)[c] == (i as int, d as int));
                            if v == d as int {
                                assert(mat@.entry(v, c) == 1);
                            } else if v == i as int {
                                assert(v * cols + c != fd);
                                assert(mat@.entry(v, c) == -1);
                            } else {
                                assert(v * cols + c != fs && v * cols + c != fd);
                                assert(mat@.entry(v, c) == pre.entry(v, c));
                            }
                        } else {
                            assert(v * cols + c != fs && v * cols + c != fd);
                            assert(mat@.entry(v, c) == pre.entry(v, c));
                        }
                    };
                }
                edge_id = edge_id + 1;
                j = j + 1;
            }
            proof {
                assert(row_lens(adj)(i as int) == row_len);
                assert(sum((i + 1) as nat, row_lens(adj)) == sum(i as nat, row_lens(adj))
                    + row_lens(adj)(i as int));
            }
            i = i + 1;
        }
        proof {
            let m = incidence_model(adj);
            assert(mat@.elems.len() == m.elems.len());
            assert forall|x: int| 0 <= x < mat@.elems.len() implies mat@.elems[x] == m.elems[x] by {
                let ij = lemma_decode_in_range(n as nat, n_edges as nat, x);
                lemma_flat_index_decode(mat@, ij.0, ij.1);
                assert(mat@.entry(ij.0, ij.1) == incidence_entry(adj, ij.0, ij.1));
            };
            assert(mat@.elems =~= m.elems);
            assert(mat@ =~= m);
        }
        mat
    }
}

} // verus!
