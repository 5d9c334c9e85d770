//! Textual output, produced as bytes: decimal rendering of numbers, the
//! directed-graph description emitted by `Graph::to_dot`, and the diagnostic
//! grid rendering of a matrix.

use crate::graph::Graph;
use crate::matrix::{Matrix, MatrixModel};
use vstd::prelude::*;

verus! {

/// The decimal digits of `n`, most significant first, as ASCII bytes.
pub open spec fn dec_digits(n: nat) -> Seq<u8>
    decreases n,
{
    if n < 10 {
        seq![(48 + n) as u8]
    } else {
        dec_digits(n / 10).push((48 + n % 10) as u8)
    }
}

/// Append the decimal rendering of `n` to `out`.
pub fn push_decimal(out: &mut Vec<u8>, n: u64)
    ensures
        final(out)@ == old(out)@ + dec_digits(n as nat),
    decreases n,
{
    if n >= 10 {
        proof {
            assert(n as nat / 10 < n as nat) by (nonlinear_arith)
                requires
                    n >= 10,
            ;
        }
        push_decimal(out, n / 10);
    }
    out.push(48 + (n % 10) as u8);
    proof {
        assert(out@ =~= old(out)@ + dec_digits(n as nat));
    }
}

/// The sign and decimal digits of `v`.
pub open spec fn int_digits(v: int) -> Seq<u8> {
    if v < 0 {
        seq![45u8] + dec_digits((-v) as nat)
    } else {
        dec_digits(v as nat)
    }
}

/// `k` spaces.
pub open spec fn spaces(k: nat) -> Seq<u8> {
    Seq::new(k, |x: int| 32u8)
}

/// One grid field: the number right-aligned to a width of six, then a space.
pub open spec fn padded_field(v: int) -> Seq<u8> {
    let s = int_digits(v);
    if s.len() >= 6 {
        s + seq![32u8]
    } else {
        spaces((6 - s.len()) as nat) + s + seq![32u8]
    }
}

/// The first `k` fields of row `i` of the grid.
pub open spec fn grid_row(m: MatrixModel, i: int, k: nat) -> Seq<u8>
    decreases k,
{
    if k == 0 {
        Seq::empty()
    } else {
        grid_row(m, i, (k - 1) as nat) + padded_field(m.entry(i, k - 1))
    }
}

/// The first `k` lines of the grid, one matrix row per line.
pub open spec fn grid_rows(m: MatrixModel, k: nat) -> Seq<u8>
    decreases k,
{
    if k == 0 {
        Seq::empty()
    } else {
        grid_rows(m, (k - 1) as nat) + grid_row(m, k - 1, m.cols) + seq![10u8]
    }
}

/// The whole diagnostic grid: fixed-width right-aligned numeric fields,
/// one matrix row per text line.
pub open spec fn grid_text(m: MatrixModel) -> Seq<u8> {
    grid_rows(m, m.rows)
}

/// Append the field for value `v`, right-aligned to a width of six.
fn push_field(out: &mut Vec<u8>, v: i64)
    ensures
        final(out)@ == old(out)@ + padded_field(v as int),
{
    let mut field: Vec<u8> = Vec::new();
    let mag: u64 = if v < 0 {
        field.push(45u8);
        (-(v as i128)) as u64
    } else {
        v as u64
    };
    push_decimal(&mut field, mag);
    proof {
        assert(field@ =~= int_digits(v as int));
    }
    let flen = field.len();
    let mut k: usize = 0;
    while k + flen < 6
        invariant
            flen == field@.len(),
            k == 0 || k + flen <= 6,
            out@ == old(out)@ + spaces(k as nat),
        decreases 6 - k - flen,
    {
        out.push(32u8);
        proof {
            assert(out@ =~= old(out)@ + spaces((k + 1) as nat));
        }
        k = k + 1;
    }
    let mut t: usize = 0;
    while t < flen
        invariant
            t <= flen,
            flen == field@.len(),
            out@ == old(out)@ + spaces(k as nat) + field@.take(t as int),
            k + flen <= 6 ==> k + flen == 6,
            k as nat == (if flen >= 6 {
                0nat
            } else {
                (6 - flen) as nat
            }),
        decreases flen - t,
    {
        out.push(field[t]);
        proof {
            assert(out@ =~= old(out)@ + spaces(k as nat) + field@.take(t as int + 1));
        }
        t = t + 1;
    }
    out.push(32u8);
    proof {
        assert(field@.take(flen as int) =~= field@);
        if flen >= 6 {
            assert(spaces(0nat) =~= Seq::<u8>::empty());
            assert(out@ =~= old(out)@ + padded_field(v as int));
        } else {
            assert(out@ =~= old(out)@ + padded_field(v as int));
        }
    }
}

impl Matrix {
    /// Render the matrix as a human-readable grid of fixed-width
    /// right-aligned numeric fields, one row per line, as ASCII bytes.
    #[verifier::loop_isolation(false)]
    pub fn render(&self) -> (r: Vec<u8>)
        requires
            self@.wf(),
        ensures
            r@ == grid_text(self@),
    {
        let n_rows = self.num_rows();
        let n_cols = self.num_cols();
        let mut out: Vec<u8> = Vec::new();
        let mut i: usize = 0;
        while i < n_rows
            invariant
                i <= n_rows,
                out@ == grid_rows(self@, i as nat),
            decreases n_rows - i,
        {
            let mut j: usize = 0;
            while j < n_cols
                invariant
                    j <= n_cols,
                    out@ == grid_rows(self@, i as nat) + grid_row(self@, i as int, j as nat),
                decreases n_cols - j,
            {
                let v = self.get(i, j);
                push_field(&mut out, v);
                proof {
                    assert(out@ =~= grid_rows(self@, i as nat) + grid_row(
                        self@,
                        i as int,
                        (j + 1) as nat,
                    ));
                }
                j = j + 1;
            }
            out.push(10u8);
            proof {
                assert(out@ =~= grid_rows(self@, (i + 1) as nat));
            }
            i = i + 1;
        }
        out
    }
}

/// One edge line of the graph description: two spaces, the one-based source,
/// an arrow, the one-based destination, a semicolon and a newline.
pub open spec fn dot_line(i: int, d: int) -> Seq<u8> {
    seq![32u8, 32u8] + dec_digits((i + 1) as nat) + seq![32u8, 45u8, 62u8, 32u8] + dec_digits(
        (d + 1) as nat,
    ) + seq![59u8, 10u8]
}

/// The lines for the first `k` edges of row `i`, in list order.
pub open spec fn dot_row(i: int, row: Seq<usize>) -> Seq<u8>
    decreases row.len(),
{
    if row.len() == 0 {
        Seq::empty()
    } else {
        dot_row(i, row.drop_last()) + dot_line(i, row.last() as int)
    }
}

/// The lines for the edges of the first `k` rows, in vertex order.
pub open spec fn dot_rows(adj: Seq<Seq<usize>>, k: nat) -> Seq<u8>
    decreases k,
{
    if k == 0 {
        Seq::empty()
    } else {
        dot_rows(adj, (k - 1) as nat) + dot_row(k - 1, adj[k - 1])
    }
}

/// The opening line of the directed-graph block.
pub open spec fn dot_header() -> Seq<u8> {
    seq![100u8, 105u8, 103u8, 114u8, 97u8, 112u8, 104u8, 32u8, 123u8, 10u8]
}

/// The closing line of the directed-graph block.
pub open spec fn dot_footer() -> Seq<u8> {
    seq![125u8, 10u8]
}

/// The whole directed-graph description: the block header, one line per
/// edge with one-based vertex numbers, and the block footer.
pub open spec fn dot_text(adj: Seq<Seq<usize>>) -> Seq<u8> {
    dot_header() + dot_rows(adj, adj.len()) + dot_footer()
}

/// Append one edge line, `  i -> d;`, with one-based vertex numbers.
fn push_dot_line(out: &mut Vec<u8>, i: usize, d: usize)
    requires
        i < usize::MAX,
        d < usize::MAX,
    ensures
        final(out)@ == old(out)@ + dot_line(i as int, d as int),
{
    out.push(32u8);
    out.push(32u8);
    push_decimal(out, (i + 1) as u64);
    out.push(32u8);
    out.push(45u8);
    out.push(62u8);
    out.push(32u8);
    push_decimal(out, (d + 1) as u64);
    out.push(59u8);
    out.push(10u8);
    proof {
        assert(out@ =~= old(out)@ + dot_line(i as int, d as int));
    }
}

impl Graph {
    /// Emit the directed-graph textual description: for each vertex `i` and
    /// each destination `j` in its list, one line `i -> j;` with one-based
    /// numbers, wrapped in a directed-graph block header and footer.
    #[verifier::loop_isolation(false)]
    #[verifier::rlimit(60)]
    pub fn to_dot(&self) -> (r: Vec<u8>)
        requires
            self@.len() < usize::MAX,
            forall|i: int, j: int|
                0 <= i < self@.len() && 0 <= j < self@[i].len() ==> (#[trigger] self@[i][j])
                    < usize::MAX,
        ensures
            r@ == dot_text(self@),
    {
        let ghost adj = self@;
        let n = self.adjacency_list.len();
        let mut out: Vec<u8> = Vec::new();
        out.push(100u8);
        out.push(105u8);
        out.push(103u8);
        out.push(114u8);
        out.push(97u8);
        out.push(112u8);
        out.push(104u8);
        out.push(32u8);
        out.push(123u8);
        out.push(10u8);
        proof {
            assert(out@ =~= dot_header());
        }
        let mut i: usize = 0;
        while i < n
            invariant
                i <= n,
                out@ == dot_header() + dot_rows(adj, i as nat),
            decreases n - i,
        {
            let row_len = self.adjacency_list[i].len();
            proof {
                assert(self.adjacency_list@[i as int].deep_view().len() == self.adjacency_list@[
                    i as int
                ]@.len());
            }
            let mut j: usize = 0;
            while j < row_len
                invariant
                    j <= row_len,
                    out@ == dot_header() + dot_rows(adj, i as nat) + dot_row(
                        i as int,
                        adj[i as int].take(j as int),
                    ),
                decreases row_len - j,
            {
                let d = self.adjacency_list[i][j];
                proof {
                    assert(self.adjacency_list@[i as int].deep_view()[j as int]
                        == self.adjacency_list@[i as int]@[j as int]);
                    assert(adj[i as int][j as int] == d);
                }
                push_dot_line(&mut out, i, d);
                proof {
                    assert(adj[i as int].take(j as int + 1).drop_last() =~= adj[i as int].take(
                        j as int,
                    ));
                    assert(adj[i as int].take(j as int + 1).last() == adj[i as int][j as int]);
                    assert(out@ =~= dot_header() + dot_rows(adj, i as nat) + dot_row(
                        i as int,
                        adj[i as int].take(j as int + 1),
                    ));
                }
                j = j + 1;
            }
            proof {
                assert(adj[i as int].take(row_len as int) =~= adj[i as int]);
            }
            i = i + 1;
        }
        out.push(125u8);
        out.push(10u8);
        proof {
            assert(out@ =~= dot_text(adj));
        }
        out
    }
}

} // verus!
