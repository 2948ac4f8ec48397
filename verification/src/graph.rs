use vstd::prelude::*;

use crate::weight::Weight;

verus! {

/// The cell of a row-major matrix of optional weights with stride `n`.
pub open spec fn cell<W>(m: Seq<Option<W>>, n: int, i: int, j: int) -> Option<W> {
    m[i * n + j]
}

/// Row-major indexing stays inside an n-by-n matrix.
pub proof fn lemma_cell_index_bound(n: int, i: int, j: int)
    requires
        0 <= i < n,
        0 <= j < n,
    ensures
        0 <= i * n + j < n * n,
{
    assert(0 <= i * n + j < n * n) by (nonlinear_arith)
        requires
            0 <= i < n,
            0 <= j < n,
    ;
}

/// Row-major indexing is injective on in-range coordinates.
pub proof fn lemma_cell_index_injective(n: int, i: int, j: int, p: int, q: int)
    requires
        0 <= i < n,
        0 <= j < n,
        0 <= p < n,
        0 <= q < n,
        i * n + j == p * n + q,
    ensures
        i == p,
        j == q,
{
    assert(i == p && j == q) by (nonlinear_arith)
        requires
            0 <= i < n,
            0 <= j < n,
            0 <= p < n,
            0 <= q < n,
            i * n + j == p * n + q,
    ;
}

/// Cells written earlier in row-major order have strictly smaller indices.
pub proof fn lemma_cell_index_ordered(n: int, a: int, b: int, i: int, j: int)
    requires
        0 <= a < n,
        0 <= b < n,
        0 <= i < n,
        0 <= j <= n,
        a < i || (a == i && b < j),
    ensures
        a * n + b < i * n + j,
{
    assert(a * n + b < i * n + j) by (nonlinear_arith)
        requires
            0 <= a < n,
            0 <= b < n,
            0 <= i < n,
            0 <= j <= n,
            a < i || (a == i && b < j),
    ;
}

/// A weighted directed graph over the vertices 0 .. size-1, stored as a
/// dense row-major matrix of optional edge weights. `None` at (u, v) means
/// no direct edge u -> v is known. The aggregate map produced by the
/// aggregator has the same shape.
pub struct Graph<W> {
    n: usize,
    cells: Vec<Option<W>>,
}

impl<W: Weight> Graph<W> {
    /// Number of vertices.
    pub closed spec fn size(self) -> int {
        self.n as int
    }

    /// The matrix of optional weights, row-major with stride `size()`.
    pub closed spec fn model(self) -> Seq<Option<W>> {
        self.cells@
    }

    /// The matrix holds exactly size * size cells.
    pub open spec fn wf(self) -> bool {
        self.model().len() == self.size() * self.size()
    }

    /// The recorded weight of the directed edge u -> v; `None` when the
    /// pair is out of range or no such edge is known.
    pub open spec fn entry(self, u: int, v: int) -> Option<W> {
        if 0 <= u < self.size() && 0 <= v < self.size() {
            cell(self.model(), self.size(), u, v)
        } else {
            None
        }
    }

    /// Builds the empty graph, with no vertices and no edges.
    pub fn new() -> (g: Graph<W>)
        ensures
            g.wf(),
            g.size() == 0,
    {
        Graph { n: 0, cells: Vec::new() }
    }

    /// Returns the number of vertices.
    pub fn vertex_count(&self) -> (n: usize)
        ensures
            n == self.size(),
    {
        self.n
    }

    /// Reads the recorded weight of the directed edge u -> v.
    pub fn get(&self, u: usize, v: usize) -> (r: Option<W>)
        requires
            self.wf(),
        ensures
            r == self.entry(u as int, v as int),
    {
        if u < self.n && v < self.n {
            // the matrix length is a usize, so the cell index fits one too
            let len = self.cells.len();
            proof {
                lemma_cell_index_bound(self.size(), u as int, v as int);
            }
            self.cells[u * self.n + v]
        } else {
            None
        }
    }

    /// The matrix itself, for the aggregator's scan.
    pub(crate) fn matrix(&self) -> (m: &Vec<Option<W>>)
        ensures
            m@ == self.model(),
    {
        &self.cells
    }

    /// Assembles a graph from a complete matrix.
    pub(crate) fn from_parts(n: usize, cells: Vec<Option<W>>) -> (g: Graph<W>)
        requires
            cells@.len() == n * n,
        ensures
            g.wf(),
            g.size() == n,
            g.model() == cells@,
    {
        Graph { n, cells }
    }
}

/// The vertex count after an edge for (source, destination) is added to a
/// graph of old_n vertices: both endpoints must fit.
pub open spec fn grown_size(old_n: int, source: int, destination: int) -> int {
    let needed = if source > destination {
        source + 1
    } else {
        destination + 1
    };
    if needed > old_n {
        needed
    } else {
        old_n
    }
}

/// Copies an n-stride matrix into a larger new_n-stride matrix, filling the
/// fresh cells with `None`.
fn grown_cells<W: Weight>(old_cells: &Vec<Option<W>>, n: usize, new_n: usize) -> (cells: Vec<
    Option<W>,
>)
    requires
        old_cells@.len() == n * n,
        n <= new_n,
        new_n * new_n <= usize::MAX,
    ensures
        cells@.len() == new_n * new_n,
        forall|a: int, b: int|
            0 <= a < new_n && 0 <= b < new_n ==> #[trigger] cell(cells@, new_n as int, a, b) == (
            if a < n && b < n {
                cell(old_cells@, n as int, a, b)
            } else {
                None::<W>
            }),
{
    // the old matrix length is a usize, so n * n fits one too
    let old_len = old_cells.len();
    let mut cells: Vec<Option<W>> = Vec::new();
    let mut i: usize = 0;
    while i < new_n
        invariant
            i <= new_n,
            n <= new_n,
            new_n * new_n <= usize::MAX,
            n * n <= usize::MAX,
            old_cells@.len() == n * n,
            cells@.len() == i * new_n,
            forall|a: int, b: int|
                0 <= a < i && 0 <= b < new_n ==> #[trigger] cell(cells@, new_n as int, a, b) == (
                if a < n && b < n {
                    cell(old_cells@, n as int, a, b)
                } else {
                    None::<W>
                }),
        decreases new_n - i,
    {
        let mut j: usize = 0;
        while j < new_n
            invariant
                i < new_n,
                j <= new_n,
                n <= new_n,
                new_n * new_n <= usize::MAX,
                n * n <= usize::MAX,
                old_cells@.len() == n * n,
                cells@.len() == i * new_n + j,
                forall|a: int, b: int|
                    0 <= a < new_n && 0 <= b < new_n && (a < i || (a == i && b < j))
                        ==> #[trigger] cell(cells@, new_n as int, a, b) == (
                    if a < n && b < n {
                        cell(old_cells@, n as int, a, b)
                    } else {
                        None::<W>
                    }),
            decreases new_n - j,
        {
            let ghost prev = cells@;
            proof {
                lemma_cell_index_bound(new_n as int, i as int, j as int);
            }
            if i < n && j < n {
                proof {
                    lemma_cell_index_bound(n as int, i as int, j as int);
                }
                cells.push(old_cells[i * n + j]);
            } else {
                cells.push(None);
            }
            proof {
                assert forall|a: int, b: int|
                    0 <= a < new_n && 0 <= b < new_n && (a < i || (a == i && b < j + 1))
                        implies #[trigger] cell(cells@, new_n as int, a, b) == (
                    if a < n && b < n {
                        cell(old_cells@, n as int, a, b)
                    } else {
                        None::<W>
                    }) by {
                    if a < i || (a == i && b < j) {
                        lemma_cell_index_ordered(new_n as int, a, b, i as int, j as int);
                        assert(cell(cells@, new_n as int, a, b) == cell(
                            prev,
                            new_n as int,
                            a,
                            b,
                        ));
                    } else {
                        assert(a == i && b == j);
                    }
                }
            }
            j = j + 1;
        }
        proof {
            assert((i as int + 1) * (new_n as int) == i as int * (new_n as int) + new_n as int)
                by (nonlinear_arith);
        }
        i = i + 1;
    }
    proof {
        assert(cells@.len() == new_n * new_n);
    }
    cells
}

/// Inserts or overwrites the single directed edge source -> destination
/// with `weight`. No reverse edge is implied. Endpoints may name vertices
/// the graph has not seen: the graph grows to fit them, and only machine
/// limits (the grown matrix must fit in a usize-indexed vector) bound the
/// endpoints.
pub fn add_edge<W: Weight>(graph: &mut Graph<W>, source: usize, destination: usize, weight: W)
    requires
        old(graph).wf(),
        (source + 1) * (source + 1) <= usize::MAX,
        (destination + 1) * (destination + 1) <= usize::MAX,
    ensures
        final(graph).wf(),
        final(graph).size() == grown_size(old(graph).size(), source as int, destination as int),
        final(graph).entry(source as int, destination as int) == Some(weight),
        forall|a: int, b: int|
            !(a == source && b == destination) ==> #[trigger] final(graph).entry(a, b) == old(
                graph,
            ).entry(a, b),
{
    let m = if source > destination {
        source
    } else {
        destination
    };
    if m >= graph.vertex_count() {
        proof {
            assert(m + 1 <= usize::MAX) by (nonlinear_arith)
                requires
                    ((m + 1) * (m + 1)) <= usize::MAX,
                    m >= 0,
            ;
        }
        let new_n = m + 1;
        let cells = grown_cells(graph.matrix(), graph.vertex_count(), new_n);
        let replacement = Graph::from_parts(new_n, cells);
        *graph = replacement;
    }
    let n = graph.vertex_count();
    // the matrix length is a usize, so the cell index fits one too
    let total = graph.matrix().len();
    let ghost mid = *graph;
    proof {
        lemma_cell_index_bound(n as int, source as int, destination as int);
    }
    graph.set_cell(source * n + destination, Some(weight));
    proof {
        assert forall|a: int, b: int| !(a == source && b == destination) implies #[trigger] graph
            .entry(a, b) == old(graph).entry(a, b) by {
            if 0 <= a < n && 0 <= b < n {
                lemma_cell_index_bound(n as int, a, b);
                if a * n + b == source * n + destination {
                    lemma_cell_index_injective(
                        n as int,
                        a,
                        b,
                        source as int,
                        destination as int,
                    );
                    assert(false);
                }
                assert(cell(graph.model(), n as int, a, b) == cell(mid.model(), n as int, a, b));
                assert(cell(mid.model(), n as int, a, b) == old(graph).entry(a, b));
            }
        }
    }
}

impl<W: Weight> Graph<W> {
    /// Overwrites one matrix cell.
    fn set_cell(&mut self, idx: usize, value: Option<W>)
        requires
            old(self).wf(),
            idx < old(self).model().len(),
        ensures
            final(self).wf(),
            final(self).size() == old(self).size(),
            final(self).model() == old(self).model().update(idx as int, value),
    {
        self.cells.set(idx, value);
    }
}

} // verus!
