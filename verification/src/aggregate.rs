use vstd::prelude::*;

use crate::graph::{cell, lemma_cell_index_bound, Graph};
use crate::weight::Weight;

verus! {

/// The aggregate matrix before any relaxation: every direct edge keeps its
/// weight, every vertex gets a self-aggregate at the identity, and every
/// other cell is unknown. A self-loop edge overwrites the identity seed of
/// its vertex, as edge seeding comes after the self-entries.
pub open spec fn init_cells<W: Weight>(g: Seq<Option<W>>, n: int) -> Seq<Option<W>> {
    Seq::new(
        (n * n) as nat,
        |idx: int|
            if g[idx] is Some {
                g[idx]
            } else if idx / n == idx % n {
                Some(W::one_spec())
            } else {
                None
            },
    )
}

/// One relaxation step: if aggregates are known from i to k and from k to
/// j, their composite becomes the aggregate for (i, j) when none is
/// recorded yet, or replaces the recorded one when strictly better.
pub open spec fn relax_at<W: Weight>(m: Seq<Option<W>>, n: int, k: int, i: int, j: int) -> Seq<
    Option<W>,
> {
    match (cell(m, n, i, k), cell(m, n, k, j)) {
        (Some(a), Some(b)) => {
            let cand = a.mul_spec(b);
            match cell(m, n, i, j) {
                Some(e) => if cand.lt_spec(e) {
                    m.update(i * n + j, Some(cand))
                } else {
                    m
                },
                None => m.update(i * n + j, Some(cand)),
            }
        },
        _ => m,
    }
}

/// The relaxation steps (k, i, 0) .. (k, i, j-1), in order.
pub open spec fn relax_row<W: Weight>(m: Seq<Option<W>>, n: int, k: int, i: int, j: int) -> Seq<
    Option<W>,
>
    decreases j,
{
    if j <= 0 {
        m
    } else {
        relax_at(relax_row(m, n, k, i, j - 1), n, k, i, j - 1)
    }
}

/// The relaxation rows (k, 0) .. (k, i-1), each swept over all n columns.
pub open spec fn relax_block<W: Weight>(m: Seq<Option<W>>, n: int, k: int, i: int) -> Seq<
    Option<W>,
>
    decreases i,
{
    if i <= 0 {
        m
    } else {
        relax_row(relax_block(m, n, k, i - 1), n, k, i - 1, n)
    }
}

/// The relaxation phases for intermediates 0 .. k-1, each a full sweep
/// over all rows and columns.
pub open spec fn relax_phases<W: Weight>(m: Seq<Option<W>>, n: int, k: int) -> Seq<Option<W>>
    decreases k,
{
    if k <= 0 {
        m
    } else {
        relax_block(relax_phases(m, n, k - 1), n, k - 1, n)
    }
}

/// What the aggregator computes from a graph matrix: the seeded matrix,
/// fully relaxed with every vertex tried as an intermediate.
pub open spec fn aggregate_cells<W: Weight>(g: Seq<Option<W>>, n: int) -> Seq<Option<W>> {
    relax_phases(init_cells(g, n), n, n)
}

/// Computes the all-pairs aggregate map of the graph: for every ordered
/// vertex pair, the best (smallest) composite weight the relaxation finds
/// along chains of known edges, seeded with the direct edges and with a
/// self-aggregate at the identity for every vertex.
pub fn floyd_warshall<W: Weight>(graph: &Graph<W>) -> (result: Graph<W>)
    requires
        graph.wf(),
    ensures
        result.wf(),
        result.size() == graph.size(),
        result.model() == aggregate_cells(graph.model(), graph.size()),
        forall|v: int| 0 <= v < graph.size() ==> (#[trigger] result.entry(v, v)) is Some,
{
    let n: usize = graph.vertex_count();
    let gcells: &Vec<Option<W>> = graph.matrix();
    let total: usize = gcells.len();
    let ghost ini: Seq<Option<W>> = init_cells(graph.model(), n as int);
    let mut cells: Vec<Option<W>> = Vec::new();
    let mut idx: usize = 0;
    while idx < total
        invariant
            idx <= total,
            total == n * n,
            graph.wf(),
            n == graph.size(),
            gcells@ == graph.model(),
            ini == init_cells(graph.model(), n as int),
            ini.len() == n * n,
            cells@ == ini.take(idx as int),
        decreases total - idx,
    {
        let e: Option<W> = gcells[idx];
        let val: Option<W> = if e.is_some() {
            e
        } else {
            proof {
                assert(n > 0) by (nonlinear_arith)
                    requires
                        (idx as int) < (n as int) * (n as int),
                        idx >= 0,
                        n >= 0,
                ;
            }
            if idx / n == idx % n {
                Some(W::one())
            } else {
                None
            }
        };
        cells.push(val);
        proof {
            assert(val == ini[idx as int]);
            assert(cells@ =~= ini.take(idx as int + 1));
        }
        idx = idx + 1;
    }
    proof {
        assert(cells@ =~= ini);
    }
    let mut k: usize = 0;
    while k < n
        invariant
            k <= n,
            total == n * n,
            ini.len() == n * n,
            cells@.len() == n * n,
            cells@ == relax_phases(ini, n as int, k as int),
        decreases n - k,
    {
        let ghost phase_start = cells@;
        let mut i: usize = 0;
        while i < n
            invariant
                i <= n,
                k < n,
                total == n * n,
                cells@.len() == n * n,
                phase_start.len() == n * n,
                cells@ == relax_block(phase_start, n as int, k as int, i as int),
            decreases n - i,
        {
            let ghost row_start = cells@;
            let mut j: usize = 0;
            while j < n
                invariant
                    j <= n,
                    i < n,
                    k < n,
                    total == n * n,
                    cells@.len() == n * n,
                    row_start.len() == n * n,
                    cells@ == relax_row(row_start, n as int, k as int, i as int, j as int),
                decreases n - j,
            {
                proof {
                    lemma_cell_index_bound(n as int, i as int, k as int);
                    lemma_cell_index_bound(n as int, k as int, j as int);
                    lemma_cell_index_bound(n as int, i as int, j as int);
                }
                let ghost before = cells@;
                let ik: Option<W> = cells[i * n + k];
                let kj: Option<W> = cells[k * n + j];
                match (ik, kj) {
                    (Some(a), Some(b)) => {
                        let cand = a.mul(b);
                        match cells[i * n + j] {
                            Some(e) => {
                                if cand.lt(e) {
                                    cells.set(i * n + j, Some(cand));
                                }
                            },
                            None => {
                                cells.set(i * n + j, Some(cand));
                            },
                        }
                    },
                    _ => {},
                }
                proof {
                    assert(cells@ == relax_at(before, n as int, k as int, i as int, j as int));
                }
                j = j + 1;
            }
            i = i + 1;
        }
        k = k + 1;
    }
    let result = Graph::from_parts(n, cells);
    proof {
        assert forall|v: int| 0 <= v < graph.size() implies (#[trigger] result.entry(v, v)) is Some by {
            crate::laws::lemma_vertex_present(*graph, v);
            lemma_cell_index_bound(n as int, v, v);
        }
    }
    result
}

} // verus!
