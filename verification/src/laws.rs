use vstd::prelude::*;

use crate::aggregate::{aggregate_cells, init_cells, relax_at, relax_block, relax_phases, relax_row};
use crate::graph::{cell, lemma_cell_index_bound, lemma_cell_index_injective, Graph};
use crate::weight::Weight;

verus! {

/// Non-strict comparison induced by the weight order.
pub open spec fn le_weight<W: Weight>(a: W, b: W) -> bool {
    a == b || a.lt_spec(b)
}

/// An aggregate cell refines another when it knows at least as much: it
/// is present wherever the other is, and then at most as large.
pub open spec fn cell_refines<W: Weight>(a: Option<W>, b: Option<W>) -> bool {
    match b {
        Some(bv) => match a {
            Some(av) => le_weight(av, bv),
            None => false,
        },
        None => true,
    }
}

/// A matrix refines another when every cell does.
pub open spec fn model_refines<W: Weight>(m1: Seq<Option<W>>, m2: Seq<Option<W>>) -> bool {
    m1.len() == m2.len() && forall|idx: int|
        #![trigger m1[idx]]
        #![trigger m2[idx]]
        0 <= idx < m2.len() ==> cell_refines(m1[idx], m2[idx])
}

pub proof fn lemma_model_refines_refl<W: Weight>(m: Seq<Option<W>>)
    ensures
        model_refines(m, m),
{
    assert forall|idx: int|
        #![trigger m[idx]]
        0 <= idx < m.len() implies cell_refines(m[idx], m[idx]) by {
        match m[idx] {
            Some(av) => {
                assert(le_weight(av, av));
            },
            None => {},
        }
    }
}

pub proof fn lemma_cell_refines_trans<W: Weight>(a: Option<W>, b: Option<W>, c: Option<W>)
    requires
        cell_refines(a, b),
        cell_refines(b, c),
    ensures
        cell_refines(a, c),
{
    match c {
        Some(cv) => match b {
            Some(bv) => match a {
                Some(av) => {
                    if av == bv || bv == cv {
                    } else {
                        W::lemma_lt_transitive(av, bv, cv);
                    }
                },
                None => {},
            },
            None => {},
        },
        None => {},
    }
}

pub proof fn lemma_model_refines_trans<W: Weight>(
    m1: Seq<Option<W>>,
    m2: Seq<Option<W>>,
    m3: Seq<Option<W>>,
)
    requires
        model_refines(m1, m2),
        model_refines(m2, m3),
    ensures
        model_refines(m1, m3),
{
    assert forall|idx: int|
        #![trigger m1[idx]]
        #![trigger m3[idx]]
        0 <= idx < m3.len() implies cell_refines(m1[idx], m3[idx]) by {
        lemma_cell_refines_trans(m1[idx], m2[idx], m3[idx]);
    }
}

/// One relaxation step only adds a cell or improves it.
pub proof fn lemma_relax_at_refines<W: Weight>(m: Seq<Option<W>>, n: int, k: int, i: int, j: int)
    requires
        m.len() == n * n,
        0 <= k < n,
        0 <= i < n,
        0 <= j < n,
    ensures
        relax_at(m, n, k, i, j).len() == n * n,
        model_refines(relax_at(m, n, k, i, j), m),
{
    lemma_cell_index_bound(n, i, j);
    let r = relax_at(m, n, k, i, j);
    assert forall|idx: int|
        #![trigger r[idx]]
        #![trigger m[idx]]
        0 <= idx < m.len() implies cell_refines(r[idx], m[idx]) by {
        if r[idx] == m[idx] {
            match m[idx] {
                Some(av) => {
                    assert(le_weight(av, av));
                },
                None => {},
            }
        }
    }
}

pub proof fn lemma_relax_row_refines<W: Weight>(m: Seq<Option<W>>, n: int, k: int, i: int, j: int)
    requires
        m.len() == n * n,
        0 <= k < n,
        0 <= i < n,
        0 <= j <= n,
    ensures
        relax_row(m, n, k, i, j).len() == n * n,
        model_refines(relax_row(m, n, k, i, j), m),
    decreases j,
{
    if j <= 0 {
        lemma_model_refines_refl(m);
    } else {
        lemma_relax_row_refines(m, n, k, i, j - 1);
        let prev = relax_row(m, n, k, i, j - 1);
        lemma_relax_at_refines(prev, n, k, i, j - 1);
        lemma_model_refines_trans(relax_at(prev, n, k, i, j - 1), prev, m);
    }
}

pub proof fn lemma_relax_block_refines<W: Weight>(m: Seq<Option<W>>, n: int, k: int, i: int)
    requires
        m.len() == n * n,
        0 <= k < n,
        0 <= i <= n,
    ensures
        relax_block(m, n, k, i).len() == n * n,
        model_refines(relax_block(m, n, k, i), m),
    decreases i,
{
    if i <= 0 {
        lemma_model_refines_refl(m);
    } else {
        lemma_relax_block_refines(m, n, k, i - 1);
        let prev = relax_block(m, n, k, i - 1);
        lemma_relax_row_refines(prev, n, k, i - 1, n);
        lemma_model_refines_trans(relax_row(prev, n, k, i - 1, n), prev, m);
    }
}

pub proof fn lemma_relax_phases_refines<W: Weight>(m: Seq<Option<W>>, n: int, k: int)
    requires
        m.len() == n * n,
        0 <= k <= n,
    ensures
        relax_phases(m, n, k).len() == n * n,
        model_refines(relax_phases(m, n, k), m),
    decreases k,
{
    if k <= 0 {
        lemma_model_refines_refl(m);
    } else {
        lemma_relax_phases_refines(m, n, k - 1);
        let prev = relax_phases(m, n, k - 1);
        lemma_relax_block_refines(prev, n, k - 1, n);
        lemma_model_refines_trans(relax_block(prev, n, k - 1, n), prev, m);
    }
}

/// What one seeded cell holds, in row and column coordinates.
pub proof fn lemma_init_cell<W: Weight>(g: Seq<Option<W>>, n: int, i: int, j: int)
    requires
        g.len() == n * n,
        0 <= i < n,
        0 <= j < n,
    ensures
        cell(init_cells(g, n), n, i, j) == (if cell(g, n, i, j) is Some {
            cell(g, n, i, j)
        } else if i == j {
            Some(W::one_spec())
        } else {
            None::<W>
        }),
{
    lemma_cell_index_bound(n, i, j);
    vstd::arithmetic::div_mod::lemma_fundamental_div_mod_converse(i * n + j, n, i, j);
}

/// Relaxation only adds entries or improves them: the finished aggregate
/// matrix refines the seeded one.
pub proof fn lemma_aggregate_refines_init<W: Weight>(g: Seq<Option<W>>, n: int)
    requires
        g.len() == n * n,
        n >= 0,
    ensures
        aggregate_cells(g, n).len() == n * n,
        model_refines(aggregate_cells(g, n), init_cells(g, n)),
{
    lemma_relax_phases_refines(init_cells(g, n), n, n);
}

/// Every vertex of the input graph appears in the aggregate map with a
/// self-aggregate entry; that entry is seeded at the identity before
/// relaxation can alter it, unless a self-loop edge overwrote the seed.
pub proof fn lemma_vertex_present<W: Weight>(g: Graph<W>, v: int)
    requires
        g.wf(),
        0 <= v < g.size(),
    ensures
        cell(aggregate_cells(g.model(), g.size()), g.size(), v, v) is Some,
        g.entry(v, v) is None ==> cell(init_cells(g.model(), g.size()), g.size(), v, v) == Some(
            W::one_spec(),
        ),
{
    let n = g.size();
    lemma_cell_index_bound(n, v, v);
    lemma_init_cell(g.model(), n, v, v);
    lemma_aggregate_refines_init(g.model(), n);
    assert(cell_refines(
        aggregate_cells(g.model(), n)[v * n + v],
        init_cells(g.model(), n)[v * n + v],
    ));
}

/// A recorded edge is never worsened: the aggregate for its endpoints is
/// present and at most the edge weight under the order.
pub proof fn lemma_edge_not_worsened<W: Weight>(g: Graph<W>, u: int, v: int, w: W)
    requires
        g.wf(),
        g.entry(u, v) == Some(w),
    ensures
        cell(aggregate_cells(g.model(), g.size()), g.size(), u, v) matches Some(a) && le_weight(
            a,
            w,
        ),
{
    let n = g.size();
    lemma_cell_index_bound(n, u, v);
    lemma_init_cell(g.model(), n, u, v);
    lemma_aggregate_refines_init(g.model(), n);
    assert(cell_refines(
        aggregate_cells(g.model(), n)[u * n + v],
        init_cells(g.model(), n)[u * n + v],
    ));
}

/// The step-local triangle bound: right after the relaxation step for
/// (k, i, j), the aggregate at (i, j) is at most the composite of the
/// values the step read at (i, k) and (k, j). The same bound over the
/// finished map does not hold of every graph: a cycle whose composite
/// improves on the identity keeps lowering the cells a finished reading
/// would compare against, so only this step-local form is stated.
pub proof fn lemma_relax_step_triangle<W: Weight>(
    m: Seq<Option<W>>,
    n: int,
    k: int,
    i: int,
    j: int,
    a: W,
    b: W,
)
    requires
        m.len() == n * n,
        0 <= k < n,
        0 <= i < n,
        0 <= j < n,
        cell(m, n, i, k) == Some(a),
        cell(m, n, k, j) == Some(b),
    ensures
        cell(relax_at(m, n, k, i, j), n, i, j) matches Some(c) && le_weight(c, a.mul_spec(b)),
{
    lemma_cell_index_bound(n, i, j);
    let cand = a.mul_spec(b);
    match cell(m, n, i, j) {
        Some(e) => {
            if cand.lt_spec(e) {
            } else {
                W::lemma_lt_total(cand, e);
            }
        },
        None => {},
    }
}

/// Aggregation is deterministic: the aggregate map is a function of the
/// graph's size and cells alone, so running the aggregator twice over the
/// same immutable graph yields identical maps.
pub proof fn lemma_aggregate_deterministic<W: Weight>(g1: Graph<W>, g2: Graph<W>)
    requires
        g1.size() == g2.size(),
        g1.model() == g2.model(),
    ensures
        aggregate_cells(g1.model(), g1.size()) == aggregate_cells(g2.model(), g2.size()),
{
}

/// No edge enters or leaves vertex v.
pub open spec fn isolated<W: Weight>(g: Graph<W>, v: int) -> bool {
    (forall|x: int| (#[trigger] g.entry(v, x)) is None) && (forall|x: int|
        (#[trigger] g.entry(x, v)) is None)
}

/// The matrix knows nothing about vertex v beyond its identity
/// self-aggregate.
pub open spec fn isolated_inv<W: Weight>(m: Seq<Option<W>>, n: int, v: int) -> bool {
    &&& m.len() == n * n
    &&& 0 <= v < n
    &&& cell(m, n, v, v) == Some(W::one_spec())
    &&& forall|x: int| 0 <= x < n && x != v ==> (#[trigger] cell(m, n, v, x)) is None
    &&& forall|x: int| 0 <= x < n && x != v ==> (#[trigger] cell(m, n, x, v)) is None
}

pub proof fn lemma_relax_at_isolated<W: Weight>(
    m: Seq<Option<W>>,
    n: int,
    v: int,
    k: int,
    i: int,
    j: int,
)
    requires
        isolated_inv(m, n, v),
        0 <= k < n,
        0 <= i < n,
        0 <= j < n,
    ensures
        isolated_inv(relax_at(m, n, k, i, j), n, v),
{
    lemma_cell_index_bound(n, i, j);
    let r = relax_at(m, n, k, i, j);
    match (cell(m, n, i, k), cell(m, n, k, j)) {
        (Some(a), Some(b)) => {
            if i == v {
                assert(k == v);
                assert(j == v);
                W::lemma_one_identity(W::one_spec());
                W::lemma_lt_irreflexive(W::one_spec());
                assert(r == m);
            } else if j == v {
                assert(k == v);
                assert(cell(m, n, i, v) is None);
                assert(false);
            } else {
                lemma_cell_index_bound(n, v, v);
                if v * n + v == i * n + j {
                    lemma_cell_index_injective(n, v, v, i, j);
                }
                assert(cell(r, n, v, v) == cell(m, n, v, v));
                assert forall|x: int| 0 <= x < n && x != v implies (#[trigger] cell(
                    r,
                    n,
                    v,
                    x,
                )) is None by {
                    lemma_cell_index_bound(n, v, x);
                    if v * n + x == i * n + j {
                        lemma_cell_index_injective(n, v, x, i, j);
                    }
                    assert(cell(r, n, v, x) == cell(m, n, v, x));
                }
                assert forall|x: int| 0 <= x < n && x != v implies (#[trigger] cell(
                    r,
                    n,
                    x,
                    v,
                )) is None by {
                    lemma_cell_index_bound(n, x, v);
                    if x * n + v == i * n + j {
                        lemma_cell_index_injective(n, x, v, i, j);
                    }
                    assert(cell(r, n, x, v) == cell(m, n, x, v));
                }
            }
        },
        _ => {},
    }
}

pub proof fn lemma_relax_row_isolated<W: Weight>(
    m: Seq<Option<W>>,
    n: int,
    v: int,
    k: int,
    i: int,
    j: int,
)
    requires
        isolated_inv(m, n, v),
        0 <= k < n,
        0 <= i < n,
        0 <= j <= n,
    ensures
        isolated_inv(relax_row(m, n, k, i, j), n, v),
    decreases j,
{
    if j <= 0 {
    } else {
        lemma_relax_row_isolated(m, n, v, k, i, j - 1);
        lemma_relax_at_isolated(relax_row(m, n, k, i, j - 1), n, v, k, i, j - 1);
    }
}

pub proof fn lemma_relax_block_isolated<W: Weight>(
    m: Seq<Option<W>>,
    n: int,
    v: int,
    k: int,
    i: int,
)
    requires
        isolated_inv(m, n, v),
        0 <= k < n,
        0 <= i <= n,
    ensures
        isolated_inv(relax_block(m, n, k, i), n, v),
    decreases i,
{
    if i <= 0 {
    } else {
        lemma_relax_block_isolated(m, n, v, k, i - 1);
        lemma_relax_row_isolated(relax_block(m, n, k, i - 1), n, v, k, i - 1, n);
    }
}

pub proof fn lemma_relax_phases_isolated<W: Weight>(m: Seq<Option<W>>, n: int, v: int, k: int)
    requires
        isolated_inv(m, n, v),
        0 <= k <= n,
    ensures
        isolated_inv(relax_phases(m, n, k), n, v),
    decreases k,
{
    if k <= 0 {
    } else {
        lemma_relax_phases_isolated(m, n, v, k - 1);
        lemma_relax_block_isolated(relax_phases(m, n, k - 1), n, v, k - 1, n);
    }
}

/// An isolated vertex yields exactly one aggregate: its own self-entry at
/// the identity. No chain reaches it and none leaves it.
pub proof fn lemma_isolated_vertex<W: Weight>(g: Graph<W>, v: int)
    requires
        g.wf(),
        0 <= v < g.size(),
        isolated(g, v),
    ensures
        cell(aggregate_cells(g.model(), g.size()), g.size(), v, v) == Some(W::one_spec()),
        forall|x: int|
            0 <= x < g.size() && x != v ==> (#[trigger] cell(
                aggregate_cells(g.model(), g.size()),
                g.size(),
                v,
                x,
            )) is None,
        forall|x: int|
            0 <= x < g.size() && x != v ==> (#[trigger] cell(
                aggregate_cells(g.model(), g.size()),
                g.size(),
                x,
                v,
            )) is None,
{
    let n = g.size();
    let ini = init_cells(g.model(), n);
    lemma_init_cell(g.model(), n, v, v);
    assert(g.entry(v, v) is None);
    assert(cell(ini, n, v, v) == Some(W::one_spec()));
    assert forall|x: int| 0 <= x < n && x != v implies (#[trigger] cell(ini, n, v, x)) is None by {
        lemma_init_cell(g.model(), n, v, x);
        assert(g.entry(v, x) is None);
    }
    assert forall|x: int| 0 <= x < n && x != v implies (#[trigger] cell(ini, n, x, v)) is None by {
        lemma_init_cell(g.model(), n, x, v);
        assert(g.entry(x, v) is None);
    }
    lemma_relax_phases_isolated(ini, n, v, n);
}

} // verus!
