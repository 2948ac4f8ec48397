use vstd::prelude::*;

use crate::aggregate::{aggregate_cells, init_cells, relax_at, relax_block, relax_phases, relax_row};
use crate::graph::{cell, lemma_cell_index_bound, lemma_cell_index_injective, Graph};
use crate::laws::{
    cell_refines, lemma_init_cell, lemma_relax_at_refines, lemma_relax_block_refines,
    lemma_relax_row_refines,
};
use crate::weight::Weight;

verus! {

/// w lists the vertices of a directed walk through the matrix g: it is
/// non-empty, stays in range, and steps only along recorded cells.
pub open spec fn is_walk<W: Weight>(g: Seq<Option<W>>, n: int, w: Seq<int>) -> bool
    decreases w.len(),
{
    if w.len() <= 0 {
        false
    } else if w.len() == 1 {
        0 <= w[0] < n
    } else {
        &&& 0 <= w[0] < n
        &&& cell(g, n, w[0], w[1]) is Some
        &&& is_walk(g, n, w.drop_first())
    }
}

/// Some walk leads from i to j.
pub open spec fn connected<W: Weight>(g: Seq<Option<W>>, n: int, i: int, j: int) -> bool {
    exists|w: Seq<int>| is_walk(g, n, w) && w.first() == i && w.last() == j
}

/// Every vertex strictly inside the walk is below k.
pub open spec fn interior_below(w: Seq<int>, k: int) -> bool {
    forall|t: int| 0 < t < w.len() - 1 ==> #[trigger] w[t] < k
}

/// Some walk leads from i to j using only intermediates below k.
pub open spec fn connected_below<W: Weight>(
    g: Seq<Option<W>>,
    n: int,
    i: int,
    j: int,
    k: int,
) -> bool {
    exists|w: Seq<int>|
        is_walk(g, n, w) && w.first() == i && w.last() == j && interior_below(w, k)
}

proof fn lemma_walk_in_range<W: Weight>(g: Seq<Option<W>>, n: int, w: Seq<int>)
    requires
        is_walk(g, n, w),
    ensures
        forall|t: int| 0 <= t < w.len() ==> 0 <= #[trigger] w[t] < n,
    decreases w.len(),
{
    if w.len() == 1 {
    } else {
        lemma_walk_in_range(g, n, w.drop_first());
        assert forall|t: int| 0 <= t < w.len() implies 0 <= #[trigger] w[t] < n by {
            if t > 0 {
                assert(w.drop_first()[t - 1] == w[t]);
            }
        }
    }
}

proof fn lemma_walk_take<W: Weight>(g: Seq<Option<W>>, n: int, w: Seq<int>, b: int)
    requires
        is_walk(g, n, w),
        1 <= b <= w.len(),
    ensures
        is_walk(g, n, w.take(b)),
    decreases w.len(),
{
    if b == w.len() {
        assert(w.take(b) =~= w);
    } else if b == 1 {
        assert(w.take(1).len() == 1);
        assert(w.take(1)[0] == w[0]);
    } else {
        lemma_walk_take(g, n, w.drop_first(), b - 1);
        assert(w.take(b).drop_first() =~= w.drop_first().take(b - 1));
        assert(w.take(b)[0] == w[0]);
        assert(w.take(b)[1] == w[1]);
    }
}

proof fn lemma_walk_skip<W: Weight>(g: Seq<Option<W>>, n: int, w: Seq<int>, a: int)
    requires
        is_walk(g, n, w),
        0 <= a < w.len(),
    ensures
        is_walk(g, n, w.skip(a)),
    decreases a,
{
    if a == 0 {
        assert(w.skip(0) =~= w);
    } else {
        assert(w.drop_first() =~= w.skip(1));
        assert(w.skip(a) =~= w.drop_first().skip(a - 1));
        lemma_walk_skip(g, n, w.drop_first(), a - 1);
    }
}

proof fn lemma_walk_subrange<W: Weight>(g: Seq<Option<W>>, n: int, w: Seq<int>, a: int, b: int)
    requires
        is_walk(g, n, w),
        0 <= a < b <= w.len(),
    ensures
        is_walk(g, n, w.subrange(a, b)),
{
    lemma_walk_skip(g, n, w, a);
    lemma_walk_take(g, n, w.skip(a), b - a);
    assert(w.subrange(a, b) =~= w.skip(a).take(b - a));
}

proof fn lemma_walk_concat<W: Weight>(g: Seq<Option<W>>, n: int, w1: Seq<int>, w2: Seq<int>)
    requires
        is_walk(g, n, w1),
        is_walk(g, n, w2),
        w1.last() == w2.first(),
    ensures
        is_walk(g, n, w1 + w2.drop_first()),
        (w1 + w2.drop_first()).first() == w1.first(),
        (w1 + w2.drop_first()).last() == w2.last(),
    decreases w1.len(),
{
    let w = w1 + w2.drop_first();
    if w1.len() == 1 {
        assert(w =~= w2);
    } else {
        lemma_walk_concat(g, n, w1.drop_first(), w2);
        assert(w.drop_first() =~= w1.drop_first() + w2.drop_first());
        assert(w[0] == w1[0]);
        assert(w[1] == w1[1]);
        if w2.len() == 1 {
            assert(w.last() == w1.last());
        }
    }
}

proof fn lemma_connected_trans<W: Weight>(g: Seq<Option<W>>, n: int, a: int, b: int, c: int)
    requires
        connected(g, n, a, b),
        connected(g, n, b, c),
    ensures
        connected(g, n, a, c),
{
    let w1 = choose|w: Seq<int>| is_walk(g, n, w) && w.first() == a && w.last() == b;
    let w2 = choose|w: Seq<int>| is_walk(g, n, w) && w.first() == b && w.last() == c;
    lemma_walk_concat(g, n, w1, w2);
    let w = w1 + w2.drop_first();
    assert(is_walk(g, n, w) && w.first() == a && w.last() == c);
}

/// A walk whose intermediates stay below k + 1 either avoids k inside, or
/// splits at k into two walks whose intermediates stay below k.
proof fn lemma_walk_split<W: Weight>(g: Seq<Option<W>>, n: int, w: Seq<int>, k: int)
    requires
        is_walk(g, n, w),
        interior_below(w, k + 1),
    ensures
        connected_below(g, n, w.first(), w.last(), k) || (connected_below(
            g,
            n,
            w.first(),
            k,
            k,
        ) && connected_below(g, n, k, w.last(), k)),
    decreases w.len(),
{
    if exists|t: int| 0 < t < w.len() - 1 && w[t] == k {
        let t = choose|t: int| 0 < t < w.len() - 1 && w[t] == k;
        let w1 = w.subrange(0, t + 1);
        let w2 = w.subrange(t, w.len() as int);
        lemma_walk_subrange(g, n, w, 0, t + 1);
        lemma_walk_subrange(g, n, w, t, w.len() as int);
        assert(interior_below(w1, k + 1)) by {
            assert forall|s: int| 0 < s < w1.len() - 1 implies #[trigger] w1[s] < k + 1 by {
                assert(w1[s] == w[s]);
            }
        }
        assert(interior_below(w2, k + 1)) by {
            assert forall|s: int| 0 < s < w2.len() - 1 implies #[trigger] w2[s] < k + 1 by {
                assert(w2[s] == w[t + s]);
            }
        }
        assert(w1.first() == w.first() && w1.last() == k);
        assert(w2.first() == k && w2.last() == w.last());
        lemma_walk_split(g, n, w1, k);
        lemma_walk_split(g, n, w2, k);
    } else {
        assert(interior_below(w, k)) by {
            assert forall|t: int| 0 < t < w.len() - 1 implies #[trigger] w[t] < k by {
                assert(w[t] < k + 1);
                assert(w[t] != k);
            }
        }
        assert(connected_below(g, n, w.first(), w.last(), k));
    }
}

/// Every recorded cell of m is witnessed by a walk through g.
pub open spec fn all_present_connected<W: Weight>(
    m: Seq<Option<W>>,
    g: Seq<Option<W>>,
    n: int,
) -> bool {
    forall|p: int, q: int|
        0 <= p < n && 0 <= q < n && (#[trigger] cell(m, n, p, q)) is Some ==> connected(g, n, p, q)
}

proof fn lemma_init_sound<W: Weight>(g: Seq<Option<W>>, n: int)
    requires
        g.len() == n * n,
    ensures
        all_present_connected(init_cells(g, n), g, n),
{
    let ini = init_cells(g, n);
    assert forall|p: int, q: int|
        0 <= p < n && 0 <= q < n && (#[trigger] cell(ini, n, p, q)) is Some implies connected(
        g,
        n,
        p,
        q,
    ) by {
        lemma_init_cell(g, n, p, q);
        if cell(g, n, p, q) is Some {
            let w = seq![p, q];
            assert(w[0] == p && w[1] == q);
            assert(is_walk(g, n, seq![q]));
            assert(w.drop_first() =~= seq![q]);
            assert(is_walk(g, n, w) && w.first() == p && w.last() == q);
        } else {
            let w = seq![p];
            assert(is_walk(g, n, w) && w.first() == p && w.last() == p);
        }
    }
}

proof fn lemma_relax_at_sound<W: Weight>(
    m: Seq<Option<W>>,
    g: Seq<Option<W>>,
    n: int,
    k: int,
    i: int,
    j: int,
)
    requires
        m.len() == n * n,
        all_present_connected(m, g, n),
        0 <= k < n,
        0 <= i < n,
        0 <= j < n,
    ensures
        all_present_connected(relax_at(m, n, k, i, j), g, n),
{
    let r = relax_at(m, n, k, i, j);
    lemma_cell_index_bound(n, i, j);
    assert forall|p: int, q: int|
        0 <= p < n && 0 <= q < n && (#[trigger] cell(r, n, p, q)) is Some implies connected(
        g,
        n,
        p,
        q,
    ) by {
        lemma_cell_index_bound(n, p, q);
        if p * n + q == i * n + j {
            lemma_cell_index_injective(n, p, q, i, j);
            match (cell(m, n, i, k), cell(m, n, k, j)) {
                (Some(a), Some(b)) => {
                    assert(connected(g, n, i, k));
                    assert(connected(g, n, k, j));
                    lemma_connected_trans(g, n, i, k, j);
                },
                _ => {
                    assert(cell(r, n, p, q) == cell(m, n, p, q));
                },
            }
        } else {
            assert(cell(r, n, p, q) == cell(m, n, p, q));
        }
    }
}

proof fn lemma_relax_row_sound<W: Weight>(
    m: Seq<Option<W>>,
    g: Seq<Option<W>>,
    n: int,
    k: int,
    i: int,
    j: int,
)
    requires
        m.len() == n * n,
        all_present_connected(m, g, n),
        0 <= k < n,
        0 <= i < n,
        0 <= j <= n,
    ensures
        all_present_connected(relax_row(m, n, k, i, j), g, n),
    decreases j,
{
    if j <= 0 {
    } else {
        lemma_relax_row_sound(m, g, n, k, i, j - 1);
        lemma_relax_row_refines(m, n, k, i, j - 1);
        lemma_relax_at_sound(relax_row(m, n, k, i, j - 1), g, n, k, i, j - 1);
    }
}

proof fn lemma_relax_block_sound<W: Weight>(
    m: Seq<Option<W>>,
    g: Seq<Option<W>>,
    n: int,
    k: int,
    i: int,
)
    requires
        m.len() == n * n,
        all_present_connected(m, g, n),
        0 <= k < n,
        0 <= i <= n,
    ensures
        all_present_connected(relax_block(m, n, k, i), g, n),
    decreases i,
{
    if i <= 0 {
    } else {
        lemma_relax_block_sound(m, g, n, k, i - 1);
        lemma_relax_block_refines(m, n, k, i - 1);
        lemma_relax_row_sound(relax_block(m, n, k, i - 1), g, n, k, i - 1, n);
    }
}

proof fn lemma_phases_sound<W: Weight>(g: Seq<Option<W>>, n: int, k: int)
    requires
        g.len() == n * n,
        0 <= k <= n,
    ensures
        all_present_connected(relax_phases(init_cells(g, n), n, k), g, n),
    decreases k,
{
    if k <= 0 {
        lemma_init_sound(g, n);
    } else {
        lemma_phases_sound(g, n, k - 1);
        let prev = relax_phases(init_cells(g, n), n, k - 1);
        crate::laws::lemma_relax_phases_refines(init_cells(g, n), n, k - 1);
        lemma_relax_block_sound(prev, g, n, k - 1, n);
    }
}

/// After the steps (k, i, 0) .. (k, i, j2-1), the aggregate (i, j) is
/// recorded whenever m already recorded (i, k) and (k, j), for j < j2.
proof fn lemma_relax_row_presence<W: Weight>(
    m: Seq<Option<W>>,
    n: int,
    k: int,
    i: int,
    j: int,
    j2: int,
)
    requires
        m.len() == n * n,
        0 <= k < n,
        0 <= i < n,
        0 <= j < n,
        j < j2 <= n,
        cell(m, n, i, k) is Some,
        cell(m, n, k, j) is Some,
    ensures
        cell(relax_row(m, n, k, i, j2), n, i, j) is Some,
    decreases j2,
{
    lemma_cell_index_bound(n, i, k);
    lemma_cell_index_bound(n, k, j);
    lemma_cell_index_bound(n, i, j);
    let prev = relax_row(m, n, k, i, j2 - 1);
    lemma_relax_row_refines(m, n, k, i, j2 - 1);
    if j2 == j + 1 {
        assert(cell_refines(prev[i * n + k], m[i * n + k]));
        assert(cell_refines(prev[k * n + j], m[k * n + j]));
        assert(cell(prev, n, i, k) is Some);
        assert(cell(prev, n, k, j) is Some);
        assert(cell(relax_at(prev, n, k, i, j), n, i, j) is Some);
    } else {
        lemma_relax_row_presence(m, n, k, i, j, j2 - 1);
        lemma_relax_at_refines(prev, n, k, i, j2 - 1);
        assert(cell_refines(relax_at(prev, n, k, i, j2 - 1)[i * n + j], prev[i * n + j]));
    }
}

/// After the rows (k, 0) .. (k, i2-1) of a phase, the aggregate (i, j) is
/// recorded whenever m already recorded (i, k) and (k, j), for i < i2.
proof fn lemma_relax_block_presence<W: Weight>(
    m: Seq<Option<W>>,
    n: int,
    k: int,
    i: int,
    j: int,
    i2: int,
)
    requires
        m.len() == n * n,
        0 <= k < n,
        0 <= i < n,
        0 <= j < n,
        i < i2 <= n,
        cell(m, n, i, k) is Some,
        cell(m, n, k, j) is Some,
    ensures
        cell(relax_block(m, n, k, i2), n, i, j) is Some,
    decreases i2,
{
    lemma_cell_index_bound(n, i, k);
    lemma_cell_index_bound(n, k, j);
    lemma_cell_index_bound(n, i, j);
    let prev = relax_block(m, n, k, i2 - 1);
    lemma_relax_block_refines(m, n, k, i2 - 1);
    if i2 == i + 1 {
        assert(cell_refines(prev[i * n + k], m[i * n + k]));
        assert(cell_refines(prev[k * n + j], m[k * n + j]));
        lemma_relax_row_presence(prev, n, k, i, j, n);
    } else {
        lemma_relax_block_presence(m, n, k, i, j, i2 - 1);
        lemma_relax_row_refines(prev, n, k, i2 - 1, n);
        assert(cell_refines(relax_row(prev, n, k, i2 - 1, n)[i * n + j], prev[i * n + j]));
    }
}

/// Every pair connected through intermediates below k is recorded in m.
pub open spec fn all_connected_present<W: Weight>(
    m: Seq<Option<W>>,
    g: Seq<Option<W>>,
    n: int,
    k: int,
) -> bool {
    forall|i: int, j: int|
        #![trigger cell(m, n, i, j)]
        0 <= i < n && 0 <= j < n && connected_below(g, n, i, j, k) ==> cell(m, n, i, j) is Some
}

proof fn lemma_phases_complete<W: Weight>(g: Seq<Option<W>>, n: int, k: int)
    requires
        g.len() == n * n,
        0 <= k <= n,
    ensures
        all_connected_present(relax_phases(init_cells(g, n), n, k), g, n, k),
    decreases k,
{
    let ini = init_cells(g, n);
    let m = relax_phases(ini, n, k);
    if k <= 0 {
        assert forall|i: int, j: int|
            0 <= i < n && 0 <= j < n && connected_below(g, n, i, j, k) implies #[trigger] cell(
            m,
            n,
            i,
            j,
        ) is Some by {
            let w = choose|w: Seq<int>|
                is_walk(g, n, w) && w.first() == i && w.last() == j && interior_below(w, k);
            lemma_walk_in_range(g, n, w);
            lemma_init_cell(g, n, i, j);
            if w.len() >= 3 {
                assert(0 < 1 < w.len() - 1);
                assert(w[1] < 0);
                assert(false);
            } else if w.len() == 2 {
                assert(cell(g, n, w[0], w[1]) is Some);
            }
        }
    } else {
        lemma_phases_complete(g, n, k - 1);
        let prev = relax_phases(ini, n, k - 1);
        let kk = k - 1;
        crate::laws::lemma_relax_phases_refines(ini, n, kk);
        assert forall|i: int, j: int|
            0 <= i < n && 0 <= j < n && connected_below(g, n, i, j, k) implies #[trigger] cell(
            m,
            n,
            i,
            j,
        ) is Some by {
            lemma_cell_index_bound(n, i, j);
            let w = choose|w: Seq<int>|
                is_walk(g, n, w) && w.first() == i && w.last() == j && interior_below(w, k);
            lemma_walk_split(g, n, w, kk);
            if connected_below(g, n, i, j, kk) {
                assert(cell(prev, n, i, j) is Some);
                lemma_relax_block_refines(prev, n, kk, n);
                assert(cell_refines(m[i * n + j], prev[i * n + j]));
            } else {
                assert(connected_below(g, n, i, kk, kk) && connected_below(g, n, kk, j, kk));
                assert(cell(prev, n, i, kk) is Some);
                assert(cell(prev, n, kk, j) is Some);
                lemma_relax_block_presence(prev, n, kk, i, j, n);
            }
        }
    }
}

/// Known chains compose: wherever the finished aggregate map records an
/// aggregate from i to k and one from k to j, it also records one from i
/// to j. (How the three values compare is a separate question: a cycle
/// whose composite improves on the identity can keep lowering the legs
/// after (i, j) was last written.)
pub proof fn lemma_known_chain_closure<W: Weight>(g: Graph<W>, i: int, k: int, j: int)
    requires
        g.wf(),
        0 <= i < g.size(),
        0 <= k < g.size(),
        0 <= j < g.size(),
        cell(aggregate_cells(g.model(), g.size()), g.size(), i, k) is Some,
        cell(aggregate_cells(g.model(), g.size()), g.size(), k, j) is Some,
    ensures
        cell(aggregate_cells(g.model(), g.size()), g.size(), i, j) is Some,
{
    let n = g.size();
    let gm = g.model();
    lemma_phases_sound(gm, n, n);
    assert(connected(gm, n, i, k));
    assert(connected(gm, n, k, j));
    lemma_connected_trans(gm, n, i, k, j);
    let w = choose|w: Seq<int>| is_walk(gm, n, w) && w.first() == i && w.last() == j;
    lemma_walk_in_range(gm, n, w);
    assert(interior_below(w, n));
    assert(connected_below(gm, n, i, j, n));
    lemma_phases_complete(gm, n, n);
    assert(cell(aggregate_cells(gm, n), n, i, j) is Some);
}

} // verus!
