use arbitrage::aggregate::floyd_warshall;
use arbitrage::graph::{add_edge, Graph};
use arbitrage::weight::{Rate, Weight, RATE_SCALE};

fn rate(raw: u64) -> Rate {
    Rate::new(raw)
}

/// 2.0, 0.5 and 0.9 in fixed point.
const TWO: u64 = 2_000_000_000;
const HALF: u64 = 500_000_000;
const NINE_TENTHS: u64 = 900_000_000;

#[test]
fn triangle_cycle_signals_arbitrage() {
    // A=0, B=1, C=2: A->B 2.0, B->C 0.5, C->A 0.9; the cycle composite is
    // 2.0 * 0.5 * 0.9 = 0.9 < 1.0, an arbitrage signal at every vertex.
    let mut g: Graph<Rate> = Graph::new();
    add_edge(&mut g, 0, 1, rate(TWO));
    add_edge(&mut g, 1, 2, rate(HALF));
    add_edge(&mut g, 2, 0, rate(NINE_TENTHS));
    let result = floyd_warshall(&g);
    assert_eq!(result.get(0, 0), Some(rate(NINE_TENTHS)));
    assert_eq!(result.get(1, 1), Some(rate(NINE_TENTHS)));
    // C's self-aggregate is relaxed once more through its own improved
    // cycle: 0.9 * 0.9 = 0.81.
    assert_eq!(result.get(2, 2), Some(rate(810_000_000)));
    for v in 0..3 {
        let self_rate = result.get(v, v).unwrap();
        assert!(self_rate.signals_arbitrage());
        assert!(self_rate.raw > 0 && self_rate.raw < RATE_SCALE);
    }
}

#[test]
fn relaxation_closure_holds_without_improving_cycle() {
    // On a graph whose only cycle composes exactly to the identity, the
    // finished map satisfies the triangle bound for every triple with both
    // legs known. (A cycle composing below the identity can break this
    // bound on the finished map, as the triangle scenario shows.)
    let mut g: Graph<Rate> = Graph::new();
    add_edge(&mut g, 0, 1, rate(TWO));
    add_edge(&mut g, 1, 0, rate(HALF));
    let result = floyd_warshall(&g);
    for i in 0..2 {
        for k in 0..2 {
            for j in 0..2 {
                if let (Some(ik), Some(kj)) = (result.get(i, k), result.get(k, j)) {
                    let ij = result.get(i, j).unwrap();
                    assert!(ij.raw <= ik.mul(kj).raw);
                }
            }
        }
    }
}

#[test]
fn identity_cycle_gives_no_signal() {
    // A->B 2.0, B->A 0.5: the round trip composes to exactly 1.0, so no
    // self-aggregate moves off the identity.
    let mut g: Graph<Rate> = Graph::new();
    add_edge(&mut g, 0, 1, rate(TWO));
    add_edge(&mut g, 1, 0, rate(HALF));
    let result = floyd_warshall(&g);
    assert_eq!(result.get(0, 0), Some(Rate::one()));
    assert_eq!(result.get(1, 1), Some(Rate::one()));
}

#[test]
fn disconnected_components_stay_apart() {
    // A=0 -> B=1 at 3.0 and C=2 -> D=3 at 4.0: no chain joins the two
    // components, and no cycle exists at all.
    let mut g: Graph<Rate> = Graph::new();
    add_edge(&mut g, 0, 1, rate(3 * RATE_SCALE));
    add_edge(&mut g, 2, 3, rate(4 * RATE_SCALE));
    let result = floyd_warshall(&g);
    assert_eq!(result.get(0, 2), None);
    assert_eq!(result.get(0, 0), Some(Rate::one()));
    assert_eq!(result.get(0, 1), Some(rate(3 * RATE_SCALE)));
    assert_eq!(result.get(2, 3), Some(rate(4 * RATE_SCALE)));
    assert_eq!(result.get(2, 0), None);
    assert_eq!(result.get(1, 3), None);
}

#[test]
fn every_vertex_gets_a_self_entry() {
    let mut g: Graph<Rate> = Graph::new();
    add_edge(&mut g, 0, 1, rate(3 * RATE_SCALE));
    add_edge(&mut g, 2, 3, rate(4 * RATE_SCALE));
    let result = floyd_warshall(&g);
    assert_eq!(result.vertex_count(), 4);
    for v in 0..4 {
        assert!(result.get(v, v).is_some());
    }
}

#[test]
fn direct_edge_is_never_worsened() {
    // The direct A->B rate of 2.0 is beaten by the chain through C's cycle
    // down to 1.8; the aggregate may only improve on the edge weight.
    let mut g: Graph<Rate> = Graph::new();
    add_edge(&mut g, 0, 1, rate(TWO));
    add_edge(&mut g, 1, 2, rate(HALF));
    add_edge(&mut g, 2, 0, rate(NINE_TENTHS));
    let result = floyd_warshall(&g);
    let direct = result.get(0, 1).unwrap();
    assert!(direct.raw <= TWO);
    assert_eq!(direct, rate(1_800_000_000));
}

#[test]
fn isolated_vertex_keeps_only_its_identity() {
    // Edges 0->1 and 1->3 leave vertex 2 untouched: it gets exactly one
    // aggregate, its own self-entry at the identity.
    let mut g: Graph<Rate> = Graph::new();
    add_edge(&mut g, 0, 1, rate(TWO));
    add_edge(&mut g, 1, 3, rate(5 * RATE_SCALE));
    let result = floyd_warshall(&g);
    assert_eq!(result.get(2, 2), Some(Rate::one()));
    for x in 0..4 {
        if x != 2 {
            assert_eq!(result.get(2, x), None);
            assert_eq!(result.get(x, 2), None);
        }
    }
}

#[test]
fn chains_compose_through_intermediates() {
    // 0 -> 1 at 2.0 and 1 -> 2 at 3.0 but no direct 0 -> 2 edge: the
    // aggregate map still knows 0 -> 2, at the chain composite 6.0.
    let mut g: Graph<Rate> = Graph::new();
    add_edge(&mut g, 0, 1, rate(TWO));
    add_edge(&mut g, 1, 2, rate(3 * RATE_SCALE));
    assert_eq!(g.get(0, 2), None);
    let result = floyd_warshall(&g);
    assert_eq!(result.get(0, 2), Some(rate(6 * RATE_SCALE)));
    assert_eq!(result.get(2, 0), None);
}

#[test]
fn improving_cycle_keeps_lowering_self_aggregates() {
    // A->B 0.4 and B->A 0.4: the cycle composes to 0.16, and later passes
    // relax through the already-lowered self-aggregates, so every cell
    // ends below the plain one-lap composite.
    let mut g: Graph<Rate> = Graph::new();
    add_edge(&mut g, 0, 1, rate(400_000_000));
    add_edge(&mut g, 1, 0, rate(400_000_000));
    let result = floyd_warshall(&g);
    assert_eq!(result.get(0, 0), Some(rate(160_000_000)));
    assert_eq!(result.get(0, 1), Some(rate(64_000_000)));
    assert_eq!(result.get(1, 0), Some(rate(64_000_000)));
    assert_eq!(result.get(1, 1), Some(rate(25_600_000)));
    assert!(result.get(0, 0).unwrap().signals_arbitrage());
    assert!(result.get(1, 1).unwrap().signals_arbitrage());
}

#[test]
fn aggregation_is_deterministic() {
    let mut g: Graph<Rate> = Graph::new();
    add_edge(&mut g, 0, 1, rate(TWO));
    add_edge(&mut g, 1, 2, rate(HALF));
    add_edge(&mut g, 2, 0, rate(NINE_TENTHS));
    let first = floyd_warshall(&g);
    let second = floyd_warshall(&g);
    assert_eq!(first.vertex_count(), second.vertex_count());
    for i in 0..3 {
        for j in 0..3 {
            assert_eq!(first.get(i, j), second.get(i, j));
        }
    }
}

#[test]
fn self_loop_edge_seeds_and_relaxes() {
    // A self-loop at 0.5 overwrites the identity seed; the single
    // relaxation pass squares it once.
    let mut g: Graph<Rate> = Graph::new();
    add_edge(&mut g, 0, 0, rate(HALF));
    let result = floyd_warshall(&g);
    assert_eq!(result.get(0, 0), Some(rate(250_000_000)));
}

#[test]
fn empty_graph_aggregates_to_empty_map() {
    let g: Graph<Rate> = Graph::new();
    let result = floyd_warshall(&g);
    assert_eq!(result.vertex_count(), 0);
    assert_eq!(result.get(0, 0), None);
}
