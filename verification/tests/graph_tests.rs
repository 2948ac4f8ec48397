use arbitrage::graph::{add_edge, Graph};
use arbitrage::weight::{Rate, RATE_SCALE};

fn rate(raw: u64) -> Rate {
    Rate::new(raw)
}

#[test]
fn add_edge_records_one_direction() {
    let mut g: Graph<Rate> = Graph::new();
    add_edge(&mut g, 0, 1, rate(2 * RATE_SCALE));
    assert_eq!(g.get(0, 1), Some(rate(2 * RATE_SCALE)));
    assert_eq!(g.get(1, 0), None);
}

#[test]
fn add_edge_overwrites_last_write_wins() {
    let mut g: Graph<Rate> = Graph::new();
    add_edge(&mut g, 0, 1, rate(2 * RATE_SCALE));
    add_edge(&mut g, 0, 1, rate(3 * RATE_SCALE));
    assert_eq!(g.get(0, 1), Some(rate(3 * RATE_SCALE)));
}

#[test]
fn add_edge_grows_to_unseen_vertices() {
    let mut g: Graph<Rate> = Graph::new();
    assert_eq!(g.vertex_count(), 0);
    add_edge(&mut g, 5, 2, rate(RATE_SCALE));
    assert_eq!(g.vertex_count(), 6);
    assert_eq!(g.get(5, 2), Some(rate(RATE_SCALE)));
    assert_eq!(g.get(2, 5), None);
    assert_eq!(g.get(4, 4), None);
}

#[test]
fn growth_keeps_earlier_edges() {
    let mut g: Graph<Rate> = Graph::new();
    add_edge(&mut g, 0, 1, rate(7 * RATE_SCALE));
    add_edge(&mut g, 3, 0, rate(9 * RATE_SCALE));
    assert_eq!(g.vertex_count(), 4);
    assert_eq!(g.get(0, 1), Some(rate(7 * RATE_SCALE)));
    assert_eq!(g.get(3, 0), Some(rate(9 * RATE_SCALE)));
    assert_eq!(g.get(1, 3), None);
}

#[test]
fn out_of_range_lookup_is_none() {
    let mut g: Graph<Rate> = Graph::new();
    add_edge(&mut g, 0, 1, rate(RATE_SCALE));
    assert_eq!(g.get(7, 0), None);
    assert_eq!(g.get(0, 7), None);
}
