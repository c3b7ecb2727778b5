//! Guided local search against the hill climb it wraps.

use volare::eval::{eval_routes, visits_all_nodes};
use volare::solver::{Construct, Improve, first_solution_with, local_search, solve};
use volare::{Model, ModelBuilder, NodeId};

/// A depot and `n` customers scattered by a fixed linear congruential
/// sequence, rounded Euclidean arcs, unit demand, `cap` per vehicle.
fn scattered(n: usize, fleet: usize, cap: i64) -> Model {
    let mut state: u64 = 12345;
    let mut next = move || {
        state = state.wrapping_mul(6364136223846793005).wrapping_add(1442695040888963407);
        ((state >> 33) % 1000) as f64
    };
    let pts: Vec<(f64, f64)> = (0..=n).map(|_| (next(), next())).collect();
    let mut b = ModelBuilder::new(n + 1);
    let cost = b.cost_class(move |a: NodeId, c: NodeId| {
        let (p, q) = (pts[a.index()], pts[c.index()]);
        ((p.0 - q.0).powi(2) + (p.1 - q.1).powi(2)).sqrt().round() as i64
    });
    for _ in 0..fleet {
        b.vehicle(NodeId(0), NodeId(0), cost);
    }
    b.dimension("demand", |_from, to| if to == NodeId(0) { 0 } else { 1 }, vec![cap; fleet]);
    b.build()
}

#[test]
fn gls_never_loses_to_the_hill_climb() {
    let m = scattered(40, 8, 6);

    let mut hill = first_solution_with(&m, Construct::CheapestInsertion, |_| {});
    local_search(&m, &mut hill);
    let hill_cost = eval_routes(&m, &hill).expect("infeasible hill climb");

    let sol = solve(&m, Construct::CheapestInsertion, Improve::Gls { iters: 100 }).expect("feasible");
    assert!(visits_all_nodes(&m, &sol.routes), "GLS dropped or duplicated a node");
    assert_eq!(eval_routes(&m, &sol.routes), Some(sol.cost));
    assert!(sol.cost <= hill_cost, "GLS returned {} against the hill climb's {hill_cost}", sol.cost);
}
