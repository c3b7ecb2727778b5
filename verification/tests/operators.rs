//! The neighborhood moves, one scenario each.

use volare::operators::{Scratch, try_or_opt, try_relocate, try_swap, try_two_opt, try_two_opt_star};
use volare::{Cost, Model, ModelBuilder, NodeId, Search, VehicleId, eval_route};

/// Depot at the origin, customers on the compass points, two vehicles of
/// two stops each.
fn compass() -> Model {
    let xy = [(0, 0), (10, 0), (0, 10), (-10, 0), (0, -10)];
    let dist = move |a: NodeId, b: NodeId| {
        let (ax, ay) = xy[a.index()];
        let (bx, by) = xy[b.index()];
        let (dx, dy) = (ax - bx, ay - by);
        ((dx * dx + dy * dy) as f64).sqrt().round() as i64
    };
    let mut b = ModelBuilder::new(5);
    let cost = b.cost_class(dist);
    b.vehicle(NodeId(0), NodeId(0), cost);
    b.vehicle(NodeId(0), NodeId(0), cost);
    b.dimension(
        "load",
        |_from, to| if to == NodeId(0) { 0 } else { 1 },
        vec![2, 2],
    );
    b.build()
}

/// Crossing routes on tight capacity: no single-customer move helps, only
/// trading tails between routes does.
#[test]
fn operators_two_opt_star_repartitions_routes() {
    let m = compass();

    // East rides with west, north with south: both routes cross the map.
    let mut sol = vec![vec![NodeId(1), NodeId(3)], vec![NodeId(2), NodeId(4)]];
    let cx = Search::new(&m);
    let mut cost: Vec<Cost> = (0..2)
        .map(|v| cx.eval(&sol[v], VehicleId(v as u32)).unwrap())
        .collect();
    assert_eq!(cost.iter().sum::<Cost>(), 80);

    let v = try_two_opt_star(&cx, &mut sol, &mut cost, 0);
    assert_eq!(v, Some(1));
    assert_eq!(
        sol,
        vec![vec![NodeId(1), NodeId(4)], vec![NodeId(2), NodeId(3)]]
    );
    assert_eq!(cost.iter().sum::<Cost>(), 68);
    // A local optimum of this neighborhood: a second call finds nothing.
    assert_eq!(try_two_opt_star(&cx, &mut sol, &mut cost, 0), None);
}

/// Three vehicles of three stops each, customers scattered round the depot.
fn scatter() -> Model {
    let xy = [(0, 0), (-5, 20), (-10, 5), (15, -15), (-20, 15), (0, 20), (-5, -5)];
    let dist = move |a: NodeId, b: NodeId| {
        let (ax, ay) = xy[a.index()];
        let (bx, by) = xy[b.index()];
        let (dx, dy) = (ax - bx, ay - by);
        ((dx * dx + dy * dy) as f64).sqrt().round() as i64
    };
    let mut b = ModelBuilder::new(7);
    let cost = b.cost_class(dist);
    for _ in 0..3 {
        b.vehicle(NodeId(0), NodeId(0), cost);
    }
    b.dimension(
        "load",
        |_from, to| if to == NodeId(0) { 0 } else { 1 },
        vec![3, 3, 3],
    );
    b.build()
}

/// Several tail trades help; 2-opt* makes the one whose arcs gain most,
/// not the first one it meets: cutting after the first stop of each route
/// is met first and would leave 178.
#[test]
fn two_opt_star_takes_the_largest_arc_gain() {
    let m = scatter();
    let mut sol = vec![
        vec![NodeId(1), NodeId(2)],
        vec![NodeId(3), NodeId(4)],
        vec![NodeId(5), NodeId(6)],
    ];
    let cx = Search::new(&m);
    let mut cost: Vec<Cost> = (0..3)
        .map(|v| cx.eval(&sol[v], VehicleId(v as u32)).unwrap())
        .collect();
    assert_eq!(cost, vec![48, 92, 52]);

    assert_eq!(try_two_opt_star(&cx, &mut sol, &mut cost, 0), Some(1));
    assert_eq!(
        sol,
        vec![
            vec![NodeId(1), NodeId(2), NodeId(4)],
            vec![NodeId(3)],
            vec![NodeId(5), NodeId(6)],
        ]
    );
    assert_eq!(cost, vec![76, 42, 52]);
}

/// Depot 0 and customers on a line, arc cost the line distance.
fn line(n: usize, cap: i64) -> Model {
    let dist = |a: NodeId, b: NodeId| (a.0 as i64 - b.0 as i64).abs() * 10;
    let mut b = ModelBuilder::new(n);
    let cost = b.cost_class(dist);
    b.vehicle(NodeId(0), NodeId(0), cost);
    b.vehicle(NodeId(0), NodeId(0), cost);
    b.dimension(
        "load",
        |_from, to| if to == NodeId(0) { 0 } else { 1 },
        vec![cap, cap],
    );
    b.build()
}

fn priced(cx: &Search, sol: &[Vec<NodeId>]) -> Vec<Cost> {
    (0..sol.len())
        .map(|v| cx.eval(&sol[v], VehicleId(v as u32)).unwrap())
        .collect()
}

/// Relocation takes the first improving position, here moving a far node
/// back next to its neighbour.
#[test]
fn relocate_moves_a_node_to_its_first_improving_slot() {
    let m = line(4, 3);
    let cx = Search::new(&m);
    let mut sol = vec![vec![NodeId(2), NodeId(1), NodeId(3)], vec![]];
    let mut cost = priced(&cx, &sol);
    assert_eq!(cost, vec![80, 0]);
    let mut sx = Scratch::default();
    let v = try_relocate(&cx, &mut sol, &mut cost, NodeId(2), 0, &mut sx);
    assert_eq!(v, Some(0));
    assert_eq!(sol[0], vec![NodeId(1), NodeId(2), NodeId(3)]);
    assert_eq!(cost, vec![60, 0]);
    // A node not on the named route moves nowhere.
    assert_eq!(try_relocate(&cx, &mut sol, &mut cost, NodeId(3), 1, &mut sx), None);
}

/// Both routes are full: only a trade helps, and the swap finds it.
#[test]
fn swap_trades_across_full_routes() {
    let m = line(5, 2);
    let cx = Search::new(&m);
    let mut sol = vec![vec![NodeId(1), NodeId(3)], vec![NodeId(2), NodeId(4)]];
    let mut cost = priced(&cx, &sol);
    assert_eq!(cost.iter().sum::<Cost>(), 140);
    let v = try_swap(&cx, &mut sol, &mut cost, NodeId(3), 0);
    assert_eq!(v, Some(1));
    assert_eq!(sol, vec![vec![NodeId(1), NodeId(2)], vec![NodeId(3), NodeId(4)]]);
    assert_eq!(cost, vec![40, 80]);
}

/// Reversing the crossed middle of a route uncrosses it.
#[test]
fn two_opt_uncrosses_a_route() {
    let m = line(5, 4);
    let cx = Search::new(&m);
    let mut sol = vec![vec![NodeId(1), NodeId(3), NodeId(2), NodeId(4)], vec![]];
    let mut cost = priced(&cx, &sol);
    assert_eq!(cost[0], 100);
    assert!(try_two_opt(&cx, &mut sol, &mut cost, 0));
    assert_eq!(sol[0], vec![NodeId(1), NodeId(2), NodeId(3), NodeId(4)]);
    assert_eq!(cost[0], 80);
    assert!(!try_two_opt(&cx, &mut sol, &mut cost, 0));
}

/// A pair cheaper two stops over, while every single-node move breaks even
/// or worsens: the chain is the smallest move that helps.
#[test]
fn or_opt_moves_a_chain_directly() {
    let m = line(5, 4);
    let cx = Search::new(&m);
    let mut sol = vec![vec![NodeId(4), NodeId(2), NodeId(3), NodeId(1)], vec![]];
    let mut cost: Vec<Cost> = (0..2)
        .map(|v| eval_route(&m, &sol[v], VehicleId(v as u32)).unwrap_or(0))
        .collect();
    let mut sx = Scratch::default();
    assert_eq!(try_or_opt(&cx, &mut sol, &mut cost, NodeId(2), 0, &mut sx), Some(0));
    assert_eq!(sol[0], vec![NodeId(2), NodeId(3), NodeId(4), NodeId(1)]);
    assert_eq!(cost[0], 80);
}
