//! The search context against the stateless evaluation it layers on.

use std::hash::Hasher;
use std::ops::Range;

use volare::search::ArcHasher;
use volare::{Model, ModelBuilder, NodeId, Search, VehicleId, eval_route};

/// Capacity, a window, a forbid and an ordering, so one model exercises
/// every arm of the feasibility pass.
fn mixed_model() -> Model {
    let dist = |a: NodeId, b: NodeId| (a.0 as i64 - b.0 as i64).abs() * 10;
    let mut b = ModelBuilder::new(9);
    let cost = b.cost_class(dist);
    let v0 = b.vehicle(NodeId(0), NodeId(0), cost);
    b.vehicle(NodeId(0), NodeId(0), cost);
    b.forbid(v0, NodeId(7));
    b.dimension(
        "load",
        |_from, to| if to == NodeId(0) { 0 } else { 1 },
        vec![5, 5],
    );
    b.dimension("time", dist, vec![400, 400]);
    b.cumul_bounds("time", NodeId(4), 30, 120);
    b.precede(NodeId(2), NodeId(6));
    b.precede(NodeId(3), NodeId(1));
    b.build()
}

/// `Search::eval` and `eval_route` are separate implementations of one
/// answer. Only a differential check keeps them from drifting apart.
#[test]
fn search_eval_agrees_with_the_stateless_reference() {
    let m = mixed_model();
    let cx = Search::new(&m);
    let mut state = 0x243F_6A88_85A3_08D3u64;
    let mut rng = move || {
        state ^= state << 13;
        state ^= state >> 7;
        state ^= state << 17;
        state
    };

    let mut route = Vec::new();
    for _ in 0..20_000 {
        route.clear();
        for n in 1..m.node_count() as u32 {
            if rng() & 1 == 0 {
                route.push(NodeId(n));
            }
        }
        // Shuffle, so orderings that violate precedence show up too.
        for i in (1..route.len()).rev() {
            route.swap(i, (rng() % (i as u64 + 1)) as usize);
        }
        for v in 0..m.vehicle_count() as u32 {
            let v = VehicleId(v);
            assert_eq!(
                cx.eval(&route, v),
                eval_route(&m, &route, v),
                "route {route:?} on vehicle {}",
                v.0
            );
        }
    }
}

/// A penalized arc costs more, and only through the context: the stateless
/// reference still reports true cost.
#[test]
fn penalties_move_the_objective_and_not_the_truth() {
    let m = mixed_model();
    let mut cx = Search::new(&m);
    let route = [NodeId(1), NodeId(2)];
    let v = VehicleId(1);
    let true_cost = cx.eval(&route, v).expect("feasible");

    cx.set_lambda(7);
    cx.penalize(NodeId(0), NodeId(1));
    cx.penalize(NodeId(0), NodeId(1));

    assert_eq!(cx.penalty(NodeId(1), NodeId(0)), 2, "arcs are unordered");
    assert_eq!(cx.eval(&route, v), Some(true_cost + 14));
    assert_eq!(
        eval_route(&m, &route, v),
        Some(true_cost),
        "the stateless reference never sees a penalty"
    );
}

/// Each splice shape must equal the route it describes, and `spliced` must
/// hand that route back for committing.
#[test]
fn splice_covers_every_move_shape() {
    let m = mixed_model();
    let mut cx = Search::new(&m);
    let v = VehicleId(1);
    let route = [NodeId(1), NodeId(2), NodeId(3), NodeId(4)];

    let cases: [(Range<usize>, &[NodeId], &[NodeId]); 4] = [
        // insert, remove, segment swap, tail replaced
        (
            2..2,
            &[NodeId(5)],
            &[NodeId(1), NodeId(2), NodeId(5), NodeId(3), NodeId(4)],
        ),
        (1..2, &[], &[NodeId(1), NodeId(3), NodeId(4)]),
        (
            1..3,
            &[NodeId(6), NodeId(5)],
            &[NodeId(1), NodeId(6), NodeId(5), NodeId(4)],
        ),
        (2..4, &[NodeId(8)], &[NodeId(1), NodeId(2), NodeId(8)]),
    ];
    for (range, repl, want) in cases {
        let spliced = cx.eval_splice(&route, range.clone(), repl, v);
        assert_eq!(cx.spliced(), want, "splice {range:?} built the wrong route");
        assert_eq!(spliced, eval_route(&m, want, v), "splice {range:?} cost");
    }
}

/// Arc prices carry the penalty weight; an unpenalized arc is its table
/// entry.
#[test]
fn arc_prices_on_the_objective_in_force() {
    let m = mixed_model();
    let mut cx = Search::new(&m);
    assert_eq!(cx.arc(0, NodeId(2), NodeId(5)), 30);
    cx.set_lambda(4);
    cx.penalize(NodeId(5), NodeId(2));
    assert_eq!(cx.arc(0, NodeId(2), NodeId(5)), 34);
    assert_eq!(cx.arc(0, NodeId(5), NodeId(2)), 34);
    assert_eq!(cx.arc(0, NodeId(2), NodeId(6)), 40);
    assert_eq!(cx.penalty(NodeId(2), NodeId(6)), 0);
}

/// An empty route is free under any objective, penalized or not.
#[test]
fn an_empty_route_is_free_under_penalties() {
    let m = mixed_model();
    let mut cx = Search::new(&m);
    cx.set_lambda(1000);
    cx.penalize(NodeId(0), NodeId(0));
    assert_eq!(cx.eval(&[], VehicleId(0)), Some(0));
    assert!(std::ptr::eq(cx.model(), &m));
}

#[test]
fn arc_hasher_folds_the_high_half_down() {
    let mut h = ArcHasher::default();
    assert_eq!(h.finish(), 0);
    h.write_u64(1);
    assert_eq!(h.finish(), 0x9e37_79b9_e17d_05ac);
    // A second key replaces the digest rather than chaining onto it.
    h.write_u64(2);
    assert_eq!(h.finish(), 0x3c6e_f372_c2fa_0b58);
}
