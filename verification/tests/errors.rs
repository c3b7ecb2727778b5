//! Every way a solve or a reference solution can be refused, one input each.

use volare::cvrplib::{SolFileError, check_routes, reference, reference_check, stops_in_range};
use volare::solver::{Construct, Improve, Operator, SolveError, solve, try_first_solution};
use volare::{ModelBuilder, NodeId, eval_route};

/// One vehicle that holds one customer, and two customers to place.
#[test]
fn a_fleet_too_small_has_no_feasible_insertion() {
    let dist = |a: NodeId, b: NodeId| (a.0 as i64 - b.0 as i64).abs();
    let mut b = ModelBuilder::new(3);
    let cost = b.cost_class(dist);
    b.vehicle(NodeId(0), NodeId(0), cost);
    b.dimension("load", |_from, to| if to == NodeId(0) { 0 } else { 1 }, vec![1]);
    let m = b.build();
    assert_eq!(
        try_first_solution(&m, Construct::CheapestInsertion),
        Err(SolveError::NoFeasibleInsertion)
    );
}

/// Each route fits an `i64` on its own; their sum does not.
#[test]
fn a_total_past_i64_is_an_overflow_not_a_wrap() {
    let far: i64 = 1 << 61;
    let dist = move |a: NodeId, b: NodeId| if a == b { 0 } else { far };
    let mut b = ModelBuilder::new(3);
    let cost = b.cost_class(dist);
    b.vehicle(NodeId(0), NodeId(0), cost);
    b.vehicle(NodeId(0), NodeId(0), cost);
    b.dimension("load", |_from, to| if to == NodeId(0) { 0 } else { 1 }, vec![1, 1]);
    let m = b.build();
    assert_eq!(
        solve(&m, Construct::CheapestInsertion, Improve::HillClimb),
        Err(SolveError::CostOverflow)
    );
}

#[test]
fn operator_names_are_the_usual_ones() {
    assert_eq!(Operator::Relocate.name(), "relocate");
    assert_eq!(Operator::Swap.name(), "swap");
    assert_eq!(Operator::TwoOpt.name(), "2-opt");
    assert_eq!(Operator::TwoOptStar.name(), "2-opt*");
    assert_eq!(Operator::OrOpt.name(), "or-opt");
}

fn routes(rs: &[&[u32]]) -> Vec<Vec<NodeId>> {
    rs.iter().map(|r| r.iter().map(|&i| NodeId(i)).collect()).collect()
}

#[test]
fn a_reference_solution_that_fits_is_accepted() {
    let rs = routes(&[&[1, 3], &[2]]);
    let f = reference(rs.clone(), Some(42), 4, NodeId(0));
    assert_eq!(f.routes, rs);
    assert_eq!(f.cost, 42);
    assert_eq!(check_routes(&rs, 4, NodeId(0)), Ok(()));
}

#[test]
fn a_reference_solution_is_refused_at_its_first_offence() {
    let depot = NodeId(0);
    assert_eq!(
        check_routes(&routes(&[&[1, 0], &[2, 3]]), 4, depot),
        Err(SolFileError::DepotRouted)
    );
    assert_eq!(
        check_routes(&routes(&[&[1, 4], &[2, 3]]), 4, depot),
        Err(SolFileError::OutOfRange(NodeId(4)))
    );
    assert_eq!(
        check_routes(&routes(&[&[1, 2], &[2, 3]]), 4, depot),
        Err(SolFileError::VisitedTwice(NodeId(2)))
    );
    assert_eq!(check_routes(&routes(&[&[1]]), 4, depot), Err(SolFileError::Missing(2)));
    // An out-of-range stop reported before a later repeat.
    assert_eq!(
        check_routes(&routes(&[&[9], &[1, 1]]), 4, depot),
        Err(SolFileError::OutOfRange(NodeId(9)))
    );
}

#[test]
fn a_reference_needs_a_cost_and_may_list_no_routes() {
    assert_eq!(reference_check(&Vec::new(), None, 4, NodeId(0)).err(), Some(SolFileError::NoCost));
    let f = reference(Vec::new(), Some(7), 4, NodeId(0));
    assert!(f.routes.is_empty());
    assert_eq!(f.cost, 7);
    // Routes that fit but no cost.
    assert_eq!(
        reference_check(&routes(&[&[1, 2, 3]]), None, 4, NodeId(0)).err(),
        Some(SolFileError::NoCost)
    );
    // A bad route outranks a missing cost.
    assert_eq!(
        reference_check(&routes(&[&[1, 1]]), None, 4, NodeId(0)).err(),
        Some(SolFileError::VisitedTwice(NodeId(1)))
    );
}

#[test]
fn stops_in_range_ignores_coverage() {
    assert!(stops_in_range(&routes(&[&[1], &[3]]), 4, NodeId(0)));
    assert!(stops_in_range(&routes(&[&[1, 1]]), 4, NodeId(0)));
    assert!(!stops_in_range(&routes(&[&[1, 4]]), 4, NodeId(0)));
    assert!(!stops_in_range(&routes(&[&[0]]), 4, NodeId(0)));
}

/// A forbid set early survives every later builder call and the build.
#[test]
fn a_forbid_survives_later_builder_calls() {
    let dist = |a: NodeId, b: NodeId| (a.0 as i64 - b.0 as i64).abs() * 10;
    let mut b = ModelBuilder::new(4);
    let cost = b.cost_class(dist);
    let v0 = b.vehicle(NodeId(0), NodeId(0), cost);
    b.forbid(v0, NodeId(2));
    let v1 = b.vehicle(NodeId(0), NodeId(0), cost);
    b.forbid(v1, NodeId(3));
    b.dimension("time", dist, vec![100, 100]);
    b.cumul_bounds("time", NodeId(1), 0, 50);
    let m = b.build();

    assert!(m.vehicle(v0).forbids(NodeId(2)));
    assert!(!m.vehicle(v0).forbids(NodeId(3)));
    assert!(m.vehicle(v1).forbids(NodeId(3)));
    assert_eq!(eval_route(&m, &[NodeId(2)], v0), None);
}
