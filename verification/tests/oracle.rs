//! Small CVRP instances written the way a `.vrp` file writes them, read by
//! the library, with rounded Euclidean arcs, per-node demand, and one
//! capacity for the fleet.

use volare::eval::eval_route;
use volare::vrplib::{RawInstance, read_cvrp};
use volare::{Model, ModelBuilder, NodeId, VehicleId};

fn number(field: &[u8]) -> f64 {
    std::str::from_utf8(field).unwrap().parse().unwrap()
}

/// The model a `.vrp` file describes, with `fleet` vehicles.
fn cvrp_model(inst: &RawInstance, fleet: usize) -> Model {
    let pts: Vec<(f64, f64)> = inst.coords.iter().map(|(x, y)| (number(x), number(y))).collect();
    let demands = inst.demands.clone();
    let mut b = ModelBuilder::new(pts.len());
    let cost = b.cost_class(move |a: NodeId, c: NodeId| {
        let (p, q) = (pts[a.index()], pts[c.index()]);
        let (dx, dy) = (p.0 - q.0, p.1 - q.1);
        (dx * dx + dy * dy).sqrt().round() as i64
    });
    for _ in 0..fleet {
        b.vehicle(inst.depot, inst.depot, cost);
    }
    b.dimension("demand", move |_from, to| demands[to.index()], vec![inst.capacity; fleet]);
    b.build()
}

#[test]
fn empty_route_is_free() {
    let inst = read_cvrp(
        b"NAME : t\nDIMENSION : 2\nCAPACITY : 10\nEDGE_WEIGHT_TYPE : EUC_2D\n\
         NODE_COORD_SECTION\n1 0 0\n2 3 4\nDEMAND_SECTION\n1 0\n2 5\nDEPOT_SECTION\n1\n-1\nEOF\n",
    );
    let model = cvrp_model(&inst, 2);
    assert_eq!(eval_route(&model, &[], VehicleId(0)), Some(0));
    // 3-4-5 triangle, out and back.
    assert_eq!(eval_route(&model, &[NodeId(1)], VehicleId(0)), Some(10));
}

#[test]
fn capacity_is_enforced() {
    let inst = read_cvrp(
        b"NAME : t\nDIMENSION : 3\nCAPACITY : 10\nEDGE_WEIGHT_TYPE : EUC_2D\n\
         NODE_COORD_SECTION\n1 0 0\n2 1 0\n3 2 0\nDEMAND_SECTION\n1 0\n2 6\n3 6\n\
         DEPOT_SECTION\n1\n-1\nEOF\n",
    );
    let model = cvrp_model(&inst, 2);
    let (a, b) = (NodeId(1), NodeId(2));
    assert!(eval_route(&model, &[a], VehicleId(0)).is_some());
    assert_eq!(eval_route(&model, &[a, b], VehicleId(0)), None, "12 > 10");
}
