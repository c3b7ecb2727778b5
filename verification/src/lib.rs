//! Vehicle routing: describe a fleet, the stops and the limits each vehicle
//! has to respect; build a first solution by insertion, then improve it by
//! local search.

pub mod cvrplib;
pub mod eval;
pub mod model;
pub mod operators;
pub mod search;
pub mod solver;
pub mod text;
pub mod types;
pub mod vrplib;

pub use eval::{
    Routes, Schedule, Stop, Violation, eval_route, eval_route_split, eval_routes, violations,
    walk_route,
};
pub use model::{Model, ModelBuilder};
pub use search::Search;
pub use solver::{Construct, Improve, Operator, SearchEvent, SolveError, Solution, solve, solve_with};
pub use types::{Cost, NodeId, VehicleId};
