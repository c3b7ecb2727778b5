//! The solver: a first solution by insertion, then local search on it.
//!
//! Every entry point hands back complete solutions only: each non-terminal
//! node on exactly one route, every route feasible on its vehicle. Where no
//! such solution comes out, they say why in a [`SolveError`].

use vstd::prelude::*;

use crate::eval::{
    Routes, cost_spec, eval_routes, occ, routes_cost, sol_ms, sol_nodes_valid, visits_all_spec,
};
use crate::model::Model;
use crate::types::{Cost, NodeId, VehicleId};

pub mod construct;
pub mod descent;
pub mod gls;
pub mod order;

pub use construct::{
    cheapest_insertion, first_solution_traced, first_solution_with, greedy_randomized, try_first_solution,
};
pub use descent::{descend, local_search, local_search_traced, local_search_with};
pub use gls::{guided_local_search, guided_local_search_traced, guided_local_search_with};

verus! {

/// The neighborhood operator that accepted an improving move.
#[derive(Debug, Clone, Copy, PartialEq, Eq, Structural)]
pub enum Operator {
    Relocate,
    Swap,
    TwoOpt,
    TwoOptStar,
    OrOpt,
}

impl Operator {
    /// The operator's usual name, as progress lines print it.
    pub fn name(&self) -> (r: &'static str)
        ensures
            r@ == match *self {
                Operator::Relocate => "relocate"@,
                Operator::Swap => "swap"@,
                Operator::TwoOpt => "2-opt"@,
                Operator::TwoOptStar => "2-opt*"@,
                Operator::OrOpt => "or-opt"@,
            },
    {
        match self {
            Operator::Relocate => "relocate",
            Operator::Swap => "swap",
            Operator::TwoOpt => "2-opt",
            Operator::TwoOptStar => "2-opt*",
            Operator::OrOpt => "or-opt",
        }
    }
}

/// A progress point during a solve. Hand a callback to `solve_with`,
/// `first_solution_with` or `local_search_with` to observe them. Costs are
/// whole-solution totals.
#[derive(Debug, Clone, Copy, PartialEq, Eq, Structural)]
pub enum SearchEvent {
    /// Construction placed every node; the first complete solution exists.
    FirstSolution { cost: Cost },
    /// `operator` accepted a move and the total cost dropped to `cost`.
    Improvement { operator: Operator, cost: Cost },
    /// Guided local search finished round `iter` holding a solution cheaper
    /// than anything before it. `cost` is the true cost, never the penalized
    /// one the descent was reading.
    GuidedBest { iter: usize, cost: Cost },
    /// Local search converged; the solution is final.
    Done { cost: Cost },
}

/// How the first solution is built.
#[derive(Debug, Clone, Copy, PartialEq, Eq, Structural)]
pub enum Construct {
    CheapestInsertion,
    /// Each step draws from the `k` cheapest, not the first. Same seed, same
    /// solution. `k = 1` is `CheapestInsertion`.
    GreedyRandomized { seed: u64, k: usize },
}

/// How that solution is then made cheaper.
#[derive(Debug, Clone, Copy, PartialEq, Eq, Structural)]
pub enum Improve {
    /// Descend to the first local optimum and stop.
    HillClimb,
    /// Guided local search: keep descending, penalizing the arcs that keep
    /// coming back, for `iters` rounds.
    Gls { iters: usize },
}

/// Why a solve produced no solution.
#[derive(Debug, Clone, Copy, PartialEq, Eq, Structural)]
pub enum SolveError {
    /// The node is forbidden on every vehicle: no fleet can serve it.
    Unroutable(NodeId),
    /// Construction reached a state where no remaining node fits anywhere:
    /// the fleet is too small, or the constraints too tight, for it.
    NoFeasibleInsertion,
    /// The solution's total cost leaves the `i64` range.
    CostOverflow,
}

/// `cost` is the true cost, never the penalized number a guided descent was
/// reading, and the solver only returns feasible routes.
#[derive(Debug, Clone, PartialEq, Eq)]
pub struct Solution {
    pub routes: Routes,
    pub cost: Cost,
}

/// Every route of `sol` is feasible on the vehicle of its index.
pub open spec fn feasible(m: &Model, sol: Seq<Vec<NodeId>>) -> bool {
    forall|v: int|
        0 <= v < sol.len() ==> (#[trigger] cost_spec(m, sol[v]@, VehicleId(v as u32))) is Some
}

/// True cost of the first `k` routes, summed without bound; an infeasible
/// route counts as 0.
pub open spec fn true_cost(m: &Model, sol: Seq<Vec<NodeId>>, k: nat) -> int
    decreases k,
{
    if k == 0 {
        0
    } else {
        true_cost(m, sol, (k - 1) as nat) + match cost_spec(
            m,
            sol[k - 1]@,
            VehicleId((k - 1) as u32),
        ) {
            Some(c) => c,
            None => 0,
        }
    }
}

/// True cost of the whole of `sol`.
pub open spec fn total(m: &Model, sol: Seq<Vec<NodeId>>) -> int {
    true_cost(m, sol, sol.len())
}

/// A solution of `m`: one route per vehicle, known nodes, every route
/// feasible.
pub open spec fn solution_ok(m: &Model, sol: Seq<Vec<NodeId>>) -> bool {
    &&& m.wf()
    &&& sol.len() == m.fleet().len()
    &&& sol_nodes_valid(m, sol)
    &&& feasible(m, sol)
}

/// A solution of `m` that visits every non-terminal node exactly once.
pub open spec fn complete(m: &Model, sol: Seq<Vec<NodeId>>) -> bool {
    &&& solution_ok(m, sol)
    &&& visits_all_spec(m, sol)
}

/// Every vehicle forbids `x`.
pub open spec fn forbidden_all(m: &Model, x: NodeId) -> bool {
    forall|v: int| 0 <= v < m.fleet().len() ==> (#[trigger] m.fleet()[v]).forbids_spec(x)
}

/// `x` must be visited, yet every vehicle forbids it.
pub open spec fn unroutable(m: &Model, x: NodeId) -> bool {
    &&& m.valid_node(x)
    &&& !m.is_terminal_spec(x)
    &&& forbidden_all(m, x)
}

/// Some node of `m` is unroutable.
pub open spec fn any_unroutable(m: &Model) -> bool {
    exists|x: NodeId| #[trigger] unroutable(m, x)
}

/// `x` held to the `i64` range.
pub open spec fn clamp_spec(x: int) -> int {
    if x > i64::MAX {
        i64::MAX as int
    } else if x < i64::MIN {
        i64::MIN as int
    } else {
        x
    }
}

/// The cost an event reports.
pub open spec fn event_cost(e: SearchEvent) -> int {
    match e {
        SearchEvent::FirstSolution { cost } => cost as int,
        SearchEvent::Improvement { cost, .. } => cost as int,
        SearchEvent::GuidedBest { cost, .. } => cost as int,
        SearchEvent::Done { cost } => cost as int,
    }
}

/// A reported cost `b` after `a`: lower, or both pinned at the same end
/// of the `i64` range.
pub open spec fn falls(a: int, b: int) -> bool {
    b < a || (a == b && (a == i64::MAX || a == i64::MIN))
}

/// Every event of `t` was handed to the observer `log`.
pub open spec fn handed<L: FnMut(SearchEvent)>(log: L, t: Seq<SearchEvent>) -> bool {
    forall|k: int| 0 <= k < t.len() ==> call_ensures(log, (#[trigger] t[k],), ())
}

/// A run of `Improvement` events, each cost falling from the one before,
/// the last reporting `total`.
pub open spec fn improvements(t: Seq<SearchEvent>, total: int) -> bool {
    &&& forall|k: int| 0 <= k < t.len() ==> #[trigger] t[k] is Improvement
    &&& forall|i: int, j: int|
        0 <= i && j == i + 1 && j < t.len() ==> falls(event_cost(#[trigger] t[i]), event_cost(#[trigger] t[j]))
    &&& t.len() > 0 ==> event_cost(t.last()) == clamp_spec(total)
}

/// What a descent reports: its improvements, then one `Done` with the
/// final total.
pub open spec fn descent_events(t: Seq<SearchEvent>, total: int) -> bool {
    &&& t.len() >= 1
    &&& improvements(t.drop_last(), total)
    &&& t.last() == SearchEvent::Done { cost: clamp_spec(total) as i64 }
}

/// A move to a cheaper total extends a run of improvements.
pub proof fn lemma_improvements_push(t: Seq<SearchEvent>, before: int, after: int, operator: Operator)
    requires
        improvements(t, before),
        after < before,
    ensures
        improvements(
            t.push(SearchEvent::Improvement { operator, cost: clamp_spec(after) as i64 }),
            after,
        ),
{
    let t2 = t.push(SearchEvent::Improvement { operator, cost: clamp_spec(after) as i64 });
    assert forall|k: int| 0 <= k < t2.len() implies #[trigger] t2[k] is Improvement by {
        if k < t.len() {
            assert(t2[k] == t[k]);
        }
    }
    assert forall|i: int, j: int|
        0 <= i && j == i + 1 && j < t2.len() implies falls(
        event_cost(#[trigger] t2[i]),
        event_cost(#[trigger] t2[j]),
    ) by {
        assert(t2[i] == t[i]);
        if j < t.len() {
            assert(t2[j] == t[j]);
        }
    }
}

/// Hands `e` to the observer, once, and records it at the end of `trace`.
/// Observers do not change state the solver reads.
pub(crate) fn emit<L: FnMut(SearchEvent)>(log: &mut L, trace: &mut Vec<SearchEvent>, e: SearchEvent)
    requires
        forall|x: SearchEvent| call_requires(*old(log), (x,)),
    ensures
        *final(log) == *old(log),
        call_ensures(*old(log), (e,), ()),
        final(trace)@ == old(trace)@.push(e),
        handed(*old(log), old(trace)@) ==> handed(*old(log), final(trace)@),
{
    log(e);
    trace.push(e);
    proof {
        if handed(*old(log), old(trace)@) {
            assert forall|k: int| 0 <= k < trace@.len() implies call_ensures(
                *old(log),
                (#[trigger] trace@[k],),
                (),
            ) by {
                if k < old(trace)@.len() {
                    assert(trace@[k] == old(trace)@[k]);
                }
            }
        }
    }
}

/// `x`, held to the `i64` range.
pub(crate) fn clamp_cost(x: i128) -> (r: Cost)
    ensures
        r == clamp_spec(x as int),
{
    if x > i64::MAX as i128 {
        i64::MAX
    } else if x < i64::MIN as i128 {
        i64::MIN
    } else {
        x as i64
    }
}

impl Solution {
    /// Nodes left unserved (their penalties are already inside `cost`).
    pub fn unserved<'a>(&'a self, m: &'a Model) -> (r: &'a [NodeId])
        requires
            m.wf(),
            self.routes@.len() == m.fleet().len(),
        ensures
            r@ == match m.sink() {
                Some(v) => self.routes@[v.0 as int]@,
                None => Seq::<NodeId>::empty(),
            },
    {
        match m.unserved_vehicle() {
            Some(v) => self.routes[v.index()].as_slice(),
            None => &[],
        }
    }
}

/// The model is borrowed shared: every piece of mutable search state, guided
/// local search penalties included, is owned by the call. One model can
/// therefore back any number of solves running at once.
pub fn solve(m: &Model, construct: Construct, improve: Improve) -> (r: Result<Solution, SolveError>)
    requires
        m.wf(),
        construct::constructed(m, construct) is Ok,
    ensures
        solved(m, construct, improve, r),
        r matches Err(e) ==> e == SolveError::CostOverflow,
{
    solve_with(m, construct, improve, |_e: SearchEvent| {})
}

/// After guided local search, `after` is the first least-cost round of a
/// run from a hill climb of `f`; nothing is said for a hill climb.
pub open spec fn gls_result(m: &Model, f: Seq<Vec<NodeId>>, improve: Improve, after: Seq<Vec<NodeId>>) -> bool {
    improve matches Improve::Gls { iters } ==> exists|
        h: Seq<Vec<NodeId>>,
        rounds: Seq<Seq<Vec<NodeId>>>,
        cxs: Seq<crate::search::Search<'_>>,
        i: int,
    |
        #![trigger gls::gls_run(m, h, iters as int, rounds, cxs), gls::first_least(m, rounds, i)]
        descent::improved_from(m, f, h) && descent::true_local_optimum(m, h) && gls::gls_run(
            m,
            h,
            iters as int,
            rounds,
            cxs,
        ) && gls::first_least(m, rounds, i) && order::views(after) == order::views(rounds[i])
}

/// What `solve` returns: a complete solution priced at its true cost, no
/// costlier than the first solution `construct` builds and holding the
/// same nodes, a local optimum of the neighborhood after a hill climb, and
/// after guided local search no costlier than a hill climb from there; or
/// an error: the construction's own, the unroutable node whenever one
/// exists, or `CostOverflow` only when the improved solution is complete
/// and its total leaves the `i64` range.
pub open spec fn solved(
    m: &Model,
    construct: Construct,
    improve: Improve,
    r: Result<Solution, SolveError>,
) -> bool {
    &&& (r matches Ok(s) ==> exists|f: Seq<Vec<NodeId>>|
        construct::constructed(m, construct) == Ok::<Seq<Seq<NodeId>>, SolveError>(
            order::views(f),
        ) && descent::improved_from(m, f, s.routes@) && (improve is Gls ==> gls::beats_a_hill_climb(
            m,
            f,
            s.routes@,
        )) && gls_result(m, f, improve, s.routes@))
    &&& (construct::constructed(m, construct) matches Err(e) ==> r == Err::<Solution, SolveError>(e))
    &&& (r matches Err(e) ==> e == SolveError::CostOverflow || construct::constructed(m, construct)
        == Err::<Seq<Seq<NodeId>>, SolveError>(e))
    &&& (r matches Ok(s) ==> complete(m, s.routes@) && routes_cost(
        m,
        s.routes@,
        s.routes@.len(),
    ) == Some(s.cost as int))
    &&& (improve == Improve::HillClimb ==> (r matches Ok(s) ==> descent::true_local_optimum(
        m,
        s.routes@,
    )))
    &&& (r matches Err(SolveError::CostOverflow) ==> exists|f: Seq<Vec<NodeId>>, s: Seq<Vec<NodeId>>|
        construct::constructed(m, construct) == Ok::<Seq<Seq<NodeId>>, SolveError>(order::views(f))
            && descent::improved_from(m, f, s) && (improve is Gls ==> gls::beats_a_hill_climb(m, f, s))
            && gls_result(m, f, improve, s)
            && (improve == Improve::HillClimb ==> descent::true_local_optimum(m, s)) && complete(m, s)
            && routes_cost(m, s, s.len()) is None)
    &&& (r matches Err(SolveError::Unroutable(x)) ==> unroutable(m, x))
    &&& (any_unroutable(m) ==> r matches Err(SolveError::Unroutable(_)))
}

/// What a solve reports: `FirstSolution` with the constructed solution's
/// cost `first`, then what the improvement reports, ending in `Done` with
/// the final cost `fin`.
pub open spec fn solve_events(
    m: &Model,
    f: Seq<Vec<NodeId>>,
    improve: Improve,
    t: Seq<SearchEvent>,
    fin: int,
) -> bool {
    &&& t.len() >= 1
    &&& t[0] == SearchEvent::FirstSolution { cost: clamp_spec(total(m, f)) as i64 }
    &&& (improve == Improve::HillClimb ==> descent_events(t.skip(1), fin))
    &&& (improve matches Improve::Gls { iters } ==> exists|h: Seq<Vec<NodeId>>|
        descent::improved_from(m, f, h) && descent::true_local_optimum(m, h) && gls::gls_events(
            t.skip(1),
            iters as int,
            total(m, h),
            fin,
        ))
}

/// `solve` with an observer for search progress. The callback runs on the
/// solver thread; keep it cheap or it becomes part of the measured time.
pub fn solve_with<L: FnMut(SearchEvent)>(
    m: &Model,
    construct: Construct,
    improve: Improve,
    mut log: L,
) -> (r: Result<Solution, SolveError>)
    requires
        m.wf(),
        construct::constructed(m, construct) is Ok,
        forall|x: SearchEvent| call_requires(log, (x,)),
    ensures
        solved(m, construct, improve, r),
        r matches Err(e) ==> e == SolveError::CostOverflow,
        r matches Ok(s) ==> exists|f: Seq<Vec<NodeId>>, t: Seq<SearchEvent>|
            construct::constructed(m, construct) == Ok::<Seq<Seq<NodeId>>, SolveError>(order::views(f))
                && handed(log, t) && solve_events(m, f, improve, t, total(m, s.routes@)),
{
    let mut trace: Vec<SearchEvent> = Vec::new();
    run_solve(m, construct, improve, &mut log, &mut trace)
}

/// `solve`, its events appended to `trace`, in the order they happen:
/// `FirstSolution` with the constructed solution's cost, then the
/// improvement's events, `Done` last with the final cost.
pub fn solve_traced(
    m: &Model,
    construct: Construct,
    improve: Improve,
    trace: &mut Vec<SearchEvent>,
) -> (r: Result<Solution, SolveError>)
    requires
        m.wf(),
        construct::constructed(m, construct) is Ok,
    ensures
        solved(m, construct, improve, r),
        r matches Err(e) ==> e == SolveError::CostOverflow,
        r matches Ok(s) ==> exists|f: Seq<Vec<NodeId>>, t: Seq<SearchEvent>|
            construct::constructed(m, construct) == Ok::<Seq<Seq<NodeId>>, SolveError>(order::views(f))
                && final(trace)@ == old(trace)@ + t && solve_events(m, f, improve, t, total(m, s.routes@)),
{
    let mut quiet = |_e: SearchEvent| {};
    let mut local: Vec<SearchEvent> = Vec::new();
    let r = run_solve(m, construct, improve, &mut quiet, &mut local);
    trace.append(&mut local);
    r
}

/// The solve, with the observer borrowed and the events recorded in
/// `trace`.
fn run_solve<L: FnMut(SearchEvent)>(
    m: &Model,
    construct: Construct,
    improve: Improve,
    log: &mut L,
    trace: &mut Vec<SearchEvent>,
) -> (r: Result<Solution, SolveError>)
    requires
        m.wf(),
        forall|x: SearchEvent| call_requires(*old(log), (x,)),
        old(trace)@.len() == 0,
    ensures
        *final(log) == *old(log),
        solved(m, construct, improve, r),
        handed(*old(log), final(trace)@),
        r matches Ok(s) ==> exists|f: Seq<Vec<NodeId>>|
            construct::constructed(m, construct) == Ok::<Seq<Seq<NodeId>>, SolveError>(order::views(f))
                && solve_events(m, f, improve, final(trace)@, total(m, s.routes@)),
{
    let mut first_trace: Vec<SearchEvent> = Vec::new();
    let mut sol = match construct::first_solution(m, construct, log, &mut first_trace) {
        Ok(s) => s,
        Err(e) => return Err(e),
    };
    let ghost s0 = sol@;
    let mut rest: Vec<SearchEvent> = Vec::new();
    assert(construct::constructed(m, construct) == Ok::<Seq<Seq<NodeId>>, SolveError>(order::views(s0)));
    match improve {
        Improve::HillClimb => descent::hill_climb(m, &mut sol, log, &mut rest),
        Improve::Gls { iters } => gls::guided(m, &mut sol, iters, log, &mut rest),
    }
    proof {
        assert(sol_ms(sol@) == sol_ms(s0));
        assert forall|i: int| 0 <= i < sol@.len() implies crate::eval::route_input(
            m,
            (#[trigger] sol@[i])@,
            VehicleId(i as u32),
        ) by {
            assert(crate::eval::route_valid(m, sol@[i]@));
        }
    }
    assert(!any_unroutable(m));
    assert(solution_ok(m, sol@));
    assert(visits_all_spec(m, sol@)) by {
        assert forall|x: NodeId| m.valid_node(x) implies #[trigger] occ(sol@, x) == if m.is_terminal_spec(
            x,
        ) {
            0nat
        } else {
            1nat
        } by {
            assert(occ(s0, x) == occ(sol@, x));
        }
    }
    let ghost ft = first_trace@;
    let ghost rt = rest@;
    trace.append(&mut first_trace);
    trace.append(&mut rest);
    proof {
        let t = trace@;
        assert(t =~= ft + rt);
        assert(ft == seq![SearchEvent::FirstSolution { cost: clamp_spec(total(m, s0)) as i64 }]);
        assert(t.skip(1) =~= rt);
        assert forall|k: int| 0 <= k < t.len() implies call_ensures(*old(log), (#[trigger] t[k],), ()) by {
            if k < 1 {
                assert(t[k] == ft[k]);
            } else {
                assert(t[k] == rt[k - 1]);
            }
        }
        assert(handed(*old(log), t));
        assert(solve_events(m, s0, improve, t, total(m, sol@)));
    }
    match eval_routes(m, &sol) {
        Some(cost) => Ok(Solution { routes: sol, cost }),
        None => Err(SolveError::CostOverflow),
    }
}

/// Nodes not declared droppable are never left unserved: in any solution,
/// every node on the drop sink's route is one the sink allows.
pub proof fn lemma_unserved_nodes_are_droppable(m: &Model, sol: Seq<Vec<NodeId>>, s: VehicleId, i: int)
    requires
        solution_ok(m, sol),
        m.sink() == Some(s),
        0 <= i < sol[s.0 as int]@.len(),
    ensures
        !m.fleet()[s.0 as int].forbids_spec(sol[s.0 as int]@[i]),
{
    assert(VehicleId(s.0 as int as u32) == s);
    assert(cost_spec(m, sol[s.0 as int]@, VehicleId(s.0 as int as u32)) is Some);
    if m.fleet()[s.0 as int].forbids_spec(sol[s.0 as int]@[i]) {
        crate::eval::lemma_forbidden_is_infeasible(m, sol[s.0 as int]@, s, i);
    }
}

} // verus!
