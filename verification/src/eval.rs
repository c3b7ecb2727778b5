use vstd::multiset::Multiset;
use vstd::prelude::*;

use crate::model::{Dimension, Model, Vehicle};
use crate::types::{Cost, NodeId, VehicleId, add_checked, fits, opt_int};

verus! {

broadcast use {vstd::seq_lib::group_to_multiset_ensures, vstd::multiset::group_multiset_axioms};

/// Routes indexed by vehicle. Each holds the visits *between* the vehicle's
/// start and end nodes, terminals excluded.
pub type Routes = Vec<Vec<NodeId>>;

/// One priced thing of a forward pass: `(node, units, cost)`, a soft bound
/// exceeded or a priced wait at `node`, or `None` for the vehicle's peak.
pub type Priced = (Option<NodeId>, i64, i64);

/// One stop of a forward pass: `(node, arrive, cumul)`. `cumul - arrive` is
/// the wait; at the start both are the departure.
pub type Visit = (NodeId, i64, i64);

/// State of a forward pass over one dimension. `ok` turns false for good
/// once a hard bound breaks, or once a value leaves the `i64` range.
pub struct Walk {
    pub ok: bool,
    pub cumul: i64,
    pub peak: i64,
    pub events: Seq<Priced>,
    pub visits: Seq<Visit>,
}

/// Stop `k` of `route` on `veh`: the visits, then the end node.
pub open spec fn stop_of(route: Seq<NodeId>, veh: Vehicle, k: int) -> NodeId {
    if k < route.len() {
        route[k]
    } else {
        veh.end
    }
}

/// The node left to reach stop `k`.
pub open spec fn prev_of(route: Seq<NodeId>, veh: Vehicle, k: int) -> NodeId {
    if k == 0 {
        veh.start
    } else {
        route[k - 1]
    }
}

/// All nodes of `route` exist in `m`.
pub open spec fn route_valid(m: &Model, route: Seq<NodeId>) -> bool {
    forall|i: int| 0 <= i < route.len() ==> m.valid_node(#[trigger] route[i])
}

/// The pass at the start node: the cumul is the start's lower bound.
pub open spec fn walk_start(d: Dimension, veh: Vehicle, v: VehicleId) -> Walk {
    let c = d.lower_bound@[veh.start.0 as int];
    let ok = c <= d.max_cumul@[v.0 as int];
    Walk {
        ok,
        cumul: c,
        peak: c,
        events: Seq::empty(),
        visits: if ok {
            seq![(veh.start, c, c)]
        } else {
            Seq::empty()
        },
    }
}

/// One arc of the pass, from `prev` into `node`. Late is infeasible before
/// the clamp to the lower bound; early waits via the clamp.
pub open spec fn walk_step(
    m: &Model,
    d: Dimension,
    v: VehicleId,
    s: Walk,
    prev: NodeId,
    node: NodeId,
) -> Walk {
    let ni = node.0 as int;
    let vi = v.0 as int;
    let arrive = s.cumul + m.arc_spec(d.transit as int, prev, node);
    if !fits(arrive) || arrive > d.upper_bound@[ni] {
        Walk { ok: false, ..s }
    } else {
        let late = arrive > d.soft_upper_bound@[ni];
        let late_units = arrive - d.soft_upper_bound@[ni];
        let late_cost = late_units * d.soft_upper_bound_cost@[ni];
        if late && !(fits(late_units) && fits(late_cost)) {
            Walk { ok: false, ..s }
        } else {
            let ev1 = if late {
                s.events.push((Some(node), late_units as i64, late_cost as i64))
            } else {
                s.events
            };
            let cumul = if arrive >= d.lower_bound@[ni] {
                arrive
            } else {
                d.lower_bound@[ni] as int
            };
            let wait = cumul - arrive;
            if cumul > d.max_cumul@[vi] || !fits(wait) || wait > d.max_wait@[vi] || wait
                > d.max_wait_at@[ni] {
                Walk { ok: false, events: ev1, ..s }
            } else {
                let wc = d.wait_cost@[vi];
                let priced = wc > 0 && wait > 0;
                let wait_cost = wait * wc;
                if priced && !fits(wait_cost) {
                    Walk { ok: false, events: ev1, ..s }
                } else {
                    Walk {
                        ok: true,
                        cumul: cumul as i64,
                        peak: if cumul > s.peak {
                            cumul as i64
                        } else {
                            s.peak
                        },
                        events: if priced {
                            ev1.push((Some(node), wait as i64, wait_cost as i64))
                        } else {
                            ev1
                        },
                        visits: s.visits.push((node, arrive as i64, cumul as i64)),
                    }
                }
            }
        }
    }
}

/// The pass after its first `k` stops.
pub open spec fn walk_upto(m: &Model, d: Dimension, route: Seq<NodeId>, v: VehicleId, k: nat) -> Walk
    decreases k,
{
    let veh = m.fleet()[v.0 as int];
    if k == 0 {
        walk_start(d, veh, v)
    } else {
        let s = walk_upto(m, d, route, v, (k - 1) as nat);
        if !s.ok {
            s
        } else {
            walk_step(m, d, v, s, prev_of(route, veh, k - 1), stop_of(route, veh, k - 1))
        }
    }
}

/// The vehicle's peak above its soft cap, priced once per route.
pub open spec fn walk_finish(d: Dimension, v: VehicleId, s: Walk) -> Walk {
    let vi = v.0 as int;
    let units = s.peak - d.soft_max_cumul@[vi];
    let cost = units * d.soft_max_cumul_cost@[vi];
    if !s.ok || s.peak <= d.soft_max_cumul@[vi] {
        s
    } else if !(fits(units) && fits(cost)) {
        Walk { ok: false, ..s }
    } else {
        Walk { events: s.events.push((None, units as i64, cost as i64)), ..s }
    }
}

/// Forward pass of `route` on vehicle `v` over dimension `d`: every stop,
/// start and end included, and every priced unit, up to the first broken
/// hard bound.
pub open spec fn walk_spec(m: &Model, d: Dimension, route: Seq<NodeId>, v: VehicleId) -> Walk {
    walk_finish(d, v, walk_upto(m, d, route, v, route.len() + 1))
}

proof fn lemma_walk_frozen(
    m: &Model,
    d: Dimension,
    route: Seq<NodeId>,
    v: VehicleId,
    k1: nat,
    k2: nat,
)
    requires
        k1 <= k2,
        !walk_upto(m, d, route, v, k1).ok,
    ensures
        walk_upto(m, d, route, v, k2) == walk_upto(m, d, route, v, k1),
    decreases k2,
{
    if k2 > k1 {
        lemma_walk_frozen(m, d, route, v, k1, (k2 - 1) as nat);
    }
}

/// Running total of the priced units, `None` once it leaves `i64`.
pub open spec fn fold_pens(acc: Option<int>, evs: Seq<Priced>) -> Option<int>
    decreases evs.len(),
{
    if evs.len() == 0 {
        acc
    } else {
        add_checked(fold_pens(acc, evs.drop_last()), evs.last().2 as int)
    }
}

/// Every dimension among the first `k` admits the route.
pub open spec fn dims_ok(m: &Model, route: Seq<NodeId>, v: VehicleId, k: int) -> bool {
    forall|i: int| 0 <= i < k ==> (#[trigger] walk_spec(m, m.dims()[i], route, v)).ok
}

/// Soft penalties of the first `k` dimensions, summed in order.
pub open spec fn dims_soft(m: &Model, route: Seq<NodeId>, v: VehicleId, k: nat) -> Option<int>
    decreases k,
{
    if k == 0 {
        Some(0)
    } else {
        fold_pens(
            dims_soft(m, route, v, (k - 1) as nat),
            walk_spec(m, m.dims()[k - 1], route, v).events,
        )
    }
}

/// Arc cost of the first `k` arcs of `route` on `v`.
pub open spec fn arcs_upto(m: &Model, route: Seq<NodeId>, v: VehicleId, k: nat) -> Option<int>
    decreases k,
{
    let veh = m.fleet()[v.0 as int];
    if k == 0 {
        Some(0)
    } else {
        add_checked(
            arcs_upto(m, route, v, (k - 1) as nat),
            m.arc_spec(veh.cost_class as int, prev_of(route, veh, k - 1), stop_of(route, veh, k - 1)),
        )
    }
}

/// Arc cost of `route` on `v`, start to end.
pub open spec fn route_arcs(m: &Model, route: Seq<NodeId>, v: VehicleId) -> Option<int> {
    arcs_upto(m, route, v, route.len() + 1)
}

/// Some node of `route` is forbidden on `v`.
pub open spec fn route_forbidden(m: &Model, route: Seq<NodeId>, v: VehicleId) -> bool {
    exists|i: int| 0 <= i < route.len() && m.fleet()[v.0 as int].forbids_spec(#[trigger] route[i])
}

/// No node of `route` comes after one of its own successors.
pub open spec fn precedence_ok(m: &Model, route: Seq<NodeId>) -> bool {
    forall|i: int, j: int|
        0 <= j < i < route.len() ==> !(#[trigger] m.succ(route[i])).contains(#[trigger] route[j])
}

/// Arc cost and soft penalty of `route` on `v`, or `None` if it is
/// infeasible. An empty route is free; the drop sink ignores windows,
/// dimensions and orderings.
pub open spec fn split_spec(m: &Model, route: Seq<NodeId>, v: VehicleId) -> Option<(int, int)> {
    if route.len() == 0 {
        Some((0, 0))
    } else if route_forbidden(m, route, v) {
        None
    } else if m.sink() == Some(v) {
        match route_arcs(m, route, v) {
            Some(a) => Some((a, 0)),
            None => None,
        }
    } else if !precedence_ok(m, route) || !dims_ok(m, route, v, m.dims().len() as int) {
        None
    } else {
        match (dims_soft(m, route, v, m.dims().len()), route_arcs(m, route, v)) {
            (Some(s), Some(a)) => Some((a, s)),
            _ => None,
        }
    }
}

/// Total cost of `route` on `v`, or `None` if it is infeasible.
pub open spec fn cost_spec(m: &Model, route: Seq<NodeId>, v: VehicleId) -> Option<int> {
    match split_spec(m, route, v) {
        Some((a, s)) => if fits(a + s) {
            Some(a + s)
        } else {
            None
        },
        None => None,
    }
}

/// What `eval_route` may be asked about: known nodes, and a known vehicle
/// unless the route is empty.
pub open spec fn route_input(m: &Model, route: Seq<NodeId>, v: VehicleId) -> bool {
    &&& m.wf()
    &&& route_valid(m, route)
    &&& (route.len() > 0 ==> m.valid_vehicle(v))
}

/// One step of the forward pass, on the executable state.
fn walk_step_exec(
    m: &Model,
    di: usize,
    v: VehicleId,
    cumul: i64,
    peak: i64,
    prev: NodeId,
    node: NodeId,
    events: &mut Vec<Priced>,
    visits: &mut Vec<Visit>,
) -> (r: Option<(i64, i64)>)
    requires
        m.wf(),
        di < m.dims().len(),
        m.valid_vehicle(v),
        m.valid_node(prev),
        m.valid_node(node),
    ensures
        ({
            let s = Walk { ok: true, cumul, peak, events: old(events)@, visits: old(visits)@ };
            let s2 = walk_step(m, m.dims()[di as int], v, s, prev, node);
            &&& s2.ok == r.is_some()
            &&& (r matches Some((c, p)) ==> c == s2.cumul && p == s2.peak)
            &&& final(events)@ == s2.events
            &&& final(visits)@ == s2.visits
        }),
{
    let d = &m.dimensions()[di];
    assert(d.wf(m.n(), m.fleet().len(), m.class_count()));
    let ni = node.index();
    let vi = v.index();
    let t = m.eval(d.transit, prev, node);
    let arrive = match cumul.checked_add(t) {
        Some(a) => a,
        None => return None,
    };
    if arrive > d.upper_bound[ni] {
        return None;
    }
    let sub = d.soft_upper_bound[ni];
    if arrive > sub {
        let units = match arrive.checked_sub(sub) {
            Some(u) => u,
            None => return None,
        };
        let cost = match units.checked_mul(d.soft_upper_bound_cost[ni]) {
            Some(c) => c,
            None => return None,
        };
        events.push((Some(node), units, cost));
    }
    let lb = d.lower_bound[ni];
    let c = if arrive >= lb {
        arrive
    } else {
        lb
    };
    if c > d.max_cumul[vi] {
        return None;
    }
    let wait = match c.checked_sub(arrive) {
        Some(w) => w,
        None => return None,
    };
    if wait > d.max_wait[vi] || wait > d.max_wait_at[ni] {
        return None;
    }
    let wc = d.wait_cost[vi];
    if wc > 0 && wait > 0 {
        let cost = match wait.checked_mul(wc) {
            Some(x) => x,
            None => return None,
        };
        events.push((Some(node), wait, cost));
    }
    visits.push((node, arrive, c));
    let p = if c > peak {
        c
    } else {
        peak
    };
    Some((c, p))
}

/// Forward pass of `route` on vehicle `v` over dimension `di`: whether it
/// holds, what it priced, and every stop it reached.
fn walk(m: &Model, di: usize, route: &[NodeId], v: VehicleId) -> (r: (
    bool,
    Vec<Priced>,
    Vec<Visit>,
))
    requires
        m.wf(),
        di < m.dims().len(),
        m.valid_vehicle(v),
        route_valid(m, route@),
    ensures
        ({
            let w = walk_spec(m, m.dims()[di as int], route@, v);
            &&& r.0 == w.ok
            &&& r.1@ == w.events
            &&& r.2@ == w.visits
        }),
{
    let ghost d = m.dims()[di as int];
    let dref = &m.dimensions()[di];
    assert(dref.wf(m.n(), m.fleet().len(), m.class_count()));
    let veh = m.vehicle(v);
    let vi = v.index();
    let mut events: Vec<Priced> = Vec::new();
    let mut visits: Vec<Visit> = Vec::new();
    let mut cumul = dref.lower_bound[veh.start.index()];
    if cumul > dref.max_cumul[vi] {
        proof {
            lemma_walk_frozen(m, d, route@, v, 0, route@.len() + 1);
        }
        return (false, events, visits);
    }
    visits.push((veh.start, cumul, cumul));
    let mut peak = cumul;
    let mut prev = veh.start;
    let mut k: usize = 0;
    proof {
        assert(visits@ =~= seq![(veh.start, cumul, cumul)]);
    }
    while k < route.len()
        invariant
            m.wf(),
            di < m.dims().len(),
            d == m.dims()[di as int],
            m.valid_vehicle(v),
            *veh == m.fleet()[v.0 as int],
            route_valid(m, route@),
            k <= route@.len(),
            prev == prev_of(route@, *veh, k as int),
            m.valid_node(prev),
            ({
                let s = walk_upto(m, d, route@, v, k as nat);
                &&& s.ok
                &&& s.cumul == cumul
                &&& s.peak == peak
                &&& s.events == events@
                &&& s.visits == visits@
            }),
        decreases route@.len() - k,
    {
        let node = route[k];
        let r = walk_step_exec(m, di, v, cumul, peak, prev, node, &mut events, &mut visits);
        match r {
            Some((c, p)) => {
                cumul = c;
                peak = p;
            },
            None => {
                proof {
                    lemma_walk_frozen(m, d, route@, v, (k + 1) as nat, route@.len() + 1);
                }
                return (false, events, visits);
            },
        }
        prev = node;
        k += 1;
    }
    let r = walk_step_exec(m, di, v, cumul, peak, prev, veh.end, &mut events, &mut visits);
    match r {
        Some((c, p)) => {
            cumul = c;
            peak = p;
        },
        None => {
            return (false, events, visits);
        },
    }
    let smc = dref.soft_max_cumul[vi];
    if peak > smc {
        let units = match peak.checked_sub(smc) {
            Some(u) => u,
            None => return (false, events, visits),
        };
        let cost = match units.checked_mul(dref.soft_max_cumul_cost[vi]) {
            Some(c) => c,
            None => return (false, events, visits),
        };
        events.push((None, units, cost));
    }
    (true, events, visits)
}


/// `route` holds `s` somewhere before position `i`.
fn seen_before(route: &[NodeId], i: usize, s: NodeId) -> (r: bool)
    requires
        i <= route@.len(),
    ensures
        r == exists|j: int| 0 <= j < i && route@[j] == s,
{
    let mut j: usize = 0;
    while j < i
        invariant
            j <= i,
            i <= route@.len(),
            forall|q: int| 0 <= q < j ==> route@[q] != s,
        decreases i - j,
    {
        if route[j] == s {
            return true;
        }
        j += 1;
    }
    false
}

/// No node of `route` comes after one of its own successors.
fn precedence_holds(m: &Model, route: &[NodeId]) -> (r: bool)
    ensures
        r == precedence_ok(m, route@),
{
    let mut i: usize = 0;
    while i < route.len()
        invariant
            i <= route@.len(),
            forall|a: int, j: int|
                0 <= j < a < i ==> !(#[trigger] m.succ(route@[a])).contains(#[trigger] route@[j]),
        decreases route@.len() - i,
    {
        let succ = m.successors(route[i]);
        let mut q: usize = 0;
        while q < succ.len()
            invariant
                i < route@.len(),
                succ@ == m.succ(route@[i as int]),
                q <= succ@.len(),
                forall|p: int, j: int| 0 <= p < q && 0 <= j < i ==> succ@[p] != route@[j],
            decreases succ@.len() - q,
        {
            if seen_before(route, i, succ[q]) {
                proof {
                    let j = choose|j: int| 0 <= j < i && route@[j] == succ@[q as int];
                    assert(m.succ(route@[i as int]).contains(route@[j]));
                }
                return false;
            }
            q += 1;
        }
        proof {
            assert forall|a: int, j: int| 0 <= j < a < i + 1 implies !(#[trigger] m.succ(
                route@[a],
            )).contains(#[trigger] route@[j]) by {
                if a == i && m.succ(route@[a]).contains(route@[j]) {
                    let p = choose|p: int| 0 <= p < succ@.len() && succ@[p] == route@[j];
                }
            }
        }
        i += 1;
    }
    true
}

/// Some node of `route` is forbidden on `v`.
fn any_forbidden(m: &Model, route: &[NodeId], v: VehicleId) -> (r: bool)
    requires
        m.valid_vehicle(v),
    ensures
        r == route_forbidden(m, route@, v),
{
    let veh = m.vehicle(v);
    // The early-out keeps an unrestricted vehicle at one branch per call.
    if veh.forbidden.len() == 0 {
        return false;
    }
    let mut i: usize = 0;
    while i < route.len()
        invariant
            *veh == m.fleet()[v.0 as int],
            i <= route@.len(),
            forall|j: int| 0 <= j < i ==> !veh.forbids_spec(#[trigger] route@[j]),
        decreases route@.len() - i,
    {
        if veh.forbids(route[i]) {
            return true;
        }
        i += 1;
    }
    false
}

proof fn lemma_fold_step(acc: Option<int>, evs: Seq<Priced>, j: int)
    requires
        0 <= j < evs.len(),
    ensures
        fold_pens(acc, evs.take(j + 1)) == add_checked(fold_pens(acc, evs.take(j)), evs[j].2 as int),
{
    assert(evs.take(j + 1).drop_last() =~= evs.take(j));
}

/// `acc` plus every cost in `evs`, `None` once it leaves `i64`.
fn sum_pens(acc: Option<i64>, evs: &Vec<Priced>) -> (r: Option<i64>)
    ensures
        opt_int(r) == fold_pens(opt_int(acc), evs@),
{
    let mut s = acc;
    let mut j: usize = 0;
    while j < evs.len()
        invariant
            j <= evs@.len(),
            opt_int(s) == fold_pens(opt_int(acc), evs@.take(j as int)),
        decreases evs@.len() - j,
    {
        proof {
            lemma_fold_step(opt_int(acc), evs@, j as int);
        }
        s = match s {
            Some(x) => x.checked_add(evs[j].2),
            None => None,
        };
        j += 1;
    }
    proof {
        assert(evs@.take(evs@.len() as int) =~= evs@);
    }
    s
}

/// Arc cost of `route` on `v`, start to end, `None` once it leaves `i64`.
fn arcs_of(m: &Model, route: &[NodeId], v: VehicleId) -> (r: Option<i64>)
    requires
        m.wf(),
        m.valid_vehicle(v),
        route_valid(m, route@),
    ensures
        opt_int(r) == route_arcs(m, route@, v),
{
    let veh = m.vehicle(v);
    let mut cost: i64 = 0;
    let mut prev = veh.start;
    let mut k: usize = 0;
    while k < route.len()
        invariant
            m.wf(),
            *veh == m.fleet()[v.0 as int],
            m.valid_vehicle(v),
            route_valid(m, route@),
            k <= route@.len(),
            prev == prev_of(route@, *veh, k as int),
            m.valid_node(prev),
            arcs_upto(m, route@, v, k as nat) == Some(cost as int),
        decreases route@.len() - k,
    {
        let node = route[k];
        let a = m.eval(veh.cost_class, prev, node);
        cost = match cost.checked_add(a) {
            Some(c) => c,
            None => {
                proof {
                    lemma_arcs_frozen(m, route@, v, (k + 1) as nat, route@.len() + 1);
                }
                return None;
            },
        };
        prev = node;
        k += 1;
    }
    let a = m.eval(veh.cost_class, prev, veh.end);
    cost.checked_add(a)
}

proof fn lemma_arcs_frozen(m: &Model, route: Seq<NodeId>, v: VehicleId, k1: nat, k2: nat)
    requires
        k1 <= k2,
        arcs_upto(m, route, v, k1) is None,
    ensures
        arcs_upto(m, route, v, k2) is None,
    decreases k2,
{
    if k2 > k1 {
        lemma_arcs_frozen(m, route, v, k1, (k2 - 1) as nat);
    }
}

/// `eval_route` with the arc cost and the soft-bound penalty kept apart.
pub fn eval_route_split(m: &Model, route: &[NodeId], v: VehicleId) -> (r: Option<(Cost, Cost)>)
    requires
        route_input(m, route@, v),
    ensures
        r matches Some((a, s)) ==> split_spec(m, route@, v) == Some((a as int, s as int)),
        r is None <==> split_spec(m, route@, v) is None,
{
    // An unused vehicle is free, it never leaves the depot.
    if route.len() == 0 {
        return Some((0, 0));
    }
    if any_forbidden(m, route, v) {
        return None;
    }
    let mut soft: Option<i64> = Some(0);
    let is_sink = match m.unserved_vehicle() {
        Some(u) => u == v,
        None => false,
    };
    // A dropped node's window or ordering must not block dropping it.
    if !is_sink {
        if m.has_precedence() && !precedence_holds(m, route) {
            return None;
        }
        proof {
            if !m.has_prec() {
                assert forall|i: int, j: int| 0 <= j < i < route@.len() implies !(
                #[trigger] m.succ(route@[i])).contains(#[trigger] route@[j]) by {
                    assert(m.succ(route@[i]).len() == 0);
                }
            }
        }
        let nd = m.dimensions().len();
        let mut di: usize = 0;
        while di < nd
            invariant
                route_input(m, route@, v),
                route@.len() > 0,
                m.sink() != Some(v),
                nd == m.dims().len(),
                di <= nd,
                dims_ok(m, route@, v, di as int),
                opt_int(soft) == dims_soft(m, route@, v, di as nat),
            decreases nd - di,
        {
            let (ok, events, _visits) = walk(m, di, route, v);
            if !ok {
                proof {
                    assert(!walk_spec(m, m.dims()[di as int], route@, v).ok);
                    assert(!dims_ok(m, route@, v, nd as int));
                }
                return None;
            }
            soft = sum_pens(soft, &events);
            di += 1;
        }
    }
    let arcs = arcs_of(m, route, v);
    match (soft, arcs) {
        (Some(s), Some(a)) => {
            if is_sink {
                Some((a, 0))
            } else {
                Some((a, s))
            }
        },
        _ => None,
    }
}

/// Cost of running `route` on vehicle `v`, or `None` if it is infeasible.
///
/// The central primitive: construction and every operator route through
/// here. Always true cost: guided local search layers its penalties on top.
/// A route whose cost leaves the `i64` range counts as infeasible.
pub fn eval_route(m: &Model, route: &[NodeId], v: VehicleId) -> (r: Option<Cost>)
    requires
        route_input(m, route@, v),
    ensures
        opt_int(r) == cost_spec(m, route@, v),
{
    match eval_route_split(m, route, v) {
        Some((a, s)) => a.checked_add(s),
        None => None,
    }
}

/// What `eval_routes` may be asked about: every route a valid input for the
/// vehicle of its index.
pub open spec fn sol_input(m: &Model, sol: Seq<Vec<NodeId>>) -> bool {
    &&& m.wf()
    &&& sol.len() <= u32::MAX as nat + 1
    &&& forall|i: int| 0 <= i < sol.len() ==> route_input(m, (#[trigger] sol[i])@, VehicleId(i as u32))
}

/// Total cost of the first `k` routes, `None` if any is infeasible or the
/// sum leaves `i64`.
pub open spec fn routes_cost(m: &Model, sol: Seq<Vec<NodeId>>, k: nat) -> Option<int>
    decreases k,
{
    if k == 0 {
        Some(0)
    } else {
        match (
            routes_cost(m, sol, (k - 1) as nat),
            cost_spec(m, sol[k - 1]@, VehicleId((k - 1) as u32)),
        ) {
            (Some(a), Some(c)) => if fits(a + c) {
                Some(a + c)
            } else {
                None
            },
            _ => None,
        }
    }
}

proof fn lemma_routes_cost_frozen(m: &Model, sol: Seq<Vec<NodeId>>, k1: nat, k2: nat)
    requires
        k1 <= k2,
        routes_cost(m, sol, k1) is None,
    ensures
        routes_cost(m, sol, k2) is None,
    decreases k2,
{
    if k2 > k1 {
        lemma_routes_cost_frozen(m, sol, k1, (k2 - 1) as nat);
    }
}

/// True cost of every route, or `None` if any is infeasible.
pub fn eval_routes(m: &Model, sol: &Routes) -> (r: Option<Cost>)
    requires
        sol_input(m, sol@),
    ensures
        opt_int(r) == routes_cost(m, sol@, sol@.len()),
{
    let mut acc: i64 = 0;
    let mut v: usize = 0;
    while v < sol.len()
        invariant
            sol_input(m, sol@),
            v <= sol@.len(),
            routes_cost(m, sol@, v as nat) == Some(acc as int),
        decreases sol@.len() - v,
    {
        proof {
            assert(route_input(m, sol@[v as int]@, VehicleId(v as u32)));
        }
        let c = eval_route(m, sol[v].as_slice(), VehicleId(v as u32));
        match c {
            Some(c) => {
                match acc.checked_add(c) {
                    Some(a) => acc = a,
                    None => {
                        proof {
                            lemma_routes_cost_frozen(m, sol@, (v + 1) as nat, sol@.len());
                        }
                        return None;
                    },
                }
            },
            None => {
                proof {
                    lemma_routes_cost_frozen(m, sol@, (v + 1) as nat, sol@.len());
                }
                return None;
            },
        }
        v += 1;
    }
    Some(acc)
}

/// Every node of `sol`, with its multiplicity.
pub open spec fn sol_ms(sol: Seq<Vec<NodeId>>) -> Multiset<NodeId>
    decreases sol.len(),
{
    if sol.len() == 0 {
        Multiset::empty()
    } else {
        sol_ms(sol.drop_last()).add(sol.last()@.to_multiset())
    }
}

/// Replacing route `i` by `x` trades its nodes for those of `x`.
pub proof fn lemma_sol_ms_update(sol: Seq<Vec<NodeId>>, i: int, x: Vec<NodeId>)
    requires
        0 <= i < sol.len(),
    ensures
        sol_ms(sol.update(i, x)).add(sol[i]@.to_multiset()) =~= sol_ms(sol).add(x@.to_multiset()),
    decreases sol.len(),
{
    let s2 = sol.update(i, x);
    let ri = sol[i]@.to_multiset();
    let xm = x@.to_multiset();
    if i == sol.len() - 1 {
        assert(s2.drop_last() =~= sol.drop_last());
        assert(s2.last() == x);
        let a = sol_ms(sol.drop_last());
        assert(sol_ms(s2) == a.add(xm));
        assert(sol_ms(sol) == a.add(ri));
        assert forall|y: NodeId| #[trigger] sol_ms(s2).add(ri).count(y) == sol_ms(sol).add(xm).count(y) by {
            assert(sol_ms(s2).count(y) == a.count(y) + xm.count(y));
            assert(sol_ms(sol).count(y) == a.count(y) + ri.count(y));
        }
    } else {
        lemma_sol_ms_update(sol.drop_last(), i, x);
        assert(s2.drop_last() =~= sol.drop_last().update(i, x));
        assert(s2.last() == sol.last());
        let a2 = sol_ms(sol.drop_last().update(i, x));
        let a = sol_ms(sol.drop_last());
        let l = sol.last()@.to_multiset();
        assert(sol_ms(s2) == a2.add(l));
        assert(sol_ms(sol) == a.add(l));
        assert(sol.drop_last()[i] == sol[i]);
        assert forall|y: NodeId| #[trigger] sol_ms(s2).add(ri).count(y) == sol_ms(sol).add(xm).count(y) by {
            assert(a2.add(ri).count(y) == a.add(xm).count(y));
            assert(sol_ms(s2).count(y) == a2.count(y) + l.count(y));
            assert(sol_ms(sol).count(y) == a.count(y) + l.count(y));
        }
    }
}

/// How many times `x` occurs across all routes of `sol`.
pub open spec fn occ(sol: Seq<Vec<NodeId>>, x: NodeId) -> nat {
    sol_ms(sol).count(x)
}

/// Every stop of `routes`, route after route.
pub open spec fn flat(routes: Seq<Vec<NodeId>>) -> Seq<NodeId>
    decreases routes.len(),
{
    if routes.len() == 0 {
        Seq::empty()
    } else {
        flat(routes.drop_last()) + routes.last()@
    }
}

/// Every non-terminal node visited exactly once, terminals never.
pub open spec fn visits_all_spec(m: &Model, sol: Seq<Vec<NodeId>>) -> bool {
    forall|x: NodeId|
        m.valid_node(x) ==> #[trigger] occ(sol, x) == if m.is_terminal_spec(x) {
            0nat
        } else {
            1nat
        }
}

/// Every node of every route exists in `m`.
pub open spec fn sol_nodes_valid(m: &Model, sol: Seq<Vec<NodeId>>) -> bool {
    forall|i: int| 0 <= i < sol.len() ==> route_valid(m, (#[trigger] sol[i])@)
}

spec fn cap2(x: nat) -> nat {
    if x < 2 {
        x
    } else {
        2
    }
}

/// Every non-terminal node visited exactly once.
pub fn visits_all_nodes(m: &Model, sol: &Routes) -> (r: bool)
    requires
        m.wf(),
        sol_nodes_valid(m, sol@),
    ensures
        r == visits_all_spec(m, sol@),
{
    let n = m.node_count();
    // Counts saturate at 2: only 0, 1 and "more" matter.
    let mut seen: Vec<u8> = Vec::new();
    let mut i: usize = 0;
    while i < n
        invariant
            i <= n,
            seen@.len() == i,
            forall|x: int| 0 <= x < i ==> seen@[x] == 0,
        decreases n - i,
    {
        seen.push(0);
        i += 1;
    }
    let mut r: usize = 0;
    while r < sol.len()
        invariant
            m.wf(),
            n == m.n(),
            sol_nodes_valid(m, sol@),
            r <= sol@.len(),
            seen@.len() == n,
            forall|x: int|
                0 <= x < n ==> #[trigger] seen@[x] as nat == cap2(occ(sol@.take(r as int), NodeId(x as u32))),
        decreases sol@.len() - r,
    {
        let route = &sol[r];
        let mut j: usize = 0;
        proof {
            assert(sol@.take(r + 1).drop_last() =~= sol@.take(r as int));
            assert(route@.take(0) =~= Seq::<NodeId>::empty());
            assert(route@.take(0).to_multiset() =~= Multiset::<NodeId>::empty());
        }
        while j < route.len()
            invariant
                m.wf(),
                n == m.n(),
                r < sol@.len(),
                *route == sol@[r as int],
                route_valid(m, route@),
                j <= route@.len(),
                seen@.len() == n,
                forall|x: int|
                    0 <= x < n ==> #[trigger] seen@[x] as nat == cap2(
                        occ(sol@.take(r as int), NodeId(x as u32)) + route@.take(
                            j as int,
                        ).to_multiset().count(NodeId(x as u32)),
                    ),
            decreases route@.len() - j,
        {
            let node = route[j];
            let x = node.index();
            assert(m.valid_node(route@[j as int]));
            let c = seen[x];
            if c < 2 {
                seen.set(x, c + 1);
            }
            proof {
                assert(route@.take(j + 1).drop_last() =~= route@.take(j as int));
                assert(route@.take(j + 1) =~= route@.take(j as int).push(node));
                assert forall|y: int| 0 <= y < n implies #[trigger] seen@[y] as nat == cap2(
                    occ(sol@.take(r as int), NodeId(y as u32)) + route@.take(
                        j + 1,
                    ).to_multiset().count(NodeId(y as u32)),
                ) by {
                    assert(NodeId(y as u32) == node <==> y == x);
                }
            }
            j += 1;
        }
        proof {
            assert(route@.take(route@.len() as int) =~= route@);
            assert(sol@.take(r + 1).last() == sol@[r as int]);
        }
        r += 1;
    }
    proof {
        assert(sol@.take(sol@.len() as int) =~= sol@);
    }
    let mut i: usize = 0;
    while i < n
        invariant
            m.wf(),
            n == m.n(),
            i <= n,
            seen@.len() == n,
            forall|x: int| 0 <= x < n ==> #[trigger] seen@[x] as nat == cap2(occ(sol@, NodeId(x as u32))),
            forall|x: int|
                0 <= x < i ==> #[trigger] occ(sol@, NodeId(x as u32)) == if m.is_terminal_spec(NodeId(x as u32)) {
                    0nat
                } else {
                    1nat
                },
        decreases n - i,
    {
        let expected: u8 = if m.is_terminal(NodeId(i as u32)) {
            0
        } else {
            1
        };
        if seen[i] != expected {
            proof {
                assert(m.valid_node(NodeId(i as u32)));
            }
            return false;
        }
        i += 1;
    }
    proof {
        assert forall|x: NodeId| m.valid_node(x) implies #[trigger] occ(sol@, x) == if m.is_terminal_spec(x) {
            0nat
        } else {
            1nat
        } by {
            assert(NodeId(x.0 as int as u32) == x);
        }
    }
    true
}

/// One priced thing: a soft bound exceeded at `node`, a priced wait at
/// `node`, or `None` for the vehicle's peak. `penalty` is what it added to
/// the cost.
#[derive(Debug, Clone, Copy, PartialEq, Eq, Structural)]
pub struct Violation {
    pub dimension: usize,
    pub vehicle: VehicleId,
    pub node: Option<NodeId>,
    pub excess: i64,
    pub penalty: Cost,
}

/// The priced events of one pass, as violations of `dimension` on `vehicle`.
pub open spec fn as_violations(dimension: usize, vehicle: VehicleId, evs: Seq<Priced>) -> Seq<Violation> {
    evs.map_values(|e: Priced| Violation { dimension, vehicle, node: e.0, excess: e.1, penalty: e.2 })
}

/// Violations of `route` on `v` over the first `k` dimensions.
pub open spec fn route_violations(m: &Model, route: Seq<NodeId>, v: VehicleId, k: nat) -> Seq<Violation>
    decreases k,
{
    if k == 0 {
        Seq::empty()
    } else {
        route_violations(m, route, v, (k - 1) as nat) + as_violations(
            (k - 1) as usize,
            v,
            walk_spec(m, m.dims()[k - 1], route, v).events,
        )
    }
}

/// Violations of the first `k` routes, the drop sink skipped.
pub open spec fn violations_spec(m: &Model, sol: Seq<Vec<NodeId>>, k: nat) -> Seq<Violation>
    decreases k,
{
    if k == 0 {
        Seq::empty()
    } else {
        let v = VehicleId((k - 1) as u32);
        violations_spec(m, sol, (k - 1) as nat) + if m.sink() == Some(v) {
            Seq::empty()
        } else {
            route_violations(m, sol[k - 1]@, v, m.dims().len())
        }
    }
}

/// Every soft bound `sol` exceeds, and what each one cost.
pub fn violations(m: &Model, sol: &Routes) -> (out: Vec<Violation>)
    requires
        m.wf(),
        sol@.len() <= m.fleet().len(),
        sol_nodes_valid(m, sol@),
    ensures
        out@ == violations_spec(m, sol@, sol@.len()),
{
    let mut out: Vec<Violation> = Vec::new();
    let mut v: usize = 0;
    while v < sol.len()
        invariant
            m.wf(),
            sol@.len() <= m.fleet().len(),
            sol_nodes_valid(m, sol@),
            v <= sol@.len(),
            out@ == violations_spec(m, sol@, v as nat),
        decreases sol@.len() - v,
    {
        let vehicle = VehicleId(v as u32);
        let skip = match m.unserved_vehicle() {
            Some(u) => u == vehicle,
            None => false,
        };
        if !skip {
            let route = sol[v].as_slice();
            assert(route_valid(m, sol@[v as int]@));
            let nd = m.dimensions().len();
            let ghost base = out@;
            let mut di: usize = 0;
            while di < nd
                invariant
                    m.wf(),
                    nd == m.dims().len(),
                    (v as int) < m.fleet().len(),
                    vehicle == VehicleId(v as u32),
                    route_valid(m, route@),
                    di <= nd,
                    out@ == base + route_violations(m, route@, vehicle, di as nat),
                decreases nd - di,
            {
                let (_ok, events, _visits) = walk(m, di, route, vehicle);
                let ghost before = out@;
                let mut j: usize = 0;
                while j < events.len()
                    invariant
                        j <= events@.len(),
                        out@ == before + as_violations(di, vehicle, events@.take(j as int)),
                    decreases events@.len() - j,
                {
                    let e = events[j];
                    out.push(
                        Violation {
                            dimension: di,
                            vehicle,
                            node: e.0,
                            excess: e.1,
                            penalty: e.2,
                        },
                    );
                    proof {
                        assert(as_violations(di, vehicle, events@.take(j + 1)) =~= as_violations(
                            di,
                            vehicle,
                            events@.take(j as int),
                        ).push(Violation { dimension: di, vehicle, node: e.0, excess: e.1, penalty: e.2 }));
                        assert(out@ =~= before + as_violations(di, vehicle, events@.take(j + 1)));
                    }
                    j += 1;
                }
                proof {
                    assert(events@.take(events@.len() as int) =~= events@);
                    assert(out@ =~= base + route_violations(m, route@, vehicle, (di + 1) as nat));
                }
                di += 1;
            }
            proof {
                assert(out@ =~= violations_spec(m, sol@, (v + 1) as nat));
            }
        } else {
            proof {
                assert(out@ =~= violations_spec(m, sol@, (v + 1) as nat));
            }
        }
        v += 1;
    }
    out
}

/// Forward pass of `route` on vehicle `v` over dimension `dim`: whether it
/// holds, and every stop reached as `(node, arrive, cumul)`, start and end
/// included. `cumul - arrive` is the wait; at the start both are the
/// departure. The stops before a broken bound are reported.
pub fn walk_route(m: &Model, route: &[NodeId], v: VehicleId, dim: usize) -> (r: (bool, Vec<Visit>))
    requires
        m.wf(),
        dim < m.dims().len(),
        m.valid_vehicle(v),
        route_valid(m, route@),
    ensures
        r.0 == walk_spec(m, m.dims()[dim as int], route@, v).ok,
        r.1@ == walk_spec(m, m.dims()[dim as int], route@, v).visits,
{
    let (ok, _events, visits) = walk(m, dim, route, v);
    (ok, visits)
}

/// A pass that holds reports one stop per step, its start included.
proof fn lemma_walk_visits(m: &Model, d: Dimension, route: Seq<NodeId>, v: VehicleId, k: nat)
    requires
        walk_upto(m, d, route, v, k).ok,
    ensures
        walk_upto(m, d, route, v, k).visits.len() == k + 1,
    decreases k,
{
    if k > 0 {
        let s = walk_upto(m, d, route, v, (k - 1) as nat);
        if s.ok {
            lemma_walk_visits(m, d, route, v, (k - 1) as nat);
        }
    }
}

/// One stop of a scheduled route: the node, and on each dimension the
/// value on arrival and the value on leaving, after any wait.
#[derive(Debug, Clone, PartialEq, Eq)]
pub struct Stop {
    pub node: NodeId,
    pub arrive: Vec<i64>,
    pub cumul: Vec<i64>,
}

impl Stop {
    /// Units waited here on dimension `d`.
    pub fn wait(&self, d: usize) -> (r: i64)
        requires
            d < self.arrive@.len(),
            d < self.cumul@.len(),
            fits(self.cumul@[d as int] - self.arrive@[d as int]),
        ensures
            r == self.cumul@[d as int] - self.arrive@[d as int],
    {
        self.cumul[d] - self.arrive[d]
    }
}

/// Node `k` of the full tour of `route` on `veh`: the start, the visits,
/// then the end.
pub open spec fn tour_node(route: Seq<NodeId>, veh: Vehicle, k: int) -> NodeId {
    if k == 0 {
        veh.start
    } else {
        stop_of(route, veh, k - 1)
    }
}

/// `s` is stop `k` of `route` on vehicle `v`, every dimension read off its
/// forward pass.
pub open spec fn stop_spec(m: &Model, route: Seq<NodeId>, v: VehicleId, k: int, s: Stop) -> bool {
    &&& s.node == tour_node(route, m.fleet()[v.0 as int], k)
    &&& s.arrive@.len() == m.dims().len()
    &&& s.cumul@.len() == m.dims().len()
    &&& forall|d: int|
        0 <= d < m.dims().len() ==> {
            let w = #[trigger] walk_spec(m, m.dims()[d], route, v).visits[k];
            s.arrive@[d] == w.1 && s.cumul@[d] == w.2
        }
}

/// `v` collects the dropped nodes.
pub open spec fn is_sink(m: &Model, v: int) -> bool {
    m.sink() matches Some(s) && s.0 == v
}

/// One route per vehicle, known nodes, and every hard bound of every
/// dimension holds along every route but the drop sink's.
pub open spec fn schedulable(m: &Model, routes: Seq<Vec<NodeId>>) -> bool {
    &&& m.wf()
    &&& routes.len() == m.fleet().len()
    &&& forall|v: int| 0 <= v < routes.len() ==> route_valid(m, #[trigger] routes[v]@)
    &&& forall|v: int, d: int|
        0 <= v < routes.len() && !is_sink(m, v) && 0 <= d < m.dims().len() ==> (#[trigger] walk_spec(
            m,
            m.dims()[d],
            routes[v]@,
            VehicleId(v as u32),
        )).ok
}

/// `sched` lays out every route of `routes`: the full tour of each vehicle
/// stop by stop, and nothing for the drop sink, which keeps no timetable.
pub open spec fn schedule_of(m: &Model, routes: Seq<Vec<NodeId>>, sched: Seq<Seq<Stop>>) -> bool {
    &&& sched.len() == routes.len()
    &&& forall|v: int| 0 <= v < routes.len() && is_sink(m, v) ==> (#[trigger] sched[v]).len() == 0
    &&& forall|v: int|
        0 <= v < routes.len() && !is_sink(m, v) ==> (#[trigger] sched[v]).len() == routes[v]@.len()
            + 2
    &&& forall|v: int, k: int|
        0 <= v < routes.len() && !is_sink(m, v) && 0 <= k < routes[v]@.len() + 2 ==> stop_spec(
            m,
            routes[v]@,
            VehicleId(v as u32),
            k,
            #[trigger] sched[v][k],
        )
}

/// Stop `k` of route `v` lies between the terminals and is node `n`.
pub open spec fn visit_at(sched: Seq<Seq<Stop>>, n: NodeId, v: int, k: int) -> bool {
    &&& 0 <= v < sched.len()
    &&& 0 < k < sched[v].len() - 1
    &&& sched[v][k].node == n
}

/// Stop `k` of `r` on `vid`, read off the passes in `walks`; the last stop
/// when `last`, else stop `k`.
fn read_stop(
    m: &Model,
    walks: &Vec<Vec<Visit>>,
    vid: VehicleId,
    Ghost(r): Ghost<Seq<NodeId>>,
    k: usize,
    last: bool,
    node: NodeId,
) -> (st: Stop)
    requires
        m.valid_vehicle(vid),
        last || k <= r.len(),
        node == tour_node(r, m.fleet()[vid.0 as int], if last { r.len() + 1 as int } else { k as int }),
        walks@.len() == m.dims().len(),
        forall|e: int| 0 <= e < walks@.len() ==> (#[trigger] walks@[e])@.len() == r.len() + 2,
        forall|e: int|
            0 <= e < walks@.len() ==> (#[trigger] walks@[e])@ == walk_spec(m, m.dims()[e], r, vid).visits,
    ensures
        stop_spec(m, r, vid, if last { r.len() + 1 as int } else { k as int }, st),
{
    let ghost at: int = if last { r.len() + 1 as int } else { k as int };
    let mut arrive: Vec<i64> = Vec::new();
    let mut cumul: Vec<i64> = Vec::new();
    let mut d: usize = 0;
    while d < walks.len()
        invariant
            walks@.len() == m.dims().len(),
            0 <= at < r.len() + 2,
            last ==> at == r.len() + 1,
            !last ==> at == k,
            forall|e: int| 0 <= e < walks@.len() ==> (#[trigger] walks@[e])@.len() == r.len() + 2,
            forall|e: int|
                0 <= e < walks@.len() ==> (#[trigger] walks@[e])@ == walk_spec(m, m.dims()[e], r, vid).visits,
            d <= walks@.len(),
            arrive@.len() == d,
            cumul@.len() == d,
            forall|e: int|
                0 <= e < d ==> {
                    let w = #[trigger] walk_spec(m, m.dims()[e], r, vid).visits[at];
                    arrive@[e] == w.1 && cumul@[e] == w.2
                },
        decreases walks@.len() - d,
    {
        let j = if last {
            walks[d].len() - 1
        } else {
            k
        };
        let w = walks[d][j];
        assert(w == walk_spec(m, m.dims()[d as int], r, vid).visits[at]);
        arrive.push(w.1);
        cumul.push(w.2);
        d += 1;
    }
    Stop { node, arrive, cumul }
}

/// The timetable of a finished solution: when each vehicle reaches and
/// leaves each stop, on every dimension.
pub struct Schedule {
    routes: Vec<Vec<Stop>>,
}

impl View for Schedule {
    type V = Seq<Seq<Stop>>;

    closed spec fn view(&self) -> Seq<Seq<Stop>> {
        Seq::new(self.routes@.len(), |v: int| self.routes@[v]@)
    }
}

impl Schedule {
    /// Reads every dimension off every route of `routes`.
    pub fn of(m: &Model, routes: &Routes) -> (s: Schedule)
        requires
            schedulable(m, routes@),
        ensures
            schedule_of(m, routes@, s@),
    {
        let sink = m.unserved_vehicle();
        let nd = m.dimensions().len();
        let mut out: Vec<Vec<Stop>> = Vec::new();
        let mut v: usize = 0;
        while v < routes.len()
            invariant
                schedulable(m, routes@),
                nd == m.dims().len(),
                sink == m.sink(),
                v <= routes@.len(),
                out@.len() == v,
                forall|u: int| 0 <= u < v && is_sink(m, u) ==> (#[trigger] out@[u])@.len() == 0,
                forall|u: int|
                    0 <= u < v && !is_sink(m, u) ==> (#[trigger] out@[u])@.len() == routes@[u]@.len()
                        + 2,
                forall|u: int, k: int|
                    0 <= u < v && !is_sink(m, u) && 0 <= k < routes@[u]@.len() + 2 ==> stop_spec(
                        m,
                        routes@[u]@,
                        VehicleId(u as u32),
                        k,
                        #[trigger] out@[u]@[k],
                    ),
            decreases routes@.len() - v,
        {
            let vid = VehicleId(v as u32);
            let on_sink = match sink {
                Some(x) => x.0 == v as u32,
                None => false,
            };
            let mut stops: Vec<Stop> = Vec::new();
            if !on_sink {
                let route = routes[v].as_slice();
                assert(route_valid(m, routes@[v as int]@));
                let ghost r = route@;
                let mut walks: Vec<Vec<Visit>> = Vec::new();
                let mut d: usize = 0;
                while d < nd
                    invariant
                        schedulable(m, routes@),
                        nd == m.dims().len(),
                        v < routes@.len(),
                        !is_sink(m, v as int),
                        vid == VehicleId(v as u32),
                        r == routes@[v as int]@,
                        route@ == r,
                        d <= nd,
                        walks@.len() == d,
                        forall|e: int|
                            0 <= e < d ==> (#[trigger] walks@[e])@ == walk_spec(
                                m,
                                m.dims()[e],
                                r,
                                vid,
                            ).visits,
                    decreases nd - d,
                {
                    let (_ok, visits) = walk_route(m, route, vid, d);
                    walks.push(visits);
                    d += 1;
                }
                let veh = m.vehicle(vid);
                proof {
                    assert forall|e: int| 0 <= e < nd implies (#[trigger] walks@[e])@.len() == r.len()
                        + 2 by {
                        assert(walk_spec(m, m.dims()[e], r, vid).ok);
                        lemma_walk_visits(m, m.dims()[e], r, vid, (r.len() + 1) as nat);
                    }
                }
                stops.push(read_stop(m, &walks, vid, Ghost(r), 0, false, veh.start));
                let mut i: usize = 0;
                while i < route.len()
                    invariant
                        nd == m.dims().len(),
                        route@ == r,
                        m.valid_vehicle(vid),
                        *veh == m.fleet()[vid.0 as int],
                        walks@.len() == nd,
                        forall|e: int| 0 <= e < nd ==> (#[trigger] walks@[e])@.len() == r.len() + 2,
                        forall|e: int|
                            0 <= e < nd ==> (#[trigger] walks@[e])@ == walk_spec(
                                m,
                                m.dims()[e],
                                r,
                                vid,
                            ).visits,
                        i <= r.len(),
                        stops@.len() == i + 1,
                        forall|j: int| 0 <= j <= i ==> stop_spec(m, r, vid, j, #[trigger] stops@[j]),
                    decreases r.len() - i,
                {
                    stops.push(read_stop(m, &walks, vid, Ghost(r), i + 1, false, route[i]));
                    i += 1;
                }
                stops.push(read_stop(m, &walks, vid, Ghost(r), 0, true, veh.end));
            }
            out.push(stops);
            v += 1;
        }
        let s = Schedule { routes: out };
        assert(s@.len() == routes@.len());
        s
    }

    /// Position of the dimension called `name`, for indexing a stop's
    /// `arrive` and `cumul`.
    pub fn dimension(m: &Model, name: &str) -> (r: usize)
        requires
            crate::model::dim_named(m.dims(), name@) >= 0,
        ensures
            r as int == crate::model::dim_named(m.dims(), name@),
    {
        m.dimension_index(name)
    }

    /// The stops of vehicle `v`, start and end included; empty for the drop
    /// sink.
    pub fn route(&self, v: VehicleId) -> (r: &[Stop])
        requires
            (v.0 as int) < self@.len(),
        ensures
            r@ == self@[v.0 as int],
    {
        self.routes[v.index()].as_slice()
    }

    /// Where `n` is served: its first stop between a vehicle's terminals,
    /// vehicles in order. `None` for a node no route serves, a dropped one
    /// among them, and for terminals, whose stops are per vehicle.
    pub fn stop(&self, n: NodeId) -> (r: Option<&Stop>)
        ensures
            match r {
                Some(st) => exists|v: int, k: int|
                    #[trigger] visit_at(self@, n, v, k) && *st == self@[v][k] && forall|
                        v2: int,
                        k2: int,
                    | #[trigger] visit_at(self@, n, v2, k2) ==> v < v2 || (v == v2 && k <= k2),
                None => forall|v: int, k: int| !#[trigger] visit_at(self@, n, v, k),
            },
    {
        let mut v: usize = 0;
        while v < self.routes.len()
            invariant
                v <= self@.len(),
                forall|u: int, k: int| 0 <= u < v ==> !#[trigger] visit_at(self@, n, u, k),
            decreases self@.len() - v,
        {
            let stops = &self.routes[v];
            let mut k: usize = 1;
            while stops.len() > 0 && k < stops.len() - 1
                invariant
                    v < self@.len(),
                    stops@ == self@[v as int],
                    1 <= k,
                    forall|u: int, j: int| 0 <= u < v ==> !#[trigger] visit_at(self@, n, u, j),
                    forall|j: int| 0 < j < k ==> !#[trigger] visit_at(self@, n, v as int, j),
                decreases stops@.len() - k,
            {
                if stops[k].node == n {
                    assert(visit_at(self@, n, v as int, k as int));
                    return Some(&stops[k]);
                }
                k += 1;
            }
            v += 1;
        }
        None
    }
}

/// Drop fees of the first `k` nodes of `route`, summed; `None` once the sum
/// leaves `i64`.
pub open spec fn fees_upto(m: &Model, route: Seq<NodeId>, k: nat) -> Option<int>
    decreases k,
{
    if k == 0 {
        Some(0)
    } else {
        add_checked(fees_upto(m, route, (k - 1) as nat), m.drop_fee(route[k - 1]))
    }
}

/// An unused vehicle is free, whatever the model.
pub proof fn lemma_empty_route_is_free(m: &Model, v: VehicleId)
    ensures
        split_spec(m, Seq::empty(), v) == Some((0int, 0int)),
        cost_spec(m, Seq::empty(), v) == Some(0int),
{
}

/// A vehicle never serves a node it forbids: any route holding one is
/// infeasible on it.
pub proof fn lemma_forbidden_is_infeasible(m: &Model, route: Seq<NodeId>, v: VehicleId, i: int)
    requires
        0 <= i < route.len(),
        m.fleet()[v.0 as int].forbids_spec(route[i]),
    ensures
        cost_spec(m, route, v) is None,
{
    assert(route_forbidden(m, route, v));
}

/// Off the drop sink, a node served after one of the nodes it must precede
/// makes the route infeasible.
pub proof fn lemma_out_of_order_is_infeasible(
    m: &Model,
    route: Seq<NodeId>,
    v: VehicleId,
    i: int,
    j: int,
)
    requires
        m.sink() != Some(v),
        0 <= j < i < route.len(),
        m.succ(route[i]).contains(route[j]),
    ensures
        cost_spec(m, route, v) is None,
{
    assert(!precedence_ok(m, route));
}

proof fn lemma_sink_arcs(m: &Model, route: Seq<NodeId>, s: VehicleId, k: nat)
    requires
        m.wf(),
        m.sink() == Some(s),
        route_valid(m, route),
        k <= route.len(),
    ensures
        arcs_upto(m, route, s, k) == fees_upto(m, route, k),
    decreases k,
{
    if k > 0 {
        lemma_sink_arcs(m, route, s, (k - 1) as nat);
        let veh = m.fleet()[s.0 as int];
        assert(m.valid_node(prev_of(route, veh, k - 1)));
        assert(m.valid_node(route[k - 1]));
        assert(m.arc_spec(veh.cost_class as int, prev_of(route, veh, k - 1), route[k - 1])
            == m.drop_fee(route[k - 1]));
    }
}

/// Dropping costs each dropped node its fee and nothing more: the drop
/// sink's route is priced at the sum of its nodes' fees, in any order, and
/// no window, capacity, soft bound or ordering blocks or charges it.
pub proof fn lemma_drops_pay_their_fees(m: &Model, route: Seq<NodeId>)
    requires
        m.wf(),
        m.sink() is Some,
        route_valid(m, route),
        !route_forbidden(m, route, m.sink()->0),
    ensures
        cost_spec(m, route, m.sink()->0) == fees_upto(m, route, route.len()),
{
    let s = m.sink()->0;
    if route.len() > 0 {
        lemma_sink_arcs(m, route, s, route.len());
        let veh = m.fleet()[s.0 as int];
        assert(stop_of(route, veh, route.len() as int) == veh.start);
        assert(m.valid_node(prev_of(route, veh, route.len() as int)));
        assert(m.arc_spec(veh.cost_class as int, prev_of(route, veh, route.len() as int), veh.start)
            == 0);
    }
}

/// Penalties of `vs`, summed without bound.
pub open spec fn penalty_sum(vs: Seq<Violation>) -> int
    decreases vs.len(),
{
    if vs.len() == 0 {
        0
    } else {
        penalty_sum(vs.drop_last()) + vs.last().penalty as int
    }
}

/// Priced amounts of `evs`, summed without bound.
pub open spec fn priced_sum(evs: Seq<Priced>) -> int
    decreases evs.len(),
{
    if evs.len() == 0 {
        0
    } else {
        priced_sum(evs.drop_last()) + evs.last().2 as int
    }
}

proof fn lemma_fold_pens(acc: Option<int>, evs: Seq<Priced>)
    ensures
        fold_pens(acc, evs) matches Some(y) ==> acc is Some && y == acc->0 + priced_sum(evs),
    decreases evs.len(),
{
    if evs.len() > 0 {
        lemma_fold_pens(acc, evs.drop_last());
    }
}

proof fn lemma_penalty_sum_concat(a: Seq<Violation>, b: Seq<Violation>)
    ensures
        penalty_sum(a + b) == penalty_sum(a) + penalty_sum(b),
    decreases b.len(),
{
    if b.len() > 0 {
        lemma_penalty_sum_concat(a, b.drop_last());
        assert((a + b).drop_last() =~= a + b.drop_last());
    } else {
        assert(a + b =~= a);
    }
}

proof fn lemma_as_violations_sum(dimension: usize, vehicle: VehicleId, evs: Seq<Priced>)
    ensures
        penalty_sum(as_violations(dimension, vehicle, evs)) == priced_sum(evs),
    decreases evs.len(),
{
    if evs.len() > 0 {
        lemma_as_violations_sum(dimension, vehicle, evs.drop_last());
        assert(as_violations(dimension, vehicle, evs).drop_last() =~= as_violations(
            dimension,
            vehicle,
            evs.drop_last(),
        ));
    }
}

proof fn lemma_dims_soft_violations(m: &Model, route: Seq<NodeId>, v: VehicleId, k: nat)
    ensures
        dims_soft(m, route, v, k) matches Some(x) ==> x == penalty_sum(route_violations(m, route, v, k)),
    decreases k,
{
    if k > 0 {
        let evs = walk_spec(m, m.dims()[k - 1], route, v).events;
        lemma_dims_soft_violations(m, route, v, (k - 1) as nat);
        lemma_fold_pens(dims_soft(m, route, v, (k - 1) as nat), evs);
        lemma_penalty_sum_concat(
            route_violations(m, route, v, (k - 1) as nat),
            as_violations((k - 1) as usize, v, evs),
        );
        lemma_as_violations_sum((k - 1) as usize, v, evs);
    }
}

/// The soft part of a route's price is exactly what its violations
/// charge: on a used vehicle other than the drop sink, the penalties that
/// `violations` reports for the route, summed, equal the soft part of
/// `eval_route_split`.
pub proof fn lemma_soft_cost_is_the_violations(m: &Model, route: Seq<NodeId>, v: VehicleId)
    requires
        route.len() > 0,
        m.sink() != Some(v),
        split_spec(m, route, v) is Some,
    ensures
        (split_spec(m, route, v)->0).1 == penalty_sum(route_violations(m, route, v, m.dims().len())),
{
    lemma_dims_soft_violations(m, route, v, m.dims().len());
}

} // verus!
