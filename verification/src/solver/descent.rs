//! First-improvement hill climb over the neighborhood of
//! [`crate::operators`].

use std::collections::VecDeque;

use vstd::prelude::*;

use super::{
    Operator, SearchEvent, clamp_cost, clamp_spec, descent_events, emit, feasible, handed, improvements,
    lemma_improvements_push, solution_ok, total, true_cost,
};
use crate::eval::{Routes, cost_spec, flat, route_valid, sol_ms, sol_nodes_valid};
use crate::model::Model;
use crate::operators::{
    MAX_RUN, Scratch, all_priced, cand_spec, first_at, landing, lemma_priced_sum,
    lemma_sum_bounds, move_improves, move_optimal, moved, obj_sum, or_opt_optimal, priced,
    sol_ok, splice, star_improves, star_optimal, star_ranked, sum_costs, swap_improves,
    swap_optimal, try_or_opt, try_relocate, try_swap, try_two_opt,
    try_two_opt_star, two_opt_improves, two_opt_optimal, two_opt_route, first_two_opt, or_opted,
    relocated, swapped,
};
use crate::search::{Search, lemma_fresh_objective, lemma_same_objective};
use crate::types::{Cost, NodeId, VehicleId, fits};

verus! {

/// Sum of `cost`, wide enough that it cannot overflow.
pub(crate) fn cost_sum(cost: &Vec<Cost>) -> (r: i128)
    requires
        cost@.len() <= u32::MAX as nat + 1,
    ensures
        r as int == sum_costs(cost@),
{
    let mut acc: i128 = 0;
    let mut i: usize = 0;
    proof {
        assert(cost@.take(0) =~= Seq::<i64>::empty());
    }
    while i < cost.len()
        invariant
            cost@.len() <= u32::MAX as nat + 1,
            i <= cost@.len(),
            acc as int == sum_costs(cost@.take(i as int)),
        decreases cost@.len() - i,
    {
        proof {
            let t = cost@.take(i + 1);
            assert(t.drop_last() =~= cost@.take(i as int));
            lemma_sum_bounds(t);
            let s = sum_costs(t);
            let k = t.len() as int;
            assert(-0x8000_0000_0000_0000_0000_0000 <= s <= 0x8000_0000_0000_0000_0000_0000)
                by (nonlinear_arith)
                requires
                    0 <= k <= 0x1_0000_0000,
                    k * (-0x8000_0000_0000_0000) <= s <= k * 0x7fff_ffff_ffff_ffff,
            ;
        }
        acc = acc + cost[i] as i128;
        i += 1;
    }
    proof {
        assert(cost@.take(cost@.len() as int) =~= cost@);
    }
    acc
}

/// Under a fresh objective the summed objective is true cost.
pub proof fn lemma_fresh_sum(cx: &Search, sol: Seq<Vec<NodeId>>, k: nat)
    requires
        cx.lambda_spec() == 0,
        cx.pen_map() == Map::<u64, i64>::empty(),
        k <= sol.len(),
    ensures
        obj_sum(cx, sol, k) == true_cost(cx.model_spec(), sol, k),
    decreases k,
{
    if k > 0 {
        lemma_fresh_sum(cx, sol, (k - 1) as nat);
        lemma_fresh_objective(cx, sol[k - 1]@, VehicleId((k - 1) as u32));
    }
}

/// A route priced under any objective is feasible.
pub proof fn lemma_priced_feasible(cx: &Search, sol: Seq<Vec<NodeId>>)
    requires
        all_priced(cx, sol),
    ensures
        feasible(cx.model_spec(), sol),
{
    assert forall|v: int| 0 <= v < sol.len() implies (#[trigger] cost_spec(
        cx.model_spec(),
        sol[v]@,
        VehicleId(v as u32),
    )) is Some by {
        assert(cx.objective(sol[v]@, VehicleId(v as u32)) is Some);
    }
}

/// Route `r` is the last one holding `u`: the route the descent examines
/// `u` on.
pub open spec fn owns(sol: Seq<Vec<NodeId>>, r: int, u: NodeId) -> bool {
    &&& 0 <= r < sol.len()
    &&& sol[r]@.contains(u)
    &&& forall|r2: int| r < r2 < sol.len() ==> !(#[trigger] sol[r2]@).contains(u)
}

/// On the route that owns it, no relocation, swap or or-opt of `u` helps,
/// and no reversal helps that route.
pub open spec fn settled(cx: &Search, sol: Seq<Vec<NodeId>>, cost: Seq<i64>, u: NodeId) -> bool {
    forall|r: int|
        #[trigger] owns(sol, r, u) ==> {
            &&& two_opt_optimal(cx, sol, cost, r)
            &&& forall|at: int|
                #[trigger] first_at(sol[r]@, u, at) ==> {
                    &&& move_optimal(cx, sol, cost, r, at, 1, seq![u])
                    &&& swap_optimal(cx, sol, cost, r, at)
                    &&& or_opt_optimal(cx, sol, cost, r, at)
                }
        }
}

/// Route prices under the objective of `cx`; 0 where a route has none.
pub open spec fn prices(cx: &Search, sol: Seq<Vec<NodeId>>) -> Seq<i64> {
    Seq::new(
        sol.len(),
        |v: int|
            match cx.objective(sol[v]@, VehicleId(v as u32)) {
                Some(c) => c as i64,
                None => 0i64,
            },
    )
}

/// A local optimum of the neighborhood under the objective of `cx`: no
/// relocation, swap, or-opt or reversal of a node on the route that owns
/// it, and no tail trade the arcs rank as a gain, makes `sol` cheaper.
pub open spec fn local_optimum(cx: &Search, sol: Seq<Vec<NodeId>>) -> bool {
    let cost = prices(cx, sol);
    &&& forall|u: NodeId| #[trigger] settled(cx, sol, cost, u)
    &&& forall|r: int| 0 <= r < sol.len() ==> #[trigger] star_optimal(cx, sol, cost, r)
}

/// Being a local optimum depends on the objective alone: two contexts
/// with the same model, weight and penalties agree on it.
pub proof fn lemma_local_optimum_objective(cx1: &Search, cx2: &Search, sol: Seq<Vec<NodeId>>)
    requires
        cx1.same_objective(cx2),
        local_optimum(cx1, sol),
    ensures
        local_optimum(cx2, sol),
{
    let cost = prices(cx1, sol);
    assert forall|v: int| 0 <= v < sol.len() implies cost[v] == prices(cx2, sol)[v] by {
        lemma_same_objective(cx1, cx2, sol[v]@, VehicleId(v as u32));
    }
    assert(cost =~= prices(cx2, sol));
    assert forall|u: NodeId| #[trigger] settled(cx2, sol, cost, u) by {
        assert(settled(cx1, sol, cost, u));
        assert forall|r: int| #[trigger] owns(sol, r, u) implies {
            &&& two_opt_optimal(cx2, sol, cost, r)
            &&& forall|at: int|
                #[trigger] first_at(sol[r]@, u, at) ==> {
                    &&& move_optimal(cx2, sol, cost, r, at, 1, seq![u])
                    &&& swap_optimal(cx2, sol, cost, r, at)
                    &&& or_opt_optimal(cx2, sol, cost, r, at)
                }
        } by {
            assert forall|i: int, j: int| 0 <= i < j < sol[r]@.len() implies !#[trigger] two_opt_improves(
                cx2,
                sol,
                cost,
                r,
                i,
                j,
            ) by {
                assert(!two_opt_improves(cx1, sol, cost, r, i, j));
                lemma_same_objective(cx1, cx2, two_opt_route(sol[r]@, i, j), VehicleId(r as u32));
            }
            assert forall|at: int| #[trigger] first_at(sol[r]@, u, at) implies {
                &&& move_optimal(cx2, sol, cost, r, at, 1, seq![u])
                &&& swap_optimal(cx2, sol, cost, r, at)
                &&& or_opt_optimal(cx2, sol, cost, r, at)
            } by {
                lemma_move_optimal_objective(cx1, cx2, sol, cost, r, at, 1, seq![u]);
                assert forall|v: int, q: int|
                    0 <= v < sol.len() && v != r && 0 <= q < sol[v]@.len() implies !#[trigger] swap_improves(
                    cx2,
                    sol,
                    cost,
                    r,
                    at,
                    v,
                    q,
                ) by {
                    assert(!swap_improves(cx1, sol, cost, r, at, v, q));
                    lemma_same_objective(
                        cx1,
                        cx2,
                        splice(sol[r]@, at, at + 1, seq![sol[v]@[q]]),
                        VehicleId(r as u32),
                    );
                    lemma_same_objective(
                        cx1,
                        cx2,
                        splice(sol[v]@, q, q + 1, seq![sol[r]@[at]]),
                        VehicleId(v as u32),
                    );
                }
                assert forall|len: int| 2 <= len <= MAX_RUN && at + len <= sol[r]@.len() implies {
                    &&& move_optimal(cx2, sol, cost, r, at, len, #[trigger] sol[r]@.subrange(at, at + len))
                    &&& move_optimal(cx2, sol, cost, r, at, len, sol[r]@.subrange(at, at + len).reverse())
                } by {
                    let run = sol[r]@.subrange(at, at + len);
                    lemma_move_optimal_objective(cx1, cx2, sol, cost, r, at, len, run);
                    lemma_move_optimal_objective(cx1, cx2, sol, cost, r, at, len, run.reverse());
                }
            }
        }
    }
    assert forall|r: int| 0 <= r < sol.len() implies #[trigger] star_optimal(cx2, sol, cost, r) by {
        assert(star_optimal(cx1, sol, cost, r));
        assert forall|v: int, i: int, j: int|
            0 <= v < sol.len() && v != r && 0 <= i < sol[r]@.len() && 0 <= j < sol[v]@.len()
                && star_ranked(cx2, sol, r, v, i, j) implies !#[trigger] star_improves(
            cx2,
            sol,
            cost,
            r,
            v,
            i,
            j,
        ) by {
            assert(star_ranked(cx1, sol, r, v, i, j));
            assert(!star_improves(cx1, sol, cost, r, v, i, j));
            let sr = sol[r]@;
            let sv = sol[v]@;
            lemma_same_objective(
                cx1,
                cx2,
                splice(sr, i + 1, sr.len() as int, sv.subrange(j + 1, sv.len() as int)),
                VehicleId(r as u32),
            );
            lemma_same_objective(
                cx1,
                cx2,
                splice(sv, j + 1, sv.len() as int, sr.subrange(i + 1, sr.len() as int)),
                VehicleId(v as u32),
            );
        }
    }
}

proof fn lemma_move_optimal_objective(
    cx1: &Search,
    cx2: &Search,
    sol: Seq<Vec<NodeId>>,
    cost: Seq<i64>,
    r: int,
    at: int,
    len: int,
    piece: Seq<NodeId>,
)
    requires
        cx1.same_objective(cx2),
        move_optimal(cx1, sol, cost, r, at, len, piece),
    ensures
        move_optimal(cx2, sol, cost, r, at, len, piece),
{
    assert forall|v: int, pos: int|
        0 <= v < sol.len() && cand_spec(cx2.model_spec(), sol).contains(v as usize) && 0 <= pos
            <= landing(sol, r, at, len, v).len() implies !#[trigger] move_improves(
        cx2,
        sol,
        cost,
        r,
        at,
        len,
        piece,
        v,
        pos,
    ) by {
        assert(!move_improves(cx1, sol, cost, r, at, len, piece, v, pos));
        lemma_same_objective(
            cx1,
            cx2,
            splice(sol[r]@, at, at + len, Seq::empty()),
            VehicleId(r as u32),
        );
        lemma_same_objective(
            cx1,
            cx2,
            splice(landing(sol, r, at, len, v), pos, pos, piece),
            VehicleId(v as u32),
        );
    }
}

/// Every route whose reversals are not flagged for another look has none
/// that helps.
pub open spec fn stale_ok(cx: &Search, sol: Seq<Vec<NodeId>>, cost: Seq<i64>, stale: Seq<bool>) -> bool {
    forall|r: int|
        0 <= r < stale.len() && !#[trigger] stale[r] ==> two_opt_optimal(cx, sol, cost, r)
}

proof fn lemma_priced_prices(cx: &Search, sol: Seq<Vec<NodeId>>, cost: Seq<i64>)
    requires
        priced(cx, sol, cost),
    ensures
        cost == prices(cx, sol),
{
    assert forall|v: int| 0 <= v < sol.len() implies cost[v] == prices(cx, sol)[v] by {
        assert(cx.objective(sol[v]@, VehicleId(v as u32)) == Some(cost[v] as int));
    }
    assert(cost =~= prices(cx, sol));
}

/// A route's reversals depend on that route and its price alone.
proof fn lemma_stale_frame(
    cx: &Search,
    sol0: Seq<Vec<NodeId>>,
    cost0: Seq<i64>,
    stale0: Seq<bool>,
    sol1: Seq<Vec<NodeId>>,
    cost1: Seq<i64>,
    stale1: Seq<bool>,
)
    requires
        stale_ok(cx, sol0, cost0, stale0),
        stale1.len() == stale0.len() == sol0.len() == sol1.len() == cost0.len() == cost1.len(),
        forall|w: int|
            0 <= w < stale1.len() && !#[trigger] stale1[w] ==> !stale0[w] && sol1[w] == sol0[w]
                && cost1[w] == cost0[w],
    ensures
        stale_ok(cx, sol1, cost1, stale1),
{
    assert forall|r: int| 0 <= r < stale1.len() && !#[trigger] stale1[r] implies two_opt_optimal(
        cx,
        sol1,
        cost1,
        r,
    ) by {
        assert(two_opt_optimal(cx, sol0, cost0, r));
        assert forall|i: int, j: int| 0 <= i < j < sol1[r]@.len() implies !#[trigger] two_opt_improves(
            cx,
            sol1,
            cost1,
            r,
            i,
            j,
        ) by {
            assert(!two_opt_improves(cx, sol0, cost0, r, i, j));
        }
    }
}

/// Every stop of `sol` is in some route, and every route's stops are among
/// them.
proof fn lemma_flat_members(sol: Seq<Vec<NodeId>>)
    ensures
        forall|k: int|
            0 <= k < flat(sol).len() ==> exists|i: int|
                0 <= i < sol.len() && (#[trigger] sol[i]@).contains(#[trigger] flat(sol)[k]),
        forall|i: int, x: NodeId|
            0 <= i < sol.len() && (#[trigger] sol[i]@).contains(x) ==> #[trigger] flat(sol).contains(x),
    decreases sol.len(),
{
    if sol.len() > 0 {
        let s1 = sol.drop_last();
        lemma_flat_members(s1);
        let f1 = flat(s1);
        let l = sol.last()@;
        assert(flat(sol) == f1 + l);
        assert forall|k: int| 0 <= k < flat(sol).len() implies exists|i: int|
            0 <= i < sol.len() && (#[trigger] sol[i]@).contains(#[trigger] flat(sol)[k]) by {
            if k < f1.len() {
                assert(flat(sol)[k] == f1[k]);
                let i = choose|i: int| 0 <= i < s1.len() && (#[trigger] s1[i]@).contains(f1[k]);
                assert(sol[i] == s1[i]);
            } else {
                assert(flat(sol)[k] == l[k - f1.len()]);
                assert(sol[sol.len() - 1]@.contains(l[k - f1.len()]));
            }
        }
        assert forall|i: int, x: NodeId|
            0 <= i < sol.len() && (#[trigger] sol[i]@).contains(x) implies #[trigger] flat(sol).contains(
            x,
        ) by {
            if i < s1.len() {
                assert(s1[i] == sol[i]);
                assert(f1.contains(x));
                let w = choose|w: int| 0 <= w < f1.len() && f1[w] == x;
                assert(flat(sol)[w] == x);
            } else {
                let w = choose|w: int| 0 <= w < l.len() && l[w] == x;
                assert(flat(sol)[f1.len() + w] == x);
            }
        }
    }
}


/// No relocation of `u`, at its first stop on route `r`, lowers the total.
pub open spec fn no_relocation(cx: &Search, sol: Seq<Vec<NodeId>>, cost: Seq<i64>, u: NodeId, r: int) -> bool {
    forall|at: int| first_at(sol[r]@, u, at) ==> move_optimal(cx, sol, cost, r, at, 1, seq![u])
}

/// No trade of `u`, at its first stop on route `r`, lowers the total.
pub open spec fn no_swap(cx: &Search, sol: Seq<Vec<NodeId>>, cost: Seq<i64>, u: NodeId, r: int) -> bool {
    forall|at: int| first_at(sol[r]@, u, at) ==> swap_optimal(cx, sol, cost, r, at)
}

/// Fires an improving move, cheapest operator first.
fn improving_move(
    cx: &Search,
    sol: &mut Routes,
    cost: &mut Vec<Cost>,
    u: NodeId,
    r: usize,
    sx: &mut Scratch,
    route_stale: bool,
) -> (res: Option<(Operator, Option<usize>)>)
    requires
        sol_ok(cx, old(sol)@),
        priced(cx, old(sol)@, old(cost)@),
        r < old(sol)@.len(),
    ensures
        match res {
            None => final(sol)@ == old(sol)@ && final(cost)@ == old(cost)@,
            Some((_, o)) => moved(cx, old(sol)@, old(cost)@, final(sol)@, final(cost)@) && (o matches Some(
                v,
            ) ==> v < old(sol)@.len()) && forall|w: int|
                0 <= w < old(sol)@.len() && w != r && (o matches Some(v) ==> w != v)
                    ==> #[trigger] final(sol)@[w] == old(sol)@[w] && final(cost)@[w] == old(cost)@[w],
        },
        res is None ==> forall|at: int|
            first_at(old(sol)@[r as int]@, u, at) ==> {
                &&& move_optimal(cx, old(sol)@, old(cost)@, r as int, at, 1, seq![u])
                &&& swap_optimal(cx, old(sol)@, old(cost)@, r as int, at)
                &&& or_opt_optimal(cx, old(sol)@, old(cost)@, r as int, at)
            },
        res is None && route_stale ==> two_opt_optimal(cx, old(sol)@, old(cost)@, r as int),
        match res {
            None => true,
            Some((Operator::Relocate, Some(v))) => relocated(
                cx,
                old(sol)@,
                old(cost)@,
                final(sol)@,
                u,
                r as int,
                v as int,
            ),
            Some((Operator::Swap, Some(v))) => no_relocation(cx, old(sol)@, old(cost)@, u, r as int)
                && swapped(cx, old(sol)@, old(cost)@, final(sol)@, u, r as int, v as int),
            Some((Operator::TwoOpt, None)) => no_relocation(cx, old(sol)@, old(cost)@, u, r as int)
                && no_swap(cx, old(sol)@, old(cost)@, u, r as int) && route_stale && exists|i: int, j: int|
                #[trigger] first_two_opt(cx, old(sol)@, old(cost)@, r as int, i, j) && final(sol)@[r as int]@
                    == two_opt_route(old(sol)@[r as int]@, i, j),
            Some((Operator::OrOpt, Some(v))) => no_relocation(cx, old(sol)@, old(cost)@, u, r as int)
                && no_swap(cx, old(sol)@, old(cost)@, u, r as int) && (route_stale ==> two_opt_optimal(
                cx,
                old(sol)@,
                old(cost)@,
                r as int,
            )) && or_opted(cx, old(sol)@, old(cost)@, final(sol)@, u, r as int, v as int),
            _ => false,
        },
{
    match try_relocate(cx, sol, cost, u, r, sx) {
        Some(v) => return Some((Operator::Relocate, Some(v))),
        None => {},
    }
    match try_swap(cx, sol, cost, u, r) {
        Some(v) => return Some((Operator::Swap, Some(v))),
        None => {},
    }
    if route_stale && try_two_opt(cx, sol, cost, r) {
        return Some((Operator::TwoOpt, None));
    }
    match try_or_opt(cx, sol, cost, u, r, sx) {
        Some(v) => Some((Operator::OrOpt, Some(v))),
        None => None,
    }
}

/// Route `t` changed: any route-level operator may look at it again, and
/// every node on it goes back in the queue.
fn wake_route(
    m: &Model,
    sol: &Routes,
    t: usize,
    route_stale: &mut Vec<bool>,
    index: &mut Vec<u32>,
    queued: &mut Vec<bool>,
    queue: &mut VecDeque<NodeId>,
)
    requires
        m.wf(),
        t < sol@.len() <= u32::MAX,
        sol_nodes_valid(m, sol@),
        old(route_stale)@.len() == sol@.len(),
        old(index)@.len() == m.n(),
        old(queued)@.len() == m.n(),
        forall|i: int| 0 <= i < old(queue)@.len() ==> m.valid_node(#[trigger] old(queue)@[i]),
    ensures
        final(route_stale)@ == old(route_stale)@.update(t as int, true),
        final(index)@.len() == m.n(),
        final(queued)@.len() == m.n(),
        forall|i: int| 0 <= i < final(queue)@.len() ==> m.valid_node(#[trigger] final(queue)@[i]),
{
    route_stale.set(t, true);
    let route = &sol[t];
    proof {
        assert(route_valid(m, route@));
    }
    let mut j: usize = 0;
    while j < route.len()
        invariant
            m.wf(),
            t < sol@.len() <= u32::MAX,
            route_valid(m, route@),
            j <= route@.len(),
            index@.len() == m.n(),
            queued@.len() == m.n(),
            forall|i: int| 0 <= i < queue@.len() ==> m.valid_node(#[trigger] queue@[i]),
        decreases route@.len() - j,
    {
        let n = route[j];
        proof {
            assert(m.valid_node(route@[j as int]));
        }
        index.set(n.index(), t as u32);
        if !queued[n.index()] {
            queued.set(n.index(), true);
            queue.push_back(n);
        }
        j += 1;
    }
}

/// Starts a sweep: every stop of `sol` in the queue, in route order, each
/// marked queued and stamped with the route that owns it.
#[verifier::loop_isolation(false)]
fn build_sweep(m: &Model, sol: &Routes, index: &mut Vec<u32>, queued: &mut Vec<bool>) -> (queue:
    VecDeque<NodeId>)
    requires
        m.wf(),
        sol@.len() <= u32::MAX,
        sol_nodes_valid(m, sol@),
        old(index)@.len() == m.n(),
        old(queued)@.len() == m.n(),
    ensures
        final(index)@.len() == m.n(),
        final(queued)@.len() == m.n(),
        queue@ == flat(sol@),
        forall|k: int|
            0 <= k < queue@.len() ==> m.valid_node(#[trigger] queue@[k]) && owns(
                sol@,
                final(index)@[queue@[k].0 as int] as int,
                queue@[k],
            ),
{
    let n = m.node_count();
    let mut i: usize = 0;
    while i < n
        invariant
            i <= n,
            n == m.n(),
            queued@.len() == n,
        decreases n - i,
    {
        queued.set(i, false);
        i += 1;
    }
    let mut queue: VecDeque<NodeId> = VecDeque::new();
    let mut r: usize = 0;
    proof {
        assert(sol@.take(0) =~= Seq::<Vec<NodeId>>::empty());
    }
    while r < sol.len()
        invariant
            r <= sol@.len(),
            n == m.n(),
            queued@.len() == n,
            index@.len() == n,
            queue@ == flat(sol@.take(r as int)),
            forall|k: int| 0 <= k < queue@.len() ==> m.valid_node(#[trigger] queue@[k]),
            forall|i: int, x: NodeId|
                0 <= i < r && #[trigger] sol@[i]@.contains(x) ==> owns(
                    sol@.take(r as int),
                    index@[x.0 as int] as int,
                    x,
                ),
        decreases sol@.len() - r,
    {
        let route = &sol[r];
        let ghost pre = queue@;
        let ghost idx0 = index@;
        proof {
            assert(route_valid(m, route@));
        }
        let mut j: usize = 0;
        while j < route.len()
            invariant
                j <= route@.len(),
                r < sol@.len(),
                route@ == sol@[r as int]@,
                route_valid(m, route@),
                n == m.n(),
                queued@.len() == n,
                index@.len() == n,
                queue@ == pre + route@.subrange(0, j as int),
                forall|k: int| 0 <= k < queue@.len() ==> m.valid_node(#[trigger] queue@[k]),
                forall|x: NodeId| #[trigger]
                    route@.subrange(0, j as int).contains(x) ==> index@[x.0 as int] == r as u32,
                forall|x: NodeId|
                    m.valid_node(x) && !route@.subrange(0, j as int).contains(x) ==> index@[x.0 as int]
                        == #[trigger] idx0[x.0 as int],
            decreases route@.len() - j,
        {
            let x = route[j];
            proof {
                assert(m.valid_node(route@[j as int]));
            }
            let ghost ib = index@;
            queue.push_back(x);
            index.set(x.index(), r as u32);
            queued.set(x.index(), true);
            proof {
                let p = route@.subrange(0, j as int);
                let q = route@.subrange(0, j + 1);
                assert(q =~= p.push(x));
                assert(queue@ =~= pre + q);
                assert(index@[x.0 as int] == r as u32);
                assert forall|y: NodeId| #[trigger] q.contains(y) implies index@[y.0 as int] == r as u32 by {
                    if y != x {
                        let w = choose|w: int| 0 <= w < q.len() && q[w] == y;
                        assert(w < p.len());
                        assert(p[w] == y);
                        assert(p.contains(y));
                        assert(ib[y.0 as int] == r as u32);
                        assert(y.0 != x.0);
                    }
                }
                assert forall|y: NodeId| m.valid_node(y) && !q.contains(y) implies index@[y.0 as int]
                    == #[trigger] idx0[y.0 as int] by {
                    assert(q[j as int] == x);
                    assert(y.0 != x.0);
                    if p.contains(y) {
                        let w = choose|w: int| 0 <= w < p.len() && p[w] == y;
                        assert(q[w] == y);
                    }
                    assert(ib[y.0 as int] == idx0[y.0 as int]);
                }
            }
            j += 1;
        }
        proof {
            assert(route@.subrange(0, route@.len() as int) =~= route@);
            assert(sol@.take(r + 1).drop_last() =~= sol@.take(r as int));
            let t0 = sol@.take(r as int);
            let t1 = sol@.take(r + 1);
            assert forall|i: int, x: NodeId|
                0 <= i < r + 1 && #[trigger] sol@[i]@.contains(x) implies owns(
                t1,
                index@[x.0 as int] as int,
                x,
            ) by {
                assert(t1[r as int] == sol@[r as int]);
                if route@.contains(x) {
                    assert(index@[x.0 as int] == r as u32);
                } else {
                    assert(i < r);
                    let w = choose|w: int| 0 <= w < sol@[i]@.len() && sol@[i]@[w] == x;
                    assert(m.valid_node(sol@[i]@[w]));
                    assert(index@[x.0 as int] == idx0[x.0 as int]);
                    assert(owns(t0, idx0[x.0 as int] as int, x));
                    let o = idx0[x.0 as int] as int;
                    assert(t1[o] == t0[o]);
                    assert forall|r2: int| o < r2 < t1.len() implies !(#[trigger] t1[r2]@).contains(x) by {
                        if r2 < r {
                            assert(t1[r2] == t0[r2]);
                        }
                    }
                }
            }
        }
        r += 1;
    }
    proof {
        assert(sol@.take(sol@.len() as int) =~= sol@);
        lemma_flat_members(sol@);
        assert forall|k: int| 0 <= k < queue@.len() implies m.valid_node(#[trigger] queue@[k]) && owns(
            sol@,
            index@[queue@[k].0 as int] as int,
            queue@[k],
        ) by {
            let i = choose|i: int| 0 <= i < sol@.len() && (#[trigger] sol@[i]@).contains(flat(sol@)[k]);
        }
    }
    queue
}

/// Pops the queue dry, firing the first improving move for each node on
/// the route that owns it. Reports whether any move fired; when none did,
/// nothing changed and every node that was queued is settled.
#[verifier::loop_isolation(false)]
fn drain<L: FnMut(SearchEvent)>(
    cx: &Search,
    sol: &mut Routes,
    cost: &mut Vec<Cost>,
    queue: &mut VecDeque<NodeId>,
    index: &mut Vec<u32>,
    queued: &mut Vec<bool>,
    route_stale: &mut Vec<bool>,
    sx: &mut Scratch,
    log: &mut L,
    trace: &mut Vec<SearchEvent>,
) -> (improved: bool)
    requires
        improvements(old(trace)@, sum_costs(old(cost)@)),
        handed(*old(log), old(trace)@),
        sol_ok(cx, old(sol)@),
        priced(cx, old(sol)@, old(cost)@),
        old(index)@.len() == cx.model_spec().n(),
        old(queued)@.len() == cx.model_spec().n(),
        old(route_stale)@.len() == old(sol)@.len(),
        stale_ok(cx, old(sol)@, old(cost)@, old(route_stale)@),
        forall|k: int|
            0 <= k < old(queue)@.len() ==> cx.model_spec().valid_node(#[trigger] old(queue)@[k])
                && owns(old(sol)@, old(index)@[old(queue)@[k].0 as int] as int, old(queue)@[k]),
        forall|x: SearchEvent| call_requires(*old(log), (x,)),
    ensures
        *final(log) == *old(log),
        improvements(final(trace)@, sum_costs(final(cost)@)),
        handed(*old(log), final(trace)@),
        !improved ==> final(trace)@ == old(trace)@,
        sol_ok(cx, final(sol)@),
        priced(cx, final(sol)@, final(cost)@),
        sol_ms(final(sol)@) == sol_ms(old(sol)@),
        sum_costs(final(cost)@) <= sum_costs(old(cost)@),
        improved ==> sum_costs(final(cost)@) < sum_costs(old(cost)@),
        final(index)@.len() == cx.model_spec().n(),
        final(queued)@.len() == cx.model_spec().n(),
        final(route_stale)@.len() == old(sol)@.len(),
        stale_ok(cx, final(sol)@, final(cost)@, final(route_stale)@),
        !improved ==> final(sol)@ == old(sol)@ && final(cost)@ == old(cost)@ && forall|k: int|
            0 <= k < old(queue)@.len() ==> #[trigger] settled(cx, final(sol)@, final(cost)@, old(queue)@[k]),
{
    let m = cx.model();
    let nv = sol.len();
    let ghost q0 = queue@;
    let ghost idx0 = index@;
    let ghost popped: int = 0;
    let mut improved = false;
    proof {
        lemma_sum_bounds(cost@);
    }
    loop
        invariant
            nv == sol@.len(),
            sol_ok(cx, sol@),
            priced(cx, sol@, cost@),
            sol_ms(sol@) == sol_ms(old(sol)@),
            sum_costs(cost@) <= sum_costs(old(cost)@),
            improved ==> sum_costs(cost@) < sum_costs(old(cost)@),
            nv * (i64::MIN as int) <= sum_costs(cost@),
            queued@.len() == m.n(),
            index@.len() == m.n(),
            route_stale@.len() == nv,
            stale_ok(cx, sol@, cost@, route_stale@),
            forall|i: int| 0 <= i < queue@.len() ==> m.valid_node(#[trigger] queue@[i]),
            !improved ==> {
                &&& sol@ == old(sol)@
                &&& cost@ == old(cost)@
                &&& index@ == idx0
                &&& 0 <= popped <= q0.len()
                &&& queue@ == q0.subrange(popped, q0.len() as int)
                &&& forall|k: int| 0 <= k < popped ==> #[trigger] settled(cx, sol@, cost@, q0[k])
                &&& trace@ == old(trace)@
            },
            improvements(trace@, sum_costs(cost@)),
            handed(*old(log), trace@),
            forall|x: SearchEvent| call_requires(*log, (x,)),
            *log == *old(log),
        decreases sum_costs(cost@) - nv * (i64::MIN as int), queue@.len(),
    {
        let next = queue.pop_front();
        let u = match next {
            Some(u) => u,
            None => break,
        };
        proof {
            assert(m.valid_node(u));
        }
        let ghost was_improved = improved;
        let ghost k = popped;
        proof {
            if !improved {
                assert(u == q0[popped]);
                popped = popped + 1;
            }
        }
        queued.set(u.index(), false);
        // Every queued node sits on the route that owns it, so this never
        // sees the sentinel.
        let r = index[u.index()] as usize;
        if r >= nv {
            proof {
                if !was_improved {
                    assert(owns(old(sol)@, idx0[q0[k].0 as int] as int, q0[k]));
                }
            }
            continue;
        }
        let stale = route_stale[r];
        let ghost s0 = sol@;
        let ghost c0 = cost@;
        let ghost st0 = route_stale@;
        match improving_move(cx, sol, cost, u, r, sx, stale) {
            None => {
                // No improvement: this route's reversals are done with
                // until a move touches it again.
                route_stale.set(r, false);
                proof {
                    assert(two_opt_optimal(cx, sol@, cost@, r as int));
                    assert forall|r2: int|
                        0 <= r2 < route_stale@.len() && !#[trigger] route_stale@[r2] implies two_opt_optimal(
                        cx,
                        sol@,
                        cost@,
                        r2,
                    ) by {
                        if r2 != r {
                            assert(!st0[r2]);
                        }
                    }
                    if !was_improved {
                        assert(owns(sol@, r as int, u));
                        assert(settled(cx, sol@, cost@, u)) by {
                            assert forall|r2: int| #[trigger] owns(sol@, r2, u) implies r2 == r by {
                                if r2 < r {
                                    assert(sol@[r as int]@.contains(u));
                                }
                                if r < r2 {
                                    assert(sol@[r2]@.contains(u));
                                }
                            }
                        }
                    }
                }
            },
            Some((operator, other)) => {
                improved = true;
                proof {
                    lemma_sum_bounds(cost@);
                }
                let total = clamp_cost(cost_sum(&cost));
                proof {
                    lemma_improvements_push(trace@, sum_costs(c0), sum_costs(cost@), operator);
                }
                emit(log, trace, SearchEvent::Improvement { operator, cost: total });
                wake_route(m, sol, r, route_stale, index, queued, queue);
                match other {
                    Some(o) => {
                        if o != r {
                            wake_route(m, sol, o, route_stale, index, queued, queue);
                        }
                    },
                    None => {},
                }
                proof {
                    assert forall|w: int|
                        0 <= w < route_stale@.len() && !#[trigger] route_stale@[w] implies !st0[w]
                        && sol@[w] == s0[w] && cost@[w] == c0[w] by {
                        assert(w != r);
                        match other {
                            Some(o2) => {
                                assert(w != o2);
                            },
                            None => {},
                        }
                        assert(route_stale@[w] == st0[w]);
                        assert(sol@[w] == s0[w]);
                        assert(cost@[w] == c0[w]);
                    }
                    lemma_stale_frame(cx, s0, c0, st0, sol@, cost@, route_stale@);
                }
            },
        }
    }
    proof {
        if !improved {
            assert(popped == q0.len());
        }
    }
    improved
}

/// The 2-opt* pass: every route in turn trades tails with the best
/// partner. Reports whether any trade fired; when none did, nothing changed
/// and no route has a trade the arcs rank as a gain that helps.
#[verifier::loop_isolation(false)]
fn star_pass<L: FnMut(SearchEvent)>(
    cx: &Search,
    sol: &mut Routes,
    cost: &mut Vec<Cost>,
    route_stale: &mut Vec<bool>,
    log: &mut L,
    trace: &mut Vec<SearchEvent>,
) -> (improved: bool)
    requires
        improvements(old(trace)@, sum_costs(old(cost)@)),
        handed(*old(log), old(trace)@),
        sol_ok(cx, old(sol)@),
        priced(cx, old(sol)@, old(cost)@),
        old(route_stale)@.len() == old(sol)@.len(),
        stale_ok(cx, old(sol)@, old(cost)@, old(route_stale)@),
        forall|x: SearchEvent| call_requires(*old(log), (x,)),
    ensures
        *final(log) == *old(log),
        improvements(final(trace)@, sum_costs(final(cost)@)),
        handed(*old(log), final(trace)@),
        !improved ==> final(trace)@ == old(trace)@,
        sol_ok(cx, final(sol)@),
        priced(cx, final(sol)@, final(cost)@),
        sol_ms(final(sol)@) == sol_ms(old(sol)@),
        sum_costs(final(cost)@) <= sum_costs(old(cost)@),
        improved ==> sum_costs(final(cost)@) < sum_costs(old(cost)@),
        final(route_stale)@.len() == old(sol)@.len(),
        stale_ok(cx, final(sol)@, final(cost)@, final(route_stale)@),
        !improved ==> final(sol)@ == old(sol)@ && final(cost)@ == old(cost)@ && forall|r: int|
            0 <= r < final(sol)@.len() ==> #[trigger] star_optimal(cx, final(sol)@, final(cost)@, r),
{
    let nv = sol.len();
    let mut improved = false;
    let mut r: usize = 0;
    while r < nv
        invariant
            r <= nv,
            nv == sol@.len(),
            sol_ok(cx, sol@),
            priced(cx, sol@, cost@),
            sol_ms(sol@) == sol_ms(old(sol)@),
            sum_costs(cost@) <= sum_costs(old(cost)@),
            improved ==> sum_costs(cost@) < sum_costs(old(cost)@),
            route_stale@.len() == nv,
            stale_ok(cx, sol@, cost@, route_stale@),
            !improved ==> sol@ == old(sol)@ && cost@ == old(cost)@ && trace@ == old(trace)@ && forall|r2: int|
                0 <= r2 < r ==> #[trigger] star_optimal(cx, sol@, cost@, r2),
            improvements(trace@, sum_costs(cost@)),
            handed(*old(log), trace@),
            forall|x: SearchEvent| call_requires(*log, (x,)),
            *log == *old(log),
        decreases nv - r,
    {
        if sol[r].len() > 0 {
            let ghost s0 = sol@;
            let ghost c0 = cost@;
            let ghost st0 = route_stale@;
            match try_two_opt_star(cx, sol, cost, r) {
                Some(v) => {
                    route_stale.set(r, true);
                    route_stale.set(v, true);
                    improved = true;
                    proof {
                        lemma_sum_bounds(cost@);
                        assert forall|w: int|
                            0 <= w < route_stale@.len() && !#[trigger] route_stale@[w] implies !st0[w]
                            && sol@[w] == s0[w] && cost@[w] == c0[w] by {
                            assert(w != r && w != v);
                            assert(route_stale@[w] == st0[w]);
                            assert(sol@[w] == s0[w]);
                            assert(cost@[w] == c0[w]);
                        }
                        lemma_stale_frame(cx, s0, c0, st0, sol@, cost@, route_stale@);
                    }
                    let total = clamp_cost(cost_sum(&cost));
                    proof {
                        lemma_improvements_push(trace@, sum_costs(c0), sum_costs(cost@), Operator::TwoOptStar);
                    }
                    emit(log, trace, SearchEvent::Improvement { operator: Operator::TwoOptStar, cost: total });
                },
                None => {},
            }
        } else {
            proof {
                assert(star_optimal(cx, sol@, cost@, r as int));
            }
        }
        r += 1;
    }
    improved
}

/// The descent on whatever objective `cx` holds, down to a local optimum
/// of its neighborhood: relocate, swap, 2-opt and or-opt per node, with
/// don't-look bits, so a node is only re-examined after a move touched its
/// route; 2-opt* once those reach a fixpoint, as a partition-level kick,
/// then the sweep resumes. A solution with a route the objective cannot
/// price is left as it is.
#[verifier::loop_isolation(false)]
pub fn descend<L: FnMut(SearchEvent)>(
    cx: &Search,
    sol: &mut Routes,
    log: &mut L,
    trace: &mut Vec<SearchEvent>,
)
    requires
        sol_ok(cx, old(sol)@),
        forall|x: SearchEvent| call_requires(*old(log), (x,)),
        old(trace)@.len() == 0,
    ensures
        *final(log) == *old(log),
        handed(*old(log), final(trace)@),
        all_priced(cx, old(sol)@) ==> descent_events(final(trace)@, obj_sum(cx, final(sol)@, final(sol)@.len())),
        !all_priced(cx, old(sol)@) ==> final(trace)@.len() == 0,
        sol_ok(cx, final(sol)@),
        sol_ms(final(sol)@) == sol_ms(old(sol)@),
        all_priced(cx, old(sol)@) ==> all_priced(cx, final(sol)@) && obj_sum(
            cx,
            final(sol)@,
            final(sol)@.len(),
        ) <= obj_sum(cx, old(sol)@, old(sol)@.len()) && local_optimum(cx, final(sol)@),
        !all_priced(cx, old(sol)@) ==> final(sol)@ == old(sol)@,
{
    let m = cx.model();
    let nv = sol.len();
    let n = m.node_count();
    let mut cost: Vec<Cost> = Vec::new();
    let mut v: usize = 0;
    while v < nv
        invariant
            v <= nv,
            nv == sol@.len(),
            sol@ == old(sol)@,
            cost@.len() == v,
            forall|w: int|
                0 <= w < v ==> cx.objective((#[trigger] sol@[w])@, VehicleId(w as u32)) == Some(
                    cost@[w] as int,
                ),
        decreases nv - v,
    {
        proof {
            assert(route_valid(m, sol@[v as int]@));
        }
        match cx.eval(sol[v].as_slice(), VehicleId(v as u32)) {
            Some(c) => cost.push(c),
            None => {
                proof {
                    assert(cx.objective(old(sol)@[v as int]@, VehicleId(v as u32)) is None);
                }
                return ;
            },
        }
        v += 1;
    }
    let ghost cost0 = cost@;
    proof {
        lemma_priced_sum(cx, sol@, cost@);
        lemma_sum_bounds(cost@);
    }
    let mut queued: Vec<bool> = vec![false; n];
    let mut index: Vec<u32> = vec![u32::MAX; n];
    // Route-level don't-look bit: 2-opt takes a route and ignores the popped
    // node, so without this it rescans one route once per node in it.
    let mut route_stale: Vec<bool> = vec![true; nv];
    proof {
        assert forall|r: int| 0 <= r < route_stale@.len() implies #[trigger] route_stale@[r] by {}
    }
    let mut sx = Scratch::default();

    // Draining the queue is not a fixpoint: a move only re-wakes the two
    // routes it touched, and a node elsewhere may now have an improving move
    // into them. Re-sweep everything until a whole sweep finds nothing.
    loop
        invariant
            nv == sol@.len(),
            n == m.n(),
            sol_ok(cx, sol@),
            priced(cx, sol@, cost@),
            sol_ms(sol@) == sol_ms(old(sol)@),
            sum_costs(cost@) <= sum_costs(cost0),
            sum_costs(cost0) == obj_sum(cx, old(sol)@, old(sol)@.len()),
            all_priced(cx, old(sol)@),
            nv * (i64::MIN as int) <= sum_costs(cost@),
            queued@.len() == n,
            index@.len() == n,
            route_stale@.len() == nv,
            stale_ok(cx, sol@, cost@, route_stale@),
            improvements(trace@, sum_costs(cost@)),
            handed(*old(log), trace@),
            forall|x: SearchEvent| call_requires(*log, (x,)),
            *log == *old(log),
        decreases sum_costs(cost@) - nv * (i64::MIN as int),
    {
        let mut queue = build_sweep(m, sol, &mut index, &mut queued);
        let ghost q0 = queue@;
        let mut improved = drain(
            cx,
            sol,
            &mut cost,
            &mut queue,
            &mut index,
            &mut queued,
            &mut route_stale,
            &mut sx,
            log,
            trace,
        );
        if !improved {
            improved = star_pass(cx, sol, &mut cost, &mut route_stale, log, trace);
        }
        if !improved {
            let total = clamp_cost(cost_sum(&cost));
            let ghost before = trace@;
            emit(log, trace, SearchEvent::Done { cost: total });
            proof {
                lemma_priced_sum(cx, sol@, cost@);
                assert(trace@.drop_last() =~= before);
            }
            proof {
                lemma_priced_sum(cx, sol@, cost@);
                lemma_priced_prices(cx, sol@, cost@);
                lemma_flat_members(sol@);
                assert forall|u: NodeId| #[trigger] settled(cx, sol@, cost@, u) by {
                    if exists|r: int| #[trigger] owns(sol@, r, u) {
                        let r = choose|r: int| #[trigger] owns(sol@, r, u);
                        assert(flat(sol@).contains(u));
                        let k = choose|k: int| 0 <= k < q0.len() && q0[k] == u;
                        assert(settled(cx, sol@, cost@, q0[k]));
                    }
                }
            }
            return ;
        }
        proof {
            lemma_sum_bounds(cost@);
        }
    }
}

/// First-improvement hill climb over relocate, swap, 2-opt and or-opt, with
/// 2-opt* at each fixpoint of those, down to a local optimum of true cost.
pub fn local_search(m: &Model, sol: &mut Routes)
    requires
        solution_ok(m, old(sol)@),
    ensures
        improved_from(m, old(sol)@, final(sol)@),
        true_local_optimum(m, final(sol)@),
{
    local_search_with(m, sol, |_e: SearchEvent| {})
}

/// `sol` is a local optimum of the neighborhood for true cost: under the
/// objective every fresh context holds.
pub open spec fn true_local_optimum(m: &Model, sol: Seq<Vec<NodeId>>) -> bool {
    forall|cx: Search|
        cx.model_spec() == m && cx.lambda_spec() == 0 && cx.pen_map() == Map::<u64, i64>::empty()
            ==> #[trigger] local_optimum(&cx, sol)
}

/// `after` keeps the nodes of `before`, every route feasible, and costs no
/// more.
pub open spec fn improved_from(m: &Model, before: Seq<Vec<NodeId>>, after: Seq<Vec<NodeId>>) -> bool {
    &&& solution_ok(m, after)
    &&& sol_ms(after) == sol_ms(before)
    &&& total(m, after) <= total(m, before)
}

/// `local_search` reporting an `Improvement` per accepted move and a final
/// `Done`.
pub fn local_search_with<L: FnMut(SearchEvent)>(m: &Model, sol: &mut Routes, mut log: L)
    requires
        solution_ok(m, old(sol)@),
        forall|x: SearchEvent| call_requires(log, (x,)),
    ensures
        improved_from(m, old(sol)@, final(sol)@),
        true_local_optimum(m, final(sol)@),
        exists|t: Seq<SearchEvent>| handed(log, t) && descent_events(t, total(m, final(sol)@)),
{
    let mut trace: Vec<SearchEvent> = Vec::new();
    hill_climb(m, sol, &mut log, &mut trace);
    assert(handed(log, trace@) && descent_events(trace@, total(m, sol@)));
}

/// `local_search`, its events appended to `trace` in the order they
/// happen: one `Improvement` per accepted move, costs falling, then `Done`
/// with the final cost.
pub fn local_search_traced(m: &Model, sol: &mut Routes, trace: &mut Vec<SearchEvent>)
    requires
        solution_ok(m, old(sol)@),
    ensures
        improved_from(m, old(sol)@, final(sol)@),
        true_local_optimum(m, final(sol)@),
        exists|t: Seq<SearchEvent>|
            final(trace)@ == old(trace)@ + t && descent_events(t, total(m, final(sol)@)),
{
    let mut quiet = |_e: SearchEvent| {};
    let mut local: Vec<SearchEvent> = Vec::new();
    hill_climb(m, sol, &mut quiet, &mut local);
    let ghost t = local@;
    trace.append(&mut local);
    assert(descent_events(t, total(m, sol@)));
}

/// The hill climb on true cost, with the observer borrowed.
pub(crate) fn hill_climb<L: FnMut(SearchEvent)>(
    m: &Model,
    sol: &mut Routes,
    log: &mut L,
    trace: &mut Vec<SearchEvent>,
)
    requires
        solution_ok(m, old(sol)@),
        forall|x: SearchEvent| call_requires(*old(log), (x,)),
        old(trace)@.len() == 0,
    ensures
        *final(log) == *old(log),
        handed(*old(log), final(trace)@),
        descent_events(final(trace)@, total(m, final(sol)@)),
        improved_from(m, old(sol)@, final(sol)@),
        true_local_optimum(m, final(sol)@),
{
    let cx = Search::new(m);
    proof {
        assert forall|v: int| 0 <= v < old(sol)@.len() implies (#[trigger] cx.objective(
            old(sol)@[v]@,
            VehicleId(v as u32),
        )) is Some by {
            lemma_fresh_objective(&cx, old(sol)@[v]@, VehicleId(v as u32));
            assert(cost_spec(m, old(sol)@[v]@, VehicleId(v as u32)) is Some);
        }
    }
    descend(&cx, sol, log, trace);
    proof {
        lemma_priced_feasible(&cx, sol@);
        lemma_fresh_sum(&cx, sol@, sol@.len());
        lemma_fresh_sum(&cx, old(sol)@, old(sol)@.len());
        assert forall|cx2: Search|
            cx2.model_spec() == m && cx2.lambda_spec() == 0 && cx2.pen_map() == Map::<
                u64,
                i64,
            >::empty() implies #[trigger] local_optimum(&cx2, sol@) by {
            lemma_local_optimum_objective(&cx, &cx2, sol@);
        }
    }
}

} // verus!
