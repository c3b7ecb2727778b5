//! Guided local search on top of the hill climb.

use vstd::prelude::*;

use super::descent::{descend, hill_climb, improved_from, lemma_priced_feasible, local_optimum, true_local_optimum};
use super::order::views;
use super::{
    SearchEvent, clamp_cost, clamp_spec, emit, event_cost, falls, feasible, handed, solution_ok, total,
    true_cost,
};
use crate::eval::{Routes, cost_spec, eval_route, prev_of, route_valid, sol_ms, sol_nodes_valid, stop_of};
use crate::model::Model;
use crate::operators::{all_priced, copy_route, obj_sum, sol_ok};
use crate::search::{Search, same_arc};
use crate::types::{Cost, NodeId, VehicleId};

verus! {

broadcast use {vstd::seq_lib::group_to_multiset_ensures, vstd::multiset::group_multiset_axioms};

/// Fraction of the average arc cost that one penalty is worth. The usual
/// starting point for CVRP; higher diversifies harder, lower descends harder.
pub const LAMBDA_NUMERATOR: Cost = 1;

pub const LAMBDA_DENOMINATOR: Cost = 10;

/// True cost of a solution whose routes are all feasible, wide enough that
/// the sum cannot overflow.
fn routes_total(m: &Model, sol: &Routes) -> (r: i128)
    requires
        solution_ok(m, sol@),
    ensures
        r as int == total(m, sol@),
        -0x8000_0000_0000_0000_0000_0000 <= r <= 0x8000_0000_0000_0000_0000_0000,
{
    let mut acc: i128 = 0;
    let mut v: usize = 0;
    while v < sol.len()
        invariant
            solution_ok(m, sol@),
            v <= sol@.len(),
            sol@.len() <= u32::MAX,
            acc as int == true_cost(m, sol@, v as nat),
            -(v as int) * 0x8000_0000_0000_0000 <= acc <= (v as int) * 0x8000_0000_0000_0000,
        decreases sol@.len() - v,
    {
        proof {
            assert(route_valid(m, sol@[v as int]@));
            assert(cost_spec(m, sol@[v as int]@, VehicleId(v as u32)) is Some);
        }
        let c = match eval_route(m, sol[v].as_slice(), VehicleId(v as u32)) {
            Some(c) => c,
            None => 0,
        };
        acc = acc + c as i128;
        v += 1;
    }
    acc
}

/// A fresh solution holding the same routes as `sol`.
fn copy_routes(sol: &Routes) -> (r: Routes)
    ensures
        r@.len() == sol@.len(),
        forall|i: int| 0 <= i < sol@.len() ==> (#[trigger] r@[i])@ == sol@[i]@,
{
    let mut r: Routes = Vec::new();
    let mut i: usize = 0;
    while i < sol.len()
        invariant
            i <= sol@.len(),
            r@.len() == i,
            forall|j: int| 0 <= j < i ==> (#[trigger] r@[j])@ == sol@[j]@,
        decreases sol@.len() - i,
    {
        r.push(copy_route(sol[i].as_slice()));
        i += 1;
    }
    r
}

/// Two solutions whose routes read the same are the same solution.
proof fn lemma_same_routes(m: &Model, a: Seq<Vec<NodeId>>, b: Seq<Vec<NodeId>>, k: nat)
    requires
        a.len() == b.len(),
        k <= a.len(),
        forall|i: int| 0 <= i < a.len() ==> (#[trigger] a[i])@ == b[i]@,
    ensures
        true_cost(m, a, k) == true_cost(m, b, k),
        k == a.len() ==> sol_ms(a) == sol_ms(b),
        feasible(m, a) == feasible(m, b),
        sol_nodes_valid(m, a) == sol_nodes_valid(m, b),
    decreases k,
{
    if k > 0 {
        lemma_same_routes(m, a, b, (k - 1) as nat);
        assert(a[k - 1]@ == b[k - 1]@);
        if k == a.len() {
            let a1 = a.drop_last();
            let b1 = b.drop_last();
            assert forall|i: int| 0 <= i < a1.len() implies (#[trigger] a1[i])@ == b1[i]@ by {
                assert(a1[i] == a[i]);
                assert(b1[i] == b[i]);
            }
            lemma_same_routes(m, a1, b1, a1.len());
        }
    }
    assert(feasible(m, a) == feasible(m, b)) by {
        if feasible(m, a) {
            assert forall|v: int| 0 <= v < b.len() implies (#[trigger] cost_spec(
                m,
                b[v]@,
                VehicleId(v as u32),
            )) is Some by {
                assert(a[v]@ == b[v]@);
                assert(cost_spec(m, a[v]@, VehicleId(v as u32)) is Some);
            }
        }
        if feasible(m, b) {
            assert forall|v: int| 0 <= v < a.len() implies (#[trigger] cost_spec(
                m,
                a[v]@,
                VehicleId(v as u32),
            )) is Some by {
                assert(a[v]@ == b[v]@);
                assert(cost_spec(m, b[v]@, VehicleId(v as u32)) is Some);
            }
        }
    }
    assert(sol_nodes_valid(m, a) == sol_nodes_valid(m, b)) by {
        if sol_nodes_valid(m, a) {
            assert forall|i: int| 0 <= i < b.len() implies route_valid(m, (#[trigger] b[i])@) by {
                assert(a[i]@ == b[i]@);
                assert(route_valid(m, a[i]@));
            }
        }
        if sol_nodes_valid(m, b) {
            assert forall|i: int| 0 <= i < a.len() implies route_valid(m, (#[trigger] a[i])@) by {
                assert(a[i]@ == b[i]@);
                assert(route_valid(m, b[i]@));
            }
        }
    }
}

/// Stops on the first `k` routes, the drop sink's aside.
pub open spec fn served_upto(m: &Model, sol: Seq<Vec<NodeId>>, k: nat) -> int
    decreases k,
{
    if k == 0 {
        0
    } else {
        served_upto(m, sol, (k - 1) as nat) + if m.sink() == Some(VehicleId((k - 1) as u32)) {
            0
        } else {
            sol[k - 1]@.len() as int
        }
    }
}

/// Stops served by real vehicles: dropped nodes are not customers.
fn customers(m: &Model, sol: &Routes) -> (r: usize)
    requires
        sol@.len() <= u32::MAX,
    ensures
        r as int == if served_upto(m, sol@, sol@.len()) <= usize::MAX {
            served_upto(m, sol@, sol@.len())
        } else {
            usize::MAX as int
        },
{
    let sink = m.unserved_vehicle();
    let mut n: usize = 0;
    let mut v: usize = 0;
    while v < sol.len()
        invariant
            v <= sol@.len() <= u32::MAX,
            sink == m.sink(),
            n as int == if served_upto(m, sol@, v as nat) <= usize::MAX {
                served_upto(m, sol@, v as nat)
            } else {
                usize::MAX as int
            },
            served_upto(m, sol@, v as nat) >= 0,
        decreases sol@.len() - v,
    {
        proof {
            assert(VehicleId(v as u32).0 == v);
        }
        let is_sink = match sink {
            Some(s) => s.index() == v,
            None => false,
        };
        if !is_sink {
            n = n.saturating_add(sol[v].len());
        }
        v += 1;
    }
    n
}

/// One penalty's weight: the average arc of the first local optimum, scaled
/// by `LAMBDA_NUMERATOR / LAMBDA_DENOMINATOR`, and never below 1.
pub open spec fn lambda_spec(best: int, customers: int) -> int {
    let per = LAMBDA_DENOMINATOR * if customers < 1 {
        1
    } else {
        customers
    };
    let q = if best <= 0 {
        0
    } else {
        (LAMBDA_NUMERATOR * best) / per
    };
    if q < 1 {
        1
    } else if q > i64::MAX {
        i64::MAX as int
    } else {
        q
    }
}

fn lambda_for(best: i128, customers: usize) -> (r: Cost)
    requires
        best <= 0x8000_0000_0000_0000_0000_0000,
    ensures
        r as int == lambda_spec(best as int, customers as int),
{
    if best <= 0 {
        return 1;
    }
    let c: u128 = if customers == 0 {
        1
    } else {
        customers as u128
    };
    let den = LAMBDA_DENOMINATOR as u128;
    assert(den * c <= 10 * 0x1_0000_0000_0000_0000) by (nonlinear_arith)
        requires
            den == 10,
            c <= 0x1_0000_0000_0000_0000,
    ;
    let per: u128 = den * c;
    let num = LAMBDA_NUMERATOR as u128;
    let b = best as u128;
    assert(b * num <= 0x8000_0000_0000_0000_0000_0000) by (nonlinear_arith)
        requires
            num == 1,
            b <= 0x8000_0000_0000_0000_0000_0000,
    ;
    let q: u128 = (b * num) / per;
    if q < 1 {
        1
    } else if q > i64::MAX as u128 {
        i64::MAX
    } else {
        q as i64
    }
}

/// The worst arc so far: an `i64` cost, and one more than an `i64`
/// penalty count.
spec fn top_ok(t: Option<(i128, i128)>) -> bool {
    t matches Some((c, s)) ==> -0x8000_0000_0000_0000 <= c < 0x8000_0000_0000_0000
        && -0x8000_0000_0000_0000 < s <= 0x8000_0000_0000_0000
}

/// Arc `k` of route `v` is one guided local search weighs: the route is
/// driven (not the drop sink's) and not empty, and `k` at most its length,
/// the last arc running to the end terminal.
pub open spec fn weighed(m: &Model, sol: Seq<Vec<NodeId>>, v: int, k: int) -> bool {
    &&& 0 <= v < sol.len()
    &&& m.sink() != Some(VehicleId(v as u32))
    &&& sol[v]@.len() > 0
    &&& 0 <= k <= sol[v]@.len()
}

/// Where arc `k` of route `v` starts.
pub open spec fn arc_from(m: &Model, sol: Seq<Vec<NodeId>>, v: int, k: int) -> NodeId {
    prev_of(sol[v]@, m.fleet()[v], k)
}

/// Where arc `k` of route `v` ends.
pub open spec fn arc_to(m: &Model, sol: Seq<Vec<NodeId>>, v: int, k: int) -> NodeId {
    stop_of(sol[v]@, m.fleet()[v], k)
}

/// The utility of arc `k` of route `v`, as the fraction `(cost, 1 +
/// penalty)`.
pub open spec fn utility(cx: &Search, sol: Seq<Vec<NodeId>>, v: int, k: int) -> (int, int) {
    let m = cx.model_spec();
    let (a, b) = (arc_from(m, sol, v, k), arc_to(m, sol, v, k));
    (m.arc_spec(m.fleet()[v].cost_class as int, a, b), 1 + cx.pen(a, b))
}

/// The fraction `x` is at least the fraction `y`, both over positive
/// denominators.
pub open spec fn frac_ge(x: (int, int), y: (int, int)) -> bool {
    x.0 * y.1 >= y.0 * x.1
}

/// Arc `k` of route `v` has the greatest utility of all weighed arcs.
pub open spec fn worst_arc(cx: &Search, sol: Seq<Vec<NodeId>>, v: int, k: int) -> bool {
    &&& weighed(cx.model_spec(), sol, v, k)
    &&& forall|v2: int, k2: int|
        #[trigger] weighed(cx.model_spec(), sol, v2, k2) ==> frac_ge(
            utility(cx, sol, v, k),
            utility(cx, sol, v2, k2),
        )
}

/// `{a, b}` joins the ends of a worst arc.
pub open spec fn punished(cx: &Search, sol: Seq<Vec<NodeId>>, a: NodeId, b: NodeId) -> bool {
    exists|v: int, k: int|
        #[trigger] worst_arc(cx, sol, v, k) && same_arc(
            a,
            b,
            arc_from(cx.model_spec(), sol, v, k),
            arc_to(cx.model_spec(), sol, v, k),
        )
}

/// `{a, b}` as the pair with the smaller id first.
pub open spec fn ordered(a: NodeId, b: NodeId) -> (NodeId, NodeId) {
    if a.0 <= b.0 {
        (a, b)
    } else {
        (b, a)
    }
}

proof fn lemma_frac_trans(x: (int, int), y: (int, int), z: (int, int))
    requires
        x.1 > 0,
        y.1 > 0,
        z.1 > 0,
        frac_ge(x, y),
        frac_ge(y, z),
    ensures
        frac_ge(x, z),
        (x.0 * y.1 > y.0 * x.1) ==> x.0 * z.1 > z.0 * x.1,
        (y.0 * z.1 > z.0 * y.1) ==> x.0 * z.1 > z.0 * x.1,
{
    assert(x.0 * y.1 * z.1 >= y.0 * x.1 * z.1) by (nonlinear_arith)
        requires
            x.0 * y.1 >= y.0 * x.1,
            z.1 > 0,
    ;
    assert(y.0 * z.1 * x.1 >= z.0 * y.1 * x.1) by (nonlinear_arith)
        requires
            y.0 * z.1 >= z.0 * y.1,
            x.1 > 0,
    ;
    assert(x.0 * z.1 * y.1 >= z.0 * x.1 * y.1) by (nonlinear_arith)
        requires
            x.0 * y.1 * z.1 >= y.0 * x.1 * z.1,
            y.0 * z.1 * x.1 >= z.0 * y.1 * x.1,
    ;
    assert(x.0 * z.1 >= z.0 * x.1) by (nonlinear_arith)
        requires
            x.0 * z.1 * y.1 >= z.0 * x.1 * y.1,
            y.1 > 0,
    ;
    if x.0 * y.1 > y.0 * x.1 {
        assert(x.0 * z.1 > z.0 * x.1) by (nonlinear_arith)
            requires
                x.0 * y.1 > y.0 * x.1,
                y.0 * z.1 >= z.0 * y.1,
                x.1 > 0,
                y.1 > 0,
                z.1 > 0,
        ;
    }
    if y.0 * z.1 > z.0 * y.1 {
        assert(x.0 * z.1 > z.0 * x.1) by (nonlinear_arith)
            requires
                x.0 * y.1 >= y.0 * x.1,
                y.0 * z.1 > z.0 * y.1,
                x.1 > 0,
                y.1 > 0,
                z.1 > 0,
        ;
    }
}

/// The worst utility so far, as integers.
pub open spec fn top_view(t: Option<(i128, i128)>) -> Option<(int, int)> {
    match t {
        Some((c, s)) => Some((c as int, s as int)),
        None => None,
    }
}

/// One more arc, of utility `x` joining the pair `arc`, weighed against the
/// worst so far: it becomes the worst if strictly worse, joins the worst if
/// as bad, and is passed over otherwise.
pub open spec fn weighed_in(
    top0: Option<(int, int)>,
    worst0: Seq<(NodeId, NodeId)>,
    x: (int, int),
    arc: (NodeId, NodeId),
    top1: Option<(int, int)>,
    worst1: Seq<(NodeId, NodeId)>,
) -> bool {
    match top0 {
        None => top1 == Some(x) && worst1 == worst0.push(arc),
        Some(t) => if x.0 * t.1 > t.0 * x.1 {
            top1 == Some(x) && worst1 == seq![arc]
        } else if x.0 * t.1 == t.0 * x.1 {
            top1 == top0 && worst1 == worst0.push(arc)
        } else {
            top1 == top0 && worst1 == worst0
        },
    }
}

/// Arc `k0` of route `v0` is weighed and comes before arc `k` of route `v`
/// in the scan.
pub open spec fn scanned(m: &Model, sol: Seq<Vec<NodeId>>, v0: int, k0: int, v: int, k: int) -> bool {
    weighed(m, sol, v0, k0) && (v0 < v || (v0 == v && k0 < k))
}

/// The pair of arc `k0` of route `v0`, smaller id first.
pub open spec fn pair_of(m: &Model, sol: Seq<Vec<NodeId>>, v0: int, k0: int) -> (NodeId, NodeId) {
    ordered(arc_from(m, sol, v0, k0), arc_to(m, sol, v0, k0))
}

/// The pair `w` is that of an arc scanned before arc `k` of route `v` whose
/// utility is at least `t`.
pub open spec fn justified(
    cx: &Search,
    sol: Seq<Vec<NodeId>>,
    t: (int, int),
    w: (NodeId, NodeId),
    v: int,
    k: int,
) -> bool {
    exists|v0: int, k0: int| #[trigger]
        scanned(cx.model_spec(), sol, v0, k0, v, k) && frac_ge(utility(cx, sol, v0, k0), t) && w
            == pair_of(cx.model_spec(), sol, v0, k0)
}

/// What the scan up to arc `k` of route `v` has gathered: `top`, the worst
/// utility among the arcs scanned and attained by one of them, and in
/// `worst` the pairs of exactly the arcs that attain it.
pub open spec fn scan_ok(
    cx: &Search,
    sol: Seq<Vec<NodeId>>,
    top: Option<(int, int)>,
    worst: Seq<(NodeId, NodeId)>,
    v: int,
    k: int,
) -> bool {
    let m = cx.model_spec();
    match top {
        None => worst.len() == 0 && forall|v0: int, k0: int| !#[trigger] scanned(m, sol, v0, k0, v, k),
        Some(t) => {
            &&& t.1 >= 1
            &&& exists|v0: int, k0: int| #[trigger]
                scanned(m, sol, v0, k0, v, k) && utility(cx, sol, v0, k0) == t
            &&& forall|v0: int, k0: int| #[trigger]
                scanned(m, sol, v0, k0, v, k) ==> frac_ge(t, utility(cx, sol, v0, k0))
            &&& forall|e: int| 0 <= e < worst.len() ==> justified(cx, sol, t, #[trigger] worst[e], v, k)
            &&& forall|v0: int, k0: int| #[trigger]
                scanned(m, sol, v0, k0, v, k) && frac_ge(utility(cx, sol, v0, k0), t)
                    ==> worst.contains(pair_of(m, sol, v0, k0))
        },
    }
}

/// Every utility's denominator is at least one.
proof fn lemma_utility_pos(cx: &Search, sol: Seq<Vec<NodeId>>, v: int, k: int)
    requires
        cx.pens_nonneg(),
    ensures
        utility(cx, sol, v, k).1 >= 1,
{
    let m = cx.model_spec();
    let (a, b) = (arc_from(m, sol, v, k), arc_to(m, sol, v, k));
    if cx.pen_map().contains_key(crate::search::arc_key_spec(a, b)) {
    }
}

/// Weighing one more arc keeps the scan's summary.
proof fn lemma_scan_step(
    cx: &Search,
    sol: Seq<Vec<NodeId>>,
    v: int,
    k: int,
    top0: Option<(int, int)>,
    worst0: Seq<(NodeId, NodeId)>,
    top1: Option<(int, int)>,
    worst1: Seq<(NodeId, NodeId)>,
)
    requires
        cx.pens_nonneg(),
        scan_ok(cx, sol, top0, worst0, v, k),
        weighed(cx.model_spec(), sol, v, k),
        weighed_in(top0, worst0, utility(cx, sol, v, k), pair_of(cx.model_spec(), sol, v, k), top1, worst1),
    ensures
        scan_ok(cx, sol, top1, worst1, v, k + 1),
{
    let m = cx.model_spec();
    let x = utility(cx, sol, v, k);
    let xa = pair_of(m, sol, v, k);
    lemma_utility_pos(cx, sol, v, k);
    assert(scanned(m, sol, v, k, v, k + 1));
    assert forall|v0: int, k0: int| #[trigger] scanned(m, sol, v0, k0, v, k + 1) implies (scanned(
        m,
        sol,
        v0,
        k0,
        v,
        k,
    ) || (v0 == v && k0 == k)) by {}
    assert forall|v0: int, k0: int| #[trigger] scanned(m, sol, v0, k0, v, k) implies scanned(
        m,
        sol,
        v0,
        k0,
        v,
        k + 1,
    ) by {}
    match top0 {
        None => {
            assert(worst1 =~= seq![xa]);
            assert forall|v0: int, k0: int| #[trigger]
                scanned(m, sol, v0, k0, v, k + 1) implies frac_ge(x, utility(cx, sol, v0, k0)) by {
                assert(!scanned(m, sol, v0, k0, v, k));
            }
            assert forall|e: int| 0 <= e < worst1.len() implies justified(cx, sol, x, #[trigger] worst1[e], v, k + 1) by {
                assert(worst1[e] == xa);
            }
            assert forall|v0: int, k0: int| #[trigger]
                scanned(m, sol, v0, k0, v, k + 1) && frac_ge(utility(cx, sol, v0, k0), x) implies worst1.contains(
                pair_of(m, sol, v0, k0),
            ) by {
                assert(!scanned(m, sol, v0, k0, v, k));
                assert(worst1[0] == xa);
            }
        },
        Some(t) => {
            if x.0 * t.1 > t.0 * x.1 {
                assert(worst1 =~= seq![xa]);
                assert forall|v0: int, k0: int| #[trigger]
                    scanned(m, sol, v0, k0, v, k + 1) implies frac_ge(x, utility(cx, sol, v0, k0)) by {
                    if scanned(m, sol, v0, k0, v, k) {
                        lemma_utility_pos(cx, sol, v0, k0);
                        lemma_frac_trans(x, t, utility(cx, sol, v0, k0));
                    }
                }
                assert forall|e: int| 0 <= e < worst1.len() implies justified(cx, sol, x, #[trigger] worst1[e], v, k + 1) by {
                    assert(worst1[e] == xa);
                }
                assert forall|v0: int, k0: int| #[trigger]
                    scanned(m, sol, v0, k0, v, k + 1) && frac_ge(utility(cx, sol, v0, k0), x) implies worst1.contains(
                    pair_of(m, sol, v0, k0),
                ) by {
                    if scanned(m, sol, v0, k0, v, k) {
                        lemma_utility_pos(cx, sol, v0, k0);
                        lemma_frac_trans(utility(cx, sol, v0, k0), x, t);
                        assert(false);
                    }
                    assert(worst1[0] == xa);
                }
            } else if x.0 * t.1 == t.0 * x.1 {
                let (w0, w1) = choose|v0: int, k0: int| #[trigger]
                    scanned(m, sol, v0, k0, v, k) && utility(cx, sol, v0, k0) == t;
                assert(scanned(m, sol, w0, w1, v, k + 1));
                assert forall|v0: int, k0: int| #[trigger]
                    scanned(m, sol, v0, k0, v, k + 1) implies frac_ge(t, utility(cx, sol, v0, k0)) by {}
                assert forall|e: int| 0 <= e < worst1.len() implies justified(cx, sol, t, #[trigger] worst1[e], v, k + 1) by {
                    if e < worst0.len() {
                        assert(worst1[e] == worst0[e]);
                        let (u0, u1) = choose|v0: int, k0: int| #[trigger]
                            scanned(m, sol, v0, k0, v, k) && frac_ge(utility(cx, sol, v0, k0), t)
                                && worst0[e] == pair_of(m, sol, v0, k0);
                        assert(scanned(m, sol, u0, u1, v, k + 1));
                    } else {
                        assert(worst1[e] == xa);
                    }
                }
                assert forall|v0: int, k0: int| #[trigger]
                    scanned(m, sol, v0, k0, v, k + 1) && frac_ge(utility(cx, sol, v0, k0), t) implies worst1.contains(
                    pair_of(m, sol, v0, k0),
                ) by {
                    if scanned(m, sol, v0, k0, v, k) {
                        let j = choose|j: int| 0 <= j < worst0.len() && worst0[j] == pair_of(m, sol, v0, k0);
                        assert(worst1[j] == worst0[j]);
                    } else {
                        assert(worst1[worst0.len() as int] == xa);
                    }
                }
            } else {
                let (w0, w1) = choose|v0: int, k0: int| #[trigger]
                    scanned(m, sol, v0, k0, v, k) && utility(cx, sol, v0, k0) == t;
                assert(scanned(m, sol, w0, w1, v, k + 1));
                assert forall|v0: int, k0: int| #[trigger]
                    scanned(m, sol, v0, k0, v, k + 1) implies frac_ge(t, utility(cx, sol, v0, k0)) by {}
                assert forall|e: int| 0 <= e < worst1.len() implies justified(cx, sol, t, #[trigger] worst1[e], v, k + 1) by {
                    let (u0, u1) = choose|v0: int, k0: int| #[trigger]
                        scanned(m, sol, v0, k0, v, k) && frac_ge(utility(cx, sol, v0, k0), t)
                            && worst0[e] == pair_of(m, sol, v0, k0);
                    assert(scanned(m, sol, u0, u1, v, k + 1));
                }
                assert forall|v0: int, k0: int| #[trigger]
                    scanned(m, sol, v0, k0, v, k + 1) && frac_ge(utility(cx, sol, v0, k0), t) implies worst1.contains(
                    pair_of(m, sol, v0, k0),
                ) by {
                    if !scanned(m, sol, v0, k0, v, k) {
                        assert(v0 == v && k0 == k);
                        assert(false);
                    }
                }
            }
        },
    }
}

/// Two scan positions with the same arcs before them have the same summary.
proof fn lemma_scan_same(
    cx: &Search,
    sol: Seq<Vec<NodeId>>,
    top: Option<(int, int)>,
    worst: Seq<(NodeId, NodeId)>,
    v: int,
    k: int,
    v2: int,
    k2: int,
)
    requires
        scan_ok(cx, sol, top, worst, v, k),
        forall|v0: int, k0: int|
            #[trigger] scanned(cx.model_spec(), sol, v0, k0, v, k) == scanned(
                cx.model_spec(),
                sol,
                v0,
                k0,
                v2,
                k2,
            ),
    ensures
        scan_ok(cx, sol, top, worst, v2, k2),
{
    let m = cx.model_spec();
    assert forall|v0: int, k0: int| #[trigger] scanned(m, sol, v0, k0, v2, k2) implies scanned(
        m,
        sol,
        v0,
        k0,
        v,
        k,
    ) by {
        assert(scanned(m, sol, v0, k0, v, k) == scanned(m, sol, v0, k0, v2, k2));
    }
    if let Some(t) = top {
        let (w0, w1) = choose|v0: int, k0: int| #[trigger]
            scanned(m, sol, v0, k0, v, k) && utility(cx, sol, v0, k0) == t;
        assert(scanned(m, sol, w0, w1, v2, k2));
        assert forall|e: int| 0 <= e < worst.len() implies justified(cx, sol, t, #[trigger] worst[e], v2, k2) by {
            assert(justified(cx, sol, t, worst[e], v, k));
            let (u0, u1) = choose|v0: int, k0: int| #[trigger]
                scanned(m, sol, v0, k0, v, k) && frac_ge(utility(cx, sol, v0, k0), t) && worst[e]
                    == pair_of(m, sol, v0, k0);
            assert(scanned(m, sol, u0, u1, v2, k2));
        }
    }
}

/// The pair `w` is that of a worst arc.
pub open spec fn worst_pair(cx: &Search, sol: Seq<Vec<NodeId>>, w: (NodeId, NodeId)) -> bool {
    exists|v0: int, k0: int| #[trigger] worst_arc(cx, sol, v0, k0) && w == pair_of(cx.model_spec(), sol, v0, k0)
}

/// A scan of every arc gathers exactly the pairs of the worst arcs.
proof fn lemma_scan_done(
    cx: &Search,
    sol: Seq<Vec<NodeId>>,
    top: Option<(int, int)>,
    worst: Seq<(NodeId, NodeId)>,
)
    requires
        cx.pens_nonneg(),
        scan_ok(cx, sol, top, worst, sol.len() as int, 0),
    ensures
        forall|e: int| 0 <= e < worst.len() ==> worst_pair(cx, sol, #[trigger] worst[e]),
        forall|e: int| 0 <= e < worst.len() ==> (#[trigger] worst[e]).0.0 <= worst[e].1.0,
        forall|v0: int, k0: int|
            #[trigger] worst_arc(cx, sol, v0, k0) ==> worst.contains(pair_of(cx.model_spec(), sol, v0, k0)),
{
    let m = cx.model_spec();
    let n = sol.len() as int;
    assert forall|v0: int, k0: int| #[trigger] weighed(m, sol, v0, k0) implies scanned(m, sol, v0, k0, n, 0) by {}
    match top {
        None => {
            assert forall|v0: int, k0: int| #[trigger] worst_arc(cx, sol, v0, k0) implies worst.contains(
                pair_of(m, sol, v0, k0),
            ) by {
                assert(scanned(m, sol, v0, k0, n, 0));
            }
        },
        Some(t) => {
            let (w0, w1) = choose|v0: int, k0: int| #[trigger]
                scanned(m, sol, v0, k0, n, 0) && utility(cx, sol, v0, k0) == t;
            assert forall|e: int| 0 <= e < worst.len() implies worst_pair(cx, sol, #[trigger] worst[e])
                && worst[e].0.0 <= worst[e].1.0 by {
                assert(justified(cx, sol, t, worst[e], n, 0));
                let (u0, u1) = choose|v0: int, k0: int| #[trigger]
                    scanned(m, sol, v0, k0, n, 0) && frac_ge(utility(cx, sol, v0, k0), t) && worst[e]
                        == pair_of(m, sol, v0, k0);
                assert forall|v2: int, k2: int| #[trigger] weighed(m, sol, v2, k2) implies frac_ge(
                    utility(cx, sol, u0, u1),
                    utility(cx, sol, v2, k2),
                ) by {
                    assert(scanned(m, sol, v2, k2, n, 0));
                    lemma_utility_pos(cx, sol, u0, u1);
                    lemma_utility_pos(cx, sol, v2, k2);
                    lemma_frac_trans(utility(cx, sol, u0, u1), t, utility(cx, sol, v2, k2));
                }
                assert(worst_arc(cx, sol, u0, u1));
            }
            assert forall|v0: int, k0: int| #[trigger] worst_arc(cx, sol, v0, k0) implies worst.contains(
                pair_of(m, sol, v0, k0),
            ) by {
                assert(weighed(m, sol, w0, w1));
                assert(frac_ge(utility(cx, sol, v0, k0), utility(cx, sol, w0, w1)));
                assert(scanned(m, sol, v0, k0, n, 0));
            }
        },
    }
}

/// Weighs arc `prev -> node` against the worst seen so far, by utility
/// `cost / (1 + penalty)`; the comparison is cross-multiplied, so ties
/// break the same way on every run.
fn consider_arc(
    cx: &Search,
    class: usize,
    prev: NodeId,
    node: NodeId,
    top: &mut Option<(i128, i128)>,
    worst: &mut Vec<(NodeId, NodeId)>,
)
    requires
        cx.model_spec().wf(),
        class < cx.model_spec().class_count(),
        cx.model_spec().valid_node(prev),
        cx.model_spec().valid_node(node),
        top_ok(*old(top)),
        forall|i: int|
            0 <= i < old(worst)@.len() ==> cx.model_spec().valid_node((#[trigger] old(worst)@[i]).0)
                && cx.model_spec().valid_node(old(worst)@[i].1),
    ensures
        top_ok(*final(top)),
        forall|i: int|
            0 <= i < final(worst)@.len() ==> cx.model_spec().valid_node(
                (#[trigger] final(worst)@[i]).0,
            ) && cx.model_spec().valid_node(final(worst)@[i].1),
        weighed_in(
            top_view(*old(top)),
            old(worst)@,
            (cx.model_spec().arc_spec(class as int, prev, node), 1 + cx.pen(prev, node)),
            ordered(prev, node),
            top_view(*final(top)),
            final(worst)@,
        ),
{
    let cost = cx.model().eval(class, prev, node) as i128;
    let seen = 1 + cx.penalty(prev, node) as i128;
    let arc = if prev.0 <= node.0 {
        (prev, node)
    } else {
        (node, prev)
    };
    match *top {
        None => {
            *top = Some((cost, seen));
            worst.push(arc);
        },
        Some((top_cost, top_seen)) => {
            proof {
                assert(-0x4000_0000_0000_0000_0000_0000_0000_0000 <= cost * top_seen
                    <= 0x4000_0000_0000_0000_0000_0000_0000_0000) by (nonlinear_arith)
                    requires
                        -0x8000_0000_0000_0000 <= cost < 0x8000_0000_0000_0000,
                        -0x8000_0000_0000_0000 < top_seen <= 0x8000_0000_0000_0000,
                ;
                assert(-0x4000_0000_0000_0000_0000_0000_0000_0000 <= top_cost * seen
                    <= 0x4000_0000_0000_0000_0000_0000_0000_0000) by (nonlinear_arith)
                    requires
                        -0x8000_0000_0000_0000 <= top_cost < 0x8000_0000_0000_0000,
                        -0x8000_0000_0000_0000 < seen <= 0x8000_0000_0000_0000,
                ;
            }
            let lhs = cost * top_seen;
            let rhs = top_cost * seen;
            if lhs > rhs {
                *top = Some((cost, seen));
                worst.clear();
                worst.push(arc);
            } else if lhs == rhs {
                worst.push(arc);
            }
        },
    }
}

/// `arcs` without repeats, first occurrences kept in order.
fn distinct_arcs(arcs: &Vec<(NodeId, NodeId)>) -> (r: Vec<(NodeId, NodeId)>)
    ensures
        forall|i: int| 0 <= i < r@.len() ==> arcs@.contains(#[trigger] r@[i]),
        forall|i: int| 0 <= i < arcs@.len() ==> r@.contains(#[trigger] arcs@[i]),
        forall|i: int, j: int| 0 <= i < j < r@.len() ==> r@[i] != r@[j],
{
    let mut r: Vec<(NodeId, NodeId)> = Vec::new();
    let mut i: usize = 0;
    while i < arcs.len()
        invariant
            i <= arcs@.len(),
            forall|k: int| 0 <= k < r@.len() ==> arcs@.contains(#[trigger] r@[k]),
            forall|k: int| 0 <= k < i ==> r@.contains(#[trigger] arcs@[k]),
            forall|k: int, j: int| 0 <= k < j < r@.len() ==> r@[k] != r@[j],
        decreases arcs@.len() - i,
    {
        let a = arcs[i];
        let ghost r0 = r@;
        let mut found = false;
        let mut j: usize = 0;
        while j < r.len()
            invariant
                j <= r@.len(),
                found <==> exists|k: int| 0 <= k < j && r@[k] == a,
            decreases r@.len() - j,
        {
            if r[j].0.0 == a.0.0 && r[j].1.0 == a.1.0 {
                found = true;
            }
            j += 1;
        }
        if !found {
            r.push(a);
            proof {
                assert(r@[r@.len() - 1] == a);
            }
        }
        proof {
            assert(arcs@.contains(arcs@[i as int]));
            assert forall|k: int| 0 <= k < i + 1 implies r@.contains(#[trigger] arcs@[k]) by {
                if k < i {
                    assert(r0.contains(arcs@[k]));
                    let w = choose|w: int| 0 <= w < r0.len() && r0[w] == arcs@[k];
                    assert(r@[w] == r0[w]);
                } else {
                    if found {
                        let w = choose|w: int| 0 <= w < r@.len() && r@[w] == a;
                        assert(r@[w] == arcs@[k]);
                    } else {
                        assert(r@[r@.len() - 1] == arcs@[k]);
                    }
                }
            }
        }
        i += 1;
    }
    r
}

/// Penalize every arc of `sol` with maximal utility `cost / (1 + penalty)`:
/// long arcs first, but an arc already hit often loses priority to a fresh
/// one. Arcs into the drop sink are penalties, not travel, and never
/// punished; each arc is penalized once, however often it appears.
fn penalize_worst_arcs(cx: &mut Search, sol: &Routes)
    requires
        sol_ok(old(cx), sol@),
        old(cx).pens_nonneg(),
    ensures
        final(cx).model_spec() == old(cx).model_spec(),
        final(cx).lambda_spec() == old(cx).lambda_spec(),
        final(cx).pens_nonneg(),
        forall|a: NodeId, b: NodeId|
            #[trigger] final(cx).pen(a, b) == old(cx).pen(a, b) + if punished(old(cx), sol@, a, b)
                && old(cx).pen(a, b) < i64::MAX {
                1int
            } else {
                0int
            },
{
    let m = cx.model();
    let mut worst: Vec<(NodeId, NodeId)> = Vec::new();
    // (arc cost, 1 + times penalized) of the best candidate so far.
    let mut top: Option<(i128, i128)> = None;
    let sink = m.unserved_vehicle();
    proof {
        assert forall|v0: int, k0: int| !#[trigger] scanned(m, sol@, v0, k0, 0, 0) by {}
    }
    let mut v: usize = 0;
    while v < sol.len()
        invariant
            sol_ok(cx, sol@),
            cx.pens_nonneg(),
            m == cx.model_spec(),
            sink == m.sink(),
            v <= sol@.len(),
            top_ok(top),
            forall|i: int|
                0 <= i < worst@.len() ==> m.valid_node((#[trigger] worst@[i]).0) && m.valid_node(
                    worst@[i].1,
                ),
            scan_ok(cx, sol@, top_view(top), worst@, v as int, 0),
        decreases sol@.len() - v,
    {
        let is_sink = match sink {
            Some(s) => s.index() == v,
            None => false,
        };
        if !is_sink && sol[v].len() > 0 {
            let veh = m.vehicle(VehicleId(v as u32));
            let route = &sol[v];
            proof {
                assert(route_valid(m, route@));
                assert(m.sink() != Some(VehicleId(v as u32)));
            }
            let mut prev = veh.start;
            let mut k: usize = 0;
            while k < route.len()
                invariant
                    sol_ok(cx, sol@),
                    cx.pens_nonneg(),
                    m == cx.model_spec(),
                    v < sol@.len(),
                    *veh == m.fleet()[v as int],
                    route@ == sol@[v as int]@,
                    route@.len() > 0,
                    m.sink() != Some(VehicleId(v as u32)),
                    route_valid(m, route@),
                    k <= route@.len(),
                    m.valid_node(prev),
                    prev == prev_of(route@, *veh, k as int),
                    top_ok(top),
                    forall|i: int|
                        0 <= i < worst@.len() ==> m.valid_node((#[trigger] worst@[i]).0)
                            && m.valid_node(worst@[i].1),
                    scan_ok(cx, sol@, top_view(top), worst@, v as int, k as int),
                decreases route@.len() - k,
            {
                let node = route[k];
                proof {
                    assert(m.valid_node(route@[k as int]));
                }
                let ghost t0 = top_view(top);
                let ghost w0 = worst@;
                consider_arc(cx, veh.cost_class, prev, node, &mut top, &mut worst);
                proof {
                    assert(weighed(m, sol@, v as int, k as int));
                    lemma_scan_step(cx, sol@, v as int, k as int, t0, w0, top_view(top), worst@);
                }
                prev = node;
                k += 1;
            }
            let ghost t0 = top_view(top);
            let ghost w0 = worst@;
            consider_arc(cx, veh.cost_class, prev, veh.end, &mut top, &mut worst);
            proof {
                let len = route@.len() as int;
                assert(weighed(m, sol@, v as int, len));
                lemma_scan_step(cx, sol@, v as int, len, t0, w0, top_view(top), worst@);
                assert forall|v0: int, k0: int| #[trigger] scanned(m, sol@, v0, k0, v as int, len + 1) == scanned(
                    m,
                    sol@,
                    v0,
                    k0,
                    v + 1,
                    0,
                ) by {}
                lemma_scan_same(cx, sol@, top_view(top), worst@, v as int, len + 1, v + 1, 0);
            }
        } else {
            proof {
                assert forall|v0: int, k0: int| #[trigger] scanned(m, sol@, v0, k0, v as int, 0) == scanned(
                    m,
                    sol@,
                    v0,
                    k0,
                    v + 1,
                    0,
                ) by {
                    if v0 == v && weighed(m, sol@, v0, k0) {
                        assert(m.sink() != Some(VehicleId(v as u32)));
                    }
                }
                lemma_scan_same(cx, sol@, top_view(top), worst@, v as int, 0, v + 1, 0);
            }
        }
        v += 1;
    }
    proof {
        lemma_scan_done(cx, sol@, top_view(top), worst@);
    }
    // A one-customer route visits the depot twice, so {depot, x} can show
    // up as both of its arcs. Penalize it once.
    let arcs = distinct_arcs(&worst);
    let ghost cx0 = *cx;
    proof {
        assert forall|i: int| 0 <= i < arcs@.len() implies (#[trigger] arcs@[i]).0.0 <= arcs@[i].1.0
            && worst_pair(&cx0, sol@, arcs@[i]) by {
            let e = choose|e: int| 0 <= e < worst@.len() && worst@[e] == arcs@[i];
            assert(worst@[e].0.0 <= worst@[e].1.0);
            assert(worst_pair(&cx0, sol@, worst@[e]));
        }
    }
    let mut i: usize = 0;
    while i < arcs.len()
        invariant
            i <= arcs@.len(),
            cx.model_spec() == cx0.model_spec(),
            cx.lambda_spec() == cx0.lambda_spec(),
            cx.pens_nonneg(),
            forall|q: int| 0 <= q < arcs@.len() ==> (#[trigger] arcs@[q]).0.0 <= arcs@[q].1.0,
            forall|p: int, q: int| 0 <= p < q < arcs@.len() ==> arcs@[p] != arcs@[q],
            forall|a: NodeId, b: NodeId|
                #[trigger] cx.pen(a, b) == cx0.pen(a, b) + if (exists|j: int|
                    0 <= j < i && same_arc(a, b, (#[trigger] arcs@[j]).0, arcs@[j].1)) && cx0.pen(a, b)
                    < i64::MAX {
                    1int
                } else {
                    0int
                },
        decreases arcs@.len() - i,
    {
        let (a, b) = arcs[i];
        let ghost before = *cx;
        proof {
            assert forall|j: int| 0 <= j < i implies !same_arc(a, b, (#[trigger] arcs@[j]).0, arcs@[j].1) by {
                if same_arc(a, b, arcs@[j].0, arcs@[j].1) {
                    assert(arcs@[j] == arcs@[i as int]);
                }
            }
        }
        if cx.penalty(a, b) < i64::MAX {
            cx.penalize(a, b);
        }
        proof {
            assert forall|x: NodeId, y: NodeId| #[trigger] cx.pen(x, y) == cx0.pen(x, y) + if (exists|j: int|
                0 <= j < i + 1 && same_arc(x, y, (#[trigger] arcs@[j]).0, arcs@[j].1)) && cx0.pen(x, y)
                < i64::MAX {
                1int
            } else {
                0int
            } by {
                crate::search::lemma_arc_key(x, y, a, b);
                if same_arc(x, y, a, b) {
                    assert(same_arc(x, y, arcs@[i as int].0, arcs@[i as int].1));
                    assert forall|j: int| 0 <= j < i implies !same_arc(x, y, (#[trigger] arcs@[j]).0, arcs@[j].1) by {
                        if same_arc(x, y, arcs@[j].0, arcs@[j].1) {
                            assert(same_arc(a, b, arcs@[j].0, arcs@[j].1));
                        }
                    }
                } else {
                    if exists|j: int| 0 <= j < i + 1 && same_arc(x, y, (#[trigger] arcs@[j]).0, arcs@[j].1) {
                        let j = choose|j: int| 0 <= j < i + 1 && same_arc(x, y, (#[trigger] arcs@[j]).0, arcs@[j].1);
                        assert(j < i);
                    }
                }
            }
        }
        i += 1;
    }
    proof {
        assert forall|a: NodeId, b: NodeId| (exists|j: int|
            0 <= j < arcs@.len() && same_arc(a, b, (#[trigger] arcs@[j]).0, arcs@[j].1)) == punished(
            &cx0,
            sol@,
            a,
            b,
        ) by {
            if exists|j: int| 0 <= j < arcs@.len() && same_arc(a, b, (#[trigger] arcs@[j]).0, arcs@[j].1) {
                let j = choose|j: int| 0 <= j < arcs@.len() && same_arc(a, b, (#[trigger] arcs@[j]).0, arcs@[j].1);
                assert(worst_pair(&cx0, sol@, arcs@[j]));
                let (v0, k0) = choose|v0: int, k0: int| #[trigger] worst_arc(&cx0, sol@, v0, k0) && arcs@[j]
                    == pair_of(cx0.model_spec(), sol@, v0, k0);
                assert(worst_arc(&cx0, sol@, v0, k0));
            }
            if punished(&cx0, sol@, a, b) {
                let (v0, k0) = choose|v0: int, k0: int| #[trigger] worst_arc(&cx0, sol@, v0, k0) && same_arc(
                    a,
                    b,
                    arc_from(cx0.model_spec(), sol@, v0, k0),
                    arc_to(cx0.model_spec(), sol@, v0, k0),
                );
                let p = pair_of(cx0.model_spec(), sol@, v0, k0);
                assert(worst@.contains(p));
                assert(arcs@.contains(p));
                let j = choose|j: int| 0 <= j < arcs@.len() && arcs@[j] == p;
                assert(same_arc(a, b, arcs@[j].0, arcs@[j].1));
            }
        }
    }
}

/// One round of guided local search: `next_cx` adds one penalty to each arc
/// that `cx` ranks worst on `prev` (an arc already at the `i64` limit stays
/// there), and the descent on `next_cx` from `prev` ends at `next`, a local
/// optimum of that objective, no dearer on it and holding the same nodes;
/// or `prev` itself when that objective cannot price it.
#[verifier::opaque]
pub open spec fn gls_round(
    cx: Search<'_>,
    prev: Seq<Vec<NodeId>>,
    next_cx: Search<'_>,
    next: Seq<Vec<NodeId>>,
) -> bool {
    &&& next_cx.model_spec() == cx.model_spec()
    &&& next_cx.lambda_spec() == cx.lambda_spec()
    &&& forall|a: NodeId, b: NodeId|
        #[trigger] next_cx.pen(a, b) == cx.pen(a, b) + if punished(&cx, prev, a, b) && cx.pen(a, b)
            < i64::MAX {
            1int
        } else {
            0int
        }
    &&& sol_ok(&next_cx, next)
    &&& sol_ms(next) == sol_ms(prev)
    &&& all_priced(&next_cx, prev) ==> all_priced(&next_cx, next) && obj_sum(&next_cx, next, next.len())
        <= obj_sum(&next_cx, prev, prev.len()) && local_optimum(&next_cx, next)
    &&& !all_priced(&next_cx, prev) ==> next == prev
}

/// A run of `iters` rounds from the hill climb's result `climbed`:
/// `rounds[0]` is `climbed`, under no penalties and the weight that its
/// cost and customer count give; each later round follows the one before.
pub open spec fn gls_run(
    m: &Model,
    climbed: Seq<Vec<NodeId>>,
    iters: int,
    rounds: Seq<Seq<Vec<NodeId>>>,
    cxs: Seq<Search<'_>>,
) -> bool {
    &&& rounds.len() == iters + 1
    &&& cxs.len() == iters + 1
    &&& rounds[0] == climbed
    &&& cxs[0].model_spec() == m
    &&& cxs[0].pen_map() == Map::<u64, i64>::empty()
    &&& cxs[0].lambda_spec() == lambda_spec(
        total(m, climbed),
        if served_upto(m, climbed, climbed.len()) <= usize::MAX {
            served_upto(m, climbed, climbed.len())
        } else {
            usize::MAX as int
        },
    )
    &&& forall|k: int| 1 <= k < rounds.len() ==> gls_round(cxs[k - 1], rounds[k - 1], cxs[k], #[trigger] rounds[k])
}

/// `rounds[i]` is the first of least true cost.
pub open spec fn first_least(m: &Model, rounds: Seq<Seq<Vec<NodeId>>>, i: int) -> bool {
    &&& 0 <= i < rounds.len()
    &&& forall|k: int|
        0 <= k < rounds.len() ==> total(m, rounds[i]) <= total(m, #[trigger] rounds[k]) && (k < i ==> total(
            m,
            rounds[i],
        ) < total(m, rounds[k]))
}

/// A round that follows the last of a run extends it.
proof fn lemma_rounds_push(
    rounds: Seq<Seq<Vec<NodeId>>>,
    cxs: Seq<Search<'_>>,
    cx: Search<'_>,
    next: Seq<Vec<NodeId>>,
)
    requires
        rounds.len() == cxs.len(),
        rounds.len() >= 1,
        forall|k: int|
            1 <= k < rounds.len() ==> gls_round(cxs[k - 1], rounds[k - 1], cxs[k], #[trigger] rounds[k]),
        gls_round(cxs.last(), rounds.last(), cx, next),
    ensures
        forall|k: int|
            1 <= k < rounds.push(next).len() ==> gls_round(
                cxs.push(cx)[k - 1],
                rounds.push(next)[k - 1],
                cxs.push(cx)[k],
                #[trigger] rounds.push(next)[k],
            ),
{
    let r2 = rounds.push(next);
    let c2 = cxs.push(cx);
    assert forall|k: int| 1 <= k < r2.len() implies gls_round(c2[k - 1], r2[k - 1], c2[k], #[trigger] r2[k]) by {
        if k < rounds.len() {
            assert(r2[k] == rounds[k]);
            assert(r2[k - 1] == rounds[k - 1]);
            assert(c2[k] == cxs[k]);
            assert(c2[k - 1] == cxs[k - 1]);
        }
    }
}

/// A new round keeps the first least one, or takes its place when it
/// costs strictly less.
proof fn lemma_least_push(m: &Model, rounds: Seq<Seq<Vec<NodeId>>>, i: int, next: Seq<Vec<NodeId>>)
    requires
        first_least(m, rounds, i),
    ensures
        total(m, next) < total(m, rounds[i]) ==> first_least(m, rounds.push(next), rounds.len() as int),
        total(m, rounds[i]) <= total(m, next) ==> first_least(m, rounds.push(next), i),
{
    let r2 = rounds.push(next);
    assert forall|k: int| 0 <= k < rounds.len() implies #[trigger] r2[k] == rounds[k] by {}
    if total(m, next) < total(m, rounds[i]) {
        assert forall|k: int| 0 <= k < r2.len() implies total(m, r2[rounds.len() as int]) <= total(
            m,
            #[trigger] r2[k],
        ) && (k < rounds.len() ==> total(m, r2[rounds.len() as int]) < total(m, r2[k])) by {
            if k < rounds.len() {
                assert(total(m, rounds[i]) <= total(m, rounds[k]));
            }
        }
    } else {
        assert forall|k: int| 0 <= k < r2.len() implies total(m, r2[i]) <= total(m, #[trigger] r2[k]) && (k
            < i ==> total(m, r2[i]) < total(m, r2[k])) by {
            if k < rounds.len() {
                assert(total(m, rounds[i]) <= total(m, rounds[k]));
            }
        }
    }
}

/// New bests reported so far: all `GuidedBest`, rounds no later than
/// `last`, rising and with falling costs, the latest reporting `best`.
pub open spec fn gls_bests(t: Seq<SearchEvent>, last: int, best: int) -> bool {
    &&& forall|k: int| 0 <= k < t.len() ==> (#[trigger] t[k] is GuidedBest) && t[k]->iter <= last
    &&& forall|i: int, j: int|
        #![trigger t[i], t[j]]
        0 <= i && j == i + 1 && j < t.len() ==> t[i]->iter < t[j]->iter && falls(
            event_cost(t[i]),
            event_cost(t[j]),
        )
    &&& t.len() > 0 ==> event_cost(t.last()) == clamp_spec(best)
}

/// What guided local search reports: round 0 with the hill climb's cost
/// `climbed`, then each later round up to `iters` that found a new best,
/// rounds rising and costs falling, then one `Done` with the final cost.
pub open spec fn gls_events(t: Seq<SearchEvent>, iters: int, climbed: int, fin: int) -> bool {
    &&& t.len() >= 2
    &&& t[0] == SearchEvent::GuidedBest { iter: 0, cost: clamp_spec(climbed) as i64 }
    &&& gls_bests(t.drop_last(), iters, fin)
    &&& t.last() == SearchEvent::Done { cost: clamp_spec(fin) as i64 }
}

/// A later round with a lower true cost extends the reported bests.
proof fn lemma_bests_push(t: Seq<SearchEvent>, last: int, best: int, iter: usize, cost: int)
    requires
        gls_bests(t, last, best),
        t.len() > 0,
        cost < best,
        last < iter,
    ensures
        gls_bests(t.push(SearchEvent::GuidedBest { iter, cost: clamp_spec(cost) as i64 }), iter as int, cost),
{
    let t2 = t.push(SearchEvent::GuidedBest { iter, cost: clamp_spec(cost) as i64 });
    assert forall|k: int| 0 <= k < t2.len() implies (#[trigger] t2[k] is GuidedBest) && t2[k]->iter
        <= iter by {
        if k < t.len() {
            assert(t2[k] == t[k]);
        }
    }
    assert forall|i: int, j: int|
        #![trigger t2[i], t2[j]]
        0 <= i && j == i + 1 && j < t2.len() implies t2[i]->iter < t2[j]->iter && falls(
        event_cost(t2[i]),
        event_cost(t2[j]),
    ) by {
        assert(t2[i] == t[i]);
        if j < t.len() {
            assert(t2[j] == t[j]);
            assert(t[i]->iter < t[j]->iter && falls(event_cost(t[i]), event_cost(t[j])));
        } else {
            assert(t[i] == t.last());
            assert(t[i] is GuidedBest && t[i]->iter <= last);
            assert(event_cost(t[i]) == clamp_spec(best));
            assert(t2[j] == (SearchEvent::GuidedBest { iter, cost: clamp_spec(cost) as i64 }));
        }
    }
}

/// Guided local search. Descend, then repeatedly punish the arcs that look
/// worst — expensive and not yet punished much — and descend again on the
/// penalized cost. The penalties push the search out of a local optimum
/// without ever lying about which solution is cheapest: the best true-cost
/// solution seen is kept aside and restored at the end.
///
/// No randomness, so this stays as deterministic as the hill climb it wraps.
pub fn guided_local_search(m: &Model, sol: &mut Routes, iters: usize)
    requires
        solution_ok(m, old(sol)@),
    ensures
        improved_from(m, old(sol)@, final(sol)@),
        beats_a_hill_climb(m, old(sol)@, final(sol)@),
        exists|h: Seq<Vec<NodeId>>, rounds: Seq<Seq<Vec<NodeId>>>, cxs: Seq<Search<'_>>, i: int|
            #![trigger gls_run(m, h, iters as int, rounds, cxs), first_least(m, rounds, i)]
            improved_from(m, old(sol)@, h) && true_local_optimum(m, h) && gls_run(
                m,
                h,
                iters as int,
                rounds,
                cxs,
            ) && first_least(m, rounds, i) && views(final(sol)@) == views(rounds[i]),
{
    guided_local_search_with(m, sol, iters, |_e: SearchEvent| {})
}

/// `guided_local_search` reporting a `GuidedBest` per new best true cost and
/// a final `Done`.
///
/// The descents themselves run silent: every round after the first minimizes
/// penalized cost, so its improvements would be numbers no solution actually
/// costs.
pub fn guided_local_search_with<L: FnMut(SearchEvent)>(
    m: &Model,
    sol: &mut Routes,
    iters: usize,
    mut log: L,
)
    requires
        solution_ok(m, old(sol)@),
        forall|x: SearchEvent| call_requires(log, (x,)),
    ensures
        improved_from(m, old(sol)@, final(sol)@),
        beats_a_hill_climb(m, old(sol)@, final(sol)@),
        exists|
            t: Seq<SearchEvent>,
            h: Seq<Vec<NodeId>>,
            rounds: Seq<Seq<Vec<NodeId>>>,
            cxs: Seq<Search<'_>>,
            i: int,
        |
            #![trigger handed(log, t), gls_run(m, h, iters as int, rounds, cxs), first_least(m, rounds, i)]
            handed(log, t) && improved_from(m, old(sol)@, h) && true_local_optimum(m, h) && gls_run(
                m,
                h,
                iters as int,
                rounds,
                cxs,
            ) && first_least(m, rounds, i) && views(final(sol)@) == views(rounds[i]) && gls_events(
                t,
                iters as int,
                total(m, h),
                total(m, final(sol)@),
            ),
{
    let mut trace: Vec<SearchEvent> = Vec::new();
    guided(m, sol, iters, &mut log, &mut trace);
}

/// One round: punish the worst arcs of `sol`, then descend on the
/// penalized objective, silently.
fn gls_step(m: &Model, cx: &mut Search, sol: &mut Routes)
    requires
        solution_ok(m, old(sol)@),
        old(cx).model_spec() == m,
        old(cx).pens_nonneg(),
    ensures
        final(cx).model_spec() == m,
        final(cx).lambda_spec() == old(cx).lambda_spec(),
        final(cx).pens_nonneg(),
        solution_ok(m, final(sol)@),
        sol_ms(final(sol)@) == sol_ms(old(sol)@),
        gls_round(*old(cx), old(sol)@, *final(cx), final(sol)@),
{
    penalize_worst_arcs(cx, sol);
    let ghost pre = sol@;
    let mut quiet = |_e: SearchEvent| {};
    let mut round_trace: Vec<SearchEvent> = Vec::new();
    descend(&*cx, sol, &mut quiet, &mut round_trace);
    proof {
        if all_priced(&*cx, pre) {
            lemma_priced_feasible(&*cx, sol@);
        }
        reveal(gls_round);
    }
}

/// `guided_local_search`, its events appended to `trace` in the order
/// they happen: `GuidedBest` for round 0, one per later round with a new
/// best, then `Done` with the final cost.
pub fn guided_local_search_traced(m: &Model, sol: &mut Routes, iters: usize, trace: &mut Vec<SearchEvent>)
    requires
        solution_ok(m, old(sol)@),
    ensures
        improved_from(m, old(sol)@, final(sol)@),
        beats_a_hill_climb(m, old(sol)@, final(sol)@),
        exists|
            t: Seq<SearchEvent>,
            h: Seq<Vec<NodeId>>,
            rounds: Seq<Seq<Vec<NodeId>>>,
            cxs: Seq<Search<'_>>,
            i: int,
        |
            #![trigger gls_run(m, h, iters as int, rounds, cxs), first_least(m, rounds, i), old(trace)@ + t]
            final(trace)@ == old(trace)@ + t && improved_from(m, old(sol)@, h) && true_local_optimum(m, h)
                && gls_run(m, h, iters as int, rounds, cxs) && first_least(m, rounds, i) && views(
                final(sol)@,
            ) == views(rounds[i]) && gls_events(t, iters as int, total(m, h), total(m, final(sol)@)),
{
    let mut quiet = |_e: SearchEvent| {};
    let mut local: Vec<SearchEvent> = Vec::new();
    guided(m, sol, iters, &mut quiet, &mut local);
    let ghost t = local@;
    trace.append(&mut local);
    assert(trace@ == old(trace)@ + t);
}

/// Guided local search with the observer borrowed.
#[verifier::rlimit(100)]
#[verifier::spinoff_prover]
pub(crate) fn guided<L: FnMut(SearchEvent)>(
    m: &Model,
    sol: &mut Routes,
    iters: usize,
    log: &mut L,
    trace: &mut Vec<SearchEvent>,
)
    requires
        solution_ok(m, old(sol)@),
        forall|x: SearchEvent| call_requires(*old(log), (x,)),
        old(trace)@.len() == 0,
    ensures
        *final(log) == *old(log),
        handed(*old(log), final(trace)@),
        exists|h: Seq<Vec<NodeId>>, rounds: Seq<Seq<Vec<NodeId>>>, cxs: Seq<Search<'_>>, i: int|
            #![trigger gls_run(m, h, iters as int, rounds, cxs), first_least(m, rounds, i)]
            improved_from(m, old(sol)@, h) && true_local_optimum(m, h) && gls_run(
                m,
                h,
                iters as int,
                rounds,
                cxs,
            ) && first_least(m, rounds, i) && views(final(sol)@) == views(rounds[i]) && gls_events(
                final(trace)@,
                iters as int,
                total(m, h),
                total(m, final(sol)@),
            ),
        improved_from(m, old(sol)@, final(sol)@),
        beats_a_hill_climb(m, old(sol)@, final(sol)@),
{
    let mut quiet = |_e: SearchEvent| {};
    let mut climb_trace: Vec<SearchEvent> = Vec::new();
    hill_climb(m, sol, &mut quiet, &mut climb_trace);
    let ghost climbed = sol@;

    let mut best = copy_routes(sol);
    proof {
        lemma_same_routes(m, best@, sol@, best@.len());
    }
    let mut best_cost = routes_total(m, sol);
    emit(log, trace, SearchEvent::GuidedBest { iter: 0, cost: clamp_cost(best_cost) });

    // Scale one penalty into arc-cost units, so lambda * penalty is
    // comparable to the distances the operators trade against it.
    let lambda = lambda_for(best_cost, customers(m, sol));
    let mut cx = Search::new(m);
    cx.set_lambda(lambda);

    let ghost mut rounds: Seq<Seq<Vec<NodeId>>> = seq![sol@];
    let ghost mut cxs: Seq<Search> = seq![cx];
    let ghost mut bi: int = 0;
    let mut done: usize = 0;
    while done < iters
        invariant
            rounds.len() == done + 1,
            cxs.len() == done + 1,
            rounds[0] == climbed,
            cxs[0].model_spec() == m,
            cxs[0].pen_map() == Map::<u64, i64>::empty(),
            cxs[0].lambda_spec() == lambda_spec(
                total(m, climbed),
                if served_upto(m, climbed, climbed.len()) <= usize::MAX {
                    served_upto(m, climbed, climbed.len())
                } else {
                    usize::MAX as int
                },
            ),
            forall|k: int|
                1 <= k < rounds.len() ==> gls_round(cxs[k - 1], rounds[k - 1], cxs[k], #[trigger] rounds[k]),
            rounds.last() == sol@,
            cxs.last() == cx,
            first_least(m, rounds, bi),
            best_cost as int == total(m, rounds[bi]),
            best@.len() == rounds[bi].len(),
            forall|i: int| 0 <= i < best@.len() ==> (#[trigger] best@[i])@ == rounds[bi][i]@,
            done <= iters,
            solution_ok(m, sol@),
            sol_ms(sol@) == sol_ms(old(sol)@),
            solution_ok(m, best@),
            sol_ms(best@) == sol_ms(old(sol)@),
            best_cost as int == total(m, best@),
            total(m, best@) <= total(m, old(sol)@),
            improved_from(m, old(sol)@, climbed),
            true_local_optimum(m, climbed),
            total(m, best@) <= total(m, climbed),
            cx.model_spec() == m,
            cx.pens_nonneg(),
            forall|x: SearchEvent| call_requires(*log, (x,)),
            *log == *old(log),
            forall|x: SearchEvent| call_requires(quiet, (x,)),
            handed(*old(log), trace@),
            trace@.len() >= 1,
            trace@[0] == (SearchEvent::GuidedBest { iter: 0, cost: clamp_spec(total(m, climbed)) as i64 }),
            gls_bests(trace@, done as int, best_cost as int),
        decreases iters - done,
    {
        let iter = done + 1;
        gls_step(m, &mut cx, sol);
        proof {
            lemma_rounds_push(rounds, cxs, cx, sol@);
            lemma_least_push(m, rounds, bi, sol@);
            rounds = rounds.push(sol@);
            cxs = cxs.push(cx);
        }
        // The descent just optimized penalized cost, which is not the cost
        // solutions are ranked by.
        let cost = routes_total(m, sol);
        if cost < best_cost {
            best = copy_routes(sol);
            proof {
                lemma_same_routes(m, best@, sol@, best@.len());
            }
            proof {
                lemma_bests_push(trace@, done as int, best_cost as int, iter, cost as int);
                bi = rounds.len() - 1;
            }
            best_cost = cost;
            emit(log, trace, SearchEvent::GuidedBest { iter, cost: clamp_cost(cost) });
        }
        done += 1;
    }
    *sol = best;
    let ghost bests = trace@;
    emit(log, trace, SearchEvent::Done { cost: clamp_cost(best_cost) });
    proof {
        assert(trace@.drop_last() =~= bests);
        assert(trace@[0] == bests[0]);
        assert(views(sol@) =~= views(rounds[bi]));
        assert(gls_run(m, climbed, iters as int, rounds, cxs));
        assert(first_least(m, rounds, bi));
    }
    assert(improved_from(m, old(sol)@, climbed) && true_local_optimum(m, climbed) && total(m, sol@)
        <= total(m, climbed));
}

/// `after` costs no more than some local optimum a hill climb reaches from
/// `before`: the best solution seen starts as the hill climb's.
pub open spec fn beats_a_hill_climb(m: &Model, before: Seq<Vec<NodeId>>, after: Seq<Vec<NodeId>>) -> bool {
    exists|climbed: Seq<Vec<NodeId>>|
        #[trigger] improved_from(m, before, climbed) && true_local_optimum(m, climbed) && total(m, after)
            <= total(m, climbed)
}

} // verus!
