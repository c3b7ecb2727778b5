//! The neighborhood: the moves a descent tries, one function each.
//!
//! Each takes the [`Search`] it evaluates through, the solution it may
//! rewrite, and the per-route costs it has to keep in step; each returns the
//! other vehicle it touched, so the caller knows what to re-examine. A move
//! is taken only if it lowers the total under the objective in force, it
//! never loses or duplicates a node, and every route it writes is feasible.

use vstd::multiset::Multiset;
use vstd::prelude::*;

use crate::eval::{Routes, lemma_sol_ms_update, route_input, route_valid, sol_ms, sol_nodes_valid};
use crate::model::{Model, Vehicle};
use crate::search::Search;
use crate::types::{Cost, NodeId, VehicleId};

verus! {

broadcast use {vstd::seq_lib::group_to_multiset_ensures, vstd::multiset::group_multiset_axioms};

/// `sol` is a solution `cx` can price: one route per vehicle, known nodes.
pub open spec fn sol_ok(cx: &Search, sol: Seq<Vec<NodeId>>) -> bool {
    &&& cx.model_spec().wf()
    &&& sol.len() == cx.model_spec().fleet().len()
    &&& sol_nodes_valid(cx.model_spec(), sol)
}

/// `cost` holds, per route, its price under the objective of `cx`.
pub open spec fn priced(cx: &Search, sol: Seq<Vec<NodeId>>, cost: Seq<i64>) -> bool {
    &&& cost.len() == sol.len()
    &&& forall|v: int|
        0 <= v < sol.len() ==> cx.objective((#[trigger] sol[v])@, VehicleId(v as u32)) == Some(
            cost[v] as int,
        )
}

/// Sum of the per-route costs.
pub open spec fn sum_costs(c: Seq<i64>) -> int
    decreases c.len(),
{
    if c.len() == 0 {
        0
    } else {
        sum_costs(c.drop_last()) + c.last() as int
    }
}

pub proof fn lemma_sum_update(c: Seq<i64>, i: int, x: i64)
    requires
        0 <= i < c.len(),
    ensures
        sum_costs(c.update(i, x)) == sum_costs(c) - c[i] + x,
    decreases c.len(),
{
    if i < c.len() - 1 {
        lemma_sum_update(c.drop_last(), i, x);
        assert(c.update(i, x).drop_last() =~= c.drop_last().update(i, x));
    } else {
        assert(c.update(i, x).drop_last() =~= c.drop_last());
    }
}

pub proof fn lemma_sum_bounds(c: Seq<i64>)
    ensures
        c.len() * (i64::MIN as int) <= sum_costs(c) <= c.len() * (i64::MAX as int),
    decreases c.len(),
{
    if c.len() > 0 {
        lemma_sum_bounds(c.drop_last());
    }
}

/// An accepted move: the same nodes, every route priced, a lower total.
pub open spec fn moved(
    cx: &Search,
    sol0: Seq<Vec<NodeId>>,
    cost0: Seq<i64>,
    sol1: Seq<Vec<NodeId>>,
    cost1: Seq<i64>,
) -> bool {
    &&& sol_ok(cx, sol1)
    &&& priced(cx, sol1, cost1)
    &&& sol_ms(sol1) == sol_ms(sol0)
    &&& sum_costs(cost1) < sum_costs(cost0)
}

/// `s` with `s[a..b]` replaced by `r`.
pub open spec fn splice(s: Seq<NodeId>, a: int, b: int, r: Seq<NodeId>) -> Seq<NodeId> {
    s.subrange(0, a) + r + s.subrange(b, s.len() as int)
}

pub proof fn lemma_splice_ms(s: Seq<NodeId>, a: int, b: int, r: Seq<NodeId>)
    requires
        0 <= a <= b <= s.len(),
    ensures
        splice(s, a, b, r).to_multiset().add(s.subrange(a, b).to_multiset()) =~= s.to_multiset().add(
            r.to_multiset(),
        ),
{
    broadcast use vstd::seq_lib::lemma_multiset_commutative;

    let p = s.subrange(0, a);
    let q = s.subrange(a, b);
    let t = s.subrange(b, s.len() as int);
    assert(s =~= p + q + t);
    assert((p + r + t).to_multiset() =~= p.to_multiset().add(r.to_multiset()).add(t.to_multiset()));
    assert((p + q + t).to_multiset() =~= p.to_multiset().add(q.to_multiset()).add(t.to_multiset()));
}

pub proof fn lemma_splice_valid(m: &Model, s: Seq<NodeId>, a: int, b: int, r: Seq<NodeId>)
    requires
        0 <= a <= b <= s.len(),
        route_valid(m, s),
        route_valid(m, r),
    ensures
        route_valid(m, splice(s, a, b, r)),
{
    let x = splice(s, a, b, r);
    assert forall|i: int| 0 <= i < x.len() implies m.valid_node(#[trigger] x[i]) by {
        if i < a {
            assert(x[i] == s[i]);
        } else if i < a + r.len() {
            assert(x[i] == r[i - a]);
        } else {
            assert(x[i] == s[i - a - r.len() + b]);
        }
    }
}

/// Replacing route `i` by a route with the same nodes keeps the solution's
/// nodes.
pub proof fn lemma_commit_one(sol: Seq<Vec<NodeId>>, i: int, x: Vec<NodeId>)
    requires
        0 <= i < sol.len(),
        x@.to_multiset() == sol[i]@.to_multiset(),
    ensures
        sol_ms(sol.update(i, x)) == sol_ms(sol),
{
    lemma_sol_ms_update(sol, i, x);
    let a = sol_ms(sol.update(i, x));
    let b = sol_ms(sol);
    assert forall|y: NodeId| #[trigger] a.count(y) == b.count(y) by {
        assert(a.add(sol[i]@.to_multiset()).count(y) == b.add(x@.to_multiset()).count(y));
    }
    assert(a =~= b);
}

/// Replacing routes `i` and `j` by two routes holding the same nodes
/// between them keeps the solution's nodes.
pub proof fn lemma_commit_two(sol: Seq<Vec<NodeId>>, i: int, x: Vec<NodeId>, j: int, y: Vec<NodeId>)
    requires
        0 <= i < sol.len(),
        0 <= j < sol.len(),
        i != j,
        x@.to_multiset().add(y@.to_multiset()) == sol[i]@.to_multiset().add(sol[j]@.to_multiset()),
    ensures
        sol_ms(sol.update(i, x).update(j, y)) == sol_ms(sol),
{
    let s1 = sol.update(i, x);
    lemma_sol_ms_update(sol, i, x);
    lemma_sol_ms_update(s1, j, y);
    assert(s1[j] == sol[j]);
    let a = sol_ms(s1.update(j, y));
    let b = sol_ms(sol);
    let c = sol_ms(s1);
    let si = sol[i]@.to_multiset();
    let sj = sol[j]@.to_multiset();
    let xm = x@.to_multiset();
    let ym = y@.to_multiset();
    assert forall|z: NodeId| #[trigger] a.count(z) == b.count(z) by {
        assert(a.add(sj).count(z) == c.add(ym).count(z));
        assert(c.add(si).count(z) == b.add(xm).count(z));
        assert(xm.add(ym).count(z) == si.add(sj).count(z));
        assert(a.add(sj).count(z) == a.count(z) + sj.count(z));
        assert(c.add(ym).count(z) == c.count(z) + ym.count(z));
        assert(c.add(si).count(z) == c.count(z) + si.count(z));
        assert(b.add(xm).count(z) == b.count(z) + xm.count(z));
        assert(xm.add(ym).count(z) == xm.count(z) + ym.count(z));
        assert(si.add(sj).count(z) == si.count(z) + sj.count(z));
    }
    assert(a =~= b);
}

/// Buffers the operators reuse across calls, one per descent.
pub struct Scratch {
    /// The moving node's own route with the moving nodes taken out.
    pub without: Vec<NodeId>,
    /// Vehicles worth trying, from `candidate_vehicles`.
    pub vehicles: Vec<usize>,
}

impl Default for Scratch {
    fn default() -> (s: Self)
        ensures
            s.without@.len() == 0,
            s.vehicles@.len() == 0,
    {
        Scratch { without: Vec::new(), vehicles: Vec::new() }
    }
}

/// A fresh vector holding `src`.
pub fn copy_route(src: &[NodeId]) -> (r: Vec<NodeId>)
    ensures
        r@ == src@,
{
    let mut r: Vec<NodeId> = Vec::new();
    let mut i: usize = 0;
    while i < src.len()
        invariant
            i <= src@.len(),
            r@ == src@.subrange(0, i as int),
        decreases src@.len() - i,
    {
        r.push(src[i]);
        proof {
            assert(r@ =~= src@.subrange(0, i + 1));
        }
        i += 1;
    }
    proof {
        assert(src@.subrange(0, src@.len() as int) =~= src@);
    }
    r
}

/// `s` with `s[a..b]` replaced by `r`, as a fresh vector.
pub fn splice_vec(s: &[NodeId], a: usize, b: usize, r: &[NodeId]) -> (out: Vec<NodeId>)
    requires
        a <= b <= s@.len(),
    ensures
        out@ == splice(s@, a as int, b as int, r@),
{
    let mut out: Vec<NodeId> = Vec::new();
    let mut i: usize = 0;
    while i < a
        invariant
            i <= a <= b <= s@.len(),
            out@ == s@.subrange(0, i as int),
        decreases a - i,
    {
        out.push(s[i]);
        proof {
            assert(out@ =~= s@.subrange(0, i + 1));
        }
        i += 1;
    }
    let mut j: usize = 0;
    while j < r.len()
        invariant
            a <= b <= s@.len(),
            j <= r@.len(),
            out@ == s@.subrange(0, a as int) + r@.subrange(0, j as int),
        decreases r@.len() - j,
    {
        out.push(r[j]);
        proof {
            assert(out@ =~= s@.subrange(0, a as int) + r@.subrange(0, j + 1));
        }
        j += 1;
    }
    proof {
        assert(r@.subrange(0, r@.len() as int) =~= r@);
        assert(s@.subrange(b as int, b as int) =~= Seq::<NodeId>::empty());
    }
    let mut k: usize = b;
    while k < s.len()
        invariant
            a <= b <= k <= s@.len(),
            out@ == s@.subrange(0, a as int) + r@ + s@.subrange(b as int, k as int),
        decreases s@.len() - k,
    {
        out.push(s[k]);
        proof {
            assert(out@ =~= s@.subrange(0, a as int) + r@ + s@.subrange(b as int, k + 1));
        }
        k += 1;
    }
    out
}

/// `at` is where `u` first appears in `s`.
pub open spec fn first_at(s: Seq<NodeId>, u: NodeId, at: int) -> bool {
    &&& 0 <= at < s.len()
    &&& s[at] == u
    &&& forall|k: int| 0 <= k < at ==> s[k] != u
}

/// Position of the first `u` in `route`.
pub fn position(route: &[NodeId], u: NodeId) -> (r: Option<usize>)
    ensures
        r matches Some(i) ==> first_at(route@, u, i as int),
        r is None ==> !route@.contains(u),
{
    let mut i: usize = 0;
    while i < route.len()
        invariant
            i <= route@.len(),
            forall|j: int| 0 <= j < i ==> route@[j] != u,
        decreases route@.len() - i,
    {
        if route[i] == u {
            return Some(i);
        }
        i += 1;
    }
    None
}

/// Indices below `k` whose route is in use, in order.
pub open spec fn used_upto(sol: Seq<Vec<NodeId>>, k: nat) -> Seq<usize>
    decreases k,
{
    if k == 0 {
        Seq::empty()
    } else {
        used_upto(sol, (k - 1) as nat) + if sol[k - 1]@.len() > 0 {
            seq![(k - 1) as usize]
        } else {
            Seq::empty()
        }
    }
}

/// The first index below `k` whose route is empty.
pub open spec fn first_empty(sol: Seq<Vec<NodeId>>, k: nat) -> Option<usize>
    decreases k,
{
    if k == 0 {
        None
    } else {
        match first_empty(sol, (k - 1) as nat) {
            Some(e) => Some(e),
            None => if sol[k - 1]@.len() == 0 {
                Some((k - 1) as usize)
            } else {
                None
            },
        }
    }
}

/// Vehicles worth trying an insertion on: every route in use, plus one
/// empty one so the fleet can still grow, plus the drop sink.
pub open spec fn cand_spec(m: &Model, sol: Seq<Vec<NodeId>>) -> Seq<usize> {
    let base = used_upto(sol, sol.len()) + match first_empty(sol, sol.len()) {
        Some(e) => seq![e],
        None => Seq::empty(),
    };
    match m.sink() {
        Some(u) => if base.contains(u.0 as usize) {
            base
        } else {
            base.push(u.0 as usize)
        },
        None => base,
    }
}

proof fn lemma_used_bounds(sol: Seq<Vec<NodeId>>, k: nat)
    requires
        k <= sol.len(),
        sol.len() <= usize::MAX,
    ensures
        forall|i: int| 0 <= i < used_upto(sol, k).len() ==> #[trigger] used_upto(sol, k)[i] < k,
        first_empty(sol, k) matches Some(e) ==> e < k && sol[e as int]@.len() == 0,
    decreases k,
{
    if k > 0 {
        lemma_used_bounds(sol, (k - 1) as nat);
        match first_empty(sol, (k - 1) as nat) {
            Some(e) => {
                assert(first_empty(sol, k) == Some(e));
            },
            None => {
                if sol[k - 1]@.len() == 0 {
                    assert(first_empty(sol, k) == Some((k - 1) as usize));
                } else {
                    assert(first_empty(sol, k) is None);
                }
            },
        }
        let prev = used_upto(sol, (k - 1) as nat);
        assert forall|i: int| 0 <= i < used_upto(sol, k).len() implies #[trigger] used_upto(
            sol,
            k,
        )[i] < k by {
            if i < prev.len() {
                assert(used_upto(sol, k)[i] == prev[i]);
            }
        }
    }
}

/// Fills `out` with [`cand_spec`]: the used routes in a fixed order, so a
/// cached entry stays comparable with a fresh one.
pub fn candidate_vehicles(m: &Model, sol: &Routes, out: &mut Vec<usize>)
    requires
        m.wf(),
        sol@.len() == m.fleet().len(),
    ensures
        final(out)@ == cand_spec(m, sol@),
        forall|i: int| 0 <= i < final(out)@.len() ==> #[trigger] final(out)@[i] < sol@.len(),
{
    out.clear();
    let mut i: usize = 0;
    while i < sol.len()
        invariant
            i <= sol@.len(),
            out@ == used_upto(sol@, i as nat),
        decreases sol@.len() - i,
    {
        if sol[i].len() > 0 {
            out.push(i);
        }
        proof {
            assert(out@ =~= used_upto(sol@, (i + 1) as nat));
        }
        i += 1;
    }
    let mut e: usize = 0;
    let mut found = false;
    while e < sol.len() && !found
        invariant
            e <= sol@.len(),
            found ==> e < sol@.len() && first_empty(sol@, sol@.len()) == Some(e),
            !found ==> first_empty(sol@, e as nat) is None,
        decreases sol@.len() - e, if found { 0int } else { 1int },
    {
        if sol[e].len() == 0 {
            found = true;
            proof {
                assert(first_empty(sol@, (e + 1) as nat) == Some(e));
                lemma_first_empty_stays(sol@, (e + 1) as nat, sol@.len());
            }
        } else {
            proof {
                assert(first_empty(sol@, (e + 1) as nat) is None);
            }
            e += 1;
        }
    }
    if found {
        out.push(e);
    }
    proof {
        lemma_used_bounds(sol@, sol@.len());
        assert(out@ =~= used_upto(sol@, sol@.len()) + match first_empty(sol@, sol@.len()) {
            Some(e) => seq![e],
            None => Seq::empty(),
        });
    }
    let ghost base = out@;
    match m.unserved_vehicle() {
        Some(uv) => {
            let x = uv.index();
            let mut present = false;
            let mut j: usize = 0;
            while j < out.len()
                invariant
                    j <= out@.len(),
                    out@ == base,
                    present <==> exists|q: int| 0 <= q < j && out@[q] == x,
                decreases out@.len() - j,
            {
                if out[j] == x {
                    present = true;
                }
                j += 1;
            }
            if !present {
                out.push(x);
            }
        },
        None => {},
    }
}

proof fn lemma_first_empty_stays(sol: Seq<Vec<NodeId>>, k1: nat, k2: nat)
    requires
        k1 <= k2 <= sol.len(),
        first_empty(sol, k1) is Some,
    ensures
        first_empty(sol, k2) == first_empty(sol, k1),
    decreases k2,
{
    if k2 > k1 {
        lemma_first_empty_stays(sol, k1, (k2 - 1) as nat);
    }
}

/// What an operator leaves behind: nothing touched when it finds no move;
/// otherwise routes `r` and the returned one rewritten, the same nodes,
/// every route priced, and a lower total.
pub open spec fn outcome(
    cx: &Search,
    sol0: Seq<Vec<NodeId>>,
    cost0: Seq<i64>,
    sol1: Seq<Vec<NodeId>>,
    cost1: Seq<i64>,
    res: Option<usize>,
    r: int,
) -> bool {
    match res {
        None => sol1 == sol0 && cost1 == cost0,
        Some(v) => {
            &&& (v as int) < sol0.len()
            &&& moved(cx, sol0, cost0, sol1, cost1)
            &&& forall|w: int|
                0 <= w < sol0.len() && w != r && w != v ==> #[trigger] sol1[w] == sol0[w] && cost1[w]
                    == cost0[w]
        },
    }
}

/// The same multiset, read count by count.
pub proof fn lemma_ms_ext(a: Multiset<NodeId>, b: Multiset<NodeId>)
    requires
        forall|x: NodeId| #[trigger] a.count(x) == b.count(x),
    ensures
        a == b,
{
    assert(a =~= b);
}

/// Writes `route`, priced `c`, as route `v`.
fn commit(sol: &mut Routes, cost: &mut Vec<Cost>, v: usize, route: Vec<NodeId>, c: Cost)
    requires
        v < old(sol)@.len(),
        v < old(cost)@.len(),
    ensures
        final(sol)@ == old(sol)@.update(v as int, route),
        final(cost)@ == old(cost)@.update(v as int, c),
{
    sol.set(v, route);
    cost.set(v, c);
}

/// The route a move lands in: route `v`, or route `r` with the moving
/// stretch `sol[r][at..at + len]` taken out when `v == r`.
pub open spec fn landing(sol: Seq<Vec<NodeId>>, r: int, at: int, len: int, v: int) -> Seq<NodeId> {
    if v == r {
        splice(sol[r]@, at, at + len, Seq::empty())
    } else {
        sol[v]@
    }
}

/// Lifting `piece` (taken from `sol[r][at..at + len]`) out of route `r`
/// and dropping it at position `pos` of route `v` lowers the total.
pub open spec fn move_improves(
    cx: &Search,
    sol: Seq<Vec<NodeId>>,
    cost: Seq<i64>,
    r: int,
    at: int,
    len: int,
    piece: Seq<NodeId>,
    v: int,
    pos: int,
) -> bool {
    let without = splice(sol[r]@, at, at + len, Seq::empty());
    match cx.objective(without, VehicleId(r as u32)) {
        None => false,
        Some(wc) => match cx.objective(
            splice(landing(sol, r, at, len, v), pos, pos, piece),
            VehicleId(v as u32),
        ) {
            Some(c) => if v == r {
                c < cost[r]
            } else {
                (wc - cost[r]) + (c - cost[v]) < 0
            },
            None => false,
        },
    }
}

/// No position on a candidate vehicle takes `piece`, lifted from
/// `sol[r][at..at + len]`, for less.
/// `sol1` is `sol0` with the stretch `sol0[r][at..at + len]` moved as
/// `piece` to position `pos` of its landing route on `v`.
pub open spec fn applied(
    sol0: Seq<Vec<NodeId>>,
    sol1: Seq<Vec<NodeId>>,
    r: int,
    at: int,
    len: int,
    piece: Seq<NodeId>,
    v: int,
    pos: int,
) -> bool {
    &&& sol1[v]@ == splice(landing(sol0, r, at, len, v), pos, pos, piece)
    &&& v != r ==> sol1[r]@ == splice(sol0[r]@, at, at + len, Seq::empty())
}

/// `sol1` is `sol0` after the first improving relocation of `u`'s first
/// occurrence on route `r`, landing on `v`.
pub open spec fn relocated(
    cx: &Search,
    sol0: Seq<Vec<NodeId>>,
    cost0: Seq<i64>,
    sol1: Seq<Vec<NodeId>>,
    u: NodeId,
    r: int,
    v: int,
) -> bool {
    exists|at: int, ci: int, pos: int|
        #[trigger] first_landing(cx, sol0, cost0, r, at, 1, seq![u], ci, pos) && first_at(sol0[r]@, u, at)
            && cand_spec(cx.model_spec(), sol0)[ci] == v && applied(sol0, sol1, r, at, 1, seq![u], v, pos)
}

/// Putting `piece` at position `pos` of the landing route of candidate
/// `ci` is the first improving move, candidates in the order
/// `candidate_vehicles` lists them and then positions in increasing order.
pub open spec fn first_landing(
    cx: &Search,
    sol: Seq<Vec<NodeId>>,
    cost: Seq<i64>,
    r: int,
    at: int,
    len: int,
    piece: Seq<NodeId>,
    ci: int,
    pos: int,
) -> bool {
    let cands = cand_spec(cx.model_spec(), sol);
    &&& 0 <= ci < cands.len()
    &&& 0 <= pos <= landing(sol, r, at, len, cands[ci] as int).len()
    &&& move_improves(cx, sol, cost, r, at, len, piece, cands[ci] as int, pos)
    &&& forall|c2: int, p2: int|
        0 <= c2 < cands.len() && 0 <= p2 <= landing(sol, r, at, len, cands[c2] as int).len() && (c2 < ci
            || (c2 == ci && p2 < pos)) ==> !#[trigger] move_improves(
            cx,
            sol,
            cost,
            r,
            at,
            len,
            piece,
            cands[c2] as int,
            p2,
        )
}

pub open spec fn move_optimal(
    cx: &Search,
    sol: Seq<Vec<NodeId>>,
    cost: Seq<i64>,
    r: int,
    at: int,
    len: int,
    piece: Seq<NodeId>,
) -> bool {
    forall|v: int, pos: int|
        0 <= v < sol.len() && cand_spec(cx.model_spec(), sol).contains(v as usize) && 0 <= pos
            <= landing(sol, r, at, len, v).len() ==> !#[trigger] move_improves(
            cx,
            sol,
            cost,
            r,
            at,
            len,
            piece,
            v,
            pos,
        )
}

/// The first landing, over the candidate vehicles in order and positions
/// in order, where `piece`, lifted from `sol[r][at..at + len]`, makes the
/// total cheaper: the vehicle, the position, the new route and its price.
#[verifier::loop_isolation(false)]
#[verifier::rlimit(40)]
fn probe_landing(
    cx: &Search,
    sol: &Routes,
    cost: &Vec<Cost>,
    r: usize,
    at: usize,
    len: usize,
    piece: &Vec<NodeId>,
    without: &Vec<NodeId>,
    without_cost: Cost,
    cands: &Vec<usize>,
) -> (res: Option<(usize, usize, Vec<NodeId>, Cost)>)
    requires
        sol_ok(cx, sol@),
        priced(cx, sol@, cost@),
        r < sol@.len(),
        at + len <= sol@[r as int]@.len(),
        route_valid(cx.model_spec(), piece@),
        without@ == splice(sol@[r as int]@, at as int, at + len, Seq::empty()),
        cx.objective(without@, VehicleId(r as u32)) == Some(without_cost as int),
        cands@ == cand_spec(cx.model_spec(), sol@),
    ensures
        res matches Some((v, pos, cand, c)) ==> {
            &&& v < sol@.len()
            &&& pos <= landing(sol@, r as int, at as int, len as int, v as int).len()
            &&& cand@ == splice(landing(sol@, r as int, at as int, len as int, v as int), pos as int, pos as int, piece@)
            &&& route_valid(cx.model_spec(), cand@)
            &&& cx.objective(cand@, VehicleId(v as u32)) == Some(c as int)
            &&& move_improves(cx, sol@, cost@, r as int, at as int, len as int, piece@, v as int, pos as int)
            &&& exists|ci: int|
                #[trigger] first_landing(cx, sol@, cost@, r as int, at as int, len as int, piece@, ci, pos as int)
                    && cand_spec(cx.model_spec(), sol@)[ci] == v
        },
        res is None ==> move_optimal(cx, sol@, cost@, r as int, at as int, len as int, piece@),
{
    let m = cx.model();
    let ghost sr = sol@[r as int]@;
    proof {
        assert(route_valid(m, sr));
        lemma_splice_valid(m, sr, at as int, at + len, Seq::empty());
    }
    let mut ci: usize = 0;
    while ci < cands.len()
        invariant
            ci <= cands@.len(),
            forall|c2: int, pos2: int|
                0 <= c2 < ci && 0 <= pos2 <= landing(
                    sol@,
                    r as int,
                    at as int,
                    len as int,
                    cands@[c2] as int,
                ).len() ==> !#[trigger] move_improves(
                    cx,
                    sol@,
                    cost@,
                    r as int,
                    at as int,
                    len as int,
                    piece@,
                    cands@[c2] as int,
                    pos2,
                ),
        decreases cands@.len() - ci,
    {
        let v = cands[ci];
        proof {
            assert(cands@[ci as int] < sol@.len()) by {
                lemma_cand_bounds(m, sol@);
            }
        }
        let vv = VehicleId(v as u32);
        let base: &[NodeId] = if v == r {
            without.as_slice()
        } else {
            sol[v].as_slice()
        };
        proof {
            assert(route_valid(m, base@));
            assert(base@ == landing(sol@, r as int, at as int, len as int, v as int));
        }
        let mut pos: usize = 0;
        loop
            invariant
                pos <= base@.len(),
                ci < cands@.len(),
                v == cands@[ci as int],
                cands@ == cand_spec(cx.model_spec(), sol@),
                base@ == landing(sol@, r as int, at as int, len as int, v as int),
                forall|c2: int, pos2: int|
                    0 <= c2 < ci && 0 <= pos2 <= landing(
                        sol@,
                        r as int,
                        at as int,
                        len as int,
                        cands@[c2] as int,
                    ).len() ==> !#[trigger] move_improves(
                        cx,
                        sol@,
                        cost@,
                        r as int,
                        at as int,
                        len as int,
                        piece@,
                        cands@[c2] as int,
                        pos2,
                    ),
                forall|pos2: int|
                    0 <= pos2 < pos ==> !#[trigger] move_improves(
                        cx,
                        sol@,
                        cost@,
                        r as int,
                        at as int,
                        len as int,
                        piece@,
                        v as int,
                        pos2,
                    ),
            decreases base@.len() - pos,
        {
            let cand = splice_vec(base, pos, pos, piece.as_slice());
            proof {
                lemma_splice_valid(m, base@, pos as int, pos as int, piece@);
            }
            match cx.eval(cand.as_slice(), vv) {
                Some(c) => {
                    let delta: i128 = if v == r {
                        c as i128 - cost[r] as i128
                    } else {
                        (without_cost as i128 - cost[r] as i128) + (c as i128 - cost[v] as i128)
                    };
                    if delta < 0 {
                        proof {
                            assert(first_landing(cx, sol@, cost@, r as int, at as int, len as int, piece@, ci as int, pos as int));
                        }
                        return Some((v, pos, cand, c));
                    }
                },
                None => {},
            }
            if pos == base.len() {
                break;
            }
            pos += 1;
        }
        ci += 1;
    }
    proof {
        assert forall|v2: int, pos2: int|
            0 <= v2 < sol@.len() && cand_spec(m, sol@).contains(v2 as usize) && 0 <= pos2
                <= landing(sol@, r as int, at as int, len as int, v2).len() implies !#[trigger] move_improves(
            cx,
            sol@,
            cost@,
            r as int,
            at as int,
            len as int,
            piece@,
            v2,
            pos2,
        ) by {
            let c2 = choose|c2: int| 0 <= c2 < cands@.len() && cands@[c2] == v2 as usize;
            assert(cands@[c2] as int == v2);
        }
    }
    None
}

proof fn lemma_cand_bounds(m: &Model, sol: Seq<Vec<NodeId>>)
    requires
        m.wf(),
        sol.len() == m.fleet().len(),
    ensures
        forall|i: int| 0 <= i < cand_spec(m, sol).len() ==> #[trigger] cand_spec(m, sol)[i] < sol.len(),
{
    lemma_used_bounds(sol, sol.len());
    let base = used_upto(sol, sol.len()) + match first_empty(sol, sol.len()) {
        Some(e) => seq![e],
        None => Seq::empty(),
    };
    assert forall|i: int| 0 <= i < base.len() implies #[trigger] base[i] < sol.len() by {
        if i < used_upto(sol, sol.len()).len() {
            assert(base[i] == used_upto(sol, sol.len())[i]);
        }
    }
    match m.sink() {
        Some(u) => {
            assert((u.0 as usize) < sol.len());
        },
        None => {},
    }
}

/// Commits a landing that `probe_landing` found: route `r` loses the
/// stretch `sol[r][at..at + len]`, route `v` gains `piece`, which holds the
/// same nodes.
fn commit_move(
    cx: &Search,
    sol: &mut Routes,
    cost: &mut Vec<Cost>,
    r: usize,
    at: usize,
    len: usize,
    piece: &Vec<NodeId>,
    without: Vec<NodeId>,
    without_cost: Cost,
    v: usize,
    pos: usize,
    cand: Vec<NodeId>,
    c: Cost,
)
    requires
        sol_ok(cx, old(sol)@),
        priced(cx, old(sol)@, old(cost)@),
        r < old(sol)@.len(),
        at + len <= old(sol)@[r as int]@.len(),
        without@ == splice(old(sol)@[r as int]@, at as int, at + len, Seq::empty()),
        cx.objective(without@, VehicleId(r as u32)) == Some(without_cost as int),
        piece@.to_multiset() == old(sol)@[r as int]@.subrange(at as int, at + len).to_multiset(),
        v < old(sol)@.len(),
        pos <= landing(old(sol)@, r as int, at as int, len as int, v as int).len(),
        cand@ == splice(
            landing(old(sol)@, r as int, at as int, len as int, v as int),
            pos as int,
            pos as int,
            piece@,
        ),
        route_valid(cx.model_spec(), cand@),
        cx.objective(cand@, VehicleId(v as u32)) == Some(c as int),
        move_improves(
            cx,
            old(sol)@,
            old(cost)@,
            r as int,
            at as int,
            len as int,
            piece@,
            v as int,
            pos as int,
        ),
    ensures
        outcome(cx, old(sol)@, old(cost)@, final(sol)@, final(cost)@, Some(v), r as int),
        applied(old(sol)@, final(sol)@, r as int, at as int, len as int, piece@, v as int, pos as int),
{
    let m = cx.model();
    let ghost sr = sol@[r as int]@;
    let ghost base = landing(sol@, r as int, at as int, len as int, v as int);
    let ghost wm = without@.to_multiset();
    let ghost cm = cand@.to_multiset();
    let ghost rm = sr.subrange(at as int, at + len).to_multiset();
    let ghost bm = base.to_multiset();
    let ghost e = Seq::<NodeId>::empty().to_multiset();
    proof {
        assert(route_valid(m, sr));
        lemma_splice_valid(m, sr, at as int, at + len, Seq::empty());
        lemma_splice_ms(sr, at as int, at + len, Seq::empty());
        lemma_splice_ms(base, pos as int, pos as int, piece@);
        assert(base.subrange(pos as int, pos as int) =~= Seq::<NodeId>::empty());
        assert(e =~= Multiset::empty());
        assert forall|x: NodeId| #[trigger] cm.count(x) == bm.count(x) + rm.count(x) by {
            assert(cm.add(e).count(x) == bm.add(piece@.to_multiset()).count(x));
        }
        assert forall|x: NodeId| #[trigger] wm.count(x) + rm.count(x) == sr.to_multiset().count(x) by {
            assert(wm.add(rm).count(x) == sr.to_multiset().add(e).count(x));
        }
    }
    let ghost s0 = sol@;
    let ghost c0 = cost@;
    if v != r {
        commit(sol, cost, r, without, without_cost);
        commit(sol, cost, v, cand, c);
        proof {
            assert(base == s0[v as int]@);
            assert forall|x: NodeId| #[trigger] wm.add(cm).count(x) == sr.to_multiset().add(bm).count(
                x,
            ) by {}
            lemma_ms_ext(wm.add(cm), sr.to_multiset().add(bm));
            lemma_commit_two(s0, r as int, without, v as int, cand);
            lemma_sum_update(c0, r as int, without_cost);
            lemma_sum_update(c0.update(r as int, without_cost), v as int, c);
            lemma_after_two(cx, s0, c0, sol@, cost@, r as int, v as int);
        }
    } else {
        commit(sol, cost, v, cand, c);
        proof {
            assert forall|x: NodeId| #[trigger] cm.count(x) == sr.to_multiset().count(x) by {}
            lemma_ms_ext(cm, sr.to_multiset());
            lemma_commit_one(s0, r as int, cand);
            lemma_sum_update(c0, r as int, c);
            lemma_after_two(cx, s0, c0, sol@, cost@, r as int, r as int);
        }
    }
}

/// Move `u` out of route `r` to its first improving position anywhere,
/// including back into `r`. Returns the receiving vehicle. When it finds
/// nothing, no candidate position takes `u`'s first occurrence for less.
pub fn try_relocate(
    cx: &Search,
    sol: &mut Routes,
    cost: &mut Vec<Cost>,
    u: NodeId,
    r: usize,
    sx: &mut Scratch,
) -> (res: Option<usize>)
    requires
        sol_ok(cx, old(sol)@),
        priced(cx, old(sol)@, old(cost)@),
        r < old(sol)@.len(),
    ensures
        outcome(cx, old(sol)@, old(cost)@, final(sol)@, final(cost)@, res, r as int),
        res is None ==> forall|at: int|
            first_at(old(sol)@[r as int]@, u, at) ==> move_optimal(
                cx,
                old(sol)@,
                old(cost)@,
                r as int,
                at,
                1,
                seq![u],
            ),
        res matches Some(v) ==> relocated(cx, old(sol)@, old(cost)@, final(sol)@, u, r as int, v as int),
{
    let m = cx.model();
    let at = match position(sol[r].as_slice(), u) {
        Some(a) => a,
        None => return None,
    };
    let ghost sr = sol@[r as int]@;
    let _rlen = sol[r].len();
    let empty: Vec<NodeId> = Vec::new();
    let mut one: Vec<NodeId> = Vec::new();
    one.push(u);
    let without = splice_vec(sol[r].as_slice(), at, at + 1, empty.as_slice());
    proof {
        assert(route_valid(m, sr));
        assert(m.valid_node(u));
        lemma_splice_valid(m, sr, at as int, at + 1, Seq::empty());
        assert forall|at2: int| first_at(sr, u, at2) implies at2 == at by {
            if at2 < at {
                assert(sr[at2] == u);
            }
            if at < at2 {
                assert(sr[at as int] == u);
            }
        }
        assert(one@ == seq![u]);
        assert(route_valid(m, one@));
    }
    let without_cost = match cx.eval(without.as_slice(), VehicleId(r as u32)) {
        Some(c) => c,
        None => return None,
    };
    candidate_vehicles(m, sol, &mut sx.vehicles);
    match probe_landing(cx, sol, cost, r, at, 1, &one, &without, without_cost, &sx.vehicles) {
        None => None,
        Some((v, pos, cand, c)) => {
            proof {
                assert(sr.subrange(at as int, at + 1) =~= seq![u]);
            }
            let ghost s0 = sol@;
            commit_move(cx, sol, cost, r, at, 1, &one, without, without_cost, v, pos, cand, c);
            proof {
                let ci = choose|ci: int|
                    #[trigger] first_landing(cx, s0, old(cost)@, r as int, at as int, 1, one@, ci, pos as int)
                        && cand_spec(cx.model_spec(), s0)[ci] == v;
                assert(first_landing(cx, s0, old(cost)@, r as int, at as int, 1, seq![u], ci, pos as int));
            }
            Some(v)
        },
    }
}

/// Every node of `sol` after two routes are rewritten exists, and every
/// route is priced, given that the two new routes are.
proof fn lemma_after_two(
    cx: &Search,
    sol0: Seq<Vec<NodeId>>,
    cost0: Seq<i64>,
    sol1: Seq<Vec<NodeId>>,
    cost1: Seq<i64>,
    r: int,
    v: int,
)
    requires
        sol_ok(cx, sol0),
        priced(cx, sol0, cost0),
        sol1.len() == sol0.len(),
        cost1.len() == cost0.len(),
        0 <= r < sol0.len(),
        0 <= v < sol0.len(),
        forall|w: int| 0 <= w < sol0.len() && w != r && w != v ==> sol1[w] == sol0[w] && cost1[w] == cost0[w],
        route_valid(cx.model_spec(), sol1[r]@),
        route_valid(cx.model_spec(), sol1[v]@),
        cx.objective(sol1[r]@, VehicleId(r as u32)) == Some(cost1[r] as int),
        cx.objective(sol1[v]@, VehicleId(v as u32)) == Some(cost1[v] as int),
    ensures
        sol_ok(cx, sol1),
        priced(cx, sol1, cost1),
{
    assert forall|w: int| 0 <= w < sol1.len() implies route_valid(cx.model_spec(), (#[trigger] sol1[w])@) by {
        if w != r && w != v {
            assert(sol1[w] == sol0[w]);
        }
    }
    assert forall|w: int| 0 <= w < sol1.len() implies cx.objective(
        (#[trigger] sol1[w])@,
        VehicleId(w as u32),
    ) == Some(cost1[w] as int) by {
        if w != r && w != v {
            assert(sol1[w] == sol0[w]);
        }
    }
}

/// `s[i]` traded for `w`: the nodes of `s`, less `s[i]`, plus `w`.
proof fn lemma_trade_ms(s: Seq<NodeId>, i: int, w: NodeId)
    requires
        0 <= i < s.len(),
    ensures
        splice(s, i, i + 1, seq![w]).to_multiset().add(seq![s[i]].to_multiset()) == s.to_multiset().add(
            seq![w].to_multiset(),
        ),
{
    lemma_splice_ms(s, i, i + 1, seq![w]);
    assert(s.subrange(i, i + 1) =~= seq![s[i]]);
}

/// Trading `sol[r][at]` for `sol[v][q]` lowers the two routes' total.
pub open spec fn swap_improves(
    cx: &Search,
    sol: Seq<Vec<NodeId>>,
    cost: Seq<i64>,
    r: int,
    at: int,
    v: int,
    q: int,
) -> bool {
    let new_r = splice(sol[r]@, at, at + 1, seq![sol[v]@[q]]);
    let new_v = splice(sol[v]@, q, q + 1, seq![sol[r]@[at]]);
    match (cx.objective(new_r, VehicleId(r as u32)), cx.objective(new_v, VehicleId(v as u32))) {
        (Some(a), Some(b)) => a + b < cost[r] + cost[v],
        _ => false,
    }
}

/// No trade of `sol[r][at]` for a node of another route lowers the total.
/// Trading `sol[r][at]` for `sol[v][q]` is the first improving trade,
/// vehicles `v` and then positions `q` scanned in increasing order.
pub open spec fn first_swap(
    cx: &Search,
    sol: Seq<Vec<NodeId>>,
    cost: Seq<i64>,
    r: int,
    at: int,
    v: int,
    q: int,
) -> bool {
    &&& 0 <= v < sol.len()
    &&& v != r
    &&& 0 <= q < sol[v]@.len()
    &&& swap_improves(cx, sol, cost, r, at, v, q)
    &&& forall|v2: int, q2: int|
        0 <= v2 < sol.len() && v2 != r && 0 <= q2 < sol[v2]@.len() && (v2 < v || (v2 == v && q2 < q))
            ==> !#[trigger] swap_improves(cx, sol, cost, r, at, v2, q2)
}

/// `sol1` is `sol0` after the first improving trade of `u`'s first
/// occurrence on route `r` with a stop of route `v`.
pub open spec fn swapped(
    cx: &Search,
    sol0: Seq<Vec<NodeId>>,
    cost0: Seq<i64>,
    sol1: Seq<Vec<NodeId>>,
    u: NodeId,
    r: int,
    v: int,
) -> bool {
    exists|at: int, q: int|
        #[trigger] first_swap(cx, sol0, cost0, r, at, v, q) && first_at(sol0[r]@, u, at) && sol1[r]@
            == splice(sol0[r]@, at, at + 1, seq![sol0[v]@[q]]) && sol1[v]@ == splice(
            sol0[v]@,
            q,
            q + 1,
            seq![u],
        )
}

pub open spec fn swap_optimal(cx: &Search, sol: Seq<Vec<NodeId>>, cost: Seq<i64>, r: int, at: int) -> bool {
    forall|v: int, q: int|
        0 <= v < sol.len() && v != r && 0 <= q < sol[v]@.len() ==> !#[trigger] swap_improves(
            cx,
            sol,
            cost,
            r,
            at,
            v,
            q,
        )
}

/// Trade `u` for a customer on another route, first improving pair wins.
/// Returns the other vehicle. When it finds nothing, no trade of `u`'s
/// first occurrence on route `r` helps.
///
/// Relocate cannot reach these moves when both routes are near capacity:
/// moving a node either way overflows, and only an even trade fits.
#[verifier::loop_isolation(false)]
#[verifier::rlimit(40)]
#[verifier::spinoff_prover]
pub fn try_swap(cx: &Search, sol: &mut Routes, cost: &mut Vec<Cost>, u: NodeId, r: usize) -> (res:
    Option<usize>)
    requires
        sol_ok(cx, old(sol)@),
        priced(cx, old(sol)@, old(cost)@),
        r < old(sol)@.len(),
    ensures
        outcome(cx, old(sol)@, old(cost)@, final(sol)@, final(cost)@, res, r as int),
        res is None ==> forall|at: int|
            first_at(old(sol)@[r as int]@, u, at) ==> swap_optimal(cx, old(sol)@, old(cost)@, r as int, at),
        res matches Some(v) ==> swapped(cx, old(sol)@, old(cost)@, final(sol)@, u, r as int, v as int),
{
    let m = cx.model();
    let at = match position(sol[r].as_slice(), u) {
        Some(a) => a,
        None => return None,
    };
    let _rlen = sol[r].len();
    let ghost sr = sol@[r as int]@;
    let mut one_u: Vec<NodeId> = Vec::new();
    one_u.push(u);
    let mut v: usize = 0;
    while v < sol.len()
        invariant
            v <= sol@.len(),
            sol@ == old(sol)@,
            cost@ == old(cost)@,
            sr == old(sol)@[r as int]@,
            first_at(sr, u, at as int),
            one_u@ == seq![u],
            forall|v2: int, q2: int|
                0 <= v2 < v && v2 != r && 0 <= q2 < old(sol)@[v2]@.len() ==> !#[trigger] swap_improves(
                    cx,
                    old(sol)@,
                    old(cost)@,
                    r as int,
                    at as int,
                    v2,
                    q2,
                ),
        decreases sol@.len() - v,
    {
        if v != r && sol[v].len() > 0 {
            let ghost sv = sol@[v as int]@;
            let mut q: usize = 0;
            while q < sol[v].len()
                invariant
                    q <= sv.len(),
                    sv == sol@[v as int]@,
                    sol@ == old(sol)@,
                    cost@ == old(cost)@,
                    sr == old(sol)@[r as int]@,
                    first_at(sr, u, at as int),
                    one_u@ == seq![u],
                    v != r,
                    forall|v2: int, q2: int|
                        0 <= v2 < v && v2 != r && 0 <= q2 < old(sol)@[v2]@.len()
                            ==> !#[trigger] swap_improves(
                            cx,
                            old(sol)@,
                            old(cost)@,
                            r as int,
                            at as int,
                            v2,
                            q2,
                        ),
                    forall|q2: int|
                        0 <= q2 < q ==> !#[trigger] swap_improves(
                            cx,
                            old(sol)@,
                            old(cost)@,
                            r as int,
                            at as int,
                            v as int,
                            q2,
                        ),
                decreases sv.len() - q,
            {
                let w = sol[v][q];
                let mut one_w: Vec<NodeId> = Vec::new();
                one_w.push(w);
                let new_r = splice_vec(sol[r].as_slice(), at, at + 1, one_w.as_slice());
                let new_v = splice_vec(sol[v].as_slice(), q, q + 1, one_u.as_slice());
                proof {
                    assert(route_valid(m, sr));
                    assert(route_valid(m, sv));
                    assert(m.valid_node(sv[q as int]));
                    assert(route_valid(m, one_w@));
                    assert(route_valid(m, one_u@));
                    lemma_splice_valid(m, sr, at as int, at + 1, one_w@);
                    lemma_splice_valid(m, sv, q as int, q + 1, one_u@);
                }
                // Route `v` goes unevaluated when `r` is already infeasible.
                let new = match cx.eval(new_r.as_slice(), VehicleId(r as u32)) {
                    Some(a) => match cx.eval(new_v.as_slice(), VehicleId(v as u32)) {
                        Some(b) => Some((a, b)),
                        None => None,
                    },
                    None => None,
                };
                match new {
                    Some((a, b)) => {
                        if (a as i128) + (b as i128) < (cost[r] as i128) + (cost[v] as i128) {
                            let ghost s0 = sol@;
                            let ghost c0 = cost@;
                            commit(sol, cost, r, new_r, a);
                            commit(sol, cost, v, new_v, b);
                            proof {
                                lemma_trade_ms(sr, at as int, w);
                                lemma_trade_ms(sv, q as int, u);
                                let nrm = splice(sr, at as int, at + 1, seq![w]).to_multiset();
                                let nvm = splice(sv, q as int, q + 1, seq![u]).to_multiset();
                                let um = seq![u].to_multiset();
                                let wm = seq![w].to_multiset();
                                assert(one_w@ == seq![w]);
                                assert(one_u@ == seq![u]);
                                assert(sr[at as int] == u);
                                assert(sv[q as int] == w);
                                assert forall|x: NodeId| #[trigger] nrm.add(nvm).count(x) == sr.to_multiset().add(
                                    sv.to_multiset(),
                                ).count(x) by {
                                    assert(nrm.add(um).count(x) == sr.to_multiset().add(wm).count(x));
                                    assert(nvm.add(wm).count(x) == sv.to_multiset().add(um).count(x));
                                }
                                lemma_ms_ext(nrm.add(nvm), sr.to_multiset().add(sv.to_multiset()));
                                lemma_commit_two(s0, r as int, new_r, v as int, new_v);
                                lemma_sum_update(c0, r as int, a);
                                lemma_sum_update(c0.update(r as int, a), v as int, b);
                                lemma_after_two(cx, s0, c0, sol@, cost@, r as int, v as int);
                                assert(new_r@ == splice(sr, at as int, at + 1, seq![sv[q as int]]));
                                assert(new_v@ == splice(sv, q as int, q + 1, seq![u]));
                                assert(swap_improves(cx, s0, c0, r as int, at as int, v as int, q as int));
                                assert(first_swap(cx, s0, c0, r as int, at as int, v as int, q as int));
                                assert(s0 == old(sol)@ && c0 == old(cost)@);
                                assert(sol@[r as int] == new_r);
                                assert(sol@[v as int] == new_v);
                                assert(sv[q as int] == old(sol)@[v as int]@[q as int]);
                                assert(first_swap(cx, old(sol)@, old(cost)@, r as int, at as int, v as int, q as int)
                                    && first_at(old(sol)@[r as int]@, u, at as int) && sol@[r as int]@ == splice(
                                    old(sol)@[r as int]@,
                                    at as int,
                                    at + 1,
                                    seq![old(sol)@[v as int]@[q as int]],
                                ) && sol@[v as int]@ == splice(old(sol)@[v as int]@, q as int, q + 1, seq![u]));
                                assert(swapped(cx, old(sol)@, old(cost)@, sol@, u, r as int, v as int));
                            }
                            return Some(v);
                        }
                    },
                    None => {},
                }
                proof {
                    assert(new_r@ == splice(sr, at as int, at + 1, seq![sv[q as int]]));
                    assert(new_v@ == splice(sv, q as int, q + 1, seq![sr[at as int]]));
                }
                q += 1;
            }
        }
        v += 1;
    }
    proof {
        assert forall|at2: int| first_at(old(sol)@[r as int]@, u, at2) implies swap_optimal(
            cx,
            old(sol)@,
            old(cost)@,
            r as int,
            at2,
        ) by {
            if at2 < at {
                assert(sr[at2] == u);
            }
            if at < at2 {
                assert(sr[at as int] == u);
            }
        }
    }
    None
}

/// `s[i..j]` reversed, as a fresh vector.
fn reversed(s: &[NodeId], i: usize, j: usize) -> (out: Vec<NodeId>)
    requires
        i <= j <= s@.len(),
    ensures
        out@ == s@.subrange(i as int, j as int).reverse(),
{
    let mut out: Vec<NodeId> = Vec::new();
    let mut k: usize = j;
    while k > i
        invariant
            i <= k <= j <= s@.len(),
            out@ == s@.subrange(k as int, j as int).reverse(),
        decreases k - i,
    {
        k -= 1;
        out.push(s[k]);
        proof {
            assert(out@ =~= s@.subrange(k as int, j as int).reverse());
        }
    }
    out
}

/// A stretch reversed in place keeps the route's nodes.
proof fn lemma_reverse_splice_ms(s: Seq<NodeId>, i: int, j: int)
    requires
        0 <= i <= j <= s.len(),
    ensures
        splice(s, i, j, s.subrange(i, j).reverse()).to_multiset() == s.to_multiset(),
{
    let seg = s.subrange(i, j);
    lemma_splice_ms(s, i, j, seg.reverse());
    seg.lemma_reverse_to_multiset();
    let a = splice(s, i, j, seg.reverse()).to_multiset();
    assert forall|x: NodeId| #[trigger] a.count(x) == s.to_multiset().count(x) by {
        assert(a.add(seg.to_multiset()).count(x) == s.to_multiset().add(seg.reverse().to_multiset()).count(x));
    }
    lemma_ms_ext(a, s.to_multiset());
}

/// `s` with `s[i..=j]` reversed.
pub open spec fn two_opt_route(s: Seq<NodeId>, i: int, j: int) -> Seq<NodeId> {
    splice(s, i, j + 1, s.subrange(i, j + 1).reverse())
}

/// Reversing `sol[r][i..=j]` lowers route `r`'s price.
pub open spec fn two_opt_improves(
    cx: &Search,
    sol: Seq<Vec<NodeId>>,
    cost: Seq<i64>,
    r: int,
    i: int,
    j: int,
) -> bool {
    cx.objective(two_opt_route(sol[r]@, i, j), VehicleId(r as u32)) matches Some(c) && c < cost[r]
}

/// No reversal of a stretch of route `r` lowers its price.
/// Reversing `sol[r][i..=j]` is the first improving 2-opt move on route
/// `r`, pairs `(i, j)` scanned in lexicographic order.
pub open spec fn first_two_opt(
    cx: &Search,
    sol: Seq<Vec<NodeId>>,
    cost: Seq<i64>,
    r: int,
    i: int,
    j: int,
) -> bool {
    &&& 0 <= i < j < sol[r]@.len()
    &&& two_opt_improves(cx, sol, cost, r, i, j)
    &&& forall|a: int, b: int|
        0 <= a < b < sol[r]@.len() && (a < i || (a == i && b < j)) ==> !#[trigger] two_opt_improves(
            cx,
            sol,
            cost,
            r,
            a,
            b,
        )
}

pub open spec fn two_opt_optimal(cx: &Search, sol: Seq<Vec<NodeId>>, cost: Seq<i64>, r: int) -> bool {
    forall|i: int, j: int|
        0 <= i < j < sol[r]@.len() ==> !#[trigger] two_opt_improves(cx, sol, cost, r, i, j)
}

/// Intra-route 2-opt: reverse one segment, keep it if it is cheaper. When
/// it finds nothing, no reversal helps.
#[verifier::loop_isolation(false)]
pub fn try_two_opt(cx: &Search, sol: &mut Routes, cost: &mut Vec<Cost>, r: usize) -> (res: bool)
    requires
        sol_ok(cx, old(sol)@),
        old(cost)@.len() == old(sol)@.len(),
        r < old(sol)@.len(),
        cx.objective(old(sol)@[r as int]@, VehicleId(r as u32)) == Some(old(cost)@[r as int] as int),
    ensures
        !res ==> final(sol)@ == old(sol)@ && final(cost)@ == old(cost)@,
        res ==> final(sol)@ == old(sol)@.update(r as int, final(sol)@[r as int]) && final(cost)@ == old(
            cost,
        )@.update(r as int, final(cost)@[r as int]) && cx.objective(
            final(sol)@[r as int]@,
            VehicleId(r as u32),
        ) == Some(final(cost)@[r as int] as int) && final(cost)@[r as int] < old(cost)@[r as int],
        priced(cx, old(sol)@, old(cost)@) ==> outcome(
            cx,
            old(sol)@,
            old(cost)@,
            final(sol)@,
            final(cost)@,
            if res {
                Some(r)
            } else {
                None
            },
            r as int,
        ),
        !res ==> two_opt_optimal(cx, old(sol)@, old(cost)@, r as int),
        res ==> exists|i: int, j: int|
            #[trigger] first_two_opt(cx, old(sol)@, old(cost)@, r as int, i, j) && final(sol)@[r as int]@
                == two_opt_route(old(sol)@[r as int]@, i, j),
{
    let m = cx.model();
    let len = sol[r].len();
    let ghost sr = sol@[r as int]@;
    let mut i: usize = 0;
    while i < len
        invariant
            i <= len,
            len == sr.len(),
            sol@ == old(sol)@,
            cost@ == old(cost)@,
            forall|a: int, b: int|
                0 <= a < i && a < b < len ==> !#[trigger] two_opt_improves(
                    cx,
                    old(sol)@,
                    old(cost)@,
                    r as int,
                    a,
                    b,
                ),
        decreases len - i,
    {
        let mut j: usize = i + 1;
        while j < len
            invariant
                i < j <= len,
                len == sr.len(),
                sol@ == old(sol)@,
                cost@ == old(cost)@,
                forall|a: int, b: int|
                    0 <= a < i && a < b < len ==> !#[trigger] two_opt_improves(
                        cx,
                        old(sol)@,
                        old(cost)@,
                        r as int,
                        a,
                        b,
                    ),
                forall|b: int|
                    i < b < j ==> !#[trigger] two_opt_improves(
                        cx,
                        old(sol)@,
                        old(cost)@,
                        r as int,
                        i as int,
                        b,
                    ),
            decreases len - j,
        {
            let seg = reversed(sol[r].as_slice(), i, j + 1);
            let cand = splice_vec(sol[r].as_slice(), i, j + 1, seg.as_slice());
            proof {
                assert(route_valid(m, sr));
                assert forall|k: int| 0 <= k < seg@.len() implies m.valid_node(#[trigger] seg@[k]) by {
                    assert(seg@[k] == sr[j - k]);
                }
                lemma_splice_valid(m, sr, i as int, j + 1, seg@);
            }
            match cx.eval(cand.as_slice(), VehicleId(r as u32)) {
                Some(c) => {
                    if c < cost[r] {
                        let ghost s0 = sol@;
                        let ghost c0 = cost@;
                        commit(sol, cost, r, cand, c);
                        proof {
                            lemma_reverse_splice_ms(sr, i as int, j + 1);
                            lemma_commit_one(s0, r as int, cand);
                            lemma_sum_update(c0, r as int, c);
                            if priced(cx, s0, c0) {
                                lemma_after_two(cx, s0, c0, sol@, cost@, r as int, r as int);
                            }
                            assert(first_two_opt(cx, s0, c0, r as int, i as int, j as int));
                            assert(sol@ =~= s0.update(r as int, sol@[r as int]));
                            assert(cost@ =~= c0.update(r as int, cost@[r as int]));
                        }
                        return true;
                    }
                },
                None => {},
            }
            j += 1;
        }
        i += 1;
    }
    false
}

/// `s[a..b]`, as a fresh vector.
pub fn sub_vec(s: &[NodeId], a: usize, b: usize) -> (out: Vec<NodeId>)
    requires
        a <= b <= s@.len(),
    ensures
        out@ == s@.subrange(a as int, b as int),
{
    let mut out: Vec<NodeId> = Vec::new();
    let mut k: usize = a;
    while k < b
        invariant
            a <= k <= b <= s@.len(),
            out@ == s@.subrange(a as int, k as int),
        decreases b - k,
    {
        out.push(s[k]);
        proof {
            assert(out@ =~= s@.subrange(a as int, k + 1));
        }
        k += 1;
    }
    out
}

/// A candidate 2-opt* move is sound: the other vehicle, the two rebuilt
/// routes holding the same nodes as the two old ones, priced, cheaper.
pub open spec fn star_ok(
    cx: &Search,
    sol: Seq<Vec<NodeId>>,
    cost: Seq<i64>,
    r: int,
    best: StarBest,
) -> bool {
    match best {
        None => true,
        Some((_g, v, _i, _j, nr, nv, a, b)) => {
            &&& (v as int) < sol.len()
            &&& v != r
            &&& route_valid(cx.model_spec(), nr@)
            &&& route_valid(cx.model_spec(), nv@)
            &&& cx.objective(nr@, VehicleId(r as u32)) == Some(a as int)
            &&& cx.objective(nv@, VehicleId(v as u32)) == Some(b as int)
            &&& a + b < cost[r] + cost[v as int]
            &&& nr@.to_multiset().add(nv@.to_multiset()) == sol[r]@.to_multiset().add(
                sol[v as int]@.to_multiset(),
            )
        },
    }
}

/// Trading the tails after `i` of `s` and after `j` of `t` keeps their
/// nodes between them.
proof fn lemma_tails_ms(s: Seq<NodeId>, i: int, t: Seq<NodeId>, j: int)
    requires
        0 <= i < s.len(),
        0 <= j < t.len(),
    ensures
        splice(s, i + 1, s.len() as int, t.subrange(j + 1, t.len() as int)).to_multiset().add(
            splice(t, j + 1, t.len() as int, s.subrange(i + 1, s.len() as int)).to_multiset(),
        ) == s.to_multiset().add(t.to_multiset()),
{
    let st = s.subrange(i + 1, s.len() as int);
    let tt = t.subrange(j + 1, t.len() as int);
    lemma_splice_ms(s, i + 1, s.len() as int, tt);
    lemma_splice_ms(t, j + 1, t.len() as int, st);
    let a = splice(s, i + 1, s.len() as int, tt).to_multiset();
    let b = splice(t, j + 1, t.len() as int, st).to_multiset();
    assert forall|x: NodeId| #[trigger] a.add(b).count(x) == s.to_multiset().add(t.to_multiset()).count(
        x,
    ) by {
        assert(a.add(st.to_multiset()).count(x) == s.to_multiset().add(tt.to_multiset()).count(x));
        assert(b.add(tt.to_multiset()).count(x) == t.to_multiset().add(st.to_multiset()).count(x));
    }
    lemma_ms_ext(a.add(b), s.to_multiset().add(t.to_multiset()));
}

/// `x` is representable as an `i128`.
pub open spec fn fits_wide(x: int) -> bool {
    -0x8000_0000_0000_0000_0000_0000_0000_0000 <= x <= 0x7fff_ffff_ffff_ffff_ffff_ffff_ffff_ffff
}

/// The node after stop `i` of `s` on `veh`: the next stop, or the end.
pub open spec fn after(s: Seq<NodeId>, i: int, veh: Vehicle) -> NodeId {
    if i + 1 < s.len() {
        s[i + 1]
    } else {
        veh.end
    }
}

/// The arcs cut when the tails after `sol[r][i]` and `sol[v][j]` are traded,
/// priced on the objective of `cx`.
pub open spec fn star_out(cx: &Search, sol: Seq<Vec<NodeId>>, r: int, v: int, i: int, j: int) -> int {
    let fr = cx.model_spec().fleet()[r];
    let fv = cx.model_spec().fleet()[v];
    cx.arc_obj(fr.cost_class as int, sol[r]@[i], after(sol[r]@, i, fr)) + cx.arc_obj(
        fv.cost_class as int,
        sol[v]@[j],
        after(sol[v]@, j, fv),
    )
}

/// The arcs that reconnect the traded tails, priced on the objective of `cx`.
pub open spec fn star_in(cx: &Search, sol: Seq<Vec<NodeId>>, r: int, v: int, i: int, j: int) -> int {
    let fr = cx.model_spec().fleet()[r];
    let fv = cx.model_spec().fleet()[v];
    cx.arc_obj(
        fr.cost_class as int,
        sol[r]@[i],
        if j + 1 < sol[v]@.len() {
            sol[v]@[j + 1]
        } else {
            fr.end
        },
    ) + cx.arc_obj(
        fv.cost_class as int,
        sol[v]@[j],
        if i + 1 < sol[r]@.len() {
            sol[r]@[i + 1]
        } else {
            fv.end
        },
    )
}

/// Trading the tails after `sol[r][i]` and `sol[v][j]` lowers the two
/// routes' total.
pub open spec fn star_improves(
    cx: &Search,
    sol: Seq<Vec<NodeId>>,
    cost: Seq<i64>,
    r: int,
    v: int,
    i: int,
    j: int,
) -> bool {
    let nr = traded_r(sol, r, v, i, j);
    let nv = traded_v(sol, r, v, i, j);
    match (cx.objective(nr, VehicleId(r as u32)), cx.objective(nv, VehicleId(v as u32))) {
        (Some(a), Some(b)) => a + b < cost[r] + cost[v],
        _ => false,
    }
}

/// Route `r` after trading its tail after stop `i` for the tail of route
/// `v` after stop `j`.
pub open spec fn traded_r(sol: Seq<Vec<NodeId>>, r: int, v: int, i: int, j: int) -> Seq<NodeId> {
    splice(sol[r]@, i + 1, sol[r]@.len() as int, sol[v]@.subrange(j + 1, sol[v]@.len() as int))
}

/// Route `v` after the same trade.
pub open spec fn traded_v(sol: Seq<Vec<NodeId>>, r: int, v: int, i: int, j: int) -> Seq<NodeId> {
    splice(sol[v]@, j + 1, sol[v]@.len() as int, sol[r]@.subrange(i + 1, sol[r]@.len() as int))
}

/// What the arcs say a tail trade gains: reconnecting minus cut.
pub open spec fn star_gain(cx: &Search, sol: Seq<Vec<NodeId>>, r: int, v: int, i: int, j: int) -> int {
    star_in(cx, sol, r, v, i, j) - star_out(cx, sol, r, v, i, j)
}

/// A tail trade between route `r` and route `v` that 2-opt* would take:
/// ranked as a gain by its arcs and lowering the two routes' total.
pub open spec fn star_takes(
    cx: &Search,
    sol: Seq<Vec<NodeId>>,
    cost: Seq<i64>,
    r: int,
    v: int,
    i: int,
    j: int,
) -> bool {
    &&& 0 <= v < sol.len()
    &&& v != r
    &&& 0 <= i < sol[r]@.len()
    &&& 0 <= j < sol[v]@.len()
    &&& star_ranked(cx, sol, r, v, i, j)
    &&& star_improves(cx, sol, cost, r, v, i, j)
}

/// `(v2, i2, j2)` comes before `(v, i, j)` in the scan: by vehicle, then
/// by the cut in route `r`, then by the cut in the other route.
pub open spec fn star_before(v2: int, i2: int, j2: int, v: int, i: int, j: int) -> bool {
    v2 < v || (v2 == v && (i2 < i || (i2 == i && j2 < j)))
}

/// The trade after `sol[r][i]` and `sol[v][j]` is the one 2-opt* keeps:
/// taken, with the least arc gain of all trades taken, and strictly less
/// than the gain of every taken trade scanned before it.
pub open spec fn best_star(
    cx: &Search,
    sol: Seq<Vec<NodeId>>,
    cost: Seq<i64>,
    r: int,
    v: int,
    i: int,
    j: int,
) -> bool {
    &&& star_takes(cx, sol, cost, r, v, i, j)
    &&& forall|v2: int, i2: int, j2: int| #[trigger]
        star_takes(cx, sol, cost, r, v2, i2, j2) ==> star_gain(cx, sol, r, v, i, j) <= star_gain(
            cx,
            sol,
            r,
            v2,
            i2,
            j2,
        ) && (star_before(v2, i2, j2, v, i, j) ==> star_gain(cx, sol, r, v, i, j) < star_gain(
            cx,
            sol,
            r,
            v2,
            i2,
            j2,
        ))
}

/// What the scan has kept once every trade before `(v0, i0, j0)` was
/// weighed: nothing, when none of them is taken; otherwise the best of
/// them, with its gain and its two rebuilt routes.
pub open spec fn star_kept(
    cx: &Search,
    sol: Seq<Vec<NodeId>>,
    cost: Seq<i64>,
    r: int,
    best: StarBest,
    v0: int,
    i0: int,
    j0: int,
) -> bool {
    match best {
        None => forall|v2: int, i2: int, j2: int| #[trigger]
            star_takes(cx, sol, cost, r, v2, i2, j2) ==> !star_before(v2, i2, j2, v0, i0, j0),
        Some((g, v, i, j, nr, nv, _a, _b)) => {
            &&& star_takes(cx, sol, cost, r, v as int, i as int, j as int)
            &&& star_before(v as int, i as int, j as int, v0, i0, j0)
            &&& g == star_gain(cx, sol, r, v as int, i as int, j as int)
            &&& nr@ == traded_r(sol, r, v as int, i as int, j as int)
            &&& nv@ == traded_v(sol, r, v as int, i as int, j as int)
            &&& forall|v2: int, i2: int, j2: int| #[trigger]
                star_takes(cx, sol, cost, r, v2, i2, j2) && star_before(v2, i2, j2, v0, i0, j0)
                    ==> g <= star_gain(cx, sol, r, v2, i2, j2) && (star_before(
                    v2,
                    i2,
                    j2,
                    v as int,
                    i as int,
                    j as int,
                ) ==> g < star_gain(cx, sol, r, v2, i2, j2))
        },
    }
}

/// A tail trade the scan ranks as a gain: its arcs cost less after than
/// before, within the `i128` range the ranking is computed in.
pub open spec fn star_ranked(cx: &Search, sol: Seq<Vec<NodeId>>, r: int, v: int, i: int, j: int) -> bool {
    &&& (i + 1 < sol[r]@.len() || j + 1 < sol[v]@.len())
    &&& fits_wide(star_out(cx, sol, r, v, i, j))
    &&& fits_wide(star_in(cx, sol, r, v, i, j))
    &&& fits_wide(star_in(cx, sol, r, v, i, j) - star_out(cx, sol, r, v, i, j))
    &&& star_in(cx, sol, r, v, i, j) < star_out(cx, sol, r, v, i, j)
}

/// No tail trade between route `r` and another route that the arcs rank as
/// a gain lowers the total.
pub open spec fn star_optimal(cx: &Search, sol: Seq<Vec<NodeId>>, cost: Seq<i64>, r: int) -> bool {
    forall|v: int, i: int, j: int|
        0 <= v < sol.len() && v != r && 0 <= i < sol[r]@.len() && 0 <= j < sol[v]@.len()
            && star_ranked(cx, sol, r, v, i, j) ==> !#[trigger] star_improves(cx, sol, cost, r, v, i, j)
}

/// Prices the tail trade after `sol[r][i]` and `sol[v][j]`: when the trade
/// is taken and its arcs rank it below `bar`, its gain, the two rebuilt
/// routes and their prices.
fn star_candidate(
    cx: &Search,
    sol: &Routes,
    cost: &Vec<Cost>,
    r: usize,
    v: usize,
    i: usize,
    j: usize,
    bar: i128,
) -> (res: Option<(i128, Vec<NodeId>, Vec<NodeId>, Cost, Cost)>)
    requires
        sol_ok(cx, sol@),
        priced(cx, sol@, cost@),
        r < sol@.len(),
        v < sol@.len(),
        v != r,
        i < sol@[r as int]@.len(),
        j < sol@[v as int]@.len(),
        bar <= 0,
    ensures
        res matches Some((g, nr, nv, a, b)) ==> {
            &&& g < bar
            &&& g == star_gain(cx, sol@, r as int, v as int, i as int, j as int)
            &&& star_takes(cx, sol@, cost@, r as int, v as int, i as int, j as int)
            &&& nr@ == traded_r(sol@, r as int, v as int, i as int, j as int)
            &&& nv@ == traded_v(sol@, r as int, v as int, i as int, j as int)
            &&& star_ok(cx, sol@, cost@, r as int, Some((g, v, i, j, nr, nv, a, b)))
        },
        res is None ==> (star_takes(cx, sol@, cost@, r as int, v as int, i as int, j as int) ==> bar
            <= star_gain(cx, sol@, r as int, v as int, i as int, j as int)),
{
    let m = cx.model();
    let veh_r = m.vehicle(VehicleId(r as u32));
    let veh_v = m.vehicle(VehicleId(v as u32));
    let lr = sol[r].len();
    let lv = sol[v].len();
    let ghost sr = sol@[r as int]@;
    let ghost sv = sol@[v as int]@;
    proof {
        assert(route_valid(m, sr));
        assert(route_valid(m, sv));
    }
    let a_r = sol[r][i];
    let a_v = sol[v][j];
    // Both tails empty: no arc changes.
    if i + 1 >= lr && j + 1 >= lv {
        return None;
    }
    let next_r = if i + 1 < lr {
        sol[r][i + 1]
    } else {
        veh_r.end
    };
    let next_v = if j + 1 < lv {
        sol[v][j + 1]
    } else {
        veh_v.end
    };
    let r_into = if j + 1 < lv {
        sol[v][j + 1]
    } else {
        veh_r.end
    };
    let v_into = if i + 1 < lr {
        sol[r][i + 1]
    } else {
        veh_v.end
    };
    proof {
        assert(m.valid_node(sr[i as int]));
        assert(m.valid_node(sv[j as int]));
        if i + 1 < lr {
            assert(m.valid_node(sr[i + 1]));
        }
        if j + 1 < lv {
            assert(m.valid_node(sv[j + 1]));
        }
    }
    let o1 = cx.arc_wide(veh_r.cost_class, a_r, next_r);
    let o2 = cx.arc_wide(veh_v.cost_class, a_v, next_v);
    let n1 = cx.arc_wide(veh_r.cost_class, a_r, r_into);
    let n2 = cx.arc_wide(veh_v.cost_class, a_v, v_into);
    proof {
        assert(o1 + o2 == star_out(cx, sol@, r as int, v as int, i as int, j as int));
        assert(n1 + n2 == star_in(cx, sol@, r as int, v as int, i as int, j as int));
    }
    let gain = match (o1.checked_add(o2), n1.checked_add(n2)) {
        (Some(out), Some(into)) => into.checked_sub(out),
        _ => None,
    };
    let g = match gain {
        Some(g) => g,
        None => return None,
    };
    if g >= bar {
        return None;
    }
    let tv = sub_vec(sol[v].as_slice(), j + 1, lv);
    let tr = sub_vec(sol[r].as_slice(), i + 1, lr);
    let new_r = splice_vec(sol[r].as_slice(), i + 1, lr, tv.as_slice());
    let new_v = splice_vec(sol[v].as_slice(), j + 1, lv, tr.as_slice());
    proof {
        assert forall|k: int| 0 <= k < tv@.len() implies m.valid_node(#[trigger] tv@[k]) by {
            assert(tv@[k] == sv[j + 1 + k]);
        }
        assert forall|k: int| 0 <= k < tr@.len() implies m.valid_node(#[trigger] tr@[k]) by {
            assert(tr@[k] == sr[i + 1 + k]);
        }
        lemma_splice_valid(m, sr, i + 1, lr as int, tv@);
        lemma_splice_valid(m, sv, j + 1, lv as int, tr@);
    }
    let a = match cx.eval(new_r.as_slice(), VehicleId(r as u32)) {
        Some(a) => a,
        None => return None,
    };
    let b = match cx.eval(new_v.as_slice(), VehicleId(v as u32)) {
        Some(b) => b,
        None => return None,
    };
    if (a as i128) + (b as i128) < (cost[r] as i128) + (cost[v] as i128) {
        proof {
            lemma_tails_ms(sr, i as int, sv, j as int);
        }
        Some((g, new_r, new_v, a, b))
    } else {
        None
    }
}

/// The best tail trade so far, kept by `try_two_opt_star`.
pub type StarBest = Option<(i128, usize, usize, usize, Vec<NodeId>, Vec<NodeId>, Cost, Cost)>;

/// Every tail trade between route `r` cut after stop `i` and route `v`,
/// weighed against the best kept so far.
#[verifier::loop_isolation(false)]
fn star_row(
    cx: &Search,
    sol: &Routes,
    cost: &Vec<Cost>,
    r: usize,
    v: usize,
    i: usize,
    best: &mut StarBest,
)
    requires
        sol_ok(cx, sol@),
        priced(cx, sol@, cost@),
        r < sol@.len(),
        v < sol@.len(),
        v != r,
        i < sol@[r as int]@.len(),
        star_ok(cx, sol@, cost@, r as int, *old(best)),
        star_kept(cx, sol@, cost@, r as int, *old(best), v as int, i as int, 0),
    ensures
        star_ok(cx, sol@, cost@, r as int, *final(best)),
        star_kept(cx, sol@, cost@, r as int, *final(best), v as int, i + 1, 0),
{
    let lv = sol[v].len();
    let mut j: usize = 0;
    while j < lv
        invariant
            j <= lv,
            lv == sol@[v as int]@.len(),
            star_ok(cx, sol@, cost@, r as int, *best),
            star_kept(cx, sol@, cost@, r as int, *best, v as int, i as int, j as int),
        decreases lv - j,
    {
        let bar: i128 = match &*best {
            Some(b) => b.0,
            None => 0,
        };
        let ghost before = *best;
        match star_candidate(cx, sol, cost, r, v, i, j, bar) {
            Some((g, new_r, new_v, a, b)) => {
                *best = Some((g, v, i, j, new_r, new_v, a, b));
                proof {
                    lemma_kept_replaced(cx, sol@, cost@, r as int, before, *best, v as int, i as int, j as int);
                }
            },
            None => {
                proof {
                    lemma_kept_passed(cx, sol@, cost@, r as int, before, v as int, i as int, j as int);
                }
            },
        }
        j += 1;
    }
    proof {
        lemma_kept_moves(cx, sol@, cost@, r as int, *best, v as int, i as int, lv as int, v as int, i + 1, 0);
    }
}

/// A trade taken with a gain below everything kept so far becomes the one
/// kept, one position further on.
proof fn lemma_kept_replaced(
    cx: &Search,
    sol: Seq<Vec<NodeId>>,
    cost: Seq<i64>,
    r: int,
    before: StarBest,
    after: StarBest,
    v: int,
    i: int,
    j: int,
)
    requires
        star_kept(cx, sol, cost, r, before, v, i, j),
        after matches Some((g, v1, i1, j1, nr, nv, _a, _b)) && v1 == v && i1 == i && j1 == j
            && star_takes(cx, sol, cost, r, v, i, j) && g == star_gain(cx, sol, r, v, i, j)
            && nr@ == traded_r(sol, r, v, i, j) && nv@ == traded_v(sol, r, v, i, j) && (g < match before {
            Some(b) => b.0 as int,
            None => 0,
        }),
    ensures
        star_kept(cx, sol, cost, r, after, v, i, j + 1),
{
}

/// A trade passed over, because it is not taken or gains no more than the
/// one kept, leaves the kept one kept, one position further on.
proof fn lemma_kept_passed(
    cx: &Search,
    sol: Seq<Vec<NodeId>>,
    cost: Seq<i64>,
    r: int,
    best: StarBest,
    v: int,
    i: int,
    j: int,
)
    requires
        star_kept(cx, sol, cost, r, best, v, i, j),
        star_takes(cx, sol, cost, r, v, i, j) ==> match best {
            Some(b) => b.0 as int,
            None => 0,
        } <= star_gain(cx, sol, r, v, i, j),
    ensures
        star_kept(cx, sol, cost, r, best, v, i, j + 1),
{
}

/// A kept trade stays kept when the scan position moves to one that has
/// the same taken trades before it.
proof fn lemma_kept_moves(
    cx: &Search,
    sol: Seq<Vec<NodeId>>,
    cost: Seq<i64>,
    r: int,
    best: StarBest,
    v0: int,
    i0: int,
    j0: int,
    v1: int,
    i1: int,
    j1: int,
)
    requires
        star_kept(cx, sol, cost, r, best, v0, i0, j0),
        v0 == v1 && i1 == i0 + 1 && j1 == 0 && j0 == sol[v0]@.len() || v1 == v0 + 1 && i1 == 0 && j1
            == 0 && j0 == 0 && (i0 == sol[r]@.len() || v0 == r),
    ensures
        star_kept(cx, sol, cost, r, best, v1, i1, j1),
{
    assert forall|v2: int, i2: int, j2: int| #[trigger]
        star_takes(cx, sol, cost, r, v2, i2, j2) implies star_before(v2, i2, j2, v0, i0, j0)
        == star_before(v2, i2, j2, v1, i1, j1) by {}
}

/// Every tail trade between route `r` and route `v`, weighed against the
/// best kept so far.
#[verifier::loop_isolation(false)]
fn star_partner(
    cx: &Search,
    sol: &Routes,
    cost: &Vec<Cost>,
    r: usize,
    v: usize,
    best: &mut StarBest,
)
    requires
        sol_ok(cx, sol@),
        priced(cx, sol@, cost@),
        r < sol@.len(),
        v < sol@.len(),
        v != r,
        star_ok(cx, sol@, cost@, r as int, *old(best)),
        star_kept(cx, sol@, cost@, r as int, *old(best), v as int, 0, 0),
    ensures
        star_ok(cx, sol@, cost@, r as int, *final(best)),
        star_kept(cx, sol@, cost@, r as int, *final(best), v + 1, 0, 0),
{
    let lr = sol[r].len();
    let mut i: usize = 0;
    while i < lr
        invariant
            i <= lr,
            lr == sol@[r as int]@.len(),
            star_ok(cx, sol@, cost@, r as int, *best),
            star_kept(cx, sol@, cost@, r as int, *best, v as int, i as int, 0),
        decreases lr - i,
    {
        star_row(cx, sol, cost, r, v, i, best);
        i += 1;
    }
    proof {
        lemma_kept_moves(cx, sol@, cost@, r as int, *best, v as int, lr as int, 0, v + 1, 0, 0);
    }
}

/// Inter-route 2-opt*: cut one arc in route `r` and one in another route,
/// trade the tails. Returns the other vehicle. When it finds nothing, no
/// trade the arcs rank as a gain makes the two routes cheaper; otherwise
/// the trade made is the taken one with the least arc gain, the first
/// scanned among equals.
///
/// This is the operator that changes the customer-to-route partition in
/// chunks. The delta is arc arithmetic on the objective in force — only the
/// two cut arcs and the two reconnecting arcs change — and full evaluation
/// runs only on improving candidates. Best-improvement: a tail swap commits
/// many customers at once.
#[verifier::loop_isolation(false)]
pub fn try_two_opt_star(cx: &Search, sol: &mut Routes, cost: &mut Vec<Cost>, r: usize) -> (res:
    Option<usize>)
    requires
        sol_ok(cx, old(sol)@),
        priced(cx, old(sol)@, old(cost)@),
        r < old(sol)@.len(),
    ensures
        outcome(cx, old(sol)@, old(cost)@, final(sol)@, final(cost)@, res, r as int),
        res is None ==> star_optimal(cx, old(sol)@, old(cost)@, r as int),
        res matches Some(v) ==> exists|i: int, j: int|
            #[trigger] best_star(cx, old(sol)@, old(cost)@, r as int, v as int, i, j)
                && final(sol)@[r as int]@ == traded_r(old(sol)@, r as int, v as int, i, j)
                && final(sol)@[v as int]@ == traded_v(old(sol)@, r as int, v as int, i, j),
{
    let mut best: StarBest = None;
    let mut v: usize = 0;
    while v < sol.len()
        invariant
            v <= sol@.len(),
            sol_ok(cx, sol@),
            priced(cx, sol@, cost@),
            r < sol@.len(),
            sol@ == old(sol)@,
            cost@ == old(cost)@,
            star_ok(cx, sol@, cost@, r as int, best),
            star_kept(cx, sol@, cost@, r as int, best, v as int, 0, 0),
        decreases sol@.len() - v,
    {
        if v != r {
            star_partner(cx, sol, cost, r, v, &mut best);
        } else {
            proof {
                lemma_kept_moves(cx, sol@, cost@, r as int, best, v as int, 0, 0, v + 1, 0, 0);
            }
        }
        v += 1;
    }
    match best {
        None => {
            proof {
                assert forall|v2: int, i2: int, j2: int|
                    0 <= v2 < sol@.len() && v2 != r && 0 <= i2 < sol@[r as int]@.len() && 0 <= j2
                        < sol@[v2]@.len() && star_ranked(cx, sol@, r as int, v2, i2, j2)
                        implies !#[trigger] star_improves(cx, sol@, cost@, r as int, v2, i2, j2) by {
                    if star_improves(cx, sol@, cost@, r as int, v2, i2, j2) {
                        assert(star_takes(cx, sol@, cost@, r as int, v2, i2, j2));
                    }
                }
            }
            None
        },
        Some((_g, v, i, j, new_r, new_v, a, b)) => {
            let ghost s0 = sol@;
            let ghost c0 = cost@;
            proof {
                assert(best_star(cx, s0, c0, r as int, v as int, i as int, j as int));
            }
            commit(sol, cost, r, new_r, a);
            commit(sol, cost, v, new_v, b);
            proof {
                lemma_commit_two(s0, r as int, new_r, v as int, new_v);
                lemma_sum_update(c0, r as int, a);
                lemma_sum_update(c0.update(r as int, a), v as int, b);
                lemma_after_two(cx, s0, c0, sol@, cost@, r as int, v as int);
                assert(sol@[r as int]@ == traded_r(s0, r as int, v as int, i as int, j as int));
                assert(sol@[v as int]@ == traded_v(s0, r as int, v as int, i as int, j as int));
            }
            Some(v)
        },
    }
}

/// Runs longer than this are not moved by or-opt: beyond three the
/// neighborhood grows faster than it pays.
pub const MAX_RUN: usize = 3;

/// No run of two or three stops starting at `sol[r][at]`, either way round,
/// lands anywhere on a candidate vehicle for less.
/// The run of `len` stops from `at` on route `r`, read forward for
/// `way == 0`, backward otherwise.
pub open spec fn or_piece(sol: Seq<Vec<NodeId>>, r: int, at: int, len: int, way: int) -> Seq<NodeId> {
    if way == 0 {
        sol[r]@.subrange(at, at + len)
    } else {
        sol[r]@.subrange(at, at + len).reverse()
    }
}

/// `sol1` is `sol0` after the first improving or-opt move of the run
/// starting at `u`'s first occurrence on route `r`, landing on `v`: runs
/// by increasing length, each forward before backward, then landings as
/// for relocation.
pub open spec fn or_opted(
    cx: &Search,
    sol0: Seq<Vec<NodeId>>,
    cost0: Seq<i64>,
    sol1: Seq<Vec<NodeId>>,
    u: NodeId,
    r: int,
    v: int,
) -> bool {
    exists|at: int, len: int, way: int, ci: int, pos: int|
        #[trigger] first_landing(cx, sol0, cost0, r, at, len, or_piece(sol0, r, at, len, way), ci, pos) && {
            &&& first_at(sol0[r]@, u, at)
            &&& 2 <= len <= MAX_RUN
            &&& at + len <= sol0[r]@.len()
            &&& 0 <= way <= 1
            &&& cand_spec(cx.model_spec(), sol0)[ci] == v
            &&& forall|l2: int, w2: int|
                2 <= l2 <= len && 0 <= w2 <= 1 && (l2 < len || w2 < way) ==> #[trigger] move_optimal(
                    cx,
                    sol0,
                    cost0,
                    r,
                    at,
                    l2,
                    or_piece(sol0, r, at, l2, w2),
                )
            &&& applied(sol0, sol1, r, at, len, or_piece(sol0, r, at, len, way), v, pos)
        }
}

pub open spec fn or_opt_optimal(cx: &Search, sol: Seq<Vec<NodeId>>, cost: Seq<i64>, r: int, at: int) -> bool {
    forall|len: int|
        2 <= len <= MAX_RUN && at + len <= sol[r]@.len() ==> {
            &&& move_optimal(cx, sol, cost, r, at, len, #[trigger] sol[r]@.subrange(at, at + len))
            &&& move_optimal(cx, sol, cost, r, at, len, sol[r]@.subrange(at, at + len).reverse())
        }
}

/// Or-opt: lift the run of two or three stops that starts at `u` out of
/// route `r` and drop it, either way round, at its first improving position
/// anywhere, including back into `r`. Returns the receiving vehicle. When it
/// finds nothing, no such run of `u`'s first occurrence lands for less.
#[verifier::loop_isolation(false)]
#[verifier::rlimit(40)]
#[verifier::spinoff_prover]
pub fn try_or_opt(
    cx: &Search,
    sol: &mut Routes,
    cost: &mut Vec<Cost>,
    u: NodeId,
    r: usize,
    sx: &mut Scratch,
) -> (res: Option<usize>)
    requires
        sol_ok(cx, old(sol)@),
        priced(cx, old(sol)@, old(cost)@),
        r < old(sol)@.len(),
    ensures
        outcome(cx, old(sol)@, old(cost)@, final(sol)@, final(cost)@, res, r as int),
        res is None ==> forall|at: int|
            first_at(old(sol)@[r as int]@, u, at) ==> or_opt_optimal(
                cx,
                old(sol)@,
                old(cost)@,
                r as int,
                at,
            ),
        res matches Some(v) ==> or_opted(cx, old(sol)@, old(cost)@, final(sol)@, u, r as int, v as int),
{
    let m = cx.model();
    let at = match position(sol[r].as_slice(), u) {
        Some(a) => a,
        None => return None,
    };
    let lr = sol[r].len();
    let ghost sr = sol@[r as int]@;
    proof {
        assert(route_valid(m, sr));
        assert forall|at2: int| first_at(sr, u, at2) implies at2 == at by {
            if at2 < at {
                assert(sr[at2] == u);
            }
            if at < at2 {
                assert(sr[at as int] == u);
            }
        }
    }
    let empty: Vec<NodeId> = Vec::new();
    let rv = VehicleId(r as u32);
    let mut len: usize = 2;
    while len <= MAX_RUN && len <= lr - at
        invariant
            2 <= len <= MAX_RUN + 1,
            at < lr,
            lr == sr.len(),
            sr == old(sol)@[r as int]@,
            sol_ok(cx, sol@),
            priced(cx, sol@, cost@),
            r < sol@.len(),
            route_valid(m, sr),
            m == cx.model_spec(),
            sol@ == old(sol)@,
            cost@ == old(cost)@,
            forall|l2: int|
                2 <= l2 < len && at + l2 <= lr ==> {
                    &&& move_optimal(
                        cx,
                        old(sol)@,
                        old(cost)@,
                        r as int,
                        at as int,
                        l2,
                        #[trigger] sr.subrange(at as int, at + l2),
                    )
                    &&& move_optimal(
                        cx,
                        old(sol)@,
                        old(cost)@,
                        r as int,
                        at as int,
                        l2,
                        sr.subrange(at as int, at + l2).reverse(),
                    )
                },
        decreases MAX_RUN + 1 - len,
    {
        let run = sub_vec(sol[r].as_slice(), at, at + len);
        let without = splice_vec(sol[r].as_slice(), at, at + len, empty.as_slice());
        proof {
            assert forall|k: int| 0 <= k < run@.len() implies m.valid_node(#[trigger] run@[k]) by {
                assert(run@[k] == sr[at + k]);
            }
            lemma_splice_valid(m, sr, at as int, at + len, Seq::empty());
            lemma_splice_ms(sr, at as int, at + len, Seq::empty());
            assert(Seq::<NodeId>::empty().to_multiset() =~= Multiset::empty());
            assert(empty@ == Seq::<NodeId>::empty());
        }
        match cx.eval(without.as_slice(), rv) {
            None => {},
            Some(without_cost) => {
                candidate_vehicles(m, sol, &mut sx.vehicles);
                // A run of more than one reads differently both ways.
                let mut way: usize = 0;
                while way < 2
                    invariant
                        way <= 2,
                        sol@ == old(sol)@,
                        cost@ == old(cost)@,
                        sx.vehicles@ == cand_spec(m, sol@),
                        way >= 1 ==> move_optimal(
                            cx,
                            old(sol)@,
                            old(cost)@,
                            r as int,
                            at as int,
                            len as int,
                            run@,
                        ),
                        way >= 2 ==> move_optimal(
                            cx,
                            old(sol)@,
                            old(cost)@,
                            r as int,
                            at as int,
                            len as int,
                            run@.reverse(),
                        ),
                    decreases 2 - way,
                {
                    let piece = if way == 0 {
                        copy_route(run.as_slice())
                    } else {
                        reversed(run.as_slice(), 0, run.len())
                    };
                    proof {
                        assert(run@.subrange(0, run@.len() as int) =~= run@);
                        run@.lemma_reverse_to_multiset();
                        assert(piece@.to_multiset() == run@.to_multiset());
                        assert(way == 0 ==> piece@ == run@);
                        assert(way != 0 ==> piece@ == run@.reverse());
                        assert forall|k: int| 0 <= k < piece@.len() implies m.valid_node(
                            #[trigger] piece@[k],
                        ) by {
                            if way != 0 {
                                assert(piece@[k] == run@[run@.len() - 1 - k]);
                            }
                        }
                    }
                    match probe_landing(
                        cx,
                        sol,
                        cost,
                        r,
                        at,
                        len,
                        &piece,
                        &without,
                        without_cost,
                        &sx.vehicles,
                    ) {
                        None => {},
                        Some((v, pos, cand, c)) => {
                            proof {
                                assert(sr.subrange(at as int, at + len) == run@);
                            }
                            let ghost s0 = sol@;
                            commit_move(
                                cx,
                                sol,
                                cost,
                                r,
                                at,
                                len,
                                &piece,
                                without,
                                without_cost,
                                v,
                                pos,
                                cand,
                                c,
                            );
                            proof {
                                let w = way as int;
                                assert(piece@ == or_piece(s0, r as int, at as int, len as int, w));
                                let ci = choose|ci: int|
                                    #[trigger] first_landing(
                                        cx,
                                        s0,
                                        old(cost)@,
                                        r as int,
                                        at as int,
                                        len as int,
                                        piece@,
                                        ci,
                                        pos as int,
                                    ) && cand_spec(cx.model_spec(), s0)[ci] == v;
                                assert forall|l2: int, w2: int|
                                    2 <= l2 <= len && 0 <= w2 <= 1 && (l2 < len || w2 < w) implies #[trigger] move_optimal(
                                    cx,
                                    s0,
                                    old(cost)@,
                                    r as int,
                                    at as int,
                                    l2,
                                    or_piece(s0, r as int, at as int, l2, w2),
                                ) by {
                                    if l2 < len {
                                        assert(move_optimal(
                                            cx,
                                            old(sol)@,
                                            old(cost)@,
                                            r as int,
                                            at as int,
                                            l2,
                                            sr.subrange(at as int, at + l2),
                                        ));
                                    } else {
                                        assert(run@ == sr.subrange(at as int, at + len));
                                    }
                                }
                                assert(first_landing(
                                    cx,
                                    s0,
                                    old(cost)@,
                                    r as int,
                                    at as int,
                                    len as int,
                                    or_piece(s0, r as int, at as int, len as int, w),
                                    ci,
                                    pos as int,
                                ));
                            }
                            return Some(v);
                        },
                    }
                    way += 1;
                }
            },
        }
        proof {
            assert(run@ == sr.subrange(at as int, at + len));
            assert(move_optimal(cx, old(sol)@, old(cost)@, r as int, at as int, len as int, run@));
            assert(move_optimal(
                cx,
                old(sol)@,
                old(cost)@,
                r as int,
                at as int,
                len as int,
                run@.reverse(),
            ));
        }
        len += 1;
    }
    None
}

/// Sum of the objective over the first `k` routes, an unpriced route
/// counting as 0.
pub open spec fn obj_sum(cx: &Search, sol: Seq<Vec<NodeId>>, k: nat) -> int
    decreases k,
{
    if k == 0 {
        0
    } else {
        obj_sum(cx, sol, (k - 1) as nat) + match cx.objective(
            sol[k - 1]@,
            VehicleId((k - 1) as u32),
        ) {
            Some(c) => c,
            None => 0,
        }
    }
}

/// Every route of `sol` is priced under the objective of `cx`.
pub open spec fn all_priced(cx: &Search, sol: Seq<Vec<NodeId>>) -> bool {
    forall|v: int| 0 <= v < sol.len() ==> (#[trigger] cx.objective(sol[v]@, VehicleId(v as u32))) is Some
}

pub proof fn lemma_priced_sum(cx: &Search, sol: Seq<Vec<NodeId>>, cost: Seq<i64>)
    requires
        priced(cx, sol, cost),
    ensures
        sum_costs(cost) == obj_sum(cx, sol, sol.len()),
        all_priced(cx, sol),
    decreases sol.len(),
{
    if sol.len() > 0 {
        let s1 = sol.drop_last();
        let c1 = cost.drop_last();
        assert forall|v: int| 0 <= v < s1.len() implies cx.objective(
            (#[trigger] s1[v])@,
            VehicleId(v as u32),
        ) == Some(c1[v] as int) by {
            assert(s1[v] == sol[v]);
        }
        lemma_priced_sum(cx, s1, c1);
        lemma_obj_sum_prefix(cx, sol, s1, s1.len());
        assert(cx.objective(sol[sol.len() - 1]@, VehicleId((sol.len() - 1) as u32)) == Some(
            cost[sol.len() - 1] as int,
        ));
    }
}

proof fn lemma_obj_sum_prefix(cx: &Search, sol: Seq<Vec<NodeId>>, pre: Seq<Vec<NodeId>>, k: nat)
    requires
        k <= pre.len() <= sol.len(),
        forall|i: int| 0 <= i < pre.len() ==> pre[i] == sol[i],
    ensures
        obj_sum(cx, pre, k) == obj_sum(cx, sol, k),
    decreases k,
{
    if k > 0 {
        lemma_obj_sum_prefix(cx, sol, pre, (k - 1) as nat);
        assert(pre[k - 1] == sol[k - 1]);
    }
}

} // verus!
