//! The first solution: insertion, cheapest first or drawn from the few
//! cheapest.

use vstd::multiset::Multiset;
use vstd::prelude::*;

use super::{
    Construct, SearchEvent, SolveError, any_unroutable, clamp_cost, clamp_spec, complete, emit, forbidden_all, handed, total, true_cost,
    unroutable,
};
use super::descent::cost_sum;
use super::order::{
    lemma_width_one_ignores_seed,
    start,
    Build, built_by, lemma_exact_after, lemma_cand_views, ranking, run, step,
    all_v, first_forbidden, pending_upto, wide_upto,
    mix_out, mix_step,
    cache_exact, cand_v, empties, lemma_cache_step, lemma_cand_split, lemma_used_facts,
    ranked_upto, used_all,
    ascending, count_before, distinct_nodes, eligible, has_rank, ins_cost_r, ins_le, kb, least, least_among,
    lemma_count_all, lemma_count_next, lemma_count_none, lemma_least_extend, lemma_least_is,
    lemma_least_none, lemma_rank_unique, no_later, nowhere_r, pick, views,
};
use crate::eval::{Routes, cost_spec, eval_route, route_valid, sol_ms, sol_nodes_valid};
use crate::model::Model;
use crate::operators::{
    cand_spec, candidate_vehicles, lemma_splice_ms, lemma_splice_valid, splice, splice_vec, sum_costs,
};
use crate::eval::lemma_sol_ms_update;
use crate::types::{NodeId, VehicleId};

verus! {

broadcast use {vstd::seq_lib::group_to_multiset_ensures, vstd::multiset::group_multiset_axioms};

/// A candidate insertion: its cost delta, the vehicle, and the position.
pub type Insertion = (i128, usize, usize);

/// Cost of route `v` of `sol` with `u` put at position `p`, or `None` if
/// that route is infeasible.
pub open spec fn ins_cost(m: &Model, sol: Seq<Vec<NodeId>>, u: NodeId, v: int, p: int) -> Option<
    int,
> {
    cost_spec(m, splice(sol[v]@, p, p, seq![u]), VehicleId(v as u32))
}

/// `ins` puts `u` at a feasible position of a route of `sol`, and its delta
/// is the route's cost change.
pub open spec fn valid_ins(
    m: &Model,
    sol: Seq<Vec<NodeId>>,
    cost: Seq<i64>,
    u: NodeId,
    ins: Insertion,
) -> bool {
    &&& (ins.1 as int) < sol.len()
    &&& ins.2 <= sol[ins.1 as int]@.len()
    &&& ins_cost(m, sol, u, ins.1 as int, ins.2 as int) == Some(cost[ins.1 as int] + ins.0)
}

/// The state construction works on: one route per vehicle, known nodes,
/// every route feasible and priced in `cost`.
pub open spec fn build_ok(m: &Model, sol: Seq<Vec<NodeId>>, cost: Seq<i64>) -> bool {
    &&& m.wf()
    &&& sol.len() == m.fleet().len()
    &&& cost.len() == sol.len()
    &&& sol_nodes_valid(m, sol)
    &&& forall|w: int|
        0 <= w < sol.len() ==> cost_spec(m, (#[trigger] sol[w])@, VehicleId(w as u32)) == Some(
            cost[w] as int,
        )
}

/// `ins` costs no more than any feasible position for `u` on the vehicles
/// `vs[lo..hi]`.
pub open spec fn cheapest_among(
    m: &Model,
    sol: Seq<Vec<NodeId>>,
    cost: Seq<i64>,
    u: NodeId,
    vs: Seq<usize>,
    lo: int,
    hi: int,
    ins: Insertion,
) -> bool {
    forall|j: int, p: int|
        lo <= j < hi && 0 <= p <= sol[vs[j] as int]@.len() ==> (#[trigger] ins_cost(
            m,
            sol,
            u,
            vs[j] as int,
            p,
        ) matches Some(c) ==> ins.0 <= c - cost[vs[j] as int])
}

/// No vehicle of `vs[lo..hi]` has a feasible position for `u`.
pub open spec fn nowhere(
    m: &Model,
    sol: Seq<Vec<NodeId>>,
    u: NodeId,
    vs: Seq<usize>,
    lo: int,
    hi: int,
) -> bool {
    forall|j: int, p: int|
        lo <= j < hi && 0 <= p <= sol[vs[j] as int]@.len() ==> (#[trigger] ins_cost(
            m,
            sol,
            u,
            vs[j] as int,
            p,
        )) is None
}

/// The scan of one route ends on the first insertion, by delta then
/// position, or on none.
proof fn lemma_route_least(
    m: &Model,
    sol: Seq<Vec<NodeId>>,
    cost: Seq<i64>,
    u: NodeId,
    v: usize,
    best: Option<Insertion>,
)
    requires
        (v as int) < sol.len(),
        best matches Some(ins) ==> ins.1 == v && valid_ins(m, sol, cost, u, ins),
        forall|p: int|
            0 <= p <= sol[v as int]@.len() ==> (#[trigger] ins_cost(m, sol, u, v as int, p) matches Some(c)
                ==> (best matches Some(ins) && ins_le(ins, c - cost[v as int], v as int, p))),
    ensures
        best == least(m, views(sol), cost, u, seq![v]),
        best is None ==> nowhere_r(m, views(sol), u, seq![v]),
{
    let rs = views(sol);
    let one = seq![v];
    assert(one[0] == v);
    assert(rs[v as int] == sol[v as int]@);
    match best {
        Some(ins) => {
            assert forall|j: int, p: int|
                0 <= j < one.len() && 0 <= p <= rs[one[j] as int].len() implies (#[trigger] ins_cost_r(
                m,
                rs,
                u,
                one[j] as int,
                p,
            ) matches Some(c) ==> ins_le(ins, c - cost[one[j] as int], one[j] as int, p)) by {
                assert(ins_cost(m, sol, u, v as int, p) == ins_cost_r(m, rs, u, v as int, p));
            }
            assert(ins_cost(m, sol, u, v as int, ins.2 as int) == ins_cost_r(m, rs, u, v as int, ins.2 as int));
            assert(one.contains(ins.1));
            lemma_least_is(m, rs, cost, u, one, ins);
        },
        None => {
            assert forall|j: int, p: int|
                0 <= j < one.len() && 0 <= p <= rs[one[j] as int].len() implies (#[trigger] ins_cost_r(
                m,
                rs,
                u,
                one[j] as int,
                p,
            )) is None by {
                assert(ins_cost(m, sol, u, v as int, p) == ins_cost_r(m, rs, u, v as int, p));
            }
            lemma_least_none(m, rs, cost, u, one);
        },
    }
}

/// Cheapest feasible position for `u` in route `v`, the first of equals,
/// or `None` if it has none.
#[verifier::loop_isolation(false)]
#[verifier::rlimit(60)]
#[verifier::spinoff_prover]
fn best_in_route(
    m: &Model,
    sol: &Routes,
    cost: &Vec<i64>,
    v: usize,
    u: NodeId,
    scratch: &mut Vec<NodeId>,
) -> (r: Option<Insertion>)
    requires
        build_ok(m, sol@, cost@),
        v < sol@.len(),
        m.valid_node(u),
    ensures
        r matches Some(ins) ==> ins.1 == v && valid_ins(m, sol@, cost@, u, ins) && forall|p: int|
            0 <= p <= sol@[v as int]@.len() ==> (#[trigger] ins_cost(m, sol@, u, v as int, p) matches Some(
                c,
            ) ==> ins.0 <= c - cost@[v as int]),
        r is None ==> forall|p: int|
            0 <= p <= sol@[v as int]@.len() ==> (#[trigger] ins_cost(m, sol@, u, v as int, p)) is None,
        r == least(m, views(sol@), cost@, u, seq![v]),
        r is None ==> nowhere_r(m, views(sol@), u, seq![v]),
{
    let route = &sol[v];
    let len = route.len();
    let ghost s = route@;
    proof {
        assert(route_valid(m, s));
    }
    // `u` in front of the route; it slides forward one swap per position.
    scratch.clear();
    scratch.push(u);
    let mut k: usize = 0;
    while k < len
        invariant
            k <= len,
            len == s.len(),
            scratch@ == seq![u] + s.subrange(0, k as int),
        decreases len - k,
    {
        scratch.push(route[k]);
        proof {
            assert(scratch@ =~= seq![u] + s.subrange(0, k + 1));
        }
        k += 1;
    }
    proof {
        assert(s.subrange(0, len as int) =~= s);
        assert(scratch@ =~= splice(s, 0, 0, seq![u]));
    }
    let mut best: Option<Insertion> = None;
    let mut pos: usize = 0;
    loop
        invariant
            build_ok(m, sol@, cost@),
            v < sol@.len(),
            m.valid_node(u),
            s == sol@[v as int]@,
            len == s.len(),
            route_valid(m, s),
            pos <= len,
            scratch@ == splice(s, pos as int, pos as int, seq![u]),
            best matches Some(ins) ==> ins.1 == v && valid_ins(m, sol@, cost@, u, ins),
            forall|p: int|
                0 <= p < pos ==> (#[trigger] ins_cost(m, sol@, u, v as int, p) matches Some(c) ==> (
                best matches Some(ins) && ins_le(ins, c - cost@[v as int], v as int, p))),
            best matches Some(ins) ==> ins.2 < pos || (pos == len && ins.2 <= len),
        decreases len - pos,
    {
        proof {
            assert forall|i: int| 0 <= i < scratch@.len() implies m.valid_node(
                #[trigger] scratch@[i],
            ) by {
                if i < pos {
                    assert(scratch@[i] == s[i]);
                } else if i > pos {
                    assert(scratch@[i] == s[i - 1]);
                }
            }
        }
        match eval_route(m, scratch.as_slice(), VehicleId(v as u32)) {
            Some(c) => {
                let delta = c as i128 - cost[v] as i128;
                let better = match best {
                    Some(b) => delta < b.0,
                    None => true,
                };
                if better {
                    best = Some((delta, v, pos));
                }
            },
            None => {},
        }
        if pos == len {
            proof {
                lemma_route_least(m, sol@, cost@, u, v, best);
            }
            break;
        }
        // Slide `u` one place on.
        let a = scratch[pos];
        let b = scratch[pos + 1];
        scratch.set(pos, b);
        scratch.set(pos + 1, a);
        proof {
            assert(scratch@ =~= splice(s, pos + 1, pos + 1, seq![u]));
        }
        pos += 1;
    }
    best
}

/// Cheapest feasible position for `u` across `vs[lo..hi]`; ties go to the
/// first vehicle.
fn best_over(
    m: &Model,
    sol: &Routes,
    cost: &Vec<i64>,
    vs: &Vec<usize>,
    lo: usize,
    hi: usize,
    u: NodeId,
    scratch: &mut Vec<NodeId>,
) -> (r: Option<Insertion>)
    requires
        build_ok(m, sol@, cost@),
        lo <= hi <= vs@.len(),
        forall|j: int| 0 <= j < vs@.len() ==> (#[trigger] vs@[j] as int) < sol@.len(),
        m.valid_node(u),
    ensures
        r matches Some(ins) ==> valid_ins(m, sol@, cost@, u, ins) && cheapest_among(
            m,
            sol@,
            cost@,
            u,
            vs@,
            lo as int,
            hi as int,
            ins,
        ),
        r is None ==> nowhere(m, sol@, u, vs@, lo as int, hi as int),
        ascending(vs@.subrange(lo as int, hi as int)) ==> r == least(
            m,
            views(sol@),
            cost@,
            u,
            vs@.subrange(lo as int, hi as int),
        ),
        r is None ==> nowhere_r(m, views(sol@), u, vs@.subrange(lo as int, hi as int)),
{
    let mut best: Option<Insertion> = None;
    let mut j: usize = lo;
    proof {
        lemma_least_none(m, views(sol@), cost@, u, vs@.subrange(lo as int, lo as int));
    }
    while j < hi
        invariant
            build_ok(m, sol@, cost@),
            lo <= j <= hi <= vs@.len(),
            forall|q: int| 0 <= q < vs@.len() ==> (#[trigger] vs@[q] as int) < sol@.len(),
            m.valid_node(u),
            best matches Some(ins) ==> valid_ins(m, sol@, cost@, u, ins) && cheapest_among(
                m,
                sol@,
                cost@,
                u,
                vs@,
                lo as int,
                j as int,
                ins,
            ),
            best is None ==> nowhere(m, sol@, u, vs@, lo as int, j as int),
            ascending(vs@.subrange(lo as int, hi as int)) ==> best == least(
                m,
                views(sol@),
                cost@,
                u,
                vs@.subrange(lo as int, j as int),
            ),
            best is None ==> nowhere_r(m, views(sol@), u, vs@.subrange(lo as int, j as int)),
        decreases hi - j,
    {
        let v = vs[j];
        let ghost prev = best;
        let here = best_in_route(m, sol, cost, v, u, scratch);
        match here {
            Some(c) => {
                let take = match best {
                    Some(b) => c.0 < b.0,
                    None => true,
                };
                if take {
                    best = Some(c);
                }
            },
            None => {},
        }
        proof {
            assert forall|q: int, p: int|
                lo <= q < j + 1 && 0 <= p <= sol@[vs@[q] as int]@.len() implies (#[trigger] ins_cost(
                m,
                sol@,
                u,
                vs@[q] as int,
                p,
            ) matches Some(c) ==> (best matches Some(ins) && ins.0 <= c - cost@[vs@[q] as int])) by {
                if q == j {
                    assert(vs@[q] == v);
                }
            }
            let rs = views(sol@);
            let w0 = vs@.subrange(lo as int, j as int);
            let w1 = vs@.subrange(lo as int, j + 1);
            assert(w1 =~= w0.push(v));
            if prev is None {
                assert forall|q: int, p: int|
                    0 <= q < w0.len() && 0 <= p <= rs[w0[q] as int].len() implies (#[trigger] ins_cost_r(
                    m,
                    rs,
                    u,
                    w0[q] as int,
                    p,
                )) is None by {
                    assert(w0[q] == vs@[lo + q]);
                    assert(ins_cost(m, sol@, u, vs@[lo + q] as int, p) is None);
                }
            }
            if ascending(vs@.subrange(lo as int, hi as int)) {
                let whole = vs@.subrange(lo as int, hi as int);
                assert forall|q: int| 0 <= q < w0.len() implies #[trigger] w0[q] < v by {
                    assert(w0[q] == whole[q]);
                    assert(v == whole[j - lo]);
                }
                lemma_least_extend(m, rs, cost@, u, w0, v);
            } else {
                if best is None {
                    assert forall|q: int, p: int|
                        0 <= q < w1.len() && 0 <= p <= rs[w1[q] as int].len() implies (#[trigger] ins_cost_r(
                        m,
                        rs,
                        u,
                        w1[q] as int,
                        p,
                    )) is None by {
                        assert(w1[q] == vs@[lo + q]);
                        assert(ins_cost(m, sol@, u, vs@[lo + q] as int, p) is None);
                    }
                }
            }
        }
        j += 1;
    }
    best
}


/// SplitMix64. Not cryptographic: seeds reproduce solutions.
struct Rng {
    state: u64,
}

impl Rng {
    fn next(&mut self) -> (r: u64)
        ensures
            final(self).state == mix_step(old(self).state),
            r == mix_out(final(self).state),
    {
        self.state = self.state.wrapping_add(0x9E37_79B9_7F4A_7C15u64);
        let mut z = self.state;
        z = (z ^ (z >> 30u64)).wrapping_mul(0xBF58_476D_1CE4_E5B9u64);
        z = (z ^ (z >> 27u64)).wrapping_mul(0x94D0_49BB_1331_11EBu64);
        z ^ (z >> 31u64)
    }

    /// Uniform over `0..n`; the modulo bias is under 2^-55 at these `n`.
    fn below(&mut self, n: usize) -> (r: usize)
        requires
            n > 0,
        ensures
            r < n,
            final(self).state == mix_step(old(self).state),
            r as int == (mix_out(final(self).state) as int) % (n as int),
    {
        let x = self.next();
        (x % (n as u64)) as usize
    }
}

/// `a` orders before `b`: by delta, then by node index.
fn key_lt(a: (i128, usize), b: (i128, usize)) -> (r: bool)
    ensures
        r == (a.0 < b.0 || (a.0 == b.0 && a.1 < b.1)),
{
    a.0 < b.0 || (a.0 == b.0 && a.1 < b.1)
}

/// The entry ordering first among those after entry `after`, or first of
/// all with no `after`.
fn next_after(ranked: &Vec<(Insertion, usize)>, after: Option<usize>) -> (found: Option<usize>)
    requires
        after matches Some(c) ==> c < ranked@.len(),
    ensures
        found matches Some(f) ==> f < ranked@.len() && eligible(ranked@, after, f as int),
        forall|q: int|
            0 <= q < ranked@.len() && #[trigger] eligible(ranked@, after, q) ==> no_later(
                ranked@,
                found,
                q,
            ),
{
    let mut found: Option<usize> = None;
    let mut i: usize = 0;
    while i < ranked.len()
        invariant
            i <= ranked@.len(),
            after matches Some(c) ==> c < ranked@.len(),
            found matches Some(f) ==> f < i && eligible(ranked@, after, f as int),
            forall|q: int|
                0 <= q < i && #[trigger] eligible(ranked@, after, q) ==> no_later(ranked@, found, q),
        decreases ranked@.len() - i,
    {
        let key = (ranked[i].0.0, ranked[i].1);
        let after_last = match after {
            Some(c) => key_lt((ranked[c].0.0, ranked[c].1), key),
            None => true,
        };
        if after_last {
            let take = match found {
                Some(f) => key_lt(key, (ranked[f].0.0, ranked[f].1)),
                None => true,
            };
            if take {
                found = Some(i);
            }
        }
        i += 1;
    }
    found
}

/// Index in `ranked` of its `j`-th smallest entry by `(delta, node index)`.
/// Node indices are unique, so that order is total and each pass finds the
/// next rank; selecting beats sorting, and `j = 0` is the plain minimum.
fn select_jth(ranked: &Vec<(Insertion, usize)>, j: usize) -> (r: usize)
    requires
        j < ranked@.len(),
        distinct_nodes(ranked@),
    ensures
        r < ranked@.len(),
        has_rank(ranked@, r as int, j as int),
        r == pick(ranked@, j as int),
{
    let ghost rs = ranked@;
    let ghost len = rs.len();
    let n = ranked.len();
    let mut chosen: usize = 0;
    let mut t: usize = 0;
    while t <= j
        invariant
            n == rs.len(),
            rs == ranked@,
            len == rs.len(),
            distinct_nodes(rs),
            j < len,
            j < ranked@.len(),
            t <= j + 1,
            chosen < len,
            t > 0 ==> has_rank(rs, chosen as int, t - 1),
        decreases j + 1 - t,
    {
        let found = next_after(ranked, if t == 0 {
            None
        } else {
            Some(chosen)
        });
        proof {
            if t > 0 && found is None {
                // Every entry orders no later than the last pick, so it has
                // rank `len - 1`, yet its rank is below `j`.
                assert forall|e: int| 0 <= e < len && e != chosen implies kb(#[trigger] rs[e], rs[chosen as int]) by {
                    assert(!eligible(rs, Some(chosen), e));
                    if e < chosen {
                        assert(rs[e].1 != rs[chosen as int].1);
                    } else {
                        assert(rs[chosen as int].1 != rs[e].1);
                    }
                }
                lemma_count_all(rs, rs[chosen as int], chosen as int, len);
                assert(false);
            }
            if t == 0 {
                assert(0 < len);
                assert(eligible(rs, None, 0));
                assert(found is Some);
            }
        }
        match found {
            Some(f) => {
                proof {
                    if t == 0 {
                        assert forall|e: int| 0 <= e < len implies !kb(#[trigger] rs[e], rs[f as int]) by {
                            assert(eligible(rs, None, e));
                        }
                        lemma_count_none(rs, rs[f as int], len);
                    } else {
                        assert forall|e: int| 0 <= e < len implies (kb(#[trigger] rs[e], rs[f as int])
                            <==> (kb(rs[e], rs[chosen as int]) || e == chosen)) by {
                            if eligible(rs, Some(chosen), e) {
                                assert(no_later(rs, found, e));
                            }
                            if e != chosen && e != f {
                                if e < chosen {
                                    assert(rs[e].1 != rs[chosen as int].1);
                                } else {
                                    assert(rs[chosen as int].1 != rs[e].1);
                                }
                            }
                            if e != f {
                                if e < f {
                                    assert(rs[e].1 != rs[f as int].1);
                                } else {
                                    assert(rs[f as int].1 != rs[e].1);
                                }
                            }
                        }
                        lemma_count_next(rs, rs[f as int], rs[chosen as int], chosen as int, len);
                    }
                }
                chosen = f;
            },
            None => {},
        }
        t += 1;
    }
    proof {
        let e = pick(rs, j as int);
        lemma_rank_unique(rs, e, chosen as int, j as int);
    }
    chosen
}

/// Every vehicle forbids `n`.
fn forbidden_everywhere(m: &Model, n: NodeId) -> (r: bool)
    requires
        m.wf(),
    ensures
        r == forbidden_all(m, n),
{
    let nv = m.vehicle_count();
    let mut v: usize = 0;
    while v < nv
        invariant
            m.wf(),
            nv == m.fleet().len(),
            v <= nv,
            forall|w: int| 0 <= w < v ==> (#[trigger] m.fleet()[w]).forbids_spec(n),
        decreases nv - v,
    {
        if !m.vehicle(VehicleId(v as u32)).forbids(n) {
            return false;
        }
        v += 1;
    }
    true
}

/// How often a complete solution visits `x`.
pub open spec fn want(m: &Model, x: NodeId) -> nat {
    if m.valid_node(x) && !m.is_terminal_spec(x) {
        1
    } else {
        0
    }
}

/// `unrouted` holds exactly the nodes `sol` still lacks.
pub open spec fn accounted(m: &Model, sol: Seq<Vec<NodeId>>, unrouted: Seq<NodeId>) -> bool {
    forall|x: NodeId| #[trigger] sol_ms(sol).count(x) + unrouted.to_multiset().count(x) == want(m, x)
}

/// Every cached insertion that is not marked dirty, and does not sit on the
/// route that last changed, is still valid.
pub open spec fn cache_ok(
    m: &Model,
    sol: Seq<Vec<NodeId>>,
    cost: Seq<i64>,
    unrouted: Seq<NodeId>,
    best: Seq<Option<Insertion>>,
    dirty: Seq<bool>,
    changed: Option<usize>,
) -> bool {
    &&& best.len() == unrouted.len()
    &&& dirty.len() == unrouted.len()
    &&& forall|i: int|
        0 <= i < unrouted.len() && !dirty[i] ==> (#[trigger] best[i] matches Some(ins) ==> (changed
            != Some(ins.1) ==> valid_ins(m, sol, cost, unrouted[i], ins)))
}

/// Every ranked entry is a valid insertion of the node it names.
pub open spec fn ranked_ok(
    m: &Model,
    sol: Seq<Vec<NodeId>>,
    cost: Seq<i64>,
    unrouted: Seq<NodeId>,
    ranked: Seq<(Insertion, usize)>,
) -> bool {
    &&& forall|e: int|
        0 <= e < ranked.len() ==> (#[trigger] ranked[e]).1 < unrouted.len() && valid_ins(
            m,
            sol,
            cost,
            unrouted[ranked[e].1 as int],
            ranked[e].0,
        )
    &&& forall|a: int, b: int| 0 <= a < b < ranked.len() ==> #[trigger] ranked[a].1 < #[trigger] ranked[b].1
}

/// `ins` orders before `b`: by delta, then vehicle, then position.
fn ins_lt(a: Insertion, b: Insertion) -> (r: bool)
    ensures
        r == (a.0 < b.0 || (a.0 == b.0 && (a.1 < b.1 || (a.1 == b.1 && a.2 < b.2)))),
{
    a.0 < b.0 || (a.0 == b.0 && (a.1 < b.1 || (a.1 == b.1 && a.2 < b.2)))
}

/// Node `u`'s first insertion on the used routes, from its cached entry
/// `held` where that is still good, else by a scan.
#[verifier::rlimit(30)]
fn refresh(
    m: &Model,
    sol: &Routes,
    cost: &Vec<i64>,
    u: NodeId,
    held: Option<Insertion>,
    is_dirty: bool,
    changed: Option<usize>,
    cands: &Vec<usize>,
    split: usize,
    scratch: &mut Vec<NodeId>,
) -> (b: Option<Insertion>)
    requires
        build_ok(m, sol@, cost@),
        m.valid_node(u),
        changed matches Some(t) ==> t < sol@.len(),
        split <= cands@.len(),
        forall|j: int| 0 <= j < cands@.len() ==> (#[trigger] cands@[j] as int) < sol@.len(),
        cands@.subrange(0, split as int) == used_all(views(sol@)),
        ascending(used_all(views(sol@))),
        !is_dirty ==> cache_exact(m, views(sol@), cost@, u, held, changed),
        !is_dirty ==> (held matches Some(ins) ==> (changed != Some(ins.1) ==> valid_ins(
            m,
            sol@,
            cost@,
            u,
            ins,
        ))),
    ensures
        cache_exact(m, views(sol@), cost@, u, b, None),
        b matches Some(ins) ==> valid_ins(m, sol@, cost@, u, ins),
{
    let ghost rs = views(sol@);
    if is_dirty {
        return best_over(m, sol, cost, cands, 0, split, u, scratch);
    }
    match changed {
        Some(t) => {
            let fresh_t = best_in_route(m, sol, cost, t, u, scratch);
            proof {
                lemma_cache_step(m, rs, cost@, u, t, held, fresh_t);
            }
            match held {
                Some(h) => {
                    if h.1 == t {
                        match fresh_t {
                            Some(c) => {
                                if c.0 <= h.0 {
                                    Some(c)
                                } else {
                                    best_over(m, sol, cost, cands, 0, split, u, scratch)
                                }
                            },
                            None => best_over(m, sol, cost, cands, 0, split, u, scratch),
                        }
                    } else {
                        match fresh_t {
                            Some(c) => {
                                if ins_lt(c, h) {
                                    Some(c)
                                } else {
                                    held
                                }
                            },
                            None => held,
                        }
                    }
                },
                None => fresh_t,
            }
        },
        None => held,
    }
}

/// One round of ranking: each unrouted node's cheapest insertion, cached
/// across rounds, against the empty vehicles on offer too.
///
/// Only the route the last insertion grew can be stale. Every other route
/// was already worse and none of them moved, so only a cached best on that
/// route which got worse needs a full rescan.
#[verifier::loop_isolation(false)]
#[verifier::rlimit(50)]
#[verifier::spinoff_prover]
fn rank_round(
    m: &Model,
    sol: &Routes,
    cost: &Vec<i64>,
    unrouted: &Vec<NodeId>,
    best: &mut Vec<Option<Insertion>>,
    dirty: &mut Vec<bool>,
    changed: Option<usize>,
    cands: &Vec<usize>,
    split: usize,
    ranked: &mut Vec<(Insertion, usize)>,
    scratch: &mut Vec<NodeId>,
)
    requires
        build_ok(m, sol@, cost@),
        forall|i: int| 0 <= i < unrouted@.len() ==> m.valid_node(#[trigger] unrouted@[i]),
        cache_ok(m, sol@, cost@, unrouted@, old(best)@, old(dirty)@, changed),
        changed matches Some(t) ==> t < sol@.len(),
        split <= cands@.len(),
        forall|j: int| 0 <= j < cands@.len() ==> (#[trigger] cands@[j] as int) < sol@.len(),
        cands@ == cand_v(m, views(sol@)),
        split == used_all(views(sol@)).len(),
        forall|i: int|
            0 <= i < unrouted@.len() && !old(dirty)@[i] ==> cache_exact(
                m,
                views(sol@),
                cost@,
                unrouted@[i],
                #[trigger] old(best)@[i],
                changed,
            ),
    ensures
        cache_ok(m, sol@, cost@, unrouted@, final(best)@, final(dirty)@, None),
        ranked_ok(m, sol@, cost@, unrouted@, final(ranked)@),
        final(best)@.len() == unrouted@.len(),
        forall|i: int|
            0 <= i < unrouted@.len() ==> cache_exact(
                m,
                views(sol@),
                cost@,
                unrouted@[i],
                #[trigger] final(best)@[i],
                None,
            ),
        final(ranked)@ == ranked_upto(m, views(sol@), cost@, unrouted@, unrouted@.len()),
{
    let ghost rs = views(sol@);
    proof {
        lemma_cand_split(m, rs);
        lemma_used_facts(rs, rs.len());
        assert(cands@.subrange(0, split as int) == used_all(rs));
        assert(cands@.subrange(split as int, cands@.len() as int) == empties(m, rs));
    }
    ranked.clear();
    let len = cands.len();
    let mut i: usize = 0;
    while i < unrouted.len()
        invariant
            i <= unrouted@.len(),
            best@.len() == unrouted@.len(),
            dirty@.len() == unrouted@.len(),
            forall|q: int|
                i <= q < unrouted@.len() && !dirty@[q] ==> (#[trigger] best@[q] matches Some(ins) ==> (
                changed != Some(ins.1) ==> valid_ins(m, sol@, cost@, unrouted@[q], ins))),
            forall|q: int|
                0 <= q < i ==> !(#[trigger] dirty@[q]) && (best@[q] matches Some(ins) ==> valid_ins(
                    m,
                    sol@,
                    cost@,
                    unrouted@[q],
                    ins,
                )),
            ranked_ok(m, sol@, cost@, unrouted@, ranked@),
            forall|e: int| 0 <= e < ranked@.len() ==> (#[trigger] ranked@[e]).1 < i,
            rs == views(sol@),
            ascending(used_all(rs)),
            ascending(empties(m, rs)),
            cands@.subrange(0, split as int) == used_all(rs),
            cands@.subrange(split as int, cands@.len() as int) == empties(m, rs),
            forall|q: int|
                i <= q < unrouted@.len() && !dirty@[q] ==> cache_exact(
                    m,
                    rs,
                    cost@,
                    unrouted@[q],
                    #[trigger] best@[q],
                    changed,
                ),
            forall|q: int|
                0 <= q < i ==> cache_exact(m, rs, cost@, unrouted@[q], #[trigger] best@[q], None),
            ranked@ == ranked_upto(m, rs, cost@, unrouted@, i as nat),
        decreases unrouted@.len() - i,
    {
        let u = unrouted[i];
        let ghost b0 = best@;
        let ghost d0 = dirty@;
        proof {
            assert(m.valid_node(unrouted@[i as int]));
        }
        let b = refresh(m, sol, cost, u, best[i], dirty[i], changed, cands, split, scratch);
        best.set(i, b);
        dirty.set(i, false);
        let fresh = best_over(m, sol, cost, cands, split, len, u, scratch);
        let node_best = match best[i] {
            Some(b) => match fresh {
                Some(f) => {
                    if f.0 < b.0 {
                        Some(f)
                    } else {
                        Some(b)
                    }
                },
                None => Some(b),
            },
            None => fresh,
        };
        proof {
            let wq = unrouted@[i as int];
            assert(node_best == crate::solver::order::node_best(m, rs, cost@, wq));
            assert(ranked_upto(m, rs, cost@, unrouted@, (i + 1) as nat) == ranked@ + match node_best {
                Some(c) => seq![(c, i)],
                None => Seq::empty(),
            });
        }
        match node_best {
            Some(c) => {
                ranked.push((c, i));
            },
            None => {},
        }
        proof {
            assert(forall|q: int| 0 <= q < unrouted@.len() && q != i ==> best@[q] == b0[q] && dirty@[q] == d0[q]);
            assert(!dirty@[i as int]);
            assert(best@[i as int] matches Some(ins) ==> valid_ins(m, sol@, cost@, unrouted@[i as int], ins));
        }
        i += 1;
    }
}

/// Ranks every unrouted node against every vehicle.
#[verifier::loop_isolation(false)]
fn rank_wide(
    m: &Model,
    sol: &Routes,
    cost: &Vec<i64>,
    unrouted: &Vec<NodeId>,
    ranked: &mut Vec<(Insertion, usize)>,
    scratch: &mut Vec<NodeId>,
)
    requires
        build_ok(m, sol@, cost@),
        forall|i: int| 0 <= i < unrouted@.len() ==> m.valid_node(#[trigger] unrouted@[i]),
        old(ranked)@.len() == 0,
    ensures
        ranked_ok(m, sol@, cost@, unrouted@, final(ranked)@),
        final(ranked)@ == wide_upto(m, views(sol@), cost@, unrouted@, unrouted@.len()),
{
    let nv = sol.len();
    let mut all: Vec<usize> = Vec::new();
    let mut v: usize = 0;
    while v < nv
        invariant
            v <= nv,
            all@.len() == v,
            forall|j: int| 0 <= j < v ==> (#[trigger] all@[j] as int) == j,
        decreases nv - v,
    {
        all.push(v);
        v += 1;
    }
    proof {
        assert(all@.subrange(0, nv as int) =~= all_v(views(sol@).len()));
    }
    let mut i: usize = 0;
    while i < unrouted.len()
        invariant
            i <= unrouted@.len(),
            all@.len() == nv,
            forall|j: int| 0 <= j < nv ==> (#[trigger] all@[j] as int) == j,
            ranked_ok(m, sol@, cost@, unrouted@, ranked@),
            forall|e: int| 0 <= e < ranked@.len() ==> (#[trigger] ranked@[e]).1 < i,
            all@.subrange(0, nv as int) == all_v(views(sol@).len()),
            ranked@ == wide_upto(m, views(sol@), cost@, unrouted@, i as nat),
        decreases unrouted@.len() - i,
    {
        proof {
            assert(m.valid_node(unrouted@[i as int]));
            assert forall|a: int, b: int| 0 <= a < b < all@.subrange(0, nv as int).len() implies #[trigger] all@.subrange(0, nv as int)[a] < #[trigger] all@.subrange(0, nv as int)[b] by {
                assert(all@[a] as int == a);
                assert(all@[b] as int == b);
            }
        }
        let found = best_over(m, sol, cost, &all, 0, nv, unrouted[i], scratch);
        proof {
            assert(wide_upto(m, views(sol@), cost@, unrouted@, (i + 1) as nat) == ranked@ + match found {
                Some(c) => seq![(c, i)],
                None => Seq::empty(),
            });
        }
        match found {
            Some(c) => ranked.push((c, i)),
            None => {},
        }
        i += 1;
    }
}

/// The first unrouted node that every vehicle forbids.
fn find_unroutable(m: &Model, unrouted: &Vec<NodeId>) -> (r: Option<NodeId>)
    requires
        m.wf(),
    ensures
        r matches Some(x) ==> unrouted@.contains(x) && forbidden_all(m, x),
        r is None ==> forall|i: int|
            0 <= i < unrouted@.len() ==> !forbidden_all(m, #[trigger] unrouted@[i]),
        r == first_forbidden(m, unrouted@, 0),
{
    let mut i: usize = 0;
    while i < unrouted.len()
        invariant
            m.wf(),
            i <= unrouted@.len(),
            forall|q: int| 0 <= q < i ==> !forbidden_all(m, #[trigger] unrouted@[q]),
            first_forbidden(m, unrouted@, 0) == first_forbidden(m, unrouted@, i as nat),
        decreases unrouted@.len() - i,
    {
        if forbidden_everywhere(m, unrouted[i]) {
            proof {
                assert(unrouted@[i as int] == unrouted@[i as int]);
            }
            return Some(unrouted[i]);
        }
        i += 1;
    }
    None
}

proof fn lemma_swap_remove_ms(s: Seq<NodeId>, i: int)
    requires
        0 <= i < s.len(),
    ensures
        s.update(i, s.last()).drop_last().to_multiset() == s.to_multiset().remove(s[i]),
{
    let t = s.update(i, s.last());
    assert(t.drop_last() =~= t.remove(t.len() - 1));
    assert(t[t.len() - 1] == s.last());
    assert(t.drop_last().to_multiset() =~= s.to_multiset().remove(s[i]));
}

proof fn lemma_empty_routes_ms(sol: Seq<Vec<NodeId>>)
    requires
        forall|i: int| 0 <= i < sol.len() ==> (#[trigger] sol[i])@.len() == 0,
    ensures
        sol_ms(sol) =~= Multiset::<NodeId>::empty(),
    decreases sol.len(),
{
    if sol.len() > 0 {
        let s1 = sol.drop_last();
        assert forall|i: int| 0 <= i < s1.len() implies (#[trigger] s1[i])@.len() == 0 by {
            assert(s1[i] == sol[i]);
        }
        lemma_empty_routes_ms(s1);
        assert(sol.last()@ =~= Seq::<NodeId>::empty());
    }
}

/// After an insertion into route `v` and the removal of entry `ui` from the
/// parallel arrays, the cache is valid off route `v`.
proof fn lemma_cache_after(
    m: &Model,
    sol0: Seq<Vec<NodeId>>,
    cost0: Seq<i64>,
    un0: Seq<NodeId>,
    b0: Seq<Option<Insertion>>,
    d0: Seq<bool>,
    ui: int,
    sol1: Seq<Vec<NodeId>>,
    cost1: Seq<i64>,
    v: usize,
)
    requires
        cache_ok(m, sol0, cost0, un0, b0, d0, None),
        0 <= ui < un0.len(),
        sol1.len() == sol0.len(),
        cost1.len() == cost0.len(),
        forall|w: int| 0 <= w < sol0.len() && w != v ==> sol1[w] == sol0[w] && cost1[w] == cost0[w],
    ensures
        cache_ok(
            m,
            sol1,
            cost1,
            un0.update(ui, un0.last()).drop_last(),
            b0.update(ui, b0.last()).drop_last(),
            d0.update(ui, d0.last()).drop_last(),
            Some(v),
        ),
{
    let un1 = un0.update(ui, un0.last()).drop_last();
    let b1 = b0.update(ui, b0.last()).drop_last();
    let d1 = d0.update(ui, d0.last()).drop_last();
    assert forall|i: int| 0 <= i < un1.len() && !d1[i] implies (#[trigger] b1[i] matches Some(ins) ==> (
    Some(v) != Some(ins.1) ==> valid_ins(m, sol1, cost1, un1[i], ins))) by {
        let o = if i == ui {
            un0.len() - 1
        } else {
            i
        };
        assert(un1[i] == un0[o] && b1[i] == b0[o] && d1[i] == d0[o]);
        if let Some(ins) = b1[i] {
            if ins.1 != v {
                assert(valid_ins(m, sol0, cost0, un0[o], ins));
                assert(sol1[ins.1 as int] == sol0[ins.1 as int]);
            }
        }
    }
}

/// Inserting `u` into route `v` at `pos`: the solution gains one `u`.
proof fn lemma_insert_ms(sol: Seq<Vec<NodeId>>, v: int, pos: int, u: NodeId, route: Vec<NodeId>)
    requires
        0 <= v < sol.len(),
        0 <= pos <= sol[v]@.len(),
        route@ == splice(sol[v]@, pos, pos, seq![u]),
    ensures
        forall|y: NodeId| #[trigger] sol_ms(sol.update(v, route)).count(y) == sol_ms(sol).count(y) + if y
            == u {
            1int
        } else {
            0int
        },
{
    lemma_sol_ms_update(sol, v, route);
    lemma_splice_ms(sol[v]@, pos, pos, seq![u]);
    assert(sol[v]@.subrange(pos, pos) =~= Seq::<NodeId>::empty());
    let a = sol_ms(sol.update(v, route));
    let b = sol_ms(sol);
    let rm = route@.to_multiset();
    let sm = sol[v]@.to_multiset();
    let one = seq![u].to_multiset();
    assert forall|y: NodeId| #[trigger] a.count(y) == b.count(y) + if y == u {
        1int
    } else {
        0int
    } by {
        assert(a.add(sm).count(y) == b.add(rm).count(y));
        assert(rm.add(Seq::<NodeId>::empty().to_multiset()).count(y) == sm.add(one).count(y));
        assert(Seq::<NodeId>::empty().to_multiset().count(y) == 0);
        assert(seq![u] =~= Seq::<NodeId>::empty().push(u));
    }
}

/// Position in `cands` of the first empty route, or its length.
fn first_empty_cand(sol: &Routes, cands: &Vec<usize>) -> (r: usize)
    requires
        forall|j: int| 0 <= j < cands@.len() ==> (#[trigger] cands@[j] as int) < sol@.len(),
    ensures
        r <= cands@.len(),
        forall|q: int| 0 <= q < r ==> sol@[#[trigger] cands@[q] as int]@.len() > 0,
        r < cands@.len() ==> sol@[cands@[r as int] as int]@.len() == 0,
{
    let mut j: usize = 0;
    while j < cands.len()
        invariant
            j <= cands@.len(),
            forall|q: int| 0 <= q < cands@.len() ==> (#[trigger] cands@[q] as int) < sol@.len(),
            forall|q: int| 0 <= q < j ==> sol@[#[trigger] cands@[q] as int]@.len() > 0,
        decreases cands@.len() - j,
    {
        if sol[cands[j]].len() == 0 {
            return j;
        }
        j += 1;
    }
    j
}

/// What construction hands back: a complete solution, or an error; the
/// unroutable node whenever one exists.
pub open spec fn built(m: &Model, r: Result<Routes, SolveError>) -> bool {
    &&& (r matches Ok(sol) ==> complete(m, sol@))
    &&& (r matches Err(SolveError::Unroutable(x)) ==> unroutable(m, x))
    &&& (any_unroutable(m) ==> r matches Err(SolveError::Unroutable(_)))
    &&& !(r matches Err(SolveError::CostOverflow))
}

/// One empty route per vehicle, each priced at zero.
fn empty_routes(nv: usize) -> (r: (Routes, Vec<i64>))
    ensures
        r.0@.len() == nv,
        r.1@.len() == nv,
        forall|w: int| 0 <= w < nv ==> (#[trigger] r.0@[w])@.len() == 0 && r.1@[w] == 0,
{
    let mut sol: Routes = Vec::new();
    let mut cost: Vec<i64> = Vec::new();
    let mut v: usize = 0;
    while v < nv
        invariant
            v <= nv,
            sol@.len() == v,
            cost@.len() == v,
            forall|w: int| 0 <= w < v ==> (#[trigger] sol@[w])@.len() == 0 && cost@[w] == 0,
        decreases nv - v,
    {
        let empty: Vec<NodeId> = Vec::new();
        sol.push(empty);
        cost.push(0);
        proof {
            assert(sol@[v as int]@.len() == 0);
        }
        v += 1;
    }
    (sol, cost)
}

/// Every node a complete solution must visit, in id order.
fn pending_nodes(m: &Model) -> (r: Vec<NodeId>)
    requires
        m.wf(),
    ensures
        forall|i: int| 0 <= i < r@.len() ==> m.valid_node(#[trigger] r@[i]),
        forall|y: NodeId| #[trigger] r@.to_multiset().count(y) == want(m, y),
        r@ == pending_upto(m, m.n()),
{
    let n = m.node_count();
    let mut unrouted: Vec<NodeId> = Vec::new();
    let mut x: usize = 0;
    while x < n
        invariant
            m.wf(),
            n == m.n(),
            x <= n,
            forall|i: int| 0 <= i < unrouted@.len() ==> m.valid_node(#[trigger] unrouted@[i]),
            forall|y: NodeId| #[trigger]
                unrouted@.to_multiset().count(y) == if (y.0 as int) < x && !m.is_terminal_spec(y) {
                    1nat
                } else {
                    0nat
                },
            unrouted@ == pending_upto(m, x as nat),
        decreases n - x,
    {
        let id = NodeId(x as u32);
        if !m.is_terminal(id) {
            unrouted.push(id);
        }
        x += 1;
    }
    unrouted
}

/// Where `first_empty_cand` stops is where the used routes end among the
/// candidates.
proof fn lemma_split(m: &Model, sol: Seq<Vec<NodeId>>, cands: Seq<usize>, split: int)
    requires
        m.wf(),
        sol.len() == m.fleet().len(),
        cands == cand_spec(m, sol),
        0 <= split <= cands.len(),
        forall|q: int| 0 <= q < split ==> sol[#[trigger] cands[q] as int]@.len() > 0,
        split < cands.len() ==> sol[cands[split] as int]@.len() == 0,
    ensures
        cands == cand_v(m, views(sol)),
        split == used_all(views(sol)).len(),
{
    let rs = views(sol);
    lemma_cand_views(m, sol);
    lemma_cand_split(m, rs);
    let us = used_all(rs);
    lemma_used_facts(rs, rs.len());
    if split < us.len() {
        assert(cands[split] == us[split]);
        assert(rs[us[split] as int].len() > 0);
        assert(rs[cands[split] as int] == sol[cands[split] as int]@);
    }
    if split > us.len() {
        let q = us.len() as int;
        assert(rs[cands[q] as int].len() == 0);
        assert(rs[cands[q] as int] == sol[cands[q] as int]@);
    }
}

/// Every cached first insertion from before a step still bounds the
/// insertions off the route the step grew, the arrays reindexed as the
/// step's removal reindexed them.
proof fn lemma_cache_carry(
    m: &Model,
    rs0: Seq<Seq<NodeId>>,
    cost0: Seq<i64>,
    rs1: Seq<Seq<NodeId>>,
    cost1: Seq<i64>,
    t: usize,
    un0: Seq<NodeId>,
    b0: Seq<Option<Insertion>>,
    ui: int,
)
    requires
        rs0.len() <= usize::MAX,
        rs1.len() == rs0.len(),
        cost1.len() == cost0.len(),
        (t as int) < rs0.len(),
        rs1[t as int].len() > 0,
        forall|w: int| 0 <= w < rs0.len() && w != t ==> #[trigger] rs1[w] == rs0[w] && cost1[w] == cost0[w],
        b0.len() == un0.len(),
        0 <= ui < un0.len(),
        forall|i: int| 0 <= i < un0.len() ==> cache_exact(m, rs0, cost0, un0[i], #[trigger] b0[i], None),
    ensures
        forall|i: int|
            0 <= i < un0.len() - 1 ==> cache_exact(
                m,
                rs1,
                cost1,
                un0.update(ui, un0.last()).drop_last()[i],
                #[trigger] b0.update(ui, b0.last()).drop_last()[i],
                Some(t),
            ),
{
    let un1 = un0.update(ui, un0.last()).drop_last();
    let b1 = b0.update(ui, b0.last()).drop_last();
    assert forall|i: int| 0 <= i < un0.len() - 1 implies cache_exact(
        m,
        rs1,
        cost1,
        un1[i],
        #[trigger] b1[i],
        Some(t),
    ) by {
        let o = if i == ui {
            un0.len() - 1
        } else {
            i
        };
        assert(un1[i] == un0[o] && b1[i] == b0[o]);
        assert(cache_exact(m, rs0, cost0, un0[o], b0[o], None));
        lemma_exact_after(m, rs0, cost0, rs1, cost1, t, un0[o], b0[o]);
    }
}

/// Puts the node `ins` was ranked for where `ins` says, drops it from the
/// pending list by moving the last one into its place, and keeps the cache
/// arrays parallel.
#[verifier::rlimit(50)]
#[verifier::spinoff_prover]
fn commit(
    m: &Model,
    sol: &mut Routes,
    cost: &mut Vec<i64>,
    unrouted: &mut Vec<NodeId>,
    best: &mut Vec<Option<Insertion>>,
    dirty: &mut Vec<bool>,
    ins: Insertion,
    ui: usize,
) -> (node: NodeId)
    requires
        build_ok(m, old(sol)@, old(cost)@),
        forall|i: int| 0 <= i < old(unrouted)@.len() ==> m.valid_node(#[trigger] old(unrouted)@[i]),
        accounted(m, old(sol)@, old(unrouted)@),
        forall|y: NodeId| unroutable(m, y) ==> #[trigger] sol_ms(old(sol)@).count(y) == 0,
        cache_ok(m, old(sol)@, old(cost)@, old(unrouted)@, old(best)@, old(dirty)@, None),
        ui < old(unrouted)@.len(),
        old(best)@.len() == old(unrouted)@.len(),
        old(dirty)@.len() == old(unrouted)@.len(),
        valid_ins(m, old(sol)@, old(cost)@, old(unrouted)@[ui as int], ins),
    ensures
        node == old(unrouted)@[ui as int],
        final(unrouted)@ == old(unrouted)@.update(ui as int, old(unrouted)@.last()).drop_last(),
        final(best)@ == old(best)@.update(ui as int, old(best)@.last()).drop_last(),
        final(dirty)@ == old(dirty)@.update(ui as int, old(dirty)@.last()).drop_last(),
        views(final(sol)@) == views(old(sol)@).update(
            ins.1 as int,
            splice(views(old(sol)@)[ins.1 as int], ins.2 as int, ins.2 as int, seq![node]),
        ),
        final(cost)@ == old(cost)@.update(ins.1 as int, (old(cost)@[ins.1 as int] + ins.0) as i64),
        views(final(sol)@)[ins.1 as int].len() > 0,
        forall|w: int|
            0 <= w < old(sol)@.len() && w != ins.1 ==> #[trigger] views(final(sol)@)[w] == views(
                old(sol)@,
            )[w] && final(cost)@[w] == old(cost)@[w],
        build_ok(m, final(sol)@, final(cost)@),
        forall|i: int| 0 <= i < final(unrouted)@.len() ==> m.valid_node(#[trigger] final(unrouted)@[i]),
        accounted(m, final(sol)@, final(unrouted)@),
        forall|y: NodeId| unroutable(m, y) ==> #[trigger] sol_ms(final(sol)@).count(y) == 0,
        cache_ok(m, final(sol)@, final(cost)@, final(unrouted)@, final(best)@, final(dirty)@, Some(ins.1)),
{
    let (delta, v, pos) = ins;
    let ghost sol0 = sol@;
    let ghost cost0 = cost@;
    let ghost un0 = unrouted@;
    let ghost b0 = best@;
    let ghost d0 = dirty@;
    let node = unrouted.swap_remove(ui);
    best.swap_remove(ui);
    dirty.swap_remove(ui);
    let mut one: Vec<NodeId> = Vec::new();
    one.push(node);
    let route = splice_vec(sol[v].as_slice(), pos, pos, one.as_slice());
    proof {
        assert(one@ == seq![node]);
        assert(m.valid_node(node));
        assert(route_valid(m, sol0[v as int]@));
        lemma_splice_valid(m, sol0[v as int]@, pos as int, pos as int, seq![node]);
        lemma_insert_ms(sol0, v as int, pos as int, node, route);
        lemma_swap_remove_ms(un0, ui as int);
    }
    let c = (cost[v] as i128 + delta) as i64;
    sol.set(v, route);
    cost.set(v, c);
    proof {
        assert(views(sol@) =~= views(sol0).update(
            v as int,
            splice(views(sol0)[v as int], pos as int, pos as int, seq![node]),
        ));
        assert forall|w: int| 0 <= w < sol0.len() && w != v implies #[trigger] views(sol@)[w] == views(
            sol0,
        )[w] && cost@[w] == cost0[w] by {
            assert(sol@[w] == sol0[w]);
        }
        lemma_cache_after(m, sol0, cost0, un0, b0, d0, ui as int, sol@, cost@, v);
        // The node found a feasible place on `v`, so `v` allows it.
        let rt = sol@[v as int]@;
        assert(rt[pos as int] == node);
        assert(cost_spec(m, rt, VehicleId(v as u32)) is Some);
        assert(!m.fleet()[v as int].forbids_spec(rt[pos as int]));
        assert(!forbidden_all(m, node));
        assert forall|w: int| 0 <= w < sol@.len() implies route_valid(m, (#[trigger] sol@[w])@) by {
            if w != v {
                assert(sol@[w] == sol0[w]);
            }
        }
        assert forall|w: int| 0 <= w < sol@.len() implies cost_spec(
            m,
            (#[trigger] sol@[w])@,
            VehicleId(w as u32),
        ) == Some(cost@[w] as int) by {
            if w != v {
                assert(sol@[w] == sol0[w]);
            }
        }
        assert forall|y: NodeId| #[trigger]
            sol_ms(sol@).count(y) + unrouted@.to_multiset().count(y) == want(m, y) by {
            assert(sol_ms(sol0).count(y) + un0.to_multiset().count(y) == want(m, y));
            if y == node {
                assert(un0.to_multiset().count(y) > 0);
            }
        }
        assert forall|y: NodeId| unroutable(m, y) implies #[trigger] sol_ms(sol@).count(y) == 0 by {
            assert(sol_ms(sol0).count(y) == 0);
        }
        assert forall|i: int| 0 <= i < unrouted@.len() implies m.valid_node(
            #[trigger] unrouted@[i],
        ) by {
            if i == ui {
                assert(unrouted@[i] == un0[un0.len() - 1]);
            } else {
                assert(unrouted@[i] == un0[i]);
            }
        }
    }
    node
}

/// What construction hands back, read as routes' contents.
pub open spec fn outcome_view(r: Result<Routes, SolveError>) -> Result<Seq<Seq<NodeId>>, SolveError> {
    match r {
        Ok(sol) => Ok(views(sol@)),
        Err(e) => Err(e),
    }
}

/// Insertion with a candidate list of width `k`: each step ranks every
/// unrouted node by its cheapest feasible insertion and draws one of the `k`
/// cheapest. The cache is indifferent to the draw: one route still grows
/// per step.
#[verifier::loop_isolation(false)]
#[verifier::rlimit(100)]
#[verifier::spinoff_prover]
fn insertion<L: FnMut(SearchEvent)>(
    m: &Model,
    k: usize,
    seed: u64,
    log: &mut L,
    trace: &mut Vec<SearchEvent>,
) -> (r: Result<Routes, SolveError>)
    requires
        m.wf(),
        forall|x: SearchEvent| call_requires(*old(log), (x,)),
        old(trace)@.len() == 0,
    ensures
        *final(log) == *old(log),
        handed(*old(log), final(trace)@),
        first_events(m, r, final(trace)@),
        built(m, r),
        outcome_view(r) == built_by(m, k, seed),
{
    let nv = m.vehicle_count();
    let n = m.node_count();
    let mut rng = Rng { state: seed };
    let (mut sol, mut cost) = empty_routes(nv);
    proof {
        lemma_empty_routes_ms(sol@);
        assert forall|w: int| 0 <= w < sol@.len() implies cost_spec(
            m,
            (#[trigger] sol@[w])@,
            VehicleId(w as u32),
        ) == Some(cost@[w] as int) by {
            assert(sol@[w]@.len() == 0);
        }
    }
    let mut unrouted = pending_nodes(m);
    let mut scratch: Vec<NodeId> = Vec::new();
    let mut cands: Vec<usize> = Vec::new();
    // Each node's cheapest insertion among the used routes, parallel to
    // `unrouted`. Empty candidates stay out: they cost one position to
    // price, and one becomes a used route on nearly every insertion.
    let mut best: Vec<Option<Insertion>> = Vec::new();
    let mut dirty: Vec<bool> = Vec::new();
    let mut i: usize = 0;
    while i < unrouted.len()
        invariant
            i <= unrouted@.len(),
            best@.len() == i,
            dirty@.len() == i,
            forall|q: int| 0 <= q < i ==> (#[trigger] best@[q]) is None,
            forall|q: int| 0 <= q < i ==> #[trigger] dirty@[q],
        decreases unrouted@.len() - i,
    {
        best.push(None);
        dirty.push(true);
        i += 1;
    }
    // The route the last insertion grew, the only one that can be stale.
    let mut changed: Option<usize> = None;
    // Each node's best this round; the draw picks from here.
    let mut ranked: Vec<(Insertion, usize)> = Vec::new();
    proof {
        let st = Build { rs: views(sol@), cost: cost@, un: unrouted@, rng: rng.state };
        assert forall|i: int| 0 <= i < nv implies #[trigger] st.rs[i] == start(m, seed).rs[i] by {
            assert(sol@[i]@ =~= Seq::<NodeId>::empty());
        }
        assert(st.rs =~= start(m, seed).rs);
        assert forall|i: int| 0 <= i < nv implies #[trigger] st.cost[i] == start(m, seed).cost[i] by {
            assert(sol@[i]@.len() == 0);
        }
        assert(st.cost =~= start(m, seed).cost);
        assert(st == start(m, seed));
    }

    while unrouted.len() > 0
        invariant
            m.wf(),
            nv == m.fleet().len(),
            n == m.n(),
            build_ok(m, sol@, cost@),
            forall|i: int| 0 <= i < unrouted@.len() ==> m.valid_node(#[trigger] unrouted@[i]),
            accounted(m, sol@, unrouted@),
            forall|y: NodeId| unroutable(m, y) ==> #[trigger] sol_ms(sol@).count(y) == 0,
            cache_ok(m, sol@, cost@, unrouted@, best@, dirty@, changed),
            changed matches Some(t) ==> t < nv,
            forall|e: SearchEvent| call_requires(*log, (e,)),
            *log == *old(log),
            built_by(m, k, seed) == run(
                m,
                k,
                Build { rs: views(sol@), cost: cost@, un: unrouted@, rng: rng.state },
            ),
            best@.len() == unrouted@.len(),
            dirty@.len() == unrouted@.len(),
            forall|i: int|
                0 <= i < unrouted@.len() && !dirty@[i] ==> cache_exact(
                    m,
                    views(sol@),
                    cost@,
                    unrouted@[i],
                    #[trigger] best@[i],
                    changed,
                ),
        decreases unrouted@.len(),
    {
        let ghost cur = Build { rs: views(sol@), cost: cost@, un: unrouted@, rng: rng.state };
        // `candidate_vehicles` keeps used routes in a fixed order, so a
        // cached entry stays comparable with a fresh one.
        candidate_vehicles(m, &sol, &mut cands);
        let split = first_empty_cand(&sol, &cands);
        proof {
            lemma_split(m, sol@, cands@, split as int);
        }
        rank_round(
            m,
            &sol,
            &cost,
            &unrouted,
            &mut best,
            &mut dirty,
            changed,
            &cands,
            split,
            &mut ranked,
            &mut scratch,
        );

        // The one empty candidate may be forbidden for every remaining node
        // while another empty vehicle is not. That is the only way the
        // narrow scan can miss a feasible insertion, so only then widen it.
        let widened = ranked.len() == 0 && cands.len() < nv;
        if widened {
            rank_wide(m, &sol, &cost, &unrouted, &mut ranked, &mut scratch);
        }

        proof {
            assert(ranked@ == ranking(m, cur));
        }
        if ranked.len() == 0 {
            let found = find_unroutable(m, &unrouted);
            proof {
                assert forall|y: NodeId| unroutable(m, y) implies found is Some by {
                    assert(sol_ms(sol@).count(y) == 0);
                    assert(unrouted@.to_multiset().count(y) == 1);
                    assert(unrouted@.contains(y));
                    let w = choose|w: int| 0 <= w < unrouted@.len() && unrouted@[w] == y;
                    if found is None {
                        assert(!forbidden_all(m, unrouted@[w]));
                    }
                }
            }
            return match found {
                Some(x) => {
                    proof {
                        let w = choose|w: int| 0 <= w < unrouted@.len() && unrouted@[w] == x;
                        assert(m.valid_node(unrouted@[w]));
                        assert(unrouted@.to_multiset().count(x) > 0);
                        assert(sol_ms(sol@).count(x) + unrouted@.to_multiset().count(x) == want(m, x));
                        assert(want(m, x) == 1);
                    }
                    Err(SolveError::Unroutable(x))
                },
                None => Err(SolveError::NoFeasibleInsertion),
            };
        }
        let ghost ranked0 = ranked@;

        // Unique node indices make `(delta, i)` a total order, so the j-th
        // smallest is unique, and `k = 1` draws the cheapest.
        let width = if k < 1 {
            1
        } else if k > ranked.len() {
            ranked.len()
        } else {
            k
        };
        let j = rng.below(width);
        let idx = select_jth(&ranked, j);
        let (ins, ui) = ranked[idx];
        let (delta, v, pos) = ins;
        let ghost sol0 = sol@;
        let ghost cost0 = cost@;
        let ghost un0 = unrouted@;
        let ghost b0 = best@;
        let ghost d0 = dirty@;
        proof {
            assert(ranked_ok(m, sol@, cost@, unrouted@, ranked@));
            assert(ranked@[idx as int] == (ins, ui));
            assert(valid_ins(m, sol0, cost0, un0[ui as int], ins));
        }
        let node = commit(m, &mut sol, &mut cost, &mut unrouted, &mut best, &mut dirty, ins, ui);
        changed = Some(v);
        proof {
            let rs0 = cur.rs;
            let rs1 = views(sol@);
            assert(idx == pick(ranked0, j as int));
            assert(j as int == (mix_out(rng.state) as int) % (crate::solver::order::width(k, ranked0.len()) as int));
            let next = Build { rs: rs1, cost: cost@, un: unrouted@, rng: rng.state };
            assert(step(m, k, cur) == Ok::<Build, SolveError>(next));
            assert(run(m, k, cur) == run(m, k, next));
            if !widened {
                lemma_cache_carry(m, rs0, cur.cost, rs1, cost@, v, un0, b0, ui as int);
            }
        }

        // Widening ranked entries against vehicles the cache never saw.
        if widened {
            let mut q: usize = 0;
            while q < dirty.len()
                invariant
                    q <= dirty@.len(),
                    dirty@.len() == unrouted@.len(),
                    best@.len() == unrouted@.len(),
                    forall|p: int| 0 <= p < q ==> #[trigger] dirty@[p],
                decreases dirty@.len() - q,
            {
                dirty.set(q, true);
                q += 1;
            }
        }
    }
    report_first(m, &sol, &cost, log, trace);
    proof {
        assert forall|y: NodeId| m.valid_node(y) implies #[trigger] crate::eval::occ(sol@, y) == if m.is_terminal_spec(y) {
            0nat
        } else {
            1nat
        } by {
            assert(sol_ms(sol@).count(y) + unrouted@.to_multiset().count(y) == want(m, y));
        }
        assert forall|y: NodeId| unroutable(m, y) implies false by {
            assert(sol_ms(sol@).count(y) + unrouted@.to_multiset().count(y) == want(m, y));
        }
    }
    Ok(sol)
}

/// Reports the first solution, priced `cost` route by route, to the
/// observer.
fn report_first<L: FnMut(SearchEvent)>(
    m: &Model,
    sol: &Routes,
    cost: &Vec<i64>,
    log: &mut L,
    trace: &mut Vec<SearchEvent>,
)
    requires
        build_ok(m, sol@, cost@),
        forall|x: SearchEvent| call_requires(*old(log), (x,)),
        old(trace)@.len() == 0,
    ensures
        *final(log) == *old(log),
        handed(*old(log), final(trace)@),
        final(trace)@ == seq![SearchEvent::FirstSolution { cost: clamp_spec(total(m, sol@)) as i64 }],
{
    proof {
        lemma_built_total(m, sol@, cost@, sol@.len());
        assert(cost@.subrange(0, cost@.len() as int) =~= cost@);
    }
    let c = clamp_cost(cost_sum(cost));
    emit(log, trace, SearchEvent::FirstSolution { cost: c });
    assert(trace@ =~= seq![SearchEvent::FirstSolution { cost: clamp_spec(total(m, sol@)) as i64 }]);
}

/// The routes' prices, summed, are the solution's true cost.
proof fn lemma_built_total(m: &Model, sol: Seq<Vec<NodeId>>, cost: Seq<i64>, k: nat)
    requires
        build_ok(m, sol, cost),
        k <= sol.len(),
    ensures
        sum_costs(cost.subrange(0, k as int)) == true_cost(m, sol, k),
    decreases k,
{
    if k > 0 {
        lemma_built_total(m, sol, cost, (k - 1) as nat);
        assert(cost.subrange(0, k as int).drop_last() =~= cost.subrange(0, k - 1));
        assert(cost_spec(m, sol[k - 1]@, VehicleId((k - 1) as u32)) == Some(cost[k - 1] as int));
    } else {
        assert(cost.subrange(0, 0) =~= Seq::<i64>::empty());
    }
}

/// What construction reports: one `FirstSolution` with the built
/// solution's true cost, or nothing when it fails.
pub open spec fn first_events(m: &Model, r: Result<Routes, SolveError>, t: Seq<SearchEvent>) -> bool {
    match r {
        Ok(s) => t == seq![SearchEvent::FirstSolution { cost: clamp_spec(total(m, s@)) as i64 }],
        Err(_) => t.len() == 0,
    }
}

/// What `construct` builds on `m`.
pub open spec fn constructed(m: &Model, construct: Construct) -> Result<Seq<Seq<NodeId>>, SolveError> {
    match construct {
        Construct::CheapestInsertion => built_by(m, 1, 0),
        Construct::GreedyRandomized { seed, k } => built_by(m, k, seed),
    }
}

/// Same seed, same solution: two constructions from one model, seed and
/// width build the same routes, or fail the same way.
pub proof fn lemma_same_seed_same_solution(
    m: &Model,
    seed: u64,
    k: usize,
    r1: Result<Routes, SolveError>,
    r2: Result<Routes, SolveError>,
)
    requires
        outcome_view(r1) == built_by(m, k, seed),
        outcome_view(r2) == built_by(m, k, seed),
    ensures
        outcome_view(r1) == outcome_view(r2),
{
}

/// A draw among the one cheapest is cheapest insertion: width one builds
/// what `CheapestInsertion` builds, whatever the seed.
pub proof fn lemma_width_one_is_cheapest(m: &Model, seed: u64)
    ensures
        constructed(m, Construct::GreedyRandomized { seed, k: 1 }) == constructed(
            m,
            Construct::CheapestInsertion,
        ),
{
    lemma_width_one_ignores_seed(m, seed);
}

/// Always the cheapest insertion on offer. The model must be one the
/// construction can build: no node forbidden on every vehicle, and room
/// for every node (`try_first_solution` tells).
pub fn cheapest_insertion<L: FnMut(SearchEvent)>(m: &Model, mut log: L) -> (r: Routes)
    requires
        m.wf(),
        built_by(m, 1, 0) is Ok,
        forall|x: SearchEvent| call_requires(log, (x,)),
    ensures
        complete(m, r@),
        Ok::<Seq<Seq<NodeId>>, SolveError>(views(r@)) == built_by(m, 1, 0),
        exists|t: Seq<SearchEvent>| handed(log, t) && first_events(m, Ok::<Routes, SolveError>(r), t),
{
    let mut trace: Vec<SearchEvent> = Vec::new();
    let r = insertion(m, 1, 0, &mut log, &mut trace);
    match r {
        Ok(sol) => {
            proof {
                assert(handed(log, trace@));
            }
            sol
        },
        Err(_) => {
            proof {
                assert(false);
            }
            Vec::new()
        },
    }
}

/// Draws from the `k` cheapest. Not a better first solution, a different
/// one per seed, so callers can race several and keep the cheapest.
pub fn greedy_randomized<L: FnMut(SearchEvent)>(m: &Model, seed: u64, k: usize, mut log: L) -> (r:
    Routes)
    requires
        m.wf(),
        built_by(m, k, seed) is Ok,
        forall|x: SearchEvent| call_requires(log, (x,)),
    ensures
        complete(m, r@),
        Ok::<Seq<Seq<NodeId>>, SolveError>(views(r@)) == built_by(m, k, seed),
        exists|t: Seq<SearchEvent>| handed(log, t) && first_events(m, Ok::<Routes, SolveError>(r), t),
{
    let mut trace: Vec<SearchEvent> = Vec::new();
    let r = insertion(m, k, seed, &mut log, &mut trace);
    match r {
        Ok(sol) => {
            proof {
                assert(handed(log, trace@));
            }
            sol
        },
        Err(_) => {
            proof {
                assert(false);
            }
            Vec::new()
        },
    }
}

/// The first solution, built as `construct` says, reporting
/// `FirstSolution` once every node is placed.
pub fn first_solution_with<L: FnMut(SearchEvent)>(m: &Model, construct: Construct, mut log: L) -> (r:
    Routes)
    requires
        m.wf(),
        constructed(m, construct) is Ok,
        forall|x: SearchEvent| call_requires(log, (x,)),
    ensures
        complete(m, r@),
        Ok::<Seq<Seq<NodeId>>, SolveError>(views(r@)) == constructed(m, construct),
        exists|t: Seq<SearchEvent>| handed(log, t) && first_events(m, Ok::<Routes, SolveError>(r), t),
{
    let mut trace: Vec<SearchEvent> = Vec::new();
    let r = first_solution(m, construct, &mut log, &mut trace);
    match r {
        Ok(sol) => {
            proof {
                assert(handed(log, trace@));
            }
            sol
        },
        Err(_) => {
            proof {
                assert(false);
            }
            Vec::new()
        },
    }
}

/// The first solution, built as `construct` says, its events appended to
/// `trace`: exactly one `FirstSolution` with the solution's true cost.
pub fn first_solution_traced(m: &Model, construct: Construct, trace: &mut Vec<SearchEvent>) -> (r:
    Routes)
    requires
        m.wf(),
        constructed(m, construct) is Ok,
    ensures
        complete(m, r@),
        Ok::<Seq<Seq<NodeId>>, SolveError>(views(r@)) == constructed(m, construct),
        final(trace)@ == old(trace)@.push(
            SearchEvent::FirstSolution { cost: clamp_spec(total(m, r@)) as i64 },
        ),
{
    let mut quiet = |_e: SearchEvent| {};
    let mut local: Vec<SearchEvent> = Vec::new();
    let r = first_solution(m, construct, &mut quiet, &mut local);
    match r {
        Ok(sol) => {
            trace.append(&mut local);
            sol
        },
        Err(_) => {
            proof {
                assert(false);
            }
            Vec::new()
        },
    }
}

/// Whether `construct` can build on `m`, and what it builds: the routes,
/// or the node forbidden on every vehicle, or `NoFeasibleInsertion` when
/// the fleet runs out of room.
pub fn try_first_solution(m: &Model, construct: Construct) -> (r: Result<Routes, SolveError>)
    requires
        m.wf(),
    ensures
        built(m, r),
        outcome_view(r) == constructed(m, construct),
{
    let mut quiet = |_e: SearchEvent| {};
    let mut local: Vec<SearchEvent> = Vec::new();
    first_solution(m, construct, &mut quiet, &mut local)
}

/// `first_solution_with` with the observer borrowed.
pub(crate) fn first_solution<L: FnMut(SearchEvent)>(
    m: &Model,
    construct: Construct,
    log: &mut L,
    trace: &mut Vec<SearchEvent>,
) -> (r: Result<Routes, SolveError>)
    requires
        m.wf(),
        forall|x: SearchEvent| call_requires(*old(log), (x,)),
        old(trace)@.len() == 0,
    ensures
        *final(log) == *old(log),
        handed(*old(log), final(trace)@),
        first_events(m, r, final(trace)@),
        built(m, r),
        outcome_view(r) == constructed(m, construct),
{
    match construct {
        Construct::CheapestInsertion => insertion(m, 1, 0, log, trace),
        Construct::GreedyRandomized { seed, k } => insertion(m, k, seed, log, trace),
    }
}
} // verus!
