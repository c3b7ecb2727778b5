//! The order construction ranks insertions by, and the pick of one entry
//! by rank: the pieces that make a construction a function of its inputs.

use vstd::prelude::*;

use super::construct::Insertion;
use super::{SolveError, forbidden_all};
use crate::eval::cost_spec;
use crate::model::Model;
use crate::operators::{cand_spec, first_empty, splice, used_upto};
use crate::types::{NodeId, VehicleId};

verus! {

/// The routes' contents, vehicle by vehicle.
pub open spec fn views(sol: Seq<Vec<NodeId>>) -> Seq<Seq<NodeId>> {
    Seq::new(sol.len(), |i: int| sol[i]@)
}

/// Cost of route `v` of `rs` with `u` put at position `p`, or `None` if
/// that route is infeasible.
pub open spec fn ins_cost_r(m: &Model, rs: Seq<Seq<NodeId>>, u: NodeId, v: int, p: int) -> Option<int> {
    cost_spec(m, splice(rs[v], p, p, seq![u]), VehicleId(v as u32))
}

/// `a` comes no later than the insertion `(d, v, p)`: by delta, then
/// vehicle, then position.
pub open spec fn ins_le(a: Insertion, d: int, v: int, p: int) -> bool {
    a.0 < d || (a.0 == d && (a.1 < v || (a.1 == v && a.2 <= p)))
}

/// `ins` is the first feasible insertion of `u` on the vehicles `vs`,
/// ordered by delta, then vehicle, then position.
pub open spec fn least_among(
    m: &Model,
    rs: Seq<Seq<NodeId>>,
    cost: Seq<i64>,
    u: NodeId,
    vs: Seq<usize>,
    ins: Insertion,
) -> bool {
    &&& vs.contains(ins.1)
    &&& ins.2 <= rs[ins.1 as int].len()
    &&& ins_cost_r(m, rs, u, ins.1 as int, ins.2 as int) == Some(cost[ins.1 as int] + ins.0)
    &&& forall|j: int, p: int|
        0 <= j < vs.len() && 0 <= p <= rs[vs[j] as int].len() ==> (#[trigger] ins_cost_r(
            m,
            rs,
            u,
            vs[j] as int,
            p,
        ) matches Some(c) ==> ins_le(ins, c - cost[vs[j] as int], vs[j] as int, p))
}

/// The first feasible insertion of `u` on the vehicles `vs`, or `None` if
/// none of them has room for it.
pub open spec fn least(m: &Model, rs: Seq<Seq<NodeId>>, cost: Seq<i64>, u: NodeId, vs: Seq<usize>) -> Option<
    Insertion,
> {
    if exists|ins: Insertion| least_among(m, rs, cost, u, vs, ins) {
        Some(choose|ins: Insertion| least_among(m, rs, cost, u, vs, ins))
    } else {
        None
    }
}

/// Vehicle ids strictly increase along `vs`.
pub open spec fn ascending(vs: Seq<usize>) -> bool {
    forall|a: int, b: int| 0 <= a < b < vs.len() ==> #[trigger] vs[a] < #[trigger] vs[b]
}

/// No vehicle of `vs` has a feasible position for `u`.
pub open spec fn nowhere_r(m: &Model, rs: Seq<Seq<NodeId>>, u: NodeId, vs: Seq<usize>) -> bool {
    forall|j: int, p: int|
        0 <= j < vs.len() && 0 <= p <= rs[vs[j] as int].len() ==> (#[trigger] ins_cost_r(
            m,
            rs,
            u,
            vs[j] as int,
            p,
        )) is None
}

/// At most one insertion is first.
pub(crate) proof fn lemma_least_unique(
    m: &Model,
    rs: Seq<Seq<NodeId>>,
    cost: Seq<i64>,
    u: NodeId,
    vs: Seq<usize>,
    a: Insertion,
    b: Insertion,
)
    requires
        least_among(m, rs, cost, u, vs, a),
        least_among(m, rs, cost, u, vs, b),
    ensures
        a == b,
{
    let ja = choose|j: int| 0 <= j < vs.len() && vs[j] == a.1;
    let jb = choose|j: int| 0 <= j < vs.len() && vs[j] == b.1;
    assert(ins_cost_r(m, rs, u, vs[jb] as int, b.2 as int) == Some(cost[b.1 as int] + b.0));
    assert(ins_cost_r(m, rs, u, vs[ja] as int, a.2 as int) == Some(cost[a.1 as int] + a.0));
}

/// An insertion that is first is what `least` names.
pub(crate) proof fn lemma_least_is(
    m: &Model,
    rs: Seq<Seq<NodeId>>,
    cost: Seq<i64>,
    u: NodeId,
    vs: Seq<usize>,
    ins: Insertion,
)
    requires
        least_among(m, rs, cost, u, vs, ins),
    ensures
        least(m, rs, cost, u, vs) == Some(ins),
{
    let c = choose|i: Insertion| least_among(m, rs, cost, u, vs, i);
    lemma_least_unique(m, rs, cost, u, vs, c, ins);
}

/// With no feasible insertion on `vs`, `least` is `None`.
pub(crate) proof fn lemma_least_none(m: &Model, rs: Seq<Seq<NodeId>>, cost: Seq<i64>, u: NodeId, vs: Seq<usize>)
    requires
        nowhere_r(m, rs, u, vs),
    ensures
        least(m, rs, cost, u, vs) is None,
{
    if exists|ins: Insertion| least_among(m, rs, cost, u, vs, ins) {
        let ins = choose|ins: Insertion| least_among(m, rs, cost, u, vs, ins);
        let j = choose|j: int| 0 <= j < vs.len() && vs[j] == ins.1;
        assert(ins_cost_r(m, rs, u, vs[j] as int, ins.2 as int) is Some);
    }
}

/// Scanning one more vehicle, larger than every vehicle before it: its
/// first insertion wins only by a strictly smaller delta.
pub(crate) proof fn lemma_least_extend(
    m: &Model,
    rs: Seq<Seq<NodeId>>,
    cost: Seq<i64>,
    u: NodeId,
    vs: Seq<usize>,
    v: usize,
)
    requires
        forall|j: int| 0 <= j < vs.len() ==> #[trigger] vs[j] < v,
        least(m, rs, cost, u, vs) is None ==> nowhere_r(m, rs, u, vs),
        least(m, rs, cost, u, seq![v]) is None ==> nowhere_r(m, rs, u, seq![v]),
    ensures
        least(m, rs, cost, u, vs.push(v)) is None ==> nowhere_r(m, rs, u, vs.push(v)),
        least(m, rs, cost, u, vs.push(v)) == match (least(m, rs, cost, u, vs), least(m, rs, cost, u, seq![v])) {
            (Some(b), Some(c)) => if c.0 < b.0 {
                Some(c)
            } else {
                Some(b)
            },
            (None, Some(c)) => Some(c),
            (b, None) => b,
        },
{
    let w = vs.push(v);
    let one = seq![v];
    let lb = least(m, rs, cost, u, vs);
    let lc = least(m, rs, cost, u, one);
    assert(one[0] == v);
    assert(w[vs.len() as int] == v);
    assert forall|j: int| 0 <= j < vs.len() implies #[trigger] w[j] == vs[j] by {}
    if let Some(b) = lb {
        lemma_least_is_some(m, rs, cost, u, vs);
    }
    if let Some(c) = lc {
        lemma_least_is_some(m, rs, cost, u, one);
    }
    match (lb, lc) {
        (Some(b), Some(c)) => {
            if c.0 < b.0 {
                assert forall|j: int, p: int|
                    0 <= j < w.len() && 0 <= p <= rs[w[j] as int].len() implies (#[trigger] ins_cost_r(
                    m,
                    rs,
                    u,
                    w[j] as int,
                    p,
                ) matches Some(x) ==> ins_le(c, x - cost[w[j] as int], w[j] as int, p)) by {
                    if j < vs.len() {
                        assert(w[j] == vs[j]);
                        assert(ins_cost_r(m, rs, u, vs[j] as int, p) matches Some(x) ==> ins_le(
                            b,
                            x - cost[vs[j] as int],
                            vs[j] as int,
                            p,
                        ));
                    } else {
                        assert(ins_cost_r(m, rs, u, one[0] as int, p) matches Some(x) ==> ins_le(
                            c,
                            x - cost[one[0] as int],
                            one[0] as int,
                            p,
                        ));
                    }
                }
                assert(w.contains(c.1));
                lemma_least_is(m, rs, cost, u, w, c);
            } else {
                let jb = choose|j: int| 0 <= j < vs.len() && vs[j] == b.1;
                assert(b.1 < v);
                assert forall|j: int, p: int|
                    0 <= j < w.len() && 0 <= p <= rs[w[j] as int].len() implies (#[trigger] ins_cost_r(
                    m,
                    rs,
                    u,
                    w[j] as int,
                    p,
                ) matches Some(x) ==> ins_le(b, x - cost[w[j] as int], w[j] as int, p)) by {
                    if j < vs.len() {
                        assert(w[j] == vs[j]);
                        assert(ins_cost_r(m, rs, u, vs[j] as int, p) matches Some(x) ==> ins_le(
                            b,
                            x - cost[vs[j] as int],
                            vs[j] as int,
                            p,
                        ));
                    } else {
                        assert(ins_cost_r(m, rs, u, one[0] as int, p) matches Some(x) ==> ins_le(
                            c,
                            x - cost[one[0] as int],
                            one[0] as int,
                            p,
                        ));
                    }
                }
                assert(w[jb] == b.1);
                lemma_least_is(m, rs, cost, u, w, b);
            }
        },
        (None, Some(c)) => {
            assert forall|j: int, p: int|
                0 <= j < w.len() && 0 <= p <= rs[w[j] as int].len() implies (#[trigger] ins_cost_r(
                m,
                rs,
                u,
                w[j] as int,
                p,
            ) matches Some(x) ==> ins_le(c, x - cost[w[j] as int], w[j] as int, p)) by {
                if j < vs.len() {
                    assert(w[j] == vs[j]);
                    assert(ins_cost_r(m, rs, u, vs[j] as int, p) is None);
                } else {
                    assert(ins_cost_r(m, rs, u, one[0] as int, p) matches Some(x) ==> ins_le(
                        c,
                        x - cost[one[0] as int],
                        one[0] as int,
                        p,
                    ));
                }
            }
            assert(w.contains(c.1));
            lemma_least_is(m, rs, cost, u, w, c);
        },
        (Some(b), None) => {
            let jb = choose|j: int| 0 <= j < vs.len() && vs[j] == b.1;
            assert forall|j: int, p: int|
                0 <= j < w.len() && 0 <= p <= rs[w[j] as int].len() implies (#[trigger] ins_cost_r(
                m,
                rs,
                u,
                w[j] as int,
                p,
            ) matches Some(x) ==> ins_le(b, x - cost[w[j] as int], w[j] as int, p)) by {
                if j < vs.len() {
                    assert(w[j] == vs[j]);
                    assert(ins_cost_r(m, rs, u, vs[j] as int, p) matches Some(x) ==> ins_le(
                        b,
                        x - cost[vs[j] as int],
                        vs[j] as int,
                        p,
                    ));
                } else {
                    assert(ins_cost_r(m, rs, u, one[0] as int, p) is None);
                }
            }
            assert(w[jb] == b.1);
            lemma_least_is(m, rs, cost, u, w, b);
        },
        (None, None) => {
            assert forall|j: int, p: int|
                0 <= j < w.len() && 0 <= p <= rs[w[j] as int].len() implies (#[trigger] ins_cost_r(
                m,
                rs,
                u,
                w[j] as int,
                p,
            )) is None by {
                if j < vs.len() {
                    assert(w[j] == vs[j]);
                    assert(ins_cost_r(m, rs, u, vs[j] as int, p) is None);
                } else {
                    assert(ins_cost_r(m, rs, u, one[0] as int, p) is None);
                }
            }
            lemma_least_none(m, rs, cost, u, w);
        },
    }
}

/// `least` names a first insertion whenever it names one.
pub(crate) proof fn lemma_least_is_some(m: &Model, rs: Seq<Seq<NodeId>>, cost: Seq<i64>, u: NodeId, vs: Seq<usize>)
    requires
        least(m, rs, cost, u, vs) is Some,
    ensures
        least_among(m, rs, cost, u, vs, least(m, rs, cost, u, vs)->0),
{
}

/// Entry `a` orders before entry `b`: by delta, then node index.
pub open spec fn kb(a: (Insertion, usize), b: (Insertion, usize)) -> bool {
    a.0.0 < b.0.0 || (a.0.0 == b.0.0 && a.1 < b.1)
}

/// How many of the first `n` entries of `r` order before `x`.
pub open spec fn count_before(r: Seq<(Insertion, usize)>, x: (Insertion, usize), n: nat) -> nat
    decreases n,
{
    if n == 0 {
        0
    } else {
        count_before(r, x, (n - 1) as nat) + if kb(r[n - 1], x) {
            1nat
        } else {
            0nat
        }
    }
}

/// No two entries name the same node.
pub open spec fn distinct_nodes(r: Seq<(Insertion, usize)>) -> bool {
    forall|a: int, b: int| 0 <= a < b < r.len() ==> #[trigger] r[a].1 != #[trigger] r[b].1
}

/// Entry `e` is the `j`-th smallest of `r`.
pub open spec fn has_rank(r: Seq<(Insertion, usize)>, e: int, j: int) -> bool {
    0 <= e < r.len() && count_before(r, r[e], r.len()) == j
}

/// The entry of rank `j`.
pub open spec fn pick(r: Seq<(Insertion, usize)>, j: int) -> int {
    choose|e: int| has_rank(r, e, j)
}

/// Nothing before `x` among the first `n`: `x` ranks first there.
pub(crate) proof fn lemma_count_none(r: Seq<(Insertion, usize)>, x: (Insertion, usize), n: nat)
    requires
        n <= r.len(),
        forall|e: int| 0 <= e < n ==> !kb(#[trigger] r[e], x),
    ensures
        count_before(r, x, n) == 0,
    decreases n,
{
    if n > 0 {
        lemma_count_none(r, x, (n - 1) as nat);
    }
}

/// Entries before `x` are those before `y` and entry `c`.
pub(crate) proof fn lemma_count_next(
    r: Seq<(Insertion, usize)>,
    x: (Insertion, usize),
    y: (Insertion, usize),
    c: int,
    n: nat,
)
    requires
        n <= r.len(),
        0 <= c,
        !kb(r[c], y),
        forall|e: int| 0 <= e < n ==> (kb(#[trigger] r[e], x) <==> (kb(r[e], y) || e == c)),
    ensures
        count_before(r, x, n) == count_before(r, y, n) + if c < n {
            1int
        } else {
            0int
        },
    decreases n,
{
    if n > 0 {
        lemma_count_next(r, x, y, c, (n - 1) as nat);
    }
}

/// Everything else orders before `x`, entry `c` excepted.
pub(crate) proof fn lemma_count_all(r: Seq<(Insertion, usize)>, x: (Insertion, usize), c: int, n: nat)
    requires
        n <= r.len(),
        0 <= c < r.len(),
        !kb(r[c], x),
        forall|e: int| 0 <= e < n && e != c ==> kb(#[trigger] r[e], x),
    ensures
        count_before(r, x, n) == n - if c < n {
            1int
        } else {
            0int
        },
    decreases n,
{
    if n > 0 {
        lemma_count_all(r, x, c, (n - 1) as nat);
    }
}

/// An entry ordering before another has fewer entries before it.
pub(crate) proof fn lemma_count_strict(r: Seq<(Insertion, usize)>, a: int, b: int, n: nat)
    requires
        n <= r.len(),
        0 <= a < n,
        0 <= b < r.len(),
        kb(r[a], r[b]),
    ensures
        count_before(r, r[a], n) < count_before(r, r[b], n),
    decreases n,
{
    if n - 1 > a {
        lemma_count_strict(r, a, b, (n - 1) as nat);
    } else {
        lemma_count_le(r, r[a], r[b], (n - 1) as nat);
    }
}

/// Whatever orders before `x` orders before `y` too.
pub(crate) proof fn lemma_count_le(r: Seq<(Insertion, usize)>, x: (Insertion, usize), y: (Insertion, usize), n: nat)
    requires
        n <= r.len(),
        !kb(y, x),
    ensures
        count_before(r, x, n) <= count_before(r, y, n),
    decreases n,
{
    if n > 0 {
        lemma_count_le(r, x, y, (n - 1) as nat);
    }
}

/// With node indices distinct, one entry has each rank.
pub proof fn lemma_rank_unique(r: Seq<(Insertion, usize)>, e1: int, e2: int, j: int)
    requires
        distinct_nodes(r),
        has_rank(r, e1, j),
        has_rank(r, e2, j),
    ensures
        e1 == e2,
{
    if e1 != e2 {
        assert(r[e1].1 != r[e2].1) by {
            if e1 < e2 {
            } else {
            }
        }
        if kb(r[e1], r[e2]) {
            lemma_count_strict(r, e1, e2, r.len());
        } else {
            lemma_count_strict(r, e2, e1, r.len());
        }
    }
}

/// Entry `q` of `r` is a candidate after entry `after`.
pub open spec fn eligible(r: Seq<(Insertion, usize)>, after: Option<usize>, q: int) -> bool {
    match after {
        Some(c) => kb(r[c as int], r[q]),
        None => true,
    }
}

/// `found` names an entry no later than entry `q`.
pub open spec fn no_later(r: Seq<(Insertion, usize)>, found: Option<usize>, q: int) -> bool {
    match found {
        Some(f) => !kb(r[q], r[f as int]),
        None => false,
    }
}


/// Routes in use among the first `k`, in vehicle order.
pub open spec fn used_v(rs: Seq<Seq<NodeId>>, k: nat) -> Seq<usize>
    decreases k,
{
    if k == 0 {
        Seq::empty()
    } else {
        used_v(rs, (k - 1) as nat) + if rs[k - 1].len() > 0 {
            seq![(k - 1) as usize]
        } else {
            Seq::empty()
        }
    }
}

/// The first empty route among the first `k`.
pub open spec fn first_empty_v(rs: Seq<Seq<NodeId>>, k: nat) -> Option<usize>
    decreases k,
{
    if k == 0 {
        None
    } else {
        match first_empty_v(rs, (k - 1) as nat) {
            Some(e) => Some(e),
            None => if rs[k - 1].len() == 0 {
                Some((k - 1) as usize)
            } else {
                None
            },
        }
    }
}

/// The vehicles offered an insertion: every route in use, one empty route,
/// and the drop sink.
pub open spec fn cand_v(m: &Model, rs: Seq<Seq<NodeId>>) -> Seq<usize> {
    let base = used_v(rs, rs.len()) + match first_empty_v(rs, rs.len()) {
        Some(e) => seq![e],
        None => Seq::empty(),
    };
    match m.sink() {
        Some(u) => if base.contains(u.0 as usize) {
            base
        } else {
            base.push(u.0 as usize)
        },
        None => base,
    }
}

/// The routes in use.
pub open spec fn used_all(rs: Seq<Seq<NodeId>>) -> Seq<usize> {
    used_v(rs, rs.len())
}

/// The empty vehicles offered an insertion.
pub open spec fn empties(m: &Model, rs: Seq<Seq<NodeId>>) -> Seq<usize> {
    cand_v(m, rs).subrange(used_all(rs).len() as int, cand_v(m, rs).len() as int)
}

pub(crate) proof fn lemma_used_views(sol: Seq<Vec<NodeId>>, k: nat)
    requires
        k <= sol.len(),
    ensures
        used_upto(sol, k) == used_v(views(sol), k),
        first_empty(sol, k) == first_empty_v(views(sol), k),
    decreases k,
{
    if k > 0 {
        lemma_used_views(sol, (k - 1) as nat);
        assert(views(sol)[k - 1] == sol[k - 1]@);
    }
}

/// The candidates read off the routes' contents alone.
pub(crate) proof fn lemma_cand_views(m: &Model, sol: Seq<Vec<NodeId>>)
    ensures
        cand_spec(m, sol) == cand_v(m, views(sol)),
{
    lemma_used_views(sol, sol.len());
}

/// The used routes: each in use, below `k`, in increasing order, and none
/// missing.
pub(crate) proof fn lemma_used_facts(rs: Seq<Seq<NodeId>>, k: nat)
    requires
        k <= rs.len(),
        rs.len() <= usize::MAX,
    ensures
        ascending(used_v(rs, k)),
        forall|i: int|
            0 <= i < used_v(rs, k).len() ==> (#[trigger] used_v(rs, k)[i] as int) < k && rs[used_v(
                rs,
                k,
            )[i] as int].len() > 0,
        forall|v: usize| (v as int) < k && rs[v as int].len() > 0 ==> #[trigger] used_v(rs, k).contains(v),
        first_empty_v(rs, k) matches Some(e) ==> (e as int) < k && rs[e as int].len() == 0 && forall|
            v: int,
        | 0 <= v < e ==> #[trigger] rs[v].len() > 0,
        first_empty_v(rs, k) is None ==> forall|v: int| 0 <= v < k ==> #[trigger] rs[v].len() > 0,
    decreases k,
{
    if k > 0 {
        lemma_used_facts(rs, (k - 1) as nat);
        let prev = used_v(rs, (k - 1) as nat);
        let cur = used_v(rs, k);
        assert(((k - 1) as usize) as int == k - 1);
        assert forall|i: int| 0 <= i < prev.len() implies #[trigger] cur[i] == prev[i] by {}
        if rs[k - 1].len() > 0 {
            assert(cur[prev.len() as int] == (k - 1) as usize);
            assert(cur.len() == prev.len() + 1);
        } else {
            assert(cur =~= prev);
        }
        assert forall|i: int| 0 <= i < cur.len() implies (#[trigger] cur[i] as int) < k && rs[cur[i] as int].len() > 0 by {
            if i < prev.len() {
                assert(cur[i] == prev[i]);
            }
        }
        assert forall|v: usize| (v as int) < k && rs[v as int].len() > 0 implies #[trigger] cur.contains(v) by {
            if (v as int) < k - 1 {
                assert(prev.contains(v));
                let i = choose|i: int| 0 <= i < prev.len() && prev[i] == v;
                assert(cur[i] == v);
            } else {
                assert(cur[prev.len() as int] == v);
            }
        }
        assert forall|a: int, b: int| 0 <= a < b < cur.len() implies #[trigger] cur[a] < #[trigger] cur[b] by {
            if b < prev.len() {
                assert(prev[a] < prev[b]);
            } else {
                assert(cur[a] == prev[a]);
                assert((prev[a] as int) < k - 1);
            }
        }
    }
}

/// How the candidates split: the used routes first, in order, then at most
/// two empty ones, in increasing order.
pub(crate) proof fn lemma_cand_split(m: &Model, rs: Seq<Seq<NodeId>>)
    requires
        rs.len() <= usize::MAX,
        m.sink() matches Some(s) ==> (s.0 as int) < rs.len(),
    ensures
        cand_v(m, rs).subrange(0, used_all(rs).len() as int) == used_all(rs),
        used_all(rs).len() <= cand_v(m, rs).len(),
        ascending(empties(m, rs)),
        forall|j: int|
            used_all(rs).len() <= j < cand_v(m, rs).len() ==> rs[#[trigger] cand_v(m, rs)[j] as int].len()
                == 0,
        forall|j: int| 0 <= j < cand_v(m, rs).len() ==> (#[trigger] cand_v(m, rs)[j] as int) < rs.len(),
{
    let us = used_all(rs);
    let fe = first_empty_v(rs, rs.len());
    lemma_used_facts(rs, rs.len());
    let base = us + match fe {
        Some(e) => seq![e],
        None => Seq::empty(),
    };
    let c = cand_v(m, rs);
    assert(base.subrange(0, us.len() as int) =~= us);
    assert forall|j: int| 0 <= j < us.len() implies #[trigger] c[j] == us[j] by {
        assert(base[j] == us[j]);
    }
    assert(c.subrange(0, us.len() as int) =~= us);
    match m.sink() {
        Some(s) => {
            if !base.contains(s.0 as usize) {
                let su = s.0 as usize;
                // Not in use, so the sink's route is empty; some route is,
                // and the first empty one comes before it.
                if rs[su as int].len() > 0 {
                    assert(us.contains(su));
                    let i = choose|i: int| 0 <= i < us.len() && us[i] == su;
                    assert(base[i] == su);
                }
                if fe is None {
                    assert(rs[su as int].len() > 0);
                }
                assert(fe->0 < su) by {
                    assert(base[us.len() as int] == fe->0);
                }
            }
        },
        None => {},
    }
}

/// The nodes a complete solution visits, among the first `x`, in id order.
pub open spec fn pending_upto(m: &Model, x: nat) -> Seq<NodeId>
    decreases x,
{
    if x == 0 {
        Seq::empty()
    } else {
        pending_upto(m, (x - 1) as nat) + if !m.is_terminal_spec(NodeId((x - 1) as u32)) {
            seq![NodeId((x - 1) as u32)]
        } else {
            Seq::empty()
        }
    }
}

/// A node's pick between its first insertion into a used route and into an
/// empty one: the empty route wins only by a strictly smaller delta.
pub open spec fn combine(b: Option<Insertion>, f: Option<Insertion>) -> Option<Insertion> {
    match (b, f) {
        (Some(x), Some(y)) => if y.0 < x.0 {
            Some(y)
        } else {
            Some(x)
        },
        (Some(x), None) => Some(x),
        (None, y) => y,
    }
}

/// The insertion node `u` is ranked by.
pub open spec fn node_best(m: &Model, rs: Seq<Seq<NodeId>>, cost: Seq<i64>, u: NodeId) -> Option<
    Insertion,
> {
    combine(least(m, rs, cost, u, used_all(rs)), least(m, rs, cost, u, empties(m, rs)))
}

/// The ranking of the first `n` pending nodes: each that fits somewhere,
/// with its insertion and its position in `un`.
pub open spec fn ranked_upto(
    m: &Model,
    rs: Seq<Seq<NodeId>>,
    cost: Seq<i64>,
    un: Seq<NodeId>,
    n: nat,
) -> Seq<(Insertion, usize)>
    decreases n,
{
    if n == 0 {
        Seq::empty()
    } else {
        ranked_upto(m, rs, cost, un, (n - 1) as nat) + match node_best(m, rs, cost, un[n - 1]) {
            Some(c) => seq![(c, (n - 1) as usize)],
            None => Seq::empty(),
        }
    }
}

/// Vehicles `0..nv`.
pub open spec fn all_v(nv: nat) -> Seq<usize> {
    Seq::new(nv, |i: int| i as usize)
}

/// The ranking of the first `n` pending nodes against every vehicle.
pub open spec fn wide_upto(
    m: &Model,
    rs: Seq<Seq<NodeId>>,
    cost: Seq<i64>,
    un: Seq<NodeId>,
    n: nat,
) -> Seq<(Insertion, usize)>
    decreases n,
{
    if n == 0 {
        Seq::empty()
    } else {
        wide_upto(m, rs, cost, un, (n - 1) as nat) + match least(m, rs, cost, un[n - 1], all_v(rs.len())) {
            Some(c) => seq![(c, (n - 1) as usize)],
            None => Seq::empty(),
        }
    }
}

/// What a cached insertion `b` for node `u` still tells: with no route
/// changed, it is the first insertion on the used routes; after route `t`
/// grew, it orders no later than any insertion on the other used routes,
/// and off route `t` it is one of them.
pub open spec fn cache_exact(
    m: &Model,
    rs: Seq<Seq<NodeId>>,
    cost: Seq<i64>,
    u: NodeId,
    b: Option<Insertion>,
    changed: Option<usize>,
) -> bool {
    let us = used_all(rs);
    match changed {
        None => b == least(m, rs, cost, u, us) && (b is None ==> nowhere_r(m, rs, u, us)),
        Some(t) => {
            &&& (t as int) < rs.len()
            &&& rs[t as int].len() > 0
            &&& forall|j: int, p: int|
                0 <= j < us.len() && us[j] != t && 0 <= p <= rs[us[j] as int].len() ==> (
                #[trigger] ins_cost_r(m, rs, u, us[j] as int, p) matches Some(c) ==> (b matches Some(h)
                    && ins_le(h, c - cost[us[j] as int], us[j] as int, p)))
            &&& (b matches Some(h) ==> (h.1 != t ==> us.contains(h.1) && h.2 <= rs[h.1 as int].len()
                && ins_cost_r(m, rs, u, h.1 as int, h.2 as int) == Some(cost[h.1 as int] + h.0)))
        },
    }
}


/// `a` orders strictly before `b`: by delta, then vehicle, then position.
pub open spec fn ins_lt_spec(a: Insertion, b: Insertion) -> bool {
    a.0 < b.0 || (a.0 == b.0 && (a.1 < b.1 || (a.1 == b.1 && a.2 < b.2)))
}

/// The cached insertion `held` brought up to date with `fresh`, the first
/// insertion on the route `t` that grew; `None` where only a full rescan
/// can tell.
pub open spec fn cache_next(held: Option<Insertion>, fresh: Option<Insertion>, t: usize) -> Option<
    Option<Insertion>,
> {
    match held {
        Some(h) => if h.1 == t {
            match fresh {
                Some(c) => if c.0 <= h.0 {
                    Some(Some(c))
                } else {
                    None
                },
                None => None,
            }
        } else {
            match fresh {
                Some(c) => if ins_lt_spec(c, h) {
                    Some(Some(c))
                } else {
                    Some(held)
                },
                None => Some(held),
            }
        },
        None => Some(fresh),
    }
}

/// Updating a cached insertion against the one route that grew gives the
/// first insertion on every used route, whenever it needs no rescan.
pub(crate) proof fn lemma_cache_step(
    m: &Model,
    rs: Seq<Seq<NodeId>>,
    cost: Seq<i64>,
    u: NodeId,
    t: usize,
    held: Option<Insertion>,
    fresh: Option<Insertion>,
)
    requires
        rs.len() <= usize::MAX,
        cache_exact(m, rs, cost, u, held, Some(t)),
        fresh == least(m, rs, cost, u, seq![t]),
        fresh is None ==> nowhere_r(m, rs, u, seq![t]),
    ensures
        cache_next(held, fresh, t) matches Some(x) ==> x == least(m, rs, cost, u, used_all(rs)) && (x is None
            ==> nowhere_r(m, rs, u, used_all(rs))),
{
    let us = used_all(rs);
    let one = seq![t];
    assert(one[0] == t);
    lemma_used_facts(rs, rs.len());
    assert(us.contains(t));
    if let Some(c) = fresh {
        lemma_least_is_some(m, rs, cost, u, one);
    }
    match cache_next(held, fresh, t) {
        Some(Some(x)) => {
            assert forall|j: int, p: int|
                0 <= j < us.len() && 0 <= p <= rs[us[j] as int].len() implies (#[trigger] ins_cost_r(
                m,
                rs,
                u,
                us[j] as int,
                p,
            ) matches Some(c) ==> ins_le(x, c - cost[us[j] as int], us[j] as int, p)) by {
                if us[j] == t {
                    if fresh is Some {
                        assert(ins_cost_r(m, rs, u, one[0] as int, p) matches Some(c) ==> ins_le(
                            fresh->0,
                            c - cost[one[0] as int],
                            one[0] as int,
                            p,
                        ));
                    } else {
                        assert(ins_cost_r(m, rs, u, one[0] as int, p) is None);
                    }
                }
            }
            if x.1 == t {
                assert(fresh == Some(x));
            }
            lemma_least_is(m, rs, cost, u, us, x);
        },
        Some(None) => {
            assert forall|j: int, p: int|
                0 <= j < us.len() && 0 <= p <= rs[us[j] as int].len() implies (#[trigger] ins_cost_r(
                m,
                rs,
                u,
                us[j] as int,
                p,
            )) is None by {
                if us[j] == t {
                    assert(ins_cost_r(m, rs, u, one[0] as int, p) is None);
                }
            }
            lemma_least_none(m, rs, cost, u, us);
        },
        None => {},
    }
}

/// After an insertion grows route `t` and leaves every other route and its
/// cost alone, a first insertion on the used routes from before still
/// bounds every insertion off route `t`.
pub(crate) proof fn lemma_exact_after(
    m: &Model,
    rs0: Seq<Seq<NodeId>>,
    cost0: Seq<i64>,
    rs1: Seq<Seq<NodeId>>,
    cost1: Seq<i64>,
    t: usize,
    u: NodeId,
    b: Option<Insertion>,
)
    requires
        rs0.len() <= usize::MAX,
        rs1.len() == rs0.len(),
        cost1.len() == cost0.len(),
        (t as int) < rs0.len(),
        rs1[t as int].len() > 0,
        forall|w: int| 0 <= w < rs0.len() && w != t ==> #[trigger] rs1[w] == rs0[w] && cost1[w] == cost0[w],
        cache_exact(m, rs0, cost0, u, b, None),
    ensures
        cache_exact(m, rs1, cost1, u, b, Some(t)),
{
    let us0 = used_all(rs0);
    let us1 = used_all(rs1);
    lemma_used_facts(rs0, rs0.len());
    lemma_used_facts(rs1, rs1.len());
    if let Some(h) = b {
        lemma_least_is_some(m, rs0, cost0, u, us0);
    }
    assert forall|j: int, p: int|
        0 <= j < us1.len() && us1[j] != t && 0 <= p <= rs1[us1[j] as int].len() implies (
        #[trigger] ins_cost_r(m, rs1, u, us1[j] as int, p) matches Some(c) ==> (b matches Some(h)
            && ins_le(h, c - cost1[us1[j] as int], us1[j] as int, p))) by {
        let v = us1[j];
        assert(rs1[v as int] == rs0[v as int]);
        assert(us0.contains(v));
        let j0 = choose|j0: int| 0 <= j0 < us0.len() && us0[j0] == v;
        assert(ins_cost_r(m, rs1, u, v as int, p) == ins_cost_r(m, rs0, u, us0[j0] as int, p));
    }
    if let Some(h) = b {
        if h.1 != t {
            let j0 = choose|j0: int| 0 <= j0 < us0.len() && us0[j0] == h.1;
            assert(rs1[h.1 as int] == rs0[h.1 as int]);
            assert(us1.contains(h.1));
            assert(ins_cost_r(m, rs1, u, h.1 as int, h.2 as int) == ins_cost_r(m, rs0, u, h.1 as int, h.2 as int));
        }
    }
}
/// The state after one draw.
pub open spec fn mix_step(s: u64) -> u64 {
    vstd::wrapping::u64_specs::wrapping_add(s, 0x9E37_79B9_7F4A_7C15u64)
}

/// The number a draw hands out from state `z`.
pub open spec fn mix_out(z: u64) -> u64 {
    let a = vstd::wrapping::u64_specs::wrapping_mul(z ^ (z >> 30u64), 0xBF58_476D_1CE4_E5B9u64);
    let b = vstd::wrapping::u64_specs::wrapping_mul(a ^ (a >> 27u64), 0x94D0_49BB_1331_11EBu64);
    b ^ (b >> 31u64)
}

/// A construction between steps: the routes so far, their costs, the nodes
/// still to place in the order they are scanned, and the draw state.
pub struct Build {
    pub rs: Seq<Seq<NodeId>>,
    pub cost: Seq<i64>,
    pub un: Seq<NodeId>,
    pub rng: u64,
}

/// The entries a step draws from: each pending node's insertion on the
/// vehicles on offer, or, where none fits there, on every vehicle.
pub open spec fn ranking(m: &Model, st: Build) -> Seq<(Insertion, usize)> {
    let narrow = ranked_upto(m, st.rs, st.cost, st.un, st.un.len());
    if narrow.len() == 0 && cand_v(m, st.rs).len() < st.rs.len() {
        wide_upto(m, st.rs, st.cost, st.un, st.un.len())
    } else {
        narrow
    }
}

/// The first node of `un` from position `i` on that every vehicle forbids.
pub open spec fn first_forbidden(m: &Model, un: Seq<NodeId>, i: nat) -> Option<NodeId>
    decreases un.len() - i,
{
    if i >= un.len() {
        None
    } else if forbidden_all(m, un[i as int]) {
        Some(un[i as int])
    } else {
        first_forbidden(m, un, i + 1)
    }
}

/// How many of the cheapest entries a draw picks among.
pub open spec fn width(k: usize, n: nat) -> nat {
    if k < 1 {
        1
    } else if k > n {
        n
    } else {
        k as nat
    }
}

/// One step: draw a rank among the `k` cheapest entries, insert that entry's
/// node where it says, and drop the node from the pending list by moving
/// the last one into its place. With no entry, why the construction stops.
pub open spec fn step(m: &Model, k: usize, st: Build) -> Result<Build, SolveError> {
    let r = ranking(m, st);
    if r.len() == 0 {
        match first_forbidden(m, st.un, 0) {
            Some(x) => Err(SolveError::Unroutable(x)),
            None => Err(SolveError::NoFeasibleInsertion),
        }
    } else {
        let rng = mix_step(st.rng);
        let j = (mix_out(rng) as int) % (width(k, r.len()) as int);
        let (ins, ui) = r[pick(r, j)];
        let v = ins.1 as int;
        let node = st.un[ui as int];
        Ok(
            Build {
                rs: st.rs.update(v, splice(st.rs[v], ins.2 as int, ins.2 as int, seq![node])),
                cost: st.cost.update(v, (st.cost[v] + ins.0) as i64),
                un: st.un.update(ui as int, st.un.last()).drop_last(),
                rng,
            },
        )
    }
}

/// Steps until every node is placed or a step cannot place one.
pub open spec fn run(m: &Model, k: usize, st: Build) -> Result<Seq<Seq<NodeId>>, SolveError>
    decreases st.un.len(),
{
    if st.un.len() == 0 {
        Ok(st.rs)
    } else {
        match step(m, k, st) {
            Ok(next) => if next.un.len() < st.un.len() {
                run(m, k, next)
            } else {
                Ok(next.rs)
            },
            Err(e) => Err(e),
        }
    }
}

/// The start: every route empty and free, every node to visit pending in id
/// order, the draw state at `seed`.
pub open spec fn start(m: &Model, seed: u64) -> Build {
    Build {
        rs: Seq::new(m.fleet().len(), |i: int| Seq::<NodeId>::empty()),
        cost: Seq::new(m.fleet().len(), |i: int| 0i64),
        un: pending_upto(m, m.n()),
        rng: seed,
    }
}

/// What insertion of width `k` from `seed` builds.
pub open spec fn built_by(m: &Model, k: usize, seed: u64) -> Result<Seq<Seq<NodeId>>, SolveError> {
    run(m, k, start(m, seed))
}

/// A width-one step reads nothing of the draw state but to advance it.
proof fn lemma_narrow_run(m: &Model, st: Build, other: u64)
    ensures
        run(m, 1, st) == run(m, 1, Build { rng: other, ..st }),
    decreases st.un.len(),
{
    let st2 = Build { rng: other, ..st };
    if st.un.len() > 0 {
        let r = ranking(m, st);
        assert(ranking(m, st2) == r);
        if r.len() > 0 {
            let w = width(1, r.len());
            assert(w == 1);
            assert((mix_out(mix_step(st.rng)) as int) % 1 == 0);
            assert((mix_out(mix_step(other)) as int) % 1 == 0);
            match step(m, 1, st) {
                Ok(next) => {
                    let next2 = step(m, 1, st2)->Ok_0;
                    assert(next2 == Build { rng: next2.rng, ..next });
                    if next.un.len() < st.un.len() {
                        lemma_narrow_run(m, next, next2.rng);
                    }
                },
                Err(_) => {},
            }
        }
    }
}

/// Width one is cheapest insertion: whatever the seed, it builds what a
/// seed of zero builds.
pub proof fn lemma_width_one_ignores_seed(m: &Model, seed: u64)
    ensures
        built_by(m, 1, seed) == built_by(m, 1, 0),
{
    lemma_narrow_run(m, start(m, seed), 0);
    assert(Build { rng: 0, ..start(m, seed) } == start(m, 0));
}

} // verus!
