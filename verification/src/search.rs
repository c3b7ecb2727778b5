//! The search context: the state a running solve owns.

use std::collections::HashMap;
use std::ops::Range;

use vstd::prelude::*;

use crate::eval::{cost_spec, eval_route, prev_of, route_input, route_valid, stop_of};
use crate::model::Model;
use crate::types::{Cost, NodeId, VehicleId, add_checked, fits, opt_int};

verus! {

broadcast use vstd::std_specs::hash::group_hash_axioms;

/// Arcs are penalized as unordered pairs, packed into one `u64`: the smaller
/// id in the high half. 2-opt reverses whole segments, so a directed key
/// would make a reversal silently change the penalty it carries.
pub open spec fn arc_key_spec(a: NodeId, b: NodeId) -> u64 {
    if a.0 <= b.0 {
        ((a.0 as u64) << 32u64) | (b.0 as u64)
    } else {
        ((b.0 as u64) << 32u64) | (a.0 as u64)
    }
}

/// `{a, b}` and `{c, d}` are the same unordered pair.
pub open spec fn same_arc(a: NodeId, b: NodeId, c: NodeId, d: NodeId) -> bool {
    (a == c && b == d) || (a == d && b == c)
}

proof fn lemma_pack_injective(a: u32, b: u32, c: u32, d: u32)
    by (bit_vector)
    ensures
        (((a as u64) << 32u64) | (b as u64)) == (((c as u64) << 32u64) | (d as u64)) <==> (a == c
            && b == d),
{
}

/// Arcs are penalized as unordered pairs: two arcs share a penalty exactly
/// when they join the same two nodes.
pub proof fn lemma_arc_key(a: NodeId, b: NodeId, c: NodeId, d: NodeId)
    ensures
        arc_key_spec(a, b) == arc_key_spec(c, d) <==> same_arc(a, b, c, d),
{
    let (lo1, hi1) = if a.0 <= b.0 {
        (a.0, b.0)
    } else {
        (b.0, a.0)
    };
    let (lo2, hi2) = if c.0 <= d.0 {
        (c.0, d.0)
    } else {
        (d.0, c.0)
    };
    lemma_pack_injective(lo1, hi1, lo2, hi2);
}

fn arc_key(a: NodeId, b: NodeId) -> (r: u64)
    ensures
        r == arc_key_spec(a, b),
{
    if a.0 <= b.0 {
        ((a.0 as u64) << 32u64) | (b.0 as u64)
    } else {
        ((b.0 as u64) << 32u64) | (a.0 as u64)
    }
}

/// A solve in progress, bound to the model it is solving.
///
/// One per solve, per thread. It holds the objective the operators minimize
/// and the buffer moves are built in. Nothing here is shared, so one model
/// still backs any number of concurrent solves.
///
/// [`eval`](Self::eval) prices a route, [`eval_splice`](Self::eval_splice)
/// prices one with a stretch replaced, and [`arc`](Self::arc) prices a single
/// arc. Between them they are everything an operator needs.
pub struct Search<'m> {
    m: &'m Model,
    lambda: Cost,
    penalties: HashMap<u64, Cost>,
    buf: Vec<NodeId>,
}

impl<'m> Search<'m> {
    pub closed spec fn model_spec(&self) -> &'m Model {
        self.m
    }

    /// Weight of one penalty, in arc-cost units.
    pub closed spec fn lambda_spec(&self) -> int {
        self.lambda as int
    }

    /// Penalty counts by packed arc key.
    pub closed spec fn pen_map(&self) -> Map<u64, i64> {
        self.penalties@
    }

    /// The route the last `eval_splice` priced.
    pub closed spec fn spliced_spec(&self) -> Seq<NodeId> {
        self.buf@
    }

    /// How many times arc `{a, b}` has been penalized.
    pub open spec fn pen(&self, a: NodeId, b: NodeId) -> int {
        if self.pen_map().contains_key(arc_key_spec(a, b)) {
            self.pen_map()[arc_key_spec(a, b)] as int
        } else {
            0
        }
    }

    /// Penalties on the first `k` arcs of `route` on `v`, summed; `None`
    /// once the sum leaves `i64`.
    pub open spec fn pens_upto(&self, route: Seq<NodeId>, v: VehicleId, k: nat) -> Option<int>
        decreases k,
    {
        let veh = self.model_spec().fleet()[v.0 as int];
        if k == 0 {
            Some(0)
        } else {
            add_checked(
                self.pens_upto(route, v, (k - 1) as nat),
                self.pen(prev_of(route, veh, k - 1), stop_of(route, veh, k - 1)),
            )
        }
    }

    /// Cost of `route` on `v` under the objective in force: true cost plus
    /// `lambda` per penalty on its arcs. An empty route is free.
    pub open spec fn objective(&self, route: Seq<NodeId>, v: VehicleId) -> Option<int> {
        if route.len() == 0 {
            Some(0)
        } else {
            match (
                cost_spec(self.model_spec(), route, v),
                self.pens_upto(route, v, route.len() + 1),
            ) {
                (Some(c), Some(p)) => if fits(self.lambda_spec() * p) && fits(
                    c + self.lambda_spec() * p,
                ) {
                    Some(c + self.lambda_spec() * p)
                } else {
                    None
                },
                _ => None,
            }
        }
    }

    /// No arc carries a negative penalty count.
    pub open spec fn pens_nonneg(&self) -> bool {
        forall|k: u64| #[trigger] self.pen_map().contains_key(k) ==> self.pen_map()[k] >= 0
    }

    /// Cost of arc `a -> b` in table `class` under the objective in force.
    pub open spec fn arc_obj(&self, class: int, a: NodeId, b: NodeId) -> int {
        self.model_spec().arc_spec(class, a, b) + self.lambda_spec() * self.pen(a, b)
    }

    /// The objective and the model are those of `o`.
    pub open spec fn same_objective(&self, o: &Self) -> bool {
        &&& self.model_spec() == o.model_spec()
        &&& self.lambda_spec() == o.lambda_spec()
        &&& self.pen_map() == o.pen_map()
    }

    /// Allocates nothing the model does not ask for, so one per restart is
    /// cheap.
    pub fn new(m: &'m Model) -> (s: Self)
        ensures
            s.model_spec() == m,
            s.lambda_spec() == 0,
            s.pen_map() == Map::<u64, i64>::empty(),
            s.pens_nonneg(),
            s.spliced_spec() == Seq::<NodeId>::empty(),
    {
        Search { m, lambda: 0, penalties: HashMap::new(), buf: Vec::new() }
    }

    /// The model, borrowed from it rather than from `self`, so a vehicle or
    /// dimension read from here stays live across an `&mut self` call.
    pub fn model(&self) -> (r: &'m Model)
        ensures
            r == self.model_spec(),
    {
        self.m
    }

    /// Cost of `route` on `v` under the current objective, or `None` if it
    /// is infeasible.
    pub fn eval(&self, route: &[NodeId], v: VehicleId) -> (r: Option<Cost>)
        requires
            route_input(self.model_spec(), route@, v),
        ensures
            opt_int(r) == self.objective(route@, v),
    {
        if route.len() == 0 {
            return Some(0);
        }
        let base = match eval_route(self.m, route, v) {
            Some(c) => c,
            None => return None,
        };
        let m = self.m;
        let veh = m.vehicle(v);
        let mut extra: i64 = 0;
        let mut prev = veh.start;
        let mut k: usize = 0;
        while k < route.len()
            invariant
                route_input(self.model_spec(), route@, v),
                route@.len() > 0,
                m == self.model_spec(),
                *veh == m.fleet()[v.0 as int],
                k <= route@.len(),
                prev == prev_of(route@, *veh, k as int),
                self.pens_upto(route@, v, k as nat) == Some(extra as int),
            decreases route@.len() - k,
        {
            let node = route[k];
            extra = match extra.checked_add(self.penalty(prev, node)) {
                Some(e) => e,
                None => {
                    proof {
                        self.lemma_pens_frozen(route@, v, (k + 1) as nat, route@.len() + 1);
                    }
                    return None;
                },
            };
            prev = node;
            k += 1;
        }
        extra = match extra.checked_add(self.penalty(prev, veh.end)) {
            Some(e) => e,
            None => return None,
        };
        match self.lambda.checked_mul(extra) {
            Some(x) => base.checked_add(x),
            None => None,
        }
    }

    proof fn lemma_pens_frozen(&self, route: Seq<NodeId>, v: VehicleId, k1: nat, k2: nat)
        requires
            k1 <= k2,
            self.pens_upto(route, v, k1) is None,
        ensures
            self.pens_upto(route, v, k2) is None,
        decreases k2,
    {
        if k2 > k1 {
            self.lemma_pens_frozen(route, v, k1, (k2 - 1) as nat);
        }
    }

    /// [`eval`](Self::eval) of `route` with `route[range]` replaced by
    /// `repl`, without the caller allocating. The route priced is kept for
    /// [`spliced`](Self::spliced).
    ///
    /// Every move is this shape: an insertion replaces nothing, a removal
    /// replaces a stretch with nothing, a segment move or a tail trade
    /// replaces one stretch with another.
    pub fn eval_splice(
        &mut self,
        route: &[NodeId],
        range: Range<usize>,
        repl: &[NodeId],
        v: VehicleId,
    ) -> (r: Option<Cost>)
        requires
            range.start <= range.end <= route@.len(),
            route_input(
                old(self).model_spec(),
                route@.subrange(0, range.start as int) + repl@ + route@.subrange(
                    range.end as int,
                    route@.len() as int,
                ),
                v,
            ),
        ensures
            final(self).same_objective(old(self)),
            final(self).spliced_spec() == route@.subrange(0, range.start as int) + repl@
                + route@.subrange(range.end as int, route@.len() as int),
            opt_int(r) == final(self).objective(final(self).spliced_spec(), v),
    {
        self.buf.clear();
        let mut i: usize = 0;
        while i < range.start
            invariant
                i <= range.start <= range.end <= route@.len(),
                self.same_objective(old(self)),
                self.buf@ == route@.subrange(0, i as int),
            decreases range.start - i,
        {
            self.buf.push(route[i]);
            proof {
                assert(self.buf@ =~= route@.subrange(0, i + 1));
            }
            i += 1;
        }
        let mut j: usize = 0;
        while j < repl.len()
            invariant
                j <= repl@.len(),
                range.start <= range.end <= route@.len(),
                self.same_objective(old(self)),
                self.buf@ == route@.subrange(0, range.start as int) + repl@.subrange(0, j as int),
            decreases repl@.len() - j,
        {
            self.buf.push(repl[j]);
            proof {
                assert(self.buf@ =~= route@.subrange(0, range.start as int) + repl@.subrange(
                    0,
                    j + 1,
                ));
            }
            j += 1;
        }
        let mut k: usize = range.end;
        proof {
            assert(repl@.subrange(0, repl@.len() as int) =~= repl@);
            assert(route@.subrange(range.end as int, range.end as int) =~= Seq::<NodeId>::empty());
        }
        while k < route.len()
            invariant
                range.start <= range.end <= k <= route@.len(),
                self.same_objective(old(self)),
                self.buf@ == route@.subrange(0, range.start as int) + repl@ + route@.subrange(
                    range.end as int,
                    k as int,
                ),
            decreases route@.len() - k,
        {
            self.buf.push(route[k]);
            proof {
                assert(self.buf@ =~= route@.subrange(0, range.start as int) + repl@
                    + route@.subrange(range.end as int, k + 1));
            }
            k += 1;
        }
        self.eval(self.buf.as_slice(), v)
    }

    /// The route the last [`eval_splice`](Self::eval_splice) priced, so a
    /// probe can be committed without rebuilding it.
    pub fn spliced(&self) -> (r: &[NodeId])
        ensures
            r@ == self.spliced_spec(),
    {
        self.buf.as_slice()
    }

    /// Cost of one arc under the current objective.
    ///
    /// An operator whose delta is arc arithmetic must price its arcs here.
    /// Reading [`Model::eval`] directly ranks candidates on true cost while
    /// acceptance runs on the penalized one.
    pub fn arc(&self, class: usize, a: NodeId, b: NodeId) -> (r: Cost)
        requires
            self.model_spec().wf(),
            class < self.model_spec().class_count(),
            self.model_spec().valid_node(a),
            self.model_spec().valid_node(b),
            fits(self.lambda_spec() * self.pen(a, b)),
            fits(self.arc_obj(class as int, a, b)),
        ensures
            r as int == self.arc_obj(class as int, a, b),
    {
        let base = self.m.eval(class, a, b);
        base + self.lambda * self.penalty(a, b)
    }

    /// [`arc`](Self::arc), wide enough that no arc can overflow it.
    pub(crate) fn arc_wide(&self, class: usize, a: NodeId, b: NodeId) -> (r: i128)
        requires
            self.model_spec().wf(),
            class < self.model_spec().class_count(),
            self.model_spec().valid_node(a),
            self.model_spec().valid_node(b),
        ensures
            r as int == self.arc_obj(class as int, a, b),
    {
        let base = self.m.eval(class, a, b) as i128;
        let p = self.penalty(a, b) as i128;
        let l = self.lambda as i128;
        proof {
            assert(-0x4000_0000_0000_0000_0000_0000_0000_0000 <= l * p
                <= 0x4000_0000_0000_0000_0000_0000_0000_0000)
                by (nonlinear_arith)
                requires
                    -0x8000_0000_0000_0000 <= l <= 0x7fff_ffff_ffff_ffff,
                    -0x8000_0000_0000_0000 <= p <= 0x7fff_ffff_ffff_ffff,
            ;
        }
        base + l * p
    }

    /// Set the weight one penalty carries, in arc-cost units.
    pub fn set_lambda(&mut self, lambda: Cost)
        ensures
            final(self).lambda_spec() == lambda,
            final(self).model_spec() == old(self).model_spec(),
            final(self).pen_map() == old(self).pen_map(),
            final(self).spliced_spec() == old(self).spliced_spec(),
    {
        self.lambda = lambda;
    }

    /// How many times arc `{a, b}` has been penalized.
    pub fn penalty(&self, a: NodeId, b: NodeId) -> (r: Cost)
        ensures
            r as int == self.pen(a, b),
    {
        match self.penalties.get(&arc_key(a, b)) {
            Some(p) => *p,
            None => 0,
        }
    }

    /// Make arc `{a, b}` look worse to every later evaluation. The objective
    /// moves; true cost, from [`crate::eval::eval_routes`], does not.
    pub fn penalize(&mut self, a: NodeId, b: NodeId)
        requires
            old(self).pen(a, b) < i64::MAX,
        ensures
            old(self).pens_nonneg() ==> final(self).pens_nonneg(),
            final(self).model_spec() == old(self).model_spec(),
            final(self).lambda_spec() == old(self).lambda_spec(),
            final(self).spliced_spec() == old(self).spliced_spec(),
            forall|x: NodeId, y: NodeId|
                #[trigger] final(self).pen(x, y) == old(self).pen(x, y) + if same_arc(x, y, a, b) {
                    1int
                } else {
                    0int
                },
    {
        let k = arc_key(a, b);
        let p = self.penalty(a, b);
        self.penalties.insert(k, p + 1);
        proof {
            assert forall|x: NodeId, y: NodeId|
                #[trigger] self.pen(x, y) == old(self).pen(x, y) + if same_arc(x, y, a, b) {
                    1int
                } else {
                    0int
                } by {
                lemma_arc_key(x, y, a, b);
            }
            if old(self).pens_nonneg() {
                assert forall|q: u64| #[trigger] self.pen_map().contains_key(q) implies self.pen_map()[q]
                    >= 0 by {
                    if q != k {
                        assert(old(self).pen_map().contains_key(q));
                    }
                }
            }
        }
    }
}

/// An arc and its reverse carry one penalty, so reversing a stretch of a
/// route never changes what its arcs are charged.
pub proof fn lemma_penalty_unordered(cx: &Search, a: NodeId, b: NodeId)
    ensures
        cx.pen(a, b) == cx.pen(b, a),
{
    lemma_arc_key(a, b, b, a);
}

proof fn lemma_no_pens(cx: &Search, route: Seq<NodeId>, v: VehicleId, k: nat)
    requires
        cx.pen_map() == Map::<u64, i64>::empty(),
    ensures
        cx.pens_upto(route, v, k) == Some(0int),
    decreases k,
{
    if k > 0 {
        lemma_no_pens(cx, route, v, (k - 1) as nat);
    }
}

/// With no penalties and no weight the objective is true cost: a fresh
/// context prices every route exactly as `eval_route` does.
pub proof fn lemma_fresh_objective(cx: &Search, route: Seq<NodeId>, v: VehicleId)
    requires
        cx.lambda_spec() == 0,
        cx.pen_map() == Map::<u64, i64>::empty(),
    ensures
        cx.objective(route, v) == cost_spec(cx.model_spec(), route, v),
{
    lemma_no_pens(cx, route, v, route.len() + 1);
}

proof fn lemma_same_pens(cx1: &Search, cx2: &Search, route: Seq<NodeId>, v: VehicleId, k: nat)
    requires
        cx1.same_objective(cx2),
    ensures
        cx1.pens_upto(route, v, k) == cx2.pens_upto(route, v, k),
    decreases k,
{
    if k > 0 {
        lemma_same_pens(cx1, cx2, route, v, (k - 1) as nat);
    }
}

/// Two contexts with the same model, weight and penalties price every
/// route alike.
pub proof fn lemma_same_objective(cx1: &Search, cx2: &Search, route: Seq<NodeId>, v: VehicleId)
    requires
        cx1.same_objective(cx2),
    ensures
        cx1.objective(route, v) == cx2.objective(route, v),
{
    lemma_same_pens(cx1, cx2, route, v, route.len() + 1);
}

/// The mix of `ArcHasher`: Fibonacci hashing puts the entropy in the high
/// bits, and folding the high half down hands it to the low bits a hash
/// table picks its bucket from.
pub open spec fn arc_mix(n: u64) -> u64 {
    let h = vstd::wrapping::u64_specs::wrapping_mul(n, 0x9e37_79b9_7f4a_7c15u64);
    h ^ (h >> 32u64)
}

/// `h` with each byte of `bytes` folded in through the same mix.
pub open spec fn arc_mix_bytes(h: u64, bytes: Seq<u8>) -> u64
    decreases bytes.len(),
{
    if bytes.len() == 0 {
        h
    } else {
        arc_mix(arc_mix_bytes(h, bytes.drop_last()) ^ (bytes.last() as u64))
    }
}

/// Hasher for penalty tables keyed by packed arcs.
///
/// The keys are packed node pairs, not adversarial input, so one multiply
/// is enough where SipHash would cost more than pricing the arc.
pub struct ArcHasher(u64);

impl ArcHasher {
    /// The digest so far.
    pub closed spec fn state(&self) -> u64 {
        self.0
    }
}

impl Default for ArcHasher {
    fn default() -> (h: Self)
        ensures
            h.state() == 0,
    {
        ArcHasher(0)
    }
}

impl std::hash::Hasher for ArcHasher {
    fn write_u64(&mut self, n: u64)
        ensures
            final(self).state() == arc_mix(n),
    {
        let h = n.wrapping_mul(0x9e37_79b9_7f4a_7c15u64);
        self.0 = h ^ (h >> 32u64);
    }

    fn finish(&self) -> (h: u64)
        ensures
            h == self.state(),
    {
        self.0
    }

    /// Penalty keys arrive whole through `write_u64`; bytes, should any
    /// come, are folded in one at a time.
    fn write(&mut self, bytes: &[u8])
        ensures
            final(self).state() == arc_mix_bytes(old(self).state(), bytes@),
    {
        let mut i: usize = 0;
        while i < bytes.len()
            invariant
                i <= bytes@.len(),
                self.state() == arc_mix_bytes(old(self).state(), bytes@.take(i as int)),
            decreases bytes@.len() - i,
        {
            let h = (self.0 ^ (bytes[i] as u64)).wrapping_mul(0x9e37_79b9_7f4a_7c15u64);
            self.0 = h ^ (h >> 32u64);
            proof {
                assert(bytes@.take(i + 1).drop_last() =~= bytes@.take(i as int));
            }
            i += 1;
        }
        proof {
            assert(bytes@.take(bytes@.len() as int) =~= bytes@);
        }
    }
}

} // verus!
