use vstd::prelude::*;

use crate::types::{Cost, NodeId, VehicleId};

verus! {

/// One vehicle of the fleet: where it starts, where it ends, which arc
/// table prices its moves, and which nodes it may not serve.
pub struct Vehicle {
    pub start: NodeId,
    pub end: NodeId,
    pub cost_class: usize,
    /// One bit per node. Empty until the first `forbid`, so the common case
    /// costs one length test.
    pub forbidden: Vec<u64>,
}

/// Bit `b` of `w` is set.
pub open spec fn bit_set(w: u64, b: u64) -> bool {
    (w >> b) & 1u64 == 1u64
}

proof fn lemma_bit_or(w: u64, b: u64, c: u64)
    by (bit_vector)
    requires
        b < 64,
        c < 64,
    ensures
        ((w | (1u64 << b)) >> c) & 1u64 == 1u64 <==> ((w >> c) & 1u64 == 1u64 || b == c),
{
}

proof fn lemma_bit_clear(w: u64, b: u64, c: u64)
    by (bit_vector)
    requires
        b < 64,
        c < 64,
    ensures
        ((w & !(1u64 << b)) >> c) & 1u64 == 1u64 <==> ((w >> c) & 1u64 == 1u64 && b != c),
{
}

proof fn lemma_bit_zero_ones(c: u64)
    by (bit_vector)
    requires
        c < 64,
    ensures
        (0u64 >> c) & 1u64 != 1u64,
        (!0u64 >> c) & 1u64 == 1u64,
{
}

impl Vehicle {
    /// The vehicle may not serve `n`.
    pub open spec fn forbids_spec(&self, n: NodeId) -> bool {
        &&& (n.0 as int) / 64 < self.forbidden@.len()
        &&& bit_set(self.forbidden@[(n.0 as int) / 64], (n.0 % 64) as u64)
    }

    pub fn forbids(&self, n: NodeId) -> (r: bool)
        ensures
            r == self.forbids_spec(n),
    {
        let i = n.index() / 64;
        if i < self.forbidden.len() {
            (self.forbidden[i] >> ((n.0 % 64) as u64)) & 1u64 == 1u64
        } else {
            false
        }
    }
}

/// A quantity that accumulates along a route: load, time, distance.
///
/// `max_cumul` and `upper_bound` are the same kind of bound on two axes.
/// Per vehicle, `max_cumul` says what a *vehicle* can carry or endure;
/// per node, `upper_bound` says when a *node* stops accepting arrivals.
/// `upper_bound` checks the arrival before the wait clamp — arriving early
/// and waiting is fine — while `max_cumul` checks after it, so waiting does
/// count against a vehicle's own deadline.
pub struct Dimension {
    pub name: String,
    /// Index into the arc tables.
    pub transit: usize,
    /// Hard upper bound on the cumul, per vehicle.
    pub max_cumul: Vec<i64>,
    pub start_cumul: i64,
    /// Per-node bounds on the cumul: arriving above `upper_bound` is
    /// infeasible, arriving below `lower_bound` waits.
    pub lower_bound: Vec<i64>,
    pub upper_bound: Vec<i64>,
    /// Per-node soft close: each unit of arrival above it costs
    /// `soft_upper_bound_cost`.
    pub soft_upper_bound: Vec<i64>,
    pub soft_upper_bound_cost: Vec<i64>,
    /// Per-vehicle soft cap on the peak cumul, priced per unit above it.
    pub soft_max_cumul: Vec<i64>,
    pub soft_max_cumul_cost: Vec<i64>,
    /// Per-vehicle price of one unit of waiting.
    pub wait_cost: Vec<i64>,
    /// Longest wait allowed at one stop, per vehicle and per node.
    pub max_wait: Vec<i64>,
    pub max_wait_at: Vec<i64>,
}

impl Dimension {
    /// Table sizes agree with `n` nodes, `nv` vehicles and `nc` arc tables.
    pub open spec fn wf(&self, n: nat, nv: nat, nc: nat) -> bool {
        &&& self.transit < nc
        &&& self.per_vehicle_len(nv)
        &&& self.lower_bound@.len() == n
        &&& self.upper_bound@.len() == n
        &&& self.soft_upper_bound@.len() == n
        &&& self.soft_upper_bound_cost@.len() == n
        &&& self.max_wait_at@.len() == n
    }

    pub open spec fn per_vehicle_len(&self, nv: nat) -> bool {
        &&& self.max_cumul@.len() == nv
        &&& self.soft_max_cumul@.len() == nv
        &&& self.soft_max_cumul_cost@.len() == nv
        &&& self.wait_cost@.len() == nv
        &&& self.max_wait@.len() == nv
    }
}

/// What a dimension holds, as plain sequences.
pub struct DimView {
    pub name: Seq<char>,
    pub transit: usize,
    pub max_cumul: Seq<i64>,
    pub start_cumul: i64,
    pub lower_bound: Seq<i64>,
    pub upper_bound: Seq<i64>,
    pub soft_upper_bound: Seq<i64>,
    pub soft_upper_bound_cost: Seq<i64>,
    pub soft_max_cumul: Seq<i64>,
    pub soft_max_cumul_cost: Seq<i64>,
    pub wait_cost: Seq<i64>,
    pub max_wait: Seq<i64>,
    pub max_wait_at: Seq<i64>,
}

impl View for Dimension {
    type V = DimView;

    open spec fn view(&self) -> DimView {
        DimView {
            name: self.name@,
            transit: self.transit,
            max_cumul: self.max_cumul@,
            start_cumul: self.start_cumul,
            lower_bound: self.lower_bound@,
            upper_bound: self.upper_bound@,
            soft_upper_bound: self.soft_upper_bound@,
            soft_upper_bound_cost: self.soft_upper_bound_cost@,
            soft_max_cumul: self.soft_max_cumul@,
            soft_max_cumul_cost: self.soft_max_cumul_cost@,
            wait_cost: self.wait_cost@,
            max_wait: self.max_wait@,
            max_wait_at: self.max_wait_at@,
        }
    }
}

/// Index of the first dimension called `name`, searching from `i`, or -1.
pub open spec fn named_from(dims: Seq<Dimension>, name: Seq<char>, i: int) -> int
    decreases dims.len() - i,
{
    if i < 0 || i >= dims.len() {
        -1
    } else if dims[i].name@ == name {
        i
    } else {
        named_from(dims, name, i + 1)
    }
}

pub open spec fn dim_named(dims: Seq<Dimension>, name: Seq<char>) -> int {
    named_from(dims, name, 0)
}

proof fn lemma_named_from(dims: Seq<Dimension>, name: Seq<char>, i: int)
    requires
        0 <= i,
    ensures
        named_from(dims, name, i) == -1 || (i <= named_from(dims, name, i) < dims.len()
            && dims[named_from(dims, name, i)].name@ == name),
        forall|j: int|
            i <= j < named_from(dims, name, i) ==> #[trigger] dims[j].name@ != name,
        named_from(dims, name, i) == -1 ==> forall|j: int|
            i <= j < dims.len() ==> #[trigger] dims[j].name@ != name,
    decreases dims.len() - i,
{
    if i < dims.len() && dims[i].name@ != name {
        lemma_named_from(dims, name, i + 1);
    }
}

/// The penalty for leaving `n` unserved: the last one declared for it, or 0.
pub open spec fn drop_penalty(drops: Seq<(NodeId, Cost)>, n: NodeId) -> int
    decreases drops.len(),
{
    if drops.len() == 0 {
        0
    } else if drops.last().0 == n {
        drops.last().1 as int
    } else {
        drop_penalty(drops.drop_last(), n)
    }
}

/// `n` was declared droppable.
pub open spec fn is_dropped(drops: Seq<(NodeId, Cost)>, n: NodeId) -> bool {
    exists|i: int| 0 <= i < drops.len() && (#[trigger] drops[i]).0 == n
}

/// Arc tables, each `n` by `n`.
pub open spec fn tables_wf(t: Seq<Vec<Vec<i64>>>, n: nat) -> bool {
    forall|c: int|
        0 <= c < t.len() ==> {
            &&& (#[trigger] t[c])@.len() == n
            &&& forall|a: int| 0 <= a < n ==> (#[trigger] t[c]@[a])@.len() == n
        }
}

/// A solved-for-once description of the problem: nodes, arc costs,
/// dimensions, fleet. Immutable for the whole life of a search, so one model
/// serves any number of concurrent solves by `&`.
///
/// Arc costs are held as tables, one per cost class or transit: the closures
/// handed to the builder are tabulated once, when they are registered.
pub struct Model {
    node_count: usize,
    evaluators: Vec<Vec<Vec<i64>>>,
    dimensions: Vec<Dimension>,
    vehicles: Vec<Vehicle>,
    unserved: Option<VehicleId>,
    successors: Vec<Vec<NodeId>>,
}

impl Model {
    pub closed spec fn n(&self) -> nat {
        self.node_count as nat
    }

    pub closed spec fn class_count(&self) -> nat {
        self.evaluators@.len()
    }

    /// Cost of the arc `a -> b` in table `class`.
    pub closed spec fn arc_spec(&self, class: int, a: NodeId, b: NodeId) -> int {
        self.evaluators@[class]@[a.0 as int]@[b.0 as int] as int
    }

    pub closed spec fn dims(&self) -> Seq<Dimension> {
        self.dimensions@
    }

    pub closed spec fn fleet(&self) -> Seq<Vehicle> {
        self.vehicles@
    }

    pub closed spec fn sink(&self) -> Option<VehicleId> {
        self.unserved
    }

    /// Nodes that must come after `n` when they share its route.
    pub closed spec fn succ(&self, n: NodeId) -> Seq<NodeId> {
        if (n.0 as int) < self.successors@.len() {
            self.successors@[n.0 as int]@
        } else {
            Seq::empty()
        }
    }

    pub closed spec fn has_prec(&self) -> bool {
        self.successors@.len() > 0
    }

    pub closed spec fn inner_wf(&self) -> bool {
        &&& tables_wf(self.evaluators@, self.node_count as nat)
        &&& self.successors@.len() == 0 || self.successors@.len() == self.node_count
    }

    pub open spec fn valid_node(&self, n: NodeId) -> bool {
        (n.0 as int) < self.n()
    }

    pub open spec fn valid_vehicle(&self, v: VehicleId) -> bool {
        (v.0 as int) < self.fleet().len()
    }

    /// The sizes of every table agree, every id points somewhere.
    pub open spec fn wf(&self) -> bool {
        &&& self.inner_wf()
        &&& self.n() <= u32::MAX as nat + 1
        &&& 1 <= self.fleet().len() <= u32::MAX as nat
        &&& forall|v: int|
            0 <= v < self.fleet().len() ==> {
                &&& self.valid_node((#[trigger] self.fleet()[v]).start)
                &&& self.valid_node(self.fleet()[v].end)
                &&& self.fleet()[v].cost_class < self.class_count()
            }
        &&& forall|i: int|
            0 <= i < self.dims().len() ==> (#[trigger] self.dims()[i]).wf(
                self.n(),
                self.fleet().len(),
                self.class_count(),
            )
        &&& (self.sink() matches Some(s) ==> s.0 as int == self.fleet().len() - 1)
        &&& forall|a: NodeId, i: int|
            0 <= i < self.succ(a).len() ==> self.valid_node(#[trigger] self.succ(a)[i])
        &&& (!self.has_prec() ==> forall|a: NodeId| #[trigger] self.succ(a).len() == 0)
        &&& self.sink_charges_on_entry()
    }

    /// What dropping `x` costs: the drop sink's price for entering it; 0
    /// when nothing may be dropped.
    pub open spec fn drop_fee(&self, x: NodeId) -> int {
        match self.sink() {
            Some(s) => self.arc_spec(
                self.fleet()[s.0 as int].cost_class as int,
                self.fleet()[s.0 as int].start,
                x,
            ),
            None => 0,
        }
    }

    /// The drop sink returns to where it starts, and its table charges by
    /// the node entered alone, nothing for the return.
    pub open spec fn sink_charges_on_entry(&self) -> bool {
        self.sink() matches Some(s) ==> {
            let veh = self.fleet()[s.0 as int];
            &&& veh.end == veh.start
            &&& self.drop_fee(veh.start) == 0
            &&& forall|a: NodeId, b: NodeId|
                self.valid_node(a) && self.valid_node(b) ==> #[trigger] self.arc_spec(
                    veh.cost_class as int,
                    a,
                    b,
                ) == self.drop_fee(b)
        }
    }

    /// `n` is where some vehicle starts or ends.
    pub open spec fn is_terminal_spec(&self, n: NodeId) -> bool {
        exists|v: int|
            0 <= v < self.fleet().len() && ((#[trigger] self.fleet()[v]).start == n
                || self.fleet()[v].end == n)
    }

    pub fn node_count(&self) -> (r: usize)
        ensures
            r == self.n(),
    {
        self.node_count
    }

    pub fn vehicle_count(&self) -> (r: usize)
        ensures
            r == self.fleet().len(),
    {
        self.vehicles.len()
    }

    pub fn vehicle(&self, v: VehicleId) -> (r: &Vehicle)
        requires
            self.valid_vehicle(v),
        ensures
            *r == self.fleet()[v.0 as int],
    {
        &self.vehicles[v.index()]
    }

    pub fn dimensions(&self) -> (r: &[Dimension])
        ensures
            r@ == self.dims(),
    {
        self.dimensions.as_slice()
    }

    /// Cost of the arc `from -> to` in table `idx`.
    pub fn eval(&self, idx: usize, from: NodeId, to: NodeId) -> (r: i64)
        requires
            self.wf(),
            idx < self.class_count(),
            self.valid_node(from),
            self.valid_node(to),
        ensures
            r as int == self.arc_spec(idx as int, from, to),
    {
        self.evaluators[idx][from.index()][to.index()]
    }

    pub fn is_terminal(&self, n: NodeId) -> (r: bool)
        ensures
            r == self.is_terminal_spec(n),
    {
        let mut i: usize = 0;
        while i < self.vehicles.len()
            invariant
                0 <= i <= self.vehicles@.len(),
                forall|v: int|
                    0 <= v < i ==> !((#[trigger] self.vehicles@[v]).start == n
                        || self.vehicles@[v].end == n),
            decreases self.vehicles@.len() - i,
        {
            if self.vehicles[i].start == n || self.vehicles[i].end == n {
                assert(self.fleet()[i as int] == self.vehicles@[i as int]);
                return true;
            }
            i += 1;
        }
        false
    }

    /// The vehicle collecting dropped nodes: always the last one, its route
    /// is the unserved set.
    pub fn unserved_vehicle(&self) -> (r: Option<VehicleId>)
        ensures
            r == self.sink(),
    {
        self.unserved
    }

    /// Some `precede` constraint exists.
    pub fn has_precedence(&self) -> (r: bool)
        ensures
            r == self.has_prec(),
    {
        self.successors.len() > 0
    }

    /// Nodes that must come after `n` when they share its route.
    pub fn successors(&self, n: NodeId) -> (r: &[NodeId])
        ensures
            r@ == self.succ(n),
    {
        if n.index() < self.successors.len() {
            self.successors[n.index()].as_slice()
        } else {
            &[]
        }
    }

    /// Position of the first dimension called `name`.
    pub fn dimension_index(&self, name: &str) -> (r: usize)
        requires
            dim_named(self.dims(), name@) >= 0,
        ensures
            r as int == dim_named(self.dims(), name@),
    {
        find_dim(&self.dimensions, name)
    }
}

fn find_dim(dims: &Vec<Dimension>, name: &str) -> (r: usize)
    requires
        dim_named(dims@, name@) >= 0,
    ensures
        r as int == dim_named(dims@, name@),
        r < dims@.len(),
        dims@[r as int].name@ == name@,
{
    let key = name.to_owned();
    let mut i: usize = 0;
    proof {
        lemma_named_from(dims@, name@, 0);
    }
    while i < dims.len()
        invariant
            0 <= i <= dims@.len(),
            key@ == name@,
            named_from(dims@, name@, 0) >= 0,
            named_from(dims@, name@, i as int) == named_from(dims@, name@, 0),
        decreases dims@.len() - i,
    {
        if dims[i].name == key {
            return i;
        }
        i += 1;
    }
    i
}


/// `n` copies of `x`.
fn filled<T: Copy>(n: usize, x: T) -> (r: Vec<T>)
    ensures
        r@ == Seq::new(n as nat, |_i: int| x),
{
    let mut r: Vec<T> = Vec::new();
    let mut i: usize = 0;
    while i < n
        invariant
            i <= n,
            r@ == Seq::new(i as nat, |_i: int| x),
        decreases n - i,
    {
        r.push(x);
        i += 1;
        proof {
            assert(r@ =~= Seq::new(i as nat, |_i: int| x));
        }
    }
    r
}

/// The `n` by `n` table of `f` over every pair of nodes.
fn tabulate<F: Fn(NodeId, NodeId) -> i64>(n: usize, f: &F) -> (t: Vec<Vec<i64>>)
    requires
        n as int <= u32::MAX as int + 1,
        forall|a: NodeId, b: NodeId| call_requires(*f, (a, b)),
    ensures
        t@.len() == n,
        forall|a: int| 0 <= a < n ==> (#[trigger] t@[a])@.len() == n,
        forall|a: int, b: int|
            0 <= a < n && 0 <= b < n ==> call_ensures(
                *f,
                (NodeId(a as u32), NodeId(b as u32)),
                #[trigger] t@[a]@[b],
            ),
{
    let mut t: Vec<Vec<i64>> = Vec::new();
    let mut i: usize = 0;
    while i < n
        invariant
            i <= n,
            n as int <= u32::MAX as int + 1,
            forall|a: NodeId, b: NodeId| call_requires(*f, (a, b)),
            t@.len() == i,
            forall|a: int| 0 <= a < i ==> (#[trigger] t@[a])@.len() == n,
            forall|a: int, b: int|
                0 <= a < i && 0 <= b < n ==> call_ensures(
                    *f,
                    (NodeId(a as u32), NodeId(b as u32)),
                    #[trigger] t@[a]@[b],
                ),
        decreases n - i,
    {
        let mut row: Vec<i64> = Vec::new();
        let mut j: usize = 0;
        while j < n
            invariant
                j <= n,
                i < n,
                n as int <= u32::MAX as int + 1,
                forall|a: NodeId, b: NodeId| call_requires(*f, (a, b)),
                row@.len() == j,
                forall|b: int|
                    0 <= b < j ==> call_ensures(
                        *f,
                        (NodeId(i as u32), NodeId(b as u32)),
                        #[trigger] row@[b],
                    ),
            decreases n - j,
        {
            let c = f(NodeId(i as u32), NodeId(j as u32));
            row.push(c);
            j += 1;
        }
        t.push(row);
        i += 1;
    }
    t
}


proof fn lemma_drop_step(drops: Seq<(NodeId, Cost)>, k: int, n: NodeId)
    requires
        0 <= k < drops.len(),
    ensures
        drop_penalty(drops.take(k + 1), n) == if drops[k].0 == n {
            drops[k].1 as int
        } else {
            drop_penalty(drops.take(k), n)
        },
        is_dropped(drops.take(k + 1), n) == (is_dropped(drops.take(k), n) || drops[k].0 == n),
{
    assert(drops.take(k + 1).drop_last() =~= drops.take(k));
    assert(drops.take(k + 1).last() == drops[k]);
    if is_dropped(drops.take(k + 1), n) && drops[k].0 != n {
        let i = choose|i: int| 0 <= i < k + 1 && (#[trigger] drops.take(k + 1)[i]).0 == n;
        assert(drops.take(k)[i] == drops.take(k + 1)[i]);
    }
    if is_dropped(drops.take(k), n) {
        let i = choose|i: int| 0 <= i < k && (#[trigger] drops.take(k)[i]).0 == n;
        assert(drops.take(k + 1)[i] == drops.take(k)[i]);
    }
    if drops[k].0 == n {
        assert(drops.take(k + 1)[k] == drops[k]);
    }
}

/// Per node, the penalty for leaving it unserved.
fn drop_penalties(n: usize, drops: &Vec<(NodeId, Cost)>) -> (p: Vec<i64>)
    requires
        n as int <= u32::MAX as int + 1,
        forall|i: int| 0 <= i < drops@.len() ==> ((#[trigger] drops@[i]).0.0 as int) < n,
    ensures
        p@.len() == n,
        forall|x: int| 0 <= x < n ==> #[trigger] p@[x] as int == drop_penalty(drops@, NodeId(x as u32)),
{
    let mut p = filled(n, 0i64);
    let mut k: usize = 0;
    while k < drops.len()
        invariant
            k <= drops@.len(),
            n as int <= u32::MAX as int + 1,
            p@.len() == n,
            forall|i: int| 0 <= i < drops@.len() ==> ((#[trigger] drops@[i]).0.0 as int) < n,
            forall|x: int|
                0 <= x < n ==> #[trigger] p@[x] as int == drop_penalty(drops@.take(k as int), NodeId(x as u32)),
        decreases drops@.len() - k,
    {
        let (node, pen) = drops[k];
        p.set(node.index(), pen);
        proof {
            assert forall|x: int| 0 <= x < n implies #[trigger] p@[x] as int == drop_penalty(
                drops@.take(k + 1),
                NodeId(x as u32),
            ) by {
                lemma_drop_step(drops@, k as int, NodeId(x as u32));
                assert(NodeId(x as u32) == node <==> x == node.0);
            }
        }
        k += 1;
    }
    proof {
        assert(drops@.take(drops@.len() as int) =~= drops@);
    }
    p
}

/// The drop sink's bitset: every node but the droppable ones is forbidden.
fn sink_bits(n: usize, drops: &Vec<(NodeId, Cost)>) -> (bits: Vec<u64>)
    requires
        n as int <= u32::MAX as int + 1,
        forall|i: int| 0 <= i < drops@.len() ==> ((#[trigger] drops@[i]).0.0 as int) < n,
    ensures
        bits@.len() == ModelBuilder::words(n as nat),
        forall|x: int|
            0 <= x < n ==> (bit_set(#[trigger] bits@[x / 64], (x % 64) as u64) <==> !is_dropped(
                drops@,
                NodeId(x as u32),
            )),
{
    let words = n / 64 + if n % 64 == 0 {
        0
    } else {
        1
    };
    let mut bits = filled(words, !0u64);
    let mut k: usize = 0;
    proof {
        assert forall|x: int| 0 <= x < n implies (bit_set(#[trigger] bits@[x / 64], (x % 64) as u64)
            <==> !is_dropped(drops@.take(0), NodeId(x as u32))) by {
            lemma_bit_zero_ones((x % 64) as u64);
        }
    }
    while k < drops.len()
        invariant
            k <= drops@.len(),
            n as int <= u32::MAX as int + 1,
            bits@.len() == words,
            words == ModelBuilder::words(n as nat),
            forall|i: int| 0 <= i < drops@.len() ==> ((#[trigger] drops@[i]).0.0 as int) < n,
            forall|x: int|
                0 <= x < n ==> (bit_set(#[trigger] bits@[x / 64], (x % 64) as u64)
                    <==> !is_dropped(drops@.take(k as int), NodeId(x as u32))),
        decreases drops@.len() - k,
    {
        let node = drops[k].0;
        let i = node.index() / 64;
        let b = (node.0 % 64) as u64;
        let w = bits[i];
        bits.set(i, w & !(1u64 << b));
        proof {
            assert forall|x: int| 0 <= x < n implies (bit_set(#[trigger] bits@[x / 64], (x % 64) as u64)
                <==> !is_dropped(drops@.take(k + 1), NodeId(x as u32))) by {
                lemma_drop_step(drops@, k as int, NodeId(x as u32));
                let c = (x % 64) as u64;
                if x / 64 == i {
                    lemma_bit_clear(w, b, c);
                    assert(x == node.0 <==> c == b);
                } else {
                    assert(x != node.0);
                }
                assert(NodeId(x as u32) == node <==> x == node.0);
            }
        }
        k += 1;
    }
    proof {
        assert(drops@.take(drops@.len() as int) =~= drops@);
    }
    bits
}

/// The sink's arc table: the penalty of the node entered, nothing for the
/// depot.
fn sink_table(n: usize, depot: NodeId, penalty: &Vec<i64>) -> (t: Vec<Vec<i64>>)
    requires
        penalty@.len() == n,
    ensures
        t@.len() == n,
        forall|a: int| 0 <= a < n ==> (#[trigger] t@[a])@.len() == n,
        forall|a: int, b: int|
            0 <= a < n && 0 <= b < n ==> #[trigger] t@[a]@[b] == if b == depot.0 {
                0i64
            } else {
                penalty@[b]
            },
{
    let mut t: Vec<Vec<i64>> = Vec::new();
    let mut i: usize = 0;
    while i < n
        invariant
            i <= n,
            penalty@.len() == n,
            t@.len() == i,
            forall|a: int| 0 <= a < i ==> (#[trigger] t@[a])@.len() == n,
            forall|a: int, b: int|
                0 <= a < i && 0 <= b < n ==> #[trigger] t@[a]@[b] == if b == depot.0 {
                    0i64
                } else {
                    penalty@[b]
                },
        decreases n - i,
    {
        let mut row: Vec<i64> = Vec::new();
        let mut j: usize = 0;
        while j < n
            invariant
                j <= n,
                penalty@.len() == n,
                row@.len() == j,
                forall|b: int|
                    0 <= b < j ==> #[trigger] row@[b] == if b == depot.0 {
                        0i64
                    } else {
                        penalty@[b]
                    },
            decreases n - j,
        {
            if j == depot.index() {
                row.push(0);
            } else {
                row.push(penalty[j]);
            }
            j += 1;
        }
        t.push(row);
        i += 1;
    }
    t
}

/// Per node, the nodes the ordering constraints put after it.
fn successor_lists(n: usize, prec: &Vec<(NodeId, NodeId)>) -> (s: Vec<Vec<NodeId>>)
    requires
        n as int <= u32::MAX as int + 1,
        forall|i: int|
            0 <= i < prec@.len() ==> ((#[trigger] prec@[i]).0.0 as int) < n && (prec@[i].1.0 as int)
                < n,
    ensures
        s@.len() == n,
        forall|x: int, j: int|
            0 <= x < n && 0 <= j < s@[x]@.len() ==> ((#[trigger] s@[x]@[j]).0 as int) < n,
        forall|x: int, b: NodeId|
            0 <= x < n ==> (#[trigger] s@[x]@.contains(b) <==> exists|i: int|
                0 <= i < prec@.len() && #[trigger] prec@[i] == (NodeId(x as u32), b)),
{
    let mut s: Vec<Vec<NodeId>> = Vec::new();
    let mut x: usize = 0;
    while x < n
        invariant
            x <= n,
            n as int <= u32::MAX as int + 1,
            forall|i: int|
                0 <= i < prec@.len() ==> ((#[trigger] prec@[i]).0.0 as int) < n && (
                prec@[i].1.0 as int) < n,
            s@.len() == x,
            forall|y: int, j: int|
                0 <= y < x && 0 <= j < s@[y]@.len() ==> ((#[trigger] s@[y]@[j]).0 as int) < n,
            forall|y: int, b: NodeId|
                0 <= y < x ==> (#[trigger] s@[y]@.contains(b) <==> exists|i: int|
                    0 <= i < prec@.len() && #[trigger] prec@[i] == (NodeId(y as u32), b)),
        decreases n - x,
    {
        let mut row: Vec<NodeId> = Vec::new();
        let mut k: usize = 0;
        while k < prec.len()
            invariant
                k <= prec@.len(),
                x < n,
                n as int <= u32::MAX as int + 1,
                forall|i: int|
                    0 <= i < prec@.len() ==> ((#[trigger] prec@[i]).0.0 as int) < n && (
                    prec@[i].1.0 as int) < n,
                forall|j: int| 0 <= j < row@.len() ==> ((#[trigger] row@[j]).0 as int) < n,
                forall|b: NodeId|
                    #[trigger] row@.contains(b) <==> exists|i: int|
                        0 <= i < k && #[trigger] prec@[i] == (NodeId(x as u32), b),
            decreases prec@.len() - k,
        {
            let (a, b) = prec[k];
            let ghost prev = row@;
            if a.0 as usize == x {
                row.push(b);
                proof {
                    assert forall|c: NodeId| #[trigger] row@.contains(c) <==> (prev.contains(c)
                        || c == b) by {
                        if row@.contains(c) {
                            let j = choose|j: int| 0 <= j < row@.len() && row@[j] == c;
                            if j < prev.len() {
                                assert(prev[j] == c);
                            }
                        }
                        if prev.contains(c) {
                            let j = choose|j: int| 0 <= j < prev.len() && prev[j] == c;
                            assert(row@[j] == c);
                        }
                        if c == b {
                            assert(row@[prev.len() as int] == b);
                        }
                    }
                }
            }
            proof {
                assert forall|c: NodeId| #[trigger] row@.contains(c) <==> exists|i: int|
                    0 <= i < k + 1 && #[trigger] prec@[i] == (NodeId(x as u32), c) by {
                    if exists|i: int| 0 <= i < k + 1 && #[trigger] prec@[i] == (NodeId(x as u32), c) {
                        let i = choose|i: int| 0 <= i < k + 1 && #[trigger] prec@[i] == (NodeId(x as u32), c);
                        if i == k {
                            assert(a == NodeId(x as u32));
                            assert(c == b);
                        }
                    }
                    if row@.contains(c) && !prev.contains(c) {
                        assert(prec@[k as int] == (NodeId(x as u32), c));
                    }
                }
            }
            k += 1;
        }
        s.push(row);
        proof {
            assert(prec@.len() == k);
        }
        x += 1;
    }
    s
}



/// The dimension with one more vehicle, the drop sink, which no per-vehicle
/// bound or price touches.
pub open spec fn with_sink_slot(d: DimView) -> DimView {
    DimView {
        max_cumul: d.max_cumul.push(i64::MAX),
        soft_max_cumul: d.soft_max_cumul.push(i64::MAX),
        soft_max_cumul_cost: d.soft_max_cumul_cost.push(0),
        wait_cost: d.wait_cost.push(0),
        max_wait: d.max_wait.push(i64::MAX),
        ..d
    }
}

fn extend_dims(dims: Vec<Dimension>) -> (r: Vec<Dimension>)
    ensures
        r@.len() == dims@.len(),
        forall|i: int| 0 <= i < dims@.len() ==> (#[trigger] r@[i])@ == with_sink_slot(dims@[i]@),
{
    let mut dims = dims;
    let ghost orig = dims@;
    let mut r: Vec<Dimension> = Vec::new();
    while dims.len() > 0
        invariant
            r@.len() + dims@.len() == orig.len(),
            dims@ == orig.subrange(r@.len() as int, orig.len() as int),
            forall|i: int| 0 <= i < r@.len() ==> (#[trigger] r@[i])@ == with_sink_slot(orig[i]@),
        decreases dims@.len(),
    {
        let mut d = dims.remove(0);
        d.max_cumul.push(i64::MAX);
        d.soft_max_cumul.push(i64::MAX);
        d.soft_max_cumul_cost.push(0);
        d.wait_cost.push(0);
        d.max_wait.push(i64::MAX);
        r.push(d);
        proof {
            assert(dims@ =~= orig.subrange(r@.len() as int, orig.len() as int));
        }
    }
    r
}

/// Assembles a [`Model`]. Add vehicles before dimensions: per-vehicle
/// limits are indexed by vehicle.
pub struct ModelBuilder {
    node_count: usize,
    evaluators: Vec<Vec<Vec<i64>>>,
    dimensions: Vec<Dimension>,
    vehicles: Vec<Vehicle>,
    drops: Vec<(NodeId, Cost)>,
    precedence: Vec<(NodeId, NodeId)>,
}

impl ModelBuilder {
    pub closed spec fn n(&self) -> nat {
        self.node_count as nat
    }

    /// Every vehicle of `before` is still there, and still forbids every
    /// node it forbade.
    pub open spec fn keeps_forbids(self, before: ModelBuilder) -> bool {
        &&& self.n() == before.n()
        &&& before.fleet().len() <= self.fleet().len()
        &&& forall|i: int, x: NodeId|
            0 <= i < before.fleet().len() && before.valid_node(x) && before.fleet()[i].forbids_spec(x)
                ==> #[trigger] self.fleet()[i].forbids_spec(x)
    }

    pub closed spec fn class_count(&self) -> nat {
        self.evaluators@.len()
    }

    /// Entry `a -> b` of table `class`.
    pub closed spec fn cell(&self, class: int, a: NodeId, b: NodeId) -> i64 {
        self.evaluators@[class]@[a.0 as int]@[b.0 as int]
    }

    pub closed spec fn dims(&self) -> Seq<Dimension> {
        self.dimensions@
    }

    pub closed spec fn fleet(&self) -> Seq<Vehicle> {
        self.vehicles@
    }

    pub closed spec fn drops_spec(&self) -> Seq<(NodeId, Cost)> {
        self.drops@
    }

    pub closed spec fn prec(&self) -> Seq<(NodeId, NodeId)> {
        self.precedence@
    }

    pub closed spec fn tables_ok(&self) -> bool {
        tables_wf(self.evaluators@, self.node_count as nat)
    }

    pub open spec fn valid_node(&self, n: NodeId) -> bool {
        (n.0 as int) < self.n()
    }

    /// Bitset length for `n` nodes.
    pub open spec fn words(n: nat) -> nat {
        ((n + 63) / 64) as nat
    }

    /// Every id points somewhere, every table has its size.
    pub open spec fn wf(&self) -> bool {
        &&& self.tables_ok()
        &&& self.n() <= u32::MAX as nat + 1
        &&& self.fleet().len() < u32::MAX as nat
        &&& forall|v: int|
            0 <= v < self.fleet().len() ==> {
                &&& self.valid_node((#[trigger] self.fleet()[v]).start)
                &&& self.valid_node(self.fleet()[v].end)
                &&& self.fleet()[v].cost_class < self.class_count()
                &&& (self.fleet()[v].forbidden@.len() == 0 || self.fleet()[v].forbidden@.len()
                    == Self::words(self.n()))
            }
        &&& forall|i: int|
            0 <= i < self.dims().len() ==> {
                &&& (#[trigger] self.dims()[i]).transit < self.class_count()
                &&& self.dims()[i].per_vehicle_len(self.dims()[i].max_cumul@.len())
                &&& self.dims()[i].lower_bound@.len() == self.n()
                &&& self.dims()[i].upper_bound@.len() == self.n()
                &&& self.dims()[i].soft_upper_bound@.len() == self.n()
                &&& self.dims()[i].soft_upper_bound_cost@.len() == self.n()
                &&& self.dims()[i].max_wait_at@.len() == self.n()
            }
        &&& forall|i: int|
            0 <= i < self.drops_spec().len() ==> self.valid_node((#[trigger] self.drops_spec()[i]).0)
        &&& forall|i: int|
            0 <= i < self.prec().len() ==> self.valid_node((#[trigger] self.prec()[i]).0)
                && self.valid_node(self.prec()[i].1)
    }

    /// `n` is where some vehicle added so far starts or ends.
    pub open spec fn is_terminal_spec(&self, n: NodeId) -> bool {
        exists|v: int|
            0 <= v < self.fleet().len() && ((#[trigger] self.fleet()[v]).start == n
                || self.fleet()[v].end == n)
    }


    /// Everything but the dimensions is as in `o`.
    pub open spec fn same_but_dims(&self, o: &Self) -> bool {
        &&& self.n() == o.n()
        &&& self.class_count() == o.class_count()
        &&& (forall|c: int, a: NodeId, b: NodeId| #[trigger] self.cell(c, a, b) == o.cell(c, a, b))
        &&& self.fleet() == o.fleet()
        &&& self.drops_spec() == o.drops_spec()
        &&& self.prec() == o.prec()
    }

    /// Everything but the fleet is as in `o`.
    pub open spec fn same_but_fleet(&self, o: &Self) -> bool {
        &&& self.n() == o.n()
        &&& self.class_count() == o.class_count()
        &&& (forall|c: int, a: NodeId, b: NodeId| #[trigger] self.cell(c, a, b) == o.cell(c, a, b))
        &&& self.dims() == o.dims()
        &&& self.drops_spec() == o.drops_spec()
        &&& self.prec() == o.prec()
    }

    /// Everything but the drops and orderings is as in `o`.
    pub open spec fn same_tables_fleet_dims(&self, o: &Self) -> bool {
        &&& self.n() == o.n()
        &&& self.class_count() == o.class_count()
        &&& (forall|c: int, a: NodeId, b: NodeId| #[trigger] self.cell(c, a, b) == o.cell(c, a, b))
        &&& self.dims() == o.dims()
        &&& self.fleet() == o.fleet()
    }

    /// `d` may stand among this builder's dimensions.
    pub open spec fn dim_fits(&self, d: Dimension) -> bool {
        &&& d.transit < self.class_count()
        &&& d.per_vehicle_len(d.max_cumul@.len())
        &&& d.lower_bound@.len() == self.n()
        &&& d.upper_bound@.len() == self.n()
        &&& d.soft_upper_bound@.len() == self.n()
        &&& d.soft_upper_bound_cost@.len() == self.n()
        &&& d.max_wait_at@.len() == self.n()
    }

    /// Takes out the dimension called `name`.
    fn take_dim(&mut self, name: &str) -> (r: (usize, Dimension))
        requires
            old(self).wf(),
            dim_named(old(self).dims(), name@) >= 0,
        ensures
            r.0 as int == dim_named(old(self).dims(), name@),
            r.0 < old(self).dims().len(),
            r.1 == old(self).dims()[r.0 as int],
            final(self).dims() == old(self).dims().remove(r.0 as int),
            final(self).same_but_dims(old(self)),
            final(self).tables_ok(),
    {
        let di = find_dim(&self.dimensions, name);
        let d = self.dimensions.remove(di);
        (di, d)
    }

    /// Puts `d` back at `di`.
    fn put_dim(&mut self, di: usize, d: Dimension)
        requires
            di <= old(self).dims().len(),
            old(self).tables_ok(),
            old(self).n() <= u32::MAX as nat + 1,
            old(self).fleet().len() < u32::MAX as nat,
            forall|v: int|
                0 <= v < old(self).fleet().len() ==> {
                    &&& old(self).valid_node((#[trigger] old(self).fleet()[v]).start)
                    &&& old(self).valid_node(old(self).fleet()[v].end)
                    &&& old(self).fleet()[v].cost_class < old(self).class_count()
                    &&& (old(self).fleet()[v].forbidden@.len() == 0
                        || old(self).fleet()[v].forbidden@.len() == Self::words(old(self).n()))
                },
            forall|i: int| 0 <= i < old(self).dims().len() ==> old(self).dim_fits(
                #[trigger] old(self).dims()[i]),
            forall|i: int|
                0 <= i < old(self).drops_spec().len() ==> old(self).valid_node(
                    (#[trigger] old(self).drops_spec()[i]).0,
                ),
            forall|i: int|
                0 <= i < old(self).prec().len() ==> old(self).valid_node(
                    (#[trigger] old(self).prec()[i]).0,
                ) && old(self).valid_node(old(self).prec()[i].1),
            old(self).dim_fits(d),
        ensures
            final(self).wf(),
            final(self).dims() == old(self).dims().insert(di as int, d),
            final(self).same_but_dims(old(self)),
    {
        self.dimensions.insert(di, d);
        proof {
            assert forall|i: int| 0 <= i < self.dims().len() implies self.dim_fits(
                #[trigger] self.dims()[i]) by {
                if i < di {
                    assert(self.dims()[i] == old(self).dims()[i]);
                } else if i > di {
                    assert(self.dims()[i] == old(self).dims()[i - 1]);
                }
            }
            assert(self.drops_spec() == old(self).drops_spec());
            assert(self.prec() == old(self).prec());
            assert(self.fleet() == old(self).fleet());
        }
    }

    /// Window on the cumul at node `n` for dimension `name`: arrive after
    /// `ub` and the route is infeasible, arrive before `lb` and the vehicle
    /// waits.
    pub fn cumul_bounds(&mut self, name: &str, n: NodeId, lb: i64, ub: i64)
        requires
            old(self).wf(),
            old(self).valid_node(n),
            dim_named(old(self).dims(), name@) >= 0,
        ensures
            final(self).keeps_forbids(*old(self)),
            final(self).wf(),
            final(self).same_but_dims(old(self)),
            ({
                let di = dim_named(old(self).dims(), name@);
                let d = old(self).dims()[di]@;
                final(self).dims() == old(self).dims().update(di, final(self).dims()[di])
                    && final(self).dims()[di]@ == DimView {
                    lower_bound: d.lower_bound.update(n.0 as int, lb),
                    upper_bound: d.upper_bound.update(n.0 as int, ub),
                    ..d
                }
            }),
    {
        let (di, mut d) = self.take_dim(name);
        d.lower_bound.set(n.index(), lb);
        d.upper_bound.set(n.index(), ub);
        self.put_dim(di, d);
        proof {
            assert(self.dims() =~= old(self).dims().update(di as int, d));
        }
    }

    /// Soft close at node `n` for dimension `name`: every unit of arrival
    /// above `bound` costs `cost`.
    pub fn soft_upper_bound(&mut self, name: &str, n: NodeId, bound: i64, cost: Cost)
        requires
            old(self).wf(),
            old(self).valid_node(n),
            dim_named(old(self).dims(), name@) >= 0,
        ensures
            final(self).keeps_forbids(*old(self)),
            final(self).wf(),
            final(self).same_but_dims(old(self)),
            ({
                let di = dim_named(old(self).dims(), name@);
                let d = old(self).dims()[di]@;
                final(self).dims() == old(self).dims().update(di, final(self).dims()[di])
                    && final(self).dims()[di]@ == DimView {
                    soft_upper_bound: d.soft_upper_bound.update(n.0 as int, bound),
                    soft_upper_bound_cost: d.soft_upper_bound_cost.update(n.0 as int, cost),
                    ..d
                }
            }),
    {
        let (di, mut d) = self.take_dim(name);
        d.soft_upper_bound.set(n.index(), bound);
        d.soft_upper_bound_cost.set(n.index(), cost);
        self.put_dim(di, d);
        proof {
            assert(self.dims() =~= old(self).dims().update(di as int, d));
        }
    }

    /// Longest wait allowed at node `n` for dimension `name`.
    pub fn max_wait_at(&mut self, name: &str, n: NodeId, cap: i64)
        requires
            old(self).wf(),
            old(self).valid_node(n),
            dim_named(old(self).dims(), name@) >= 0,
        ensures
            final(self).keeps_forbids(*old(self)),
            final(self).wf(),
            final(self).same_but_dims(old(self)),
            ({
                let di = dim_named(old(self).dims(), name@);
                let d = old(self).dims()[di]@;
                final(self).dims() == old(self).dims().update(di, final(self).dims()[di])
                    && final(self).dims()[di]@ == DimView {
                    max_wait_at: d.max_wait_at.update(n.0 as int, cap),
                    ..d
                }
            }),
    {
        let (di, mut d) = self.take_dim(name);
        d.max_wait_at.set(n.index(), cap);
        self.put_dim(di, d);
        proof {
            assert(self.dims() =~= old(self).dims().update(di as int, d));
        }
    }

    /// Soft cap on vehicle `v`'s peak cumul for dimension `name`: every unit
    /// of the peak above `cap` costs `cost`, once per route.
    pub fn soft_max_cumul(&mut self, name: &str, v: VehicleId, cap: i64, cost: Cost)
        requires
            old(self).wf(),
            dim_named(old(self).dims(), name@) >= 0,
            (v.0 as int) < old(self).dims()[dim_named(old(self).dims(), name@)].max_cumul@.len(),
        ensures
            final(self).keeps_forbids(*old(self)),
            final(self).wf(),
            final(self).same_but_dims(old(self)),
            ({
                let di = dim_named(old(self).dims(), name@);
                let d = old(self).dims()[di]@;
                final(self).dims() == old(self).dims().update(di, final(self).dims()[di])
                    && final(self).dims()[di]@ == DimView {
                    soft_max_cumul: d.soft_max_cumul.update(v.0 as int, cap),
                    soft_max_cumul_cost: d.soft_max_cumul_cost.update(v.0 as int, cost),
                    ..d
                }
            }),
    {
        let (di, mut d) = self.take_dim(name);
        d.soft_max_cumul.set(v.index(), cap);
        d.soft_max_cumul_cost.set(v.index(), cost);
        self.put_dim(di, d);
        proof {
            assert(self.dims() =~= old(self).dims().update(di as int, d));
        }
    }

    /// Price of one unit of waiting on vehicle `v` for dimension `name`.
    pub fn wait_cost(&mut self, name: &str, v: VehicleId, cost: Cost)
        requires
            old(self).wf(),
            dim_named(old(self).dims(), name@) >= 0,
            (v.0 as int) < old(self).dims()[dim_named(old(self).dims(), name@)].max_cumul@.len(),
        ensures
            final(self).keeps_forbids(*old(self)),
            final(self).wf(),
            final(self).same_but_dims(old(self)),
            ({
                let di = dim_named(old(self).dims(), name@);
                let d = old(self).dims()[di]@;
                final(self).dims() == old(self).dims().update(di, final(self).dims()[di])
                    && final(self).dims()[di]@ == DimView {
                    wait_cost: d.wait_cost.update(v.0 as int, cost),
                    ..d
                }
            }),
    {
        let (di, mut d) = self.take_dim(name);
        d.wait_cost.set(v.index(), cost);
        self.put_dim(di, d);
        proof {
            assert(self.dims() =~= old(self).dims().update(di as int, d));
        }
    }

    /// Longest wait allowed at any one stop of vehicle `v` for dimension
    /// `name`.
    pub fn max_wait(&mut self, name: &str, v: VehicleId, cap: i64)
        requires
            old(self).wf(),
            dim_named(old(self).dims(), name@) >= 0,
            (v.0 as int) < old(self).dims()[dim_named(old(self).dims(), name@)].max_cumul@.len(),
        ensures
            final(self).keeps_forbids(*old(self)),
            final(self).wf(),
            final(self).same_but_dims(old(self)),
            ({
                let di = dim_named(old(self).dims(), name@);
                let d = old(self).dims()[di]@;
                final(self).dims() == old(self).dims().update(di, final(self).dims()[di])
                    && final(self).dims()[di]@ == DimView {
                    max_wait: d.max_wait.update(v.0 as int, cap),
                    ..d
                }
            }),
    {
        let (di, mut d) = self.take_dim(name);
        d.max_wait.set(v.index(), cap);
        self.put_dim(di, d);
        proof {
            assert(self.dims() =~= old(self).dims().update(di as int, d));
        }
    }


    /// Vehicle `v` may not serve node `n`. Construction fails loudly if a
    /// node ends up forbidden on every vehicle.
    pub fn forbid(&mut self, v: VehicleId, n: NodeId)
        requires
            old(self).wf(),
            old(self).valid_node(n),
            (v.0 as int) < old(self).fleet().len(),
        ensures
            final(self).keeps_forbids(*old(self)),
            final(self).wf(),
            final(self).same_but_fleet(old(self)),
            final(self).fleet().len() == old(self).fleet().len(),
            forall|i: int|
                0 <= i < old(self).fleet().len() && i != v.0 ==> #[trigger] final(self).fleet()[i]
                    == old(self).fleet()[i],
            final(self).fleet()[v.0 as int].start == old(self).fleet()[v.0 as int].start,
            final(self).fleet()[v.0 as int].end == old(self).fleet()[v.0 as int].end,
            final(self).fleet()[v.0 as int].cost_class == old(self).fleet()[v.0 as int].cost_class,
            forall|x: NodeId|
                #![trigger final(self).fleet()[v.0 as int].forbids_spec(x)]
                final(self).valid_node(x) ==> (final(self).fleet()[v.0 as int].forbids_spec(x) <==> (
                old(self).fleet()[v.0 as int].forbids_spec(x) || x == n)),
    {
        let words = self.node_count / 64 + if self.node_count % 64 == 0 {
            0
        } else {
            1
        };
        let vi = v.index();
        let mut veh = self.vehicles.remove(vi);
        let ghost before = veh;
        if veh.forbidden.len() == 0 {
            veh.forbidden = filled(words, 0u64);
        }
        let i = n.index() / 64;
        let b = (n.0 % 64) as u64;
        let w = veh.forbidden[i];
        veh.forbidden.set(i, w | (1u64 << b));
        self.vehicles.insert(vi, veh);
        proof {
            assert(self.fleet() =~= old(self).fleet().update(vi as int, veh));
            assert(self.drops_spec() == old(self).drops_spec());
            assert(self.prec() == old(self).prec());
            assert(self.dims() == old(self).dims());
            assert forall|x: NodeId| self.valid_node(x) implies (veh.forbids_spec(x) <==> (
            before.forbids_spec(x) || x == n)) by {
                let j = (x.0 as int) / 64;
                let c = (x.0 % 64) as u64;
                lemma_bit_zero_ones(c);
                if j == i {
                    lemma_bit_or(w, b, c);
                    assert(x.0 == n.0 <==> c == b);
                } else {
                    assert(x != n);
                }
            }
        }
    }

    /// Node `n` may be left unserved for `penalty`, added to the total cost.
    /// Undeclared nodes stay mandatory.
    pub fn allow_drop(&mut self, n: NodeId, penalty: Cost)
        requires
            old(self).wf(),
            old(self).valid_node(n),
        ensures
            final(self).keeps_forbids(*old(self)),
            final(self).wf(),
            final(self).same_tables_fleet_dims(old(self)),
            final(self).prec() == old(self).prec(),
            final(self).drops_spec() == old(self).drops_spec().push((n, penalty)),
    {
        self.drops.push((n, penalty));
        proof {
            assert forall|i: int| 0 <= i < self.drops_spec().len() implies self.valid_node(
                (#[trigger] self.drops_spec()[i]).0,
            ) by {
                if i < old(self).drops_spec().len() {
                    assert(self.drops_spec()[i] == old(self).drops_spec()[i]);
                }
            }
            assert(self.prec() == old(self).prec());
            assert(self.dims() == old(self).dims());
            assert(self.fleet() == old(self).fleet());
        }
    }

    /// Node `before` must come ahead of node `after` whenever one route
    /// serves both. Nodes on different routes are unordered.
    pub fn precede(&mut self, before: NodeId, after: NodeId)
        requires
            old(self).wf(),
            old(self).valid_node(before),
            old(self).valid_node(after),
        ensures
            final(self).keeps_forbids(*old(self)),
            final(self).wf(),
            final(self).same_tables_fleet_dims(old(self)),
            final(self).drops_spec() == old(self).drops_spec(),
            final(self).prec() == old(self).prec().push((before, after)),
    {
        self.precedence.push((before, after));
        proof {
            assert forall|i: int| 0 <= i < self.prec().len() implies self.valid_node(
                (#[trigger] self.prec()[i]).0,
            ) && self.valid_node(self.prec()[i].1) by {
                if i < old(self).prec().len() {
                    assert(self.prec()[i] == old(self).prec()[i]);
                }
            }
            assert(self.drops_spec() == old(self).drops_spec());
            assert(self.dims() == old(self).dims());
            assert(self.fleet() == old(self).fleet());
        }
    }


    /// The model. The drop sink, if any node may be dropped, is the last
    /// vehicle: it starts and ends at the first vehicle's start, may serve
    /// only droppable nodes, and is charged each node's penalty on the arc
    /// entering it, so its route costs the sum of the penalties in any
    /// order.
    pub fn build(self) -> (m: Model)
        requires
            self.wf(),
            self.fleet().len() >= 1,
            forall|i: int|
                0 <= i < self.dims().len() ==> (#[trigger] self.dims()[i]).max_cumul@.len()
                    == self.fleet().len(),
            forall|i: int|
                0 <= i < self.prec().len() ==> !self.is_terminal_spec((#[trigger] self.prec()[i]).0)
                    && !self.is_terminal_spec(self.prec()[i].1),
            self.drops_spec().len() > 0 ==> self.class_count() < usize::MAX,
        ensures
            m.wf(),
            m.n() == self.n(),
            forall|c: int, a: NodeId, b: NodeId|
                0 <= c < self.class_count() && m.valid_node(a) && m.valid_node(b)
                    ==> #[trigger] m.arc_spec(c, a, b) == self.cell(c, a, b) as int,
            m.dims().len() == self.dims().len(),
            forall|i: int| 0 <= i < self.fleet().len() ==> #[trigger] m.fleet()[i] == self.fleet()[i],
            self.drops_spec().len() == 0 ==> {
                &&& m.sink() is None
                &&& m.fleet().len() == self.fleet().len()
                &&& m.class_count() == self.class_count()
                &&& forall|i: int| 0 <= i < self.dims().len() ==> #[trigger] m.dims()[i] == self.dims()[i]
            },
            self.drops_spec().len() > 0 ==> {
                let depot = self.fleet()[0].start;
                let s = self.fleet().len() as int;
                &&& m.sink() == Some(VehicleId(s as u32))
                &&& m.fleet().len() == s + 1
                &&& m.fleet()[s].start == depot
                &&& m.fleet()[s].end == depot
                &&& m.fleet()[s].cost_class == self.class_count()
                &&& m.class_count() == self.class_count() + 1
                &&& forall|x: NodeId|
                    m.valid_node(x) ==> (#[trigger] m.fleet()[s].forbids_spec(x) <==> !is_dropped(
                        self.drops_spec(),
                        x,
                    ))
                &&& forall|a: NodeId, b: NodeId|
                    m.valid_node(a) && m.valid_node(b) ==> #[trigger] m.arc_spec(
                        self.class_count() as int,
                        a,
                        b,
                    ) == if b == depot {
                        0
                    } else {
                        drop_penalty(self.drops_spec(), b)
                    }
                &&& forall|i: int|
                    0 <= i < self.dims().len() ==> (#[trigger] m.dims()[i])@ == with_sink_slot(
                        self.dims()[i]@,
                    )
                &&& forall|x: NodeId|
                    m.valid_node(x) ==> #[trigger] m.drop_fee(x) == if x == depot {
                        0
                    } else {
                        drop_penalty(self.drops_spec(), x)
                    }
            },
            m.has_prec() == (self.prec().len() > 0),
            forall|a: NodeId, b: NodeId|
                m.valid_node(a) ==> (#[trigger] m.succ(a).contains(b) <==> exists|i: int|
                    0 <= i < self.prec().len() && #[trigger] self.prec()[i] == (a, b)),
    {
        let ghost old_b = self;
        let ModelBuilder { node_count, mut evaluators, dimensions, mut vehicles, drops, precedence } =
            self;
        let mut dimensions = dimensions;
        let unserved = if drops.len() == 0 {
            None
        } else {
            let penalty = drop_penalties(node_count, &drops);
            let forbidden = sink_bits(node_count, &drops);
            let depot = vehicles[0].start;
            let table = sink_table(node_count, depot, &penalty);
            evaluators.push(table);
            let cost_class = evaluators.len() - 1;
            let id = VehicleId(vehicles.len() as u32);
            vehicles.push(Vehicle { start: depot, end: depot, cost_class, forbidden });
            dimensions = extend_dims(dimensions);
            Some(id)
        };
        let successors = if precedence.len() == 0 {
            Vec::new()
        } else {
            successor_lists(node_count, &precedence)
        };
        let m = Model { node_count, evaluators, dimensions, vehicles, unserved, successors };
        proof {
            let nc = old_b.class_count() as int;
            assert forall|c: int| 0 <= c < m.evaluators@.len() implies {
                &&& (#[trigger] m.evaluators@[c])@.len() == m.node_count
                &&& forall|a: int|
                    0 <= a < m.node_count ==> (#[trigger] m.evaluators@[c]@[a])@.len() == m.node_count
            } by {
                if c < nc {
                    assert(m.evaluators@[c] == old_b.evaluators@[c]);
                }
            }
            assert forall|c: int, a: NodeId, b: NodeId|
                0 <= c < old_b.class_count() && m.valid_node(a) && m.valid_node(b)
                implies #[trigger] m.arc_spec(c, a, b) == old_b.cell(c, a, b) as int by {
                assert(m.evaluators@[c] == old_b.evaluators@[c]);
            }
            assert forall|v: int| 0 <= v < m.fleet().len() implies {
                &&& m.valid_node((#[trigger] m.fleet()[v]).start)
                &&& m.valid_node(m.fleet()[v].end)
                &&& m.fleet()[v].cost_class < m.class_count()
            } by {
                if v < old_b.fleet().len() {
                    assert(m.fleet()[v] == old_b.fleet()[v]);
                }
            }
            assert forall|i: int| 0 <= i < old_b.fleet().len() implies #[trigger] m.fleet()[i]
                == old_b.fleet()[i] by {}
            assert forall|i: int| 0 <= i < m.dims().len() implies (#[trigger] m.dims()[i]).wf(
                m.n(),
                m.fleet().len(),
                m.class_count(),
            ) by {
                assert(old_b.dims()[i].transit < old_b.class_count());
            }
            if drops@.len() > 0 {
                let depot = old_b.fleet()[0].start;
                let sc = old_b.class_count() as int;
                let s = old_b.fleet().len() as int;
                assert forall|x: NodeId| m.valid_node(x) implies (#[trigger] m.fleet()[s].forbids_spec(
                    x,
                ) <==> !is_dropped(old_b.drops_spec(), x)) by {
                    assert(NodeId(x.0 as int as u32) == x);
                }
                assert forall|a: NodeId, b: NodeId| m.valid_node(a) && m.valid_node(b)
                    implies #[trigger] m.arc_spec(sc, a, b) == if b == depot {
                    0
                } else {
                    drop_penalty(old_b.drops_spec(), b)
                } by {
                    assert(NodeId(b.0 as int as u32) == b);
                    assert(b == depot <==> b.0 == depot.0);
                }
                assert(m.sink() == Some(VehicleId(s as u32)));
                assert(m.fleet()[s].cost_class == sc);
                assert(m.valid_node(depot));
                assert forall|x: NodeId| m.valid_node(x) implies #[trigger] m.drop_fee(x) == if x
                    == depot {
                    0
                } else {
                    drop_penalty(old_b.drops_spec(), x)
                } by {
                    assert(m.arc_spec(sc, depot, x) == if x == depot {
                        0
                    } else {
                        drop_penalty(old_b.drops_spec(), x)
                    });
                }
                assert forall|a: NodeId, b: NodeId| m.valid_node(a) && m.valid_node(b)
                    implies #[trigger] m.arc_spec(m.fleet()[s].cost_class as int, a, b) == m.drop_fee(b) by {
                    assert(m.arc_spec(sc, a, b) == if b == depot {
                        0
                    } else {
                        drop_penalty(old_b.drops_spec(), b)
                    });
                    assert(m.drop_fee(b) == if b == depot {
                        0
                    } else {
                        drop_penalty(old_b.drops_spec(), b)
                    });
                }
                assert(m.drop_fee(depot) == 0);
                assert(m.sink_charges_on_entry());
            }
            assert forall|a: NodeId, b: NodeId| m.valid_node(a) implies (#[trigger] m.succ(a).contains(
                b,
            ) <==> exists|i: int| 0 <= i < old_b.prec().len() && #[trigger] old_b.prec()[i] == (a, b)) by {
                assert(NodeId(a.0 as int as u32) == a);
                if precedence@.len() == 0 {
                    if exists|i: int| 0 <= i < old_b.prec().len() && #[trigger] old_b.prec()[i] == (a, b) {
                        assert(false);
                    }
                }
            }
            if precedence@.len() > 0 {
                assert(old_b.prec()[0] == precedence@[0]);
                assert(old_b.valid_node(precedence@[0].0));
            }
            assert forall|a: NodeId, i: int| 0 <= i < m.succ(a).len() implies m.valid_node(
                #[trigger] m.succ(a)[i],
            ) by {}
        }
        m
    }

    pub fn new(node_count: usize) -> (b: Self)
        requires
            node_count as int <= u32::MAX as int + 1,
        ensures
            b.wf(),
            b.n() == node_count,
            b.class_count() == 0,
            b.dims().len() == 0,
            b.fleet().len() == 0,
            b.drops_spec().len() == 0,
            b.prec().len() == 0,
    {
        ModelBuilder {
            node_count,
            evaluators: Vec::new(),
            dimensions: Vec::new(),
            vehicles: Vec::new(),
            drops: Vec::new(),
            precedence: Vec::new(),
        }
    }

    /// Registers an arc cost table, `f` on every pair of nodes. The returned
    /// index is the cost class; vehicles sharing a cost model share one
    /// table.
    pub fn cost_class(&mut self, f: impl Fn(NodeId, NodeId) -> i64 + Send + Sync + 'static) -> (r:
        usize)
        requires
            old(self).wf(),
            old(self).class_count() < usize::MAX,
            forall|a: NodeId, b: NodeId| call_requires(f, (a, b)),
        ensures
            final(self).keeps_forbids(*old(self)),
            final(self).wf(),
            r == old(self).class_count(),
            final(self).class_count() == r + 1,
            forall|a: NodeId, b: NodeId|
                final(self).valid_node(a) && final(self).valid_node(b) ==> call_ensures(
                    f,
                    (a, b),
                    #[trigger] final(self).cell(r as int, a, b),
                ),
            forall|c: int, a: NodeId, b: NodeId|
                0 <= c < old(self).class_count() ==> #[trigger] final(self).cell(c, a, b) == old(
                    self,
                ).cell(c, a, b),
            final(self).n() == old(self).n(),
            final(self).dims() == old(self).dims(),
            final(self).fleet() == old(self).fleet(),
            final(self).drops_spec() == old(self).drops_spec(),
            final(self).prec() == old(self).prec(),
    {
        let t = tabulate(self.node_count, &f);
        self.evaluators.push(t);
        let r = self.evaluators.len() - 1;
        proof {
            assert forall|c: int| 0 <= c < self.evaluators@.len() implies {
                &&& (#[trigger] self.evaluators@[c])@.len() == self.node_count
                &&& forall|a: int|
                    0 <= a < self.node_count ==> (#[trigger] self.evaluators@[c]@[a])@.len()
                        == self.node_count
            } by {
                if c < r {
                    assert(self.evaluators@[c] == old(self).evaluators@[c]);
                }
            }
            assert(self.drops_spec() == old(self).drops_spec());
            assert(self.prec() == old(self).prec());
            assert(self.dims() == old(self).dims());
            assert(self.fleet() == old(self).fleet());
            assert forall|a: NodeId, b: NodeId|
                self.valid_node(a) && self.valid_node(b) implies call_ensures(
                f,
                (a, b),
                #[trigger] self.cell(r as int, a, b),
            ) by {
                assert(NodeId(a.0 as int as u32) == a);
                assert(NodeId(b.0 as int as u32) == b);
                assert(call_ensures(
                    f,
                    (NodeId(a.0 as int as u32), NodeId(b.0 as int as u32)),
                    t@[a.0 as int]@[b.0 as int],
                ));
            }
        }
        r
    }

    /// Adds a vehicle running from `start` to `end`, priced by table
    /// `cost_class`.
    pub fn vehicle(&mut self, start: NodeId, end: NodeId, cost_class: usize) -> (r: VehicleId)
        requires
            old(self).wf(),
            cost_class < old(self).class_count(),
            old(self).valid_node(start),
            old(self).valid_node(end),
            old(self).fleet().len() + 1 < u32::MAX,
        ensures
            final(self).keeps_forbids(*old(self)),
            final(self).wf(),
            r.0 == old(self).fleet().len(),
            final(self).fleet().len() == old(self).fleet().len() + 1,
            forall|i: int|
                0 <= i < old(self).fleet().len() ==> #[trigger] final(self).fleet()[i] == old(
                    self,
                ).fleet()[i],
            final(self).fleet()[r.0 as int].start == start,
            final(self).fleet()[r.0 as int].end == end,
            final(self).fleet()[r.0 as int].cost_class == cost_class,
            final(self).fleet()[r.0 as int].forbidden@.len() == 0,
            final(self).n() == old(self).n(),
            final(self).class_count() == old(self).class_count(),
            forall|c: int, a: NodeId, b: NodeId| #[trigger]
                final(self).cell(c, a, b) == old(self).cell(c, a, b),
            final(self).dims() == old(self).dims(),
            final(self).drops_spec() == old(self).drops_spec(),
            final(self).prec() == old(self).prec(),
    {
        self.vehicles.push(Vehicle { start, end, cost_class, forbidden: Vec::new() });
        proof {
            assert(self.drops_spec() == old(self).drops_spec());
            assert(self.prec() == old(self).prec());
            assert(self.dims() == old(self).dims());
            assert forall|v: int| 0 <= v < self.fleet().len() implies {
                &&& self.valid_node((#[trigger] self.fleet()[v]).start)
                &&& self.valid_node(self.fleet()[v].end)
                &&& self.fleet()[v].cost_class < self.class_count()
                &&& (self.fleet()[v].forbidden@.len() == 0 || self.fleet()[v].forbidden@.len()
                    == Self::words(self.n()))
            } by {
                if v < old(self).fleet().len() {
                    assert(self.fleet()[v] == old(self).fleet()[v]);
                }
            }
        }
        VehicleId((self.vehicles.len() - 1) as u32)
    }

    /// Adds a dimension whose cumul grows by `transit` on every arc, capped
    /// per vehicle by `max_cumul`. `max_cumul` is per vehicle, so add
    /// vehicles first.
    pub fn dimension(
        &mut self,
        name: &str,
        transit: impl Fn(NodeId, NodeId) -> i64 + Send + Sync + 'static,
        max_cumul: Vec<i64>,
    )
        requires
            old(self).wf(),
            old(self).class_count() < usize::MAX,
            forall|a: NodeId, b: NodeId| call_requires(transit, (a, b)),
        ensures
            final(self).keeps_forbids(*old(self)),
            final(self).wf(),
            final(self).class_count() == old(self).class_count() + 1,
            forall|a: NodeId, b: NodeId|
                final(self).valid_node(a) && final(self).valid_node(b) ==> call_ensures(
                    transit,
                    (a, b),
                    #[trigger] final(self).cell(old(self).class_count() as int, a, b),
                ),
            forall|c: int, a: NodeId, b: NodeId|
                0 <= c < old(self).class_count() ==> #[trigger] final(self).cell(c, a, b) == old(
                    self,
                ).cell(c, a, b),
            final(self).dims().len() == old(self).dims().len() + 1,
            forall|i: int|
                0 <= i < old(self).dims().len() ==> #[trigger] final(self).dims()[i] == old(
                    self,
                ).dims()[i],
            ({
                let d = final(self).dims().last()@;
                let n = old(self).n();
                let k = max_cumul@.len();
                &&& d.name == name@
                &&& d.transit == old(self).class_count()
                &&& d.max_cumul == max_cumul@
                &&& d.start_cumul == 0
                &&& d.lower_bound == Seq::new(n, |_i: int| 0i64)
                &&& d.upper_bound == Seq::new(n, |_i: int| i64::MAX)
                &&& d.soft_upper_bound == Seq::new(n, |_i: int| i64::MAX)
                &&& d.soft_upper_bound_cost == Seq::new(n, |_i: int| 0i64)
                &&& d.max_wait_at == Seq::new(n, |_i: int| i64::MAX)
                &&& d.soft_max_cumul == Seq::new(k, |_i: int| i64::MAX)
                &&& d.soft_max_cumul_cost == Seq::new(k, |_i: int| 0i64)
                &&& d.wait_cost == Seq::new(k, |_i: int| 0i64)
                &&& d.max_wait == Seq::new(k, |_i: int| i64::MAX)
            }),
            final(self).n() == old(self).n(),
            final(self).fleet() == old(self).fleet(),
            final(self).drops_spec() == old(self).drops_spec(),
            final(self).prec() == old(self).prec(),
    {
        let idx = self.cost_class(transit);
        let ghost mid = *self;
        let n = self.node_count;
        let k = max_cumul.len();
        let d = Dimension {
            name: name.to_owned(),
            transit: idx,
            max_cumul,
            start_cumul: 0,
            lower_bound: filled(n, 0i64),
            upper_bound: filled(n, i64::MAX),
            soft_upper_bound: filled(n, i64::MAX),
            soft_upper_bound_cost: filled(n, 0i64),
            soft_max_cumul: filled(k, i64::MAX),
            soft_max_cumul_cost: filled(k, 0i64),
            wait_cost: filled(k, 0i64),
            max_wait: filled(k, i64::MAX),
            max_wait_at: filled(n, i64::MAX),
        };
        self.dimensions.push(d);
        proof {
            assert(self.evaluators@ == mid.evaluators@);
            assert forall|c: int, a: NodeId, b: NodeId| #[trigger]
                self.cell(c, a, b) == mid.cell(c, a, b) by {}
            assert forall|i: int| 0 <= i < self.dims().len() implies {
                &&& (#[trigger] self.dims()[i]).transit < self.class_count()
                &&& self.dims()[i].per_vehicle_len(self.dims()[i].max_cumul@.len())
                &&& self.dims()[i].lower_bound@.len() == self.n()
                &&& self.dims()[i].upper_bound@.len() == self.n()
                &&& self.dims()[i].soft_upper_bound@.len() == self.n()
                &&& self.dims()[i].soft_upper_bound_cost@.len() == self.n()
                &&& self.dims()[i].max_wait_at@.len() == self.n()
            } by {
                if i < mid.dims().len() {
                    assert(self.dims()[i] == mid.dims()[i]);
                }
            }
        }
    }
}

/// A forbid lasts: across any run of builder calls, each of which keeps
/// the forbids it found, every vehicle still forbids what it forbade.
pub proof fn lemma_forbids_last(b0: ModelBuilder, b1: ModelBuilder, b2: ModelBuilder)
    requires
        b1.keeps_forbids(b0),
        b2.keeps_forbids(b1),
    ensures
        b2.keeps_forbids(b0),
{
    assert forall|i: int, x: NodeId|
        0 <= i < b0.fleet().len() && b0.valid_node(x) && b0.fleet()[i].forbids_spec(x) implies #[trigger] b2.fleet()[
        i].forbids_spec(x) by {
        assert(b1.fleet()[i].forbids_spec(x));
        assert(b1.valid_node(x));
    }
}

} // verus!
