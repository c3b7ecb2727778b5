//! Published reference solutions: the routes and cost a `.sol` file lists,
//! held to the instance they claim to solve.
//!
//! Reading the text and the instance's coordinates is the caller's part;
//! what is checked here is that the routes index the instance the way this
//! crate does (file node `i` is `NodeId(i - 1)`, the depot never listed),
//! so an indexing mistake fails loudly here rather than as a mysterious cost
//! mismatch downstream.

use vstd::prelude::*;

use crate::eval::flat;
use crate::types::NodeId;

verus! {

/// A reference solution.
pub struct SolFile {
    pub routes: Vec<Vec<NodeId>>,
    /// The published cost, the reference value for gaps.
    pub cost: i64,
}

/// Why a reference solution does not fit its instance.
#[derive(Debug, Clone, Copy, PartialEq, Eq, Structural)]
pub enum SolFileError {
    /// Neither routes nor a cost were given.
    NoCost,
    /// A route lists the depot as a customer.
    DepotRouted,
    /// A route lists a node the instance does not have.
    OutOfRange(NodeId),
    /// A node is visited twice.
    VisitedTwice(NodeId),
    /// This many customers are on no route.
    Missing(usize),
}

/// Stop `k` of `s` is the depot, out of range, or seen before.
pub open spec fn bad_stop(s: Seq<NodeId>, k: int, n: nat, depot: NodeId) -> bool {
    ||| s[k] == depot
    ||| s[k].0 >= n
    ||| s.subrange(0, k).contains(s[k])
}

/// What is wrong with stop `k` of `s`, checked in that order.
pub open spec fn stop_error(s: Seq<NodeId>, k: int, n: nat, depot: NodeId) -> SolFileError {
    if s[k] == depot {
        SolFileError::DepotRouted
    } else if s[k].0 >= n {
        SolFileError::OutOfRange(s[k])
    } else {
        SolFileError::VisitedTwice(s[k])
    }
}

/// Some stop of `s` is node `x`.
pub open spec fn has_id(s: Seq<NodeId>, x: int) -> bool {
    exists|k: int| 0 <= k < s.len() && #[trigger] s[k].0 == x
}

/// Customers below `k` that `s` never visits.
pub open spec fn missing(s: Seq<NodeId>, depot: NodeId, k: nat) -> nat
    decreases k,
{
    if k == 0 {
        0
    } else {
        missing(s, depot, (k - 1) as nat) + if ((k - 1) as u32 != depot.0 && !has_id(s, k - 1)) {
            1nat
        } else {
            0nat
        }
    }
}

/// The outcome of checking stops `s` against an instance of `n` nodes: the
/// first bad stop's error, else the count of customers left out, else
/// success.
pub open spec fn check_spec(s: Seq<NodeId>, n: nat, depot: NodeId) -> Result<(), SolFileError> {
    if exists|k: int| 0 <= k < s.len() && #[trigger] bad_stop(s, k, n, depot) {
        let k = choose|k: int|
            0 <= k < s.len() && #[trigger] bad_stop(s, k, n, depot) && forall|j: int|
                0 <= j < k ==> !#[trigger] bad_stop(s, j, n, depot);
        Err(stop_error(s, k, n, depot))
    } else if missing(s, depot, n) > 0 {
        Err(SolFileError::Missing(missing(s, depot, n) as usize))
    } else {
        Ok(())
    }
}

proof fn lemma_first_bad(s: Seq<NodeId>, n: nat, depot: NodeId, k: int)
    requires
        0 <= k < s.len(),
        bad_stop(s, k, n, depot),
        forall|j: int| 0 <= j < k ==> !#[trigger] bad_stop(s, j, n, depot),
    ensures
        check_spec(s, n, depot) == Err::<(), SolFileError>(stop_error(s, k, n, depot)),
{
    let c = choose|c: int|
        0 <= c < s.len() && #[trigger] bad_stop(s, c, n, depot) && forall|j: int|
            0 <= j < c ==> !#[trigger] bad_stop(s, j, n, depot);
    assert(0 <= c < s.len() && bad_stop(s, c, n, depot) && forall|j: int|
        0 <= j < c ==> !#[trigger] bad_stop(s, j, n, depot));
    if c < k {
        assert(!bad_stop(s, c, n, depot));
    }
    if k < c {
        assert(!bad_stop(s, k, n, depot));
    }
}

/// Every stop of `routes`, route after route, in one vector.
fn flatten(routes: &Vec<Vec<NodeId>>) -> (out: Vec<NodeId>)
    ensures
        out@ == flat(routes@),
{
    let mut out: Vec<NodeId> = Vec::new();
    let mut r: usize = 0;
    proof {
        assert(routes@.take(0) =~= Seq::<Vec<NodeId>>::empty());
    }
    while r < routes.len()
        invariant
            r <= routes@.len(),
            out@ == flat(routes@.take(r as int)),
        decreases routes@.len() - r,
    {
        let route = &routes[r];
        let ghost pre = out@;
        let mut i: usize = 0;
        while i < route.len()
            invariant
                i <= route@.len(),
                out@ == pre + route@.subrange(0, i as int),
            decreases route@.len() - i,
        {
            out.push(route[i]);
            proof {
                assert(out@ =~= pre + route@.subrange(0, i + 1));
            }
            i += 1;
        }
        proof {
            assert(route@.subrange(0, route@.len() as int) =~= route@);
            assert(routes@.take(r + 1).drop_last() =~= routes@.take(r as int));
        }
        r += 1;
    }
    proof {
        assert(routes@.take(routes@.len() as int) =~= routes@);
    }
    out
}

/// The routes visit every customer of an `n`-node instance exactly once and
/// never the depot; the first offence in route order is reported.
pub fn check_routes(routes: &Vec<Vec<NodeId>>, n: usize, depot: NodeId) -> (r: Result<
    (),
    SolFileError,
>)
    ensures
        r == check_spec(flat(routes@), n as nat, depot),
{
    let stops = flatten(routes);
    let ghost s = stops@;
    let mut seen: Vec<bool> = vec![false; n];
    let mut k: usize = 0;
    proof {
        assert forall|x: int| 0 <= x < n implies (#[trigger] seen@[x] <==> has_id(
            s.subrange(0, 0),
            x,
        )) by {
            assert(seen@[x] == false);
        }
    }
    while k < stops.len()
        invariant
            s == stops@,
            s == flat(routes@),
            k <= s.len(),
            seen@.len() == n,
            forall|j: int| 0 <= j < k ==> !#[trigger] bad_stop(s, j, n as nat, depot),
            forall|x: int| 0 <= x < n ==> (#[trigger] seen@[x] <==> has_id(s.subrange(0, k as int), x)),
        decreases s.len() - k,
    {
        let node = stops[k];
        let ghost p = s.subrange(0, k as int);
        if node == depot {
            proof {
                lemma_first_bad(s, n as nat, depot, k as int);
            }
            return Err(SolFileError::DepotRouted);
        }
        if node.index() >= n {
            proof {
                lemma_first_bad(s, n as nat, depot, k as int);
            }
            return Err(SolFileError::OutOfRange(node));
        }
        if seen[node.index()] {
            proof {
                assert(has_id(p, node.0 as int));
                let w = choose|w: int| 0 <= w < p.len() && #[trigger] p[w].0 == node.0 as int;
                assert(p[w] == node);
                assert(p.contains(node));
                lemma_first_bad(s, n as nat, depot, k as int);
            }
            return Err(SolFileError::VisitedTwice(node));
        }
        seen.set(node.index(), true);
        proof {
            assert(!bad_stop(s, k as int, n as nat, depot)) by {
                if p.contains(node) {
                    let w = choose|w: int| 0 <= w < p.len() && p[w] == node;
                    assert(p[w].0 == node.0 as int);
                    assert(has_id(p, node.0 as int));
                }
            }
            let q = s.subrange(0, k + 1);
            assert(q =~= p.push(node));
            assert forall|x: int| 0 <= x < n implies (#[trigger] seen@[x] <==> has_id(q, x)) by {
                if x == node.0 {
                    assert(q[q.len() - 1].0 == x);
                } else {
                    if has_id(q, x) {
                        let w = choose|w: int| 0 <= w < q.len() && #[trigger] q[w].0 == x;
                        assert(w < q.len() - 1);
                        assert(p[w].0 == x);
                    }
                    if has_id(p, x) {
                        let w = choose|w: int| 0 <= w < p.len() && #[trigger] p[w].0 == x;
                        assert(q[w].0 == x);
                    }
                }
            }
        }
        k += 1;
    }
    proof {
        assert(s.subrange(0, s.len() as int) =~= s);
    }
    let mut count: usize = 0;
    let mut x: usize = 0;
    while x < n
        invariant
            x <= n,
            seen@.len() == n,
            forall|y: int| 0 <= y < n ==> (#[trigger] seen@[y] <==> has_id(s, y)),
            count == missing(s, depot, x as nat),
            count <= x,
        decreases n - x,
    {
        if !seen[x] && x as u32 != depot.0 {
            count += 1;
        }
        x += 1;
    }
    if count > 0 {
        Err(SolFileError::Missing(count))
    } else {
        Ok(())
    }
}

/// The reference solution a `.sol` file describes. A file with no routes
/// publishes a cost only; otherwise the routes must fit the instance, and
/// a cost must be given either way (`reference_check` tells).
pub fn reference(routes: Vec<Vec<NodeId>>, cost: Option<i64>, n: usize, depot: NodeId) -> (f: SolFile)
    requires
        routes@.len() == 0 || check_spec(flat(routes@), n as nat, depot) is Ok,
        cost is Some,
    ensures
        f.routes@ == routes@,
        Some(f.cost) == cost,
{
    match cost {
        Some(c) => SolFile { routes, cost: c },
        None => SolFile { routes, cost: 0 },
    }
}

/// Whether `routes` and `cost` describe a reference solution: the first
/// offending stop in route order when routes are given, else `NoCost`
/// when no cost is.
pub fn reference_check(routes: &Vec<Vec<NodeId>>, cost: Option<i64>, n: usize, depot: NodeId) -> (r:
    Result<(), SolFileError>)
    ensures
        routes@.len() > 0 && check_spec(flat(routes@), n as nat, depot) is Err ==> r == Err::<
            (),
            SolFileError,
        >(check_spec(flat(routes@), n as nat, depot)->Err_0),
        (routes@.len() == 0 || check_spec(flat(routes@), n as nat, depot) is Ok) ==> (r is Ok
            <==> cost is Some),
        r matches Err(e) ==> (e == SolFileError::NoCost <==> cost is None && (routes@.len() == 0
            || check_spec(flat(routes@), n as nat, depot) is Ok)),
{
    if routes.len() > 0 {
        match check_routes(routes, n, depot) {
            Ok(()) => {},
            Err(e) => return Err(e),
        }
    }
    match cost {
        Some(_) => Ok(()),
        None => Err(SolFileError::NoCost),
    }
}

/// Every stop names a node of an `n`-node instance other than the depot.
pub fn stops_in_range(routes: &Vec<Vec<NodeId>>, n: usize, depot: NodeId) -> (r: bool)
    ensures
        r == forall|k: int|
            0 <= k < flat(routes@).len() ==> #[trigger] flat(routes@)[k] != depot && flat(
                routes@,
            )[k].0 < n,
{
    let stops = flatten(routes);
    let mut k: usize = 0;
    while k < stops.len()
        invariant
            stops@ == flat(routes@),
            k <= stops@.len(),
            forall|j: int| 0 <= j < k ==> #[trigger] stops@[j] != depot && stops@[j].0 < n,
        decreases stops@.len() - k,
    {
        if stops[k] == depot || stops[k].index() >= n {
            return false;
        }
        k += 1;
    }
    true
}

} // verus!
