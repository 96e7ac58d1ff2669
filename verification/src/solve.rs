//! Solving the constraint graph: topological ordering from the first
//! separator, bounded-pass relaxation of the interval constraints, the
//! per-group slack computation, and the right-to-left mirroring of the
//! finished positions.
//!
//! Every stage is mirrored by a specification-level function
//! ([`spec_topo`], [`spec_relax`], [`spec_base`]) that the executable code
//! provably equals, so the whole solve is a pure function of the graph:
//! identical builds give identical results, with no dependence on any
//! container's iteration order.  A relaxation that exhausts its pass budget
//! commits the zero assignment rather than its half-relaxed scratch state —
//! a deliberate policy, so that a result is always either
//! constraint-satisfying or recognizably degenerate.

use vstd::prelude::*;
use vstd::set_lib::{lemma_int_range, lemma_len_subset, lemma_subset_equality, set_int_range};
use crate::graph::{Core, Edge, Node, edges_wf};
use crate::groups::GroupInfo;
use crate::length::{add_clip, clip, sub_clip, Extent};

verus! {

/// Whether one stored relation holds of a position assignment: a fixed
/// relation exactly, a minimum-only relation as a lower bound, both read
/// through saturating arithmetic.
pub open spec fn edge_sat(p: Seq<i64>, from: int, e: Edge) -> bool {
    if e.rel.is_fixed() {
        (p[e.to as int] as int) == clip(p[from] + e.rel.min_offset)
    } else {
        clip(p[e.to as int] - p[from]) >= e.rel.min_offset
    }
}

/// All of one node's outgoing relations hold.
pub open spec fn node_sat(nodes: Seq<Node>, p: Seq<i64>, k: int) -> bool {
    forall|e: int|
        0 <= e < nodes[k].edges@.len() ==> edge_sat(p, k, #[trigger] nodes[k].edges@[e])
}

/// Every relation in the graph holds.
pub open spec fn all_sat(nodes: Seq<Node>, p: Seq<i64>) -> bool {
    forall|k: int| 0 <= k < nodes.len() ==> #[trigger] node_sat(nodes, p, k)
}

pub open spec fn all_zero(p: Seq<i64>) -> bool {
    forall|k: int| 0 <= k < p.len() ==> (#[trigger] p[k]) == 0
}

/// A duplicate-free sequence of `n` indices below `n` holds every one of
/// them.
proof fn lemma_index_pigeonhole(s: Seq<usize>, n: int)
    requires
        s.no_duplicates(),
        forall|i: int| 0 <= i < s.len() ==> ((#[trigger] s[i]) as int) < n,
        s.len() == n,
    ensures
        forall|k: usize| (k as int) < n ==> s.contains(k),
{
    let si = s.map_values(|v: usize| v as int);
    assert(si.no_duplicates()) by {
        assert forall|i: int, j: int|
            0 <= i < si.len() && 0 <= j < si.len() && i != j implies si[i] != si[j] by {
            assert(s[i] != s[j]);
        }
    }
    si.unique_seq_to_set();
    lemma_int_range(0, n);
    assert(si.to_set().subset_of(set_int_range(0, n)));
    lemma_len_subset(si.to_set(), set_int_range(0, n));
    lemma_subset_equality(si.to_set(), set_int_range(0, n));
    assert forall|k: usize| (k as int) < n implies s.contains(k) by {
        assert(set_int_range(0, n).contains(k as int));
        assert(si.to_set().contains(k as int));
        assert(si.contains(k as int));
        let i = choose|i: int| 0 <= i < si.len() && si[i] == k as int;
        assert(s[i] == k);
    }
}

/// Membership in a sequence extended by one element.
proof fn lemma_push_contains(s: Seq<usize>, x: usize, k: usize)
    ensures
        s.push(x).contains(k) <==> (s.contains(k) || k == x),
{
    if s.contains(k) {
        let w = choose|w: int| 0 <= w < s.len() && s[w] == k;
        assert(s.push(x)[w] == k);
    }
    if k == x {
        assert(s.push(x)[s.len() as int] == k);
    }
    if s.push(x).contains(k) {
        let w = choose|w: int| 0 <= w < s.push(x).len() && s.push(x)[w] == k;
        if w < s.len() {
            assert(s[w] == k);
        }
    }
}

/// Membership in a sequence shortened by its last element.
proof fn lemma_drop_last_contains(s: Seq<usize>, k: usize)
    requires
        s.len() > 0,
    ensures
        s.contains(k) <==> (s.drop_last().contains(k) || s.last() == k),
{
    if s.drop_last().contains(k) {
        let w = choose|w: int| 0 <= w < s.drop_last().len() && s.drop_last()[w] == k;
        assert(s[w] == k);
    }
    if s.last() == k {
        assert(s[s.len() - 1] == k);
    }
    if s.contains(k) {
        let w = choose|w: int| 0 <= w < s.len() && s[w] == k;
        if w < s.len() - 1 {
            assert(s.drop_last()[w] == k);
        }
    }
}

/// The number of relations arriving at each node, counting the edges of
/// nodes before `k` and node `k`'s first `e` edges: what the ordering
/// counts down.
pub open spec fn counts_upto(nodes: Seq<Node>, k: int, e: int) -> Seq<usize>
    decreases k, e,
{
    if k <= 0 && e <= 0 {
        Seq::new(nodes.len(), |j: int| 0usize)
    } else if e <= 0 {
        counts_upto(nodes, k - 1, nodes[k - 1].edges@.len() as int)
    } else {
        let prev = counts_upto(nodes, k, e - 1);
        let j = nodes[k].edges@[e - 1].to as int;
        prev.update(j, ((prev[j] + 1) as usize))
    }
}

/// The number of relations arriving at each node.
pub open spec fn incoming_counts(nodes: Seq<Node>) -> Seq<usize> {
    counts_upto(nodes, nodes.len() as int, 0)
}

/// Each source contributes at most one incoming relation per target, so a
/// partial count never exceeds the number of sources counted.
pub proof fn lemma_counts_upto_bound(nodes: Seq<Node>, k: int, e: int, j: int)
    requires
        forall|a: int|
            0 <= a < nodes.len() ==> edges_wf((#[trigger] nodes[a]).edges@, a, nodes.len() as int),
        0 <= k <= nodes.len(),
        0 <= e,
        k < nodes.len() ==> e <= nodes[k].edges@.len(),
        k == nodes.len() ==> e == 0,
        0 <= j < nodes.len(),
    ensures
        counts_upto(nodes, k, e).len() == nodes.len(),
        (counts_upto(nodes, k, e)[j] as int) <= k + (if exists|b: int|
            0 <= b < e && ((#[trigger] nodes[k].edges@[b].to) as int) == j {
            1int
        } else {
            0int
        }),
    decreases k, e,
{
    if k <= 0 && e <= 0 {
    } else if e <= 0 {
        lemma_counts_upto_bound(nodes, k - 1, nodes[k - 1].edges@.len() as int, j);
    } else {
        lemma_counts_upto_bound(nodes, k, e - 1, j);
        let to = nodes[k].edges@[e - 1].to as int;
        if to == j {
            assert(edges_wf(nodes[k].edges@, k, nodes.len() as int));
            assert forall|b: int| 0 <= b < e - 1 implies ((#[trigger] nodes[k].edges@[b].to) as int)
                != j by {
                assert(nodes[k].edges@[b].to != nodes[k].edges@[e - 1].to);
            }
            assert(nodes[k].edges@[e - 1].to as int == j);
        }
    }
}

/// One prerequisite of node `j` resolved: its count goes down, and it is
/// queued once nothing more holds it back and it was never queued before.
pub open spec fn topo_edge_step(
    st: (Seq<usize>, Seq<usize>, Seq<bool>, Seq<usize>),
    j: usize,
) -> (Seq<usize>, Seq<usize>, Seq<bool>, Seq<usize>) {
    let counts1 = if st.3[j as int] > 0 {
        st.3.update(j as int, ((st.3[j as int] - 1) as usize))
    } else {
        st.3
    };
    if counts1[j as int] == 0 && !st.2[j as int] {
        (st.0, st.1.push(j), st.2.update(j as int, true), counts1)
    } else {
        (st.0, st.1, st.2, counts1)
    }
}

/// Node `i`'s first `e` edges resolved, in order.
pub open spec fn topo_edges(
    nodes: Seq<Node>,
    i: int,
    e: int,
    st: (Seq<usize>, Seq<usize>, Seq<bool>, Seq<usize>),
) -> (Seq<usize>, Seq<usize>, Seq<bool>, Seq<usize>)
    decreases e,
{
    if e <= 0 {
        st
    } else {
        topo_edge_step(topo_edges(nodes, i, e - 1, st), nodes[i].edges@[e - 1].to)
    }
}

/// The ordering loop: take the most recently queued node, order it, and
/// resolve it for its successors; stop when the queue is empty.  The fuel
/// never runs out for a well-formed graph — each queued node is ordered
/// exactly once.
pub open spec fn topo_loop(
    nodes: Seq<Node>,
    st: (Seq<usize>, Seq<usize>, Seq<bool>, Seq<usize>),
    fuel: nat,
) -> Seq<usize>
    decreases fuel,
{
    if st.1.len() == 0 || fuel == 0 {
        st.0
    } else {
        let i = st.1.last();
        let st1 = (st.0.push(i), st.1.drop_last(), st.2, st.3);
        let st2 = topo_edges(nodes, i as int, nodes[i as int].edges@.len() as int, st1);
        topo_loop(nodes, st2, (fuel - 1) as nat)
    }
}

/// The starting state: nothing ordered, the first separator queued and
/// marked, every incoming relation still unresolved.
pub open spec fn topo_init(nodes: Seq<Node>) -> (Seq<usize>, Seq<usize>, Seq<bool>, Seq<usize>) {
    (
        Seq::empty(),
        Seq::empty().push(0usize),
        Seq::new(nodes.len(), |j: int| j == 0),
        incoming_counts(nodes),
    )
}

/// The order the solver visits nodes in: a pure function of the graph.
pub open spec fn spec_topo(nodes: Seq<Node>) -> Seq<usize> {
    topo_loop(nodes, topo_init(nodes), nodes.len() as nat)
}

impl Core {
    /// Kahn's ordering from the first separator: repeatedly take a node all
    /// of whose incoming relations are resolved, and resolve it for its
    /// successors.  The prerequisite counts are derived from the edge
    /// lists, so the order returned is exactly `spec_topo` of the graph.
    /// An order shorter than the node count means a cycle, or a node the
    /// first separator does not reach.
    pub fn topo_order(&self) -> (order: Vec<usize>)
        requires
            self.wf(),
        ensures
            order@ == spec_topo(self.nodes@),
            order@.no_duplicates(),
            forall|oi: int| 0 <= oi < order@.len() ==> ((#[trigger] order@[oi]) as int) < self.n(),
            order@.len() <= self.n(),
            order@.len() == self.n() ==> forall|k: usize|
                (k as int) < self.n() ==> order@.contains(k),
    {
        let n = self.nodes.len();
        // count the incoming relations of every node
        let mut reqs: Vec<usize> = Vec::new();
        let mut v: usize = 0;
        while v < n
            invariant
                v <= n,
                reqs@.len() == v,
                forall|a: int| 0 <= a < v ==> (#[trigger] reqs@[a]) == 0,
            decreases n - v,
        {
            reqs.push(0);
            v = v + 1;
        }
        proof {
            assert(reqs@ =~= counts_upto(self.nodes@, 0, 0));
        }
        let mut k: usize = 0;
        while k < n
            invariant
                k <= n,
                n == self.nodes@.len(),
                self.wf(),
                reqs@ == counts_upto(self.nodes@, k as int, 0),
                reqs@.len() == n,
            decreases n - k,
        {
            let deg = self.nodes[k].edges.len();
            let mut e: usize = 0;
            while e < deg
                invariant
                    k < n,
                    e <= deg,
                    deg == self.nodes@[k as int].edges@.len(),
                    n == self.nodes@.len(),
                    self.wf(),
                    reqs@ == counts_upto(self.nodes@, k as int, e as int),
                    reqs@.len() == n,
                decreases deg - e,
            {
                let to = self.nodes[k].edges[e].to;
                proof {
                    lemma_counts_upto_bound(self.nodes@, k as int, e as int, to as int);
                    assert(edges_wf(self.nodes@[k as int].edges@, k as int, n as int));
                    assert forall|b: int| 0 <= b < e implies ((
                    #[trigger] self.nodes@[k as int].edges@[b].to) as int) != to as int by {
                        assert(self.nodes@[k as int].edges@[b].to != self.nodes@[k as int].edges@[
                            e as int
                        ].to);
                    }
                    assert((reqs@[to as int] as int) <= k as int);
                }
                let c = reqs[to];
                reqs.set(to, c + 1);
                e = e + 1;
            }
            k = k + 1;
        }
        proof {
            assert(reqs@ == incoming_counts(self.nodes@));
        }
        // the ordering loop proper
        let mut visited: Vec<bool> = Vec::new();
        v = 0;
        while v < n
            invariant
                v <= n,
                visited@.len() == v,
                forall|a: int| 0 <= a < v ==> !(#[trigger] visited@[a]),
            decreases n - v,
        {
            visited.push(false);
            v = v + 1;
        }
        let mut order: Vec<usize> = Vec::new();
        let mut next: Vec<usize> = Vec::new();
        next.push(0);
        visited[0] = true;
        proof {
            assert(next@ =~= topo_init(self.nodes@).1);
            assert(visited@ =~= topo_init(self.nodes@).2);
            assert((order@, next@, visited@, reqs@) == topo_init(self.nodes@));
            assert(next@.len() == 1 && next@[0] == 0usize);
            assert(next@.contains(0usize));
            assert forall|q: usize| (q as int) < n implies (visited@[q as int] <==> (
            order@.contains(q) || next@.contains(q))) by {
                if q != 0 && next@.contains(q) {
                    let w = choose|w: int| 0 <= w < next@.len() && next@[w] == q;
                    assert(w == 0);
                }
            }
            assert forall|q: usize| !(order@.contains(q) && next@.contains(q)) by {
                if order@.contains(q) {
                    let w = choose|w: int| 0 <= w < order@.len() && order@[w] == q;
                }
            }
        }
        while next.len() > 0
            invariant
                self.wf(),
                self.n() == n,
                visited@.len() == n,
                reqs@.len() == n,
                order@.no_duplicates(),
                next@.no_duplicates(),
                forall|oi: int| 0 <= oi < order@.len() ==> ((#[trigger] order@[oi]) as int) < n,
                forall|oi: int| 0 <= oi < next@.len() ==> ((#[trigger] next@[oi]) as int) < n,
                forall|q: usize| !(order@.contains(q) && next@.contains(q)),
                forall|q: usize|
                    (q as int) < n ==> (visited@[q as int] <==> (order@.contains(q)
                        || next@.contains(q))),
                order@.len() + next@.len() <= n,
                topo_loop(self.nodes@, (order@, next@, visited@, reqs@), (n - order@.len()) as nat)
                    == spec_topo(self.nodes@),
            decreases n - order@.len(),
        {
            let ghost order0 = order@;
            let ghost next0 = next@;
            let ghost st0 = (order@, next@, visited@, reqs@);
            let i = match next.pop() {
                Some(i) => i,
                None => {
                    return order;
                }
            };
            proof {
                assert(next0.last() == i);
                assert(next@ == next0.drop_last());
                assert(next0.contains(i));
                assert(!order0.contains(i));
                assert forall|q: usize| !(order@.push(i).contains(q) && next@.contains(q)) by {
                    lemma_push_contains(order0, i, q);
                    lemma_drop_last_contains(next0, q);
                    if order@.push(i).contains(q) && next@.contains(q) {
                        if q == i {
                            let w = choose|w: int| 0 <= w < next@.len() && next@[w] == q;
                            assert(next0[w] == next0[next0.len() - 1]);
                            assert(false);
                        } else {
                            assert(order0.contains(q) && next0.contains(q));
                            assert(false);
                        }
                    }
                }
                assert forall|q: usize| (q as int) < n implies (visited@[q as int] <==> (
                order@.push(i).contains(q) || next@.contains(q))) by {
                    lemma_push_contains(order0, i, q);
                    lemma_drop_last_contains(next0, q);
                    assert(visited@[q as int] <==> (order0.contains(q) || next0.contains(q)));
                    if visited@[q as int] {
                        if next0.contains(q) && !next@.contains(q) {
                            assert(next0.last() == q);
                        }
                    }
                }
            }
            order.push(i);
            let ghost st1 = (order@, next@, visited@, reqs@);
            proof {
                assert(st1 == (st0.0.push(i), st0.1.drop_last(), st0.2, st0.3));
            }
            let deg = self.nodes[i].edges.len();
            let mut e: usize = 0;
            while e < deg
                invariant
                    self.wf(),
                    self.n() == n,
                    (i as int) < n,
                    deg == self.nodes@[i as int].edges@.len(),
                    e <= deg,
                    visited@.len() == n,
                    reqs@.len() == n,
                    order@ == st1.0,
                    order@.no_duplicates(),
                    next@.no_duplicates(),
                    forall|oi: int| 0 <= oi < order@.len() ==> ((#[trigger] order@[oi]) as int) < n,
                    forall|oi: int| 0 <= oi < next@.len() ==> ((#[trigger] next@[oi]) as int) < n,
                    forall|q: usize| !(order@.contains(q) && next@.contains(q)),
                    forall|q: usize|
                        (q as int) < n ==> (visited@[q as int] <==> (order@.contains(q)
                            || next@.contains(q))),
                    order@.len() + next@.len() <= n,
                    order@.len() > 0,
                    (order@, next@, visited@, reqs@) == topo_edges(
                        self.nodes@,
                        i as int,
                        e as int,
                        st1,
                    ),
                decreases deg - e,
            {
                let ghost stpre = (order@, next@, visited@, reqs@);
                let j = self.nodes[i].edges[e].to;
                let c = reqs[j];
                if c > 0 {
                    reqs.set(j, c - 1);
                }
                if reqs[j] == 0 && !visited[j] {
                    let ghost nextb = next@;
                    let ghost visited0 = visited@;
                    visited[j] = true;
                    next.push(j);
                    proof {
                        assert(!order@.contains(j) && !nextb.contains(j));
                        assert(next@.no_duplicates()) by {
                            assert forall|a: int, b: int|
                                0 <= a < next@.len() && 0 <= b < next@.len() && a != b implies next@[a]
                                != next@[b] by {
                                if a < nextb.len() && b < nextb.len() {
                                } else if a < nextb.len() {
                                    assert(next@[b] == j);
                                    assert(nextb.contains(nextb[a]));
                                } else {
                                    assert(next@[a] == j);
                                    assert(nextb.contains(nextb[b]));
                                }
                            }
                        }
                        assert forall|q: usize| !(order@.contains(q) && next@.contains(q)) by {
                            lemma_push_contains(nextb, j, q);
                        }
                        assert forall|q: usize| (q as int) < n implies (visited@[q as int] <==> (
                        order@.contains(q) || next@.contains(q))) by {
                            lemma_push_contains(nextb, j, q);
                            if q != j {
                                assert(visited@[q as int] == visited0[q as int]);
                                assert(visited0[q as int] <==> (order@.contains(q)
                                    || nextb.contains(q)));
                            }
                        }
                        assert(order@.len() + next@.len() <= n) by {
                            lemma_marked_at_most_n(order@, next@, n as int);
                        }
                    }
                }
                proof {
                    assert((order@, next@, visited@, reqs@) == topo_edge_step(
                        stpre,
                        self.nodes@[i as int].edges@[e as int].to,
                    ));
                }
                e = e + 1;
            }
            proof {
                let stcur = (order@, next@, visited@, reqs@);
                assert(st0.1.len() > 0);
                assert(st0.0.len() < n);
                assert(i == st0.1.last());
                assert(stcur == topo_edges(
                    self.nodes@,
                    i as int,
                    self.nodes@[i as int].edges@.len() as int,
                    st1,
                ));
                assert(order@.len() == st0.0.len() + 1);
                assert(topo_loop(self.nodes@, st0, (n - st0.0.len()) as nat) == topo_loop(
                    self.nodes@,
                    stcur,
                    (n - order@.len()) as nat,
                ));
            }
        }
        proof {
            assert(topo_loop(
                self.nodes@,
                (order@, next@, visited@, reqs@),
                (n - order@.len()) as nat,
            ) == order@);
            if order@.len() == n {
                lemma_index_pigeonhole(order@, n as int);
            }
        }
        order
    }
}

/// Two disjoint duplicate-free index lists below `n` hold at most `n`
/// entries together.
proof fn lemma_marked_at_most_n(order: Seq<usize>, next: Seq<usize>, n: int)
    requires
        order.no_duplicates(),
        next.no_duplicates(),
        forall|oi: int| 0 <= oi < order.len() ==> ((#[trigger] order[oi]) as int) < n,
        forall|oi: int| 0 <= oi < next.len() ==> ((#[trigger] next[oi]) as int) < n,
        forall|q: usize| !(order.contains(q) && next.contains(q)),
        0 <= n,
    ensures
        order.len() + next.len() <= n,
{
    let all = order + next;
    assert(all.no_duplicates()) by {
        assert forall|a: int, b: int|
            0 <= a < all.len() && 0 <= b < all.len() && a != b implies all[a] != all[b] by {
            if a < order.len() && b < order.len() {
            } else if a >= order.len() && b >= order.len() {
                assert(all[a] == next[a - order.len()]);
                assert(all[b] == next[b - order.len()]);
            } else if a < order.len() {
                assert(all[a] == order[a]);
                assert(all[b] == next[b - order.len()]);
                assert(order.contains(all[a]));
                assert(next.contains(all[b]));
            } else {
                assert(all[b] == order[b]);
                assert(all[a] == next[a - order.len()]);
                assert(order.contains(all[b]));
                assert(next.contains(all[a]));
            }
        }
    }
    let ai = all.map_values(|x: usize| x as int);
    assert(ai.no_duplicates()) by {
        assert forall|a: int, b: int|
            0 <= a < ai.len() && 0 <= b < ai.len() && a != b implies ai[a] != ai[b] by {
            assert(all[a] != all[b]);
        }
    }
    ai.unique_seq_to_set();
    lemma_int_range(0, n);
    assert forall|x: int| ai.to_set().contains(x) implies set_int_range(0, n).contains(x) by {
        let w = choose|w: int| 0 <= w < ai.len() && ai[w] == x;
        if w < order.len() {
            assert(order[w] == all[w]);
        } else {
            assert(next[w - order.len()] == all[w]);
        }
    }
    lemma_len_subset(ai.to_set(), set_int_range(0, n));
}

/// One relaxation step on one relation: a violated fixed relation pushes
/// its target forward or pulls its source back; a violated minimum pushes
/// its target forward; anything satisfied changes nothing.
pub open spec fn step_edge(p: Seq<i64>, k1: int, e: Edge, changed: bool) -> (Seq<i64>, bool) {
    let k2 = e.to as int;
    if e.rel.is_fixed() {
        let target = clip(p[k1] + e.rel.min_offset);
        if (p[k2] as int) != target {
            if (p[k2] as int) < target {
                (p.update(k2, target as i64), true)
            } else {
                (p.update(k1, clip(p[k2] - e.rel.min_offset) as i64), true)
            }
        } else {
            (p, changed)
        }
    } else {
        if clip(p[k2] - p[k1]) < e.rel.min_offset {
            (p.update(k2, clip(p[k1] + e.rel.min_offset) as i64), true)
        } else {
            (p, changed)
        }
    }
}

/// The first `ei` relations of the node at order position `oi`, applied in
/// order.
pub open spec fn run_edges(
    nodes: Seq<Node>,
    order: Seq<usize>,
    p: Seq<i64>,
    changed: bool,
    oi: int,
    ei: int,
) -> (Seq<i64>, bool)
    decreases ei,
{
    if ei <= 0 {
        (p, changed)
    } else {
        let prev = run_edges(nodes, order, p, changed, oi, ei - 1);
        step_edge(prev.0, order[oi] as int, nodes[order[oi] as int].edges@[ei - 1], prev.1)
    }
}

/// The relations of the first `oi` ordered nodes, applied in order.
pub open spec fn run_nodes(
    nodes: Seq<Node>,
    order: Seq<usize>,
    p: Seq<i64>,
    changed: bool,
    oi: int,
) -> (Seq<i64>, bool)
    decreases oi,
{
    if oi <= 0 {
        (p, changed)
    } else {
        let prev = run_nodes(nodes, order, p, changed, oi - 1);
        run_edges(
            nodes,
            order,
            prev.0,
            prev.1,
            oi - 1,
            nodes[order[oi - 1] as int].edges@.len() as int,
        )
    }
}

/// One full pass over the order, and whether it corrected anything.
pub open spec fn run_pass(nodes: Seq<Node>, order: Seq<usize>, p: Seq<i64>) -> (Seq<i64>, bool) {
    run_nodes(nodes, order, p, false, order.len() as int)
}

/// Up to `fuel` passes: stop at the first pass that corrects nothing (a
/// fixed point, flagged true), or report failure when the fuel runs out.
pub open spec fn run_passes(
    nodes: Seq<Node>,
    order: Seq<usize>,
    p: Seq<i64>,
    fuel: nat,
) -> (Seq<i64>, bool)
    decreases fuel,
{
    if fuel == 0 {
        (p, false)
    } else {
        let one = run_pass(nodes, order, p);
        if !one.1 {
            (one.0, true)
        } else {
            run_passes(nodes, order, one.0, (fuel - 1) as nat)
        }
    }
}

/// A zero position for every node.
pub open spec fn zero_positions(n: nat) -> Seq<i64> {
    Seq::new(n, |k: int| 0i64)
}

/// What relaxing the graph along an order returns: the fixed point reached
/// within the pass budget, or the zero assignment and a failure flag.
pub open spec fn spec_relax(nodes: Seq<Node>, order: Seq<usize>) -> (Seq<i64>, bool) {
    let rr = run_passes(nodes, order, zero_positions(nodes.len()), 19);
    if rr.1 {
        rr
    } else {
        (zero_positions(nodes.len()), false)
    }
}

/// The logical positions the whole solve commits: a pure function of the
/// graph.  If the order from the first separator covers every node and the
/// relaxation reaches a fixed point within the budget, they are that fixed
/// point; otherwise every position is zero.
pub open spec fn spec_base(nodes: Seq<Node>) -> Seq<i64> {
    let order = spec_topo(nodes);
    if order.len() == nodes.len() {
        spec_relax(nodes, order).0
    } else {
        zero_positions(nodes.len())
    }
}

/// Relaxes the graph: up to nineteen passes over the given order, pushing a
/// minimum-only relation's target forward when it is too close, and
/// restoring a fixed relation by pushing its target forward or pulling its
/// source back.  A pass without a correction is a fixed point: the result is
/// flagged as settled, and every relation out of an ordered node holds.
pub fn relax(nodes: &Vec<Node>, order: &Vec<usize>) -> (r: (Vec<i64>, bool))
    requires
        forall|k: int|
            0 <= k < nodes@.len() ==> edges_wf(
                (#[trigger] nodes@[k]).edges@,
                k,
                nodes@.len() as int,
            ),
        forall|oi: int|
            0 <= oi < order@.len() ==> ((#[trigger] order@[oi]) as int) < nodes@.len(),
    ensures
        (r.0@, r.1) == spec_relax(nodes@, order@),
        r.0@.len() == nodes@.len(),
        r.1 ==> forall|oi: int|
            0 <= oi < order@.len() ==> node_sat(nodes@, r.0@, (#[trigger] order@[oi]) as int),
        !r.1 ==> all_zero(r.0@),
{
    let n = nodes.len();
    let mut positions: Vec<i64> = zero_vec(n);
    let mut pass: usize = 1;
    while pass < 20
        invariant
            positions@.len() == n,
            1 <= pass <= 20,
            run_passes(nodes@, order@, positions@, (20 - pass) as nat) == run_passes(
                nodes@,
                order@,
                zero_positions(n as nat),
                19,
            ),
        decreases 20 - pass,
    {
        let mut changed = false;
        let ghost p0 = positions@;
        let mut oi: usize = 0;
        while oi < order.len()
            invariant
                positions@.len() == n,
                oi <= order@.len(),
                !changed ==> positions@ == p0,
                !changed ==> forall|a: int|
                    0 <= a < oi ==> node_sat(nodes@, positions@, (#[trigger] order@[a]) as int),
                (positions@, changed) == run_nodes(nodes@, order@, p0, false, oi as int),
            decreases order@.len() - oi,
        {
            let k1 = order[oi];
            let ghost stn = run_nodes(nodes@, order@, p0, false, oi as int);
            let deg = nodes[k1].edges.len();
            let mut ei: usize = 0;
            while ei < deg
                invariant
                    positions@.len() == n,
                    ei <= deg,
                    (k1 as int) < n,
                    (oi as int) < order@.len(),
                    k1 == order@[oi as int],
                    deg == nodes@[k1 as int].edges@.len(),
                    stn == run_nodes(nodes@, order@, p0, false, oi as int),
                    !changed ==> positions@ == p0,
                    !changed ==> forall|a: int|
                        0 <= a < oi ==> node_sat(nodes@, positions@, (#[trigger] order@[a]) as int),
                    !changed ==> forall|b: int|
                        0 <= b < ei ==> edge_sat(
                            positions@,
                            k1 as int,
                            #[trigger] nodes@[k1 as int].edges@[b],
                        ),
                    (positions@, changed) == run_edges(
                        nodes@,
                        order@,
                        stn.0,
                        stn.1,
                        oi as int,
                        ei as int,
                    ),
                decreases deg - ei,
            {
                let ghost pe = positions@;
                let ghost che = changed;
                let k2 = nodes[k1].edges[ei].to;
                let rel = nodes[k1].edges[ei].rel;
                if rel.max_offset == Extent::Fin(rel.min_offset) {
                    let target = add_clip(positions[k1], rel.min_offset);
                    if positions[k2] != target {
                        if positions[k2] < target {
                            positions.set(k2, target);
                        } else {
                            let pulled = sub_clip(positions[k2], rel.min_offset);
                            positions.set(k1, pulled);
                        }
                        changed = true;
                    }
                } else {
                    let offset = sub_clip(positions[k2], positions[k1]);
                    if offset < rel.min_offset {
                        positions.set(k2, add_clip(positions[k1], rel.min_offset));
                        changed = true;
                    }
                }
                proof {
                    assert((positions@, changed) == step_edge(
                        pe,
                        k1 as int,
                        nodes@[k1 as int].edges@[ei as int],
                        che,
                    ));
                }
                ei = ei + 1;
            }
            oi = oi + 1;
            proof {
                assert((positions@, changed) == run_nodes(nodes@, order@, p0, false, oi as int));
            }
        }
        proof {
            assert((positions@, changed) == run_pass(nodes@, order@, p0));
        }
        if !changed {
            proof {
                assert(run_passes(nodes@, order@, p0, (20 - pass) as nat) == (positions@, true));
            }
            return (positions, true);
        }
        pass = pass + 1;
    }
    // the pass budget ran out without a fixed point: this is a deliberate
    // policy — the scratch positions are discarded, never committed, so a
    // result is always either constraint-satisfying or the recognizable
    // all-zero degenerate assignment
    proof {
        assert(run_passes(nodes@, order@, positions@, 0) == (positions@, false));
    }
    (zero_vec(n), false)
}

/// A vector of `n` zero positions.
fn zero_vec(n: usize) -> (r: Vec<i64>)
    ensures
        r@.len() == n,
        all_zero(r@),
        r@ == zero_positions(n as nat),
{
    let mut positions: Vec<i64> = Vec::new();
    let mut v: usize = 0;
    while v < n
        invariant
            v <= n,
            positions@.len() == v,
            forall|a: int| 0 <= a < v ==> (#[trigger] positions@[a]) == 0,
        decreases n - v,
    {
        positions.push(0);
        v = v + 1;
    }
    proof {
        assert(positions@ =~= zero_positions(n as nat));
    }
    positions
}


/// The positions stored in a node sequence.
pub open spec fn positions_of(nodes: Seq<Node>) -> Seq<i64> {
    Seq::new(nodes.len(), |k: int| nodes[k].position)
}

/// The slack one edge grants the group `g`, read on the positions `p`: how
/// far the edge's target sits beyond the least the relation demands.
/// Edges inside a group, and edges out of other groups, grant nothing.
pub open spec fn edge_grant(
    nodes: Seq<Node>,
    p: Seq<i64>,
    gs: Seq<GroupInfo>,
    g: int,
    k: int,
    e: int,
) -> Extent {
    let ed = nodes[k].edges@[e];
    if (gs[k].parent as int) == g && (gs[ed.to as int].parent as int) != g {
        Extent::Fin(clip(clip(p[ed.to as int] - p[k]) - ed.rel.min_offset) as i64)
    } else {
        Extent::Inf
    }
}

/// The least slack granted to group `g` by the edges before node `k`'s
/// edge `e`, in node order.
pub open spec fn cross_min_upto(
    nodes: Seq<Node>,
    p: Seq<i64>,
    gs: Seq<GroupInfo>,
    g: int,
    k: int,
    e: int,
) -> Extent
    decreases k, e,
{
    if k <= 0 && e <= 0 {
        Extent::Inf
    } else if e <= 0 {
        cross_min_upto(nodes, p, gs, g, k - 1, nodes[k - 1].edges@.len() as int)
    } else {
        cross_min_upto(nodes, p, gs, g, k, e - 1).spec_min(edge_grant(nodes, p, gs, g, k, e - 1))
    }
}

/// The least slack any edge grants the group `g`: its room to shift as one
/// without breaking a relation that reaches outside it.
pub open spec fn cross_min(nodes: Seq<Node>, p: Seq<i64>, gs: Seq<GroupInfo>, g: int) -> Extent {
    cross_min_upto(nodes, p, gs, g, nodes.len() as int, 0)
}

/// Taking minima in sequence brackets freely.
pub proof fn lemma_ext_min_assoc(a: Extent, b: Extent, c: Extent)
    ensures
        a.spec_min(b).spec_min(c) == a.spec_min(b.spec_min(c)),
{
}

/// Computes every group's slack from the finished positions, folding each
/// edge's grant into the record of the source's parent group.
pub fn compute_extras(nodes: &Vec<Node>, groups: &mut Vec<GroupInfo>)
    requires
        old(groups)@.len() == nodes@.len(),
        forall|k: int|
            0 <= k < nodes@.len() ==> edges_wf(
                (#[trigger] nodes@[k]).edges@,
                k,
                nodes@.len() as int,
            ),
        forall|k: int|
            0 <= k < old(groups)@.len() ==> ((#[trigger] old(groups)@[k].parent) as int) < old(
                groups,
            )@.len(),
    ensures
        final(groups)@.len() == old(groups)@.len(),
        forall|gi: int|
            0 <= gi < old(groups)@.len() ==> (#[trigger] final(groups)@[gi]).parent == old(
                groups,
            )@[gi].parent && final(groups)@[gi].depth == old(groups)@[gi].depth,
        forall|gi: int|
            0 <= gi < old(groups)@.len() ==> (#[trigger] final(groups)@[gi]).extra_space == old(
                groups,
            )@[gi].extra_space.spec_min(cross_min(nodes@, positions_of(nodes@), old(groups)@, gi)),
{
    let ghost g0 = old(groups)@;
    let n = nodes.len();
    let mut k: usize = 0;
    while k < n
        invariant
            k <= n,
            n == nodes@.len(),
            groups@.len() == n,
            g0.len() == n,
            forall|gi: int|
                0 <= gi < n ==> (#[trigger] groups@[gi]).parent == g0[gi].parent
                    && groups@[gi].depth == g0[gi].depth,
            forall|gi: int|
                0 <= gi < n ==> (#[trigger] groups@[gi]).extra_space == g0[gi].extra_space.spec_min(
                    cross_min_upto(nodes@, positions_of(nodes@), g0, gi, k as int, 0),
                ),
        decreases n - k,
    {
        let deg = nodes[k].edges.len();
        let mut e: usize = 0;
        while e < deg
            invariant
                k < n,
                e <= deg,
                deg == nodes@[k as int].edges@.len(),
                n == nodes@.len(),
                groups@.len() == n,
                g0.len() == n,
                forall|gi: int|
                    0 <= gi < n ==> (#[trigger] groups@[gi]).parent == g0[gi].parent
                        && groups@[gi].depth == g0[gi].depth,
                forall|gi: int|
                    0 <= gi < n ==> (#[trigger] groups@[gi]).extra_space == g0[gi].extra_space
                        .spec_min(
                        cross_min_upto(nodes@, positions_of(nodes@), g0, gi, k as int, e as int),
                    ),
            decreases deg - e,
        {
            let ghost gprev = groups@;
            let to = nodes[k].edges[e].to;
            let minoff = nodes[k].edges[e].rel.min_offset;
            let gk = groups[k].parent;
            let gt = groups[to].parent;
            if gt != gk {
                let slack = sub_clip(sub_clip(nodes[to].position, nodes[k].position), minoff);
                groups[gk].extra_space.set_min(Extent::Fin(slack));
            }
            proof {
                let ghost pp = positions_of(nodes@);
                assert forall|gi: int| 0 <= gi < n implies (#[trigger] groups@[gi]).extra_space
                    == g0[gi].extra_space.spec_min(
                    cross_min_upto(nodes@, pp, g0, gi, k as int, e + 1),
                ) by {
                    let up = cross_min_upto(nodes@, pp, g0, gi, k as int, e as int);
                    let c = edge_grant(nodes@, pp, g0, gi, k as int, e as int);
                    assert(cross_min_upto(nodes@, pp, g0, gi, k as int, e + 1) == up.spec_min(c));
                    if gi == gk as int && gt != gk {
                        lemma_ext_min_assoc(g0[gi].extra_space, up, c);
                    } else {
                        assert(c == Extent::Inf);
                        assert(up.spec_min(c) == up);
                        if gt != gk {
                            assert(groups@[gi].extra_space == gprev[gi].extra_space);
                        }
                    }
                }
            }
            e = e + 1;
        }
        proof {
            assert forall|gi: int| 0 <= gi < n implies cross_min_upto(
                nodes@,
                positions_of(nodes@),
                g0,
                gi,
                k + 1,
                0,
            ) == cross_min_upto(nodes@, positions_of(nodes@), g0, gi, k as int, deg as int) by {
            }
        }
        k = k + 1;
    }
}

/// The slack of the group whose root is `g`, computed on demand from the
/// finished positions: the same least grant `compute_extras` would fold in.
pub fn extra_for(nodes: &Vec<Node>, groups: &Vec<GroupInfo>, g: usize) -> (r: Extent)
    requires
        groups@.len() == nodes@.len(),
        forall|k: int|
            0 <= k < nodes@.len() ==> edges_wf(
                (#[trigger] nodes@[k]).edges@,
                k,
                nodes@.len() as int,
            ),
        forall|k: int|
            0 <= k < groups@.len() ==> ((#[trigger] groups@[k].parent) as int) < groups@.len(),
    ensures
        r == cross_min(nodes@, positions_of(nodes@), groups@, g as int),
{
    let n = nodes.len();
    let mut acc = Extent::Inf;
    let mut k: usize = 0;
    while k < n
        invariant
            k <= n,
            n == nodes@.len(),
            acc == cross_min_upto(nodes@, positions_of(nodes@), groups@, g as int, k as int, 0),
        decreases n - k,
    {
        let deg = nodes[k].edges.len();
        let mut e: usize = 0;
        while e < deg
            invariant
                k < n,
                e <= deg,
                deg == nodes@[k as int].edges@.len(),
                n == nodes@.len(),
                acc == cross_min_upto(
                    nodes@,
                    positions_of(nodes@),
                    groups@,
                    g as int,
                    k as int,
                    e as int,
                ),
            decreases deg - e,
        {
            let to = nodes[k].edges[e].to;
            let minoff = nodes[k].edges[e].rel.min_offset;
            if groups[k].parent == g && groups[to].parent != g {
                let slack = sub_clip(sub_clip(nodes[to].position, nodes[k].position), minoff);
                acc.set_min(Extent::Fin(slack));
            }
            e = e + 1;
        }
        k = k + 1;
    }
    acc
}

/// The slack cached for the group containing node `k`: the record of `k`'s
/// parent.
pub open spec fn extra_root_of(gs: Seq<GroupInfo>, k: int) -> Extent {
    gs[gs[k].parent as int].extra_space
}

/// Mirrors the finished positions for right-to-left layout: each align
/// point first absorbs its group's slack, then every position is reflected
/// about the last separator's position.
pub fn apply_rtl(nodes: &mut Vec<Node>, groups: &Vec<GroupInfo>, zones: usize)
    requires
        (zones as int) < old(nodes)@.len(),
        groups@.len() == old(nodes)@.len(),
        forall|k: int|
            0 <= k < groups@.len() ==> ((#[trigger] groups@[k].parent) as int) < groups@.len(),
        forall|k: int|
            zones < k < old(nodes)@.len() ==> (#[trigger] extra_root_of(groups@, k)) is Fin,
    ensures
        final(nodes)@.len() == old(nodes)@.len(),
        forall|k: int|
            0 <= k < old(nodes)@.len() ==> (#[trigger] final(nodes)@[k].kind) == old(
                nodes,
            )@[k].kind && final(nodes)@[k].edges@ == old(nodes)@[k].edges@,
        forall|k: int|
            0 <= k <= zones ==> ((#[trigger] final(nodes)@[k].position) as int) == clip(
                old(nodes)@[zones as int].position - old(nodes)@[k].position,
            ),
        forall|k: int|
            zones < k < old(nodes)@.len() ==> ((#[trigger] final(nodes)@[k].position) as int)
                == clip(
                old(nodes)@[zones as int].position - clip(
                    old(nodes)@[k].position + extra_root_of(groups@, k).fin_val(),
                ),
            ),
{
    let ghost nodes0 = old(nodes)@;
    let n = nodes.len();
    let mut k: usize = zones + 1;
    while k < n
        invariant
            zones < k <= n || (zones + 1 > n && k == zones + 1),
            n == nodes@.len(),
            nodes@.len() == nodes0.len(),
            forall|a: int|
                0 <= a < n ==> (#[trigger] nodes@[a].kind) == nodes0[a].kind && nodes@[a].edges@
                    == nodes0[a].edges@,
            forall|a: int| 0 <= a <= zones && a < n ==> (#[trigger] nodes@[a].position) == nodes0[a].position,
            forall|a: int| k <= a < n ==> (#[trigger] nodes@[a].position) == nodes0[a].position,
            forall|a: int|
                zones < a < k && a < n ==> ((#[trigger] nodes@[a].position) as int) == clip(
                    nodes0[a].position + extra_root_of(groups@, a).fin_val(),
                ),
        decreases n - k,
    {
        let gk = groups[k].parent;
        match groups[gk].extra_space {
            Extent::Fin(x) => {
                let p = add_clip(nodes[k].position, x);
                nodes[k].position = p;
            }
            Extent::Inf => {
                proof {
                    assert(extra_root_of(groups@, k as int) is Fin);
                }
            }
        }
        k = k + 1;
    }
    let w = nodes[zones].position;
    let mut a: usize = 0;
    let ghost nodes1 = nodes@;
    while a < n
        invariant
            a <= n,
            n == nodes@.len(),
            nodes1.len() == n,
            w == nodes0[zones as int].position,
            forall|b: int|
                0 <= b < n ==> (#[trigger] nodes@[b].kind) == nodes1[b].kind && nodes@[b].edges@
                    == nodes1[b].edges@,
            forall|b: int| a <= b < n ==> (#[trigger] nodes@[b].position) == nodes1[b].position,
            forall|b: int|
                0 <= b < a ==> ((#[trigger] nodes@[b].position) as int) == clip(
                    w - nodes1[b].position,
                ),
        decreases n - a,
    {
        let p = sub_clip(w, nodes[a].position);
        nodes[a].position = p;
        a = a + 1;
    }
}


/// The folded minimum sits at or below any single edge's grant.
pub proof fn lemma_upto_le_grant(
    nodes: Seq<Node>,
    p: Seq<i64>,
    gs: Seq<GroupInfo>,
    g: int,
    k: int,
    e: int,
    k2: int,
    e2: int,
)
    requires
        0 <= k < nodes.len(),
        0 <= e < nodes[k].edges@.len(),
        k2 > k || (k2 == k && e2 > e),
        k2 <= nodes.len(),
        k2 < nodes.len() ==> e2 <= nodes[k2].edges@.len(),
        k2 == nodes.len() ==> e2 == 0,
        0 <= e2,
    ensures
        cross_min_upto(nodes, p, gs, g, k2, e2).spec_le(edge_grant(nodes, p, gs, g, k, e)),
    decreases k2, e2,
{
    if k2 == k && e2 == e + 1 {
        assert(cross_min_upto(nodes, p, gs, g, k2, e2) == cross_min_upto(
            nodes,
            p,
            gs,
            g,
            k,
            e,
        ).spec_min(edge_grant(nodes, p, gs, g, k, e)));
    } else if e2 == 0 {
        lemma_upto_le_grant(nodes, p, gs, g, k, e, k2 - 1, nodes[k2 - 1].edges@.len() as int);
    } else {
        lemma_upto_le_grant(nodes, p, gs, g, k, e, k2, e2 - 1);
    }
}

/// The folded minimum of a group, hence its slack, never exceeds what any
/// one edge grants it.
pub proof fn lemma_cross_min_le_grant(
    nodes: Seq<Node>,
    p: Seq<i64>,
    gs: Seq<GroupInfo>,
    g: int,
    k: int,
    e: int,
)
    requires
        0 <= k < nodes.len(),
        0 <= e < nodes[k].edges@.len(),
    ensures
        cross_min(nodes, p, gs, g).spec_le(edge_grant(nodes, p, gs, g, k, e)),
{
    lemma_upto_le_grant(nodes, p, gs, g, k, e, nodes.len() as int, 0);
}

/// The folded minimum reads only the edge lists of its node sequence, so
/// two sequences with the same edges fold alike.
pub proof fn lemma_upto_same_edges(
    nodes1: Seq<Node>,
    nodes2: Seq<Node>,
    p: Seq<i64>,
    gs: Seq<GroupInfo>,
    g: int,
    k: int,
    e: int,
)
    requires
        nodes1.len() == nodes2.len(),
        forall|a: int| 0 <= a < nodes1.len() ==> (#[trigger] nodes2[a].edges@) == nodes1[a].edges@,
        0 <= k <= nodes1.len(),
        0 <= e,
        k < nodes1.len() ==> e <= nodes1[k].edges@.len(),
        k == nodes1.len() ==> e == 0,
    ensures
        cross_min_upto(nodes1, p, gs, g, k, e) == cross_min_upto(nodes2, p, gs, g, k, e),
    decreases k, e,
{
    if k <= 0 && e <= 0 {
    } else if e <= 0 {
        assert(nodes2[k - 1].edges@ == nodes1[k - 1].edges@);
        lemma_upto_same_edges(nodes1, nodes2, p, gs, g, k - 1, nodes1[k - 1].edges@.len() as int);
    } else {
        assert(k < nodes1.len());
        assert(nodes2[k].edges@ == nodes1[k].edges@);
        lemma_upto_same_edges(nodes1, nodes2, p, gs, g, k, e - 1);
    }
}

/// Two node sequences with the same edges give each group the same slack.
pub proof fn lemma_cross_min_same_edges(
    nodes1: Seq<Node>,
    nodes2: Seq<Node>,
    p: Seq<i64>,
    gs: Seq<GroupInfo>,
    g: int,
)
    requires
        nodes1.len() == nodes2.len(),
        forall|a: int| 0 <= a < nodes1.len() ==> (#[trigger] nodes2[a].edges@) == nodes1[a].edges@,
    ensures
        cross_min(nodes1, p, gs, g) == cross_min(nodes2, p, gs, g),
{
    lemma_upto_same_edges(nodes1, nodes2, p, gs, g, nodes1.len() as int, 0);
}


/// The folded minimum reads only the parent fields of the group records,
/// so two record sequences with the same parents fold alike.
pub proof fn lemma_upto_same_parents(
    nodes: Seq<Node>,
    p: Seq<i64>,
    gs1: Seq<GroupInfo>,
    gs2: Seq<GroupInfo>,
    g: int,
    k: int,
    e: int,
)
    requires
        gs1.len() == gs2.len(),
        nodes.len() == gs1.len(),
        forall|a: int| 0 <= a < gs1.len() ==> (#[trigger] gs2[a].parent) == gs1[a].parent,
        forall|a: int|
            0 <= a < nodes.len() ==> edges_wf((#[trigger] nodes[a]).edges@, a, nodes.len() as int),
        0 <= k <= nodes.len(),
        0 <= e,
        k < nodes.len() ==> e <= nodes[k].edges@.len(),
        k == nodes.len() ==> e == 0,
    ensures
        cross_min_upto(nodes, p, gs1, g, k, e) == cross_min_upto(nodes, p, gs2, g, k, e),
    decreases k, e,
{
    if k <= 0 && e <= 0 {
    } else if e <= 0 {
        lemma_upto_same_parents(nodes, p, gs1, gs2, g, k - 1, nodes[k - 1].edges@.len() as int);
    } else {
        lemma_upto_same_parents(nodes, p, gs1, gs2, g, k, e - 1);
        assert(crate::graph::edge_ok(nodes[k].edges@[e - 1], k, nodes.len() as int));
        assert(edge_grant(nodes, p, gs1, g, k, e - 1) == edge_grant(nodes, p, gs2, g, k, e - 1));
    }
}

/// Two record sequences with the same parents give each group the same
/// slack.
pub proof fn lemma_cross_min_same_parents(
    nodes: Seq<Node>,
    p: Seq<i64>,
    gs1: Seq<GroupInfo>,
    gs2: Seq<GroupInfo>,
    g: int,
)
    requires
        gs1.len() == gs2.len(),
        nodes.len() == gs1.len(),
        forall|a: int| 0 <= a < gs1.len() ==> (#[trigger] gs2[a].parent) == gs1[a].parent,
        forall|a: int|
            0 <= a < nodes.len() ==> edges_wf((#[trigger] nodes[a]).edges@, a, nodes.len() as int),
    ensures
        cross_min(nodes, p, gs1, g) == cross_min(nodes, p, gs2, g),
{
    lemma_upto_same_parents(nodes, p, gs1, gs2, g, nodes.len() as int, 0);
}


/// The stored relations of the nodes before node `k`'s edge `e`, in node
/// order: source, target, minimum, maximum.
pub open spec fn rels_upto(nodes: Seq<Node>, k: int, e: int) -> Seq<(usize, usize, i64, Extent)>
    decreases k, e,
{
    if k <= 0 && e <= 0 {
        Seq::empty()
    } else if e <= 0 {
        rels_upto(nodes, k - 1, nodes[k - 1].edges@.len() as int)
    } else {
        rels_upto(nodes, k, e - 1).push(
            (
                k as usize,
                nodes[k].edges@[e - 1].to,
                nodes[k].edges@[e - 1].rel.min_offset,
                nodes[k].edges@[e - 1].rel.max_offset,
            ),
        )
    }
}

/// Every stored relation, in node order.
pub open spec fn rels_of(nodes: Seq<Node>) -> Seq<(usize, usize, i64, Extent)> {
    rels_upto(nodes, nodes.len() as int, 0)
}

/// Lists every stored relation as a source, a target, and the interval's
/// two ends: a structured diagnostic dump of the graph.
pub fn relation_list(nodes: &Vec<Node>) -> (r: Vec<(usize, usize, i64, Extent)>)
    ensures
        r@ == rels_of(nodes@),
{
    let n = nodes.len();
    let mut acc: Vec<(usize, usize, i64, Extent)> = Vec::new();
    let mut k: usize = 0;
    while k < n
        invariant
            k <= n,
            n == nodes@.len(),
            acc@ == rels_upto(nodes@, k as int, 0),
        decreases n - k,
    {
        let deg = nodes[k].edges.len();
        let mut e: usize = 0;
        while e < deg
            invariant
                k < n,
                e <= deg,
                deg == nodes@[k as int].edges@.len(),
                n == nodes@.len(),
                acc@ == rels_upto(nodes@, k as int, e as int),
            decreases deg - e,
        {
            let edge = &nodes[k].edges[e];
            acc.push((k, edge.to, edge.rel.min_offset, edge.rel.max_offset));
            e = e + 1;
        }
        k = k + 1;
    }
    acc
}

/// What the position dump promises: one entry per node, each carrying that
/// node's stored position, every node listed once, in ascending position
/// order.
pub open spec fn position_list_ok(nodes: Seq<Node>, r: Seq<(i64, usize)>) -> bool {
    &&& r.len() == nodes.len()
    &&& forall|i: int|
        0 <= i < r.len() ==> ((#[trigger] r[i].1) as int) < nodes.len() && r[i].0
            == nodes[r[i].1 as int].position
    &&& forall|i: int, j: int| 0 <= i < r.len() && 0 <= j < r.len() && i != j ==> (#[trigger] r[i].1)
        != (#[trigger] r[j].1)
    &&& forall|i: int, j: int|
        0 <= i < j < r.len() ==> (#[trigger] r[i].0) <= (#[trigger] r[j].0)
}

/// Lists every node with its stored position, sorted ascending by
/// position: a structured diagnostic dump of the solution.  Nodes with
/// equal positions keep no particular order.
pub fn position_list(nodes: &Vec<Node>) -> (r: Vec<(i64, usize)>)
    ensures
        position_list_ok(nodes@, r@),
{
    let n = nodes.len();
    let mut acc: Vec<(i64, usize)> = Vec::new();
    let mut k: usize = 0;
    while k < n
        invariant
            k <= n,
            n == nodes@.len(),
            acc@.len() == k,
            forall|i: int|
                0 <= i < k ==> ((#[trigger] acc@[i].1) as int) == i && acc@[i].0
                    == nodes@[i].position,
        decreases n - k,
    {
        acc.push((nodes[k].position, k));
        k = k + 1;
    }
    proof {
        assert forall|i: int, j: int|
            0 <= i < acc@.len() && 0 <= j < acc@.len() && i != j implies (#[trigger] acc@[i].1) != (
        #[trigger] acc@[j].1) by {
        }
    }
    sort_by_first(&mut acc, Ghost(nodes@));
    acc
}

/// Insertion sort of position entries by their first component.  The
/// per-entry facts and the pairwise distinctness of the node indices
/// survive any reordering; sortedness is established.
fn sort_by_first(v: &mut Vec<(i64, usize)>, nodes: Ghost<Seq<Node>>)
    requires
        old(v)@.len() == nodes@.len(),
        forall|i: int|
            0 <= i < old(v)@.len() ==> ((#[trigger] old(v)@[i].1) as int) < nodes@.len()
                && old(v)@[i].0 == nodes@[old(v)@[i].1 as int].position,
        forall|i: int, j: int|
            0 <= i < old(v)@.len() && 0 <= j < old(v)@.len() && i != j ==> (#[trigger] old(
                v,
            )@[i].1) != (#[trigger] old(v)@[j].1),
    ensures
        position_list_ok(nodes@, final(v)@),
{
    let n = v.len();
    let mut i: usize = 1;
    while i < n || n == 0
        invariant
            n == v@.len(),
            n > 0 ==> 1 <= i <= n,
            n == 0 ==> i == 1,
            n == nodes@.len(),
            forall|a: int|
                0 <= a < n ==> ((#[trigger] v@[a].1) as int) < nodes@.len() && v@[a].0
                    == nodes@[v@[a].1 as int].position,
            forall|a: int, b: int|
                0 <= a < n && 0 <= b < n && a != b ==> (#[trigger] v@[a].1) != (#[trigger] v@[b].1),
            forall|a: int, b: int| 0 <= a < b < i ==> (#[trigger] v@[a].0) <= (#[trigger] v@[b].0),
        decreases n - i,
    {
        if n == 0 {
            return ;
        }
        let mut j = i;
        while j > 0 && v[j - 1].0 > v[j].0
            invariant
                n == v@.len(),
                0 <= j <= i < n,
                n == nodes@.len(),
                forall|a: int|
                    0 <= a < n ==> ((#[trigger] v@[a].1) as int) < nodes@.len() && v@[a].0
                        == nodes@[v@[a].1 as int].position,
                forall|a: int, b: int|
                    0 <= a < n && 0 <= b < n && a != b ==> (#[trigger] v@[a].1) != (
                    #[trigger] v@[b].1),
                forall|a: int, b: int|
                    0 <= a < b <= i && b != j ==> (#[trigger] v@[a].0) <= (#[trigger] v@[b].0),
                forall|b: int| j < b <= i ==> (#[trigger] v@[j as int].0) <= v@[b].0,
            decreases j,
        {
            let ghost before = v@;
            let x = v[j - 1];
            let y = v[j];
            v.set(j - 1, y);
            v.set(j, x);
            proof {
                assert forall|a: int, b: int|
                    0 <= a < n && 0 <= b < n && a != b implies (#[trigger] v@[a].1) != (
                #[trigger] v@[b].1) by {
                    let a0: int = if a == j - 1 {
                        j as int
                    } else if a == j {
                        j - 1
                    } else {
                        a
                    };
                    let b0: int = if b == j - 1 {
                        j as int
                    } else if b == j {
                        j - 1
                    } else {
                        b
                    };
                    assert(v@[a] == before[a0] && v@[b] == before[b0]);
                }
            }
            j = j - 1;
        }
        i = i + 1;
    }
}


/// When no relation grants a group anything finite, its folded slack stays
/// infinite; with `lemma_cross_min_le_grant` this makes the slack infinite
/// exactly when the group has no outgoing cross-group relation.
pub proof fn lemma_upto_inf_without_grant(
    nodes: Seq<Node>,
    p: Seq<i64>,
    gs: Seq<GroupInfo>,
    g: int,
    k: int,
    e: int,
)
    requires
        forall|a: int, b: int|
            0 <= a < nodes.len() && 0 <= b < nodes[a].edges@.len() ==> (#[trigger] edge_grant(
                nodes,
                p,
                gs,
                g,
                a,
                b,
            )) is Inf,
        0 <= k <= nodes.len(),
        0 <= e,
        k < nodes.len() ==> e <= nodes[k].edges@.len(),
        k == nodes.len() ==> e == 0,
    ensures
        cross_min_upto(nodes, p, gs, g, k, e) == Extent::Inf,
    decreases k, e,
{
    if k <= 0 && e <= 0 {
    } else if e <= 0 {
        lemma_upto_inf_without_grant(nodes, p, gs, g, k - 1, nodes[k - 1].edges@.len() as int);
    } else {
        lemma_upto_inf_without_grant(nodes, p, gs, g, k, e - 1);
        assert(edge_grant(nodes, p, gs, g, k, e - 1) is Inf);
    }
}

/// A group no relation grants anything finite keeps infinite slack.
pub proof fn lemma_cross_min_inf_without_grant(
    nodes: Seq<Node>,
    p: Seq<i64>,
    gs: Seq<GroupInfo>,
    g: int,
)
    requires
        forall|a: int, b: int|
            0 <= a < nodes.len() && 0 <= b < nodes[a].edges@.len() ==> (#[trigger] edge_grant(
                nodes,
                p,
                gs,
                g,
                a,
                b,
            )) is Inf,
    ensures
        cross_min(nodes, p, gs, g) == Extent::Inf,
{
    lemma_upto_inf_without_grant(nodes, p, gs, g, nodes.len() as int, 0);
}

} // verus!
