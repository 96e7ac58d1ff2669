//! The in-place engine variant: the same constraint graph, solved by
//! mutating the builder itself instead of consuming it.
//!
//! Queries before solving read the zero positions the builder starts from;
//! a failed solve leaves whatever positions were last committed.  Group
//! slack is not cached: `get_extra_space` recomputes it from the current
//! positions on every call — a more expensive but equally valid design,
//! since alignment groups are tiny in practice.  No right-to-left
//! mirroring is applied; the flag only swaps the two paddings of
//! `add_point`.

use vstd::prelude::*;
use core::ops::Range;
use crate::engine::chain_ok;
use crate::graph::Node;
use crate::graph::{
    Core, Edge, Relation, edges_wf, has_edge_to, lemma_lookup_entry, lemma_upsert_rel, rel_to,
    spec_lookup, upsert,
};
use crate::groups::{flatten_groups, lemma_uf_root_props, same_group, uf_root};
use crate::id::{AlignPointId, AlignPointIdView};
use crate::length::{clip, sub_clip, Extent};
use crate::solve::{
    all_sat, cross_min, extra_for, node_sat, positions_of, relax,
};

verus! {

/// The in-place constraint engine.
pub struct AlignPointsEngine {
    pub core: Core,
    pub is_rtl: bool,
}

impl AlignPointsEngine {
    pub open spec fn wf(self) -> bool {
        &&& self.core.wf()
        &&& chain_ok(self.core.nodes@, self.core.zones as int)
    }

    pub open spec fn zones(self) -> int {
        self.core.zones as int
    }

    pub open spec fn n(self) -> int {
        self.core.n()
    }

    pub open spec fn registered(self, id: AlignPointIdView) -> bool {
        self.core.registered(id)
    }

    pub open spec fn node_of(self, id: AlignPointIdView) -> int {
        self.core.node_of(id)
    }

    pub open spec fn point_count(self) -> int {
        self.core.points@.len() as int
    }

    pub open spec fn position_at(self, k: int) -> int {
        self.core.nodes@[k].position as int
    }

    /// The relation stored from node `a` to node `b`, if any.
    pub open spec fn rel_between(self, a: int, b: int) -> Option<Relation> {
        if has_edge_to(self.core.nodes@[a].edges@, b) {
            Some(rel_to(self.core.nodes@[a].edges@, b))
        } else {
            None
        }
    }

    /// Whether two nodes have been linked into one group.
    pub open spec fn node_same_group(self, x: int, y: int) -> bool {
        same_group(self.core.groups@, x, y)
    }

    /// Whether the current positions satisfy every stored relation.
    pub open spec fn solved(self) -> bool {
        all_sat(self.core.nodes@, positions_of(self.core.nodes@))
    }

    /// A fresh in-place engine over `zones` zones: `zones + 1` separators
    /// chained in ascending order by relations of interval `[0, +inf)`, and
    /// no other relation anywhere; no align points.
    pub fn new(zones: usize, is_rtl: bool) -> (r: AlignPointsEngine)
        requires
            zones < usize::MAX,
        ensures
            r.wf(),
            r.zones() == zones,
            r.is_rtl == is_rtl,
            r.point_count() == 0,
            r.n() == zones + 1,
            forall|k: int| 0 <= k < r.n() ==> #[trigger] r.position_at(k) == 0,
            forall|z: int|
                0 <= z < zones ==> #[trigger] r.rel_between(z, z + 1) == Some(
                    Relation { min_offset: 0i64, max_offset: Extent::Inf },
                ),
            forall|a: int, b: int|
                0 <= a < r.n() && !(0 <= a < zones && b == a + 1) ==> #[trigger] r.rel_between(
                    a,
                    b,
                ) is None,
            forall|a: int, b: int|
                0 <= a < r.n() && 0 <= b < r.n() && a != b ==> !(#[trigger] r.node_same_group(
                    a,
                    b,
                )),
    {
        let e = crate::engine::AlignmentEngine::new(zones, is_rtl);
        let ghost eg = e;
        let r = AlignPointsEngine { core: e.core, is_rtl };
        proof {
            assert forall|z: int| 0 <= z < zones implies #[trigger] r.rel_between(z, z + 1)
                == Some(Relation { min_offset: 0i64, max_offset: Extent::Inf }) by {
                assert(eg.rel_between(z, z + 1) == Some(
                    Relation { min_offset: 0i64, max_offset: Extent::Inf },
                ));
            }
            assert forall|a: int, b: int|
                0 <= a < r.n() && !(0 <= a < zones && b == a + 1) implies #[trigger] r.rel_between(
                a,
                b,
            ) is None by {
                assert(eg.rel_between(a, b) is None);
            }
            assert forall|a: int, b: int|
                0 <= a < r.n() && 0 <= b < r.n() && a != b implies !(#[trigger] r.node_same_group(
                a,
                b,
            )) by {
                assert(!eg.node_same_group(a, b));
            }
        }
        r
    }

    /// Whether no align point has been registered.
    pub fn is_empty(&self) -> (r: bool)
        ensures
            r == (self.point_count() == 0),
    {
        self.core.points.len() == 0
    }

    /// Registers (or finds) the align point `id` inside the zone span
    /// `span`; under right-to-left layout `before` and `after` swap.
    pub fn add_point(&mut self, id: AlignPointId, span: Range<usize>, before: i64, after: i64)
        requires
            old(self).wf(),
            span.start <= old(self).zones(),
            1 <= span.end,
            span.end <= old(self).zones(),
        ensures
            final(self).wf(),
            final(self).zones() == old(self).zones(),
            final(self).is_rtl == old(self).is_rtl,
            final(self).registered(id@),
            old(self).registered(id@) ==> final(self).n() == old(self).n() && final(self).node_of(
                id@,
            ) == old(self).node_of(id@),
            !old(self).registered(id@) ==> final(self).n() == old(self).n() + 1 && final(self).node_of(id@) == old(self).n(),
            forall|idv: AlignPointIdView|
                old(self).registered(idv) ==> #[trigger] final(self).registered(idv) && final(self).node_of(idv) == old(self).node_of(idv),
            ({
                let kk = final(self).node_of(id@);
                let b = if old(self).is_rtl { after } else { before };
                let a = if old(self).is_rtl { before } else { after };
                &&& (final(self).rel_between(span.start as int, kk) matches Some(r1)
                    && r1.min_offset >= b)
                &&& (final(self).rel_between(kk, span.end as int) matches Some(r2) && r2.min_offset
                    >= a)
            }),
            // the two relations are tightened exactly, and nothing else
            // changes: every other node is untouched, kinds and positions
            // everywhere are kept, and a fresh point starts at zero
            ({
                let kk = final(self).node_of(id@);
                let b = if old(self).is_rtl { after } else { before };
                let a = if old(self).is_rtl { before } else { after };
                &&& final(self).core.nodes@[span.start as int].edges@ == upsert(
                    old(self).core.nodes@[span.start as int].edges@,
                    kk as usize,
                    b,
                    Extent::Inf,
                )
                &&& final(self).core.nodes@[kk].edges@ == upsert(
                    if old(self).registered(id@) {
                        old(self).core.nodes@[kk].edges@
                    } else {
                        Seq::<Edge>::empty()
                    },
                    span.end,
                    a,
                    Extent::Inf,
                )
                &&& forall|x: int|
                    0 <= x < old(self).n() && x != span.start && x != kk ==> (#[trigger] final(self).core.nodes@[x]) == old(self).core.nodes@[x]
            }),
            forall|x: int|
                0 <= x < old(self).n() ==> (#[trigger] final(self).core.nodes@[x].kind) == old(self).core.nodes@[x].kind && final(self).core.nodes@[x].position == old(self).core.nodes@[x].position,
            !old(self).registered(id@) ==> final(self).core.nodes@[final(self).node_of(
                id@,
            )].position == 0,
            forall|x: int, y: int|
                0 <= x < old(self).n() && 0 <= y < old(self).n() ==> #[trigger] final(self).node_same_group(x, y) == old(self).node_same_group(x, y),
    {
        let (b, a) = if self.is_rtl {
            (after, before)
        } else {
            (before, after)
        };
        let ghost c0 = self.core;
        let kk = self.core.add_point_core(id, span.start, span.end, b, a);
        proof {
            let c1 = self.core;
            let e0 = c0.nodes@[span.start as int].edges@;
            lemma_upsert_rel(e0, kk, b, Extent::Inf, span.start as int, c1.n());
            let ek = if c0.registered(id@) {
                c0.nodes@[kk as int].edges@
            } else {
                Seq::<Edge>::empty()
            };
            assert(edges_wf(ek, kk as int, c1.n())) by {
                if c0.registered(id@) {
                    assert(edges_wf(c0.nodes@[kk as int].edges@, kk as int, c0.n()));
                }
            }
            lemma_upsert_rel(ek, span.end, a, Extent::Inf, kk as int, c1.n());
            lemma_lookup_entry(c1.points@, id@);
            assert(c1.zones < kk);
            assert(chain_ok(c1.nodes@, c1.zones as int)) by {
                assert forall|z: int| 0 <= z < c1.zones implies #[trigger] crate::engine::chain_at(
                    c1.nodes@,
                    z,
                ) by {
                    assert(crate::engine::chain_at(c0.nodes@, z));
                    assert(has_edge_to(c0.nodes@[z].edges@, z + 1));
                    assert(rel_to(c0.nodes@[z].edges@, z + 1).min_offset >= 0);
                    assert(z != kk as int);
                    if z != span.start {
                        assert(c1.nodes@[z] == c0.nodes@[z]);
                    } else {
                        assert(kk as int != z + 1);
                    }
                }
            }
            assert forall|idv: AlignPointIdView| c0.registered(idv) implies #[trigger] c1.registered(
                idv,
            ) && c1.node_of(idv) == c0.node_of(idv) by {
                if !c0.registered(id@) {
                    assert(c1.points@ =~= c0.points@.push(c1.points@.last()));
                    crate::graph::lemma_lookup_push(c0.points@, c1.points@.last(), idv);
                }
            }
        }
    }

    /// Declares that `child` sits exactly `delta` after `parent` and joins
    /// their groups.  Unlike the consuming engine, the distance is taken as
    /// given regardless of writing direction.  Relating a point to itself
    /// is rejected at build time, by precondition, as an outright
    /// contradiction.
    pub fn add_relation(&mut self, parent: AlignPointId, child: AlignPointId, delta: i64)
        requires
            old(self).wf(),
            old(self).registered(parent@),
            old(self).registered(child@),
            parent@ != child@,
        ensures
            final(self).wf(),
            final(self).zones() == old(self).zones(),
            final(self).is_rtl == old(self).is_rtl,
            final(self).n() == old(self).n(),
            forall|idv: AlignPointIdView|
                #[trigger] final(self).registered(idv) == old(self).registered(idv) && final(self).node_of(idv) == old(self).node_of(idv),
            ({
                let i = old(self).node_of(parent@);
                let j = old(self).node_of(child@);
                let m: int = if delta >= 0 {
                    delta as int
                } else {
                    clip(-(delta as int))
                };
                let (s, t) = if delta >= 0 {
                    (i, j)
                } else {
                    (j, i)
                };
                &&& (old(self).rel_between(s, t) is None ==> final(self).rel_between(s, t)
                    == Some(Relation { min_offset: m as i64, max_offset: Extent::Fin(m as i64) }))
                &&& (old(self).rel_between(s, t) matches Some(r0) ==> final(self).rel_between(s, t)
                    == Some(r0.tightened(m as i64, Extent::Fin(m as i64))))
            }),
            final(self).node_same_group(old(self).node_of(parent@), old(self).node_of(child@)),
            forall|x: int, y: int|
                0 <= x < old(self).n() && 0 <= y < old(self).n() && #[trigger] old(self).node_same_group(x, y) ==> final(self).node_same_group(x, y),
    {
        let ghost c0 = self.core;
        let i = match self.core.lookup(&parent) {
            Some(i) => i,
            None => {
                proof {
                    assert(false);
                }
                return ;
            }
        };
        let j = match self.core.lookup(&child) {
            Some(j) => j,
            None => {
                proof {
                    assert(false);
                }
                return ;
            }
        };
        proof {
            lemma_lookup_entry(c0.points@, parent@);
            lemma_lookup_entry(c0.points@, child@);
            assert(i != j) by {
                let mp = choose|m: int|
                    0 <= m < c0.points@.len() && (#[trigger] c0.points@[m].0@) == parent@
                        && spec_lookup(c0.points@, parent@) == Some(c0.points@[m].1 as int);
                let mc = choose|m: int|
                    0 <= m < c0.points@.len() && (#[trigger] c0.points@[m].0@) == child@
                        && spec_lookup(c0.points@, child@) == Some(c0.points@[m].1 as int);
                assert(mp != mc);
            }
        }
        let _m = self.core.add_relation_core(i, j, delta);
        proof {
            let c1 = self.core;
            let s: int = if delta >= 0 {
                i as int
            } else {
                j as int
            };
            lemma_upsert_rel(
                c0.nodes@[s].edges@,
                (if delta >= 0 {
                    j
                } else {
                    i
                }),
                _m,
                Extent::Fin(_m),
                s,
                c0.n(),
            );
            assert(chain_ok(c1.nodes@, c1.zones as int)) by {
                assert forall|z: int| 0 <= z < c1.zones implies #[trigger] crate::engine::chain_at(
                    c1.nodes@,
                    z,
                ) by {
                    assert(crate::engine::chain_at(c0.nodes@, z));
                    assert(has_edge_to(c0.nodes@[z].edges@, z + 1));
                    assert(rel_to(c0.nodes@[z].edges@, z + 1).min_offset >= 0);
                    assert(z != s);
                }
            }
            assert forall|x: int, y: int|
                0 <= x < c0.n() && 0 <= y < c0.n() && #[trigger] same_group(c0.groups@, x, y) implies
                same_group(c1.groups@, x, y) by {
                lemma_uf_root_props(c0.groups@, x);
                lemma_uf_root_props(c0.groups@, y);
                assert(uf_root(c1.groups@, x) == (if same_group(c0.groups@, x, i as int)
                    || same_group(c0.groups@, x, j as int) {
                    uf_root(c1.groups@, i as int)
                } else {
                    uf_root(c0.groups@, x)
                }));
                assert(uf_root(c1.groups@, y) == (if same_group(c0.groups@, y, i as int)
                    || same_group(c0.groups@, y, j as int) {
                    uf_root(c1.groups@, i as int)
                } else {
                    uf_root(c0.groups@, y)
                }));
            }
        }
    }

    /// Fixes the width of `zone` exactly.
    pub fn set_zone_size(&mut self, zone: usize, size: i64)
        requires
            old(self).wf(),
            zone < old(self).zones(),
            size >= 0,
        ensures
            final(self).wf(),
            final(self).zones() == old(self).zones(),
            final(self).n() == old(self).n(),
            final(self).is_rtl == old(self).is_rtl,
            old(self).rel_between(zone as int, zone + 1) is None ==> final(self).rel_between(
                zone as int,
                zone + 1,
            ) == Some(Relation { min_offset: size, max_offset: Extent::Fin(size) }),
            old(self).rel_between(zone as int, zone + 1) matches Some(r0) ==> final(self).rel_between(zone as int, zone + 1) == Some(r0.tightened(size, Extent::Fin(size))),
            forall|idv: AlignPointIdView|
                #[trigger] final(self).registered(idv) == old(self).registered(idv) && final(self).node_of(idv) == old(self).node_of(idv),
    {
        let ghost c0 = self.core;
        self.core.add_edge(zone, zone + 1, size, Extent::Fin(size));
        proof {
            lemma_upsert_rel(
                c0.nodes@[zone as int].edges@,
                (zone + 1) as usize,
                size,
                Extent::Fin(size),
                zone as int,
                c0.n(),
            );
            self.lemma_after_zone_edge(c0, zone as int);
        }
    }

    /// Demands at least `min_size` of width for `zone`.
    pub fn set_min_zone_size(&mut self, zone: usize, min_size: i64)
        requires
            old(self).wf(),
            zone < old(self).zones(),
        ensures
            final(self).wf(),
            final(self).zones() == old(self).zones(),
            final(self).n() == old(self).n(),
            final(self).is_rtl == old(self).is_rtl,
            old(self).rel_between(zone as int, zone + 1) is None ==> final(self).rel_between(
                zone as int,
                zone + 1,
            ) == Some(Relation { min_offset: min_size, max_offset: Extent::Inf }),
            old(self).rel_between(zone as int, zone + 1) matches Some(r0) ==> final(self).rel_between(zone as int, zone + 1) == Some(r0.tightened(min_size, Extent::Inf)),
            forall|idv: AlignPointIdView|
                #[trigger] final(self).registered(idv) == old(self).registered(idv) && final(self).node_of(idv) == old(self).node_of(idv),
    {
        let ghost c0 = self.core;
        self.core.add_edge(zone, zone + 1, min_size, Extent::Inf);
        proof {
            lemma_upsert_rel(
                c0.nodes@[zone as int].edges@,
                (zone + 1) as usize,
                min_size,
                Extent::Inf,
                zone as int,
                c0.n(),
            );
            self.lemma_after_zone_edge(c0, zone as int);
        }
    }

    /// Demands at least `min_size` of width for a whole span of zones.
    pub fn set_min_span_size(&mut self, zones_span: Range<usize>, min_size: i64)
        requires
            old(self).wf(),
            zones_span.start < zones_span.end,
            zones_span.end <= old(self).zones(),
        ensures
            final(self).wf(),
            final(self).zones() == old(self).zones(),
            final(self).n() == old(self).n(),
            final(self).is_rtl == old(self).is_rtl,
            old(self).rel_between(zones_span.start as int, zones_span.end as int) is None ==> final(self).rel_between(zones_span.start as int, zones_span.end as int) == Some(
                Relation { min_offset: min_size, max_offset: Extent::Inf },
            ),
            old(self).rel_between(zones_span.start as int, zones_span.end as int) matches Some(r0)
                ==> final(self).rel_between(zones_span.start as int, zones_span.end as int)
                == Some(r0.tightened(min_size, Extent::Inf)),
            forall|idv: AlignPointIdView|
                #[trigger] final(self).registered(idv) == old(self).registered(idv) && final(self).node_of(idv) == old(self).node_of(idv),
    {
        let ghost c0 = self.core;
        self.core.add_edge(zones_span.start, zones_span.end, min_size, Extent::Inf);
        proof {
            lemma_upsert_rel(
                c0.nodes@[zones_span.start as int].edges@,
                zones_span.end,
                min_size,
                Extent::Inf,
                zones_span.start as int,
                c0.n(),
            );
            self.lemma_after_zone_edge(c0, zones_span.start as int);
        }
    }

    /// One separator-to-separator update keeps the chain: the tightened
    /// minimum never drops below the old one.
    proof fn lemma_after_zone_edge(self, c0: Core, from: int)
        requires
            c0.wf(),
            chain_ok(c0.nodes@, c0.zones as int),
            0 <= from < c0.n(),
            self.core.n() == c0.n(),
            self.core.zones == c0.zones,
            forall|a: int|
                0 <= a < c0.n() && a != from ==> (#[trigger] self.core.nodes@[a]) == c0.nodes@[a],
            forall|t: int|
                t != from + 1 || !has_edge_to(c0.nodes@[from].edges@, t) || (
                #[trigger] rel_to(self.core.nodes@[from].edges@, t)).min_offset >= rel_to(
                    c0.nodes@[from].edges@,
                    t,
                ).min_offset,
            forall|t: int|
                #[trigger] has_edge_to(self.core.nodes@[from].edges@, t) || !has_edge_to(
                    c0.nodes@[from].edges@,
                    t,
                ),
        ensures
            chain_ok(self.core.nodes@, self.core.zones as int),
    {
        assert forall|z: int| 0 <= z < self.core.zones implies #[trigger] crate::engine::chain_at(
            self.core.nodes@,
            z,
        ) by {
            assert(crate::engine::chain_at(c0.nodes@, z));
            assert(has_edge_to(c0.nodes@[z].edges@, z + 1));
            assert(rel_to(c0.nodes@[z].edges@, z + 1).min_offset >= 0);
        }
    }

    /// Orders the graph from the first separator and relaxes it in place.
    /// If the order covers every node and a fixed point is reached within
    /// the pass budget, the positions are committed; otherwise every
    /// position is left exactly as it was.
    pub fn compute_positions(&mut self)
        requires
            old(self).wf(),
        ensures
            final(self).wf(),
            final(self).zones() == old(self).zones(),
            final(self).is_rtl == old(self).is_rtl,
            final(self).n() == old(self).n(),
            final(self).core.points@ == old(self).core.points@,
            forall|k: int|
                0 <= k < old(self).n() ==> (#[trigger] final(self).core.nodes@[k].kind) == old(self).core.nodes@[k].kind && final(self).core.nodes@[k].edges@ == old(self).core.nodes@[k].edges@,
            forall|x: int, y: int|
                0 <= x < old(self).n() && 0 <= y < old(self).n() ==> #[trigger] final(self).node_same_group(x, y) == old(self).node_same_group(x, y),
            final(self).solved() || (forall|k: int|
                0 <= k < old(self).n() ==> #[trigger] final(self).position_at(k) == old(self).position_at(k)),
            // the committed outcome is a pure function of the graph
            ({
                let order = crate::solve::spec_topo(old(self).core.nodes@);
                let rr = crate::solve::spec_relax(old(self).core.nodes@, order);
                &&& (order.len() == old(self).n() && rr.1 ==> positions_of(
                    final(self).core.nodes@,
                ) == rr.0)
                &&& (!(order.len() == old(self).n() && rr.1) ==> forall|k: int|
                    0 <= k < old(self).n() ==> #[trigger] final(self).position_at(k) == old(self).position_at(k))
            }),
    {
        self.core.solve_positions();
    }

}

impl Core {
    /// Orders the graph from the first separator and relaxes it in place,
    /// committing the positions only when a fixed point was reached.
    #[verifier::rlimit(100)]
    pub fn solve_positions(&mut self)
        requires
            old(self).wf(),
            chain_ok(old(self).nodes@, old(self).zones as int),
        ensures
            final(self).wf(),
            chain_ok(final(self).nodes@, final(self).zones as int),
            final(self).zones == old(self).zones,
            final(self).n() == old(self).n(),
            final(self).points@ == old(self).points@,
            forall|k: int|
                0 <= k < old(self).n() ==> (#[trigger] final(self).nodes@[k].kind) == old(self).nodes@[k].kind && final(self).nodes@[k].edges@ == old(self).nodes@[k].edges@,
            forall|x: int, y: int|
                0 <= x < old(self).n() && 0 <= y < old(self).n() ==> #[trigger] same_group(
                    final(self).groups@,
                    x,
                    y,
                ) == same_group(old(self).groups@, x, y),
            all_sat(final(self).nodes@, positions_of(final(self).nodes@)) || (forall|k: int|
                0 <= k < old(self).n() ==> (#[trigger] final(self).nodes@[k].position) == old(self).nodes@[k].position),
            // the committed outcome is a pure function of the graph
            ({
                let order = crate::solve::spec_topo(old(self).nodes@);
                let rr = crate::solve::spec_relax(old(self).nodes@, order);
                &&& (order.len() == old(self).n() && rr.1 ==> positions_of(final(self).nodes@)
                    == rr.0)
                &&& (!(order.len() == old(self).n() && rr.1) ==> forall|k: int|
                    0 <= k < old(self).n() ==> (#[trigger] final(self).nodes@[k].position) == old(self).nodes@[k].position)
            }),
    {
        let ghost c0 = *self;
        let order = self.topo_order();
        let n = self.nodes.len();
        if order.len() != n {
            return ;
        }
        let ghost gpre = self.groups@;
        flatten_groups(&mut self.groups);
        proof {
            let gs = self.groups@;
            assert forall|k: int| 0 <= k <= self.zones implies (#[trigger] gs[k].parent) as int
                == k by {
                assert(uf_root(gpre, k) == k) by {
                    crate::graph::lemma_root_level(gpre, self.zones as int, k);
                }
            }
            assert forall|k: int| self.zones < k < self.n() implies (#[trigger] gs[k].parent)
                as int > self.zones by {
                assert(uf_root(gpre, k) > self.zones) by {
                    crate::graph::lemma_root_level(gpre, self.zones as int, k);
                }
            }
            assert(self.wf());
        }
        let rr = relax(&self.nodes, &order);
        let positions = rr.0;
        if rr.1 {
            let ghost nodes_pre = self.nodes@;
            let ghost cpre_commit = *self;
            let mut k: usize = 0;
            while k < n
                invariant
                    self.wf(),
                    self.zones == cpre_commit.zones,
                    self.groups@ == cpre_commit.groups@,
                    self.points@ == cpre_commit.points@,
                    k <= n,
                    n == self.nodes@.len(),
                    positions@.len() == n,
                    nodes_pre.len() == n,
                    forall|a: int|
                        0 <= a < n ==> (#[trigger] self.nodes@[a].kind) == nodes_pre[a].kind
                            && self.nodes@[a].edges@ == nodes_pre[a].edges@,
                    forall|a: int|
                        0 <= a < k ==> (#[trigger] self.nodes@[a].position) == positions@[a],
                    forall|a: int|
                        k <= a < n ==> (#[trigger] self.nodes@[a].position)
                            == nodes_pre[a].position,
                decreases n - k,
            {
                let p = positions[k];
                self.nodes[k].position = p;
                k = k + 1;
            }
            proof {
                assert(nodes_pre == c0.nodes@);
                assert forall|a: int| 0 <= a < n implies #[trigger] node_sat(
                    self.nodes@,
                    positions@,
                    a,
                ) by {
                    assert(order@.contains(a as usize));
                    let oi = choose|oi: int| 0 <= oi < order@.len() && order@[oi] == a as usize;
                    assert(node_sat(nodes_pre, positions@, (order@[oi]) as int));
                    assert(self.nodes@[a].kind == nodes_pre[a].kind);
                    assert(self.nodes@[a].edges@ == nodes_pre[a].edges@);
                }
                assert(positions_of(self.nodes@) =~= positions@);
                assert(all_sat(self.nodes@, positions_of(self.nodes@)));
                assert forall|a: int| 0 <= a < n implies (#[trigger] self.nodes@[a].edges@)
                    == c0.nodes@[a].edges@ by {
                    assert(self.nodes@[a].kind == nodes_pre[a].kind);
                    assert(self.nodes@[a].edges@ == nodes_pre[a].edges@);
                }
                crate::engine::lemma_chain_same_edges(c0.nodes@, self.nodes@, self.zones as int);
                assert(chain_ok(self.nodes@, self.zones as int));
            }
        }
    }
}

impl AlignPointsEngine {
    /// A structured dump of the stored relations, in node order: source,
    /// target, and the interval's two ends.
    pub fn relations(&self) -> (r: Vec<(usize, usize, i64, Extent)>)
        ensures
            r@ == crate::solve::rels_of(self.core.nodes@),
    {
        crate::solve::relation_list(&self.core.nodes)
    }

    /// A structured dump of the current state: every node with its
    /// position, in ascending position order.
    pub fn positions(&self) -> (r: Vec<(i64, usize)>)
        ensures
            crate::solve::position_list_ok(self.core.nodes@, r@),
    {
        crate::solve::position_list(&self.core.nodes)
    }

    /// The current position of a registered align point.
    pub fn get_position(&self, id: &AlignPointId) -> (r: i64)
        requires
            self.wf(),
            self.registered(id@),
        ensures
            r as int == self.position_at(self.node_of(id@)),
    {
        let k = match self.core.lookup(id) {
            Some(k) => k,
            None => {
                proof {
                    assert(false);
                }
                return 0;
            }
        };
        proof {
            lemma_lookup_entry(self.core.points@, id@);
        }
        self.core.nodes[k].position
    }

    /// The current position of a zone separator.
    pub fn get_zone_position(&self, zone: usize) -> (r: i64)
        requires
            self.wf(),
            zone <= self.zones(),
        ensures
            r as int == self.position_at(zone as int),
    {
        self.core.nodes[zone].position
    }

    /// The width of a zone: the non-negative distance between its two
    /// separators, as a zone size is a magnitude.
    pub fn get_zone_size(&self, zone: usize) -> (r: i64)
        requires
            self.wf(),
            zone < self.zones(),
        ensures
            r as int == ({
                let d = clip(self.position_at(zone + 1) - self.position_at(zone as int));
                if d >= 0 {
                    d
                } else {
                    clip(-d)
                }
            }),
            r >= 0,
    {
        let d = sub_clip(self.core.nodes[zone + 1].position, self.core.nodes[zone].position);
        if d < 0 {
            sub_clip(0, d)
        } else {
            d
        }
    }

    /// The slack of the group containing a registered align point, computed
    /// on demand from the current positions.
    pub fn get_extra_space(&self, id: &AlignPointId) -> (r: Extent)
        requires
            self.wf(),
            self.registered(id@),
        ensures
            r == cross_min(
                self.core.nodes@,
                positions_of(self.core.nodes@),
                self.core.groups@,
                self.core.groups@[self.node_of(id@)].parent as int,
            ),
    {
        let k = match self.core.lookup(id) {
            Some(k) => k,
            None => {
                proof {
                    assert(false);
                }
                return Extent::Inf;
            }
        };
        proof {
            lemma_lookup_entry(self.core.points@, id@);
        }
        let g = self.core.groups[k].parent;
        extra_for(&self.core.nodes, &self.core.groups, g)
    }
}

} // verus!
