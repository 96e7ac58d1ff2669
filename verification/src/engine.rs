//! The alignment engine proper: a consuming builder and the immutable
//! result view its solving step returns.
//!
//! A builder is populated during a measurement pass — one call per
//! discovered align point, relation or zone-size fact — and consumed once by
//! [`AlignmentEngine::compute`], which orders the graph, relaxes it, and
//! freezes positions and per-group slack into an [`AlignmentInfos`].
//! Queries never observe a partially relaxed state.

use vstd::prelude::*;
use core::ops::Range;
use crate::graph::{
    Core, Edge, Node, NodeKind, Relation, edge_idx, edges_wf, has_edge_to, has_separator_edge,
    lemma_lookup_entry, lemma_root_level, lemma_upsert_rel, rel_to, spec_lookup, upsert,
};
use crate::groups::{flatten_groups, find_group, same_group, uf_root, lemma_uf_root_props};
use crate::id::{AlignPointId, AlignPointIdView};
use crate::length::{clip, sub_clip, Extent};
use crate::solve::{
    all_sat, all_zero, cross_min, edge_sat, node_sat, positions_of, apply_rtl, compute_extras,
    extra_root_of, relax, lemma_cross_min_le_grant, lemma_cross_min_same_edges, edge_grant,
};

verus! {

/// The chain of separator relations laid down at construction: each
/// separator is constrained to sit no earlier than its predecessor, and
/// tightening can only raise that minimum.
pub open spec fn chain_at(nodes: Seq<Node>, z: int) -> bool {
    &&& has_edge_to(nodes[z].edges@, z + 1)
    &&& rel_to(nodes[z].edges@, z + 1).min_offset >= 0
}

pub open spec fn chain_ok(nodes: Seq<Node>, zones: int) -> bool {
    forall|z: int| 0 <= z < zones ==> #[trigger] chain_at(nodes, z)
}

/// The separator chain only reads edge lists, so any node sequence with
/// the same edges keeps it.
pub proof fn lemma_chain_same_edges(nodes1: Seq<Node>, nodes2: Seq<Node>, zones: int)
    requires
        chain_ok(nodes1, zones),
        nodes2.len() == nodes1.len(),
        0 <= zones < nodes1.len(),
        forall|a: int| 0 <= a < nodes1.len() ==> (#[trigger] nodes2[a].edges@) == nodes1[a].edges@,
    ensures
        chain_ok(nodes2, zones),
{
    assert forall|z: int| 0 <= z < zones implies #[trigger] chain_at(nodes2, z) by {
        assert(nodes2[z].edges@ == nodes1[z].edges@);
        assert(chain_at(nodes1, z));
    }
}

/// The consuming constraint builder.
pub struct AlignmentEngine {
    pub core: Core,
    pub is_rtl: bool,
}

impl AlignmentEngine {
    /// Everything the builder maintains between calls: the graph invariants,
    /// the separator chain, and the untouched state that solving starts
    /// from — all positions zero, all slack records unset.
    pub open spec fn wf(self) -> bool {
        &&& self.core.wf()
        &&& chain_ok(self.core.nodes@, self.core.zones as int)
        &&& forall|k: int| 0 <= k < self.core.n() ==> (#[trigger] self.core.nodes@[k].position) == 0
        &&& forall|k: int|
            0 <= k < self.core.n() ==> (#[trigger] self.core.groups@[k].extra_space)
                == Extent::Inf
    }

    pub open spec fn zones(self) -> int {
        self.core.zones as int
    }

    pub open spec fn n(self) -> int {
        self.core.n()
    }

    pub open spec fn registered(self, id: AlignPointIdView) -> bool {
        self.core.registered(id)
    }

    pub open spec fn node_of(self, id: AlignPointIdView) -> int {
        self.core.node_of(id)
    }

    pub open spec fn point_count(self) -> int {
        self.core.points@.len() as int
    }

    /// The relation stored from node `a` to node `b`, if any.
    pub open spec fn rel_between(self, a: int, b: int) -> Option<Relation> {
        if has_edge_to(self.core.nodes@[a].edges@, b) {
            Some(rel_to(self.core.nodes@[a].edges@, b))
        } else {
            None
        }
    }

    /// Whether two nodes have been linked into one group.
    pub open spec fn node_same_group(self, x: int, y: int) -> bool {
        same_group(self.core.groups@, x, y)
    }

    /// A fresh builder over `zones` zones: `zones + 1` separators chained in
    /// ascending order by relations of interval `[0, +inf)`, and no other
    /// relation anywhere; no align points.
    pub fn new(zones: usize, is_rtl: bool) -> (r: AlignmentEngine)
        requires
            zones < usize::MAX,
        ensures
            r.wf(),
            r.zones() == zones,
            r.is_rtl == is_rtl,
            r.point_count() == 0,
            r.n() == zones + 1,
            forall|z: int|
                0 <= z < zones ==> #[trigger] r.rel_between(z, z + 1) == Some(
                    Relation { min_offset: 0i64, max_offset: Extent::Inf },
                ),
            forall|a: int, b: int|
                0 <= a < r.n() && !(0 <= a < zones && b == a + 1) ==> #[trigger] r.rel_between(
                    a,
                    b,
                ) is None,
            forall|a: int, b: int|
                0 <= a < r.n() && 0 <= b < r.n() && a != b ==> !(#[trigger] r.node_same_group(
                    a,
                    b,
                )),
    {
        let core = Core::new_core(zones);
        let r = AlignmentEngine { core, is_rtl };
        proof {
            assert forall|z: int| 0 <= z < r.core.zones implies #[trigger] chain_at(
                r.core.nodes@,
                z,
            ) by {
                assert(r.core.nodes@[z].edges@[0].to == z + 1);
                assert(has_edge_to(r.core.nodes@[z].edges@, z + 1));
                assert(edge_idx(r.core.nodes@[z].edges@, z + 1) == 0);
            }
            assert forall|a: int, b: int|
                0 <= a < r.n() && !(0 <= a < zones && b == a + 1) implies #[trigger] r.rel_between(
                a,
                b,
            ) is None by {
                if has_edge_to(r.core.nodes@[a].edges@, b) {
                    let w = edge_idx(r.core.nodes@[a].edges@, b);
                    assert(0 <= w < r.core.nodes@[a].edges@.len() && (r.core.nodes@[a].edges@[w].to
                        as int) == b);
                    assert(a < zones && w == 0);
                }
            }
            assert forall|z: int| 0 <= z < zones implies #[trigger] r.rel_between(z, z + 1)
                == Some(Relation { min_offset: 0i64, max_offset: Extent::Inf }) by {
                assert(r.core.nodes@[z].edges@[0].to == z + 1);
                assert(has_edge_to(r.core.nodes@[z].edges@, z + 1));
                assert(edge_idx(r.core.nodes@[z].edges@, z + 1) == 0);
            }
            assert forall|k: int| 0 <= k < r.core.n() implies (#[trigger] r.core.groups@[k].extra_space)
                == Extent::Inf by {
                assert((r.core.groups@[k].parent as int) == k);
            }
            assert forall|a: int, b: int|
                0 <= a < r.core.n() && 0 <= b < r.core.n() && a != b implies !(
                #[trigger] r.node_same_group(a, b)) by {
                assert(uf_root(r.core.groups@, a) == a);
                assert(uf_root(r.core.groups@, b) == b);
            }
        }
        r
    }

    /// Whether no align point has been registered.
    pub fn is_empty(&self) -> (r: bool)
        ensures
            r == (self.point_count() == 0),
    {
        self.core.points.len() == 0
    }

    /// The number of zones the builder was created over.
    pub fn zone_count(&self) -> (r: usize)
        ensures
            r as int == self.zones(),
    {
        self.core.zones
    }

    /// A structured dump of the stored relations, in node order: source,
    /// target, and the interval's two ends.
    pub fn relations(&self) -> (r: Vec<(usize, usize, i64, Extent)>)
        ensures
            r@ == crate::solve::rels_of(self.core.nodes@),
    {
        crate::solve::relation_list(&self.core.nodes)
    }

    /// Registers (or finds) the align point `id` inside the zone span
    /// `span`, demanding at least `before` of room after the span's first
    /// separator and at least `after` before its last.  Under right-to-left
    /// layout the two demands swap, so the graph is always built in the
    /// ascending logical sense.
    pub fn add_point(&mut self, id: AlignPointId, span: Range<usize>, before: i64, after: i64)
        requires
            old(self).wf(),
            span.start <= old(self).zones(),
            1 <= span.end,
            span.end <= old(self).zones(),
        ensures
            final(self).wf(),
            final(self).zones() == old(self).zones(),
            final(self).is_rtl == old(self).is_rtl,
            final(self).registered(id@),
            old(self).registered(id@) ==> final(self).n() == old(self).n() && final(self).node_of(
                id@,
            ) == old(self).node_of(id@) && final(self).point_count() == old(self).point_count(),
            !old(self).registered(id@) ==> final(self).n() == old(self).n() + 1 && final(self).node_of(id@) == old(self).n() && final(self).point_count() == old(self).point_count()
                + 1,
            forall|idv: AlignPointIdView|
                old(self).registered(idv) ==> #[trigger] final(self).registered(idv) && final(self).node_of(idv) == old(self).node_of(idv),
            // the span's first separator now demands at least `before`
            // (or `after`, mirrored) of room before the point, and the
            // point at least the other amount before the span's last
            // separator
            ({
                let kk = final(self).node_of(id@);
                let b = if old(self).is_rtl { after } else { before };
                let a = if old(self).is_rtl { before } else { after };
                &&& (final(self).rel_between(span.start as int, kk) matches Some(r1)
                    && r1.min_offset >= b)
                &&& (final(self).rel_between(kk, span.end as int) matches Some(r2) && r2.min_offset
                    >= a)
            }),
            // the two relations are tightened exactly, and nothing else
            // changes: every other node is untouched, kinds and positions
            // everywhere are kept, and a fresh point starts at zero
            ({
                let kk = final(self).node_of(id@);
                let b = if old(self).is_rtl { after } else { before };
                let a = if old(self).is_rtl { before } else { after };
                &&& final(self).core.nodes@[span.start as int].edges@ == upsert(
                    old(self).core.nodes@[span.start as int].edges@,
                    kk as usize,
                    b,
                    Extent::Inf,
                )
                &&& final(self).core.nodes@[kk].edges@ == upsert(
                    if old(self).registered(id@) {
                        old(self).core.nodes@[kk].edges@
                    } else {
                        Seq::<Edge>::empty()
                    },
                    span.end,
                    a,
                    Extent::Inf,
                )
                &&& forall|x: int|
                    0 <= x < old(self).n() && x != span.start && x != kk ==> (#[trigger] final(self).core.nodes@[x]) == old(self).core.nodes@[x]
            }),
            forall|x: int|
                0 <= x < old(self).n() ==> (#[trigger] final(self).core.nodes@[x].kind) == old(self).core.nodes@[x].kind && final(self).core.nodes@[x].position == old(self).core.nodes@[x].position,
            !old(self).registered(id@) ==> final(self).core.nodes@[final(self).node_of(
                id@,
            )].position == 0,
            // grouping is untouched
            forall|x: int, y: int|
                0 <= x < old(self).n() && 0 <= y < old(self).n() ==> #[trigger] final(self).node_same_group(x, y) == old(self).node_same_group(x, y),
    {
        let (b, a) = if self.is_rtl {
            (after, before)
        } else {
            (before, after)
        };
        let ghost c0 = self.core;
        let kk = self.core.add_point_core(id, span.start, span.end, b, a);
        proof {
            let c1 = self.core;
            let e0 = c0.nodes@[span.start as int].edges@;
            lemma_upsert_rel(e0, kk, b, Extent::Inf, span.start as int, c1.n());
            let ek = if c0.registered(id@) {
                c0.nodes@[kk as int].edges@
            } else {
                Seq::<Edge>::empty()
            };
            assert(edges_wf(ek, kk as int, c1.n())) by {
                if c0.registered(id@) {
                    assert(edges_wf(c0.nodes@[kk as int].edges@, kk as int, c0.n()));
                }
            }
            lemma_upsert_rel(ek, span.end, a, Extent::Inf, kk as int, c1.n());
            lemma_lookup_entry(c1.points@, id@);
            assert(c1.zones < kk);
            assert(chain_ok(c1.nodes@, c1.zones as int)) by {
                assert forall|z: int| 0 <= z < c1.zones implies #[trigger] chain_at(
                    c1.nodes@,
                    z,
                ) by {
                    assert(chain_at(c0.nodes@, z));
                    assert(has_edge_to(c0.nodes@[z].edges@, z + 1));
                    assert(rel_to(c0.nodes@[z].edges@, z + 1).min_offset >= 0);
                    assert(z != kk as int);
                    if z != span.start {
                        assert(c1.nodes@[z] == c0.nodes@[z]);
                    } else {
                        assert(kk as int != z + 1);
                    }
                }
            }
            assert forall|k: int| 0 <= k < c1.n() implies (#[trigger] c1.nodes@[k].position)
                == 0 by {
                if k < c0.n() {
                    assert(c1.nodes@[k].kind == c0.nodes@[k].kind);
                }
            }
            assert forall|idv: AlignPointIdView| c0.registered(idv) implies #[trigger] c1.registered(
                idv,
            ) && c1.node_of(idv) == c0.node_of(idv) by {
                if !c0.registered(id@) {
                    assert(c1.points@ =~= c0.points@.push(c1.points@.last()));
                    crate::graph::lemma_lookup_push(c0.points@, c1.points@.last(), idv);
                }
            }
        }
    }

    /// Declares that the point `child` sits exactly `delta` after the point
    /// `parent` (mirrored under right-to-left layout), and joins their
    /// groups.  Both points must have been registered.  Relating a point to
    /// itself is rejected at build time, by precondition: a self-relation
    /// is an outright contradiction (or a vacuous one at distance zero),
    /// and turning it away here was chosen over letting it degrade the
    /// whole solve.
    pub fn add_relation(&mut self, parent: AlignPointId, child: AlignPointId, delta: i64)
        requires
            old(self).wf(),
            old(self).registered(parent@),
            old(self).registered(child@),
            parent@ != child@,
        ensures
            final(self).wf(),
            final(self).zones() == old(self).zones(),
            final(self).is_rtl == old(self).is_rtl,
            final(self).n() == old(self).n(),
            forall|idv: AlignPointIdView|
                #[trigger] final(self).registered(idv) == old(self).registered(idv) && final(self).node_of(idv) == old(self).node_of(idv),
            // the stored edge: oriented by the sign of the (possibly
            // mirrored) distance, with a non-negative fixed offset
            ({
                let i = old(self).node_of(parent@);
                let j = old(self).node_of(child@);
                let d: int = if old(self).is_rtl {
                    clip(-(delta as int))
                } else {
                    delta as int
                };
                let m: int = if d >= 0 {
                    d
                } else {
                    clip(-d)
                };
                let (s, t) = if d >= 0 {
                    (i, j)
                } else {
                    (j, i)
                };
                &&& (old(self).rel_between(s, t) is None ==> final(self).rel_between(s, t)
                    == Some(Relation { min_offset: m as i64, max_offset: Extent::Fin(m as i64) }))
                &&& (old(self).rel_between(s, t) matches Some(r0) ==> final(self).rel_between(s, t)
                    == Some(r0.tightened(m as i64, Extent::Fin(m as i64))))
                &&& forall|x: int, y: int|
                    0 <= x < old(self).n() && !(x == s && y == t) ==> #[trigger] final(self).rel_between(x, y) == old(self).rel_between(x, y)
            }),
            // the two groups are one, and grouping is otherwise exactly as
            // before: two nodes share a group afterwards when they did
            // before, or when one sat with `parent` and the other with
            // `child`
            final(self).node_same_group(
                old(self).node_of(parent@),
                old(self).node_of(child@),
            ),
            forall|x: int, y: int|
                0 <= x < old(self).n() && 0 <= y < old(self).n() ==> #[trigger] final(self).node_same_group(x, y) == (old(self).node_same_group(x, y) || (old(self).node_same_group(x, old(self).node_of(parent@)) && old(self).node_same_group(
                    y,
                    old(self).node_of(child@),
                )) || (old(self).node_same_group(x, old(self).node_of(child@)) && old(self).node_same_group(y, old(self).node_of(parent@)))),
    {
        let ghost c0 = self.core;
        let i = match self.core.lookup(&parent) {
            Some(i) => i,
            None => {
                proof {
                    assert(false);
                }
                return ;
            }
        };
        let j = match self.core.lookup(&child) {
            Some(j) => j,
            None => {
                proof {
                    assert(false);
                }
                return ;
            }
        };
        proof {
            lemma_lookup_entry(c0.points@, parent@);
            lemma_lookup_entry(c0.points@, child@);
            assert(c0.zones < i < c0.n());
            assert(c0.zones < j < c0.n());
            assert(i != j) by {
                let mp = choose|m: int|
                    0 <= m < c0.points@.len() && (#[trigger] c0.points@[m].0@) == parent@
                        && spec_lookup(c0.points@, parent@) == Some(c0.points@[m].1 as int);
                let mc = choose|m: int|
                    0 <= m < c0.points@.len() && (#[trigger] c0.points@[m].0@) == child@
                        && spec_lookup(c0.points@, child@) == Some(c0.points@[m].1 as int);
                assert(mp != mc);
            }
        }
        let d = if self.is_rtl {
            sub_clip(0, delta)
        } else {
            delta
        };
        let ghost cpre = self.core;
        let _m = self.core.add_relation_core(i, j, d);
        proof {
            let c1 = self.core;
            let s: int = if d >= 0 {
                i as int
            } else {
                j as int
            };
            let t: int = if d >= 0 {
                j as int
            } else {
                i as int
            };
            lemma_upsert_rel(
                c0.nodes@[s].edges@,
                t as usize,
                _m,
                Extent::Fin(_m),
                s,
                c0.n(),
            );
            assert(chain_ok(c1.nodes@, c1.zones as int)) by {
                assert forall|z: int| 0 <= z < c1.zones implies #[trigger] chain_at(
                    c1.nodes@,
                    z,
                ) by {
                    assert(chain_at(c0.nodes@, z));
                    assert(has_edge_to(c0.nodes@[z].edges@, z + 1));
                    assert(rel_to(c0.nodes@[z].edges@, z + 1).min_offset >= 0);
                    assert(z != s);
                }
            }
            assert forall|k: int| 0 <= k < c1.n() implies (#[trigger] c1.nodes@[k].position)
                == 0 by {
                assert(c1.nodes@[k].kind == c0.nodes@[k].kind);
            }
            assert forall|x: int, y: int|
                0 <= x < c0.n() && 0 <= y < c0.n() implies #[trigger] same_group(c1.groups@, x, y)
                == (same_group(c0.groups@, x, y) || (same_group(c0.groups@, x, i as int)
                && same_group(c0.groups@, y, j as int)) || (same_group(c0.groups@, x, j as int)
                && same_group(c0.groups@, y, i as int))) by {
                lemma_uf_root_props(c0.groups@, x);
                lemma_uf_root_props(c0.groups@, y);
                lemma_uf_root_props(c0.groups@, i as int);
                lemma_uf_root_props(c0.groups@, j as int);
                assert(uf_root(c1.groups@, i as int) == uf_root(c0.groups@, i as int) || uf_root(
                    c1.groups@,
                    i as int,
                ) == uf_root(c0.groups@, j as int));
                assert(uf_root(c1.groups@, x) == (if same_group(c0.groups@, x, i as int)
                    || same_group(c0.groups@, x, j as int) {
                    uf_root(c1.groups@, i as int)
                } else {
                    uf_root(c0.groups@, x)
                }));
                assert(uf_root(c1.groups@, y) == (if same_group(c0.groups@, y, i as int)
                    || same_group(c0.groups@, y, j as int) {
                    uf_root(c1.groups@, i as int)
                } else {
                    uf_root(c0.groups@, y)
                }));
            }
        }
    }

    /// Fixes the width of `zone` exactly.
    pub fn set_zone_size(&mut self, zone: usize, size: i64)
        requires
            old(self).wf(),
            zone < old(self).zones(),
            size >= 0,
        ensures
            final(self).wf(),
            final(self).zones() == old(self).zones(),
            final(self).is_rtl == old(self).is_rtl,
            final(self).n() == old(self).n(),
            forall|idv: AlignPointIdView|
                #[trigger] final(self).registered(idv) == old(self).registered(idv) && final(self).node_of(idv) == old(self).node_of(idv),
            old(self).rel_between(zone as int, zone + 1) is None ==> final(self).rel_between(
                zone as int,
                zone + 1,
            ) == Some(Relation { min_offset: size, max_offset: Extent::Fin(size) }),
            old(self).rel_between(zone as int, zone + 1) matches Some(r0) ==> final(self).rel_between(zone as int, zone + 1) == Some(
                r0.tightened(size, Extent::Fin(size)),
            ),
            forall|x: int, y: int|
                0 <= x < old(self).n() && !(x == zone as int && y == zone + 1) ==> #[trigger] final(self).rel_between(x, y) == old(self).rel_between(x, y),
            forall|x: int, y: int|
                0 <= x < old(self).n() && 0 <= y < old(self).n() ==> #[trigger] final(self).node_same_group(x, y) == old(self).node_same_group(x, y),
    {
        let ghost c0 = self.core;
        self.core.add_edge(zone, zone + 1, size, Extent::Fin(size));
        proof {
            lemma_chain_after_upsert(c0, self.core, zone, (zone + 1) as usize, size, Extent::Fin(size));
            lemma_upsert_rel(
                c0.nodes@[zone as int].edges@,
                (zone + 1) as usize,
                size,
                Extent::Fin(size),
                zone as int,
                c0.n(),
            );
        }
    }

    /// Demands at least `min_size` of width for `zone`.
    pub fn set_min_zone_size(&mut self, zone: usize, min_size: i64)
        requires
            old(self).wf(),
            zone < old(self).zones(),
        ensures
            final(self).wf(),
            final(self).zones() == old(self).zones(),
            final(self).is_rtl == old(self).is_rtl,
            final(self).n() == old(self).n(),
            forall|idv: AlignPointIdView|
                #[trigger] final(self).registered(idv) == old(self).registered(idv) && final(self).node_of(idv) == old(self).node_of(idv),
            old(self).rel_between(zone as int, zone + 1) is None ==> final(self).rel_between(
                zone as int,
                zone + 1,
            ) == Some(Relation { min_offset: min_size, max_offset: Extent::Inf }),
            old(self).rel_between(zone as int, zone + 1) matches Some(r0) ==> final(self).rel_between(zone as int, zone + 1) == Some(r0.tightened(min_size, Extent::Inf)),
            forall|x: int, y: int|
                0 <= x < old(self).n() && !(x == zone as int && y == zone + 1) ==> #[trigger] final(self).rel_between(x, y) == old(self).rel_between(x, y),
            forall|x: int, y: int|
                0 <= x < old(self).n() && 0 <= y < old(self).n() ==> #[trigger] final(self).node_same_group(x, y) == old(self).node_same_group(x, y),
    {
        let ghost c0 = self.core;
        self.core.add_edge(zone, zone + 1, min_size, Extent::Inf);
        proof {
            lemma_chain_after_upsert(c0, self.core, zone, (zone + 1) as usize, min_size, Extent::Inf);
            lemma_upsert_rel(
                c0.nodes@[zone as int].edges@,
                (zone + 1) as usize,
                min_size,
                Extent::Inf,
                zone as int,
                c0.n(),
            );
        }
    }

    /// Demands at least `min_size` of width for the whole span of zones
    /// from `zones_span.start` to `zones_span.end`.
    pub fn set_min_span_size(&mut self, zones_span: Range<usize>, min_size: i64)
        requires
            old(self).wf(),
            zones_span.start < zones_span.end,
            zones_span.end <= old(self).zones(),
        ensures
            final(self).wf(),
            final(self).zones() == old(self).zones(),
            final(self).is_rtl == old(self).is_rtl,
            final(self).n() == old(self).n(),
            forall|idv: AlignPointIdView|
                #[trigger] final(self).registered(idv) == old(self).registered(idv) && final(self).node_of(idv) == old(self).node_of(idv),
            old(self).rel_between(zones_span.start as int, zones_span.end as int) is None ==> final(self).rel_between(zones_span.start as int, zones_span.end as int) == Some(
                Relation { min_offset: min_size, max_offset: Extent::Inf },
            ),
            old(self).rel_between(zones_span.start as int, zones_span.end as int) matches Some(r0)
                ==> final(self).rel_between(zones_span.start as int, zones_span.end as int)
                == Some(r0.tightened(min_size, Extent::Inf)),
            forall|x: int, y: int|
                0 <= x < old(self).n() && !(x == zones_span.start as int && y
                    == zones_span.end as int) ==> #[trigger] final(self).rel_between(x, y) == old(self).rel_between(x, y),
            forall|x: int, y: int|
                0 <= x < old(self).n() && 0 <= y < old(self).n() ==> #[trigger] final(self).node_same_group(x, y) == old(self).node_same_group(x, y),
    {
        let ghost c0 = self.core;
        self.core.add_edge(zones_span.start, zones_span.end, min_size, Extent::Inf);
        proof {
            lemma_chain_after_upsert(
                c0,
                self.core,
                zones_span.start,
                zones_span.end,
                min_size,
                Extent::Inf,
            );
            lemma_upsert_rel(
                c0.nodes@[zones_span.start as int].edges@,
                zones_span.end,
                min_size,
                Extent::Inf,
                zones_span.start as int,
                c0.n(),
            );
        }
    }

    /// Whether `id1` and `id2` have been linked    /// Whether `id1` and `id2` have been linked by some chain of declared
    /// relations.
    pub fn is_same_group(&self, id1: &AlignPointId, id2: &AlignPointId) -> (r: bool)
        requires
            self.wf(),
            self.registered(id1@),
            self.registered(id2@),
        ensures
            r == self.node_same_group(self.node_of(id1@), self.node_of(id2@)),
    {
        let i = match self.core.lookup(id1) {
            Some(i) => i,
            None => {
                proof {
                    assert(false);
                }
                return false;
            }
        };
        let j = match self.core.lookup(id2) {
            Some(j) => j,
            None => {
                proof {
                    assert(false);
                }
                return false;
            }
        };
        proof {
            lemma_lookup_entry(self.core.points@, id1@);
            lemma_lookup_entry(self.core.points@, id2@);
        }
        let ri = find_group(&self.core.groups, i);
        let rj = find_group(&self.core.groups, j);
        ri == rj
    }
}


/// One add-or-tighten step on any pair keeps the separator chain: its
/// relations stay present and tightening never lowers a minimum.
proof fn lemma_chain_after_upsert(c0: Core, c1: Core, from: usize, to: usize, m: i64, mx: Extent)
    requires
        c0.wf0(),
        chain_ok(c0.nodes@, c0.zones as int),
        (from as int) < c0.n(),
        c1.n() == c0.n(),
        c1.zones == c0.zones,
        c1.nodes@[from as int].edges@ == upsert(c0.nodes@[from as int].edges@, to, m, mx),
        forall|a: int|
            0 <= a < c0.n() && a != from ==> (#[trigger] c1.nodes@[a]) == c0.nodes@[a],
    ensures
        chain_ok(c1.nodes@, c1.zones as int),
{
    lemma_upsert_rel(c0.nodes@[from as int].edges@, to, m, mx, from as int, c0.n());
    assert forall|z: int| 0 <= z < c1.zones implies #[trigger] chain_at(c1.nodes@, z) by {
        assert(chain_at(c0.nodes@, z));
        assert(has_edge_to(c0.nodes@[z].edges@, z + 1));
        assert(rel_to(c0.nodes@[z].edges@, z + 1).min_offset >= 0);
        if z == from {
            if (to as int) == z + 1 {
                assert(rel_to(c1.nodes@[z].edges@, z + 1) == rel_to(
                    c0.nodes@[z].edges@,
                    z + 1,
                ).tightened(m, mx));
            }
        }
    }
}


/// The immutable result of solving: resolved positions and per-group slack,
/// frozen so that no query can observe a partially relaxed state.
pub struct AlignmentInfos {
    pub core: Core,
    pub base: Ghost<Seq<i64>>,
    pub was_rtl: Ghost<bool>,
}

impl AlignmentInfos {
    pub open spec fn n(self) -> int {
        self.core.n()
    }

    pub open spec fn zones(self) -> int {
        self.core.zones as int
    }

    pub open spec fn registered(self, id: AlignPointIdView) -> bool {
        self.core.registered(id)
    }

    pub open spec fn node_of(self, id: AlignPointIdView) -> int {
        self.core.node_of(id)
    }

    /// The physical position stored for node `k`.
    pub open spec fn position_at(self, k: int) -> int {
        self.core.nodes@[k].position as int
    }

    /// The slack cached for the group containing node `k`.
    pub open spec fn extra_at(self, k: int) -> Extent {
        extra_root_of(self.core.groups@, k)
    }

    /// The frozen relation from node `a` to node `b`, if one was stored.
    pub open spec fn rel_between(self, a: int, b: int) -> Option<Relation> {
        if has_edge_to(self.core.nodes@[a].edges@, b) {
            Some(rel_to(self.core.nodes@[a].edges@, b))
        } else {
            None
        }
    }

    /// Whether the solver reached a fixed point: the committed logical
    /// positions satisfy every stored relation.
    pub open spec fn solved(self) -> bool {
        all_sat(self.core.nodes@, self.base@)
    }

    /// What `compute` guarantees of its result.
    ///
    /// The logical (pre-mirror) positions `base` either satisfy every
    /// relation, or are all zero — the fail-soft answer to a cycle, an
    /// unreachable node, or an exhausted pass budget.  Every group's slack
    /// record holds the least slack its outgoing relations leave on those
    /// positions.  The stored physical positions are the logical ones, or
    /// under right-to-left layout their reflection about the last
    /// separator after each align point absorbed its group's slack.
    pub open spec fn valid(self) -> bool {
        &&& self.core.wf()
        &&& chain_ok(self.core.nodes@, self.core.zones as int)
        &&& self.base@.len() == self.n()
        &&& all_zero(self.base@) || all_sat(self.core.nodes@, self.base@)
        &&& all_zero(self.base@) || crate::groups::groups_flat(self.core.groups@)
        &&& forall|g: int|
            0 <= g < self.n() ==> (#[trigger] self.core.groups@[g].extra_space) == cross_min(
                self.core.nodes@,
                self.base@,
                self.core.groups@,
                g,
            )
        &&& !self.was_rtl@ ==> forall|k: int|
            0 <= k < self.n() ==> ((#[trigger] self.core.nodes@[k].position) as int)
                == self.base@[k]
        &&& self.was_rtl@ ==> forall|k: int|
            self.zones() < k < self.n() ==> (#[trigger] self.extra_at(k)) is Fin
        &&& self.was_rtl@ ==> forall|k: int|
            0 <= k <= self.zones() ==> ((#[trigger] self.core.nodes@[k].position) as int) == clip(
                self.base@[self.zones()] - self.base@[k],
            )
        &&& self.was_rtl@ ==> forall|k: int|
            self.zones() < k < self.n() ==> ((#[trigger] self.core.nodes@[k].position) as int)
                == clip(
                self.base@[self.zones()] - clip(self.base@[k] + self.extra_at(k).fin_val()),
            )
    }

    /// A structured dump of the result: every node with its physical
    /// position, in ascending position order.
    pub fn positions(&self) -> (r: Vec<(i64, usize)>)
        ensures
            crate::solve::position_list_ok(self.core.nodes@, r@),
    {
        crate::solve::position_list(&self.core.nodes)
    }

    /// The resolved position of a registered align point.
    pub fn get_position(&self, id: &AlignPointId) -> (r: i64)
        requires
            self.valid(),
            self.registered(id@),
        ensures
            r as int == self.position_at(self.node_of(id@)),
    {
        let k = match self.core.lookup(id) {
            Some(k) => k,
            None => {
                proof {
                    assert(false);
                }
                return 0;
            }
        };
        proof {
            lemma_lookup_entry(self.core.points@, id@);
        }
        self.core.nodes[k].position
    }

    /// The resolved position of a zone separator.
    pub fn get_zone_position(&self, zone: usize) -> (r: i64)
        requires
            self.valid(),
            zone <= self.zones(),
        ensures
            r as int == self.position_at(zone as int),
    {
        self.core.nodes[zone].position
    }

    /// The width of a zone: the non-negative distance between its two
    /// separators, whichever side of the other the mirroring left each on.
    pub fn get_zone_size(&self, zone: usize) -> (r: i64)
        requires
            self.valid(),
            zone < self.zones(),
        ensures
            r as int == ({
                let d = clip(self.position_at(zone + 1) - self.position_at(zone as int));
                if d >= 0 {
                    d
                } else {
                    clip(-d)
                }
            }),
            r >= 0,
    {
        let d = sub_clip(self.core.nodes[zone + 1].position, self.core.nodes[zone].position);
        if d < 0 {
            sub_clip(0, d)
        } else {
            d
        }
    }

    /// The slack of the group containing a registered align point: how far
    /// the whole group could shift without breaking a relation that leaves
    /// it, or infinite when none does.
    pub fn get_extra_space(&self, id: &AlignPointId) -> (r: Extent)
        requires
            self.valid(),
            self.registered(id@),
        ensures
            r == self.extra_at(self.node_of(id@)),
    {
        let k = match self.core.lookup(id) {
            Some(k) => k,
            None => {
                proof {
                    assert(false);
                }
                return Extent::Inf;
            }
        };
        proof {
            lemma_lookup_entry(self.core.points@, id@);
        }
        let g = self.core.groups[k].parent;
        self.core.groups[g].extra_space
    }
}

impl AlignmentEngine {
    /// Solves the accumulated constraints and freezes the result.
    ///
    /// The graph is ordered from the first separator; if the order covers
    /// every node, the groups are flattened and the relaxation run.  A
    /// reached fixed point is committed; a cycle, an unreachable node or an
    /// exhausted pass budget silently leaves every logical position at
    /// zero.  Slack is then computed per group, and under right-to-left
    /// layout the positions are mirrored.
    ///
    /// The committed logical positions equal `spec_base` of the graph — a
    /// pure function of what was built, so identical builds solve
    /// identically.
    #[verifier::rlimit(100)]
    pub fn compute(self) -> (r: AlignmentInfos)
        requires
            self.wf(),
        ensures
            r.valid(),
            r.base@ == crate::solve::spec_base(self.core.nodes@),
            r.was_rtl@ == self.is_rtl,
            r.zones() == self.zones(),
            r.n() == self.n(),
            r.core.points@ == self.core.points@,
            forall|k: int|
                0 <= k < self.n() ==> (#[trigger] r.core.nodes@[k].kind) == self.core.nodes@[k].kind
                    && r.core.nodes@[k].edges@ == self.core.nodes@[k].edges@,
            forall|x: int, y: int|
                0 <= x < self.n() && 0 <= y < self.n() ==> #[trigger] same_group(r.core.groups@, x, y)
                    == same_group(self.core.groups@, x, y),
    {
        let AlignmentEngine { mut core, is_rtl } = self;
        let ghost c0 = core;
        let order = core.topo_order();
        let n = core.nodes.len();
        let ghost cafter_topo = core;
        if order.len() == n {
            let ghost gpre = core.groups@;
            flatten_groups(&mut core.groups);
            proof {
                let gs = core.groups@;
                assert forall|k: int| 0 <= k <= core.zones implies (#[trigger] gs[k].parent) as int
                    == k by {
                    assert(uf_root(gpre, k) == k) by {
                        lemma_root_level(gpre, core.zones as int, k);
                    }
                }
                assert forall|k: int| core.zones < k < core.n() implies (#[trigger] gs[k].parent)
                    as int > core.zones by {
                    assert(uf_root(gpre, k) > core.zones) by {
                        lemma_root_level(gpre, core.zones as int, k);
                    }
                }
                assert(core.wf());
            }
            let rr = relax(&core.nodes, &order);
            let positions = rr.0;
            let converged = rr.1;
            if converged {
                let ghost nodes_pre = core.nodes@;
                let ghost cpre_commit = core;
                let mut k: usize = 0;
                while k < n
                    invariant
                        core.wf(),
                        core.zones == cpre_commit.zones,
                        core.groups@ == cpre_commit.groups@,
                        core.points@ == cpre_commit.points@,
                        k <= n,
                        n == core.nodes@.len(),
                        positions@.len() == n,
                        nodes_pre.len() == n,
                        forall|a: int|
                            0 <= a < n ==> (#[trigger] core.nodes@[a].kind) == nodes_pre[a].kind
                                && core.nodes@[a].edges@ == nodes_pre[a].edges@,
                        forall|a: int|
                            0 <= a < k ==> (#[trigger] core.nodes@[a].position) == positions@[a],
                        forall|a: int|
                            k <= a < n ==> (#[trigger] core.nodes@[a].position)
                                == nodes_pre[a].position,
                    decreases n - k,
                {
                    let p = positions[k];
                    core.nodes[k].position = p;
                    k = k + 1;
                }
                proof {
                    assert forall|a: int| 0 <= a < n implies #[trigger] node_sat(
                        core.nodes@,
                        positions@,
                        a,
                    ) by {
                        assert(order@.contains(a as usize));
                        let oi = choose|oi: int|
                            0 <= oi < order@.len() && order@[oi] == a as usize;
                        assert(node_sat(nodes_pre, positions@, (order@[oi]) as int));
                        assert(core.nodes@[a].kind == nodes_pre[a].kind);
                        assert(core.nodes@[a].edges@ == nodes_pre[a].edges@);
                    }
                    assert(all_sat(core.nodes@, positions@));
                    assert(positions_of(core.nodes@) =~= positions@);
                    assert(positions_of(core.nodes@) == crate::solve::spec_base(c0.nodes@));
                }
            } else {
                proof {
                    // an exhausted pass budget leaves the zero assignment,
                    // which is exactly what the specification commits
                    assert(positions_of(core.nodes@) =~= crate::solve::zero_positions(
                        c0.nodes@.len(),
                    ));
                    assert(positions@ == crate::solve::zero_positions(c0.nodes@.len()));
                    assert(positions_of(core.nodes@) == crate::solve::spec_base(c0.nodes@));
                }
            }
        } else {
            proof {
                assert(positions_of(core.nodes@) =~= crate::solve::zero_positions(
                    c0.nodes@.len(),
                ));
                assert(positions_of(core.nodes@) == crate::solve::spec_base(c0.nodes@));
            }
        }
        let ghost base = positions_of(core.nodes@);
        proof {
            assert(base == crate::solve::spec_base(c0.nodes@));
        }
        let ghost cpre_extras = core;
        proof {
            if !(all_sat(core.nodes@, base)) {
                assert forall|a: int| 0 <= a < base.len() implies (#[trigger] base[a]) == 0 by {
                    assert(core.nodes@[a].position == c0.nodes@[a].position);
                }
                assert(all_zero(base));
            }
        }
        compute_extras(&core.nodes, &mut core.groups);
        proof {
            let gs = core.groups@;
            assert forall|g: int| 0 <= g < core.n() implies (#[trigger] gs[g].extra_space)
                == cross_min(core.nodes@, base, gs, g) by {
                assert(gs[g].extra_space == cpre_extras.groups@[g].extra_space.spec_min(
                    cross_min(core.nodes@, positions_of(core.nodes@), cpre_extras.groups@, g),
                ));
                assert(cpre_extras.groups@[g].extra_space == Extent::Inf);
                crate::solve::lemma_cross_min_same_parents(
                    core.nodes@,
                    base,
                    cpre_extras.groups@,
                    gs,
                    g,
                );
            }
            crate::groups::lemma_uf_same_records(cpre_extras.groups@, core.groups@);
            assert(core.wf());
        }
        let ghost cpre_mirror = core;
        if is_rtl {
            proof {
                assert forall|k: int| core.zones < k < core.n() implies (#[trigger] extra_root_of(
                    core.groups@,
                    k,
                )) is Fin by {
                    let g = core.groups@[k].parent as int;
                    assert(g > core.zones);
                    assert(has_separator_edge(core.nodes@[k], core.zones as int));
                    let e = choose|e: int|
                        0 <= e < core.nodes@[k].edges@.len() && ((#[trigger] core.nodes@[k].edges@[e].to)
                            as int) <= core.zones;
                    let to = core.nodes@[k].edges@[e].to as int;
                    assert(core.groups@[to].parent as int == to);
                    assert(edge_grant(core.nodes@, base, core.groups@, g, k, e) is Fin);
                    lemma_cross_min_le_grant(core.nodes@, base, core.groups@, g, k, e);
                    assert(core.groups@[g].extra_space == cross_min(
                        core.nodes@,
                        base,
                        core.groups@,
                        g,
                    ));
                }
            }
            apply_rtl(&mut core.nodes, &core.groups, core.zones);
            proof {
                assert forall|k: int| 0 <= k < core.n() implies (#[trigger] core.nodes@[k].edges@)
                    == cpre_mirror.nodes@[k].edges@ && core.nodes@[k].kind
                    == cpre_mirror.nodes@[k].kind by {
                    assert(core.nodes@[k].kind == cpre_mirror.nodes@[k].kind);
                }
                assert forall|g: int| 0 <= g < core.n() implies (#[trigger] core.groups@[g].extra_space)
                    == cross_min(core.nodes@, base, core.groups@, g) by {
                    assert(core.groups@[g].extra_space == cross_min(
                        cpre_mirror.nodes@,
                        base,
                        core.groups@,
                        g,
                    ));
                    lemma_cross_min_same_edges(cpre_mirror.nodes@, core.nodes@, base, core.groups@, g);
                }
                assert forall|k: int| 0 <= k < core.n() implies edges_wf(
                    (#[trigger] core.nodes@[k]).edges@,
                    k,
                    core.n(),
                ) by {
                    assert(core.nodes@[k].edges@ == cpre_mirror.nodes@[k].edges@);
                    assert(edges_wf(cpre_mirror.nodes@[k].edges@, k, cpre_mirror.n()));
                }
                assert forall|k: int| core.zones < k < core.n() implies has_separator_edge(
                    #[trigger] core.nodes@[k],
                    core.zones as int,
                ) by {
                    assert(has_separator_edge(cpre_mirror.nodes@[k], cpre_mirror.zones as int));
                    let e = choose|e: int|
                        0 <= e < cpre_mirror.nodes@[k].edges@.len() && ((
                        #[trigger] cpre_mirror.nodes@[k].edges@[e].to) as int)
                            <= cpre_mirror.zones;
                    assert(core.nodes@[k].edges@[e].to <= core.zones);
                }
                assert forall|k: int| 0 <= k <= core.zones implies ((#[trigger] core.nodes@[k].kind)
                    matches NodeKind::ZoneSeparator(z) && (z as int) == k) by {
                    assert(core.nodes@[k].kind == cpre_mirror.nodes@[k].kind);
                }
                assert forall|m: int| 0 <= m < core.points@.len() implies ((
                #[trigger] core.nodes@[core.zones + 1 + m].kind) matches NodeKind::AlignPoint(idq)
                    && (idq@ == core.points@[m].0@)) by {
                    assert(core.nodes@[core.zones + 1 + m].kind == cpre_mirror.nodes@[core.zones + 1
                        + m].kind);
                }
                assert(core.wf());
                assert forall|a: int| 0 <= a < cpre_mirror.n() implies (
                #[trigger] cpre_mirror.nodes@[a].edges@) == c0.nodes@[a].edges@ by {
                    assert(cpre_mirror.nodes@[a].kind == c0.nodes@[a].kind);
                }
                lemma_chain_same_edges(c0.nodes@, cpre_mirror.nodes@, c0.zones as int);
                lemma_chain_same_edges(cpre_mirror.nodes@, core.nodes@, core.zones as int);
                assert(chain_ok(core.nodes@, core.zones as int));
            }
        }
        proof {
            if !is_rtl {
                assert forall|a: int| 0 <= a < core.n() implies (#[trigger] core.nodes@[a].edges@)
                    == c0.nodes@[a].edges@ by {
                    assert(core.nodes@[a].kind == c0.nodes@[a].kind);
                }
                lemma_chain_same_edges(c0.nodes@, core.nodes@, core.zones as int);
                assert(chain_ok(core.nodes@, core.zones as int));
            }
        }
        let r = AlignmentInfos { core, base: Ghost(base), was_rtl: Ghost(is_rtl) };
        proof {
            assert(r.core.wf());
            assert(chain_ok(r.core.nodes@, r.core.zones as int));
            assert(r.base@.len() == r.n());
            assert(forall|g: int|
                0 <= g < r.n() ==> (#[trigger] r.core.groups@[g].extra_space) == cross_min(
                    r.core.nodes@,
                    r.base@,
                    r.core.groups@,
                    g,
                ));
            if !is_rtl {
                assert(all_zero(r.base@) || all_sat(r.core.nodes@, r.base@));
            } else {
                assert(r.core.nodes@[0].edges@ == cpre_mirror.nodes@[0].edges@);
                if all_sat(cpre_mirror.nodes@, base) {
                    assert forall|a: int| 0 <= a < r.core.nodes@.len() implies #[trigger] node_sat(
                        r.core.nodes@,
                        base,
                        a,
                    ) by {
                        assert(node_sat(cpre_mirror.nodes@, base, a));
                        assert(r.core.nodes@[a].edges@ == cpre_mirror.nodes@[a].edges@);
                    }
                }
            }
        }
        r
    }
}

} // verus!
