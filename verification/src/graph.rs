//! The constraint graph: nodes, directed interval relations, and the
//! builder operations shared by both engine variants.
//!
//! Nodes live in one append-only sequence: the zone separators occupy
//! indices `0..=zones` in order, align points follow in first-reference
//! order.  Each node carries its outgoing relations as a list keyed by
//! target index with the targets pairwise distinct, so that constraining the
//! same pair again tightens the stored interval instead of adding a second
//! edge.  The first separator is the root the solver starts from and never
//! receives an incoming edge.

use vstd::prelude::*;
use crate::groups::{GroupInfo, roots, uf_inv, uf_root, lemma_uf_root_props, lemma_roots_finite,
    lemma_uf_push_singleton, same_group, merge_groups};
use vstd::set_lib::{lemma_int_range, set_int_range};
use crate::id::{AlignPointId, AlignPointIdView, id_eq};
use crate::length::{clip, sub_clip, Extent};

verus! {

/// A directed interval constraint: the target's position minus the source's
/// must lie in `[min_offset, max_offset]`.
///
/// Tightening the same pair again raises `min_offset` and lowers
/// `max_offset`; conflicting constraints can drive `min_offset` above
/// `max_offset`, which is kept as given — the relaxation is driven by
/// `min_offset` alone, and an inverted interval simply never counts as
/// fixed.
#[derive(Clone, Copy, Debug, PartialEq, Eq, Structural)]
pub struct Relation {
    pub min_offset: i64,
    pub max_offset: Extent,
}

impl Relation {
    /// A fixed relation pins the distance exactly.
    pub open spec fn is_fixed(self) -> bool {
        self.max_offset == Extent::Fin(self.min_offset)
    }

    /// The interval that results from constraining this one further.
    pub open spec fn tightened(self, min_offset: i64, max_offset: Extent) -> Relation {
        Relation {
            min_offset: if min_offset > self.min_offset { min_offset } else { self.min_offset },
            max_offset: self.max_offset.spec_min(max_offset),
        }
    }
}

/// What a node stands for.
pub enum NodeKind {
    ZoneSeparator(usize),
    AlignPoint(AlignPointId),
}

/// An outgoing edge: the target node and the interval constraint to it.
pub struct Edge {
    pub to: usize,
    pub rel: Relation,
}

/// One graph node: its identity, its resolved position, and its outgoing
/// relations.
pub struct Node {
    pub kind: NodeKind,
    pub position: i64,
    pub edges: Vec<Edge>,
}

/// Whether `edges` holds an edge targeting `t`.
pub open spec fn has_edge_to(edges: Seq<Edge>, t: int) -> bool {
    exists|e: int| 0 <= e < edges.len() && (#[trigger] edges[e].to) as int == t
}

/// The index of the edge targeting `t`.
pub open spec fn edge_idx(edges: Seq<Edge>, t: int) -> int {
    choose|e: int| 0 <= e < edges.len() && (#[trigger] edges[e].to) as int == t
}

/// The relation stored towards `t`.
pub open spec fn rel_to(edges: Seq<Edge>, t: int) -> Relation {
    edges[edge_idx(edges, t)].rel
}

/// The edge list after adding or tightening a relation towards `to`.
pub open spec fn upsert(edges: Seq<Edge>, to: usize, min_offset: i64, max_offset: Extent) -> Seq<
    Edge,
> {
    if has_edge_to(edges, to as int) {
        edges.update(
            edge_idx(edges, to as int),
            Edge { to, rel: rel_to(edges, to as int).tightened(min_offset, max_offset) },
        )
    } else {
        edges.push(Edge { to, rel: Relation { min_offset, max_offset } })
    }
}

/// Whether the node has an outgoing edge to some zone separator.
pub open spec fn has_separator_edge(node: Node, zones: int) -> bool {
    exists|e: int|
        0 <= e < node.edges@.len() && ((#[trigger] node.edges@[e].to) as int) <= zones
}

/// Targets within bounds, never the root, never the node itself, and
/// pairwise distinct.
pub open spec fn edge_ok(e: Edge, me: int, n: int) -> bool {
    &&& 0 < (e.to as int)
    &&& (e.to as int) < n
    &&& (e.to as int) != me
}

pub open spec fn edges_wf(edges: Seq<Edge>, me: int, n: int) -> bool {
    &&& forall|e: int| 0 <= e < edges.len() ==> edge_ok(#[trigger] edges[e], me, n)
    &&& forall|e1: int, e2: int|
        0 <= e1 < edges.len() && 0 <= e2 < edges.len() && (#[trigger] edges[e1].to)
            == (#[trigger] edges[e2].to) ==> e1 == e2
}

/// The node index registered for `id`, if any.
pub open spec fn spec_lookup(ps: Seq<(AlignPointId, usize)>, id: AlignPointIdView) -> Option<int>
    decreases ps.len(),
{
    if ps.len() == 0 {
        None
    } else if ps[0].0@ == id {
        Some(ps[0].1 as int)
    } else {
        spec_lookup(ps.drop_first(), id)
    }
}

/// The builder state shared by both engine variants.
///
/// A node's prerequisites — the sources of its incoming relations, which
/// the topological ordering counts down — are not tracked here: they are a
/// function of the edge lists and are derived afresh when solving starts,
/// which keeps every solve a function of the graph alone.
pub struct Core {
    pub zones: usize,
    pub nodes: Vec<Node>,
    pub groups: Vec<GroupInfo>,
    pub points: Vec<(AlignPointId, usize)>,
}

impl Core {
    pub open spec fn n(self) -> int {
        self.nodes@.len() as int
    }

    /// Structural well-formedness apart from the separator-edge clause,
    /// which a point being added briefly lacks.
    pub open spec fn wf0(self) -> bool {
        &&& self.n() == self.zones + 1 + self.points@.len()
        &&& self.groups@.len() == self.n()
        &&& forall|k: int|
            0 <= k <= self.zones ==> ((#[trigger] self.nodes@[k].kind) matches NodeKind::ZoneSeparator(z)
                && (z as int) == k)
        &&& forall|m: int|
            0 <= m < self.points@.len() ==> (#[trigger] self.points@[m].1) as int == self.zones + 1
                + m
        &&& forall|m: int|
            0 <= m < self.points@.len() ==> ((#[trigger] self.nodes@[self.zones + 1 + m].kind)
                matches NodeKind::AlignPoint(id) && (id@ == self.points@[m].0@))
        &&& forall|m1: int, m2: int|
            0 <= m1 < self.points@.len() && 0 <= m2 < self.points@.len() && m1 != m2
                ==> (#[trigger] self.points@[m1].0@) != (#[trigger] self.points@[m2].0@)
        &&& forall|k: int|
            0 <= k < self.n() ==> edges_wf((#[trigger] self.nodes@[k]).edges@, k, self.n())
        &&& uf_inv(self.groups@)
        &&& forall|k: int|
            0 <= k <= self.zones ==> (#[trigger] self.groups@[k].parent) as int == k
        &&& forall|k: int|
            self.zones < k < self.n() ==> (#[trigger] self.groups@[k].parent) as int > self.zones
    }

    /// Full well-formedness: every align point also keeps an edge towards a
    /// zone separator, which bounds its group's slack.
    pub open spec fn wf(self) -> bool {
        &&& self.wf0()
        &&& forall|k: int|
            self.zones < k < self.n() ==> has_separator_edge(
                #[trigger] self.nodes@[k],
                self.zones as int,
            )
    }

    /// Whether `id` has been registered as an align point.
    pub open spec fn registered(self, id: AlignPointIdView) -> bool {
        spec_lookup(self.points@, id) is Some
    }

    /// The node index of a registered align point.
    pub open spec fn node_of(self, id: AlignPointIdView) -> int {
        spec_lookup(self.points@, id)->Some_0
    }

    /// Kinds, edge structure and positions of all nodes, and the point
    /// registry: everything the solver and the queries read.
    pub open spec fn same_nodes(self, other: Core) -> bool {
        &&& other.zones == self.zones
        &&& other.nodes@ == self.nodes@
        &&& other.points@ == self.points@
    }

    /// Finds the registered node of `id` by scanning the registry.
    pub fn lookup(&self, id: &AlignPointId) -> (r: Option<usize>)
        ensures
            match r {
                Some(k) => spec_lookup(self.points@, id@) == Some(k as int),
                None => spec_lookup(self.points@, id@) is None,
            },
    {
        let ghost ps = self.points@;
        proof {
            assert(ps.skip(0) =~= ps);
        }
        let mut m: usize = 0;
        while m < self.points.len()
            invariant
                m <= ps.len(),
                self.points@ == ps,
                spec_lookup(ps, id@) == spec_lookup(ps.skip(m as int), id@),
            decreases ps.len() - m,
        {
            proof {
                assert(ps.skip(m as int)[0] == ps[m as int]);
                assert(ps.skip(m as int).drop_first() =~= ps.skip(m as int + 1));
            }
            if id_eq(&self.points[m].0, id) {
                return Some(self.points[m].1);
            }
            m = m + 1;
        }
        proof {
            assert(ps.skip(m as int).len() == 0);
        }
        None
    }
}

/// A registered lookup names a registry entry, so distinct identifiers
/// resolve to distinct nodes and every resolved node is an align point.
pub proof fn lemma_lookup_entry(ps: Seq<(AlignPointId, usize)>, id: AlignPointIdView)
    requires
        spec_lookup(ps, id) is Some,
    ensures
        exists|m: int|
            0 <= m < ps.len() && (#[trigger] ps[m].0@) == id && spec_lookup(ps, id) == Some(
                ps[m].1 as int,
            ),
    decreases ps.len(),
{
    if ps.len() > 0 {
        if ps[0].0@ == id {
            assert(ps[0].0@ == id && spec_lookup(ps, id) == Some(ps[0].1 as int));
        } else {
            lemma_lookup_entry(ps.drop_first(), id);
            let m = choose|m: int|
                0 <= m < ps.drop_first().len() && (#[trigger] ps.drop_first()[m].0@) == id
                    && spec_lookup(ps.drop_first(), id) == Some(ps.drop_first()[m].1 as int);
            assert(ps[m + 1].0@ == id && spec_lookup(ps, id) == Some(ps[m + 1].1 as int));
        }
    }
}

/// Looking a fresh registry entry up finds it, and entries already present
/// keep their lookup result.
pub proof fn lemma_lookup_push(ps: Seq<(AlignPointId, usize)>, entry: (AlignPointId, usize), id: AlignPointIdView)
    ensures
        spec_lookup(ps, id) is Some ==> spec_lookup(ps.push(entry), id) == spec_lookup(ps, id),
        spec_lookup(ps, id) is None && entry.0@ == id ==> spec_lookup(ps.push(entry), id) == Some(
            entry.1 as int,
        ),
        spec_lookup(ps, id) is None && entry.0@ != id ==> spec_lookup(ps.push(entry), id) is None,
    decreases ps.len(),
{
    if ps.len() == 0 {
        assert(ps.push(entry)[0] == entry);
        assert(ps.push(entry).drop_first() =~= Seq::<(AlignPointId, usize)>::empty());
        assert(spec_lookup(Seq::<(AlignPointId, usize)>::empty(), id) is None);
    } else {
        assert(ps.push(entry)[0] == ps[0]);
        assert(ps.push(entry).drop_first() =~= ps.drop_first().push(entry));
        lemma_lookup_push(ps.drop_first(), entry, id);
        if ps[0].0@ != id {
            assert(spec_lookup(ps, id) == spec_lookup(ps.drop_first(), id));
            assert(spec_lookup(ps.push(entry), id) == spec_lookup(ps.drop_first().push(entry), id));
        }
    }
}

impl Core {
    /// Adds or tightens the directed relation `from -> to`.
    ///
    /// A first constraint on the pair stores the interval; a repeated one
    /// narrows the stored interval and never widens it.
    pub fn add_edge(&mut self, from: usize, to: usize, min_offset: i64, max_offset: Extent)
        requires
            old(self).wf0(),
            0 <= from < old(self).n(),
            0 < to < old(self).n(),
            to != from,
        ensures
            final(self).wf0(),
            forall|k: int|
                old(self).zones < k < old(self).n() && has_separator_edge(
                    old(self).nodes@[k],
                    old(self).zones as int,
                ) ==> has_separator_edge(
                    #[trigger] final(self).nodes@[k],
                    old(self).zones as int,
                ),
            final(self).n() == old(self).n(),
            final(self).zones == old(self).zones,
            final(self).points@ == old(self).points@,
            final(self).groups@ == old(self).groups@,
            forall|k: int|
                0 <= k < old(self).n() && k != from ==> (#[trigger] final(self).nodes@[k])
                    == old(self).nodes@[k],
            final(self).nodes@[from as int].kind == old(self).nodes@[from as int].kind,
            final(self).nodes@[from as int].position == old(self).nodes@[from as int].position,
            final(self).nodes@[from as int].edges@ == upsert(
                old(self).nodes@[from as int].edges@,
                to,
                min_offset,
                max_offset,
            ),
    {
        let n = self.nodes.len();
        let edges_len = self.nodes[from].edges.len();
        let ghost edges0 = self.nodes@[from as int].edges@;
        let mut e: usize = 0;
        while e < edges_len
            invariant
                self == old(self),
                edges0 == self.nodes@[from as int].edges@,
                from < self.nodes@.len(),
                edges_len == edges0.len(),
                e <= edges_len,
                forall|b: int| 0 <= b < e ==> (#[trigger] edges0[b].to) != to,
            decreases edges_len - e,
        {
            if self.nodes[from].edges[e].to == to {
                let old_rel = self.nodes[from].edges[e].rel;
                let new_min = if min_offset > old_rel.min_offset {
                    min_offset
                } else {
                    old_rel.min_offset
                };
                let mut new_max = old_rel.max_offset;
                new_max.set_min(max_offset);
                self.nodes[from].edges[e] = Edge {
                    to,
                    rel: Relation { min_offset: new_min, max_offset: new_max },
                };
                proof {
                    assert(edges0[e as int].to == to);
                    assert(has_edge_to(edges0, to as int));
                    let ei = edge_idx(edges0, to as int);
                    assert(0 <= ei < edges0.len() && (edges0[ei].to as int) == to as int);
                    assert(edges_wf(edges0, from as int, old(self).n()));
                    assert(ei == e);
                    let c = *final(self);
                    let edges1 = c.nodes@[from as int].edges@;
                    assert(edges1 == edges0.update(
                        e as int,
                        Edge { to, rel: rel_to(edges0, to as int).tightened(min_offset, max_offset) },
                    ));
                    assert(forall|b: int|
                        0 <= b < edges0.len() ==> (#[trigger] edges1[b].to) == edges0[b].to);
                    assert forall|k: int| 0 <= k < c.n() implies edges_wf(
                        (#[trigger] c.nodes@[k]).edges@,
                        k,
                        c.n(),
                    ) by {
                        assert(edges_wf(old(self).nodes@[k].edges@, k, old(self).n()));
                        if k == from {
                            assert forall|b: int| 0 <= b < edges1.len() implies edge_ok(
                                #[trigger] edges1[b],
                                k,
                                c.n(),
                            ) by {
                                assert(edge_ok(edges0[b], k, c.n()));
                            }
                        }
                    }
                    assert forall|k: int|
                        c.zones < k < c.n() && has_separator_edge(
                            old(self).nodes@[k],
                            old(self).zones as int,
                        ) implies has_separator_edge(#[trigger] c.nodes@[k], c.zones as int) by {
                        let w = choose|b: int|
                            0 <= b < old(self).nodes@[k].edges@.len() && ((#[trigger] old(self).nodes@[k].edges@[b].to) as int) <= old(self).zones;
                        assert(c.nodes@[k].edges@[w].to <= c.zones);
                    }
                }
                return ;
            }
            e = e + 1;
        }
        proof {
            assert(!has_edge_to(edges0, to as int));
        }
        self.nodes[from].edges.push(Edge { to, rel: Relation { min_offset, max_offset } });
        proof {
            let c = *final(self);
            assert forall|k: int| 0 <= k < c.n() implies edges_wf(
                (#[trigger] c.nodes@[k]).edges@,
                k,
                c.n(),
            ) by {
                if k == from {
                    assert(c.nodes@[k].edges@ == edges0.push(
                        Edge { to, rel: Relation { min_offset, max_offset } },
                    ));
                }
            }
            assert forall|k: int|
                c.zones < k < c.n() && has_separator_edge(
                    old(self).nodes@[k],
                    old(self).zones as int,
                ) implies has_separator_edge(#[trigger] c.nodes@[k], c.zones as int) by {
                let w = choose|b: int|
                    0 <= b < old(self).nodes@[k].edges@.len() && ((#[trigger] old(self).nodes@[k].edges@[b].to) as int) <= old(self).zones;
                assert(c.nodes@[k].edges@[w].to <= c.zones);
            }
        }
    }
}


/// A lookup that fails matches no registry entry.
pub proof fn lemma_lookup_none(ps: Seq<(AlignPointId, usize)>, id: AlignPointIdView)
    requires
        spec_lookup(ps, id) is None,
    ensures
        forall|m: int| 0 <= m < ps.len() ==> (#[trigger] ps[m].0@) != id,
    decreases ps.len(),
{
    if ps.len() > 0 {
        lemma_lookup_none(ps.drop_first(), id);
        assert forall|m: int| 0 <= m < ps.len() implies (#[trigger] ps[m].0@) != id by {
            if m > 0 {
                assert(ps.drop_first()[m - 1] == ps[m]);
            }
        }
    }
}

/// With separators their own parents and align points parented among align
/// points, the same split holds of the roots.
pub proof fn lemma_root_level(g: Seq<GroupInfo>, zones: int, k: int)
    requires
        uf_inv(g),
        forall|a: int| 0 <= a <= zones && a < g.len() ==> (#[trigger] g[a].parent) as int == a,
        forall|a: int| zones < a < g.len() ==> (#[trigger] g[a].parent) as int > zones,
        0 <= k < g.len(),
    ensures
        0 <= k <= zones ==> uf_root(g, k) == k,
        zones < k ==> uf_root(g, k) > zones,
    decreases g.len() - g[k].depth,
{
    if g[k].parent as int != k {
        lemma_root_level(g, zones, g[k].parent as int);
    }
}

impl Core {
    /// A fresh builder: `zones + 1` separator nodes at position zero,
    /// chained left to right by minimum-zero relations, each its own
    /// singleton group, and no align points yet.
    pub fn new_core(zones: usize) -> (r: Core)
        requires
            zones < usize::MAX,
        ensures
            r.wf(),
            r.zones == zones,
            r.points@.len() == 0,
            r.n() == zones + 1,
            forall|k: int| 0 <= k <= zones ==> (#[trigger] r.nodes@[k].position) == 0,
            forall|k: int|
                0 <= k < zones ==> ((#[trigger] r.nodes@[k].edges@).len() == 1
                    && (r.nodes@[k].edges@[0].to as int) == k + 1 && r.nodes@[k].edges@[0].rel
                    == (Relation { min_offset: 0i64, max_offset: Extent::Inf })),
            r.nodes@[zones as int].edges@.len() == 0,
            forall|k: int|
                0 <= k <= zones ==> ((#[trigger] r.groups@[k].parent) as int == k
                    && r.groups@[k].depth == 0 && r.groups@[k].extra_space == Extent::Inf),
    {
        let mut nodes: Vec<Node> = Vec::new();
        let mut groups: Vec<GroupInfo> = Vec::new();
        let mut k: usize = 0;
        while k <= zones
            invariant
                k <= zones + 1,
                zones < usize::MAX,
                nodes@.len() == k,
                groups@.len() == k,
                forall|a: int|
                    0 <= a < k ==> ((#[trigger] nodes@[a].kind) matches NodeKind::ZoneSeparator(z)
                        && (z as int) == a),
                forall|a: int| 0 <= a < k ==> (#[trigger] nodes@[a].position) == 0,
                forall|a: int| 0 <= a < k ==> (#[trigger] nodes@[a].edges@).len() == 0,
                forall|a: int|
                    0 <= a < k ==> ((#[trigger] groups@[a]).parent as int == a
                        && groups@[a].depth == 0 && groups@[a].extra_space == Extent::Inf),
            decreases zones + 1 - k,
        {
            nodes.push(Node { kind: NodeKind::ZoneSeparator(k), position: 0, edges: Vec::new() });
            let ghost gprev = groups@;
            groups.push(GroupInfo::new(k));
            proof {
                assert(groups@.len() == gprev.len() + 1);
                assert(groups@[k as int].parent == k);
                assert(groups@[k as int].depth == 0);
                assert(groups@[k as int].extra_space == Extent::Inf);
                assert(forall|a: int| 0 <= a < k ==> groups@[a] == gprev[a]);
            }
            k = k + 1;
        }
        let mut r = Core { zones, nodes, groups, points: Vec::new() };
        proof {
            lemma_int_range(0, r.groups@.len() as int);
            assert(roots(r.groups@) =~= set_int_range(0, r.groups@.len() as int));
            assert(uf_inv(r.groups@));
            assert(r.wf0());
        }
        let mut c: usize = 0;
        while c < zones
            invariant
                c <= zones,
                r.wf0(),
                r.zones == zones,
                r.points@.len() == 0,
                r.n() == zones + 1,
                forall|a: int| 0 <= a <= zones ==> (#[trigger] r.nodes@[a].position) == 0,
                forall|a: int|
                    0 <= a <= zones ==> ((#[trigger] r.nodes@[a].kind)
                        matches NodeKind::ZoneSeparator(z) && (z as int) == a),
                forall|a: int|
                    0 <= a < c ==> ((#[trigger] r.nodes@[a].edges@).len() == 1 && (
                    r.nodes@[a].edges@[0].to as int) == a + 1 && r.nodes@[a].edges@[0].rel
                        == (Relation { min_offset: 0i64, max_offset: Extent::Inf })),
                forall|a: int| c <= a <= zones ==> (#[trigger] r.nodes@[a].edges@).len() == 0,
                forall|a: int|
                    0 <= a <= zones ==> ((#[trigger] r.groups@[a].parent) as int == a
                        && r.groups@[a].depth == 0 && r.groups@[a].extra_space == Extent::Inf),
            decreases zones - c,
        {
            let ghost before_edges = r.nodes@[c as int].edges@;
            r.add_edge(c, c + 1, 0, Extent::Inf);
            proof {
                assert(before_edges.len() == 0);
                assert(!has_edge_to(before_edges, c + 1 as int));
                assert(r.nodes@[c as int].edges@ == before_edges.push(
                    Edge {
                        to: (c + 1) as usize,
                        rel: Relation { min_offset: 0i64, max_offset: Extent::Inf },
                    },
                ));
            }
            c = c + 1;
        }
        r
    }

    /// Registers (or finds) the align point `id` and constrains it to sit at
    /// least `before` after the separator `span_start` and at least `after`
    /// before the separator `span_end`.
    pub fn add_point_core(
        &mut self,
        id: AlignPointId,
        span_start: usize,
        span_end: usize,
        before: i64,
        after: i64,
    ) -> (kk: usize)
        requires
            old(self).wf(),
            span_start <= old(self).zones,
            1 <= span_end,
            span_end <= old(self).zones,
        ensures
            final(self).wf(),
            final(self).zones == old(self).zones,
            final(self).registered(id@),
            kk as int == final(self).node_of(id@),
            old(self).registered(id@) ==> final(self).points@ == old(self).points@ && kk as int
                == old(self).node_of(id@) && final(self).n() == old(self).n(),
            !old(self).registered(id@) ==> (final(self).points@.len() == old(self).points@.len()
                + 1 && final(self).points@.drop_last() == old(self).points@ && final(self).points@.last().0@ == id@ && kk as int == old(self).n() && final(self).n() == old(self).n() + 1),
            // every node other than the two whose edges were constrained is untouched
            forall|a: int|
                0 <= a < old(self).n() && a != span_start && a != kk ==> (#[trigger] final(self).nodes@[a]) == old(self).nodes@[a],
            // kinds and positions never change; the fresh node sits at zero
            forall|a: int|
                0 <= a < old(self).n() ==> (#[trigger] final(self).nodes@[a].kind) == old(self).nodes@[a].kind && final(self).nodes@[a].position == old(self).nodes@[a].position,
            !old(self).registered(id@) ==> final(self).nodes@[kk as int].position == 0,
            // the two constrained edge lists
            final(self).nodes@[span_start as int].edges@ == upsert(
                old(self).nodes@[span_start as int].edges@,
                kk,
                before,
                Extent::Inf,
            ),
            final(self).nodes@[kk as int].edges@ == upsert(
                if old(self).registered(id@) {
                    old(self).nodes@[kk as int].edges@
                } else {
                    Seq::<Edge>::empty()
                },
                span_end,
                after,
                Extent::Inf,
            ),
            // grouping is untouched on existing nodes; a fresh point is a
            // fresh singleton group
            forall|a: int|
                0 <= a < old(self).n() ==> uf_root(final(self).groups@, a) == uf_root(
                    old(self).groups@,
                    a,
                ),
            forall|a: int|
                0 <= a < old(self).n() ==> (#[trigger] final(self).groups@[a].extra_space) == old(self).groups@[a].extra_space,
            !old(self).registered(id@) ==> uf_root(final(self).groups@, kk as int) == kk,
            !old(self).registered(id@) ==> final(self).groups@[kk as int].extra_space
                == Extent::Inf,
    {
        let ghost c0 = *self;
        let found = self.lookup(&id);
        let kk = match found {
            Some(k) => k,
            None => {
                let k = self.nodes.len();
                self.nodes.push(
                    Node { kind: NodeKind::AlignPoint(id.clone()), position: 0, edges: Vec::new() },
                );
                self.groups.push(GroupInfo { parent: k, depth: 0, extra_space: Extent::Inf });
                self.points.push((id, k));
                proof {
                    let entry = self.points@.last();
                    assert(entry.1 == k && entry.0@ == id@);
                    lemma_uf_push_singleton(c0.groups@, self.groups@.last());
                    lemma_lookup_push(c0.points@, entry, id@);
                    lemma_lookup_none(c0.points@, id@);
                    assert(self.points@.drop_last() =~= c0.points@);
                    assert(self.nodes@[k as int].edges@ =~= Seq::<Edge>::empty());
                    assert forall|a: int| 0 <= a < self.n() implies edges_wf(
                        (#[trigger] self.nodes@[a]).edges@,
                        a,
                        self.n(),
                    ) by {
                        if a < c0.n() {
                            assert(edges_wf(c0.nodes@[a].edges@, a, c0.n()));
                            assert forall|e: int|
                                0 <= e < self.nodes@[a].edges@.len() implies edge_ok(
                                #[trigger] self.nodes@[a].edges@[e],
                                a,
                                self.n(),
                            ) by {
                                assert(edge_ok(c0.nodes@[a].edges@[e], a, c0.n()));
                            }
                        }
                    }
                    assert(self.wf0());
                }
                k
            }
        };
        let ghost c1 = *self;
        proof {
            if old(self).registered(id@) {
                assert(c1 == c0);
                lemma_lookup_entry(c0.points@, id@);
                assert(c0.zones < kk < c0.n());
            }
            assert(c1.wf0());
            assert(c0.zones < kk < c1.n());
        }
        self.add_edge(span_start, kk, before, Extent::Inf);
        let ghost c2 = *self;
        self.add_edge(kk, span_end, after, Extent::Inf);
        proof {
            let c3 = *final(self);
            assert(c2.nodes@[kk as int].edges@ == c1.nodes@[kk as int].edges@);
            assert(c3.nodes@[span_start as int].edges@ == c2.nodes@[span_start as int].edges@);
            // the fresh point gained an edge to `span_end`, a separator;
            // existing points keep the separator edge they had
            assert forall|a: int| c3.zones < a < c3.n() implies has_separator_edge(
                #[trigger] c3.nodes@[a],
                c3.zones as int,
            ) by {
                if a == kk {
                    let ek = c3.nodes@[kk as int].edges@;
                    if has_edge_to(c1.nodes@[kk as int].edges@, span_end as int) {
                        let w = edge_idx(c1.nodes@[kk as int].edges@, span_end as int);
                        assert(ek[w].to == span_end);
                        assert(has_separator_edge(c3.nodes@[a], c3.zones as int));
                    } else {
                        assert(ek.last().to == span_end);
                        assert(has_separator_edge(c3.nodes@[a], c3.zones as int));
                    }
                } else if a < c0.n() {
                    assert(has_separator_edge(c0.nodes@[a], c0.zones as int));
                    assert(has_separator_edge(c1.nodes@[a], c1.zones as int));
                }
            }
            assert(c3.wf());
            if !c0.registered(id@) {
                assert(c3.nodes@[kk as int].position == c1.nodes@[kk as int].position);
            }
        }
        kk
    }
}


impl Core {
    /// Declares a fixed relation between the align-point nodes `i` and `j`:
    /// `j` must sit exactly `delta` after `i`.  The edge is stored with a
    /// non-negative offset, oriented to match the sign of `delta`, and the
    /// two nodes' groups are merged.
    #[verifier::rlimit(100)]
    pub fn add_relation_core(&mut self, i: usize, j: usize, delta: i64) -> (m: i64)
        requires
            old(self).wf(),
            old(self).zones < i < old(self).n(),
            old(self).zones < j < old(self).n(),
            i != j,
        ensures
            final(self).wf(),
            final(self).zones == old(self).zones,
            final(self).points@ == old(self).points@,
            final(self).n() == old(self).n(),
            // the stored, always non-negative offset
            m as int == (if delta >= 0 { delta as int } else { clip(-(delta as int)) }),
            // one edge list is constrained, every other node is untouched
            (if delta >= 0 {
                final(self).nodes@[i as int].edges@ == upsert(
                    old(self).nodes@[i as int].edges@,
                    j,
                    m,
                    Extent::Fin(m),
                ) && (forall|a: int|
                    0 <= a < old(self).n() && a != i ==> (#[trigger] final(self).nodes@[a]) == old(
                        self,
                    ).nodes@[a])
            } else {
                final(self).nodes@[j as int].edges@ == upsert(
                    old(self).nodes@[j as int].edges@,
                    i,
                    m,
                    Extent::Fin(m),
                ) && (forall|a: int|
                    0 <= a < old(self).n() && a != j ==> (#[trigger] final(self).nodes@[a]) == old(
                        self,
                    ).nodes@[a])
            }),
            forall|a: int|
                0 <= a < old(self).n() ==> (#[trigger] final(self).nodes@[a].kind) == old(
                    self,
                ).nodes@[a].kind && final(self).nodes@[a].position == old(self).nodes@[a].position,
            // the two groups are one afterwards; nothing else is regrouped
            same_group(final(self).groups@, i as int, j as int),
            uf_root(final(self).groups@, i as int) == uf_root(old(self).groups@, i as int)
                || uf_root(final(self).groups@, i as int) == uf_root(old(self).groups@, j as int),
            forall|k: int|
                0 <= k < old(self).n() ==> uf_root(final(self).groups@, k) == (
                if same_group(old(self).groups@, k, i as int) || same_group(
                    old(self).groups@,
                    k,
                    j as int,
                ) {
                    uf_root(final(self).groups@, i as int)
                } else {
                    uf_root(old(self).groups@, k)
                }),
            forall|k: int|
                0 <= k < old(self).n() ==> (#[trigger] final(self).groups@[k].extra_space) == old(
                    self,
                ).groups@[k].extra_space,
    {
        let ghost c0 = *self;
        let m: i64;
        if delta >= 0 {
            m = delta;
            self.add_edge(i, j, m, Extent::Fin(m));
        } else {
            m = sub_clip(0, delta);
            self.add_edge(j, i, m, Extent::Fin(m));
        }
        proof {
            assert(uf_inv(self.groups@));
        }
        merge_groups(&mut self.groups, i, j);
        proof {
            let c3 = *final(self);
            lemma_root_level(c0.groups@, c0.zones as int, i as int);
            lemma_root_level(c0.groups@, c0.zones as int, j as int);
            let ri = uf_root(c0.groups@, i as int);
            let rj = uf_root(c0.groups@, j as int);
            assert(ri > c0.zones && rj > c0.zones);
            assert forall|k: int| 0 <= k <= c3.zones implies (#[trigger] c3.groups@[k].parent)
                as int == k by {
                assert(k != ri && k != rj);
            }
            assert forall|k: int| c3.zones < k < c3.n() implies (#[trigger] c3.groups@[k].parent)
                as int > c3.zones by {
                if k == ri || k == rj {
                } else {
                    assert(c3.groups@[k].parent == c0.groups@[k].parent);
                }
            }
            assert(c3.wf());
        }
        m
    }
}


/// How one add-or-tighten step reads back: the targeted relation is the
/// stored or tightened one, and every other target is untouched.
pub proof fn lemma_upsert_rel(edges: Seq<Edge>, to: usize, m: i64, mx: Extent, me: int, n: int)
    requires
        edges_wf(edges, me, n),
    ensures
        has_edge_to(upsert(edges, to, m, mx), to as int),
        rel_to(upsert(edges, to, m, mx), to as int) == (if has_edge_to(edges, to as int) {
            rel_to(edges, to as int).tightened(m, mx)
        } else {
            Relation { min_offset: m, max_offset: mx }
        }),
        forall|t: int|
            t != (to as int) ==> #[trigger] has_edge_to(upsert(edges, to, m, mx), t)
                == has_edge_to(edges, t),
        forall|t: int|
            t != (to as int) && has_edge_to(edges, t) ==> #[trigger] rel_to(
                upsert(edges, to, m, mx),
                t,
            ) == rel_to(edges, t),
{
    let up = upsert(edges, to, m, mx);
    if has_edge_to(edges, to as int) {
        let i = edge_idx(edges, to as int);
        assert(0 <= i < edges.len() && (edges[i].to as int) == to as int);
        assert(up[i].to == to);
        assert(has_edge_to(up, to as int));
        let i2 = edge_idx(up, to as int);
        assert(0 <= i2 < up.len() && (up[i2].to as int) == to as int);
        assert(i2 == i) by {
            if i2 != i {
                assert(up[i2] == edges[i2]);
                assert(edges[i2].to == edges[i].to);
            }
        }
        assert forall|t: int| t != (to as int) implies #[trigger] has_edge_to(up, t)
            == has_edge_to(edges, t) by {
            if has_edge_to(edges, t) {
                let w = edge_idx(edges, t);
                assert(0 <= w < edges.len() && (edges[w].to as int) == t);
                assert((up[w].to as int) == t);
            }
            if has_edge_to(up, t) {
                let w = edge_idx(up, t);
                assert(0 <= w < up.len() && (up[w].to as int) == t);
                assert(w != i);
                assert((edges[w].to as int) == t);
            }
        }
        assert forall|t: int| t != (to as int) && has_edge_to(edges, t) implies #[trigger] rel_to(
            up,
            t,
        ) == rel_to(edges, t) by {
            let w = edge_idx(edges, t);
            assert(0 <= w < edges.len() && (edges[w].to as int) == t);
            assert(w != i);
            assert((up[w].to as int) == t);
            let w2 = edge_idx(up, t);
            assert(0 <= w2 < up.len() && (up[w2].to as int) == t);
            assert(w2 == w) by {
                if w2 != w {
                    if w2 == i {
                    } else {
                        assert(edges[w2].to == edges[w].to);
                    }
                }
            }
        }
    } else {
        assert(up[edges.len() as int].to == to);
        assert(has_edge_to(up, to as int));
        let i2 = edge_idx(up, to as int);
        assert(0 <= i2 < up.len() && (up[i2].to as int) == to as int);
        assert(i2 == edges.len()) by {
            if i2 < edges.len() {
                assert(up[i2] == edges[i2]);
                assert(has_edge_to(edges, to as int));
            }
        }
        assert forall|t: int| t != (to as int) implies #[trigger] has_edge_to(up, t)
            == has_edge_to(edges, t) by {
            if has_edge_to(edges, t) {
                let w = edge_idx(edges, t);
                assert((up[w].to as int) == t);
            }
            if has_edge_to(up, t) {
                let w = edge_idx(up, t);
                assert(w < edges.len());
                assert((edges[w].to as int) == t);
            }
        }
        assert forall|t: int| t != (to as int) && has_edge_to(edges, t) implies #[trigger] rel_to(
            up,
            t,
        ) == rel_to(edges, t) by {
            let w = edge_idx(edges, t);
            assert((up[w].to as int) == t);
            let w2 = edge_idx(up, t);
            assert(0 <= w2 < up.len() && (up[w2].to as int) == t);
            assert(w2 < edges.len());
            assert(w2 == w) by {
                if w2 != w {
                    assert(edges[w2].to == edges[w].to);
                }
            }
        }
    }
}

} // verus!
