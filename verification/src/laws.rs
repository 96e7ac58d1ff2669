//! The engine's laws: what holds of every solved result, proved once and
//! for all rather than sampled by tests.

use vstd::prelude::*;
use crate::engine::{AlignmentEngine, AlignmentInfos};
use crate::graph::{edge_idx, has_edge_to, rel_to, Relation, lemma_lookup_entry};
use crate::id::AlignPointIdView;
use crate::length::{clip, Extent};
use crate::solve::{all_zero, edge_grant, edge_sat, lemma_cross_min_le_grant, node_sat};
use crate::solve::{extra_root_of, spec_base};
use crate::groups::{groups_flat, same_group, uf_root};

verus! {

/// Order invariant: zone separators keep their creation order.  In
/// left-to-right layout each separator's position is at most the next
/// one's; mirrored layout reverses the comparison, and the zone size —
/// taken as a magnitude — stays non-negative either way.
///
/// This holds on every result: a solved one satisfies the separator chain's
/// minimum-zero relations, and a degenerate one collapses every logical
/// position to zero.
pub proof fn lemma_zone_order(r: AlignmentInfos, z: int)
    requires
        r.valid(),
        0 <= z < r.zones(),
    ensures
        !r.was_rtl@ ==> r.position_at(z) <= r.position_at(z + 1),
        r.was_rtl@ ==> r.position_at(z) >= r.position_at(z + 1),
{
    lemma_base_zone_order(r, z);
    let w = r.base@[r.zones()];
    if r.was_rtl@ {
        crate::length::lemma_clip_monotone(w - r.base@[z + 1], w - r.base@[z]);
    }
}

/// On the logical positions, each separator sits no later than the next.
proof fn lemma_base_zone_order(r: AlignmentInfos, z: int)
    requires
        r.valid(),
        0 <= z < r.zones(),
    ensures
        r.base@[z] <= r.base@[z + 1],
{
    if all_zero(r.base@) {
    } else {
        let edges = r.core.nodes@[z].edges@;
        assert(crate::engine::chain_at(r.core.nodes@, z));
        assert(has_edge_to(edges, z + 1));
        let e = edge_idx(edges, z + 1);
        assert(0 <= e < edges.len() && (edges[e].to as int) == z + 1);
        assert(node_sat(r.core.nodes@, r.base@, z));
        assert(edge_sat(r.base@, z, edges[e]));
        let m = edges[e].rel.min_offset;
        assert(m == rel_to(edges, z + 1).min_offset);
        assert(m >= 0);
        if edges[e].rel.is_fixed() {
            assert((r.base@[z + 1] as int) == clip(r.base@[z] + m));
            crate::length::lemma_clip_monotone(r.base@[z] as int, r.base@[z] + m);
            crate::length::lemma_clip_id(r.base@[z] as int);
        } else {
            assert(clip(r.base@[z + 1] - r.base@[z]) >= m);
        }
    }
}

/// A fixed relation holds exactly on a solved left-to-right result: the
/// target's position is the source's plus the declared offset, provided the
/// sum stays within the representable range.
pub proof fn lemma_fixed_relation_holds(r: AlignmentInfos, a: int, b: int, m: i64)
    requires
        r.valid(),
        r.solved(),
        !r.was_rtl@,
        0 <= a < r.n(),
        0 <= b < r.n(),
        r.rel_between(a, b) == Some(Relation { min_offset: m, max_offset: Extent::Fin(m) }),
        i64::MIN <= r.base@[a] + m,
        r.base@[a] + m <= i64::MAX,
    ensures
        r.position_at(b) - r.position_at(a) == m,
{
    let edges = r.core.nodes@[a].edges@;
    let e = edge_idx(edges, b);
    assert(0 <= e < edges.len() && (edges[e].to as int) == b);
    assert(node_sat(r.core.nodes@, r.base@, a));
    assert(edge_sat(r.base@, a, edges[e]));
    assert(edges[e].rel == Relation { min_offset: m, max_offset: Extent::Fin(m) });
    assert((r.base@[b] as int) == clip(r.base@[a] + m));
    crate::length::lemma_clip_id(r.base@[a] + m);
}

/// A minimum relation holds on a solved left-to-right result: the target
/// sits at least the stored minimum after the source, provided neither the
/// demanded sum nor the distance saturates.
pub proof fn lemma_min_relation_holds(r: AlignmentInfos, a: int, b: int, m: i64)
    requires
        r.valid(),
        r.solved(),
        !r.was_rtl@,
        0 <= a < r.n(),
        0 <= b < r.n(),
        (r.rel_between(a, b) matches Some(rel) && rel.min_offset >= m),
        r.base@[a] + r.rel_between(a, b)->Some_0.min_offset <= i64::MAX,
        i64::MIN <= r.base@[b] - r.base@[a],
    ensures
        r.position_at(b) - r.position_at(a) >= m,
{
    let edges = r.core.nodes@[a].edges@;
    let e = edge_idx(edges, b);
    assert(0 <= e < edges.len() && (edges[e].to as int) == b);
    assert(node_sat(r.core.nodes@, r.base@, a));
    assert(edge_sat(r.base@, a, edges[e]));
    assert(edges[e].rel == r.rel_between(a, b)->Some_0);
    let mm = edges[e].rel.min_offset;
    if edges[e].rel.is_fixed() {
        assert((r.base@[b] as int) == clip(r.base@[a] + mm));
        if i64::MIN <= r.base@[a] + mm {
            crate::length::lemma_clip_id(r.base@[a] + mm);
        } else {
            // the sum saturated low: the stored position floor still
            // clears a minimum that small
            assert((r.base@[b] as int) == i64::MIN);
        }
    } else {
        assert(clip(r.base@[b] - r.base@[a]) >= mm);
    }
}

/// Minimum padding honored: a point registered with paddings `before` and
/// `after` inside a span sits at least `before` after the span's first
/// separator and at least `after` before its last, on any solved
/// left-to-right result whose values stay clear of saturation.
pub proof fn lemma_padding_honored(
    r: AlignmentInfos,
    id: AlignPointIdView,
    s: int,
    e: int,
    before: i64,
    after: i64,
)
    requires
        r.valid(),
        r.solved(),
        !r.was_rtl@,
        r.registered(id),
        0 <= s < r.n(),
        0 <= e < r.n(),
        (r.rel_between(s, r.node_of(id)) matches Some(r1) && r1.min_offset >= before),
        (r.rel_between(r.node_of(id), e) matches Some(r2) && r2.min_offset >= after),
        r.base@[s] + r.rel_between(s, r.node_of(id))->Some_0.min_offset <= i64::MAX,
        r.base@[r.node_of(id)] + r.rel_between(r.node_of(id), e)->Some_0.min_offset <= i64::MAX,
        i64::MIN <= r.base@[r.node_of(id)] - r.base@[s],
        i64::MIN <= r.base@[e] - r.base@[r.node_of(id)],
    ensures
        r.position_at(r.node_of(id)) - r.position_at(s) >= before,
        r.position_at(e) - r.position_at(r.node_of(id)) >= after,
{
    lemma_lookup_entry(r.core.points@, id);
    lemma_min_relation_holds(r, s, r.node_of(id), before);
    lemma_min_relation_holds(r, r.node_of(id), e, after);
}

/// Equality relations hold: after `add_relation(p, c, d)` stored its
/// oriented edge — from `p` to `c` when `d` is non-negative, from `c` to
/// `p` otherwise, with the offset's magnitude — any solved left-to-right
/// result places `c` exactly `d` after `p`, provided no conflicting
/// constraint tightened the same pair and no value saturates.
pub proof fn lemma_relation_delta_holds(
    r: AlignmentInfos,
    p: AlignPointIdView,
    c: AlignPointIdView,
    d: i64,
)
    requires
        r.valid(),
        r.solved(),
        !r.was_rtl@,
        r.registered(p),
        r.registered(c),
        d > i64::MIN,
        d >= 0 ==> r.rel_between(r.node_of(p), r.node_of(c)) == Some(
            Relation { min_offset: d, max_offset: Extent::Fin(d) },
        ),
        d < 0 ==> r.rel_between(r.node_of(c), r.node_of(p)) == Some(
            Relation { min_offset: (-d) as i64, max_offset: Extent::Fin((-d) as i64) },
        ),
        d >= 0 ==> i64::MIN <= r.base@[r.node_of(p)] + d && r.base@[r.node_of(p)] + d
            <= i64::MAX,
        d < 0 ==> i64::MIN <= r.base@[r.node_of(c)] + (-d) && r.base@[r.node_of(c)] + (-d)
            <= i64::MAX,
    ensures
        r.position_at(r.node_of(c)) - r.position_at(r.node_of(p)) == d,
{
    lemma_lookup_entry(r.core.points@, p);
    lemma_lookup_entry(r.core.points@, c);
    if d >= 0 {
        lemma_fixed_relation_holds(r, r.node_of(p), r.node_of(c), d);
    } else {
        lemma_fixed_relation_holds(r, r.node_of(c), r.node_of(p), (-d) as i64);
    }
}

/// Under right-to-left layout a fixed relation between two align points of
/// one group survives the mirroring with its sign flipped: both points
/// absorb the same slack before the axis is reflected, so their declared
/// distance reappears, measured from the other side.  (The builder negated
/// the declared distance, so the physical positions again differ by it.)
/// The side conditions keep the shift and the reflection clear of
/// saturation.
pub proof fn lemma_rtl_fixed_relation_holds(r: AlignmentInfos, a: int, b: int, m: i64)
    requires
        r.valid(),
        r.solved(),
        r.was_rtl@,
        r.zones() < a < r.n(),
        r.zones() < b < r.n(),
        r.core.groups@[a].parent == r.core.groups@[b].parent,
        r.rel_between(a, b) == Some(Relation { min_offset: m, max_offset: Extent::Fin(m) }),
        i64::MIN <= r.base@[a] + m,
        r.base@[a] + m <= i64::MAX,
        ({
            let x = extra_root_of(r.core.groups@, a).fin_val();
            let w = r.base@[r.zones()];
            &&& i64::MIN <= r.base@[a] + x
            &&& r.base@[a] + x <= i64::MAX
            &&& i64::MIN <= r.base@[b] + x
            &&& r.base@[b] + x <= i64::MAX
            &&& i64::MIN <= w - (r.base@[a] + x)
            &&& w - (r.base@[a] + x) <= i64::MAX
            &&& i64::MIN <= w - (r.base@[b] + x)
            &&& w - (r.base@[b] + x) <= i64::MAX
        }),
    ensures
        r.position_at(a) - r.position_at(b) == m,
{
    let edges = r.core.nodes@[a].edges@;
    let e = edge_idx(edges, b);
    assert(0 <= e < edges.len() && (edges[e].to as int) == b);
    assert(node_sat(r.core.nodes@, r.base@, a));
    assert(edge_sat(r.base@, a, edges[e]));
    assert((r.base@[b] as int) == clip(r.base@[a] + m));
    crate::length::lemma_clip_id(r.base@[a] + m);
    let x = extra_root_of(r.core.groups@, a).fin_val();
    let w = r.base@[r.zones()];
    assert(extra_root_of(r.core.groups@, b) == extra_root_of(r.core.groups@, a));
    crate::length::lemma_clip_id(r.base@[a] + x);
    crate::length::lemma_clip_id(r.base@[b] + x);
    crate::length::lemma_clip_id(w - (r.base@[a] + x));
    crate::length::lemma_clip_id(w - (r.base@[b] + x));
}

/// Grouping is reflexive: every node shares a group with itself.
pub proof fn lemma_same_group_reflexive(en: AlignmentEngine, x: int)
    ensures
        en.node_same_group(x, x),
{
}

/// Grouping is symmetric: sharing a group does not depend on the order the
/// two nodes are asked in.
pub proof fn lemma_same_group_symmetric(en: AlignmentEngine, x: int, y: int)
    ensures
        en.node_same_group(x, y) == en.node_same_group(y, x),
{
}

/// Grouping is transitive: two nodes each sharing a group with a third
/// share one with each other.  Together with reflexivity, symmetry, and
/// `add_relation`'s contract — which states exactly how each declared
/// relation extends the partition — this makes `is_same_group` an
/// equivalence over any chain of `add_relation` calls, in any order.
pub proof fn lemma_same_group_transitive(en: AlignmentEngine, x: int, y: int, z: int)
    requires
        en.node_same_group(x, y),
        en.node_same_group(y, z),
    ensures
        en.node_same_group(x, z),
{
}

/// A group's cached slack never exceeds what any one of its outgoing
/// relations leaves over: shifting the whole group forward by the slack
/// cannot break a constraint that reaches outside it.
pub proof fn lemma_extra_space_bounds_outgoing(r: AlignmentInfos, k: int, e: int)
    requires
        r.valid(),
        0 <= k < r.n(),
        0 <= e < r.core.nodes@[k].edges@.len(),
    ensures
        ({
            let g = r.core.groups@[k].parent as int;
            r.core.groups@[g].extra_space.spec_le(
                edge_grant(r.core.nodes@, r.base@, r.core.groups@, g, k, e),
            )
        }),
{
    let g = r.core.groups@[k].parent as int;
    lemma_cross_min_le_grant(r.core.nodes@, r.base@, r.core.groups@, g, k, e);
}

/// One slack per group: two registered points linked into one group
/// report the same extra space.  On any result that is not the all-zero
/// degenerate one, the group records are flattened — every parent is a
/// root — so both points' records point at their common root.
pub proof fn lemma_group_slack_agrees(r: AlignmentInfos, a: AlignPointIdView, b: AlignPointIdView)
    requires
        r.valid(),
        !all_zero(r.base@),
        r.registered(a),
        r.registered(b),
        same_group(r.core.groups@, r.node_of(a), r.node_of(b)),
    ensures
        r.extra_at(r.node_of(a)) == r.extra_at(r.node_of(b)),
{
    lemma_lookup_entry(r.core.points@, a);
    lemma_lookup_entry(r.core.points@, b);
    let gs = r.core.groups@;
    assert(groups_flat(gs));
    let x = r.node_of(a);
    let y = r.node_of(b);
    assert(gs[gs[x].parent as int].parent == gs[x].parent);
    assert(gs[gs[y].parent as int].parent == gs[y].parent);
    assert(uf_root(gs, x) == gs[x].parent as int) by {
        if gs[x].parent as int != x {
            assert(uf_root(gs, x) == uf_root(gs, gs[x].parent as int));
        }
    }
    assert(uf_root(gs, y) == gs[y].parent as int) by {
        if gs[y].parent as int != y {
            assert(uf_root(gs, y) == uf_root(gs, gs[y].parent as int));
        }
    }
}

/// Idempotent rebuilding: the committed logical positions are a pure
/// function of the built graph, so two engines holding equal graphs solve
/// to equal positions — no iteration order of any container can leak in.
pub proof fn lemma_solve_deterministic(
    n1: Seq<crate::graph::Node>,
    n2: Seq<crate::graph::Node>,
)
    requires
        n1 == n2,
    ensures
        spec_base(n1) == spec_base(n2),
{
}

/// Mirroring preserves zone sizes: on a right-to-left result the magnitude
/// of a zone's width equals the magnitude it has on the logical positions,
/// provided the reflection about the last separator does not saturate.
/// Comparing a left-to-right and a right-to-left build of the same
/// constraints therefore comes down to comparing their logical positions.
pub proof fn lemma_mirror_keeps_zone_sizes(r: AlignmentInfos, z: int)
    requires
        r.valid(),
        r.was_rtl@,
        0 <= z < r.zones(),
        i64::MIN <= r.base@[r.zones()] - r.base@[z],
        r.base@[r.zones()] - r.base@[z] <= i64::MAX,
        i64::MIN <= r.base@[r.zones()] - r.base@[z + 1],
        r.base@[r.zones()] - r.base@[z + 1] <= i64::MAX,
        i64::MIN < r.base@[z + 1] - r.base@[z],
        r.base@[z + 1] - r.base@[z] <= i64::MAX,
    ensures
        ({
            let d = clip(r.position_at(z + 1) - r.position_at(z));
            let d0 = clip(r.base@[z + 1] - r.base@[z]);
            (if d >= 0 {
                d
            } else {
                clip(-d)
            }) == (if d0 >= 0 {
                d0
            } else {
                clip(-d0)
            })
        }),
{
    let w = r.base@[r.zones()];
    crate::length::lemma_clip_id(w - r.base@[z]);
    crate::length::lemma_clip_id(w - r.base@[z + 1]);
    crate::length::lemma_clip_id(r.base@[z + 1] - r.base@[z]);
}

} // verus!
