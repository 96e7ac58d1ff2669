//! Union-find grouping of graph nodes.
//!
//! Every node starts as its own singleton group; declaring a relation
//! between two align points merges their groups.  The records form a forest
//! of `parent` links; `find_group` walks to the root, `merge_groups` joins
//! two trees by depth.  Termination and the depth bound rest on one
//! invariant: a node's depth plus the number of roots never exceeds the
//! number of records, which each depth increment (it removes one root)
//! preserves.

use vstd::prelude::*;
use vstd::set_lib::{lemma_len_subset, lemma_int_range, set_int_range};
use crate::length::Extent;

verus! {

/// One union-find record, with the slack cached for the group's root after
/// solving.
pub struct GroupInfo {
    pub parent: usize,
    pub depth: usize,
    pub extra_space: Extent,
}

impl GroupInfo {
    /// A singleton group rooted at `k`, with no slack computed yet.
    pub fn new(k: usize) -> (r: GroupInfo)
        ensures
            r.parent == k,
            r.depth == 0,
            r.extra_space == Extent::Inf,
    {
        GroupInfo { parent: k, depth: 0, extra_space: Extent::Inf }
    }
}

/// Every record's parent is a root: one link reaches any group's root.
pub open spec fn groups_flat(g: Seq<GroupInfo>) -> bool {
    forall|k: int|
        0 <= k < g.len() ==> g[(#[trigger] g[k].parent) as int].parent == g[k].parent
}

/// The indices that are their own parent.
pub open spec fn roots(g: Seq<GroupInfo>) -> Set<int> {
    Set::new(|i: int| 0 <= i < g.len() && g[i].parent == i)
}

/// Well-formedness of the union-find forest: parents in range, depth
/// strictly increasing along parent links, and every depth small enough
/// that `depth + |roots| <= len` — the inductive fact that keeps depths
/// below the record count.
pub open spec fn uf_inv(g: Seq<GroupInfo>) -> bool {
    &&& forall|k: int|
        0 <= k < g.len() ==> (#[trigger] g[k].parent) < g.len()
    &&& forall|k: int|
        0 <= k < g.len() && g[k].parent != k ==> (#[trigger] g[k].depth) < g[g[k].parent as int].depth
    &&& forall|k: int|
        0 <= k < g.len() ==> (#[trigger] g[k].depth) + roots(g).len() <= g.len()
}

/// The root of the tree containing `k`.
pub open spec fn uf_root(g: Seq<GroupInfo>, k: int) -> int
    recommends
        uf_inv(g),
        0 <= k < g.len(),
    decreases g.len() - g[k].depth,
        when uf_inv(g) && 0 <= k < g.len()
{
    if g[k].parent == k {
        k
    } else {
        uf_root(g, g[k].parent as int)
    }
}

/// Two records are in the same group when their trees share a root.
pub open spec fn same_group(g: Seq<GroupInfo>, i: int, j: int) -> bool {
    uf_root(g, i) == uf_root(g, j)
}

/// The root of `k` is a root record in range, of depth no smaller than
/// `k`'s own, and strictly greater when `k` is not the root itself.
pub proof fn lemma_uf_root_props(g: Seq<GroupInfo>, k: int)
    requires
        uf_inv(g),
        0 <= k < g.len(),
    ensures
        0 <= uf_root(g, k) < g.len(),
        g[uf_root(g, k)].parent == uf_root(g, k),
        uf_root(g, k) != k ==> g[k].depth < g[uf_root(g, k)].depth,
        g[k].parent == k ==> uf_root(g, k) == k,
    decreases g.len() - g[k].depth,
{
    if g[k].parent != k {
        lemma_uf_root_props(g, g[k].parent as int);
    }
}

/// The set of roots is finite and at least as large as any subset of
/// roots one can point at; in particular it is bounded by the record count.
pub proof fn lemma_roots_finite(g: Seq<GroupInfo>)
    ensures
        roots(g).finite(),
        roots(g).len() <= g.len(),
{
    lemma_int_range(0, g.len() as int);
    lemma_len_subset(roots(g), set_int_range(0, g.len() as int));
}

/// Re-pointing one non-root record directly at any member of its own tree's
/// root path leaves every root unchanged.
proof fn lemma_roots_same_after_repoint(g: Seq<GroupInfo>, h: Seq<GroupInfo>)
    requires
        g.len() == h.len(),
        forall|k: int| 0 <= k < g.len() ==> ((#[trigger] h[k].parent) == k <==> g[k].parent == k),
    ensures
        roots(h) == roots(g),
{
    assert(roots(h) =~= roots(g));
}

/// Walks up the parent links to the root of `k`'s group.
pub fn find_group(groups: &Vec<GroupInfo>, k: usize) -> (r: usize)
    requires
        uf_inv(groups@),
        k < groups@.len(),
    ensures
        r as int == uf_root(groups@, k as int),
        r < groups@.len(),
{
    let ghost g = groups@;
    let mut cur = k;
    while groups[cur].parent != cur
        invariant
            uf_inv(g),
            groups@ == g,
            cur < g.len(),
            uf_root(g, cur as int) == uf_root(g, k as int),
        decreases g.len() - g[cur as int].depth,
    {
        proof {
            lemma_roots_finite(g);
        }
        cur = groups[cur].parent;
    }
    proof {
        lemma_uf_root_props(g, cur as int);
    }
    cur
}

/// After attaching root `a` under root `b`, every tree whose root was `a`
/// now has root `b`, and no other tree changed.
proof fn lemma_root_after_attach(g: Seq<GroupInfo>, h: Seq<GroupInfo>, a: int, b: int, k: int)
    requires
        uf_inv(g),
        uf_inv(h),
        g.len() == h.len(),
        0 <= a < g.len(),
        0 <= b < g.len(),
        a != b,
        g[a].parent == a,
        g[b].parent == b,
        h[a].parent == b,
        forall|m: int| 0 <= m < g.len() && m != a ==> (#[trigger] h[m].parent) == g[m].parent,
        0 <= k < g.len(),
    ensures
        uf_root(h, k) == (if uf_root(g, k) == a { b } else { uf_root(g, k) }),
    decreases g.len() - g[k].depth,
{
    lemma_roots_finite(g);
    if k == a {
        assert(uf_root(g, a) == a);
        assert(uf_root(h, a) == uf_root(h, b));
        assert(uf_root(h, b) == b);
    } else if g[k].parent == k {
        assert(uf_root(h, k) == k);
    } else {
        lemma_root_after_attach(g, h, a, b, g[k].parent as int);
    }
}

/// The union-by-depth bookkeeping: joining two distinct roots keeps every
/// depth, except that a tie deepens the surviving root by one.  Opaque:
/// callers that care reveal it, the rest carry only its name.
#[verifier::opaque]
pub open spec fn merge_depth_rule(g0: Seq<GroupInfo>, g1: Seq<GroupInfo>, i: int, j: int) -> bool {
    let ri = uf_root(g0, i);
    let rj = uf_root(g0, j);
    &&& (ri == rj ==> g1 == g0)
    &&& forall|k: int|
        0 <= k < g0.len() && k != ri && k != rj ==> (#[trigger] g1[k].depth) == g0[k].depth
    &&& (ri != rj && g0[ri].depth != g0[rj].depth ==> g1[ri].depth == g0[ri].depth
        && g1[rj].depth == g0[rj].depth)
    &&& (ri != rj && g0[ri].depth == g0[rj].depth ==> g1[ri].depth == g0[ri].depth && (
    g1[rj].depth as int) == g0[rj].depth + 1)
}

/// Merges the groups of `i` and `j`: the shallower root is attached under
/// the deeper one; on a tie the surviving root's depth grows by one.
///
/// Afterwards the two groups are one, every group that contained neither
/// `i` nor `j` is untouched, and only parent and depth fields change.
#[verifier::rlimit(100)]
pub fn merge_groups(groups: &mut Vec<GroupInfo>, i: usize, j: usize)
    requires
        uf_inv(old(groups)@),
        i < old(groups)@.len(),
        j < old(groups)@.len(),
    ensures
        uf_inv(final(groups)@),
        final(groups)@.len() == old(groups)@.len(),
        same_group(final(groups)@, i as int, j as int),
        merge_depth_rule(old(groups)@, final(groups)@, i as int, j as int),
        uf_root(final(groups)@, i as int) == uf_root(old(groups)@, i as int) || uf_root(
            final(groups)@,
            i as int,
        ) == uf_root(old(groups)@, j as int),
        forall|k: int|
            0 <= k < old(groups)@.len() ==> uf_root(final(groups)@, k) == (
            if same_group(old(groups)@, k, i as int) || same_group(old(groups)@, k, j as int) {
                uf_root(final(groups)@, i as int)
            } else {
                uf_root(old(groups)@, k)
            }),
        forall|k: int|
            0 <= k < old(groups)@.len() ==> (#[trigger] final(groups)@[k].extra_space)
                == old(groups)@[k].extra_space,
        forall|k: int|
            0 <= k < old(groups)@.len() && k != uf_root(old(groups)@, i as int) && k != uf_root(
                old(groups)@,
                j as int,
            ) ==> (#[trigger] final(groups)@[k].parent) == old(groups)@[k].parent,
        final(groups)@[uf_root(old(groups)@, i as int)].parent as int == uf_root(
            old(groups)@,
            i as int,
        ) || final(groups)@[uf_root(old(groups)@, i as int)].parent as int == uf_root(
            old(groups)@,
            j as int,
        ),
        final(groups)@[uf_root(old(groups)@, j as int)].parent as int == uf_root(
            old(groups)@,
            j as int,
        ) || final(groups)@[uf_root(old(groups)@, j as int)].parent as int == uf_root(
            old(groups)@,
            i as int,
        ),
{
    let ghost g0 = groups@;
    let ri = find_group(groups, i);
    let rj = find_group(groups, j);
    proof {
        lemma_uf_root_props(g0, i as int);
        lemma_uf_root_props(g0, j as int);
        lemma_roots_finite(g0);
    }
    if ri != rj {
        let n = groups.len();
        let di = groups[ri].depth;
        let dj = groups[rj].depth;
        proof {
            // Two distinct roots exist, so depths stay clear of the record
            // count and the tie-breaking increment cannot overflow.
            assert(roots(g0).contains(ri as int));
            assert(roots(g0).contains(rj as int));
            assert(roots(g0).remove(ri as int).contains(rj as int));
            assert(roots(g0).len() >= 2);
            assert(g0[rj as int].depth + roots(g0).len() <= g0.len());
            assert(g0[ri as int].depth + roots(g0).len() <= g0.len());
            assert(dj + 1 < n);
            assert(di + 1 < n);
        }
        if di < dj {
            groups[ri].parent = rj;
        } else if di == dj {
            groups[ri].parent = rj;
            groups[rj].depth = dj + 1;
        } else {
            groups[rj].parent = ri;
        }
        proof {
            let g1 = groups@;
            let a: int = if di <= dj { ri as int } else { rj as int };
            let b: int = if di <= dj { rj as int } else { ri as int };
            assert(roots(g1) =~= roots(g0).remove(a));
            lemma_roots_finite(g0);
            assert(roots(g1).len() == roots(g0).len() - 1);
            assert(uf_inv(g1));
            assert forall|k: int| 0 <= k < g0.len() implies uf_root(g1, k) == (
                if uf_root(g0, k) == a { b } else { uf_root(g0, k) }) by {
                lemma_root_after_attach(g0, g1, a, b, k);
            }
            // depth bookkeeping, spelled out for the union-by-depth clause
            reveal(merge_depth_rule);
            assert(uf_root(g0, i as int) == ri as int && uf_root(g0, j as int) == rj as int);
            assert(g0[ri as int].depth == di && g0[rj as int].depth == dj);
            assert forall|k: int|
                0 <= k < g0.len() && k != ri as int && k != rj as int implies (
            #[trigger] g1[k].depth) == g0[k].depth by {}
            if di != dj {
                assert(g1[ri as int].depth == di && g1[rj as int].depth == dj);
            } else {
                assert(g1[ri as int].depth == di && (g1[rj as int].depth as int) == dj + 1);
            }
        }
    } else {
        proof {
            reveal(merge_depth_rule);
            assert(groups@ == old(groups)@);
            assert(uf_root(g0, i as int) == ri as int && uf_root(g0, j as int) == rj as int);
        }
    }
}

/// Points every record directly at its root, so that one link suffices for
/// any later root lookup.  Group membership is unchanged.
pub fn flatten_groups(groups: &mut Vec<GroupInfo>)
    requires
        uf_inv(old(groups)@),
    ensures
        uf_inv(final(groups)@),
        final(groups)@.len() == old(groups)@.len(),
        forall|k: int|
            0 <= k < old(groups)@.len() ==> (#[trigger] final(groups)@[k].parent) as int
                == uf_root(old(groups)@, k),
        forall|k: int|
            0 <= k < old(groups)@.len() ==> uf_root(final(groups)@, k) == uf_root(old(groups)@, k),
        forall|k: int|
            0 <= k < old(groups)@.len() ==> (#[trigger] final(groups)@[k].extra_space)
                == old(groups)@[k].extra_space,
{
    let ghost g0 = groups@;
    let n = groups.len();
    let mut m: usize = 0;
    while m < n
        invariant
            uf_inv(groups@),
            groups@.len() == n,
            g0.len() == n,
            m <= n,
            forall|k: int| 0 <= k < n ==> uf_root(groups@, k) == uf_root(g0, k),
            forall|k: int| 0 <= k < m ==> (#[trigger] groups@[k].parent) as int == uf_root(g0, k),
            forall|k: int|
                0 <= k < n ==> (#[trigger] groups@[k].depth) == g0[k].depth,
            forall|k: int|
                0 <= k < n ==> (#[trigger] groups@[k].extra_space) == g0[k].extra_space,
        decreases n - m,
    {
        let ghost gm = groups@;
        let r = find_group(groups, m);
        groups[m].parent = r;
        proof {
            let gn = groups@;
            lemma_uf_root_props(gm, m as int);
            lemma_roots_same_after_repoint(gm, gn);
            lemma_roots_finite(gm);
            assert(roots(gn).len() == roots(gm).len()) by {
                assert(roots(gn) == roots(gm));
            }
            assert(uf_inv(gn));
            if r as int != m as int {
                assert forall|k: int| 0 <= k < n implies uf_root(gn, k) == uf_root(gm, k) by {
                    lemma_root_after_compress(gm, gn, m as int, k);
                }
            } else {
                assert(gn =~= gm);
            }
        }
        m = m + 1;
    }
}

/// Re-pointing one record straight at its own root changes no tree's root.
proof fn lemma_root_after_compress(g: Seq<GroupInfo>, h: Seq<GroupInfo>, a: int, k: int)
    requires
        uf_inv(g),
        uf_inv(h),
        g.len() == h.len(),
        0 <= a < g.len(),
        g[a].parent != a,
        h[a].parent as int == uf_root(g, a),
        forall|m: int| 0 <= m < g.len() && m != a ==> (#[trigger] h[m].parent) == g[m].parent,
        forall|m: int| 0 <= m < g.len() ==> (#[trigger] h[m].depth) == g[m].depth,
        0 <= k < g.len(),
    ensures
        uf_root(h, k) == uf_root(g, k),
    decreases g.len() - g[k].depth,
{
    lemma_uf_root_props(g, a);
    if k == a {
        let r = uf_root(g, a);
        assert(h[r].parent == g[r].parent);
        assert(uf_root(h, k) == uf_root(h, r));
        assert(uf_root(h, r) == r);
    } else if g[k].parent == k {
    } else {
        lemma_root_after_compress(g, h, a, g[k].parent as int);
    }
}

} // verus!

verus! {

/// Appending a fresh singleton record leaves every existing group's root
/// as it was; the new record is its own root.
pub proof fn lemma_uf_push_singleton(g: Seq<GroupInfo>, x: GroupInfo)
    requires
        uf_inv(g),
        x.parent as int == g.len(),
        x.depth == 0,
    ensures
        uf_inv(g.push(x)),
        forall|k: int| 0 <= k < g.len() ==> uf_root(g.push(x), k) == uf_root(g, k),
        uf_root(g.push(x), g.len() as int) == g.len(),
{
    let h = g.push(x);
    lemma_roots_finite(g);
    assert(roots(h) =~= roots(g).insert(g.len() as int));
    assert(!roots(g).contains(g.len() as int));
    assert(roots(h).len() == roots(g).len() + 1);
    assert(uf_inv(h));
    assert forall|k: int| 0 <= k < g.len() implies uf_root(h, k) == uf_root(g, k) by {
        lemma_root_push(g, h, k);
    }
}

proof fn lemma_root_push(g: Seq<GroupInfo>, h: Seq<GroupInfo>, k: int)
    requires
        uf_inv(g),
        uf_inv(h),
        h.len() == g.len() + 1,
        forall|m: int| 0 <= m < g.len() ==> (#[trigger] h[m]).parent == g[m].parent && h[m].depth
            == g[m].depth,
        0 <= k < g.len(),
    ensures
        uf_root(h, k) == uf_root(g, k),
    decreases g.len() - g[k].depth,
{
    if g[k].parent != k {
        lemma_root_push(g, h, g[k].parent as int);
    }
}


/// Two record sequences with the same parents and depths describe the same
/// forest: both well-formed, with every root alike.
pub proof fn lemma_uf_same_records(g1: Seq<GroupInfo>, g2: Seq<GroupInfo>)
    requires
        uf_inv(g1),
        g1.len() == g2.len(),
        forall|k: int|
            0 <= k < g1.len() ==> (#[trigger] g2[k].parent) == g1[k].parent && g2[k].depth
                == g1[k].depth,
    ensures
        uf_inv(g2),
        forall|k: int| 0 <= k < g1.len() ==> uf_root(g2, k) == uf_root(g1, k),
{
    assert(roots(g2) =~= roots(g1));
    assert forall|k: int|
        0 <= k < g2.len() && g2[k].parent != k implies (#[trigger] g2[k].depth)
        < g2[g2[k].parent as int].depth by {
        assert(g1[k].parent == g2[k].parent && g1[k].depth == g2[k].depth);
        let p = g1[k].parent as int;
        assert(0 <= p < g1.len());
        assert(g2[p].parent == g1[p].parent && g2[p].depth == g1[p].depth);
    }
    assert forall|k: int| 0 <= k < g2.len() implies (#[trigger] g2[k].depth) + roots(g2).len()
        <= g2.len() by {
        assert(g1[k].depth == g2[k].depth);
    }
    assert(uf_inv(g2));
    assert forall|k: int| 0 <= k < g1.len() implies uf_root(g2, k) == uf_root(g1, k) by {
        lemma_uf_same_records_at(g1, g2, k);
    }
}

proof fn lemma_uf_same_records_at(g1: Seq<GroupInfo>, g2: Seq<GroupInfo>, k: int)
    requires
        uf_inv(g1),
        uf_inv(g2),
        g1.len() == g2.len(),
        forall|m: int|
            0 <= m < g1.len() ==> (#[trigger] g2[m].parent) == g1[m].parent && g2[m].depth
                == g1[m].depth,
        0 <= k < g1.len(),
    ensures
        uf_root(g2, k) == uf_root(g1, k),
    decreases g1.len() - g1[k].depth,
{
    if g1[k].parent != k {
        lemma_uf_same_records_at(g1, g2, g1[k].parent as int);
    }
}

} // verus!
