//! The shape of the node tree as a mathematical object: which slots hold a
//! node, the children lists, the invariant that keeps them a forest, and the
//! breadth-first order in which the tree is walked.

use vstd::prelude::*;

use crate::NodeId;
use crate::arena::{slot_live, slot_value};
use crate::node::{DirtyFlags, LayoutProps, UiNode, VisualProps};

verus! {

/// The content of the node arena.
pub type Nodes = Seq<Option<UiNode>>;

pub open spec fn live(s: Nodes, id: NodeId) -> bool {
    slot_live(s, id)
}

pub open spec fn node(s: Nodes, id: NodeId) -> UiNode {
    slot_value(s, id)
}

/// The children of `id`, or nothing when `id` names no node.
pub open spec fn children_of(s: Nodes, id: NodeId) -> Seq<NodeId> {
    if live(s, id) {
        node(s, id).children@
    } else {
        Seq::empty()
    }
}

/// The tree invariant: every listed child is a live node that names the
/// lister as its parent and has a larger id, and no list repeats a child.
///
/// Since a node is listed only by the node it names as parent, and ids grow
/// along every edge, the children lists form a forest.
pub open spec fn tree_wf(s: Nodes) -> bool {
    &&& forall|p: NodeId, j: int|
        #![trigger node(s, p).children@[j]]
        live(s, p) && 0 <= j < node(s, p).children@.len() ==> {
            let c = node(s, p).children@[j];
            &&& live(s, c)
            &&& p.index < c.index
            &&& node(s, c).parent == Some(p)
        }
    &&& forall|p: NodeId| #[trigger] live(s, p) ==> node(s, p).children@.no_duplicates()
}

/// Two arenas with the same slots, the same live nodes and the same links.
pub open spec fn same_shape(s1: Nodes, s2: Nodes) -> bool {
    &&& s1.len() == s2.len()
    &&& forall|id: NodeId| #[trigger] live(s1, id) == live(s2, id)
    &&& forall|id: NodeId|
        live(s1, id) ==> {
            &&& #[trigger] node(s1, id).children@ == node(s2, id).children@
            &&& node(s1, id).parent == node(s2, id).parent
        }
}

/// The children of every node of `ids`, list after list.
pub open spec fn expand(s: Nodes, ids: Seq<NodeId>) -> Seq<NodeId>
    decreases ids.len(),
{
    if ids.len() == 0 {
        Seq::empty()
    } else {
        expand(s, ids.drop_last()) + children_of(s, ids.last())
    }
}

/// The nodes at depth `k` below `root`, in breadth-first order.
pub open spec fn level(s: Nodes, root: NodeId, k: nat) -> Seq<NodeId>
    decreases k,
{
    if k == 0 {
        seq![root]
    } else {
        expand(s, level(s, root, (k - 1) as nat))
    }
}

/// Depths `0 .. k` one after the other.
pub open spec fn levels_upto(s: Nodes, root: NodeId, k: nat) -> Seq<NodeId>
    decreases k,
{
    if k == 0 {
        Seq::empty()
    } else {
        levels_upto(s, root, (k - 1) as nat) + level(s, root, (k - 1) as nat)
    }
}

/// The breadth-first walk from `root`: `root` first, then its children,
/// then their children, each list in order.  `root` is listed even when it
/// names no node.  No depth beyond the number of slots holds a node.
pub open spec fn traversal(s: Nodes, root: NodeId) -> Seq<NodeId> {
    levels_upto(s, root, (s.len() + 1) as nat)
}

/// Entry `p` of `t` is a live node whose parent is a live node with a
/// smaller id listed before position `p`.
pub open spec fn parent_listed_before(s: Nodes, t: Seq<NodeId>, p: int) -> bool {
    &&& live(s, t[p])
    &&& exists|m: int|
        0 <= m < p && node(s, t[p]).parent == Some(#[trigger] t[m]) && live(s, t[m]) && t[m].index
            < t[p].index
}

pub proof fn lemma_expand_push(s: Nodes, ids: Seq<NodeId>, x: NodeId)
    ensures
        expand(s, ids.push(x)) == expand(s, ids) + children_of(s, x),
{
    assert(ids.push(x).drop_last() =~= ids);
}

/// Everything in `expand(s, ids)` is a child of some member of `ids`.
pub proof fn lemma_expand_member(s: Nodes, ids: Seq<NodeId>, k: int)
    requires
        0 <= k < expand(s, ids).len(),
    ensures
        exists|i: int, j: int|
            0 <= i < ids.len() && 0 <= j < children_of(s, ids[i]).len() && #[trigger] children_of(
                s,
                ids[i],
            )[j] == expand(s, ids)[k],
    decreases ids.len(),
{
    let pre = expand(s, ids.drop_last());
    if k < pre.len() {
        lemma_expand_member(s, ids.drop_last(), k);
        let (i, j) = choose|i: int, j: int|
            0 <= i < ids.drop_last().len() && 0 <= j < children_of(s, ids.drop_last()[i]).len()
                && #[trigger] children_of(s, ids.drop_last()[i])[j] == pre[k];
        assert(ids[i] == ids.drop_last()[i]);
        assert(children_of(s, ids[i])[j] == expand(s, ids)[k]);
    } else {
        let i = ids.len() - 1;
        let j = k - pre.len();
        assert(children_of(s, ids[i])[j] == expand(s, ids)[k]);
    }
}

/// A child listed by a node of `ids` shows up in `expand(s, ids)`.
pub proof fn lemma_expand_covers(s: Nodes, ids: Seq<NodeId>, i: int, j: int)
    requires
        0 <= i < ids.len(),
        0 <= j < children_of(s, ids[i]).len(),
    ensures
        expand(s, ids).contains(children_of(s, ids[i])[j]),
    decreases ids.len(),
{
    let pre = expand(s, ids.drop_last());
    if i < ids.len() - 1 {
        lemma_expand_covers(s, ids.drop_last(), i, j);
        let k = choose|k: int| 0 <= k < pre.len() && pre[k] == children_of(s, ids.drop_last()[i])[j];
        assert(expand(s, ids)[k] == pre[k]);
    } else {
        assert(expand(s, ids)[pre.len() + j] == children_of(s, ids[i])[j]);
    }
}

/// In a well-formed tree a child's parent field names the node listing it.
pub proof fn lemma_child_parent(s: Nodes, p: NodeId, j: int)
    requires
        tree_wf(s),
        0 <= j < children_of(s, p).len(),
    ensures
        live(s, p),
        live(s, children_of(s, p)[j]),
        node(s, children_of(s, p)[j]).parent == Some(p),
        p.index < children_of(s, p)[j].index,
{
    assert(node(s, p).children@[j] == children_of(s, p)[j]);
}

/// Breadth-first expansion of a repetition-free list repeats nothing.
pub proof fn lemma_expand_no_duplicates(s: Nodes, ids: Seq<NodeId>)
    requires
        tree_wf(s),
        ids.no_duplicates(),
    ensures
        expand(s, ids).no_duplicates(),
    decreases ids.len(),
{
    if ids.len() > 0 {
        let pre_ids = ids.drop_last();
        let x = ids.last();
        assert(pre_ids.no_duplicates()) by {
            assert forall|a: int, b: int|
                0 <= a < pre_ids.len() && 0 <= b < pre_ids.len() && a != b implies pre_ids[a]
                != pre_ids[b] by {
                assert(pre_ids[a] == ids[a] && pre_ids[b] == ids[b]);
            }
        }
        lemma_expand_no_duplicates(s, pre_ids);
        let pre = expand(s, pre_ids);
        let cs = children_of(s, x);
        if live(s, x) {
            assert(cs.no_duplicates());
        }
        assert(expand(s, ids) == pre + cs);
        assert forall|a: int, b: int|
            0 <= a < (pre + cs).len() && 0 <= b < (pre + cs).len() && a != b implies (pre
            + cs)[a] != (pre + cs)[b] by {
            if a < pre.len() && b >= pre.len() {
                lemma_disjoint_child(s, pre_ids, x, a, b - pre.len());
            } else if b < pre.len() && a >= pre.len() {
                lemma_disjoint_child(s, pre_ids, x, b, a - pre.len());
            }
        }
    }
}

proof fn lemma_disjoint_child(s: Nodes, pre_ids: Seq<NodeId>, x: NodeId, a: int, j: int)
    requires
        tree_wf(s),
        pre_ids.push(x).no_duplicates(),
        0 <= a < expand(s, pre_ids).len(),
        0 <= j < children_of(s, x).len(),
    ensures
        expand(s, pre_ids)[a] != children_of(s, x)[j],
{
    lemma_expand_member(s, pre_ids, a);
    let (i, jj) = choose|i: int, jj: int|
        0 <= i < pre_ids.len() && 0 <= jj < children_of(s, pre_ids[i]).len()
            && #[trigger] children_of(s, pre_ids[i])[jj] == expand(s, pre_ids)[a];
    lemma_child_parent(s, pre_ids[i], jj);
    lemma_child_parent(s, x, j);
    assert(pre_ids.push(x)[i] == pre_ids[i]);
    assert(pre_ids.push(x)[pre_ids.len() as int] == x);
}

/// Below depth zero every node is live, has an id at least `root`'s plus
/// its depth, and its parent sits one level up.
pub proof fn lemma_level_member(s: Nodes, root: NodeId, k: nat, m: int)
    requires
        tree_wf(s),
        k >= 1,
        0 <= m < level(s, root, k).len(),
    ensures
        live(s, level(s, root, k)[m]),
        level(s, root, k)[m].index >= root.index + k,
        exists|r: int|
            0 <= r < level(s, root, (k - 1) as nat).len() && node(s, level(s, root, k)[m]).parent
                == Some(#[trigger] level(s, root, (k - 1) as nat)[r]) && live(
                s,
                level(s, root, (k - 1) as nat)[r],
            ),
    decreases k,
{
    let prev = level(s, root, (k - 1) as nat);
    lemma_expand_member(s, prev, m);
    let (i, j) = choose|i: int, j: int|
        0 <= i < prev.len() && 0 <= j < children_of(s, prev[i]).len() && #[trigger] children_of(
            s,
            prev[i],
        )[j] == expand(s, prev)[m];
    lemma_child_parent(s, prev[i], j);
    if k >= 2 {
        lemma_level_member(s, root, (k - 1) as nat, i);
    }
}

/// No depth at or past the number of slots holds anything.
pub proof fn lemma_level_empty(s: Nodes, root: NodeId, k: nat)
    requires
        tree_wf(s),
        k >= 1,
        k >= s.len(),
    ensures
        level(s, root, k).len() == 0,
{
    if level(s, root, k).len() > 0 {
        lemma_level_member(s, root, k, 0);
    }
}

/// Once a depth is empty, every deeper one is too, and the walk stops.
pub proof fn lemma_levels_stop(s: Nodes, root: NodeId, k: nat, m: nat)
    requires
        level(s, root, k).len() == 0,
        k <= m,
    ensures
        level(s, root, m).len() == 0,
        levels_upto(s, root, m) == levels_upto(s, root, k),
    decreases m - k,
{
    if k < m {
        lemma_levels_stop(s, root, k, (m - 1) as nat);
        assert(level(s, root, m) == expand(s, level(s, root, (m - 1) as nat)));
        assert(level(s, root, (m - 1) as nat) =~= Seq::<NodeId>::empty());
        assert(levels_upto(s, root, m) =~= levels_upto(s, root, (m - 1) as nat));
    }
}

/// The walk is `levels_upto(k)` for any empty depth `k`.
pub proof fn lemma_traversal_is_levels(s: Nodes, root: NodeId, k: nat)
    requires
        tree_wf(s),
        level(s, root, k).len() == 0,
    ensures
        traversal(s, root) == levels_upto(s, root, k),
{
    let n = (s.len() + 1) as nat;
    if k <= n {
        lemma_levels_stop(s, root, k, n);
    } else {
        lemma_level_empty(s, root, n);
        lemma_levels_stop(s, root, n, k);
    }
}

/// A node is at one depth only.
pub proof fn lemma_depth_unique(s: Nodes, root: NodeId, a: nat, b: nat, x: NodeId)
    requires
        tree_wf(s),
        level(s, root, a).contains(x),
        level(s, root, b).contains(x),
    ensures
        a == b,
    decreases a + b,
{
    if a != b {
        if a == 0 || b == 0 {
            let (z, o) = if a == 0 {
                (a, b)
            } else {
                (b, a)
            };
            let m = choose|m: int| 0 <= m < level(s, root, o).len() && level(s, root, o)[m] == x;
            lemma_level_member(s, root, o, m);
            assert(level(s, root, z)[0] == root);
        } else {
            let ma = choose|m: int| 0 <= m < level(s, root, a).len() && level(s, root, a)[m] == x;
            let mb = choose|m: int| 0 <= m < level(s, root, b).len() && level(s, root, b)[m] == x;
            lemma_level_member(s, root, a, ma);
            lemma_level_member(s, root, b, mb);
            let ra = choose|r: int|
                0 <= r < level(s, root, (a - 1) as nat).len() && node(s, level(s, root, a)[ma]).parent
                    == Some(#[trigger] level(s, root, (a - 1) as nat)[r]) && live(
                    s,
                    level(s, root, (a - 1) as nat)[r],
                );
            let rb = choose|r: int|
                0 <= r < level(s, root, (b - 1) as nat).len() && node(s, level(s, root, b)[mb]).parent
                    == Some(#[trigger] level(s, root, (b - 1) as nat)[r]) && live(
                    s,
                    level(s, root, (b - 1) as nat)[r],
                );
            let q = level(s, root, (a - 1) as nat)[ra];
            assert(level(s, root, (b - 1) as nat)[rb] == q);
            lemma_depth_unique(s, root, (a - 1) as nat, (b - 1) as nat, q);
        }
    }
}

/// Each depth repeats nothing.
pub proof fn lemma_level_no_duplicates(s: Nodes, root: NodeId, k: nat)
    requires
        tree_wf(s),
    ensures
        level(s, root, k).no_duplicates(),
    decreases k,
{
    if k > 0 {
        lemma_level_no_duplicates(s, root, (k - 1) as nat);
        lemma_expand_no_duplicates(s, level(s, root, (k - 1) as nat));
    }
}

/// The first `k` depths together repeat nothing.
pub proof fn lemma_levels_upto_no_duplicates(s: Nodes, root: NodeId, k: nat)
    requires
        tree_wf(s),
    ensures
        levels_upto(s, root, k).no_duplicates(),
        forall|x: NodeId|
            #[trigger] levels_upto(s, root, k).contains(x) ==> exists|d: nat|
                d < k && level(s, root, d).contains(x),
    decreases k,
{
    if k > 0 {
        let km = (k - 1) as nat;
        lemma_levels_upto_no_duplicates(s, root, km);
        lemma_level_no_duplicates(s, root, km);
        let pre = levels_upto(s, root, km);
        let lv = level(s, root, km);
        assert(levels_upto(s, root, k) == pre + lv);
        assert forall|a: int, b: int|
            0 <= a < (pre + lv).len() && 0 <= b < (pre + lv).len() && a != b implies (pre + lv)[a]
            != (pre + lv)[b] by {
            if a < pre.len() && b >= pre.len() {
                lemma_prefix_level_disjoint(s, root, km, a, b - pre.len());
            } else if b < pre.len() && a >= pre.len() {
                lemma_prefix_level_disjoint(s, root, km, b, a - pre.len());
            }
        }
        assert forall|x: NodeId| #[trigger] (pre + lv).contains(x) implies exists|d: nat|
            d < k && level(s, root, d).contains(x) by {
            let i = choose|i: int| 0 <= i < (pre + lv).len() && (pre + lv)[i] == x;
            if i < pre.len() {
                assert(pre.contains(x));
            } else {
                assert(lv[i - pre.len()] == x);
                assert(level(s, root, km).contains(x));
            }
        }
    }
}

proof fn lemma_prefix_level_disjoint(s: Nodes, root: NodeId, k: nat, a: int, b: int)
    requires
        tree_wf(s),
        0 <= a < levels_upto(s, root, k).len(),
        0 <= b < level(s, root, k).len(),
        forall|x: NodeId|
            #[trigger] levels_upto(s, root, k).contains(x) ==> exists|d: nat|
                d < k && level(s, root, d).contains(x),
    ensures
        levels_upto(s, root, k)[a] != level(s, root, k)[b],
{
    let x = levels_upto(s, root, k)[a];
    if x == level(s, root, k)[b] {
        assert(levels_upto(s, root, k).contains(x));
        let d = choose|d: nat| d < k && level(s, root, d).contains(x);
        assert(level(s, root, k).contains(x));
        lemma_depth_unique(s, root, d, k, x);
    }
}

/// `levels_upto(k)` starts with `root` once it holds a depth.
proof fn lemma_levels_upto_first(s: Nodes, root: NodeId, k: nat)
    requires
        k >= 1,
    ensures
        levels_upto(s, root, k).len() >= 1,
        levels_upto(s, root, k)[0] == root,
    decreases k,
{
    if k >= 2 {
        lemma_levels_upto_first(s, root, (k - 1) as nat);
    } else {
        assert(levels_upto(s, root, 0) =~= Seq::<NodeId>::empty());
    }
}

/// Depth `d` is part of the walk through depths `0 .. k` when `d < k`.
proof fn lemma_level_in_levels_upto(s: Nodes, root: NodeId, d: nat, k: nat, x: NodeId)
    requires
        d < k,
        level(s, root, d).contains(x),
    ensures
        levels_upto(s, root, k).contains(x),
    decreases k,
{
    let km = (k - 1) as nat;
    let pre = levels_upto(s, root, km);
    let lv = level(s, root, km);
    assert(levels_upto(s, root, k) == pre + lv);
    if d == km {
        let i = choose|i: int| 0 <= i < lv.len() && lv[i] == x;
        assert((pre + lv)[pre.len() + i] == x);
    } else {
        lemma_level_in_levels_upto(s, root, d, km, x);
        let i = choose|i: int| 0 <= i < pre.len() && pre[i] == x;
        assert((pre + lv)[i] == x);
    }
}

/// In the walk through depths `0 .. k`, every entry after the first has a
/// live parent listed earlier, with a smaller id.
proof fn lemma_levels_upto_parent(s: Nodes, root: NodeId, k: nat)
    requires
        tree_wf(s),
    ensures
        forall|p: int|
            1 <= p < levels_upto(s, root, k).len() ==> #[trigger] parent_listed_before(
                s,
                levels_upto(s, root, k),
                p,
            ),
    decreases k,
{
    if k >= 1 {
        let km = (k - 1) as nat;
        lemma_levels_upto_parent(s, root, km);
        let pre = levels_upto(s, root, km);
        let lv = level(s, root, km);
        let t = levels_upto(s, root, k);
        assert(t == pre + lv);
        assert forall|p: int| 1 <= p < t.len() implies #[trigger] parent_listed_before(s, t, p) by {
            if p < pre.len() {
                assert(t[p] == pre[p]);
                assert(parent_listed_before(s, pre, p));
                let m = choose|m: int|
                    0 <= m < p && node(s, pre[p]).parent == Some(#[trigger] pre[m]) && live(
                        s,
                        pre[m],
                    ) && pre[m].index < pre[p].index;
                assert(t[m] == pre[m]);
            } else {
                let b = p - pre.len();
                assert(t[p] == lv[b]);
                if km == 0 {
                    assert(pre =~= Seq::<NodeId>::empty());
                    assert(false);
                }
                lemma_level_member(s, root, km, b);
                let kk = (km - 1) as nat;
                let r = choose|r: int|
                    0 <= r < level(s, root, kk).len() && node(s, lv[b]).parent == Some(
                        #[trigger] level(s, root, kk)[r],
                    ) && live(s, level(s, root, kk)[r]);
                let q = level(s, root, kk)[r];
                let pre2 = levels_upto(s, root, kk);
                assert(pre == pre2 + level(s, root, kk));
                let m = pre2.len() + r;
                assert(pre[m] == q);
                assert(t[m] == q);
                assert(exists|j: int| 0 <= j < children_of(s, q).len() && children_of(s, q)[j] == lv[b])
                    by {
                    lemma_expand_member(s, level(s, root, kk), b);
                    let (i, j) = choose|i: int, j: int|
                        0 <= i < level(s, root, kk).len() && 0 <= j < children_of(
                            s,
                            level(s, root, kk)[i],
                        ).len() && #[trigger] children_of(s, level(s, root, kk)[i])[j] == lv[b];
                    lemma_child_parent(s, level(s, root, kk)[i], j);
                    assert(level(s, root, kk)[i] == q);
                };
                let j = choose|j: int| 0 <= j < children_of(s, q).len() && children_of(s, q)[j] == lv[b];
                lemma_child_parent(s, q, j);
            }
        }
    }
}

/// The laws of the breadth-first walk: it starts at `root`, lists no node
/// twice, lists every entry after the first after that entry's parent (a
/// live node with a smaller id), and lists every child of every node it
/// lists.
pub proof fn lemma_traversal_laws(s: Nodes, root: NodeId)
    requires
        tree_wf(s),
    ensures
        traversal(s, root).len() >= 1,
        traversal(s, root)[0] == root,
        traversal(s, root).no_duplicates(),
        forall|p: int|
            1 <= p < traversal(s, root).len() ==> #[trigger] parent_listed_before(
                s,
                traversal(s, root),
                p,
            ),
        forall|x: NodeId, j: int|
            traversal(s, root).contains(x) && 0 <= j < children_of(s, x).len() ==> traversal(
                s,
                root,
            ).contains(#[trigger] children_of(s, x)[j]),
{
    let n = (s.len() + 1) as nat;
    lemma_levels_upto_first(s, root, n);
    lemma_levels_upto_no_duplicates(s, root, n);
    lemma_levels_upto_parent(s, root, n);
    assert forall|x: NodeId, j: int|
        traversal(s, root).contains(x) && 0 <= j < children_of(s, x).len() implies traversal(
        s,
        root,
    ).contains(#[trigger] children_of(s, x)[j]) by {
        assert(levels_upto(s, root, n).contains(x));
        let d = choose|d: nat| d < n && level(s, root, d).contains(x);
        let i = choose|i: int| 0 <= i < level(s, root, d).len() && level(s, root, d)[i] == x;
        lemma_expand_covers(s, level(s, root, d), i, j);
        assert(level(s, root, d + 1).contains(children_of(s, x)[j]));
        if d + 1 >= n {
            if d >= 1 {
                lemma_level_empty(s, root, d);
            } else {
                assert(x == root);
                assert(!live(s, x));
            }
        }
        lemma_level_in_levels_upto(s, root, d + 1, n, children_of(s, x)[j]);
    }
}

proof fn lemma_same_shape_expand(s1: Nodes, s2: Nodes, ids: Seq<NodeId>)
    requires
        same_shape(s1, s2),
    ensures
        expand(s1, ids) == expand(s2, ids),
    decreases ids.len(),
{
    if ids.len() > 0 {
        lemma_same_shape_expand(s1, s2, ids.drop_last());
        let x = ids.last();
        if live(s1, x) {
            assert(node(s1, x).children@ == node(s2, x).children@);
        }
        assert(children_of(s1, x) == children_of(s2, x));
    }
}

proof fn lemma_same_shape_levels(s1: Nodes, s2: Nodes, root: NodeId, k: nat)
    requires
        same_shape(s1, s2),
    ensures
        level(s1, root, k) == level(s2, root, k),
        levels_upto(s1, root, k) == levels_upto(s2, root, k),
    decreases k,
{
    if k > 0 {
        lemma_same_shape_levels(s1, s2, root, (k - 1) as nat);
        lemma_same_shape_expand(s1, s2, level(s1, root, (k - 1) as nat));
    }
}

/// Edits that keep the shape keep the invariant and the walk.
pub proof fn lemma_same_shape(s1: Nodes, s2: Nodes, root: NodeId)
    requires
        same_shape(s1, s2),
    ensures
        tree_wf(s1) ==> tree_wf(s2),
        traversal(s1, root) == traversal(s2, root),
        forall|x: NodeId| #[trigger] children_of(s1, x) == children_of(s2, x),
{
    lemma_same_shape_levels(s1, s2, root, (s1.len() + 1) as nat);
    assert forall|x: NodeId| #[trigger] children_of(s1, x) == children_of(s2, x) by {
        if live(s1, x) {
            assert(node(s1, x).children@ == node(s2, x).children@);
        }
    }
    if tree_wf(s1) {
        assert forall|p: NodeId, j: int|
            live(s2, p) && 0 <= j < node(s2, p).children@.len() implies {
            let c = #[trigger] node(s2, p).children@[j];
            &&& live(s2, c)
            &&& p.index < c.index
            &&& node(s2, c).parent == Some(p)
        } by {
            assert(live(s1, p));
            assert(node(s1, p).children@ == node(s2, p).children@);
            let c = node(s1, p).children@[j];
            assert(live(s1, c));
            assert(node(s1, c).parent == node(s2, c).parent);
        }
        assert forall|p: NodeId| #[trigger] live(s2, p) implies node(s2, p).children@.no_duplicates() by {
            assert(live(s1, p));
            assert(node(s1, p).children@ == node(s2, p).children@);
        }
    }
}

/// `s` with node `id` replaced by `n`.
pub open spec fn with_node(s: Nodes, id: NodeId, n: UiNode) -> Nodes {
    s.update(id.index as int, Some(n))
}

/// `n` with its visual marked dirty.
pub open spec fn visual_touched(n: UiNode, v: VisualProps) -> UiNode {
    UiNode { visual: v, dirty: DirtyFlags { visual_dirty: true, ..n.dirty }, ..n }
}

/// `n` with its layout marked dirty.
pub open spec fn layout_touched(n: UiNode, l: LayoutProps) -> UiNode {
    UiNode { layout: l, dirty: DirtyFlags { layout_dirty: true, ..n.dirty }, ..n }
}

} // verus!
