//! The layout pass as a relation: what placing every node inside its
//! parent's computed rectangle does to the nodes.  The arithmetic of
//! placement is the caller's; see [`crate::UiContext::resolve_layout`].

use vstd::prelude::*;

use crate::NodeId;
use crate::node::{spec_pixels, Anchor, LayoutProps, UiNode, UiVec2};
use crate::primitives::{Scalar, Vec2};
use crate::tree::{live, node, with_node, Nodes};

verus! {

/// `a` and `b` agree on everything but the computed position and size.
pub open spec fn same_but_computed(a: UiNode, b: UiNode) -> bool {
    &&& a.layout.anchor == b.layout.anchor
    &&& a.layout.offset == b.layout.offset
    &&& a.layout.size == b.layout.size
    &&& a.visual == b.visual
    &&& a.interact == b.interact
    &&& a.children@ == b.children@
    &&& a.parent == b.parent
    &&& a.dirty == b.dirty
}

/// Slot by slot, `s2` differs from `s1` only in computed positions and sizes.
pub open spec fn only_computed_changed(s1: Nodes, s2: Nodes) -> bool {
    &&& s1.len() == s2.len()
    &&& forall|i: int|
        0 <= i < s1.len() ==> (#[trigger] s1[i] is Some <==> s2[i] is Some) && (s1[i] is Some
            ==> same_but_computed(s1[i]->Some_0, s2[i]->Some_0))
}

/// Node `x` sits where `place` puts it inside its parent, as both are in `s`:
/// `(computed_pos, computed_size)` is an answer of `place` to the node's
/// anchor, offset and size, the parent's computed position and size, and the
/// screen size `w` x `h`.
pub open spec fn laid_out<F: Fn(Anchor, UiVec2, UiVec2, Vec2, Vec2, Scalar, Scalar) -> (Vec2, Vec2)>(
    place: F,
    s: Nodes,
    x: NodeId,
    w: Scalar,
    h: Scalar,
) -> bool {
    let n = node(s, x);
    let p = node(s, n.parent->Some_0);
    call_ensures(
        place,
        (n.layout.anchor, n.layout.offset, n.layout.size, p.layout.computed_pos, p.layout.computed_size, w, h),
        (n.layout.computed_pos, n.layout.computed_size),
    )
}

/// `x` is listed in `t` after its first entry.
pub open spec fn after_first(t: Seq<NodeId>, x: NodeId) -> bool {
    exists|p: int| 1 <= p < t.len() && t[p] == x
}

/// `place` can be asked anything.
pub open spec fn place_total<F: Fn(Anchor, UiVec2, UiVec2, Vec2, Vec2, Scalar, Scalar) -> (Vec2, Vec2)>(place: F) -> bool {
    forall|a: Anchor, o: UiVec2, z: UiVec2, pp: Vec2, ps: Vec2, w: Scalar, h: Scalar|
        #[trigger] call_requires(place, (a, o, z, pp, ps, w, h))
}

/// The outcome of a layout pass over the walk `t` from `s1` to `s2`: only
/// computed values change; every node after the first entry of `t` is laid
/// out inside its parent's new computed rectangle; every other node keeps
/// its computed values.
pub open spec fn layout_pass<F: Fn(Anchor, UiVec2, UiVec2, Vec2, Vec2, Scalar, Scalar) -> (Vec2, Vec2)>(
    place: F,
    s1: Nodes,
    s2: Nodes,
    t: Seq<NodeId>,
    w: Scalar,
    h: Scalar,
) -> bool {
    &&& only_computed_changed(s1, s2)
    &&& forall|p: int| 1 <= p < t.len() ==> #[trigger] laid_out(place, s2, t[p], w, h)
    &&& forall|x: NodeId|
        live(s1, x) && !after_first(t, x) ==> #[trigger] node(s2, x).layout == node(s1, x).layout
}

/// `s` with node `root`, when live, sized to a `w` x `h` screen: its
/// requested size becomes `w` x `h` pixels and its computed size `(w, h)`.
pub open spec fn with_screen(s: Nodes, root: NodeId, w: Scalar, h: Scalar) -> Nodes {
    if live(s, root) {
        let n = node(s, root);
        with_node(
            s,
            root,
            UiNode {
                layout: LayoutProps { size: spec_pixels(w, h), computed_size: Vec2 { x: w, y: h }, ..n.layout },
                ..n
            },
        )
    } else {
        s
    }
}

} // verus!
