//! The UI context: the node tree, its pending edits, its tweens and the
//! screen it is laid out on.

use std::collections::VecDeque;

use vstd::prelude::*;

use crate::NodeId;
use crate::arena::Arena;
use crate::draw::{
    alpha_total, command_tint, draw_command, draw_positions, drawn, draws_node, hidden, layer_of,
    DrawCommandBuffer,
};
use crate::event::{apply_event, apply_events, lemma_apply_events_shape, UIEvent};
use crate::input::{
    candidates_from, hit_total, hovers_answered, interact_state_of, interactive, lemma_candidates_prefix,
    lemma_pointer_pass_prefix, pointer_candidates, pointer_pass, pointer_report, pointed,
    stops_at_first_hit, with_interact, Interact, InteractState,
};
use crate::layout::{after_first, laid_out, layout_pass, only_computed_changed, place_total, same_but_computed, with_screen};
use crate::node::{spec_layout_new, spec_pixels, Anchor, DirtyFlags, LayoutProps, UiNode, UiVec2, VisualKind, VisualProps};
use crate::output::UIOutputEvent;
use crate::primitives::{Color, Scalar, Vec2, ZERO_BITS};
use crate::tree::{
    expand, lemma_expand_push, lemma_level_empty, lemma_same_shape, lemma_traversal_is_levels,
    lemma_traversal_laws, level, levels_upto, live, node, parent_listed_before, same_shape, traversal,
    tree_wf, with_node, Nodes,
};
use crate::tween::{
    all_step_events, engine_step, sample_total, sampled, Easing, StepResult, Tween, TweenEngine,
    TweenProperty,
};

verus! {

/// `s` without any occurrence of `x`, order kept.
pub open spec fn without(s: Seq<NodeId>, x: NodeId) -> Seq<NodeId>
    decreases s.len(),
{
    if s.len() == 0 {
        Seq::empty()
    } else {
        let r = without(s.drop_last(), x);
        if s.last() == x {
            r
        } else {
            r.push(s.last())
        }
    }
}

pub(crate) proof fn lemma_without(s: Seq<NodeId>, x: NodeId)
    ensures
        !without(s, x).contains(x),
        forall|y: NodeId| #[trigger] without(s, x).contains(y) ==> s.contains(y),
        s.no_duplicates() ==> without(s, x).no_duplicates(),
        !s.contains(x) ==> without(s, x) == s,
    decreases s.len(),
{
    if s.len() > 0 {
        let d = s.drop_last();
        lemma_without(d, x);
        let r = without(d, x);
        assert forall|y: NodeId| #[trigger] without(s, x).contains(y) implies s.contains(y) by {
            if r.contains(y) {
                let i = choose|i: int| 0 <= i < d.len() && d[i] == y;
                assert(s[i] == y);
            } else {
                assert(s[s.len() - 1] == y);
            }
        }
        if s.no_duplicates() {
            assert(d.no_duplicates()) by {
                assert forall|a: int, b: int|
                    0 <= a < d.len() && 0 <= b < d.len() && a != b implies d[a] != d[b] by {
                    assert(d[a] == s[a] && d[b] == s[b]);
                }
            }
            if s.last() != x {
                assert(!r.contains(s.last())) by {
                    if r.contains(s.last()) {
                        let i = choose|i: int| 0 <= i < d.len() && d[i] == s.last();
                        assert(s[i] == s[s.len() - 1]);
                    }
                }
            }
        }
        if !s.contains(x) {
            assert(!d.contains(x)) by {
                if d.contains(x) {
                    let i = choose|i: int| 0 <= i < d.len() && d[i] == x;
                    assert(s[i] == x);
                }
            }
            assert(s.last() != x) by {
                assert(s[s.len() - 1] == s.last());
            }
            assert(s == d.push(s.last()));
        }
    }
}

/// Removes every occurrence of `id` from `children`, keeping the order.
fn remove_child(children: &mut Vec<NodeId>, id: NodeId)
    ensures
        final(children)@ == without(old(children)@, id),
{
    let mut kept: Vec<NodeId> = Vec::new();
    let mut i: usize = 0;
    while i < children.len()
        invariant
            i <= children@.len(),
            children@ == old(children)@,
            kept@ == without(children@.take(i as int), id),
        decreases children@.len() - i,
    {
        assert(children@.take(i + 1).drop_last() =~= children@.take(i as int));
        if children[i] != id {
            kept.push(children[i]);
        }
        i += 1;
    }
    assert(children@.take(i as int) =~= children@);
    *children = kept;
}

/// `a` and `b` agree on everything but their children lists.
pub open spec fn same_but_children(a: UiNode, b: UiNode) -> bool {
    &&& a.layout == b.layout
    &&& a.visual == b.visual
    &&& a.interact == b.interact
    &&& a.parent == b.parent
    &&& a.dirty == b.dirty
}

/// Both dirty flags down.
pub open spec fn clean_flags() -> DirtyFlags {
    DirtyFlags { layout_dirty: false, visual_dirty: false }
}

/// `s2` is `s1` with the dirty flags of every live node listed in `t`
/// lowered, and nothing else changed.
pub open spec fn dirty_cleared(s1: Nodes, s2: Nodes, t: Seq<NodeId>) -> bool {
    &&& s2.len() == s1.len()
    &&& forall|x: NodeId|
        x.index < s1.len() ==> if live(s1, x) && t.contains(x) {
            #[trigger] s2[x.index as int] == Some(UiNode { dirty: clean_flags(), ..node(s1, x) })
        } else {
            s2[x.index as int] == s1[x.index as int]
        }
}

/// Slot `x` of `s2` is slot `x` of `s1`, with both dirty flags lowered when
/// it holds a node listed in `t`.
pub open spec fn slot_cleared(s1: Nodes, s2: Nodes, t: Seq<NodeId>, x: NodeId) -> bool {
    if live(s1, x) && t.contains(x) {
        s2[x.index as int] == Some(UiNode { dirty: clean_flags(), ..node(s1, x) })
    } else {
        s2[x.index as int] == s1[x.index as int]
    }
}

/// Some live node listed in `t` waits for a layout.
pub open spec fn layout_wanted(s: Nodes, t: Seq<NodeId>) -> bool {
    exists|p: int| 0 <= p < t.len() && live(s, #[trigger] t[p]) && node(s, t[p]).dirty.layout_dirty
}

/// The nodes part of an update, from the state `s1` where all edits were
/// applied to the state `s2`: when a node of the walk `t` waits for a
/// layout, a layout pass over `t` runs; then every node of `t` is marked
/// clean.
pub open spec fn settle<F: Fn(Anchor, UiVec2, UiVec2, Vec2, Vec2, Scalar, Scalar) -> (Vec2, Vec2)>(
    place: F,
    s1: Nodes,
    s2: Nodes,
    t: Seq<NodeId>,
    w: Scalar,
    h: Scalar,
) -> bool {
    if layout_wanted(s1, t) {
        exists|mid: Nodes| #[trigger] layout_pass(place, s1, mid, t, w, h) && dirty_cleared(mid, s2, t)
    } else {
        dirty_cleared(s1, s2, t)
    }
}

pub struct UiContext {
    arena: Arena<UiNode>,
    pub root: NodeId,
    events: VecDeque<UIEvent>,
    pub tween: TweenEngine,
    screen_w: Scalar,
    screen_h: Scalar,
}

impl UiContext {
    /// The slots of the node arena.
    pub closed spec fn nodes(&self) -> Nodes {
        self.arena@
    }

    /// Edits sent and not yet applied, oldest first.
    pub closed spec fn pending(&self) -> Seq<UIEvent> {
        self.events@
    }

    /// The node the walk starts from.
    pub closed spec fn root_id(&self) -> NodeId {
        self.root
    }

    pub closed spec fn engine(&self) -> TweenEngine {
        self.tween
    }

    pub closed spec fn screen_w_spec(&self) -> Scalar {
        self.screen_w
    }

    pub closed spec fn screen_h_spec(&self) -> Scalar {
        self.screen_h
    }

    /// The context's invariant: the children lists form a forest.
    pub closed spec fn wf(&self) -> bool {
        tree_wf(self.arena@)
    }

    pub proof fn lemma_wf(&self)
        requires
            self.wf(),
        ensures
            tree_wf(self.nodes()),
    {
    }

    /// A context for a `screen_w` x `screen_h` screen, holding only its root:
    /// a centred, visible, fully transparent rectangle that covers the screen,
    /// already laid out at the origin.
    pub fn new(screen_w: Scalar, screen_h: Scalar) -> (ctx: Self)
        ensures
            ctx.wf(),
            ctx.nodes().len() == 1,
            ctx.root_id().index == 0,
            live(ctx.nodes(), ctx.root_id()),
            ({
                let n = node(ctx.nodes(), ctx.root_id());
                &&& n.layout.anchor == Anchor::Center
                &&& n.layout.offset == spec_pixels(Scalar { bits: ZERO_BITS }, Scalar { bits: ZERO_BITS })
                &&& n.layout.size == spec_pixels(screen_w, screen_h)
                &&& n.layout.computed_pos == crate::node::spec_zero_vec2()
                &&& n.layout.computed_size == (Vec2 { x: screen_w, y: screen_h })
                &&& n.visual.kind == VisualKind::Rect
                &&& n.visual.color == crate::primitives::spec_white()
                &&& n.visual.visible
                &&& n.visual.opacity.bits == ZERO_BITS
                &&& n.interact is None
                &&& n.children@ == Seq::<NodeId>::empty()
                &&& n.parent is None
                &&& n.dirty.layout_dirty && n.dirty.visual_dirty
            }),
            ctx.pending() == Seq::<UIEvent>::empty(),
            ctx.engine().running() == Seq::<Tween>::empty(),
            ctx.engine().produced() == Seq::<UIEvent>::empty(),
            ctx.screen_w_spec() == screen_w,
            ctx.screen_h_spec() == screen_h,
    {
        let mut arena: Arena<UiNode> = Arena::new();
        let root_id = arena.insert(
            UiNode::new(
                Anchor::Center,
                UiVec2::pixels(Scalar::zero(), Scalar::zero()),
                UiVec2::pixels(screen_w, screen_h),
            ),
        );
        if let Some(root_node) = arena.get_mut(root_id) {
            root_node.layout.computed_pos = Vec2::zero();
            root_node.layout.computed_size = Vec2::new(screen_w, screen_h);
            root_node.visual.visible = true;
            root_node.visual.opacity = Scalar::zero();
            root_node.visual.kind = VisualKind::Rect;
        }
        let ctx = Self {
            arena,
            root: root_id,
            events: VecDeque::new(),
            tween: TweenEngine::default(),
            screen_h,
            screen_w,
        };
        assert(tree_wf(ctx.arena@)) by {
            assert forall|p: NodeId| #[trigger] live(ctx.arena@, p) implies node(
                ctx.arena@,
                p,
            ).children@.no_duplicates() by {
                assert(p.index == 0);
            }
        }
        ctx
    }

    /// The node the walk starts from (the `root` field, for verified
    /// callers, to whom the fields are opaque).
    pub fn root(&self) -> (r: NodeId)
        ensures
            r == self.root_id(),
    {
        self.root
    }

    /// Starts animating `tween` with the context's engine (the same as
    /// `tween.add`, for verified callers).
    pub fn add_tween(&mut self, tween: Tween)
        requires
            old(self).wf(),
        ensures
            final(self).wf(),
            final(self).engine().running() == old(self).engine().running().push(tween),
            final(self).engine().produced() == old(self).engine().produced(),
            final(self).nodes() == old(self).nodes(),
            final(self).pending() == old(self).pending(),
            final(self).root_id() == old(self).root_id(),
            final(self).screen_w_spec() == old(self).screen_w_spec(),
            final(self).screen_h_spec() == old(self).screen_h_spec(),
    {
        self.tween.add(tween);
    }

    /// The node `id` names, if it is live.
    pub fn node(&self, id: NodeId) -> (r: Option<&UiNode>)
        ensures
            match r {
                Some(n) => live(self.nodes(), id) && *n == node(self.nodes(), id),
                None => !live(self.nodes(), id),
            },
    {
        self.arena.get(id)
    }

    /// The breadth-first walk of the tree from `root` (see [`traversal`]).
    pub fn build_traversal_order(&self) -> (order: Vec<NodeId>)
        requires
            self.wf(),
        ensures
            order@ == traversal(self.nodes(), self.root_id()),
    {
        let ghost s = self.arena@;
        let ghost root = self.root;
        let mut order: Vec<NodeId> = Vec::new();
        order.push(self.root);
        let mut start: usize = 0;
        let ghost mut depth: nat = 0;
        assert(levels_upto(s, root, 0) =~= Seq::<NodeId>::empty());
        assert(level(s, root, 0) == seq![root]);
        assert(levels_upto(s, root, 1) =~= seq![root]);
        while start < order.len()
            invariant
                tree_wf(s),
                s == self.arena@,
                root == self.root,
                order@ == levels_upto(s, root, depth + 1),
                start == levels_upto(s, root, depth).len(),
                depth <= s.len() + 1,
            decreases s.len() + 1 - depth,
        {
            assert(levels_upto(s, root, depth + 1) == levels_upto(s, root, depth) + level(s, root, depth));
            proof {
                if depth >= 1 && depth >= s.len() {
                    lemma_level_empty(s, root, depth);
                }
            }
            let end = order.len();
            let mut i = start;
            let ghost lv = level(s, root, depth);
            assert(lv.take(0) =~= Seq::<NodeId>::empty());
            while i < end
                invariant
                    tree_wf(s),
                    s == self.arena@,
                    lv == level(s, root, depth),
                    levels_upto(s, root, depth + 1) == levels_upto(s, root, depth) + lv,
                    start == levels_upto(s, root, depth).len(),
                    end == levels_upto(s, root, depth + 1).len(),
                    start <= i <= end,
                    order@ == levels_upto(s, root, depth + 1) + expand(s, lv.take(i - start)),
                decreases end - i,
            {
                let id = order[i];
                assert(id == lv[i - start]);
                let ghost before = order@;
                if let Some(node) = self.arena.get(id) {
                    let mut j: usize = 0;
                    while j < node.children.len()
                        invariant
                            order@ == before + node.children@.take(j as int),
                            j <= node.children@.len(),
                        decreases node.children@.len() - j,
                    {
                        assert(node.children@.take(j + 1) =~= node.children@.take(j as int).push(
                            node.children@[j as int],
                        ));
                        order.push(node.children[j]);
                        j += 1;
                    }
                    assert(node.children@.take(j as int) =~= node.children@);
                }
                proof {
                    lemma_expand_push(s, lv.take(i - start), id);
                    assert(lv.take(i + 1 - start) =~= lv.take(i - start).push(id));
                    assert(order@ =~= levels_upto(s, root, depth + 1) + expand(s, lv.take(i + 1 - start)));
                }
                i += 1;
            }
            proof {
                assert(lv.take(end - start) =~= lv);
                assert(levels_upto(s, root, depth + 2) == levels_upto(s, root, depth + 1) + level(
                    s,
                    root,
                    depth + 1,
                ));
            }
            start = end;
            proof {
                depth = depth + 1;
            }
        }
        proof {
            assert(levels_upto(s, root, depth + 1) == levels_upto(s, root, depth) + level(s, root, depth));
            assert(level(s, root, depth).len() == 0);
            lemma_traversal_is_levels(s, root, depth);
            assert(levels_upto(s, root, depth + 1) =~= levels_upto(s, root, depth));
        }
        order
    }

    /// Lays out every node reached by the walk, parents before children:
    /// each node after the first is placed by `place` inside its parent's
    /// freshly computed rectangle.  The first node of the walk keeps its
    /// computed values, and so does every node the walk does not reach.
    pub fn resolve_layout<F: Fn(Anchor, UiVec2, UiVec2, Vec2, Vec2, Scalar, Scalar) -> (Vec2, Vec2)>(
        &mut self,
        place: &F,
    )
        requires
            old(self).wf(),
            place_total(*place),
        ensures
            final(self).wf(),
            layout_pass(
                *place,
                old(self).nodes(),
                final(self).nodes(),
                traversal(old(self).nodes(), old(self).root_id()),
                old(self).screen_w_spec(),
                old(self).screen_h_spec(),
            ),
            final(self).root_id() == old(self).root_id(),
            final(self).pending() == old(self).pending(),
            final(self).engine() == old(self).engine(),
            final(self).screen_w_spec() == old(self).screen_w_spec(),
            final(self).screen_h_spec() == old(self).screen_h_spec(),
    {
        let ghost s0 = self.arena@;
        let ghost root = self.root;
        let order = self.build_traversal_order();
        proof {
            lemma_traversal_laws(s0, root);
        }
        let ghost t = order@;
        let mut i: usize = 1;
        while i < order.len()
            invariant
                1 <= i <= order@.len(),
                t == order@,
                t == traversal(s0, root),
                t.no_duplicates(),
                forall|p: int| 1 <= p < t.len() ==> #[trigger] parent_listed_before(s0, t, p),
                tree_wf(s0),
                root == self.root,
                only_computed_changed(s0, self.arena@),
                forall|p: int| 1 <= p < i ==> #[trigger] laid_out(*place, self.arena@, t[p], self.screen_w, self.screen_h),
                forall|x: NodeId|
                    live(s0, x) && !(exists|p: int| 1 <= p < i && t[p] == x) ==> #[trigger] node(self.arena@, x).layout
                        == node(s0, x).layout,
                place_total(*place),
                self.events@ == old(self).events@,
                self.tween == old(self).tween,
                self.screen_w == old(self).screen_w,
                self.screen_h == old(self).screen_h,
            decreases order@.len() - i,
        {
            let ghost s1 = self.arena@;
            let id = order[i];
            proof {
                assert(parent_listed_before(s0, t, i as int));
            }
            let ghost m = choose|m: int|
                0 <= m < i && node(s0, t[i as int]).parent == Some(#[trigger] t[m]) && live(s0, t[m])
                    && t[m].index < t[i as int].index;
            let mut args: Option<(Anchor, UiVec2, UiVec2, Vec2, Vec2)> = None;
            if let Some(n) = self.arena.get(id) {
                if let Some(parent_id) = n.parent {
                    if let Some(parent_node) = self.arena.get(parent_id) {
                        args = Some((
                            n.layout.anchor,
                            n.layout.offset,
                            n.layout.size,
                            parent_node.layout.computed_pos,
                            parent_node.layout.computed_size,
                        ));
                    }
                }
            }
            proof {
                assert(s1[id.index as int] is Some);
                assert(s1[t[m].index as int] is Some);
            }
            if let Some((anchor, offset, size, parent_pos, parent_size)) = args {
                let (new_pos, new_size) = place(anchor, offset, size, parent_pos, parent_size, self.screen_w, self.screen_h);
                if let Some(n) = self.arena.get_mut(id) {
                    n.layout.computed_pos = new_pos;
                    n.layout.computed_size = new_size;
                }
                proof {
                    let s2 = self.arena@;
                    assert forall|p: int| 1 <= p < i + 1 implies #[trigger] laid_out(*place, s2, t[p], self.screen_w, self.screen_h) by {
                        if p < i {
                            assert(laid_out(*place, s1, t[p], self.screen_w, self.screen_h));
                            assert(parent_listed_before(s0, t, p));
                            let mm = choose|mm: int|
                                0 <= mm < p && node(s0, t[p]).parent == Some(#[trigger] t[mm]) && live(s0, t[mm])
                                    && t[mm].index < t[p].index;
                            assert(t[p] != id);
                            assert(t[mm] != id);
                            assert(s1[t[mm].index as int] is Some);
                            assert(s1[t[p].index as int] is Some);
                        }
                    }
                    assert forall|x: NodeId|
                        live(s0, x) && !(exists|p: int| 1 <= p < i + 1 && t[p] == x) implies #[trigger] node(s2, x).layout
                            == node(s0, x).layout by {
                        if x == id {
                            assert(t[i as int] == x);
                        }
                        assert(!(exists|p: int| 1 <= p < i && t[p] == x));
                        assert(x.index != id.index);
                        assert(s2[x.index as int] == s1[x.index as int]);
                        assert(node(s1, x).layout == node(s0, x).layout);
                    }
                    assert forall|k: int|
                        0 <= k < s0.len() implies (#[trigger] s0[k] is Some <==> s2[k] is Some) && (s0[k] is Some
                            ==> same_but_computed(s0[k]->Some_0, s2[k]->Some_0)) by {
                        assert(s1[k] is Some <==> s0[k] is Some);
                    }
                }
            }
            i += 1;
        }
        proof {
            let s2 = self.arena@;
            assert forall|x: NodeId| live(s0, x) && !after_first(t, x) implies #[trigger] node(s2, x).layout
                == node(s0, x).layout by {
                assert(!(exists|p: int| 1 <= p < i && t[p] == x));
            }
            assert(same_shape(s0, s2)) by {
                assert forall|x: NodeId| #[trigger] live(s0, x) == live(s2, x) by {
                    if x.index < s0.len() {
                        assert(s0[x.index as int] is Some <==> s2[x.index as int] is Some);
                    }
                }
                assert forall|x: NodeId| live(s0, x) implies {
                    &&& #[trigger] node(s0, x).children@ == node(s2, x).children@
                    &&& node(s0, x).parent == node(s2, x).parent
                } by {
                    assert(s0[x.index as int] is Some);
                }
            }
            lemma_same_shape(s0, s2, root);
        }
    }

    /// Queues `event`; it is applied on the next update.
    pub fn send_event(&mut self, event: UIEvent)
        ensures
            final(self).pending() == old(self).pending().push(event),
            final(self).nodes() == old(self).nodes(),
            final(self).root_id() == old(self).root_id(),
            final(self).engine() == old(self).engine(),
            final(self).screen_w_spec() == old(self).screen_w_spec(),
            final(self).screen_h_spec() == old(self).screen_h_spec(),
            final(self).wf() == old(self).wf(),
    {
        self.events.push_back(event);
    }

    /// Applies every queued edit, oldest first, and empties the queue.
    fn process_event(&mut self)
        requires
            old(self).wf(),
        ensures
            final(self).wf(),
            final(self).nodes() == apply_events(old(self).nodes(), old(self).pending()),
            final(self).pending() == Seq::<UIEvent>::empty(),
            final(self).root_id() == old(self).root_id(),
            final(self).engine() == old(self).engine(),
            final(self).screen_w_spec() == old(self).screen_w_spec(),
            final(self).screen_h_spec() == old(self).screen_h_spec(),
    {
        let ghost goal = apply_events(self.arena@, self.events@);
        while self.events.len() > 0
            invariant
                apply_events(self.arena@, self.events@) == goal,
                self.root == old(self).root,
                self.tween == old(self).tween,
                self.screen_w == old(self).screen_w,
                self.screen_h == old(self).screen_h,
            decreases self.events@.len(),
        {
            let ghost s0 = self.arena@;
            let ghost evs = self.events@;
            let event = self.events.pop_front().unwrap();
            assert(event == evs[0]);
            assert(self.events@ == evs.drop_first());
            match event {
                UIEvent::SetColor { target, color } => {
                    if let Some(node) = self.arena.get_mut(target) {
                        node.visual.color = color;
                        node.dirty.visual_dirty = true;
                    }
                },
                UIEvent::SetOpacity { target, opacity } => {
                    if let Some(node) = self.arena.get_mut(target) {
                        node.visual.opacity = opacity;
                        node.dirty.visual_dirty = true;
                    }
                },
                UIEvent::SetVisible { target, visible } => {
                    if let Some(node) = self.arena.get_mut(target) {
                        node.visual.visible = visible;
                        node.dirty.visual_dirty = true;
                    }
                },
                UIEvent::SetPosition { target, offset } => {
                    if let Some(node) = self.arena.get_mut(target) {
                        node.layout.offset = offset;
                        node.dirty.layout_dirty = true;
                    }
                },
                UIEvent::SetSize { target, size } => {
                    if let Some(node) = self.arena.get_mut(target) {
                        node.layout.size = size;
                        node.dirty.layout_dirty = true;
                    }
                },
                UIEvent::SetMaterial { target, id, texture_id, uniform_data } => {
                    if let Some(node) = self.arena.get_mut(target) {
                        node.visual.kind = VisualKind::Material {
                            material_id: id,
                            texture_id,
                            uniform_data,
                        };
                        node.dirty.visual_dirty = true;
                    }
                },
                UIEvent::SetText { target, content } => {
                    if let Some(node) = self.arena.get_mut(target) {
                        let font = match &node.visual.kind {
                            VisualKind::Text { font_size, .. } => Some(*font_size),
                            _ => None,
                        };
                        if let Some(font_size) = font {
                            node.visual.kind = VisualKind::Text { content, font_size };
                            node.dirty.visual_dirty = true;
                        }
                    }
                },
            }
            assert(self.arena@ =~= apply_event(s0, evs[0]));
        }
        proof {
            assert(self.events@ =~= Seq::<UIEvent>::empty());
            lemma_apply_events_shape(old(self).arena@, old(self).events@);
            lemma_same_shape(old(self).arena@, self.arena@, self.root);
        }
    }

    /// Appends to `buf` one command per drawn node, in walk order.
    ///
    /// The walk's first node is never drawn; a node is skipped when it is
    /// hidden (invisible, or under a hidden parent) or is a pure container.
    /// A node at entry `p` of the walk is drawn on layer `min(p, 255)`,
    /// tinted with what `alpha` answers for its colour and opacity.
    pub fn collect<A: Fn(Color, Scalar) -> Color>(&self, buf: &mut DrawCommandBuffer, alpha: &A)
        requires
            self.wf(),
            alpha_total(*alpha),
        ensures
            ({
                let s = self.nodes();
                let t = traversal(s, self.root_id());
                let ps = draw_positions(s, self.root_id(), t, t.len() as int);
                let n0 = old(buf)@.len();
                &&& final(buf)@.len() == n0 + ps.len()
                &&& final(buf)@.subrange(0, n0 as int) == old(buf)@
                &&& forall|k: int|
                    0 <= k < ps.len() ==> {
                        let c = #[trigger] final(buf)@[n0 + k];
                        let n = node(s, t[ps[k]]);
                        &&& draws_node(c, n, layer_of(ps[k]))
                        &&& call_ensures(*alpha, (n.visual.color, n.visual.opacity), command_tint(c))
                    }
            }),
    {
        let ghost s = self.arena@;
        let ghost root = self.root;
        let ghost b0 = buf@;
        let order = self.build_traversal_order();
        let ghost t = order@;
        proof {
            lemma_traversal_laws(s, root);
        }
        let mut hidden_ids: Vec<bool> = Vec::new();
        let n = self.arena.len();
        while hidden_ids.len() < n
            invariant
                hidden_ids@.len() <= n,
                forall|k: int| 0 <= k < hidden_ids@.len() ==> !#[trigger] hidden_ids@[k],
            decreases n - hidden_ids@.len(),
        {
            hidden_ids.push(false);
        }
        let mut i: usize = 0;
        while i < order.len()
            invariant
                i <= t.len(),
                t == order@,
                s == self.arena@,
                root == self.root,
                t == traversal(s, root),
                t.len() >= 1,
                t[0] == root,
                t.no_duplicates(),
                forall|p: int| 1 <= p < t.len() ==> #[trigger] parent_listed_before(s, t, p),
                hidden_ids@.len() == s.len(),
                forall|k: int| 0 <= k < s.len() && !(s[k] is Some) ==> !#[trigger] hidden_ids@[k],
                forall|x: NodeId|
                    live(s, x) ==> (#[trigger] hidden_ids@[x.index as int] <==> (t.take(i as int).contains(x)
                        && hidden(s, root, x))),
                buf@.len() == b0.len() + draw_positions(s, root, t, i as int).len(),
                buf@.subrange(0, b0.len() as int) == b0,
                forall|k: int|
                    0 <= k < draw_positions(s, root, t, i as int).len() ==> {
                        let c = #[trigger] buf@[b0.len() + k];
                        let n = node(s, t[draw_positions(s, root, t, i as int)[k]]);
                        &&& draws_node(c, n, layer_of(draw_positions(s, root, t, i as int)[k]))
                        &&& call_ensures(*alpha, (n.visual.color, n.visual.opacity), command_tint(c))
                    },
                alpha_total(*alpha),
            decreases t.len() - i,
        {
            let ghost buf0 = buf@;
            let ghost h0 = hidden_ids@;
            let id = order[i];
            let ghost ps0 = draw_positions(s, root, t, i as int);
            proof {
                assert(t.take(i + 1) =~= t.take(i as int).push(id));
                if i >= 1 {
                    assert(parent_listed_before(s, t, i as int));
                    assert(id != root) by {
                        assert(t[0] == root);
                    }
                }
            }
            if let Some(nd) = self.arena.get(id) {
                let parent_hidden = match nd.parent {
                    Some(p) => p.index < hidden_ids.len() && hidden_ids[p.index],
                    None => false,
                };
                proof {
                    assert(!t.take(i as int).contains(id)) by {
                        if t.take(i as int).contains(id) {
                            let k = choose|k: int| 0 <= k < i && #[trigger] t.take(i as int)[k] == id;
                            assert(t[k] == t[i as int]);
                        }
                    }
                    if i == 0 {
                        if let Some(p) = nd.parent {
                            if p.index < s.len() {
                                if live(s, p) {
                                    assert(!t.take(0).contains(p));
                                    assert(!hidden_ids@[p.index as int]);
                                } else {
                                    assert(!hidden_ids@[p.index as int]);
                                }
                            }
                        }
                        assert(!parent_hidden);
                    } else {
                        let m = choose|m: int|
                            0 <= m < i && node(s, t[i as int]).parent == Some(#[trigger] t[m]) && live(s, t[m])
                                && t[m].index < t[i as int].index;
                        let q = t[m];
                        assert(t.take(i as int)[m] == q);
                        assert(parent_hidden == hidden(s, root, q));
                    }
                    assert(hidden(s, root, id) == (!nd.visual.visible || parent_hidden));
                }
                if !nd.visual.visible || parent_hidden {
                    hidden_ids[id.index] = true;
                } else if i != 0 {
                    let tint = alpha(nd.visual.color, nd.visual.opacity);
                    let layer: u8 = if i < 255 {
                        i as u8
                    } else {
                        255
                    };
                    if let Some(command) = draw_command(nd, layer, tint) {
                        buf.push(command);
                    }
                }
            }
            proof {
                let ps1 = draw_positions(s, root, t, i + 1);
                if drawn(s, root, t, i as int) {
                    assert(ps1 == ps0.push(i as int));
                    assert(buf@ =~= buf0.push(buf@[buf@.len() - 1]));
                } else {
                    assert(ps1 == ps0);
                    assert(buf@ == buf0);
                }
                assert(buf@.subrange(0, b0.len() as int) =~= b0) by {
                    assert(buf@.subrange(0, b0.len() as int) =~= buf0.subrange(0, b0.len() as int));
                }
                assert forall|k: int|
                    0 <= k < ps1.len() implies {
                        let c = #[trigger] buf@[b0.len() + k];
                        let n = node(s, t[ps1[k]]);
                        &&& draws_node(c, n, layer_of(ps1[k]))
                        &&& call_ensures(*alpha, (n.visual.color, n.visual.opacity), command_tint(c))
                    } by {
                    if k < ps0.len() {
                        assert(buf@[b0.len() + k] == buf0[b0.len() + k]);
                        assert(ps1[k] == ps0[k]);
                    }
                }
                assert forall|k: int| 0 <= k < s.len() && !(s[k] is Some) implies !#[trigger] hidden_ids@[k] by {
                    assert(hidden_ids@[k] == h0[k]);
                }
                assert forall|x: NodeId|
                    live(s, x) implies (#[trigger] hidden_ids@[x.index as int] <==> (t.take(i + 1).contains(x)
                        && hidden(s, root, x))) by {
                    if x == id {
                        assert(t.take(i + 1)[i as int] == x);
                    } else {
                        assert(x.index != id.index);
                        assert(hidden_ids@[x.index as int] == h0[x.index as int]);
                        assert(t.take(i + 1).contains(x) == t.take(i as int).contains(x)) by {
                            if t.take(i + 1).contains(x) {
                                let k = choose|k: int| 0 <= k < i + 1 && #[trigger] t.take(i + 1)[k] == x;
                                assert(t.take(i as int)[k] == x);
                            }
                            if t.take(i as int).contains(x) {
                                let k = choose|k: int| 0 <= k < i && #[trigger] t.take(i as int)[k] == x;
                                assert(t.take(i + 1)[k] == x);
                            }
                        }
                    }
                }
            }
            i += 1;
        }
    }

    /// Feeds the pointer to the interactive nodes, topmost first: from the
    /// last entry of the walk back to the first, each live node with
    /// interaction is asked (through `hit`, given `mouse_pos` and the node's
    /// computed position and size) whether the pointer is over it, takes the
    /// matching state (see [`pointed`]) and reports (see [`pointer_report`]).
    /// The first node the pointer is over is the last one reached.
    pub fn process_input<H: Fn(Vec2, Vec2, Vec2) -> bool>(
        &mut self,
        mouse_pos: Vec2,
        mouse_pressed: bool,
        mouse_released: bool,
        hit: &H,
    ) -> (output: Vec<UIOutputEvent>)
        requires
            old(self).wf(),
            hit_total(*hit),
        ensures
            final(self).wf(),
            exists|hs: Seq<bool>|
                {
                    &&& #[trigger] stops_at_first_hit(
                        hs,
                        pointer_candidates(old(self).nodes(), old(self).root_id()).len() as int,
                    )
                    &&& hovers_answered(
                        *hit,
                        mouse_pos,
                        old(self).nodes(),
                        pointer_candidates(old(self).nodes(), old(self).root_id()),
                        hs,
                    )
                    &&& pointer_pass(
                        old(self).nodes(),
                        pointer_candidates(old(self).nodes(), old(self).root_id()),
                        hs,
                        mouse_pressed,
                        mouse_released,
                    ) == (final(self).nodes(), output@)
                },
            final(self).pending() == old(self).pending(),
            final(self).root_id() == old(self).root_id(),
            final(self).engine() == old(self).engine(),
            final(self).screen_w_spec() == old(self).screen_w_spec(),
            final(self).screen_h_spec() == old(self).screen_h_spec(),
    {
        let ghost s0 = self.arena@;
        let ghost root = self.root;
        let order = self.build_traversal_order();
        let ghost t = order@;
        proof {
            lemma_traversal_laws(s0, root);
        }
        let mut output: Vec<UIOutputEvent> = Vec::new();
        let mut i = order.len();
        let mut stopped = false;
        let ghost mut hs: Seq<bool> = Seq::empty();
        while i > 0 && !stopped
            invariant
                i <= t.len(),
                t == order@,
                t == traversal(s0, root),
                t.no_duplicates(),
                root == self.root,
                hs.len() == candidates_from(s0, t, i as int).len(),
                forall|j: int| 0 <= j < hs.len() - 1 ==> !#[trigger] hs[j],
                stopped <==> (hs.len() >= 1 && hs[hs.len() - 1]),
                forall|j: int|
                    0 <= j < hs.len() ==> call_ensures(
                        *hit,
                        (
                            mouse_pos,
                            node(s0, candidates_from(s0, t, i as int)[j]).layout.computed_pos,
                            node(s0, candidates_from(s0, t, i as int)[j]).layout.computed_size,
                        ),
                        #[trigger] hs[j],
                    ),
                pointer_pass(s0, candidates_from(s0, t, i as int), hs, mouse_pressed, mouse_released) == (
                    self.arena@,
                    output@,
                ),
                forall|x: NodeId|
                    #[trigger] live(s0, x) ==> live(self.arena@, x) && node(self.arena@, x).layout == node(s0, x).layout
                        && node(self.arena@, x).children@ == node(s0, x).children@ && node(self.arena@, x).parent == node(
                        s0,
                        x,
                    ).parent && (node(self.arena@, x).interact is Some <==> node(s0, x).interact is Some),
                forall|x: NodeId| #[trigger] live(self.arena@, x) ==> live(s0, x),
                forall|x: NodeId|
                    live(s0, x) && !(exists|p: int| i <= p < t.len() && t[p] == x) ==> #[trigger] node(self.arena@, x)
                        == node(s0, x),
                self.arena@.len() == s0.len(),
                hit_total(*hit),
                self.events@ == old(self).events@,
                self.tween == old(self).tween,
                self.screen_w == old(self).screen_w,
                self.screen_h == old(self).screen_h,
            decreases i,
        {
            i -= 1;
            let id = order[i];
            let ghost s1 = self.arena@;
            let ghost o1 = output@;
            let ghost cs0 = candidates_from(s0, t, i + 1);
            let ghost cs1 = candidates_from(s0, t, i as int);
            let mut info: Option<(Interact, Vec2, Vec2)> = None;
            if let Some(n) = self.arena.get(id) {
                if let Some(it) = n.interact {
                    info = Some((it, n.layout.computed_pos, n.layout.computed_size));
                }
            }
            proof {
                assert(!(exists|p: int| i + 1 <= p < t.len() && t[p] == id)) by {
                    if exists|p: int| i + 1 <= p < t.len() && t[p] == id {
                        let p = choose|p: int| i + 1 <= p < t.len() && t[p] == id;
                        assert(t[p] == t[i as int]);
                    }
                }
                if live(s0, id) {
                    assert(node(s1, id) == node(s0, id));
                }
                if live(s1, id) {
                    assert(live(s0, id));
                }
                assert(info is Some <==> interactive(s0, id));
            }
            if let Some((it, pos, size)) = info {
                let hovered = hit(mouse_pos, pos, size);
                let new_state = if hovered && mouse_pressed {
                    InteractState::Pressed
                } else if hovered {
                    InteractState::Hover
                } else {
                    InteractState::Normal
                };
                if let Some(n) = self.arena.get_mut(id) {
                    if new_state != it.state {
                        n.visual.color = it.style.color_of(new_state);
                        n.dirty.visual_dirty = true;
                    }
                    n.interact = Some(Interact { state: new_state, style: it.style });
                }
                match new_state {
                    InteractState::Pressed => output.push(UIOutputEvent::Clicked { id }),
                    InteractState::Hover => output.push(UIOutputEvent::Hovered { id }),
                    InteractState::Normal => {
                        if it.state == InteractState::Pressed && mouse_released {
                            output.push(UIOutputEvent::Released { id });
                        }
                    },
                }
                proof {
                    let hs1 = hs.push(hovered);
                    assert(cs1 == cs0.push(id));
                    assert(hs1.drop_last() =~= hs);
                    lemma_pointer_pass_prefix(s0, cs0, cs1, hs, mouse_pressed, mouse_released);
                    assert(cs1[hs1.len() - 1] == id);
                    assert(node(s1, id) == node(s0, id));
                    assert(self.arena@ =~= with_node(s1, id, pointed(node(s1, id), hovered, mouse_pressed)));
                    assert(output@ =~= o1 + pointer_report(id, node(s1, id).interact->Some_0.state, hovered, mouse_pressed, mouse_released));
                    assert forall|j: int| 0 <= j < hs1.len() implies call_ensures(
                        *hit,
                        (mouse_pos, node(s0, cs1[j]).layout.computed_pos, node(s0, cs1[j]).layout.computed_size),
                        #[trigger] hs1[j],
                    ) by {
                        if j < hs.len() {
                            assert(cs1[j] == cs0[j]);
                            assert(hs1[j] == hs[j]);
                        }
                    }
                    hs = hs1;
                }
                if hovered {
                    stopped = true;
                }
            } else {
                proof {
                    assert(cs1 == cs0);
                }
            }
            proof {
                let s2 = self.arena@;
                assert forall|x: NodeId| #[trigger] live(s0, x) implies live(s2, x) && node(s2, x).layout == node(s0, x).layout
                    && node(s2, x).children@ == node(s0, x).children@ && node(s2, x).parent == node(s0, x).parent && (node(
                    s2,
                    x,
                ).interact is Some <==> node(s0, x).interact is Some) by {
                    assert(live(s1, x));
                    if x.index != id.index {
                        assert(s2[x.index as int] == s1[x.index as int]);
                    }
                }
                assert forall|x: NodeId| #[trigger] live(s2, x) implies live(s0, x) by {
                    if x.index != id.index {
                        assert(s2[x.index as int] == s1[x.index as int]);
                        assert(live(s1, x));
                        assert(live(s0, x));
                    } else {
                        assert(x == id);
                        assert(live(s1, x));
                        assert(live(s0, x));
                    }
                }
                assert forall|x: NodeId|
                    live(s0, x) && !(exists|p: int| i <= p < t.len() && t[p] == x) implies #[trigger] node(s2, x) == node(
                    s0,
                    x,
                ) by {
                    if x == id {
                        assert(t[i as int] == x);
                    }
                    assert(x.index != id.index);
                    assert(s2[x.index as int] == s1[x.index as int]);
                    assert(!(exists|p: int| i + 1 <= p < t.len() && t[p] == x));
                }
            }
        }
        proof {
            let s2 = self.arena@;
            let cs = candidates_from(s0, t, 0);
            lemma_candidates_prefix(s0, t, 0, i as int);
            lemma_pointer_pass_prefix(s0, candidates_from(s0, t, i as int), cs, hs, mouse_pressed, mouse_released);
            if !stopped {
                assert(i == 0);
            }
            assert forall|j: int|
                0 <= j < hs.len() implies call_ensures(
                *hit,
                (mouse_pos, node(s0, cs[j]).layout.computed_pos, node(s0, cs[j]).layout.computed_size),
                #[trigger] hs[j],
            ) by {
                assert(cs[j] == candidates_from(s0, t, i as int)[j]);
            }
            assert(stops_at_first_hit(hs, cs.len() as int));
            assert(hovers_answered(*hit, mouse_pos, s0, cs, hs));
            assert(cs == pointer_candidates(old(self).nodes(), old(self).root_id()));
            assert(pointer_pass(s0, cs, hs, mouse_pressed, mouse_released) == (self.arena@, output@));
            assert(stops_at_first_hit(hs, pointer_candidates(old(self).nodes(), old(self).root_id()).len() as int));
            assert(same_shape(s0, s2)) by {
                assert forall|x: NodeId| #[trigger] live(s0, x) == live(s2, x) by {
                }
            }
            lemma_same_shape(s0, s2, root);
        }
        output
    }

    /// Makes node `id` react to the pointer with `interact`; does nothing
    /// when `id` names no node.
    pub fn set_interact(&mut self, id: NodeId, interact: Interact)
        requires
            old(self).wf(),
        ensures
            final(self).wf(),
            final(self).nodes() == with_interact(old(self).nodes(), id, interact),
            final(self).pending() == old(self).pending(),
            final(self).root_id() == old(self).root_id(),
            final(self).engine() == old(self).engine(),
            final(self).screen_w_spec() == old(self).screen_w_spec(),
            final(self).screen_h_spec() == old(self).screen_h_spec(),
    {
        let ghost s0 = self.arena@;
        if let Some(node) = self.arena.get_mut(id) {
            node.interact = Some(interact);
        }
        proof {
            let s1 = self.arena@;
            assert(s1 =~= with_interact(s0, id, interact));
            assert(same_shape(s0, s1)) by {
                assert forall|x: NodeId| #[trigger] live(s0, x) == live(s1, x) by {
                    if x.index != id.index && x.index < s0.len() {
                        assert(s1[x.index as int] == s0[x.index as int]);
                    }
                }
                assert forall|x: NodeId| live(s0, x) implies {
                    &&& #[trigger] node(s0, x).children@ == node(s1, x).children@
                    &&& node(s0, x).parent == node(s1, x).parent
                } by {
                    if x.index != id.index {
                        assert(s1[x.index as int] == s0[x.index as int]);
                    }
                }
            }
            lemma_same_shape(s0, s1, self.root);
        }
    }

    /// The interaction state of `id` (`Normal` for a node without
    /// interaction or an id that names no node).
    pub fn get_interact_state(&self, id: NodeId) -> (st: InteractState)
        ensures
            st == interact_state_of(self.nodes(), id),
    {
        match self.arena.get(id) {
            Some(node) => match node.interact {
                Some(interact) => interact.state,
                None => InteractState::Normal,
            },
            None => InteractState::Normal,
        }
    }

    /// Adapts the context to a `width` x `height` screen: the root, when
    /// live, is sized to the whole screen, and the tree is laid out again
    /// (see [`UiContext::resolve_layout`]).
    pub fn resize<F: Fn(Anchor, UiVec2, UiVec2, Vec2, Vec2, Scalar, Scalar) -> (Vec2, Vec2)>(
        &mut self,
        width: Scalar,
        height: Scalar,
        place: &F,
    )
        requires
            old(self).wf(),
            place_total(*place),
        ensures
            final(self).wf(),
            final(self).screen_w_spec() == width,
            final(self).screen_h_spec() == height,
            layout_pass(
                *place,
                with_screen(old(self).nodes(), old(self).root_id(), width, height),
                final(self).nodes(),
                traversal(old(self).nodes(), old(self).root_id()),
                width,
                height,
            ),
            final(self).pending() == old(self).pending(),
            final(self).root_id() == old(self).root_id(),
            final(self).engine() == old(self).engine(),
    {
        let ghost s0 = self.arena@;
        self.screen_w = width;
        self.screen_h = height;
        if let Some(root_node) = self.arena.get_mut(self.root) {
            root_node.layout.size = UiVec2::pixels(width, height);
            root_node.layout.computed_size = Vec2::new(width, height);
        }
        proof {
            let s1 = self.arena@;
            assert(s1 =~= with_screen(s0, self.root, width, height));
            assert(same_shape(s0, s1)) by {
                assert forall|x: NodeId| #[trigger] live(s0, x) == live(s1, x) by {
                    if x.index != self.root.index && x.index < s0.len() {
                        assert(s1[x.index as int] == s0[x.index as int]);
                    }
                }
                assert forall|x: NodeId| live(s0, x) implies {
                    &&& #[trigger] node(s0, x).children@ == node(s1, x).children@
                    &&& node(s0, x).parent == node(s1, x).parent
                } by {
                    if x.index != self.root.index {
                        assert(s1[x.index as int] == s0[x.index as int]);
                    }
                }
            }
            lemma_same_shape(s0, s1, self.root);
        }
        self.resolve_layout(place);
    }

    /// The screen size the context lays out on.
    pub fn size(&self) -> (wh: (Scalar, Scalar))
        ensures
            wh == (self.screen_w_spec(), self.screen_h_spec()),
    {
        (self.screen_w, self.screen_h)
    }

    /// Queues `evs` after the pending edits, in order.
    fn queue_events(&mut self, evs: Vec<UIEvent>)
        ensures
            final(self).pending() == old(self).pending() + evs@,
            final(self).nodes() == old(self).nodes(),
            final(self).root_id() == old(self).root_id(),
            final(self).engine() == old(self).engine(),
            final(self).screen_w_spec() == old(self).screen_w_spec(),
            final(self).screen_h_spec() == old(self).screen_h_spec(),
    {
        let mut evs = evs;
        let ghost all = self.events@ + evs@;
        while evs.len() > 0
            invariant
                self.events@ + evs@ == all,
                self.arena@ == old(self).arena@,
                self.root == old(self).root,
                self.tween == old(self).tween,
                self.screen_w == old(self).screen_w,
                self.screen_h == old(self).screen_h,
            decreases evs@.len(),
        {
            let ghost before = evs@;
            let e = evs.remove(0);
            self.send_event(e);
            assert(self.events@ + evs@ =~= all) by {
                assert(before =~= seq![e] + evs@);
            }
        }
        assert(self.events@ =~= all);
    }

    /// Whether some live node listed in `order` waits for a layout.
    fn needs_layout(&self, order: &Vec<NodeId>) -> (need: bool)
        ensures
            need == layout_wanted(self.nodes(), order@),
    {
        let mut need = false;
        let mut i: usize = 0;
        while i < order.len()
            invariant
                i <= order@.len(),
                need <==> exists|p: int|
                    0 <= p < i && live(self.arena@, #[trigger] order@[p]) && node(self.arena@, order@[p]).dirty.layout_dirty,
            decreases order@.len() - i,
        {
            if let Some(node) = self.arena.get(order[i]) {
                if node.dirty.layout_dirty {
                    need = true;
                }
            }
            i += 1;
        }
        need
    }

    /// Lowers both dirty flags of every live node listed in `order`.
    fn clear_dirty(&mut self, order: &Vec<NodeId>)
        requires
            old(self).wf(),
        ensures
            final(self).wf(),
            dirty_cleared(old(self).nodes(), final(self).nodes(), order@),
            same_shape(old(self).nodes(), final(self).nodes()),
            final(self).pending() == old(self).pending(),
            final(self).root_id() == old(self).root_id(),
            final(self).engine() == old(self).engine(),
            final(self).screen_w_spec() == old(self).screen_w_spec(),
            final(self).screen_h_spec() == old(self).screen_h_spec(),
    {
        let ghost s2 = self.arena@;
        let mut i: usize = 0;
        while i < order.len()
            invariant
                i <= order@.len(),
                self.arena@.len() == s2.len(),
                forall|x: NodeId|
                    x.index < s2.len() ==> #[trigger] slot_cleared(s2, self.arena@, order@.take(i as int), x),
                self.events@ == old(self).events@,
                self.root == old(self).root,
                self.tween == old(self).tween,
                self.screen_w == old(self).screen_w,
                self.screen_h == old(self).screen_h,
            decreases order@.len() - i,
        {
            let ghost cur = self.arena@;
            let id = order[i];
            if let Some(node) = self.arena.get_mut(id) {
                node.dirty.layout_dirty = false;
                node.dirty.visual_dirty = false;
            }
            proof {
                let nxt = self.arena@;
                assert(order@.take(i + 1) =~= order@.take(i as int).push(id));
                assert forall|x: NodeId|
                    x.index < s2.len() implies #[trigger] slot_cleared(s2, nxt, order@.take(i + 1), x) by {
                    assert(slot_cleared(s2, cur, order@.take(i as int), x));
                    if x == id {
                        assert(order@.take(i + 1).contains(x)) by {
                            assert(order@.take(i + 1)[i as int] == x);
                        }
                        if live(s2, x) {
                            if !order@.take(i as int).contains(x) {
                                assert(cur[x.index as int] == s2[x.index as int]);
                            }
                        } else {
                            assert(cur[x.index as int] == s2[x.index as int]);
                        }
                    } else {
                        assert(x.index != id.index);
                        assert(nxt[x.index as int] == cur[x.index as int]);
                        assert(order@.take(i + 1).contains(x) == order@.take(i as int).contains(x)) by {
                            if order@.take(i + 1).contains(x) {
                                let k = choose|k: int| 0 <= k < i + 1 && #[trigger] order@.take(i + 1)[k] == x;
                                assert(k != i);
                                assert(order@.take(i as int)[k] == x);
                            }
                            if order@.take(i as int).contains(x) {
                                let k = choose|k: int| 0 <= k < i && #[trigger] order@.take(i as int)[k] == x;
                                assert(order@.take(i + 1)[k] == x);
                            }
                        }
                    }
                }
            }
            i += 1;
        }
        proof {
            assert(order@.take(order@.len() as int) =~= order@);
            let s3 = self.arena@;
            assert forall|x: NodeId| x.index < s2.len() implies if live(s2, x) && order@.contains(x) {
                #[trigger] s3[x.index as int] == Some(UiNode { dirty: clean_flags(), ..node(s2, x) })
            } else {
                s3[x.index as int] == s2[x.index as int]
            } by {
                assert(slot_cleared(s2, s3, order@, x));
            }
            assert forall|x: NodeId| #[trigger] live(s2, x) == live(s3, x) by {
                if x.index < s2.len() {
                    assert(slot_cleared(s2, s3, order@, x));
                }
            }
            assert forall|x: NodeId| live(s2, x) implies {
                &&& #[trigger] node(s2, x).children@ == node(s3, x).children@
                &&& node(s2, x).parent == node(s3, x).parent
            } by {
                assert(slot_cleared(s2, s3, order@, x));
            }
            lemma_same_shape(s2, s3, self.root);
        }
    }

    /// One frame: advances the tweens by `dt` (see [`TweenEngine::update`]),
    /// queues the edits they produced after those already pending, applies
    /// every queued edit in order, lays the tree out again when a node of the
    /// walk waits for it, and marks every node of the walk clean.
    pub fn update<
        S: Fn(TweenProperty, Easing, Scalar, Scalar, Scalar) -> StepResult,
        F: Fn(Anchor, UiVec2, UiVec2, Vec2, Vec2, Scalar, Scalar) -> (Vec2, Vec2),
    >(&mut self, dt: Scalar, sample: &S, place: &F)
        requires
            old(self).wf(),
            sample_total(*sample),
            place_total(*place),
        ensures
            final(self).wf(),
            exists|rs: Seq<StepResult>|
                {
                    let evs = old(self).pending() + old(self).engine().produced() + all_step_events(
                        old(self).engine().running(),
                        rs,
                    );
                    let s1 = apply_events(old(self).nodes(), evs);
                    &&& sampled(*sample, old(self).engine().running(), rs, dt)
                    &&& #[trigger] engine_step(
                        old(self).engine().running(),
                        rs,
                        final(self).engine().running(),
                        all_step_events(old(self).engine().running(), rs),
                    )
                    &&& settle(
                        *place,
                        s1,
                        final(self).nodes(),
                        traversal(old(self).nodes(), old(self).root_id()),
                        old(self).screen_w_spec(),
                        old(self).screen_h_spec(),
                    )
                },
            final(self).engine().produced() == Seq::<UIEvent>::empty(),
            final(self).pending() == Seq::<UIEvent>::empty(),
            final(self).root_id() == old(self).root_id(),
            final(self).screen_w_spec() == old(self).screen_w_spec(),
            final(self).screen_h_spec() == old(self).screen_h_spec(),
    {
        let ghost s0 = self.arena@;
        let ghost q0 = self.events@;
        let ghost p0 = self.tween.produced();
        let ghost ts0 = self.tween.running();
        self.tween.update(dt, sample);
        let ghost rs = choose|rs: Seq<StepResult>|
            {
                &&& sampled(*sample, ts0, rs, dt)
                &&& #[trigger] engine_step(
                    ts0,
                    rs,
                    self.tween.running(),
                    self.tween.produced().subrange(p0.len() as int, self.tween.produced().len() as int),
                )
            };
        let ghost ts1 = self.tween.running();
        let ghost produced = self.tween.produced();
        assert(produced =~= p0 + all_step_events(ts0, rs));
        let evs = self.tween.drain_events();
        self.queue_events(evs);
        self.process_event();
        let ghost s1 = self.arena@;
        let order = self.build_traversal_order();
        proof {
            lemma_apply_events_shape(s0, q0 + produced);
            lemma_same_shape(s0, s1, self.root);
        }
        let need = self.needs_layout(&order);
        if need {
            self.resolve_layout(place);
        }
        let ghost s2 = self.arena@;
        self.clear_dirty(&order);
        proof {
            let s3 = self.arena@;
            assert(q0 + produced =~= q0 + p0 + all_step_events(ts0, rs));
            if need {
                assert(layout_pass(*place, s1, s2, order@, old(self).screen_w, old(self).screen_h));
            } else {
                assert(s2 == s1);
            }
            assert(settle(*place, s1, s3, order@, old(self).screen_w, old(self).screen_h));
            assert(self.tween.running() == ts1);
            assert(engine_step(ts0, rs, ts1, all_step_events(ts0, rs)));
            let evs = old(self).pending() + old(self).engine().produced() + all_step_events(
                old(self).engine().running(),
                rs,
            );
            assert(evs =~= q0 + produced);
            assert(s1 == apply_events(old(self).nodes(), evs));
            assert(engine_step(
                old(self).engine().running(),
                rs,
                self.engine().running(),
                all_step_events(old(self).engine().running(), rs),
            ));
            assert(sampled(*sample, old(self).engine().running(), rs, dt));
            assert(traversal(old(self).nodes(), old(self).root_id()) == order@);
        }
    }

    /// Adds a node under `parent` and returns its id.
    ///
    /// The node takes `layout`'s anchor, offset and size (its computed
    /// position and size start at zero) and `visual`; it starts without
    /// interaction and without children, with both dirty flags set and
    /// `parent` as its parent.  When `parent` is live, the new id is appended
    /// to its children; otherwise the node is created detached.
    pub fn add_node(&mut self, parent: NodeId, layout: LayoutProps, visual: VisualProps) -> (id: NodeId)
        requires
            old(self).wf(),
        ensures
            final(self).wf(),
            id.index == old(self).nodes().len(),
            final(self).nodes().len() == old(self).nodes().len() + 1,
            live(final(self).nodes(), id),
            ({
                let n = node(final(self).nodes(), id);
                &&& n.layout == spec_layout_new(layout.anchor, layout.offset, layout.size)
                &&& n.visual == visual
                &&& n.interact is None
                &&& n.children@ == Seq::<NodeId>::empty()
                &&& n.parent == Some(parent)
                &&& n.dirty.layout_dirty && n.dirty.visual_dirty
            }),
            live(old(self).nodes(), parent) ==> {
                &&& live(final(self).nodes(), parent)
                &&& same_but_children(node(final(self).nodes(), parent), node(old(self).nodes(), parent))
                &&& node(final(self).nodes(), parent).children@ == node(old(self).nodes(), parent).children@.push(id)
            },
            forall|i: int|
                0 <= i < old(self).nodes().len() && i != parent.index ==> #[trigger] final(self).nodes()[i]
                    == old(self).nodes()[i],
            !live(old(self).nodes(), parent) ==> final(self).nodes().subrange(0, old(self).nodes().len() as int)
                == old(self).nodes(),
            final(self).root_id() == old(self).root_id(),
            final(self).pending() == old(self).pending(),
            final(self).engine() == old(self).engine(),
            final(self).screen_w_spec() == old(self).screen_w_spec(),
            final(self).screen_h_spec() == old(self).screen_h_spec(),
    {
        let ghost s0 = self.arena@;
        let parent_live = self.arena.contains(parent);
        let mut new_ui_node = UiNode::new(layout.anchor, layout.offset, layout.size);
        new_ui_node.visual = visual;
        new_ui_node.parent = Some(parent);
        let id_new_node = self.arena.insert(new_ui_node);
        let ghost s1 = self.arena@;
        if parent_live {
            if let Some(parent_node) = self.arena.get_mut(parent) {
                parent_node.children.push(id_new_node);
            }
        }
        proof {
            let s2 = self.arena@;
            assert(live(s2, id_new_node));
            assert forall|p: NodeId, j: int|
                live(s2, p) && 0 <= j < node(s2, p).children@.len() implies {
                let c = #[trigger] node(s2, p).children@[j];
                &&& live(s2, c)
                &&& p.index < c.index
                &&& node(s2, c).parent == Some(p)
            } by {
                if p == id_new_node {
                    assert(node(s2, p).children@.len() == 0);
                } else if p == parent && parent_live {
                    if j < node(s0, p).children@.len() {
                        assert(node(s2, p).children@[j] == node(s0, p).children@[j]);
                    }
                } else {
                    assert(live(s0, p));
                    assert(node(s2, p) == node(s0, p));
                }
            }
            assert forall|p: NodeId| #[trigger] live(s2, p) implies node(s2, p).children@.no_duplicates() by {
                if p == id_new_node {
                } else if p == parent && parent_live {
                    let l = node(s0, p).children@;
                    assert(live(s0, p));
                    assert(l.no_duplicates());
                    assert(!l.contains(id_new_node)) by {
                        if l.contains(id_new_node) {
                            let j = choose|j: int| 0 <= j < l.len() && l[j] == id_new_node;
                            assert(live(s0, l[j]));
                        }
                    }
                    assert forall|a: int, b: int|
                        0 <= a < l.push(id_new_node).len() && 0 <= b < l.push(id_new_node).len()
                            && a != b implies l.push(id_new_node)[a] != l.push(id_new_node)[b] by {
                        if a < l.len() && b < l.len() {
                        } else if a < l.len() {
                            assert(l.contains(l[a]));
                        } else {
                            assert(l.contains(l[b]));
                        }
                    }
                } else {
                    assert(live(s0, p));
                    assert(node(s2, p) == node(s0, p));
                }
            }
            if !parent_live {
                assert(s2.subrange(0, s0.len() as int) =~= s0);
            }
        }
        id_new_node
    }

    /// Removes node `id`: its parent, when live, stops listing it, and its
    /// slot becomes empty for good.  Its children stay in the arena but are
    /// no longer reachable from any live node.
    pub fn remove_node(&mut self, id: NodeId)
        requires
            old(self).wf(),
        ensures
            final(self).wf(),
            final(self).nodes().len() == old(self).nodes().len(),
            !live(final(self).nodes(), id),
            ({
                let s0 = old(self).nodes();
                let s1 = final(self).nodes();
                forall|q: NodeId|
                    #![trigger live(s1, q)]
                    q != id && q.index < s0.len() ==> if live(s0, id) && node(s0, id).parent == Some(q)
                        && live(s0, q) {
                        &&& live(s1, q)
                        &&& same_but_children(node(s1, q), node(s0, q))
                        &&& node(s1, q).children@ == without(node(s0, q).children@, id)
                    } else {
                        s1[q.index as int] == s0[q.index as int]
                    }
            }),
            final(self).root_id() == old(self).root_id(),
            final(self).pending() == old(self).pending(),
            final(self).engine() == old(self).engine(),
            final(self).screen_w_spec() == old(self).screen_w_spec(),
            final(self).screen_h_spec() == old(self).screen_h_spec(),
    {
        let ghost s0 = self.arena@;
        let mut parent_id: Option<NodeId> = None;
        if let Some(node) = self.arena.get(id) {
            parent_id = node.parent;
        }
        if let Some(pid) = parent_id {
            if let Some(parent) = self.arena.get_mut(pid) {
                remove_child(&mut parent.children, id);
            }
        }
        let ghost s1 = self.arena@;
        self.arena.remove(id);
        proof {
            let s2 = self.arena@;
            let listed = live(s0, id) && node(s0, id).parent.is_some() && live(s0, node(s0, id).parent.unwrap());
            if listed {
                let pid = node(s0, id).parent.unwrap();
                lemma_without(node(s0, pid).children@, id);
            }
            // only the parent of `id` can list it
            assert forall|p: NodeId, j: int|
                live(s0, p) && 0 <= j < node(s0, p).children@.len() && node(s0, p).children@[j] == id
                    implies listed && node(s0, id).parent == Some(p) by {
                assert(node(s0, node(s0, p).children@[j]).parent == Some(p));
            }
            assert forall|p: NodeId, j: int|
                live(s2, p) && 0 <= j < node(s2, p).children@.len() implies {
                let c = #[trigger] node(s2, p).children@[j];
                &&& live(s2, c)
                &&& p.index < c.index
                &&& node(s2, c).parent == Some(p)
            } by {
                let c = node(s2, p).children@[j];
                if listed && Some(p) == node(s0, id).parent {
                    assert(node(s2, p).children@.contains(c));
                    let jj = choose|jj: int| 0 <= jj < node(s0, p).children@.len() && node(s0, p).children@[jj] == c;
                    assert(node(s0, p).children@[jj] == c);
                    assert(c != id);
                } else {
                    assert(node(s2, p) == node(s0, p));
                    assert(node(s0, p).children@[j] == c);
                    if c == id {
                        assert(listed && node(s0, id).parent == Some(p));
                    }
                }
            }
            assert forall|p: NodeId| #[trigger] live(s2, p) implies node(s2, p).children@.no_duplicates() by {
                assert(live(s0, p));
                if listed && Some(p) == node(s0, id).parent {
                } else {
                    assert(node(s2, p) == node(s0, p));
                }
            }
        }
    }
}

} // verus!
