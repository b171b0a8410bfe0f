//! Properties of the library that span several operations, proved over the
//! models that the operations' contracts use.

use vstd::prelude::*;

use crate::NodeId;
use crate::context::{UiContext, clean_flags, dirty_cleared, layout_wanted, lemma_without, settle, without};
use crate::draw::{layer_of, command_layer, draws_node, drawn, hidden, DrawCommand};
use crate::event::{apply_event, apply_events, UIEvent};
use crate::input::{interactive, interact_state_of, pointer_pass, pointer_report, pointer_state, stops_at_first_hit, with_interact, Interact, InteractState};
use crate::layout::{after_first, laid_out, layout_pass, only_computed_changed, same_but_computed};
use crate::node::{Anchor, UiNode, UiUnit, UiVec2, VisualKind};
use crate::output::UIOutputEvent;
use crate::primitives::{Color, MaterialId, Scalar, TextureId, Vec2};
use crate::tree::{
    lemma_same_shape, lemma_traversal_laws, live, node, parent_listed_before, same_shape, traversal,
    tree_wf, Nodes,
};
use crate::tween::{kept_positions, step_events, stays, StepResult, Tween, TweenProperty, TweenSample};

verus! {

/// Removing a freshly added node gives its parent back its children list:
/// the new id (one past every slot) is not listed yet, so dropping it from
/// the list it was appended to restores the list.
pub proof fn law_remove_undoes_add(s: Nodes, parent: NodeId, id: NodeId)
    requires
        tree_wf(s),
        live(s, parent),
        id.index == s.len(),
    ensures
        without(node(s, parent).children@.push(id), id) == node(s, parent).children@,
{
    let l = node(s, parent).children@;
    assert(!l.contains(id)) by {
        if l.contains(id) {
            let j = choose|j: int| 0 <= j < l.len() && l[j] == id;
            assert(live(s, l[j]));
        }
    }
    lemma_without(l, id);
    assert(l.push(id).drop_last() =~= l);
    assert(without(l.push(id), id) == without(l, id));
}

/// Edits apply in the order they were sent: applying `a` then `b` is
/// applying `a + b`.
pub proof fn law_edits_apply_in_order(s: Nodes, a: Seq<UIEvent>, b: Seq<UIEvent>)
    ensures
        apply_events(s, a + b) == apply_events(apply_events(s, a), b),
    decreases a.len(),
{
    if a.len() > 0 {
        assert((a + b).drop_first() =~= a.drop_first() + b);
        assert((a + b)[0] == a[0]);
        law_edits_apply_in_order(apply_event(s, a[0]), a.drop_first(), b);
    } else {
        assert(a + b =~= b);
    }
}

/// The node an edit is aimed at.
pub open spec fn event_target(e: UIEvent) -> NodeId {
    match e {
        UIEvent::SetColor { target, .. } => target,
        UIEvent::SetOpacity { target, .. } => target,
        UIEvent::SetVisible { target, .. } => target,
        UIEvent::SetPosition { target, .. } => target,
        UIEvent::SetSize { target, .. } => target,
        UIEvent::SetMaterial { target, .. } => target,
        UIEvent::SetText { target, .. } => target,
    }
}

/// An edit aimed at a node that does not exist (or no longer does) changes
/// nothing.
pub proof fn law_edit_of_missing_node_is_ignored(s: Nodes, e: UIEvent)
    requires
        !live(s, event_target(e)),
    ensures
        apply_event(s, e) == s,
{
}

/// An edit touches its target only: every other slot keeps its node.
pub proof fn law_edit_touches_only_its_target(s: Nodes, e: UIEvent, x: NodeId)
    requires
        x != event_target(e),
        x.index < s.len(),
    ensures
        apply_event(s, e)[x.index as int] == s[x.index as int],
        apply_event(s, e).len() == s.len(),
{
}

/// Reading the interaction state of a node gives back the state that was
/// last attached to it; attaching to one node leaves the others alone.
pub proof fn law_interact_read_after_write(s: Nodes, id: NodeId, interact: Interact, other: NodeId)
    requires
        live(s, id),
        other != id,
    ensures
        interact_state_of(with_interact(s, id, interact), id) == interact.state,
        interact_state_of(with_interact(s, id, interact), other) == interact_state_of(s, other),
{
    let s2 = with_interact(s, id, interact);
    if other.index < s.len() {
        assert(other.index != id.index);
        assert(s2[other.index as int] == s[other.index as int]);
    }
}

/// Pointer reports: every report but the last is a release, and when the
/// pointer is over none of the nodes it reached, all of them are.  So at
/// most one node, the topmost one under the pointer, is reported hovered
/// or clicked.
pub proof fn law_only_topmost_is_hovered(
    s: Nodes,
    cs: Seq<NodeId>,
    hs: Seq<bool>,
    pressed: bool,
    released: bool,
)
    requires
        stops_at_first_hit(hs, cs.len() as int),
    ensures
        ({
            let out = pointer_pass(s, cs, hs, pressed, released).1;
            &&& forall|k: int| 0 <= k < out.len() - 1 ==> #[trigger] out[k] is Released
            &&& (hs.len() == 0 || !hs[hs.len() - 1]) ==> forall|k: int| 0 <= k < out.len() ==> #[trigger] out[k] is Released
        }),
{
    if hs.len() > 0 {
        let pre = hs.drop_last();
        assert forall|j: int| 0 <= j < pre.len() implies !#[trigger] pre[j] by {
            assert(pre[j] == hs[j]);
        }
        lemma_misses_report_releases(s, cs, pre, pressed, released);
        let (s1, o1) = pointer_pass(s, cs, pre, pressed, released);
        let x = cs[hs.len() - 1];
        let h = hs[hs.len() - 1];
        let r = pointer_report(x, node(s1, x).interact->Some_0.state, h, pressed, released);
        let out = pointer_pass(s, cs, hs, pressed, released).1;
        assert(out == o1 + r);
        assert(r.len() <= 1);
        assert forall|k: int| 0 <= k < out.len() - 1 implies #[trigger] out[k] is Released by {
            assert(out[k] == o1[k]);
        }
        if !h {
            assert forall|k: int| 0 <= k < out.len() implies #[trigger] out[k] is Released by {
                if k < o1.len() {
                    assert(out[k] == o1[k]);
                } else {
                    assert(out[k] == r[k - o1.len()]);
                }
            }
        }
    }
}

proof fn lemma_misses_report_releases(s: Nodes, cs: Seq<NodeId>, hs: Seq<bool>, pressed: bool, released: bool)
    requires
        forall|j: int| 0 <= j < hs.len() ==> !#[trigger] hs[j],
    ensures
        forall|k: int|
            0 <= k < pointer_pass(s, cs, hs, pressed, released).1.len() ==> #[trigger] pointer_pass(
                s,
                cs,
                hs,
                pressed,
                released,
            ).1[k] is Released,
    decreases hs.len(),
{
    if hs.len() > 0 {
        let pre = hs.drop_last();
        assert forall|j: int| 0 <= j < pre.len() implies !#[trigger] pre[j] by {
            assert(pre[j] == hs[j]);
        }
        lemma_misses_report_releases(s, cs, pre, pressed, released);
        let (s1, o1) = pointer_pass(s, cs, pre, pressed, released);
        let x = cs[hs.len() - 1];
        let r = pointer_report(x, node(s1, x).interact->Some_0.state, false, pressed, released);
        assert(!hs[hs.len() - 1]);
        assert(pointer_state(false, pressed) == InteractState::Normal);
        let out = pointer_pass(s, cs, hs, pressed, released).1;
        assert(out == o1 + r);
        assert forall|k: int| 0 <= k < out.len() implies #[trigger] out[k] is Released by {
            if k < o1.len() {
                assert(out[k] == o1[k]);
            } else {
                assert(out[k] == r[k - o1.len()]);
            }
        }
    }
}

/// After an update every live node of the walk is clean.
pub proof fn law_update_leaves_walk_clean<F: Fn(Anchor, UiVec2, UiVec2, Vec2, Vec2, Scalar, Scalar) -> (Vec2, Vec2)>(
    place: F,
    s1: Nodes,
    s2: Nodes,
    t: Seq<NodeId>,
    w: Scalar,
    h: Scalar,
    x: NodeId,
)
    requires
        settle(place, s1, s2, t, w, h),
        live(s2, x),
        t.contains(x),
    ensures
        node(s2, x).dirty == clean_flags(),
{
    if layout_wanted(s1, t) {
        let mid = choose|mid: Nodes| #[trigger] layout_pass(place, s1, mid, t, w, h) && dirty_cleared(mid, s2, t);
        assert(x.index < mid.len());
        assert(mid[x.index as int] is Some <==> s1[x.index as int] is Some);
        if !live(mid, x) {
            assert(s2[x.index as int] == mid[x.index as int]);
        }
    } else {
        if !live(s1, x) {
            assert(s2[x.index as int] == s1[x.index as int]);
        }
    }
}

/// A hidden node hides its children: a live child that names it as parent
/// (and so comes after it, with a larger id) is hidden too.  A drawn node is
/// visible and its parent is not hidden.
pub proof fn law_hidden_subtree(s: Nodes, root: NodeId, q: NodeId, x: NodeId, t: Seq<NodeId>, p: int)
    requires
        live(s, x),
        x != root,
        node(s, x).parent == Some(q),
        q.index < x.index,
    ensures
        hidden(s, root, q) ==> hidden(s, root, x),
        drawn(s, root, t, p) && t[p] == x ==> node(s, x).visual.visible && !hidden(s, root, q),
{
}

/// A step of the tweens keeps exactly the unfinished ones, in their order:
/// the kept positions increase, each names a tween that stays, and every
/// tween that stays is kept.  A tween that finishes (or had finished) is
/// dropped, so its completion edits are queued once.
pub proof fn law_tweens_kept_in_order(ts: Seq<Tween>, rs: Seq<StepResult>)
    requires
        rs.len() == ts.len(),
    ensures
        ({
            let k = kept_positions(ts, rs);
            &&& forall|a: int, b: int| 0 <= a < b < k.len() ==> k[a] < k[b]
            &&& forall|j: int| 0 <= j < k.len() ==> 0 <= #[trigger] k[j] < ts.len() && stays(ts[k[j]], rs[k[j]])
            &&& forall|i: int| 0 <= i < ts.len() && #[trigger] stays(ts[i], rs[i]) ==> k.contains(i)
        }),
    decreases ts.len(),
{
    if ts.len() > 0 {
        let n = ts.len() - 1;
        law_tweens_kept_in_order(ts.drop_last(), rs.drop_last());
        let k0 = kept_positions(ts.drop_last(), rs.drop_last());
        let k = kept_positions(ts, rs);
        assert forall|j: int| 0 <= j < k.len() implies 0 <= #[trigger] k[j] < ts.len() && stays(ts[k[j]], rs[k[j]]) by {
            if j < k0.len() {
                assert(k[j] == k0[j]);
                assert(stays(ts.drop_last()[k0[j]], rs.drop_last()[k0[j]]));
            }
        }
        assert forall|a: int, b: int| 0 <= a < b < k.len() implies k[a] < k[b] by {
            if b < k0.len() {
                assert(k[a] == k0[a] && k[b] == k0[b]);
            } else {
                assert(k[a] == k0[a]);
                assert(k0[a] < ts.drop_last().len());
            }
        }
        assert forall|i: int| 0 <= i < ts.len() && #[trigger] stays(ts[i], rs[i]) implies k.contains(i) by {
            if i < n {
                assert(ts.drop_last()[i] == ts[i] && rs.drop_last()[i] == rs[i]);
                assert(stays(ts.drop_last()[i], rs.drop_last()[i]));
                assert(k0.contains(i));
                let j = choose|j: int| 0 <= j < k0.len() && k0[j] == i;
                assert(k[j] == i);
            } else {
                assert(k[k.len() - 1] == i);
            }
        }
    }
}

/// `place` gives one answer per question.
pub open spec fn place_deterministic<F: Fn(Anchor, UiVec2, UiVec2, Vec2, Vec2, Scalar, Scalar) -> (Vec2, Vec2)>(place: F) -> bool {
    forall|a: Anchor, o: UiVec2, z: UiVec2, pp: Vec2, ps: Vec2, w: Scalar, h: Scalar, r1: (Vec2, Vec2), r2: (Vec2, Vec2)|
        #![trigger call_ensures(place, (a, o, z, pp, ps, w, h), r1), call_ensures(place, (a, o, z, pp, ps, w, h), r2)]
        call_ensures(place, (a, o, z, pp, ps, w, h), r1) && call_ensures(place, (a, o, z, pp, ps, w, h), r2) ==> r1 == r2
}

/// `s1` and `s2` hold the same nodes in the same slots: the same ids are
/// live, and live nodes agree on every field (children lists by content).
pub open spec fn same_slots(s1: Nodes, s2: Nodes) -> bool {
    &&& s1.len() == s2.len()
    &&& forall|x: NodeId| #[trigger] live(s1, x) <==> live(s2, x)
    &&& forall|x: NodeId|
        #[trigger] live(s1, x) ==> same_but_computed(node(s1, x), node(s2, x)) && node(s1, x).layout == node(
            s2,
            x,
        ).layout
}

proof fn lemma_only_computed_same_shape(s1: Nodes, s2: Nodes)
    requires
        only_computed_changed(s1, s2),
    ensures
        same_shape(s1, s2),
        forall|x: NodeId| #[trigger] live(s1, x) ==> same_but_computed(node(s1, x), node(s2, x)),
{
    assert forall|x: NodeId| #[trigger] live(s1, x) == live(s2, x) by {
        if x.index < s1.len() {
            assert(s1[x.index as int] is Some <==> s2[x.index as int] is Some);
        }
    }
    assert forall|x: NodeId| #[trigger] live(s1, x) implies same_but_computed(node(s1, x), node(s2, x)) by {
        assert(s1[x.index as int] is Some);
    }
    assert forall|x: NodeId| live(s1, x) implies {
        &&& #[trigger] node(s1, x).children@ == node(s2, x).children@
        &&& node(s1, x).parent == node(s2, x).parent
    } by {
        assert(same_but_computed(node(s1, x), node(s2, x)));
    }
}

proof fn lemma_second_pass_keeps_walk<F: Fn(Anchor, UiVec2, UiVec2, Vec2, Vec2, Scalar, Scalar) -> (Vec2, Vec2)>(
    place: F,
    s0: Nodes,
    s1: Nodes,
    s2: Nodes,
    t: Seq<NodeId>,
    w: Scalar,
    h: Scalar,
    n: int,
)
    requires
        place_deterministic(place),
        only_computed_changed(s0, s1),
        only_computed_changed(s1, s2),
        t.len() >= 1,
        t.no_duplicates(),
        forall|p: int| 1 <= p < t.len() ==> #[trigger] parent_listed_before(s0, t, p),
        forall|p: int| 1 <= p < t.len() ==> #[trigger] laid_out(place, s1, t[p], w, h),
        forall|p: int| 1 <= p < t.len() ==> #[trigger] laid_out(place, s2, t[p], w, h),
        forall|x: NodeId|
            live(s1, x) && !after_first(t, x) ==> #[trigger] node(s2, x).layout == node(s1, x).layout,
        n <= t.len(),
    ensures
        forall|p: int| 0 <= p < n && live(s1, t[p]) ==> #[trigger] node(s2, t[p]).layout == node(s1, t[p]).layout,
    decreases n,
{
    if n > 0 {
        lemma_second_pass_keeps_walk(place, s0, s1, s2, t, w, h, n - 1);
        lemma_only_computed_same_shape(s0, s1);
        lemma_only_computed_same_shape(s1, s2);
        let p = n - 1;
        let x = t[p];
        if p == 0 {
            if live(s1, x) {
                assert(!after_first(t, x)) by {
                    if after_first(t, x) {
                        let q = choose|q: int| 1 <= q < t.len() && t[q] == x;
                        assert(t[q] == t[0]);
                    }
                }
            }
        } else {
            assert(parent_listed_before(s0, t, p));
            let m = choose|m: int|
                0 <= m < p && node(s0, t[p]).parent == Some(#[trigger] t[m]) && live(s0, t[m]) && t[m].index
                    < t[p].index;
            let q = t[m];
            assert(live(s1, q) && live(s1, x));
            assert(node(s2, q).layout == node(s1, q).layout);
            assert(same_but_computed(node(s1, x), node(s2, x)));
            assert(same_but_computed(node(s0, x), node(s1, x)));
            assert(laid_out(place, s1, x, w, h));
            assert(laid_out(place, s2, x, w, h));
            let n1 = node(s1, x);
            let n2 = node(s2, x);
            let p1 = node(s1, n1.parent->Some_0);
            let p2 = node(s2, n2.parent->Some_0);
            assert(n1.parent == Some(q));
            assert(call_ensures(
                place,
                (n1.layout.anchor, n1.layout.offset, n1.layout.size, p1.layout.computed_pos, p1.layout.computed_size, w, h),
                (n1.layout.computed_pos, n1.layout.computed_size),
            ));
            assert(call_ensures(
                place,
                (n1.layout.anchor, n1.layout.offset, n1.layout.size, p1.layout.computed_pos, p1.layout.computed_size, w, h),
                (n2.layout.computed_pos, n2.layout.computed_size),
            ));
        }
    }
}

/// Laying out twice is laying out once: for a placement with one answer per
/// question, a second pass right after a first changes nothing.
pub proof fn law_layout_idempotent<F: Fn(Anchor, UiVec2, UiVec2, Vec2, Vec2, Scalar, Scalar) -> (Vec2, Vec2)>(
    place: F,
    s0: Nodes,
    s1: Nodes,
    s2: Nodes,
    root: NodeId,
    w: Scalar,
    h: Scalar,
)
    requires
        tree_wf(s0),
        place_deterministic(place),
        layout_pass(place, s0, s1, traversal(s0, root), w, h),
        layout_pass(place, s1, s2, traversal(s1, root), w, h),
    ensures
        same_slots(s1, s2),
{
    lemma_only_computed_same_shape(s0, s1);
    lemma_only_computed_same_shape(s1, s2);
    lemma_same_shape(s0, s1, root);
    lemma_traversal_laws(s0, root);
    let t = traversal(s0, root);
    lemma_second_pass_keeps_walk(place, s0, s1, s2, t, w, h, t.len() as int);
    assert forall|x: NodeId|
        #[trigger] live(s1, x) implies same_but_computed(node(s1, x), node(s2, x)) && node(s1, x).layout == node(
        s2,
        x,
    ).layout by {
        if after_first(t, x) {
            let p = choose|p: int| 1 <= p < t.len() && t[p] == x;
            assert(node(s2, t[p]).layout == node(s1, t[p]).layout);
        }
    }
}

/// The screen size of a context.
pub open spec fn screen_of(c: UiContext) -> (Scalar, Scalar) {
    (c.screen_w_spec(), c.screen_h_spec())
}

/// One call on a context, as far as the screen size goes: `Some((w, h))`
/// for `resize(w, h, ..)`, `None` for any other operation.  Every
/// operation's contract gives this step: `resize` sets the size to its
/// arguments and every other operation keeps it.
pub open spec fn screen_step(before: UiContext, call: Option<(Scalar, Scalar)>, after: UiContext) -> bool {
    match call {
        Some(wh) => screen_of(after) == wh,
        None => screen_of(after) == screen_of(before),
    }
}

/// The screen size after `calls`, starting from `start`: the arguments of the
/// last resize, or `start` when there was none.
pub open spec fn screen_after(start: (Scalar, Scalar), calls: Seq<Option<(Scalar, Scalar)>>) -> (Scalar, Scalar)
    decreases calls.len(),
{
    if calls.len() == 0 {
        start
    } else {
        match calls.last() {
            Some(wh) => wh,
            None => screen_after(start, calls.drop_last()),
        }
    }
}

/// The screen size changes only on `resize`: after a context is made for a
/// `w` x `h` screen and any sequence of calls follows, `size()` reports the
/// arguments of the last `resize`, or `(w, h)` when there was none.
pub proof fn law_size_is_last_resize(ctxs: Seq<UiContext>, calls: Seq<Option<(Scalar, Scalar)>>, w: Scalar, h: Scalar)
    requires
        ctxs.len() == calls.len() + 1,
        screen_of(ctxs[0]) == (w, h),
        forall|i: int| 0 <= i < calls.len() ==> #[trigger] screen_step(ctxs[i], calls[i], ctxs[i + 1]),
    ensures
        screen_of(ctxs.last()) == screen_after((w, h), calls),
    decreases calls.len(),
{
    if calls.len() > 0 {
        let n = calls.len() - 1;
        let c1 = ctxs.drop_last();
        let k1 = calls.drop_last();
        assert forall|i: int| 0 <= i < k1.len() implies #[trigger] screen_step(c1[i], k1[i], c1[i + 1]) by {
            assert(screen_step(ctxs[i], calls[i], ctxs[i + 1]));
        }
        law_size_is_last_resize(c1, k1, w, h);
        assert(screen_step(ctxs[n], calls[n], ctxs[n + 1]));
        assert(c1.last() == ctxs[n]);
    }
}

/// A command drawn for a node carries that node's computed rectangle and
/// the layer it was drawn on, and its kind and data follow the node's visual
/// kind: a rectangle for a rectangle, the same texture, material, uniform
/// data, margins, text and font size.
pub proof fn law_command_carries_node(c: DrawCommand, n: UiNode, layer: u8)
    requires
        draws_node(c, n, layer),
    ensures
        command_layer(c) == layer,
        match c {
            DrawCommand::Rect { pos, size, .. } => n.visual.kind == VisualKind::Rect && pos
                == n.layout.computed_pos && size == n.layout.computed_size,
            DrawCommand::Texture { texture_id, pos, size, .. } => n.visual.kind == VisualKind::Texture {
                id: texture_id,
            } && pos == n.layout.computed_pos && size == n.layout.computed_size,
            DrawCommand::Material { material_id, texture_id, pos, size, uniform_data, .. } => n.visual.kind is Material
                && n.visual.kind->material_id == material_id && n.visual.kind->Material_texture_id == texture_id
                && n.visual.kind->uniform_data@ == uniform_data@ && pos == n.layout.computed_pos && size
                == n.layout.computed_size,
            DrawCommand::NinePatch { texture_id, pos, size, margins, .. } => n.visual.kind
                == VisualKind::NinePatch { id: texture_id, margins } && pos == n.layout.computed_pos && size
                == n.layout.computed_size,
            DrawCommand::Text { text, pos, font_size, .. } => n.visual.kind is Text && n.visual.kind->content@
                == text@ && n.visual.kind->Text_font_size == font_size && pos == n.layout.computed_pos,
        },
{
}

/// What the pointer reports is what happened to it: a click only while the
/// button is held, a hover only while it is not, and a release only when the
/// button was just released over a node that was pressed before the pass.
pub proof fn law_pointer_reports_match_the_button(
    s: Nodes,
    cs: Seq<NodeId>,
    hs: Seq<bool>,
    pressed: bool,
    released: bool,
)
    requires
        cs.no_duplicates(),
        hs.len() <= cs.len(),
        forall|j: int| 0 <= j < cs.len() ==> #[trigger] interactive(s, cs[j]),
    ensures
        forall|k: int|
            0 <= k < pointer_pass(s, cs, hs, pressed, released).1.len() ==> match #[trigger] pointer_pass(
                s,
                cs,
                hs,
                pressed,
                released,
            ).1[k] {
                UIOutputEvent::Clicked { .. } => pressed,
                UIOutputEvent::Hovered { .. } => !pressed,
                UIOutputEvent::Released { id } => released && interact_state_of(s, id) == InteractState::Pressed,
            },
    decreases hs.len(),
{
    if hs.len() > 0 {
        let pre = hs.drop_last();
        law_pointer_reports_match_the_button(s, cs, pre, pressed, released);
        assert forall|j: int| 0 <= j < cs.len() implies #[trigger] cs[j].index < s.len() by {
            assert(interactive(s, cs[j]));
        }
        lemma_pointer_pass_frame(s, cs, pre, pressed, released);
        let (s1, o1) = pointer_pass(s, cs, pre, pressed, released);
        let x = cs[hs.len() - 1];
        let h = hs[hs.len() - 1];
        assert(interactive(s, x));
        assert(!cs.take(pre.len() as int).contains(x)) by {
            if cs.take(pre.len() as int).contains(x) {
                let j = choose|j: int| 0 <= j < pre.len() && #[trigger] cs.take(pre.len() as int)[j] == x;
                assert(cs[j] == cs[hs.len() - 1]);
            }
        }
        assert(s1[x.index as int] == s[x.index as int]);
        let r = pointer_report(x, node(s1, x).interact->Some_0.state, h, pressed, released);
        let out = pointer_pass(s, cs, hs, pressed, released).1;
        assert(out == o1 + r);
        assert forall|k: int| 0 <= k < out.len() implies match #[trigger] out[k] {
            UIOutputEvent::Clicked { .. } => pressed,
            UIOutputEvent::Hovered { .. } => !pressed,
            UIOutputEvent::Released { id } => released && interact_state_of(s, id) == InteractState::Pressed,
        } by {
            if k < o1.len() {
                assert(out[k] == o1[k]);
            } else {
                assert(out[k] == r[k - o1.len()]);
            }
        }
    }
}

/// A pointer pass touches only the candidates it reached.
proof fn lemma_pointer_pass_frame(s: Nodes, cs: Seq<NodeId>, hs: Seq<bool>, pressed: bool, released: bool)
    requires
        hs.len() <= cs.len(),
        forall|j: int| 0 <= j < cs.len() ==> #[trigger] cs[j].index < s.len(),
    ensures
        pointer_pass(s, cs, hs, pressed, released).0.len() == s.len(),
        forall|y: NodeId|
            y.index < s.len() && !cs.take(hs.len() as int).contains(y) ==> #[trigger] pointer_pass(
                s,
                cs,
                hs,
                pressed,
                released,
            ).0[y.index as int] == s[y.index as int],
    decreases hs.len(),
{
    if hs.len() > 0 {
        let pre = hs.drop_last();
        lemma_pointer_pass_frame(s, cs, pre, pressed, released);
        let x = cs[hs.len() - 1];
        assert forall|y: NodeId|
            y.index < s.len() && !cs.take(hs.len() as int).contains(y) implies #[trigger] pointer_pass(
            s,
            cs,
            hs,
            pressed,
            released,
        ).0[y.index as int] == s[y.index as int] by {
            assert(cs.take(hs.len() as int)[hs.len() - 1] == x);
            assert(y != x);
            assert(!cs.take(pre.len() as int).contains(y)) by {
                if cs.take(pre.len() as int).contains(y) {
                    let j = choose|j: int| 0 <= j < pre.len() && #[trigger] cs.take(pre.len() as int)[j] == y;
                    assert(cs.take(hs.len() as int)[j] == y);
                }
            }
        }
    }
}

/// The edits one step of a tween queues: nothing once it has finished;
/// otherwise its completion edits first when the step finishes it, then one
/// edit aimed at its node that carries the sampled value into the animated
/// property, unchanged and axis for axis (a position or size as pixels
/// `(p.x, p.y)`), and no edit when the sample is not a value of that
/// property.
pub proof fn law_tween_step_edits(tw: Tween, r: StepResult)
    ensures
        tw.done ==> step_events(tw, r).len() == 0,
        !tw.done ==> {
            let done_edits = if r.1 {
                tw.on_complete@
            } else {
                Seq::empty()
            };
            let e = step_events(tw, r);
            &&& e.len() >= done_edits.len()
            &&& e.subrange(0, done_edits.len() as int) == done_edits
            &&& match (tw.property, r.2) {
                (TweenProperty::Position { .. }, TweenSample::Vector(p)) => e.len() == done_edits.len() + 1
                    && (e.last() matches UIEvent::SetPosition { target, offset } && target == tw.target
                    && offset.x == UiUnit::Pixels(p.x) && offset.y == UiUnit::Pixels(p.y)),
                (TweenProperty::Size { .. }, TweenSample::Vector(p)) => e.len() == done_edits.len() + 1
                    && (e.last() matches UIEvent::SetSize { target, size } && target == tw.target
                    && size.x == UiUnit::Pixels(p.x) && size.y == UiUnit::Pixels(p.y)),
                (TweenProperty::Opacity { .. }, TweenSample::Number(o)) => e.len() == done_edits.len() + 1
                    && (e.last() matches UIEvent::SetOpacity { target, opacity } && target == tw.target
                    && opacity == o),
                (TweenProperty::Color { .. }, TweenSample::Tint(c)) => e.len() == done_edits.len() + 1
                    && (e.last() matches UIEvent::SetColor { target, color } && target == tw.target && color
                    == c),
                _ => e.len() == done_edits.len(),
            }
        },
{
    if !tw.done {
        let done_edits = if r.1 {
            tw.on_complete@
        } else {
            Seq::<UIEvent>::empty()
        };
        assert(step_events(tw, r).subrange(0, done_edits.len() as int) =~= done_edits);
    }
}

/// Moving or resizing a live node marks its layout dirty; the mark stays
/// through any later edit, so after a queue of edits holding such an edit
/// the node waits for a layout.
pub proof fn law_layout_edit_marks_dirty(s: Nodes, evs: Seq<UIEvent>, i: int)
    requires
        0 <= i < evs.len(),
        evs[i] is SetPosition || evs[i] is SetSize,
        live(s, event_target(evs[i])),
    ensures
        live(apply_events(s, evs), event_target(evs[i])),
        node(apply_events(s, evs), event_target(evs[i])).dirty.layout_dirty,
    decreases evs.len(),
{
    let x = event_target(evs[i]);
    let s1 = apply_event(s, evs[0]);
    let rest = evs.drop_first();
    assert(live(s1, x));
    if i == 0 {
        assert(node(s1, x).dirty.layout_dirty);
        lemma_edits_keep_layout_dirty(s1, rest, x);
    } else {
        assert(rest[i - 1] == evs[i]);
        law_layout_edit_marks_dirty(s1, rest, i - 1);
    }
}

proof fn lemma_edits_keep_layout_dirty(s: Nodes, evs: Seq<UIEvent>, x: NodeId)
    requires
        live(s, x),
        node(s, x).dirty.layout_dirty,
    ensures
        live(apply_events(s, evs), x),
        node(apply_events(s, evs), x).dirty.layout_dirty,
    decreases evs.len(),
{
    if evs.len() > 0 {
        let s1 = apply_event(s, evs[0]);
        if x.index != event_target(evs[0]).index {
            assert(s1[x.index as int] == s[x.index as int]);
        }
        lemma_edits_keep_layout_dirty(s1, evs.drop_first(), x);
    }
}

/// Moving a live node sets its offset and marks its layout dirty, and
/// changes nothing else of it; resizing does the same with its size.
pub proof fn law_move_and_resize_edits(s: Nodes, target: NodeId, v: UiVec2)
    requires
        live(s, target),
    ensures
        ({
            let n = node(s, target);
            let m = node(apply_event(s, UIEvent::SetPosition { target, offset: v }), target);
            &&& live(apply_event(s, UIEvent::SetPosition { target, offset: v }), target)
            &&& m.layout.offset == v && m.layout.anchor == n.layout.anchor && m.layout.size == n.layout.size
            &&& m.layout.computed_pos == n.layout.computed_pos && m.layout.computed_size == n.layout.computed_size
            &&& m.dirty.layout_dirty && m.dirty.visual_dirty == n.dirty.visual_dirty
            &&& m.visual == n.visual && m.interact == n.interact && m.parent == n.parent
            &&& m.children@ == n.children@
        }),
        ({
            let n = node(s, target);
            let m = node(apply_event(s, UIEvent::SetSize { target, size: v }), target);
            &&& live(apply_event(s, UIEvent::SetSize { target, size: v }), target)
            &&& m.layout.size == v && m.layout.anchor == n.layout.anchor && m.layout.offset == n.layout.offset
            &&& m.layout.computed_pos == n.layout.computed_pos && m.layout.computed_size == n.layout.computed_size
            &&& m.dirty.layout_dirty && m.dirty.visual_dirty == n.dirty.visual_dirty
            &&& m.visual == n.visual && m.interact == n.interact && m.parent == n.parent
            &&& m.children@ == n.children@
        }),
{
}

/// In an update, a node of the walk (other than its first) that waits for a
/// layout once the edits are applied is placed by `place`: its computed
/// position and size are an answer of `place` to its anchor, offset and
/// size after the edits, its parent's new computed rectangle and the
/// screen size.
pub proof fn law_waiting_node_is_laid_out<F: Fn(Anchor, UiVec2, UiVec2, Vec2, Vec2, Scalar, Scalar) -> (Vec2, Vec2)>(
    place: F,
    s1: Nodes,
    s2: Nodes,
    root: NodeId,
    w: Scalar,
    h: Scalar,
    p: int,
)
    requires
        tree_wf(s1),
        settle(place, s1, s2, traversal(s1, root), w, h),
        1 <= p < traversal(s1, root).len(),
        node(s1, traversal(s1, root)[p]).dirty.layout_dirty,
    ensures
        ({
            let t = traversal(s1, root);
            let n1 = node(s1, t[p]);
            let n2 = node(s2, t[p]);
            let q = node(s2, n1.parent->Some_0);
            &&& n1.parent is Some
            &&& call_ensures(
                place,
                (n1.layout.anchor, n1.layout.offset, n1.layout.size, q.layout.computed_pos, q.layout.computed_size, w, h),
                (n2.layout.computed_pos, n2.layout.computed_size),
            )
        }),
{
    let t = traversal(s1, root);
    lemma_traversal_laws(s1, root);
    assert(parent_listed_before(s1, t, p));
    let x = t[p];
    let m = choose|m: int|
        0 <= m < p && node(s1, t[p]).parent == Some(#[trigger] t[m]) && live(s1, t[m]) && t[m].index < t[p].index;
    let qid = t[m];
    assert(layout_wanted(s1, t));
    let mid = choose|mid: Nodes| #[trigger] layout_pass(place, s1, mid, t, w, h) && dirty_cleared(mid, s2, t);
    lemma_only_computed_same_shape(s1, mid);
    assert(laid_out(place, mid, x, w, h));
    assert(t.contains(x)) by {
        assert(t[p] == x);
    }
    assert(t.contains(qid)) by {
        assert(t[m] == qid);
    }
    assert(live(mid, x) && live(mid, qid));
    assert(x.index < mid.len() && qid.index < mid.len());
    assert(s2[x.index as int] == Some(UiNode { dirty: clean_flags(), ..node(mid, x) }));
    assert(s2[qid.index as int] == Some(UiNode { dirty: clean_flags(), ..node(mid, qid) }));
    assert(same_but_computed(node(s1, x), node(mid, x)));
}

/// The visual edits on a live node: each sets its own field (colour,
/// opacity, visibility, material, or the text of a text node), marks the
/// visual dirty, and leaves the layout, the layout mark and everything else
/// as it was.  Setting the text of a node that draws no text changes
/// nothing.
pub proof fn law_visual_edits(
    s: Nodes,
    target: NodeId,
    color: Color,
    opacity: Scalar,
    visible: bool,
    id: MaterialId,
    texture_id: Option<TextureId>,
    uniform_data: Vec<u8>,
    content: String,
)
    requires
        live(s, target),
    ensures
        ({
            let n = node(s, target);
            let m = node(apply_event(s, UIEvent::SetColor { target, color }), target);
            &&& live(apply_event(s, UIEvent::SetColor { target, color }), target)
            &&& m.visual.color == color && m.visual.opacity == n.visual.opacity && m.visual.visible
                == n.visual.visible && m.visual.kind == n.visual.kind
            &&& m.dirty.visual_dirty && m.dirty.layout_dirty == n.dirty.layout_dirty && m.layout == n.layout
        }),
        ({
            let n = node(s, target);
            let m = node(apply_event(s, UIEvent::SetOpacity { target, opacity }), target);
            &&& m.visual.opacity == opacity && m.visual.color == n.visual.color && m.visual.visible
                == n.visual.visible && m.visual.kind == n.visual.kind
            &&& m.dirty.visual_dirty && m.dirty.layout_dirty == n.dirty.layout_dirty && m.layout == n.layout
        }),
        ({
            let n = node(s, target);
            let m = node(apply_event(s, UIEvent::SetVisible { target, visible }), target);
            &&& m.visual.visible == visible && m.visual.color == n.visual.color && m.visual.opacity
                == n.visual.opacity && m.visual.kind == n.visual.kind
            &&& m.dirty.visual_dirty && m.dirty.layout_dirty == n.dirty.layout_dirty && m.layout == n.layout
        }),
        ({
            let n = node(s, target);
            let m = node(apply_event(s, UIEvent::SetMaterial { target, id, texture_id, uniform_data }), target);
            &&& m.visual.kind is Material && m.visual.kind->material_id == id && m.visual.kind->Material_texture_id
                == texture_id && m.visual.kind->uniform_data@ == uniform_data@
            &&& m.visual.color == n.visual.color && m.visual.opacity == n.visual.opacity && m.visual.visible
                == n.visual.visible
            &&& m.dirty.visual_dirty && m.dirty.layout_dirty == n.dirty.layout_dirty && m.layout == n.layout
        }),
        ({
            let n = node(s, target);
            let s2 = apply_event(s, UIEvent::SetText { target, content });
            let m = node(s2, target);
            if n.visual.kind is Text {
                &&& m.visual.kind is Text && m.visual.kind->content@ == content@ && m.visual.kind->Text_font_size
                    == n.visual.kind->Text_font_size
                &&& m.visual.color == n.visual.color && m.dirty.visual_dirty && m.layout == n.layout
            } else {
                s2 == s
            }
        }),
{
}

/// After a pointer pass over distinct interactive nodes, each node reached
/// is in the state the pointer put it in (pressed when over it with the
/// button held, hovered when over it, normal otherwise), and when that
/// state is new its colour is the style's colour for it.
pub proof fn law_pointer_sets_states(s: Nodes, cs: Seq<NodeId>, hs: Seq<bool>, pressed: bool, released: bool, j: int)
    requires
        cs.no_duplicates(),
        hs.len() <= cs.len(),
        forall|k: int| 0 <= k < cs.len() ==> #[trigger] interactive(s, cs[k]),
        0 <= j < hs.len(),
    ensures
        ({
            let s2 = pointer_pass(s, cs, hs, pressed, released).0;
            let x = cs[j];
            let st = if hs[j] && pressed {
                InteractState::Pressed
            } else if hs[j] {
                InteractState::Hover
            } else {
                InteractState::Normal
            };
            let before = node(s, x).interact->Some_0;
            &&& interact_state_of(s2, x) == st
            &&& node(s2, x).interact->Some_0.style == before.style
            &&& st != before.state ==> node(s2, x).visual.color == (match st {
                InteractState::Normal => before.style.normal,
                InteractState::Hover => before.style.hover,
                InteractState::Pressed => before.style.pressed,
            }) && node(s2, x).dirty.visual_dirty
            &&& st == before.state ==> node(s2, x).visual == node(s, x).visual
        }),
    decreases hs.len(),
{
    assert forall|k: int| 0 <= k < cs.len() implies #[trigger] cs[k].index < s.len() by {
        assert(interactive(s, cs[k]));
    }
    let n = hs.len() - 1;
    let pre = hs.drop_last();
    let (s1, o1) = pointer_pass(s, cs, pre, pressed, released);
    lemma_pointer_pass_frame(s, cs, pre, pressed, released);
    let x = cs[j];
    assert(interactive(s, x));
    if j == n {
        assert(!cs.take(pre.len() as int).contains(x)) by {
            if cs.take(pre.len() as int).contains(x) {
                let i = choose|i: int| 0 <= i < pre.len() && #[trigger] cs.take(pre.len() as int)[i] == x;
                assert(cs[i] == cs[n]);
            }
        }
        assert(s1[x.index as int] == s[x.index as int]);
    } else {
        law_pointer_sets_states(s, cs, pre, pressed, released, j);
        assert(pre[j] == hs[j]);
        let y = cs[n];
        assert(y != x) by {
            assert(cs[j] != cs[n]);
        }
        assert(x.index != y.index);
        lemma_pointer_pass_frame(s, cs, pre, pressed, released);
        assert(s1.len() == s.len());
        let s2 = pointer_pass(s, cs, hs, pressed, released).0;
        assert(s2[x.index as int] == s1[x.index as int]);
    }
}

/// The walk entry at position `p` is drawn on layer `p`, or on the top
/// layer 255 from there on.
pub proof fn law_layer_is_walk_position(p: int)
    requires
        0 <= p,
    ensures
        p < 255 ==> layer_of(p) as int == p,
        p >= 255 ==> layer_of(p) == 255,
{
}

} // verus!
