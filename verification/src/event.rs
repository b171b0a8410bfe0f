//! Edits queued on a [`crate::UiContext`] and applied on the next update.

use vstd::prelude::*;

use crate::NodeId;
use crate::node::{LayoutProps, UiVec2, VisualKind, VisualProps};
use crate::tree::{
    layout_touched, lemma_same_shape, live, node, same_shape, visual_touched, with_node, Nodes,
};
use crate::primitives::{Color, MaterialId, Scalar, TextureId};

verus! {

#[derive(Debug, Clone)]
pub enum UIEvent {
    SetColor { target: NodeId, color: Color },
    SetOpacity { target: NodeId, opacity: Scalar },
    SetVisible { target: NodeId, visible: bool },
    SetPosition { target: NodeId, offset: UiVec2 },
    SetSize { target: NodeId, size: UiVec2 },
    SetMaterial {
        target: NodeId,
        id: MaterialId,
        texture_id: Option<TextureId>,
        uniform_data: Vec<u8>,
    },
    SetText { target: NodeId, content: String },
}

/// The effect of one edit on the nodes.  An edit aimed at a slot that holds
/// no node does nothing, and so does `SetText` on a node that draws no text.
pub open spec fn apply_event(s: Nodes, e: UIEvent) -> Nodes {
    match e {
        UIEvent::SetColor { target, color } => if live(s, target) {
            let n = node(s, target);
            with_node(s, target, visual_touched(n, VisualProps { color, ..n.visual }))
        } else {
            s
        },
        UIEvent::SetOpacity { target, opacity } => if live(s, target) {
            let n = node(s, target);
            with_node(s, target, visual_touched(n, VisualProps { opacity, ..n.visual }))
        } else {
            s
        },
        UIEvent::SetVisible { target, visible } => if live(s, target) {
            let n = node(s, target);
            with_node(s, target, visual_touched(n, VisualProps { visible, ..n.visual }))
        } else {
            s
        },
        UIEvent::SetPosition { target, offset } => if live(s, target) {
            let n = node(s, target);
            with_node(s, target, layout_touched(n, LayoutProps { offset, ..n.layout }))
        } else {
            s
        },
        UIEvent::SetSize { target, size } => if live(s, target) {
            let n = node(s, target);
            with_node(s, target, layout_touched(n, LayoutProps { size, ..n.layout }))
        } else {
            s
        },
        UIEvent::SetMaterial { target, id, texture_id, uniform_data } => if live(s, target) {
            let n = node(s, target);
            with_node(
                s,
                target,
                visual_touched(
                    n,
                    VisualProps {
                        kind: VisualKind::Material { material_id: id, texture_id, uniform_data },
                        ..n.visual
                    },
                ),
            )
        } else {
            s
        },
        UIEvent::SetText { target, content } => if live(s, target) && node(s, target).visual.kind is Text {
            let n = node(s, target);
            let font_size = n.visual.kind->Text_font_size;
            with_node(
                s,
                target,
                visual_touched(
                    n,
                    VisualProps { kind: VisualKind::Text { content, font_size }, ..n.visual },
                ),
            )
        } else {
            s
        },
    }
}

/// The edits of `evs` applied one after the other, first to last.
pub open spec fn apply_events(s: Nodes, evs: Seq<UIEvent>) -> Nodes
    decreases evs.len(),
{
    if evs.len() == 0 {
        s
    } else {
        apply_events(apply_event(s, evs[0]), evs.drop_first())
    }
}

pub(crate) proof fn lemma_apply_event_shape(s: Nodes, e: UIEvent)
    ensures
        same_shape(s, apply_event(s, e)),
{
    let s2 = apply_event(s, e);
    assert forall|x: NodeId| #[trigger] live(s, x) == live(s2, x) by {
    }
    assert forall|x: NodeId| live(s, x) implies {
        &&& #[trigger] node(s, x).children@ == node(s2, x).children@
        &&& node(s, x).parent == node(s2, x).parent
    } by {
    }
}

pub(crate) proof fn lemma_apply_events_shape(s: Nodes, evs: Seq<UIEvent>)
    ensures
        same_shape(s, apply_events(s, evs)),
    decreases evs.len(),
{
    if evs.len() > 0 {
        lemma_apply_event_shape(s, evs[0]);
        lemma_apply_events_shape(apply_event(s, evs[0]), evs.drop_first());
        let s1 = apply_event(s, evs[0]);
        let s2 = apply_events(s, evs);
        assert forall|x: NodeId| #[trigger] live(s, x) == live(s2, x) by {
            assert(live(s, x) == live(s1, x));
        }
        assert forall|x: NodeId| live(s, x) implies {
            &&& #[trigger] node(s, x).children@ == node(s2, x).children@
            &&& node(s, x).parent == node(s2, x).parent
        } by {
            assert(live(s1, x));
            assert(node(s, x).children@ == node(s1, x).children@);
        }
    }
}

} // verus!
