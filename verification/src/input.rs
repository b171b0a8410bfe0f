//! Pointer interaction: the state of a button-like node, and what one pass
//! of the pointer over the tree does.

use vstd::prelude::*;

use crate::NodeId;
use crate::node::{UiNode, VisualProps};
use crate::output::UIOutputEvent;
use crate::primitives::{Color, Vec2};
use crate::tree::{live, node, traversal, visual_touched, with_node, Nodes};

verus! {

#[derive(Debug, Clone, Copy, PartialEq, Eq, Structural)]
pub enum InteractState {
    Normal,
    Hover,
    Pressed,
}

/// The colour a button takes in each interaction state.
#[derive(Debug, Clone, Copy, PartialEq, Eq, Structural)]
pub struct ButtonStyle {
    pub normal: Color,
    pub hover: Color,
    pub pressed: Color,
}

impl ButtonStyle {
    /// The colour of `state` in this style.
    pub open spec fn spec_color_of(self, state: InteractState) -> Color {
        match state {
            InteractState::Normal => self.normal,
            InteractState::Hover => self.hover,
            InteractState::Pressed => self.pressed,
        }
    }

    pub fn color_of(&self, state: InteractState) -> (c: Color)
        ensures
            c == self.spec_color_of(state),
    {
        match state {
            InteractState::Normal => self.normal,
            InteractState::Hover => self.hover,
            InteractState::Pressed => self.pressed,
        }
    }
}

#[derive(Debug, Clone, Copy, PartialEq, Eq, Structural)]
pub struct Interact {
    pub state: InteractState,
    pub style: ButtonStyle,
}

/// A live node that reacts to the pointer.
pub open spec fn interactive(s: Nodes, x: NodeId) -> bool {
    live(s, x) && node(s, x).interact is Some
}

/// The interactive entries of `t` from position `p` on, from the last entry
/// back to entry `p`: the order in which the pointer reaches them.
pub open spec fn candidates_from(s: Nodes, t: Seq<NodeId>, p: int) -> Seq<NodeId>
    decreases t.len() - p,
{
    if p < 0 || p >= t.len() {
        Seq::empty()
    } else if interactive(s, t[p]) {
        candidates_from(s, t, p + 1).push(t[p])
    } else {
        candidates_from(s, t, p + 1)
    }
}

/// The interaction state for a pointer that is over the node or not.
pub open spec fn pointer_state(hovered: bool, pressed: bool) -> InteractState {
    if hovered && pressed {
        InteractState::Pressed
    } else if hovered {
        InteractState::Hover
    } else {
        InteractState::Normal
    }
}

/// Node `n` after the pointer reached it: it takes the new state, and when
/// the state changes it takes that state's colour and its visual becomes
/// dirty.
pub open spec fn pointed(n: UiNode, hovered: bool, pressed: bool) -> UiNode {
    let it = n.interact->Some_0;
    let st = pointer_state(hovered, pressed);
    let n1 = if st != it.state {
        visual_touched(n, VisualProps { color: it.style.spec_color_of(st), ..n.visual })
    } else {
        n
    };
    UiNode { interact: Some(Interact { state: st, ..it }), ..n1 }
}

/// What reaching node `x`, previously in state `before`, reports.
pub open spec fn pointer_report(x: NodeId, before: InteractState, hovered: bool, pressed: bool, released: bool) -> Seq<UIOutputEvent> {
    match pointer_state(hovered, pressed) {
        InteractState::Pressed => seq![UIOutputEvent::Clicked { id: x }],
        InteractState::Hover => seq![UIOutputEvent::Hovered { id: x }],
        InteractState::Normal => if before == InteractState::Pressed && released {
            seq![UIOutputEvent::Released { id: x }]
        } else {
            Seq::empty()
        },
    }
}

/// The pointer reaching the first `hs.len()` candidates `cs`, where `hs`
/// says whether it is over each: the resulting nodes and reports.
pub open spec fn pointer_pass(s: Nodes, cs: Seq<NodeId>, hs: Seq<bool>, pressed: bool, released: bool) -> (Nodes, Seq<UIOutputEvent>)
    decreases hs.len(),
{
    if hs.len() == 0 {
        (s, Seq::empty())
    } else {
        let (s1, o1) = pointer_pass(s, cs, hs.drop_last(), pressed, released);
        let x = cs[hs.len() - 1];
        let n = node(s1, x);
        let h = hs[hs.len() - 1];
        (
            with_node(s1, x, pointed(n, h, pressed)),
            o1 + pointer_report(x, n.interact->Some_0.state, h, pressed, released),
        )
    }
}

/// The pointer stops at the first candidate it is over: every answer but
/// the last is `false`, and it stops before the `m` candidates are done only
/// on a `true`.
pub open spec fn stops_at_first_hit(hs: Seq<bool>, m: int) -> bool {
    &&& hs.len() <= m
    &&& forall|j: int| 0 <= j < hs.len() - 1 ==> !#[trigger] hs[j]
    &&& hs.len() < m ==> hs.len() >= 1 && hs[hs.len() - 1]
}

/// The interactive nodes of the walk from `root`, topmost first.
pub open spec fn pointer_candidates(s: Nodes, root: NodeId) -> Seq<NodeId> {
    candidates_from(s, traversal(s, root), 0)
}

/// Each answer of `hs` is what `hit` says for the pointer at `mouse_pos`
/// and the computed rectangle of the matching candidate of `cs` in `s`.
pub open spec fn hovers_answered<H: Fn(Vec2, Vec2, Vec2) -> bool>(
    hit: H,
    mouse_pos: Vec2,
    s: Nodes,
    cs: Seq<NodeId>,
    hs: Seq<bool>,
) -> bool {
    forall|j: int|
        0 <= j < hs.len() ==> call_ensures(
            hit,
            (mouse_pos, node(s, cs[j]).layout.computed_pos, node(s, cs[j]).layout.computed_size),
            #[trigger] hs[j],
        )
}

/// `hit` can be asked anything.
pub open spec fn hit_total<H: Fn(Vec2, Vec2, Vec2) -> bool>(hit: H) -> bool {
    forall|m: Vec2, p: Vec2, z: Vec2| #[trigger] call_requires(hit, (m, p, z))
}

pub(crate) proof fn lemma_candidates_prefix(s: Nodes, t: Seq<NodeId>, p: int, q: int)
    requires
        0 <= p <= q,
    ensures
        candidates_from(s, t, q).len() <= candidates_from(s, t, p).len(),
        forall|j: int|
            0 <= j < candidates_from(s, t, q).len() ==> #[trigger] candidates_from(s, t, p)[j]
                == candidates_from(s, t, q)[j],
    decreases q - p,
{
    if p < q {
        lemma_candidates_prefix(s, t, p + 1, q);
    }
}

pub(crate) proof fn lemma_pointer_pass_prefix(s: Nodes, c1: Seq<NodeId>, c2: Seq<NodeId>, hs: Seq<bool>, pressed: bool, released: bool)
    requires
        hs.len() <= c1.len(),
        hs.len() <= c2.len(),
        forall|j: int| 0 <= j < hs.len() ==> c1[j] == c2[j],
    ensures
        pointer_pass(s, c1, hs, pressed, released) == pointer_pass(s, c2, hs, pressed, released),
    decreases hs.len(),
{
    if hs.len() > 0 {
        lemma_pointer_pass_prefix(s, c1, c2, hs.drop_last(), pressed, released);
        assert(c1[hs.len() - 1] == c2[hs.len() - 1]);
    }
}

/// The interaction state of `id`: its state when it is a live node with
/// interaction, `Normal` otherwise.
pub open spec fn interact_state_of(s: Nodes, id: NodeId) -> InteractState {
    if live(s, id) && node(s, id).interact is Some {
        node(s, id).interact->Some_0.state
    } else {
        InteractState::Normal
    }
}

/// `s` with `interact` attached to `id` when `id` is live.
pub open spec fn with_interact(s: Nodes, id: NodeId, interact: Interact) -> Nodes {
    if live(s, id) {
        with_node(s, id, UiNode { interact: Some(interact), ..node(s, id) })
    } else {
        s
    }
}

} // verus!
