//! The data held by one UI node: where it is anchored, how it is drawn,
//! how it reacts to the pointer, and where it sits in the tree.

use vstd::prelude::*;

use crate::NodeId;
use crate::input::Interact;
use crate::primitives::{
    spec_white, Color, MaterialId, NinePatchMargins, Scalar, TextureId, Vec2, ONE_BITS, ZERO_BITS,
};

verus! {

/// The corner (or the centre) of the parent that a node is placed against.
#[derive(Debug, Clone, Copy, PartialEq, Eq, Structural)]
pub enum Anchor {
    TopLeft,
    BottomLeft,
    TopRight,
    BottomRight,
    Center,
}

/// A length in one of the units the layout understands.
#[derive(Debug, Clone, Copy, PartialEq, Eq, Structural)]
pub enum UiUnit {
    /// A fixed number of pixels.
    Pixels(Scalar),
    /// A fraction of the screen width.
    ScreenWidth(Scalar),
    /// A fraction of the screen height.
    ScreenHeight(Scalar),
    /// A fraction of the parent's extent along the same axis.
    ParentPercent(Scalar),
}

#[derive(Debug, Clone, Copy, PartialEq, Eq, Structural)]
pub struct UiVec2 {
    pub x: UiUnit,
    pub y: UiUnit,
}

impl UiVec2 {
    pub fn new(x: UiUnit, y: UiUnit) -> (v: Self)
        ensures
            v == (UiVec2 { x, y }),
    {
        Self { x, y }
    }

    pub fn pixels(x: Scalar, y: Scalar) -> (v: Self)
        ensures
            v == spec_pixels(x, y),
    {
        Self { x: UiUnit::Pixels(x), y: UiUnit::Pixels(y) }
    }

    /// `x` as a fraction of the screen width, `y` of the screen height.
    pub fn screen(x: Scalar, y: Scalar) -> (v: Self)
        ensures
            v == (UiVec2 { x: UiUnit::ScreenWidth(x), y: UiUnit::ScreenHeight(y) }),
    {
        Self { x: UiUnit::ScreenWidth(x), y: UiUnit::ScreenHeight(y) }
    }
}

pub open spec fn spec_pixels(x: Scalar, y: Scalar) -> UiVec2 {
    UiVec2 { x: UiUnit::Pixels(x), y: UiUnit::Pixels(y) }
}

pub open spec fn spec_zero_vec2() -> Vec2 {
    Vec2 { x: Scalar { bits: ZERO_BITS }, y: Scalar { bits: ZERO_BITS } }
}

/// Where a node asks to be, and where the last layout pass put it.
#[derive(Debug, Clone, Copy, PartialEq, Eq, Structural)]
pub struct LayoutProps {
    pub anchor: Anchor,
    pub offset: UiVec2,
    pub size: UiVec2,
    pub computed_pos: Vec2,
    pub computed_size: Vec2,
}

pub open spec fn spec_layout_new(anchor: Anchor, offset: UiVec2, size: UiVec2) -> LayoutProps {
    LayoutProps {
        anchor,
        offset,
        size,
        computed_pos: spec_zero_vec2(),
        computed_size: spec_zero_vec2(),
    }
}

impl LayoutProps {
    /// A layout not yet resolved: both computed vectors are zero.
    pub fn new(anchor: Anchor, offset: UiVec2, size: UiVec2) -> (l: Self)
        ensures
            l == spec_layout_new(anchor, offset, size),
    {
        LayoutProps {
            anchor,
            offset,
            size,
            computed_pos: Vec2::zero(),
            computed_size: Vec2::zero(),
        }
    }
}

/// What a node draws.
#[derive(Debug, Clone, PartialEq)]
pub enum VisualKind {
    Rect,
    Texture { id: TextureId },
    Material { material_id: MaterialId, texture_id: Option<TextureId>, uniform_data: Vec<u8> },
    NinePatch { id: TextureId, margins: NinePatchMargins },
    Text { content: String, font_size: Scalar },
    /// A pure container that draws nothing.
    Container,
}

pub struct VisualProps {
    pub kind: VisualKind,
    pub color: Color,
    pub visible: bool,
    pub opacity: Scalar,
}

/// A visible, fully opaque white rectangle.
pub open spec fn spec_visual_default() -> VisualProps {
    VisualProps {
        kind: VisualKind::Rect,
        color: spec_white(),
        visible: true,
        opacity: Scalar { bits: ONE_BITS },
    }
}

impl Default for VisualProps {
    fn default() -> (v: Self)
        ensures
            v == spec_visual_default(),
    {
        VisualProps {
            kind: VisualKind::Rect,
            color: Color::white(),
            visible: true,
            opacity: Scalar::one(),
        }
    }
}

/// Which parts of a node changed since the last update.
#[derive(Debug, Clone, Copy, PartialEq, Eq, Structural)]
pub struct DirtyFlags {
    pub layout_dirty: bool,
    pub visual_dirty: bool,
}

impl Default for DirtyFlags {
    /// A new node needs both a layout and a redraw.
    fn default() -> (d: Self)
        ensures
            d.layout_dirty,
            d.visual_dirty,
    {
        DirtyFlags { layout_dirty: true, visual_dirty: true }
    }
}

pub struct UiNode {
    pub layout: LayoutProps,
    pub visual: VisualProps,
    pub interact: Option<Interact>,
    pub children: Vec<NodeId>,
    pub parent: Option<NodeId>,
    pub dirty: DirtyFlags,
}

impl UiNode {
    /// A detached, interaction-free node with the default visual and both
    /// dirty flags set.
    pub fn new(anchor: Anchor, offset: UiVec2, size: UiVec2) -> (n: Self)
        ensures
            n.layout == spec_layout_new(anchor, offset, size),
            n.visual == spec_visual_default(),
            n.interact is None,
            n.children@ == Seq::<NodeId>::empty(),
            n.parent is None,
            n.dirty == (DirtyFlags { layout_dirty: true, visual_dirty: true }),
    {
        Self {
            layout: LayoutProps::new(anchor, offset, size),
            visual: VisualProps::default(),
            children: Vec::new(),
            parent: None,
            dirty: DirtyFlags::default(),
            interact: None,
        }
    }
}

} // verus!
