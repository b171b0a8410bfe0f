//! A retained-mode UI tree: nodes anchored inside their parents, an event
//! queue that edits them, tweens that animate them, pointer interaction and
//! a draw-command list sorted for batching.
//!
//! Scalar quantities (positions, sizes, ratios, opacity, time) are carried by
//! the library as IEEE-754 binary32 bit patterns ([`Scalar`]).  The library
//! never does arithmetic on them: every computation on such values is handed
//! in by the caller as a closure, and the contracts state what the library
//! does with the closures' answers.

pub mod arena;
pub mod context;
pub mod draw;
pub mod event;
pub mod input;
pub mod laws;
pub mod layout;
pub mod node;
pub mod output;
pub mod primitives;
pub mod tree;
pub mod tween;

pub use crate::arena::Id;
pub use crate::context::UiContext;
pub use crate::draw::{DrawCommand, DrawCommandBuffer};
pub use crate::event::UIEvent;
pub use crate::input::{ButtonStyle, Interact, InteractState};
pub use crate::node::{
    Anchor, DirtyFlags, LayoutProps, UiNode, UiUnit, UiVec2, VisualKind, VisualProps,
};
pub use crate::output::UIOutputEvent;
pub use crate::primitives::{Color, MaterialId, NinePatchMargins, Scalar, TextureId, Vec2};

use vstd::prelude::*;

verus! {

/// The id of a node of a UI tree.
pub type NodeId = Id;

} // verus!
