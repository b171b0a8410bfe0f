//! What pointer interaction reports back to the application.

use vstd::prelude::*;

use crate::NodeId;

verus! {

#[derive(Debug, Clone, Copy, PartialEq, Eq, Structural)]
pub enum UIOutputEvent {
    Clicked { id: NodeId },
    Hovered { id: NodeId },
    Released { id: NodeId },
}

} // verus!
