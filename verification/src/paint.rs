//! What a node looks like is the application's, in floating point; what
//! the library keeps of it is which nodes' looks changed.

use vstd::prelude::*;
use crate::id::NodeId;
use crate::event::Signal;

verus! {

/// The nodes whose paint differs from the last tick, in slot order.
/// Signalled once per `Tick` on which any differs, and never empty.
#[derive(Debug, Clone)]
pub struct PaintChanged(pub Vec<NodeId>);

impl Signal for PaintChanged {}

/// Names the paint module. It carries no behaviour here: the paint column
/// and the comparison that signals [`PaintChanged`] work on floating-point
/// colours and are not part of this library.
#[derive(Debug, Clone, Copy, PartialEq, Eq, Structural)]
pub struct PaintModule;

} // verus!
