//! The widgets' messages and the box widget. How they look is floating
//! point and lives with the application.

use vstd::prelude::*;
use crate::event::{Event, Widget};

verus! {

/// Replace a text's string; its measure and paint follow.
#[derive(Debug, Clone)]
pub struct SetText(pub String);

impl Event for SetText {}

/// A box with a look: its box is its layout style, its look the paint its
/// builder writes, its children whoever spawns them.
#[derive(Debug, Clone, Copy, PartialEq, Eq, Structural)]
pub struct Div;

impl Widget for Div {}

} // verus!
