//! The integer part of the theme: interaction states, shape tokens, colour
//! roles, theme modes and the theme's two messages. Colours themselves and
//! everything derived from them are floating point and live with the
//! application.

use vstd::prelude::*;
use crate::event::{Event, Signal};

verus! {

/// The interactive state of a widget.
#[derive(Debug, Clone, Copy, PartialEq, Eq, Structural, Default)]
pub enum WidgetState {
    #[default]
    Enabled,
    Hovered,
    Focused,
    Pressed,
    Disabled,
}

impl WidgetState {
    pub open spec fn spec_has_state_layer(self) -> bool {
        self == WidgetState::Hovered || self == WidgetState::Focused || self == WidgetState::Pressed
    }

    /// `true` when the widget should be drawn with a state-layer overlay:
    /// hovered, focused or pressed.
    pub fn has_state_layer(self) -> (r: bool)
        ensures
            r == self.spec_has_state_layer(),
    {
        match self {
            WidgetState::Hovered | WidgetState::Focused | WidgetState::Pressed => true,
            _ => false,
        }
    }

    pub fn is_disabled(self) -> (r: bool)
        ensures
            r == (self == WidgetState::Disabled),
    {
        match self {
            WidgetState::Disabled => true,
            _ => false,
        }
    }
}

/// Which of the two schemes is in use.
#[derive(Debug, Clone, Copy, PartialEq, Eq, Structural, Default, Hash)]
pub enum ThemeMode {
    Light,
    #[default]
    Dark,
}

/// A corner shape token.
#[derive(Debug, Clone, Copy, PartialEq, Eq, Structural, Default)]
pub enum Shape {
    /// Sharp corners (spelled `None` by the theme's own vocabulary).
    #[default]
    Square,
    /// Fully rounded: the radius is half the component's height.
    Full,
}

/// The shape scale: the supported shape variants.
#[derive(Debug, Clone, Copy, PartialEq, Eq, Structural)]
pub struct Shapes {
    pub none: Shape,
    pub full: Shape,
}

impl Default for Shapes {
    fn default() -> (r: Self)
        ensures
            r == (Shapes { none: Shape::Square, full: Shape::Full }),
    {
        Shapes { none: Shape::Square, full: Shape::Full }
    }
}

/// A semantic colour role of the scheme.
#[derive(Debug, Clone, Copy, PartialEq, Eq, Structural)]
pub enum ColorVariant {
    Primary,
    OnPrimary,
    PrimaryContainer,
    OnPrimaryContainer,
    Secondary,
    OnSecondary,
    SecondaryContainer,
    OnSecondaryContainer,
    SecondaryFixedDim,
    Tertiary,
    OnTertiary,
    TertiaryContainer,
    OnTertiaryContainer,
    Error,
    OnError,
    ErrorContainer,
    OnErrorContainer,
    Background,
    OnBackground,
    Surface,
    OnSurface,
    SurfaceVariant,
    OnSurfaceVariant,
    SurfaceDim,
    SurfaceBright,
    SurfaceContainerLowest,
    SurfaceContainerLow,
    SurfaceContainer,
    SurfaceContainerHigh,
    SurfaceContainerHighest,
    Outline,
    OutlineVariant,
    InverseSurface,
    InverseOnSurface,
    InversePrimary,
    Scrim,
    Shadow,
}

/// The theme was replaced; signalled by whoever replaces it.
#[derive(Debug, Clone, Copy, PartialEq, Eq, Structural, Hash, Default)]
pub struct ThemeChanged;

impl Signal for ThemeChanged {}

/// Re-read the theme: emitted at every node when the theme changes.
#[derive(Debug, Clone, Copy, PartialEq, Eq, Structural, Hash, Default)]
pub struct ApplyTheme;

impl Event for ApplyTheme {}

/// Set a button's interaction state.
#[derive(Debug, Clone, Copy, PartialEq, Eq, Structural)]
pub struct SetButtonState(pub WidgetState);

impl Event for SetButtonState {}

} // verus!
