//! A verified UI runtime core: a generational tree of nodes, widget and
//! component columns with their lending rules, the Wayland wire format and
//! message arguments, and the small state machines that present windows,
//! route pointer input and pick the buffers a frame draws into.

pub mod id;

pub mod tree;
pub mod widget_store;
pub mod component;
pub mod resource;
pub mod wire;
pub mod args;
pub mod event;
pub mod input;
pub mod theme;
pub mod style;
pub mod window;
pub mod presentation;
pub mod names;
pub mod ring;
pub mod wayland;
pub mod paint;
pub mod widgets;
pub mod render;
