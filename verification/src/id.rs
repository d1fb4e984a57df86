use vstd::prelude::*;

verus! {

/// Sentinel for "no slot" in any of the index fields of a [`NodeId`].
pub const NONE: u64 = 0xffff_ffff_ffff_ffff;

/// Identifies one node of a tree.
///
/// | field             | addresses                                   |
/// |-------------------|---------------------------------------------|
/// | `widget_column`   | which widget store (one per widget type)    |
/// | `widget_index`    | slot inside that store                      |
/// | `component_index` | slot in the node arena                      |
/// | `generation`      | reuse count of the node slot                |
///
/// The root node has no widget; both widget fields are [`NONE`] for it.
#[derive(Clone, Copy, PartialEq, Eq, Structural, Hash, PartialOrd, Ord, Debug)]
pub struct NodeId {
    pub widget_column: u64,
    pub widget_index: u64,
    pub component_index: u64,
    pub generation: u64,
}

impl NodeId {
    /// Sentinel for "no slot" in any of the index fields: [`NONE`].
    pub const NONE: u64 = 0xffff_ffff_ffff_ffff;

    pub fn new(widget_column: u64, widget_index: u64, component_index: u64, generation: u64) -> (r: Self)
        ensures
            r.widget_column == widget_column,
            r.widget_index == widget_index,
            r.component_index == component_index,
            r.generation == generation,
            r == Self::new_spec(widget_column, widget_index, component_index, generation),
    {
        NodeId { widget_column, widget_index, component_index, generation }
    }

    pub open spec fn new_spec(widget_column: u64, widget_index: u64, component_index: u64, generation: u64) -> NodeId {
        NodeId { widget_column, widget_index, component_index, generation }
    }

    /// An id that matches nothing: every field is [`NONE`].
    pub open spec fn spec_invalid() -> NodeId {
        NodeId { widget_column: NONE, widget_index: NONE, component_index: NONE, generation: NONE }
    }

    pub fn invalid() -> (r: Self)
        ensures
            r == Self::spec_invalid(),
    {
        NodeId { widget_column: NONE, widget_index: NONE, component_index: NONE, generation: NONE }
    }

    pub fn widget_column(self) -> (r: u64)
        ensures
            r == self.widget_column,
    {
        self.widget_column
    }

    pub fn widget_index(self) -> (r: u64)
        ensures
            r == self.widget_index,
    {
        self.widget_index
    }

    pub fn component_index(self) -> (r: u64)
        ensures
            r == self.component_index,
    {
        self.component_index
    }

    pub fn generation(self) -> (r: u64)
        ensures
            r == self.generation,
    {
        self.generation
    }

    pub open spec fn spec_has_widget(self) -> bool {
        self.widget_column != NONE
    }

    /// `false` only for an id shaped like the root's: no widget column.
    pub fn has_widget(self) -> (r: bool)
        ensures
            r == self.spec_has_widget(),
    {
        self.widget_column != NONE
    }
}

} // verus!
