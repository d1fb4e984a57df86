//! The discrete parts of a node's layout style, and the signal layout
//! sends when it has run. Lengths are floating point and live with the
//! application's layout.

use vstd::prelude::*;
use crate::event::Signal;
use crate::id::NodeId;
use crate::tree::{Tree, resolves, lemma_parent_climbs};

verus! {

#[derive(Debug, Clone, Copy, PartialEq, Eq, Structural, Default)]
pub enum Display {
    #[default]
    Flex,
    Block,
    /// The node and its subtree take no space and get no box.
    Hidden,
}

#[derive(Debug, Clone, Copy, PartialEq, Eq, Structural, Default)]
pub enum Direction {
    #[default]
    Row,
    Column,
}

#[derive(Debug, Clone, Copy, PartialEq, Eq, Structural, Default)]
pub enum Position {
    #[default]
    Relative,
    /// Taken out of the parent's flow and placed by its inset.
    Absolute,
}

#[derive(Debug, Clone, Copy, PartialEq, Eq, Structural, Default)]
pub enum Align {
    Start,
    Center,
    End,
    #[default]
    Stretch,
}

#[derive(Debug, Clone, Copy, PartialEq, Eq, Structural, Default)]
pub enum Justify {
    #[default]
    Start,
    Center,
    End,
    SpaceBetween,
    SpaceAround,
    SpaceEvenly,
}

#[derive(Debug, Clone, Copy, PartialEq, Eq, Structural, Default)]
pub enum Wrap {
    #[default]
    No,
    Yes,
}

/// Layout has run for this tick. Always signalled, so paint can chain on it.
#[derive(Debug, Clone, Copy, PartialEq, Eq, Structural)]
pub enum LayoutDone {
    /// Nothing had changed; every layout is as it was.
    Unchanged,
    Recomputed,
}

impl Signal for LayoutDone {}

/// Names the layout module. It carries no behaviour here: the layout pass
/// computes floating-point boxes and is not part of this library; what it
/// needs from the tree is [`dirty_path`].
#[derive(Debug, Clone, Copy, PartialEq, Eq, Structural)]
pub struct LayoutModule;

/// `id`, then its parent, then that one's, up to the root, with at most
/// `k` steps up. Empty for a stale id.
pub open spec fn lineage_from(t: &Tree, id: NodeId, k: nat) -> Seq<NodeId>
    decreases k,
{
    if !t.is_live(id) {
        Seq::empty()
    } else if t.node(id).parent == id || k == 0 {
        seq![id]
    } else {
        seq![id] + lineage_from(t, t.node(id).parent, (k - 1) as nat)
    }
}

/// `id` and every ancestor, nearest first, the root last: the nodes whose
/// cached measurements a change at `id` invalidates. Empty for a stale id.
pub open spec fn lineage(t: &Tree, id: NodeId) -> Seq<NodeId> {
    lineage_from(t, id, t.depth_of(id) + 1)
}

/// The nodes whose layout caches a change at `id` empties: `id` and every
/// ancestor, all the way up rather than stopping at an empty cache, so a
/// fresh node under a laid-out parent still reaches the root.
pub fn dirty_path(t: &Tree, id: NodeId) -> (r: Vec<NodeId>)
    requires
        t.wf(),
    ensures
        r@ == lineage(t, id),
{
    let mut out: Vec<NodeId> = Vec::new();
    if !t.contains(id) {
        return out;
    }
    let mut at = id;
    let ghost mut f: nat = t.depth_of(id) + 1;
    loop
        invariant
            t.wf(),
            t.is_live(at),
            out@ + lineage_from(t, at, f) == lineage(t, id),
            f >= t.depth_of(at),
            !resolves(t.slots(), at) ==> f >= t.depth_of(at) + 1,
        decreases f,
    {
        proof {
            lemma_parent_climbs(t, at);
        }
        let ghost before = out@;
        out.push(at);
        let p = t.parent(at).unwrap();
        if p == at {
            proof {
                assert(lineage_from(t, at, f) == seq![at]);
                assert(out@ == before + seq![at]);
            }
            return out;
        }
        proof {
            if resolves(t.slots(), at) && at.component_index == t.spec_root().component_index {
                assert(t.node(at).id == at);
            }
            assert(f > 0);
            assert(lineage_from(t, at, f) == seq![at] + lineage_from(t, p, (f - 1) as nat));
            assert(out@ + lineage_from(t, p, (f - 1) as nat) == before + (seq![at] + lineage_from(t, p, (f - 1) as nat)));
            f = (f - 1) as nat;
        }
        at = p;
    }
}

proof fn lemma_lineage_from_ends_at_root(t: &Tree, id: NodeId, f: nat)
    requires
        t.wf(),
        t.is_live(id),
        f >= t.depth_of(id),
        !resolves(t.slots(), id) ==> f >= t.depth_of(id) + 1,
    ensures
        lineage_from(t, id, f).len() > 0,
        lineage_from(t, id, f).last() == t.spec_root(),
        lineage_from(t, id, f)[0] == id,
    decreases f,
{
    lemma_parent_climbs(t, id);
    let p = t.node(id).parent;
    if p == id {
        if id.component_index != t.spec_root().component_index {
            assert(t.depth_of(p) + 1 == t.depth_of(id));
        }
    } else {
        if resolves(t.slots(), id) && id.component_index == t.spec_root().component_index {
            assert(t.node(id).id == id);
        }
        assert(f > 0);
        lemma_lineage_from_ends_at_root(t, p, (f - 1) as nat);
    }
}

/// A change anywhere reaches the root: the path of a live node starts at
/// the node and ends at the root.
pub proof fn lemma_dirty_path_reaches_root(t: &Tree, id: NodeId)
    requires
        t.wf(),
        t.is_live(id),
    ensures
        lineage(t, id).len() > 0,
        lineage(t, id)[0] == id,
        lineage(t, id).last() == t.spec_root(),
{
    lemma_lineage_from_ends_at_root(t, id, t.depth_of(id) + 1);
}

} // verus!
