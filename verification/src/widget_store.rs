//! One widget column: every live widget of one type, each beside the id of
//! the node it belongs to. Freed slots are reused, last freed first, before
//! the column grows. Slot order is not tree order and not stable.

use vstd::prelude::*;
use crate::id::{NodeId, NONE};

verus! {

/// A widget plus the id of the node it belongs to. The back-pointer is what
/// lets a store validate a lookup. `widget` is `None` while the widget is
/// lent out to a handler of its node.
pub struct WidgetWrapper<W> {
    pub node_id: NodeId,
    pub widget: Option<W>,
}

/// One column of widgets of type `W`.
pub struct WidgetStore<W> {
    slots: Vec<Option<WidgetWrapper<W>>>,
    free: Vec<u64>,
}

/// The widget a slot holds for `id`, if it holds one for exactly that id.
pub open spec fn widget_at<W>(slots: Seq<Option<WidgetWrapper<W>>>, id: NodeId) -> Option<W> {
    if id.widget_index < slots.len() && slots[id.widget_index as int] is Some
        && slots[id.widget_index as int].unwrap().node_id == id {
        slots[id.widget_index as int].unwrap().widget
    } else {
        None
    }
}

impl<W> WidgetStore<W> {
    pub closed spec fn slots(&self) -> Seq<Option<WidgetWrapper<W>>> {
        self.slots@
    }

    pub closed spec fn free_list(&self) -> Seq<u64> {
        self.free@
    }

    /// The free list names distinct empty slots.
    pub closed spec fn wf(&self) -> bool {
        &&& self.slots@.len() < NONE
        &&& self.free@.no_duplicates()
        &&& forall|j: int|
            #![trigger self.free@[j]]
            0 <= j < self.free@.len() ==> self.free@[j] < self.slots@.len() && self.slots@[self.free@[j] as int] is None
    }

    /// The widget stored for `id`, if any.
    pub open spec fn widget(&self, id: NodeId) -> Option<W> {
        widget_at(self.slots(), id)
    }

    pub fn new() -> (s: Self)
        ensures
            s.wf(),
            s.slots().len() == 0,
            s.free_list().len() == 0,
    {
        WidgetStore { slots: Vec::new(), free: Vec::new() }
    }

    /// Room for one more widget: a freed slot to reuse, or space to grow.
    pub open spec fn can_grow(&self) -> bool {
        self.free_list().len() > 0 || self.slots().len() + 1 < NONE
    }

    /// Whether there is room for one more widget: what
    /// [`WidgetStore::reserve`] needs.
    pub fn has_room(&self) -> (b: bool)
        requires
            self.wf(),
        ensures
            b == self.can_grow(),
    {
        self.free.len() > 0 || (self.slots.len() as u64) < NONE - 1
    }

    /// Claim an empty slot without filling it: the last one freed, else a
    /// new one at the end. See [`WidgetStore::fill`].
    pub fn reserve(&mut self) -> (index: u64)
        requires
            old(self).wf(),
            old(self).can_grow(),
        ensures
            final(self).wf(),
            index == (if old(self).free_list().len() > 0 { old(self).free_list().last() } else { old(self).slots().len() as u64 }),
            index < final(self).slots().len(),
            final(self).slots()[index as int] is None,
            !final(self).free_list().contains(index),
            old(self).free_list().len() > 0 ==> final(self).slots() == old(self).slots()
                && final(self).free_list() == old(self).free_list().drop_last(),
            old(self).free_list().len() == 0 ==> final(self).slots() == old(self).slots().push(None)
                && final(self).free_list() == old(self).free_list(),
    {
        let ghost f0 = self.free@;
        match self.free.pop() {
            Some(index) => {
                proof {
                    assert(index == f0[f0.len() - 1]);
                    assert(!self.free@.contains(index)) by {
                        if self.free@.contains(index) {
                            let j = choose|j: int| 0 <= j < self.free@.len() && self.free@[j] == index;
                            assert(f0[j] == index);
                        }
                    }
                    assert forall|j: int| #![trigger self.free@[j]] 0 <= j < self.free@.len() implies self.free@[j] < self.slots@.len()
                        && self.slots@[self.free@[j] as int] is None by {
                        assert(self.free@[j] == f0[j]);
                    }
                }
                index
            },
            None => {
                self.slots.push(None);
                (self.slots.len() - 1) as u64
            },
        }
    }

    /// Put a widget in a reserved slot, for the node `node_id`.
    pub fn fill(&mut self, index: u64, node_id: NodeId, widget: W)
        requires
            old(self).wf(),
            index < old(self).slots().len(),
            old(self).slots()[index as int] is None,
            !old(self).free_list().contains(index),
        ensures
            final(self).wf(),
            final(self).free_list() == old(self).free_list(),
            final(self).slots() == old(self).slots().update(index as int, Some(WidgetWrapper { node_id, widget: Some(widget) })),
    {
        let n = self.slots.len();
        assert(index < n);
        self.slots.set(index as usize, Some(WidgetWrapper { node_id, widget: Some(widget) }));
        proof {
            assert forall|j: int| #![trigger self.free@[j]] 0 <= j < self.free@.len() implies self.free@[j] < self.slots@.len()
                && self.slots@[self.free@[j] as int] is None by {
                assert(self.free@[j] != index);
            }
        }
    }

    /// The widget of `id`. `None` if the slot holds nothing, holds the
    /// widget of another node, or its widget is lent out.
    pub fn get(&self, id: NodeId) -> (r: Option<&W>)
        ensures
            r is Some <==> self.widget(id) is Some,
            r is Some ==> *r.unwrap() == self.widget(id).unwrap(),
    {
        if id.widget_index >= self.slots.len() as u64 {
            return None;
        }
        match &self.slots[id.widget_index as usize] {
            Some(wrapper) => {
                if wrapper.node_id == id {
                    wrapper.widget.as_ref()
                } else {
                    None
                }
            },
            None => None,
        }
    }

    /// The widget of `id`, to change in place. `None` under the same
    /// conditions as [`WidgetStore::get`].
    pub fn get_mut(&mut self, id: NodeId) -> (r: Option<&mut W>)
        requires
            old(self).wf(),
        ensures
            r is Some <==> old(self).widget(id) is Some,
            r is None ==> final(self).slots() == old(self).slots(),
            r matches Some(w) ==> *w == old(self).widget(id).unwrap()
                && final(self).slots() == old(self).slots().update(
                    id.widget_index as int,
                    Some(WidgetWrapper { node_id: id, widget: Some(*final(w)) }),
                ),
            final(self).free_list() == old(self).free_list(),
            final(self).wf(),
    {
        if id.widget_index >= self.slots.len() as u64 {
            return None;
        }
        let i = id.widget_index as usize;
        match &mut self.slots[i] {
            Some(wrapper) => {
                if wrapper.node_id == id {
                    wrapper.widget.as_mut()
                } else {
                    None
                }
            },
            None => None,
        }
    }

    /// Move the widget of `id` out, leaving the slot waiting for it. `None`,
    /// with nothing changed, under the same conditions as
    /// [`WidgetStore::get`].
    pub fn take(&mut self, id: NodeId) -> (r: Option<W>)
        requires
            old(self).wf(),
        ensures
            final(self).wf(),
            final(self).free_list() == old(self).free_list(),
            r == old(self).widget(id),
            r is None ==> final(self).slots() == old(self).slots(),
            r is Some ==> final(self).slots() == old(self).slots().update(
                id.widget_index as int,
                Some(WidgetWrapper { node_id: id, widget: None }),
            ),
    {
        if id.widget_index >= self.slots.len() as u64 {
            return None;
        }
        let i = id.widget_index as usize;
        let mut slot: Option<WidgetWrapper<W>> = None;
        self.slots.set_and_swap(i, &mut slot);
        match slot {
            Some(wrapper) => {
                if wrapper.node_id == id {
                    let WidgetWrapper { node_id, widget } = wrapper;
                    self.slots.set(i, Some(WidgetWrapper { node_id, widget: None }));
                    proof {
                        assert forall|j: int| #![trigger self.free@[j]] 0 <= j < self.free@.len() implies self.free@[j] < self.slots@.len()
                            && self.slots@[self.free@[j] as int] is None by {
                            assert(self.free@[j] != i);
                        }
                    }
                    if widget.is_none() {
                        proof {
                            assert(self.slots@ =~= old(self).slots@);
                        }
                    }
                    widget
                } else {
                    self.slots.set(i, Some(wrapper));
                    proof {
                        assert(self.slots@ =~= old(self).slots@);
                    }
                    None
                }
            },
            None => {
                proof {
                    assert(self.slots@ =~= old(self).slots@);
                }
                None
            },
        }
    }

    /// Return a widget taken by [`WidgetStore::take`]. Dropped, with
    /// nothing changed, unless the slot still belongs to `id` and waits for
    /// its widget.
    pub fn put_back(&mut self, id: NodeId, widget: W)
        requires
            old(self).wf(),
        ensures
            final(self).wf(),
            final(self).free_list() == old(self).free_list(),
            ({
                let i = id.widget_index as int;
                let waiting = id.widget_index < old(self).slots().len() && old(self).slots()[i] is Some
                    && old(self).slots()[i].unwrap().node_id == id && old(self).slots()[i].unwrap().widget is None;
                &&& waiting ==> final(self).slots() == old(self).slots().update(i, Some(WidgetWrapper { node_id: id, widget: Some(widget) }))
                &&& !waiting ==> final(self).slots() == old(self).slots()
            }),
    {
        if id.widget_index >= self.slots.len() as u64 {
            return;
        }
        let i = id.widget_index as usize;
        let waiting = match &self.slots[i] {
            Some(wrapper) => wrapper.node_id == id && wrapper.widget.is_none(),
            None => false,
        };
        if waiting {
            self.slots.set(i, Some(WidgetWrapper { node_id: id, widget: Some(widget) }));
            proof {
                assert forall|j: int| #![trigger self.free@[j]] 0 <= j < self.free@.len() implies self.free@[j] < self.slots@.len()
                    && self.slots@[self.free@[j] as int] is None by {
                    assert(self.free@[j] != i);
                }
            }
        }
    }

    /// Empty slot `index` and make it the next one reserved. A slot that was
    /// reserved and never filled is already empty; freeing it is the same.
    pub fn free(&mut self, index: u64)
        requires
            old(self).wf(),
            index < old(self).slots().len(),
            !old(self).free_list().contains(index),
        ensures
            final(self).wf(),
            final(self).slots() == old(self).slots().update(index as int, None),
            final(self).free_list() == old(self).free_list().push(index),
    {
        let n = self.slots.len();
        assert(index < n);
        self.slots.set(index as usize, None);
        self.free.push(index);
        proof {
            let f = self.free@;
            assert forall|j: int| #![trigger f[j]] 0 <= j < f.len() implies f[j] < self.slots@.len()
                && self.slots@[f[j] as int] is None by {
                if j < f.len() - 1 {
                    assert(f[j] == old(self).free@[j]);
                }
            }
            assert(f.no_duplicates()) by {
                assert forall|j1: int, j2: int| 0 <= j1 < f.len() && 0 <= j2 < f.len() && j1 != j2 implies f[j1] != f[j2] by {
                    if j1 < f.len() - 1 && j2 < f.len() - 1 {
                        assert(f[j1] == old(self).free@[j1] && f[j2] == old(self).free@[j2]);
                    } else if j1 < f.len() - 1 {
                        assert(f[j1] == old(self).free@[j1]);
                        assert(old(self).free@.contains(f[j1]));
                    } else {
                        assert(f[j2] == old(self).free@[j2]);
                        assert(old(self).free@.contains(f[j2]));
                    }
                }
            }
        }
    }

    /// The nodes whose widget is in the column right now, in slot order.
    pub fn ids(&self) -> (ids: Vec<NodeId>)
        ensures
            forall|k: int| 0 <= k < ids@.len() ==> #[trigger] self.widget(ids@[k]) is Some,
            forall|i: int|
                0 <= i < self.slots().len() && #[trigger] self.slots()[i] is Some && self.slots()[i].unwrap().widget is Some
                    && self.slots()[i].unwrap().node_id.widget_index == i ==> ids@.contains(self.slots()[i].unwrap().node_id),
            forall|a: int, b: int| 0 <= a < b < ids@.len() ==> #[trigger] ids@[a].widget_index < #[trigger] ids@[b].widget_index,
            ids@.no_duplicates(),
    {
        let mut ids: Vec<NodeId> = Vec::new();
        let n = self.slots.len();
        let mut i: usize = 0;
        while i < n
            invariant
                n == self.slots@.len(),
                i <= n,
                forall|k: int| 0 <= k < ids@.len() ==> #[trigger] self.widget(ids@[k]) is Some,
                forall|j: int|
                    0 <= j < i && #[trigger] self.slots@[j] is Some && self.slots@[j].unwrap().widget is Some
                        && self.slots@[j].unwrap().node_id.widget_index == j ==> ids@.contains(self.slots@[j].unwrap().node_id),
                forall|a: int, b: int| 0 <= a < b < ids@.len() ==> #[trigger] ids@[a].widget_index < #[trigger] ids@[b].widget_index,
                forall|a: int| 0 <= a < ids@.len() ==> #[trigger] ids@[a].widget_index < i,
            decreases n - i,
        {
            match &self.slots[i] {
                Some(wrapper) => {
                    if wrapper.widget.is_some() && wrapper.node_id.widget_index == i as u64 {
                        let ghost before = ids@;
                        ids.push(wrapper.node_id);
                        proof {
                            assert forall|k: int| 0 <= k < ids@.len() implies #[trigger] self.widget(ids@[k]) is Some by {
                                if k < before.len() {
                                    assert(ids@[k] == before[k]);
                                }
                            }
                            assert forall|a: int, b: int| 0 <= a < b < ids@.len() implies #[trigger] ids@[a].widget_index < #[trigger] ids@[b].widget_index by {
                                assert(ids@[a] == before[a]);
                                if b < before.len() {
                                    assert(ids@[b] == before[b]);
                                }
                            }
                            assert forall|a: int| 0 <= a < ids@.len() implies #[trigger] ids@[a].widget_index < i + 1 by {
                                if a < before.len() {
                                    assert(ids@[a] == before[a]);
                                }
                            }
                            assert forall|j: int|
                                0 <= j < i + 1 && #[trigger] self.slots@[j] is Some && self.slots@[j].unwrap().widget is Some
                                    && self.slots@[j].unwrap().node_id.widget_index == j implies ids@.contains(self.slots@[j].unwrap().node_id) by {
                                if j < i {
                                    let x = self.slots@[j].unwrap().node_id;
                                    assert(before.contains(x));
                                    let k = choose|k: int| 0 <= k < before.len() && before[k] == x;
                                    assert(ids@[k] == before[k]);
                                } else {
                                    assert(ids@[before.len() as int] == wrapper.node_id);
                                }
                            }
                        }
                    }
                },
                None => {},
            }
            i += 1;
        }
        proof {
            assert forall|a: int, b: int| 0 <= a < ids@.len() && 0 <= b < ids@.len() && a != b implies ids@[a] != ids@[b] by {
                if a < b {
                    assert(ids@[a].widget_index < ids@[b].widget_index);
                } else {
                    assert(ids@[b].widget_index < ids@[a].widget_index);
                }
            }
        }
        ids
    }
}

} // verus!
