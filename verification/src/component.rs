//! Per-node data: every node carries one value of every registered
//! component type. One type is one *column*, indexed by node slot, that
//! mirrors the node arena.
//!
//! A column is lent out whole: any number of [`Comps`] reader leases, or
//! exactly one [`CompsMut`] writer. Leases are counted and given back
//! explicitly. A lookup that cannot be satisfied returns `None`. The tree
//! may change while a column is held: spawns and removes that happen then
//! are recorded as *pending* and applied as soon as the column is held by
//! nobody, so a holder cannot see a node spawned meanwhile (its id
//! resolves to `None`).

use core::marker::PhantomData;
use vstd::prelude::*;
use crate::id::NodeId;

verus! {

/// Marks a type as per-node data: every node carries one, created by
/// `Default` when the node is spawned (or when the type is registered, for
/// nodes that already exist) and reset to `Default` when it is removed.
pub trait Component: Default {}

/// `v` is a value `C::default()` may return.
pub open spec fn is_default<C: Default>(v: C) -> bool {
    call_ensures(C::default, (), v)
}

/// One node slot's `C`. `node_id` is `Some` exactly while that slot is
/// occupied; it is what validates a lookup.
pub struct Entry<C> {
    pub node_id: Option<NodeId>,
    pub value: C,
}

impl<C: Default> Entry<C> {
    /// An entry for an empty slot, holding a fresh default.
    pub fn vacant() -> (e: Self)
        ensures
            e.node_id is None,
            is_default(e.value),
    {
        Entry { node_id: None, value: C::default() }
    }
}

/// Every node's `C`, indexed by node slot.
pub struct Column<C> {
    entries: Vec<Entry<C>>,
}

// ── the effect of a list of slot changes ─────────────────────────────────────

/// The last change recorded for slot `i`, if any.
pub open spec fn last_change(changes: Seq<(u64, Option<NodeId>)>, i: int) -> Option<Option<NodeId>>
    decreases changes.len(),
{
    if changes.len() == 0 {
        None
    } else if changes.last().0 == i {
        Some(changes.last().1)
    } else {
        last_change(changes.drop_last(), i)
    }
}

/// The length a column of length `n` grows to under `changes`.
pub open spec fn grown_len(n: nat, changes: Seq<(u64, Option<NodeId>)>) -> nat
    decreases changes.len(),
{
    if changes.len() == 0 {
        n
    } else {
        let m = grown_len(n, changes.drop_last());
        if changes.last().0 + 1 > m {
            (changes.last().0 + 1) as nat
        } else {
            m
        }
    }
}

/// `after` is `before` with `changes` applied in order: a changed slot
/// belongs to the node of its last change and holds a fresh default; an
/// unchanged slot is as it was, or, past the old end, empty and default.
pub open spec fn applies<C: Default>(
    before: Seq<Entry<C>>,
    changes: Seq<(u64, Option<NodeId>)>,
    after: Seq<Entry<C>>,
) -> bool {
    &&& after.len() == grown_len(before.len(), changes)
    &&& forall|i: int|
        #![trigger after[i]]
        0 <= i < after.len() ==> match last_change(changes, i) {
            Some(node_id) => after[i].node_id == node_id && is_default(after[i].value),
            None => if i < before.len() {
                after[i] == before[i]
            } else {
                after[i].node_id is None && is_default(after[i].value)
            },
        }
}

proof fn lemma_applies_none<C: Default>(before: Seq<Entry<C>>)
    ensures
        applies(before, Seq::empty(), before),
{
}

proof fn lemma_applies_push<C: Default>(
    before: Seq<Entry<C>>,
    changes: Seq<(u64, Option<NodeId>)>,
    mid: Seq<Entry<C>>,
    change: (u64, Option<NodeId>),
    after: Seq<Entry<C>>,
)
    requires
        applies(before, changes, mid),
        after.len() == (if change.0 + 1 > mid.len() { change.0 + 1 } else { mid.len() as int }),
        after[change.0 as int].node_id == change.1,
        is_default(after[change.0 as int].value),
        forall|i: int| 0 <= i < mid.len() && i != change.0 ==> #[trigger] after[i] == mid[i],
        forall|i: int| mid.len() <= i < after.len() && i != change.0 ==> #[trigger] after[i].node_id is None && is_default(after[i].value),
    ensures
        applies(before, changes.push(change), after),
{
    let ch = changes.push(change);
    assert(ch.drop_last() =~= changes);
    assert(ch.last() == change);
    assert forall|i: int| #![trigger after[i]] 0 <= i < after.len() implies match last_change(ch, i) {
        Some(node_id) => after[i].node_id == node_id && is_default(after[i].value),
        None => if i < before.len() {
            after[i] == before[i]
        } else {
            after[i].node_id is None && is_default(after[i].value)
        },
    } by {
        if i != change.0 {
            assert(last_change(ch, i) == last_change(changes, i));
            if i < mid.len() {
                assert(after[i] == mid[i]);
            } else {
                assert(i >= before.len()) by {
                    assert(mid.len() >= before.len()) by {
                        lemma_grown_len_ge(before.len(), changes);
                    }
                }
                lemma_grown_len_bound(before.len(), changes, i);
            }
        }
    }
}

proof fn lemma_grown_len_ge(n: nat, changes: Seq<(u64, Option<NodeId>)>)
    ensures
        grown_len(n, changes) >= n,
    decreases changes.len(),
{
    if changes.len() > 0 {
        lemma_grown_len_ge(n, changes.drop_last());
    }
}

/// A slot at or past the grown length's old part was never changed.
proof fn lemma_grown_len_bound(n: nat, changes: Seq<(u64, Option<NodeId>)>, i: int)
    requires
        i >= grown_len(n, changes),
    ensures
        last_change(changes, i) is None,
    decreases changes.len(),
{
    if changes.len() > 0 {
        lemma_grown_len_bound(n, changes.drop_last(), i);
    }
}

impl<C: Default> Column<C> {
    pub closed spec fn entries(&self) -> Seq<Entry<C>> {
        self.entries@
    }

    /// `id` is visible in the column: its slot's entry belongs to exactly it.
    pub open spec fn visible(&self, id: NodeId) -> bool {
        id.component_index < self.entries().len() && self.entries()[id.component_index as int].node_id == Some(id)
    }

    pub open spec fn value(&self, id: NodeId) -> C {
        self.entries()[id.component_index as int].value
    }

    /// A column of `len` empty slots.
    pub fn with_len(len: u64) -> (c: Self)
        requires
            len < usize::MAX,
        ensures
            c.entries().len() == len,
            forall|i: int| 0 <= i < len ==> #[trigger] c.entries()[i].node_id is None && is_default(c.entries()[i].value),
    {
        let mut entries: Vec<Entry<C>> = Vec::new();
        let mut k: u64 = 0;
        while k < len
            invariant
                k <= len,
                len < usize::MAX,
                entries@.len() == k,
                forall|i: int| 0 <= i < k ==> #[trigger] entries@[i].node_id is None && is_default(entries@[i].value),
            decreases len - k,
        {
            entries.push(Entry::vacant());
            k += 1;
        }
        Column { entries }
    }

    /// Mark slot `index` as belonging to `node_id` (or to nobody) with a
    /// fresh default, growing the column if the arena has grown.
    pub fn set(&mut self, index: u64, node_id: Option<NodeId>)
        requires
            index < usize::MAX,
        ensures
            applies(old(self).entries(), seq![(index, node_id)], final(self).entries()),
    {
        let ghost before = self.entries@;
        let i = index as usize;
        while self.entries.len() <= i
            invariant
                i == index,
                index < usize::MAX,
                self.entries@.len() >= before.len(),
                forall|j: int| 0 <= j < before.len() ==> #[trigger] self.entries@[j] == before[j],
                forall|j: int| before.len() <= j < self.entries@.len() ==> #[trigger] self.entries@[j].node_id is None
                    && is_default(self.entries@[j].value),
                self.entries@.len() <= (if index + 1 > before.len() { index + 1 } else { before.len() as int }),
            decreases index + 1 - self.entries@.len(),
        {
            self.entries.push(Entry::vacant());
        }
        self.entries.set(i, Entry { node_id, value: C::default() });
        proof {
            lemma_applies_none(before);
            lemma_applies_push(before, Seq::empty(), before, (index, node_id), self.entries@);
            assert(Seq::<(u64, Option<NodeId>)>::empty().push((index, node_id)) =~= seq![(index, node_id)]);
        }
    }

    /// `id`'s `C`. `None` if `id` is not visible in the column.
    pub fn get(&self, id: NodeId) -> (r: Option<&C>)
        ensures
            r is Some <==> self.visible(id),
            r is Some ==> *r.unwrap() == self.value(id),
    {
        if id.component_index >= self.entries.len() as u64 {
            return None;
        }
        let entry = &self.entries[id.component_index as usize];
        match entry.node_id {
            Some(n) => if n == id {
                Some(&entry.value)
            } else {
                None
            },
            None => None,
        }
    }

    /// `id`'s `C`, to change in place. `None` if `id` is not visible.
    pub fn get_mut(&mut self, id: NodeId) -> (r: Option<&mut C>)
        ensures
            r is Some <==> old(self).visible(id),
            r is None ==> final(self).entries() == old(self).entries(),
            r matches Some(v) ==> *v == old(self).value(id) && final(self).entries() == old(self).entries().update(
                id.component_index as int,
                Entry { node_id: Some(id), value: *final(v) },
            ),
    {
        if id.component_index >= self.entries.len() as u64 {
            return None;
        }
        let entry = &mut self.entries[id.component_index as usize];
        let visible = match entry.node_id {
            Some(n) => n == id,
            None => false,
        };
        if visible {
            Some(&mut entry.value)
        } else {
            None
        }
    }

    /// Every node visible in the column, in slot order.
    pub fn ids(&self) -> (ids: Vec<NodeId>)
        ensures
            ids@.no_duplicates(),
            forall|x: NodeId| #[trigger] ids@.contains(x) <==> self.visible(x),
    {
        let mut ids: Vec<NodeId> = Vec::new();
        let n = self.entries.len();
        let mut i: usize = 0;
        while i < n
            invariant
                n == self.entries@.len(),
                i <= n,
                forall|k: int| 0 <= k < ids@.len() ==> self.visible(#[trigger] ids@[k]) && ids@[k].component_index < i,
                forall|a: int, b: int| 0 <= a < b < ids@.len() ==> #[trigger] ids@[a].component_index < #[trigger] ids@[b].component_index,
                forall|j: int|
                    0 <= j < i && #[trigger] self.entries@[j].node_id is Some
                        && self.entries@[j].node_id.unwrap().component_index == j ==> ids@.contains(self.entries@[j].node_id.unwrap()),
            decreases n - i,
        {
            match self.entries[i].node_id {
                Some(id) => {
                    if id.component_index == i as u64 {
                        let ghost before = ids@;
                        ids.push(id);
                        proof {
                            assert forall|k: int| 0 <= k < ids@.len() implies self.visible(#[trigger] ids@[k]) && ids@[k].component_index < i + 1 by {
                                if k < before.len() {
                                    assert(ids@[k] == before[k]);
                                }
                            }
                            assert forall|a: int, b: int| 0 <= a < b < ids@.len() implies #[trigger] ids@[a].component_index < #[trigger] ids@[b].component_index by {
                                assert(ids@[a] == before[a]);
                                if b < before.len() {
                                    assert(ids@[b] == before[b]);
                                }
                            }
                            assert forall|j: int|
                                0 <= j < i + 1 && #[trigger] self.entries@[j].node_id is Some
                                    && self.entries@[j].node_id.unwrap().component_index == j implies ids@.contains(self.entries@[j].node_id.unwrap()) by {
                                if j < i {
                                    let x = self.entries@[j].node_id.unwrap();
                                    assert(before.contains(x));
                                    let k = choose|k: int| 0 <= k < before.len() && before[k] == x;
                                    assert(ids@[k] == before[k]);
                                } else {
                                    assert(ids@[before.len() as int] == id);
                                }
                            }
                        }
                    }
                },
                None => {},
            }
            i += 1;
        }
        proof {
            assert forall|a: int, b: int| 0 <= a < ids@.len() && 0 <= b < ids@.len() && a != b implies ids@[a] != ids@[b] by {
                if a < b {
                    assert(ids@[a].component_index < ids@[b].component_index);
                } else {
                    assert(ids@[b].component_index < ids@[a].component_index);
                }
            }
            assert forall|x: NodeId| #[trigger] ids@.contains(x) <==> self.visible(x) by {
                if self.visible(x) {
                    let j = x.component_index as int;
                    assert(self.entries@[j].node_id is Some);
                }
            }
        }
        ids
    }
}


/// Applying the changes to an already changed column is applying them all.
proof fn lemma_applies_then_set<C: Default>(
    before: Seq<Entry<C>>,
    changes: Seq<(u64, Option<NodeId>)>,
    mid: Seq<Entry<C>>,
    change: (u64, Option<NodeId>),
    after: Seq<Entry<C>>,
)
    requires
        applies(before, changes, mid),
        applies(mid, seq![change], after),
    ensures
        applies(before, changes.push(change), after),
{
    let one = seq![change];
    assert(one.drop_last() =~= Seq::<(u64, Option<NodeId>)>::empty());
    assert(one.last() == change);
    assert(grown_len(mid.len(), one.drop_last()) == mid.len());
    assert(last_change(one, change.0 as int) == Some(change.1));
    assert(after[change.0 as int].node_id == change.1);
    assert forall|i: int| 0 <= i < mid.len() && i != change.0 implies #[trigger] after[i] == mid[i] by {
        assert(last_change(one, i) == last_change(one.drop_last(), i));
    }
    assert forall|i: int| mid.len() <= i < after.len() && i != change.0 implies #[trigger] after[i].node_id is None && is_default(after[i].value) by {
        assert(last_change(one, i) == last_change(one.drop_last(), i));
    }
    lemma_applies_push(before, changes, mid, change, after);
}

/// Apply `changes`, oldest first, to `column`.
fn apply_all<C: Default>(column: &mut Column<C>, changes: &Vec<(u64, Option<NodeId>)>)
    requires
        forall|k: int| 0 <= k < changes@.len() ==> #[trigger] changes@[k].0 < usize::MAX,
    ensures
        applies(old(column).entries(), changes@, final(column).entries()),
{
    let ghost before = column.entries();
    proof {
        lemma_applies_none(before);
        assert(changes@.subrange(0, 0) =~= Seq::<(u64, Option<NodeId>)>::empty());
    }
    let n = changes.len();
    let mut k: usize = 0;
    while k < n
        invariant
            n == changes@.len(),
            k <= n,
            forall|k: int| 0 <= k < changes@.len() ==> #[trigger] changes@[k].0 < usize::MAX,
            applies(before, changes@.subrange(0, k as int), column.entries()),
        decreases n - k,
    {
        let (index, node_id) = changes[k];
        let ghost mid = column.entries();
        column.set(index, node_id);
        proof {
            lemma_applies_then_set(before, changes@.subrange(0, k as int), mid, (index, node_id), column.entries());
            assert(changes@.subrange(0, k as int).push((index, node_id)) =~= changes@.subrange(0, k + 1));
        }
        k += 1;
    }
    proof {
        assert(changes@.subrange(0, n as int) =~= changes@);
    }
}

/// One component type's column and its lending state: in the store and
/// read under any number of reader leases, or lent whole to one
/// [`CompsMut`] writer, with the slot changes that arrived while it was
/// held. A column held by nobody has nothing pending: a change to it is
/// applied at once, and what arrived while it was held is applied as soon
/// as the last lease comes back or the writer is put back.
pub struct Components<C> {
    column: Option<Column<C>>,
    pending: Vec<(u64, Option<NodeId>)>,
    readers: u64,
}

impl<C: Default> Components<C> {
    /// A writer holds the column.
    pub closed spec fn lent(&self) -> bool {
        self.column is None
    }

    /// The column as it sits in the store (not meaningful while lent).
    pub closed spec fn shown(&self) -> Seq<Entry<C>> {
        self.column.unwrap().entries()
    }

    /// Slot changes not yet applied, oldest first.
    pub closed spec fn pending(&self) -> Seq<(u64, Option<NodeId>)> {
        self.pending@
    }

    /// How many reader leases are out.
    pub closed spec fn readers(&self) -> nat {
        self.readers as nat
    }

    /// Nobody holds the column: it is in the store and no lease is out.
    pub open spec fn free(&self) -> bool {
        !self.lent() && self.readers() == 0
    }

    /// `id` is visible in the column as it sits in the store.
    pub open spec fn shows(&self, id: NodeId) -> bool {
        id.component_index < self.shown().len() && self.shown()[id.component_index as int].node_id == Some(id)
    }

    pub closed spec fn wf(&self) -> bool {
        &&& forall|k: int| 0 <= k < self.pending@.len() ==> #[trigger] self.pending@[k].0 < usize::MAX
        &&& self.readers > 0 ==> self.column is Some
        &&& self.column is Some && self.readers == 0 ==> self.pending@.len() == 0
    }

    /// The lending rule: a column nobody holds has nothing pending, and
    /// reader leases are out only on a column in the store.
    pub proof fn lemma_lending(&self)
        requires
            self.wf(),
        ensures
            self.free() ==> self.pending().len() == 0,
            self.readers() > 0 ==> !self.lent(),
    {
    }

    /// An empty column with nothing pending.
    pub fn new() -> (c: Self)
        ensures
            c.wf(),
            c.free(),
            c.shown().len() == 0,
            c.pending().len() == 0,
    {
        Components { column: Some(Column::with_len(0)), pending: Vec::new(), readers: 0 }
    }

    /// The column for an arena of `len` slots, with every id in `live`
    /// marked occupied: what registering a type does, for the nodes that
    /// already exist.
    pub fn register(len: u64, live: &Vec<NodeId>) -> (c: Self)
        requires
            len < usize::MAX,
            forall|k: int| 0 <= k < live@.len() ==> #[trigger] live@[k].component_index < usize::MAX,
        ensures
            c.wf(),
            c.free(),
            c.pending().len() == 0,
            c.shown().len() == grown_len(len as nat, live@.map_values(|id: NodeId| (id.component_index, Some(id)))),
            forall|i: int|
                #![trigger c.shown()[i]]
                0 <= i < c.shown().len() ==> is_default(c.shown()[i].value) && c.shown()[i].node_id == match last_change(
                    live@.map_values(|id: NodeId| (id.component_index, Some(id))),
                    i,
                ) {
                    Some(n) => n,
                    None => None,
                },
    {
        let mut changes: Vec<(u64, Option<NodeId>)> = Vec::new();
        let mut k: usize = 0;
        while k < live.len()
            invariant
                k <= live@.len(),
                changes@ == live@.subrange(0, k as int).map_values(|id: NodeId| (id.component_index, Some(id))),
            decreases live@.len() - k,
        {
            changes.push((live[k].component_index, Some(live[k])));
            proof {
                assert(live@.subrange(0, k + 1).map_values(|id: NodeId| (id.component_index, Some(id)))
                    =~= live@.subrange(0, k as int).map_values(|id: NodeId| (id.component_index, Some(id))).push((live@[k as int].component_index, Some(live@[k as int]))));
            }
            k += 1;
        }
        proof {
            assert(live@.subrange(0, live@.len() as int) =~= live@);
        }
        let mut column = Column::with_len(len);
        let ghost before = column.entries();
        apply_all(&mut column, &changes);
        let c = Components { column: Some(column), pending: Vec::new(), readers: 0 };
        proof {
            assert forall|i: int|
                #![trigger c.shown()[i]]
                0 <= i < c.shown().len() implies is_default(c.shown()[i].value) && c.shown()[i].node_id == match last_change(changes@, i) {
                    Some(n) => n,
                    None => None,
                } by {
                assert(c.shown()[i] == column.entries()[i]);
                if last_change(changes@, i) is None && i < before.len() {
                    assert(column.entries()[i] == before[i]);
                }
            }
        }
        c
    }

    /// Apply every pending change if nobody holds the column.
    fn catch_up(&mut self)
        requires
            forall|k: int| 0 <= k < old(self).pending@.len() ==> #[trigger] old(self).pending@[k].0 < usize::MAX,
            old(self).readers > 0 ==> old(self).column is Some,
        ensures
            final(self).wf(),
            final(self).lent() == old(self).lent(),
            final(self).readers() == old(self).readers(),
            old(self).free() ==> final(self).pending().len() == 0 && applies(old(self).shown(), old(self).pending(), final(self).shown()),
            !old(self).free() ==> *final(self) == *old(self),
    {
        if self.readers > 0 || self.pending.len() == 0 {
            proof {
                if self.pending@.len() == 0 && self.column is Some {
                    lemma_applies_none(self.column.unwrap().entries());
                }
            }
            return;
        }
        match self.column.take() {
            None => {},
            Some(mut column) => {
                apply_all(&mut column, &self.pending);
                self.pending = Vec::new();
                self.column = Some(column);
            },
        }
    }

    /// Record that node slot `index` now belongs to `node_id` (or to
    /// nobody): applied at once where nobody holds the column, queued where
    /// a reader or the writer holds it.
    pub fn set(&mut self, index: u64, node_id: Option<NodeId>)
        requires
            old(self).wf(),
            index < usize::MAX,
        ensures
            final(self).wf(),
            final(self).lent() == old(self).lent(),
            final(self).readers() == old(self).readers(),
            old(self).free() ==> final(self).pending().len() == 0 && applies(old(self).shown(), seq![(index, node_id)], final(self).shown()),
            !old(self).free() ==> final(self).pending() == old(self).pending().push((index, node_id))
                && (!old(self).lent() ==> final(self).shown() == old(self).shown()),
    {
        self.pending.push((index, node_id));
        proof {
            assert(old(self).free() ==> self.pending@ =~= seq![(index, node_id)]);
        }
        self.catch_up();
    }

    /// A reader lease on the whole column. `Some` exactly when no writer
    /// holds it (and the count of leases has room); the column read under
    /// it stays as it is until the last lease comes back.
    pub fn get(&mut self) -> (r: Option<Comps<C>>)
        requires
            old(self).wf(),
        ensures
            final(self).wf(),
            r is Some <==> !old(self).lent() && old(self).readers() < u64::MAX,
            final(self).lent() == old(self).lent(),
            final(self).shown() == old(self).shown(),
            final(self).pending() == old(self).pending(),
            final(self).readers() == (if r is Some { old(self).readers() + 1 } else { old(self).readers() }),
    {
        if self.column.is_some() && self.readers < u64::MAX {
            self.readers = self.readers + 1;
            Some(Comps { marker: PhantomData })
        } else {
            None
        }
    }

    /// `id`'s `C` as the column sits in the store. `None` while a writer
    /// holds it, or if `id` is not visible in it (stale, or spawned while
    /// the column was held).
    pub fn read(&self, id: NodeId) -> (r: Option<&C>)
        ensures
            r is Some <==> !self.lent() && self.shows(id),
            r matches Some(v) ==> *v == self.shown()[id.component_index as int].value,
    {
        match &self.column {
            Some(column) => column.get(id),
            None => None,
        }
    }

    /// Every node visible in the column as it sits in the store, in slot
    /// order, each once; empty while a writer holds it.
    pub fn ids(&self) -> (ids: Vec<NodeId>)
        ensures
            ids@.no_duplicates(),
            forall|x: NodeId| #[trigger] ids@.contains(x) <==> !self.lent() && self.shows(x),
    {
        match &self.column {
            Some(column) => column.ids(),
            None => Vec::new(),
        }
    }

    /// Give a reader lease back. When the last one comes back, whatever
    /// arrived meanwhile is applied.
    pub fn release(&mut self, reader: Comps<C>)
        requires
            old(self).wf(),
        ensures
            final(self).wf(),
            final(self).lent() == old(self).lent(),
            final(self).readers() == (if old(self).readers() > 0 { old(self).readers() - 1 } else { 0 }),
            final(self).free() ==> final(self).pending().len() == 0 && applies(old(self).shown(), old(self).pending(), final(self).shown()),
            !final(self).free() ==> final(self).shown() == old(self).shown() && final(self).pending() == old(self).pending(),
    {
        if self.readers > 0 {
            self.readers = self.readers - 1;
        }
        self.catch_up();
    }

    /// The whole column, exclusive. `Some` exactly when nobody holds it;
    /// otherwise nothing changes.
    pub fn get_mut(&mut self) -> (r: Option<CompsMut<C>>)
        requires
            old(self).wf(),
        ensures
            final(self).wf(),
            r is Some <==> old(self).free(),
            r is None ==> *final(self) == *old(self),
            r matches Some(w) ==> final(self).lent() && final(self).pending().len() == 0 && final(self).readers() == 0
                && w.column().entries() == old(self).shown(),
    {
        if self.readers > 0 {
            return None;
        }
        match self.column.take() {
            None => None,
            Some(column) => Some(CompsMut { column }),
        }
    }

    /// Put back the column a [`CompsMut`] held, applying everything that
    /// arrived meanwhile.
    pub fn restore(&mut self, writer: CompsMut<C>)
        requires
            old(self).wf(),
            old(self).lent(),
        ensures
            final(self).wf(),
            final(self).free(),
            final(self).pending().len() == 0,
            applies(writer.column().entries(), old(self).pending(), final(self).shown()),
    {
        let mut column = writer.column;
        apply_all(&mut column, &self.pending);
        self.pending = Vec::new();
        self.column = Some(column);
    }

    /// A reader lease on `id`'s `C`. `Some` exactly when no writer holds
    /// the column, the count of leases has room, and `id` is visible in it;
    /// it counts as a reader of the whole column.
    pub fn get_at(&mut self, id: NodeId) -> (r: Option<Comp<C>>)
        requires
            old(self).wf(),
        ensures
            final(self).wf(),
            r is Some <==> !old(self).lent() && old(self).readers() < u64::MAX && old(self).shows(id),
            r matches Some(c) ==> c.spec_id() == id,
            final(self).lent() == old(self).lent(),
            final(self).shown() == old(self).shown(),
            final(self).pending() == old(self).pending(),
            final(self).readers() == (if r is Some { old(self).readers() + 1 } else { old(self).readers() }),
    {
        if self.read(id).is_none() {
            return None;
        }
        match self.get() {
            Some(Comps { marker }) => Some(Comp { id, marker }),
            None => None,
        }
    }

    /// Give a one-node reader lease back; as [`Components::release`].
    pub fn release_at(&mut self, reader: Comp<C>)
        requires
            old(self).wf(),
        ensures
            final(self).wf(),
            final(self).lent() == old(self).lent(),
            final(self).readers() == (if old(self).readers() > 0 { old(self).readers() - 1 } else { 0 }),
            final(self).free() ==> final(self).pending().len() == 0 && applies(old(self).shown(), old(self).pending(), final(self).shown()),
            !final(self).free() ==> final(self).shown() == old(self).shown() && final(self).pending() == old(self).pending(),
    {
        self.release(Comps { marker: reader.marker });
    }

    /// `id`'s `C`, exclusive: holds the whole column as the writer. `Some`
    /// exactly when nobody holds the column and `id` is visible in it;
    /// otherwise nothing changes.
    pub fn get_at_mut(&mut self, id: NodeId) -> (r: Option<CompMut<C>>)
        requires
            old(self).wf(),
        ensures
            final(self).wf(),
            r is Some <==> old(self).free() && old(self).shows(id),
            r is None ==> *final(self) == *old(self),
            r matches Some(w) ==> final(self).lent() && final(self).pending().len() == 0 && final(self).readers() == 0
                && w.spec_id() == id && w.column().entries() == old(self).shown() && w.column().visible(id),
    {
        if self.readers > 0 || self.read(id).is_none() {
            return None;
        }
        match self.column.take() {
            None => None,
            Some(column) => Some(CompMut { all: CompsMut { column }, id }),
        }
    }

    /// Put back the column a [`CompMut`] held.
    pub fn restore_at(&mut self, writer: CompMut<C>)
        requires
            old(self).wf(),
            old(self).lent(),
        ensures
            final(self).wf(),
            final(self).free(),
            final(self).pending().len() == 0,
            applies(writer.column().entries(), old(self).pending(), final(self).shown()),
    {
        self.restore(writer.all);
    }
}

// ── column proxies ───────────────────────────────────────────────────────────

/// A reader lease on every node's `C`: while one is out the column cannot
/// be written, and nodes spawned or removed meanwhile are not shown. It
/// goes back with [`Components::release`].
pub struct Comps<C> {
    marker: PhantomData<C>,
}

/// An exclusive write to every node's `C`. While one is alive every other
/// lookup of `C` returns `None`; it goes back with [`Components::restore`].
pub struct CompsMut<C> {
    column: Column<C>,
}

impl<C: Default> CompsMut<C> {
    pub closed spec fn column(&self) -> Column<C> {
        self.column
    }

    /// `None` if `id` is stale, or was spawned while the column was out.
    pub fn get(&self, id: NodeId) -> (r: Option<&C>)
        ensures
            r is Some <==> self.column().visible(id),
            r is Some ==> *r.unwrap() == self.column().value(id),
    {
        self.column.get(id)
    }

    /// `None` if `id` is stale, or was spawned while the column was out.
    pub fn get_mut(&mut self, id: NodeId) -> (r: Option<&mut C>)
        ensures
            r is Some <==> old(self).column().visible(id),
            r is None ==> final(self).column().entries() == old(self).column().entries(),
            r matches Some(v) ==> *v == old(self).column().value(id) && final(self).column().entries()
                == old(self).column().entries().update(id.component_index as int, Entry { node_id: Some(id), value: *final(v) }),
    {
        self.column.get_mut(id)
    }

    /// Every node visible in the column, in slot order, root included, each
    /// once.
    pub fn ids(&self) -> (ids: Vec<NodeId>)
        ensures
            ids@.no_duplicates(),
            forall|x: NodeId| #[trigger] ids@.contains(x) <==> self.column().visible(x),
    {
        self.column.ids()
    }
}


// ── single-node proxies ──────────────────────────────────────────────────────

/// A reader lease on one node's `C`. It counts as a [`Comps`] reader for
/// lending purposes and goes back with [`Components::release_at`].
pub struct Comp<C> {
    id: NodeId,
    marker: PhantomData<C>,
}

impl<C> Comp<C> {
    pub closed spec fn spec_id(&self) -> NodeId {
        self.id
    }

    /// The node this is the component of.
    pub fn id(&self) -> (r: NodeId)
        ensures
            r == self.spec_id(),
    {
        self.id
    }
}

/// An exclusive write to one node's `C`. Holds the whole column, so it
/// counts as the [`CompsMut`] writer for lending purposes.
pub struct CompMut<C> {
    all: CompsMut<C>,
    id: NodeId,
}

impl<C: Default> CompMut<C> {
    pub closed spec fn spec_id(&self) -> NodeId {
        self.id
    }

    pub closed spec fn column(&self) -> Column<C> {
        self.all.column()
    }

    /// The node this is the component of.
    pub fn id(&self) -> (r: NodeId)
        ensures
            r == self.spec_id(),
    {
        self.id
    }

    /// The node's `C`. `None` only if the node is no longer visible in the
    /// column the proxy holds, which a proxy from
    /// [`Components::get_at_mut`] always is.
    pub fn value(&self) -> (r: Option<&C>)
        ensures
            r is Some <==> self.column().visible(self.spec_id()),
            r is Some ==> *r.unwrap() == self.column().value(self.spec_id()),
    {
        self.all.get(self.id)
    }

    /// The node's `C`, to change in place; as [`CompMut::value`].
    pub fn value_mut(&mut self) -> (r: Option<&mut C>)
        ensures
            final(self).spec_id() == old(self).spec_id(),
            r is Some <==> old(self).column().visible(old(self).spec_id()),
            r is None ==> final(self).column().entries() == old(self).column().entries(),
            r matches Some(v) ==> *v == old(self).column().value(old(self).spec_id()) && final(self).column().entries()
                == old(self).column().entries().update(
                old(self).spec_id().component_index as int,
                Entry { node_id: Some(old(self).spec_id()), value: *final(v) },
            ),
    {
        self.all.get_mut(self.id)
    }

    /// Replace the node's `C`, returning the old value. `None`, and nothing
    /// changes, if the node is not visible in the column.
    pub fn replace(&mut self, value: C) -> (r: Option<C>)
        ensures
            final(self).spec_id() == old(self).spec_id(),
            r is Some <==> old(self).column().visible(old(self).spec_id()),
            r is None ==> final(self).column().entries() == old(self).column().entries(),
            r is Some ==> r.unwrap() == old(self).column().value(old(self).spec_id()) && final(self).column().entries()
                == old(self).column().entries().update(
                old(self).spec_id().component_index as int,
                Entry { node_id: Some(old(self).spec_id()), value },
            ),
    {
        match self.all.get_mut(self.id) {
            Some(v) => {
                let mut value = value;
                std::mem::swap(v, &mut value);
                Some(value)
            },
            None => None,
        }
    }
}

} // verus!
