//! Windows: the `Window` widget, which window a node belongs to, the list
//! of live windows, what a window is to the shell, and which windows to
//! ask for a frame.

use vstd::prelude::*;
use crate::id::{NodeId, NONE};
use crate::tree::{Tree, resolves, lemma_parent_climbs};
use crate::widget_store::WidgetStore;
use crate::event::{Signal, Widget};
use crate::component::Component;
use crate::resource::Resource;

verus! {

/// A node presented on its own surface. Holds intent only.
pub struct Window {
    pub title: String,
}

impl Widget for Window {}

/// `id` names a live node whose widget is a window, in the window column,
/// and that window is in its store (not lent to a handler of its node).
pub open spec fn is_window(t: &Tree, windows: &WidgetStore<Window>, column: u64, id: NodeId) -> bool {
    &&& t.is_live(id)
    &&& t.node(id).id.widget_column == column
    &&& windows.widget(id) is Some
}

/// The nearest window at or above the node `id` names, climbing at most
/// `k` levels.
pub open spec fn nearest_window(t: &Tree, windows: &WidgetStore<Window>, column: u64, id: NodeId, k: nat) -> Option<NodeId>
    decreases k,
{
    if is_window(t, windows, column, id) {
        Some(id)
    } else if k == 0 || t.node(id).parent == id {
        None
    } else {
        nearest_window(t, windows, column, t.node(id).parent, (k - 1) as nat)
    }
}

/// The nearest window at or above `id`: the node itself if it is a window,
/// else the closest ancestor that is. `None` for a stale id and for
/// anything hung outside every window.
pub open spec fn spec_window_of(t: &Tree, windows: &WidgetStore<Window>, column: u64, id: NodeId) -> Option<NodeId> {
    if !t.is_live(id) {
        None
    } else if is_window(t, windows, column, id) {
        Some(id)
    } else if t.node(id).parent == id {
        None
    } else {
        nearest_window(t, windows, column, t.node(id).parent, t.depth_of(t.node(id).parent))
    }
}

pub(crate) fn check_window(t: &Tree, windows: &WidgetStore<Window>, column: u64, id: NodeId) -> (b: bool)
    ensures
        b == is_window(t, windows, column, id),
{
    match t.get(id) {
        Some(node) => node.id.widget_column == column && windows.get(id).is_some(),
        None => false,
    }
}

/// The nearest window at or above `id`. See [`spec_window_of`].
pub fn window_of(t: &Tree, windows: &WidgetStore<Window>, column: u64, id: NodeId) -> (r: Option<NodeId>)
    requires
        t.wf(),
        column != NONE,
    ensures
        r == spec_window_of(t, windows, column, id),
{
    if !t.contains(id) {
        return None;
    }
    if check_window(t, windows, column, id) {
        return Some(id);
    }
    let first = t.parent(id).unwrap();
    if first == id {
        return None;
    }
    proof {
        lemma_parent_climbs(t, id);
    }
    let mut at = first;
    loop
        invariant
            t.wf(),
            resolves(t.slots(), at),
            spec_window_of(t, windows, column, id) == nearest_window(t, windows, column, at, t.depth_of(at)),
        decreases t.depth_of(at),
    {
        proof {
            lemma_parent_climbs(t, at);
        }
        if check_window(t, windows, column, at) {
            return Some(at);
        }
        let p = t.parent(at).unwrap();
        if p == at {
            return None;
        }
        proof {
            if at.component_index == t.spec_root().component_index {
                assert(t.node(at).id == at);
            }
            assert(t.depth_of(at) > 0) by {
                if t.depth_of(at) == 0 {
                    if at.component_index != t.spec_root().component_index {
                    }
                }
            }
        }
        at = p;
    }
}

/// Every live window, in the order first seen.
#[derive(Debug)]
pub struct Windows {
    ids: Vec<NodeId>,
}

impl Resource for Windows {}

/// The first `n` of `listed` that are still in `live`, in order.
pub open spec fn still_live(listed: Seq<NodeId>, live: Seq<NodeId>, n: int) -> Seq<NodeId>
    decreases n,
{
    if n <= 0 {
        Seq::empty()
    } else {
        let prev = still_live(listed, live, n - 1);
        if live.contains(listed[n - 1]) { prev.push(listed[n - 1]) } else { prev }
    }
}

/// `list` with the first `n` of `new` appended, each unless already there.
pub open spec fn with_new(list: Seq<NodeId>, new: Seq<NodeId>, n: int) -> Seq<NodeId>
    decreases n,
{
    if n <= 0 {
        list
    } else {
        let prev = with_new(list, new, n - 1);
        if prev.contains(new[n - 1]) { prev } else { prev.push(new[n - 1]) }
    }
}

/// The list after a sync with `live`: what is still live, in the order it
/// was listed, then the newly live, in the order given.
pub open spec fn synced(listed: Seq<NodeId>, live: Seq<NodeId>) -> Seq<NodeId> {
    with_new(still_live(listed, live, listed.len() as int), live, live.len() as int)
}

proof fn lemma_nothing_still_live(listed: Seq<NodeId>, n: int)
    ensures
        still_live(listed, Seq::empty(), n) == Seq::<NodeId>::empty(),
    decreases n,
{
    if n > 0 {
        lemma_nothing_still_live(listed, n - 1);
    }
}

/// The last window closing is signalled once: a sync that finds no window
/// live empties the list, and the next such sync finds it empty already,
/// so only the first reports that the last window closed.
pub proof fn lemma_last_close_reported_once(listed: Seq<NodeId>)
    ensures
        synced(listed, Seq::empty()) == Seq::<NodeId>::empty(),
        synced(synced(listed, Seq::empty()), Seq::empty()) == Seq::<NodeId>::empty(),
        !(synced(listed, Seq::empty()).len() > 0),
{
    lemma_nothing_still_live(listed, listed.len() as int);
    lemma_nothing_still_live(Seq::empty(), 0);
}

impl Windows {
    pub closed spec fn view(&self) -> Seq<NodeId> {
        self.ids@
    }

    /// No window is listed twice.
    pub closed spec fn wf(&self) -> bool {
        self.ids@.no_duplicates()
    }

    pub fn new() -> (w: Self)
        ensures
            w.wf(),
            w.view().len() == 0,
    {
        Windows { ids: Vec::new() }
    }

    /// The windows, in the order first seen.
    pub fn ids(&self) -> (r: &[NodeId])
        ensures
            r@ == self.view(),
    {
        self.ids.as_slice()
    }

    pub fn len(&self) -> (n: usize)
        ensures
            n == self.view().len(),
    {
        self.ids.len()
    }

    pub fn is_empty(&self) -> (b: bool)
        ensures
            b == (self.view().len() == 0),
    {
        self.ids.len() == 0
    }

    /// List `id` last, unless it is listed already.
    pub fn push(&mut self, id: NodeId)
        requires
            old(self).wf(),
        ensures
            final(self).wf(),
            old(self).view().contains(id) ==> final(self).view() == old(self).view(),
            !old(self).view().contains(id) ==> final(self).view() == old(self).view().push(id),
    {
        let mut i: usize = 0;
        while i < self.ids.len()
            invariant
                i <= self.ids@.len(),
                self.ids@ == old(self).ids@,
                self.ids@.no_duplicates(),
                forall|j: int| 0 <= j < i ==> self.ids@[j] != id,
            decreases self.ids@.len() - i,
        {
            if self.ids[i] == id {
                return;
            }
            i += 1;
        }
        let ghost before = self.ids@;
        self.ids.push(id);
        proof {
            assert(!before.contains(id));
            assert forall|a: int, b: int| 0 <= a < self.ids@.len() && 0 <= b < self.ids@.len() && a != b implies self.ids@[a] != self.ids@[b] by {
                if a < before.len() && b < before.len() {
                    assert(self.ids@[a] == before[a] && self.ids@[b] == before[b]);
                } else if a < before.len() {
                    assert(self.ids@[a] == before[a]);
                } else {
                    assert(self.ids@[b] == before[b]);
                }
            }
        }
    }

    /// Bring the list up to date with the windows live right now: drop what
    /// is gone, keep the rest in order, add the new ones in the order
    /// given. Returns whether this emptied a list that held something: the
    /// last window has closed.
    pub fn sync(&mut self, live: &Vec<NodeId>) -> (closed_all: bool)
        requires
            old(self).wf(),
        ensures
            final(self).wf(),
            final(self).view() == synced(old(self).view(), live@),
            forall|x: NodeId| final(self).view().contains(x) <==> live@.contains(x),
            forall|x: NodeId| #[trigger] old(self).view().contains(x) && live@.contains(x) ==> final(self).view().contains(x),
            closed_all == (old(self).view().len() > 0 && final(self).view().len() == 0),
    {
        let before_len = self.ids.len();
        let mut kept: Vec<NodeId> = Vec::new();
        let mut i: usize = 0;
        while i < self.ids.len()
            invariant
                i <= self.ids@.len(),
                self.ids@ == old(self).ids@,
                self.ids@.no_duplicates(),
                kept@.no_duplicates(),
                kept@ == still_live(old(self).ids@, live@, i as int),
                forall|x: NodeId| kept@.contains(x) <==> (exists|j: int| 0 <= j < i && self.ids@[j] == x) && live@.contains(x),
            decreases self.ids@.len() - i,
        {
            let x = self.ids[i];
            let mut found = false;
            let mut k: usize = 0;
            while k < live.len()
                invariant
                    k <= live@.len(),
                    found == (exists|j: int| 0 <= j < k && live@[j] == x),
                decreases live@.len() - k,
            {
                if live[k] == x {
                    found = true;
                }
                k += 1;
            }
            let ghost kept0 = kept@;
            proof {
                assert(found == live@.contains(x));
            }
            if found {
                kept.push(x);
                proof {
                    assert(!kept0.contains(x)) by {
                        if kept0.contains(x) {
                            let j = choose|j: int| 0 <= j < i && self.ids@[j] == x;
                            assert(self.ids@[i as int] == x);
                        }
                    }
                    assert forall|a: int, b: int| 0 <= a < kept@.len() && 0 <= b < kept@.len() && a != b implies kept@[a] != kept@[b] by {
                        if a < kept0.len() && b < kept0.len() {
                            assert(kept@[a] == kept0[a] && kept@[b] == kept0[b]);
                        } else if a < kept0.len() {
                            assert(kept@[a] == kept0[a]);
                        } else {
                            assert(kept@[b] == kept0[b]);
                        }
                    }
                }
            }
            proof {
                assert forall|y: NodeId| kept@.contains(y) <==> (exists|j: int| 0 <= j < i + 1 && self.ids@[j] == y) && live@.contains(y) by {
                    if kept@.contains(y) {
                        if y != x || !found {
                            let k2 = choose|k2: int| 0 <= k2 < kept@.len() && kept@[k2] == y;
                            if found {
                                assert(k2 < kept0.len());
                                assert(kept0[k2] == y);
                            }
                            assert(kept0.contains(y));
                        } else {
                            assert(self.ids@[i as int] == y);
                        }
                    }
                    if (exists|j: int| 0 <= j < i + 1 && self.ids@[j] == y) && live@.contains(y) {
                        let j = choose|j: int| 0 <= j < i + 1 && self.ids@[j] == y;
                        if j < i {
                            assert(kept0.contains(y));
                            let k2 = choose|k2: int| 0 <= k2 < kept0.len() && kept0[k2] == y;
                            if found {
                                assert(kept@[k2] == y);
                            }
                        } else {
                            assert(found) by {
                                let m = choose|m: int| 0 <= m < live@.len() && live@[m] == y;
                            }
                            assert(kept@[kept@.len() - 1] == y);
                        }
                    }
                }
            }
            i += 1;
        }
        proof {
            assert(old(self).ids@.len() == i);
        }
        self.ids = kept;
        let ghost base = self.ids@;
        let mut k: usize = 0;
        while k < live.len()
            invariant
                k <= live@.len(),
                self.wf(),
                self.view() == with_new(base, live@, k as int),
                forall|x: NodeId| self.view().contains(x) ==> live@.contains(x),
                forall|x: NodeId| #[trigger] old(self).view().contains(x) && live@.contains(x) ==> self.view().contains(x),
                forall|j: int| 0 <= j < k ==> self.view().contains(#[trigger] live@[j]),
            decreases live@.len() - k,
        {
            let ghost v0 = self.view();
            self.push(live[k]);
            proof {
                assert(with_new(base, live@, k + 1) == (if v0.contains(live@[k as int]) { v0 } else { v0.push(live@[k as int]) }));
                assert forall|x: NodeId| self.view().contains(x) implies live@.contains(x) by {
                    if !v0.contains(x) {
                        assert(x == live@[k as int]);
                    }
                }
                assert forall|x: NodeId| v0.contains(x) implies self.view().contains(x) by {
                    let j = choose|j: int| 0 <= j < v0.len() && v0[j] == x;
                    assert(self.view()[j] == x);
                }
                assert(self.view().contains(live@[k as int])) by {
                    if !v0.contains(live@[k as int]) {
                        assert(self.view()[v0.len() as int] == live@[k as int]);
                    }
                }
            }
            k += 1;
        }
        proof {
            assert forall|x: NodeId| live@.contains(x) implies self.view().contains(x) by {
                let j = choose|j: int| 0 <= j < live@.len() && live@[j] == x;
            }
            if before_len > 0 && self.ids@.len() > 0 {
            }
        }
        before_len > 0 && self.ids.len() == 0
    }
}

/// The windows of the first `n` of `changed`, each once, in the order first
/// reached; nodes outside every window add nothing.
pub open spec fn asked_windows(t: &Tree, windows: &WidgetStore<Window>, column: u64, changed: Seq<NodeId>, n: int) -> Seq<NodeId>
    decreases n,
{
    if n <= 0 {
        Seq::empty()
    } else {
        let prev = asked_windows(t, windows, column, changed, n - 1);
        match spec_window_of(t, windows, column, changed[n - 1]) {
            Some(w) => if prev.contains(w) { prev } else { prev.push(w) },
            None => prev,
        }
    }
}

/// The windows to ask for a frame when the paint of `changed` has changed:
/// each changed node's window, once, in the order first reached. A node
/// outside every window asks nothing.
pub fn windows_to_ask(t: &Tree, windows: &WidgetStore<Window>, column: u64, changed: &Vec<NodeId>) -> (asked: Vec<NodeId>)
    requires
        t.wf(),
        column != NONE,
    ensures
        asked@ == asked_windows(t, windows, column, changed@, changed@.len() as int),
        asked@.no_duplicates(),
        forall|w: NodeId| asked@.contains(w) <==> exists|k: int|
            0 <= k < changed@.len() && #[trigger] spec_window_of(t, windows, column, changed@[k]) == Some(w),
{
    let mut asked: Vec<NodeId> = Vec::new();
    let mut i: usize = 0;
    while i < changed.len()
        invariant
            t.wf(),
            column != NONE,
            i <= changed@.len(),
            asked@ == asked_windows(t, windows, column, changed@, i as int),
            asked@.no_duplicates(),
            forall|w: NodeId| asked@.contains(w) <==> exists|k: int|
                0 <= k < i && #[trigger] spec_window_of(t, windows, column, changed@[k]) == Some(w),
        decreases changed@.len() - i,
    {
        let ghost a0 = asked@;
        match window_of(t, windows, column, changed[i]) {
            Some(w) => {
                let mut seen = false;
                let mut j: usize = 0;
                while j < asked.len()
                    invariant
                        j <= asked@.len(),
                        seen == (exists|m: int| 0 <= m < j && asked@[m] == w),
                    decreases asked@.len() - j,
                {
                    if asked[j] == w {
                        seen = true;
                    }
                    j += 1;
                }
                proof {
                    assert(seen == a0.contains(w));
                }
                if !seen {
                    asked.push(w);
                    proof {
                        assert forall|a: int, b: int| 0 <= a < asked@.len() && 0 <= b < asked@.len() && a != b implies asked@[a] != asked@[b] by {
                            if a < a0.len() && b < a0.len() {
                                assert(asked@[a] == a0[a] && asked@[b] == a0[b]);
                            } else if a < a0.len() {
                                assert(asked@[a] == a0[a]);
                            } else {
                                assert(asked@[b] == a0[b]);
                            }
                        }
                    }
                }
                proof {
                    assert forall|x: NodeId| asked@.contains(x) <==> exists|k: int|
                        0 <= k < i + 1 && #[trigger] spec_window_of(t, windows, column, changed@[k]) == Some(x) by {
                        if asked@.contains(x) {
                            if x != w {
                                let m = choose|m: int| 0 <= m < asked@.len() && asked@[m] == x;
                                if !seen {
                                    assert(m < a0.len());
                                }
                                assert(a0[m] == x);
                                assert(a0.contains(x));
                            } else {
                                assert(spec_window_of(t, windows, column, changed@[i as int]) == Some(x));
                            }
                        }
                        if exists|k: int| 0 <= k < i + 1 && #[trigger] spec_window_of(t, windows, column, changed@[k]) == Some(x) {
                            let k = choose|k: int| 0 <= k < i + 1 && #[trigger] spec_window_of(t, windows, column, changed@[k]) == Some(x);
                            if k < i {
                                assert(a0.contains(x));
                                let m = choose|m: int| 0 <= m < a0.len() && a0[m] == x;
                                if !seen {
                                    assert(asked@[m] == x);
                                }
                            } else if !seen {
                                assert(asked@[asked@.len() - 1] == x);
                            } else {
                                let m = choose|m: int| 0 <= m < asked@.len() && asked@[m] == w;
                            }
                        }
                    }
                }
            },
            None => {
                proof {
                    assert forall|x: NodeId| asked@.contains(x) <==> exists|k: int|
                        0 <= k < i + 1 && #[trigger] spec_window_of(t, windows, column, changed@[k]) == Some(x) by {
                        if exists|k: int| 0 <= k < i + 1 && #[trigger] spec_window_of(t, windows, column, changed@[k]) == Some(x) {
                            let k = choose|k: int| 0 <= k < i + 1 && #[trigger] spec_window_of(t, windows, column, changed@[k]) == Some(x);
                        }
                    }
                }
            },
        }
        i += 1;
    }
    asked
}

/// Please present this window again.
#[derive(Debug, Clone, Copy, PartialEq, Eq, Structural)]
pub struct RequestFrame(pub NodeId);

impl Signal for RequestFrame {}

/// Draw this window now: the presenting side's answer to a
/// [`RequestFrame`].
#[derive(Debug, Clone, Copy, PartialEq, Eq, Structural)]
pub struct Frame(pub NodeId);

impl Signal for Frame {}

/// The last window is gone. Signalled once, on the tick that finds the
/// list empty after it held something.
#[derive(Debug, Clone, Copy, PartialEq, Eq, Structural)]
pub struct AllWindowsClosed;

impl Signal for AllWindowsClosed {}

// ── what a window is to the shell ────────────────────────────────────────────

/// Four edges, top first, clockwise.
#[derive(Debug, Clone, Copy, PartialEq, Eq, Structural, Default)]
pub struct Edges<T> {
    pub top: T,
    pub right: T,
    pub bottom: T,
    pub left: T,
}

/// The stacking layer, bottom to top.
#[derive(Debug, Clone, Copy, PartialEq, Eq, Structural)]
pub enum LayerKind {
    Background,
    Bottom,
    Top,
    Overlay,
}

/// Whether a layer window takes keyboard focus.
#[derive(Debug, Clone, Copy, PartialEq, Eq, Structural)]
pub enum Keyboard {
    /// Never (the shell protocol's `none`).
    Never,
    Exclusive,
    OnDemand,
}

/// The screen edges a layer window is attached to, as bits.
#[derive(Debug, Clone, Copy, PartialEq, Eq, Structural)]
pub struct Anchor {
    bits: u32,
}

impl Anchor {
    pub const TOP: u32 = 1;
    pub const BOTTOM: u32 = 2;
    pub const LEFT: u32 = 4;
    pub const RIGHT: u32 = 8;

    pub closed spec fn spec_bits(self) -> u32 {
        self.bits
    }

    /// No edge.
    pub fn empty() -> (a: Self)
        ensures
            a.spec_bits() == 0,
    {
        Anchor { bits: 0 }
    }

    /// The edges among `bits`; other bits are dropped.
    pub fn from_bits_truncate(bits: u32) -> (a: Self)
        ensures
            a.spec_bits() == bits & 0xf,
    {
        Anchor { bits: bits & 0xf }
    }

    pub fn bits(self) -> (b: u32)
        ensures
            b == self.spec_bits(),
    {
        self.bits
    }

    /// Both sets of edges.
    pub fn union(self, other: Anchor) -> (a: Self)
        ensures
            a.spec_bits() == self.spec_bits() | other.spec_bits(),
    {
        Anchor { bits: self.bits | other.bits }
    }

    /// Whether every edge of `other` is among these.
    pub fn contains(self, other: Anchor) -> (b: bool)
        ensures
            b == (self.spec_bits() & other.spec_bits() == other.spec_bits()),
    {
        self.bits & other.bits == other.bits
    }
}

/// How a layer window sits on the screen.
#[derive(Debug, Clone, PartialEq)]
pub struct Layer {
    pub layer: LayerKind,
    pub anchor: Anchor,
    /// Space the compositor keeps clear along the anchored edge; zero asks
    /// for none, negative asks not to be pushed by others.
    pub exclusive_zone: i32,
    pub keyboard: Keyboard,
    /// Margins from the anchored edges, in logical pixels.
    pub margin: Edges<i32>,
    pub namespace: String,
}

impl Default for Layer {
    fn default() -> (l: Self)
        ensures
            l.layer == LayerKind::Top,
            l.anchor.spec_bits() == 0,
            l.exclusive_zone == 0,
            l.keyboard == Keyboard::Never,
            l.margin == (Edges::<i32> { top: 0, right: 0, bottom: 0, left: 0 }),
            l.namespace@.len() == 0,
    {
        Layer {
            layer: LayerKind::Top,
            anchor: Anchor::empty(),
            exclusive_zone: 0,
            keyboard: Keyboard::Never,
            margin: Edges { top: 0, right: 0, bottom: 0, left: 0 },
            namespace: String::new(),
        }
    }
}

/// What a window is to the shell that shows it; fixed at spawn.
#[derive(Debug, Clone, PartialEq)]
pub enum Role {
    /// An ordinary window the compositor places and decorates.
    Toplevel,
    /// A panel or overlay anchored to screen edges.
    Layer(Layer),
}

impl Component for Role {}

impl Default for Role {
    fn default() -> (r: Self)
        ensures
            r is Toplevel,
    {
        Role::Toplevel
    }
}

/// The layer-shell protocol's value for a stacking layer.
pub fn kind(k: LayerKind) -> (v: u32)
    ensures
        v == match k {
            LayerKind::Background => 0u32,
            LayerKind::Bottom => 1u32,
            LayerKind::Top => 2u32,
            LayerKind::Overlay => 3u32,
        },
{
    match k {
        LayerKind::Background => 0,
        LayerKind::Bottom => 1,
        LayerKind::Top => 2,
        LayerKind::Overlay => 3,
    }
}

/// The layer-shell protocol's anchor bits: the same four edges, the same
/// bits, anything else dropped.
pub fn anchor(a: Anchor) -> (v: u32)
    ensures
        v == a.spec_bits() & 0xf,
{
    a.bits() & 0xf
}

/// The layer-shell protocol's value for keyboard interactivity.
pub fn keyboard(k: Keyboard) -> (v: u32)
    ensures
        v == match k {
            Keyboard::Never => 0u32,
            Keyboard::Exclusive => 1u32,
            Keyboard::OnDemand => 2u32,
        },
{
    match k {
        Keyboard::Never => 0,
        Keyboard::Exclusive => 1,
        Keyboard::OnDemand => 2,
    }
}

/// Registers the window widget and keeps [`Windows`] and the frame
/// requests up to date at the end of every batch.
#[derive(Debug, Clone, Copy, PartialEq, Eq, Structural)]
pub struct WindowModule;

} // verus!
