//! What the renderer decides: which of a window's two buffers a frame draws
//! into, when a frame must be skipped because the compositor still holds
//! that buffer, and which nodes a frame draws, in what order and at what
//! depth. Drawing itself is floating point and GPU work, and lives with
//! the application.
//!
//! Each window has two buffers, alternated. A buffer the compositor has not
//! released yet is not drawn into: the frame attaches nothing, and the
//! release asks for the frame again.

use std::collections::HashMap;
use vstd::prelude::*;
use crate::id::NodeId;
use crate::resource::Resource;
use crate::component::Components;
use crate::tree::{Tree, resolves, lemma_children_of, lemma_depth_below_slots};
use crate::widget_store::WidgetStore;
use crate::window::{Window, is_window, check_window};
use crate::presentation::{FrameView, answers, after_request, after_commit_step, commits};

verus! {

/// A window's two buffers as plain values.
#[derive(Debug, Clone, Copy)]
pub struct BuffersView {
    /// Whether the compositor has given each buffer back.
    pub released: (bool, bool),
    /// The buffer the next frame draws into.
    pub back: bool,
    /// The size, in pixels, the buffers were allocated at.
    pub size: (u32, u32),
    /// A frame found the back buffer held and was skipped.
    pub starved: bool,
}

/// Whether buffer `second` (`false` for the first) is released.
pub open spec fn is_released(v: BuffersView, second: bool) -> bool {
    if second { v.released.1 } else { v.released.0 }
}

/// `released` with buffer `second` set to `r`.
pub open spec fn with_released(released: (bool, bool), second: bool, r: bool) -> (bool, bool) {
    if second { (released.0, r) } else { (r, released.1) }
}

/// A frame can draw: the back buffer is released.
pub open spec fn can_draw(v: BuffersView) -> bool {
    is_released(v, v.back)
}

/// The state after a frame that found the back buffer held.
pub open spec fn after_skip(v: BuffersView) -> BuffersView {
    BuffersView { starved: true, ..v }
}

/// The state after a frame drew into the back buffer and attached it: the
/// compositor holds it now, and the other one is next.
pub open spec fn after_attach(v: BuffersView) -> BuffersView {
    BuffersView { released: with_released(v.released, v.back, false), back: !v.back, starved: false, ..v }
}

/// The compositor gave buffer `second` back; a frame skipped for want of
/// it is asked for again.
pub open spec fn after_release(v: BuffersView, second: bool) -> BuffersView {
    let r = BuffersView { released: with_released(v.released, second, true), ..v };
    if v.starved && v.back == second { BuffersView { starved: false, ..r } } else { r }
}

/// The release of buffer `second` asks for the skipped frame again.
pub open spec fn asks_again(v: BuffersView, second: bool) -> bool {
    v.starved && v.back == second
}

/// A window's two buffers.
#[derive(Debug, Clone, Copy)]
pub struct Buffers {
    released: (bool, bool),
    back: bool,
    size: (u32, u32),
    starved: bool,
}

impl Buffers {
    pub closed spec fn view(&self) -> BuffersView {
        BuffersView { released: self.released, back: self.back, size: self.size, starved: self.starved }
    }

    /// Two fresh buffers of `width` by `height`, both free, the first one
    /// next.
    pub fn new(width: u32, height: u32) -> (b: Self)
        ensures
            b.view() == (BuffersView { released: (true, true), back: false, size: (width, height), starved: false }),
    {
        Buffers { released: (true, true), back: false, size: (width, height), starved: false }
    }

    /// Whether the buffers were allocated at `width` by `height`; if not,
    /// they are replaced before the frame draws.
    pub fn fits(&self, width: u32, height: u32) -> (r: bool)
        ensures
            r == (self.view().size == (width, height)),
    {
        self.size.0 == width && self.size.1 == height
    }

    /// Which buffer the next frame draws into: `false` for the first.
    pub fn back(&self) -> (r: bool)
        ensures
            r == self.view().back,
    {
        self.back
    }

    /// Whether a frame is waiting for a buffer to come back.
    pub fn is_starved(&self) -> (r: bool)
        ensures
            r == self.view().starved,
    {
        self.starved
    }

    /// Whether buffer `second` is released.
    pub fn is_released(&self, second: bool) -> (r: bool)
        ensures
            r == is_released(self.view(), second),
    {
        if second { self.released.1 } else { self.released.0 }
    }

    /// A frame for this window. Returns the buffer to draw into, or `None`
    /// when the compositor still holds it: the frame is skipped and
    /// remembered.
    pub fn begin_frame(&mut self) -> (r: Option<bool>)
        ensures
            can_draw(old(self).view()) ==> r == Some(old(self).view().back) && final(self).view() == old(self).view(),
            !can_draw(old(self).view()) ==> r is None && final(self).view() == after_skip(old(self).view()),
    {
        let free = if self.back { self.released.1 } else { self.released.0 };
        if free {
            Some(self.back)
        } else {
            self.starved = true;
            None
        }
    }

    /// The frame drew into the back buffer and attached it.
    pub fn attached(&mut self)
        ensures
            final(self).view() == after_attach(old(self).view()),
    {
        if self.back {
            self.released.1 = false;
        } else {
            self.released.0 = false;
        }
        self.back = !self.back;
        self.starved = false;
    }

    /// The compositor gave buffer `second` back. Returns whether the
    /// window's frame, skipped for want of it, is to be asked for again.
    pub fn release(&mut self, second: bool) -> (again: bool)
        ensures
            again == asks_again(old(self).view(), second),
            final(self).view() == after_release(old(self).view(), second),
    {
        if second {
            self.released.1 = true;
        } else {
            self.released.0 = true;
        }
        if self.starved && self.back == second {
            self.starved = false;
            true
        } else {
            false
        }
    }
}

/// A buffer the compositor holds is never drawn into: after a frame
/// attaches one, the next frame draws into the other, and a third frame
/// before any release is skipped.
pub proof fn lemma_held_buffer_not_drawn(v: BuffersView)
    requires
        can_draw(v),
    ensures
        !is_released(after_attach(v), v.back),
        after_attach(v).back == !v.back,
        can_draw(after_attach(v)) == is_released(v, !v.back),
        !can_draw(after_attach(after_attach(v))),
{
}

/// A skipped frame is not lost: the release of the buffer it waited for
/// asks for it again, and then it can draw.
pub proof fn lemma_skipped_frame_asked_again(v: BuffersView)
    requires
        !can_draw(v),
    ensures
        asks_again(after_skip(v), v.back),
        can_draw(after_release(after_skip(v), v.back)),
        !after_release(after_skip(v), v.back).starved,
{
}

/// A frame skipped for want of a buffer is not lost: it commits nothing
/// and leaves the window idle, the release of the buffer it waited for asks
/// for it again, and that request is answered at once and finds the buffer
/// free.
pub proof fn lemma_skipped_frame_redrawn(v: FrameView, b: BuffersView)
    requires
        answers(v),
        !v.attached,
        !can_draw(b),
    ensures
        ({
            let drawing = after_request(v);
            let idle = after_commit_step(drawing);
            let skipped = after_skip(b);
            &&& drawing.drawing
            &&& !commits(drawing)
            &&& answers(idle)
            &&& asks_again(skipped, b.back)
            &&& after_request(idle).drawing
            &&& can_draw(after_release(skipped, b.back))
        }),
{
}

// ── which nodes a frame draws ────────────────────────────────────────────────

/// How many levels a walk from `id` may still go down.
pub open spec fn room(t: &Tree, id: NodeId) -> nat {
    (t.slots().len() - t.depth_of(id)) as nat
}

/// The nodes a frame draws from `id` on, each with its depth below the
/// window, walking at most `k` levels: `id`, then each child's subtree in
/// sibling order, except a child that is a window of its own, which is
/// presented on its own surface and skipped with its subtree. A node not
/// in `ok` (one with no layout or no paint to draw by) is skipped with its
/// subtree.
pub open spec fn draw_from(t: &Tree, ws: &WidgetStore<Window>, column: u64, ok: Set<NodeId>, id: NodeId, d: nat, k: nat) -> Seq<(NodeId, nat)>
    decreases k, 0nat,
{
    if !ok.contains(id) {
        Seq::empty()
    } else if k == 0 || !t.is_live(id) {
        seq![(id, d)]
    } else {
        seq![(id, d)] + draw_list(t, ws, column, ok, t.node(id).children@, d + 1, (k - 1) as nat)
    }
}

/// The subtrees of `cs` that a frame draws, one after another.
pub open spec fn draw_list(t: &Tree, ws: &WidgetStore<Window>, column: u64, ok: Set<NodeId>, cs: Seq<NodeId>, d: nat, k: nat) -> Seq<(NodeId, nat)>
    decreases k, cs.len(),
{
    if cs.len() == 0 {
        Seq::empty()
    } else if is_window(t, ws, column, cs[0]) {
        draw_list(t, ws, column, ok, cs.drop_first(), d, k)
    } else {
        draw_from(t, ws, column, ok, cs[0], d, k) + draw_list(t, ws, column, ok, cs.drop_first(), d, k)
    }
}

/// What a frame of `id` draws, `id` at depth `d`.
pub open spec fn draw_order(t: &Tree, ws: &WidgetStore<Window>, column: u64, ok: Set<NodeId>, id: NodeId, d: nat) -> Seq<(NodeId, nat)> {
    draw_from(t, ws, column, ok, id, d, room(t, id))
}

/// What a frame draws from each of `xs`, one after another.
pub open spec fn draw_all(t: &Tree, ws: &WidgetStore<Window>, column: u64, ok: Set<NodeId>, xs: Seq<(NodeId, nat)>) -> Seq<(NodeId, nat)>
    decreases xs.len(),
{
    if xs.len() == 0 {
        Seq::empty()
    } else {
        draw_order(t, ws, column, ok, xs[0].0, xs[0].1) + draw_all(t, ws, column, ok, xs.drop_first())
    }
}

/// The children of `cs` a frame walks into, at depth `d`: all but the
/// windows.
pub open spec fn drawn_children(t: &Tree, ws: &WidgetStore<Window>, column: u64, cs: Seq<NodeId>, d: nat) -> Seq<(NodeId, nat)>
    decreases cs.len(),
{
    if cs.len() == 0 {
        Seq::empty()
    } else if is_window(t, ws, column, cs[0]) {
        drawn_children(t, ws, column, cs.drop_first(), d)
    } else {
        seq![(cs[0], d)] + drawn_children(t, ws, column, cs.drop_first(), d)
    }
}

proof fn lemma_draw_list_is_all(t: &Tree, ws: &WidgetStore<Window>, column: u64, ok: Set<NodeId>, cs: Seq<NodeId>, d: nat, k: nat)
    requires
        forall|i: int| 0 <= i < cs.len() ==> room(t, #[trigger] cs[i]) == k,
    ensures
        draw_list(t, ws, column, ok, cs, d, k) == draw_all(t, ws, column, ok, drawn_children(t, ws, column, cs, d)),
    decreases cs.len(),
{
    if cs.len() > 0 {
        assert forall|i: int| 0 <= i < cs.drop_first().len() implies room(t, #[trigger] cs.drop_first()[i]) == k by {
            assert(cs.drop_first()[i] == cs[i + 1]);
        }
        lemma_draw_list_is_all(t, ws, column, ok, cs.drop_first(), d, k);
        if !is_window(t, ws, column, cs[0]) {
            let rest = drawn_children(t, ws, column, cs.drop_first(), d);
            assert((seq![(cs[0], d)] + rest).drop_first() =~= rest);
        }
    }
}

proof fn lemma_draw_unfold(t: &Tree, ws: &WidgetStore<Window>, column: u64, ok: Set<NodeId>, id: NodeId, d: nat)
    requires
        t.wf(),
        t.is_live(id),
        ok.contains(id),
    ensures
        draw_order(t, ws, column, ok, id, d) == seq![(id, d)] + draw_all(t, ws, column, ok, drawn_children(t, ws, column, t.node(id).children@, d + 1)),
{
    lemma_depth_below_slots(t, id);
    lemma_children_of(t, id);
    let k = room(t, id);
    let cs = t.node(id).children@;
    assert forall|i: int| 0 <= i < cs.len() implies room(t, #[trigger] cs[i]) == (k - 1) as nat by {
        assert(t.depth_of(cs[i]) == t.depth_of(id) + 1);
    }
    lemma_draw_list_is_all(t, ws, column, ok, cs, d + 1, (k - 1) as nat);
}

proof fn lemma_draw_all_concat(t: &Tree, ws: &WidgetStore<Window>, column: u64, ok: Set<NodeId>, a: Seq<(NodeId, nat)>, b: Seq<(NodeId, nat)>)
    ensures
        draw_all(t, ws, column, ok, a + b) == draw_all(t, ws, column, ok, a) + draw_all(t, ws, column, ok, b),
    decreases a.len(),
{
    if a.len() == 0 {
        assert(a + b =~= b);
    } else {
        assert((a + b).drop_first() =~= a.drop_first() + b);
        lemma_draw_all_concat(t, ws, column, ok, a.drop_first(), b);
        assert(draw_order(t, ws, column, ok, a[0].0, a[0].1) + draw_all(t, ws, column, ok, a.drop_first()) + draw_all(t, ws, column, ok, b)
            =~= draw_order(t, ws, column, ok, a[0].0, a[0].1) + (draw_all(t, ws, column, ok, a.drop_first()) + draw_all(t, ws, column, ok, b)));
    }
}

proof fn lemma_draw_pop(t: &Tree, ws: &WidgetStore<Window>, column: u64, ok: Set<NodeId>, rest: Seq<(NodeId, nat)>, x: (NodeId, nat))
    ensures
        draw_all(t, ws, column, ok, rest.push(x).reverse()) == draw_order(t, ws, column, ok, x.0, x.1) + draw_all(t, ws, column, ok, rest.reverse()),
{
    assert(rest.push(x).reverse() =~= seq![x] + rest.reverse());
    assert((seq![x] + rest.reverse()).drop_first() =~= rest.reverse());
}

proof fn lemma_draw_push(t: &Tree, ws: &WidgetStore<Window>, column: u64, ok: Set<NodeId>, rest: Seq<(NodeId, nat)>, kids: Seq<(NodeId, nat)>)
    ensures
        draw_all(t, ws, column, ok, (rest + kids.reverse()).reverse()) == draw_all(t, ws, column, ok, kids) + draw_all(t, ws, column, ok, rest.reverse()),
{
    assert((rest + kids.reverse()).reverse() =~= kids + rest.reverse());
    lemma_draw_all_concat(t, ws, column, ok, kids, rest.reverse());
}

/// Every entry a walk from `id` at depth `d` draws sits as far below `d` as
/// its node sits below `id` in the tree.
proof fn lemma_draw_from_depth(t: &Tree, ws: &WidgetStore<Window>, column: u64, ok: Set<NodeId>, id: NodeId, d: nat, k: nat)
    requires
        t.wf(),
    ensures
        forall|i: int| 0 <= i < draw_from(t, ws, column, ok, id, d, k).len() ==>
            #[trigger] draw_from(t, ws, column, ok, id, d, k)[i].1 + t.depth_of(id) == d + t.depth_of(draw_from(t, ws, column, ok, id, d, k)[i].0),
        forall|i: int| 0 <= i < draw_from(t, ws, column, ok, id, d, k).len() ==>
            ok.contains(#[trigger] draw_from(t, ws, column, ok, id, d, k)[i].0),
        forall|i: int| 0 < i < draw_from(t, ws, column, ok, id, d, k).len() ==>
            !is_window(t, ws, column, #[trigger] draw_from(t, ws, column, ok, id, d, k)[i].0),
        ok.contains(id) ==> draw_from(t, ws, column, ok, id, d, k).len() > 0 && draw_from(t, ws, column, ok, id, d, k)[0] == (id, d),
    decreases k, 0nat,
{
    if ok.contains(id) && k != 0 && t.is_live(id) {
        lemma_children_of(t, id);
        let cs = t.node(id).children@;
        lemma_draw_list_depth(t, ws, column, ok, cs, d + 1, (k - 1) as nat, t.depth_of(id) + 1);
        let r = draw_from(t, ws, column, ok, id, d, k);
        let b = draw_list(t, ws, column, ok, cs, d + 1, (k - 1) as nat);
        assert(r == seq![(id, d)] + b);
        assert forall|i: int| 0 <= i < r.len() implies #[trigger] r[i].1 + t.depth_of(id) == d + t.depth_of(r[i].0)
            && ok.contains(r[i].0) && (i > 0 ==> !is_window(t, ws, column, r[i].0)) by {
            if i > 0 {
                assert(r[i] == b[i - 1]);
            }
        }
    }
}

/// Every entry a walk of the siblings `cs`, all at tree depth `base`, draws
/// at depth `d` sits as far below `d` as its node sits below `base`.
proof fn lemma_draw_list_depth(t: &Tree, ws: &WidgetStore<Window>, column: u64, ok: Set<NodeId>, cs: Seq<NodeId>, d: nat, k: nat, base: nat)
    requires
        t.wf(),
        forall|i: int| 0 <= i < cs.len() ==> t.depth_of(#[trigger] cs[i]) == base,
    ensures
        forall|i: int| 0 <= i < draw_list(t, ws, column, ok, cs, d, k).len() ==>
            #[trigger] draw_list(t, ws, column, ok, cs, d, k)[i].1 + base == d + t.depth_of(draw_list(t, ws, column, ok, cs, d, k)[i].0),
        forall|i: int| 0 <= i < draw_list(t, ws, column, ok, cs, d, k).len() ==>
            ok.contains(#[trigger] draw_list(t, ws, column, ok, cs, d, k)[i].0)
                && !is_window(t, ws, column, draw_list(t, ws, column, ok, cs, d, k)[i].0),
    decreases k, cs.len(),
{
    if cs.len() > 0 {
        assert forall|i: int| 0 <= i < cs.drop_first().len() implies t.depth_of(#[trigger] cs.drop_first()[i]) == base by {
            assert(cs.drop_first()[i] == cs[i + 1]);
        }
        lemma_draw_list_depth(t, ws, column, ok, cs.drop_first(), d, k, base);
        if !is_window(t, ws, column, cs[0]) {
            lemma_draw_from_depth(t, ws, column, ok, cs[0], d, k);
            let a = draw_from(t, ws, column, ok, cs[0], d, k);
            let b = draw_list(t, ws, column, ok, cs.drop_first(), d, k);
            let r = draw_list(t, ws, column, ok, cs, d, k);
            assert(r == a + b);
            assert forall|i: int| 0 <= i < r.len() implies #[trigger] r[i].1 + base == d + t.depth_of(r[i].0)
                && ok.contains(r[i].0) && !is_window(t, ws, column, r[i].0) by {
                if i < a.len() {
                    assert(r[i] == a[i]);
                } else {
                    assert(r[i] == b[i - a.len()]);
                }
            }
        }
    }
}

/// Every entry after the first of a walk from `id` comes after an entry for
/// its parent, one level up.
proof fn lemma_draw_from_parent(t: &Tree, ws: &WidgetStore<Window>, column: u64, ok: Set<NodeId>, id: NodeId, d: nat, k: nat)
    requires
        t.wf(),
    ensures
        forall|i: int| 0 < i < draw_from(t, ws, column, ok, id, d, k).len() ==> exists|j: int| 0 <= j < i
            && t.node(#[trigger] draw_from(t, ws, column, ok, id, d, k)[i].0).parent == t.node(draw_from(t, ws, column, ok, id, d, k)[j].0).id
            && draw_from(t, ws, column, ok, id, d, k)[j].1 + 1 == draw_from(t, ws, column, ok, id, d, k)[i].1,
    decreases k, 0nat,
{
    if ok.contains(id) && k != 0 && t.is_live(id) {
        lemma_children_of(t, id);
        let cs = t.node(id).children@;
        lemma_draw_list_parent(t, ws, column, ok, cs, d + 1, (k - 1) as nat);
        let r = draw_from(t, ws, column, ok, id, d, k);
        let b = draw_list(t, ws, column, ok, cs, d + 1, (k - 1) as nat);
        assert(r == seq![(id, d)] + b);
        assert forall|i: int| 0 < i < r.len() implies exists|j: int| 0 <= j < i
            && t.node(#[trigger] r[i].0).parent == t.node(r[j].0).id && r[j].1 + 1 == r[i].1 by {
            assert(r[i] == b[i - 1]);
            assert(r[0] == (id, d));
            if cs.contains(b[i - 1].0) && b[i - 1].1 == d + 1 {
                let m = choose|m: int| 0 <= m < cs.len() && cs[m] == b[i - 1].0;
                assert(t.node(cs[m]).parent == t.node(id).id);
            } else {
                let j = choose|j: int| 0 <= j < i - 1 && t.node(b[i - 1].0).parent == t.node(b[j].0).id && b[j].1 + 1 == b[i - 1].1;
                assert(r[j + 1] == b[j]);
            }
        }
    }
}

/// Every entry of a walk of the siblings `cs` at depth `d` is one of `cs`
/// at depth `d`, or comes after an entry for its parent, one level up.
proof fn lemma_draw_list_parent(t: &Tree, ws: &WidgetStore<Window>, column: u64, ok: Set<NodeId>, cs: Seq<NodeId>, d: nat, k: nat)
    requires
        t.wf(),
    ensures
        forall|i: int| 0 <= i < draw_list(t, ws, column, ok, cs, d, k).len() ==>
            (cs.contains(#[trigger] draw_list(t, ws, column, ok, cs, d, k)[i].0) && draw_list(t, ws, column, ok, cs, d, k)[i].1 == d)
            || exists|j: int| 0 <= j < i
                && t.node(draw_list(t, ws, column, ok, cs, d, k)[i].0).parent == t.node(draw_list(t, ws, column, ok, cs, d, k)[j].0).id
                && draw_list(t, ws, column, ok, cs, d, k)[j].1 + 1 == draw_list(t, ws, column, ok, cs, d, k)[i].1,
    decreases k, cs.len(),
{
    if cs.len() > 0 {
        lemma_draw_list_parent(t, ws, column, ok, cs.drop_first(), d, k);
        if !is_window(t, ws, column, cs[0]) {
            lemma_draw_from_parent(t, ws, column, ok, cs[0], d, k);
            lemma_draw_from_depth(t, ws, column, ok, cs[0], d, k);
            let a = draw_from(t, ws, column, ok, cs[0], d, k);
            let b = draw_list(t, ws, column, ok, cs.drop_first(), d, k);
            let r = draw_list(t, ws, column, ok, cs, d, k);
            assert(r == a + b);
            assert forall|i: int| 0 <= i < r.len() implies
                (cs.contains(#[trigger] r[i].0) && r[i].1 == d)
                || exists|j: int| 0 <= j < i && t.node(r[i].0).parent == t.node(r[j].0).id && r[j].1 + 1 == r[i].1 by {
                if i < a.len() {
                    assert(r[i] == a[i]);
                    if i == 0 {
                        assert(ok.contains(cs[0]));
                        assert(a[0] == (cs[0], d));
                        assert(cs[0] == cs[0]);
                        assert(cs.contains(r[i].0));
                    } else {
                        let j = choose|j: int| 0 <= j < i && t.node(a[i].0).parent == t.node(a[j].0).id && a[j].1 + 1 == a[i].1;
                        assert(r[j] == a[j]);
                    }
                } else {
                    let ib = i - a.len();
                    assert(r[i] == b[ib]);
                    if cs.drop_first().contains(b[ib].0) && b[ib].1 == d {
                        let m = choose|m: int| 0 <= m < cs.drop_first().len() && cs.drop_first()[m] == b[ib].0;
                        assert(cs[m + 1] == b[ib].0);
                    } else {
                        let j = choose|j: int| 0 <= j < ib && t.node(b[ib].0).parent == t.node(b[j].0).id && b[j].1 + 1 == b[ib].1;
                        assert(r[j + a.len()] == b[j]);
                    }
                }
            }
        } else {
            let r = draw_list(t, ws, column, ok, cs, d, k);
            let b = draw_list(t, ws, column, ok, cs.drop_first(), d, k);
            assert(r == b);
            assert forall|i: int| 0 <= i < r.len() implies
                (cs.contains(#[trigger] r[i].0) && r[i].1 == d)
                || exists|j: int| 0 <= j < i && t.node(r[i].0).parent == t.node(r[j].0).id && r[j].1 + 1 == r[i].1 by {
                if cs.drop_first().contains(b[i].0) && b[i].1 == d {
                    let m = choose|m: int| 0 <= m < cs.drop_first().len() && cs.drop_first()[m] == b[i].0;
                    assert(cs[m + 1] == b[i].0);
                }
            }
        }
    }
}

/// A walk from `id` at depth `d` starts with `id` at `d` and draws
/// everything after it deeper than `d`.
proof fn lemma_draw_from_above(t: &Tree, ws: &WidgetStore<Window>, column: u64, ok: Set<NodeId>, id: NodeId, d: nat, k: nat)
    ensures
        forall|i: int| 0 <= i < draw_from(t, ws, column, ok, id, d, k).len() ==>
            #[trigger] draw_from(t, ws, column, ok, id, d, k)[i].1 >= d
                && (i > 0 ==> draw_from(t, ws, column, ok, id, d, k)[i].1 > d),
        draw_from(t, ws, column, ok, id, d, k).len() > 0 ==> draw_from(t, ws, column, ok, id, d, k)[0] == (id, d),
    decreases k, 0nat,
{
    if ok.contains(id) && k != 0 && t.is_live(id) {
        let cs = t.node(id).children@;
        lemma_draw_list_above(t, ws, column, ok, cs, d + 1, (k - 1) as nat);
        let r = draw_from(t, ws, column, ok, id, d, k);
        let b = draw_list(t, ws, column, ok, cs, d + 1, (k - 1) as nat);
        assert(r == seq![(id, d)] + b);
        assert forall|i: int| 0 <= i < r.len() implies #[trigger] r[i].1 >= d && (i > 0 ==> r[i].1 > d) by {
            if i > 0 {
                assert(r[i] == b[i - 1]);
            }
        }
    }
}

/// A walk of siblings at depth `d` draws nothing above `d`.
proof fn lemma_draw_list_above(t: &Tree, ws: &WidgetStore<Window>, column: u64, ok: Set<NodeId>, cs: Seq<NodeId>, d: nat, k: nat)
    ensures
        forall|i: int| 0 <= i < draw_list(t, ws, column, ok, cs, d, k).len() ==>
            #[trigger] draw_list(t, ws, column, ok, cs, d, k)[i].1 >= d,
    decreases k, cs.len(),
{
    if cs.len() > 0 {
        lemma_draw_list_above(t, ws, column, ok, cs.drop_first(), d, k);
        if !is_window(t, ws, column, cs[0]) {
            lemma_draw_from_above(t, ws, column, ok, cs[0], d, k);
            let a = draw_from(t, ws, column, ok, cs[0], d, k);
            let b = draw_list(t, ws, column, ok, cs.drop_first(), d, k);
            let r = draw_list(t, ws, column, ok, cs, d, k);
            assert(r == a + b);
            assert forall|i: int| 0 <= i < r.len() implies #[trigger] r[i].1 >= d by {
                if i < a.len() {
                    assert(r[i] == a[i]);
                } else {
                    assert(r[i] == b[i - a.len()]);
                }
            }
        }
    }
}

/// `x` comes before `y` among the siblings `cs`.
pub open spec fn sibling_before(cs: Seq<NodeId>, x: NodeId, y: NodeId) -> bool {
    exists|a: int, b: int| 0 <= a < b < cs.len() && cs[a] == x && cs[b] == y
}

/// The entries a walk of the siblings `cs` draws at the siblings' own
/// depth `d` are siblings of `cs`, in the order `cs` gives them.
proof fn lemma_draw_list_heads(t: &Tree, ws: &WidgetStore<Window>, column: u64, ok: Set<NodeId>, cs: Seq<NodeId>, d: nat, k: nat)
    ensures
        forall|i: int| 0 <= i < draw_list(t, ws, column, ok, cs, d, k).len()
            && #[trigger] draw_list(t, ws, column, ok, cs, d, k)[i].1 == d ==> cs.contains(draw_list(t, ws, column, ok, cs, d, k)[i].0),
        forall|i: int, j: int| #![trigger draw_list(t, ws, column, ok, cs, d, k)[i], draw_list(t, ws, column, ok, cs, d, k)[j]]
            0 <= i < j < draw_list(t, ws, column, ok, cs, d, k).len()
            && draw_list(t, ws, column, ok, cs, d, k)[i].1 == d && draw_list(t, ws, column, ok, cs, d, k)[j].1 == d
            ==> sibling_before(cs, draw_list(t, ws, column, ok, cs, d, k)[i].0, draw_list(t, ws, column, ok, cs, d, k)[j].0),
    decreases cs.len(),
{
    if cs.len() > 0 {
        let r = draw_list(t, ws, column, ok, cs, d, k);
        let b = draw_list(t, ws, column, ok, cs.drop_first(), d, k);
        let cs1 = cs.drop_first();
        lemma_draw_list_heads(t, ws, column, ok, cs1, d, k);
        if is_window(t, ws, column, cs[0]) {
            assert(r == b);
            assert forall|i: int| 0 <= i < r.len() && #[trigger] r[i].1 == d implies cs.contains(r[i].0) by {
                let m = choose|m: int| 0 <= m < cs1.len() && cs1[m] == b[i].0;
                assert(cs[m + 1] == b[i].0);
            }
            assert forall|i: int, j: int| #![trigger r[i], r[j]] 0 <= i < j < r.len() && r[i].1 == d && r[j].1 == d
                implies sibling_before(cs, r[i].0, r[j].0) by {
                assert(sibling_before(cs1, b[i].0, b[j].0));
                let (x, y) = choose|x: int, y: int| 0 <= x < y < cs1.len() && cs1[x] == b[i].0 && cs1[y] == b[j].0;
                assert(cs[x + 1] == b[i].0 && cs[y + 1] == b[j].0);
            }
        } else {
            lemma_draw_from_above(t, ws, column, ok, cs[0], d, k);
            let a = draw_from(t, ws, column, ok, cs[0], d, k);
            assert(r == a + b);
            assert forall|i: int| 0 <= i < r.len() && #[trigger] r[i].1 == d implies cs.contains(r[i].0) by {
                if i < a.len() {
                    assert(r[i] == a[i]);
                    assert(i == 0);
                    assert(cs[0] == r[i].0);
                } else {
                    assert(r[i] == b[i - a.len()]);
                    let m = choose|m: int| 0 <= m < cs1.len() && cs1[m] == b[i - a.len()].0;
                    assert(cs[m + 1] == b[i - a.len()].0);
                }
            }
            assert forall|i: int, j: int| #![trigger r[i], r[j]] 0 <= i < j < r.len() && r[i].1 == d && r[j].1 == d
                implies sibling_before(cs, r[i].0, r[j].0) by {
                if j < a.len() {
                    assert(r[j] == a[j]);
                    assert(false);
                } else if i < a.len() {
                    assert(r[i] == a[i]);
                    assert(i == 0);
                    assert(r[j] == b[j - a.len()]);
                    let m = choose|m: int| 0 <= m < cs1.len() && cs1[m] == b[j - a.len()].0;
                    assert(cs[0] == r[i].0 && cs[m + 1] == r[j].0);
                } else {
                    assert(r[i] == b[i - a.len()]);
                    assert(r[j] == b[j - a.len()]);
                    assert(sibling_before(cs1, b[i - a.len()].0, b[j - a.len()].0));
                    let (x, y) = choose|x: int, y: int| 0 <= x < y < cs1.len() && cs1[x] == b[i - a.len()].0 && cs1[y] == b[j - a.len()].0;
                    assert(cs[x + 1] == r[i].0 && cs[y + 1] == r[j].0);
                }
            }
        }
    }
}

/// A frame draws a window's own children in their sibling order: of the
/// entries one z above the window, an earlier one is an earlier child.
pub proof fn lemma_draw_children_in_order(t: &Tree, ws: &WidgetStore<Window>, column: u64, ok: Set<NodeId>, window: NodeId)
    requires
        t.wf(),
        t.is_live(window),
    ensures
        forall|i: int, j: int| #![trigger draw_order(t, ws, column, ok, window, 0)[i], draw_order(t, ws, column, ok, window, 0)[j]]
            0 <= i < j < draw_order(t, ws, column, ok, window, 0).len()
            && draw_order(t, ws, column, ok, window, 0)[i].1 == 1 && draw_order(t, ws, column, ok, window, 0)[j].1 == 1
            ==> sibling_before(t.node(window).children@, draw_order(t, ws, column, ok, window, 0)[i].0, draw_order(t, ws, column, ok, window, 0)[j].0),
{
    lemma_depth_below_slots(t, window);
    let r = draw_order(t, ws, column, ok, window, 0);
    let k = room(t, window);
    assert(k > 0);
    if ok.contains(window) {
        let cs = t.node(window).children@;
        let b = draw_list(t, ws, column, ok, cs, 1, (k - 1) as nat);
        assert(r == seq![(window, 0nat)] + b);
        lemma_draw_list_heads(t, ws, column, ok, cs, 1, (k - 1) as nat);
        assert forall|i: int, j: int| #![trigger r[i], r[j]] 0 <= i < j < r.len() && r[i].1 == 1 && r[j].1 == 1
            implies sibling_before(cs, r[i].0, r[j].0) by {
            assert(i > 0);
            assert(r[i] == b[i - 1]);
            assert(r[j] == b[j - 1]);
        }
    }
}

/// A frame's z order is tree depth: every node a frame of `window` draws
/// is drawn at exactly its depth in the tree below the window, so each
/// drawn node sits one level above its parent and, in a chain of nested
/// nodes, each is strictly above the one that holds it.
pub proof fn lemma_draw_z_is_depth(t: &Tree, ws: &WidgetStore<Window>, column: u64, ok: Set<NodeId>, window: NodeId)
    requires
        t.wf(),
    ensures
        forall|i: int| 0 <= i < draw_order(t, ws, column, ok, window, 0).len() ==>
            #[trigger] draw_order(t, ws, column, ok, window, 0)[i].1 + t.depth_of(window)
                == t.depth_of(draw_order(t, ws, column, ok, window, 0)[i].0),
{
    lemma_draw_from_depth(t, ws, column, ok, window, 0, room(t, window));
}

/// A frame draws in preorder: every node it draws after the window comes
/// after the node it hangs from, drawn one z below it, so a parent is
/// always under its children.
pub proof fn lemma_draw_parent_first(t: &Tree, ws: &WidgetStore<Window>, column: u64, ok: Set<NodeId>, window: NodeId)
    requires
        t.wf(),
    ensures
        drawn_after_parent(t, draw_order(t, ws, column, ok, window, 0)),
{
    lemma_draw_from_parent(t, ws, column, ok, window, 0, room(t, window));
    let r = draw_order(t, ws, column, ok, window, 0);
    let f = draw_from(t, ws, column, ok, window, 0, room(t, window));
    assert(r == f);
    assert forall|i: int| 0 < i < r.len() implies #[trigger] parent_before(t, r, i) by {
        assert(f[i] == r[i]);
        let j = choose|j: int| 0 <= j < i && t.node(f[i].0).parent == t.node(f[j].0).id && f[j].1 + 1 == f[i].1;
        assert(f[j] == r[j]);
    }
}

/// Some entry of `r` before the `i`-th is for the node the `i`-th hangs
/// from, one z below it.
pub open spec fn parent_before(t: &Tree, r: Seq<(NodeId, nat)>, i: int) -> bool {
    exists|j: int| 0 <= j < i && t.node(r[i].0).parent == t.node(r[j].0).id && r[j].1 + 1 == r[i].1
}

/// Each entry of `r` after the first comes after an entry for the node it
/// hangs from, one z below it.
pub open spec fn drawn_after_parent(t: &Tree, r: Seq<(NodeId, nat)>) -> bool {
    forall|i: int| 0 < i < r.len() ==> #[trigger] parent_before(t, r, i)
}

/// A frame of `window` draws only nodes that can be drawn, starts with the
/// window itself at z 0 when the window can be drawn (and draws nothing
/// when it cannot), and never draws another window: a nested window is
/// presented on its own surface.
pub proof fn lemma_draw_what(t: &Tree, ws: &WidgetStore<Window>, column: u64, ok: Set<NodeId>, window: NodeId)
    requires
        t.wf(),
    ensures
        forall|i: int| 0 <= i < draw_order(t, ws, column, ok, window, 0).len() ==>
            ok.contains(#[trigger] draw_order(t, ws, column, ok, window, 0)[i].0),
        forall|i: int| 0 < i < draw_order(t, ws, column, ok, window, 0).len() ==>
            !is_window(t, ws, column, #[trigger] draw_order(t, ws, column, ok, window, 0)[i].0),
        ok.contains(window) ==> draw_order(t, ws, column, ok, window, 0).len() > 0
            && draw_order(t, ws, column, ok, window, 0)[0] == (window, 0nat),
        !ok.contains(window) ==> draw_order(t, ws, column, ok, window, 0).len() == 0,
{
    lemma_draw_from_depth(t, ws, column, ok, window, 0, room(t, window));
}

/// The entries of a walk stack sit no deeper below the window than below
/// the root, so their depths stay below the number of slots.
spec fn stack_ok(t: &Tree, s: Seq<(NodeId, u64)>) -> bool {
    forall|i: int| 0 <= i < s.len() ==> (t.is_live(#[trigger] s[i].0) && s[i].1 <= t.depth_of(s[i].0)) || s[i].1 == 0
}

/// A walk's depths as mathematical integers.
pub open spec fn as_nat(s: Seq<(NodeId, u64)>) -> Seq<(NodeId, nat)> {
    s.map_values(|e: (NodeId, u64)| (e.0, e.1 as nat))
}

/// Push the children of `cs` a frame walks into, at depth `d`, last first,
/// so the first one ends on top.
fn push_drawn_children(stack: &mut Vec<(NodeId, u64)>, t: &Tree, ws: &WidgetStore<Window>, column: u64, cs: &[NodeId], d: u64)
    requires
        t.wf(),
        forall|i: int| 0 <= i < cs@.len() ==> t.is_live(#[trigger] cs@[i]) && d <= t.depth_of(cs@[i]),
    ensures
        as_nat(final(stack)@) == as_nat(old(stack)@) + drawn_children(t, ws, column, cs@, d as nat).reverse(),
        stack_ok(t, old(stack)@) ==> stack_ok(t, final(stack)@),
{
    let n = cs.len();
    let mut i: usize = n;
    while i > 0
        invariant
            t.wf(),
            forall|i: int| 0 <= i < cs@.len() ==> t.is_live(#[trigger] cs@[i]) && d <= t.depth_of(cs@[i]),
            i <= n,
            n == cs@.len(),
            as_nat(stack@) == as_nat(old(stack)@) + drawn_children(t, ws, column, cs@.subrange(i as int, n as int), d as nat).reverse(),
            stack_ok(t, old(stack)@) ==> stack_ok(t, stack@),
            forall|j: int| old(stack)@.len() <= j < stack@.len() ==> t.is_live(#[trigger] stack@[j].0) && stack@[j].1 <= t.depth_of(stack@[j].0),
            stack@.len() >= old(stack)@.len(),
            forall|j: int| 0 <= j < old(stack)@.len() ==> #[trigger] stack@[j] == old(stack)@[j],
        decreases i,
    {
        i -= 1;
        let c = cs[i];
        let ghost sub = cs@.subrange(i as int, n as int);
        proof {
            assert(sub[0] == c);
            assert(sub.drop_first() =~= cs@.subrange(i + 1, n as int));
            assert(t.is_live(cs@[i as int]));
        }
        if !check_window(t, ws, column, c) {
            let ghost before = stack@;
            stack.push((c, d));
            proof {
                let tail = drawn_children(t, ws, column, cs@.subrange(i + 1, n as int), d as nat);
                assert(drawn_children(t, ws, column, sub, d as nat) == seq![(c, d as nat)] + tail);
                assert((seq![(c, d as nat)] + tail).reverse() =~= tail.reverse().push((c, d as nat)));
                assert(as_nat(stack@) =~= as_nat(before).push((c, d as nat)));
                assert(as_nat(stack@) =~= as_nat(old(stack)@) + drawn_children(t, ws, column, sub, d as nat).reverse());
            }
        } else {
            proof {
                assert(drawn_children(t, ws, column, sub, d as nat) == drawn_children(t, ws, column, cs@.subrange(i + 1, n as int), d as nat));
            }
        }
    }
    proof {
        assert(cs@.subrange(0, n as int) =~= cs@);
    }
}

/// A node can be drawn: it has a layout and a paint, both visible in their
/// columns as they sit in the store.
pub open spec fn is_drawable<L: Default, P: Default>(layouts: &Components<L>, paints: &Components<P>, id: NodeId) -> bool {
    !layouts.lent() && layouts.shows(id) && !paints.lent() && paints.shows(id)
}

/// The nodes that can be drawn.
pub open spec fn drawable_set<L: Default, P: Default>(layouts: &Components<L>, paints: &Components<P>) -> Set<NodeId> {
    Set::new(|id: NodeId| is_drawable(layouts, paints, id))
}

fn check_drawable<L: Default, P: Default>(layouts: &Components<L>, paints: &Components<P>, id: NodeId) -> (b: bool)
    ensures
        b == is_drawable(layouts, paints, id),
{
    layouts.read(id).is_some() && paints.read(id).is_some()
}

/// The nodes a frame of `window` draws, in preorder, each with its depth
/// below the window: the window, then each child's subtree in sibling
/// order, skipping any child that is a window of its own with its whole
/// subtree, since that one is presented on its own surface. Depth is the
/// drawing's z order: a child is always above its parent.
pub fn draw_walk<L: Default, P: Default>(
    t: &Tree,
    ws: &WidgetStore<Window>,
    column: u64,
    layouts: &Components<L>,
    paints: &Components<P>,
    window: NodeId,
) -> (r: Vec<(NodeId, u64)>)
    requires
        t.wf(),
    ensures
        as_nat(r@) == draw_order(t, ws, column, drawable_set(layouts, paints), window, 0),
        forall|i: int| 0 <= i < r@.len() ==> #[trigger] r@[i].1 + t.depth_of(window) == t.depth_of(r@[i].0),
        forall|i: int| 0 <= i < r@.len() ==> is_drawable(layouts, paints, #[trigger] r@[i].0),
        forall|i: int| 0 < i < r@.len() ==> !is_window(t, ws, column, #[trigger] r@[i].0),
        is_drawable(layouts, paints, window) ==> r@.len() > 0 && r@[0] == (window, 0u64),
        !is_drawable(layouts, paints, window) ==> r@.len() == 0,
        drawn_after_parent(t, as_nat(r@)),
        t.is_live(window) ==> forall|i: int, j: int| #![trigger r@[i], r@[j]] 0 <= i < j < r@.len() && r@[i].1 == 1 && r@[j].1 == 1
            ==> sibling_before(t.node(window).children@, r@[i].0, r@[j].0),
{
    let ghost ok = drawable_set(layouts, paints);
    let mut order: Vec<(NodeId, u64)> = Vec::new();
    let mut stack: Vec<(NodeId, u64)> = Vec::new();
    stack.push((window, 0));
    proof {
        assert(as_nat(stack@) =~= Seq::<(NodeId, nat)>::empty().push((window, 0nat)));
        lemma_draw_pop(t, ws, column, ok, Seq::empty(), (window, 0nat));
        assert(Seq::<(NodeId, nat)>::empty().reverse() =~= Seq::<(NodeId, nat)>::empty());
        assert(as_nat(stack@).reverse() =~= as_nat(stack@));
        assert(draw_order(t, ws, column, ok, window, 0) + Seq::<(NodeId, nat)>::empty() =~= draw_order(t, ws, column, ok, window, 0));
        assert(as_nat(order@) + draw_all(t, ws, column, ok, as_nat(stack@).reverse()) =~= draw_order(t, ws, column, ok, window, 0));
    }
    while stack.len() > 0
        invariant
            t.wf(),
            stack_ok(t, stack@),
            ok == drawable_set(layouts, paints),
            as_nat(order@) + draw_all(t, ws, column, ok, as_nat(stack@).reverse()) == draw_order(t, ws, column, ok, window, 0),
        decreases draw_all(t, ws, column, ok, as_nat(stack@).reverse()).len(), stack@.len(),
    {
        let ghost s0 = stack@;
        let (x, d) = stack.pop().unwrap();
        let ghost rest = stack@;
        proof {
            assert(s0 =~= rest.push((x, d)));
            assert(as_nat(s0) =~= as_nat(rest).push((x, d as nat)));
            lemma_draw_pop(t, ws, column, ok, as_nat(rest), (x, d as nat));
            assert(s0[s0.len() - 1] == (x, d));
            assert(stack_ok(t, rest)) by {
                assert forall|i: int| 0 <= i < rest.len() implies (t.is_live(#[trigger] rest[i].0) && rest[i].1 <= t.depth_of(rest[i].0)) || rest[i].1 == 0 by {
                    assert(rest[i] == s0[i]);
                }
            }
        }
        if !check_drawable(layouts, paints, x) {
            proof {
                assert(!ok.contains(x));
                assert(draw_order(t, ws, column, ok, x, d as nat) =~= Seq::<(NodeId, nat)>::empty());
                assert(as_nat(stack@) == as_nat(rest));
                assert(Seq::<(NodeId, nat)>::empty() + draw_all(t, ws, column, ok, as_nat(rest).reverse())
                    =~= draw_all(t, ws, column, ok, as_nat(rest).reverse()));
            }
            continue;
        }
        proof {
            assert(ok.contains(x));
        }
        let ghost before = order@;
        order.push((x, d));
        proof {
            assert(as_nat(order@) =~= as_nat(before).push((x, d as nat)));
        }
        match t.children(x) {
            Some(children) => {
                proof {
                    lemma_draw_unfold(t, ws, column, ok, x, d as nat);
                    lemma_depth_below_slots(t, x);
                }
                let slots = t.slot_count();
                proof {
                    lemma_children_of(t, x);
                    assert(d <= t.depth_of(x));
                    assert(d < slots);
                }
                push_drawn_children(&mut stack, t, ws, column, children, d + 1);
                proof {
                    lemma_draw_push(t, ws, column, ok, as_nat(rest), drawn_children(t, ws, column, children@, (d + 1) as nat));
                    assert(as_nat(order@) + draw_all(t, ws, column, ok, as_nat(stack@).reverse())
                        =~= as_nat(before) + (seq![(x, d as nat)] + draw_all(t, ws, column, ok, drawn_children(t, ws, column, children@, (d + 1) as nat)))
                            + draw_all(t, ws, column, ok, as_nat(rest).reverse()));
                }
            },
            None => {
                proof {
                    assert(ok.contains(x));
                    assert(draw_order(t, ws, column, ok, x, d as nat) == seq![(x, d as nat)]);
                    assert(as_nat(order@) + draw_all(t, ws, column, ok, as_nat(stack@).reverse())
                        =~= as_nat(before) + draw_order(t, ws, column, ok, x, d as nat) + draw_all(t, ws, column, ok, as_nat(rest).reverse()));
                }
            },
        }
    }
    proof {
        assert(as_nat(stack@).reverse() =~= Seq::<(NodeId, nat)>::empty());
        assert(as_nat(order@) + Seq::<(NodeId, nat)>::empty() =~= as_nat(order@));
        lemma_draw_z_is_depth(t, ws, column, ok, window);
        lemma_draw_what(t, ws, column, ok, window);
        assert forall|i: int| 0 <= i < order@.len() implies #[trigger] order@[i].1 + t.depth_of(window) == t.depth_of(order@[i].0) by {
            assert(as_nat(order@)[i] == (order@[i].0, order@[i].1 as nat));
        }
        assert forall|i: int| 0 <= i < order@.len() implies is_drawable(layouts, paints, #[trigger] order@[i].0) by {
            assert(as_nat(order@)[i] == (order@[i].0, order@[i].1 as nat));
            assert(ok.contains(as_nat(order@)[i].0));
        }
        assert forall|i: int| 0 < i < order@.len() implies !is_window(t, ws, column, #[trigger] order@[i].0) by {
            assert(as_nat(order@)[i] == (order@[i].0, order@[i].1 as nat));
            assert(!is_window(t, ws, column, as_nat(order@)[i].0));
        }
        lemma_draw_parent_first(t, ws, column, ok, window);
        if t.is_live(window) {
            lemma_draw_children_in_order(t, ws, column, ok, window);
            let o = as_nat(order@);
            assert forall|i: int, j: int| #![trigger order@[i], order@[j]] 0 <= i < j < order@.len() && order@[i].1 == 1 && order@[j].1 == 1
                implies sibling_before(t.node(window).children@, order@[i].0, order@[j].0) by {
                assert(o[i] == (order@[i].0, order@[i].1 as nat));
                assert(o[j] == (order@[j].0, order@[j].1 as nat));
            }
        }
        if is_drawable(layouts, paints, window) {
            assert(ok.contains(window));
            assert(as_nat(order@)[0] == (order@[0].0, order@[0].1 as nat));
        }
    }
    order
}


// ── every window's buffers ───────────────────────────────────────────────────

/// One window's buffers: their state, the object ids of its two
/// `wl_buffer`s, and what the drawing side keeps for them.
pub struct WindowBuffers<S> {
    pub window: NodeId,
    pub buffers: Buffers,
    pub ids: (u32, u32),
    pub gpu: S,
}

impl<S> WindowBuffers<S> {
    /// The entry as plain values.
    pub open spec fn entry(&self) -> (NodeId, BuffersView, (u32, u32), S) {
        (self.window, self.buffers.view(), self.ids, self.gpu)
    }
}

/// Whether entry `i` of `e` is the window `w`.
pub open spec fn is_at<S>(e: Seq<(NodeId, BuffersView, (u32, u32), S)>, w: NodeId, i: int) -> bool {
    0 <= i < e.len() && e[i].0 == w
}

/// Whether `e` has an entry for the window `w`.
pub open spec fn has_window<S>(e: Seq<(NodeId, BuffersView, (u32, u32), S)>, w: NodeId) -> bool {
    exists|i: int| is_at(e, w, i)
}

/// The entry of the window `w` in `e`.
pub open spec fn index_of<S>(e: Seq<(NodeId, BuffersView, (u32, u32), S)>, w: NodeId) -> int {
    choose|i: int| is_at(e, w, i)
}

/// Whether entry `i` of `e` has the buffer `id`.
pub open spec fn holds<S>(e: Seq<(NodeId, BuffersView, (u32, u32), S)>, i: int, id: u32) -> bool {
    0 <= i < e.len() && (e[i].2.0 == id || e[i].2.1 == id)
}

/// Whether some entry of `e` has the buffer `id`.
pub open spec fn held<S>(e: Seq<(NodeId, BuffersView, (u32, u32), S)>, id: u32) -> bool {
    exists|i: int| holds(e, i, id)
}

/// The entry of `e` that has the buffer `id`.
pub open spec fn holder<S>(e: Seq<(NodeId, BuffersView, (u32, u32), S)>, id: u32) -> int {
    choose|i: int| holds(e, i, id)
}

/// `e` without entry `i`, the last entry taking its place.
pub open spec fn without<T>(e: Seq<T>, i: int) -> Seq<T> {
    e.update(i, e.last()).drop_last()
}

/// No two entries of `e` are for one window.
pub open spec fn distinct_windows<S>(e: Seq<(NodeId, BuffersView, (u32, u32), S)>) -> bool {
    forall|i: int, j: int| 0 <= i < e.len() && 0 <= j < e.len() && i != j ==> #[trigger] e[i].0 != #[trigger] e[j].0
}

/// Entries kept for distinct windows are entries of distinct windows.
proof fn lemma_entries_distinct<S>(w: Seq<WindowBuffers<S>>)
    requires
        forall|i: int, j: int| 0 <= i < w.len() && 0 <= j < w.len() && i != j ==> #[trigger] w[i].window != #[trigger] w[j].window,
    ensures
        distinct_windows(w.map_values(|e: WindowBuffers<S>| e.entry())),
{
    let e = w.map_values(|e: WindowBuffers<S>| e.entry());
    assert forall|i: int, j: int| 0 <= i < e.len() && 0 <= j < e.len() && i != j implies #[trigger] e[i].0 != #[trigger] e[j].0 by {
        assert(e[i].0 == w[i].window);
        assert(e[j].0 == w[j].window);
    }
}

/// What a `Frame` for one window comes to. See [`Render::frame`].
pub enum FrameStep<S> {
    /// A zero size: nothing to draw into.
    Empty,
    /// The window needs buffers at the frame's size first; the old ones, if
    /// any, are handed back to free.
    Allocate(Option<WindowBuffers<S>>),
    /// The compositor still holds the back buffer: the frame is skipped and
    /// its release asks again.
    Skip,
    /// Draw into this buffer (`false` for the first).
    Draw(bool),
}

/// The buffers of every window, and which window each `wl_buffer` belongs
/// to, so a release reaches its window. A window has one entry at most, and
/// no two buffers share an id.
pub struct Render<S> {
    windows: Vec<WindowBuffers<S>>,
    by_buffer: HashMap<u32, (NodeId, bool)>,
}

impl<S> Resource for Render<S> {}

impl<S> Render<S> {
    /// The entries, in the order they are kept.
    pub closed spec fn entries(&self) -> Seq<(NodeId, BuffersView, (u32, u32), S)> {
        self.windows@.map_values(|e: WindowBuffers<S>| e.entry())
    }

    #[verifier::type_invariant]
    closed spec fn wf(self) -> bool {
        let w = self.windows@;
        let m = self.by_buffer@;
        &&& forall|i: int, j: int|
            0 <= i < w.len() && 0 <= j < w.len() && i != j ==> #[trigger] w[i].window != #[trigger] w[j].window
        &&& forall|i: int|
            0 <= i < w.len() ==> {
                &&& m.contains_key((#[trigger] w[i]).ids.0)
                &&& m[w[i].ids.0] == (w[i].window, false)
                &&& m.contains_key(w[i].ids.1)
                &&& m[w[i].ids.1] == (w[i].window, true)
            }
        &&& forall|k: u32|
            #[trigger] m.contains_key(k) ==> exists|i: int| 0 <= i < w.len() && (w[i].ids.0 == k || w[i].ids.1 == k)
    }

    /// No window has buffers yet.
    pub fn new() -> (r: Self)
        ensures
            r.entries() == Seq::<(NodeId, BuffersView, (u32, u32), S)>::empty(),
            distinct_windows(r.entries()),
    {
        let r = Render { windows: Vec::new(), by_buffer: HashMap::new() };
        proof {
            assert(r.entries() =~= Seq::<(NodeId, BuffersView, (u32, u32), S)>::empty());
        }
        r
    }

    fn position(&self, w: NodeId) -> (r: Option<usize>)
        ensures
            r matches Some(i) ==> is_at(self.entries(), w, i as int) && index_of(self.entries(), w) == i,
            r is None ==> !has_window(self.entries(), w),
    {
        proof {
            use_type_invariant(self);
        }
        let mut i: usize = 0;
        while i < self.windows.len()
            invariant
                i <= self.windows@.len(),
                self.wf(),
                forall|j: int| 0 <= j < i ==> self.windows@[j].window != w,
            decreases self.windows@.len() - i,
        {
            if self.windows[i].window == w {
                proof {
                    assert(is_at(self.entries(), w, i as int));
                    let c = index_of(self.entries(), w);
                    assert(is_at(self.entries(), w, c));
                    assert(self.windows@[c].window == w);
                    assert(self.windows@[i as int].window == w);
                }
                return Some(i);
            }
            i += 1;
        }
        proof {
            if has_window(self.entries(), w) {
                let c = choose|c: int| is_at(self.entries(), w, c);
                assert(self.windows@[c].window == w);
            }
        }
        None
    }

    /// Whether the window `w` has buffers.
    pub fn contains(&self, w: NodeId) -> (r: bool)
        ensures
            r == has_window(self.entries(), w),
    {
        self.position(w).is_some()
    }

    /// Whether some window has the buffer `id`.
    pub fn holds_buffer(&self, id: u32) -> (r: bool)
        ensures
            r == held(self.entries(), id),
    {
        proof {
            use_type_invariant(self);
        }
        broadcast use vstd::std_specs::hash::group_hash_axioms;
        let r = self.by_buffer.contains_key(&id);
        proof {
            if r {
                let i = choose|i: int| 0 <= i < self.windows@.len() && (self.windows@[i].ids.0 == id || self.windows@[i].ids.1 == id);
                assert(holds(self.entries(), i, id));
            }
            if held(self.entries(), id) {
                let i = choose|i: int| holds(self.entries(), i, id);
                assert(self.windows@[i].ids.0 == id || self.windows@[i].ids.1 == id);
            }
        }
        r
    }

    /// Whether the buffers of the window `w` were allocated at `width` by
    /// `height`; `None` if it has none.
    pub fn fits(&self, w: NodeId, width: u32, height: u32) -> (r: Option<bool>)
        ensures
            r is None <==> !has_window(self.entries(), w),
            r matches Some(f) ==> f == (self.entries()[index_of(self.entries(), w)].1.size == (width, height)),
    {
        match self.position(w) {
            Some(i) => Some(self.windows[i].buffers.fits(width, height)),
            None => None,
        }
    }

    /// Take entry `i` out, the last entry taking its place.
    fn remove_at(&mut self, i: usize) -> (r: WindowBuffers<S>)
        requires
            i < old(self).entries().len(),
        ensures
            r.entry() == old(self).entries()[i as int],
            final(self).entries() == without(old(self).entries(), i as int),
    {
        broadcast use vstd::std_specs::hash::group_hash_axioms;
        proof {
            use_type_invariant(&*self);
        }
        let mut cur = Render { windows: Vec::new(), by_buffer: HashMap::new() };
        std::mem::swap(&mut cur, self);
        proof {
            use_type_invariant(&cur);
        }
        let ghost before = cur;
        let Render { windows, by_buffer } = cur;
        let mut windows = windows;
        let mut by_buffer = by_buffer;
        let ghost w0 = windows@;
        let ghost n = w0.len();
        let gone = windows.swap_remove(i);
        by_buffer.remove(&gone.ids.0);
        by_buffer.remove(&gone.ids.1);
        proof {
            let w = windows@;
            let m = by_buffer@;
            let m0 = before.by_buffer@;
            assert(w == without(w0, i as int));
            // where each remaining entry came from
            assert forall|a: int| 0 <= a < w.len() implies (#[trigger] w[a]) == w0[if a == i { n - 1 } else { a }] && (if a == i { n - 1 } else { a }) != i by {}
            assert forall|a: int| 0 <= a < w.len() implies {
                &&& m.contains_key((#[trigger] w[a]).ids.0)
                &&& m[w[a].ids.0] == (w[a].window, false)
                &&& m.contains_key(w[a].ids.1)
                &&& m[w[a].ids.1] == (w[a].window, true)
            } by {
                let b = if a == i { n - 1 } else { a };
                assert(w[a] == w0[b]);
                assert(w0[b].window != w0[i as int].window);
                assert(m0[w0[b].ids.0] == (w0[b].window, false));
                assert(m0[w0[i as int].ids.0] == (w0[i as int].window, false));
            }
            assert forall|k: u32| #[trigger] m.contains_key(k) implies exists|a: int| 0 <= a < w.len() && (w[a].ids.0 == k || w[a].ids.1 == k) by {
                assert(m0.contains_key(k));
                let b = choose|b: int| 0 <= b < w0.len() && (w0[b].ids.0 == k || w0[b].ids.1 == k);
                assert(b != i);
                if b == n - 1 {
                    assert(w[i as int] == w0[b]);
                } else {
                    assert(w[b] == w0[b]);
                }
            }
            assert forall|a: int, c: int| 0 <= a < w.len() && 0 <= c < w.len() && a != c implies #[trigger] w[a].window != #[trigger] w[c].window by {
                let ba = if a == i { n - 1 } else { a };
                let bc = if c == i { n - 1 } else { c };
                assert(w[a] == w0[ba]);
                assert(w[c] == w0[bc]);
            }
        }
        *self = Render { windows, by_buffer };
        proof {
            assert(final(self).entries() =~= without(old(self).entries(), i as int));
        }
        gone
    }

    /// Record the buffers just allocated for the window `w` at `width` by
    /// `height`: both free, the first one next. Their ids are new ones.
    pub fn add(&mut self, w: NodeId, width: u32, height: u32, ids: (u32, u32), gpu: S)
        requires
            !has_window(old(self).entries(), w),
            ids.0 != ids.1,
            !held(old(self).entries(), ids.0),
            !held(old(self).entries(), ids.1),
        ensures
            final(self).entries() == old(self).entries().push(
                (
                    w,
                    BuffersView { released: (true, true), back: false, size: (width, height), starved: false },
                    ids,
                    gpu,
                ),
            ),
            distinct_windows(final(self).entries()),
    {
        broadcast use vstd::std_specs::hash::group_hash_axioms;
        proof {
            use_type_invariant(&*self);
        }
        let mut cur = Render { windows: Vec::new(), by_buffer: HashMap::new() };
        std::mem::swap(&mut cur, self);
        proof {
            use_type_invariant(&cur);
        }
        let ghost before = cur;
        let Render { windows, by_buffer } = cur;
        let mut windows = windows;
        let mut by_buffer = by_buffer;
        let ghost w0 = windows@;
        windows.push(WindowBuffers { window: w, buffers: Buffers::new(width, height), ids, gpu });
        by_buffer.insert(ids.0, (w, false));
        by_buffer.insert(ids.1, (w, true));
        proof {
            let wv = windows@;
            let m = by_buffer@;
            let m0 = before.by_buffer@;
            let n = w0.len() as int;
            assert forall|a: int| 0 <= a < n implies (#[trigger] w0[a]).ids.0 != ids.0 && w0[a].ids.0 != ids.1
                && w0[a].ids.1 != ids.0 && w0[a].ids.1 != ids.1 && w0[a].window != w by {
                assert(wv[a] == w0[a]);
                if w0[a].ids.0 == ids.0 || w0[a].ids.1 == ids.0 {
                    assert(holds(old(self).entries(), a, ids.0));
                }
                if w0[a].ids.0 == ids.1 || w0[a].ids.1 == ids.1 {
                    assert(holds(old(self).entries(), a, ids.1));
                }
                if w0[a].window == w {
                    assert(is_at(old(self).entries(), w, a));
                }
            }
            assert forall|a: int| 0 <= a < wv.len() implies {
                &&& m.contains_key((#[trigger] wv[a]).ids.0)
                &&& m[wv[a].ids.0] == (wv[a].window, false)
                &&& m.contains_key(wv[a].ids.1)
                &&& m[wv[a].ids.1] == (wv[a].window, true)
            } by {
                if a < n {
                    assert(wv[a] == w0[a]);
                    assert(w0[a].ids.0 != ids.0);
                }
            }
            assert forall|k: u32| #[trigger] m.contains_key(k) implies exists|a: int| 0 <= a < wv.len() && (wv[a].ids.0 == k || wv[a].ids.1 == k) by {
                if k == ids.0 || k == ids.1 {
                    assert(wv[n].ids == ids);
                } else {
                    assert(m0.contains_key(k));
                    let b = choose|b: int| 0 <= b < w0.len() && (w0[b].ids.0 == k || w0[b].ids.1 == k);
                    assert(wv[b] == w0[b]);
                }
            }
            assert forall|a: int, c: int| 0 <= a < wv.len() && 0 <= c < wv.len() && a != c implies #[trigger] wv[a].window != #[trigger] wv[c].window by {
                if a < n {
                    assert(wv[a] == w0[a]);
                }
                if c < n {
                    assert(wv[c] == w0[c]);
                }
            }
        }
        *self = Render { windows, by_buffer };
        proof {
            assert(final(self).entries() =~= old(self).entries().push(
                (
                    w,
                    BuffersView { released: (true, true), back: false, size: (width, height), starved: false },
                    ids,
                    gpu,
                ),
            ));
        }
        proof {
            use_type_invariant(&*self);
            lemma_entries_distinct(self.windows@);
        }
    }

    /// Put back the buffers of entry `i`, changed.
    fn set_buffers(&mut self, i: usize, b: Buffers)
        requires
            i < old(self).entries().len(),
        ensures
            final(self).entries() == old(self).entries().update(
                i as int,
                (old(self).entries()[i as int].0, b.view(), old(self).entries()[i as int].2, old(self).entries()[i as int].3),
            ),
    {
        proof {
            use_type_invariant(&*self);
        }
        let mut cur = Render { windows: Vec::new(), by_buffer: HashMap::new() };
        std::mem::swap(&mut cur, self);
        proof {
            use_type_invariant(&cur);
        }
        let ghost before = cur;
        let Render { windows, by_buffer } = cur;
        let mut windows = windows;
        let ghost w0 = windows@;
        windows[i].buffers = b;
        proof {
            let wv = windows@;
            assert forall|a: int| 0 <= a < wv.len() implies (#[trigger] wv[a]).window == w0[a].window && wv[a].ids == w0[a].ids by {}
            assert forall|a: int, c: int| 0 <= a < wv.len() && 0 <= c < wv.len() && a != c implies #[trigger] wv[a].window != #[trigger] wv[c].window by {
                assert(wv[a].window == w0[a].window);
                assert(wv[c].window == w0[c].window);
            }
            assert forall|k: u32| #[trigger] by_buffer@.contains_key(k) implies exists|a: int| 0 <= a < wv.len() && (wv[a].ids.0 == k || wv[a].ids.1 == k) by {
                let b = choose|b: int| 0 <= b < w0.len() && (w0[b].ids.0 == k || w0[b].ids.1 == k);
                assert(wv[b].ids == w0[b].ids);
            }
        }
        *self = Render { windows, by_buffer };
        proof {
            assert(final(self).entries() =~= old(self).entries().update(
                i as int,
                (old(self).entries()[i as int].0, b.view(), old(self).entries()[i as int].2, old(self).entries()[i as int].3),
            ));
        }
    }

    /// A frame for the window `w`, which has buffers. Returns the buffer to
    /// draw into, or `None` when the compositor still holds it: the frame is
    /// skipped and remembered. See [`Buffers::begin_frame`].
    pub fn begin_frame(&mut self, w: NodeId) -> (r: Option<bool>)
        requires
            has_window(old(self).entries(), w),
        ensures
            ({
                let i = index_of(old(self).entries(), w);
                let x = old(self).entries()[i];
                &&& can_draw(x.1) ==> r == Some(x.1.back) && final(self).entries() == old(self).entries()
                &&& !can_draw(x.1) ==> r is None && final(self).entries() == old(self).entries().update(i, (x.0, after_skip(x.1), x.2, x.3))
            }),
            distinct_windows(final(self).entries()),
    {
        let i = self.position(w).unwrap();
        let mut b = self.windows[i].buffers;
        let r = b.begin_frame();
        self.set_buffers(i, b);
        proof {
            let x = old(self).entries()[i as int];
            if can_draw(x.1) {
                assert(final(self).entries() =~= old(self).entries());
            }
        }
        proof {
            use_type_invariant(&*self);
            lemma_entries_distinct(self.windows@);
        }
        r
    }

    /// The frame of the window `w` drew into its back buffer and attached
    /// it. See [`Buffers::attached`].
    pub fn attached(&mut self, w: NodeId)
        requires
            has_window(old(self).entries(), w),
        ensures
            ({
                let i = index_of(old(self).entries(), w);
                let x = old(self).entries()[i];
                final(self).entries() == old(self).entries().update(i, (x.0, after_attach(x.1), x.2, x.3))
            }),
            distinct_windows(final(self).entries()),
    {
        let i = self.position(w).unwrap();
        let mut b = self.windows[i].buffers;
        b.attached();
        self.set_buffers(i, b);
        proof {
            use_type_invariant(&*self);
            lemma_entries_distinct(self.windows@);
        }
    }

    /// The compositor gave the buffer `id` back. Returns the window whose
    /// frame, skipped for want of it, is to be asked for again. A buffer
    /// no window has is ignored.
    pub fn release(&mut self, id: u32) -> (r: Option<NodeId>)
        ensures
            !held(old(self).entries(), id) ==> r is None && final(self).entries() == old(self).entries(),
            held(old(self).entries(), id) ==> {
                let i = holder(old(self).entries(), id);
                let x = old(self).entries()[i];
                let second = x.2.1 == id;
                &&& final(self).entries() == old(self).entries().update(i, (x.0, after_release(x.1, second), x.2, x.3))
                &&& r == (if asks_again(x.1, second) { Some(x.0) } else { None })
            },
            distinct_windows(final(self).entries()),
    {
        broadcast use vstd::std_specs::hash::group_hash_axioms;
        proof {
            use_type_invariant(&*self);
        }
        let (w, second) = match self.by_buffer.get(&id) {
            Some(found) => *found,
            None => {
                proof {
                    if held(self.entries(), id) {
                        let c = holder(self.entries(), id);
                        assert(holds(self.entries(), c, id));
                        assert(self.windows@[c].ids.0 == id || self.windows@[c].ids.1 == id);
                    }
                }
                proof {
                    lemma_entries_distinct(self.windows@);
                }
                return None;
            },
        };
        let ghost e = self.entries();
        proof {
            let j = choose|j: int| 0 <= j < self.windows@.len() && (self.windows@[j].ids.0 == id || self.windows@[j].ids.1 == id);
            assert(is_at(e, w, j));
            assert(holds(e, j, id));
        }
        let i = self.position(w).unwrap();
        proof {
            let c = holder(e, id);
            assert(holds(e, c, id));
            let wc = self.windows@[c];
            assert(self.by_buffer@[wc.ids.0] == (wc.window, false));
            assert(self.by_buffer@[wc.ids.1] == (wc.window, true));
            assert(wc.window == w);
            assert(c == i);
            assert(second == (e[c].2.1 == id));
        }
        let mut b = self.windows[i].buffers;
        let again = b.release(second);
        self.set_buffers(i, b);
        proof {
            use_type_invariant(&*self);
            lemma_entries_distinct(self.windows@);
        }
        if again {
            Some(w)
        } else {
            None
        }
    }

    /// The decision a `Frame` for the window `w`, laid out at `width` by
    /// `height`, comes to: nothing to draw into at a zero size; buffers to
    /// allocate first (handing back the old ones, at another size, to
    /// free); the frame skipped because the compositor holds the back
    /// buffer; or the buffer to draw into, after which [`Render::attached`]
    /// records the attach. Once buffers are added the step is taken again.
    pub fn frame(&mut self, w: NodeId, width: u32, height: u32) -> (r: FrameStep<S>)
        ensures
            distinct_windows(final(self).entries()),
            (width == 0 || height == 0) ==> r is Empty && final(self).entries() == old(self).entries(),
            width != 0 && height != 0 && !has_window(old(self).entries(), w) ==> r is Allocate && r->Allocate_0 is None
                && final(self).entries() == old(self).entries(),
            width != 0 && height != 0 && has_window(old(self).entries(), w) ==> {
                let i = index_of(old(self).entries(), w);
                let x = old(self).entries()[i];
                &&& x.1.size != (width, height) ==> r is Allocate && (r->Allocate_0 matches Some(g) && g.entry() == x)
                    && final(self).entries() == without(old(self).entries(), i)
                &&& x.1.size == (width, height) && can_draw(x.1) ==> r == FrameStep::<S>::Draw(x.1.back)
                    && final(self).entries() == old(self).entries()
                &&& x.1.size == (width, height) && !can_draw(x.1) ==> r is Skip
                    && final(self).entries() == old(self).entries().update(i, (x.0, after_skip(x.1), x.2, x.3))
            },
    {
        if width == 0 || height == 0 {
            proof {
                use_type_invariant(&*self);
                lemma_entries_distinct(self.windows@);
            }
            return FrameStep::Empty;
        }
        match self.fits(w, width, height) {
            None => {
                proof {
                    use_type_invariant(&*self);
                    lemma_entries_distinct(self.windows@);
                }
                FrameStep::Allocate(None)
            },
            Some(false) => FrameStep::Allocate(self.remove(w)),
            Some(true) => match self.begin_frame(w) {
                Some(second) => FrameStep::Draw(second),
                None => FrameStep::Skip,
            },
        }
    }

    /// Drop the buffers of every window that is gone, handing back what the
    /// drawing side must free. The windows still there keep their entries,
    /// in some order.
    pub fn sweep(&mut self, t: &Tree, ws: &WidgetStore<Window>, column: u64) -> (gone: Vec<WindowBuffers<S>>)
        ensures
            forall|a: int| 0 <= a < final(self).entries().len() ==>
                is_window(t, ws, column, (#[trigger] final(self).entries()[a]).0) && old(self).entries().contains(final(self).entries()[a]),
            forall|b: int| 0 <= b < old(self).entries().len() && is_window(t, ws, column, (#[trigger] old(self).entries()[b]).0)
                ==> final(self).entries().contains(old(self).entries()[b]),
            forall|g: int| 0 <= g < gone@.len() ==>
                !is_window(t, ws, column, (#[trigger] gone@[g]).window) && old(self).entries().contains(gone@[g].entry()),
            forall|b: int| 0 <= b < old(self).entries().len() && !is_window(t, ws, column, (#[trigger] old(self).entries()[b]).0)
                ==> exists|g: int| 0 <= g < gone@.len() && (#[trigger] gone@[g]).entry() == old(self).entries()[b],
            final(self).entries().len() + gone@.len() == old(self).entries().len(),
            distinct_windows(final(self).entries()),
    {
        let ghost e0 = self.entries();
        let mut gone: Vec<WindowBuffers<S>> = Vec::new();
        let mut i: usize = 0;
        while i < self.windows.len()
            invariant
                e0 == old(self).entries(),
                i <= self.entries().len(),
                self.entries().len() == self.windows@.len(),
                forall|a: int| 0 <= a < i ==> is_window(t, ws, column, (#[trigger] self.entries()[a]).0),
                forall|a: int| 0 <= a < self.entries().len() ==> e0.contains(#[trigger] self.entries()[a]),
                forall|b: int| 0 <= b < e0.len() && is_window(t, ws, column, (#[trigger] e0[b]).0) ==> self.entries().contains(e0[b]),
                forall|g: int| 0 <= g < gone@.len() ==>
                    !is_window(t, ws, column, (#[trigger] gone@[g]).window) && e0.contains(gone@[g].entry()),
                forall|b: int| 0 <= b < e0.len() && !is_window(t, ws, column, (#[trigger] e0[b]).0) ==>
                    self.entries().contains(e0[b]) || exists|g: int| 0 <= g < gone@.len() && (#[trigger] gone@[g]).entry() == e0[b],
                self.entries().len() + gone@.len() == e0.len(),
            decreases self.entries().len() - i,
        {
            let w = self.windows[i].window;
            if check_window(t, ws, column, w) {
                proof {
                    assert(self.entries()[i as int].0 == w);
                }
                i += 1;
            } else {
                let ghost cur = self.entries();
                let ghost g0 = gone@;
                let x = self.remove_at(i);
                gone.push(x);
                proof {
                    let nw = self.entries();
                    let last = cur.len() - 1;
                    assert(x.entry() == cur[i as int]);
                    assert(x.window == w);
                    assert(gone@[g0.len() as int] == x);
                    assert forall|g: int| 0 <= g < gone@.len() implies
                        !is_window(t, ws, column, (#[trigger] gone@[g]).window) && e0.contains(gone@[g].entry()) by {
                        if g < g0.len() {
                            assert(gone@[g] == g0[g]);
                        }
                    }
                    assert forall|a: int| 0 <= a < nw.len() implies e0.contains(#[trigger] nw[a]) by {
                        if a == i {
                            assert(nw[a] == cur[last]);
                        } else {
                            assert(nw[a] == cur[a]);
                        }
                    }
                    assert forall|a: int| 0 <= a < i implies is_window(t, ws, column, (#[trigger] nw[a]).0) by {
                        assert(nw[a] == cur[a]);
                    }
                    assert forall|b: int| 0 <= b < e0.len() && is_window(t, ws, column, (#[trigger] e0[b]).0) implies nw.contains(e0[b]) by {
                        let a = choose|a: int| 0 <= a < cur.len() && cur[a] == e0[b];
                        assert(a != i);
                        if a == last {
                            assert(nw[i as int] == e0[b]);
                        } else {
                            assert(nw[a] == e0[b]);
                        }
                    }
                    assert forall|b: int| 0 <= b < e0.len() && !is_window(t, ws, column, (#[trigger] e0[b]).0) implies
                        nw.contains(e0[b]) || exists|g: int| 0 <= g < gone@.len() && (#[trigger] gone@[g]).entry() == e0[b] by {
                        if cur.contains(e0[b]) {
                            let a = choose|a: int| 0 <= a < cur.len() && cur[a] == e0[b];
                            if a == i {
                                assert(gone@[g0.len() as int].entry() == e0[b]);
                            } else if a == last {
                                assert(nw[i as int] == e0[b]);
                            } else {
                                assert(nw[a] == e0[b]);
                            }
                        } else {
                            let g = choose|g: int| 0 <= g < g0.len() && (#[trigger] g0[g]).entry() == e0[b];
                            assert(gone@[g] == g0[g]);
                        }
                    }
                }
            }
        }
        proof {
            use_type_invariant(&*self);
            lemma_entries_distinct(self.windows@);
        }
        gone
    }

    /// Drop the buffers of the window `w`, handing back what the drawing
    /// side must free; `None` if it has none.
    pub fn remove(&mut self, w: NodeId) -> (r: Option<WindowBuffers<S>>)
        ensures
            !has_window(old(self).entries(), w) ==> r is None && final(self).entries() == old(self).entries(),
            has_window(old(self).entries(), w) ==> {
                let i = index_of(old(self).entries(), w);
                &&& r matches Some(x) && x.entry() == old(self).entries()[i]
                &&& final(self).entries() == without(old(self).entries(), i)
            },
            distinct_windows(final(self).entries()),
    {
        let r = match self.position(w) {
            Some(i) => Some(self.remove_at(i)),
            None => None,
        };
        proof {
            use_type_invariant(&*self);
            lemma_entries_distinct(self.windows@);
        }
        r
    }
}

} // verus!
