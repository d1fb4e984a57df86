//! Presentation: where each window is in the on-demand frame loop, which
//! window a compositor object belongs to, and where the seat's pointer is.
//!
//! A `RequestFrame` for a window that has a surface, is configured, has no
//! frame callback outstanding and is not drawing is answered at once with a
//! `Frame`; the commit right behind it requests the next callback. A
//! request that arrives while a callback is outstanding, while a frame is
//! being drawn, or before the first configure only marks the window as
//! wanting another frame; when the callback is done, a wanted window goes
//! round again, and the configure clears what waited for it.
//!
//! The compositor's objects are named here by their wire ids; the proxies
//! that send on them live with the connection.

use std::collections::HashMap;
use vstd::prelude::*;
use vstd::std_specs::iter::IteratorSpec;
use crate::id::{NodeId, NONE};
use crate::tree::Tree;
use crate::widget_store::WidgetStore;
use crate::window::{Window, is_window, check_window};
use crate::wire::ObjectId;
use crate::component::Component;
use crate::resource::Resource;
use crate::input::{Input, MouseButton, PointerInput, button_of_code};

verus! {

/// A window's frame-loop state, as a plain value.
#[derive(Debug, Clone, Copy, PartialEq, Eq, Structural)]
pub struct FrameView {
    /// The window's `wl_surface`, once one was created for it.
    pub surface: Option<ObjectId>,
    /// The frame callback outstanding, if any.
    pub pending: Option<ObjectId>,
    /// A `Frame` was signalled and its commit has not run yet.
    pub drawing: bool,
    /// A request is waiting for the loop to come round.
    pub wanted: bool,
    /// The compositor has settled a size at least once.
    pub configured: bool,
    /// Whoever answered the current `Frame` attached a buffer.
    pub attached: bool,
}

/// A request is answered at once: there is a surface, it is configured,
/// and neither a callback nor a frame is under way.
pub open spec fn answers(v: FrameView) -> bool {
    v.surface is Some && v.pending is None && !v.drawing && v.configured
}

/// The state after a `RequestFrame`: drawing if it was answered, wanting
/// another frame if not.
pub open spec fn after_request(v: FrameView) -> FrameView {
    if answers(v) {
        FrameView { drawing: true, ..v }
    } else {
        FrameView { wanted: true, ..v }
    }
}

/// The commit behind a `Frame` happens when a buffer was attached and the
/// window has a surface to commit it on.
pub open spec fn commits(v: FrameView) -> bool {
    v.attached && v.surface is Some
}

/// The state after the commit step behind a `Frame`. A frame that attached
/// nothing is not committed and forgets what was wanted.
pub open spec fn after_commit_step(v: FrameView) -> FrameView {
    if !v.attached {
        FrameView { drawing: false, wanted: false, ..v }
    } else {
        FrameView { drawing: false, attached: false, ..v }
    }
}

/// The state after the commit asked for `callback`.
pub open spec fn after_callback_sent(v: FrameView, callback: ObjectId) -> FrameView {
    FrameView { pending: Some(callback), ..v }
}

/// The callback `sender` is done: it is the outstanding one.
pub open spec fn is_current(v: FrameView, sender: ObjectId) -> bool {
    v.pending == Some(sender)
}

/// The state after `done` from `sender`: the outstanding callback is
/// cleared along with what was wanted; any other sender changes nothing.
pub open spec fn after_done(v: FrameView, sender: ObjectId) -> FrameView {
    if is_current(v, sender) {
        FrameView { pending: None, wanted: false, ..v }
    } else {
        v
    }
}

/// `done` from `sender` sends the window round again.
pub open spec fn goes_round(v: FrameView, sender: ObjectId) -> bool {
    is_current(v, sender) && v.wanted
}

/// The state after the compositor settled a size: configured, and nothing
/// left waiting for it.
pub open spec fn after_configure(v: FrameView) -> FrameView {
    FrameView { configured: true, wanted: false, ..v }
}

/// The frame-loop state of one window. Empty on every node that is not a
/// window.
#[derive(Debug)]
pub struct Surface {
    surface: Option<ObjectId>,
    pending: Option<ObjectId>,
    drawing: bool,
    wanted: bool,
    configured: bool,
    attached: bool,
}

impl Component for Surface {}

impl Default for Surface {
    fn default() -> (s: Self)
        ensures
            s.view() == (FrameView {
                surface: None,
                pending: None,
                drawing: false,
                wanted: false,
                configured: false,
                attached: false,
            }),
    {
        Surface::new()
    }
}

impl Surface {
    pub closed spec fn view(&self) -> FrameView {
        FrameView {
            surface: self.surface,
            pending: self.pending,
            drawing: self.drawing,
            wanted: self.wanted,
            configured: self.configured,
            attached: self.attached,
        }
    }

    /// No surface, nothing under way, nothing configured.
    pub fn new() -> (s: Self)
        ensures
            s.view() == (FrameView {
                surface: None,
                pending: None,
                drawing: false,
                wanted: false,
                configured: false,
                attached: false,
            }),
    {
        Surface { surface: None, pending: None, drawing: false, wanted: false, configured: false, attached: false }
    }

    /// The window's surface, once it has one.
    pub fn surface(&self) -> (r: Option<ObjectId>)
        ensures
            r == self.view().surface,
    {
        self.surface
    }

    /// The frame callback outstanding, if any.
    pub fn pending(&self) -> (r: Option<ObjectId>)
        ensures
            r == self.view().pending,
    {
        self.pending
    }

    /// Whether the compositor has settled a size for the window.
    pub fn is_configured(&self) -> (r: bool)
        ensures
            r == self.view().configured,
    {
        self.configured
    }

    /// Whether a request is waiting for the loop to come round.
    pub fn is_wanted(&self) -> (r: bool)
        ensures
            r == self.view().wanted,
    {
        self.wanted
    }

    /// Whether a `Frame` was signalled and not yet committed.
    pub fn is_drawing(&self) -> (r: bool)
        ensures
            r == self.view().drawing,
    {
        self.drawing
    }

    /// Whether whoever answered the current `Frame` attached a buffer.
    pub fn is_attached(&self) -> (r: bool)
        ensures
            r == self.view().attached,
    {
        self.attached
    }

    /// Set by whoever answers `Frame` once it has attached a buffer.
    pub fn mark_attached(&mut self)
        ensures
            final(self).view() == (FrameView { attached: true, ..old(self).view() }),
    {
        self.attached = true;
    }

    /// A window without a surface is given one on the next `Tick`.
    pub fn needs_surface(&self) -> (r: bool)
        ensures
            r == (self.view().surface is None),
    {
        self.surface.is_none()
    }

    /// Record the surface created for the window.
    pub fn set_surface(&mut self, surface: ObjectId)
        ensures
            final(self).view() == (FrameView { surface: Some(surface), ..old(self).view() }),
    {
        self.surface = Some(surface);
    }

    /// A `RequestFrame` for this window. Returns whether it is answered
    /// now, with a `Frame` and the commit behind it; otherwise the window
    /// is marked as wanting another frame.
    pub fn request_frame(&mut self) -> (answered: bool)
        ensures
            answered == answers(old(self).view()),
            final(self).view() == after_request(old(self).view()),
    {
        if self.surface.is_none() || self.pending.is_some() || self.drawing || !self.configured {
            self.wanted = true;
            return false;
        }
        self.drawing = true;
        true
    }

    /// The step behind a `Frame`. Returns the surface to commit, with a
    /// frame callback requested in the same go, when a buffer was attached;
    /// `None` when nothing is to be committed.
    pub fn after_frame(&mut self) -> (commit: Option<ObjectId>)
        ensures
            final(self).view() == after_commit_step(old(self).view()),
            commits(old(self).view()) ==> commit == old(self).view().surface,
            !commits(old(self).view()) ==> commit is None,
            old(self).view().attached ==> final(self).view().wanted == old(self).view().wanted,
            !final(self).view().drawing,
            !final(self).view().attached,
            final(self).view().pending == old(self).view().pending,
            final(self).view().surface == old(self).view().surface,
            final(self).view().configured == old(self).view().configured,
    {
        self.drawing = false;
        if !self.attached {
            self.wanted = false;
            return None;
        }
        self.attached = false;
        self.surface
    }

    /// The commit asked for `callback`; it is the one outstanding now.
    pub fn callback_sent(&mut self, callback: ObjectId)
        ensures
            final(self).view() == after_callback_sent(old(self).view(), callback),
    {
        self.pending = Some(callback);
    }

    /// The compositor is done with the frame of `sender`. Returns whether
    /// the window goes round again: the callback was the outstanding one
    /// and another frame was wanted. A callback that is not outstanding is
    /// ignored.
    pub fn callback_done(&mut self, sender: ObjectId) -> (again: bool)
        ensures
            again == goes_round(old(self).view(), sender),
            final(self).view() == after_done(old(self).view(), sender),
    {
        match self.pending {
            Some(p) => {
                if p != sender {
                    return false;
                }
            },
            None => {
                return false;
            },
        }
        self.pending = None;
        let again = self.wanted;
        self.wanted = false;
        again
    }

    /// The compositor settled a size: a buffer may be attached from now on,
    /// and what waited for the configure is dropped, since the configure
    /// itself leads to a frame.
    pub fn configure(&mut self)
        ensures
            final(self).view() == after_configure(old(self).view()),
    {
        self.configured = true;
        self.wanted = false;
    }
}

/// Nothing is presented before the first configure: a request on an
/// unconfigured window is never answered, only remembered.
pub proof fn lemma_nothing_before_configure(v: FrameView)
    requires
        !v.configured,
    ensures
        !answers(v),
        after_request(v).wanted,
        !after_request(v).configured,
{
}

/// An idle, configured window with a surface answers a request at once.
pub proof fn lemma_idle_window_answers(v: FrameView)
    requires
        v.surface is Some,
        v.pending is None,
        !v.drawing,
        v.configured,
    ensures
        answers(v),
        after_request(v).drawing,
{
}

/// While a frame is being drawn, or a callback is outstanding, no further
/// request is answered: at most one frame is in flight per window.
pub proof fn lemma_one_frame_in_flight(v: FrameView, callback: ObjectId)
    requires
        answers(v),
    ensures
        !answers(after_request(v)),
        !answers(after_request(after_request(v))),
        commits(after_request(v)) ==> !answers(after_callback_sent(after_commit_step(after_request(v)), callback)),
{
}

/// A request that arrives while a callback is outstanding is not lost:
/// when that callback is done, the window goes round again.
pub proof fn lemma_busy_request_goes_round(v: FrameView, callback: ObjectId)
    requires
        v.pending == Some(callback),
    ensures
        !answers(v),
        goes_round(after_request(v), callback),
        after_done(after_request(v), callback).pending is None,
{
}

/// The full round of an answered, attached frame: drawn, committed with a
/// callback requested, and, once that callback is done with nothing wanted,
/// idle again and ready to answer the next request.
pub proof fn lemma_full_round(v: FrameView, callback: ObjectId)
    requires
        answers(v),
        !v.wanted,
    ensures
        ({
            let drawn = FrameView { attached: true, ..after_request(v) };
            let sent = after_callback_sent(after_commit_step(drawn), callback);
            &&& commits(drawn)
            &&& sent.pending == Some(callback)
            &&& !goes_round(sent, callback)
            &&& answers(after_done(sent, callback))
        }),
{
}

/// The commit step ends the frame whatever was attached: nothing is being
/// drawn or attached afterwards, and the surface, the outstanding callback
/// and the configure are as they were. A frame that attached nothing leaves
/// an otherwise idle window ready to answer the next request.
pub proof fn lemma_commit_step_ends_frame(v: FrameView)
    ensures
        !after_commit_step(v).drawing,
        !after_commit_step(v).attached,
        after_commit_step(v).surface == v.surface,
        after_commit_step(v).pending == v.pending,
        after_commit_step(v).configured == v.configured,
        !v.attached && v.surface is Some && v.pending is None && v.configured ==> answers(after_commit_step(v)),
{
}

/// A frame that attached a buffer keeps what was wanted through its
/// commit: once the callback the commit asked for is done, the window goes
/// round again exactly when another frame was wanted before the commit.
pub proof fn lemma_commit_keeps_wanted(v: FrameView, callback: ObjectId)
    requires
        v.attached,
    ensures
        after_commit_step(v).wanted == v.wanted,
        !after_commit_step(v).drawing,
        goes_round(after_callback_sent(after_commit_step(v), callback), callback) == v.wanted,
{
}

/// A request made while a frame is being drawn is not lost: it is not
/// answered then, but after that frame is attached and committed with a
/// callback, the callback's `done` sends the window round again, and the
/// next request after that is answered.
pub proof fn lemma_request_while_drawing_goes_round(v: FrameView, callback: ObjectId)
    requires
        answers(v),
    ensures
        ({
            let drawing = after_request(v);
            let again = after_request(drawing);
            let drawn = FrameView { attached: true, ..again };
            let sent = after_callback_sent(after_commit_step(drawn), callback);
            &&& !answers(drawing)
            &&& again.wanted
            &&& commits(drawn)
            &&& goes_round(sent, callback)
            &&& answers(after_done(sent, callback))
        }),
{
}

/// A callback that is not the outstanding one changes nothing.
pub proof fn lemma_stale_callback_ignored(v: FrameView, sender: ObjectId)
    requires
        v.pending != Some(sender),
    ensures
        after_done(v, sender) == v,
        !goes_round(v, sender),
{
}

/// Which window a compositor object belongs to, for events that name only
/// their sender. Keyed by the object's wire id.
#[derive(Debug)]
pub struct WindowOf {
    map: HashMap<u32, NodeId>,
}

impl Resource for WindowOf {}

impl WindowOf {
    pub closed spec fn view(&self) -> Map<u32, NodeId> {
        self.map@
    }

    pub fn new() -> (w: Self)
        ensures
            w.view() == Map::<u32, NodeId>::empty(),
    {
        WindowOf { map: HashMap::new() }
    }

    /// `object` belongs to `window` from now on.
    pub fn insert(&mut self, object: ObjectId, window: NodeId)
        ensures
            final(self).view() == old(self).view().insert(object.0, window),
    {
        broadcast use vstd::std_specs::hash::group_hash_axioms;
        self.map.insert(object.0, window);
    }

    /// `object` belongs to no window any more.
    pub fn remove(&mut self, object: ObjectId)
        ensures
            final(self).view() == old(self).view().remove(object.0),
    {
        broadcast use vstd::std_specs::hash::group_hash_axioms;
        self.map.remove(&object.0);
    }

    /// The window `object` belongs to, if it was recorded.
    pub fn get(&self, object: ObjectId) -> (r: Option<NodeId>)
        ensures
            r == (if self.view().contains_key(object.0) { Some(self.view()[object.0]) } else { None }),
    {
        broadcast use vstd::std_specs::hash::group_hash_axioms;
        match self.map.get(&object.0) {
            Some(w) => Some(*w),
            None => None,
        }
    }

    /// Drop every entry whose window is gone; keep the rest as they are.
    pub fn sweep(&mut self, t: &Tree, windows: &WidgetStore<Window>, column: u64)
        requires
            t.wf(),
        ensures
            forall|k: u32| #[trigger] final(self).view().contains_key(k) <==>
                (old(self).view().contains_key(k) && is_window(t, windows, column, old(self).view()[k])),
            forall|k: u32| #[trigger] final(self).view().contains_key(k) ==> final(self).view()[k] == old(self).view()[k],
    {
        broadcast use vstd::std_specs::hash::group_hash_axioms;
        let mut dead: Vec<u32> = Vec::new();
        let ghost mut seen: Set<u32> = Set::empty();
        let keys = self.map.keys();
        proof {
            assert forall|j: int| 0 <= j < IteratorSpec::remaining(&keys).len() implies self.map@.contains_key(*#[trigger] IteratorSpec::remaining(&keys)[j]) by {
                assert(IteratorSpec::remaining(&keys).unref()[j] == *IteratorSpec::remaining(&keys)[j]);
                assert(IteratorSpec::remaining(&keys).unref().contains(*IteratorSpec::remaining(&keys)[j]));
                assert(IteratorSpec::remaining(&keys).unref().to_set().contains(*IteratorSpec::remaining(&keys)[j]));
            }
        }
        for k in it: keys
            invariant
                self.map@ == old(self).map@,
                t.wf(),
                forall|x: u32| self.map@.contains_key(x) ==> exists|j: int| 0 <= j < it.seq().len() && *#[trigger] it.seq()[j] == x,
                forall|j: int| 0 <= j < it.seq().len() ==> self.map@.contains_key(*#[trigger] it.seq()[j]),
                forall|x: u32| #[trigger] seen.contains(x) <==> exists|j: int| 0 <= j < it.index() && *#[trigger] it.seq()[j] == x,
                forall|x: u32| #[trigger] dead@.contains(x) ==>
                    self.map@.contains_key(x) && !is_window(t, windows, column, self.map@[x]),
                forall|x: u32| seen.contains(x) && self.map@.contains_key(x) && !is_window(t, windows, column, self.map@[x])
                    ==> #[trigger] dead@.contains(x),
        {
            assert(self.map@.contains_key(*k));
            let w = match self.map.get(k) {
                Some(w) => *w,
                None => NodeId::invalid(),
            };
            assert(w == self.map@[*k]);
            let ghost dead0 = dead@;
            if !check_window(t, windows, column, w) {
                dead.push(*k);
                proof {
                    assert(dead@[dead0.len() as int] == *k);
                    assert forall|x: u32| dead0.contains(x) implies #[trigger] dead@.contains(x) by {
                        let i = choose|i: int| 0 <= i < dead0.len() && dead0[i] == x;
                        assert(dead@[i] == x);
                    }
                }
            }
            proof {
                seen = seen.insert(*k);
                assert(forall|x: u32| #[trigger] dead@.contains(x) ==> dead0.contains(x) || (x == *k && !is_window(t, windows, column, self.map@[x])));
            }
        }
        let ghost before = self.map@;
        proof {
            assert forall|x: u32| before.contains_key(x) && !is_window(t, windows, column, before[x]) implies #[trigger] dead@.contains(x) by {
                assert(seen.contains(x));
            }
        }
        let mut i: usize = 0;
        while i < dead.len()
            invariant
                i <= dead@.len(),
                forall|x: u32| #[trigger] dead@.contains(x) ==> before.contains_key(x) && !is_window(t, windows, column, before[x]),
                forall|x: u32| before.contains_key(x) && !is_window(t, windows, column, before[x]) ==> #[trigger] dead@.contains(x),
                forall|k: u32| #[trigger] self.map@.contains_key(k) <==>
                    (before.contains_key(k) && !(exists|j: int| 0 <= j < i && dead@[j] == k)),
                forall|k: u32| #[trigger] self.map@.contains_key(k) ==> self.map@[k] == before[k],
            decreases dead@.len() - i,
        {
            let k = dead[i];
            self.map.remove(&k);
            i += 1;
        }
        proof {
            assert(before == old(self).map@);
            assert forall|k: u32| #[trigger] self.map@.contains_key(k) <==>
                (before.contains_key(k) && is_window(t, windows, column, before[k])) by {
                if dead@.contains(k) {
                    let j = choose|j: int| 0 <= j < dead@.len() && dead@[j] == k;
                }
            }
        }
    }
}

/// What the seat reported of its pointer, as far as the window routing
/// goes. Positions are surface-local, in whatever point type the
/// connection uses.
#[derive(Debug, Clone, Copy, PartialEq)]
pub enum PointerEvent<P> {
    /// The pointer came over `surface`, here.
    Enter { surface: ObjectId, at: P },
    Leave,
    Motion { at: P },
    /// A Linux button code went down (`pressed`) or up.
    Button { button: u32, pressed: bool },
    /// Anything else the pointer reports; nothing is routed for it.
    Other,
}

/// What the seat's capabilities call for.
#[derive(Debug, Clone, Copy, PartialEq, Eq, Structural)]
pub enum SeatAction {
    /// A pointer was offered and none is held: ask for it.
    TakePointer,
    /// The pointer went away: release this one.
    ReleasePointer(ObjectId),
    Nothing,
}

/// The seat's pointer, once the seat has offered one, and the window it is
/// over.
#[derive(Debug)]
pub struct Seat {
    pointer: Option<ObjectId>,
    focus: Option<NodeId>,
}

/// The window the pointer is over after `ev`; `entered` is the window the
/// entered surface belongs to.
pub open spec fn focus_after<P>(focus: Option<NodeId>, entered: Option<NodeId>, ev: PointerEvent<P>) -> Option<NodeId> {
    match ev {
        PointerEvent::Enter { .. } => entered,
        PointerEvent::Leave => None,
        _ => focus,
    }
}

/// What `ev` reports to the window it concerns: nothing while the pointer
/// is over no known window.
pub open spec fn report_of<P>(focus: Option<NodeId>, entered: Option<NodeId>, ev: PointerEvent<P>) -> Option<PointerInput<P>> {
    match ev {
        PointerEvent::Enter { at, .. } => match entered {
            Some(w) => Some(PointerInput { window: w, input: Input::Enter(at) }),
            None => None,
        },
        PointerEvent::Leave => match focus {
            Some(w) => Some(PointerInput { window: w, input: Input::Leave }),
            None => None,
        },
        PointerEvent::Motion { at } => match focus {
            Some(w) => Some(PointerInput { window: w, input: Input::Move(at) }),
            None => None,
        },
        PointerEvent::Button { button, pressed } => match focus {
            Some(w) => Some(PointerInput {
                window: w,
                input: if pressed { Input::Press(button_of_code(button)) } else { Input::Release(button_of_code(button)) },
            }),
            None => None,
        },
        PointerEvent::Other => None,
    }
}

/// The window a surface belongs to, as `WindowOf` records it.
pub open spec fn window_of_surface(map: Map<u32, NodeId>, surface: ObjectId) -> Option<NodeId> {
    if map.contains_key(surface.0) { Some(map[surface.0]) } else { None }
}

/// The window an event entered, if it is an enter.
pub open spec fn entered_by<P>(map: Map<u32, NodeId>, ev: PointerEvent<P>) -> Option<NodeId> {
    match ev {
        PointerEvent::Enter { surface, .. } => window_of_surface(map, surface),
        _ => None,
    }
}

impl Resource for Seat {}

impl Seat {
    pub closed spec fn pointer_view(&self) -> Option<ObjectId> {
        self.pointer
    }

    pub closed spec fn focus_view(&self) -> Option<NodeId> {
        self.focus
    }

    /// No pointer, over no window.
    pub fn new() -> (s: Self)
        ensures
            s.pointer_view() is None,
            s.focus_view() is None,
    {
        Seat { pointer: None, focus: None }
    }

    /// The window the pointer is over, if any.
    pub fn focus(&self) -> (r: Option<NodeId>)
        ensures
            r == self.focus_view(),
    {
        self.focus
    }

    /// The pointer held, if any.
    pub fn pointer(&self) -> (r: Option<ObjectId>)
        ensures
            r == self.pointer_view(),
    {
        self.pointer
    }

    /// The seat announced its capabilities. A pointer offered while none is
    /// held is asked for; a held pointer that is no longer offered is
    /// released, and the pointer is then over no window.
    pub fn capabilities(&mut self, has_pointer: bool) -> (action: SeatAction)
        ensures
            match (old(self).pointer_view(), has_pointer) {
                (None, true) => action == SeatAction::TakePointer
                    && final(self).pointer_view() is None && final(self).focus_view() == old(self).focus_view(),
                (Some(p), false) => action == SeatAction::ReleasePointer(p)
                    && final(self).pointer_view() is None && final(self).focus_view() is None,
                _ => action == SeatAction::Nothing
                    && final(self).pointer_view() == old(self).pointer_view()
                    && final(self).focus_view() == old(self).focus_view(),
            },
    {
        match self.pointer {
            None => {
                if has_pointer {
                    SeatAction::TakePointer
                } else {
                    SeatAction::Nothing
                }
            },
            Some(p) => {
                if !has_pointer {
                    self.pointer = None;
                    self.focus = None;
                    SeatAction::ReleasePointer(p)
                } else {
                    SeatAction::Nothing
                }
            },
        }
    }

    /// The pointer asked for on `TakePointer` is `pointer`.
    pub fn pointer_taken(&mut self, pointer: ObjectId)
        ensures
            final(self).pointer_view() == Some(pointer),
            final(self).focus_view() == old(self).focus_view(),
    {
        self.pointer = Some(pointer);
    }

    /// Route a pointer event. An enter names its surface, whose window is
    /// remembered until the pointer leaves; motion and buttons are
    /// reported against it. Returns the report for the window concerned.
    pub fn pointer_event<P: Copy>(&mut self, windows: &WindowOf, ev: PointerEvent<P>) -> (report: Option<PointerInput<P>>)
        ensures
            final(self).focus_view() == focus_after(old(self).focus_view(), entered_by(windows.view(), ev), ev),
            final(self).pointer_view() == old(self).pointer_view(),
            report == report_of(old(self).focus_view(), entered_by(windows.view(), ev), ev),
    {
        match ev {
            PointerEvent::Enter { surface, at } => {
                self.focus = windows.get(surface);
                match self.focus {
                    Some(w) => Some(PointerInput { window: w, input: Input::Enter(at) }),
                    None => None,
                }
            },
            PointerEvent::Leave => {
                let focus = self.focus;
                self.focus = None;
                match focus {
                    Some(w) => Some(PointerInput { window: w, input: Input::Leave }),
                    None => None,
                }
            },
            PointerEvent::Motion { at } => {
                match self.focus {
                    Some(w) => Some(PointerInput { window: w, input: Input::Move(at) }),
                    None => None,
                }
            },
            PointerEvent::Button { button, pressed } => {
                match self.focus {
                    Some(w) => {
                        let b = MouseButton::from(button);
                        let input = if pressed { Input::Press(b) } else { Input::Release(b) };
                        Some(PointerInput { window: w, input })
                    },
                    None => None,
                }
            },
            PointerEvent::Other => None,
        }
    }
}

/// Motion and buttons go to the window entered last, until the pointer
/// leaves; after the leave they go nowhere until the next enter.
pub proof fn lemma_input_follows_enter<P>(map: Map<u32, NodeId>, surface: ObjectId, at: P, to: P, button: u32, pressed: bool)
    requires
        map.contains_key(surface.0),
    ensures
        ({
            let enter = PointerEvent::Enter { surface, at };
            let w = map[surface.0];
            let focus = focus_after(None, entered_by(map, enter), enter);
            &&& focus == Some(w)
            &&& report_of(focus, None, PointerEvent::Motion { at: to }) == Some(PointerInput { window: w, input: Input::Move(to) })
            &&& report_of(focus, None, PointerEvent::<P>::Button { button, pressed }).unwrap().window == w
            &&& report_of(focus, None, PointerEvent::<P>::Leave) == Some(PointerInput::<P> { window: w, input: Input::Leave })
            &&& focus_after(focus, None, PointerEvent::<P>::Leave) is None
            &&& report_of(None, None, PointerEvent::Motion { at: to }) is None
            &&& report_of(None, None, PointerEvent::<P>::Button { button, pressed }) is None
        }),
{
}

/// Gives every window its surface, runs the frame loop, and keeps
/// [`WindowOf`].
#[derive(Debug, Clone, Copy, PartialEq, Eq, Structural)]
pub struct SurfaceModule;

/// The xdg-shell role, for windows whose role is a toplevel.
#[derive(Debug, Clone, Copy, PartialEq, Eq, Structural)]
pub struct XdgModule;

/// The layer-shell role, for windows whose role is a layer.
#[derive(Debug, Clone, Copy, PartialEq, Eq, Structural)]
pub struct LayerShellModule;

/// Turns the seat's pointer into pointer input at the window it is over.
#[derive(Debug, Clone, Copy, PartialEq, Eq, Structural)]
pub struct SeatModule;

/// The surface module, the two shells and the seat, in the order they
/// install.
#[derive(Debug, Clone, Copy, PartialEq, Eq, Structural)]
pub struct PresentationModule;

} // verus!
