//! Pointer input in, clicks out. Nothing here knows a compositor: the
//! presenting side reports what a pointer did at a window in that window's
//! own coordinates, and each window keeps a [`Pointer`] from those reports.
//! A press over the window is a click at whatever is under it.
//!
//! Positions are whatever point type the presenting side uses; nothing
//! here looks inside one.

use vstd::prelude::*;
use crate::id::NodeId;
use crate::tree::{Tree, preorder};
use crate::event::{Event, Signal};
use crate::component::Component;

verus! {

/// A pointer button. [`From<u32>`] reads the `BTN_*` codes of
/// `input-event-codes.h`, which is what a compositor reports.
#[derive(Debug, Clone, Copy, PartialEq, Eq, Structural, Hash)]
pub enum MouseButton {
    Left,
    Right,
    Middle,
    Side,
    Extra,
    Forward,
    Back,
    Task,
    /// Linux `BTN_0..BTN_9`.
    Numbered(u8),
    /// Linux `BTN_TRIGGER_HAPPY1..40`.
    ExtraButton(u8),
    /// Anything else, kept rather than dropped.
    Unknown(u32),
}

/// The button a Linux button code names.
pub open spec fn button_of_code(code: u32) -> MouseButton {
    if code == 0x110 {
        MouseButton::Left
    } else if code == 0x111 {
        MouseButton::Right
    } else if code == 0x112 {
        MouseButton::Middle
    } else if code == 0x113 {
        MouseButton::Side
    } else if code == 0x114 {
        MouseButton::Extra
    } else if code == 0x115 {
        MouseButton::Forward
    } else if code == 0x116 {
        MouseButton::Back
    } else if code == 0x117 {
        MouseButton::Task
    } else if 0x100 <= code <= 0x109 {
        MouseButton::Numbered((code - 0x100) as u8)
    } else if 0x2c0 <= code <= 0x2e7 {
        MouseButton::ExtraButton((code - 0x2c0 + 1) as u8)
    } else {
        MouseButton::Unknown(code)
    }
}

impl From<u32> for MouseButton {
    fn from(code: u32) -> (r: Self) {
        match code {
            0x110 => MouseButton::Left,
            0x111 => MouseButton::Right,
            0x112 => MouseButton::Middle,
            0x113 => MouseButton::Side,
            0x114 => MouseButton::Extra,
            0x115 => MouseButton::Forward,
            0x116 => MouseButton::Back,
            0x117 => MouseButton::Task,
            0x100..=0x109 => MouseButton::Numbered((code - 0x100) as u8),
            0x2c0..=0x2e7 => MouseButton::ExtraButton((code - 0x2c0 + 1) as u8),
            other => MouseButton::Unknown(other),
        }
    }
}

impl vstd::std_specs::convert::FromSpecImpl<u32> for MouseButton {
    open spec fn obeys_from_spec() -> bool {
        true
    }

    open spec fn from_spec(v: u32) -> Self {
        button_of_code(v)
    }
}

/// Reading a code is total and keeps every code it has no name for.
pub proof fn lemma_unknown_codes_are_kept(code: u32)
    requires
        !(0x100 <= code <= 0x117),
        !(0x2c0 <= code <= 0x2e7),
    ensures
        button_of_code(code) == MouseButton::Unknown(code),
{
}

/// One thing a pointer does. A press or release before any `Enter` has no
/// position to happen at and is ignored.
#[derive(Debug, Clone, Copy, PartialEq)]
pub enum Input<P> {
    /// The pointer came over the window, here.
    Enter(P),
    Move(P),
    /// The pointer went away. Whatever it held is forgotten.
    Leave,
    Press(MouseButton),
    Release(MouseButton),
}

/// What a pointer did at a window, in that window's own coordinates.
#[derive(Debug, Clone, Copy, PartialEq)]
pub struct PointerInput<P> {
    pub window: NodeId,
    pub input: Input<P>,
}

impl<P> Signal for PointerInput<P> {}

/// A button went down over this node, at `position` in the window's
/// coordinates.
#[derive(Debug, Clone, Copy, PartialEq)]
pub struct Clicked<P> {
    pub button: MouseButton,
    pub position: P,
}

impl<P> Event for Clicked<P> {}

/// A window's pointer: where it is and which buttons it holds, each with
/// where it went down.
pub struct Pointer<P: Copy> {
    position: Option<P>,
    pressed: Vec<(MouseButton, P)>,
    held: Ghost<Map<MouseButton, P>>,
}

impl<P: Copy> Component for Pointer<P> {}

impl<P: Copy> Default for Pointer<P> {
    fn default() -> (p: Self)
        ensures
            p.at() is None,
            p.held() == Map::<MouseButton, P>::empty(),
    {
        Pointer::new()
    }
}

impl<P: Copy> Pointer<P> {
    #[verifier::type_invariant]
    closed spec fn inv(self) -> bool {
        tracks(self.pressed@, self.held@)
    }

    /// Where the pointer is; `None` while it is not over the window.
    pub closed spec fn at(self) -> Option<P> {
        self.position
    }

    /// The held buttons, each with where it went down.
    pub closed spec fn held(self) -> Map<MouseButton, P> {
        self.held@
    }

    /// A pointer that is not there and holds nothing.
    pub fn new() -> (p: Self)
        ensures
            p.at() is None,
            p.held() == Map::<MouseButton, P>::empty(),
    {
        Pointer { position: None, pressed: Vec::new(), held: Ghost(Map::empty()) }
    }

    /// Where the pointer is; `None` while it is not over the window.
    pub fn position(&self) -> (r: Option<P>)
        ensures
            r == self.at(),
    {
        self.position
    }

    fn find(&self, button: MouseButton) -> (r: Option<usize>)
        ensures
            match r {
                Some(i) => i < self.pressed@.len() && self.pressed@[i as int].0 == button,
                None => !self.held().contains_key(button),
            },
    {
        proof {
            use_type_invariant(self);
        }
        index_of(&self.pressed, self.held, button)
    }

    /// Whether `button` is held.
    pub fn is_pressed(&self, button: MouseButton) -> (r: bool)
        ensures
            r == self.held().contains_key(button),
    {
        proof {
            use_type_invariant(self);
        }
        self.find(button).is_some()
    }

    /// Where `button` went down, while it is held.
    pub fn pressed_at(&self, button: MouseButton) -> (r: Option<P>)
        ensures
            r == (if self.held().contains_key(button) { Some(self.held()[button]) } else { None }),
    {
        proof {
            use_type_invariant(self);
        }
        match self.find(button) {
            Some(i) => Some(self.pressed[i].1),
            None => None,
        }
    }

    /// Every held button and where it went down, in no particular order,
    /// each once.
    pub fn pressed(&self) -> (r: Vec<(MouseButton, P)>)
        ensures
            forall|i: int, j: int| 0 <= i < j < r@.len() ==> r@[i].0 != r@[j].0,
            forall|i: int| 0 <= i < r@.len() ==> #[trigger] self.held().contains_key(r@[i].0)
                && self.held()[r@[i].0] == r@[i].1,
            forall|b: MouseButton| #[trigger] self.held().contains_key(b) ==>
                exists|i: int| 0 <= i < r@.len() && r@[i].0 == b,
    {
        proof {
            use_type_invariant(self);
        }
        let mut out: Vec<(MouseButton, P)> = Vec::new();
        let mut i: usize = 0;
        while i < self.pressed.len()
            invariant
                i <= self.pressed@.len(),
                out@ == self.pressed@.subrange(0, i as int),
            decreases self.pressed@.len() - i,
        {
            out.push(self.pressed[i]);
            i += 1;
        }
        proof {
            assert(out@ == self.pressed@);
        }
        out
    }

    /// Keep the pointer up to date with `input`. Returns the button and
    /// where it went down for a press while the pointer is over the
    /// window: that press is a click. A press with no position is ignored.
    pub fn apply(&mut self, input: Input<P>) -> (press: Option<(MouseButton, P)>)
        ensures
            final(self).at() == position_after(old(self).at(), input),
            final(self).held() == held_after(old(self).at(), old(self).held(), input),
            press == click_of(old(self).at(), input),
    {
        let mut cur = Pointer::new();
        std::mem::swap(&mut cur, self);
        proof {
            use_type_invariant(&cur);
        }
        let Pointer { position, pressed, held } = cur;
        let mut pressed = pressed;
        let (position, held, press) = match input {
            Input::Enter(at) => (Some(at), held, None),
            Input::Move(at) => (Some(at), held, None),
            Input::Leave => {
                pressed = Vec::new();
                (None, Ghost(Map::empty()), None)
            },
            Input::Press(button) => {
                match position {
                    Some(at) => {
                        let held = hold(&mut pressed, held, button, at);
                        (position, held, Some((button, at)))
                    },
                    None => (position, held, None),
                }
            },
            Input::Release(button) => {
                let held = let_go(&mut pressed, held, button);
                (position, held, None)
            },
        };
        *self = Pointer { position, pressed, held };
        press
    }
}

/// `s` lists the buttons of `m`, each once, with where it went down.
pub closed spec fn tracks<P>(s: Seq<(MouseButton, P)>, m: Map<MouseButton, P>) -> bool {
    &&& forall|i: int, j: int| 0 <= i < j < s.len() ==> s[i].0 != s[j].0
    &&& forall|i: int| 0 <= i < s.len() ==> #[trigger] m.contains_key(s[i].0) && m[s[i].0] == s[i].1
    &&& forall|b: MouseButton| #[trigger] m.contains_key(b) ==> exists|i: int| 0 <= i < s.len() && s[i].0 == b
}

fn index_of<P: Copy>(pressed: &Vec<(MouseButton, P)>, held: Ghost<Map<MouseButton, P>>, button: MouseButton) -> (r: Option<usize>)
    requires
        tracks(pressed@, held@),
    ensures
        match r {
            Some(i) => i < pressed@.len() && pressed@[i as int].0 == button,
            None => !held@.contains_key(button),
        },
{
    let mut i: usize = 0;
    while i < pressed.len()
        invariant
            i <= pressed@.len(),
            forall|j: int| 0 <= j < i ==> pressed@[j].0 != button,
        decreases pressed@.len() - i,
    {
        if pressed[i].0 == button {
            return Some(i);
        }
        i += 1;
    }
    None
}

fn hold<P: Copy>(pressed: &mut Vec<(MouseButton, P)>, held: Ghost<Map<MouseButton, P>>, button: MouseButton, at: P) -> (r: Ghost<Map<MouseButton, P>>)
    requires
        tracks(old(pressed)@, held@),
    ensures
        r@ == held@.insert(button, at),
        tracks(final(pressed)@, r@),
{
    let ghost old_pressed = pressed@;
    let ghost new_held = held@.insert(button, at);
    match index_of(pressed, held, button) {
        Some(i) => {
            pressed.set(i, (button, at));
            proof {
                assert forall|a: int, b: int| 0 <= a < b < pressed@.len() implies pressed@[a].0 != pressed@[b].0 by {
                    assert(pressed@[a].0 == old_pressed[a].0);
                    assert(pressed@[b].0 == old_pressed[b].0);
                }
                assert forall|j: int| 0 <= j < pressed@.len() implies #[trigger] new_held.contains_key(pressed@[j].0)
                    && new_held[pressed@[j].0] == pressed@[j].1 by {
                    if j != i {
                        assert(pressed@[j] == old_pressed[j]);
                        assert(old_pressed[j].0 != button);
                        assert(held@.contains_key(old_pressed[j].0));
                    }
                }
                assert forall|b: MouseButton| #[trigger] new_held.contains_key(b) implies
                    exists|j: int| 0 <= j < pressed@.len() && pressed@[j].0 == b by {
                    if b == button {
                        assert(pressed@[i as int].0 == b);
                    } else {
                        assert(held@.contains_key(b));
                        let j = choose|j: int| 0 <= j < old_pressed.len() && old_pressed[j].0 == b;
                        assert(pressed@[j].0 == b);
                    }
                }
            }
        },
        None => {
            pressed.push((button, at));
            proof {
                assert forall|j: int| 0 <= j < old_pressed.len() implies old_pressed[j].0 != button by {
                    assert(held@.contains_key(old_pressed[j].0));
                }
                assert forall|a: int, b: int| 0 <= a < b < pressed@.len() implies pressed@[a].0 != pressed@[b].0 by {
                    assert(pressed@[a] == old_pressed[a]);
                    if b < old_pressed.len() {
                        assert(pressed@[b] == old_pressed[b]);
                    }
                }
                assert forall|j: int| 0 <= j < pressed@.len() implies #[trigger] new_held.contains_key(pressed@[j].0)
                    && new_held[pressed@[j].0] == pressed@[j].1 by {
                    if j < old_pressed.len() {
                        assert(pressed@[j] == old_pressed[j]);
                        assert(held@.contains_key(old_pressed[j].0));
                    }
                }
                assert forall|b: MouseButton| #[trigger] new_held.contains_key(b) implies
                    exists|j: int| 0 <= j < pressed@.len() && pressed@[j].0 == b by {
                    if b == button {
                        assert(pressed@[old_pressed.len() as int].0 == b);
                    } else {
                        let j = choose|j: int| 0 <= j < old_pressed.len() && old_pressed[j].0 == b;
                        assert(pressed@[j].0 == b);
                    }
                }
            }
        },
    }
    Ghost(new_held)
}

fn let_go<P: Copy>(pressed: &mut Vec<(MouseButton, P)>, held: Ghost<Map<MouseButton, P>>, button: MouseButton) -> (r: Ghost<Map<MouseButton, P>>)
    requires
        tracks(old(pressed)@, held@),
    ensures
        r@ == held@.remove(button),
        tracks(final(pressed)@, r@),
{
    let ghost old_pressed = pressed@;
    let ghost new_held = held@.remove(button);
    match index_of(pressed, held, button) {
        Some(i) => {
            pressed.remove(i);
            proof {
                assert forall|j: int| 0 <= j < pressed@.len() implies
                    #[trigger] pressed@[j] == old_pressed[if j < i { j } else { j + 1 }] by {}
                assert forall|a: int, b: int| 0 <= a < b < pressed@.len() implies pressed@[a].0 != pressed@[b].0 by {
                    assert(pressed@[a] == old_pressed[if a < i { a } else { a + 1 }]);
                    assert(pressed@[b] == old_pressed[if b < i { b } else { b + 1 }]);
                }
                assert forall|j: int| 0 <= j < pressed@.len() implies #[trigger] new_held.contains_key(pressed@[j].0)
                    && new_held[pressed@[j].0] == pressed@[j].1 by {
                    let k = if j < i { j } else { j + 1 };
                    assert(pressed@[j] == old_pressed[k]);
                    assert(old_pressed[k].0 != button);
                    assert(held@.contains_key(old_pressed[k].0));
                }
                assert forall|b: MouseButton| #[trigger] new_held.contains_key(b) implies
                    exists|j: int| 0 <= j < pressed@.len() && pressed@[j].0 == b by {
                    assert(held@.contains_key(b));
                    let k = choose|k: int| 0 <= k < old_pressed.len() && old_pressed[k].0 == b;
                    assert(k != i);
                    let j = if k < i { k } else { k - 1 };
                    assert(pressed@[j] == old_pressed[k]);
                }
            }
        },
        None => {
            proof {
                assert(new_held =~= held@);
            }
        },
    }
    Ghost(new_held)
}

/// Where the pointer is after `input`.
pub open spec fn position_after<P>(at: Option<P>, input: Input<P>) -> Option<P> {
    match input {
        Input::Enter(p) => Some(p),
        Input::Move(p) => Some(p),
        Input::Leave => None,
        _ => at,
    }
}

/// Which buttons are held after `input`: a leave forgets them all, a press
/// over the window holds the button where the pointer is, a release lets
/// it go.
pub open spec fn held_after<P>(at: Option<P>, held: Map<MouseButton, P>, input: Input<P>) -> Map<MouseButton, P> {
    match input {
        Input::Leave => Map::empty(),
        Input::Press(b) => match at {
            Some(p) => held.insert(b, p),
            None => held,
        },
        Input::Release(b) => held.remove(b),
        _ => held,
    }
}

/// The click an input makes: a press while the pointer is over the window.
pub open spec fn click_of<P>(at: Option<P>, input: Input<P>) -> Option<(MouseButton, P)> {
    match input {
        Input::Press(b) => match at {
            Some(p) => Some((b, p)),
            None => None,
        },
        _ => None,
    }
}

/// A press before any position is ignored; after an enter it is a click
/// where the pointer entered, and the button stays held there until it is
/// released or the pointer leaves.
pub proof fn lemma_press_after_enter<P>(held: Map<MouseButton, P>, at: P, b: MouseButton)
    ensures
        click_of(None, Input::<P>::Press(b)) is None,
        held_after(None, held, Input::<P>::Press(b)) == held,
        click_of(position_after(None, Input::Enter(at)), Input::Press(b)) == Some((b, at)),
        held_after(Some(at), held, Input::Press(b))[b] == at,
        !held_after(Some(at), held_after(Some(at), held, Input::Press(b)), Input::Release(b)).contains_key(b),
        held_after(Some(at), held_after(Some(at), held, Input::Press(b)), Input::Leave) == Map::<MouseButton, P>::empty(),
        position_after(Some(at), Input::<P>::Leave) is None,
{
}

/// Keeps a [`Pointer`] per window from the presenting side's reports and
/// emits [`Clicked`] at whatever a press lands on. Added after the layout
/// module, whose boxes are what a press lands on.
#[derive(Debug, Clone, Copy, PartialEq, Eq, Structural)]
pub struct InteractivityModule;

/// The nodes a press at `window` is tested against, in the order they are
/// clicked: the reverse of a preorder walk of the window's subtree, so a
/// child comes before its parent, a later sibling (drawn over an earlier
/// one) before it, and the window itself last. Every subtree is walked
/// whether or not its root is hit, since an absolute child may lie outside
/// its parent; which of them the press is inside is the caller's test.
pub fn hit_order(t: &Tree, window: NodeId) -> (r: Vec<NodeId>)
    requires
        t.wf(),
    ensures
        r@ == preorder(t, window).reverse(),
{
    let walk = t.preorder(window);
    let n = walk.len();
    let mut r: Vec<NodeId> = Vec::new();
    let mut i: usize = n;
    while i > 0
        invariant
            i <= n,
            n == walk@.len(),
            r@ == walk@.subrange(i as int, n as int).reverse(),
        decreases i,
    {
        i -= 1;
        r.push(walk[i]);
        proof {
            assert(walk@.subrange(i as int, n as int).reverse() =~= walk@.subrange(i + 1, n as int).reverse().push(walk@[i as int]));
        }
    }
    proof {
        assert(walk@.subrange(0, n as int) =~= walk@);
    }
    r
}

/// The window is clicked last: it heads its own walk.
pub proof fn lemma_window_clicked_last(t: &Tree, window: NodeId)
    ensures
        preorder(t, window).len() > 0,
        preorder(t, window).reverse().last() == window,
{
    let k = (t.slots().len() - t.depth_of(window)) as nat;
    assert(crate::tree::pre_from(t, window, k)[0] == window);
}

} // verus!
