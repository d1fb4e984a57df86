use mechanix::render::Buffers;
use mechanix::id::NodeId;
use mechanix::input::{Input, MouseButton, PointerInput};
use mechanix::presentation::{PointerEvent, Seat, SeatAction, Surface, WindowOf};
use mechanix::tree::Tree;
use mechanix::widget_store::WidgetStore;
use mechanix::window::Window;
use mechanix::wire::ObjectId;

fn ready() -> Surface {
    let mut s = Surface::new();
    s.set_surface(ObjectId(3));
    s.configure();
    s
}

#[test]
fn a_request_before_the_first_configure_waits_for_it() {
    let mut s = Surface::new();
    assert!(s.needs_surface());
    s.set_surface(ObjectId(3));
    assert!(!s.needs_surface());
    assert!(!s.request_frame());
    assert!(s.is_wanted());
    s.configure();
    assert!(s.is_configured());
    assert!(!s.is_wanted());
    assert!(s.request_frame());
    assert!(s.is_drawing());
}

#[test]
fn an_idle_window_is_drawn_and_committed_with_a_callback() {
    let mut s = ready();
    assert!(s.request_frame());
    s.mark_attached();
    assert_eq!(s.after_frame(), Some(ObjectId(3)));
    assert!(!s.is_drawing());
    assert!(!s.is_attached());
    s.callback_sent(ObjectId(9));
    assert_eq!(s.pending(), Some(ObjectId(9)));
    assert!(!s.callback_done(ObjectId(9)));
    assert_eq!(s.pending(), None);
    assert!(s.request_frame());
}

#[test]
fn a_request_while_busy_goes_round_when_the_callback_is_done() {
    let mut s = ready();
    assert!(s.request_frame());
    assert!(!s.request_frame());
    s.mark_attached();
    assert_eq!(s.after_frame(), Some(ObjectId(3)));
    s.callback_sent(ObjectId(9));
    assert!(!s.request_frame());
    assert!(s.is_wanted());
    assert!(!s.callback_done(ObjectId(8)));
    assert_eq!(s.pending(), Some(ObjectId(9)));
    assert!(s.callback_done(ObjectId(9)));
    assert!(!s.is_wanted());
    assert!(s.request_frame());
}

#[test]
fn a_frame_that_attached_nothing_is_not_committed() {
    let mut s = ready();
    assert!(s.request_frame());
    assert!(!s.request_frame());
    assert_eq!(s.after_frame(), None);
    assert!(!s.is_wanted());
    assert_eq!(s.pending(), None);
    assert_eq!(s.surface(), Some(ObjectId(3)));
}

#[test]
fn window_of_records_forgets_and_sweeps() {
    let mut t = Tree::new();
    let root = t.root();
    let mut store: WidgetStore<Window> = WidgetStore::new();
    let i = store.reserve();
    let win = t.spawn(root, 0, i).unwrap();
    store.fill(i, win, Window { title: "a".to_string() });
    let other = t.spawn(root, 1, 0).unwrap();
    let mut map = WindowOf::new();
    map.insert(ObjectId(3), win);
    map.insert(ObjectId(4), other);
    assert_eq!(map.get(ObjectId(3)), Some(win));
    assert_eq!(map.get(ObjectId(5)), None);
    map.sweep(&t, &store, 0);
    assert_eq!(map.get(ObjectId(3)), Some(win));
    assert_eq!(map.get(ObjectId(4)), None);
    map.remove(ObjectId(3));
    assert_eq!(map.get(ObjectId(3)), None);
}

#[test]
fn the_seat_takes_and_releases_its_pointer() {
    let mut seat = Seat::new();
    assert_eq!(seat.capabilities(true), SeatAction::TakePointer);
    seat.pointer_taken(ObjectId(12));
    assert_eq!(seat.pointer(), Some(ObjectId(12)));
    assert_eq!(seat.capabilities(true), SeatAction::Nothing);
    assert_eq!(seat.capabilities(false), SeatAction::ReleasePointer(ObjectId(12)));
    assert_eq!(seat.pointer(), None);
    assert_eq!(seat.capabilities(false), SeatAction::Nothing);
}

#[test]
fn pointer_events_are_reported_against_the_window_entered() {
    let w = NodeId::new(0, 0, 1, 0);
    let mut map = WindowOf::new();
    map.insert(ObjectId(3), w);
    let mut seat = Seat::new();
    let motion: PointerEvent<(i32, i32)> = PointerEvent::Motion { at: (1, 1) };
    assert_eq!(seat.pointer_event(&map, motion), None);
    let enter = PointerEvent::Enter { surface: ObjectId(3), at: (5, 6) };
    assert_eq!(seat.pointer_event(&map, enter), Some(PointerInput { window: w, input: Input::Enter((5, 6)) }));
    assert_eq!(seat.focus(), Some(w));
    assert_eq!(
        seat.pointer_event(&map, PointerEvent::Motion { at: (7, 8) }),
        Some(PointerInput { window: w, input: Input::Move((7, 8)) })
    );
    assert_eq!(
        seat.pointer_event(&map, PointerEvent::<(i32, i32)>::Button { button: 0x110, pressed: true }),
        Some(PointerInput { window: w, input: Input::Press(MouseButton::Left) })
    );
    assert_eq!(
        seat.pointer_event(&map, PointerEvent::<(i32, i32)>::Button { button: 0x111, pressed: false }),
        Some(PointerInput { window: w, input: Input::Release(MouseButton::Right) })
    );
    assert_eq!(seat.pointer_event(&map, PointerEvent::<(i32, i32)>::Other), None);
    assert_eq!(
        seat.pointer_event(&map, PointerEvent::<(i32, i32)>::Leave),
        Some(PointerInput { window: w, input: Input::Leave })
    );
    assert_eq!(seat.focus(), None);
    assert_eq!(seat.pointer_event(&map, PointerEvent::<(i32, i32)>::Leave), None);
    let unknown = PointerEvent::Enter { surface: ObjectId(99), at: (0, 0) };
    assert_eq!(seat.pointer_event(&map, unknown), None);
    assert_eq!(seat.focus(), None);
}

#[test]
fn releasing_the_pointer_forgets_the_window() {
    let w = NodeId::new(0, 0, 1, 0);
    let mut map = WindowOf::new();
    map.insert(ObjectId(3), w);
    let mut seat = Seat::new();
    seat.capabilities(true);
    seat.pointer_taken(ObjectId(12));
    seat.pointer_event(&map, PointerEvent::Enter { surface: ObjectId(3), at: (0, 0) });
    assert_eq!(seat.focus(), Some(w));
    seat.capabilities(false);
    assert_eq!(seat.focus(), None);
}

#[test]
fn a_frame_skipped_for_a_held_buffer_is_drawn_on_release() {
    let mut s = Surface::new();
    s.set_surface(ObjectId(5));
    s.configure();
    let mut b = Buffers::new(8, 8);
    b.begin_frame();
    b.attached();
    b.begin_frame();
    b.attached();

    assert!(s.request_frame(), "an idle window answers");
    assert_eq!(b.begin_frame(), None, "both buffers are held");
    assert_eq!(s.after_frame(), None, "nothing attached, nothing committed");
    assert!(!s.is_drawing());
    assert!(b.release(false), "the buffer the frame waited for asks again");
    assert!(s.request_frame(), "answered at once");
    assert_eq!(b.begin_frame(), Some(false));
}
