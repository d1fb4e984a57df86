use mechanix::component::Components;
use mechanix::id::NodeId;
use mechanix::input::{hit_order, Input, MouseButton, Pointer};
use mechanix::tree::Tree;

#[test]
fn linux_button_codes_read_by_name() {
    assert_eq!(MouseButton::from(0x110), MouseButton::Left);
    assert_eq!(MouseButton::from(0x111), MouseButton::Right);
    assert_eq!(MouseButton::from(0x112), MouseButton::Middle);
    assert_eq!(MouseButton::from(0x113), MouseButton::Side);
    assert_eq!(MouseButton::from(0x114), MouseButton::Extra);
    assert_eq!(MouseButton::from(0x115), MouseButton::Forward);
    assert_eq!(MouseButton::from(0x116), MouseButton::Back);
    assert_eq!(MouseButton::from(0x117), MouseButton::Task);
    assert_eq!(MouseButton::from(0x103), MouseButton::Numbered(3));
    assert_eq!(MouseButton::from(0x2c0), MouseButton::ExtraButton(1));
    assert_eq!(MouseButton::from(0x2e7), MouseButton::ExtraButton(40));
    assert_eq!(MouseButton::from(0x999), MouseButton::Unknown(0x999));
}

#[test]
fn codes_between_the_named_ranges_are_kept() {
    assert_eq!(MouseButton::from(0x10a), MouseButton::Unknown(0x10a));
    assert_eq!(MouseButton::from(0x118), MouseButton::Unknown(0x118));
    assert_eq!(MouseButton::from(0x2e8), MouseButton::Unknown(0x2e8));
    assert_eq!(MouseButton::from(0x100), MouseButton::Numbered(0));
    assert_eq!(MouseButton::from(0x109), MouseButton::Numbered(9));
}

#[test]
fn a_press_before_any_enter_is_ignored() {
    let mut p: Pointer<(i32, i32)> = Pointer::new();
    assert_eq!(p.apply(Input::Press(MouseButton::Left)), None);
    assert!(!p.is_pressed(MouseButton::Left));
    assert_eq!(p.position(), None);
}

#[test]
fn the_pointer_is_kept_at_the_window() {
    let mut p: Pointer<(i32, i32)> = Pointer::new();
    assert_eq!(p.apply(Input::Enter((10, 20))), None);
    assert_eq!(p.position(), Some((10, 20)));
    assert_eq!(p.apply(Input::Move((30, 40))), None);
    assert_eq!(p.position(), Some((30, 40)));
    assert_eq!(p.apply(Input::Press(MouseButton::Left)), Some((MouseButton::Left, (30, 40))));
    assert!(p.is_pressed(MouseButton::Left));
    assert_eq!(p.pressed_at(MouseButton::Left), Some((30, 40)));
    assert_eq!(p.apply(Input::Move((50, 60))), None);
    assert_eq!(p.apply(Input::Press(MouseButton::Right)), Some((MouseButton::Right, (50, 60))));
    assert_eq!(p.pressed().len(), 2);
    assert_eq!(p.apply(Input::Release(MouseButton::Left)), None);
    assert!(!p.is_pressed(MouseButton::Left));
    assert_eq!(p.pressed_at(MouseButton::Right), Some((50, 60)));
    assert_eq!(p.pressed(), vec![(MouseButton::Right, (50, 60))]);
}

#[test]
fn pressing_a_held_button_again_moves_where_it_went_down() {
    let mut p: Pointer<(i32, i32)> = Pointer::new();
    p.apply(Input::Enter((1, 1)));
    p.apply(Input::Press(MouseButton::Middle));
    p.apply(Input::Move((2, 2)));
    p.apply(Input::Press(MouseButton::Middle));
    assert_eq!(p.pressed(), vec![(MouseButton::Middle, (2, 2))]);
}

#[test]
fn leaving_forgets_the_position_and_what_was_held() {
    let mut p: Pointer<(i32, i32)> = Pointer::new();
    p.apply(Input::Enter((10, 20)));
    p.apply(Input::Press(MouseButton::Left));
    assert_eq!(p.apply(Input::Leave), None);
    assert_eq!(p.position(), None);
    assert!(!p.is_pressed(MouseButton::Left));
    assert!(p.pressed().is_empty());
}

#[test]
fn hits_are_deepest_and_topmost_first_and_the_window_last() {
    let mut t = Tree::new();
    let root = t.root();
    let win = t.spawn(root, 0, 0).unwrap();
    let a = t.spawn(win, 1, 0).unwrap();
    let a1 = t.spawn(a, 1, 1).unwrap();
    let b = t.spawn(win, 1, 2).unwrap();
    assert_eq!(hit_order(&t, win), vec![b, a1, a, win]);
    let stale = NodeId::new(0, 9, 9, 0);
    assert_eq!(hit_order(&t, stale), vec![stale]);
}

#[test]
fn a_press_before_entering_or_after_leaving_is_nothing() {
    let mut p: Pointer<(i32, i32)> = Pointer::new();
    assert_eq!(p.apply(Input::Press(MouseButton::Left)), None, "never entered");

    p.apply(Input::Enter((10, 10)));
    p.apply(Input::Leave);
    assert_eq!(p.apply(Input::Press(MouseButton::Left)), None, "left");
}

#[test]
fn a_release_is_not_a_click() {
    let mut p: Pointer<(i32, i32)> = Pointer::new();
    p.apply(Input::Enter((10, 10)));
    assert_eq!(p.apply(Input::Release(MouseButton::Left)), None);
}

#[test]
fn each_window_has_its_own_pointer() {
    let mut a: Pointer<(i32, i32)> = Pointer::new();
    let mut b: Pointer<(i32, i32)> = Pointer::new();
    a.apply(Input::Enter((10, 10)));
    assert_eq!(b.apply(Input::Press(MouseButton::Left)), None, "b's pointer never entered");
    b.apply(Input::Enter((10, 10)));
    assert_eq!(b.apply(Input::Press(MouseButton::Left)), Some((MouseButton::Left, (10, 10))));
    assert!(!a.is_pressed(MouseButton::Left));
}

#[test]
fn the_root_and_ordinary_nodes_carry_an_absent_pointer() {
    let mut t = Tree::new();
    let root = t.root();
    let win = t.spawn(root, 0, 0).unwrap();
    let b = t.spawn(win, 1, 0).unwrap();
    let mut pointers: Components<Pointer<(i32, i32)>> = Components::register(t.slot_count() as u64, &t.live_ids());
    let mut at_win = pointers.get_at_mut(win).unwrap();
    at_win.value_mut().unwrap().apply(Input::Enter((10, 20)));
    pointers.restore_at(at_win);
    assert_eq!(pointers.read(win).unwrap().position(), Some((10, 20)));
    for id in [root, b] {
        let p = pointers.read(id).unwrap();
        assert_eq!(p.position(), None);
        assert!(p.pressed().is_empty());
    }
}
