use mechanix::id::NodeId;
use mechanix::tree::Tree;
use mechanix::widget_store::WidgetStore;
use mechanix::window::{
    anchor, keyboard, kind, window_of, windows_to_ask, Anchor, Keyboard, Layer, LayerKind, Role, Window, Windows,
};
use mechanix::theme::{Shape, Shapes, WidgetState};

fn spawn_window(t: &mut Tree, store: &mut WidgetStore<Window>, parent: NodeId, title: &str) -> NodeId {
    let i = store.reserve();
    let id = t.spawn(parent, 0, i).unwrap();
    store.fill(i, id, Window { title: title.to_string() });
    id
}

#[test]
fn window_of_is_the_nearest_window_at_or_above() {
    let mut t = Tree::new();
    let mut store = WidgetStore::new();
    let root = t.root();
    let win = spawn_window(&mut t, &mut store, root, "main");
    let child = t.spawn(win, 1, 0).unwrap();
    let popup = spawn_window(&mut t, &mut store, child, "popup");
    let deep = t.spawn(popup, 1, 1).unwrap();
    let outside = t.spawn(root, 1, 2).unwrap();
    assert_eq!(window_of(&t, &store, 0, win), Some(win));
    assert_eq!(window_of(&t, &store, 0, child), Some(win));
    assert_eq!(window_of(&t, &store, 0, deep), Some(popup));
    assert_eq!(window_of(&t, &store, 0, outside), None);
    assert_eq!(window_of(&t, &store, 0, root), None);
    t.remove(child).unwrap();
    assert_eq!(window_of(&t, &store, 0, deep), None);
}

#[test]
fn windows_lists_live_windows_in_spawn_order() {
    let a = NodeId::new(0, 0, 1, 0);
    let b = NodeId::new(0, 1, 2, 0);
    let mut w = Windows::new();
    assert!(w.is_empty());
    w.push(a);
    w.push(b);
    w.push(a);
    assert_eq!(w.ids(), &[a, b]);
    assert_eq!(w.len(), 2);
    assert!(!w.sync(&vec![b]));
    assert_eq!(w.ids(), &[b]);
    assert!(w.sync(&vec![]));
    assert!(!w.sync(&vec![]));
}

#[test]
fn an_app_that_never_had_a_window_never_closes_them_all() {
    let mut w = Windows::new();
    assert!(!w.sync(&vec![]));
}

#[test]
fn paint_changes_on_several_nodes_of_one_window_ask_once() {
    let mut t = Tree::new();
    let mut store = WidgetStore::new();
    let root = t.root();
    let win = spawn_window(&mut t, &mut store, root, "main");
    let a = t.spawn(win, 1, 0).unwrap();
    let b = t.spawn(win, 1, 1).unwrap();
    let outside = t.spawn(root, 1, 2).unwrap();
    assert_eq!(windows_to_ask(&t, &store, 0, &vec![a, b, win]), vec![win]);
    assert_eq!(windows_to_ask(&t, &store, 0, &vec![outside]), Vec::<NodeId>::new());
}

#[test]
fn layer_settings_read_as_the_protocol_spells_them() {
    assert_eq!(kind(LayerKind::Background), 0);
    assert_eq!(kind(LayerKind::Overlay), 3);
    assert_eq!(keyboard(Keyboard::Never), 0);
    assert_eq!(keyboard(Keyboard::OnDemand), 2);
    let a = Anchor::from_bits_truncate(Anchor::TOP | Anchor::LEFT | 0x30);
    assert_eq!(a.bits(), 5);
    assert!(a.contains(Anchor::from_bits_truncate(Anchor::TOP)));
    assert!(!a.contains(Anchor::from_bits_truncate(Anchor::RIGHT)));
    assert_eq!(anchor(a.union(Anchor::from_bits_truncate(Anchor::BOTTOM))), 7);
    assert_eq!(Anchor::empty().bits(), 0);
    let l = Layer::default();
    assert_eq!(l.layer, LayerKind::Top);
    assert_eq!(l.keyboard, Keyboard::Never);
    assert_eq!(Role::default(), Role::Toplevel);
}

#[test]
fn widget_states_and_shapes() {
    assert!(WidgetState::Hovered.has_state_layer());
    assert!(WidgetState::Pressed.has_state_layer());
    assert!(!WidgetState::Enabled.has_state_layer());
    assert!(WidgetState::Disabled.is_disabled());
    assert!(!WidgetState::Focused.is_disabled());
    assert_eq!(Shapes::default(), Shapes { none: Shape::Square, full: Shape::Full });
}

#[test]
fn a_clean_tick_requests_nothing() {
    let mut t = Tree::new();
    let mut store = WidgetStore::new();
    let root = t.root();
    let win = spawn_window(&mut t, &mut store, root, "w");
    let _div = t.spawn(win, 1, 0).unwrap();
    assert!(windows_to_ask(&t, &store, 0, &vec![]).is_empty());
}

#[test]
fn the_spawn_batch_requests_every_window_and_nothing_else() {
    let mut t = Tree::new();
    let mut store = WidgetStore::new();
    let root = t.root();
    let owner = t.spawn(root, 1, 0).unwrap();
    let win = spawn_window(&mut t, &mut store, owner, "w");
    let div = t.spawn(win, 1, 1).unwrap();
    let other = spawn_window(&mut t, &mut store, root, "w");
    let asked = windows_to_ask(&t, &store, 0, &vec![owner, win, div, other]);
    assert!(asked.contains(&win));
    assert!(asked.contains(&other));
    assert_eq!(asked.len(), 2, "only windows are asked");
}

#[test]
fn a_paint_change_requests_only_its_window_once() {
    let mut t = Tree::new();
    let mut store = WidgetStore::new();
    let root = t.root();
    let owner = t.spawn(root, 1, 0).unwrap();
    let win = spawn_window(&mut t, &mut store, owner, "w");
    let div = t.spawn(win, 1, 1).unwrap();
    let other = spawn_window(&mut t, &mut store, root, "w");
    let asked = windows_to_ask(&t, &store, 0, &vec![div]);
    assert_eq!(asked, vec![win]);
    assert!(!asked.contains(&other));
}

#[test]
fn a_paint_change_outside_every_window_asks_nothing() {
    let mut t = Tree::new();
    let mut store = WidgetStore::new();
    let root = t.root();
    let owner = t.spawn(root, 1, 0).unwrap();
    let win = spawn_window(&mut t, &mut store, owner, "w");
    let _div = t.spawn(win, 1, 1).unwrap();
    let outside = t.spawn(root, 1, 2).unwrap();
    assert!(windows_to_ask(&t, &store, 0, &vec![outside]).is_empty());
}

#[test]
fn the_last_window_closing_is_signalled_once() {
    let mut t = Tree::new();
    let mut store = WidgetStore::new();
    let root = t.root();
    let a = spawn_window(&mut t, &mut store, root, "w");
    let b = spawn_window(&mut t, &mut store, root, "w");
    let mut list = Windows::new();
    list.push(a);
    list.push(b);
    assert!(!list.sync(&live_windows(&t, &store)));

    t.remove(a).unwrap();
    assert!(!list.sync(&live_windows(&t, &store)), "one is left");

    t.remove(b).unwrap();
    assert!(list.sync(&live_windows(&t, &store)));
    assert!(list.is_empty());
    assert!(!list.sync(&live_windows(&t, &store)), "not repeated");
}

#[test]
fn a_window_dies_with_the_subtree_that_spawned_it() {
    let mut t = Tree::new();
    let mut store = WidgetStore::new();
    let root = t.root();
    let owner = t.spawn(root, 1, 0).unwrap();
    let win = spawn_window(&mut t, &mut store, owner, "w");
    let _div = t.spawn(win, 1, 1).unwrap();
    let mut list = Windows::new();
    list.push(win);
    assert!(!list.sync(&live_windows(&t, &store)));
    t.remove(owner).unwrap();
    assert!(list.sync(&live_windows(&t, &store)));
    assert!(list.is_empty());
}

/// The windows the tree still holds, in slot order.
fn live_windows(t: &Tree, store: &WidgetStore<Window>) -> Vec<NodeId> {
    store.ids().into_iter().filter(|id| t.contains(*id)).collect()
}
