use mechanix::id::{NodeId, NONE};
use mechanix::tree::{Error, Tree};
use mechanix::widget_store::WidgetStore;
use mechanix::component::Components;
use mechanix::resource::Resources;
use mechanix::event::Queues;
use mechanix::style::dirty_path;

#[test]
fn root_shaped_id_has_no_widget() {
    let root = NodeId::new(NodeId::NONE, NodeId::NONE, 0, 0);
    assert!(!root.has_widget());
    assert!(NodeId::new(0, 0, 1, 0).has_widget());
    assert_ne!(root, NodeId::invalid());
}

#[test]
fn node_id_getters_read_back_their_fields() {
    let id = NodeId::new(3, 4, 5, 6);
    assert_eq!(id.widget_column(), 3);
    assert_eq!(id.widget_index(), 4);
    assert_eq!(id.component_index(), 5);
    assert_eq!(id.generation(), 6);
    assert_eq!(NONE, u64::MAX);
    assert_eq!(NodeId::invalid().generation(), NONE);
}

#[test]
fn root_is_its_own_parent_and_has_no_widget() {
    let t = Tree::new();
    let root = t.root();
    assert_eq!(t.parent(root), Some(root));
    assert!(!root.has_widget());
    assert_eq!(t.children(root).unwrap().len(), 0);
    assert_eq!(t.slot_count(), 1);
}

#[test]
fn root_cannot_be_removed() {
    let mut t = Tree::new();
    let root = t.root();
    assert_eq!(t.remove(root), Err(Error::Root));
    assert!(t.contains(root));
}

#[test]
fn spawn_appends_in_sibling_order() {
    let mut t = Tree::new();
    let root = t.root();
    let a = t.spawn(root, 0, 0).unwrap();
    let b = t.spawn(root, 0, 1).unwrap();
    let c = t.spawn(a, 1, 0).unwrap();
    assert_eq!(t.children(root).unwrap(), &[a, b]);
    assert_eq!(t.children(a).unwrap(), &[c]);
    assert_eq!(t.parent(c), Some(a));
    assert_eq!(a.widget_column(), 0);
    assert_eq!(c.widget_column(), 1);
}

#[test]
fn spawn_under_stale_parent_fails() {
    let mut t = Tree::new();
    let root = t.root();
    let a = t.spawn(root, 0, 0).unwrap();
    t.remove(a).unwrap();
    assert_eq!(t.spawn(a, 0, 1), Err(Error::Stale));
    assert_eq!(t.children(root).unwrap().len(), 0);
}

#[test]
fn removing_a_subtree_frees_every_node_and_ids_go_stale() {
    let mut t = Tree::new();
    let root = t.root();
    let a = t.spawn(root, 0, 0).unwrap();
    let b = t.spawn(a, 0, 1).unwrap();
    let c = t.spawn(b, 0, 2).unwrap();
    let d = t.spawn(root, 0, 3).unwrap();
    let removed = t.remove(a).unwrap();
    assert_eq!(removed.len(), 3);
    for id in [a, b, c] {
        assert!(removed.contains(&id));
        assert!(!t.contains(id));
        assert_eq!(t.parent(id), None);
    }
    assert!(t.contains(d));
    assert_eq!(t.children(root).unwrap(), &[d]);
    assert_eq!(t.remove(a), Err(Error::Stale));
}

#[test]
fn a_reused_slot_gets_a_new_generation() {
    let mut t = Tree::new();
    let root = t.root();
    let a = t.spawn(root, 0, 0).unwrap();
    t.remove(a).unwrap();
    let b = t.spawn(root, 0, 0).unwrap();
    assert_eq!(b.component_index(), a.component_index());
    assert_eq!(b.generation(), a.generation() + 1);
    assert!(!t.contains(a));
    assert!(t.contains(b));
    assert_eq!(t.slot_count(), 2);
}

#[test]
fn live_ids_are_in_slot_order() {
    let mut t = Tree::new();
    let root = t.root();
    let a = t.spawn(root, 0, 0).unwrap();
    let b = t.spawn(a, 0, 1).unwrap();
    assert_eq!(t.live_ids(), vec![root, a, b]);
    assert_eq!(Error::Stale.message(), "node id is stale");
    assert_eq!(Error::Root.message(), "the root node cannot be removed");
}

#[test]
fn preorder_lists_a_subtree_parent_first_in_sibling_order() {
    let mut t = Tree::new();
    let root = t.root();
    let a = t.spawn(root, 0, 0).unwrap();
    let a1 = t.spawn(a, 0, 1).unwrap();
    let a2 = t.spawn(a, 0, 2).unwrap();
    let b = t.spawn(root, 0, 3).unwrap();
    let a11 = t.spawn(a1, 0, 4).unwrap();
    assert_eq!(t.preorder(root), vec![root, a, a1, a11, a2, b]);
    assert_eq!(t.preorder(a), vec![a, a1, a11, a2]);
    t.remove(a).unwrap();
    assert_eq!(t.preorder(a), vec![a]);
}

#[test]
fn dirty_path_climbs_to_the_root() {
    let mut t = Tree::new();
    let root = t.root();
    let a = t.spawn(root, 0, 0).unwrap();
    let b = t.spawn(a, 0, 1).unwrap();
    assert_eq!(dirty_path(&t, b), vec![b, a, root]);
    assert_eq!(dirty_path(&t, root), vec![root]);
    t.remove(a).unwrap();
    assert_eq!(dirty_path(&t, b), Vec::<NodeId>::new());
}

#[test]
fn widget_store_fills_lends_and_frees() {
    let mut store: WidgetStore<&'static str> = WidgetStore::new();
    let id0 = NodeId::new(0, 0, 1, 0);
    let i = store.reserve();
    assert_eq!(i, 0);
    assert_eq!(store.get(id0), None);
    store.fill(i, id0, "hello");
    assert_eq!(store.get(id0), Some(&"hello"));
    assert_eq!(store.get(NodeId::new(0, 0, 1, 1)), None);
    *store.get_mut(id0).unwrap() = "bye";
    let w = store.take(id0).unwrap();
    assert_eq!(w, "bye");
    assert_eq!(store.get(id0), None);
    store.put_back(id0, w);
    assert_eq!(store.get(id0), Some(&"bye"));
    assert_eq!(store.ids(), vec![id0]);
    store.free(0);
    assert_eq!(store.get(id0), None);
    assert_eq!(store.reserve(), 0);
}

#[derive(Default, Debug, PartialEq)]
struct Score(u32);
impl mechanix::component::Component for Score {}

#[test]
fn a_reader_blocks_the_writer_and_a_writer_hides_the_column() {
    let mut t = Tree::new();
    let root = t.root();
    let a = t.spawn(root, 0, 0).unwrap();
    let mut scores: Components<Score> = Components::register(t.slot_count() as u64, &t.live_ids());
    let reader = scores.get().unwrap();
    assert_eq!(scores.read(a), Some(&Score(0)));
    assert!(scores.get_mut().is_none());
    scores.release(reader);
    let mut writer = scores.get_mut().unwrap();
    *writer.get_mut(a).unwrap() = Score(7);
    assert!(scores.get().is_none());
    assert!(scores.get_mut().is_none());
    assert_eq!(scores.read(a), None);
    scores.restore(writer);
    assert_eq!(scores.read(a), Some(&Score(7)));
}

#[test]
fn spawns_and_removes_during_a_write_are_applied_on_restore() {
    let mut t = Tree::new();
    let root = t.root();
    let a = t.spawn(root, 0, 0).unwrap();
    let mut scores: Components<Score> = Components::register(t.slot_count() as u64, &t.live_ids());
    let mut writer = scores.get_mut().unwrap();
    *writer.get_mut(a).unwrap() = Score(3);
    t.remove(a).unwrap();
    scores.set(a.component_index(), None);
    let b = t.spawn(root, 0, 1).unwrap();
    scores.set(b.component_index(), Some(b));
    assert_eq!(writer.get(a), Some(&Score(3)));
    scores.restore(writer);
    assert_eq!(scores.read(a), None);
    assert_eq!(scores.read(b), Some(&Score(0)));
}

#[test]
fn one_node_proxies_read_and_write_their_own_component() {
    let mut t = Tree::new();
    let root = t.root();
    let a = t.spawn(root, 0, 0).unwrap();
    let mut scores: Components<Score> = Components::register(t.slot_count() as u64, &t.live_ids());
    let mut one = scores.get_at_mut(a).unwrap();
    assert_eq!(one.id(), a);
    assert_eq!(one.replace(Score(9)), Some(Score(0)));
    scores.restore_at(one);
    let one = scores.get_at(a).unwrap();
    assert_eq!(one.id(), a);
    assert_eq!(scores.read(one.id()), Some(&Score(9)));
    scores.release_at(one);
    assert!(scores.get_mut().is_some());
}

#[test]
fn resources_lend_one_writer_or_many_readers() {
    let mut r: Resources<String> = Resources::new();
    assert!(r.absent());
    assert!(r.get().is_none());
    r.insert("dark".to_string());
    let a = r.get().unwrap();
    let b = r.get().unwrap();
    assert_eq!(r.read().unwrap(), "dark");
    assert!(r.get_mut().is_none());
    assert!(r.remove().is_none());
    r.release(a);
    assert!(r.get_mut().is_none(), "one reader is enough");
    r.release(b);
    let mut w = r.get_mut().unwrap();
    w.value_mut().push_str("er");
    assert!(r.get().is_none());
    assert!(r.read().is_none());
    r.restore(w);
    assert_eq!(r.read().unwrap(), "darker");
    assert_eq!(r.remove(), Some("darker".to_string()));
    assert!(r.absent());
}

#[test]
fn flush_runs_pending_events_before_each_signal() {
    let mut q: Queues<&'static str> = Queues::new();
    q.push_signal("s1");
    q.push_event("e1");
    q.push_signal("s2");
    q.push_event("e2");
    assert_eq!(q.next(), Some("e1"));
    assert_eq!(q.next(), Some("e2"));
    assert_eq!(q.next(), Some("s1"));
    q.push_event("e3");
    assert_eq!(q.next(), Some("e3"));
    assert_eq!(q.next(), Some("s2"));
    assert!(q.is_empty());
    assert_eq!(q.next(), None);
}

#[test]
fn flush_on_empty_queues_is_a_noop() {
    let mut q: Queues<u8> = Queues::new();
    assert_eq!(q.next(), None);
    assert_eq!(q.next(), None);
    assert!(q.is_empty());
}

#[test]
fn a_walk_visits_what_removing_frees() {
    let mut t = Tree::new();
    let root = t.root();
    let a = t.spawn(root, 0, 0).unwrap();
    let a1 = t.spawn(a, 0, 1).unwrap();
    let _a11 = t.spawn(a1, 0, 2).unwrap();
    let _a2 = t.spawn(a, 0, 3).unwrap();
    let _b = t.spawn(root, 0, 4).unwrap();
    let mut walk = t.preorder(a);
    let mut removed = t.remove(a).unwrap();
    walk.sort();
    removed.sort();
    assert_eq!(walk, removed);
}
