use mechanix::component::{Component, Components};
use mechanix::id::NodeId;
use mechanix::resource::Resources;
use mechanix::tree::{Error, Tree};
use mechanix::widget_store::WidgetStore;

// ── fixtures ─────────────────────────────────────────────────────────────────

#[derive(Debug, PartialEq)]
struct Clock(u64);

struct Theme(&'static str);

#[derive(Debug, Default, PartialEq, Clone, Copy)]
struct Pos(i32, i32);
impl Component for Pos {}

#[derive(Debug, Default, PartialEq)]
struct Tag(Option<&'static str>);
impl Component for Tag {}

/// A node spawned under `parent`, with its slot recorded in the column.
fn spawn(t: &mut Tree, pos: &mut Components<Pos>, parent: NodeId) -> NodeId {
    let id = t.spawn(parent, 0, 0).unwrap();
    pos.set(id.component_index(), Some(id));
    id
}

/// `id` and its subtree removed, every slot reset in the column.
fn remove(t: &mut Tree, pos: &mut Components<Pos>, id: NodeId) {
    for gone in t.remove(id).unwrap() {
        pos.set(gone.component_index(), None);
    }
}

fn registered(t: &Tree) -> Components<Pos> {
    Components::register(t.slot_count() as u64, &t.live_ids())
}

fn placed(t: &mut Tree, pos: &mut Components<Pos>, parent: NodeId, p: Pos) -> NodeId {
    let id = spawn(t, pos, parent);
    let mut one = pos.get_at_mut(id).unwrap();
    assert_eq!(one.replace(p), Some(Pos::default()));
    pos.restore_at(one);
    id
}

// ── resources ────────────────────────────────────────────────────────────────

#[test]
fn absent_resource_reads_as_none() {
    let mut r: Resources<Clock> = Resources::new();
    assert!(r.get().is_none());
    assert!(r.read().is_none());
    assert!(r.get_mut().is_none());
    assert_eq!(r.remove(), None);
}

#[test]
fn insert_then_read_then_write_then_remove() {
    let mut r: Resources<Clock> = Resources::new();
    r.insert(Clock(1));
    assert_eq!(r.read().unwrap().0, 1);

    let mut w = r.get_mut().unwrap();
    w.value_mut().0 = 7;
    r.restore(w);
    assert_eq!(r.read().unwrap().0, 7);

    assert_eq!(r.remove(), Some(Clock(7)));
    assert!(r.read().is_none());
}

#[test]
fn resources_are_keyed_by_type() {
    let mut clocks: Resources<Clock> = Resources::new();
    let mut themes: Resources<Theme> = Resources::new();
    clocks.insert(Clock(1));
    themes.insert(Theme("dark"));
    assert_eq!(clocks.read().unwrap().0, 1);
    assert_eq!(themes.read().unwrap().0, "dark");
}

#[test]
fn removed_resource_can_be_inserted_again() {
    let mut r: Resources<Clock> = Resources::new();
    r.insert(Clock(1));
    r.remove().unwrap();
    r.insert(Clock(2));
    assert_eq!(r.read().unwrap().0, 2);
}

#[test]
fn many_readers_coexist() {
    let mut r: Resources<Clock> = Resources::new();
    r.insert(Clock(3));
    let a = r.get().unwrap();
    let b = r.get().unwrap();
    assert_eq!(r.read().unwrap().0, 3);
    r.release(a);
    r.release(b);
}

#[test]
fn a_live_reader_blocks_writes_and_removal_only() {
    let mut r: Resources<Clock> = Resources::new();
    r.insert(Clock(3));
    let reader = r.get().unwrap();

    assert!(r.get_mut().is_none());
    assert_eq!(r.remove(), None, "refused, not half done");
    assert_eq!(r.read().unwrap().0, 3, "still present after refusal");

    r.release(reader);
    let w = r.get_mut().unwrap();
    r.restore(w);
    assert_eq!(r.remove(), Some(Clock(3)));
}

#[test]
fn a_live_writer_hides_the_resource_from_everyone() {
    let mut r: Resources<Clock> = Resources::new();
    r.insert(Clock(3));
    let mut writer = r.get_mut().unwrap();
    writer.value_mut().0 = 4;

    assert!(r.get().is_none());
    assert!(r.read().is_none());
    assert!(r.get_mut().is_none());
    assert_eq!(r.remove(), None);

    r.restore(writer);
    assert_eq!(r.read().unwrap().0, 4, "written value came back");
}

// ── components ───────────────────────────────────────────────────────────────

#[test]
fn register_backfills_existing_nodes_and_root() {
    let mut t = Tree::new();
    let root = t.root();
    let a = t.spawn(root, 0, 0).unwrap();
    let pos = registered(&t);
    assert_eq!(pos.read(root), Some(&Pos::default()));
    assert_eq!(pos.read(a), Some(&Pos::default()));
    assert_eq!(pos.ids().len(), 2);
}

#[test]
fn columns_are_keyed_by_type() {
    let mut t = Tree::new();
    let root = t.root();
    let mut pos = registered(&t);
    let mut tags: Components<Tag> = Components::register(t.slot_count() as u64, &t.live_ids());
    let a = spawn(&mut t, &mut pos, root);
    tags.set(a.component_index(), Some(a));
    let mut w = pos.get_mut().unwrap();
    *w.get_mut(a).unwrap() = Pos(1, 2);
    pos.restore(w);
    let mut w = tags.get_mut().unwrap();
    *w.get_mut(a).unwrap() = Tag(Some("a"));
    tags.restore(w);
    assert_eq!(pos.read(a), Some(&Pos(1, 2)));
    assert_eq!(tags.read(a), Some(&Tag(Some("a"))));
}

#[test]
fn spawn_gets_default_and_remove_resets() {
    let mut t = Tree::new();
    let root = t.root();
    let mut pos = registered(&t);
    let a = spawn(&mut t, &mut pos, root);
    assert_eq!(pos.read(a), Some(&Pos::default()));

    let mut w = pos.get_mut().unwrap();
    *w.get_mut(a).unwrap() = Pos(5, 5);
    pos.restore(w);
    remove(&mut t, &mut pos, a);
    assert_eq!(pos.read(a), None, "stale");

    // The slot is reused; the new node must not inherit `Pos(5, 5)`.
    let b = spawn(&mut t, &mut pos, root);
    assert_eq!(b.component_index(), a.component_index());
    assert_eq!(pos.read(b), Some(&Pos::default()));
    assert_eq!(pos.read(a), None);
}

#[test]
fn removing_a_subtree_resets_every_node_in_it() {
    let mut t = Tree::new();
    let root = t.root();
    let mut pos = registered(&t);
    let top = spawn(&mut t, &mut pos, root);
    placed(&mut t, &mut pos, top, Pos(1, 1));
    placed(&mut t, &mut pos, top, Pos(2, 2));
    assert_eq!(pos.ids().len(), 4);
    remove(&mut t, &mut pos, top);
    assert_eq!(pos.ids().len(), 1, "only the root is left");
    assert_eq!(pos.read(root), Some(&Pos::default()));
}

#[test]
fn iteration_visits_live_nodes_only() {
    let mut t = Tree::new();
    let root = t.root();
    let mut pos = registered(&t);
    let a = placed(&mut t, &mut pos, root, Pos(1, 0));
    let b = placed(&mut t, &mut pos, root, Pos(2, 0));
    let c = placed(&mut t, &mut pos, root, Pos(3, 0));
    remove(&mut t, &mut pos, b);

    let mut seen: Vec<_> = pos.ids().into_iter().map(|id| (id, *pos.read(id).unwrap())).collect();
    seen.sort_by_key(|(id, _)| id.component_index());
    assert_eq!(seen, vec![(root, Pos::default()), (a, Pos(1, 0)), (c, Pos(3, 0))]);

    let mut w = pos.get_mut().unwrap();
    for id in w.ids() {
        w.get_mut(id).unwrap().1 = 9;
    }
    pos.restore(w);
    assert_eq!(pos.read(a), Some(&Pos(1, 9)));
}

#[test]
fn set_component_returns_the_old_value() {
    let mut t = Tree::new();
    let root = t.root();
    let mut pos = registered(&t);
    let a = spawn(&mut t, &mut pos, root);
    let mut one = pos.get_at_mut(a).unwrap();
    assert_eq!(one.replace(Pos(1, 1)), Some(Pos::default()));
    assert_eq!(one.replace(Pos(2, 2)), Some(Pos(1, 1)));
    pos.restore_at(one);
    assert_eq!(pos.read(a), Some(&Pos(2, 2)));
}

#[test]
fn a_single_node_proxy_counts_as_holding_the_column() {
    let mut t = Tree::new();
    let root = t.root();
    let mut pos = registered(&t);
    let me = spawn(&mut t, &mut pos, root);

    let reader = pos.get_at(me).unwrap();
    assert!(pos.get_at_mut(me).is_none(), "reader blocks writer");
    assert_eq!(pos.read(reader.id()), Some(&Pos::default()));
    pos.release_at(reader);

    let writer = pos.get_at_mut(me).unwrap();
    assert!(pos.get_at(me).is_none(), "writer blocks reader");
    assert!(pos.get_at_mut(me).is_none(), "writer blocks writer");
    pos.restore_at(writer);
}

#[test]
fn many_readers_coexist_and_block_the_writer() {
    let t = Tree::new();
    let mut pos = registered(&t);
    let a = pos.get().unwrap();
    let b = pos.get().unwrap();
    assert!(pos.get_mut().is_none());
    pos.release(a);
    assert!(pos.get_mut().is_none(), "one reader is enough");
    pos.release(b);
    assert!(pos.get_mut().is_some());
}

#[test]
fn a_reader_does_not_see_nodes_spawned_meanwhile() {
    let mut t = Tree::new();
    let root = t.root();
    let mut pos = registered(&t);
    let reader = pos.get().unwrap();
    let a = spawn(&mut t, &mut pos, root);
    assert_eq!(pos.read(a), None, "not visible while the column is held");
    let second = pos.get().unwrap();
    assert_eq!(pos.read(a), None, "nor to a new reader while the first is alive");
    pos.release(second);
    pos.release(reader);
    assert_eq!(pos.read(a), Some(&Pos::default()));
}

#[test]
fn a_live_writer_hides_the_column_from_everyone() {
    let t = Tree::new();
    let root = t.root();
    let mut pos = registered(&t);
    let mut writer = pos.get_mut().unwrap();
    *writer.get_mut(root).unwrap() = Pos(7, 7);
    assert!(pos.get().is_none());
    assert!(pos.get_mut().is_none());
    assert_eq!(pos.read(root), None);
    pos.restore(writer);
    assert_eq!(pos.read(root), Some(&Pos(7, 7)), "written value came back");
}

#[test]
fn spawns_and_removes_during_a_write_are_applied_on_drop() {
    let mut t = Tree::new();
    let root = t.root();
    let mut pos = registered(&t);
    let old = spawn(&mut t, &mut pos, root);

    let mut writer = pos.get_mut().unwrap();
    *writer.get_mut(old).unwrap() = Pos(1, 1);
    remove(&mut t, &mut pos, old);
    let new = spawn(&mut t, &mut pos, root);
    assert_eq!(new.component_index(), old.component_index(), "slot reused");
    let extra = spawn(&mut t, &mut pos, root);
    assert_eq!(writer.get(new), None, "the writer still sees the old node");
    assert_eq!(writer.get(extra), None, "and nothing beyond its length");
    assert_eq!(writer.get(old), Some(&Pos(1, 1)));
    pos.restore(writer);

    assert_eq!(pos.read(old), None);
    assert_eq!(pos.read(new), Some(&Pos::default()), "reused slot was reset");
    assert_eq!(pos.read(extra), Some(&Pos::default()), "column grew");
    assert_eq!(pos.ids().len(), 3);
}

// ── tree and widget slots ────────────────────────────────────────────────────

struct Div;
struct Text(String);

#[test]
fn remove_twice_is_stale() {
    let mut t = Tree::new();
    let a = t.spawn(t.root(), 0, 0).unwrap();
    assert!(t.remove(a).is_ok());
    assert_eq!(t.remove(a), Err(Error::Stale));
}

#[test]
fn reused_slot_gets_a_new_generation_and_old_id_stays_stale() {
    let mut t = Tree::new();
    let mut texts: WidgetStore<Text> = WidgetStore::new();
    let i = texts.reserve();
    let a = t.spawn(t.root(), 1, i).unwrap();
    texts.fill(i, a, Text("old".to_string()));
    for gone in t.remove(a).unwrap() {
        texts.free(gone.widget_index());
    }
    let j = texts.reserve();
    let b = t.spawn(t.root(), 1, j).unwrap();
    texts.fill(j, b, Text("new".to_string()));

    // Both free lists are LIFO, so the same slots come back…
    assert_eq!(a.component_index(), b.component_index());
    assert_eq!(a.widget_index(), b.widget_index());
    assert_eq!(a.widget_column(), b.widget_column());
    // …under a fresh generation.
    assert_ne!(a, b);
    assert_eq!(b.generation(), a.generation() + 1);

    assert!(texts.get(a).is_none());
    assert_eq!(texts.get(b).unwrap().0, "new");
    assert_eq!(t.parent(a), None);
}

#[test]
fn subtree_slots_are_all_reused() {
    let mut t = Tree::new();
    let mut divs: WidgetStore<Div> = WidgetStore::new();
    let mut texts: WidgetStore<Text> = WidgetStore::new();
    let root = t.root();
    let li = divs.reserve();
    let label = t.spawn(root, 0, li).unwrap();
    divs.fill(li, label, Div);
    let ii = divs.reserve();
    let inner = t.spawn(label, 0, ii).unwrap();
    divs.fill(ii, inner, Div);
    let ti = texts.reserve();
    let text = t.spawn(inner, 1, ti).unwrap();
    texts.fill(ti, text, Text("x".to_string()));
    for gone in t.remove(label).unwrap() {
        if gone.widget_column() == 0 {
            divs.free(gone.widget_index());
        } else {
            texts.free(gone.widget_index());
        }
    }

    // Three node slots and three widget slots were freed; three fresh spawns
    // must consume exactly those (no arena growth, no leaked widget slot).
    let mut node_slots = vec![label.component_index(), inner.component_index(), text.component_index()];
    node_slots.sort();
    let i1 = divs.reserve();
    let d1 = t.spawn(root, 0, i1).unwrap();
    let i2 = divs.reserve();
    let d2 = t.spawn(root, 0, i2).unwrap();
    let i3 = texts.reserve();
    let tt = t.spawn(root, 1, i3).unwrap();
    let mut got = vec![d1.component_index(), d2.component_index(), tt.component_index()];
    got.sort();
    assert_eq!(got, node_slots);

    let mut div_slots = vec![label.widget_index(), inner.widget_index()];
    div_slots.sort();
    let mut got = vec![d1.widget_index(), d2.widget_index()];
    got.sort();
    assert_eq!(got, div_slots);
    assert_eq!(tt.widget_index(), text.widget_index());
}

#[test]
fn remove_frees_the_whole_subtree() {
    let mut t = Tree::new();
    let mut divs: WidgetStore<Div> = WidgetStore::new();
    let mut texts: WidgetStore<Text> = WidgetStore::new();
    let root = t.root();
    let ki = divs.reserve();
    let keep = t.spawn(root, 0, ki).unwrap();
    divs.fill(ki, keep, Div);
    let li = divs.reserve();
    let label = t.spawn(root, 0, li).unwrap();
    divs.fill(li, label, Div);
    let ii = divs.reserve();
    let inner = t.spawn(label, 0, ii).unwrap();
    divs.fill(ii, inner, Div);
    let ti = texts.reserve();
    let text = t.spawn(inner, 1, ti).unwrap();
    texts.fill(ti, text, Text("x".to_string()));

    for gone in t.remove(label).unwrap() {
        if gone.widget_column() == 0 {
            divs.free(gone.widget_index());
        } else {
            texts.free(gone.widget_index());
        }
    }

    for id in [label, inner, text] {
        assert_eq!(t.parent(id), None, "{id:?} should be stale");
        assert_eq!(t.children(id), None);
        assert!(divs.get(id).is_none());
        assert!(texts.get(id).is_none());
    }
    assert_eq!(t.children(root), Some(&[keep][..]));
    assert_eq!(divs.ids(), vec![keep]);
    assert_eq!(texts.ids(), vec![]);
}
