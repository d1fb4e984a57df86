use mechanix::render::{draw_walk, Buffers, FrameStep, Render};
use mechanix::component::Components;
use mechanix::tree::Tree;
use mechanix::widget_store::WidgetStore;
use mechanix::window::Window;

#[test]
fn buffers_alternate_and_a_held_one_is_never_drawn() {
    let mut b = Buffers::new(640, 480);
    assert!(b.fits(640, 480));
    assert!(!b.fits(640, 481));
    assert_eq!(b.begin_frame(), Some(false));
    b.attached();
    assert!(!b.is_released(false));
    assert_eq!(b.back(), true);
    assert_eq!(b.begin_frame(), Some(true));
    b.attached();
    assert_eq!(b.begin_frame(), None);
    assert!(b.is_starved());
}

#[test]
fn a_skipped_frame_is_asked_for_again_on_release() {
    let mut b = Buffers::new(10, 10);
    b.begin_frame();
    b.attached();
    b.begin_frame();
    b.attached();
    assert_eq!(b.begin_frame(), None);
    assert!(!b.release(true));
    assert!(b.is_starved());
    assert!(b.release(false));
    assert!(!b.is_starved());
    assert_eq!(b.begin_frame(), Some(false));
}

#[test]
fn a_frame_draws_its_window_in_preorder_and_skips_nested_windows() {
    let mut t = Tree::new();
    let mut store: WidgetStore<Window> = WidgetStore::new();
    let root = t.root();
    let i = store.reserve();
    let win = t.spawn(root, 0, i).unwrap();
    store.fill(i, win, Window { title: "main".to_string() });
    let a = t.spawn(win, 1, 0).unwrap();
    let a1 = t.spawn(a, 1, 1).unwrap();
    let j = store.reserve();
    let popup = t.spawn(a, 0, j).unwrap();
    store.fill(j, popup, Window { title: "popup".to_string() });
    let _inside_popup = t.spawn(popup, 1, 2).unwrap();
    let b = t.spawn(win, 1, 3).unwrap();
    let layouts: Components<()> = Components::register(t.slot_count() as u64, &t.live_ids());
    let paints: Components<()> = Components::register(t.slot_count() as u64, &t.live_ids());
    assert_eq!(draw_walk(&t, &store, 0, &layouts, &paints, win), vec![(win, 0), (a, 1), (a1, 2), (b, 1)]);
    assert_eq!(draw_walk(&t, &store, 0, &layouts, &paints, popup).len(), 2);
}

#[test]
fn a_node_without_layout_or_paint_is_skipped_with_its_subtree() {
    let mut t = Tree::new();
    let mut store: WidgetStore<Window> = WidgetStore::new();
    let root = t.root();
    let i = store.reserve();
    let win = t.spawn(root, 0, i).unwrap();
    store.fill(i, win, Window { title: "main".to_string() });
    let a = t.spawn(win, 1, 0).unwrap();
    let _a1 = t.spawn(a, 1, 1).unwrap();
    let b = t.spawn(win, 1, 2).unwrap();
    let layouts: Components<()> = Components::register(t.slot_count() as u64, &t.live_ids());
    let mut paints: Components<()> = Components::register(t.slot_count() as u64, &t.live_ids());
    paints.set(a.component_index(), None);
    assert_eq!(draw_walk(&t, &store, 0, &layouts, &paints, win), vec![(win, 0), (b, 1)]);
    paints.set(win.component_index(), None);
    assert!(draw_walk(&t, &store, 0, &layouts, &paints, win).is_empty());
}

#[test]
fn render_table_routes_a_release_to_its_window() {
    let mut t = Tree::new();
    let mut store: WidgetStore<Window> = WidgetStore::new();
    let root = t.root();
    let i = store.reserve();
    let win = t.spawn(root, 0, i).unwrap();
    store.fill(i, win, Window { title: "main".to_string() });
    let mut render: Render<&str> = Render::new();
    assert!(!render.contains(win));
    assert_eq!(render.fits(win, 10, 10), None);
    render.add(win, 10, 10, (20, 21), "gpu");
    assert!(render.contains(win));
    assert!(render.holds_buffer(20) && render.holds_buffer(21) && !render.holds_buffer(22));
    assert_eq!(render.fits(win, 10, 10), Some(true));
    assert_eq!(render.fits(win, 10, 12), Some(false));
    assert_eq!(render.begin_frame(win), Some(false));
    render.attached(win);
    assert_eq!(render.begin_frame(win), Some(true));
    render.attached(win);
    assert_eq!(render.begin_frame(win), None);
    assert_eq!(render.release(21), None);
    assert_eq!(render.release(99), None);
    assert_eq!(render.release(20), Some(win));
    assert_eq!(render.begin_frame(win), Some(false));
}

#[test]
fn render_table_removes_a_resized_window() {
    let mut t = Tree::new();
    let root = t.root();
    let win = t.spawn(root, 0, 0).unwrap();
    let mut render: Render<u8> = Render::new();
    render.add(win, 4, 4, (1, 2), 7);
    let gone = render.remove(win).unwrap();
    assert_eq!((gone.window, gone.ids, gone.gpu), (win, (1, 2), 7));
    assert!(!render.contains(win));
    assert!(!render.holds_buffer(1));
    assert!(render.remove(win).is_none());
}

#[test]
fn render_sweep_frees_the_buffers_of_closed_windows() {
    let mut t = Tree::new();
    let mut store: WidgetStore<Window> = WidgetStore::new();
    let root = t.root();
    let mut wins = Vec::new();
    for n in 0..3u32 {
        let i = store.reserve();
        let w = t.spawn(root, 0, i).unwrap();
        store.fill(i, w, Window { title: format!("w{n}") });
        wins.push(w);
    }
    let mut render: Render<u32> = Render::new();
    for (n, w) in wins.iter().enumerate() {
        let n = n as u32;
        render.add(*w, 8, 8, (10 * n + 1, 10 * n + 2), n);
    }
    t.remove(wins[0]).unwrap();
    let gone = render.sweep(&t, &store, 0);
    assert_eq!(gone.len(), 1);
    assert_eq!(gone[0].window, wins[0]);
    assert_eq!(gone[0].gpu, 0);
    assert!(!render.contains(wins[0]));
    assert!(render.contains(wins[1]) && render.contains(wins[2]));
    assert!(!render.holds_buffer(1) && render.holds_buffer(11) && render.holds_buffer(22));
    assert_eq!(render.release(12), None);
}

#[test]
fn a_frame_step_allocates_draws_skips_and_reallocates() {
    let mut t = Tree::new();
    let root = t.root();
    let w = t.spawn(root, 0, 0).unwrap();
    let mut render: Render<u8> = Render::new();
    assert!(matches!(render.frame(w, 0, 5), FrameStep::Empty));
    assert!(matches!(render.frame(w, 4, 4), FrameStep::Allocate(None)));
    render.add(w, 4, 4, (1, 2), 9);
    assert!(matches!(render.frame(w, 4, 4), FrameStep::Draw(false)));
    render.attached(w);
    assert!(matches!(render.frame(w, 4, 4), FrameStep::Draw(true)));
    render.attached(w);
    assert!(matches!(render.frame(w, 4, 4), FrameStep::Skip));
    assert_eq!(render.release(1), Some(w));
    match render.frame(w, 8, 8) {
        FrameStep::Allocate(Some(old)) => assert_eq!((old.window, old.ids, old.gpu), (w, (1, 2), 9)),
        _ => panic!("a resized window gets new buffers"),
    }
    assert!(!render.contains(w));
}
