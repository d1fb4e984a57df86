use mechanix::ring::{BeforeWait, RingModule, Runner, Step, Stop, Token, Tokens};
use mechanix::wayland::{
    bind_version, Completion, Globals, Interface, Objects, Wire, WlCallback, WlDisplay, WlRegistry,
};
use mechanix::wire::{encode_message, ObjectId};
use mechanix::names::{enum_type_name, needs_raw, to_pascal, variant_name};

#[test]
fn the_manual_interfaces_name_themselves() {
    assert_eq!(WlDisplay::NAME, "wl_display");
    assert_eq!(WlCallback::NAME, "wl_callback");
    assert_eq!(WlRegistry::NAME, "wl_registry");
    assert_eq!(WlDisplay::VERSION, 1);
}

#[test]
fn a_global_binds_at_the_lower_version() {
    assert_eq!(bind_version(4, 6), 4);
    assert_eq!(bind_version(9, 6), 6);
    assert_eq!(bind_version(6, 6), 6);
}

#[test]
fn globals_record_what_was_advertised_and_bind_one_per_interface() {
    let mut g = Globals::new();
    assert!(g.advertised().is_empty());
    g.announce(1, "wl_registry".to_string(), 1);
    g.announce(2, "wl_seat".to_string(), 7);
    assert_eq!(g.advertised(), &[(1, "wl_registry".to_string(), 1), (2, "wl_seat".to_string(), 7)]);
    assert_eq!(g.get::<WlRegistry>(), None);
    g.insert::<WlRegistry>(ObjectId(2));
    assert_eq!(g.get::<WlRegistry>(), Some(ObjectId(2)));
    g.insert::<WlRegistry>(ObjectId(5));
    assert_eq!(g.get::<WlRegistry>(), Some(ObjectId(5)));
    assert_eq!(g.get::<WlCallback>(), None);
}

#[test]
fn ids_are_fresh_until_one_is_deleted_then_reused() {
    let mut o = Objects::new();
    assert_eq!(o.interface_of(ObjectId(1)), Some("wl_display"));
    assert!(o.can_alloc());
    let a = o.alloc_id();
    assert_eq!(a, ObjectId(2));
    o.register(a, "wl_registry");
    let b = o.alloc_id();
    assert_eq!(b, ObjectId(3));
    o.register(b, "wl_callback");
    assert!(o.is_live(b));
    o.invalidate(b);
    assert!(!o.is_live(b));
    assert_eq!(o.interface_of(b), None);
    assert_eq!(o.alloc_id(), ObjectId(3));
    assert_eq!(o.alloc_id(), ObjectId(4));
}

#[test]
fn one_send_is_in_flight_at_a_time_and_bytes_keep_their_order() {
    let mut w = Wire::new();
    assert!(!w.flush());
    w.write(1, 0, &[2, 0, 0, 0]);
    w.write(1, 1, &[3, 0, 0, 0]);
    assert!(w.flush());
    let mut expected = Vec::new();
    encode_message(&mut expected, 1, 0, &[2, 0, 0, 0]);
    encode_message(&mut expected, 1, 1, &[3, 0, 0, 0]);
    assert_eq!(w.in_flight(), &expected[..]);
    w.write_submitted(Token(7));
    w.write(4, 0, &[]);
    assert!(!w.flush());
    assert_eq!(w.complete(Token(7)), Completion::Write);
    assert!(w.in_flight().is_empty());
    assert!(w.flush());
    assert_eq!(w.in_flight().len(), 8);
}

#[test]
fn reads_are_reassembled_into_messages() {
    let mut w = Wire::new();
    assert!(w.wants_read());
    w.read_submitted(Token(3));
    assert!(!w.wants_read());
    assert_eq!(w.complete(Token(9)), Completion::NotOurs);
    assert_eq!(w.complete(Token(3)), Completion::Read);
    assert!(w.wants_read());
    let mut bytes = Vec::new();
    encode_message(&mut bytes, 5, 1, &[1, 2, 3, 4]);
    let events = w.received(&bytes[..6]).unwrap();
    assert!(events.is_empty());
    let events = w.received(&bytes[6..]).unwrap();
    assert_eq!(events.len(), 1);
    assert_eq!(events[0].object_id, ObjectId(5));
    assert_eq!(events[0].data, vec![1, 2, 3, 4]);
}

#[test]
fn a_malformed_header_is_refused_and_nothing_is_kept() {
    let mut w = Wire::new();
    let mut bytes = 5u32.to_ne_bytes().to_vec();
    bytes.extend_from_slice(&(4u32 << 16).to_ne_bytes());
    assert!(w.received(&bytes).is_none());
    let mut ok = Vec::new();
    encode_message(&mut ok, 2, 0, &[]);
    assert_eq!(w.received(&ok).unwrap().len(), 1);
}

#[test]
fn tokens_count_up_from_one() {
    let mut t = Tokens::new();
    assert!(t.has_next());
    assert_eq!(t.issue(), Token(1));
    assert_eq!(t.issue(), Token(2));
    assert_ne!(t.issue(), Token(2));
}

#[test]
fn the_runner_waits_until_stopped() {
    let mut r = Runner::new();
    assert_eq!(r.after_batch(), Step::Wait);
    r.stop();
    assert_eq!(r.after_batch(), Step::Finish);
    assert_eq!(RingModule::default().entries, 256);
    assert_eq!(Stop, Stop);
    assert_eq!(BeforeWait, BeforeWait);
}

#[test]
fn protocol_names_become_rust_names() {
    assert_eq!(to_pascal("wl_surface"), "WlSurface");
    assert_eq!(to_pascal("zwlr_layer_shell_v1"), "ZwlrLayerShellV1");
    assert_eq!(to_pascal("__a__b_"), "AB");
    assert_eq!(to_pascal(""), "");
    assert_eq!(variant_name("top_left"), "TopLeft");
    assert_eq!(variant_name("2x"), "N2x");
    assert_eq!(variant_name("_3d"), "N3d");
}

#[test]
fn enum_names_take_their_interface_or_the_one_they_name() {
    assert_eq!(enum_type_name("wl_surface", "error"), "WlSurfaceError");
    assert_eq!(enum_type_name("wl_surface", "wl_output.transform"), "WlOutputTransform");
    assert_eq!(enum_type_name("a", "b.c.d"), "BC.d");
}

#[test]
fn keywords_are_written_raw() {
    assert!(needs_raw("type"));
    assert!(needs_raw("await"));
    assert!(!needs_raw("surface"));
    assert!(!needs_raw("Type"));
}
