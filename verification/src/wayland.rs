//! The Wayland client's bookkeeping: the protocol interfaces, the objects
//! alive on the connection and the ids they reuse, the bytes buffered to
//! send and received but not yet a whole message, and the globals the
//! compositor advertised.
//!
//! Requests written through a proxy only buffer; a flush hands the buffer
//! to the socket when no send is in flight, and a read is re-armed when
//! none is outstanding, so at most one send and one receive are in flight
//! at a time. A read's bytes join what was left of the last one, and every
//! whole message among them is delivered.

use std::collections::{HashMap, HashSet};
use vstd::prelude::*;
use vstd::std_specs::iter::IteratorSpec;
use crate::ring::Token;
use crate::resource::Resource;
use crate::wire::{
    ObjectId, RawWaylandEvent, copy_range, encode_message, encoded_message, messages, parse_messages,
    tail_start, well_framed,
};

verus! {

/// A protocol interface: its name on the wire and the highest version this
/// client speaks.
pub trait Interface {
    const NAME: &'static str;
    const VERSION: u32;
}

/// The display singleton.
#[derive(Debug)]
pub struct WlDisplay;

impl Interface for WlDisplay {
    const NAME: &'static str = "wl_display";
    const VERSION: u32 = 1;
}

/// A frame or sync callback.
#[derive(Debug)]
pub struct WlCallback;

impl Interface for WlCallback {
    const NAME: &'static str = "wl_callback";
    const VERSION: u32 = 1;
}

/// The registry of globals.
#[derive(Debug)]
pub struct WlRegistry;

impl Interface for WlRegistry {
    const NAME: &'static str = "wl_registry";
    const VERSION: u32 = 1;
}

/// A global is bound at the lower of the version it is advertised at and
/// the one this client speaks.
pub fn bind_version(advertised: u32, ours: u32) -> (v: u32)
    ensures
        v == (if advertised <= ours { advertised } else { ours }),
{
    if advertised <= ours {
        advertised
    } else {
        ours
    }
}

/// What the compositor advertised, and the objects bound for the
/// interfaces this client knows, one per interface.
#[derive(Debug)]
pub struct Globals {
    bound: Vec<(String, ObjectId)>,
    advertised: Vec<(u32, String, u32)>,
}

impl Resource for Globals {}

impl Globals {
    /// The bound object of each interface, by interface name.
    pub closed spec fn bound_view(&self) -> Map<Seq<char>, ObjectId> {
        Map::new(
            |k: Seq<char>| exists|i: int| 0 <= i < self.bound@.len() && self.bound@[i].0@ == k,
            |k: Seq<char>| self.bound@[choose|i: int| 0 <= i < self.bound@.len() && self.bound@[i].0@ == k].1,
        )
    }

    /// Every global announced, in order: name, interface, version.
    pub closed spec fn advertised_view(&self) -> Seq<(u32, Seq<char>, u32)> {
        self.advertised@.map_values(|g: (u32, String, u32)| (g.0, g.1@, g.2))
    }

    #[verifier::type_invariant]
    closed spec fn keys_unique(&self) -> bool {
        forall|i: int, j: int| 0 <= i < j < self.bound@.len() ==> self.bound@[i].0@ != self.bound@[j].0@
    }

    /// Where `name` is bound, if it is.
    fn position(&self, name: &String) -> (r: Option<usize>)
        ensures
            match r {
                Some(i) => i < self.bound@.len() && self.bound@[i as int].0@ == name@
                    && self.bound_view().contains_key(name@) && self.bound_view()[name@] == self.bound@[i as int].1,
                None => !self.bound_view().contains_key(name@),
            },
    {
        proof {
            use_type_invariant(self);
        }
        let mut i: usize = 0;
        while i < self.bound.len()
            invariant
                i <= self.bound@.len(),
                forall|j: int| 0 <= j < i ==> self.bound@[j].0@ != name@,
                self.keys_unique(),
            decreases self.bound@.len() - i,
        {
            if self.bound[i].0 == *name {
                proof {
                    let k = name@;
                    assert(self.bound_view().contains_key(k));
                    let j = choose|j: int| 0 <= j < self.bound@.len() && self.bound@[j].0@ == k;
                    if j != i {
                        if j < i {
                            assert(self.bound@[j].0@ != self.bound@[i as int].0@);
                        } else {
                            assert(self.bound@[i as int].0@ != self.bound@[j].0@);
                        }
                    }
                }
                return Some(i);
            }
            i += 1;
        }
        None
    }

    /// The object bound for `T`, if the compositor advertised it.
    pub fn get<T: Interface>(&self) -> (r: Option<ObjectId>)
        ensures
            r == (if self.bound_view().contains_key(T::NAME@) { Some(self.bound_view()[T::NAME@]) } else { None }),
    {
        let name = T::NAME.to_owned();
        match self.position(&name) {
            Some(i) => Some(self.bound[i].1),
            None => None,
        }
    }

    /// `id` is the object bound for `T` from now on.
    pub fn insert<T: Interface>(&mut self, id: ObjectId)
        ensures
            final(self).bound_view() == old(self).bound_view().insert(T::NAME@, id),
            final(self).advertised_view() == old(self).advertised_view(),
    {
        let name = T::NAME.to_owned();
        let found = self.position(&name);
        let mut cur = Globals { bound: Vec::new(), advertised: Vec::new() };
        std::mem::swap(&mut cur, self);
        proof {
            use_type_invariant(&cur);
        }
        let ghost before = cur;
        let Globals { bound, advertised } = cur;
        let mut bound = bound;
        match found {
            Some(i) => {
                bound.set(i, (name, id));
            },
            None => {
                bound.push((name, id));
            },
        }
        let g = Globals { bound, advertised };
        proof {
            assert forall|k: Seq<char>| #[trigger] g.bound_view().contains_key(k) == before.bound_view().insert(T::NAME@, id).contains_key(k) by {
                if k != T::NAME@ {
                    if before.bound_view().contains_key(k) {
                        let j = choose|j: int| 0 <= j < before.bound@.len() && before.bound@[j].0@ == k;
                        assert(g.bound@[j].0@ == k);
                    }
                    if g.bound_view().contains_key(k) {
                        let j = choose|j: int| 0 <= j < g.bound@.len() && g.bound@[j].0@ == k;
                        assert(before.bound@[j].0@ == k);
                    }
                } else {
                    match found {
                        Some(i) => assert(g.bound@[i as int].0@ == k),
                        None => assert(g.bound@[before.bound@.len() as int].0@ == k),
                    }
                }
            }
            assert forall|k: Seq<char>| g.bound_view().contains_key(k) implies #[trigger] g.bound_view()[k] == before.bound_view().insert(T::NAME@, id)[k] by {
                let j = choose|j: int| 0 <= j < g.bound@.len() && g.bound@[j].0@ == k;
                if k != T::NAME@ {
                    let j0 = choose|j: int| 0 <= j < before.bound@.len() && before.bound@[j].0@ == k;
                    assert(g.bound@[j0].0@ == k);
                    if j != j0 {
                        if j < j0 {
                            assert(g.bound@[j].0@ != g.bound@[j0].0@);
                        } else {
                            assert(g.bound@[j0].0@ != g.bound@[j].0@);
                        }
                    }
                } else {
                    match found {
                        Some(i) => {
                            if j != i {
                                if j < i {
                                    assert(g.bound@[j].0@ != g.bound@[i as int].0@);
                                } else {
                                    assert(g.bound@[i as int].0@ != g.bound@[j].0@);
                                }
                            }
                        },
                        None => {
                            let last = before.bound@.len() as int;
                            if j != last {
                                assert(before.bound@[j].0@ == k);
                            }
                        },
                    }
                }
            }
            assert(g.bound_view() =~= before.bound_view().insert(T::NAME@, id));
        }
        *self = g;
    }

    pub fn new() -> (g: Self)
        ensures
            g.bound_view() == Map::<Seq<char>, ObjectId>::empty(),
            g.advertised_view() == Seq::<(u32, Seq<char>, u32)>::empty(),
    {
        let g = Globals { bound: Vec::new(), advertised: Vec::new() };
        proof {
            assert(g.bound_view() =~= Map::<Seq<char>, ObjectId>::empty());
            assert(g.advertised_view() =~= Seq::<(u32, Seq<char>, u32)>::empty());
        }
        g
    }

    /// Every global the registry announced, bound or not: name, interface,
    /// version.
    pub fn advertised(&self) -> (r: &[(u32, String, u32)])
        ensures
            r@.map_values(|g: (u32, String, u32)| (g.0, g.1@, g.2)) == self.advertised_view(),
    {
        self.advertised.as_slice()
    }

    /// The registry announced a global.
    pub fn announce(&mut self, name: u32, interface: String, version: u32)
        ensures
            final(self).advertised_view() == old(self).advertised_view().push((name, interface@, version)),
            final(self).bound_view() == old(self).bound_view(),
    {
        let mut cur = Globals { bound: Vec::new(), advertised: Vec::new() };
        std::mem::swap(&mut cur, self);
        proof {
            use_type_invariant(&cur);
        }
        let ghost before = cur;
        let Globals { bound, advertised } = cur;
        let mut advertised = advertised;
        advertised.push((name, interface, version));
        let g = Globals { bound, advertised };
        proof {
            assert(g.advertised_view() =~= before.advertised_view().push((name, interface@, version)));
            assert(g.bound_view() =~= before.bound_view());
        }
        *self = g;
    }
}

/// The objects alive on the connection, each with its interface, and the
/// ids the compositor deleted, which are handed out again before fresh
/// ones.
#[derive(Debug)]
pub struct Objects {
    next_id: u32,
    live: HashMap<u32, &'static str>,
    deleted: HashSet<u32>,
}

impl Objects {
    /// The live objects and their interfaces, by id.
    pub closed spec fn live_view(&self) -> Map<u32, &'static str> {
        self.live@
    }

    /// The deleted ids, free for reuse.
    pub closed spec fn deleted_view(&self) -> Set<u32> {
        self.deleted@
    }

    /// The id handed out when none is free for reuse.
    pub closed spec fn next_view(&self) -> u32 {
        self.next_id
    }

    /// Only the display is alive, as object 1; fresh ids start at 2.
    pub fn new() -> (o: Self)
        ensures
            o.live_view() == map![1u32 => "wl_display"],
            o.deleted_view() == Set::<u32>::empty(),
            o.next_view() == 2,
    {
        broadcast use vstd::std_specs::hash::group_hash_axioms;
        let mut live: HashMap<u32, &'static str> = HashMap::new();
        live.insert(1, "wl_display");
        let o = Objects { next_id: 2, live, deleted: HashSet::new() };
        proof {
            assert(o.live_view() =~= map![1u32 => "wl_display"]);
        }
        o
    }

    /// Whether an id can be handed out: one is free for reuse, or the
    /// fresh ids are not used up.
    pub fn can_alloc(&self) -> (r: bool)
        ensures
            r == (!self.deleted_view().is_empty() || self.next_view() < u32::MAX),
    {
        !self.deleted.is_empty() || self.next_id < u32::MAX
    }

    /// An id for a new object: a deleted one if there is one, else the
    /// next fresh one. Which deleted id is reused is the first the set
    /// yields, which depends on its hashing and is not fixed.
    pub fn alloc_id(&mut self) -> (id: ObjectId)
        requires
            !old(self).deleted_view().is_empty() || old(self).next_view() < u32::MAX,
        ensures
            final(self).live_view() == old(self).live_view(),
            !old(self).deleted_view().is_empty() ==> {
                &&& old(self).deleted_view().contains(id.0)
                &&& final(self).deleted_view() == old(self).deleted_view().remove(id.0)
                &&& final(self).next_view() == old(self).next_view()
            },
            old(self).deleted_view().is_empty() ==> {
                &&& id.0 == old(self).next_view()
                &&& final(self).next_view() == old(self).next_view() + 1
                &&& final(self).deleted_view() == old(self).deleted_view()
            },
    {
        broadcast use vstd::std_specs::hash::group_hash_axioms;
        if self.deleted.is_empty() {
            let id = self.next_id;
            self.next_id = self.next_id + 1;
            return ObjectId(id);
        }
        let mut first: Option<u32> = None;
        let ids = self.deleted.iter();
        proof {
            assert forall|j: int| 0 <= j < IteratorSpec::remaining(&ids).len() implies self.deleted@.contains(*#[trigger] IteratorSpec::remaining(&ids)[j]) by {
                assert(IteratorSpec::remaining(&ids).unref()[j] == *IteratorSpec::remaining(&ids)[j]);
                assert(IteratorSpec::remaining(&ids).unref().contains(*IteratorSpec::remaining(&ids)[j]));
                assert(IteratorSpec::remaining(&ids).unref().to_set().contains(*IteratorSpec::remaining(&ids)[j]));
            }
            let x = self.deleted@.choose();
            assert(self.deleted@.contains(x));
            assert(IteratorSpec::remaining(&ids).unref().to_set().contains(x));
            assert(IteratorSpec::remaining(&ids).len() > 0);
        }
        for k in it: ids
            invariant
                forall|j: int| 0 <= j < it.seq().len() ==> self.deleted@.contains(*#[trigger] it.seq()[j]),
                it.seq().len() > 0,
                first matches Some(x) ==> self.deleted@.contains(x),
                it.index() > 0 ==> first is Some,
        {
            assert(self.deleted@.contains(*k));
            if first.is_none() {
                first = Some(*k);
            }
        }
        let d = first.unwrap();
        self.deleted.remove(&d);
        ObjectId(d)
    }

    /// `id` is alive from now on, with `interface`.
    pub fn register(&mut self, id: ObjectId, interface: &'static str)
        ensures
            final(self).live_view() == old(self).live_view().insert(id.0, interface),
            final(self).deleted_view() == old(self).deleted_view(),
            final(self).next_view() == old(self).next_view(),
    {
        broadcast use vstd::std_specs::hash::group_hash_axioms;
        self.live.insert(id.0, interface);
    }

    /// The compositor deleted `id`: it is dead, and free for reuse.
    pub fn invalidate(&mut self, id: ObjectId)
        ensures
            final(self).live_view() == old(self).live_view().remove(id.0),
            final(self).deleted_view() == old(self).deleted_view().insert(id.0),
            final(self).next_view() == old(self).next_view(),
    {
        broadcast use vstd::std_specs::hash::group_hash_axioms;
        self.live.remove(&id.0);
        self.deleted.insert(id.0);
    }

    /// The interface of `id`, while it is alive.
    pub fn interface_of(&self, id: ObjectId) -> (r: Option<&'static str>)
        ensures
            r == (if self.live_view().contains_key(id.0) { Some(self.live_view()[id.0]) } else { None }),
    {
        broadcast use vstd::std_specs::hash::group_hash_axioms;
        match self.live.get(&id.0) {
            Some(i) => Some(*i),
            None => None,
        }
    }

    /// Whether `id` is alive.
    pub fn is_live(&self, id: ObjectId) -> (r: bool)
        ensures
            r == self.live_view().contains_key(id.0),
    {
        broadcast use vstd::std_specs::hash::group_hash_axioms;
        self.live.contains_key(&id.0)
    }
}

/// What a completion on the socket turned out to be.
#[derive(Debug, Clone, Copy, PartialEq, Eq, Structural)]
pub enum Completion {
    /// The outstanding read: its bytes are to be handed to `received`.
    Read,
    /// The outstanding send: its bytes are gone.
    Write,
    /// Some other submission's.
    NotOurs,
}

/// The bytes of the connection: requests buffered to send, the send in
/// flight, what was read but is not a whole message yet, and which
/// submissions are outstanding.
#[derive(Debug)]
pub struct Wire {
    outbox: Vec<u8>,
    in_flight: Vec<u8>,
    inbox: Vec<u8>,
    read_token: Option<Token>,
    write_token: Option<Token>,
}

impl Wire {
    /// Requests written and not handed to the socket yet.
    pub closed spec fn outbox_view(&self) -> Seq<u8> {
        self.outbox@
    }

    /// The bytes of the send in flight, or staged for one.
    pub closed spec fn in_flight_view(&self) -> Seq<u8> {
        self.in_flight@
    }

    /// Bytes read that are not a whole message yet.
    pub closed spec fn inbox_view(&self) -> Seq<u8> {
        self.inbox@
    }

    pub closed spec fn read_token_view(&self) -> Option<Token> {
        self.read_token
    }

    pub closed spec fn write_token_view(&self) -> Option<Token> {
        self.write_token
    }

    /// Nothing buffered, read or in flight.
    pub fn new() -> (w: Self)
        ensures
            w.outbox_view().len() == 0,
            w.in_flight_view().len() == 0,
            w.inbox_view().len() == 0,
            w.read_token_view() is None,
            w.write_token_view() is None,
    {
        Wire { outbox: Vec::new(), in_flight: Vec::new(), inbox: Vec::new(), read_token: None, write_token: None }
    }

    /// Buffer one request: the sender, its size and opcode, its body.
    /// Nothing is sent here; a flush sends it.
    pub fn write(&mut self, sender_id: u32, opcode: u16, body: &[u8])
        requires
            body@.len() + 8 <= usize::MAX,
        ensures
            final(self).outbox_view() == old(self).outbox_view() + encoded_message(sender_id, opcode, body@),
            final(self).in_flight_view() == old(self).in_flight_view(),
            final(self).inbox_view() == old(self).inbox_view(),
            final(self).read_token_view() == old(self).read_token_view(),
            final(self).write_token_view() == old(self).write_token_view(),
    {
        encode_message(&mut self.outbox, sender_id, opcode, body);
    }

    /// Stage what is buffered as the next send, unless a send is in flight
    /// or nothing is buffered. Returns whether a send is to be submitted:
    /// the bytes staged, in the order they were written. One send at a time
    /// keeps the bytes and the descriptors that go with them together.
    pub fn flush(&mut self) -> (send: bool)
        ensures
            send == (old(self).write_token_view() is None && old(self).outbox_view().len() > 0),
            send ==> final(self).in_flight_view() == old(self).outbox_view() && final(self).outbox_view().len() == 0,
            !send ==> final(self).in_flight_view() == old(self).in_flight_view()
                && final(self).outbox_view() == old(self).outbox_view(),
            final(self).inbox_view() == old(self).inbox_view(),
            final(self).read_token_view() == old(self).read_token_view(),
            final(self).write_token_view() == old(self).write_token_view(),
    {
        if self.write_token.is_some() || self.outbox.len() == 0 {
            return false;
        }
        std::mem::swap(&mut self.in_flight, &mut self.outbox);
        self.outbox = Vec::new();
        true
    }

    /// The bytes of the staged or in-flight send.
    pub fn in_flight(&self) -> (r: &[u8])
        ensures
            r@ == self.in_flight_view(),
    {
        self.in_flight.as_slice()
    }

    /// The staged send was submitted under `token`.
    pub fn write_submitted(&mut self, token: Token)
        ensures
            final(self).write_token_view() == Some(token),
            final(self).read_token_view() == old(self).read_token_view(),
            final(self).outbox_view() == old(self).outbox_view(),
            final(self).in_flight_view() == old(self).in_flight_view(),
            final(self).inbox_view() == old(self).inbox_view(),
    {
        self.write_token = Some(token);
    }

    /// Whether a read is to be armed: none is outstanding.
    pub fn wants_read(&self) -> (r: bool)
        ensures
            r == (self.read_token_view() is None),
    {
        self.read_token.is_none()
    }

    /// A read was submitted under `token`.
    pub fn read_submitted(&mut self, token: Token)
        ensures
            final(self).read_token_view() == Some(token),
            final(self).write_token_view() == old(self).write_token_view(),
            final(self).outbox_view() == old(self).outbox_view(),
            final(self).in_flight_view() == old(self).in_flight_view(),
            final(self).inbox_view() == old(self).inbox_view(),
    {
        self.read_token = Some(token);
    }

    /// A completion under `token`. The outstanding read's is a read, whose
    /// bytes go to `received`; the outstanding send's clears the bytes that
    /// were in flight. Either way that submission is no longer outstanding.
    pub fn complete(&mut self, token: Token) -> (c: Completion)
        ensures
            old(self).read_token_view() == Some(token) ==> c == Completion::Read
                && final(self).read_token_view() is None
                && final(self).write_token_view() == old(self).write_token_view()
                && final(self).in_flight_view() == old(self).in_flight_view(),
            old(self).read_token_view() != Some(token) && old(self).write_token_view() == Some(token) ==> c == Completion::Write
                && final(self).write_token_view() is None
                && final(self).read_token_view() == old(self).read_token_view()
                && final(self).in_flight_view().len() == 0,
            old(self).read_token_view() != Some(token) && old(self).write_token_view() != Some(token) ==> c == Completion::NotOurs
                && final(self).write_token_view() == old(self).write_token_view()
                && final(self).read_token_view() == old(self).read_token_view()
                && final(self).in_flight_view() == old(self).in_flight_view(),
            final(self).outbox_view() == old(self).outbox_view(),
            final(self).inbox_view() == old(self).inbox_view(),
    {
        if self.read_token == Some(token) {
            self.read_token = None;
            Completion::Read
        } else if self.write_token == Some(token) {
            self.write_token = None;
            self.in_flight = Vec::new();
            Completion::Write
        } else {
            Completion::NotOurs
        }
    }

    /// Bytes read: joined to what was left of the last read, split into the
    /// whole messages, which are returned, and a tail kept for the next
    /// read. `None`, with nothing changed, when a header among them gives a
    /// size smaller than a header: the stream is malformed.
    pub fn received(&mut self, bytes: &[u8]) -> (r: Option<Vec<RawWaylandEvent>>)
        ensures
            r is Some <==> well_framed(old(self).inbox_view() + bytes@, 0),
            r matches Some(events) ==> {
                let all = old(self).inbox_view() + bytes@;
                &&& events@.map_values(|e: RawWaylandEvent| e.spec_view()) == messages(all, 0)
                &&& final(self).inbox_view() == all.subrange(tail_start(all, 0), all.len() as int)
            },
            r is None ==> final(self).inbox_view() == old(self).inbox_view(),
            final(self).outbox_view() == old(self).outbox_view(),
            final(self).in_flight_view() == old(self).in_flight_view(),
            final(self).read_token_view() == old(self).read_token_view(),
            final(self).write_token_view() == old(self).write_token_view(),
    {
        let kept = self.inbox.len();
        let mut chunk: Vec<u8> = Vec::new();
        std::mem::swap(&mut chunk, &mut self.inbox);
        let ghost before = chunk@;
        let mut i: usize = 0;
        while i < bytes.len()
            invariant
                i <= bytes@.len(),
                chunk@ == before + bytes@.subrange(0, i as int),
            decreases bytes@.len() - i,
        {
            chunk.push(bytes[i]);
            proof {
                assert(bytes@.subrange(0, i + 1) =~= bytes@.subrange(0, i as int).push(bytes@[i as int]));
            }
            i += 1;
        }
        proof {
            assert(bytes@.subrange(0, bytes@.len() as int) =~= bytes@);
        }
        if !crate::wire::framing_ok(&chunk) {
            self.inbox = copy_range(&chunk, 0, kept);
            proof {
                assert(self.inbox@ =~= before);
            }
            return None;
        }
        let (events, rest) = parse_messages(chunk);
        self.inbox = rest;
        Some(events)
    }
}

/// Connects, binds every advertised global this client knows into
/// [`Globals`], and turns the socket's reads into one signal per message.
#[derive(Debug, Clone, Copy, PartialEq, Eq, Structural)]
pub struct WaylandModule;

} // verus!
