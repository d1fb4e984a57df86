//! The arguments inside a message body.
//!
//! A message's signature lists the type of each argument; its body holds
//! them one after another. Words are in the host's byte order; strings and
//! arrays carry a length word and are padded to a multiple of four; a file
//! descriptor travels beside the bytes and takes none of them. Reading stops
//! at the first argument the body does not hold, or that the connection
//! does not accept: an object it does not know, a value outside its enum,
//! a descriptor that did not arrive.

use vstd::prelude::*;
use vstd::utf8::encode_utf8;
use crate::wayland::Objects;
use crate::wire::{
    encode_string, encoded_message, encoded_string, ObjectId, lemma_message_round_trip, lemma_pad_u64,
    lemma_string_round_trip, lemma_word_bytes, messages, padded, push_word, read_string, read_u32,
    string_at, tail_start, well_framed, word_at, word_bytes,
};

verus! {

/// The type of one argument, as a signature lists it.
#[derive(Debug, Clone, Copy, PartialEq, Eq, Structural)]
pub enum ArgKind {
    Int,
    Uint,
    /// A signed 24.8 fixed-point number.
    Fixed,
    /// A value of an enum: one of the values in the table at this index
    /// of the enums a body is read against.
    Enum(usize),
    /// A set of flags: the bits of the value that the mask names.
    Bitfield(u32),
    Str,
    /// A string that may be null.
    OptStr,
    /// An object of an interface the signature names: one the connection
    /// knows.
    Object,
    /// An object of a named interface that may be null.
    OptObject,
    /// An object of any interface, taken as it is.
    AnyObject,
    /// An object of any interface that may be null.
    OptAnyObject,
    /// A new object of an interface the signature names.
    NewId,
    /// A new object of an interface the message names: the id, the
    /// interface's name and its version, in that order.
    AnyNewId,
    Array,
    /// A file descriptor, passed beside the bytes.
    Fd,
}

/// The value of one argument.
#[derive(Debug, Clone, PartialEq)]
pub enum Arg {
    Int(i32),
    Uint(u32),
    /// The 32 raw bits of a 24.8 fixed-point number.
    Fixed(i32),
    Str(String),
    OptStr(Option<String>),
    Object(u32),
    OptObject(Option<u32>),
    NewId(u32),
    AnyNewId(u32, String, u32),
    Array(Vec<u8>),
    /// The place of a file descriptor; the descriptor itself is handed over
    /// apart from the body.
    Fd,
}

/// An argument's value as plain data.
pub enum ArgValue {
    Int(i32),
    Uint(u32),
    Fixed(i32),
    Str(Seq<char>),
    OptStr(Option<Seq<char>>),
    Object(u32),
    OptObject(Option<u32>),
    NewId(u32),
    AnyNewId(u32, Seq<char>, u32),
    Array(Seq<u8>),
    Fd,
}

impl View for Arg {
    type V = ArgValue;

    open spec fn view(&self) -> ArgValue {
        match self {
            Arg::Int(x) => ArgValue::Int(*x),
            Arg::Uint(x) => ArgValue::Uint(*x),
            Arg::Fixed(x) => ArgValue::Fixed(*x),
            Arg::Str(s) => ArgValue::Str(s@),
            Arg::OptStr(s) => ArgValue::OptStr(
                match s {
                    Some(t) => Some(t@),
                    None => None,
                },
            ),
            Arg::Object(x) => ArgValue::Object(*x),
            Arg::OptObject(x) => ArgValue::OptObject(*x),
            Arg::NewId(x) => ArgValue::NewId(*x),
            Arg::AnyNewId(id, s, v) => ArgValue::AnyNewId(*id, s@, *v),
            Arg::Array(b) => ArgValue::Array(b@),
            Arg::Fd => ArgValue::Fd,
        }
    }
}

/// The values of a list of arguments.
pub open spec fn views(v: Seq<Arg>) -> Seq<ArgValue> {
    v.map_values(|a: Arg| a@)
}

/// The type a value has.
pub open spec fn kind_of(a: ArgValue) -> ArgKind {
    match a {
        ArgValue::Int(_) => ArgKind::Int,
        ArgValue::Uint(_) => ArgKind::Uint,
        ArgValue::Fixed(_) => ArgKind::Fixed,
        ArgValue::Str(_) => ArgKind::Str,
        ArgValue::OptStr(_) => ArgKind::OptStr,
        ArgValue::Object(_) => ArgKind::Object,
        ArgValue::OptObject(_) => ArgKind::OptObject,
        ArgValue::NewId(_) => ArgKind::NewId,
        ArgValue::AnyNewId(_, _, _) => ArgKind::AnyNewId,
        ArgValue::Array(_) => ArgKind::Array,
        ArgValue::Fd => ArgKind::Fd,
    }
}

/// The signature a list of values fits.
pub open spec fn kinds_of(v: Seq<ArgValue>) -> Seq<ArgKind> {
    v.map_values(|a: ArgValue| kind_of(a))
}

// ── reading ──────────────────────────────────────────────────────────────────

/// Whether an argument of this type is one word.
pub open spec fn is_word(kind: ArgKind) -> bool {
    match kind {
        ArgKind::Int | ArgKind::Uint | ArgKind::Fixed | ArgKind::Object | ArgKind::OptObject
        | ArgKind::AnyObject | ArgKind::OptAnyObject | ArgKind::Enum(_) | ArgKind::Bitfield(_)
        | ArgKind::NewId => true,
        _ => false,
    }
}

/// The value a word stands for as an argument of a one-word type. A null
/// object is the word zero.
pub open spec fn word_value(kind: ArgKind, w: u32) -> ArgValue {
    match kind {
        ArgKind::Int => ArgValue::Int(w as i32),
        ArgKind::Fixed => ArgValue::Fixed(w as i32),
        ArgKind::Object | ArgKind::AnyObject => ArgValue::Object(w),
        ArgKind::OptObject | ArgKind::OptAnyObject => ArgValue::OptObject(
            if w == 0 {
                None
            } else {
                Some(w)
            },
        ),
        ArgKind::NewId => ArgValue::NewId(w),
        ArgKind::Bitfield(mask) => ArgValue::Uint(w & mask),
        _ => ArgValue::Uint(w),
    }
}

/// The string that may be null at `off`: a length word of zero is null,
/// any other begins a string as [`string_at`] reads it. Also where reading
/// ends.
pub open spec fn opt_string_at(s: Seq<u8>, off: int) -> (Option<Option<Seq<char>>>, int) {
    if off + 4 > s.len() {
        (None, off)
    } else if word_at(s, off) == 0 {
        (Some(None), off + 4)
    } else {
        let r = string_at(s, off);
        (
            match r.0 {
                Some(t) => Some(Some(t)),
                None => None,
            },
            r.1,
        )
    }
}

/// The array at `off`: a length word, then that many bytes padded to a
/// multiple of four. `None` if the bytes run out. Also where reading ends.
pub open spec fn array_at(s: Seq<u8>, off: int) -> (Option<Seq<u8>>, int) {
    if off + 4 > s.len() {
        (None, off)
    } else {
        let n = word_at(s, off) as int;
        let o = off + 4;
        if o + padded(n) > s.len() {
            (None, o)
        } else {
            (Some(s.subrange(o, o + n)), o + padded(n))
        }
    }
}

/// The argument of type `kind` at `off`, and where reading ends.
pub open spec fn arg_at(kind: ArgKind, s: Seq<u8>, off: int) -> (Option<ArgValue>, int) {
    if is_word(kind) {
        if off + 4 > s.len() {
            (None, off)
        } else {
            (Some(word_value(kind, word_at(s, off))), off + 4)
        }
    } else {
        match kind {
            ArgKind::Str => {
                let r = string_at(s, off);
                (
                    match r.0 {
                        Some(t) => Some(ArgValue::Str(t)),
                        None => None,
                    },
                    r.1,
                )
            },
            ArgKind::OptStr => {
                let r = opt_string_at(s, off);
                (
                    match r.0 {
                        Some(t) => Some(ArgValue::OptStr(t)),
                        None => None,
                    },
                    r.1,
                )
            },
            ArgKind::AnyNewId => {
                if off + 4 > s.len() {
                    (None, off)
                } else {
                    let r = string_at(s, off + 4);
                    if r.0 is None {
                        (None, r.1)
                    } else if r.1 + 4 > s.len() {
                        (None, r.1)
                    } else {
                        (
                            Some(ArgValue::AnyNewId(word_at(s, off), r.0.unwrap(), word_at(s, r.1))),
                            r.1 + 4,
                        )
                    }
                }
            },
            ArgKind::Array => {
                let r = array_at(s, off);
                (
                    match r.0 {
                        Some(b) => Some(ArgValue::Array(b)),
                        None => None,
                    },
                    r.1,
                )
            },
            _ => (Some(ArgValue::Fd), off),
        }
    }
}

/// Whether the connection accepts `a`, read as an argument of type `kind`:
/// an object of a named interface is one it knows, an enum value is in its
/// table, and a descriptor is left to take.
pub open spec fn accepted(kind: ArgKind, a: ArgValue, enums: Seq<Seq<u32>>, known: Set<u32>, fds: nat) -> bool {
    match kind {
        ArgKind::Object => match a {
            ArgValue::Object(x) => known.contains(x),
            _ => true,
        },
        ArgKind::OptObject => match a {
            ArgValue::OptObject(Some(x)) => known.contains(x),
            _ => true,
        },
        ArgKind::Enum(t) => match a {
            ArgValue::Uint(v) => t < enums.len() && enums[t as int].contains(v),
            _ => true,
        },
        ArgKind::Fd => fds > 0,
        _ => true,
    }
}

/// The objects known after `a` was read: a new object of a named
/// interface is known from then on.
pub open spec fn known_after(known: Set<u32>, a: ArgValue) -> Set<u32> {
    match a {
        ArgValue::NewId(x) => known.insert(x),
        _ => known,
    }
}

/// The descriptors left after an argument of type `kind` was read.
pub open spec fn fds_after(fds: nat, kind: ArgKind) -> nat {
    if kind is Fd && fds > 0 {
        (fds - 1) as nat
    } else {
        fds
    }
}

/// The arguments from the `i`-th type of `kinds` on, read from `off`,
/// against the enum tables `enums`, the objects `known` and `fds`
/// descriptors left; `None` as soon as one is not there or not accepted.
pub open spec fn args_from(
    kinds: Seq<ArgKind>,
    i: int,
    s: Seq<u8>,
    off: int,
    enums: Seq<Seq<u32>>,
    known: Set<u32>,
    fds: nat,
) -> Option<Seq<ArgValue>>
    decreases kinds.len() - i,
{
    if i >= kinds.len() {
        Some(Seq::empty())
    } else {
        let r = arg_at(kinds[i], s, off);
        match r.0 {
            None => None,
            Some(a) => if !accepted(kinds[i], a, enums, known, fds) {
                None
            } else {
                match args_from(kinds, i + 1, s, r.1, enums, known_after(known, a), fds_after(fds, kinds[i])) {
                    Some(rest) => Some(seq![a] + rest),
                    None => None,
                }
            },
        }
    }
}

/// A body read against a signature, from its first byte, with the enum
/// tables `enums`, the objects `known` and `fds` descriptors to take. Bytes
/// left after the last argument are not looked at.
pub open spec fn decoded(kinds: Seq<ArgKind>, s: Seq<u8>, enums: Seq<Seq<u32>>, known: Set<u32>, fds: nat) -> Option<
    Seq<ArgValue>,
> {
    args_from(kinds, 0, s, 0, enums, known, fds)
}

proof fn lemma_arg_at_stays_inside(kind: ArgKind, s: Seq<u8>, off: int)
    requires
        0 <= off <= s.len(),
    ensures
        off <= arg_at(kind, s, off).1 <= s.len(),
{
    if kind == ArgKind::Array && off + 4 <= s.len() {
        let n = word_at(s, off) as int;
        assert(padded(n) >= 0);
    }
}

/// The string that may be null at `*offset`, advancing past what was read.
/// See [`opt_string_at`].
pub fn read_optional_string(data: &[u8], offset: &mut usize) -> (r: Option<Option<String>>)
    requires
        *old(offset) + 4 <= usize::MAX,
    ensures
        (
            match r {
                Some(Some(s)) => Some(Some(s@)),
                Some(None) => Some(None),
                None => None,
            },
            *final(offset) as int,
        ) == opt_string_at(data@, *old(offset) as int),
{
    let start = *offset;
    match read_u32(data, offset) {
        None => None,
        Some(0) => Some(None),
        Some(_) => {
            *offset = start;
            match read_string(data, offset) {
                Some(s) => Some(Some(s)),
                None => None,
            }
        },
    }
}

/// The array at `*offset`, advancing past what was read. See
/// [`array_at`].
pub fn read_array(data: &[u8], offset: &mut usize) -> (r: Option<Vec<u8>>)
    requires
        *old(offset) + 4 <= usize::MAX,
    ensures
        (
            match r {
                Some(b) => Some(b@),
                None => None,
            },
            *final(offset) as int,
        ) == array_at(data@, *old(offset) as int),
{
    let len = match read_u32(data, offset) {
        Some(len) => len,
        None => return None,
    };
    let n = data.len();
    let len64 = len as u64;
    let padded64 = (len64 + 3) & !3u64;
    proof {
        lemma_pad_u64(len64);
    }
    if padded64 > (n - *offset) as u64 {
        return None;
    }
    let padded = padded64 as usize;
    let raw = vstd::slice::slice_subrange(data, *offset, *offset + len as usize);
    *offset += padded;
    Some(vstd::slice::slice_to_vec(raw))
}

/// The argument of type `kind` at `*offset`, advancing past what was read:
/// the bytes only; whether the connection accepts it is
/// [`decode_args`]'s to check. See [`arg_at`].
pub fn read_arg(kind: ArgKind, data: &[u8], offset: &mut usize) -> (r: Option<Arg>)
    requires
        *old(offset) <= data@.len(),
        data@.len() + 4 <= usize::MAX,
    ensures
        (
            match r {
                Some(a) => Some(a@),
                None => None,
            },
            *final(offset) as int,
        ) == arg_at(kind, data@, *old(offset) as int),
        *final(offset) <= data@.len(),
{
    proof {
        lemma_arg_at_stays_inside(kind, data@, *old(offset) as int);
    }
    match kind {
        ArgKind::Int => match read_u32(data, offset) {
            Some(w) => Some(Arg::Int(w as i32)),
            None => None,
        },
        ArgKind::Uint => match read_u32(data, offset) {
            Some(w) => Some(Arg::Uint(w)),
            None => None,
        },
        ArgKind::Fixed => match read_u32(data, offset) {
            Some(w) => Some(Arg::Fixed(w as i32)),
            None => None,
        },
        ArgKind::Object | ArgKind::AnyObject => match read_u32(data, offset) {
            Some(w) => Some(Arg::Object(w)),
            None => None,
        },
        ArgKind::Enum(_) => match read_u32(data, offset) {
            Some(w) => Some(Arg::Uint(w)),
            None => None,
        },
        ArgKind::Bitfield(mask) => match read_u32(data, offset) {
            Some(w) => Some(Arg::Uint(w & mask)),
            None => None,
        },
        ArgKind::OptObject | ArgKind::OptAnyObject => match read_u32(data, offset) {
            Some(w) => Some(
                Arg::OptObject(
                    if w == 0 {
                        None
                    } else {
                        Some(w)
                    },
                ),
            ),
            None => None,
        },
        ArgKind::NewId => match read_u32(data, offset) {
            Some(w) => Some(Arg::NewId(w)),
            None => None,
        },
        ArgKind::Str => match read_string(data, offset) {
            Some(s) => Some(Arg::Str(s)),
            None => None,
        },
        ArgKind::OptStr => match read_optional_string(data, offset) {
            Some(s) => Some(Arg::OptStr(s)),
            None => None,
        },
        ArgKind::AnyNewId => {
            let id = match read_u32(data, offset) {
                Some(w) => w,
                None => return None,
            };
            let name = match read_string(data, offset) {
                Some(s) => s,
                None => return None,
            };
            match read_u32(data, offset) {
                Some(version) => Some(Arg::AnyNewId(id, name, version)),
                None => None,
            }
        },
        ArgKind::Array => match read_array(data, offset) {
            Some(b) => Some(Arg::Array(b)),
            None => None,
        },
        ArgKind::Fd => Some(Arg::Fd),
    }
}

/// `pre` followed by what `rest` holds, if it holds anything.
pub open spec fn after(pre: Seq<ArgValue>, rest: Option<Seq<ArgValue>>) -> Option<Seq<ArgValue>> {
    match rest {
        Some(r) => Some(pre + r),
        None => None,
    }
}

/// Whether `x` is a known object: live on the connection, or made new
/// earlier in the same body.
fn is_known(objects: &Objects, made: &Vec<u32>, x: u32) -> (r: bool)
    ensures
        r == (objects.live_view().dom().contains(x) || made@.contains(x)),
{
    if objects.is_live(ObjectId(x)) {
        return true;
    }
    let mut k: usize = 0;
    while k < made.len()
        invariant
            k <= made@.len(),
            forall|j: int| 0 <= j < k ==> made@[j] != x,
        decreases made@.len() - k,
    {
        if made[k] == x {
            return true;
        }
        k += 1;
    }
    false
}

/// Whether `v` is in the enum table at `t`.
fn in_enum(enums: &Vec<Vec<u32>>, t: usize, v: u32) -> (r: bool)
    ensures
        r == (t < enums@.len() && enums@[t as int]@.contains(v)),
{
    if t >= enums.len() {
        return false;
    }
    let table = &enums[t];
    let mut k: usize = 0;
    while k < table.len()
        invariant
            k <= table@.len(),
            t < enums@.len(),
            *table == enums@[t as int],
            forall|j: int| 0 <= j < k ==> table@[j] != v,
        decreases table@.len() - k,
    {
        if table[k] == v {
            proof {
                assert(table@[k as int] == v);
            }
            return true;
        }
        k += 1;
    }
    false
}

/// The enum tables as plain values.
pub open spec fn tables(enums: Seq<Vec<u32>>) -> Seq<Seq<u32>> {
    enums.map_values(|e: Vec<u32>| e@)
}

/// Read a body against a signature: the arguments in order, or `None` as
/// soon as one of them is not there or the connection does not accept it.
/// `enums` are the enum tables the signature's enums index, `objects` the
/// connection's objects, and `fds` how many descriptors arrived with the
/// body. See [`decoded`].
pub fn decode_args(kinds: &[ArgKind], data: &[u8], enums: &Vec<Vec<u32>>, objects: &Objects, fds: usize) -> (r: Option<Vec<Arg>>)
    requires
        data@.len() + 4 <= usize::MAX,
    ensures
        r is Some <==> decoded(kinds@, data@, tables(enums@), objects.live_view().dom(), fds as nat) is Some,
        r matches Some(v) ==> views(v@) == decoded(kinds@, data@, tables(enums@), objects.live_view().dom(), fds as nat).unwrap(),
{
    let ghost e = tables(enums@);
    let ghost d = decoded(kinds@, data@, e, objects.live_view().dom(), fds as nat);
    let mut out: Vec<Arg> = Vec::new();
    let mut offset: usize = 0;
    let mut i: usize = 0;
    let mut made: Vec<u32> = Vec::new();
    let mut left: usize = fds;
    let ghost mut known = objects.live_view().dom();
    proof {
        assert(views(out@) =~= Seq::<ArgValue>::empty());
        if d is Some {
            assert(views(out@) + d.unwrap() =~= d.unwrap());
        }
    }
    while i < kinds.len()
        invariant
            i <= kinds@.len(),
            offset <= data@.len(),
            data@.len() + 4 <= usize::MAX,
            e == tables(enums@),
            d == decoded(kinds@, data@, e, objects.live_view().dom(), fds as nat),
            forall|x: u32| #[trigger] known.contains(x) <==> objects.live_view().dom().contains(x) || made@.contains(x),
            d == after(views(out@), args_from(kinds@, i as int, data@, offset as int, e, known, left as nat)),
        decreases kinds@.len() - i,
    {
        let kind = kinds[i];
        let a = match read_arg(kind, data, &mut offset) {
            Some(a) => a,
            None => return None,
        };
        let ok = match (&a, kind) {
            (Arg::Object(x), ArgKind::Object) => is_known(objects, &made, *x),
            (Arg::OptObject(Some(x)), ArgKind::OptObject) => is_known(objects, &made, *x),
            (Arg::Uint(v), ArgKind::Enum(t)) => in_enum(enums, t, *v),
            (_, ArgKind::Fd) => left > 0,
            _ => true,
        };
        proof {
            match kind {
                ArgKind::Enum(t) => {
                    if t < enums@.len() {
                        assert(e[t as int] == enums@[t as int]@);
                    }
                },
                _ => {},
            }
        }
        if !ok {
            return None;
        }
        let ghost old_made = made@;
        if let Arg::NewId(x) = &a {
            made.push(*x);
        }
        if let ArgKind::Fd = kind {
            left = left - 1;
        }
        let ghost pre = views(out@);
        let ghost old_known = known;
        proof {
            known = known_after(known, a@);
            assert forall|x: u32| #[trigger] known.contains(x) <==> objects.live_view().dom().contains(x) || made@.contains(x) by {
                match a@ {
                    ArgValue::NewId(y) => {
                        assert(made@ == old_made.push(y));
                        if made@.contains(x) {
                            let j = choose|j: int| 0 <= j < made@.len() && made@[j] == x;
                            if j < old_made.len() {
                                assert(old_made[j] == x);
                            }
                        }
                        if old_made.contains(x) {
                            let j = choose|j: int| 0 <= j < old_made.len() && old_made[j] == x;
                            assert(made@[j] == x);
                        }
                        assert(made@[old_made.len() as int] == y);
                    },
                    _ => {
                        assert(made@ == old_made);
                    },
                }
            }
        }
        out.push(a);
        proof {
            assert(views(out@) =~= pre.push(a@));
            let rest = args_from(kinds@, i + 1, data@, offset as int, e, known, left as nat);
            if rest is Some {
                assert(pre + (seq![a@] + rest.unwrap()) =~= pre.push(a@) + rest.unwrap());
            }
        }
        i += 1;
    }
    proof {
        assert(views(out@) + Seq::<ArgValue>::empty() =~= views(out@));
    }
    Some(out)
}

// ── writing ──────────────────────────────────────────────────────────────────

/// `n` zero bytes.
pub open spec fn zeros(n: int) -> Seq<u8> {
    Seq::new(n as nat, |i: int| 0u8)
}

/// The bytes an array is written as: its length, its bytes, and zeros up
/// to a multiple of four.
pub open spec fn encoded_array(b: Seq<u8>) -> Seq<u8> {
    word_bytes(b.len() as u32) + b + zeros(padded(b.len() as int) - b.len())
}

/// The bytes an argument is written as. A null string or object is the
/// word zero; a file descriptor adds no bytes.
pub open spec fn encoded_arg(a: ArgValue) -> Seq<u8> {
    match a {
        ArgValue::Int(x) => word_bytes(x as u32),
        ArgValue::Uint(x) => word_bytes(x),
        ArgValue::Fixed(x) => word_bytes(x as u32),
        ArgValue::Str(t) => encoded_string(t),
        ArgValue::OptStr(t) => match t {
            Some(t) => encoded_string(t),
            None => word_bytes(0),
        },
        ArgValue::Object(x) => word_bytes(x),
        ArgValue::OptObject(x) => match x {
            Some(x) => word_bytes(x),
            None => word_bytes(0),
        },
        ArgValue::NewId(x) => word_bytes(x),
        ArgValue::AnyNewId(id, t, v) => word_bytes(id) + encoded_string(t) + word_bytes(v),
        ArgValue::Array(b) => encoded_array(b),
        ArgValue::Fd => Seq::empty(),
    }
}

/// The bytes a list of arguments is written as, one after another.
pub open spec fn encoded_args(v: Seq<ArgValue>) -> Seq<u8>
    decreases v.len(),
{
    if v.len() == 0 {
        Seq::empty()
    } else {
        encoded_args(v.drop_last()) + encoded_arg(v.last())
    }
}

/// Whether an argument's bytes can be counted in this machine's `usize`.
pub open spec fn writable(a: ArgValue) -> bool {
    match a {
        ArgValue::Str(t) => encode_utf8(t).len() + 4 <= usize::MAX,
        ArgValue::OptStr(t) => match t {
            Some(t) => encode_utf8(t).len() + 4 <= usize::MAX,
            None => true,
        },
        ArgValue::AnyNewId(_, t, _) => encode_utf8(t).len() + 4 <= usize::MAX,
        ArgValue::Array(b) => b.len() + 4 <= usize::MAX,
        _ => true,
    }
}

/// Append an array as the protocol writes one. The length word is kept to
/// 32 bits.
pub fn encode_array(buf: &mut Vec<u8>, b: &[u8])
    requires
        b@.len() + 4 <= usize::MAX,
    ensures
        final(buf)@ == old(buf)@ + encoded_array(b@),
{
    let n = b.len();
    let n64 = n as u64;
    let padded64 = (n64 + 3) & !3u64;
    proof {
        lemma_pad_u64(n64);
    }
    let padded = padded64 as usize;
    push_word(buf, n as u32);
    let ghost mid = buf@;
    let mut i: usize = 0;
    while i < n
        invariant
            n == b@.len(),
            i <= n,
            buf@ == mid + b@.subrange(0, i as int),
        decreases n - i,
    {
        buf.push(b[i]);
        proof {
            assert(b@.subrange(0, i + 1) =~= b@.subrange(0, i as int).push(b@[i as int]));
        }
        i += 1;
    }
    let ghost mid2 = buf@;
    let mut j: usize = n;
    while j < padded
        invariant
            n <= j <= padded,
            buf@ == mid2 + zeros(j - n),
        decreases padded - j,
    {
        buf.push(0);
        proof {
            assert(zeros(j + 1 - n) =~= zeros(j - n).push(0u8));
        }
        j += 1;
    }
    proof {
        assert(b@.subrange(0, n as int) =~= b@);
        assert(final(buf)@ =~= old(buf)@ + encoded_array(b@));
    }
}

/// Append one argument as the protocol writes it. See [`encoded_arg`].
pub fn encode_arg(buf: &mut Vec<u8>, a: &Arg)
    requires
        writable(a@),
    ensures
        final(buf)@ == old(buf)@ + encoded_arg(a@),
{
    match a {
        Arg::Int(x) => push_word(buf, *x as u32),
        Arg::Uint(x) => push_word(buf, *x),
        Arg::Fixed(x) => push_word(buf, *x as u32),
        Arg::Str(s) => encode_string(buf, s.as_str()),
        Arg::OptStr(s) => match s {
            Some(s) => encode_string(buf, s.as_str()),
            None => push_word(buf, 0),
        },
        Arg::Object(x) => push_word(buf, *x),
        Arg::OptObject(x) => match x {
            Some(x) => push_word(buf, *x),
            None => push_word(buf, 0),
        },
        Arg::NewId(x) => push_word(buf, *x),
        Arg::AnyNewId(id, s, v) => {
            push_word(buf, *id);
            encode_string(buf, s.as_str());
            push_word(buf, *v);
            proof {
                assert(final(buf)@ =~= old(buf)@ + encoded_arg(a@));
            }
        },
        Arg::Array(b) => encode_array(buf, b.as_slice()),
        Arg::Fd => {
            proof {
                assert(final(buf)@ =~= old(buf)@ + encoded_arg(a@));
            }
        },
    }
}

/// Append a list of arguments, one after another. See [`encoded_args`].
pub fn encode_args(buf: &mut Vec<u8>, args: &[Arg])
    requires
        forall|i: int| 0 <= i < args@.len() ==> writable(#[trigger] args@[i]@),
    ensures
        final(buf)@ == old(buf)@ + encoded_args(views(args@)),
{
    let ghost start = buf@;
    let mut i: usize = 0;
    proof {
        assert(views(args@).take(0) =~= Seq::<ArgValue>::empty());
        assert(start + Seq::<u8>::empty() =~= start);
    }
    while i < args.len()
        invariant
            i <= args@.len(),
            forall|k: int| 0 <= k < args@.len() ==> writable(#[trigger] args@[k]@),
            buf@ == start + encoded_args(views(args@).take(i as int)),
        decreases args@.len() - i,
    {
        encode_arg(buf, &args[i]);
        proof {
            let vs = views(args@);
            assert(vs.take(i + 1).drop_last() =~= vs.take(i as int));
            assert(vs.take(i + 1).last() == args@[i as int]@);
            assert(buf@ =~= start + encoded_args(vs.take(i + 1)));
        }
        i += 1;
    }
    proof {
        assert(views(args@).take(args@.len() as int) =~= views(args@));
    }
}

// ── what is written reads back ───────────────────────────────────────────────

/// Whether an argument reads back as itself: its lengths fit the length
/// word, and a present object that may be null is not the id zero, which
/// is written the same as null.
pub open spec fn reads_back(a: ArgValue) -> bool {
    match a {
        ArgValue::Str(t) => encode_utf8(t).len() + 1 <= u32::MAX,
        ArgValue::OptStr(t) => match t {
            Some(t) => encode_utf8(t).len() + 1 <= u32::MAX,
            None => true,
        },
        ArgValue::AnyNewId(_, t, _) => encode_utf8(t).len() + 1 <= u32::MAX,
        ArgValue::Array(b) => b.len() <= u32::MAX,
        ArgValue::OptObject(x) => match x {
            Some(x) => x != 0,
            None => true,
        },
        _ => true,
    }
}

proof fn lemma_word_round_trip(pre: Seq<u8>, w: u32, post: Seq<u8>)
    ensures
        word_bytes(w).len() == 4,
        (pre + word_bytes(w) + post).len() >= pre.len() + 4,
        word_at(pre + word_bytes(w) + post, pre.len() as int) == w,
{
    lemma_word_bytes(w);
    let all = pre + word_bytes(w) + post;
    assert(all.subrange(pre.len() as int, pre.len() + 4int) =~= word_bytes(w));
}

/// One argument, written between any bytes, reads back as itself with its
/// own type, and reading ends right after it.
pub proof fn lemma_arg_round_trip(pre: Seq<u8>, a: ArgValue, post: Seq<u8>)
    requires
        reads_back(a),
    ensures
        arg_at(kind_of(a), pre + encoded_arg(a) + post, pre.len() as int) == (
            Some(a),
            (pre.len() + encoded_arg(a).len()) as int,
        ),
{
    let off = pre.len() as int;
    let all = pre + encoded_arg(a) + post;
    match a {
        ArgValue::Int(x) => {
            let w = #[verifier::truncate] (x as u32);
            lemma_word_round_trip(pre, w, post);
            assert(w as i32 == x) by (bit_vector)
                requires
                    w == #[verifier::truncate] (x as u32),
            ;
            assert(encoded_arg(a) == word_bytes(w));
            assert(word_at(all, off) == w);
            assert(word_value(kind_of(a), w) == a);
        },
        ArgValue::Fixed(x) => {
            let w = #[verifier::truncate] (x as u32);
            lemma_word_round_trip(pre, w, post);
            assert(w as i32 == x) by (bit_vector)
                requires
                    w == #[verifier::truncate] (x as u32),
            ;
            assert(encoded_arg(a) == word_bytes(w));
            assert(word_at(all, off) == w);
            assert(word_value(kind_of(a), w) == a);
        },
        ArgValue::Uint(x) => lemma_word_round_trip(pre, x, post),
        ArgValue::Object(x) => lemma_word_round_trip(pre, x, post),
        ArgValue::NewId(x) => lemma_word_round_trip(pre, x, post),
        ArgValue::OptObject(x) => match x {
            Some(x) => lemma_word_round_trip(pre, x, post),
            None => lemma_word_round_trip(pre, 0, post),
        },
        ArgValue::Str(t) => lemma_string_round_trip(pre, t, post),
        ArgValue::OptStr(t) => match t {
            Some(t) => {
                lemma_string_round_trip(pre, t, post);
                let n = encode_utf8(t).len() + 1;
                assert(encoded_string(t) == word_bytes(n as u32) + (encoded_string(t).subrange(
                    4,
                    encoded_string(t).len() as int,
                ))) by {
                    lemma_word_bytes(n as u32);
                    assert(encoded_string(t) =~= word_bytes(n as u32) + encoded_string(t).subrange(
                        4,
                        encoded_string(t).len() as int,
                    ));
                }
                assert(all =~= pre + word_bytes(n as u32) + (encoded_string(t).subrange(
                    4,
                    encoded_string(t).len() as int,
                ) + post));
                lemma_word_round_trip(
                    pre,
                    n as u32,
                    encoded_string(t).subrange(4, encoded_string(t).len() as int) + post,
                );
            },
            None => lemma_word_round_trip(pre, 0, post),
        },
        ArgValue::AnyNewId(id, t, v) => {
            let es = encoded_string(t);
            assert(all =~= pre + word_bytes(id) + (es + word_bytes(v) + post));
            lemma_word_round_trip(pre, id, es + word_bytes(v) + post);
            lemma_word_bytes(id);
            assert(all =~= (pre + word_bytes(id)) + es + (word_bytes(v) + post));
            lemma_string_round_trip(pre + word_bytes(id), t, word_bytes(v) + post);
            assert(all =~= (pre + word_bytes(id) + es) + word_bytes(v) + post);
            lemma_word_round_trip(pre + word_bytes(id) + es, v, post);
        },
        ArgValue::Array(b) => {
            let n = b.len() as int;
            let rest = b + zeros(padded(n) - n) + post;
            assert(all =~= pre + word_bytes(n as u32) + rest);
            lemma_word_round_trip(pre, n as u32, rest);
            lemma_word_bytes(n as u32);
            assert(padded(n) >= n);
            assert(all.subrange(off + 4, off + 4 + n) =~= b);
        },
        ArgValue::Fd => {},
    }
}

/// The encodings of a prefix of a list begin the encoding of the list.
proof fn lemma_encoded_prefix(v: Seq<ArgValue>, k: int)
    requires
        0 <= k <= v.len(),
    ensures
        encoded_args(v) == encoded_args(v.take(k)) + encoded_args(v).subrange(
            encoded_args(v.take(k)).len() as int,
            encoded_args(v).len() as int,
        ),
    decreases v.len() - k,
{
    if k == v.len() {
        assert(v.take(k) =~= v);
        assert(encoded_args(v).subrange(encoded_args(v).len() as int, encoded_args(v).len() as int)
            =~= Seq::<u8>::empty());
        assert(encoded_args(v) + Seq::<u8>::empty() =~= encoded_args(v));
    } else {
        lemma_encoded_prefix(v, k + 1);
        assert(v.take(k + 1).drop_last() =~= v.take(k));
        let whole = encoded_args(v);
        let a = encoded_args(v.take(k));
        let b = encoded_args(v.take(k + 1));
        assert(b == a + encoded_arg(v[k]));
        assert(whole =~= a + whole.subrange(a.len() as int, whole.len() as int));
    }
}

/// The objects of a named interface that `a` refers to are among `known`.
pub open spec fn refers_within(a: ArgValue, known: Set<u32>) -> bool {
    match a {
        ArgValue::Object(x) => known.contains(x),
        ArgValue::OptObject(Some(x)) => known.contains(x),
        _ => true,
    }
}

/// How many descriptors the values of `v` take.
pub open spec fn fd_count(v: Seq<ArgValue>) -> nat
    decreases v.len(),
{
    if v.len() == 0 {
        0
    } else {
        (if v[0] is Fd { 1nat } else { 0nat }) + fd_count(v.drop_first())
    }
}

proof fn lemma_args_from_encoded(v: Seq<ArgValue>, i: int, enums: Seq<Seq<u32>>, known: Set<u32>, fds: nat)
    requires
        0 <= i <= v.len(),
        forall|k: int| 0 <= k < v.len() ==> reads_back(#[trigger] v[k]),
        forall|k: int| i <= k < v.len() ==> refers_within(#[trigger] v[k], known),
        fds >= fd_count(v.skip(i)),
    ensures
        args_from(kinds_of(v), i, encoded_args(v), encoded_args(v.take(i)).len() as int, enums, known, fds) == Some(
            v.skip(i),
        ),
    decreases v.len() - i,
{
    let s = encoded_args(v);
    if i == v.len() {
        assert(v.skip(i) =~= Seq::<ArgValue>::empty());
    } else {
        let pre = encoded_args(v.take(i));
        let mid = encoded_arg(v[i]);
        assert(v.take(i + 1).drop_last() =~= v.take(i));
        assert(encoded_args(v.take(i + 1)) == pre + mid);
        lemma_encoded_prefix(v, i + 1);
        let post = s.subrange((pre + mid).len() as int, s.len() as int);
        assert(s == pre + mid + post);
        lemma_arg_round_trip(pre, v[i], post);
        assert(kinds_of(v)[i] == kind_of(v[i]));
        assert(v.skip(i).drop_first() =~= v.skip(i + 1));
        assert(v.skip(i)[0] == v[i]);
        assert(refers_within(v[i], known));
        let known2 = known_after(known, v[i]);
        assert forall|k: int| i + 1 <= k < v.len() implies refers_within(#[trigger] v[k], known2) by {
            assert(refers_within(v[k], known));
        }
        lemma_args_from_encoded(v, i + 1, enums, known2, fds_after(fds, kind_of(v[i])));
        assert(seq![v[i]] + v.skip(i + 1) =~= v.skip(i));
    }
}

/// What [`encode_args`] writes, [`decode_args`] reads back against the
/// signature the values fit: the same values, in order, whatever the enum
/// tables, as long as the connection knows every object of a named
/// interface they refer to and every descriptor they take arrived.
pub proof fn lemma_args_round_trip(v: Seq<ArgValue>, enums: Seq<Seq<u32>>, known: Set<u32>, fds: nat)
    requires
        forall|k: int| 0 <= k < v.len() ==> reads_back(#[trigger] v[k]),
        forall|k: int| 0 <= k < v.len() ==> refers_within(#[trigger] v[k], known),
        fds >= fd_count(v),
    ensures
        decoded(kinds_of(v), encoded_args(v), enums, known, fds) == Some(v),
{
    assert(v.skip(0) =~= v);
    lemma_args_from_encoded(v, 0, enums, known, fds);
    assert(v.take(0) =~= Seq::<ArgValue>::empty());
}

/// A request written whole, header and arguments, is read back by the
/// peer as one message from its sender with its opcode, nothing left over,
/// and its body decodes against the arguments' signature to the same
/// values, where the peer knows the objects and has the descriptors.
pub proof fn lemma_request_round_trip(
    sender_id: u32,
    opcode: u16,
    v: Seq<ArgValue>,
    enums: Seq<Seq<u32>>,
    known: Set<u32>,
    fds: nat,
)
    requires
        encoded_args(v).len() + 8 < 0x1_0000,
        forall|k: int| 0 <= k < v.len() ==> reads_back(#[trigger] v[k]),
        forall|k: int| 0 <= k < v.len() ==> refers_within(#[trigger] v[k], known),
        fds >= fd_count(v),
    ensures
        well_framed(encoded_message(sender_id, opcode, encoded_args(v)), 0),
        messages(encoded_message(sender_id, opcode, encoded_args(v)), 0) == seq![
            (sender_id, opcode as u32, encoded_args(v)),
        ],
        tail_start(encoded_message(sender_id, opcode, encoded_args(v)), 0) == encoded_message(
            sender_id,
            opcode,
            encoded_args(v),
        ).len(),
        decoded(kinds_of(v), messages(encoded_message(sender_id, opcode, encoded_args(v)), 0)[0].2, enums, known, fds)
            == Some(v),
{
    lemma_message_round_trip(sender_id, opcode, encoded_args(v));
    lemma_args_round_trip(v, enums, known, fds);
}

} // verus!
