//! The Wayland wire format: messages of a two-word header and a body, in
//! the host's byte order, and the strings inside them.
//!
//! A message is `sender id`, then `size << 16 | opcode`, then `size - 8`
//! bytes of body. Bytes arrive in reads that may cut a message in two, so
//! parsing splits a buffer into its whole messages and the tail that is not
//! one yet.

use vstd::prelude::*;
use vstd::bytes::{spec_u32_from_le_bytes, spec_u32_to_le_bytes};
use vstd::endian::{endianness, Endian};
use vstd::string::StringSliceAdditionalSpecFns;
use vstd::utf8::{decode_utf8, encode_utf8, valid_utf8};

verus! {

/// The size of a message header.
pub const HEADER: usize = 8;

/// Names one protocol object on the connection.
#[derive(Debug, Clone, Copy, Hash, PartialEq, Eq, Structural)]
pub struct ObjectId(pub u32);

/// The display singleton always uses object id 1.
pub fn display_object_id() -> (id: ObjectId)
    ensures
        id == ObjectId(1),
{
    ObjectId(1)
}

/// One message off the wire, before it is parsed into a typed event.
#[derive(Debug)]
pub struct RawWaylandEvent {
    pub object_id: ObjectId,
    pub opcode: u32,
    pub data: Vec<u8>,
}

impl RawWaylandEvent {
    /// The message as plain values: sender, opcode, body.
    pub open spec fn spec_view(&self) -> (u32, u32, Seq<u8>) {
        (self.object_id.0, self.opcode, self.data@)
    }
}

// ── words in the host's byte order ───────────────────────────────────────────

/// The `u32` four bytes spell in the byte order of the machine running.
pub open spec fn word(s: Seq<u8>) -> u32 {
    match endianness() {
        Endian::Little => spec_u32_from_le_bytes(s),
        Endian::Big => spec_u32_from_le_bytes(s.reverse()),
    }
}

/// The four bytes that spell `x` in the byte order of the machine running.
pub open spec fn word_bytes(x: u32) -> Seq<u8> {
    match endianness() {
        Endian::Little => spec_u32_to_le_bytes(x),
        Endian::Big => spec_u32_to_le_bytes(x).reverse(),
    }
}

/// The word at byte `off` of `s`.
pub open spec fn word_at(s: Seq<u8>, off: int) -> u32 {
    word(s.subrange(off, off + 4))
}

/// A word is written as four bytes, which read back as the word.
pub proof fn lemma_word_bytes(x: u32)
    ensures
        word_bytes(x).len() == 4,
        word(word_bytes(x)) == x,
{
    vstd::bytes::lemma_auto_spec_u32_to_from_le_bytes();
    let le = spec_u32_to_le_bytes(x);
    assert(le.len() == 4);
    assert(le.reverse().reverse() =~= le);
}

/// Four bytes as a host-order word. One wrapper round `u32::from_ne_bytes`.
///
/// Claims what its documentation says: the bytes are read in the byte
/// order of the machine running, as vstd's `endianness` names it.
#[verifier::external_body]
fn u32_from_ne_bytes(b: [u8; 4]) -> (x: u32)
    ensures
        x == word(b@),
{
    u32::from_ne_bytes(b)
}

/// A word as host-order bytes. One wrapper round `u32::to_ne_bytes`.
///
/// Claims what its documentation says: the bytes are in the byte order of
/// the machine running, as vstd's `endianness` names it.
#[verifier::external_body]
fn u32_to_ne_bytes(x: u32) -> (b: [u8; 4])
    ensures
        b@ == word_bytes(x),
{
    x.to_ne_bytes()
}

/// The word at `off` in `bytes`.
fn read_word(bytes: &Vec<u8>, off: usize) -> (x: u32)
    requires
        off + 4 <= bytes@.len(),
    ensures
        x == word_at(bytes@, off as int),
{
    let n = bytes.len();
    assert(off + 4 <= n);
    let b = [bytes[off], bytes[off + 1], bytes[off + 2], bytes[off + 3]];
    assert(b@ =~= bytes@.subrange(off as int, off + 4));
    u32_from_ne_bytes(b)
}

/// Append `x` in host order.
pub fn push_word(buf: &mut Vec<u8>, x: u32)
    ensures
        final(buf)@ == old(buf)@ + word_bytes(x),
{
    let b = u32_to_ne_bytes(x);
    buf.push(b[0]);
    buf.push(b[1]);
    buf.push(b[2]);
    buf.push(b[3]);
    proof {
        assert(final(buf)@ =~= old(buf)@ + b@);
    }
}

/// `bytes[from..to]`, copied.
pub(crate) fn copy_range(bytes: &Vec<u8>, from: usize, to: usize) -> (r: Vec<u8>)
    requires
        from <= to <= bytes@.len(),
    ensures
        r@ == bytes@.subrange(from as int, to as int),
{
    let mut r: Vec<u8> = Vec::new();
    let mut i = from;
    while i < to
        invariant
            from <= i <= to,
            to <= bytes@.len(),
            r@ == bytes@.subrange(from as int, i as int),
        decreases to - i,
    {
        r.push(bytes[i]);
        proof {
            assert(bytes@.subrange(from as int, i + 1) =~= bytes@.subrange(from as int, i as int).push(bytes@[i as int]));
        }
        i += 1;
    }
    r
}

// ── framing ──────────────────────────────────────────────────────────────────

/// The size a header at `off` gives its message.
pub open spec fn frame_size(s: Seq<u8>, off: int) -> int {
    (word_at(s, off + 4) >> 16) as int
}

/// Every header from `off` on that is wholly in `s` gives a size of at
/// least a header: what parsing needs to make progress.
pub open spec fn well_framed(s: Seq<u8>, off: int) -> bool
    decreases s.len() - off,
{
    if off < 0 || off + HEADER > s.len() {
        true
    } else if frame_size(s, off) < HEADER {
        false
    } else if off + frame_size(s, off) > s.len() {
        true
    } else {
        well_framed(s, off + frame_size(s, off))
    }
}

/// The whole messages of `s` from `off` on: sender, opcode, body.
pub open spec fn messages(s: Seq<u8>, off: int) -> Seq<(u32, u32, Seq<u8>)>
    decreases s.len() - off,
{
    if off < 0 || off + HEADER > s.len() || frame_size(s, off) < HEADER || off + frame_size(s, off) > s.len() {
        Seq::empty()
    } else {
        seq![(word_at(s, off), word_at(s, off + 4) & 0xffff, s.subrange(off + HEADER, off + frame_size(s, off)))]
            + messages(s, off + frame_size(s, off))
    }
}

/// Where the part of `s` that is not a whole message yet starts.
pub open spec fn tail_start(s: Seq<u8>, off: int) -> int
    decreases s.len() - off,
{
    if off < 0 || off + HEADER > s.len() || frame_size(s, off) < HEADER || off + frame_size(s, off) > s.len() {
        off
    } else {
        tail_start(s, off + frame_size(s, off))
    }
}

/// Whether every header in `bytes` gives a size of at least a header, the
/// condition [`parse_messages`] needs.
pub fn framing_ok(bytes: &Vec<u8>) -> (b: bool)
    ensures
        b == well_framed(bytes@, 0),
{
    let mut offset: usize = 0;
    while bytes.len() - offset >= HEADER
        invariant
            offset <= bytes@.len(),
            well_framed(bytes@, 0) == well_framed(bytes@, offset as int),
        decreases bytes@.len() - offset,
    {
        let word2 = read_word(bytes, offset + 4);
        let size = (word2 >> 16) as usize;
        if size < HEADER {
            return false;
        }
        if size > bytes.len() - offset {
            return true;
        }
        offset += size;
    }
    true
}

/// Splits `bytes` into whole messages and the tail that is not one yet. The
/// tail is kept for the next read: a message may straddle two reads.
pub fn parse_messages(bytes: Vec<u8>) -> (r: (Vec<RawWaylandEvent>, Vec<u8>))
    requires
        well_framed(bytes@, 0),
    ensures
        r.0@.map_values(|e: RawWaylandEvent| e.spec_view()) == messages(bytes@, 0),
        r.1@ == bytes@.subrange(tail_start(bytes@, 0), bytes@.len() as int),
{
    let mut events: Vec<RawWaylandEvent> = Vec::new();
    let mut offset: usize = 0;
    while bytes.len() - offset >= HEADER
        invariant
            offset <= bytes@.len(),
            well_framed(bytes@, offset as int),
            messages(bytes@, 0) == events@.map_values(|e: RawWaylandEvent| e.spec_view()) + messages(bytes@, offset as int),
            tail_start(bytes@, 0) == tail_start(bytes@, offset as int),
        ensures
            offset <= bytes@.len(),
            messages(bytes@, 0) == events@.map_values(|e: RawWaylandEvent| e.spec_view()),
            tail_start(bytes@, 0) == offset,
        decreases bytes@.len() - offset,
    {
        let sender_id = read_word(&bytes, offset);
        let word2 = read_word(&bytes, offset + 4);
        let size = (word2 >> 16) as usize;
        let opcode = word2 & 0xffff;
        if size > bytes.len() - offset {
            proof {
                assert(messages(bytes@, offset as int) =~= Seq::<(u32, u32, Seq<u8>)>::empty());
                assert(events@.map_values(|e: RawWaylandEvent| e.spec_view()) + Seq::<(u32, u32, Seq<u8>)>::empty()
                    =~= events@.map_values(|e: RawWaylandEvent| e.spec_view()));
            }
            break;
        }
        let data = copy_range(&bytes, offset + HEADER, offset + size);
        let ghost before = events@;
        events.push(RawWaylandEvent { object_id: ObjectId(sender_id), opcode, data });
        proof {
            let o = offset as int;
            let m = (word_at(bytes@, o), word_at(bytes@, o + 4) & 0xffff, bytes@.subrange(o + HEADER, o + frame_size(bytes@, o)));
            assert(messages(bytes@, o) == seq![m] + messages(bytes@, o + size));
            assert(events@.map_values(|e: RawWaylandEvent| e.spec_view()) =~= before.map_values(|e: RawWaylandEvent| e.spec_view()).push(m));
            assert(before.map_values(|e: RawWaylandEvent| e.spec_view()) + messages(bytes@, o) =~= before.map_values(
                |e: RawWaylandEvent| e.spec_view(),
            ).push(m) + messages(bytes@, o + size));
        }
        offset += size;
    }
    proof {
        if bytes@.len() - offset < HEADER {
            assert(messages(bytes@, offset as int) =~= Seq::<(u32, u32, Seq<u8>)>::empty());
            assert(events@.map_values(|e: RawWaylandEvent| e.spec_view()) + Seq::<(u32, u32, Seq<u8>)>::empty()
                =~= events@.map_values(|e: RawWaylandEvent| e.spec_view()));
        }
    }
    let rest = copy_range(&bytes, offset, bytes.len());
    (events, rest)
}

/// Four bytes read as a word and written back are the same four bytes.
pub proof fn lemma_word_of_bytes(b: Seq<u8>)
    requires
        b.len() == 4,
    ensures
        word_bytes(word(b)) == b,
{
    vstd::bytes::lemma_auto_spec_u32_to_from_le_bytes();
    assert(b.reverse().len() == 4);
    assert(b.reverse().reverse() =~= b);
}

/// The messages of `ms`, each written as [`encode_message`] writes it, one
/// after another.
pub open spec fn reencoded(ms: Seq<(u32, u32, Seq<u8>)>) -> Seq<u8>
    decreases ms.len(),
{
    if ms.len() == 0 {
        Seq::empty()
    } else {
        encoded_message(ms[0].0, ms[0].1 as u16, ms[0].2) + reencoded(ms.drop_first())
    }
}

proof fn lemma_reencoded_from(s: Seq<u8>, off: int)
    requires
        0 <= off <= s.len(),
        well_framed(s, off),
    ensures
        off <= tail_start(s, off) <= s.len(),
        reencoded(messages(s, off)) + s.subrange(tail_start(s, off), s.len() as int) == s.subrange(off, s.len() as int),
    decreases s.len() - off,
{
    if off + HEADER > s.len() || frame_size(s, off) < HEADER || off + frame_size(s, off) > s.len() {
        assert(messages(s, off) =~= Seq::<(u32, u32, Seq<u8>)>::empty());
        assert(Seq::<u8>::empty() + s.subrange(off, s.len() as int) =~= s.subrange(off, s.len() as int));
    } else {
        let n = frame_size(s, off);
        let w0 = word_at(s, off);
        let w2 = word_at(s, off + 4);
        let body = s.subrange(off + HEADER, off + n);
        lemma_reencoded_from(s, off + n);
        let ms = messages(s, off);
        assert(ms[0] == (w0, w2 & 0xffff, body));
        assert(ms.drop_first() =~= messages(s, off + n));
        let op = (w2 & 0xffff) as u16;
        assert((w2 & 0xffff) < 0x1_0000) by (bit_vector);
        assert(body.len() == n - 8);
        assert((((8 + body.len()) as u32) << 16u32) | (op as u32) == w2) by {
            assert(((8 + body.len()) as u32) == (w2 >> 16u32));
            assert(((w2 >> 16u32) << 16u32) | (w2 & 0xffff) == w2) by (bit_vector);
        }
        lemma_word_of_bytes(s.subrange(off, off + 4));
        lemma_word_of_bytes(s.subrange(off + 4, off + 8));
        assert(encoded_message(w0, op, body) =~= s.subrange(off, off + n));
        assert(reencoded(ms) == encoded_message(w0, op, body) + reencoded(messages(s, off + n)));
        assert(s.subrange(off, s.len() as int) =~= s.subrange(off, off + n) + s.subrange(off + n, s.len() as int));
        assert(reencoded(ms) + s.subrange(tail_start(s, off), s.len() as int) =~= encoded_message(w0, op, body) + (
        reencoded(messages(s, off + n)) + s.subrange(tail_start(s, off + n), s.len() as int)));
    }
}

proof fn lemma_tail_not_whole(s: Seq<u8>, off: int)
    requires
        0 <= off <= s.len(),
        well_framed(s, off),
    ensures
        ({
            let t = s.subrange(tail_start(s, off), s.len() as int);
            t.len() < HEADER || frame_size(t, 0) > t.len()
        }),
    decreases s.len() - off,
{
    if off + HEADER > s.len() || frame_size(s, off) < HEADER || off + frame_size(s, off) > s.len() {
        let t = s.subrange(off, s.len() as int);
        if t.len() >= HEADER {
            assert(t.subrange(4, 8) =~= s.subrange(off + 4, off + 8));
        }
    } else {
        lemma_tail_not_whole(s, off + frame_size(s, off));
    }
}

/// What [`parse_messages`] splits a buffer into gives the buffer back:
/// its messages written again one after another, then the tail, are the
/// bytes it was given; and the tail is not a whole message yet.
pub proof fn lemma_parse_reassembles(s: Seq<u8>)
    requires
        well_framed(s, 0),
    ensures
        reencoded(messages(s, 0)) + s.subrange(tail_start(s, 0), s.len() as int) == s,
        ({
            let t = s.subrange(tail_start(s, 0), s.len() as int);
            t.len() < HEADER || frame_size(t, 0) > t.len()
        }),
{
    lemma_reencoded_from(s, 0);
    lemma_tail_not_whole(s, 0);
    assert(s.subrange(0, s.len() as int) =~= s);
}

// ── writing ──────────────────────────────────────────────────────────────────

/// The bytes of one message: header, then body.
pub open spec fn encoded_message(sender_id: u32, opcode: u16, body: Seq<u8>) -> Seq<u8> {
    word_bytes(sender_id) + word_bytes((((8 + body.len()) as u32) << 16u32) | (opcode as u32)) + body
}

/// Append one message: `sender_id`, then its size and `opcode`, then
/// `body`. The size is 8 plus the body's length, kept to 32 bits and shifted
/// into the header's high half.
pub fn encode_message(buf: &mut Vec<u8>, sender_id: u32, opcode: u16, body: &[u8])
    requires
        body@.len() + 8 <= usize::MAX,
    ensures
        final(buf)@ == old(buf)@ + encoded_message(sender_id, opcode, body@),
{
    let total = #[verifier::truncate] ((8 + body.len()) as u32);
    push_word(buf, sender_id);
    push_word(buf, (total << 16u32) | (opcode as u32));
    let ghost mid = buf@;
    let mut i: usize = 0;
    while i < body.len()
        invariant
            i <= body@.len(),
            buf@ == mid + body@.subrange(0, i as int),
        decreases body@.len() - i,
    {
        buf.push(body[i]);
        proof {
            assert(body@.subrange(0, i + 1) =~= body@.subrange(0, i as int).push(body@[i as int]));
        }
        i += 1;
    }
    proof {
        assert(body@.subrange(0, body@.len() as int) =~= body@);
        assert(final(buf)@ =~= old(buf)@ + encoded_message(sender_id, opcode, body@));
    }
}


// ── strings ──────────────────────────────────────────────────────────────────

/// `n` rounded up to a multiple of four.
pub open spec fn padded(n: int) -> int {
    (n + 3) / 4 * 4
}

pub(crate) proof fn lemma_pad_u64(x: u64)
    requires
        x <= 0xffff_ffff_ffff_fffc,
    ensures
        ((x + 3) as u64) & !3u64 == padded(x as int),
{
    assert(((x + 3) as u64) & !3u64 == ((x + 3) / 4) * 4) by (bit_vector)
        requires
            x <= 0xffff_ffff_ffff_fffc,
    ;
}

/// The word at `off`, if four bytes are there, and where reading ends.
pub open spec fn u32_at(s: Seq<u8>, off: int) -> (Option<u32>, int) {
    if off + 4 > s.len() {
        (None, off)
    } else {
        (Some(word_at(s, off)), off + 4)
    }
}

/// The string at `off`: a length word counting the terminating NUL, then
/// that many bytes padded to a multiple of four. `None` if the bytes run
/// out or are not UTF-8. Also where reading ends, which is past whatever
/// was read, a failed string included.
pub open spec fn string_at(s: Seq<u8>, off: int) -> (Option<Seq<char>>, int) {
    if off + 4 > s.len() {
        (None, off)
    } else {
        let n = word_at(s, off) as int;
        let p = padded(n);
        let o = off + 4;
        if o + p > s.len() {
            (None, o)
        } else {
            let k = if n >= 1 { n - 1 } else { 0 };
            let text = s.subrange(o, o + k);
            (if valid_utf8(text) { Some(decode_utf8(text)) } else { None }, o + p)
        }
    }
}

/// Bytes as UTF-8. One wrapper round `std::str::from_utf8`.
///
/// Claims what its documentation says: it succeeds exactly on valid UTF-8,
/// and the string it returns is those bytes.
#[verifier::external_body]
fn str_from_utf8(v: &[u8]) -> (r: Option<&str>)
    ensures
        r is Some <==> valid_utf8(v@),
        r matches Some(s) ==> s.spec_bytes() == v@,
{
    std::str::from_utf8(v).ok()
}

/// The word at `*offset`, advancing past it. `None`, with the offset
/// unchanged, if fewer than four bytes are left.
pub fn read_u32(data: &[u8], offset: &mut usize) -> (r: Option<u32>)
    requires
        *old(offset) + 4 <= usize::MAX,
    ensures
        (r, *final(offset) as int) == u32_at(data@, *old(offset) as int),
{
    let n = data.len();
    if *offset + 4 > n {
        return None;
    }
    let b = [data[*offset], data[*offset + 1], data[*offset + 2], data[*offset + 3]];
    assert(b@ =~= data@.subrange(*offset as int, *offset + 4));
    *offset += 4;
    Some(u32_from_ne_bytes(b))
}

/// The string at `*offset`, advancing past what was read. See
/// [`string_at`].
pub fn read_string(data: &[u8], offset: &mut usize) -> (r: Option<String>)
    requires
        *old(offset) + 4 <= usize::MAX,
    ensures
        string_at(data@, *old(offset) as int).1 == *final(offset) as int,
        r is Some <==> string_at(data@, *old(offset) as int).0 is Some,
        r matches Some(s) ==> s@ == string_at(data@, *old(offset) as int).0.unwrap(),
{
    let len = match read_u32(data, offset) {
        Some(len) => len,
        None => return None,
    };
    let n = data.len();
    let len64 = len as u64;
    let padded64 = (len64 + 3) & !3u64;
    assert(len64 + 3 == ((len64 + 3) as u64));
    proof {
        lemma_pad_u64(len64);
    }
    if padded64 > (n - *offset) as u64 {
        return None;
    }
    let padded = padded64 as usize;
    let raw = vstd::slice::slice_subrange(data, *offset, *offset + padded);
    *offset += padded;
    let k = if len >= 1 { (len - 1) as usize } else { 0 };
    let text = vstd::slice::slice_subrange(raw, 0, k);
    assert(text@ =~= data@.subrange(*old(offset) + 4, *old(offset) + 4 + k));
    match str_from_utf8(text) {
        Some(s) => {
            let owned = s.to_owned();
            proof {
                vstd::utf8::decode_utf8_encode_utf8(text@);
                vstd::utf8::encode_utf8_decode_utf8(s@);
            }
            Some(owned)
        },
        None => None,
    }
}

/// The bytes a string is written as: its length counting a terminating
/// NUL, its UTF-8 bytes, the NUL, and zeros up to a multiple of four.
pub open spec fn encoded_string(s: Seq<char>) -> Seq<u8> {
    let b = encode_utf8(s);
    let n = b.len() + 1;
    word_bytes(n as u32) + b + seq![0u8] + Seq::new((padded(n as int) - n) as nat, |i: int| 0u8)
}

/// Append `s` as the protocol writes a string. The length word is kept to
/// 32 bits.
pub fn encode_string(buf: &mut Vec<u8>, s: &str)
    requires
        s.spec_bytes().len() + 4 <= usize::MAX,
    ensures
        final(buf)@ == old(buf)@ + encoded_string(s@),
{
    let bytes = s.as_bytes();
    let str_len = bytes.len() + 1;
    let str_len64 = str_len as u64;
    let padded64 = (str_len64 + 3) & !3u64;
    proof {
        lemma_pad_u64(str_len64);
    }
    let padded = padded64 as usize;
    push_word(buf, str_len as u32);
    let ghost mid = buf@;
    let mut i: usize = 0;
    while i < bytes.len()
        invariant
            i <= bytes@.len(),
            buf@ == mid + bytes@.subrange(0, i as int),
        decreases bytes@.len() - i,
    {
        buf.push(bytes[i]);
        proof {
            assert(bytes@.subrange(0, i + 1) =~= bytes@.subrange(0, i as int).push(bytes@[i as int]));
        }
        i += 1;
    }
    buf.push(0);
    let ghost mid2 = buf@;
    let mut j: usize = str_len;
    while j < padded
        invariant
            str_len <= j <= padded,
            buf@ == mid2 + Seq::new((j - str_len) as nat, |i: int| 0u8),
        decreases padded - j,
    {
        buf.push(0);
        proof {
            assert(Seq::new((j + 1 - str_len) as nat, |i: int| 0u8) =~= Seq::new((j - str_len) as nat, |i: int| 0u8).push(0u8));
        }
        j += 1;
    }
    proof {
        assert(bytes@.subrange(0, bytes@.len() as int) =~= bytes@);
        assert(final(buf)@ =~= old(buf)@ + encoded_string(s@));
    }
}

/// A string written with [`encode_string`] reads back whole with
/// [`read_string`], and reading ends right after it, whatever surrounds it,
/// as long as its length fits the length word.
pub proof fn lemma_string_round_trip(pre: Seq<u8>, s: Seq<char>, post: Seq<u8>)
    requires
        encode_utf8(s).len() + 1 <= u32::MAX,
    ensures
        string_at(pre + encoded_string(s) + post, pre.len() as int) == (
            Some(s),
            (pre.len() + encoded_string(s).len()) as int,
        ),
{
    let b = encode_utf8(s);
    let n = b.len() + 1;
    let all = pre + encoded_string(s) + post;
    let off = pre.len() as int;
    lemma_word_bytes(n as u32);
    assert(all.subrange(off, off + 4) =~= word_bytes(n as u32));
    assert(word_at(all, off) == n);
    let o = off + 4;
    assert(all.subrange(o, o + (n - 1)) =~= b);
    vstd::utf8::encode_utf8_valid_utf8(s);
    vstd::utf8::encode_utf8_decode_utf8(s);
}

/// A message written with [`encode_message`] parses back as itself, with
/// nothing left over, as long as its size fits the header's 16 bits.
pub proof fn lemma_message_round_trip(sender_id: u32, opcode: u16, body: Seq<u8>)
    requires
        body.len() + 8 < 0x1_0000,
    ensures
        well_framed(encoded_message(sender_id, opcode, body), 0),
        messages(encoded_message(sender_id, opcode, body), 0) == seq![(sender_id, opcode as u32, body)],
        tail_start(encoded_message(sender_id, opcode, body), 0) == encoded_message(sender_id, opcode, body).len(),
{
    let total = (8 + body.len()) as u32;
    let w2 = (total << 16u32) | (opcode as u32);
    let m = encoded_message(sender_id, opcode, body);
    lemma_word_bytes(sender_id);
    lemma_word_bytes(w2);
    assert(m.subrange(0, 4) =~= word_bytes(sender_id));
    assert(m.subrange(4, 8) =~= word_bytes(w2));
    assert(w2 >> 16u32 == total && w2 & 0xffff == opcode as u32) by (bit_vector)
        requires
            total < 0x1_0000,
            w2 == (total << 16u32) | (opcode as u32),
    ;
    assert(frame_size(m, 0) == total);
    assert(m.len() == total);
    assert(m.subrange(8, total as int) =~= body);
    assert(messages(m, total as int) =~= Seq::<(u32, u32, Seq<u8>)>::empty());
    assert(well_framed(m, total as int));
    assert(tail_start(m, total as int) == total);
    assert(messages(m, 0) =~= seq![(sender_id, opcode as u32, body)]);
}

// ── reads that cut messages ──────────────────────────────────────────────────

/// Dropping the first `k` bytes moves every frame from `off` on by `k` and
/// changes nothing else.
proof fn lemma_frames_shift(s: Seq<u8>, k: int, off: int)
    requires
        0 <= k <= off,
        k <= s.len(),
    ensures
        messages(s, off) == messages(s.subrange(k, s.len() as int), off - k),
        tail_start(s, off) == tail_start(s.subrange(k, s.len() as int), off - k) + k,
        well_framed(s, off) == well_framed(s.subrange(k, s.len() as int), off - k),
    decreases s.len() - off,
{
    let t = s.subrange(k, s.len() as int);
    let o = off - k;
    if off + HEADER > s.len() {
    } else {
        assert(t.subrange(o + 4, o + 8) =~= s.subrange(off + 4, off + 8));
        assert(frame_size(t, o) == frame_size(s, off));
        let n = frame_size(s, off);
        if n < HEADER || off + n > s.len() {
        } else {
            assert(t.subrange(o, o + 4) =~= s.subrange(off, off + 4));
            assert(t.subrange(o + HEADER, o + n) =~= s.subrange(off + HEADER, off + n));
            lemma_frames_shift(s, k, off + n);
        }
    }
}

/// Frames that lie wholly in `a` read the same with `b` after it: the
/// messages of `a + b` are those of `a`, then those from where `a`'s tail
/// starts.
proof fn lemma_frames_prefix(a: Seq<u8>, b: Seq<u8>, off: int)
    requires
        0 <= off <= a.len(),
    ensures
        messages(a + b, off) == messages(a, off) + messages(a + b, tail_start(a, off)),
        tail_start(a + b, off) == tail_start(a + b, tail_start(a, off)),
        well_framed(a + b, off) ==> well_framed(a, off),
        well_framed(a + b, off) ==> well_framed(a + b, tail_start(a, off)),
        off <= tail_start(a, off) <= a.len(),
    decreases a.len() - off,
{
    let s = a + b;
    if off + HEADER > a.len() {
        assert(messages(a, off) =~= Seq::<(u32, u32, Seq<u8>)>::empty());
        assert(messages(s, off) =~= Seq::<(u32, u32, Seq<u8>)>::empty() + messages(s, off));
    } else {
        assert(s.subrange(off + 4, off + 8) =~= a.subrange(off + 4, off + 8));
        assert(frame_size(s, off) == frame_size(a, off));
        let n = frame_size(a, off);
        if n < HEADER || off + n > a.len() {
            assert(messages(a, off) =~= Seq::<(u32, u32, Seq<u8>)>::empty());
            assert(messages(s, off) =~= Seq::<(u32, u32, Seq<u8>)>::empty() + messages(s, off));
        } else {
            assert(s.subrange(off, off + 4) =~= a.subrange(off, off + 4));
            assert(s.subrange(off + HEADER, off + n) =~= a.subrange(off + HEADER, off + n));
            lemma_frames_prefix(a, b, off + n);
            let m = seq![(word_at(a, off), word_at(a, off + 4) & 0xffff, a.subrange(off + HEADER, off + n))];
            assert(messages(s, off) == m + messages(s, off + n));
            assert(messages(a, off) == m + messages(a, off + n));
            assert(m + messages(a, off + n) + messages(s, tail_start(a, off + n))
                =~= m + (messages(a, off + n) + messages(s, tail_start(a, off + n))));
        }
    }
}

proof fn lemma_tail_bounds(s: Seq<u8>, off: int)
    requires
        0 <= off <= s.len(),
    ensures
        off <= tail_start(s, off) <= s.len(),
    decreases s.len() - off,
{
    if off + HEADER <= s.len() && frame_size(s, off) >= HEADER && off + frame_size(s, off) <= s.len() {
        lemma_tail_bounds(s, off + frame_size(s, off));
    }
}

/// A message may straddle two reads and reads back whole: parsing `a`,
/// keeping its tail, and parsing that tail with `b` after it gives the
/// messages of `a + b` parsed at once, and leaves the same tail.
pub proof fn lemma_reads_reassemble(a: Seq<u8>, b: Seq<u8>)
    requires
        well_framed(a + b, 0),
    ensures
        well_framed(a, 0),
        ({
            let rest = a.subrange(tail_start(a, 0), a.len() as int);
            &&& well_framed(rest + b, 0)
            &&& messages(a + b, 0) == messages(a, 0) + messages(rest + b, 0)
            &&& (a + b).subrange(tail_start(a + b, 0), (a + b).len() as int)
                == (rest + b).subrange(tail_start(rest + b, 0), (rest + b).len() as int)
        }),
{
    let s = a + b;
    let t = tail_start(a, 0);
    lemma_frames_prefix(a, b, 0);
    let rest = a.subrange(t, a.len() as int);
    assert(s.subrange(t, s.len() as int) =~= rest + b);
    lemma_frames_shift(s, t, t);
    let u = tail_start(rest + b, 0);
    lemma_tail_bounds(rest + b, 0);
    assert(tail_start(s, 0) == u + t);
    assert(s.subrange(u + t, s.len() as int) =~= (rest + b).subrange(u, (rest + b).len() as int));
}

} // verus!
