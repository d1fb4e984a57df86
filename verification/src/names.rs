//! Rust names for protocol names: `wl_surface` is `WlSurface`, an enum
//! entry whose name would start with a digit gets an `N` in front, an enum
//! named across interfaces (`wl_output.transform`) is named after both, and
//! a name that is a Rust keyword is written raw.

use vstd::prelude::*;

verus! {

/// What `char::to_uppercase` yields for `c`, collected.
pub uninterp spec fn uppercase_of(c: char) -> Seq<char>;

/// The uppercase mapping of `c`: one wrapper round `char::to_uppercase`,
/// collected into a `String`. Claims that the result is the named mapping
/// of `c` and, as its documentation says, one or more characters; which
/// characters those are is Unicode's, and is not stated.
#[verifier::external_body]
fn uppercase(c: char) -> (r: String)
    ensures
        r@ == uppercase_of(c),
        r@.len() >= 1,
{
    c.to_uppercase().collect()
}

/// `s` in PascalCase from position `i` on, where `at_start` says whether
/// the character at `i` begins a word: every `_` is dropped and the first
/// character of each word is uppercased.
pub open spec fn pascal_from(s: Seq<char>, i: int, at_start: bool) -> Seq<char>
    decreases s.len() - i,
{
    if i >= s.len() || i < 0 {
        Seq::empty()
    } else if s[i] == '_' {
        pascal_from(s, i + 1, true)
    } else if at_start {
        uppercase_of(s[i]) + pascal_from(s, i + 1, false)
    } else {
        seq![s[i]] + pascal_from(s, i + 1, false)
    }
}

/// `s` in PascalCase: split on `_`, each word's first character uppercased,
/// the words joined.
pub open spec fn pascal(s: Seq<char>) -> Seq<char> {
    pascal_from(s, 0, true)
}

/// The name of an enum entry: its PascalCase, with `N` in front when that
/// would start with a digit.
pub open spec fn variant(s: Seq<char>) -> Seq<char> {
    let p = pascal(s);
    if p.len() > 0 && '0' <= p[0] <= '9' {
        seq!['N'] + p
    } else {
        p
    }
}

proof fn lemma_pascal_step(s: Seq<char>, i: int, at_start: bool)
    requires
        0 <= i < s.len(),
    ensures
        pascal_from(s, i, at_start) == (if s[i] == '_' {
            pascal_from(s, i + 1, true)
        } else if at_start {
            uppercase_of(s[i]) + pascal_from(s, i + 1, false)
        } else {
            seq![s[i]] + pascal_from(s, i + 1, false)
        }),
{
}

/// `wl_surface` as `WlSurface`.
pub fn to_pascal(s: &str) -> (r: String)
    ensures
        r@ == pascal(s@),
{
    let n = s.unicode_len();
    let mut out = String::new();
    let mut at_start = true;
    let mut i: usize = 0;
    while i < n
        invariant
            n == s@.len(),
            i <= n,
            out@ + pascal_from(s@, i as int, at_start) == pascal(s@),
        decreases n - i,
    {
        proof {
            lemma_pascal_step(s@, i as int, at_start);
        }
        let c = s.get_char(i);
        if c == '_' {
            at_start = true;
        } else if at_start {
            let up = uppercase(c);
            let ghost before = out@;
            out.append(up.as_str());
            proof {
                assert(out@ + pascal_from(s@, i + 1, false) == before + (uppercase_of(c) + pascal_from(s@, i + 1, false)));
            }
            at_start = false;
        } else {
            let one = s.substring_char(i, i + 1);
            let ghost before = out@;
            out.append(one);
            proof {
                assert(one@ == seq![c]);
                assert(out@ + pascal_from(s@, i + 1, false) == before + (seq![c] + pascal_from(s@, i + 1, false)));
            }
        }
        i += 1;
    }
    proof {
        assert(pascal_from(s@, n as int, at_start) == Seq::<char>::empty());
        assert(out@ == out@ + Seq::<char>::empty());
    }
    out
}

/// The name of an enum entry: `to_pascal`, with `N` in front when that
/// would start with a digit.
pub fn variant_name(s: &str) -> (r: String)
    ensures
        r@ == variant(s@),
{
    let p = to_pascal(s);
    let n = p.as_str().unicode_len();
    if n > 0 {
        let first = p.as_str().get_char(0);
        if '0' <= first && first <= '9' {
            let prefix = String::from_str("N");
            proof {
                reveal_strlit("N");
            }
            return prefix.concat(p.as_str());
        }
    }
    p
}

/// Where the first `.` of `s` is at or after `i`, or `-1`.
pub open spec fn dot_from(s: Seq<char>, i: int) -> int
    decreases s.len() - i,
{
    if i < 0 || i >= s.len() {
        -1
    } else if s[i] == '.' {
        i
    } else {
        dot_from(s, i + 1)
    }
}

/// The Rust name of the enum an argument names: `iface.enum` is named
/// after both halves, a bare enum after the interface it belongs to.
pub open spec fn enum_name(iface: Seq<char>, attr: Seq<char>) -> Seq<char> {
    let dot = dot_from(attr, 0);
    if dot >= 0 {
        pascal(attr.subrange(0, dot)) + pascal(attr.subrange(dot + 1, attr.len() as int))
    } else {
        pascal(iface) + pascal(attr)
    }
}

/// The name of the enum an argument of interface `iface` names with its
/// `enum` attribute `attr`.
pub fn enum_type_name(iface: &str, attr: &str) -> (r: String)
    ensures
        r@ == enum_name(iface@, attr@),
{
    let n = attr.unicode_len();
    let mut i: usize = 0;
    while i < n
        invariant
            n == attr@.len(),
            i <= n,
            dot_from(attr@, 0) == dot_from(attr@, i as int),
        decreases n - i,
    {
        if attr.get_char(i) == '.' {
            let left = to_pascal(attr.substring_char(0, i));
            let right = to_pascal(attr.substring_char(i + 1, n));
            return left.concat(right.as_str());
        }
        i += 1;
    }
    let left = to_pascal(iface);
    let right = to_pascal(attr);
    left.concat(right.as_str())
}

/// The words Rust reserves that a protocol uses as argument or entry
/// names; such a name is written as a raw identifier.
pub open spec fn is_keyword(s: Seq<char>) -> bool {
    ||| s == "type"@ ||| s == "loop"@ ||| s == "use"@ ||| s == "impl"@ ||| s == "fn"@
    ||| s == "let"@ ||| s == "mut"@ ||| s == "ref"@ ||| s == "move"@ ||| s == "return"@
    ||| s == "where"@ ||| s == "in"@ ||| s == "match"@ ||| s == "if"@ ||| s == "else"@
    ||| s == "while"@ ||| s == "for"@ ||| s == "struct"@ ||| s == "enum"@ ||| s == "trait"@
    ||| s == "pub"@ ||| s == "mod"@ ||| s == "self"@ ||| s == "super"@ ||| s == "as"@
    ||| s == "break"@ ||| s == "continue"@ ||| s == "const"@ ||| s == "static"@ ||| s == "unsafe"@
    ||| s == "extern"@ ||| s == "async"@ ||| s == "await"@
}

fn same(a: &String, b: &str) -> (r: bool)
    ensures
        r == (a@ == b@),
{
    *a == b.to_owned()
}

/// Whether `s` must be written as a raw identifier.
pub fn needs_raw(s: &str) -> (r: bool)
    ensures
        r == is_keyword(s@),
{
    let o = s.to_owned();
    same(&o, "type") || same(&o, "loop") || same(&o, "use") || same(&o, "impl") || same(&o, "fn")
        || same(&o, "let") || same(&o, "mut") || same(&o, "ref") || same(&o, "move") || same(&o, "return")
        || same(&o, "where") || same(&o, "in") || same(&o, "match") || same(&o, "if") || same(&o, "else")
        || same(&o, "while") || same(&o, "for") || same(&o, "struct") || same(&o, "enum") || same(&o, "trait")
        || same(&o, "pub") || same(&o, "mod") || same(&o, "self") || same(&o, "super") || same(&o, "as")
        || same(&o, "break") || same(&o, "continue") || same(&o, "const") || same(&o, "static") || same(&o, "unsafe")
        || same(&o, "extern") || same(&o, "async") || same(&o, "await")
}

} // verus!
