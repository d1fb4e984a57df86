//! The node tree: a slot arena of nodes, each slot carrying a generation so
//! that the id of a removed node never resolves again.
//!
//! The tree is never empty: the root exists from [`Tree::new`] and is the
//! one node without a widget and the one node whose parent is itself. Every
//! other node is added by [`Tree::spawn`] as the last child of a live parent
//! and removed, with its whole subtree, by [`Tree::remove`]. Freed slots are
//! reused, last freed first, before the arena grows.

use vstd::prelude::*;
use vstd::set_lib::{set_int_range, lemma_int_range, lemma_map_size, lemma_len_subset};
use crate::id::{NodeId, NONE};

verus! {

/// Why a tree operation was refused.
#[derive(Debug, Clone, Copy, PartialEq, Eq, Structural)]
pub enum Error {
    /// The id names a node that has been removed (or never existed).
    Stale,
    /// The root cannot be removed.
    Root,
}

impl Error {
    /// The human-readable text of the error.
    pub fn message(&self) -> (r: &'static str)
        ensures
            *self == Error::Stale ==> r@ == "node id is stale"@,
            *self == Error::Root ==> r@ == "the root node cannot be removed"@,
    {
        match self {
            Error::Stale => "node id is stale",
            Error::Root => "the root node cannot be removed",
        }
    }
}

/// Tree bookkeeping for one node.
pub struct Node {
    /// The node's own id, as handed out when it was spawned.
    pub id: NodeId,
    /// The root is its own parent; every other node has a real one.
    pub parent: NodeId,
    /// In sibling order.
    pub children: Vec<NodeId>,
}

/// One arena slot: how often it has been freed, and the node it holds.
pub struct Slot {
    pub generation: u64,
    pub node: Option<Node>,
}

// ── the model ────────────────────────────────────────────────────────────────

/// Slot `i` holds a node.
pub open spec fn occ(s: Seq<Slot>, i: int) -> bool {
    0 <= i < s.len() && s[i].node is Some
}

/// The node in slot `i`.
pub open spec fn nd(s: Seq<Slot>, i: int) -> Node {
    s[i].node.unwrap()
}

/// The slot of the parent of the node in slot `i`.
pub open spec fn par(s: Seq<Slot>, i: int) -> int {
    nd(s, i).parent.component_index as int
}

/// The slot reached from `i` by going `k` times to the parent.
pub open spec fn anc(s: Seq<Slot>, i: int, k: nat) -> int
    decreases k,
{
    if k == 0 {
        i
    } else {
        par(s, anc(s, i, (k - 1) as nat))
    }
}

/// The node in slot `n` lies in the subtree of the node in slot `a`
/// (`n == a` included).
pub open spec fn is_desc(s: Seq<Slot>, d: Map<int, nat>, n: int, a: int) -> bool {
    &&& occ(s, n)
    &&& occ(s, a)
    &&& d[n] >= d[a]
    &&& anc(s, n, (d[n] - d[a]) as nat) == a
}

/// `id` names an occupied slot of its generation: what every lookup accepts.
pub open spec fn live(s: Seq<Slot>, id: NodeId) -> bool {
    &&& id.component_index < s.len()
    &&& s[id.component_index as int].generation == id.generation
    &&& s[id.component_index as int].node is Some
}

/// `id` is live and is exactly the id its node was given.
pub open spec fn resolves(s: Seq<Slot>, id: NodeId) -> bool {
    live(s, id) && nd(s, id.component_index as int).id == id
}

/// Parents and depths: every node but the root hangs one level below a
/// live parent, so following parents always ends at the root.
pub open spec fn shape_wf(s: Seq<Slot>, d: Map<int, nat>, r: int) -> bool {
    &&& occ(s, r)
    &&& d[r] == 0
    &&& par(s, r) == r
    &&& forall|i: int|
        #![trigger occ(s, i)]
        occ(s, i) && i != r ==> occ(s, par(s, i)) && d[i] == d[par(s, i)] + 1
}

/// Parent and child links agree and name live nodes by their exact ids.
pub open spec fn links_wf(s: Seq<Slot>, r: int) -> bool {
    &&& forall|i: int|
        #![trigger occ(s, i)]
        occ(s, i) ==> {
            &&& nd(s, i).id.component_index == i
            &&& nd(s, i).id.generation == s[i].generation
            &&& nd(s, i).children@.no_duplicates()
        }
    &&& forall|i: int|
        #![trigger occ(s, i)]
        occ(s, i) && i != r ==> {
            &&& resolves(s, nd(s, i).parent)
            &&& nd(s, par(s, i)).children@.contains(nd(s, i).id)
            &&& nd(s, i).id.widget_column != NONE
        }
    &&& forall|i: int, j: int|
        #![trigger nd(s, i).children@[j]]
        occ(s, i) && 0 <= j < nd(s, i).children@.len() ==> {
            &&& resolves(s, nd(s, i).children@[j])
            &&& nd(s, nd(s, i).children@[j].component_index as int).parent == nd(s, i).id
            &&& nd(s, i).children@[j].component_index != r
        }
}

/// The free list names distinct empty slots.
pub open spec fn free_wf(s: Seq<Slot>, free: Seq<u64>) -> bool {
    &&& free.no_duplicates()
    &&& forall|j: int|
        #![trigger free[j]]
        0 <= j < free.len() ==> free[j] < s.len() && s[free[j] as int].node is None
}

/// A slot that is empty, at the last generation, and off the free list is
/// closed for good: nothing is ever put in it again.
pub open spec fn closed(s: Seq<Slot>, free: Seq<u64>, i: int) -> bool {
    &&& 0 <= i < s.len()
    &&& s[i].node is None
    &&& s[i].generation == NONE
    &&& !free.contains(i as u64)
}

/// `id` can never resolve again: its slot has moved to a later generation,
/// or is closed.
pub open spec fn retired(s: Seq<Slot>, free: Seq<u64>, id: NodeId) -> bool {
    &&& id.component_index < s.len()
    &&& (id.generation < s[id.component_index as int].generation || closed(
        s,
        free,
        id.component_index as int,
    ))
}

/// The generation a slot moves to when it is freed: one more, except that
/// the last generation stays, and its slot is closed.
pub open spec fn bumped(g: u64) -> u64 {
    if g < NONE {
        (g + 1) as u64
    } else {
        g
    }
}

// ── lemmas on the shape ──────────────────────────────────────────────────────

proof fn lemma_anc_add(s: Seq<Slot>, n: int, k1: nat, k2: nat)
    ensures
        anc(s, n, k1 + k2) == anc(s, anc(s, n, k1), k2),
    decreases k2,
{
    if k2 > 0 {
        lemma_anc_add(s, n, k1, (k2 - 1) as nat);
        assert(anc(s, n, k1 + k2) == par(s, anc(s, n, (k1 + k2 - 1) as nat)));
    }
}

proof fn lemma_anc_depth(s: Seq<Slot>, d: Map<int, nat>, r: int, n: int, k: nat)
    requires
        shape_wf(s, d, r),
        occ(s, n),
        k <= d[n],
    ensures
        occ(s, anc(s, n, k)),
        d[anc(s, n, k)] == d[n] - k,
    decreases k,
{
    if k > 0 {
        lemma_anc_depth(s, d, r, n, (k - 1) as nat);
        let m = anc(s, n, (k - 1) as nat);
        assert(occ(s, m));
        assert(m != r);
    }
}

proof fn lemma_desc_refl(s: Seq<Slot>, d: Map<int, nat>, n: int)
    requires
        occ(s, n),
    ensures
        is_desc(s, d, n, n),
{
}

proof fn lemma_desc_trans(s: Seq<Slot>, d: Map<int, nat>, r: int, n: int, m: int, a: int)
    requires
        shape_wf(s, d, r),
        is_desc(s, d, n, m),
        is_desc(s, d, m, a),
    ensures
        is_desc(s, d, n, a),
{
    let k1 = (d[n] - d[m]) as nat;
    let k2 = (d[m] - d[a]) as nat;
    lemma_anc_add(s, n, k1, k2);
    assert((d[n] - d[a]) as nat == k1 + k2);
}

/// A child lies in its parent's subtree.
proof fn lemma_child_desc(s: Seq<Slot>, d: Map<int, nat>, r: int, c: int)
    requires
        shape_wf(s, d, r),
        occ(s, c),
        c != r,
    ensures
        is_desc(s, d, c, par(s, c)),
{
    assert(anc(s, c, 1) == par(s, anc(s, c, 0)));
}

/// Going up one step from a strict descendant stays in the subtree.
proof fn lemma_desc_step(s: Seq<Slot>, d: Map<int, nat>, r: int, n: int, a: int)
    requires
        shape_wf(s, d, r),
        is_desc(s, d, n, a),
        n != a,
    ensures
        n != r,
        is_desc(s, d, par(s, n), a),
        d[n] > d[a],
{
    let k = (d[n] - d[a]) as nat;
    assert(k > 0);
    assert(n != r);
    lemma_anc_add(s, n, 1, (k - 1) as nat);
    assert(anc(s, n, 1) == par(s, anc(s, n, 0)));
    assert(occ(s, par(s, n)));
}

/// Two nodes of one depth are in each other's subtree only if they are one.
proof fn lemma_desc_same_depth(s: Seq<Slot>, d: Map<int, nat>, n: int, a: int)
    requires
        is_desc(s, d, n, a),
        d[n] == d[a],
    ensures
        n == a,
{
}

/// A strict descendant of `p` lies under one of `p`'s children.
proof fn lemma_desc_via_child(s: Seq<Slot>, d: Map<int, nat>, r: int, n: int, p: int) -> (c: int)
    requires
        shape_wf(s, d, r),
        links_wf(s, r),
        is_desc(s, d, n, p),
        n != p,
    ensures
        occ(s, c),
        c != r,
        par(s, c) == p,
        is_desc(s, d, n, c),
        nd(s, p).children@.contains(nd(s, c).id),
{
    let k = (d[n] - d[p]) as nat;
    assert(k > 0) by {
        if k == 0 {
            assert(anc(s, n, 0) == n);
        }
    }
    let c = anc(s, n, (k - 1) as nat);
    lemma_anc_depth(s, d, r, n, (k - 1) as nat);
    assert(anc(s, n, k) == par(s, anc(s, n, (k - 1) as nat)));
    assert(c != r);
    assert(occ(s, c));
    c
}



// ── removal of a subtree ─────────────────────────────────────────────────────

/// What a subtree removal keeps true while it runs, in terms of the tree as
/// it was (`s`, `d`): every freed slot is in the subtree of `a`, every
/// pending node is an unfreed node of it, no pending node lies under
/// another, and every unfreed node of the subtree lies under a pending one.
pub open spec fn removal_inv(s: Seq<Slot>, d: Map<int, nat>, a: int, pending: Seq<NodeId>, freed: Set<int>) -> bool {
    &&& forall|f: int| #[trigger] freed.contains(f) ==> is_desc(s, d, f, a)
    &&& forall|f: int| #[trigger] freed.contains(f) && f != a ==> freed.contains(par(s, f))
    &&& forall|j: int|
        #![trigger pending[j]]
        0 <= j < pending.len() ==> {
            &&& is_desc(s, d, pending[j].component_index as int, a)
            &&& !freed.contains(pending[j].component_index as int)
            &&& resolves(s, pending[j])
            &&& (pending[j].component_index as int == a || freed.contains(par(s, pending[j].component_index as int)))
        }
    &&& forall|j1: int, j2: int|
        #![trigger pending[j1], pending[j2]]
        0 <= j1 < pending.len() && 0 <= j2 < pending.len() && j1 != j2 ==> !is_desc(
            s,
            d,
            pending[j1].component_index as int,
            pending[j2].component_index as int,
        )
    &&& forall|n: int|
        #![trigger is_desc(s, d, n, a)]
        is_desc(s, d, n, a) && !freed.contains(n) ==> exists|j: int|
            0 <= j < pending.len() && #[trigger] is_desc(s, d, n, pending[j].component_index as int)
}

proof fn lemma_removal_start(s: Seq<Slot>, d: Map<int, nat>, r: int, id: NodeId)
    requires
        shape_wf(s, d, r),
        resolves(s, id),
    ensures
        removal_inv(s, d, id.component_index as int, seq![id], Set::empty()),
{
    let a = id.component_index as int;
    let pending = seq![id];
    assert(pending[0] == id);
    lemma_desc_refl(s, d, a);
    assert forall|n: int| #![trigger is_desc(s, d, n, a)] is_desc(s, d, n, a) && !Set::<int>::empty().contains(n) implies exists|j: int|
        0 <= j < pending.len() && #[trigger] is_desc(s, d, n, pending[j].component_index as int) by {
        assert(is_desc(s, d, n, pending[0].component_index as int));
    }
}

/// One step: free the last pending node and make its children pending.
#[verifier::spinoff_prover]
#[verifier::rlimit(60)]
proof fn lemma_removal_step(s: Seq<Slot>, d: Map<int, nat>, r: int, a: int, pending: Seq<NodeId>, freed: Set<int>)
    requires
        shape_wf(s, d, r),
        links_wf(s, r),
        removal_inv(s, d, a, pending, freed),
        pending.len() > 0,
    ensures
        ({
            let p = pending.last();
            let pi = p.component_index as int;
            &&& is_desc(s, d, pi, a)
            &&& !freed.contains(pi)
            &&& resolves(s, p)
            &&& removal_inv(s, d, a, pending.drop_last() + nd(s, pi).children@, freed.insert(pi))
        }),
{
    let last = pending.len() - 1;
    let p = pending[last];
    let pi = p.component_index as int;
    let kids = nd(s, pi).children@;
    let rest = pending.drop_last();
    let np = rest + kids;
    let nf = freed.insert(pi);
    assert(pending[last] == p);
    assert(occ(s, pi));
    // the children of p: in the subtree, unfreed, pending-ready
    assert forall|jc: int| #![trigger kids[jc]] 0 <= jc < kids.len() implies {
        let c = kids[jc].component_index as int;
        &&& occ(s, c)
        &&& c != r
        &&& par(s, c) == pi
        &&& is_desc(s, d, c, pi)
        &&& is_desc(s, d, c, a)
        &&& !nf.contains(c)
        &&& resolves(s, kids[jc])
    } by {
        let k = kids[jc];
        let c = k.component_index as int;
        assert(resolves(s, nd(s, pi).children@[jc]));
        assert(nd(s, c).parent == nd(s, pi).id);
        assert(nd(s, pi).id == p);
        lemma_child_desc(s, d, r, c);
        lemma_desc_trans(s, d, r, c, pi, a);
        assert(c != pi);
        if freed.contains(c) {
            if c == a {
                lemma_desc_step(s, d, r, pi, a) ;
            } else {
                assert(freed.contains(par(s, c)));
            }
        }
    }
    // the rest of the pending nodes stay pending
    assert forall|j: int| 0 <= j < rest.len() implies !nf.contains(#[trigger] rest[j].component_index as int) by {
        assert(rest[j] == pending[j]);
        if rest[j].component_index as int == pi {
            lemma_desc_refl(s, d, pi);
            assert(is_desc(s, d, pending[j].component_index as int, pending[last].component_index as int));
        }
    }
    assert forall|j: int|
        #![trigger np[j]]
        0 <= j < np.len() implies {
            &&& is_desc(s, d, np[j].component_index as int, a)
            &&& !nf.contains(np[j].component_index as int)
            &&& resolves(s, np[j])
            &&& (np[j].component_index as int == a || nf.contains(par(s, np[j].component_index as int)))
        } by {
        if j < rest.len() {
            assert(np[j] == pending[j]);
            assert(!nf.contains(rest[j].component_index as int));
        } else {
            assert(np[j] == kids[j - rest.len()]);
        }
    }
    assert forall|j1: int, j2: int|
        #![trigger np[j1], np[j2]]
        0 <= j1 < np.len() && 0 <= j2 < np.len() && j1 != j2 implies !is_desc(
            s,
            d,
            np[j1].component_index as int,
            np[j2].component_index as int,
        ) by {
        let x = np[j1].component_index as int;
        let y = np[j2].component_index as int;
        if j1 < rest.len() && j2 < rest.len() {
            assert(np[j1] == pending[j1] && np[j2] == pending[j2]);
        } else if j1 >= rest.len() && j2 >= rest.len() {
            // siblings
            assert(np[j1] == kids[j1 - rest.len()] && np[j2] == kids[j2 - rest.len()]);
            if is_desc(s, d, x, y) {
                assert(d[x] == d[pi] + 1 && d[y] == d[pi] + 1);
                lemma_desc_same_depth(s, d, x, y);
                assert(resolves(s, np[j1]) && resolves(s, np[j2]));
                assert(kids.no_duplicates());
            }
        } else if j1 < rest.len() {
            // x pending, y a child of p
            assert(np[j1] == pending[j1]);
            assert(np[j2] == kids[j2 - rest.len()]);
            if is_desc(s, d, x, y) {
                lemma_desc_trans(s, d, r, x, y, pi);
                assert(is_desc(s, d, pending[j1].component_index as int, pending[last].component_index as int));
            }
        } else {
            // x a child of p, y pending
            assert(np[j1] == kids[j1 - rest.len()]);
            assert(np[j2] == pending[j2]);
            if is_desc(s, d, x, y) {
                if x == y {
                    assert(is_desc(s, d, pending[j2].component_index as int, pending[last].component_index as int));
                } else {
                    lemma_desc_step(s, d, r, x, y);
                    assert(is_desc(s, d, pending[last].component_index as int, pending[j2].component_index as int));
                }
            }
        }
    }
    assert forall|n: int|
        #![trigger is_desc(s, d, n, a)]
        is_desc(s, d, n, a) && !nf.contains(n) implies exists|j: int|
            0 <= j < np.len() && #[trigger] is_desc(s, d, n, np[j].component_index as int) by {
        let j = choose|j: int| 0 <= j < pending.len() && #[trigger] is_desc(s, d, n, pending[j].component_index as int);
        if j < last {
            assert(np[j] == pending[j]);
            assert(is_desc(s, d, n, np[j].component_index as int));
        } else {
            assert(n != pi);
            let c = lemma_desc_via_child(s, d, r, n, pi);
            let jc = choose|jc: int| 0 <= jc < kids.len() && kids[jc] == nd(s, c).id;
            assert(np[rest.len() + jc] == kids[jc]);
            assert(occ(s, c));
            assert(nd(s, c).id.component_index == c);
            assert(is_desc(s, d, n, np[rest.len() + jc].component_index as int));
        }
    }
    assert forall|f: int| #[trigger] nf.contains(f) && f != a implies nf.contains(par(s, f)) by {
        if f == pi {
            assert(pending[last].component_index as int == a || freed.contains(par(s, pending[last].component_index as int)));
        }
    }
}

/// What is left after a whole subtree is freed and its root unlinked is a
/// tree again.
proof fn lemma_removed_wf(s: Seq<Slot>, d: Map<int, nat>, r: int, a: int, t: Seq<Slot>, pos: int)
    requires
        shape_wf(s, d, r),
        links_wf(s, r),
        occ(s, a),
        a != r,
        t.len() == s.len(),
        forall|i: int| is_desc(s, d, i, a) ==> #[trigger] t[i].node is None,
        forall|i: int| 0 <= i < s.len() && !is_desc(s, d, i, a) && i != par(s, a) ==> #[trigger] t[i] == s[i],
        t[par(s, a)].generation == s[par(s, a)].generation,
        t[par(s, a)].node is Some,
        nd(t, par(s, a)).id == nd(s, par(s, a)).id,
        nd(t, par(s, a)).parent == nd(s, par(s, a)).parent,
        0 <= pos < nd(s, par(s, a)).children@.len(),
        nd(s, par(s, a)).children@[pos] == nd(s, a).id,
        nd(t, par(s, a)).children@ == nd(s, par(s, a)).children@.remove(pos),
    ensures
        shape_wf(t, d, r),
        links_wf(t, r),
        forall|i: int| 0 <= i < s.len() ==> (occ(t, i) <==> occ(s, i) && !is_desc(s, d, i, a)),
{
    let pa = par(s, a);
    lemma_desc_refl(s, d, a);
    assert(occ(s, pa));
    assert(!is_desc(s, d, pa, a)) by {
        if is_desc(s, d, pa, a) {
            lemma_child_desc(s, d, r, a);
            assert(d[pa] < d[a]);
        }
    }
    assert(!is_desc(s, d, r, a)) by {
        if is_desc(s, d, r, a) {
            assert(d[a] > 0);
        }
    }
    assert forall|i: int| 0 <= i < s.len() implies (occ(t, i) <==> occ(s, i) && !is_desc(s, d, i, a)) by {
        if i != pa && !is_desc(s, d, i, a) {
            assert(t[i] == s[i]);
        }
    }
    // a node outside the subtree has its parent outside it too
    assert forall|i: int| occ(s, i) && i != r && !is_desc(s, d, i, a) implies !is_desc(s, d, #[trigger] par(s, i), a) by {
        if is_desc(s, d, par(s, i), a) {
            lemma_child_desc(s, d, r, i);
            lemma_desc_trans(s, d, r, i, par(s, i), a);
        }
    }
    assert forall|i: int| #[trigger] occ(t, i) implies par(t, i) == par(s, i) && nd(t, i).id == nd(s, i).id && occ(s, i) && !is_desc(s, d, i, a) by {
        if i != pa {
            assert(t[i] == s[i]);
        }
    }
    assert(shape_wf(t, d, r)) by {
        assert forall|i: int| #![trigger occ(t, i)] occ(t, i) && i != r implies occ(t, par(t, i)) && d[i] == d[par(t, i)] + 1 by {
            assert(occ(s, i));
        }
        assert(occ(t, r));
    }
    let old_kids = nd(s, pa).children@;
    let new_kids = nd(t, pa).children@;
    assert forall|j: int| 0 <= j < new_kids.len() implies #[trigger] new_kids[j] == old_kids[if j < pos { j } else { j + 1 }] by {}
    assert(new_kids.no_duplicates()) by {
        assert forall|j1: int, j2: int| 0 <= j1 < new_kids.len() && 0 <= j2 < new_kids.len() && j1 != j2 implies new_kids[j1] != new_kids[j2] by {
            let k1 = if j1 < pos { j1 } else { j1 + 1 };
            let k2 = if j2 < pos { j2 } else { j2 + 1 };
            assert(new_kids[j1] == old_kids[k1]);
            assert(new_kids[j2] == old_kids[k2]);
        }
    }
    assert forall|i: int| #![trigger occ(t, i)] occ(t, i) implies {
        &&& nd(t, i).id.component_index == i
        &&& nd(t, i).id.generation == t[i].generation
        &&& nd(t, i).children@.no_duplicates()
    } by {
        assert(occ(s, i));
        if i != pa {
            assert(t[i] == s[i]);
        }
    }
    assert forall|i: int| #![trigger occ(t, i)] occ(t, i) && i != r implies {
        &&& resolves(t, nd(t, i).parent)
        &&& nd(t, par(t, i)).children@.contains(nd(t, i).id)
        &&& nd(t, i).id.widget_column != NONE
    } by {
        assert(occ(s, i));
        let q = par(s, i);
        assert(!is_desc(s, d, q, a));
        assert(occ(s, q));
        if q != pa {
            assert(t[q] == s[q]);
        }
        if i != pa {
            assert(t[i] == s[i]);
        }
        assert(resolves(s, nd(s, i).parent));
        if q == pa {
            let j = choose|j: int| 0 <= j < old_kids.len() && old_kids[j] == nd(s, i).id;
            assert(i != a);
            assert(nd(s, a).id.component_index == a);
            assert(j != pos);
            let jn = if j < pos { j } else { j - 1 };
            assert(new_kids[jn] == old_kids[j]);
        }
    }
    assert forall|i: int, j: int|
        #![trigger nd(t, i).children@[j]]
        occ(t, i) && 0 <= j < nd(t, i).children@.len() implies {
            &&& resolves(t, nd(t, i).children@[j])
            &&& nd(t, nd(t, i).children@[j].component_index as int).parent == nd(t, i).id
            &&& nd(t, i).children@[j].component_index != r
        } by {
        assert(occ(s, i));
        let jo = if i == pa { if j < pos { j } else { j + 1 } } else { j };
        if i != pa {
            assert(t[i] == s[i]);
        }
        assert(nd(t, i).children@[j] == nd(s, i).children@[jo]);
        let c = nd(s, i).children@[jo];
        let ci = c.component_index as int;
        assert(resolves(s, c));
        assert(nd(s, ci).parent == nd(s, i).id);
        assert(occ(s, ci));
        assert(ci != r);
        assert(par(s, ci) == i);
        assert(!is_desc(s, d, ci, a)) by {
            if is_desc(s, d, ci, a) {
                if ci == a {
                    assert(i == pa);
                    assert(c == nd(s, a).id);
                    assert(old_kids[pos] == nd(s, a).id);
                    assert(jo != pos);
                    assert(old_kids.no_duplicates());
                } else {
                    lemma_desc_step(s, d, r, ci, a);
                }
            }
        }
        if ci != pa {
            assert(t[ci] == s[ci]);
        }
    }
}

// ── the tree ─────────────────────────────────────────────────────────────────

/// Slot arena of nodes with a fixed root.
pub struct Tree {
    slots: Vec<Slot>,
    free: Vec<u64>,
    root: NodeId,
    depth: Ghost<Map<int, nat>>,
}

impl Tree {
    /// The slots, as a model.
    pub closed spec fn slots(&self) -> Seq<Slot> {
        self.slots@
    }

    /// The free list, last freed last.
    pub closed spec fn free_list(&self) -> Seq<u64> {
        self.free@
    }

    /// How deep each node sits below the root.
    pub closed spec fn depths(&self) -> Map<int, nat> {
        self.depth@
    }

    pub closed spec fn spec_root(&self) -> NodeId {
        self.root
    }

    /// The tree's invariant: a rooted tree whose links agree.
    pub closed spec fn wf(&self) -> bool {
        &&& self.slots@.len() < NONE
        &&& shape_wf(self.slots@, self.depth@, self.root.component_index as int)
        &&& links_wf(self.slots@, self.root.component_index as int)
        &&& free_wf(self.slots@, self.free@)
        &&& resolves(self.slots@, self.root)
        &&& nd(self.slots@, self.root.component_index as int).parent == self.root
        &&& self.root.widget_column == NONE
        &&& self.root.widget_index == NONE
    }

    /// How deep the node `id` names sits below the root.
    pub open spec fn depth_of(&self, id: NodeId) -> nat {
        self.depths()[id.component_index as int]
    }

    pub open spec fn is_live(&self, id: NodeId) -> bool {
        live(self.slots(), id)
    }

    pub open spec fn node(&self, id: NodeId) -> Node {
        nd(self.slots(), id.component_index as int)
    }

    /// The subtree of `a`, as slot indices.
    pub open spec fn in_subtree(&self, n: int, a: int) -> bool {
        is_desc(self.slots(), self.depths(), n, a)
    }

    /// A tree holding only the root, in slot 0 at generation 0.
    pub fn new() -> (t: Self)
        ensures
            t.wf(),
            t.spec_root() == NodeId::new_spec(NONE, NONE, 0, 0),
            t.slots().len() == 1,
            t.free_list().len() == 0,
            t.is_live(t.spec_root()),
            t.node(t.spec_root()).id == t.spec_root(),
            t.node(t.spec_root()).parent == t.spec_root(),
            t.node(t.spec_root()).children@.len() == 0,
    {
        let root = NodeId::new(NONE, NONE, 0, 0);
        let mut slots: Vec<Slot> = Vec::new();
        slots.push(Slot { generation: 0, node: Some(Node { id: root, parent: root, children: Vec::new() }) });
        let t = Tree { slots, free: Vec::new(), root, depth: Ghost(Map::empty().insert(0int, 0nat)) };
        assert(occ(t.slots@, 0));
        t
    }

    /// The root of a well-formed tree is always live, is named by its own
    /// id, and is its own parent.
    pub proof fn lemma_root_resolves(&self)
        requires
            self.wf(),
        ensures
            self.is_live(self.spec_root()),
            self.node(self.spec_root()).id == self.spec_root(),
            self.node(self.spec_root()).parent == self.spec_root(),
    {
    }

    /// The root: always live, the only node whose parent is itself.
    pub fn root(&self) -> (r: NodeId)
        ensures
            r == self.spec_root(),
    {
        self.root
    }

    /// How many slots the arena has, empty ones included.
    pub fn slot_count(&self) -> (n: usize)
        ensures
            n == self.slots().len(),
    {
        self.slots.len()
    }

    /// The node `id` names. `None` if `id` is stale: its slot is empty, of
    /// another generation, or beyond the arena.
    pub fn get(&self, id: NodeId) -> (r: Option<&Node>)
        ensures
            r is Some <==> self.is_live(id),
            r is Some ==> *r.unwrap() == self.node(id),
    {
        if id.component_index >= self.slots.len() as u64 {
            return None;
        }
        let slot = &self.slots[id.component_index as usize];
        if slot.generation != id.generation {
            return None;
        }
        slot.node.as_ref()
    }

    /// `None` if `id` is stale. The root's parent is the root.
    pub fn parent(&self, id: NodeId) -> (r: Option<NodeId>)
        ensures
            r is Some <==> self.is_live(id),
            r is Some ==> r.unwrap() == self.node(id).parent,
    {
        match self.get(id) {
            Some(n) => Some(n.parent),
            None => None,
        }
    }

    /// In sibling order. `None` if `id` is stale.
    pub fn children(&self, id: NodeId) -> (r: Option<&[NodeId]>)
        ensures
            r is Some <==> self.is_live(id),
            r is Some ==> r.unwrap()@ == self.node(id).children@,
    {
        match self.get(id) {
            Some(n) => Some(n.children.as_slice()),
            None => None,
        }
    }

    /// Room for one more node: a freed slot to reuse, or space to grow.
    pub open spec fn can_grow(&self) -> bool {
        self.free_list().len() > 0 || self.slots().len() + 1 < NONE
    }

    /// The slot the next spawn takes: the last one freed, else a new one.
    pub open spec fn next_slot(&self) -> int {
        if self.free_list().len() > 0 {
            self.free_list().last() as int
        } else {
            self.slots().len() as int
        }
    }

    /// Add a node for the widget in slot `widget_index` of column
    /// `widget_column` as the last child of `parent`. `Err(Stale)`, with
    /// nothing changed, if `parent` is stale.
    pub fn spawn(&mut self, parent: NodeId, widget_column: u64, widget_index: u64) -> (r: Result<NodeId, Error>)
        requires
            old(self).wf(),
            old(self).can_grow(),
            widget_column != NONE,
        ensures
            final(self).wf(),
            final(self).spec_root() == old(self).spec_root(),
            !old(self).is_live(parent) ==> r == Err::<NodeId, Error>(Error::Stale) && final(self).slots() == old(self).slots()
                && final(self).free_list() == old(self).free_list(),
            old(self).is_live(parent) ==> r is Ok && {
                let id = r->Ok_0;
                let k = old(self).next_slot();
                let p = parent.component_index as int;
                &&& id.widget_column == widget_column
                &&& id.widget_index == widget_index
                &&& id.component_index == k
                &&& id.generation == (if k < old(self).slots().len() { old(self).slots()[k].generation } else { 0 })
                &&& final(self).is_live(id)
                &&& final(self).is_live(parent)
                &&& final(self).node(id).id == id
                &&& final(self).node(id).parent == old(self).node(parent).id
                &&& final(self).node(id).children@.len() == 0
                &&& final(self).node(parent).id == old(self).node(parent).id
                &&& final(self).node(parent).parent == old(self).node(parent).parent
                &&& final(self).node(parent).children@ == old(self).node(parent).children@.push(id)
                &&& final(self).slots().len() == (if k < old(self).slots().len() { old(self).slots().len() } else { old(self).slots().len() + 1 })
                &&& forall|i: int| 0 <= i < old(self).slots().len() && i != k && i != p ==> final(self).slots()[i] == old(self).slots()[i]
                &&& final(self).free_list() == (if k < old(self).slots().len() { old(self).free_list().drop_last() } else { old(self).free_list() })
                &&& !old(self).is_live(id)
            },
            forall|x: NodeId| retired(old(self).slots(), old(self).free_list(), x) ==> retired(final(self).slots(), final(self).free_list(), x),
    {
        let pid = match self.get(parent) {
            None => return Err(Error::Stale),
            Some(n) => n.id,
        };
        let ghost s0 = self.slots@;
        let ghost f0 = self.free@;
        let ghost d0 = self.depth@;
        let ghost r = self.root.component_index as int;
        let ghost pci = parent.component_index as int;
        let n0 = self.slots.len();
        assert(occ(s0, pci));
        let ci: u64;
        let generation: u64;
        if self.free.len() > 0 {
            let i = self.free.pop().unwrap();
            proof {
                assert(i == f0[f0.len() - 1]);
                assert(i < s0.len());
            }
            ci = i;
            generation = self.slots[i as usize].generation;
        } else {
            ci = self.slots.len() as u64;
            generation = 0;
            self.slots.push(Slot { generation: 0, node: None });
        }
        let ghost s1 = self.slots@;
        assert(ci < self.slots@.len());
        assert(!occ(s0, ci as int));
        assert(pci != ci as int);
        assert(forall|i: int| 0 <= i < s0.len() && i != ci ==> s1[i] == s0[i]);
        let id = NodeId::new(widget_column, widget_index, ci, generation);
        self.slots.set(ci as usize, Slot { generation, node: Some(Node { id, parent: pid, children: Vec::new() }) });
        assert(self.slots@[pci] == s0[pci]);
        let mut taken = Slot { generation: 0, node: None };
        self.slots.set_and_swap(parent.component_index as usize, &mut taken);
        assert(taken == s0[pci]);
        let Slot { generation: pgen, node: pnode } = taken;
        let mut pnode = pnode.unwrap();
        assert(pnode.children@ == nd(s0, pci).children@);
        pnode.children.push(id);
        self.slots.set(parent.component_index as usize, Slot { generation: pgen, node: Some(pnode) });
        self.depth = Ghost(self.depth@.insert(ci as int, (self.depth@[pci] + 1) as nat));
        proof {
            let s = self.slots@;
            let d = self.depth@;
            let k = ci as int;
            assert forall|i: int| i != k && occ(s0, i) implies occ(s, i) && par(s, i) == par(s0, i) && d[i] == d0[i]
                && nd(s, i).id == nd(s0, i).id by {}
            assert(occ(s0, pci));
            assert(occ(s, k) && par(s, k) == pci);
            assert forall|i: int| #![trigger occ(s, i)] occ(s, i) && i != r implies occ(s, par(s, i)) && d[i] == d[par(s, i)] + 1 by {
                if i != k {
                    assert(occ(s0, i));
                }
            }
            assert(shape_wf(s, d, r));
            assert forall|x: NodeId| resolves(s0, x) implies resolves(s, x) by {
                assert(occ(s0, x.component_index as int));
            }
            assert(resolves(s, id));
            assert(!nd(s0, pci).children@.contains(id)) by {
                if nd(s0, pci).children@.contains(id) {
                    let j = choose|j: int| 0 <= j < nd(s0, pci).children@.len() && nd(s0, pci).children@[j] == id;
                    assert(resolves(s0, nd(s0, pci).children@[j]));
                }
            }
            assert forall|i: int| #![trigger occ(s, i)] occ(s, i) implies {
                &&& nd(s, i).id.component_index == i
                &&& nd(s, i).id.generation == s[i].generation
                &&& nd(s, i).children@.no_duplicates()
            } by {
                if i != k {
                    assert(occ(s0, i));
                }
            }
            assert forall|i: int| #![trigger occ(s, i)] occ(s, i) && i != r implies {
                &&& resolves(s, nd(s, i).parent)
                &&& nd(s, par(s, i)).children@.contains(nd(s, i).id)
                &&& nd(s, i).id.widget_column != NONE
            } by {
                if i != k {
                    assert(occ(s0, i));
                    if par(s0, i) == pci {
                        assert(nd(s, pci).children@ == nd(s0, pci).children@.push(id));
                        let j = choose|j: int| 0 <= j < nd(s0, pci).children@.len() && nd(s0, pci).children@[j] == nd(s0, i).id;
                        assert(nd(s, pci).children@[j] == nd(s0, i).id);
                    }
                } else {
                    assert(nd(s, pci).children@.last() == id);
                }
            }
            assert forall|i: int, j: int|
                #![trigger nd(s, i).children@[j]]
                occ(s, i) && 0 <= j < nd(s, i).children@.len() implies {
                    &&& resolves(s, nd(s, i).children@[j])
                    &&& nd(s, nd(s, i).children@[j].component_index as int).parent == nd(s, i).id
                    &&& nd(s, i).children@[j].component_index != r
                } by {
                if i == pci {
                    if j < nd(s0, pci).children@.len() {
                        assert(nd(s, i).children@[j] == nd(s0, i).children@[j]);
                        assert(occ(s0, i));
                        let c = nd(s0, i).children@[j];
                        assert(resolves(s0, c));
                        assert(c.component_index as int != k);
                    }
                } else if i != k {
                    assert(occ(s0, i));
                    let c = nd(s0, i).children@[j];
                    assert(resolves(s0, c));
                    assert(c.component_index as int != k);
                }
            }
            assert(links_wf(s, r));
            assert forall|j: int| #![trigger self.free@[j]] 0 <= j < self.free@.len() implies self.free@[j] < s.len() && s[self.free@[j] as int].node is None by {
                if f0.len() > 0 {
                    assert(self.free@[j] == f0[j]);
                    assert(f0[j] != f0.last());
                }
            }
            assert(free_wf(s, self.free@));
            assert forall|x: NodeId| retired(s0, f0, x) implies retired(s, self.free@, x) by {
                let xi = x.component_index as int;
                if closed(s0, f0, xi) {
                    assert(xi != k) by {
                        if f0.len() > 0 {
                            assert(f0.contains(f0.last()));
                        }
                    }
                    assert(!self.free@.contains(xi as u64)) by {
                        if self.free@.contains(xi as u64) {
                            let j = choose|j: int| 0 <= j < self.free@.len() && self.free@[j] == xi as u64;
                            assert(f0[j] == xi as u64);
                        }
                    }
                }
            }
        }
        Ok(id)
    }

    /// Remove `id` and every node under it. Every id in the subtree is
    /// retired afterwards: it never resolves again, and its slot is reused
    /// by later spawns unless it has used up its generations. Returns the
    /// removed nodes' ids, `id` first. `Err(Root)` for the root,
    /// `Err(Stale)` for a stale id, with nothing changed.
    pub fn remove(&mut self, id: NodeId) -> (r: Result<Vec<NodeId>, Error>)
        requires
            old(self).wf(),
            old(self).is_live(id) ==> old(self).node(id).id == id,
        ensures
            final(self).wf(),
            final(self).spec_root() == old(self).spec_root(),
            final(self).slots().len() == old(self).slots().len(),
            id == old(self).spec_root() ==> r == Err::<Vec<NodeId>, Error>(Error::Root),
            id != old(self).spec_root() && !old(self).is_live(id) ==> r == Err::<Vec<NodeId>, Error>(Error::Stale),
            r is Err ==> final(self).slots() == old(self).slots() && final(self).free_list() == old(self).free_list(),
            id != old(self).spec_root() && old(self).is_live(id) ==> r is Ok && {
                let removed = r->Ok_0@;
                let s = old(self).slots();
                let d = old(self).depths();
                let a = id.component_index as int;
                let pa = par(s, a);
                &&& removed.no_duplicates()
                &&& removed.len() > 0 && removed[0] == id
                &&& forall|k: int| #![trigger removed[k]] 0 <= k < removed.len() ==> is_desc(s, d, removed[k].component_index as int, a)
                    && removed[k] == nd(s, removed[k].component_index as int).id
                &&& forall|i: int| #[trigger] is_desc(s, d, i, a) ==> exists|k: int| 0 <= k < removed.len() && #[trigger] removed[k].component_index == i
                &&& forall|i: int| 0 <= i < s.len() ==> (occ(final(self).slots(), i) <==> occ(s, i) && !is_desc(s, d, i, a))
                &&& forall|i: int| 0 <= i < s.len() && !is_desc(s, d, i, a) && i != pa ==> #[trigger] final(self).slots()[i] == s[i]
                &&& final(self).slots()[pa].generation == s[pa].generation
                &&& nd(final(self).slots(), pa).id == nd(s, pa).id
                &&& nd(final(self).slots(), pa).parent == nd(s, pa).parent
                &&& exists|pos: int| 0 <= pos < nd(s, pa).children@.len() && nd(s, pa).children@[pos] == id
                    && nd(final(self).slots(), pa).children@ == nd(s, pa).children@.remove(pos)
                &&& forall|i: int| #[trigger] is_desc(s, d, i, a) ==> retired(final(self).slots(), final(self).free_list(), nd(s, i).id)
            },
            forall|x: NodeId| retired(old(self).slots(), old(self).free_list(), x) ==> retired(final(self).slots(), final(self).free_list(), x),
    {
        if id == self.root {
            return Err(Error::Root);
        }
        let pid = match self.get(id) {
            None => return Err(Error::Stale),
            Some(n) => n.parent,
        };
        let ghost s0 = self.slots@;
        let ghost f0 = self.free@;
        let ghost d0 = self.depth@;
        let ghost r = self.root.component_index as int;
        let ghost a = id.component_index as int;
        let ghost pa = par(s0, a);
        proof {
            assert(occ(s0, a));
            assert(a != r);
            assert(resolves(s0, pid));
            assert(occ(s0, pa));
            lemma_desc_refl(s0, d0, a);
        }
        let n0 = self.slots.len();
        assert(pid.component_index < n0);
        let pu = pid.component_index as usize;
        assert(pu as int == pa);
        // unlink `id` from its parent
        let mut taken = Slot { generation: 0, node: None };
        self.slots.set_and_swap(pu, &mut taken);
        assert(taken == s0[pa]);
        let Slot { generation: pgen, node: pnode } = taken;
        let mut pnode = pnode.unwrap();
        assert(pnode.children@ == nd(s0, pa).children@);
        let ghost kids0 = pnode.children@;
        assert(kids0.contains(id));
        let mut pos: usize = 0;
        while pos < pnode.children.len()
            invariant
                pnode.children@ == kids0,
                kids0.contains(id),
                0 <= pos <= kids0.len(),
                forall|j: int| 0 <= j < pos ==> kids0[j] != id,
            ensures
                pos < kids0.len() && kids0[pos as int] == id,
            decreases kids0.len() - pos,
        {
            if pnode.children[pos] == id {
                break;
            }
            pos += 1;
        }
        pnode.children.remove(pos);
        self.slots.set(pu, Slot { generation: pgen, node: Some(pnode) });
        let ghost s1 = self.slots@;
        proof {
            assert(!is_desc(s0, d0, pa, a)) by {
                if is_desc(s0, d0, pa, a) {
                    lemma_child_desc(s0, d0, r, a);
                }
            }
            lemma_removal_start(s0, d0, r, id);
            vstd::set_lib::lemma_int_range(0, s0.len() as int);
        }
        // free the subtree: a node is freed after its parent, and before
        // its children, which become pending in its place
        let mut pending: Vec<NodeId> = Vec::new();
        pending.push(id);
        let mut removed: Vec<NodeId> = Vec::new();
        let ghost mut freed: Set<int> = Set::empty();
        while pending.len() > 0
            invariant
                shape_wf(s0, d0, r),
                links_wf(s0, r),
                free_wf(s0, f0),
                s0.len() < NONE,
                occ(s0, a),
                a != r,
                pa == par(s0, a),
                !is_desc(s0, d0, pa, a),
                removal_inv(s0, d0, a, pending@, freed),
                freed.finite(),
                freed.subset_of(vstd::set_lib::set_int_range(0, s0.len() as int)),
                vstd::set_lib::set_int_range(0, s0.len() as int).finite(),
                vstd::set_lib::set_int_range(0, s0.len() as int).len() == s0.len(),
                self.slots@.len() == s0.len(),
                self.slots@[pa] == s1[pa],
                forall|i: int| 0 <= i < s0.len() && !freed.contains(i) && i != pa ==> #[trigger] self.slots@[i] == s0[i],
                forall|i: int| #[trigger] freed.contains(i) ==> self.slots@[i].node is None
                    && self.slots@[i].generation == bumped(s0[i].generation),
                self.free@.len() >= f0.len(),
                forall|j: int| #![trigger self.free@[j]] 0 <= j < self.free@.len() ==> {
                    &&& (j < f0.len() ==> self.free@[j] == f0[j])
                    &&& (j >= f0.len() ==> freed.contains(self.free@[j] as int) && s0[self.free@[j] as int].generation < NONE)
                },
                self.free@.no_duplicates(),
                forall|f: int| #[trigger] freed.contains(f) && s0[f].generation < NONE ==> self.free@.contains(f as u64),
                removed@.len() > 0 ==> removed@[0] == id,
                removed@.len() == 0 ==> pending@ == seq![id] && freed.is_empty(),
                removed@.no_duplicates(),
                forall|k: int| #![trigger removed@[k]] 0 <= k < removed@.len() ==> freed.contains(removed@[k].component_index as int)
                    && removed@[k] == nd(s0, removed@[k].component_index as int).id,
                forall|f: int| #[trigger] freed.contains(f) ==> exists|k: int| 0 <= k < removed@.len() && #[trigger] removed@[k].component_index == f,
                self.root == old(self).root,
                self.depth@ == d0,
            decreases s0.len() - freed.len(),
        {
            let ghost pend = pending@;
            proof {
                lemma_removal_step(s0, d0, r, a, pend, freed);
            }
            let current = pending.pop().unwrap();
            let ghost c = current.component_index as int;
            proof {
                assert(current == pend.last());
                assert(resolves(s0, current));
            }
            let nn = self.slots.len();
            assert(current.component_index < nn);
            let cu = current.component_index as usize;
            proof {
                assert(cu as int == c);
                assert(current == pend.last());
                assert(!freed.contains(c));
                assert(c != pa);
                assert(occ(s0, c));
                assert(self.slots@[c] == s0[c]);
            }
            let mut slot = Slot { generation: 0, node: None };
            self.slots.set_and_swap(cu, &mut slot);
            assert(slot == s0[c]);
            let Slot { generation, node } = slot;
            let node = node.unwrap();
            let ghost fr0 = self.free@;
            if generation < NONE {
                self.slots.set(cu, Slot { generation: generation + 1, node: None });
                proof {
                    assert(!self.free@.contains(current.component_index)) by {
                        if self.free@.contains(current.component_index) {
                            let j = choose|j: int| 0 <= j < self.free@.len() && self.free@[j] == current.component_index;
                            if j < f0.len() {
                                assert(f0[j] == current.component_index);
                            }
                        }
                    }
                }
                self.free.push(current.component_index);
            } else {
                self.slots.set(cu, Slot { generation, node: None });
            }
            let Node { id: nid, parent: _, children } = node;
            proof {
                assert(nid == current);
                assert(!removed@.contains(current)) by {
                    if removed@.contains(current) {
                        let k = choose|k: int| 0 <= k < removed@.len() && removed@[k] == current;
                        assert(freed.contains(removed@[k].component_index as int));
                    }
                }
            }
            let ghost rem0 = removed@;
            removed.push(nid);
            let mut children = children;
            pending.append(&mut children);
            proof {
                let nf = freed.insert(c);
                assert(pending@ == pend.drop_last() + nd(s0, c).children@);
                assert forall|f: int| #[trigger] nf.contains(f) implies exists|k: int| 0 <= k < removed@.len() && #[trigger] removed@[k].component_index == f by {
                    if f == c {
                        assert(removed@[removed@.len() - 1].component_index == f);
                    } else {
                        assert(freed.contains(f));
                        let k = choose|k: int| 0 <= k < rem0.len() && #[trigger] rem0[k].component_index == f;
                        assert(removed@[k] == rem0[k]);
                        assert(removed@[k].component_index == f);
                    }
                }
                assert forall|k: int| #![trigger removed@[k]] 0 <= k < removed@.len() implies nf.contains(removed@[k].component_index as int)
                    && removed@[k] == nd(s0, removed@[k].component_index as int).id by {
                    if k < removed@.len() - 1 {
                    }
                }
                assert forall|j: int| #![trigger self.free@[j]] 0 <= j < self.free@.len() implies {
                    &&& (j < f0.len() ==> self.free@[j] == f0[j])
                    &&& (j >= f0.len() ==> nf.contains(self.free@[j] as int) && s0[self.free@[j] as int].generation < NONE)
                } by {
                }
                assert forall|f: int| #[trigger] nf.contains(f) && s0[f].generation < NONE implies self.free@.contains(f as u64) by {
                    if f == c {
                        assert(self.free@.last() == current.component_index);
                        assert(self.free@[self.free@.len() - 1] == f as u64);
                    } else {
                        assert(freed.contains(f));
                        assert(fr0.contains(f as u64));
                        let j = choose|j: int| 0 <= j < fr0.len() && fr0[j] == f as u64;
                        assert(self.free@[j] == fr0[j]);
                        assert(self.free@[j] == f as u64);
                    }
                }
                vstd::set_lib::lemma_len_subset(freed, vstd::set_lib::set_int_range(0, s0.len() as int));
                freed = nf;
                vstd::set_lib::lemma_len_subset(freed, vstd::set_lib::set_int_range(0, s0.len() as int));
            }
        }
        proof {
            let t = self.slots@;
            assert forall|i: int| is_desc(s0, d0, i, a) implies #[trigger] t[i].node is None by {
                if !freed.contains(i) {
                    let j = choose|j: int| 0 <= j < pending@.len() && #[trigger] is_desc(s0, d0, i, pending@[j].component_index as int);
                }
            }
            assert forall|i: int| 0 <= i < s0.len() && !is_desc(s0, d0, i, a) && i != pa implies #[trigger] t[i] == s0[i] by {
                if freed.contains(i) {
                }
            }
            lemma_removed_wf(s0, d0, r, a, t, pos as int);
            assert(free_wf(t, self.free@)) by {
                assert forall|j: int| #![trigger self.free@[j]] 0 <= j < self.free@.len() implies self.free@[j] < t.len() && t[self.free@[j] as int].node is None by {
                    if j < f0.len() {
                        let x = f0[j] as int;
                        assert(!occ(s0, x));
                        if x != pa && !freed.contains(x) {
                            assert(t[x] == s0[x]);
                        }
                    }
                }
            }
            assert(resolves(t, self.root)) by {
                assert(occ(s0, r));
                assert(!is_desc(s0, d0, r, a)) by {
                    if is_desc(s0, d0, r, a) {
                        assert(d0[a] > 0);
                    }
                }
                if r != pa {
                    assert(t[r] == s0[r]);
                }
            }
            assert forall|i: int| #[trigger] is_desc(s0, d0, i, a) implies retired(t, self.free@, nd(s0, i).id) by {
                if !freed.contains(i) {
                    let j = choose|j: int| 0 <= j < pending@.len() && #[trigger] is_desc(s0, d0, i, pending@[j].component_index as int);
                }
                assert(nd(s0, i).id.component_index == i);
                if s0[i].generation == NONE {
                    assert(!self.free@.contains(i as u64)) by {
                        if self.free@.contains(i as u64) {
                            let j = choose|j: int| 0 <= j < self.free@.len() && self.free@[j] == i as u64;
                            if j < f0.len() {
                                assert(f0[j] == i as u64);
                                assert(!occ(s0, i));
                            }
                        }
                    }
                }
            }
            assert forall|x: NodeId| retired(s0, f0, x) implies retired(t, self.free@, x) by {
                let xi = x.component_index as int;
                if freed.contains(xi) {
                } else if xi != pa {
                    assert(t[xi] == s0[xi]);
                    if closed(s0, f0, xi) {
                        assert(!self.free@.contains(xi as u64)) by {
                            if self.free@.contains(xi as u64) {
                                let j = choose|j: int| 0 <= j < self.free@.len() && self.free@[j] == xi as u64;
                                if j < f0.len() {
                                    assert(f0[j] == xi as u64);
                                }
                            }
                        }
                    }
                } else {
                    assert(occ(s0, pa));
                }
            }
            assert forall|i: int| #[trigger] is_desc(s0, d0, i, a) implies exists|k: int| 0 <= k < removed@.len() && #[trigger] removed@[k].component_index == i by {
                if !freed.contains(i) {
                    let j = choose|j: int| 0 <= j < pending@.len() && #[trigger] is_desc(s0, d0, i, pending@[j].component_index as int);
                }
            }
            assert forall|k: int| #![trigger removed@[k]] 0 <= k < removed@.len() implies is_desc(s0, d0, removed@[k].component_index as int, a)
                && removed@[k] == nd(s0, removed@[k].component_index as int).id by {
            }
        }
        Ok(removed)
    }

    /// Whether `id` names a live node.
    pub fn contains(&self, id: NodeId) -> (b: bool)
        ensures
            b == self.is_live(id),
    {
        self.get(id).is_some()
    }

    /// Every live node, in slot order, by the id it was given.
    pub fn live_ids(&self) -> (ids: Vec<NodeId>)
        requires
            self.wf(),
        ensures
            forall|k: int| 0 <= k < ids@.len() ==> #[trigger] resolves(self.slots(), ids@[k]),
            forall|i: int| occ(self.slots(), i) ==> #[trigger] ids@.contains(nd(self.slots(), i).id),
            forall|k1: int, k2: int| 0 <= k1 < k2 < ids@.len() ==> ids@[k1].component_index < ids@[k2].component_index,
    {
        let mut ids: Vec<NodeId> = Vec::new();
        let n = self.slots.len();
        let mut i: usize = 0;
        while i < n
            invariant
                self.wf(),
                n == self.slots@.len(),
                i <= n,
                forall|k: int| 0 <= k < ids@.len() ==> #[trigger] resolves(self.slots@, ids@[k]),
                forall|k: int| 0 <= k < ids@.len() ==> #[trigger] ids@[k].component_index < i,
                forall|j: int| 0 <= j < i && occ(self.slots@, j) ==> #[trigger] ids@.contains(nd(self.slots@, j).id),
                forall|k1: int, k2: int| 0 <= k1 < k2 < ids@.len() ==> ids@[k1].component_index < ids@[k2].component_index,
            decreases n - i,
        {
            match &self.slots[i].node {
                Some(node) => {
                    proof {
                        assert(occ(self.slots@, i as int));
                        assert(*node == nd(self.slots@, i as int));
                        assert(resolves(self.slots@, node.id));
                    }
                    let ghost before = ids@;
                    ids.push(node.id);
                    proof {
                        assert forall|k: int| 0 <= k < ids@.len() implies #[trigger] resolves(self.slots@, ids@[k]) && #[trigger] ids@[k].component_index < i + 1 by {
                            if k < before.len() {
                                assert(ids@[k] == before[k]);
                            } else {
                                assert(ids@[k] == node.id);
                                assert(node.id.component_index == i);
                            }
                        }
                        assert forall|k1: int, k2: int| 0 <= k1 < k2 < ids@.len() implies ids@[k1].component_index < ids@[k2].component_index by {
                            assert(ids@[k1] == before[k1]);
                            assert(resolves(self.slots@, before[k1]));
                            if k2 < before.len() {
                                assert(ids@[k2] == before[k2]);
                            } else {
                                assert(ids@[k2] == node.id);
                                assert(node.id.component_index == i);
                            }
                        }
                        assert forall|j: int| 0 <= j < i + 1 && occ(self.slots@, j) implies #[trigger] ids@.contains(nd(self.slots@, j).id) by {
                            if j < i {
                                assert(before.contains(nd(self.slots@, j).id));
                                let k = choose|k: int| 0 <= k < before.len() && before[k] == nd(self.slots@, j).id;
                                assert(ids@[k] == before[k]);
                            } else {
                                assert(ids@[before.len() as int] == nd(self.slots@, j).id);
                            }
                        }
                    }
                }
                None => {}
            }
            i += 1;
        }
        ids
    }
}


/// Going to the parent climbs one level, until the root, whose parent is
/// itself; what a walk up the tree terminates by.
pub proof fn lemma_parent_climbs(t: &Tree, id: NodeId)
    requires
        t.wf(),
        t.is_live(id),
    ensures
        resolves(t.slots(), t.node(id).parent),
        id.component_index == t.spec_root().component_index ==> t.node(id).parent == t.spec_root(),
        id.component_index != t.spec_root().component_index ==> t.depth_of(t.node(id).parent) + 1 == t.depth_of(id),
        t.depth_of(t.spec_root()) == 0,
        resolves(t.slots(), id) ==> t.node(id).id == id,
{
    assert(occ(t.slots(), id.component_index as int));
}

/// The id of a removed node never resolves again: a retired id is stale,
/// and (by the `ensures` of [`Tree::spawn`] and [`Tree::remove`]) stays
/// retired through every later spawn and removal.
pub proof fn lemma_retired_is_stale(t: &Tree, x: NodeId)
    requires
        t.wf(),
        retired(t.slots(), t.free_list(), x),
    ensures
        !t.is_live(x),
{
}

// ── walking a subtree ────────────────────────────────────────────────────────

/// The subtree of `id` in preorder, walking at most `k` levels: `id`, then
/// the subtree of each child in sibling order. A stale `id` is itself alone.
pub open spec fn pre_from(t: &Tree, id: NodeId, k: nat) -> Seq<NodeId>
    decreases k, 0nat,
{
    if k == 0 || !t.is_live(id) {
        seq![id]
    } else {
        seq![id] + pre_list(t, t.node(id).children@, (k - 1) as nat)
    }
}

/// The subtrees of `cs` in preorder, one after another.
pub open spec fn pre_list(t: &Tree, cs: Seq<NodeId>, k: nat) -> Seq<NodeId>
    decreases k, cs.len(),
{
    if cs.len() == 0 {
        Seq::empty()
    } else {
        pre_from(t, cs[0], k) + pre_list(t, cs.drop_first(), k)
    }
}

/// The subtree of `id` in preorder: `id`, then the subtree of each child,
/// in sibling order. A node's depth is less than the number of slots, so
/// the bound on levels never cuts a walk short.
pub open spec fn preorder(t: &Tree, id: NodeId) -> Seq<NodeId> {
    pre_from(t, id, (t.slots().len() - t.depth_of(id)) as nat)
}

/// The subtrees of `xs` in preorder, one after another.
pub open spec fn preorder_all(t: &Tree, xs: Seq<NodeId>) -> Seq<NodeId>
    decreases xs.len(),
{
    if xs.len() == 0 {
        Seq::empty()
    } else {
        preorder(t, xs[0]) + preorder_all(t, xs.drop_first())
    }
}

/// A node sits less deep than there are slots: its ancestors are that many
/// distinct occupied slots.
pub proof fn lemma_depth_below_slots(t: &Tree, id: NodeId)
    requires
        t.wf(),
        t.is_live(id),
    ensures
        t.depth_of(id) < t.slots().len(),
{
    let s = t.slots();
    let d = t.depths();
    let r = t.spec_root().component_index as int;
    let x = id.component_index as int;
    let n = d[x];
    assert(occ(s, x));
    let dom = set_int_range(0, (n + 1) as int);
    let f = |i: int| anc(s, x, i as nat);
    let img = dom.map(f);
    lemma_int_range(0, (n + 1) as int);
    assert forall|i: int, j: int| dom.contains(i) && dom.contains(j) && #[trigger] f(i) == #[trigger] f(j) implies i == j by {
        lemma_anc_depth(s, d, r, x, i as nat);
        lemma_anc_depth(s, d, r, x, j as nat);
    }
    assert(vstd::relations::injective_on(f, dom));
    lemma_map_size(dom, img, f);
    assert forall|y: int| img.contains(y) implies set_int_range(0, s.len() as int).contains(y) by {
        let i = choose|i: int| dom.contains(i) && f(i) == y;
        lemma_anc_depth(s, d, r, x, i as nat);
    }
    lemma_int_range(0, s.len() as int);
    lemma_len_subset(img, set_int_range(0, s.len() as int));
}

proof fn lemma_pre_list_is_all(t: &Tree, cs: Seq<NodeId>, k: nat)
    requires
        forall|i: int| 0 <= i < cs.len() ==> preorder(t, #[trigger] cs[i]) == pre_from(t, cs[i], k),
    ensures
        pre_list(t, cs, k) == preorder_all(t, cs),
    decreases cs.len(),
{
    if cs.len() > 0 {
        assert forall|i: int| 0 <= i < cs.drop_first().len() implies preorder(t, #[trigger] cs.drop_first()[i]) == pre_from(t, cs.drop_first()[i], k) by {
            assert(cs.drop_first()[i] == cs[i + 1]);
        }
        lemma_pre_list_is_all(t, cs.drop_first(), k);
    }
}

/// A live node's walk is the node, then its children's subtrees in order.
proof fn lemma_preorder_unfold(t: &Tree, id: NodeId)
    requires
        t.wf(),
        t.is_live(id),
    ensures
        preorder(t, id) == seq![id] + preorder_all(t, t.node(id).children@),
{
    let s = t.slots();
    let d = t.depths();
    let r = t.spec_root().component_index as int;
    let x = id.component_index as int;
    lemma_depth_below_slots(t, id);
    let k = (s.len() - d[x]) as nat;
    assert(k >= 1);
    let cs = t.node(id).children@;
    assert(occ(s, x));
    assert forall|i: int| 0 <= i < cs.len() implies preorder(t, #[trigger] cs[i]) == pre_from(t, cs[i], (k - 1) as nat) by {
        let c = cs[i];
        let y = c.component_index as int;
        assert(nd(s, x).children@[i] == c);
        assert(resolves(s, c));
        assert(occ(s, y));
        assert(y != r);
        assert(par(s, y) == x);
        assert(d[y] == d[x] + 1);
    }
    lemma_pre_list_is_all(t, cs, (k - 1) as nat);
}

proof fn lemma_preorder_all_concat(t: &Tree, a: Seq<NodeId>, b: Seq<NodeId>)
    ensures
        preorder_all(t, a + b) == preorder_all(t, a) + preorder_all(t, b),
    decreases a.len(),
{
    if a.len() == 0 {
        assert(a + b =~= b);
    } else {
        assert((a + b).drop_first() =~= a.drop_first() + b);
        lemma_preorder_all_concat(t, a.drop_first(), b);
        assert(preorder(t, a[0]) + preorder_all(t, a.drop_first()) + preorder_all(t, b)
            =~= preorder(t, a[0]) + (preorder_all(t, a.drop_first()) + preorder_all(t, b)));
    }
}

/// The children of a live node are live, name its node as their parent,
/// and sit one level below it.
pub proof fn lemma_children_of(t: &Tree, x: NodeId)
    requires
        t.wf(),
        t.is_live(x),
    ensures
        resolves(t.slots(), x) ==> t.node(x).id == x,
        forall|k: int| 0 <= k < t.node(x).children@.len() ==> resolves(t.slots(), #[trigger] t.node(x).children@[k])
            && t.node(t.node(x).children@[k]).parent == t.node(x).id
            && t.depth_of(t.node(x).children@[k]) == t.depth_of(x) + 1,
{
    let s = t.slots();
    let r = t.spec_root().component_index as int;
    let cs = t.node(x).children@;
    let xi = x.component_index as int;
    assert(occ(s, xi));
    assert forall|k: int| 0 <= k < cs.len() implies resolves(t.slots(), #[trigger] cs[k]) && t.node(cs[k]).parent == t.node(x).id
        && t.depth_of(cs[k]) == t.depth_of(x) + 1 by {
        let y = cs[k].component_index as int;
        assert(nd(s, xi).children@[k] == cs[k]);
        assert(occ(s, y));
        assert(y != r);
        assert(par(s, y) == xi);
        assert(nd(s, y).parent == nd(s, xi).id);
    }
}

/// How many levels a walk from `id` may still go down: what shrinks from a
/// node to its children.
spec fn room_below(t: &Tree, id: NodeId) -> nat {
    (t.slots().len() - t.depth_of(id)) as nat
}

proof fn lemma_walk_heads(t: &Tree, id: NodeId)
    requires
        t.wf(),
        t.is_live(id),
    ensures
        preorder(t, id).len() > 0,
        preorder(t, id)[0] == id,
{
    lemma_preorder_unfold(t, id);
}

proof fn lemma_children_walk_parent_first(t: &Tree, x: NodeId, cs: Seq<NodeId>, m: int)
    requires
        t.wf(),
        resolves(t.slots(), x),
        forall|k: int| 0 <= k < cs.len() ==> resolves(t.slots(), #[trigger] cs[k]) && t.node(cs[k]).parent == x
            && t.depth_of(cs[k]) == t.depth_of(x) + 1,
        0 <= m < preorder_all(t, cs).len(),
    ensures
        t.is_live(preorder_all(t, cs)[m]),
        t.node(preorder_all(t, cs)[m]).parent == x || exists|i: int|
            0 <= i < m && preorder_all(t, cs)[i] == t.node(preorder_all(t, cs)[m]).parent,
    decreases room_below(t, x), 0nat, cs.len(),
{
    lemma_depth_below_slots(t, x);
    let c = cs[0];
    let head = preorder(t, c);
    let rest = preorder_all(t, cs.drop_first());
    assert(preorder_all(t, cs) == head + rest);
    lemma_depth_below_slots(t, c);
    if m < head.len() {
        lemma_walk_heads(t, c);
        if m > 0 {
            lemma_walk_parent_first(t, c, m);
            let i = choose|i: int| 0 <= i < m && head[i] == t.node(head[m]).parent;
            assert(preorder_all(t, cs)[i] == head[i]);
        }
    } else {
        assert forall|k: int| 0 <= k < cs.drop_first().len() implies resolves(t.slots(), #[trigger] cs.drop_first()[k])
            && t.node(cs.drop_first()[k]).parent == x && t.depth_of(cs.drop_first()[k]) == t.depth_of(x) + 1 by {
            assert(cs.drop_first()[k] == cs[k + 1]);
        }
        let m2 = m - head.len();
        lemma_children_walk_parent_first(t, x, cs.drop_first(), m2);
        assert(preorder_all(t, cs)[m] == rest[m2]);
        if t.node(rest[m2]).parent != x {
            let i2 = choose|i: int| 0 <= i < m2 && rest[i] == t.node(rest[m2]).parent;
            assert(preorder_all(t, cs)[i2 + head.len()] == rest[i2]);
        }
    }
}

/// In a walk of a node, every node after the first is live and comes
/// after its parent.
#[verifier::spinoff_prover]
proof fn lemma_walk_parent_first(t: &Tree, x: NodeId, j: int)
    requires
        t.wf(),
        resolves(t.slots(), x),
        0 < j < preorder(t, x).len(),
    ensures
        t.is_live(preorder(t, x)[j]),
        exists|i: int| 0 <= i < j && preorder(t, x)[i] == t.node(preorder(t, x)[j]).parent,
    decreases room_below(t, x), 1nat, 0nat,
{
    lemma_preorder_unfold(t, x);
    let cs = t.node(x).children@;
    lemma_children_of(t, x);
    let walk = preorder(t, x);
    let pa = preorder_all(t, cs);
    assert(walk == seq![x] + pa);
    lemma_children_walk_parent_first(t, x, cs, j - 1);
    assert(walk[j] == pa[j - 1]);
    if t.node(pa[j - 1]).parent == x {
        assert(walk[0] == x);
    } else {
        let i = choose|i: int| 0 <= i < j - 1 && #[trigger] pa[i] == t.node(pa[j - 1]).parent;
        assert(walk[i + 1] == pa[i]);
    }
}

/// A walk starts at its node, and every other node in it comes after its
/// parent. Read backwards, as clicks are, a child comes before its parent
/// and the window is last.
pub proof fn lemma_preorder_parent_first(t: &Tree, x: NodeId, j: int)
    requires
        t.wf(),
        resolves(t.slots(), x),
        0 < j < preorder(t, x).len(),
    ensures
        preorder(t, x)[0] == x,
        t.is_live(preorder(t, x)[j]),
        exists|i: int| 0 <= i < j && preorder(t, x)[i] == t.node(preorder(t, x)[j]).parent,
{
    lemma_walk_heads(t, x);
    lemma_walk_parent_first(t, x, j);
}

proof fn lemma_walk_inside(t: &Tree, x: NodeId, a: int, y: NodeId)
    requires
        t.wf(),
        resolves(t.slots(), x),
        t.in_subtree(x.component_index as int, a),
        preorder(t, x).contains(y),
    ensures
        resolves(t.slots(), y),
        t.in_subtree(y.component_index as int, a),
    decreases room_below(t, x), 1nat, 0nat,
{
    lemma_preorder_unfold(t, x);
    lemma_children_of(t, x);
    let cs = t.node(x).children@;
    let walk = preorder(t, x);
    assert(walk == seq![x] + preorder_all(t, cs));
    let i = choose|i: int| 0 <= i < walk.len() && walk[i] == y;
    if i > 0 {
        assert(preorder_all(t, cs)[i - 1] == y);
        lemma_walks_inside(t, x, cs, a, y);
    }
}

proof fn lemma_walks_inside(t: &Tree, x: NodeId, cs: Seq<NodeId>, a: int, y: NodeId)
    requires
        t.wf(),
        resolves(t.slots(), x),
        t.in_subtree(x.component_index as int, a),
        forall|k: int| 0 <= k < cs.len() ==> resolves(t.slots(), #[trigger] cs[k]) && t.node(cs[k]).parent == x
            && t.depth_of(cs[k]) == t.depth_of(x) + 1,
        preorder_all(t, cs).contains(y),
    ensures
        resolves(t.slots(), y),
        t.in_subtree(y.component_index as int, a),
    decreases room_below(t, x), 0nat, cs.len(),
{
    let s = t.slots();
    let d = t.depths();
    let r = t.spec_root().component_index as int;
    lemma_depth_below_slots(t, x);
    let c = cs[0];
    let head = preorder(t, c);
    let rest = preorder_all(t, cs.drop_first());
    assert(preorder_all(t, cs) == head + rest);
    let i = choose|i: int| 0 <= i < (head + rest).len() && (head + rest)[i] == y;
    if i < head.len() {
        assert(head[i] == y);
        lemma_depth_below_slots(t, c);
        let ci = c.component_index as int;
        assert(occ(s, ci));
        assert(ci != r) by {
            if ci == r {
                assert(d[ci] == 0);
            }
        }
        lemma_child_desc(s, d, r, ci);
        assert(par(s, ci) == x.component_index as int);
        lemma_desc_trans(s, d, r, ci, x.component_index as int, a);
        lemma_walk_inside(t, c, a, y);
    } else {
        assert(rest[i - head.len()] == y);
        assert forall|k: int| 0 <= k < cs.drop_first().len() implies resolves(t.slots(), #[trigger] cs.drop_first()[k])
            && t.node(cs.drop_first()[k]).parent == x && t.depth_of(cs.drop_first()[k]) == t.depth_of(x) + 1 by {
            assert(cs.drop_first()[k] == cs[k + 1]);
        }
        lemma_walks_inside(t, x, cs.drop_first(), a, y);
    }
}

proof fn lemma_walk_reaches(t: &Tree, x: NodeId, n: int)
    requires
        t.wf(),
        resolves(t.slots(), x),
        t.in_subtree(n, x.component_index as int),
    ensures
        preorder(t, x).contains(nd(t.slots(), n).id),
    decreases room_below(t, x), 1nat, 0nat,
{
    let s = t.slots();
    let d = t.depths();
    let r = t.spec_root().component_index as int;
    let xi = x.component_index as int;
    lemma_preorder_unfold(t, x);
    lemma_children_of(t, x);
    let cs = t.node(x).children@;
    let walk = preorder(t, x);
    assert(walk == seq![x] + preorder_all(t, cs));
    if n == xi {
        assert(walk[0] == x);
    } else {
        let c = lemma_desc_via_child(s, d, r, n, xi);
        let j = choose|j: int| 0 <= j < cs.len() && cs[j] == nd(s, c).id;
        assert(cs[j].component_index as int == c);
        lemma_walks_reach(t, x, cs, j, n);
        let i = choose|i: int| 0 <= i < preorder_all(t, cs).len() && preorder_all(t, cs)[i] == nd(s, n).id;
        assert(walk[i + 1] == nd(s, n).id);
    }
}

proof fn lemma_walks_reach(t: &Tree, x: NodeId, cs: Seq<NodeId>, j: int, n: int)
    requires
        t.wf(),
        resolves(t.slots(), x),
        forall|k: int| 0 <= k < cs.len() ==> resolves(t.slots(), #[trigger] cs[k]) && t.node(cs[k]).parent == x
            && t.depth_of(cs[k]) == t.depth_of(x) + 1,
        0 <= j < cs.len(),
        t.in_subtree(n, cs[j].component_index as int),
    ensures
        preorder_all(t, cs).contains(nd(t.slots(), n).id),
    decreases room_below(t, x), 0nat, cs.len(),
{
    lemma_depth_below_slots(t, x);
    let c = cs[0];
    let head = preorder(t, c);
    let rest = preorder_all(t, cs.drop_first());
    assert(preorder_all(t, cs) == head + rest);
    if j == 0 {
        lemma_depth_below_slots(t, c);
        lemma_walk_reaches(t, c, n);
        let i = choose|i: int| 0 <= i < head.len() && head[i] == nd(t.slots(), n).id;
        assert((head + rest)[i] == head[i]);
    } else {
        assert forall|k: int| 0 <= k < cs.drop_first().len() implies resolves(t.slots(), #[trigger] cs.drop_first()[k])
            && t.node(cs.drop_first()[k]).parent == x && t.depth_of(cs.drop_first()[k]) == t.depth_of(x) + 1 by {
            assert(cs.drop_first()[k] == cs[k + 1]);
        }
        assert(cs.drop_first()[j - 1] == cs[j]);
        lemma_walks_reach(t, x, cs.drop_first(), j - 1, n);
        let i = choose|i: int| 0 <= i < rest.len() && rest[i] == nd(t.slots(), n).id;
        assert((head + rest)[head.len() + i] == rest[i]);
    }
}

/// A walk of a node holds exactly its subtree: every node in it lies under
/// the node and is named by its exact id, and every node under it is in
/// the walk. So what a walk visits is what removing the node frees.
pub proof fn lemma_preorder_is_subtree(t: &Tree, x: NodeId)
    requires
        t.wf(),
        resolves(t.slots(), x),
    ensures
        forall|y: NodeId| #[trigger] preorder(t, x).contains(y) ==> resolves(t.slots(), y)
            && t.in_subtree(y.component_index as int, x.component_index as int),
        forall|n: int| #[trigger] t.in_subtree(n, x.component_index as int) ==> preorder(t, x).contains(
            nd(t.slots(), n).id,
        ),
{
    let s = t.slots();
    let xi = x.component_index as int;
    assert(t.in_subtree(xi, xi)) by {
        lemma_desc_refl(s, t.depths(), xi);
    }
    assert forall|y: NodeId| #[trigger] preorder(t, x).contains(y) implies resolves(t.slots(), y)
        && t.in_subtree(y.component_index as int, xi) by {
        lemma_walk_inside(t, x, xi, y);
    }
    assert forall|n: int| #[trigger] t.in_subtree(n, xi) implies preorder(t, x).contains(nd(t.slots(), n).id) by {
        lemma_walk_reaches(t, x, n);
    }
}

proof fn lemma_pop_step(t: &Tree, rest: Seq<NodeId>, x: NodeId)
    ensures
        preorder_all(t, rest.push(x).reverse()) == preorder(t, x) + preorder_all(t, rest.reverse()),
{
    assert(rest.push(x).reverse() =~= seq![x] + rest.reverse());
    assert((seq![x] + rest.reverse()).drop_first() =~= rest.reverse());
}

proof fn lemma_push_step(t: &Tree, rest: Seq<NodeId>, cs: Seq<NodeId>)
    ensures
        preorder_all(t, (rest + cs.reverse()).reverse()) == preorder_all(t, cs) + preorder_all(t, rest.reverse()),
{
    assert((rest + cs.reverse()).reverse() =~= cs + rest.reverse());
    lemma_preorder_all_concat(t, cs, rest.reverse());
}

/// Push `items` onto `stack` last first, so the first item ends on top.
fn push_reversed(stack: &mut Vec<NodeId>, items: &[NodeId])
    ensures
        final(stack)@ == old(stack)@ + items@.reverse(),
{
    let n = items.len();
    let mut i: usize = n;
    while i > 0
        invariant
            i <= n,
            n == items@.len(),
            stack@ == old(stack)@ + items@.subrange(i as int, n as int).reverse(),
        decreases i,
    {
        i -= 1;
        stack.push(items[i]);
        proof {
            assert(items@.subrange(i as int, n as int).reverse() =~= items@.subrange(i + 1, n as int).reverse().push(items@[i as int]));
            assert(stack@ =~= old(stack)@ + items@.subrange(i as int, n as int).reverse());
        }
    }
    proof {
        assert(items@.subrange(0, n as int) =~= items@);
    }
}

impl Tree {
    /// The subtree of `id` in preorder: `id`, then the subtree of each
    /// child in sibling order. A stale `id` is listed alone.
    pub fn preorder(&self, id: NodeId) -> (r: Vec<NodeId>)
        requires
            self.wf(),
        ensures
            r@ == preorder(self, id),
    {
        let mut order: Vec<NodeId> = Vec::new();
        let mut stack: Vec<NodeId> = Vec::new();
        stack.push(id);
        proof {
            lemma_pop_step(self, Seq::empty(), id);
            assert(Seq::<NodeId>::empty().push(id) =~= stack@);
            assert(Seq::<NodeId>::empty().reverse() =~= Seq::<NodeId>::empty());
            assert(preorder(self, id) + Seq::<NodeId>::empty() =~= preorder(self, id));
            assert(order@ + preorder_all(self, stack@.reverse()) =~= preorder(self, id));
        }
        while stack.len() > 0
            invariant
                self.wf(),
                order@ + preorder_all(self, stack@.reverse()) == preorder(self, id),
            decreases preorder_all(self, stack@.reverse()).len(),
        {
            let ghost s0 = stack@;
            let x = stack.pop().unwrap();
            let ghost rest = stack@;
            proof {
                assert(s0 =~= rest.push(x));
                lemma_pop_step(self, rest, x);
            }
            let ghost before = order@;
            order.push(x);
            match self.children(x) {
                Some(children) => {
                    proof {
                        lemma_preorder_unfold(self, x);
                    }
                    push_reversed(&mut stack, children);
                    proof {
                        lemma_push_step(self, rest, children@);
                        assert(order@ + preorder_all(self, stack@.reverse())
                            =~= before + (seq![x] + preorder_all(self, children@)) + preorder_all(self, rest.reverse()));
                    }
                },
                None => {
                    proof {
                        assert(preorder(self, x) == seq![x]);
                        assert(order@ + preorder_all(self, stack@.reverse()) =~= before + preorder(self, x) + preorder_all(self, rest.reverse()));
                    }
                },
            }
        }
        proof {
            assert(stack@.reverse() =~= Seq::<NodeId>::empty());
            assert(order@ + Seq::<NodeId>::empty() =~= order@);
        }
        order
    }
}

} // verus!
