//! The derivation tree of memory capabilities: how it sits in the capability table, which
//! slots a revocation frees and in what order, and the facts about ancestry that the
//! revocation proofs rest on.
use vstd::prelude::*;
use crate::mem::caps::{MemCap, Slot, MAX_CAPS, valid_handle};

verus! {

/// Child `j` of capability `i` is in place: a usable, occupied slot whose capability names
/// `i` as parent, is newer than `i`, and links to the next child (none after the last).
pub open spec fn child_ok(t: Seq<Slot>, k: Map<int, Seq<u32>>, st: Map<int, nat>, i: int, j: int) -> bool {
    let c = k[i][j] as int;
    &&& valid_handle(c)
    &&& t[c] is Occupied
    &&& t[c]->Occupied_0.parent == Some(i as u32)
    &&& st.dom().contains(c)
    &&& st[c] > st[i]
    &&& t[c]->Occupied_0.next_sibling == (if j + 1 < k[i].len() { Some(k[i][j + 1]) } else { None })
}

/// Capability `i` sits in the derivation tree: it has a child list and a stamp below the
/// clock; its first-child link names the first child; each child is in place; its parent,
/// if any, is an occupied slot whose child list holds `i`.
pub open spec fn node_ok(t: Seq<Slot>, k: Map<int, Seq<u32>>, st: Map<int, nat>, clock: nat, i: int) -> bool {
    let c = t[i]->Occupied_0;
    &&& k.dom().contains(i)
    &&& st.dom().contains(i)
    &&& st[i] < clock
    &&& k[i].no_duplicates()
    &&& c.first_child == (if k[i].len() == 0 { None } else { Some(k[i][0]) })
    &&& forall|j: int| 0 <= j < k[i].len() ==> #[trigger] child_ok(t, k, st, i, j)
    &&& c.parent matches Some(p) ==> valid_handle(p as int) && t[p as int] is Occupied && k.dom().contains(p as int)
        && k[p as int].contains(i as u32)
}

/// Every occupied slot of a full-size table sits in the derivation tree.
pub open spec fn tree_ok(t: Seq<Slot>, k: Map<int, Seq<u32>>, st: Map<int, nat>, clock: nat) -> bool {
    &&& t.len() == MAX_CAPS
    &&& forall|i: int| 0 <= i < MAX_CAPS && #[trigger] t[i] is Occupied ==> node_ok(t, k, st, clock, i)
}

/// The parent of slot `x`: none for a free slot or a root capability.
pub open spec fn parent_of(t: Seq<Slot>, x: int) -> Option<int> {
    match t[x] {
        Slot::Occupied(c) => match c.parent {
            Some(p) => Some(p as int),
            None => None,
        },
        Slot::Free { .. } => None,
    }
}

/// The `n`-th ancestor of slot `x` along parent links, if there is one.
pub open spec fn ancestor(t: Seq<Slot>, x: int, n: nat) -> Option<int>
    decreases n,
{
    if n == 0 {
        Some(x)
    } else {
        match ancestor(t, x, (n - 1) as nat) {
            Some(y) => parent_of(t, y),
            None => None,
        }
    }
}

/// Whether slot `x` is `h` or holds a capability derived from `h`, directly or not.
pub open spec fn descends(t: Seq<Slot>, x: int, h: int) -> bool {
    exists|n: nat| #[trigger] ancestor(t, x, n) == Some(h)
}

/// Whether child `c` of `h` is newer than `h` and not newer than the clock (always so in a
/// well-formed tree; it bounds the recursion of `kids_post`).
pub open spec fn newer(st: Map<int, nat>, clock: nat, h: int, c: int) -> bool {
    st[h] < st[c] && st[c] <= clock
}

/// The subtrees of the first `j` children of `h`, one after the other, each in post-order.
pub open spec fn kids_post(k: Map<int, Seq<u32>>, st: Map<int, nat>, clock: nat, h: int, j: int) -> Seq<u32>
    decreases clock - st[h], j,
{
    if j <= 0 {
        Seq::empty()
    } else {
        let c = k[h][j - 1] as int;
        kids_post(k, st, clock, h, j - 1) + if newer(st, clock, h, c) {
            kids_post(k, st, clock, c, k[c].len() as int).push(c as u32)
        } else {
            Seq::empty()
        }
    }
}

/// The subtree of `h` in post-order: the subtrees of its children, newest child first, then
/// `h` itself. This is the order in which a revocation frees the slots.
pub open spec fn subtree(k: Map<int, Seq<u32>>, st: Map<int, nat>, clock: nat, h: int) -> Seq<u32> {
    kids_post(k, st, clock, h, k[h].len() as int).push(h as u32)
}

/// The head of a free list whose head was `ff` once the slots of `s` are pushed on it.
pub open spec fn head_after(ff: Option<u32>, s: Seq<u32>) -> Option<u32> {
    if s.len() == 0 {
        ff
    } else {
        Some(s.last())
    }
}

/// Table `t` once the slots of `s` are freed one after the other, each pushed on the free
/// list (whose head was `ff` before the first).
pub open spec fn freed(t: Seq<Slot>, ff: Option<u32>, s: Seq<u32>) -> Seq<Slot>
    decreases s.len(),
{
    if s.len() == 0 {
        t
    } else {
        freed(t, ff, s.drop_last()).update(s.last() as int, Slot::Free { next_free: head_after(ff, s.drop_last()) })
    }
}

pub proof fn lemma_freed_len(t: Seq<Slot>, ff: Option<u32>, s: Seq<u32>)
    requires
        forall|i: int| 0 <= i < s.len() ==> #[trigger] s[i] < t.len(),
    ensures
        freed(t, ff, s).len() == t.len(),
    decreases s.len(),
{
    if s.len() > 0 {
        lemma_freed_len(t, ff, s.drop_last());
    }
}

/// Freeing leaves the slots outside `s` as they were.
pub proof fn lemma_freed_other(t: Seq<Slot>, ff: Option<u32>, s: Seq<u32>, x: int)
    requires
        0 <= x < t.len(),
        x < 0x1_0000_0000,
        !s.contains(x as u32),
        forall|i: int| 0 <= i < s.len() ==> #[trigger] s[i] < t.len(),
    ensures
        freed(t, ff, s)[x] == t[x],
    decreases s.len(),
{
    if s.len() > 0 {
        let d = s.drop_last();
        assert(!d.contains(x as u32)) by {
            if d.contains(x as u32) {
                let i = choose|i: int| 0 <= i < d.len() && d[i] == x as u32;
                assert(s[i] == x as u32);
            }
        }
        assert(s[s.len() - 1] != x as u32);
        lemma_freed_other(t, ff, d, x);
        lemma_freed_len(t, ff, d);
    }
}

/// Freeing leaves every slot of `s` free.
pub proof fn lemma_freed_in(t: Seq<Slot>, ff: Option<u32>, s: Seq<u32>, x: int)
    requires
        0 <= x < t.len(),
        x < 0x1_0000_0000,
        s.contains(x as u32),
        forall|i: int| 0 <= i < s.len() ==> #[trigger] s[i] < t.len(),
    ensures
        freed(t, ff, s)[x] is Free,
    decreases s.len(),
{
    let d = s.drop_last();
    lemma_freed_len(t, ff, d);
    if s.last() != x as u32 {
        let i = choose|i: int| 0 <= i < s.len() && s[i] == x as u32;
        assert(d[i] == x as u32);
        lemma_freed_in(t, ff, d, x);
    }
}

/// Freeing `a` then `b` is freeing `a + b`.
pub proof fn lemma_freed_concat(t: Seq<Slot>, ff: Option<u32>, a: Seq<u32>, b: Seq<u32>)
    ensures
        freed(t, ff, a + b) == freed(freed(t, ff, a), head_after(ff, a), b),
        head_after(ff, a + b) == head_after(head_after(ff, a), b),
    decreases b.len(),
{
    if b.len() == 0 {
        assert(a + b =~= a);
    } else {
        assert((a + b).drop_last() =~= a + b.drop_last());
        lemma_freed_concat(t, ff, a, b.drop_last());
        if b.drop_last().len() == 0 {
            assert(a + b.drop_last() =~= a);
        }
    }
}

/// Something of the first `j` children's subtrees lies in the subtree of one of them.
pub proof fn lemma_kids_post_from(k: Map<int, Seq<u32>>, st: Map<int, nat>, clock: nat, h: int, j: int, x: u32) -> (i: int)
    requires
        kids_post(k, st, clock, h, j).contains(x),
    ensures
        0 <= i < j,
        newer(st, clock, h, k[h][i] as int),
        subtree(k, st, clock, k[h][i] as int).contains(x),
    decreases j,
{
    broadcast use vstd::seq_lib::lemma_seq_concat_contains_all_elements;

    if j <= 0 {
        assert(false);
        0
    } else {
        let c = k[h][j - 1] as int;
        if kids_post(k, st, clock, h, j - 1).contains(x) {
            lemma_kids_post_from(k, st, clock, h, j - 1, x)
        } else {
            if !newer(st, clock, h, c) {
                assert(kids_post(k, st, clock, h, j) =~= kids_post(k, st, clock, h, j - 1));
            }
            j - 1
        }
    }
}

/// The subtree of any of the first `j` children lies in their subtrees together.
pub proof fn lemma_kids_post_to(k: Map<int, Seq<u32>>, st: Map<int, nat>, clock: nat, h: int, j: int, i: int, x: u32)
    requires
        0 <= i < j,
        newer(st, clock, h, k[h][i] as int),
        subtree(k, st, clock, k[h][i] as int).contains(x),
    ensures
        kids_post(k, st, clock, h, j).contains(x),
    decreases j,
{
    broadcast use vstd::seq_lib::lemma_seq_concat_contains_all_elements;

    if i < j - 1 {
        lemma_kids_post_to(k, st, clock, h, j - 1, i, x);
    }
}

/// A slot of `h`'s subtree other than `h` is in the subtree of one of `h`'s children.
pub proof fn lemma_subtree_split(k: Map<int, Seq<u32>>, st: Map<int, nat>, clock: nat, h: int, x: u32) -> (i: int)
    requires
        subtree(k, st, clock, h).contains(x),
        x != h as u32,
    ensures
        0 <= i < k[h].len(),
        newer(st, clock, h, k[h][i] as int),
        subtree(k, st, clock, k[h][i] as int).contains(x),
{
    let kp = kids_post(k, st, clock, h, k[h].len() as int);
    let s = kp.push(h as u32);
    let w = choose|w: int| 0 <= w < s.len() && #[trigger] s[w] == x;
    assert(kp[w] == x);
    lemma_kids_post_from(k, st, clock, h, k[h].len() as int, x)
}

/// `h` is in its own subtree.
pub proof fn lemma_subtree_has_root(k: Map<int, Seq<u32>>, st: Map<int, nat>, clock: nat, h: int)
    ensures
        subtree(k, st, clock, h).contains(h as u32),
{
    let s = subtree(k, st, clock, h);
    assert(s[s.len() - 1] == h as u32);
}

/// The subtree of a child of `h` lies in the subtree of `h`.
pub proof fn lemma_child_subtree_within(k: Map<int, Seq<u32>>, st: Map<int, nat>, clock: nat, h: int, i: int, x: u32)
    requires
        0 <= i < k[h].len(),
        newer(st, clock, h, k[h][i] as int),
        subtree(k, st, clock, k[h][i] as int).contains(x),
    ensures
        subtree(k, st, clock, h).contains(x),
{
    broadcast use vstd::seq_lib::lemma_seq_contains_after_push;

    lemma_kids_post_to(k, st, clock, h, k[h].len() as int, i, x);
}

/// Following `m + d` parent links is following `m`, then `d`.
pub proof fn lemma_ancestor_split(t: Seq<Slot>, x: int, m: nat, d: nat)
    ensures
        ancestor(t, x, m + d) == match ancestor(t, x, m) {
            Some(a) => ancestor(t, a, d),
            None => None,
        },
    decreases d,
{
    if d > 0 {
        lemma_ancestor_split(t, x, m, (d - 1) as nat);
        assert(ancestor(t, x, m + d) == match ancestor(t, x, (m + d - 1) as nat) {
            Some(y) => parent_of(t, y),
            None => None,
        });
    }
}

/// The first parent link.
pub proof fn lemma_ancestor_one(t: Seq<Slot>, x: int)
    ensures
        ancestor(t, x, 1) == parent_of(t, x),
{
    assert(ancestor(t, x, 0) == Some(x));
}

/// Up a well-formed tree every ancestor of a capability is a capability, older by at least
/// one stamp per link.
pub proof fn lemma_ancestor_older(t: Seq<Slot>, k: Map<int, Seq<u32>>, st: Map<int, nat>, clock: nat, x: int, n: nat, y: int)
    requires
        tree_ok(t, k, st, clock),
        0 <= x < MAX_CAPS,
        t[x] is Occupied,
        ancestor(t, x, n) == Some(y),
    ensures
        0 <= y < MAX_CAPS,
        t[y] is Occupied,
        st.dom().contains(y),
        st[y] + n <= st[x],
    decreases n,
{
    assert(node_ok(t, k, st, clock, x));
    if n > 0 {
        let z = ancestor(t, x, (n - 1) as nat)->Some_0;
        assert(ancestor(t, x, (n - 1) as nat) is Some);
        lemma_ancestor_older(t, k, st, clock, x, (n - 1) as nat, z);
        assert(node_ok(t, k, st, clock, z));
        let p = t[z]->Occupied_0.parent->Some_0;
        assert(p as int == y);
        assert(node_ok(t, k, st, clock, y));
        let idx = choose|i: int| 0 <= i < k[y].len() && k[y][i] == z as u32;
        assert(child_ok(t, k, st, y, idx));
    }
}

/// In a well-formed tree every slot of the subtree of a capability `h` holds a capability
/// with `h` among its ancestors.
pub proof fn lemma_subtree_below(t: Seq<Slot>, k: Map<int, Seq<u32>>, st: Map<int, nat>, clock: nat, h: int, x: u32) -> (n: nat)
    requires
        tree_ok(t, k, st, clock),
        0 <= h < MAX_CAPS,
        t[h] is Occupied,
        subtree(k, st, clock, h).contains(x),
    ensures
        0 <= x < MAX_CAPS,
        t[x as int] is Occupied,
        ancestor(t, x as int, n) == Some(h),
    decreases clock - st[h],
{
    if x as int == h {
        0
    } else {
        let i = lemma_subtree_split(k, st, clock, h, x);
        assert(node_ok(t, k, st, clock, h));
        assert(child_ok(t, k, st, h, i));
        let c = k[h][i] as int;
        let n = lemma_subtree_below(t, k, st, clock, c, x);
        assert(ancestor(t, x as int, n + 1) == match ancestor(t, x as int, n) {
            Some(y) => parent_of(t, y),
            None => None,
        });
        n + 1
    }
}

/// In a well-formed tree, a slot of the subtree of a child of `h` is not `h` itself.
pub proof fn lemma_below_child_not_root(t: Seq<Slot>, k: Map<int, Seq<u32>>, st: Map<int, nat>, clock: nat, h: int, i: int, x: u32)
    requires
        tree_ok(t, k, st, clock),
        0 <= h < MAX_CAPS,
        t[h] is Occupied,
        0 <= i < k[h].len(),
        subtree(k, st, clock, k[h][i] as int).contains(x),
    ensures
        x as int != h,
        st[x as int] > st[h],
{
    assert(node_ok(t, k, st, clock, h));
    assert(child_ok(t, k, st, h, i));
    let c = k[h][i] as int;
    let n = lemma_subtree_below(t, k, st, clock, c, x);
    lemma_ancestor_older(t, k, st, clock, x as int, n, c);
}

/// In a well-formed tree the subtrees of two different children of a capability share no
/// slot.
pub proof fn lemma_siblings_disjoint(t: Seq<Slot>, k: Map<int, Seq<u32>>, st: Map<int, nat>, clock: nat, h: int, i1: int, i2: int, x: u32)
    requires
        tree_ok(t, k, st, clock),
        0 <= h < MAX_CAPS,
        t[h] is Occupied,
        0 <= i1 < k[h].len(),
        0 <= i2 < k[h].len(),
        i1 != i2,
    ensures
        !(subtree(k, st, clock, k[h][i1] as int).contains(x) && subtree(k, st, clock, k[h][i2] as int).contains(x)),
{
    if subtree(k, st, clock, k[h][i1] as int).contains(x) && subtree(k, st, clock, k[h][i2] as int).contains(x) {
        assert(node_ok(t, k, st, clock, h));
        assert(child_ok(t, k, st, h, i1));
        assert(child_ok(t, k, st, h, i2));
        let c1 = k[h][i1] as int;
        let c2 = k[h][i2] as int;
        assert(c1 != c2);
        let n1 = lemma_subtree_below(t, k, st, clock, c1, x);
        let n2 = lemma_subtree_below(t, k, st, clock, c2, x);
        if n1 <= n2 {
            lemma_nested_children(t, k, st, clock, h, x as int, c1, n1, c2, n2);
        } else {
            lemma_nested_children(t, k, st, clock, h, x as int, c2, n2, c1, n1);
        }
    }
}

/// Of two different children of `h`, the one fewer links up from a slot is not below the
/// other: they cannot both be ancestors of one slot.
proof fn lemma_nested_children(t: Seq<Slot>, k: Map<int, Seq<u32>>, st: Map<int, nat>, clock: nat, h: int, x: int, a: int, na: nat, b: int, nb: nat)
    requires
        tree_ok(t, k, st, clock),
        0 <= a < MAX_CAPS,
        t[a] is Occupied,
        a != b,
        parent_of(t, a) == Some(h),
        st.dom().contains(b),
        st[b] > st[h],
        na <= nb,
    ensures
        !(ancestor(t, x, na) == Some(a) && ancestor(t, x, nb) == Some(b)),
{
    if ancestor(t, x, na) == Some(a) && ancestor(t, x, nb) == Some(b) {
        let d = (nb - na) as nat;
        lemma_ancestor_split(t, x, na, d);
        assert(na + d == nb);
        assert(ancestor(t, a, d) == Some(b));
        assert(d > 0);
        lemma_ancestor_split(t, a, 1, (d - 1) as nat);
        lemma_ancestor_one(t, a);
        assert(ancestor(t, h, (d - 1) as nat) == Some(b));
        assert(node_ok(t, k, st, clock, a));
        lemma_ancestor_older(t, k, st, clock, h, (d - 1) as nat, b);
    }
}

/// In a well-formed tree every capability with `h` among its ancestors is in the subtree of
/// `h`.
pub proof fn lemma_descendant_in_subtree(t: Seq<Slot>, k: Map<int, Seq<u32>>, st: Map<int, nat>, clock: nat, y: int, m: nat, h: int)
    requires
        tree_ok(t, k, st, clock),
        0 <= y < MAX_CAPS,
        t[y] is Occupied,
        ancestor(t, y, m) == Some(h),
    ensures
        subtree(k, st, clock, h).contains(y as u32),
    decreases m,
{
    if m == 0 {
        lemma_subtree_has_root(k, st, clock, h);
    } else {
        let a = ancestor(t, y, (m - 1) as nat)->Some_0;
        assert(ancestor(t, y, (m - 1) as nat) is Some);
        lemma_ancestor_older(t, k, st, clock, y, (m - 1) as nat, a);
        lemma_descendant_in_subtree(t, k, st, clock, y, (m - 1) as nat, a);
        assert(node_ok(t, k, st, clock, a));
        assert(node_ok(t, k, st, clock, h));
        let idx = choose|i: int| 0 <= i < k[h].len() && k[h][i] == a as u32;
        assert(child_ok(t, k, st, h, idx));
        lemma_child_subtree_within(k, st, clock, h, idx, y as u32);
    }
}

/// Table `t` once capability `h` leaves its parent's child chain: the parent's first-child
/// link, or else the link of the child just before `h`, skips to `h`'s next sibling.
pub open spec fn unlink(t: Seq<Slot>, k: Map<int, Seq<u32>>, h: int) -> Seq<Slot> {
    let c = t[h]->Occupied_0;
    match c.parent {
        None => t,
        Some(p) => {
            let i = k[p as int].index_of(h as u32);
            if i == 0 {
                t.update(p as int, Slot::Occupied(MemCap { first_child: c.next_sibling, ..t[p as int]->Occupied_0 }))
            } else {
                let prev = k[p as int][i - 1] as int;
                t.update(prev, Slot::Occupied(MemCap { next_sibling: c.next_sibling, ..t[prev]->Occupied_0 }))
            }
        },
    }
}

/// The child lists once capability `h` leaves its parent's.
pub open spec fn kids_without(t: Seq<Slot>, k: Map<int, Seq<u32>>, h: int) -> Map<int, Seq<u32>> {
    match t[h]->Occupied_0.parent {
        None => k,
        Some(p) => k.insert(p as int, k[p as int].remove(k[p as int].index_of(h as u32))),
    }
}

/// In a well-formed tree the subtree of a capability holds only capabilities.
pub proof fn lemma_subtree_in_range(t: Seq<Slot>, k: Map<int, Seq<u32>>, st: Map<int, nat>, clock: nat, h: int)
    requires
        tree_ok(t, k, st, clock),
        0 <= h < MAX_CAPS,
        t[h] is Occupied,
    ensures
        forall|x: u32| #[trigger] subtree(k, st, clock, h).contains(x) ==> x < MAX_CAPS && t[x as int] is Occupied,
        forall|i: int| 0 <= i < subtree(k, st, clock, h).len() ==> #[trigger] subtree(k, st, clock, h)[i] < MAX_CAPS,
{
    let sub = subtree(k, st, clock, h);
    assert forall|x: u32| #[trigger] sub.contains(x) implies x < MAX_CAPS && t[x as int] is Occupied by {
        lemma_subtree_below(t, k, st, clock, h, x);
    }
    assert forall|i: int| 0 <= i < sub.len() implies #[trigger] sub[i] < MAX_CAPS by {
        assert(sub.contains(sub[i]));
    }
}

/// In a well-formed tree, the parent of a capability outside the subtree of `h` is outside
/// it too.
pub proof fn lemma_parent_outside(t: Seq<Slot>, k: Map<int, Seq<u32>>, st: Map<int, nat>, clock: nat, h: int, i: int, q: int)
    requires
        tree_ok(t, k, st, clock),
        0 <= h < MAX_CAPS,
        t[h] is Occupied,
        0 <= i < MAX_CAPS,
        t[i] is Occupied,
        parent_of(t, i) == Some(q),
        !subtree(k, st, clock, h).contains(i as u32),
    ensures
        !subtree(k, st, clock, h).contains(q as u32),
{
    if subtree(k, st, clock, h).contains(q as u32) {
        assert(node_ok(t, k, st, clock, i));
        let n = lemma_subtree_below(t, k, st, clock, h, q as u32);
        lemma_ancestor_split(t, i, 1, n);
        lemma_ancestor_one(t, i);
        lemma_descendant_in_subtree(t, k, st, clock, i, 1 + n, h);
    }
}

/// In a well-formed tree, a child other than `h` of a capability outside the subtree of `h`
/// is outside it too.
pub proof fn lemma_child_outside(t: Seq<Slot>, k: Map<int, Seq<u32>>, st: Map<int, nat>, clock: nat, h: int, i: int, c: int)
    requires
        tree_ok(t, k, st, clock),
        0 <= h < MAX_CAPS,
        t[h] is Occupied,
        0 <= i < MAX_CAPS,
        t[i] is Occupied,
        0 <= c < MAX_CAPS,
        t[c] is Occupied,
        parent_of(t, c) == Some(i),
        c != h,
        !subtree(k, st, clock, h).contains(i as u32),
    ensures
        !subtree(k, st, clock, h).contains(c as u32),
{
    if subtree(k, st, clock, h).contains(c as u32) {
        let n = lemma_subtree_below(t, k, st, clock, h, c as u32);
        assert(n > 0);
        lemma_ancestor_split(t, c, 1, (n - 1) as nat);
        lemma_ancestor_one(t, c);
        lemma_descendant_in_subtree(t, k, st, clock, i, (n - 1) as nat, h);
    }
}

/// Dropping entry `idx` of a list without duplicates leaves a list without duplicates that
/// holds every other entry.
pub proof fn lemma_remove_entry(s: Seq<u32>, idx: int)
    requires
        s.no_duplicates(),
        0 <= idx < s.len(),
    ensures
        s.remove(idx).no_duplicates(),
        s.remove(idx).len() == s.len() - 1,
        forall|w: int| 0 <= w < idx ==> #[trigger] s.remove(idx)[w] == s[w],
        forall|w: int| idx <= w < s.len() - 1 ==> #[trigger] s.remove(idx)[w] == s[w + 1],
        forall|x: u32| s.contains(x) && x != s[idx] ==> #[trigger] s.remove(idx).contains(x),
{
    s.remove_ensures(idx);
    let r = s.remove(idx);
    assert forall|a: int, b: int| 0 <= a < r.len() && 0 <= b < r.len() && a != b implies r[a] != r[b] by {
        let a1 = if a < idx { a } else { a + 1 };
        let b1 = if b < idx { b } else { b + 1 };
        assert(r[a] == s[a1]);
        assert(r[b] == s[b1]);
    }
    assert forall|x: u32| s.contains(x) && x != s[idx] implies #[trigger] r.contains(x) by {
        let w = choose|w: int| 0 <= w < s.len() && s[w] == x;
        if w < idx {
            assert(r[w] == x);
        } else {
            assert(w != idx);
            assert(r[w - 1] == x);
        }
    }
}

/// What unlinking `h` does to the table, in a well-formed tree: at most one slot `m`, outside
/// the subtree of `h`, changes, and only in one link; `m` is `-1` when `h` has no parent.
pub proof fn lemma_unlink_shape(t: Seq<Slot>, k: Map<int, Seq<u32>>, st: Map<int, nat>, clock: nat, h: int) -> (m: int)
    requires
        tree_ok(t, k, st, clock),
        valid_handle(h),
        t[h] is Occupied,
    ensures
        unlink(t, k, h).len() == MAX_CAPS,
        forall|x: int| 0 <= x < MAX_CAPS && x != m ==> #[trigger] unlink(t, k, h)[x] == t[x],
        m == -1 <==> t[h]->Occupied_0.parent is None,
        t[h]->Occupied_0.parent matches Some(pp) ==> {
            let idx = k[pp as int].index_of(h as u32);
            m == if idx == 0 { pp as int } else { k[pp as int][idx - 1] as int }
        },
        m != -1 ==> {
            let mc = unlink(t, k, h)[m]->Occupied_0;
            let oc = t[m]->Occupied_0;
            let hc = t[h]->Occupied_0;
            &&& 0 <= m < MAX_CAPS
            &&& t[m] is Occupied
            &&& unlink(t, k, h)[m] is Occupied
            &&& !subtree(k, st, clock, h).contains(m as u32)
            &&& mc.parent == oc.parent
            &&& mc.base == oc.base && mc.size == oc.size && mc.rights == oc.rights
            &&& hc.parent == Some(m as u32) ==> mc.first_child == hc.next_sibling && mc.next_sibling == oc.next_sibling
            &&& hc.parent != Some(m as u32) ==> mc.first_child == oc.first_child && mc.next_sibling == hc.next_sibling
                && oc.parent == hc.parent
        },
{
    let hc = t[h]->Occupied_0;
    let sub = subtree(k, st, clock, h);
    assert(node_ok(t, k, st, clock, h));
    match hc.parent {
        None => {
            assert(unlink(t, k, h) == t);
            -1
        },
        Some(pp) => {
            let p = pp as int;
            let ks = k[p];
            let idx = ks.index_of(h as u32);
            assert(ks.contains(h as u32));
            assert(node_ok(t, k, st, clock, p));
            assert(child_ok(t, k, st, p, idx));
            if idx == 0 {
                assert(!sub.contains(pp)) by {
                    if sub.contains(pp) {
                        let n = lemma_subtree_below(t, k, st, clock, h, pp);
                        lemma_ancestor_older(t, k, st, clock, p, n, h);
                    }
                }
                p
            } else {
                let pv = ks[idx - 1] as int;
                assert(child_ok(t, k, st, p, idx - 1));
                assert(!sub.contains(pv as u32)) by {
                    lemma_subtree_has_root(k, st, clock, pv);
                    assert(node_ok(t, k, st, clock, pv));
                    lemma_siblings_disjoint(t, k, st, clock, p, idx - 1, idx, pv as u32);
                }
                pv
            }
        },
    }
}

/// After revoking `h` in a well-formed tree, a capability that remains, other than `h`'s
/// parent, still sits in the tree.
proof fn lemma_revoke_node_other(t: Seq<Slot>, k: Map<int, Seq<u32>>, st: Map<int, nat>, clock: nat, ff: Option<u32>, h: int, i: int)
    requires
        tree_ok(t, k, st, clock),
        valid_handle(h),
        t[h] is Occupied,
        0 <= i < MAX_CAPS,
        freed(unlink(t, k, h), ff, subtree(k, st, clock, h))[i] is Occupied,
        t[h]->Occupied_0.parent != Some(i as u32),
    ensures
        node_ok(freed(unlink(t, k, h), ff, subtree(k, st, clock, h)), kids_without(t, k, h), st, clock, i),
{
    let sub = subtree(k, st, clock, h);
    let tu = unlink(t, k, h);
    let t1 = freed(tu, ff, sub);
    let k1 = kids_without(t, k, h);
    lemma_subtree_in_range(t, k, st, clock, h);
    lemma_subtree_has_root(k, st, clock, h);
    let m = lemma_unlink_shape(t, k, st, clock, h);
    assert(!sub.contains(i as u32)) by {
        if sub.contains(i as u32) {
            lemma_freed_in(tu, ff, sub, i);
        }
    }
    lemma_freed_other(tu, ff, sub, i);
    assert(t[i] is Occupied);
    assert(node_ok(t, k, st, clock, i));
    assert(k1[i] == k[i]);
    let ci = t[i]->Occupied_0;
    assert forall|j: int| 0 <= j < k1[i].len() implies #[trigger] child_ok(t1, k1, st, i, j) by {
        assert(child_ok(t, k, st, i, j));
        let c = k[i][j] as int;
        assert(node_ok(t, k, st, clock, c));
        lemma_child_outside(t, k, st, clock, h, i, c);
        lemma_freed_other(tu, ff, sub, c);
    }
    if let Some(q) = ci.parent {
        lemma_parent_outside(t, k, st, clock, h, i, q as int);
        lemma_freed_other(tu, ff, sub, q as int);
        if t[h]->Occupied_0.parent == Some(q) {
            assert(node_ok(t, k, st, clock, h));
            let ks = k[q as int];
            let idx = ks.index_of(h as u32);
            assert(ks.contains(h as u32));
            assert(node_ok(t, k, st, clock, q as int));
            lemma_remove_entry(ks, idx);
            assert(i as u32 != h as u32);
        }
    }
}

/// After revoking `h` in a well-formed tree, `h`'s parent still sits in the tree, with `h`
/// out of its child list.
proof fn lemma_revoke_node_parent(t: Seq<Slot>, k: Map<int, Seq<u32>>, st: Map<int, nat>, clock: nat, ff: Option<u32>, h: int, p: int)
    requires
        tree_ok(t, k, st, clock),
        valid_handle(h),
        t[h] is Occupied,
        t[h]->Occupied_0.parent == Some(p as u32),
        0 <= p < MAX_CAPS,
    ensures
        node_ok(freed(unlink(t, k, h), ff, subtree(k, st, clock, h)), kids_without(t, k, h), st, clock, p),
{
    let sub = subtree(k, st, clock, h);
    let tu = unlink(t, k, h);
    let t1 = freed(tu, ff, sub);
    let k1 = kids_without(t, k, h);
    let hc = t[h]->Occupied_0;
    lemma_subtree_in_range(t, k, st, clock, h);
    lemma_subtree_has_root(k, st, clock, h);
    assert(node_ok(t, k, st, clock, h));
    let ks = k[p];
    let idx = ks.index_of(h as u32);
    assert(ks.contains(h as u32));
    assert(0 <= idx < ks.len() && ks[idx] == h as u32);
    assert(node_ok(t, k, st, clock, p));
    assert(child_ok(t, k, st, p, idx));
    lemma_remove_entry(ks, idx);
    let r = ks.remove(idx);
    assert(k1[p] == r);
    let m = lemma_unlink_shape(t, k, st, clock, h);
    assert(!sub.contains(p as u32)) by {
        if sub.contains(p as u32) {
            let n = lemma_subtree_below(t, k, st, clock, h, p as u32);
            lemma_ancestor_older(t, k, st, clock, p, n, h);
        }
    }
    lemma_freed_other(tu, ff, sub, p);
    let pc = t[p]->Occupied_0;
    if idx == 0 {
        assert(m == p);
    } else {
        assert(child_ok(t, k, st, p, idx - 1));
        assert(m == ks[idx - 1] as int);
        assert(m != p);
    }
    assert(t1[p]->Occupied_0.first_child == (if r.len() == 0 { None } else { Some(r[0]) }));
    assert forall|j: int| 0 <= j < r.len() implies #[trigger] child_ok(t1, k1, st, p, j) by {
        let j1 = if j < idx { j } else { j + 1 };
        assert(r[j] == ks[j1]);
        assert(child_ok(t, k, st, p, j1));
        let c = ks[j1] as int;
        assert(c != h);
        assert(node_ok(t, k, st, clock, c));
        lemma_child_outside(t, k, st, clock, h, p, c);
        lemma_freed_other(tu, ff, sub, c);
        if j + 1 < r.len() {
            let j2 = if j + 1 < idx { j + 1 } else { j + 2 };
            assert(r[j + 1] == ks[j2]);
        }
        if j1 + 1 < ks.len() && j1 + 1 != idx {
            assert(j1 + 1 == (if j + 1 < idx { j + 1 } else { j + 2 }));
        }
    }
    if let Some(q) = pc.parent {
        lemma_parent_outside(t, k, st, clock, h, p, q as int);
        lemma_freed_other(tu, ff, sub, q as int);
        if q as int == p {
            assert(ks.contains(p as u32));
            assert(p as u32 != h as u32);
        } else {
            assert(k1[q as int] == k[q as int]);
        }
    }
}

/// Revoking capability `h` of a well-formed tree (taking it out of its parent's chain, then
/// freeing its subtree) leaves a well-formed tree, with `h` out of its parent's child list.
pub proof fn lemma_revoke_keeps_tree(t: Seq<Slot>, k: Map<int, Seq<u32>>, st: Map<int, nat>, clock: nat, ff: Option<u32>, h: int)
    requires
        tree_ok(t, k, st, clock),
        valid_handle(h),
        t[h] is Occupied,
    ensures
        tree_ok(freed(unlink(t, k, h), ff, subtree(k, st, clock, h)), kids_without(t, k, h), st, clock),
{
    let t1 = freed(unlink(t, k, h), ff, subtree(k, st, clock, h));
    lemma_subtree_in_range(t, k, st, clock, h);
    lemma_unlink_shape(t, k, st, clock, h);
    lemma_freed_len(unlink(t, k, h), ff, subtree(k, st, clock, h));
    assert forall|i: int| 0 <= i < MAX_CAPS && #[trigger] t1[i] is Occupied implies node_ok(t1, kids_without(t, k, h), st, clock, i) by {
        if t[h]->Occupied_0.parent == Some(i as u32) {
            lemma_revoke_node_parent(t, k, st, clock, ff, h, i);
        } else {
            lemma_revoke_node_other(t, k, st, clock, ff, h, i);
        }
    }
}

} // verus!
