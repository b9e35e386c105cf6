//! Doubly-linked list with cursor iteration and stable item referencing.
//!
//! Nodes live in a grow-only arena (`Vec<Slot<T>>`) and are linked by
//! arena indices instead of raw pointers.  A vacated slot is never
//! reused, so the index of a live node identifies its value for the
//! whole life of the list: a [`Ref`] to a removed node can never be
//! mistaken for a reference to a later insertion.

use vstd::prelude::*;
use vstd::pervasive::unreached;

verus! {

// ---------------------------------------------------------------------
// Sequence lemmas about the ghost order of arena indices.
// ---------------------------------------------------------------------
/// A duplicate-free sequence locates each member at a single index.
proof fn lemma_index_of_unique(s: Seq<int>, x: int, j: int)
    requires
        s.no_duplicates(),
        0 <= j < s.len(),
        s[j] == x,
    ensures
        s.contains(x),
        s.index_of(x) == j,
{
    assert(s.contains(x));
    let i = s.index_of(x);
    assert(s[i] == x);
    if i != j {
        assert(s[i] != s[j]);
    }
}

/// Membership after inserting `x` at position `k`.
proof fn lemma_insert_contains(s: Seq<int>, k: int, x: int, y: int)
    requires
        0 <= k <= s.len(),
    ensures
        s.insert(k, x).contains(y) <==> (s.contains(y) || y == x),
{
    s.insert_ensures(k, x);
    let t = s.insert(k, x);
    if t.contains(y) {
        let j = choose|j: int| 0 <= j < t.len() && t[j] == y;
        if j < k {
            assert(s[j] == y);
            assert(s.contains(y));
        } else if j == k {
            assert(y == x);
        } else {
            assert(s[j - 1] == y);
            assert(s.contains(y));
        }
    }
    if s.contains(y) {
        let j = choose|j: int| 0 <= j < s.len() && s[j] == y;
        if j < k {
            assert(t[j] == y);
        } else {
            assert(t[j + 1] == y);
        }
        assert(t.contains(y));
    }
    if y == x {
        assert(t[k] == y);
        assert(t.contains(y));
    }
}

/// Inserting a fresh element preserves freedom from duplicates.
proof fn lemma_insert_no_duplicates(s: Seq<int>, k: int, x: int)
    requires
        0 <= k <= s.len(),
        s.no_duplicates(),
        !s.contains(x),
    ensures
        s.insert(k, x).no_duplicates(),
{
    s.insert_ensures(k, x);
    let t = s.insert(k, x);
    assert forall|i: int, j: int|
        0 <= i < t.len() && 0 <= j < t.len() && i != j implies t[i] != t[j] by {
        if i != k && j != k {
            let io: int = if i < k { i } else { i - 1 };
            let jo: int = if j < k { j } else { j - 1 };
            assert(t[i] == s[io]);
            assert(t[j] == s[jo]);
        } else if i == k {
            let jo: int = if j < k { j } else { j - 1 };
            assert(t[j] == s[jo]);
            assert(s.contains(s[jo]));
        } else {
            let io: int = if i < k { i } else { i - 1 };
            assert(t[i] == s[io]);
            assert(s.contains(s[io]));
        }
    }
}

/// Membership after removing position `k` from a duplicate-free sequence.
proof fn lemma_remove_contains(s: Seq<int>, k: int, y: int)
    requires
        0 <= k < s.len(),
        s.no_duplicates(),
    ensures
        s.remove(k).contains(y) <==> (s.contains(y) && y != s[k]),
{
    s.remove_ensures(k);
    let t = s.remove(k);
    if t.contains(y) {
        let j = choose|j: int| 0 <= j < t.len() && t[j] == y;
        if j < k {
            assert(s[j] == y);
            assert(s.contains(y));
            assert(s[j] != s[k]);
        } else {
            assert(s[j + 1] == y);
            assert(s.contains(y));
            assert(s[j + 1] != s[k]);
        }
    }
    if s.contains(y) && y != s[k] {
        let j = choose|j: int| 0 <= j < s.len() && s[j] == y;
        if j < k {
            assert(t[j] == y);
        } else {
            assert(j != k);
            assert(t[j - 1] == y);
        }
        assert(t.contains(y));
    }
}

/// Removing a position preserves freedom from duplicates.
proof fn lemma_remove_no_duplicates(s: Seq<int>, k: int)
    requires
        0 <= k < s.len(),
        s.no_duplicates(),
    ensures
        s.remove(k).no_duplicates(),
{
    s.remove_ensures(k);
    let t = s.remove(k);
    assert forall|i: int, j: int|
        0 <= i < t.len() && 0 <= j < t.len() && i != j implies t[i] != t[j] by {
        let io: int = if i < k { i } else { i + 1 };
        let jo: int = if j < k { j } else { j + 1 };
        assert(t[i] == s[io]);
        assert(t[j] == s[jo]);
    }
}

/// One cell of the node arena: either a live node of the chain, or the
/// hole left behind by a removal.
enum Slot<T> {
    /// Hole left by a removal; never refilled.
    Vacant,
    /// Live node: the stored value and the arena indices of its
    /// neighbours in the chain.
    Filled { value: T, prev: Option<usize>, next: Option<usize> },
}

/// The value stored in a filled slot.
spec fn slot_value<T>(s: Slot<T>) -> T
    recommends
        s is Filled,
{
    s->value
}

// ---------------------------------------------------------------------
// Arena slot accessors.
// ---------------------------------------------------------------------
/// Read the `prev` link of the filled slot `i`.
fn slot_get_prev<T>(slots: &Vec<Slot<T>>, i: usize) -> (p: Option<usize>)
    requires
        i < slots@.len(),
        slots@[i as int] is Filled,
    ensures
        p == slots@[i as int]->prev,
{
    match &slots[i] {
        Slot::Filled { prev, .. } => *prev,
        Slot::Vacant => unreached(),
    }
}

/// Read the `next` link of the filled slot `i`.
fn slot_get_next<T>(slots: &Vec<Slot<T>>, i: usize) -> (n: Option<usize>)
    requires
        i < slots@.len(),
        slots@[i as int] is Filled,
    ensures
        n == slots@[i as int]->next,
{
    match &slots[i] {
        Slot::Filled { next, .. } => *next,
        Slot::Vacant => unreached(),
    }
}

/// Borrow the value of the filled slot `i`.
fn slot_borrow_value<T>(slots: &Vec<Slot<T>>, i: usize) -> (v: &T)
    requires
        i < slots@.len(),
        slots@[i as int] is Filled,
    ensures
        *v == slot_value(slots@[i as int]),
{
    match &slots[i] {
        Slot::Filled { value, .. } => value,
        Slot::Vacant => unreached(),
    }
}

/// Redirect the `prev` link of the filled slot `i`, keeping its value
/// and `next` link.
fn slot_set_prev<T>(slots: &mut Vec<Slot<T>>, i: usize, p: Option<usize>)
    requires
        i < old(slots)@.len(),
        old(slots)@[i as int] is Filled,
    ensures
        final(slots)@ == old(slots)@.update(
            i as int,
            (Slot::Filled {
                value: old(slots)@[i as int]->value,
                prev: p,
                next: old(slots)@[i as int]->next,
            }),
        ),
{
    match &mut slots[i] {
        Slot::Filled { prev, .. } => {
            *prev = p;
        },
        Slot::Vacant => (),
    }
}

/// Redirect the `next` link of the filled slot `i`, keeping its value
/// and `prev` link.
fn slot_set_next<T>(slots: &mut Vec<Slot<T>>, i: usize, n: Option<usize>)
    requires
        i < old(slots)@.len(),
        old(slots)@[i as int] is Filled,
    ensures
        final(slots)@ == old(slots)@.update(
            i as int,
            (Slot::Filled {
                value: old(slots)@[i as int]->value,
                prev: old(slots)@[i as int]->prev,
                next: n,
            }),
        ),
{
    match &mut slots[i] {
        Slot::Filled { next, .. } => {
            *next = n;
        },
        Slot::Vacant => (),
    }
}

/// Replace the value of the filled slot `i`, keeping its links.
fn slot_set_value<T>(slots: &mut Vec<Slot<T>>, i: usize, v: T)
    requires
        i < old(slots)@.len(),
        old(slots)@[i as int] is Filled,
    ensures
        final(slots)@ == old(slots)@.update(
            i as int,
            (Slot::Filled {
                value: v,
                prev: old(slots)@[i as int]->prev,
                next: old(slots)@[i as int]->next,
            }),
        ),
{
    match &mut slots[i] {
        Slot::Filled { value, .. } => {
            *value = v;
        },
        Slot::Vacant => (),
    }
}

/// Empty the filled slot `i`, returning its value.
fn slot_take<T>(slots: &mut Vec<Slot<T>>, i: usize) -> (v: T)
    requires
        i < old(slots)@.len(),
        old(slots)@[i as int] is Filled,
    ensures
        v == slot_value(old(slots)@[i as int]),
        final(slots)@ == old(slots)@.update(i as int, Slot::Vacant),
{
    let mut taken: Slot<T> = Slot::Vacant;
    core::mem::swap(&mut taken, &mut slots[i]);
    match taken {
        Slot::Filled { value, .. } => value,
        Slot::Vacant => unreached(),
    }
}

/// Structural agreement of the index links in `slots` with the chain
/// order `ord`: the ordered indices are distinct, in bounds and filled,
/// every `prev`/`next` link points at the chain neighbour, and every
/// slot outside the chain is vacant.
spec fn chain_wf<T>(slots: Seq<Slot<T>>, ord: Seq<int>) -> bool {
    &&& slots.len() <= usize::MAX
    &&& ord.len() <= slots.len()
    &&& forall|k: int| 0 <= k < ord.len() ==> 0 <= #[trigger] ord[k] < slots.len()
    &&& ord.no_duplicates()
    &&& forall|k: int| 0 <= k < ord.len() ==> (#[trigger] slots[ord[k]]) is Filled
    &&& forall|k: int|
        0 <= k < ord.len() ==> (#[trigger] slots[ord[k]])->prev == (if k == 0 {
            Option::<usize>::None
        } else {
            Some(ord[k - 1] as usize)
        })
    &&& forall|k: int|
        0 <= k < ord.len() ==> (#[trigger] slots[ord[k]])->next == (if k == ord.len() - 1 {
            Option::<usize>::None
        } else {
            Some(ord[k + 1] as usize)
        })
    &&& forall|i: int|
        0 <= i < slots.len() && !ord.contains(i) ==> (#[trigger] slots[i]) is Vacant
}

/// Shape of the arena after splicing one fresh node into a chain:
/// `s1` is `s0` with a node pushed at index `s0.len()`, linked between
/// the chain neighbours `l` and `n` of position `k`.
spec fn splice_shape<T>(
    s0: Seq<Slot<T>>,
    s1: Seq<Slot<T>>,
    ord0: Seq<int>,
    k: int,
    l: Option<usize>,
    n: Option<usize>,
    v: T,
) -> bool {
    &&& chain_wf(s0, ord0)
    &&& s0.len() < usize::MAX
    &&& 0 <= k <= ord0.len()
    &&& l == (if k == 0 {
        Option::<usize>::None
    } else {
        Some(ord0[k - 1] as usize)
    })
    &&& n == (if k == ord0.len() {
        Option::<usize>::None
    } else {
        Some(ord0[k] as usize)
    })
    &&& s1.len() == s0.len() + 1
    &&& s1[s0.len() as int] == (Slot::Filled { value: v, prev: l, next: n })
    &&& forall|x: int|
        0 <= x < s0.len() && l != Some(x as usize) && n != Some(x as usize)
            ==> #[trigger] s1[x] == s0[x]
    &&& (l matches Some(li) ==> s1[li as int] == (Slot::Filled {
        value: s0[li as int]->value,
        prev: s0[li as int]->prev,
        next: Some(s0.len() as usize),
    }))
    &&& (n matches Some(ni) ==> s1[ni as int] == (Slot::Filled {
        value: s0[ni as int]->value,
        prev: Some(s0.len() as usize),
        next: s0[ni as int]->next,
    }))
}

/// Order bookkeeping for a splice: membership and positions after
/// inserting the fresh index `ri` at position `k`.
proof fn lemma_splice_order(ord0: Seq<int>, k: int, ri: int)
    requires
        ord0.no_duplicates(),
        0 <= k <= ord0.len(),
        !ord0.contains(ri),
    ensures
        ord0.insert(k, ri).no_duplicates(),
        forall|y: int| #[trigger]
            ord0.insert(k, ri).contains(y) <==> (ord0.contains(y) || y == ri),
        ord0.insert(k, ri).index_of(ri) == k,
        forall|x: int| #[trigger]
            ord0.contains(x) ==> ord0.insert(k, ri).index_of(x) == (if ord0.index_of(x) < k {
                ord0.index_of(x)
            } else {
                ord0.index_of(x) + 1
            }),
{
    let ord1 = ord0.insert(k, ri);
    ord0.insert_ensures(k, ri);
    lemma_insert_no_duplicates(ord0, k, ri);
    assert forall|y: int| #[trigger]
        ord1.contains(y) <==> ord0.contains(y) || y == ri by {
        lemma_insert_contains(ord0, k, ri, y);
    }
    lemma_index_of_unique(ord1, ri, k);
    assert forall|x: int| #[trigger]
        ord0.contains(x) implies ord1.index_of(x) == (if ord0.index_of(x) < k {
        ord0.index_of(x)
    } else {
        ord0.index_of(x) + 1
    }) by {
        let jo = choose|j: int| 0 <= j < ord0.len() && ord0[j] == x;
        lemma_index_of_unique(ord0, x, jo);
        if jo < k {
            assert(ord1[jo] == x);
            lemma_index_of_unique(ord1, x, jo);
        } else {
            assert(ord1[jo + 1] == x);
            lemma_index_of_unique(ord1, x, jo + 1);
        }
    }
}

/// After a splice every position of the new chain holds a filled,
/// in-bounds slot, values are preserved, and outside slots stay vacant.
proof fn lemma_splice_fill<T>(
    s0: Seq<Slot<T>>,
    s1: Seq<Slot<T>>,
    ord0: Seq<int>,
    k: int,
    l: Option<usize>,
    n: Option<usize>,
    v: T,
)
    requires
        splice_shape(s0, s1, ord0, k, l, n, v),
        !ord0.contains(s0.len() as int),
    ensures
        forall|x: int|
            0 <= x < s0.len() && s0[x] is Filled ==> (#[trigger] s1[x]) is Filled && s1[x]->value
                == s0[x]->value,
        forall|j: int|
            0 <= j < ord0.insert(k, s0.len() as int).len() ==> 0 <= #[trigger] ord0.insert(
                k,
                s0.len() as int,
            )[j] < s1.len() && s1[ord0.insert(k, s0.len() as int)[j]] is Filled,
        forall|i: int|
            0 <= i < s1.len() && !ord0.insert(k, s0.len() as int).contains(i)
                ==> (#[trigger] s1[i]) is Vacant,
{
    let ri = s0.len() as int;
    let ord1 = ord0.insert(k, ri);
    ord0.insert_ensures(k, ri);
    assert forall|x: int|
        0 <= x < s0.len() && s0[x] is Filled implies (#[trigger] s1[x]) is Filled && s1[x]->value
        == s0[x]->value by {
        if l == Some(x as usize) {
        } else if n == Some(x as usize) {
        } else {
            assert(s1[x] == s0[x]);
        }
    }
    assert forall|j: int|
        0 <= j < ord1.len() implies 0 <= #[trigger] ord1[j] < s1.len() && s1[ord1[j]]
        is Filled by {
        if j < k {
            assert(ord1[j] == ord0[j]);
            assert(s0[ord0[j]] is Filled);
        } else if j > k {
            assert(ord1[j] == ord0[j - 1]);
            assert(s0[ord0[j - 1]] is Filled);
        }
    }
    assert forall|i: int|
        0 <= i < s1.len() && !ord1.contains(i) implies (#[trigger] s1[i]) is Vacant by {
        lemma_insert_contains(ord0, k, ri, i);
        assert(i != ri);
        assert(!ord0.contains(i));
        if l == Some(i as usize) {
            assert(ord0[k - 1] == i);
            assert(ord0.contains(i));
        }
        if n == Some(i as usize) {
            assert(ord0[k] == i);
            assert(ord0.contains(i));
        }
        assert(s1[i] == s0[i]);
    }
}

/// After a splice every `prev` link agrees with the new chain order.
#[verifier::spinoff_prover]
proof fn lemma_splice_prev<T>(
    s0: Seq<Slot<T>>,
    s1: Seq<Slot<T>>,
    ord0: Seq<int>,
    k: int,
    l: Option<usize>,
    n: Option<usize>,
    v: T,
)
    requires
        splice_shape(s0, s1, ord0, k, l, n, v),
    ensures
        forall|j: int|
            0 <= j < ord0.insert(k, s0.len() as int).len() ==> (#[trigger] s1[ord0.insert(
                k,
                s0.len() as int,
            )[j]])->prev == (if j == 0 {
                Option::<usize>::None
            } else {
                Some(ord0.insert(k, s0.len() as int)[j - 1] as usize)
            }),
{
    let ri = s0.len() as int;
    let ord1 = ord0.insert(k, ri);
    ord0.insert_ensures(k, ri);
    assert forall|j: int| 0 <= j < ord1.len() implies (#[trigger] s1[ord1[j]])->prev == (if j
        == 0 {
        Option::<usize>::None
    } else {
        Some(ord1[j - 1] as usize)
    }) by {
        if j < k {
            assert(ord1[j] == ord0[j]);
            if n == Some(ord0[j] as usize) {
                assert(ord0[k] == ord0[j]);
                assert(false);
            }
            if l == Some(ord0[j] as usize) {
                assert(s1[ord1[j]]->prev == s0[ord0[j]]->prev);
            } else {
                assert(s1[ord1[j]] == s0[ord0[j]]);
            }
            if j > 0 {
                assert(ord1[j - 1] == ord0[j - 1]);
            }
        } else if j == k {
            assert(ord1[j] == ri);
            if k > 0 {
                assert(ord1[k - 1] == ord0[k - 1]);
            }
        } else if j == k + 1 {
            assert(ord1[j] == ord0[k]);
            assert(n == Some(ord0[k] as usize));
            assert(s1[ord0[k]]->prev == Some(ri as usize));
            assert(ord1[k] == ri);
        } else {
            assert(ord1[j] == ord0[j - 1]);
            if l == Some(ord0[j - 1] as usize) {
                assert(k - 1 == j - 1);
                assert(false);
            }
            if n == Some(ord0[j - 1] as usize) {
                assert(k == j - 1);
                assert(false);
            }
            assert(s1[ord1[j]] == s0[ord0[j - 1]]);
            assert(ord1[j - 1] == ord0[j - 2]);
        }
    }
}

/// After a splice every `next` link agrees with the new chain order.
#[verifier::spinoff_prover]
proof fn lemma_splice_next<T>(
    s0: Seq<Slot<T>>,
    s1: Seq<Slot<T>>,
    ord0: Seq<int>,
    k: int,
    l: Option<usize>,
    n: Option<usize>,
    v: T,
)
    requires
        splice_shape(s0, s1, ord0, k, l, n, v),
    ensures
        forall|j: int|
            0 <= j < ord0.insert(k, s0.len() as int).len() ==> (#[trigger] s1[ord0.insert(
                k,
                s0.len() as int,
            )[j]])->next == (if j == ord0.insert(k, s0.len() as int).len() - 1 {
                Option::<usize>::None
            } else {
                Some(ord0.insert(k, s0.len() as int)[j + 1] as usize)
            }),
{
    let ri = s0.len() as int;
    let ord1 = ord0.insert(k, ri);
    ord0.insert_ensures(k, ri);
    assert forall|j: int| 0 <= j < ord1.len() implies (#[trigger] s1[ord1[j]])->next == (if j
        == ord1.len() - 1 {
        Option::<usize>::None
    } else {
        Some(ord1[j + 1] as usize)
    }) by {
        if j < k - 1 {
            assert(ord1[j] == ord0[j]);
            if n == Some(ord0[j] as usize) {
                assert(ord0[k] == ord0[j]);
                assert(false);
            }
            if l == Some(ord0[j] as usize) {
                assert(ord0[k - 1] == ord0[j]);
                assert(false);
            }
            assert(s1[ord1[j]] == s0[ord0[j]]);
            assert(ord1[j + 1] == ord0[j + 1]);
        } else if j == k - 1 {
            assert(ord1[j] == ord0[k - 1]);
            assert(l == Some(ord0[k - 1] as usize));
            assert(s1[ord0[k - 1]]->next == Some(ri as usize));
            assert(ord1[k] == ri);
        } else if j == k {
            assert(ord1[j] == ri);
            assert(s1[ri]->next == n);
            if k < ord0.len() {
                assert(ord1[k + 1] == ord0[k]);
            }
        } else {
            assert(ord1[j] == ord0[j - 1]);
            if l == Some(ord0[j - 1] as usize) {
                assert(k - 1 == j - 1);
                assert(false);
            }
            if n == Some(ord0[j - 1] as usize) {
                assert(s1[ord1[j]]->next == s0[ord0[j - 1]]->next);
            } else {
                assert(s1[ord1[j]] == s0[ord0[j - 1]]);
            }
            if j < ord1.len() - 1 {
                assert(ord1[j + 1] == ord0[j]);
            }
        }
    }
}

/// Splicing one fresh node into a well-formed chain yields a
/// well-formed chain.
#[verifier::rlimit(100)]
#[verifier::spinoff_prover]
proof fn lemma_splice<T>(
    s0: Seq<Slot<T>>,
    s1: Seq<Slot<T>>,
    ord0: Seq<int>,
    k: int,
    l: Option<usize>,
    n: Option<usize>,
    v: T,
)
    requires
        splice_shape(s0, s1, ord0, k, l, n, v),
    ensures
        chain_wf(s1, ord0.insert(k, s0.len() as int)),
        forall|y: int| #[trigger]
            ord0.insert(k, s0.len() as int).contains(y) <==> (ord0.contains(y) || y
                == s0.len()),
        ord0.insert(k, s0.len() as int).index_of(s0.len() as int) == k,
        forall|x: int| #[trigger]
            ord0.contains(x) ==> ord0.insert(k, s0.len() as int).index_of(x) == (
            if ord0.index_of(x) < k {
                ord0.index_of(x)
            } else {
                ord0.index_of(x) + 1
            }),
        forall|x: int|
            0 <= x < s0.len() && s0[x] is Filled ==> (#[trigger] s1[x]) is Filled && s1[x]->value
                == s0[x]->value,
{
    let ri = s0.len() as int;
    ord0.insert_ensures(k, ri);
    assert(!ord0.contains(ri)) by {
        if ord0.contains(ri) {
            let j = choose|j: int| 0 <= j < ord0.len() && ord0[j] == ri;
            assert(ord0[j] < s0.len());
        }
    }
    lemma_splice_order(ord0, k, ri);
    lemma_splice_fill(s0, s1, ord0, k, l, n, v);
    lemma_splice_prev(s0, s1, ord0, k, l, n, v);
    lemma_splice_next(s0, s1, ord0, k, l, n, v);
}

/// Shape of the arena after unsplicing the node of chain position `k`:
/// `s1` is `s0` with slot `ord0[k]` vacated and its neighbours `l` and
/// `n` linked to each other.
spec fn unsplice_shape<T>(
    s0: Seq<Slot<T>>,
    s1: Seq<Slot<T>>,
    ord0: Seq<int>,
    k: int,
    l: Option<usize>,
    n: Option<usize>,
) -> bool {
    &&& chain_wf(s0, ord0)
    &&& 0 <= k < ord0.len()
    &&& l == (if k == 0 {
        Option::<usize>::None
    } else {
        Some(ord0[k - 1] as usize)
    })
    &&& n == (if k == ord0.len() - 1 {
        Option::<usize>::None
    } else {
        Some(ord0[k + 1] as usize)
    })
    &&& s1.len() == s0.len()
    &&& s1[ord0[k]] is Vacant
    &&& forall|x: int|
        0 <= x < s0.len() && x != ord0[k] && l != Some(x as usize) && n != Some(x as usize)
            ==> #[trigger] s1[x] == s0[x]
    &&& (l matches Some(li) ==> s1[li as int] == (Slot::Filled {
        value: s0[li as int]->value,
        prev: s0[li as int]->prev,
        next: n,
    }))
    &&& (n matches Some(ni) ==> s1[ni as int] == (Slot::Filled {
        value: s0[ni as int]->value,
        prev: l,
        next: s0[ni as int]->next,
    }))
}

/// Order bookkeeping for an unsplice: membership and positions after
/// removing position `k`.
proof fn lemma_unsplice_order(ord0: Seq<int>, k: int)
    requires
        ord0.no_duplicates(),
        0 <= k < ord0.len(),
    ensures
        ord0.remove(k).no_duplicates(),
        forall|y: int| #[trigger]
            ord0.remove(k).contains(y) <==> (ord0.contains(y) && y != ord0[k]),
        forall|x: int| #[trigger]
            ord0.contains(x) && x != ord0[k] ==> ord0.remove(k).index_of(x) == (
            if ord0.index_of(x) < k {
                ord0.index_of(x)
            } else {
                ord0.index_of(x) - 1
            }),
{
    let ord2 = ord0.remove(k);
    ord0.remove_ensures(k);
    lemma_remove_no_duplicates(ord0, k);
    assert forall|y: int| #[trigger]
        ord2.contains(y) <==> ord0.contains(y) && y != ord0[k] by {
        lemma_remove_contains(ord0, k, y);
    }
    assert forall|x: int| #[trigger]
        ord0.contains(x) && x != ord0[k] implies ord2.index_of(x) == (if ord0.index_of(x) < k {
        ord0.index_of(x)
    } else {
        ord0.index_of(x) - 1
    }) by {
        let jo = choose|j: int| 0 <= j < ord0.len() && ord0[j] == x;
        lemma_index_of_unique(ord0, x, jo);
        assert(jo != k);
        if jo < k {
            assert(ord2[jo] == x);
            lemma_index_of_unique(ord2, x, jo);
        } else {
            assert(ord2[jo - 1] == x);
            lemma_index_of_unique(ord2, x, jo - 1);
        }
    }
}

/// After an unsplice the remaining chain positions stay filled with
/// their values, and everything outside the chain is vacant.
proof fn lemma_unsplice_fill<T>(
    s0: Seq<Slot<T>>,
    s1: Seq<Slot<T>>,
    ord0: Seq<int>,
    k: int,
    l: Option<usize>,
    n: Option<usize>,
)
    requires
        unsplice_shape(s0, s1, ord0, k, l, n),
    ensures
        forall|x: int|
            0 <= x < s0.len() && s0[x] is Filled && x != ord0[k] ==> (#[trigger] s1[x])
                is Filled && s1[x]->value == s0[x]->value,
        forall|j: int|
            0 <= j < ord0.remove(k).len() ==> 0 <= #[trigger] ord0.remove(k)[j] < s1.len()
                && s1[ord0.remove(k)[j]] is Filled,
        forall|i: int|
            0 <= i < s1.len() && !ord0.remove(k).contains(i) ==> (#[trigger] s1[i]) is Vacant,
{
    let ord2 = ord0.remove(k);
    ord0.remove_ensures(k);
    assert forall|x: int|
        0 <= x < s0.len() && s0[x] is Filled && x != ord0[k] implies (#[trigger] s1[x])
        is Filled && s1[x]->value == s0[x]->value by {
        if l == Some(x as usize) {
        } else if n == Some(x as usize) {
        } else {
            assert(s1[x] == s0[x]);
        }
    }
    assert forall|j: int|
        0 <= j < ord2.len() implies 0 <= #[trigger] ord2[j] < s1.len() && s1[ord2[j]]
        is Filled by {
        if j < k {
            assert(ord2[j] == ord0[j]);
            assert(s0[ord0[j]] is Filled);
            assert(ord0[j] != ord0[k]);
        } else {
            assert(ord2[j] == ord0[j + 1]);
            assert(s0[ord0[j + 1]] is Filled);
            assert(ord0[j + 1] != ord0[k]);
        }
    }
    assert forall|i: int|
        0 <= i < s1.len() && !ord2.contains(i) implies (#[trigger] s1[i]) is Vacant by {
        lemma_remove_contains(ord0, k, i);
        if i == ord0[k] {
        } else {
            assert(!ord0.contains(i));
            if l == Some(i as usize) {
                assert(ord0[k - 1] == i);
                assert(ord0.contains(i));
            }
            if n == Some(i as usize) {
                assert(ord0[k + 1] == i);
                assert(ord0.contains(i));
            }
            assert(s1[i] == s0[i]);
        }
    }
}

/// After an unsplice every `prev` link agrees with the shortened chain.
#[verifier::spinoff_prover]
proof fn lemma_unsplice_prev<T>(
    s0: Seq<Slot<T>>,
    s1: Seq<Slot<T>>,
    ord0: Seq<int>,
    k: int,
    l: Option<usize>,
    n: Option<usize>,
)
    requires
        unsplice_shape(s0, s1, ord0, k, l, n),
    ensures
        forall|j: int|
            0 <= j < ord0.remove(k).len() ==> (#[trigger] s1[ord0.remove(k)[j]])->prev == (
            if j == 0 {
                Option::<usize>::None
            } else {
                Some(ord0.remove(k)[j - 1] as usize)
            }),
{
    let ord2 = ord0.remove(k);
    ord0.remove_ensures(k);
    assert forall|j: int| 0 <= j < ord2.len() implies (#[trigger] s1[ord2[j]])->prev == (if j
        == 0 {
        Option::<usize>::None
    } else {
        Some(ord2[j - 1] as usize)
    }) by {
        if j < k {
            assert(ord2[j] == ord0[j]);
            if n == Some(ord0[j] as usize) {
                assert(ord0[k + 1] == ord0[j]);
                assert(false);
            }
            if l == Some(ord0[j] as usize) {
                assert(s1[ord2[j]]->prev == s0[ord0[j]]->prev);
            } else {
                assert(s1[ord2[j]] == s0[ord0[j]]);
            }
            if j > 0 {
                assert(ord2[j - 1] == ord0[j - 1]);
            }
        } else if j == k {
            assert(ord2[j] == ord0[k + 1]);
            assert(n == Some(ord0[k + 1] as usize));
            assert(s1[ord0[k + 1]]->prev == l);
            if k > 0 {
                assert(ord2[k - 1] == ord0[k - 1]);
            }
        } else {
            assert(ord2[j] == ord0[j + 1]);
            if l == Some(ord0[j + 1] as usize) {
                assert(k - 1 == j + 1);
                assert(false);
            }
            if n == Some(ord0[j + 1] as usize) {
                assert(k + 1 == j + 1);
                assert(false);
            }
            assert(s1[ord2[j]] == s0[ord0[j + 1]]);
            if j - 1 >= k {
                assert(ord2[j - 1] == ord0[j]);
            } else {
                assert(ord2[j - 1] == ord0[j - 1]);
            }
        }
    }
}

/// After an unsplice every `next` link agrees with the shortened chain.
#[verifier::spinoff_prover]
proof fn lemma_unsplice_next<T>(
    s0: Seq<Slot<T>>,
    s1: Seq<Slot<T>>,
    ord0: Seq<int>,
    k: int,
    l: Option<usize>,
    n: Option<usize>,
)
    requires
        unsplice_shape(s0, s1, ord0, k, l, n),
    ensures
        forall|j: int|
            0 <= j < ord0.remove(k).len() ==> (#[trigger] s1[ord0.remove(k)[j]])->next == (
            if j == ord0.remove(k).len() - 1 {
                Option::<usize>::None
            } else {
                Some(ord0.remove(k)[j + 1] as usize)
            }),
{
    let ord2 = ord0.remove(k);
    ord0.remove_ensures(k);
    assert forall|j: int| 0 <= j < ord2.len() implies (#[trigger] s1[ord2[j]])->next == (if j
        == ord2.len() - 1 {
        Option::<usize>::None
    } else {
        Some(ord2[j + 1] as usize)
    }) by {
        if j < k - 1 {
            assert(ord2[j] == ord0[j]);
            if l == Some(ord0[j] as usize) {
                assert(ord0[k - 1] == ord0[j]);
                assert(false);
            }
            if n == Some(ord0[j] as usize) {
                assert(ord0[k + 1] == ord0[j]);
                assert(false);
            }
            assert(s1[ord2[j]] == s0[ord0[j]]);
            assert(ord2[j + 1] == ord0[j + 1]);
        } else if j == k - 1 {
            assert(ord2[j] == ord0[k - 1]);
            assert(l == Some(ord0[k - 1] as usize));
            assert(s1[ord0[k - 1]]->next == n);
            if k < ord0.len() - 1 {
                assert(ord2[k] == ord0[k + 1]);
            }
        } else {
            assert(ord2[j] == ord0[j + 1]);
            if l == Some(ord0[j + 1] as usize) {
                assert(k - 1 == j + 1);
                assert(false);
            }
            if n == Some(ord0[j + 1] as usize) {
                assert(s1[ord2[j]]->next == s0[ord0[j + 1]]->next);
            } else {
                assert(s1[ord2[j]] == s0[ord0[j + 1]]);
            }
            if j < ord2.len() - 1 {
                assert(ord2[j + 1] == ord0[j + 2]);
            }
        }
    }
}

/// Unsplicing one node from a well-formed chain yields a well-formed
/// chain.
#[verifier::rlimit(100)]
#[verifier::spinoff_prover]
proof fn lemma_unsplice<T>(
    s0: Seq<Slot<T>>,
    s1: Seq<Slot<T>>,
    ord0: Seq<int>,
    k: int,
    l: Option<usize>,
    n: Option<usize>,
)
    requires
        unsplice_shape(s0, s1, ord0, k, l, n),
    ensures
        chain_wf(s1, ord0.remove(k)),
        forall|y: int| #[trigger]
            ord0.remove(k).contains(y) <==> (ord0.contains(y) && y != ord0[k]),
        forall|x: int| #[trigger]
            ord0.contains(x) && x != ord0[k] ==> ord0.remove(k).index_of(x) == (
            if ord0.index_of(x) < k {
                ord0.index_of(x)
            } else {
                ord0.index_of(x) - 1
            }),
        forall|x: int|
            0 <= x < s0.len() && s0[x] is Filled && x != ord0[k] ==> (#[trigger] s1[x])
                is Filled && s1[x]->value == s0[x]->value,
{
    ord0.remove_ensures(k);
    lemma_unsplice_order(ord0, k);
    lemma_unsplice_fill(s0, s1, ord0, k, l, n);
    lemma_unsplice_prev(s0, s1, ord0, k, l, n);
    lemma_unsplice_next(s0, s1, ord0, k, l, n);
}

/// Doubly-linked list of values of type `T`.
///
/// `head` and `tail` are `None` exactly when the list is empty; `length`
/// caches the number of live nodes.  The ghost `order` sequence lists the
/// arena indices of the live nodes in chain order and ties the index
/// links to the list's abstract value sequence.
pub struct LinkedList<T> {
    slots: Vec<Slot<T>>,
    head: Option<usize>,
    tail: Option<usize>,
    length: usize,
    order: Ghost<Seq<int>>,
}

/// Stable reference to one value of a [`LinkedList`]: the arena index of
/// the node holding it.  It keeps identifying the same value across
/// unrelated insertions and removals, until that value itself is removed.
#[derive(Clone, Copy, PartialEq, Eq, Structural)]
pub struct Ref {
    idx: usize,
}

/// Token returned by a removal, recording the [`Ref`] that the removal
/// invalidated.  Holders of an equal `Ref` must discard it.
#[derive(Clone, Copy)]
pub struct NullRef {
    idx: usize,
}

impl NullRef {
    /// The invalidated reference this token stands for.
    pub closed spec fn spec_ref(self) -> Ref {
        Ref { idx: self.idx }
    }

    /// Does `r` refer to the removed value this token was issued for?
    pub fn invalidates(&self, r: &Ref) -> (b: bool)
        ensures
            b == (*r == self.spec_ref()),
    {
        self.idx == r.idx
    }
}

impl<T> View for LinkedList<T> {
    type V = Seq<T>;

    /// The values of the list, in chain order from head to tail.
    closed spec fn view(&self) -> Seq<T> {
        Seq::new(self.order@.len(), |k: int| slot_value(self.slots@[self.order@[k]]))
    }
}

impl<T> LinkedList<T> {
    /// Arena indices of the live nodes, in chain order.
    closed spec fn order(self) -> Seq<int> {
        self.order@
    }

    /// Structural invariant: the ghost order, the index links, the
    /// head/tail pointers and the cached length all agree.
    pub closed spec fn wf(self) -> bool {
        let ord = self.order@;
        &&& chain_wf(self.slots@, ord)
        &&& self.length == ord.len()
        &&& self.head == (if ord.len() == 0 {
            Option::<usize>::None
        } else {
            Some(ord[0] as usize)
        })
        &&& self.tail == (if ord.len() == 0 {
            Option::<usize>::None
        } else {
            Some(ord[ord.len() - 1] as usize)
        })
    }

    /// Does `r` refer to a value currently in the list?
    pub closed spec fn contains_ref(self, r: Ref) -> bool {
        self.order@.contains(r.idx as int)
    }

    /// The value `r` refers to (meaningful when `contains_ref(r)`).
    pub closed spec fn resolve(self, r: Ref) -> T {
        slot_value(self.slots@[r.idx as int])
    }

    /// The position in the value sequence that `r` refers to
    /// (meaningful when `contains_ref(r)`).
    pub closed spec fn ref_pos(self, r: Ref) -> int {
        self.order@.index_of(r.idx as int)
    }

    /// A contained reference names the position of its value: resolving
    /// the reference yields exactly the element at `ref_pos`.
    pub proof fn lemma_ref_pos(self, r: Ref)
        requires
            self.wf(),
            self.contains_ref(r),
        ensures
            0 <= self.ref_pos(r) < self@.len(),
            self@[self.ref_pos(r)] == self.resolve(r),
    {
        let ord = self.order@;
        let k = ord.index_of(r.idx as int);
        assert(ord[k] == r.idx as int);
    }

    /// Distinct live references occupy distinct positions.
    pub proof fn lemma_ref_pos_injective(self, r1: Ref, r2: Ref)
        requires
            self.wf(),
            self.contains_ref(r1),
            self.contains_ref(r2),
            self.ref_pos(r1) == self.ref_pos(r2),
        ensures
            r1 == r2,
    {
        let ord = self.order@;
        let k1 = ord.index_of(r1.idx as int);
        assert(ord[k1] == r1.idx as int);
        let k2 = ord.index_of(r2.idx as int);
        assert(ord[k2] == r2.idx as int);
        assert(r1.idx == r2.idx);
    }

    /// Create a new empty list.
    pub fn new() -> (l: Self)
        ensures
            l.wf(),
            l@ == Seq::<T>::empty(),
    {
        let l = LinkedList {
            slots: Vec::new(),
            head: None,
            tail: None,
            length: 0,
            order: Ghost(Seq::empty()),
        };
        proof {
            assert(l@ =~= Seq::<T>::empty());
        }
        l
    }

    /// Number of values in the list.
    pub fn len(&self) -> (n: usize)
        requires
            self.wf(),
        ensures
            n == self@.len(),
    {
        self.length
    }

    /// Splice a fresh node holding `v` into the chain at position `k`,
    /// between the neighbours `l` and `n`, and return its arena index.
    #[verifier::rlimit(100)]
    #[verifier::spinoff_prover]
    fn insert_at(
        &mut self,
        l: Option<usize>,
        n: Option<usize>,
        v: T,
        Ghost(k): Ghost<int>,
    ) -> (r: usize)
        requires
            old(self).wf(),
            0 <= k <= old(self).order().len(),
            l == (if k == 0 {
                Option::<usize>::None
            } else {
                Some(old(self).order()[k - 1] as usize)
            }),
            n == (if k == old(self).order().len() {
                Option::<usize>::None
            } else {
                Some(old(self).order()[k] as usize)
            }),
        ensures
            final(self).wf(),
            r as int == old(self).slots@.len(),
            final(self).order() == old(self).order().insert(k, r as int),
            final(self)@ == old(self)@.insert(k, v),
            final(self).contains_ref(Ref { idx: r }),
            final(self).ref_pos(Ref { idx: r }) == k,
            final(self).resolve(Ref { idx: r }) == v,
            !old(self).contains_ref(Ref { idx: r }),
            forall|rf: Ref|
                #[trigger] old(self).contains_ref(rf) ==> (final(self).contains_ref(rf)
                    && final(self).resolve(rf) == old(self).resolve(rf) && final(self).ref_pos(rf)
                    == old(self).ref_pos(rf) + (if old(self).ref_pos(rf) >= k {
                    1int
                } else {
                    0int
                })),
            forall|rf: Ref|
                #[trigger] final(self).contains_ref(rf) ==> (old(self).contains_ref(rf) || rf
                    == (Ref { idx: r })),
    {
        let r = self.slots.len();
        self.slots.push(Slot::Filled { value: v, prev: l, next: n });
        match l {
            Some(li) => {
                proof {
                    assert(old(self).order()[k - 1] == li as int);
                }
                slot_set_next(&mut self.slots, li, Some(r));
            },
            None => {
                self.head = Some(r);
            },
        }
        match n {
            Some(ni) => {
                proof {
                    assert(old(self).order()[k] == ni as int);
                }
                slot_set_prev(&mut self.slots, ni, Some(r));
            },
            None => {
                self.tail = Some(r);
            },
        }
        let grown = self.slots.len();
        proof {
            assert(self.length < grown);
        }
        self.length = self.length + 1;
        self.order = Ghost(self.order@.insert(k, r as int));
        proof {
            let ord0 = old(self).order();
            let s0 = old(self).slots@;
            let s1 = self.slots@;
            let ri = r as int;
            // `s1` is `s0` plus the fresh node, with the neighbour links
            // redirected towards it.
            assert forall|x: int|
                0 <= x < s0.len() && l != Some(x as usize) && n != Some(x as usize)
                    implies #[trigger] s1[x] == s0[x] by {}
            lemma_splice(s0, s1, ord0, k, l, n, v);
            ord0.insert_ensures(k, ri);
            assert(!old(self).contains_ref(Ref { idx: r })) by {
                if ord0.contains(ri) {
                    let j = choose|j: int| 0 <= j < ord0.len() && ord0[j] == ri;
                    assert(ord0[j] < s0.len());
                }
            }
            // Head and tail still frame the chain.
            let ord1 = self.order@;
            if k == 0 {
                assert(ord1[0] == ri);
            } else {
                assert(ord1[0] == ord0[0]);
            }
            if k == ord0.len() {
                assert(ord1[ord1.len() - 1] == ri);
            } else {
                assert(ord1[ord1.len() - 1] == ord0[ord0.len() - 1]);
            }
            // The value sequence gained `v` at position `k`.
            old(self)@.insert_ensures(k, v);
            assert forall|j: int|
                0 <= j < ord1.len() implies #[trigger] self@[j] == old(self)@.insert(k, v)[j] by {
                if j < k {
                    assert(ord1[j] == ord0[j]);
                    assert(s0[ord0[j]] is Filled);
                    assert(self@[j] == slot_value(s1[ord0[j]]));
                    assert(old(self)@[j] == slot_value(s0[ord0[j]]));
                } else if j == k {
                    assert(ord1[j] == ri);
                } else {
                    assert(ord1[j] == ord0[j - 1]);
                    assert(s0[ord0[j - 1]] is Filled);
                    assert(self@[j] == slot_value(s1[ord0[j - 1]]));
                    assert(old(self)@[j - 1] == slot_value(s0[ord0[j - 1]]));
                }
            }
            assert(self@ =~= old(self)@.insert(k, v));
            // Reference bookkeeping.
            assert forall|rf: Ref| #[trigger]
                old(self).contains_ref(rf) implies (self.contains_ref(rf) && self.resolve(rf)
                == old(self).resolve(rf) && self.ref_pos(rf) == old(self).ref_pos(rf) + (
            if old(self).ref_pos(rf) >= k {
                1int
            } else {
                0int
            })) by {
                let x = rf.idx as int;
                assert(ord0.contains(x));
                let jo = choose|j: int| 0 <= j < ord0.len() && ord0[j] == x;
                lemma_index_of_unique(ord0, x, jo);
                assert(s0[ord0[jo]] is Filled);
                assert(s0[x] is Filled);
            }
            assert forall|rf: Ref| #[trigger]
                self.contains_ref(rf) implies (old(self).contains_ref(rf) || rf == (Ref {
                idx: r,
            })) by {}
        }
        r
    }

    /// Unlink the node at arena index `i` (chain position `k`), vacate
    /// its slot and return its value.
    fn remove_idx(&mut self, i: usize, Ghost(k): Ghost<int>) -> (v: T)
        requires
            old(self).wf(),
            0 <= k < old(self).order().len(),
            old(self).order()[k] == i as int,
        ensures
            final(self).wf(),
            final(self).order() == old(self).order().remove(k),
            final(self)@ == old(self)@.remove(k),
            v == old(self)@[k],
            !final(self).contains_ref(Ref { idx: i }),
            old(self).contains_ref(Ref { idx: i }),
            old(self).ref_pos(Ref { idx: i }) == k,
            forall|rf: Ref|
                #[trigger] old(self).contains_ref(rf) && rf != (Ref { idx: i })
                    ==> (final(self).contains_ref(rf) && final(self).resolve(rf) == old(
                    self,
                ).resolve(rf) && final(self).ref_pos(rf) == old(self).ref_pos(rf) - (
                if old(self).ref_pos(rf) > k {
                    1int
                } else {
                    0int
                })),
            forall|rf: Ref|
                #[trigger] final(self).contains_ref(rf) ==> (old(self).contains_ref(rf) && rf
                    != (Ref { idx: i })),
    {
        let l = slot_get_prev(&self.slots, i);
        let n = slot_get_next(&self.slots, i);
        proof {
            if k > 0 {
                assert(old(self).order()[k - 1] != old(self).order()[k]);
            }
        }
        match l {
            Some(li) => {
                proof {
                    assert(old(self).order()[k - 1] == li as int);
                }
                slot_set_next(&mut self.slots, li, n);
            },
            None => {
                self.head = n;
            },
        }
        match n {
            Some(ni) => {
                proof {
                    assert(old(self).order()[k + 1] == ni as int);
                }
                slot_set_prev(&mut self.slots, ni, l);
            },
            None => {
                self.tail = l;
            },
        }
        let v = slot_take(&mut self.slots, i);
        self.length = self.length - 1;
        self.order = Ghost(self.order@.remove(k));
        proof {
            let ord0 = old(self).order();
            let ord2 = self.order@;
            let s0 = old(self).slots@;
            let s1 = self.slots@;
            lemma_index_of_unique(ord0, i as int, k);
            assert forall|x: int|
                0 <= x < s0.len() && x != ord0[k] && l != Some(x as usize) && n != Some(
                    x as usize,
                ) implies #[trigger] s1[x] == s0[x] by {}
            lemma_unsplice(s0, s1, ord0, k, l, n);
            ord0.remove_ensures(k);
            // Head and tail still frame the shortened chain.
            if ord2.len() > 0 {
                if k == 0 {
                    assert(ord2[0] == ord0[1]);
                } else {
                    assert(ord2[0] == ord0[0]);
                }
                if k == ord0.len() - 1 {
                    assert(ord2[ord2.len() - 1] == ord0[ord0.len() - 2]);
                } else {
                    assert(ord2[ord2.len() - 1] == ord0[ord0.len() - 1]);
                }
            }
            // The value sequence lost position `k`.
            old(self)@.remove_ensures(k);
            assert forall|j: int|
                0 <= j < ord2.len() implies #[trigger] self@[j] == old(self)@.remove(k)[j] by {
                if j < k {
                    assert(ord2[j] == ord0[j]);
                    assert(s0[ord0[j]] is Filled);
                    assert(ord0[j] != ord0[k]);
                } else {
                    assert(ord2[j] == ord0[j + 1]);
                    assert(s0[ord0[j + 1]] is Filled);
                    assert(ord0[j + 1] != ord0[k]);
                }
            }
            assert(self@ =~= old(self)@.remove(k));
            // Reference bookkeeping.
            assert forall|rf: Ref|
                #[trigger] old(self).contains_ref(rf) && rf != (Ref { idx: i }) implies (
            self.contains_ref(rf) && self.resolve(rf) == old(self).resolve(rf) && self.ref_pos(
                rf,
            ) == old(self).ref_pos(rf) - (if old(self).ref_pos(rf) > k {
                1int
            } else {
                0int
            })) by {
                let x = rf.idx as int;
                assert(x != i as int);
                let jo = choose|j: int| 0 <= j < ord0.len() && ord0[j] == x;
                lemma_index_of_unique(ord0, x, jo);
                assert(s0[ord0[jo]] is Filled);
                assert(s0[x] is Filled);
            }
            assert forall|rf: Ref|
                #[trigger] self.contains_ref(rf) implies (old(self).contains_ref(rf) && rf
                != (Ref { idx: i })) by {}
        }
        v
    }

    /// Overwrite the value at arena index `i` (chain position `k`),
    /// leaving the chain untouched.
    fn set_value_idx(&mut self, i: usize, v: T, Ghost(k): Ghost<int>)
        requires
            old(self).wf(),
            0 <= k < old(self).order().len(),
            old(self).order()[k] == i as int,
        ensures
            final(self).wf(),
            final(self).order() == old(self).order(),
            final(self)@ == old(self)@.update(k, v),
            forall|rf: Ref|
                #[trigger] final(self).contains_ref(rf) == old(self).contains_ref(rf),
            forall|rf: Ref|
                #[trigger] final(self).ref_pos(rf) == old(self).ref_pos(rf),
            forall|rf: Ref|
                old(self).contains_ref(rf) ==> #[trigger] final(self).resolve(rf) == (
                if rf == (Ref { idx: i }) {
                    v
                } else {
                    old(self).resolve(rf)
                }),
    {
        slot_set_value(&mut self.slots, i, v);
        proof {
            let ord = self.order@;
            let s0 = old(self).slots@;
            let s1 = self.slots@;
            assert forall|j: int|
                0 <= j < ord.len() implies (#[trigger] s1[ord[j]]) is Filled && s1[ord[j]]->prev
                == s0[ord[j]]->prev && s1[ord[j]]->next == s0[ord[j]]->next by {
                if ord[j] != i as int {
                    assert(s1[ord[j]] == s0[ord[j]]);
                }
            }
            assert forall|x: int|
                0 <= x < s1.len() && !ord.contains(x) implies (#[trigger] s1[x]) is Vacant by {
                assert(ord[k] == i as int);
                assert(x != i as int);
                assert(s1[x] == s0[x]);
            }
            assert forall|j: int|
                0 <= j < ord.len() implies #[trigger] self@[j] == old(self)@.update(k, v)[j] by {
                if j != k {
                    assert(ord[j] != ord[k]);
                    assert(s1[ord[j]] == s0[ord[j]]);
                }
            }
            assert(self@ =~= old(self)@.update(k, v));
            assert forall|rf: Ref|
                old(self).contains_ref(rf) implies #[trigger] self.resolve(rf) == (
            if rf == (Ref { idx: i }) {
                v
            } else {
                old(self).resolve(rf)
            }) by {
                let x = rf.idx as int;
                if x != i as int {
                    let jo = choose|j: int| 0 <= j < ord.len() && ord[j] == x;
                    assert(ord[jo] == x);
                    assert(s1[x] == s0[x]);
                }
            }
        }
    }
}

/// Mutating traversal handle over a [`LinkedList`].
///
/// The cursor owns its list for the duration of the traversal (take it
/// back with [`CursorMut::into_list`]) and is positioned on one value,
/// or nowhere when the list is empty.
pub struct CursorMut<T> {
    list: LinkedList<T>,
    at: Option<usize>,
    pos: Ghost<int>,
}

impl<T> View for CursorMut<T> {
    type V = Seq<T>;

    /// The values of the traversed list, in chain order.
    open spec fn view(&self) -> Seq<T> {
        self.inner().view()
    }
}

impl<T> CursorMut<T> {
    /// The list this cursor traverses.
    pub closed spec fn inner(self) -> LinkedList<T> {
        self.list
    }

    /// The position of the cursor in the value sequence (0 when the
    /// list is empty).
    pub closed spec fn pos(self) -> int {
        self.pos@
    }

    /// The cursor sits on the value at `pos`, or nowhere iff the list
    /// is empty.
    pub closed spec fn wf(self) -> bool {
        &&& self.list.wf()
        &&& match self.at {
            None => self.list@.len() == 0 && self.pos@ == 0,
            Some(i) => 0 <= self.pos@ < self.list@.len() && self.list.order()[self.pos@]
                == i as int,
        }
    }

    /// A well-formed cursor traverses a well-formed list.
    pub proof fn lemma_inner_wf(self)
        requires
            self.wf(),
        ensures
            self.inner().wf(),
    {
    }

    /// Give the traversed list back.
    pub fn into_list(self) -> (l: LinkedList<T>)
        ensures
            l == self.inner(),
    {
        self.list
    }

    /// Borrow the traversed list.
    pub fn list(&self) -> (l: &LinkedList<T>)
        ensures
            *l == self.inner(),
    {
        &self.list
    }

    /// Try to advance to the next position; `false` (without moving)
    /// when the cursor is already on the last value or the list is
    /// empty.
    pub fn next(&mut self) -> (moved: bool)
        requires
            old(self).wf(),
        ensures
            final(self).wf(),
            final(self).inner() == old(self).inner(),
            moved == (old(self)@.len() > 0 && old(self).pos() + 1 < old(self)@.len()),
            final(self).pos() == old(self).pos() + (if moved {
                1int
            } else {
                0int
            }),
    {
        match self.at {
            None => false,
            Some(i) => {
                proof {
                    assert(self.list.order()[self.pos@] == i as int);
                }
                match slot_get_next(&self.list.slots, i) {
                    Some(nn) => {
                        self.at = Some(nn);
                        self.pos = Ghost(self.pos@ + 1);
                        true
                    },
                    None => false,
                }
            },
        }
    }

    /// Try to move to the previous position; `false` (without moving)
    /// when the cursor is already on the first value or the list is
    /// empty.
    pub fn previous(&mut self) -> (moved: bool)
        requires
            old(self).wf(),
        ensures
            final(self).wf(),
            final(self).inner() == old(self).inner(),
            moved == (old(self)@.len() > 0 && old(self).pos() > 0),
            final(self).pos() == old(self).pos() - (if moved {
                1int
            } else {
                0int
            }),
    {
        match self.at {
            None => false,
            Some(i) => {
                proof {
                    assert(self.list.order()[self.pos@] == i as int);
                }
                match slot_get_prev(&self.list.slots, i) {
                    Some(pp) => {
                        self.at = Some(pp);
                        self.pos = Ghost(self.pos@ - 1);
                        true
                    },
                    None => false,
                }
            },
        }
    }

    /// Jump to the first value of the list.
    pub fn seek_to_start(&mut self)
        requires
            old(self).wf(),
        ensures
            final(self).wf(),
            final(self).inner() == old(self).inner(),
            final(self).pos() == 0,
    {
        self.at = self.list.head;
        self.pos = Ghost(0);
    }

    /// Jump to the last value of the list.
    pub fn seek_to_end(&mut self)
        requires
            old(self).wf(),
        ensures
            final(self).wf(),
            final(self).inner() == old(self).inner(),
            final(self).pos() == (if old(self)@.len() == 0 {
                0int
            } else {
                old(self)@.len() - 1
            }),
    {
        self.at = self.list.tail;
        self.pos = Ghost(
            if self.list@.len() == 0 {
                0int
            } else {
                self.list@.len() - 1
            },
        );
    }

    /// Borrow the value under the cursor; `None` only when the list is
    /// empty.
    pub fn value(&self) -> (v: Option<&T>)
        requires
            self.wf(),
        ensures
            match v {
                Some(x) => self@.len() > 0 && *x == self@[self.pos()],
                None => self@.len() == 0,
            },
    {
        match self.at {
            None => None,
            Some(i) => {
                proof {
                    assert(self.list.order()[self.pos@] == i as int);
                }
                Some(slot_borrow_value(&self.list.slots, i))
            },
        }
    }

    /// A stable [`Ref`] to the value under the cursor; `None` only when
    /// the list is empty.
    pub fn reference(&self) -> (r: Option<Ref>)
        requires
            self.wf(),
        ensures
            match r {
                Some(rf) => self@.len() > 0 && self.inner().contains_ref(rf)
                    && self.inner().ref_pos(rf) == self.pos() && self.inner().resolve(rf)
                    == self@[self.pos()],
                None => self@.len() == 0,
            },
    {
        match self.at {
            None => None,
            Some(i) => {
                proof {
                    lemma_index_of_unique(self.list.order(), i as int, self.pos@);
                    self.list.lemma_ref_pos(Ref { idx: i });
                }
                Some(Ref { idx: i })
            },
        }
    }
}

impl<T> CursorMut<T> {
    /// Insert `v` before the cursor position, returning a [`Ref`] to
    /// the inserted value.  The cursor keeps referring to the value it
    /// was on; on an empty list it moves onto the inserted value.
    pub fn insert_before(&mut self, v: T) -> (r: Ref)
        requires
            old(self).wf(),
        ensures
            final(self).wf(),
            final(self)@ == old(self)@.insert(old(self).pos(), v),
            final(self).pos() == (if old(self)@.len() == 0 {
                0int
            } else {
                old(self).pos() + 1
            }),
            old(self)@.len() > 0 ==> final(self)@[final(self).pos()] == old(self)@[old(
                self,
            ).pos()],
            final(self).inner().contains_ref(r),
            final(self).inner().ref_pos(r) == old(self).pos(),
            final(self).inner().resolve(r) == v,
            !old(self).inner().contains_ref(r),
            forall|rf: Ref|
                #[trigger] old(self).inner().contains_ref(rf) ==> (final(self).inner().contains_ref(rf) && final(self).inner().resolve(rf) == old(
                    self,
                ).inner().resolve(rf) && final(self).inner().ref_pos(rf) == old(
                    self,
                ).inner().ref_pos(rf) + (if old(self).inner().ref_pos(rf) >= old(self).pos() {
                    1int
                } else {
                    0int
                })),
            forall|rf: Ref|
                #[trigger] final(self).inner().contains_ref(rf) ==> (old(
                    self,
                ).inner().contains_ref(rf) || rf == r),
    {
        match self.at {
            None => {
                let r = self.list.insert_at(None, None, v, Ghost(0));
                self.at = Some(r);
                self.pos = Ghost(0);
                Ref { idx: r }
            },
            Some(i) => {
                proof {
                    assert(self.list.order()[self.pos@] == i as int);
                }
                let l = slot_get_prev(&self.list.slots, i);
                let r = self.list.insert_at(l, Some(i), v, Ghost(self.pos@));
                self.pos = Ghost(self.pos@ + 1);
                proof {
                    self.list.order().insert_ensures(old(self).pos(), r as int);
                }
                Ref { idx: r }
            },
        }
    }

    /// Insert `v` after the cursor position, returning a [`Ref`] to
    /// the inserted value.  The cursor keeps referring to the value it
    /// was on; on an empty list it moves onto the inserted value.
    pub fn insert_after(&mut self, v: T) -> (r: Ref)
        requires
            old(self).wf(),
        ensures
            final(self).wf(),
            final(self)@ == old(self)@.insert(
                (if old(self)@.len() == 0 {
                    0int
                } else {
                    old(self).pos() + 1
                }),
                v,
            ),
            final(self).pos() == old(self).pos(),
            old(self)@.len() > 0 ==> final(self)@[final(self).pos()] == old(self)@[old(
                self,
            ).pos()],
            final(self).inner().contains_ref(r),
            final(self).inner().ref_pos(r) == (if old(self)@.len() == 0 {
                0int
            } else {
                old(self).pos() + 1
            }),
            final(self).inner().resolve(r) == v,
            !old(self).inner().contains_ref(r),
            forall|rf: Ref|
                #[trigger] old(self).inner().contains_ref(rf) ==> (final(self).inner().contains_ref(rf) && final(self).inner().resolve(rf) == old(
                    self,
                ).inner().resolve(rf) && final(self).inner().ref_pos(rf) == old(
                    self,
                ).inner().ref_pos(rf) + (if old(self).inner().ref_pos(rf) > old(self).pos() {
                    1int
                } else {
                    0int
                })),
            forall|rf: Ref|
                #[trigger] final(self).inner().contains_ref(rf) ==> (old(
                    self,
                ).inner().contains_ref(rf) || rf == r),
    {
        match self.at {
            None => {
                let r = self.list.insert_at(None, None, v, Ghost(0));
                self.at = Some(r);
                self.pos = Ghost(0);
                Ref { idx: r }
            },
            Some(i) => {
                proof {
                    assert(self.list.order()[self.pos@] == i as int);
                }
                let n = slot_get_next(&self.list.slots, i);
                let r = self.list.insert_at(Some(i), n, v, Ghost(self.pos@ + 1));
                proof {
                    self.list.order().insert_ensures(old(self).pos() + 1, r as int);
                }
                Ref { idx: r }
            },
        }
    }

    /// Overwrite the value under the cursor.  Any [`Ref`] to this
    /// position now resolves to the new value; all other references
    /// are untouched.
    pub fn set_value(&mut self, v: T)
        requires
            old(self).wf(),
            old(self)@.len() > 0,
        ensures
            final(self).wf(),
            final(self)@ == old(self)@.update(old(self).pos(), v),
            final(self).pos() == old(self).pos(),
            forall|rf: Ref|
                #[trigger] final(self).inner().contains_ref(rf) == old(
                    self,
                ).inner().contains_ref(rf),
            forall|rf: Ref|
                #[trigger] final(self).inner().ref_pos(rf) == old(self).inner().ref_pos(rf),
            forall|rf: Ref|
                old(self).inner().contains_ref(rf) ==> #[trigger] final(self).inner().resolve(
                    rf,
                ) == (if old(self).inner().ref_pos(rf) == old(self).pos() {
                    v
                } else {
                    old(self).inner().resolve(rf)
                }),
    {
        match self.at {
            None => (),
            Some(i) => {
                proof {
                    assert(self.list.order()[self.pos@] == i as int);
                }
                self.list.set_value_idx(i, v, Ghost(self.pos@));
                proof {
                    assert forall|rf: Ref|
                        old(self).inner().contains_ref(rf) implies #[trigger] self.inner()
                        .resolve(rf) == (if old(self).inner().ref_pos(rf) == old(self).pos() {
                        v
                    } else {
                        old(self).inner().resolve(rf)
                    }) by {
                        let ord = old(self).inner().order();
                        let x = rf.idx as int;
                        let jo = choose|j: int| 0 <= j < ord.len() && ord[j] == x;
                        lemma_index_of_unique(ord, x, jo);
                        if rf == (Ref { idx: i }) {
                            lemma_index_of_unique(ord, i as int, old(self).pos());
                        } else {
                            assert(x != i as int);
                            if jo == old(self).pos() {
                                assert(ord[jo] == i as int);
                            }
                        }
                    }
                }
            },
        }
    }

    /// Remove the value under the cursor, returning it together with a
    /// [`NullRef`] token naming the now invalid [`Ref`].  The cursor
    /// moves to the previous value if one exists, else to the next.
    /// `None` only when the list is empty.
    pub fn remove(&mut self) -> (res: Option<(T, NullRef)>)
        requires
            old(self).wf(),
        ensures
            final(self).wf(),
            match res {
                None => old(self)@.len() == 0 && final(self).inner() == old(self).inner()
                    && final(self).pos() == 0,
                Some(pair) => {
                    &&& old(self)@.len() > 0
                    &&& pair.0 == old(self)@[old(self).pos()]
                    &&& final(self)@ == old(self)@.remove(old(self).pos())
                    &&& final(self).pos() == (if old(self).pos() > 0 {
                        old(self).pos() - 1
                    } else {
                        0int
                    })
                    &&& old(self).inner().contains_ref(pair.1.spec_ref())
                    &&& old(self).inner().ref_pos(pair.1.spec_ref()) == old(self).pos()
                    &&& !final(self).inner().contains_ref(pair.1.spec_ref())
                    &&& forall|rf: Ref|
                        #[trigger] old(self).inner().contains_ref(rf) && rf != pair.1.spec_ref()
                            ==> (final(self).inner().contains_ref(rf) && final(self).inner().resolve(rf) == old(self).inner().resolve(rf) && final(self).inner().ref_pos(rf) == old(self).inner().ref_pos(rf) - (
                        if old(self).inner().ref_pos(rf) > old(self).pos() {
                            1int
                        } else {
                            0int
                        }))
                    &&& forall|rf: Ref|
                        #[trigger] final(self).inner().contains_ref(rf) ==> (old(
                            self,
                        ).inner().contains_ref(rf) && rf != pair.1.spec_ref())
                },
            },
    {
        match self.at {
            None => None,
            Some(i) => {
                proof {
                    assert(self.list.order()[self.pos@] == i as int);
                }
                let l = slot_get_prev(&self.list.slots, i);
                let n = slot_get_next(&self.list.slots, i);
                let v = self.list.remove_idx(i, Ghost(self.pos@));
                proof {
                    old(self).inner().order().remove_ensures(old(self).pos());
                }
                match l {
                    Some(li) => {
                        self.at = Some(li);
                        self.pos = Ghost(self.pos@ - 1);
                    },
                    None => {
                        self.at = n;
                        self.pos = Ghost(0);
                    },
                }
                Some((v, NullRef { idx: i }))
            },
        }
    }
}

impl<T> LinkedList<T> {
    /// Create a cursor positioned at the head, taking ownership of the
    /// list; [`CursorMut::into_list`] gives it back.
    pub fn cursor_mut(self) -> (c: CursorMut<T>)
        requires
            self.wf(),
        ensures
            c.wf(),
            c.inner() == self,
            c.pos() == 0,
    {
        let at = self.head;
        CursorMut { list: self, at, pos: Ghost(0) }
    }
}

impl Ref {
    /// Re-enter `list` with a cursor positioned on the value this
    /// reference identifies.
    pub fn cursor_mut<T>(&self, list: LinkedList<T>) -> (c: CursorMut<T>)
        requires
            list.wf(),
            list.contains_ref(*self),
        ensures
            c.wf(),
            c.inner() == list,
            c.pos() == list.ref_pos(*self),
    {
        proof {
            list.lemma_ref_pos(*self);
            assert(list.order()[list.ref_pos(*self)] == self.idx as int);
        }
        let ghost kp: int = list.ref_pos(*self);
        CursorMut { list, at: Some(self.idx), pos: Ghost(kp) }
    }
}

impl<T> LinkedList<T> {
    /// The values of the list in forward (head to tail) order, as
    /// borrows; position `j` of the result is the value at position
    /// `j` of the list.
    pub fn iter_mut(&self) -> (r: Vec<&T>)
        requires
            self.wf(),
        ensures
            r@.len() == self@.len(),
            forall|j: int| 0 <= j < r@.len() ==> *(#[trigger] r@[j]) == self@[j],
    {
        let mut out: Vec<&T> = Vec::new();
        let mut cur: Option<usize> = self.head;
        let ghost mut kg: int = 0;
        while cur.is_some()
            invariant
                self.wf(),
                0 <= kg <= self@.len(),
                out@.len() == kg,
                forall|j: int| 0 <= j < kg ==> *(#[trigger] out@[j]) == self@[j],
                cur == (if kg == self@.len() {
                    Option::<usize>::None
                } else {
                    Some(self.order()[kg] as usize)
                }),
            decreases self@.len() - kg,
        {
            let i = cur.unwrap();
            proof {
                assert(self.order()[kg] == i as int);
            }
            out.push(slot_borrow_value(&self.slots, i));
            cur = slot_get_next(&self.slots, i);
            proof {
                kg = kg + 1;
            }
        }
        out
    }

    /// The values of the list in backward (tail to head) order, as
    /// borrows: always the exact reverse of [`LinkedList::iter_mut`].
    pub fn iter_mut_reverse(&self) -> (r: Vec<&T>)
        requires
            self.wf(),
        ensures
            r@.len() == self@.len(),
            forall|j: int| 0 <= j < r@.len() ==> *(#[trigger] r@[j]) == self@[self@.len() - 1 - j],
    {
        let mut out: Vec<&T> = Vec::new();
        let mut cur: Option<usize> = self.tail;
        let ghost mut kg: int = 0;
        while cur.is_some()
            invariant
                self.wf(),
                0 <= kg <= self@.len(),
                out@.len() == kg,
                forall|j: int| 0 <= j < kg ==> *(#[trigger] out@[j]) == self@[self@.len() - 1 - j],
                cur == (if kg == self@.len() {
                    Option::<usize>::None
                } else {
                    Some(self.order()[self@.len() - 1 - kg] as usize)
                }),
            decreases self@.len() - kg,
        {
            let i = cur.unwrap();
            proof {
                assert(self.order()[self@.len() - 1 - kg] == i as int);
            }
            out.push(slot_borrow_value(&self.slots, i));
            cur = slot_get_prev(&self.slots, i);
            proof {
                kg = kg + 1;
            }
        }
        out
    }

    /// Build a list from a sequence of values, preserving their order:
    /// each value is inserted after a forward cursor.
    pub fn from_vec(v: Vec<T>) -> (l: Self)
        ensures
            l.wf(),
            l@ == v@,
    {
        let ghost vg = v@;
        let mut v = v;
        let mut c = LinkedList::new().cursor_mut();
        let ghost mut kg: int = 0;
        while v.len() > 0
            invariant
                c.wf(),
                0 <= kg <= vg.len(),
                kg + v@.len() == vg.len(),
                c@ == vg.take(kg),
                v@ == vg.skip(kg),
                c.pos() == (if kg == 0 {
                    0int
                } else {
                    kg - 1
                }),
            decreases v@.len(),
        {
            let x = v.remove(0);
            proof {
                assert(x == vg[kg]);
                assert(v@ =~= vg.skip(kg + 1));
            }
            c.insert_after(x);
            c.next();
            proof {
                kg = kg + 1;
                assert(c@ =~= vg.take(kg));
            }
        }
        proof {
            assert(c@ =~= vg);
        }
        c.into_list()
    }
}

// ---------------------------------------------------------------------
// Laws of traversal.
// ---------------------------------------------------------------------
/// Forward traversal reproduces the abstract value sequence that the
/// insertion and removal contracts maintain: after any sequence of
/// such operations, what a forward pass yields is exactly the list's
/// view.
pub proof fn lemma_forward_traversal<T>(l: LinkedList<T>, fwd: Seq<T>)
    requires
        l.wf(),
        fwd.len() == l@.len(),
        forall|j: int| 0 <= j < fwd.len() ==> #[trigger] fwd[j] == l@[j],
    ensures
        fwd == l@,
{
    assert(fwd =~= l@);
}

/// Backward traversal is the exact reverse of forward traversal: a
/// forward pass and a backward pass over the same well-formed list
/// yield sequences that are element-for-element reverses.
pub proof fn lemma_reverse_traversal<T>(l: LinkedList<T>, fwd: Seq<T>, bwd: Seq<T>)
    requires
        l.wf(),
        fwd.len() == l@.len(),
        forall|j: int| 0 <= j < fwd.len() ==> #[trigger] fwd[j] == l@[j],
        bwd.len() == l@.len(),
        forall|j: int| 0 <= j < bwd.len() ==> #[trigger] bwd[j] == l@[l@.len() - 1 - j],
    ensures
        bwd == fwd.reverse(),
{
    assert(bwd =~= fwd.reverse());
}

/// The reported length always equals the number of values reachable
/// by forward traversal: `n` is what [`LinkedList::len`] returns and
/// `fwd` what [`LinkedList::iter_mut`] hands back.
pub proof fn lemma_len_matches_traversal<T>(l: LinkedList<T>, n: int, fwd: Seq<T>)
    requires
        l.wf(),
        n == l@.len(),
        fwd.len() == l@.len(),
        forall|j: int| 0 <= j < fwd.len() ==> #[trigger] fwd[j] == l@[j],
    ensures
        n == fwd.len(),
{
}

/// Round trip: a list built from a sequence and traversed forward
/// reproduces the sequence exactly.
pub proof fn lemma_round_trip<T>(input: Seq<T>, l: LinkedList<T>, fwd: Seq<T>)
    requires
        l.wf(),
        l@ == input,
        fwd.len() == l@.len(),
        forall|j: int| 0 <= j < fwd.len() ==> #[trigger] fwd[j] == l@[j],
    ensures
        fwd == input,
{
    assert(fwd =~= input);
}

} // verus!
