//! First-fit free-space tracker for suballocating byte ranges within a
//! fixed-size buffer.
//!
//! The tracker keeps the free ranges of a buffer as a [`LinkedList`] of
//! [`Range`]s in ascending, non-overlapping offset order, with a cached
//! handle to the most recently allocated-from range as a fast path for
//! sequential allocation patterns.

use vstd::prelude::*;
use crate::linked_list::{CursorMut, LinkedList, Ref};

verus! {

/// Alignment granule of the allocator, in bytes.
pub const ALIGN: usize = 4;

/// `size` rounded up to the alignment granule.
pub open spec fn pad_spec(size: int) -> int {
    if size % (ALIGN as int) == 0 {
        size
    } else {
        size + ((ALIGN as int) - size % (ALIGN as int))
    }
}

/// The bytes of the span `[offset, offset + size)`.
pub open spec fn range_set(offset: int, size: int) -> Set<int> {
    Set::new(|b: int| offset <= b < offset + size)
}

/// All bytes covered by the ranges of `rs` (each a pair of offset and
/// size).
pub open spec fn free_bytes(rs: Seq<(int, int)>) -> Set<int>
    decreases rs.len(),
{
    if rs.len() == 0 {
        Set::empty()
    } else {
        range_set(rs[0].0, rs[0].1).union(free_bytes(rs.skip(1)))
    }
}

/// The ranges of `rs` lie in ascending offset order, do not overlap,
/// and fit the machine word.
pub open spec fn sorted_disjoint(rs: Seq<(int, int)>) -> bool {
    &&& forall|k: int|
        0 <= k < rs.len() ==> 0 <= (#[trigger] rs[k]).0 && rs[k].1 >= 0 && rs[k].0 + rs[k].1
            <= usize::MAX
    &&& forall|k: int| 0 <= k < rs.len() - 1 ==> (#[trigger] rs[k]).0 + rs[k].1 <= rs[k + 1].0
}

/// Index of the first range of `rs` large enough for `need` bytes.
pub open spec fn first_fit(rs: Seq<(int, int)>, need: int) -> Option<int>
    decreases rs.len(),
{
    if rs.len() == 0 {
        Option::<int>::None
    } else if rs[0].1 >= need {
        Some(0int)
    } else {
        match first_fit(rs.skip(1), need) {
            None => Option::<int>::None,
            Some(j) => Some(j + 1),
        }
    }
}

/// Size of the largest range of `rs` (0 when `rs` is empty).
pub open spec fn max_free(rs: Seq<(int, int)>) -> int
    decreases rs.len(),
{
    if rs.len() == 0 {
        0int
    } else {
        let m = max_free(rs.drop_last());
        if rs.last().1 > m {
            rs.last().1
        } else {
            m
        }
    }
}

/// The ranges after carving `need` bytes from the front of range `k`:
/// the range is consumed entirely when its size is exactly `need`, and
/// shrunk in place otherwise.
pub open spec fn carve(rs: Seq<(int, int)>, k: int, need: int) -> Seq<(int, int)> {
    if rs[k].1 == need {
        rs.remove(k)
    } else {
        rs.update(k, (rs[k].0 + need, rs[k].1 - need))
    }
}

/// The range an allocation carves from: the cached range when it still
/// fits, else the first large-enough range in address order.
pub open spec fn alloc_choice(rs: Seq<(int, int)>, cache: Option<int>, need: int) -> Option<
    int,
> {
    if cache is Some && 0 <= cache->0 < rs.len() && rs[cache->0].1 >= need {
        cache
    } else {
        first_fit(rs, need)
    }
}

/// The cached position after an allocation: the carved range when it
/// survives; when it is consumed, the old cache shifted around the
/// removal (and cleared when it was the consumed range itself).
pub open spec fn cache_after_alloc(rs: Seq<(int, int)>, cache: Option<int>, need: int) -> Option<
    int,
> {
    match alloc_choice(rs, cache, need) {
        None => cache,
        Some(sel) => if rs[sel].1 > need {
            Some(sel)
        } else {
            match cache {
                None => Option::<int>::None,
                Some(j) => if j == sel {
                    Option::<int>::None
                } else if j > sel {
                    Some(j - 1)
                } else {
                    Some(j)
                },
            }
        },
    }
}

/// No range of `rs` intersects the span `[o, o + p)`.
pub open spec fn clear_of(rs: Seq<(int, int)>, o: int, p: int) -> bool {
    forall|k: int|
        0 <= k < rs.len() ==> ((#[trigger] rs[k]).0 + rs[k].1 <= o || o + p <= rs[k].0)
}

/// Position before which the span `[o, o + p)` is inserted: the first
/// range beginning at or after its end.
pub open spec fn insert_pos(rs: Seq<(int, int)>, o: int, p: int) -> int
    decreases rs.len(),
{
    if rs.len() == 0 {
        0int
    } else if o + p <= rs[0].0 {
        0int
    } else {
        1 + insert_pos(rs.skip(1), o, p)
    }
}

/// The ranges after freeing the span `[o, o + p)`: the span is placed
/// at its insertion position and coalesced with the neighbouring range
/// on either side when adjacent.
pub open spec fn free_insert(rs: Seq<(int, int)>, o: int, p: int) -> Seq<(int, int)> {
    let j = insert_pos(rs, o, p);
    let mp = j > 0 && rs[j - 1].0 + rs[j - 1].1 == o;
    let mn = j < rs.len() && o + p == rs[j].0;
    if mp && mn {
        rs.update(j - 1, (rs[j - 1].0, rs[j - 1].1 + p + rs[j].1)).remove(j)
    } else if mp {
        rs.update(j - 1, (rs[j - 1].0, rs[j - 1].1 + p))
    } else if mn {
        rs.update(j, (o, rs[j].1 + p))
    } else {
        rs.insert(j, (o, p))
    }
}

/// The cached position after freeing the span `[o, o + p)`: freeing
/// into an empty tracker caches the lone range; a coalescing that
/// removes the cached node redirects the cache to the surviving merged
/// range; otherwise the cache follows its range.
pub open spec fn cache_after_free(rs: Seq<(int, int)>, cache: Option<int>, o: int, p: int) -> Option<
    int,
> {
    let j = insert_pos(rs, o, p);
    let mp = j > 0 && rs[j - 1].0 + rs[j - 1].1 == o;
    let mn = j < rs.len() && o + p == rs[j].0;
    if rs.len() == 0 {
        Some(0int)
    } else if mp && mn {
        match cache {
            None => Option::<int>::None,
            Some(c) => if c == j {
                Some(j - 1)
            } else if c > j {
                Some(c - 1)
            } else {
                Some(c)
            },
        }
    } else if mp || mn {
        cache
    } else {
        match cache {
            None => Option::<int>::None,
            Some(c) => if c >= j {
                Some(c + 1)
            } else {
                Some(c)
            },
        }
    }
}

// ---------------------------------------------------------------------
// Lemmas about the range model.
// ---------------------------------------------------------------------
/// A byte is free exactly when some range covers it.
proof fn lemma_free_bytes_member(rs: Seq<(int, int)>, b: int)
    ensures
        free_bytes(rs).contains(b) <==> exists|k: int|
            0 <= k < rs.len() && (#[trigger] rs[k]).0 <= b < rs[k].0 + rs[k].1,
    decreases rs.len(),
{
    if rs.len() == 0 {
    } else {
        lemma_free_bytes_member(rs.skip(1), b);
        if free_bytes(rs).contains(b) {
            if range_set(rs[0].0, rs[0].1).contains(b) {
                assert(rs[0].0 <= b < rs[0].0 + rs[0].1);
            } else {
                let k = choose|k: int|
                    0 <= k < rs.skip(1).len() && (#[trigger] rs.skip(1)[k]).0 <= b < rs.skip(
                        1,
                    )[k].0 + rs.skip(1)[k].1;
                assert(rs.skip(1)[k] == rs[k + 1]);
                assert(rs[k + 1].0 <= b < rs[k + 1].0 + rs[k + 1].1);
            }
        }
        if exists|k: int| 0 <= k < rs.len() && (#[trigger] rs[k]).0 <= b < rs[k].0 + rs[k].1 {
            let k = choose|k: int|
                0 <= k < rs.len() && (#[trigger] rs[k]).0 <= b < rs[k].0 + rs[k].1;
            if k == 0 {
                assert(range_set(rs[0].0, rs[0].1).contains(b));
            } else {
                assert(rs.skip(1)[k - 1] == rs[k]);
                assert(free_bytes(rs.skip(1)).contains(b));
            }
            assert(free_bytes(rs).contains(b));
        }
    }
}

/// In a sorted, non-overlapping sequence an earlier range ends before a
/// later one begins.
proof fn lemma_sorted_sep(rs: Seq<(int, int)>, a: int, b: int)
    requires
        sorted_disjoint(rs),
        0 <= a < b < rs.len(),
    ensures
        rs[a].0 + rs[a].1 <= rs[b].0,
    decreases b - a,
{
    if b > a + 1 {
        lemma_sorted_sep(rs, a, b - 1);
    }
}

/// First-fit is complete: if the first `k` ranges are too small and
/// range `k` fits, the first fit is `k`.
proof fn lemma_first_fit_at(rs: Seq<(int, int)>, k: int, need: int)
    requires
        0 <= k < rs.len(),
        forall|j: int| 0 <= j < k ==> (#[trigger] rs[j]).1 < need,
        rs[k].1 >= need,
    ensures
        first_fit(rs, need) == Some(k),
    decreases k,
{
    if k == 0 {
    } else {
        assert(rs[0].1 < need);
        assert forall|j: int| 0 <= j < k - 1 implies (#[trigger] rs.skip(1)[j]).1 < need by {
            assert(rs.skip(1)[j] == rs[j + 1]);
        }
        assert(rs.skip(1)[k - 1] == rs[k]);
        lemma_first_fit_at(rs.skip(1), k - 1, need);
    }
}

/// First-fit is sound in the negative: if every range is too small,
/// there is no fit.
proof fn lemma_first_fit_none(rs: Seq<(int, int)>, need: int)
    requires
        forall|j: int| 0 <= j < rs.len() ==> (#[trigger] rs[j]).1 < need,
    ensures
        first_fit(rs, need) is None,
    decreases rs.len(),
{
    if rs.len() > 0 {
        assert forall|j: int|
            0 <= j < rs.skip(1).len() implies (#[trigger] rs.skip(1)[j]).1 < need by {
            assert(rs.skip(1)[j] == rs[j + 1]);
        }
        lemma_first_fit_none(rs.skip(1), need);
    }
}

/// First-fit succeeds whenever some range fits.
proof fn lemma_first_fit_exists(rs: Seq<(int, int)>, k: int, need: int)
    requires
        0 <= k < rs.len(),
        rs[k].1 >= need,
    ensures
        first_fit(rs, need) is Some,
    decreases k,
{
    if rs[0].1 >= need {
    } else {
        assert(k > 0);
        assert(rs.skip(1)[k - 1] == rs[k]);
        lemma_first_fit_exists(rs.skip(1), k - 1, need);
    }
}

/// Appending a range to a prefix extends its maximum.
proof fn lemma_max_free_step(rs: Seq<(int, int)>, k: int)
    requires
        0 <= k < rs.len(),
    ensures
        max_free(rs.take(k + 1)) == (if rs[k].1 > max_free(rs.take(k)) {
            rs[k].1
        } else {
            max_free(rs.take(k))
        }),
{
    assert(rs.take(k + 1).drop_last() =~= rs.take(k));
    assert(rs.take(k + 1).last() == rs[k]);
}

/// Carving from a range hands out bytes that were free, and leaves
/// exactly the free bytes outside the carved span.
proof fn lemma_carve_free_bytes(rs: Seq<(int, int)>, k: int, need: int)
    requires
        sorted_disjoint(rs),
        0 <= k < rs.len(),
        0 <= need <= rs[k].1,
    ensures
        range_set(rs[k].0, need) <= free_bytes(rs),
        free_bytes(carve(rs, k, need)) == free_bytes(rs).difference(range_set(rs[k].0, need)),
{
    let cv = carve(rs, k, need);
    assert forall|b: int| range_set(rs[k].0, need).contains(b) implies free_bytes(rs).contains(
        b,
    ) by {
        lemma_free_bytes_member(rs, b);
        assert(rs[k].0 <= b < rs[k].0 + rs[k].1);
    }
    if rs[k].1 == need {
        rs.remove_ensures(k);
    }
    assert forall|b: int|
        free_bytes(cv).contains(b) == (free_bytes(rs).contains(b) && !range_set(
            rs[k].0,
            need,
        ).contains(b)) by {
        lemma_free_bytes_member(rs, b);
        lemma_free_bytes_member(cv, b);
        if free_bytes(cv).contains(b) {
            let j = choose|j: int| 0 <= j < cv.len() && (#[trigger] cv[j]).0 <= b < cv[j].0
                + cv[j].1;
            let jo: int = if rs[k].1 == need {
                if j < k {
                    j
                } else {
                    j + 1
                }
            } else {
                j
            };
            assert(rs[jo].0 <= b < rs[jo].0 + rs[jo].1);
            if jo != k {
                if jo < k {
                    lemma_sorted_sep(rs, jo, k);
                } else {
                    lemma_sorted_sep(rs, k, jo);
                }
            }
        }
        if free_bytes(rs).contains(b) && !range_set(rs[k].0, need).contains(b) {
            let j = choose|j: int| 0 <= j < rs.len() && (#[trigger] rs[j]).0 <= b < rs[j].0
                + rs[j].1;
            if j == k {
                assert(rs[k].1 > need);
                assert(cv[k].0 <= b < cv[k].0 + cv[k].1);
            } else if rs[k].1 == need {
                let jn: int = if j < k {
                    j
                } else {
                    j - 1
                };
                assert(cv[jn] == rs[j]);
            } else {
                assert(cv[j] == rs[j]);
            }
        }
    }
    assert(free_bytes(cv) =~= free_bytes(rs).difference(range_set(rs[k].0, need)));
}

/// Carving preserves ascending, non-overlapping order.
proof fn lemma_carve_sorted(rs: Seq<(int, int)>, k: int, need: int)
    requires
        sorted_disjoint(rs),
        0 <= k < rs.len(),
        0 <= need <= rs[k].1,
    ensures
        sorted_disjoint(carve(rs, k, need)),
{
    let cv = carve(rs, k, need);
    if rs[k].1 == need {
        rs.remove_ensures(k);
        assert forall|j: int| 0 <= j < cv.len() - 1 implies (#[trigger] cv[j]).0 + cv[j].1
            <= cv[j + 1].0 by {
            if j == k - 1 && k < rs.len() - 1 {
                assert(cv[j] == rs[k - 1]);
                assert(cv[j + 1] == rs[k + 1]);
                lemma_sorted_sep(rs, k - 1, k + 1);
            } else if j < k - 1 {
                assert(cv[j] == rs[j]);
                assert(cv[j + 1] == rs[j + 1]);
            } else {
                assert(cv[j] == rs[j + 1]);
                assert(cv[j + 1] == rs[j + 2]);
            }
        }
        assert forall|j: int|
            0 <= j < cv.len() implies 0 <= (#[trigger] cv[j]).0 && cv[j].1 >= 0 && cv[j].0
            + cv[j].1 <= usize::MAX by {
            if j < k {
                assert(cv[j] == rs[j]);
            } else {
                assert(cv[j] == rs[j + 1]);
            }
        }
    }
}

/// Properties of the insertion position: every earlier range begins
/// before the end of the freed span, and the range at the position (if
/// any) begins at or after it.
proof fn lemma_insert_pos_props(rs: Seq<(int, int)>, o: int, p: int)
    ensures
        0 <= insert_pos(rs, o, p) <= rs.len(),
        forall|i: int| 0 <= i < insert_pos(rs, o, p) ==> (#[trigger] rs[i]).0 < o + p,
        insert_pos(rs, o, p) < rs.len() ==> o + p <= rs[insert_pos(rs, o, p)].0,
    decreases rs.len(),
{
    if rs.len() == 0 {
    } else if o + p <= rs[0].0 {
    } else {
        lemma_insert_pos_props(rs.skip(1), o, p);
        let j = insert_pos(rs.skip(1), o, p);
        assert forall|i: int| 0 <= i < j + 1 implies (#[trigger] rs[i]).0 < o + p by {
            if i > 0 {
                assert(rs.skip(1)[i - 1] == rs[i]);
            }
        }
        if j < rs.skip(1).len() {
            assert(rs.skip(1)[j] == rs[j + 1]);
        }
    }
}

/// The insertion position is determined by the boundary it describes.
proof fn lemma_insert_pos_at(rs: Seq<(int, int)>, o: int, p: int, k: int)
    requires
        0 <= k <= rs.len(),
        forall|i: int| 0 <= i < k ==> (#[trigger] rs[i]).0 < o + p,
        k < rs.len() ==> o + p <= rs[k].0,
    ensures
        insert_pos(rs, o, p) == k,
    decreases k,
{
    if rs.len() == 0 {
    } else if k == 0 {
    } else {
        assert(rs[0].0 < o + p);
        assert forall|i: int| 0 <= i < k - 1 implies (#[trigger] rs.skip(1)[i]).0 < o + p by {
            assert(rs.skip(1)[i] == rs[i + 1]);
        }
        if k - 1 < rs.skip(1).len() {
            assert(rs.skip(1)[k - 1] == rs[k]);
        }
        lemma_insert_pos_at(rs.skip(1), o, p, k - 1);
    }
}

/// Freeing a span that overlaps no range keeps the ranges sorted and
/// non-overlapping and adds exactly the span's bytes to the free set.
#[verifier::rlimit(100)]
#[verifier::spinoff_prover]
proof fn lemma_free_insert(rs: Seq<(int, int)>, o: int, p: int)
    requires
        sorted_disjoint(rs),
        clear_of(rs, o, p),
        0 <= o,
        0 <= p,
        o + p <= usize::MAX,
    ensures
        sorted_disjoint(free_insert(rs, o, p)),
        free_bytes(free_insert(rs, o, p)) == free_bytes(rs).union(range_set(o, p)),
{
    let j = insert_pos(rs, o, p);
    lemma_insert_pos_props(rs, o, p);
    assert forall|i: int| 0 <= i < j implies (#[trigger] rs[i]).0 + rs[i].1 <= o by {
        assert(rs[i].0 < o + p);
    }
    assert forall|i: int| j <= i < rs.len() implies o + p <= (#[trigger] rs[i]).0 by {
        if i > j {
            lemma_sorted_sep(rs, j, i);
        }
    }
    let mp = j > 0 && rs[j - 1].0 + rs[j - 1].1 == o;
    let mn = j < rs.len() && o + p == rs[j].0;
    let nw = free_insert(rs, o, p);
    // Pointwise shape of the new range sequence.
    if mp && mn {
        rs.update(j - 1, (rs[j - 1].0, rs[j - 1].1 + p + rs[j].1)).remove_ensures(j);
    } else if !mp && !mn {
        rs.insert_ensures(j, (o, p));
    }
    // Sortedness.
    assert forall|i: int|
        0 <= i < nw.len() implies 0 <= (#[trigger] nw[i]).0 && nw[i].1 >= 0 && nw[i].0 + nw[i].1
        <= usize::MAX by {
        if mp && mn {
            if i < j - 1 {
                assert(nw[i] == rs[i]);
            } else if i == j - 1 {
                assert(nw[i] == (rs[j - 1].0, rs[j - 1].1 + p + rs[j].1));
            } else {
                assert(nw[i] == rs[i + 1]);
            }
        } else if mp {
            if i != j - 1 {
                assert(nw[i] == rs[i]);
            }
        } else if mn {
            if i != j {
                assert(nw[i] == rs[i]);
            }
        } else {
            if i < j {
                assert(nw[i] == rs[i]);
            } else if i > j {
                assert(nw[i] == rs[i - 1]);
            }
        }
    }
    assert forall|i: int| 0 <= i < nw.len() - 1 implies (#[trigger] nw[i]).0 + nw[i].1 <= nw[i
        + 1].0 by {
        if mp && mn {
            if i < j - 2 {
                assert(nw[i] == rs[i] && nw[i + 1] == rs[i + 1]);
            } else if i == j - 2 {
                assert(nw[i] == rs[i] && nw[i + 1] == (rs[j - 1].0, rs[j - 1].1 + p + rs[j].1));
            } else if i == j - 1 {
                assert(nw[i] == (rs[j - 1].0, rs[j - 1].1 + p + rs[j].1) && nw[i + 1] == rs[j
                    + 1]);
            } else {
                assert(nw[i] == rs[i + 1] && nw[i + 1] == rs[i + 2]);
            }
        } else if mp {
            if i == j - 2 {
                assert(nw[i] == rs[i] && nw[i + 1] == (rs[j - 1].0, rs[j - 1].1 + p));
            } else if i == j - 1 {
                assert(nw[i] == (rs[j - 1].0, rs[j - 1].1 + p) && nw[i + 1] == rs[j]);
            } else {
                assert(nw[i] == rs[i] && nw[i + 1] == rs[i + 1]);
            }
        } else if mn {
            if i == j - 1 {
                assert(nw[i] == rs[i] && nw[i + 1] == (o, rs[j].1 + p));
            } else if i == j {
                assert(nw[i] == (o, rs[j].1 + p));
                if i + 1 < nw.len() {
                    assert(nw[i + 1] == rs[j + 1]);
                }
            } else {
                assert(nw[i] == rs[i] && nw[i + 1] == rs[i + 1]);
            }
        } else {
            if i < j - 1 {
                assert(nw[i] == rs[i] && nw[i + 1] == rs[i + 1]);
            } else if i == j - 1 {
                assert(nw[i] == rs[i] && nw[i + 1] == (o, p));
            } else if i == j {
                assert(nw[i] == (o, p) && nw[i + 1] == rs[j]);
            } else {
                assert(nw[i] == rs[i - 1] && nw[i + 1] == rs[i]);
            }
        }
    }
    // The new free set is the old one plus the freed span.
    assert forall|b: int|
        free_bytes(nw).contains(b) == (free_bytes(rs).contains(b) || range_set(o, p).contains(
            b,
        )) by {
        lemma_free_bytes_member(rs, b);
        lemma_free_bytes_member(nw, b);
        if free_bytes(nw).contains(b) {
            let i = choose|i: int| 0 <= i < nw.len() && (#[trigger] nw[i]).0 <= b < nw[i].0
                + nw[i].1;
            if mp && mn {
                if i < j - 1 {
                    assert(nw[i] == rs[i]);
                } else if i == j - 1 {
                    assert(nw[i] == (rs[j - 1].0, rs[j - 1].1 + p + rs[j].1));
                    if b < o {
                        assert(rs[j - 1].0 <= b < rs[j - 1].0 + rs[j - 1].1);
                    } else if b < o + p {
                    } else {
                        assert(rs[j].0 <= b < rs[j].0 + rs[j].1);
                    }
                } else {
                    assert(nw[i] == rs[i + 1]);
                }
            } else if mp {
                if i == j - 1 {
                    assert(nw[i] == (rs[j - 1].0, rs[j - 1].1 + p));
                    if b < o {
                        assert(rs[j - 1].0 <= b < rs[j - 1].0 + rs[j - 1].1);
                    }
                } else {
                    assert(nw[i] == rs[i]);
                }
            } else if mn {
                if i == j {
                    assert(nw[i] == (o, rs[j].1 + p));
                    if b >= o + p {
                        assert(rs[j].0 <= b < rs[j].0 + rs[j].1);
                    }
                } else {
                    assert(nw[i] == rs[i]);
                }
            } else {
                if i < j {
                    assert(nw[i] == rs[i]);
                } else if i == j {
                    assert(nw[i] == (o, p));
                } else {
                    assert(nw[i] == rs[i - 1]);
                }
            }
        }
        if free_bytes(rs).contains(b) {
            let i = choose|i: int| 0 <= i < rs.len() && (#[trigger] rs[i]).0 <= b < rs[i].0
                + rs[i].1;
            if mp && mn {
                if i < j - 1 {
                    assert(nw[i] == rs[i]);
                } else if i == j - 1 || i == j {
                    assert(nw[j - 1] == (rs[j - 1].0, rs[j - 1].1 + p + rs[j].1));
                    assert(nw[j - 1].0 <= b < nw[j - 1].0 + nw[j - 1].1);
                } else {
                    assert(nw[i - 1] == rs[i]);
                }
            } else if mp {
                if i == j - 1 {
                    assert(nw[j - 1] == (rs[j - 1].0, rs[j - 1].1 + p));
                    assert(nw[j - 1].0 <= b < nw[j - 1].0 + nw[j - 1].1);
                } else {
                    assert(nw[i] == rs[i]);
                }
            } else if mn {
                if i == j {
                    assert(nw[j] == (o, rs[j].1 + p));
                    assert(nw[j].0 <= b < nw[j].0 + nw[j].1);
                } else {
                    assert(nw[i] == rs[i]);
                }
            } else {
                if i < j {
                    assert(nw[i] == rs[i]);
                } else {
                    assert(nw[i + 1] == rs[i]);
                }
            }
        }
        if range_set(o, p).contains(b) {
            if mp {
                assert(nw[j - 1].0 <= b < nw[j - 1].0 + nw[j - 1].1);
            } else if mn {
                assert(nw[j].0 <= b < nw[j].0 + nw[j].1);
            } else {
                assert(nw[j] == (o, p));
                assert(nw[j].0 <= b < nw[j].0 + nw[j].1);
            }
        }
    }
    assert(free_bytes(nw) =~= free_bytes(rs).union(range_set(o, p)));
}

/// Range of free memory in a buffer: the byte span
/// `[offset, offset + size)`.
#[derive(Clone, Copy)]
struct Range {
    /// Offset from the buffer start.
    offset: usize,
    /// Size of the span in bytes.
    size: usize,
}

/// Free-space tracker over a fixed-capacity buffer: the free ranges in
/// ascending offset order, plus a cached handle to the most recently
/// allocated-from range.
pub struct FreeList {
    /// Underlying list of free ranges.
    list: LinkedList<Range>,
    /// Most recently allocated-from range, tried first by `allocate`.
    last_used: Option<Ref>,
}

/// Result of a [`FreeList::allocate`] call.
#[derive(Clone, Copy, PartialEq, Eq, Structural, Debug)]
pub enum AllocationResult {
    /// Successfully allocated; carries the offset of the allocation.
    Allocated(usize),
    /// No sufficiently large free range; carries the size of the
    /// largest free range encountered.
    NotFound(usize),
}

/// The ranges of a free-range list as (offset, size) pairs.
spec fn ranges_of(l: LinkedList<Range>) -> Seq<(int, int)> {
    Seq::new(l@.len(), |k: int| (l@[k].offset as int, l@[k].size as int))
}

/// The position a cached range handle points at in `l`.
spec fn cache_of(l: LinkedList<Range>, cached: Option<Ref>) -> Option<int> {
    match cached {
        None => Option::<int>::None,
        Some(rf) => Some(l.ref_pos(rf)),
    }
}

impl FreeList {
    /// The free ranges as (offset, size) pairs, in list order.
    pub closed spec fn ranges(self) -> Seq<(int, int)> {
        ranges_of(self.list)
    }

    /// Position of the cached most-recently-used range, if any.
    pub closed spec fn cache(self) -> Option<int> {
        cache_of(self.list, self.last_used)
    }

    /// The free bytes of the tracker.
    pub open spec fn free_set(self) -> Set<int> {
        free_bytes(self.ranges())
    }

    /// Invariant: the underlying list is well-formed, the ranges are
    /// sorted and non-overlapping, and the cache points at a live
    /// range.
    pub closed spec fn wf(self) -> bool {
        &&& self.list.wf()
        &&& sorted_disjoint(self.ranges())
        &&& (self.last_used matches Some(rf) ==> self.list.contains_ref(rf))
    }

    /// Create a tracker whose whole capacity is one free range.
    pub fn new(cap: usize) -> (fl: Self)
        ensures
            fl.wf(),
            fl.ranges() == seq![(0int, cap as int)],
            fl.cache() == Some(0int),
    {
        let ll = LinkedList::<Range>::new();
        let mut c = ll.cursor_mut();
        let rf = c.insert_after(Range { offset: 0, size: cap });
        proof {
            c.lemma_inner_wf();
        }
        let fl = FreeList { list: c.into_list(), last_used: Some(rf) };
        proof {
            assert(fl.ranges() =~= seq![(0int, cap as int)]);
        }
        fl
    }

    /// Round `size` up to the alignment granule.
    fn pad_size(size: usize) -> (r: usize)
        requires
            size + ALIGN - 1 <= usize::MAX,
        ensures
            r == pad_spec(size as int),
    {
        let rem = size % ALIGN;
        if rem == 0 {
            size
        } else {
            size + (ALIGN - rem)
        }
    }

    /// Try to allocate `size` bytes (rounded up to the alignment
    /// granule), carving them from the front of the cached range when
    /// it still fits, else from the first sufficiently large range in
    /// address order.  When no range fits, report the largest free
    /// range size seen.
    pub fn allocate(&mut self, size: usize) -> (res: AllocationResult)
        requires
            old(self).wf(),
            size + ALIGN - 1 <= usize::MAX,
        ensures
            final(self).wf(),
            (first_fit(old(self).ranges(), pad_spec(size as int)) is Some) == (res
                is Allocated),
            ({
                let p = pad_spec(size as int);
                let rs = old(self).ranges();
                match alloc_choice(rs, old(self).cache(), p) {
                    None => res == AllocationResult::NotFound(max_free(rs) as usize) && final(self).ranges() == rs && final(self).cache() == old(self).cache(),
                    Some(sel) => res == AllocationResult::Allocated(rs[sel].0 as usize)
                        && final(self).ranges() == carve(rs, sel, p) && final(self).cache()
                        == cache_after_alloc(rs, old(self).cache(), p) && range_set(rs[sel].0, p)
                        <= free_bytes(rs) && free_bytes(final(self).ranges()) == free_bytes(
                        rs,
                    ).difference(range_set(rs[sel].0, p)),
                }
            }),
    {
        let need = Self::pad_size(size);
        let ghost p = pad_spec(size as int);
        let ghost rs = old(self).ranges();
        let ghost cache0 = old(self).cache();
        proof {
            assert(p >= 0);
        }
        // Fast path through the cached range.
        if let Some(rf) = self.last_used {
            let mut tmp = LinkedList::<Range>::new();
            core::mem::swap(&mut tmp, &mut self.list);
            let ghost kc = tmp.ref_pos(rf);
            proof {
                tmp.lemma_ref_pos(rf);
            }
            let mut c = rf.cursor_mut(tmp);
            let rg = *c.value().unwrap();
            proof {
                assert((rg.offset as int, rg.size as int) == rs[kc]);
            }
            if rg.size > need {
                c.set_value(Range { offset: rg.offset + need, size: rg.size - need });
                self.list = c.into_list();
                proof {
                    c.lemma_inner_wf();
                    assert(alloc_choice(rs, cache0, p) == Some(kc));
                    lemma_first_fit_exists(rs, kc, p);
                    assert(self.ranges() =~= carve(rs, kc, p));
                    lemma_carve_sorted(rs, kc, p);
                    lemma_carve_free_bytes(rs, kc, p);
                    assert(self.list.contains_ref(rf));
                    assert(self.cache() == Some(kc));
                }
                return AllocationResult::Allocated(rg.offset);
            } else if rg.size == need {
                let _removed = c.remove().unwrap();
                self.last_used = None;
                self.list = c.into_list();
                proof {
                    c.lemma_inner_wf();
                    assert(alloc_choice(rs, cache0, p) == Some(kc));
                    lemma_first_fit_exists(rs, kc, p);
                    rs.remove_ensures(kc);
                    assert(self.ranges() =~= carve(rs, kc, p));
                    lemma_carve_sorted(rs, kc, p);
                    lemma_carve_free_bytes(rs, kc, p);
                }
                return AllocationResult::Allocated(rg.offset);
            }
            self.list = c.into_list();
            proof {
                c.lemma_inner_wf();
                assert(self.list == old(self).list);
                assert(rs[kc].1 < p);
            }
        }
        // First-fit scan from the head, in address order.
        let ghost l0 = self.list;
        let mut tmp = LinkedList::<Range>::new();
        core::mem::swap(&mut tmp, &mut self.list);
        let mut c = tmp.cursor_mut();
        if c.value().is_none() {
            self.list = c.into_list();
            proof {
                c.lemma_inner_wf();
                assert(rs.len() == 0);
                assert(self.ranges() =~= rs);
            }
            return AllocationResult::NotFound(0);
        }
        let mut max_size: usize = 0;
        let ghost mut kg: int = 0;
        proof {
            assert(rs.take(0) =~= Seq::<(int, int)>::empty());
        }
        loop
            invariant
                c.wf(),
                c.inner() == l0,
                l0@.len() == rs.len(),
                self.last_used == old(self).last_used,
                rs == Seq::new(l0@.len(), |k: int| (l0@[k].offset as int, l0@[k].size as int)),
                sorted_disjoint(rs),
                (self.last_used matches Some(rf) ==> l0.contains_ref(rf)),
                (cache0 matches Some(j) ==> 0 <= j < rs.len() && rs[j].1 < p),
                (cache0 == (match self.last_used {
                    None => Option::<int>::None,
                    Some(rf) => Some(l0.ref_pos(rf)),
                })),
                p == pad_spec(size as int),
                p >= 0,
                need as int == p,
                rs == old(self).ranges(),
                cache0 == old(self).cache(),
                rs.len() > 0,
                0 <= kg < rs.len(),
                c.pos() == kg,
                forall|j: int| 0 <= j < kg ==> (#[trigger] rs[j]).1 < p,
                max_size as int == max_free(rs.take(kg)),
            decreases rs.len() - kg,
        {
            let rg = *c.value().unwrap();
            proof {
                assert((rg.offset as int, rg.size as int) == rs[kg]);
            }
            if max_size < rg.size {
                max_size = rg.size;
            }
            proof {
                lemma_max_free_step(rs, kg);
            }
            if rg.size > need {
                self.last_used = c.reference();
                c.set_value(Range { offset: rg.offset + need, size: rg.size - need });
                self.list = c.into_list();
                proof {
                    c.lemma_inner_wf();
                    lemma_first_fit_at(rs, kg, p);
                    assert(alloc_choice(rs, cache0, p) == Some(kg));
                    assert(self.ranges() =~= carve(rs, kg, p));
                    lemma_carve_sorted(rs, kg, p);
                    lemma_carve_free_bytes(rs, kg, p);
                    assert(self.cache() == Some(kg));
                }
                return AllocationResult::Allocated(rg.offset);
            } else if rg.size == need {
                let pair = c.remove().unwrap();
                match &self.last_used {
                    Some(lr) => {
                        if pair.1.invalidates(lr) {
                            self.last_used = None;
                        }
                    },
                    None => (),
                }
                self.list = c.into_list();
                proof {
                    c.lemma_inner_wf();
                    lemma_first_fit_at(rs, kg, p);
                    assert(alloc_choice(rs, cache0, p) == Some(kg));
                    rs.remove_ensures(kg);
                    assert(self.ranges() =~= carve(rs, kg, p));
                    lemma_carve_sorted(rs, kg, p);
                    lemma_carve_free_bytes(rs, kg, p);
                    if cache0 is Some {
                        let j = cache0->0;
                        assert(rs[j].1 < p);
                        assert(j != kg);
                    }
                }
                return AllocationResult::Allocated(rg.offset);
            }
            let advanced = c.next();
            if !advanced {
                self.list = c.into_list();
                proof {
                    c.lemma_inner_wf();
                    assert(kg == rs.len() - 1);
                    assert(rs[kg].1 < p);
                    lemma_first_fit_none(rs, p);
                    assert(alloc_choice(rs, cache0, p) is None);
                    assert(rs.take(rs.len() as int) =~= rs);
                    assert(self.ranges() =~= rs);
                }
                return AllocationResult::NotFound(max_size);
            }
            proof {
                assert(rs[kg].1 < p);
                kg = kg + 1;
            }
        }
    }

    /// Splice the span `[offset, offset + need)` into the chain right
    /// before the range at position `kg`, coalescing with the adjacent
    /// range on either side, and return the list and the adjusted
    /// cache handle.
    #[verifier::rlimit(100)]
    #[verifier::spinoff_prover]
    fn place_before(
        c: CursorMut<Range>,
        cached: Option<Ref>,
        offset: usize,
        need: usize,
        Ghost(kg): Ghost<int>,
    ) -> (res: (LinkedList<Range>, Option<Ref>))
        requires
            c.wf(),
            c.pos() == kg,
            sorted_disjoint(ranges_of(c.inner())),
            0 <= kg < ranges_of(c.inner()).len(),
            forall|i: int|
                0 <= i < kg ==> (#[trigger] ranges_of(c.inner())[i]).0 < offset as int
                    + need as int,
            forall|i: int|
                0 <= i < kg ==> (#[trigger] ranges_of(c.inner())[i]).0 + ranges_of(
                    c.inner(),
                )[i].1 <= offset as int,
            offset as int + need as int <= ranges_of(c.inner())[kg].0,
            (cached matches Some(rf) ==> c.inner().contains_ref(rf)),
        ensures
            res.0.wf(),
            ranges_of(res.0) == free_insert(ranges_of(c.inner()), offset as int, need as int),
            (res.1 matches Some(rf) ==> res.0.contains_ref(rf)),
            cache_of(res.0, res.1) == cache_after_free(
                ranges_of(c.inner()),
                cache_of(c.inner(), cached),
                offset as int,
                need as int,
            ),
    {
        let ghost rs = ranges_of(c.inner());
        let ghost l_in = c.inner();
        let ghost cin = cache_of(c.inner(), cached);
        let mut c = c;
        let mut cached = cached;
        proof {
            c.lemma_inner_wf();
            lemma_insert_pos_at(rs, offset as int, need as int, kg);
        }
        let rg = *c.value().unwrap();
        proof {
            assert((rg.offset as int, rg.size as int) == rs[kg]);
        }
        if offset + need == rg.offset {
            // The freed span ends where this range begins: extend the
            // range downward, coalescing with the previous range too
            // when also adjacent.
            if c.previous() {
                let pg = *c.value().unwrap();
                proof {
                    assert((pg.offset as int, pg.size as int) == rs[kg - 1]);
                }
                if pg.offset + pg.size == offset {
                    let moved = c.next();
                    let pair = c.remove().unwrap();
                    let cached_in = cached;
                    match &cached {
                        Some(lr) => {
                            if pair.1.invalidates(lr) {
                                cached = c.reference();
                            }
                        },
                        None => (),
                    }
                    c.set_value(Range { offset: pg.offset, size: pg.size + need + rg.size });
                    proof {
                        c.lemma_inner_wf();
                        assert(ranges_of(c.inner()) =~= free_insert(
                            rs,
                            offset as int,
                            need as int,
                        ));
                        if cached_in is Some {
                            let lr = cached_in->0;
                            assert(l_in.contains_ref(lr));
                            if lr == pair.1.spec_ref() {
                                assert(cin == Some(kg));
                                assert(cache_of(c.inner(), cached) == Some(kg - 1));
                            } else {
                                if l_in.ref_pos(lr) == kg {
                                    l_in.lemma_ref_pos_injective(lr, pair.1.spec_ref());
                                    assert(false);
                                }
                            }
                        }
                        assert(cache_of(c.inner(), cached) == cache_after_free(
                            rs,
                            cin,
                            offset as int,
                            need as int,
                        ));
                    }
                    (c.into_list(), cached)
                } else {
                    let moved = c.next();
                    c.set_value(Range { offset, size: rg.size + need });
                    proof {
                        c.lemma_inner_wf();
                        assert(ranges_of(c.inner()) =~= free_insert(
                            rs,
                            offset as int,
                            need as int,
                        ));
                        assert(cache_of(c.inner(), cached) == cache_after_free(
                            rs,
                            cin,
                            offset as int,
                            need as int,
                        ));
                    }
                    (c.into_list(), cached)
                }
            } else {
                c.set_value(Range { offset, size: rg.size + need });
                proof {
                    c.lemma_inner_wf();
                    assert(ranges_of(c.inner()) =~= free_insert(rs, offset as int, need as int));
                    assert(cache_of(c.inner(), cached) == cache_after_free(
                        rs,
                        cin,
                        offset as int,
                        need as int,
                    ));
                }
                (c.into_list(), cached)
            }
        } else {
            // A gap separates the freed span from this range: coalesce
            // with the previous range when adjacent, else insert the
            // span as a range of its own.
            if c.previous() {
                let pg = *c.value().unwrap();
                proof {
                    assert((pg.offset as int, pg.size as int) == rs[kg - 1]);
                }
                if pg.offset + pg.size == offset {
                    c.set_value(Range { offset: pg.offset, size: pg.size + need });
                    proof {
                        c.lemma_inner_wf();
                        assert(ranges_of(c.inner()) =~= free_insert(
                            rs,
                            offset as int,
                            need as int,
                        ));
                        assert(cache_of(c.inner(), cached) == cache_after_free(
                            rs,
                            cin,
                            offset as int,
                            need as int,
                        ));
                    }
                    (c.into_list(), cached)
                } else {
                    let moved = c.next();
                    c.insert_before(Range { offset, size: need });
                    proof {
                        c.lemma_inner_wf();
                        assert(ranges_of(c.inner()) =~= free_insert(
                            rs,
                            offset as int,
                            need as int,
                        ));
                        assert(cache_of(c.inner(), cached) == cache_after_free(
                            rs,
                            cin,
                            offset as int,
                            need as int,
                        ));
                    }
                    (c.into_list(), cached)
                }
            } else {
                c.insert_before(Range { offset, size: need });
                proof {
                    c.lemma_inner_wf();
                    assert(ranges_of(c.inner()) =~= free_insert(rs, offset as int, need as int));
                    assert(cache_of(c.inner(), cached) == cache_after_free(
                        rs,
                        cin,
                        offset as int,
                        need as int,
                    ));
                }
                (c.into_list(), cached)
            }
        }
    }

    /// Splice the span `[offset, offset + need)` in after the last
    /// range, coalescing with it when adjacent, and return the list
    /// and the unchanged cache handle.
    #[verifier::rlimit(100)]
    #[verifier::spinoff_prover]
    fn place_at_end(
        c: CursorMut<Range>,
        cached: Option<Ref>,
        offset: usize,
        need: usize,
    ) -> (res: (LinkedList<Range>, Option<Ref>))
        requires
            c.wf(),
            ranges_of(c.inner()).len() > 0,
            c.pos() == ranges_of(c.inner()).len() - 1,
            sorted_disjoint(ranges_of(c.inner())),
            forall|i: int|
                0 <= i < ranges_of(c.inner()).len() ==> (#[trigger] ranges_of(c.inner())[i]).0
                    < offset as int + need as int,
            forall|i: int|
                0 <= i < ranges_of(c.inner()).len() ==> (#[trigger] ranges_of(c.inner())[i]).0
                    + ranges_of(c.inner())[i].1 <= offset as int,
            offset as int + need as int <= usize::MAX,
            (cached matches Some(rf) ==> c.inner().contains_ref(rf)),
        ensures
            res.0.wf(),
            ranges_of(res.0) == free_insert(ranges_of(c.inner()), offset as int, need as int),
            (res.1 matches Some(rf) ==> res.0.contains_ref(rf)),
            cache_of(res.0, res.1) == cache_after_free(
                ranges_of(c.inner()),
                cache_of(c.inner(), cached),
                offset as int,
                need as int,
            ),
    {
        let ghost rs = ranges_of(c.inner());
        let mut c = c;
        proof {
            lemma_insert_pos_at(rs, offset as int, need as int, rs.len() as int);
        }
        let rg = *c.value().unwrap();
        proof {
            assert((rg.offset as int, rg.size as int) == rs[rs.len() - 1]);
        }
        if rg.offset + rg.size == offset {
            c.set_value(Range { offset: rg.offset, size: rg.size + need });
            proof {
                c.lemma_inner_wf();
                assert(ranges_of(c.inner()) =~= free_insert(rs, offset as int, need as int));
            }
            (c.into_list(), cached)
        } else {
            c.insert_after(Range { offset, size: need });
            proof {
                c.lemma_inner_wf();
                assert(ranges_of(c.inner()) =~= free_insert(rs, offset as int, need as int));
            }
            (c.into_list(), cached)
        }
    }

    /// Mark the span `[offset, offset + size)` (size rounded up to the
    /// alignment granule) as free.  The span is inserted in ascending
    /// offset order and coalesced with an adjacent free range on either
    /// side; a span that intersects an existing free range is rejected
    /// with an error and the tracker is left unchanged.
    pub fn free(&mut self, offset: usize, size: usize) -> (r: Result<(), &'static str>)
        requires
            old(self).wf(),
            size + ALIGN - 1 <= usize::MAX,
            offset + pad_spec(size as int) <= usize::MAX,
        ensures
            final(self).wf(),
            (r is Ok) == clear_of(old(self).ranges(), offset as int, pad_spec(size as int)),
            r matches Err(m) ==> m@ == "new range overlaps with existing range"@
                && final(self).ranges() == old(self).ranges() && final(self).cache() == old(
                self,
            ).cache(),
            r is Ok ==> ({
                let p = pad_spec(size as int);
                let rs = old(self).ranges();
                final(self).ranges() == free_insert(rs, offset as int, p) && final(self).cache()
                    == cache_after_free(rs, old(self).cache(), offset as int, p) && free_bytes(
                    final(self).ranges(),
                ) == free_bytes(rs).union(range_set(offset as int, p))
            }),
    {
        let need = Self::pad_size(size);
        let ghost p = pad_spec(size as int);
        let ghost rs = old(self).ranges();
        let ghost cache0 = old(self).cache();
        let ghost l0 = self.list;
        let mut tmp = LinkedList::<Range>::new();
        core::mem::swap(&mut tmp, &mut self.list);
        let mut c = tmp.cursor_mut();
        if c.value().is_none() {
            let rf = c.insert_after(Range { offset, size: need });
            self.last_used = Some(rf);
            proof {
                c.lemma_inner_wf();
            }
            self.list = c.into_list();
            proof {
                assert(rs.len() == 0);
                lemma_free_insert(rs, offset as int, p);
                assert(self.ranges() =~= free_insert(rs, offset as int, p));
            }
            return Ok(());
        }
        let ghost mut kg: int = 0;
        loop
            invariant
                c.wf(),
                c.inner() == l0,
                rs == old(self).ranges(),
                cache0 == old(self).cache(),
                rs == ranges_of(l0),
                sorted_disjoint(rs),
                self.last_used == old(self).last_used,
                (self.last_used matches Some(rf) ==> l0.contains_ref(rf)),
                cache0 == cache_of(l0, self.last_used),
                p == pad_spec(size as int),
                p >= 0,
                need as int == p,
                offset as int + p <= usize::MAX,
                rs.len() > 0,
                0 <= kg < rs.len(),
                c.pos() == kg,
                forall|i: int|
                    0 <= i < kg ==> (#[trigger] rs[i]).0 < offset as int + p && rs[i].0 + rs[i].1
                        <= offset as int,
            decreases rs.len() - kg,
        {
            let rg = *c.value().unwrap();
            proof {
                assert((rg.offset as int, rg.size as int) == rs[kg]);
            }
            if offset + need <= rg.offset {
                let placed = Self::place_before(c, self.last_used, offset, need, Ghost(kg));
                self.list = placed.0;
                self.last_used = placed.1;
                proof {
                    assert forall|i: int|
                        0 <= i < rs.len() implies ((#[trigger] rs[i]).0 + rs[i].1
                        <= offset as int || offset as int + p <= rs[i].0) by {
                        if i > kg {
                            lemma_sorted_sep(rs, kg, i);
                        } else if i == kg {
                        }
                    }
                    lemma_free_insert(rs, offset as int, p);
                }
                return Ok(());
            } else if rg.offset + rg.size <= offset {
                let advanced = c.next();
                if !advanced {
                    proof {
                        assert(kg == rs.len() - 1);
                    }
                    let placed = Self::place_at_end(c, self.last_used, offset, need);
                    self.list = placed.0;
                    self.last_used = placed.1;
                    proof {
                        lemma_free_insert(rs, offset as int, p);
                    }
                    return Ok(());
                }
                proof {
                    kg = kg + 1;
                }
            } else {
                // The freed span intersects this range: the caller's
                // bookkeeping is corrupt.
                proof {
                    c.lemma_inner_wf();
                    assert(!clear_of(rs, offset as int, p)) by {
                        assert(!(rs[kg].0 + rs[kg].1 <= offset as int || offset as int + p
                            <= rs[kg].0));
                    }
                }
                self.list = c.into_list();
                proof {
                    assert(self.ranges() =~= rs);
                }
                return Err("new range overlaps with existing range");
            }
        }
    }

}

// ---------------------------------------------------------------------
// Laws of allocation.
// ---------------------------------------------------------------------
/// Live allocations never overlap: an allocation hands out bytes of
/// the free set and removes them, so a later allocation, drawn from
/// what is left, is disjoint from every allocation not yet freed.
pub proof fn lemma_allocations_disjoint(
    s1: Set<int>,
    o1: int,
    p1: int,
    s2: Set<int>,
    o2: int,
    p2: int,
)
    requires
        s2 <= s1.difference(range_set(o1, p1)),
        range_set(o2, p2) <= s2,
    ensures
        range_set(o1, p1).disjoint(range_set(o2, p2)),
{
    assert forall|b: int|
        range_set(o1, p1).contains(b) implies !range_set(o2, p2).contains(b) by {
        if range_set(o2, p2).contains(b) {
            assert(s2.contains(b));
            assert(s1.difference(range_set(o1, p1)).contains(b));
        }
    }
}

/// A span disjoint from the free set stays disjoint from it when other
/// bytes are freed, as long as the span itself is not freed.
pub proof fn lemma_disjoint_after_free(a: Set<int>, s: Set<int>, o: int, p: int)
    requires
        a.disjoint(s),
        a.disjoint(range_set(o, p)),
    ensures
        a.disjoint(s.union(range_set(o, p))),
{
}

/// A span disjoint from the free set stays disjoint from it when more
/// bytes are allocated out of it.
pub proof fn lemma_disjoint_after_allocate(a: Set<int>, s: Set<int>, x: Set<int>)
    requires
        a.disjoint(s),
    ensures
        a.disjoint(s.difference(x)),
{
}

} // verus!
