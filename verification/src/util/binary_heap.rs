//! An indexed binary heap: items are `u32` indices, each with a `u32` key kept in
//! a key table addressed by the index. Adding an item and lowering a key keep the
//! heap ordered by key; the downward sift used by `pop`, `update` and `remove`
//! compares the right child with the entry already chosen (see `sift_down`), so
//! after those the order is not guaranteed.
use vstd::prelude::*;
use crate::hash::{is_next_pow2, next_power_of_two};

verus! {

/// The position value that marks an index as absent from the heap.
pub const NOT_IN_HEAP: u32 = 0xffff_ffff;

/// Position of the parent of heap position `i`.
pub open spec fn parent_pos(i: int) -> int {
    (i - 1) / 2
}

/// Result of moving item `m` up from position `h` of arrangement `a`: while `m`'s
/// key is below the key at the parent position, the parent moves down into `h`.
pub open spec fn sift_up(a: Seq<u32>, keys: Seq<u32>, h: int, m: u32) -> Seq<u32>
    decreases h,
{
    if h > 0 && keys[m as int] < keys[a[parent_pos(h)] as int] {
        sift_up(a.update(h, a[parent_pos(h)]), keys, parent_pos(h), m)
    } else {
        a.update(h, m)
    }
}

/// Result of moving item `m` down from position `h` of arrangement `a`. The left
/// child is chosen when its key is below `m`'s key; the right child is then chosen
/// when its key is below the key of the entry at the chosen position (the left
/// child, or else whatever `a` holds at `h`). The chosen child moves up into `h`.
pub open spec fn sift_down(a: Seq<u32>, keys: Seq<u32>, h: int, m: u32) -> Seq<u32>
    decreases a.len() - h,
{
    if 0 <= h < a.len() {
        let left = 2 * h + 1;
        let right = 2 * h + 2;
        let s1 = if left < a.len() && keys[a[left] as int] < keys[m as int] {
            left
        } else {
            h
        };
        let s = if right < a.len() && keys[a[right] as int] < keys[a[s1] as int] {
            right
        } else {
            s1
        };
        if s != h {
            sift_down(a.update(h, a[s]), keys, s, m)
        } else {
            a.update(h, m)
        }
    } else {
        a
    }
}

/// Every position's key is at least its parent's key.
pub open spec fn heap_ordered(a: Seq<u32>, keys: Seq<u32>) -> bool {
    forall|i: int| 0 < i < a.len() ==> keys[a[parent_pos(i)] as int] <= #[trigger] keys[a[i] as int]
}

/// `c` is a child position of `h`.
pub open spec fn is_child(c: int, h: int) -> bool {
    c > 0 && parent_pos(c) == h
}

/// Arrangement `a` is ordered except around the slot `h` that item `m` is moving
/// up from: pairs not involving `h` are ordered, `m` is no heavier than `h`'s
/// children, and `h`'s parent is no heavier than `h`'s children.
pub open spec fn up_ready(a: Seq<u32>, keys: Seq<u32>, h: int, m: u32) -> bool {
    &&& 0 <= h < a.len()
    &&& forall|i: int|
        0 < i < a.len() && i != h && parent_pos(i) != h ==> keys[a[parent_pos(i)] as int] <= #[trigger] keys[a[i]
            as int]
    &&& forall|c: int| 0 < c < a.len() && #[trigger] is_child(c, h) ==> keys[m as int] <= keys[a[c] as int]
    &&& h > 0 ==> forall|c: int|
        0 < c < a.len() && #[trigger] is_child(c, h) ==> keys[a[parent_pos(h)] as int] <= keys[a[c] as int]
}

/// Moving an item up from a slot that is ready for it yields an ordered heap.
pub proof fn lemma_sift_up_ordered(a: Seq<u32>, keys: Seq<u32>, h: int, m: u32)
    requires
        up_ready(a, keys, h, m),
    ensures
        heap_ordered(sift_up(a, keys, h, m), keys),
        sift_up(a, keys, h, m).len() == a.len(),
    decreases h,
{
    if h > 0 && keys[m as int] < keys[a[parent_pos(h)] as int] {
        let p = parent_pos(h);
        let a2 = a.update(h, a[p]);
        assert forall|i: int|
            0 < i < a2.len() && i != p && parent_pos(i) != p implies keys[a2[parent_pos(i)] as int]
            <= #[trigger] keys[a2[i] as int] by {
            if parent_pos(i) == h {
                assert(is_child(i, h));
            }
        }
        assert forall|c: int| 0 < c < a2.len() && #[trigger] is_child(c, p) implies keys[m as int] <= keys[a2[c]
            as int] by {
            if c != h {
                assert(keys[a[p] as int] <= keys[a[c] as int]);
            }
        }
        if p > 0 {
            assert forall|c: int|
                0 < c < a2.len() && #[trigger] is_child(c, p) implies keys[a2[parent_pos(p)] as int]
                <= keys[a2[c] as int] by {
                assert(keys[a[parent_pos(p)] as int] <= keys[a[p] as int]);
                if c != h {
                    assert(keys[a[p] as int] <= keys[a[c] as int]);
                }
            }
        }
        lemma_sift_up_ordered(a2, keys, p, m);
    } else {
        let r = a.update(h, m);
        assert forall|i: int| 0 < i < r.len() implies keys[r[parent_pos(i)] as int] <= #[trigger] keys[r[i]
            as int] by {
            if parent_pos(i) == h {
                assert(is_child(i, h));
            }
        }
    }
}

/// Moving an item up keeps every item of the arrangement it moves through.
pub proof fn lemma_sift_up_keeps_items(a: Seq<u32>, keys: Seq<u32>, h: int, m: u32)
    requires
        0 <= h < a.len(),
    ensures
        sift_up(a, keys, h, m).len() == a.len(),
        forall|x: u32| a.update(h, m).contains(x) ==> #[trigger] sift_up(a, keys, h, m).contains(x),
        forall|x: u32| #[trigger] sift_up(a, keys, h, m).contains(x) ==> a.update(h, m).contains(x),
    decreases h,
{
    if h > 0 && keys[m as int] < keys[a[parent_pos(h)] as int] {
        let p = parent_pos(h);
        let a2 = a.update(h, a[p]);
        lemma_sift_up_keeps_items(a2, keys, p, m);
        assert forall|x: u32| a.update(h, m).contains(x) implies #[trigger] sift_up(a, keys, h, m).contains(x) by {
            let i = choose|i: int| 0 <= i < a.len() && a.update(h, m)[i] == x;
            if i == h {
                assert(a2.update(p, m)[p] == x);
            } else if i == p {
                assert(a2.update(p, m)[h] == x);
            } else {
                assert(a2.update(p, m)[i] == x);
            }
        }
        assert forall|x: u32| #[trigger] sift_up(a, keys, h, m).contains(x) implies a.update(h, m).contains(x) by {
            let b2 = a2.update(p, m);
            assert(b2.contains(x));
            let i = choose|i: int| 0 <= i < b2.len() && b2[i] == x;
            if i == h {
                assert(a.update(h, m)[p] == x);
            } else if i == p {
                assert(a.update(h, m)[h] == x);
            } else {
                assert(a.update(h, m)[i] == x);
            }
        }
    }
}

/// Law: adding an absent item to an ordered heap keeps it ordered.
pub proof fn lemma_add_keeps_order(a: Seq<u32>, keys: Seq<u32>, m: u32, k: u32)
    requires
        heap_ordered(a, keys),
        !a.contains(m),
        m < keys.len(),
        forall|i: int| 0 <= i < a.len() ==> #[trigger] a[i] < keys.len(),
    ensures
        heap_ordered(sift_up(a.push(m), keys.update(m as int, k), a.len() as int, m), keys.update(m as int, k)),
{
    let k2 = keys.update(m as int, k);
    let b = a.push(m);
    let h = a.len() as int;
    assert forall|i: int| 0 < i < b.len() && i != h && parent_pos(i) != h implies k2[b[parent_pos(i)] as int]
        <= #[trigger] k2[b[i] as int] by {
        assert(b[i] == a[i] && b[parent_pos(i)] == a[parent_pos(i)]);
        assert(a[i] != m && a[parent_pos(i)] != m);
        assert(a[i] < keys.len() && a[parent_pos(i)] < keys.len());
        assert(keys[a[parent_pos(i)] as int] <= keys[a[i] as int]);
    }
    lemma_sift_up_ordered(b, k2, h, m);
}

/// Law: lowering the key of an item of an ordered heap below its parent's key,
/// then moving it up, keeps the heap ordered.
pub proof fn lemma_decrease_keeps_order(a: Seq<u32>, keys: Seq<u32>, h: int, k: u32)
    requires
        heap_ordered(a, keys),
        0 < h < a.len(),
        forall|i: int, j: int| 0 <= i < j < a.len() ==> a[i] != a[j],
        forall|i: int| 0 <= i < a.len() ==> #[trigger] a[i] < keys.len(),
        k < keys.update(a[h] as int, k)[a[parent_pos(h)] as int],
    ensures
        heap_ordered(sift_up(a, keys.update(a[h] as int, k), h, a[h]), keys.update(a[h] as int, k)),
{
    let m = a[h];
    let k2 = keys.update(m as int, k);
    assert(a[parent_pos(h)] != m);
    assert forall|i: int| 0 < i < a.len() && i != h && parent_pos(i) != h implies k2[a[parent_pos(i)] as int]
        <= #[trigger] k2[a[i] as int] by {
        assert(a[i] != m && a[parent_pos(i)] != m);
        assert(a[i] < keys.len() && a[parent_pos(i)] < keys.len());
        assert(keys[a[parent_pos(i)] as int] <= keys[a[i] as int]);
    }
    assert forall|c: int| 0 < c < a.len() && #[trigger] is_child(c, h) implies k2[m as int] <= k2[a[c] as int] by {
        assert(a[c] != m && a[c] < keys.len() && a[parent_pos(h)] < keys.len());
        assert(keys[a[h] as int] <= keys[a[c] as int]);
        assert(keys[a[parent_pos(h)] as int] <= keys[a[h] as int]);
    }
    assert forall|c: int| 0 < c < a.len() && #[trigger] is_child(c, h) implies k2[a[parent_pos(h)] as int]
        <= k2[a[c] as int] by {
        assert(a[c] != m && a[c] < keys.len() && a[parent_pos(h)] < keys.len());
        assert(keys[a[h] as int] <= keys[a[c] as int]);
        assert(keys[a[parent_pos(h)] as int] <= keys[a[h] as int]);
    }
    lemma_sift_up_ordered(a, k2, h, m);
}

/// Law: in an ordered heap the item at the top has the least key.
pub proof fn lemma_top_is_min(a: Seq<u32>, keys: Seq<u32>, i: int)
    requires
        heap_ordered(a, keys),
        0 <= i < a.len(),
    ensures
        keys[a[0] as int] <= keys[a[i] as int],
    decreases i,
{
    if i > 0 {
        lemma_top_is_min(a, keys, parent_pos(i));
    }
}

/// Every position's key is at least its parent's key, except possibly at a
/// right child whose parent holds item `m`.
pub open spec fn ordered_except_right_of(a: Seq<u32>, keys: Seq<u32>, m: u32) -> bool {
    forall|i: int|
        0 < i < a.len() ==> keys[a[parent_pos(i)] as int] <= #[trigger] keys[a[i] as int] || (a[parent_pos(i)] == m
            && i % 2 == 0)
}

/// Arrangement `a` is ready for item `m` to move down from slot `h`: pairs not
/// involving `h` are ordered; `h`'s parent is no heavier than `m` or than `h`'s
/// children; and the slot holds `m` itself, or an entry no heavier than `m` and
/// than `h`'s children.
pub open spec fn down_ready(a: Seq<u32>, keys: Seq<u32>, h: int, m: u32) -> bool {
    &&& 0 <= h < a.len()
    &&& forall|i: int|
        0 < i < a.len() && i != h && parent_pos(i) != h ==> keys[a[parent_pos(i)] as int] <= #[trigger] keys[a[i]
            as int]
    &&& h > 0 ==> keys[a[parent_pos(h)] as int] <= keys[m as int] && forall|c: int|
        0 < c < a.len() && #[trigger] is_child(c, h) ==> keys[a[parent_pos(h)] as int] <= keys[a[c] as int]
    &&& a[h] == m || (keys[a[h] as int] <= keys[m as int] && forall|c: int|
        0 < c < a.len() && #[trigger] is_child(c, h) ==> keys[a[h] as int] <= keys[a[c] as int])
}

/// Moving an item down from a slot that is ready for it leaves the arrangement
/// ordered, except possibly at the right child of the slot where the item stops.
pub proof fn lemma_sift_down_nearly_ordered(a: Seq<u32>, keys: Seq<u32>, h: int, m: u32)
    requires
        down_ready(a, keys, h, m),
    ensures
        sift_down(a, keys, h, m).len() == a.len(),
        ordered_except_right_of(sift_down(a, keys, h, m), keys, m),
    decreases a.len() - h,
{
    let left = 2 * h + 1;
    let right = 2 * h + 2;
    assert(left > 0 ==> parent_pos(left) == h);
    assert(parent_pos(right) == h);
    let s1 = if left < a.len() && keys[a[left] as int] < keys[m as int] {
        left
    } else {
        h
    };
    let s = if right < a.len() && keys[a[right] as int] < keys[a[s1] as int] {
        right
    } else {
        s1
    };
    assert forall|c: int| 0 < c && #[trigger] is_child(c, h) implies c == left || c == right by {}
    if s != h {
        let a2 = a.update(h, a[s]);
        assert(is_child(s, h));
        assert(keys[a[s] as int] < keys[m as int]) by {
            if s == right && s1 == h {
                if a[h] != m {
                    assert(is_child(right, h));
                    assert(keys[a[h] as int] <= keys[a[right] as int]);
                }
            }
        }
        assert forall|c: int| 0 < c < a.len() && #[trigger] is_child(c, h) implies keys[a[s] as int] <= keys[a[c]
            as int] by {
            if c != s {
                if s == left {
                    assert(c == right);
                } else {
                    assert(c == left);
                    if s1 == h {
                        if a[h] != m {
                            assert(is_child(right, h));
                            assert(keys[a[h] as int] <= keys[a[right] as int]);
                        }
                    }
                }
            }
        }
        assert forall|i: int|
            0 < i < a2.len() && i != s && parent_pos(i) != s implies keys[a2[parent_pos(i)] as int]
            <= #[trigger] keys[a2[i] as int] by {
            if i == h {
                assert(is_child(s, h));
            } else if parent_pos(i) == h {
                assert(is_child(i, h));
            } else {
                assert(a2[i] == a[i] && a2[parent_pos(i)] == a[parent_pos(i)]);
            }
        }
        assert forall|c: int| 0 < c < a2.len() && #[trigger] is_child(c, s) implies keys[a2[parent_pos(s)]
            as int] <= keys[a2[c] as int] && keys[a2[s] as int] <= keys[a2[c] as int] by {
            assert(c != h && parent_pos(c) == s && s != h);
            assert(a2[c] == a[c]);
        }
        lemma_sift_down_nearly_ordered(a2, keys, s, m);
    } else {
        let r = a.update(h, m);
        assert forall|i: int| 0 < i < r.len() implies keys[r[parent_pos(i)] as int] <= #[trigger] keys[r[i] as int] || (
        r[parent_pos(i)] == m && i % 2 == 0) by {
            if i == h {
            } else if parent_pos(i) == h {
                assert(is_child(i, h));
                if i == left {
                    assert(!(keys[a[left] as int] < keys[m as int]));
                }
            } else {
                assert(r[i] == a[i] && r[parent_pos(i)] == a[parent_pos(i)]);
            }
        }
    }
}

/// Moving an item down keeps exactly the items of the arrangement it moves through.
pub proof fn lemma_sift_down_keeps_items(a: Seq<u32>, keys: Seq<u32>, h: int, m: u32)
    requires
        0 <= h < a.len(),
    ensures
        sift_down(a, keys, h, m).len() == a.len(),
        forall|x: u32| #[trigger] sift_down(a, keys, h, m).contains(x) <==> a.update(h, m).contains(x),
    decreases a.len() - h,
{
    let left = 2 * h + 1;
    let right = 2 * h + 2;
    let s1 = if left < a.len() && keys[a[left] as int] < keys[m as int] {
        left
    } else {
        h
    };
    let s = if right < a.len() && keys[a[right] as int] < keys[a[s1] as int] {
        right
    } else {
        s1
    };
    if s != h {
        let a2 = a.update(h, a[s]);
        lemma_sift_down_keeps_items(a2, keys, s, m);
        let b = a.update(h, m);
        let b2 = a2.update(s, m);
        assert forall|x: u32| b2.contains(x) <==> b.contains(x) by {
            if b2.contains(x) {
                let i = choose|i: int| 0 <= i < b2.len() && b2[i] == x;
                if i == h {
                    assert(b[s] == x);
                } else if i == s {
                    assert(b[h] == x);
                } else {
                    assert(b[i] == x);
                }
            }
            if b.contains(x) {
                let i = choose|i: int| 0 <= i < b.len() && b[i] == x;
                if i == h {
                    assert(b2[s] == x);
                } else if i == s {
                    assert(b2[h] == x);
                } else {
                    assert(b2[i] == x);
                }
            }
        }
    }
}

/// Law: popping from an ordered heap of at least two items leaves exactly the
/// other items, one fewer, ordered except possibly at the right child of the
/// slot where the last item came to rest (the downward sift compares a right
/// child with the entry it has already moved up, not with the moving item).
pub proof fn lemma_pop_result(a: Seq<u32>, keys: Seq<u32>)
    requires
        a.len() >= 2,
        forall|i: int, j: int| 0 <= i < a.len() && 0 <= j < a.len() && i != j ==> #[trigger] a[i] != #[trigger] a[j],
    ensures
        ({
            let r = sift_down(a.update(0, a.last()).drop_last(), keys, 0, a.last());
            &&& r.len() == a.len() - 1
            &&& forall|x: u32| #[trigger] r.contains(x) <==> a.contains(x) && x != a[0]
            &&& heap_ordered(a, keys) ==> ordered_except_right_of(r, keys, a.last())
        }),
{
    let m = a.last();
    let b = a.update(0, m).drop_last();
    lemma_sift_down_keeps_items(b, keys, 0, m);
    assert(b.update(0, m) =~= b);
    let r = sift_down(b, keys, 0, m);
    assert forall|x: u32| #[trigger] r.contains(x) <==> a.contains(x) && x != a[0] by {
        if b.contains(x) {
            let i = choose|i: int| 0 <= i < b.len() && b[i] == x;
            if i == 0 {
                assert(a[a.len() - 1] == x);
                assert(a.len() - 1 != 0);
            } else {
                assert(a[i] == x);
            }
        }
        if a.contains(x) && x != a[0] {
            let i = choose|i: int| 0 <= i < a.len() && a[i] == x;
            if i == a.len() - 1 {
                assert(b[0] == x);
            } else {
                assert(i != 0);
                assert(b[i] == x);
            }
        }
    }
    if heap_ordered(a, keys) {
        assert forall|i: int|
            0 < i < b.len() && i != 0 && parent_pos(i) != 0 implies keys[b[parent_pos(i)] as int]
            <= #[trigger] keys[b[i] as int] by {
            assert(b[i] == a[i] && b[parent_pos(i)] == a[parent_pos(i)]);
        }
        assert(down_ready(b, keys, 0, m));
        lemma_sift_down_nearly_ordered(b, keys, 0, m);
    }
}

/// The items after item `index` of arrangement `a` gets key `key`: it moves up
/// when the new key is below its parent's, otherwise down.
pub open spec fn updated_arrangement(a: Seq<u32>, keys: Seq<u32>, index: u32, key: u32) -> Seq<u32> {
    let h = a.index_of(index);
    let k2 = keys.update(index as int, key);
    if h > 0 && key < k2[a[parent_pos(h)] as int] {
        sift_up(a, k2, h, index)
    } else {
        sift_down(a, k2, h, index)
    }
}

/// The items after item `index` leaves arrangement `a`: the last item fills its
/// slot and moves up when its key is below the removed one's, otherwise down.
pub open spec fn removed_arrangement(a: Seq<u32>, keys: Seq<u32>, index: u32) -> Seq<u32> {
    let h = a.index_of(index);
    let n = a.len() as int;
    let m = a[n - 1];
    let rest = a.update(h, m).drop_last();
    if h == n - 1 {
        a.drop_last()
    } else if keys[m as int] < keys[index as int] {
        sift_up(rest, keys, h, m)
    } else {
        sift_down(rest, keys, h, m)
    }
}

/// Law: giving item `index` of an ordered heap a new key `key` keeps exactly the
/// same items, and leaves them ordered by the new keys except possibly at the
/// right child of the slot where `index` comes to rest.
pub proof fn lemma_update_result(a: Seq<u32>, keys: Seq<u32>, index: u32, key: u32)
    requires
        a.contains(index),
        index < keys.len(),
        forall|i: int| 0 <= i < a.len() ==> #[trigger] a[i] < keys.len(),
        forall|i: int, j: int| 0 <= i < a.len() && 0 <= j < a.len() && i != j ==> #[trigger] a[i] != #[trigger] a[j],
    ensures
        updated_arrangement(a, keys, index, key).len() == a.len(),
        forall|x: u32| #[trigger] updated_arrangement(a, keys, index, key).contains(x) <==> a.contains(x),
        heap_ordered(a, keys) ==> ordered_except_right_of(
            updated_arrangement(a, keys, index, key),
            keys.update(index as int, key),
            index,
        ),
{
    let h = a.index_of(index);
    let k2 = keys.update(index as int, key);
    assert(0 <= h < a.len() && a[h] == index);
    assert(a.update(h, index) =~= a);
    if h > 0 && key < k2[a[parent_pos(h)] as int] {
        lemma_sift_up_keeps_items(a, k2, h, index);
        if heap_ordered(a, keys) {
            assert(index == a[h]);
            lemma_decrease_keeps_order(a, keys, h, key);
        }
    } else {
        lemma_sift_down_keeps_items(a, k2, h, index);
        if heap_ordered(a, keys) {
            assert forall|i: int|
                0 < i < a.len() && i != h && parent_pos(i) != h implies k2[a[parent_pos(i)] as int]
                <= #[trigger] k2[a[i] as int] by {
                assert(a[i] != index && a[parent_pos(i)] != index);
            }
            if h > 0 {
                assert(a[parent_pos(h)] != index);
                assert forall|c: int| 0 < c < a.len() && #[trigger] is_child(c, h) implies k2[a[parent_pos(h)]
                    as int] <= k2[a[c] as int] by {
                    assert(a[c] != index);
                    assert(keys[a[parent_pos(h)] as int] <= keys[a[h] as int]);
                }
            }
            assert(down_ready(a, k2, h, index));
            lemma_sift_down_nearly_ordered(a, k2, h, index);
        }
    }
}

/// Law: removing item `index` from an ordered heap keeps exactly the other
/// items, one fewer, ordered except possibly at the right child of the slot
/// where the last item came to rest.
#[verifier::rlimit(40)]
pub proof fn lemma_remove_result(a: Seq<u32>, keys: Seq<u32>, index: u32)
    requires
        a.contains(index),
        forall|i: int, j: int| 0 <= i < a.len() && 0 <= j < a.len() && i != j ==> #[trigger] a[i] != #[trigger] a[j],
    ensures
        removed_arrangement(a, keys, index).len() == a.len() - 1,
        forall|x: u32| #[trigger] removed_arrangement(a, keys, index).contains(x) <==> a.contains(x) && x != index,
        heap_ordered(a, keys) ==> ordered_except_right_of(removed_arrangement(a, keys, index), keys, a.last()),
{
    let h = a.index_of(index);
    let n = a.len() as int;
    let m = a[n - 1];
    let rest = a.update(h, m).drop_last();
    assert(0 <= h < n && a[h] == index);
    if h == n - 1 {
        let r = a.drop_last();
        assert forall|x: u32| #[trigger] r.contains(x) <==> a.contains(x) && x != index by {
            if r.contains(x) {
                let i = choose|i: int| 0 <= i < r.len() && r[i] == x;
                assert(a[i] == x && i != h);
            }
            if a.contains(x) && x != index {
                let i = choose|i: int| 0 <= i < a.len() && a[i] == x;
                assert(i != h);
                assert(r[i] == x);
            }
        }
        if heap_ordered(a, keys) {
            assert forall|i: int| 0 < i < r.len() implies #[trigger] keys[r[parent_pos(i)] as int] <= keys[r[i] as int]
                || (r[parent_pos(i)] == m && i % 2 == 0) by {
                assert(keys[a[parent_pos(i)] as int] <= keys[a[i] as int]);
            }
        }
    } else {
        assert(rest.update(h, m) =~= rest);
        assert forall|x: u32| rest.contains(x) <==> a.contains(x) && x != index by {
            if rest.contains(x) {
                let i = choose|i: int| 0 <= i < rest.len() && rest[i] == x;
                if i == h {
                    assert(a[n - 1] == x && n - 1 != h);
                } else {
                    assert(a[i] == x);
                }
            }
            if a.contains(x) && x != index {
                let i = choose|i: int| 0 <= i < a.len() && a[i] == x;
                assert(i != h);
                if i == n - 1 {
                    assert(rest[h] == x);
                } else {
                    assert(rest[i] == x);
                }
            }
        }
        assert forall|i: int|
            0 < i < rest.len() && i != h && parent_pos(i) != h implies rest[i] == a[i] && rest[parent_pos(i)] == a[parent_pos(i)] by {}
        if keys[m as int] < keys[index as int] {
            lemma_sift_up_keeps_items(rest, keys, h, m);
            if heap_ordered(a, keys) {
                assert forall|c: int| 0 < c < rest.len() && #[trigger] is_child(c, h) implies keys[m as int]
                    <= keys[rest[c] as int] by {
                    assert(rest[c] == a[c]);
                    assert(keys[a[h] as int] <= keys[a[c] as int]);
                }
                if h > 0 {
                    assert forall|c: int| 0 < c < rest.len() && #[trigger] is_child(c, h) implies keys[rest[parent_pos(
                        h,
                    )] as int] <= keys[rest[c] as int] by {
                        assert(rest[c] == a[c]);
                        assert(keys[a[h] as int] <= keys[a[c] as int]);
                        assert(keys[a[parent_pos(h)] as int] <= keys[a[h] as int]);
                    }
                }
                assert forall|i: int|
                    0 < i < rest.len() && i != h && parent_pos(i) != h implies keys[rest[parent_pos(i)] as int]
                    <= #[trigger] keys[rest[i] as int] by {
                    assert(keys[a[parent_pos(i)] as int] <= keys[a[i] as int]);
                }
                assert(up_ready(rest, keys, h, m));
                lemma_sift_up_ordered(rest, keys, h, m);
            }
        } else {
            lemma_sift_down_keeps_items(rest, keys, h, m);
            if heap_ordered(a, keys) {
                assert forall|i: int|
                    0 < i < rest.len() && i != h && parent_pos(i) != h implies keys[rest[parent_pos(i)] as int]
                    <= #[trigger] keys[rest[i] as int] by {
                    assert(keys[a[parent_pos(i)] as int] <= keys[a[i] as int]);
                }
                if h > 0 {
                    assert(keys[a[parent_pos(h)] as int] <= keys[a[h] as int]);
                    assert forall|c: int| 0 < c < rest.len() && #[trigger] is_child(c, h) implies keys[rest[parent_pos(
                        h,
                    )] as int] <= keys[rest[c] as int] by {
                        assert(rest[c] == a[c]);
                        assert(keys[a[h] as int] <= keys[a[c] as int]);
                    }
                }
                assert(down_ready(rest, keys, h, m));
                lemma_sift_down_nearly_ordered(rest, keys, h, m);
            }
        }
    }
}

/// An indexed binary heap with `u32` keys.
pub struct BinaryHeap {
    heap_num: u32,
    heap_size: u32,
    index_size: u32,
    heap: Vec<u32>,
    keys: Vec<u32>,
    heap_indices: Vec<u32>,
}

impl BinaryHeap {
    /// The items in heap order: position `0` is the top.
    pub closed spec fn items(&self) -> Seq<u32> {
        self.heap@.subrange(0, self.heap_num as int)
    }

    /// The key table: the last key given for each index.
    pub closed spec fn keys(&self) -> Seq<u32> {
        self.keys@
    }

    /// Number of item slots allocated.
    pub closed spec fn heap_capacity(&self) -> nat {
        self.heap_size as nat
    }

    /// Number of indices the key table covers.
    pub closed spec fn index_capacity(&self) -> nat {
        self.index_size as nat
    }

    /// `x` is in the heap.
    pub open spec fn contains(&self, x: u32) -> bool {
        self.items().contains(x)
    }

    spec fn positions_agree(hs: Seq<u32>, hi: Seq<u32>, num: int, isz: int) -> bool {
        &&& forall|i: int| 0 <= i < num ==> #[trigger] hs[i] < isz && hi[hs[i] as int] == i
        &&& forall|x: int| 0 <= x < isz && #[trigger] hi[x] != NOT_IN_HEAP ==> hi[x] < num && hs[hi[x] as int] == x
    }

    spec fn agree_except(hs: Seq<u32>, hi: Seq<u32>, num: int, isz: int, h: int, m: u32) -> bool {
        &&& m < isz
        &&& forall|i: int| 0 <= i < num && i != h ==> #[trigger] hs[i] < isz && hs[i] != m && hi[hs[i] as int] == i
        &&& forall|x: int|
            0 <= x < isz && x != m && #[trigger] hi[x] != NOT_IN_HEAP ==> hi[x] < num && hi[x] != h && hs[hi[x] as int]
                == x
    }

    /// The arrays describe a heap: positions and indices agree both ways.
    pub closed spec fn wf(&self) -> bool {
        &&& self.heap@.len() == self.heap_size
        &&& self.keys@.len() == self.index_size
        &&& self.heap_indices@.len() == self.index_size
        &&& self.heap_num <= self.heap_size
        &&& self.heap_num < 0x8000_0000
        &&& Self::positions_agree(self.heap@, self.heap_indices@, self.heap_num as int, self.index_size as int)
    }

    /// Items are distinct and lie below the index capacity, and the key table
    /// covers exactly the index capacity.
    pub proof fn lemma_items(&self)
        requires
            self.wf(),
        ensures
            self.keys().len() == self.index_capacity(),
            self.items().len() <= self.heap_capacity(),
            self.items().len() < 0x8000_0000,
            forall|i: int| 0 <= i < self.items().len() ==> #[trigger] self.items()[i] < self.index_capacity(),
            forall|i: int, j: int|
                0 <= i < self.items().len() && 0 <= j < self.items().len() && i != j ==> #[trigger] self.items()[i]
                    != #[trigger] self.items()[j],
    {
        assert forall|i: int, j: int|
            0 <= i < self.items().len() && 0 <= j < self.items().len() && i != j implies #[trigger] self.items()[i]
            != #[trigger] self.items()[j] by {
            assert(self.heap@[i] == self.items()[i]);
            assert(self.heap@[j] == self.items()[j]);
        }
    }

    fn filled(n: u32, v: u32) -> (r: Vec<u32>)
        ensures
            r@ == Seq::new(n as nat, |i: int| v),
    {
        let mut r: Vec<u32> = Vec::new();
        let mut i: u32 = 0;
        while i < n
            invariant
                i <= n,
                r@ == Seq::new(i as nat, |j: int| v),
            decreases n - i,
        {
            r.push(v);
            i = i + 1;
        }
        r
    }

    /// An empty heap with room for `heap_size` items and keys for `index_size` indices.
    pub fn new(heap_size: u32, index_size: u32) -> (r: Self)
        ensures
            r.wf(),
            r.items() == Seq::<u32>::empty(),
            r.keys() == Seq::new(index_size as nat, |i: int| 0u32),
            r.heap_capacity() == heap_size,
            r.index_capacity() == index_size,
    {
        let r = BinaryHeap {
            heap_num: 0,
            heap_size,
            index_size,
            heap: Self::filled(heap_size, 0),
            keys: Self::filled(index_size, 0),
            heap_indices: Self::filled(index_size, NOT_IN_HEAP),
        };
        assert(r.items() =~= Seq::<u32>::empty());
        r
    }

    /// Removes every item; the key table is kept.
    pub fn clear(&mut self)
        requires
            old(self).wf(),
        ensures
            final(self).wf(),
            final(self).items() == Seq::<u32>::empty(),
            final(self).keys() == old(self).keys(),
            final(self).heap_capacity() == old(self).heap_capacity(),
            final(self).index_capacity() == old(self).index_capacity(),
    {
        self.heap_num = 0;
        let n = self.heap_indices.len();
        let mut i: usize = 0;
        while i < n
            invariant
                n == self.heap_indices@.len(),
                i <= n,
                self.heap_num == 0,
                self.heap_size == old(self).heap_size,
                self.index_size == old(self).index_size,
                self.heap == old(self).heap,
                self.keys == old(self).keys,
                self.heap_indices@.len() == old(self).heap_indices@.len(),
                old(self).wf(),
                forall|j: int| 0 <= j < i ==> self.heap_indices@[j] == NOT_IN_HEAP,
            decreases n - i,
        {
            self.heap_indices[i] = NOT_IN_HEAP;
            i = i + 1;
        }
        assert(self.items() =~= Seq::<u32>::empty());
    }

    /// Sets the item capacity and the key table size; new keys are `0`.
    pub fn resize(&mut self, new_heap_size: u32, new_index_size: u32)
        requires
            old(self).wf(),
            old(self).items().len() <= new_heap_size,
            forall|i: int| 0 <= i < old(self).items().len() ==> #[trigger] old(self).items()[i] < new_index_size,
        ensures
            final(self).wf(),
            final(self).items() == old(self).items(),
            final(self).keys() == Seq::new(
                new_index_size as nat,
                |i: int| if i < old(self).keys().len() { old(self).keys()[i] } else { 0u32 },
            ),
            final(self).heap_capacity() == new_heap_size,
            final(self).index_capacity() == new_index_size,
    {
        let ghost num = self.heap_num as int;
        if new_heap_size != self.heap_size {
            self.heap.resize(new_heap_size as usize, 0);
            self.heap_size = new_heap_size;
        }
        assert(self.heap@.subrange(0, num) =~= old(self).heap@.subrange(0, num));
        if new_index_size != self.index_size {
            self.keys.resize(new_index_size as usize, 0);
            self.heap_indices.resize(new_index_size as usize, NOT_IN_HEAP);
            self.index_size = new_index_size;
        }
        proof {
            let hs = self.heap@;
            let hi = self.heap_indices@;
            let ohi = old(self).heap_indices@;
            assert forall|i: int| 0 <= i < num implies #[trigger] hs[i] < self.index_size && hi[hs[i] as int] == i by {
                assert(old(self).items()[i] == hs[i]);
            }
            assert forall|x: int|
                0 <= x < self.index_size && #[trigger] hi[x] != NOT_IN_HEAP implies hi[x] < num && hs[hi[x] as int]
                == x by {
                if x >= old(self).index_size {
                } else {
                    assert(hi[x] == ohi[x]);
                }
            }
        }
        assert(self.keys@ =~= Seq::new(
            new_index_size as nat,
            |i: int| if i < old(self).keys().len() { old(self).keys()[i] } else { 0u32 },
        ));
    }

    /// The heap holds no item.
    pub fn is_empty(&self) -> (r: bool)
        requires
            self.wf(),
        ensures
            r == (self.items().len() == 0),
    {
        self.heap_num == 0
    }

    /// Number of items.
    pub fn num(&self) -> (r: u32)
        requires
            self.wf(),
        ensures
            r == self.items().len(),
    {
        self.heap_num
    }

    /// `index` is in the heap.
    pub fn is_present(&self, index: u32) -> (r: bool)
        requires
            self.wf(),
        ensures
            r == self.contains(index),
    {
        if index >= self.index_size {
            assert(!self.contains(index)) by {
                if self.contains(index) {
                    let i = choose|i: int| 0 <= i < self.items().len() && self.items()[i] == index;
                    assert(self.heap@[i] == index);
                }
            }
            return false;
        }
        let r = self.heap_indices[index as usize] != NOT_IN_HEAP;
        proof {
            if r {
                let p = self.heap_indices@[index as int] as int;
                assert(self.items()[p] == index);
            } else if self.contains(index) {
                let i = choose|i: int| 0 <= i < self.items().len() && self.items()[i] == index;
                assert(self.heap@[i] == index);
            }
        }
        r
    }

    /// The key last given for `index`.
    pub fn get_key(&self, index: u32) -> (r: u32)
        requires
            self.wf(),
            index < self.index_capacity(),
        ensures
            r == self.keys()[index as int],
    {
        self.keys[index as usize]
    }

    /// The item at the top.
    pub fn top(&self) -> (r: u32)
        requires
            self.wf(),
            self.items().len() > 0,
        ensures
            r == self.items()[0],
    {
        self.heap[0]
    }
    /// Removes and returns the item at the top; the last item takes its place and
    /// moves down.
    pub fn pop(&mut self) -> (r: u32)
        requires
            old(self).wf(),
            old(self).items().len() > 0,
        ensures
            final(self).wf(),
            r == old(self).items()[0],
            final(self).keys() == old(self).keys(),
            final(self).heap_capacity() == old(self).heap_capacity(),
            final(self).index_capacity() == old(self).index_capacity(),
            final(self).items() == if old(self).items().len() == 1 {
                Seq::<u32>::empty()
            } else {
                sift_down(
                    old(self).items().update(0, old(self).items().last()).drop_last(),
                    old(self).keys(),
                    0,
                    old(self).items().last(),
                )
            },
            final(self).items().len() == old(self).items().len() - 1,
            forall|x: u32| #[trigger] final(self).contains(x) <==> old(self).contains(x) && x != r,
            heap_ordered(old(self).items(), old(self).keys()) ==> ordered_except_right_of(
                final(self).items(),
                final(self).keys(),
                old(self).items().last(),
            ),
    {
        let index = self.heap[0];
        let ghost a = old(self).items();
        let ghost n = a.len() as int;
        proof {
            self.lemma_items();
        }
        self.heap_indices[index as usize] = NOT_IN_HEAP;
        self.heap_num = self.heap_num - 1;
        if self.heap_num > 0 {
            let last = self.heap[self.heap_num as usize];
            self.heap[0] = last;
            self.heap_indices[last as usize] = 0;
            proof {
                let num = self.heap_num as int;
                let hs = self.heap@;
                let hi = self.heap_indices@;
                assert(a[n - 1] == last);
                assert(self.items() =~= a.update(0, a.last()).drop_last());
                assert forall|i: int| 0 <= i < num implies #[trigger] hs[i] < self.index_size && hi[hs[i] as int] == i by {
                    if i > 0 {
                        assert(hs[i] == a[i]);
                        assert(a[i] != index && a[i] != last);
                    }
                }
                assert forall|x: int|
                    0 <= x < self.index_size && #[trigger] hi[x] != NOT_IN_HEAP implies hi[x] < num && hs[hi[x] as int]
                    == x by {
                    if x != last && x != index {
                        let p = old(self).heap_indices@[x] as int;
                        assert(a[p] == x);
                        assert(p != 0 && p != n - 1);
                    }
                }
            }
            self.down_heap(0);
        } else {
            proof {
                let hi = self.heap_indices@;
                assert forall|x: int| 0 <= x < self.index_size && #[trigger] hi[x] != NOT_IN_HEAP implies false by {
                    let p = old(self).heap_indices@[x] as int;
                    assert(x != index);
                    assert(a[p] == x);
                }
                assert(self.items() =~= Seq::<u32>::empty());
            }
        }
        proof {
            if n >= 2 {
                lemma_pop_result(a, old(self).keys());
            } else {
                assert forall|x: u32| #[trigger] self.contains(x) <==> old(self).contains(x) && x != index by {
                    if old(self).contains(x) {
                        let i = choose|i: int| 0 <= i < a.len() && a[i] == x;
                        assert(i == 0);
                    }
                }
            }
        }
        index
    }

    /// Inserts `index` with `key`, growing the item slots and the key table when
    /// they are full or too small; then moves it up to its place.
    pub fn add(&mut self, key: u32, index: u32)
        requires
            old(self).wf(),
            !old(self).contains(index),
            old(self).items().len() < 0x7fff_ffff,
            index < old(self).index_capacity() || index < 0x8000_0000,
        ensures
            final(self).wf(),
            final(self).heap_capacity() == if old(self).items().len() == old(self).heap_capacity() {
                if old(self).heap_capacity() * 2 < 32 {
                    32
                } else {
                    old(self).heap_capacity() * 2
                }
            } else {
                old(self).heap_capacity()
            },
            index < old(self).index_capacity() ==> final(self).index_capacity() == old(self).index_capacity(),
            index >= old(self).index_capacity() ==> exists|r: int|
                #[trigger] is_next_pow2(r, index + 1) && final(self).index_capacity() == (if r < 32 {
                    32
                } else {
                    r
                }),
            final(self).keys() == Seq::new(
                final(self).index_capacity(),
                |i: int| if i < old(self).keys().len() { old(self).keys()[i] } else { 0u32 },
            ).update(index as int, key),
            final(self).items() == sift_up(
                old(self).items().push(index),
                final(self).keys(),
                old(self).items().len() as int,
                index,
            ),
            final(self).items().len() == old(self).items().len() + 1,
            final(self).contains(index),
            forall|x: u32| old(self).contains(x) ==> #[trigger] final(self).contains(x),
            forall|k: int|
                0 <= k < old(self).index_capacity() && k != index ==> #[trigger] final(self).keys()[k]
                    == old(self).keys()[k],
            heap_ordered(old(self).items(), old(self).keys()) ==> heap_ordered(
                final(self).items(),
                final(self).keys(),
            ),
    {
        proof {
            self.lemma_items();
        }
        let ghost a = old(self).items();
        if self.heap_num == self.heap_size {
            let new_size = if self.heap_size * 2 < 32 {
                32
            } else {
                self.heap_size * 2
            };
            self.heap.resize(new_size as usize, 0);
            self.heap_size = new_size;
            assert(self.heap@.subrange(0, self.heap_num as int) =~= a);
        }
        if index >= self.index_size {
            let np = next_power_of_two(index + 1);
            assert(is_next_pow2(np as int, index + 1));
            let new_size = if np < 32 {
                32
            } else {
                np
            };
            self.keys.resize(new_size as usize, 0);
            self.heap_indices.resize(new_size as usize, NOT_IN_HEAP);
            self.index_size = new_size;
        }
        assert(self.keys@ =~= Seq::new(
            self.index_size as nat,
            |i: int| if i < old(self).keys().len() { old(self).keys()[i] } else { 0u32 },
        ));
        let heap_index = self.heap_num;
        self.heap_num = self.heap_num + 1;
        self.heap[heap_index as usize] = index;
        self.keys[index as usize] = key;
        let ghost pre_hi = self.heap_indices@;
        self.heap_indices[index as usize] = heap_index;
        proof {
            let num = self.heap_num as int;
            let hs = self.heap@;
            let hi = self.heap_indices@;
            let ohi = old(self).heap_indices@;
            assert(self.items() =~= a.push(index));
            if index < old(self).index_size && ohi[index as int] != NOT_IN_HEAP {
                assert(a[ohi[index as int] as int] == index);
            }
            assert forall|i: int| 0 <= i < num implies #[trigger] hs[i] < self.index_size && hi[hs[i] as int] == i by {
                if i < num - 1 {
                    assert(hs[i] == a[i]);
                }
            }
            assert forall|x: int|
                0 <= x < self.index_size && #[trigger] hi[x] != NOT_IN_HEAP implies hi[x] < num && hs[hi[x] as int]
                == x by {
                if x != index {
                    assert(x < old(self).index_size);
                    assert(hi[x] == ohi[x]);
                }
            }
        }
        let ghost ext = Seq::new(
            self.index_size as nat,
            |i: int| if i < old(self).keys().len() { old(self).keys()[i] } else { 0u32 },
        );
        self.up_heap(heap_index);
        proof {
            let b = a.push(index);
            let fk = ext.update(index as int, key);
            assert(self.keys() == fk);
            lemma_sift_up_keeps_items(b, fk, a.len() as int, index);
            assert(b.update(a.len() as int, index) =~= b);
            assert(b[a.len() as int] == index);
            assert forall|x: u32| old(self).contains(x) implies #[trigger] self.contains(x) by {
                let i = choose|i: int| 0 <= i < a.len() && a[i] == x;
                assert(b[i] == x);
            }
            if heap_ordered(a, old(self).keys()) {
                assert(heap_ordered(a, ext)) by {
                    assert forall|i: int| 0 < i < a.len() implies ext[a[parent_pos(i)] as int]
                        <= #[trigger] ext[a[i] as int] by {
                        assert(old(self).keys()[a[parent_pos(i)] as int] <= old(self).keys()[a[i] as int]);
                    }
                }
                lemma_add_keeps_order(a, ext, index, key);
            }
        }
    }

    /// Gives `index` a new key and moves it up when the key is below its parent's,
    /// otherwise down.
    pub fn update(&mut self, key: u32, index: u32)
        requires
            old(self).wf(),
            old(self).contains(index),
        ensures
            final(self).wf(),
            final(self).keys() == old(self).keys().update(index as int, key),
            final(self).heap_capacity() == old(self).heap_capacity(),
            final(self).index_capacity() == old(self).index_capacity(),
            ({
                let a = old(self).items();
                let h = a.index_of(index);
                let k2 = old(self).keys().update(index as int, key);
                final(self).items() == if h > 0 && key < k2[a[parent_pos(h)] as int] {
                    sift_up(a, k2, h, index)
                } else {
                    sift_down(a, k2, h, index)
                }
            }),
            final(self).items().len() == old(self).items().len(),
            forall|x: u32| #[trigger] final(self).contains(x) <==> old(self).contains(x),
            heap_ordered(old(self).items(), old(self).keys()) ==> ordered_except_right_of(
                final(self).items(),
                final(self).keys(),
                index,
            ),
    {
        let ghost a = old(self).items();
        proof {
            self.lemma_items();
            assert(index < old(self).keys().len()) by {
                let i = choose|i: int| 0 <= i < a.len() && a[i] == index;
            }
            lemma_update_result(a, old(self).keys(), index, key);
            let i = choose|i: int| 0 <= i < a.len() && a[i] == index;
            assert(a[i] == self.heap@[i]);
            assert(index < self.index_size);
            let j = a.index_of(index);
            assert(0 <= j < a.len() && a[j] == index);
            assert(j == i);
        }
        self.keys[index as usize] = key;
        let heap_index = self.heap_indices[index as usize];
        assert(heap_index == a.index_of(index));
        if heap_index > 0 {
            let parent = (heap_index - 1) / 2;
            let parent_idx = self.heap[parent as usize];
            if key < self.keys[parent_idx as usize] {
                self.up_heap(heap_index);
                return;
            }
        }
        self.down_heap(heap_index);
    }

    /// Takes `index` out of the heap if it is there: the last item fills its slot
    /// and moves up when its key is below the removed one's, otherwise down.
    pub fn remove(&mut self, index: u32)
        requires
            old(self).wf(),
        ensures
            final(self).wf(),
            final(self).keys() == old(self).keys(),
            final(self).heap_capacity() == old(self).heap_capacity(),
            final(self).index_capacity() == old(self).index_capacity(),
            !old(self).contains(index) ==> final(self).items() == old(self).items(),
            old(self).contains(index) ==> {
                let a = old(self).items();
                let h = a.index_of(index);
                let n = a.len() as int;
                let m = a[n - 1];
                let rest = a.update(h, m).drop_last();
                final(self).items() == if h == n - 1 {
                    a.drop_last()
                } else if old(self).keys()[m as int] < old(self).keys()[index as int] {
                    sift_up(rest, old(self).keys(), h, m)
                } else {
                    sift_down(rest, old(self).keys(), h, m)
                }
            },
            !old(self).contains(index) ==> forall|x: u32| #[trigger] final(self).contains(x) <==> old(self).contains(x),
            old(self).contains(index) ==> final(self).items().len() == old(self).items().len() - 1 && (forall|x: u32|
                #[trigger] final(self).contains(x) <==> old(self).contains(x) && x != index) && (heap_ordered(
                old(self).items(),
                old(self).keys(),
            ) ==> ordered_except_right_of(final(self).items(), final(self).keys(), old(self).items().last())),
    {
        if !self.is_present(index) {
            return;
        }
        let ghost a = old(self).items();
        let ghost n = a.len() as int;
        proof {
            self.lemma_items();
            lemma_remove_result(a, old(self).keys(), index);
            let i = choose|i: int| 0 <= i < a.len() && a[i] == index;
            assert(a[i] == self.heap@[i]);
            let j = a.index_of(index);
            assert(0 <= j < a.len() && a[j] == index);
            assert(j == i);
        }
        let old_key = self.keys[index as usize];
        let heap_index = self.heap_indices[index as usize];
        assert(heap_index == a.index_of(index));
        self.heap_num = self.heap_num - 1;
        if heap_index < self.heap_num {
            let last = self.heap[self.heap_num as usize];
            self.heap[heap_index as usize] = last;
            self.heap_indices[last as usize] = heap_index;
            self.heap_indices[index as usize] = NOT_IN_HEAP;
            proof {
                let num = self.heap_num as int;
                let hs = self.heap@;
                let hi = self.heap_indices@;
                let h = heap_index as int;
                assert(a[n - 1] == last);
                assert(self.items() =~= a.update(h, last).drop_last());
                assert forall|i: int| 0 <= i < num implies #[trigger] hs[i] < self.index_size && hi[hs[i] as int] == i by {
                    if i != h {
                        assert(hs[i] == a[i]);
                        assert(a[i] != index && a[i] != last);
                    }
                }
                assert forall|x: int|
                    0 <= x < self.index_size && #[trigger] hi[x] != NOT_IN_HEAP implies hi[x] < num && hs[hi[x] as int]
                    == x by {
                    if x != last && x != index {
                        let p = old(self).heap_indices@[x] as int;
                        assert(a[p] == x);
                        assert(p != h && p != n - 1);
                    }
                }
            }
            let new_key = self.keys[last as usize];
            if new_key < old_key {
                self.up_heap(heap_index);
            } else {
                self.down_heap(heap_index);
            }
        } else {
            self.heap_indices[index as usize] = NOT_IN_HEAP;
            proof {
                let num = self.heap_num as int;
                let hs = self.heap@;
                let hi = self.heap_indices@;
                assert(self.items() =~= a.drop_last());
                assert forall|i: int| 0 <= i < num implies #[trigger] hs[i] < self.index_size && hi[hs[i] as int] == i by {
                    assert(hs[i] == a[i]);
                    assert(a[i] != index);
                }
                assert forall|x: int|
                    0 <= x < self.index_size && #[trigger] hi[x] != NOT_IN_HEAP implies hi[x] < num && hs[hi[x] as int]
                    == x by {
                    let p = old(self).heap_indices@[x] as int;
                    assert(a[p] == x);
                    assert(p != n - 1);
                }
            }
        }
    }

    fn up_heap(&mut self, heap_index: u32)
        requires
            old(self).wf(),
            heap_index < old(self).heap_num,
        ensures
            final(self).wf(),
            final(self).items() == sift_up(
                old(self).items(),
                old(self).keys(),
                heap_index as int,
                old(self).items()[heap_index as int],
            ),
            final(self).keys@ == old(self).keys@,
            final(self).heap_num == old(self).heap_num,
            final(self).heap_size == old(self).heap_size,
            final(self).index_size == old(self).index_size,
    {
        let ghost num = self.heap_num as int;
        let ghost isz = self.index_size as int;
        let ghost keys = self.keys@;
        let moving = self.heap[heap_index as usize];
        let ghost target = sift_up(self.items(), keys, heap_index as int, moving);
        let moving_key = self.keys[moving as usize];
        let mut h = heap_index;
        proof {
            self.lemma_items();
            assert forall|i: int| 0 <= i < num && i != h implies #[trigger] self.heap@[i] != moving by {
                assert(self.items()[i] == self.heap@[i]);
                assert(self.items()[h as int] == moving);
            }
        }
        while h > 0 && moving_key < self.keys[self.heap[((h - 1) / 2) as usize] as usize]
            invariant
                self.heap@.len() == self.heap_size,
                self.keys@ == keys,
                keys.len() == isz,
                self.heap_indices@.len() == isz,
                self.heap_num == num,
                self.index_size == isz,
                self.heap_size == old(self).heap_size,
                num <= self.heap_size,
                num < 0x8000_0000,
                h < num,
                moving_key == keys[moving as int],
                Self::agree_except(self.heap@, self.heap_indices@, num, isz, h as int, moving),
                sift_up(self.heap@.subrange(0, num), keys, h as int, moving) == target,
            decreases h,
        {
            let parent = (h - 1) / 2;
            let parent_idx = self.heap[parent as usize];
            let ghost a = self.heap@.subrange(0, num);
            self.heap[h as usize] = parent_idx;
            self.heap_indices[parent_idx as usize] = h;
            proof {
                assert(self.heap@.subrange(0, num) =~= a.update(h as int, a[parent_pos(h as int)]));
                let hs = self.heap@;
                let hi = self.heap_indices@;
                assert forall|i: int| 0 <= i < num && i != parent implies #[trigger] hs[i] < isz && hs[i] != moving
                    && hi[hs[i] as int] == i by {
                    if i != h {
                        assert(hs[i] != parent_idx);
                    }
                }
                assert forall|x: int|
                    0 <= x < isz && x != moving && #[trigger] hi[x] != NOT_IN_HEAP implies hi[x] < num && hi[x]
                    != parent && hs[hi[x] as int] == x by {}
            }
            h = parent;
        }
        self.heap[h as usize] = moving;
        self.heap_indices[moving as usize] = h;
        proof {
            let hs = self.heap@;
            let hi = self.heap_indices@;
            assert forall|x: int| 0 <= x < isz && #[trigger] hi[x] != NOT_IN_HEAP implies hi[x] < num && hs[hi[x]
                as int] == x by {}
            assert(self.items() =~= target);
        }
    }

    fn down_heap(&mut self, heap_index: u32)
        requires
            old(self).wf(),
            heap_index < old(self).heap_num,
        ensures
            final(self).wf(),
            final(self).items() == sift_down(
                old(self).items(),
                old(self).keys(),
                heap_index as int,
                old(self).items()[heap_index as int],
            ),
            final(self).keys@ == old(self).keys@,
            final(self).heap_num == old(self).heap_num,
            final(self).heap_size == old(self).heap_size,
            final(self).index_size == old(self).index_size,
    {
        let ghost num = self.heap_num as int;
        let ghost isz = self.index_size as int;
        let ghost keys = self.keys@;
        let moving = self.heap[heap_index as usize];
        let ghost target = sift_down(self.items(), keys, heap_index as int, moving);
        let moving_key = self.keys[moving as usize];
        let mut h = heap_index;
        let n = self.heap_num;
        let mut done = false;
        proof {
            self.lemma_items();
            assert forall|i: int| 0 <= i < num && i != h implies #[trigger] self.heap@[i] != moving by {
                assert(self.items()[i] == self.heap@[i]);
                assert(self.items()[h as int] == moving);
            }
        }
        while !done
            invariant
                self.heap@.len() == self.heap_size,
                self.keys@ == keys,
                keys.len() == isz,
                self.heap_indices@.len() == isz,
                self.heap_num == num,
                n == num,
                self.index_size == isz,
                self.heap_size == old(self).heap_size,
                num <= self.heap_size,
                num < 0x8000_0000,
                h < num,
                moving_key == keys[moving as int],
                self.heap@[h as int] < isz,
                Self::agree_except(self.heap@, self.heap_indices@, num, isz, h as int, moving),
                !done ==> sift_down(self.heap@.subrange(0, num), keys, h as int, moving) == target,
                done ==> self.heap@.subrange(0, num).update(h as int, moving) == target,
            decreases num - h + if done { 0int } else { 1int },
        {
            let ghost a = self.heap@.subrange(0, num);
            let left = 2 * h + 1;
            let right = left + 1;
            let mut smallest = h;
            if left < n {
                let left_idx = self.heap[left as usize];
                if self.keys[left_idx as usize] < moving_key {
                    smallest = left;
                }
            }
            if right < n {
                let right_idx = self.heap[right as usize];
                let smallest_idx = self.heap[smallest as usize];
                if self.keys[right_idx as usize] < self.keys[smallest_idx as usize] {
                    smallest = right;
                }
            }
            if smallest != h {
                let moved = self.heap[smallest as usize];
                self.heap[h as usize] = moved;
                self.heap_indices[moved as usize] = h;
                proof {
                    assert(self.heap@.subrange(0, num) =~= a.update(h as int, a[smallest as int]));
                    let hs = self.heap@;
                    let hi = self.heap_indices@;
                    assert forall|i: int| 0 <= i < num && i != smallest implies #[trigger] hs[i] < isz && hs[i]
                        != moving && hi[hs[i] as int] == i by {
                        if i != h {
                            assert(hs[i] != moved);
                        }
                    }
                    assert forall|x: int|
                        0 <= x < isz && x != moving && #[trigger] hi[x] != NOT_IN_HEAP implies hi[x] < num && hi[x]
                        != smallest && hs[hi[x] as int] == x by {}
                }
                h = smallest;
            } else {
                done = true;
            }
        }
        self.heap[h as usize] = moving;
        self.heap_indices[moving as usize] = h;
        proof {
            let hs = self.heap@;
            let hi = self.heap_indices@;
            assert forall|x: int| 0 <= x < isz && #[trigger] hi[x] != NOT_IN_HEAP implies hi[x] < num && hs[hi[x]
                as int] == x by {}
            assert(self.items() =~= target);
        }
    }
}

} // verus!
