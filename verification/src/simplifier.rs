//! Integer building blocks of the edge-collapse simplifier: position hashing on
//! IEEE-754 bit patterns, triangle-corner arithmetic, duplicate-triangle search,
//! the gathering of the triangles and wedges around a collapse, and the compaction
//! of the index and material arrays.
use vstd::prelude::*;
use crate::hash::{murmur32, spec_murmur32, FHashTable, INVALID_INDEX};
use crate::util::disjoint_set::{is_forest, lemma_root_of, root_of, DisjointSet};

verus! {

/// A position given by the IEEE-754 single-precision bit patterns of its coordinates.
#[derive(Clone, Copy, Debug, PartialEq, Eq)]
pub struct Vector3Bits {
    pub x: u32,
    pub y: u32,
    pub z: u32,
}

/// The two end positions of a candidate edge collapse.
#[derive(Clone, Copy, Debug)]
pub struct FPair {
    pub position0: Vector3Bits,
    pub position1: Vector3Bits,
}

/// The pattern encodes `+0.0` or `-0.0`.
pub open spec fn is_zero_bits(b: u32) -> bool {
    b == 0 || b == 0x8000_0000
}

/// The pattern encodes a NaN: all exponent bits set and a nonzero fraction.
pub open spec fn is_nan_bits(b: u32) -> bool {
    b & 0x7f80_0000 == 0x7f80_0000 && b & 0x007f_ffff != 0
}

/// IEEE-754 equality of two single-precision values given by their bits: NaN equals
/// nothing, the two zeros are equal, otherwise the patterns must match.
pub open spec fn f32_bits_eq(a: u32, b: u32) -> bool {
    !is_nan_bits(a) && !is_nan_bits(b) && (a == b || (is_zero_bits(a) && is_zero_bits(b)))
}

/// Coordinate-wise IEEE-754 equality of two positions.
pub open spec fn positions_eq(p: Vector3Bits, q: Vector3Bits) -> bool {
    f32_bits_eq(p.x, q.x) && f32_bits_eq(p.y, q.y) && f32_bits_eq(p.z, q.z)
}

/// A coordinate's pattern with `-0.0` replaced by `+0.0`.
pub open spec fn canonical_bits(b: u32) -> u32 {
    if is_zero_bits(b) {
        0
    } else {
        b
    }
}

/// The hash of a position: MurmurHash3 of its three coordinate patterns, both
/// zeros hashed as `+0.0`.
pub open spec fn spec_hash_position(p: Vector3Bits) -> u32 {
    spec_murmur32(seq![canonical_bits(p.x), canonical_bits(p.y), canonical_bits(p.z)])
}

/// IEEE-754 equality of two single-precision values given by their bits.
pub fn f32_bits_equal(a: u32, b: u32) -> (r: bool)
    ensures
        r == f32_bits_eq(a, b),
{
    let a_nan = (a & 0x7f80_0000) == 0x7f80_0000 && (a & 0x007f_ffff) != 0;
    let b_nan = (b & 0x7f80_0000) == 0x7f80_0000 && (b & 0x007f_ffff) != 0;
    let a_zero = a == 0 || a == 0x8000_0000;
    let b_zero = b == 0 || b == 0x8000_0000;
    !a_nan && !b_nan && (a == b || (a_zero && b_zero))
}

/// Coordinate-wise IEEE-754 equality of two positions.
pub fn positions_equal(p: &Vector3Bits, q: &Vector3Bits) -> (r: bool)
    ensures
        r == positions_eq(*p, *q),
{
    f32_bits_equal(p.x, q.x) && f32_bits_equal(p.y, q.y) && f32_bits_equal(p.z, q.z)
}

/// Hash of a position for the spatial hash tables; positions that compare equal
/// hash equally.
pub fn hash_position(position: Vector3Bits) -> (r: u32)
    ensures
        r == spec_hash_position(position),
{
    let mut x_bits = position.x;
    let mut y_bits = position.y;
    let mut z_bits = position.z;
    if x_bits == 0 || x_bits == 0x8000_0000 {
        x_bits = 0;
    }
    if y_bits == 0 || y_bits == 0x8000_0000 {
        y_bits = 0;
    }
    if z_bits == 0 || z_bits == 0x8000_0000 {
        z_bits = 0;
    }
    let data: Vec<u32> = vec![x_bits, y_bits, z_bits];
    let r = murmur32(data.as_slice());
    assert(data@ =~= seq![canonical_bits(position.x), canonical_bits(position.y), canonical_bits(position.z)]);
    r
}

/// Law: positions that compare equal have equal hashes.
pub proof fn lemma_equal_positions_hash_equal(p: Vector3Bits, q: Vector3Bits)
    requires
        positions_eq(p, q),
    ensures
        spec_hash_position(p) == spec_hash_position(q),
{
    assert(canonical_bits(p.x) == canonical_bits(q.x));
    assert(canonical_bits(p.y) == canonical_bits(q.y));
    assert(canonical_bits(p.z) == canonical_bits(q.z));
}

/// The corner after `value` in the same triangle (corners `3t`, `3t+1`, `3t+2`).
pub open spec fn spec_cycle3(value: int) -> int {
    value - value % 3 + (value % 3 + 1) % 3
}

/// The corner `offset` steps after `value` in the same triangle.
pub open spec fn spec_cycle3_offset(value: int, offset: int) -> int {
    value - value % 3 + (value + offset) % 3
}

/// The next corner of the same triangle.
pub fn cycle3(value: u32) -> (r: u32)
    requires
        value < u32::MAX,
    ensures
        r == spec_cycle3(value as int),
{
    let value_mod3 = value % 3;
    let value1_mod3 = (1u32 << value_mod3) & 3;
    assert(value1_mod3 == (value_mod3 + 1) % 3) by (bit_vector)
        requires
            value_mod3 < 3,
            value1_mod3 == (1u32 << value_mod3) & 3,
    ;
    value - value_mod3 + value1_mod3
}

/// The corner `offset` steps further round the same triangle.
pub fn cycle3_offset(value: u32, offset: u32) -> (r: u32)
    requires
        value + offset <= u32::MAX,
    ensures
        r == spec_cycle3_offset(value as int, offset as int),
{
    value - value % 3 + (value + offset) % 3
}

/// Law: cycling keeps a corner in its triangle, visits the three corners in turn,
/// and is the one-step offset.
pub proof fn lemma_cycle3_laws(v: int)
    requires
        v >= 0,
    ensures
        spec_cycle3(v) / 3 == v / 3,
        spec_cycle3(spec_cycle3(spec_cycle3(v))) == v,
        spec_cycle3(v) != v,
        spec_cycle3(v) == spec_cycle3_offset(v, 1),
        spec_cycle3_offset(v, 2) == spec_cycle3(spec_cycle3(v)),
{
}

/// Corner flag bits marking a corner at one of the two positions being merged.
pub const MERGE_MASK: u8 = 3;
/// Corner flag bit marking a triangle already gathered around a merge.
pub const ADJ_TRI_MASK: u8 = 4;
/// Corner flag bit marking a corner whose position must not move.
pub const LOCKED_VERT_MASK: u8 = 8;
/// Corner flag bit marking a triangle to be removed.
pub const REMOVE_TRI_MASK: u8 = 16;

/// Which corner of a triangle moves: `k` when corner `k` alone carries merge flags,
/// `3` when none does, `4` when several do.
pub open spec fn moved_corner(m0: bool, m1: bool, m2: bool) -> u32 {
    if !m0 && !m1 && !m2 {
        3
    } else if m0 && !m1 && !m2 {
        0
    } else if !m0 && m1 && !m2 {
        1
    } else if !m0 && !m1 && m2 {
        2
    } else {
        4
    }
}

/// The corner of triangle `tri_index` that carries merge flags (see `moved_corner`).
pub fn corner_index_moved(corner_flags: &[u8], tri_index: u32) -> (r: u32)
    requires
        3 * tri_index + 2 < corner_flags@.len(),
        3 * tri_index + 2 <= u32::MAX,
    ensures
        r == moved_corner(
            corner_flags@[3 * tri_index] & MERGE_MASK != 0,
            corner_flags@[3 * tri_index + 1] & MERGE_MASK != 0,
            corner_flags@[3 * tri_index + 2] & MERGE_MASK != 0,
        ),
{
    let m0 = (corner_flags[(tri_index * 3) as usize] & MERGE_MASK) != 0;
    let m1 = (corner_flags[(tri_index * 3 + 1) as usize] & MERGE_MASK) != 0;
    let m2 = (corner_flags[(tri_index * 3 + 2) as usize] & MERGE_MASK) != 0;
    let mut index_moved: u32 = 3;
    if m0 {
        index_moved = 0;
    }
    if m1 {
        if index_moved == 3 {
            index_moved = 1;
        } else {
            index_moved = 4;
        }
    }
    if m2 {
        if index_moved == 3 {
            index_moved = 2;
        } else {
            index_moved = 4;
        }
    }
    index_moved
}

/// Corner `c` starts a triangle with the vertices `(i0, i1, i2)` in this order.
pub open spec fn corner_matches(indexes: Seq<u32>, c: int, i0: u32, i1: u32, i2: u32) -> bool {
    &&& indexes[c] == i0
    &&& indexes[spec_cycle3(c)] == i1
    &&& indexes[spec_cycle3_offset(c, 2)] == i2
}

/// Some corner other than `3 * tri` on the chain that `hash` selects starts the
/// vertex triple of triangle `tri`.
pub open spec fn has_duplicate(corner_hash: &FHashTable, indexes: Seq<u32>, tri: int, hash: u32) -> bool {
    let c = corner_hash.chains()[corner_hash.bucket_of(hash)];
    exists|j: int|
        0 <= j < c.len() && c[j] != 3 * tri && #[trigger] corner_matches(
            indexes,
            c[j] as int,
            indexes[3 * tri],
            indexes[3 * tri + 1],
            indexes[3 * tri + 2],
        )
}

/// Triangle `tri_index` repeats another triangle: some other corner on the chain
/// that `hash` selects starts the same vertex triple.
pub fn is_duplicate_tri(corner_hash: &FHashTable, indexes: &[u32], tri_index: u32, hash: u32) -> (r: bool)
    requires
        corner_hash.wf(),
        indexes@.len() % 3 == 0,
        indexes@.len() < u32::MAX,
        3 * tri_index + 2 < indexes@.len(),
        forall|x: u32| #[trigger] corner_hash.is_member(x) ==> x < indexes@.len(),
    ensures
        r == has_duplicate(corner_hash, indexes@, tri_index as int, hash),
{
    let t = tri_index * 3;
    let i0 = indexes[t as usize];
    let i1 = indexes[(t + 1) as usize];
    let i2 = indexes[(t + 2) as usize];
    proof {
        corner_hash.lemma_wf_inv();
        corner_hash.lemma_bucket_in_range(hash);
    }
    let ghost b = corner_hash.bucket_of(hash);
    let ghost c = corner_hash.chains()[b];
    let mut corner = corner_hash.first(hash);
    let ghost mut j: int = 0;
    proof {
        assert forall|s: int| 0 <= s < c.len() implies c[s] != crate::hash::INVALID_INDEX by {
            assert(corner_hash.chains()[b][s] == c[s]);
            corner_hash.lemma_member_in_range(c[s]);
        }
    }
    while corner_hash.is_valid(corner)
        invariant
            corner_hash.wf(),
            0 <= b < corner_hash.chains().len(),
            b == corner_hash.bucket_of(hash),
            c == corner_hash.chains()[b],
            0 <= j <= c.len(),
            corner == (if j < c.len() { c[j] } else { crate::hash::INVALID_INDEX }),
            indexes@.len() % 3 == 0,
            indexes@.len() < u32::MAX,
            forall|x: u32| #[trigger] corner_hash.is_member(x) ==> x < indexes@.len(),
            i0 == indexes@[3 * tri_index],
            i1 == indexes@[3 * tri_index + 1],
            i2 == indexes@[3 * tri_index + 2],
            t == 3 * tri_index,
            forall|s: int|
                0 <= s < j ==> !(c[s] != t && #[trigger] corner_matches(indexes@, c[s] as int, i0, i1, i2)),
            forall|s: int| 0 <= s < c.len() ==> c[s] != crate::hash::INVALID_INDEX,
        decreases c.len() - j,
    {
        proof {
            corner_hash.lemma_wf_inv();
        }
        assert(corner_hash.chains()[b][j] == corner);
        assert(corner_hash.is_member(corner));
        proof {
            corner_hash.lemma_member_in_range(corner);
        }
        assert(corner < indexes@.len());
        let c1 = cycle3(corner);
        let c2 = cycle3_offset(corner, 2);
        assert(c1 < indexes@.len() && c2 < indexes@.len()) by {
            assert(spec_cycle3(corner as int) / 3 == corner as int / 3);
        }
        if corner != t && i0 == indexes[corner as usize] && i1 == indexes[c1 as usize] && i2
            == indexes[c2 as usize] {
            assert(corner_matches(
                indexes@,
                c[j] as int,
                indexes@[3 * tri_index],
                indexes@[3 * tri_index + 1],
                indexes@[3 * tri_index + 2],
            ));
            assert(c[j] != 3 * tri_index);
            assert(exists|jj: int|
                0 <= jj < c.len() && c[jj] != 3 * tri_index && #[trigger] corner_matches(
                    indexes@,
                    c[jj] as int,
                    indexes@[3 * tri_index],
                    indexes@[3 * tri_index + 1],
                    indexes@[3 * tri_index + 2],
                ));
            return true;
        }
        corner = corner_hash.next(corner);
        proof {
            j = j + 1;
        }
    }
    false
}

/// `pair` with its ends ordered by position hash, smaller hash first (kept as
/// given on a tie).
pub open spec fn ordered_pair(pair: FPair) -> FPair {
    if spec_hash_position(pair.position0) > spec_hash_position(pair.position1) {
        FPair { position0: pair.position1, position1: pair.position0 }
    } else {
        pair
    }
}

/// Both ends of `a` compare equal to the corresponding ends of `b`.
#[verifier::opaque]
pub open spec fn pairs_eq(a: FPair, b: FPair) -> bool {
    positions_eq(a.position0, b.position0) && positions_eq(a.position1, b.position1)
}

/// Some pair on the chain that `hash` selects in `pair_hash` equals `pair`.
pub open spec fn pair_on_file(pair_hash: &FHashTable, pairs: Seq<FPair>, pair: FPair, hash: u32) -> bool {
    let c = pair_hash.chains()[pair_hash.bucket_of(hash)];
    exists|j: int| 0 <= j < c.len() && #[trigger] pairs_eq(pair, pairs[c[j] as int])
}

/// Orders the ends of `pair` by position hash and files it under `pair_index`
/// in both pair tables (by the hash of each end), unless an equal pair is
/// already filed under the hash of its first end. Returns whether it was filed.
pub fn add_unique_pair(
    pair_hash0: &mut FHashTable,
    pair_hash1: &mut FHashTable,
    pairs: &[FPair],
    pair: &mut FPair,
    pair_index: u32,
) -> (r: bool)
    requires
        old(pair_hash0).wf(),
        old(pair_hash1).inv(),
        forall|x: u32| #[trigger] old(pair_hash0).is_member(x) ==> x < pairs@.len(),
        pair_index < old(pair_hash0).capacity() || pair_index < 0x8000_0000,
        pair_index < old(pair_hash1).capacity() || pair_index < 0x8000_0000,
    ensures
        *final(pair) == ordered_pair(*old(pair)),
        r == !pair_on_file(
            old(pair_hash0),
            pairs@,
            *final(pair),
            spec_hash_position(final(pair).position0),
        ),
        r ==> old(pair_hash0).add_effect(
            *final(pair_hash0),
            spec_hash_position(final(pair).position0),
            pair_index,
        ) && old(pair_hash1).add_effect(
            *final(pair_hash1),
            spec_hash_position(final(pair).position1),
            pair_index,
        ),
        !r ==> *final(pair_hash0) == *old(pair_hash0) && *final(pair_hash1) == *old(pair_hash1),
{
    let mut hash0 = hash_position(pair.position0);
    let mut hash1 = hash_position(pair.position1);
    if hash0 > hash1 {
        let t = hash0;
        hash0 = hash1;
        hash1 = t;
        *pair = FPair { position0: pair.position1, position1: pair.position0 };
    }
    let p = *pair;
    proof {
        pair_hash0.lemma_wf_inv();
        pair_hash0.lemma_bucket_in_range(hash0);
    }
    let ghost b = pair_hash0.bucket_of(hash0);
    let ghost c = pair_hash0.chains()[b];
    let mut other = pair_hash0.first(hash0);
    let ghost mut j: int = 0;
    proof {
        assert forall|s: int| 0 <= s < c.len() implies c[s] != crate::hash::INVALID_INDEX by {
            assert(pair_hash0.chains()[b][s] == c[s]);
            pair_hash0.lemma_member_in_range(c[s]);
        }
    }
    while pair_hash0.is_valid(other)
        invariant
            pair_hash0.wf(),
            0 <= b < pair_hash0.chains().len(),
            b == pair_hash0.bucket_of(hash0),
            c == pair_hash0.chains()[b],
            0 <= j <= c.len(),
            other == (if j < c.len() {
                c[j]
            } else {
                crate::hash::INVALID_INDEX
            }),
            *pair_hash0 == *old(pair_hash0),
            *pair_hash1 == *old(pair_hash1),
            p == *pair,
            p == ordered_pair(*old(pair)),
            hash0 == spec_hash_position(p.position0),
            hash1 == spec_hash_position(p.position1),
            forall|x: u32| #[trigger] pair_hash0.is_member(x) ==> x < pairs@.len(),
            forall|s: int| 0 <= s < j ==> !#[trigger] pairs_eq(p, pairs@[c[s] as int]),
            forall|s: int| 0 <= s < c.len() ==> c[s] != crate::hash::INVALID_INDEX,
        decreases c.len() - j,
    {
        proof {
            pair_hash0.lemma_wf_inv();
        }
        assert(pair_hash0.chains()[b][j] == other);
        assert(pair_hash0.is_member(other));
        proof {
            pair_hash0.lemma_member_in_range(other);
        }
        let q = pairs[other as usize];
        let same = positions_equal(&p.position0, &q.position0) && positions_equal(&p.position1, &q.position1);
        assert(same == pairs_eq(p, pairs@[c[j] as int])) by {
            reveal(pairs_eq);
        }
        if same {
            return false;
        }
        other = pair_hash0.next(other);
        proof {
            j = j + 1;
        }
    }
    pair_hash0.add(hash0, pair_index);
    pair_hash1.add(hash1, pair_index);
    true
}

/// Number of corners in `indexes` that reference vertex `v`.
pub open spec fn occurrences(indexes: Seq<u32>, v: int) -> nat
    decreases indexes.len(),
{
    if indexes.len() == 0 {
        0
    } else {
        occurrences(indexes.drop_last(), v) + if indexes.last() == v {
            1nat
        } else {
            0nat
        }
    }
}

/// Every vertex's reference count is the number of corners that reference it.
pub open spec fn ref_counts_match(indexes: Seq<u32>, ref_count: Seq<u32>) -> bool {
    forall|v: int| 0 <= v < ref_count.len() ==> #[trigger] ref_count[v] == occurrences(indexes, v)
}

/// Changing one corner moves one reference from its old vertex to its new one.
pub proof fn lemma_occurrences_update(s: Seq<u32>, i: int, x: u32, v: int)
    requires
        0 <= i < s.len(),
    ensures
        occurrences(s.update(i, x), v) + (if s[i] == v {
            1int
        } else {
            0int
        }) == occurrences(s, v) + (if x == v {
            1int
        } else {
            0int
        }),
    decreases s.len(),
{
    let t = s.update(i, x);
    if i == s.len() - 1 {
        assert(t.drop_last() =~= s.drop_last());
    } else {
        assert(t.drop_last() =~= s.drop_last().update(i, x));
        lemma_occurrences_update(s.drop_last(), i, x, v);
    }
}

/// Points `corner` at vertex `new_vert_index` (`INVALID_INDEX` detaches it),
/// moving one reference from the old vertex to the new one. A vertex that loses
/// its last reference leaves the vertex hash (under `vert_position_hash`, the
/// hash of its position) and the count of remaining vertices.
pub fn set_vert_index(
    indexes: &mut [u32],
    vert_ref_count: &mut Vec<u32>,
    vert_hash: &mut FHashTable,
    remaining_num_verts: &mut u32,
    corner: u32,
    new_vert_index: u32,
    vert_position_hash: u32,
)
    requires
        corner < old(indexes)@.len(),
        old(indexes)@[corner as int] != new_vert_index ==> {
            let v = old(indexes)@[corner as int] as int;
            &&& v < old(vert_ref_count)@.len()
            &&& old(vert_ref_count)@[v] > 0
            &&& old(vert_ref_count)@[v] == 1 ==> *old(remaining_num_verts) > 0 && old(vert_hash).wf()
            &&& new_vert_index != INVALID_INDEX ==> new_vert_index < old(vert_ref_count)@.len()
                && old(vert_ref_count)@[new_vert_index as int] < u32::MAX
        },
    ensures
        final(indexes)@ == old(indexes)@.update(corner as int, new_vert_index),
        old(indexes)@[corner as int] == new_vert_index ==> final(vert_ref_count)@ == old(vert_ref_count)@
            && *final(vert_hash) == *old(vert_hash) && *final(remaining_num_verts) == *old(remaining_num_verts),
        old(indexes)@[corner as int] != new_vert_index ==> {
            let v = old(indexes)@[corner as int] as int;
            let dropped = old(vert_ref_count)@.update(v, (old(vert_ref_count)@[v] - 1) as u32);
            &&& final(vert_ref_count)@ == (if new_vert_index != INVALID_INDEX {
                dropped.update(new_vert_index as int, (dropped[new_vert_index as int] + 1) as u32)
            } else {
                dropped
            })
            &&& old(vert_ref_count)@[v] == 1 ==> old(vert_hash).remove_effect(
                *final(vert_hash),
                vert_position_hash,
                v as u32,
            ) && *final(remaining_num_verts) == *old(remaining_num_verts) - 1
            &&& old(vert_ref_count)@[v] != 1 ==> *final(vert_hash) == *old(vert_hash)
                && *final(remaining_num_verts) == *old(remaining_num_verts)
        },
        ref_counts_match(old(indexes)@, old(vert_ref_count)@) && old(vert_ref_count)@.len() <= INVALID_INDEX && (
        new_vert_index == INVALID_INDEX || new_vert_index < old(vert_ref_count)@.len()) ==> ref_counts_match(
            final(indexes)@,
            final(vert_ref_count)@,
        ),
{
    let vert_index = indexes[corner as usize];
    if vert_index == new_vert_index {
        assert(indexes@ =~= old(indexes)@.update(corner as int, new_vert_index));
        return;
    }
    let count = vert_ref_count[vert_index as usize] - 1;
    vert_ref_count.set(vert_index as usize, count);
    if count == 0 {
        vert_hash.remove(vert_position_hash, vert_index);
        *remaining_num_verts = *remaining_num_verts - 1;
    }
    indexes[corner as usize] = new_vert_index;
    if new_vert_index != INVALID_INDEX {
        let c = vert_ref_count[new_vert_index as usize] + 1;
        vert_ref_count.set(new_vert_index as usize, c);
    }
    proof {
        if ref_counts_match(old(indexes)@, old(vert_ref_count)@) && old(vert_ref_count)@.len() <= INVALID_INDEX && (
        new_vert_index == INVALID_INDEX || new_vert_index < old(vert_ref_count)@.len()) {
            assert forall|w: int| 0 <= w < vert_ref_count@.len() implies #[trigger] vert_ref_count@[w]
                == occurrences(indexes@, w) by {
                lemma_occurrences_update(old(indexes)@, corner as int, new_vert_index, w);
                assert(old(vert_ref_count)@[w] == occurrences(old(indexes)@, w));
                assert(w != INVALID_INDEX);
                if w == vert_index && w == new_vert_index {
                } else if w == vert_index {
                    assert(vert_ref_count@[w] == old(vert_ref_count)@[w] - 1);
                } else if w == new_vert_index {
                    assert(vert_ref_count@[w] == old(vert_ref_count)@[w] + 1);
                } else {
                    assert(vert_ref_count@[w] == old(vert_ref_count)@[w]);
                }
            }
        }
    }
}

/// Number of vertices before `v` that are still referenced.
pub open spec fn kept_before(ref_count: Seq<u32>, v: int) -> nat
    decreases v,
{
    if v <= 0 {
        0
    } else {
        kept_before(ref_count, v - 1) + if ref_count[v - 1] > 0 {
            1nat
        } else {
            0nat
        }
    }
}

/// The triangles below `n` that are not removed, in order.
pub open spec fn kept_tris(removed: Seq<bool>, n: int) -> Seq<int>
    decreases n,
{
    if n <= 0 {
        Seq::empty()
    } else {
        kept_tris(removed, n - 1) + if !removed[n - 1] {
            seq![n - 1]
        } else {
            Seq::<int>::empty()
        }
    }
}

proof fn lemma_kept_before_mono(ref_count: Seq<u32>, a: int, b: int)
    requires
        0 <= a <= b,
    ensures
        kept_before(ref_count, a) <= kept_before(ref_count, b),
    decreases b - a,
{
    if a < b {
        lemma_kept_before_mono(ref_count, a, b - 1);
    }
}

proof fn lemma_kept_tris_bounds(removed: Seq<bool>, n: int)
    requires
        n >= 0,
    ensures
        kept_tris(removed, n).len() <= n,
        forall|o: int| 0 <= o < kept_tris(removed, n).len() ==> 0 <= #[trigger] kept_tris(removed, n)[o] < n,
    decreases n,
{
    if n > 0 {
        lemma_kept_tris_bounds(removed, n - 1);
    }
}

/// Law: compaction renumbers the referenced vertices consecutively in their
/// old order: a referenced vertex gets a number below the count of referenced
/// vertices, and of two referenced vertices the earlier gets the smaller number.
pub proof fn lemma_kept_numbering(ref_count: Seq<u32>, v1: int, v2: int)
    requires
        0 <= v1 < v2 <= ref_count.len(),
        ref_count[v1] > 0,
    ensures
        kept_before(ref_count, v1) < kept_before(ref_count, v2),
        kept_before(ref_count, v1) < kept_before(ref_count, ref_count.len() as int),
{
    lemma_kept_before_mono(ref_count, v1 + 1, v2);
    lemma_kept_before_mono(ref_count, v2, ref_count.len() as int);
}

/// Law: the triangles kept by compaction are exactly those below `n` that are
/// not removed, in increasing order.
pub proof fn lemma_kept_tris_exact(removed: Seq<bool>, n: int)
    requires
        0 <= n <= removed.len(),
    ensures
        forall|o: int| 0 <= o < kept_tris(removed, n).len() ==> !removed[#[trigger] kept_tris(removed, n)[o]],
        forall|o1: int, o2: int|
            0 <= o1 < o2 < kept_tris(removed, n).len() ==> #[trigger] kept_tris(removed, n)[o1] < #[trigger] kept_tris(
                removed,
                n,
            )[o2],
        forall|t: int| 0 <= t < n && !removed[t] ==> #[trigger] kept_tris(removed, n).contains(t),
    decreases n,
{
    lemma_kept_tris_bounds(removed, n);
    if n > 0 {
        lemma_kept_tris_exact(removed, n - 1);
        lemma_kept_tris_bounds(removed, n - 1);
        let prev = kept_tris(removed, n - 1);
        let cur = kept_tris(removed, n);
        assert forall|o: int| 0 <= o < prev.len() implies cur[o] == prev[o] by {}
        assert forall|t: int| 0 <= t < n && !removed[t] implies #[trigger] cur.contains(t) by {
            if t < n - 1 {
                assert(prev.contains(t));
                let o = choose|o: int| 0 <= o < prev.len() && prev[o] == t;
                assert(cur[o] == t);
            } else {
                assert(cur[prev.len() as int] == t);
            }
        }
        assert forall|o1: int, o2: int| 0 <= o1 < o2 < cur.len() implies #[trigger] cur[o1] < #[trigger] cur[o2] by {
            if o2 < prev.len() {
                assert(prev[o1] < prev[o2]);
            } else {
                assert(prev[o1] < n - 1);
            }
        }
    }
}

/// Renumbers the referenced vertices consecutively and moves the triangles that
/// are not removed to the front of the index and material arrays, in order.
/// Returns the new number of each referenced vertex.
pub fn compact_topology(
    vert_ref_count: &[u32],
    tri_removed: &[bool],
    indexes: &mut [u32],
    material_indexes: &mut [i32],
) -> (new_vert_indices: Vec<u32>)
    requires
        vert_ref_count@.len() <= u32::MAX,
        3 * tri_removed@.len() <= old(indexes)@.len(),
        tri_removed@.len() <= old(material_indexes)@.len(),
        forall|t: int, k: int|
            0 <= t < tri_removed@.len() && 0 <= k < 3 && !tri_removed@[t] ==> #[trigger] old(indexes)@[3 * t + k]
                < vert_ref_count@.len(),
    ensures
        new_vert_indices@.len() == vert_ref_count@.len(),
        forall|v: int|
            0 <= v < vert_ref_count@.len() ==> #[trigger] new_vert_indices@[v] == if vert_ref_count@[v] > 0 {
                kept_before(vert_ref_count@, v)
            } else {
                0
            },
        final(indexes)@.len() == old(indexes)@.len(),
        final(material_indexes)@.len() == old(material_indexes)@.len(),
        ({
            let kept = kept_tris(tri_removed@, tri_removed@.len() as int);
            &&& forall|o: int, k: int|
                0 <= o < kept.len() && 0 <= k < 3 ==> #[trigger] final(indexes)@[3 * o + k] == new_vert_indices@[old(
                    indexes,
                )@[3 * kept[o] + k] as int]
            &&& forall|o: int| 0 <= o < kept.len() ==> #[trigger] final(material_indexes)@[o] == old(
                material_indexes,
            )@[kept[o]]
            &&& forall|i: int| 3 * kept.len() <= i < old(indexes)@.len() ==> #[trigger] final(indexes)@[i] == old(
                indexes,
            )@[i]
            &&& forall|i: int|
                kept.len() <= i < old(material_indexes)@.len() ==> #[trigger] final(material_indexes)@[i] == old(
                    material_indexes,
                )@[i]
        }),
{
    let num_verts = vert_ref_count.len();
    let mut new_vert_indices: Vec<u32> = Vec::new();
    let mut output_vert_index: u32 = 0;
    let mut v: usize = 0;
    while v < num_verts
        invariant
            num_verts == vert_ref_count@.len(),
            num_verts <= u32::MAX,
            v <= num_verts,
            new_vert_indices@.len() == v,
            output_vert_index == kept_before(vert_ref_count@, v as int),
            output_vert_index <= v,
            forall|u: int|
                0 <= u < v ==> #[trigger] new_vert_indices@[u] == if vert_ref_count@[u] > 0 {
                    kept_before(vert_ref_count@, u)
                } else {
                    0
                },
        decreases num_verts - v,
    {
        if vert_ref_count[v] > 0 {
            new_vert_indices.push(output_vert_index);
            output_vert_index = output_vert_index + 1;
        } else {
            new_vert_indices.push(0);
        }
        v = v + 1;
    }
    let num_tris = tri_removed.len();
    let ghost old_idx = indexes@;
    let n_idx = indexes.len();
    let ghost old_mat = material_indexes@;
    let mut output_tri: usize = 0;
    let mut t: usize = 0;
    while t < num_tris
        invariant
            num_tris == tri_removed@.len(),
            3 * num_tris <= old_idx.len(),
            num_tris <= old_mat.len(),
            t <= num_tris,
            indexes@.len() == old_idx.len(),
            material_indexes@.len() == old_mat.len(),
            new_vert_indices@.len() == vert_ref_count@.len(),
            output_tri == kept_tris(tri_removed@, t as int).len(),
            output_tri <= t,
            forall|tt: int, k: int|
                0 <= tt < tri_removed@.len() && 0 <= k < 3 && !tri_removed@[tt] ==> #[trigger] old_idx[3 * tt + k]
                    < vert_ref_count@.len(),
            forall|o: int, k: int|
                0 <= o < output_tri && 0 <= k < 3 ==> #[trigger] indexes@[3 * o + k] == new_vert_indices@[old_idx[3
                    * kept_tris(tri_removed@, t as int)[o] + k] as int],
            forall|o: int| 0 <= o < output_tri ==> #[trigger] material_indexes@[o] == old_mat[kept_tris(
                tri_removed@,
                t as int,
            )[o]],
            forall|i: int| 3 * output_tri <= i < old_idx.len() ==> #[trigger] indexes@[i] == old_idx[i],
            n_idx == old_idx.len(),
            forall|i: int| output_tri <= i < old_mat.len() ==> #[trigger] material_indexes@[i] == old_mat[i],
        decreases num_tris - t,
    {
        proof {
            lemma_kept_tris_bounds(tri_removed@, t as int);
        }
        let ghost kt = kept_tris(tri_removed@, t as int);
        let ghost kt1 = kept_tris(tri_removed@, t as int + 1);
        if !tri_removed[t] {
            assert(kt1 == kt.push(t as int));
            let mut k: usize = 0;
            while k < 3
                invariant
                    k <= 3,
                    t < num_tris,
                    num_tris == tri_removed@.len(),
                    3 * num_tris <= old_idx.len(),
                    output_tri <= t,
                    !tri_removed@[t as int],
                    indexes@.len() == old_idx.len(),
                    new_vert_indices@.len() == vert_ref_count@.len(),
                    forall|tt: int, kk: int|
                        0 <= tt < tri_removed@.len() && 0 <= kk < 3 && !tri_removed@[tt] ==> #[trigger] old_idx[3 * tt
                            + kk] < vert_ref_count@.len(),
                    forall|o: int, kk: int|
                        0 <= o < output_tri && 0 <= kk < 3 ==> #[trigger] indexes@[3 * o + kk] == new_vert_indices@[old_idx[3
                            * kt[o] + kk] as int],
                    forall|kk: int| 0 <= kk < k ==> #[trigger] indexes@[3 * output_tri + kk] == new_vert_indices@[old_idx[3
                        * t + kk] as int],
                    forall|i: int| 3 * output_tri + k <= i < old_idx.len() ==> #[trigger] indexes@[i] == old_idx[i],
                    n_idx == old_idx.len(),
                    3 * t + 3 <= n_idx,
                decreases 3 - k,
            {
                let vert_index = indexes[3 * t + k];
                assert(vert_index == old_idx[3 * t + k]);
                let nv = new_vert_indices[vert_index as usize];
                indexes[3 * output_tri + k] = nv;
                k = k + 1;
            }
            let m = material_indexes[t];
            material_indexes[output_tri] = m;
            output_tri = output_tri + 1;
            proof {
                assert forall|o: int, kk: int| 0 <= o < output_tri && 0 <= kk < 3 implies #[trigger] indexes@[3 * o + kk]
                    == new_vert_indices@[old_idx[3 * kt1[o] + kk] as int] by {
                    if o < output_tri - 1 {
                        assert(kt1[o] == kt[o]);
                    }
                }
            }
        } else {
            assert(kt1 == kt);
        }
        t = t + 1;
    }
    new_vert_indices
}


/// A vertex met around one end of a collapse, with the position (in the list of
/// adjacent triangles) of the triangle where it was first met.
#[derive(Clone, Copy, Debug)]
pub struct WedgeVert {
    pub vert_index: u32,
    pub adj_tri_index: u32,
}

/// What one corner at an end of a collapse adds to the gathering: the corner's
/// flags once marked, the position of its triangle in the adjacent-triangle list,
/// whether that triangle was met here for the first time, and the position of the
/// earlier wedge with the same vertex, if any.
#[derive(Clone, Copy, Debug)]
pub struct GatheredCorner {
    pub flags: u8,
    pub adj_tri_index: u32,
    pub new_tri: bool,
    pub wedge: Option<u32>,
}

/// The corner flags with corner `corner` marked as lying at collapse end `end`.
pub open spec fn marked_flags(flags: Seq<u8>, corner: int, end: u8) -> Seq<u8> {
    flags.update(corner, flags[corner] | (1u8 << end))
}

/// `k` is the first position of `v` in `s`.
pub open spec fn first_position(s: Seq<u32>, v: u32, k: int) -> bool {
    &&& 0 <= k < s.len()
    &&& s[k] == v
    &&& forall|m: int| 0 <= m < k ==> #[trigger] s[m] != v
}

/// `k` is the first wedge of `ws` with vertex `v`.
pub open spec fn first_wedge(ws: Seq<WedgeVert>, v: u32, k: int) -> bool {
    &&& 0 <= k < ws.len()
    &&& ws[k].vert_index == v
    &&& forall|m: int| 0 <= m < k ==> #[trigger] ws[m].vert_index != v
}

/// The root of `x` in forest `p`, where an element beyond `p` is a new singleton.
pub open spec fn grown_root(p: Seq<u32>, x: int) -> int {
    if x < p.len() {
        root_of(p, x)
    } else {
        x
    }
}

/// Records corner `corner`, whose position is collapse end `end` (`0` or `1`):
/// marks the corner, adds its triangle to `adj_tris` (with a new singleton wedge
/// set, and the adjacency flag on the triangle's first corner) when the triangle
/// is met for the first time, and joins the wedge sets: a vertex not yet among
/// `wedge_verts` starts a wedge there; otherwise the triangle's set joins the set
/// of the triangle where the vertex was first met (a new triangle's root is
/// pointed straight at that triangle).
pub fn gather_corner(
    corner: u32,
    end: u8,
    indexes: &[u32],
    corner_flags: &mut [u8],
    adj_tris: &mut Vec<u32>,
    wedge_set: &mut DisjointSet,
    wedge_verts: &mut Vec<WedgeVert>,
) -> (r: GatheredCorner)
    requires
        corner < indexes@.len(),
        corner < old(corner_flags)@.len(),
        end < 2,
        is_forest(old(wedge_set).parents@),
        old(wedge_set).parents@.len() == old(adj_tris)@.len(),
        old(adj_tris)@.len() < u32::MAX,
        old(wedge_verts)@.len() < u32::MAX,
        forall|k: int| 0 <= k < old(wedge_verts)@.len() ==> #[trigger] old(wedge_verts)@[k].adj_tri_index < old(adj_tris)@.len(),
        old(corner_flags)@[(corner / 3) * 3] & ADJ_TRI_MASK != 0 ==> old(adj_tris)@.contains(corner / 3),
    ensures
        ({
            let f1 = marked_flags(old(corner_flags)@, corner as int, end);
            let first = (corner / 3) * 3;
            &&& r.flags == f1[corner as int]
            &&& r.new_tri == (old(corner_flags)@[first as int] & ADJ_TRI_MASK == 0)
            &&& final(corner_flags)@ == if r.new_tri {
                f1.update(first as int, f1[first as int] | ADJ_TRI_MASK)
            } else {
                f1
            }
        }),
        r.new_tri ==> r.adj_tri_index == old(adj_tris)@.len() && final(adj_tris)@ == old(adj_tris)@.push(corner / 3),
        !r.new_tri ==> first_position(old(adj_tris)@, corner / 3, r.adj_tri_index as int) && final(adj_tris)@ == old(adj_tris)@,
        r.wedge matches Some(w) ==> first_wedge(old(wedge_verts)@, indexes@[corner as int], w as int) && final(wedge_verts)@ == old(wedge_verts)@,
        r.wedge is None ==> (forall|m: int|
            0 <= m < old(wedge_verts)@.len() ==> #[trigger] old(wedge_verts)@[m].vert_index != indexes@[corner as int])
            && final(wedge_verts)@ == old(wedge_verts)@.push(
            WedgeVert { vert_index: indexes@[corner as int], adj_tri_index: r.adj_tri_index },
        ),
        is_forest(final(wedge_set).parents@),
        final(wedge_set).parents@.len() == final(adj_tris)@.len(),
        forall|k: int| 0 <= k < final(wedge_verts)@.len() ==> #[trigger] final(wedge_verts)@[k].adj_tri_index < final(adj_tris)@.len(),
        forall|x: int|
            0 <= x < final(wedge_set).parents@.len() ==> #[trigger] root_of(final(wedge_set).parents@, x) == match r.wedge {
                Some(w) => {
                    let p = old(wedge_set).parents@;
                    let o = old(wedge_verts)@[w as int].adj_tri_index as int;
                    if grown_root(p, x) == grown_root(p, r.adj_tri_index as int) {
                        grown_root(p, o)
                    } else {
                        grown_root(p, x)
                    }
                },
                None => grown_root(old(wedge_set).parents@, x),
            },
{
    let ghost p0 = wedge_set.parents@;
    let ghost n0 = p0.len();
    let tri = corner / 3;
    let first = tri * 3;
    let old_flag = corner_flags[corner as usize];
    let marked = old_flag | (1u8 << end);
    let first_flag = corner_flags[first as usize];
    proof {
        assert((old_flag | (1u8 << end)) & ADJ_TRI_MASK == old_flag & ADJ_TRI_MASK) by (bit_vector)
            requires
                end < 2,
        ;
    }
    corner_flags[corner as usize] = marked;
    let ghost f1 = corner_flags@;
    assert(f1 == marked_flags(old(corner_flags)@, corner as int, end));
    let new_tri: bool;
    let adj: u32;
    if (corner_flags[first as usize] & ADJ_TRI_MASK) == 0 {
        let fv = corner_flags[first as usize] | ADJ_TRI_MASK;
        corner_flags[first as usize] = fv;
        adj = adj_tris.len() as u32;
        adj_tris.push(tri);
        wedge_set.add_defaulted();
        new_tri = true;
    } else {
        let mut k: usize = 0;
        while k < adj_tris.len() && adj_tris[k] != tri
            invariant
                k <= adj_tris@.len(),
                adj_tris@.contains(tri),
                adj_tris@.len() < u32::MAX,
                forall|m: int| 0 <= m < k ==> #[trigger] adj_tris@[m] != tri,
            decreases adj_tris@.len() - k,
        {
            k = k + 1;
        }
        adj = k as u32;
        new_tri = false;
    }
    let ghost p1 = wedge_set.parents@;
    proof {
        lemma_root_of(p1, adj as int);
        assert forall|x: int| 0 <= x < p1.len() implies #[trigger] root_of(p1, x) == grown_root(p0, x) by {
            if x < n0 {
                if new_tri {
                } else {
                    assert(p1 == p0);
                }
            }
        }
    }
    let vert = indexes[corner as usize];
    let mut w: usize = 0;
    while w < wedge_verts.len() && wedge_verts[w].vert_index != vert
        invariant
            w <= wedge_verts@.len(),
            forall|m: int| 0 <= m < w ==> #[trigger] wedge_verts@[m].vert_index != vert,
        decreases wedge_verts@.len() - w,
    {
        w = w + 1;
    }
    let wedge: Option<u32>;
    if w < wedge_verts.len() {
        let other = wedge_verts[w].adj_tri_index;
        wedge = Some(w as u32);
        proof {
            lemma_root_of(p1, other as int);
            assert(root_of(p1, other as int) == grown_root(p0, other as int));
        }
        if new_tri {
            proof {
                assert(root_of(p1, adj as int) == adj as int);
                assert(other < n0);
                lemma_root_of(p0, other as int);
                assert(root_of(p1, other as int) < n0);
            }
            wedge_set.union_sequential(adj, other);
        } else {
            wedge_set.union(adj, other);
        }
        proof {
            let q = wedge_set.parents@;
            assert forall|x: int| 0 <= x < q.len() implies #[trigger] root_of(q, x) == (if grown_root(p0, x)
                == grown_root(p0, adj as int) {
                grown_root(p0, other as int)
            } else {
                grown_root(p0, x)
            }) by {
                assert(root_of(p1, x) == grown_root(p0, x));
                assert(root_of(p1, adj as int) == grown_root(p0, adj as int));
            }
        }
    } else {
        wedge = None;
        wedge_verts.push(WedgeVert { vert_index: vert, adj_tri_index: adj });
    }
    GatheredCorner { flags: marked, adj_tri_index: adj, new_tri, wedge }
}

} // verus!
