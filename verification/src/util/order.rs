//! Stable ordering of positions by integer keys, and integer sort keys for
//! IEEE-754 values.
use vstd::prelude::*;

verus! {

/// Position `a` comes before position `b`: by larger key when `descending`, by
/// smaller key otherwise, and by smaller position between equal keys.
pub open spec fn key_before(keys: Seq<u64>, descending: bool, a: int, b: int) -> bool {
    if keys[a] == keys[b] {
        a < b
    } else if descending {
        keys[a] > keys[b]
    } else {
        keys[a] < keys[b]
    }
}

/// `order` lists every position of `keys` exactly once, each before the next.
pub open spec fn is_key_order(keys: Seq<u64>, descending: bool, order: Seq<usize>) -> bool {
    &&& order.len() == keys.len()
    &&& forall|i: int| 0 <= i < order.len() ==> #[trigger] order[i] < keys.len()
    &&& forall|i: int, j: int|
        0 <= i < j < order.len() ==> key_before(keys, descending, #[trigger] order[i] as int, #[trigger] order[j] as int)
    &&& forall|x: int| 0 <= x < keys.len() ==> #[trigger] order.contains(x as usize)
}

fn before(keys: &[u64], descending: bool, a: usize, b: usize) -> (r: bool)
    requires
        a < keys@.len(),
        b < keys@.len(),
    ensures
        r == key_before(keys@, descending, a as int, b as int),
{
    if keys[a] == keys[b] {
        a < b
    } else if descending {
        keys[a] > keys[b]
    } else {
        keys[a] < keys[b]
    }
}

/// The positions of `keys` in key order; positions with equal keys keep their order.
pub fn sort_indices_by_key(keys: &[u64], descending: bool) -> (order: Vec<usize>)
    ensures
        is_key_order(keys@, descending, order@),
{
    let n = keys.len();
    let mut order: Vec<usize> = Vec::new();
    let mut i: usize = 0;
    while i < n
        invariant
            n == keys@.len(),
            i <= n,
            order@.len() == i,
            forall|q: int| 0 <= q < order@.len() ==> #[trigger] order@[q] < i,
            forall|q: int, r: int|
                0 <= q < r < order@.len() ==> key_before(
                    keys@,
                    descending,
                    #[trigger] order@[q] as int,
                    #[trigger] order@[r] as int,
                ),
            forall|x: int| 0 <= x < i ==> #[trigger] order@.contains(x as usize),
        decreases n - i,
    {
        let mut p: usize = 0;
        while p < order.len() && before(keys, descending, order[p], i)
            invariant
                n == keys@.len(),
                i < n,
                p <= order@.len(),
                forall|q: int| 0 <= q < order@.len() ==> #[trigger] order@[q] < i,
                forall|q: int| 0 <= q < p ==> key_before(keys@, descending, #[trigger] order@[q] as int, i as int),
            decreases order@.len() - p,
        {
            p = p + 1;
        }
        let ghost old_order = order@;
        order.insert(p, i);
        proof {
            let o = order@;
            assert(o == old_order.insert(p as int, i));
            assert forall|q: int, r: int| 0 <= q < r < o.len() implies key_before(
                keys@,
                descending,
                #[trigger] o[q] as int,
                #[trigger] o[r] as int,
            ) by {
                if r < p {
                    assert(o[q] == old_order[q] && o[r] == old_order[r]);
                } else if r == p {
                    assert(o[q] == old_order[q]);
                } else if q == p {
                    assert(o[r] == old_order[r - 1]);
                    assert(!key_before(keys@, descending, old_order[p as int] as int, i as int));
                    if r - 1 > p {
                        assert(key_before(keys@, descending, old_order[p as int] as int, old_order[r - 1] as int));
                    }
                } else if q < p {
                    assert(o[q] == old_order[q] && o[r] == old_order[r - 1]);
                } else {
                    assert(o[q] == old_order[q - 1] && o[r] == old_order[r - 1]);
                }
            }
            assert forall|x: int| 0 <= x < i + 1 implies #[trigger] o.contains(x as usize) by {
                if x < i {
                    assert(old_order.contains(x as usize));
                    let q = choose|q: int| 0 <= q < old_order.len() && old_order[q] == x as usize;
                    if q < p {
                        assert(o[q] == x as usize);
                    } else {
                        assert(o[q + 1] == x as usize);
                    }
                } else {
                    assert(o[p as int] == i);
                }
            }
        }
        i = i + 1;
    }
    order
}


/// IEEE-754 `<` between two single-precision values given by their bit
/// patterns, read as sign and magnitude: the two zeros are equal, negatives come
/// before positives, and a larger magnitude is smaller among negatives. On NaN
/// patterns this extends the order past the infinities.
pub open spec fn f32_bits_lt(a: u32, b: u32) -> bool {
    let ma = a & 0x7fff_ffffu32;
    let mb = b & 0x7fff_ffffu32;
    let na = a & 0x8000_0000u32 != 0;
    let nb = b & 0x8000_0000u32 != 0;
    if ma == 0 && mb == 0 {
        false
    } else if !na && !nb {
        ma < mb
    } else if na && !nb {
        true
    } else if !na && nb {
        false
    } else {
        ma > mb
    }
}

/// The sort key of a single-precision pattern: negatives flipped, positives
/// offset above them.
pub open spec fn spec_f32_order_key(bits: u32) -> u32 {
    if bits & 0x8000_0000u32 != 0 {
        !bits
    } else {
        bits | 0x8000_0000u32
    }
}

/// Keys order as the values do; the one pair of equal values whose keys differ
/// is `-0.0` before `+0.0`.
pub proof fn lemma_f32_order_key(a: u32, b: u32)
    ensures
        (spec_f32_order_key(a) < spec_f32_order_key(b)) == (f32_bits_lt(a, b) || (a == 0x8000_0000u32 && b
            == 0u32)),
        (spec_f32_order_key(a) == spec_f32_order_key(b)) == (a == b),
{
    assert((spec_f32_order_key(a) < spec_f32_order_key(b)) == (f32_bits_lt(a, b) || (a == 0x8000_0000u32 && b
        == 0u32))) by (bit_vector);
    assert((spec_f32_order_key(a) == spec_f32_order_key(b)) == (a == b)) by (bit_vector);
}

/// The sort key of a single-precision value given by its bits.
pub fn f32_order_key(bits: u32) -> (r: u32)
    ensures
        r == spec_f32_order_key(bits),
{
    if bits & 0x8000_0000 != 0 {
        !bits
    } else {
        bits | 0x8000_0000
    }
}

/// The bits of the single-precision value whose sort key is `key`.
pub fn f32_from_order_key(key: u32) -> (r: u32)
    ensures
        spec_f32_order_key(r) == key,
{
    let r = if key & 0x8000_0000 != 0 {
        key & 0x7fff_ffff
    } else {
        !key
    };
    assert(spec_f32_order_key(r) == key) by (bit_vector)
        requires
            r == (if key & 0x8000_0000u32 != 0 {
                key & 0x7fff_ffffu32
            } else {
                !key
            }),
    ;
    r
}

/// IEEE-754 `<` between two double-precision values given by their bit
/// patterns (see `f32_bits_lt`).
pub open spec fn f64_bits_lt(a: u64, b: u64) -> bool {
    let ma = a & 0x7fff_ffff_ffff_ffffu64;
    let mb = b & 0x7fff_ffff_ffff_ffffu64;
    let na = a & 0x8000_0000_0000_0000u64 != 0;
    let nb = b & 0x8000_0000_0000_0000u64 != 0;
    if ma == 0 && mb == 0 {
        false
    } else if !na && !nb {
        ma < mb
    } else if na && !nb {
        true
    } else if !na && nb {
        false
    } else {
        ma > mb
    }
}

/// The sort key of a double-precision pattern (see `spec_f32_order_key`).
pub open spec fn spec_f64_order_key(bits: u64) -> u64 {
    if bits & 0x8000_0000_0000_0000u64 != 0 {
        !bits
    } else {
        bits | 0x8000_0000_0000_0000u64
    }
}

/// Keys order as the values do, `-0.0` before `+0.0`.
pub proof fn lemma_f64_order_key(a: u64, b: u64)
    ensures
        (spec_f64_order_key(a) < spec_f64_order_key(b)) == (f64_bits_lt(a, b) || (a == 0x8000_0000_0000_0000u64
            && b == 0u64)),
        (spec_f64_order_key(a) == spec_f64_order_key(b)) == (a == b),
{
    assert((spec_f64_order_key(a) < spec_f64_order_key(b)) == (f64_bits_lt(a, b) || (a
        == 0x8000_0000_0000_0000u64 && b == 0u64))) by (bit_vector);
    assert((spec_f64_order_key(a) == spec_f64_order_key(b)) == (a == b)) by (bit_vector);
}

/// The sort key of a double-precision value given by its bits.
pub fn f64_order_key(bits: u64) -> (r: u64)
    ensures
        r == spec_f64_order_key(bits),
{
    if bits & 0x8000_0000_0000_0000 != 0 {
        !bits
    } else {
        bits | 0x8000_0000_0000_0000
    }
}

} // verus!
