//! Integer rules of scene simplification: per-mesh triangle bounds, the rounding
//! of fractional budgets to whole triangles under a global total, the pairing of
//! decisions with meshes and the aggregation of per-mesh results.
use vstd::prelude::*;
use crate::util::order::{is_key_order, key_before, sort_indices_by_key};

verus! {

/// Sum of a sequence of `u32` values.
pub open spec fn sum_u32(s: Seq<u32>) -> int
    decreases s.len(),
{
    if s.len() == 0 {
        0
    } else {
        sum_u32(s.drop_last()) + s.last()
    }
}

/// Replacing one element changes the sum by the difference.
pub proof fn lemma_sum_update(s: Seq<u32>, i: int, v: u32)
    requires
        0 <= i < s.len(),
    ensures
        sum_u32(s.update(i, v)) == sum_u32(s) - s[i] + v,
    decreases s.len(),
{
    let u = s.update(i, v);
    if i == s.len() - 1 {
        assert(u.drop_last() =~= s.drop_last());
    } else {
        lemma_sum_update(s.drop_last(), i, v);
        assert(u.drop_last() =~= s.drop_last().update(i, v));
    }
}

/// A sum is at least zero, and at most the sum of an elementwise larger sequence.
pub proof fn lemma_sum_le(s: Seq<u32>, u: Seq<u32>)
    requires
        s.len() == u.len(),
        forall|i: int| 0 <= i < s.len() ==> #[trigger] s[i] <= u[i],
    ensures
        0 <= sum_u32(s) <= sum_u32(u),
    decreases s.len(),
{
    if s.len() > 0 {
        lemma_sum_le(s.drop_last(), u.drop_last());
    }
}

/// `o` lists each of `0..n` exactly once.
pub open spec fn is_permutation(o: Seq<usize>, n: nat) -> bool {
    &&& o.len() == n
    &&& forall|q: int| 0 <= q < o.len() ==> #[trigger] o[q] < n
    &&& forall|q: int, r: int| 0 <= q < r < o.len() ==> #[trigger] o[q] != #[trigger] o[r]
    &&& forall|x: int| 0 <= x < n ==> #[trigger] o.contains(x as usize)
}

/// How far `t` has moved from `b` in the direction of the adjustment.
pub open spec fn moved(inc: bool, b: u32, t: u32) -> int {
    if inc {
        t - b
    } else {
        b - t
    }
}

/// How far `t` may still move before it reaches the limit `l`.
pub open spec fn room(inc: bool, t: u32, l: u32) -> int {
    if inc {
        l - t
    } else {
        t - l
    }
}

/// First pass: in order, each value with room moves one step while steps remain.
fn spread_single_steps(targets: &mut Vec<u32>, limits: &[u32], order: &[usize], diff: u64, inc: bool) -> (rest: u64)
    requires
        old(targets)@.len() == limits@.len(),
        is_permutation(order@, limits@.len()),
        forall|i: int| 0 <= i < limits@.len() ==> room(inc, #[trigger] old(targets)@[i], limits@[i]) >= 0,
    ensures
        ({
            let b = old(targets)@;
            let t = final(targets)@;
            let o = order@;
            &&& t.len() == b.len()
            &&& rest <= diff
            &&& (if inc {
                sum_u32(t) == sum_u32(b) + (diff - rest)
            } else {
                sum_u32(t) == sum_u32(b) - (diff - rest)
            })
            &&& forall|i: int|
                0 <= i < b.len() ==> 0 <= moved(inc, b[i], #[trigger] t[i]) <= 1 && room(inc, t[i], limits@[i]) >= 0
            &&& forall|q1: int, q2: int|
                #![trigger o[q1], o[q2]]
                0 <= q1 < q2 < o.len() && moved(inc, b[o[q2] as int], t[o[q2] as int]) > 0 && room(
                    inc,
                    b[o[q1] as int],
                    limits@[o[q1] as int],
                ) > 0 ==> moved(inc, b[o[q1] as int], t[o[q1] as int]) > 0
            &&& rest > 0 ==> forall|i: int|
                0 <= i < b.len() && room(inc, b[i], limits@[i]) > 0 ==> moved(inc, b[i], #[trigger] t[i]) > 0
        }),
{
    let n = order.len();
    let ghost b = targets@;
    let ghost o = order@;
    let mut diff = diff;
    let ghost diff0 = diff;
    let mut p: usize = 0;
    while p < n
        invariant
            n == o.len(),
            o == order@,
            b.len() == n,
            limits@.len() == n,
            is_permutation(o, n as nat),
            targets@.len() == n,
            p <= n,
            diff <= diff0,
            forall|i: int| 0 <= i < n ==> room(inc, #[trigger] b[i], limits@[i]) >= 0,
            if inc {
                sum_u32(targets@) == sum_u32(b) + (diff0 - diff)
            } else {
                sum_u32(targets@) == sum_u32(b) - (diff0 - diff)
            },
            forall|q: int| p <= q < n ==> #[trigger] targets@[o[q] as int] == b[o[q] as int],
            forall|q: int|
                0 <= q < p ==> 0 <= moved(inc, b[o[q] as int], #[trigger] targets@[o[q] as int]) <= 1 && room(
                    inc,
                    targets@[o[q] as int],
                    limits@[o[q] as int],
                ) >= 0,
            forall|q1: int, q2: int|
                #![trigger o[q1], o[q2]]
                0 <= q1 < q2 < p && moved(inc, b[o[q2] as int], targets@[o[q2] as int]) > 0 && room(
                    inc,
                    b[o[q1] as int],
                    limits@[o[q1] as int],
                ) > 0 ==> moved(inc, b[o[q1] as int], targets@[o[q1] as int]) > 0,
            diff > 0 ==> forall|q: int|
                0 <= q < p && room(inc, b[o[q] as int], limits@[o[q] as int]) > 0 ==> moved(
                    inc,
                    b[o[q] as int],
                    #[trigger] targets@[o[q] as int],
                ) > 0,
        decreases n - p,
    {
        let a = order[p];
        let ghost t0 = targets@;
        if diff > 0 {
            if inc {
                if targets[a] < limits[a] {
                    let v = targets[a] + 1;
                    targets.set(a, v);
                    diff = diff - 1;
                    proof {
                        lemma_sum_update(t0, a as int, v);
                    }
                }
            } else {
                if targets[a] > limits[a] {
                    let v = targets[a] - 1;
                    targets.set(a, v);
                    diff = diff - 1;
                    proof {
                        lemma_sum_update(t0, a as int, v);
                    }
                }
            }
        }
        proof {
            assert forall|q: int| p + 1 <= q < n implies #[trigger] targets@[o[q] as int] == b[o[q] as int] by {
                assert(o[q] != o[p as int]);
            }
            assert forall|q: int| 0 <= q < p implies #[trigger] targets@[o[q] as int] == t0[o[q] as int] by {
                assert(o[q] != o[p as int]);
            }
        }
        p = p + 1;
    }
    proof {
        let t = targets@;
        assert forall|i: int| 0 <= i < b.len() implies 0 <= moved(inc, b[i], #[trigger] t[i]) <= 1 && room(
            inc,
            t[i],
            limits@[i],
        ) >= 0 by {
            assert(o.contains(i as usize));
            let q = choose|q: int| 0 <= q < o.len() && o[q] == i as usize;
            assert(targets@[o[q] as int] == t[i]);
        }
        if diff > 0 {
            assert forall|i: int| 0 <= i < b.len() && room(inc, b[i], limits@[i]) > 0 implies moved(
                inc,
                b[i],
                #[trigger] t[i],
            ) > 0 by {
                assert(o.contains(i as usize));
                let q = choose|q: int| 0 <= q < o.len() && o[q] == i as usize;
                assert(targets@[o[q] as int] == t[i]);
            }
        }
    }
    diff
}

/// Second pass: in order, each value moves as far as its room and the remaining
/// steps allow.
fn spread_fill(targets: &mut Vec<u32>, limits: &[u32], order: &[usize], diff: u64, inc: bool) -> (rest: u64)
    requires
        old(targets)@.len() == limits@.len(),
        is_permutation(order@, limits@.len()),
        forall|i: int| 0 <= i < limits@.len() ==> room(inc, #[trigger] old(targets)@[i], limits@[i]) >= 0,
    ensures
        ({
            let b = old(targets)@;
            let t = final(targets)@;
            let o = order@;
            &&& t.len() == b.len()
            &&& rest <= diff
            &&& (if inc {
                sum_u32(t) == sum_u32(b) + (diff - rest)
            } else {
                sum_u32(t) == sum_u32(b) - (diff - rest)
            })
            &&& forall|i: int|
                0 <= i < b.len() ==> moved(inc, b[i], #[trigger] t[i]) >= 0 && room(inc, t[i], limits@[i]) >= 0
            &&& rest > 0 ==> forall|i: int| 0 <= i < b.len() ==> room(inc, #[trigger] t[i], limits@[i]) == 0
            &&& forall|q1: int, q2: int|
                #![trigger o[q1], o[q2]]
                0 <= q1 < q2 < o.len() && moved(inc, b[o[q2] as int], t[o[q2] as int]) > 0 ==> room(
                    inc,
                    t[o[q1] as int],
                    limits@[o[q1] as int],
                ) == 0
        }),
{
    let n = order.len();
    let ghost b = targets@;
    let ghost o = order@;
    let mut diff = diff;
    let ghost diff0 = diff;
    let mut p: usize = 0;
    while p < n
        invariant
            n == o.len(),
            o == order@,
            b.len() == n,
            limits@.len() == n,
            is_permutation(o, n as nat),
            targets@.len() == n,
            p <= n,
            diff <= diff0,
            forall|i: int| 0 <= i < n ==> room(inc, #[trigger] b[i], limits@[i]) >= 0,
            if inc {
                sum_u32(targets@) == sum_u32(b) + (diff0 - diff)
            } else {
                sum_u32(targets@) == sum_u32(b) - (diff0 - diff)
            },
            forall|q: int| p <= q < n ==> #[trigger] targets@[o[q] as int] == b[o[q] as int],
            forall|q: int|
                0 <= q < p ==> moved(inc, b[o[q] as int], #[trigger] targets@[o[q] as int]) >= 0 && room(
                    inc,
                    targets@[o[q] as int],
                    limits@[o[q] as int],
                ) >= 0,
            diff > 0 ==> forall|q: int|
                0 <= q < p ==> room(inc, #[trigger] targets@[o[q] as int], limits@[o[q] as int]) == 0,
            forall|q1: int, q2: int|
                #![trigger o[q1], o[q2]]
                0 <= q1 < q2 < p && moved(inc, b[o[q2] as int], targets@[o[q2] as int]) > 0 ==> room(
                    inc,
                    targets@[o[q1] as int],
                    limits@[o[q1] as int],
                ) == 0,
        decreases n - p,
    {
        let a = order[p];
        let ghost t0 = targets@;
        if diff > 0 {
            let cur = targets[a];
            let lim = limits[a];
            let r: u64 = if inc {
                (lim - cur) as u64
            } else {
                (cur - lim) as u64
            };
            let step: u64 = if r < diff {
                r
            } else {
                diff
            };
            let v: u32 = if inc {
                cur + step as u32
            } else {
                cur - step as u32
            };
            targets.set(a, v);
            diff = diff - step;
            proof {
                lemma_sum_update(t0, a as int, v);
            }
        }
        proof {
            assert forall|q: int| p + 1 <= q < n implies #[trigger] targets@[o[q] as int] == b[o[q] as int] by {
                assert(o[q] != o[p as int]);
            }
            assert forall|q: int| 0 <= q < p implies #[trigger] targets@[o[q] as int] == t0[o[q] as int] by {
                assert(o[q] != o[p as int]);
            }
        }
        p = p + 1;
    }
    proof {
        let t = targets@;
        assert forall|i: int| 0 <= i < b.len() implies moved(inc, b[i], #[trigger] t[i]) >= 0 && room(
            inc,
            t[i],
            limits@[i],
        ) >= 0 by {
            assert(o.contains(i as usize));
            let q = choose|q: int| 0 <= q < o.len() && o[q] == i as usize;
            assert(targets@[o[q] as int] == t[i]);
        }
        if diff > 0 {
            assert forall|i: int| 0 <= i < b.len() implies room(inc, #[trigger] t[i], limits@[i]) == 0 by {
                assert(o.contains(i as usize));
                let q = choose|q: int| 0 <= q < o.len() && o[q] == i as usize;
                assert(targets@[o[q] as int] == t[i]);
            }
        }
    }
    diff
}

/// `v` clamped to `[lo, hi]`.
pub open spec fn clamp_int(v: int, lo: int, hi: int) -> int {
    if v < lo {
        lo
    } else if v > hi {
        hi
    } else {
        v
    }
}

/// The whole-triangle targets before rounding: each floor clamped to its bounds.
pub open spec fn base_targets(floors: Seq<u64>, mins: Seq<u32>, maxs: Seq<u32>) -> Seq<u32> {
    Seq::new(floors.len(), |i: int| clamp_int(floors[i] as int, mins[i] as int, maxs[i] as int) as u32)
}

/// The rounding rule for one direction (`inc`: raise towards `lim`, else lower
/// towards it), over the key order that `inc` selects (larger fraction first when
/// raising, smaller fraction first when lowering): a value moves only if every value
/// ordered before it that could move has moved, and a value moves more than one
/// step only if every value that could move has moved once and every value ordered
/// before it has reached its limit.
pub open spec fn rounding_priority(keys: Seq<u64>, inc: bool, base: Seq<u32>, lim: Seq<u32>, t: Seq<u32>) -> bool {
    &&& forall|a: int, b: int|
        0 <= a < t.len() && 0 <= b < t.len() && #[trigger] key_before(keys, inc, a, b) && moved(inc, base[b], t[b])
            > 0 && room(inc, base[a], lim[a]) > 0 ==> moved(inc, base[a], t[a]) > 0
    &&& forall|b: int|
        0 <= b < t.len() && #[trigger] moved(inc, base[b], t[b]) > 1 ==> (forall|a: int|
            0 <= a < t.len() && room(inc, base[a], lim[a]) > 0 ==> #[trigger] moved(inc, base[a], t[a]) > 0) && (
        forall|a: int| 0 <= a < t.len() && #[trigger] key_before(keys, inc, a, b) ==> room(inc, t[a], lim[a]) == 0)
}

/// Sum of `u32` values as a `u64`.
pub fn sum_u32_values(values: &[u32]) -> (r: u64)
    requires
        values@.len() < 0x1_0000_0000,
    ensures
        r == sum_u32(values@),
{
    let mut total: u64 = 0;
    let mut i: usize = 0;
    while i < values.len()
        invariant
            i <= values@.len(),
            values@.len() < 0x1_0000_0000,
            total == sum_u32(values@.subrange(0, i as int)),
            total <= i * 0xffff_ffff,
        decreases values@.len() - i,
    {
        assert(values@.subrange(0, i + 1).drop_last() =~= values@.subrange(0, i as int));
        total = total + values[i] as u64;
        i = i + 1;
    }
    assert(values@.subrange(0, values@.len() as int) =~= values@);
    total
}

proof fn lemma_order_positions(keys: Seq<u64>, inc: bool, o: Seq<usize>, a: int, b: int)
    requires
        is_key_order(keys, inc, o),
        keys.len() <= usize::MAX,
        0 <= a < keys.len(),
        0 <= b < keys.len(),
        key_before(keys, inc, a, b),
    ensures
        exists|qa: int, qb: int| 0 <= qa < qb < o.len() && o[qa] as int == a && o[qb] as int == b,
{
    assert(o.contains(a as usize));
    assert(o.contains(b as usize));
    let qa = choose|q: int| 0 <= q < o.len() && o[q] == a as usize;
    let qb = choose|q: int| 0 <= q < o.len() && o[q] == b as usize;
    assert(o[qa] as int == a && o[qb] as int == b);
    if qa > qb {
        assert(key_before(keys, inc, o[qb] as int, o[qa] as int));
    }
    assert(qa != qb);
}

proof fn lemma_key_order_permutation(keys: Seq<u64>, inc: bool, o: Seq<usize>)
    requires
        is_key_order(keys, inc, o),
    ensures
        is_permutation(o, keys.len()),
{
    assert forall|q: int, r: int| 0 <= q < r < o.len() implies #[trigger] o[q] != #[trigger] o[r] by {
        assert(key_before(keys, inc, o[q] as int, o[r] as int));
    }
}

/// Moves the values of `targets` by `diff` steps in total, towards `lim`, in the
/// key order of `keys`.
fn spread(targets: &mut Vec<u32>, lim: &[u32], keys: &[u64], diff: u64, inc: bool)
    requires
        old(targets)@.len() == lim@.len(),
        keys@.len() == lim@.len(),
        forall|i: int| 0 <= i < lim@.len() ==> room(inc, #[trigger] old(targets)@[i], lim@[i]) >= 0,
        inc ==> diff <= sum_u32(lim@) - sum_u32(old(targets)@),
        !inc ==> diff <= sum_u32(old(targets)@) - sum_u32(lim@),
    ensures
        final(targets)@.len() == old(targets)@.len(),
        inc ==> sum_u32(final(targets)@) == sum_u32(old(targets)@) + diff,
        !inc ==> sum_u32(final(targets)@) == sum_u32(old(targets)@) - diff,
        forall|i: int|
            0 <= i < lim@.len() ==> moved(inc, old(targets)@[i], #[trigger] final(targets)@[i]) >= 0 && room(
                inc,
                final(targets)@[i],
                lim@[i],
            ) >= 0,
        rounding_priority(keys@, inc, old(targets)@, lim@, final(targets)@),
{
    let ghost base = targets@;
    let key_count = keys.len();
    assert(keys@.len() == key_count);
    let order = sort_indices_by_key(keys, inc);
    proof {
        lemma_key_order_permutation(keys@, inc, order@);
    }
    let rest1 = spread_single_steps(targets, lim, order.as_slice(), diff, inc);
    let ghost p1 = targets@;
    let mut rest2: u64 = 0;
    if rest1 > 0 {
        rest2 = spread_fill(targets, lim, order.as_slice(), rest1, inc);
    }
    let ghost t = targets@;
    let ghost o = order@;
    proof {
        assert(forall|i: int| 0 <= i < lim@.len() ==> moved(inc, base[i], #[trigger] t[i]) == moved(inc, base[i], p1[i])
            + moved(inc, p1[i], t[i]));
        if rest2 > 0 {
            assert(t =~= lim@) by {
                assert forall|i: int| 0 <= i < lim@.len() implies t[i] == lim@[i] by {
                    assert(room(inc, t[i], lim@[i]) == 0);
                }
            }
        }
        assert forall|a: int, b: int|
            0 <= a < t.len() && 0 <= b < t.len() && #[trigger] key_before(keys@, inc, a, b) && moved(
                inc,
                base[b],
                t[b],
            ) > 0 && room(inc, base[a], lim@[a]) > 0 implies moved(inc, base[a], t[a]) > 0 by {
            lemma_order_positions(keys@, inc, o, a, b);
            let (qa, qb) = choose|qa: int, qb: int| 0 <= qa < qb < o.len() && o[qa] as int == a && o[qb] as int == b;
            if moved(inc, base[b], p1[b]) > 0 {
                assert(moved(inc, base[o[qa] as int], p1[o[qa] as int]) > 0);
            } else {
                assert(rest1 > 0);
                assert(moved(inc, base[a], p1[a]) > 0);
            }
        }
        assert forall|b: int| 0 <= b < t.len() && #[trigger] moved(inc, base[b], t[b]) > 1 implies (forall|a: int|
            0 <= a < t.len() && room(inc, base[a], lim@[a]) > 0 ==> #[trigger] moved(inc, base[a], t[a]) > 0) && (
        forall|a: int| 0 <= a < t.len() && #[trigger] key_before(keys@, inc, a, b) ==> room(inc, t[a], lim@[a]) == 0) by {
            assert(rest1 > 0);
            assert forall|a: int| 0 <= a < t.len() && #[trigger] key_before(keys@, inc, a, b) implies room(
                inc,
                t[a],
                lim@[a],
            ) == 0 by {
                lemma_order_positions(keys@, inc, o, a, b);
                let (qa, qb) = choose|qa: int, qb: int| 0 <= qa < qb < o.len() && o[qa] as int == a && o[qb] as int == b;
                assert(moved(inc, p1[o[qb] as int], t[o[qb] as int]) > 0);
            }
        }
    }
}

/// Whole-triangle targets for fractional budgets: each value starts at its floor
/// clamped to its bounds; then, until the clamped total is met, values are raised
/// one step each in order of decreasing fractional part (or lowered in order of
/// increasing fractional part), and after that filled to their bounds in the same
/// order. `fraction_keys` orders the fractional parts.
pub fn solve_integer_targets(
    floor_values: &[u64],
    fraction_keys: &[u64],
    min_targets: &[u32],
    max_targets: &[u32],
    desired_total: u64,
) -> (targets: Vec<u32>)
    requires
        fraction_keys@.len() == floor_values@.len(),
        min_targets@.len() == floor_values@.len(),
        max_targets@.len() == floor_values@.len(),
        floor_values@.len() < 0x1_0000_0000,
        forall|i: int| 0 <= i < floor_values@.len() ==> #[trigger] min_targets@[i] <= max_targets@[i],
    ensures
        ({
            let base = base_targets(floor_values@, min_targets@, max_targets@);
            let desired = clamp_int(desired_total as int, sum_u32(min_targets@), sum_u32(max_targets@));
            let t = targets@;
            &&& t.len() == floor_values@.len()
            &&& forall|i: int| 0 <= i < t.len() ==> min_targets@[i] <= #[trigger] t[i] <= max_targets@[i]
            &&& sum_u32(t) == desired
            &&& sum_u32(base) < desired ==> (forall|i: int| 0 <= i < t.len() ==> base[i] <= #[trigger] t[i])
                && rounding_priority(fraction_keys@, true, base, max_targets@, t)
            &&& sum_u32(base) > desired ==> (forall|i: int| 0 <= i < t.len() ==> #[trigger] t[i] <= base[i])
                && rounding_priority(fraction_keys@, false, base, min_targets@, t)
            &&& sum_u32(base) == desired ==> t == base
        }),
{
    let n = floor_values.len();
    let sum_min = sum_u32_values(min_targets);
    let sum_max = sum_u32_values(max_targets);
    proof {
        lemma_sum_le(min_targets@, max_targets@);
    }
    let desired = if desired_total < sum_min {
        sum_min
    } else if desired_total > sum_max {
        sum_max
    } else {
        desired_total
    };
    let mut targets: Vec<u32> = Vec::new();
    let mut i: usize = 0;
    while i < n
        invariant
            n == floor_values@.len(),
            min_targets@.len() == n,
            max_targets@.len() == n,
            i <= n,
            forall|j: int| 0 <= j < n ==> #[trigger] min_targets@[j] <= max_targets@[j],
            targets@ =~= base_targets(floor_values@, min_targets@, max_targets@).subrange(0, i as int),
        decreases n - i,
    {
        let f = floor_values[i];
        let v: u32 = if f < min_targets[i] as u64 {
            min_targets[i]
        } else if f > max_targets[i] as u64 {
            max_targets[i]
        } else {
            f as u32
        };
        targets.push(v);
        i = i + 1;
    }
    let ghost base = base_targets(floor_values@, min_targets@, max_targets@);
    assert(targets@ =~= base);
    proof {
        lemma_sum_le(min_targets@, base);
        lemma_sum_le(base, max_targets@);
    }
    let current = sum_u32_values(targets.as_slice());
    if current < desired {
        spread(&mut targets, max_targets, fraction_keys, desired - current, true);
    } else if current > desired {
        spread(&mut targets, min_targets, fraction_keys, current - desired, false);
    }
    targets
}

/// Lower and upper triangle targets of a mesh of `source` triangles: the lower one
/// is the ratio-derived minimum raised to the per-mesh floor (itself capped by the
/// source), the upper one the ratio-derived maximum raised to the lower one; both
/// are capped by the source.
pub open spec fn spec_mesh_target_bounds(
    source: u32,
    min_ratio_triangles: u32,
    max_ratio_triangles: u32,
    min_triangles_per_mesh: u32,
) -> (u32, u32) {
    let floor_tri = if min_triangles_per_mesh < source { min_triangles_per_mesh } else { source };
    let raised = if min_ratio_triangles > floor_tri { min_ratio_triangles } else { floor_tri };
    let min_tri = if raised < source { raised } else { source };
    let raised_max = if max_ratio_triangles > min_tri { max_ratio_triangles } else { min_tri };
    let max_tri = if raised_max < source { raised_max } else { source };
    (min_tri, max_tri)
}

/// Triangle bounds of one mesh for the scene budget.
pub fn mesh_target_bounds(
    source_triangles: u32,
    min_ratio_triangles: u32,
    max_ratio_triangles: u32,
    min_triangles_per_mesh: u32,
) -> (r: (u32, u32))
    ensures
        r == spec_mesh_target_bounds(
            source_triangles,
            min_ratio_triangles,
            max_ratio_triangles,
            min_triangles_per_mesh,
        ),
        r.0 <= r.1 <= source_triangles,
{
    let min_floor_tri = if min_triangles_per_mesh < source_triangles {
        min_triangles_per_mesh
    } else {
        source_triangles
    };
    let raised = if min_ratio_triangles > min_floor_tri {
        min_ratio_triangles
    } else {
        min_floor_tri
    };
    let min_tri = if raised < source_triangles {
        raised
    } else {
        source_triangles
    };
    let raised_max = if max_ratio_triangles > min_tri {
        max_ratio_triangles
    } else {
        min_tri
    };
    let max_tri = if raised_max < source_triangles {
        raised_max
    } else {
        source_triangles
    };
    (min_tri, max_tri)
}

/// A single-mesh run produced a usable result: both statuses are success, some
/// triangles remain and the index count is three per triangle.
pub open spec fn spec_simplify_succeeded(status: i32, result_status: i32, num_triangles: u32, num_indices: u32) -> bool {
    &&& status == crate::QEM_STATUS_SUCCESS
    &&& result_status == crate::QEM_STATUS_SUCCESS
    &&& num_triangles > 0
    &&& num_indices == (if num_triangles * 3 > u32::MAX { u32::MAX as int } else { num_triangles * 3 })
}

/// Whether a single-mesh run can be accepted without a retry.
pub fn simplify_succeeded(status: i32, result_status: i32, num_triangles: u32, num_indices: u32) -> (r: bool)
    ensures
        r == spec_simplify_succeeded(status, result_status, num_triangles, num_indices),
{
    let tri3: u64 = num_triangles as u64 * 3;
    let expected_indices: u32 = if tri3 > u32::MAX as u64 {
        u32::MAX
    } else {
        tri3 as u32
    };
    status == crate::QEM_STATUS_SUCCESS && result_status == crate::QEM_STATUS_SUCCESS && num_triangles > 0
        && num_indices == expected_indices
}

/// Triangle count a scene run records for a mesh: the simplified count when both
/// statuses are success, the source count otherwise.
pub fn mesh_output_triangles(status: i32, result_status: i32, result_triangles: u32, source_triangles: u32) -> (r: u32)
    ensures
        r == if status == crate::QEM_STATUS_SUCCESS && result_status == crate::QEM_STATUS_SUCCESS {
            result_triangles
        } else {
            source_triangles
        },
{
    if status == crate::QEM_STATUS_SUCCESS && result_status == crate::QEM_STATUS_SUCCESS {
        result_triangles
    } else {
        source_triangles
    }
}

/// Target of one attempt: the relaxed target capped by the source and at least one.
pub fn attempt_target(relaxed_target: u32, source_triangles: u32) -> (r: u32)
    ensures
        r == if relaxed_target < source_triangles {
            if relaxed_target > 1 { relaxed_target } else { 1 }
        } else if source_triangles > 1 {
            source_triangles
        } else {
            1
        },
        r >= 1,
{
    let capped = if relaxed_target < source_triangles {
        relaxed_target
    } else {
        source_triangles
    };
    if capped > 1 {
        capped
    } else {
        1
    }
}

/// Decisions name every mesh exactly once: each mesh index is in range and no two
/// decisions name the same mesh, and every mesh is named.
pub open spec fn decisions_cover_meshes(mesh_indices: Seq<u32>, num_meshes: nat) -> bool {
    &&& forall|j: int| 0 <= j < mesh_indices.len() ==> #[trigger] mesh_indices[j] < num_meshes
    &&& forall|j: int, k: int|
        0 <= j < k < mesh_indices.len() ==> #[trigger] mesh_indices[j] != #[trigger] mesh_indices[k]
    &&& forall|m: int| 0 <= m < num_meshes ==> #[trigger] names_mesh(mesh_indices, m)
}

/// Some decision names mesh `m`.
pub open spec fn names_mesh(mesh_indices: Seq<u32>, m: int) -> bool {
    exists|k: int| 0 <= k < mesh_indices.len() && mesh_indices[k] == m
}

/// For each mesh, the position of the decision that names it; `None` when a
/// decision names a mesh out of range or one named before, or a mesh is unnamed.
pub fn index_decisions_by_mesh(mesh_indices: &[u32], num_meshes: usize) -> (r: Option<Vec<usize>>)
    ensures
        r.is_some() == decisions_cover_meshes(mesh_indices@, num_meshes as nat),
        r matches Some(pos) ==> pos@.len() == num_meshes && forall|m: int|
            0 <= m < num_meshes ==> #[trigger] pos@[m] < mesh_indices@.len() && mesh_indices@[pos@[m] as int] == m,
{
    let mut slot: Vec<Option<usize>> = Vec::new();
    let mut m: usize = 0;
    while m < num_meshes
        invariant
            m <= num_meshes,
            slot@.len() == m,
            forall|k: int| 0 <= k < m ==> #[trigger] slot@[k] is None,
        decreases num_meshes - m,
    {
        slot.push(None);
        m = m + 1;
    }
    let n = mesh_indices.len();
    let mut j: usize = 0;
    while j < n
        invariant
            n == mesh_indices@.len(),
            j <= n,
            slot@.len() == num_meshes,
            forall|k: int| 0 <= k < j ==> #[trigger] mesh_indices@[k] < num_meshes,
            forall|a: int, b: int| 0 <= a < b < j ==> #[trigger] mesh_indices@[a] != #[trigger] mesh_indices@[b],
            forall|mm: int|
                0 <= mm < num_meshes ==> match #[trigger] slot@[mm] {
                    Some(p) => p < j && mesh_indices@[p as int] == mm,
                    None => forall|k: int| 0 <= k < j ==> mesh_indices@[k] != mm,
                },
        decreases n - j,
    {
        let mi = mesh_indices[j] as usize;
        if mi >= num_meshes {
            return None;
        }
        match slot[mi] {
            Some(p) => {
                assert(mesh_indices@[p as int] == mesh_indices@[j as int]);
                return None;
            },
            None => {},
        }
        slot.set(mi, Some(j));
        j = j + 1;
    }
    let mut pos: Vec<usize> = Vec::new();
    let mut m: usize = 0;
    while m < num_meshes
        invariant
            m <= num_meshes,
            n == mesh_indices@.len(),
            slot@.len() == num_meshes,
            pos@.len() == m,
            forall|k: int| 0 <= k < n ==> #[trigger] mesh_indices@[k] < num_meshes,
            forall|a: int, b: int| 0 <= a < b < n ==> #[trigger] mesh_indices@[a] != #[trigger] mesh_indices@[b],
            forall|mm: int|
                0 <= mm < num_meshes ==> match #[trigger] slot@[mm] {
                    Some(p) => p < n && mesh_indices@[p as int] == mm,
                    None => forall|k: int| 0 <= k < n ==> mesh_indices@[k] != mm,
                },
            forall|k: int| 0 <= k < m ==> #[trigger] pos@[k] < n && mesh_indices@[pos@[k] as int] == k,
        decreases num_meshes - m,
    {
        match slot[m] {
            Some(p) => {
                pos.push(p);
            },
            None => {
                assert(!names_mesh(mesh_indices@, m as int));
                assert(!decisions_cover_meshes(mesh_indices@, num_meshes as nat));
                return None;
            },
        }
        m = m + 1;
    }
    proof {
        assert forall|mm: int| 0 <= mm < num_meshes implies #[trigger] names_mesh(mesh_indices@, mm) by {
            assert(mesh_indices@[pos@[mm] as int] == mm);
        }
    }
    Some(pos)
}

/// Integer outcome of simplifying one mesh of a scene.
#[derive(Clone, Copy, Debug)]
pub struct MeshRunOutcome {
    pub mesh_index: u32,
    pub status: i32,
    pub source_triangles: u32,
    pub requested_triangles: u32,
    pub output_triangles: u32,
}

/// Totals of a scene run.
#[derive(Clone, Copy, Debug)]
pub struct SceneRunTotals {
    pub status: i32,
    pub num_simplified_meshes: u32,
    pub source_triangles: u64,
    pub target_triangles: u64,
    pub output_triangles: u64,
}

/// Sum of the source triangle counts.
pub open spec fn total_source(s: Seq<MeshRunOutcome>) -> int
    decreases s.len(),
{
    if s.len() == 0 {
        0
    } else {
        total_source(s.drop_last()) + s.last().source_triangles
    }
}

/// Sum of the requested triangle counts.
pub open spec fn total_requested(s: Seq<MeshRunOutcome>) -> int
    decreases s.len(),
{
    if s.len() == 0 {
        0
    } else {
        total_requested(s.drop_last()) + s.last().requested_triangles
    }
}

/// Sum of the output triangle counts.
pub open spec fn total_output(s: Seq<MeshRunOutcome>) -> int
    decreases s.len(),
{
    if s.len() == 0 {
        0
    } else {
        total_output(s.drop_last()) + s.last().output_triangles
    }
}

/// Number of meshes that succeeded with fewer triangles than they started with.
pub open spec fn count_simplified(s: Seq<MeshRunOutcome>) -> int
    decreases s.len(),
{
    if s.len() == 0 {
        0
    } else {
        count_simplified(s.drop_last()) + if s.last().status == crate::QEM_STATUS_SUCCESS
            && s.last().output_triangles < s.last().source_triangles {
            1int
        } else {
            0int
        }
    }
}

/// The first status that is not success, or success when there is none.
pub open spec fn first_failure(s: Seq<MeshRunOutcome>) -> i32
    decreases s.len(),
{
    if s.len() == 0 {
        crate::QEM_STATUS_SUCCESS
    } else if first_failure(s.drop_last()) != crate::QEM_STATUS_SUCCESS {
        first_failure(s.drop_last())
    } else {
        s.last().status
    }
}

/// Totals of the per-mesh outcomes of a scene run, taken in order.
pub fn summarize_mesh_results(results: &[MeshRunOutcome]) -> (r: SceneRunTotals)
    requires
        results@.len() < 0x1_0000_0000,
    ensures
        r.status == first_failure(results@),
        r.num_simplified_meshes == count_simplified(results@),
        r.num_simplified_meshes == results@.filter(outcome_simplified()).len(),
        r.status == crate::QEM_STATUS_SUCCESS <==> forall|i: int|
            0 <= i < results@.len() ==> #[trigger] results@[i].status == crate::QEM_STATUS_SUCCESS,
        forall|i: int|
            0 <= i < results@.len() && #[trigger] results@[i].status != crate::QEM_STATUS_SUCCESS && (forall|j: int|
                0 <= j < i ==> results@[j].status == crate::QEM_STATUS_SUCCESS) ==> r.status == results@[i].status,
        r.source_triangles == total_source(results@),
        r.target_triangles == total_requested(results@),
        r.output_triangles == total_output(results@),
{
    let mut source: u64 = 0;
    let mut target: u64 = 0;
    let mut output: u64 = 0;
    let mut simplified: u32 = 0;
    let mut first_error: i32 = crate::QEM_STATUS_SUCCESS;
    let mut i: usize = 0;
    while i < results.len()
        invariant
            i <= results@.len(),
            results@.len() < 0x1_0000_0000,
            source == total_source(results@.subrange(0, i as int)),
            target == total_requested(results@.subrange(0, i as int)),
            output == total_output(results@.subrange(0, i as int)),
            simplified == count_simplified(results@.subrange(0, i as int)),
            first_error == first_failure(results@.subrange(0, i as int)),
            source <= i * 0xffff_ffff,
            target <= i * 0xffff_ffff,
            output <= i * 0xffff_ffff,
            simplified <= i,
        decreases results@.len() - i,
    {
        let r = results[i];
        assert(results@.subrange(0, i + 1).drop_last() =~= results@.subrange(0, i as int));
        source = source + r.source_triangles as u64;
        target = target + r.requested_triangles as u64;
        output = output + r.output_triangles as u64;
        if r.status == crate::QEM_STATUS_SUCCESS && r.output_triangles < r.source_triangles {
            simplified = simplified + 1;
        } else if r.status != crate::QEM_STATUS_SUCCESS && first_error == crate::QEM_STATUS_SUCCESS {
            first_error = r.status;
        }
        i = i + 1;
    }
    assert(results@.subrange(0, results@.len() as int) =~= results@);
    proof {
        lemma_count_simplified_counts(results@);
        lemma_first_failure_is_first(results@);
    }
    SceneRunTotals {
        status: first_error,
        num_simplified_meshes: simplified,
        source_triangles: source,
        target_triangles: target,
        output_triangles: output,
    }
}

/// The parts of a scene decision that the statistics count with.
#[derive(Clone, Copy, Debug)]
pub struct DecisionCounts {
    pub mesh_index: u32,
    pub mesh_id: u32,
    pub source_triangles: u32,
}

/// Integer statistics of one mesh, with the positions of its decision and result.
#[derive(Clone, Copy, Debug)]
pub struct MeshStatisticsCounts {
    pub decision_position: usize,
    pub result_position: usize,
    pub mesh_index: u32,
    pub mesh_id: u32,
    pub status: i32,
    pub source_triangles: u32,
    pub target_triangles: u32,
    pub output_triangles: u32,
}

/// Integer totals of the statistics of a scene run.
#[derive(Clone, Copy, Debug)]
pub struct StatisticsTotals {
    pub status: i32,
    pub num_meshes: u32,
    pub num_failed_meshes: u32,
    pub num_simplified_meshes: u32,
    pub source_triangles: u64,
    pub target_triangles: u64,
    pub output_triangles: u64,
}

/// Decisions and results describe the same meshes: both are nonempty, neither
/// names a mesh twice, every result names a decided mesh, and they are equally many.
pub open spec fn statistics_inputs_valid(ds: Seq<DecisionCounts>, rs: Seq<MeshRunOutcome>) -> bool {
    &&& ds.len() > 0
    &&& rs.len() > 0
    &&& forall|a: int, b: int| 0 <= a < b < ds.len() ==> #[trigger] ds[a].mesh_index != #[trigger] ds[b].mesh_index
    &&& forall|a: int, b: int| 0 <= a < b < rs.len() ==> #[trigger] rs[a].mesh_index != #[trigger] rs[b].mesh_index
    &&& forall|r: int| 0 <= r < rs.len() ==> #[trigger] decided(ds, rs[r].mesh_index)
    &&& ds.len() == rs.len()
}

/// Some decision is for mesh `m`.
pub open spec fn decided(ds: Seq<DecisionCounts>, m: u32) -> bool {
    exists|d: int| 0 <= d < ds.len() && ds[d].mesh_index == m
}

/// The mesh indices of the decisions, as sort keys.
pub open spec fn decision_keys(ds: Seq<DecisionCounts>) -> Seq<u64> {
    Seq::new(ds.len(), |i: int| ds[i].mesh_index as u64)
}

/// `x` raised to at least one.
pub open spec fn at_least_one(x: u32) -> u32 {
    if x > 1 {
        x
    } else {
        1
    }
}

/// The statistics entry of decision `d` and result `r`: the source count is at
/// least one, the target is the requested count between one and the result's
/// source count (at least one), and the output is capped by that source count.
pub open spec fn statistics_entry_matches(e: MeshStatisticsCounts, d: DecisionCounts, r: MeshRunOutcome) -> bool {
    &&& e.mesh_index == d.mesh_index
    &&& e.mesh_id == d.mesh_id
    &&& e.status == r.status
    &&& e.source_triangles == at_least_one(d.source_triangles)
    &&& e.target_triangles == (if at_least_one(r.requested_triangles) < at_least_one(r.source_triangles) {
        at_least_one(r.requested_triangles)
    } else {
        at_least_one(r.source_triangles)
    })
    &&& e.output_triangles == (if r.output_triangles < at_least_one(r.source_triangles) {
        r.output_triangles
    } else {
        at_least_one(r.source_triangles)
    })
}

/// Sum of the source counts of statistics entries.
pub open spec fn stats_source(s: Seq<MeshStatisticsCounts>) -> int
    decreases s.len(),
{
    if s.len() == 0 {
        0
    } else {
        stats_source(s.drop_last()) + s.last().source_triangles
    }
}

/// Sum of the target counts of statistics entries.
pub open spec fn stats_target(s: Seq<MeshStatisticsCounts>) -> int
    decreases s.len(),
{
    if s.len() == 0 {
        0
    } else {
        stats_target(s.drop_last()) + s.last().target_triangles
    }
}

/// Sum of the output counts of statistics entries.
pub open spec fn stats_output(s: Seq<MeshStatisticsCounts>) -> int
    decreases s.len(),
{
    if s.len() == 0 {
        0
    } else {
        stats_output(s.drop_last()) + s.last().output_triangles
    }
}

/// Number of entries whose status is not success.
pub open spec fn stats_failed(s: Seq<MeshStatisticsCounts>) -> int
    decreases s.len(),
{
    if s.len() == 0 {
        0
    } else {
        stats_failed(s.drop_last()) + if s.last().status != crate::QEM_STATUS_SUCCESS {
            1int
        } else {
            0int
        }
    }
}

/// Number of successful entries that output fewer triangles than their source.
pub open spec fn stats_simplified(s: Seq<MeshStatisticsCounts>) -> int
    decreases s.len(),
{
    if s.len() == 0 {
        0
    } else {
        stats_simplified(s.drop_last()) + if s.last().status == crate::QEM_STATUS_SUCCESS
            && s.last().output_triangles < s.last().source_triangles {
            1int
        } else {
            0int
        }
    }
}

/// The first entry status that is not success, or success.
pub open spec fn stats_first_failure(s: Seq<MeshStatisticsCounts>) -> i32
    decreases s.len(),
{
    if s.len() == 0 {
        crate::QEM_STATUS_SUCCESS
    } else if stats_first_failure(s.drop_last()) != crate::QEM_STATUS_SUCCESS {
        stats_first_failure(s.drop_last())
    } else {
        s.last().status
    }
}

proof fn lemma_adjacent_increasing(k: Seq<u64>, o: Seq<usize>, a: int, b: int)
    requires
        forall|q: int| 0 <= q < o.len() ==> #[trigger] o[q] < k.len(),
        forall|q: int| 0 < q < o.len() ==> #[trigger] k[o[q - 1] as int] < k[o[q] as int],
        0 <= a < b < o.len(),
    ensures
        k[o[a] as int] < k[o[b] as int],
    decreases b - a,
{
    assert(k[o[b - 1] as int] < k[o[b] as int]);
    if b - a > 1 {
        lemma_adjacent_increasing(k, o, a, b - 1);
    }
}

/// The position in `order` whose key is `target`, when the keys along `order`
/// strictly increase.
fn find_in_order(keys: &[u64], order: &[usize], target: u64) -> (r: Option<usize>)
    requires
        forall|q: int| 0 <= q < order@.len() ==> #[trigger] order@[q] < keys@.len(),
        forall|a: int, b: int|
            0 <= a < b < order@.len() ==> keys@[#[trigger] order@[a] as int] < keys@[#[trigger] order@[b] as int],
    ensures
        r matches Some(q) ==> q < order@.len() && keys@[order@[q as int] as int] == target,
        r is None ==> forall|q: int| 0 <= q < order@.len() ==> keys@[#[trigger] order@[q] as int] != target,
{
    let mut lo: usize = 0;
    let mut hi: usize = order.len();
    while lo < hi
        invariant
            0 <= lo <= hi <= order@.len(),
            forall|q: int| 0 <= q < order@.len() ==> #[trigger] order@[q] < keys@.len(),
            forall|a: int, b: int|
                0 <= a < b < order@.len() ==> keys@[#[trigger] order@[a] as int] < keys@[#[trigger] order@[b] as int],
            forall|q: int| 0 <= q < lo ==> keys@[#[trigger] order@[q] as int] < target,
            forall|q: int| hi <= q < order@.len() ==> keys@[#[trigger] order@[q] as int] > target,
        decreases hi - lo,
    {
        let mid = lo + (hi - lo) / 2;
        let k = keys[order[mid]];
        if k == target {
            return Some(mid);
        } else if k < target {
            lo = mid + 1;
        } else {
            hi = mid;
        }
    }
    None
}

/// Number of `Some` entries.
pub open spec fn count_some(s: Seq<Option<usize>>) -> int
    decreases s.len(),
{
    if s.len() == 0 {
        0
    } else {
        count_some(s.drop_last()) + if s.last() is Some {
            1int
        } else {
            0int
        }
    }
}

proof fn lemma_count_some_update(s: Seq<Option<usize>>, i: int, v: usize)
    requires
        0 <= i < s.len(),
        s[i] is None,
    ensures
        count_some(s.update(i, Some(v))) == count_some(s) + 1,
    decreases s.len(),
{
    let u = s.update(i, Some(v));
    if i == s.len() - 1 {
        assert(u.drop_last() =~= s.drop_last());
    } else {
        lemma_count_some_update(s.drop_last(), i, v);
        assert(u.drop_last() =~= s.drop_last().update(i, Some(v)));
    }
}

proof fn lemma_count_some_full(s: Seq<Option<usize>>)
    requires
        count_some(s) == s.len(),
    ensures
        forall|i: int| 0 <= i < s.len() ==> #[trigger] s[i] is Some,
    decreases s.len(),
{
    if s.len() > 0 {
        lemma_count_some_bound(s.drop_last());
        lemma_count_some_full(s.drop_last());
        assert forall|i: int| 0 <= i < s.len() implies #[trigger] s[i] is Some by {
            if i < s.len() - 1 {
                assert(s.drop_last()[i] is Some);
            }
        }
    }
}

proof fn lemma_count_some_bound(s: Seq<Option<usize>>)
    ensures
        0 <= count_some(s) <= s.len(),
    decreases s.len(),
{
    if s.len() > 0 {
        lemma_count_some_bound(s.drop_last());
    }
}

/// What a statistics run gives for decisions `ds` and results `rs`: one entry
/// per decision in increasing mesh order, each pairing the decision with the
/// result for the same mesh, and the totals over the entries.
pub open spec fn statistics_result(
    ds: Seq<DecisionCounts>,
    rs: Seq<MeshRunOutcome>,
    e: Seq<MeshStatisticsCounts>,
    totals: StatisticsTotals,
) -> bool {
    let order = Seq::new(e.len(), |k: int| e[k].decision_position);
    &&& e.len() == ds.len()
    &&& is_key_order(decision_keys(ds), false, order)
    &&& forall|k: int|
        0 <= k < e.len() ==> #[trigger] e[k].decision_position < ds.len() && e[k].result_position < rs.len()
            && rs[e[k].result_position as int].mesh_index == ds[e[k].decision_position as int].mesh_index
            && statistics_entry_matches(e[k], ds[e[k].decision_position as int], rs[e[k].result_position as int])
    &&& totals.status == stats_first_failure(e)
    &&& totals.num_meshes == e.len()
    &&& totals.num_failed_meshes == stats_failed(e)
    &&& totals.num_failed_meshes == e.filter(entry_failed()).len()
    &&& totals.num_simplified_meshes == stats_simplified(e)
    &&& totals.num_simplified_meshes == e.filter(entry_simplified()).len()
    &&& totals.source_triangles == stats_source(e)
    &&& totals.target_triangles == stats_target(e)
    &&& totals.output_triangles == stats_output(e)
}

/// Two orders that both list every position once, each before the next under
/// the same strict order, are the same.
proof fn lemma_key_order_unique(keys: Seq<u64>, descending: bool, o1: Seq<usize>, o2: Seq<usize>, n: int)
    requires
        is_key_order(keys, descending, o1),
        is_key_order(keys, descending, o2),
        0 <= n <= o1.len(),
    ensures
        forall|k: int| 0 <= k < n ==> o1[k] == o2[k],
    decreases n,
{
    if n > 0 {
        lemma_key_order_unique(keys, descending, o1, o2, n - 1);
        let k = n - 1;
        if o1[k] != o2[k] {
            let x1 = o1[k] as int;
            assert(0 <= x1 < keys.len());
            assert(o2.contains(x1 as usize));
            let j = choose|j: int| 0 <= j < o2.len() && o2[j] == o1[k];
            let x2 = o2[k] as int;
            assert(0 <= x2 < keys.len());
            assert(o1.contains(x2 as usize));
            let j2 = choose|j: int| 0 <= j < o1.len() && o1[j] == o2[k];
            if j < k {
                assert(o1[j] == o2[j]);
                assert(key_before(keys, descending, o1[j] as int, o1[k] as int));
            }
            if j2 < k {
                assert(o1[j2] == o2[j2]);
                assert(key_before(keys, descending, o2[j2] as int, o2[k] as int));
            }
            assert(key_before(keys, descending, o2[k] as int, o2[j] as int));
            assert(key_before(keys, descending, o1[k] as int, o1[j2] as int));
        }
    }
}

/// Law: the statistics are fixed by their inputs, so a call that only asks for
/// the number of entries (no buffer, capacity zero) and a second call with a
/// buffer of that capacity both succeed and give the same entries and totals.
pub proof fn lemma_statistics_probe_then_fill(
    ds: Seq<DecisionCounts>,
    rs: Seq<MeshRunOutcome>,
    probe: Seq<MeshStatisticsCounts>,
    probe_totals: StatisticsTotals,
    fill: Seq<MeshStatisticsCounts>,
    fill_totals: StatisticsTotals,
)
    requires
        ds.len() < 0x1_0000_0000,
        statistics_inputs_valid(ds, rs),
        statistics_result(ds, rs, probe, probe_totals),
        statistics_result(ds, rs, fill, fill_totals),
    ensures
        crate::spec_output_buffer_status(probe.len() as u32, false, 0) == crate::QEM_STATUS_SUCCESS,
        crate::spec_output_buffer_status(fill.len() as u32, true, probe.len() as u32) == crate::QEM_STATUS_SUCCESS,
        fill == probe,
        fill_totals == probe_totals,
{
    let o1 = Seq::new(probe.len(), |k: int| probe[k].decision_position);
    let o2 = Seq::new(fill.len(), |k: int| fill[k].decision_position);
    lemma_key_order_unique(decision_keys(ds), false, o1, o2, o1.len() as int);
    assert forall|k: int| 0 <= k < probe.len() implies probe[k] == fill[k] by {
        assert(o1[k] == o2[k]);
        let d = probe[k].decision_position as int;
        assert(probe[k] == fill[k]) by {
            let a = probe[k].result_position as int;
            let b = fill[k].result_position as int;
            if a != b {
                if a < b {
                    assert(rs[a].mesh_index != rs[b].mesh_index);
                } else {
                    assert(rs[b].mesh_index != rs[a].mesh_index);
                }
            }
        }
    }
    assert(fill =~= probe);
}

/// Pairs each result with the decision for the same mesh and counts, in increasing
/// mesh order; `Err(QEM_STATUS_INVALID_ARGUMENT)` when the decisions and results do
/// not describe the same meshes.
pub fn compute_statistics_counts(decisions: &[DecisionCounts], results: &[MeshRunOutcome]) -> (r: Result<
    (Vec<MeshStatisticsCounts>, StatisticsTotals),
    i32,
>)
    requires
        decisions@.len() < 0x1_0000_0000,
        results@.len() < 0x1_0000_0000,
    ensures
        r is Err <==> !statistics_inputs_valid(decisions@, results@),
        r matches Err(code) ==> code == crate::QEM_STATUS_INVALID_ARGUMENT,
        r matches Ok((entries, totals)) ==> statistics_result(decisions@, results@, entries@, totals),
{
    let nd = decisions.len();
    let nr = results.len();
    if nd == 0 || nr == 0 {
        return Err(crate::QEM_STATUS_INVALID_ARGUMENT);
    }
    let mut keys: Vec<u64> = Vec::new();
    let mut i: usize = 0;
    while i < nd
        invariant
            nd == decisions@.len(),
            i <= nd,
            keys@ == decision_keys(decisions@).subrange(0, i as int),
        decreases nd - i,
    {
        keys.push(decisions[i].mesh_index as u64);
        i = i + 1;
    }
    assert(keys@ =~= decision_keys(decisions@));
    let order = sort_indices_by_key(keys.as_slice(), false);
    let ghost ks = keys@;
    let ghost o = order@;
    let mut q: usize = 1;
    while q < nd
        invariant
            nd == decisions@.len(),
            nd == o.len(),
            ks == decision_keys(decisions@),
            o == order@,
            is_key_order(ks, false, o),
            1 <= q <= nd,
            forall|qq: int| 0 < qq < q ==> #[trigger] ks[o[qq - 1] as int] < ks[o[qq] as int],
        decreases nd - q,
    {
        if decisions[order[q - 1]].mesh_index == decisions[order[q]].mesh_index {
            proof {
                let a = o[q - 1] as int;
                let b = o[q as int] as int;
                assert(o[q - 1] != o[q as int]) by {
                    assert(key_before(ks, false, o[q - 1] as int, o[q as int] as int));
                }
                if a < b {
                    assert(decisions@[a].mesh_index == decisions@[b].mesh_index);
                } else {
                    assert(decisions@[b].mesh_index == decisions@[a].mesh_index);
                }
            }
            return Err(crate::QEM_STATUS_INVALID_ARGUMENT);
        }
        q = q + 1;
    }
    proof {
        assert forall|a: int, b: int| 0 <= a < b < o.len() implies ks[#[trigger] o[a] as int] < ks[#[trigger] o[b]
            as int] by {
            lemma_adjacent_increasing(ks, o, a, b);
        }
    }
    let mut matched: Vec<Option<usize>> = Vec::new();
    let mut d: usize = 0;
    while d < nd
        invariant
            d <= nd,
            matched@.len() == d,
            forall|k: int| 0 <= k < d ==> #[trigger] matched@[k] is None,
        decreases nd - d,
    {
        matched.push(None);
        d = d + 1;
    }
    assert(count_some(matched@) == 0) by {
        assert forall|k: int| 0 <= k < matched@.len() implies #[trigger] matched@[k] is None by {}
        lemma_count_none(matched@);
    }
    let mut ri: usize = 0;
    while ri < nr
        invariant
            nd == decisions@.len(),
            nr == results@.len(),
            nd == o.len(),
            ks == decision_keys(decisions@),
            keys@ == ks,
            o == order@,
            is_key_order(ks, false, o),
            forall|a: int, b: int| 0 <= a < b < o.len() ==> ks[#[trigger] o[a] as int] < ks[#[trigger] o[b] as int],
            ri <= nr,
            matched@.len() == nd,
            count_some(matched@) == ri,
            forall|dd: int|
                0 <= dd < nd ==> match #[trigger] matched@[dd] {
                    Some(rp) => rp < ri && results@[rp as int].mesh_index == decisions@[dd].mesh_index,
                    None => forall|rr: int| 0 <= rr < ri ==> results@[rr].mesh_index != decisions@[dd].mesh_index,
                },
            forall|a: int, b: int|
                0 <= a < b < ri ==> #[trigger] results@[a].mesh_index != #[trigger] results@[b].mesh_index,
            forall|rr: int| 0 <= rr < ri ==> #[trigger] decided(decisions@, results@[rr].mesh_index),
        decreases nr - ri,
    {
        let m = results[ri].mesh_index;
        match find_in_order(keys.as_slice(), order.as_slice(), m as u64) {
            None => {
                proof {
                    if decided(decisions@, m) {
                        let dd = choose|dd: int| 0 <= dd < decisions@.len() && decisions@[dd].mesh_index == m;
                        assert(o.contains(dd as usize));
                        let qq = choose|qq: int| 0 <= qq < o.len() && o[qq] == dd as usize;
                        assert(ks[o[qq] as int] == m as u64);
                    }
                }
                return Err(crate::QEM_STATUS_INVALID_ARGUMENT);
            },
            Some(pos) => {
                let dp = order[pos];
                match matched[dp] {
                    Some(prev) => {
                        assert(results@[prev as int].mesh_index == results@[ri as int].mesh_index);
                        return Err(crate::QEM_STATUS_INVALID_ARGUMENT);
                    },
                    None => {
                        proof {
                            lemma_count_some_update(matched@, dp as int, ri);
                            assert(decisions@[dp as int].mesh_index == m);
                        }
                        matched.set(dp, Some(ri));
                        proof {
                            assert forall|dd: int| 0 <= dd < nd && dd != dp as int implies decisions@[dd].mesh_index
                                != m by {
                                assert(o.contains(dd as usize));
                                let qd = choose|qq: int| 0 <= qq < o.len() && o[qq] == dd as usize;
                                if qd < pos as int {
                                    assert(ks[o[qd] as int] < ks[o[pos as int] as int]);
                                } else if qd > pos as int {
                                    assert(ks[o[pos as int] as int] < ks[o[qd] as int]);
                                }
                            }
                            assert forall|a: int, b: int| 0 <= a < b < ri + 1 implies #[trigger] results@[a].mesh_index
                                != #[trigger] results@[b].mesh_index by {
                                if b == ri as int {
                                    assert(decided(decisions@, results@[a].mesh_index));
                                    let dd = choose|dd: int|
                                        0 <= dd < decisions@.len() && decisions@[dd].mesh_index
                                            == results@[a].mesh_index;
                                    if results@[a].mesh_index == m {
                                        if dd != dp as int {
                                            let lo = if dd < dp as int { dd } else { dp as int };
                                            let hi = if dd < dp as int { dp as int } else { dd };
                                            assert(o.contains(dd as usize));
                                            let qd = choose|qq: int| 0 <= qq < o.len() && o[qq] == dd as usize;
                                            assert(ks[o[qd] as int] == ks[o[pos as int] as int]);
                                            if qd < pos as int {
                                                assert(ks[o[qd] as int] < ks[o[pos as int] as int]);
                                            } else if qd > pos as int {
                                                assert(ks[o[pos as int] as int] < ks[o[qd] as int]);
                                            }
                                        }
                                    }
                                }
                            }
                        }
                    },
                }
            },
        }
        ri = ri + 1;
    }
    if nd != nr {
        return Err(crate::QEM_STATUS_INVALID_ARGUMENT);
    }
    proof {
        lemma_count_some_full(matched@);
    }
    let mut entries: Vec<MeshStatisticsCounts> = Vec::new();
    let mut source: u64 = 0;
    let mut target: u64 = 0;
    let mut output: u64 = 0;
    let mut failed: u32 = 0;
    let mut simplified: u32 = 0;
    let mut first_error: i32 = crate::QEM_STATUS_SUCCESS;
    let mut k: usize = 0;
    while k < nd
        invariant
            nd == decisions@.len(),
            nr == results@.len(),
            nd == nr,
            nd < 0x1_0000_0000,
            nd == o.len(),
            o == order@,
            k <= nd,
            matched@.len() == nd,
            forall|q: int| 0 <= q < o.len() ==> #[trigger] o[q] < nd,
            forall|dd: int|
                0 <= dd < nd ==> match #[trigger] matched@[dd] {
                    Some(rp) => rp < nr && results@[rp as int].mesh_index == decisions@[dd].mesh_index,
                    None => false,
                },
            entries@.len() == k,
            forall|kk: int| 0 <= kk < k ==> #[trigger] entries@[kk].decision_position == o[kk],
            forall|kk: int|
                0 <= kk < k ==> #[trigger] entries@[kk].decision_position < nd && entries@[kk].result_position < nr
                    && results@[entries@[kk].result_position as int].mesh_index
                    == decisions@[entries@[kk].decision_position as int].mesh_index && statistics_entry_matches(
                    entries@[kk],
                    decisions@[entries@[kk].decision_position as int],
                    results@[entries@[kk].result_position as int],
                ),
            source == stats_source(entries@),
            target == stats_target(entries@),
            output == stats_output(entries@),
            failed == stats_failed(entries@),
            simplified == stats_simplified(entries@),
            first_error == stats_first_failure(entries@),
            source <= k * 0xffff_ffff,
            target <= k * 0xffff_ffff,
            output <= k * 0xffff_ffff,
            failed <= k,
            simplified <= k,
        decreases nd - k,
    {
        let dp = order[k];
        let rp = match matched[dp] {
            Some(rp) => rp,
            None => {
                return Err(crate::QEM_STATUS_INVALID_ARGUMENT);
            },
        };
        let dec = decisions[dp];
        let res = results[rp];
        let source_tri = if dec.source_triangles > 1 {
            dec.source_triangles
        } else {
            1
        };
        let res_source = if res.source_triangles > 1 {
            res.source_triangles
        } else {
            1
        };
        let requested_raw = if res.requested_triangles > 1 {
            res.requested_triangles
        } else {
            1
        };
        let requested_tri = if requested_raw < res_source {
            requested_raw
        } else {
            res_source
        };
        let output_tri = if res.output_triangles < res_source {
            res.output_triangles
        } else {
            res_source
        };
        let entry = MeshStatisticsCounts {
            decision_position: dp,
            result_position: rp,
            mesh_index: dec.mesh_index,
            mesh_id: dec.mesh_id,
            status: res.status,
            source_triangles: source_tri,
            target_triangles: requested_tri,
            output_triangles: output_tri,
        };
        let ghost before = entries@;
        entries.push(entry);
        assert(entries@.drop_last() =~= before);
        proof {
            assert(statistics_entry_matches(entry, decisions@[dp as int], results@[rp as int]));
            assert forall|kk: int| 0 <= kk < k + 1 implies #[trigger] entries@[kk].decision_position < nd
                && entries@[kk].result_position < nr && results@[entries@[kk].result_position as int].mesh_index
                == decisions@[entries@[kk].decision_position as int].mesh_index && statistics_entry_matches(
                entries@[kk],
                decisions@[entries@[kk].decision_position as int],
                results@[entries@[kk].result_position as int],
            ) by {
                if kk < k {
                    assert(entries@[kk] == before[kk]);
                } else {
                    assert(entries@[kk] == entry);
                }
            }
        }
        source = source + source_tri as u64;
        target = target + requested_tri as u64;
        output = output + output_tri as u64;
        if res.status != crate::QEM_STATUS_SUCCESS {
            failed = failed + 1;
            if first_error == crate::QEM_STATUS_SUCCESS {
                first_error = res.status;
            }
        } else if output_tri < source_tri {
            simplified = simplified + 1;
        }
        k = k + 1;
    }
    proof {
        let e = entries@;
        let order_of_entries = Seq::new(e.len(), |kk: int| e[kk].decision_position);
        assert(order_of_entries =~= o);
        assert forall|a: int, b: int| 0 <= a < b < decisions@.len() implies #[trigger] decisions@[a].mesh_index
            != #[trigger] decisions@[b].mesh_index by {
            assert(o.contains(a as usize));
            assert(o.contains(b as usize));
            let qa = choose|qq: int| 0 <= qq < o.len() && o[qq] == a as usize;
            let qb = choose|qq: int| 0 <= qq < o.len() && o[qq] == b as usize;
            if qa < qb {
                assert(ks[o[qa] as int] < ks[o[qb] as int]);
            } else {
                assert(ks[o[qb] as int] < ks[o[qa] as int]);
            }
        }
    }
    let totals = StatisticsTotals {
        status: first_error,
        num_meshes: nd as u32,
        num_failed_meshes: failed,
        num_simplified_meshes: simplified,
        source_triangles: source,
        target_triangles: target,
        output_triangles: output,
    };
    proof {
        lemma_stats_counts(entries@);
    }
    Ok((entries, totals))
}

proof fn lemma_count_none(s: Seq<Option<usize>>)
    requires
        forall|k: int| 0 <= k < s.len() ==> #[trigger] s[k] is None,
    ensures
        count_some(s) == 0,
    decreases s.len(),
{
    if s.len() > 0 {
        lemma_count_none(s.drop_last());
    }
}

/// A placement of a mesh under a scene node.
#[derive(Clone, Copy, Debug)]
pub struct MeshBinding {
    pub node_index: u32,
    pub mesh_index: u32,
}

/// Why a binding cannot be used.
#[derive(Clone, Copy, Debug, PartialEq, Eq)]
pub enum BindingError {
    MeshIndexOutOfRange { mesh_index: u32 },
    NodeIndexOutOfRange { node_index: u32 },
}

/// The binding names a mesh and a node that exist.
pub open spec fn binding_valid(b: MeshBinding, num_meshes: nat, num_nodes: nat) -> bool {
    b.mesh_index < num_meshes && b.node_index < num_nodes
}

/// The error for an unusable binding: its mesh, if that is out of range, else its node.
pub open spec fn binding_error(b: MeshBinding, num_meshes: nat) -> BindingError {
    if b.mesh_index >= num_meshes {
        BindingError::MeshIndexOutOfRange { mesh_index: b.mesh_index }
    } else {
        BindingError::NodeIndexOutOfRange { node_index: b.node_index }
    }
}

/// Number of bindings among the first `n` that place mesh `m`.
pub open spec fn bindings_of(bs: Seq<MeshBinding>, m: int, n: int) -> int
    decreases n,
{
    if n <= 0 {
        0
    } else {
        bindings_of(bs, m, n - 1) + if bs[n - 1].mesh_index == m {
            1int
        } else {
            0int
        }
    }
}

proof fn lemma_bindings_of_bound(bs: Seq<MeshBinding>, m: int, n: int)
    requires
        n >= 0,
    ensures
        0 <= bindings_of(bs, m, n) <= n,
    decreases n,
{
    if n > 0 {
        lemma_bindings_of_bound(bs, m, n - 1);
    }
}

/// Instances of each mesh: the number of bindings that place it, counted as one
/// when there are none. Fails on the first binding naming a missing mesh or node.
pub fn count_mesh_instances(bindings: &[MeshBinding], num_meshes: usize, num_nodes: usize) -> (r: Result<
    Vec<u32>,
    BindingError,
>)
    requires
        bindings@.len() < 0x1_0000_0000,
    ensures
        r is Ok <==> forall|j: int| 0 <= j < bindings@.len() ==> #[trigger] binding_valid(
            bindings@[j],
            num_meshes as nat,
            num_nodes as nat,
        ),
        r matches Err(e) ==> exists|j: int|
            0 <= j < bindings@.len() && !#[trigger] binding_valid(bindings@[j], num_meshes as nat, num_nodes as nat)
                && e == binding_error(bindings@[j], num_meshes as nat) && forall|k: int|
                0 <= k < j ==> binding_valid(bindings@[k], num_meshes as nat, num_nodes as nat),
        r matches Ok(counts) ==> counts@.len() == num_meshes && forall|m: int|
            0 <= m < num_meshes ==> #[trigger] counts@[m] == if bindings_of(bindings@, m, bindings@.len() as int)
                == 0 {
                1
            } else {
                bindings_of(bindings@, m, bindings@.len() as int)
            },
{
    let mut counts: Vec<u32> = Vec::new();
    let mut m: usize = 0;
    while m < num_meshes
        invariant
            m <= num_meshes,
            counts@.len() == m,
            forall|k: int| 0 <= k < m ==> #[trigger] counts@[k] == 0,
        decreases num_meshes - m,
    {
        counts.push(0);
        m = m + 1;
    }
    let n = bindings.len();
    let mut j: usize = 0;
    while j < n
        invariant
            n == bindings@.len(),
            n < 0x1_0000_0000,
            j <= n,
            counts@.len() == num_meshes,
            forall|k: int| 0 <= k < j ==> #[trigger] binding_valid(bindings@[k], num_meshes as nat, num_nodes as nat),
            forall|mm: int| 0 <= mm < num_meshes ==> #[trigger] counts@[mm] == bindings_of(bindings@, mm, j as int),
        decreases n - j,
    {
        let b = bindings[j];
        if b.mesh_index as usize >= num_meshes {
            assert(!binding_valid(bindings@[j as int], num_meshes as nat, num_nodes as nat));
            assert(binding_error(bindings@[j as int], num_meshes as nat) == BindingError::MeshIndexOutOfRange {
                mesh_index: b.mesh_index,
            });
            return Err(BindingError::MeshIndexOutOfRange { mesh_index: b.mesh_index });
        }
        if b.node_index as usize >= num_nodes {
            assert(!binding_valid(bindings@[j as int], num_meshes as nat, num_nodes as nat));
            return Err(BindingError::NodeIndexOutOfRange { node_index: b.node_index });
        }
        let mi = b.mesh_index as usize;
        proof {
            lemma_bindings_of_bound(bindings@, mi as int, j as int);
        }
        let c = counts[mi];
        counts.set(mi, c + 1);
        j = j + 1;
    }
    let mut m: usize = 0;
    while m < num_meshes
        invariant
            m <= num_meshes,
            n == bindings@.len(),
            counts@.len() == num_meshes,
            forall|mm: int| m <= mm < num_meshes ==> #[trigger] counts@[mm] == bindings_of(bindings@, mm, n as int),
            forall|mm: int|
                0 <= mm < m ==> #[trigger] counts@[mm] == if bindings_of(bindings@, mm, n as int) == 0 {
                    1
                } else {
                    bindings_of(bindings@, mm, n as int)
                },
        decreases num_meshes - m,
    {
        if counts[m] == 0 {
            counts.set(m, 1);
        }
        m = m + 1;
    }
    Ok(counts)
}

/// Following parents from node `i`, a root (negative parent) comes within `k`
/// steps and every parent on the way is a node.
pub open spec fn reaches_root_within(parents: Seq<i32>, i: int, k: nat) -> bool
    decreases k,
{
    if parents[i] < 0 {
        true
    } else if parents[i] >= parents.len() {
        false
    } else if k == 0 {
        false
    } else {
        reaches_root_within(parents, parents[i] as int, (k - 1) as nat)
    }
}

/// Number of parent steps from node `i` to its root, following at most `k` steps.
pub open spec fn depth_within(parents: Seq<i32>, i: int, k: nat) -> nat
    decreases k,
{
    if parents[i] < 0 || parents[i] >= parents.len() || k == 0 {
        0
    } else {
        1 + depth_within(parents, parents[i] as int, (k - 1) as nat)
    }
}

/// Every node reaches a root through nodes that exist. Following at most as many
/// steps as there are nodes loses nothing: a longer walk would repeat a node.
pub open spec fn hierarchy_valid(parents: Seq<i32>) -> bool {
    forall|i: int| 0 <= i < parents.len() ==> #[trigger] reaches_root_within(parents, i, parents.len())
}

proof fn lemma_depth_stable(parents: Seq<i32>, i: int, k: nat)
    requires
        0 <= i < parents.len(),
        reaches_root_within(parents, i, k),
    ensures
        reaches_root_within(parents, i, k + 1),
        depth_within(parents, i, k + 1) == depth_within(parents, i, k),
        depth_within(parents, i, k) <= k,
    decreases k,
{
    if parents[i] >= 0 && k > 0 {
        lemma_depth_stable(parents, parents[i] as int, (k - 1) as nat);
        assert((k + 1 - 1) as nat == ((k - 1) as nat + 1) as nat);
    }
}

/// An order of the nodes in which every parent comes before its children (nodes
/// by increasing depth, ties by position); `None` when some node does not reach a
/// root through existing nodes.
pub fn node_processing_order(parents: &[i32]) -> (r: Option<Vec<usize>>)
    requires
        parents@.len() < 0x1_0000_0000,
    ensures
        r is Some <==> hierarchy_valid(parents@),
        r matches Some(order) ==> {
            let depths = Seq::new(parents@.len(), |i: int| depth_within(parents@, i, parents@.len()) as u64);
            &&& is_key_order(depths, false, order@)
            &&& forall|qa: int, qb: int|
                #![trigger order@[qa], order@[qb]]
                0 <= qa < order@.len() && 0 <= qb < order@.len() && parents@[order@[qb] as int] >= 0
                    && parents@[order@[qb] as int] == order@[qa] ==> qa < qb
        },
{
    let n = parents.len();
    let mut depths: Vec<u64> = Vec::new();
    let mut i: usize = 0;
    while i < n
        invariant
            n == parents@.len(),
            n < 0x1_0000_0000,
            i <= n,
            depths@.len() == i,
            forall|k: int| 0 <= k < i ==> #[trigger] reaches_root_within(parents@, k, n as nat),
            forall|k: int| 0 <= k < i ==> #[trigger] depths@[k] == depth_within(parents@, k, n as nat),
        decreases n - i,
    {
        let mut cur: usize = i;
        let mut budget: usize = n;
        let mut steps: u64 = 0;
        loop
            invariant
                n == parents@.len(),
                n < 0x1_0000_0000,
                i < n,
                cur < n,
                budget <= n,
                steps + budget == n,
                reaches_root_within(parents@, i as int, n as nat) == reaches_root_within(
                    parents@,
                    cur as int,
                    budget as nat,
                ),
                depth_within(parents@, i as int, n as nat) == steps + depth_within(
                    parents@,
                    cur as int,
                    budget as nat,
                ),
            ensures
                reaches_root_within(parents@, i as int, n as nat),
                depth_within(parents@, i as int, n as nat) == steps,
            decreases budget,
        {
            let p = parents[cur];
            if p < 0 {
                break;
            }
            if p as usize >= n || budget == 0 {
                assert(!reaches_root_within(parents@, i as int, n as nat));
                assert(!hierarchy_valid(parents@));
                return None;
            }
            cur = p as usize;
            budget = budget - 1;
            steps = steps + 1;
        }
        depths.push(steps);
        i = i + 1;
    }
    let order = sort_indices_by_key(depths.as_slice(), false);
    proof {
        let ds = Seq::new(parents@.len(), |k: int| depth_within(parents@, k, parents@.len()) as u64);
        assert(depths@ =~= ds);
        let o = order@;
        assert forall|qa: int, qb: int|
            #![trigger o[qa], o[qb]]
            0 <= qa < o.len() && 0 <= qb < o.len() && parents@[o[qb] as int] >= 0 && parents@[o[qb] as int]
                == o[qa] implies qa < qb by {
            let c = o[qb] as int;
            let p = o[qa] as int;
            assert(reaches_root_within(parents@, c, n as nat));
            assert(n > 0);
            assert(reaches_root_within(parents@, p, (n - 1) as nat));
            lemma_depth_stable(parents@, p, (n - 1) as nat);
            assert(depth_within(parents@, c, n as nat) == 1 + depth_within(parents@, p, (n - 1) as nat));
            assert(ds[p] < ds[c]);
            if qa >= qb {
                if qa > qb {
                    assert(key_before(ds, false, o[qb] as int, o[qa] as int));
                }
            }
        }
    }
    Some(order)
}


/// A run outcome that succeeded with fewer output than source triangles.
pub open spec fn outcome_simplified() -> spec_fn(MeshRunOutcome) -> bool {
    |o: MeshRunOutcome| o.status == crate::QEM_STATUS_SUCCESS && o.output_triangles < o.source_triangles
}

/// A statistics entry whose status is not success.
pub open spec fn entry_failed() -> spec_fn(MeshStatisticsCounts) -> bool {
    |e: MeshStatisticsCounts| e.status != crate::QEM_STATUS_SUCCESS
}

/// A statistics entry whose status is success.
pub open spec fn entry_succeeded() -> spec_fn(MeshStatisticsCounts) -> bool {
    |e: MeshStatisticsCounts| e.status == crate::QEM_STATUS_SUCCESS
}

/// A statistics entry that succeeded with fewer output than source triangles.
pub open spec fn entry_simplified() -> spec_fn(MeshStatisticsCounts) -> bool {
    |e: MeshStatisticsCounts| e.status == crate::QEM_STATUS_SUCCESS && e.output_triangles < e.source_triangles
}

/// Law: the simplified meshes of a run are exactly the outcomes that succeeded
/// with fewer output triangles than source triangles.
pub proof fn lemma_count_simplified_counts(s: Seq<MeshRunOutcome>)
    ensures
        count_simplified(s) == s.filter(outcome_simplified()).len(),
    decreases s.len(),
{
    reveal(Seq::filter);
    if s.len() > 0 {
        lemma_count_simplified_counts(s.drop_last());
    }
}

/// Law: a run's status is success exactly when every outcome succeeded, and
/// otherwise it is the status of the first outcome that did not.
pub proof fn lemma_first_failure_is_first(s: Seq<MeshRunOutcome>)
    ensures
        first_failure(s) == crate::QEM_STATUS_SUCCESS <==> forall|i: int|
            0 <= i < s.len() ==> #[trigger] s[i].status == crate::QEM_STATUS_SUCCESS,
        forall|i: int|
            0 <= i < s.len() && #[trigger] s[i].status != crate::QEM_STATUS_SUCCESS && (forall|j: int|
                0 <= j < i ==> s[j].status == crate::QEM_STATUS_SUCCESS) ==> first_failure(s) == s[i].status,
    decreases s.len(),
{
    if s.len() > 0 {
        let t = s.drop_last();
        lemma_first_failure_is_first(t);
        assert forall|i: int| 0 <= i < t.len() implies t[i] == s[i] by {}
        if first_failure(s) == crate::QEM_STATUS_SUCCESS {
            assert forall|i: int| 0 <= i < s.len() implies #[trigger] s[i].status == crate::QEM_STATUS_SUCCESS by {
                if i < t.len() {
                    assert(t[i].status == crate::QEM_STATUS_SUCCESS);
                }
            }
        }
        assert forall|i: int|
            0 <= i < s.len() && #[trigger] s[i].status != crate::QEM_STATUS_SUCCESS && (forall|j: int|
                0 <= j < i ==> s[j].status == crate::QEM_STATUS_SUCCESS) implies first_failure(s) == s[i].status by {
            if i < t.len() {
                assert(t[i].status != crate::QEM_STATUS_SUCCESS);
                assert(forall|j: int| 0 <= j < i ==> t[j].status == crate::QEM_STATUS_SUCCESS);
            } else {
                assert(forall|j: int| 0 <= j < t.len() ==> #[trigger] t[j].status == crate::QEM_STATUS_SUCCESS);
            }
        }
    }
}

/// Law: the failed entries of the statistics are exactly those whose status is
/// not success, the simplified ones are those that succeeded with fewer output
/// than source triangles, failed and successful entries together are all of
/// them, and the summary status is success exactly when no entry failed,
/// otherwise the status of the first entry that did.
pub proof fn lemma_stats_counts(e: Seq<MeshStatisticsCounts>)
    ensures
        stats_failed(e) == e.filter(entry_failed()).len(),
        stats_simplified(e) == e.filter(entry_simplified()).len(),
        stats_failed(e) + e.filter(entry_succeeded()).len() == e.len(),
        stats_first_failure(e) == crate::QEM_STATUS_SUCCESS <==> stats_failed(e) == 0,
        forall|i: int|
            0 <= i < e.len() && #[trigger] e[i].status != crate::QEM_STATUS_SUCCESS && (forall|j: int|
                0 <= j < i ==> e[j].status == crate::QEM_STATUS_SUCCESS) ==> stats_first_failure(e) == e[i].status,
    decreases e.len(),
{
    reveal(Seq::filter);
    if e.len() > 0 {
        let t = e.drop_last();
        lemma_stats_counts(t);
        assert forall|i: int| 0 <= i < t.len() implies t[i] == e[i] by {}
        assert forall|i: int|
            0 <= i < e.len() && #[trigger] e[i].status != crate::QEM_STATUS_SUCCESS && (forall|j: int|
                0 <= j < i ==> e[j].status == crate::QEM_STATUS_SUCCESS) implies stats_first_failure(e) == e[i].status by {
            if i < t.len() {
                assert(t[i].status != crate::QEM_STATUS_SUCCESS);
                assert(forall|j: int| 0 <= j < i ==> t[j].status == crate::QEM_STATUS_SUCCESS);
            } else {
                lemma_stats_all_success(t);
            }
        }
        if stats_first_failure(t) == crate::QEM_STATUS_SUCCESS {
            lemma_stats_all_success(t);
        }
    }
}

proof fn lemma_stats_all_success(e: Seq<MeshStatisticsCounts>)
    ensures
        (forall|j: int| 0 <= j < e.len() ==> #[trigger] e[j].status == crate::QEM_STATUS_SUCCESS) <==> stats_failed(e)
            == 0,
        stats_failed(e) >= 0,
        stats_first_failure(e) == crate::QEM_STATUS_SUCCESS <==> stats_failed(e) == 0,
    decreases e.len(),
{
    if e.len() > 0 {
        let t = e.drop_last();
        lemma_stats_all_success(t);
        assert forall|i: int| 0 <= i < t.len() implies t[i] == e[i] by {}
        if stats_failed(e) == 0 {
            assert forall|j: int| 0 <= j < e.len() implies #[trigger] e[j].status == crate::QEM_STATUS_SUCCESS by {
                if j < t.len() {
                    assert(t[j].status == crate::QEM_STATUS_SUCCESS);
                }
            }
        }
        if forall|j: int| 0 <= j < e.len() ==> #[trigger] e[j].status == crate::QEM_STATUS_SUCCESS {
            assert(e[e.len() - 1].status == crate::QEM_STATUS_SUCCESS);
            assert forall|j: int| 0 <= j < t.len() implies #[trigger] t[j].status == crate::QEM_STATUS_SUCCESS by {
                assert(e[j].status == crate::QEM_STATUS_SUCCESS);
            }
        }
    }
}


/// Law: the triangle totals of a run add up over its parts: the totals of two
/// runs laid end to end are the sums of their totals, and the totals of a single
/// outcome are its own counts.
pub proof fn lemma_run_totals_add(s: Seq<MeshRunOutcome>, t: Seq<MeshRunOutcome>)
    ensures
        total_source(s + t) == total_source(s) + total_source(t),
        total_requested(s + t) == total_requested(s) + total_requested(t),
        total_output(s + t) == total_output(s) + total_output(t),
        forall|o: MeshRunOutcome| #[trigger] total_source(seq![o]) == o.source_triangles && total_requested(seq![o])
            == o.requested_triangles && total_output(seq![o]) == o.output_triangles,
    decreases t.len(),
{
    assert forall|o: MeshRunOutcome| #[trigger] total_source(seq![o]) == o.source_triangles && total_requested(seq![o])
        == o.requested_triangles && total_output(seq![o]) == o.output_triangles by {
        let one = seq![o];
        assert(one.drop_last() =~= Seq::<MeshRunOutcome>::empty());
        assert(one.len() == 1 && one.last() == o);
        assert(total_source(one.drop_last()) == 0);
        assert(total_requested(one.drop_last()) == 0);
        assert(total_output(one.drop_last()) == 0);
    }
    if t.len() == 0 {
        assert(s + t =~= s);
    } else {
        lemma_run_totals_add(s, t.drop_last());
        assert((s + t).drop_last() =~= s + t.drop_last());
        assert((s + t).last() == t.last());
    }
}

/// Law: the triangle totals of statistics entries add up over their parts, and
/// those of a single entry are its own counts.
pub proof fn lemma_stats_totals_add(s: Seq<MeshStatisticsCounts>, t: Seq<MeshStatisticsCounts>)
    ensures
        stats_source(s + t) == stats_source(s) + stats_source(t),
        stats_target(s + t) == stats_target(s) + stats_target(t),
        stats_output(s + t) == stats_output(s) + stats_output(t),
        forall|e: MeshStatisticsCounts| #[trigger] stats_source(seq![e]) == e.source_triangles && stats_target(seq![e])
            == e.target_triangles && stats_output(seq![e]) == e.output_triangles,
    decreases t.len(),
{
    assert forall|e: MeshStatisticsCounts| #[trigger] stats_source(seq![e]) == e.source_triangles && stats_target(
        seq![e],
    ) == e.target_triangles && stats_output(seq![e]) == e.output_triangles by {
        let one = seq![e];
        assert(one.drop_last() =~= Seq::<MeshStatisticsCounts>::empty());
        assert(one.len() == 1 && one.last() == e);
        assert(stats_source(one.drop_last()) == 0);
        assert(stats_target(one.drop_last()) == 0);
        assert(stats_output(one.drop_last()) == 0);
    }
    if t.len() == 0 {
        assert(s + t =~= s);
    } else {
        lemma_stats_totals_add(s, t.drop_last());
        assert((s + t).drop_last() =~= s + t.drop_last());
        assert((s + t).last() == t.last());
    }
}

} // verus!
