use qem_simplifier::hash::{murmur32, murmur_finalize32, next_power_of_two, FHashTable, INVALID_INDEX};
use qem_simplifier::simplifier::{
    add_unique_pair, cycle3, cycle3_offset, f32_bits_equal, hash_position, positions_equal, FPair, Vector3Bits,
};

fn bits(x: f32, y: f32, z: f32) -> Vector3Bits {
    Vector3Bits { x: x.to_bits(), y: y.to_bits(), z: z.to_bits() }
}

#[test]
fn murmur_finalize_known_values() {
    assert_eq!(murmur_finalize32(0), 0);
    assert_eq!(murmur_finalize32(1), 1364076727);
    assert_eq!(murmur_finalize32(0xdead_beef), 233162409);
}

#[test]
fn murmur32_known_values() {
    assert_eq!(murmur32(&[]), 0);
    assert_eq!(murmur32(&[1]), 2277397642);
    assert_eq!(murmur32(&[1, 2, 3]), 3026573899);
}

#[test]
fn hash_position_known_value() {
    assert_eq!(hash_position(bits(1.0, 2.0, 3.0)), 2714843740);
    assert_eq!(hash_position(bits(0.0, 0.0, 0.0)), 4235135213);
}

#[test]
fn hash_position_treats_signed_zeros_alike() {
    let a = bits(-0.0, 1.0, 0.0);
    let b = bits(0.0, 1.0, -0.0);
    assert_ne!(a, b);
    assert!(positions_equal(&a, &b));
    assert_eq!(hash_position(a), hash_position(b));
    assert_eq!(hash_position(a), 2095913584);
}

#[test]
fn float_bit_equality_follows_ieee() {
    assert!(f32_bits_equal(0.0f32.to_bits(), (-0.0f32).to_bits()));
    assert!(f32_bits_equal(1.5f32.to_bits(), 1.5f32.to_bits()));
    assert!(!f32_bits_equal(f32::NAN.to_bits(), f32::NAN.to_bits()));
    assert!(!f32_bits_equal(1.0f32.to_bits(), 2.0f32.to_bits()));
    assert!(f32_bits_equal(f32::INFINITY.to_bits(), f32::INFINITY.to_bits()));
}

#[test]
fn cycle3_walks_triangle_corners() {
    assert_eq!(cycle3(0), 1);
    assert_eq!(cycle3(1), 2);
    assert_eq!(cycle3(2), 0);
    assert_eq!(cycle3(5), 3);
    assert_eq!(cycle3(cycle3(cycle3(7))), 7);
    assert_eq!(cycle3_offset(4, 2), 3);
    assert_eq!(cycle3_offset(3, 2), 5);
    assert_eq!(cycle3_offset(8, 1), cycle3(8));
    assert_eq!(cycle3_offset(8, 3), 8);
}

#[test]
fn next_power_of_two_matches_std() {
    for v in [0u32, 1, 2, 3, 5, 31, 32, 33, 1000, 0x8000_0000] {
        assert_eq!(next_power_of_two(v), v.next_power_of_two());
    }
}

#[test]
fn hash_table_chains_newest_first() {
    let mut t = FHashTable::new(4, 8);
    t.add(5, 2);
    t.add(1, 3);
    assert_eq!(t.first(1), 3);
    assert_eq!(t.next(3), 2);
    assert_eq!(t.next(2), INVALID_INDEX);
    assert!(t.is_valid(2));
    assert!(!t.is_valid(INVALID_INDEX));
    assert_eq!(t.first(0), INVALID_INDEX);
}

#[test]
fn hash_table_remove_undoes_add() {
    let mut t = FHashTable::new(8, 16);
    t.add(3, 4);
    assert_eq!(t.first(3), 4);
    t.add(3, 9);
    t.remove(3, 9);
    assert_eq!(t.first(3), 4);
    assert_eq!(t.next(4), INVALID_INDEX);
    t.remove(3, 4);
    assert_eq!(t.first(3), INVALID_INDEX);
}

#[test]
fn hash_table_remove_from_middle_of_chain() {
    let mut t = FHashTable::new(2, 8);
    t.add(0, 1);
    t.add(2, 2);
    t.add(4, 3);
    t.remove(2, 2);
    assert_eq!(t.first(0), 3);
    assert_eq!(t.next(3), 1);
    assert_eq!(t.next(1), INVALID_INDEX);
    t.remove(0, 7);
    assert_eq!(t.first(0), 3);
}

#[test]
fn hash_table_grows_for_large_index() {
    let mut t = FHashTable::new(4, 0);
    t.add(7, 40);
    assert_eq!(t.first(7), 40);
    assert_eq!(t.next(40), INVALID_INDEX);
    t.add(7, 63);
    assert_eq!(t.next(63), 40);
}

#[test]
fn hash_table_clear_and_resize() {
    let mut t = FHashTable::new(4, 4);
    t.add(1, 1);
    t.clear();
    assert_eq!(t.first(1), INVALID_INDEX);
    t.resize(16);
    t.add(2, 15);
    assert_eq!(t.first(2), 15);
    t.clear_with_size(8, 2);
    assert_eq!(t.first(2), INVALID_INDEX);
}

#[test]
fn unique_pairs_are_filed_once() {
    let a = bits(1.0, 2.0, 3.0);
    let b = bits(0.0, 0.0, 0.0);
    let mut h0 = FHashTable::new(16, 0);
    let mut h1 = FHashTable::new(16, 0);
    let mut pairs: Vec<FPair> = Vec::new();

    let mut p = FPair { position0: b, position1: a };
    assert!(add_unique_pair(&mut h0, &mut h1, &pairs, &mut p, 0));
    assert_eq!(p.position0, a);
    assert_eq!(p.position1, b);
    pairs.push(p);
    assert_eq!(h0.first(hash_position(a)), 0);
    assert_eq!(h1.first(hash_position(b)), 0);

    let mut q = FPair { position0: a, position1: bits(-0.0, 0.0, 0.0) };
    assert!(!add_unique_pair(&mut h0, &mut h1, &pairs, &mut q, 1));
    assert_eq!(h0.next(0), INVALID_INDEX);

    let mut r = FPair { position0: a, position1: bits(5.0, 0.0, 0.0) };
    let filed = add_unique_pair(&mut h0, &mut h1, &pairs, &mut r, 1);
    assert!(filed);
}

#[test]
fn murmur_finalize_separates_inputs() {
    let mut outs: Vec<u32> = (0u32..4096).map(murmur_finalize32).collect();
    outs.extend([u32::MAX, 0x8000_0000, 0x7fff_ffff].iter().map(|&x| murmur_finalize32(x)));
    outs.sort();
    outs.dedup();
    assert_eq!(outs.len(), 4099);
}
