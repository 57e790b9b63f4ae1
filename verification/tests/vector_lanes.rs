use lazysimd::vector::compare_equal;
use lazysimd::vector::load_vector128;
use lazysimd::vector::movemask;
use lazysimd::vector::vector128_create;

#[test]
fn broadcast_fills_all_lanes() {
    let v = vector128_create(0x5A);
    for l in 0..16 {
        assert_eq!(v.lane(l), 0x5A);
    }
}

#[test]
fn load_reads_sixteen_bytes_unaligned() {
    let buf: Vec<u8> = (0u8..20).collect();
    let v = load_vector128(&buf, 3);
    for l in 0..16 {
        assert_eq!(v.lane(l), (3 + l) as u8);
    }
}

#[test]
fn load_zero_fills_past_the_end() {
    let buf = [9u8, 8, 7];
    let v = load_vector128(&buf, 1);
    assert_eq!(v.lane(0), 8);
    assert_eq!(v.lane(1), 7);
    for l in 2..16 {
        assert_eq!(v.lane(l), 0);
    }
}

#[test]
fn compare_equal_marks_lanes_with_all_ones() {
    let a = vector128_create(0x33);
    let mut bytes = [0u8; 16];
    bytes[0] = 0x33;
    bytes[9] = 0x33;
    let b = load_vector128(&bytes, 0);
    let eq = compare_equal(&a, &b);
    for l in 0..16 {
        let expected = if l == 0 || l == 9 { 0xFF } else { 0x00 };
        assert_eq!(eq.lane(l), expected);
    }
}

#[test]
fn movemask_sets_one_bit_per_matching_lane() {
    let a = vector128_create(0x07);
    let mut bytes = [0u8; 16];
    bytes[0] = 0x07;
    bytes[5] = 0x07;
    bytes[15] = 0x07;
    let b = load_vector128(&bytes, 0);
    let m = movemask(&compare_equal(&a, &b));
    assert_eq!(m, (1 << 0) | (1 << 5) | (1 << 15));
}

#[test]
fn movemask_is_zero_when_no_lane_matches() {
    let a = vector128_create(0x07);
    let b = vector128_create(0x08);
    assert_eq!(movemask(&compare_equal(&a, &b)), 0);
}
