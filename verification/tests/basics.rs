use falcon_plonky3::bits::{quot_to_bits_le, u32_to_bits_le};
use falcon_plonky3::field::{f_add, f_from_u32, f_mul, f_sub};
use falcon_plonky3::full_verify::first_failure;
use falcon_plonky3::params::next_power_of_two;
use falcon_plonky3::trace::TraceMatrix;
use falcon_plonky3::{KOALA_BEAR_PRIME, MODULUS, N, SIG_L2_BOUND};

#[test]
fn bits_of_small_values() {
    assert_eq!(u32_to_bits_le(5, 4), vec![1, 0, 1, 0]);
    assert_eq!(u32_to_bits_le(0xFFFF_FFFF, 3), vec![1, 1, 1]);
    assert_eq!(u32_to_bits_le(6, 0), Vec::<u16>::new());
    let b = quot_to_bits_le(12288);
    let mut v: u32 = 0;
    for (i, bit) in b.iter().enumerate() {
        assert!(*bit <= 1);
        v += (*bit as u32) << i;
    }
    assert_eq!(v, 12288);
    assert_eq!(quot_to_bits_le(1), [1, 0, 0, 0, 0, 0, 0, 0, 0, 0, 0, 0, 0, 0]);
}

#[test]
fn field_operations_reduce_mod_koala_bear() {
    let p = KOALA_BEAR_PRIME;
    assert_eq!(f_add(p - 1, 5), 4);
    assert_eq!(f_sub(3, 5), p - 2);
    assert_eq!(f_mul(p - 1, p - 1), 1);
    assert_eq!(f_mul(12288, 12288), 12288 * 12288);
    assert_eq!(f_from_u32(u32::MAX), u32::MAX - 2 * p);
    assert_eq!(f_from_u32(7), 7);
}

#[test]
fn next_power_of_two_values() {
    assert_eq!(next_power_of_two(0), 1);
    assert_eq!(next_power_of_two(1), 1);
    assert_eq!(next_power_of_two(5), 8);
    assert_eq!(next_power_of_two(1024), 1024);
    assert_eq!(next_power_of_two(1025), 2048);
    assert_eq!(next_power_of_two(37888), 65536);
}

#[test]
fn trace_matrix_rows() {
    let m = TraceMatrix::new(vec![1, 2, 3, 4, 5, 6], 3);
    assert_eq!(m.height(), 2);
    assert_eq!(m.row(0), vec![1, 2, 3]);
    assert_eq!(m.row(1), vec![4, 5, 6]);
}

#[test]
fn falcon_parameters() {
    assert_eq!(N, 1024);
    assert_eq!(MODULUS, 12289);
    assert_eq!(SIG_L2_BOUND, 70265242);
    assert_eq!(KOALA_BEAR_PRIME, (1u32 << 31) - (1u32 << 24) + 1);
}

#[test]
fn first_failure_in_order() {
    assert_eq!(first_failure(&[true, true, true]), None);
    assert_eq!(first_failure(&[]), None);
    assert_eq!(first_failure(&[true, false, false]), Some(1));
    assert_eq!(first_failure(&[false, true]), Some(0));
}

