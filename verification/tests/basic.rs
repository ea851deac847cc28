use lair_core::field::{Fp, P};
use lair_core::words::{into_u64, word_to_fields, wrap_add, wrap_sub, wrap_mul, divrem};

#[test]
fn it_works() {
    let result = lair_core::add(2, 2);
    assert_eq!(result, 4);
}

#[test]
fn field_arithmetic_is_exact_modular() {
    let f = Fp::from_u32;
    assert_eq!(f(3).add(f(4)).as_u32(), 7);
    assert_eq!(f(P - 1).add(f(1)).as_u32(), 0);
    assert_eq!(f(0).sub(f(1)).as_u32(), P - 1);
    assert_eq!(f(5).sub(f(2)).as_u32(), 3);
    assert_eq!(f(3).mul(f(4)).as_u32(), 12);
    // (P - 1)^2 = P^2 - 2P + 1 == 1 (mod P)
    assert_eq!(f(P - 1).mul(f(P - 1)).as_u32(), 1);
    assert_eq!(Fp::zero().as_u32(), 0);
}

#[test]
fn word_encoding_round_trips() {
    for &x in &[0u64, 1, 255, 256, 65536, u64::MAX, 0x0123_4567_89ab_cdef] {
        let fields = word_to_fields(x);
        assert_eq!(fields.len(), 8);
        assert_eq!(into_u64(&fields), x);
    }
    let fields = word_to_fields(258);
    assert_eq!(fields[0].as_u32(), 2);
    assert_eq!(fields[1].as_u32(), 1);
}

#[test]
fn wrapping_ops_match_native_semantics() {
    assert_eq!(wrap_add(u64::MAX, 1), 0);
    assert_eq!(wrap_add(200, 56), 256);
    assert_eq!(wrap_sub(0, 1), u64::MAX);
    assert_eq!(wrap_sub(256, 1), 255);
    assert_eq!(wrap_mul(1 << 63, 2), 0);
    assert_eq!(wrap_mul(3, 5), 15);
    assert_eq!(divrem(65536, 7), (9362, 2));
    // the documented divide-by-zero convention
    assert_eq!(divrem(42, 0), (u64::MAX, 42));
}
