use tifflin::divmod::{
    __aeabi_idiv, __aeabi_idivmod, __aeabi_ldivmod, __aeabi_uidiv, __aeabi_uidivmod,
    __aeabi_uldivmod, __aeabi_uldivmod_, __moddi3, __modsi3, __umoddi3, __umodsi3, ulldiv_t,
};

#[test]
fn uldivmod_small() {
    let r = __aeabi_uldivmod(100, 7);
    assert_eq!((r.quo, r.rem), (14, 2));
}

#[test]
fn uldivmod_large() {
    let r = __aeabi_uldivmod(u64::MAX, 3);
    assert_eq!((r.quo, r.rem), (u64::MAX / 3, u64::MAX % 3));
    let r = __aeabi_uldivmod(u64::MAX, u64::MAX);
    assert_eq!((r.quo, r.rem), (1, 0));
    let r = __aeabi_uldivmod(0x8000_0000_0000_0001, 2);
    assert_eq!((r.quo, r.rem), (0x4000_0000_0000_0000, 1));
}

#[test]
fn uldivmod_divisor_larger() {
    let r = __aeabi_uldivmod(5, 9);
    assert_eq!((r.quo, r.rem), (0, 5));
}

#[test]
fn uldivmod_zero_divisor() {
    let r = __aeabi_uldivmod(12345, 0);
    assert_eq!((r.quo, r.rem), (0, 12345));
}

#[test]
fn uldivmod_through_pointer() {
    let mut rv = ulldiv_t { quo: 7, rem: 7 };
    __aeabi_uldivmod_(1000, 33, &mut rv);
    assert_eq!((rv.quo, rv.rem), (30, 10));
}

#[test]
fn umoddi3_value() {
    assert_eq!(__umoddi3(1 << 40, 1000), (1u64 << 40) % 1000);
}

#[test]
fn ldivmod_signs() {
    let r = __aeabi_ldivmod(-7, 2);
    assert_eq!((r.quo, r.rem), (-3, -1));
    let r = __aeabi_ldivmod(7, 2);
    assert_eq!((r.quo, r.rem), (3, 1));
    // the remainder takes the quotient's sign, not the dividend's
    let r = __aeabi_ldivmod(7, -2);
    assert_eq!((r.quo, r.rem), (-3, -1));
    let r = __aeabi_ldivmod(-7, -2);
    assert_eq!((r.quo, r.rem), (3, 1));
}

#[test]
fn ldivmod_extremes() {
    let r = __aeabi_ldivmod(i64::MIN, -1);
    assert_eq!((r.quo, r.rem), (i64::MIN, 0));
    let r = __aeabi_ldivmod(i64::MIN, 2);
    assert_eq!((r.quo, r.rem), (i64::MIN / 2, 0));
    let r = __aeabi_ldivmod(-5, 0);
    assert_eq!((r.quo, r.rem), (0, -5));
    let r = __aeabi_ldivmod(i64::MAX, i64::MIN);
    assert_eq!((r.quo, r.rem), (0, -i64::MAX));
}

#[test]
fn moddi3_value() {
    assert_eq!(__moddi3(-100, 7), -2);
}

#[test]
fn uidivmod_values() {
    let r = __aeabi_uidivmod(u32::MAX, 10);
    assert_eq!((r.quo, r.rem), (u32::MAX / 10, u32::MAX % 10));
    let r = __aeabi_uidivmod(9, 0);
    assert_eq!((r.quo, r.rem), (0, 9));
    assert_eq!(__aeabi_uidiv(1000, 7), 142);
    assert_eq!(__umodsi3(1000, 7), 6);
}

#[test]
fn idivmod_values() {
    let r = __aeabi_idivmod(-100, 7);
    assert_eq!((r.quo, r.rem), (-14, -2));
    let r = __aeabi_idivmod(i32::MIN, -1);
    assert_eq!((r.quo, r.rem), (i32::MIN, 0));
    assert_eq!(__aeabi_idiv(-9, 4), -2);
    assert_eq!(__modsi3(9, -4), -1);
}

#[test]
fn division_identity_for_positive_divisors() {
    for n in [-1000i64, -999, -1, 0, 1, 17, 999, 1000] {
        for d in [1i64, 2, 3, 7, 1000] {
            let r = __aeabi_ldivmod(n, d);
            assert_eq!(r.quo * d + r.rem, n);
            assert!(r.rem.abs() < d);
        }
    }
}
