//! Software division helpers that the ARM EABI expects the runtime to provide
//! (`__aeabi_uldivmod` and friends), computed by shift-and-subtract.
use vstd::prelude::*;

verus! {

/// Quotient and remainder of an unsigned 64-bit division.
pub struct ulldiv_t {
    pub quo: u64,
    pub rem: u64,
}

/// Quotient and remainder of a signed 64-bit division.
pub struct lldiv_t {
    pub quo: i64,
    pub rem: i64,
}

/// Quotient and remainder of an unsigned 32-bit division.
pub struct uidiv_t {
    pub quo: u32,
    pub rem: u32,
}

/// Quotient and remainder of a signed 32-bit division.
pub struct idiv_t {
    pub quo: i32,
    pub rem: i32,
}

/// Quotient of the unsigned division that the helpers compute: a zero divisor gives 0.
pub open spec fn udiv_spec(n: nat, d: nat) -> nat {
    if d == 0 { 0 } else { n / d }
}

/// Remainder of the unsigned division that the helpers compute: a zero divisor gives `n`.
pub open spec fn umod_spec(n: nat, d: nat) -> nat {
    if d == 0 { n } else { n % d }
}

/// Absolute value.
pub open spec fn abs(x: int) -> nat {
    if x < 0 { (-x) as nat } else { x as nat }
}

/// Whether the signed helpers negate their results: the operands' signs differ.
pub open spec fn neg_result(n: int, d: int) -> bool {
    (n < 0) != (d < 0)
}

/// Signed quotient: the quotient of the magnitudes, negated when the signs differ
/// (rounding towards zero).
pub open spec fn sdiv_spec(n: int, d: int) -> int {
    let q = udiv_spec(abs(n), abs(d)) as int;
    if neg_result(n, d) { -q } else { q }
}

/// Signed remainder as the helpers compute it: the remainder of the magnitudes,
/// negated when the operands' signs differ.
pub open spec fn smod_spec(n: int, d: int) -> int {
    let r = umod_spec(abs(n), abs(d)) as int;
    if neg_result(n, d) { -r } else { r }
}

proof fn lemma_u64_shl1(x: u64)
    by (bit_vector)
    requires
        x < 0x8000_0000_0000_0000,
    ensures
        x << 1u64 == 2 * x,
{
}

proof fn lemma_u64_shr1(x: u64)
    by (bit_vector)
    ensures
        x >> 1u64 == x / 2,
{
}

/// Facts on the single-bit values `1 << k` of a 64-bit word.
proof fn lemma_u64_bit(k: u64)
    by (bit_vector)
    requires
        k < 64,
    ensures
        1u64 << k >= 1,
        k < 63 ==> (1u64 << k) << 1u64 == 2 * (1u64 << k),
        k < 63 ==> (1u64 << k) < 0x8000_0000_0000_0000,
        k < 63 ==> (1u64 << k) << 1u64 == 1u64 << add1_u64(k),
        k == 63 ==> (1u64 << k) << 1u64 == 0,
        k == 63 ==> 1u64 << k == 0x8000_0000_0000_0000,
        k > 0 ==> (1u64 << k) >> 1u64 == 1u64 << sub1_u64(k),
        k > 0 ==> (1u64 << k) == 2 * ((1u64 << k) >> 1u64),
        k == 0 ==> (1u64 << k) == 1,
{
}

/// The top bit of a 64-bit word read as a signed value.
proof fn lemma_u64_top_bit(q: u64)
    by (bit_vector)
    ensures
        1u64 << 63u64 == 0x8000_0000_0000_0000,
        q == 0x8000_0000_0000_0000 ==> q as i64 == i64::MIN,
{
}

proof fn lemma_u32_shl1(x: u32)
    by (bit_vector)
    requires
        x < 0x8000_0000,
    ensures
        x << 1u32 == 2 * x,
{
}

proof fn lemma_u32_shr1(x: u32)
    by (bit_vector)
    ensures
        x >> 1u32 == x / 2,
{
}

/// Facts on the single-bit values `1 << k` of a 32-bit word.
proof fn lemma_u32_bit(k: u32)
    by (bit_vector)
    requires
        k < 32,
    ensures
        1u32 << k >= 1,
        k < 31 ==> (1u32 << k) << 1u32 == 2 * (1u32 << k),
        k < 31 ==> (1u32 << k) < 0x8000_0000,
        k < 31 ==> (1u32 << k) << 1u32 == 1u32 << add1_u32(k),
        k == 31 ==> (1u32 << k) << 1u32 == 0,
        k == 31 ==> 1u32 << k == 0x8000_0000,
        k > 0 ==> (1u32 << k) >> 1u32 == 1u32 << sub1_u32(k),
        k > 0 ==> (1u32 << k) == 2 * ((1u32 << k) >> 1u32),
        k == 0 ==> (1u32 << k) == 1,
{
}

/// The top bit of a 32-bit word read as a signed value.
proof fn lemma_u32_top_bit(q: u32)
    by (bit_vector)
    ensures
        1u32 << 31u32 == 0x8000_0000,
        q == 0x8000_0000 ==> q as i32 == i32::MIN,
{
}

spec fn add1_u64(k: u64) -> u64 {
    (k + 1) as u64
}

spec fn sub1_u64(k: u64) -> u64 {
    (k - 1) as u64
}

spec fn add1_u32(k: u32) -> u32 {
    (k + 1) as u32
}

spec fn sub1_u32(k: u32) -> u32 {
    (k - 1) as u32
}

/// The divisor is doubled (together with the quotient bit `add`) while it stays at
/// most half the dividend; a zero divisor doubles `add` until it shifts out to 0.
/// Then the shifted divisor is subtracted back down, one quotient bit at a time.
/// A zero divisor gives quotient 0 and remainder `n`.
pub fn __aeabi_uldivmod(n: u64, d: u64) -> (r: ulldiv_t)
    ensures
        r.quo == udiv_spec(n as nat, d as nat),
        r.rem == umod_spec(n as nat, d as nat),
{
    let ghost n0 = n;
    let ghost d0 = d;
    let mut n = n;
    let mut d = d;
    let mut ret: u64 = 0;
    let mut add: u64 = 1;
    let ghost mut k: u64 = 0;
    proof {
        lemma_u64_bit(0);
    }
    while n / 2 >= d && add != 0
        invariant
            n == n0,
            k <= 64,
            add == (if k < 64 { 1u64 << k } else { 0 }),
            d == d0 * add,
            d0 > 0 ==> k < 64 && add <= d,
            ret == 0,
        decreases 64 - k,
    {
        proof {
            lemma_u64_bit(k);
            lemma_u64_shl1(d);
        }
        let ghost add_before = add;
        d = d << 1;
        add = add << 1;
        proof {
            k = (k + 1) as u64;
            if k < 64 {
                assert(add == 2 * add_before);
                assert(d == d0 * add) by (nonlinear_arith)
                    requires
                        d == 2 * (d0 * add_before),
                        add == 2 * add_before,
                ;
                if d0 > 0 {
                    assert(add <= d) by (nonlinear_arith)
                        requires
                            d == d0 * add,
                            d0 > 0,
                    ;
                }
            } else {
                assert(d0 == 0);
            }
        }
    }
    // now either the divisor is zero and `add` has shifted out, or n < 2 * d
    proof {
        if k < 64 {
            lemma_u64_bit(k);
        }
    }
    while add > 0
        invariant
            n0 == ret * d0 + n,
            add > 0 ==> k < 64 && add == 1u64 << k && d == d0 * add && n < 2 * d && d0 > 0,
            d0 > 0 && add == 0 ==> n < d0,
            d0 == 0 ==> add == 0 && ret == 0 && n == n0,
        decreases add,
    {
        if n >= d {
            assert(ret + add <= n0) by (nonlinear_arith)
                requires
                    n0 == ret * d0 + n,
                    n >= d,
                    d == d0 * add,
                    d0 > 0,
            ;
            ret += add;
            n -= d;
            assert(n0 == ret * d0 + n) by (nonlinear_arith)
                requires
                    n0 == (ret - add) * d0 + (n + d),
                    d == d0 * add,
            ;
        }
        assert(n < d);
        let ghost add_before = add;
        let ghost d_before = d;
        proof {
            lemma_u64_bit(k);
            lemma_u64_shr1(add);
            lemma_u64_shr1(d);
        }
        add >>= 1;
        d >>= 1;
        proof {
            if k > 0 {
                k = (k - 1) as u64;
                assert(d == d0 * add && d_before == 2 * d) by (nonlinear_arith)
                    requires
                        d_before == d0 * add_before,
                        add_before == 2 * add,
                        d == d_before / 2,
                ;
            } else {
                assert(add_before == 1);
                assert(d_before == d0) by (nonlinear_arith)
                    requires
                        d_before == d0 * add_before,
                        add_before == 1,
                ;
            }
        }
    }
    proof {
        if d0 > 0 {
            vstd::arithmetic::div_mod::lemma_fundamental_div_mod_converse(
                n0 as int,
                d0 as int,
                ret as int,
                n as int,
            );
        }
    }
    ulldiv_t { quo: ret, rem: n }
}

/// 32-bit counterpart of [`__aeabi_uldivmod`], by the same method.
/// The divisor is doubled (together with the quotient bit `add`) while it stays at
/// most half the dividend; a zero divisor doubles `add` until it shifts out to 0.
/// Then the shifted divisor is subtracted back down, one quotient bit at a time.
/// A zero divisor gives quotient 0 and remainder `n`.
pub fn __aeabi_uidivmod(n: u32, d: u32) -> (r: uidiv_t)
    ensures
        r.quo == udiv_spec(n as nat, d as nat),
        r.rem == umod_spec(n as nat, d as nat),
{
    let ghost n0 = n;
    let ghost d0 = d;
    let mut n = n;
    let mut d = d;
    let mut ret: u32 = 0;
    let mut add: u32 = 1;
    let ghost mut k: u32 = 0;
    proof {
        lemma_u32_bit(0);
    }
    while n / 2 >= d && add != 0
        invariant
            n == n0,
            k <= 32,
            add == (if k < 32 { 1u32 << k } else { 0 }),
            d == d0 * add,
            d0 > 0 ==> k < 32 && add <= d,
            ret == 0,
        decreases 32 - k,
    {
        proof {
            lemma_u32_bit(k);
            lemma_u32_shl1(d);
        }
        let ghost add_before = add;
        d = d << 1;
        add = add << 1;
        proof {
            k = (k + 1) as u32;
            if k < 32 {
                assert(add == 2 * add_before);
                assert(d == d0 * add) by (nonlinear_arith)
                    requires
                        d == 2 * (d0 * add_before),
                        add == 2 * add_before,
                ;
                if d0 > 0 {
                    assert(add <= d) by (nonlinear_arith)
                        requires
                            d == d0 * add,
                            d0 > 0,
                    ;
                }
            } else {
                assert(d0 == 0);
            }
        }
    }
    // now either the divisor is zero and `add` has shifted out, or n < 2 * d
    proof {
        if k < 32 {
            lemma_u32_bit(k);
        }
    }
    while add > 0
        invariant
            n0 == ret * d0 + n,
            add > 0 ==> k < 32 && add == 1u32 << k && d == d0 * add && n < 2 * d && d0 > 0,
            d0 > 0 && add == 0 ==> n < d0,
            d0 == 0 ==> add == 0 && ret == 0 && n == n0,
        decreases add,
    {
        if n >= d {
            assert(ret + add <= n0) by (nonlinear_arith)
                requires
                    n0 == ret * d0 + n,
                    n >= d,
                    d == d0 * add,
                    d0 > 0,
            ;
            ret += add;
            n -= d;
            assert(n0 == ret * d0 + n) by (nonlinear_arith)
                requires
                    n0 == (ret - add) * d0 + (n + d),
                    d == d0 * add,
            ;
        }
        assert(n < d);
        let ghost add_before = add;
        let ghost d_before = d;
        proof {
            lemma_u32_bit(k);
            lemma_u32_shr1(add);
            lemma_u32_shr1(d);
        }
        add >>= 1;
        d >>= 1;
        proof {
            if k > 0 {
                k = (k - 1) as u32;
                assert(d == d0 * add && d_before == 2 * d) by (nonlinear_arith)
                    requires
                        d_before == d0 * add_before,
                        add_before == 2 * add,
                        d == d_before / 2,
                ;
            } else {
                assert(add_before == 1);
                assert(d_before == d0) by (nonlinear_arith)
                    requires
                        d_before == d0 * add_before,
                        add_before == 1,
                ;
            }
        }
    }
    proof {
        if d0 > 0 {
            vstd::arithmetic::div_mod::lemma_fundamental_div_mod_converse(
                n0 as int,
                d0 as int,
                ret as int,
                n as int,
            );
        }
    }
    uidiv_t { quo: ret, rem: n }
}


/// Unsigned 64-bit division that stores its result through `rv`.
pub fn __aeabi_uldivmod_(n: u64, d: u64, rv: &mut ulldiv_t)
    ensures
        final(rv).quo == udiv_spec(n as nat, d as nat),
        final(rv).rem == umod_spec(n as nat, d as nat),
{
    *rv = __aeabi_uldivmod(n, d);
}

/// Unsigned 64-bit remainder.
pub fn __umoddi3(n: u64, d: u64) -> (r: u64)
    ensures
        r == umod_spec(n as nat, d as nat),
{
    __aeabi_uldivmod(n, d).rem
}

/// Signed 64-bit division: the magnitudes are divided unsigned, and both quotient and
/// remainder are negated when the operands' signs differ. The magnitude of
/// `i64::MIN` is taken as `1 << 63`. The one quotient that does not fit,
/// `i64::MIN / -1`, comes out as `i64::MIN`.
pub fn __aeabi_ldivmod(n: i64, d: i64) -> (r: lldiv_t)
    requires
        !(n == i64::MIN && (d == 0 || d == 1)),
    ensures
        n == i64::MIN && d == -1 ==> r.quo == i64::MIN && r.rem == 0,
        !(n == i64::MIN && d == -1) ==> r.quo == sdiv_spec(n as int, d as int),
        r.rem == smod_spec(n as int, d as int),
{
    let sign = (n < 0) != (d < 0);

    let n = if n > 0 {
        n as u64
    } else if n == -0x80000000_00000000 {
        1 << 63
    } else {
        -n as u64
    };
    let d = if d > 0 {
        d as u64
    } else if d == -0x80000000_00000000 {
        1 << 63
    } else {
        -d as u64
    };
    proof {
        lemma_u64_top_bit(0);
    }
    let r = __aeabi_uldivmod(n, d);
    proof {
        if n == 0x8000_0000_0000_0000 && d == 1 {
            assert((n as int) / 1 == n && (n as int) % 1 == 0) by (nonlinear_arith);
        }
        if d > 0 {
            assert(r.quo <= n) by (nonlinear_arith)
                requires
                    d > 0,
                    r.quo == n / d,
            ;
        }
        if r.quo == 0x8000_0000_0000_0000 {
            assert(d == 1) by (nonlinear_arith)
                requires
                    d > 0,
                    r.quo == n / d,
                    n <= 0x8000_0000_0000_0000,
                    r.quo == 0x8000_0000_0000_0000,
            ;
        }
        lemma_u64_top_bit(r.quo);
    }
    if sign {
        lldiv_t { quo: -(r.quo as i64), rem: -(r.rem as i64) }
    } else {
        lldiv_t { quo: r.quo as i64, rem: r.rem as i64 }
    }
}

/// Signed 64-bit remainder, as computed by [`__aeabi_ldivmod`].
pub fn __moddi3(n: i64, d: i64) -> (r: i64)
    requires
        !(n == i64::MIN && (d == 0 || d == 1)),
    ensures
        r == smod_spec(n as int, d as int),
{
    __aeabi_ldivmod(n, d).rem
}

/// Unsigned 32-bit quotient.
pub fn __aeabi_uidiv(n: u32, d: u32) -> (r: u32)
    ensures
        r == udiv_spec(n as nat, d as nat),
{
    __aeabi_uidivmod(n, d).quo
}

/// Unsigned 32-bit remainder.
pub fn __umodsi3(n: u32, d: u32) -> (r: u32)
    ensures
        r == umod_spec(n as nat, d as nat),
{
    __aeabi_uidivmod(n, d).rem
}

/// Signed 32-bit division, by the same method as [`__aeabi_ldivmod`].
pub fn __aeabi_idivmod(n: i32, d: i32) -> (r: idiv_t)
    requires
        !(n == i32::MIN && (d == 0 || d == 1)),
    ensures
        n == i32::MIN && d == -1 ==> r.quo == i32::MIN && r.rem == 0,
        !(n == i32::MIN && d == -1) ==> r.quo == sdiv_spec(n as int, d as int),
        r.rem == smod_spec(n as int, d as int),
{
    let sign = (n < 0) != (d < 0);

    let n = if n > 0 {
        n as u32
    } else if n == -0x80000000 {
        1 << 31
    } else {
        -n as u32
    };
    let d = if d > 0 {
        d as u32
    } else if d == -0x80000000 {
        1 << 31
    } else {
        -d as u32
    };
    proof {
        lemma_u32_top_bit(0);
    }
    let r = __aeabi_uidivmod(n, d);
    proof {
        if n == 0x8000_0000 && d == 1 {
            assert((n as int) / 1 == n && (n as int) % 1 == 0) by (nonlinear_arith);
        }
        if d > 0 {
            assert(r.quo <= n) by (nonlinear_arith)
                requires
                    d > 0,
                    r.quo == n / d,
            ;
        }
        if r.quo == 0x8000_0000 {
            assert(d == 1) by (nonlinear_arith)
                requires
                    d > 0,
                    r.quo == n / d,
                    n <= 0x8000_0000,
                    r.quo == 0x8000_0000,
            ;
        }
        lemma_u32_top_bit(r.quo);
    }
    if sign {
        idiv_t { quo: -(r.quo as i32), rem: -(r.rem as i32) }
    } else {
        idiv_t { quo: r.quo as i32, rem: r.rem as i32 }
    }
}

/// Signed 32-bit quotient, as computed by [`__aeabi_idivmod`].
pub fn __aeabi_idiv(n: i32, d: i32) -> (r: i32)
    requires
        !(n == i32::MIN && (d == 0 || d == 1)),
    ensures
        n == i32::MIN && d == -1 ==> r == i32::MIN,
        !(n == i32::MIN && d == -1) ==> r == sdiv_spec(n as int, d as int),
{
    __aeabi_idivmod(n, d).quo
}

/// Signed 32-bit remainder, as computed by [`__aeabi_idivmod`].
pub fn __modsi3(n: i32, d: i32) -> (r: i32)
    requires
        !(n == i32::MIN && (d == 0 || d == 1)),
    ensures
        r == smod_spec(n as int, d as int),
{
    __aeabi_idivmod(n, d).rem
}

/// Division identity of the unsigned helpers: for a non-zero divisor the quotient
/// and remainder recombine to the dividend, with the remainder below the divisor;
/// a zero divisor leaves the whole dividend as the remainder.
pub proof fn lemma_unsigned_division_identity(n: nat, d: nat)
    ensures
        n == udiv_spec(n, d) * d + umod_spec(n, d),
        d > 0 ==> umod_spec(n, d) < d,
{
    if d > 0 {
        vstd::arithmetic::div_mod::lemma_fundamental_div_mod(n as int, d as int);
        vstd::arithmetic::div_mod::lemma_mod_pos_bound(n as int, d as int);
        assert(n == (n / d) * d + n % d) by (nonlinear_arith)
            requires
                n == d * (n / d) + n % d,
        ;
    }
}

/// Division identity of the signed helpers for a non-negative divisor: quotient and
/// remainder recombine to the dividend, the remainder is smaller in magnitude than
/// the divisor and has the dividend's sign, and the quotient rounds towards zero.
pub proof fn lemma_signed_division_identity(n: int, d: int)
    requires
        d >= 0,
    ensures
        n == sdiv_spec(n, d) * d + smod_spec(n, d),
        d > 0 ==> abs(smod_spec(n, d)) < d,
        n >= 0 ==> smod_spec(n, d) >= 0,
        n < 0 ==> smod_spec(n, d) <= 0,
        d > 0 ==> abs(sdiv_spec(n, d)) == abs(n) / (d as nat),
{
    lemma_unsigned_division_identity(abs(n), abs(d));
    let q = udiv_spec(abs(n), abs(d)) as int;
    let r = umod_spec(abs(n), abs(d)) as int;
    if n < 0 {
        assert(n == (-q) * d + (-r)) by (nonlinear_arith)
            requires
                -n == q * d + r,
        ;
    }
}

} // verus!
