//! Double-precision numbers as bit patterns: their order, their equality, and
//! the passage between them and integers.

use vstd::prelude::*;
use vstd::arithmetic::div_mod::{lemma_div_by_multiple, lemma_mod_multiples_basic};
use vstd::arithmetic::power2::{
    lemma2_to64, lemma2_to64_rest, lemma_pow2_adds, lemma_pow2_pos, lemma_pow2_strictly_increases,
    lemma_pow2_unfold, pow2,
};

verus! {

pub const SIGN_BIT: u64 = 0x8000_0000_0000_0000;

/// The magnitude bits of both infinities; anything above is not a number.
pub const INFINITY_BITS: u64 = 0x7ff0_0000_0000_0000;

/// The lowest bit of the exponent field.
pub const HIDDEN_BIT: u64 = 0x10_0000_0000_0000;

/// Everything but the sign bit.
pub open spec fn magnitude(bits: u64) -> int {
    if bits < SIGN_BIT {
        bits as int
    } else {
        bits - SIGN_BIT
    }
}

pub open spec fn is_nan(bits: u64) -> bool {
    magnitude(bits) > INFINITY_BITS
}

/// An integer that orders numbers as the real line does; both zeros get 0.
pub open spec fn signed_rank(bits: u64) -> int {
    if bits < SIGN_BIT {
        magnitude(bits)
    } else {
        -magnitude(bits)
    }
}

/// `a <= b` of two numbers: false where either is not a number.
pub open spec fn number_le(a: u64, b: u64) -> bool {
    !is_nan(a) && !is_nan(b) && signed_rank(a) <= signed_rank(b)
}

/// `a == b` of two numbers: both zeros are equal, and nothing equals a value
/// that is not a number.
pub open spec fn number_eq(a: u64, b: u64) -> bool {
    !is_nan(a) && !is_nan(b) && signed_rank(a) == signed_rank(b)
}

pub fn nan(bits: u64) -> (r: bool)
    ensures
        r == is_nan(bits),
{
    (if bits < SIGN_BIT { bits } else { bits - SIGN_BIT }) > INFINITY_BITS
}

pub fn le(a: u64, b: u64) -> (r: bool)
    ensures
        r == number_le(a, b),
{
    if nan(a) || nan(b) {
        false
    } else if a < SIGN_BIT {
        b < SIGN_BIT && a <= b || (a == 0 && b == SIGN_BIT)
    } else {
        b < SIGN_BIT || b <= a
    }
}

pub fn eq(a: u64, b: u64) -> (r: bool)
    ensures
        r == number_eq(a, b),
{
    if nan(a) || nan(b) {
        false
    } else {
        a == b || (a == 0 && b == SIGN_BIT) || (a == SIGN_BIT && b == 0)
    }
}

/// `a < b` of two numbers.
pub fn lt(a: u64, b: u64) -> (r: bool)
    ensures
        r == (number_le(a, b) && !number_eq(a, b)),
{
    le(a, b) && !eq(a, b)
}

/// The place of a bit pattern in the total order of doubles, counted from
/// positive zero.
pub open spec fn total_rank(bits: u64) -> int {
    if bits < SIGN_BIT {
        bits as int
    } else {
        SIGN_BIT - bits - 1
    }
}

/// The key under which a number is sorted.
pub open spec fn spec_ordered_bits(bits: u64) -> u64 {
    (SIGN_BIT + total_rank(bits)) as u64
}

/// Maps a number to an unsigned integer of the same order: the bits of a
/// negative number are complemented, a positive one gets the top bit.
pub fn ordered_bits(bits: u64) -> (key: u64)
    ensures
        key == SIGN_BIT + total_rank(bits),
        key == spec_ordered_bits(bits),
{
    if bits >= SIGN_BIT {
        0xffff_ffff_ffff_ffffu64 - bits
    } else {
        SIGN_BIT + bits
    }
}

/// The number that a sort key stands for.
pub open spec fn number_at(key: u64) -> u64 {
    if key >= SIGN_BIT {
        (key - SIGN_BIT) as u64
    } else {
        (0xffff_ffff_ffff_ffff - key) as u64
    }
}

/// The number that a sort key stands for.
pub fn from_ordered_bits(key: u64) -> (bits: u64)
    ensures
        spec_ordered_bits(bits) == key,
        bits == number_at(key),
{
    if key >= SIGN_BIT {
        key - SIGN_BIT
    } else {
        0xffff_ffff_ffff_ffffu64 - key
    }
}

/// Sort keys follow the order of the numbers, and one key belongs to one bit
/// pattern.
pub proof fn ordered_bits_are_monotone_and_invertible(a: u64, b: u64)
    ensures
        spec_ordered_bits(a) == SIGN_BIT + total_rank(a),
        spec_ordered_bits(a) == spec_ordered_bits(b) <==> a == b,
        number_at(spec_ordered_bits(a)) == a,
        number_le(a, b) && !number_eq(a, b) ==> spec_ordered_bits(a) < spec_ordered_bits(b),
        spec_ordered_bits(a) <= spec_ordered_bits(b) && !is_nan(a) && !is_nan(b) ==> number_le(a, b),
{
}

/// The quotient rounded to the nearest integer, ties to the even one.
pub open spec fn nearest(a: int, d: int) -> int {
    let q = a / d;
    let r = a % d;
    if 2 * r < d || (2 * r == d && q % 2 == 0) {
        q
    } else {
        q + 1
    }
}

/// The exponent of the highest bit of a positive integer.
pub open spec fn top_bit(a: int) -> nat
    decreases a,
{
    if a <= 1 {
        0
    } else {
        1 + top_bit(a / 2)
    }
}

/// The magnitude bits of the double nearest to a positive integer: 53
/// significant bits, ties to even. A significand that rounds up to the next
/// power of two carries into the exponent.
pub open spec fn integer_magnitude(a: int) -> int {
    let e = top_bit(a);
    let significand = if e <= 52 {
        a * pow2((52 - e) as nat)
    } else {
        nearest(a, pow2((e - 52) as nat) as int)
    };
    (e + 1023) * HIDDEN_BIT + (significand - HIDDEN_BIT)
}

/// The double nearest to an integer.
pub open spec fn spec_of_integer(i: int) -> int {
    if i == 0 {
        0
    } else if i > 0 {
        integer_magnitude(i)
    } else {
        SIGN_BIT + integer_magnitude(-i)
    }
}

pub open spec fn with_sign(bits: u64, a: int) -> int {
    if bits < SIGN_BIT {
        a
    } else {
        -a
    }
}

/// The integer that a double is, where it is one of magnitude below 2^63.
pub open spec fn integer_of(bits: u64) -> Option<int> {
    let m = magnitude(bits);
    let e = m / (HIDDEN_BIT as int);
    let significand = HIDDEN_BIT + m % (HIDDEN_BIT as int);
    if m == 0 {
        Some(0)
    } else if e < 1023 || e > 1085 {
        None
    } else if e >= 1075 {
        Some(with_sign(bits, significand * pow2((e - 1075) as nat)))
    } else if significand % (pow2((1075 - e) as nat) as int) == 0 {
        Some(with_sign(bits, significand / (pow2((1075 - e) as nat) as int)))
    } else {
        None
    }
}

proof fn lemma_top_bit(a: int)
    requires
        a >= 1,
    ensures
        pow2(top_bit(a)) <= a < pow2(top_bit(a) + 1),
    decreases a,
{
    lemma2_to64();
    if a > 1 {
        lemma_top_bit(a / 2);
        lemma_pow2_unfold(top_bit(a));
        lemma_pow2_unfold(top_bit(a) + 1);
    }
}

fn highest_bit(a: u64) -> (e: u32)
    requires
        a >= 1,
    ensures
        e == top_bit(a as int),
        e < 64,
{
    let mut e: u32 = 0;
    let mut x: u64 = a;
    proof {
        lemma_top_bit(a as int);
        lemma2_to64_rest();
        if top_bit(a as int) >= 64 {
            if top_bit(a as int) > 64 {
                lemma_pow2_strictly_increases(64, top_bit(a as int));
            }
        }
    }
    while x > 1
        invariant
            x >= 1,
            top_bit(a as int) == e + top_bit(x as int),
            top_bit(a as int) < 64,
        decreases x,
    {
        x = x / 2;
        e = e + 1;
    }
    e
}

fn power_of_two(e: u32) -> (p: u64)
    requires
        e < 64,
    ensures
        p == pow2(e as nat),
{
    let mut p: u64 = 1;
    let mut i: u32 = 0;
    proof {
        lemma2_to64();
    }
    while i < e
        invariant
            i <= e < 64,
            p == pow2(i as nat),
        decreases e - i,
    {
        proof {
            lemma_pow2_unfold((i + 1) as nat);
            lemma2_to64_rest();
            lemma_pow2_strictly_increases((i + 1) as nat, 64);
        }
        p = p * 2;
        i = i + 1;
    }
    p
}

/// The significand of an integer that has more than 53 bits stays within 53
/// bits before rounding.
proof fn lemma_wide_quotient(a: int, e: nat)
    requires
        e >= 53,
        pow2(e) <= a < pow2(e + 1),
    ensures
        HIDDEN_BIT <= a / (pow2((e - 52) as nat) as int) < 2 * HIDDEN_BIT,
{
    let d = pow2((e - 52) as nat) as int;
    lemma2_to64_rest();
    lemma_pow2_pos((e - 52) as nat);
    lemma_pow2_adds(52, (e - 52) as nat);
    lemma_pow2_adds(53, (e - 52) as nat);
    assert(HIDDEN_BIT == pow2(52));
    assert(HIDDEN_BIT <= a / d) by (nonlinear_arith)
        requires
            d > 0,
            HIDDEN_BIT * d <= a,
    ;
    assert(a / d < 2 * HIDDEN_BIT) by (nonlinear_arith)
        requires
            d > 0,
            a < (2 * HIDDEN_BIT) * d,
    ;
}

/// The significand of an integer of at most 53 bits.
proof fn lemma_narrow_product(a: int, e: nat)
    requires
        e <= 52,
        pow2(e) <= a < pow2(e + 1),
    ensures
        HIDDEN_BIT <= a * pow2((52 - e) as nat) < 2 * HIDDEN_BIT,
{
    let d = pow2((52 - e) as nat) as int;
    lemma2_to64_rest();
    lemma_pow2_pos((52 - e) as nat);
    lemma_pow2_adds(e, (52 - e) as nat);
    lemma_pow2_adds(e + 1, (52 - e) as nat);
    assert(HIDDEN_BIT == pow2(52));
    let lo = pow2(e) as int;
    let hi = pow2(e + 1) as int;
    assert(lo * d <= a * d < hi * d) by (nonlinear_arith)
        requires
            d > 0,
            lo <= a < hi,
    ;
}

/// The double nearest to an integer, ties to even.
pub fn of_integer(i: i64) -> (bits: u64)
    ensures
        bits == spec_of_integer(i as int),
        !is_nan(bits),
{
    if i == 0 {
        return 0;
    }
    let a: u64 = if i > 0 { i as u64 } else { (-(i as i128)) as u64 };
    let e: u32 = highest_bit(a);
    proof {
        lemma_top_bit(a as int);
        lemma2_to64();
        lemma2_to64_rest();
    }
    let significand: u64 = if e <= 52 {
        proof {
            lemma_narrow_product(a as int, e as nat);
        }
        a * power_of_two(52 - e)
    } else {
        let d: u64 = power_of_two(e - 52);
        proof {
            lemma_wide_quotient(a as int, e as nat);
            lemma_pow2_strictly_increases((e - 52) as nat, 12);
            lemma_pow2_pos((e - 52) as nat);
        }
        let q: u64 = a / d;
        let r: u64 = a % d;
        if 2 * r < d || (2 * r == d && q % 2 == 0) {
            q
        } else {
            q + 1
        }
    };
    let m: u64 = (e as u64 + 1023) * HIDDEN_BIT + (significand - HIDDEN_BIT);
    if i > 0 {
        m
    } else {
        SIGN_BIT + m
    }
}

/// The integer that a double is, where it is one of magnitude below 2^63.
pub fn to_integer(bits: u64) -> (r: Option<i64>)
    ensures
        r is Some <==> integer_of(bits) is Some,
        r matches Some(i) ==> integer_of(bits) == Some(i as int),
{
    let m: u64 = if bits < SIGN_BIT { bits } else { bits - SIGN_BIT };
    if m == 0 {
        return Some(0);
    }
    let e: u64 = m / HIDDEN_BIT;
    let significand: u64 = HIDDEN_BIT + m % HIDDEN_BIT;
    if e < 1023 || e > 1085 {
        return None;
    }
    let a: u64 = if e >= 1075 {
        let p: u64 = power_of_two((e - 1075) as u32);
        proof {
            lemma2_to64();
            if e < 1085 {
                lemma_pow2_strictly_increases((e - 1075) as nat, 10);
            }
            assert(significand * p <= 0x1f_ffff_ffff_ffff * 1024) by (nonlinear_arith)
                requires
                    significand <= 0x1f_ffff_ffff_ffff,
                    p <= 1024,
            ;
        }
        significand * p
    } else {
        let p: u64 = power_of_two((1075 - e) as u32);
        proof {
            lemma_pow2_pos((1075 - e) as nat);
        }
        if significand % p != 0 {
            return None;
        }
        proof {
            assert(significand / p <= significand) by (nonlinear_arith)
                requires
                    p > 0,
            ;
        }
        significand / p
    };
    if bits < SIGN_BIT {
        Some(a as i64)
    } else {
        Some(-(a as i64))
    }
}

/// An integer of at most 53 bits survives the passage through a double.
#[verifier::spinoff_prover]
pub proof fn small_integers_are_exact(i: int, bits: u64)
    requires
        -0x20_0000_0000_0000 <= i <= 0x20_0000_0000_0000,
        bits == spec_of_integer(i),
    ensures
        integer_of(bits) == Some(i),
{
    if i != 0 {
        let a = if i > 0 { i } else { -i };
        let e = top_bit(a);
        lemma_top_bit(a);
        lemma2_to64();
        lemma2_to64_rest();
        if e >= 54 {
            if e > 54 {
                lemma_pow2_strictly_increases(54, e);
            }
            lemma_pow2_unfold(54);
        }
        if e <= 52 {
            lemma_narrow_product(a, e);
            let d = pow2((52 - e) as nat) as int;
            lemma_pow2_pos((52 - e) as nat);
            let significand = a * d;
            lemma_magnitude_fields(e, significand);
            assert(magnitude(bits) == (e + 1023) * HIDDEN_BIT + (significand - HIDDEN_BIT));
            if e == 52 {
                assert(d == 1);
                assert(a * 1 == a);
                assert(significand * pow2(0) == a) by (nonlinear_arith)
                    requires
                        significand == a,
                        pow2(0) == 1,
                ;
            } else {
                lemma_mod_multiples_basic(a, d);
                lemma_div_by_multiple(a, d);
                assert(1075 - (e + 1023) == 52 - e);
            }
        } else {
            assert(e == 53);
            assert(a == pow2(53));
            assert(nearest(a, 2) == HIDDEN_BIT);
            lemma_magnitude_fields(e, HIDDEN_BIT as int);
            assert(magnitude(bits) == (e + 1023) * HIDDEN_BIT);
            assert(HIDDEN_BIT * pow2(1) == a) by (nonlinear_arith)
                requires
                    pow2(1) == 2,
                    a == 2 * HIDDEN_BIT,
            ;
        }
    }
}

/// Exponent and significand come apart again.
proof fn lemma_magnitude_fields(e: nat, significand: int)
    requires
        HIDDEN_BIT <= significand < 2 * HIDDEN_BIT,
    ensures
        ({
            let m = (e + 1023) * HIDDEN_BIT + (significand - HIDDEN_BIT);
            m / (HIDDEN_BIT as int) == e + 1023 && m % (HIDDEN_BIT as int) == significand
                - HIDDEN_BIT
        }),
{
    let m = (e + 1023) * HIDDEN_BIT + (significand - HIDDEN_BIT);
    vstd::arithmetic::div_mod::lemma_fundamental_div_mod_converse(
        m,
        HIDDEN_BIT as int,
        (e + 1023) as int,
        significand - HIDDEN_BIT,
    );
}

/// The nearest double of an integer is a number of 64 bits.
pub proof fn lemma_of_integer_range(i: int)
    requires
        i64::MIN <= i <= i64::MAX,
    ensures
        0 <= spec_of_integer(i) <= u64::MAX,
        !is_nan(spec_of_integer(i) as u64),
{
    if i != 0 {
        let a = if i > 0 { i } else { -i };
        let e = top_bit(a);
        lemma_top_bit(a);
        lemma2_to64();
        lemma2_to64_rest();
        if e >= 64 {
            if e > 64 {
                lemma_pow2_strictly_increases(64, e);
            }
        }
        if e <= 52 {
            lemma_narrow_product(a, e);
        } else {
            lemma_wide_quotient(a, e);
        }
    }
}

/// Equal numbers are the same integer or none.
pub proof fn lemma_equal_numbers_integer(a: u64, b: u64)
    requires
        number_eq(a, b),
    ensures
        integer_of(a) == integer_of(b),
{
}

/// A double equals an exact integer's double just where it is that integer.
pub proof fn lemma_integer_equality(a: u64, b: u64)
    requires
        integer_of(a) is Some,
        !is_nan(a),
        !is_nan(b),
    ensures
        number_eq(a, b) <==> integer_of(b) == integer_of(a),
        integer_of(b) matches Some(i) ==> i64::MIN <= i <= i64::MAX,
{
    lemma_integer_bound(b);
    if integer_of(b) == integer_of(a) {
        lemma_same_integer(a, b);
    }
}

/// The double nearest to an integer that a double is, is that double.
pub proof fn lemma_integer_double(f: u64)
    requires
        integer_of(f) is Some,
    ensures
        i64::MIN <= integer_of(f)->0 <= i64::MAX,
        0 <= spec_of_integer(integer_of(f)->0) <= u64::MAX,
        number_eq(spec_of_integer(integer_of(f)->0) as u64, f),
{
    lemma_integer_bound(f);
    let i = integer_of(f)->0;
    lemma_of_integer_range(i);
    if i != 0 {
        lemma_integer_shape(f);
        lemma2_to64();
        let m = magnitude(f);
        let x = if i > 0 { i } else { -i };
        let e = (m / (HIDDEN_BIT as int) - 1023) as nat;
        let significand = HIDDEN_BIT + m % (HIDDEN_BIT as int);
        let r = pow2((62 - e) as nat) as int;
        lemma_top_bit_unique(x, e);
        lemma_pow2_pos((62 - e) as nat);
        if e <= 52 {
            let d = pow2((52 - e) as nat) as int;
            lemma_pow2_adds((52 - e) as nat, 10);
            assert(x * d == significand) by (nonlinear_arith)
                requires
                    r == d * 1024,
                    x * r == significand * 1024,
            ;
        } else {
            let d = pow2((e - 52) as nat) as int;
            lemma_pow2_pos((e - 52) as nat);
            lemma_pow2_adds((e - 52) as nat, (62 - e) as nat);
            assert(x == significand * d) by (nonlinear_arith)
                requires
                    d * r == 1024,
                    r > 0,
                    x * r == significand * 1024,
            ;
            lemma_mod_multiples_basic(significand, d);
            lemma_div_by_multiple(significand, d);
        }
    }
}

/// Doubles are equal where they are the same integer, or are no integers and
/// have the same bits.
pub proof fn lemma_float_equality(a: u64, b: u64)
    requires
        !is_nan(a),
        !is_nan(b),
    ensures
        number_eq(a, b) <==> (if integer_of(a) is Some || integer_of(b) is Some {
            integer_of(a) == integer_of(b)
        } else {
            a == b
        }),
        integer_of(a) matches Some(i) ==> i64::MIN <= i <= i64::MAX,
        integer_of(b) matches Some(i) ==> i64::MIN <= i <= i64::MAX,
{
    lemma_integer_bound(a);
    lemma_integer_bound(b);
    if integer_of(a) is Some && integer_of(a) == integer_of(b) {
        lemma_same_integer(a, b);
    }
}

proof fn lemma_integer_bound(a: u64)
    ensures
        integer_of(a) matches Some(i) ==> -0x8000_0000_0000_0000 < i < 0x8000_0000_0000_0000,
        integer_of(a) is Some && magnitude(a) != 0 ==> integer_of(a) != Some(0int),
{
    let m = magnitude(a);
    if m != 0 && integer_of(a) is Some {
        let e = m / (HIDDEN_BIT as int);
        let significand = HIDDEN_BIT + m % (HIDDEN_BIT as int);
        lemma2_to64();
        if e >= 1075 {
            let p = pow2((e - 1075) as nat) as int;
            if e < 1085 {
                lemma_pow2_strictly_increases((e - 1075) as nat, 10);
            }
            lemma_pow2_pos((e - 1075) as nat);
            assert(0 < significand * p <= 0x1f_ffff_ffff_ffff * 1024) by (nonlinear_arith)
                requires
                    0 < significand <= 0x1f_ffff_ffff_ffff,
                    0 < p <= 1024,
            ;
        } else {
            let p = pow2((1075 - e) as nat) as int;
            lemma_pow2_pos((1075 - e) as nat);
            assert(0 < significand / p <= significand) by (nonlinear_arith)
                requires
                    p > 0,
                    significand > 0,
                    significand % p == 0,
            ;
        }
    }
}

/// An integer has one significand and one exponent.
proof fn lemma_same_integer(a: u64, b: u64)
    requires
        integer_of(a) is Some,
        integer_of(a) == integer_of(b),
    ensures
        signed_rank(a) == signed_rank(b),
        !is_nan(a),
        !is_nan(b),
{
    lemma_integer_bound(a);
    lemma_integer_bound(b);
    let i = integer_of(a)->0;
    if i != 0 {
        lemma_integer_shape(a);
        lemma_integer_shape(b);
        let x = if i > 0 { i } else { -i };
        lemma_top_bit_unique(x, (magnitude(a) / (HIDDEN_BIT as int) - 1023) as nat);
        lemma_top_bit_unique(x, (magnitude(b) / (HIDDEN_BIT as int) - 1023) as nat);
    }
}

proof fn lemma_top_bit_unique(a: int, e: nat)
    requires
        pow2(e) <= a < pow2(e + 1),
        a >= 1,
    ensures
        top_bit(a) == e,
{
    lemma_top_bit(a);
    let t = top_bit(a);
    if t < e {
        if t + 1 < e {
            lemma_pow2_strictly_increases(t + 1, e);
        }
    }
    if e < t {
        if e + 1 < t {
            lemma_pow2_strictly_increases(e + 1, t);
        }
    }
}

/// A nonzero integer determines the exponent field, and with it the
/// significand.
proof fn lemma_integer_shape(a: u64)
    requires
        integer_of(a) is Some,
        magnitude(a) != 0,
    ensures
        ({
            let i = integer_of(a)->0;
            let x = if a < SIGN_BIT { i } else { -i };
            let e = magnitude(a) / (HIDDEN_BIT as int) - 1023;
            &&& x > 0
            &&& 0 <= e <= 62
            &&& pow2(e as nat) <= x < pow2((e + 1) as nat)
            &&& x * pow2((62 - e) as nat) == (HIDDEN_BIT + magnitude(a) % (HIDDEN_BIT as int))
                * 1024
        }),
{
    let m = magnitude(a);
    let q = m / (HIDDEN_BIT as int);
    let e = q - 1023;
    let f = HIDDEN_BIT + m % (HIDDEN_BIT as int);
    let i = integer_of(a)->0;
    let x = if a < SIGN_BIT { i } else { -i };
    lemma_integer_bound(a);
    lemma2_to64();
    lemma2_to64_rest();
    assert(HIDDEN_BIT == pow2(52));
    if q >= 1075 {
        let p = pow2((q - 1075) as nat) as int;
        assert(x == f * p);
        lemma_pow2_pos((q - 1075) as nat);
        lemma_pow2_adds(52, (q - 1075) as nat);
        lemma_pow2_adds(53, (q - 1075) as nat);
        lemma_pow2_adds((q - 1075) as nat, (62 - e) as nat);
        assert(pow2(52) * p <= f * p < pow2(53) * p) by (nonlinear_arith)
            requires
                p > 0,
                pow2(52) <= f < pow2(53),
        ;
        let r = pow2((62 - e) as nat) as int;
        assert((q - 1075) + (62 - e) == 10);
        assert(p * r == 1024);
        assert(f * p * r == f * 1024) by (nonlinear_arith)
            requires
                p * r == 1024,
        ;
    } else {
        let p = pow2((1075 - q) as nat) as int;
        lemma_pow2_pos((1075 - q) as nat);
        assert(x == f / p);
        assert(f == x * p) by (nonlinear_arith)
            requires
                p > 0,
                f % p == 0,
                x == f / p,
        ;
        lemma_pow2_adds(e as nat, (1075 - q) as nat);
        lemma_pow2_adds((e + 1) as nat, (1075 - q) as nat);
        let lo = pow2(e as nat) as int;
        let hi = pow2((e + 1) as nat) as int;
        assert(lo <= x < hi) by (nonlinear_arith)
            requires
                p > 0,
                lo * p <= x * p,
                x * p < hi * p,
        ;
        lemma_pow2_adds((1075 - q) as nat, 10);
        assert(pow2((62 - e) as nat) == p * 1024);
        assert(x * (p * 1024) == (x * p) * 1024) by (nonlinear_arith);
    }
}

} // verus!
