//! JSON numbers and their order.
//!
//! A number is an integer or a double-precision float. Numbers compare by their exact values, an
//! integer and a float with each other too: nothing is rounded. A double is held by its bits, and
//! every double is a whole number of units of 2^-1074, so that the order of numbers is an order of
//! integers.

use crate::text::Order;
use vstd::arithmetic::div_mod::*;
use vstd::arithmetic::mul::*;
use vstd::arithmetic::power2::*;
use vstd::prelude::*;

verus! {

/// A JSON number.
#[derive(Clone, Copy, Debug)]
pub enum Number {
    /// An integer. JSON text gives those from `i64::MIN` to `u64::MAX`.
    Int(i128),
    /// A finite double that was not written as an integer, by its bits.
    Float(u64),
}

/// The integers that JSON text gives.
pub open spec fn integer_in_range(i: int) -> bool {
    i64::MIN <= i <= u64::MAX
}

/// 2 to the power 52: the distance, in bits, from one binary exponent of a double to the next.
pub open spec fn exponent_step() -> nat {
    0x10_0000_0000_0000
}

/// The bit that holds the sign of a double.
pub open spec fn sign_bit() -> nat {
    0x8000_0000_0000_0000
}

/// The size of a double without its sign bit, in units of 2^-1074.
///
/// The bits are an exponent and, in the lower 52 bits, a fraction. With exponent 0 the fraction
/// counts the units. With a higher exponent there is one more bit above the fraction, and each
/// exponent after the first doubles the size. The bits of infinities and of what is no number are
/// read in the same way, which puts them beyond all others.
pub open spec fn magnitude(bits: nat) -> nat {
    let exponent = bits / exponent_step();
    let fraction = bits % exponent_step();
    if exponent == 0 {
        fraction
    } else {
        (exponent_step() + fraction) * pow2((exponent - 1) as nat)
    }
}

/// The exact value of a number, in units of 2^-1074.
pub open spec fn number_value(n: Number) -> int {
    match n {
        Number::Int(i) => i * pow2(1074),
        Number::Float(bits) => if bits < sign_bit() {
            magnitude(bits as nat) as int
        } else {
            -magnitude((bits - sign_bit()) as nat)
        },
    }
}

/// How two integers compare.
pub open spec fn int_order(a: int, b: int) -> Order {
    if a < b {
        Order::Less
    } else if a == b {
        Order::Equal
    } else {
        Order::Greater
    }
}

/// How two numbers compare: as their exact values do.
pub open spec fn number_order(a: Number, b: Number) -> Order {
    int_order(number_value(a), number_value(b))
}

/// A double that is +0 or -0.
pub open spec fn is_zero(bits: u64) -> bool {
    bits == 0 || bits == sign_bit()
}

/// Equality of numbers: an integer equals only an integer, and a float only a float. The two
/// zeros are equal.
pub open spec fn number_eq(a: Number, b: Number) -> bool {
    match (a, b) {
        (Number::Int(x), Number::Int(y)) => x == y,
        (Number::Float(x), Number::Float(y)) => x == y || (is_zero(x) && is_zero(y)),
        _ => false,
    }
}

impl Number {
    /// Are the two numbers equal?
    pub fn equals(self, other: Number) -> (r: bool)
        ensures
            r == number_eq(self, other),
    {
        match (self, other) {
            (Number::Int(x), Number::Int(y)) => x == y,
            (Number::Float(x), Number::Float(y)) => x == y || ((x == 0 || x
                == 0x8000_0000_0000_0000) && (y == 0 || y == 0x8000_0000_0000_0000)),
            _ => false,
        }
    }

    /// Compares the two numbers.
    pub fn compare(self, other: Number) -> (r: Order)
        ensures
            r == number_order(self, other),
    {
        match (self, other) {
            (Number::Int(x), Number::Int(y)) => {
                proof {
                    integers_compare_numerically(x, y);
                }
                if x < y {
                    Order::Less
                } else if x == y {
                    Order::Equal
                } else {
                    Order::Greater
                }
            },
            (Number::Int(x), Number::Float(y)) => compare_with_double(x, y),
            (Number::Float(x), Number::Int(y)) => compare_with_double(y, x).reverse(),
            (Number::Float(x), Number::Float(y)) => compare_doubles(x, y),
        }
    }
}

/// A double with more bits set from the top is larger.
proof fn magnitude_ordered(a: nat, b: nat)
    requires
        a < b,
    ensures
        magnitude(a) < magnitude(b),
{
    let d = exponent_step();
    let (x, f) = (a / d, a % d);
    let (y, g) = (b / d, b % d);
    lemma_fundamental_div_mod(a as int, d as int);
    lemma_fundamental_div_mod(b as int, d as int);
    lemma_div_is_ordered(a as int, b as int, d as int);
    lemma2_to64();
    if x == y {
        assert(f < g);
        if x > 0 {
            let p = pow2((x - 1) as nat);
            lemma_pow2_pos((x - 1) as nat);
            lemma_mul_strict_inequality((d + f) as int, (d + g) as int, p as int);
        }
    } else {
        let q = pow2((y - 1) as nat);
        lemma_pow2_pos((y - 1) as nat);
        lemma_mul_inequality(d as int, (d + g) as int, q as int);
        if x == 0 {
            lemma_mul_inequality(1, q as int, d as int);
            lemma_mul_is_commutative(q as int, d as int);
        } else {
            let p = pow2((x - 1) as nat);
            lemma_pow2_pos((x - 1) as nat);
            lemma_mul_strict_inequality((d + f) as int, (2 * d) as int, p as int);
            lemma_pow2_unfold(x);
            assert((2 * d) * p == d * (2 * p)) by (nonlinear_arith);
            if x < y - 1 {
                lemma_pow2_strictly_increases(x, (y - 1) as nat);
            }
            lemma_mul_inequality((2 * p) as int, q as int, d as int);
            lemma_mul_is_commutative((2 * p) as int, d as int);
            lemma_mul_is_commutative(q as int, d as int);
        }
    }
}

/// Higher bits, without the sign bit, are a larger double.
pub proof fn magnitudes_are_ordered(a: nat, b: nat)
    ensures
        a < b ==> magnitude(a) < magnitude(b),
{
    if a < b {
        magnitude_ordered(a, b);
    }
}

/// Compares two doubles by their bits.
fn compare_doubles(x: u64, y: u64) -> (r: Order)
    ensures
        r == number_order(Number::Float(x), Number::Float(y)),
{
    let negative_x: bool = x >= 0x8000_0000_0000_0000;
    let negative_y: bool = y >= 0x8000_0000_0000_0000;
    let size_x: u64 = if negative_x {
        x - 0x8000_0000_0000_0000
    } else {
        x
    };
    let size_y: u64 = if negative_y {
        y - 0x8000_0000_0000_0000
    } else {
        y
    };
    proof {
        assert(magnitude(0) == 0);
        if size_x < size_y {
            magnitude_ordered(size_x as nat, size_y as nat);
        }
        if size_y < size_x {
            magnitude_ordered(size_y as nat, size_x as nat);
        }
        if size_x > 0 {
            magnitude_ordered(0, size_x as nat);
        }
        if size_y > 0 {
            magnitude_ordered(0, size_y as nat);
        }
    }
    if size_x == 0 && size_y == 0 {
        Order::Equal
    } else if negative_x != negative_y {
        if negative_x {
            Order::Less
        } else {
            Order::Greater
        }
    } else if size_x == size_y {
        Order::Equal
    } else if (size_x < size_y) != negative_x {
        Order::Less
    } else {
        Order::Greater
    }
}

/// 2 to a power.
fn power_of_two(k: u64) -> (r: u128)
    requires
        k < 128,
    ensures
        r == pow2(k as nat),
{
    let mut r: u128 = 1;
    let mut i: u64 = 0;
    proof {
        lemma2_to64();
        lemma2_to64_rest();
    }
    while i < k
        invariant
            i <= k < 128,
            r == pow2(i as nat),
        decreases k - i,
    {
        proof {
            lemma_pow2_unfold((i + 1) as nat);
            power_in_range((i + 1) as nat);
        }
        r = r * 2;
        i = i + 1;
    }
    r
}

/// The powers of two that a `u128` holds.
proof fn power_in_range(k: nat)
    requires
        k < 128,
    ensures
        pow2(k) <= 0x8000_0000_0000_0000_0000_0000_0000_0000,
{
    lemma2_to64();
    lemma2_to64_rest();
    lemma_pow2_adds(64, 63);
    if k < 127 {
        lemma_pow2_strictly_increases(k, 127);
    }
}

/// Comparing two products with a common factor compares the other factors.
proof fn common_factor(a: int, b: int, c: int)
    requires
        c > 0,
    ensures
        int_order(a * c, b * c) == int_order(a, b),
{
    if a < b {
        lemma_mul_strict_inequality(a, b, c);
    }
    if b < a {
        lemma_mul_strict_inequality(b, a, c);
    }
}

/// Compares a natural number with a double that has no sign bit.
fn compare_sizes(n: u128, bits: u64) -> (r: Order)
    requires
        bits < 0x8000_0000_0000_0000,
    ensures
        r == int_order(n * pow2(1074), magnitude(bits as nat) as int),
{
    let exponent: u64 = bits / 0x10_0000_0000_0000;
    let fraction: u64 = bits % 0x10_0000_0000_0000;
    let significand: u64 = if exponent == 0 {
        fraction
    } else {
        0x10_0000_0000_0000 + fraction
    };
    let shift: u64 = if exponent == 0 {
        1
    } else {
        exponent
    };
    proof {
        lemma2_to64();
        lemma2_to64_rest();
        assert(exponent == bits as nat / exponent_step());
        assert(fraction == bits as nat % exponent_step());
        assert(magnitude(bits as nat) == significand * pow2((shift - 1) as nat)) by {
            lemma_mul_basics(significand as int);
        }
        assert(significand < pow2(53));
    }
    if shift >= 1075 {
        // The double is the significand times a power of two.
        let k: u64 = shift - 1075;
        proof {
            lemma_pow2_adds(k as nat, 1074);
            lemma_mul_is_associative(
                significand as int,
                pow2(k as nat) as int,
                pow2(1074) as int,
            );
            lemma_pow2_pos(1074);
            common_factor(n as int, significand * pow2(k as nat), pow2(1074) as int);
        }
        if k > 75 {
            proof {
                lemma_pow2_strictly_increases(75, k as nat);
                lemma_pow2_unfold(76);
                if k > 76 {
                    lemma_pow2_strictly_increases(76, k as nat);
                }
                lemma_pow2_adds(52, 76);
                lemma_pow2_adds(64, 64);
                lemma_mul_inequality(
                    pow2(52) as int,
                    significand as int,
                    pow2(k as nat) as int,
                );
                lemma_mul_inequality(pow2(76) as int, pow2(k as nat) as int, pow2(52) as int);
                lemma_mul_is_commutative(pow2(76) as int, pow2(52) as int);
                lemma_mul_is_commutative(pow2(k as nat) as int, pow2(52) as int);
            }
            return Order::Less;
        }
        let p: u128 = power_of_two(k);
        proof {
            lemma_pow2_adds(53, 75);
            lemma_pow2_adds(64, 64);
            if k < 75 {
                lemma_pow2_strictly_increases(k as nat, 75);
            }
            lemma_pow2_pos(k as nat);
            lemma_mul_strict_inequality(significand as int, pow2(53) as int, p as int);
            lemma_mul_inequality(p as int, pow2(75) as int, pow2(53) as int);
            lemma_mul_is_commutative(p as int, pow2(53) as int);
            lemma_mul_is_commutative(pow2(75) as int, pow2(53) as int);
        }
        let whole: u128 = significand as u128 * p;
        if n < whole {
            Order::Less
        } else if n == whole {
            Order::Equal
        } else {
            Order::Greater
        }
    } else {
        // The significand is the double times a power of two.
        let k: u64 = 1075 - shift;
        proof {
            lemma_pow2_adds(k as nat, (shift - 1) as nat);
            lemma_mul_is_associative(
                n as int,
                pow2(k as nat) as int,
                pow2((shift - 1) as nat) as int,
            );
            lemma_pow2_pos((shift - 1) as nat);
            common_factor(
                n * pow2(k as nat),
                significand as int,
                pow2((shift - 1) as nat) as int,
            );
            lemma_pow2_pos(k as nat);
        }
        if n == 0 {
            if significand == 0 {
                return Order::Equal;
            }
            return Order::Less;
        }
        if k >= 53 {
            proof {
                if k > 53 {
                    lemma_pow2_strictly_increases(53, k as nat);
                }
                lemma_mul_inequality(1, n as int, pow2(k as nat) as int);
            }
            return Order::Greater;
        }
        if n >= 0x20_0000_0000_0000 {
            proof {
                lemma_mul_inequality(1, pow2(k as nat) as int, n as int);
                lemma_mul_is_commutative(pow2(k as nat) as int, n as int);
            }
            return Order::Greater;
        }
        let p: u128 = power_of_two(k);
        proof {
            lemma_pow2_strictly_increases(k as nat, 53);
            lemma_pow2_adds(53, 53);
            lemma_pow2_adds(64, 42);
            power_in_range(106);
            lemma_mul_strict_inequality(n as int, pow2(53) as int, p as int);
            lemma_mul_inequality(p as int, pow2(53) as int, pow2(53) as int);
            lemma_mul_is_commutative(p as int, pow2(53) as int);
        }
        let whole: u128 = n * p;
        let other: u128 = significand as u128;
        if whole < other {
            Order::Less
        } else if whole == other {
            Order::Equal
        } else {
            Order::Greater
        }
    }
}

/// Compares an integer with a double.
fn compare_with_double(i: i128, bits: u64) -> (r: Order)
    ensures
        r == number_order(Number::Int(i), Number::Float(bits)),
{
    let negative: bool = bits >= 0x8000_0000_0000_0000;
    let size: u64 = if negative {
        bits - 0x8000_0000_0000_0000
    } else {
        bits
    };
    proof {
        lemma_pow2_pos(1074);
        assert(magnitude(0) == 0);
        if size > 0 {
            magnitude_ordered(0, size as nat);
        }
        common_factor(i as int, 0, pow2(1074) as int);
        assert(0 * pow2(1074) == 0);
    }
    if i >= 0 {
        if negative && (i > 0 || size > 0) {
            return Order::Greater;
        }
        compare_sizes(i as u128, size)
    } else {
        if !negative {
            return Order::Less;
        }
        // The size of the lowest integer is one above that of the highest.
        let n: u128 = (-(i + 1)) as u128 + 1;
        assert((-i) * pow2(1074) == -(i * pow2(1074))) by (nonlinear_arith);
        compare_sizes(n, size).reverse()
    }
}

/// Integers compare as integers do.
pub proof fn integers_compare_numerically(i: i128, j: i128)
    ensures
        number_order(Number::Int(i), Number::Int(j)) == int_order(i as int, j as int),
{
    lemma_pow2_pos(1074);
    common_factor(i as int, j as int, pow2(1074) as int);
}

/// Numbers that are equal compare equal.
pub proof fn equal_numbers_compare_equal(a: Number, b: Number)
    requires
        number_eq(a, b),
    ensures
        number_order(a, b) == Order::Equal,
{
    assert(magnitude(0) == 0);
}

/// A power of two, as an integer, compares equal to the double that it is.
pub proof fn powers_of_two_compare_equal(k: nat)
    requires
        k < 127,
    ensures
        pow2(k) <= i128::MAX,
        (k + 1023) * exponent_step() < sign_bit(),
        number_order(
            Number::Int(pow2(k) as i128),
            Number::Float(((k + 1023) * exponent_step()) as u64),
        ) == Order::Equal,
{
    let bits = (k + 1023) * exponent_step();
    lemma2_to64();
    lemma2_to64_rest();
    lemma_pow2_adds(64, 63);
    lemma_pow2_strictly_increases(k, 127);
    lemma_div_by_multiple((k + 1023) as int, exponent_step() as int);
    lemma_mod_multiples_basic((k + 1023) as int, exponent_step() as int);
    lemma_pow2_adds(52, k + 1022);
    lemma_pow2_adds(k, 1074);
}

impl PartialEq for Number {
    fn eq(&self, other: &Number) -> (r: bool) {
        self.equals(*other)
    }
}

impl vstd::std_specs::cmp::PartialEqSpecImpl for Number {
    open spec fn obeys_eq_spec() -> bool {
        true
    }

    open spec fn eq_spec(&self, other: &Number) -> bool {
        number_eq(*self, *other)
    }
}

} // verus!
