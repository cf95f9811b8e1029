//! Doubles by their bit patterns: the order of numbers, rounding to integers, truth.
use vstd::arithmetic::power2::{lemma2_to64, lemma2_to64_rest, lemma_pow2_adds, lemma_pow2_pos, lemma_pow2_strictly_increases, lemma_pow2_unfold, pow2};
use vstd::prelude::*;
use crate::text::{decimal_text, integer_text};
use crate::value::{double_text, finite_bits, Num, Number, Real};

verus! {

/// The position of a double in the order of doubles: its magnitude bits, negated under a sign.
pub open spec fn order_key(bits: u64) -> int {
    if bits < 0x8000_0000_0000_0000 {
        bits as int
    } else {
        0x8000_0000_0000_0000 - bits
    }
}

/// The whole part of the binary logarithm.
pub open spec fn log2(n: nat) -> nat
    decreases n,
{
    if n < 2 {
        0
    } else {
        1 + log2(n / 2)
    }
}

/// The quotient rounded to the nearest integer, ties to even.
pub open spec fn round_half_even(n: nat, d: nat) -> nat {
    let q = n / d;
    let r = n % d;
    if 2 * r < d || (2 * r == d && q % 2 == 0) {
        q
    } else {
        q + 1
    }
}

/// The bits of the double nearest to a whole number, ties to the even significand: the exponent
/// field, then the significand without its leading one (which carries into the exponent where
/// rounding overflows it).
pub open spec fn whole_bits(n: nat) -> int {
    if n == 0 {
        0
    } else {
        let e = log2(n);
        let significand = if e <= 52 {
            n * pow2((52 - e) as nat)
        } else {
            round_half_even(n, pow2((e - 52) as nat))
        };
        (1023 + e) * 0x10_0000_0000_0000 + significand - 0x10_0000_0000_0000
    }
}

/// The position of a number in the order of doubles.
pub open spec fn num_key(number: Num) -> int {
    match number {
        Num::PosInt(n) => whole_bits(n as nat),
        Num::NegInt(n) => if n < 0 {
            -whole_bits((-n) as nat)
        } else {
            whole_bits(n as nat)
        },
        Num::Float(bits) => order_key(bits),
    }
}

proof fn lemma_log2_bounds(n: nat)
    requires
        n >= 1,
    ensures
        pow2(log2(n)) <= n < pow2(log2(n) + 1),
    decreases n,
{
    lemma2_to64();
    if n >= 2 {
        lemma_log2_bounds(n / 2);
        lemma_pow2_unfold(log2(n));
        lemma_pow2_unfold(log2(n) + 1);
    }
}

proof fn lemma_log2_small(n: nat)
    requires
        1 <= n <= 0xffff_ffff_ffff_ffff,
    ensures
        log2(n) <= 63,
{
    lemma_log2_bounds(n);
    lemma2_to64_rest();
    if log2(n) > 63 {
        if log2(n) > 64 {
            lemma_pow2_strictly_increases(64, log2(n));
        }
    }
}

/// A power of two.
pub fn power_of_two(exponent: u64) -> (power: u64)
    requires
        exponent <= 63,
    ensures
        power == pow2(exponent as nat),
{
    let mut power: u64 = 1;
    let mut i: u64 = 0;
    proof {
        lemma2_to64();
    }
    while i < exponent
        invariant
            i <= exponent <= 63,
            power == pow2(i as nat),
        decreases exponent - i,
    {
        proof {
            lemma2_to64_rest();
            lemma_pow2_unfold((i + 1) as nat);
            if i + 1 < 64 {
                lemma_pow2_strictly_increases((i + 1) as nat, 64);
            }
        }
        power = power * 2;
        i = i + 1;
    }
    power
}

fn binary_log(n: u64) -> (log: u64)
    requires
        n >= 1,
    ensures
        log == log2(n as nat),
        log <= 63,
{
    let mut m: u64 = n;
    let mut log: u64 = 0;
    proof {
        lemma_log2_small(n as nat);
    }
    while m >= 2
        invariant
            m >= 1,
            log2(n as nat) == log + log2(m as nat),
            log2(n as nat) <= 63,
        decreases m,
    {
        m = m / 2;
        log = log + 1;
    }
    log
}

/// The bits of the double nearest to a whole number.
pub fn nearest_double(n: u64) -> (bits: u64)
    ensures
        bits == whole_bits(n as nat),
        bits < 0x7ff0_0000_0000_0000,
{
    if n == 0 {
        return 0;
    }
    let e: u64 = binary_log(n);
    proof {
        lemma_log2_bounds(n as nat);
        lemma2_to64();
        lemma2_to64_rest();
    }
    let significand: u64 = if e <= 52 {
        let power: u64 = power_of_two(52 - e);
        proof {
            lemma_pow2_adds((e + 1) as nat, (52 - e) as nat);
            lemma_pow2_adds(e as nat, (52 - e) as nat);
            let (a, b, c) = (n as int, pow2((e + 1) as nat) as int, power as int);
            assert(a * c < b * c) by (nonlinear_arith)
                requires
                    a < b,
                    c > 0,
            ;
            let d = pow2(e as nat) as int;
            assert(a * c >= d * c) by (nonlinear_arith)
                requires
                    a >= d,
                    c > 0,
            ;
        }
        n * power
    } else {
        let power: u64 = power_of_two(e - 52);
        let q: u64 = n / power;
        let r: u64 = n % power;
        proof {
            lemma_pow2_adds(53, (e - 52) as nat);
            lemma_pow2_adds(52, (e - 52) as nat);
            let (a, p) = (n as int, power as int);
            assert(a / p < 0x20_0000_0000_0000 && a / p >= 0x10_0000_0000_0000) by (nonlinear_arith)
                requires
                    a < 0x20_0000_0000_0000 * p,
                    a >= 0x10_0000_0000_0000 * p,
                    p > 0,
            ;
            assert(0 <= a % p < p) by (nonlinear_arith)
                requires
                    p > 0,
            ;
            if e - 52 < 11 {
                lemma_pow2_strictly_increases((e - 52) as nat, 11);
            }
        }
        if 2 * r < power || (2 * r == power && q % 2 == 0) {
            q
        } else {
            q + 1
        }
    };
    (1023 + e) * 0x10_0000_0000_0000 + (significand - 0x10_0000_0000_0000)
}

/// The position of a number in the order of doubles.
pub fn number_key(number: &Number) -> (key: i128)
    ensures
        key == num_key(number@),
{
    match number {
        Number::PosInt(n) => nearest_double(*n) as i128,
        Number::NegInt(n) => if *n < 0 {
            -(nearest_double((-(*n as i128)) as u64) as i128)
        } else {
            nearest_double(*n as u64) as i128
        },
        Number::Float(r) => double_key(r.bits()),
    }
}

/// The position of a double in the order of doubles.
pub fn double_key(bits: u64) -> (key: i128)
    ensures
        key == order_key(bits),
{
    if bits < 0x8000_0000_0000_0000 {
        bits as i128
    } else {
        0x8000_0000_0000_0000 - bits as i128
    }
}

/// The bits of the double that a number is read as.
pub open spec fn num_bits(number: Num) -> int {
    match number {
        Num::PosInt(n) => whole_bits(n as nat),
        Num::NegInt(n) => if n < 0 {
            0x8000_0000_0000_0000 + whole_bits((-n) as nat)
        } else {
            whole_bits(n as nat)
        },
        Num::Float(bits) => bits as int,
    }
}

/// The bits of the double that a number is read as.
pub fn number_bits(number: &Number) -> (bits: u64)
    ensures
        bits == num_bits(number@),
        finite_bits(bits),
{
    match number {
        Number::PosInt(n) => nearest_double(*n),
        Number::NegInt(n) => if *n < 0 {
            0x8000_0000_0000_0000 + nearest_double((-(*n as i128)) as u64)
        } else {
            nearest_double(*n as u64)
        },
        Number::Float(r) => r.bits(),
    }
}

/// Whether a number is not zero.
pub open spec fn nonzero(number: Num) -> bool {
    match number {
        Num::PosInt(n) => n != 0,
        Num::NegInt(n) => n != 0,
        Num::Float(bits) => bits % 0x8000_0000_0000_0000 != 0,
    }
}

/// Whether a number is not zero.
pub fn is_nonzero(number: &Number) -> (answer: bool)
    ensures
        answer == nonzero(number@),
{
    match number {
        Number::PosInt(n) => *n != 0,
        Number::NegInt(n) => *n != 0,
        Number::Float(r) => r.bits() % 0x8000_0000_0000_0000 != 0,
    }
}

/// The significand of a normal double, leading one included.
pub open spec fn significand(bits: u64) -> nat {
    0x10_0000_0000_0000 + (bits as nat) % 0x10_0000_0000_0000
}

/// The exponent field of a double.
pub open spec fn exponent_field(bits: u64) -> nat {
    (bits as nat) % 0x8000_0000_0000_0000 / 0x10_0000_0000_0000
}

/// The whole part of the magnitude of a finite double.
pub open spec fn whole_part(bits: u64) -> nat {
    let e = exponent_field(bits);
    if e < 1023 {
        0
    } else if e < 1075 {
        significand(bits) / pow2((1075 - e) as nat)
    } else {
        significand(bits) * pow2((e - 1075) as nat)
    }
}

/// Whether a finite double has a fractional part.
pub open spec fn fractional(bits: u64) -> bool {
    let e = exponent_field(bits);
    if e < 1023 {
        bits % 0x8000_0000_0000_0000 != 0
    } else if e < 1075 {
        significand(bits) % pow2((1075 - e) as nat) != 0
    } else {
        false
    }
}

/// The largest integer that is not above a finite double.
pub open spec fn floor_of(bits: u64) -> int {
    if bits < 0x8000_0000_0000_0000 {
        whole_part(bits) as int
    } else if fractional(bits) {
        -(whole_part(bits) as int) - 1
    } else {
        -(whole_part(bits) as int)
    }
}

/// The smallest integer that is not below a finite double.
pub open spec fn ceil_of(bits: u64) -> int {
    if bits >= 0x8000_0000_0000_0000 {
        -(whole_part(bits) as int)
    } else if fractional(bits) {
        whole_part(bits) as int + 1
    } else {
        whole_part(bits) as int
    }
}

/// The integer of 64 bits nearest to an integer.
pub open spec fn saturated(n: int) -> int {
    if n < i64::MIN {
        i64::MIN as int
    } else if n > i64::MAX {
        i64::MAX as int
    } else {
        n
    }
}

/// The whole part of a magnitude, or 2^64 - 1 where it is not smaller, and whether a fractional
/// part is left.
fn split_double(bits: u64) -> (parts: (u64, bool))
    requires
        finite_bits(bits),
    ensures
        parts.1 == fractional(bits),
        whole_part(bits) < 0xffff_ffff_ffff_ffff ==> parts.0 == whole_part(bits),
        whole_part(bits) >= 0xffff_ffff_ffff_ffff ==> parts.0 == 0xffff_ffff_ffff_ffff,
{
    let magnitude: u64 = bits % 0x8000_0000_0000_0000;
    let e: u64 = magnitude / 0x10_0000_0000_0000;
    let m: u64 = 0x10_0000_0000_0000 + bits % 0x10_0000_0000_0000;
    proof {
        lemma2_to64();
        lemma2_to64_rest();
    }
    if e < 1023 {
        (0, magnitude != 0)
    } else if e < 1075 {
        let power: u64 = power_of_two(1075 - e);
        proof {
            let (a, p) = (m as int, power as int);
            assert(a / p <= a && 0 <= a / p) by (nonlinear_arith)
                requires
                    p > 0,
                    a >= 0,
            ;
        }
        (m / power, m % power != 0)
    } else if e < 1086 {
        let power: u64 = power_of_two(e - 1075);
        proof {
            if e - 1075 < 10 {
                lemma_pow2_strictly_increases((e - 1075) as nat, 10);
            }
            let (a, p) = (m as int, power as int);
            assert(a * p < 0x20_0000_0000_0000 * 1024 && a * p >= 0) by (nonlinear_arith)
                requires
                    0 <= a < 0x20_0000_0000_0000,
                    1 <= p <= 1024,
            ;
        }
        (m * power, false)
    } else if e < 1087 {
        proof {
            let a = m as int;
            assert(a * 2048 < 0x20_0000_0000_0000 * 2048);
        }
        (m * 2048, false)
    } else {
        proof {
            lemma_pow2_adds(12, (e - 1087) as nat);
            lemma_pow2_pos((e - 1087) as nat);
            let (a, p, q) = (m as int, pow2((e - 1075) as nat) as int, pow2((e - 1087) as nat) as int);
            assert(a * p >= 0x10_0000_0000_0000 * 4096) by (nonlinear_arith)
                requires
                    a >= 0x10_0000_0000_0000,
                    p == 4096 * q,
                    q >= 1,
            ;
        }
        (0xffff_ffff_ffff_ffff, false)
    }
}

/// The largest integer that is not above a double, saturated to 64 bits.
pub fn floor_bits(bits: u64) -> (result: i64)
    requires
        finite_bits(bits),
    ensures
        result == saturated(floor_of(bits)),
{
    let (whole, fraction) = split_double(bits);
    let n: i128 = if bits < 0x8000_0000_0000_0000 {
        whole as i128
    } else if fraction {
        -(whole as i128) - 1
    } else {
        -(whole as i128)
    };
    saturate(n)
}

/// The smallest integer that is not below a double, saturated to 64 bits.
pub fn ceil_bits(bits: u64) -> (result: i64)
    requires
        finite_bits(bits),
    ensures
        result == saturated(ceil_of(bits)),
{
    let (whole, fraction) = split_double(bits);
    let n: i128 = if bits >= 0x8000_0000_0000_0000 {
        -(whole as i128)
    } else if fraction {
        whole as i128 + 1
    } else {
        whole as i128
    };
    saturate(n)
}

fn saturate(n: i128) -> (result: i64)
    ensures
        result == saturated(n as int),
{
    if n < i64::MIN as i128 {
        i64::MIN
    } else if n > i64::MAX as i128 {
        i64::MAX
    } else {
        n as i64
    }
}

/// The number for an integer of 64 bits.
pub open spec fn integer_num(n: i64) -> Num {
    if n >= 0 {
        Num::PosInt(n as u64)
    } else {
        Num::NegInt(n)
    }
}

/// The number for an integer of 64 bits.
pub fn integer_number(n: i64) -> (number: Number)
    ensures
        number@ == integer_num(n),
{
    if n >= 0 {
        Number::PosInt(n as u64)
    } else {
        Number::NegInt(n)
    }
}

/// A double as a number: an integer where it has no fractional part and lies between -2^63 and
/// 2^63 (which becomes 2^63 - 1), else the double itself.
pub open spec fn compact_num(bits: u64) -> Num {
    if !fractional(bits) && -0x8000_0000_0000_0000 <= floor_of(bits) <= 0x8000_0000_0000_0000 {
        integer_num(saturated(floor_of(bits)) as i64)
    } else {
        Num::Float(bits)
    }
}

/// A double as a number, an integer where it stands for one.
pub fn compact_number(double: &Real) -> (number: Number)
    ensures
        number@ == compact_num(double@),
{
    let bits: u64 = double.bits();
    let (whole, fraction) = split_double(bits);
    if !fraction && whole <= 0x8000_0000_0000_0000 {
        integer_number(floor_bits(bits))
    } else {
        Number::Float(double.copy())
    }
}

/// The JSON text of a number.
pub open spec fn num_text(number: Num) -> Seq<char> {
    match number {
        Num::PosInt(n) => integer_text(n as int),
        Num::NegInt(n) => integer_text(n as int),
        Num::Float(bits) => double_text(bits),
    }
}

/// The JSON text of a number.
pub fn number_text(number: &Number) -> (text: String)
    ensures
        text@ == num_text(number@),
{
    match number {
        Number::PosInt(n) => decimal_text(*n as i128),
        Number::NegInt(n) => decimal_text(*n as i128),
        Number::Float(r) => r.json_text(),
    }
}

/// A number as a double. The conversion is `serde_json::Number::as_f64`, which gives the double
/// nearest to an integer, ties to the even significand, and a double as it is.
#[verifier::external_body]
pub(crate) fn to_double(number: &Number) -> (double: Real)
    ensures
        double@ == num_bits(number@),
{
    let outside = match number {
        Number::PosInt(n) => serde_json::Number::from(*n),
        Number::NegInt(n) => serde_json::Number::from(*n),
        Number::Float(r) => return r.copy(),
    };
    outside.as_f64().and_then(serde_json::Number::from_f64).and_then(|n| Real::read(&n.to_string())).unwrap()
}

/// A double without a fractional part is its own floor and ceiling, and any other lies between two
/// neighbouring integers.
pub proof fn lemma_floor_ceil(bits: u64)
    ensures
        !fractional(bits) ==> ceil_of(bits) == floor_of(bits),
        fractional(bits) ==> ceil_of(bits) == floor_of(bits) + 1,
{
}

proof fn lemma_rounding_grows(m: nat, n: nat, d: nat)
    requires
        m <= n,
        d > 0,
    ensures
        round_half_even(m, d) <= round_half_even(n, d),
{
    let (a, b, c) = (m as int, n as int, d as int);
    assert(a / c <= b / c && (a / c == b / c ==> a % c <= b % c)) by (nonlinear_arith)
        requires
            a <= b,
            c > 0,
    ;
}

proof fn lemma_log2_grows(m: nat, n: nat)
    requires
        1 <= m <= n,
    ensures
        log2(m) <= log2(n),
    decreases n,
{
    if m >= 2 {
        lemma_log2_grows(m / 2, n / 2);
    }
}

/// Where the significand of a whole number lies.
proof fn lemma_significand_bounds(n: nat)
    requires
        n >= 1,
    ensures
        (1023 + log2(n)) * 0x10_0000_0000_0000 <= whole_bits(n) <= (1024 + log2(n)) * 0x10_0000_0000_0000,
{
    let e = log2(n);
    lemma_log2_bounds(n);
    lemma2_to64();
    lemma2_to64_rest();
    if e <= 52 {
        let power = pow2((52 - e) as nat);
        lemma_pow2_pos((52 - e) as nat);
        lemma_pow2_adds((e + 1) as nat, (52 - e) as nat);
        lemma_pow2_adds(e as nat, (52 - e) as nat);
        let (a, b, c, d) = (n as int, pow2((e + 1) as nat) as int, power as int, pow2(e) as int);
        assert(d * c <= a * c < b * c) by (nonlinear_arith)
            requires
                d <= a < b,
                c > 0,
        ;
    } else {
        let power = pow2((e - 52) as nat);
        lemma_pow2_pos((e - 52) as nat);
        lemma_pow2_adds(53, (e - 52) as nat);
        lemma_pow2_adds(52, (e - 52) as nat);
        let (a, p) = (n as int, power as int);
        assert(a / p < 0x20_0000_0000_0000 && a / p >= 0x10_0000_0000_0000) by (nonlinear_arith)
            requires
                a < 0x20_0000_0000_0000 * p,
                a >= 0x10_0000_0000_0000 * p,
                p > 0,
        ;
    }
}

/// Whole numbers keep their order as doubles.
pub proof fn lemma_whole_numbers_order(m: nat, n: nat)
    requires
        m <= n,
    ensures
        whole_bits(m) <= whole_bits(n),
{
    if m == 0 {
        if n > 0 {
            lemma_significand_bounds(n);
        }
    } else {
        lemma_log2_grows(m, n);
        let (e, f) = (log2(m), log2(n));
        lemma_significand_bounds(m);
        lemma_significand_bounds(n);
        if e < f {
            assert((1024 + e) * 0x10_0000_0000_0000 <= (1023 + f) * 0x10_0000_0000_0000);
        } else if e <= 52 {
            let c = pow2((52 - e) as nat) as int;
            let (a, b) = (m as int, n as int);
            assert(a * c <= b * c) by (nonlinear_arith)
                requires
                    a <= b,
                    c >= 0,
            ;
        } else {
            lemma_pow2_pos((e - 52) as nat);
            lemma_rounding_grows(m, n, pow2((e - 52) as nat));
        }
    }
}

/// Integers are ordered by value, be they negative or not.
pub proof fn lemma_integers_order(m: i64, n: i64)
    requires
        m <= n,
    ensures
        num_key(integer_num(m)) <= num_key(integer_num(n)),
{
    if m >= 0 {
        lemma_whole_numbers_order(m as nat, n as nat);
    } else if n < 0 {
        lemma_whole_numbers_order((-n) as nat, (-m) as nat);
    } else {
        lemma_whole_numbers_order(0, n as nat);
        lemma_whole_numbers_order(0, (-m) as nat);
    }
}

/// The bits of a whole number below 2^53 are those of a double without a fractional part, whose
/// whole part is that number.
pub proof fn lemma_whole_number_is_exact(n: nat)
    requires
        n < 0x20_0000_0000_0000,
    ensures
        0 <= whole_bits(n) < 0x7ff0_0000_0000_0000,
        whole_part(whole_bits(n) as u64) == n,
        !fractional(whole_bits(n) as u64),
{
    if n == 0 {
        assert(0nat % 0x8000_0000_0000_0000 / 0x10_0000_0000_0000 == 0);
    } else {
        let e = log2(n);
        lemma_log2_bounds(n);
        lemma2_to64();
        lemma2_to64_rest();
        if e > 52 {
            if e > 53 {
                lemma_pow2_strictly_increases(53, e);
            }
            assert(pow2(53) <= n);
        }
        let c = pow2((52 - e) as nat) as int;
        lemma_pow2_pos((52 - e) as nat);
        lemma_pow2_adds((e + 1) as nat, (52 - e) as nat);
        lemma_pow2_adds(e as nat, (52 - e) as nat);
        let (a, b, d) = (n as int, pow2((e + 1) as nat) as int, pow2(e) as int);
        assert(d * c <= a * c < b * c) by (nonlinear_arith)
            requires
                d <= a < b,
                c > 0,
        ;
        let sig = a * c;
        assert(0x10_0000_0000_0000 <= sig < 0x20_0000_0000_0000);
        let bits = whole_bits(n);
        assert(bits == (1023 + e) * 0x10_0000_0000_0000 + (sig - 0x10_0000_0000_0000));
        assert(bits < 0x7ff0_0000_0000_0000);
        assert(exponent_field(bits as u64) == 1023 + e);
        assert(significand(bits as u64) == sig);
        assert(sig / c == a && sig % c == 0) by (nonlinear_arith)
            requires
                sig == a * c,
                c > 0,
        ;
        if e == 52 {
            assert(pow2(0) == 1);
            assert(sig * 1 == sig && a * 1 == a);
            assert(whole_part(bits as u64) == significand(bits as u64) * pow2(0));
        }
    }
}

/// A double from zero up to 2^53 lies at or above its whole part and below the next integer.
pub proof fn lemma_whole_part_is_below(bits: u64)
    requires
        exponent_field(bits) < 1075,
        bits < 0x8000_0000_0000_0000,
    ensures
        whole_bits(whole_part(bits)) <= bits < whole_bits(whole_part(bits) + 1),
        fractional(bits) <==> whole_bits(whole_part(bits)) != bits,
{
    let e = exponent_field(bits);
    lemma2_to64();
    lemma2_to64_rest();
    if e < 1023 {
        assert(log2(1) == 0);
        assert(whole_bits(1) == 1023 * 0x10_0000_0000_0000);
    } else {
        let k = (e - 1023) as nat;
        let c = pow2((52 - k) as nat) as int;
        lemma_pow2_pos((52 - k) as nat);
        lemma_pow2_adds(k, (52 - k) as nat);
        lemma_pow2_adds(k + 1, (52 - k) as nat);
        let s = significand(bits) as int;
        let w = s / c;
        let (low, high) = (pow2(k) as int, pow2(k + 1) as int);
        assert(low <= w < high && w * c <= s < (w + 1) * c && (s % c != 0 <==> w * c != s)) by (nonlinear_arith)
            requires
                w == s / c,
                c > 0,
                low * c == 0x10_0000_0000_0000,
                high * c == 0x20_0000_0000_0000,
                0x10_0000_0000_0000 <= s < 0x20_0000_0000_0000,
        ;
        assert(bits == (1023 + k) * 0x10_0000_0000_0000 + (s - 0x10_0000_0000_0000));
        lemma_pow2_pos(k);
        lemma_log2_is(w as nat, k);
        if w + 1 < high {
            lemma_log2_is((w + 1) as nat, k);
        } else {
            lemma_pow2_unfold(k + 2);
            lemma_log2_is((w + 1) as nat, k + 1);
            if k + 1 <= 52 {
                lemma_pow2_adds(k + 1, (51 - k) as nat);
            }
            assert(whole_bits((w + 1) as nat) >= (1024 + k) * 0x10_0000_0000_0000) by {
                lemma_significand_bounds((w + 1) as nat);
            }
        }
    }
}

proof fn lemma_log2_is(n: nat, k: nat)
    requires
        pow2(k) <= n < pow2(k + 1),
    ensures
        log2(n) == k,
{
    lemma_pow2_pos(k);
    lemma_log2_bounds(n);
    let e = log2(n);
    if e < k {
        if e + 1 < k {
            lemma_pow2_strictly_increases(e + 1, k);
        }
    } else if e > k {
        if k + 1 < e {
            lemma_pow2_strictly_increases(k + 1, e);
        }
    }
}

/// Integers between -2^53 and 2^53 are told apart as doubles: the smaller one comes first.
pub proof fn lemma_integers_differ(m: i64, n: i64)
    requires
        -0x20_0000_0000_0000 < m < n < 0x20_0000_0000_0000,
    ensures
        num_key(integer_num(m)) < num_key(integer_num(n)),
{
    lemma_integers_order(m, n);
    let (a, b) = (if m < 0 { -m } else { m as int }, if n < 0 { -n } else { n as int });
    lemma_whole_number_is_exact(a as nat);
    lemma_whole_number_is_exact(b as nat);
    assert(whole_bits(0) == 0);
    if m < 0 && n >= 0 {
        lemma_significand_bounds(a as nat);
    }
}

/// The bits of a whole number of 64 bits are those of a double without a sign, and not zero where it
/// is not.
pub proof fn lemma_whole_bits_bound(n: nat)
    requires
        n <= 0xffff_ffff_ffff_ffff,
    ensures
        0 <= whole_bits(n) < 0x7ff0_0000_0000_0000,
        n > 0 ==> whole_bits(n) > 0,
{
    if n > 0 {
        lemma_log2_small(n);
        lemma_significand_bounds(n);
    }
}

/// A double from 2^52 on is a whole number, whose bits it has.
pub proof fn lemma_large_double_is_whole(bits: u64)
    requires
        1075 <= exponent_field(bits),
        bits < 0x8000_0000_0000_0000,
    ensures
        whole_bits(whole_part(bits)) == bits,
        !fractional(bits),
{
    let e = exponent_field(bits);
    let k = (e - 1075) as nat;
    let c = pow2(k) as int;
    let s = significand(bits) as int;
    lemma2_to64();
    lemma2_to64_rest();
    lemma_pow2_pos(k);
    lemma_pow2_adds(52, k);
    lemma_pow2_adds(53, k);
    let w = s * c;
    assert(0x10_0000_0000_0000 * c <= w < 0x20_0000_0000_0000 * c) by (nonlinear_arith)
        requires
            w == s * c,
            0x10_0000_0000_0000 <= s < 0x20_0000_0000_0000,
            c > 0,
    ;
    lemma_log2_is(w as nat, 52 + k);
    assert(w / c == s && w % c == 0) by (nonlinear_arith)
        requires
            w == s * c,
            c > 0,
    ;
    if k == 0 {
        assert(s * 1 == s);
    } else {
        assert(round_half_even(w as nat, c as nat) == s);
    }
    assert(bits == (1023 + 52 + k) * 0x10_0000_0000_0000 + (s - 0x10_0000_0000_0000));
}

/// A rounded quotient is nearest to the quotient: its multiple is off by half a divisor at most, and
/// where it is off by just half of one, the quotient is even.
pub proof fn lemma_rounding_is_nearest(n: nat, d: nat)
    requires
        d > 0,
    ensures
        -(d as int) <= 2 * (round_half_even(n, d) * d - n) <= d,
        2 * (round_half_even(n, d) * d - n) == d || 2 * (n - round_half_even(n, d) * d) == d ==> round_half_even(n, d) % 2 == 0,
{
    let (q, r) = (n as int / d as int, n as int % d as int);
    vstd::arithmetic::div_mod::lemma_fundamental_div_mod(n as int, d as int);
    assert(0 <= r < d);
    assert(q * d + r == n) by (nonlinear_arith)
        requires
            n == d * q + r,
    ;
    assert((q + 1) * d == q * d + d) by (nonlinear_arith);
}

/// The bits of one are those of an exponent of zero, and twice a number has an exponent greater by one.
pub proof fn lemma_doubling(n: nat)
    requires
        0 < n < 0x10_0000_0000_0000,
    ensures
        whole_bits(0) == 0,
        whole_bits(1) == 0x3ff0_0000_0000_0000,
        whole_bits(2 * n) == whole_bits(n) + 0x10_0000_0000_0000,
{
    lemma2_to64();
    lemma2_to64_rest();
    assert(log2(1) == 0);
    let e = log2(n);
    lemma_log2_bounds(n);
    if e >= 52 {
        if e > 52 {
            lemma_pow2_strictly_increases(52, e);
        }
        assert(pow2(52) <= n);
    }
    assert((2 * n) / 2 == n);
    assert(log2(2 * n) == 1 + e);
    lemma_pow2_unfold((52 - e) as nat);
    let c = pow2((51 - e) as nat) as int;
    assert((2 * n) * c == n * (2 * c)) by (nonlinear_arith);
}

} // verus!
