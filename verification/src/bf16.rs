//! bfloat16 bit patterns, without floating point.
//!
//! A positive normal pattern is `e * 128 + m`, with `m` under 128, and stands
//! for `(128 + m) * 2^(e - 134)`; the top bit is the sign. An `f32` pattern is
//! the same with sixteen more bits of mantissa below.

use vstd::arithmetic::power2::pow2;
use vstd::prelude::*;

verus! {

/// One.
pub const BF16_ONE: u16 = 0x3F80;

/// The sign bit.
pub const BF16_SIGN: u16 = 0x8000;

/// The integer nearest to `x / d`, the even one of two that are as near.
pub open spec fn nearest_even(x: int, d: int) -> int {
    let q = x / d;
    let r = x % d;
    if 2 * r > d || (2 * r == d && q % 2 == 1) {
        q + 1
    } else {
        q
    }
}

/// The pattern nearest to the `f32` with the pattern `bits`: its top half, to
/// the nearest, halves to the even one.
pub open spec fn narrowed(bits: u32) -> int {
    nearest_even(bits as int, 65536)
}

/// An `f32` pattern as the nearest bf16 pattern, halves to the even one.
pub fn f32_to_bf16(bits: u32) -> (narrow: u16)
    requires
        bits <= 0xFFFF_7FFF,
    ensures
        narrow == narrowed(bits),
        -32768 <= narrow * 65536 - bits <= 32768,
        bits % 65536 == 0 ==> narrow * 65536 == bits,
        bits % 65536 == 32768 ==> narrow % 2 == 0,
{
    let odd: u32 = (bits / 65536) % 2;
    ((bits + 0x7FFF + odd) / 65536) as u16
}

/// The `f32` pattern of a bf16 pattern; nothing is lost.
pub open spec fn widened(bits: u16) -> int {
    bits * 65536
}

/// A bf16 pattern as the `f32` pattern of the same value.
pub fn bf16_to_f32(bits: u16) -> (wide: u32)
    ensures
        wide == widened(bits),
        wide / 65536 == bits,
        wide % 65536 == 0,
{
    bits as u32 * 65536
}

/// Widening and narrowing again gives back the pattern.
pub proof fn narrowing_undoes_widening(bits: u16)
    ensures
        narrowed(widened(bits) as u32) == bits,
{
}

/// Widening keeps a pattern's order, and every narrow pattern is wide enough to
/// be told from the next: nothing is lost and nothing is made up.
pub proof fn widening_keeps_every_bit(a: u16, b: u16)
    ensures
        widened(a) <= u32::MAX,
        widened(a) / 65536 == a,
        widened(a) % 65536 == 0,
        a < b ==> widened(a) < widened(b),
{
}

/// Narrowing keeps order: of two patterns the larger is never narrowed to the
/// smaller.
pub proof fn narrowing_keeps_order(a: u32, b: u32)
    requires
        a <= b,
    ensures
        narrowed(a) <= narrowed(b),
{
    narrowing_is_nearest(a);
    narrowing_is_nearest(b);
}

/// Narrowing moves a pattern by half a unit of the narrow format at most.
pub proof fn narrowing_is_nearest(bits: u32)
    ensures
        -32768 <= narrowed(bits) * 65536 - bits <= 32768,
        narrowed(bits) * 65536 - bits == 32768 || narrowed(bits) * 65536 - bits == -32768
            ==> narrowed(bits) % 2 == 0,
{
}

/// How often `x` doubles before it holds at least 128 of `d`.
pub open spec fn doublings(x: int, d: int) -> nat
    decreases (if x < 128 * d { 128 * d - x } else { 0 }),
{
    if 0 < x < 128 * d {
        1 + doublings(2 * x, d)
    } else {
        0
    }
}

/// How often `d` doubles before `x` holds fewer than 256 of it.
pub open spec fn halvings(x: int, d: int) -> nat
    decreases (if x >= 128 * d { x - 128 * d } else { 0 }),
{
    if 0 < d && x >= 256 * d {
        1 + halvings(x, 2 * d)
    } else {
        0
    }
}

/// The bf16 pattern nearest to `num / den`, halves to the even one.
pub open spec fn ratio_bits(num: int, den: int) -> int {
    if num <= 0 {
        0
    } else {
        let up = doublings(num, den);
        let down = halvings(num, den);
        (133 - up + down) * 128 + nearest_even(num * pow2(up), den * pow2(down))
    }
}

/// The pattern of a positive ratio holds it to half a unit of its last place:
/// scaled into the binade of its exponent, the ratio is nearest to its
/// mantissa.
pub proof fn a_ratio_is_nearest(num: int, den: int)
    requires
        0 < num,
        0 < den,
    ensures
        ({
            let up = doublings(num, den);
            let down = halvings(num, den);
            let x = num * pow2(up);
            let d = den * pow2(down);
            let q = nearest_even(x, d);
            &&& 128 * d <= x < 256 * d
            &&& 128 <= q <= 256
            &&& -d <= 2 * (q * d - x) <= d
            &&& 2 * (q * d - x) == d || 2 * (q * d - x) == -d ==> q % 2 == 0
            &&& up == 0 || down == 0
            &&& ratio_bits(num, den) == (134 - up + down) * 128 + (q - 128)
        }),
{
    doublings_scale(num, den);
    halvings_scale(num, den);
    let up = doublings(num, den);
    let down = halvings(num, den);
    vstd::arithmetic::power2::lemma2_to64();
    let x = num * pow2(up);
    let d = den * pow2(down);
    if num >= 128 * den {
        assert(x == num) by (nonlinear_arith)
            requires
                x == num * pow2(up),
                pow2(up) == 1,
        ;
    } else {
        assert(d == den) by (nonlinear_arith)
            requires
                d == den * pow2(down),
                pow2(down) == 1,
        ;
    }
    let q = x / d;
    let r = x % d;
    vstd::arithmetic::div_mod::lemma_fundamental_div_mod(x, d);
    vstd::arithmetic::div_mod::lemma_mod_bound(x, d);
    assert(128 <= q < 256) by (nonlinear_arith)
        requires
            x == d * q + r,
            0 <= r < d,
            128 * d <= x < 256 * d,
    ;
    assert(q * d == d * q) by (nonlinear_arith);
    assert((q + 1) * d == d * q + d) by (nonlinear_arith);
}

/// The pattern of a ratio this small leaves the sign bit free.
pub proof fn small_ratio(num: int, den: int)
    requires
        0 <= num <= 0x100_0000_0000,
        0 < den <= 0x1_0000_0000,
    ensures
        0 <= ratio_bits(num, den) < BF16_SIGN,
{
    if num > 0 {
        vstd::arithmetic::power2::lemma2_to64();
        few_doublings(num, den, 0);
        few_halvings(num, den, 0);
        a_ratio_is_nearest(num, den);
    }
}

proof fn doublings_scale(x: int, d: int)
    requires
        0 < x,
        0 < d,
    ensures
        x < 128 * d ==> 128 * d <= x * pow2(doublings(x, d)) < 256 * d,
        x >= 128 * d ==> doublings(x, d) == 0,
    decreases (if x < 128 * d { 128 * d - x } else { 0 }),
{
    if x < 128 * d {
        doublings_scale(2 * x, d);
        let n = doublings(2 * x, d);
        vstd::arithmetic::power2::lemma_pow2_unfold(n + 1);
        vstd::arithmetic::power2::lemma2_to64();
        let p = pow2(n) as int;
        assert(pow2(doublings(x, d)) == 2 * p);
        assert(x * (2 * p) == (2 * x) * p) by (nonlinear_arith);
        if 2 * x >= 128 * d {
            assert(p == 1);
            assert((2 * x) * p == 2 * x) by (nonlinear_arith)
                requires
                    p == 1,
            ;
        }
    }
}

proof fn halvings_scale(x: int, d: int)
    requires
        0 < x,
        0 < d,
    ensures
        x >= 128 * d ==> 128 * (d * pow2(halvings(x, d))) <= x < 256 * (d * pow2(halvings(x, d))),
        x < 256 * d ==> halvings(x, d) == 0,
        d * pow2(halvings(x, d)) >= d,
    decreases (if x >= 128 * d { x - 128 * d } else { 0 }),
{
    vstd::arithmetic::power2::lemma2_to64();
    if x >= 256 * d {
        halvings_scale(x, 2 * d);
        let n = halvings(x, 2 * d);
        vstd::arithmetic::power2::lemma_pow2_unfold(n + 1);
        let p = pow2(n) as int;
        assert(pow2(halvings(x, d)) == 2 * p);
        assert(d * (2 * p) == (2 * d) * p) by (nonlinear_arith);
    } else {
        assert(d * 1 == d);
        assert(d * pow2(0) == d) by (nonlinear_arith)
            requires
                pow2(0) == 1,
        ;
    }
}

/// The bf16 pattern nearest to `num / den`, halves to the even one.
pub fn bf16_ratio(num: u64, den: u64) -> (bits: u16)
    requires
        0 < den <= 0x1_0000_0000,
        num <= 0x100_0000_0000,
    ensures
        bits == ratio_bits(num as int, den as int),
{
    if num == 0 {
        return 0;
    }
    let mut x: u64 = num;
    let mut d: u64 = den;
    let mut up: u64 = 0;
    let mut down: u64 = 0;
    proof {
        vstd::arithmetic::power2::lemma2_to64();
        few_doublings(num as int, den as int, 0);
        few_halvings(num as int, den as int, 0);
    }
    while x < 128 * d
        invariant
            0 < num <= 0x100_0000_0000,
            0 < den <= 0x1_0000_0000,
            d == den,
            0 < x,
            x <= 0x100_0000_0000,
            x == num * pow2(up as nat),
            up + doublings(x as int, d as int) == doublings(num as int, den as int),
            doublings(num as int, den as int) <= 40,
        decreases (if x < 128 * d { 128 * d - x } else { 0 }),
    {
        proof {
            vstd::arithmetic::power2::lemma_pow2_unfold((up + 1) as nat);
            assert(num * (2 * pow2(up as nat)) == 2 * (num * pow2(up as nat)))
                by (nonlinear_arith);
        }
        x = x * 2;
        up = up + 1;
    }
    let ghost settled_up = up;
    proof {
        doublings_scale(num as int, den as int);
        halvings_scale(x as int, den as int);
        if num >= 128 * den {
            assert(x == num) by (nonlinear_arith)
                requires
                    x == num * pow2(up as nat),
                    pow2(up as nat) == 1,
            ;
        }
    }
    while x >= 256 * d
        invariant
            0 < num <= 0x100_0000_0000,
            0 < den <= 0x1_0000_0000,
            0 < d <= 0x1_0000_0000 || d <= x,
            0 < d,
            x <= 0x100_0000_0000,
            d == den * pow2(down as nat),
            up == settled_up,
            up == doublings(num as int, den as int),
            num < 128 * den ==> x < 256 * den && down == 0,
            num >= 128 * den ==> x == num && up == 0,
            x == num * pow2(up as nat),
            down + halvings(x as int, d as int) == (if num >= 128 * den {
                halvings(num as int, den as int)
            } else {
                0
            }),
            halvings(num as int, den as int) <= 33,
        decreases (if x >= 128 * d { x - 128 * d } else { 0 }),
    {
        proof {
            vstd::arithmetic::power2::lemma_pow2_unfold((down + 1) as nat);
            assert(den * (2 * pow2(down as nat)) == 2 * (den * pow2(down as nat)))
                by (nonlinear_arith);
        }
        d = d * 2;
        down = down + 1;
    }
    proof {
        halvings_scale(num as int, den as int);
        doublings_scale(num as int, den as int);
        a_ratio_is_nearest(num as int, den as int);
        assert(down == halvings(num as int, den as int));
    }
    let q: u64 = x / d;
    let r: u64 = x % d;
    let mantissa: u64 = if 2 * r > d || (2 * r == d && q % 2 == 1) {
        q + 1
    } else {
        q
    };
    ((133 + down - up) * 128 + mantissa) as u16
}

proof fn few_doublings(x: int, d: int, n: nat)
    requires
        0 < x,
        0 < d <= 0x1_0000_0000,
        n <= 40,
        x >= pow2(n),
    ensures
        n + doublings(x, d) <= 40,
    decreases (if x < 128 * d { 128 * d - x } else { 0 }),
{
    vstd::arithmetic::power2::lemma2_to64();
    if x < 128 * d {
        if n >= 39 {
            vstd::arithmetic::power2::lemma_pow2_adds(32, 7);
            vstd::arithmetic::power2::lemma_pow2_unfold(40);
            assert(pow2(39) == 0x80_0000_0000) by (nonlinear_arith)
                requires
                    pow2(39) == pow2(32) * pow2(7),
                    pow2(32) == 0x1_0000_0000,
                    pow2(7) == 128,
            ;
            assert(false);
        }
        vstd::arithmetic::power2::lemma_pow2_unfold(n + 1);
        few_doublings(2 * x, d, n + 1);
    }
}

proof fn few_halvings(x: int, d: int, n: nat)
    requires
        0 < x <= 0x100_0000_0000,
        n <= 33,
        d >= pow2(n),
    ensures
        n + halvings(x, d) <= 33,
    decreases (if x >= 128 * d { x - 128 * d } else { 0 }),
{
    vstd::arithmetic::power2::lemma2_to64();
    if 0 < d && x >= 256 * d {
        if n >= 33 {
            vstd::arithmetic::power2::lemma_pow2_unfold(33);
            assert(false);
        }
        vstd::arithmetic::power2::lemma_pow2_unfold(n + 1);
        few_halvings(x, 2 * d, n + 1);
    }
}

} // verus!
