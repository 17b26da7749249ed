//! The NVFP4 codec: four-bit values under eight-bit scales, decoded exactly.
//!
//! Both formats hold small multiples of a power of two, so a value is kept as
//! a sign and a count: of halves for a code, of `2^-9` for a scale, and of
//! `2^-10` for their product.

use crate::bf16::{bf16_ratio, ratio_bits, BF16_SIGN};
use crate::weights::{holdable, Nvfp4Weight};
use vstd::arithmetic::power2::pow2;
use vstd::prelude::*;

verus! {

/// The magnitude of an E2M1 code, in halves: two bits of exponent over one of
/// mantissa.
pub open spec fn e2m1_halves(code: int) -> int {
    let n = code % 8;
    if n < 4 {
        n
    } else if n < 6 {
        (2 + n % 2) * 2
    } else {
        (2 + n % 2) * 4
    }
}

/// Whether an E2M1 code is negative.
pub open spec fn e2m1_negative(code: int) -> bool {
    (code / 8) % 2 == 1
}

/// The magnitude of an E4M3 scale, in units of `2^-9`: three bits of mantissa
/// below four of exponent, without a leading one where the exponent is zero.
pub open spec fn e4m3_units(scale: int) -> int {
    let exponent = (scale / 8) % 16;
    let mantissa = scale % 8;
    if exponent == 0 {
        mantissa
    } else {
        (8 + mantissa) * pow2((exponent - 1) as nat)
    }
}

/// Whether an E4M3 scale is negative.
pub open spec fn e4m3_negative(scale: int) -> bool {
    scale >= 128
}

/// The bf16 pattern nearest to the product of a code and a scale.
pub open spec fn product_bits(code: int, scale: int) -> int {
    let magnitude = ratio_bits(e2m1_halves(code) * e4m3_units(scale), 1024);
    if e2m1_negative(code) != e4m3_negative(scale) {
        BF16_SIGN + magnitude
    } else {
        magnitude
    }
}

/// The eight magnitudes of a code: up to three halves by halves, and from one
/// on twice what they are two codes before. The fourth bit is the sign and
/// nothing else.
pub proof fn code_magnitudes_double(code: int)
    requires
        0 <= code < 16,
    ensures
        code < 4 ==> e2m1_halves(code) == code,
        2 <= code < 6 ==> e2m1_halves(code + 2) == 2 * e2m1_halves(code),
        code < 8 ==> e2m1_halves(code + 8) == e2m1_halves(code),
        code < 8 <==> !e2m1_negative(code),
        code < 7 ==> e2m1_halves(code) < e2m1_halves(code + 1),
{
}

/// The magnitudes of a scale: below the smallest exponent by single units, at
/// it from eight units on, and twice as large at each exponent more. The top
/// bit is the sign and nothing else.
pub proof fn scale_magnitudes_double(scale: int)
    requires
        0 <= scale < 256,
    ensures
        scale < 16 ==> e4m3_units(scale) == scale,
        8 <= scale < 120 ==> e4m3_units(scale + 8) == 2 * e4m3_units(scale),
        scale < 128 ==> e4m3_units(scale + 128) == e4m3_units(scale),
        scale < 128 <==> !e4m3_negative(scale),
{
    vstd::arithmetic::power2::lemma2_to64();
    let exponent = (scale / 8) % 16;
    let mantissa = scale % 8;
    if 8 <= scale < 120 {
        assert(((scale + 8) / 8) % 16 == exponent + 1);
        vstd::arithmetic::power2::lemma_pow2_unfold(exponent as nat);
        let p = pow2((exponent - 1) as nat) as int;
        assert((8 + mantissa) * (2 * p) == 2 * ((8 + mantissa) * p)) by (nonlinear_arith);
    } else if 8 <= scale < 16 {
        assert(exponent == 1);
    }
    if 8 <= scale < 16 {
        assert((8 + mantissa) * pow2(0) == 8 + mantissa) by (nonlinear_arith)
            requires
                pow2(0) == 1,
        ;
    }
    if scale < 128 {
        assert(((scale + 128) / 8) % 16 == exponent);
        assert((scale + 128) % 8 == mantissa);
    }
}

/// A product is negative where one of the two is and the other is not, and its
/// magnitude is the pattern nearest to the magnitudes' product, whatever the
/// signs.
pub proof fn a_product_has_the_sign_of_its_factors(code: int, scale: int)
    requires
        0 <= code < 16,
        0 <= scale < 256,
    ensures
        0 <= product_bits(code, scale) <= u16::MAX,
        product_bits(code, scale) >= 0x8000 <==> (code >= 8) != (scale >= 128),
        code < 8 && scale < 128 ==> {
            &&& product_bits(code, scale) == ratio_bits(
                e2m1_halves(code) * e4m3_units(scale),
                1024,
            )
            &&& product_bits(code + 8, scale) == product_bits(code, scale) + 0x8000
            &&& product_bits(code, scale + 128) == product_bits(code, scale) + 0x8000
            &&& product_bits(code + 8, scale + 128) == product_bits(code, scale)
        },
{
    code_magnitudes_double(code);
    scale_magnitudes_double(scale);
    let (h, u) = (e2m1_halves(code), e4m3_units(scale));
    units_are_few(scale);
    assert(0 <= h * u <= 12 * (15 * 16384)) by (nonlinear_arith)
        requires
            0 <= h <= 12,
            0 <= u <= 15 * 16384,
    ;
    crate::bf16::small_ratio(h * u, 1024);
}

proof fn units_are_few(scale: int)
    requires
        0 <= scale < 256,
    ensures
        0 <= e4m3_units(scale) <= 15 * 16384,
{
    vstd::arithmetic::power2::lemma2_to64();
    let exponent = (scale / 8) % 16;
    let mantissa = scale % 8;
    if exponent > 0 {
        let e = (exponent - 1) as nat;
        if e < 14 {
            vstd::arithmetic::power2::lemma_pow2_strictly_increases(e, 14);
        }
        let p = pow2(e) as int;
        assert(0 <= (8 + mantissa) * p <= 15 * 16384) by (nonlinear_arith)
            requires
                0 <= mantissa <= 7,
                0 <= p <= 16384,
        ;
    }
}

/// The magnitude of an E2M1 code, in halves.
pub fn nvfp4_e2m1(code: u8) -> (halves: u64)
    ensures
        halves == e2m1_halves(code as int),
        halves <= 12,
{
    match code % 8 {
        0 => 0,
        1 => 1,
        2 => 2,
        3 => 3,
        4 => 4,
        5 => 6,
        6 => 8,
        _ => 12,
    }
}

/// The magnitude of an E4M3 scale, in units of `2^-9`.
pub fn nvfp4_e4m3(scale: u8) -> (units: u64)
    ensures
        units == e4m3_units(scale as int),
        units <= 15 * 16384,
{
    let exponent: u8 = (scale / 8) % 16;
    let mantissa: u64 = (scale % 8) as u64;
    if exponent == 0 {
        return mantissa;
    }
    let mut units: u64 = 8 + mantissa;
    let mut n: u8 = 1;
    proof {
        vstd::arithmetic::power2::lemma2_to64();
        assert(units * pow2(0) == units) by (nonlinear_arith)
            requires
                pow2(0) == 1,
        ;
    }
    while n < exponent
        invariant
            1 <= n <= exponent < 16,
            mantissa < 8,
            units == (8 + mantissa) * pow2((n - 1) as nat),
            units <= 15 * 16384,
        decreases exponent - n,
    {
        proof {
            vstd::arithmetic::power2::lemma2_to64();
            vstd::arithmetic::power2::lemma_pow2_unfold(n as nat);
            let p = pow2((n - 1) as nat) as int;
            let a = 8 + mantissa as int;
            assert(a * (2 * p) == 2 * (a * p)) by (nonlinear_arith);
            if n < 14 {
                vstd::arithmetic::power2::lemma_pow2_strictly_increases(n as nat, 14);
            }
            assert(2 * (a * p) <= 15 * 16384) by (nonlinear_arith)
                requires
                    0 <= a <= 15,
                    0 <= 2 * p <= 16384,
            ;
        }
        units = units * 2;
        n = n + 1;
    }
    units
}

/// The bf16 pattern nearest to the product of a code and a scale.
fn product(code: u8, scale: u8) -> (bits: u16)
    ensures
        bits == product_bits(code as int, scale as int),
{
    let halves: u64 = nvfp4_e2m1(code);
    let units: u64 = nvfp4_e4m3(scale);
    proof {
        assert(halves * units <= 12 * (15 * 16384)) by (nonlinear_arith)
            requires
                halves <= 12,
                units <= 15 * 16384,
        ;
    }
    let magnitude: u16 = bf16_ratio(halves * units, 1024);
    let negative: bool = ((code / 8) % 2 == 1) != (scale >= 128);
    proof {
        crate::bf16::small_ratio(halves * units, 1024);
    }
    if negative {
        BF16_SIGN + magnitude
    } else {
        magnitude
    }
}

/// The four-bit code at column `c` of row `r`: the low half of a byte first.
pub open spec fn code_at(w: Nvfp4Weight, r: int, c: int) -> int {
    let byte = w.codes@[r * (w.k as int / 2) + c / 2] as int;
    if c % 2 == 0 {
        byte % 16
    } else {
        byte / 16
    }
}

/// The scale at column `c` of row `r`: one to sixteen columns.
pub open spec fn scale_at(w: Nvfp4Weight, r: int, c: int) -> int {
    w.scales@[r * (w.k as int / 16) + c / 16] as int
}

/// A byte holds two neighbouring codes of a row, the even column's in its low
/// half; the bytes of a row stand in order, and the rows one after the other.
pub proof fn a_byte_holds_two_codes(w: Nvfp4Weight, r: int, pair: int)
    requires
        0 <= r,
        0 <= pair < w.k / 2,
    ensures
        code_at(w, r, 2 * pair) + 16 * code_at(w, r, 2 * pair + 1) == w.codes@[r * (w.k as int / 2)
            + pair],
        0 <= code_at(w, r, 2 * pair) < 16,
        0 <= code_at(w, r, 2 * pair + 1) < 16,
{
    assert((2 * pair) / 2 == pair && (2 * pair + 1) / 2 == pair);
    assert((2 * pair) % 2 == 0 && (2 * pair + 1) % 2 == 1);
}

/// Sixteen neighbouring columns of a row are under one scale; the scales of a
/// row stand in order, and the rows one after the other.
pub proof fn sixteen_columns_share_a_scale(w: Nvfp4Weight, r: int, group: int, x: int)
    requires
        0 <= r,
        0 <= group < w.k / 16,
        0 <= x < 16,
    ensures
        scale_at(w, r, 16 * group + x) == w.scales@[r * (w.k as int / 16) + group],
{
    assert((16 * group + x) / 16 == group);
}

impl Nvfp4Weight {
    /// The planes hold the whole weight: the input width is a multiple of
    /// sixteen, and both planes are as large as the shape says.
    pub open spec fn is_whole(self) -> bool {
        &&& holdable(self.m as int, self.k as int)
        &&& self.k % 16 == 0
        &&& self.codes@.len() == self.m * (self.k / 2)
        &&& self.scales@.len() == self.m * (self.k / 16)
    }
}

/// Dequantize a weight to bf16 patterns, row by row.
pub fn dequant_nvfp4_to_bf16(w: &Nvfp4Weight) -> (out: Vec<u16>)
    requires
        w.is_whole(),
    ensures
        out@.len() == w.m * w.k,
        forall|i: int|
            0 <= i < out@.len() ==> #[trigger] out@[i] == product_bits(
                code_at(*w, i / w.k as int, i % w.k as int),
                scale_at(*w, i / w.k as int, i % w.k as int),
            ),
{
    let mut out: Vec<u16> = Vec::new();
    if w.m == 0 || w.k == 0 {
        assert(w.m * w.k == 0) by (nonlinear_arith)
            requires
                w.m == 0 || w.k == 0,
        ;
        return out;
    }
    let size: u64 = w.m * w.k;
    let half: u64 = w.k / 2;
    let group: u64 = w.k / 16;
    let mut i: u64 = 0;
    while i < size
        invariant
            w.is_whole(),
            w.m > 0,
            w.k > 0,
            size == w.m * w.k,
            half == w.k / 2,
            group == w.k / 16,
            i <= size <= usize::MAX,
            out@.len() == i,
            forall|j: int|
                0 <= j < i ==> #[trigger] out@[j] == product_bits(
                    code_at(*w, j / w.k as int, j % w.k as int),
                    scale_at(*w, j / w.k as int, j % w.k as int),
                ),
        decreases size - i,
    {
        let r: u64 = i / w.k;
        let c: u64 = i % w.k;
        proof {
            row_in_bounds(i as int, w.m as int, w.k as int);
            column_in_plane(r as int, c as int, w.m as int, w.k as int, 2);
            column_in_plane(r as int, c as int, w.m as int, w.k as int, 16);
        }
        let at: u64 = r * half + c / 2;
        let scale_index: u64 = r * group + c / 16;
        let byte: u8 = w.codes[at as usize];
        let code: u8 = if c % 2 == 0 {
            byte % 16
        } else {
            byte / 16
        };
        out.push(product(code, w.scales[scale_index as usize]));
        i = i + 1;
    }
    out
}

/// An index into a row-major matrix has a row and a column of it.
pub proof fn row_in_bounds(i: int, m: int, k: int)
    requires
        0 <= i < m * k,
        0 < k,
    ensures
        0 <= i / k < m,
        0 <= i % k < k,
        i == (i / k) * k + i % k,
{
    let r = i / k;
    vstd::arithmetic::div_mod::lemma_fundamental_div_mod(i, k);
    vstd::arithmetic::div_mod::lemma_mod_bound(i, k);
    vstd::arithmetic::div_mod::lemma_div_pos_is_pos(i, k);
    assert(r < m) by (nonlinear_arith)
        requires
            i == k * r + i % k,
            0 <= i % k,
            i < m * k,
            0 < k,
    ;
    assert(k * r == r * k) by (nonlinear_arith);
}

/// A column of a row lies inside a plane that packs `pack` of them together.
proof fn column_in_plane(r: int, c: int, m: int, k: int, pack: int)
    requires
        0 <= r < m,
        0 <= c < k,
        pack == 2 || pack == 16,
        k % 16 == 0,
        m * k <= u64::MAX / 8,
    ensures
        0 <= r * (k / pack) + c / pack < m * (k / pack),
        m * (k / pack) <= m * k,
        0 <= r * (k / pack) <= m * (k / pack),
{
    let p = k / pack;
    let q = c / pack;
    assert(0 <= q < p && 0 <= p <= k);
    assert(0 <= r * p && r * p + p <= m * p && m * p <= m * k) by (nonlinear_arith)
        requires
            0 <= r,
            r + 1 <= m,
            0 <= p <= k,
    ;
}

} // verus!
