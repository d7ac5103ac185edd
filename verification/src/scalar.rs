//! Fixed-point scalars.
//!
//! Every geometric quantity in this crate (position, scale, anchor, source
//! rectangle coordinates) is an `i64` holding thousandths of a unit: the
//! value `1000` stands for `1.0`, `500` for `0.5`, and so on. Products of
//! two such scalars are renormalized with a truncating (round-toward-zero)
//! division by [`MILLI`].

use vstd::prelude::*;

verus! {

/// One whole unit in fixed-point representation.
pub const MILLI: i64 = 1000;

/// Largest magnitude accepted for a position coordinate.
pub const POS_LIMIT: i64 = 1_000_000_000_000_000;

/// Largest magnitude accepted for a source-rectangle width or height.
/// Chosen so that the full extent of any texture (dimensions up to
/// `u32::MAX` pixels, hence up to `u32::MAX * 1000` in fixed point) fits.
pub const DIM_LIMIT: i64 = 5_000_000_000_000;

/// Largest magnitude accepted for a scale factor (one thousand times).
pub const SCALE_LIMIT: i64 = 1_000_000;

/// Largest magnitude accepted for an anchor coordinate. Anchors are
/// conventionally within `[0, 1]`; this bound is far beyond that.
pub const ANCHOR_LIMIT: i64 = 1_000_000;

/// Truncating (round-toward-zero) division by 1000, as the `/` operator of
/// the executable code performs it on either sign.
pub open spec fn tdiv_milli(x: int) -> int {
    if x >= 0 {
        x / 1000
    } else {
        -((-x) / 1000)
    }
}

/// Fixed-point product: the real product of the two scalars, truncated back
/// to thousandths.
pub open spec fn milli_mul(a: int, b: int) -> int {
    tdiv_milli(a * b)
}

/// Fixed-point multiplication of two scalars, exact per [`milli_mul`].
pub fn fixed_mul(a: i64, b: i64) -> (r: i64)
    requires
        -0x7fff_ffff_ffff_ffff <= milli_mul(a as int, b as int) <= 0x7fff_ffff_ffff_ffff,
    ensures
        r == milli_mul(a as int, b as int),
{
    let ghost p: int = (a as int) * (b as int);
    let an: i128 = a as i128;
    let bn: i128 = b as i128;
    let neg: bool = (a < 0) != (b < 0);
    let am: u128 = if an < 0 {
        (-an) as u128
    } else {
        an as u128
    };
    let bm: u128 = if bn < 0 {
        (-bn) as u128
    } else {
        bn as u128
    };
    proof {
        assert(am * bm <= 0x8000_0000_0000_0000u128 * 0x8000_0000_0000_0000u128)
            by (nonlinear_arith)
            requires
                am <= 0x8000_0000_0000_0000u128,
                bm <= 0x8000_0000_0000_0000u128,
        ;
        assert(am * bm == if p >= 0 { p } else { -p }) by (nonlinear_arith)
            requires
                p == (a as int) * (b as int),
                am == if (a as int) >= 0 { a as int } else { -(a as int) },
                bm == if (b as int) >= 0 { b as int } else { -(b as int) },
        ;
        assert((p != 0 && neg) ==> p < 0) by (nonlinear_arith)
            requires
                p == (a as int) * (b as int),
                neg == ((a < 0) != (b < 0)),
        ;
        assert(!neg ==> p >= 0) by (nonlinear_arith)
            requires
                p == (a as int) * (b as int),
                neg == ((a < 0) != (b < 0)),
        ;
    }
    let mag: u128 = (am * bm) / 1000;
    if neg {
        if mag == 0 {
            assert(milli_mul(a as int, b as int) == 0);
            0
        } else {
            assert(p < 0 && milli_mul(a as int, b as int) == -(mag as int));
            (-(mag as i128)) as i64
        }
    } else {
        assert(milli_mul(a as int, b as int) == mag as int);
        mag as i64
    }
}

/// Range of a fixed-point product from ranges of its factors.
pub proof fn lemma_milli_mul_range(a: int, b: int, aa: int, bb: int)
    requires
        -aa <= a <= aa,
        -bb <= b <= bb,
        0 <= aa,
        0 <= bb,
    ensures
        -(aa * bb) <= a * b <= aa * bb,
        -((aa * bb) / 1000) <= milli_mul(a, b) <= (aa * bb) / 1000,
{
    assert(-(aa * bb) <= a * b <= aa * bb) by (nonlinear_arith)
        requires
            -aa <= a <= aa,
            -bb <= b <= bb,
            0 <= aa,
            0 <= bb,
    ;
    let p = a * b;
    if p >= 0 {
        vstd::arithmetic::div_mod::lemma_div_is_ordered(p, aa * bb, 1000);
        vstd::arithmetic::div_mod::lemma_div_pos_is_pos(p, 1000);
    } else {
        vstd::arithmetic::div_mod::lemma_div_is_ordered(-p, aa * bb, 1000);
        vstd::arithmetic::div_mod::lemma_div_pos_is_pos(-p, 1000);
    }
}

} // verus!
