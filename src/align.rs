//! Rounding of addresses up to a power-of-two alignment.

use vstd::arithmetic::div_mod::{
    lemma_fundamental_div_mod, lemma_mod_decreases, lemma_mod_multiples_basic,
};
use vstd::prelude::*;

verus! {

/// `n` is a power of two (1, 2, 4, ...).
pub open spec fn is_pow2(n: int) -> bool
    decreases n,
{
    if n <= 0 {
        false
    } else if n == 1 {
        true
    } else {
        n % 2 == 0 && is_pow2(n / 2)
    }
}

/// The smallest multiple of `align` that is at least `addr`.
pub open spec fn align_up_spec(addr: int, align: int) -> int {
    if addr % align == 0 {
        addr
    } else {
        addr - addr % align + align
    }
}

/// Rounding up gives a multiple of the alignment, never goes down, and moves
/// by less than one alignment step.
pub proof fn lemma_align_up(addr: int, align: int)
    requires
        addr >= 0,
        is_pow2(align),
    ensures
        align_up_spec(addr, align) % align == 0,
        align_up_spec(addr, align) >= addr,
        align_up_spec(addr, align) < addr + align,
{
    lemma_align_up_basics(addr, align);
}

pub(crate) proof fn lemma_align_up_basics(addr: int, align: int)
    requires
        addr >= 0,
        align > 0,
    ensures
        align_up_spec(addr, align) % align == 0,
        align_up_spec(addr, align) >= addr,
        align_up_spec(addr, align) < addr + align,
{
    let q = addr / align;
    let r = addr % align;
    lemma_fundamental_div_mod(addr, align);
    assert(0 <= r < align);
    if r != 0 {
        lemma_mod_multiples_basic(q + 1, align);
        assert(addr - r + align == (q + 1) * align) by (nonlinear_arith)
            requires
                addr == align * q + r,
        ;
    }
}

/// Every multiple of `align` at or above `addr` is at or above the rounded value.
pub(crate) proof fn lemma_align_up_least(addr: int, align: int, m: int)
    requires
        addr >= 0,
        align > 0,
        m >= addr,
        m % align == 0,
    ensures
        m >= align_up_spec(addr, align),
{
    let q = addr / align;
    let r = addr % align;
    let k = m / align;
    lemma_fundamental_div_mod(addr, align);
    lemma_fundamental_div_mod(m, align);
    if r != 0 {
        assert(k >= q + 1) by (nonlinear_arith)
            requires
                addr == align * q + r,
                m == align * k,
                0 < r,
                m >= addr,
                align > 0,
        ;
        assert(m >= align * q + align) by (nonlinear_arith)
            requires
                k >= q + 1,
                m == align * k,
                align > 0,
        ;
    }
}

/// A smaller power of two divides a larger one.
pub(crate) proof fn lemma_pow2_divides(x: int, y: int)
    requires
        is_pow2(x),
        is_pow2(y),
        x <= y,
    ensures
        y % x == 0,
    decreases y,
{
    if x == 1 {
        assert(y % 1 == 0);
    } else {
        lemma_pow2_divides(x / 2, y / 2);
        let hx = x / 2;
        let hy = y / 2;
        let k = hy / hx;
        lemma_fundamental_div_mod(hy, hx);
        assert(y == x * k) by (nonlinear_arith)
            requires
                hy == hx * k,
                y == 2 * hy,
                x == 2 * hx,
        ;
        lemma_mod_multiples_basic(k, x);
    }
}

/// Divisibility is transitive.
pub(crate) proof fn lemma_mod_trans(p: int, y: int, x: int)
    requires
        x > 0,
        y > 0,
        p % y == 0,
        y % x == 0,
    ensures
        p % x == 0,
{
    let a = p / y;
    let b = y / x;
    lemma_fundamental_div_mod(p, y);
    lemma_fundamental_div_mod(y, x);
    assert(p == (b * a) * x) by (nonlinear_arith)
        requires
            p == y * a,
            y == x * b,
    ;
    lemma_mod_multiples_basic(b * a, x);
}

/// True when rounding `addr` up to `align` stays within `usize`.
pub(crate) fn align_up_fits(addr: usize, align: usize) -> (r: bool)
    requires
        align > 0,
    ensures
        r == (align_up_spec(addr as int, align as int) <= usize::MAX),
{
    let rem = addr % align;
    rem == 0 || addr <= usize::MAX - (align - rem)
}

/// Rounds `addr` up to the next multiple of `align`, a power of two.
pub fn align_up(addr: usize, align: usize) -> (r: usize)
    requires
        is_pow2(align as int),
        align_up_spec(addr as int, align as int) <= usize::MAX,
    ensures
        r == align_up_spec(addr as int, align as int),
{
    proof {
        lemma_align_up_basics(addr as int, align as int);
        lemma_mod_decreases(addr as nat, align as nat);
    }
    let remainder = addr % align;
    if remainder == 0 {
        addr
    } else {
        addr - remainder + align
    }
}

} // verus!
