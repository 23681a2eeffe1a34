//! Shared helpers for the heap allocators.
use vstd::prelude::*;

pub mod bump;
pub mod first_fit;
pub mod fixed_size_block;

verus! {

/// `n` is a power of two.
pub open spec fn is_pow2(n: nat) -> bool
    decreases n,
{
    if n <= 1 {
        n == 1
    } else {
        n % 2 == 0 && is_pow2(n / 2)
    }
}

/// A power of two is positive.
pub proof fn lemma_pow2_positive(n: nat)
    requires
        is_pow2(n),
    ensures
        n > 0,
{
    reveal_with_fuel(is_pow2, 2);
}

/// A positive multiple of a positive `align` is at least `align`.
pub proof fn lemma_positive_multiple_at_least(r: int, align: int)
    requires
        r > 0,
        align > 0,
        r % align == 0,
    ensures
        r >= align,
{
    if r < align {
        vstd::arithmetic::div_mod::lemma_small_mod(r as nat, align as nat);
    }
}

/// The smallest multiple of `align` that is at least `addr`.
pub open spec fn align_up_spec(addr: int, align: int) -> int {
    if addr % align == 0 {
        addr
    } else {
        addr - addr % align + align
    }
}

/// Rounds `addr` up to the next multiple of `align`.
///
/// `align` is a power of two (it always comes from a memory layout) and
/// `addr + align - 1` must fit in a `usize`.
pub fn align_up(addr: usize, align: usize) -> (r: usize)
    requires
        is_pow2(align as nat),
        addr + align - 1 <= usize::MAX,
    ensures
        r == align_up_spec(addr as int, align as int),
        r >= addr,
        r < addr + align,
        r % align == 0,
{
    assert(align > 0) by {
        reveal_with_fuel(is_pow2, 2);
    }
    let rem = addr % align;
    proof {
        lemma_round_up_multiple(addr as int, align as int);
    }
    if rem == 0 {
        addr
    } else {
        addr - rem + align
    }
}

/// Rounding up gives the only multiple of `align` in `[addr, addr + align)`.
pub proof fn lemma_align_up_unique(addr: int, align: int, a: int)
    requires
        addr >= 0,
        align > 0,
        a % align == 0,
        addr <= a < addr + align,
    ensures
        a == align_up_spec(addr, align),
{
    lemma_round_up_multiple(addr, align);
    let b = align_up_spec(addr, align);
    vstd::arithmetic::div_mod::lemma_fundamental_div_mod(a, align);
    vstd::arithmetic::div_mod::lemma_fundamental_div_mod(b, align);
    let qa = a / align;
    let qb = b / align;
    assert(a == align * qa);
    assert(b == align * qb);
    assert(qa == qb) by (nonlinear_arith)
        requires
            a == align * qa,
            b == align * qb,
            a - b < align,
            b - a < align,
            align > 0,
    ;
}

/// Facts on rounding up to a multiple of a positive `align`.
pub proof fn lemma_round_up_multiple(addr: int, align: int)
    requires
        addr >= 0,
        align > 0,
    ensures
        0 <= addr % align < align,
        addr % align <= addr,
        addr % align != 0 ==> (addr - addr % align + align) % align == 0,
        addr % align != 0 ==> addr < addr - addr % align + align < addr + align,
        addr % align == 0 ==> align_up_spec(addr, align) == addr,
        align_up_spec(addr, align) % align == 0,
        addr <= align_up_spec(addr, align) < addr + align,
{
    let q = addr / align;
    let r = addr % align;
    vstd::arithmetic::div_mod::lemma_fundamental_div_mod(addr, align);
    vstd::arithmetic::div_mod::lemma_div_pos_is_pos(addr, align);
    assert(align * q >= 0) by (nonlinear_arith)
        requires
            align > 0,
            q >= 0,
    ;
    assert(addr - r + align == align * (q + 1)) by (nonlinear_arith)
        requires
            addr == align * q + r,
    ;
    vstd::arithmetic::div_mod::lemma_mod_multiples_basic(q + 1, align);
    assert((align * (q + 1)) % align == 0) by {
        vstd::arithmetic::mul::lemma_mul_is_commutative(align, q + 1);
    }
}

} // verus!
