use vstd::prelude::*;

pub mod buddy_alloc;
pub mod paging;

verus! {

use vstd::arithmetic::div_mod::lemma_mod_breakdown;

/// `n` is a power of two.
pub open spec fn is_pow2(n: int) -> bool
    decreases n,
{
    if n <= 0 {
        false
    } else if n == 1 {
        true
    } else {
        n % 2 == 0 && is_pow2(n / 2)
    }
}

/// A page's size is a power of two.
pub proof fn lemma_page_size_pow2()
    ensures
        is_pow2(0x1000),
{
    reveal_with_fuel(is_pow2, 14);
}

/// For a power of two `a`, masking with `a - 1` keeps the remainder modulo `a`.
pub proof fn lemma_mask_is_mod(x: usize, a: usize)
    requires
        is_pow2(a as int),
    ensures
        x & ((a - 1) as usize) == x % a,
    decreases a,
{
    if a == 1 {
        assert(x & 0usize == 0usize) by (bit_vector);
    } else {
        let h: usize = a / 2;
        let m: usize = (a - 1) as usize;
        let hm: usize = (h - 1) as usize;
        lemma_mask_is_mod(x / 2, h);
        assert(m / 2 == hm && m % 2 == 1);
        assert(x & m == ((x / 2) & (m / 2)) * 2 + ((x % 2) & (m % 2))) by (bit_vector);
        assert((x % 2) & 1usize == x % 2) by (bit_vector);
        lemma_mod_breakdown(x as int, 2, h as int);
    }
}

/// `addr` rounded up to a multiple of `align`.
pub open spec fn align_up_spec(addr: int, align: int) -> int {
    (addr + align - 1) / align * align
}

/// Align the given address `addr` upwards to alignment `align`.
///
/// The result is the least multiple of `align` that is not below `addr`.
pub fn align_up(addr: usize, align: usize) -> (r: usize)
    requires
        is_pow2(align as int),
        addr + align - 1 <= usize::MAX,
    ensures
        r == align_up_spec(addr as int, align as int),
        r % align == 0,
        addr <= r < addr + align,
{
    let mask = align - 1;
    let sum = addr + mask;
    let r = sum & !mask;
    proof {
        assert(sum & !mask == sum - (sum & mask)) by (bit_vector);
        lemma_mask_is_mod(sum, align);
        vstd::arithmetic::div_mod::lemma_fundamental_div_mod(sum as int, align as int);
        vstd::arithmetic::div_mod::lemma_mod_multiples_basic(sum as int / align as int, align as int);
    }
    r
}

} // verus!
