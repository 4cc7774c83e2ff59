//! The growth policy's arithmetic: the capacity that doubling reaches, and
//! facts about the load bound.
use vstd::prelude::*;

verus! {

/// The capacity that growth reaches for `count` entries from `cap` slots,
/// doubling while `count / cap` is at least `num / den`; `None` where a
/// doubling would not fit in `usize`.
pub open spec fn grown_capacity(count: nat, num: nat, den: nat, cap: nat) -> Option<nat>
    decreases usize::MAX - cap,
{
    if cap == 0 {
        None
    } else if count * den < num * cap {
        Some(cap)
    } else if cap * 2 > usize::MAX {
        None
    } else {
        grown_capacity(count, num, den, cap * 2)
    }
}

/// A grown capacity is no smaller than the start and holds `count` below
/// the load bound.
pub proof fn lemma_grown_capacity(count: nat, num: nat, den: nat, cap: nat)
    requires
        cap <= usize::MAX,
        grown_capacity(count, num, den, cap) is Some,
    ensures
        grown_capacity(count, num, den, cap)->0 >= cap,
        grown_capacity(count, num, den, cap)->0 <= usize::MAX,
        count * den < num * grown_capacity(count, num, den, cap)->0,
    decreases usize::MAX - cap,
{
    if cap != 0 && !(count * den < num * cap) && cap * 2 <= usize::MAX {
        lemma_grown_capacity(count, num, den, cap * 2);
    }
}

/// The product of two 64-bit values fits in 128 bits.
pub(crate) proof fn lemma_product_fits(a: int, b: int)
    requires
        0 <= a <= u64::MAX,
        0 <= b <= u64::MAX,
    ensures
        0 <= a * b <= u128::MAX,
{
    assert(a * b <= u64::MAX * u64::MAX) by (nonlinear_arith)
        requires
            0 <= a <= u64::MAX,
            0 <= b <= u64::MAX,
    ;
    assert(0 <= a * b) by (nonlinear_arith)
        requires
            0 <= a,
            0 <= b,
    ;
}

/// Below the load bound, with a load factor under 1, the count is below
/// the capacity.
pub(crate) proof fn lemma_load_below_capacity(count: int, cap: int, num: int, den: int)
    requires
        0 <= count,
        0 <= cap,
        0 < num < den,
        count * den < num * cap,
    ensures
        count < cap,
{
    assert(count < cap) by (nonlinear_arith)
        requires
            0 <= count,
            0 <= cap,
            0 < num < den,
            count * den < num * cap,
    ;
}

/// Fewer entries stay below the load bound.
pub(crate) proof fn lemma_load_monotone(count: int, smaller: int, cap: int, num: int, den: int)
    requires
        0 <= smaller <= count,
        0 < den,
        count * den < num * cap,
    ensures
        smaller * den < num * cap,
{
    assert(smaller * den <= count * den) by (nonlinear_arith)
        requires
            0 <= smaller <= count,
            0 < den,
    ;
}

/// More slots keep the entries below the load bound.
pub(crate) proof fn lemma_load_monotone_cap(count: int, cap: int, larger: int, num: int, den: int)
    requires
        0 <= cap <= larger,
        0 < num,
        count * den < num * cap,
    ensures
        count * den < num * larger,
{
    assert(num * cap <= num * larger) by (nonlinear_arith)
        requires
            0 <= cap <= larger,
            0 < num,
    ;
}

} // verus!
