//! Integer helpers shared by the heap: rounding a size up to an allocation
//! granularity or to whole pages.

use vstd::prelude::*;
use vstd::arithmetic::div_mod::{lemma_fundamental_div_mod, lemma_mod_multiples_basic};

verus! {

/// `v` rounded up to the next multiple of `unit` (the least multiple of
/// `unit` that is `>= v`).
pub open spec fn round_up_spec(v: int, unit: int) -> int {
    ((v + unit - 1) / unit) * unit
}

/// The rounded value is the least multiple of `unit` at or above `v`.
pub proof fn lemma_round_up_bounds(v: int, unit: int)
    requires
        unit > 0,
        v >= 0,
    ensures
        round_up_spec(v, unit) % unit == 0,
        v <= round_up_spec(v, unit) < v + unit,
{
    let q = (v + unit - 1) / unit;
    lemma_fundamental_div_mod(v + unit - 1, unit);
    lemma_mod_multiples_basic(q, unit);
}

/// Rounding is idempotent: a value that is already a multiple of `unit`
/// rounds up to itself.
pub proof fn lemma_round_up_exact(v: int, unit: int)
    requires
        unit > 0,
        v >= 0,
        v % unit == 0,
    ensures
        round_up_spec(v, unit) == v,
{
    lemma_fundamental_div_mod(v, unit);
    let k = v / unit;
    assert(v == unit * k);
    assert(v + unit - 1 == k * unit + (unit - 1)) by (nonlinear_arith)
        requires v == unit * k;
    lemma_div_of_multiple_plus_small(k, unit - 1, unit);
    assert(round_up_spec(v, unit) == k * unit);
    assert(k * unit == unit * k) by (nonlinear_arith);
}

/// `(k * unit + s) / unit == k` when `0 <= s < unit`.
proof fn lemma_div_of_multiple_plus_small(k: int, s: int, unit: int)
    requires
        unit > 0,
        k >= 0,
        0 <= s < unit,
    ensures
        (k * unit + s) / unit == k,
{
    lemma_fundamental_div_mod(k * unit + s, unit);
    let q = (k * unit + s) / unit;
    let r = (k * unit + s) % unit;
    assert(k * unit + s == unit * q + r);
    assert(q == k) by (nonlinear_arith)
        requires
            k * unit + s == unit * q + r,
            0 <= s < unit,
            0 <= r < unit,
            k >= 0,
            unit > 0;
}

/// Rounding twice gives the same value as rounding once.
pub proof fn lemma_round_up_idempotent(v: int, unit: int)
    requires
        unit > 0,
        v >= 0,
    ensures
        round_up_spec(round_up_spec(v, unit), unit) == round_up_spec(v, unit),
{
    lemma_round_up_bounds(v, unit);
    lemma_round_up_exact(round_up_spec(v, unit), unit);
}

/// Round `v` up to the next multiple of `unit`.
pub fn round_up(v: usize, unit: usize) -> (r: usize)
    requires
        unit > 0,
        v + unit - 1 <= usize::MAX,
    ensures
        r == round_up_spec(v as int, unit as int),
        r % unit == 0,
        v <= r < v + unit,
{
    proof {
        lemma_round_up_bounds(v as int, unit as int);
        lemma_fundamental_div_mod(v as int + unit as int - 1, unit as int);
    }
    let q = (v + (unit - 1)) / unit;
    assert(q * unit == round_up_spec(v as int, unit as int));
    assert(q * unit <= v + unit - 1);
    q * unit
}

} // verus!
