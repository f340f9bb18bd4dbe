//! Rounding to 53 significant bits, the precision of a double, over whole
//! numbers: a value is counted in units of 2^-84, which is fine enough for
//! every fraction of a 32-bit word and every sum of such a fraction with a
//! 32-bit number.

use vstd::prelude::*;
use vstd::arithmetic::div_mod::{
    lemma_div_is_ordered, lemma_div_multiples_vanish, lemma_fundamental_div_mod,
    lemma_mod_multiples_basic,
};
use vstd::arithmetic::power2::{lemma2_to64, lemma2_to64_rest, lemma_pow2_adds, lemma_pow2_unfold, pow2};

verus! {

/// The number one, counted in units of 2^-84.
pub const UNITS: u128 = 0x1000000000000000000000;

/// The least number that takes more than 53 bits: 2^53.
pub const BEYOND_53_BITS: u128 = 0x20000000000000;

/// The distance between neighbouring numbers of 53 significant bits around
/// the whole number `t`: the least power of two that `t` can be divided by to
/// leave less than 2^53.
pub open spec fn grid_step(t: nat) -> nat
    decreases t,
{
    if t < BEYOND_53_BITS {
        1
    } else {
        2 * grid_step(t / 2)
    }
}

/// The quotient `num / den` rounded to 53 significant bits: to the nearest
/// multiple of the grid step, and to the even multiple where two are equally
/// near. This is the rounding of a double for a whole number of any size, and
/// for a quotient of at least 2^52.
pub open spec fn round_to_grid(num: nat, den: nat) -> nat {
    let step = grid_step(num / den);
    let cell = den * step;
    let below = num / cell;
    let twice_rest = 2 * (num % cell);
    if twice_rest < cell || (twice_rest == cell && below % 2 == 0) {
        below * step
    } else {
        (below + 1) * step
    }
}

/// A grid step is a power of two: it divides every power of two that, taken
/// 2^53 times, lies above the number.
pub proof fn lemma_grid_step_divides(t: nat, exponent: nat)
    requires
        t < BEYOND_53_BITS * pow2(exponent),
    ensures
        grid_step(t) >= 1,
        pow2(exponent) % grid_step(t) == 0,
    decreases t,
{
    if t >= BEYOND_53_BITS {
        if exponent == 0 {
            lemma2_to64();
        } else {
            lemma_pow2_unfold(exponent);
            let half = pow2((exponent - 1) as nat);
            lemma_grid_step_divides(t / 2, (exponent - 1) as nat);
            let inner = grid_step(t / 2);
            lemma_fundamental_div_mod(half as int, inner as int);
            let times = half / inner;
            assert(2 * half == (times * (2 * inner))) by (nonlinear_arith)
                requires
                    half == inner * times,
            ;
            lemma_mod_multiples_basic(times as int, (2 * inner) as int);
        }
    }
}

/// The grid step of any number below 2^137 divides every multiple of one.
pub proof fn lemma_grid_step_divides_units(t: nat, count: nat)
    requires
        t < BEYOND_53_BITS * UNITS,
    ensures
        grid_step(t) >= 1,
        (count * (UNITS as nat)) % grid_step(t) == 0,
{
    lemma2_to64();
    lemma2_to64_rest();
    lemma_pow2_adds(64, 20);
    assert(pow2(84) == UNITS);
    lemma_grid_step_divides(t, 84);
    let step = grid_step(t);
    lemma_fundamental_div_mod(UNITS as int, step as int);
    let times = UNITS as nat / step;
    assert(count * (UNITS as nat) == (count * times) * step) by (nonlinear_arith)
        requires
            UNITS as nat == step * times,
    ;
    lemma_mod_multiples_basic((count * times) as int, step as int);
}

/// Rounding does not cross a number that lies on the grid: what is at most
/// such a bound stays at most it, and what is at least it stays at least it.
pub proof fn lemma_round_keeps_side(num: nat, den: nat, bound: nat)
    requires
        den >= 1,
        grid_step(num / den) >= 1,
        bound % grid_step(num / den) == 0,
    ensures
        num <= bound * den ==> round_to_grid(num, den) <= bound,
        num >= bound * den ==> round_to_grid(num, den) >= bound,
{
    let step = grid_step(num / den);
    let cell = den * step;
    let below = num / cell;
    let rest = num % cell;
    let steps = bound / step;
    assert(cell >= 1) by (nonlinear_arith)
        requires
            cell == den * step,
            den >= 1,
            step >= 1,
    ;
    lemma_fundamental_div_mod(bound as int, step as int);
    lemma_fundamental_div_mod(num as int, cell as int);
    assert(bound * den == cell * steps) by (nonlinear_arith)
        requires
            bound == step * steps,
            cell == den * step,
    ;
    lemma_div_multiples_vanish(steps as int, cell as int);
    if num >= bound * den {
        lemma_div_is_ordered((cell * steps) as int, num as int, cell as int);
        assert(below * step >= steps * step) by (nonlinear_arith)
            requires
                below >= steps,
                step >= 1,
        ;
        assert((below + 1) * step >= below * step) by (nonlinear_arith)
            requires
                step >= 1,
        ;
    }
    if num <= bound * den {
        lemma_div_is_ordered(num as int, (cell * steps) as int, cell as int);
        if below == steps {
            assert(rest == 0);
        } else {
            assert((below + 1) * step <= steps * step) by (nonlinear_arith)
                requires
                    below + 1 <= steps,
                    step >= 1,
            ;
            assert(below * step <= (below + 1) * step) by (nonlinear_arith)
                requires
                    step >= 1,
            ;
        }
    }
}

/// The grid step around `t`.
pub fn grid_step_of(t: u128) -> (step: u128)
    ensures
        step == grid_step(t as nat),
        1 <= step <= 0x10000000000000000000,
{
    let mut step: u128 = 1;
    let mut rest: u128 = t;
    while rest >= BEYOND_53_BITS
        invariant
            1 <= step <= 0x10000000000000000000,
            step * rest <= t,
            grid_step(t as nat) == step * grid_step(rest as nat),
        decreases rest,
    {
        proof {
            assert(step * BEYOND_53_BITS <= step * rest) by (nonlinear_arith)
                requires
                    rest >= BEYOND_53_BITS,
                    step >= 1,
            ;
            assert(step * 2 <= 0x10000000000000000000);
            assert(step * 2 * (rest / 2) <= step * rest) by (nonlinear_arith)
                requires
                    step >= 1,
                    rest >= 0,
            ;
            assert(step * grid_step(rest as nat) == (step * 2) * grid_step((rest / 2) as nat))
                by (nonlinear_arith)
                requires
                    grid_step(rest as nat) == 2 * grid_step((rest / 2) as nat),
            ;
        }
        step = step * 2;
        rest = rest / 2;
    }
    proof {
        assert(step * grid_step(rest as nat) == step) by (nonlinear_arith)
            requires
                grid_step(rest as nat) == 1,
        ;
    }
    step
}

/// Rounds `num / den` to 53 significant bits.
pub fn round_to_53_bits(num: u128, den: u128) -> (rounded: u128)
    requires
        1 <= den <= u32::MAX,
        num <= 0x100000000000000000000000000000,
    ensures
        rounded == round_to_grid(num as nat, den as nat),
{
    let step: u128 = grid_step_of(num / den);
    assert(den * step <= 0xFFFF_FFFF * 0x10000000000000000000) by (nonlinear_arith)
        requires
            1 <= den <= 0xFFFF_FFFF,
            1 <= step <= 0x10000000000000000000,
    ;
    let cell: u128 = den * step;
    assert(cell >= step) by (nonlinear_arith)
        requires
            cell == den * step,
            den >= 1,
            step >= 1,
    ;
    let below: u128 = num / cell;
    let rest: u128 = num % cell;
    proof {
        lemma_fundamental_div_mod(num as int, cell as int);
        assert(below * step <= cell * below) by (nonlinear_arith)
            requires
                cell >= step,
                below >= 0,
                step >= 1,
        ;
        assert((below + 1) * step == below * step + step) by (nonlinear_arith);
    }
    let twice_rest: u128 = 2 * rest;
    if twice_rest < cell || (twice_rest == cell && below % 2 == 0) {
        below * step
    } else {
        (below + 1) * step
    }
}

} // verus!
