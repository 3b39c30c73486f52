//! Binary Angle Measurement: phases as `u32`, where the whole circle is
//! `2^32` units and wrap-around is integer wrap-around.

use vstd::arithmetic::div_mod::{
    lemma_add_mod_noop, lemma_fundamental_div_mod, lemma_fundamental_div_mod_converse,
    lemma_mod_bound, lemma_mod_multiples_vanish, lemma_mod_twice, lemma_mul_mod_noop_right,
    lemma_sub_mod_noop,
};
use vstd::math::abs;
use vstd::prelude::*;

verus! {

/// A phase or phase velocity in BAM units.
pub type Bam32 = u32;

/// The number of BAM units in a full turn.
pub open spec fn turn() -> int {
    0x1_0000_0000
}

/// The phase reached from `theta` after `steps` integration steps, each of
/// which advances it by `d_theta * dt`, on the circle of `2^32` units.
pub open spec fn advanced(theta: u32, d_theta: u32, dt: u32, steps: nat) -> u32 {
    ((theta + steps * (d_theta * dt)) % turn()) as u32
}

/// The signed phase lag of `src` relative to `dst`: the representative
/// of `src - dst` modulo a turn that lies in `[-2^31, 2^31)`.
pub open spec fn signed_lag(src: u32, dst: u32) -> int {
    let d = (src - dst) % turn();
    if d >= 0x8000_0000 {
        d - turn()
    } else {
        d
    }
}

/// The wrapping sum of two phases.
pub open spec fn phase_add(a: u32, b: u32) -> u32 {
    ((a + b) % turn()) as u32
}

proof fn lemma_u32_as_i32(x: u32)
    ensures
        (x as i32) as int == (if x >= 0x8000_0000 { x - 0x1_0000_0000 } else { x as int }),
{
    assert((x as i32) as int == (if x >= 0x8000_0000 { x - 0x1_0000_0000 } else { x as int }))
        by (bit_vector);
}

/// One integration step: the phase advances by its angular velocity times
/// the time step, wrapping around the circle.
pub fn advance_phase(theta: u32, d_theta: u32, dt_bam: u32) -> (r: u32)
    ensures
        r == advanced(theta, d_theta, dt_bam, 1),
        r == (theta + d_theta * dt_bam) % 0x1_0000_0000,
{
    let step = d_theta.wrapping_mul(dt_bam);
    let r = theta.wrapping_add(step);
    proof {
        let p: int = d_theta * dt_bam;
        assert(step == p % turn());
        lemma_add_mod_noop(theta as int, p, turn());
        lemma_mod_twice(theta as int, turn());
        lemma_mod_bound(theta + step, turn());
        assert(r == (theta + step) % turn());
        assert(1 * p == p);
    }
    r
}

/// The phase lag of `src` relative to `dst` as a signed angle: the two's
/// complement reading of the wrapped difference, which is the shortest
/// signed arc from `dst` to `src`.
pub fn phase_lag(src: u32, dst: u32) -> (r: i32)
    ensures
        r == signed_lag(src, dst),
        r == src - dst || r == src - dst - 0x1_0000_0000 || r == src - dst + 0x1_0000_0000,
{
    let diff = src.wrapping_sub(dst);
    proof {
        lemma_signed_lag_is_shifted_difference(src, dst);
        lemma_u32_as_i32(diff);
        if src - dst < 0 {
            lemma_mod_multiples_vanish(1, src - dst, turn());
            assert((src - dst + turn()) % turn() == (src - dst) % turn());
        }
    }
    diff as i32
}

/// The signed lag is congruent to the difference of the phases, lies in
/// `[-2^31, 2^31)`, and is no longer than any other representative of that
/// difference: it is the shortest arc between the two phases.
pub proof fn lemma_lag_is_shortest_arc(src: u32, dst: u32, other: int)
    requires
        (other - (src - dst)) % turn() == 0,
    ensures
        -0x8000_0000 <= signed_lag(src, dst) < 0x8000_0000,
        (signed_lag(src, dst) - (src - dst)) % turn() == 0,
        abs(signed_lag(src, dst)) <= abs(other),
{
    let lag = signed_lag(src, dst);
    let d = (src - dst) % turn();
    lemma_fundamental_div_mod(src - dst, turn());
    let q = (src - dst) / turn();
    assert(src - dst == turn() * q + d);
    assert(lag - (src - dst) == turn() * (-q) + (lag - d));
    if d >= 0x8000_0000 {
        lemma_fundamental_div_mod_converse(lag - (src - dst), turn(), -q - 1, 0);
    } else {
        lemma_fundamental_div_mod_converse(lag - (src - dst), turn(), -q, 0);
    }
    lemma_fundamental_div_mod(other - lag, turn());
    assert((other - lag) % turn() == 0) by {
        lemma_fundamental_div_mod(other - (src - dst), turn());
        let k1 = (other - (src - dst)) / turn();
        let k2 = (lag - (src - dst)) / turn();
        lemma_fundamental_div_mod(lag - (src - dst), turn());
        assert(other - lag == turn() * k1 - turn() * k2);
        assert(turn() * k1 - turn() * k2 == turn() * (k1 - k2)) by (nonlinear_arith);
        lemma_fundamental_div_mod_converse(other - lag, turn(), k1 - k2, 0);
    }
    let k = (other - lag) / turn();
    assert(other == lag + turn() * k);
    if k > 0 {
        assert(turn() * k >= turn()) by (nonlinear_arith)
            requires
                k > 0,
        ;
    } else if k < 0 {
        assert(turn() * k <= -turn()) by (nonlinear_arith)
            requires
                k < 0,
        ;
    }
}

/// Rotating both phases by the same angle leaves their lag unchanged: the
/// coupling between oscillators depends only on phase differences.
pub proof fn lemma_lag_rotation_invariant(src: u32, dst: u32, shift: u32)
    ensures
        signed_lag(phase_add(src, shift), phase_add(dst, shift)) == signed_lag(src, dst),
{
    lemma_mod_bound(src + shift, turn());
    lemma_mod_bound(dst + shift, turn());
    lemma_sub_mod_noop(src + shift, dst + shift, turn());
    assert((src + shift) - (dst + shift) == src - dst);
}

/// Swapping the two phases negates their lag, except at exactly half a turn,
/// where the lag is `-2^31` both ways.
pub proof fn lemma_lag_antisymmetric(src: u32, dst: u32)
    ensures
        signed_lag(src, dst) != -0x8000_0000 ==> signed_lag(dst, src) == -signed_lag(src, dst),
        signed_lag(src, dst) == -0x8000_0000 ==> signed_lag(dst, src) == -0x8000_0000,
{
    let d = (src - dst) % turn();
    lemma_mod_bound(src - dst, turn());
    lemma_fundamental_div_mod(src - dst, turn());
    let q = (src - dst) / turn();
    if d == 0 {
        lemma_fundamental_div_mod_converse(dst - src, turn(), -q, 0);
    } else {
        lemma_fundamental_div_mod_converse(dst - src, turn(), -q - 1, turn() - d);
    }
}

/// Integrating by `dt1` and then by `dt2` is the same as integrating once by
/// their wrapping sum, for any number of steps per tick.
pub proof fn lemma_advance_composes(theta: u32, d_theta: u32, dt1: u32, dt2: u32, steps: nat)
    ensures
        advanced(advanced(theta, d_theta, dt1, steps), d_theta, dt2, steps) == advanced(
            theta,
            d_theta,
            phase_add(dt1, dt2),
            steps,
        ),
{
    let a: int = steps * (d_theta * dt1);
    let b: int = steps * (d_theta * dt2);
    let c: int = steps * (d_theta * ((dt1 + dt2) % turn()));
    let first = (theta + a) % turn();
    assert((first + b) % turn() == (theta + a + b) % turn()) by {
        lemma_add_mod_noop(first, b, turn());
        lemma_add_mod_noop(theta + a, b, turn());
        lemma_mod_twice(theta + a, turn());
    }
    assert(a + b == (steps * d_theta) * (dt1 + dt2)) by (nonlinear_arith)
        requires
            a == steps * (d_theta * dt1),
            b == steps * (d_theta * dt2),
    ;
    let m = (dt1 + dt2) % turn();
    assert(c == (steps * d_theta) * m) by (nonlinear_arith)
        requires
            c == steps * (d_theta * m),
    ;
    lemma_mul_mod_noop_right(steps * d_theta, dt1 + dt2, turn());
    lemma_add_mod_noop(theta as int, a + b, turn());
    lemma_add_mod_noop(theta as int, c, turn());
}

/// One more integration step on top of `steps` steps is `steps + 1` steps.
pub proof fn lemma_advance_step(theta: u32, d_theta: u32, dt: u32, steps: nat)
    ensures
        advanced(advanced(theta, d_theta, dt, steps), d_theta, dt, 1) == advanced(
            theta,
            d_theta,
            dt,
            steps + 1,
        ),
{
    let p: int = d_theta * dt;
    let a: int = steps * p;
    assert(((theta + a) % turn() + p) % turn() == (theta + a + p) % turn()) by {
        lemma_add_mod_noop((theta + a) % turn(), p, turn());
        lemma_mod_twice(theta + a, turn());
        lemma_add_mod_noop(theta + a, p, turn());
    }
    assert(a + p == (steps + 1) * p) by (nonlinear_arith)
        requires
            a == steps * p,
    ;
    assert(1 * p == p);
}

/// After `steps` integration steps the phase is the starting phase plus
/// `steps` times the velocity times the time step, modulo a full turn.
pub proof fn lemma_advanced_is_wrapped_sum(theta: u32, d_theta: u32, dt: u32, steps: nat)
    ensures
        advanced(theta, d_theta, dt, steps) as int == (theta + steps * d_theta * dt) % 0x1_0000_0000,
{
    assert(steps * (d_theta * dt) == steps * d_theta * dt) by (nonlinear_arith);
    lemma_mod_bound(theta + steps * (d_theta * dt), turn());
}

/// The signed lag of two phases is their difference, shifted by at most one
/// full turn into `[-2^31, 2^31)`.
pub proof fn lemma_signed_lag_is_shifted_difference(src: u32, dst: u32)
    ensures
        -0x8000_0000 <= signed_lag(src, dst) < 0x8000_0000,
        signed_lag(src, dst) == src - dst || signed_lag(src, dst) == src - dst - 0x1_0000_0000
            || signed_lag(src, dst) == src - dst + 0x1_0000_0000,
{
    let d = src - dst;
    lemma_mod_bound(d, turn());
    if d >= 0 {
        vstd::arithmetic::div_mod::lemma_small_mod(d as nat, turn() as nat);
    } else {
        lemma_mod_multiples_vanish(1, d, turn());
        vstd::arithmetic::div_mod::lemma_small_mod((d + turn()) as nat, turn() as nat);
    }
}

} // verus!
