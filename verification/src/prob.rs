//! Executable probability computation.
//!
//! The functions here return a [`Prob`], an exact integer fraction equal to
//! the corresponding fraction of the model; a caller wanting a float divides
//! numerator by denominator.  Difficulties up to 200 and token counts that
//! keep `dc + tokens <= 220` are admitted; within that range every
//! denominator fits in a `u128` (see the size bounds in [`crate::model`]).

use vstd::prelude::*;
use crate::die::Die;
use crate::model::base_prob;
use crate::model::cden;
use crate::model::lemma_base_den_cap;
use crate::model::lemma_base_prob_bounds;
use crate::model::lemma_cden_cap;
use crate::model::lemma_cden_divides;
use crate::model::lemma_cden_pos;
use crate::model::lemma_cden_sides_divides;
use crate::model::lemma_mul_at_least;
use crate::model::lemma_mul_le_le;
use crate::model::tok_prob;
use crate::model::tok_roll_sum;
use crate::model::tokens_to_explode;

verus! {

/// An exact probability `num / den`, with `0 <= num <= den` and `den >= 1`.
#[derive(Clone, Copy, Debug, PartialEq, Eq, Structural)]
pub struct Prob {
    pub num: u128,
    pub den: u128,
}

/// Rescaling a fraction keeps its value: from `x / y == b / a` (cross
/// multiplied) and `z == q * y` it follows that `(x * q) / z == b / a`.
proof fn lemma_frac_rescale(x: int, a: int, b: int, y: int, q: int, z: int)
    by (nonlinear_arith)
    requires
        x * a == b * y,
        z == q * y,
    ensures
        (x * q) * a == b * z,
{
}

/// Adding two fractions that are both written over the denominator `dd`
/// matches the model's pairwise fraction addition.
proof fn lemma_frac_add_step(acc: int, w: int, s0: int, s1: int, r0: int, r1: int, dd: int)
    by (nonlinear_arith)
    requires
        acc * r1 == r0 * dd,
        w * s1 == s0 * dd,
    ensures
        (acc + w) * (s1 * r1) == (s0 * r1 + r0 * s1) * dd,
{
}

/// A numerator rescaled to the common denominator stays below it.
proof fn lemma_scaled_term_le(n: int, d: int, q: int, dd: int)
    by (nonlinear_arith)
    requires
        0 <= n <= d,
        1 <= q,
        dd == q * d,
    ensures
        0 <= n * q <= dd,
{
}

/// Multiplying numerator and denominator of an equality of fractions by the
/// same factor preserves it.
proof fn lemma_frac_scale_both(acc: int, t1: int, t0: int, dd: int, s: int)
    by (nonlinear_arith)
    requires
        acc * t1 == t0 * dd,
    ensures
        acc * (s * t1) == t0 * (s * dd),
{
}

/// Rearranging a product of three factors.
proof fn lemma_mul_shuffle(h: int, k: int, s: int)
    by (nonlinear_arith)
    ensures
        (h * k) * s == h * (s * k),
{
}

/// Splitting one term off a product with a sum.
proof fn lemma_mul_split(k: int, dd: int)
    by (nonlinear_arith)
    ensures
        (k + 1) * dd == k * dd + dd,
{
}

/// Computes the canonical denominator of the token model at measure `m`.
fn cden_exec(die: Die, m: u32) -> (r: u128)
    requires
        m <= 220,
    ensures
        r == cden(die, m as int),
        4 <= r,
    decreases m,
{
    let s: u32 = die.sides();
    if m <= s {
        s as u128
    } else {
        let sub = cden_exec(die.next(), m - (s - 1));
        proof {
            lemma_cden_cap(die.spec_next(), m as int - (s as int - 1));
            lemma_mul_le_le(s as int, 20, sub as int, 94371840000000000000);
            lemma_mul_at_least(s as int, sub as int);
        }
        (s as u128) * sub
    }
}

/// Computes the probability of beating a given difficulty class when starting
/// with the given die type.  Turbo tokens are not considered in this
/// function.
///
/// The result is the exact fraction of the base explosion model: if the
/// result is the maximum value for the die, the die explodes, the player
/// upgrades to the next highest die type and rolls again, adding the result
/// to the maximum of the previous die, saturating at a d20 (which rerolls
/// itself).
///
/// # Arguments
///
/// * `die` - The type of die being rolled.
/// * `dc` - The difficulty class to beat.
pub fn probability_of_success(die: Die, dc: u32) -> (r: Prob)
    requires
        dc <= 200,
    ensures
        r.num == base_prob(die, dc as int).0,
        r.den == base_prob(die, dc as int).1,
        1 <= r.den,
        r.num <= r.den,
        dc <= 1 ==> r.num == r.den,
    decreases dc,
{
    let s: u32 = die.sides();
    if dc <= 1 {
        Prob { num: 1, den: 1 }
    } else if dc <= s {
        Prob { num: (s - dc + 1) as u128, den: s as u128 }
    } else {
        let sub = probability_of_success(die.next(), dc - s);
        proof {
            lemma_base_prob_bounds(die.spec_next(), dc as int - s as int);
            lemma_base_den_cap(die.spec_next(), dc as int - s as int);
            lemma_mul_le_le(s as int, 20, sub.den as int, 235929600000000000);
            lemma_mul_at_least(s as int, sub.den as int);
        }
        Prob { num: sub.num, den: (s as u128) * sub.den }
    }
}

/// Computes the token model at one difficulty, returning its value written
/// over the canonical denominator `cden(die, dc + tokens)`.
fn tok_prob_exec(die: Die, tokens: u32, dc: u32) -> (r: Prob)
    requires
        dc + tokens <= 220,
    ensures
        r.den == cden(die, dc as int + tokens as int),
        r.num * tok_prob(die, tokens as int, dc as int).1
            == tok_prob(die, tokens as int, dc as int).0 * r.den,
        r.num <= r.den,
        1 <= r.den,
    decreases dc, die.spec_sides() + 2int,
{
    let s: u32 = die.sides();
    let m: u32 = dc + tokens;
    if dc <= 1 {
        let d = cden_exec(die, m);
        proof {
            assert(tok_prob(die, tokens as int, dc as int) == (1int, 1int));
            assert(d as int * 1 == 1 * d as int);
        }
        Prob { num: d, den: d }
    } else if dc <= s {
        let d = cden_exec(die, m);
        let ghost k = {
            lemma_cden_sides_divides(die, m as int);
            choose|k: int| 1 <= k && cden(die, m as int) == #[trigger] (die.spec_sides() * k)
        };
        proof {
            vstd::arithmetic::div_mod::lemma_div_multiples_vanish(k, s as int);
            lemma_mul_at_least(s as int, k);
        }
        let unit: u128 = d / (s as u128);
        let hits_raw: u32 = s - dc + 1 + tokens;
        let hits: u32 = if hits_raw <= s { hits_raw } else { s };
        proof {
            lemma_cden_cap(die, m as int);
            lemma_mul_le_le(hits as int, 20, unit as int, 94371840000000000000);
            lemma_mul_shuffle(hits as int, k, s as int);
            lemma_mul_le_le(hits as int, s as int, k, k);
            assert(unit as int == k);
            assert(tok_prob(die, tokens as int, dc as int).1 == s as int);
            assert(tok_prob(die, tokens as int, dc as int).0 == hits as int);
            assert((hits as int * k) * s as int == hits as int * d as int);
        }
        Prob { num: (hits as u128) * unit, den: d }
    } else {
        let nxt = die.next();
        let dd = cden_exec(nxt, m - (s - 1));
        let acc = tok_sum_exec(die, tokens, dc, 1, dd);
        proof {
            lemma_cden_cap(die.spec_next(), m as int - (s as int - 1));
            lemma_mul_le_le(s as int, 20, dd as int, 94371840000000000000);
            let tsum = tok_roll_sum(die, tokens as int, dc as int, 1);
            lemma_frac_scale_both(acc as int, tsum.1, tsum.0, dd as int, s as int);
            assert((s as int + 1 - 1) * dd as int == s as int * dd as int)
                by (nonlinear_arith);
            assert(tok_prob(die, tokens as int, dc as int).1 == s as int * tsum.1);
            assert(tok_prob(die, tokens as int, dc as int).0 == tsum.0);
            assert(acc as int * (s as int * tsum.1) == tsum.0 * (s as int * dd as int));
        }
        Prob { num: acc, den: (s as u128) * dd }
    }
}

/// Sums, over the natural rolls `r..=sides`, each roll's contribution to the
/// token model, written over the common denominator `dd`; the division by
/// `sides` is applied by the caller.
fn tok_sum_exec(die: Die, tokens: u32, dc: u32, r: u32, dd: u128) -> (acc: u128)
    requires
        dc + tokens <= 220,
        die.spec_sides() < dc,
        1 <= r,
        r <= die.spec_sides() + 1,
        dd == cden(die.spec_next(), dc as int + tokens as int - (die.spec_sides() - 1)),
    ensures
        acc * tok_roll_sum(die, tokens as int, dc as int, r as int).1
            == tok_roll_sum(die, tokens as int, dc as int, r as int).0 * dd,
        acc <= (die.spec_sides() + 1 - r) * dd,
    decreases dc, die.spec_sides() + 1 - r,
{
    let s: u32 = die.sides();
    if r > s {
        0
    } else {
        let rest = tok_sum_exec(die, tokens, dc, r + 1, dd);
        if r + tokens < s - 1 {
            proof {
                lemma_cden_pos(die.spec_next(), dc as int + tokens as int - (s as int - 1));
                lemma_mul_le_le(
                    s as int - r as int,
                    s as int + 1 - r as int,
                    dd as int,
                    dd as int,
                );
            }
            rest
        } else {
            let needed: u32 = if s - r >= 1 { s - r - 1 } else { 0 };
            let sub = tok_prob_exec(die.next(), tokens - needed, dc - r);
            let ghost mr = dc as int - r as int + tokens as int - needed as int;
            let ghost md = dc as int + tokens as int - (s as int - 1);
            let ghost k = {
                lemma_cden_divides(die.spec_next(), mr, md);
                choose|k: int|
                    1 <= k && cden(die.spec_next(), md)
                        == #[trigger] (k * cden(die.spec_next(), mr))
            };
            proof {
                assert(k * sub.den as int == sub.den as int * k) by (nonlinear_arith);
                vstd::arithmetic::div_mod::lemma_div_multiples_vanish(k, sub.den as int);
            }
            let q: u128 = dd / sub.den;
            let ghost spec_sub = tok_prob(
                die.spec_next(),
                tokens as int - tokens_to_explode(die, r as int),
                dc as int - r as int,
            );
            let ghost spec_rest = tok_roll_sum(die, tokens as int, dc as int, r as int + 1);
            proof {
                lemma_scaled_term_le(sub.num as int, sub.den as int, k, dd as int);
                lemma_cden_cap(die.spec_next(), md);
                lemma_mul_le_le(s as int - r as int, 20, dd as int, 94371840000000000000);
                lemma_frac_rescale(
                    sub.num as int,
                    spec_sub.1,
                    spec_sub.0,
                    sub.den as int,
                    k,
                    dd as int,
                );
                lemma_frac_add_step(
                    rest as int,
                    sub.num as int * k,
                    spec_sub.0,
                    spec_sub.1,
                    spec_rest.0,
                    spec_rest.1,
                    dd as int,
                );
                lemma_mul_split(s as int - r as int, dd as int);
            }
            rest + sub.num * q
        }
    }
}

/// Computes the probability of beating a given difficulty class when starting
/// with the given die type and using available turbo tokens to explode the
/// die.
///
/// Each turbo token spent adds 1 to the result of a roll; a player is assumed
/// to always spend turbo tokens to explode the die whenever that is possible.
/// The result is the exact fraction of the token-augmented explosion model.
///
/// # Arguments
///
/// * `die` - The type of die being rolled.
/// * `turbo_tokens` - The number of turbo tokens available to the player.
/// * `dc` - The difficulty class to beat.
pub fn probability_of_success_with_turbo_tokens(die: Die, turbo_tokens: u32, dc: u32) -> (r: Prob)
    requires
        dc + turbo_tokens <= 220,
    ensures
        r.num * tok_prob(die, turbo_tokens as int, dc as int).1
            == tok_prob(die, turbo_tokens as int, dc as int).0 * r.den,
        1 <= r.den,
        r.num <= r.den,
        dc <= 1 ==> r.num == r.den,
{
    let r = tok_prob_exec(die, turbo_tokens, dc);
    proof {
        if dc <= 1 {
            assert(tok_prob(die, turbo_tokens as int, dc as int).0 == 1);
            assert(tok_prob(die, turbo_tokens as int, dc as int).1 == 1);
            assert(r.num * 1 == 1 * r.den);
        }
    }
    r
}

} // verus!
