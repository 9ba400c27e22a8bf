//! General laws of the probability model, each proved for every input its
//! statement admits.
//!
//! The laws are stated over the model's exact fractions; the executable
//! functions return exactly those fractions (see [`crate::prob`]), so each
//! law carries over to every computed result.

use vstd::prelude::*;
use crate::die::Die;
use crate::model::base_prob;
use crate::model::frac_ge;
use crate::model::frac_is_one;
use crate::model::lemma_base_prob_bounds;
use crate::model::lemma_mul_ge_mono;
use crate::model::lemma_tok_prob_bounds;
use crate::model::lemma_tok_roll_sum_bounds;
use crate::model::tok_prob;
use crate::model::tok_roll_sum;
use crate::model::tokens_to_explode;

verus! {

/// Comparing fractions is transitive (all denominators positive).
proof fn lemma_frac_ge_trans(a0: int, a1: int, b0: int, b1: int, c0: int, c1: int)
    by (nonlinear_arith)
    requires
        a0 * b1 >= b0 * a1,
        b0 * c1 >= c0 * b1,
        1 <= a1,
        1 <= b1,
        1 <= c1,
        0 <= a0,
        0 <= b0,
        0 <= c0,
    ensures
        a0 * c1 >= c0 * a1,
{
}

/// The chance of success never grows as the difficulty grows: for any die,
/// `base_prob(die, dc)` is non-increasing in `dc`.
pub proof fn lemma_dc_monotone(die: Die, dc1: int, dc2: int)
    requires
        dc1 <= dc2,
    ensures
        frac_ge(base_prob(die, dc1), base_prob(die, dc2)),
    decreases dc2,
{
    let s = die.spec_sides();
    let p1 = base_prob(die, dc1);
    let p2 = base_prob(die, dc2);
    lemma_base_prob_bounds(die, dc1);
    lemma_base_prob_bounds(die, dc2);
    if dc2 <= 1 {
        assert(p1.0 * p2.1 >= p2.0 * p1.1);
    } else if dc1 <= 1 {
        // p1 is (1, 1) and p2 is a probability: 1 * p2.1 >= p2.0 * 1.
        assert(p1.0 * p2.1 >= p2.0 * p1.1);
    } else if dc2 <= s {
        lemma_mul_ge_mono(s - dc1 + 1, s - dc2 + 1, s);
        assert(p1.0 * p2.1 >= p2.0 * p1.1);
    } else if dc1 <= s {
        let sub = base_prob(die.spec_next(), dc2 - s);
        lemma_base_prob_bounds(die.spec_next(), dc2 - s);
        // p1 wins on at least one face out of s; p2 is at most 1/s of a
        // probability.
        assert(p1.0 * p2.1 >= p2.0 * p1.1) by (nonlinear_arith)
            requires
                1 <= p1.0,
                p1.1 == s,
                p2.0 == sub.0,
                p2.1 == s * sub.1,
                0 <= sub.0 <= sub.1,
                4 <= s,
        ;
    } else {
        lemma_dc_monotone(die.spec_next(), dc1 - s, dc2 - s);
        let b1 = base_prob(die.spec_next(), dc1 - s);
        let b2 = base_prob(die.spec_next(), dc2 - s);
        assert(p1.0 * p2.1 >= p2.0 * p1.1) by (nonlinear_arith)
            requires
                p1.0 == b1.0,
                p1.1 == s * b1.1,
                p2.0 == b2.0,
                p2.1 == s * b2.1,
                b1.0 * b2.1 >= b2.0 * b1.1,
                0 <= s,
        ;
    }
}

/// Beyond the die's reach, the roll sum from any starting roll `r` is worth
/// at least the contribution of the maximum roll alone, which carries the
/// full token pool to the next die against residual `dc - sides`.
proof fn lemma_sum_covers_top_roll(die: Die, tokens: int, dc: int, r: int)
    requires
        0 <= tokens,
        die.spec_sides() < dc,
        1 <= r <= die.spec_sides(),
    ensures
        frac_ge(
            tok_roll_sum(die, tokens, dc, r),
            tok_prob(die.spec_next(), tokens, dc - die.spec_sides()),
        ),
    decreases die.spec_sides() - r,
{
    let s = die.spec_sides();
    let ss = tok_prob(die.spec_next(), tokens, dc - s);
    let ts = tok_roll_sum(die, tokens, dc, r);
    lemma_tok_prob_bounds(die.spec_next(), tokens, dc - s);
    if r == s {
        // The maximum roll always contributes, spends no tokens, and the
        // rest of the sum is empty.
        assert(tokens_to_explode(die, r) == 0);
        assert(tok_roll_sum(die, tokens, dc, r + 1) == (0int, 1int));
        assert(ts.0 == ss.0 * 1 + 0 * ss.1);
        assert(ts.1 == ss.1 * 1);
    } else {
        lemma_sum_covers_top_roll(die, tokens, dc, r + 1);
        let rest = tok_roll_sum(die, tokens, dc, r + 1);
        lemma_tok_roll_sum_bounds(die, tokens, dc, r + 1);
        if r + tokens < s - 1 {
            // This roll contributes nothing; the sum equals `rest`.
        } else {
            let sub = tok_prob(die.spec_next(), tokens - tokens_to_explode(die, r), dc - r);
            lemma_tok_prob_bounds(die.spec_next(), tokens - tokens_to_explode(die, r), dc - r);
            assert(ts.0 * ss.1 >= ss.0 * ts.1) by (nonlinear_arith)
                requires
                    ts.0 == sub.0 * rest.1 + rest.0 * sub.1,
                    ts.1 == sub.1 * rest.1,
                    rest.0 * ss.1 >= ss.0 * rest.1,
                    0 <= sub.0,
                    1 <= sub.1,
                    1 <= rest.1,
                    0 <= ss.0,
                    1 <= ss.1,
            ;
        }
    }
}

/// Turbo tokens never hurt: for every die, difficulty, and token count, the
/// token model's probability is at least the base model's.
pub proof fn lemma_tokens_never_hurt(die: Die, tokens: int, dc: int)
    requires
        0 <= tokens,
    ensures
        frac_ge(tok_prob(die, tokens, dc), base_prob(die, dc)),
    decreases dc,
{
    let s = die.spec_sides();
    let tp = tok_prob(die, tokens, dc);
    let bp = base_prob(die, dc);
    if dc <= 1 {
    } else if dc <= s {
        // Tokens only widen the winning band of faces.
        lemma_mul_ge_mono(tp.0, bp.0, s);
    } else {
        lemma_tokens_never_hurt(die.spec_next(), tokens, dc - s);
        lemma_sum_covers_top_roll(die, tokens, dc, 1);
        let ss = tok_prob(die.spec_next(), tokens, dc - s);
        let bs = base_prob(die.spec_next(), dc - s);
        let ts = tok_roll_sum(die, tokens, dc, 1);
        lemma_tok_prob_bounds(die.spec_next(), tokens, dc - s);
        lemma_base_prob_bounds(die.spec_next(), dc - s);
        lemma_tok_roll_sum_bounds(die, tokens, dc, 1);
        lemma_frac_ge_trans(ts.0, ts.1, ss.0, ss.1, bs.0, bs.1);
        assert(tp.0 * bp.1 >= bp.0 * tp.1) by (nonlinear_arith)
            requires
                ts.0 * bs.1 >= bs.0 * ts.1,
                0 <= s,
                tp.0 == ts.0,
                tp.1 == s * ts.1,
                bp.0 == bs.0,
                bp.1 == s * bs.1,
        ;
    }
}

/// With no tokens and a difficulty within the die's own reach, the token
/// model degenerates to the base model.
///
/// Beyond the die's reach the two models genuinely differ even at zero
/// tokens: the token model also lets a roll one below the maximum explode
/// for free, so this law holds exactly on `dc <= sides`.
pub proof fn lemma_zero_tokens_matches_base(die: Die, dc: int)
    requires
        dc <= die.spec_sides(),
    ensures
        tok_prob(die, 0, dc) == base_prob(die, dc),
{
}

/// One step of the saturated roll sum: if every roll from `r` up contributes
/// a certain success, the sum counts one full unit per roll.
proof fn lemma_all_rolls_saturate(die: Die, tokens: int, dc: int, r: int)
    requires
        tokens >= 18 * dc,
        die.spec_sides() < dc,
        1 <= r <= die.spec_sides() + 1,
    ensures
        tok_roll_sum(die, tokens, dc, r).0
            == (die.spec_sides() + 1 - r) * tok_roll_sum(die, tokens, dc, r).1,
    decreases dc, die.spec_sides() + 1 - r,
{
    let s = die.spec_sides();
    let ts = tok_roll_sum(die, tokens, dc, r);
    if r > s {
        assert(r == s + 1);
        assert(ts == (0int, 1int));
        assert(ts.0 == (s + 1 - r) * ts.1) by (nonlinear_arith)
            requires
                r == s + 1,
                ts == (0int, 1int),
        ;
    } else {
        assert(s - 1 <= r + tokens);
        lemma_all_rolls_saturate(die, tokens, dc, r + 1);
        let rest = tok_roll_sum(die, tokens, dc, r + 1);
        let needed = tokens_to_explode(die, r);
        lemma_enough_tokens_guarantee(die.spec_next(), tokens - needed, dc - r);
        let sub = tok_prob(die.spec_next(), tokens - needed, dc - r);
        assert(ts.0 == (s + 1 - r) * ts.1) by (nonlinear_arith)
            requires
                ts.0 == sub.0 * rest.1 + rest.0 * sub.1,
                ts.1 == sub.1 * rest.1,
                sub.0 == sub.1,
                rest.0 == (s - r) * rest.1,
        ;
    }
}

/// Enough tokens make success certain: once `tokens >= 18 * dc`, every roll
/// can be pushed up the whole explosion chain, so the probability is exactly
/// 1.  In particular, for every die and difficulty the token model reaches 1
/// for all sufficiently large token counts.
pub proof fn lemma_enough_tokens_guarantee(die: Die, tokens: int, dc: int)
    requires
        tokens >= 18 * dc,
    ensures
        frac_is_one(tok_prob(die, tokens, dc)),
    decreases dc, die.spec_sides() + 2int,
{
    let s = die.spec_sides();
    if dc <= 1 {
    } else if dc <= s {
        // hits saturates at s because tokens >= dc - 1.
    } else {
        lemma_all_rolls_saturate(die, tokens, dc, 1);
        let ts = tok_roll_sum(die, tokens, dc, 1);
        assert((s + 1 - 1) * ts.1 == s * ts.1) by (nonlinear_arith);
    }
}

} // verus!
