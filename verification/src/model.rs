//! The mathematical model: success probabilities as exact integer fractions.
//!
//! A probability here is a pair `(numerator, denominator)` of integers with a
//! positive denominator.  All denominators are products of die sizes, so every
//! value is an exact rational; two pairs denote the same probability when they
//! cross-multiply equal, and `frac_ge` compares values the same way.

use vstd::prelude::*;
use crate::die::Die;

verus! {

/// `a` denotes a probability at least as large as `b` (both with positive
/// denominators): a.0/a.1 >= b.0/b.1, stated by cross-multiplication.
pub open spec fn frac_ge(a: (int, int), b: (int, int)) -> bool {
    a.0 * b.1 >= b.0 * a.1
}

/// The fraction `a` denotes exactly 1.
pub open spec fn frac_is_one(a: (int, int)) -> bool {
    a.0 == a.1
}

/// Probability of beating difficulty `dc` with `die` in the base explosion
/// model, as an exact fraction.
///
/// A roll is uniform over 1..=sides.  Any roll beats a difficulty of at most
/// 1; a difficulty within the die's reach is beaten by the top
/// `sides - dc + 1` faces; a higher difficulty is only reachable by rolling
/// the maximum (probability 1/sides), banking it, and beating the residual
/// difficulty with the next die on the ladder.
pub open spec fn base_prob(die: Die, dc: int) -> (int, int)
    decreases dc,
{
    if dc <= 1 {
        (1, 1)
    } else if dc <= die.spec_sides() {
        (die.spec_sides() - dc + 1, die.spec_sides())
    } else {
        let sub = base_prob(die.spec_next(), dc - die.spec_sides());
        (sub.0, die.spec_sides() * sub.1)
    }
}

/// Tokens that must be spent to push a natural roll of `r` up to the point
/// where the die explodes: `sides - r - 1`, floored at zero.  A roll one
/// below the maximum already counts as an explosion trigger for free.
pub open spec fn tokens_to_explode(die: Die, r: int) -> int {
    if die.spec_sides() - r - 1 >= 0 {
        die.spec_sides() - r - 1
    } else {
        0
    }
}

/// Probability of beating difficulty `dc` with `die` when `tokens` turbo
/// tokens (each worth +1 on a roll) may be spent to force explosions.
///
/// Within the die's reach, tokens extend the band of winning faces downward,
/// saturating once every face wins.  Beyond the die's reach the die must
/// explode: every natural roll `r` that can still be pushed to an explosion
/// contributes the token-model probability of the next die beating the
/// residual `dc - r` with the leftover tokens, divided by `sides`.
pub open spec fn tok_prob(die: Die, tokens: int, dc: int) -> (int, int)
    decreases dc, die.spec_sides() + 2int,
{
    if dc <= 1 {
        (1, 1)
    } else if dc <= die.spec_sides() {
        let hits = die.spec_sides() - dc + 1 + tokens;
        ((if hits <= die.spec_sides() { hits } else { die.spec_sides() }), die.spec_sides())
    } else {
        let sum = tok_roll_sum(die, tokens, dc, 1);
        (sum.0, die.spec_sides() * sum.1)
    }
}

/// Sum, over the natural rolls `r..=sides`, of each roll's contribution to the
/// token model at a difficulty beyond the die's reach (the division by
/// `sides` is applied by the caller).  A roll that cannot reach an explosion
/// even with every token contributes nothing.
pub open spec fn tok_roll_sum(die: Die, tokens: int, dc: int, r: int) -> (int, int)
    decreases dc, die.spec_sides() + 1 - r,
{
    if r < 1 || r > die.spec_sides() || dc <= die.spec_sides() {
        (0, 1)
    } else {
        let rest = tok_roll_sum(die, tokens, dc, r + 1);
        if r + tokens < die.spec_sides() - 1 {
            rest
        } else {
            let sub = tok_prob(die.spec_next(), tokens - tokens_to_explode(die, r), dc - r);
            (sub.0 * rest.1 + rest.0 * sub.1, sub.1 * rest.1)
        }
    }
}

// ---------------------------------------------------------------------------
// Small multiplication facts used throughout the proofs.
// ---------------------------------------------------------------------------

/// Products of ordered nonnegative factors are ordered.
pub proof fn lemma_mul_le_le(a: int, b: int, c: int, d: int)
    by (nonlinear_arith)
    requires
        0 <= a <= b,
        0 <= c <= d,
    ensures
        a * c <= b * d,
{
}

/// Multiplying both sides of an inequality by a nonnegative factor.
pub proof fn lemma_mul_ge_mono(a: int, b: int, c: int)
    by (nonlinear_arith)
    requires
        a >= b,
        c >= 0,
    ensures
        c * a >= c * b,
        a * c >= b * c,
{
}

/// A nonnegative quantity does not shrink when multiplied by a factor >= 1.
pub proof fn lemma_mul_at_least(a: int, b: int)
    by (nonlinear_arith)
    requires
        1 <= a,
        0 <= b,
    ensures
        b <= a * b,
{
}

/// A product of factors that are each at least 1 (resp. 4) is at least 1
/// (resp. 4).
pub proof fn lemma_mul_pos(a: int, b: int)
    by (nonlinear_arith)
    requires
        1 <= a,
        1 <= b,
    ensures
        1 <= a * b,
        4 <= a ==> 4 <= a * b,
{
}

// ---------------------------------------------------------------------------
// The fractions above are well-formed probabilities.
// ---------------------------------------------------------------------------

/// The base model yields a well-formed probability: a positive denominator
/// and a numerator between 0 and the denominator (the value lies in [0, 1]).
pub proof fn lemma_base_prob_bounds(die: Die, dc: int)
    ensures
        1 <= base_prob(die, dc).1,
        0 <= base_prob(die, dc).0,
        base_prob(die, dc).0 <= base_prob(die, dc).1,
    decreases dc,
{
    if dc <= 1 {
    } else if dc <= die.spec_sides() {
    } else {
        let s = die.spec_sides();
        let sub = base_prob(die.spec_next(), dc - s);
        lemma_base_prob_bounds(die.spec_next(), dc - s);
        lemma_mul_pos(s, sub.1);
        lemma_mul_at_least(s, sub.1);
    }
}

/// One step of a roll sum keeps the partial sum within its term count: if one
/// more term worth at most 1 is added to a sum of value at most `k`, the
/// result is a fraction of value at most `k + 1`.
proof fn lemma_sum_step_bound(a0: int, a1: int, b0: int, b1: int, k: int)
    by (nonlinear_arith)
    requires
        0 <= a0 <= a1,
        1 <= a1,
        0 <= b0,
        b0 <= k * b1,
        1 <= b1,
        0 <= k,
    ensures
        0 <= a0 * b1 + b0 * a1,
        a0 * b1 + b0 * a1 <= (k + 1) * (a1 * b1),
        1 <= a1 * b1,
{
}

/// The token model yields a well-formed probability in [0, 1].
pub proof fn lemma_tok_prob_bounds(die: Die, tokens: int, dc: int)
    requires
        0 <= tokens,
    ensures
        1 <= tok_prob(die, tokens, dc).1,
        0 <= tok_prob(die, tokens, dc).0,
        tok_prob(die, tokens, dc).0 <= tok_prob(die, tokens, dc).1,
    decreases dc, die.spec_sides() + 2int,
{
    let s = die.spec_sides();
    if dc <= 1 {
    } else if dc <= s {
    } else {
        let sum = tok_roll_sum(die, tokens, dc, 1);
        lemma_tok_roll_sum_bounds(die, tokens, dc, 1);
        lemma_mul_pos(s, sum.1);
        // sum.0 <= s * sum.1 is exactly the numerator bound; the denominator
        // is s * sum.1 itself.
    }
}

/// A roll sum over `r..=sides` is a well-formed fraction whose value is at
/// most the number of terms, `sides + 1 - r`.
pub proof fn lemma_tok_roll_sum_bounds(die: Die, tokens: int, dc: int, r: int)
    requires
        0 <= tokens,
        1 <= r,
        r <= die.spec_sides() + 1,
    ensures
        1 <= tok_roll_sum(die, tokens, dc, r).1,
        0 <= tok_roll_sum(die, tokens, dc, r).0,
        tok_roll_sum(die, tokens, dc, r).0
            <= (die.spec_sides() + 1 - r) * tok_roll_sum(die, tokens, dc, r).1,
    decreases dc, die.spec_sides() + 1 - r,
{
    let s = die.spec_sides();
    if r < 1 || r > s || dc <= s {
    } else {
        let rest = tok_roll_sum(die, tokens, dc, r + 1);
        lemma_tok_roll_sum_bounds(die, tokens, dc, r + 1);
        if r + tokens < s - 1 {
            // The sum is `rest`, one fewer term than claimed.
            lemma_mul_le_le(s - r, s + 1 - r, rest.1, rest.1);
        } else {
            let sub = tok_prob(die.spec_next(), tokens - tokens_to_explode(die, r), dc - r);
            lemma_tok_prob_bounds(die.spec_next(), tokens - tokens_to_explode(die, r), dc - r);
            lemma_sum_step_bound(sub.0, sub.1, rest.0, rest.1, s - r);
        }
    }
}

// ---------------------------------------------------------------------------
// Canonical denominators, and bounds that keep the computation in range.
// ---------------------------------------------------------------------------

/// Powers of 20, the largest die size; the unit in which denominator growth
/// is measured.
pub open spec fn pow20(k: nat) -> int
    decreases k,
{
    if k == 0 {
        1
    } else {
        20 * pow20((k - 1) as nat)
    }
}

/// Canonical denominator for the token model at measure `m = dc + tokens`:
/// one factor of `sides` for the current die, then the canonical denominator
/// of the next die one explosion deeper.  Every contributing roll `r` spends
/// at least `sides - 1` of the measure (`r` points of difficulty plus
/// `sides - r - 1` tokens), so recursing on `m - (sides - 1)` covers the
/// deepest explosion chain the model can reach.
pub open spec fn cden(die: Die, m: int) -> int
    decreases m,
{
    if m <= die.spec_sides() {
        die.spec_sides()
    } else {
        die.spec_sides() * cden(die.spec_next(), m - (die.spec_sides() - 1))
    }
}

pub proof fn lemma_pow20_pos(k: nat)
    ensures
        1 <= pow20(k),
    decreases k,
{
    if k > 0 {
        lemma_pow20_pos((k - 1) as nat);
    }
}

pub proof fn lemma_pow20_mono(k1: nat, k2: nat)
    requires
        k1 <= k2,
    ensures
        pow20(k1) <= pow20(k2),
    decreases k2,
{
    lemma_pow20_pos(k1);
    if k1 < k2 {
        lemma_pow20_mono(k1, (k2 - 1) as nat);
    }
}

/// The numeric values of the powers of 20 that the size bounds use.
pub proof fn lemma_pow20_vals()
    ensures
        pow20(10) == 10240000000000,
        pow20(12) == 4096000000000000,
{
    reveal_with_fuel(pow20, 13);
}

/// Canonical denominators are at least 4.
pub proof fn lemma_cden_pos(die: Die, m: int)
    ensures
        4 <= cden(die, m),
    decreases m,
{
    let s = die.spec_sides();
    if m > s {
        lemma_cden_pos(die.spec_next(), m - (s - 1));
        lemma_mul_pos(s, cden(die.spec_next(), m - (s - 1)));
    }
}

/// A canonical denominator at a smaller measure divides the one at a larger
/// measure: the chain of side factors for `m1` is a prefix of the chain for
/// `m2`.
pub proof fn lemma_cden_divides(die: Die, m1: int, m2: int)
    requires
        m1 <= m2,
    ensures
        exists|k: int| 1 <= k && cden(die, m2) == #[trigger] (k * cden(die, m1)),
    decreases m2,
{
    let s = die.spec_sides();
    if m2 <= s {
        assert(cden(die, m2) == 1 * cden(die, m1));
    } else if m1 <= s {
        let c2 = cden(die.spec_next(), m2 - (s - 1));
        lemma_cden_pos(die.spec_next(), m2 - (s - 1));
        assert(s * c2 == c2 * s) by (nonlinear_arith);
        assert(cden(die, m2) == c2 * cden(die, m1));
    } else {
        lemma_cden_divides(die.spec_next(), m1 - (s - 1), m2 - (s - 1));
        let c1 = cden(die.spec_next(), m1 - (s - 1));
        let c2 = cden(die.spec_next(), m2 - (s - 1));
        let k = choose|k: int| 1 <= k && c2 == #[trigger] (k * c1);
        assert(s * (k * c1) == k * (s * c1)) by (nonlinear_arith);
        assert(cden(die, m2) == k * cden(die, m1));
    }
}

/// Every side count divides its die's canonical denominator, and the
/// quotient is itself at least 1.
pub proof fn lemma_cden_sides_divides(die: Die, m: int)
    ensures
        exists|k: int| 1 <= k && cden(die, m) == #[trigger] (die.spec_sides() * k),
{
    let s = die.spec_sides();
    if m <= s {
        assert(cden(die, m) == s * 1);
    } else {
        lemma_cden_pos(die.spec_next(), m - (s - 1));
        assert(cden(die, m) == s * cden(die.spec_next(), m - (s - 1)));
    }
}

/// Denominator growth bound for the top of the ladder: a d20 explosion chain
/// multiplies its denominator by 20 only once per 19 points of measure.
pub proof fn lemma_cden20_le(m: int)
    requires
        0 <= m,
    ensures
        cden(Die::D20, m) <= pow20((1 + m / 19) as nat),
    decreases m,
{
    reveal_with_fuel(pow20, 2);
    if m <= 20 {
        lemma_pow20_mono(1, (1 + m / 19) as nat);
    } else {
        lemma_cden20_le(m - 19);
        vstd::arithmetic::div_mod::lemma_hoist_over_denominator(m - 19, 1, 19nat);
        assert((m - 19) / 19 + 1 == m / 19);
        let e = (1 + (m - 19) / 19) as nat;
        assert(pow20((e + 1) as nat) == 20 * pow20(e));
        assert(cden(Die::D20, m) == 20 * cden(Die::D20, m - 19));
    }
}

/// The product of the side counts from `die` up to (and excluding) the d20.
pub open spec fn ladder_prefix(die: Die) -> int {
    match die {
        Die::D4 => 23040,
        Die::D6 => 5760,
        Die::D8 => 960,
        Die::D10 => 120,
        Die::D12 => 12,
        Die::D20 => 1,
    }
}

/// Denominator growth bound for the whole ladder: beyond the fixed prefix of
/// small-die factors, the denominator gains a factor of at most 20 per 19
/// points of measure.
pub proof fn lemma_cden_le(die: Die, m: int)
    requires
        0 <= m,
    ensures
        cden(die, m) <= ladder_prefix(die) * pow20((1 + m / 19) as nat),
    decreases die.rung(),
{
    let s = die.spec_sides();
    let e = (1 + m / 19) as nat;
    lemma_pow20_pos(e);
    lemma_pow20_mono(1, e);
    reveal_with_fuel(pow20, 2);
    if die == Die::D20 {
        lemma_cden20_le(m);
        assert(1 * pow20(e) == pow20(e)) by (nonlinear_arith);
    } else if m <= s {
        lemma_mul_le_le(1, ladder_prefix(die), 20, pow20(e));
    } else {
        let m2 = m - (s - 1);
        lemma_cden_le(die.spec_next(), m2);
        let e2 = (1 + m2 / 19) as nat;
        vstd::arithmetic::div_mod::lemma_div_is_ordered(m2, m, 19);
        lemma_pow20_mono(e2, e);
        let pn = ladder_prefix(die.spec_next());
        lemma_cden_pos(die.spec_next(), m2);
        // cden(next, m2) <= pn * pow20(e2) <= pn * pow20(e), then multiply by s.
        lemma_mul_le_le(pn, pn, pow20(e2), pow20(e));
        assert(s * cden(die.spec_next(), m2) <= (s * pn) * pow20(e)) by (nonlinear_arith)
            requires
                cden(die.spec_next(), m2) <= pn * pow20(e),
                4 <= s,
                1 <= pn,
                1 <= pow20(e),
        ;
        assert(s * pn == ladder_prefix(die));
    }
}

/// Within the measures the executable code admits (`m <= 220`), every
/// canonical denominator fits comfortably below 2^67.
pub proof fn lemma_cden_cap(die: Die, m: int)
    requires
        0 <= m <= 220,
    ensures
        cden(die, m) <= 94371840000000000000,
{
    lemma_cden_le(die, m);
    lemma_pow20_vals();
    let e = (1 + m / 19) as nat;
    vstd::arithmetic::div_mod::lemma_div_is_ordered(m, 220, 19);
    lemma_pow20_pos(e);
    lemma_pow20_mono(e, 12);
    lemma_mul_le_le(ladder_prefix(die), 23040, pow20(e), pow20(12));
}

// ---------------------------------------------------------------------------
// The base model's denominators obey the analogous, smaller bound.
// ---------------------------------------------------------------------------

/// Base-model denominator growth at the top of the ladder: one factor of 20
/// per 20 points of difficulty.
pub proof fn lemma_base_den20_le(dc: int)
    requires
        0 <= dc,
    ensures
        base_prob(Die::D20, dc).1 <= pow20(((dc + 19) / 20) as nat),
    decreases dc,
{
    let e = ((dc + 19) / 20) as nat;
    lemma_pow20_pos(e);
    reveal_with_fuel(pow20, 2);
    if dc <= 1 {
    } else if dc <= 20 {
        lemma_pow20_mono(1, e);
    } else {
        lemma_base_den20_le(dc - 20);
        vstd::arithmetic::div_mod::lemma_hoist_over_denominator(dc - 1, 1, 20nat);
        assert((dc - 1) / 20 + 1 == (dc + 19) / 20);
        let e2 = ((dc - 1) / 20) as nat;
        assert(pow20((e2 + 1) as nat) == 20 * pow20(e2));
        assert(base_prob(Die::D20, dc).1 == 20 * base_prob(Die::D20, dc - 20).1);
    }
}

/// Base-model denominator growth for the whole ladder.
pub proof fn lemma_base_den_le(die: Die, dc: int)
    requires
        0 <= dc,
    ensures
        base_prob(die, dc).1 <= ladder_prefix(die) * pow20(((dc + 19) / 20) as nat),
    decreases die.rung(),
{
    let s = die.spec_sides();
    let e = ((dc + 19) / 20) as nat;
    lemma_pow20_pos(e);
    reveal_with_fuel(pow20, 2);
    if die == Die::D20 {
        lemma_base_den20_le(dc);
        assert(1 * pow20(e) == pow20(e)) by (nonlinear_arith);
    } else if dc <= 1 {
        lemma_mul_le_le(1, ladder_prefix(die), 1, pow20(e));
    } else if dc <= s {
        lemma_pow20_mono(1, e);
        lemma_mul_le_le(1, ladder_prefix(die), 20, pow20(e));
    } else {
        let dc2 = dc - s;
        lemma_base_den_le(die.spec_next(), dc2);
        let e2 = ((dc2 + 19) / 20) as nat;
        vstd::arithmetic::div_mod::lemma_div_is_ordered(dc2 + 19, dc + 19, 20);
        lemma_pow20_mono(e2, e);
        let pn = ladder_prefix(die.spec_next());
        lemma_base_prob_bounds(die.spec_next(), dc2);
        lemma_mul_le_le(pn, pn, pow20(e2), pow20(e));
        assert(s * base_prob(die.spec_next(), dc2).1 <= (s * pn) * pow20(e)) by (nonlinear_arith)
            requires
                base_prob(die.spec_next(), dc2).1 <= pn * pow20(e),
                4 <= s,
                1 <= pn,
                1 <= pow20(e),
        ;
        assert(s * pn == ladder_prefix(die));
    }
}

/// For difficulties up to 200, every base-model denominator fits below 2^58.
pub proof fn lemma_base_den_cap(die: Die, dc: int)
    requires
        0 <= dc <= 200,
    ensures
        base_prob(die, dc).1 <= 235929600000000000,
{
    lemma_base_den_le(die, dc);
    lemma_pow20_vals();
    let e = ((dc + 19) / 20) as nat;
    vstd::arithmetic::div_mod::lemma_div_is_ordered(dc + 19, 219, 20);
    lemma_pow20_pos(e);
    lemma_pow20_mono(e, 10);
    lemma_mul_le_le(ladder_prefix(die), 23040, pow20(e), pow20(10));
}

} // verus!
