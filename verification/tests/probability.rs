use exploding_dice::die::Die;
use exploding_dice::prob::probability_of_success;
use exploding_dice::prob::probability_of_success_with_turbo_tokens;
use exploding_dice::prob::Prob;

const ALL_DICE: [Die; 6] = [Die::D4, Die::D6, Die::D8, Die::D10, Die::D12, Die::D20];

fn as_f64(p: Prob) -> f64 {
    p.num as f64 / p.den as f64
}

// A difficulty of 0 or 1 is always beaten, with or without tokens.
#[test]
fn trivial_difficulty_is_certain() {
    for die in ALL_DICE {
        for dc in [0u32, 1u32] {
            let p = probability_of_success(die, dc);
            assert_eq!(p.num, p.den);
            for tokens in [0u32, 1, 5, 20] {
                let q = probability_of_success_with_turbo_tokens(die, tokens, dc);
                assert_eq!(q.num, q.den);
            }
        }
    }
}

// Concrete base-model values.
#[test]
fn base_model_concrete_values() {
    assert_eq!(as_f64(probability_of_success(Die::D4, 1)), 1.0);
    assert_eq!(as_f64(probability_of_success(Die::D4, 4)), 0.25);
    assert_eq!(as_f64(probability_of_success(Die::D20, 20)), 0.05);

    let p = probability_of_success(Die::D4, 4);
    assert_eq!((p.num, p.den), (1, 4));
    let p = probability_of_success(Die::D6, 4);
    assert_eq!((p.num, p.den), (3, 6));
    // Beyond the die's reach only a max roll followed by beating the residual
    // difficulty with the next die helps: 1/8 * 4/10.
    let p = probability_of_success(Die::D8, 15);
    assert_eq!((p.num, p.den), (4, 80));
}

// Exceeding a d4 by one costs exactly the explosion: 1/4 times the chance of
// a d6 beating a residual difficulty of 1, which is certain.
#[test]
fn explosion_chains_one_level() {
    let d4_over = probability_of_success(Die::D4, 5);
    let d6_rest = probability_of_success(Die::D6, 1);
    assert_eq!(as_f64(d4_over), 0.25);
    assert_eq!(as_f64(d4_over), 0.25 * as_f64(d6_rest));
}

// Three tokens guarantee that a d4 reaches 4: min(4 - 4 + 1 + 3, 4) / 4 = 1.
#[test]
fn three_tokens_guarantee_a_four() {
    let p = probability_of_success_with_turbo_tokens(Die::D4, 3, 4);
    assert_eq!(p.num, p.den);
    assert_eq!(as_f64(p), 1.0);
}

// Within the die's reach, zero tokens degenerate to the base model.
#[test]
fn zero_tokens_within_reach_match_base() {
    for die in ALL_DICE {
        for dc in 0..=die.sides() {
            let base = probability_of_success(die, dc);
            let tok = probability_of_success_with_turbo_tokens(die, 0, dc);
            // Same value, though possibly written over another denominator.
            assert_eq!(tok.num * base.den, base.num * tok.den);
        }
    }
}

// Beyond the die's reach the two models differ even at zero tokens: the
// token model also explodes, for free, on a roll one below the maximum.
// For a d4 against 5: (1/4) * (5/6) + (1/4) * 1 = 11/24, not 1/4.
#[test]
fn zero_tokens_beyond_reach_still_explode_early() {
    let tok = probability_of_success_with_turbo_tokens(Die::D4, 0, 5);
    assert_eq!((tok.num, tok.den), (11, 24));
    let base = probability_of_success(Die::D4, 5);
    assert!(tok.num * base.den > base.num * tok.den);
}

// The base model is non-increasing in the difficulty.
#[test]
fn harder_checks_are_never_likelier() {
    for die in ALL_DICE {
        let mut last: f64 = 1.0;
        for dc in 0..=60u32 {
            let p = as_f64(probability_of_success(die, dc));
            assert!(p <= last);
            last = p;
        }
    }
}

// Tokens never hurt: the token model dominates the base model.
#[test]
fn tokens_never_hurt() {
    // 1/8 * 9/10 = 9/80 without tokens; with two tokens rolls 5..=8 all
    // reach an explosion: (6 + 8 + 10 + 10) / 10 / 8 = 34/80.
    let base = probability_of_success(Die::D8, 10);
    assert_eq!((base.num, base.den), (9, 80));
    let tok = probability_of_success_with_turbo_tokens(Die::D8, 2, 10);
    assert!(tok.num * base.den >= base.num * tok.den);
    assert_eq!(as_f64(tok), 34.0 / 80.0);

    for die in ALL_DICE {
        for tokens in [0u32, 1, 3] {
            for dc in 0..=15u32 {
                let b = as_f64(probability_of_success(die, dc));
                let t = as_f64(probability_of_success_with_turbo_tokens(die, tokens, dc));
                // Both are exact small fractions; f64 division is correctly
                // rounded, so dominance survives the conversion.
                assert!(t >= b);
            }
        }
    }
}

// With enough tokens, success becomes certain: every roll can be pushed up
// the whole explosion chain.
#[test]
fn enough_tokens_make_success_certain() {
    let p = probability_of_success_with_turbo_tokens(Die::D4, 90, 5);
    assert_eq!(p.num, p.den);
    let p = probability_of_success_with_turbo_tokens(Die::D6, 200, 11);
    assert_eq!(p.num, p.den);
    let p = probability_of_success_with_turbo_tokens(Die::D20, 198, 11);
    assert_eq!(p.num, p.den);
}

// Outputs are probabilities in [0, 1] across the input ranges the original
// report exercises (the `ensures` cover the whole admitted box; running the
// exponential token recursion at its far corner is not feasible here, just
// as the original never did).
#[test]
fn outputs_stay_within_unit_interval() {
    for die in ALL_DICE {
        for dc in (0..=200u32).step_by(7) {
            let p = probability_of_success(die, dc);
            assert!(p.den >= 1);
            assert!(p.num <= p.den);
            let f = as_f64(p);
            assert!((0.0..=1.0).contains(&f));
        }
        for dc in (0..=80u32).step_by(7) {
            for tokens in [0u32, 1, 5] {
                let q = probability_of_success_with_turbo_tokens(die, tokens, dc);
                assert!(q.den >= 1);
                assert!(q.num <= q.den);
                let f = as_f64(q);
                assert!((0.0..=1.0).contains(&f));
            }
        }
        for dc in [0u32, 10, 25, 40] {
            let q = probability_of_success_with_turbo_tokens(die, 20, dc);
            assert!(q.den >= 1);
            assert!(q.num <= q.den);
        }
    }
}

// Large inputs stay exact and in range.
#[test]
fn largest_supported_inputs() {
    let p = probability_of_success(Die::D4, 200);
    assert!(p.num <= p.den);
    assert!(p.num > 0);
    let q = probability_of_success_with_turbo_tokens(Die::D4, 0, 200);
    assert!(q.num <= q.den);
    assert!(q.num > 0);
    // Tokens never hurt, here too.
    assert!(as_f64(q) >= as_f64(p));
    let r = probability_of_success_with_turbo_tokens(Die::D4, 20, 50);
    assert!(r.num <= r.den);
    assert!(r.num > 0);
}
