use grimbot::dice::{roll, render_outcome, Mode, ParseError, RollOutcome, RollSpec, Score};

const MAX_DICE: u32 = 100;

fn roll_bytes(s: &str) -> Result<RollOutcome, ParseError> {
    roll(&s.as_bytes().to_vec(), MAX_DICE)
}

#[test]
fn straight_roll_counts_and_sum() {
    // P1: "NdS" yields exactly N dice, each in [1, S], summed.
    let o = roll_bytes("3d6").unwrap();
    assert_eq!(o.rolls.len(), 3);
    let mut total: u64 = 0;
    for &v in o.rolls.iter() {
        assert!((1..=6).contains(&v));
        total += v as u64;
    }
    assert_eq!(o.score, Score::Sum(total));
    assert_eq!(o.params, RollSpec { count: 3, sides: 6, mode: Mode::Straight });
}

#[test]
fn straight_roll_large_sides() {
    let o = roll_bytes("2d100").unwrap();
    assert_eq!(o.rolls.len(), 2);
    for &v in o.rolls.iter() {
        assert!((1..=100).contains(&v));
    }
}

#[test]
fn player_mode_counts_top_faces() {
    // P2: success count is the number of dice showing a 6, never above N.
    let o = roll_bytes("5").unwrap();
    assert_eq!(o.params.mode, Mode::Player);
    let sixes = o.rolls.iter().filter(|&&v| v == 6).count() as u64;
    assert_eq!(o.score, Score::Successes(sixes));
    match o.score {
        Score::Successes(n) => assert!(n <= 5),
        _ => panic!("player mode must count successes"),
    }
}

#[test]
fn kirin_mode_counts_five_and_six() {
    // P3: kirin counts 5s and 6s, so it is at least the player count.
    let o = roll_bytes("8 kirin").unwrap();
    assert_eq!(o.params.mode, Mode::Kirin);
    let fives_and_sixes = o.rolls.iter().filter(|&&v| v == 5 || v == 6).count() as u64;
    let sixes = o.rolls.iter().filter(|&&v| v == 6).count() as u64;
    assert_eq!(o.score, Score::Successes(fives_and_sixes));
    assert!(fives_and_sixes >= sixes);
    assert!(fives_and_sixes <= 8);
}

#[test]
fn mode_word_is_case_folded() {
    let o = roll_bytes("4 KIRIN").unwrap();
    assert_eq!(o.params.mode, Mode::Kirin);
    let o = roll_bytes("4 Player").unwrap();
    assert_eq!(o.params.mode, Mode::Player);
}

#[test]
fn explicit_straight_mode_on_d6() {
    let o = roll_bytes("2 straight").unwrap();
    assert_eq!(o.params, RollSpec { count: 2, sides: 6, mode: Mode::Straight });
}

#[test]
fn rendering_straight_formula() {
    // P8: the outcome line lists the dice and their sum.
    let o = RollOutcome {
        params: RollSpec { count: 3, sides: 6, mode: Mode::Straight },
        rolls: vec![4, 1, 6],
        score: Score::Sum(11),
    };
    assert_eq!(render_outcome(&o), b"[4, 1, 6] = 11".to_vec());
}

#[test]
fn rendering_single_die() {
    let o = RollOutcome {
        params: RollSpec { count: 1, sides: 20, mode: Mode::Straight },
        rolls: vec![17],
        score: Score::Sum(17),
    };
    assert_eq!(render_outcome(&o), b"[17] = 17".to_vec());
}

#[test]
fn phrasing_singular_exactly_at_one() {
    // P4: count 1 is singular, every other count plural.
    let mk = |n: u64, rolls: Vec<u32>| RollOutcome {
        params: RollSpec { count: rolls.len() as u32, sides: 6, mode: Mode::Player },
        rolls,
        score: Score::Successes(n),
    };
    assert_eq!(render_outcome(&mk(1, vec![6, 2])), b"1 Success Rolled".to_vec());
    assert_eq!(render_outcome(&mk(0, vec![2, 3])), b"0 Successes Rolled".to_vec());
    assert_eq!(render_outcome(&mk(2, vec![6, 6])), b"2 Successes Rolled".to_vec());
    assert_eq!(render_outcome(&mk(12, vec![6; 12])), b"12 Successes Rolled".to_vec());
}

#[test]
fn empty_expression_is_rejected() {
    assert_eq!(roll_bytes("").unwrap_err(), ParseError::Empty);
    assert_eq!(roll_bytes("   ").unwrap_err(), ParseError::Empty);
}

#[test]
fn non_numeric_counts_are_rejected() {
    // N and S must parse as positive integers; anything else is out of
    // range, not a silent failure.
    assert_eq!(roll_bytes("abc").unwrap_err(), ParseError::OutOfRange);
    assert_eq!(roll_bytes("3d").unwrap_err(), ParseError::OutOfRange);
    assert_eq!(roll_bytes("d6").unwrap_err(), ParseError::OutOfRange);
    assert_eq!(roll_bytes("3dd6").unwrap_err(), ParseError::OutOfRange);
    assert_eq!(roll_bytes("3x6").unwrap_err(), ParseError::OutOfRange);
}

#[test]
fn out_of_range_counts_are_rejected() {
    assert_eq!(roll_bytes("0").unwrap_err(), ParseError::OutOfRange);
    assert_eq!(roll_bytes("0d6").unwrap_err(), ParseError::OutOfRange);
    assert_eq!(roll_bytes("3d0").unwrap_err(), ParseError::OutOfRange);
    assert_eq!(roll_bytes("101d6").unwrap_err(), ParseError::OutOfRange);
    assert_eq!(roll_bytes("101").unwrap_err(), ParseError::OutOfRange);
    assert_eq!(roll_bytes("99999999999999").unwrap_err(), ParseError::OutOfRange);
}

#[test]
fn unknown_mode_is_rejected_loudly() {
    assert_eq!(roll_bytes("5 dragon").unwrap_err(), ParseError::UnknownMode);
    assert_eq!(roll_bytes("5 kirin2").unwrap_err(), ParseError::UnknownMode);
}

#[test]
fn extra_tokens_after_dice_form_are_ignored() {
    let o = roll_bytes("2d4 whatever").unwrap();
    assert_eq!(o.params, RollSpec { count: 2, sides: 4, mode: Mode::Straight });
}

#[test]
fn single_sided_dice_always_roll_one() {
    let o = roll_bytes("4d1").unwrap();
    assert_eq!(o.rolls, vec![1, 1, 1, 1]);
    assert_eq!(o.score, Score::Sum(4));
}
