//! The dice engine: parse a roll expression, draw the dice, score the
//! outcome, and render the reply line.
//!
//! Two surface forms are accepted: `"NdS"` (N dice of S sides, summed) and
//! `"N [mode]"` (N six-sided dice scored by success counting; modes are
//! `player`, `kirin` and `straight`, the default `player`).

use vstd::prelude::*;
use crate::text::{
    all_digits, bytes_eq, check_digits, dec_digits, dec_value, find_byte, find_first,
    lower_bytes, parse_u32, push_dec, sub_bytes, to_lower, tokens_of, tokenize,
};
use rand::Rng;

verus! {

/// How the drawn dice are scored.
#[derive(Clone, Copy, Debug, PartialEq, Eq, Structural)]
pub enum Mode {
    /// Report every die and the sum.
    Straight,
    /// Count dice showing the top face.
    Player,
    /// Count dice showing the top face or the one below it.
    Kirin,
}

/// Why a roll expression was rejected.
#[derive(Clone, Copy, Debug, PartialEq, Eq, Structural)]
pub enum ParseError {
    /// No expression was given.
    Empty,
    /// The arguments do not have the shape the command expects.
    Malformed,
    /// A count or side number does not parse as a positive integer, or
    /// is above its maximum.
    OutOfRange,
    /// The mode word is none of the known ones.
    UnknownMode,
}

/// A parsed roll expression.
#[derive(Clone, Copy, Debug, PartialEq, Eq, Structural)]
pub struct RollSpec {
    pub count: u32,
    pub sides: u32,
    pub mode: Mode,
}

// The mode words, as bytes: "player", "kirin", "straight".
pub open spec fn lit_player() -> Seq<u8> {
    seq![112u8, 108u8, 97u8, 121u8, 101u8, 114u8]
}

pub open spec fn lit_kirin() -> Seq<u8> {
    seq![107u8, 105u8, 114u8, 105u8, 110u8]
}

pub open spec fn lit_straight() -> Seq<u8> {
    seq![115u8, 116u8, 114u8, 97u8, 105u8, 103u8, 104u8, 116u8]
}

/// What a token list parses to: the meaning of the two surface forms,
/// with every rejected input mapped to its error.
pub open spec fn parse_tokens(tokens: Seq<Seq<u8>>, max_dice: u32) -> Result<RollSpec, ParseError> {
    if tokens.len() == 0 {
        Err(ParseError::Empty)
    } else {
        let t0 = tokens[0];
        let di = find_byte(t0, 100);
        if di >= 0 {
            // "NdS"
            let left = t0.take(di);
            let right = t0.skip(di + 1);
            if left.len() == 0 || !all_digits(left) || right.len() == 0 || !all_digits(right) {
                // N or S does not parse as a positive integer.
                Err(ParseError::OutOfRange)
            } else if dec_value(left) == 0 || dec_value(left) > max_dice || dec_value(right) == 0
                || dec_value(right) > u32::MAX {
                Err(ParseError::OutOfRange)
            } else {
                Ok(RollSpec {
                    count: dec_value(left) as u32,
                    sides: dec_value(right) as u32,
                    mode: Mode::Straight,
                })
            }
        } else {
            // "N [mode]", on six-sided dice
            if t0.len() == 0 || !all_digits(t0) {
                // N does not parse as a positive integer.
                Err(ParseError::OutOfRange)
            } else if dec_value(t0) == 0 || dec_value(t0) > max_dice {
                Err(ParseError::OutOfRange)
            } else if tokens.len() == 1 {
                Ok(RollSpec { count: dec_value(t0) as u32, sides: 6, mode: Mode::Player })
            } else {
                let m = lower_bytes(tokens[1]);
                if m == lit_player() {
                    Ok(RollSpec { count: dec_value(t0) as u32, sides: 6, mode: Mode::Player })
                } else if m == lit_kirin() {
                    Ok(RollSpec { count: dec_value(t0) as u32, sides: 6, mode: Mode::Kirin })
                } else if m == lit_straight() {
                    Ok(RollSpec { count: dec_value(t0) as u32, sides: 6, mode: Mode::Straight })
                } else {
                    Err(ParseError::UnknownMode)
                }
            }
        }
    }
}

/// Parse the whitespace-separated tokens of a roll expression.
pub fn parse_roll_tokens(tokens: &Vec<Vec<u8>>, max_dice: u32) -> (r: Result<RollSpec, ParseError>)
    ensures
        r == parse_tokens(tokens.deep_view(), max_dice),
{
    let ghost toks = tokens.deep_view();
    if tokens.len() == 0 {
        return Err(ParseError::Empty);
    }
    let t0 = &tokens[0];
    proof {
        assert(toks[0] =~= t0@);
    }
    match find_first(t0, 100) {
        Some(di) => {
            let tlen = t0.len();
            assert(di < t0@.len());
            let left = sub_bytes(t0, 0, di);
            let right = sub_bytes(t0, di + 1, tlen);
            proof {
                assert(left@ =~= t0@.take(di as int));
                assert(right@ =~= t0@.skip(di + 1));
            }
            if !check_digits(&left) || !check_digits(&right) {
                return Err(ParseError::OutOfRange);
            }
            let n = match parse_u32(&left) {
                Some(v) => v,
                None => {
                    return Err(ParseError::OutOfRange);
                },
            };
            let s = match parse_u32(&right) {
                Some(v) => v,
                None => {
                    return Err(ParseError::OutOfRange);
                },
            };
            if n == 0 || n > max_dice || s == 0 {
                return Err(ParseError::OutOfRange);
            }
            Ok(RollSpec { count: n, sides: s, mode: Mode::Straight })
        },
        None => {
            if !check_digits(t0) {
                return Err(ParseError::OutOfRange);
            }
            let n = match parse_u32(t0) {
                Some(v) => v,
                None => {
                    return Err(ParseError::OutOfRange);
                },
            };
            if n == 0 || n > max_dice {
                return Err(ParseError::OutOfRange);
            }
            if tokens.len() == 1 {
                return Ok(RollSpec { count: n, sides: 6, mode: Mode::Player });
            }
            let m = to_lower(&tokens[1]);
            proof {
                assert(toks[1] =~= tokens@[1]@);
            }
            let player: Vec<u8> = vec![112u8, 108u8, 97u8, 121u8, 101u8, 114u8];
            let kirin: Vec<u8> = vec![107u8, 105u8, 114u8, 105u8, 110u8];
            let straight: Vec<u8> = vec![115u8, 116u8, 114u8, 97u8, 105u8, 103u8, 104u8, 116u8];
            proof {
                assert(player@ =~= lit_player());
                assert(kirin@ =~= lit_kirin());
                assert(straight@ =~= lit_straight());
            }
            if bytes_eq(&m, &player) {
                Ok(RollSpec { count: n, sides: 6, mode: Mode::Player })
            } else if bytes_eq(&m, &kirin) {
                Ok(RollSpec { count: n, sides: 6, mode: Mode::Kirin })
            } else if bytes_eq(&m, &straight) {
                Ok(RollSpec { count: n, sides: 6, mode: Mode::Straight })
            } else {
                Err(ParseError::UnknownMode)
            }
        },
    }
}

/// Relies on rand::Rng::gen_range over `1..=sides` (via rand::thread_rng):
/// a value drawn uniformly from that inclusive range; it panics only when
/// the range is empty, which `sides >= 1` rules out.
#[verifier::external_body]
fn draw_die(sides: u32) -> (r: u32)
    requires
        sides >= 1,
    ensures
        1 <= r <= sides,
{
    rand::thread_rng().gen_range(1..=sides)
}

/// Whether every entry of `rolls` is a face of an `sides`-sided die.
pub open spec fn valid_draws(rolls: Seq<u32>, sides: u32) -> bool {
    forall|i: int| 0 <= i < rolls.len() ==> 1 <= #[trigger] rolls[i] <= sides
}

/// Draw `count` independent dice of `sides` sides each.
pub fn roll_dice(count: u32, sides: u32) -> (r: Vec<u32>)
    requires
        sides >= 1,
    ensures
        r@.len() == count,
        valid_draws(r@, sides),
{
    let mut out: Vec<u32> = Vec::new();
    let mut i: u32 = 0;
    while i < count
        invariant
            sides >= 1,
            0 <= i <= count,
            out@.len() == i,
            valid_draws(out@, sides),
        decreases count - i,
    {
        out.push(draw_die(sides));
        i = i + 1;
    }
    out
}

/// Sum of a sequence of dice.
pub open spec fn sum_of(s: Seq<u32>) -> nat
    decreases s.len(),
{
    if s.len() == 0 {
        0
    } else {
        sum_of(s.drop_last()) + (s.last() as nat)
    }
}

/// Whether one die counts as a success. The top face always does; in
/// kirin scoring the face below the top one does too.
pub open spec fn is_success(v: u32, sides: u32, kirin: bool) -> bool {
    v == sides || (kirin && v + 1 == sides)
}

/// How many dice of `s` count as successes.
pub open spec fn success_count(s: Seq<u32>, sides: u32, kirin: bool) -> nat
    decreases s.len(),
{
    if s.len() == 0 {
        0
    } else {
        success_count(s.drop_last(), sides, kirin) + if is_success(s.last(), sides, kirin) {
            1nat
        } else {
            0nat
        }
    }
}

/// There are never more successes than dice.
pub proof fn lemma_success_count_le_len(s: Seq<u32>, sides: u32, kirin: bool)
    ensures
        success_count(s, sides, kirin) <= s.len(),
    decreases s.len(),
{
    if s.len() > 0 {
        lemma_success_count_le_len(s.drop_last(), sides, kirin);
    }
}

/// Widening the success criterion never loses a success: on the same
/// draws, the kirin count is at least the plain player count.
pub proof fn lemma_kirin_dominates(s: Seq<u32>, sides: u32)
    ensures
        success_count(s, sides, true) >= success_count(s, sides, false),
    decreases s.len(),
{
    if s.len() > 0 {
        lemma_kirin_dominates(s.drop_last(), sides);
    }
}

/// The sum of `s` dice showing at most `sides` each is at most
/// `s.len() * sides`.
pub proof fn lemma_sum_bound(s: Seq<u32>, sides: u32)
    requires
        valid_draws(s, sides),
    ensures
        sum_of(s) <= s.len() * sides,
    decreases s.len(),
{
    if s.len() > 0 {
        assert(valid_draws(s.drop_last(), sides));
        lemma_sum_bound(s.drop_last(), sides);
        assert((s.len() - 1) * sides + sides == s.len() * sides) by (nonlinear_arith);
    }
}

/// The scored result of a roll.
#[derive(Clone, Copy, Debug, PartialEq, Eq, Structural)]
pub enum Score {
    /// Straight mode: the sum of all dice.
    Sum(u64),
    /// Player or kirin mode: the number of successes.
    Successes(u64),
}

/// One completed roll: what was asked for, what the dice showed, and the
/// score.
#[derive(Clone, Debug)]
pub struct RollOutcome {
    pub params: RollSpec,
    pub rolls: Vec<u32>,
    pub score: Score,
}

/// The score that `params` assigns to `rolls`.
pub open spec fn score_of(rolls: Seq<u32>, params: RollSpec) -> Score {
    match params.mode {
        Mode::Straight => Score::Sum(sum_of(rolls) as u64),
        Mode::Player => Score::Successes(success_count(rolls, params.sides, false) as u64),
        Mode::Kirin => Score::Successes(success_count(rolls, params.sides, true) as u64),
    }
}

/// A well-formed outcome of a roll under `params`: the right number of
/// dice, every die a real face, and the score computed from the dice.
pub open spec fn outcome_ok(o: RollOutcome, params: RollSpec) -> bool {
    &&& o.params == params
    &&& o.rolls@.len() == params.count
    &&& valid_draws(o.rolls@, params.sides)
    &&& o.score == score_of(o.rolls@, params)
}

/// Sum the dice of a roll.
fn sum_rolls(rolls: &Vec<u32>) -> (s: u64)
    requires
        rolls@.len() <= u32::MAX,
    ensures
        s == sum_of(rolls@),
{
    let mut acc: u64 = 0;
    let mut i: usize = 0;
    while i < rolls.len()
        invariant
            0 <= i <= rolls@.len() <= u32::MAX,
            acc == sum_of(rolls@.take(i as int)),
            acc <= i * (u32::MAX as int),
        decreases rolls@.len() - i,
    {
        proof {
            assert(rolls@.take(i + 1).drop_last() =~= rolls@.take(i as int));
            assert(i * (u32::MAX as int) + (u32::MAX as int) == (i + 1) * (u32::MAX as int))
                by (nonlinear_arith);
            assert((i + 1) * (u32::MAX as int) <= (u32::MAX as int) * (u32::MAX as int))
                by (nonlinear_arith)
                requires i + 1 <= u32::MAX;
        }
        acc = acc + rolls[i] as u64;
        i = i + 1;
    }
    proof {
        assert(rolls@.take(i as int) =~= rolls@);
    }
    acc
}

/// Count the successes among the dice of a roll.
fn count_successes(rolls: &Vec<u32>, sides: u32, kirin: bool) -> (c: u64)
    requires
        rolls@.len() <= u32::MAX,
    ensures
        c == success_count(rolls@, sides, kirin),
        c <= rolls@.len(),
{
    let mut acc: u64 = 0;
    let mut i: usize = 0;
    while i < rolls.len()
        invariant
            0 <= i <= rolls@.len() <= u32::MAX,
            acc == success_count(rolls@.take(i as int), sides, kirin),
            acc <= i,
        decreases rolls@.len() - i,
    {
        proof {
            assert(rolls@.take(i + 1).drop_last() =~= rolls@.take(i as int));
        }
        let v = rolls[i];
        if v == sides || (kirin && sides >= 1 && v == sides - 1) {
            assert(is_success(rolls@[i as int], sides, kirin));
            acc = acc + 1;
        } else {
            assert(!is_success(rolls@[i as int], sides, kirin));
        }
        i = i + 1;
    }
    proof {
        assert(rolls@.take(i as int) =~= rolls@);
    }
    acc
}

/// Roll the dice that a token list asks for. Fails exactly on the token
/// lists that `parse_tokens` rejects, with that error; on success the
/// outcome holds `count` dice, each a face in `[1, sides]`, scored by the
/// chosen mode.
pub fn roll_tokens(tokens: &Vec<Vec<u8>>, max_dice: u32) -> (r: Result<RollOutcome, ParseError>)
    ensures
        r is Err <==> parse_tokens(tokens.deep_view(), max_dice) is Err,
        r is Err ==> r->Err_0 == parse_tokens(tokens.deep_view(), max_dice)->Err_0,
        r is Ok ==> outcome_ok(r->Ok_0, parse_tokens(tokens.deep_view(), max_dice)->Ok_0),
{
    let params = match parse_roll_tokens(tokens, max_dice) {
        Ok(p) => p,
        Err(e) => {
            return Err(e);
        },
    };
    let rolls = roll_dice(params.count, params.sides);
    let score = match params.mode {
        Mode::Straight => Score::Sum(sum_rolls(&rolls)),
        Mode::Player => Score::Successes(count_successes(&rolls, params.sides, false)),
        Mode::Kirin => Score::Successes(count_successes(&rolls, params.sides, true)),
    };
    proof {
        if params.mode is Straight {
            lemma_sum_bound(rolls@, params.sides);
            assert(rolls@.len() * params.sides <= (u32::MAX as int) * (u32::MAX as int))
                by (nonlinear_arith)
                requires rolls@.len() <= u32::MAX, params.sides <= u32::MAX;
        } else {
            lemma_success_count_le_len(rolls@, params.sides, params.mode is Kirin);
        }
    }
    Ok(RollOutcome { params, rolls, score })
}

/// Roll the dice that a roll expression asks for: the expression is split
/// into whitespace-separated tokens and handed to `roll_tokens`.
pub fn roll(expr: &Vec<u8>, max_dice: u32) -> (r: Result<RollOutcome, ParseError>)
    ensures
        r is Err <==> parse_tokens(tokens_of(expr@), max_dice) is Err,
        r is Err ==> r->Err_0 == parse_tokens(tokens_of(expr@), max_dice)->Err_0,
        r is Ok ==> outcome_ok(r->Ok_0, parse_tokens(tokens_of(expr@), max_dice)->Ok_0),
{
    let tokens = tokenize(expr);
    roll_tokens(&tokens, max_dice)
}

// The fixed pieces of the reply line: "] = ", " Success Rolled",
// " Successes Rolled".
pub open spec fn lit_bracket_eq() -> Seq<u8> {
    seq![93u8, 32u8, 61u8, 32u8]
}

pub open spec fn lit_success_rolled() -> Seq<u8> {
    seq![
        32u8, 83u8, 117u8, 99u8, 99u8, 101u8, 115u8, 115u8, 32u8, 82u8, 111u8, 108u8, 108u8,
        101u8, 100u8,
    ]
}

pub open spec fn lit_successes_rolled() -> Seq<u8> {
    seq![
        32u8, 83u8, 117u8, 99u8, 99u8, 101u8, 115u8, 115u8, 101u8, 115u8, 32u8, 82u8, 111u8,
        108u8, 108u8, 101u8, 100u8,
    ]
}

/// The dice of a straight roll, rendered "a, b, c".
pub open spec fn dec_list(rolls: Seq<u32>) -> Seq<u8>
    decreases rolls.len(),
{
    if rolls.len() == 0 {
        seq![]
    } else if rolls.len() == 1 {
        dec_digits(rolls[0] as nat)
    } else {
        dec_digits(rolls[0] as nat) + seq![44u8, 32u8] + dec_list(rolls.drop_first())
    }
}

/// The reply line for an outcome: `[a, b, c] = sum` for a straight roll,
/// `n Success Rolled` (`Successes` unless n is exactly 1) otherwise.
pub open spec fn render_spec(o: RollOutcome) -> Seq<u8> {
    match o.score {
        Score::Sum(s) => seq![91u8] + dec_list(o.rolls@) + lit_bracket_eq() + dec_digits(s as nat),
        Score::Successes(n) => dec_digits(n as nat) + if n == 1 {
            lit_success_rolled()
        } else {
            lit_successes_rolled()
        },
    }
}

/// Append the rendering of `rolls[i..]`, comma-separated, to `out`.
fn push_dec_list(rolls: &Vec<u32>, i: usize, out: &mut Vec<u8>)
    requires
        0 <= i <= rolls@.len(),
    ensures
        final(out)@ == old(out)@ + dec_list(rolls@.skip(i as int)),
    decreases rolls@.len() - i,
{
    if i < rolls.len() {
        push_dec(rolls[i] as u64, out);
        proof {
            assert(rolls@.skip(i as int)[0] == rolls@[i as int]);
            assert(rolls@.skip(i as int).drop_first() =~= rolls@.skip(i + 1));
        }
        if i + 1 < rolls.len() {
            out.push(44);
            out.push(32);
            push_dec_list(rolls, i + 1, out);
            assert(out@ =~= old(out)@ + dec_list(rolls@.skip(i as int)));
        } else {
            assert(rolls@.skip(i as int).len() == 1);
            assert(out@ =~= old(out)@ + dec_list(rolls@.skip(i as int)));
        }
    } else {
        assert(rolls@.skip(i as int).len() == 0);
        assert(out@ =~= old(out)@ + dec_list(rolls@.skip(i as int)));
    }
}

/// Render the reply line for a completed roll.
pub fn render_outcome(o: &RollOutcome) -> (r: Vec<u8>)
    ensures
        r@ == render_spec(*o),
{
    let mut out: Vec<u8> = Vec::new();
    match o.score {
        Score::Sum(s) => {
            out.push(91);
            push_dec_list(&o.rolls, 0, &mut out);
            proof {
                assert(o.rolls@.skip(0) =~= o.rolls@);
            }
            let mut tail: Vec<u8> = vec![93u8, 32u8, 61u8, 32u8];
            proof {
                assert(tail@ =~= lit_bracket_eq());
            }
            out.append(&mut tail);
            push_dec(s, &mut out);
            assert(out@ =~= render_spec(*o));
        },
        Score::Successes(n) => {
            push_dec(n, &mut out);
            let mut tail: Vec<u8> = if n == 1 {
                vec![
                    32u8, 83u8, 117u8, 99u8, 99u8, 101u8, 115u8, 115u8, 32u8, 82u8, 111u8, 108u8,
                    108u8, 101u8, 100u8,
                ]
            } else {
                vec![
                    32u8, 83u8, 117u8, 99u8, 99u8, 101u8, 115u8, 115u8, 101u8, 115u8, 32u8, 82u8,
                    111u8, 108u8, 108u8, 101u8, 100u8,
                ]
            };
            proof {
                if n == 1 {
                    assert(tail@ =~= lit_success_rolled());
                } else {
                    assert(tail@ =~= lit_successes_rolled());
                }
            }
            out.append(&mut tail);
            assert(out@ =~= render_spec(*o));
        },
    }
    out
}

} // verus!
