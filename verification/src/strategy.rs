//! Strategy scorer: each line holds an opponent token (`A`/`B`/`C`, meaning
//! rock, paper, scissors) and a player token (`X`/`Y`/`Z`), and both
//! interpretations of the player token are scored in one pass: the "literal"
//! mode reads it as a move, the "outcome" mode reads it as a required result
//! and derives the move from the beats-relation. Invalid lines are skipped
//! and counted, never scored.

use vstd::prelude::*;

use crate::text::{puzzle_lines, split_lines};

verus! {

/// A valid round line: opponent token, one space, player token.
pub open spec fn strategy_line_ok(l: Seq<u8>) -> bool {
    l.len() == 3 && 65 <= l[0] <= 67 && l[1] == 32 && 88 <= l[2] <= 90
}

/// Shape `a` beats shape `b` under the cyclic dominance rock > scissors,
/// paper > rock, scissors > paper (shapes are 0 rock, 1 paper, 2 scissors).
pub open spec fn beats(a: int, b: int) -> bool {
    a == (b + 1) % 3
}

/// Points for the result of a round: 6 for a win, 3 for a draw, 0 for a loss.
pub open spec fn outcome_value(opp: int, me: int) -> int {
    if me == opp {
        3
    } else if beats(me, opp) {
        6
    } else {
        0
    }
}

/// Score of a valid line in literal mode: the player token is the move
/// itself. A round scores its move value (shape + 1) plus its outcome value.
pub open spec fn literal_score(l: Seq<u8>) -> int {
    let opp = l[0] - 65;
    let me = l[2] - 88;
    (me + 1) + outcome_value(opp as int, me as int)
}

/// The move forced by a required outcome: 0 means lose, 1 draw, 2 win.
pub open spec fn forced_move(opp: int, goal: int) -> int {
    if goal == 1 {
        opp
    } else if goal == 2 {
        (opp + 1) % 3
    } else {
        (opp + 2) % 3
    }
}

/// Score of a valid line in outcome mode: the player token is the required
/// outcome, worth 3 times its index, and the move is derived from it.
pub open spec fn outcome_mode_score(l: Seq<u8>) -> int {
    let opp = l[0] - 65;
    let goal = l[2] - 88;
    (forced_move(opp as int, goal as int) + 1) + 3 * goal
}

/// Total literal-mode score of all valid lines.
pub open spec fn literal_total(lines: Seq<Seq<u8>>) -> int
    decreases lines.len(),
{
    if lines.len() == 0 {
        0
    } else {
        literal_total(lines.drop_last()) + if strategy_line_ok(lines.last()) {
            literal_score(lines.last())
        } else {
            0
        }
    }
}

/// Total outcome-mode score of all valid lines.
pub open spec fn outcome_total(lines: Seq<Seq<u8>>) -> int
    decreases lines.len(),
{
    if lines.len() == 0 {
        0
    } else {
        outcome_total(lines.drop_last()) + if strategy_line_ok(lines.last()) {
            outcome_mode_score(lines.last())
        } else {
            0
        }
    }
}

/// Number of valid lines (rounds actually played).
pub open spec fn round_count(lines: Seq<Seq<u8>>) -> int
    decreases lines.len(),
{
    if lines.len() == 0 {
        0
    } else {
        round_count(lines.drop_last()) + if strategy_line_ok(lines.last()) {
            1int
        } else {
            0int
        }
    }
}

/// Number of non-blank lines that were rejected and skipped.
pub open spec fn skipped_count(lines: Seq<Seq<u8>>) -> int
    decreases lines.len(),
{
    if lines.len() == 0 {
        0
    } else {
        skipped_count(lines.drop_last()) + if !strategy_line_ok(lines.last())
            && lines.last().len() > 0 {
            1int
        } else {
            0int
        }
    }
}

/// The result of scoring one strategy guide.
#[derive(Clone, Copy, Debug, PartialEq, Eq, Structural)]
pub struct StrategyScore {
    /// Total score with the player token read as a move.
    pub literal_total: u128,
    /// Total score with the player token read as a required outcome.
    pub outcome_total: u128,
    /// Number of rounds scored.
    pub rounds: usize,
    /// Number of non-blank lines that were not valid rounds.
    pub skipped: usize,
}

/// Everything the scorer promises of its result.
pub open spec fn score_post(input: Seq<u8>, r: StrategyScore) -> bool {
    let lines = puzzle_lines(input);
    &&& r.literal_total == literal_total(lines)
    &&& r.outcome_total == outcome_total(lines)
    &&& r.rounds == round_count(lines)
    &&& r.skipped == skipped_count(lines)
}

/// Law (idempotence): the scorer's contract pins its result down completely,
/// so re-running it on the same input yields an identical result.
pub proof fn lemma_score_deterministic(input: Seq<u8>, r1: StrategyScore, r2: StrategyScore)
    requires
        score_post(input, r1),
        score_post(input, r2),
    ensures
        r1 == r2,
{
}

/// Law: every round scores one of the nine valid (outcome, move) sums, the
/// values 1 through 9, in either mode.
pub proof fn lemma_round_score_range(l: Seq<u8>)
    requires
        strategy_line_ok(l),
    ensures
        1 <= literal_score(l) <= 9,
        1 <= outcome_mode_score(l) <= 9,
{
}

/// Law: the total score of either mode lies between 0 and 9 points per round
/// (and rounds never outnumber lines).
pub proof fn lemma_totals_bounded(lines: Seq<Seq<u8>>)
    ensures
        0 <= literal_total(lines) <= 9 * round_count(lines),
        0 <= outcome_total(lines) <= 9 * round_count(lines),
        0 <= round_count(lines) <= lines.len(),
    decreases lines.len(),
{
    if lines.len() > 0 {
        lemma_totals_bounded(lines.drop_last());
        if strategy_line_ok(lines.last()) {
            lemma_round_score_range(lines.last());
        }
    }
}

/// Law: a reported score stays within nine points per reported round, in
/// either mode.
pub proof fn lemma_score_bounded(input: Seq<u8>, r: StrategyScore)
    requires
        score_post(input, r),
    ensures
        0 <= r.literal_total <= 9 * r.rounds,
        0 <= r.outcome_total <= 9 * r.rounds,
        r.rounds <= puzzle_lines(input).len(),
{
    lemma_totals_bounded(puzzle_lines(input));
}

/// Score a strategy guide under both interpretations in one pass.
pub fn score(input: &[u8]) -> (r: StrategyScore)
    ensures
        score_post(input@, r),
{
    let lines = split_lines(input);
    let ghost all = puzzle_lines(input@);
    let n = lines.len();
    let mut lit: u128 = 0;
    let mut out: u128 = 0;
    let mut rounds: usize = 0;
    let mut skipped: usize = 0;
    let mut i: usize = 0;
    while i < n
        invariant
            0 <= i <= n,
            all == puzzle_lines(input@),
            n == all.len(),
            lines.deep_view() == all,
            lit == literal_total(all.take(i as int)),
            out == outcome_total(all.take(i as int)),
            rounds == round_count(all.take(i as int)),
            skipped == skipped_count(all.take(i as int)),
            rounds <= i,
            skipped <= i,
            lit <= 9 * rounds,
            out <= 9 * rounds,
        decreases n - i,
    {
        proof {
            assert(all.take(i as int + 1).drop_last() =~= all.take(i as int));
            assert(all.take(i as int + 1).last() == all[i as int]);
            assert(lines@[i as int]@ =~= lines.deep_view()[i as int]);
        }
        let line = &lines[i];
        if line.len() == 3 && 65 <= line[0] && line[0] <= 67 && line[1] == 32 && 88 <= line[2]
            && line[2] <= 90 {
            let opp = line[0] - 65;
            let tok = line[2] - 88;
            // Literal mode: the token is the move.
            let lit_round = (tok + 1) + if tok == opp {
                3
            } else if tok == (opp + 1) % 3 {
                6
            } else {
                0
            };
            // Outcome mode: the token is the required result.
            let me = if tok == 1 {
                opp
            } else if tok == 2 {
                (opp + 1) % 3
            } else {
                (opp + 2) % 3
            };
            let out_round = (me + 1) + 3 * tok;
            proof {
                assert(lit_round as int == literal_score(all[i as int]));
                assert(out_round as int == outcome_mode_score(all[i as int]));
                lemma_round_score_range(all[i as int]);
            }
            lit = lit + (lit_round as u128);
            out = out + (out_round as u128);
            rounds = rounds + 1;
        } else if line.len() > 0 {
            skipped = skipped + 1;
        }
        i = i + 1;
    }
    proof {
        assert(all.take(n as int) =~= all);
    }
    StrategyScore { literal_total: lit, outcome_total: out, rounds, skipped }
}

} // verus!
