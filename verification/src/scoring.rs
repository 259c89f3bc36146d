//! Scoring a strategy guide for rock-paper-scissors.
//!
//! Every line of a guide holds two tokens: the opponent's choice at the first
//! character and our token at the third. The character between them, and
//! whatever follows the third, is not looked at. Our token is read in one of
//! two ways, see [`Mode`].

use vstd::prelude::*;
use vstd::string::StrSliceExecFns;
use crate::failure::Cause;
use crate::failure::Failure;

verus! {

/// What a player shows in a round.
#[derive(Copy, Clone, PartialEq, Eq, Structural, Debug)]
pub enum RPSChoice {
    Rock,
    Paper,
    Scissors,
}

/// How a round ends for us.
#[derive(Copy, Clone, PartialEq, Eq, Structural, Debug)]
pub enum Outcome {
    Lose,
    Draw,
    Win,
}

/// How our token on a line is read.
#[derive(Copy, Clone, PartialEq, Eq, Structural, Debug)]
pub enum Mode {
    /// The token names our choice.
    DirectChoice,
    /// The token names the outcome that we have to bring about.
    DesiredOutcome,
}

/// The rules of the game: `a` beats `b`.
pub open spec fn beats(a: RPSChoice, b: RPSChoice) -> bool {
    ||| a == RPSChoice::Rock && b == RPSChoice::Scissors
    ||| a == RPSChoice::Scissors && b == RPSChoice::Paper
    ||| a == RPSChoice::Paper && b == RPSChoice::Rock
}

/// What a choice is worth by itself.
pub open spec fn shape_value(c: RPSChoice) -> int {
    match c {
        RPSChoice::Rock => 1,
        RPSChoice::Paper => 2,
        RPSChoice::Scissors => 3,
    }
}

/// How the round ends for the player who chose `me` against `opponent`.
pub open spec fn outcome(opponent: RPSChoice, me: RPSChoice) -> Outcome {
    if beats(me, opponent) {
        Outcome::Win
    } else if beats(opponent, me) {
        Outcome::Lose
    } else {
        Outcome::Draw
    }
}

/// What an outcome is worth.
pub open spec fn outcome_value(o: Outcome) -> int {
    match o {
        Outcome::Lose => 0,
        Outcome::Draw => 3,
        Outcome::Win => 6,
    }
}

/// Our score for one round.
pub open spec fn round_score(opponent: RPSChoice, me: RPSChoice) -> int {
    shape_value(me) + outcome_value(outcome(opponent, me))
}

/// The choice that brings about `goal` against `opponent`.
pub open spec fn reply_for(opponent: RPSChoice, goal: Outcome) -> RPSChoice {
    choose|me: RPSChoice| outcome(opponent, me) == goal
}

/// One choice, and no other, brings about a given outcome against a given
/// opponent: whichever choice does so is `reply_for`.
pub proof fn lemma_reply_is_unique(opponent: RPSChoice, goal: Outcome, me: RPSChoice)
    requires
        outcome(opponent, me) == goal,
    ensures
        reply_for(opponent, goal) == me,
{
    let reply = reply_for(opponent, goal);
    assert(outcome(opponent, reply) == goal);
}

/// Every choice beats exactly one choice and loses to exactly one, and never
/// itself; a round between two choices is won by one of them or drawn.
pub proof fn lemma_rules_are_cyclic(a: RPSChoice, b: RPSChoice)
    ensures
        !beats(a, a),
        !(beats(a, b) && beats(b, a)),
        a != b ==> beats(a, b) || beats(b, a),
        exists|c: RPSChoice| beats(a, c) && forall|d: RPSChoice| beats(a, d) ==> d == c,
        exists|c: RPSChoice| beats(c, a) && forall|d: RPSChoice| beats(d, a) ==> d == c,
{
    let loser = match a {
        RPSChoice::Rock => RPSChoice::Scissors,
        RPSChoice::Paper => RPSChoice::Rock,
        RPSChoice::Scissors => RPSChoice::Paper,
    };
    let winner = match a {
        RPSChoice::Rock => RPSChoice::Paper,
        RPSChoice::Paper => RPSChoice::Scissors,
        RPSChoice::Scissors => RPSChoice::Rock,
    };
    assert(beats(a, loser) && forall|d: RPSChoice| beats(a, d) ==> d == loser);
    assert(beats(winner, a) && forall|d: RPSChoice| beats(d, a) ==> d == winner);
}

/// The score of a round, pair by pair.
pub proof fn lemma_score_table(opponent: RPSChoice, me: RPSChoice)
    ensures
        round_score(opponent, me) == (match (opponent, me) {
            (RPSChoice::Rock, RPSChoice::Rock) => 4int,
            (RPSChoice::Rock, RPSChoice::Paper) => 8,
            (RPSChoice::Rock, RPSChoice::Scissors) => 3,
            (RPSChoice::Paper, RPSChoice::Rock) => 1,
            (RPSChoice::Paper, RPSChoice::Paper) => 5,
            (RPSChoice::Paper, RPSChoice::Scissors) => 9,
            (RPSChoice::Scissors, RPSChoice::Rock) => 7,
            (RPSChoice::Scissors, RPSChoice::Paper) => 2,
            (RPSChoice::Scissors, RPSChoice::Scissors) => 6,
        }),
        1 <= round_score(opponent, me) <= 9,
{
}

/// The choice that is made for a wanted outcome brings that outcome about:
/// for a draw it is the opponent's own choice, and in every case the round is
/// scored as one with that outcome.
pub proof fn lemma_reply_brings_outcome(opponent: RPSChoice, goal: Outcome)
    ensures
        outcome(opponent, reply_for(opponent, goal)) == goal,
        goal == Outcome::Draw ==> reply_for(opponent, goal) == opponent,
        goal == Outcome::Win ==> beats(reply_for(opponent, goal), opponent),
        goal == Outcome::Lose ==> beats(opponent, reply_for(opponent, goal)),
        round_score(opponent, reply_for(opponent, goal)) == shape_value(
            reply_for(opponent, goal),
        ) + outcome_value(goal),
{
    let me = match (goal, opponent) {
        (Outcome::Draw, _) => opponent,
        (Outcome::Win, RPSChoice::Rock) => RPSChoice::Paper,
        (Outcome::Win, RPSChoice::Paper) => RPSChoice::Scissors,
        (Outcome::Win, RPSChoice::Scissors) => RPSChoice::Rock,
        (Outcome::Lose, RPSChoice::Rock) => RPSChoice::Scissors,
        (Outcome::Lose, RPSChoice::Paper) => RPSChoice::Rock,
        (Outcome::Lose, RPSChoice::Scissors) => RPSChoice::Paper,
    };
    lemma_reply_is_unique(opponent, goal, me);
}

/// Pick a winning choice based on the opponent's choice.
pub fn rps_pick_win(c1: &RPSChoice) -> (win: RPSChoice)
    ensures
        beats(win, *c1),
        forall|c: RPSChoice| beats(c, *c1) ==> c == win,
{
    match c1 {
        RPSChoice::Rock => RPSChoice::Paper,
        RPSChoice::Paper => RPSChoice::Scissors,
        RPSChoice::Scissors => RPSChoice::Rock,
    }
}

/// Pick a losing choice based on the opponent's choice.
pub fn rps_pick_lose(c1: &RPSChoice) -> (lose: RPSChoice)
    ensures
        beats(*c1, lose),
        forall|c: RPSChoice| beats(*c1, c) ==> c == lose,
{
    match c1 {
        RPSChoice::Rock => RPSChoice::Scissors,
        RPSChoice::Paper => RPSChoice::Rock,
        RPSChoice::Scissors => RPSChoice::Paper,
    }
}

/// Calculate the score of a round in which the opponent chose `c1` and we
/// chose `c2`.
pub fn score_rps(c1: RPSChoice, c2: RPSChoice) -> (score: i32)
    ensures
        score == round_score(c1, c2),
{
    match (c1, c2) {
        (RPSChoice::Rock, RPSChoice::Rock) => 1 + 3,
        (RPSChoice::Rock, RPSChoice::Paper) => 2 + 6,
        (RPSChoice::Rock, RPSChoice::Scissors) => 3 + 0,
        (RPSChoice::Paper, RPSChoice::Rock) => 1 + 0,
        (RPSChoice::Paper, RPSChoice::Paper) => 2 + 3,
        (RPSChoice::Paper, RPSChoice::Scissors) => 3 + 6,
        (RPSChoice::Scissors, RPSChoice::Rock) => 1 + 6,
        (RPSChoice::Scissors, RPSChoice::Paper) => 2 + 0,
        (RPSChoice::Scissors, RPSChoice::Scissors) => 3 + 3,
    }
}

/// The opponent's choice that a token stands for.
pub open spec fn opponent_choice(token: char) -> Option<RPSChoice> {
    if token == 'A' {
        Some(RPSChoice::Rock)
    } else if token == 'B' {
        Some(RPSChoice::Paper)
    } else if token == 'C' {
        Some(RPSChoice::Scissors)
    } else {
        None
    }
}

/// Our choice that a token stands for where it names a choice.
pub open spec fn own_choice(token: char) -> Option<RPSChoice> {
    if token == 'X' {
        Some(RPSChoice::Rock)
    } else if token == 'Y' {
        Some(RPSChoice::Paper)
    } else if token == 'Z' {
        Some(RPSChoice::Scissors)
    } else {
        None
    }
}

/// The outcome that a token stands for where it names an outcome.
pub open spec fn wanted_outcome(token: char) -> Option<Outcome> {
    if token == 'X' {
        Some(Outcome::Lose)
    } else if token == 'Y' {
        Some(Outcome::Draw)
    } else if token == 'Z' {
        Some(Outcome::Win)
    } else {
        None
    }
}

/// Our choice against `opponent` as the token gives it under `mode`.
pub open spec fn own_reply(mode: Mode, opponent: RPSChoice, token: char) -> Option<RPSChoice> {
    match mode {
        Mode::DirectChoice => own_choice(token),
        Mode::DesiredOutcome => match wanted_outcome(token) {
            Some(goal) => Some(reply_for(opponent, goal)),
            None => None,
        },
    }
}

/// The score of one line of the guide, or `None` for a line that is
/// malformed: one of fewer than three characters, or with a token outside its
/// alphabet.
pub open spec fn line_score(mode: Mode, line: Seq<char>) -> Option<int> {
    if line.len() < 3 {
        None
    } else {
        match opponent_choice(line[0]) {
            Some(opponent) => match own_reply(mode, opponent, line[2]) {
                Some(me) => Some(round_score(opponent, me)),
                None => None,
            },
            None => None,
        }
    }
}

/// Read the opponent's token.
pub fn parse_opponent(token: char) -> (choice: Option<RPSChoice>)
    ensures
        choice == opponent_choice(token),
{
    match token {
        'A' => Some(RPSChoice::Rock),
        'B' => Some(RPSChoice::Paper),
        'C' => Some(RPSChoice::Scissors),
        _ => None,
    }
}

/// Read our token under `mode`, knowing the opponent's choice.
pub fn parse_reply(mode: Mode, opponent: RPSChoice, token: char) -> (choice: Option<RPSChoice>)
    ensures
        choice == own_reply(mode, opponent, token),
{
    match mode {
        Mode::DirectChoice => match token {
            'X' => Some(RPSChoice::Rock),
            'Y' => Some(RPSChoice::Paper),
            'Z' => Some(RPSChoice::Scissors),
            _ => None,
        },
        Mode::DesiredOutcome => {
            let me = match token {
                'X' => rps_pick_lose(&opponent),
                'Y' => opponent,
                'Z' => rps_pick_win(&opponent),
                _ => {
                    return None;
                },
            };
            proof {
                lemma_reply_is_unique(opponent, wanted_outcome(token).unwrap(), me);
            }
            Some(me)
        },
    }
}

/// Score one line of the guide.
pub fn score_line(mode: Mode, line: &str) -> (score: Option<i32>)
    ensures
        score matches Some(s) ==> line_score(mode, line@) == Some(s as int),
        score is None ==> line_score(mode, line@) is None,
{
    if line.unicode_len() < 3 {
        return None;
    }
    match parse_opponent(line.get_char(0)) {
        Some(opponent) => match parse_reply(mode, opponent, line.get_char(2)) {
            Some(me) => Some(score_rps(opponent, me)),
            None => None,
        },
        None => None,
    }
}

/// Taking one more line into a running total: the total with the score of
/// the line added, or the cause for which the line cannot be taken in. A
/// malformed line cannot, and neither can one whose score would carry the
/// total over `i32::MAX`.
pub open spec fn add_line(mode: Mode, total: int, line: Seq<char>) -> Result<int, Cause> {
    match line_score(mode, line) {
        None => Err(Cause::Malformed),
        Some(score) => if total + score <= i32::MAX {
            Ok(total + score)
        } else {
            Err(Cause::OutOfRange)
        },
    }
}

/// The run over a whole guide: the sum of the scores of its lines, or the
/// first line that cannot be taken in, with the cause.
pub open spec fn play(mode: Mode, lines: Seq<Seq<char>>) -> Result<int, Failure>
    decreases lines.len(),
{
    if lines.len() == 0 {
        Ok(0)
    } else {
        match play(mode, lines.drop_last()) {
            Err(failure) => Err(failure),
            Ok(total) => match add_line(mode, total, lines.last()) {
                Ok(sum) => Ok(sum),
                Err(cause) => Err(Failure { line: (lines.len() - 1) as usize, cause }),
            },
        }
    }
}

/// The sum of the scores of the lines, a malformed line counting for nothing.
pub open spec fn guide_total(mode: Mode, lines: Seq<Seq<char>>) -> int
    decreases lines.len(),
{
    if lines.len() == 0 {
        0
    } else {
        guide_total(mode, lines.drop_last()) + match line_score(mode, lines.last()) {
            Some(score) => score,
            None => 0,
        }
    }
}

/// `result` is what a run that ends in `end` hands back.
pub open spec fn reports(end: Result<int, Failure>, result: Result<i32, Failure>) -> bool {
    match result {
        Ok(total) => end == Ok::<int, Failure>(total as int),
        Err(failure) => end == Err::<int, Failure>(failure),
    }
}

/// A run that has stopped stays stopped: the lines after the first `k` change
/// nothing once the first `k` have failed.
pub proof fn lemma_failure_is_final(mode: Mode, lines: Seq<Seq<char>>, k: int)
    requires
        0 <= k <= lines.len(),
        play(mode, lines.take(k)) is Err,
    ensures
        play(mode, lines) == play(mode, lines.take(k)),
    decreases lines.len(),
{
    if k == lines.len() {
        assert(lines.take(k) =~= lines);
    } else {
        assert(lines.drop_last().take(k) =~= lines.take(k));
        lemma_failure_is_final(mode, lines.drop_last(), k);
    }
}

/// What a run hands back is settled by the lines alone: two runs over the
/// same lines hand back the same.
pub proof fn lemma_same_lines_same_result(
    mode: Mode,
    lines: Seq<Seq<char>>,
    first: Result<i32, Failure>,
    second: Result<i32, Failure>,
)
    requires
        reports(play(mode, lines), first),
        reports(play(mode, lines), second),
    ensures
        first == second,
{
}

/// A run succeeds on the guides whose lines are all well formed and whose
/// total fits in `i32`, on no others, and then it ends in the total.
pub proof fn lemma_play_succeeds_iff(mode: Mode, lines: Seq<Seq<char>>)
    ensures
        0 <= guide_total(mode, lines),
        play(mode, lines) is Ok <==> guide_total(mode, lines) <= i32::MAX && (forall|i: int|
            0 <= i < lines.len() ==> line_score(mode, #[trigger] lines[i]) is Some),
        play(mode, lines) is Ok ==> play(mode, lines) == Ok::<int, Failure>(
            guide_total(mode, lines),
        ),
    decreases lines.len(),
{
    if lines.len() > 0 {
        let before = lines.drop_last();
        lemma_play_succeeds_iff(mode, before);
        assert forall|i: int| 0 <= i < before.len() implies before[i] == lines[i] by {}
        if play(mode, lines) is Ok {
            assert forall|i: int| 0 <= i < lines.len() implies line_score(
                mode,
                #[trigger] lines[i],
            ) is Some by {
                if i < before.len() {
                    assert(before[i] == lines[i]);
                }
            }
        }
    }
}

/// Where a run stops: at the first line that is malformed or that carries
/// the sum out of range. The lines before it are well formed, and the cause
/// says which of the two holds of the line itself.
pub proof fn lemma_play_stops_at_first_fault(mode: Mode, lines: Seq<Seq<char>>)
    requires
        lines.len() <= usize::MAX,
    ensures
        play(mode, lines) matches Err(failure) ==> ({
            &&& failure.line < lines.len()
            &&& play(mode, lines.take(failure.line as int)) is Ok
            &&& play(mode, lines.take(failure.line + 1)) == Err::<int, Failure>(failure)
            &&& failure.cause == Cause::Malformed <==> line_score(
                mode,
                lines[failure.line as int],
            ) is None
        }),
    decreases lines.len(),
{
    if lines.len() > 0 {
        let before = lines.drop_last();
        lemma_play_stops_at_first_fault(mode, before);
        match play(mode, before) {
            Err(failure) => {
                assert(before.take(failure.line as int) =~= lines.take(failure.line as int));
                assert(before.take(failure.line + 1) =~= lines.take(failure.line + 1));
            },
            Ok(_) => {
                assert(lines.take(lines.len() - 1) =~= before);
                assert(lines.take(lines.len() as int) =~= lines);
            },
        }
    }
}

/// Take one more line into a running total.
pub fn take_line(mode: Mode, total: i32, line: &str) -> (result: Result<i32, Cause>)
    ensures
        result matches Ok(sum) ==> add_line(mode, total as int, line@) == Ok::<int, Cause>(
            sum as int,
        ),
        result matches Err(cause) ==> add_line(mode, total as int, line@) == Err::<int, Cause>(
            cause,
        ),
{
    match score_line(mode, line) {
        None => Err(Cause::Malformed),
        Some(round) => {
            if total > i32::MAX - round {
                Err(Cause::OutOfRange)
            } else {
                Ok(total + round)
            }
        },
    }
}

/// Score a guide, reading our tokens under `mode`.
pub fn tally(mode: Mode, lines: &Vec<String>) -> (result: Result<i32, Failure>)
    ensures
        reports(play(mode, lines.deep_view()), result),
{
    let ghost texts = lines.deep_view();
    let mut score: i32 = 0;
    let mut i: usize = 0;
    while i < lines.len()
        invariant
            i <= lines.len(),
            texts == lines.deep_view(),
            play(mode, texts.take(i as int)) == Ok::<int, Failure>(score as int),
        decreases lines.len() - i,
    {
        let ghost seen = texts.take(i + 1);
        assert(seen.drop_last() =~= texts.take(i as int));
        assert(seen.last() == lines[i as int]@);
        match take_line(mode, score, lines[i].as_str()) {
            Ok(sum) => {
                score = sum;
            },
            Err(cause) => {
                proof {
                    lemma_failure_is_final(mode, texts, i + 1);
                }
                return Err(Failure { line: i, cause });
            },
        }
        i = i + 1;
    }
    assert(texts.take(i as int) =~= texts);
    Ok(score)
}

/// Play the game with our tokens read as choices.
pub fn rock_paper_scissors(lines: &Vec<String>) -> (result: Result<i32, Failure>)
    ensures
        reports(play(Mode::DirectChoice, lines.deep_view()), result),
{
    tally(Mode::DirectChoice, lines)
}

/// Play the game with our tokens read as the outcomes to bring about.
pub fn rock_paper_scissors2(lines: &Vec<String>) -> (result: Result<i32, Failure>)
    ensures
        reports(play(Mode::DesiredOutcome, lines.deep_view()), result),
{
    tally(Mode::DesiredOutcome, lines)
}

} // verus!
