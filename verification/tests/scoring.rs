use puzzle_engines::failure::Cause;
use puzzle_engines::failure::Failure;
use puzzle_engines::scoring::parse_opponent;
use puzzle_engines::scoring::parse_reply;
use puzzle_engines::scoring::rock_paper_scissors;
use puzzle_engines::scoring::rock_paper_scissors2;
use puzzle_engines::scoring::rps_pick_lose;
use puzzle_engines::scoring::rps_pick_win;
use puzzle_engines::scoring::score_line;
use puzzle_engines::scoring::score_rps;
use puzzle_engines::scoring::take_line;
use puzzle_engines::scoring::tally;
use puzzle_engines::scoring::Mode;
use puzzle_engines::scoring::RPSChoice;

fn guide(lines: &[&str]) -> Vec<String> {
    lines.iter().map(|line| line.to_string()).collect()
}

fn sample_guide() -> Vec<String> {
    guide(&["A Y", "B X", "C Z"])
}

#[test]
fn test_day2_1() {
    let score = rock_paper_scissors(&sample_guide());

    assert_eq!(score, Ok(15))
}

#[test]
fn test_day2_2() {
    let score = rock_paper_scissors2(&sample_guide());

    assert_eq!(score, Ok(12))
}

#[test]
fn score_table_has_all_nine_pairs() {
    assert_eq!(score_rps(RPSChoice::Rock, RPSChoice::Rock), 4);
    assert_eq!(score_rps(RPSChoice::Rock, RPSChoice::Paper), 8);
    assert_eq!(score_rps(RPSChoice::Rock, RPSChoice::Scissors), 3);
    assert_eq!(score_rps(RPSChoice::Paper, RPSChoice::Rock), 1);
    assert_eq!(score_rps(RPSChoice::Paper, RPSChoice::Paper), 5);
    assert_eq!(score_rps(RPSChoice::Paper, RPSChoice::Scissors), 9);
    assert_eq!(score_rps(RPSChoice::Scissors, RPSChoice::Rock), 7);
    assert_eq!(score_rps(RPSChoice::Scissors, RPSChoice::Paper), 2);
    assert_eq!(score_rps(RPSChoice::Scissors, RPSChoice::Scissors), 6);
}

#[test]
fn winning_pick_follows_the_cycle() {
    assert_eq!(rps_pick_win(&RPSChoice::Rock), RPSChoice::Paper);
    assert_eq!(rps_pick_win(&RPSChoice::Paper), RPSChoice::Scissors);
    assert_eq!(rps_pick_win(&RPSChoice::Scissors), RPSChoice::Rock);
}

#[test]
fn losing_pick_follows_the_cycle() {
    assert_eq!(rps_pick_lose(&RPSChoice::Rock), RPSChoice::Scissors);
    assert_eq!(rps_pick_lose(&RPSChoice::Paper), RPSChoice::Rock);
    assert_eq!(rps_pick_lose(&RPSChoice::Scissors), RPSChoice::Paper);
}

#[test]
fn winning_and_losing_picks_undo_each_other() {
    for choice in [RPSChoice::Rock, RPSChoice::Paper, RPSChoice::Scissors] {
        assert_eq!(rps_pick_lose(&rps_pick_win(&choice)), choice);
        assert_eq!(rps_pick_win(&rps_pick_lose(&choice)), choice);
        assert_ne!(rps_pick_win(&choice), choice);
        assert_ne!(rps_pick_lose(&choice), choice);
    }
}

#[test]
fn opponent_tokens() {
    assert_eq!(parse_opponent('A'), Some(RPSChoice::Rock));
    assert_eq!(parse_opponent('B'), Some(RPSChoice::Paper));
    assert_eq!(parse_opponent('C'), Some(RPSChoice::Scissors));
    assert_eq!(parse_opponent('X'), None);
    assert_eq!(parse_opponent('a'), None);
    assert_eq!(parse_opponent(' '), None);
}

#[test]
fn own_tokens_read_as_choices() {
    for opponent in [RPSChoice::Rock, RPSChoice::Paper, RPSChoice::Scissors] {
        assert_eq!(parse_reply(Mode::DirectChoice, opponent, 'X'), Some(RPSChoice::Rock));
        assert_eq!(parse_reply(Mode::DirectChoice, opponent, 'Y'), Some(RPSChoice::Paper));
        assert_eq!(parse_reply(Mode::DirectChoice, opponent, 'Z'), Some(RPSChoice::Scissors));
        assert_eq!(parse_reply(Mode::DirectChoice, opponent, 'A'), None);
        assert_eq!(parse_reply(Mode::DirectChoice, opponent, 'x'), None);
    }
}

#[test]
fn own_tokens_read_as_outcomes() {
    let rock = RPSChoice::Rock;
    let paper = RPSChoice::Paper;
    let scissors = RPSChoice::Scissors;
    assert_eq!(parse_reply(Mode::DesiredOutcome, rock, 'X'), Some(scissors));
    assert_eq!(parse_reply(Mode::DesiredOutcome, rock, 'Y'), Some(rock));
    assert_eq!(parse_reply(Mode::DesiredOutcome, rock, 'Z'), Some(paper));
    assert_eq!(parse_reply(Mode::DesiredOutcome, paper, 'X'), Some(rock));
    assert_eq!(parse_reply(Mode::DesiredOutcome, paper, 'Y'), Some(paper));
    assert_eq!(parse_reply(Mode::DesiredOutcome, paper, 'Z'), Some(scissors));
    assert_eq!(parse_reply(Mode::DesiredOutcome, scissors, 'X'), Some(paper));
    assert_eq!(parse_reply(Mode::DesiredOutcome, scissors, 'Y'), Some(scissors));
    assert_eq!(parse_reply(Mode::DesiredOutcome, scissors, 'Z'), Some(rock));
    assert_eq!(parse_reply(Mode::DesiredOutcome, scissors, 'W'), None);
}

#[test]
fn wanted_outcome_is_scored_as_that_outcome() {
    let shape = |choice: RPSChoice| match choice {
        RPSChoice::Rock => 1,
        RPSChoice::Paper => 2,
        RPSChoice::Scissors => 3,
    };
    for opponent in [RPSChoice::Rock, RPSChoice::Paper, RPSChoice::Scissors] {
        let lose = parse_reply(Mode::DesiredOutcome, opponent, 'X').unwrap();
        let draw = parse_reply(Mode::DesiredOutcome, opponent, 'Y').unwrap();
        let win = parse_reply(Mode::DesiredOutcome, opponent, 'Z').unwrap();
        assert_eq!(draw, opponent);
        assert_eq!(score_rps(opponent, lose), shape(lose));
        assert_eq!(score_rps(opponent, draw), shape(draw) + 3);
        assert_eq!(score_rps(opponent, win), shape(win) + 6);
    }
}

#[test]
fn lines_are_scored_by_mode() {
    assert_eq!(score_line(Mode::DirectChoice, "A Y"), Some(8));
    assert_eq!(score_line(Mode::DirectChoice, "B X"), Some(1));
    assert_eq!(score_line(Mode::DirectChoice, "C Z"), Some(6));
    assert_eq!(score_line(Mode::DesiredOutcome, "A Y"), Some(4));
    assert_eq!(score_line(Mode::DesiredOutcome, "B X"), Some(1));
    assert_eq!(score_line(Mode::DesiredOutcome, "C Z"), Some(7));
}

#[test]
fn separator_and_rest_of_line_are_not_looked_at() {
    assert_eq!(score_line(Mode::DirectChoice, "A-Y"), Some(8));
    assert_eq!(score_line(Mode::DirectChoice, "AAY"), Some(8));
    assert_eq!(score_line(Mode::DirectChoice, "A\u{e9}Y"), Some(8));
    assert_eq!(score_line(Mode::DirectChoice, "A Y and more"), Some(8));
    assert_eq!(score_line(Mode::DesiredOutcome, "A\u{1f600}Y\u{e9}"), Some(4));
}

#[test]
fn malformed_lines_have_no_score() {
    for mode in [Mode::DirectChoice, Mode::DesiredOutcome] {
        assert_eq!(score_line(mode, ""), None);
        assert_eq!(score_line(mode, "A"), None);
        assert_eq!(score_line(mode, "A "), None);
        assert_eq!(score_line(mode, "AY"), None);
        assert_eq!(score_line(mode, "D Y"), None);
        assert_eq!(score_line(mode, "A W"), None);
        assert_eq!(score_line(mode, "A A"), None);
        assert_eq!(score_line(mode, "X A"), None);
        assert_eq!(score_line(mode, " A Y"), None);
        assert_eq!(score_line(mode, "a y"), None);
        assert_eq!(score_line(mode, "\u{e9} Y"), None);
    }
}

#[test]
fn empty_guide_scores_nothing() {
    let none: Vec<String> = Vec::new();
    assert_eq!(rock_paper_scissors(&none), Ok(0));
    assert_eq!(rock_paper_scissors2(&none), Ok(0));
}

#[test]
fn run_stops_at_first_malformed_line() {
    let lines = guide(&["A Y", "B X", "B Q", "C Z", "nonsense"]);
    let stopped = Err(Failure { line: 2, cause: Cause::Malformed });
    assert_eq!(rock_paper_scissors(&lines), stopped);
    assert_eq!(rock_paper_scissors2(&lines), stopped);
    let lines = guide(&["", "A Y"]);
    let stopped = Err(Failure { line: 0, cause: Cause::Malformed });
    assert_eq!(rock_paper_scissors(&lines), stopped);
    assert_eq!(rock_paper_scissors2(&lines), stopped);
}

#[test]
fn tally_is_the_sum_of_the_lines() {
    let lines = guide(&["B Z", "B Z", "A X", "C Y"]);
    assert_eq!(tally(Mode::DirectChoice, &lines), Ok(9 + 9 + 4 + 2));
    assert_eq!(tally(Mode::DesiredOutcome, &lines), Ok(9 + 9 + 3 + 6));
    assert_eq!(tally(Mode::DirectChoice, &lines), rock_paper_scissors(&lines));
    assert_eq!(tally(Mode::DesiredOutcome, &lines), rock_paper_scissors2(&lines));
}

#[test]
fn line_is_added_to_running_total() {
    assert_eq!(take_line(Mode::DirectChoice, 0, "A Y"), Ok(8));
    assert_eq!(take_line(Mode::DirectChoice, 100, "A Y"), Ok(108));
    assert_eq!(take_line(Mode::DesiredOutcome, 100, "A Y"), Ok(104));
    assert_eq!(take_line(Mode::DirectChoice, 100, "A"), Err(Cause::Malformed));
    assert_eq!(take_line(Mode::DirectChoice, i32::MAX, "A ?"), Err(Cause::Malformed));
}

#[test]
fn total_stops_at_the_largest_score() {
    assert_eq!(take_line(Mode::DirectChoice, i32::MAX - 8, "A Y"), Ok(i32::MAX));
    assert_eq!(take_line(Mode::DirectChoice, i32::MAX - 7, "A Y"), Err(Cause::OutOfRange));
    assert_eq!(take_line(Mode::DirectChoice, i32::MAX, "B X"), Err(Cause::OutOfRange));
    assert_eq!(take_line(Mode::DesiredOutcome, i32::MAX - 1, "B X"), Ok(i32::MAX));
    assert_eq!(take_line(Mode::DesiredOutcome, i32::MAX - 3, "A Y"), Err(Cause::OutOfRange));
}

#[test]
fn same_guide_same_score() {
    let lines = sample_guide();
    let first = rock_paper_scissors(&lines);
    let second = rock_paper_scissors(&lines);
    assert_eq!(first, second);
    let first = rock_paper_scissors2(&lines);
    let second = rock_paper_scissors2(&lines);
    assert_eq!(first, second);
    let broken = guide(&["A Y", "oops"]);
    assert_eq!(rock_paper_scissors(&broken), rock_paper_scissors(&broken));
}
