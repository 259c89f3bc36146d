//! Tracking the tail of a rope that is pulled over the integer grid.
//!
//! The head of the rope follows motion commands, one unit step at a time.
//! The tail stays where it is as long as the head is next to it, and
//! otherwise steps to the cell that the head has just left. Every cell that
//! the tail comes to is recorded.

use vstd::prelude::*;
use vstd::slice::slice_subrange;
use crate::failure::Cause;
use crate::failure::Failure;
use crate::text::chars_of;
use crate::text::decimal_i32;
use crate::text::parse_i32;

verus! {

/// A cell of the unbounded grid.
pub struct Point {
    pub x: int,
    pub y: int,
}

/// A cell of the grid with coordinates of machine size.
#[derive(Clone, Copy, PartialEq, Eq, Structural, Debug)]
pub struct Coord {
    pub x: i32,
    pub y: i32,
}

impl View for Coord {
    type V = Point;

    open spec fn view(&self) -> Point {
        Point { x: self.x as int, y: self.y as int }
    }
}

/// The cells of a sequence of coordinates.
pub open spec fn points(coords: Seq<Coord>) -> Seq<Point> {
    coords.map_values(|c: Coord| c@)
}

/// The cell has coordinates of machine size.
pub open spec fn fits(p: Point) -> bool {
    i32::MIN <= p.x <= i32::MAX && i32::MIN <= p.y <= i32::MAX
}

/// How far two coordinates on one axis are apart.
pub open spec fn span(a: int, b: int) -> int {
    if a >= b {
        a - b
    } else {
        b - a
    }
}

/// The Chebyshev distance of two cells: the greater of their distances along
/// the two axes.
pub open spec fn distance(a: Point, b: Point) -> int {
    if span(a.x, b.x) >= span(a.y, b.y) {
        span(a.x, b.x)
    } else {
        span(a.y, b.y)
    }
}

/// The cells touch: they are the same cell, or neighbours along an axis or a
/// diagonal.
pub open spec fn adjacent(a: Point, b: Point) -> bool {
    distance(a, b) <= 1
}

/// The four ways in which the head moves.
#[derive(Clone, Copy, PartialEq, Eq, Structural, Debug)]
pub enum Direction {
    Up,
    Down,
    Left,
    Right,
}

/// A motion command: so many unit steps in one direction. A magnitude of
/// zero or less asks for no step.
#[derive(Clone, Copy, PartialEq, Eq, Structural, Debug)]
pub struct Command {
    pub direction: Direction,
    pub magnitude: i32,
}

impl Command {
    /// The number of unit steps that the command asks for.
    pub open spec fn steps(self) -> nat {
        if self.magnitude > 0 {
            self.magnitude as nat
        } else {
            0
        }
    }
}

/// The cell that lies `n` units from `p` in a direction.
pub open spec fn shift(p: Point, direction: Direction, n: int) -> Point {
    match direction {
        Direction::Right => Point { x: p.x + n, y: p.y },
        Direction::Left => Point { x: p.x - n, y: p.y },
        Direction::Up => Point { x: p.x, y: p.y + n },
        Direction::Down => Point { x: p.x, y: p.y - n },
    }
}

/// A rope on the unbounded grid: where its two ends are, and every cell that
/// the follower has come to, in the order of its coming.
pub struct RopeState {
    pub leader: Point,
    pub follower: Point,
    pub trace: Seq<Point>,
}

impl RopeState {
    /// Both ends at the origin, which is the first cell of the trace.
    pub open spec fn start() -> RopeState {
        let origin = Point { x: 0, y: 0 };
        RopeState { leader: origin, follower: origin, trace: seq![origin] }
    }

    /// The leader moves one unit. The follower stays where the leader still
    /// touches it, and otherwise steps to the cell that the leader has left.
    pub open spec fn step(self, direction: Direction) -> RopeState {
        let leader = shift(self.leader, direction, 1);
        if adjacent(leader, self.follower) {
            RopeState { leader, follower: self.follower, trace: self.trace }
        } else {
            RopeState { leader, follower: self.leader, trace: self.trace.push(self.leader) }
        }
    }

    /// `n` unit steps in one direction.
    pub open spec fn pull(self, direction: Direction, n: nat) -> RopeState
        decreases n,
    {
        if n == 0 {
            self
        } else {
            self.pull(direction, (n - 1) as nat).step(direction)
        }
    }

    /// The ends touch, and the trace ends with the cell of the follower.
    pub open spec fn taut(self) -> bool {
        &&& adjacent(self.leader, self.follower)
        &&& self.trace.len() > 0
        &&& self.trace.last() == self.follower
    }
}

/// Determine if points are within one unit of each other, including diagonal.
pub fn is_adjacent(p1: &Coord, p2: &Coord) -> (near: bool)
    ensures
        near == adjacent(p1@, p2@),
{
    let dx: i64 = p1.x as i64 - p2.x as i64;
    let dy: i64 = p1.y as i64 - p2.y as i64;
    -1 <= dx && dx <= 1 && -1 <= dy && dy <= 1
}

/// Whether `coord` is among `coords`.
pub fn is_recorded(coords: &Vec<Coord>, coord: &Coord) -> (found: bool)
    ensures
        found == coords@.contains(*coord),
{
    let mut i: usize = 0;
    while i < coords.len()
        invariant
            i <= coords.len(),
            forall|j: int| 0 <= j < i ==> coords[j] != *coord,
        decreases coords.len() - i,
    {
        if *coord == coords[i] {
            return true;
        }
        i = i + 1;
    }
    false
}

/// The number of different cells among `locations`.
pub fn number_of_unique_locations(locations: &Vec<Coord>) -> (count: usize)
    ensures
        count == locations@.to_set().len(),
{
    let mut unique_coords: Vec<Coord> = Vec::new();
    let mut k: usize = 0;
    while k < locations.len()
        invariant
            k <= locations.len(),
            unique_coords@.no_duplicates(),
            unique_coords@.to_set() == locations@.take(k as int).to_set(),
        decreases locations.len() - k,
    {
        let coord = locations[k];
        proof {
            assert(locations@.take(k + 1) =~= locations@.take(k as int).push(coord));
            locations@.take(k as int).lemma_push_to_set_commute(coord);
            unique_coords@.lemma_push_to_set_commute(coord);
        }
        if !is_recorded(&unique_coords, &coord) {
            unique_coords.push(coord);
        } else {
            assert(unique_coords@.to_set().insert(coord) =~= unique_coords@.to_set());
        }
        k = k + 1;
    }
    proof {
        assert(locations@.take(k as int) =~= locations@);
        unique_coords@.unique_seq_to_set();
    }
    unique_coords.len()
}

/// The direction that a character stands for.
pub open spec fn direction_of(c: char) -> Option<Direction> {
    if c == 'R' {
        Some(Direction::Right)
    } else if c == 'L' {
        Some(Direction::Left)
    } else if c == 'U' {
        Some(Direction::Up)
    } else if c == 'D' {
        Some(Direction::Down)
    } else {
        None
    }
}

/// The command that a line writes: the character of a direction, one space,
/// and a decimal magnitude of `i32`, with nothing before, between or after.
/// Any other line is malformed and writes none.
pub open spec fn command_of(line: Seq<char>) -> Option<Command> {
    if line.len() >= 2 && line[1] == ' ' {
        match (direction_of(line[0]), decimal_i32(line.skip(2))) {
            (Some(direction), Some(magnitude)) => Some(Command { direction, magnitude }),
            _ => None,
        }
    } else {
        None
    }
}

/// The run over all the lines: the rope after every command, or the first
/// line at which the run stops. It stops at a malformed line, and at a
/// command that would take the leader to a cell whose coordinates are not of
/// machine size.
pub open spec fn track(lines: Seq<Seq<char>>) -> Result<RopeState, Failure>
    decreases lines.len(),
{
    if lines.len() == 0 {
        Ok(RopeState::start())
    } else {
        match track(lines.drop_last()) {
            Err(failure) => Err(failure),
            Ok(rope) => {
                let line = (lines.len() - 1) as usize;
                match command_of(lines.last()) {
                    None => Err(Failure { line, cause: Cause::Malformed }),
                    Some(command) => if fits(
                        shift(rope.leader, command.direction, command.steps() as int),
                    ) {
                        Ok(rope.pull(command.direction, command.steps()))
                    } else {
                        Err(Failure { line, cause: Cause::OutOfRange })
                    },
                }
            },
        }
    }
}

/// `result` is the trace that a run ending in `end` hands back, or its
/// failure.
pub open spec fn traces(
    end: Result<RopeState, Failure>,
    result: Result<Vec<Coord>, Failure>,
) -> bool {
    match result {
        Ok(locations) => end is Ok && end->Ok_0.trace == points(locations@),
        Err(failure) => end == Err::<RopeState, Failure>(failure),
    }
}

/// `result` is the number of different cells in the trace of a run ending in
/// `end`, or its failure.
pub open spec fn counts(end: Result<RopeState, Failure>, result: Result<usize, Failure>) -> bool {
    match result {
        Ok(count) => end is Ok && end->Ok_0.trace.to_set().len() == count,
        Err(failure) => end == Err::<RopeState, Failure>(failure),
    }
}

/// A run that has stopped stays stopped: the lines after the first `k` change
/// nothing once the first `k` have failed.
pub proof fn lemma_failure_is_final(lines: Seq<Seq<char>>, k: int)
    requires
        0 <= k <= lines.len(),
        track(lines.take(k)) is Err,
    ensures
        track(lines) == track(lines.take(k)),
    decreases lines.len(),
{
    if k == lines.len() {
        assert(lines.take(k) =~= lines);
    } else {
        assert(lines.drop_last().take(k) =~= lines.take(k));
        lemma_failure_is_final(lines.drop_last(), k);
    }
}

/// Where the leader stands after the commands of the lines, a malformed line
/// moving nothing.
pub open spec fn leader_after(lines: Seq<Seq<char>>) -> Point
    decreases lines.len(),
{
    if lines.len() == 0 {
        Point { x: 0, y: 0 }
    } else {
        let before = leader_after(lines.drop_last());
        match command_of(lines.last()) {
            Some(command) => shift(before, command.direction, command.steps() as int),
            None => before,
        }
    }
}

/// One step keeps the ends of the rope together. It moves the follower by
/// one cell at most, and every cell that the follower comes to is added to
/// the trace.
pub proof fn lemma_step_keeps_taut(rope: RopeState, direction: Direction)
    requires
        rope.taut(),
    ensures
        rope.step(direction).taut(),
        adjacent(rope.follower, rope.step(direction).follower),
        rope.step(direction).trace == rope.trace || rope.step(direction).trace
            == rope.trace.push(rope.step(direction).follower),
{
}

/// The steps of one command take the leader straight to the cell that lies
/// so many units away, keep the ends of the rope together, and only add to
/// the trace.
pub proof fn lemma_pull_keeps_taut(rope: RopeState, direction: Direction, n: nat)
    requires
        rope.taut(),
    ensures
        rope.pull(direction, n).taut(),
        rope.pull(direction, n).leader == shift(rope.leader, direction, n as int),
        rope.trace.is_prefix_of(rope.pull(direction, n).trace),
    decreases n,
{
    if n > 0 {
        let before = rope.pull(direction, (n - 1) as nat);
        lemma_pull_keeps_taut(rope, direction, (n - 1) as nat);
        lemma_step_keeps_taut(before, direction);
    }
}

/// A command of magnitude zero, or less, leaves the leader, the follower and
/// the trace as they are.
pub proof fn lemma_zero_magnitude_changes_nothing(rope: RopeState, command: Command)
    requires
        command.magnitude <= 0,
    ensures
        rope.pull(command.direction, command.steps()).leader == rope.leader,
        rope.pull(command.direction, command.steps()).follower == rope.follower,
        rope.pull(command.direction, command.steps()).trace == rope.trace,
        rope.pull(command.direction, command.steps()) == rope,
{
}

/// A line that writes a command of magnitude zero, or less, changes nothing
/// in a run: with it after the other lines the run ends as without it.
pub proof fn lemma_zero_magnitude_line_changes_nothing(lines: Seq<Seq<char>>, line: Seq<char>)
    requires
        command_of(line) is Some,
        command_of(line)->Some_0.magnitude <= 0,
    ensures
        track(lines.push(line)) == track(lines),
{
    assert(lines.push(line).drop_last() =~= lines);
    lemma_run_keeps_taut(lines);
}

/// Every rope that a run ends in has its ends together, its leader on a
/// cell with coordinates of machine size, where the commands have taken it,
/// and the origin as the first cell of its trace.
pub proof fn lemma_run_keeps_taut(lines: Seq<Seq<char>>)
    ensures
        track(lines) matches Ok(rope) ==> ({
            &&& rope.taut()
            &&& fits(rope.leader)
            &&& rope.leader == leader_after(lines)
            &&& rope.trace[0] == Point { x: 0, y: 0 }
        }),
    decreases lines.len(),
{
    if lines.len() > 0 {
        lemma_run_keeps_taut(lines.drop_last());
        if let Ok(rope) = track(lines.drop_last()) {
            if let Some(command) = command_of(lines.last()) {
                lemma_pull_keeps_taut(rope, command.direction, command.steps());
            }
        }
    }
}

/// A run succeeds on the lines that all write a command and whose commands,
/// one after another, take the leader only to cells with coordinates of
/// machine size, and on no others.
pub proof fn lemma_track_succeeds_iff(lines: Seq<Seq<char>>)
    ensures
        track(lines) is Ok <==> ({
            &&& forall|i: int| 0 <= i < lines.len() ==> command_of(#[trigger] lines[i]) is Some
            &&& forall|k: int|
                0 <= k <= lines.len() ==> fits(#[trigger] leader_after(lines.take(k)))
        }),
    decreases lines.len(),
{
    let all_written = forall|i: int|
        0 <= i < lines.len() ==> command_of(#[trigger] lines[i]) is Some;
    let all_fit = forall|k: int|
        0 <= k <= lines.len() ==> fits(#[trigger] leader_after(lines.take(k)));
    lemma_run_keeps_taut(lines);
    if lines.len() == 0 {
        assert forall|k: int| 0 <= k <= lines.len() implies fits(
            #[trigger] leader_after(lines.take(k)),
        ) by {
            assert(lines.take(k) =~= lines);
        }
    } else {
        let before = lines.drop_last();
        lemma_track_succeeds_iff(before);
        lemma_run_keeps_taut(before);
        assert(lines.take(lines.len() as int) =~= lines);
        assert forall|k: int| 0 <= k <= before.len() implies before.take(k) == lines.take(k) by {
            assert(before.take(k) =~= lines.take(k));
        }
        if track(lines) is Ok {
            assert forall|i: int| 0 <= i < lines.len() implies command_of(
                #[trigger] lines[i],
            ) is Some by {
                if i < before.len() {
                    assert(before[i] == lines[i]);
                }
            }
            assert forall|k: int| 0 <= k <= lines.len() implies fits(
                #[trigger] leader_after(lines.take(k)),
            ) by {
                if k <= before.len() {
                    assert(before.take(k) == lines.take(k));
                }
            }
        }
        if all_written && all_fit {
            assert forall|i: int| 0 <= i < before.len() implies command_of(
                #[trigger] before[i],
            ) is Some by {
                assert(before[i] == lines[i]);
            }
            assert forall|k: int| 0 <= k <= before.len() implies fits(
                #[trigger] leader_after(before.take(k)),
            ) by {
                assert(before.take(k) == lines.take(k));
            }
            assert(track(before) is Ok);
            assert(command_of(lines.last()) is Some);
            assert(fits(leader_after(lines.take(lines.len() as int))));
        }
    }
}

/// Where a run stops: at the first line that is malformed or whose command
/// takes the leader out of range. The lines before it run without fault, and
/// the cause says which of the two holds of the line itself.
pub proof fn lemma_track_stops_at_first_fault(lines: Seq<Seq<char>>)
    requires
        lines.len() <= usize::MAX,
    ensures
        track(lines) matches Err(failure) ==> ({
            &&& failure.line < lines.len()
            &&& track(lines.take(failure.line as int)) is Ok
            &&& track(lines.take(failure.line + 1)) == Err::<RopeState, Failure>(failure)
            &&& failure.cause == Cause::Malformed <==> command_of(
                lines[failure.line as int],
            ) is None
        }),
    decreases lines.len(),
{
    if lines.len() > 0 {
        let before = lines.drop_last();
        lemma_track_stops_at_first_fault(before);
        match track(before) {
            Err(failure) => {
                assert(before.take(failure.line as int) =~= lines.take(failure.line as int));
                assert(before.take(failure.line + 1) =~= lines.take(failure.line + 1));
            },
            Ok(_) => {
                assert(lines.take(lines.len() - 1) =~= before);
                assert(lines.take(lines.len() as int) =~= lines);
            },
        }
    }
}

/// Coordinates that stand for the same cells are the same coordinates.
pub proof fn lemma_points_are_faithful(a: Seq<Coord>, b: Seq<Coord>)
    requires
        points(a) == points(b),
    ensures
        a == b,
{
    assert(a.len() == points(a).len());
    assert(b.len() == points(b).len());
    assert forall|i: int| 0 <= i < a.len() implies a[i] == b[i] by {
        assert(points(a)[i] == a[i]@);
        assert(points(b)[i] == b[i]@);
    }
    assert(a =~= b);
}

/// As many different coordinates as different cells.
pub proof fn lemma_points_keep_count(coords: Seq<Coord>)
    ensures
        points(coords).to_set().len() == coords.to_set().len(),
    decreases coords.len(),
{
    if coords.len() == 0 {
        assert(coords.to_set() =~= Set::<Coord>::empty());
        assert(points(coords).to_set() =~= Set::<Point>::empty());
    } else {
        let rest = coords.drop_last();
        let c = coords.last();
        lemma_points_keep_count(rest);
        assert(coords =~= rest.push(c));
        assert(points(coords) =~= points(rest).push(c@));
        rest.lemma_push_to_set_commute(c);
        points(rest).lemma_push_to_set_commute(c@);
        if rest.contains(c) {
            let i = choose|i: int| 0 <= i < rest.len() && rest[i] == c;
            assert(points(rest)[i] == c@);
            assert(points(rest).contains(c@));
        }
        if points(rest).contains(c@) {
            let i = choose|i: int| 0 <= i < points(rest).len() && points(rest)[i] == c@;
            assert(rest[i]@ == c@);
            assert(rest[i] == c);
            assert(rest.contains(c));
        }
    }
}

/// What a run hands back is settled by the lines alone: two runs over the
/// same lines hand back the same trace or the same failure, and so the same
/// number of different cells.
pub proof fn lemma_same_lines_same_result(
    lines: Seq<Seq<char>>,
    first: Result<Vec<Coord>, Failure>,
    second: Result<Vec<Coord>, Failure>,
)
    requires
        traces(track(lines), first),
        traces(track(lines), second),
    ensures
        first is Ok <==> second is Ok,
        first is Ok ==> first->Ok_0@ == second->Ok_0@,
        first is Ok ==> first->Ok_0@.to_set().len() == second->Ok_0@.to_set().len(),
        first is Err ==> first->Err_0 == second->Err_0,
{
    if first is Ok {
        lemma_points_are_faithful(first->Ok_0@, second->Ok_0@);
    }
}

/// Read a motion command.
pub fn parse_command(line: &str) -> (command: Option<Command>)
    ensures
        command == command_of(line@),
{
    let chars = chars_of(line);
    if chars.len() < 2 || chars[1] != ' ' {
        return None;
    }
    let direction = match chars[0] {
        'R' => Direction::Right,
        'L' => Direction::Left,
        'U' => Direction::Up,
        'D' => Direction::Down,
        _ => {
            return None;
        },
    };
    let number = slice_subrange(chars.as_slice(), 2, chars.len());
    assert(number@ =~= line@.skip(2));
    match parse_i32(number) {
        Some(magnitude) => Some(Command { direction, magnitude }),
        None => None,
    }
}

/// A rope with coordinates of machine size.
#[derive(Debug)]
pub struct Rope {
    pub head: Coord,
    pub tail: Coord,
    pub tail_locations: Vec<Coord>,
}

impl View for Rope {
    type V = RopeState;

    open spec fn view(&self) -> RopeState {
        RopeState {
            leader: self.head@,
            follower: self.tail@,
            trace: points(self.tail_locations@),
        }
    }
}

impl Rope {
    /// A rope with both ends at the origin.
    pub fn new() -> (rope: Rope)
        ensures
            rope@ == RopeState::start(),
            rope@.taut(),
    {
        let origin = Coord { x: 0, y: 0 };
        let mut tail_locations: Vec<Coord> = Vec::new();
        tail_locations.push(origin);
        let rope = Rope { head: origin, tail: origin, tail_locations };
        assert(rope@.trace =~= RopeState::start().trace);
        rope
    }

    /// Move the head one unit and let the tail follow.
    pub fn step(&mut self, direction: Direction)
        requires
            fits(shift(old(self)@.leader, direction, 1)),
        ensures
            final(self)@ == old(self)@.step(direction),
            old(self)@.taut() ==> final(self)@.taut(),
    {
        proof {
            if self@.taut() {
                lemma_step_keeps_taut(self@, direction);
            }
        }
        let prev_head = self.head;
        match direction {
            Direction::Right => {
                self.head.x = self.head.x + 1;
            },
            Direction::Left => {
                self.head.x = self.head.x - 1;
            },
            Direction::Up => {
                self.head.y = self.head.y + 1;
            },
            Direction::Down => {
                self.head.y = self.head.y - 1;
            },
        }
        if !is_adjacent(&self.head, &self.tail) {
            self.tail = prev_head;
            self.tail_locations.push(prev_head);
            assert(self@.trace =~= old(self)@.trace.push(prev_head@));
        }
    }

    /// Whether the head can take all the steps of a command without leaving
    /// the cells with coordinates of machine size.
    pub fn reaches(&self, command: Command) -> (within: bool)
        ensures
            within == fits(shift(self@.leader, command.direction, command.steps() as int)),
    {
        let n: i64 = if command.magnitude > 0 {
            command.magnitude as i64
        } else {
            0
        };
        let low: i64 = -0x8000_0000;
        let high: i64 = 0x7fff_ffff;
        match command.direction {
            Direction::Right => self.head.x as i64 + n <= high,
            Direction::Left => self.head.x as i64 - n >= low,
            Direction::Up => self.head.y as i64 + n <= high,
            Direction::Down => self.head.y as i64 - n >= low,
        }
    }

    /// Carry out a command, step by step. Where the steps would take the
    /// head out of the cells with coordinates of machine size, none is taken
    /// and the answer is `false`.
    pub fn pull(&mut self, command: Command) -> (moved: bool)
        ensures
            moved == fits(
                shift(old(self)@.leader, command.direction, command.steps() as int),
            ),
            moved ==> final(self)@ == old(self)@.pull(command.direction, command.steps()),
            !moved ==> final(self)@ == old(self)@,
            command.magnitude <= 0 ==> moved && final(self)@ == old(self)@,
            old(self)@.taut() ==> final(self)@.taut(),
    {
        proof {
            if self@.taut() {
                lemma_pull_keeps_taut(self@, command.direction, command.steps());
            }
        }
        if !self.reaches(command) {
            return false;
        }
        let ghost before = self@;
        let direction = command.direction;
        let mut i: i32 = 0;
        while i < command.magnitude
            invariant
                0 <= i,
                i <= command.steps(),
                direction == command.direction,
                fits(before.leader),
                fits(shift(before.leader, direction, command.steps() as int)),
                self@ == before.pull(direction, i as nat),
                self@.leader == shift(before.leader, direction, i as int),
            decreases command.magnitude - i,
        {
            self.step(direction);
            i = i + 1;
        }
        true
    }
}

/// Follow the commands that the lines write, from a rope with both ends at
/// the origin, and hand back every cell that the tail came to, in order.
pub fn process_file(lines: &Vec<String>) -> (result: Result<Vec<Coord>, Failure>)
    ensures
        traces(track(lines.deep_view()), result),
{
    let ghost texts = lines.deep_view();
    let mut rope = Rope::new();
    let mut i: usize = 0;
    while i < lines.len()
        invariant
            i <= lines.len(),
            texts == lines.deep_view(),
            track(texts.take(i as int)) == Ok::<RopeState, Failure>(rope@),
        decreases lines.len() - i,
    {
        let ghost seen = texts.take(i + 1);
        assert(seen.drop_last() =~= texts.take(i as int));
        assert(seen.last() == lines[i as int]@);
        match parse_command(lines[i].as_str()) {
            None => {
                proof {
                    lemma_failure_is_final(texts, i + 1);
                }
                return Err(Failure { line: i, cause: Cause::Malformed });
            },
            Some(command) => {
                if !rope.pull(command) {
                    proof {
                        lemma_failure_is_final(texts, i + 1);
                    }
                    return Err(Failure { line: i, cause: Cause::OutOfRange });
                }
            },
        }
        i = i + 1;
    }
    assert(texts.take(i as int) =~= texts);
    Ok(rope.tail_locations)
}

/// Follow the commands that the lines write and count the different cells
/// that the tail came to.
pub fn count_tail_locations(lines: &Vec<String>) -> (result: Result<usize, Failure>)
    ensures
        counts(track(lines.deep_view()), result),
{
    match process_file(lines) {
        Ok(locations) => {
            proof {
                lemma_points_keep_count(locations@);
            }
            Ok(number_of_unique_locations(&locations))
        },
        Err(failure) => Err(failure),
    }
}

} // verus!
