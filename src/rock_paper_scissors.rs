//! Scoring a strategy guide of rock-paper-scissors rounds.
use crate::text::{char_lines, chars_of, spec_char_lines};
use vstd::prelude::*;

verus! {

#[derive(Clone, Copy, Debug, PartialEq, Eq, Structural)]
pub enum HandShape {
    Rock,
    Paper,
    Scissors,
}

#[derive(Clone, Copy, Debug, PartialEq, Eq, Structural)]
pub enum GameEnd {
    Win,
    Draw,
    Lose,
}

pub open spec fn beats(a: HandShape, b: HandShape) -> bool {
    ||| a == HandShape::Rock && b == HandShape::Scissors
    ||| a == HandShape::Paper && b == HandShape::Rock
    ||| a == HandShape::Scissors && b == HandShape::Paper
}

/// The outcome for the player of `me` against `other`.
pub open spec fn outcome(me: HandShape, other: HandShape) -> GameEnd {
    if me == other {
        GameEnd::Draw
    } else if beats(me, other) {
        GameEnd::Win
    } else {
        GameEnd::Lose
    }
}

/// `A`/`X` rock, `B`/`Y` paper, `C`/`Z` scissors.
pub open spec fn shape_of(c: char) -> Option<HandShape> {
    if c == 'A' || c == 'X' {
        Some(HandShape::Rock)
    } else if c == 'B' || c == 'Y' {
        Some(HandShape::Paper)
    } else if c == 'C' || c == 'Z' {
        Some(HandShape::Scissors)
    } else {
        None
    }
}

/// `X` lose, `Y` draw, `Z` win.
pub open spec fn end_of(c: char) -> Option<GameEnd> {
    if c == 'X' {
        Some(GameEnd::Lose)
    } else if c == 'Y' {
        Some(GameEnd::Draw)
    } else if c == 'Z' {
        Some(GameEnd::Win)
    } else {
        None
    }
}

impl HandShape {
    /// The outcome of playing `self` against `other`.
    pub fn play(&self, other: &Self) -> (r: GameEnd)
        ensures
            r == outcome(*self, *other),
    {
        match (self, other) {
            (HandShape::Rock, HandShape::Rock) => GameEnd::Draw,
            (HandShape::Rock, HandShape::Paper) => GameEnd::Lose,
            (HandShape::Rock, HandShape::Scissors) => GameEnd::Win,
            (HandShape::Paper, HandShape::Rock) => GameEnd::Win,
            (HandShape::Paper, HandShape::Paper) => GameEnd::Draw,
            (HandShape::Paper, HandShape::Scissors) => GameEnd::Lose,
            (HandShape::Scissors, HandShape::Rock) => GameEnd::Lose,
            (HandShape::Scissors, HandShape::Paper) => GameEnd::Win,
            (HandShape::Scissors, HandShape::Scissors) => GameEnd::Draw,
        }
    }

    pub fn from_char(c: &char) -> (r: Option<Self>)
        ensures
            r == shape_of(*c),
    {
        match *c {
            'A' => Some(HandShape::Rock),
            'B' => Some(HandShape::Paper),
            'C' => Some(HandShape::Scissors),
            'X' => Some(HandShape::Rock),
            'Y' => Some(HandShape::Paper),
            'Z' => Some(HandShape::Scissors),
            _ => None,
        }
    }
}

impl GameEnd {
    pub fn from_char(c: &char) -> (r: Option<Self>)
        ensures
            r == end_of(*c),
    {
        match *c {
            'X' => Some(GameEnd::Lose),
            'Y' => Some(GameEnd::Draw),
            'Z' => Some(GameEnd::Win),
            _ => None,
        }
    }
}

/// The round a line describes when both letters name shapes.
pub open spec fn round_a(s: Seq<char>) -> Option<(HandShape, HandShape)> {
    if s.len() >= 3 && shape_of(s[0]) is Some && shape_of(s[2]) is Some {
        Some((shape_of(s[0])->0, shape_of(s[2])->0))
    } else {
        None
    }
}

/// The round a line describes when the second letter names an outcome.
pub open spec fn round_b(s: Seq<char>) -> Option<(HandShape, GameEnd)> {
    if s.len() >= 3 && shape_of(s[0]) is Some && end_of(s[2]) is Some {
        Some((shape_of(s[0])->0, end_of(s[2])->0))
    } else {
        None
    }
}

fn round_a_of(s: &Vec<char>) -> (r: Option<(HandShape, HandShape)>)
    ensures
        r == round_a(s@),
{
    if s.len() < 3 {
        return None;
    }
    match (HandShape::from_char(&s[0]), HandShape::from_char(&s[2])) {
        (Some(a), Some(b)) => Some((a, b)),
        _ => None,
    }
}

fn round_b_of(s: &Vec<char>) -> (r: Option<(HandShape, GameEnd)>)
    ensures
        r == round_b(s@),
{
    if s.len() < 3 {
        return None;
    }
    match (HandShape::from_char(&s[0]), GameEnd::from_char(&s[2])) {
        (Some(a), Some(b)) => Some((a, b)),
        _ => None,
    }
}

/// The first and third characters of `line` as the opponent's and the own shape.
pub fn parse_line_a(line: &str) -> (r: Option<(HandShape, HandShape)>)
    ensures
        r == round_a(line@),
{
    round_a_of(&chars_of(line))
}

/// The first and third characters of `line` as the opponent's shape and the outcome.
pub fn parse_line_b(line: &str) -> (r: Option<(HandShape, GameEnd)>)
    ensures
        r == round_b(line@),
{
    round_b_of(&chars_of(line))
}

pub open spec fn shape_score(s: HandShape) -> int {
    match s {
        HandShape::Rock => 1,
        HandShape::Paper => 2,
        HandShape::Scissors => 3,
    }
}

pub open spec fn end_score(e: GameEnd) -> int {
    match e {
        GameEnd::Win => 6,
        GameEnd::Draw => 3,
        GameEnd::Lose => 0,
    }
}

/// The score of `(other, me)`: the own shape's score and the outcome's.
pub open spec fn round_points(round: (HandShape, HandShape)) -> int {
    shape_score(round.1) + end_score(outcome(round.1, round.0))
}

pub fn points_for_round(round: &(HandShape, HandShape)) -> (r: u32)
    ensures
        r == round_points(*round),
        r <= 9,
{
    let (other, me) = *round;
    let shape: u32 = match me {
        HandShape::Rock => 1,
        HandShape::Paper => 2,
        HandShape::Scissors => 3,
    };
    let game: u32 = match me.play(&other) {
        GameEnd::Win => 6,
        GameEnd::Draw => 3,
        GameEnd::Lose => 0,
    };
    shape + game
}

/// The shape that gives the wanted outcome against the opponent's.
pub fn correct_play(round: (HandShape, GameEnd)) -> (r: (HandShape, HandShape))
    ensures
        r.0 == round.0,
        outcome(r.1, round.0) == round.1,
{
    let (other, end) = round;
    let play = match (other, end) {
        (HandShape::Rock, GameEnd::Win) => HandShape::Paper,
        (HandShape::Rock, GameEnd::Draw) => HandShape::Rock,
        (HandShape::Rock, GameEnd::Lose) => HandShape::Scissors,
        (HandShape::Paper, GameEnd::Win) => HandShape::Scissors,
        (HandShape::Paper, GameEnd::Draw) => HandShape::Paper,
        (HandShape::Paper, GameEnd::Lose) => HandShape::Rock,
        (HandShape::Scissors, GameEnd::Win) => HandShape::Rock,
        (HandShape::Scissors, GameEnd::Draw) => HandShape::Scissors,
        (HandShape::Scissors, GameEnd::Lose) => HandShape::Paper,
    };
    (other, play)
}

/// Exactly one shape gives a wanted outcome, so `correct_play` is determined.
pub proof fn lemma_play_unique(other: HandShape, a: HandShape, b: HandShape)
    requires
        outcome(a, other) == outcome(b, other),
    ensures
        a == b,
{
}

/// The shape that `correct_play` chooses.
pub open spec fn chosen(round: (HandShape, GameEnd)) -> HandShape {
    choose|s: HandShape| outcome(s, round.0) == round.1
}

/// Total points of the lines read as shape pairs; other lines count nothing.
pub open spec fn total_a(ls: Seq<Seq<char>>) -> int
    decreases ls.len(),
{
    if ls.len() == 0 {
        0
    } else {
        total_a(ls.drop_last()) + match round_a(ls.last()) {
            Some(r) => round_points(r),
            None => 0,
        }
    }
}

/// Total points of the lines read as shape and outcome.
pub open spec fn total_b(ls: Seq<Seq<char>>) -> int
    decreases ls.len(),
{
    if ls.len() == 0 {
        0
    } else {
        total_b(ls.drop_last()) + match round_b(ls.last()) {
            Some(r) => round_points((r.0, chosen(r))),
            None => 0,
        }
    }
}

/// Both totals of the strategy guide `input`.
pub fn day02(input: &str) -> (r: (u128, u128))
    ensures
        r.0 == total_a(spec_char_lines(input@)),
        r.1 == total_b(spec_char_lines(input@)),
{
    let chars = chars_of(input);
    let ls = char_lines(&chars);
    let ghost lv = ls@.map_values(|l: Vec<char>| l@);
    let mut a: u128 = 0;
    let mut b: u128 = 0;
    let mut i: usize = 0;
    assert(lv.subrange(0, 0) =~= seq![]);
    while i < ls.len()
        invariant
            i <= ls@.len(),
            lv == ls@.map_values(|l: Vec<char>| l@),
            lv == spec_char_lines(input@),
            a == total_a(lv.subrange(0, i as int)),
            b == total_b(lv.subrange(0, i as int)),
            a <= 9 * i,
            b <= 9 * i,
            i <= usize::MAX,
        decreases ls@.len() - i,
    {
        let ghost next = lv.subrange(0, i as int + 1);
        assert(next.drop_last() =~= lv.subrange(0, i as int));
        assert(next.last() == ls@[i as int]@);
        if let Some(round) = round_a_of(&ls[i]) {
            a = a + points_for_round(&round) as u128;
        }
        if let Some(round) = round_b_of(&ls[i]) {
            let played = correct_play(round);
            proof {
                let c = chosen(round);
                assert(outcome(c, round.0) == round.1);
                lemma_play_unique(round.0, c, played.1);
            }
            b = b + points_for_round(&played) as u128;
        }
        i += 1;
    }
    assert(lv.subrange(0, i as int) =~= lv);
    (a, b)
}

} // verus!
