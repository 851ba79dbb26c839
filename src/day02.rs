use vstd::prelude::*;

use crate::text::{char_lines, lines_of, rows_view};

verus! {

/// The result of a round for the one who plays.
#[derive(Debug, PartialEq, Eq, Clone, Copy, Structural)]
pub enum Outcome {
    Win,
    Lose,
    Tie,
}

impl Outcome {
    pub open spec fn spec_value(self) -> int {
        match self {
            Outcome::Win => 6,
            Outcome::Lose => 0,
            Outcome::Tie => 3,
        }
    }

    /// Points for the result of a round.
    pub fn value(&self) -> (r: u64)
        ensures
            r == self.spec_value(),
    {
        match self {
            Outcome::Win => 6,
            Outcome::Lose => 0,
            Outcome::Tie => 3,
        }
    }
}

/// A shape of rock, paper, scissors.
#[derive(Debug, PartialEq, Eq, Clone, Copy, Structural)]
pub enum RPS {
    Rock,
    Paper,
    Scissors,
}

impl RPS {
    pub open spec fn spec_from_char(c: char) -> Option<RPS> {
        if c == 'A' || c == 'X' {
            Some(RPS::Rock)
        } else if c == 'B' || c == 'Y' {
            Some(RPS::Paper)
        } else if c == 'C' || c == 'Z' {
            Some(RPS::Scissors)
        } else {
            None
        }
    }

    pub open spec fn spec_value(self) -> int {
        match self {
            RPS::Rock => 1,
            RPS::Paper => 2,
            RPS::Scissors => 3,
        }
    }

    /// The shape this one beats.
    pub open spec fn spec_loser(self) -> RPS {
        match self {
            RPS::Rock => RPS::Scissors,
            RPS::Paper => RPS::Rock,
            RPS::Scissors => RPS::Paper,
        }
    }

    /// The shape that beats this one.
    pub open spec fn spec_winner(self) -> RPS {
        match self {
            RPS::Rock => RPS::Paper,
            RPS::Paper => RPS::Scissors,
            RPS::Scissors => RPS::Rock,
        }
    }

    /// The result of playing this shape against `other`.
    pub open spec fn spec_win(self, other: RPS) -> Outcome {
        if self == other {
            Outcome::Tie
        } else if other == self.spec_winner() {
            Outcome::Lose
        } else {
            Outcome::Win
        }
    }

    /// `A` or `X` is rock, `B` or `Y` paper, `C` or `Z` scissors.
    pub fn from_char(c: char) -> (r: Result<RPS, ()>)
        ensures
            match RPS::spec_from_char(c) {
                Some(s) => r == Ok::<RPS, ()>(s),
                None => r is Err,
            },
    {
        match c {
            'A' | 'X' => Ok(RPS::Rock),
            'B' | 'Y' => Ok(RPS::Paper),
            'C' | 'Z' => Ok(RPS::Scissors),
            _ => Err(()),
        }
    }

    pub fn value(&self) -> (r: u64)
        ensures
            r == self.spec_value(),
    {
        match self {
            RPS::Rock => 1,
            RPS::Paper => 2,
            RPS::Scissors => 3,
        }
    }

    pub fn loser(self) -> (r: RPS)
        ensures
            r == self.spec_loser(),
    {
        match self {
            RPS::Rock => RPS::Scissors,
            RPS::Paper => RPS::Rock,
            RPS::Scissors => RPS::Paper,
        }
    }

    pub fn winner(self) -> (r: RPS)
        ensures
            r == self.spec_winner(),
    {
        match self {
            RPS::Rock => RPS::Paper,
            RPS::Paper => RPS::Scissors,
            RPS::Scissors => RPS::Rock,
        }
    }

    pub fn win(&self, other: &RPS) -> (r: Outcome)
        ensures
            r == self.spec_win(*other),
    {
        if *self == *other {
            return Outcome::Tie;
        }
        let winner = self.winner();
        if *other == winner {
            return Outcome::Lose;
        }
        Outcome::Win
    }
}

/// `l` is two shape letters with a space between them.
pub open spec fn round_line(l: Seq<char>) -> bool {
    &&& l.len() == 3
    &&& l[1] == ' '
    &&& RPS::spec_from_char(l[0]) is Some
    &&& RPS::spec_from_char(l[2]) is Some
}

/// The strategy guide: one round per line, the opponent's shape first.
pub fn parse(input: &str) -> (r: Option<Vec<Vec<RPS>>>)
    ensures
        match r {
            Some(v) => v.len() == lines_of(input@).len() && forall|i: int|
                0 <= i < v.len() ==> round_line(#[trigger] lines_of(input@)[i]) && v@[i]@ == seq![
                    RPS::spec_from_char(lines_of(input@)[i][0])->Some_0,
                    RPS::spec_from_char(lines_of(input@)[i][2])->Some_0,
                ],
            None => exists|i: int| 0 <= i < lines_of(input@).len() && !round_line(#[trigger] lines_of(input@)[i]),
        },
{
    let lines = char_lines(input);
    let ghost ls = lines_of(input@);
    let mut out: Vec<Vec<RPS>> = Vec::new();
    let mut i: usize = 0;
    while i < lines.len()
        invariant
            ls == lines_of(input@),
            rows_view(&lines) == ls,
            i <= lines.len(),
            out.len() == i,
            forall|j: int|
                0 <= j < i ==> round_line(#[trigger] ls[j]) && out@[j]@ == seq![
                    RPS::spec_from_char(ls[j][0])->Some_0,
                    RPS::spec_from_char(ls[j][2])->Some_0,
                ],
        decreases lines.len() - i,
    {
        let l = &lines[i];
        proof {
            assert(l@ == ls[i as int]);
        }
        if l.len() != 3 || l[1] != ' ' {
            return None;
        }
        let a = RPS::from_char(l[0]);
        let b = RPS::from_char(l[2]);
        match (a, b) {
            (Ok(x), Ok(y)) => {
                let mut round: Vec<RPS> = Vec::new();
                round.push(x);
                round.push(y);
                proof {
                    assert(round@ =~= seq![x, y]);
                }
                out.push(round);
            },
            _ => {
                return None;
            },
        }
        i += 1;
    }
    Some(out)
}

/// Every round holds two shapes.
pub open spec fn rounds(v: Seq<Vec<RPS>>) -> bool {
    forall|i: int| 0 <= i < v.len() ==> (#[trigger] v[i]).len() == 2
}

/// Points of a round where the player shows `mine` against `theirs`.
pub open spec fn round_score(mine: RPS, theirs: RPS) -> int {
    mine.spec_value() + mine.spec_win(theirs).spec_value()
}

/// The total when the second letter is the shape to show.
pub open spec fn total_one(v: Seq<Vec<RPS>>) -> int
    decreases v.len(),
{
    if v.len() == 0 {
        0
    } else {
        total_one(v.drop_last()) + round_score(v.last()@[1], v.last()@[0])
    }
}

/// The shape to show when the second letter asks to lose (`X`), draw (`Y`) or
/// win (`Z`).
pub open spec fn chosen(theirs: RPS, want: RPS) -> RPS {
    match want {
        RPS::Rock => theirs.spec_loser(),
        RPS::Paper => theirs,
        RPS::Scissors => theirs.spec_winner(),
    }
}

/// The total when the second letter is the result to reach.
pub open spec fn total_two(v: Seq<Vec<RPS>>) -> int
    decreases v.len(),
{
    if v.len() == 0 {
        0
    } else {
        total_two(v.drop_last()) + round_score(chosen(v.last()@[0], v.last()@[1]), v.last()@[0])
    }
}

/// Total points when the second shape of each round is the one shown.
pub fn part_one(input: &Vec<Vec<RPS>>) -> (r: u64)
    requires
        rounds(input@),
        9 * input.len() <= u64::MAX,
    ensures
        r == total_one(input@),
{
    let mut sum: u64 = 0;
    let mut i: usize = 0;
    while i < input.len()
        invariant
            rounds(input@),
            9 * input.len() <= u64::MAX,
            i <= input.len(),
            sum == total_one(input@.subrange(0, i as int)),
            sum <= 9 * i,
        decreases input.len() - i,
    {
        let v = &input[i];
        assert(v.len() == 2);
        let mine = v[1];
        let s = mine.value() + mine.win(&v[0]).value();
        proof {
            assert(input@.subrange(0, i as int + 1).drop_last() =~= input@.subrange(0, i as int));
        }
        sum = sum + s;
        i += 1;
    }
    proof {
        assert(input@.subrange(0, i as int) =~= input@);
    }
    sum
}

/// Total points when the second letter of each round names the result.
pub fn part_two(input: &Vec<Vec<RPS>>) -> (r: u64)
    requires
        rounds(input@),
        9 * input.len() <= u64::MAX,
    ensures
        r == total_two(input@),
{
    let mut sum: u64 = 0;
    let mut i: usize = 0;
    while i < input.len()
        invariant
            rounds(input@),
            9 * input.len() <= u64::MAX,
            i <= input.len(),
            sum == total_two(input@.subrange(0, i as int)),
            sum <= 9 * i,
        decreases input.len() - i,
    {
        let v = &input[i];
        assert(v.len() == 2);
        let theirs = v[0];
        let mine = match v[1] {
            RPS::Rock => theirs.loser(),
            RPS::Paper => theirs,
            RPS::Scissors => theirs.winner(),
        };
        let s = mine.value() + mine.win(&theirs).value();
        proof {
            assert(input@.subrange(0, i as int + 1).drop_last() =~= input@.subrange(0, i as int));
        }
        sum = sum + s;
        i += 1;
    }
    proof {
        assert(input@.subrange(0, i as int) =~= input@);
    }
    sum
}

} // verus!
