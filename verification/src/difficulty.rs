//! The ladder of difficulty tiers.

use vstd::prelude::*;

verus! {

/// Difficulty tiers, easiest first. Each tier allows the techniques of the tiers
/// below it and some more; `grade` says which technique belongs to which tier.
#[derive(Debug, Clone, Copy, PartialEq, Eq, PartialOrd, Ord, Structural)]
pub enum Difficulty {
    Easy,
    Medium,
    Hard,
    Expert,
    Master,
    Extreme,
    Evil,
    Diabolical,
    Grandmaster,
    Ultimate,
}

/// The place of a tier on the ladder, from 0 to 9.
pub open spec fn rank(d: Difficulty) -> int {
    match d {
        Difficulty::Easy => 0,
        Difficulty::Medium => 1,
        Difficulty::Hard => 2,
        Difficulty::Expert => 3,
        Difficulty::Master => 4,
        Difficulty::Extreme => 5,
        Difficulty::Evil => 6,
        Difficulty::Diabolical => 7,
        Difficulty::Grandmaster => 8,
        Difficulty::Ultimate => 9,
    }
}

/// The harder of two tiers.
pub open spec fn harder_of(a: Difficulty, b: Difficulty) -> Difficulty {
    if rank(a) < rank(b) {
        b
    } else {
        a
    }
}

/// The name of a tier.
pub open spec fn tier_name(d: Difficulty) -> Seq<char> {
    match d {
        Difficulty::Easy => "Easy"@,
        Difficulty::Medium => "Medium"@,
        Difficulty::Hard => "Hard"@,
        Difficulty::Expert => "Expert"@,
        Difficulty::Master => "Master"@,
        Difficulty::Extreme => "Extreme"@,
        Difficulty::Evil => "Evil"@,
        Difficulty::Diabolical => "Diabolical"@,
        Difficulty::Grandmaster => "Grandmaster"@,
        Difficulty::Ultimate => "Ultimate"@,
    }
}

impl Difficulty {
    /// Every tier, easiest first.
    pub const ALL: [Difficulty; 10] = [
        Difficulty::Easy,
        Difficulty::Medium,
        Difficulty::Hard,
        Difficulty::Expert,
        Difficulty::Master,
        Difficulty::Extreme,
        Difficulty::Evil,
        Difficulty::Diabolical,
        Difficulty::Grandmaster,
        Difficulty::Ultimate,
    ];

    /// The place of the tier on the ladder.
    pub fn level(self) -> (n: i32)
        ensures
            n == rank(self),
            0 <= n <= 9,
    {
        match self {
            Difficulty::Easy => 0,
            Difficulty::Medium => 1,
            Difficulty::Hard => 2,
            Difficulty::Expert => 3,
            Difficulty::Master => 4,
            Difficulty::Extreme => 5,
            Difficulty::Evil => 6,
            Difficulty::Diabolical => 7,
            Difficulty::Grandmaster => 8,
            Difficulty::Ultimate => 9,
        }
    }

    /// The harder of the two tiers.
    pub fn harder(self, other: Difficulty) -> (d: Difficulty)
        ensures
            d == harder_of(self, other),
    {
        if self.level() < other.level() {
            other
        } else {
            self
        }
    }

    /// The name of the tier.
    pub fn name(self) -> (s: &'static str)
        ensures
            s@ == tier_name(self),
    {
        match self {
            Difficulty::Easy => "Easy",
            Difficulty::Medium => "Medium",
            Difficulty::Hard => "Hard",
            Difficulty::Expert => "Expert",
            Difficulty::Master => "Master",
            Difficulty::Extreme => "Extreme",
            Difficulty::Evil => "Evil",
            Difficulty::Diabolical => "Diabolical",
            Difficulty::Grandmaster => "Grandmaster",
            Difficulty::Ultimate => "Ultimate",
        }
    }
}

/// How many steps apart two tiers are on the ladder.
pub open spec fn distance(a: Difficulty, b: Difficulty) -> int {
    if rank(a) < rank(b) {
        rank(b) - rank(a)
    } else {
        rank(a) - rank(b)
    }
}

/// How far apart two tiers are on the ladder.
pub fn tier_distance(a: Difficulty, b: Difficulty) -> (n: i32)
    ensures
        n == distance(a, b),
{
    let (x, y) = (a.level(), b.level());
    if x < y {
        y - x
    } else {
        x - y
    }
}

/// Two tiers with the same place on the ladder are the same tier.
pub proof fn law_rank_orders_tiers(a: Difficulty, b: Difficulty)
    ensures
        rank(a) == rank(b) <==> a == b,
        distance(a, b) == 0 <==> a == b,
        distance(a, b) == distance(b, a),
        rank(harder_of(a, b)) >= rank(a) && rank(harder_of(a, b)) >= rank(b),
{
}

} // verus!
