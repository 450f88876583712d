//! Grading: the hardest technique that a puzzle needs is its difficulty.
//!
//! Techniques are tried from the easiest up, and after every success from the
//! start again:
//!
//! - Easy: naked singles, hidden singles
//! - Medium: and locked candidates
//! - Hard: and naked pairs, hidden pairs
//! - Expert: and naked and hidden triples and quads
//! - Master: and X-Wing, single-digit chains
//! - Extreme: and Swordfish
//! - Evil: and XY-Wing, XYZ-Wing, unique rectangles of type 1
//! - Diabolical: and W-Wing, Jellyfish
//! - Grandmaster: and one level of bifurcation
//! - Ultimate: and two levels of bifurcation; also what these do not fill, or not within
//!   the budget of deductions

use crate::bifurcation;
use crate::board::Board;
use crate::chains;
use crate::difficulty;
use crate::difficulty::Difficulty;
use crate::fish;
use crate::grid;
use crate::grid::Grid;
use crate::locked;
use crate::rectangle;
use crate::singles;
use crate::solver::Solver;
use crate::subsets;
use crate::wings;
use vstd::prelude::*;

verus! {

/// How many deductions a grading run makes before it gives up.
pub const MAX_GRADE_ITERATIONS: usize = 400;

/// The techniques, from the easiest up.
pub open spec fn technique(g: Grid, k: int) -> Grid {
    if k == 0 {
        singles::naked_singles(g)
    } else if k == 1 {
        singles::hidden_singles(g)
    } else if k == 2 {
        locked::locked_candidates(g)
    } else if k == 3 {
        subsets::naked_subsets(g, 2)
    } else if k == 4 {
        subsets::hidden_subsets(g, 2)
    } else if k == 5 {
        subsets::naked_subsets(g, 3)
    } else if k == 6 {
        subsets::hidden_subsets(g, 3)
    } else if k == 7 {
        subsets::naked_subsets(g, 4)
    } else if k == 8 {
        subsets::hidden_subsets(g, 4)
    } else if k == 9 {
        fish::fish(g, 2)
    } else if k == 10 {
        chains::single_digit_chains(g)
    } else if k == 11 {
        fish::fish(g, 3)
    } else if k == 12 {
        wings::xy_wing(g)
    } else if k == 13 {
        wings::xyz_wing(g)
    } else if k == 14 {
        rectangle::unique_rectangles(g)
    } else if k == 15 {
        wings::w_wing(g)
    } else {
        fish::fish(g, 4)
    }
}

/// The tier that technique `k` belongs to.
pub open spec fn tier_of(k: int) -> Difficulty {
    if k <= 1 {
        Difficulty::Easy
    } else if k == 2 {
        Difficulty::Medium
    } else if k <= 4 {
        Difficulty::Hard
    } else if k <= 8 {
        Difficulty::Expert
    } else if k <= 10 {
        Difficulty::Master
    } else if k == 11 {
        Difficulty::Extreme
    } else if k <= 14 {
        Difficulty::Evil
    } else {
        Difficulty::Diabolical
    }
}

/// Technique `k` is the easiest that changes the grid.
pub open spec fn is_next(g: Grid, k: int) -> bool {
    &&& 0 <= k < 17
    &&& technique(g, k) != g
    &&& forall|j: int| 0 <= j < k ==> #[trigger] technique(g, j) == g
}

/// The easiest technique that changes the grid, where there is one.
pub open spec fn next_technique(g: Grid) -> Option<int> {
    if exists|k: int| #[trigger] is_next(g, k) {
        Some(choose|k: int| #[trigger] is_next(g, k))
    } else {
        None
    }
}

/// What a grading run does next.
pub enum Move {
    /// Makes a deduction of some tier.
    Deduce(Difficulty, Grid),
    Solved,
    Stuck,
}

/// The easiest technique that changes the grid; and where there is none and cells
/// are still empty, bifurcation with one level, and then with two.
pub open spec fn next_move(g: Grid) -> Move {
    match next_technique(g) {
        Some(k) => Move::Deduce(tier_of(k), technique(g, k)),
        None => if grid::solved(g) {
            Move::Solved
        } else if bifurcation::bifurcate(g, 1) != g {
            Move::Deduce(Difficulty::Grandmaster, bifurcation::bifurcate(g, 1))
        } else if bifurcation::bifurcate(g, 2) != g {
            Move::Deduce(Difficulty::Ultimate, bifurcation::bifurcate(g, 2))
        } else {
            Move::Stuck
        },
    }
}

/// The tier is harder than the cap.
pub open spec fn over(d: Difficulty, cap: Option<Difficulty>) -> bool {
    match cap {
        Some(c) => difficulty::rank(d) > difficulty::rank(c),
        None => false,
    }
}

/// A run of at most `n` deductions from grid `g`, where `hardest` is the hardest
/// tier so far: the rating, and the grid that the run ends in. A run that is stuck
/// or out of deductions is rated Ultimate, and one that exceeds the cap stops.
pub open spec fn grade(g: Grid, cap: Option<Difficulty>, hardest: Difficulty, n: nat) -> (
    Difficulty,
    Grid,
)
    decreases n,
{
    if n == 0 {
        (Difficulty::Ultimate, g)
    } else {
        match next_move(g) {
            Move::Solved => (hardest, g),
            Move::Stuck => (Difficulty::Ultimate, g),
            Move::Deduce(tier, h) => {
                let top = difficulty::harder_of(hardest, tier);
                if over(top, cap) {
                    (top, h)
                } else {
                    grade(h, cap, top, (n - 1) as nat)
                }
            },
        }
    }
}

/// The rating of a board.
pub open spec fn rating(b: Seq<u8>, cap: Option<Difficulty>) -> Difficulty {
    grade(grid::start_grid(b), cap, Difficulty::Easy, 400).0
}

pub proof fn lemma_technique(g: Grid, k: int)
    requires
        grid::wf(g),
    ensures
        grid::follows(g, technique(g, k)),
{
    singles::lemma_naked_singles(g);
    singles::lemma_hidden_singles(g);
    locked::lemma_locked_candidates(g);
    subsets::lemma_naked_subsets(g, 2);
    subsets::lemma_hidden_subsets(g, 2);
    subsets::lemma_naked_subsets(g, 3);
    subsets::lemma_hidden_subsets(g, 3);
    subsets::lemma_naked_subsets(g, 4);
    subsets::lemma_hidden_subsets(g, 4);
    fish::lemma_fish(g, 2);
    chains::lemma_single_digit_chains(g);
    fish::lemma_fish(g, 3);
    wings::lemma_xy_wing(g);
    wings::lemma_xyz_wing(g);
    rectangle::lemma_unique_rectangles(g);
    wings::lemma_w_wing(g);
    fish::lemma_fish(g, 4);
}

pub proof fn lemma_next(g: Grid, k: int)
    requires
        is_next(g, k),
    ensures
        next_technique(g) == Some(k),
{
    let j = choose|j: int| #[trigger] is_next(g, j);
    assert(is_next(g, j));
    if j < k {
        assert(technique(g, j) == g);
    } else if k < j {
        assert(technique(g, k) == g);
    }
}

pub proof fn lemma_none(g: Grid)
    requires
        forall|j: int| 0 <= j < 17 ==> #[trigger] technique(g, j) == g,
    ensures
        next_technique(g) is None,
{
    assert forall|k: int| !#[trigger] is_next(g, k) by {}
}

pub proof fn lemma_next_move(g: Grid)
    requires
        grid::wf(g),
    ensures
        next_move(g) matches Move::Deduce(t, h) ==> grid::follows(g, h) && h != g,
{
    match next_technique(g) {
        Some(k) => {
            assert(is_next(g, k));
            lemma_technique(g, k);
        },
        None => {
            bifurcation::lemma_bifurcate(g, 1);
            bifurcation::lemma_bifurcate(g, 2);
        },
    }
}

impl Solver {
    /// Makes the first of the named techniques that changes the grid, and says its
    /// tier.
    fn apply_next(&mut self) -> (tier: Option<Difficulty>)
        requires
            grid::wf(old(self)@),
        ensures
            grid::follows(old(self)@, final(self)@),
            match next_technique(old(self)@) {
                Some(k) => tier == Some(tier_of(k)) && final(self)@ == technique(old(self)@, k),
                None => tier is None && final(self)@ == old(self)@,
            },
    {
        let ghost g = self@;
        if self.apply_naked_singles() {
            proof {
                lemma_next(g, 0);
            }
            return Some(Difficulty::Easy);
        }
        assert(technique(g, 0) == g);
        if self.apply_hidden_singles() {
            proof {
                lemma_next(g, 1);
            }
            return Some(Difficulty::Easy);
        }
        assert(technique(g, 1) == g);
        if self.apply_locked_candidates() {
            proof {
                lemma_next(g, 2);
            }
            return Some(Difficulty::Medium);
        }
        assert(technique(g, 2) == g);
        if self.apply_naked_subsets(2) {
            proof {
                lemma_next(g, 3);
            }
            return Some(Difficulty::Hard);
        }
        assert(technique(g, 3) == g);
        if self.apply_hidden_subsets(2) {
            proof {
                lemma_next(g, 4);
            }
            return Some(Difficulty::Hard);
        }
        assert(technique(g, 4) == g);
        if self.apply_naked_subsets(3) {
            proof {
                lemma_next(g, 5);
            }
            return Some(Difficulty::Expert);
        }
        assert(technique(g, 5) == g);
        if self.apply_hidden_subsets(3) {
            proof {
                lemma_next(g, 6);
            }
            return Some(Difficulty::Expert);
        }
        assert(technique(g, 6) == g);
        if self.apply_naked_subsets(4) {
            proof {
                lemma_next(g, 7);
            }
            return Some(Difficulty::Expert);
        }
        assert(technique(g, 7) == g);
        if self.apply_hidden_subsets(4) {
            proof {
                lemma_next(g, 8);
            }
            return Some(Difficulty::Expert);
        }
        assert(technique(g, 8) == g);
        if self.apply_fish(2) {
            proof {
                lemma_next(g, 9);
            }
            return Some(Difficulty::Master);
        }
        assert(technique(g, 9) == g);
        if self.apply_single_digit_chains() {
            proof {
                lemma_next(g, 10);
            }
            return Some(Difficulty::Master);
        }
        assert(technique(g, 10) == g);
        if self.apply_fish(3) {
            proof {
                lemma_next(g, 11);
            }
            return Some(Difficulty::Extreme);
        }
        assert(technique(g, 11) == g);
        if self.apply_xy_wing() {
            proof {
                lemma_next(g, 12);
            }
            return Some(Difficulty::Evil);
        }
        assert(technique(g, 12) == g);
        if self.apply_xyz_wing() {
            proof {
                lemma_next(g, 13);
            }
            return Some(Difficulty::Evil);
        }
        assert(technique(g, 13) == g);
        if self.apply_unique_rectangle_type1() {
            proof {
                lemma_next(g, 14);
            }
            return Some(Difficulty::Evil);
        }
        assert(technique(g, 14) == g);
        if self.apply_w_wing() {
            proof {
                lemma_next(g, 15);
            }
            return Some(Difficulty::Diabolical);
        }
        assert(technique(g, 15) == g);
        if self.apply_fish(4) {
            proof {
                lemma_next(g, 16);
            }
            return Some(Difficulty::Diabolical);
        }
        assert(technique(g, 16) == g);
        proof {
            lemma_none(g);
        }
        None
    }

    /// Solves as far as the techniques go and returns the hardest tier that was
    /// needed; with a cap, stops as soon as the grid proves harder than that.
    pub fn solve_and_grade(&mut self, cap: Option<Difficulty>) -> (hardest: Difficulty)
        requires
            grid::wf(old(self)@),
        ensures
            (hardest, final(self)@) == grade(old(self)@, cap, Difficulty::Easy, 400),
            grid::follows(old(self)@, final(self)@),
    {
        let ghost g = self@;
        let mut hardest = Difficulty::Easy;
        let mut i: usize = 0;
        while i < MAX_GRADE_ITERATIONS
            invariant
                i <= 400,
                g == old(self)@,
                grid::wf(g),
                grid::follows(g, self@),
                grade(g, cap, Difficulty::Easy, 400) == grade(self@, cap, hardest, (400 - i) as nat),
            decreases 400 - i,
        {
            let ghost h = self@;
            let tier = match self.apply_next() {
                Some(t) => t,
                None => {
                    if self.is_solved() {
                        return hardest;
                    }
                    proof {
                        bifurcation::lemma_bifurcate(h, 1);
                        bifurcation::lemma_bifurcate(h, 2);
                    }
                    if self.apply_bifurcation(1) {
                        Difficulty::Grandmaster
                    } else if self.apply_bifurcation(2) {
                        Difficulty::Ultimate
                    } else {
                        return Difficulty::Ultimate;
                    }
                },
            };
            proof {
                grid::lemma_chain(g, h, self@);
            }
            hardest = hardest.harder(tier);
            if let Some(c) = cap {
                if hardest.level() > c.level() {
                    return hardest;
                }
            }
            i = i + 1;
        }
        Difficulty::Ultimate
    }
}

/// Rates a board by the hardest technique that is needed to solve it.
pub fn rate_difficulty(board: &Board) -> (d: Difficulty)
    requires
        forall|i: int| 0 <= i < 81 ==> #[trigger] board@[i] < 16,
    ensures
        d == rating(board@, None),
{
    let mut solver = Solver::from_board(board);
    proof {
        grid::lemma_start(board@);
    }
    solver.solve_and_grade(None)
}

/// Rates a board as `rate_difficulty` does, but stops once it proves harder than
/// `cap`.
pub fn rate_difficulty_capped(board: &Board, cap: Difficulty) -> (d: Difficulty)
    requires
        forall|i: int| 0 <= i < 81 ==> #[trigger] board@[i] < 16,
    ensures
        d == rating(board@, Some(cap)),
{
    let mut solver = Solver::from_board(board);
    proof {
        grid::lemma_start(board@);
    }
    solver.solve_and_grade(Some(cap))
}

} // verus!
