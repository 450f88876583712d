//! Which techniques each tier stands for.

use crate::bifurcation;
use crate::chains;
use crate::difficulty;
use crate::difficulty::Difficulty;
use crate::fish;
use crate::grade;
use crate::grade::Move;
use crate::grade_laws;
use crate::grid;
use crate::grid::Grid;
use crate::locked;
use crate::rectangle;
use crate::singles;
use crate::subsets;
use crate::wings;
use vstd::prelude::*;

verus! {

/// `h`, if that is a change; otherwise `k`.
pub open spec fn failing_that(g: Grid, h: Grid, k: Grid) -> Grid {
    if h == g {
        k
    } else {
        h
    }
}

/// Naked singles; failing that, hidden singles.
pub open spec fn easy_step(g: Grid) -> Grid {
    failing_that(g, singles::naked_singles(g), singles::hidden_singles(g))
}

/// What is easy; failing that, locked candidates.
pub open spec fn medium_step(g: Grid) -> Grid {
    failing_that(g, easy_step(g), locked::locked_candidates(g))
}

/// What is medium; failing that, naked pairs, and then hidden pairs.
pub open spec fn hard_step(g: Grid) -> Grid {
    failing_that(
        g,
        failing_that(g, medium_step(g), subsets::naked_subsets(g, 2)),
        subsets::hidden_subsets(g, 2),
    )
}

/// What is hard; failing that, naked and hidden triples, and then naked and hidden quads.
pub open spec fn expert_step(g: Grid) -> Grid {
    let triples = failing_that(
        g,
        failing_that(g, hard_step(g), subsets::naked_subsets(g, 3)),
        subsets::hidden_subsets(g, 3),
    );
    failing_that(
        g,
        failing_that(g, triples, subsets::naked_subsets(g, 4)),
        subsets::hidden_subsets(g, 4),
    )
}

/// What is expert; failing that, X-Wing, and then single-digit chains.
pub open spec fn master_step(g: Grid) -> Grid {
    failing_that(
        g,
        failing_that(g, expert_step(g), fish::fish(g, 2)),
        chains::single_digit_chains(g),
    )
}

/// What is master; failing that, Swordfish.
pub open spec fn extreme_step(g: Grid) -> Grid {
    failing_that(g, master_step(g), fish::fish(g, 3))
}

/// What is extreme; failing that, XY-Wing, then XYZ-Wing, and then unique rectangles.
pub open spec fn evil_step(g: Grid) -> Grid {
    failing_that(
        g,
        failing_that(
            g,
            failing_that(g, extreme_step(g), wings::xy_wing(g)),
            wings::xyz_wing(g),
        ),
        rectangle::unique_rectangles(g),
    )
}

/// What is evil; failing that, W-Wing, and then Jellyfish.
pub open spec fn diabolical_step(g: Grid) -> Grid {
    failing_that(g, failing_that(g, evil_step(g), wings::w_wing(g)), fish::fish(g, 4))
}

/// What is diabolical; failing that, bifurcation of one level.
pub open spec fn grandmaster_step(g: Grid) -> Grid {
    failing_that(g, diabolical_step(g), bifurcation::bifurcate(g, 1))
}

/// What is grandmaster; failing that, bifurcation of two levels.
pub open spec fn ultimate_step(g: Grid) -> Grid {
    failing_that(g, grandmaster_step(g), bifurcation::bifurcate(g, 2))
}

/// The deduction that a player of tier `d` makes.
pub open spec fn tier_step(d: Difficulty, g: Grid) -> Grid {
    match d {
        Difficulty::Easy => easy_step(g),
        Difficulty::Medium => medium_step(g),
        Difficulty::Hard => hard_step(g),
        Difficulty::Expert => expert_step(g),
        Difficulty::Master => master_step(g),
        Difficulty::Extreme => extreme_step(g),
        Difficulty::Evil => evil_step(g),
        Difficulty::Diabolical => diabolical_step(g),
        Difficulty::Grandmaster => grandmaster_step(g),
        Difficulty::Ultimate => ultimate_step(g),
    }
}

/// Where a player of tier `d` gets with `n` deductions.
pub open spec fn played(d: Difficulty, g: Grid, n: nat) -> Grid
    decreases n,
{
    if n == 0 {
        g
    } else {
        played(d, tier_step(d, g), (n - 1) as nat)
    }
}

/// The first `k` techniques say nothing.
spec fn is_quiet(g: Grid, k: int) -> bool {
    forall|j: int| 0 <= j < k ==> #[trigger] grade::technique(g, j) == g
}

/// The techniques by their numbers.
proof fn lemma_quiet(g: Grid, k: int)
    requires
        is_quiet(g, k),
    ensures
        k > 0 ==> singles::naked_singles(g) == g,
        k > 1 ==> singles::hidden_singles(g) == g,
        k > 2 ==> locked::locked_candidates(g) == g,
        k > 3 ==> subsets::naked_subsets(g, 2) == g,
        k > 4 ==> subsets::hidden_subsets(g, 2) == g,
        k > 5 ==> subsets::naked_subsets(g, 3) == g,
        k > 6 ==> subsets::hidden_subsets(g, 3) == g,
        k > 7 ==> subsets::naked_subsets(g, 4) == g,
        k > 8 ==> subsets::hidden_subsets(g, 4) == g,
        k > 9 ==> fish::fish(g, 2) == g,
        k > 10 ==> chains::single_digit_chains(g) == g,
        k > 11 ==> fish::fish(g, 3) == g,
        k > 12 ==> wings::xy_wing(g) == g,
        k > 13 ==> wings::xyz_wing(g) == g,
        k > 14 ==> rectangle::unique_rectangles(g) == g,
        k > 15 ==> wings::w_wing(g) == g,
        k > 16 ==> fish::fish(g, 4) == g,
{
    assert(k > 0 ==> grade::technique(g, 0) == g);
    assert(k > 1 ==> grade::technique(g, 1) == g);
    assert(k > 2 ==> grade::technique(g, 2) == g);
    assert(k > 3 ==> grade::technique(g, 3) == g);
    assert(k > 4 ==> grade::technique(g, 4) == g);
    assert(k > 5 ==> grade::technique(g, 5) == g);
    assert(k > 6 ==> grade::technique(g, 6) == g);
    assert(k > 7 ==> grade::technique(g, 7) == g);
    assert(k > 8 ==> grade::technique(g, 8) == g);
    assert(k > 9 ==> grade::technique(g, 9) == g);
    assert(k > 10 ==> grade::technique(g, 10) == g);
    assert(k > 11 ==> grade::technique(g, 11) == g);
    assert(k > 12 ==> grade::technique(g, 12) == g);
    assert(k > 13 ==> grade::technique(g, 13) == g);
    assert(k > 14 ==> grade::technique(g, 14) == g);
    assert(k > 15 ==> grade::technique(g, 15) == g);
    assert(k > 16 ==> grade::technique(g, 16) == g);
}

/// The next move of a run is the deduction of every tier that allows it, and of no other.
proof fn lemma_tier_step(d: Difficulty, g: Grid)
    requires
        grid::wf(g),
        d != Difficulty::Ultimate,
    ensures
        match grade::next_move(g) {
            Move::Solved => grid::solved(g) && tier_step(d, g) == g,
            Move::Stuck => !grid::solved(g) && tier_step(d, g) == g,
            Move::Deduce(tier, h) => !grid::solved(g) && tier_step(d, g) == if difficulty::rank(
                tier,
            ) <= difficulty::rank(d) {
                h
            } else {
                g
            },
        },
{
    match grade::next_technique(g) {
        Some(k) => {
            assert(grade::is_next(g, k));
            assert(is_quiet(g, k));
            lemma_quiet(g, k);
            if grid::solved(g) {
                grade_laws::lemma_full(g);
            }
        },
        None => {
            assert(is_quiet(g, 17)) by {
                lemma_nothing_next(g, 17);
            }
            lemma_quiet(g, 17);
            if grid::solved(g) {
                assert forall|i: int| !(#[trigger] bifurcation::is_branch(g, i)) by {}
                assert(bifurcation::bifurcate(g, 1) == g);
            }
        },
    }
}

proof fn lemma_nothing_next(g: Grid, k: int)
    requires
        grade::next_technique(g) is None,
        0 <= k <= 17,
    ensures
        is_quiet(g, k),
    decreases k,
{
    if k > 0 {
        lemma_nothing_next(g, k - 1);
        assert(!grade::is_next(g, k - 1));
    }
}

proof fn lemma_full_stays(d: Difficulty, g: Grid, n: nat)
    requires
        grid::wf(g),
        grid::solved(g),
        d != Difficulty::Ultimate,
    ensures
        played(d, g, n) == g,
    decreases n,
{
    if n > 0 {
        grade_laws::lemma_full(g);
        lemma_tier_step(d, g);
        lemma_full_stays(d, g, (n - 1) as nat);
    }
}

proof fn lemma_stuck_stays(d: Difficulty, g: Grid, n: nat)
    requires
        tier_step(d, g) == g,
    ensures
        played(d, g, n) == g,
    decreases n,
{
    if n > 0 {
        lemma_stuck_stays(d, g, (n - 1) as nat);
    }
}

proof fn lemma_played(d: Difficulty, g: Grid, hardest: Difficulty, n: nat)
    requires
        grid::wf(g),
        d != Difficulty::Ultimate,
        difficulty::rank(hardest) <= difficulty::rank(d),
    ensures
        difficulty::rank(grade::grade(g, None, hardest, n).0) <= difficulty::rank(d) <==> n > 0
            && grid::solved(played(d, g, (n - 1) as nat)),
    decreases n,
{
    if n > 0 {
        lemma_tier_step(d, g);
        grade::lemma_next_move(g);
        match grade::next_move(g) {
            Move::Solved => {
                lemma_full_stays(d, g, (n - 1) as nat);
            },
            Move::Stuck => {
                lemma_stuck_stays(d, g, (n - 1) as nat);
            },
            Move::Deduce(tier, h) => {
                let top = difficulty::harder_of(hardest, tier);
                if difficulty::rank(tier) <= difficulty::rank(d) {
                    lemma_played(d, h, top, (n - 1) as nat);
                } else {
                    grade_laws::lemma_rating_grows(h, None, top, (n - 1) as nat);
                    lemma_stuck_stays(d, g, (n - 1) as nat);
                }
            },
        }
    }
}

/// A board is rated no harder than tier `d` exactly where a player who always makes the
/// easiest deduction, and knows the techniques up to that tier, fills it with fewer than
/// four hundred deductions. What no such player fills is rated Ultimate.
pub proof fn law_rating_is_what_a_player_needs(b: Seq<u8>, d: Difficulty)
    requires
        b.len() == 81,
        d != Difficulty::Ultimate,
    ensures
        difficulty::rank(grade::rating(b, None)) <= difficulty::rank(d) <==> grid::solved(
            played(d, grid::start_grid(b), 399),
        ),
        grade::rating(b, None) == Difficulty::Ultimate <==> !grid::solved(
            played(Difficulty::Grandmaster, grid::start_grid(b), 399),
        ),
{
    grid::lemma_start(b);
    lemma_played(d, grid::start_grid(b), Difficulty::Easy, 400);
    lemma_played(Difficulty::Grandmaster, grid::start_grid(b), Difficulty::Easy, 400);
}

} // verus!
