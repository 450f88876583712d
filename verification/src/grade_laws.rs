//! What a rating means.

use crate::bifurcation;
use crate::board;
use crate::chains;
use crate::difficulty;
use crate::difficulty::Difficulty;
use crate::fish;
use crate::geometry;
use crate::grade;
use crate::grade::Move;
use crate::grid;
use crate::grid::Grid;
use crate::locked;
use crate::rectangle;
use crate::singles;
use crate::spots;
use crate::subset_laws;
use crate::wing_laws;
use vstd::prelude::*;

verus! {

// ---- Caps ----

pub proof fn lemma_rating_grows(g: Grid, cap: Option<Difficulty>, hardest: Difficulty, n: nat)
    ensures
        difficulty::rank(grade::grade(g, cap, hardest, n).0) >= difficulty::rank(hardest),
    decreases n,
{
    if n > 0 {
        if let Move::Deduce(tier, h) = grade::next_move(g) {
            lemma_rating_grows(h, cap, difficulty::harder_of(hardest, tier), (n - 1) as nat);
        }
    }
}

proof fn lemma_capped(g: Grid, c: Difficulty, hardest: Difficulty, n: nat)
    requires
        difficulty::rank(hardest) <= difficulty::rank(c),
    ensures
        ({
            let full = grade::grade(g, None, hardest, n);
            let capped = grade::grade(g, Some(c), hardest, n);
            if difficulty::rank(full.0) <= difficulty::rank(c) {
                capped == full
            } else {
                difficulty::rank(c) < difficulty::rank(capped.0) <= difficulty::rank(full.0)
            }
        }),
    decreases n,
{
    if n > 0 {
        if let Move::Deduce(tier, h) = grade::next_move(g) {
            let top = difficulty::harder_of(hardest, tier);
            lemma_rating_grows(h, None, top, (n - 1) as nat);
            if difficulty::rank(top) <= difficulty::rank(c) {
                lemma_capped(h, c, top, (n - 1) as nat);
            }
        }
    }
}

/// A capped rating is the rating where that does not exceed the cap; otherwise it
/// exceeds the cap too, but never the rating.
pub proof fn law_capped_rating(b: Seq<u8>, c: Difficulty)
    ensures
        difficulty::rank(grade::rating(b, None)) <= difficulty::rank(c) ==> grade::rating(b, Some(c))
            == grade::rating(b, None),
        difficulty::rank(grade::rating(b, None)) > difficulty::rank(c) ==> difficulty::rank(c)
            < difficulty::rank(grade::rating(b, Some(c))) <= difficulty::rank(grade::rating(b, None)),
{
    lemma_capped(grid::start_grid(b), c, Difficulty::Easy, 400);
}

// ---- The hardest step is the rating ----

/// The tiers of the deductions of an uncapped run, in order.
pub open spec fn tiers_used(g: Grid, n: nat) -> Seq<Difficulty>
    decreases n,
{
    if n == 0 {
        Seq::empty()
    } else {
        match grade::next_move(g) {
            Move::Deduce(tier, h) => seq![tier] + tiers_used(h, (n - 1) as nat),
            _ => Seq::empty(),
        }
    }
}

/// An uncapped run of at most `n` deductions fills the grid.
pub open spec fn finishes(g: Grid, n: nat) -> bool
    decreases n,
{
    n > 0 && match grade::next_move(g) {
        Move::Deduce(tier, h) => finishes(h, (n - 1) as nat),
        Move::Solved => true,
        Move::Stuck => false,
    }
}

/// The hardest of `hardest` and the tiers listed.
pub open spec fn hardest_of(hardest: Difficulty, tiers: Seq<Difficulty>) -> Difficulty
    decreases tiers.len(),
{
    if tiers.len() == 0 {
        hardest
    } else {
        hardest_of(difficulty::harder_of(hardest, tiers[0]), tiers.drop_first())
    }
}

proof fn lemma_run(g: Grid, hardest: Difficulty, n: nat)
    ensures
        grade::grade(g, None, hardest, n).0 == if finishes(g, n) {
            hardest_of(hardest, tiers_used(g, n))
        } else {
            Difficulty::Ultimate
        },
        finishes(g, n) ==> grid::solved(grade::grade(g, None, hardest, n).1),
    decreases n,
{
    if n > 0 {
        if let Move::Deduce(tier, h) = grade::next_move(g) {
            let ts = tiers_used(g, n);
            assert(ts.drop_first() =~= tiers_used(h, (n - 1) as nat));
            lemma_run(h, difficulty::harder_of(hardest, tier), (n - 1) as nat);
        }
    }
}

/// The rating is the hardest tier of the steps that fill the grid, each the easiest
/// there was; and Ultimate where the steps do not fill it.
pub proof fn law_rating_is_hardest_step(b: Seq<u8>)
    ensures
        grade::rating(b, None) == if finishes(grid::start_grid(b), 400) {
            hardest_of(Difficulty::Easy, tiers_used(grid::start_grid(b), 400))
        } else {
            Difficulty::Ultimate
        },
{
    lemma_run(grid::start_grid(b), Difficulty::Easy, 400);
}

/// A puzzle of tier `d` may need technique `k`.
pub open spec fn tier_allows(d: Difficulty, k: int) -> bool {
    0 <= k < 17 && difficulty::rank(grade::tier_of(k)) <= difficulty::rank(d)
}

/// Each tier up to Diabolical allows the techniques of the tiers below it, and some
/// more.
pub proof fn law_tiers_are_nested(a: Difficulty, b: Difficulty)
    requires
        difficulty::rank(a) < difficulty::rank(b),
    ensures
        forall|k: int| #[trigger] tier_allows(a, k) ==> tier_allows(b, k),
        difficulty::rank(b) <= difficulty::rank(Difficulty::Diabolical) ==> exists|k: int|
            #[trigger] tier_allows(b, k) && !tier_allows(a, k),
{
    let k: int = match b {
        Difficulty::Easy => 0,
        Difficulty::Medium => 2,
        Difficulty::Hard => 3,
        Difficulty::Expert => 5,
        Difficulty::Master => 9,
        Difficulty::Extreme => 11,
        Difficulty::Evil => 12,
        _ => 15,
    };
    assert(difficulty::rank(b) <= 7 ==> tier_allows(b, k) && !tier_allows(a, k));
}

// ---- A rating below Ultimate comes with a solution ----

/// The givens are digits that clash nowhere.
pub open spec fn sound_givens(b: Seq<u8>) -> bool {
    &&& b.len() == 81
    &&& forall|i: int| #![trigger b[i]] 0 <= i < 81 ==> b[i] <= 9
    &&& grid::consistent(b)
}

/// Completions of sound givens are the valid full grids that agree with them.
pub proof fn law_completions_are_valid(b: Seq<u8>, f: Seq<u8>)
    requires
        sound_givens(b),
    ensures
        board::completes(b, f) <==> board::valid_grid(f) && rectangle::agrees(b, f),
{
    if board::completes(b, f) {
        assert forall|i: int| #![trigger f[i]] 0 <= i < 81 implies 1 <= f[i] <= 9 by {
            assert(b[i] <= 9);
        }
        assert forall|i: int, j: int| 0 <= i < 81 && 0 <= j < 81 && #[trigger] geometry::peer(
            i,
            j,
        ) implies f[i] != f[j] by {
            assert(geometry::peer(j, i));
            if b[i] == 0 {
                assert(board::free_for(f, i, f[i]));
            } else if b[j] == 0 {
                assert(board::free_for(f, j, f[j]));
            } else {
                assert(f[i] == b[i] && f[j] == b[j]);
            }
        }
    }
    if board::valid_grid(f) && rectangle::agrees(b, f) {
        assert forall|i: int| #![trigger f[i]] 0 <= i < 81 && b[i] == 0 implies 1 <= f[i] <= 9
            && board::free_for(f, i, f[i]) by {}
    }
}

/// A completion of sound givens fits the starting grid.
proof fn lemma_start_fits(b: Seq<u8>, f: Seq<u8>)
    requires
        sound_givens(b),
        board::completes(b, f),
    ensures
        grid::fits(grid::start_grid(b), f),
{
    law_completions_are_valid(b, f);
    let g = grid::start_grid(b);
    assert forall|i: int| #![trigger f[i]] 0 <= i < 81 implies if g.cells[i] != 0 {
        f[i] == g.cells[i]
    } else {
        g.cands[i].contains(f[i])
    } by {
        if b[i] == 0 {
            assert forall|j: int| 0 <= j < 81 && #[trigger] geometry::peer(i, j) implies b[j]
                != f[i] by {
                assert(f[j] != f[i]);
            }
        }
    }
}

proof fn lemma_run_follows(g: Grid, cap: Option<Difficulty>, hardest: Difficulty, n: nat)
    requires
        grid::wf(g),
    ensures
        grid::follows(g, grade::grade(g, cap, hardest, n).1),
    decreases n,
{
    if n > 0 {
        grade::lemma_next_move(g);
        if let Move::Deduce(tier, h) = grade::next_move(g) {
            let top = difficulty::harder_of(hardest, tier);
            lemma_run_follows(h, cap, top, (n - 1) as nat);
            grid::lemma_chain(g, h, grade::grade(h, cap, top, (n - 1) as nat).1);
        }
    }
}

/// Where sound givens are rated below Ultimate, the grid that the run ends in is a
/// completion of them.
pub proof fn law_rated_board_is_solved(b: Seq<u8>)
    requires
        sound_givens(b),
        grade::rating(b, None) != Difficulty::Ultimate,
    ensures
        board::completes(
            b,
            grade::grade(grid::start_grid(b), None, Difficulty::Easy, 400).1.cells,
        ),
{
    let g = grid::start_grid(b);
    grid::lemma_start(b);
    lemma_run(g, Difficulty::Easy, 400);
    lemma_run_follows(g, None, Difficulty::Easy, 400);
    let h = grade::grade(g, None, Difficulty::Easy, 400).1;
    grid::law_follows_consistent(g, h);
    let f = h.cells;
    assert forall|i: int| #![trigger f[i]] 0 <= i < 81 implies 1 <= f[i] <= 9 by {
        assert(h.cells[i] != 0);
        if b[i] != 0 {
            assert(h.cells[i] == g.cells[i]);
        }
    }
    assert(board::valid_grid(f));
    assert(rectangle::agrees(b, f));
    law_completions_are_valid(b, f);
}

// ---- Solutions along a run ----

/// No technique rules out a solution. The unique rectangle is the one that needs the
/// solution to be the only one.
pub proof fn law_technique_sound(g: Grid, f: Seq<u8>, k: int)
    requires
        grid::wf(g),
        grid::fits(g, f),
        k == 14 ==> rectangle::only_grid(g.cells, f),
        0 <= k < 17,
    ensures
        grid::fits(grade::technique(g, k), f),
{
    if k == 0 {
        singles::law_naked_singles_sound(g, f);
    } else if k == 1 {
        singles::law_hidden_singles_sound(g, f);
    } else if k == 2 {
        locked::law_locked_candidates_sound(g, f);
    } else if k == 3 {
        subset_laws::law_naked_subsets_sound(g, f, 2);
    } else if k == 4 {
        subset_laws::law_hidden_subsets_sound(g, f, 2);
    } else if k == 5 {
        subset_laws::law_naked_subsets_sound(g, f, 3);
    } else if k == 6 {
        subset_laws::law_hidden_subsets_sound(g, f, 3);
    } else if k == 7 {
        subset_laws::law_naked_subsets_sound(g, f, 4);
    } else if k == 8 {
        subset_laws::law_hidden_subsets_sound(g, f, 4);
    } else if k == 9 {
        fish::law_fish_sound(g, f, 2);
    } else if k == 10 {
        chains::law_single_digit_chains_sound(g, f);
    } else if k == 11 {
        fish::law_fish_sound(g, f, 3);
    } else if k == 12 {
        wing_laws::law_xy_wing_sound(g, f);
    } else if k == 13 {
        wing_laws::law_xyz_wing_sound(g, f);
    } else if k == 14 {
        rectangle::law_unique_rectangles_sound(g, f);
    } else if k == 15 {
        wing_laws::law_w_wing_sound(g, f);
    } else if k == 16 {
        fish::law_fish_sound(g, f, 4);
    }
}

proof fn lemma_only_later(g: Grid, h: Grid, f: Seq<u8>)
    requires
        grid::wf(g),
        grid::follows(g, h),
        rectangle::only_grid(g.cells, f),
    ensures
        rectangle::only_grid(h.cells, f),
{
    assert forall|e: Seq<u8>| #[trigger] board::valid_grid(e) && rectangle::agrees(
        h.cells,
        e,
    ) implies e == f by {
        assert forall|i: int| #![trigger e[i]] 0 <= i < 81 && g.cells[i] != 0 implies e[i]
            == g.cells[i] by {
            assert(h.cells[i] == g.cells[i]);
        }
        assert(rectangle::agrees(g.cells, e));
    }
}

proof fn lemma_step_keeps(g: Grid, f: Seq<u8>)
    requires
        grid::wf(g),
        grid::fits(g, f),
        rectangle::only_grid(g.cells, f),
    ensures
        grade::next_move(g) matches Move::Deduce(tier, h) ==> grid::fits(h, f),
{
    match grade::next_technique(g) {
        Some(k) => {
            assert(grade::is_next(g, k));
            law_technique_sound(g, f, k);
        },
        None => {
            bifurcation::law_bifurcation_sound(g, f, 1);
            bifurcation::law_bifurcation_sound(g, f, 2);
        },
    }
}

proof fn lemma_run_keeps(
    g: Grid,
    f: Seq<u8>,
    cap: Option<Difficulty>,
    hardest: Difficulty,
    n: nat,
)
    requires
        grid::wf(g),
        grid::fits(g, f),
        rectangle::only_grid(g.cells, f),
    ensures
        grid::fits(grade::grade(g, cap, hardest, n).1, f),
    decreases n,
{
    if n > 0 {
        grade::lemma_next_move(g);
        lemma_step_keeps(g, f);
        if let Move::Deduce(tier, h) = grade::next_move(g) {
            let top = difficulty::harder_of(hardest, tier);
            lemma_only_later(g, h, f);
            lemma_run_keeps(h, f, cap, top, (n - 1) as nat);
        }
    }
}

/// Where sound givens have just one completion, the run keeps it possible to its
/// end, with a cap or without.
pub proof fn law_run_keeps_the_solution(b: Seq<u8>, f: Seq<u8>, cap: Option<Difficulty>)
    requires
        sound_givens(b),
        board::completions(b) == set![f],
    ensures
        grid::fits(grade::grade(grid::start_grid(b), cap, Difficulty::Easy, 400).1, f),
{
    let g = grid::start_grid(b);
    assert(board::completions(b).contains(f));
    lemma_start_fits(b, f);
    grid::lemma_start(b);
    assert forall|e: Seq<u8>| #[trigger] board::valid_grid(e) && rectangle::agrees(
        g.cells,
        e,
    ) implies e == f by {
        law_completions_are_valid(b, e);
        assert(board::completions(b).contains(e));
    }
    lemma_run_keeps(g, f, cap, Difficulty::Easy, 400);
}

/// Where sound givens have just one completion and are rated below Ultimate, the run
/// ends in that completion.
pub proof fn law_run_finds_the_solution(b: Seq<u8>, f: Seq<u8>)
    requires
        sound_givens(b),
        board::completions(b) == set![f],
        grade::rating(b, None) != Difficulty::Ultimate,
    ensures
        grade::grade(grid::start_grid(b), None, Difficulty::Easy, 400).1.cells == f,
{
    law_rated_board_is_solved(b);
    let h = grade::grade(grid::start_grid(b), None, Difficulty::Easy, 400).1;
    assert(board::completions(b).contains(h.cells));
}

// ---- The tiers below Evil ----

proof fn lemma_plain_run(g: Grid, f: Seq<u8>, hardest: Difficulty, n: nat)
    requires
        grid::wf(g),
        grid::fits(g, f),
        difficulty::rank(grade::grade(g, None, hardest, n).0) <= 5,
    ensures
        grid::fits(grade::grade(g, None, hardest, n).1, f),
    decreases n,
{
    if n > 0 {
        grade::lemma_next_move(g);
        if let Move::Deduce(tier, h) = grade::next_move(g) {
            let top = difficulty::harder_of(hardest, tier);
            lemma_rating_grows(h, None, top, (n - 1) as nat);
            let k = grade::next_technique(g)->0;
            assert(grade::next_technique(g) is Some);
            assert(grade::is_next(g, k));
            law_technique_sound(g, f, k);
            lemma_plain_run(h, f, top, (n - 1) as nat);
        }
    }
}

/// Sound givens that are rated below Evil have just one completion: no technique of
/// these tiers takes it for granted.
pub proof fn law_below_evil_has_one_solution(b: Seq<u8>)
    requires
        sound_givens(b),
        difficulty::rank(grade::rating(b, None)) < difficulty::rank(Difficulty::Evil),
    ensures
        exists|f: Seq<u8>| board::completions(b) == set![f],
{
    let g = grid::start_grid(b);
    let h = grade::grade(g, None, Difficulty::Easy, 400).1;
    law_rated_board_is_solved(b);
    grid::lemma_start(b);
    lemma_run(g, Difficulty::Easy, 400);
    lemma_run_follows(g, None, Difficulty::Easy, 400);
    let f = h.cells;
    assert forall|e: Seq<u8>| #[trigger] board::completions(b).contains(e) implies e == f by {
        lemma_start_fits(b, e);
        lemma_plain_run(g, e, Difficulty::Easy, 400);
        assert forall|i: int| 0 <= i < 81 implies e[i] == f[i] by {
            assert(h.cells[i] != 0);
        }
        assert(e =~= f);
    }
    assert(board::completions(b).contains(f));
    assert(board::completions(b) =~= set![f]);
}

// ---- Easy ----

/// The first of naked and hidden singles that changes the grid.
pub open spec fn singles_step(g: Grid) -> Grid {
    bifurcation::or_else(g, singles::naked_singles(g), singles::hidden_singles(g))
}

/// Singles, naked and hidden, until neither helps any more.
pub open spec fn singles_only(g: Grid) -> Grid
    decreases grid::weight(g),
    when grid::wf(g)
{
    let h = singles_step(g);
    proof {
        singles::lemma_naked_singles(g);
        singles::lemma_hidden_singles(g);
        grid::lemma_progress(g, h);
    }
    if h == g {
        g
    } else {
        singles_only(h)
    }
}

/// Singles that change the grid fill a cell.
proof fn lemma_singles_fill(g: Grid)
    requires
        grid::wf(g),
    ensures
        singles_step(g) != g ==> board::blanks(singles_step(g).cells) < board::blanks(g.cells),
{
    let filled = |h: Grid|
        grid::wf(h) && (h == g || board::blanks(h.cells) < board::blanks(g.cells));
    let naked = singles::naked_single_step();
    let hidden = singles::hidden_single_step();
    assert forall|h: Grid, i: int| 0 <= i < 81 && filled(h) implies filled(#[trigger] naked(h, i)) by {
        singles::lemma_naked_single_at(h, i);
        if h.cells[i] == 0 && h.cands[i].len() == 1 {
            grid::lemma_cands_finite(h, i);
            let d = h.cands[i].choose();
            assert(h.cands[i].contains(d));
            board::lemma_blanks_update(h.cells, i, d);
        }
    }
    grid::lemma_sweep(g, 81, naked, filled);
    assert forall|h: Grid, k: int| 0 <= k < 243 && filled(h) implies filled(
        #[trigger] hidden(h, k),
    ) by {
        let d = (k % 9 + 1) as u8;
        singles::lemma_hidden_single_at(h, k / 9, d);
        spots::lemma_spots(h, k / 9, d);
        let s = spots::spots(h, k / 9, d);
        if s.len() == 1 {
            assert(grid::open_at(h, s[0] as int, d));
            board::lemma_blanks_update(h.cells, s[0] as int, d);
        }
    }
    grid::lemma_sweep(g, 243, hidden, filled);
}

/// Nothing changes a grid that is full.
pub proof fn lemma_full(g: Grid)
    requires
        grid::wf(g),
        grid::solved(g),
    ensures
        grade::next_technique(g) is None,
{
    assert forall|k: int| !(#[trigger] grade::is_next(g, k)) by {
        let h = grade::technique(g, k);
        grade::lemma_technique(g, k);
        assert(h.cells =~= g.cells);
        assert forall|i: int| 0 <= i < 81 implies h.cands[i] == g.cands[i] by {
            assert(h.cells[i] != 0);
            assert(h.cands[i] =~= g.cands[i]);
        }
        assert(h.cands =~= g.cands);
    }
}

proof fn lemma_easy_run(g: Grid, n: nat)
    requires
        grid::wf(g),
        n > board::blanks(g.cells),
    ensures
        grade::grade(g, None, Difficulty::Easy, n).0 == Difficulty::Easy <==> grid::solved(
            singles_only(g),
        ),
    decreases n,
{
    let h = singles_step(g);
    singles::lemma_naked_singles(g);
    singles::lemma_hidden_singles(g);
    assert(grade::technique(g, 0) == singles::naked_singles(g));
    assert(grade::technique(g, 1) == singles::hidden_singles(g));
    if h != g {
        let k: int = if singles::naked_singles(g) != g {
            0
        } else {
            1
        };
        assert(grade::is_next(g, k));
        grade::lemma_next(g, k);
        lemma_singles_fill(g);
        lemma_easy_run(h, (n - 1) as nat);
    } else if grid::solved(g) {
        lemma_full(g);
    } else if let Move::Deduce(tier, j) = grade::next_move(g) {
        if let Some(k) = grade::next_technique(g) {
            assert(grade::is_next(g, k));
            assert(k >= 2);
        }
        lemma_rating_grows(j, None, difficulty::harder_of(Difficulty::Easy, tier), (n - 1) as nat);
    }
}

/// A board is rated Easy exactly where singles alone fill it.
pub proof fn law_easy_is_singles_only(b: Seq<u8>)
    requires
        b.len() == 81,
    ensures
        grade::rating(b, None) == Difficulty::Easy <==> grid::solved(
            singles_only(grid::start_grid(b)),
        ),
{
    grid::lemma_start(b);
    board::lemma_blanks_update(b, 0, b[0]);
    lemma_easy_run(grid::start_grid(b), 400);
}

} // verus!
