//! What a trial comes to, and what bifurcation makes of its trials.

use crate::bifurcation;
use crate::grid;
use crate::grid::Grid;
use crate::locked;
use crate::seqs;
use crate::singles;
use crate::subsets;
use vstd::prelude::*;

verus! {

// ---- Trials ----

/// Neither singles nor locked candidates nor pairs have anything to say.
pub open spec fn is_stalled(g: Grid) -> bool {
    &&& singles::naked_singles(g) == g
    &&& singles::hidden_singles(g) == g
    &&& locked::locked_candidates(g) == g
    &&& subsets::naked_subsets(g, 2) == g
    &&& subsets::hidden_subsets(g, 2) == g
}

/// The cheap techniques stall exactly where singles, locked candidates and pairs do; and
/// otherwise the easiest of these is taken.
pub proof fn law_cheap(g: Grid)
    ensures
        bifurcation::cheap(g) == g <==> is_stalled(g),
        singles::naked_singles(g) != g ==> bifurcation::cheap(g) == singles::naked_singles(g),
        singles::naked_singles(g) == g && singles::hidden_singles(g) != g ==> bifurcation::cheap(g)
            == singles::hidden_singles(g),
        singles::naked_singles(g) == g && singles::hidden_singles(g) == g
            && locked::locked_candidates(g) != g ==> bifurcation::cheap(g)
            == locked::locked_candidates(g),
        singles::naked_singles(g) == g && singles::hidden_singles(g) == g
            && locked::locked_candidates(g) == g && subsets::naked_subsets(g, 2) != g
            ==> bifurcation::cheap(g) == subsets::naked_subsets(g, 2),
        singles::naked_singles(g) == g && singles::hidden_singles(g) == g
            && locked::locked_candidates(g) == g && subsets::naked_subsets(g, 2) == g
            ==> bifurcation::cheap(g) == subsets::hidden_subsets(g, 2),
{
}

/// Some empty cell can become nothing any more.
pub open spec fn is_refuted(g: Grid) -> bool {
    exists|i: int|
        #![trigger g.cells[i]]
        0 <= i < 81 && g.cells[i] == 0 && forall|e: u8| !(#[trigger] g.cands[i].contains(e))
}

/// A grid is contradictory exactly where some empty cell can become nothing.
pub proof fn law_contradiction(g: Grid)
    ensures
        grid::contradictory(g) <==> is_refuted(g),
{
    if grid::contradictory(g) {
        let i = choose|i: int|
            #![trigger g.cells[i]]
            0 <= i < 81 && g.cells[i] == 0 && g.cands[i] == Set::<u8>::empty();
        assert(forall|e: u8| !(#[trigger] g.cands[i].contains(e)));
    }
    if is_refuted(g) {
        let i = choose|i: int|
            #![trigger g.cells[i]]
            0 <= i < 81 && g.cells[i] == 0 && forall|e: u8| !(#[trigger] g.cands[i].contains(e));
        assert(g.cands[i] =~= Set::<u8>::empty());
    }
}

/// A bifurcation of the stalled grid `m` was what the trial went on with.
pub open spec fn is_turn(g: Grid, m: Grid, budget: nat) -> bool {
    &&& budget > 0
    &&& grid::follows(g, m)
    &&& is_stalled(m)
    &&& bifurcation::bifurcate(m, budget) != m
    &&& bifurcation::trial(g, budget) == bifurcation::trial(
        bifurcation::bifurcate(m, budget),
        (budget - 1) as nat,
    )
}

/// A trial ends in a grid that follows from the one tried. It is given up exactly where
/// some empty cell of that grid can become nothing. Otherwise that grid is full, or the
/// cheap techniques are stalled in it; and then a level that was left was spent, or did
/// not help.
pub proof fn law_trial(g: Grid, budget: nat)
    requires
        grid::wf(g),
    ensures
        ({
            let (viable, end) = bifurcation::trial(g, budget);
            &&& grid::follows(g, end)
            &&& !viable <==> is_refuted(end)
            &&& viable && !grid::solved(end) ==> is_stalled(end)
            &&& viable && !grid::solved(end) && budget > 0 ==> bifurcation::bifurcate(end, budget)
                == end || exists|m: Grid| #[trigger] is_turn(g, m, budget)
        }),
    decreases budget, grid::weight(g),
{
    let h = bifurcation::cheap(g);
    let end = bifurcation::trial(g, budget).1;
    bifurcation::lemma_cheap(g);
    law_cheap(g);
    law_contradiction(h);
    if grid::contradictory(h) || grid::solved(h) {
    } else if h != g {
        law_trial(h, budget);
        grid::lemma_chain(g, h, end);
        if exists|m: Grid| #[trigger] is_turn(h, m, budget) {
            let m = choose|m: Grid| #[trigger] is_turn(h, m, budget);
            grid::lemma_chain(g, h, m);
            assert(is_turn(g, m, budget));
        }
    } else if budget > 0 {
        bifurcation::lemma_bifurcate(h, budget);
        let k = bifurcation::bifurcate(h, budget);
        if k != h {
            law_trial(k, (budget - 1) as nat);
            grid::lemma_chain(g, k, end);
            assert(is_turn(g, g, budget));
        }
    }
}

// ---- Bifurcation ----

/// An empty cell that can become two different digits.
pub open spec fn is_open(g: Grid, i: int) -> bool {
    &&& 0 <= i < 81
    &&& g.cells[i] == 0
    &&& exists|d: u8, e: u8| #![trigger g.cands[i].contains(d), g.cands[i].contains(e)]
        d != e && g.cands[i].contains(d) && g.cands[i].contains(e)
}

proof fn lemma_open(g: Grid, i: int)
    requires
        grid::wf(g),
        0 <= i < 81,
    ensures
        bifurcation::is_choice(g, i) <==> is_open(g, i),
{
    let s = g.cands[i];
    grid::lemma_cands_finite(g, i);
    if s.len() >= 2 {
        let d = s.choose();
        assert(s.contains(d));
        let e = s.remove(d).choose();
        assert(s.remove(d).len() == s.len() - 1);
        assert(s.remove(d).contains(e));
        assert(s.contains(e) && d != e);
    }
    if is_open(g, i) {
        let (d, e) = choose|d: u8, e: u8|
            #![trigger g.cands[i].contains(d), g.cands[i].contains(e)]
            d != e && g.cands[i].contains(d) && g.cands[i].contains(e);
        assert(s.remove(d).contains(e));
        assert(s.remove(d).remove(e).len() + 2 == s.len());
    }
}

proof fn lemma_smallest(g: Grid, n: int) -> (i: int)
    requires
        0 <= n <= 81,
        exists|j: int| j < n && #[trigger] bifurcation::is_choice(g, j),
    ensures
        i < n,
        bifurcation::is_choice(g, i),
        forall|j: int|
            j < n && #[trigger] bifurcation::is_choice(g, j) ==> g.cands[i].len() < g.cands[j].len()
                || (g.cands[i].len() == g.cands[j].len() && i <= j),
    decreases n,
{
    if exists|j: int| j < n - 1 && #[trigger] bifurcation::is_choice(g, j) {
        let i = lemma_smallest(g, n - 1);
        if bifurcation::is_choice(g, n - 1) && g.cands[n - 1].len() < g.cands[i].len() {
            n - 1
        } else {
            i
        }
    } else {
        n - 1
    }
}

/// Bifurcation branches on a cell whenever one can become two different digits: on one
/// that can become as few as any, and of these on the first.
pub proof fn law_branch_cell(g: Grid)
    requires
        grid::wf(g),
    ensures
        bifurcation::branch_cell(g) is None <==> forall|j: int| !(#[trigger] is_open(g, j)),
        bifurcation::branch_cell(g) matches Some(i) ==> is_open(g, i) && forall|j: int| #[trigger]
            is_open(g, j) ==> g.cands[i].len() <= g.cands[j].len() && (g.cands[j].len()
                == g.cands[i].len() ==> i <= j),
{
    assert forall|j: int| #[trigger] is_open(g, j) implies bifurcation::is_choice(g, j) by {
        lemma_open(g, j);
    }
    if exists|j: int| #[trigger] is_open(g, j) {
        let j = choose|j: int| #[trigger] is_open(g, j);
        assert(bifurcation::is_choice(g, j));
        let i = lemma_smallest(g, 81);
        assert(bifurcation::is_branch(g, i));
    }
    if let Some(i) = bifurcation::branch_cell(g) {
        assert(bifurcation::is_branch(g, i));
        lemma_open(g, i);
    }
}

/// The trial of `d` in cell `i` does not end in a grid that is refuted.
pub open spec fn survives(g: Grid, i: int, d: u8, budget: nat) -> bool {
    g.cands[i].contains(d) && !is_refuted(
        bifurcation::trial(grid::place(g, i, d), (budget - 1) as nat).1,
    )
}

proof fn lemma_survives(g: Grid, i: int, budget: nat)
    requires
        grid::wf(g),
        0 <= i < 81,
        budget > 0,
    ensures
        forall|d: u8|
            #![trigger survives(g, i, d, budget)]
            #![trigger bifurcation::survivors(g, i, budget).contains(d)]
            bifurcation::survivors(g, i, budget).contains(d) <==> survives(g, i, d, budget),
{
    let kept = bifurcation::survivors(g, i, budget);
    assert forall|d: u8|
        #![trigger survives(g, i, d, budget)]
        #![trigger kept.contains(d)]
        kept.contains(d) <==> survives(g, i, d, budget) by {
        if g.cands[i].contains(d) {
            grid::lemma_place(g, i, d);
            law_trial(grid::place(g, i, d), (budget - 1) as nat);
        }
    }
}

/// Bifurcation makes progress exactly where one candidate of the branch cell survives its
/// trial and another does not. What survives stays possible, or is placed where it is the
/// only one; what does not survive goes. Unless a digit is placed, no other cell changes.
pub proof fn law_bifurcation(g: Grid, i: int, budget: nat)
    requires
        grid::wf(g),
        budget > 0,
        bifurcation::branch_cell(g) == Some(i),
    ensures
        ({
            let h = bifurcation::bifurcate(g, budget);
            &&& 0 <= i < 81
            &&& h != g <==> exists|d: u8, e: u8|
                #![trigger survives(g, i, d, budget), g.cands[i].contains(e)]
                survives(g, i, d, budget) && g.cands[i].contains(e) && !survives(g, i, e, budget)
            &&& h != g ==> forall|d: u8|
                #![trigger h.cands[i].contains(d)]
                #![trigger survives(g, i, d, budget)]
                (h.cands[i].contains(d) || h.cells[i] == d) && g.cands[i].contains(d) <==> survives(
                    g,
                    i,
                    d,
                    budget,
                )
            &&& forall|d: u8|
                h.cells[i] == d && #[trigger] g.cands[i].contains(d) ==> h == grid::place(g, i, d)
            &&& h.cells[i] == 0 ==> h.cells == g.cells && forall|j: int|
                0 <= j < 81 && j != i ==> #[trigger] h.cands[j] == g.cands[j]
            &&& h.cells[i] != 0 ==> survives(g, i, h.cells[i], budget) && forall|d: u8| #[trigger]
                survives(g, i, d, budget) ==> d == h.cells[i]
        }),
{
    assert(bifurcation::is_branch(g, i));
    let kept = bifurcation::survivors(g, i, budget);
    let h = bifurcation::bifurcate(g, budget);
    bifurcation::lemma_survivors(g, i, budget);
    bifurcation::lemma_keep_only(g, i, kept);
    grid::lemma_cands_finite(g, i);
    lemma_survives(g, i, budget);
    lemma_open(g, i);
    if kept.len() == 0 {
        assert(kept =~= Set::<u8>::empty());
        assert(forall|d: u8| !kept.contains(d));
    } else if kept.len() == 1 {
        let d = kept.choose();
        assert(kept.contains(d));
        assert forall|e: u8| kept.contains(e) implies e == d by {
            seqs::lemma_singleton(kept, e);
        }
        assert(h == grid::place(g, i, d));
        let (x, y) = choose|x: u8, y: u8|
            #![trigger g.cands[i].contains(x), g.cands[i].contains(y)]
            x != y && g.cands[i].contains(x) && g.cands[i].contains(y);
        let e = if x == d {
            y
        } else {
            x
        };
        assert(survives(g, i, d, budget) && g.cands[i].contains(e) && !survives(g, i, e, budget));
    } else {
        assert forall|j: int| 0 <= j < 81 && j != i implies #[trigger] h.cands[j] == g.cands[j] by {
            assert(h.cands[j] =~= g.cands[j]);
        }
        assert(h.cands[i] =~= kept);
        let d = kept.choose();
        assert(kept.contains(d));
        assert(survives(g, i, d, budget));
        if kept.len() < g.cands[i].len() {
            if forall|e: u8| #[trigger] g.cands[i].contains(e) ==> kept.contains(e) {
                assert(kept =~= g.cands[i]);
            }
            let e = choose|e: u8| #[trigger] g.cands[i].contains(e) && !kept.contains(e);
            assert(!survives(g, i, e, budget));
        } else {
            vstd::set_lib::lemma_subset_equality(kept, g.cands[i]);
        }
    }
}

/// Without a level to spend, or a cell to branch on, bifurcation does nothing.
pub proof fn law_no_bifurcation(g: Grid, budget: nat)
    requires
        grid::wf(g),
        budget == 0 || forall|j: int| !(#[trigger] is_open(g, j)),
    ensures
        bifurcation::bifurcate(g, budget) == g,
{
    law_branch_cell(g);
}

} // verus!
