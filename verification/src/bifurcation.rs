//! Bounded "what if" trials: a candidate is tried, cheap techniques run until they
//! stall, and a candidate that leads to a contradiction is given up.

use crate::board::CELLS;
use crate::grid;
use crate::grid::Grid;
use crate::locked;
use crate::mask;
use crate::seqs;
use crate::singles;
use crate::solver;
use crate::solver::Solver;
use crate::subset_laws;
use crate::subsets;
use vstd::prelude::*;

verus! {

/// `h` where it differs from `g`, and otherwise `k`.
pub open spec fn or_else(g: Grid, h: Grid, k: Grid) -> Grid {
    if h != g {
        h
    } else {
        k
    }
}

/// The first of the cheap techniques that changes the grid: singles, locked
/// candidates, pairs.
pub open spec fn cheap(g: Grid) -> Grid {
    or_else(
        g,
        singles::naked_singles(g),
        or_else(
            g,
            singles::hidden_singles(g),
            or_else(
                g,
                locked::locked_candidates(g),
                or_else(g, subsets::naked_subsets(g, 2), subsets::hidden_subsets(g, 2)),
            ),
        ),
    )
}

pub proof fn lemma_cheap(g: Grid)
    requires
        grid::wf(g),
    ensures
        grid::follows(g, cheap(g)),
        grid::weight(cheap(g)) <= grid::weight(g),
        cheap(g) != g ==> grid::weight(cheap(g)) < grid::weight(g),
{
    singles::lemma_naked_singles(g);
    singles::lemma_hidden_singles(g);
    locked::lemma_locked_candidates(g);
    subsets::lemma_naked_subsets(g, 2);
    subsets::lemma_hidden_subsets(g, 2);
    grid::lemma_progress(g, cheap(g));
}

/// An empty cell with a choice of candidates.
pub open spec fn is_choice(g: Grid, i: int) -> bool {
    0 <= i < 81 && g.cells[i] == 0 && g.cands[i].len() >= 2
}

/// The first of the cells with a choice that have the fewest candidates.
pub open spec fn is_branch(g: Grid, i: int) -> bool {
    is_choice(g, i) && forall|j: int| #[trigger]
        is_choice(g, j) ==> g.cands[i].len() < g.cands[j].len() || (g.cands[i].len()
            == g.cands[j].len() && i <= j)
}

/// The cell to branch on, where there is a choice at all.
pub open spec fn branch_cell(g: Grid) -> Option<int> {
    if exists|i: int| #[trigger] is_branch(g, i) {
        Some(choose|i: int| #[trigger] is_branch(g, i))
    } else {
        None
    }
}

/// The candidates of cell `i` other than `kept`.
pub open spec fn others_gone(i: int, kept: Set<u8>) -> spec_fn(int, u8) -> bool {
    |j: int, e: u8| j == i && !kept.contains(e)
}

/// What becomes of cell `i` when only the candidates `kept` survive their trials:
/// one survivor is placed, several replace the candidates, and none at all leaves
/// the grid alone.
pub open spec fn keep_only(g: Grid, i: int, kept: Set<u8>) -> Grid {
    if kept.len() == 0 {
        g
    } else if kept.len() == 1 {
        grid::place(g, i, kept.choose())
    } else {
        grid::without(g, others_gone(i, kept))
    }
}

/// A trial of the grid with `budget` further levels: whether it still looks viable,
/// and the grid that it ends in. The cheap techniques run until they stall. Then a
/// level is spent on a bifurcation, if there is one left, and if that helps they run
/// again.
pub open spec fn trial(g: Grid, budget: nat) -> (bool, Grid)
    decreases budget, grid::weight(g), 2nat,
    when grid::wf(g)
{
    let h = cheap(g);
    proof {
        lemma_cheap(g);
    }
    if grid::contradictory(h) {
        (false, h)
    } else if grid::solved(h) {
        (true, h)
    } else if h != g {
        trial(h, budget)
    } else if budget == 0 {
        (true, h)
    } else {
        let k = bifurcate(h, budget);
        if k == h {
            (true, h)
        } else {
            trial(k, (budget - 1) as nat)
        }
    }
}

/// The candidates of cell `i` whose trial stays viable.
pub open spec fn survivors(g: Grid, i: int, budget: nat) -> Set<u8>
    decreases budget, grid::weight(g), 0nat,
{
    if budget == 0 {
        g.cands[i]
    } else {
        Set::new(
            |d: u8|
                g.cands[i].contains(d) && trial(grid::place(g, i, d), (budget - 1) as nat).0,
        )
    }
}

/// Tries every candidate of the branch cell with one level less, and keeps those
/// that survive.
pub open spec fn bifurcate(g: Grid, budget: nat) -> Grid
    decreases budget, grid::weight(g), 1nat,
{
    if budget == 0 {
        g
    } else {
        match branch_cell(g) {
            Some(i) => keep_only(g, i, survivors(g, i, budget)),
            None => g,
        }
    }
}

pub proof fn lemma_survivors(g: Grid, i: int, budget: nat)
    requires
        grid::wf(g),
        0 <= i < 81,
    ensures
        survivors(g, i, budget).finite(),
        survivors(g, i, budget).subset_of(g.cands[i]),
        survivors(g, i, budget).len() <= g.cands[i].len(),
{
    grid::lemma_cands_finite(g, i);
    vstd::set_lib::lemma_len_subset(survivors(g, i, budget), g.cands[i]);
}

pub proof fn lemma_keep_only(g: Grid, i: int, kept: Set<u8>)
    requires
        grid::wf(g),
        is_choice(g, i),
        kept.finite(),
        kept.subset_of(g.cands[i]),
    ensures
        grid::follows(g, keep_only(g, i, kept)),
        kept.len() == 1 ==> keep_only(g, i, kept) != g,
        kept.len() > 1 ==> (keep_only(g, i, kept) != g <==> kept.len() < g.cands[i].len()),
{
    if kept.len() == 0 {
    } else if kept.len() == 1 {
        let d = kept.choose();
        assert(kept.contains(d));
        assert(g.cands[i].contains(d));
        grid::lemma_place(g, i, d);
    } else {
        let h = keep_only(g, i, kept);
        grid::lemma_without(g, others_gone(i, kept));
        grid::lemma_cands_finite(g, i);
        assert(h.cands[i] =~= kept);
        vstd::set_lib::lemma_len_subset(kept, g.cands[i]);
        if kept.len() == g.cands[i].len() {
            vstd::set_lib::lemma_subset_equality(kept, g.cands[i]);
            assert forall|j: int| 0 <= j < 81 implies h.cands[j] == g.cands[j] by {
                assert(h.cands[j] =~= g.cands[j]);
            }
            assert(h.cands =~= g.cands);
            assert(h == g);
        }
    }
}

pub proof fn lemma_bifurcate(g: Grid, budget: nat)
    requires
        grid::wf(g),
    ensures
        grid::follows(g, bifurcate(g, budget)),
{
    if budget > 0 {
        if let Some(i) = branch_cell(g) {
            assert(is_branch(g, i));
            lemma_survivors(g, i, budget);
            lemma_keep_only(g, i, survivors(g, i, budget));
        }
    }
}

// ---- Laws ----

/// A grid that some solution fits is not contradictory.
proof fn lemma_fits_sane(g: Grid, f: Seq<u8>)
    requires
        grid::fits(g, f),
    ensures
        !grid::contradictory(g),
{
    if grid::contradictory(g) {
        let i = choose|i: int|
            #![trigger g.cells[i]]
            0 <= i < 81 && g.cells[i] == 0 && g.cands[i] == Set::<u8>::empty();
        assert(g.cands[i].contains(f[i]));
    }
}

/// The cheap techniques never rule out a solution.
pub proof fn law_cheap_sound(g: Grid, f: Seq<u8>)
    requires
        grid::wf(g),
        grid::fits(g, f),
    ensures
        grid::fits(cheap(g), f),
{
    singles::law_naked_singles_sound(g, f);
    singles::law_hidden_singles_sound(g, f);
    locked::law_locked_candidates_sound(g, f);
    subset_laws::law_naked_subsets_sound(g, f, 2);
    subset_laws::law_hidden_subsets_sound(g, f, 2);
}

/// A trial of a grid with a solution stays viable, and ends in a grid that the
/// solution still fits.
pub proof fn law_trial_sound(g: Grid, f: Seq<u8>, budget: nat)
    requires
        grid::wf(g),
        grid::fits(g, f),
    ensures
        trial(g, budget).0,
        grid::fits(trial(g, budget).1, f),
    decreases budget, grid::weight(g), 2nat,
{
    let h = cheap(g);
    lemma_cheap(g);
    law_cheap_sound(g, f);
    lemma_fits_sane(h, f);
    if grid::solved(h) {
    } else if h != g {
        law_trial_sound(h, f, budget);
    } else if budget > 0 {
        law_bifurcation_sound(h, f, budget);
        lemma_bifurcate(h, budget);
        if bifurcate(h, budget) != h {
            law_trial_sound(bifurcate(h, budget), f, (budget - 1) as nat);
        }
    }
}

/// Bifurcation never rules out a solution: the solution's own digit survives its
/// trial.
pub proof fn law_bifurcation_sound(g: Grid, f: Seq<u8>, budget: nat)
    requires
        grid::wf(g),
        grid::fits(g, f),
    ensures
        grid::fits(bifurcate(g, budget), f),
        budget > 0 ==> (branch_cell(g) matches Some(i) ==> survivors(g, i, budget).contains(f[i])),
    decreases budget, grid::weight(g), 1nat,
{
    if budget > 0 {
        if let Some(i) = branch_cell(g) {
            assert(is_branch(g, i));
            let kept = survivors(g, i, budget);
            lemma_survivors(g, i, budget);
            assert(g.cands[i].contains(f[i]));
            grid::lemma_place(g, i, f[i]);
            grid::lemma_place_fits(g, i, f);
            law_trial_sound(grid::place(g, i, f[i]), f, (budget - 1) as nat);
            assert(kept.contains(f[i]));
            if kept.len() == 1 {
                seqs::lemma_singleton(kept, f[i]);
            } else if kept.len() > 1 {
                grid::lemma_without_fits(g, others_gone(i, kept), f);
            }
        }
    }
}

/// A candidate of the branch cell whose trial fails is given up, where another
/// survives.
pub proof fn law_dead_candidate_goes(g: Grid, i: int, d: u8, budget: nat)
    requires
        grid::wf(g),
        budget > 0,
        branch_cell(g) == Some(i),
        g.cands[i].contains(d),
        !trial(grid::place(g, i, d), (budget - 1) as nat).0,
        survivors(g, i, budget) != Set::<u8>::empty(),
    ensures
        bifurcate(g, budget) != g,
        !bifurcate(g, budget).cands[i].contains(d),
        bifurcate(g, budget).cells[i] != d,
{
    assert(is_branch(g, i));
    let kept = survivors(g, i, budget);
    lemma_survivors(g, i, budget);
    lemma_keep_only(g, i, kept);
    assert(!kept.contains(d));
    if kept.len() == 0 {
        assert(kept =~= Set::<u8>::empty());
    } else if kept.len() == 1 {
        assert(kept.contains(kept.choose()));
    } else {
        assert(!bifurcate(g, budget).cands[i].contains(d));
    }
}

/// A trial that stalls with levels left gives up a candidate of the branch cell that
/// fails with one level less, where another survives.
pub proof fn law_stalled_trial_goes_on(g: Grid, i: int, d: u8, budget: nat)
    requires
        grid::wf(g),
        budget > 0,
        cheap(g) == g,
        !grid::contradictory(g),
        !grid::solved(g),
        branch_cell(g) == Some(i),
        g.cands[i].contains(d),
        !trial(grid::place(g, i, d), (budget - 1) as nat).0,
        survivors(g, i, budget) != Set::<u8>::empty(),
    ensures
        trial(g, budget) == trial(bifurcate(g, budget), (budget - 1) as nat),
        !trial(g, budget).1.cands[i].contains(d),
        trial(g, budget).1.cells[i] != d,
{
    let k = bifurcate(g, budget);
    law_dead_candidate_goes(g, i, d, budget);
    lemma_bifurcate(g, budget);
    lemma_trial_follows(k, (budget - 1) as nat);
    assert(is_branch(g, i));
    let end = trial(g, budget).1;
    assert(grid::refines(end, k));
    if k.cells[i] != 0 {
        assert(end.cells[i] == k.cells[i]);
    } else if end.cells[i] != 0 {
        assert(k.cands[i].contains(end.cells[i]));
    } else {
        assert(d != 0);
    }
}

proof fn lemma_trial_follows(g: Grid, budget: nat)
    requires
        grid::wf(g),
    ensures
        grid::follows(g, trial(g, budget).1),
    decreases budget, grid::weight(g),
{
    let h = cheap(g);
    lemma_cheap(g);
    if grid::contradictory(h) || grid::solved(h) {
    } else if h != g {
        lemma_trial_follows(h, budget);
        grid::lemma_chain(g, h, trial(h, budget).1);
    } else if budget > 0 {
        let less = (budget - 1) as nat;
        let k = bifurcate(h, budget);
        lemma_bifurcate(h, budget);
        if k != h {
            lemma_trial_follows(k, less);
            grid::lemma_chain(g, k, trial(k, less).1);
        }
    }
}

// ---- Execution ----

impl Solver {
    /// The first of the cells with a choice that have the fewest candidates.
    fn branch(&self) -> (best: Option<usize>)
        ensures
            match best {
                Some(i) => is_branch(self@, i as int) && branch_cell(self@) == Some(i as int),
                None => branch_cell(self@) is None,
            },
    {
        let mut best: Option<usize> = None;
        let mut i: usize = 0;
        while i < CELLS
            invariant
                i <= 81,
                match best {
                    Some(b) => b < i && is_choice(self@, b as int) && forall|j: int|
                        j < i && #[trigger] is_choice(self@, j) ==> self@.cands[b as int].len()
                            < self@.cands[j].len() || (self@.cands[b as int].len()
                            == self@.cands[j].len() && b <= j),
                    None => forall|j: int| j < i ==> !#[trigger] is_choice(self@, j),
                },
            decreases 81 - i,
        {
            if self.cell(i) == 0 {
                let n: usize = mask::count(self.mask(i));
                if n >= 2 {
                    let better = match best {
                        None => true,
                        Some(b) => n < mask::count(self.mask(b)),
                    };
                    if better {
                        best = Some(i);
                    }
                }
            }
            i = i + 1;
        }
        proof {
            match best {
                Some(b) => {
                    assert(is_branch(self@, b as int));
                    let c = choose|c: int| #[trigger] is_branch(self@, c);
                    assert(is_branch(self@, c));
                    assert(is_choice(self@, c) && is_choice(self@, b as int));
                },
                None => {
                    assert forall|c: int| !#[trigger] is_branch(self@, c) by {
                        assert(!is_choice(self@, c));
                    }
                },
            }
        }
        best
    }

    /// The first of the cheap techniques that makes progress: singles, locked
    /// candidates, pairs.
    pub fn apply_cheap_techniques(&mut self) -> (progressed: bool)
        requires
            grid::wf(old(self)@),
        ensures
            final(self)@ == cheap(old(self)@),
            progressed == (final(self)@ != old(self)@),
            grid::follows(old(self)@, final(self)@),
    {
        self.apply_naked_singles() || self.apply_hidden_singles() || self.apply_locked_candidates()
            || self.apply_naked_subsets(2) || self.apply_hidden_subsets(2)
    }

    /// Runs the cheap techniques until they stall, and then, while the budget
    /// lasts, bifurcates. Reports whether the grid still looks viable: `false` only
    /// where some cell is left without candidates.
    pub fn run_contradiction_check(&mut self, depth_budget: u8) -> (viable: bool)
        requires
            grid::wf(old(self)@),
        ensures
            (viable, final(self)@) == trial(old(self)@, depth_budget as nat),
            grid::follows(old(self)@, final(self)@),
            forall|f: Seq<u8>| #[trigger]
                grid::fits(old(self)@, f) ==> viable && grid::fits(final(self)@, f),
        decreases depth_budget, 1nat,
    {
        let ghost g = self@;
        proof {
            assert forall|f: Seq<u8>| #[trigger] grid::fits(g, f) implies trial(
                g,
                depth_budget as nat,
            ).0 && grid::fits(trial(g, depth_budget as nat).1, f) by {
                law_trial_sound(g, f, depth_budget as nat);
            }
        }
        let mut budget: u8 = depth_budget;
        loop
            invariant
                g == old(self)@,
                grid::wf(g),
                grid::follows(g, self@),
                budget <= depth_budget,
                trial(g, depth_budget as nat) == trial(self@, budget as nat),
                forall|f: Seq<u8>| #[trigger]
                    grid::fits(g, f) ==> trial(g, depth_budget as nat).0 && grid::fits(
                        trial(g, depth_budget as nat).1,
                        f,
                    ),
            decreases budget, grid::weight(self@),
        {
            let ghost h = self@;
            proof {
                lemma_cheap(h);
                grid::lemma_chain(g, h, cheap(h));
            }
            let progressed = self.apply_cheap_techniques();
            if self.has_contradiction() {
                return false;
            }
            if self.is_solved() {
                return true;
            }
            if progressed {
                continue;
            }
            if budget == 0 {
                return true;
            }
            proof {
                lemma_bifurcate(h, budget as nat);
                grid::lemma_chain(g, h, bifurcate(h, budget as nat));
            }
            if !self.apply_bifurcation(budget) {
                return true;
            }
            budget = budget - 1;
        }
    }

    /// Tries each candidate of the first cell with the fewest candidates to choose
    /// from, with one level less. A single survivor is placed, several replace the
    /// candidates, and nothing is done where none survives.
    pub fn apply_bifurcation(&mut self, depth_budget: u8) -> (progressed: bool)
        requires
            grid::wf(old(self)@),
        ensures
            final(self)@ == bifurcate(old(self)@, depth_budget as nat),
            progressed == (final(self)@ != old(self)@),
            grid::follows(old(self)@, final(self)@),
            forall|f: Seq<u8>| #[trigger]
                grid::fits(old(self)@, f) ==> grid::fits(final(self)@, f),
        decreases depth_budget, 0nat,
    {
        proof {
            assert forall|f: Seq<u8>| #[trigger] grid::fits(self@, f) implies grid::fits(
                bifurcate(self@, depth_budget as nat),
                f,
            ) by {
                law_bifurcation_sound(self@, f, depth_budget as nat);
            }
        }
        if depth_budget == 0 {
            return false;
        }
        let idx = match self.branch() {
            Some(i) => i,
            None => {
                return false;
            },
        };
        let ghost g = self@;
        let ghost i = idx as int;
        let ghost kept = survivors(g, i, depth_budget as nat);
        proof {
            lemma_survivors(g, i, depth_budget as nat);
            lemma_keep_only(g, i, kept);
            mask::lemma_mask_consts(0);
        }
        let m = self.mask(idx);
        let mut surviving: u16 = 0;
        let mut d: u8 = 1;
        while d < 10
            invariant
                1 <= d <= 10,
                g == old(self)@,
                self@ == g,
                grid::wf(g),
                depth_budget > 0,
                i == idx,
                is_choice(g, i),
                kept == survivors(g, i, depth_budget as nat),
                mask::digits_of(m) == g.cands[i],
                forall|e: u8| #[trigger]
                    mask::digits_of(surviving).contains(e) <==> e < d && kept.contains(e),
            decreases 10 - d,
        {
            let bit: u16 = 1u16 << d;
            proof {
                mask::lemma_mask_consts(d);
                mask::lemma_mask_ops(surviving, bit);
            }
            if m & bit != 0 {
                assert(mask::digits_of(m).contains(d));
                let mut attempt = *self;
                proof {
                    grid::lemma_place(g, i, d);
                }
                attempt.place(idx, d);
                if attempt.run_contradiction_check(depth_budget - 1) {
                    surviving = surviving | bit;
                }
            } else {
                assert(!mask::digits_of(m).contains(d));
            }
            d = d + 1;
        }
        proof {
            assert forall|e: u8| kept.contains(e) implies e < 10 by {
                assert(g.cands[i].contains(e));
            }
            assert(mask::digits_of(surviving) =~= kept);
        }
        let n: usize = mask::count(surviving);
        if n == 0 {
            return false;
        }
        if n == 1 {
            let v = mask::lowest(surviving);
            proof {
                seqs::lemma_singleton(kept, v);
            }
            self.place(idx, v);
            return true;
        }
        if n < mask::count(m) {
            let mut victims: Vec<usize> = Vec::new();
            victims.push(idx);
            proof {
                let dead = mask::digits_of(!surviving);
                let gone = others_gone(i, kept);
                solver::lemma_push_members(Seq::empty(), idx);
                assert(victims@ == Seq::<usize>::empty().push(idx));
                assert forall|j: int, e: u8| 0 <= j < 81 && g.cands[j].contains(e) implies solver::hits(
                    victims@,
                    dead,
                )(j, e) == #[trigger] gone(j, e) by {
                    assert(victims@.contains(j as usize) <==> j == i);
                    mask::lemma_complement(surviving, e);
                }
                grid::lemma_same_gone(g, solver::hits(victims@, dead), gone);
            }
            return self.strike(&victims, !surviving);
        }
        false
    }
}

} // verus!
