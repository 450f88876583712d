//! Naked and hidden singles.

use crate::board::CELLS;
use crate::grid;
use crate::grid::Grid;
use crate::mask;
use crate::seqs;
use crate::solver::Solver;
use crate::spots;
use vstd::prelude::*;

verus! {

/// Cell `i`, if it is empty and has one candidate left, gets it.
pub open spec fn naked_single_at(g: Grid, i: int) -> Grid {
    if g.cells[i] == 0 && g.cands[i].len() == 1 {
        grid::place(g, i, g.cands[i].choose())
    } else {
        g
    }
}

pub open spec fn naked_single_step() -> spec_fn(Grid, int) -> Grid {
    |g: Grid, i: int| naked_single_at(g, i)
}

/// Fills the cells with one candidate, in reading order.
pub open spec fn naked_singles(g: Grid) -> Grid {
    grid::sweep(g, 81, naked_single_step())
}

/// If unit `u` has one spot for `d`, that spot gets it.
pub open spec fn hidden_single_at(g: Grid, u: int, d: u8) -> Grid {
    let s = spots::spots(g, u, d);
    if s.len() == 1 {
        grid::place(g, s[0] as int, d)
    } else {
        g
    }
}

/// Step `k` looks for the digit `k % 9 + 1` in the unit `k / 9`.
pub open spec fn hidden_single_step() -> spec_fn(Grid, int) -> Grid {
    |g: Grid, k: int| hidden_single_at(g, k / 9, (k % 9 + 1) as u8)
}

/// Fills the cells that are the only spot for a digit in a unit, unit by unit
/// and digit by digit.
pub open spec fn hidden_singles(g: Grid) -> Grid {
    grid::sweep(g, 243, hidden_single_step())
}

pub proof fn lemma_naked_single_at(g: Grid, i: int)
    requires
        grid::wf(g),
        0 <= i < 81,
    ensures
        grid::follows(g, naked_single_at(g, i)),
{
    if g.cells[i] == 0 && g.cands[i].len() == 1 {
        grid::lemma_cands_finite(g, i);
        let d = g.cands[i].choose();
        assert(g.cands[i].contains(d));
        grid::lemma_place(g, i, d);
    }
}

pub proof fn lemma_naked_singles(g: Grid)
    requires
        grid::wf(g),
    ensures
        grid::follows(g, naked_singles(g)),
{
    assert forall|h: Grid, i: int| 0 <= i < 81 && grid::wf(h) implies grid::follows(
        h,
        #[trigger] naked_single_step()(h, i),
    ) by {
        lemma_naked_single_at(h, i);
    }
    grid::lemma_sweep_follows(g, 81, naked_single_step());
}

pub proof fn lemma_hidden_single_at(g: Grid, u: int, d: u8)
    requires
        grid::wf(g),
        0 <= u < 27,
        1 <= d <= 9,
    ensures
        grid::follows(g, hidden_single_at(g, u, d)),
{
    spots::lemma_spots(g, u, d);
    if spots::spots(g, u, d).len() == 1 {
        grid::lemma_place(g, spots::spots(g, u, d)[0] as int, d);
    }
}

pub proof fn lemma_hidden_singles(g: Grid)
    requires
        grid::wf(g),
    ensures
        grid::follows(g, hidden_singles(g)),
{
    assert forall|h: Grid, k: int| 0 <= k < 243 && grid::wf(h) implies grid::follows(
        h,
        #[trigger] hidden_single_step()(h, k),
    ) by {
        lemma_hidden_single_at(h, k / 9, (k % 9 + 1) as u8);
    }
    grid::lemma_sweep_follows(g, 243, hidden_single_step());
}

/// Naked singles never rule out a solution: a full grid that was possible before
/// is possible after.
pub proof fn law_naked_singles_sound(g: Grid, f: Seq<u8>)
    requires
        grid::wf(g),
        grid::fits(g, f),
    ensures
        grid::fits(naked_singles(g), f),
{
    assert forall|h: Grid, i: int| 0 <= i < 81 && grid::wf(h) implies grid::follows(
        h,
        #[trigger] naked_single_step()(h, i),
    ) by {
        lemma_naked_single_at(h, i);
    }
    assert forall|h: Grid, i: int| 0 <= i < 81 && grid::wf(h) && grid::fits(h, f) implies grid::fits(
        #[trigger] naked_single_step()(h, i),
        f,
    ) by {
        if h.cells[i] == 0 && h.cands[i].len() == 1 {
            grid::lemma_cands_finite(h, i);
            assert(h.cands[i].contains(f[i]));
            seqs::lemma_singleton(h.cands[i], f[i]);
            grid::lemma_place_fits(h, i, f);
        }
    }
    grid::lemma_sweep_fits(g, 81, naked_single_step(), f);
}

/// Hidden singles never rule out a solution.
pub proof fn law_hidden_singles_sound(g: Grid, f: Seq<u8>)
    requires
        grid::wf(g),
        grid::fits(g, f),
    ensures
        grid::fits(hidden_singles(g), f),
{
    assert forall|h: Grid, k: int| 0 <= k < 243 && grid::wf(h) implies grid::follows(
        h,
        #[trigger] hidden_single_step()(h, k),
    ) by {
        lemma_hidden_single_at(h, k / 9, (k % 9 + 1) as u8);
    }
    assert forall|h: Grid, k: int| 0 <= k < 243 && grid::wf(h) && grid::fits(h, f) implies grid::fits(
        #[trigger] hidden_single_step()(h, k),
        f,
    ) by {
        let u = k / 9;
        let d = (k % 9 + 1) as u8;
        let s = spots::spots(h, u, d);
        spots::lemma_spots(h, u, d);
        if s.len() == 1 {
            let i = spots::lemma_spot_of(h, f, u, d);
            assert(grid::open_at(h, s[0] as int, d));
            assert(s.contains(i as usize));
            grid::lemma_place_fits(h, i, f);
        }
    }
    grid::lemma_sweep_fits(g, 243, hidden_single_step(), f);
}

impl Solver {
    /// Fills every empty cell that has one candidate left, in reading order.
    pub fn apply_naked_singles(&mut self) -> (progressed: bool)
        requires
            grid::wf(old(self)@),
        ensures
            final(self)@ == naked_singles(old(self)@),
            progressed == (final(self)@ != old(self)@),
            grid::follows(old(self)@, final(self)@),
    {
        let ghost g = self@;
        let mut progressed = false;
        let mut idx: usize = 0;
        while idx < CELLS
            invariant
                idx <= 81,
                g == old(self)@,
                grid::wf(g),
                grid::follows(g, self@),
                self@ == grid::sweep(g, idx as nat, naked_single_step()),
                progressed == (self@ != g),
            decreases 81 - idx,
        {
            let ghost h = self@;
            proof {
                grid::lemma_cands_finite(h, idx as int);
                lemma_naked_single_at(h, idx as int);
                grid::lemma_chain(g, h, naked_single_at(h, idx as int));
            }
            if self.cell(idx) == 0 {
                let m = self.mask(idx);
                if mask::count(m) == 1 {
                    let digit = mask::lowest(m);
                    proof {
                        seqs::lemma_singleton(h.cands[idx as int], digit);
                        grid::lemma_place(h, idx as int, digit);
                    }
                    self.place(idx, digit);
                    progressed = true;
                }
            }
            idx = idx + 1;
        }
        progressed
    }

    /// Fills every cell that is the only place for a digit in some unit: units in
    /// order, digits in increasing order.
    pub fn apply_hidden_singles(&mut self) -> (progressed: bool)
        requires
            grid::wf(old(self)@),
        ensures
            final(self)@ == hidden_singles(old(self)@),
            progressed == (final(self)@ != old(self)@),
            grid::follows(old(self)@, final(self)@),
    {
        let ghost g = self@;
        let mut progressed = false;
        let mut k: usize = 0;
        while k < 243
            invariant
                k <= 243,
                g == old(self)@,
                grid::wf(g),
                grid::follows(g, self@),
                self@ == grid::sweep(g, k as nat, hidden_single_step()),
                progressed == (self@ != g),
            decreases 243 - k,
        {
            let ghost h = self@;
            let u: usize = k / 9;
            let d: u8 = (k % 9) as u8 + 1;
            proof {
                spots::lemma_spots(h, u as int, d);
                lemma_hidden_single_at(h, u as int, d);
                grid::lemma_chain(g, h, hidden_single_at(h, u as int, d));
            }
            let s = self.spots(u, d);
            if s.len() == 1 {
                proof {
                    grid::lemma_place(h, s@[0] as int, d);
                }
                self.place(s[0], d);
                progressed = true;
            }
            k = k + 1;
        }
        progressed
    }
}

} // verus!
