//! Locked candidates: pointing and claiming.

use crate::board::CELLS;
use crate::geometry;
use crate::grid;
use crate::grid::Grid;
use crate::mask;
use crate::solver;
use crate::solver::Solver;
use crate::spots;
use vstd::prelude::*;

verus! {

/// Digit `d` outside box `b` on the row, or the column, that all of `s` lie on.
pub open spec fn pointing_gone(s: Seq<usize>, b: int, d: u8) -> spec_fn(int, u8) -> bool {
    |j: int, e: u8|
        e == d && geometry::box_no(j) != b && ((forall|k: int|
            0 <= k < s.len() ==> geometry::row(#[trigger] s[k] as int) == geometry::row(j)) || (
        forall|k: int|
            0 <= k < s.len() ==> geometry::col(#[trigger] s[k] as int) == geometry::col(j)))
}

/// Pointing: a digit with two or more spots in box `b`, all on one row or
/// column, goes from the rest of that row or column.
pub open spec fn pointing_at(g: Grid, b: int, d: u8) -> Grid {
    let s = spots::spots(g, 18 + b, d);
    if s.len() >= 2 {
        grid::without(g, pointing_gone(s, b, d))
    } else {
        g
    }
}

/// Digit `d` outside unit `u` in the box that all of `s` lie in.
pub open spec fn claiming_gone(s: Seq<usize>, u: int, d: u8) -> spec_fn(int, u8) -> bool {
    |j: int, e: u8|
        e == d && !geometry::in_unit(u, j) && forall|k: int|
            0 <= k < s.len() ==> geometry::box_no(#[trigger] s[k] as int) == geometry::box_no(j)
}

/// Claiming: a digit with two or more spots in the row or column `u`, all in one
/// box, goes from the rest of that box.
pub open spec fn claiming_at(g: Grid, u: int, d: u8) -> Grid {
    let s = spots::spots(g, u, d);
    if s.len() >= 2 {
        grid::without(g, claiming_gone(s, u, d))
    } else {
        g
    }
}

pub open spec fn pointing_step() -> spec_fn(Grid, int) -> Grid {
    |g: Grid, k: int| pointing_at(g, k / 9, (k % 9 + 1) as u8)
}

pub open spec fn claiming_step() -> spec_fn(Grid, int) -> Grid {
    |g: Grid, k: int| claiming_at(g, k / 9, (k % 9 + 1) as u8)
}

/// Pointing for each box and digit, then claiming for each row and digit and for
/// each column and digit.
pub open spec fn locked_candidates(g: Grid) -> Grid {
    grid::sweep(grid::sweep(g, 81, pointing_step()), 162, claiming_step())
}

pub proof fn lemma_locked_steps()
    ensures
        forall|h: Grid, k: int|
            0 <= k < 81 && grid::wf(h) ==> grid::follows(h, #[trigger] pointing_step()(h, k)),
        forall|h: Grid, k: int|
            0 <= k < 162 && grid::wf(h) ==> grid::follows(h, #[trigger] claiming_step()(h, k)),
{
    assert forall|h: Grid, k: int| 0 <= k < 81 && grid::wf(h) implies grid::follows(
        h,
        #[trigger] pointing_step()(h, k),
    ) by {
        let d = (k % 9 + 1) as u8;
        grid::lemma_without(h, pointing_gone(spots::spots(h, 18 + k / 9, d), k / 9, d));
    }
    assert forall|h: Grid, k: int| 0 <= k < 162 && grid::wf(h) implies grid::follows(
        h,
        #[trigger] claiming_step()(h, k),
    ) by {
        let d = (k % 9 + 1) as u8;
        grid::lemma_without(h, claiming_gone(spots::spots(h, k / 9, d), k / 9, d));
    }
}

pub proof fn lemma_locked_candidates(g: Grid)
    requires
        grid::wf(g),
    ensures
        grid::follows(g, locked_candidates(g)),
{
    lemma_locked_steps();
    grid::lemma_sweep_follows(g, 81, pointing_step());
    let h = grid::sweep(g, 81, pointing_step());
    grid::lemma_sweep_follows(h, 162, claiming_step());
    grid::lemma_refines_trans(locked_candidates(g), h, g);
}

proof fn lemma_pointing_fits(g: Grid, f: Seq<u8>, b: int, d: u8)
    requires
        grid::wf(g),
        grid::fits(g, f),
        0 <= b < 9,
        1 <= d <= 9,
    ensures
        grid::fits(pointing_at(g, b, d), f),
{
    let u = 18 + b;
    let s = spots::spots(g, u, d);
    if s.len() >= 2 {
        spots::lemma_spots(g, u, d);
        let i = spots::lemma_spot_of(g, f, u, d);
        assert(grid::open_at(g, s[0] as int, d));
        assert(s.contains(i as usize));
        let k = s.index_of(i as usize);
        assert(s[k] as int == i);
        assert forall|j: int| #![trigger f[j]] 0 <= j < 81 && g.cells[j] == 0 implies !pointing_gone(
            s,
            b,
            d,
        )(j, f[j]) by {
            if pointing_gone(s, b, d)(j, f[j]) {
                assert(geometry::peer(i, j));
            }
        }
        grid::lemma_without_fits(g, pointing_gone(s, b, d), f);
    }
}

proof fn lemma_claiming_fits(g: Grid, f: Seq<u8>, u: int, d: u8)
    requires
        grid::wf(g),
        grid::fits(g, f),
        0 <= u < 18,
        1 <= d <= 9,
    ensures
        grid::fits(claiming_at(g, u, d), f),
{
    let s = spots::spots(g, u, d);
    if s.len() >= 2 {
        spots::lemma_spots(g, u, d);
        let i = spots::lemma_spot_of(g, f, u, d);
        assert(grid::open_at(g, s[0] as int, d));
        assert(s.contains(i as usize));
        let k = s.index_of(i as usize);
        assert(s[k] as int == i);
        assert forall|j: int| #![trigger f[j]] 0 <= j < 81 && g.cells[j] == 0 implies !claiming_gone(
            s,
            u,
            d,
        )(j, f[j]) by {
            if claiming_gone(s, u, d)(j, f[j]) {
                assert(geometry::peer(i, j));
            }
        }
        grid::lemma_without_fits(g, claiming_gone(s, u, d), f);
    }
}

/// Locked candidates never rule out a solution.
pub proof fn law_locked_candidates_sound(g: Grid, f: Seq<u8>)
    requires
        grid::wf(g),
        grid::fits(g, f),
    ensures
        grid::fits(locked_candidates(g), f),
{
    lemma_locked_steps();
    assert forall|h: Grid, k: int| 0 <= k < 81 && grid::wf(h) && grid::fits(h, f) implies grid::fits(
        #[trigger] pointing_step()(h, k),
        f,
    ) by {
        lemma_pointing_fits(h, f, k / 9, (k % 9 + 1) as u8);
    }
    assert forall|h: Grid, k: int| 0 <= k < 162 && grid::wf(h) && grid::fits(h, f) implies grid::fits(
        #[trigger] claiming_step()(h, k),
        f,
    ) by {
        lemma_claiming_fits(h, f, k / 9, (k % 9 + 1) as u8);
    }
    grid::lemma_sweep_fits(g, 81, pointing_step(), f);
    grid::lemma_sweep_follows(g, 81, pointing_step());
    grid::lemma_sweep_fits(grid::sweep(g, 81, pointing_step()), 162, claiming_step(), f);
}

impl Solver {
    fn point(&mut self, b: usize, d: u8) -> (changed: bool)
        requires
            grid::wf(old(self)@),
            b < 9,
            1 <= d <= 9,
        ensures
            final(self)@ == pointing_at(old(self)@, b as int, d),
            changed == (final(self)@ != old(self)@),
    {
        let ghost g = self@;
        let s = self.spots(18 + b, d);
        if s.len() < 2 {
            return false;
        }
        proof {
            spots::lemma_spots(g, 18 + b, d);
        }
        let r: usize = s[0] / 9;
        let c: usize = s[0] % 9;
        let mut one_row = true;
        let mut one_col = true;
        let mut k: usize = 0;
        while k < s.len()
            invariant
                k <= s@.len(),
                one_row == forall|n: int| 0 <= n < k ==> geometry::row(#[trigger] s@[n] as int) == r,
                one_col == forall|n: int| 0 <= n < k ==> geometry::col(#[trigger] s@[n] as int) == c,
            decreases s@.len() - k,
        {
            if s[k] / 9 != r {
                one_row = false;
            }
            if s[k] % 9 != c {
                one_col = false;
            }
            k = k + 1;
        }
        let mut victims: Vec<usize> = Vec::new();
        let mut i: usize = 0;
        while i < CELLS
            invariant
                i <= 81,
                forall|n: int| 0 <= n < victims@.len() ==> #[trigger] victims@[n] < i,
                forall|j: usize| #[trigger]
                    victims@.contains(j) <==> j < i && geometry::box_no(j as int) != b && ((one_row
                        && geometry::row(j as int) == r) || (one_col && geometry::col(j as int)
                        == c)),
            decreases 81 - i,
        {
            let ghost before = victims@;
            if geometry::box_of(i) != b && ((one_row && i / 9 == r) || (one_col && i % 9 == c)) {
                victims.push(i);
            }
            proof {
                solver::lemma_push_members(before, i);
            }
            i = i + 1;
        }
        proof {
            mask::lemma_mask_consts(d);
            let gone = pointing_gone(s@, b as int, d);
            assert forall|j: int, e: u8| 0 <= j < 81 implies solver::hits(victims@, set![d])(j, e)
                == #[trigger] gone(j, e) by {
                assert(victims@.contains(j as usize) || !victims@.contains(j as usize));
                assert(geometry::row(s@[0] as int) == r && geometry::col(s@[0] as int) == c);
            }
            grid::lemma_same_gone(g, solver::hits(victims@, set![d]), gone);
        }
        self.strike(&victims, 1u16 << d)
    }

    fn claim(&mut self, u: usize, d: u8) -> (changed: bool)
        requires
            grid::wf(old(self)@),
            u < 18,
            1 <= d <= 9,
        ensures
            final(self)@ == claiming_at(old(self)@, u as int, d),
            changed == (final(self)@ != old(self)@),
    {
        let ghost g = self@;
        let s = self.spots(u, d);
        if s.len() < 2 {
            return false;
        }
        let b: usize = geometry::box_of(s[0]);
        let mut one_box = true;
        let mut k: usize = 0;
        while k < s.len()
            invariant
                k <= s@.len(),
                one_box == forall|n: int|
                    0 <= n < k ==> geometry::box_no(#[trigger] s@[n] as int) == b,
            decreases s@.len() - k,
        {
            if geometry::box_of(s[k]) != b {
                one_box = false;
            }
            k = k + 1;
        }
        let mut victims: Vec<usize> = Vec::new();
        let mut i: usize = 0;
        while i < CELLS
            invariant
                i <= 81,
                u < 18,
                forall|n: int| 0 <= n < victims@.len() ==> #[trigger] victims@[n] < i,
                forall|j: usize| #[trigger]
                    victims@.contains(j) <==> j < i && one_box && geometry::box_no(j as int) == b
                        && !geometry::in_unit(u as int, j as int),
            decreases 81 - i,
        {
            let ghost before = victims@;
            let inside = if u < 9 {
                i / 9 == u
            } else {
                i % 9 == u - 9
            };
            if one_box && geometry::box_of(i) == b && !inside {
                victims.push(i);
            }
            proof {
                solver::lemma_push_members(before, i);
            }
            i = i + 1;
        }
        proof {
            mask::lemma_mask_consts(d);
            let gone = claiming_gone(s@, u as int, d);
            assert forall|j: int, e: u8| 0 <= j < 81 implies solver::hits(victims@, set![d])(j, e)
                == #[trigger] gone(j, e) by {
                assert(victims@.contains(j as usize) || !victims@.contains(j as usize));
                assert(geometry::box_no(s@[0] as int) == b);
            }
            grid::lemma_same_gone(g, solver::hits(victims@, set![d]), gone);
        }
        self.strike(&victims, 1u16 << d)
    }

    /// Locked candidates, in both directions: a digit confined to one row or
    /// column within a box leaves the rest of that row or column, and a digit
    /// confined to one box within a row or column leaves the rest of that box.
    pub fn apply_locked_candidates(&mut self) -> (progressed: bool)
        requires
            grid::wf(old(self)@),
        ensures
            final(self)@ == locked_candidates(old(self)@),
            progressed == (final(self)@ != old(self)@),
            grid::follows(old(self)@, final(self)@),
    {
        let ghost g = self@;
        let mut progressed = false;
        let mut k: usize = 0;
        proof {
            lemma_locked_steps();
        }
        while k < 81
            invariant
                k <= 81,
                g == old(self)@,
                grid::wf(g),
                grid::follows(g, self@),
                forall|h: Grid, n: int|
                    0 <= n < 81 && grid::wf(h) ==> grid::follows(
                        h,
                        #[trigger] pointing_step()(h, n),
                    ),
                self@ == grid::sweep(g, k as nat, pointing_step()),
                progressed == (self@ != g),
            decreases 81 - k,
        {
            let ghost h = self@;
            proof {
                grid::lemma_chain(g, h, pointing_step()(h, k as int));
            }
            if self.point(k / 9, (k % 9) as u8 + 1) {
                progressed = true;
            }
            k = k + 1;
        }
        let ghost mid = self@;
        k = 0;
        while k < 162
            invariant
                k <= 162,
                g == old(self)@,
                grid::wf(g),
                grid::follows(g, self@),
                forall|h: Grid, n: int|
                    0 <= n < 162 && grid::wf(h) ==> grid::follows(
                        h,
                        #[trigger] claiming_step()(h, n),
                    ),
                self@ == grid::sweep(mid, k as nat, claiming_step()),
                progressed == (self@ != g),
            decreases 162 - k,
        {
            let ghost h = self@;
            proof {
                grid::lemma_chain(g, h, claiming_step()(h, k as int));
            }
            if self.claim(k / 9, (k % 9) as u8 + 1) {
                progressed = true;
            }
            k = k + 1;
        }
        progressed
    }
}

} // verus!
