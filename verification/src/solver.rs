//! The grid that the techniques work on, and its elementary operations.

use crate::board::{Board, CELLS};
use crate::geometry;
use crate::grid;
use crate::grid::Grid;
use crate::mask;
use vstd::prelude::*;

verus! {

/// Digits placed so far and candidate masks of the empty cells.
#[derive(Clone, Copy)]
pub struct Solver {
    cells: [u8; CELLS],
    candidates: [u16; CELLS],
}

impl View for Solver {
    type V = Grid;

    closed spec fn view(&self) -> Grid {
        Grid {
            cells: self.cells@,
            cands: Seq::new(81, |i: int| mask::digits_of(self.candidates@[i])),
        }
    }
}

impl Solver {
    proof fn lemma_view(&self)
        ensures
            self@.cells == self.cells@,
            self@.cells.len() == 81,
            self@.cands.len() == 81,
            forall|i: int| #![trigger self@.cands[i]]
                0 <= i < 81 ==> self@.cands[i] == mask::digits_of(self.candidates@[i]),
    {
    }

    /// The grid of `board` with every possible candidate.
    pub fn from_board(board: &Board) -> (s: Self)
        requires
            forall|i: int| 0 <= i < 81 ==> #[trigger] board@[i] < 16,
        ensures
            s@ == grid::start_grid(board@),
            grid::wf(s@),
    {
        let mut s = Solver { cells: board.cells, candidates: [0u16; CELLS] };
        s.recompute_all_candidates();
        s
    }

    /// Makes every digit possible in every empty cell, except where a peer holds
    /// it already.
    pub fn recompute_all_candidates(&mut self)
        requires
            forall|i: int| 0 <= i < 81 ==> #[trigger] old(self)@.cells[i] < 16,
        ensures
            final(self)@ == grid::start_grid(old(self)@.cells),
            grid::wf(final(self)@),
    {
        let ghost b = self@.cells;
        let ghost goal = grid::start_grid(b);
        let mut idx: usize = 0;
        while idx < CELLS
            invariant
                idx <= 81,
                self.cells@ == b,
                b.len() == 81,
                goal == grid::start_grid(b),
                forall|i: int| 0 <= i < 81 ==> #[trigger] b[i] < 16,
                forall|i: int|
                    0 <= i < idx ==> mask::digits_of(#[trigger] self.candidates@[i]) == goal.cands[i],
            decreases 81 - idx,
        {
            if self.cells[idx] == 0 {
                let mut m: u16 = mask::FULL_MASK;
                let mut p: usize = 0;
                proof {
                    mask::lemma_mask_consts(0);
                }
                while p < CELLS
                    invariant
                        idx < 81,
                        p <= 81,
                        self.cells@ == b,
                        b.len() == 81,
                        forall|i: int| 0 <= i < 81 ==> #[trigger] b[i] < 16,
                        forall|d: u8| #[trigger]
                            mask::digits_of(m).contains(d) <==> 1 <= d <= 9 && forall|j: int|
                                0 <= j < p && b[j] != 0 && #[trigger] geometry::peer(idx as int, j)
                                    ==> b[j] != d,
                    decreases 81 - p,
                {
                    let ghost m0 = m;
                    if geometry::is_peer(idx, p) && self.cells[p] != 0 {
                        m = m & !(1u16 << self.cells[p]);
                        proof {
                            mask::lemma_mask_ops(m0, 1u16 << b[p as int]);
                            mask::lemma_mask_consts(b[p as int]);
                        }
                    }
                    p = p + 1;
                }
                self.candidates[idx] = m;
                assert(mask::digits_of(m) =~= goal.cands[idx as int]);
            } else {
                self.candidates[idx] = 0;
                proof {
                    mask::lemma_mask_consts(0);
                    assert(mask::digits_of(0) =~= goal.cands[idx as int]);
                }
            }
            idx = idx + 1;
        }
        proof {
            self.lemma_view();
            assert(self@.cands =~= goal.cands);
            grid::lemma_start(b);
        }
    }

    /// The digit in cell `idx`, 0 where it is empty.
    pub fn cell(&self, idx: usize) -> (v: u8)
        requires
            idx < 81,
        ensures
            v == self@.cells[idx as int],
    {
        self.cells[idx]
    }

    /// The candidate mask of cell `idx`.
    pub fn mask(&self, idx: usize) -> (m: u16)
        requires
            idx < 81,
        ensures
            mask::digits_of(m) == self@.cands[idx as int],
    {
        self.candidates[idx]
    }

    /// Whether cell `idx` is empty and may become `digit`.
    pub fn allows(&self, idx: usize, digit: u8) -> (yes: bool)
        requires
            idx < 81,
            digit < 16,
        ensures
            yes == grid::open_at(self@, idx as int, digit),
    {
        self.cells[idx] == 0 && self.candidates[idx] & (1u16 << digit) != 0
    }

    /// Puts `digit` into cell `idx` and takes it from the candidates of the empty
    /// peers.
    pub fn place(&mut self, idx: usize, digit: u8)
        requires
            idx < 81,
            digit < 16,
        ensures
            final(self)@ == grid::place(old(self)@, idx as int, digit),
            grid::wf(old(self)@) && grid::open_at(old(self)@, idx as int, digit) ==> grid::follows(
                old(self)@,
                final(self)@,
            ),
    {
        let ghost g = self@;
        let ghost goal = grid::place(g, idx as int, digit);
        self.cells[idx] = digit;
        self.candidates[idx] = 0;
        let mut p: usize = 0;
        proof {
            mask::lemma_mask_consts(digit);
            old(self).lemma_view();
        }
        while p < CELLS
            invariant
                idx < 81,
                p <= 81,
                digit < 16,
                g == old(self)@,
                g.cells == old(self).cells@,
                g.cands.len() == 81,
                goal == grid::place(g, idx as int, digit),
                self.cells@ == g.cells.update(idx as int, digit),
                mask::digits_of(1u16 << digit) == set![digit],
                forall|j: int|
                    p <= j < 81 ==> mask::digits_of(#[trigger] self.candidates@[j]) == if j == idx {
                        Set::empty()
                    } else {
                        g.cands[j]
                    },
                forall|j: int|
                    0 <= j < p ==> mask::digits_of(#[trigger] self.candidates@[j]) == goal.cands[j],
            decreases 81 - p,
        {
            if geometry::is_peer(idx, p) && self.cells[p] == 0 {
                let m = self.candidates[p];
                self.candidates[p] = m & !(1u16 << digit);
                proof {
                    mask::lemma_mask_ops(m, 1u16 << digit);
                    assert(mask::digits_of(m & !(1u16 << digit)) =~= goal.cands[p as int]);
                }
            }
            p = p + 1;
        }
        proof {
            self.lemma_view();
            assert(self@.cands =~= goal.cands);
            if grid::wf(g) && grid::open_at(g, idx as int, digit) {
                grid::lemma_place(g, idx as int, digit);
            }
        }
    }

    /// Takes `digit` from the candidates of cell `idx`, and reports whether it was
    /// there.
    pub fn eliminate(&mut self, idx: usize, digit: u8) -> (gone: bool)
        requires
            idx < 81,
            digit < 16,
        ensures
            final(self)@.cells == old(self)@.cells,
            final(self)@.cands == old(self)@.cands.update(
                idx as int,
                old(self)@.cands[idx as int].remove(digit),
            ),
            gone == old(self)@.cands[idx as int].contains(digit),
            grid::wf(old(self)@) ==> grid::follows(old(self)@, final(self)@),
    {
        let bit: u16 = 1u16 << digit;
        let m = self.candidates[idx];
        proof {
            old(self).lemma_view();
            mask::lemma_mask_ops(m, bit);
            mask::lemma_mask_consts(digit);
            assert(mask::digits_of(m & !bit) =~= mask::digits_of(m).remove(digit));
            assert(mask::digits_of(m).contains(digit) == (m & bit != 0));
        }
        let gone = m & bit != 0;
        if gone {
            self.candidates[idx] = m & !bit;
        }
        proof {
            self.lemma_view();
            if !gone {
                assert(mask::digits_of(m).remove(digit) =~= mask::digits_of(m));
            }
            assert(self@.cands =~= old(self)@.cands.update(
                idx as int,
                old(self)@.cands[idx as int].remove(digit),
            ));
        }
        gone
    }

    /// Takes the digits of `m` from the candidates of every listed cell, and
    /// reports whether any of them was there.
    pub fn strike(&mut self, victims: &Vec<usize>, m: u16) -> (changed: bool)
        requires
            forall|k: int| 0 <= k < victims@.len() ==> #[trigger] victims@[k] < 81,
        ensures
            final(self)@ == grid::without(old(self)@, hits(victims@, mask::digits_of(m))),
            changed == (final(self)@ != old(self)@),
            grid::wf(old(self)@) ==> grid::follows(old(self)@, final(self)@),
    {
        let ghost g = self@;
        let ghost s = mask::digits_of(m);
        let mut changed = false;
        let mut k: usize = 0;
        proof {
            self.lemma_view();
        }
        while k < victims.len()
            invariant
                k <= victims@.len(),
                g == old(self)@,
                s == mask::digits_of(m),
                g.cands.len() == 81,
                self@.cells == g.cells,
                self@.cands.len() == 81,
                forall|n: int| 0 <= n < victims@.len() ==> #[trigger] victims@[n] < 81,
                forall|j: int, e: u8|
                    0 <= j < 81 ==> #[trigger] self@.cands[j].contains(e) == (g.cands[j].contains(e)
                        && !hits(victims@.take(k as int), s)(j, e)),
                changed == (self@ != g),
            decreases victims@.len() - k,
        {
            let i = victims[k];
            let before = self.candidates[i];
            let ghost h = self@;
            self.candidates[i] = before & !m;
            proof {
                mask::lemma_mask_ops(before, m);
                self.lemma_view();
                assert(victims@.take(k + 1) =~= victims@.take(k as int).push(i));
                assert forall|j: int, e: u8| 0 <= j < 81 implies #[trigger] self@.cands[j].contains(
                    e,
                ) == (g.cands[j].contains(e) && !hits(victims@.take(k + 1), s)(j, e)) by {
                    lemma_hits_push(victims@.take(k as int), i, s, j, e);
                    assert(h.cands[j].contains(e) == (g.cands[j].contains(e) && !hits(
                        victims@.take(k as int),
                        s,
                    )(j, e)));
                }
                if before & !m == before {
                    assert(self.candidates@ =~= self.candidates@.update(i as int, before));
                    assert(self@.cands =~= h.cands);
                    assert(self@ == h);
                } else {
                    if self@ == g {
                        assert forall|e: u8| mask::digits_of(before).contains(e)
                            == mask::digits_of(before & !m).contains(e) by {
                            assert(h.cands[i as int].contains(e) ==> g.cands[i as int].contains(e));
                            assert(self@.cands[i as int].contains(e) ==> h.cands[i as int].contains(
                                e,
                            ));
                        }
                        assert(mask::digits_of(before) =~= mask::digits_of(before & !m));
                        mask::lemma_mask_ext(before, before & !m);
                    }
                }
            }
            if self.candidates[i] != before {
                changed = true;
            }
            k = k + 1;
        }
        proof {
            assert(victims@.take(victims@.len() as int) =~= victims@);
            grid::lemma_without_is(g, hits(victims@, s), self@);
            if grid::wf(g) {
                grid::lemma_without(g, hits(victims@, s));
            }
        }
        changed
    }

    /// Whether every cell is filled.
    pub fn is_solved(&self) -> (yes: bool)
        ensures
            yes == grid::solved(self@),
    {
        let mut i: usize = 0;
        while i < CELLS
            invariant
                i <= 81,
                forall|j: int| 0 <= j < i ==> #[trigger] self@.cells[j] != 0,
            decreases 81 - i,
        {
            if self.cells[i] == 0 {
                assert(self@.cells[i as int] == 0);
                return false;
            }
            i = i + 1;
        }
        true
    }

    /// Whether some empty cell has no candidate left.
    pub fn has_contradiction(&self) -> (yes: bool)
        ensures
            yes == grid::contradictory(self@),
    {
        let mut i: usize = 0;
        proof {
            self.lemma_view();
            mask::lemma_mask_consts(0);
        }
        while i < CELLS
            invariant
                i <= 81,
                mask::digits_of(0) == Set::<u8>::empty(),
                forall|j: int| #![trigger self@.cands[j]]
                    0 <= j < 81 ==> self@.cands[j] == mask::digits_of(self.candidates@[j]),
                forall|j: int|
                    0 <= j < i ==> !(#[trigger] self@.cells[j] == 0 && self@.cands[j]
                        == Set::<u8>::empty()),
            decreases 81 - i,
        {
            if self.cells[i] == 0 && self.candidates[i] == 0 {
                assert(self@.cells[i as int] == 0);
                assert(self@.cands[i as int] == Set::<u8>::empty());
                return true;
            }
            proof {
                if self.cells@[i as int] == 0 && self@.cands[i as int] == Set::<u8>::empty() {
                    mask::lemma_mask_ext(self.candidates@[i as int], 0);
                }
            }
            i = i + 1;
        }
        false
    }
}

/// The candidates that lie in `digits` and in one of the cells `victims`.
pub open spec fn hits(victims: Seq<usize>, digits: Set<u8>) -> spec_fn(int, u8) -> bool {
    |j: int, e: u8| victims.contains(j as usize) && digits.contains(e)
}

/// The members of a list with one more element.
pub proof fn lemma_push_members(s: Seq<usize>, v: usize)
    ensures
        forall|x: usize| #[trigger] s.push(v).contains(x) <==> s.contains(x) || x == v,
{
    let w = s.push(v);
    assert forall|x: usize| #[trigger] w.contains(x) <==> s.contains(x) || x == v by {
        if s.contains(x) {
            assert(w[s.index_of(x)] == x);
        }
        if x == v {
            assert(w[s.len() as int] == x);
        }
        if w.contains(x) {
            let k = w.index_of(x);
            if k < s.len() {
                assert(s[k] == x);
            }
        }
    }
}

proof fn lemma_hits_push(victims: Seq<usize>, v: usize, digits: Set<u8>, j: int, e: u8)
    requires
        0 <= j < 81,
    ensures
        hits(victims.push(v), digits)(j, e) == (hits(victims, digits)(j, e) || (j == v
            && digits.contains(e))),
{
    lemma_push_members(victims, v);
    assert(victims.push(v).contains(j as usize) == (victims.contains(j as usize) || j == v));
}

} // verus!
