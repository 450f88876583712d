//! Naked and hidden pairs, triples and quads.

use crate::combos;
use crate::geometry;
use crate::grid;
use crate::grid::Grid;
use crate::mask;
use crate::seqs;
use crate::solver;
use crate::solver::Solver;
use vstd::prelude::*;

verus! {

// ---- Naked subsets ----

pub open spec fn is_narrow(g: Grid, size: nat) -> spec_fn(usize) -> bool {
    |i: usize| g.cells[i as int] == 0 && 2 <= g.cands[i as int].len() <= size
}

/// The empty cells of unit `u` with two to `size` candidates.
pub open spec fn pool(g: Grid, u: int, size: nat) -> Seq<usize> {
    geometry::unit(u).filter(is_narrow(g, size))
}

/// The candidates of the cells `c`, taken together.
pub open spec fn union_of(g: Grid, c: Seq<usize>) -> Set<u8> {
    Set::new(|e: u8| exists|k: int| 0 <= k < c.len() && g.cands[#[trigger] c[k] as int].contains(e))
}

/// A digit of `held` in a cell of unit `u` that is not one of `c`.
pub open spec fn naked_gone(u: int, c: Seq<usize>, held: Set<u8>) -> spec_fn(int, u8) -> bool {
    |j: int, e: u8| geometry::in_unit(u, j) && !c.contains(j as usize) && held.contains(e)
}

/// Where the cells `c` of unit `u` have just `size` candidates between them,
/// those digits go from the rest of the unit.
pub open spec fn naked_subset_at(g: Grid, u: int, c: Seq<usize>, size: nat) -> Grid {
    if union_of(g, c).len() == size {
        grid::without(g, naked_gone(u, c, union_of(g, c)))
    } else {
        g
    }
}

pub open spec fn naked_subset_step(u: int, cs: Seq<Seq<usize>>, size: nat) -> spec_fn(
    Grid,
    int,
) -> Grid {
    |g: Grid, p: int| naked_subset_at(g, u, cs[p], size)
}

/// Tries every combination of `size` cells of the unit's pool in turn.
pub open spec fn naked_unit(g: Grid, u: int, size: nat) -> Grid {
    let cs = combos::combos(pool(g, u, size), size);
    grid::sweep(g, cs.len(), naked_subset_step(u, cs, size))
}

pub open spec fn naked_unit_step(size: nat) -> spec_fn(Grid, int) -> Grid {
    |g: Grid, u: int| naked_unit(g, u, size)
}

/// Naked subsets of `size` cells, unit by unit.
pub open spec fn naked_subsets(g: Grid, size: nat) -> Grid {
    grid::sweep(g, 27, naked_unit_step(size))
}

// ---- Hidden subsets ----

/// The digits from 1 to 9.
pub open spec fn nine() -> Seq<u8> {
    Seq::new(9, |k: int| (k + 1) as u8)
}

pub open spec fn is_touched(g: Grid, ds: Set<u8>) -> spec_fn(usize) -> bool {
    |i: usize| g.cells[i as int] == 0 && exists|e: u8| ds.contains(e) && g.cands[i as int].contains(e)
}

/// The empty cells of unit `u` with a candidate in `ds`.
pub open spec fn touched(g: Grid, u: int, ds: Set<u8>) -> Seq<usize> {
    geometry::unit(u).filter(is_touched(g, ds))
}

/// A digit outside `ds` in one of the cells `c`.
pub open spec fn hidden_gone(c: Seq<usize>, ds: Set<u8>) -> spec_fn(int, u8) -> bool {
    |j: int, e: u8| c.contains(j as usize) && !ds.contains(e)
}

/// Some cell of unit `u` holds a digit of `ds` already.
pub open spec fn holds_one(g: Grid, u: int, ds: Set<u8>) -> bool {
    exists|k: int| 0 <= k < 9 && ds.contains(g.cells[#[trigger] geometry::unit(u)[k] as int])
}

/// Where no cell of unit `u` holds a digit of `ds` yet, and just `size` of its empty
/// cells have a candidate in `ds`, these lose their other candidates.
pub open spec fn hidden_subset_at(g: Grid, u: int, ds: Set<u8>, size: nat) -> Grid {
    if touched(g, u, ds).len() == size && !holds_one(g, u, ds) {
        grid::without(g, hidden_gone(touched(g, u, ds), ds))
    } else {
        g
    }
}

pub open spec fn hidden_subset_step(u: int, size: nat) -> spec_fn(Grid, int) -> Grid {
    |g: Grid, p: int| hidden_subset_at(g, u, combos::combos(nine(), size)[p].to_set(), size)
}

/// Tries every combination of `size` digits in turn.
pub open spec fn hidden_unit(g: Grid, u: int, size: nat) -> Grid {
    grid::sweep(g, combos::combos(nine(), size).len(), hidden_subset_step(u, size))
}

pub open spec fn hidden_unit_step(size: nat) -> spec_fn(Grid, int) -> Grid {
    |g: Grid, u: int| hidden_unit(g, u, size)
}

/// Hidden subsets of `size` digits, unit by unit.
pub open spec fn hidden_subsets(g: Grid, size: nat) -> Grid {
    grid::sweep(g, 27, hidden_unit_step(size))
}

// ---- What the steps keep ----

pub proof fn lemma_naked_subset_at(g: Grid, u: int, c: Seq<usize>, size: nat)
    requires
        grid::wf(g),
    ensures
        grid::follows(g, naked_subset_at(g, u, c, size)),
{
    grid::lemma_without(g, naked_gone(u, c, union_of(g, c)));
}

pub proof fn lemma_naked_unit(g: Grid, u: int, size: nat)
    requires
        grid::wf(g),
    ensures
        grid::follows(g, naked_unit(g, u, size)),
{
    let cs = combos::combos(pool(g, u, size), size);
    assert forall|h: Grid, p: int| 0 <= p < cs.len() && grid::wf(h) implies grid::follows(
        h,
        #[trigger] naked_subset_step(u, cs, size)(h, p),
    ) by {
        lemma_naked_subset_at(h, u, cs[p], size);
    }
    grid::lemma_sweep_follows(g, cs.len(), naked_subset_step(u, cs, size));
}

pub proof fn lemma_naked_subsets(g: Grid, size: nat)
    requires
        grid::wf(g),
    ensures
        grid::follows(g, naked_subsets(g, size)),
{
    assert forall|h: Grid, u: int| 0 <= u < 27 && grid::wf(h) implies grid::follows(
        h,
        #[trigger] naked_unit_step(size)(h, u),
    ) by {
        lemma_naked_unit(h, u, size);
    }
    grid::lemma_sweep_follows(g, 27, naked_unit_step(size));
}

pub proof fn lemma_hidden_subset_at(g: Grid, u: int, ds: Set<u8>, size: nat)
    requires
        grid::wf(g),
    ensures
        grid::follows(g, hidden_subset_at(g, u, ds, size)),
{
    grid::lemma_without(g, hidden_gone(touched(g, u, ds), ds));
}

pub proof fn lemma_hidden_unit(g: Grid, u: int, size: nat)
    requires
        grid::wf(g),
    ensures
        grid::follows(g, hidden_unit(g, u, size)),
{
    let n = combos::combos(nine(), size).len();
    assert forall|h: Grid, p: int| 0 <= p < n && grid::wf(h) implies grid::follows(
        h,
        #[trigger] hidden_subset_step(u, size)(h, p),
    ) by {
        lemma_hidden_subset_at(h, u, combos::combos(nine(), size)[p].to_set(), size);
    }
    grid::lemma_sweep_follows(g, n, hidden_subset_step(u, size));
}

pub proof fn lemma_hidden_subsets(g: Grid, size: nat)
    requires
        grid::wf(g),
    ensures
        grid::follows(g, hidden_subsets(g, size)),
{
    assert forall|h: Grid, u: int| 0 <= u < 27 && grid::wf(h) implies grid::follows(
        h,
        #[trigger] hidden_unit_step(size)(h, u),
    ) by {
        lemma_hidden_unit(h, u, size);
    }
    grid::lemma_sweep_follows(g, 27, hidden_unit_step(size));
}

impl Solver {
    /// The cells of unit `u`.
    fn unit_cells(u: usize) -> (v: Vec<usize>)
        requires
            u < 27,
        ensures
            v@ == geometry::unit(u as int),
    {
        if u < 9 {
            geometry::cells_in_row(u)
        } else if u < 18 {
            geometry::cells_in_col(u - 9)
        } else {
            geometry::cells_in_box(u - 18)
        }
    }

    fn narrow_cells(&self, u: usize, size: usize) -> (v: Vec<usize>)
        requires
            u < 27,
        ensures
            v@ == pool(self@, u as int, size as nat),
    {
        let cells = Self::unit_cells(u);
        let ghost pred = is_narrow(self@, size as nat);
        let mut v: Vec<usize> = Vec::new();
        let mut k: usize = 0;
        proof {
            geometry::lemma_unit(u as int);
            seqs::lemma_filter_ends(cells@, pred);
        }
        while k < 9
            invariant
                k <= 9,
                u < 27,
                cells@ == geometry::unit(u as int),
                cells@.len() == 9,
                pred == is_narrow(self@, size as nat),
                forall|n: int| 0 <= n < 9 ==> #[trigger] cells@[n] < 81,
                v@ == cells@.take(k as int).filter(pred),
            decreases 9 - k,
        {
            proof {
                seqs::lemma_filter_step(cells@, k as int, pred);
            }
            let i = cells[k];
            if self.cell(i) == 0 {
                let n = mask::count(self.mask(i));
                if n >= 2 && n <= size {
                    v.push(i);
                }
            }
            k = k + 1;
        }
        v
    }

    fn naked_subset(&mut self, u: usize, c: &Vec<usize>, size: usize) -> (changed: bool)
        requires
            grid::wf(old(self)@),
            u < 27,
            forall|k: int| 0 <= k < c@.len() ==> #[trigger] c@[k] < 81,
        ensures
            final(self)@ == naked_subset_at(old(self)@, u as int, c@, size as nat),
            changed == (final(self)@ != old(self)@),
    {
        let ghost g = self@;
        let mut held: u16 = 0;
        let mut k: usize = 0;
        proof {
            mask::lemma_mask_consts(0);
        }
        while k < c.len()
            invariant
                k <= c@.len(),
                g == self@,
                forall|n: int| 0 <= n < c@.len() ==> #[trigger] c@[n] < 81,
                forall|e: u8| #[trigger]
                    mask::digits_of(held).contains(e) <==> exists|n: int|
                        0 <= n < k && g.cands[#[trigger] c@[n] as int].contains(e),
            decreases c@.len() - k,
        {
            let m = self.mask(c[k]);
            proof {
                mask::lemma_mask_ops(held, m);
                assert forall|e: u8| #[trigger]
                    mask::digits_of(held | m).contains(e) <==> exists|n: int|
                        0 <= n < k + 1 && g.cands[#[trigger] c@[n] as int].contains(e) by {
                    if mask::digits_of(held).contains(e) {
                        let n = choose|n: int|
                            0 <= n < k && g.cands[#[trigger] c@[n] as int].contains(e);
                        assert(g.cands[c@[n] as int].contains(e));
                    }
                    if mask::digits_of(m).contains(e) {
                        assert(g.cands[c@[k as int] as int].contains(e));
                    }
                }
            }
            held = held | m;
            k = k + 1;
        }
        assert(mask::digits_of(held) =~= union_of(g, c@));
        if mask::count(held) != size {
            return false;
        }
        let cells = Self::unit_cells(u);
        let mut victims: Vec<usize> = Vec::new();
        proof {
            geometry::lemma_unit(u as int);
        }
        k = 0;
        while k < 9
            invariant
                k <= 9,
                cells@.len() == 9,
                forall|n: int| 0 <= n < 9 ==> #[trigger] cells@[n] < 81,
                forall|n: int| 0 <= n < victims@.len() ==> #[trigger] victims@[n] < 81,
                forall|j: usize| #[trigger]
                    victims@.contains(j) <==> cells@.take(k as int).contains(j) && !c@.contains(j),
            decreases 9 - k,
        {
            let ghost before = victims@;
            let i = cells[k];
            if !list_has(c, i) {
                victims.push(i);
            }
            proof {
                solver::lemma_push_members(before, i);
                assert(cells@.take(k + 1) =~= cells@.take(k as int).push(i));
                solver::lemma_push_members(cells@.take(k as int), i);
            }
            k = k + 1;
        }
        proof {
            assert(cells@.take(9) =~= cells@);
            let gone = naked_gone(u as int, c@, union_of(g, c@));
            assert forall|j: int, e: u8| 0 <= j < 81 && g.cands[j].contains(e) implies solver::hits(
                victims@,
                mask::digits_of(held),
            )(j, e) == #[trigger] gone(j, e) by {
                let cell = j as usize;
                if cells@.contains(cell) {
                    let n = cells@.index_of(cell);
                    assert(geometry::in_unit(u as int, cells@[n] as int));
                }
            }
            grid::lemma_same_gone(g, solver::hits(victims@, mask::digits_of(held)), gone);
        }
        self.strike(&victims, held)
    }

    fn naked_in_unit(&mut self, u: usize, size: usize) -> (progressed: bool)
        requires
            grid::wf(old(self)@),
            u < 27,
        ensures
            final(self)@ == naked_unit(old(self)@, u as int, size as nat),
            progressed == (final(self)@ != old(self)@),
            grid::follows(old(self)@, final(self)@),
    {
        let ghost g = self@;
        let cells = self.narrow_cells(u, size);
        let list = combos::combinations(cells.as_slice(), size);
        let ghost cs = combos::combos(cells@, size as nat);
        proof {
            geometry::lemma_unit(u as int);
            seqs::lemma_filter_members(geometry::unit(u as int), is_narrow(g, size as nat));
        }
        let mut progressed = false;
        let mut p: usize = 0;
        while p < list.len()
            invariant
                p <= list@.len(),
                u < 27,
                g == old(self)@,
                grid::wf(g),
                grid::follows(g, self@),
                cells@ == pool(g, u as int, size as nat),
                cs == combos::combos(cells@, size as nat),
                combos::lists(list@) == cs,
                forall|x: usize| #[trigger] cells@.contains(x) ==> geometry::unit(u as int).contains(x),
                self@ == grid::sweep(
                    g,
                    p as nat,
                    naked_subset_step(u as int, cs, size as nat),
                ),
                progressed == (self@ != g),
            decreases list@.len() - p,
        {
            let ghost h = self@;
            proof {
                assert(list@[p as int]@ == combos::lists(list@)[p as int]);
                combos::lemma_combo(cells@, size as nat, p as int);
                geometry::lemma_unit(u as int);
                assert forall|k: int| 0 <= k < list@[p as int]@.len() implies #[trigger] list@[p as int]@[k]
                    < 81 by {
                    let x = cs[p as int][k];
                    assert(cells@.contains(x));
                    let n = geometry::unit(u as int).index_of(x);
                    assert(geometry::unit(u as int)[n] == x);
                }
                lemma_naked_subset_at(h, u as int, cs[p as int], size as nat);
                grid::lemma_chain(g, h, naked_subset_at(h, u as int, cs[p as int], size as nat));
            }
            if self.naked_subset(u, &list[p], size) {
                progressed = true;
            }
            p = p + 1;
        }
        progressed
    }

    /// Naked pair, triple or quad, for subsets of `size` cells.
    pub fn apply_naked_subsets(&mut self, size: usize) -> (progressed: bool)
        requires
            grid::wf(old(self)@),
        ensures
            final(self)@ == naked_subsets(old(self)@, size as nat),
            progressed == (final(self)@ != old(self)@),
            grid::follows(old(self)@, final(self)@),
    {
        let ghost g = self@;
        let mut progressed = false;
        let mut u: usize = 0;
        while u < 27
            invariant
                u <= 27,
                g == old(self)@,
                grid::wf(g),
                grid::follows(g, self@),
                self@ == grid::sweep(g, u as nat, naked_unit_step(size as nat)),
                progressed == (self@ != g),
            decreases 27 - u,
        {
            let ghost h = self@;
            proof {
                lemma_naked_unit(h, u as int, size as nat);
                grid::lemma_chain(g, h, naked_unit(h, u as int, size as nat));
            }
            if self.naked_in_unit(u, size) {
                progressed = true;
            }
            u = u + 1;
        }
        progressed
    }
}

impl Solver {
    fn touched_cells(&self, u: usize, m: u16) -> (v: Vec<usize>)
        requires
            u < 27,
        ensures
            v@ == touched(self@, u as int, mask::digits_of(m)),
    {
        let cells = Self::unit_cells(u);
        let ghost ds = mask::digits_of(m);
        let ghost pred = is_touched(self@, ds);
        let mut v: Vec<usize> = Vec::new();
        let mut k: usize = 0;
        proof {
            geometry::lemma_unit(u as int);
            seqs::lemma_filter_ends(cells@, pred);
            mask::lemma_mask_consts(0);
        }
        while k < 9
            invariant
                k <= 9,
                u < 27,
                cells@ == geometry::unit(u as int),
                cells@.len() == 9,
                ds == mask::digits_of(m),
                pred == is_touched(self@, ds),
                mask::digits_of(0) == Set::<u8>::empty(),
                forall|n: int| 0 <= n < 9 ==> #[trigger] cells@[n] < 81,
                v@ == cells@.take(k as int).filter(pred),
            decreases 9 - k,
        {
            let i = cells[k];
            let own = self.mask(i);
            proof {
                seqs::lemma_filter_step(cells@, k as int, pred);
                mask::lemma_mask_ops(own, m);
                let both = mask::digits_of(own & m);
                if own & m != 0 {
                    if both =~= Set::<u8>::empty() {
                        mask::lemma_mask_ext(own & m, 0);
                    }
                    let e = both.choose();
                    assert(both.contains(e));
                    assert(ds.contains(e) && self@.cands[i as int].contains(e));
                } else {
                    assert forall|e: u8| !(ds.contains(e) && self@.cands[i as int].contains(e)) by {
                        assert(!both.contains(e));
                    }
                }
            }
            if self.cell(i) == 0 && own & m != 0 {
                v.push(i);
            }
            k = k + 1;
        }
        v
    }

    /// Whether a cell of unit `u` holds a digit of `m`.
    fn unit_holds(&self, u: usize, m: u16) -> (yes: bool)
        requires
            u < 27,
        ensures
            yes == holds_one(self@, u as int, mask::digits_of(m)),
    {
        let cells = Self::unit_cells(u);
        let ghost ds = mask::digits_of(m);
        let mut k: usize = 0;
        proof {
            geometry::lemma_unit(u as int);
        }
        while k < 9
            invariant
                k <= 9,
                u < 27,
                cells@ == geometry::unit(u as int),
                cells@.len() == 9,
                ds == mask::digits_of(m),
                forall|n: int| 0 <= n < 9 ==> #[trigger] cells@[n] < 81,
                forall|n: int|
                    0 <= n < k ==> !ds.contains(
                        self@.cells[#[trigger] geometry::unit(u as int)[n] as int],
                    ),
            decreases 9 - k,
        {
            let v = self.cell(cells[k]);
            if v < 16 && m & (1u16 << v) != 0 {
                assert(ds.contains(self@.cells[geometry::unit(u as int)[k as int] as int]));
                return true;
            }
            k = k + 1;
        }
        false
    }

    fn hidden_subset(&mut self, u: usize, m: u16, size: usize) -> (changed: bool)
        requires
            grid::wf(old(self)@),
            u < 27,
        ensures
            final(self)@ == hidden_subset_at(
                old(self)@,
                u as int,
                mask::digits_of(m),
                size as nat,
            ),
            changed == (final(self)@ != old(self)@),
    {
        let ghost g = self@;
        let cells = self.touched_cells(u, m);
        if cells.len() != size || self.unit_holds(u, m) {
            return false;
        }
        proof {
            let ds = mask::digits_of(m);
            let gone = hidden_gone(cells@, ds);
            lemma_touched(g, u as int, ds);
            assert forall|j: int, e: u8| 0 <= j < 81 && g.cands[j].contains(e) implies solver::hits(
                cells@,
                mask::digits_of(!m),
            )(j, e) == #[trigger] gone(j, e) by {
                mask::lemma_complement(m, e);
            }
            grid::lemma_same_gone(g, solver::hits(cells@, mask::digits_of(!m)), gone);
        }
        self.strike(&cells, !m)
    }

    fn hidden_in_unit(&mut self, u: usize, masks: &Vec<u16>, size: usize) -> (progressed: bool)
        requires
            grid::wf(old(self)@),
            u < 27,
            masks@.len() == combos::combos(nine(), size as nat).len(),
            forall|p: int|
                0 <= p < masks@.len() ==> mask::digits_of(#[trigger] masks@[p]) == combos::combos(
                    nine(),
                    size as nat,
                )[p].to_set(),
        ensures
            final(self)@ == hidden_unit(old(self)@, u as int, size as nat),
            progressed == (final(self)@ != old(self)@),
            grid::follows(old(self)@, final(self)@),
    {
        let ghost g = self@;
        let mut progressed = false;
        let mut p: usize = 0;
        while p < masks.len()
            invariant
                p <= masks@.len(),
                u < 27,
                g == old(self)@,
                grid::wf(g),
                grid::follows(g, self@),
                masks@.len() == combos::combos(nine(), size as nat).len(),
                forall|q: int|
                    0 <= q < masks@.len() ==> mask::digits_of(#[trigger] masks@[q])
                        == combos::combos(nine(), size as nat)[q].to_set(),
                self@ == grid::sweep(g, p as nat, hidden_subset_step(u as int, size as nat)),
                progressed == (self@ != g),
            decreases masks@.len() - p,
        {
            let ghost h = self@;
            let m = masks[p];
            proof {
                let ds = mask::digits_of(m);
                lemma_hidden_subset_at(h, u as int, ds, size as nat);
                grid::lemma_chain(g, h, hidden_subset_at(h, u as int, ds, size as nat));
            }
            if self.hidden_subset(u, m, size) {
                progressed = true;
            }
            p = p + 1;
        }
        progressed
    }

    /// Hidden pair, triple or quad, for subsets of `size` digits.
    pub fn apply_hidden_subsets(&mut self, size: usize) -> (progressed: bool)
        requires
            grid::wf(old(self)@),
        ensures
            final(self)@ == hidden_subsets(old(self)@, size as nat),
            progressed == (final(self)@ != old(self)@),
            grid::follows(old(self)@, final(self)@),
    {
        let ghost g = self@;
        let masks = digit_masks(size);
        let mut progressed = false;
        let mut u: usize = 0;
        while u < 27
            invariant
                u <= 27,
                g == old(self)@,
                grid::wf(g),
                grid::follows(g, self@),
                masks@.len() == combos::combos(nine(), size as nat).len(),
                forall|q: int|
                    0 <= q < masks@.len() ==> mask::digits_of(#[trigger] masks@[q])
                        == combos::combos(nine(), size as nat)[q].to_set(),
                self@ == grid::sweep(g, u as nat, hidden_unit_step(size as nat)),
                progressed == (self@ != g),
            decreases 27 - u,
        {
            let ghost h = self@;
            proof {
                lemma_hidden_unit(h, u as int, size as nat);
                grid::lemma_chain(g, h, hidden_unit(h, u as int, size as nat));
            }
            if self.hidden_in_unit(u, &masks, size) {
                progressed = true;
            }
            u = u + 1;
        }
        progressed
    }
}

pub proof fn lemma_touched(g: Grid, u: int, ds: Set<u8>)
    requires
        0 <= u < 27,
    ensures
        touched(g, u, ds).no_duplicates(),
        forall|i: usize| #[trigger]
            touched(g, u, ds).contains(i) <==> i < 81 && geometry::in_unit(u, i as int)
                && is_touched(g, ds)(i),
        forall|k: int|
            0 <= k < touched(g, u, ds).len() ==> #[trigger] touched(g, u, ds)[k] < 81
                && geometry::in_unit(u, touched(g, u, ds)[k] as int) && is_touched(g, ds)(
                touched(g, u, ds)[k],
            ),
{
    geometry::lemma_unit(u);
    seqs::lemma_filter_members(geometry::unit(u), is_touched(g, ds));
    let s = touched(g, u, ds);
    assert forall|i: usize| #[trigger] s.contains(i) <==> i < 81 && geometry::in_unit(u, i as int)
        && is_touched(g, ds)(i) by {
        if s.contains(i) {
            let k = geometry::unit(u).index_of(i);
            assert(geometry::unit(u)[k] == i);
        }
    }
    assert forall|k: int| 0 <= k < s.len() implies #[trigger] s[k] < 81 && geometry::in_unit(
        u,
        s[k] as int,
    ) && is_touched(g, ds)(s[k]) by {
        assert(s.contains(s[k]));
    }
}

/// The masks of all combinations of `size` digits.
fn digit_masks(size: usize) -> (masks: Vec<u16>)
    ensures
        masks@.len() == combos::combos(nine(), size as nat).len(),
        forall|p: int|
            0 <= p < masks@.len() ==> mask::digits_of(#[trigger] masks@[p]) == combos::combos(
                nine(),
                size as nat,
            )[p].to_set(),
{
    let mut digits: Vec<u8> = Vec::new();
    let mut d: u8 = 1;
    while d <= 9
        invariant
            1 <= d <= 10,
            digits@ == nine().take(d - 1),
        decreases 10 - d,
    {
        digits.push(d);
        d = d + 1;
        assert(digits@ =~= nine().take(d - 1));
    }
    assert(digits@ =~= nine());
    let list = combos::combinations(digits.as_slice(), size);
    let ghost cs = combos::combos(nine(), size as nat);
    let mut masks: Vec<u16> = Vec::new();
    let mut p: usize = 0;
    while p < list.len()
        invariant
            p <= list@.len(),
            combos::lists(list@) == cs,
            cs == combos::combos(nine(), size as nat),
            masks@.len() == p,
            forall|q: int|
                0 <= q < p ==> mask::digits_of(#[trigger] masks@[q]) == cs[q].to_set(),
        decreases list@.len() - p,
    {
        let c = &list[p];
        let mut m: u16 = 0;
        let mut k: usize = 0;
        proof {
            assert(list@[p as int]@ == combos::lists(list@)[p as int]);
            combos::lemma_combo(nine(), size as nat, p as int);
            mask::lemma_mask_consts(0);
            assert forall|i: int| 0 <= i < c@.len() implies 1 <= #[trigger] c@[i] <= 9 by {
                let n = nine().index_of(c@[i]);
                assert(nine().contains(c@[i]));
            }
            assert(c@.take(0).to_set() =~= Set::<u8>::empty());
        }
        while k < c.len()
            invariant
                k <= c@.len(),
                forall|i: int| 0 <= i < c@.len() ==> 1 <= #[trigger] c@[i] <= 9,
                mask::digits_of(m) == c@.take(k as int).to_set(),
            decreases c@.len() - k,
        {
            let d = c[k];
            proof {
                mask::lemma_mask_ops(m, 1u16 << d);
                mask::lemma_mask_consts(d);
                assert(c@.take(k + 1) =~= c@.take(k as int).push(d));
                lemma_push_set(c@.take(k as int), d);
            }
            m = m | (1u16 << d);
            k = k + 1;
        }
        assert(c@.take(c@.len() as int) =~= c@);
        masks.push(m);
        p = p + 1;
    }
    masks
}

proof fn lemma_push_set(s: Seq<u8>, d: u8)
    ensures
        s.push(d).to_set() == s.to_set().union(set![d]),
{
    let t = s.push(d);
    assert forall|x: u8| t.contains(x) == (s.contains(x) || x == d) by {
        if s.contains(x) {
            assert(t[s.index_of(x)] == x);
        }
        if x == d {
            assert(t[s.len() as int] == x);
        }
        if t.contains(x) {
            let k = t.index_of(x);
            if k < s.len() {
                assert(s[k] == x);
            }
        }
    }
    assert(t.to_set() =~= s.to_set().union(set![d]));
}

/// Whether `x` is one of the listed numbers.
pub fn list_has(v: &Vec<usize>, x: usize) -> (yes: bool)
    ensures
        yes == v@.contains(x),
{
    let mut i: usize = 0;
    while i < v.len()
        invariant
            i <= v@.len(),
            forall|k: int| 0 <= k < i ==> #[trigger] v@[k] != x,
        decreases v@.len() - i,
    {
        if v[i] == x {
            return true;
        }
        i = i + 1;
    }
    false
}

} // verus!
