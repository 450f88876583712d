//! The mathematical model of a grid under solution: the digits placed and, for
//! each empty cell, the set of digits that are still possible.

use crate::board;
use crate::geometry;
use crate::mask;
use vstd::prelude::*;

verus! {

#[verifier::ext_equal]
pub struct Grid {
    pub cells: Seq<u8>,
    pub cands: Seq<Set<u8>>,
}

/// Candidates are digits from 1 to 9; filled cells have none; and an empty cell
/// has no candidate that one of its peers already holds.
pub open spec fn wf(g: Grid) -> bool {
    &&& g.cells.len() == 81
    &&& g.cands.len() == 81
    &&& forall|i: int, d: u8|
        0 <= i < 81 && #[trigger] g.cands[i].contains(d) ==> 1 <= d <= 9 && g.cells[i] == 0
    &&& forall|i: int, j: int|
        #![trigger geometry::peer(i, j)]
        0 <= i < 81 && 0 <= j < 81 && geometry::peer(i, j) && g.cells[i] != 0
            ==> !g.cands[j].contains(g.cells[i])
}

/// Cell `i` is empty and may still become `d`.
pub open spec fn open_at(g: Grid, i: int, d: u8) -> bool {
    g.cells[i] == 0 && g.cands[i].contains(d)
}

/// The grid of a board, with every digit possible in a cell that no peer holds.
pub open spec fn start_grid(b: Seq<u8>) -> Grid {
    Grid {
        cells: b,
        cands: Seq::new(
            81,
            |i: int|
                Set::new(|d: u8| b[i] == 0 && 1 <= d <= 9 && board::free_for(b, i, d)),
        ),
    }
}

/// Puts `d` into cell `i` and takes it from the empty peers of `i`.
pub open spec fn place(g: Grid, i: int, d: u8) -> Grid {
    Grid {
        cells: g.cells.update(i, d),
        cands: Seq::new(
            81,
            |j: int|
                if j == i {
                    Set::empty()
                } else if geometry::peer(i, j) && g.cells[j] == 0 {
                    g.cands[j].remove(d)
                } else {
                    g.cands[j]
                },
        ),
    }
}

/// Takes from each cell `j` the candidates `e` for which `gone(j, e)` holds.
pub open spec fn without(g: Grid, gone: spec_fn(int, u8) -> bool) -> Grid {
    Grid {
        cells: g.cells,
        cands: Seq::new(
            81,
            |j: int| Set::new(|e: u8| g.cands[j].contains(e) && !gone(j, e)),
        ),
    }
}

pub open spec fn solved(g: Grid) -> bool {
    forall|i: int| #![trigger g.cells[i]] 0 <= i < 81 ==> g.cells[i] != 0
}

/// Some empty cell has no candidate left.
pub open spec fn contradictory(g: Grid) -> bool {
    exists|i: int|
        #![trigger g.cells[i]]
        0 <= i < 81 && g.cells[i] == 0 && g.cands[i] == Set::<u8>::empty()
}

/// `h` comes from `g` by dropping candidates and by placing candidates in empty
/// cells, none of them where a peer holds the same digit.
pub open spec fn refines(h: Grid, g: Grid) -> bool {
    &&& h.cells.len() == g.cells.len()
    &&& h.cands.len() == g.cands.len()
    &&& forall|i: int| #![trigger h.cells[i]] 0 <= i < 81 && g.cells[i] != 0 ==> h.cells[i] == g.cells[i]
    &&& forall|i: int, d: u8|
        0 <= i < 81 && #[trigger] h.cands[i].contains(d) ==> g.cands[i].contains(d)
    &&& forall|i: int|
        #![trigger h.cells[i]]
        0 <= i < 81 && g.cells[i] == 0 && h.cells[i] != 0 ==> g.cands[i].contains(h.cells[i])
    &&& forall|i: int, j: int|
        #![trigger geometry::peer(i, j)]
        0 <= i < 81 && 0 <= j < 81 && geometry::peer(i, j) && g.cells[i] == 0 && h.cells[i] != 0
            ==> h.cells[j] != h.cells[i]
}

/// The full grid `f` is still possible in `g`.
pub open spec fn fits(g: Grid, f: Seq<u8>) -> bool {
    &&& board::valid_grid(f)
    &&& forall|i: int|
        #![trigger f[i]]
        #![trigger g.cells[i]]
        0 <= i < 81 ==> if g.cells[i] != 0 {
            f[i] == g.cells[i]
        } else {
            g.cands[i].contains(f[i])
        }
}

/// What every deduction step keeps: the grid stays well-formed and is refined.
pub open spec fn follows(g: Grid, h: Grid) -> bool {
    wf(h) && refines(h, g)
}

/// Applies `step` for 0, 1, ..., `n - 1` in turn.
pub open spec fn sweep(g: Grid, n: nat, step: spec_fn(Grid, int) -> Grid) -> Grid
    decreases n,
{
    if n == 0 {
        g
    } else {
        step(sweep(g, (n - 1) as nat, step), n - 1)
    }
}

/// An invariant of every step is one of the sweep.
pub proof fn lemma_sweep(
    g: Grid,
    n: nat,
    step: spec_fn(Grid, int) -> Grid,
    inv: spec_fn(Grid) -> bool,
)
    requires
        inv(g),
        forall|h: Grid, i: int| 0 <= i < n && inv(h) ==> inv(#[trigger] step(h, i)),
    ensures
        inv(sweep(g, n, step)),
    decreases n,
{
    if n > 0 {
        lemma_sweep(g, (n - 1) as nat, step, inv);
    }
}

pub proof fn lemma_refines_trans(h: Grid, g: Grid, f: Grid)
    requires
        refines(h, g),
        refines(g, f),
        f.cells.len() == 81,
        f.cands.len() == 81,
    ensures
        refines(h, f),
{
    assert forall|i: int| #![trigger h.cells[i]] 0 <= i < 81 && f.cells[i] != 0 implies h.cells[i]
        == f.cells[i] by {
        assert(g.cells[i] == f.cells[i]);
    }
    assert forall|i: int| #![trigger h.cells[i]] 0 <= i < 81 && f.cells[i] == 0 && h.cells[i]
        != 0 implies f.cands[i].contains(h.cells[i]) by {
        if g.cells[i] != 0 {
            assert(h.cells[i] == g.cells[i]);
        } else {
            assert(g.cands[i].contains(h.cells[i]));
        }
    }
    assert forall|i: int, j: int| #![trigger geometry::peer(i, j)]
        0 <= i < 81 && 0 <= j < 81 && geometry::peer(i, j) && f.cells[i] == 0 && h.cells[i]
            != 0 implies h.cells[j] != h.cells[i] by {
        assert(geometry::peer(j, i));
        if g.cells[i] != 0 {
            assert(h.cells[i] == g.cells[i]);
            if g.cells[j] != 0 {
                assert(h.cells[j] == g.cells[j]);
                assert(g.cells[j] != g.cells[i]);
            }
        }
    }
}

/// Where every step keeps grids well-formed and refines them, so does the sweep.
pub proof fn lemma_sweep_follows(g: Grid, n: nat, step: spec_fn(Grid, int) -> Grid)
    requires
        wf(g),
        forall|h: Grid, i: int| 0 <= i < n && wf(h) ==> follows(h, #[trigger] step(h, i)),
    ensures
        follows(g, sweep(g, n, step)),
    decreases n,
{
    if n > 0 {
        let m = (n - 1) as nat;
        lemma_sweep_follows(g, m, step);
        let h = sweep(g, m, step);
        assert(follows(h, step(h, n - 1)));
        lemma_refines_trans(step(h, n - 1), h, g);
    }
}

/// Where every step keeps the full grid `f` possible, so does the sweep.
pub proof fn lemma_sweep_fits(g: Grid, n: nat, step: spec_fn(Grid, int) -> Grid, f: Seq<u8>)
    requires
        wf(g),
        fits(g, f),
        forall|h: Grid, i: int| 0 <= i < n && wf(h) ==> follows(h, #[trigger] step(h, i)),
        forall|h: Grid, i: int|
            0 <= i < n && wf(h) && fits(h, f) ==> fits(#[trigger] step(h, i), f),
    ensures
        fits(sweep(g, n, step), f),
    decreases n,
{
    if n > 0 {
        let m = (n - 1) as nat;
        lemma_sweep_fits(g, m, step, f);
        lemma_sweep_follows(g, m, step);
        let h = sweep(g, m, step);
        assert(fits(step(h, n - 1), f));
    }
}

pub proof fn lemma_place(g: Grid, i: int, d: u8)
    requires
        wf(g),
        0 <= i < 81,
        g.cands[i].contains(d),
    ensures
        follows(g, place(g, i, d)),
        place(g, i, d) != g,
{
    let h = place(g, i, d);
    assert(g.cells[i] == 0 && d != 0);
    assert(h.cells[i] != g.cells[i]);
    assert forall|a: int, b: int| #![trigger geometry::peer(a, b)]
        0 <= a < 81 && 0 <= b < 81 && geometry::peer(a, b) && g.cells[a] == 0 && h.cells[a]
            != 0 implies h.cells[b] != h.cells[a] by {
        assert(geometry::peer(b, a));
    }
    assert forall|a: int, b: int| #![trigger geometry::peer(a, b)]
        0 <= a < 81 && 0 <= b < 81 && geometry::peer(a, b) && h.cells[a] != 0 implies !h.cands[b].contains(
        h.cells[a],
    ) by {
        if a == i {
            if g.cells[b] != 0 {
                assert(!g.cands[b].contains(d));
            }
        } else {
            assert(!g.cands[b].contains(g.cells[a]));
        }
    }
}

/// Placing the digit that a full grid has in that cell keeps the grid possible.
pub proof fn lemma_place_fits(g: Grid, i: int, f: Seq<u8>)
    requires
        wf(g),
        fits(g, f),
        0 <= i < 81,
        g.cells[i] == 0,
    ensures
        fits(place(g, i, f[i]), f),
{
    let h = place(g, i, f[i]);
    assert forall|j: int| #![trigger f[j]] 0 <= j < 81 implies if h.cells[j] != 0 {
        f[j] == h.cells[j]
    } else {
        h.cands[j].contains(f[j])
    } by {
        if j != i {
            assert(h.cells[j] == g.cells[j]);
            if geometry::peer(i, j) {
                assert(f[i] != f[j]);
            }
        }
    }
}

pub proof fn lemma_without(g: Grid, gone: spec_fn(int, u8) -> bool)
    requires
        wf(g),
    ensures
        follows(g, without(g, gone)),
{
    let h = without(g, gone);
    assert forall|a: int, b: int| #![trigger geometry::peer(a, b)]
        0 <= a < 81 && 0 <= b < 81 && geometry::peer(a, b) && h.cells[a] != 0 implies !h.cands[b].contains(
        h.cells[a],
    ) by {
        assert(!g.cands[b].contains(g.cells[a]));
    }
}

/// Dropping candidates keeps a full grid possible where none of its own digits
/// is dropped.
pub proof fn lemma_without_fits(g: Grid, gone: spec_fn(int, u8) -> bool, f: Seq<u8>)
    requires
        wf(g),
        fits(g, f),
        forall|i: int| #![trigger f[i]] 0 <= i < 81 && g.cells[i] == 0 ==> !gone(i, f[i]),
    ensures
        fits(without(g, gone), f),
{
    let h = without(g, gone);
    assert forall|j: int| #![trigger f[j]] 0 <= j < 81 implies if h.cells[j] != 0 {
        f[j] == h.cells[j]
    } else {
        h.cands[j].contains(f[j])
    } by {
        assert(h.cells[j] == g.cells[j]);
    }
}

/// A grid is determined by its membership facts.
pub proof fn lemma_without_is(g: Grid, gone: spec_fn(int, u8) -> bool, h: Grid)
    requires
        g.cands.len() == 81,
        h.cells == g.cells,
        h.cands.len() == 81,
        forall|j: int, e: u8|
            0 <= j < 81 ==> #[trigger] h.cands[j].contains(e) == (g.cands[j].contains(e) && !gone(
                j,
                e,
            )),
    ensures
        h == without(g, gone),
{
    let w = without(g, gone);
    assert forall|j: int| 0 <= j < 81 implies h.cands[j] == w.cands[j] by {
        assert(h.cands[j] =~= w.cands[j]);
    }
    assert(h.cands =~= w.cands);
}

/// Dropping the same candidates gives the same grid.
pub proof fn lemma_same_gone(g: Grid, p: spec_fn(int, u8) -> bool, q: spec_fn(int, u8) -> bool)
    requires
        forall|j: int, e: u8|
            0 <= j < 81 && g.cands[j].contains(e) ==> p(j, e) == #[trigger] q(j, e),
    ensures
        without(g, p) == without(g, q),
{
    let a = without(g, p);
    let b = without(g, q);
    assert forall|j: int| 0 <= j < 81 implies a.cands[j] == b.cands[j] by {
        assert forall|e: u8| a.cands[j].contains(e) == b.cands[j].contains(e) by {
            assert(g.cands[j].contains(e) ==> p(j, e) == q(j, e));
        }
        assert(a.cands[j] =~= b.cands[j]);
    }
    assert(a.cands =~= b.cands);
}

/// Candidate sets of a well-formed grid are finite.
pub proof fn lemma_cands_finite(g: Grid, i: int)
    requires
        wf(g),
        0 <= i < 81,
    ensures
        g.cands[i].finite(),
        g.cands[i].len() <= 9,
        g.cands[i].subset_of(mask::all_digits()),
{
    lemma_all_digits();
    vstd::set_lib::lemma_len_subset(g.cands[i], mask::all_digits());
}

pub proof fn lemma_all_digits()
    ensures
        mask::all_digits().finite(),
        mask::all_digits().len() == 9,
{
    let s = Set::<u8>::empty().insert(1).insert(2).insert(3).insert(4).insert(5).insert(6).insert(
        7,
    ).insert(8).insert(9);
    assert(s =~= mask::all_digits());
    assert(s.len() == 9);
}

pub open spec fn cell_weight(g: Grid, i: int) -> nat {
    if g.cells[i] == 0 {
        1 + g.cands[i].len()
    } else {
        0
    }
}

pub open spec fn weight_below(g: Grid, n: nat) -> nat
    decreases n,
{
    if n == 0 {
        0
    } else {
        weight_below(g, (n - 1) as nat) + cell_weight(g, n - 1)
    }
}

/// What is left to decide: empty cells and their candidates.
pub open spec fn weight(g: Grid) -> nat {
    weight_below(g, 81)
}

proof fn lemma_cell_weight(h: Grid, g: Grid, i: int)
    requires
        wf(g),
        wf(h),
        refines(h, g),
        0 <= i < 81,
    ensures
        cell_weight(h, i) <= cell_weight(g, i),
        cell_weight(h, i) == cell_weight(g, i) ==> h.cells[i] == g.cells[i] && h.cands[i]
            == g.cands[i],
{
    lemma_cands_finite(g, i);
    lemma_cands_finite(h, i);
    assert(h.cands[i].subset_of(g.cands[i]));
    vstd::set_lib::lemma_len_subset(h.cands[i], g.cands[i]);
    if g.cells[i] == 0 {
        if h.cells[i] == 0 && h.cands[i].len() == g.cands[i].len() {
            vstd::set_lib::lemma_subset_equality(h.cands[i], g.cands[i]);
        }
    } else {
        assert(h.cells[i] == g.cells[i]);
        assert(h.cands[i] =~= g.cands[i]);
    }
}

proof fn lemma_weight_below(h: Grid, g: Grid, n: nat)
    requires
        wf(g),
        wf(h),
        refines(h, g),
        n <= 81,
    ensures
        weight_below(h, n) <= weight_below(g, n),
        weight_below(h, n) == weight_below(g, n) ==> forall|i: int|
            #![trigger h.cells[i]]
            #![trigger h.cands[i]]
            0 <= i < n ==> h.cells[i] == g.cells[i] && h.cands[i] == g.cands[i],
    decreases n,
{
    if n > 0 {
        lemma_weight_below(h, g, (n - 1) as nat);
        lemma_cell_weight(h, g, n - 1);
    }
}

/// Every refinement that changes the grid leaves less to decide.
pub proof fn lemma_progress(g: Grid, h: Grid)
    requires
        wf(g),
        follows(g, h),
    ensures
        weight(h) <= weight(g),
        h != g ==> weight(h) < weight(g),
{
    lemma_weight_below(h, g, 81);
    if weight(h) == weight(g) {
        assert(h.cells =~= g.cells);
        assert(h.cands =~= g.cands);
    }
}

/// Along a chain of refinements a change is never undone.
pub proof fn lemma_chain(g: Grid, h: Grid, k: Grid)
    requires
        wf(g),
        follows(g, h),
        follows(h, k),
    ensures
        follows(g, k),
        k != h ==> k != g,
        h != g ==> k != g,
{
    lemma_refines_trans(k, h, g);
    lemma_progress(g, h);
    lemma_progress(h, k);
}

/// The starting grid of a board is well-formed.
pub proof fn lemma_start(b: Seq<u8>)
    requires
        b.len() == 81,
    ensures
        wf(start_grid(b)),
{
    let g = start_grid(b);
    assert forall|i: int, j: int| #![trigger geometry::peer(i, j)]
        0 <= i < 81 && 0 <= j < 81 && geometry::peer(i, j) && g.cells[i] != 0 implies !g.cands[j].contains(
        g.cells[i],
    ) by {
        assert(geometry::peer(j, i));
    }
}

/// The digits placed clash nowhere: no two peers hold the same one.
pub open spec fn consistent(cells: Seq<u8>) -> bool {
    forall|i: int, j: int|
        #![trigger geometry::peer(i, j)]
        0 <= i < 81 && 0 <= j < 81 && geometry::peer(i, j) && cells[i] != 0 ==> cells[j] != cells[i]
}

/// Deduction never makes digits clash, and places digits from 1 to 9 only.
pub proof fn law_follows_consistent(g: Grid, h: Grid)
    requires
        wf(g),
        follows(g, h),
        consistent(g.cells),
    ensures
        consistent(h.cells),
        forall|i: int|
            #![trigger h.cells[i]]
            0 <= i < 81 && g.cells[i] == 0 && h.cells[i] != 0 ==> 1 <= h.cells[i] <= 9,
{
    assert forall|i: int, j: int| #![trigger geometry::peer(i, j)]
        0 <= i < 81 && 0 <= j < 81 && geometry::peer(i, j) && h.cells[i] != 0 implies h.cells[j]
        != h.cells[i] by {
        assert(geometry::peer(j, i));
        if g.cells[i] != 0 && g.cells[j] != 0 {
            assert(h.cells[i] == g.cells[i] && h.cells[j] == g.cells[j]);
        }
    }
}

// ---- Passes ----

/// A sweep changes the grid exactly where one of its steps, taken by itself, does.
pub proof fn lemma_sweep_changes(g: Grid, n: nat, step: spec_fn(Grid, int) -> Grid)
    requires
        wf(g),
        forall|h: Grid, i: int| 0 <= i < n && wf(h) ==> follows(h, #[trigger] step(h, i)),
    ensures
        sweep(g, n, step) == g <==> forall|i: int| 0 <= i < n ==> #[trigger] step(g, i) == g,
    decreases n,
{
    if n > 0 {
        let m = (n - 1) as nat;
        lemma_sweep_changes(g, m, step);
        lemma_sweep_follows(g, m, step);
        let h = sweep(g, m, step);
        assert(follows(h, step(h, n - 1)));
        if sweep(g, n, step) == g {
            lemma_stages(g, h, g);
        }
    }
}

/// Where two stages lead back to the grid, the first changes nothing.
pub proof fn lemma_stages(g: Grid, h: Grid, k: Grid)
    requires
        wf(g),
        follows(g, h),
        follows(h, k),
    ensures
        k == g ==> h == g,
{
    lemma_progress(g, h);
    lemma_progress(h, k);
}

/// A longer sweep comes after a shorter one.
pub proof fn lemma_sweep_later(g: Grid, m: nat, n: nat, step: spec_fn(Grid, int) -> Grid)
    requires
        wf(g),
        m <= n,
        forall|h: Grid, i: int| 0 <= i < n && wf(h) ==> follows(h, #[trigger] step(h, i)),
    ensures
        follows(sweep(g, m, step), sweep(g, n, step)),
    decreases n,
{
    lemma_sweep_follows(g, m, step);
    if m < n {
        let k = (n - 1) as nat;
        lemma_sweep_later(g, m, k, step);
        let h = sweep(g, k, step);
        assert(follows(h, step(h, n - 1)));
        lemma_chain(sweep(g, m, step), h, sweep(g, n, step));
    }
}

/// `h` comes after `g` and before `end`.
pub open spec fn between(g: Grid, h: Grid, end: Grid) -> bool {
    follows(g, h) && follows(h, end)
}

/// A pattern for candidate `e` of cell `j` was there at some point on the way.
pub open spec fn caused(
    g: Grid,
    end: Grid,
    pattern: spec_fn(Grid, int, u8) -> bool,
    j: int,
    e: u8,
) -> bool {
    exists|h: Grid| #[trigger] between(g, h, end) && h.cands[j].contains(e) && pattern(h, j, e)
}

/// Candidate `e` of cell `j` is gone.
pub open spec fn struck(g: Grid, h: Grid, j: int, e: u8) -> bool {
    g.cands[j].contains(e) && !h.cands[j].contains(e)
}

/// A grid comes after itself.
pub proof fn lemma_follows_self(g: Grid)
    requires
        wf(g),
    ensures
        follows(g, g),
{
}

/// Where every step has a pattern for what it strikes, so has the sweep.
pub proof fn lemma_sweep_caused(
    g: Grid,
    n: nat,
    step: spec_fn(Grid, int) -> Grid,
    pattern: spec_fn(Grid, int, u8) -> bool,
    j: int,
    e: u8,
)
    requires
        wf(g),
        forall|h: Grid, i: int| 0 <= i < n && wf(h) ==> follows(h, #[trigger] step(h, i)),
        forall|h: Grid, i: int|
            0 <= i < n && wf(h) && struck(h, #[trigger] step(h, i), j, e) ==> caused(
                h,
                step(h, i),
                pattern,
                j,
                e,
            ),
        struck(g, sweep(g, n, step), j, e),
    ensures
        caused(g, sweep(g, n, step), pattern, j, e),
    decreases n,
{
    let m = (n - 1) as nat;
    let h = sweep(g, m, step);
    let end = sweep(g, n, step);
    lemma_sweep_follows(g, m, step);
    assert(follows(h, step(h, n - 1)));
    if h.cands[j].contains(e) {
        assert(struck(h, step(h, n - 1), j, e));
        let k = choose|k: Grid| #[trigger]
            between(h, k, end) && k.cands[j].contains(e) && pattern(k, j, e);
        lemma_chain(g, h, k);
        assert(between(g, k, end));
    } else {
        lemma_sweep_caused(g, m, step, pattern, j, e);
        let k = choose|k: Grid| #[trigger]
            between(g, k, h) && k.cands[j].contains(e) && pattern(k, j, e);
        lemma_chain(k, h, end);
        assert(between(g, k, end));
    }
}

/// Steps that place nothing make a sweep that places nothing.
pub proof fn lemma_sweep_cells(g: Grid, n: nat, step: spec_fn(Grid, int) -> Grid)
    requires
        wf(g),
        forall|h: Grid, i: int| 0 <= i < n && wf(h) ==> follows(h, #[trigger] step(h, i)),
        forall|h: Grid, i: int| 0 <= i < n && wf(h) ==> (#[trigger] step(h, i)).cells == h.cells,
    ensures
        sweep(g, n, step).cells == g.cells,
    decreases n,
{
    if n > 0 {
        lemma_sweep_cells(g, (n - 1) as nat, step);
        lemma_sweep_follows(g, (n - 1) as nat, step);
        let h = sweep(g, (n - 1) as nat, step);
        assert(step(h, n - 1).cells == h.cells);
    }
}

/// Grids with the same digits differ in a candidate.
pub proof fn lemma_some_struck(g: Grid, h: Grid) -> (c: (int, u8))
    requires
        wf(g),
        follows(g, h),
        h.cells == g.cells,
        h != g,
    ensures
        0 <= c.0 < 81,
        struck(g, h, c.0, c.1),
{
    if forall|j: int, e: u8| 0 <= j < 81 && g.cands[j].contains(e) ==> #[trigger] h.cands[j].contains(e) {
        assert forall|j: int| 0 <= j < 81 implies h.cands[j] == g.cands[j] by {
            assert(h.cands[j] =~= g.cands[j]);
        }
        assert(h.cands =~= g.cands);
        assert(h == g);
    }
    let (j, e) = choose|j: int, e: u8|
        0 <= j < 81 && g.cands[j].contains(e) && !(#[trigger] h.cands[j].contains(e));
    (j, e)
}

/// A step of a sweep comes after the steps before it, and the end of the sweep after it.
pub proof fn lemma_sweep_at(g: Grid, n: nat, step: spec_fn(Grid, int) -> Grid, k: int) -> (h: Grid)
    requires
        wf(g),
        0 <= k < n,
        forall|f: Grid, i: int| 0 <= i < n && wf(f) ==> follows(f, #[trigger] step(f, i)),
    ensures
        h == sweep(g, k as nat, step),
        follows(g, h),
        follows(h, step(h, k)),
        follows(step(h, k), sweep(g, n, step)),
        follows(h, sweep(g, n, step)),
{
    let h = sweep(g, k as nat, step);
    lemma_sweep_follows(g, k as nat, step);
    assert(follows(h, step(h, k)));
    assert(sweep(g, (k + 1) as nat, step) == step(h, k));
    lemma_sweep_later(g, (k + 1) as nat, n, step);
    lemma_sweep_later(g, k as nat, n, step);
    h
}

} // verus!
