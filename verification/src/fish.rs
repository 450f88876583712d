//! Fish: X-Wing, Swordfish and Jellyfish.

use crate::board::CELLS;
use crate::combos;
use crate::geometry;
use crate::grid;
use crate::grid::Grid;
use crate::mask;
use crate::seqs;
use crate::solver;
use crate::solver::Solver;
use crate::spots;
use crate::subsets;
use vstd::prelude::*;

verus! {

/// The cell on line `l` at crossing `x`; lines are rows where `by_row` holds and
/// columns else.
pub open spec fn cell_at(by_row: bool, l: int, x: int) -> int {
    if by_row {
        l * 9 + x
    } else {
        x * 9 + l
    }
}

pub open spec fn line_of(by_row: bool, j: int) -> int {
    if by_row {
        geometry::row(j)
    } else {
        geometry::col(j)
    }
}

pub open spec fn cross_of(by_row: bool, j: int) -> int {
    if by_row {
        geometry::col(j)
    } else {
        geometry::row(j)
    }
}

/// The crossings at which line `l` has a spot for `d`.
pub open spec fn crossings(g: Grid, by_row: bool, d: u8, l: int) -> Set<u8> {
    Set::new(|x: u8| x < 9 && grid::open_at(g, cell_at(by_row, l, x as int), d))
}

/// The crossings of the lines `c`, taken together.
pub open spec fn crossings_of(g: Grid, by_row: bool, d: u8, c: Seq<usize>) -> Set<u8> {
    Set::new(
        |x: u8|
            exists|k: int|
                0 <= k < c.len() && crossings(g, by_row, d, #[trigger] c[k] as int).contains(x),
    )
}

pub open spec fn is_base(g: Grid, by_row: bool, d: u8, size: nat) -> spec_fn(usize) -> bool {
    |l: usize| 1 <= crossings(g, by_row, d, l as int).len() <= size
}

/// The lines with one to `size` spots for `d`.
pub open spec fn bases(g: Grid, by_row: bool, d: u8, size: nat) -> Seq<usize> {
    Seq::new(9, |l: int| l as usize).filter(is_base(g, by_row, d, size))
}

/// The lines `c` have their spots for `d` at just `size` crossings, and cell `j`
/// lies at one of these but on another line.
pub open spec fn fish_hits(
    g: Grid,
    by_row: bool,
    d: u8,
    size: nat,
    c: Seq<usize>,
    j: int,
) -> bool {
    &&& crossings_of(g, by_row, d, c).len() == size
    &&& crossings_of(g, by_row, d, c).contains(cross_of(by_row, j) as u8)
    &&& !c.contains(line_of(by_row, j) as usize)
}

/// Digit `d` in the cells that one of the first `n` combinations of `size` base
/// lines hits.
pub open spec fn fish_gone(
    g: Grid,
    by_row: bool,
    d: u8,
    size: nat,
    cs: Seq<Seq<usize>>,
    n: int,
) -> spec_fn(int, u8) -> bool {
    |j: int, e: u8|
        e == d && exists|p: int| 0 <= p < n && fish_hits(g, by_row, d, size, #[trigger] cs[p], j)
}

/// Fish for digit `d` on rows or on columns: where `size` lines have all their
/// spots at `size` crossings, the digit goes from these crossings on the other
/// lines.
pub open spec fn fish_at(g: Grid, by_row: bool, d: u8, size: nat) -> Grid {
    let cs = combos::combos(bases(g, by_row, d, size), size);
    grid::without(g, fish_gone(g, by_row, d, size, cs, cs.len() as int))
}

/// For each digit, fish on rows and then on columns.
pub open spec fn fish_step(size: nat) -> spec_fn(Grid, int) -> Grid {
    |g: Grid, k: int| fish_at(g, k % 2 == 0, (k / 2 + 1) as u8, size)
}

/// Fish on `size` lines, for every digit in both directions.
pub open spec fn fish(g: Grid, size: nat) -> Grid {
    grid::sweep(g, 18, fish_step(size))
}

pub proof fn lemma_fish_at(g: Grid, by_row: bool, d: u8, size: nat)
    requires
        grid::wf(g),
    ensures
        grid::follows(g, fish_at(g, by_row, d, size)),
{
    let cs = combos::combos(bases(g, by_row, d, size), size);
    grid::lemma_without(g, fish_gone(g, by_row, d, size, cs, cs.len() as int));
}

pub proof fn lemma_fish(g: Grid, size: nat)
    requires
        grid::wf(g),
    ensures
        grid::follows(g, fish(g, size)),
{
    assert forall|h: Grid, k: int| 0 <= k < 18 && grid::wf(h) implies grid::follows(
        h,
        #[trigger] fish_step(size)(h, k),
    ) by {
        lemma_fish_at(h, k % 2 == 0, (k / 2 + 1) as u8, size);
    }
    grid::lemma_sweep_follows(g, 18, fish_step(size));
}

proof fn lemma_coords(by_row: bool, j: int)
    requires
        0 <= j < 81,
    ensures
        0 <= line_of(by_row, j) < 9,
        0 <= cross_of(by_row, j) < 9,
        cell_at(by_row, line_of(by_row, j), cross_of(by_row, j)) == j,
{
}

proof fn lemma_cell_at(by_row: bool, l: int, x: int)
    requires
        0 <= l < 9,
        0 <= x < 9,
    ensures
        0 <= cell_at(by_row, l, x) < 81,
        line_of(by_row, cell_at(by_row, l, x)) == l,
        cross_of(by_row, cell_at(by_row, l, x)) == x,
{
}

pub proof fn lemma_bases(g: Grid, by_row: bool, d: u8, size: nat)
    ensures
        bases(g, by_row, d, size).no_duplicates(),
        forall|l: usize| #[trigger]
            bases(g, by_row, d, size).contains(l) ==> l < 9 && is_base(g, by_row, d, size)(l),
{
    let all = Seq::new(9, |l: int| l as usize);
    seqs::lemma_filter_members(all, is_base(g, by_row, d, size));
}

/// A combination of base lines hits no cell that has the digit in a solution.
proof fn lemma_fish_hits(g: Grid, f: Seq<u8>, by_row: bool, d: u8, size: nat, p: int, j: int)
    requires
        grid::wf(g),
        grid::fits(g, f),
        1 <= d <= 9,
        0 <= p < combos::combos(bases(g, by_row, d, size), size).len(),
        0 <= j < 81,
        f[j] == d,
    ensures
        !fish_hits(g, by_row, d, size, combos::combos(bases(g, by_row, d, size), size)[p], j),
{
    let lines = bases(g, by_row, d, size);
    let c = combos::combos(lines, size)[p];
    let reach = crossings_of(g, by_row, d, c);
    if fish_hits(g, by_row, d, size, c, j) {
        lemma_bases(g, by_row, d, size);
        combos::lemma_combo(lines, size, p);
        assert forall|k: int| 0 <= k < size implies exists|x: u8|
            crossings(g, by_row, d, #[trigger] c[k] as int).contains(x) && f[cell_at(
                by_row,
                c[k] as int,
                x as int,
            )] == d by {
            let l = c[k] as int;
            assert(lines.contains(c[k]));
            let xs = crossings(g, by_row, d, l);
            let u = if by_row {
                l
            } else {
                9 + l
            };
            let i = spots::lemma_spot_of(g, f, u, d);
            lemma_coords(by_row, i);
            assert(xs.len() >= 1);
            if xs =~= Set::<u8>::empty() {
                assert(xs.len() == 0);
            }
            let y = xs.choose();
            assert(xs.contains(y));
            lemma_cell_at(by_row, l, y as int);
            assert(geometry::in_unit(u, cell_at(by_row, l, y as int)));
            assert(grid::open_at(g, cell_at(by_row, l, y as int), d));
            assert(grid::open_at(g, i, d));
            let x = cross_of(by_row, i) as u8;
            assert(line_of(by_row, i) == l);
            assert(crossings(g, by_row, d, c[k] as int).contains(x));
        }
        let t = Seq::new(
            size,
            |k: int|
                choose|x: u8|
                    crossings(g, by_row, d, c[k] as int).contains(x) && f[cell_at(
                        by_row,
                        c[k] as int,
                        x as int,
                    )] == d,
        );
        assert forall|k: int| 0 <= k < size implies crossings(g, by_row, d, c[k] as int).contains(
            #[trigger] t[k],
        ) && f[cell_at(by_row, c[k] as int, t[k] as int)] == d && c[k] < 9 && t[k] < 9 by {
            assert(lines.contains(c[k]));
        }
        assert forall|a: int, b: int| 0 <= a < b < size implies t[a] != t[b] by {
            assert(c[a] != c[b]);
            lemma_cell_at(by_row, c[a] as int, t[a] as int);
            lemma_cell_at(by_row, c[b] as int, t[b] as int);
            if t[a] == t[b] {
                assert(geometry::peer(
                    cell_at(by_row, c[a] as int, t[a] as int),
                    cell_at(by_row, c[b] as int, t[b] as int),
                ));
            }
        }
        t.unique_seq_to_set();
        assert forall|x: u8| #[trigger] t.to_set().contains(x) implies reach.contains(x) by {
            assert(t.contains(x));
            let k = t.index_of(x);
            assert(crossings(g, by_row, d, c[k] as int).contains(t[k]));
        }
        lemma_reach_finite(g, by_row, d, c);
        vstd::set_lib::lemma_subset_equality(t.to_set(), reach);
        let y = cross_of(by_row, j) as u8;
        assert(t.to_set().contains(y));
        assert(t.contains(y));
        let k = t.index_of(y);
        assert(t[k] == y);
        lemma_coords(by_row, j);
        lemma_cell_at(by_row, c[k] as int, y as int);
        let i = cell_at(by_row, c[k] as int, t[k] as int);
        assert(c.contains(c[k]));
        assert(i != j);
        assert(geometry::peer(i, j));
    }
}

proof fn lemma_nine_crossings()
    ensures
        Set::new(|x: u8| x < 9).finite(),
{
    let s = Set::<u8>::empty().insert(0).insert(1).insert(2).insert(3).insert(4).insert(5).insert(
        6,
    ).insert(7).insert(8);
    assert(s =~= Set::new(|x: u8| x < 9));
}

pub proof fn lemma_reach_finite(g: Grid, by_row: bool, d: u8, c: Seq<usize>)
    ensures
        crossings_of(g, by_row, d, c).finite(),
{
    lemma_nine_crossings();
    assert(crossings_of(g, by_row, d, c).subset_of(Set::new(|x: u8| x < 9)));
    vstd::set_lib::lemma_len_subset(crossings_of(g, by_row, d, c), Set::new(|x: u8| x < 9));
}

/// The first `n` steps of a pass never rule out a solution.
pub proof fn lemma_part_fits(g: Grid, f: Seq<u8>, size: nat, n: nat)
    requires
        grid::wf(g),
        grid::fits(g, f),
        n <= 18,
    ensures
        grid::fits(grid::sweep(g, n, fish_step(size)), f),
{
    assert forall|h: Grid, k: int| 0 <= k < 18 && grid::wf(h) implies grid::follows(
        h,
        #[trigger] fish_step(size)(h, k),
    ) by {
        lemma_fish_at(h, k % 2 == 0, (k / 2 + 1) as u8, size);
    }
    assert forall|h: Grid, k: int| 0 <= k < 18 && grid::wf(h) && grid::fits(h, f) implies grid::fits(
        #[trigger] fish_step(size)(h, k),
        f,
    ) by {
        let by_row = k % 2 == 0;
        let d = (k / 2 + 1) as u8;
        let cs = combos::combos(bases(h, by_row, d, size), size);
        let gone = fish_gone(h, by_row, d, size, cs, cs.len() as int);
        assert forall|j: int| #![trigger f[j]] 0 <= j < 81 && h.cells[j] == 0 implies !gone(j, f[j]) by {
            if gone(j, f[j]) {
                let p = choose|p: int|
                    0 <= p < cs.len() && fish_hits(h, by_row, d, size, #[trigger] cs[p], j);
                lemma_fish_hits(h, f, by_row, d, size, p, j);
            }
        }
        grid::lemma_without_fits(h, gone, f);
    }
    grid::lemma_sweep_fits(g, n, fish_step(size), f);
}

/// Fish never rule out a solution.
pub proof fn law_fish_sound(g: Grid, f: Seq<u8>, size: nat)
    requires
        grid::wf(g),
        grid::fits(g, f),
    ensures
        grid::fits(fish(g, size), f),
{
    lemma_part_fits(g, f, size, 18);
}

impl Solver {
    fn line_mask(&self, by_row: bool, d: u8, l: usize) -> (m: u16)
        requires
            l < 9,
            d < 16,
        ensures
            mask::digits_of(m) == crossings(self@, by_row, d, l as int),
    {
        let mut m: u16 = 0;
        let mut x: u8 = 0;
        proof {
            mask::lemma_mask_consts(0);
        }
        while x < 9
            invariant
                x <= 9,
                l < 9,
                d < 16,
                forall|y: u8| #[trigger]
                    mask::digits_of(m).contains(y) <==> y < x && grid::open_at(
                        self@,
                        cell_at(by_row, l as int, y as int),
                        d,
                    ),
            decreases 9 - x,
        {
            let i: usize = if by_row {
                l * 9 + x as usize
            } else {
                x as usize * 9 + l
            };
            if self.allows(i, d) {
                proof {
                    mask::lemma_mask_ops(m, 1u16 << x);
                    mask::lemma_mask_consts(x);
                }
                m = m | (1u16 << x);
            }
            x = x + 1;
        }
        assert(mask::digits_of(m) =~= crossings(self@, by_row, d, l as int));
        m
    }

    fn line_masks(&self, by_row: bool, d: u8) -> (ms: Vec<u16>)
        requires
            d < 16,
        ensures
            ms@.len() == 9,
            forall|l: int|
                0 <= l < 9 ==> mask::digits_of(#[trigger] ms@[l]) == crossings(self@, by_row, d, l),
    {
        let mut ms: Vec<u16> = Vec::new();
        let mut l: usize = 0;
        while l < 9
            invariant
                l <= 9,
                d < 16,
                ms@.len() == l,
                forall|n: int|
                    0 <= n < l ==> mask::digits_of(#[trigger] ms@[n]) == crossings(
                        self@,
                        by_row,
                        d,
                        n,
                    ),
            decreases 9 - l,
        {
            let m = self.line_mask(by_row, d, l);
            ms.push(m);
            l = l + 1;
        }
        ms
    }

    fn base_lines(&self, by_row: bool, d: u8, size: usize, ms: &Vec<u16>) -> (v: Vec<usize>)
        requires
            ms@.len() == 9,
            forall|l: int|
                0 <= l < 9 ==> mask::digits_of(#[trigger] ms@[l]) == crossings(self@, by_row, d, l),
        ensures
            v@ == bases(self@, by_row, d, size as nat),
    {
        let ghost all = Seq::new(9, |l: int| l as usize);
        let ghost pred = is_base(self@, by_row, d, size as nat);
        let mut v: Vec<usize> = Vec::new();
        let mut l: usize = 0;
        proof {
            seqs::lemma_filter_ends(all, pred);
        }
        while l < 9
            invariant
                l <= 9,
                all == Seq::new(9, |l: int| l as usize),
                pred == is_base(self@, by_row, d, size as nat),
                ms@.len() == 9,
                forall|n: int|
                    0 <= n < 9 ==> mask::digits_of(#[trigger] ms@[n]) == crossings(
                        self@,
                        by_row,
                        d,
                        n,
                    ),
                v@ == all.take(l as int).filter(pred),
            decreases 9 - l,
        {
            proof {
                seqs::lemma_filter_step(all, l as int, pred);
            }
            let n = mask::count(ms[l]);
            if n >= 1 && n <= size {
                v.push(l);
            }
            l = l + 1;
        }
        v
    }

    /// The crossings of the listed lines, taken together.
    fn joined(ms: &Vec<u16>, c: &Vec<usize>, Ghost(g): Ghost<Grid>, by_row: bool, d: u8) -> (m: u16)
        requires
            ms@.len() == 9,
            forall|l: int|
                0 <= l < 9 ==> mask::digits_of(#[trigger] ms@[l]) == crossings(g, by_row, d, l),
            forall|k: int| 0 <= k < c@.len() ==> #[trigger] c@[k] < 9,
        ensures
            mask::digits_of(m) == crossings_of(g, by_row, d, c@),
    {
        let mut m: u16 = 0;
        let mut k: usize = 0;
        proof {
            mask::lemma_mask_consts(0);
        }
        while k < c.len()
            invariant
                k <= c@.len(),
                ms@.len() == 9,
                forall|l: int|
                    0 <= l < 9 ==> mask::digits_of(#[trigger] ms@[l]) == crossings(g, by_row, d, l),
                forall|n: int| 0 <= n < c@.len() ==> #[trigger] c@[n] < 9,
                forall|x: u8| #[trigger]
                    mask::digits_of(m).contains(x) <==> exists|n: int|
                        0 <= n < k && crossings(g, by_row, d, #[trigger] c@[n] as int).contains(x),
            decreases c@.len() - k,
        {
            let own = ms[c[k]];
            proof {
                mask::lemma_mask_ops(m, own);
                assert forall|x: u8| #[trigger]
                    mask::digits_of(m | own).contains(x) <==> exists|n: int|
                        0 <= n < k + 1 && crossings(g, by_row, d, #[trigger] c@[n] as int).contains(
                            x,
                        ) by {
                    if mask::digits_of(m).contains(x) {
                        let n = choose|n: int|
                            0 <= n < k && crossings(g, by_row, d, #[trigger] c@[n] as int).contains(
                                x,
                            );
                        assert(crossings(g, by_row, d, c@[n] as int).contains(x));
                    }
                    if mask::digits_of(own).contains(x) {
                        assert(crossings(g, by_row, d, c@[k as int] as int).contains(x));
                    }
                }
            }
            m = m | own;
            k = k + 1;
        }
        assert(mask::digits_of(m) =~= crossings_of(g, by_row, d, c@));
        m
    }

    fn fish_lines(&mut self, by_row: bool, d: u8, size: usize) -> (progressed: bool)
        requires
            grid::wf(old(self)@),
            1 <= d <= 9,
        ensures
            final(self)@ == fish_at(old(self)@, by_row, d, size as nat),
            progressed == (final(self)@ != old(self)@),
            grid::follows(old(self)@, final(self)@),
    {
        let ghost g = self@;
        let ghost sz = size as nat;
        let ms = self.line_masks(by_row, d);
        let lines = self.base_lines(by_row, d, size, &ms);
        let list = combos::combinations(lines.as_slice(), size);
        let ghost cs = combos::combos(lines@, sz);
        let mut progressed = false;
        let mut p: usize = 0;
        proof {
            lemma_bases(g, by_row, d, sz);
            mask::lemma_mask_consts(d);
            grid::lemma_without_is(g, fish_gone(g, by_row, d, sz, cs, 0), g);
        }
        while p < list.len()
            invariant
                p <= list@.len(),
                1 <= d <= 9,
                g == old(self)@,
                sz == size,
                grid::wf(g),
                grid::follows(g, self@),
                lines@ == bases(g, by_row, d, sz),
                forall|l: usize| #[trigger] lines@.contains(l) ==> l < 9,
                cs == combos::combos(lines@, sz),
                combos::lists(list@) == cs,
                ms@.len() == 9,
                forall|l: int|
                    0 <= l < 9 ==> mask::digits_of(#[trigger] ms@[l]) == crossings(g, by_row, d, l),
                mask::digits_of(1u16 << d) == set![d],
                self@ == grid::without(g, fish_gone(g, by_row, d, sz, cs, p as int)),
                progressed == (self@ != g),
            decreases list@.len() - p,
        {
            let ghost h = self@;
            let c = &list[p];
            proof {
                assert(c@ == combos::lists(list@)[p as int]);
                combos::lemma_combo(lines@, sz, p as int);
                assert forall|k: int| 0 <= k < c@.len() implies #[trigger] c@[k] < 9 by {
                    assert(lines@.contains(cs[p as int][k]));
                }
            }
            let reach = Self::joined(&ms, c, Ghost(g), by_row, d);
            let fires = mask::count(reach) == size;
            let mut victims: Vec<usize> = Vec::new();
            let mut i: usize = 0;
            while i < CELLS
                invariant
                    i <= 81,
                    sz == size,
                    mask::digits_of(reach) == crossings_of(g, by_row, d, c@),
                    fires == (crossings_of(g, by_row, d, c@).len() == sz),
                    forall|n: int| 0 <= n < victims@.len() ==> #[trigger] victims@[n] < 81,
                    forall|j: usize| #[trigger]
                        victims@.contains(j) <==> j < i && fish_hits(
                            g,
                            by_row,
                            d,
                            sz,
                            c@,
                            j as int,
                        ),
                decreases 81 - i,
            {
                let ghost before = victims@;
                let line: usize = if by_row {
                    i / 9
                } else {
                    i % 9
                };
                let cross: usize = if by_row {
                    i % 9
                } else {
                    i / 9
                };
                let there = reach & (1u16 << (cross as u8)) != 0;
                assert(there == mask::digits_of(reach).contains(cross as u8));
                if fires && there && !subsets::list_has(c, line) {
                    victims.push(i);
                }
                proof {
                    solver::lemma_push_members(before, i);
                }
                i = i + 1;
            }
            if self.strike(&victims, 1u16 << d) {
                progressed = true;
            }
            proof {
                let next = fish_gone(g, by_row, d, sz, cs, p + 1);
                let prev = fish_gone(g, by_row, d, sz, cs, p as int);
                assert forall|j: int, e: u8| 0 <= j < 81 implies #[trigger] self@.cands[j].contains(e)
                    == (g.cands[j].contains(e) && !next(j, e)) by {
                    assert(h.cands[j].contains(e) == (g.cands[j].contains(e) && !prev(j, e)));
                    assert(victims@.contains(j as usize) == fish_hits(g, by_row, d, sz, cs[p as int], j));
                    assert(next(j, e) == (prev(j, e) || (e == d && fish_hits(
                        g,
                        by_row,
                        d,
                        sz,
                        cs[p as int],
                        j,
                    )))) by {
                        if prev(j, e) {
                            let q = choose|q: int|
                                0 <= q < p && fish_hits(g, by_row, d, sz, #[trigger] cs[q], j);
                            assert(fish_hits(g, by_row, d, sz, cs[q], j));
                        }
                    }
                }
                grid::lemma_without_is(g, next, self@);
                grid::lemma_without(h, solver::hits(victims@, set![d]));
                grid::lemma_chain(g, h, self@);
            }
            p = p + 1;
        }
        progressed
    }

    /// Basic (non-finned) fish on `size` lines: 2 is X-Wing, 3 Swordfish and 4
    /// Jellyfish. Each digit is tried on rows and then on columns.
    pub fn apply_fish(&mut self, size: usize) -> (progressed: bool)
        requires
            grid::wf(old(self)@),
        ensures
            final(self)@ == fish(old(self)@, size as nat),
            progressed == (final(self)@ != old(self)@),
            grid::follows(old(self)@, final(self)@),
    {
        let ghost g = self@;
        let mut progressed = false;
        let mut k: usize = 0;
        while k < 18
            invariant
                k <= 18,
                g == old(self)@,
                grid::wf(g),
                grid::follows(g, self@),
                self@ == grid::sweep(g, k as nat, fish_step(size as nat)),
                progressed == (self@ != g),
            decreases 18 - k,
        {
            let ghost h = self@;
            let d: u8 = (k / 2) as u8 + 1;
            proof {
                lemma_fish_at(h, k as int % 2 == 0, d, size as nat);
                grid::lemma_chain(g, h, fish_at(h, k as int % 2 == 0, d, size as nat));
            }
            if self.fish_lines(k % 2 == 0, d, size) {
                progressed = true;
            }
            k = k + 1;
        }
        progressed
    }
}

} // verus!
