//! Unique rectangle, type 1.

use crate::board;
use crate::geometry;
use crate::grid;
use crate::grid::Grid;
use crate::mask;
use crate::seqs;
use crate::solver;
use crate::solver::Solver;
use vstd::prelude::*;

verus! {

/// The corners of the rectangle of rows `r1`, `r2` and columns `c1`, `c2`.
pub open spec fn corners(r1: int, r2: int, c1: int, c2: int) -> Seq<int> {
    seq![r1 * 9 + c1, r1 * 9 + c2, r2 * 9 + c1, r2 * 9 + c2]
}

/// The corners are four empty cells in just two boxes.
pub open spec fn is_rectangle(g: Grid, r1: int, r2: int, c1: int, c2: int) -> bool {
    &&& r1 < r2
    &&& c1 < c2
    &&& (r1 / 3 == r2 / 3) != (c1 / 3 == c2 / 3)
    &&& forall|k: int|
        #![trigger corners(r1, r2, c1, c2)[k]]
        0 <= k < 4 ==> g.cells[corners(r1, r2, c1, c2)[k]] == 0
}

/// The three corners other than corner `n` have the same two candidates, `floor`,
/// and corner `n` has those and more.
pub open spec fn is_deadly(g: Grid, cs: Seq<int>, n: int, floor: Set<u8>) -> bool {
    &&& floor.len() == 2
    &&& forall|k: int|
        #![trigger cs[k]]
        0 <= k < 4 && k != n ==> g.cands[cs[k]] == floor
    &&& floor.subset_of(g.cands[cs[n]])
    &&& floor != g.cands[cs[n]]
}

pub open spec fn floor_gone(i: int, floor: Set<u8>) -> spec_fn(int, u8) -> bool {
    |j: int, e: u8| j == i && floor.contains(e)
}

/// The two candidates of the other three corners cannot be those of corner `n`.
pub open spec fn extra_step(cs: Seq<int>) -> spec_fn(Grid, int) -> Grid {
    |g: Grid, n: int|
        {
            let floor = g.cands[cs[(n + 1) % 4]];
            if is_deadly(g, cs, n, floor) {
                grid::without(g, floor_gone(cs[n], floor))
            } else {
                g
            }
        }
}

/// Rows and columns are counted as the four digits of `k` in base nine.
pub open spec fn rectangle_step() -> spec_fn(Grid, int) -> Grid {
    |g: Grid, k: int|
        {
            let (r1, r2, c1, c2) = (k / 729, k / 81 % 9, k / 9 % 9, k % 9);
            if is_rectangle(g, r1, r2, c1, c2) {
                grid::sweep(g, 4, extra_step(corners(r1, r2, c1, c2)))
            } else {
                g
            }
        }
}

/// The type 1 deduction on every rectangle, by rows and then by columns.
pub open spec fn unique_rectangles(g: Grid) -> Grid {
    grid::sweep(g, 6561, rectangle_step())
}

pub proof fn lemma_extra_step(cs: Seq<int>)
    ensures
        forall|h: Grid, n: int|
            grid::wf(h) ==> grid::follows(h, #[trigger] extra_step(cs)(h, n)) && extra_step(cs)(
                h,
                n,
            ).cells == h.cells,
{
    assert forall|h: Grid, n: int| grid::wf(h) implies grid::follows(
        h,
        #[trigger] extra_step(cs)(h, n),
    ) && extra_step(cs)(h, n).cells == h.cells by {
        grid::lemma_without(h, floor_gone(cs[n], h.cands[cs[(n + 1) % 4]]));
    }
}

pub proof fn lemma_rectangle_step()
    ensures
        forall|h: Grid, k: int| grid::wf(h) ==> grid::follows(h, #[trigger] rectangle_step()(h, k)),
{
    assert forall|h: Grid, k: int| grid::wf(h) implies grid::follows(
        h,
        #[trigger] rectangle_step()(h, k),
    ) by {
        let cs = corners(k / 729, k / 81 % 9, k / 9 % 9, k % 9);
        lemma_extra_step(cs);
        grid::lemma_sweep_follows(h, 4, extra_step(cs));
    }
}

pub proof fn lemma_unique_rectangles(g: Grid)
    requires
        grid::wf(g),
    ensures
        grid::follows(g, unique_rectangles(g)),
{
    lemma_rectangle_step();
    grid::lemma_sweep_follows(g, 6561, rectangle_step());
}

// ---- Soundness ----

/// The full grid agrees with the digits placed.
pub open spec fn agrees(cells: Seq<u8>, f: Seq<u8>) -> bool {
    forall|i: int| #![trigger f[i]] 0 <= i < 81 && cells[i] != 0 ==> f[i] == cells[i]
}

/// `f` is the only valid full grid that agrees with the digits placed.
pub open spec fn only_grid(cells: Seq<u8>, f: Seq<u8>) -> bool {
    forall|e: Seq<u8>| #[trigger] board::valid_grid(e) && agrees(cells, e) ==> e == f
}

/// Four cells that are the corners of a rectangle in two boxes.
pub open spec fn in_rectangle(a: int, b: int, c: int, d: int) -> bool {
    &&& 0 <= a < 81 && 0 <= b < 81 && 0 <= c < 81 && 0 <= d < 81
    &&& geometry::row(a) == geometry::row(b) && geometry::row(c) == geometry::row(d)
    &&& geometry::col(a) == geometry::col(c) && geometry::col(b) == geometry::col(d)
    &&& geometry::row(a) != geometry::row(c) && geometry::col(a) != geometry::col(b)
    &&& geometry::box_no(a) != geometry::box_no(d) && geometry::box_no(b) != geometry::box_no(c)
    &&& geometry::box_no(a) == geometry::box_no(b) || geometry::box_no(a) == geometry::box_no(c)
    &&& geometry::box_no(d) == geometry::box_no(b) || geometry::box_no(d) == geometry::box_no(c)
}

proof fn lemma_corners(r1: int, r2: int, c1: int, c2: int)
    requires
        0 <= r1 < r2 < 9,
        0 <= c1 < c2 < 9,
        (r1 / 3 == r2 / 3) != (c1 / 3 == c2 / 3),
    ensures
        in_rectangle(r1 * 9 + c1, r1 * 9 + c2, r2 * 9 + c1, r2 * 9 + c2),
{
}

/// What a corner takes over from its neighbours meets nothing else it sees.
proof fn lemma_corner(f: Seq<u8>, a: int, b: int, c: int, j: int)
    requires
        board::valid_grid(f),
        0 <= a < 81 && 0 <= b < 81 && 0 <= c < 81 && 0 <= j < 81,
        geometry::row(a) == geometry::row(b),
        geometry::col(a) == geometry::col(c),
        geometry::box_no(a) == geometry::box_no(b) || geometry::box_no(a) == geometry::box_no(c),
        f[b] == f[c],
        geometry::peer(a, j),
        j != b,
        j != c,
    ensures
        f[j] != f[b],
{
    assert(geometry::peer(b, j) || geometry::peer(c, j));
}

/// Exchanging the two digits of a rectangle gives another valid grid.
proof fn lemma_exchange(f: Seq<u8>, a: int, b: int, c: int, d: int) -> (e: Seq<u8>)
    requires
        board::valid_grid(f),
        in_rectangle(a, b, c, d),
        f[a] == f[d],
        f[b] == f[c],
    ensures
        board::valid_grid(e),
        e != f,
        forall|i: int|
            #![trigger e[i]]
            0 <= i < 81 && i != a && i != b && i != c && i != d ==> e[i] == f[i],
{
    let e = f.update(a, f[b]).update(b, f[a]).update(c, f[a]).update(d, f[b]);
    assert(geometry::peer(a, b));
    assert(e[a] != f[a]);
    assert forall|i: int, j: int| 0 <= i < 81 && 0 <= j < 81 && #[trigger] geometry::peer(i, j) implies e[i]
        != e[j] by {
        lemma_exchange_at(f, e, a, b, c, d, i, j);
        lemma_exchange_at(f, e, a, b, c, d, j, i);
    }
    e
}

proof fn lemma_exchange_at(
    f: Seq<u8>,
    e: Seq<u8>,
    a: int,
    b: int,
    c: int,
    d: int,
    i: int,
    j: int,
)
    requires
        board::valid_grid(f),
        in_rectangle(a, b, c, d),
        f[a] == f[d],
        f[b] == f[c],
        e == f.update(a, f[b]).update(b, f[a]).update(c, f[a]).update(d, f[b]),
        0 <= i < 81,
        0 <= j < 81,
        geometry::peer(i, j),
    ensures
        j != a && j != b && j != c && j != d ==> e[i] != e[j],
        (j == a || j == b || j == c || j == d) && (i == a || i == b || i == c || i == d) ==> e[i]
            != e[j],
{
    assert(f[i] != f[j]);
    assert(geometry::peer(a, b));
    if j != a && j != b && j != c && j != d {
        if i == a {
            lemma_corner(f, a, b, c, j);
        } else if i == b {
            lemma_corner(f, b, a, d, j);
        } else if i == c {
            lemma_corner(f, c, d, a, j);
        } else if i == d {
            lemma_corner(f, d, c, b, j);
        }
    }
}

proof fn lemma_extra_sound(g: Grid, f: Seq<u8>, r1: int, r2: int, c1: int, c2: int, n: int)
    requires
        grid::wf(g),
        grid::fits(g, f),
        only_grid(g.cells, f),
        0 <= r1 < 9,
        0 <= r2 < 9,
        0 <= c1 < 9,
        0 <= c2 < 9,
        is_rectangle(g, r1, r2, c1, c2),
        0 <= n < 4,
    ensures
        grid::fits(extra_step(corners(r1, r2, c1, c2))(g, n), f),
{
    let cs = corners(r1, r2, c1, c2);
    let (a, b, c, d) = (cs[0], cs[1], cs[2], cs[3]);
    lemma_corners(r1, r2, c1, c2);
    assert(g.cells[a] == 0 && g.cells[b] == 0 && g.cells[c] == 0 && g.cells[d] == 0);
    assert(geometry::peer(a, b) && geometry::peer(a, c) && geometry::peer(b, d) && geometry::peer(
        c,
        d,
    ));
    let floor = g.cands[cs[(n + 1) % 4]];
    if is_deadly(g, cs, n, floor) {
        let gone = floor_gone(cs[n], floor);
        grid::lemma_cands_finite(g, cs[(n + 1) % 4]);
        if floor.contains(f[cs[n]]) {
            assert forall|k: int| 0 <= k < 4 implies floor.contains(f[#[trigger] cs[k]]) by {
                assert(g.cells[cs[k]] == 0);
                assert(g.cands[cs[k]].contains(f[cs[k]]));
            }
            assert(floor.contains(f[a]) && floor.contains(f[b]) && floor.contains(f[c])
                && floor.contains(f[d]));
            seqs::lemma_pair(floor, f[a], f[b], f[c]);
            seqs::lemma_pair(floor, f[a], f[b], f[d]);
            let e = lemma_exchange(f, a, b, c, d);
            assert(agrees(g.cells, e)) by {
                assert forall|i: int| #![trigger e[i]] 0 <= i < 81 && g.cells[i] != 0 implies e[i]
                    == g.cells[i] by {
                    assert(f[i] == g.cells[i]);
                }
            }
            assert(false);
        }
        grid::lemma_without_fits(g, gone, f);
    }
}

pub open spec fn kept(g: Grid, f: Seq<u8>) -> spec_fn(Grid) -> bool {
    |h: Grid| grid::wf(h) && h.cells == g.cells && grid::fits(h, f)
}

/// The unique rectangle never rules out the solution of a puzzle that has just
/// one.
pub proof fn law_unique_rectangles_sound(g: Grid, f: Seq<u8>)
    requires
        grid::wf(g),
        grid::fits(g, f),
        only_grid(g.cells, f),
    ensures
        grid::fits(unique_rectangles(g), f),
{
    let inv = kept(g, f);
    assert forall|h: Grid, k: int| 0 <= k < 6561 && inv(h) implies inv(
        #[trigger] rectangle_step()(h, k),
    ) by {
        let (r1, r2, c1, c2) = (k / 729, k / 81 % 9, k / 9 % 9, k % 9);
        if is_rectangle(h, r1, r2, c1, c2) {
            let cs = corners(r1, r2, c1, c2);
            lemma_extra_step(cs);
            assert forall|i: Grid, n: int| 0 <= n < 4 && inv(i) implies inv(
                #[trigger] extra_step(cs)(i, n),
            ) by {
                lemma_extra_sound(i, f, r1, r2, c1, c2, n);
            }
            grid::lemma_sweep(h, 4, extra_step(cs), inv);
        }
    }
    grid::lemma_sweep(g, 6561, rectangle_step(), inv);
}

// ---- Execution ----

impl Solver {
    fn extra(&mut self, cs: &[usize; 4], n: usize) -> (changed: bool)
        requires
            grid::wf(old(self)@),
            n < 4,
            forall|k: int| 0 <= k < 4 ==> #[trigger] cs@[k] < 81,
        ensures
            final(self)@ == extra_step(cs@.map_values(|i: usize| i as int))(old(self)@, n as int),
            changed == (final(self)@ != old(self)@),
    {
        let ghost g = self@;
        let ghost ci = cs@.map_values(|i: usize| i as int);
        let floor = self.mask(cs[(n + 1) % 4]);
        let second = self.mask(cs[(n + 2) % 4]);
        let third = self.mask(cs[(n + 3) % 4]);
        let own = self.mask(cs[n]);
        proof {
            if mask::digits_of(floor) == mask::digits_of(second) {
                mask::lemma_mask_ext(floor, second);
            }
            if mask::digits_of(floor) == mask::digits_of(third) {
                mask::lemma_mask_ext(floor, third);
            }
            if mask::digits_of(floor) == mask::digits_of(own) {
                mask::lemma_mask_ext(floor, own);
            }
            mask::lemma_mask_ops(own, floor);
            let fs = mask::digits_of(floor);
            let os = mask::digits_of(own);
            if fs.subset_of(os) {
                assert(os.intersect(fs) =~= fs);
                mask::lemma_mask_ext(own & floor, floor);
            }
            if own & floor == floor {
                assert forall|e: u8| #[trigger] fs.contains(e) implies os.contains(e) by {
                    assert(os.intersect(fs).contains(e));
                }
            }
            let n = n as int;
            assert(ci[(n + 1) % 4] == cs@[(n + 1) % 4]);
            assert(ci[(n + 2) % 4] == cs@[(n + 2) % 4]);
            assert(ci[(n + 3) % 4] == cs@[(n + 3) % 4]);
            assert(ci[n] == cs@[n]);
            assert forall|k: int| #![trigger ci[k]] 0 <= k < 4 && k != n implies k == (n + 1) % 4 || k
                == (n + 2) % 4 || k == (n + 3) % 4 by {}
            assert(is_deadly(g, ci, n, fs) <==> (fs.len() == 2 && floor == second && floor == third
                && own & floor == floor && own != floor)) by {
                if is_deadly(g, ci, n, fs) {
                    assert(g.cands[ci[(n + 2) % 4]] == fs);
                    assert(g.cands[ci[(n + 3) % 4]] == fs);
                }
            }
        }
        if mask::count(floor) == 2 && floor == second && floor == third && own & floor == floor && own
            != floor {
            let mut victims: Vec<usize> = Vec::new();
            victims.push(cs[n]);
            proof {
                let fs = mask::digits_of(floor);
                let gone = floor_gone(ci[n as int], fs);
                solver::lemma_push_members(Seq::empty(), cs@[n as int]);
                assert(victims@ == Seq::<usize>::empty().push(cs@[n as int]));
                assert forall|j: int, e: u8| 0 <= j < 81 && g.cands[j].contains(e) implies solver::hits(
                    victims@,
                    fs,
                )(j, e) == #[trigger] gone(j, e) by {
                    assert(victims@.contains(j as usize) <==> j == cs@[n as int]);
                }
                grid::lemma_same_gone(g, solver::hits(victims@, fs), gone);
            }
            self.strike(&victims, floor)
        } else {
            false
        }
    }

    fn rectangle(&mut self, r1: usize, r2: usize, c1: usize, c2: usize) -> (changed: bool)
        requires
            grid::wf(old(self)@),
            r1 < 9,
            r2 < 9,
            c1 < 9,
            c2 < 9,
        ensures
            final(self)@ == if is_rectangle(old(self)@, r1 as int, r2 as int, c1 as int, c2 as int) {
                grid::sweep(
                    old(self)@,
                    4,
                    extra_step(corners(r1 as int, r2 as int, c1 as int, c2 as int)),
                )
            } else {
                old(self)@
            },
            changed == (final(self)@ != old(self)@),
    {
        let ghost g = self@;
        if !(r1 < r2 && c1 < c2) {
            return false;
        }
        let cs: [usize; 4] = [r1 * 9 + c1, r1 * 9 + c2, r2 * 9 + c1, r2 * 9 + c2];
        let ghost ci = corners(r1 as int, r2 as int, c1 as int, c2 as int);
        assert(ci =~= cs@.map_values(|i: usize| i as int));
        assert(ci[0] == cs@[0] && ci[1] == cs@[1] && ci[2] == cs@[2] && ci[3] == cs@[3]);
        if self.cell(cs[0]) != 0 || self.cell(cs[1]) != 0 || self.cell(cs[2]) != 0 || self.cell(cs[3])
            != 0 || (r1 / 3 == r2 / 3) == (c1 / 3 == c2 / 3) {
            return false;
        }
        let mut changed = false;
        let mut n: usize = 0;
        while n < 4
            invariant
                n <= 4,
                g == old(self)@,
                grid::wf(g),
                grid::follows(g, self@),
                ci == cs@.map_values(|i: usize| i as int),
                forall|k: int| 0 <= k < 4 ==> #[trigger] cs@[k] < 81,
                self@ == grid::sweep(g, n as nat, extra_step(ci)),
                changed == (self@ != g),
            decreases 4 - n,
        {
            let ghost h = self@;
            proof {
                lemma_extra_step(ci);
                grid::lemma_chain(g, h, extra_step(ci)(h, n as int));
            }
            if self.extra(&cs, n) {
                changed = true;
            }
            n = n + 1;
        }
        changed
    }

    /// Unique rectangle, type 1: where three corners of a rectangle in two boxes
    /// have the same two candidates and the fourth has those and more, the fourth
    /// cannot be either of the two, or the puzzle would have two solutions.
    pub fn apply_unique_rectangle_type1(&mut self) -> (progressed: bool)
        requires
            grid::wf(old(self)@),
        ensures
            final(self)@ == unique_rectangles(old(self)@),
            progressed == (final(self)@ != old(self)@),
            grid::follows(old(self)@, final(self)@),
    {
        let ghost g = self@;
        let mut progressed = false;
        let mut k: usize = 0;
        while k < 6561
            invariant
                k <= 6561,
                g == old(self)@,
                grid::wf(g),
                grid::follows(g, self@),
                self@ == grid::sweep(g, k as nat, rectangle_step()),
                progressed == (self@ != g),
            decreases 6561 - k,
        {
            let ghost h = self@;
            proof {
                lemma_rectangle_step();
                grid::lemma_chain(g, h, rectangle_step()(h, k as int));
            }
            if self.rectangle(k / 729, k / 81 % 9, k / 9 % 9, k % 9) {
                progressed = true;
            }
            k = k + 1;
        }
        progressed
    }
}

} // verus!
