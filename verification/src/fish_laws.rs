//! When fish have something to say, for every digit and in both directions.

use crate::combos;
use crate::fish;
use crate::geometry;
use crate::grid;
use crate::grid::Grid;
use crate::seqs;
use crate::spots;
use crate::technique_laws;
use vstd::prelude::*;

verus! {

/// The cell of row `l` in column `x`, or of column `l` in row `x`.
pub open spec fn line_cell(by_row: bool, l: int, x: int) -> int {
    if by_row {
        9 * l + x
    } else {
        9 * x + l
    }
}

/// The line that a cell lies on.
pub open spec fn own_line(by_row: bool, j: int) -> int {
    if by_row {
        j / 9
    } else {
        j % 9
    }
}

/// Where on its line a cell lies.
pub open spec fn own_place(by_row: bool, j: int) -> int {
    if by_row {
        j % 9
    } else {
        j / 9
    }
}

/// Line `l` has a spot for `d` at `x`.
pub open spec fn has_at(g: Grid, by_row: bool, d: u8, l: usize, x: u8) -> bool {
    technique_laws::spot(g, line_cell(by_row, l as int, x as int), d)
}

/// Line `l` has a spot for `d`.
#[verifier::opaque]
pub open spec fn has_some(g: Grid, by_row: bool, d: u8, l: usize) -> bool {
    exists|x: u8| x < 9 && #[trigger] has_at(g, by_row, d, l, x)
}

/// One of the lines has a spot for `d` at `x`.
#[verifier::opaque]
pub open spec fn has_across(g: Grid, by_row: bool, d: u8, ls: Set<usize>, x: u8) -> bool {
    exists|l: usize| ls.contains(l) && #[trigger] has_at(g, by_row, d, l, x)
}

/// `size` lines with one or more spots for `d` each, which lie at just the `size`
/// places `xs`.
pub open spec fn is_fish(
    g: Grid,
    by_row: bool,
    d: u8,
    size: nat,
    ls: Set<usize>,
    xs: Set<u8>,
) -> bool {
    &&& ls.finite()
    &&& ls.len() == size
    &&& xs.finite()
    &&& xs.len() == size
    &&& forall|l: usize| #[trigger] ls.contains(l) ==> l < 9 && has_some(g, by_row, d, l)
    &&& forall|l: usize, x: u8|
        ls.contains(l) && x < 9 && #[trigger] has_at(g, by_row, d, l, x) ==> xs.contains(x)
    &&& forall|x: u8| #[trigger] xs.contains(x) ==> x < 9 && has_across(g, by_row, d, ls, x)
}

/// Such lines rule `d` out at these places on every other line.
pub open spec fn is_caught(
    g: Grid,
    by_row: bool,
    d: u8,
    size: nat,
    ls: Set<usize>,
    xs: Set<u8>,
    j: int,
) -> bool {
    &&& is_fish(g, by_row, d, size, ls, xs)
    &&& xs.contains(own_place(by_row, j) as u8)
    &&& !ls.contains(own_line(by_row, j) as usize)
}

/// Some fish of `size` lines, rows or columns, rules `d` out in cell `j`.
pub open spec fn fished_out(size: nat) -> spec_fn(Grid, int, u8) -> bool {
    |g: Grid, j: int, d: u8|
        exists|by_row: bool, ls: Set<usize>, xs: Set<u8>| #[trigger]
            is_caught(g, by_row, d, size, ls, xs, j)
}

proof fn lemma_at(g: Grid, by_row: bool, d: u8, l: usize, x: u8)
    requires
        l < 9,
        x < 9,
    ensures
        has_at(g, by_row, d, l, x) <==> fish::crossings(g, by_row, d, l as int).contains(x),
        own_line(by_row, line_cell(by_row, l as int, x as int)) == l,
        own_place(by_row, line_cell(by_row, l as int, x as int)) == x,
{
    assert(fish::cell_at(by_row, l as int, x as int) == line_cell(by_row, l as int, x as int));
}

/// What a step strikes is ruled out by a fish.
proof fn lemma_step_strikes(g: Grid, k: int, size: nat, j: int, e: u8)
    requires
        grid::wf(g),
        0 <= k < 18,
        0 <= j < 81,
        grid::struck(g, fish::fish_step(size)(g, k), j, e),
    ensures
        fished_out(size)(g, j, e),
{
    let (by_row, d) = (k % 2 == 0, (k / 2 + 1) as u8);
    let lines = fish::bases(g, by_row, d, size);
    let cs = combos::combos(lines, size);
    let gone = fish::fish_gone(g, by_row, d, size, cs, cs.len() as int);
    assert(gone(j, e));
    let p = choose|p: int|
        0 <= p < cs.len() && fish::fish_hits(g, by_row, d, size, #[trigger] cs[p], j);
    let c = cs[p];
    fish::lemma_bases(g, by_row, d, size);
    combos::lemma_combo(lines, size, p);
    let ls = c.to_set();
    let xs = fish::crossings_of(g, by_row, d, c);
    c.unique_seq_to_set();
    fish::lemma_reach_finite(g, by_row, d, c);
    assert forall|l: usize| #[trigger] ls.contains(l) implies l < 9 && has_some(g, by_row, d, l) by {
        reveal(has_some);
        let n = c.index_of(l);
        assert(c[n] == l);
        assert(lines.contains(l));
        let own = fish::crossings(g, by_row, d, l as int);
        if own =~= Set::<u8>::empty() {
            assert(own.len() == 0);
        }
        let x = own.choose();
        assert(own.contains(x));
        lemma_at(g, by_row, d, l, x);
    }
    assert forall|l: usize, x: u8|
        ls.contains(l) && x < 9 && #[trigger] has_at(g, by_row, d, l, x) implies xs.contains(x) by {
        let n = c.index_of(l);
        assert(c[n] == l);
        assert(lines.contains(l));
        lemma_at(g, by_row, d, l, x);
    }
    assert forall|x: u8| #[trigger] xs.contains(x) implies x < 9 && has_across(g, by_row, d, ls, x) by {
        reveal(has_across);
        let n = choose|n: int|
            0 <= n < c.len() && fish::crossings(g, by_row, d, #[trigger] c[n] as int).contains(x);
        assert(lines.contains(c[n]));
        assert(ls.contains(c[n]));
        lemma_at(g, by_row, d, c[n], x);
    }
    assert(!ls.contains(own_line(by_row, j) as usize)) by {
        if ls.contains(own_line(by_row, j) as usize) {
            assert(c.contains(own_line(by_row, j) as usize));
        }
    }
    assert(is_caught(g, by_row, d, size, ls, xs, j));
}

/// What a fish rules out is struck at its turn.
proof fn lemma_caught_goes(
    g: Grid,
    by_row: bool,
    d: u8,
    size: nat,
    ls: Set<usize>,
    xs: Set<u8>,
    j: int,
)
    requires
        grid::wf(g),
        0 <= j < 81,
        is_caught(g, by_row, d, size, ls, xs, j),
    ensures
        !fish::fish_at(g, by_row, d, size).cands[j].contains(d),
{
    let lines = fish::bases(g, by_row, d, size);
    let all = Seq::new(9, |l: int| l as usize);
    seqs::lemma_filter_members(all, fish::is_base(g, by_row, d, size));
    fish::lemma_bases(g, by_row, d, size);
    assert forall|l: usize| #[trigger] ls.contains(l) implies lines.contains(l) by {
        reveal(has_some);
        let own = fish::crossings(g, by_row, d, l as int);
        let x = choose|x: u8| x < 9 && #[trigger] has_at(g, by_row, d, l, x);
        lemma_at(g, by_row, d, l, x);
        assert forall|y: u8| #[trigger] own.contains(y) implies xs.contains(y) by {
            lemma_at(g, by_row, d, l, y);
        }
        vstd::set_lib::lemma_len_subset(own, xs);
        if own.len() == 0 {
            assert(own =~= Set::<u8>::empty());
        }
        assert(all[l as int] == l);
        assert(all.contains(l));
        assert(fish::is_base(g, by_row, d, size)(l));
    }
    let p = combos::law_every_set_is_a_combo(lines, ls);
    let cs = combos::combos(lines, size);
    let c = cs[p];
    let reach = fish::crossings_of(g, by_row, d, c);
    assert forall|x: u8| #[trigger] reach.contains(x) <==> xs.contains(x) by {
        reveal(has_across);
        if reach.contains(x) {
            let n = choose|n: int|
                0 <= n < c.len() && fish::crossings(g, by_row, d, #[trigger] c[n] as int).contains(x);
            assert(c.to_set().contains(c[n]));
            lemma_at(g, by_row, d, c[n], x);
        }
        if xs.contains(x) {
            let l = choose|l: usize| ls.contains(l) && #[trigger] has_at(g, by_row, d, l, x);
            assert(c.to_set().contains(l));
            let n = c.index_of(l);
            assert(c[n] == l);
            lemma_at(g, by_row, d, l, x);
        }
    }
    assert(reach =~= xs);
    assert(!c.contains(own_line(by_row, j) as usize)) by {
        if c.contains(own_line(by_row, j) as usize) {
            assert(c.to_set().contains(own_line(by_row, j) as usize));
        }
    }
    assert(fish::fish_hits(g, by_row, d, size, cs[p], j));
}

proof fn lemma_steps(size: nat)
    ensures
        forall|h: Grid, k: int|
            0 <= k < 18 && grid::wf(h) ==> grid::follows(h, #[trigger] fish::fish_step(size)(h, k)),
        forall|h: Grid, k: int|
            0 <= k < 18 && grid::wf(h) ==> (#[trigger] fish::fish_step(size)(h, k)).cells == h.cells,
{
    assert forall|h: Grid, k: int| 0 <= k < 18 && grid::wf(h) implies grid::follows(
        h,
        #[trigger] fish::fish_step(size)(h, k),
    ) by {
        fish::lemma_fish_at(h, k % 2 == 0, (k / 2 + 1) as u8, size);
    }
}

/// The step of a digit in a direction.
spec fn turn(by_row: bool, d: u8) -> int {
    2 * (d - 1) + if by_row {
        0int
    } else {
        1
    }
}

/// Fish make progress exactly where, for some digit, `size` rows or columns have one or
/// more spots each, all at the same `size` places, and the digit is a candidate at one
/// of these places on another line. They strike a candidate only for that reason, and
/// place nothing.
pub proof fn law_fish(g: Grid, size: nat)
    requires
        grid::wf(g),
    ensures
        fish::fish(g, size).cells == g.cells,
        fish::fish(g, size) != g <==> exists|j: int, d: u8|
            0 <= j < 81 && g.cands[j].contains(d) && #[trigger] fished_out(size)(g, j, d),
        forall|j: int, d: u8|
            0 <= j < 81 && #[trigger] grid::struck(g, fish::fish(g, size), j, d) ==> grid::caused(
                g,
                fish::fish(g, size),
                fished_out(size),
                j,
                d,
            ),
{
    let step = fish::fish_step(size);
    let end = fish::fish(g, size);
    lemma_steps(size);
    grid::lemma_sweep_cells(g, 18, step);
    grid::lemma_sweep_changes(g, 18, step);
    if end != g {
        let k = choose|k: int| 0 <= k < 18 && #[trigger] step(g, k) != g;
        let (j, d) = grid::lemma_some_struck(g, step(g, k));
        lemma_step_strikes(g, k, size, j, d);
        assert(fished_out(size)(g, j, d));
    }
    if exists|j: int, d: u8|
        0 <= j < 81 && g.cands[j].contains(d) && #[trigger] fished_out(size)(g, j, d) {
        let (j, d) = choose|j: int, d: u8|
            0 <= j < 81 && g.cands[j].contains(d) && #[trigger] fished_out(size)(g, j, d);
        let (by_row, ls, xs) = choose|by_row: bool, ls: Set<usize>, xs: Set<u8>| #[trigger]
            is_caught(g, by_row, d, size, ls, xs, j);
        lemma_caught_goes(g, by_row, d, size, ls, xs, j);
        let k = turn(by_row, d);
        assert(k % 2 == 0 <==> by_row);
        assert(k / 2 + 1 == d);
        assert(step(g, k) == fish::fish_at(g, by_row, d, size));
        assert(step(g, k) != g);
    }
    assert forall|j: int, d: u8| 0 <= j < 81 && #[trigger] grid::struck(g, end, j, d) implies grid::caused(
        g,
        end,
        fished_out(size),
        j,
        d,
    ) by {
        assert forall|m: Grid, k: int| 0 <= k < 18 && grid::wf(m) && grid::struck(
            m,
            #[trigger] step(m, k),
            j,
            d,
        ) implies grid::caused(m, step(m, k), fished_out(size), j, d) by {
            lemma_step_strikes(m, k, size, j, d);
            technique_laws::lemma_at_once(m, step(m, k), fished_out(size), j, d);
        }
        grid::lemma_sweep_caused(g, 18, step, fished_out(size), j, d);
    }
}

/// Before its turn nothing happens to a digit.
proof fn lemma_before_turn(g: Grid, d: u8, size: nat, n: nat)
    requires
        grid::wf(g),
        1 <= d <= 9,
        n <= 2 * (d - 1),
    ensures
        ({
            let h = grid::sweep(g, n, fish::fish_step(size));
            &&& grid::wf(h)
            &&& h.cells == g.cells
            &&& forall|i: int|
                0 <= i < 81 ==> #[trigger] h.cands[i].contains(d) == g.cands[i].contains(d)
        }),
    decreases n,
{
    lemma_steps(size);
    grid::lemma_sweep_follows(g, n, fish::fish_step(size));
    if n > 0 {
        lemma_before_turn(g, d, size, (n - 1) as nat);
    }
}

proof fn lemma_same_fish(
    g: Grid,
    h: Grid,
    by_row: bool,
    d: u8,
    size: nat,
    ls: Set<usize>,
    xs: Set<u8>,
)
    requires
        is_fish(g, by_row, d, size, ls, xs),
        h.cells == g.cells,
        forall|i: int|
            0 <= i < 81 ==> #[trigger] h.cands[i].contains(d) == g.cands[i].contains(d),
    ensures
        is_fish(h, by_row, d, size, ls, xs),
{
    assert forall|l: usize, x: u8| #[trigger] has_at(h, by_row, d, l, x) == has_at(
        g,
        by_row,
        d,
        l,
        x,
    ) by {}
    assert forall|l: usize| #[trigger] ls.contains(l) implies l < 9 && has_some(h, by_row, d, l) by {
        reveal(has_some);
        let x = choose|x: u8| x < 9 && #[trigger] has_at(g, by_row, d, l, x);
        assert(has_at(h, by_row, d, l, x));
    }
    assert forall|x: u8| #[trigger] xs.contains(x) implies x < 9 && has_across(h, by_row, d, ls, x) by {
        reveal(has_across);
        let l = choose|l: usize| ls.contains(l) && #[trigger] has_at(g, by_row, d, l, x);
        assert(has_at(h, by_row, d, l, x));
    }
}

/// Where a solution has the digit on a line.
spec fn solved_place(f: Seq<u8>, by_row: bool, d: u8) -> spec_fn(usize) -> u8 {
    |l: usize| choose|x: u8| x < 9 && #[trigger] f[line_cell(by_row, l as int, x as int)] == d
}

proof fn lemma_solved_place(g: Grid, f: Seq<u8>, by_row: bool, d: u8, l: usize)
    requires
        grid::wf(g),
        grid::fits(g, f),
        1 <= d <= 9,
        l < 9,
        has_some(g, by_row, d, l),
    ensures
        ({
            let x = solved_place(f, by_row, d)(l);
            x < 9 && f[line_cell(by_row, l as int, x as int)] == d && g.cells[line_cell(
                by_row,
                l as int,
                x as int,
            )] == 0
        }),
{
    let u = if by_row {
        l as int
    } else {
        9 + l
    };
    let i = spots::lemma_spot_of(g, f, u, d);
    reveal(has_some);
    let y = choose|y: u8| y < 9 && #[trigger] has_at(g, by_row, d, l, y);
    lemma_at(g, by_row, d, l, y);
    assert(geometry::in_unit(u, line_cell(by_row, l as int, y as int)));
    assert(grid::open_at(g, line_cell(by_row, l as int, y as int), d));
    let z = own_place(by_row, i) as u8;
    assert(line_cell(by_row, l as int, z as int) == i);
    assert(f[line_cell(by_row, l as int, z as int)] == d);
    let x = solved_place(f, by_row, d)(l);
    assert(x < 9 && f[line_cell(by_row, l as int, x as int)] == d);
    let k = line_cell(by_row, l as int, x as int);
    lemma_at(g, by_row, d, l, x);
    if k != i {
        assert(geometry::in_unit(u, k));
        geometry::lemma_unit_peers(u, k, i);
    }
}

/// Where the grid has a solution, what is struck in the meantime does not spoil a fish.
proof fn lemma_fish_lasts(
    g: Grid,
    h: Grid,
    f: Seq<u8>,
    by_row: bool,
    d: u8,
    size: nat,
    ls: Set<usize>,
    xs: Set<u8>,
)
    requires
        grid::wf(g),
        grid::fits(g, f),
        grid::follows(g, h),
        grid::fits(h, f),
        h.cells == g.cells,
        1 <= d <= 9,
        is_fish(g, by_row, d, size, ls, xs),
    ensures
        is_fish(h, by_row, d, size, ls, xs),
{
    let place = solved_place(f, by_row, d);
    assert forall|l: usize| #[trigger] ls.contains(l) implies place(l) < 9 && has_at(
        h,
        by_row,
        d,
        l,
        place(l),
    ) && has_at(g, by_row, d, l, place(l)) by {
        lemma_solved_place(g, f, by_row, d, l);
        let k = line_cell(by_row, l as int, place(l) as int);
        lemma_at(g, by_row, d, l, place(l));
        assert(0 <= k < 81);
        assert(g.cells[k] == 0 && h.cells[k] == 0);
        assert(g.cands[k].contains(f[k]) && h.cands[k].contains(f[k]));
    }
    assert forall|l: usize| #[trigger] ls.contains(l) implies l < 9 && has_some(h, by_row, d, l) by {
        reveal(has_some);
        assert(has_at(h, by_row, d, l, place(l)));
    }
    let image = ls.map(place);
    assert(vstd::relations::injective_on(place, ls)) by {
        assert forall|a: usize, b: usize|
            ls.contains(a) && ls.contains(b) && #[trigger] place(a) == #[trigger] place(b) implies a
            == b by {
            lemma_solved_place(g, f, by_row, d, a);
            lemma_solved_place(g, f, by_row, d, b);
            let (i, j) = (
                line_cell(by_row, a as int, place(a) as int),
                line_cell(by_row, b as int, place(b) as int),
            );
            lemma_at(g, by_row, d, a, place(a));
            lemma_at(g, by_row, d, b, place(b));
            if a != b {
                assert(i != j);
                assert(geometry::peer(i, j));
            }
        }
    }
    vstd::set_lib::lemma_map_size(ls, image, place);
    assert forall|x: u8| #[trigger] image.contains(x) implies xs.contains(x) by {
        let l = choose|l: usize| ls.contains(l) && place(l) == x;
        assert(has_at(g, by_row, d, l, place(l)));
    }
    vstd::set_lib::lemma_subset_equality(image, xs);
    assert forall|x: u8| #[trigger] xs.contains(x) implies x < 9 && has_across(h, by_row, d, ls, x) by {
        reveal(has_across);
        assert(image.contains(x));
        let l = choose|l: usize| ls.contains(l) && place(l) == x;
        assert(has_at(h, by_row, d, l, place(l)));
    }
    assert forall|l: usize, x: u8|
        ls.contains(l) && x < 9 && #[trigger] has_at(h, by_row, d, l, x) implies xs.contains(x) by {
        assert(has_at(g, by_row, d, l, x));
    }
}

/// Fish are complete for every digit from 1 to 9: where `size` rows have one or more
/// spots for it each, all in the same `size` columns, one pass leaves it a candidate in
/// these columns on no other row.
pub proof fn law_fish_on_rows_is_complete(
    g: Grid,
    d: u8,
    size: nat,
    ls: Set<usize>,
    xs: Set<u8>,
    j: int,
)
    requires
        grid::wf(g),
        1 <= d <= 9,
        is_fish(g, true, d, size, ls, xs),
        0 <= j < 81,
        xs.contains((j % 9) as u8),
        !ls.contains((j / 9) as usize),
    ensures
        !fish::fish(g, size).cands[j].contains(d),
{
    let step = fish::fish_step(size);
    let k = turn(true, d);
    let h = grid::sweep(g, k as nat, step);
    lemma_steps(size);
    lemma_before_turn(g, d, size, k as nat);
    lemma_same_fish(g, h, true, d, size, ls, xs);
    lemma_caught_goes(h, true, d, size, ls, xs, j);
    assert(k % 2 == 0 && k / 2 + 1 == d);
    let after = grid::sweep(g, (k + 1) as nat, step);
    assert(after == step(h, k));
    grid::lemma_sweep_later(g, (k + 1) as nat, 18, step);
}

/// The same for columns, where the grid has a solution.
pub proof fn law_fish_on_columns_is_complete(
    g: Grid,
    f: Seq<u8>,
    d: u8,
    size: nat,
    ls: Set<usize>,
    xs: Set<u8>,
    j: int,
)
    requires
        grid::wf(g),
        grid::fits(g, f),
        1 <= d <= 9,
        is_fish(g, false, d, size, ls, xs),
        0 <= j < 81,
        xs.contains((j / 9) as u8),
        !ls.contains((j % 9) as usize),
    ensures
        !fish::fish(g, size).cands[j].contains(d),
{
    let step = fish::fish_step(size);
    let k = turn(false, d);
    let h = grid::sweep(g, k as nat, step);
    lemma_steps(size);
    grid::lemma_sweep_follows(g, k as nat, step);
    grid::lemma_sweep_cells(g, k as nat, step);
    fish::lemma_part_fits(g, f, size, k as nat);
    lemma_fish_lasts(g, h, f, false, d, size, ls, xs);
    lemma_caught_goes(h, false, d, size, ls, xs, j);
    assert(k % 2 == 1 && k / 2 + 1 == d);
    let after = grid::sweep(g, (k + 1) as nat, step);
    assert(after == step(h, k));
    grid::lemma_sweep_later(g, (k + 1) as nat, 18, step);
}

} // verus!
