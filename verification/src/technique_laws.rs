//! When a technique has something to say, on the grid alone: it makes progress exactly
//! where its pattern is there with a candidate to strike, it strikes nothing without its
//! pattern, and it places nothing.

use crate::geometry;
use crate::grid;
use crate::grid::Grid;
use crate::locked;
use crate::spots;
use vstd::prelude::*;

verus! {

/// The cell is empty and may become `d`.
pub open spec fn spot(g: Grid, i: int, d: u8) -> bool {
    0 <= i < 81 && g.cells[i] == 0 && g.cands[i].contains(d)
}

/// What dropping candidates strikes.
proof fn lemma_without_struck(g: Grid, gone: spec_fn(int, u8) -> bool, j: int, e: u8)
    requires
        grid::wf(g),
        0 <= j < 81,
    ensures
        grid::struck(g, grid::without(g, gone), j, e) <==> g.cands[j].contains(e) && gone(j, e),
{
}

/// A pattern in the grid that a step is taken on is one on the way.
pub proof fn lemma_at_once(
    g: Grid,
    end: Grid,
    pattern: spec_fn(Grid, int, u8) -> bool,
    j: int,
    e: u8,
)
    requires
        grid::wf(g),
        grid::follows(g, end),
        g.cands[j].contains(e),
        pattern(g, j, e),
    ensures
        grid::caused(g, end, pattern, j, e),
{
    grid::lemma_follows_self(g);
    assert(grid::between(g, g, end));
}

/// Two different members of a list.
proof fn lemma_two_members(s: Seq<usize>, a: usize, b: usize)
    requires
        s.contains(a),
        s.contains(b),
        a != b,
    ensures
        s.len() >= 2,
{
    let (m, n) = (s.index_of(a), s.index_of(b));
    assert(s[m] == a && s[n] == b);
}

// ---- Locked candidates ----

/// Pointing: `a` and `b` are spots for `d` in another box than that of `j`, all of whose
/// spots are in the row of `j`, or all in its column.
pub open spec fn is_pointing(g: Grid, j: int, d: u8, a: int, b: int) -> bool {
    &&& a != b
    &&& spot(g, a, d)
    &&& spot(g, b, d)
    &&& geometry::box_no(a) == geometry::box_no(b)
    &&& geometry::box_no(a) != geometry::box_no(j)
    &&& (forall|i: int|
        #[trigger] spot(g, i, d) && geometry::box_no(i) == geometry::box_no(a) ==> geometry::row(i)
            == geometry::row(j)) || (forall|i: int|
        #[trigger] spot(g, i, d) && geometry::box_no(i) == geometry::box_no(a) ==> geometry::col(i)
            == geometry::col(j))
}

/// Claiming: `a` and `b` are spots for `d` in another row than that of `j`, all of whose
/// spots are in the box of `j`; or in another column.
pub open spec fn is_claiming(g: Grid, j: int, d: u8, a: int, b: int) -> bool {
    &&& a != b
    &&& spot(g, a, d)
    &&& spot(g, b, d)
    &&& {
        ||| geometry::row(a) == geometry::row(b) && geometry::row(a) != geometry::row(j) && forall|
            i: int,
        |
            #[trigger] spot(g, i, d) && geometry::row(i) == geometry::row(a) ==> geometry::box_no(i)
                == geometry::box_no(j)
        ||| geometry::col(a) == geometry::col(b) && geometry::col(a) != geometry::col(j) && forall|
            i: int,
        |
            #[trigger] spot(g, i, d) && geometry::col(i) == geometry::col(a) ==> geometry::box_no(i)
                == geometry::box_no(j)
    }
}

/// Locked candidates rule digit `d` out in cell `j`.
pub open spec fn locked_out() -> spec_fn(Grid, int, u8) -> bool {
    |g: Grid, j: int, d: u8|
        (exists|a: int, b: int| #[trigger] is_pointing(g, j, d, a, b)) || (exists|a: int, b: int|
            #[trigger] is_claiming(g, j, d, a, b))
}

proof fn lemma_pointing_strikes(g: Grid, k: int, j: int, e: u8)
    requires
        grid::wf(g),
        0 <= k < 81,
        0 <= j < 81,
        grid::struck(g, locked::pointing_step()(g, k), j, e),
    ensures
        locked_out()(g, j, e),
{
    let (b, d) = (k / 9, (k % 9 + 1) as u8);
    let s = spots::spots(g, 18 + b, d);
    spots::lemma_spots(g, 18 + b, d);
    lemma_without_struck(g, locked::pointing_gone(s, b, d), j, e);
    assert(s[0] != s[1]);
    assert(grid::open_at(g, s[0] as int, d) && grid::open_at(g, s[1] as int, d));
    assert forall|i: int| #[trigger] spot(g, i, d) && geometry::box_no(i) == b implies exists|n: int|
        0 <= n < s.len() && #[trigger] s[n] == i by {
        assert(s.contains(i as usize));
        let n = s.index_of(i as usize);
        assert(s[n] == i);
    }
    assert(is_pointing(g, j, d, s[0] as int, s[1] as int));
}

proof fn lemma_claiming_strikes(g: Grid, k: int, j: int, e: u8)
    requires
        grid::wf(g),
        0 <= k < 162,
        0 <= j < 81,
        grid::struck(g, locked::claiming_step()(g, k), j, e),
    ensures
        locked_out()(g, j, e),
{
    let (u, d) = (k / 9, (k % 9 + 1) as u8);
    let s = spots::spots(g, u, d);
    spots::lemma_spots(g, u, d);
    lemma_without_struck(g, locked::claiming_gone(s, u, d), j, e);
    assert(s[0] != s[1]);
    assert(grid::open_at(g, s[0] as int, d) && grid::open_at(g, s[1] as int, d));
    assert forall|i: int| #[trigger] spot(g, i, d) && geometry::in_unit(u, i) implies exists|n: int|
        0 <= n < s.len() && #[trigger] s[n] == i by {
        assert(s.contains(i as usize));
        let n = s.index_of(i as usize);
        assert(s[n] == i);
    }
    assert(is_claiming(g, j, d, s[0] as int, s[1] as int));
}

/// What pointing rules out is struck at its turn.
proof fn lemma_pointing_goes(g: Grid, j: int, d: u8, a: int, b: int)
    requires
        grid::wf(g),
        0 <= j < 81,
        1 <= d <= 9,
        is_pointing(g, j, d, a, b),
    ensures
        0 <= geometry::box_no(a) * 9 + d - 1 < 81,
        !locked::pointing_step()(g, geometry::box_no(a) * 9 + d - 1).cands[j].contains(d),
{
    let n = geometry::box_no(a);
    let s = spots::spots(g, 18 + n, d);
    spots::lemma_spots(g, 18 + n, d);
    assert(s.contains(a as usize) && s.contains(b as usize));
    lemma_two_members(s, a as usize, b as usize);
    assert forall|k: int| 0 <= k < s.len() implies spot(g, #[trigger] s[k] as int, d)
        && geometry::box_no(s[k] as int) == n by {}
    let k = n * 9 + d - 1;
    assert(k / 9 == n && k % 9 == d - 1);
    let gone = locked::pointing_gone(s, n, d);
    assert(gone(j, d));
    lemma_without_struck(g, gone, j, d);
}

/// The line that claims the digit.
spec fn claimed_line(g: Grid, j: int, d: u8, a: int, b: int) -> int {
    if geometry::row(a) == geometry::row(b) && geometry::row(a) != geometry::row(j) && forall|i: int|
        #[trigger] spot(g, i, d) && geometry::row(i) == geometry::row(a) ==> geometry::box_no(i)
            == geometry::box_no(j) {
        geometry::row(a)
    } else {
        9 + geometry::col(a)
    }
}

/// The spots of that line.
spec fn is_claimed(g: Grid, j: int, d: u8, u: int, a: int, b: int) -> bool {
    &&& 0 <= u < 18
    &&& a != b
    &&& spot(g, a, d)
    &&& spot(g, b, d)
    &&& geometry::in_unit(u, a)
    &&& geometry::in_unit(u, b)
    &&& !geometry::in_unit(u, j)
    &&& forall|i: int| #[trigger]
        spot(g, i, d) && geometry::in_unit(u, i) ==> geometry::box_no(i) == geometry::box_no(j)
}

proof fn lemma_claimed(g: Grid, j: int, d: u8, a: int, b: int)
    requires
        is_claiming(g, j, d, a, b),
    ensures
        is_claimed(g, j, d, claimed_line(g, j, d, a, b), a, b),
{
    let u = claimed_line(g, j, d, a, b);
    assert forall|i: int| #[trigger] spot(g, i, d) && geometry::in_unit(u, i) implies geometry::box_no(
        i,
    ) == geometry::box_no(j) by {
        if u < 9 {
            assert(geometry::row(i) == geometry::row(a));
        } else {
            assert(geometry::col(i) == geometry::col(a));
        }
    }
}

/// What claiming rules out is struck at its turn.
proof fn lemma_claiming_goes(g: Grid, j: int, d: u8, u: int, a: int, b: int)
    requires
        grid::wf(g),
        0 <= j < 81,
        1 <= d <= 9,
        is_claimed(g, j, d, u, a, b),
    ensures
        0 <= u * 9 + d - 1 < 162,
        !locked::claiming_step()(g, u * 9 + d - 1).cands[j].contains(d),
{
    let s = spots::spots(g, u, d);
    spots::lemma_spots(g, u, d);
    assert(s.contains(a as usize) && s.contains(b as usize));
    lemma_two_members(s, a as usize, b as usize);
    assert forall|k: int| 0 <= k < s.len() implies geometry::box_no(#[trigger] s[k] as int)
        == geometry::box_no(j) by {
        assert(spot(g, s[k] as int, d) && geometry::in_unit(u, s[k] as int));
    }
    let k = u * 9 + d - 1;
    assert(k / 9 == u && k % 9 == d - 1);
    let gone = locked::claiming_gone(s, u, d);
    assert(gone(j, d));
    lemma_without_struck(g, gone, j, d);
}

proof fn lemma_locked_step_found(g: Grid, j: int, d: u8)
    requires
        grid::wf(g),
        0 <= j < 81,
        g.cands[j].contains(d),
        locked_out()(g, j, d),
    ensures
        (exists|k: int| 0 <= k < 81 && #[trigger] locked::pointing_step()(g, k) != g) || (exists|
            k: int,
        | 0 <= k < 162 && #[trigger] locked::claiming_step()(g, k) != g),
{
    if exists|a: int, b: int| #[trigger] is_pointing(g, j, d, a, b) {
        let (a, b) = choose|a: int, b: int| #[trigger] is_pointing(g, j, d, a, b);
        lemma_pointing_goes(g, j, d, a, b);
        assert(locked::pointing_step()(g, geometry::box_no(a) * 9 + d - 1) != g);
    } else {
        let (a, b) = choose|a: int, b: int| #[trigger] is_claiming(g, j, d, a, b);
        let u = claimed_line(g, j, d, a, b);
        lemma_claimed(g, j, d, a, b);
        lemma_claiming_goes(g, j, d, u, a, b);
        assert(locked::claiming_step()(g, u * 9 + d - 1) != g);
    }
}

/// Locked candidates make progress exactly where pointing or claiming rules out a
/// candidate, and strike a candidate only for that reason. They place nothing.
pub proof fn law_locked_candidates(g: Grid)
    requires
        grid::wf(g),
    ensures
        locked::locked_candidates(g).cells == g.cells,
        locked::locked_candidates(g) != g <==> exists|j: int, d: u8|
            0 <= j < 81 && g.cands[j].contains(d) && #[trigger] locked_out()(g, j, d),
        forall|j: int, d: u8|
            0 <= j < 81 && #[trigger] grid::struck(g, locked::locked_candidates(g), j, d)
                ==> grid::caused(g, locked::locked_candidates(g), locked_out(), j, d),
{
    let (p, c) = (locked::pointing_step(), locked::claiming_step());
    let h = grid::sweep(g, 81, p);
    let end = locked::locked_candidates(g);
    locked::lemma_locked_steps();
    locked::lemma_locked_candidates(g);
    grid::lemma_sweep_follows(g, 81, p);
    grid::lemma_sweep_follows(h, 162, c);
    grid::lemma_sweep_cells(g, 81, p);
    grid::lemma_sweep_cells(h, 162, c);
    grid::lemma_sweep_changes(g, 81, p);
    grid::lemma_sweep_changes(g, 162, c);
    grid::lemma_stages(g, h, end);
    if end != g {
        if h != g {
            let k = choose|k: int| 0 <= k < 81 && #[trigger] p(g, k) != g;
            let (j, d) = grid::lemma_some_struck(g, p(g, k));
            lemma_pointing_strikes(g, k, j, d);
            assert(locked_out()(g, j, d));
        } else {
            let k = choose|k: int| 0 <= k < 162 && #[trigger] c(g, k) != g;
            let (j, d) = grid::lemma_some_struck(g, c(g, k));
            lemma_claiming_strikes(g, k, j, d);
            assert(locked_out()(g, j, d));
        }
    }
    if exists|j: int, d: u8| 0 <= j < 81 && g.cands[j].contains(d) && #[trigger] locked_out()(g, j, d) {
        let (j, d) = choose|j: int, d: u8|
            0 <= j < 81 && g.cands[j].contains(d) && #[trigger] locked_out()(g, j, d);
        lemma_locked_step_found(g, j, d);
        assert(end != g);
    }
    assert forall|j: int, d: u8| 0 <= j < 81 && #[trigger] grid::struck(g, end, j, d) implies grid::caused(
        g,
        end,
        locked_out(),
        j,
        d,
    ) by {
        assert forall|m: Grid, k: int| 0 <= k < 81 && grid::wf(m) && grid::struck(
            m,
            #[trigger] p(m, k),
            j,
            d,
        ) implies grid::caused(m, p(m, k), locked_out(), j, d) by {
            lemma_pointing_strikes(m, k, j, d);
            lemma_at_once(m, p(m, k), locked_out(), j, d);
        }
        assert forall|m: Grid, k: int| 0 <= k < 162 && grid::wf(m) && grid::struck(
            m,
            #[trigger] c(m, k),
            j,
            d,
        ) implies grid::caused(m, c(m, k), locked_out(), j, d) by {
            lemma_claiming_strikes(m, k, j, d);
            lemma_at_once(m, c(m, k), locked_out(), j, d);
        }
        if h.cands[j].contains(d) {
            grid::lemma_sweep_caused(h, 162, c, locked_out(), j, d);
            let k = choose|k: Grid| #[trigger]
                grid::between(h, k, end) && k.cands[j].contains(d) && locked_out()(k, j, d);
            grid::lemma_chain(g, h, k);
            assert(grid::between(g, k, end));
        } else {
            grid::lemma_sweep_caused(g, 81, p, locked_out(), j, d);
            let k = choose|k: Grid| #[trigger]
                grid::between(g, k, h) && k.cands[j].contains(d) && locked_out()(k, j, d);
            grid::lemma_chain(k, h, end);
            assert(grid::between(g, k, end));
        }
    }
}

/// One pass of locked candidates is complete: what pointing ruled out at the start is gone,
/// while two of the spots that point are left at the end.
pub proof fn law_pointing_is_complete(g: Grid, j: int, d: u8, a: int, b: int)
    requires
        grid::wf(g),
        0 <= j < 81,
        1 <= d <= 9,
        is_pointing(g, j, d, a, b),
        spot(locked::locked_candidates(g), a, d),
        spot(locked::locked_candidates(g), b, d),
    ensures
        !locked::locked_candidates(g).cands[j].contains(d),
{
    let (p, c) = (locked::pointing_step(), locked::claiming_step());
    let half = grid::sweep(g, 81, p);
    let end = locked::locked_candidates(g);
    locked::lemma_locked_steps();
    grid::lemma_sweep_follows(g, 81, p);
    grid::lemma_sweep_follows(half, 162, c);
    grid::lemma_sweep_cells(g, 81, p);
    grid::lemma_sweep_cells(half, 162, c);
    let k = geometry::box_no(a) * 9 + d - 1;
    assert(0 <= k < 81);
    let h = grid::lemma_sweep_at(g, 81, p, k);
    grid::lemma_sweep_cells(g, k as nat, p);
    assert(spot(half, a, d) && spot(half, b, d));
    assert(spot(h, a, d) && spot(h, b, d));
    assert forall|i: int| #[trigger] spot(h, i, d) implies spot(g, i, d) by {
        assert(h.cands[i].contains(d));
    }
    assert(is_pointing(h, j, d, a, b));
    lemma_pointing_goes(h, j, d, a, b);
}

/// The same for claiming.
pub proof fn law_claiming_is_complete(g: Grid, j: int, d: u8, a: int, b: int)
    requires
        grid::wf(g),
        0 <= j < 81,
        1 <= d <= 9,
        is_claiming(g, j, d, a, b),
        spot(locked::locked_candidates(g), a, d),
        spot(locked::locked_candidates(g), b, d),
    ensures
        !locked::locked_candidates(g).cands[j].contains(d),
{
    let (p, c) = (locked::pointing_step(), locked::claiming_step());
    let half = grid::sweep(g, 81, p);
    let end = locked::locked_candidates(g);
    locked::lemma_locked_steps();
    grid::lemma_sweep_follows(g, 81, p);
    grid::lemma_sweep_follows(half, 162, c);
    grid::lemma_sweep_cells(g, 81, p);
    grid::lemma_sweep_cells(half, 162, c);
    let u = claimed_line(g, j, d, a, b);
    lemma_claimed(g, j, d, a, b);
    let k = u * 9 + d - 1;
    assert(0 <= k < 162);
    let h = grid::lemma_sweep_at(half, 162, c, k);
    grid::lemma_sweep_cells(half, k as nat, c);
    grid::lemma_chain(g, half, h);
    assert(spot(h, a, d) && spot(h, b, d));
    assert forall|i: int| #[trigger] spot(h, i, d) implies spot(g, i, d) by {
        assert(h.cands[i].contains(d));
    }
    assert(is_claimed(h, j, d, u, a, b));
    lemma_claiming_goes(h, j, d, u, a, b);
}

} // verus!
