//! What placing a digit means, and when singles have something to place.

use crate::geometry;
use crate::grid;
use crate::grid::Grid;
use crate::singles;
use crate::spots;
use crate::technique_laws;
use vstd::prelude::*;

verus! {

// ---- Placing ----

/// Some cell that shares a row, a column or a box with `j` holds `e`.
pub open spec fn is_seen(cells: Seq<u8>, j: int, e: u8) -> bool {
    exists|p: int| 0 <= p < 81 && #[trigger] geometry::shares(p, j) && cells[p] == e
}

/// What an empty cell of `h` may become is what it might become in `g`, but for the
/// digits that it sees.
pub open spec fn is_settled(g: Grid, h: Grid) -> bool {
    forall|j: int, e: u8|
        0 <= j < 81 && h.cells[j] == 0 ==> (#[trigger] h.cands[j].contains(e)
            <==> g.cands[j].contains(e) && !is_seen(h.cells, j, e))
}

/// At the start an empty cell may become any digit that it does not see, and a given
/// nothing else.
pub proof fn law_start(b: Seq<u8>)
    requires
        b.len() == 81,
    ensures
        grid::start_grid(b).cells == b,
        forall|j: int, e: u8|
            0 <= j < 81 ==> (#[trigger] grid::start_grid(b).cands[j].contains(e) <==> b[j] == 0
                && 1 <= e <= 9 && !is_seen(b, j, e)),
{
    let g = grid::start_grid(b);
    assert forall|j: int, e: u8| 0 <= j < 81 implies (#[trigger] g.cands[j].contains(e) <==> b[j]
        == 0 && 1 <= e <= 9 && !is_seen(b, j, e)) by {
        if is_seen(b, j, e) {
            let p = choose|p: int| 0 <= p < 81 && #[trigger] geometry::shares(p, j) && b[p] == e;
            geometry::law_peers_share(p, j);
            geometry::law_peers_share(j, p);
            assert(geometry::peer(j, p));
        } else {
            assert forall|p: int| 0 <= p < 81 && #[trigger] geometry::peer(j, p) implies b[p] != e by {
                geometry::law_peers_share(p, j);
                geometry::law_peers_share(j, p);
                assert(geometry::shares(p, j));
            }
        }
    }
}

/// A placed digit stands in its cell and can go nowhere that sees it; nothing else
/// changes.
pub proof fn law_placing_a_digit(g: Grid, i: int, d: u8)
    requires
        grid::wf(g),
        0 <= i < 81,
        g.cands[i].contains(d),
    ensures
        grid::place(g, i, d).cells[i] == d,
        grid::place(g, i, d).cands[i] == Set::<u8>::empty(),
        forall|j: int|
            0 <= j < 81 && j != i ==> #[trigger] grid::place(g, i, d).cells[j] == g.cells[j],
        forall|j: int, e: u8|
            0 <= j < 81 && j != i ==> (#[trigger] grid::place(g, i, d).cands[j].contains(e)
                <==> g.cands[j].contains(e) && !(e == d && geometry::shares(i, j))),
        is_settled(g, grid::place(g, i, d)),
{
    let h = grid::place(g, i, d);
    assert forall|j: int, e: u8| 0 <= j < 81 && j != i implies (#[trigger] h.cands[j].contains(e)
        <==> g.cands[j].contains(e) && !(e == d && geometry::shares(i, j))) by {
        geometry::law_peers_share(i, j);
    }
    assert forall|j: int, e: u8| 0 <= j < 81 && h.cells[j] == 0 implies (
    #[trigger] h.cands[j].contains(e) <==> g.cands[j].contains(e) && !is_seen(h.cells, j, e)) by {
        geometry::law_peers_share(i, j);
        if is_seen(h.cells, j, e) && g.cands[j].contains(e) {
            let p = choose|p: int|
                0 <= p < 81 && #[trigger] geometry::shares(p, j) && h.cells[p] == e;
            geometry::law_peers_share(p, j);
            if p != i {
                assert(geometry::peer(p, j));
                assert(g.cells[p] == e);
            }
        }
        if g.cands[j].contains(e) && !h.cands[j].contains(e) {
            assert(geometry::shares(i, j) && h.cells[i] == e);
        }
    }
}

proof fn lemma_settled_chain(g: Grid, h: Grid, k: Grid)
    requires
        grid::wf(g),
        grid::follows(g, h),
        grid::follows(h, k),
        is_settled(g, h),
        is_settled(h, k),
    ensures
        is_settled(g, k),
{
    assert forall|j: int, e: u8| 0 <= j < 81 && k.cells[j] == 0 implies (
    #[trigger] k.cands[j].contains(e) <==> g.cands[j].contains(e) && !is_seen(k.cells, j, e)) by {
        if h.cells[j] != 0 {
            assert(k.cells[j] == h.cells[j]);
        }
        if g.cands[j].contains(e) && is_seen(h.cells, j, e) {
            let p = choose|p: int|
                0 <= p < 81 && #[trigger] geometry::shares(p, j) && h.cells[p] == e;
            assert(k.cells[p] == e);
            assert(is_seen(k.cells, j, e));
        }
    }
}

/// Some step of the way filled cell `i` with `d` for the reason given.
pub open spec fn placed_for(
    g: Grid,
    end: Grid,
    reason: spec_fn(Grid, int, u8) -> bool,
    i: int,
    d: u8,
) -> bool {
    exists|h: Grid| #[trigger] grid::between(g, h, end) && h.cells[i] == 0 && reason(h, i, d)
}

/// Steps that place with a reason, or do nothing, make such a sweep.
proof fn lemma_sweep_places(
    g: Grid,
    n: nat,
    step: spec_fn(Grid, int) -> Grid,
    reason: spec_fn(Grid, int, u8) -> bool,
)
    requires
        grid::wf(g),
        forall|h: Grid, k: int|
            0 <= k < n && grid::wf(h) ==> grid::follows(h, #[trigger] step(h, k)) && is_settled(
                h,
                step(h, k),
            ),
        forall|h: Grid, k: int, i: int|
            #![trigger step(h, k), h.cells[i]]
            0 <= k < n && grid::wf(h) && 0 <= i < 81 && h.cells[i] == 0 && step(h, k).cells[i] != 0
                ==> reason(h, i, step(h, k).cells[i]),
    ensures
        grid::follows(g, grid::sweep(g, n, step)),
        is_settled(g, grid::sweep(g, n, step)),
        forall|i: int|
            0 <= i < 81 && g.cells[i] == 0 && #[trigger] grid::sweep(g, n, step).cells[i] != 0
                ==> placed_for(
                g,
                grid::sweep(g, n, step),
                reason,
                i,
                grid::sweep(g, n, step).cells[i],
            ),
    decreases n,
{
    let end = grid::sweep(g, n, step);
    if n > 0 {
        let m = (n - 1) as nat;
        lemma_sweep_places(g, m, step, reason);
        let h = grid::sweep(g, m, step);
        assert(grid::follows(h, step(h, n - 1)));
        grid::lemma_chain(g, h, end);
        lemma_settled_chain(g, h, end);
        assert forall|i: int| 0 <= i < 81 && g.cells[i] == 0 && #[trigger] end.cells[i]
            != 0 implies placed_for(g, end, reason, i, end.cells[i]) by {
            if h.cells[i] == 0 {
                assert(reason(h, i, end.cells[i]));
                assert(grid::between(g, h, end));
            } else {
                assert(end.cells[i] == h.cells[i]);
                let k = choose|k: Grid| #[trigger]
                    grid::between(g, k, h) && k.cells[i] == 0 && reason(k, i, h.cells[i]);
                grid::lemma_chain(k, h, end);
                assert(grid::between(g, k, end));
            }
        }
    } else {
        assert forall|j: int, e: u8| 0 <= j < 81 && g.cells[j] == 0 && g.cands[j].contains(
            e,
        ) implies !is_seen(g.cells, j, e) by {
            if is_seen(g.cells, j, e) {
                let p = choose|p: int|
                    0 <= p < 81 && #[trigger] geometry::shares(p, j) && g.cells[p] == e;
                geometry::law_peers_share(p, j);
                assert(geometry::peer(p, j));
            }
        }
    }
}

// ---- Naked singles ----

/// The empty cell `i` can only become `d`.
pub open spec fn is_sole(g: Grid, i: int, d: u8) -> bool {
    &&& technique_laws::spot(g, i, d)
    &&& forall|e: u8| #[trigger] g.cands[i].contains(e) ==> e == d
}

pub open spec fn sole() -> spec_fn(Grid, int, u8) -> bool {
    |g: Grid, i: int, d: u8| is_sole(g, i, d)
}

proof fn lemma_sole(g: Grid, i: int)
    requires
        grid::wf(g),
        0 <= i < 81,
    ensures
        singles::naked_single_at(g, i) != g ==> is_sole(
            g,
            i,
            singles::naked_single_at(g, i).cells[i],
        ),
        forall|d: u8| #[trigger]
            is_sole(g, i, d) ==> singles::naked_single_at(g, i).cells[i] == d
                && singles::naked_single_at(g, i) != g,
        is_settled(g, singles::naked_single_at(g, i)),
        forall|j: int|
            0 <= j < 81 && j != i ==> #[trigger] singles::naked_single_at(g, i).cells[j]
                == g.cells[j],
{
    grid::lemma_cands_finite(g, i);
    let c = g.cands[i];
    if g.cells[i] == 0 && c.len() == 1 {
        let d = c.choose();
        assert(c.contains(d));
        law_placing_a_digit(g, i, d);
        assert forall|e: u8| #[trigger] c.contains(e) implies e == d by {
            if e != d {
                assert(c.remove(d).remove(e).len() + 2 == c.len());
            }
        }
        assert(is_sole(g, i, d));
    } else {
        assert forall|d: u8| !(#[trigger] is_sole(g, i, d)) by {
            if is_sole(g, i, d) {
                assert(c =~= Set::<u8>::empty().insert(d));
            }
        }
        lemma_sweep_places(g, 0, singles::naked_single_step(), sole());
        assert(singles::naked_single_at(g, i) == grid::sweep(g, 0, singles::naked_single_step()));
    }
}

/// Naked singles make progress exactly where some empty cell can only become one digit.
/// Every cell that can only become `d` becomes `d`, unless one that it sees took `d`
/// first. A cell is filled only with the one digit that it can become, and candidates
/// go only because of the digits placed.
pub proof fn law_naked_singles(g: Grid)
    requires
        grid::wf(g),
    ensures
        singles::naked_singles(g) != g <==> exists|i: int, d: u8| #[trigger] is_sole(g, i, d),
        forall|i: int, d: u8| #[trigger]
            is_sole(g, i, d) ==> singles::naked_singles(g).cells[i] == d || is_seen(
                singles::naked_singles(g).cells,
                i,
                d,
            ),
        forall|i: int|
            0 <= i < 81 && g.cells[i] == 0 && #[trigger] singles::naked_singles(g).cells[i] != 0
                ==> placed_for(
                g,
                singles::naked_singles(g),
                sole(),
                i,
                singles::naked_singles(g).cells[i],
            ),
        is_settled(g, singles::naked_singles(g)),
{
    let step = singles::naked_single_step();
    let end = singles::naked_singles(g);
    assert forall|h: Grid, i: int| 0 <= i < 81 && grid::wf(h) implies grid::follows(
        h,
        #[trigger] step(h, i),
    ) && is_settled(h, step(h, i)) by {
        singles::lemma_naked_single_at(h, i);
        lemma_sole(h, i);
    }
    assert forall|h: Grid, k: int, i: int|
        #![trigger step(h, k), h.cells[i]]
        0 <= k < 81 && grid::wf(h) && 0 <= i < 81 && h.cells[i] == 0 && step(h, k).cells[i]
            != 0 implies sole()(h, i, step(h, k).cells[i]) by {
        lemma_sole(h, k);
    }
    lemma_sweep_places(g, 81, step, sole());
    grid::lemma_sweep_changes(g, 81, step);
    if end != g {
        let i = choose|i: int| 0 <= i < 81 && #[trigger] step(g, i) != g;
        lemma_sole(g, i);
    }
    assert forall|i: int, d: u8| #[trigger] is_sole(g, i, d) implies end != g && (end.cells[i] == d
        || is_seen(end.cells, i, d)) by {
        lemma_sole(g, i);
        assert(step(g, i) != g);
        let h = grid::sweep(g, i as nat, step);
        lemma_sweep_places(g, i as nat, step, sole());
        grid::lemma_sweep_later(g, i as nat, 81, step);
        if h.cells[i] != 0 {
            assert(g.cands[i].contains(h.cells[i]));
            assert(end.cells[i] == d);
        } else if h.cands[i].contains(d) {
            assert(is_sole(h, i, d));
            lemma_sole(h, i);
            assert(step(h, i).cells[i] == d);
            assert(grid::sweep(g, (i + 1) as nat, step) == step(h, i));
            grid::lemma_sweep_later(g, (i + 1) as nat, 81, step);
            assert(end.cells[i] == d);
        } else {
            let p = choose|p: int|
                0 <= p < 81 && #[trigger] geometry::shares(p, i) && h.cells[p] == d;
            assert(end.cells[p] == d);
        }
    }
}

// ---- Hidden singles ----

/// No other cell of the same row, of the same column or of the same box can become `d`.
pub open spec fn is_last(g: Grid, i: int, d: u8) -> bool {
    &&& technique_laws::spot(g, i, d)
    &&& (forall|j: int|
        #[trigger] technique_laws::spot(g, j, d) && geometry::row(j) == geometry::row(i) ==> j == i)
        || (forall|j: int|
        #[trigger] technique_laws::spot(g, j, d) && geometry::col(j) == geometry::col(i) ==> j == i)
        || (forall|j: int|
        #[trigger] technique_laws::spot(g, j, d) && geometry::box_no(j) == geometry::box_no(i)
            ==> j == i)
}

pub open spec fn last() -> spec_fn(Grid, int, u8) -> bool {
    |g: Grid, i: int, d: u8| is_last(g, i, d)
}

/// No other cell of unit `u` can become `d`.
spec fn is_last_in(g: Grid, u: int, i: int, d: u8) -> bool {
    &&& 0 <= u < 27
    &&& geometry::in_unit(u, i)
    &&& technique_laws::spot(g, i, d)
    &&& forall|j: int| #[trigger]
        technique_laws::spot(g, j, d) && geometry::in_unit(u, j) ==> j == i
}

proof fn lemma_last_in(g: Grid, u: int, i: int, d: u8)
    requires
        is_last_in(g, u, i, d),
    ensures
        is_last(g, i, d),
{
    if u < 9 {
        assert forall|j: int| #[trigger]
            technique_laws::spot(g, j, d) && geometry::row(j) == geometry::row(i) implies j == i by {
            assert(geometry::in_unit(u, j));
        }
    } else if u < 18 {
        assert forall|j: int| #[trigger]
            technique_laws::spot(g, j, d) && geometry::col(j) == geometry::col(i) implies j == i by {
            assert(geometry::in_unit(u, j));
        }
    } else {
        assert forall|j: int| #[trigger]
            technique_laws::spot(g, j, d) && geometry::box_no(j) == geometry::box_no(
                i,
            ) implies j == i by {
            assert(geometry::in_unit(u, j));
        }
    }
}

proof fn lemma_last_unit(g: Grid, i: int, d: u8) -> (u: int)
    requires
        is_last(g, i, d),
    ensures
        is_last_in(g, u, i, d),
{
    let (r, c, b) = (geometry::row(i), 9 + geometry::col(i), 18 + geometry::box_no(i));
    if forall|j: int|
        #[trigger] technique_laws::spot(g, j, d) && geometry::row(j) == geometry::row(i) ==> j == i {
        assert(is_last_in(g, r, i, d));
        r
    } else if forall|j: int|
        #[trigger] technique_laws::spot(g, j, d) && geometry::col(j) == geometry::col(i) ==> j == i {
        assert(is_last_in(g, c, i, d));
        c
    } else {
        assert(is_last_in(g, b, i, d));
        b
    }
}

proof fn lemma_last(g: Grid, u: int, d: u8)
    requires
        grid::wf(g),
        0 <= u < 27,
        1 <= d <= 9,
    ensures
        forall|i: int| #[trigger]
            is_last_in(g, u, i, d) ==> singles::hidden_single_at(g, u, d) == grid::place(g, i, d),
        singles::hidden_single_at(g, u, d) != g ==> exists|i: int| #[trigger]
            is_last_in(g, u, i, d) && singles::hidden_single_at(g, u, d) == grid::place(g, i, d),
{
    spots::lemma_spots(g, u, d);
    let s = spots::spots(g, u, d);
    assert forall|i: int| #[trigger] is_last_in(g, u, i, d) implies singles::hidden_single_at(
        g,
        u,
        d,
    ) == grid::place(g, i, d) by {
        assert(s.contains(i as usize));
        assert forall|k: int| 0 <= k < s.len() implies s[k] == i as usize by {
            assert(technique_laws::spot(g, s[k] as int, d));
        }
        if s.len() >= 2 {
            assert(s[0] == s[1]);
        }
    }
    if s.len() == 1 {
        let i = s[0] as int;
        assert forall|j: int| #[trigger]
            technique_laws::spot(g, j, d) && geometry::in_unit(u, j) implies j == i by {
            assert(s.contains(j as usize));
        }
        assert(is_last_in(g, u, i, d));
    }
}

proof fn lemma_hidden_step(h: Grid, k: int)
    requires
        grid::wf(h),
        0 <= k < 243,
    ensures
        grid::follows(h, singles::hidden_single_step()(h, k)),
        is_settled(h, singles::hidden_single_step()(h, k)),
        forall|i: int|
            #![trigger h.cells[i]]
            0 <= i < 81 && h.cells[i] == 0 && singles::hidden_single_step()(h, k).cells[i] != 0
                ==> is_last(h, i, singles::hidden_single_step()(h, k).cells[i]),
{
    let (u, d) = (k / 9, (k % 9 + 1) as u8);
    singles::lemma_hidden_single_at(h, u, d);
    lemma_last(h, u, d);
    let m = singles::hidden_single_at(h, u, d);
    if m != h {
        let i = choose|i: int| #[trigger] is_last_in(h, u, i, d) && m == grid::place(h, i, d);
        lemma_last_in(h, u, i, d);
        law_placing_a_digit(h, i, d);
    } else {
        lemma_settled_self(h);
    }
}

/// A grid is settled by itself.
proof fn lemma_settled_self(g: Grid)
    requires
        grid::wf(g),
    ensures
        is_settled(g, g),
{
    lemma_sweep_places(g, 0, singles::naked_single_step(), sole());
}

/// Hidden singles make progress exactly where some cell is the last of its row, of its
/// column or of its box that can become some digit. Every such cell is filled, unless
/// one that it sees took the digit first. A cell is filled only for that reason, and
/// candidates go only because of the digits placed.
pub proof fn law_hidden_singles(g: Grid)
    requires
        grid::wf(g),
    ensures
        singles::hidden_singles(g) != g <==> exists|i: int, d: u8| #[trigger] is_last(g, i, d),
        forall|i: int, d: u8| #[trigger]
            is_last(g, i, d) ==> singles::hidden_singles(g).cells[i] != 0 || is_seen(
                singles::hidden_singles(g).cells,
                i,
                d,
            ),
        forall|i: int|
            0 <= i < 81 && g.cells[i] == 0 && #[trigger] singles::hidden_singles(g).cells[i] != 0
                ==> placed_for(
                g,
                singles::hidden_singles(g),
                last(),
                i,
                singles::hidden_singles(g).cells[i],
            ),
        is_settled(g, singles::hidden_singles(g)),
{
    let step = singles::hidden_single_step();
    let end = singles::hidden_singles(g);
    assert forall|h: Grid, k: int| 0 <= k < 243 && grid::wf(h) implies grid::follows(
        h,
        #[trigger] step(h, k),
    ) && is_settled(h, step(h, k)) by {
        lemma_hidden_step(h, k);
    }
    assert forall|h: Grid, k: int, i: int|
        #![trigger step(h, k), h.cells[i]]
        0 <= k < 243 && grid::wf(h) && 0 <= i < 81 && h.cells[i] == 0 && step(h, k).cells[i]
            != 0 implies last()(h, i, step(h, k).cells[i]) by {
        lemma_hidden_step(h, k);
    }
    lemma_sweep_places(g, 243, step, last());
    grid::lemma_sweep_changes(g, 243, step);
    if end != g {
        let k = choose|k: int| 0 <= k < 243 && #[trigger] step(g, k) != g;
        let (u, d) = (k / 9, (k % 9 + 1) as u8);
        lemma_last(g, u, d);
        let i = choose|i: int| #[trigger]
            is_last_in(g, u, i, d) && singles::hidden_single_at(g, u, d) == grid::place(g, i, d);
        lemma_last_in(g, u, i, d);
    }
    assert forall|i: int, d: u8| #[trigger] is_last(g, i, d) implies end != g && (end.cells[i] != 0
        || is_seen(end.cells, i, d)) by {
        let u = lemma_last_unit(g, i, d);
        let k = 9 * u + d - 1;
        assert(k / 9 == u && k % 9 + 1 == d);
        lemma_last(g, u, d);
        grid::lemma_place(g, i, d);
        assert(step(g, k) != g);
        let h = grid::sweep(g, k as nat, step);
        lemma_sweep_places(g, k as nat, step, last());
        grid::lemma_sweep_later(g, k as nat, 243, step);
        if h.cells[i] != 0 {
            assert(end.cells[i] != 0);
        } else if h.cands[i].contains(d) {
            assert forall|j: int| #[trigger]
                technique_laws::spot(h, j, d) && geometry::in_unit(u, j) implies j == i by {
                assert(g.cands[j].contains(d));
                assert(technique_laws::spot(g, j, d));
            }
            assert(is_last_in(h, u, i, d));
            lemma_last(h, u, d);
            assert(step(h, k) == grid::place(h, i, d));
            assert(grid::sweep(g, (k + 1) as nat, step) == step(h, k));
            grid::lemma_sweep_later(g, (k + 1) as nat, 243, step);
            assert(end.cells[i] == d);
        } else {
            let p = choose|p: int|
                0 <= p < 81 && #[trigger] geometry::shares(p, i) && h.cells[p] == d;
            assert(end.cells[p] == d);
        }
    }
}

} // verus!
