//! When the wings have something to say.

use crate::chains;
use crate::geometry;
use crate::grid;
use crate::grid::Grid;
use crate::link_laws;
use crate::seqs;
use crate::technique_laws;
use crate::wings;
use vstd::prelude::*;

verus! {

/// The empty cell `i` can become `x` or `y` and nothing else.
pub open spec fn has_two(g: Grid, i: int, x: u8, y: u8) -> bool {
    &&& 0 <= i < 81
    &&& g.cells[i] == 0
    &&& x != y
    &&& forall|e: u8| #[trigger] g.cands[i].contains(e) <==> e == x || e == y
}

pub proof fn lemma_has_two(g: Grid, i: int, x: u8, y: u8)
    requires
        has_two(g, i, x, y),
    ensures
        g.cands[i] == Set::<u8>::empty().insert(x).insert(y),
        g.cands[i].finite(),
        g.cands[i].len() == 2,
{
    assert(g.cands[i] =~= Set::<u8>::empty().insert(x).insert(y));
}

/// A cell with two candidates of which one is `x` has another.
pub proof fn lemma_other(g: Grid, i: int, x: u8) -> (y: u8)
    requires
        grid::wf(g),
        0 <= i < 81,
        g.cands[i].len() == 2,
        g.cands[i].contains(x),
    ensures
        has_two(g, i, x, y),
{
    let s = g.cands[i];
    grid::lemma_cands_finite(g, i);
    let y = s.remove(x).choose();
    assert(s.remove(x).len() == 1);
    assert(s.remove(x).contains(y));
    assert forall|e: u8| #[trigger] s.contains(e) implies e == x || e == y by {
        seqs::lemma_pair(s, x, y, e);
    }
    y
}

// ---- XY-Wing ----

/// The pivot `p` can become `x` or `y`, the wing `a` that it sees `x` or `z`, the wing
/// `b` that it sees `y` or `z`; and cell `j` sees both wings.
pub open spec fn is_xy_wing(
    g: Grid,
    j: int,
    z: u8,
    p: int,
    a: int,
    b: int,
    x: u8,
    y: u8,
) -> bool {
    &&& has_two(g, p, x, y)
    &&& has_two(g, a, x, z)
    &&& has_two(g, b, y, z)
    &&& geometry::shares(p, a)
    &&& geometry::shares(p, b)
    &&& geometry::shares(a, j)
    &&& geometry::shares(b, j)
}

/// An XY-Wing rules `z` out in cell `j`.
pub open spec fn xy_out() -> spec_fn(Grid, int, u8) -> bool {
    |g: Grid, j: int, z: u8|
        exists|p: int, a: int, b: int, x: u8, y: u8| #[trigger] is_xy_wing(g, j, z, p, a, b, x, y)
}

proof fn lemma_xy_strikes(g: Grid, p: usize, a: usize, b: usize, j: int, z: u8)
    requires
        grid::wf(g),
        p < 81,
        a < 81,
        b < 81,
        0 <= j < 81,
        geometry::peer(p as int, a as int),
        geometry::peer(p as int, b as int),
        grid::struck(g, wings::xy_at(g, p, a, b), j, z),
    ensures
        xy_out()(g, j, z),
{
    let (ps, ws, vs) = (g.cands[p as int], g.cands[a as int], g.cands[b as int]);
    assert(wings::is_xy(ps, ws, vs));
    assert(wings::seen_by_two(a as int, b as int, ws.difference(ps))(j, z));
    let both = ps.intersect(ws);
    grid::lemma_cands_finite(g, p as int);
    grid::lemma_cands_finite(g, a as int);
    let x = both.choose();
    assert(both.contains(x));
    let y = lemma_other(g, p as int, x);
    let o = lemma_other(g, a as int, x);
    assert(o == z);
    assert forall|e: u8| #[trigger] vs.contains(e) <==> e == y || e == z by {
        assert(ps.contains(e) <==> e == x || e == y);
        assert(ws.contains(e) <==> e == x || e == z);
    }
    geometry::law_peers_share(p as int, a as int);
    geometry::law_peers_share(p as int, b as int);
    geometry::law_peers_share(j, a as int);
    geometry::law_peers_share(j, b as int);
    assert(y != z) by {
        assert(ps.contains(y));
    }
    assert(g.cands[b as int].contains(z));
    assert(has_two(g, b as int, y, z));
    assert(is_xy_wing(g, j, z, p as int, a as int, b as int, x, y));
}

proof fn lemma_xy_found(g: Grid, j: int, z: u8, p: int, a: int, b: int, x: u8, y: u8)
    requires
        grid::wf(g),
        0 <= j < 81,
        is_xy_wing(g, j, z, p, a, b, x, y),
    ensures
        !wings::xy_at(g, p as usize, a as usize, b as usize).cands[j].contains(z),
{
    let (ps, ws, vs) = (g.cands[p], g.cands[a], g.cands[b]);
    lemma_has_two(g, p, x, y);
    lemma_has_two(g, a, x, z);
    assert(ps.intersect(ws) =~= Set::<u8>::empty().insert(x));
    assert(vs =~= ps.difference(ws).union(ws.difference(ps)));
    geometry::law_peers_share(j, a);
    geometry::law_peers_share(a, j);
    geometry::law_peers_share(j, b);
    geometry::law_peers_share(b, j);
    assert(wings::seen_by_two(a, b, ws.difference(ps))(j, z));
    let h = wings::xy_at(g, p as usize, a as usize, b as usize);
    assert(!h.cands[j].contains(z));
}

/// A cell with two candidates that sees the pivot is one of its wings.
proof fn lemma_wing_listed(g: Grid, p: int, a: int) -> (k: int)
    requires
        0 <= p < 81,
        0 <= a < 81,
        geometry::shares(p, a),
        g.cells[a] == 0,
        g.cands[a].len() == 2,
    ensures
        0 <= k < wings::xy_wings(wings::valued(g, 2), p as usize).len(),
        wings::xy_wings(wings::valued(g, 2), p as usize)[k] == a,
{
    let two = wings::valued(g, 2);
    let ws = wings::xy_wings(two, p as usize);
    wings::lemma_valued(g, 2);
    geometry::law_peers_share(p, a);
    geometry::law_peer_list(p);
    seqs::lemma_filter_members(geometry::peer_list(p), wings::is_member(two));
    assert(wings::is_valued(g, 2)(a as usize));
    assert(two.contains(a as usize));
    assert(geometry::peer_list(p).contains(a as usize));
    assert(ws.contains(a as usize));
    ws.index_of(a as usize)
}

proof fn lemma_xy_cells(two: Seq<usize>)
    ensures
        forall|p: usize, a: usize, ws: Seq<usize>, h: Grid, k: int|
            grid::wf(h) ==> (#[trigger] wings::xy_second_step(p, a, ws)(h, k)).cells == h.cells,
        forall|p: usize, ws: Seq<usize>, h: Grid, k: int|
            grid::wf(h) ==> (#[trigger] wings::xy_first_step(p, ws)(h, k)).cells == h.cells,
        forall|h: Grid, k: int|
            grid::wf(h) ==> (#[trigger] wings::xy_pivot_step(two)(h, k)).cells == h.cells,
{
    wings::lemma_xy_steps(two);
    assert forall|p: usize, ws: Seq<usize>, h: Grid, k: int| grid::wf(h) implies (
    #[trigger] wings::xy_first_step(p, ws)(h, k)).cells == h.cells by {
        grid::lemma_sweep_cells(h, ws.len(), wings::xy_second_step(p, ws[k], ws));
    }
    assert forall|h: Grid, k: int| grid::wf(h) implies (
    #[trigger] wings::xy_pivot_step(two)(h, k)).cells == h.cells by {
        let ws = wings::xy_wings(two, two[k]);
        grid::lemma_sweep_cells(h, ws.len(), wings::xy_first_step(two[k], ws));
    }
}

/// XY-Wing makes progress exactly where a cell that can become `x` or `y` sees one that
/// can become `x` or `z` and one that can become `y` or `z`, and `z` is a candidate of a
/// cell that sees these two. It strikes a candidate only for that reason, and places
/// nothing.
pub proof fn law_xy_wing(g: Grid)
    requires
        grid::wf(g),
    ensures
        wings::xy_wing(g).cells == g.cells,
        wings::xy_wing(g) != g <==> exists|j: int, z: u8|
            0 <= j < 81 && g.cands[j].contains(z) && #[trigger] xy_out()(g, j, z),
        forall|j: int, z: u8|
            0 <= j < 81 && #[trigger] grid::struck(g, wings::xy_wing(g), j, z) ==> grid::caused(
                g,
                wings::xy_wing(g),
                xy_out(),
                j,
                z,
            ),
{
    let two = wings::valued(g, 2);
    let step = wings::xy_pivot_step(two);
    let end = wings::xy_wing(g);
    wings::lemma_valued(g, 2);
    wings::lemma_xy_steps(two);
    lemma_xy_cells(two);
    grid::lemma_sweep_cells(g, two.len(), step);
    grid::lemma_sweep_changes(g, two.len(), step);
    if end != g {
        let n = choose|n: int| 0 <= n < two.len() && #[trigger] step(g, n) != g;
        let p = two[n];
        let ws = wings::xy_wings(two, p);
        wings::lemma_xy_wings(two, p);
        let first = wings::xy_first_step(p, ws);
        grid::lemma_sweep_changes(g, ws.len(), first);
        let k = choose|k: int| 0 <= k < ws.len() && #[trigger] first(g, k) != g;
        let second = wings::xy_second_step(p, ws[k], ws);
        grid::lemma_sweep_changes(g, ws.len(), second);
        let m = choose|m: int| 0 <= m < ws.len() && #[trigger] second(g, m) != g;
        let (j, z) = grid::lemma_some_struck(g, second(g, m));
        lemma_xy_strikes(g, p, ws[k], ws[m], j, z);
    }
    if exists|j: int, z: u8| 0 <= j < 81 && g.cands[j].contains(z) && #[trigger] xy_out()(g, j, z) {
        let (j, z) = choose|j: int, z: u8|
            0 <= j < 81 && g.cands[j].contains(z) && #[trigger] xy_out()(g, j, z);
        let (p, a, b, x, y) = choose|p: int, a: int, b: int, x: u8, y: u8| #[trigger]
            is_xy_wing(g, j, z, p, a, b, x, y);
        lemma_xy_found(g, j, z, p, a, b, x, y);
        lemma_has_two(g, p, x, y);
        lemma_has_two(g, a, x, z);
        lemma_has_two(g, b, y, z);
        assert(wings::is_valued(g, 2)(p as usize));
        assert(two.contains(p as usize));
        let n = two.index_of(p as usize);
        let k = lemma_wing_listed(g, p, a);
        let m = lemma_wing_listed(g, p, b);
        let ws = wings::xy_wings(two, p as usize);
        let second = wings::xy_second_step(p as usize, a as usize, ws);
        grid::lemma_sweep_changes(g, ws.len(), second);
        assert(second(g, m) != g);
        let first = wings::xy_first_step(p as usize, ws);
        grid::lemma_sweep_changes(g, ws.len(), first);
        assert(first(g, k) != g);
        assert(step(g, n) != g);
    }
    assert forall|j: int, z: u8| 0 <= j < 81 && #[trigger] grid::struck(g, end, j, z) implies grid::caused(
        g,
        end,
        xy_out(),
        j,
        z,
    ) by {
        lemma_xy_caused(g, j, z);
    }
}

proof fn lemma_xy_caused(g: Grid, j: int, z: u8)
    requires
        grid::wf(g),
        0 <= j < 81,
        grid::struck(g, wings::xy_wing(g), j, z),
    ensures
        grid::caused(g, wings::xy_wing(g), xy_out(), j, z),
{
    let two = wings::valued(g, 2);
    let step = wings::xy_pivot_step(two);
    wings::lemma_valued(g, 2);
    wings::lemma_xy_steps(two);
    assert forall|h: Grid, n: int| 0 <= n < two.len() && grid::wf(h) && grid::struck(
        h,
        #[trigger] step(h, n),
        j,
        z,
    ) implies grid::caused(h, step(h, n), xy_out(), j, z) by {
        let p = two[n];
        let ws = wings::xy_wings(two, p);
        wings::lemma_xy_wings(two, p);
        let first = wings::xy_first_step(p, ws);
        assert forall|i: Grid, k: int| 0 <= k < ws.len() && grid::wf(i) && grid::struck(
            i,
            #[trigger] first(i, k),
            j,
            z,
        ) implies grid::caused(i, first(i, k), xy_out(), j, z) by {
            let second = wings::xy_second_step(p, ws[k], ws);
            assert forall|f: Grid, m: int| 0 <= m < ws.len() && grid::wf(f) && grid::struck(
                f,
                #[trigger] second(f, m),
                j,
                z,
            ) implies grid::caused(f, second(f, m), xy_out(), j, z) by {
                lemma_xy_strikes(f, p, ws[k], ws[m], j, z);
                technique_laws::lemma_at_once(f, second(f, m), xy_out(), j, z);
            }
            grid::lemma_sweep_caused(i, ws.len(), second, xy_out(), j, z);
        }
        grid::lemma_sweep_caused(h, ws.len(), first, xy_out(), j, z);
    }
    grid::lemma_sweep_caused(g, two.len(), step, xy_out(), j, z);
}

// ---- XYZ-Wing ----

/// The empty cell `i` can become `x`, `y` or `z` and nothing else.
pub open spec fn has_three(g: Grid, i: int, x: u8, y: u8, z: u8) -> bool {
    &&& 0 <= i < 81
    &&& g.cells[i] == 0
    &&& x != y && y != z && x != z
    &&& forall|e: u8| #[trigger] g.cands[i].contains(e) <==> e == x || e == y || e == z
}

/// Cell `j` sees the pivot and both wings, which the pivot sees.
pub open spec fn is_in_view(j: int, p: int, a: int, b: int) -> bool {
    &&& 0 <= p < 81 && 0 <= a < 81 && 0 <= b < 81
    &&& a != b
    &&& geometry::shares(p, a)
    &&& geometry::shares(p, b)
    &&& geometry::shares(p, j)
    &&& geometry::shares(a, j)
    &&& geometry::shares(b, j)
}

/// The pivot `p` can become `x`, `y` or `z`, the wing `a` can become `x` or `z`, and the
/// wing `b` can become `y` or `z`.
pub open spec fn is_xyz_wing(
    g: Grid,
    j: int,
    z: u8,
    p: int,
    a: int,
    b: int,
    x: u8,
    y: u8,
) -> bool {
    &&& is_in_view(j, p, a, b)
    &&& has_three(g, p, x, y, z)
    &&& has_two(g, a, x, z)
    &&& has_two(g, b, y, z)
}

/// An XYZ-Wing rules `z` out in cell `j`.
pub open spec fn xyz_out() -> spec_fn(Grid, int, u8) -> bool {
    |g: Grid, j: int, z: u8|
        exists|p: int, a: int, b: int, x: u8, y: u8| #[trigger] is_xyz_wing(g, j, z, p, a, b, x, y)
}

/// The pivot can become what one of the wings can, and `z` is all that both can become.
pub open spec fn is_xyz_left(g: Grid, j: int, z: u8, p: int, a: int, b: int) -> bool {
    &&& is_in_view(j, p, a, b)
    &&& forall|e: u8|
        #![trigger g.cands[p].contains(e)]
        g.cands[p].contains(e) <==> g.cands[a].contains(e) || g.cands[b].contains(e)
    &&& forall|e: u8|
        #![trigger g.cands[a].contains(e)]
        g.cands[a].contains(e) && g.cands[b].contains(e) <==> e == z
}

/// What is left of an XYZ-Wing, whose cells may have lost candidates since, rules `z` out
/// in cell `j`.
pub open spec fn xyz_left() -> spec_fn(Grid, int, u8) -> bool {
    |g: Grid, j: int, z: u8|
        exists|p: int, a: int, b: int| #[trigger] is_xyz_left(g, j, z, p, a, b)
}

proof fn lemma_xyz_strikes(g: Grid, p: usize, a: usize, b: usize, j: int, z: u8)
    requires
        grid::wf(g),
        p < 81,
        a < 81,
        b < 81,
        a != b,
        0 <= j < 81,
        geometry::peer(p as int, a as int),
        geometry::peer(p as int, b as int),
        grid::struck(g, wings::xyz_at(g, p, a, b), j, z),
    ensures
        xyz_left()(g, j, z),
        g.cands[p as int].len() == 3 && g.cands[a as int].len() == 2 && g.cands[b as int].len()
            == 2 ==> xyz_out()(g, j, z),
{
    let (ps, ws, vs) = (g.cands[p as int], g.cands[a as int], g.cands[b as int]);
    assert(wings::is_xyz(ps, ws, vs));
    assert(wings::seen_by_three(p as int, a as int, b as int, ws.intersect(vs))(j, z));
    let both = ws.intersect(vs);
    grid::lemma_cands_finite(g, p as int);
    grid::lemma_cands_finite(g, a as int);
    grid::lemma_cands_finite(g, b as int);
    geometry::law_peers_share(p as int, a as int);
    geometry::law_peers_share(p as int, b as int);
    geometry::law_peers_share(j, p as int);
    geometry::law_peers_share(j, a as int);
    geometry::law_peers_share(j, b as int);
    assert forall|e: u8| both.contains(e) implies e == z by {
        if e != z {
            assert(both.remove(e).remove(z).len() + 2 == both.len());
        }
    }
    assert forall|e: u8|
        #![trigger ps.contains(e)]
        ps.contains(e) <==> ws.contains(e) || vs.contains(e) by {
        assert(ws.union(vs).contains(e) <==> ps.contains(e));
    }
    assert forall|e: u8|
        #![trigger ws.contains(e)]
        ws.contains(e) && vs.contains(e) <==> e == z by {
        assert(both.contains(e) <==> ws.contains(e) && vs.contains(e));
    }
    assert(is_xyz_left(g, j, z, p as int, a as int, b as int));
    if ps.len() == 3 && ws.len() == 2 && vs.len() == 2 {
        let x = lemma_other(g, a as int, z);
        let y = lemma_other(g, b as int, z);
        assert(x != y) by {
            if x == y {
                assert(vs.contains(x));
                assert(both.contains(x));
            }
        }
        assert forall|e: u8| #[trigger] ps.contains(e) <==> e == x || e == y || e == z by {
            assert(ws.contains(e) <==> e == x || e == z);
            assert(vs.contains(e) <==> e == y || e == z);
        }
        assert(g.cands[p as int].contains(z));
        assert(has_three(g, p as int, x, y, z));
        assert(has_two(g, a as int, x, z));
        assert(has_two(g, b as int, y, z));
        assert(is_xyz_wing(g, j, z, p as int, a as int, b as int, x, y));
    }
}

proof fn lemma_xyz_found(g: Grid, j: int, z: u8, p: int, a: int, b: int, x: u8, y: u8)
    requires
        grid::wf(g),
        0 <= j < 81,
        is_xyz_wing(g, j, z, p, a, b, x, y),
    ensures
        !wings::xyz_at(g, p as usize, a as usize, b as usize).cands[j].contains(z),
        !wings::xyz_at(g, p as usize, b as usize, a as usize).cands[j].contains(z),
{
    let (ps, ws, vs) = (g.cands[p], g.cands[a], g.cands[b]);
    assert(ws.intersect(vs) =~= Set::<u8>::empty().insert(z));
    assert(vs.intersect(ws) =~= Set::<u8>::empty().insert(z));
    assert forall|e: u8| ws.union(vs).contains(e) <==> ps.contains(e) by {
        assert(ws.contains(e) <==> e == x || e == z);
        assert(vs.contains(e) <==> e == y || e == z);
    }
    assert(ws.union(vs) =~= ps);
    assert(vs.union(ws) =~= ps);
    geometry::law_peers_share(j, p);
    geometry::law_peers_share(p, j);
    geometry::law_peers_share(j, a);
    geometry::law_peers_share(a, j);
    geometry::law_peers_share(j, b);
    geometry::law_peers_share(b, j);
    assert(wings::seen_by_three(p, a, b, ws.intersect(vs))(j, z));
    assert(wings::seen_by_three(p, b, a, vs.intersect(ws))(j, z));
    let h = wings::xyz_at(g, p as usize, a as usize, b as usize);
    assert(!h.cands[j].contains(z));
    let k = wings::xyz_at(g, p as usize, b as usize, a as usize);
    assert(!k.cands[j].contains(z));
}

/// A wing that can become two of the pivot's three digits is one of its wings.
proof fn lemma_xyz_listed(g: Grid, p: int, a: int) -> (k: int)
    requires
        0 <= p < 81,
        0 <= a < 81,
        geometry::shares(p, a),
        g.cells[a] == 0,
        g.cands[a].len() == 2,
        g.cands[a].subset_of(g.cands[p]),
    ensures
        0 <= k < wings::xyz_wings(g, p as usize).len(),
        wings::xyz_wings(g, p as usize)[k] == a,
{
    let ws = wings::xyz_wings(g, p as usize);
    geometry::law_peers_share(p, a);
    geometry::law_peer_list(p);
    seqs::lemma_filter_members(geometry::peer_list(p), wings::is_xyz_wing(g, p as usize));
    assert(geometry::peer_list(p).contains(a as usize));
    assert(wings::is_xyz_wing(g, p as usize)(a as usize));
    assert(ws.contains(a as usize));
    ws.index_of(a as usize)
}

/// The wings of a pivot are different cells.
proof fn lemma_xyz_distinct(g: Grid, p: int)
    requires
        0 <= p < 81,
    ensures
        wings::xyz_wings(g, p as usize).no_duplicates(),
{
    geometry::law_peer_list(p);
    seqs::lemma_filter_members(geometry::peer_list(p), wings::is_xyz_wing(g, p as usize));
}

proof fn lemma_xyz_cells(three: Seq<usize>)
    ensures
        forall|p: usize, ws: Seq<usize>, n: int, h: Grid, k: int|
            grid::wf(h) ==> (#[trigger] wings::xyz_second_step(p, ws, n)(h, k)).cells == h.cells,
        forall|p: usize, ws: Seq<usize>, h: Grid, k: int|
            grid::wf(h) ==> (#[trigger] wings::xyz_first_step(p, ws)(h, k)).cells == h.cells,
        forall|h: Grid, k: int|
            grid::wf(h) ==> (#[trigger] wings::xyz_pivot_step(three)(h, k)).cells == h.cells,
{
    wings::lemma_xyz_steps(three);
    assert forall|p: usize, ws: Seq<usize>, h: Grid, k: int| grid::wf(h) implies (
    #[trigger] wings::xyz_first_step(p, ws)(h, k)).cells == h.cells by {
        grid::lemma_sweep_cells(h, ws.len(), wings::xyz_second_step(p, ws, k));
    }
    assert forall|h: Grid, k: int| grid::wf(h) implies (
    #[trigger] wings::xyz_pivot_step(three)(h, k)).cells == h.cells by {
        let ws = wings::xyz_wings(h, three[k]);
        grid::lemma_sweep_cells(h, ws.len(), wings::xyz_first_step(three[k], ws));
    }
}

/// XYZ-Wing makes progress exactly where a cell that can become `x`, `y` or `z` sees one
/// that can become `x` or `z` and one that can become `y` or `z`, and `z` is a candidate
/// of a cell that sees all three. It strikes a candidate only where one of these three
/// cells must still become it, and places nothing.
pub proof fn law_xyz_wing(g: Grid)
    requires
        grid::wf(g),
    ensures
        wings::xyz_wing(g).cells == g.cells,
        wings::xyz_wing(g) != g <==> exists|j: int, z: u8|
            0 <= j < 81 && g.cands[j].contains(z) && #[trigger] xyz_out()(g, j, z),
        forall|j: int, z: u8|
            0 <= j < 81 && #[trigger] grid::struck(g, wings::xyz_wing(g), j, z) ==> grid::caused(
                g,
                wings::xyz_wing(g),
                xyz_left(),
                j,
                z,
            ),
{
    let three = wings::valued(g, 3);
    let step = wings::xyz_pivot_step(three);
    let end = wings::xyz_wing(g);
    wings::lemma_valued(g, 3);
    wings::lemma_xyz_steps(three);
    lemma_xyz_cells(three);
    grid::lemma_sweep_cells(g, three.len(), step);
    grid::lemma_sweep_changes(g, three.len(), step);
    if end != g {
        let n = choose|n: int| 0 <= n < three.len() && #[trigger] step(g, n) != g;
        let p = three[n];
        let ws = wings::xyz_wings(g, p);
        wings::lemma_xyz_wings(g, p);
        lemma_xyz_distinct(g, p as int);
        let first = wings::xyz_first_step(p, ws);
        grid::lemma_sweep_changes(g, ws.len(), first);
        let k = choose|k: int| 0 <= k < ws.len() && #[trigger] first(g, k) != g;
        let second = wings::xyz_second_step(p, ws, k);
        grid::lemma_sweep_changes(g, ws.len(), second);
        let m = choose|m: int| 0 <= m < ws.len() && #[trigger] second(g, m) != g;
        let (j, z) = grid::lemma_some_struck(g, second(g, m));
        assert(wings::is_valued(g, 3)(p));
        lemma_xyz_strikes(g, p, ws[k], ws[m], j, z);
    }
    if exists|j: int, z: u8| 0 <= j < 81 && g.cands[j].contains(z) && #[trigger] xyz_out()(g, j, z) {
        let (j, z) = choose|j: int, z: u8|
            0 <= j < 81 && g.cands[j].contains(z) && #[trigger] xyz_out()(g, j, z);
        let (p, a, b, x, y) = choose|p: int, a: int, b: int, x: u8, y: u8| #[trigger]
            is_xyz_wing(g, j, z, p, a, b, x, y);
        lemma_xyz_found(g, j, z, p, a, b, x, y);
        lemma_has_two(g, a, x, z);
        lemma_has_two(g, b, y, z);
        assert(g.cands[p] =~= Set::<u8>::empty().insert(x).insert(y).insert(z));
        assert(wings::is_valued(g, 3)(p as usize));
        assert(three.contains(p as usize));
        let n = three.index_of(p as usize);
        assert(g.cands[a].subset_of(g.cands[p]));
        assert(g.cands[b].subset_of(g.cands[p]));
        let k = lemma_xyz_listed(g, p, a);
        let m = lemma_xyz_listed(g, p, b);
        let ws = wings::xyz_wings(g, p as usize);
        let (lo, hi) = if k < m {
            (k, m)
        } else {
            (m, k)
        };
        let second = wings::xyz_second_step(p as usize, ws, lo);
        grid::lemma_sweep_changes(g, ws.len(), second);
        assert(second(g, hi) != g);
        let first = wings::xyz_first_step(p as usize, ws);
        grid::lemma_sweep_changes(g, ws.len(), first);
        assert(first(g, lo) != g);
        assert(step(g, n) != g);
    }
    assert forall|j: int, z: u8| 0 <= j < 81 && #[trigger] grid::struck(g, end, j, z) implies grid::caused(
        g,
        end,
        xyz_left(),
        j,
        z,
    ) by {
        lemma_xyz_caused(g, j, z);
    }
}

proof fn lemma_xyz_caused(g: Grid, j: int, z: u8)
    requires
        grid::wf(g),
        0 <= j < 81,
        grid::struck(g, wings::xyz_wing(g), j, z),
    ensures
        grid::caused(g, wings::xyz_wing(g), xyz_left(), j, z),
{
    let three = wings::valued(g, 3);
    let step = wings::xyz_pivot_step(three);
    wings::lemma_valued(g, 3);
    wings::lemma_xyz_steps(three);
    assert forall|h: Grid, n: int| 0 <= n < three.len() && grid::wf(h) && grid::struck(
        h,
        #[trigger] step(h, n),
        j,
        z,
    ) implies grid::caused(h, step(h, n), xyz_left(), j, z) by {
        let p = three[n];
        let ws = wings::xyz_wings(h, p);
        wings::lemma_xyz_wings(h, p);
        lemma_xyz_distinct(h, p as int);
        let first = wings::xyz_first_step(p, ws);
        assert forall|i: Grid, k: int| 0 <= k < ws.len() && grid::wf(i) && grid::struck(
            i,
            #[trigger] first(i, k),
            j,
            z,
        ) implies grid::caused(i, first(i, k), xyz_left(), j, z) by {
            let second = wings::xyz_second_step(p, ws, k);
            assert forall|f: Grid, m: int| 0 <= m < ws.len() && grid::wf(f) && grid::struck(
                f,
                #[trigger] second(f, m),
                j,
                z,
            ) implies grid::caused(f, second(f, m), xyz_left(), j, z) by {
                lemma_xyz_strikes(f, p, ws[k], ws[m], j, z);
                technique_laws::lemma_at_once(f, second(f, m), xyz_left(), j, z);
            }
            grid::lemma_sweep_caused(i, ws.len(), second, xyz_left(), j, z);
        }
        grid::lemma_sweep_caused(h, ws.len(), first, xyz_left(), j, z);
    }
    grid::lemma_sweep_caused(g, three.len(), step, xyz_left(), j, z);
}

// ---- W-Wing ----

/// `s` and `t` are other cells, of which `s` sees `a` and `t` sees `b`, and in the grid
/// `g0` they are the only two places of some unit for `y`.
pub open spec fn is_bridge(g0: Grid, y: u8, a: int, b: int, s: int, t: int) -> bool {
    &&& link_laws::is_paired(g0, y, s, t)
    &&& s != a && s != b && t != a && t != b
    &&& geometry::shares(s, a)
    &&& geometry::shares(t, b)
}

/// `a` and `b`, which do not see each other, can both become `x` or `y`; cell `j` sees
/// them both; and a strong link for `y` joins them.
pub open spec fn is_w_wing(
    g0: Grid,
    g: Grid,
    j: int,
    x: u8,
    a: int,
    b: int,
    y: u8,
    s: int,
    t: int,
) -> bool {
    &&& a != b
    &&& !geometry::shares(a, b)
    &&& has_two(g, a, x, y)
    &&& has_two(g, b, x, y)
    &&& geometry::shares(a, j)
    &&& geometry::shares(b, j)
    &&& is_bridge(g0, y, a, b, s, t)
}

/// A W-Wing with a strong link of the grid `g0` rules `x` out in cell `j`.
pub open spec fn w_out(g0: Grid) -> spec_fn(Grid, int, u8) -> bool {
    |g: Grid, j: int, x: u8|
        exists|a: int, b: int, y: u8, s: int, t: int| #[trigger]
            is_w_wing(g0, g, j, x, a, b, y, s, t)
}

proof fn lemma_bridge(g0: Grid, y: u8, a: int, b: int)
    requires
        0 <= a < 81,
        0 <= b < 81,
    ensures
        wings::bridged(chains::links(g0, y), a, b) <==> exists|s: int, t: int| #[trigger]
            is_bridge(g0, y, a, b, s, t),
{
    let ls = chains::links(g0, y);
    chains::lemma_links(g0, y, 27);
    if wings::bridged(ls, a, b) {
        let k = choose|k: int| 0 <= k < ls.len() && wings::is_bridge(#[trigger] ls[k], a, b);
        let (s, t) = ls[k];
        assert(s < 81 && t < 81);
        assert(chains::joined(ls, s, t) && chains::joined(ls, t, s));
        link_laws::law_links(g0, y, s, t);
        link_laws::law_links(g0, y, t, s);
        geometry::law_peers_share(s as int, a);
        geometry::law_peers_share(t as int, b);
        geometry::law_peers_share(t as int, a);
        geometry::law_peers_share(s as int, b);
        if geometry::peer(s as int, a) && geometry::peer(t as int, b) {
            assert(is_bridge(g0, y, a, b, s as int, t as int));
        } else {
            assert(is_bridge(g0, y, a, b, t as int, s as int));
        }
    }
    if exists|s: int, t: int| #[trigger] is_bridge(g0, y, a, b, s, t) {
        let (s, t) = choose|s: int, t: int| #[trigger] is_bridge(g0, y, a, b, s, t);
        link_laws::law_links(g0, y, s as usize, t as usize);
        let (u, v) = (s as usize, t as usize);
        let n = choose|n: int| 0 <= n < ls.len() && (#[trigger] ls[n] == (u, v) || ls[n] == (v, u));
        geometry::law_peers_share(s, a);
        geometry::law_peers_share(t, b);
        assert(wings::is_bridge(ls[n], a, b));
    }
}

proof fn lemma_w_strikes(g0: Grid, g: Grid, a: usize, b: usize, j: int, x: u8)
    requires
        grid::wf(g),
        a < 81,
        b < 81,
        a != b,
        0 <= j < 81,
        grid::struck(g, wings::w_at(g0, g, a, b), j, x),
    ensures
        w_out(g0)(g, j, x),
{
    let ds = g.cands[a as int];
    let (c, d) = (a as int, b as int);
    assert(wings::w_gone(g0, ds, c, d)(j, x));
    let y = choose|y: u8|
        y != x && ds.contains(y) && #[trigger] wings::bridged(chains::links(g0, y), c, d);
    lemma_bridge(g0, y, c, d);
    let (s, t) = choose|s: int, t: int| #[trigger] is_bridge(g0, y, c, d, s, t);
    let o = lemma_other(g, c, x);
    assert(o == y);
    assert(has_two(g, d, x, y));
    geometry::law_peers_share(j, c);
    geometry::law_peers_share(j, d);
    geometry::law_peers_share(c, d);
    assert(is_w_wing(g0, g, j, x, c, d, y, s, t));
}

proof fn lemma_w_found(
    g0: Grid,
    g: Grid,
    j: int,
    x: u8,
    a: int,
    b: int,
    y: u8,
    s: int,
    t: int,
)
    requires
        grid::wf(g),
        0 <= j < 81,
        is_w_wing(g0, g, j, x, a, b, y, s, t),
    ensures
        !wings::w_at(g0, g, a as usize, b as usize).cands[j].contains(x),
        !wings::w_at(g0, g, b as usize, a as usize).cands[j].contains(x),
{
    lemma_has_two(g, a, x, y);
    lemma_has_two(g, b, x, y);
    let ds = g.cands[a];
    geometry::law_peers_share(a, b);
    geometry::law_peers_share(b, a);
    geometry::law_peers_share(j, a);
    geometry::law_peers_share(a, j);
    geometry::law_peers_share(j, b);
    geometry::law_peers_share(b, j);
    lemma_bridge(g0, y, a, b);
    lemma_bridge(g0, y, b, a);
    assert(is_bridge(g0, y, a, b, s, t));
    assert(is_bridge(g0, y, b, a, t, s)) by {
        link_laws::law_links(g0, y, s as usize, t as usize);
        link_laws::law_links(g0, y, t as usize, s as usize);
        assert(chains::joined(chains::links(g0, y), t as usize, s as usize));
    }
    assert(wings::other_bridged(g0, ds, a, b, x));
    assert(wings::other_bridged(g0, ds, b, a, x));
    assert(wings::w_gone(g0, ds, a, b)(j, x));
    assert(wings::w_gone(g0, ds, b, a)(j, x));
}

/// W-Wing makes progress exactly where two cells that do not see each other can both
/// become `x` or `y`, a strong link for `y` joins them, and `x` is a candidate of a cell
/// that sees both. It strikes a candidate only for that reason, with a strong link of the
/// grid that it started on, and places nothing.
pub proof fn law_w_wing(g: Grid)
    requires
        grid::wf(g),
    ensures
        wings::w_wing(g).cells == g.cells,
        wings::w_wing(g) != g <==> exists|j: int, x: u8|
            0 <= j < 81 && g.cands[j].contains(x) && #[trigger] w_out(g)(g, j, x),
        forall|j: int, x: u8|
            0 <= j < 81 && #[trigger] grid::struck(g, wings::w_wing(g), j, x) ==> grid::caused(
                g,
                wings::w_wing(g),
                w_out(g),
                j,
                x,
            ),
{
    let two = wings::valued(g, 2);
    let step = wings::w_first_step(g, two);
    let end = wings::w_wing(g);
    wings::lemma_valued(g, 2);
    wings::lemma_w_steps(g, two);
    assert forall|h: Grid, n: int| 0 <= n < two.len() && grid::wf(h) implies (
    #[trigger] step(h, n)).cells == h.cells by {
        grid::lemma_sweep_cells(h, two.len(), wings::w_second_step(g, two, n));
    }
    grid::lemma_sweep_cells(g, two.len(), step);
    grid::lemma_sweep_changes(g, two.len(), step);
    if end != g {
        let n = choose|n: int| 0 <= n < two.len() && #[trigger] step(g, n) != g;
        let second = wings::w_second_step(g, two, n);
        grid::lemma_sweep_changes(g, two.len(), second);
        let k = choose|k: int| 0 <= k < two.len() && #[trigger] second(g, k) != g;
        let (j, x) = grid::lemma_some_struck(g, second(g, k));
        lemma_w_strikes(g, g, two[n], two[k], j, x);
    }
    if exists|j: int, x: u8| 0 <= j < 81 && g.cands[j].contains(x) && #[trigger] w_out(g)(g, j, x) {
        let (j, x) = choose|j: int, x: u8|
            0 <= j < 81 && g.cands[j].contains(x) && #[trigger] w_out(g)(g, j, x);
        let (a, b, y, s, t) = choose|a: int, b: int, y: u8, s: int, t: int| #[trigger]
            is_w_wing(g, g, j, x, a, b, y, s, t);
        lemma_w_found(g, g, j, x, a, b, y, s, t);
        lemma_has_two(g, a, x, y);
        lemma_has_two(g, b, x, y);
        assert(wings::is_valued(g, 2)(a as usize));
        assert(wings::is_valued(g, 2)(b as usize));
        assert(two.contains(a as usize) && two.contains(b as usize));
        let (k, m) = (two.index_of(a as usize), two.index_of(b as usize));
        let (lo, hi) = if k < m {
            (k, m)
        } else {
            (m, k)
        };
        let second = wings::w_second_step(g, two, lo);
        grid::lemma_sweep_changes(g, two.len(), second);
        assert(second(g, hi) != g);
        assert(step(g, lo) != g);
    }
    assert forall|j: int, x: u8| 0 <= j < 81 && #[trigger] grid::struck(g, end, j, x) implies grid::caused(
        g,
        end,
        w_out(g),
        j,
        x,
    ) by {
        lemma_w_caused(g, j, x);
    }
}

proof fn lemma_w_caused(g: Grid, j: int, x: u8)
    requires
        grid::wf(g),
        0 <= j < 81,
        grid::struck(g, wings::w_wing(g), j, x),
    ensures
        grid::caused(g, wings::w_wing(g), w_out(g), j, x),
{
    let two = wings::valued(g, 2);
    let step = wings::w_first_step(g, two);
    wings::lemma_valued(g, 2);
    wings::lemma_w_steps(g, two);
    assert forall|h: Grid, n: int| 0 <= n < two.len() && grid::wf(h) && grid::struck(
        h,
        #[trigger] step(h, n),
        j,
        x,
    ) implies grid::caused(h, step(h, n), w_out(g), j, x) by {
        let second = wings::w_second_step(g, two, n);
        assert forall|f: Grid, k: int| 0 <= k < two.len() && grid::wf(f) && grid::struck(
            f,
            #[trigger] second(f, k),
            j,
            x,
        ) implies grid::caused(f, second(f, k), w_out(g), j, x) by {
            lemma_w_strikes(g, f, two[n], two[k], j, x);
            technique_laws::lemma_at_once(f, second(f, k), w_out(g), j, x);
        }
        grid::lemma_sweep_caused(h, two.len(), second, w_out(g), j, x);
    }
    grid::lemma_sweep_caused(g, two.len(), step, w_out(g), j, x);
}

// ---- One pass is complete ----

/// A cell with the same two candidates at the start and at the end has them all the way.
pub proof fn lemma_two_between(g: Grid, h: Grid, end: Grid, i: int, x: u8, y: u8)
    requires
        grid::wf(g),
        grid::follows(g, h),
        grid::follows(h, end),
        has_two(g, i, x, y),
        has_two(end, i, x, y),
    ensures
        has_two(h, i, x, y),
{
    assert(end.cands[i].contains(x) && end.cands[i].contains(y));
    assert(h.cands[i].contains(x) && h.cands[i].contains(y));
}

/// What an XY-Wing ruled out at the start is gone, where that XY-Wing is there at the end.
pub proof fn law_xy_wing_is_complete(
    g: Grid,
    j: int,
    z: u8,
    p: int,
    a: int,
    b: int,
    x: u8,
    y: u8,
)
    requires
        grid::wf(g),
        0 <= j < 81,
        is_xy_wing(g, j, z, p, a, b, x, y),
        is_xy_wing(wings::xy_wing(g), j, z, p, a, b, x, y),
    ensures
        !wings::xy_wing(g).cands[j].contains(z),
{
    let two = wings::valued(g, 2);
    let step = wings::xy_pivot_step(two);
    let end = wings::xy_wing(g);
    wings::lemma_valued(g, 2);
    wings::lemma_xy_steps(two);
    lemma_has_two(g, p, x, y);
    lemma_has_two(g, a, x, z);
    lemma_has_two(g, b, y, z);
    assert(wings::is_valued(g, 2)(p as usize));
    assert(two.contains(p as usize));
    let n = two.index_of(p as usize);
    let k = lemma_wing_listed(g, p, a);
    let m = lemma_wing_listed(g, p, b);
    let ws = wings::xy_wings(two, p as usize);
    let first = wings::xy_first_step(p as usize, ws);
    let second = wings::xy_second_step(p as usize, a as usize, ws);
    let h1 = grid::lemma_sweep_at(g, two.len(), step, n);
    let h2 = grid::lemma_sweep_at(h1, ws.len(), first, k);
    let h3 = grid::lemma_sweep_at(h2, ws.len(), second, m);
    grid::lemma_chain(g, h1, h2);
    grid::lemma_chain(g, h2, h3);
    grid::lemma_chain(h3, first(h2, k), step(h1, n));
    grid::lemma_chain(h3, step(h1, n), end);
    lemma_two_between(g, h3, end, p, x, y);
    lemma_two_between(g, h3, end, a, x, z);
    lemma_two_between(g, h3, end, b, y, z);
    lemma_xy_found(h3, j, z, p, a, b, x, y);
    assert(!second(h3, m).cands[j].contains(z));
    assert(!first(h2, k).cands[j].contains(z));
    assert(!step(h1, n).cands[j].contains(z));
}

/// What an XYZ-Wing ruled out at the start is gone, where that XYZ-Wing is there at the
/// end.
pub proof fn law_xyz_wing_is_complete(
    g: Grid,
    j: int,
    z: u8,
    p: int,
    a: int,
    b: int,
    x: u8,
    y: u8,
)
    requires
        grid::wf(g),
        0 <= j < 81,
        is_xyz_wing(g, j, z, p, a, b, x, y),
        is_xyz_wing(wings::xyz_wing(g), j, z, p, a, b, x, y),
    ensures
        !wings::xyz_wing(g).cands[j].contains(z),
{
    let three = wings::valued(g, 3);
    let step = wings::xyz_pivot_step(three);
    let end = wings::xyz_wing(g);
    wings::lemma_valued(g, 3);
    wings::lemma_xyz_steps(three);
    assert(g.cands[p] =~= Set::<u8>::empty().insert(x).insert(y).insert(z));
    assert(wings::is_valued(g, 3)(p as usize));
    assert(three.contains(p as usize));
    let n = three.index_of(p as usize);
    let h1 = grid::lemma_sweep_at(g, three.len(), step, n);
    lemma_xyz_between(g, h1, end, j, z, p, a, b, x, y);
    lemma_has_two(h1, a, x, z);
    lemma_has_two(h1, b, y, z);
    assert(h1.cands[a].subset_of(h1.cands[p]));
    assert(h1.cands[b].subset_of(h1.cands[p]));
    let k = lemma_xyz_listed(h1, p, a);
    let m = lemma_xyz_listed(h1, p, b);
    let ws = wings::xyz_wings(h1, p as usize);
    let (lo, hi) = if k < m {
        (k, m)
    } else {
        (m, k)
    };
    let first = wings::xyz_first_step(p as usize, ws);
    let second = wings::xyz_second_step(p as usize, ws, lo);
    let h2 = grid::lemma_sweep_at(h1, ws.len(), first, lo);
    let h3 = grid::lemma_sweep_at(h2, ws.len(), second, hi);
    grid::lemma_chain(g, h1, h2);
    grid::lemma_chain(g, h2, h3);
    grid::lemma_chain(h3, first(h2, lo), step(h1, n));
    grid::lemma_chain(h3, step(h1, n), end);
    lemma_xyz_between(g, h3, end, j, z, p, a, b, x, y);
    lemma_xyz_found(h3, j, z, p, a, b, x, y);
    assert(!second(h3, hi).cands[j].contains(z));
    assert(!first(h2, lo).cands[j].contains(z));
    assert(!step(h1, n).cands[j].contains(z));
}

proof fn lemma_xyz_between(
    g: Grid,
    h: Grid,
    end: Grid,
    j: int,
    z: u8,
    p: int,
    a: int,
    b: int,
    x: u8,
    y: u8,
)
    requires
        grid::wf(g),
        grid::follows(g, h),
        grid::follows(h, end),
        is_xyz_wing(g, j, z, p, a, b, x, y),
        is_xyz_wing(end, j, z, p, a, b, x, y),
    ensures
        is_xyz_wing(h, j, z, p, a, b, x, y),
{
    lemma_two_between(g, h, end, a, x, z);
    lemma_two_between(g, h, end, b, y, z);
    assert(end.cands[p].contains(x) && end.cands[p].contains(y) && end.cands[p].contains(z));
    assert(h.cands[p].contains(x) && h.cands[p].contains(y) && h.cands[p].contains(z));
}

/// What a W-Wing ruled out at the start is gone, where its two cells can become the same
/// two digits at the end.
pub proof fn law_w_wing_is_complete(
    g: Grid,
    j: int,
    x: u8,
    a: int,
    b: int,
    y: u8,
    s: int,
    t: int,
)
    requires
        grid::wf(g),
        0 <= j < 81,
        is_w_wing(g, g, j, x, a, b, y, s, t),
        has_two(wings::w_wing(g), a, x, y),
        has_two(wings::w_wing(g), b, x, y),
    ensures
        !wings::w_wing(g).cands[j].contains(x),
{
    let two = wings::valued(g, 2);
    let step = wings::w_first_step(g, two);
    let end = wings::w_wing(g);
    wings::lemma_valued(g, 2);
    wings::lemma_w_steps(g, two);
    lemma_has_two(g, a, x, y);
    lemma_has_two(g, b, x, y);
    assert(wings::is_valued(g, 2)(a as usize));
    assert(wings::is_valued(g, 2)(b as usize));
    assert(two.contains(a as usize) && two.contains(b as usize));
    let (k, m) = (two.index_of(a as usize), two.index_of(b as usize));
    let (lo, hi) = if k < m {
        (k, m)
    } else {
        (m, k)
    };
    let second = wings::w_second_step(g, two, lo);
    let h1 = grid::lemma_sweep_at(g, two.len(), step, lo);
    let h2 = grid::lemma_sweep_at(h1, two.len(), second, hi);
    grid::lemma_chain(g, h1, h2);
    grid::lemma_chain(h2, step(h1, lo), end);
    lemma_two_between(g, h2, end, a, x, y);
    lemma_two_between(g, h2, end, b, x, y);
    lemma_w_found(g, h2, j, x, a, b, y, s, t);
    assert(!second(h2, hi).cands[j].contains(x));
    assert(!step(h1, lo).cands[j].contains(x));
}

/// A step of XYZ-Wing strikes exactly the candidate that one of the three cells must
/// become, where the pivot can become what one of the wings can and nothing else.
pub proof fn law_xyz_step(g: Grid, p: usize, a: usize, b: usize, j: int, z: u8)
    requires
        grid::wf(g),
        p < 81,
        a < 81,
        b < 81,
        a != b,
        0 <= j < 81,
        geometry::shares(p as int, a as int),
        geometry::shares(p as int, b as int),
    ensures
        grid::struck(g, wings::xyz_at(g, p, a, b), j, z) <==> g.cands[j].contains(z) && is_xyz_left(
            g,
            j,
            z,
            p as int,
            a as int,
            b as int,
        ),
{
    let (ps, ws, vs) = (g.cands[p as int], g.cands[a as int], g.cands[b as int]);
    geometry::law_peers_share(p as int, a as int);
    geometry::law_peers_share(p as int, b as int);
    geometry::law_peers_share(j, p as int);
    geometry::law_peers_share(j, a as int);
    geometry::law_peers_share(j, b as int);
    let both = ws.intersect(vs);
    if grid::struck(g, wings::xyz_at(g, p, a, b), j, z) {
        assert(wings::seen_by_three(p as int, a as int, b as int, both)(j, z));
        grid::lemma_cands_finite(g, a as int);
        assert forall|e: u8| both.contains(e) implies e == z by {
            if e != z {
                assert(both.remove(e).remove(z).len() + 2 == both.len());
            }
        }
        assert forall|e: u8|
            #![trigger ps.contains(e)]
            ps.contains(e) <==> ws.contains(e) || vs.contains(e) by {
            assert(ws.union(vs).contains(e) <==> ps.contains(e));
        }
        assert forall|e: u8|
            #![trigger ws.contains(e)]
            ws.contains(e) && vs.contains(e) <==> e == z by {
            assert(both.contains(e) <==> ws.contains(e) && vs.contains(e));
        }
    }
    if is_xyz_left(g, j, z, p as int, a as int, b as int) {
        assert forall|e: u8| both.contains(e) <==> e == z by {
            assert(ws.contains(e) && vs.contains(e) <==> e == z);
        }
        assert(both =~= Set::<u8>::empty().insert(z));
        assert forall|e: u8| ws.union(vs).contains(e) <==> ps.contains(e) by {
            assert(ps.contains(e) <==> ws.contains(e) || vs.contains(e));
        }
        assert(ws.union(vs) =~= ps);
        assert(wings::seen_by_three(p as int, a as int, b as int, both)(j, z));
    }
}

} // verus!
