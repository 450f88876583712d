//! Why the wings are sound.

use crate::chains;
use crate::geometry;
use crate::grid;
use crate::grid::Grid;
use crate::seqs;
use crate::wings;
use vstd::prelude::*;

verus! {

proof fn lemma_xy_at_sound(g: Grid, f: Seq<u8>, p: usize, a: usize, b: usize)
    requires
        grid::wf(g),
        grid::fits(g, f),
        p < 81,
        a < 81,
        b < 81,
        geometry::peer(p as int, a as int),
        geometry::peer(p as int, b as int),
    ensures
        grid::fits(wings::xy_at(g, p, a, b), f),
{
    let (ps, ws, vs) = (g.cands[p as int], g.cands[a as int], g.cands[b as int]);
    if wings::is_xy(ps, ws, vs) {
        let ds = ws.difference(ps);
        let gone = wings::seen_by_two(a as int, b as int, ds);
        grid::lemma_cands_finite(g, p as int);
        grid::lemma_cands_finite(g, a as int);
        grid::lemma_cands_finite(g, b as int);
        let both = ps.intersect(ws);
        let s = both.choose();
        assert(both.contains(s));
        assert forall|j: int| #![trigger f[j]] 0 <= j < 81 && g.cells[j] == 0 implies !gone(j, f[j]) by {
            if gone(j, f[j]) {
                let z = f[j];
                assert(ws.contains(z) && !ps.contains(z));
                assert(f[a as int] != z && f[b as int] != z);
                assert(ws.contains(s) && ps.contains(s));
                assert(ps.contains(f[p as int]));
                assert(ws.contains(f[a as int]));
                seqs::lemma_pair(ws, z, s, f[a as int]);
                assert(f[a as int] == s);
                assert(vs.contains(z));
                assert(vs.contains(f[b as int]));
                if ws.contains(f[b as int]) {
                    assert(!ps.contains(f[b as int]));
                    seqs::lemma_pair(ws, z, s, f[b as int]);
                }
                assert(ps.contains(f[b as int]));
                seqs::lemma_pair(ps, s, f[p as int], f[b as int]);
            }
        }
        grid::lemma_without_fits(g, gone, f);
    }
}

/// XY-Wing never rules out a solution.
pub proof fn law_xy_wing_sound(g: Grid, f: Seq<u8>)
    requires
        grid::wf(g),
        grid::fits(g, f),
    ensures
        grid::fits(wings::xy_wing(g), f),
{
    let two = wings::valued(g, 2);
    wings::lemma_xy_steps(two);
    wings::lemma_valued(g, 2);
    assert forall|h: Grid, n: int| 0 <= n < two.len() && grid::wf(h) && grid::fits(h, f) implies grid::fits(
        #[trigger] wings::xy_pivot_step(two)(h, n),
        f,
    ) by {
        let p = two[n];
        let ws = wings::xy_wings(two, p);
        wings::lemma_xy_wings(two, p);
        assert forall|i: Grid, k: int| 0 <= k < ws.len() && grid::wf(i) && grid::fits(i, f) implies grid::fits(
            #[trigger] wings::xy_first_step(p, ws)(i, k),
            f,
        ) by {
            let step = wings::xy_second_step(p, ws[k], ws);
            assert forall|j: Grid, m: int| 0 <= m < ws.len() && grid::wf(j) && grid::fits(j, f) implies grid::fits(
                #[trigger] step(j, m),
                f,
            ) by {
                lemma_xy_at_sound(j, f, p, ws[k], ws[m]);
            }
            grid::lemma_sweep_fits(i, ws.len(), step, f);
        }
        grid::lemma_sweep_fits(h, ws.len(), wings::xy_first_step(p, ws), f);
    }
    grid::lemma_sweep_fits(g, two.len(), wings::xy_pivot_step(two), f);
}

proof fn lemma_xyz_at_sound(g: Grid, f: Seq<u8>, p: usize, a: usize, b: usize)
    requires
        grid::wf(g),
        grid::fits(g, f),
        p < 81,
        a < 81,
        b < 81,
        geometry::peer(p as int, a as int),
        geometry::peer(p as int, b as int),
        g.cells[a as int] == 0,
        g.cells[b as int] == 0,
        g.cands[a as int].len() <= 2,
        g.cands[b as int].len() <= 2,
    ensures
        grid::fits(wings::xyz_at(g, p, a, b), f),
{
    let (ps, ws, vs) = (g.cands[p as int], g.cands[a as int], g.cands[b as int]);
    if wings::is_xyz(ps, ws, vs) {
        let gone = wings::seen_by_three(p as int, a as int, b as int, ws.intersect(vs));
        grid::lemma_cands_finite(g, a as int);
        grid::lemma_cands_finite(g, b as int);
        assert forall|j: int| #![trigger f[j]] 0 <= j < 81 && g.cells[j] == 0 implies !gone(j, f[j]) by {
            if gone(j, f[j]) {
                let z = f[j];
                assert(ps.contains(z));
                assert(f[p as int] != z && f[a as int] != z && f[b as int] != z);
                assert(ps.contains(f[p as int]));
                if ws.contains(f[p as int]) {
                    seqs::lemma_pair(ws, z, f[p as int], f[a as int]);
                } else {
                    seqs::lemma_pair(vs, z, f[p as int], f[b as int]);
                }
            }
        }
        grid::lemma_without_fits(g, gone, f);
    }
}

pub open spec fn still(h: Grid, f: Seq<u8>) -> spec_fn(Grid) -> bool {
    |i: Grid| grid::follows(h, i) && i.cells == h.cells && grid::fits(i, f)
}

/// XYZ-Wing never rules out a solution.
pub proof fn law_xyz_wing_sound(g: Grid, f: Seq<u8>)
    requires
        grid::wf(g),
        grid::fits(g, f),
    ensures
        grid::fits(wings::xyz_wing(g), f),
{
    let three = wings::valued(g, 3);
    wings::lemma_xyz_steps(three);
    wings::lemma_valued(g, 3);
    assert forall|h: Grid, n: int| 0 <= n < three.len() && grid::wf(h) && grid::fits(h, f) implies grid::fits(
        #[trigger] wings::xyz_pivot_step(three)(h, n),
        f,
    ) by {
        let p = three[n];
        let ws = wings::xyz_wings(h, p);
        wings::lemma_xyz_wings(h, p);
        let inv = still(h, f);
        assert forall|i: Grid, k: int| 0 <= k < ws.len() && inv(i) implies inv(
            #[trigger] wings::xyz_first_step(p, ws)(i, k),
        ) by {
            let step = wings::xyz_second_step(p, ws, k);
            assert forall|j: Grid, m: int| 0 <= m < ws.len() && inv(j) implies inv(
                #[trigger] step(j, m),
            ) by {
                lemma_xyz_still(h, j, f, p, ws[k], ws[m]);
                grid::lemma_chain(h, j, step(j, m));
            }
            grid::lemma_sweep(i, ws.len(), step, inv);
        }
        grid::lemma_sweep(h, ws.len(), wings::xyz_first_step(p, ws), inv);
    }
    grid::lemma_sweep_fits(g, three.len(), wings::xyz_pivot_step(three), f);
}

proof fn lemma_xyz_still(h: Grid, j: Grid, f: Seq<u8>, p: usize, a: usize, b: usize)
    requires
        grid::wf(h),
        still(h, f)(j),
        p < 81,
        a < 81,
        b < 81,
        geometry::peer(p as int, a as int),
        geometry::peer(p as int, b as int),
        wings::is_xyz_wing(h, p)(a),
        wings::is_xyz_wing(h, p)(b),
    ensures
        grid::fits(wings::xyz_at(j, p, a, b), f),
        wings::xyz_at(j, p, a, b).cells == h.cells,
{
    grid::lemma_cands_finite(h, a as int);
    grid::lemma_cands_finite(h, b as int);
    assert(j.cands[a as int].subset_of(h.cands[a as int]));
    assert(j.cands[b as int].subset_of(h.cands[b as int]));
    vstd::set_lib::lemma_len_subset(j.cands[a as int], h.cands[a as int]);
    vstd::set_lib::lemma_len_subset(j.cands[b as int], h.cands[b as int]);
    lemma_xyz_at_sound(j, f, p, a, b);
}

proof fn lemma_w_at_sound(g0: Grid, g: Grid, f: Seq<u8>, a: usize, b: usize)
    requires
        grid::wf(g0),
        grid::fits(g0, f),
        grid::wf(g),
        grid::fits(g, f),
        a < 81,
        b < 81,
    ensures
        grid::fits(wings::w_at(g0, g, a, b), f),
{
    let ds = g.cands[a as int];
    if ds == g.cands[b as int] && ds.len() == 2 && !geometry::peer(a as int, b as int) {
        let gone = wings::w_gone(g0, ds, a as int, b as int);
        grid::lemma_cands_finite(g, a as int);
        assert forall|j: int| #![trigger f[j]] 0 <= j < 81 && g.cells[j] == 0 implies !gone(j, f[j]) by {
            if gone(j, f[j]) {
                let e = f[j];
                assert(ds.contains(e));
                let y = choose|y: u8|
                    y != e && ds.contains(y) && #[trigger] wings::bridged(
                        chains::links(g0, y),
                        a as int,
                        b as int,
                    );
                assert(ds.contains(y));
                assert(ds.contains(f[a as int]) && ds.contains(f[b as int]));
                assert(f[a as int] != e && f[b as int] != e);
                seqs::lemma_pair(ds, e, y, f[a as int]);
                seqs::lemma_pair(ds, e, y, f[b as int]);
                let ls = chains::links(g0, y);
                let k = choose|k: int|
                    0 <= k < ls.len() && wings::is_bridge(#[trigger] ls[k], a as int, b as int);
                chains::lemma_links(g0, y, 27);
                chains::lemma_strong_link(g0, f, y, ls[k]);
            }
        }
        grid::lemma_without_fits(g, gone, f);
    }
}

/// W-Wing never rules out a solution.
pub proof fn law_w_wing_sound(g: Grid, f: Seq<u8>)
    requires
        grid::wf(g),
        grid::fits(g, f),
    ensures
        grid::fits(wings::w_wing(g), f),
{
    let two = wings::valued(g, 2);
    wings::lemma_w_steps(g, two);
    wings::lemma_valued(g, 2);
    assert forall|h: Grid, n: int| 0 <= n < two.len() && grid::wf(h) && grid::fits(h, f) implies grid::fits(
        #[trigger] wings::w_first_step(g, two)(h, n),
        f,
    ) by {
        let step = wings::w_second_step(g, two, n);
        assert forall|i: Grid, k: int| 0 <= k < two.len() && grid::wf(i) && grid::fits(i, f) implies grid::fits(
            #[trigger] step(i, k),
            f,
        ) by {
            lemma_w_at_sound(g, i, f, two[n], two[k]);
        }
        grid::lemma_sweep_fits(h, two.len(), step, f);
    }
    grid::lemma_sweep_fits(g, two.len(), wings::w_first_step(g, two), f);
}

} // verus!
