//! What naked and hidden subsets do to the solutions of a grid.

use crate::combos;
use crate::geometry;
use crate::grid;
use crate::grid::Grid;
use crate::mask;
use crate::seqs;
use crate::spots;
use crate::subsets;
use vstd::prelude::*;

verus! {

/// The digits that a full grid has in the different cells `c` of one unit are as
/// many as the cells.
proof fn lemma_values(f: Seq<u8>, u: int, c: Seq<usize>) -> (t: Seq<u8>)
    requires
        crate::board::valid_grid(f),
        0 <= u < 27,
        c.no_duplicates(),
        forall|k: int| 0 <= k < c.len() ==> #[trigger] c[k] < 81 && geometry::in_unit(u, c[k] as int),
    ensures
        t.len() == c.len(),
        forall|k: int| 0 <= k < c.len() ==> #[trigger] t[k] == f[c[k] as int],
        t.to_set().finite(),
        t.to_set().len() == c.len(),
{
    let t = Seq::new(c.len(), |k: int| f[c[k] as int]);
    assert forall|a: int, b: int| 0 <= a < b < t.len() implies t[a] != t[b] by {
        geometry::lemma_unit_peers(u, c[a] as int, c[b] as int);
    }
    t.unique_seq_to_set();
    t
}

proof fn lemma_naked_fits(g: Grid, f: Seq<u8>, u: int, c: Seq<usize>, size: nat)
    requires
        grid::wf(g),
        grid::fits(g, f),
        0 <= u < 27,
        c.len() == size,
        c.no_duplicates(),
        forall|k: int|
            0 <= k < c.len() ==> #[trigger] c[k] < 81 && geometry::in_unit(u, c[k] as int)
                && g.cells[c[k] as int] == 0,
    ensures
        grid::fits(subsets::naked_subset_at(g, u, c, size), f),
{
    let held = subsets::union_of(g, c);
    if held.len() == size {
        let t = lemma_values(f, u, c);
        assert forall|e: u8| #[trigger] t.to_set().contains(e) implies held.contains(e) by {
            let k = t.index_of(e);
            assert(t.contains(e));
            assert(t[k] == f[c[k] as int]);
            assert(g.cands[c[k] as int].contains(e));
        }
        grid::lemma_all_digits();
        assert(held.subset_of(mask::all_digits()));
        vstd::set_lib::lemma_len_subset(held, mask::all_digits());
        vstd::set_lib::lemma_subset_equality(t.to_set(), held);
        let gone = subsets::naked_gone(u, c, held);
        assert forall|j: int| #![trigger f[j]] 0 <= j < 81 && g.cells[j] == 0 implies !gone(j, f[j]) by {
            if gone(j, f[j]) {
                assert(t.to_set().contains(f[j]));
                let k = t.index_of(f[j]);
                assert(t.contains(f[j]));
                assert(t[k] == f[c[k] as int]);
                if c[k] == j {
                    assert(c.contains(j as usize));
                }
                geometry::lemma_unit_peers(u, c[k] as int, j);
            }
        }
        grid::lemma_without_fits(g, gone, f);
    }
}

proof fn lemma_naked_unit_fits(g: Grid, f: Seq<u8>, u: int, size: nat)
    requires
        grid::wf(g),
        grid::fits(g, f),
        0 <= u < 27,
    ensures
        grid::fits(subsets::naked_unit(g, u, size), f),
{
    let pool = subsets::pool(g, u, size);
    let cs = combos::combos(pool, size);
    let step = subsets::naked_subset_step(u, cs, size);
    geometry::lemma_unit(u);
    seqs::lemma_filter_members(geometry::unit(u), subsets::is_narrow(g, size));
    let inv = |h: Grid| grid::wf(h) && grid::fits(h, f) && h.cells == g.cells;
    assert forall|h: Grid, p: int| 0 <= p < cs.len() && inv(h) implies inv(#[trigger] step(h, p)) by {
        let c = cs[p];
        combos::lemma_combo(pool, size, p);
        assert forall|k: int| 0 <= k < c.len() implies #[trigger] c[k] < 81 && geometry::in_unit(
            u,
            c[k] as int,
        ) && h.cells[c[k] as int] == 0 by {
            assert(pool.contains(c[k]));
            let n = geometry::unit(u).index_of(c[k]);
            assert(geometry::unit(u).contains(c[k]));
            assert(geometry::unit(u)[n] == c[k]);
        }
        lemma_naked_fits(h, f, u, c, size);
        subsets::lemma_naked_subset_at(h, u, c, size);
    }
    grid::lemma_sweep(g, cs.len(), step, inv);
}

/// Naked subsets never rule out a solution.
pub proof fn law_naked_subsets_sound(g: Grid, f: Seq<u8>, size: nat)
    requires
        grid::wf(g),
        grid::fits(g, f),
    ensures
        grid::fits(subsets::naked_subsets(g, size), f),
{
    let step = subsets::naked_unit_step(size);
    assert forall|h: Grid, u: int| 0 <= u < 27 && grid::wf(h) implies grid::follows(
        h,
        #[trigger] step(h, u),
    ) by {
        subsets::lemma_naked_unit(h, u, size);
    }
    assert forall|h: Grid, u: int| 0 <= u < 27 && grid::wf(h) && grid::fits(h, f) implies grid::fits(
        #[trigger] step(h, u),
        f,
    ) by {
        lemma_naked_unit_fits(h, f, u, size);
    }
    grid::lemma_sweep_fits(g, 27, step, f);
}

/// One step of the hidden-subset technique keeps every solution.
pub proof fn law_hidden_subset_step(g: Grid, f: Seq<u8>, u: int, ds: Set<u8>, size: nat)
    requires
        grid::wf(g),
        grid::fits(g, f),
        0 <= u < 27,
        ds.finite(),
        ds.len() == size,
        ds.subset_of(mask::all_digits()),
    ensures
        grid::fits(subsets::hidden_subset_at(g, u, ds, size), f),
{
    let c = subsets::touched(g, u, ds);
    if c.len() == size && !subsets::holds_one(g, u, ds) {
        subsets::lemma_touched(g, u, ds);
        geometry::lemma_unit(u);
        let t = lemma_values(f, u, c);
        let gone = subsets::hidden_gone(c, ds);
        assert forall|e: u8| #[trigger] ds.contains(e) implies t.to_set().contains(e) by {
            let i = spots::lemma_spot_of(g, f, u, e);
            if g.cells[i] == e {
                assert(geometry::unit(u).contains(i as usize));
                let k = geometry::unit(u).index_of(i as usize);
                assert(geometry::unit(u)[k] == i);
            }
            assert(subsets::is_touched(g, ds)(i as usize));
            assert(c.contains(i as usize));
            let k = c.index_of(i as usize);
            assert(c[k] as int == i);
            assert(t[k] == e);
        }
        vstd::set_lib::lemma_subset_equality(ds, t.to_set());
        assert forall|j: int| #![trigger f[j]] 0 <= j < 81 && g.cells[j] == 0 implies !gone(
            j,
            f[j],
        ) by {
            if c.contains(j as usize) {
                let k = c.index_of(j as usize);
                assert(c[k] == j as usize);
                assert(t[k] == f[j]);
                assert(t.to_set().contains(f[j]));
            }
        }
        grid::lemma_without_fits(g, gone, f);
    }
}

/// The digits of a combination number as many as it has places.
pub proof fn lemma_digit_combo(size: nat, p: int)
    requires
        0 <= p < combos::combos(subsets::nine(), size).len(),
    ensures
        combos::combos(subsets::nine(), size)[p].to_set().finite(),
        combos::combos(subsets::nine(), size)[p].to_set().len() == size,
        combos::combos(subsets::nine(), size)[p].to_set().subset_of(mask::all_digits()),
{
    let c = combos::combos(subsets::nine(), size)[p];
    combos::lemma_combo(subsets::nine(), size, p);
    c.unique_seq_to_set();
    assert forall|e: u8| #[trigger] c.to_set().contains(e) implies mask::all_digits().contains(e) by {
        assert(c.contains(e));
        let k = c.index_of(e);
        assert(subsets::nine().contains(c[k]));
    }
}

/// Hidden subsets never rule out a solution.
pub proof fn law_hidden_subsets_sound(g: Grid, f: Seq<u8>, size: nat)
    requires
        grid::wf(g),
        grid::fits(g, f),
    ensures
        grid::fits(subsets::hidden_subsets(g, size), f),
{
    let step = subsets::hidden_unit_step(size);
    let n = combos::combos(subsets::nine(), size).len();
    assert forall|h: Grid, u: int| 0 <= u < 27 && grid::wf(h) implies grid::follows(
        h,
        #[trigger] step(h, u),
    ) by {
        subsets::lemma_hidden_unit(h, u, size);
    }
    assert forall|h: Grid, u: int| 0 <= u < 27 && grid::wf(h) && grid::fits(h, f) implies grid::fits(
        #[trigger] step(h, u),
        f,
    ) by {
        let inner = subsets::hidden_subset_step(u, size);
        assert forall|i: Grid, p: int| 0 <= p < n && grid::wf(i) implies grid::follows(
            i,
            #[trigger] inner(i, p),
        ) by {
            subsets::lemma_hidden_subset_at(
                i,
                u,
                combos::combos(subsets::nine(), size)[p].to_set(),
                size,
            );
        }
        assert forall|i: Grid, p: int| 0 <= p < n && grid::wf(i) && grid::fits(i, f) implies grid::fits(
            #[trigger] inner(i, p),
            f,
        ) by {
            lemma_digit_combo(size, p);
            law_hidden_subset_step(
                i,
                f,
                u,
                combos::combos(subsets::nine(), size)[p].to_set(),
                size,
            );
        }
        grid::lemma_sweep_fits(h, n, inner, f);
    }
    grid::lemma_sweep_fits(g, 27, step, f);
}

} // verus!
