//! Where a digit can still go in a unit.

use crate::board;
use crate::geometry;
use crate::grid;
use crate::grid::Grid;
use crate::mask;
use crate::seqs;
use crate::solver::Solver;
use vstd::prelude::*;

verus! {

pub open spec fn is_spot(g: Grid, d: u8) -> spec_fn(usize) -> bool {
    |i: usize| grid::open_at(g, i as int, d)
}

/// The cells of unit `u` that are empty and may become `d`, in order.
pub open spec fn spots(g: Grid, u: int, d: u8) -> Seq<usize> {
    geometry::unit(u).filter(is_spot(g, d))
}

pub proof fn lemma_spots(g: Grid, u: int, d: u8)
    requires
        0 <= u < 27,
    ensures
        spots(g, u, d).no_duplicates(),
        spots(g, u, d).len() <= 9,
        forall|i: usize| #[trigger]
            spots(g, u, d).contains(i) <==> i < 81 && geometry::in_unit(u, i as int)
                && grid::open_at(g, i as int, d),
        forall|k: int|
            0 <= k < spots(g, u, d).len() ==> #[trigger] spots(g, u, d)[k] < 81
                && geometry::in_unit(u, spots(g, u, d)[k] as int) && grid::open_at(
                g,
                spots(g, u, d)[k] as int,
                d,
            ),
{
    geometry::lemma_unit(u);
    seqs::lemma_filter_members(geometry::unit(u), is_spot(g, d));
    let s = spots(g, u, d);
    assert forall|i: usize| #[trigger] s.contains(i) <==> i < 81 && geometry::in_unit(u, i as int)
        && grid::open_at(g, i as int, d) by {
        if s.contains(i) {
            let k = geometry::unit(u).index_of(i);
            assert(geometry::unit(u)[k] == i);
        }
    }
    assert forall|k: int| 0 <= k < s.len() implies #[trigger] s[k] < 81 && geometry::in_unit(
        u,
        s[k] as int,
    ) && grid::open_at(g, s[k] as int, d) by {
        assert(s.contains(s[k]));
    }
}

/// A full grid has every digit in every unit.
pub proof fn lemma_unit_has(f: Seq<u8>, u: int, d: u8) -> (i: int)
    requires
        board::valid_grid(f),
        0 <= u < 27,
        1 <= d <= 9,
    ensures
        0 <= i < 81,
        geometry::in_unit(u, i),
        f[i] == d,
{
    geometry::lemma_unit(u);
    let s = geometry::unit(u);
    let t = Seq::new(9, |k: int| f[s[k] as int]);
    assert(t.no_duplicates()) by {
        assert forall|a: int, b: int| 0 <= a < b < 9 implies t[a] != t[b] by {
            geometry::lemma_unit_peers(u, s[a] as int, s[b] as int);
        }
    }
    t.unique_seq_to_set();
    grid::lemma_all_digits();
    assert(t.to_set().subset_of(mask::all_digits()));
    vstd::set_lib::lemma_subset_equality(t.to_set(), mask::all_digits());
    assert(t.to_set().contains(d));
    let k = choose|k: int| 0 <= k < 9 && t[k] == d;
    s[k] as int
}

/// Where a full grid that is still possible has `d` in unit `u`: in a cell that
/// holds `d` already, and then `d` is open nowhere in the unit; or in a spot.
pub proof fn lemma_spot_of(g: Grid, f: Seq<u8>, u: int, d: u8) -> (i: int)
    requires
        grid::wf(g),
        grid::fits(g, f),
        0 <= u < 27,
        1 <= d <= 9,
    ensures
        0 <= i < 81,
        geometry::in_unit(u, i),
        f[i] == d,
        g.cells[i] == d || grid::open_at(g, i, d),
        g.cells[i] == d ==> forall|j: int|
            0 <= j < 81 && geometry::in_unit(u, j) ==> !#[trigger] grid::open_at(g, j, d),
{
    let i = lemma_unit_has(f, u, d);
    if g.cells[i] != 0 {
        assert(g.cells[i] == d);
        assert forall|j: int| 0 <= j < 81 && geometry::in_unit(u, j) implies !#[trigger] grid::open_at(
            g,
            j,
            d,
        ) by {
            if i != j {
                geometry::lemma_unit_peers(u, i, j);
                assert(!g.cands[j].contains(g.cells[i]));
            }
        }
    }
    i
}

impl Solver {
    /// The cells of unit `u` that are empty and may become `d`.
    pub fn spots(&self, u: usize, d: u8) -> (v: Vec<usize>)
        requires
            u < 27,
            d < 16,
        ensures
            v@ == spots(self@, u as int, d),
    {
        let cells = if u < 9 {
            geometry::cells_in_row(u)
        } else if u < 18 {
            geometry::cells_in_col(u - 9)
        } else {
            geometry::cells_in_box(u - 18)
        };
        let ghost pred = is_spot(self@, d);
        let mut v: Vec<usize> = Vec::new();
        let mut k: usize = 0;
        proof {
            geometry::lemma_unit(u as int);
            seqs::lemma_filter_ends(cells@, pred);
        }
        while k < 9
            invariant
                k <= 9,
                d < 16,
                u < 27,
                cells@ == geometry::unit(u as int),
                cells@.len() == 9,
                pred == is_spot(self@, d),
                forall|n: int| 0 <= n < 9 ==> #[trigger] cells@[n] < 81,
                v@ == cells@.take(k as int).filter(pred),
            decreases 9 - k,
        {
            proof {
                seqs::lemma_filter_step(cells@, k as int, pred);
            }
            if self.allows(cells[k], d) {
                v.push(cells[k]);
            }
            k = k + 1;
        }
        v
    }
}

/// The spots of a unit come in reading order.
pub proof fn law_spots_in_order(g: Grid, u: int, d: u8, j: int, k: int)
    requires
        0 <= u < 27,
        0 <= j < k < spots(g, u, d).len(),
    ensures
        spots(g, u, d)[j] < spots(g, u, d)[k],
{
    assert forall|m: int, n: int| 0 <= m < n < geometry::unit(u).len() implies #[trigger] geometry::unit(
        u,
    )[m] < #[trigger] geometry::unit(u)[n] by {
        geometry::law_units_in_order(u, m, n);
    }
    seqs::lemma_filter_sorted(geometry::unit(u), is_spot(g, d));
}

} // verus!
